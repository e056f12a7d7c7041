//! Where a route begins and ends: part of the way along a segment.

use vstd::prelude::*;
use crate::attr::{attr_kmh, attr_oneway, dur_ds, duration, kmh_of};
use crate::dataset::{seg_id, seg_of, Dataset};
use crate::lookup::lookup;
use crate::overrides::{edge_ds_ov, table, Effect, Overrides};

verus! {

/// Where a point came to lie on the network.
#[derive(Clone, Copy, Debug)]
pub struct Snap {
    pub seg: u32,
    pub u: u32,
    pub v: u32,
    /// Centimetres along the segment to either end.
    pub to_u: u32,
    pub to_v: u32,
    pub lat_e7: i32,
    pub lon_e7: i32,
    /// The speed here where a penalty slows the segment down.
    pub slowed_kmh: u16,
}

/// Two points on one segment: whether the second lies towards its end, and how
/// far apart they are.
#[derive(Clone, Copy, Debug)]
pub struct Along {
    pub forward: bool,
    pub cm: u32,
}

impl Snap {
    /// The place is on a segment of the dataset.
    pub open spec fn on(&self, ds: Dataset) -> bool {
        self.seg < ds.ns() && self.u < ds.nv() && self.v < ds.nv()
    }
}

/// A place at a vertex.
pub open spec fn lies_at(ds: Dataset, v: u32, slowed_kmh: u16, r: Option<Snap>) -> bool {
    match r {
        None => ds.head@[v as int] == ds.head@[v + 1],
        Some(s) => {
            let sid = seg_of(ds.eseg@[ds.head@[v as int] as int]);
            let at_u = ds.seg_u@[sid] == v;
            &&& ds.head@[v as int] < ds.head@[v + 1]
            &&& s.seg == sid
            &&& s.u == ds.seg_u@[sid]
            &&& s.v == ds.seg_v@[sid]
            &&& (s.to_u, s.to_v) == if at_u {
                (0u32, ds.seg_len@[sid])
            } else {
                (ds.seg_len@[sid], 0u32)
            }
            &&& (s.lat_e7, s.lon_e7) == ds.vcoord@[v as int]
            &&& s.slowed_kmh == slowed_kmh
        },
    }
}

/// Lies at a vertex: on the first segment that leaves it, at that end. Nothing
/// where none leaves.
pub fn vertex_snap(ds: &Dataset, v: u32, slowed_kmh: u16) -> (r: Option<Snap>)
    requires
        ds.graph_ok(),
        v < ds.nv(),
        v < ds.vcoord@.len(),
        ds.seg_u@.len() == ds.ns(),
        ds.seg_v@.len() == ds.ns(),
    ensures
        lies_at(*ds, v, slowed_kmh, r),
{
    assert(ds.head@[v as int] <= ds.head@[v + 1]);
    assert(ds.head@[v + 1] <= ds.head@[ds.head@.len() - 1]);
    let (a, b): (usize, usize) = (ds.head[v as usize] as usize, ds.head[v as usize + 1] as usize);
    if a == b {
        return None;
    }
    let seg: usize = seg_id(ds.eseg[a]);
    let (u, w): (u32, u32) = (ds.seg_u[seg], ds.seg_v[seg]);
    let len: u32 = ds.seg_len[seg];
    let (to_u, to_v): (u32, u32) = if u == v {
        (0, len)
    } else {
        (len, 0)
    };
    let (lat_e7, lon_e7): (i32, i32) = ds.vcoord[v as usize];
    Some(Snap { seg: seg as u32, u, v: w, to_u, to_v, lat_e7, lon_e7, slowed_kmh })
}

/// The speed on a segment that is only driven in part.
pub open spec fn end_kmh(ds: Dataset, effects: Seq<(u32, Effect)>, s: Snap) -> u16 {
    match lookup(effects, s.seg) {
        Some(Effect::Speed(k)) => k,
        Some(Effect::Penalty(_)) => s.slowed_kmh,
        _ => kmh_of(ds.spec_attr(s.seg as int)),
    }
}

/// The speed to use on a segment that is only driven in part.
pub fn eff_kmh(ds: &Dataset, ovr: Option<&Overrides>, s: &Snap) -> (k: u16)
    requires
        ds.attrs_ok(),
        s.seg < ds.ns(),
        ovr matches Some(o) ==> o.wf(),
    ensures
        k == end_kmh(*ds, table(ovr), *s),
{
    let base: u16 = attr_kmh(ds.attr(s.seg as usize));
    match ovr {
        Some(o) => {
            if o.touches(s.seg) {
                return match o.effect(s.seg) {
                    Some(Effect::Speed(k)) => k,
                    Some(Effect::Penalty(_)) => s.slowed_kmh,
                    _ => base,
                };
            }
        },
        None => {},
    }
    base
}

/// The ends of its segment that can be driven to from a place, each with the
/// centimetres there. There are none where the segment is closed.
pub open spec fn exits_of(ds: Dataset, effects: Seq<(u32, Effect)>, s: Snap) -> Seq<(u32, u32)> {
    let ow = attr_way(ds, s);
    if ds.cost(effects, s.seg as int) is None {
        Seq::empty()
    } else if ow == 0 {
        seq![(s.v, s.to_v), (s.u, s.to_u)]
    } else if ow == 1 {
        seq![(s.v, s.to_v)]
    } else if ow == 2 {
        seq![(s.u, s.to_u)]
    } else {
        Seq::empty()
    }
}

/// The ends of its segment from which a place can be driven to.
pub open spec fn entries_of(ds: Dataset, effects: Seq<(u32, Effect)>, s: Snap) -> Seq<(u32, u32)> {
    let ow = attr_way(ds, s);
    if ds.cost(effects, s.seg as int) is None {
        Seq::empty()
    } else if ow == 0 {
        seq![(s.u, s.to_u), (s.v, s.to_v)]
    } else if ow == 1 {
        seq![(s.u, s.to_u)]
    } else if ow == 2 {
        seq![(s.v, s.to_v)]
    } else {
        Seq::empty()
    }
}

/// The direction rule of the segment: both ways, along it, or against it.
pub open spec fn attr_way(ds: Dataset, s: Snap) -> int {
    (ds.spec_attr(s.seg as int) as int / 16) % 4
}

/// Ends reached by finishing the segment that a trip starts on.
pub fn seg_exits(ds: &Dataset, s: &Snap, ovr: Option<&Overrides>) -> (r: Vec<(u32, u32)>)
    requires
        ds.attrs_ok(),
        s.seg < ds.ns(),
        ovr matches Some(o) ==> o.wf(),
    ensures
        r@ == exits_of(*ds, table(ovr), *s),
{
    let mut r: Vec<(u32, u32)> = Vec::new();
    if edge_ds_ov(ds, ovr, s.seg as usize).is_none() {
        return r;
    }
    let ow: u8 = attr_oneway(ds.attr(s.seg as usize));
    if ow == 0 || ow == 1 {
        r.push((s.v, s.to_v));
    }
    if ow == 0 || ow == 2 {
        r.push((s.u, s.to_u));
    }
    assert(r@ =~= exits_of(*ds, table(ovr), *s));
    r
}

/// Ends from which the destination can be reached along its segment.
pub fn seg_entries(ds: &Dataset, s: &Snap, ovr: Option<&Overrides>) -> (r: Vec<(u32, u32)>)
    requires
        ds.attrs_ok(),
        s.seg < ds.ns(),
        ovr matches Some(o) ==> o.wf(),
    ensures
        r@ == entries_of(*ds, table(ovr), *s),
{
    let mut r: Vec<(u32, u32)> = Vec::new();
    if edge_ds_ov(ds, ovr, s.seg as usize).is_none() {
        return r;
    }
    let ow: u8 = attr_oneway(ds.attr(s.seg as usize));
    if ow == 0 || ow == 1 {
        r.push((s.u, s.to_u));
    }
    if ow == 0 || ow == 2 {
        r.push((s.v, s.to_v));
    }
    assert(r@ =~= entries_of(*ds, table(ovr), *s));
    r
}

/// Distances as times at a speed.
pub open spec fn timed(s: Seq<(u32, u32)>, kmh: u16) -> Seq<(u32, u32)> {
    Seq::new(s.len(), |i: int| (s[i].0, duration(s[i].1, kmh)))
}

pub fn time_all(s: &Vec<(u32, u32)>, kmh: u16) -> (r: Vec<(u32, u32)>)
    ensures
        r@ == timed(s@, kmh),
{
    let mut r: Vec<(u32, u32)> = Vec::new();
    while r.len() < s.len()
        invariant
            r@.len() <= s@.len(),
            forall|i: int| 0 <= i < r@.len() ==> #[trigger] r@[i] == timed(s@, kmh)[i],
        decreases s@.len() - r@.len(),
    {
        let (v, cm): (u32, u32) = s[r.len()];
        r.push((v, dur_ds(cm, kmh)));
    }
    assert(r@ =~= timed(s@, kmh));
    r
}

/// Whether a trip leaves its first segment at the far end where both ends are
/// one vertex: where only that is allowed, or where it is no further.
pub open spec fn leaves_ahead(ds: Dataset, s: Snap) -> bool {
    attr_way(ds, s) == 1 || (attr_way(ds, s) != 2 && s.to_v <= s.to_u)
}

/// Whether a trip enters its last segment at the near end where both ends are
/// one vertex.
pub open spec fn enters_ahead(ds: Dataset, s: Snap) -> bool {
    attr_way(ds, s) == 1 || (attr_way(ds, s) != 2 && s.to_u <= s.to_v)
}

/// The part of the first segment that is driven to leave it at `entry`, and
/// whether against its direction.
pub open spec fn first_part(ds: Dataset, s: Snap, entry: u32) -> Option<(u32, bool)> {
    if entry == s.v && (s.u != s.v || leaves_ahead(ds, s)) {
        Some((s.to_v, false))
    } else if entry == s.u {
        Some((s.to_u, true))
    } else {
        None
    }
}

/// The part of the last segment that is driven having entered it at `exit`.
pub open spec fn last_part(ds: Dataset, s: Snap, exit: u32) -> Option<(u32, bool)> {
    if exit == s.u && (s.u != s.v || enters_ahead(ds, s)) {
        Some((s.to_u, false))
    } else if exit == s.v {
        Some((s.to_v, true))
    } else {
        None
    }
}

pub fn partial_from(ds: &Dataset, s: &Snap, entry: u32) -> (r: Option<(u32, bool)>)
    requires
        ds.attrs_ok(),
        s.seg < ds.ns(),
    ensures
        r == first_part(*ds, *s, entry),
{
    let ow: u8 = attr_oneway(ds.attr(s.seg as usize));
    if entry == s.v && (s.u != s.v || ow == 1 || (ow != 2 && s.to_v <= s.to_u)) {
        Some((s.to_v, false))
    } else if entry == s.u {
        Some((s.to_u, true))
    } else {
        None
    }
}

pub fn partial_to(ds: &Dataset, s: &Snap, exit: u32) -> (r: Option<(u32, bool)>)
    requires
        ds.attrs_ok(),
        s.seg < ds.ns(),
    ensures
        r == last_part(*ds, *s, exit),
{
    let ow: u8 = attr_oneway(ds.attr(s.seg as usize));
    if exit == s.u && (s.u != s.v || ow == 1 || (ow != 2 && s.to_u <= s.to_v)) {
        Some((s.to_u, false))
    } else if exit == s.v {
        Some((s.to_v, true))
    } else {
        None
    }
}

/// Both ends are on one open segment, and its direction allows driving straight
/// from the one to the other.
pub open spec fn direct(
    ds: Dataset,
    effects: Seq<(u32, Effect)>,
    a: Snap,
    b: Snap,
    along: Along,
) -> bool {
    let ow = attr_way(ds, a);
    &&& a.seg == b.seg
    &&& ds.cost(effects, a.seg as int) is Some
    &&& ow == 0 || (ow == 1 && along.forward) || (ow == 2 && !along.forward)
}

/// Whether no search is needed.
pub fn is_direct(ds: &Dataset, ovr: Option<&Overrides>, a: &Snap, b: &Snap, along: Along) -> (r: bool)
    requires
        ds.attrs_ok(),
        a.seg < ds.ns(),
        ovr matches Some(o) ==> o.wf(),
    ensures
        r == direct(*ds, table(ovr), *a, *b, along),
{
    if a.seg != b.seg {
        return false;
    }
    if edge_ds_ov(ds, ovr, a.seg as usize).is_none() {
        return false;
    }
    let ow: u8 = attr_oneway(ds.attr(a.seg as usize));
    ow == 0 || (ow == 1 && along.forward) || (ow == 2 && !along.forward)
}

} // verus!
