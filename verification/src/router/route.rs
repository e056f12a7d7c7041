//! The route that a search found.

use vstd::prelude::*;
use crate::attr::{dur_ds, duration};
use crate::dataset::{seg_id, Dataset, DIR_BIT};
use crate::overlay::rows::{edge_head, edge_weight, far_end};
use crate::overrides::{edge_ds_ov, table, Effect, Overrides};
use crate::router::ends::{
    direct, eff_kmh, end_kmh, entries_of, exits_of, first_part, is_direct, last_part, partial_from,
    partial_to, seg_entries, seg_exits, time_all, timed, Along, Snap,
};
use crate::router::search::{found, Router};
use crate::searchstate::MAX_REACHED;

verus! {

/// One segment of a route.
#[derive(Clone, Copy, Debug)]
pub struct Leg {
    pub seg: u32,
    /// Against the direction in which the segment is drawn.
    pub reverse: bool,
    /// Centimetres driven on it.
    pub len_cm: u64,
}

pub struct Route {
    /// Centimetres driven, an exact sum.
    pub dist_cm: u64,
    /// Tenths of a second.
    pub dur_ds: u64,
    pub legs: Vec<Leg>,
    /// The vertices passed, in order.
    pub vertices: Vec<u32>,
    pub from: Snap,
    pub to: Snap,
}

/// What a drive comes to.
pub struct Drive {
    pub dist: int,
    pub dur: int,
    pub legs: Seq<Leg>,
}

/// The quickest open road from `a` to `b` among the edges before `k`; the first
/// of those that are equally quick.
pub open spec fn quickest(
    ds: Dataset,
    effects: Seq<(u32, Effect)>,
    a: u32,
    b: u32,
    k: int,
) -> Option<int>
    decreases k - edge_head(ds, true)[a as int],
{
    if k <= edge_head(ds, true)[a as int] {
        None
    } else {
        let p = quickest(ds, effects, a, b, k - 1);
        match edge_weight(ds, effects, true, k - 1) {
            Some(w) if far_end(ds, true, a, k - 1) == b && (p is None || w < edge_weight(
                ds,
                effects,
                true,
                p->0,
            )->0) => Some(k - 1),
            _ => p,
        }
    }
}

pub open spec fn edge_seg(ds: Dataset, t: int) -> int {
    crate::dataset::seg_of(ds.eseg@[t])
}

/// A drive with one more edge.
pub open spec fn with_edge(ds: Dataset, effects: Seq<(u32, Effect)>, d: Drive, t: int) -> Drive {
    let s = edge_seg(ds, t);
    Drive {
        dist: d.dist + ds.seg_len@[s],
        dur: d.dur + edge_weight(ds, effects, true, t)->0,
        legs: d.legs.push(
            Leg {
                seg: s as u32,
                reverse: ds.eseg@[t] >= DIR_BIT,
                len_cm: ds.seg_len@[s] as u64,
            },
        ),
    }
}

/// A drive with part of a segment more.
pub open spec fn with_part(d: Drive, s: Snap, kmh: u16, part: Option<(u32, bool)>) -> Drive {
    match part {
        None => d,
        Some((cm, reverse)) => Drive {
            dist: d.dist + cm,
            dur: d.dur + duration(cm, kmh),
            legs: d.legs.push(Leg { seg: s.seg, reverse, len_cm: cm as u64 }),
        },
    }
}

/// The drive over the first `n` vertices, having begun with `d`: every whole
/// segment counts with its stored length.
pub open spec fn whole(
    ds: Dataset,
    effects: Seq<(u32, Effect)>,
    path: Seq<u32>,
    d: Drive,
    n: int,
) -> Drive
    decreases n,
{
    if n <= 1 {
        d
    } else {
        let (a, b) = (path[n - 2], path[n - 1]);
        let rest = whole(ds, effects, path, d, n - 1);
        match quickest(ds, effects, a, b, edge_head(ds, true)[a + 1] as int) {
            None => rest,
            Some(t) => with_edge(ds, effects, rest, t),
        }
    }
}

/// The drive along a path: part of the first segment, whole segments, part of
/// the last.
pub open spec fn drive(
    ds: Dataset,
    effects: Seq<(u32, Effect)>,
    from: Snap,
    to: Snap,
    path: Seq<u32>,
) -> Drive {
    let none = Drive { dist: 0, dur: 0, legs: Seq::empty() };
    let lead = with_part(none, from, end_kmh(ds, effects, from), first_part(ds, from, path[0]));
    let mid = whole(ds, effects, path, lead, path.len() as int);
    with_part(mid, to, end_kmh(ds, effects, to), last_part(ds, to, path.last()))
}

pub open spec fn driven(r: Route, d: Drive) -> bool {
    r.dist_cm == d.dist && r.dur_ds == d.dur && r.legs@ == d.legs
}

fn add_part(r: &mut Route, s: &Snap, kmh: u16, part: Option<(u32, bool)>, Ghost(d): Ghost<Drive>)
    requires
        driven(*old(r), d),
        old(r).dist_cm <= u64::MAX - u32::MAX,
        old(r).dur_ds <= u64::MAX - u32::MAX,
    ensures
        driven(*final(r), with_part(d, *s, kmh, part)),
        final(r).dist_cm <= old(r).dist_cm + u32::MAX,
        final(r).dur_ds <= old(r).dur_ds + u32::MAX,
        final(r).vertices == old(r).vertices,
        final(r).from == old(r).from,
        final(r).to == old(r).to,
{
    if let Some((cm, reverse)) = part {
        let t: u32 = dur_ds(cm, kmh);
        r.legs.push(Leg { seg: s.seg, reverse, len_cm: cm as u64 });
        r.dist_cm = r.dist_cm + cm as u64;
        r.dur_ds = r.dur_ds + t as u64;
    }
}

/// Finds the quickest open road between neighbours.
fn find_edge(ds: &Dataset, ovr: Option<&Overrides>, a: u32, b: u32) -> (r: Option<(usize, u32)>)
    requires
        ds.graph_ok(),
        ds.ns() <= u32::MAX,
        ovr matches Some(o) ==> o.wf(),
        a < ds.nv(),
    ensures
        match r {
            None => quickest(*ds, table(ovr), a, b, ds.head@[a + 1] as int) is None,
            Some((t, w)) => {
                &&& quickest(*ds, table(ovr), a, b, ds.head@[a + 1] as int) == Some(t as int)
                &&& edge_weight(*ds, table(ovr), true, t as int) == Some(w)
                &&& t < ds.eseg@.len()
            },
        },
{
    let ghost eff = table(ovr);
    assert(ds.head@[a as int] <= ds.head@[a + 1]);
    assert(ds.head@[a + 1] <= ds.head@[ds.head@.len() - 1]);
    let (s, e): (usize, usize) = (ds.head[a as usize] as usize, ds.head[a as usize + 1] as usize);
    let mut pick: Option<(usize, u32)> = None;
    let mut k: usize = s;
    while k < e
        invariant
            ds.graph_ok(),
            ds.ns() <= u32::MAX,
            ovr matches Some(o) ==> o.wf(),
            eff == table(ovr),
            a < ds.nv(),
            s == ds.head@[a as int],
            e == ds.head@[a + 1],
            s <= k <= e <= ds.eseg@.len(),
            e <= u32::MAX,
            match pick {
                None => quickest(*ds, eff, a, b, k as int) is None,
                Some((t, w)) => quickest(*ds, eff, a, b, k as int) == Some(t as int)
                    && edge_weight(*ds, eff, true, t as int) == Some(w) && t < ds.eseg@.len(),
            },
        decreases e - k,
    {
        let v: u32 = ds.target(a, k);
        assert(v == far_end(*ds, true, a, k as int));
        let sid: usize = seg_id(ds.eseg[k]);
        let cost: Option<u32> = edge_ds_ov(ds, ovr, sid);
        assert(cost == edge_weight(*ds, eff, true, k as int));
        if v == b {
            if let Some(w) = cost {
                let better: bool = match pick {
                    None => true,
                    Some((_, bw)) => w < bw,
                };
                if better {
                    pick = Some((k, w));
                }
            }
        }
        k += 1;
    }
    pick
}

/// Builds the route along a path.
#[verifier::rlimit(40)]
pub fn build_route(ds: &Dataset, ovr: Option<&Overrides>, from: &Snap, to: &Snap, path: Vec<u32>) -> (r: Route)
    requires
        ds.graph_ok(),
        ds.ns() <= u32::MAX,
        ovr matches Some(o) ==> o.wf(),
        from.seg < ds.ns(),
        to.seg < ds.ns(),
        1 <= path@.len() <= 2 * MAX_REACHED,
        forall|i: int| 0 <= i < path@.len() ==> (#[trigger] path@[i]) < ds.nv(),
    ensures
        driven(r, drive(*ds, table(ovr), *from, *to, path@)),
        r.vertices@ == path@,
        r.from == *from,
        r.to == *to,
{
    let ghost eff = table(ovr);
    let n: usize = path.len();
    let mut r = Route {
        dist_cm: 0,
        dur_ds: 0,
        legs: Vec::new(),
        vertices: Vec::new(),
        from: *from,
        to: *to,
    };
    let ghost none = Drive { dist: 0, dur: 0, legs: Seq::empty() };
    assert(r.legs@ =~= Seq::<Leg>::empty());
    let fk: u16 = eff_kmh(ds, ovr, from);
    add_part(&mut r, from, fk, partial_from(ds, from, path[0]), Ghost(none));
    let ghost lead = with_part(none, *from, end_kmh(*ds, eff, *from), first_part(*ds, *from, path@[0]));
    let mut i: usize = 1;
    while i < n
        invariant
            ds.graph_ok(),
            ds.ns() <= u32::MAX,
            ovr matches Some(o) ==> o.wf(),
            eff == table(ovr),
            n == path@.len(),
            n <= 2 * MAX_REACHED,
            1 <= i <= n,
            forall|i: int| 0 <= i < path@.len() ==> (#[trigger] path@[i]) < ds.nv(),
            driven(r, whole(*ds, eff, path@, lead, i as int)),
            r.dist_cm <= i * 0xFFFF_FFFF,
            r.dur_ds <= i * 0xFFFF_FFFF,
            r.from == *from,
            r.to == *to,
        decreases n - i,
    {
        let (a, b): (u32, u32) = (path[i - 1], path[i]);
        assert(path@[i - 1] < ds.nv());
        if let Some((t, w)) = find_edge(ds, ovr, a, b) {
            let word: u32 = ds.eseg[t];
            let sid: usize = seg_id(word);
            let len: u32 = ds.seg_len[sid];
            r.legs.push(Leg { seg: sid as u32, reverse: word >= DIR_BIT, len_cm: len as u64 });
            r.dist_cm = r.dist_cm + len as u64;
            r.dur_ds = r.dur_ds + w as u64;
        }
        i += 1;
    }
    let tk: u16 = eff_kmh(ds, ovr, to);
    let ghost mid = whole(*ds, eff, path@, lead, n as int);
    add_part(&mut r, to, tk, partial_to(ds, to, path[n - 1]), Ghost(mid));
    r.vertices = path;
    r
}

/// The answer to a query: straight along the one segment where that is allowed,
/// else a drive along a cheapest path, if there is one.
pub open spec fn journey(
    ds: Dataset,
    effects: Seq<(u32, Effect)>,
    from: Snap,
    to: Snap,
    along: Along,
    r: Option<Route>,
) -> bool {
    if direct(ds, effects, from, to, along) {
        r matches Some(x) && {
            &&& x.dist_cm == along.cm
            &&& x.dur_ds == duration(along.cm, end_kmh(ds, effects, from))
            &&& x.legs@ == seq![
                Leg { seg: from.seg, reverse: !along.forward, len_cm: along.cm as u64 },
            ]
            &&& x.vertices@.len() == 0
            &&& x.from == from
            &&& x.to == to
        }
    } else {
        exists|res: Option<(u32, Vec<u32>)>| #[trigger] rode(ds, effects, from, to, res, r)
    }
}

/// A search from the ends of the one segment to the ends of the other, and the
/// drive along what it found.
pub open spec fn rode(
    ds: Dataset,
    effects: Seq<(u32, Effect)>,
    from: Snap,
    to: Snap,
    res: Option<(u32, Vec<u32>)>,
    r: Option<Route>,
) -> bool {
    let entries = timed(exits_of(ds, effects, from), end_kmh(ds, effects, from));
    let exits = timed(entries_of(ds, effects, to), end_kmh(ds, effects, to));
    &&& found(ds, effects, entries, exits, res)
    &&& match (res, r) {
        (None, None) => true,
        (Some((_, path)), Some(x)) => {
            &&& driven(x, drive(ds, effects, from, to, path@))
            &&& x.vertices@ == path@
            &&& x.from == from
            &&& x.to == to
        },
        _ => false,
    }
}

impl Router {
    /// As [`Router::route_with`], without local overrides.
    pub fn route(&mut self, ds: &Dataset, from: &Snap, to: &Snap, along: Along) -> (r: Option<Route>)
        requires
            old(self).wf(),
            ds.graph_ok(),
            ds.nv() <= old(self).room,
            ds.nv() < MAX_REACHED,
            ds.ns() <= u32::MAX,
            from.on(*ds),
            to.on(*ds),
        ensures
            final(self).wf(),
            final(self).room == old(self).room,
            if direct(*ds, Seq::empty(), *from, *to, along) {
                final(self).settled == 0
            } else {
                final(self).settles()
            },
            journey(*ds, Seq::empty(), *from, *to, along, r),
    {
        self.route_with(ds, from, to, along, None)
    }

    /// The quickest route, with local overrides applied. `along` says how the
    /// two places lie where they are on one segment.
    pub fn route_with(
        &mut self,
        ds: &Dataset,
        from: &Snap,
        to: &Snap,
        along: Along,
        ovr: Option<&Overrides>,
    ) -> (r: Option<Route>)
        requires
            old(self).wf(),
            ds.graph_ok(),
            ds.nv() <= old(self).room,
            ds.nv() < MAX_REACHED,
            ds.ns() <= u32::MAX,
            ovr matches Some(o) ==> o.wf(),
            from.on(*ds),
            to.on(*ds),
        ensures
            final(self).wf(),
            final(self).room == old(self).room,
            if direct(*ds, table(ovr), *from, *to, along) {
                final(self).settled == 0
            } else {
                final(self).settles()
            },
            journey(*ds, table(ovr), *from, *to, along, r),
    {
        let ghost eff = table(ovr);
        self.settled = 0;
        let live: Option<&Overrides> = match ovr {
            Some(o) => if o.is_empty() {
                assert(o@ =~= Seq::empty());
                None
            } else {
                Some(o)
            },
            None => None,
        };
        assert(table(live) == eff);
        let kmh: u16 = eff_kmh(ds, live, from);
        if is_direct(ds, live, from, to, along) {
            let mut legs: Vec<Leg> = Vec::new();
            legs.push(Leg { seg: from.seg, reverse: !along.forward, len_cm: along.cm as u64 });
            return Some(
                Route {
                    dist_cm: along.cm as u64,
                    dur_ds: dur_ds(along.cm, kmh) as u64,
                    legs,
                    vertices: Vec::new(),
                    from: *from,
                    to: *to,
                },
            );
        }
        let out: Vec<(u32, u32)> = seg_exits(ds, from, live);
        let entries: Vec<(u32, u32)> = time_all(&out, kmh);
        let back: Vec<(u32, u32)> = seg_entries(ds, to, live);
        let tk: u16 = eff_kmh(ds, live, to);
        let exits: Vec<(u32, u32)> = time_all(&back, tk);
        let res: Option<(u32, Vec<u32>)> = self.run(ds, live, &entries, &exits);
        let ghost was = res;
        match res {
            None => {
                let r: Option<Route> = None;
                assert(rode(*ds, eff, *from, *to, was, r));
                r
            },
            Some((_, path)) => {
                let r: Option<Route> = Some(build_route(ds, live, from, to, path));
                assert(rode(*ds, eff, *from, *to, was, r));
                r
            },
        }
    }
}

} // verus!
