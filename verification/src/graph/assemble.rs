//! The whole graph, put together from the contracted segments.

use vstd::prelude::*;
use crate::attr::{attr_class, class_at, class_of};
use crate::bitmap::{ones, BitMap};
use crate::dataset::{head_ok, unpacked};
use crate::graph::adjacency::{
    adjacent, build_side, edges_ok, ends_of, near, seg_id, segment_ends, Side, REVERSED,
};
use crate::csr::slot;
use crate::graph::grid::on_globe;
use crate::graph::order::{along_curve, gather, junctions_ok, renumber};
use crate::graph::pack::{build_attr_dict, distinct, pack_targets};
use crate::graph::renumber::{
    apart, drawn, lemma_numbered_apart, move_geometry, new_ids, numbered, permuted, reword,
    reworded,
};
use crate::graph::snap::{
    big_pred, build_snap_index, entries, fine_pred, index_of, places_in, Roads, SnapIndex,
    MAX_ENTRIES,
};
use crate::lookup::keyed;
use crate::overlay::fits::lemma_in_block;
use crate::profile::class_tier;

verus! {

/// What the graph is built from.
pub struct Parts<'a> {
    pub need: &'a BitMap,
    pub junc: &'a BitMap,
    /// Coordinates of the kept nodes, in the order of their ids.
    pub coords: &'a [(i32, i32)],
    /// Directed edges: both ends by junction, and the segment word.
    pub edges: &'a [(u32, u32, u32)],
    pub len_cm: &'a [u32],
    pub attr: &'a [u32],
    pub name: &'a [u32],
    pub off: &'a [u32],
    pub pts: &'a [(i32, i32)],
}

impl<'a> Parts<'a> {
    pub open spec fn nv(&self) -> int {
        ones(self.junc.words@, self.junc.room())
    }

    pub open spec fn nseg(&self) -> int {
        self.len_cm@.len() as int
    }

    pub open spec fn wf(&self) -> bool {
        &&& junctions_ok(*self.need, *self.junc, self.coords@)
        &&& self.nv() < u32::MAX
        &&& self.nseg() <= REVERSED
        &&& self.nseg() > 0 ==> self.nv() > 0
        &&& self.attr@.len() == self.nseg()
        &&& self.name@.len() == self.nseg()
        &&& self.off@.len() == self.nseg() + 1
        &&& self.off@[0] == 0
        &&& head_ok(self.off@, self.pts@.len() as int)
        &&& self.edges@.len() <= u32::MAX
        &&& forall|e: int|
            0 <= e < self.edges@.len() ==> (#[trigger] self.edges@[e]).0 < self.nv()
                && self.edges@[e].1 < self.nv() && seg_id(self.edges@[e].2) < self.nseg()
        &&& forall|i: int| 0 <= i < self.coords@.len() ==> on_globe(#[trigger] self.coords@[i])
        &&& forall|i: int| 0 <= i < self.pts@.len() ==> on_globe(#[trigger] self.pts@[i])
    }
}

/// One side of the graph as it is stored.
pub struct PackedSide {
    pub head: Vec<u32>,
    pub seg: Vec<u32>,
    pub d16: Vec<i16>,
    pub exc: Vec<(u32, u32)>,
}

pub struct Graph {
    pub perm: Vec<u32>,
    pub vcoord: Vec<(i32, i32)>,
    pub forward: PackedSide,
    pub backward: PackedSide,
    pub su: Vec<u32>,
    pub sv: Vec<u32>,
    /// The number that each segment handed in has now.
    pub moved: Vec<u32>,
    pub len_cm: Vec<u32>,
    pub name: Vec<u32>,
    /// Attributes through a dictionary.
    pub attr16: Vec<u16>,
    pub dict: Vec<u32>,
    pub off: Vec<u32>,
    pub pts: Vec<(i32, i32)>,
    pub index: SnapIndex,
}

/// The coordinate of every junction.
pub open spec fn vertex_coords(p: Parts, vc: Seq<(i32, i32)>) -> bool {
    &&& vc.len() == p.nv()
    &&& forall|id: int|
        0 <= id < p.junc.room() && #[trigger] p.junc.has(id) ==> vc[ones(p.junc.words@, id)]
            == p.coords@[ones(p.need.words@, id)]
}

/// A stored side gives back the edges of the plain one, under new segment
/// numbers.
pub open spec fn side_of(s: Side, newid: Seq<u32>, x: PackedSide) -> bool {
    &&& x.head@ == s.head@
    &&& x.seg@.len() == s.seg@.len()
    &&& x.d16@.len() == s.to@.len()
    &&& keyed(x.exc@)
    &&& forall|k: int|
        0 <= k < s.seg@.len() ==> #[trigger] x.seg@[k] == reworded(newid, s.seg@[k])
    &&& forall|u: int, k: int|
        0 <= u < s.head@.len() - 1 && s.head@[u] <= k < s.head@[u + 1] ==> #[trigger] unpacked(
            x.d16@,
            x.exc@,
            Seq::empty(),
            u as u32,
            k,
        ) == s.to@[k]
}

/// Which segments belong in the overview.
pub open spec fn main_roads(attr: Seq<u32>) -> Seq<bool> {
    Seq::new(attr.len(), |s: int| class_tier(class_at((attr[s] % 16) as u8)) <= 1)
}

/// The arrays of a graph that say where its segments run.
pub open spec fn roads_of(g: Graph) -> (
    Seq<(i32, i32)>,
    Seq<u32>,
    Seq<u32>,
    Seq<u32>,
    Seq<(i32, i32)>,
) {
    (g.vcoord@, g.su@, g.sv@, g.off@, g.pts@)
}

/// Every segment keeps what it had, under its new number.
pub open spec fn segments_moved(p: Parts, perm: Seq<u32>, newid: Seq<u32>, g: Graph) -> bool {
    let n = p.nseg();
    let ne = p.edges@.len() as int;
    &&& newid.len() == n
    &&& g.len_cm@.len() == n
    &&& g.name@.len() == n
    &&& g.attr16@.len() == n
    &&& g.su@.len() == n
    &&& g.sv@.len() == n
    &&& forall|o: int|
        0 <= o < n ==> {
            let s = (#[trigger] newid[o]) as int;
            &&& g.len_cm@[s] == p.len_cm@[o]
            &&& g.name@[s] == p.name@[o]
            &&& g.attr16@[s] < g.dict@.len()
            &&& g.dict@[g.attr16@[s] as int] == p.attr@[o]
            &&& (g.su@[s], g.sv@[s]) == ends_of(p.edges@, perm, o, ne)
            &&& drawn(g.off@, g.pts@, s) == drawn(p.off@, p.pts@, o)
        }
    &&& g.off@.len() == n + 1
    &&& g.off@[0] == 0
    &&& head_ok(g.off@, g.pts@.len() as int)
    &&& g.pts@.len() == p.pts@.len()
}

/// Vertices and segments under their new numbers.
pub open spec fn laid(
    p: Parts,
    vc: Seq<(i32, i32)>,
    perm: Seq<u32>,
    f: Side,
    newid: Seq<u32>,
    attr: Seq<u32>,
    r: Roads,
) -> bool {
    let n = p.nseg();
    &&& vertex_coords(p, vc)
    &&& along_curve(vc, perm, r.vcoord@)
    &&& adjacent(p.edges@, perm, true, p.nv(), f)
    &&& numbered(f.seg@, newid)
    &&& newid.len() == n
    &&& attr.len() == n
    &&& r.su@.len() == n
    &&& r.sv@.len() == n
    &&& r.off@.len() == n + 1
    &&& r.off@[0] == 0
    &&& head_ok(r.off@, r.pts@.len() as int)
    &&& forall|o: int|
        0 <= o < n ==> {
            let s = (#[trigger] newid[o]) as int;
            &&& attr[s] == p.attr@[o]
            &&& (r.su@[s], r.sv@[s]) == ends_of(p.edges@, perm, o, p.edges@.len() as int)
            &&& drawn(r.off@, r.pts@, s) == drawn(p.off@, p.pts@, o)
        }
}

/// What the graph is, given the numbers of vertices and segments.
pub open spec fn assembled(
    p: Parts,
    vc: Seq<(i32, i32)>,
    f: Side,
    b: Side,
    newid: Seq<u32>,
    attr: Seq<u32>,
    r: Roads,
    g: Graph,
) -> bool {
    &&& laid(p, vc, g.perm@, f, newid, attr, r)
    &&& g.moved@ == newid
    &&& adjacent(p.edges@, g.perm@, false, p.nv(), b)
    &&& side_of(f, newid, g.forward)
    &&& side_of(b, newid, g.backward)
    &&& segments_moved(p, g.perm@, newid, g)
    &&& g.dict@ == distinct(attr, attr.len() as int)
    &&& (r.vcoord@, r.su@, r.sv@, r.off@, r.pts@) == roads_of(g)
    &&& index_of(g.index.snap, p.nseg(), fine_pred(r))
    &&& index_of(g.index.big, p.nseg(), big_pred(r, main_roads(attr)))
    &&& g.index.entries == entries(r, p.nseg())
}

/// The graph is one of the parts.
pub open spec fn is_graph(p: Parts, g: Graph) -> bool {
    exists|
        vc: Seq<(i32, i32)>,
        f: Side,
        b: Side,
        newid: Seq<u32>,
        attr: Seq<u32>,
        r: Roads,
    | #[trigger]
        assembled(p, vc, f, b, newid, attr, r, g)
}

/// There are more attribute words than the dictionary has room for.
pub open spec fn too_varied(p: Parts) -> bool {
    exists|
        vc: Seq<(i32, i32)>,
        perm: Seq<u32>,
        f: Side,
        newid: Seq<u32>,
        attr: Seq<u32>,
        r: Roads,
    | #[trigger]
        laid(p, vc, perm, f, newid, attr, r) && distinct(attr, attr.len() as int).len() > 65536
}

/// More entries remain in a grid, each counted once, than there are numbers.
pub open spec fn too_dense(p: Parts) -> bool {
    exists|
        vc: Seq<(i32, i32)>,
        perm: Seq<u32>,
        f: Side,
        newid: Seq<u32>,
        attr: Seq<u32>,
        r: Roads,
    | #[trigger]
        laid(p, vc, perm, f, newid, attr, r) && (places_in(fine_pred(r), p.nseg()).len()
            > MAX_ENTRIES || places_in(big_pred(r, main_roads(attr)), p.nseg()).len()
            > MAX_ENTRIES)
}

/// Why a graph could not be put together.
#[derive(Clone, Copy, PartialEq, Eq, Debug, Structural)]
pub enum Refused {
    /// More attribute words than the dictionary has room for.
    Dictionary,
    /// More entries in a grid than there are numbers.
    Grid,
}

fn copy_of(s: &[u32]) -> (r: Vec<u32>)
    ensures
        r@ == s@,
{
    let mut r: Vec<u32> = Vec::new();
    while r.len() < s.len()
        invariant
            r@.len() <= s@.len(),
            r@ == s@.take(r@.len() as int),
        decreases s@.len() - r@.len(),
    {
        let x: u32 = s[r.len()];
        assert(s@.take(r@.len() as int).push(x) =~= s@.take(r@.len() as int + 1));
        r.push(x);
    }
    assert(s@.take(s@.len() as int) =~= s@);
    r
}

fn pack_side(s: Side, newid: &Vec<u32>, Ghost(p): Ghost<Parts>, Ghost(perm): Ghost<Seq<u32>>, Ghost(
    fwd,
): Ghost<bool>) -> (x: PackedSide)
    requires
        p.wf(),
        perm.len() == p.nv(),
        adjacent(p.edges@, perm, fwd, p.nv(), s),
        newid@.len() == p.nseg(),
        forall|a: int| 0 <= a < newid@.len() ==> (#[trigger] newid@[a]) < newid@.len(),
        forall|k: int| 0 <= k < s.seg@.len() ==> seg_id(#[trigger] s.seg@[k]) < p.nseg(),
    ensures
        side_of(s, newid@, x),
{
    let (d16, exc): (Vec<i16>, Vec<(u32, u32)>) = pack_targets(&s.head, &s.to);
    let seg: Vec<u32> = reword(&s.seg, newid);
    proof {
        let hd = s.head@;
        assert forall|u: int, k: int|
            0 <= u < hd.len() - 1 && hd[u] <= k < hd[u + 1] implies #[trigger] unpacked(
            d16@,
            exc@,
            Seq::empty(),
            u as u32,
            k,
        ) == s.to@[k] by {
            assert(hd[u + 1] <= hd[hd.len() - 1]);
            assert(s.to@.len() > 0);
        }
    }
    PackedSide { head: s.head, seg, d16, exc }
}

fn mains(attr: &Vec<u32>) -> (m: Vec<bool>)
    ensures
        m@ == main_roads(attr@),
{
    let mut m: Vec<bool> = Vec::new();
    while m.len() < attr.len()
        invariant
            m@.len() <= attr@.len(),
            forall|s: int| 0 <= s < m@.len() ==> #[trigger] m@[s] == main_roads(attr@)[s],
        decreases attr@.len() - m@.len(),
    {
        let a: u32 = attr[m.len()];
        m.push(class_of(attr_class(a)).tier() <= 1);
    }
    assert(m@ =~= main_roads(attr@));
    m
}

/// Every word of a side names a segment.
proof fn lemma_words(p: Parts, perm: Seq<u32>, fwd: bool, s: Side)
    requires
        p.wf(),
        edges_ok(p.edges@, perm),
        perm.len() == p.nv(),
        adjacent(p.edges@, perm, fwd, p.nv(), s),
    ensures
        forall|k: int| 0 <= k < s.seg@.len() ==> seg_id(#[trigger] s.seg@[k]) < p.nseg(),
{
    let keys = near(p.edges@, perm, fwd);
    let n = keys.len() as int;
    assert forall|k: int| 0 <= k < s.seg@.len() implies seg_id(#[trigger] s.seg@[k])
        < p.nseg() by {
        lemma_slots_onto(keys, k);
        let e = choose|e: int| 0 <= e < keys.len() && #[trigger] slot(keys, e) == k;
        assert(s.seg@[slot(keys, e)] == p.edges@[e].2);
        assert(seg_id(p.edges@[e].2) < p.nseg());
    }
}

/// Every slot is some item's.
pub(crate) proof fn lemma_slots_onto(keys: Seq<u32>, k: int)
    requires
        0 <= k < keys.len(),
    ensures
        exists|e: int| 0 <= e < keys.len() && #[trigger] slot(keys, e) == k,
{
    let n = keys.len() as int;
    let at = Seq::new(keys.len(), |e: int| slot(keys, e));
    assert(at.no_duplicates()) by {
        assert forall|i: int, j: int|
            0 <= i < at.len() && 0 <= j < at.len() && i != j implies at[i] != at[j] by {
            if i < j {
                crate::csr::lemma_slots_apart(keys, i, j);
            } else {
                crate::csr::lemma_slots_apart(keys, j, i);
            }
        }
    }
    at.unique_seq_to_set();
    let all = vstd::set_lib::set_int_range(0, n);
    vstd::set_lib::lemma_int_range(0, n);
    assert(at.to_set().subset_of(all)) by {
        assert forall|x: int| at.to_set().contains(x) implies all.contains(x) by {
            let i = at.index_of(x);
            assert(at[i] == x);
            crate::csr::lemma_slot_range(keys, i);
        }
    }
    vstd::set_lib::lemma_subset_equality(at.to_set(), all);
    assert(all.contains(k));
    let e = at.index_of(k);
    assert(at[e] == k);
    assert(slot(keys, e) == k);
}

/// Both ends of a segment are vertices.
proof fn lemma_ends_range(p: Parts, perm: Seq<u32>, s: int, n: int)
    requires
        p.wf(),
        edges_ok(p.edges@, perm),
        perm.len() == p.nv(),
        p.nv() > 0,
        0 <= n <= p.edges@.len(),
    ensures
        ends_of(p.edges@, perm, s, n).0 < p.nv(),
        ends_of(p.edges@, perm, s, n).1 < p.nv(),
    decreases n,
{
    if n > 0 {
        lemma_ends_range(p, perm, s, n - 1);
        let e = p.edges@[n - 1];
        assert(perm[e.0 as int] < perm.len() && perm[e.1 as int] < perm.len());
    }
}

/// The graph under its new numbers is on the globe, and its segments' ends are
/// vertices.
#[verifier::rlimit(40)]
proof fn lemma_roads(
    p: Parts,
    vc: Seq<(i32, i32)>,
    perm: Seq<u32>,
    vcoord: Seq<(i32, i32)>,
    newid: Seq<u32>,
    su: Seq<u32>,
    sv: Seq<u32>,
    off: Seq<u32>,
    pts: Seq<(i32, i32)>,
    r: Roads,
)
    requires
        p.wf(),
        vertex_coords(p, vc),
        along_curve(vc, perm, vcoord),
        edges_ok(p.edges@, perm),
        apart(newid),
        newid.len() == p.nseg(),
        su.len() == p.nseg(),
        sv.len() == p.nseg(),
        forall|o: int|
            0 <= o < p.nseg() ==> (su[(#[trigger] newid[o]) as int], sv[newid[o] as int])
                == ends_of(p.edges@, perm, o, p.edges@.len() as int),
        off.len() == p.nseg() + 1,
        off[0] == 0,
        head_ok(off, pts.len() as int),
        forall|o: int|
            0 <= o < p.nseg() ==> drawn(off, pts, (#[trigger] newid[o]) as int) == drawn(
                p.off@,
                p.pts@,
                o,
            ),
        r.vcoord@ == vcoord,
        r.su@ == su,
        r.sv@ == sv,
        r.off@ == off,
        r.pts@ == pts,
        forall|i: int| 0 <= i < vc.len() ==> on_globe(#[trigger] vc[i]),
    ensures
        r.wf(),
{
    let n = p.nseg();
    assert forall|s: int| 0 <= s < n implies (#[trigger] su[s]) < vcoord.len() by {
        crate::graph::renumber::lemma_onto(newid, s);
        let o = choose|x: int| 0 <= x < newid.len() && #[trigger] newid[x] == s;
        lemma_ends_range(p, perm, o, p.edges@.len() as int);
        assert(su[newid[o] as int] == ends_of(p.edges@, perm, o, p.edges@.len() as int).0);
    }
    assert forall|s: int| 0 <= s < n implies (#[trigger] sv[s]) < vcoord.len() by {
        crate::graph::renumber::lemma_onto(newid, s);
        let o = choose|x: int| 0 <= x < newid.len() && #[trigger] newid[x] == s;
        lemma_ends_range(p, perm, o, p.edges@.len() as int);
        assert(sv[newid[o] as int] == ends_of(p.edges@, perm, o, p.edges@.len() as int).1);
    }
    assert forall|s: int| 0 <= s < off.len() - 1 implies #[trigger] off[s] <= off[s + 1]
        <= pts.len() by {
        assert(off[s + 1] <= off[off.len() - 1]);
    }
    assert forall|i: int| 0 <= i < pts.len() implies on_globe(#[trigger] pts[i]) by {
        let s = lemma_in_block(off, Seq::new(pts.len(), |x: int| 0u32), n, i);
        crate::graph::renumber::lemma_onto(newid, s);
        let o = choose|x: int| 0 <= x < newid.len() && #[trigger] newid[x] == s;
        assert(off[s + 1] <= off[off.len() - 1]);
        assert(p.off@[o] <= p.off@[o + 1] <= p.off@[p.off@.len() - 1]);
        assert(drawn(off, pts, s)[i - off[s]] == pts[i]);
        assert(drawn(off, pts, newid[o] as int) == drawn(p.off@, p.pts@, o));
        assert(drawn(off, pts, s).len() == off[s + 1] - off[s]);
        assert(drawn(p.off@, p.pts@, o).len() == p.off@[o + 1] - p.off@[o]);
        assert(drawn(p.off@, p.pts@, o)[i - off[s]] == p.pts@[p.off@[o] + i - off[s]]);
        assert(on_globe(p.pts@[p.off@[o] + i - off[s]]));
    }
    assert forall|i: int| 0 <= i < vcoord.len() implies on_globe(#[trigger] vcoord[i]) by {
        assert(apart(perm)) by {
            assert forall|a: int, b: int|
                0 <= a < perm.len() && 0 <= b < perm.len() && a != b implies #[trigger] perm[a]
                != #[trigger] perm[b] by {
                crate::graph::order::lemma_renumbered_apart(vc, perm, vcoord, a, b);
            }
        }
        crate::graph::renumber::lemma_onto(perm, i);
        let o = choose|x: int| 0 <= x < perm.len() && #[trigger] perm[x] == i;
        assert(vcoord[perm[o] as int] == vc[o]);
    }
}

/// Puts the graph together: vertices in Hilbert order, adjacency both ways with
/// packed targets, segments in the order in which they are referred to, the
/// attribute dictionary, and the grids.
#[verifier::rlimit(80)]
pub fn pass4(p: &Parts) -> (res: Result<Graph, Refused>)
    requires
        p.wf(),
    ensures
        match res {
            Ok(g) => is_graph(*p, g),
            Err(Refused::Dictionary) => too_varied(*p),
            Err(Refused::Grid) => too_dense(*p),
        },
{
    let vc: Vec<(i32, i32)> = gather(p.need, p.junc, p.coords);
    let nseg: usize = p.len_cm.len();
    proof {
        assert(vertex_coords(*p, vc@));
        assert forall|i: int| 0 <= i < vc@.len() implies on_globe(#[trigger] vc@[i]) by {
            crate::bitmap::lemma_nth(p.junc.words@, p.junc.room(), i);
            let id = choose|id: int|
                0 <= id < p.junc.room() && crate::bitmap::bit_at(p.junc.words@, id)
                    && #[trigger] ones(p.junc.words@, id) == i;
            assert(p.junc.has(id));
            assert(vc@[ones(p.junc.words@, id)] == p.coords@[ones(p.need.words@, id)]);
            crate::bitmap::lemma_ones(p.need.words@, 0, id);
        }
    }
    let (perm, vcoord): (Vec<u32>, Vec<(i32, i32)>) = renumber(&vc);
    proof {
        assert(edges_ok(p.edges@, perm@));
    }
    let f: Side = build_side(p.edges, &perm, true);
    let b: Side = build_side(p.edges, &perm, false);
    let (su0, sv0): (Vec<u32>, Vec<u32>) = segment_ends(p.edges, &perm, nseg);
    proof {
        lemma_words(*p, perm@, true, f);
        lemma_words(*p, perm@, false, b);
    }
    let newid: Vec<u32> = new_ids(&f.seg, nseg);
    proof {
        assert forall|x: int, y: int|
            0 <= x < newid@.len() && 0 <= y < newid@.len() && x != y implies #[trigger] newid@[x]
            != #[trigger] newid@[y] by {
            lemma_numbered_apart(f.seg@, newid@, x, y);
        }
        assert(apart(newid@));
    }
    let ghost (fv, bv) = (f, b);
    let forward: PackedSide = pack_side(f, &newid, Ghost(*p), Ghost(perm@), Ghost(true));
    let backward: PackedSide = pack_side(b, &newid, Ghost(*p), Ghost(perm@), Ghost(false));
    let su: Vec<u32> = permuted(&su0, &newid);
    let sv: Vec<u32> = permuted(&sv0, &newid);
    let len_cm: Vec<u32> = permuted(p.len_cm, &newid);
    let name: Vec<u32> = permuted(p.name, &newid);
    let attr: Vec<u32> = permuted(p.attr, &newid);
    let (off, pts): (Vec<u32>, Vec<(i32, i32)>) = move_geometry(p.off, p.pts, &newid);
    let main: Vec<bool> = mains(&attr);
    let roads = Roads { vcoord: &vcoord, su: &su, sv: &sv, off: &off, pts: &pts };
    let ghost rv = roads;
    proof {
        assert forall|o: int| 0 <= o < p.nseg() implies (
            su@[(#[trigger] newid@[o]) as int],
            sv@[newid@[o] as int],
        ) == ends_of(p.edges@, perm@, o, p.edges@.len() as int) by {
            assert(su@[newid@[o] as int] == su0@[o] && sv@[newid@[o] as int] == sv0@[o]);
        }
        lemma_roads(
            *p,
            vc@,
            perm@,
            vcoord@,
            newid@,
            su@,
            sv@,
            off@,
            pts@,
            rv,
        );
    }
    proof {
        assert forall|o: int| 0 <= o < p.nseg() implies {
            let s = (#[trigger] newid@[o]) as int;
            &&& attr@[s] == p.attr@[o]
            &&& (rv.su@[s], rv.sv@[s]) == ends_of(p.edges@, perm@, o, p.edges@.len() as int)
            &&& drawn(rv.off@, rv.pts@, s) == drawn(p.off@, p.pts@, o)
        } by {
            assert(su@[newid@[o] as int] == su0@[o] && sv@[newid@[o] as int] == sv0@[o]);
        }
        assert(laid(*p, vc@, perm@, fv, newid@, attr@, rv));
    }
    let (attr16, dict): (Vec<u16>, Vec<u32>) = match build_attr_dict(&attr) {
        None => {
            return Err(Refused::Dictionary);
        },
        Some(x) => x,
    };
    let index: SnapIndex = match build_snap_index(&roads, &main) {
        None => {
            return Err(Refused::Grid);
        },
        Some(x) => x,
    };
    let g = Graph {
        perm,
        vcoord,
        forward,
        backward,
        su,
        sv,
        moved: newid,
        len_cm,
        name,
        attr16,
        dict,
        off,
        pts,
        index,
    };
    proof {
        assert forall|o: int| 0 <= o < p.nseg() implies {
            let s = (#[trigger] g.moved@[o]) as int;
            &&& g.len_cm@[s] == p.len_cm@[o]
            &&& g.name@[s] == p.name@[o]
            &&& g.attr16@[s] < g.dict@.len()
            &&& g.dict@[g.attr16@[s] as int] == p.attr@[o]
            &&& (g.su@[s], g.sv@[s]) == ends_of(p.edges@, g.perm@, o, p.edges@.len() as int)
            &&& drawn(g.off@, g.pts@, s) == drawn(p.off@, p.pts@, o)
        } by {
            let s = g.moved@[o] as int;
            assert(attr@[s] == p.attr@[o]);
            assert(g.attr16@[s] < g.dict@.len());
        }
        assert(segments_moved(*p, g.perm@, g.moved@, g));
        assert(laid(*p, vc@, g.perm@, fv, g.moved@, attr@, rv));
        assert(assembled(*p, vc@, fv, bv, g.moved@, attr@, rv, g));
        assert(is_graph(*p, g));
    }
    Ok(g)
}

} // verus!
