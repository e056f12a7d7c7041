//! A graph that was put together is one that can be searched.

use vstd::prelude::*;
use crate::csr::{below, lemma_below_mono, lemma_slot_range, slot};
use crate::dataset::{seg_of, unpacked, Dataset};
use crate::graph::adjacency::{adjacent, near, seg_id, Side};
use crate::graph::assemble::{assembled, lemma_slots_onto, Graph, PackedSide, Parts};
use crate::graph::renumber::reworded;
use crate::graph::snap::Roads;
use crate::overlay::exact::{is_edge, other_way, two_way};
use crate::overlay::rows::far_end;

verus! {

/// The dataset shows the arrays of the graph.
pub open spec fn shows(ds: Dataset, g: Graph) -> bool {
    &&& ds.head@ == g.forward.head@
    &&& ds.to@.len() == 0
    &&& ds.to_d16@ == g.forward.d16@
    &&& ds.to_exc@ == g.forward.exc@
    &&& ds.eseg@ == g.forward.seg@
    &&& ds.rhead@ == g.backward.head@
    &&& ds.rto@.len() == 0
    &&& ds.rto_d16@ == g.backward.d16@
    &&& ds.rto_exc@ == g.backward.exc@
    &&& ds.rseg@ == g.backward.seg@
    &&& ds.seg_len@ == g.len_cm@
    &&& ds.seg_attr@.len() == 0
    &&& ds.seg_attr16@ == g.attr16@
    &&& ds.attr_dict@ == g.dict@
}

/// The side of a graph in one direction.
pub open spec fn packed_side(g: Graph, fwd: bool) -> PackedSide {
    if fwd {
        g.forward
    } else {
        g.backward
    }
}

/// Where an edge stands among those of its near end.
pub open spec fn place_of(p: Parts, perm: Seq<u32>, fwd: bool, e: int) -> int {
    slot(near(p.edges@, perm, fwd), e)
}

/// What one stored side says of edge `e`.
pub(crate) proof fn lemma_edge(p: Parts, perm: Seq<u32>, fwd: bool, s: Side, newid: Seq<u32>, x: PackedSide, e: int)
    requires
        adjacent(p.edges@, perm, fwd, p.nv(), s),
        crate::graph::assemble::side_of(s, newid, x),
        p.nv() < u32::MAX,
        0 <= e < p.edges@.len(),
        near(p.edges@, perm, fwd)[e] < p.nv(),
    ensures
        ({
            let u = near(p.edges@, perm, fwd)[e];
            let t = place_of(p, perm, fwd, e);
            &&& x.head@[u as int] <= t < x.head@[u + 1]
            &&& 0 <= t < x.d16@.len()
            &&& unpacked(x.d16@, x.exc@, Seq::empty(), u, t) == near(p.edges@, perm, !fwd)[e]
            &&& x.seg@[t] == reworded(newid, p.edges@[e].2)
        }),
{
    let keys = near(p.edges@, perm, fwd);
    let u = keys[e];
    let t = slot(keys, e);
    lemma_slot_range(keys, e);
    assert(s.head@[u as int] == below(keys, u as int));
    assert(s.head@[u + 1] == below(keys, u + 1));
    assert(s.to@[slot(keys, e)] == near(p.edges@, perm, !fwd)[e]);
    assert(unpacked(x.d16@, x.exc@, Seq::empty(), u as int as u32, t) == s.to@[t]);
    assert(x.seg@[t] == reworded(newid, s.seg@[t]));
}

/// Which edge stands at `t` among those of `u`.
proof fn lemma_which(p: Parts, perm: Seq<u32>, fwd: bool, s: Side, u: int, t: int) -> (e: int)
    requires
        adjacent(p.edges@, perm, fwd, p.nv(), s),
        0 <= u < p.nv(),
        s.head@[u] <= t < s.head@[u + 1],
    ensures
        0 <= e < p.edges@.len(),
        near(p.edges@, perm, fwd)[e] == u,
        place_of(p, perm, fwd, e) == t,
{
    let keys = near(p.edges@, perm, fwd);
    assert(s.head@[u] == below(keys, u) && s.head@[u + 1] == below(keys, u + 1));
    lemma_below_mono(keys, u + 1, u + 1);
    lemma_slots_onto(keys, t);
    let e = choose|e: int| 0 <= e < keys.len() && #[trigger] slot(keys, e) == t;
    lemma_slot_range(keys, e);
    let k = keys[e] as int;
    if k < u {
        lemma_below_mono(keys, k + 1, u);
    } else if k > u {
        lemma_below_mono(keys, u + 1, k);
    }
    e
}

proof fn lemma_side_ok(
    p: Parts,
    perm: Seq<u32>,
    fwd: bool,
    s: Side,
    newid: Seq<u32>,
    x: PackedSide,
)
    requires
        p.wf(),
        perm.len() == p.nv(),
        forall|i: int| 0 <= i < perm.len() ==> (#[trigger] perm[i]) < p.nv(),
        adjacent(p.edges@, perm, fwd, p.nv(), s),
        crate::graph::assemble::side_of(s, newid, x),
        newid.len() == p.nseg(),
        forall|a: int| 0 <= a < newid.len() ==> (#[trigger] newid[a]) < newid.len(),
    ensures
        Dataset::side_ok(
            x.head@,
            Seq::empty(),
            x.d16@,
            x.exc@,
            x.seg@,
            p.nv(),
            p.nseg(),
        ),
{
    let keys = near(p.edges@, perm, fwd);
    assert forall|u: u32, k: int|
        0 <= u < p.nv() && x.head@[u as int] <= k < x.head@[u + 1] implies (#[trigger] unpacked(
        x.d16@,
        x.exc@,
        Seq::empty(),
        u,
        k,
    )) < p.nv() by {
        let e = lemma_which(p, perm, fwd, s, u as int, k);
        assert((p.edges@[e]).0 < p.nv() && p.edges@[e].1 < p.nv());
        lemma_edge(p, perm, fwd, s, newid, x, e);
        assert(near(p.edges@, perm, !fwd)[e] < p.nv());
    }
    assert forall|k: int| 0 <= k < x.seg@.len() implies seg_of(#[trigger] x.seg@[k])
        < p.nseg() by {
        lemma_slots_onto(keys, k);
        let e = choose|e: int| 0 <= e < keys.len() && #[trigger] slot(keys, e) == k;
        assert(s.seg@[slot(keys, e)] == p.edges@[e].2);
        let w = p.edges@[e].2;
        assert(seg_id(w) < p.nseg());
        assert(x.seg@[k] == reworded(newid, w));
        assert(newid[seg_id(w) as int] < newid.len());
    }
}

/// What was put together can be searched: every edge leads from vertex to
/// vertex along a segment, and each direction is the other one reversed.
pub proof fn lemma_graph_sound(
    p: Parts,
    vc: Seq<(i32, i32)>,
    f: Side,
    b: Side,
    newid: Seq<u32>,
    attr: Seq<u32>,
    r: Roads,
    g: Graph,
    ds: Dataset,
)
    requires
        p.wf(),
        assembled(p, vc, f, b, newid, attr, r, g),
        shows(ds, g),
    ensures
        ds.graph_ok(),
        two_way(ds),
        ds.nv() == p.nv(),
        ds.ns() == p.nseg(),
{
    let perm = g.perm@;
    lemma_side_ok(p, perm, true, f, newid, g.forward);
    lemma_side_ok(p, perm, false, b, newid, g.backward);
    assert(ds.to@ =~= Seq::<u32>::empty());
    assert(ds.rto@ =~= Seq::<u32>::empty());
    assert(ds.attrs_ok()) by {
        if ds.attr_dict@.len() > 0 {
            assert forall|s: int| 0 <= s < ds.ns() implies (#[trigger] ds.seg_attr16@[s])
                < ds.attr_dict@.len() by {
                assert(crate::graph::renumber::apart(newid)) by {
                    assert forall|x: int, y: int|
                        0 <= x < newid.len() && 0 <= y < newid.len() && x
                            != y implies #[trigger] newid[x] != #[trigger] newid[y] by {
                        crate::graph::renumber::lemma_numbered_apart(f.seg@, newid, x, y);
                    }
                }
                crate::graph::renumber::lemma_onto(newid, s);
                let o = choose|x: int| 0 <= x < newid.len() && #[trigger] newid[x] == s;
                assert(g.attr16@[newid[o] as int] < g.dict@.len());
            }
        } else if ds.ns() > 0 {
            assert(g.attr16@[newid[0] as int] < g.dict@.len());
        }
    }
    assert forall|fwd: bool, u: u32, t: int| #[trigger] is_edge(ds, fwd, u, t) implies exists|
        t2: int,
    | other_way(ds, fwd, u, t, t2) by {
        let (s, o) = if fwd {
            (f, b)
        } else {
            (b, f)
        };
        let e = lemma_which(p, perm, fwd, s, u as int, t);
        assert((p.edges@[e]).0 < p.nv() && p.edges@[e].1 < p.nv());
        let v = near(p.edges@, perm, !fwd)[e];
        assert(v < p.nv());
        lemma_edge(p, perm, fwd, s, newid, packed_side(g, fwd), e);
        lemma_edge(p, perm, !fwd, o, newid, packed_side(g, !fwd), e);
        assert(near(p.edges@, perm, !!fwd)[e] == u);
        let t2 = place_of(p, perm, !fwd, e);
        assert(far_end(ds, fwd, u, t) == v);
        assert(other_way(ds, fwd, u, t, t2));
    }
}

} // verus!
