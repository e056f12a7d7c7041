//! Compressed adjacency, forward and backward, and the ends of every segment.

use vstd::prelude::*;
use crate::csr::{
    below, heads, lemma_below_ends, lemma_below_mono, lemma_slot_range, lemma_slots_apart, slot,
    slots,
};
use crate::dataset::head_ok;

verus! {

/// Marks an edge that runs against its segment's geometry.
pub const REVERSED: u32 = 0x8000_0000;

pub open spec fn seg_id(w: u32) -> u32 {
    if w >= REVERSED {
        (w - REVERSED) as u32
    } else {
        w
    }
}

/// One side of the graph: the edges of each vertex together.
pub struct Side {
    pub head: Vec<u32>,
    pub to: Vec<u32>,
    pub seg: Vec<u32>,
}

/// The near and far ends of the edges under their new numbers.
pub open spec fn near(edges: Seq<(u32, u32, u32)>, perm: Seq<u32>, fwd: bool) -> Seq<u32> {
    Seq::new(
        edges.len(),
        |e: int|
            perm[if fwd {
                edges[e].0 as int
            } else {
                edges[e].1 as int
            }],
    )
}

/// Every edge stands at its slot: with the others of its near end, in the
/// order in which they came.
pub open spec fn adjacent(
    edges: Seq<(u32, u32, u32)>,
    perm: Seq<u32>,
    fwd: bool,
    nv: int,
    s: Side,
) -> bool {
    let keys = near(edges, perm, fwd);
    &&& s.head@.len() == nv + 1
    &&& forall|i: int| 0 <= i <= nv ==> #[trigger] s.head@[i] == below(keys, i)
    &&& head_ok(s.head@, edges.len() as int)
    &&& s.head@[0] == 0
    &&& s.to@.len() == edges.len()
    &&& s.seg@.len() == edges.len()
    &&& forall|e: int|
        0 <= e < edges.len() ==> s.to@[#[trigger] slot(keys, e)] == near(edges, perm, !fwd)[e]
            && s.seg@[slot(keys, e)] == edges[e].2
}

/// Both ends of every edge are vertices.
pub open spec fn edges_ok(edges: Seq<(u32, u32, u32)>, perm: Seq<u32>) -> bool {
    &&& edges.len() <= u32::MAX
    &&& perm.len() < u32::MAX
    &&& forall|i: int| 0 <= i < perm.len() ==> (#[trigger] perm[i]) < perm.len()
    &&& forall|e: int|
        0 <= e < edges.len() ==> (#[trigger] edges[e]).0 < perm.len() && edges[e].1 < perm.len()
}

fn ends(edges: &[(u32, u32, u32)], perm: &Vec<u32>, fwd: bool) -> (r: Vec<u32>)
    requires
        edges_ok(edges@, perm@),
    ensures
        r@ == near(edges@, perm@, fwd),
{
    let mut r: Vec<u32> = Vec::new();
    while r.len() < edges.len()
        invariant
            edges_ok(edges@, perm@),
            r@.len() <= edges@.len(),
            forall|e: int|
                0 <= e < r@.len() ==> #[trigger] r@[e] == near(edges@, perm@, fwd)[e],
        decreases edges@.len() - r@.len(),
    {
        let e: (u32, u32, u32) = edges[r.len()];
        let v: u32 = if fwd {
            e.0
        } else {
            e.1
        };
        r.push(perm[v as usize]);
    }
    assert(r@ =~= near(edges@, perm@, fwd));
    r
}

/// Gathers the edges of each vertex: those that leave it, or those that reach
/// it.
pub fn build_side(edges: &[(u32, u32, u32)], perm: &Vec<u32>, fwd: bool) -> (s: Side)
    requires
        edges_ok(edges@, perm@),
    ensures
        adjacent(edges@, perm@, fwd, perm@.len() as int, s),
{
    let keys: Vec<u32> = ends(edges, perm, fwd);
    let far: Vec<u32> = ends(edges, perm, !fwd);
    let nv: usize = perm.len();
    proof {
        assert forall|t: int| 0 <= t < keys@.len() implies keys@[t] < nv by {
            let e = edges@[t];
            let v = if fwd {
                e.0
            } else {
                e.1
            };
            assert(perm@[v as int] < perm@.len());
        }
    }
    let head: Vec<u32> = heads(&keys, nv);
    let at: Vec<u32> = slots(&keys, &head);
    let ne: usize = edges.len();
    let mut to: Vec<u32> = vec![0u32; ne];
    let mut seg: Vec<u32> = vec![0u32; ne];
    let mut e: usize = 0;
    while e < ne
        invariant
            ne == edges@.len(),
            keys@.len() == ne,
            far@.len() == ne,
            at@.len() == ne,
            to@.len() == ne,
            seg@.len() == ne,
            e <= ne,
            forall|t: int| 0 <= t < ne ==> #[trigger] at@[t] == slot(keys@, t),
            forall|t: int|
                0 <= t < e ==> to@[#[trigger] slot(keys@, t)] == far@[t] && seg@[slot(keys@, t)]
                    == edges@[t].2,
        decreases ne - e,
    {
        let p: usize = at[e] as usize;
        proof {
            lemma_slot_range(keys@, e as int);
        }
        let ghost (t0, s0) = (to@, seg@);
        to.set(p, far[e]);
        seg.set(p, edges[e].2);
        proof {
            assert forall|t: int| 0 <= t < e + 1 implies to@[#[trigger] slot(keys@, t)] == far@[t]
                && seg@[slot(keys@, t)] == edges@[t].2 by {
                if t < e {
                    lemma_slots_apart(keys@, t, e as int);
                    assert(t0[slot(keys@, t)] == far@[t] && s0[slot(keys@, t)] == edges@[t].2);
                }
            }
        }
        e += 1;
    }
    proof {
        lemma_below_ends(keys@, nv as int);
        assert forall|i: int, j: int| 0 <= i <= j < head@.len() implies head@[i] <= head@[j] by {
            lemma_below_mono(keys@, i, j);
        }
    }
    Side { head, to, seg }
}

/// The two ends of a segment, in the direction of its geometry, as the last of
/// the first `n` edges along it has them.
pub open spec fn ends_of(edges: Seq<(u32, u32, u32)>, perm: Seq<u32>, sid: int, n: int) -> (
    u32,
    u32,
)
    decreases n,
{
    if n <= 0 {
        (0, 0)
    } else {
        let e = edges[n - 1];
        if seg_id(e.2) == sid {
            if e.2 >= REVERSED {
                (perm[e.1 as int], perm[e.0 as int])
            } else {
                (perm[e.0 as int], perm[e.1 as int])
            }
        } else {
            ends_of(edges, perm, sid, n - 1)
        }
    }
}

pub fn segment_ends(edges: &[(u32, u32, u32)], perm: &Vec<u32>, nseg: usize) -> (r: (
    Vec<u32>,
    Vec<u32>,
))
    requires
        edges_ok(edges@, perm@),
        forall|e: int| 0 <= e < edges@.len() ==> seg_id((#[trigger] edges@[e]).2) < nseg,
    ensures
        r.0@.len() == nseg,
        r.1@.len() == nseg,
        forall|s: int|
            0 <= s < nseg ==> (#[trigger] r.0@[s], r.1@[s]) == ends_of(
                edges@,
                perm@,
                s,
                edges@.len() as int,
            ),
{
    let mut su: Vec<u32> = vec![0u32; nseg];
    let mut sv: Vec<u32> = vec![0u32; nseg];
    let mut e: usize = 0;
    while e < edges.len()
        invariant
            edges_ok(edges@, perm@),
            forall|e: int| 0 <= e < edges@.len() ==> seg_id((#[trigger] edges@[e]).2) < nseg,
            e <= edges@.len(),
            su@.len() == nseg,
            sv@.len() == nseg,
            forall|s: int|
                0 <= s < nseg ==> (#[trigger] su@[s], sv@[s]) == ends_of(
                    edges@,
                    perm@,
                    s,
                    e as int,
                ),
        decreases edges@.len() - e,
    {
        let x: (u32, u32, u32) = edges[e];
        assert(seg_id(edges@[e as int].2) < nseg);
        let u: u32 = perm[x.0 as usize];
        let v: u32 = perm[x.1 as usize];
        if x.2 >= REVERSED {
            let sid: usize = (x.2 - REVERSED) as usize;
            su.set(sid, v);
            sv.set(sid, u);
        } else {
            let sid: usize = x.2 as usize;
            su.set(sid, u);
            sv.set(sid, v);
        }
        e += 1;
    }
    (su, sv)
}

/// The backward side holds the same edges as the forward side: each stands
/// once under its near end and once under its far end, with one segment word.
pub proof fn lemma_sides_agree(
    edges: Seq<(u32, u32, u32)>,
    perm: Seq<u32>,
    nv: int,
    f: Side,
    b: Side,
    e: int,
)
    requires
        adjacent(edges, perm, true, nv, f),
        adjacent(edges, perm, false, nv, b),
        0 <= e < edges.len(),
    ensures
        ({
            let (p, q) = (slot(near(edges, perm, true), e), slot(near(edges, perm, false), e));
            let (u, v) = (perm[edges[e].0 as int], perm[edges[e].1 as int]);
            &&& f.head@[u as int] <= p < f.head@[u + 1] || u + 1 > nv
            &&& b.head@[v as int] <= q < b.head@[v + 1] || v + 1 > nv
            &&& f.to@[p] == v
            &&& b.to@[q] == u
            &&& f.seg@[p] == b.seg@[q]
        }),
{
    lemma_slot_range(near(edges, perm, true), e);
    lemma_slot_range(near(edges, perm, false), e);
}

} // verus!
