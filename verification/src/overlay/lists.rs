//! Grouping vertices by region, and finding the ones on a boundary.

use vstd::prelude::*;
use crate::csr::{heads, lemma_below_ends, lemma_below_mono, lemma_block};
use crate::dataset::{head_ok, Dataset};
use crate::lookup::ascending;
use crate::overlay::rows::{edge_head, far_end};
use crate::sorting::{pair_lt, pair_set};

verus! {

/// What is listed for region `c`.
pub open spec fn block(head: Seq<u32>, list: Seq<u32>, c: int) -> Seq<u32> {
    list.subrange(head[c] as int, head[c + 1] as int)
}

/// For each region a rising list of exactly the vertices that belong to it.
pub open spec fn lists(
    head: Seq<u32>,
    list: Seq<u32>,
    ncells: int,
    belongs: spec_fn(int, u32) -> bool,
) -> bool {
    &&& head.len() == ncells + 1
    &&& head[0] == 0
    &&& head_ok(head, list.len() as int)
    &&& forall|c: int| 0 <= c < ncells ==> ascending(#[trigger] block(head, list, c))
    &&& forall|c: int, v: u32|
        0 <= c < ncells ==> (#[trigger] block(head, list, c).contains(v) <==> belongs(c, v))
}

fn firsts(pairs: &Vec<(u32, u32)>) -> (r: Vec<u32>)
    ensures
        r@ == Seq::new(pairs@.len(), |i: int| pairs@[i].0),
{
    let mut r: Vec<u32> = Vec::new();
    let mut i: usize = 0;
    while i < pairs.len()
        invariant
            i <= pairs@.len(),
            r@ == Seq::new(i as nat, |j: int| pairs@[j].0),
        decreases pairs@.len() - i,
    {
        r.push(pairs[i].0);
        i += 1;
        assert(r@ =~= Seq::new(i as nat, |j: int| pairs@[j].0));
    }
    r
}

pub(crate) fn seconds(pairs: &Vec<(u32, u32)>) -> (r: Vec<u32>)
    ensures
        r@ == Seq::new(pairs@.len(), |i: int| pairs@[i].1),
{
    let mut r: Vec<u32> = Vec::new();
    let mut i: usize = 0;
    while i < pairs.len()
        invariant
            i <= pairs@.len(),
            r@ == Seq::new(i as nat, |j: int| pairs@[j].1),
        decreases pairs@.len() - i,
    {
        r.push(pairs[i].1);
        i += 1;
        assert(r@ =~= Seq::new(i as nat, |j: int| pairs@[j].1));
    }
    r
}

/// `v` is paired with some region.
pub open spec fn paired(pairs: Seq<(u32, u32)>, v: u32) -> bool {
    exists|c: u32| pairs.contains((c, v))
}

/// Group pairs `(region, vertex)` by region.
pub fn listing(pairs: Vec<(u32, u32)>, ncells: usize) -> (r: (Vec<u32>, Vec<u32>))
    requires
        pairs@.len() <= u32::MAX,
        ncells <= u32::MAX,
        ncells < usize::MAX,
        forall|i: int| 0 <= i < pairs@.len() ==> (#[trigger] pairs@[i]).0 < ncells,
    ensures
        lists(r.0@, r.1@, ncells as int, |c: int, v: u32| pairs@.contains((c as u32, v))),
        r.1@.len() <= pairs@.len(),
        forall|i: int|
            0 <= i < r.1@.len() ==> paired(pairs@, #[trigger] r.1@[i]),
{
    let ghost p0 = pairs@;
    let set: Vec<(u32, u32)> = pair_set(pairs);
    let keys: Vec<u32> = firsts(&set);
    proof {
        assert forall|i: int| 0 <= i < keys@.len() implies keys@[i] < ncells by {
            assert(set@.contains(set@[i]));
            let j = choose|j: int| 0 <= j < p0.len() && p0[j] == set@[i];
            assert(p0[j].0 < ncells);
        }
        assert forall|i: int, j: int| 0 <= i <= j < keys@.len() implies keys@[i] <= keys@[j] by {
            if i < j {
                assert(pair_lt(set@[i], set@[j]));
            }
        }
        lemma_below_ends(keys@, ncells as int);
    }
    let head: Vec<u32> = heads(keys.as_slice(), ncells);
    let list: Vec<u32> = seconds(&set);
    proof {
        let n = ncells as int;
        assert forall|i: int, j: int| 0 <= i <= j < head@.len() implies head@[i] <= head@[j] by {
            lemma_below_mono(keys@, i, j);
        }
        assert forall|c: int| 0 <= c < n implies ascending(#[trigger] block(head@, list@, c)) by {
            let b = block(head@, list@, c);
            lemma_below_mono(keys@, c, c + 1);
            assert forall|i: int, j: int| 0 <= i < j < b.len() implies b[i] < b[j] by {
                lemma_block(keys@, head@[c] + i, c);
                lemma_block(keys@, head@[c] + j, c);
                assert(pair_lt(set@[head@[c] + i], set@[head@[c] + j]));
            }
        }
        assert forall|c: int, v: u32| 0 <= c < n implies (#[trigger] block(
            head@,
            list@,
            c,
        ).contains(v) <==> p0.contains((c as u32, v))) by {
            let b = block(head@, list@, c);
            lemma_below_mono(keys@, c, c + 1);
            if b.contains(v) {
                let i = choose|i: int| 0 <= i < b.len() && b[i] == v;
                lemma_block(keys@, head@[c] + i, c);
                assert(set@[head@[c] + i] == (c as u32, v));
                assert(set@.contains((c as u32, v)));
            }
            if p0.contains((c as u32, v)) {
                assert(set@.contains((c as u32, v)));
                let t = choose|t: int| 0 <= t < set@.len() && set@[t] == (c as u32, v);
                lemma_block(keys@, t, c);
                assert(b[t - head@[c]] == v);
            }
        }
        assert forall|i: int| 0 <= i < list@.len() implies paired(p0, #[trigger] list@[i]) by {
            assert(set@.contains(set@[i]));
            assert(p0.contains((set@[i].0, list@[i])));
        }
    }
    (head, list)
}

/// Edge `t` of `u` leads into another region.
pub open spec fn cut_edge(ds: Dataset, region: Seq<u32>, fwd: bool, u: u32, t: int) -> bool {
    &&& edge_head(ds, fwd)[u as int] <= t < edge_head(ds, fwd)[u + 1]
    &&& region[far_end(ds, fwd, u, t) as int] != region[u as int]
}

/// A vertex is on its region's boundary when an edge leaves the region, in
/// either direction.
pub open spec fn on_boundary(ds: Dataset, region: Seq<u32>, u: u32) -> bool {
    exists|fwd: bool, t: int| cut_edge(ds, region, fwd, u, t)
}

pub fn is_gate(ds: &Dataset, region: &[u32], u: u32) -> (r: bool)
    requires
        ds.graph_ok(),
        region@.len() == ds.nv(),
        u < ds.nv(),
    ensures
        r == on_boundary(*ds, region@, u),
{
    let c: u32 = region[u as usize];
    let mut side: usize = 0;
    while side < 2
        invariant
            ds.graph_ok(),
            region@.len() == ds.nv(),
            u < ds.nv(),
            c == region@[u as int],
            side <= 2,
            side >= 1 ==> forall|t: int| !cut_edge(*ds, region@, true, u, t),
            side >= 2 ==> forall|t: int| !cut_edge(*ds, region@, false, u, t),
        decreases 2 - side,
    {
        let fwd: bool = side == 0;
        let hs: &[u32] = if fwd {
            ds.head
        } else {
            ds.rhead
        };
        let ghost head = edge_head(*ds, fwd);
        assert(head[u + 1] <= head[head.len() - 1]);
        let (a, b): (usize, usize) = (hs[u as usize] as usize, hs[u as usize + 1] as usize);
        let mut t: usize = a;
        while t < b
            invariant
                ds.graph_ok(),
                region@.len() == ds.nv(),
                u < ds.nv(),
                c == region@[u as int],
                head == edge_head(*ds, fwd),
                a == head[u as int],
                b == head[u + 1],
                b <= (if fwd {
                    ds.eseg@.len()
                } else {
                    ds.rseg@.len()
                }),
                b <= u32::MAX,
                a <= t <= b,
                forall|x: int| a <= x < t ==> !cut_edge(*ds, region@, fwd, u, x),
            decreases b - t,
        {
            let v: u32 = if fwd {
                ds.target(u, t)
            } else {
                ds.rtarget(u, t)
            };
            assert(v == far_end(*ds, fwd, u, t as int));
            if region[v as usize] != c {
                assert(cut_edge(*ds, region@, fwd, u, t as int));
                return true;
            }
            t += 1;
        }
        side += 1;
    }
    false
}

} // verus!
