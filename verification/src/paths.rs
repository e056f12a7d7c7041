//! What "shortest" means, and why settling vertices in order finds it.
//!
//! A network is given by the arcs that leave each vertex. A distance is the
//! least total over all walks from the seeds, capped at `UNREACHABLE`: a walk
//! that costs as much as that is no walk at all.

use vstd::prelude::*;
use vstd::multiset::Multiset;
use crate::heap::Entry;

verus! {

/// No path, in the units every cost is kept in (tenths of a second).
pub const UNREACHABLE: u32 = u32::MAX;

/// No parent.
pub const ROOT: u32 = u32::MAX;

/// Vertices `0..n`, and for each the slots its arcs stand in. A slot may hold
/// nothing: an edge that is closed, or leads out of the network.
pub struct Net {
    pub n: int,
    pub arcs: spec_fn(int) -> Seq<Option<(int, int)>>,
}

/// Slot `s` of `u` holds an arc to `v` of cost `w`.
pub open spec fn arc_at(net: Net, u: int, s: int, v: int, w: int) -> bool {
    &&& 0 <= u < net.n
    &&& 0 <= s < (net.arcs)(u).len()
    &&& (net.arcs)(u)[s] == Some((v, w))
}

/// Arcs stay inside the network and never pay back.
pub open spec fn net_ok(net: Net) -> bool {
    &&& 0 <= net.n <= u32::MAX
    &&& forall|u: int, s: int, v: int, w: int|
        #[trigger] arc_at(net, u, s, v, w) ==> 0 <= v < net.n && w >= 0
}

/// `v` can be reached at cost `d` over `m` arcs from a seed.
pub open spec fn walk(net: Net, seeds: Seq<(int, int)>, v: int, d: int, m: nat) -> bool
    decreases m,
{
    if m == 0 {
        exists|i: int| 0 <= i < seeds.len() && #[trigger] seeds[i] == (v, d)
    } else {
        exists|u: int, s: int, w: int|
            #[trigger] arc_at(net, u, s, v, w) && walk(net, seeds, u, d - w, (m - 1) as nat)
    }
}

/// `x` is the distance of `v` from the seeds.
pub open spec fn is_dist(net: Net, seeds: Seq<(int, int)>, v: int, x: u32) -> bool {
    &&& x < UNREACHABLE ==> exists|m: nat| walk(net, seeds, v, x as int, m)
    &&& forall|d: int, m: nat| #[trigger] walk(net, seeds, v, d, m) ==> x <= d
}

/// A vertex has one distance.
pub proof fn lemma_dist_unique(net: Net, seeds: Seq<(int, int)>, v: int, x: u32, y: u32)
    requires
        is_dist(net, seeds, v, x),
        is_dist(net, seeds, v, y),
    ensures
        x == y,
{
    if x < UNREACHABLE {
        let m = choose|m: nat| walk(net, seeds, v, x as int, m);
        assert(walk(net, seeds, v, x as int, m));
    }
    if y < UNREACHABLE {
        let m = choose|m: nat| walk(net, seeds, v, y as int, m);
        assert(walk(net, seeds, v, y as int, m));
    }
}

pub open spec fn seeds_ok(net: Net, seeds: Seq<(int, int)>) -> bool {
    forall|i: int|
        0 <= i < seeds.len() ==> 0 <= (#[trigger] seeds[i]).0 < net.n && seeds[i].1 >= 0
}

/// Every arc in the first `upto` slots of `u` has been tried from `u`.
pub open spec fn relaxed(net: Net, dist: Seq<u32>, u: int, upto: int) -> bool {
    forall|s: int, v: int, w: int|
        #[trigger] arc_at(net, u, s, v, w) && s < upto ==> dist[v] <= dist[u] + w
}

/// The state of a search: tentative distances, what waits in the queue, who
/// is settled, the cost reached so far, and the vertex being expanded (`at`,
/// or -1) with the number of its slots already tried.
pub open spec fn searching(
    net: Net,
    seeds: Seq<(int, int)>,
    dist: Seq<u32>,
    heap: Multiset<Entry>,
    done: Set<int>,
    cur: int,
    at: int,
    slots: int,
) -> bool {
    &&& net_ok(net)
    &&& 0 <= cur < UNREACHABLE
    &&& dist.len() == net.n
    &&& forall|v: int|
        0 <= v < net.n && #[trigger] dist[v] < UNREACHABLE ==> exists|m: nat|
            walk(net, seeds, v, dist[v] as int, m)
    &&& forall|i: int|
        0 <= i < seeds.len() ==> 0 <= (#[trigger] seeds[i]).0 < net.n && dist[seeds[i].0]
            <= seeds[i].1
    &&& forall|e: Entry|
        #[trigger] heap.contains(e) ==> 0 <= e.v < net.n && dist[e.v as int] <= e.d && cur <= e.d
            < UNREACHABLE
    &&& forall|v: int|
        0 <= v < net.n && #[trigger] dist[v] < UNREACHABLE && v != at && !done.contains(v)
            ==> heap.contains(Entry { d: dist[v], v: v as u32 })
    &&& forall|v: int|
        #[trigger] done.contains(v) ==> 0 <= v < net.n && dist[v] <= cur && dist[v] < UNREACHABLE
            && relaxed(net, dist, v, (net.arcs)(v).len() as int)
    &&& at >= 0 ==> at < net.n && dist[at] == cur && dist[at] < UNREACHABLE && 0 <= slots
        <= (net.arcs)(at).len() && relaxed(net, dist, at, slots)
}

/// The sum of all distances: every improvement makes it smaller.
pub open spec fn total(dist: Seq<u32>) -> nat
    decreases dist.len(),
{
    if dist.len() == 0 {
        0
    } else {
        total(dist.drop_last()) + dist.last() as nat
    }
}

pub proof fn lemma_total_update(dist: Seq<u32>, i: int, x: u32)
    requires
        0 <= i < dist.len(),
    ensures
        total(dist.update(i, x)) == total(dist) - dist[i] + x,
    decreases dist.len(),
{
    if i == dist.len() - 1 {
        assert(dist.update(i, x).drop_last() =~= dist.drop_last());
    } else {
        lemma_total_update(dist.drop_last(), i, x);
        assert(dist.update(i, x).drop_last() =~= dist.drop_last().update(i, x));
    }
}

/// Taking the nearest entry off the queue.
pub proof fn lemma_pop(
    net: Net,
    seeds: Seq<(int, int)>,
    dist: Seq<u32>,
    heap: Multiset<Entry>,
    done: Set<int>,
    cur: int,
    e: Entry,
)
    requires
        searching(net, seeds, dist, heap, done, cur, -1, 0),
        heap.contains(e),
        forall|y: Entry| #[trigger] heap.contains(y) ==> crate::heap::Ranked::rank(e)
            <= crate::heap::Ranked::rank(y),
    ensures
        0 <= e.v < net.n,
        cur <= e.d < UNREACHABLE,
        dist[e.v as int] <= e.d,
        e.d > dist[e.v as int] ==> searching(
            net,
            seeds,
            dist,
            heap.remove(e),
            done,
            e.d as int,
            -1,
            0,
        ),
        e.d == dist[e.v as int] ==> searching(
            net,
            seeds,
            dist,
            heap.remove(e),
            done,
            e.d as int,
            e.v as int,
            0,
        ),
{
    let h2 = heap.remove(e);
    assert forall|y: Entry| #[trigger] h2.contains(y) implies heap.contains(y) && e.d <= y.d by {
        assert(heap.contains(y));
    }
    let at: int = if e.d == dist[e.v as int] {
        e.v as int
    } else {
        -1
    };
    assert forall|v: int|
        0 <= v < net.n && #[trigger] dist[v] < UNREACHABLE && v != at && !done.contains(
            v,
        ) implies h2.contains(Entry { d: dist[v], v: v as u32 }) by {
        let y = Entry { d: dist[v], v: v as u32 };
        assert(heap.contains(y));
        assert(y != e);
    }
    assert forall|v: int| #[trigger] done.contains(v) implies dist[v] <= e.d by {}
}

/// Trying the next slot of the vertex being expanded.
pub proof fn lemma_relax(
    net: Net,
    seeds: Seq<(int, int)>,
    dist: Seq<u32>,
    heap: Multiset<Entry>,
    done: Set<int>,
    cur: int,
    at: int,
    slots: int,
    dist2: Seq<u32>,
    heap2: Multiset<Entry>,
)
    requires
        searching(net, seeds, dist, heap, done, cur, at, slots),
        at >= 0,
        slots < (net.arcs)(at).len(),
        match (net.arcs)(at)[slots] {
            None => dist2 == dist && heap2 == heap,
            Some((t, w)) => if cur + w < dist[t] {
                &&& dist2 == dist.update(t, (cur + w) as u32)
                &&& heap2 == heap.insert(Entry { d: (cur + w) as u32, v: t as u32 })
            } else {
                dist2 == dist && heap2 == heap
            },
        },
    ensures
        searching(net, seeds, dist2, heap2, done, cur, at, slots + 1),
        total(dist2) <= total(dist),
        dist2 != dist ==> total(dist2) < total(dist),
{
    match (net.arcs)(at)[slots] {
        None => {},
        Some((t, w)) => {
            assert(arc_at(net, at, slots, t, w));
            if cur + w < dist[t] {
                let nd = (cur + w) as u32;
                lemma_total_update(dist, t, nd);
                assert(!done.contains(t) && t != at);
                let m = choose|m: nat| walk(net, seeds, at, dist[at] as int, m);
                assert(walk(net, seeds, t, nd as int, m + 1)) by {
                    assert(arc_at(net, at, slots, t, w));
                    assert(walk(net, seeds, at, nd - w, m));
                }
                assert forall|v: int|
                    0 <= v < net.n && #[trigger] dist2[v] < UNREACHABLE implies exists|m: nat|
                    walk(net, seeds, v, dist2[v] as int, m) by {
                    if v != t {
                        assert(dist[v] == dist2[v]);
                    }
                }
                assert forall|i: int| 0 <= i < seeds.len() implies 0 <= (#[trigger] seeds[i]).0
                    < net.n && dist2[seeds[i].0] <= seeds[i].1 by {}
                assert forall|e: Entry| #[trigger] heap2.contains(e) implies 0 <= e.v < net.n
                    && dist2[e.v as int] <= e.d && cur <= e.d < UNREACHABLE by {
                    if !heap.contains(e) {
                        assert(e == Entry { d: nd, v: t as u32 });
                    }
                }
                assert forall|v: int|
                    0 <= v < net.n && #[trigger] dist2[v] < UNREACHABLE && v != at
                        && !done.contains(v) implies heap2.contains(
                    Entry { d: dist2[v], v: v as u32 },
                ) by {
                    if v != t {
                        assert(dist[v] == dist2[v]);
                        assert(heap.contains(Entry { d: dist[v], v: v as u32 }));
                    }
                }
                assert forall|v: int| #[trigger] done.contains(v) implies relaxed(
                    net,
                    dist2,
                    v,
                    (net.arcs)(v).len() as int,
                ) by {
                    assert(relaxed(net, dist, v, (net.arcs)(v).len() as int));
                }
            }
        },
    }
    assert(relaxed(net, dist2, at, slots + 1)) by {
        assert forall|s: int, v: int, w: int|
            #[trigger] arc_at(net, at, s, v, w) && s < slots + 1 implies dist2[v] <= dist2[at]
            + w by {
            if s < slots {
                assert(dist[v] <= dist[at] + w);
            }
        }
    }
}

/// Every slot tried: the vertex is settled.
pub proof fn lemma_settle(
    net: Net,
    seeds: Seq<(int, int)>,
    dist: Seq<u32>,
    heap: Multiset<Entry>,
    done: Set<int>,
    cur: int,
    at: int,
)
    requires
        at >= 0,
        searching(net, seeds, dist, heap, done, cur, at, (net.arcs)(at).len() as int),
    ensures
        searching(net, seeds, dist, heap, done.insert(at), cur, -1, 0),
{
}

proof fn lemma_closed(
    net: Net,
    seeds: Seq<(int, int)>,
    dist: Seq<u32>,
    done: Set<int>,
    cur: int,
    v: int,
    d: int,
    m: nat,
)
    requires
        searching(net, seeds, dist, Multiset::empty(), done, cur, -1, 0),
        walk(net, seeds, v, d, m),
    ensures
        0 <= v < net.n,
        dist[v] <= d,
    decreases m,
{
    if m == 0 {
        let i = choose|i: int| 0 <= i < seeds.len() && #[trigger] seeds[i] == (v, d);
        assert(seeds[i].0 == v);
    } else {
        let (u, s, w) = choose|u: int, s: int, w: int|
            #[trigger] arc_at(net, u, s, v, w) && walk(net, seeds, u, d - w, (m - 1) as nat);
        lemma_closed(net, seeds, dist, done, cur, u, d - w, (m - 1) as nat);
        if dist[u] < UNREACHABLE {
            if !done.contains(u) {
                assert(Multiset::<Entry>::empty().contains(Entry { d: dist[u], v: u as u32 }));
            }
            assert(relaxed(net, dist, u, (net.arcs)(u).len() as int));
            assert(arc_at(net, u, s, v, w));
        }
    }
}

/// An empty queue: every tentative distance is the distance.
pub proof fn lemma_finish(
    net: Net,
    seeds: Seq<(int, int)>,
    dist: Seq<u32>,
    heap: Multiset<Entry>,
    done: Set<int>,
    cur: int,
)
    requires
        searching(net, seeds, dist, heap, done, cur, -1, 0),
        heap.len() == 0,
    ensures
        forall|v: int| 0 <= v < net.n ==> is_dist(net, seeds, v, #[trigger] dist[v]),
{
    assert(heap =~= Multiset::empty());
    assert forall|v: int| 0 <= v < net.n implies is_dist(net, seeds, v, #[trigger] dist[v]) by {
        assert forall|d: int, m: nat| #[trigger] walk(net, seeds, v, d, m) implies dist[v] <= d by {
            lemma_closed(net, seeds, dist, done, cur, v, d, m);
        }
    }
}

/// A vertex that is settled already has its distance, whatever is still queued.
pub proof fn lemma_settled_final(
    net: Net,
    seeds: Seq<(int, int)>,
    dist: Seq<u32>,
    heap: Multiset<Entry>,
    done: Set<int>,
    cur: int,
    at: int,
    slots: int,
    v: int,
)
    requires
        searching(net, seeds, dist, heap, done, cur, at, slots),
        seeds_ok(net, seeds),
        0 <= v < net.n,
        dist[v] <= cur,
        dist[v] < UNREACHABLE,
    ensures
        is_dist(net, seeds, v, dist[v]),
{
    assert forall|d: int, m: nat| #[trigger] walk(net, seeds, v, d, m) implies dist[v] <= d by {
        lemma_frontier(net, seeds, dist, heap, done, cur, at, slots, v, d, m);
    }
}

/// A walk either costs at least what the search has reached, or ends at a
/// vertex that is known no worse.
pub proof fn lemma_frontier(
    net: Net,
    seeds: Seq<(int, int)>,
    dist: Seq<u32>,
    heap: Multiset<Entry>,
    done: Set<int>,
    cur: int,
    at: int,
    slots: int,
    v: int,
    d: int,
    m: nat,
)
    requires
        searching(net, seeds, dist, heap, done, cur, at, slots),
        seeds_ok(net, seeds),
        walk(net, seeds, v, d, m),
    ensures
        0 <= v < net.n,
        d >= cur || dist[v] <= d,
    decreases m,
{
    if m == 0 {
        let i = choose|i: int| 0 <= i < seeds.len() && #[trigger] seeds[i] == (v, d);
        assert(seeds[i].0 == v);
    } else {
        let (u, s, w) = choose|u: int, s: int, w: int|
            #[trigger] arc_at(net, u, s, v, w) && walk(net, seeds, u, d - w, (m - 1) as nat);
        lemma_frontier(net, seeds, dist, heap, done, cur, at, slots, u, d - w, (m - 1) as nat);
        if d < cur {
            assert(dist[u] <= d - w);
            if u != at && !done.contains(u) {
                assert(heap.contains(Entry { d: dist[u], v: u as u32 }));
            }
            if done.contains(u) {
                assert(relaxed(net, dist, u, (net.arcs)(u).len() as int));
                assert(arc_at(net, u, s, v, w));
            }
        }
    }
}

/// The distance of `v` from the seeds.
pub open spec fn dist_to(net: Net, seeds: Seq<(int, int)>, v: int) -> u32 {
    choose|x: u32| is_dist(net, seeds, v, x)
}

pub proof fn lemma_dist_to(net: Net, seeds: Seq<(int, int)>, v: int, x: u32)
    requires
        is_dist(net, seeds, v, x),
    ensures
        dist_to(net, seeds, v) == x,
{
    lemma_dist_unique(net, seeds, v, x, dist_to(net, seeds, v));
}

/// A search that starts at one vertex.
pub proof fn lemma_start(net: Net, src: int, dist: Seq<u32>, heap: Multiset<Entry>)
    requires
        net_ok(net),
        0 <= src < net.n,
        dist.len() == net.n,
        forall|v: int| 0 <= v < net.n ==> #[trigger] dist[v] == (if v == src {
            0u32
        } else {
            UNREACHABLE
        }),
        heap == Multiset::<Entry>::empty().insert(Entry { d: 0, v: src as u32 }),
    ensures
        searching(net, seq![(src, 0int)], dist, heap, Set::empty(), 0, -1, 0),
{
    let seeds = seq![(src, 0int)];
    assert forall|v: int|
        0 <= v < net.n && #[trigger] dist[v] < UNREACHABLE implies exists|m: nat|
        walk(net, seeds, v, dist[v] as int, m) by {
        assert(seeds[0] == (v, 0int));
        assert(walk(net, seeds, v, 0, 0));
    }
}

} // verus!
