//! One side of a search: what is known of it after every step.

use vstd::prelude::*;
use crate::paths::{arc_at, net_ok, walk, Net, UNREACHABLE};
use crate::searchstate::{Node, EMPTY, MAX_REACHED};

verus! {

pub type Known = Map<u32, Node>;

/// Every arc in the first `upto` slots of `u` has been tried, or could not
/// have led to anything cheaper than `best`.
pub open spec fn tried(net: Net, m: Known, best: int, u: u32, upto: int) -> bool {
    forall|s: int, v: int, w: int|
        #[trigger] arc_at(net, u as int, s, v, w) && s < upto ==> m[u].dist + w >= best || (
        m.contains_key(v as u32) && m[v as u32].dist <= m[u].dist + w)
}

/// `v` can be reached at some cost.
pub open spec fn reachable(net: Net, seeds: Seq<(int, int)>, v: int) -> bool {
    exists|d: int, n: nat| walk(net, seeds, v, d, n)
}

pub open spec fn walkable(net: Net, seeds: Seq<(int, int)>, v: int, d: int) -> bool {
    exists|n: nat| walk(net, seeds, v, d, n)
}

/// What is known is real: every distance below `UNREACHABLE` belongs to a
/// walk, and everything known can be reached.
pub open spec fn sound(net: Net, seeds: Seq<(int, int)>, m: Known) -> bool {
    &&& forall|v: u32|
        #[trigger] m.contains_key(v) ==> v < net.n && v != EMPTY && m[v].dist <= m[v].prio
    &&& forall|v: u32|
        #[trigger] m.contains_key(v) && m[v].dist < UNREACHABLE ==> walkable(
            net,
            seeds,
            v as int,
            m[v].dist as int,
        )
    &&& forall|v: u32| #[trigger] m.contains_key(v) ==> reachable(net, seeds, v as int)
}

/// No vertex is drawn anywhere.
pub open spec fn flat() -> spec_fn(u32) -> int {
    |v: u32| 0
}

/// A search under way: what waits comes at its distance and at most `pot`
/// more, `at` is the vertex being expanded (or -1) with the number of its slots
/// already tried, and of the settled vertices only those of `pruned` may have
/// been left without being expanded.
pub open spec fn front(
    net: Net,
    seeds: Seq<(int, int)>,
    m: Known,
    pruned: Set<u32>,
    best: int,
    pot: spec_fn(u32) -> int,
    at: int,
    slots: int,
) -> bool {
    &&& net_ok(net)
    &&& sound(net, seeds, m)
    &&& forall|v: u32| #[trigger] m.contains_key(v) ==> m[v].prio <= m[v].dist + pot(v)
    &&& forall|i: int|
        0 <= i < seeds.len() ==> m.contains_key((#[trigger] seeds[i]).0 as u32) && m[
            seeds[i].0 as u32
        ].dist <= seeds[i].1
    &&& forall|v: u32|
        #[trigger] m.contains_key(v) && !m[v].queued && v != at ==> pruned.contains(v) || tried(
            net,
            m,
            best,
            v,
            (net.arcs)(v as int).len() as int,
        )
    &&& at >= 0 ==> at <= u32::MAX && m.contains_key(at as u32) && !m[at as u32].queued && tried(
        net,
        m,
        best,
        at as u32,
        slots,
    )
}

/// Seeds are vertices of the network.
pub open spec fn seeds_in(net: Net, seeds: Seq<(int, int)>) -> bool {
    forall|i: int| 0 <= i < seeds.len() ==> 0 <= (#[trigger] seeds[i]).0 < net.n && seeds[i].1 >= 0
}

/// One more seed is as good as a vertex found at that cost.
pub proof fn lemma_walk_more_seeds(
    net: Net,
    a: Seq<(int, int)>,
    b: Seq<(int, int)>,
    v: int,
    d: int,
    n: nat,
)
    requires
        walk(net, a, v, d, n),
        forall|i: int| 0 <= i < a.len() ==> b.contains(#[trigger] a[i]),
    ensures
        walk(net, b, v, d, n),
    decreases n,
{
    if n == 0 {
        let i = choose|i: int| 0 <= i < a.len() && #[trigger] a[i] == (v, d);
        assert(b.contains(a[i]));
        let j = choose|j: int| 0 <= j < b.len() && b[j] == a[i];
        assert(b[j] == (v, d));
    } else {
        let (u, s, w) = choose|u: int, s: int, w: int|
            #[trigger] arc_at(net, u, s, v, w) && walk(net, a, u, d - w, (n - 1) as nat);
        lemma_walk_more_seeds(net, a, b, u, d - w, (n - 1) as nat);
        assert(arc_at(net, u, s, v, w));
    }
}

/// Entering a seed, before anything is settled.
pub proof fn lemma_front_seed(
    net: Net,
    seeds: Seq<(int, int)>,
    m: Known,
    best: int,
    pot: spec_fn(u32) -> int,
    v: u32,
    d: u32,
    m2: Known,
)
    requires
        front(net, seeds, m, Set::empty(), best, pot, -1, 0),
        v < net.n,
        v != EMPTY,
        forall|x: u32| #[trigger] m.contains_key(x) ==> m[x].queued,
        if !m.contains_key(v) || d < m[v].dist {
            &&& m2 == m.insert(
                v,
                Node { dist: d, prio: m2[v].prio, parent: EMPTY, queued: true },
            )
            &&& d <= m2[v].prio <= d + pot(v)
        } else {
            m2 == m
        },
    ensures
        front(net, seeds.push((v as int, d as int)), m2, Set::empty(), best, pot, -1, 0),
        forall|x: u32| #[trigger] m2.contains_key(x) ==> m2[x].queued,
{
    let s2 = seeds.push((v as int, d as int));
    assert forall|i: int| 0 <= i < seeds.len() implies s2.contains(#[trigger] seeds[i]) by {
        assert(s2[i] == seeds[i]);
    }
    assert(s2[seeds.len() as int] == (v as int, d as int));
    assert(walk(net, s2, v as int, d as int, 0));
    assert forall|x: u32| #[trigger] m2.contains_key(x) && m2[x].dist < UNREACHABLE implies walkable(
        net,
        s2,
        x as int,
        m2[x].dist as int,
    ) by {
        if x == v && m2[v].dist == d {
        } else {
            assert(m.contains_key(x));
            let n = choose|n: nat| walk(net, seeds, x as int, m[x].dist as int, n);
            lemma_walk_more_seeds(net, seeds, s2, x as int, m[x].dist as int, n);
        }
    }
    assert forall|x: u32| #[trigger] m2.contains_key(x) implies reachable(net, s2, x as int) by {
        if x == v {
            assert(walk(net, s2, v as int, d as int, 0));
        } else {
            assert(m.contains_key(x));
            let (dd, n) = choose|dd: int, n: nat| walk(net, seeds, x as int, dd, n);
            lemma_walk_more_seeds(net, seeds, s2, x as int, dd, n);
        }
    }
    assert forall|i: int| 0 <= i < s2.len() implies m2.contains_key((#[trigger] s2[i]).0 as u32)
        && m2[s2[i].0 as u32].dist <= s2[i].1 by {
        if i < seeds.len() {
            assert(s2[i] == seeds[i]);
            assert(m.contains_key(seeds[i].0 as u32));
        }
    }
}

/// Taking a vertex off the queue.
pub proof fn lemma_front_pop(
    net: Net,
    seeds: Seq<(int, int)>,
    m: Known,
    pruned: Set<u32>,
    best: int,
    pot: spec_fn(u32) -> int,
    u: u32,
    m2: Known,
)
    requires
        front(net, seeds, m, pruned, best, pot, -1, 0),
        m.contains_key(u),
        m[u].queued,
        m2 == m.insert(u, Node { queued: false, ..m[u] }),
    ensures
        front(net, seeds, m2, pruned.remove(u), best, pot, u as int, 0),
        front(net, seeds, m2, pruned.insert(u), best, pot, -1, 0),
{
    assert forall|x: u32| m2.contains_key(x) == m.contains_key(x) && (m.contains_key(x) ==> m2[x].dist
        == m[x].dist && m2[x].prio == m[x].prio) by {}
    assert forall|x: u32|
        #[trigger] m2.contains_key(x) && !m2[x].queued && x != u implies pruned.contains(x) || tried(
        net,
        m2,
        best,
        x,
        (net.arcs)(x as int).len() as int,
    ) by {
        assert(m.contains_key(x) && !m[x].queued);
        if !pruned.contains(x) {
            assert(tried(net, m, best, x, (net.arcs)(x as int).len() as int));
        }
    }
    assert(sound(net, seeds, m2)) by {
        assert forall|x: u32|
            #[trigger] m2.contains_key(x) && m2[x].dist < UNREACHABLE implies walkable(
            net,
            seeds,
            x as int,
            m2[x].dist as int,
        ) by {
            assert(m.contains_key(x));
        }
        assert forall|x: u32| #[trigger] m2.contains_key(x) implies reachable(
            net,
            seeds,
            x as int,
        ) by {
            assert(m.contains_key(x));
        }
    }
    assert forall|i: int| 0 <= i < seeds.len() implies m2.contains_key((#[trigger] seeds[i]).0 as u32)
        && m2[seeds[i].0 as u32].dist <= seeds[i].1 by {
        assert(m.contains_key(seeds[i].0 as u32));
    }
}

/// What trying slot `slots` of `u`, settled at `d`, does to what is known.
pub open spec fn slot_step(
    net: Net,
    m: Known,
    best: int,
    pot: spec_fn(u32) -> int,
    u: u32,
    d: u32,
    slots: int,
    m2: Known,
) -> bool {
    match (net.arcs)(u as int)[slots] {
        None => m2 == m,
        Some((t, w)) => {
            let nd = if d + w > UNREACHABLE {
                UNREACHABLE as int
            } else {
                d + w
            };
            if nd < best && (!m.contains_key(t as u32) || nd < m[t as u32].dist) {
                &&& m2 == m.insert(
                    t as u32,
                    Node { dist: nd as u32, prio: m2[t as u32].prio, parent: u, queued: true },
                )
                &&& nd <= m2[t as u32].prio <= nd + pot(t as u32)
            } else {
                m2 == m
            }
        },
    }
}

pub proof fn lemma_front_relax(
    net: Net,
    seeds: Seq<(int, int)>,
    m: Known,
    pruned: Set<u32>,
    best: int,
    pot: spec_fn(u32) -> int,
    u: u32,
    slots: int,
    m2: Known,
)
    requires
        front(net, seeds, m, pruned, best, pot, u as int, slots),
        net.n < u32::MAX,
        0 <= slots < (net.arcs)(u as int).len(),
        slot_step(net, m, best, pot, u, m[u].dist, slots, m2),
    ensures
        front(net, seeds, m2, pruned, best, pot, u as int, slots + 1),
{
    assert(m.contains_key(u));
    let d = m[u].dist as int;
    match (net.arcs)(u as int)[slots] {
        None => {},
        Some((t, w)) => {
            assert(arc_at(net, u as int, slots, t, w));
            let v = t as u32;
            let nd: int = if d + w > UNREACHABLE {
                UNREACHABLE as int
            } else {
                d + w
            };
            if nd < best && (!m.contains_key(v) || nd < m[v].dist) {
                assert(v != u);
                assert forall|x: u32| x != v implies m2.contains_key(x) == m.contains_key(x) && (
                m.contains_key(x) ==> m2[x] == m[x]) by {}
                let (dd, n0) = choose|dd: int, n: nat| walk(net, seeds, u as int, dd, n);
                assert(reachable(net, seeds, u as int));
                assert(walk(net, seeds, u as int, dd, n0));
                assert(walk(net, seeds, t, dd + w, n0 + 1)) by {
                    assert(arc_at(net, u as int, slots, t, w));
                    assert(dd + w - w == dd);
                }
                if nd < UNREACHABLE {
                    assert(walkable(net, seeds, u as int, d));
                    let n = choose|n: nat| walk(net, seeds, u as int, d, n);
                    assert(walk(net, seeds, t, nd, n + 1)) by {
                        assert(arc_at(net, u as int, slots, t, w));
                        assert(nd - w == d);
                    }
                }
                assert(sound(net, seeds, m2)) by {
                    assert forall|x: u32|
                        #[trigger] m2.contains_key(x) && m2[x].dist < UNREACHABLE implies walkable(
                        net,
                        seeds,
                        x as int,
                        m2[x].dist as int,
                    ) by {
                        if x != v {
                            assert(m.contains_key(x));
                        }
                    }
                    assert forall|x: u32| #[trigger] m2.contains_key(x) implies reachable(
                        net,
                        seeds,
                        x as int,
                    ) by {
                        if x != v {
                            assert(m.contains_key(x));
                        }
                    }
                }
                assert forall|i: int| 0 <= i < seeds.len() implies m2.contains_key(
                    (#[trigger] seeds[i]).0 as u32,
                ) && m2[seeds[i].0 as u32].dist <= seeds[i].1 by {
                    assert(m.contains_key(seeds[i].0 as u32));
                }
                assert forall|x: u32|
                    #[trigger] m2.contains_key(x) && !m2[x].queued && x != u implies pruned.contains(
                    x,
                ) || tried(net, m2, best, x, (net.arcs)(x as int).len() as int) by {
                    assert(m.contains_key(x) && x != v);
                    if !pruned.contains(x) {
                        assert(tried(net, m, best, x, (net.arcs)(x as int).len() as int));
                        lemma_tried_insert(net, m, best, x, (net.arcs)(x as int).len() as int, v, m2);
                    }
                }
                lemma_tried_insert(net, m, best, u, slots, v, m2);
            }
        },
    }
    assert(tried(net, m2, best, u, slots + 1)) by {
        assert forall|s: int, x: int, w: int|
            #[trigger] arc_at(net, u as int, s, x, w) && s < slots + 1 implies m2[u].dist + w
            >= best || (m2.contains_key(x as u32) && m2[x as u32].dist <= m2[u].dist + w) by {
            if s < slots {
                assert(tried(net, m2, best, u, slots));
            }
        }
    }
}

proof fn lemma_tried_insert(
    net: Net,
    m: Known,
    best: int,
    x: u32,
    upto: int,
    v: u32,
    m2: Known,
)
    requires
        tried(net, m, best, x, upto),
        m.contains_key(x),
        x != v,
        m2.contains_key(v),
        m2[x] == m[x],
        m.contains_key(v) ==> m2[v].dist <= m[v].dist,
        forall|y: u32| y != v && #[trigger] m.contains_key(y) ==> m2.contains_key(y) && m2[y] == m[y],
    ensures
        tried(net, m2, best, x, upto),
{
    assert forall|s: int, t: int, w: int|
        #[trigger] arc_at(net, x as int, s, t, w) && s < upto implies m2[x].dist + w >= best || (
    m2.contains_key(t as u32) && m2[t as u32].dist <= m2[x].dist + w) by {
        if m[x].dist + w < best {
            assert(m.contains_key(t as u32) && m[t as u32].dist <= m[x].dist + w);
            assert(m2.contains_key(t as u32));
        }
    }
}

/// Every slot tried: the vertex is settled.
pub proof fn lemma_front_settle(
    net: Net,
    seeds: Seq<(int, int)>,
    m: Known,
    pruned: Set<u32>,
    best: int,
    pot: spec_fn(u32) -> int,
    u: u32,
)
    requires
        front(
            net,
            seeds,
            m,
            pruned,
            best,
            pot,
            u as int,
            (net.arcs)(u as int).len() as int,
        ),
    ensures
        front(net, seeds, m, pruned, best, pot, -1, 0),
{
}

/// A better answer only makes less worth trying.
pub proof fn lemma_front_best(
    net: Net,
    seeds: Seq<(int, int)>,
    m: Known,
    pruned: Set<u32>,
    best: int,
    best2: int,
    pot: spec_fn(u32) -> int,
)
    requires
        front(net, seeds, m, pruned, best, pot, -1, 0),
        best2 <= best,
    ensures
        front(net, seeds, m, pruned, best2, pot, -1, 0),
{
    assert forall|x: u32| #[trigger] m.contains_key(x) && !m[x].queued implies pruned.contains(
        x,
    ) || tried(net, m, best2, x, (net.arcs)(x as int).len() as int) by {
        if !pruned.contains(x) {
            assert(tried(net, m, best, x, (net.arcs)(x as int).len() as int));
        }
    }
}

/// Known vertices fit in the network, so there is room for one more.
pub proof fn lemma_room(m: Known, n: int)
    requires
        m.dom().finite(),
        forall|v: u32| #[trigger] m.contains_key(v) ==> v < n,
        0 <= n < MAX_REACHED,
    ensures
        m.dom().len() <= n,
        m.dom().len() < MAX_REACHED,
{
    let all = Set::new(|v: u32| v < n);
    lemma_range_len(n);
    assert(m.dom().subset_of(all)) by {
        assert forall|v: u32| m.dom().contains(v) implies all.contains(v) by {
            assert(m.contains_key(v));
        }
    }
    vstd::set_lib::lemma_len_subset(m.dom(), all);
}

proof fn lemma_range_len(n: int)
    requires
        0 <= n <= u32::MAX,
    ensures
        Set::new(|v: u32| v < n).finite(),
        Set::new(|v: u32| v < n).len() == n,
    decreases n,
{
    let s = Set::new(|v: u32| v < n);
    if n == 0 {
        assert(s =~= Set::empty());
    } else {
        lemma_range_len(n - 1);
        let t = Set::new(|v: u32| v < n - 1);
        assert(s =~= t.insert((n - 1) as u32));
    }
}

proof fn lemma_front_closed(
    net: Net,
    seeds: Seq<(int, int)>,
    m: Known,
    best: int,
    pot: spec_fn(u32) -> int,
    v: int,
    d: int,
    n: nat,
)
    requires
        front(net, seeds, m, Set::empty(), best, pot, -1, 0),
        seeds_in(net, seeds),
        net.n < u32::MAX,
        forall|v: u32| #[trigger] m.contains_key(v) ==> !m[v].queued,
        walk(net, seeds, v, d, n),
        d < best,
    ensures
        0 <= v < net.n,
        m.contains_key(v as u32),
        m[v as u32].dist <= d,
    decreases n,
{
    if n == 0 {
        let i = choose|i: int| 0 <= i < seeds.len() && #[trigger] seeds[i] == (v, d);
        assert(seeds[i].0 == v);
    } else {
        let (u, s, w) = choose|u: int, s: int, w: int|
            #[trigger] arc_at(net, u, s, v, w) && walk(net, seeds, u, d - w, (n - 1) as nat);
        lemma_front_closed(net, seeds, m, best, pot, u, d - w, (n - 1) as nat);
        let x = u as u32;
        assert(m.contains_key(x));
        assert(tried(net, m, best, x, (net.arcs)(x as int).len() as int));
        assert(arc_at(net, x as int, s, v, w));
    }
}

/// Arcs whose weights are machine words.
pub open spec fn light(net: Net) -> bool {
    forall|u: int, s: int, v: int, w: int| #[trigger] arc_at(net, u, s, v, w) ==> w <= u32::MAX
}

/// A bound that no arc can reach is no bound.
pub proof fn lemma_front_raise(
    net: Net,
    seeds: Seq<(int, int)>,
    m: Known,
    pruned: Set<u32>,
    best: int,
    best2: int,
    pot: spec_fn(u32) -> int,
)
    requires
        front(net, seeds, m, pruned, best, pot, -1, 0),
        light(net),
        best >= 0x2_0000_0000,
    ensures
        front(net, seeds, m, pruned, best2, pot, -1, 0),
{
    assert forall|v: u32|
        #[trigger] m.contains_key(v) && !m[v].queued && v != -1 && !pruned.contains(v) implies tried(
        net,
        m,
        best2,
        v,
        (net.arcs)(v as int).len() as int,
    ) by {
        assert(tried(net, m, best, v, (net.arcs)(v as int).len() as int));
    }
}

/// A search that ran dry knows everything that can be reached, and how far
/// it is.
pub proof fn lemma_front_dry(
    net: Net,
    seeds: Seq<(int, int)>,
    m: Known,
    best: int,
    pot: spec_fn(u32) -> int,
)
    requires
        front(net, seeds, m, Set::empty(), best, pot, -1, 0),
        light(net),
        best >= 0x2_0000_0000,
        seeds_in(net, seeds),
        net.n < u32::MAX,
        forall|v: u32| #[trigger] m.contains_key(v) ==> !m[v].queued,
    ensures
        forall|v: int, d: int, n: nat|
            #[trigger] walk(net, seeds, v, d, n) ==> 0 <= v < net.n && m.contains_key(v as u32)
                && m[v as u32].dist <= d,
{
    assert forall|v: int, d: int, n: nat| #[trigger] walk(net, seeds, v, d, n) implies 0 <= v
        < net.n && m.contains_key(v as u32) && m[v as u32].dist <= d by {
        lemma_front_raise(net, seeds, m, Set::empty(), best, d + 1, pot);
        lemma_front_closed(net, seeds, m, d + 1, pot, v, d, n);
    }
}

// ------------------------------------------------------------ termination

/// What a vertex weighs: its distance, or more than any when unknown.
pub open spec fn weight(m: Known, v: u32) -> nat {
    if m.contains_key(v) {
        m[v].dist as nat
    } else {
        0x1_0000_0000
    }
}

/// The weight of the first `n` vertices: every improvement makes it smaller.
pub open spec fn weights(m: Known, n: int) -> nat
    decreases n,
{
    if n <= 0 {
        0
    } else {
        weights(m, n - 1) + weight(m, (n - 1) as u32)
    }
}

/// The vertices that wait.
pub open spec fn waiting(m: Known) -> Set<u32> {
    m.dom().filter(|v: u32| m[v].queued)
}

pub proof fn lemma_weights_insert(m: Known, n: int, v: u32, node: Node)
    requires
        0 <= n <= u32::MAX,
        v < n,
    ensures
        weights(m.insert(v, node), n) == weights(m, n) - weight(m, v) + node.dist,
    decreases n,
{
    let m2 = m.insert(v, node);
    if v == n - 1 {
        lemma_weights_same(m, m2, n - 1);
    } else {
        lemma_weights_insert(m, n - 1, v, node);
        assert(weight(m2, (n - 1) as u32) == weight(m, (n - 1) as u32));
    }
}

proof fn lemma_weights_same(a: Known, b: Known, n: int)
    requires
        0 <= n <= u32::MAX,
        forall|v: u32| v < n ==> weight(a, v) == weight(b, v),
    ensures
        weights(a, n) == weights(b, n),
    decreases n,
{
    if n > 0 {
        lemma_weights_same(a, b, n - 1);
    }
}

/// Settling a vertex changes no weight and leaves one fewer waiting.
pub proof fn lemma_measure_pop(m: Known, n: int, u: u32)
    requires
        0 <= n <= u32::MAX,
        m.dom().finite(),
        m.contains_key(u),
        m[u].queued,
    ensures
        ({
            let m2 = m.insert(u, Node { queued: false, ..m[u] });
            &&& weights(m2, n) == weights(m, n)
            &&& waiting(m2).finite()
            &&& waiting(m2).len() < waiting(m).len()
        }),
{
    let m2 = m.insert(u, Node { queued: false, ..m[u] });
    lemma_weights_same(m, m2, n);
    assert(waiting(m2) =~= waiting(m).remove(u));
    assert(waiting(m).contains(u));
    vstd::set_lib::lemma_len_subset(waiting(m), m.dom());
}

} // verus!
