//! Two searches that meet: when the best meeting found is the best there is.

use vstd::prelude::*;
use crate::overlay::frontier::{front, lemma_front_best, reachable, seeds_in, tried, Known};
use crate::paths::{arc_at, net_ok, walk, Net};
use crate::searchstate::Node;

verus! {

/// One side of a search, between two settles.
pub struct Side {
    pub net: Net,
    pub seeds: Seq<(int, int)>,
    pub known: Known,
    pub pruned: Set<u32>,
    pub pot: spec_fn(u32) -> int,
}

pub open spec fn settled(m: Known, v: u32) -> bool {
    m.contains_key(v) && !m[v].queued
}

pub open spec fn has_arc(net: Net, u: int, v: int, w: int) -> bool {
    exists|s: int| arc_at(net, u, s, v, w)
}

/// On the vertices `x`, which hold both sets of seeds and everything they
/// lead to, each network is the other one reversed.
pub open spec fn mirrored(
    a: Net,
    sa: Seq<(int, int)>,
    b: Net,
    sb: Seq<(int, int)>,
    x: Set<int>,
) -> bool {
    &&& forall|i: int| 0 <= i < sa.len() ==> x.contains((#[trigger] sa[i]).0)
    &&& forall|i: int| 0 <= i < sb.len() ==> x.contains((#[trigger] sb[i]).0)
    &&& reversed(a, b, x)
    &&& reversed(b, a, x)
}

/// Every arc of `a` that starts in `x` stays there, and `b` has it reversed.
pub open spec fn reversed(a: Net, b: Net, x: Set<int>) -> bool {
    forall|u: int, s: int, v: int, w: int|
        #[trigger] arc_at(a, u, s, v, w) && x.contains(u) ==> x.contains(v) && has_arc(b, v, u, w)
}

/// What was left unexpanded could not have led to anything cheaper.
pub open spec fn spared(a: Side, b: Side, best: int) -> bool {
    forall|v: u32, d: int, n: nat|
        a.pruned.contains(v) && settled(a.known, v) && #[trigger] walk(
            b.net,
            b.seeds,
            v as int,
            d,
            n,
        ) ==> a.known[v].dist + d >= best
}

/// Where this side has settled a seed of the other, that meeting was counted.
pub open spec fn greeted(a: Side, b: Side, best: int) -> bool {
    forall|v: u32, i: int|
        settled(a.known, v) && 0 <= i < b.seeds.len() && (#[trigger] b.seeds[i]).0 == v
            ==> #[trigger] a.known[v].dist + b.seeds[i].1 >= best
}

/// Where an arc leads from what this side has settled to what the other has,
/// that meeting was counted.
pub open spec fn joined(a: Side, b: Side, best: int) -> bool {
    forall|x: u32, s: int, y: u32, w: int|
        #[trigger] arc_at(a.net, x as int, s, y as int, w) && settled(a.known, x)
            && !a.pruned.contains(x) && settled(b.known, y) && !b.pruned.contains(y)
            ==> a.known[x].dist + w + b.known[y].dist >= best
}

pub open spec fn front_of(a: Side, best: int) -> bool {
    &&& front(a.net, a.seeds, a.known, a.pruned, best, a.pot, -1, 0)
    &&& seeds_in(a.net, a.seeds)
    &&& a.net.n <= u32::MAX
}

/// Both sides, with the best meeting counted so far.
#[verifier::opaque]
pub open spec fn both(a: Side, b: Side, best: int) -> bool {
    &&& front_of(a, best)
    &&& front_of(b, best)
    &&& a.net.n == b.net.n
    &&& spared(a, b, best)
    &&& spared(b, a, best)
    &&& greeted(a, b, best)
    &&& greeted(b, a, best)
    &&& joined(a, b, best)
    &&& joined(b, a, best)
}

pub proof fn lemma_both_swap(a: Side, b: Side, best: int)
    requires
        both(a, b, best),
    ensures
        both(b, a, best),
{
    reveal(both);
}

pub proof fn lemma_both_start(a: Side, b: Side, best: int)
    requires
        front_of(a, best),
        front_of(b, best),
        a.net.n == b.net.n,
        a.pruned == Set::<u32>::empty(),
        b.pruned == Set::<u32>::empty(),
        forall|v: u32| #[trigger] a.known.contains_key(v) ==> a.known[v].queued,
        forall|v: u32| #[trigger] b.known.contains_key(v) ==> b.known[v].queued,
    ensures
        both(a, b, best),
{
    reveal(both);
}

pub proof fn lemma_both_fronts(a: Side, b: Side, best: int)
    requires
        both(a, b, best),
    ensures
        front_of(a, best),
        front_of(b, best),
{
    reveal(both);
}

/// What can be reached stays among the mirrored vertices.
proof fn lemma_stays(a: Net, sa: Seq<(int, int)>, b: Net, sb: Seq<(int, int)>, x: Set<int>, v: int, d: int, n: nat)
    requires
        mirrored(a, sa, b, sb, x),
        walk(a, sa, v, d, n),
    ensures
        x.contains(v),
    decreases n,
{
    if n > 0 {
        let (u, s, w) = choose|u: int, s: int, w: int|
            #[trigger] arc_at(a, u, s, v, w) && walk(a, sa, u, d - w, (n - 1) as nat);
        lemma_stays(a, sa, b, sb, x, u, d - w, (n - 1) as nat);
    } else {
        let i = choose|i: int| 0 <= i < sa.len() && #[trigger] sa[i] == (v, d);
        assert(x.contains(sa[i].0));
    }
}

/// Walks cost nothing below zero.
pub proof fn lemma_walk_cost(a: Net, sa: Seq<(int, int)>, v: int, d: int, n: nat)
    requires
        net_ok(a),
        seeds_in(a, sa),
        walk(a, sa, v, d, n),
    ensures
        d >= 0,
    decreases n,
{
    if n > 0 {
        let (u, s, w) = choose|u: int, s: int, w: int|
            #[trigger] arc_at(a, u, s, v, w) && walk(a, sa, u, d - w, (n - 1) as nat);
        lemma_walk_cost(a, sa, u, d - w, (n - 1) as nat);
        assert(arc_at(a, u, s, v, w));
    } else {
        let i = choose|i: int| 0 <= i < sa.len() && #[trigger] sa[i] == (v, d);
        assert(sa[i].1 >= 0);
    }
}

/// A vertex settled without being expanded.
pub proof fn lemma_both_prune(a: Side, b: Side, best: int, u: u32, a2: Side)
    requires
        both(a, b, best),
        settled(a2.known, u),
        a.known.contains_key(u) && a.known[u].queued,
        a2 == (Side {
            known: a.known.insert(u, Node { queued: false, ..a.known[u] }),
            pruned: a.pruned.insert(u),
            ..a
        }),
        front_of(a2, best),
        forall|d: int, n: nat|
            #[trigger] walk(b.net, b.seeds, u as int, d, n) ==> a.known[u].dist + d >= best,
    ensures
        both(a2, b, best),
{
    reveal(both);
    assert forall|v: u32, i: int|
        settled(a2.known, v) && 0 <= i < b.seeds.len() && (#[trigger] b.seeds[i]).0
            == v implies #[trigger] a2.known[v].dist + b.seeds[i].1 >= best by {
        if v == u {
            assert(walk(b.net, b.seeds, u as int, b.seeds[i].1, 0)) by {
                assert(b.seeds[i] == (u as int, b.seeds[i].1));
            }
        } else {
            assert(settled(a.known, v));
        }
    }
    assert(spared(a2, b, best)) by {
        assert forall|v: u32, d: int, n: nat|
            a2.pruned.contains(v) && settled(a2.known, v) && #[trigger] walk(
                b.net,
                b.seeds,
                v as int,
                d,
                n,
            ) implies a2.known[v].dist + d >= best by {
            if v != u {
                assert(a.pruned.contains(v) && settled(a.known, v));
            }
        }
    }
    assert(joined(a2, b, best));
    assert(joined(b, a2, best));
}

/// A vertex settled and expanded, with its meeting counted.
pub proof fn lemma_both_settle(
    a: Side,
    b: Side,
    best: int,
    best2: int,
    u: u32,
    a2: Side,
    x: Set<int>,
)
    requires
        both(a, b, best),
        mirrored(a.net, a.seeds, b.net, b.seeds, x),
        best2 <= best,
        a2.net == a.net,
        a2.seeds == a.seeds,
        a2.pot == a.pot,
        a2.pruned == a.pruned.remove(u),
        front_of(a2, best),
        a.known.contains_key(u) && a.known[u].queued,
        settled(a2.known, u),
        forall|v: u32|
            v != u && #[trigger] settled(a2.known, v) ==> settled(a.known, v) && a2.known[v].dist
                == a.known[v].dist,
        b.known.contains_key(u) ==> best2 <= a2.known[u].dist + b.known[u].dist,
    ensures
        both(a2, b, best2),
{
    reveal(both);
    lemma_front_best(a2.net, a2.seeds, a2.known, a2.pruned, best, best2, a2.pot);
    lemma_front_best(b.net, b.seeds, b.known, b.pruned, best, best2, b.pot);
    assert(spared(a2, b, best2)) by {
        assert forall|v: u32, d: int, n: nat|
            a2.pruned.contains(v) && settled(a2.known, v) && #[trigger] walk(
                b.net,
                b.seeds,
                v as int,
                d,
                n,
            ) implies a2.known[v].dist + d >= best2 by {
            assert(a.pruned.contains(v));
            assert(settled(a.known, v));
        }
    }
    assert(greeted(a2, b, best2)) by {
        assert forall|v: u32, i: int|
            settled(a2.known, v) && 0 <= i < b.seeds.len() && (#[trigger] b.seeds[i]).0
                == v implies #[trigger] a2.known[v].dist + b.seeds[i].1 >= best2 by {
            if v == u {
                assert(b.known.contains_key(b.seeds[i].0 as u32));
            } else {
                assert(settled(a.known, v));
                assert(a.known[v].dist + b.seeds[i].1 >= best);
            }
        }
    }
    assert(greeted(b, a2, best2)) by {
        assert forall|v: u32, i: int|
            settled(b.known, v) && 0 <= i < a2.seeds.len() && (#[trigger] a2.seeds[i]).0
                == v implies #[trigger] b.known[v].dist + a2.seeds[i].1 >= best2 by {
            assert(b.known[v].dist + a.seeds[i].1 >= best);
        }
    }
    assert(joined(b, a2, best2)) by {
        assert forall|y: u32, s: int, z: u32, w: int|
            #[trigger] arc_at(b.net, y as int, s, z as int, w) && settled(b.known, y)
                && !b.pruned.contains(y) && settled(a2.known, z) && !a2.pruned.contains(
                z,
            ) implies b.known[y].dist + w + a2.known[z].dist >= best2 by {
            if z == u {
                assert(tried(b.net, b.known, best2, y, (b.net.arcs)(y as int).len() as int));
            } else {
                assert(settled(a.known, z));
                assert(!a.pruned.contains(z));
            }
        }
    }
    assert(joined(a2, b, best2)) by {
        assert forall|y: u32, s: int, z: u32, w: int|
            #[trigger] arc_at(a2.net, y as int, s, z as int, w) && settled(a2.known, y)
                && !a2.pruned.contains(y) && settled(b.known, z) && !b.pruned.contains(
                z,
            ) implies a2.known[y].dist + w + b.known[z].dist >= best2 by {
            if y == u {
                assert(reachable(a2.net, a2.seeds, u as int));
                let (d0, n0) = choose|d: int, n: nat| walk(a2.net, a2.seeds, u as int, d, n);
                lemma_stays(a.net, a.seeds, b.net, b.seeds, x, u as int, d0, n0);
                assert(has_arc(b.net, z as int, u as int, w));
                let s2 = choose|s2: int| arc_at(b.net, z as int, s2, u as int, w);
                assert(arc_at(b.net, z as int, s2, u as int, w));
                assert(tried(b.net, b.known, best2, z, (b.net.arcs)(z as int).len() as int));
            } else {
                assert(settled(a.known, y));
                assert(!a.pruned.contains(y));
            }
        }
    }
}

// ------------------------------------------------------------- at the end

/// Everything that waits on this side is at least `top` away, counting how it
/// is drawn.
pub open spec fn topped(a: Side, top: int) -> bool {
    forall|v: u32|
        #[trigger] a.known.contains_key(v) && a.known[v].queued ==> a.known[v].dist + (a.pot)(v)
            >= top
}

/// No potential exceeds an arc's weight and the potential at its far end.
pub open spec fn falls(net: Net, pot: spec_fn(u32) -> int) -> bool {
    forall|u: int, s: int, v: int, w: int|
        #[trigger] arc_at(net, u, s, v, w) ==> pot(u as u32) <= w + pot(v as u32)
}

/// At no vertex do the two potentials come to more than `slack`.
pub open spec fn balanced(a: Side, b: Side, slack: int) -> bool {
    forall|v: u32| v < a.net.n ==> #[trigger] (a.pot)(v) + (b.pot)(v) <= slack
}

/// A walk that could still beat `best` has been followed up to the front.
proof fn lemma_followed(
    a: Side,
    b: Side,
    best: int,
    x: Set<int>,
    top: int,
    v: int,
    p: int,
    n: nat,
    q: int,
    m: nat,
)
    requires
        both(a, b, best),
        mirrored(a.net, a.seeds, b.net, b.seeds, x),
        topped(a, top),
        falls(a.net, a.pot),
        walk(a.net, a.seeds, v, p, n),
        walk(b.net, b.seeds, v, q, m),
        p + q < best,
    ensures
        0 <= v < a.net.n,
        top <= p + (a.pot)(v as u32) || (settled(a.known, v as u32) && a.known[v as u32].dist <= p),
    decreases n,
{
    reveal(both);
    lemma_walk_cost(b.net, b.seeds, v, q, m);
    if n == 0 {
        let i = choose|i: int| 0 <= i < a.seeds.len() && #[trigger] a.seeds[i] == (v, p);
        assert(a.known.contains_key(a.seeds[i].0 as u32));
    } else {
        let (u, s, w) = choose|u: int, s: int, w: int|
            #[trigger] arc_at(a.net, u, s, v, w) && walk(a.net, a.seeds, u, p - w, (n - 1) as nat);
        lemma_stays(a.net, a.seeds, b.net, b.seeds, x, u, p - w, (n - 1) as nat);
        assert(has_arc(b.net, v, u, w));
        let s2 = choose|s2: int| arc_at(b.net, v, s2, u, w);
        assert(walk(b.net, b.seeds, u, q + w, m + 1)) by {
            assert(arc_at(b.net, v, s2, u, w));
            assert(q + w - w == q);
        }
        lemma_followed(a, b, best, x, top, u, p - w, (n - 1) as nat, q + w, m + 1);
        assert(arc_at(a.net, u, s, v, w));
        assert(0 <= v < a.net.n && w >= 0);
        if !(top <= p - w + (a.pot)(u as u32)) {
            let u32_ = u as u32;
            assert(settled(a.known, u32_));
            if a.pruned.contains(u32_) {
                assert(a.known[u32_].dist + (q + w) >= best);
            }
            assert(tried(a.net, a.known, best, u32_, (a.net.arcs)(u).len() as int));
            assert(a.known.contains_key(v as u32));
            if a.known[v as u32].queued {
                assert(a.known[v as u32].dist + (a.pot)(v as u32) >= top);
            }
        }
    }
}

/// From a vertex that this side has settled, the rest of a walk that could
/// beat `best` leads to a meeting that was counted.
proof fn lemma_crossed(
    a: Side,
    b: Side,
    best: int,
    x: Set<int>,
    tops: (int, int),
    slack: int,
    bound: int,
    v: int,
    p: int,
    n: nat,
    q: int,
    m: nat,
)
    requires
        both(a, b, best),
        mirrored(a.net, a.seeds, b.net, b.seeds, x),
        mirrored(b.net, b.seeds, a.net, a.seeds, x),
        topped(a, tops.0),
        topped(b, tops.1),
        falls(a.net, a.pot),
        falls(b.net, b.pot),
        balanced(a, b, slack),
        tops.0 + tops.1 >= bound + slack,
        bound <= best,
        walk(a.net, a.seeds, v, p, n),
        walk(b.net, b.seeds, v, q, m),
        0 <= v < a.net.n,
        settled(a.known, v as u32),
        a.known[v as u32].dist <= p,
    ensures
        p + q >= bound,
    decreases m,
{
    reveal(both);
    let vv = v as u32;
    if p + q >= bound {
    } else if m == 0 {
        let i = choose|i: int| 0 <= i < b.seeds.len() && #[trigger] b.seeds[i] == (v, q);
        assert(b.seeds[i].0 == vv);
        assert(a.known[vv].dist + b.seeds[i].1 >= best);
    } else {
        let (y, s, w) = choose|y: int, s: int, w: int|
            #[trigger] arc_at(b.net, y, s, v, w) && walk(b.net, b.seeds, y, q - w, (m - 1) as nat);
        lemma_stays(b.net, b.seeds, a.net, a.seeds, x, y, q - w, (m - 1) as nat);
        lemma_walk_cost(b.net, b.seeds, y, q - w, (m - 1) as nat);
        assert(has_arc(a.net, v, y, w));
        let s2 = choose|s2: int| arc_at(a.net, v, s2, y, w);
        assert(walk(a.net, a.seeds, y, p + w, n + 1)) by {
            assert(arc_at(a.net, v, s2, y, w));
            assert(p + w - w == p);
        }
        assert(arc_at(a.net, v, s2, y, w));
        assert(0 <= y < a.net.n && w >= 0);
        let yy = y as u32;
        if a.pruned.contains(vv) {
            assert(a.known[vv].dist + q >= best);
        }
        assert(tried(a.net, a.known, best, vv, (a.net.arcs)(v).len() as int));
        assert(a.known.contains_key(yy) && a.known[yy].dist <= p + w);
        if settled(a.known, yy) {
            lemma_crossed(a, b, best, x, tops, slack, bound, y, p + w, n + 1, q - w, (m - 1) as nat);
        } else {
            assert(a.known[yy].dist + (a.pot)(yy) >= tops.0);
            assert((a.pot)(yy) + (b.pot)(yy) <= slack);
            lemma_both_swap(a, b, best);
            lemma_followed(b, a, best, x, tops.1, y, q - w, (m - 1) as nat, p + w, n + 1);
            if settled(b.known, yy) && b.known[yy].dist <= q - w {
                if b.pruned.contains(yy) {
                    assert(b.known[yy].dist + (p + w) >= best);
                }
                assert(arc_at(a.net, vv as int, s2, yy as int, w));
                assert(a.known[vv].dist + w + b.known[yy].dist >= best);
            }
        }
    }
}

/// No walk from one set of seeds to the other costs less than `best`.
pub open spec fn no_better(
    a: Net,
    sa: Seq<(int, int)>,
    b: Net,
    sb: Seq<(int, int)>,
    best: int,
) -> bool {
    forall|v: int, p: int, n: nat, q: int, m: nat|
        #[trigger] walk(a, sa, v, p, n) && #[trigger] walk(b, sb, v, q, m) ==> p + q >= best
}

/// Two searches whose fronts together are as far out as the best meeting, and
/// as far again as their potentials come to, have found the best there is.
pub proof fn lemma_meet(
    a: Side,
    b: Side,
    best: int,
    x: Set<int>,
    tops: (int, int),
    slack: int,
    bound: int,
)
    requires
        both(a, b, best),
        mirrored(a.net, a.seeds, b.net, b.seeds, x),
        topped(a, tops.0),
        topped(b, tops.1),
        falls(a.net, a.pot),
        falls(b.net, b.pot),
        balanced(a, b, slack),
        tops.0 + tops.1 >= bound + slack,
        bound <= best,
    ensures
        no_better(a.net, a.seeds, b.net, b.seeds, bound),
{
    assert(mirrored(b.net, b.seeds, a.net, a.seeds, x));
    lemma_both_swap(a, b, best);
    assert forall|v: int, p: int, n: nat, q: int, m: nat|
        #[trigger] walk(a.net, a.seeds, v, p, n) && #[trigger] walk(
            b.net,
            b.seeds,
            v,
            q,
            m,
        ) implies p + q >= bound by {
        if p + q < bound {
            lemma_followed(a, b, best, x, tops.0, v, p, n, q, m);
            lemma_followed(b, a, best, x, tops.1, v, q, m, p, n);
            assert((a.pot)(v as u32) + (b.pot)(v as u32) <= slack);
            assert(balanced(b, a, slack)) by {
                reveal(both);
                assert forall|y: u32| y < b.net.n implies #[trigger] (b.pot)(y) + (a.pot)(y)
                    <= slack by {
                    assert((a.pot)(y) + (b.pot)(y) <= slack);
                }
            }
            if settled(a.known, v as u32) && a.known[v as u32].dist <= p {
                lemma_crossed(a, b, best, x, tops, slack, bound, v, p, n, q, m);
            } else {
                lemma_crossed(b, a, best, x, (tops.1, tops.0), slack, bound, v, q, m, p, n);
            }
        }
    }
}

} // verus!
