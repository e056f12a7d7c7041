//! When a smaller network keeps the distances of a larger one.

use vstd::prelude::*;
use crate::overlay::frontier::walkable;
use crate::overlay::meet::has_arc;
use crate::paths::{arc_at, is_dist, net_ok, walk, Net, UNREACHABLE};

verus! {

/// The seed of a search from one vertex.
pub open spec fn from(v: int) -> Seq<(int, int)> {
    seq![(v, 0int)]
}

/// Some walk leads from `u` to `v` at cost `d`.
pub open spec fn leads(net: Net, u: int, v: int, d: int) -> bool {
    walkable(net, from(u), v, d)
}

/// Some walk leads to `v` at no more than `d`.
pub open spec fn within(net: Net, seeds: Seq<(int, int)>, v: int, d: int) -> bool {
    exists|e: int| #[trigger] walkable(net, seeds, v, e) && e <= d
}

pub proof fn lemma_leads_self(net: Net, v: int)
    ensures
        leads(net, v, v, 0),
{
    assert(from(v)[0] == (v, 0int));
    assert(walk(net, from(v), v, 0, 0));
}

pub proof fn lemma_leads_arc(net: Net, u: int, v: int, d: int, x: int, s: int, w: int)
    requires
        leads(net, u, v, d),
        arc_at(net, v, s, x, w),
    ensures
        leads(net, u, x, d + w),
{
    let n = choose|n: nat| walk(net, from(u), v, d, n);
    assert(walk(net, from(u), x, d + w, n + 1)) by {
        assert(arc_at(net, v, s, x, w));
        assert(d + w - w == d);
    }
}

pub proof fn lemma_walk_arc(net: Net, seeds: Seq<(int, int)>, v: int, d: int, x: int, s: int, w: int)
    requires
        walkable(net, seeds, v, d),
        arc_at(net, v, s, x, w),
    ensures
        walkable(net, seeds, x, d + w),
{
    let n = choose|n: nat| walk(net, seeds, v, d, n);
    assert(walk(net, seeds, x, d + w, n + 1)) by {
        assert(arc_at(net, v, s, x, w));
        assert(d + w - w == d);
    }
}

/// One walk after another.
pub proof fn lemma_concat(net: Net, seeds: Seq<(int, int)>, u: int, d: int, v: int, e: int)
    requires
        walkable(net, seeds, u, d),
        leads(net, u, v, e),
    ensures
        walkable(net, seeds, v, d + e),
{
    let m = choose|m: nat| walk(net, from(u), v, e, m);
    lemma_concat_at(net, seeds, u, d, v, e, m);
}

proof fn lemma_concat_at(net: Net, seeds: Seq<(int, int)>, u: int, d: int, v: int, e: int, m: nat)
    requires
        walkable(net, seeds, u, d),
        walk(net, from(u), v, e, m),
    ensures
        walkable(net, seeds, v, d + e),
    decreases m,
{
    if m == 0 {
        let i = choose|i: int| 0 <= i < from(u).len() && #[trigger] from(u)[i] == (v, e);
        assert(from(u)[i] == (u, 0int));
    } else {
        let (x, s, w) = choose|x: int, s: int, w: int|
            #[trigger] arc_at(net, x, s, v, w) && walk(net, from(u), x, e - w, (m - 1) as nat);
        lemma_concat_at(net, seeds, u, d, x, e - w, (m - 1) as nat);
        lemma_walk_arc(net, seeds, x, d + (e - w), v, s, w);
        assert(d + (e - w) + w == d + e);
    }
}

/// A walk of one network is a walk of any that has its arcs.
pub proof fn lemma_embed(a: Net, b: Net, u: int, v: int, d: int)
    requires
        leads(a, u, v, d),
        forall|x: int, s: int, y: int, w: int| #[trigger] arc_at(a, x, s, y, w) ==> has_arc(b, x, y, w),
    ensures
        leads(b, u, v, d),
{
    let n = choose|n: nat| walk(a, from(u), v, d, n);
    lemma_embed_at(a, b, u, v, d, n);
}

proof fn lemma_embed_at(a: Net, b: Net, u: int, v: int, d: int, n: nat)
    requires
        walk(a, from(u), v, d, n),
        forall|x: int, s: int, y: int, w: int| #[trigger] arc_at(a, x, s, y, w) ==> has_arc(b, x, y, w),
    ensures
        leads(b, u, v, d),
    decreases n,
{
    if n == 0 {
        assert(walk(b, from(u), v, d, 0));
    } else {
        let (x, s, w) = choose|x: int, s: int, w: int|
            #[trigger] arc_at(a, x, s, v, w) && walk(a, from(u), x, d - w, (n - 1) as nat);
        lemma_embed_at(a, b, u, x, d - w, (n - 1) as nat);
        assert(has_arc(b, x, v, w));
        let s2 = choose|s2: int| arc_at(b, x, s2, v, w);
        lemma_leads_arc(b, u, x, d - w, v, s2, w);
    }
}

/// Where every arc has its reverse, so has every walk.
pub proof fn lemma_reverse(a: Net, b: Net, u: int, v: int, d: int)
    requires
        leads(a, u, v, d),
        forall|x: int, s: int, y: int, w: int| #[trigger] arc_at(a, x, s, y, w) ==> has_arc(b, y, x, w),
    ensures
        leads(b, v, u, d),
{
    let n = choose|n: nat| walk(a, from(u), v, d, n);
    lemma_reverse_at(a, b, u, v, d, n);
}

proof fn lemma_reverse_at(a: Net, b: Net, u: int, v: int, d: int, n: nat)
    requires
        walk(a, from(u), v, d, n),
        forall|x: int, s: int, y: int, w: int| #[trigger] arc_at(a, x, s, y, w) ==> has_arc(b, y, x, w),
    ensures
        leads(b, v, u, d),
    decreases n,
{
    if n == 0 {
        let i = choose|i: int| 0 <= i < from(u).len() && #[trigger] from(u)[i] == (v, d);
        assert(from(u)[i] == (u, 0int));
        lemma_leads_self(b, v);
    } else {
        let (x, s, w) = choose|x: int, s: int, w: int|
            #[trigger] arc_at(a, x, s, v, w) && walk(a, from(u), x, d - w, (n - 1) as nat);
        lemma_reverse_at(a, b, u, x, d - w, (n - 1) as nat);
        assert(has_arc(b, v, x, w));
        let s2 = choose|s2: int| arc_at(b, v, s2, x, w);
        lemma_leads_self(b, v);
        lemma_leads_arc(b, v, v, 0, x, s2, w);
        lemma_concat(b, from(v), x, w, u, d - w);
    }
}

/// Every vertex has a distance.
pub proof fn lemma_dist_exists(net: Net, seeds: Seq<(int, int)>, v: int)
    requires
        forall|d: int, n: nat| #[trigger] walk(net, seeds, v, d, n) ==> d >= 0,
    ensures
        exists|x: u32| is_dist(net, seeds, v, x),
{
    if exists|d: int, n: nat| #[trigger] walk(net, seeds, v, d, n) && d < UNREACHABLE {
        let (d, n) = choose|d: int, n: nat| #[trigger] walk(net, seeds, v, d, n) && d < UNREACHABLE;
        lemma_least(net, seeds, v, d, n);
    } else {
        assert(is_dist(net, seeds, v, UNREACHABLE));
    }
}

proof fn lemma_least(net: Net, seeds: Seq<(int, int)>, v: int, d: int, n: nat)
    requires
        forall|d: int, n: nat| #[trigger] walk(net, seeds, v, d, n) ==> d >= 0,
        walk(net, seeds, v, d, n),
        d < UNREACHABLE,
    ensures
        exists|x: u32| is_dist(net, seeds, v, x),
    decreases d,
{
    if exists|e: int, m: nat| #[trigger] walk(net, seeds, v, e, m) && e < d {
        let (e, m) = choose|e: int, m: nat| #[trigger] walk(net, seeds, v, e, m) && e < d;
        lemma_least(net, seeds, v, e, m);
    } else {
        assert(is_dist(net, seeds, v, d as u32));
    }
}

/// A network, cells that cover it, and a smaller network over some of its
/// vertices.
pub struct Contraction {
    pub base: Net,
    /// Two vertices stand in one cell.
    pub same: spec_fn(int, int) -> bool,
    /// The network inside the cell of a vertex.
    pub inner: spec_fn(int) -> Net,
    /// The vertices that are kept, and their places in the smaller network.
    pub kept: spec_fn(int) -> bool,
    pub place: spec_fn(int) -> int,
    pub vertex: spec_fn(int) -> int,
    pub small: Net,
}

/// The smaller network accounts for the larger one: for arcs between cells by
/// themselves, and for walks inside a cell by arcs between what is kept.
pub open spec fn contracts(c: Contraction) -> bool {
    &&& net_ok(c.base)
    &&& forall|u: int| #[trigger] (c.same)(u, u)
    &&& forall|u: int, v: int, x: int|
        #[trigger] (c.same)(u, v) && #[trigger] (c.same)(v, x) ==> (c.same)(u, x)
    &&& forall|u: int, v: int| #[trigger] (c.same)(u, v) ==> (c.inner)(v) == (c.inner)(u)
    &&& forall|u: int, s: int, v: int, w: int|
        #[trigger] arc_at(c.base, u, s, v, w) && !(c.same)(u, v) ==> {
            &&& (c.kept)(u)
            &&& (c.kept)(v)
            &&& has_arc(c.small, (c.place)(u), (c.place)(v), w)
        }
    &&& forall|u: int, s: int, v: int, w: int|
        #[trigger] arc_at(c.base, u, s, v, w) && (c.same)(u, v) ==> has_arc((c.inner)(u), u, v, w)
    &&& forall|u: int, v: int, d: int|
        (c.kept)(u) && (c.kept)(v) && u != v && d < UNREACHABLE && #[trigger] leads(
            (c.inner)(u),
            u,
            v,
            d,
        ) && (c.same)(u, v) ==> arc_up_to(c.small, (c.place)(u), (c.place)(v), d)
    &&& forall|u: int, s: int, v: int, w: int|
        #[trigger] arc_at(c.small, u, s, v, w) ==> leads(c.base, (c.vertex)(u), (c.vertex)(v), w)
    &&& forall|u: int, v: int, d: int| #[trigger] leads((c.inner)(u), u, v, d) ==> d >= 0
}

pub open spec fn arc_up_to(net: Net, u: int, v: int, d: int) -> bool {
    exists|s: int, w: int| #[trigger] arc_at(net, u, s, v, w) && w <= d
}

/// How the smaller network is entered from sources with what it costs to get
/// to them: at what is kept of their cells, for no more than it takes to get
/// there inside the cell.
pub open spec fn enters(c: Contraction, srcs: Seq<(int, int)>, seeds: Seq<(int, int)>) -> bool {
    &&& forall|j: int, v: int, d: int|
        0 <= j < srcs.len() && (c.kept)(v) && srcs[j].1 + d < UNREACHABLE && (c.same)(
            srcs[j].0,
            v,
        ) && #[trigger] leads((c.inner)(srcs[j].0), srcs[j].0, v, d) ==> within(
            c.small,
            seeds,
            (c.place)(v),
            srcs[j].1 + d,
        )
    &&& forall|i: int|
        0 <= i < seeds.len() && (#[trigger] seeds[i]).1 < UNREACHABLE ==> walkable(
            c.base,
            srcs,
            (c.vertex)(seeds[i].0),
            seeds[i].1,
        )
}

/// A walk to `v` that never left the cell of its source.
pub open spec fn stays(c: Contraction, srcs: Seq<(int, int)>, j: int, v: int, d: int) -> bool {
    &&& 0 <= j < srcs.len()
    &&& (c.same)(srcs[j].0, v)
    &&& leads((c.inner)(srcs[j].0), srcs[j].0, v, d - srcs[j].1)
}

/// A walk from a source to `v`: either it never left the cell of its source,
/// or its last entry into a cell is known to the smaller network.
pub open spec fn split(
    c: Contraction,
    srcs: Seq<(int, int)>,
    seeds: Seq<(int, int)>,
    v: int,
    d: int,
) -> bool {
    ||| exists|j: int| stays(c, srcs, j, v, d)
    ||| exists|g: int, d1: int, d2: int|
        {
            &&& (c.kept)(g)
            &&& (c.same)(g, v)
            &&& #[trigger] within(c.small, seeds, (c.place)(g), d1)
            &&& #[trigger] leads((c.inner)(g), g, v, d2)
            &&& d1 + d2 <= d
        }
}

/// What is kept is reached in the smaller network for no more.
proof fn lemma_split_kept(
    c: Contraction,
    srcs: Seq<(int, int)>,
    seeds: Seq<(int, int)>,
    v: int,
    d: int,
)
    requires
        contracts(c),
        enters(c, srcs, seeds),
        split(c, srcs, seeds, v, d),
        (c.kept)(v),
        d < UNREACHABLE,
        forall|x: int, e: int| #[trigger] walkable(c.small, seeds, x, e) ==> e >= 0,
    ensures
        within(c.small, seeds, (c.place)(v), d),
{
    if exists|j: int| stays(c, srcs, j, v, d) {
        let j = choose|j: int| stays(c, srcs, j, v, d);
        assert(leads((c.inner)(srcs[j].0), srcs[j].0, v, d - srcs[j].1));
        assert(srcs[j].1 + (d - srcs[j].1) == d);
    } else {
        let (g, d1, d2) = choose|g: int, d1: int, d2: int|
            {
                &&& (c.kept)(g)
                &&& (c.same)(g, v)
                &&& #[trigger] within(c.small, seeds, (c.place)(g), d1)
                &&& #[trigger] leads((c.inner)(g), g, v, d2)
                &&& d1 + d2 <= d
            };
        let e = choose|e: int| #[trigger] walkable(c.small, seeds, (c.place)(g), e) && e <= d1;
        if g == v {
            assert(walkable(c.small, seeds, (c.place)(v), e) && e <= d);
        } else {
            assert(arc_up_to(c.small, (c.place)(g), (c.place)(v), d2));
            let (t, w) = choose|t: int, w: int|
                #[trigger] arc_at(c.small, (c.place)(g), t, (c.place)(v), w) && w <= d2;
            lemma_walk_arc(c.small, seeds, (c.place)(g), e, (c.place)(v), t, w);
            assert(walkable(c.small, seeds, (c.place)(v), e + w) && e + w <= d);
        }
    }
}

/// Every walk of the larger network splits.
pub proof fn lemma_split(
    c: Contraction,
    srcs: Seq<(int, int)>,
    seeds: Seq<(int, int)>,
    v: int,
    d: int,
    n: nat,
)
    requires
        contracts(c),
        enters(c, srcs, seeds),
        walk(c.base, srcs, v, d, n),
        d < UNREACHABLE,
        forall|x: int, e: int| #[trigger] walkable(c.small, seeds, x, e) ==> e >= 0,
    ensures
        split(c, srcs, seeds, v, d),
        (c.kept)(v) ==> within(c.small, seeds, (c.place)(v), d),
    decreases n,
{
    if n == 0 {
        let j = choose|j: int| 0 <= j < srcs.len() && #[trigger] srcs[j] == (v, d);
        lemma_leads_self((c.inner)(v), v);
        assert(stays(c, srcs, j, v, d));
    } else {
        let (u, t, w) = choose|u: int, t: int, w: int|
            #[trigger] arc_at(c.base, u, t, v, w) && walk(
                c.base,
                srcs,
                u,
                d - w,
                (n - 1) as nat,
            );
        assert(arc_at(c.base, u, t, v, w));
        lemma_split(c, srcs, seeds, u, d - w, (n - 1) as nat);
        if (c.same)(u, v) {
            let inside = (c.inner)(u);
            assert(has_arc(inside, u, v, w));
            let t2 = choose|t2: int| arc_at(inside, u, t2, v, w);
            let du = d - w;
            if exists|j: int| stays(c, srcs, j, u, du) {
                let j = choose|j: int| stays(c, srcs, j, u, du);
                let (s, from_s) = (srcs[j].0, du - srcs[j].1);
                lemma_leads_arc((c.inner)(s), s, u, from_s, v, t2, w);
                assert(from_s + w == d - srcs[j].1);
                assert(stays(c, srcs, j, v, d));
            } else {
                let (g, d1, d2) = choose|g: int, d1: int, d2: int|
                    {
                        &&& (c.kept)(g)
                        &&& (c.same)(g, u)
                        &&& #[trigger] within(c.small, seeds, (c.place)(g), d1)
                        &&& #[trigger] leads((c.inner)(g), g, u, d2)
                        &&& d1 + d2 <= d - w
                    };
                lemma_leads_arc((c.inner)(g), g, u, d2, v, t2, w);
                assert(within(c.small, seeds, (c.place)(g), d1));
                assert(leads((c.inner)(g), g, v, d2 + w));
            }
        } else {
            lemma_split_kept(c, srcs, seeds, u, d - w);
            let e = choose|e: int|
                #[trigger] walkable(c.small, seeds, (c.place)(u), e) && e <= d - w;
            assert(has_arc(c.small, (c.place)(u), (c.place)(v), w));
            let (pu, pv) = ((c.place)(u), (c.place)(v));
            let t2 = choose|t2: int| arc_at(c.small, pu, t2, pv, w);
            lemma_walk_arc(c.small, seeds, (c.place)(u), e, (c.place)(v), t2, w);
            assert(walkable(c.small, seeds, (c.place)(v), e + w) && e + w <= d);
            lemma_leads_self((c.inner)(v), v);
            assert(within(c.small, seeds, (c.place)(v), d));
            assert(leads((c.inner)(v), v, v, 0));
        }
    }
    if (c.kept)(v) {
        lemma_split_kept(c, srcs, seeds, v, d);
    }
}

/// Every walk of the smaller network is one of the larger.
pub proof fn lemma_unfold(
    c: Contraction,
    srcs: Seq<(int, int)>,
    seeds: Seq<(int, int)>,
    x: int,
    d: int,
    n: nat,
)
    requires
        contracts(c),
        enters(c, srcs, seeds),
        walk(c.small, seeds, x, d, n),
        d < UNREACHABLE,
        forall|x: int, e: int| #[trigger] walkable(c.small, seeds, x, e) ==> e >= 0,
        net_ok(c.small),
    ensures
        walkable(c.base, srcs, (c.vertex)(x), d),
    decreases n,
{
    if n == 0 {
        let i = choose|i: int| 0 <= i < seeds.len() && #[trigger] seeds[i] == (x, d);
        assert(seeds[i].1 < UNREACHABLE);
    } else {
        let (u, t, w) = choose|u: int, t: int, w: int|
            #[trigger] arc_at(c.small, u, t, x, w) && walk(c.small, seeds, u, d - w, (n - 1) as nat);
        assert(arc_at(c.small, u, t, x, w));
        lemma_unfold(c, srcs, seeds, u, d - w, (n - 1) as nat);
        lemma_concat(c.base, srcs, (c.vertex)(u), d - w, (c.vertex)(x), w);
        assert(d - w + w == d);
    }
}

} // verus!
