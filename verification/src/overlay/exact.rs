//! The overlay answers what a plain search answers: the cheapest way by the
//! gates and the cheapest way inside a shared region together miss nothing.
//!
//! That holds of a search that ran to its end, not of one that gave up for want
//! of memory. A search drawn to its goal needs a consistent bound, and leaves
//! out costs within `reach` of the largest a number can hold.

use vstd::prelude::*;
use crate::dataset::{seg_of, Dataset};
use crate::lookup::ascending;
use crate::overlay::contraction::{
    arc_up_to, contracts, enters, from, leads, lemma_concat, lemma_dist_exists, lemma_embed,
    lemma_leads_arc, lemma_leads_self, lemma_reverse, lemma_split, lemma_unfold, split, stays,
    within, Contraction,
};
use crate::overlay::frontier::{reachable, seeds_in, walkable};
use crate::overlay::inside::{
    around, best_inside, cost_of, kept_inside, least_inside, lone, some_inside, way_inside,
};
use crate::overlay::meet::{
    has_arc, lemma_walk_cost, mirrored, no_better, reversed,
};
use crate::overlay::net::{
    backs, climb, gate_at, inside_arc, inside_net, is_home, leaving, over_arcs, over_net, road_net,
    shortcut,
};
use crate::overlay::reference::{costed, lemma_road_ok};
use crate::overlay::rows::{
    crossing, edge_head, edge_segs, edge_weight, far_end, hop_arc, lemma_net_ok, region_net,
    road_arc, row_arcs, value,
};
use crate::overlay::search::{
    answered, cheaper, consistent, crossed, entered, fair, holds_end, homes, is_entry,
    lemma_climb_bound, lemma_over_ok, outcome, routed, short_of, some_entry, spanned, steady, told,
    trustworthy,
};
use crate::overlay::shape::{
    cell_at, gates, index_in, ladder_ok, lemma_cell_bound, lemma_index_in, lemma_rung, members,
    regions, Ladder,
};
use crate::overrides::Effect;
use crate::paths::{arc_at, dist_to, is_dist, net_ok, walk, Net, UNREACHABLE};
use crate::router::search::seeds_of;

verus! {

/// Edge `t` of `u`.
pub open spec fn is_edge(ds: Dataset, fwd: bool, u: u32, t: int) -> bool {
    u < ds.nv() && edge_head(ds, fwd)[u as int] <= t < edge_head(ds, fwd)[u + 1]
}

/// Edge `t2` of the far end of edge `t` of `u` is that edge, seen from there.
pub open spec fn other_way(ds: Dataset, fwd: bool, u: u32, t: int, t2: int) -> bool {
    let v = far_end(ds, fwd, u, t);
    &&& is_edge(ds, !fwd, v, t2)
    &&& far_end(ds, !fwd, v, t2) == u
    &&& seg_of(edge_segs(ds, !fwd)[t2]) == seg_of(edge_segs(ds, fwd)[t])
}

/// Each direction of the graph is the other one reversed.
pub open spec fn two_way(ds: Dataset) -> bool {
    forall|fwd: bool, u: u32, t: int|
        #[trigger] is_edge(ds, fwd, u, t) ==> exists|t2: int| other_way(ds, fwd, u, t, t2)
}

/// Edge `t` of `u` leaves its region of level `k`.
pub open spec fn crosses(ds: Dataset, l: Ladder, k: int, fwd: bool, u: u32, t: int) -> bool {
    is_edge(ds, fwd, u, t) && cell_at(l, k, far_end(ds, fwd, u, t) as int) != cell_at(
        l,
        k,
        u as int,
    )
}

pub open spec fn on_edge(ds: Dataset, l: Ladder, k: int, u: u32) -> bool {
    exists|fwd: bool, t: int| crosses(ds, l, k, fwd, u, t)
}

/// The gates of a level are the vertices that have an edge out of their
/// region.
pub open spec fn gated(ds: Dataset, l: Ladder) -> bool {
    forall|k: int, u: u32|
        0 <= k < l.len() && u < ds.nv() ==> #[trigger] gate_at(l, k, u) == on_edge(ds, l, k, u)
}

/// The vertices a table of region `c` of level `k` is computed over: all of
/// it at level 0, the gates of the level below above that.
pub open spec fn populated(ds: Dataset, l: Ladder, k: int, c: int, list: Seq<u32>) -> bool {
    &&& ascending(list)
    &&& forall|v: u32|
        #[trigger] list.contains(v) == (v < ds.nv() && cell_at(l, k, v as int) == c && (k > 0
            ==> gate_at(l, k - 1, v)))
}

/// Level `k` charges for a crossing what it costs inside the region.
pub open spec fn charged(ds: Dataset, effects: Seq<(u32, Effect)>, l: Ladder, k: int) -> bool {
    forall|c: int, i: int, j: int, fwd: bool|
        0 <= c < regions(l[k]) && 0 <= i < gates(l[k], c).len() && 0 <= j < gates(l[k], c).len()
            ==> is_dist(
            inside_net(ds, effects, l, k, c, fwd),
            from(gates(l[k], c)[i] as int),
            gates(l[k], c)[j] as int,
            #[trigger] value(ds, effects, l, k, c, i, j, fwd),
        )
}

/// The ladder fits the map: gates where edges leave regions, tables computed
/// over what they should be, and eager tables that hold what they say.
pub open spec fn fitted(ds: Dataset, effects: Seq<(u32, Effect)>, l: Ladder) -> bool {
    &&& ds.graph_ok()
    &&& ladder_ok(l)
    &&& l.len() >= 1
    &&& ds.nv() == l[0].of.len()
    &&& ds.nv() <= u32::MAX
    &&& two_way(ds)
    &&& gated(ds, l)
    &&& forall|k: int, c: int|
        0 <= k < l.len() && !l[k].eager && 0 <= c < regions(l[k]) ==> populated(
            ds,
            l,
            k,
            c,
            #[trigger] members(l[k], c),
        )
    &&& forall|k: int| 0 <= k < l.len() && (#[trigger] l[k]).eager ==> charged(ds, effects, l, k)
}

// ------------------------------------------------------------ inside regions

proof fn lemma_inside_arc(
    ds: Dataset,
    effects: Seq<(u32, Effect)>,
    l: Ladder,
    k: int,
    c: int,
    fwd: bool,
    u: int,
    s: int,
    v: int,
    w: int,
)
    requires
        ds.graph_ok(),
        ds.nv() <= u32::MAX,
        arc_at(inside_net(ds, effects, l, k, c, fwd), u, s, v, w),
    ensures
        ({
            let t = edge_head(ds, fwd)[u] + s;
            &&& 0 <= u < ds.nv()
            &&& is_edge(ds, fwd, u as u32, t)
            &&& far_end(ds, fwd, u as u32, t) == v
            &&& v < ds.nv()
            &&& edge_weight(ds, effects, fwd, t) is Some
            &&& edge_weight(ds, effects, fwd, t)->0 == w
            &&& 0 <= w <= u32::MAX
            &&& cell_at(l, k, u) == c
            &&& cell_at(l, k, v) == c
        }),
{
    let t = edge_head(ds, fwd)[u] + s;
    let net = inside_net(ds, effects, l, k, c, fwd);
    assert((net.arcs)(u)[s] == inside_arc(ds, effects, l, k, c, fwd, u as u32, t));
    assert(far_end(ds, fwd, u as u32, t) < ds.nv());
}

proof fn lemma_edge_inside(
    ds: Dataset,
    effects: Seq<(u32, Effect)>,
    l: Ladder,
    k: int,
    c: int,
    fwd: bool,
    u: u32,
    t: int,
)
    requires
        is_edge(ds, fwd, u, t),
        edge_weight(ds, effects, fwd, t) is Some,
        cell_at(l, k, u as int) == c,
        cell_at(l, k, far_end(ds, fwd, u, t) as int) == c,
    ensures
        has_arc(
            inside_net(ds, effects, l, k, c, fwd),
            u as int,
            far_end(ds, fwd, u, t) as int,
            edge_weight(ds, effects, fwd, t)->0 as int,
        ),
{
    let s = t - edge_head(ds, fwd)[u as int];
    let net = inside_net(ds, effects, l, k, c, fwd);
    assert((net.arcs)(u as int)[s] == inside_arc(
        ds,
        effects,
        l,
        k,
        c,
        fwd,
        u,
        edge_head(ds, fwd)[u as int] + s,
    ));
    assert(arc_at(
        net,
        u as int,
        s,
        far_end(ds, fwd, u, t) as int,
        edge_weight(ds, effects, fwd, t)->0 as int,
    ));
}

proof fn lemma_inside_net_ok(
    ds: Dataset,
    effects: Seq<(u32, Effect)>,
    l: Ladder,
    k: int,
    c: int,
    fwd: bool,
)
    requires
        ds.graph_ok(),
        ds.nv() <= u32::MAX,
    ensures
        net_ok(inside_net(ds, effects, l, k, c, fwd)),
{
    let net = inside_net(ds, effects, l, k, c, fwd);
    assert forall|u: int, s: int, v: int, w: int| #[trigger] arc_at(net, u, s, v, w) implies 0 <= v
        < net.n && w >= 0 by {
        lemma_inside_arc(ds, effects, l, k, c, fwd, u, s, v, w);
    }
}

/// A walk inside a region ends inside it, unless it goes nowhere.
proof fn lemma_inside_end(
    ds: Dataset,
    effects: Seq<(u32, Effect)>,
    l: Ladder,
    k: int,
    c: int,
    fwd: bool,
    u: int,
    v: int,
    d: int,
)
    requires
        ds.graph_ok(),
        ds.nv() <= u32::MAX,
        leads(inside_net(ds, effects, l, k, c, fwd), u, v, d),
    ensures
        d >= 0,
        u != v ==> cell_at(l, k, v) == c && 0 <= v < ds.nv(),
{
    let net = inside_net(ds, effects, l, k, c, fwd);
    let n = choose|n: nat| walk(net, from(u), v, d, n);
    lemma_inside_net_ok(ds, effects, l, k, c, fwd);
    lemma_walk_from(net, u, v, d, n);
    if u != v {
        if n == 0 {
            let i = choose|i: int| 0 <= i < from(u).len() && #[trigger] from(u)[i] == (v, d);
            assert(from(u)[i] == (u, 0int));
        } else {
            let (x, s, w) = choose|x: int, s: int, w: int|
                #[trigger] arc_at(net, x, s, v, w) && walk(net, from(u), x, d - w, (n - 1) as nat);
            lemma_inside_arc(ds, effects, l, k, c, fwd, x, s, v, w);
        }
    }
}

proof fn lemma_walk_from(net: Net, u: int, v: int, d: int, n: nat)
    requires
        net_ok(net),
        walk(net, from(u), v, d, n),
    ensures
        d >= 0,
    decreases n,
{
    if n == 0 {
        let i = choose|i: int| 0 <= i < from(u).len() && #[trigger] from(u)[i] == (v, d);
        assert(from(u)[i] == (u, 0int));
    } else {
        let (x, s, w) = choose|x: int, s: int, w: int|
            #[trigger] arc_at(net, x, s, v, w) && walk(net, from(u), x, d - w, (n - 1) as nat);
        lemma_walk_from(net, u, x, d - w, (n - 1) as nat);
        assert(arc_at(net, x, s, v, w));
    }
}

/// Regions nest: one region below means one region here.
pub proof fn lemma_nests(l: Ladder, j: int, k: int, u: int, v: int)
    requires
        0 <= j <= k,
        cell_at(l, j, u) == cell_at(l, j, v),
    ensures
        cell_at(l, k, u) == cell_at(l, k, v),
    decreases k,
{
    if j < k {
        lemma_nests(l, j, k - 1, u, v);
    }
}

/// The far end of an edge that leaves a region is a gate too.
proof fn lemma_far_gate(ds: Dataset, l: Ladder, k: int, fwd: bool, u: u32, t: int)
    requires
        ds.graph_ok(),
        ds.nv() <= u32::MAX,
        two_way(ds),
        gated(ds, l),
        0 <= k < l.len(),
        crosses(ds, l, k, fwd, u, t),
    ensures
        gate_at(l, k, u),
        gate_at(l, k, far_end(ds, fwd, u, t)),
{
    let v = far_end(ds, fwd, u, t);
    assert(is_edge(ds, fwd, u, t));
    let t2 = choose|t2: int| other_way(ds, fwd, u, t, t2);
    assert(other_way(ds, fwd, u, t, t2));
    assert(crosses(ds, l, k, !fwd, v, t2));
    assert(on_edge(ds, l, k, v));
    assert(on_edge(ds, l, k, u));
    assert(gate_at(l, k, v) == on_edge(ds, l, k, v));
    assert(gate_at(l, k, u) == on_edge(ds, l, k, u));
}

/// A gate of a level is one of every level below.
proof fn lemma_gate_below(ds: Dataset, l: Ladder, j: int, k: int, u: u32)
    requires
        gated(ds, l),
        0 <= j <= k < l.len(),
        u < ds.nv(),
        gate_at(l, k, u),
    ensures
        gate_at(l, j, u),
{
    assert(on_edge(ds, l, k, u));
    let (fwd, t) = choose|fwd: bool, t: int| crosses(ds, l, k, fwd, u, t);
    let v = far_end(ds, fwd, u, t);
    if cell_at(l, j, v as int) == cell_at(l, j, u as int) {
        lemma_nests(l, j, k, v as int, u as int);
    }
    assert(crosses(ds, l, j, fwd, u, t));
    assert(on_edge(ds, l, j, u));
    assert(gate_at(l, j, u) == on_edge(ds, l, j, u));
}

// ------------------------------------------------------------- region tables

proof fn lemma_place(list: Seq<u32>, v: u32)
    requires
        ascending(list),
    ensures
        list.contains(v) == (index_in(list, v) is Some),
        index_in(list, v) matches Some(i) ==> 0 <= i < list.len() && list[i] == v,
{
    if list.contains(v) {
        let i = list.index_of(v);
        assert(list[i] == v);
    }
}

/// An arc of a region's network: a crossing of a region below, or an edge.
spec fn is_hop(
    ds: Dataset,
    effects: Seq<(u32, Effect)>,
    l: Ladder,
    k: int,
    fwd: bool,
    u: u32,
    v: u32,
    w: int,
    i: int,
    j: int,
) -> bool {
    let cb = cell_at(l, k - 1, u as int);
    let g = gates(l[k - 1], cb);
    &&& k > 0
    &&& 0 <= i < g.len()
    &&& 0 <= j < g.len()
    &&& i != j
    &&& g[i] == u
    &&& g[j] == v
    &&& w == value(ds, effects, l, k - 1, cb, i, j, fwd)
    &&& w != UNREACHABLE
}

pub open spec fn is_road(
    ds: Dataset,
    effects: Seq<(u32, Effect)>,
    fwd: bool,
    u: u32,
    v: u32,
    w: int,
    t: int,
) -> bool {
    &&& is_edge(ds, fwd, u, t)
    &&& far_end(ds, fwd, u, t) == v
    &&& edge_weight(ds, effects, fwd, t) is Some
    &&& edge_weight(ds, effects, fwd, t)->0 == w
}

proof fn lemma_region_arc(
    ds: Dataset,
    effects: Seq<(u32, Effect)>,
    l: Ladder,
    k: int,
    list: Seq<u32>,
    fwd: bool,
    x: int,
    s: int,
    y: int,
    w: int,
)
    requires
        ds.graph_ok(),
        ascending(list),
        0 <= k,
        forall|i: int| 0 <= i < list.len() ==> (#[trigger] list[i]) < ds.nv(),
        arc_at(region_net(ds, effects, l, k, list, fwd), x, s, y, w),
    ensures
        0 <= x < list.len(),
        0 <= y < list.len(),
        (exists|i: int, j: int|
            is_hop(ds, effects, l, k, fwd, list[x], list[y], w, i, j)) || (exists|t: int|
            is_road(ds, effects, fwd, list[x], list[y], w, t)),
{
    let u = list[x];
    let net = region_net(ds, effects, l, k, list, fwd);
    let arcs = row_arcs(ds, effects, l, k, list, fwd, u);
    assert((net.arcs)(x) == arcs);
    let head = edge_head(ds, fwd);
    let cb = cell_at(l, k - 1, u as int);
    let g = gates(l[k - 1], cb);
    let b: int = if k > 0 && index_in(g, u) is Some {
        g.len() as int
    } else {
        0
    };
    if s < b {
        let i = index_in(g, u)->0;
        assert(arcs[s] == hop_arc(ds, effects, l, k, list, fwd, u, i, s));
        lemma_place(list, g[s]);
        assert(is_hop(ds, effects, l, k, fwd, u, list[y], w, i, s));
    } else {
        let t = head[u as int] + (s - b);
        assert(head[u as int] <= head[u + 1]);
        assert(arcs.len() == b + (head[u + 1] - head[u as int]));
        assert(arcs[s] == road_arc(ds, effects, l, k, list, fwd, u, t));
        lemma_place(list, far_end(ds, fwd, u, t));
        assert(is_road(ds, effects, fwd, u, list[y], w, t));
    }
}

proof fn lemma_region_road(
    ds: Dataset,
    effects: Seq<(u32, Effect)>,
    l: Ladder,
    k: int,
    list: Seq<u32>,
    fwd: bool,
    x: int,
    y: int,
    w: int,
    t: int,
)
    requires
        ascending(list),
        0 <= k,
        0 <= x < list.len(),
        0 <= y < list.len(),
        is_road(ds, effects, fwd, list[x], list[y], w, t),
        k > 0 ==> cell_at(l, k - 1, list[y] as int) != cell_at(l, k - 1, list[x] as int),
    ensures
        has_arc(region_net(ds, effects, l, k, list, fwd), x, y, w),
{
    let u = list[x];
    let net = region_net(ds, effects, l, k, list, fwd);
    let arcs = row_arcs(ds, effects, l, k, list, fwd, u);
    assert((net.arcs)(x) == arcs);
    let head = edge_head(ds, fwd);
    let cb = cell_at(l, k - 1, u as int);
    let g = gates(l[k - 1], cb);
    let b: int = if k > 0 && index_in(g, u) is Some {
        g.len() as int
    } else {
        0
    };
    let s = b + (t - head[u as int]);
    assert(arcs[s] == road_arc(ds, effects, l, k, list, fwd, u, head[u as int] + (s - b)));
    lemma_index_in(list, y);
    assert(arc_at(net, x, s, y, w));
}

proof fn lemma_region_hop(
    ds: Dataset,
    effects: Seq<(u32, Effect)>,
    l: Ladder,
    k: int,
    list: Seq<u32>,
    fwd: bool,
    x: int,
    y: int,
    w: int,
    i: int,
    j: int,
)
    requires
        ascending(list),
        k > 0,
        0 <= x < list.len(),
        0 <= y < list.len(),
        is_hop(ds, effects, l, k, fwd, list[x], list[y], w, i, j),
        ascending(gates(l[k - 1], cell_at(l, k - 1, list[x] as int))),
    ensures
        has_arc(region_net(ds, effects, l, k, list, fwd), x, y, w),
{
    let u = list[x];
    let net = region_net(ds, effects, l, k, list, fwd);
    let arcs = row_arcs(ds, effects, l, k, list, fwd, u);
    assert((net.arcs)(x) == arcs);
    let cb = cell_at(l, k - 1, u as int);
    let g = gates(l[k - 1], cb);
    lemma_index_in(g, i);
    assert(arcs[j] == hop_arc(ds, effects, l, k, list, fwd, u, i, j));
    lemma_index_in(list, y);
    assert(arc_at(net, x, j, y, w));
}

/// A region's network as a contraction of the roads inside the region.
spec fn region_contraction(
    ds: Dataset,
    effects: Seq<(u32, Effect)>,
    l: Ladder,
    k: int,
    c: int,
    list: Seq<u32>,
    fwd: bool,
) -> Contraction {
    Contraction {
        base: inside_net(ds, effects, l, k, c, fwd),
        same: |u: int, v: int|
            if k > 0 {
                cell_at(l, k - 1, u) == cell_at(l, k - 1, v)
            } else {
                u == v
            },
        inner: |u: int|
            if k > 0 {
                inside_net(ds, effects, l, k - 1, cell_at(l, k - 1, u), fwd)
            } else {
                inside_net(ds, effects, l, k, c, fwd)
            },
        kept: |v: int| 0 <= v < ds.nv() && list.contains(v as u32),
        place: |v: int| index_in(list, v as u32)->0,
        vertex: |x: int| list[x] as int,
        small: region_net(ds, effects, l, k, list, fwd),
    }
}

#[verifier::rlimit(40)]
proof fn lemma_region_contracts(
    ds: Dataset,
    effects: Seq<(u32, Effect)>,
    l: Ladder,
    k: int,
    c: int,
    list: Seq<u32>,
    fwd: bool,
)
    requires
        ds.graph_ok(),
        ladder_ok(l),
        ds.nv() == l[0].of.len(),
        two_way(ds),
        gated(ds, l),
        0 <= k <= l.len(),
        k > 0 ==> charged(ds, effects, l, k - 1),
        populated(ds, l, k, c, list),
    ensures
        contracts(region_contraction(ds, effects, l, k, c, list, fwd)),
{
    let q = region_contraction(ds, effects, l, k, c, list, fwd);
    lemma_inside_net_ok(ds, effects, l, k, c, fwd);
    assert forall|i: int| 0 <= i < list.len() implies (#[trigger] list[i]) < ds.nv() && cell_at(
        l,
        k,
        list[i] as int,
    ) == c && (k > 0 ==> gate_at(l, k - 1, list[i])) by {
        assert(list.contains(list[i]));
    }
    assert forall|u: int, s: int, v: int, w: int|
        #[trigger] arc_at(q.base, u, s, v, w) && !(q.same)(u, v) implies (q.kept)(u) && (q.kept)(v)
        && has_arc(q.small, (q.place)(u), (q.place)(v), w) by {
        lemma_inside_arc(ds, effects, l, k, c, fwd, u, s, v, w);
        let t = edge_head(ds, fwd)[u] + s;
        if k > 0 {
            assert(crosses(ds, l, k - 1, fwd, u as u32, t));
            lemma_far_gate(ds, l, k - 1, fwd, u as u32, t);
        }
        assert(list.contains(u as u32) && list.contains(v as u32));
        lemma_place(list, u as u32);
        lemma_place(list, v as u32);
        let (x, y) = ((q.place)(u), (q.place)(v));
        assert(is_road(ds, effects, fwd, list[x], list[y], w, t));
        lemma_region_road(ds, effects, l, k, list, fwd, x, y, w, t);
    }
    assert forall|u: int, s: int, v: int, w: int|
        #[trigger] arc_at(q.base, u, s, v, w) && (q.same)(u, v) implies has_arc(
        (q.inner)(u),
        u,
        v,
        w,
    ) by {
        lemma_inside_arc(ds, effects, l, k, c, fwd, u, s, v, w);
        if k > 0 {
            lemma_edge_inside(
                ds,
                effects,
                l,
                k - 1,
                cell_at(l, k - 1, u),
                fwd,
                u as u32,
                edge_head(ds, fwd)[u] + s,
            );
        } else {
            assert(arc_at((q.inner)(u), u, s, v, w));
        }
    }
    assert forall|u: int, v: int, d: int|
        (q.kept)(u) && (q.kept)(v) && u != v && d < UNREACHABLE && #[trigger] leads(
            (q.inner)(u),
            u,
            v,
            d,
        ) && (q.same)(u, v) implies arc_up_to(q.small, (q.place)(u), (q.place)(v), d) by {
        let cb = cell_at(l, k - 1, u);
        lemma_cell_bound(l, k - 1, u);
        lemma_rung(l, k - 1);
        let g = gates(l[k - 1], cb);
        lemma_place(list, u as u32);
        lemma_place(list, v as u32);
        let (x, y) = ((q.place)(u), (q.place)(v));
        assert(gate_at(l, k - 1, list[x]) && gate_at(l, k - 1, list[y]));
        lemma_place(g, u as u32);
        lemma_place(g, v as u32);
        let (i, j) = (index_in(g, u as u32)->0, index_in(g, v as u32)->0);
        let w = value(ds, effects, l, k - 1, cb, i, j, fwd);
        assert(is_dist(inside_net(ds, effects, l, k - 1, cb, fwd), from(u), v, w));
        let inside = inside_net(ds, effects, l, k - 1, cb, fwd);
        assert(leads(inside, u, v, d));
        let n = choose|n: nat| walk(inside, from(u), v, d, n);
        assert(walk(inside, from(u), v, d, n));
        assert(w <= d);
        assert(is_hop(ds, effects, l, k, fwd, list[x], list[y], w as int, i, j));
        lemma_region_hop(ds, effects, l, k, list, fwd, x, y, w as int, i, j);
        let s = choose|s: int| arc_at(q.small, x, s, y, w as int);
        assert(arc_at(q.small, x, s, y, w as int));
    }
    assert forall|x: int, s: int, y: int, w: int|
        #[trigger] arc_at(q.small, x, s, y, w) implies leads(
        q.base,
        (q.vertex)(x),
        (q.vertex)(y),
        w,
    ) by {
        lemma_region_arc(ds, effects, l, k, list, fwd, x, s, y, w);
        let (u, v) = (list[x], list[y]);
        assert(list.contains(u) && list.contains(v));
        if exists|i: int, j: int| is_hop(ds, effects, l, k, fwd, u, v, w, i, j) {
            let (i, j) = choose|i: int, j: int| is_hop(ds, effects, l, k, fwd, u, v, w, i, j);
            let cb = cell_at(l, k - 1, u as int);
            lemma_cell_bound(l, k - 1, u as int);
            lemma_crossing_leads(ds, effects, l, k, c, fwd, u, v, w, i, j);
        } else {
            let t = choose|t: int| is_road(ds, effects, fwd, u, v, w, t);
            lemma_edge_inside(ds, effects, l, k, c, fwd, u, t);
            let s2 = choose|s2: int| arc_at(q.base, u as int, s2, v as int, w);
            lemma_leads_self(q.base, u as int);
            lemma_leads_arc(q.base, u as int, u as int, 0, v as int, s2, w);
        }
    }
    assert forall|u: int, v: int, d: int| #[trigger] leads((q.inner)(u), u, v, d) implies d >= 0 by {
        if k > 0 {
            lemma_inside_end(ds, effects, l, k - 1, cell_at(l, k - 1, u), fwd, u, v, d);
        } else {
            lemma_inside_end(ds, effects, l, k, c, fwd, u, v, d);
        }
    }
}

/// A crossing of a region below is a walk inside the region above it.
proof fn lemma_crossing_leads(
    ds: Dataset,
    effects: Seq<(u32, Effect)>,
    l: Ladder,
    k: int,
    c: int,
    fwd: bool,
    u: u32,
    v: u32,
    w: int,
    i: int,
    j: int,
)
    requires
        ds.graph_ok(),
        ladder_ok(l),
        ds.nv() == l[0].of.len(),
        0 < k <= l.len(),
        charged(ds, effects, l, k - 1),
        u < ds.nv(),
        cell_at(l, k, u as int) == c,
        is_hop(ds, effects, l, k, fwd, u, v, w, i, j),
    ensures
        leads(inside_net(ds, effects, l, k, c, fwd), u as int, v as int, w),
{
    let cb = cell_at(l, k - 1, u as int);
    lemma_cell_bound(l, k - 1, u as int);
    let a = inside_net(ds, effects, l, k - 1, cb, fwd);
    let b = inside_net(ds, effects, l, k, c, fwd);
    assert(is_dist(a, from(u as int), v as int, value(ds, effects, l, k - 1, cb, i, j, fwd)));
    assert(leads(a, u as int, v as int, w));
    assert forall|x: int, s: int, y: int, w: int| #[trigger] arc_at(a, x, s, y, w) implies has_arc(
        b,
        x,
        y,
        w,
    ) by {
        lemma_inside_arc(ds, effects, l, k - 1, cb, fwd, x, s, y, w);
        lemma_nests(l, k - 1, k, x, u as int);
        lemma_nests(l, k - 1, k, y, u as int);
        lemma_edge_inside(ds, effects, l, k, c, fwd, x as u32, edge_head(ds, fwd)[x] + s);
    }
    lemma_embed(a, b, u as int, v as int, w);
}

/// What a search of a region's network finds between two of its members is
/// what it costs inside the region.
pub proof fn lemma_region_dist(
    ds: Dataset,
    effects: Seq<(u32, Effect)>,
    l: Ladder,
    k: int,
    c: int,
    list: Seq<u32>,
    fwd: bool,
    u: u32,
    v: u32,
)
    requires
        ds.graph_ok(),
        ladder_ok(l),
        ds.nv() == l[0].of.len(),
        two_way(ds),
        gated(ds, l),
        0 <= k <= l.len(),
        k > 0 ==> charged(ds, effects, l, k - 1),
        populated(ds, l, k, c, list),
        list.len() <= u32::MAX,
        list.contains(u),
        list.contains(v),
    ensures
        is_dist(
            inside_net(ds, effects, l, k, c, fwd),
            from(u as int),
            v as int,
            dist_to(
                region_net(ds, effects, l, k, list, fwd),
                seq![(index_in(list, u)->0, 0int)],
                index_in(list, v)->0,
            ),
        ),
{
    let q = region_contraction(ds, effects, l, k, c, list, fwd);
    lemma_region_contracts(ds, effects, l, k, c, list, fwd);
    lemma_net_ok(ds, effects, l, k, list, fwd);
    lemma_place(list, u);
    lemma_place(list, v);
    let x = index_in(list, u)->0;
    let y = index_in(list, v)->0;
    let seeds = seq![(x, 0int)];
    assert(seeds =~= from(x));
    assert forall|z: int, e: int| #[trigger] walkable(q.small, seeds, z, e) implies e >= 0 by {
        let n = choose|n: nat| walk(q.small, seeds, z, e, n);
        lemma_walk_from(q.small, x, z, e, n);
    }
    assert(enters(q, from(u as int), seeds)) by {
        let srcs = from(u as int);
        assert forall|j: int, z: int, d: int|
            0 <= j < srcs.len() && (q.kept)(z) && srcs[j].1 + d < UNREACHABLE && (q.same)(
                srcs[j].0,
                z,
            ) && #[trigger] leads((q.inner)(srcs[j].0), srcs[j].0, z, d) implies within(
            q.small,
            seeds,
            (q.place)(z),
            srcs[j].1 + d,
        ) by {
            assert(srcs[j] == (u as int, 0int));
            lemma_leads_self(q.small, x);
            assert(walkable(q.small, seeds, x, 0));
            if z != u {
                assert(arc_up_to(q.small, (q.place)(u as int), (q.place)(z), d));
                let (s, w) = choose|s: int, w: int|
                    #[trigger] arc_at(q.small, (q.place)(u as int), s, (q.place)(z), w) && w <= d;
                lemma_leads_arc(q.small, x, x, 0, (q.place)(z), s, w);
                assert(walkable(q.small, seeds, (q.place)(z), w));
            }
        }
        lemma_leads_self(q.base, u as int);
    }
    assert forall|d: int, n: nat| #[trigger] walk(q.small, seeds, y, d, n) implies d >= 0 by {
        assert(walkable(q.small, seeds, y, d));
    }
    lemma_dist_exists(q.small, seeds, y);
    let r = dist_to(q.small, seeds, y);
    assert(is_dist(q.small, seeds, y, r));
    if r < UNREACHABLE {
        let n = choose|n: nat| walk(q.small, seeds, y, r as int, n);
        lemma_unfold(q, from(u as int), seeds, y, r as int, n);
        assert(leads(q.base, u as int, v as int, r as int));
    }
    assert forall|d: int, n: nat| #[trigger] walk(q.base, from(u as int), v as int, d, n) implies r
        <= d by {
        if d < UNREACHABLE {
            lemma_split(q, from(u as int), seeds, v as int, d, n);
            let e = choose|e: int| #[trigger] walkable(q.small, seeds, (q.place)(v as int), e) && e <= d;
            let m = choose|m: nat| walk(q.small, seeds, y, e, m);
            assert(walk(q.small, seeds, y, e, m));
        }
    }
}

/// Every level of a fitted ladder charges what a crossing costs inside its
/// region.
pub proof fn lemma_charged(ds: Dataset, effects: Seq<(u32, Effect)>, l: Ladder, k: int)
    requires
        fitted(ds, effects, l),
        0 <= k < l.len(),
    ensures
        charged(ds, effects, l, k),
    decreases k,
{
    if !l[k].eager {
        if k > 0 {
            lemma_charged(ds, effects, l, k - 1);
        }
        lemma_rung(l, k);
        assert forall|c: int, i: int, j: int, fwd: bool|
            0 <= c < regions(l[k]) && 0 <= i < gates(l[k], c).len() && 0 <= j < gates(
                l[k],
                c,
            ).len() implies is_dist(
            inside_net(ds, effects, l, k, c, fwd),
            from(gates(l[k], c)[i] as int),
            gates(l[k], c)[j] as int,
            #[trigger] value(ds, effects, l, k, c, i, j, fwd),
        ) by {
            let m = members(l[k], c);
            let g = gates(l[k], c);
            lemma_place(m, g[i]);
            lemma_place(m, g[j]);
            assert(index_in(m, g[i]) is Some && index_in(m, g[j]) is Some);
            lemma_region_dist(ds, effects, l, k, c, m, fwd, g[i], g[j]);
            assert(value(ds, effects, l, k, c, i, j, fwd) == crossing(ds, effects, l, k, c, i, j, fwd));
        }
    }
}

// --------------------------------------------------------- the whole overlay

/// How high the regions of a vertex go without holding an endpoint.
pub open spec fn top(l: Ladder, home: Seq<Seq<u32>>, v: int, k: int) -> int
    decreases home.len() - k,
{
    if k + 1 < home.len() && !is_home(home, k + 1, cell_at(l, k + 1, v)) {
        top(l, home, v, k + 1)
    } else {
        k
    }
}

/// A query: its endpoints and the regions that hold them.
pub open spec fn placed(
    ds: Dataset,
    effects: Seq<(u32, Effect)>,
    l: Ladder,
    ends: Seq<(u32, u32)>,
    home: Seq<Seq<u32>>,
) -> bool {
    &&& fitted(ds, effects, l)
    &&& forall|i: int| 0 <= i < ends.len() ==> (#[trigger] ends[i]).0 < ds.nv()
    &&& 1 <= home.len() <= l.len()
    &&& homes(l, ends, home.len() as int, home)
}

proof fn lemma_home_up(
    ds: Dataset,
    effects: Seq<(u32, Effect)>,
    l: Ladder,
    ends: Seq<(u32, u32)>,
    home: Seq<Seq<u32>>,
    j: int,
    k: int,
    v: int,
)
    requires
        placed(ds, effects, l, ends, home),
        0 <= j <= k < home.len(),
        is_home(home, j, cell_at(l, j, v)),
    ensures
        is_home(home, k, cell_at(l, k, v)),
{
    let c = cell_at(l, j, v) as u32;
    assert(home[j].contains(c) == holds_end(l, ends, j, c));
    let i = choose|i: int| 0 <= i < ends.len() && cell_at(l, j, (#[trigger] ends[i]).0 as int) == c;
    lemma_nests(l, j, k, ends[i].0 as int, v);
    let c2 = cell_at(l, k, v) as u32;
    assert(holds_end(l, ends, k, c2));
    assert(home[k].contains(c2) == holds_end(l, ends, k, c2));
}

/// An endpoint's regions hold an endpoint.
proof fn lemma_home_end(
    ds: Dataset,
    effects: Seq<(u32, Effect)>,
    l: Ladder,
    ends: Seq<(u32, u32)>,
    home: Seq<Seq<u32>>,
    k: int,
    i: int,
    v: u32,
)
    requires
        placed(ds, effects, l, ends, home),
        0 <= k < home.len(),
        0 <= i < ends.len(),
        v == ends[i].0,
    ensures
        is_home(home, k, cell_at(l, k, v as int)),
{
    let c = cell_at(l, k, v as int) as u32;
    assert(holds_end(l, ends, k, c));
    assert(home[k].contains(c) == holds_end(l, ends, k, c));
}

proof fn lemma_top(l: Ladder, home: Seq<Seq<u32>>, v: int, k: int)
    requires
        0 <= k < home.len(),
    ensures
        k <= top(l, home, v, k) < home.len(),
        top(l, home, v, k) > k ==> !is_home(
            home,
            top(l, home, v, k),
            cell_at(l, top(l, home, v, k), v),
        ),
        top(l, home, v, k) + 1 < home.len() ==> is_home(
            home,
            top(l, home, v, k) + 1,
            cell_at(l, top(l, home, v, k) + 1, v),
        ),
    decreases home.len() - k,
{
    if k + 1 < home.len() && !is_home(home, k + 1, cell_at(l, k + 1, v)) {
        lemma_top(l, home, v, k + 1);
    }
}

/// A vertex climbs to at least any level whose region holds no endpoint.
proof fn lemma_top_least(
    ds: Dataset,
    effects: Seq<(u32, Effect)>,
    l: Ladder,
    ends: Seq<(u32, u32)>,
    home: Seq<Seq<u32>>,
    v: int,
    k: int,
    h: int,
)
    requires
        placed(ds, effects, l, ends, home),
        0 <= k <= h < home.len(),
        h > 0 ==> !is_home(home, h, cell_at(l, h, v)),
    ensures
        top(l, home, v, k) >= h,
    decreases home.len() - k,
{
    if k < h {
        if is_home(home, k + 1, cell_at(l, k + 1, v)) {
            lemma_home_up(ds, effects, l, ends, home, k + 1, h, v);
        }
        lemma_top_least(ds, effects, l, ends, home, v, k + 1, h);
    } else {
        lemma_top(l, home, v, k);
    }
}

/// Vertices of one top region share it.
proof fn lemma_same_top(
    ds: Dataset,
    effects: Seq<(u32, Effect)>,
    l: Ladder,
    ends: Seq<(u32, u32)>,
    home: Seq<Seq<u32>>,
    u: int,
    v: int,
)
    requires
        placed(ds, effects, l, ends, home),
        cell_at(l, top(l, home, v, 0), u) == cell_at(l, top(l, home, v, 0), v),
    ensures
        top(l, home, u, 0) == top(l, home, v, 0),
{
    let h = top(l, home, v, 0);
    lemma_top(l, home, v, 0);
    lemma_top(l, home, u, 0);
    lemma_top_least(ds, effects, l, ends, home, u, 0, h);
    let g = top(l, home, u, 0);
    if g > h {
        lemma_nests(l, h, h + 1, u, v);
        lemma_home_up(ds, effects, l, ends, home, h + 1, g, u);
    }
}

/// A gate of its top region is handled there.
proof fn lemma_climb_top(ds: Dataset, l: Ladder, home: Seq<Seq<u32>>, u: u32, k: int)
    requires
        gated(ds, l),
        u < ds.nv(),
        0 <= k < home.len() <= l.len(),
        gate_at(l, top(l, home, u as int, k), u),
    ensures
        climb(l, home, u, k) == top(l, home, u as int, k),
    decreases home.len() - k,
{
    lemma_top(l, home, u as int, k);
    if k + 1 < home.len() && !is_home(home, k + 1, cell_at(l, k + 1, u as int)) {
        lemma_top(l, home, u as int, k + 1);
        lemma_gate_below(ds, l, k + 1, top(l, home, u as int, k + 1), u);
        lemma_climb_top(ds, l, home, u, k + 1);
    }
}

/// A vertex that the overlay keeps: a gate of its top region.
pub open spec fn kept(ds: Dataset, l: Ladder, home: Seq<Seq<u32>>, v: int) -> bool {
    0 <= v < ds.nv() && gate_at(l, top(l, home, v, 0), v as u32)
}

spec fn one_top(l: Ladder, home: Seq<Seq<u32>>, u: int, v: int) -> bool {
    &&& top(l, home, u, 0) == top(l, home, v, 0)
    &&& cell_at(l, top(l, home, u, 0), u) == cell_at(l, top(l, home, u, 0), v)
}

spec fn over_contraction(
    ds: Dataset,
    effects: Seq<(u32, Effect)>,
    l: Ladder,
    home: Seq<Seq<u32>>,
    fwd: bool,
) -> Contraction {
    Contraction {
        base: road_net(ds, effects, fwd),
        same: |u: int, v: int| one_top(l, home, u, v),
        inner: |u: int|
            inside_net(
                ds,
                effects,
                l,
                top(l, home, u, 0),
                cell_at(l, top(l, home, u, 0), u),
                fwd,
            ),
        kept: |v: int| kept(ds, l, home, v),
        place: |v: int| v,
        vertex: |v: int| v,
        small: over_net(ds, effects, l, home, fwd),
    }
}

pub(crate) proof fn lemma_road_arc(
    ds: Dataset,
    effects: Seq<(u32, Effect)>,
    fwd: bool,
    u: int,
    s: int,
    v: int,
    w: int,
)
    requires
        ds.graph_ok(),
        arc_at(road_net(ds, effects, fwd), u, s, v, w),
    ensures
        0 <= u < ds.nv(),
        0 <= v < ds.nv(),
        0 <= w <= u32::MAX,
        is_road(ds, effects, fwd, u as u32, v as u32, w, edge_head(ds, fwd)[u] + s),
{
    let t = edge_head(ds, fwd)[u] + s;
    assert(far_end(ds, fwd, u as u32, t) < ds.nv());
}

pub(crate) proof fn lemma_edge_road(
    ds: Dataset,
    effects: Seq<(u32, Effect)>,
    fwd: bool,
    u: u32,
    v: u32,
    w: int,
    t: int,
)
    requires
        is_road(ds, effects, fwd, u, v, w, t),
    ensures
        has_arc(road_net(ds, effects, fwd), u as int, v as int, w),
{
    let s = t - edge_head(ds, fwd)[u as int];
    let net = road_net(ds, effects, fwd);
    assert(edge_head(ds, fwd)[u as int] + s == t);
    assert(arc_at(net, u as int, s, v as int, w));
}

proof fn lemma_inside_road(
    ds: Dataset,
    effects: Seq<(u32, Effect)>,
    l: Ladder,
    k: int,
    c: int,
    fwd: bool,
    u: int,
    v: int,
    d: int,
)
    requires
        ds.graph_ok(),
        leads(inside_net(ds, effects, l, k, c, fwd), u, v, d),
    ensures
        leads(road_net(ds, effects, fwd), u, v, d),
{
    let a = inside_net(ds, effects, l, k, c, fwd);
    let b = road_net(ds, effects, fwd);
    assert forall|x: int, s: int, y: int, w: int| #[trigger] arc_at(a, x, s, y, w) implies has_arc(
        b,
        x,
        y,
        w,
    ) by {
        lemma_inside_arc(ds, effects, l, k, c, fwd, x, s, y, w);
        lemma_edge_road(ds, effects, fwd, x as u32, y as u32, w, edge_head(ds, fwd)[x] + s);
    }
    lemma_embed(a, b, u, v, d);
}

/// Reading an arc of the overlay.
proof fn lemma_over_arc(
    ds: Dataset,
    effects: Seq<(u32, Effect)>,
    l: Ladder,
    home: Seq<Seq<u32>>,
    fwd: bool,
    u: int,
    s: int,
    v: int,
    w: int,
) -> (r: Option<(int, int)>)
    requires
        ds.graph_ok(),
        ladder_ok(l),
        ds.nv() == l[0].of.len(),
        1 <= home.len() <= l.len(),
        arc_at(over_net(ds, effects, l, home, fwd), u, s, v, w),
    ensures
        0 <= u < ds.nv(),
        ({
            let k = climb(l, home, u as u32, 0);
            let c = cell_at(l, k, u);
            let g = gates(l[k], c);
            match r {
                Some((i, j)) => {
                    &&& 0 <= i < g.len()
                    &&& 0 <= j < g.len()
                    &&& i != j
                    &&& g[i] == u
                    &&& g[j] == v
                    &&& w == value(ds, effects, l, k, c, i, j, fwd)
                    &&& w != UNREACHABLE
                },
                None => {
                    let t = edge_head(ds, fwd)[u] + (s - (if index_in(g, u as u32) is Some {
                        g.len() as int
                    } else {
                        0
                    }));
                    &&& 0 <= v < ds.nv()
                    &&& is_road(ds, effects, fwd, u as u32, v as u32, w, t)
                    &&& cell_at(l, k, v) != c
                },
            }
        }),
{
    let k = climb(l, home, u as u32, 0);
    let c = cell_at(l, k, u);
    let g = gates(l[k], c);
    let head = edge_head(ds, fwd);
    let arcs = over_arcs(ds, effects, l, home, fwd, u as u32);
    let b: int = if index_in(g, u as u32) is Some {
        g.len() as int
    } else {
        0
    };
    assert(head[u] <= head[u + 1]);
    if s < b {
        let i = index_in(g, u as u32)->0;
        assert(arcs[s] == shortcut(ds, effects, l, k, c, fwd, i, s));
        Some((i, s))
    } else {
        let t = head[u] + (s - b);
        assert(arcs.len() == b + (head[u + 1] - head[u]));
        assert(arcs[s] == leaving(ds, effects, l, k, c, fwd, u as u32, t));
        assert(far_end(ds, fwd, u as u32, t) < ds.nv());
        None
    }
}

proof fn lemma_over_shortcut(
    ds: Dataset,
    effects: Seq<(u32, Effect)>,
    l: Ladder,
    home: Seq<Seq<u32>>,
    fwd: bool,
    u: u32,
    i: int,
    j: int,
)
    requires
        ladder_ok(l),
        u < ds.nv(),
        ds.nv() == l[0].of.len(),
        1 <= home.len() <= l.len(),
        ({
            let k = climb(l, home, u, 0);
            let c = cell_at(l, k, u as int);
            let g = gates(l[k], c);
            &&& 0 <= i < g.len()
            &&& 0 <= j < g.len()
            &&& i != j
            &&& g[i] == u
            &&& value(ds, effects, l, k, c, i, j, fwd) != UNREACHABLE
        }),
    ensures
        ({
            let k = climb(l, home, u, 0);
            let c = cell_at(l, k, u as int);
            has_arc(
                over_net(ds, effects, l, home, fwd),
                u as int,
                gates(l[k], c)[j] as int,
                value(ds, effects, l, k, c, i, j, fwd) as int,
            )
        }),
{
    let k = climb(l, home, u, 0);
    let c = cell_at(l, k, u as int);
    let g = gates(l[k], c);
    lemma_climb_bound(l, home, u, 0);
    lemma_cell_bound(l, k, u as int);
    lemma_rung(l, k);
    lemma_index_in(g, i);
    let net = over_net(ds, effects, l, home, fwd);
    let arcs = over_arcs(ds, effects, l, home, fwd, u);
    assert((net.arcs)(u as int) == arcs);
    assert(arcs[j] == shortcut(ds, effects, l, k, c, fwd, i, j));
    assert(arc_at(
        net,
        u as int,
        j,
        g[j] as int,
        value(ds, effects, l, k, c, i, j, fwd) as int,
    ));
}

proof fn lemma_over_edge(
    ds: Dataset,
    effects: Seq<(u32, Effect)>,
    l: Ladder,
    home: Seq<Seq<u32>>,
    fwd: bool,
    u: u32,
    v: u32,
    w: int,
    t: int,
)
    requires
        ds.graph_ok(),
        is_road(ds, effects, fwd, u, v, w, t),
        ({
            let k = climb(l, home, u, 0);
            cell_at(l, k, v as int) != cell_at(l, k, u as int)
        }),
    ensures
        has_arc(over_net(ds, effects, l, home, fwd), u as int, v as int, w),
{
    let k = climb(l, home, u, 0);
    let c = cell_at(l, k, u as int);
    let g = gates(l[k], c);
    let net = over_net(ds, effects, l, home, fwd);
    let arcs = over_arcs(ds, effects, l, home, fwd, u);
    let head = edge_head(ds, fwd);
    assert((net.arcs)(u as int) == arcs);
    let b: int = if index_in(g, u) is Some {
        g.len() as int
    } else {
        0
    };
    let s = b + (t - head[u as int]);
    assert(head[u as int] <= head[u + 1]);
    assert(arcs.len() == b + (head[u + 1] - head[u as int]));
    assert(arcs[s] == leaving(ds, effects, l, k, c, fwd, u, head[u as int] + (s - b)));
    assert(arc_at(net, u as int, s, v as int, w));
}

/// An edge between two top regions has both its ends kept.
proof fn lemma_between(
    ds: Dataset,
    effects: Seq<(u32, Effect)>,
    l: Ladder,
    ends: Seq<(u32, u32)>,
    home: Seq<Seq<u32>>,
    fwd: bool,
    u: u32,
    v: u32,
    w: int,
    e: int,
)
    requires
        placed(ds, effects, l, ends, home),
        is_road(ds, effects, fwd, u, v, w, e),
        !one_top(l, home, u as int, v as int),
    ensures
        kept(ds, l, home, u as int),
        kept(ds, l, home, v as int),
        cell_at(l, top(l, home, u as int, 0), v as int) != cell_at(
            l,
            top(l, home, u as int, 0),
            u as int,
        ),
        cell_at(l, top(l, home, v as int, 0), u as int) != cell_at(
            l,
            top(l, home, v as int, 0),
            v as int,
        ),
{
    let (hu, hv) = (top(l, home, u as int, 0), top(l, home, v as int, 0));
    lemma_top(l, home, u as int, 0);
    lemma_top(l, home, v as int, 0);
    if cell_at(l, hu, v as int) == cell_at(l, hu, u as int) {
        lemma_same_top(ds, effects, l, ends, home, v as int, u as int);
    }
    if cell_at(l, hv, u as int) == cell_at(l, hv, v as int) {
        lemma_same_top(ds, effects, l, ends, home, u as int, v as int);
    }
    assert(far_end(ds, fwd, u, e) < ds.nv());
    assert(crosses(ds, l, hu, fwd, u, e));
    lemma_far_gate(ds, l, hu, fwd, u, e);
    assert(crosses(ds, l, hv, fwd, u, e));
    lemma_far_gate(ds, l, hv, fwd, u, e);
}

#[verifier::rlimit(40)]
proof fn lemma_over_contracts(
    ds: Dataset,
    effects: Seq<(u32, Effect)>,
    l: Ladder,
    ends: Seq<(u32, u32)>,
    home: Seq<Seq<u32>>,
    fwd: bool,
)
    requires
        placed(ds, effects, l, ends, home),
    ensures
        contracts(over_contraction(ds, effects, l, home, fwd)),
{
    let q = over_contraction(ds, effects, l, home, fwd);
    lemma_road_ok(ds, effects, fwd);
    assert forall|u: int, e: int, v: int, w: int|
        #[trigger] arc_at(q.base, u, e, v, w) && !(q.same)(u, v) implies (q.kept)(u) && (q.kept)(v)
        && has_arc(q.small, (q.place)(u), (q.place)(v), w) by {
        lemma_road_arc(ds, effects, fwd, u, e, v, w);
        let x = edge_head(ds, fwd)[u] + e;
        lemma_between(ds, effects, l, ends, home, fwd, u as u32, v as u32, w, x);
        lemma_climb_top(ds, l, home, u as u32, 0);
        lemma_over_edge(ds, effects, l, home, fwd, u as u32, v as u32, w, x);
    }
    assert forall|u: int, e: int, v: int, w: int|
        #[trigger] arc_at(q.base, u, e, v, w) && (q.same)(u, v) implies has_arc(
        (q.inner)(u),
        u,
        v,
        w,
    ) by {
        lemma_road_arc(ds, effects, fwd, u, e, v, w);
        let h = top(l, home, u, 0);
        lemma_edge_inside(
            ds,
            effects,
            l,
            h,
            cell_at(l, h, u),
            fwd,
            u as u32,
            edge_head(ds, fwd)[u] + e,
        );
    }
    assert forall|u: int, v: int, d: int|
        (q.kept)(u) && (q.kept)(v) && u != v && d < UNREACHABLE && #[trigger] leads(
            (q.inner)(u),
            u,
            v,
            d,
        ) && (q.same)(u, v) implies arc_up_to(q.small, (q.place)(u), (q.place)(v), d) by {
        lemma_kept_arc(ds, effects, l, ends, home, fwd, u, v, d);
    }
    assert forall|u: int, e: int, v: int, w: int|
        #[trigger] arc_at(q.small, u, e, v, w) implies leads(
        q.base,
        (q.vertex)(u),
        (q.vertex)(v),
        w,
    ) by {
        let r = lemma_over_arc(ds, effects, l, home, fwd, u, e, v, w);
        let k = climb(l, home, u as u32, 0);
        let c = cell_at(l, k, u);
        lemma_climb_bound(l, home, u as u32, 0);
        lemma_cell_bound(l, k, u);
        match r {
            Some((i, j)) => {
                lemma_charged(ds, effects, l, k);
                assert(is_dist(
                    inside_net(ds, effects, l, k, c, fwd),
                    from(gates(l[k], c)[i] as int),
                    gates(l[k], c)[j] as int,
                    value(ds, effects, l, k, c, i, j, fwd),
                ));
                assert(leads(inside_net(ds, effects, l, k, c, fwd), u, v, w));
                lemma_inside_road(ds, effects, l, k, c, fwd, u, v, w);
            },
            None => {
                let x = edge_head(ds, fwd)[u] + (e - (if index_in(gates(l[k], c), u as u32) is Some {
                    gates(l[k], c).len() as int
                } else {
                    0
                }));
                lemma_edge_road(ds, effects, fwd, u as u32, v as u32, w, x);
                let y = choose|y: int| arc_at(q.base, u, y, v, w);
                lemma_leads_self(q.base, u);
                lemma_leads_arc(q.base, u, u, 0, v, y, w);
            },
        }
    }
    assert forall|u: int, v: int, d: int| #[trigger] leads((q.inner)(u), u, v, d) implies d >= 0 by {
        let h = top(l, home, u, 0);
        lemma_inside_end(ds, effects, l, h, cell_at(l, h, u), fwd, u, v, d);
    }
}

/// Between two kept vertices of one top region the overlay has a shortcut.
proof fn lemma_kept_arc(
    ds: Dataset,
    effects: Seq<(u32, Effect)>,
    l: Ladder,
    ends: Seq<(u32, u32)>,
    home: Seq<Seq<u32>>,
    fwd: bool,
    u: int,
    v: int,
    d: int,
)
    requires
        placed(ds, effects, l, ends, home),
        kept(ds, l, home, u),
        kept(ds, l, home, v),
        u != v,
        d < UNREACHABLE,
        one_top(l, home, u, v),
        leads(
            inside_net(
                ds,
                effects,
                l,
                top(l, home, u, 0),
                cell_at(l, top(l, home, u, 0), u),
                fwd,
            ),
            u,
            v,
            d,
        ),
    ensures
        arc_up_to(over_net(ds, effects, l, home, fwd), u, v, d),
{
    let h = top(l, home, u, 0);
    let c = cell_at(l, h, u);
    let g = gates(l[h], c);
    let net = over_net(ds, effects, l, home, fwd);
    lemma_top(l, home, u, 0);
    lemma_cell_bound(l, h, u);
    lemma_rung(l, h);
    lemma_place(g, u as u32);
    lemma_place(g, v as u32);
    let (i, j) = (index_in(g, u as u32)->0, index_in(g, v as u32)->0);
    lemma_charged(ds, effects, l, h);
    let inside = inside_net(ds, effects, l, h, c, fwd);
    let w = value(ds, effects, l, h, c, i, j, fwd);
    assert(is_dist(inside, from(u), v, w));
    let n = choose|n: nat| walk(inside, from(u), v, d, n);
    assert(walk(inside, from(u), v, d, n));
    lemma_climb_top(ds, l, home, u as u32, 0);
    lemma_over_shortcut(ds, effects, l, home, fwd, u as u32, i, j);
    let e = choose|e: int| arc_at(net, u, e, v, w as int);
    assert(arc_at(net, u, e, v, w as int));
}

// -------------------------------------------------------------------- seeds

proof fn lemma_shift(net: Net, e: int, c: int, v: int, d: int, n: nat)
    requires
        walk(net, from(e), v, d, n),
    ensures
        walk(net, seq![(e, c)], v, c + d, n),
    decreases n,
{
    let seeds = seq![(e, c)];
    if n == 0 {
        assert(from(e)[0] == (e, 0int));
        assert(seeds[0] == (v, c + d));
    } else {
        let (u, s, w) = choose|u: int, s: int, w: int|
            #[trigger] arc_at(net, u, s, v, w) && walk(net, from(e), u, d - w, (n - 1) as nat);
        lemma_shift(net, e, c, u, d - w, (n - 1) as nat);
        assert(arc_at(net, u, s, v, w));
        assert(c + d - w == c + (d - w));
    }
}

/// A walk from several sources begins at one of them.
pub(crate) proof fn lemma_which_source(net: Net, srcs: Seq<(int, int)>, v: int, d: int, n: nat) -> (j: int)
    requires
        walk(net, srcs, v, d, n),
    ensures
        0 <= j < srcs.len(),
        leads(net, srcs[j].0, v, d - srcs[j].1),
    decreases n,
{
    if n == 0 {
        let j = choose|j: int| 0 <= j < srcs.len() && #[trigger] srcs[j] == (v, d);
        lemma_leads_self(net, v);
        j
    } else {
        let (u, s, w) = choose|u: int, s: int, w: int|
            #[trigger] arc_at(net, u, s, v, w) && walk(net, srcs, u, d - w, (n - 1) as nat);
        let j = lemma_which_source(net, srcs, u, d - w, (n - 1) as nat);
        let (e, f) = (srcs[j].0, d - w - srcs[j].1);
        lemma_leads_arc(net, e, u, f, v, s, w);
        assert(f + w == d - srcs[j].1);
        j
    }
}

/// What one source leads to, all of them do.
proof fn lemma_from_source(net: Net, srcs: Seq<(int, int)>, j: int, v: int, d: int)
    requires
        0 <= j < srcs.len(),
        leads(net, srcs[j].0, v, d),
    ensures
        walkable(net, srcs, v, srcs[j].1 + d),
{
    assert(srcs[j] == (srcs[j].0, srcs[j].1));
    assert(walk(net, srcs, srcs[j].0, srcs[j].1, 0));
    lemma_concat(net, srcs, srcs[j].0, srcs[j].1, v, d);
}

proof fn lemma_end_top(
    ds: Dataset,
    effects: Seq<(u32, Effect)>,
    l: Ladder,
    ends: Seq<(u32, u32)>,
    home: Seq<Seq<u32>>,
    src: (u32, u32),
)
    requires
        placed(ds, effects, l, ends, home),
        ends.contains(src),
    ensures
        src.0 < ds.nv(),
        top(l, home, src.0 as int, 0) == 0,
        0 <= cell_at(l, 0, src.0 as int) < regions(l[0]),
{
    let i = ends.index_of(src);
    assert(ends[i] == src);
    lemma_top(l, home, src.0 as int, 0);
    if home.len() > 1 {
        lemma_home_end(ds, effects, l, ends, home, 1, i, src.0);
    }
    lemma_cell_bound(l, 0, src.0 as int);
}

/// What a search enters the overlay at is kept.
proof fn lemma_entry_kept(
    ds: Dataset,
    effects: Seq<(u32, Effect)>,
    l: Ladder,
    ends: Seq<(u32, u32)>,
    home: Seq<Seq<u32>>,
    fwd: bool,
    src: (u32, u32),
    g: int,
    d: int,
)
    requires
        placed(ds, effects, l, ends, home),
        ends.contains(src),
        is_entry(ds, effects, l, src, fwd, g, d),
    ensures
        kept(ds, l, home, g),
        top(l, home, g, 0) == 0,
        cell_at(l, 0, g) == cell_at(l, 0, src.0 as int),
{
    lemma_end_top(ds, effects, l, ends, home, src);
    let c = cell_at(l, 0, src.0 as int);
    let list = gates(l[0], c);
    let j = list.index_of(g as u32);
    lemma_listed(l, 0, c, j, g as u32);
    lemma_same_top(ds, effects, l, ends, home, g, src.0 as int);
}

/// What a source leads to inside its region is entered for no more.
proof fn lemma_entry_in(
    ds: Dataset,
    effects: Seq<(u32, Effect)>,
    l: Ladder,
    fwd: bool,
    src: (u32, u32),
    v: int,
    d: int,
) -> (r: u32)
    requires
        fitted(ds, effects, l),
        src.0 < ds.nv(),
        0 <= v < ds.nv(),
        gate_at(l, 0, v as u32),
        cell_at(l, 0, v) == cell_at(l, 0, src.0 as int),
        leads(
            inside_net(ds, effects, l, 0, cell_at(l, 0, src.0 as int), fwd),
            src.0 as int,
            v,
            d,
        ),
    ensures
        is_entry(ds, effects, l, src, fwd, v, r as int),
        r <= src.1 + d,
{
    let (e, c0) = (src.0 as int, src.1 as int);
    let c = cell_at(l, 0, e);
    let inside = inside_net(ds, effects, l, 0, c, fwd);
    let seeds = seq![(e, c0)];
    let n = choose|n: nat| walk(inside, from(e), v, d, n);
    lemma_shift(inside, e, c0, v, d, n);
    assert(reachable(inside, seeds, v));
    lemma_inside_net_ok(ds, effects, l, 0, c, fwd);
    assert forall|d2: int, n2: nat| #[trigger] walk(inside, seeds, v, d2, n2) implies d2 >= 0 by {
        let j = lemma_which_source(inside, seeds, v, d2, n2);
        assert(seeds[j] == (e, c0));
        let d3 = d2 - c0;
        let n3 = choose|n3: nat| walk(inside, from(e), v, d3, n3);
        lemma_walk_from(inside, e, v, d3, n3);
    }
    lemma_dist_exists(inside, seeds, v);
    let r = choose|r: u32| is_dist(inside, seeds, v, r);
    lemma_cell_bound(l, 0, e);
    lemma_rung(l, 0);
    lemma_place(gates(l[0], c), v as u32);
    assert(walk(inside, seeds, v, c0 + d, n));
    r
}

/// What a search enters the overlay at is reached by road at that cost.
proof fn lemma_entry_out(
    ds: Dataset,
    effects: Seq<(u32, Effect)>,
    l: Ladder,
    fwd: bool,
    src: (u32, u32),
    g: int,
    x: int,
)
    requires
        fitted(ds, effects, l),
        src.0 < ds.nv(),
        is_entry(ds, effects, l, src, fwd, g, x),
        x < UNREACHABLE,
    ensures
        leads(road_net(ds, effects, fwd), src.0 as int, g, x - src.1),
{
    let (e, c0) = (src.0 as int, src.1 as int);
    let c = cell_at(l, 0, e);
    let inside = inside_net(ds, effects, l, 0, c, fwd);
    let seeds = seq![(e, c0)];
    let n = choose|n: nat| walk(inside, seeds, g, x, n);
    assert(walk(inside, seeds, g, x, n));
    let j = lemma_which_source(inside, seeds, g, x, n);
    assert(seeds[j] == (e, c0));
    lemma_inside_road(ds, effects, l, 0, c, fwd, e, g, x - c0);
}

/// What one source enters the overlay at is reached by road at that cost.
proof fn lemma_source_seed(
    ds: Dataset,
    effects: Seq<(u32, Effect)>,
    l: Ladder,
    fwd: bool,
    srcs: Seq<(int, int)>,
    j: int,
    src: (u32, u32),
    p: (int, int),
)
    requires
        fitted(ds, effects, l),
        src.0 < ds.nv(),
        0 <= j < srcs.len(),
        srcs[j] == (src.0 as int, src.1 as int),
        is_entry(ds, effects, l, src, fwd, p.0, p.1),
        p.1 < UNREACHABLE,
    ensures
        walkable(road_net(ds, effects, fwd), srcs, p.0, p.1),
{
    let net = road_net(ds, effects, fwd);
    lemma_entry_out(ds, effects, l, fwd, src, p.0, p.1);
    let left = p.1 - src.1;
    assert(leads(net, srcs[j].0, p.0, left));
    lemma_from_source(net, srcs, j, p.0, left);
    assert(srcs[j].1 + left == p.1);
}

/// A seed is kept, and reached by road at its cost.
proof fn lemma_seed(
    ds: Dataset,
    effects: Seq<(u32, Effect)>,
    l: Ladder,
    ends: Seq<(u32, u32)>,
    home: Seq<Seq<u32>>,
    fwd: bool,
    sources: Seq<(u32, u32)>,
    p: (int, int),
)
    requires
        placed(ds, effects, l, ends, home),
        forall|j: int| 0 <= j < sources.len() ==> ends.contains(#[trigger] sources[j]),
        some_entry(ds, effects, l, sources, fwd, p),
    ensures
        0 <= p.0 < ds.nv(),
        p.1 >= 0,
        kept(ds, l, home, p.0),
        p.1 < UNREACHABLE ==> walkable(
            road_net(ds, effects, fwd),
            seeds_of(sources),
            p.0,
            p.1,
        ),
{
    let j = choose|j: int|
        0 <= j < sources.len() && is_entry(ds, effects, l, #[trigger] sources[j], fwd, p.0, p.1);
    let srcs = seeds_of(sources);
    assert(srcs[j] == (sources[j].0 as int, sources[j].1 as int));
    lemma_entry_kept(ds, effects, l, ends, home, fwd, sources[j], p.0, p.1);
    if p.1 < UNREACHABLE {
        lemma_end_top(ds, effects, l, ends, home, sources[j]);
        lemma_source_seed(ds, effects, l, fwd, srcs, j, sources[j], p);
    }
}

/// What source `j` leads to inside its region is among the seeds for no more.
proof fn lemma_seeded(
    ds: Dataset,
    effects: Seq<(u32, Effect)>,
    l: Ladder,
    ends: Seq<(u32, u32)>,
    home: Seq<Seq<u32>>,
    fwd: bool,
    sources: Seq<(u32, u32)>,
    seeds: Seq<(int, int)>,
    j: int,
    v: int,
    d: int,
)
    requires
        placed(ds, effects, l, ends, home),
        0 <= j < sources.len(),
        ends.contains(sources[j]),
        entered(ds, effects, l, sources, fwd, seeds),
        kept(ds, l, home, v),
        one_top(l, home, sources[j].0 as int, v),
        leads(
            inside_net(ds, effects, l, 0, cell_at(l, 0, sources[j].0 as int), fwd),
            sources[j].0 as int,
            v,
            d,
        ),
    ensures
        within(over_net(ds, effects, l, home, fwd), seeds, v, sources[j].1 + d),
{
    let src = sources[j];
    let net = over_net(ds, effects, l, home, fwd);
    lemma_end_top(ds, effects, l, ends, home, src);
    let r = lemma_entry_in(ds, effects, l, fwd, src, v, d);
    assert(some_entry(ds, effects, l, sources, fwd, (v, r as int)));
    assert(seeds.contains((v, r as int)));
    let i = seeds.index_of((v, r as int));
    assert(seeds[i] == (v, r as int));
    assert(walk(net, seeds, v, r as int, 0));
    assert(walkable(net, seeds, v, r as int));
}

/// What the seeds of a search from some of the endpoints are.
proof fn lemma_seeds(
    ds: Dataset,
    effects: Seq<(u32, Effect)>,
    l: Ladder,
    ends: Seq<(u32, u32)>,
    home: Seq<Seq<u32>>,
    fwd: bool,
    sources: Seq<(u32, u32)>,
    seeds: Seq<(int, int)>,
)
    requires
        placed(ds, effects, l, ends, home),
        forall|j: int| 0 <= j < sources.len() ==> ends.contains(#[trigger] sources[j]),
        entered(ds, effects, l, sources, fwd, seeds),
    ensures
        seeds_in(over_net(ds, effects, l, home, fwd), seeds),
        forall|i: int| 0 <= i < seeds.len() ==> kept(ds, l, home, (#[trigger] seeds[i]).0),
        enters(over_contraction(ds, effects, l, home, fwd), seeds_of(sources), seeds),
        forall|x: int, d: int|
            #[trigger] walkable(over_net(ds, effects, l, home, fwd), seeds, x, d) ==> d >= 0,
{
    let q = over_contraction(ds, effects, l, home, fwd);
    let net = over_net(ds, effects, l, home, fwd);
    let srcs = seeds_of(sources);
    assert forall|i: int| 0 <= i < seeds.len() implies {
        &&& 0 <= (#[trigger] seeds[i]).0 < ds.nv()
        &&& seeds[i].1 >= 0
        &&& kept(ds, l, home, seeds[i].0)
        &&& seeds[i].1 < UNREACHABLE ==> walkable(
            road_net(ds, effects, fwd),
            srcs,
            seeds[i].0,
            seeds[i].1,
        )
    } by {
        assert(seeds.contains(seeds[i]));
        lemma_seed(ds, effects, l, ends, home, fwd, sources, seeds[i]);
    }
    lemma_over_ok(ds, effects, l, home, fwd);
    assert forall|x: int, d: int| #[trigger] walkable(net, seeds, x, d) implies d >= 0 by {
        let n = choose|n: nat| walk(net, seeds, x, d, n);
        lemma_walk_cost(net, seeds, x, d, n);
    }
    assert(enters(q, srcs, seeds)) by {
        assert forall|j: int, v: int, d: int|
            0 <= j < srcs.len() && (q.kept)(v) && srcs[j].1 + d < UNREACHABLE && (q.same)(
                srcs[j].0,
                v,
            ) && #[trigger] leads((q.inner)(srcs[j].0), srcs[j].0, v, d) implies within(
            q.small,
            seeds,
            (q.place)(v),
            srcs[j].1 + d,
        ) by {
            assert(srcs[j] == (sources[j].0 as int, sources[j].1 as int));
            lemma_end_top(ds, effects, l, ends, home, sources[j]);
            lemma_seeded(ds, effects, l, ends, home, fwd, sources, seeds, j, v, d);
        }
    }
}

/// Crossing a region one way costs what it costs to come back the other way.
proof fn lemma_table_mirror(
    ds: Dataset,
    effects: Seq<(u32, Effect)>,
    l: Ladder,
    k: int,
    c: int,
    i: int,
    j: int,
    fwd: bool,
)
    requires
        fitted(ds, effects, l),
        0 <= k < l.len(),
        0 <= c < regions(l[k]),
        0 <= i < gates(l[k], c).len(),
        0 <= j < gates(l[k], c).len(),
    ensures
        value(ds, effects, l, k, c, i, j, fwd) == value(ds, effects, l, k, c, j, i, !fwd),
{
    lemma_charged(ds, effects, l, k);
    let g = gates(l[k], c);
    let (u, v) = (g[i] as int, g[j] as int);
    let a = inside_net(ds, effects, l, k, c, fwd);
    let b = inside_net(ds, effects, l, k, c, !fwd);
    let x = value(ds, effects, l, k, c, i, j, fwd);
    let y = value(ds, effects, l, k, c, j, i, !fwd);
    assert(is_dist(a, from(u), v, x));
    assert(is_dist(b, from(v), u, y));
    lemma_inside_reversed(ds, effects, l, k, c, fwd);
    lemma_inside_reversed(ds, effects, l, k, c, !fwd);
    assert(!!fwd == fwd);
    if x < UNREACHABLE {
        assert(leads(a, u, v, x as int));
        lemma_reverse(a, b, u, v, x as int);
        let n = choose|n: nat| walk(b, from(v), u, x as int, n);
        assert(walk(b, from(v), u, x as int, n));
    }
    if y < UNREACHABLE {
        assert(leads(b, v, u, y as int));
        lemma_reverse(b, a, v, u, y as int);
        let n = choose|n: nat| walk(a, from(u), v, y as int, n);
        assert(walk(a, from(u), v, y as int, n));
    }
}

/// What it costs inside a region one way is what it costs back the other way.
pub proof fn lemma_inside_mirror(
    ds: Dataset,
    effects: Seq<(u32, Effect)>,
    l: Ladder,
    k: int,
    c: int,
    fwd: bool,
    u: int,
    v: int,
    x: u32,
)
    requires
        ds.graph_ok(),
        two_way(ds),
        is_dist(inside_net(ds, effects, l, k, c, fwd), from(u), v, x),
    ensures
        is_dist(inside_net(ds, effects, l, k, c, !fwd), from(v), u, x),
{
    let a = inside_net(ds, effects, l, k, c, fwd);
    let b = inside_net(ds, effects, l, k, c, !fwd);
    lemma_inside_reversed(ds, effects, l, k, c, fwd);
    lemma_inside_reversed(ds, effects, l, k, c, !fwd);
    assert(!!fwd == fwd);
    if x < UNREACHABLE {
        assert(leads(a, u, v, x as int));
        lemma_reverse(a, b, u, v, x as int);
    }
    assert forall|d: int, n: nat| #[trigger] walk(b, from(v), u, d, n) implies x <= d by {
        assert(leads(b, v, u, d));
        lemma_reverse(b, a, v, u, d);
        let (seeds, m) = (from(u), choose|m: nat| walk(a, from(u), v, d, m));
        assert(walk(a, seeds, v, d, m));
    }
}

proof fn lemma_inside_reversed(
    ds: Dataset,
    effects: Seq<(u32, Effect)>,
    l: Ladder,
    k: int,
    c: int,
    fwd: bool,
)
    requires
        ds.graph_ok(),
        two_way(ds),
    ensures
        forall|x: int, s: int, y: int, w: int|
            #[trigger] arc_at(inside_net(ds, effects, l, k, c, fwd), x, s, y, w) ==> has_arc(
                inside_net(ds, effects, l, k, c, !fwd),
                y,
                x,
                w,
            ),
{
    let a = inside_net(ds, effects, l, k, c, fwd);
    assert forall|x: int, s: int, y: int, w: int| #[trigger] arc_at(a, x, s, y, w) implies has_arc(
        inside_net(ds, effects, l, k, c, !fwd),
        y,
        x,
        w,
    ) by {
        lemma_inside_arc(ds, effects, l, k, c, fwd, x, s, y, w);
        let t = edge_head(ds, fwd)[x] + s;
        assert(is_edge(ds, fwd, x as u32, t));
        let xv = x as u32;
        let t2 = choose|t2: int| other_way(ds, fwd, xv, t, t2);
        assert(other_way(ds, fwd, xv, t, t2));
        lemma_edge_inside(ds, effects, l, k, c, !fwd, y as u32, t2);
    }
}

pub(crate) proof fn lemma_road_reversed(ds: Dataset, effects: Seq<(u32, Effect)>, fwd: bool)
    requires
        ds.graph_ok(),
        two_way(ds),
    ensures
        forall|x: int, s: int, y: int, w: int|
            #[trigger] arc_at(road_net(ds, effects, fwd), x, s, y, w) ==> has_arc(
                road_net(ds, effects, !fwd),
                y,
                x,
                w,
            ),
{
    let a = road_net(ds, effects, fwd);
    assert forall|x: int, s: int, y: int, w: int| #[trigger] arc_at(a, x, s, y, w) implies has_arc(
        road_net(ds, effects, !fwd),
        y,
        x,
        w,
    ) by {
        lemma_road_arc(ds, effects, fwd, x, s, y, w);
        let t = edge_head(ds, fwd)[x] + s;
        assert(is_edge(ds, fwd, x as u32, t));
        let xv = x as u32;
        let t2 = choose|t2: int| other_way(ds, fwd, xv, t, t2);
        assert(other_way(ds, fwd, xv, t, t2));
        lemma_edge_road(ds, effects, !fwd, y as u32, x as u32, w, t2);
    }
}

/// What a cell lists on its boundary lies in it, on its boundary.
proof fn lemma_listed(l: Ladder, k: int, c: int, j: int, v: u32)
    requires
        ladder_ok(l),
        0 <= k < l.len(),
        0 <= c < regions(l[k]),
        0 <= j < gates(l[k], c).len(),
        gates(l[k], c)[j] == v,
    ensures
        v < l[0].of.len(),
        cell_at(l, k, v as int) == c,
        gate_at(l, k, v),
{
    let g = gates(l[k], c);
    lemma_rung(l, k);
    crate::overlay::shape::lemma_gate_cell(l, k, c, j);
    assert(l[k].bnd[l[k].bhead[c] + j] == g[j]);
    lemma_place(g, v);
    assert(g.contains(v));
}

/// What a shortcut from a kept vertex leads to is kept, in the same cell.
proof fn lemma_shortcut_end(
    ds: Dataset,
    effects: Seq<(u32, Effect)>,
    l: Ladder,
    ends: Seq<(u32, u32)>,
    home: Seq<Seq<u32>>,
    u: u32,
    v: u32,
    j: int,
)
    requires
        placed(ds, effects, l, ends, home),
        kept(ds, l, home, u as int),
        u < ds.nv(),
        0 <= j < gates(
            l[climb(l, home, u, 0)],
            cell_at(l, climb(l, home, u, 0), u as int),
        ).len(),
        gates(l[climb(l, home, u, 0)], cell_at(l, climb(l, home, u, 0), u as int))[j] == v,
    ensures
        kept(ds, l, home, v as int),
        v < ds.nv(),
        climb(l, home, v, 0) == climb(l, home, u, 0),
        cell_at(l, climb(l, home, u, 0), v as int) == cell_at(
            l,
            climb(l, home, u, 0),
            u as int,
        ),
        0 <= climb(l, home, u, 0) < l.len(),
        0 <= cell_at(l, climb(l, home, u, 0), u as int) < regions(l[climb(l, home, u, 0)]),
{
    lemma_climb_top(ds, l, home, u, 0);
    let k = climb(l, home, u, 0);
    let c = cell_at(l, k, u as int);
    lemma_climb_bound(l, home, u, 0);
    lemma_cell_bound(l, k, u as int);
    lemma_listed(l, k, c, j, v);
    lemma_same_top(ds, effects, l, ends, home, v as int, u as int);
    assert(kept(ds, l, home, v as int));
    lemma_climb_top(ds, l, home, v, 0);
}

/// The way back over a shortcut between two vertices of one cell.
proof fn lemma_mirrored(
    ds: Dataset,
    effects: Seq<(u32, Effect)>,
    l: Ladder,
    home: Seq<Seq<u32>>,
    fwd: bool,
    v: u32,
    k: int,
    c: int,
    i: int,
    j: int,
)
    requires
        fitted(ds, effects, l),
        1 <= home.len() <= l.len(),
        v < ds.nv(),
        k == climb(l, home, v, 0),
        c == cell_at(l, k, v as int),
        0 <= k < l.len(),
        0 <= c < regions(l[k]),
        0 <= i < gates(l[k], c).len(),
        0 <= j < gates(l[k], c).len(),
        i != j,
        gates(l[k], c)[j] == v,
        value(ds, effects, l, k, c, i, j, fwd) != UNREACHABLE,
    ensures
        has_arc(
            over_net(ds, effects, l, home, !fwd),
            v as int,
            gates(l[k], c)[i] as int,
            value(ds, effects, l, k, c, i, j, fwd) as int,
        ),
{
    lemma_table_mirror(ds, effects, l, k, c, i, j, fwd);
    lemma_over_shortcut(ds, effects, l, home, !fwd, v, j, i);
}

/// The way back over a road that leaves a cell.
proof fn lemma_edge_back(
    ds: Dataset,
    effects: Seq<(u32, Effect)>,
    l: Ladder,
    ends: Seq<(u32, u32)>,
    home: Seq<Seq<u32>>,
    fwd: bool,
    u: u32,
    v: u32,
    w: int,
    y: int,
)
    requires
        placed(ds, effects, l, ends, home),
        is_road(ds, effects, fwd, u, v, w, y),
        !one_top(l, home, u as int, v as int),
    ensures
        kept(ds, l, home, v as int),
        has_arc(over_net(ds, effects, l, home, !fwd), v as int, u as int, w),
{
    lemma_between(ds, effects, l, ends, home, fwd, u, v, w, y);
    assert(is_edge(ds, fwd, u, y));
    let y2 = choose|y2: int| other_way(ds, fwd, u, y, y2);
    assert(other_way(ds, fwd, u, y, y2));
    lemma_climb_top(ds, l, home, v, 0);
    lemma_over_edge(ds, effects, l, home, !fwd, v, u, w, y2);
}

/// The way back over one arc of the overlay from a kept vertex.
proof fn lemma_over_back(
    ds: Dataset,
    effects: Seq<(u32, Effect)>,
    l: Ladder,
    ends: Seq<(u32, u32)>,
    home: Seq<Seq<u32>>,
    fwd: bool,
    u: int,
    e: int,
    v: int,
    w: int,
)
    requires
        placed(ds, effects, l, ends, home),
        arc_at(over_net(ds, effects, l, home, fwd), u, e, v, w),
        kept(ds, l, home, u),
    ensures
        kept(ds, l, home, v),
        has_arc(over_net(ds, effects, l, home, !fwd), v, u, w),
{
    let r = lemma_over_arc(ds, effects, l, home, fwd, u, e, v, w);
    match r {
        Some((i, j)) => {
            lemma_shortcut_end(ds, effects, l, ends, home, u as u32, v as u32, j);
            let k = climb(l, home, u as u32, 0);
            let c = cell_at(l, k, u);
            lemma_mirrored(ds, effects, l, home, fwd, v as u32, k, c, i, j);
        },
        None => {
            lemma_climb_top(ds, l, home, u as u32, 0);
            let g = gates(l[climb(l, home, u as u32, 0)], cell_at(
                l,
                climb(l, home, u as u32, 0),
                u,
            ));
            let y = edge_head(ds, fwd)[u] + (e - (if index_in(g, u as u32) is Some {
                g.len() as int
            } else {
                0
            }));
            lemma_edge_back(ds, effects, l, ends, home, fwd, u as u32, v as u32, w, y);
        },
    }
}

/// On the kept vertices each direction of the overlay is the other reversed.
proof fn lemma_over_reversed(
    ds: Dataset,
    effects: Seq<(u32, Effect)>,
    l: Ladder,
    ends: Seq<(u32, u32)>,
    home: Seq<Seq<u32>>,
    fwd: bool,
)
    requires
        placed(ds, effects, l, ends, home),
    ensures
        reversed(
            over_net(ds, effects, l, home, fwd),
            over_net(ds, effects, l, home, !fwd),
            Set::new(|v: int| kept(ds, l, home, v)),
        ),
{
    let a = over_net(ds, effects, l, home, fwd);
    let b = over_net(ds, effects, l, home, !fwd);
    let x = Set::new(|v: int| kept(ds, l, home, v));
    assert forall|u: int, e: int, v: int, w: int|
        #[trigger] arc_at(a, u, e, v, w) && x.contains(u) implies x.contains(v) && has_arc(
        b,
        v,
        u,
        w,
    ) by {
        lemma_over_back(ds, effects, l, ends, home, fwd, u, e, v, w);
    }
}

// ------------------------------------------------------------------ the law

pub(crate) proof fn lemma_backs_walk(net: Net, seeds: Seq<(int, int)>, p: Seq<u32>, d: int)
    requires
        backs(net, seeds, p, d),
    ensures
        p.len() >= 1,
        within(net, seeds, p[0] as int, d),
    decreases p.len(),
{
    if p.len() == 1 {
        let x = choose|x: int| #[trigger] seeds.contains((p[0] as int, x)) && x <= d;
        let i = seeds.index_of((p[0] as int, x));
        assert(seeds[i] == (p[0] as int, x));
        assert(walk(net, seeds, p[0] as int, x, 0));
        assert(walkable(net, seeds, p[0] as int, x));
    } else {
        let (s, w) = choose|s: int, w: int|
            #[trigger] arc_at(net, p[1] as int, s, p[0] as int, w) && backs(
                net,
                seeds,
                p.drop_first(),
                d - w,
            );
        lemma_backs_walk(net, seeds, p.drop_first(), d - w);
        let e = choose|e: int| #[trigger] walkable(net, seeds, p[1] as int, e) && e <= d - w;
        crate::overlay::contraction::lemma_walk_arc(
            net,
            seeds,
            p[1] as int,
            e,
            p[0] as int,
            s,
            w,
        );
        assert(walkable(net, seeds, p[0] as int, e + w) && e + w <= d);
    }
}

/// `floor(v, side)` never overstates what it costs to get from `v` to the
/// targets of that side by road.
pub open spec fn modest<F: Fn(u32, usize) -> u32>(
    floor: &F,
    side: usize,
    net: Net,
    targets: Seq<(int, int)>,
) -> bool {
    forall|v: u32, r: u32, d: int, n: nat|
        #[trigger] call_ensures(floor, (v, side), r) && #[trigger] walk(
            net,
            targets,
            v as int,
            d,
            n,
        ) ==> r <= d
}

/// A trip from the sources to one of the exits comes to `c`.
pub open spec fn trip(net: Net, srcs: Seq<(int, int)>, exits: Seq<(u32, u32)>, c: int) -> bool {
    exists|j: int, d: int|
        0 <= j < exits.len() && #[trigger] walkable(net, srcs, exits[j].0 as int, d) && c == d
            + exits[j].1
}

/// `x` is what the cheapest trip comes to.
pub open spec fn best_trip(
    net: Net,
    srcs: Seq<(int, int)>,
    exits: Seq<(u32, u32)>,
    x: u32,
) -> bool {
    &&& x < UNREACHABLE ==> trip(net, srcs, exits, x as int)
    &&& forall|c: int| #[trigger] trip(net, srcs, exits, c) ==> x <= c
}

proof fn lemma_modest_fair<F: Fn(u32, usize) -> u32>(
    ds: Dataset,
    effects: Seq<(u32, Effect)>,
    l: Ladder,
    ends: Seq<(u32, u32)>,
    home: Seq<Seq<u32>>,
    fwd: bool,
    sources: Seq<(u32, u32)>,
    seeds: Seq<(int, int)>,
    floor: &F,
    side: usize,
)
    requires
        placed(ds, effects, l, ends, home),
        forall|j: int| 0 <= j < sources.len() ==> ends.contains(#[trigger] sources[j]),
        entered(ds, effects, l, sources, fwd, seeds),
        modest(floor, side, road_net(ds, effects, fwd), seeds_of(sources)),
    ensures
        fair(floor, side, over_net(ds, effects, l, home, fwd), seeds),
{
    let q = over_contraction(ds, effects, l, home, fwd);
    let srcs = seeds_of(sources);
    lemma_over_contracts(ds, effects, l, ends, home, fwd);
    lemma_over_ok(ds, effects, l, home, fwd);
    lemma_seeds(ds, effects, l, ends, home, fwd, sources, seeds);
    let net = over_net(ds, effects, l, home, fwd);
    assert(q.small == net);
    assert forall|v: u32, r: u32, d: int, n: nat|
        #[trigger] call_ensures(floor, (v, side), r) && #[trigger] walk(
            net,
            seeds,
            v as int,
            d,
            n,
        ) implies r <= d by {
        if d < UNREACHABLE {
            lemma_unfold(q, srcs, seeds, v as int, d, n);
            let m = choose|m: nat| walk(q.base, srcs, v as int, d, m);
            assert(walk(q.base, srcs, v as int, d, m));
        }
    }
}

/// No trip by road is cheaper than the best meeting and the best way inside a
/// region.
proof fn lemma_overlay_finds(
    ds: Dataset,
    effects: Seq<(u32, Effect)>,
    l: Ladder,
    entries: Seq<(u32, u32)>,
    exits: Seq<(u32, u32)>,
    home: Seq<Seq<u32>>,
    sa: Seq<(int, int)>,
    sb: Seq<(int, int)>,
    best: int,
    near: u32,
    j: int,
    d: int,
    n: nat,
)
    requires
        placed(ds, effects, l, entries + exits, home),
        least_inside(ds, effects, l, entries, exits, entries.len() as int, 0, near),
        entered(ds, effects, l, entries, true, sa),
        entered(ds, effects, l, exits, false, sb),
        no_better(
            over_net(ds, effects, l, home, true),
            sa,
            over_net(ds, effects, l, home, false),
            sb,
            best,
        ),
        0 <= j < exits.len(),
        walk(road_net(ds, effects, true), seeds_of(entries), exits[j].0 as int, d, n),
        d + exits[j].1 < UNREACHABLE,
    ensures
        best <= d + exits[j].1 || near <= d + exits[j].1,
{
    let ends = entries + exits;
    let t = exits[j].0 as int;
    let a = over_net(ds, effects, l, home, true);
    let b = over_net(ds, effects, l, home, false);
    let q = over_contraction(ds, effects, l, home, true);
    let qb = over_contraction(ds, effects, l, home, false);
    let (ea, eb) = (seeds_of(entries), seeds_of(exits));
    lemma_parts(entries, exits);
    lemma_over_contracts(ds, effects, l, ends, home, true);
    lemma_seeds(ds, effects, l, ends, home, true, entries, sa);
    lemma_seeds(ds, effects, l, ends, home, false, exits, sb);
    lemma_split(q, ea, sa, t, d, n);
    lemma_end_top(ds, effects, l, ends, home, exits[j]);
    if exists|i: int| stays(q, ea, i, t, d) {
        let i = choose|i: int| stays(q, ea, i, t, d);
        let e = entries[i];
        assert(ea[i] == (e.0 as int, e.1 as int));
        lemma_end_top(ds, effects, l, ends, home, e);
        let net = around(ds, effects, l, e);
        assert(leads(net, e.0 as int, t, d - e.1));
        assert(lone(e)[0] == (e.0 as int, e.1 as int));
        lemma_from_source(net, lone(e), 0, t, d - e.1);
        assert(e.1 + (d - e.1) == d);
        let sum: int = d + exits[j].1;
        assert(sum - exits[j].1 == d);
        assert(way_inside(ds, effects, l, entries[i], exits[j], sum));
    } else {
        lemma_gate_finds(ds, effects, l, entries, exits, home, sa, sb, best, j, d);
    }
}

proof fn lemma_gate_finds(
    ds: Dataset,
    effects: Seq<(u32, Effect)>,
    l: Ladder,
    entries: Seq<(u32, u32)>,
    exits: Seq<(u32, u32)>,
    home: Seq<Seq<u32>>,
    sa: Seq<(int, int)>,
    sb: Seq<(int, int)>,
    best: int,
    j: int,
    d: int,
)
    requires
        placed(ds, effects, l, entries + exits, home),
        entered(ds, effects, l, exits, false, sb),
        no_better(
            over_net(ds, effects, l, home, true),
            sa,
            over_net(ds, effects, l, home, false),
            sb,
            best,
        ),
        seeds_in(over_net(ds, effects, l, home, true), sa),
        0 <= j < exits.len(),
        d + exits[j].1 < UNREACHABLE,
        split(
            over_contraction(ds, effects, l, home, true),
            seeds_of(entries),
            sa,
            exits[j].0 as int,
            d,
        ),
        forall|i: int|
            !#[trigger] stays(
                over_contraction(ds, effects, l, home, true),
                seeds_of(entries),
                i,
                exits[j].0 as int,
                d,
            ),
    ensures
        best <= d + exits[j].1,
{
    let ends = entries + exits;
    let t = exits[j].0 as int;
    let a = over_net(ds, effects, l, home, true);
    let b = over_net(ds, effects, l, home, false);
    let q = over_contraction(ds, effects, l, home, true);
    let qb = over_contraction(ds, effects, l, home, false);
    let eb = seeds_of(exits);
    lemma_parts(entries, exits);
    lemma_over_ok(ds, effects, l, home, true);
    lemma_seeds(ds, effects, l, ends, home, false, exits, sb);
    lemma_end_top(ds, effects, l, ends, home, exits[j]);
    let (g, d1, d2) = choose|g: int, d1: int, d2: int|
        {
            &&& (q.kept)(g)
            &&& (q.same)(g, t)
            &&& #[trigger] within(q.small, sa, (q.place)(g), d1)
            &&& #[trigger] leads((q.inner)(g), g, t, d2)
            &&& d1 + d2 <= d
        };
    let c = cell_at(l, 0, t);
    let inside = inside_net(ds, effects, l, 0, c, true);
    let behind = inside_net(ds, effects, l, 0, c, false);
    assert(leads(inside, g, t, d2));
    lemma_inside_reversed(ds, effects, l, 0, c, true);
    assert(!true == false);
    lemma_reverse(inside, behind, g, t, d2);
    let e1 = choose|e: int| #[trigger] walkable(a, sa, g, e) && e <= d1;
    let n0 = choose|n: nat| walk(a, sa, g, e1, n);
    lemma_walk_cost(a, sa, g, e1, n0);
    assert(eb[j] == (t, exits[j].1 as int));
    assert(leads((qb.inner)(eb[j].0), eb[j].0, g, d2));
    assert((qb.same)(t, g));
    assert(within(b, sb, (qb.place)(g), eb[j].1 + d2));
    let e2 = choose|e: int| #[trigger] walkable(b, sb, g, e) && e <= eb[j].1 + d2;
    let n1 = choose|n: nat| walk(a, sa, g, e1, n);
    let n2 = choose|n: nat| walk(b, sb, g, e2, n);
    assert(walk(a, sa, g, e1, n1) && walk(b, sb, g, e2, n2));
}

proof fn lemma_parts(entries: Seq<(u32, u32)>, exits: Seq<(u32, u32)>)
    ensures
        forall|j: int| 0 <= j < entries.len() ==> (entries + exits).contains(#[trigger] entries[j]),
        forall|j: int| 0 <= j < exits.len() ==> (entries + exits).contains(#[trigger] exits[j]),
{
    let ends = entries + exits;
    assert forall|j: int| 0 <= j < entries.len() implies ends.contains(#[trigger] entries[j]) by {
        assert(ends[j] == entries[j]);
    }
    assert forall|j: int| 0 <= j < exits.len() implies ends.contains(#[trigger] exits[j]) by {
        assert(ends[entries.len() + j] == exits[j]);
    }
}

/// A way inside a region is a trip by road.
proof fn lemma_inside_real(
    ds: Dataset,
    effects: Seq<(u32, Effect)>,
    l: Ladder,
    entries: Seq<(u32, u32)>,
    exits: Seq<(u32, u32)>,
    path: Seq<u32>,
    cost: int,
) -> (sum: int)
    requires
        ds.graph_ok(),
        some_inside(ds, effects, l, entries, exits, path, cost),
    ensures
        sum <= cost,
        trip(road_net(ds, effects, true), seeds_of(entries), exits, sum),
{
    let roads = road_net(ds, effects, true);
    let ea = seeds_of(entries);
    let (i, j) = choose|i: int, j: int|
        0 <= i < entries.len() && 0 <= j < exits.len() && kept_inside(
            ds,
            effects,
            l,
            #[trigger] entries[i],
            #[trigger] exits[j],
            path,
            cost,
        );
    let (e, x) = (entries[i], exits[j]);
    let net = around(ds, effects, l, e);
    let back = path.reverse();
    lemma_backs_walk(net, lone(e), back, cost - x.1);
    assert(back[0] == path.last());
    let d = choose|d: int| #[trigger] walkable(net, lone(e), x.0 as int, d) && d <= cost - x.1;
    let n = choose|n: nat| walk(net, lone(e), x.0 as int, d, n);
    let k = lemma_which_source(net, lone(e), x.0 as int, d, n);
    assert(lone(e)[k] == (e.0 as int, e.1 as int));
    lemma_inside_road(
        ds,
        effects,
        l,
        0,
        cell_at(l, 0, e.0 as int),
        true,
        e.0 as int,
        x.0 as int,
        d - e.1,
    );
    assert(ea[i] == (e.0 as int, e.1 as int));
    lemma_from_source(roads, ea, i, x.0 as int, d - e.1);
    assert(ea[i].1 + (d - e.1) == d);
    assert(walkable(roads, ea, exits[j].0 as int, d));
    d + x.1
}

/// Along a walk the own bound falls by no more than the walk costs, and the
/// other one rises by no more.
proof fn lemma_consistent_walk(
    h: spec_fn(u32, int) -> int,
    side: int,
    net: Net,
    u: int,
    v: int,
    d: int,
    n: nat,
)
    requires
        consistent(h, side, net),
        walk(net, from(u), v, d, n),
    ensures
        h(u as u32, side) <= d + h(v as u32, side),
        h(v as u32, 1 - side) <= d + h(u as u32, 1 - side),
    decreases n,
{
    if n == 0 {
        let i = choose|i: int| 0 <= i < from(u).len() && #[trigger] from(u)[i] == (v, d);
        assert(from(u)[i] == (u, 0int));
    } else {
        let (x, s, w) = choose|x: int, s: int, w: int|
            #[trigger] arc_at(net, x, s, v, w) && walk(net, from(u), x, d - w, (n - 1) as nat);
        lemma_consistent_walk(h, side, net, u, x, d - w, (n - 1) as nat);
        assert(arc_at(net, x, s, v, w));
    }
}

/// What is consistent by road is consistent over the overlay.
proof fn lemma_consistent_over(
    ds: Dataset,
    effects: Seq<(u32, Effect)>,
    l: Ladder,
    ends: Seq<(u32, u32)>,
    home: Seq<Seq<u32>>,
    fwd: bool,
    h: spec_fn(u32, int) -> int,
    side: int,
)
    requires
        placed(ds, effects, l, ends, home),
        consistent(h, side, road_net(ds, effects, fwd)),
    ensures
        consistent(h, side, over_net(ds, effects, l, home, fwd)),
{
    let q = over_contraction(ds, effects, l, home, fwd);
    lemma_over_contracts(ds, effects, l, ends, home, fwd);
    let net = over_net(ds, effects, l, home, fwd);
    assert(q.small == net);
    assert forall|u: int, s: int, v: int, w: int| #[trigger] arc_at(net, u, s, v, w) implies h(
        u as u32,
        side,
    ) <= w + h(v as u32, side) && h(v as u32, 1 - side) <= w + h(u as u32, 1 - side) by {
        assert(arc_at(q.small, u, s, v, w));
        assert(leads(q.base, u, v, w));
        let n = choose|n: nat| walk(q.base, from(u), v, w, n);
        lemma_consistent_walk(h, side, q.base, u, v, w, n);
    }
}

proof fn lemma_steady_over<F: Fn(u32, usize) -> u32>(
    ds: Dataset,
    effects: Seq<(u32, Effect)>,
    l: Ladder,
    ends: Seq<(u32, u32)>,
    home: Seq<Seq<u32>>,
    floor: &F,
    reach: u32,
)
    requires
        placed(ds, effects, l, ends, home),
        steady(floor, reach, road_net(ds, effects, true), road_net(ds, effects, false)),
    ensures
        steady(
            floor,
            reach,
            over_net(ds, effects, l, home, true),
            over_net(ds, effects, l, home, false),
        ),
{
    let (roads, back) = (road_net(ds, effects, true), road_net(ds, effects, false));
    let h = choose|h: spec_fn(u32, int) -> int|
        #[trigger] told(floor, h) && consistent(h, 0, roads) && consistent(h, 1, back) && spanned(
            h,
            reach as int,
            roads.n,
        );
    lemma_consistent_over(ds, effects, l, ends, home, true, h, 0);
    lemma_consistent_over(ds, effects, l, ends, home, false, h, 1);
    assert(told(floor, h));
    assert(over_net(ds, effects, l, home, true).n == roads.n);
}

/// What a meeting of the two searches comes to is a trip by road.
proof fn lemma_overlay_real(
    ds: Dataset,
    effects: Seq<(u32, Effect)>,
    l: Ladder,
    entries: Seq<(u32, u32)>,
    exits: Seq<(u32, u32)>,
    home: Seq<Seq<u32>>,
    sa: Seq<(int, int)>,
    sb: Seq<(int, int)>,
    path: Seq<u32>,
    cost: int,
) -> (sum: int)
    requires
        placed(ds, effects, l, entries + exits, home),
        entered(ds, effects, l, entries, true, sa),
        entered(ds, effects, l, exits, false, sb),
        routed(
            over_net(ds, effects, l, home, true),
            sa,
            over_net(ds, effects, l, home, false),
            sb,
            path,
            cost,
        ),
        cost < UNREACHABLE,
    ensures
        sum <= cost,
        trip(road_net(ds, effects, true), seeds_of(entries), exits, sum),
{
    let ends = entries + exits;
    let roads = road_net(ds, effects, true);
    let back = road_net(ds, effects, false);
    let a = over_net(ds, effects, l, home, true);
    let b = over_net(ds, effects, l, home, false);
    let qa = over_contraction(ds, effects, l, home, true);
    let qb = over_contraction(ds, effects, l, home, false);
    let (ea, eb) = (seeds_of(entries), seeds_of(exits));
    lemma_parts(entries, exits);
    lemma_over_contracts(ds, effects, l, ends, home, true);
    lemma_over_contracts(ds, effects, l, ends, home, false);
    lemma_over_ok(ds, effects, l, home, true);
    lemma_over_ok(ds, effects, l, home, false);
    lemma_seeds(ds, effects, l, ends, home, true, entries, sa);
    lemma_seeds(ds, effects, l, ends, home, false, exits, sb);
    let (p, q, u, v) = choose|p: Seq<u32>, q: Seq<u32>, u: int, v: int|
        {
            &&& #[trigger] backs(a, sa, p, u)
            &&& #[trigger] backs(b, sb, q, v)
            &&& u + v <= cost
            &&& p[0] == q[0]
            &&& path == p.reverse() + q.drop_first()
        };
    lemma_backs_walk(a, sa, p, u);
    lemma_backs_walk(b, sb, q, v);
    let m = p[0] as int;
    let d1 = choose|e: int| #[trigger] walkable(a, sa, m, e) && e <= u;
    let d2 = choose|e: int| #[trigger] walkable(b, sb, m, e) && e <= v;
    let n1 = choose|n: nat| walk(a, sa, m, d1, n);
    let n2 = choose|n: nat| walk(b, sb, m, d2, n);
    lemma_unfold(qa, ea, sa, m, d1, n1);
    lemma_unfold(qb, eb, sb, m, d2, n2);
    let n3 = choose|n: nat| walk(back, eb, m, d2, n);
    let j = lemma_which_source(back, eb, m, d2, n3);
    assert(eb[j] == (exits[j].0 as int, exits[j].1 as int));
    let (t, left) = (exits[j].0 as int, d2 - exits[j].1);
    lemma_road_reversed(ds, effects, false);
    lemma_reverse(back, roads, t, m, left);
    lemma_concat(roads, ea, m, d1, t, left);
    assert(walkable(roads, ea, exits[j].0 as int, d1 + left));
    d1 + d2
}

/// What a search that is drawn to its goal leaves out at the top of the range
/// of costs.
pub open spec fn left_out(astar: bool, reach: u32) -> int {
    if astar {
        reach as int
    } else {
        0
    }
}

/// The way by the gates and the way inside a region together miss no trip.
proof fn lemma_trip_least<F: Fn(u32, usize) -> u32>(
    ds: Dataset,
    effects: Seq<(u32, Effect)>,
    l: Ladder,
    entries: Seq<(u32, u32)>,
    exits: Seq<(u32, u32)>,
    nlev: int,
    astar: bool,
    reach: u32,
    floor: &F,
    near: u32,
    far: Option<(u32, Vec<u32>)>,
)
    requires
        fitted(ds, effects, l),
        forall|i: int| 0 <= i < entries.len() ==> (#[trigger] entries[i]).0 < ds.nv(),
        forall|i: int| 0 <= i < exits.len() ==> (#[trigger] exits[i]).0 < ds.nv(),
        1 <= nlev <= l.len(),
        modest(floor, 0, road_net(ds, effects, false), seeds_of(exits)),
        modest(floor, 1, road_net(ds, effects, true), seeds_of(entries)),
        astar ==> steady(floor, reach, road_net(ds, effects, true), road_net(ds, effects, false)),
        least_inside(ds, effects, l, entries, exits, entries.len() as int, 0, near),
        crossed(ds, effects, l, entries, exits, nlev, astar, reach, floor, false, far),
    ensures
        forall|c: int|
            #[trigger] trip(road_net(ds, effects, true), seeds_of(entries), exits, c) ==> near <= c
                || short_of(cost_of(far) as int, left_out(astar, reach)) <= c,
        far matches Some((cost, _)) ==> cost < UNREACHABLE && exists|sum: int|
            sum <= cost && #[trigger] trip(
                road_net(ds, effects, true),
                seeds_of(entries),
                exits,
                sum,
            ),
{
    let roads = road_net(ds, effects, true);
    let ends = entries + exits;
    let ea = seeds_of(entries);
    let slack = left_out(astar, reach);
    let (home, sa, sb) = choose|home: Seq<Seq<u32>>, sa: Seq<(int, int)>, sb: Seq<(int, int)>|
        {
            let a = over_net(ds, effects, l, home, true);
            let b = over_net(ds, effects, l, home, false);
            &&& #[trigger] homes(l, entries + exits, nlev, home)
            &&& #[trigger] entered(ds, effects, l, entries, true, sa)
            &&& #[trigger] entered(ds, effects, l, exits, false, sb)
            &&& outcome(
                a,
                sa,
                b,
                sb,
                trustworthy(a, sa, b, sb, astar, reach, floor) && !false,
                slack,
                far,
            )
        };
    let a = over_net(ds, effects, l, home, true);
    let b = over_net(ds, effects, l, home, false);
    assert(placed(ds, effects, l, ends, home)) by {
        assert forall|i: int| 0 <= i < ends.len() implies (#[trigger] ends[i]).0 < ds.nv() by {
            if i < entries.len() {
                assert(ends[i] == entries[i]);
            } else {
                assert(ends[i] == exits[i - entries.len()]);
            }
        }
    }
    lemma_parts(entries, exits);
    lemma_over_ok(ds, effects, l, home, true);
    lemma_over_ok(ds, effects, l, home, false);
    lemma_seeds(ds, effects, l, ends, home, true, entries, sa);
    lemma_seeds(ds, effects, l, ends, home, false, exits, sb);
    lemma_modest_fair(ds, effects, l, ends, home, false, exits, sb, floor, 0);
    lemma_modest_fair(ds, effects, l, ends, home, true, entries, sa, floor, 1);
    if astar {
        lemma_steady_over(ds, effects, l, ends, home, floor, reach);
    }
    let x = Set::new(|v: int| kept(ds, l, home, v));
    lemma_over_reversed(ds, effects, l, ends, home, true);
    lemma_over_reversed(ds, effects, l, ends, home, false);
    assert(!false == true && !true == false);
    assert(mirrored(a, sa, b, sb, x));
    assert(trustworthy(a, sa, b, sb, astar, reach, floor));
    let best: int = short_of(cost_of(far) as int, slack);
    assert(no_better(a, sa, b, sb, best));
    assert forall|c: int| #[trigger] trip(roads, ea, exits, c) implies near <= c || best <= c by {
        let (j, d) = choose|j: int, d: int|
            0 <= j < exits.len() && #[trigger] walkable(roads, ea, exits[j].0 as int, d) && c == d
                + exits[j].1;
        let n = choose|n: nat| walk(roads, ea, exits[j].0 as int, d, n);
        if c < UNREACHABLE {
            lemma_overlay_finds(ds, effects, l, entries, exits, home, sa, sb, best, near, j, d, n);
        }
    }
    if let Some((cost, path)) = far {
        let sum = lemma_overlay_real(
            ds,
            effects,
            l,
            entries,
            exits,
            home,
            sa,
            sb,
            path@,
            cost as int,
        );
        assert(sum <= cost && trip(roads, ea, exits, sum));
    }
}

/// The overlay answers what the cheapest trip by road comes to, from any of
/// the entries to any of the exits, with what it costs to get to them: whenever
/// a search that did not run out of memory has answered, no trip is cheaper,
/// and no answer means that there is no trip. A search that is drawn to its goal
/// by a consistent bound answers the same, short of costs that lie within
/// `reach` of the largest a number can hold: there it says only that no trip is
/// cheaper than those.
pub proof fn lemma_trip_exact<F: Fn(u32, usize) -> u32>(
    ds: Dataset,
    effects: Seq<(u32, Effect)>,
    l: Ladder,
    entries: Seq<(u32, u32)>,
    exits: Seq<(u32, u32)>,
    nlev: int,
    astar: bool,
    reach: u32,
    floor: &F,
    r: Option<(u32, Vec<u32>)>,
)
    requires
        fitted(ds, effects, l),
        forall|i: int| 0 <= i < entries.len() ==> (#[trigger] entries[i]).0 < ds.nv(),
        forall|i: int| 0 <= i < exits.len() ==> (#[trigger] exits[i]).0 < ds.nv(),
        1 <= nlev <= l.len(),
        modest(floor, 0, road_net(ds, effects, false), seeds_of(exits)),
        modest(floor, 1, road_net(ds, effects, true), seeds_of(entries)),
        astar ==> steady(floor, reach, road_net(ds, effects, true), road_net(ds, effects, false)),
        answered(ds, effects, l, entries, exits, nlev, astar, reach, floor, false, r),
    ensures
        r matches Some((cost, _)) ==> cost < UNREACHABLE,
        cost_of(r) <= UNREACHABLE - left_out(astar, reach) ==> best_trip(
            road_net(ds, effects, true),
            seeds_of(entries),
            exits,
            cost_of(r),
        ),
        forall|c: int|
            #[trigger] trip(road_net(ds, effects, true), seeds_of(entries), exits, c) ==> short_of(
                cost_of(r) as int,
                left_out(astar, reach),
            ) <= c,
{
    let roads = road_net(ds, effects, true);
    let ea = seeds_of(entries);
    let slack = left_out(astar, reach);
    let (near, far) = choose|near: Option<(u32, Vec<u32>)>, far: Option<(u32, Vec<u32>)>|
        {
            &&& #[trigger] best_inside(ds, effects, l, entries, exits, near)
            &&& #[trigger] crossed(
                ds,
                effects,
                l,
                entries,
                exits,
                nlev,
                astar,
                reach,
                floor,
                false,
                far,
            )
            &&& r == (if false {
                None
            } else {
                cheaper(near, far)
            })
        };
    lemma_trip_least(
        ds,
        effects,
        l,
        entries,
        exits,
        nlev,
        astar,
        reach,
        floor,
        cost_of(near),
        far,
    );
    let x = cost_of(r);
    if x <= UNREACHABLE - slack && x < UNREACHABLE {
        if cost_of(near) < cost_of(far) {
            if let Some((cost, path)) = near {
                let sum = lemma_inside_real(ds, effects, l, entries, exits, path@, cost as int);
                assert(sum == x);
            }
        } else {
            let sum = choose|sum: int| sum <= x && #[trigger] trip(roads, ea, exits, sum);
            assert(sum == x);
        }
    }
}

/// Between two vertices the cheapest trip is the distance.
proof fn lemma_one_trip(net: Net, s: int, t: u32, best: u32)
    requires
        best_trip(net, from(s), seq![(t, 0u32)], best),
    ensures
        is_dist(net, from(s), t as int, best),
{
    let exits = seq![(t, 0u32)];
    let (ea, end) = (from(s), t as int);
    assert forall|d: int, n: nat| #[trigger] walk(net, ea, end, d, n) implies best <= d by {
        assert(exits[0] == (t, 0u32));
        assert(walkable(net, ea, exits[0].0 as int, d));
        assert(trip(net, ea, exits, d));
    }
    if best < UNREACHABLE {
        let (j, d) = choose|j: int, d: int|
            0 <= j < exits.len() && #[trigger] walkable(net, ea, exits[j].0 as int, d) && best
                == d + exits[j].1;
        assert(exits[j] == (t, 0u32));
        let n = choose|n: nat| walk(net, ea, end, d, n);
        assert(walk(net, ea, end, best as int, n));
    }
}

/// The overlay answers what a plain search answers between any two vertices:
/// whenever a search that did not run out of memory has answered, the answer is
/// the distance by road, and no answer means that no road leads there. What
/// holds of a search that is drawn to its goal is as for trips.
pub proof fn lemma_overlay_exact<F: Fn(u32, usize) -> u32>(
    ds: Dataset,
    effects: Seq<(u32, Effect)>,
    l: Ladder,
    s: u32,
    t: u32,
    nlev: int,
    astar: bool,
    reach: u32,
    floor: &F,
    r: Option<u32>,
)
    requires
        fitted(ds, effects, l),
        s < ds.nv(),
        t < ds.nv(),
        1 <= nlev <= l.len(),
        modest(floor, 0, road_net(ds, effects, false), from(t as int)),
        modest(floor, 1, road_net(ds, effects, true), from(s as int)),
        astar ==> steady(floor, reach, road_net(ds, effects, true), road_net(ds, effects, false)),
        costed(ds, effects, l, s, t, nlev, astar, reach, floor, false, r),
    ensures
        r matches Some(cost) ==> cost < UNREACHABLE,
        ({
            let cost = match r {
                Some(cost) => cost,
                None => UNREACHABLE,
            };
            &&& cost <= UNREACHABLE - left_out(astar, reach) ==> is_dist(
                road_net(ds, effects, true),
                from(s as int),
                t as int,
                cost,
            )
            &&& forall|d: int, n: nat|
                #[trigger] walk(road_net(ds, effects, true), from(s as int), t as int, d, n)
                    ==> short_of(cost as int, left_out(astar, reach)) <= d
        }),
{
    let roads = road_net(ds, effects, true);
    let (entries, exits) = (seq![(s, 0u32)], seq![(t, 0u32)]);
    assert(seeds_of(entries) =~= from(s as int));
    assert(seeds_of(exits) =~= from(t as int));
    let a = choose|a: Option<(u32, Vec<u32>)>|
        {
            &&& #[trigger] answered(
                ds,
                effects,
                l,
                seq![(s, 0u32)],
                seq![(t, 0u32)],
                nlev,
                astar,
                reach,
                floor,
                false,
                a,
            )
            &&& r == (match a {
                Some((c, _)) => Some(c),
                None => None,
            })
        };
    lemma_trip_exact(ds, effects, l, entries, exits, nlev, astar, reach, floor, a);
    if cost_of(a) <= UNREACHABLE - left_out(astar, reach) {
        lemma_one_trip(roads, s as int, t, cost_of(a));
    }
    assert forall|d: int, n: nat|
        #[trigger] walk(roads, from(s as int), t as int, d, n) implies short_of(
        cost_of(a) as int,
        left_out(astar, reach),
    ) <= d by {
        assert(exits[0] == (t, 0u32));
        assert(walkable(roads, seeds_of(entries), exits[0].0 as int, d));
        assert(trip(roads, seeds_of(entries), exits, d));
    }
}

} // verus!
