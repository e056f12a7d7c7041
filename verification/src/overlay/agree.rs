//! The search over the overlay and the search over the roads agree, under the
//! conditions named in `exact`.

use vstd::prelude::*;
use crate::dataset::Dataset;
use crate::overlay::contraction::{from, lemma_concat, lemma_reverse};
use crate::overlay::exact::{
    best_trip, fitted, lemma_backs_walk, lemma_overlay_exact, lemma_road_reversed,
    lemma_trip_exact, lemma_which_source, modest, trip, two_way,
};
use crate::overlay::frontier::walkable;
use crate::overlay::inside::cost_of;
use crate::overlay::meet::no_better;
use crate::overlay::net::{backs, road_net};
use crate::overlay::reference::{costed, referred};
use crate::overlay::search::{answered, routed, steady};
use crate::overlay::shape::Ladder;
use crate::overrides::Effect;
use crate::paths::{lemma_dist_unique, walk, Net, UNREACHABLE};
use crate::router::search::{found, seeds_of};

verus! {

/// What a meeting of two searches over the roads comes to is a trip.
proof fn lemma_road_real(
    ds: Dataset,
    effects: Seq<(u32, Effect)>,
    ea: Seq<(int, int)>,
    exits: Seq<(u32, u32)>,
    path: Seq<u32>,
    cost: int,
) -> (sum: int)
    requires
        ds.graph_ok(),
        two_way(ds),
        routed(
            road_net(ds, effects, true),
            ea,
            road_net(ds, effects, false),
            seeds_of(exits),
            path,
            cost,
        ),
    ensures
        sum <= cost,
        trip(road_net(ds, effects, true), ea, exits, sum),
{
    let (a, b) = (road_net(ds, effects, true), road_net(ds, effects, false));
    let eb = seeds_of(exits);
    let (p, q, u, v) = choose|p: Seq<u32>, q: Seq<u32>, u: int, v: int|
        {
            &&& #[trigger] backs(a, ea, p, u)
            &&& #[trigger] backs(b, eb, q, v)
            &&& u + v <= cost
            &&& p[0] == q[0]
            &&& path == p.reverse() + q.drop_first()
        };
    lemma_backs_walk(a, ea, p, u);
    lemma_backs_walk(b, eb, q, v);
    let m = p[0] as int;
    let d1 = choose|e: int| #[trigger] walkable(a, ea, m, e) && e <= u;
    let d2 = choose|e: int| #[trigger] walkable(b, eb, m, e) && e <= v;
    let n2 = choose|n: nat| walk(b, eb, m, d2, n);
    let j = lemma_which_source(b, eb, m, d2, n2);
    assert(eb[j] == (exits[j].0 as int, exits[j].1 as int));
    let (t, left) = (exits[j].0 as int, d2 - exits[j].1);
    lemma_road_reversed(ds, effects, false);
    lemma_reverse(b, a, t, m, left);
    lemma_concat(a, ea, m, d1, t, left);
    assert(walkable(a, ea, exits[j].0 as int, d1 + left));
    d1 + d2
}

/// No trip is cheaper than what a search that cannot be bettered says.
proof fn lemma_road_least(
    a: Net,
    ea: Seq<(int, int)>,
    b: Net,
    exits: Seq<(u32, u32)>,
    best: int,
    c: int,
)
    requires
        no_better(a, ea, b, seeds_of(exits), best),
        trip(a, ea, exits, c),
    ensures
        best <= c,
{
    let eb = seeds_of(exits);
    let (j, d) = choose|j: int, d: int|
        0 <= j < exits.len() && #[trigger] walkable(a, ea, exits[j].0 as int, d) && c == d
            + exits[j].1;
    let n = choose|n: nat| walk(a, ea, exits[j].0 as int, d, n);
    assert(eb[j] == (exits[j].0 as int, exits[j].1 as int));
    assert(walk(b, eb, exits[j].0 as int, exits[j].1 as int, 0));
    assert(walk(a, ea, exits[j].0 as int, d, n));
}

/// The search over the roads answers what the cheapest trip comes to, and no
/// answer means that there is no trip.
pub proof fn lemma_plain_exact(
    ds: Dataset,
    effects: Seq<(u32, Effect)>,
    entries: Seq<(u32, u32)>,
    exits: Seq<(u32, u32)>,
    r: Option<(u32, Vec<u32>)>,
)
    requires
        ds.graph_ok(),
        two_way(ds),
        found(ds, effects, entries, exits, r),
    ensures
        match r {
            Some((cost, _)) => cost < UNREACHABLE && best_trip(
                road_net(ds, effects, true),
                seeds_of(entries),
                exits,
                cost,
            ),
            None => best_trip(
                road_net(ds, effects, true),
                seeds_of(entries),
                exits,
                UNREACHABLE,
            ),
        },
{
    let (a, b) = (road_net(ds, effects, true), road_net(ds, effects, false));
    let ea = seeds_of(entries);
    let best: u32 = match r {
        Some((cost, _)) => cost,
        None => UNREACHABLE,
    };
    assert forall|c: int| #[trigger] trip(a, ea, exits, c) implies best <= c by {
        lemma_road_least(a, ea, b, exits, best as int, c);
    }
    if let Some((cost, path)) = r {
        let sum = lemma_road_real(ds, effects, ea, exits, path@, cost as int);
        assert(sum == cost);
    }
}

proof fn lemma_one_best(net: Net, srcs: Seq<(int, int)>, exits: Seq<(u32, u32)>, x: u32, y: u32)
    requires
        best_trip(net, srcs, exits, x),
        best_trip(net, srcs, exits, y),
    ensures
        x == y,
{
    if x < UNREACHABLE {
        assert(trip(net, srcs, exits, x as int));
    }
    if y < UNREACHABLE {
        assert(trip(net, srcs, exits, y as int));
    }
}

/// Asked the same, the two searches answer the same: the same cost, or both
/// that there is no way. The search over the overlay has room enough, and where
/// it is drawn to its goal the bound is consistent and one of the two costs not
/// within `reach` of the largest a number can hold.
pub proof fn lemma_routers_agree<F: Fn(u32, usize) -> u32>(
    ds: Dataset,
    effects: Seq<(u32, Effect)>,
    l: Ladder,
    entries: Seq<(u32, u32)>,
    exits: Seq<(u32, u32)>,
    nlev: int,
    astar: bool,
    reach: u32,
    floor: &F,
    plain: Option<(u32, Vec<u32>)>,
    over: Option<(u32, Vec<u32>)>,
)
    requires
        fitted(ds, effects, l),
        forall|i: int| 0 <= i < entries.len() ==> (#[trigger] entries[i]).0 < ds.nv(),
        forall|i: int| 0 <= i < exits.len() ==> (#[trigger] exits[i]).0 < ds.nv(),
        1 <= nlev <= l.len(),
        modest(floor, 0, road_net(ds, effects, false), seeds_of(exits)),
        modest(floor, 1, road_net(ds, effects, true), seeds_of(entries)),
        astar ==> steady(floor, reach, road_net(ds, effects, true), road_net(ds, effects, false)),
        found(ds, effects, entries, exits, plain),
        answered(ds, effects, l, entries, exits, nlev, astar, reach, floor, false, over),
        astar ==> cost_of(plain) < UNREACHABLE - reach || cost_of(over) <= UNREACHABLE - reach,
    ensures
        match (plain, over) {
            (Some((x, _)), Some((y, _))) => x == y,
            (None, None) => true,
            _ => false,
        },
{
    let (net, ea) = (road_net(ds, effects, true), seeds_of(entries));
    lemma_plain_exact(ds, effects, entries, exits, plain);
    lemma_trip_exact(ds, effects, l, entries, exits, nlev, astar, reach, floor, over);
    let (x, y) = (cost_of(plain), cost_of(over));
    if astar && cost_of(over) > UNREACHABLE - reach {
        assert(trip(net, ea, exits, x as int));
    }
    lemma_one_best(net, ea, exits, x, y);
}

/// Between any two vertices, a vertex and itself among them, the overlay
/// answers what the yardstick does, under the same conditions.
pub proof fn lemma_vertices_agree<F: Fn(u32, usize) -> u32>(
    ds: Dataset,
    effects: Seq<(u32, Effect)>,
    l: Ladder,
    s: u32,
    t: u32,
    nlev: int,
    astar: bool,
    reach: u32,
    floor: &F,
    plain: Option<u32>,
    settled: int,
    over: Option<u32>,
)
    requires
        fitted(ds, effects, l),
        s < ds.nv(),
        t < ds.nv(),
        1 <= nlev <= l.len(),
        modest(floor, 0, road_net(ds, effects, false), from(t as int)),
        modest(floor, 1, road_net(ds, effects, true), from(s as int)),
        astar ==> steady(floor, reach, road_net(ds, effects, true), road_net(ds, effects, false)),
        referred(road_net(ds, effects, true), s as int, t as int, plain, settled),
        costed(ds, effects, l, s, t, nlev, astar, reach, floor, false, over),
        astar ==> (plain matches Some(x) && x < UNREACHABLE - reach) || (over matches Some(y) && y
            <= UNREACHABLE - reach),
    ensures
        plain == over,
{
    lemma_overlay_exact(ds, effects, l, s, t, nlev, astar, reach, floor, over);
    let net = road_net(ds, effects, true);
    let x: u32 = match plain {
        Some(c) => c,
        None => UNREACHABLE,
    };
    let y: u32 = match over {
        Some(c) => c,
        None => UNREACHABLE,
    };
    if astar && y > UNREACHABLE - reach {
        let n = choose|n: nat| walk(net, from(s as int), t as int, x as int, n);
        assert(walk(net, from(s as int), t as int, x as int, n));
    }
    lemma_dist_unique(net, from(s as int), t as int, x, y);
}

/// However high the ladder is climbed, the answer is the same: with all levels
/// what it is with the first alone. Each search has room enough, and where one
/// is drawn to its goal the bound is consistent and its answer not within
/// `reach` of the largest a number can hold.
pub proof fn lemma_levels_agree<F: Fn(u32, usize) -> u32>(
    ds: Dataset,
    effects: Seq<(u32, Effect)>,
    l: Ladder,
    entries: Seq<(u32, u32)>,
    exits: Seq<(u32, u32)>,
    low: int,
    high: int,
    astar: bool,
    reach: u32,
    floor: &F,
    one: Option<(u32, Vec<u32>)>,
    all: Option<(u32, Vec<u32>)>,
)
    requires
        fitted(ds, effects, l),
        forall|i: int| 0 <= i < entries.len() ==> (#[trigger] entries[i]).0 < ds.nv(),
        forall|i: int| 0 <= i < exits.len() ==> (#[trigger] exits[i]).0 < ds.nv(),
        1 <= low <= l.len(),
        1 <= high <= l.len(),
        modest(floor, 0, road_net(ds, effects, false), seeds_of(exits)),
        modest(floor, 1, road_net(ds, effects, true), seeds_of(entries)),
        astar ==> steady(floor, reach, road_net(ds, effects, true), road_net(ds, effects, false)),
        answered(ds, effects, l, entries, exits, low, astar, reach, floor, false, one),
        answered(ds, effects, l, entries, exits, high, astar, reach, floor, false, all),
        astar ==> cost_of(one) <= UNREACHABLE - reach && cost_of(all) <= UNREACHABLE - reach,
    ensures
        cost_of(one) == cost_of(all),
        one is Some == all is Some,
{
    lemma_trip_exact(ds, effects, l, entries, exits, low, astar, reach, floor, one);
    lemma_trip_exact(ds, effects, l, entries, exits, high, astar, reach, floor, all);
    lemma_one_best(
        road_net(ds, effects, true),
        seeds_of(entries),
        exits,
        cost_of(one),
        cost_of(all),
    );
}

} // verus!
