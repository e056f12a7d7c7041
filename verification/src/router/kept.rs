//! A route takes the time that the search found.

use vstd::prelude::*;
use crate::attr::duration;
use crate::dataset::Dataset;
use crate::overlay::contraction::lemma_walk_arc;
use crate::overlay::exact::{
    is_edge, is_road, lemma_edge_road, lemma_road_arc, lemma_road_reversed, two_way,
};
use crate::overlay::frontier::walkable;
use crate::overlay::meet::{has_arc, no_better};
use crate::overlay::net::{backs, road_net};
use crate::overlay::rows::{edge_head, edge_weight};
use crate::overlay::search::routed;
use crate::overrides::Effect;
use crate::paths::{arc_at, walk};
use crate::router::ends::{end_kmh, entries_of, exits_of, first_part, last_part, timed, Snap};
use crate::router::route::{drive, quickest, rode, whole, with_part, Drive, Route};
use crate::router::search::seeds_of;

verus! {

/// The edge driven from `a` to `b`.
pub open spec fn step(ds: Dataset, effects: Seq<(u32, Effect)>, a: u32, b: u32) -> Option<int> {
    quickest(ds, effects, a, b, edge_head(ds, true)[a + 1] as int)
}

/// The time from `a` to `b`, nothing where no road leads there.
pub open spec fn step_time(ds: Dataset, effects: Seq<(u32, Effect)>, a: u32, b: u32) -> int {
    match step(ds, effects, a, b) {
        Some(t) => edge_weight(ds, effects, true, t)->0 as int,
        None => 0,
    }
}

/// The time over the first `n` vertices of a path.
pub open spec fn time_of(ds: Dataset, effects: Seq<(u32, Effect)>, path: Seq<u32>, n: int) -> int
    decreases n,
{
    if n <= 1 {
        0
    } else {
        time_of(ds, effects, path, n - 1) + step_time(ds, effects, path[n - 2], path[n - 1])
    }
}

/// A road leads from vertex `i` of a path to the next.
pub open spec fn joined(ds: Dataset, effects: Seq<(u32, Effect)>, path: Seq<u32>, i: int) -> bool {
    path[i] < ds.nv() && step(ds, effects, path[i], path[i + 1]) is Some
}

/// A road leads from each vertex of a path to the next.
pub open spec fn connected(ds: Dataset, effects: Seq<(u32, Effect)>, path: Seq<u32>) -> bool {
    forall|i: int| 0 <= i < path.len() - 1 ==> #[trigger] joined(ds, effects, path, i)
}

/// The quickest edge is a road, and none is quicker.
proof fn lemma_quickest(
    ds: Dataset,
    effects: Seq<(u32, Effect)>,
    a: u32,
    b: u32,
    k: int,
    t: int,
    w: int,
)
    requires
        ds.graph_ok(),
        a < ds.nv(),
        edge_head(ds, true)[a as int] <= k <= edge_head(ds, true)[a + 1],
        t < k,
        is_road(ds, effects, true, a, b, w, t),
    ensures
        quickest(ds, effects, a, b, k) is Some,
        edge_weight(ds, effects, true, quickest(ds, effects, a, b, k)->0) is Some,
        edge_weight(ds, effects, true, quickest(ds, effects, a, b, k)->0)->0 <= w,
    decreases k,
{
    lemma_quickest_road(ds, effects, a, b, k);
    if t < k - 1 {
        lemma_quickest(ds, effects, a, b, k - 1, t, w);
    }
    lemma_quickest_road(ds, effects, a, b, k - 1);
}

pub(crate) proof fn lemma_quickest_road(
    ds: Dataset,
    effects: Seq<(u32, Effect)>,
    a: u32,
    b: u32,
    k: int,
)
    requires
        ds.graph_ok(),
        a < ds.nv(),
        k <= edge_head(ds, true)[a + 1],
    ensures
        quickest(ds, effects, a, b, k) matches Some(t) ==> t < k && edge_weight(
            ds,
            effects,
            true,
            t,
        ) is Some && is_road(
            ds,
            effects,
            true,
            a,
            b,
            edge_weight(ds, effects, true, t)->0 as int,
            t,
        ),
    decreases k - edge_head(ds, true)[a as int],
{
    if k > edge_head(ds, true)[a as int] {
        lemma_quickest_road(ds, effects, a, b, k - 1);
    }
}

/// Over an arc of the road network the step is no longer.
proof fn lemma_step(
    ds: Dataset,
    effects: Seq<(u32, Effect)>,
    a: u32,
    b: u32,
    w: int,
)
    requires
        ds.graph_ok(),
        has_arc(road_net(ds, effects, true), a as int, b as int, w),
    ensures
        a < ds.nv(),
        step(ds, effects, a, b) is Some,
        step_time(ds, effects, a, b) <= w,
{
    let net = road_net(ds, effects, true);
    let s = choose|s: int| arc_at(net, a as int, s, b as int, w);
    lemma_road_arc(ds, effects, true, a as int, s, b as int, w);
    let t = edge_head(ds, true)[a as int] + s;
    assert(is_edge(ds, true, a, t));
    lemma_quickest(ds, effects, a, b, edge_head(ds, true)[a + 1] as int, t, w);
}

proof fn lemma_time_prefix(
    ds: Dataset,
    effects: Seq<(u32, Effect)>,
    p: Seq<u32>,
    q: Seq<u32>,
    n: int,
)
    requires
        n <= p.len(),
        n <= q.len(),
        forall|i: int| 0 <= i < n ==> p[i] == q[i],
    ensures
        time_of(ds, effects, p, n) == time_of(ds, effects, q, n),
    decreases n,
{
    if n > 1 {
        lemma_time_prefix(ds, effects, p, q, n - 1);
    }
}

/// What a trail of the forward search comes to, driven from its seed.
proof fn lemma_forward(
    ds: Dataset,
    effects: Seq<(u32, Effect)>,
    seeds: Seq<(int, int)>,
    p: Seq<u32>,
    d: int,
) -> (c: int)
    requires
        ds.graph_ok(),
        backs(road_net(ds, effects, true), seeds, p, d),
    ensures
        p.len() >= 1,
        seeds.contains((p.last() as int, c)),
        connected(ds, effects, p.reverse()),
        c + time_of(ds, effects, p.reverse(), p.len() as int) <= d,
    decreases p.len(),
{
    let net = road_net(ds, effects, true);
    if p.len() == 1 {
        let x = choose|x: int| #[trigger] seeds.contains((p[0] as int, x)) && x <= d;
        x
    } else {
        let rest = p.drop_first();
        let (s, w) = choose|s: int, w: int|
            #[trigger] arc_at(net, p[1] as int, s, p[0] as int, w) && backs(
                net,
                seeds,
                rest,
                d - w,
            );
        let c = lemma_forward(ds, effects, seeds, rest, d - w);
        assert(has_arc(net, p[1] as int, p[0] as int, w));
        lemma_step(ds, effects, p[1], p[0], w);
        let (r, r0) = (p.reverse(), rest.reverse());
        let n = p.len() as int;
        assert forall|i: int| 0 <= i < n - 1 implies r[i] == r0[i] by {}
        lemma_time_prefix(ds, effects, r, r0, n - 1);
        assert(r[n - 2] == p[1] && r[n - 1] == p[0]);
        assert forall|i: int| 0 <= i < r.len() - 1 implies #[trigger] joined(ds, effects, r, i) by {
            if i < n - 2 {
                assert(joined(ds, effects, r0, i));
                assert(r[i] == r0[i] && r[i + 1] == r0[i + 1]);
            }
        }
        assert(rest.last() == p.last());
        c
    }
}

/// One more step over an arc.
proof fn lemma_extend(
    ds: Dataset,
    effects: Seq<(u32, Effect)>,
    path: Seq<u32>,
    v: u32,
    w: int,
)
    requires
        ds.graph_ok(),
        path.len() >= 1,
        connected(ds, effects, path),
        has_arc(road_net(ds, effects, true), path.last() as int, v as int, w),
    ensures
        connected(ds, effects, path.push(v)),
        time_of(ds, effects, path.push(v), path.len() as int + 1) <= time_of(
            ds,
            effects,
            path,
            path.len() as int,
        ) + w,
{
    let longer = path.push(v);
    let n = path.len() as int;
    lemma_step(ds, effects, path.last(), v, w);
    lemma_time_prefix(ds, effects, longer, path, n);
    assert(longer[n - 1] == path.last() && longer[n] == v);
    assert forall|i: int| 0 <= i < longer.len() - 1 implies #[trigger] joined(
        ds,
        effects,
        longer,
        i,
    ) by {
        if i < n - 1 {
            assert(joined(ds, effects, path, i));
            assert(longer[i] == path[i] && longer[i + 1] == path[i + 1]);
        }
    }
}

/// What a trail of the backward search adds to a path that leads to it.
proof fn lemma_backward(
    ds: Dataset,
    effects: Seq<(u32, Effect)>,
    seeds: Seq<(int, int)>,
    path: Seq<u32>,
    q: Seq<u32>,
    d: int,
) -> (c: int)
    requires
        ds.graph_ok(),
        two_way(ds),
        backs(road_net(ds, effects, false), seeds, q, d),
        path.len() >= 1,
        path.last() == q[0],
        connected(ds, effects, path),
    ensures
        q.len() >= 1,
        seeds.contains((q.last() as int, c)),
        connected(ds, effects, path + q.drop_first()),
        time_of(
            ds,
            effects,
            path + q.drop_first(),
            (path + q.drop_first()).len() as int,
        ) + c <= time_of(ds, effects, path, path.len() as int) + d,
        (path + q.drop_first()).last() == q.last(),
    decreases q.len(),
{
    let net = road_net(ds, effects, false);
    if q.len() == 1 {
        let x = choose|x: int| #[trigger] seeds.contains((q[0] as int, x)) && x <= d;
        assert(path + q.drop_first() =~= path);
        x
    } else {
        let rest = q.drop_first();
        let (s, w) = choose|s: int, w: int|
            #[trigger] arc_at(net, q[1] as int, s, q[0] as int, w) && backs(
                net,
                seeds,
                rest,
                d - w,
            );
        lemma_road_reversed(ds, effects, false);
        assert(has_arc(road_net(ds, effects, true), q[0] as int, q[1] as int, w));
        let longer = path.push(q[1]);
        lemma_extend(ds, effects, path, q[1], w);
        let c = lemma_backward(ds, effects, seeds, longer, rest, d - w);
        assert(longer + rest.drop_first() =~= path + q.drop_first());
        assert(rest.last() == q.last());
        c
    }
}

/// A step is an arc of the road network.
proof fn lemma_step_arc(ds: Dataset, effects: Seq<(u32, Effect)>, a: u32, b: u32)
    requires
        ds.graph_ok(),
        a < ds.nv(),
        step(ds, effects, a, b) is Some,
    ensures
        has_arc(road_net(ds, effects, true), a as int, b as int, step_time(ds, effects, a, b)),
{
    lemma_quickest_road(ds, effects, a, b, edge_head(ds, true)[a + 1] as int);
    let t = step(ds, effects, a, b)->0;
    let w = edge_weight(ds, effects, true, t)->0 as int;
    lemma_edge_road(ds, effects, true, a, b, w, t);
}

/// A connected path is a walk in its own time.
proof fn lemma_driven(
    ds: Dataset,
    effects: Seq<(u32, Effect)>,
    seeds: Seq<(int, int)>,
    path: Seq<u32>,
    c: int,
    n: int,
)
    requires
        ds.graph_ok(),
        connected(ds, effects, path),
        seeds.contains((path[0] as int, c)),
        1 <= n <= path.len(),
    ensures
        walkable(
            road_net(ds, effects, true),
            seeds,
            path[n - 1] as int,
            c + time_of(ds, effects, path, n),
        ),
    decreases n,
{
    let net = road_net(ds, effects, true);
    if n == 1 {
        let i = seeds.index_of((path[0] as int, c));
        assert(seeds[i] == (path[0] as int, c));
        assert(walk(net, seeds, path[0] as int, c, 0));
    } else {
        lemma_driven(ds, effects, seeds, path, c, n - 1);
        let (a, b) = (path[n - 2], path[n - 1]);
        assert(joined(ds, effects, path, n - 2));
        lemma_step_arc(ds, effects, a, b);
        let w = step_time(ds, effects, a, b);
        let s = choose|s: int| arc_at(net, a as int, s, b as int, w);
        lemma_walk_arc(
            net,
            seeds,
            a as int,
            c + time_of(ds, effects, path, n - 1),
            b as int,
            s,
            w,
        );
    }
}

proof fn lemma_whole_time(
    ds: Dataset,
    effects: Seq<(u32, Effect)>,
    path: Seq<u32>,
    d: Drive,
    n: int,
)
    ensures
        whole(ds, effects, path, d, n).dur == d.dur + time_of(ds, effects, path, n),
    decreases n,
{
    if n > 1 {
        lemma_whole_time(ds, effects, path, d, n - 1);
    }
}

/// The shorter part takes no longer.
proof fn lemma_shorter(a: u32, b: u32, k: u16)
    requires
        a <= b,
    ensures
        duration(a, k) <= duration(b, k),
{
    let q: int = (if k == 0 {
        1
    } else {
        k as int
    }) * 100;
    assert(a * 36 / q <= b * 36 / q) by (nonlinear_arith)
        requires
            a <= b,
            q > 0,
    ;
}

/// The part of an end segment takes a time that a seed was given, and no other
/// seed at that vertex was given less.
proof fn lemma_seed_in(ds: Dataset, effects: Seq<(u32, Effect)>, s: Snap, v: u32, c: int) -> (t: int)
    requires
        seeds_of(timed(exits_of(ds, effects, s), end_kmh(ds, effects, s))).contains((v as int, c)),
    ensures
        seeds_of(timed(exits_of(ds, effects, s), end_kmh(ds, effects, s))).contains((v as int, t)),
        t <= c,
        first_part(ds, s, v) matches Some((cm, _)) && t == duration(cm, end_kmh(ds, effects, s)),
{
    let l = exits_of(ds, effects, s);
    let k = end_kmh(ds, effects, s);
    let i = seeds_of(timed(l, k)).index_of((v as int, c));
    assert(seeds_of(timed(l, k))[i] == (v as int, c));
    assert(timed(l, k)[i] == (l[i].0, duration(l[i].1, k)));
    let part = first_part(ds, s, v)->Some_0;
    let cm = part.0;
    lemma_shorter(cm, l[i].1, k);
    let j: int = if l[0] == (v, cm) {
        0
    } else {
        1
    };
    assert(l[j] == (v, cm));
    assert(timed(l, k)[j] == (v, duration(cm, k)));
    assert(seeds_of(timed(l, k))[j] == (v as int, duration(cm, k) as int));
    duration(cm, k) as int
}

proof fn lemma_seed_out(ds: Dataset, effects: Seq<(u32, Effect)>, s: Snap, v: u32, c: int) -> (t: int)
    requires
        seeds_of(timed(entries_of(ds, effects, s), end_kmh(ds, effects, s))).contains(
            (v as int, c),
        ),
    ensures
        seeds_of(timed(entries_of(ds, effects, s), end_kmh(ds, effects, s))).contains(
            (v as int, t),
        ),
        t <= c,
        last_part(ds, s, v) matches Some((cm, _)) && t == duration(cm, end_kmh(ds, effects, s)),
{
    let l = entries_of(ds, effects, s);
    let k = end_kmh(ds, effects, s);
    let i = seeds_of(timed(l, k)).index_of((v as int, c));
    assert(seeds_of(timed(l, k))[i] == (v as int, c));
    assert(timed(l, k)[i] == (l[i].0, duration(l[i].1, k)));
    let part = last_part(ds, s, v)->Some_0;
    let cm = part.0;
    lemma_shorter(cm, l[i].1, k);
    let j: int = if l[0] == (v, cm) {
        0
    } else {
        1
    };
    assert(l[j] == (v, cm));
    assert(timed(l, k)[j] == (v, duration(cm, k)));
    assert(seeds_of(timed(l, k))[j] == (v as int, duration(cm, k) as int));
    duration(cm, k) as int
}

/// The path of a search: its seeds at both ends, and its time between them.
pub(crate) proof fn lemma_found(
    ds: Dataset,
    effects: Seq<(u32, Effect)>,
    sa: Seq<(int, int)>,
    sb: Seq<(int, int)>,
    way: Seq<u32>,
    cost: int,
) -> (c: (int, int))
    requires
        ds.graph_ok(),
        two_way(ds),
        routed(road_net(ds, effects, true), sa, road_net(ds, effects, false), sb, way, cost),
    ensures
        way.len() >= 1,
        connected(ds, effects, way),
        sa.contains((way[0] as int, c.0)),
        sb.contains((way.last() as int, c.1)),
        c.0 + time_of(ds, effects, way, way.len() as int) + c.1 <= cost,
{
    let (a, b) = (road_net(ds, effects, true), road_net(ds, effects, false));
    let (p, q, x, y) = choose|p: Seq<u32>, q: Seq<u32>, x: int, y: int|
        {
            &&& #[trigger] backs(a, sa, p, x)
            &&& #[trigger] backs(b, sb, q, y)
            &&& x + y <= cost
            &&& p[0] == q[0]
            &&& way == p.reverse() + q.drop_first()
        };
    let c_in = lemma_forward(ds, effects, sa, p, x);
    let front = p.reverse();
    assert(front.last() == p[0]);
    let c_out = lemma_backward(ds, effects, sb, front, q, y);
    assert(way[0] == p.last());
    (c_in, c_out)
}

/// No path between the seeds is quicker than what a search says.
proof fn lemma_least(
    ds: Dataset,
    effects: Seq<(u32, Effect)>,
    sa: Seq<(int, int)>,
    sb: Seq<(int, int)>,
    way: Seq<u32>,
    c: (int, int),
    cost: int,
)
    requires
        ds.graph_ok(),
        no_better(road_net(ds, effects, true), sa, road_net(ds, effects, false), sb, cost),
        way.len() >= 1,
        connected(ds, effects, way),
        sa.contains((way[0] as int, c.0)),
        sb.contains((way.last() as int, c.1)),
    ensures
        cost <= c.0 + time_of(ds, effects, way, way.len() as int) + c.1,
{
    let (a, b) = (road_net(ds, effects, true), road_net(ds, effects, false));
    let n = way.len() as int;
    lemma_driven(ds, effects, sa, way, c.0, n);
    let total = c.0 + time_of(ds, effects, way, n);
    let m = choose|m: nat| walk(a, sa, way.last() as int, total, m);
    assert(walk(a, sa, way.last() as int, total, m));
    let i = sb.index_of((way.last() as int, c.1));
    assert(sb[i] == (way.last() as int, c.1));
    assert(walk(b, sb, way.last() as int, c.1, 0));
}

/// The time of a drive: the parts at its ends and what lies between.
proof fn lemma_drive_time(
    ds: Dataset,
    effects: Seq<(u32, Effect)>,
    from: Snap,
    to: Snap,
    way: Seq<u32>,
    c: (int, int),
)
    requires
        first_part(ds, from, way[0]) matches Some((cm, _)) && c.0 == duration(
            cm,
            end_kmh(ds, effects, from),
        ),
        last_part(ds, to, way.last()) matches Some((cm, _)) && c.1 == duration(
            cm,
            end_kmh(ds, effects, to),
        ),
    ensures
        drive(ds, effects, from, to, way).dur == c.0 + time_of(
            ds,
            effects,
            way,
            way.len() as int,
        ) + c.1,
{
    let none = Drive { dist: 0, dur: 0, legs: Seq::empty() };
    let lead = with_part(none, from, end_kmh(ds, effects, from), first_part(ds, from, way[0]));
    lemma_whole_time(ds, effects, way, lead, way.len() as int);
}

/// A road leads over every step of a route, and the time told for the route is
/// the cost that the search found: part of the first segment, whole segments,
/// part of the last. Every edge is listed from both of its ends.
pub proof fn lemma_time_kept(
    ds: Dataset,
    effects: Seq<(u32, Effect)>,
    from: Snap,
    to: Snap,
    cost: u32,
    path: Vec<u32>,
    r: Route,
)
    requires
        ds.graph_ok(),
        two_way(ds),
        rode(ds, effects, from, to, Some((cost, path)), Some(r)),
    ensures
        connected(ds, effects, r.vertices@),
        first_part(ds, from, r.vertices@[0]) is Some,
        last_part(ds, to, r.vertices@.last()) is Some,
        r.dur_ds == cost,
{
    let sa = seeds_of(timed(exits_of(ds, effects, from), end_kmh(ds, effects, from)));
    let sb = seeds_of(timed(entries_of(ds, effects, to), end_kmh(ds, effects, to)));
    let c = lemma_found(ds, effects, sa, sb, path@, cost as int);
    let t0 = lemma_seed_in(ds, effects, from, path@[0], c.0);
    let t1 = lemma_seed_out(ds, effects, to, path@.last(), c.1);
    lemma_least(ds, effects, sa, sb, path@, (t0, t1), cost as int);
    lemma_drive_time(ds, effects, from, to, path@, (t0, t1));
}

} // verus!
