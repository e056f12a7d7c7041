//! Where a route may go, and that none is quicker.

use vstd::prelude::*;
use crate::attr::duration;
use crate::dataset::{seg_of, Dataset};
use crate::lookup::lookup;
use crate::overlay::contraction::lemma_walk_arc;
use crate::overlay::exact::{is_edge, lemma_edge_road, two_way};
use crate::overlay::frontier::walkable;
use crate::overlay::meet::has_arc;
use crate::overlay::net::road_net;
use crate::overlay::rows::{edge_head, edge_weight, far_end};
use crate::overrides::Effect;
use crate::paths::{arc_at, walk};
use crate::router::ends::{end_kmh, entries_of, exits_of, first_part, last_part, lies_at, timed, Along, Snap};
use crate::router::kept::{connected, joined, lemma_found, lemma_quickest_road};
use crate::router::route::{drive, journey, quickest, rode, whole, with_part, Drive, Leg, Route};
use crate::router::search::seeds_of;

verus! {

/// The direction field of an attribute word: 0 both ways, 1 along, 2 against.
pub open spec fn way_field(word: u32) -> int {
    (word as int / 16) % 4
}

/// A segment with this attribute word may be driven along, or against, how it
/// is drawn.
pub open spec fn allowed(word: u32, reverse: bool) -> bool {
    &&& way_field(word) == 1 ==> !reverse
    &&& way_field(word) == 2 ==> reverse
}

/// Every edge of the graph runs in a direction that its segment allows.
pub open spec fn lawful(ds: Dataset) -> bool {
    forall|t: int|
        0 <= t < ds.eseg@.len() ==> allowed(
            ds.spec_attr(#[trigger] ds.eseg@[t] as int % 0x8000_0000),
            ds.eseg@[t] >= 0x8000_0000,
        )
}

/// A leg runs in a direction that its segment allows, and the segment is open.
pub open spec fn rightly(ds: Dataset, effects: Seq<(u32, Effect)>, l: Leg) -> bool {
    &&& l.seg < ds.ns()
    &&& allowed(ds.spec_attr(l.seg as int), l.reverse)
    &&& lookup(effects, l.seg) != Some(Effect::Closed)
}

/// The leg is a whole segment: edge `t`, which leads from `a` to `b`.
pub open spec fn takes(ds: Dataset, l: Leg, a: u32, b: u32, t: int) -> bool {
    &&& is_edge(ds, true, a, t)
    &&& far_end(ds, true, a, t) == b
    &&& l.seg == ds.eseg@[t] % 0x8000_0000
    &&& l.reverse == (ds.eseg@[t] >= 0x8000_0000)
    &&& l.len_cm == ds.seg_len@[l.seg as int]
}

pub open spec fn over(ds: Dataset, l: Leg, a: u32, b: u32) -> bool {
    exists|t: int| takes(ds, l, a, b, t)
}

/// The centimetres of the first `n` legs.
pub open spec fn centimetres(legs: Seq<Leg>, n: int) -> int
    decreases n,
{
    if n <= 0 {
        0
    } else {
        centimetres(legs, n - 1) + legs[n - 1].len_cm
    }
}

proof fn lemma_centimetres(a: Seq<Leg>, l: Leg, n: int)
    requires
        0 <= n <= a.len(),
    ensures
        centimetres(a.push(l), n) == centimetres(a, n),
    decreases n,
{
    if n > 0 {
        lemma_centimetres(a, l, n - 1);
    }
}

/// What the legs from `a` up to `n` cost, each as a whole segment.
pub open spec fn legs_cost(ds: Dataset, effects: Seq<(u32, Effect)>, legs: Seq<Leg>, a: int, n: int) -> int
    decreases n - a,
{
    if n <= a {
        0
    } else {
        legs_cost(ds, effects, legs, a, n - 1) + ds.cost(effects, legs[n - 1].seg as int)->0
    }
}

proof fn lemma_legs_cost(
    ds: Dataset,
    effects: Seq<(u32, Effect)>,
    x: Seq<Leg>,
    y: Seq<Leg>,
    a: int,
    n: int,
)
    requires
        0 <= a,
        n <= x.len(),
        n <= y.len(),
        forall|i: int| a <= i < n ==> x[i] == #[trigger] y[i],
    ensures
        legs_cost(ds, effects, x, a, n) == legs_cost(ds, effects, y, a, n),
    decreases n - a,
{
    if n > a {
        lemma_legs_cost(ds, effects, x, y, a, n - 1);
        assert(x[n - 1] == y[n - 1]);
    }
}

/// What the whole segments of a drive are.
proof fn lemma_whole(
    ds: Dataset,
    effects: Seq<(u32, Effect)>,
    path: Seq<u32>,
    d: Drive,
    n: int,
)
    requires
        ds.graph_ok(),
        lawful(ds),
        connected(ds, effects, path),
        1 <= n <= path.len(),
        d.dist == centimetres(d.legs, d.legs.len() as int),
    ensures
        ({
            let w = whole(ds, effects, path, d, n);
            let k = d.legs.len() as int;
            &&& w.legs.len() == k + n - 1
            &&& forall|i: int| 0 <= i < k ==> #[trigger] w.legs[i] == d.legs[i]
            &&& forall|i: int|
                k <= i < w.legs.len() ==> rightly(ds, effects, #[trigger] w.legs[i]) && over(
                    ds,
                    w.legs[i],
                    path[i - k],
                    path[i - k + 1],
                )
            &&& w.dist == centimetres(w.legs, w.legs.len() as int)
            &&& w.dur == d.dur + legs_cost(ds, effects, w.legs, k, k + n - 1)
        }),
    decreases n,
{
    if n > 1 {
        lemma_whole(ds, effects, path, d, n - 1);
        let rest = whole(ds, effects, path, d, n - 1);
        let (a, b) = (path[n - 2], path[n - 1]);
        assert(joined(ds, effects, path, n - 2));
        let k = edge_head(ds, true)[a + 1] as int;
        lemma_quickest_road(ds, effects, a, b, k);
        let t = quickest(ds, effects, a, b, k)->0;
        let w = whole(ds, effects, path, d, n);
        assert(ds.head@[a as int] <= t < ds.head@[a + 1]);
        assert(ds.head@[a + 1] <= ds.head@[ds.head@.len() - 1]);
        assert(seg_of(ds.eseg@[t]) < ds.ns());
        let l = w.legs[rest.legs.len() as int];
        assert(w.legs =~= rest.legs.push(l));
        assert(takes(ds, l, a, b, t));
        lemma_centimetres(rest.legs, l, rest.legs.len() as int);
        let m = d.legs.len() as int;
        lemma_legs_cost(ds, effects, rest.legs, w.legs, m, m + n - 2);
        assert(l.seg as int == seg_of(ds.eseg@[t]));
        assert(w.legs[m + n - 2] == l);
    }
}

/// Every leg of a route runs in a direction that its segment allows, the
/// partial first and last ones among them, and over no closed segment.
pub proof fn lemma_legs_allowed(
    ds: Dataset,
    effects: Seq<(u32, Effect)>,
    from: Snap,
    to: Snap,
    along: Along,
    r: Route,
)
    requires
        ds.graph_ok(),
        two_way(ds),
        lawful(ds),
        from.on(ds),
        to.on(ds),
        journey(ds, effects, from, to, along, Some(r)),
    ensures
        forall|i: int|
            0 <= i < r.legs@.len() ==> {
                let l = #[trigger] r.legs@[i];
                let way = (ds.spec_attr(l.seg as int) as int / 16) % 4;
                &&& way == 1 ==> !l.reverse
                &&& way == 2 ==> l.reverse
                &&& lookup(effects, l.seg) != Some(Effect::Closed)
            },
        r.dist_cm == centimetres(r.legs@, r.legs@.len() as int),
        r.from == from,
        r.to == to,
{
    if r.vertices@.len() == 0 {
        lemma_no_search(ds, effects, from, to, along, r);
        assert(r.legs@.len() == 1);
        assert(centimetres(r.legs@, 0) == 0);
        assert(centimetres(r.legs@, 1) == centimetres(r.legs@, 0) + r.legs@[0].len_cm);
    } else {
        lemma_legs(ds, effects, from, to, along, r);
    }
}

/// A route without vertices stays on the one segment.
proof fn lemma_no_search(
    ds: Dataset,
    effects: Seq<(u32, Effect)>,
    from: Snap,
    to: Snap,
    along: Along,
    r: Route,
)
    requires
        ds.graph_ok(),
        two_way(ds),
        journey(ds, effects, from, to, along, Some(r)),
        r.vertices@.len() == 0,
    ensures
        crate::router::ends::direct(ds, effects, from, to, along),
{
    if !crate::router::ends::direct(ds, effects, from, to, along) {
        let res = choose|res: Option<(u32, Vec<u32>)>| #[trigger]
            rode(ds, effects, from, to, res, Some(r));
        let (cost, path) = res->0;
        let sa = seeds_of(timed(exits_of(ds, effects, from), end_kmh(ds, effects, from)));
        let sb = seeds_of(timed(entries_of(ds, effects, to), end_kmh(ds, effects, to)));
        let c = lemma_found(ds, effects, sa, sb, path@, cost as int);
    }
}

/// The part of the first segment, having left it at a vertex that a search
/// began from.
proof fn lemma_first_leg(
    ds: Dataset,
    effects: Seq<(u32, Effect)>,
    s: Snap,
    kmh: u16,
    v: u32,
    c: int,
)
    requires
        seeds_of(timed(exits_of(ds, effects, s), kmh)).contains((v as int, c)),
    ensures
        first_part(ds, s, v) matches Some((cm, back)) && allowed(ds.spec_attr(s.seg as int), back)
            && (v, cm) == if back {
            (s.u, s.to_u)
        } else {
            (s.v, s.to_v)
        },
        lookup(effects, s.seg) != Some(Effect::Closed),
{
    let l = exits_of(ds, effects, s);
    let i = seeds_of(timed(l, kmh)).index_of((v as int, c));
    assert(seeds_of(timed(l, kmh))[i] == (v as int, c));
    assert(timed(l, kmh)[i].0 == l[i].0);
}

proof fn lemma_last_leg(
    ds: Dataset,
    effects: Seq<(u32, Effect)>,
    s: Snap,
    kmh: u16,
    v: u32,
    c: int,
)
    requires
        seeds_of(timed(entries_of(ds, effects, s), kmh)).contains((v as int, c)),
    ensures
        last_part(ds, s, v) matches Some((cm, back)) && allowed(ds.spec_attr(s.seg as int), back)
            && (v, cm) == if back {
            (s.v, s.to_v)
        } else {
            (s.u, s.to_u)
        },
        lookup(effects, s.seg) != Some(Effect::Closed),
{
    let l = entries_of(ds, effects, s);
    let i = seeds_of(timed(l, kmh)).index_of((v as int, c));
    assert(seeds_of(timed(l, kmh))[i] == (v as int, c));
    assert(timed(l, kmh)[i].0 == l[i].0);
}

/// What a drive along a connected path is.
proof fn lemma_drive(
    ds: Dataset,
    effects: Seq<(u32, Effect)>,
    from: Snap,
    to: Snap,
    path: Seq<u32>,
    lead: (u32, bool),
    tail: (u32, bool),
)
    requires
        ds.graph_ok(),
        lawful(ds),
        path.len() >= 1,
        connected(ds, effects, path),
        first_part(ds, from, path[0]) == Some(lead),
        last_part(ds, to, path.last()) == Some(tail),
    ensures
        ({
            let d = drive(ds, effects, from, to, path);
            let n = path.len() as int;
            &&& d.legs.len() == n + 1
            &&& d.legs[0] == (Leg { seg: from.seg, reverse: lead.1, len_cm: lead.0 as u64 })
            &&& d.legs[n] == (Leg { seg: to.seg, reverse: tail.1, len_cm: tail.0 as u64 })
            &&& forall|i: int|
                1 <= i < n ==> rightly(ds, effects, #[trigger] d.legs[i]) && over(
                    ds,
                    d.legs[i],
                    path[i - 1],
                    path[i],
                )
            &&& d.dist == centimetres(d.legs, n + 1)
            &&& d.dur == duration(lead.0, end_kmh(ds, effects, from)) + legs_cost(
                ds,
                effects,
                d.legs,
                1,
                n,
            ) + duration(tail.0, end_kmh(ds, effects, to))
        }),
{
    let (k0, k1) = (end_kmh(ds, effects, from), end_kmh(ds, effects, to));
    let none = Drive { dist: 0, dur: 0, legs: Seq::empty() };
    let begun = with_part(none, from, k0, Some(lead));
    assert(begun.legs.len() == 1);
    assert(centimetres(begun.legs, 0) == 0);
    assert(centimetres(begun.legs, 1) == centimetres(begun.legs, 0) + begun.legs[0].len_cm);
    let n = path.len() as int;
    lemma_whole(ds, effects, path, begun, n);
    let mid = whole(ds, effects, path, begun, n);
    let d = drive(ds, effects, from, to, path);
    assert(mid.legs[0] == begun.legs[0]);
    assert(d.legs =~= mid.legs.push(d.legs[n]));
    lemma_centimetres(mid.legs, d.legs[n], n);
    lemma_legs_cost(ds, effects, mid.legs, d.legs, 1, n);
    assert forall|i: int| 1 <= i < n implies rightly(ds, effects, #[trigger] d.legs[i]) && over(
        ds,
        d.legs[i],
        path[i - 1],
        path[i],
    ) by {
        assert(d.legs[i] == mid.legs[i]);
    }
}

/// A route that passes vertices leaves its first segment at the first of them
/// and enters its last at the last; between two neighbours it takes one edge
/// that leads from the one to the other, at its whole length. Every leg is one
/// that may be driven, the distance is their sum, and the time that of its parts
/// at either end and of the whole segments between.
pub proof fn lemma_legs(
    ds: Dataset,
    effects: Seq<(u32, Effect)>,
    from: Snap,
    to: Snap,
    along: Along,
    r: Route,
)
    requires
        ds.graph_ok(),
        two_way(ds),
        lawful(ds),
        from.on(ds),
        to.on(ds),
        journey(ds, effects, from, to, along, Some(r)),
        r.vertices@.len() > 0,
    ensures
        r.legs@.len() == r.vertices@.len() + 1,
        forall|i: int| 0 <= i < r.legs@.len() ==> rightly(ds, effects, #[trigger] r.legs@[i]),
        forall|i: int|
            1 <= i < r.vertices@.len() ==> over(
                ds,
                #[trigger] r.legs@[i],
                r.vertices@[i - 1],
                r.vertices@[i],
            ),
        ({
            let l = r.legs@[0];
            &&& l.seg == from.seg
            &&& (r.vertices@[0] as int, l.len_cm as int) == if l.reverse {
                (from.u as int, from.to_u as int)
            } else {
                (from.v as int, from.to_v as int)
            }
        }),
        ({
            let l = r.legs@.last();
            &&& l.seg == to.seg
            &&& (r.vertices@.last() as int, l.len_cm as int) == if l.reverse {
                (to.v as int, to.to_v as int)
            } else {
                (to.u as int, to.to_u as int)
            }
        }),
        r.dist_cm == centimetres(r.legs@, r.legs@.len() as int),
        r.dur_ds == duration(r.legs@[0].len_cm as u32, end_kmh(ds, effects, from)) + legs_cost(
            ds,
            effects,
            r.legs@,
            1,
            r.legs@.len() - 1,
        ) + duration(r.legs@.last().len_cm as u32, end_kmh(ds, effects, to)),
        r.from == from,
        r.to == to,
{
    let res = choose|res: Option<(u32, Vec<u32>)>| #[trigger]
        rode(ds, effects, from, to, res, Some(r));
    let (cost, path) = res->0;
    let (k0, k1) = (end_kmh(ds, effects, from), end_kmh(ds, effects, to));
    let sa = seeds_of(timed(exits_of(ds, effects, from), k0));
    let sb = seeds_of(timed(entries_of(ds, effects, to), k1));
    let c = lemma_found(ds, effects, sa, sb, path@, cost as int);
    lemma_first_leg(ds, effects, from, k0, path@[0], c.0);
    lemma_last_leg(ds, effects, to, k1, path@.last(), c.1);
    let lead = first_part(ds, from, path@[0])->0;
    let tail = last_part(ds, to, path@.last())->0;
    lemma_drive(ds, effects, from, to, path@, lead, tail);
    assert forall|i: int| 0 <= i < r.legs@.len() implies rightly(
        ds,
        effects,
        #[trigger] r.legs@[i],
    ) by {}
}

// --------------------------------------------------------------- none quicker

/// Edge `ts[i]` leads from `vs[i]` to the next vertex, and is open.
pub open spec fn goes(ds: Dataset, effects: Seq<(u32, Effect)>, vs: Seq<u32>, ts: Seq<int>, i: int) -> bool {
    &&& is_edge(ds, true, vs[i], ts[i])
    &&& far_end(ds, true, vs[i], ts[i]) == vs[i + 1]
    &&& ds.cost(effects, ds.eseg@[ts[i]] as int % 0x8000_0000) is Some
}

/// The edges lead along the vertices.
pub open spec fn ride(ds: Dataset, effects: Seq<(u32, Effect)>, vs: Seq<u32>, ts: Seq<int>) -> bool {
    &&& vs.len() == ts.len() + 1
    &&& forall|i: int| 0 <= i < ts.len() ==> #[trigger] goes(ds, effects, vs, ts, i)
}

/// What the first `n` edges cost.
pub open spec fn ride_time(ds: Dataset, effects: Seq<(u32, Effect)>, ts: Seq<int>, n: int) -> int
    decreases n,
{
    if n <= 0 {
        0
    } else {
        ride_time(ds, effects, ts, n - 1) + ds.cost(
            effects,
            ds.eseg@[ts[n - 1]] as int % 0x8000_0000,
        )->0
    }
}

/// A trip may leave its first segment at its end, or at its beginning.
pub open spec fn may_leave(ds: Dataset, effects: Seq<(u32, Effect)>, s: Snap, back: bool) -> bool {
    let way = way_field(ds.spec_attr(s.seg as int));
    &&& lookup(effects, s.seg) != Some(Effect::Closed)
    &&& way == 0 || (way == 1 && !back) || (way == 2 && back)
}

proof fn lemma_ride(
    ds: Dataset,
    effects: Seq<(u32, Effect)>,
    seeds: Seq<(int, int)>,
    c: int,
    vs: Seq<u32>,
    ts: Seq<int>,
    n: int,
)
    requires
        ds.graph_ok(),
        ride(ds, effects, vs, ts),
        seeds.contains((vs[0] as int, c)),
        0 <= n <= ts.len(),
    ensures
        walkable(
            road_net(ds, effects, true),
            seeds,
            vs[n] as int,
            c + ride_time(ds, effects, ts, n),
        ),
    decreases n,
{
    let net = road_net(ds, effects, true);
    if n == 0 {
        let i = seeds.index_of((vs[0] as int, c));
        assert(seeds[i] == (vs[0] as int, c));
        assert(walk(net, seeds, vs[0] as int, c, 0));
    } else {
        lemma_ride(ds, effects, seeds, c, vs, ts, n - 1);
        assert(goes(ds, effects, vs, ts, n - 1));
        let (a, b, t) = (vs[n - 1], vs[n], ts[n - 1]);
        let w = edge_weight(ds, effects, true, t)->0 as int;
        lemma_edge_road(ds, effects, true, a, b, w, t);
        assert(has_arc(net, a as int, b as int, w));
        let s = choose|s: int| arc_at(net, a as int, s, b as int, w);
        lemma_walk_arc(
            net,
            seeds,
            a as int,
            c + ride_time(ds, effects, ts, n - 1),
            b as int,
            s,
            w,
        );
    }
}

/// No other way of driving is quicker than a route that was searched for:
/// leaving the first segment at whichever end its direction allows, over
/// whichever open edges, and entering the last at whichever end its direction
/// allows. Where there is no route, none of them can be had at all.
pub proof fn lemma_none_quicker(
    ds: Dataset,
    effects: Seq<(u32, Effect)>,
    from: Snap,
    to: Snap,
    along: Along,
    r: Option<Route>,
    back0: bool,
    vs: Seq<u32>,
    ts: Seq<int>,
    back1: bool,
)
    requires
        ds.graph_ok(),
        two_way(ds),
        from.on(ds),
        to.on(ds),
        journey(ds, effects, from, to, along, r),
        from.seg == to.seg ==> !may_leave(ds, effects, from, !along.forward),
        ride(ds, effects, vs, ts),
        may_leave(ds, effects, from, back0),
        may_leave(ds, effects, to, back1),
        vs[0] == if back0 {
            from.u
        } else {
            from.v
        },
        vs.last() == if back1 {
            to.v
        } else {
            to.u
        },
    ensures
        ({
            let lead = duration(
                if back0 {
                    from.to_u
                } else {
                    from.to_v
                },
                end_kmh(ds, effects, from),
            );
            let tail = duration(
                if back1 {
                    to.to_v
                } else {
                    to.to_u
                },
                end_kmh(ds, effects, to),
            );
            let all = lead + ride_time(ds, effects, ts, ts.len() as int) + tail;
            match r {
                Some(x) => x.dur_ds <= all,
                None => all >= u32::MAX,
            }
        }),
{
    let res = choose|res: Option<(u32, Vec<u32>)>| #[trigger]
        rode(ds, effects, from, to, res, r);
    let (k0, k1) = (end_kmh(ds, effects, from), end_kmh(ds, effects, to));
    let (la, lb) = (exits_of(ds, effects, from), entries_of(ds, effects, to));
    let (sa, sb) = (seeds_of(timed(la, k0)), seeds_of(timed(lb, k1)));
    let x = if back0 {
        from.to_u
    } else {
        from.to_v
    };
    let y = if back1 {
        to.to_v
    } else {
        to.to_u
    };
    let i: int = if la[0] == (vs[0], x) {
        0
    } else {
        1
    };
    assert(la[i] == (vs[0], x));
    assert(timed(la, k0)[i] == (vs[0], duration(x, k0)));
    assert(sa[i] == (vs[0] as int, duration(x, k0) as int));
    let j: int = if lb[0] == (vs.last(), y) {
        0
    } else {
        1
    };
    assert(lb[j] == (vs.last(), y));
    assert(timed(lb, k1)[j] == (vs.last(), duration(y, k1)));
    assert(sb[j] == (vs.last() as int, duration(y, k1) as int));
    let n = ts.len() as int;
    lemma_ride(ds, effects, sa, duration(x, k0) as int, vs, ts, n);
    let (a, b) = (road_net(ds, effects, true), road_net(ds, effects, false));
    let total = duration(x, k0) + ride_time(ds, effects, ts, n);
    let m = choose|m: nat| walk(a, sa, vs.last() as int, total, m);
    assert(walk(a, sa, vs.last() as int, total, m));
    assert(walk(b, sb, vs.last() as int, duration(y, k1) as int, 0));
    if let Some((cost, path)) = res {
        crate::router::kept::lemma_time_kept(ds, effects, from, to, cost, path, r->0);
    }
}

/// Where both places lie on one open segment that may be driven from the one
/// towards the other, the route is that drive and nothing else.
pub proof fn lemma_straight(
    ds: Dataset,
    effects: Seq<(u32, Effect)>,
    from: Snap,
    to: Snap,
    along: Along,
    r: Option<Route>,
)
    requires
        from.seg == to.seg,
        may_leave(ds, effects, from, !along.forward),
        journey(ds, effects, from, to, along, r),
    ensures
        r matches Some(x) && {
            &&& x.legs@.len() == 1
            &&& x.legs@[0].seg == from.seg
            &&& x.legs@[0].reverse == !along.forward
            &&& x.legs@[0].len_cm == along.cm
            &&& x.dist_cm == along.cm
            &&& x.vertices@.len() == 0
            &&& x.dur_ds == duration(along.cm, end_kmh(ds, effects, from))
        },
{
}

/// The speed on part of a segment is the one that it is signed with, or that a
/// rule gives it; where a penalty slows it down, it is the one it was slowed to.
pub proof fn lemma_part_speed(ds: Dataset, effects: Seq<(u32, Effect)>, s: Snap, cm: u32)
    ensures
        match lookup(effects, s.seg) {
            Some(Effect::Speed(k)) => duration(cm, end_kmh(ds, effects, s)) == duration(cm, k),
            Some(Effect::Penalty(_)) => duration(cm, end_kmh(ds, effects, s)) == duration(
                cm,
                s.slowed_kmh,
            ),
            _ => duration(cm, end_kmh(ds, effects, s)) == duration(
                cm,
                (ds.spec_attr(s.seg as int) as int / 0x1_0000) as u16,
            ),
        },
{
}

/// Driving a segment to its end in two parts takes as long as driving the whole
/// of it, but for a tenth of a second that is lost where a part is cut off.
pub proof fn lemma_parts_add(ds: Dataset, effects: Seq<(u32, Effect)>, s: Snap)
    requires
        s.to_u + s.to_v == ds.seg_len@[s.seg as int],
        lookup(effects, s.seg) is None || lookup(effects, s.seg)->0 is Speed,
        ds.cost(effects, s.seg as int) != Some(u32::MAX),
    ensures
        ({
            let k = end_kmh(ds, effects, s);
            let parts = duration(s.to_u, k) + duration(s.to_v, k);
            ds.cost(effects, s.seg as int) matches Some(all) && parts <= all <= parts + 1
        }),
{
    let k = end_kmh(ds, effects, s);
    let d: int = (if k == 0 {
        1
    } else {
        k as int
    }) * 100;
    let (a, b) = (s.to_u * 36, s.to_v * 36);
    assert(ds.seg_len@[s.seg as int] * 36 == a + b);
    assert(a / d + b / d <= (a + b) / d <= a / d + b / d + 1) by (nonlinear_arith)
        requires
            d > 0,
            a >= 0,
            b >= 0,
    ;
    assert(a / d >= 0 && b / d >= 0) by (nonlinear_arith)
        requires
            d > 0,
            a >= 0,
            b >= 0,
    ;
}

/// A place at a vertex lies on a segment that leaves it, no way at all from that
/// end and the whole length from the other, where the vertex is; there is such a
/// place where any segment leaves.
pub proof fn lemma_at_vertex(ds: Dataset, v: u32, slowed_kmh: u16, r: Option<Snap>)
    requires
        ds.graph_ok(),
        v < ds.nv(),
        lies_at(ds, v, slowed_kmh, r),
        forall|u: u32, t: int|
            #[trigger] is_edge(ds, true, u, t) ==> ds.seg_u@[seg_of(ds.eseg@[t])] == u
                || ds.seg_v@[seg_of(ds.eseg@[t])] == u,
    ensures
        r is Some <==> exists|t: int| is_edge(ds, true, v, t),
        r matches Some(s) ==> {
            &&& s.to_u + s.to_v == ds.seg_len@[s.seg as int]
            &&& (s.u == v && s.to_u == 0) || (s.v == v && s.to_v == 0)
            &&& s.u == ds.seg_u@[s.seg as int]
            &&& s.v == ds.seg_v@[s.seg as int]
            &&& s.lat_e7 == ds.vcoord@[v as int].0
            &&& s.lon_e7 == ds.vcoord@[v as int].1
        },
{
    let t = ds.head@[v as int] as int;
    assert(ds.head@[v as int] <= ds.head@[v + 1]);
    if r is Some {
        assert(is_edge(ds, true, v, t));
    } else if exists|t: int| is_edge(ds, true, v, t) {
        let x = choose|t: int| is_edge(ds, true, v, t);
    }
}

} // verus!
