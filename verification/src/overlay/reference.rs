//! A plain search, as the yardstick the overlay is measured against.

use vstd::prelude::*;
use vstd::multiset::Multiset;
use crate::dataset::{seg_id, Dataset};
use crate::heap::{Entry, Heap};
use crate::overlay::net::road_net;
use crate::overlay::rows::{edge_head, edge_weight, far_end, relax_to};
use crate::overlay::query::OverlayRouter;
use crate::overlay::replay::{retold, Query};
use crate::overlay::search::{answered, callable, lazy, level_cap, sound_tables, Settings};
use crate::overlay::shape::Overlay;
use crate::overlay::warm::rows_stay;
use crate::overrides::{edge_ds_ov, table, Effect, Overrides};
use crate::paths::{
    arc_at, is_dist, lemma_dist_unique, lemma_finish, lemma_pop, lemma_relax, lemma_settle,
    lemma_settled_final, lemma_start, net_ok, searching, seeds_ok, total, walk, Net, UNREACHABLE,
};
use crate::searchstate::MAX_REACHED;

verus! {

pub proof fn lemma_road_ok(ds: Dataset, effects: Seq<(u32, Effect)>, fwd: bool)
    requires
        ds.graph_ok(),
    ensures
        net_ok(road_net(ds, effects, fwd)),
{
    let net = road_net(ds, effects, fwd);
    assert forall|u: int, s: int, v: int, w: int| #[trigger] arc_at(net, u, s, v, w) implies 0 <= v
        < net.n && w >= 0 by {
        let t = edge_head(ds, fwd)[u] + s;
        assert(far_end(ds, fwd, u as u32, t) < ds.nv());
    }
}

/// `done` holds every vertex nearer than `limit`, and none beyond it.
pub open spec fn settled_to(net: Net, s: int, done: Set<int>, limit: int) -> bool {
    &&& done.finite()
    &&& forall|v: int, x: u32|
        0 <= v < net.n && x < UNREACHABLE && #[trigger] is_dist(net, seq![(s, 0int)], v, x) ==> {
            &&& x < limit ==> done.contains(v)
            &&& done.contains(v) ==> x <= limit
        }
}

/// The outcome of a plain search from `s` to `t`.
pub open spec fn referred(net: Net, s: int, t: int, cost: Option<u32>, settled: int) -> bool {
    &&& cost matches Some(d) ==> d < UNREACHABLE && is_dist(net, seq![(s, 0int)], t, d)
    &&& cost is None ==> forall|d: int, n: nat|
        #[trigger] walk(net, seq![(s, 0int)], t, d, n) ==> d >= UNREACHABLE
    &&& exists|done: Set<int>|
        done.len() == settled && #[trigger] settled_to(net, s, done, limit_of(cost))
}

/// How far a plain search has looked when it ends.
pub open spec fn limit_of(cost: Option<u32>) -> int {
    match cost {
        Some(d) => d as int,
        None => UNREACHABLE as int,
    }
}

/// No entry waits twice, and none that is settled waits at its distance.
spec fn once(dist: Seq<u32>, heap: Multiset<Entry>, done: Set<int>, at: int) -> bool {
    &&& forall|e: Entry| #[trigger] heap.count(e) <= 1
    &&& forall|v: int|
        (done.contains(v) || v == at) && 0 <= v < dist.len() ==> !heap.contains(
            Entry { d: #[trigger] dist[v], v: v as u32 },
        )
    &&& done.finite()
}

pub fn reference_cost(ds: &Dataset, s: u32, t: u32) -> (r: (Option<u32>, u64))
    requires
        ds.graph_ok(),
        ds.ns() <= u32::MAX,
        ds.nv() <= u32::MAX,
        s < ds.nv(),
    ensures
        referred(road_net(*ds, table(None), true), s as int, t as int, r.0, r.1 as int),
{
    reference_cost_with(ds, None, s, t)
}

/// The same yardstick, with local overrides applied — so an overlay answer
/// that respects an override can be checked against a plain search that does.
pub fn reference_cost_with(ds: &Dataset, ovr: Option<&Overrides>, s: u32, t: u32) -> (r: (
    Option<u32>,
    u64,
))
    requires
        ds.graph_ok(),
        ds.ns() <= u32::MAX,
        ds.nv() <= u32::MAX,
        ovr matches Some(o) ==> o.wf(),
        s < ds.nv(),
    ensures
        referred(road_net(*ds, table(ovr), true), s as int, t as int, r.0, r.1 as int),
{
    let ghost eff = table(ovr);
    let ghost net = road_net(*ds, eff, true);
    let ghost seeds = seq![(s as int, 0int)];
    proof {
        lemma_road_ok(*ds, eff, true);
        assert(seeds_ok(net, seeds)) by {
            assert(seeds[0] == (s as int, 0int));
        }
    }
    let n: usize = ds.n_vertices();
    let mut dist: Vec<u32> = vec![UNREACHABLE; n];
    let mut heap: Heap<Entry> = Heap::new();
    let mut settled: u64 = 0;
    dist[s as usize] = 0;
    heap.push(Entry { d: 0, v: s });
    let ghost mut done: Set<int> = Set::empty();
    let ghost mut cur: int = 0;
    proof {
        lemma_start(net, s as int, dist@, heap@);
        assert forall|e: Entry| #[trigger] heap@.count(e) <= 1 by {}
    }
    loop
        invariant
            heap.wf(),
            searching(net, seeds, dist@, heap@, done, cur, -1, 0),
            once(dist@, heap@, done, -1),
            eff == table(ovr),
            net == road_net(*ds, eff, true),
            seeds == seq![(s as int, 0int)],
            seeds_ok(net, seeds),
            ds.graph_ok(),
            ds.ns() <= u32::MAX,
            ds.nv() <= u32::MAX,
            ovr matches Some(o) ==> o.wf(),
            n == ds.nv(),
            net.n == n,
            dist@.len() == n,
            settled == done.len(),
            settled <= n,
            !done.contains(t as int),
            forall|v: int| #[trigger] done.contains(v) ==> 0 <= v < n,
        decreases total(dist@), heap@.len(),
    {
        let ghost heap0 = heap@;
        let ghost dist0 = dist@;
        let e: Entry = match heap.pop() {
            Some(e) => e,
            None => {
                proof {
                    lemma_finish(net, seeds, dist@, heap@, done, cur);
                    assert(heap@ =~= Multiset::empty());
                    assert(settled_to(net, s as int, done, UNREACHABLE as int)) by {
                        assert forall|v: int, x: u32|
                            0 <= v < net.n && x < UNREACHABLE && #[trigger] is_dist(
                                net,
                                seeds,
                                v,
                                x,
                            ) implies done.contains(v) by {
                            lemma_dist_unique(net, seeds, v, x, dist@[v]);
                            if !done.contains(v) {
                                assert(heap@.contains(Entry { d: dist@[v], v: v as u32 }));
                            }
                        }
                    }
                    assert(settled_to(net, s as int, done, limit_of(None)));
                    assert forall|d: int, m: nat|
                        #[trigger] walk(net, seeds, t as int, d, m) implies d >= UNREACHABLE by {
                        if t < n {
                            assert(is_dist(net, seeds, t as int, dist@[t as int]));
                            if dist@[t as int] < UNREACHABLE && !done.contains(t as int) {
                                assert(heap@.contains(Entry { d: dist@[t as int], v: t }));
                            }
                        } else {
                            lemma_walk_end(net, seeds, t as int, d, m);
                        }
                    }
                }
                return (None, settled);
            },
        };
        proof {
            lemma_pop(net, seeds, dist@, heap0, done, cur, e);
            cur = e.d as int;
        }
        let u: u32 = e.v;
        let d: u32 = e.d;
        if d > dist[u as usize] {
            proof {
                assert(once(dist@, heap@, done, -1)) by {
                    assert forall|y: Entry| #[trigger] heap@.count(y) <= 1 by {
                        assert(heap0.count(y) <= 1);
                    }
                    assert forall|v: int| done.contains(v) && 0 <= v < dist@.len() implies !heap@.contains(
                        Entry { d: #[trigger] dist@[v], v: v as u32 },
                    ) by {
                        assert(!heap0.contains(Entry { d: dist@[v], v: v as u32 }));
                    }
                }
            }
            continue;
        }
        proof {
            assert(!done.contains(u as int)) by {
                assert(heap0.contains(Entry { d: dist@[u as int], v: u }));
            }
            assert(once(dist@, heap@, done, u as int)) by {
                assert forall|y: Entry| #[trigger] heap@.count(y) <= 1 by {
                    assert(heap0.count(y) <= 1);
                }
                assert(heap0.count(e) <= 1);
                assert forall|v: int|
                    (done.contains(v) || v == u) && 0 <= v < dist@.len() implies !heap@.contains(
                    Entry { d: #[trigger] dist@[v], v: v as u32 },
                ) by {
                    if v != u {
                        assert(!heap0.contains(Entry { d: dist@[v], v: v as u32 }));
                    }
                }
            }
            lemma_done_room(done.insert(u as int), n as int);
        }
        settled += 1;
        if u == t {
            proof {
                lemma_settled_final(
                    net,
                    seeds,
                    dist@,
                    heap@,
                    done,
                    cur,
                    u as int,
                    0,
                    u as int,
                );
                let all = done.insert(u as int);
                assert(settled_to(net, s as int, all, d as int)) by {
                    assert forall|v: int, x: u32|
                        0 <= v < net.n && x < UNREACHABLE && #[trigger] is_dist(
                            net,
                            seeds,
                            v,
                            x,
                        ) implies (x < d ==> all.contains(v)) && (all.contains(v) ==> x <= d) by {
                        if all.contains(v) {
                            lemma_settled_final(
                                net,
                                seeds,
                                dist@,
                                heap@,
                                done,
                                cur,
                                u as int,
                                0,
                                v,
                            );
                            lemma_dist_unique(net, seeds, v, x, dist@[v]);
                        } else if x < d {
                            let m = choose|m: nat| walk(net, seeds, v, x as int, m);
                            crate::paths::lemma_frontier(
                                net,
                                seeds,
                                dist@,
                                heap@,
                                done,
                                cur,
                                u as int,
                                0,
                                v,
                                x as int,
                                m,
                            );
                            assert(dist@[v] <= x);
                            assert(heap@.contains(Entry { d: dist@[v], v: v as u32 }));
                        }
                    }
                }
            }
            assert(settled_to(net, s as int, done.insert(u as int), limit_of(Some(d))));
            return (Some(d), settled);
        }
        let ghost head = ds.head@;
        assert(head[u + 1] <= head[head.len() - 1]);
        let (a, end): (usize, usize) = (ds.head[u as usize] as usize, ds.head[u as usize + 1] as usize);
        let ghost arcs = (net.arcs)(u as int);
        let ghost done0 = done;
        let mut k: usize = a;
        while k < end
            invariant
                heap.wf(),
                searching(net, seeds, dist@, heap@, done, cur, u as int, k - a),
                once(dist@, heap@, done, u as int),
                cur == d,
                eff == table(ovr),
                net == road_net(*ds, eff, true),
                ds.graph_ok(),
                ds.ns() <= u32::MAX,
                ds.nv() <= u32::MAX,
                ovr matches Some(o) ==> o.wf(),
                n == ds.nv(),
                net.n == n,
                u < n,
                dist@.len() == n,
                arcs == (net.arcs)(u as int),
                head == ds.head@,
                a == head[u as int],
                end == head[u + 1],
                a <= k <= end <= ds.eseg@.len(),
                total(dist@) <= total(dist0),
                total(dist@) == total(dist0) ==> dist@ == dist0 && heap@ == heap0.remove(e),
            decreases end - k,
        {
            let ghost dist1 = dist@;
            let ghost heap1 = heap@;
            let v: u32 = ds.target(u, k);
            let sid: usize = seg_id(ds.eseg[k]);
            proof {
                assert(v == far_end(*ds, true, u, k as int));
                assert(arcs[k - a] == (match edge_weight(*ds, eff, true, head[u as int] + (k - a)) {
                    Some(w) => Some(
                        (far_end(*ds, true, u, head[u as int] + (k - a)) as int, w as int),
                    ),
                    None => None,
                }));
            }
            match edge_ds_ov(ds, ovr, sid) {
                Some(w) => {
                    relax_to(&mut dist, &mut heap, d, v as usize, w);
                },
                None => {},
            }
            proof {
                lemma_relax(
                    net,
                    seeds,
                    dist1,
                    heap1,
                    done,
                    cur,
                    u as int,
                    k - a,
                    dist@,
                    heap@,
                );
                if dist@ != dist1 || heap@ != heap1 {
                    let nd = dist@[v as int];
                    assert(nd < dist1[v as int]);
                    let y = Entry { d: nd, v };
                    assert(!heap1.contains(y));
                    assert forall|z: Entry| #[trigger] heap@.count(z) <= 1 by {
                        assert(heap1.count(z) <= 1);
                    }
                    assert forall|x: int|
                        (done.contains(x) || x == u) && 0 <= x < dist@.len() implies !heap@.contains(
                        Entry { d: #[trigger] dist@[x], v: x as u32 },
                    ) by {
                        assert(!heap1.contains(Entry { d: dist1[x], v: x as u32 }));
                    }
                }
            }
            k += 1;
        }
        proof {
            lemma_settle(net, seeds, dist@, heap@, done, cur, u as int);
            done = done.insert(u as int);
        }
    }
}

/// Distinct vertices below `n` are at most `n`.
proof fn lemma_done_room(done: Set<int>, n: int)
    requires
        done.finite(),
        forall|v: int| #[trigger] done.contains(v) ==> 0 <= v < n,
        n >= 0,
    ensures
        done.len() <= n,
{
    vstd::set_lib::lemma_int_range(0, n);
    let all = vstd::set_lib::set_int_range(0, n);
    assert(done.subset_of(all));
    vstd::set_lib::lemma_len_subset(done, all);
}

/// Walks end at vertices.
proof fn lemma_walk_end(net: Net, seeds: Seq<(int, int)>, v: int, d: int, m: nat)
    requires
        net_ok(net),
        seeds_ok(net, seeds),
        walk(net, seeds, v, d, m),
    ensures
        0 <= v < net.n,
{
    if m == 0 {
        let i = choose|i: int| 0 <= i < seeds.len() && #[trigger] seeds[i] == (v, d);
        assert(0 <= seeds[i].0 < net.n);
    } else {
        let (u, s, w) = choose|u: int, s: int, w: int|
            #[trigger] arc_at(net, u, s, v, w) && walk(net, seeds, u, d - w, (m - 1) as nat);
        assert(arc_at(net, u, s, v, w));
    }
}

impl OverlayRouter {
    /// Cheapest overlay cost between two vertices, with no snapping involved.
    ///
    /// Exists so correctness can be checked against a plain search without the
    /// accounting of partial end segments in the way.
    pub fn search_vertices<F: Fn(u32, usize) -> u32>(
        &mut self,
        ds: &Dataset,
        ov: &mut Overlay,
        s: u32,
        t: u32,
        settings: &Settings,
        floor: &F,
        reach: u32,
    ) -> (r: Option<u32>)
        requires
            old(self).wf(),
            sound_tables(old(ov), *ds, table(None)),
            ds.graph_ok(),
            ds.nv() == old(ov).ladder()[0].of.len(),
            ds.nv() < MAX_REACHED,
            ds.ns() <= u32::MAX,
            s < ds.nv(),
            t < ds.nv(),
            callable(floor),
        ensures
            final(self).wf(),
            sound_tables(final(ov), *ds, table(None)),
            final(ov).ladder() == old(ov).ladder(),
            final(ov).bounds@ == old(ov).bounds@,
            rows_stay(*old(ov), *final(ov)),
            final(self).budget_bytes == old(self).budget_bytes,
            final(self).use_l2 == old(self).use_l2,
            final(self).tallied(2, lazy(*old(ov))),
            final(self).settles(),
            retold(
                *ds,
                table(None),
                (Query {
                    entries: seq![(s, 0u32)],
                    exits: seq![(t, 0u32)],
                    nlev: level_cap(
                        old(ov).ladder().len() as int,
                        old(self).use_l2,
                        settings.max_level,
                    ),
                    settings: *settings,
                    floor,
                    reach,
                }),
                *old(ov),
                *final(self),
                *final(ov),
            ),
            final(self).over_budget ==> r is None && final(self).overdrawn(old(self).budget_bytes),
            old(self).budget_bytes == usize::MAX ==> !final(self).over_budget,
            costed(
                *ds,
                table(None),
                old(ov).ladder(),
                s,
                t,
                level_cap(old(ov).ladder().len() as int, old(self).use_l2, settings.max_level),
                settings.astar,
                reach,
                floor,
                final(self).over_budget,
                r,
            ),
    {
        self.search_vertices_with(ds, None, ov, s, t, settings, floor, reach)
    }

    /// As `search_vertices`, with local overrides applied.
    pub fn search_vertices_with<F: Fn(u32, usize) -> u32>(
        &mut self,
        ds: &Dataset,
        ovr: Option<&Overrides>,
        ov: &mut Overlay,
        s: u32,
        t: u32,
        settings: &Settings,
        floor: &F,
        reach: u32,
    ) -> (r: Option<u32>)
        requires
            old(self).wf(),
            sound_tables(old(ov), *ds, table(ovr)),
            ds.graph_ok(),
            ds.nv() == old(ov).ladder()[0].of.len(),
            ds.nv() < MAX_REACHED,
            ds.ns() <= u32::MAX,
            ovr matches Some(o) ==> o.wf(),
            s < ds.nv(),
            t < ds.nv(),
            callable(floor),
        ensures
            final(self).wf(),
            sound_tables(final(ov), *ds, table(ovr)),
            final(ov).ladder() == old(ov).ladder(),
            final(ov).bounds@ == old(ov).bounds@,
            rows_stay(*old(ov), *final(ov)),
            final(self).budget_bytes == old(self).budget_bytes,
            final(self).use_l2 == old(self).use_l2,
            final(self).tallied(2, lazy(*old(ov))),
            final(self).settles(),
            retold(
                *ds,
                table(ovr),
                (Query {
                    entries: seq![(s, 0u32)],
                    exits: seq![(t, 0u32)],
                    nlev: level_cap(
                        old(ov).ladder().len() as int,
                        old(self).use_l2,
                        settings.max_level,
                    ),
                    settings: *settings,
                    floor,
                    reach,
                }),
                *old(ov),
                *final(self),
                *final(ov),
            ),
            final(self).over_budget ==> r is None && final(self).overdrawn(old(self).budget_bytes),
            old(self).budget_bytes == usize::MAX ==> !final(self).over_budget,
            costed(
                *ds,
                table(ovr),
                old(ov).ladder(),
                s,
                t,
                level_cap(old(ov).ladder().len() as int, old(self).use_l2, settings.max_level),
                settings.astar,
                reach,
                floor,
                final(self).over_budget,
                r,
            ),
    {
        let from: [(u32, u32); 1] = [(s, 0)];
        let to: [(u32, u32); 1] = [(t, 0)];
        assert(from@ =~= seq![(s, 0u32)]);
        assert(to@ =~= seq![(t, 0u32)]);
        let r: Option<(u32, Vec<u32>)> = self.seed_and_run(
            ds,
            ovr,
            ov,
            vstd::array::array_as_slice(&from),
            vstd::array::array_as_slice(&to),
            settings,
            floor,
            reach,
        );
        match r {
            Some((c, _)) => Some(c),
            None => None,
        }
    }
}

/// `cost` is what the overlay search answers between two vertices.
pub open spec fn costed<F: Fn(u32, usize) -> u32>(
    ds: Dataset,
    effects: Seq<(u32, Effect)>,
    l: crate::overlay::shape::Ladder,
    s: u32,
    t: u32,
    nlev: int,
    astar: bool,
    reach: u32,
    floor: &F,
    gave_up: bool,
    cost: Option<u32>,
) -> bool {
    exists|r: Option<(u32, Vec<u32>)>|
        {
            &&& #[trigger] answered(
                ds,
                effects,
                l,
                seq![(s, 0u32)],
                seq![(t, 0u32)],
                nlev,
                astar,
                reach,
                floor,
                gave_up,
                r,
            )
            &&& cost == (match r {
                Some((c, _)) => Some(c),
                None => None,
            })
        }
}

} // verus!
