//! A search from both ends over the plain road graph.

use vstd::prelude::*;
use crate::dataset::{seg_id, Dataset};
use crate::overlay::exact::{lemma_road_reversed, two_way};
use crate::overlay::frontier::{
    flat, front, lemma_front_pop, lemma_front_settle, lemma_measure_pop, lemma_room, light, reachable,
    seeds_in, sound, waiting, walkable, weights, Known,
};
use crate::overlay::meet::{
    both, lemma_both_fronts, lemma_both_settle, lemma_both_start, lemma_both_swap, lemma_meet,
    mirrored, no_better, reversed, settled, topped, Side,
};
use crate::overlay::net::{
    backs, earlier, lemma_trail_backs, lemma_trails_settle, road_net, trail, trails,
};
use crate::overlay::reference::lemma_road_ok;
use crate::overlay::rows::{edge_head, edge_segs, far_end};
use crate::overlay::search::{
    at_rest, honest, improved, join_trails, lemma_enter, lemma_front_empty_top, lemma_no_walk, lemma_rest_room,
    lemma_nothing_queued, lemma_same_settled, lemma_slot, nearer, outcome, routed, same_settled,
    seeded, seeds_known, side_ok, walk_back,
};
use crate::overrides::{edge_ds_ov, table, Effect, Overrides};
use crate::paths::{Net, UNREACHABLE};
use crate::searchstate::{Node, SearchState, EMPTY, MAX_REACHED};

verus! {

/// Search buffers that are used again for every query.
pub struct Router {
    /// How many vertices a dataset may have.
    pub room: usize,
    pub state0: SearchState,
    pub state1: SearchState,
    /// Vertices that the last query settled.
    pub settled: u64,
}

/// Vertices to start from, with what it costs to get there.
pub open spec fn seeds_of(s: Seq<(u32, u32)>) -> Seq<(int, int)> {
    Seq::new(s.len(), |i: int| (s[i].0 as int, s[i].1 as int))
}

proof fn lemma_road_light(ds: Dataset, effects: Seq<(u32, Effect)>, fwd: bool)
    requires
        ds.graph_ok(),
    ensures
        light(road_net(ds, effects, fwd)),
{
}

/// Enters the seeds of one side.
fn start(st: &mut SearchState, ends: &Vec<(u32, u32)>, Ghost(net): Ghost<Net>) -> (r: (
    Ghost<Map<u32, nat>>,
    Ghost<nat>,
))
    requires
        old(st).wf(),
        crate::paths::net_ok(net),
        light(net),
        net.n < MAX_REACHED,
        forall|i: int| 0 <= i < ends@.len() ==> (#[trigger] ends@[i]).0 < net.n,
    ensures
        final(st).wf(),
        honest(net, seeds_of(ends@), final(st)@, r.0@, r.1@),
        seeds_in(net, seeds_of(ends@)),
        seeds_known(seeds_of(ends@), final(st)@),
        forall|x: u32| #[trigger] final(st)@.contains_key(x) ==> final(st)@[x].queued,
        front(
            net,
            seeds_of(ends@),
            final(st)@,
            Set::empty(),
            UNREACHABLE as int,
            flat(),
            -1,
            0,
        ),
{
    st.clear();
    let ghost mut stamp: Map<u32, nat> = Map::empty();
    let ghost mut clock: nat = 0;
    let mut i: usize = 0;
    assert(seeds_of(ends@.take(0)) =~= Seq::empty());
    while i < ends.len()
        invariant
            st.wf(),
            net.n < MAX_REACHED,
            i <= ends@.len(),
            forall|j: int| 0 <= j < ends@.len() ==> (#[trigger] ends@[j]).0 < net.n,
            honest(net, seeds_of(ends@.take(i as int)), st@, stamp, clock),
            seeds_in(net, seeds_of(ends@.take(i as int))),
            seeds_known(seeds_of(ends@.take(i as int)), st@),
            forall|x: u32| #[trigger] st@.contains_key(x) ==> st@[x].queued,
            front(
                net,
                seeds_of(ends@.take(i as int)),
                st@,
                Set::empty(),
                UNREACHABLE as int,
                flat(),
                -1,
                0,
            ),
        decreases ends@.len() - i,
    {
        let (v, d): (u32, u32) = ends[i];
        let ghost m = st@;
        let ghost s0 = seeds_of(ends@.take(i as int));
        proof {
            assert(ends@[i as int].0 < net.n);
            st.lemma_order();
            lemma_room(st@, net.n);
        }
        let r: bool = st.relax(v, d, EMPTY);
        proof {
            if r {
                assert(m.insert(v, Node { dist: d, prio: d, parent: EMPTY, queued: true }) == st@);
            }
            assert(seeded(m, v, d, true, flat(), st@));
            lemma_enter(net, s0, m, stamp, clock, v, d, true, flat(), st@);
            if st@ != m {
                stamp = stamp.insert(v, clock);
                clock = clock + 1;
            }
            assert(seeds_of(ends@.take(i + 1)) =~= s0.push((v as int, d as int)));
        }
        i += 1;
    }
    assert(ends@.take(i as int) =~= ends@);
    (Ghost(stamp), Ghost(clock))
}

/// What waits is no nearer than `d`, and what is settled no further.
pub open spec fn in_order(m: Known, d: u32) -> bool {
    &&& forall|v: u32| #[trigger] m.contains_key(v) && m[v].queued ==> d <= m[v].dist
    &&& forall|v: u32| #[trigger] m.contains_key(v) && !m[v].queued ==> m[v].dist <= d
}

/// A vertex found no nearer than what is settled settles nothing anew.
proof fn lemma_kept_order(m: Known, m2: Known, v: u32, d: u32)
    requires
        in_order(m, d),
        m2 == m || (m2 == m.insert(v, m2[v]) && m2[v].queued && d <= m2[v].dist && (m.contains_key(v)
            ==> m2[v].dist < m[v].dist)),
    ensures
        in_order(m2, d),
        at_rest(m2) == at_rest(m),
{
    if m2 != m {
        assert(m2.contains_key(v));
        assert forall|x: u32| at_rest(m2).contains(x) == at_rest(m).contains(x) by {
            if x == v && m.contains_key(v) {
                assert(m[v].queued);
            }
        }
        assert(at_rest(m2) =~= at_rest(m));
    }
}

/// Settling the nearest vertex that waits settles one more.
proof fn lemma_next_order(m: Known, d0: u32, u: u32)
    requires
        in_order(m, d0),
        m.dom().finite(),
        m.contains_key(u),
        m[u].queued,
        forall|v: u32| #[trigger] m.contains_key(v) && m[v].queued ==> m[u].dist <= m[v].dist,
    ensures
        ({
            let m1 = m.insert(u, Node { queued: false, ..m[u] });
            &&& in_order(m1, m[u].dist)
            &&& at_rest(m1).len() == at_rest(m).len() + 1
        }),
{
    let m1 = m.insert(u, Node { queued: false, ..m[u] });
    assert(d0 <= m[u].dist);
    assert forall|v: u32| #[trigger] m1.contains_key(v) && m1[v].queued implies m[u].dist
        <= m1[v].dist by {
        assert(m.contains_key(v));
    }
    assert forall|v: u32| #[trigger] m1.contains_key(v) && !m1[v].queued implies m1[v].dist
        <= m[u].dist by {
        assert(m.contains_key(v));
    }
    assert(at_rest(m1) =~= at_rest(m).insert(u));
    vstd::set_lib::lemma_len_subset(at_rest(m), m.dom());
}

/// Tries every road that leaves `u`.
#[verifier::rlimit(40)]
fn expand(
    st: &mut SearchState,
    ds: &Dataset,
    ovr: Option<&Overrides>,
    u: u32,
    d: u32,
    best: u32,
    fwd: bool,
    Ghost(seeds): Ghost<Seq<(int, int)>>,
    Ghost(stamp0): Ghost<Map<u32, nat>>,
    Ghost(clock0): Ghost<nat>,
    Ghost(exact): Ghost<bool>,
) -> (r: (Ghost<Map<u32, nat>>, Ghost<nat>))
    requires
        old(st).wf(),
        ds.graph_ok(),
        ds.nv() < MAX_REACHED,
        ds.ns() <= u32::MAX,
        ovr matches Some(o) ==> o.wf(),
        u < ds.nv(),
        honest(road_net(*ds, table(ovr), fwd), seeds, old(st)@, stamp0, clock0),
        old(st)@.contains_key(u),
        old(st)@[u].dist == d,
        forall|v: u32|
            #[trigger] old(st)@.contains_key(v) ==> old(st)@[v].prio == old(st)@[v].dist,
        exact ==> front(
            road_net(*ds, table(ovr), fwd),
            seeds,
            old(st)@,
            Set::empty(),
            best as int,
            flat(),
            u as int,
            0,
        ),
    ensures
        final(st).wf(),
        honest(road_net(*ds, table(ovr), fwd), seeds, final(st)@, r.0@, r.1@),
        final(st)@.contains_key(u),
        final(st)@[u].dist == d,
        forall|v: u32|
            #[trigger] final(st)@.contains_key(v) ==> final(st)@[v].prio == final(st)@[v].dist,
        in_order(old(st)@, d) ==> in_order(final(st)@, d) && at_rest(final(st)@) == at_rest(
            old(st)@,
        ),
        exact ==> front(
            road_net(*ds, table(ovr), fwd),
            seeds,
            final(st)@,
            Set::empty(),
            best as int,
            flat(),
            -1,
            0,
        ),
        same_settled(old(st)@, final(st)@),
        exact ==> !final(st)@[u].queued,
        nearer(old(st)@, final(st)@),
        weights(final(st)@, ds.nv()) <= weights(old(st)@, ds.nv()),
        weights(final(st)@, ds.nv()) == weights(old(st)@, ds.nv()) ==> final(st)@ == old(st)@,
{
    let ghost eff = table(ovr);
    let ghost net = road_net(*ds, eff, fwd);
    let ghost arcs = (net.arcs)(u as int);
    let ghost head = edge_head(*ds, fwd);
    let ghost m0 = st@;
    let ghost mut stamp = stamp0;
    let ghost mut clock = clock0;
    let (hs, segs): (&[u32], &[u32]) = if fwd {
        (ds.head, ds.eseg)
    } else {
        (ds.rhead, ds.rseg)
    };
    assert(head[u as int] <= head[u + 1]);
    assert(head[u + 1] <= head[head.len() - 1]);
    let (a, e): (usize, usize) = (hs[u as usize] as usize, hs[u as usize + 1] as usize);
    let mut t: usize = a;
    while t < e
        invariant
            st.wf(),
            eff == table(ovr),
            ds.graph_ok(),
            ds.nv() < MAX_REACHED,
            ds.ns() <= u32::MAX,
            ovr matches Some(o) ==> o.wf(),
            net == road_net(*ds, eff, fwd),
            arcs == (net.arcs)(u as int),
            head == edge_head(*ds, fwd),
            segs@ == edge_segs(*ds, fwd),
            a == head[u as int],
            e == head[u + 1],
            a <= t <= e <= segs@.len(),
            e <= u32::MAX,
            u < ds.nv(),
            u != EMPTY,
            honest(net, seeds, st@, stamp, clock),
            st@.contains_key(u),
            st@[u].dist == d,
            forall|v: u32| #[trigger] st@.contains_key(v) ==> st@[v].prio == st@[v].dist,
            in_order(m0, d) ==> in_order(st@, d) && at_rest(st@) == at_rest(m0),
            exact ==> front(
                net,
                seeds,
                st@,
                Set::empty(),
                best as int,
                flat(),
                u as int,
                t - a,
            ),
            same_settled(m0, st@),
            nearer(m0, st@),
            weights(st@, ds.nv()) <= weights(m0, ds.nv()),
            weights(st@, ds.nv()) == weights(m0, ds.nv()) ==> st@ == m0,
        decreases e - t,
    {
        let ghost m = st@;
        let v: u32 = if fwd {
            ds.target(u, t)
        } else {
            ds.rtarget(u, t)
        };
        proof {
            assert(v == far_end(*ds, fwd, u, t as int));
            assert(v < ds.nv());
            st.lemma_order();
            lemma_room(st@, ds.nv());
        }
        let sid: usize = seg_id(segs[t]);
        match edge_ds_ov(ds, ovr, sid) {
            Some(w) => {
                let nd: u32 = d.saturating_add(w);
                if nd < best {
                    let r: bool = st.relax(v, nd, u);
                    proof {
                        if r {
                            assert(m.insert(
                                v,
                                Node { dist: nd, prio: nd, parent: u, queued: true },
                            ) == st@);
                        }
                    }
                }
                assert(improved(m, v, nd, best, u, exact, flat(), st@));
                assert(arcs[t - a] == Some((v as int, w as int)));
            },
            None => {
                assert(arcs[t - a] is None);
            },
        }
        proof {
            let r = lemma_slot(
                net,
                seeds,
                m,
                stamp,
                clock,
                Set::empty(),
                best,
                u,
                d,
                t - a,
                flat(),
                exact,
                st@,
            );
            stamp = r.0;
            clock = r.1;
            lemma_same_settled(m0, m, st@);
            if in_order(m0, d) {
                lemma_kept_order(m, st@, v, d);
            }
        }
        t += 1;
    }
    proof {
        if exact {
            lemma_front_settle(net, seeds, st@, Set::empty(), best as int, flat(), u);
        }
    }
    (Ghost(stamp), Ghost(clock))
}

/// Settles `u` on one side, expands it and counts the meeting with the other
/// side, if there is one; the best meeting so far.
#[verifier::rlimit(40)]
fn settle(
    st: &mut SearchState,
    other: &SearchState,
    ds: &Dataset,
    ovr: Option<&Overrides>,
    u: u32,
    d: u32,
    best: u32,
    fwd: bool,
    Ghost(a): Ghost<Side>,
    Ghost(b): Ghost<Side>,
    Ghost(stamp0): Ghost<Map<u32, nat>>,
    Ghost(clock0): Ghost<nat>,
    Ghost(exact): Ghost<bool>,
    Ghost(x): Ghost<Set<int>>,
) -> (r: (u32, Ghost<Side>, Ghost<Map<u32, nat>>, Ghost<nat>))
    requires
        old(st).wf(),
        other.wf(),
        ds.graph_ok(),
        ds.nv() < MAX_REACHED,
        ds.ns() <= u32::MAX,
        ovr matches Some(o) ==> o.wf(),
        a.net == road_net(*ds, table(ovr), fwd),
        a.pruned == Set::<u32>::empty(),
        a.pot == flat(),
        a.known.contains_key(u),
        a.known[u].queued,
        a.known[u].dist == d,
        forall|v: u32| #[trigger] a.known.contains_key(v) ==> a.known[v].prio == a.known[v].dist,
        old(st)@ == a.known.insert(u, (Node { queued: false, ..a.known[u] })),
        honest(a.net, a.seeds, a.known, stamp0, clock0),
        other@ == b.known,
        exact ==> both(a, b, best as int) && mirrored(a.net, a.seeds, b.net, b.seeds, x),
    ensures
        final(st).wf(),
        r.1@.net == a.net,
        r.1@.seeds == a.seeds,
        r.1@.pruned == a.pruned,
        r.1@.pot == a.pot,
        r.1@.known == final(st)@,
        forall|v: u32|
            #[trigger] final(st)@.contains_key(v) ==> final(st)@[v].prio == final(st)@[v].dist,
        honest(a.net, a.seeds, final(st)@, r.2@, r.3@),
        nearer(old(st)@, final(st)@),
        in_order(old(st)@, d) ==> in_order(final(st)@, d) && at_rest(final(st)@) == at_rest(
            old(st)@,
        ),
        exact ==> both(r.1@, b, r.0 as int),
        weights(final(st)@, ds.nv()) <= weights(old(st)@, ds.nv()),
        weights(final(st)@, ds.nv()) == weights(old(st)@, ds.nv()) ==> final(st)@ == old(st)@,
        r.0 <= best,
        r.0 != best ==> final(st)@.contains_key(u) && b.known.contains_key(u) && final(st)@[u].dist
            + b.known[u].dist == r.0,
{
    let ghost net = a.net;
    let ghost m1 = st@;
    proof {
        assert(u < ds.nv() && u != EMPTY) by {
            assert(reachable(net, a.seeds, u as int));
            lemma_in_net(net, a.seeds, a.known, stamp0, clock0, u);
        }
        lemma_trails_settle(net, a.seeds, a.known, stamp0, clock0, u);
        assert(sound(net, a.seeds, m1)) by {
            assert forall|v: u32| #[trigger] m1.contains_key(v) implies reachable(
                net,
                a.seeds,
                v as int,
            ) && (m1[v].dist < UNREACHABLE ==> walkable(net, a.seeds, v as int, m1[v].dist as int)) by {
                assert(a.known.contains_key(v));
            }
        }
        assert forall|v: u32| #[trigger] m1.contains_key(v) implies m1[v].prio == m1[v].dist by {
            assert(a.known.contains_key(v));
        }
        if exact {
            lemma_both_fronts(a, b, best as int);
            lemma_front_pop(net, a.seeds, a.known, a.pruned, best as int, a.pot, u, m1);
            assert(a.pruned.remove(u) =~= a.pruned);
        }
    }
    let (Ghost(stamp), Ghost(clock)): (Ghost<Map<u32, nat>>, Ghost<nat>) = expand(
        st,
        ds,
        ovr,
        u,
        d,
        best,
        fwd,
        Ghost(a.seeds),
        Ghost(stamp0),
        Ghost(clock0),
        Ghost(exact),
    );
    let mut best2: u32 = best;
    match other.dist_of(u) {
        Some(y) => {
            if d.saturating_add(y) < best {
                best2 = d + y;
            }
        },
        None => {},
    }
    let ghost a2 = Side { known: st@, ..a };
    proof {
        if exact {
            assert forall|v: u32|
                v != u && #[trigger] settled(a2.known, v) implies settled(a.known, v)
                && a2.known[v].dist == a.known[v].dist by {
                assert(settled(st@, v));
                assert(settled(m1, v));
            }
            assert(settled(st@, u));
            lemma_both_settle(a, b, best as int, best2 as int, u, a2, x);
        }
    }
    (best2, Ghost(a2), Ghost(stamp), Ghost(clock))
}

proof fn lemma_in_net(
    net: Net,
    seeds: Seq<(int, int)>,
    m: Known,
    stamp: Map<u32, nat>,
    clock: nat,
    u: u32,
)
    requires
        honest(net, seeds, m, stamp, clock),
        m.contains_key(u),
    ensures
        u < net.n,
{
}

/// The trail of a vertex falls all the way, so no vertex comes twice.
proof fn lemma_trail_falls(
    net: Net,
    seeds: Seq<(int, int)>,
    m: Known,
    stamp: Map<u32, nat>,
    clock: nat,
    v: u32,
)
    requires
        trails(net, seeds, m, stamp, clock),
        m.contains_key(v),
    ensures
        trail(m, stamp, v).len() >= 1,
        trail(m, stamp, v)[0] == v,
        trail(m, stamp, v).no_duplicates(),
        forall|i: int| 0 <= i < trail(m, stamp, v).len() ==> m.contains_key(#[trigger] trail(m, stamp, v)[i]),
        forall|i: int|
            1 <= i < trail(m, stamp, v).len() ==> earlier(m, stamp, #[trigger] trail(m, stamp, v)[i], v),
    decreases m[v].dist, stamp[v],
{
    let p = m[v].parent;
    let t = trail(m, stamp, v);
    if p != EMPTY {
        assert(earlier(m, stamp, p, v));
        lemma_trail_falls(net, seeds, m, stamp, clock, p);
        let r = trail(m, stamp, p);
        assert(t =~= seq![v] + r);
        assert forall|i: int| 1 <= i < t.len() implies earlier(m, stamp, #[trigger] t[i], v) by {
            assert(t[i] == r[i - 1]);
            if i > 1 {
                assert(earlier(m, stamp, r[i - 1], p));
            }
        }
        assert forall|i: int| 0 <= i < t.len() implies m.contains_key(#[trigger] t[i]) by {
            if i > 0 {
                assert(t[i] == r[i - 1]);
            }
        }
        assert forall|i: int, j: int| 0 <= i < t.len() && 0 <= j < t.len() && i != j implies t[i]
            != t[j] by {
            if i == 0 {
                assert(earlier(m, stamp, t[j], v));
            } else if j == 0 {
                assert(earlier(m, stamp, t[i], v));
            } else {
                assert(t[i] == r[i - 1] && t[j] == r[j - 1]);
            }
        }
    }
}

proof fn lemma_trail_len(
    st: &SearchState,
    net: Net,
    seeds: Seq<(int, int)>,
    stamp: Map<u32, nat>,
    clock: nat,
    v: u32,
)
    requires
        st.wf(),
        honest(net, seeds, st@, stamp, clock),
        st@.contains_key(v),
    ensures
        trail(st@, stamp, v).len() <= net.n,
{
    let m = st@;
    lemma_trail_falls(net, seeds, m, stamp, clock, v);
    let t = trail(m, stamp, v);
    st.lemma_order();
    lemma_room(m, net.n);
    t.unique_seq_to_set();
    assert(t.to_set().subset_of(m.dom())) by {
        assert forall|x: u32| t.to_set().contains(x) implies m.dom().contains(x) by {
            let i = t.index_of(x);
            assert(m.contains_key(t[i]));
        }
    }
    assert(m.dom().len() <= net.n);
    vstd::set_lib::lemma_len_subset(t.to_set(), m.dom());
    assert(t.to_set().len() == t.len());
}

/// What a query from `entries` to `exits` comes to: a cheapest way between them
/// over the roads, or that there is none.
pub open spec fn found(
    ds: Dataset,
    effects: Seq<(u32, Effect)>,
    entries: Seq<(u32, u32)>,
    exits: Seq<(u32, u32)>,
    r: Option<(u32, Vec<u32>)>,
) -> bool {
    outcome(
        road_net(ds, effects, true),
        seeds_of(entries),
        road_net(ds, effects, false),
        seeds_of(exits),
        two_way(ds),
        0,
        r,
    )
}

impl Router {
    pub open spec fn wf(&self) -> bool {
        self.state0.wf() && self.state1.wf()
    }

    /// What was settled on either side was counted, and once.
    pub open spec fn settles(&self) -> bool {
        self.settled == at_rest(self.state0@).len() + at_rest(self.state1@).len()
    }

    /// Buffers for a dataset of up to `n` vertices.
    pub fn new(n: usize) -> (r: Router)
        ensures
            r.wf(),
            r.room == n,
            r.settled == 0,
    {
        Router { room: n, state0: SearchState::new(), state1: SearchState::new(), settled: 0 }
    }

    /// Searches from both ends until no better meeting can come.
    #[verifier::rlimit(80)]
    #[verifier::spinoff_prover]
    pub fn run(
        &mut self,
        ds: &Dataset,
        ovr: Option<&Overrides>,
        entries: &Vec<(u32, u32)>,
        exits: &Vec<(u32, u32)>,
    ) -> (r: Option<(u32, Vec<u32>)>)
        requires
            old(self).wf(),
            ds.graph_ok(),
            ds.nv() < MAX_REACHED,
            ds.ns() <= u32::MAX,
            ovr matches Some(o) ==> o.wf(),
            forall|i: int| 0 <= i < entries@.len() ==> (#[trigger] entries@[i]).0 < ds.nv(),
            forall|i: int| 0 <= i < exits@.len() ==> (#[trigger] exits@[i]).0 < ds.nv(),
        ensures
            final(self).wf(),
            final(self).room == old(self).room,
            final(self).settles(),
            found(*ds, table(ovr), entries@, exits@, r),
            r matches Some((_, path)) ==> 1 <= path@.len() <= 2 * ds.nv() && forall|i: int|
                0 <= i < path@.len() ==> (#[trigger] path@[i]) < ds.nv(),
    {
        let ghost eff = table(ovr);
        let ghost net0 = road_net(*ds, eff, true);
        let ghost net1 = road_net(*ds, eff, false);
        let ghost sa = seeds_of(entries@);
        let ghost sb = seeds_of(exits@);
        let ghost exact = two_way(*ds);
        let ghost x = Set::new(|v: int| true);
        self.settled = 0;
        proof {
            lemma_road_ok(*ds, eff, true);
            lemma_road_ok(*ds, eff, false);
            lemma_road_light(*ds, eff, true);
            lemma_road_light(*ds, eff, false);
            if exact {
                lemma_road_reversed(*ds, eff, true);
                lemma_road_reversed(*ds, eff, false);
                assert(reversed(net0, net1, x));
                assert(reversed(net1, net0, x));
                assert(mirrored(net0, sa, net1, sb, x));
            }
        }
        let (Ghost(mut stamp0), Ghost(mut clock0)): (Ghost<Map<u32, nat>>, Ghost<nat>) = start(
            &mut self.state0,
            entries,
            Ghost(net0),
        );
        let (Ghost(mut stamp1), Ghost(mut clock1)): (Ghost<Map<u32, nat>>, Ghost<nat>) = start(
            &mut self.state1,
            exits,
            Ghost(net1),
        );
        let ghost mut a = Side {
            net: net0,
            seeds: sa,
            known: self.state0@,
            pruned: Set::empty(),
            pot: flat(),
        };
        let ghost mut b = Side {
            net: net1,
            seeds: sb,
            known: self.state1@,
            pruned: Set::empty(),
            pot: flat(),
        };
        proof {
            lemma_both_start(a, b, UNREACHABLE as int);
            assert(at_rest(self.state0@) =~= Set::empty());
            assert(at_rest(self.state1@) =~= Set::empty());
            lemma_front_empty_top(&self.state0);
            lemma_front_empty_top(&self.state1);
            assert forall|v: u32| #[trigger] self.state0@.contains_key(v) implies self.state0@[v].prio
                == self.state0@[v].dist by {}
            assert forall|v: u32| #[trigger] self.state1@.contains_key(v) implies self.state1@[v].prio
                == self.state1@[v].dist by {}
        }
        if self.state0.peek().is_none() || self.state1.peek().is_none() {
            proof {
                lemma_nothing_queued(&self.state0);
                lemma_nothing_queued(&self.state1);
                if sa.len() == 0 {
                    lemma_no_walk(net0, sa);
                } else if sb.len() == 0 {
                    lemma_no_walk(net1, sb);
                } else {
                    assert(self.state0@.contains_key(sa[0].0 as u32));
                    assert(self.state1@.contains_key(sb[0].0 as u32));
                    assert(self.state0@.dom().contains(sa[0].0 as u32));
                    assert(self.state1@.dom().contains(sb[0].0 as u32));
                    self.state0.lemma_order();
                    self.state1.lemma_order();
                    vstd::set_lib::lemma_set_empty_equivalency_len(self.state0@.dom());
                    vstd::set_lib::lemma_set_empty_equivalency_len(self.state1@.dom());
                }
            }
            return None;
        }
        let mut best: u32 = UNREACHABLE;
        let mut meet: u32 = EMPTY;
        let ghost mut cur0: u32 = 0;
        let ghost mut cur1: u32 = 0;
        loop
            invariant
                self.room == old(self).room,
                eff == table(ovr),
                ds.graph_ok(),
                ds.nv() < MAX_REACHED,
                ds.ns() <= u32::MAX,
                ovr matches Some(o) ==> o.wf(),
                net0 == road_net(*ds, eff, true),
                net1 == road_net(*ds, eff, false),
                net0.n == ds.nv(),
                net1.n == ds.nv(),
                side_ok(a, &self.state0, net0, stamp0, clock0),
                side_ok(b, &self.state1, net1, stamp1, clock1),
                a.seeds == sa,
                b.seeds == sb,
                a.pruned == Set::<u32>::empty(),
                b.pruned == Set::<u32>::empty(),
                a.pot == flat(),
                b.pot == flat(),
                forall|v: u32|
                    #[trigger] self.state0@.contains_key(v) ==> self.state0@[v].prio
                        == self.state0@[v].dist,
                forall|v: u32|
                    #[trigger] self.state1@.contains_key(v) ==> self.state1@[v].prio
                        == self.state1@[v].dist,
                self.settles(),
                in_order(self.state0@, cur0),
                in_order(self.state1@, cur1),
                exact ==> mirrored(net0, sa, net1, sb, x),
                exact ==> both(a, b, best as int),
                meet == EMPTY <==> best == UNREACHABLE,
                meet != EMPTY ==> self.state0@.contains_key(meet) && self.state1@.contains_key(meet)
                    && self.state0@[meet].dist + self.state1@[meet].dist <= best,
            ensures
                exact ==> no_better(net0, sa, net1, sb, best as int),
            decreases
                    weights(self.state0@, ds.nv()) + weights(self.state1@, ds.nv()),
                    waiting(self.state0@).len() + waiting(self.state1@).len(),
        {
            let tf: u32 = match self.state0.peek() {
                Some(p) => p,
                None => UNREACHABLE,
            };
            let tb: u32 = match self.state1.peek() {
                Some(p) => p,
                None => UNREACHABLE,
            };
            proof {
                lemma_front_empty_top(&self.state0);
                lemma_front_empty_top(&self.state1);
                self.state0.lemma_order();
                self.state1.lemma_order();
            }
            if (tf == UNREACHABLE && tb == UNREACHABLE) || tf.saturating_add(tb) >= best {
                proof {
                    if exact {
                        lemma_both_fronts(a, b, best as int);
                        let tops: (int, int) = (
                            if self.state0.order().len() > 0 {
                                tf as int
                            } else {
                                UNREACHABLE as int
                            },
                            if self.state1.order().len() > 0 {
                                tb as int
                            } else {
                                UNREACHABLE as int
                            },
                        );
                        assert(topped(a, tops.0)) by {
                            assert forall|v: u32|
                                #[trigger] a.known.contains_key(v)
                                    && a.known[v].queued implies a.known[v].dist + (a.pot)(v)
                                >= tops.0 by {
                                assert(self.state0@.contains_key(v));
                            }
                        }
                        assert(topped(b, tops.1)) by {
                            assert forall|v: u32|
                                #[trigger] b.known.contains_key(v)
                                    && b.known[v].queued implies b.known[v].dist + (b.pot)(v)
                                >= tops.1 by {
                                assert(self.state1@.contains_key(v));
                            }
                        }
                        lemma_meet(a, b, best as int, x, tops, 0, best as int);
                    }
                }
                break;
            }
            let ahead: bool = tf <= tb;
            let popped: Option<(u32, u32)> = if ahead {
                self.state0.pop()
            } else {
                self.state1.pop()
            };
            assert(popped is Some);
            let (u, d): (u32, u32) = match popped {
                Some(p) => p,
                None => {
                    break;
                },
            };
            proof {
                if ahead {
                    lemma_measure_pop(a.known, ds.nv(), u);
                    lemma_next_order(a.known, cur0, u);
                    cur0 = d;
                } else {
                    lemma_measure_pop(b.known, ds.nv(), u);
                    lemma_next_order(b.known, cur1, u);
                    cur1 = d;
                }
                lemma_rest_room(&self.state0, ds.nv());
                lemma_rest_room(&self.state1, ds.nv());
            }
            self.settled = self.settled.saturating_add(1);
            let ghost (m0, m1) = (self.state0@, self.state1@);
            let best2: u32;
            if ahead {
                let (b2, Ghost(a2), Ghost(st2), Ghost(cl2)): (
                    u32,
                    Ghost<Side>,
                    Ghost<Map<u32, nat>>,
                    Ghost<nat>,
                ) = settle(
                    &mut self.state0,
                    &self.state1,
                    ds,
                    ovr,
                    u,
                    d,
                    best,
                    true,
                    Ghost(a),
                    Ghost(b),
                    Ghost(stamp0),
                    Ghost(clock0),
                    Ghost(exact),
                    Ghost(x),
                );
                best2 = b2;
                proof {
                    a = a2;
                    stamp0 = st2;
                    clock0 = cl2;
                }
            } else {
                proof {
                    if exact {
                        lemma_both_swap(a, b, best as int);
                        assert(mirrored(net1, sb, net0, sa, x));
                    }
                }
                let (b2, Ghost(s2), Ghost(st2), Ghost(cl2)): (
                    u32,
                    Ghost<Side>,
                    Ghost<Map<u32, nat>>,
                    Ghost<nat>,
                ) = settle(
                    &mut self.state1,
                    &self.state0,
                    ds,
                    ovr,
                    u,
                    d,
                    best,
                    false,
                    Ghost(b),
                    Ghost(a),
                    Ghost(stamp1),
                    Ghost(clock1),
                    Ghost(exact),
                    Ghost(x),
                );
                best2 = b2;
                proof {
                    b = s2;
                    stamp1 = st2;
                    clock1 = cl2;
                    if exact {
                        lemma_both_swap(b, a, best2 as int);
                    }
                }
            }
            proof {
                if meet != EMPTY {
                    assert(m0.contains_key(meet) && m1.contains_key(meet));
                }
            }
            if best2 != best {
                best = best2;
                meet = u;
                proof {
                    if ahead {
                        lemma_in_net(net0, sa, self.state0@, stamp0, clock0, u);
                    } else {
                        lemma_in_net(net1, sb, self.state1@, stamp1, clock1, u);
                    }
                }
            }
        }
        if meet == EMPTY {
            return None;
        }
        let p: Vec<u32> = walk_back(
            &self.state0,
            meet,
            Ghost(net0),
            Ghost(sa),
            Ghost(stamp0),
            Ghost(clock0),
        );
        let q: Vec<u32> = walk_back(
            &self.state1,
            meet,
            Ghost(net1),
            Ghost(sb),
            Ghost(stamp1),
            Ghost(clock1),
        );
        proof {
            lemma_trail_backs(net0, sa, self.state0@, stamp0, clock0, meet);
            lemma_trail_backs(net1, sb, self.state1@, stamp1, clock1, meet);
            lemma_trail_falls(net0, sa, self.state0@, stamp0, clock0, meet);
            lemma_trail_falls(net1, sb, self.state1@, stamp1, clock1, meet);
            lemma_trail_len(&self.state0, net0, sa, stamp0, clock0, meet);
            lemma_trail_len(&self.state1, net1, sb, stamp1, clock1, meet);
        }
        let path: Vec<u32> = join_trails(&p, &q);
        proof {
            assert(backs(net0, sa, p@, self.state0@[meet].dist as int));
            assert(backs(net1, sb, q@, self.state1@[meet].dist as int));
            assert(routed(net0, sa, net1, sb, path@, best as int));
            assert forall|i: int| 0 <= i < path@.len() implies (#[trigger] path@[i]) < ds.nv() by {
                if i < p@.len() {
                    assert(path@[i] == p@[p@.len() - 1 - i]);
                    lemma_in_net(net0, sa, self.state0@, stamp0, clock0, path@[i]);
                } else {
                    assert(path@[i] == q@[i - p@.len() + 1]);
                    lemma_in_net(net1, sb, self.state1@, stamp1, clock1, path@[i]);
                }
            }
        }
        Some((best, path))
    }
}

} // verus!
