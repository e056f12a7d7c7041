//! The overlay search.

use vstd::prelude::*;
use crate::dataset::{seg_id, Dataset};
use crate::overlay::frontier::{
    flat, front, light, lemma_front_dry, lemma_front_pop, lemma_front_relax, lemma_front_seed,
    lemma_front_settle, lemma_measure_pop, lemma_room, lemma_weights_insert, reachable, seeds_in,
    slot_step, sound, waiting, weights, Known,
};
use crate::overlay::net::{
    inside_arc, inside_net, lemma_trails_more, lemma_trails_relax, lemma_trails_seed,
    lemma_trails_settle, trails,
};
use crate::overlay::rows::{edge_head, edge_segs, far_end};
use crate::overlay::search::honest;
use crate::overlay::shape::{cell_at, gates, lemma_rung, regions, Ladder, Overlay};
use crate::overrides::{edge_ds_ov, table, Effect, Overrides};
use crate::paths::{arc_at, is_dist, net_ok, walk, Net};
use crate::searchstate::{Node, SearchState, EMPTY, MAX_REACHED};

verus! {

/// A cost no search can reach.
pub const NEVER: u64 = 0x1_0000_0000_0000;

/// The sources that stand in region `c`.
pub open spec fn kept_seeds(l: Ladder, c: int, sources: Seq<(u32, u32)>, n: int) -> Seq<(int, int)>
    decreases n,
{
    if n <= 0 {
        Seq::empty()
    } else {
        let (v, d) = sources[n - 1];
        let before = kept_seeds(l, c, sources, n - 1);
        if cell_at(l, 0, v as int) == c {
            before.push((v as int, d as int))
        } else {
            before
        }
    }
}

proof fn lemma_inside_ok(
    ds: Dataset,
    effects: Seq<(u32, Effect)>,
    l: Ladder,
    k: int,
    c: int,
    fwd: bool,
)
    requires
        ds.graph_ok(),
    ensures
        net_ok(inside_net(ds, effects, l, k, c, fwd)),
        light(inside_net(ds, effects, l, k, c, fwd)),
{
    let net = inside_net(ds, effects, l, k, c, fwd);
    assert forall|u: int, s: int, v: int, w: int| #[trigger] arc_at(net, u, s, v, w) implies 0 <= v
        < net.n && 0 <= w <= u32::MAX by {
        let t = edge_head(ds, fwd)[u] + s;
        assert((net.arcs)(u)[s] == inside_arc(ds, effects, l, k, c, fwd, u as u32, t));
        assert(far_end(ds, fwd, u as u32, t) < ds.nv());
    }
}

/// Everything known stands in region `c`.
pub open spec fn within(l: Ladder, m: Known, c: int) -> bool {
    forall|x: u32| #[trigger] m.contains_key(x) ==> cell_at(l, 0, x as int) == c
}

pub struct OverlayRouter {
    /// Refuse rather than grow past this many bytes of search state.
    pub budget_bytes: usize,
    pub state0: SearchState,
    pub state1: SearchState,
    /// Scratch for the searches inside one region.
    pub lstate: SearchState,
    pub settled: u64,
    pub regions_entered: u64,
    /// How many settles were answered from a table above level 0.
    pub regions2_entered: u64,
    /// Settles dropped by the geometric bound before doing any work for them.
    pub pruned: u64,
    /// Prefetch batches, and the rows they filled.
    pub batches: u64,
    pub batch_rows: u64,
    /// Rows the search still had to fill one by one.
    pub late_rows: u64,
    /// Set when the last search stopped because it would have exceeded
    /// `budget_bytes`.
    pub over_budget: bool,
    /// Whether to use the levels above the first when the dataset has them.
    pub use_l2: bool,
}

impl Default for OverlayRouter {
    fn default() -> (r: OverlayRouter)
        ensures
            r.wf(),
            r.budget_bytes == usize::MAX,
            r.use_l2,
            r.state0@ == Map::<u32, Node>::empty(),
            r.state1@ == Map::<u32, Node>::empty(),
    {
        OverlayRouter::new()
    }
}

impl OverlayRouter {
    pub open spec fn wf(&self) -> bool {
        self.state0.wf() && self.state1.wf() && self.lstate.wf()
    }

    pub fn new() -> (r: OverlayRouter)
        ensures
            r.wf(),
            r.budget_bytes == usize::MAX,
            r.settled == 0,
            r.regions_entered == 0,
            r.regions2_entered == 0,
            r.pruned == 0,
            r.batches == 0,
            r.batch_rows == 0,
            r.late_rows == 0,
            !r.over_budget,
            r.use_l2,
            r.state0@ == Map::<u32, Node>::empty(),
            r.state1@ == Map::<u32, Node>::empty(),
    {
        OverlayRouter {
            budget_bytes: usize::MAX,
            state0: SearchState::new(),
            state1: SearchState::new(),
            lstate: SearchState::new(),
            settled: 0,
            regions_entered: 0,
            regions2_entered: 0,
            pruned: 0,
            batches: 0,
            batch_rows: 0,
            late_rows: 0,
            over_budget: false,
            use_l2: true,
        }
    }
}

/// All that `seeds` lead to is known, at its distance, with its trail.
pub open spec fn flooded(
    net: Net,
    seeds: Seq<(int, int)>,
    m: Known,
    stamp: Map<u32, nat>,
    clock: nat,
) -> bool {
    &&& honest(net, seeds, m, stamp, clock)
    &&& forall|v: int, d: int, n: nat|
        #[trigger] walk(net, seeds, v, d, n) ==> 0 <= v < net.n && m.contains_key(v as u32) && m[
            v as u32
        ].dist <= d
}

/// Dijkstra confined to one region, from those of `sources` that stand in it,
/// until nothing waits.
pub(crate) fn flood(
    st: &mut SearchState,
    ds: &Dataset,
    ovr: Option<&Overrides>,
    ov: &Overlay,
    c: u32,
    sources: &[(u32, u32)],
    fwd: bool,
) -> (r: (Ghost<Map<u32, nat>>, Ghost<nat>))
    requires
        old(st).wf(),
        ov.wf(),
        ov.ladder().len() >= 1,
        ds.graph_ok(),
        ds.nv() == ov.ladder()[0].of.len(),
        ds.nv() < MAX_REACHED,
        ds.ns() <= u32::MAX,
        ovr matches Some(o) ==> o.wf(),
        c < regions(ov.ladder()[0]),
        forall|i: int| 0 <= i < sources@.len() ==> (#[trigger] sources@[i]).0 < ds.nv(),
    ensures
        final(st).wf(),
        flooded(
            inside_net(*ds, table(ovr), ov.ladder(), 0, c as int, fwd),
            kept_seeds(ov.ladder(), c as int, sources@, sources@.len() as int),
            final(st)@,
            r.0@,
            r.1@,
        ),
{
    let ghost l = ov.ladder();
    let ghost eff = table(ovr);
    let ghost net = inside_net(*ds, eff, l, 0, c as int, fwd);
    proof {
        lemma_inside_ok(*ds, eff, l, 0, c as int, fwd);
        crate::overlay::shape::lemma_rung(l, 0);
    }
    st.clear();
    let ghost mut seeds: Seq<(int, int)> = Seq::empty();
    let ghost mut stamp: Map<u32, nat> = Map::empty();
    let ghost mut clock: nat = 0;
    let mut i: usize = 0;
    while i < sources.len()
        invariant
            st.wf(),
            ov.wf(),
            l == ov.ladder(),
            ds.nv() == l[0].of.len(),
            ds.nv() < MAX_REACHED,
            net.n == ds.nv(),
            net_ok(net),
            i <= sources@.len(),
            forall|x: int| 0 <= x < sources@.len() ==> (#[trigger] sources@[x]).0 < ds.nv(),
            seeds == kept_seeds(l, c as int, sources@, i as int),
            seeds_in(net, seeds),
            front(net, seeds, st@, Set::empty(), NEVER as int, flat(), -1, 0),
            trails(net, seeds, st@, stamp, clock),
            forall|x: u32| #[trigger] st@.contains_key(x) ==> st@[x].queued,
            within(l, st@, c as int),
            l.len() >= 1,
        decreases sources@.len() - i,
    {
        let (v, c0): (u32, u32) = sources[i];
        if ov.cell(v) == c {
            let ghost m = st@;
            proof {
                st.lemma_order();
                lemma_room(st@, ds.nv());
            }
            st.relax(v, c0, EMPTY);
            proof {
                lemma_front_seed(net, seeds, m, NEVER as int, flat(), v, c0, st@);
                if st@ != m {
                    lemma_trails_seed(net, seeds, m, stamp, clock, v, c0, st@[v]);
                    assert(st@ =~= m.insert(v, st@[v]));
                    stamp = stamp.insert(v, clock);
                    clock = clock + 1;
                } else {
                    lemma_trails_more(net, seeds, m, stamp, clock, v, c0);
                }
                seeds = seeds.push((v as int, c0 as int));
            }
        }
        i += 1;
    }
    loop
        invariant_except_break
            front(net, seeds, st@, Set::empty(), NEVER as int, flat(), -1, 0),
        invariant
            st.wf(),
            ov.wf(),
            l == ov.ladder(),
            eff == table(ovr),
            net == inside_net(*ds, eff, l, 0, c as int, fwd),
            ds.graph_ok(),
            ds.nv() == l[0].of.len(),
            ds.nv() < MAX_REACHED,
            ds.ns() <= u32::MAX,
            ovr matches Some(o) ==> o.wf(),
            l.len() >= 1,
            within(l, st@, c as int),
            trails(net, seeds, st@, stamp, clock),
        ensures
            front(net, seeds, st@, Set::empty(), NEVER as int, flat(), -1, 0),
            trails(net, seeds, st@, stamp, clock),
            forall|x: u32| #[trigger] st@.contains_key(x) ==> !st@[x].queued,
        decreases weights(st@, ds.nv()), waiting(st@).len(),
    {
        let ghost m0 = st@;
        let ghost o0 = st.order();
        proof {
            st.lemma_order();
        }
        let (u, d): (u32, u32) = match st.pop() {
            Some(x) => x,
            None => {
                proof {
                    assert forall|x: u32| #[trigger] st@.contains_key(x) implies !st@[x].queued by {
                        if st@[x].queued {
                            assert(o0.contains(x));
                        }
                    }
                }
                break;
            },
        };
        proof {
            assert(o0.contains(u));
            lemma_front_pop(net, seeds, m0, Set::empty(), NEVER as int, flat(), u, st@);
            assert(Set::<u32>::empty().remove(u) =~= Set::empty());
            lemma_trails_settle(net, seeds, m0, stamp, clock, u);
            lemma_measure_pop(m0, ds.nv(), u);
        }
        let ghost head = edge_head(*ds, fwd);
        let (hs, segs): (&[u32], &[u32]) = if fwd {
            (ds.head, ds.eseg)
        } else {
            (ds.rhead, ds.rseg)
        };
        assert(head[u + 1] <= head[head.len() - 1]);
        let (a, e): (usize, usize) = (hs[u as usize] as usize, hs[u as usize + 1] as usize);
        let ghost arcs = (net.arcs)(u as int);
        let ghost m1 = st@;
        let mut t: usize = a;
        while t < e
            invariant
                st.wf(),
                ov.wf(),
                l == ov.ladder(),
                eff == table(ovr),
                net == inside_net(*ds, eff, l, 0, c as int, fwd),
                ds.graph_ok(),
                ds.nv() == l[0].of.len(),
                ds.nv() < MAX_REACHED,
                ds.ns() <= u32::MAX,
                ovr matches Some(o) ==> o.wf(),
                l.len() >= 1,
                within(l, st@, c as int),
                u < ds.nv(),
                st@.contains_key(u),
                st@[u].dist == d,
                u != EMPTY,
                trails(net, seeds, st@, stamp, clock),
                cell_at(l, 0, u as int) == c,
                head == edge_head(*ds, fwd),
                segs@ == edge_segs(*ds, fwd),
                arcs == (net.arcs)(u as int),
                a == head[u as int],
                e == head[u + 1],
                a <= t <= e <= segs@.len(),
                e <= u32::MAX,
                front(net, seeds, st@, Set::empty(), NEVER as int, flat(), u as int, t - a),
                weights(st@, ds.nv()) <= weights(m1, ds.nv()),
                weights(st@, ds.nv()) == weights(m1, ds.nv()) ==> st@ == m1,
            decreases e - t,
        {
            let v: u32 = if fwd {
                ds.target(u, t)
            } else {
                ds.rtarget(u, t)
            };
            assert(v == far_end(*ds, fwd, u, t as int));
            assert(v < ds.nv());
            assert(arcs[t - a] == inside_arc(
                *ds,
                eff,
                l,
                0,
                c as int,
                fwd,
                u,
                head[u as int] + (t - a),
            ));
            let ghost m = st@;
            proof {
                st.lemma_order();
                lemma_room(st@, ds.nv());
            }
            if ov.cell(v) == c {
                let sid: usize = seg_id(segs[t]);
                match edge_ds_ov(ds, ovr, sid) {
                    Some(w) => {
                        let nd: u32 = d.saturating_add(w);
                        st.relax(v, nd, u);
                        proof {
                            if st@ != m {
                                lemma_weights_insert(m, ds.nv(), v, st@[v]);
                                assert(arc_at(net, u as int, t - a, v as int, w as int));
                                lemma_trails_relax(
                                    net,
                                    seeds,
                                    m,
                                    stamp,
                                    clock,
                                    u,
                                    v,
                                    t - a,
                                    w as int,
                                    st@[v],
                                );
                                assert(st@ =~= m.insert(v, st@[v]));
                                stamp = stamp.insert(v, clock);
                                clock = clock + 1;
                            }
                        }
                    },
                    None => {},
                }
            }
            proof {
                assert(slot_step(net, m, NEVER as int, flat(), u, d, t - a, st@));
                lemma_front_relax(net, seeds, m, Set::empty(), NEVER as int, flat(), u, t - a, st@);
            }
            t += 1;
        }
        proof {
            lemma_front_settle(net, seeds, st@, Set::empty(), NEVER as int, flat(), u);
        }
    }
    proof {
        lemma_front_dry(net, seeds, st@, NEVER as int, flat());
    }
    (Ghost(stamp), Ghost(clock))
}

/// Dijkstra confined to one region, from `sources`, returning the cost to
/// each of the region's boundary vertices that can be reached.
pub fn local(
    st: &mut SearchState,
    ds: &Dataset,
    ovr: Option<&Overrides>,
    ov: &Overlay,
    c: u32,
    sources: &[(u32, u32)],
    fwd: bool,
) -> (out: Vec<(u32, u32)>)
    requires
        old(st).wf(),
        ov.wf(),
        ov.ladder().len() >= 1,
        ds.graph_ok(),
        ds.nv() == ov.ladder()[0].of.len(),
        ds.nv() < MAX_REACHED,
        ds.ns() <= u32::MAX,
        ovr matches Some(o) ==> o.wf(),
        c < regions(ov.ladder()[0]),
        forall|i: int| 0 <= i < sources@.len() ==> (#[trigger] sources@[i]).0 < ds.nv(),
    ensures
        final(st).wf(),
        local_costs(
            *ds,
            table(ovr),
            ov.ladder(),
            c as int,
            kept_seeds(ov.ladder(), c as int, sources@, sources@.len() as int),
            fwd,
            gates(ov.ladder()[0], c as int).len() as int,
            out@,
        ),
{
    let ghost l = ov.ladder();
    let ghost eff = table(ovr);
    let ghost net = inside_net(*ds, eff, l, 0, c as int, fwd);
    let ghost seeds = kept_seeds(l, c as int, sources@, sources@.len() as int);
    proof {
        crate::overlay::shape::lemma_rung(l, 0);
        assert forall|x: int| 0 <= x < gates(l[0], c as int).len() implies (#[trigger] gates(
            l[0],
            c as int,
        )[x]) < ds.nv() by {
            assert(l[0].bnd[l[0].bhead[c as int] + x] == gates(l[0], c as int)[x]);
        }
    }
    flood(st, ds, ovr, ov, c, sources, fwd);
    let bl: &[u32] = ov.boundary(c);
    let ghost g = gates(l[0], c as int);
    let mut out: Vec<(u32, u32)> = Vec::new();
    let mut j: usize = 0;
    while j < bl.len()
        invariant
            st.wf(),
            bl@ == g,
            g == gates(l[0], c as int),
            net == inside_net(*ds, eff, l, 0, c as int, fwd),
            forall|x: int| 0 <= x < g.len() ==> (#[trigger] g[x]) < ds.nv(),
            net.n == ds.nv(),
            ds.nv() < MAX_REACHED,
            sound(net, seeds, st@),
            net_ok(net),
            forall|v: int, d: int, n: nat|
                #[trigger] walk(net, seeds, v, d, n) ==> 0 <= v < net.n
                    && st@.contains_key(v as u32) && st@[v as u32].dist <= d,
            j <= g.len(),
            local_costs(*ds, eff, l, c as int, seeds, fwd, j as int, out@),
        decreases g.len() - j,
    {
        let b: u32 = bl[j];
        assert(g[j as int] < ds.nv());
        let ghost out0 = out@;
        match st.dist_of(b) {
            Some(d) => {
                out.push((b, d));
                assert(is_dist(net, seeds, b as int, d));
                assert(reachable(net, seeds, b as int));
            },
            None => {},
        }
        proof {
            assert(far_from(net, seeds, b) == !st@.contains_key(b));
            if st@.contains_key(b) {
                assert(out@.drop_last() =~= out0);
            }
        }
        j += 1;
    }
    out
}

/// The first `n` gates of region `c` that can be reached from `seeds` inside
/// it, in order, with their distances.
pub open spec fn local_costs(
    ds: Dataset,
    effects: Seq<(u32, Effect)>,
    l: Ladder,
    c: int,
    seeds: Seq<(int, int)>,
    fwd: bool,
    n: int,
    out: Seq<(u32, u32)>,
) -> bool
    decreases n,
{
    let net = inside_net(ds, effects, l, 0, c, fwd);
    if n <= 0 {
        out == Seq::<(u32, u32)>::empty()
    } else {
        let b = gates(l[0], c)[n - 1];
        if far_from(net, seeds, b) {
            local_costs(ds, effects, l, c, seeds, fwd, n - 1, out)
        } else {
            &&& out.len() > 0
            &&& out.last().0 == b
            &&& is_dist(net, seeds, b as int, out.last().1)
            &&& local_costs(ds, effects, l, c, seeds, fwd, n - 1, out.drop_last())
        }
    }
}

/// No walk leads to `b` from any seed.
pub open spec fn far_from(net: Net, seeds: Seq<(int, int)>, b: u32) -> bool {
    !reachable(net, seeds, b as int)
}

} // verus!
