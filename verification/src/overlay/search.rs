//! The overlay search: two fronts over shortcuts and the edges between
//! regions.

use vstd::prelude::*;
use crate::dataset::{seg_id, Dataset};
use crate::overlay::frontier::{
    front, lemma_front_pop, lemma_front_relax, lemma_front_seed, lemma_front_settle,
    lemma_measure_pop, lemma_room, lemma_weights_insert, light, reachable, seeds_in, slot_step,
    sound, waiting, walkable, weights, Known,
};
use crate::overlay::inside::{best_inside, cost_of, find_inside};
use crate::overlay::meet::{
    both, lemma_both_fronts, lemma_both_prune, lemma_both_settle, lemma_both_start, lemma_both_swap,
    falls, lemma_meet, mirrored, no_better, settled, topped, Side,
};
use crate::overlay::net::{
    backs, climb, gate_at, is_home, leaving, lemma_sound_relax, lemma_trail_backs,
    lemma_trails_relax, lemma_trails_seed, lemma_trails_settle, over_arcs, over_net, shortcut,
    trail, trails,
};
use crate::overlay::replay::{
    begun, cut_off, frame_of, lemma_played, lemma_played_none, lemma_recounted,
    lemma_recounted_none, lemma_recounted_same, lemma_sown, lemma_sown_none, lemma_spread, lemma_spread_none,
    let_through, looked, one_more, over, planted, played, pull_kept, recounted, retold, sown,
    spread, told_by, turn_by, visited, Query, Scene, Turn,
};
use crate::overlay::query::{far_from, kept_seeds, local, local_costs, OverlayRouter};
use crate::overlay::net::inside_net;
use crate::overlay::rows::{
    edge_head, edge_segs, far_end, lemma_after_ensure, lemma_same_table, value,
};
use crate::overlay::shape::{
    cell_at, gates, index_in, ladder_ok, lemma_cell_bound, lemma_rung, local_index, regions,
    rung_ok, Ladder, Overlay,
};
use crate::overlay::warm::{is_row, lemma_rows_stay, lemma_stay_chain, rows_stay};
use crate::overrides::{edge_ds_ov, table, Effect, Overrides};
use crate::paths::{arc_at, is_dist, net_ok, walk, Net, UNREACHABLE};
use crate::searchstate::{first_or_kept, Node, SearchState, EMPTY, MAX_REACHED};

verus! {

/// What a search may be told.
#[derive(Clone, Copy, Debug)]
pub struct Settings {
    /// Grow toward the target instead of in all directions.
    pub astar: bool,
    /// How high the ladder is climbed, counted in levels.
    pub max_level: Option<usize>,
    /// How far down the queue to look for rows worth filling ahead of the
    /// search, and how many misses are worth a batch.
    pub prefetch_depth: usize,
    pub prefetch_min: usize,
}

impl Default for Settings {
    fn default() -> (r: Settings)
        ensures
            !r.astar,
            r.max_level is None,
            r.prefetch_depth == 4096,
            r.prefetch_min == 64,
    {
        Settings { astar: false, max_level: None, prefetch_depth: 4096, prefetch_min: 64 }
    }
}

/// How a search is drawn to its target. `floor(v, side)` is a lower bound on
/// the cost from `v` to the target of that side, `reach` the same between the
/// two targets.
pub struct Goal<'f, F> {
    pub astar: bool,
    pub reach: u32,
    pub floor: &'f F,
}

pub open spec fn callable<F: Fn(u32, usize) -> u32>(floor: &F) -> bool {
    forall|v: u32, side: usize| side < 2 ==> #[trigger] call_requires(floor, (v, side))
}

/// `p` is the potential of `v`: how much nearer the own target is than the
/// other one, halved so that the two sides agree.
pub open spec fn drawn_to<'f, F: Fn(u32, usize) -> u32>(
    goal: Goal<'f, F>,
    v: u32,
    side: usize,
    p: u32,
) -> bool {
    if goal.astar {
        exists|own: u32, other: u32|
            {
                &&& #[trigger] call_ensures(goal.floor, (v, side), own)
                &&& #[trigger] call_ensures(goal.floor, (v, (1 - side) as usize), other)
                &&& p == pull(own as int, other as int, goal.reach as int)
            }
    } else {
        p == 0
    }
}

pub open spec fn pull(own: int, other: int, reach: int) -> int {
    if own + reach >= other {
        (own + reach - other) / 2
    } else {
        0
    }
}

/// No potential on this side is above `pot`.
pub open spec fn drawn<'f, F: Fn(u32, usize) -> u32>(
    goal: Goal<'f, F>,
    side: usize,
    pot: spec_fn(u32) -> int,
) -> bool {
    forall|v: u32, p: u32| #[trigger] drawn_to(goal, v, side, p) ==> p <= pot(v)
}

fn potential<'f, F: Fn(u32, usize) -> u32>(goal: &Goal<'f, F>, v: u32, side: usize) -> (p: u32)
    requires
        callable(goal.floor),
        side < 2,
    ensures
        drawn_to(*goal, v, side, p),
{
    if !goal.astar {
        return 0;
    }
    let own: u32 = (goal.floor)(v, side);
    let other: u32 = (goal.floor)(v, 1 - side);
    let sum: u64 = own as u64 + goal.reach as u64;
    let rest: u64 = if sum >= other as u64 {
        sum - other as u64
    } else {
        0
    };
    (rest / 2) as u32
}

/// What is known after an improvement of `v`, or after none. Where the search
/// is `even`, `v` is drawn no more than `pot` says.
pub open spec fn improved(
    m: Known,
    v: u32,
    nd: u32,
    best: u32,
    parent: u32,
    even: bool,
    pot: spec_fn(u32) -> int,
    m2: Known,
) -> bool {
    if nd < best && (!m.contains_key(v) || nd < m[v].dist) {
        exists|p: u32|
            {
                &&& #[trigger] m.insert(v, Node { dist: nd, prio: p, parent, queued: true }) == m2
                &&& nd <= p
                &&& even && (m.contains_key(v) ==> m[v].prio <= m[v].dist + pot(v)) ==> p <= nd
                    + pot(v)
            }
    } else {
        m2 == m
    }
}

fn improve<'f, F: Fn(u32, usize) -> u32>(
    st: &mut SearchState,
    v: u32,
    nd: u32,
    best: u32,
    parent: u32,
    side: usize,
    goal: &Goal<'f, F>,
    Ghost(even): Ghost<bool>,
    Ghost(pot): Ghost<spec_fn(u32) -> int>,
)
    requires
        even ==> drawn(*goal, side, pot),
        old(st).wf(),
        v != EMPTY,
        old(st)@.dom().len() < MAX_REACHED,
        old(st)@.contains_key(v) ==> old(st)@[v].dist <= old(st)@[v].prio,
        callable(goal.floor),
        side < 2,
    ensures
        final(st).wf(),
        improved(old(st)@, v, nd, best, parent, even, pot, final(st)@),
        if nd < best {
            planted(*goal, side, old(st)@, v, nd, parent, final(st)@)
        } else {
            final(st)@ == old(st)@
        },
{
    let ghost m = st@;
    if nd < best {
        let draw = || -> (p: u32)
            ensures
                drawn_to(*goal, v, side, p),
            { potential(goal, v, side) };
        let r: bool = st.relax_pot(v, nd, parent, draw);
        proof {
            if r {
                let p = choose|p: u32|
                    {
                        &&& #[trigger] first_or_kept(m, v, draw, p)
                        &&& st@ == m.insert(
                            v,
                            (Node {
                                dist: nd,
                                prio: (if nd + p > u32::MAX {
                                    u32::MAX
                                } else {
                                    (nd + p) as u32
                                }),
                                parent,
                                queued: true,
                            }),
                        )
                    };
                if !m.contains_key(v) {
                    assert(drawn_to(*goal, v, side, p));
                }
                assert(pull_kept(*goal, side, m, v, p));
                assert(m.insert(v, Node { dist: nd, prio: st@[v].prio, parent, queued: true }) == st@);
            }
        }
    }
}

/// What is known of one side is real and its parents form trails.
pub open spec fn honest(
    net: Net,
    seeds: Seq<(int, int)>,
    m: Known,
    stamp: Map<u32, nat>,
    clock: nat,
) -> bool {
    &&& net_ok(net)
    &&& light(net)
    &&& net.n < MAX_REACHED
    &&& sound(net, seeds, m)
    &&& trails(net, seeds, m, stamp, clock)
}

/// Nothing is forgotten and nothing moves away.
pub open spec fn nearer(m: Known, m2: Known) -> bool {
    forall|v: u32| #[trigger] m.contains_key(v) ==> m2.contains_key(v) && m2[v].dist <= m[v].dist
}

/// Trying one slot keeps everything that is known right.
pub(crate) proof fn lemma_slot(
    net: Net,
    seeds: Seq<(int, int)>,
    m: Known,
    stamp: Map<u32, nat>,
    clock: nat,
    pruned: Set<u32>,
    best: u32,
    u: u32,
    d: u32,
    slot: int,
    pot: spec_fn(u32) -> int,
    exact: bool,
    m2: Known,
) -> (r: (Map<u32, nat>, nat))
    requires
        honest(net, seeds, m, stamp, clock),
        m.contains_key(u),
        m[u].dist == d,
        u != EMPTY,
        0 <= slot < (net.arcs)(u as int).len(),
        u < net.n,
        exact ==> front(net, seeds, m, pruned, best as int, pot, u as int, slot),
        match (net.arcs)(u as int)[slot] {
            None => m2 == m,
            Some((t, w)) => improved(
                m,
                t as u32,
                (if d + w > UNREACHABLE {
                    UNREACHABLE
                } else {
                    (d + w) as u32
                }),
                best,
                u,
                exact,
                pot,
                m2,
            ),
        },
    ensures
        honest(net, seeds, m2, r.0, r.1),
        nearer(m, m2),
        m2.contains_key(u),
        m2[u].dist == d,
        exact ==> front(net, seeds, m2, pruned, best as int, pot, u as int, slot + 1),
        same_settled(m, m2),
        weights(m2, net.n) <= weights(m, net.n),
        weights(m2, net.n) == weights(m, net.n) ==> m2 == m,
{
    match (net.arcs)(u as int)[slot] {
        None => {
            if exact {
                lemma_front_relax(net, seeds, m, pruned, best as int, pot, u, slot, m2);
            }
            (stamp, clock)
        },
        Some((t, w)) => {
            assert(arc_at(net, u as int, slot, t, w));
            let v = t as u32;
            if exact {
                assert(slot_step(net, m, best as int, pot, u, d, slot, m2));
                lemma_front_relax(net, seeds, m, pruned, best as int, pot, u, slot, m2);
            }
            if m2 != m {
                let node = m2[v];
                assert(m2 == m.insert(v, node));
                lemma_sound_relax(net, seeds, m, u, v, slot, w, node);
                lemma_trails_relax(net, seeds, m, stamp, clock, u, v, slot, w, node);
                lemma_weights_insert(m, net.n, v, node);
                (stamp.insert(v, clock), clock + 1)
            } else {
                (stamp, clock)
            }
        },
    }
}

// ------------------------------------------------------------- the levels

pub open spec fn lists_of(h: Seq<Vec<u32>>) -> Seq<Seq<u32>> {
    Seq::new(h.len(), |k: int| h[k]@)
}

fn holds(list: &Vec<u32>, c: u32) -> (r: bool)
    ensures
        r == list@.contains(c),
{
    let mut i: usize = 0;
    while i < list.len()
        invariant
            i <= list@.len(),
            forall|j: int| 0 <= j < i ==> list@[j] != c,
        decreases list@.len() - i,
    {
        if list[i] == c {
            assert(list@[i as int] == c);
            return true;
        }
        i += 1;
    }
    false
}

/// The level a vertex is handled at, its region there, and where it stands on
/// that region's boundary.
pub fn choose_level(ov: &Overlay, home: &Vec<Vec<u32>>, u: u32) -> (r: (usize, u32, Option<usize>))
    requires
        ov.wf(),
        1 <= home@.len() <= ov.ladder().len(),
        u < ov.ladder()[0].of.len(),
    ensures
        r.0 == climb(ov.ladder(), lists_of(home@), u, 0),
        r.0 < home@.len(),
        r.1 == cell_at(ov.ladder(), r.0 as int, u as int),
        r.1 < regions(ov.ladder()[r.0 as int]),
        index_in(gates(ov.ladder()[r.0 as int], r.1 as int), u) == (match r.2 {
            Some(i) => Some(i as int),
            None => None,
        }),
        r.2 matches Some(i) ==> i < gates(ov.ladder()[r.0 as int], r.1 as int).len(),
{
    let ghost l = ov.ladder();
    let ghost h = lists_of(home@);
    proof {
        lemma_rung(l, 0);
        lemma_cell_bound(l, 0, u as int);
    }
    let mut lc: u32 = ov.cell(u);
    let mut lv: usize = 0;
    let mut li: Option<usize> = local_index(ov.level(0).boundary(lc), u);
    let mut c: u32 = lc;
    let mut k: usize = 1;
    while k < home.len()
        invariant_except_break
            lv == k - 1,
            c == cell_at(l, k - 1, u as int),
            climb(l, h, u, 0) == climb(l, h, u, lv as int),
        invariant
            ov.wf(),
            l == ov.ladder(),
            h == lists_of(home@),
            1 <= home@.len() <= l.len(),
            u < l[0].of.len(),
            1 <= k <= home@.len(),
            lv < home@.len(),
            lc == cell_at(l, lv as int, u as int),
            lc < regions(l[lv as int]),
            index_in(gates(l[lv as int], lc as int), u) == (match li {
                Some(i) => Some(i as int),
                None => None,
            }),
            li matches Some(i) ==> i < gates(l[lv as int], lc as int).len(),
        ensures
            lv == climb(l, h, u, 0),
        decreases home@.len() - k,
    {
        proof {
            lemma_rung(l, k as int);
            lemma_cell_bound(l, k - 1, u as int);
            lemma_cell_bound(l, k as int, u as int);
            assert(ov.levels@[k as int].rung() == l[k as int]);
        }
        c = ov.level(k).parent(c);
        if holds(&home[k], c) {
            assert(is_home(h, k as int, cell_at(l, k as int, u as int)));
            break;
        }
        match local_index(ov.level(k).boundary(c), u) {
            Some(i) => {
                lv = k;
                lc = c;
                li = Some(i);
            },
            None => {
                break;
            },
        }
        k += 1;
    }
    (lv, lc, li)
}

/// The first `nlev` levels' regions that hold an endpoint.
pub open spec fn homes(l: Ladder, ends: Seq<(u32, u32)>, nlev: int, home: Seq<Seq<u32>>) -> bool {
    &&& home.len() == nlev
    &&& forall|k: int, c: u32|
        0 <= k < nlev ==> #[trigger] home[k].contains(c) == holds_end(l, ends, k, c)
}

pub open spec fn holds_end(l: Ladder, ends: Seq<(u32, u32)>, k: int, c: u32) -> bool {
    exists|i: int| 0 <= i < ends.len() && cell_at(l, k, (#[trigger] ends[i]).0 as int) == c
}

proof fn lemma_homes_step(
    l: Ladder,
    ends: Seq<(u32, u32)>,
    i: int,
    k: int,
    c: u32,
)
    requires
        0 <= i < ends.len(),
    ensures
        holds_end(l, ends.take(i + 1), k, c) == (holds_end(l, ends.take(i), k, c) || cell_at(
            l,
            k,
            ends[i].0 as int,
        ) == c),
{
    let (a, b) = (ends.take(i), ends.take(i + 1));
    if holds_end(l, a, k, c) {
        let j = choose|j: int| 0 <= j < a.len() && cell_at(l, k, (#[trigger] a[j]).0 as int) == c;
        assert(b[j] == a[j]);
    }
    if holds_end(l, b, k, c) {
        let j = choose|j: int| 0 <= j < b.len() && cell_at(l, k, (#[trigger] b[j]).0 as int) == c;
        if j < i {
            assert(a[j] == b[j]);
        }
    }
    if cell_at(l, k, ends[i].0 as int) == c {
        assert(b[i] == ends[i]);
    }
}

fn find_homes(ov: &Overlay, ends: &Vec<(u32, u32)>, nlev: usize) -> (home: Vec<Vec<u32>>)
    requires
        ov.wf(),
        1 <= nlev <= ov.ladder().len(),
        forall|i: int| 0 <= i < ends@.len() ==> (#[trigger] ends@[i]).0 < ov.ladder()[0].of.len(),
    ensures
        homes(ov.ladder(), ends@, nlev as int, lists_of(home@)),
{
    let ghost l = ov.ladder();
    let mut home: Vec<Vec<u32>> = Vec::new();
    let mut k: usize = 0;
    while k < nlev
        invariant
            ov.wf(),
            l == ov.ladder(),
            nlev <= l.len(),
            k <= nlev,
            forall|i: int| 0 <= i < ends@.len() ==> (#[trigger] ends@[i]).0 < l[0].of.len(),
            homes(l, ends@, k as int, lists_of(home@)),
        decreases nlev - k,
    {
        let mut list: Vec<u32> = Vec::new();
        let mut i: usize = 0;
        assert(ends@.take(0) =~= Seq::empty());
        while i < ends.len()
            invariant
                ov.wf(),
                l == ov.ladder(),
                k < nlev <= l.len(),
                i <= ends@.len(),
                forall|i: int| 0 <= i < ends@.len() ==> (#[trigger] ends@[i]).0 < l[0].of.len(),
                forall|c: u32|
                    #[trigger] list@.contains(c) == holds_end(l, ends@.take(i as int), k as int, c),
            decreases ends@.len() - i,
        {
            let c: u32 = ov.cell_at(k, ends[i].0);
            let ghost was = list@;
            if !holds(&list, c) {
                list.push(c);
            }
            proof {
                assert forall|x: u32| #[trigger] list@.contains(x) == holds_end(
                    l,
                    ends@.take(i + 1),
                    k as int,
                    x,
                ) by {
                    lemma_homes_step(l, ends@, i as int, k as int, x);
                    if list@ != was {
                        assert(list@ == was.push(c));
                        assert(was.push(c)[was.len() as int] == c);
                        if was.contains(x) {
                            let j = was.index_of(x);
                            assert(was.push(c)[j] == x);
                        }
                        if list@.contains(x) && x != c {
                            let j = list@.index_of(x);
                            assert(was[j] == x);
                        }
                    }
                    assert(was.contains(x) == holds_end(l, ends@.take(i as int), k as int, x));
                }
            }
            i += 1;
        }
        assert(ends@.take(ends@.len() as int) =~= ends@);
        let ghost h0 = home@;
        home.push(list);
        proof {
            assert forall|m: int, c: u32|
                0 <= m < k + 1 implies #[trigger] lists_of(home@)[m].contains(c) == holds_end(
                l,
                ends@,
                m,
                c,
            ) by {
                if m < k {
                    assert(lists_of(h0)[m].contains(c) == holds_end(l, ends@, m, c));
                }
            }
        }
        k += 1;
    }
    home
}

// ---------------------------------------------------------------- seeding

pub proof fn lemma_climb_bound(l: Ladder, home: Seq<Seq<u32>>, u: u32, k: int)
    requires
        0 <= k < home.len(),
    ensures
        k <= climb(l, home, u, k) < home.len(),
    decreases home.len() - k,
{
    if k + 1 < home.len() && !is_home(home, k + 1, cell_at(l, k + 1, u as int)) && gate_at(
        l,
        k + 1,
        u,
    ) {
        lemma_climb_bound(l, home, u, k + 1);
    }
}

pub proof fn lemma_over_ok(
    ds: Dataset,
    effects: Seq<(u32, Effect)>,
    l: Ladder,
    home: Seq<Seq<u32>>,
    fwd: bool,
)
    requires
        ds.graph_ok(),
        ladder_ok(l),
        ds.nv() == l[0].of.len(),
        ds.nv() <= u32::MAX,
        1 <= home.len() <= l.len(),
    ensures
        net_ok(over_net(ds, effects, l, home, fwd)),
        light(over_net(ds, effects, l, home, fwd)),
{
    let net = over_net(ds, effects, l, home, fwd);
    assert forall|u: int, s: int, v: int, w: int| #[trigger] arc_at(net, u, s, v, w) implies 0 <= v
        < net.n && 0 <= w <= u32::MAX by {
        let x = u as u32;
        lemma_climb_bound(l, home, x, 0);
        let k = climb(l, home, x, 0);
        lemma_cell_bound(l, k, u);
        lemma_rung(l, k);
        let c = cell_at(l, k, u);
        let g = gates(l[k], c);
        let head = edge_head(ds, fwd);
        let arcs = over_arcs(ds, effects, l, home, fwd, x);
        let b: int = if index_in(g, x) is Some {
            g.len() as int
        } else {
            0
        };
        if s < b {
            assert(arcs[s] == shortcut(ds, effects, l, k, c, fwd, index_in(g, x)->0, s));
            assert(l[k].bnd[l[k].bhead[c] + s] == g[s]);
        } else {
            let t = head[u] + (s - b);
            assert(arcs[s] == leaving(ds, effects, l, k, c, fwd, x, t));
            assert(far_end(ds, fwd, x, t) < ds.nv());
        }
    }
}

/// Leaving `src` for gate `g` of its region takes `d`, without leaving the
/// region.
pub open spec fn is_entry(
    ds: Dataset,
    effects: Seq<(u32, Effect)>,
    l: Ladder,
    src: (u32, u32),
    fwd: bool,
    g: int,
    d: int,
) -> bool {
    let c = cell_at(l, 0, src.0 as int);
    let net = inside_net(ds, effects, l, 0, c, fwd);
    let seeds = seq![(src.0 as int, src.1 as int)];
    &&& 0 <= g <= u32::MAX
    &&& 0 <= d <= u32::MAX
    &&& gates(l[0], c).contains(g as u32)
    &&& !far_from(net, seeds, g as u32)
    &&& is_dist(net, seeds, g, d as u32)
}

pub open spec fn some_entry(
    ds: Dataset,
    effects: Seq<(u32, Effect)>,
    l: Ladder,
    sources: Seq<(u32, u32)>,
    fwd: bool,
    p: (int, int),
) -> bool {
    exists|i: int|
        0 <= i < sources.len() && is_entry(ds, effects, l, #[trigger] sources[i], fwd, p.0, p.1)
}

/// The seeds of a search from `sources`: every gate that one of them reaches
/// inside its region, at that cost.
pub open spec fn entered(
    ds: Dataset,
    effects: Seq<(u32, Effect)>,
    l: Ladder,
    sources: Seq<(u32, u32)>,
    fwd: bool,
    seeds: Seq<(int, int)>,
) -> bool {
    forall|p: (int, int)|
        #[trigger] seeds.contains(p) == some_entry(ds, effects, l, sources, fwd, p)
}

/// One of the first `n` gates, with its distance.
spec fn listed(
    net: Net,
    seeds: Seq<(int, int)>,
    g: Seq<u32>,
    n: int,
    p: (u32, u32),
) -> bool {
    exists|j: int|
        0 <= j < n && #[trigger] g[j] == p.0 && !far_from(net, seeds, p.0) && is_dist(
            net,
            seeds,
            p.0 as int,
            p.1,
        )
}

proof fn lemma_listed(
    ds: Dataset,
    effects: Seq<(u32, Effect)>,
    l: Ladder,
    c: int,
    seeds: Seq<(int, int)>,
    fwd: bool,
    n: int,
    out: Seq<(u32, u32)>,
)
    requires
        0 <= n <= gates(l[0], c).len(),
        local_costs(ds, effects, l, c, seeds, fwd, n, out),
    ensures
        forall|p: (u32, u32)|
            #[trigger] out.contains(p) == listed(
                inside_net(ds, effects, l, 0, c, fwd),
                seeds,
                gates(l[0], c),
                n,
                p,
            ),
    decreases n,
{
    let net = inside_net(ds, effects, l, 0, c, fwd);
    let g = gates(l[0], c);
    if n > 0 {
        let b = g[n - 1];
        let far = far_from(net, seeds, b);
        let rest = if far {
            out
        } else {
            out.drop_last()
        };
        lemma_listed(ds, effects, l, c, seeds, fwd, n - 1, rest);
        assert forall|p: (u32, u32)| #[trigger] out.contains(p) == listed(net, seeds, g, n, p) by {
            assert(rest.contains(p) == listed(net, seeds, g, n - 1, p));
            if listed(net, seeds, g, n - 1, p) {
                let j = choose|j: int|
                    0 <= j < n - 1 && #[trigger] g[j] == p.0 && !far_from(net, seeds, p.0)
                        && is_dist(net, seeds, p.0 as int, p.1);
                assert(g[j] == p.0);
                let i = rest.index_of(p);
                assert(out[i] == p);
            }
            if listed(net, seeds, g, n, p) && !listed(net, seeds, g, n - 1, p) {
                let j = choose|j: int|
                    0 <= j < n && #[trigger] g[j] == p.0 && !far_from(net, seeds, p.0) && is_dist(
                        net,
                        seeds,
                        p.0 as int,
                        p.1,
                    );
                assert(j == n - 1);
                crate::paths::lemma_dist_unique(net, seeds, b as int, p.1, out.last().1);
                assert(out[out.len() - 1] == p);
            }
            if out.contains(p) && !far {
                let i = out.index_of(p);
                if i == out.len() - 1 {
                    assert(g[n - 1] == p.0);
                } else {
                    assert(rest[i] == p);
                }
            }
        }
    }
}

/// What one source adds to the seeds.
proof fn lemma_entries(
    ds: Dataset,
    effects: Seq<(u32, Effect)>,
    l: Ladder,
    src: (u32, u32),
    fwd: bool,
    out: Seq<(u32, u32)>,
)
    requires
        ({
            let c = cell_at(l, 0, src.0 as int);
            local_costs(
                ds,
                effects,
                l,
                c,
                kept_seeds(l, c, seq![src], 1),
                fwd,
                gates(l[0], c).len() as int,
                out,
            )
        }),
    ensures
        forall|p: (u32, u32)|
            #[trigger] out.contains(p) == is_entry(
                ds,
                effects,
                l,
                src,
                fwd,
                p.0 as int,
                p.1 as int,
            ),
{
    let c = cell_at(l, 0, src.0 as int);
    let seeds = seq![(src.0 as int, src.1 as int)];
    let net = inside_net(ds, effects, l, 0, c, fwd);
    let g = gates(l[0], c);
    assert(kept_seeds(l, c, seq![src], 0) =~= Seq::empty());
    assert(kept_seeds(l, c, seq![src], 1) =~= seeds);
    lemma_listed(ds, effects, l, c, seeds, fwd, g.len() as int, out);
    assert forall|p: (u32, u32)| #[trigger] out.contains(p) == is_entry(
        ds,
        effects,
        l,
        src,
        fwd,
        p.0 as int,
        p.1 as int,
    ) by {
        assert(out.contains(p) == listed(net, seeds, g, g.len() as int, p));
        if is_entry(ds, effects, l, src, fwd, p.0 as int, p.1 as int) {
            let j = g.index_of(p.0);
            assert(g[j] == p.0);
        }
    }
}

/// Enters every gate that `sources` reach inside their regions.
fn enter<'f, F: Fn(u32, usize) -> u32>(
    st: &mut SearchState,
    lstate: &mut SearchState,
    ds: &Dataset,
    ovr: Option<&Overrides>,
    ov: &Overlay,
    sources: &[(u32, u32)],
    side: usize,
    goal: &Goal<'f, F>,
    Ghost(net): Ghost<Net>,
    Ghost(even): Ghost<bool>,
    Ghost(pot): Ghost<spec_fn(u32) -> int>,
) -> (r: (Ghost<Seq<(int, int)>>, Ghost<Map<u32, nat>>, Ghost<nat>))
    requires
        even ==> drawn(*goal, side, pot),
        old(st).wf(),
        old(lstate).wf(),
        ov.wf(),
        ov.ladder().len() >= 1,
        ds.graph_ok(),
        ds.nv() == ov.ladder()[0].of.len(),
        ds.nv() < MAX_REACHED,
        ds.ns() <= u32::MAX,
        ovr matches Some(o) ==> o.wf(),
        forall|i: int| 0 <= i < sources@.len() ==> (#[trigger] sources@[i]).0 < ds.nv(),
        side < 2,
        callable(goal.floor),
        net_ok(net),
        light(net),
        net.n == ds.nv(),
    ensures
        final(st).wf(),
        final(lstate).wf(),
        entered(*ds, table(ovr), ov.ladder(), sources@, side == 0, r.0@),
        seeds_in(net, r.0@),
        honest(net, r.0@, final(st)@, r.1@, r.2@),
        sown(*goal, side, r.0@, final(st)@),
        forall|v: u32| #[trigger] final(st)@.contains_key(v) ==> final(st)@[v].queued,
        final(st)@.dom().len() == 0 ==> r.0@.len() == 0,
        even ==> front(
            net,
            r.0@,
            final(st)@,
            Set::empty(),
            UNREACHABLE as int,
            pot,
            -1,
            0,
        ),
{
    let ghost l = ov.ladder();
    let ghost eff = table(ovr);
    let fwd: bool = side == 0;
    st.clear();
    let ghost mut seeds: Seq<(int, int)> = Seq::empty();
    let ghost mut stamp: Map<u32, nat> = Map::empty();
    let ghost mut clock: nat = 0;
    proof {
        lemma_rung(l, 0);
        assert(sources@.take(0) =~= Seq::empty());
        lemma_sown_none(*goal, side, seeds, st@);
    }
    let mut i: usize = 0;
    while i < sources.len()
        invariant
            st.wf(),
            lstate.wf(),
            ov.wf(),
            l == ov.ladder(),
            eff == table(ovr),
            l.len() >= 1,
            ds.graph_ok(),
            ds.nv() == l[0].of.len(),
            ds.nv() < MAX_REACHED,
            ds.ns() <= u32::MAX,
            ovr matches Some(o) ==> o.wf(),
            forall|i: int| 0 <= i < sources@.len() ==> (#[trigger] sources@[i]).0 < ds.nv(),
            side < 2,
            fwd == (side == 0),
            callable(goal.floor),
            even ==> drawn(*goal, side, pot),
            net_ok(net),
            light(net),
            net.n == ds.nv(),
            i <= sources@.len(),
            entered(*ds, eff, l, sources@.take(i as int), fwd, seeds),
            seeds_in(net, seeds),
            honest(net, seeds, st@, stamp, clock),
            sown(*goal, side, seeds, st@),
            seeds_known(seeds, st@),
            forall|v: u32| #[trigger] st@.contains_key(v) ==> st@[v].queued,
            even ==> front(net, seeds, st@, Set::empty(), UNREACHABLE as int, pot, -1, 0),
        decreases sources@.len() - i,
    {
        let src: (u32, u32) = sources[i];
        proof {
            lemma_cell_bound(l, 0, src.0 as int);
        }
        let c: u32 = ov.cell(src.0);
        let one: [(u32, u32); 1] = [src];
        assert(one@ =~= seq![src]);
        let out: Vec<(u32, u32)> = local(lstate, ds, ovr, ov, c, vstd::array::array_as_slice(&one), fwd);
        proof {
            lemma_entries(*ds, eff, l, src, fwd, out@);
            lemma_rung(l, 0);
            assert forall|x: int| 0 <= x < out@.len() implies (#[trigger] out@[x]).0 < ds.nv() by {
                assert(out@.contains(out@[x]));
                let g = gates(l[0], c as int);
                let y = g.index_of(out@[x].0);
                assert(l[0].bnd[l[0].bhead[c as int] + y] == g[y]);
            }
        }
        let ghost seeds0 = seeds;
        let mut j: usize = 0;
        while j < out.len()
            invariant
                st.wf(),
                ds.nv() < MAX_REACHED,
                net_ok(net),
                light(net),
                net.n == ds.nv(),
                side < 2,
                callable(goal.floor),
                even ==> drawn(*goal, side, pot),
                j <= out@.len(),
                forall|x: int| 0 <= x < out@.len() ==> (#[trigger] out@[x]).0 < ds.nv(),
                seeds_in(net, seeds),
                honest(net, seeds, st@, stamp, clock),
                sown(*goal, side, seeds, st@),
                seeds_known(seeds, st@),
                forall|v: u32| #[trigger] st@.contains_key(v) ==> st@[v].queued,
                even ==> front(net, seeds, st@, Set::empty(), UNREACHABLE as int, pot, -1, 0),
                forall|p: (int, int)|
                    #[trigger] seeds.contains(p) == (seeds0.contains(p) || exists|x: int|
                        0 <= x < j && (#[trigger] out@[x]).0 == p.0 && out@[x].1 == p.1),
            decreases out@.len() - j,
        {
            let (b, d): (u32, u32) = out[j];
            let ghost m = st@;
            proof {
                assert(out@[j as int].0 < ds.nv());
                st.lemma_order();
                lemma_room(st@, ds.nv());
            }
            enter_one(st, b, d, side, goal, Ghost(even), Ghost(pot));
            proof {
                lemma_enter(net, seeds, m, stamp, clock, b, d, even, pot, st@);
                lemma_sown(*goal, side, seeds, m, b, d, st@);
                if st@ != m {
                    stamp = stamp.insert(b, clock);
                    clock = clock + 1;
                }
                let s2 = seeds.push((b as int, d as int));
                assert forall|p: (int, int)| #[trigger] s2.contains(p) == (seeds0.contains(p)
                    || exists|x: int|
                    0 <= x < j + 1 && (#[trigger] out@[x]).0 == p.0 && out@[x].1 == p.1) by {
                    assert(s2[seeds.len() as int] == (b as int, d as int));
                    if seeds.contains(p) {
                        let x = seeds.index_of(p);
                        assert(s2[x] == p);
                    }
                    if s2.contains(p) && !seeds.contains(p) {
                        let x = s2.index_of(p);
                        assert(x == seeds.len());
                        assert(out@[j as int].0 == p.0 && out@[j as int].1 == p.1);
                    }
                }
                seeds = s2;
            }
            j += 1;
        }
        proof {
            assert(sources@.take(i + 1) =~= sources@.take(i as int).push(src));
            let t0 = sources@.take(i as int);
            let t1 = sources@.take(i + 1);
            assert forall|p: (int, int)| #[trigger] seeds.contains(p) == some_entry(
                *ds,
                eff,
                l,
                t1,
                fwd,
                p,
            ) by {
                assert(seeds0.contains(p) == some_entry(*ds, eff, l, t0, fwd, p));
                if some_entry(*ds, eff, l, t0, fwd, p) {
                    let x = choose|x: int|
                        0 <= x < t0.len() && is_entry(*ds, eff, l, #[trigger] t0[x], fwd, p.0, p.1);
                    assert(t1[x] == t0[x]);
                }
                if is_entry(*ds, eff, l, src, fwd, p.0, p.1) {
                    assert(t1[i as int] == src);
                    let q = (p.0 as u32, p.1 as u32);
                    assert(out@.contains(q));
                    let x = out@.index_of(q);
                    assert(out@[x].0 == p.0 && out@[x].1 == p.1);
                }
                if some_entry(*ds, eff, l, t1, fwd, p) {
                    let x = choose|x: int|
                        0 <= x < t1.len() && is_entry(*ds, eff, l, #[trigger] t1[x], fwd, p.0, p.1);
                    if x < i {
                        assert(t0[x] == t1[x]);
                    }
                }
                if seeds.contains(p) && !seeds0.contains(p) {
                    let x = choose|x: int|
                        0 <= x < out@.len() && (#[trigger] out@[x]).0 == p.0 && out@[x].1 == p.1;
                    assert(out@.contains(out@[x]));
                    assert(is_entry(*ds, eff, l, src, fwd, p.0, p.1));
                    assert(t1[i as int] == src);
                }
            }
        }
        i += 1;
    }
    proof {
        assert(sources@.take(sources@.len() as int) =~= sources@);
        st.lemma_order();
        if st@.dom().len() == 0 && seeds.len() > 0 {
            assert(st@.contains_key(seeds[0].0 as u32));
            assert(st@.dom().contains(seeds[0].0 as u32));
            assert(st@.dom().remove(seeds[0].0 as u32).len() + 1 == st@.dom().len());
        }
    }
    (Ghost(seeds), Ghost(stamp), Ghost(clock))
}

pub open spec fn seeds_known(seeds: Seq<(int, int)>, m: Known) -> bool {
    forall|i: int| 0 <= i < seeds.len() ==> m.contains_key((#[trigger] seeds[i]).0 as u32)
}

/// Entering a seed keeps everything that is known right.
pub(crate) proof fn lemma_enter(
    net: Net,
    seeds: Seq<(int, int)>,
    m: Known,
    stamp: Map<u32, nat>,
    clock: nat,
    v: u32,
    d: u32,
    even: bool,
    pot: spec_fn(u32) -> int,
    m2: Known,
)
    requires
        honest(net, seeds, m, stamp, clock),
        seeds_in(net, seeds),
        seeds_known(seeds, m),
        v < net.n,
        forall|x: u32| #[trigger] m.contains_key(x) ==> m[x].queued,
        even ==> front(net, seeds, m, Set::empty(), UNREACHABLE as int, pot, -1, 0),
        seeded(m, v, d, even, pot, m2),
    ensures
        honest(
            net,
            seeds.push((v as int, d as int)),
            m2,
            if m2 != m {
                stamp.insert(v, clock)
            } else {
                stamp
            },
            if m2 != m {
                clock + 1
            } else {
                clock
            },
        ),
        seeds_in(net, seeds.push((v as int, d as int))),
        seeds_known(seeds.push((v as int, d as int)), m2),
        forall|x: u32| #[trigger] m2.contains_key(x) ==> m2[x].queued,
        even ==> front(
            net,
            seeds.push((v as int, d as int)),
            m2,
            Set::empty(),
            UNREACHABLE as int,
            pot,
            -1,
            0,
        ),
{
    let s2 = seeds.push((v as int, d as int));
    assert(s2[seeds.len() as int] == (v as int, d as int));
    assert(walk(net, s2, v as int, d as int, 0));
    assert forall|x: int| 0 <= x < seeds.len() implies s2.contains(#[trigger] seeds[x]) by {
        assert(s2[x] == seeds[x]);
    }
    assert(sound(net, s2, m2)) by {
        assert forall|x: u32| #[trigger] m2.contains_key(x) && m2[x].dist < UNREACHABLE implies walkable(
            net,
            s2,
            x as int,
            m2[x].dist as int,
        ) by {
            if m.contains_key(x) && m2[x].dist == m[x].dist {
                assert(walkable(net, seeds, x as int, m[x].dist as int));
                let n = choose|n: nat| walk(net, seeds, x as int, m[x].dist as int, n);
                crate::overlay::frontier::lemma_walk_more_seeds(
                    net,
                    seeds,
                    s2,
                    x as int,
                    m[x].dist as int,
                    n,
                );
            }
        }
        assert forall|x: u32| #[trigger] m2.contains_key(x) implies reachable(net, s2, x as int) by {
            if m.contains_key(x) {
                assert(reachable(net, seeds, x as int));
                let (e, n) = choose|e: int, n: nat| walk(net, seeds, x as int, e, n);
                crate::overlay::frontier::lemma_walk_more_seeds(net, seeds, s2, x as int, e, n);
            }
        }
    }
    if m2 != m {
        lemma_trails_seed(net, seeds, m, stamp, clock, v, d, m2[v]);
        assert(m2 =~= m.insert(v, m2[v]));
    } else {
        crate::overlay::net::lemma_trails_more(net, seeds, m, stamp, clock, v, d);
    }
    if even {
        lemma_front_seed(net, seeds, m, UNREACHABLE as int, pot, v, d, m2);
    }
}

/// What is known after a seed.
pub open spec fn seeded(
    m: Known,
    v: u32,
    d: u32,
    even: bool,
    pot: spec_fn(u32) -> int,
    m2: Known,
) -> bool {
    if !m.contains_key(v) || d < m[v].dist {
        exists|p: u32|
            {
                &&& #[trigger] m.insert(v, Node { dist: d, prio: p, parent: EMPTY, queued: true })
                    == m2
                &&& d <= p
                &&& even && (m.contains_key(v) ==> m[v].prio <= m[v].dist + pot(v)) ==> p <= d
                    + pot(v)
            }
    } else {
        m2 == m
    }
}

fn enter_one<'f, F: Fn(u32, usize) -> u32>(
    st: &mut SearchState,
    v: u32,
    d: u32,
    side: usize,
    goal: &Goal<'f, F>,
    Ghost(even): Ghost<bool>,
    Ghost(pot): Ghost<spec_fn(u32) -> int>,
)
    requires
        even ==> drawn(*goal, side, pot),
        old(st).wf(),
        v != EMPTY,
        old(st)@.dom().len() < MAX_REACHED,
        old(st)@.contains_key(v) ==> old(st)@[v].dist <= old(st)@[v].prio,
        callable(goal.floor),
        side < 2,
    ensures
        final(st).wf(),
        seeded(old(st)@, v, d, even, pot, final(st)@),
        planted(*goal, side, old(st)@, v, d, EMPTY, final(st)@),
{
    let ghost m = st@;
    let draw = || -> (p: u32)
        ensures
            drawn_to(*goal, v, side, p),
        { potential(goal, v, side) };
    let r: bool = st.relax_pot(v, d, EMPTY, draw);
    proof {
        if r {
            let p = choose|p: u32|
                {
                    &&& #[trigger] first_or_kept(m, v, draw, p)
                    &&& st@ == m.insert(
                        v,
                        (Node {
                            dist: d,
                            prio: (if d + p > u32::MAX {
                                u32::MAX
                            } else {
                                (d + p) as u32
                            }),
                            parent: EMPTY,
                            queued: true,
                        }),
                    )
                };
            if !m.contains_key(v) {
                assert(drawn_to(*goal, v, side, p));
            }
            assert(pull_kept(*goal, side, m, v, p));
            assert(m.insert(v, Node { dist: d, prio: st@[v].prio, parent: EMPTY, queued: true })
                == st@);
        }
    }
}

// --------------------------------------------------------------- expanding

/// Tries everything that leaves `u`: across its region from the table, then
/// by the edges that leave it.
fn expand<'f, F: Fn(u32, usize) -> u32>(
    st: &mut SearchState,
    ds: &Dataset,
    ovr: Option<&Overrides>,
    ov: &Overlay,
    at: (usize, u32, Option<usize>),
    u: u32,
    d: u32,
    best: u32,
    side: usize,
    goal: &Goal<'f, F>,
    Ghost(home): Ghost<Seq<Seq<u32>>>,
    Ghost(seeds): Ghost<Seq<(int, int)>>,
    Ghost(stamp0): Ghost<Map<u32, nat>>,
    Ghost(clock0): Ghost<nat>,
    Ghost(pruned): Ghost<Set<u32>>,
    Ghost(pot): Ghost<spec_fn(u32) -> int>,
    Ghost(exact): Ghost<bool>,
) -> (r: (Ghost<Map<u32, nat>>, Ghost<nat>))
    requires
        old(st).wf(),
        ov.wf(),
        ds.graph_ok(),
        ds.nv() == ov.ladder()[0].of.len(),
        ds.nv() < MAX_REACHED,
        ds.ns() <= u32::MAX,
        ovr matches Some(o) ==> o.wf(),
        side < 2,
        callable(goal.floor),
        exact ==> drawn(*goal, side, pot),
        1 <= home.len() <= ov.ladder().len(),
        at.0 == climb(ov.ladder(), home, u, 0),
        at.1 == cell_at(ov.ladder(), at.0 as int, u as int),
        index_in(gates(ov.ladder()[at.0 as int], at.1 as int), u) == (match at.2 {
            Some(i) => Some(i as int),
            None => None,
        }),
        at.2 matches Some(i) ==> ov.levels@[at.0 as int].has_row(at.1 as int, i as int, side == 0)
            && ov.row_true(*ds, table(ovr), at.0 as int, at.1 as int, i as int, side == 0),
        honest(
            over_net(*ds, table(ovr), ov.ladder(), home, side == 0),
            seeds,
            old(st)@,
            stamp0,
            clock0,
        ),
        old(st)@.contains_key(u),
        old(st)@[u].dist == d,
        exact ==> front(
            over_net(*ds, table(ovr), ov.ladder(), home, side == 0),
            seeds,
            old(st)@,
            pruned,
            best as int,
            pot,
            u as int,
            0,
        ),
    ensures
        final(st).wf(),
        honest(
            over_net(*ds, table(ovr), ov.ladder(), home, side == 0),
            seeds,
            final(st)@,
            r.0@,
            r.1@,
        ),
        final(st)@.contains_key(u),
        final(st)@[u].dist == d,
        exact ==> front(
            over_net(*ds, table(ovr), ov.ladder(), home, side == 0),
            seeds,
            final(st)@,
            pruned,
            best as int,
            pot,
            -1,
            0,
        ),
        same_settled(old(st)@, final(st)@),
        exact ==> !final(st)@[u].queued,
        nearer(old(st)@, final(st)@),
        ({
            let net = over_net(*ds, table(ovr), ov.ladder(), home, side == 0);
            spread(
                net,
                *goal,
                side,
                old(st)@,
                u,
                d,
                best,
                (net.arcs)(u as int).len() as int,
                final(st)@,
            )
        }),
        weights(final(st)@, ds.nv()) <= weights(old(st)@, ds.nv()),
        weights(final(st)@, ds.nv()) == weights(old(st)@, ds.nv()) ==> final(st)@ == old(st)@,
{
    let ghost l = ov.ladder();
    let ghost eff = table(ovr);
    let fwd: bool = side == 0;
    let ghost net = over_net(*ds, eff, l, home, fwd);
    let ghost arcs = (net.arcs)(u as int);
    let ghost m0 = st@;
    let ghost mut stamp = stamp0;
    let ghost mut clock = clock0;
    let (lv, lc, li): (usize, u32, Option<usize>) = at;
    proof {
        lemma_climb_bound(l, home, u, 0);
        lemma_cell_bound(l, lv as int, u as int);
        lemma_rung(l, lv as int);
        assert(ov.levels@[lv as int].rung() == l[lv as int]);
    }
    let ghost g = gates(l[lv as int], lc as int);
    let ghost head = edge_head(*ds, fwd);
    let ghost mut off: int = 0;
    proof {
        lemma_spread_none(net, *goal, side, m0, u, d, best);
    }
    match li {
        Some(i) => {
            let bl: &[u32] = ov.level(lv).boundary(lc);
            let mut j: usize = 0;
            while j < bl.len()
                invariant
                    st.wf(),
                    ov.wf(),
                    l == ov.ladder(),
                    eff == table(ovr),
                    fwd == (side == 0),
                    ds.nv() < MAX_REACHED,
                    lv < l.len(),
                    lv < ov.levels@.len(),
                    ov.levels@[lv as int].rung() == l[lv as int],
                    lc < regions(l[lv as int]),
                    rung_ok(
                        l[lv as int],
                        if lv == 0 {
                            l[0].of.len() as int
                        } else {
                            regions(l[lv - 1])
                        },
                        l[0].of.len() as int,
                    ),
                    ds.nv() == l[0].of.len(),
                    g == gates(l[lv as int], lc as int),
                    bl@ == g,
                    i < g.len(),
                    g[i as int] == u,
                    index_in(g, u) == Some(i as int),
                    ov.levels@[lv as int].has_row(lc as int, i as int, fwd),
                    ov.row_true(*ds, eff, lv as int, lc as int, i as int, fwd),
                    side < 2,
                    callable(goal.floor),
                    exact ==> drawn(*goal, side, pot),
                    net == over_net(*ds, eff, l, home, fwd),
                    net.n == ds.nv(),
                    arcs == (net.arcs)(u as int),
                    arcs.len() >= g.len(),
                    forall|x: int|
                        0 <= x < g.len() ==> #[trigger] arcs[x] == shortcut(
                            *ds,
                            eff,
                            l,
                            lv as int,
                            lc as int,
                            fwd,
                            i as int,
                            x,
                        ),
                    u < ds.nv(),
                    u != EMPTY,
                    j <= g.len(),
                    honest(net, seeds, st@, stamp, clock),
                    st@.contains_key(u),
                    st@[u].dist == d,
                    exact ==> front(
                        net,
                        seeds,
                        st@,
                        pruned,
                        best as int,
                        pot,
                        u as int,
                        j as int,
                    ),
                    same_settled(m0, st@),
                    nearer(m0, st@),
                    spread(net, *goal, side, m0, u, d, best, j as int, st@),
                    weights(st@, ds.nv()) <= weights(m0, ds.nv()),
                    weights(st@, ds.nv()) == weights(m0, ds.nv()) ==> st@ == m0,
                decreases g.len() - j,
            {
                let ghost m = st@;
                proof {
                    st.lemma_order();
                    lemma_room(st@, ds.nv());
                    assert(arcs[j as int] == shortcut(
                        *ds,
                        eff,
                        l,
                        lv as int,
                        lc as int,
                        fwd,
                        i as int,
                        j as int,
                    ));
                    assert(ov.levels@[lv as int].stored(lc as int, i as int, j as int, fwd) == value(
                        *ds,
                        eff,
                        l,
                        lv as int,
                        lc as int,
                        i as int,
                        j as int,
                        fwd,
                    ));
                    assert(l[lv as int].bnd[l[lv as int].bhead[lc as int] + j] == g[j as int]);
                }
                if j != i {
                    let step: u32 = ov.level(lv).cost_dir(lc, i, j, fwd);
                    if step != UNREACHABLE {
                        let nd: u32 = d.saturating_add(step);
                        improve(st, bl[j], nd, best, u, side, goal, Ghost(exact), Ghost(pot));
                    }
                }
                proof {
                    let r = lemma_slot(
                        net,
                        seeds,
                        m,
                        stamp,
                        clock,
                        pruned,
                        best,
                        u,
                        d,
                        j as int,
                        pot,
                        exact,
                        st@,
                    );
                    stamp = r.0;
                    clock = r.1;
                    lemma_same_settled(m0, m, st@);
                    lemma_spread(net, *goal, side, m0, u, d, best, j as int, m, st@);
                }
                j += 1;
            }
            proof {
                off = g.len() as int;
            }
        },
        None => {},
    }
    let (hs, segs): (&[u32], &[u32]) = if fwd {
        (ds.head, ds.eseg)
    } else {
        (ds.rhead, ds.rseg)
    };
    assert(head[u + 1] <= head[head.len() - 1]);
    let (a, e): (usize, usize) = (hs[u as usize] as usize, hs[u as usize + 1] as usize);
    let mut t: usize = a;
    while t < e
        invariant
            st.wf(),
            ov.wf(),
            ladder_ok(l),
            l == ov.ladder(),
            eff == table(ovr),
            fwd == (side == 0),
            ds.graph_ok(),
            ds.nv() == l[0].of.len(),
            ds.nv() < MAX_REACHED,
            ds.ns() <= u32::MAX,
            ovr matches Some(o) ==> o.wf(),
            lv < l.len(),
            lv < ov.levels@.len(),
            side < 2,
            callable(goal.floor),
            exact ==> drawn(*goal, side, pot),
            net == over_net(*ds, eff, l, home, fwd),
            net.n == ds.nv(),
            arcs == (net.arcs)(u as int),
            head == edge_head(*ds, fwd),
            segs@ == edge_segs(*ds, fwd),
            a == head[u as int],
            e == head[u + 1],
            a <= t <= e <= segs@.len(),
            e <= u32::MAX,
            0 <= off,
            arcs.len() == off + (e - a),
            forall|x: int|
                0 <= x < e - a ==> #[trigger] arcs[off + x] == leaving(
                    *ds,
                    eff,
                    l,
                    lv as int,
                    lc as int,
                    fwd,
                    u,
                    head[u as int] + x,
                ),
            u < ds.nv(),
            u != EMPTY,
            honest(net, seeds, st@, stamp, clock),
            st@.contains_key(u),
            st@[u].dist == d,
            exact ==> front(
                net,
                seeds,
                st@,
                pruned,
                best as int,
                pot,
                u as int,
                off + (t - a),
            ),
            same_settled(m0, st@),
            nearer(m0, st@),
            spread(net, *goal, side, m0, u, d, best, off + (t - a), st@),
            weights(st@, ds.nv()) <= weights(m0, ds.nv()),
            weights(st@, ds.nv()) == weights(m0, ds.nv()) ==> st@ == m0,
        decreases e - t,
    {
        let ghost m = st@;
        let v: u32 = if fwd {
            ds.target(u, t)
        } else {
            ds.rtarget(u, t)
        };
        proof {
            assert(v == far_end(*ds, fwd, u, t as int));
            st.lemma_order();
            lemma_room(st@, ds.nv());
            assert(arcs[off + (t - a)] == leaving(
                *ds,
                eff,
                l,
                lv as int,
                lc as int,
                fwd,
                u,
                head[u as int] + (t - a),
            ));
        }
        if ov.cell_at(lv, v) != lc {
            let sid: usize = seg_id(segs[t]);
            match edge_ds_ov(ds, ovr, sid) {
                Some(w) => {
                    let nd: u32 = d.saturating_add(w);
                    improve(st, v, nd, best, u, side, goal, Ghost(exact), Ghost(pot));
                },
                None => {},
            }
        }
        proof {
            let r = lemma_slot(
                net,
                seeds,
                m,
                stamp,
                clock,
                pruned,
                best,
                u,
                d,
                off + (t - a),
                pot,
                exact,
                st@,
            );
            stamp = r.0;
            clock = r.1;
            lemma_same_settled(m0, m, st@);
            lemma_spread(net, *goal, side, m0, u, d, best, off + (t - a), m, st@);
        }
        t += 1;
    }
    proof {
        if exact {
            lemma_front_settle(net, seeds, st@, pruned, best as int, pot, u);
        }
    }
    (Ghost(stamp), Ghost(clock))
}

/// What is settled was settled before, at the same cost.
pub open spec fn same_settled(m: Known, m2: Known) -> bool {
    forall|v: u32| #[trigger] settled(m2, v) ==> settled(m, v) && m2[v].dist == m[v].dist
}

pub(crate) proof fn lemma_same_settled(m0: Known, m: Known, m2: Known)
    requires
        nearer(m0, m),
        nearer(m, m2),
        same_settled(m0, m),
        same_settled(m, m2),
    ensures
        same_settled(m0, m2),
        nearer(m0, m2),
{
    assert forall|v: u32| #[trigger] m0.contains_key(v) implies m2.contains_key(v) && m2[v].dist
        <= m0[v].dist by {
        assert(m.contains_key(v));
    }
    assert forall|v: u32| #[trigger] settled(m2, v) implies settled(m0, v) && m2[v].dist
        == m0[v].dist by {
        assert(settled(m, v));
    }
}

// ------------------------------------------------------------- one settle

/// Every level's rows stay right when one is filled.
pub(crate) proof fn lemma_filled_row<'a>(
    s1: &Overlay<'a>,
    s2: &Overlay<'a>,
    ds: Dataset,
    effects: Seq<(u32, Effect)>,
    k: int,
    c: int,
    i: int,
    fwd: bool,
)
    requires
        0 <= k < s1.levels@.len(),
        0 <= c < regions(s1.ladder()[k]),
        0 <= i < gates(s1.ladder()[k], c).len(),
        s1.wf(),
        s1.valid_below(ds, effects, s1.levels@.len() as int),
        s2.one_row(s1, k, c, i, fwd),
        s2.valid_below(ds, effects, k),
        s2.levels@[k].has_row(c, i, fwd),
        if s1.levels@[k].has_row(c, i, fwd) {
            s2.grown(s1, k)
        } else {
            s2.row_true(ds, effects, k, c, i, fwd)
        },
    ensures
        s2.valid_below(ds, effects, s2.levels@.len() as int),
        s2.row_true(ds, effects, k, c, i, fwd),
        s2.ladder() == s1.ladder(),
{
    assert(s1.valid_below(ds, effects, k + 1)) by {
        assert forall|m: int| 0 <= m < k + 1 implies #[trigger] s1.valid(ds, effects, m) by {}
    }
    lemma_after_ensure(s1, s1, s2, ds, effects, k + 1, c, i, fwd);
    assert forall|m: int| 0 <= m < s2.levels@.len() implies #[trigger] s2.valid(ds, effects, m) by {
        if m > k {
            assert(s1.valid(ds, effects, m));
            let l = s1.ladder();
            let (a, b) = (s1.levels@[m], s2.levels@[m]);
            assert(b.same_table(&a));
            assert forall|c2: int, i2: int, f2: bool|
                0 <= c2 < regions(l[m]) && 0 <= i2 < gates(l[m], c2).len() && #[trigger] b.has_row(
                    c2,
                    i2,
                    f2,
                ) implies s2.row_true(ds, effects, m, c2, i2, f2) by {
                assert(a.has_row(c2, i2, f2));
                assert(s1.row_true(ds, effects, m, c2, i2, f2));
                assert forall|j: int| 0 <= j < gates(l[m], c2).len() implies #[trigger] b.stored(
                    c2,
                    i2,
                    j,
                    f2,
                ) == value(ds, effects, l, m, c2, i2, j, f2) by {
                    lemma_same_table(b, a, c2, i2, j, f2);
                    assert(a.stored(c2, i2, j, f2) == value(ds, effects, l, m, c2, i2, j, f2));
                }
            }
        } else {
            assert(s2.valid_below(ds, effects, k + 1));
        }
    }
}

/// The overlay is sound and all its rows are right.
pub open spec fn sound_tables(ov: &Overlay, ds: Dataset, effects: Seq<(u32, Effect)>) -> bool {
    &&& ov.wf()
    &&& ov.valid_below(ds, effects, ov.levels@.len() as int)
}

/// The row that settling `v` reads: its level, its region, and its place on
/// the boundary there. Nothing where it is on no boundary.
pub open spec fn row_for(l: Ladder, home: Seq<Seq<u32>>, v: u32) -> Option<(int, int, int)> {
    let k = climb(l, home, v, 0);
    let c = cell_at(l, k, v as int);
    match index_in(gates(l[k], c), v) {
        Some(i) => Some((k, c, i)),
        None => None,
    }
}

/// Settling `v` reads a row that is still to be filled.
pub open spec fn lacks(ov: Overlay, home: Seq<Seq<u32>>, v: u32, fwd: bool) -> bool {
    match row_for(ov.ladder(), home, v) {
        Some((k, c, i)) => !ov.levels@[k].has_row(c, i, fwd),
        None => false,
    }
}

/// How many of the first `n` vertices lack their row.
pub open spec fn lacking(ov: Overlay, home: Seq<Seq<u32>>, ahead: Seq<u32>, fwd: bool, n: int) -> int
    decreases n,
{
    if n <= 0 {
        0
    } else {
        lacking(ov, home, ahead, fwd, n - 1) + (if lacks(ov, home, ahead[n - 1], fwd) {
            1int
        } else {
            0
        })
    }
}

/// Filling what the vertices ahead lack fills this row: it is one of theirs,
/// or it stands below one of theirs, which is made from it.
pub open spec fn called_for(
    ov: Overlay,
    home: Seq<Seq<u32>>,
    ahead: Seq<u32>,
    fwd: bool,
    k: int,
    c: int,
    i: int,
    f: bool,
) -> bool {
    exists|x: int|
        {
            &&& 0 <= x < ahead.len()
            &&& lacks(ov, home, #[trigger] ahead[x], fwd)
            &&& row_for(ov.ladder(), home, ahead[x]) matches Some(r) && (k < r.0 || (f == fwd
                && r == (k, c, i)))
        }
}

/// The rows that the vertices ahead lacked are there now, none has gone, and
/// nothing was filled but what they call for.
#[verifier::opaque]
pub open spec fn supplied(
    before: Overlay,
    after: Overlay,
    home: Seq<Seq<u32>>,
    ahead: Seq<u32>,
    fwd: bool,
) -> bool {
    &&& rows_stay(before, after)
    &&& forall|x: int| 0 <= x < ahead.len() ==> !lacks(after, home, #[trigger] ahead[x], fwd)
    &&& forall|k: int, c: int, i: int, f: bool|
        is_row(before.ladder(), k, c, i) && #[trigger] after.levels@[k].has_row(c, i, f)
            && !before.levels@[k].has_row(c, i, f) ==> called_for(
            before,
            home,
            ahead,
            fwd,
            k,
            c,
            i,
            f,
        )
}

/// The vertices a look ahead takes into account: the first `depth` of the
/// queue.
pub open spec fn in_sight(st: &SearchState, depth: usize) -> Seq<u32> {
    st.order().take(
        if depth < st.order().len() {
            depth as int
        } else {
            st.order().len() as int
        },
    )
}

spec fn row_ints(w: (usize, u32, usize)) -> (int, int, int) {
    (w.0 as int, w.1 as int, w.2 as int)
}

/// A row is on the list.
spec fn wanted(want: Seq<(usize, u32, usize)>, r: (int, int, int)) -> bool {
    exists|y: int| 0 <= y < want.len() && row_ints(#[trigger] want[y]) == r
}

/// The list holds the rows that the first `n` vertices lack, and no others.
spec fn lists_lacks(
    ov: Overlay,
    home: Seq<Seq<u32>>,
    ahead: Seq<u32>,
    fwd: bool,
    n: int,
    want: Seq<(usize, u32, usize)>,
) -> bool {
    let l = ov.ladder();
    &&& want.len() == lacking(ov, home, ahead, fwd, n)
    &&& forall|x: int|
        0 <= x < n && lacks(ov, home, #[trigger] ahead[x], fwd) ==> wanted(
            want,
            row_for(l, home, ahead[x])->0,
        )
    &&& forall|y: int| 0 <= y < want.len() ==> lacked(ov, home, ahead, fwd, n, #[trigger] want[y])
}

spec fn lacked(
    ov: Overlay,
    home: Seq<Seq<u32>>,
    ahead: Seq<u32>,
    fwd: bool,
    n: int,
    w: (usize, u32, usize),
) -> bool {
    exists|x: int|
        0 <= x < n && lacks(ov, home, #[trigger] ahead[x], fwd) && row_for(
            ov.ladder(),
            home,
            ahead[x],
        ) == Some(row_ints(w))
}

/// One more vertex, and its row where it lacks it.
proof fn lemma_lists_more(
    ov: Overlay,
    home: Seq<Seq<u32>>,
    ahead: Seq<u32>,
    fwd: bool,
    n: int,
    want: Seq<(usize, u32, usize)>,
    more: Seq<(usize, u32, usize)>,
    w: (usize, u32, usize),
)
    requires
        0 <= n < ahead.len(),
        lists_lacks(ov, home, ahead, fwd, n, want),
        if lacks(ov, home, ahead[n], fwd) {
            more == want.push(w) && row_for(ov.ladder(), home, ahead[n]) == Some(row_ints(w))
        } else {
            more == want
        },
    ensures
        lists_lacks(ov, home, ahead, fwd, n + 1, more),
{
    assert forall|x: int| 0 <= x < n + 1 && lacks(ov, home, #[trigger] ahead[x], fwd) implies wanted(
        more,
        row_for(ov.ladder(), home, ahead[x])->0,
    ) by {
        if x < n {
            let r = row_for(ov.ladder(), home, ahead[x])->0;
            assert(wanted(want, r));
            let y = choose|y: int| 0 <= y < want.len() && row_ints(#[trigger] want[y]) == r;
            assert(more[y] == want[y]);
        } else {
            assert(more[want.len() as int] == w);
        }
    }
    assert forall|y: int| 0 <= y < more.len() implies lacked(
        ov,
        home,
        ahead,
        fwd,
        n + 1,
        #[trigger] more[y],
    ) by {
        if y < want.len() {
            assert(more[y] == want[y]);
            assert(lacked(ov, home, ahead, fwd, n, want[y]));
            let x = choose|x: int|
                0 <= x < n && lacks(ov, home, #[trigger] ahead[x], fwd) && row_for(
                    ov.ladder(),
                    home,
                    ahead[x],
                ) == Some(row_ints(want[y]));
            assert(lacks(ov, home, ahead[x], fwd));
        } else {
            assert(lacks(ov, home, ahead[n], fwd));
        }
    }
}

/// The first `n` rows of the list are there, none has gone, and nothing else
/// was filled but below one of the list.
spec fn filling(
    before: Overlay,
    after: Overlay,
    fwd: bool,
    want: Seq<(usize, u32, usize)>,
    n: int,
) -> bool {
    &&& before.ladder() == after.ladder()
    &&& before.bounds@ == after.bounds@
    &&& rows_stay(before, after)
    &&& forall|y: int| 0 <= y < n ==> got(after, fwd, #[trigger] want[y])
    &&& forall|k: int, c: int, i: int, f: bool|
        is_row(before.ladder(), k, c, i) && #[trigger] after.levels@[k].has_row(c, i, f)
            && !before.levels@[k].has_row(c, i, f) ==> due(fwd, want, k, c, i, f)
}

spec fn got(ov: Overlay, fwd: bool, w: (usize, u32, usize)) -> bool {
    ov.levels@[w.0 as int].has_row(w.1 as int, w.2 as int, fwd)
}

spec fn due(
    fwd: bool,
    want: Seq<(usize, u32, usize)>,
    k: int,
    c: int,
    i: int,
    f: bool,
) -> bool {
    exists|y: int|
        0 <= y < want.len() && {
            let r = row_ints(#[trigger] want[y]);
            k < r.0 || (f == fwd && r == (k, c, i))
        }
}

/// Filling the next row of the list.
proof fn lemma_filling<'a>(
    s0: Overlay<'a>,
    s1: &Overlay<'a>,
    s2: &Overlay<'a>,
    fwd: bool,
    want: Seq<(usize, u32, usize)>,
    n: int,
)
    requires
        0 <= n < want.len(),
        forall|y: int|
            0 <= y < want.len() ==> {
                let r = row_ints(#[trigger] want[y]);
                is_row(s1.ladder(), r.0, r.1, r.2)
            },
        s1.levels@.len() == s1.ladder().len(),
        filling(s0, *s1, fwd, want, n),
        s2.one_row(s1, want[n].0 as int, want[n].1 as int, want[n].2 as int, fwd),
        got(*s2, fwd, want[n]),
    ensures
        filling(s0, *s2, fwd, want, n + 1),
{
    let (k, c, i) = row_ints(want[n]);
    let l = s1.ladder();
    lemma_rows_stay(s1, s2, k, c, i, fwd);
    lemma_stay_chain(s0, *s1, *s2);
    assert forall|y: int| 0 <= y < n + 1 implies got(*s2, fwd, #[trigger] want[y]) by {
        if y < n {
            let r = row_ints(want[y]);
            assert(got(*s1, fwd, want[y]));
            assert(is_row(l, r.0, r.1, r.2));
            assert(s2.levels@[r.0].has_row(r.1, r.2, fwd));
        }
    }
    assert forall|m: int, d: int, j: int, f: bool|
        is_row(l, m, d, j) && #[trigger] s2.levels@[m].has_row(d, j, f)
            && !s0.levels@[m].has_row(d, j, f) implies due(fwd, want, m, d, j, f) by {
        assert(row_ints(want[n]) == (k, c, i));
        if s1.levels@[m].has_row(d, j, f) {
            assert(due(fwd, want, m, d, j, f));
        } else if m > k {
            assert(s2.ladder()[m] == l[m]);
            assert(s2.levels@[m].same_table(&s1.levels@[m]));
            assert(s1.levels@[m].rung() == l[m] && s2.levels@[m].rung() == l[m]);
        } else if m == k && (d, j, f) != (c, i, fwd) {
            assert(s2.levels@[k].has_row(d, j, f) == s1.levels@[k].has_row(d, j, f));
        }
    }
}

/// The row of a vertex is one.
proof fn lemma_row_for(l: Ladder, home: Seq<Seq<u32>>, v: u32)
    requires
        ladder_ok(l),
        1 <= home.len() <= l.len(),
        v < l[0].of.len(),
    ensures
        row_for(l, home, v) matches Some(r) ==> is_row(l, r.0, r.1, r.2),
{
    lemma_climb_bound(l, home, v, 0);
    let k = climb(l, home, v, 0);
    lemma_cell_bound(l, k, v as int);
}

/// With the whole list filled, what was lacking is supplied.
proof fn lemma_supplied(
    before: Overlay,
    after: Overlay,
    home: Seq<Seq<u32>>,
    ahead: Seq<u32>,
    fwd: bool,
    want: Seq<(usize, u32, usize)>,
)
    requires
        ladder_ok(before.ladder()),
        1 <= home.len() <= before.ladder().len(),
        forall|x: int| 0 <= x < ahead.len() ==> (#[trigger] ahead[x]) < before.ladder()[0].of.len(),
        lists_lacks(before, home, ahead, fwd, ahead.len() as int, want),
        filling(before, after, fwd, want, want.len() as int),
    ensures
        supplied(before, after, home, ahead, fwd),
{
    reveal(supplied);
    let l = before.ladder();
    assert forall|x: int| 0 <= x < ahead.len() implies !lacks(
        after,
        home,
        #[trigger] ahead[x],
        fwd,
    ) by {
        lemma_row_for(l, home, ahead[x]);
        if let Some(r) = row_for(l, home, ahead[x]) {
            if lacks(before, home, ahead[x], fwd) {
                assert(wanted(want, r));
                let y = choose|y: int| 0 <= y < want.len() && row_ints(#[trigger] want[y]) == r;
                assert(got(after, fwd, want[y]));
            } else {
                assert(before.levels@[r.0].has_row(r.1, r.2, fwd));
                assert(after.levels@[r.0].has_row(r.1, r.2, fwd));
            }
        }
    }
    assert forall|k: int, c: int, i: int, f: bool|
        is_row(l, k, c, i) && #[trigger] after.levels@[k].has_row(c, i, f)
            && !before.levels@[k].has_row(c, i, f) implies called_for(
        before,
        home,
        ahead,
        fwd,
        k,
        c,
        i,
        f,
    ) by {
        assert(due(fwd, want, k, c, i, f));
        let y = choose|y: int|
            0 <= y < want.len() && {
                let r = row_ints(#[trigger] want[y]);
                k < r.0 || (f == fwd && r == (k, c, i))
            };
        assert(lacked(before, home, ahead, fwd, ahead.len() as int, want[y]));
        let x = choose|x: int|
            0 <= x < ahead.len() && lacks(before, home, #[trigger] ahead[x], fwd) && row_for(
                l,
                home,
                ahead[x],
            ) == Some(row_ints(want[y]));
        assert(lacks(before, home, ahead[x], fwd));
    }
}

/// Fills the rows that the vertices ahead in the queue will need, when enough
/// are missing, and says how many were.
fn prefetch(
    st: &SearchState,
    ds: &Dataset,
    ovr: Option<&Overrides>,
    ov: &mut Overlay,
    home: &Vec<Vec<u32>>,
    fwd: bool,
    depth: usize,
    min: usize,
) -> (missing: usize)
    requires
        st.wf(),
        sound_tables(old(ov), *ds, table(ovr)),
        ds.graph_ok(),
        ds.nv() == old(ov).ladder()[0].of.len(),
        ds.ns() <= u32::MAX,
        ovr matches Some(o) ==> o.wf(),
        1 <= home@.len() <= old(ov).ladder().len(),
        forall|v: u32| #[trigger] st@.contains_key(v) ==> v < ds.nv(),
    ensures
        sound_tables(final(ov), *ds, table(ovr)),
        final(ov).ladder() == old(ov).ladder(),
        final(ov).bounds@ == old(ov).bounds@,
        rows_stay(*old(ov), *final(ov)),
        missing == lacking(
            *old(ov),
            lists_of(home@),
            in_sight(st, depth),
            fwd,
            in_sight(st, depth).len() as int,
        ),
        missing < min ==> *final(ov) == *old(ov),
        missing >= min ==> supplied(
            *old(ov),
            *final(ov),
            lists_of(home@),
            in_sight(st, depth),
            fwd,
        ),
{
    let ghost l = ov.ladder();
    let ghost eff = table(ovr);
    let ghost h = lists_of(home@);
    let mut ahead: Vec<u32> = Vec::new();
    st.peek_many(depth, &mut ahead);
    proof {
        st.lemma_order();
        assert forall|x: int| 0 <= x < ahead@.len() implies (#[trigger] ahead@[x]) < ds.nv() by {
            assert(ahead@[x] == st.order()[x]);
            assert(st.order().contains(st.order()[x]));
        }
    }
    let mut want: Vec<(usize, u32, usize)> = Vec::new();
    let mut n: usize = 0;
    while n < ahead.len()
        invariant
            sound_tables(ov, *ds, eff),
            l == ov.ladder(),
            h == lists_of(home@),
            ds.nv() == l[0].of.len(),
            1 <= home@.len() <= l.len(),
            forall|x: int| 0 <= x < ahead@.len() ==> (#[trigger] ahead@[x]) < ds.nv(),
            forall|y: int|
                0 <= y < want@.len() ==> {
                    let r = row_ints(#[trigger] want@[y]);
                    is_row(l, r.0, r.1, r.2)
                },
            n <= ahead@.len(),
            ov == old(ov),
            lists_lacks(*ov, h, ahead@, fwd, n as int, want@),
        decreases ahead@.len() - n,
    {
        let (lv, lc, li): (usize, u32, Option<usize>) = choose_level(ov, home, ahead[n]);
        let ghost w0 = want@;
        let ghost mut w: (usize, u32, usize) = (lv, lc, 0);
        match li {
            Some(i) => {
                if !ov.row_present(lv, lc, i, fwd) {
                    want.push((lv, lc, i));
                    proof {
                        w = (lv, lc, i);
                        assert(row_ints(w) == (lv as int, lc as int, i as int));
                    }
                }
            },
            None => {},
        }
        proof {
            lemma_lists_more(*ov, h, ahead@, fwd, n as int, w0, want@, w);
        }
        n += 1;
    }
    let missing: usize = want.len();
    if missing >= min {
        let mut n: usize = 0;
        while n < want.len()
            invariant
                sound_tables(ov, *ds, eff),
                l == ov.ladder(),
                eff == table(ovr),
                ds.graph_ok(),
                ds.nv() == l[0].of.len(),
                ds.ns() <= u32::MAX,
                ovr matches Some(o) ==> o.wf(),
                forall|y: int|
                    0 <= y < want@.len() ==> {
                        let r = row_ints(#[trigger] want@[y]);
                        is_row(l, r.0, r.1, r.2)
                    },
                n <= want@.len(),
                filling(*old(ov), *ov, fwd, want@, n as int),
            decreases want@.len() - n,
        {
            let (lv, lc, i): (usize, u32, usize) = want[n];
            let ghost was = *ov;
            proof {
                assert(row_ints(want@[n as int]) == (lv as int, lc as int, i as int));
                assert(is_row(l, lv as int, lc as int, i as int));
                assert(ov.valid_below(*ds, eff, lv as int)) by {
                    assert forall|m: int| 0 <= m < lv implies #[trigger] ov.valid(*ds, eff, m) by {}
                }
            }
            ov.ensure_row(ds, ovr, lv, lc, i, fwd);
            proof {
                lemma_filled_row(&was, ov, *ds, eff, lv as int, lc as int, i as int, fwd);
                lemma_filling(*old(ov), &was, ov, fwd, want@, n as int);
            }
            n += 1;
        }
        proof {
            lemma_supplied(*old(ov), *ov, h, ahead@, fwd, want@);
        }
    }
    missing
}

/// Fills ahead what is missing further down the queue, where that is worth a
/// batch: the rows of the batch, and how many settles to wait for the next look.
fn scan(
    st: &SearchState,
    ds: &Dataset,
    ovr: Option<&Overrides>,
    ov: &mut Overlay,
    home: &Vec<Vec<u32>>,
    fwd: bool,
    settings: &Settings,
    scan_every: usize,
) -> (r: (Option<usize>, usize))
    requires
        st.wf(),
        sound_tables(old(ov), *ds, table(ovr)),
        ds.graph_ok(),
        ds.nv() == old(ov).ladder()[0].of.len(),
        ds.nv() < MAX_REACHED,
        ds.ns() <= u32::MAX,
        ovr matches Some(o) ==> o.wf(),
        1 <= home@.len() <= old(ov).ladder().len(),
        forall|v: u32| #[trigger] st@.contains_key(v) ==> v < ds.nv(),
    ensures
        sound_tables(final(ov), *ds, table(ovr)),
        final(ov).ladder() == old(ov).ladder(),
        final(ov).bounds@ == old(ov).bounds@,
        rows_stay(*old(ov), *final(ov)),
        looked(
            lists_of(home@),
            *settings,
            st,
            fwd,
            *old(ov),
            scan_every,
            r.0,
            *final(ov),
            r.1,
        ),
{
    let missing: usize = prefetch(
        st,
        ds,
        ovr,
        ov,
        home,
        fwd,
        settings.prefetch_depth,
        settings.prefetch_min,
    );
    if missing >= settings.prefetch_min {
        let half: usize = scan_every / 2;
        (
            Some(missing),
            if half > 1 {
                half
            } else {
                1
            },
        )
    } else {
        let twice: usize = scan_every.saturating_add(scan_every);
        (
            None,
            if twice < settings.prefetch_depth {
                twice
            } else {
                settings.prefetch_depth
            },
        )
    }
}

/// `floor(v, side)` never overstates what it costs to get from `v` to the
/// other side's seeds.
pub open spec fn fair<F: Fn(u32, usize) -> u32>(
    floor: &F,
    side: usize,
    net: Net,
    seeds: Seq<(int, int)>,
) -> bool {
    forall|v: u32, r: u32, d: int, n: nat|
        #[trigger] call_ensures(floor, (v, side), r) && #[trigger] walk(net, seeds, v as int, d, n)
            ==> r <= d
}

/// What settling one vertex came to.
struct Visit {
    best: u32,
    met: bool,
    pruned: bool,
    above: bool,
    late: bool,
}

/// Expands a vertex that was just taken off the queue, or leaves it when the
/// bound says that nothing through it can be cheaper, and counts the meeting.
fn visit<'f, F: Fn(u32, usize) -> u32>(
    st: &mut SearchState,
    other: &SearchState,
    ds: &Dataset,
    ovr: Option<&Overrides>,
    ov: &mut Overlay,
    home: &Vec<Vec<u32>>,
    u: u32,
    d: u32,
    best: u32,
    any_lazy: bool,
    side: usize,
    goal: &Goal<'f, F>,
    Ghost(a): Ghost<Side>,
    Ghost(b): Ghost<Side>,
    Ghost(stamp0): Ghost<Map<u32, nat>>,
    Ghost(clock0): Ghost<nat>,
    Ghost(exact): Ghost<bool>,
    Ghost(x): Ghost<Set<int>>,
) -> (r: (Visit, Ghost<Side>, Ghost<Map<u32, nat>>, Ghost<nat>))
    requires
        old(st).wf(),
        other.wf(),
        sound_tables(old(ov), *ds, table(ovr)),
        ds.graph_ok(),
        ds.nv() == old(ov).ladder()[0].of.len(),
        ds.nv() < MAX_REACHED,
        ds.ns() <= u32::MAX,
        ovr matches Some(o) ==> o.wf(),
        side < 2,
        callable(goal.floor),
        1 <= home@.len() <= old(ov).ladder().len(),
        a.net == over_net(*ds, table(ovr), old(ov).ladder(), lists_of(home@), side == 0),
        a.known.contains_key(u),
        a.known[u].queued,
        a.known[u].dist == d,
        old(st)@ == a.known.insert(u, (Node { queued: false, ..a.known[u] })),
        honest(a.net, a.seeds, a.known, stamp0, clock0),
        other@ == b.known,
        exact ==> drawn(*goal, side, a.pot) && both(a, b, best as int) && mirrored(
            a.net,
            a.seeds,
            b.net,
            b.seeds,
            x,
        ) && fair(goal.floor, side, b.net, b.seeds),
    ensures
        final(st).wf(),
        sound_tables(final(ov), *ds, table(ovr)),
        final(ov).ladder() == old(ov).ladder(),
        final(ov).bounds@ == old(ov).bounds@,
        rows_stay(*old(ov), *final(ov)),
        r.0.late ==> any_lazy,
        visited(
            a.net,
            *goal,
            lists_of(home@),
            any_lazy,
            side,
            other@,
            u,
            d,
            old(st)@,
            best,
            *old(ov),
            final(st)@,
            r.0.best,
            *final(ov),
            r.0.pruned,
            r.0.above,
            r.0.late,
        ),
        r.1@.net == a.net,
        r.1@.seeds == a.seeds,
        r.1@.pot == a.pot,
        r.1@.known == final(st)@,
        honest(a.net, a.seeds, final(st)@, r.2@, r.3@),
        nearer(old(st)@, final(st)@),
        same_settled(old(st)@, final(st)@),
        exact ==> both(r.1@, b, r.0.best as int),
        weights(final(st)@, ds.nv()) <= weights(old(st)@, ds.nv()),
        weights(final(st)@, ds.nv()) == weights(old(st)@, ds.nv()) ==> final(st)@ == old(st)@,
        r.0.met == (r.0.best != best),
        r.0.met ==> r.0.best < best && final(st)@.contains_key(u) && b.known.contains_key(u)
            && final(st)@[u].dist + b.known[u].dist == r.0.best,
{
    let ghost l = ov.ladder();
    let ghost eff = table(ovr);
    let ghost h = lists_of(home@);
    let ghost net = a.net;
    let ghost m1 = st@;
    proof {
        assert(u < ds.nv() && u != EMPTY);
        lemma_trails_settle(net, a.seeds, a.known, stamp0, clock0, u);
        assert(sound(net, a.seeds, m1)) by {
            assert forall|v: u32| #[trigger] m1.contains_key(v) implies reachable(
                net,
                a.seeds,
                v as int,
            ) && (m1[v].dist < UNREACHABLE ==> walkable(net, a.seeds, v as int, m1[v].dist as int)) by {
                assert(a.known.contains_key(v));
            }
        }
        if exact {
            lemma_both_fronts(a, b, best as int);
            lemma_front_pop(net, a.seeds, a.known, a.pruned, best as int, a.pot, u, m1);
        }
    }
    let ghost ov0 = *ov;
    if best != UNREACHABLE {
        let f: u32 = (goal.floor)(u, side);
        assert(call_ensures(goal.floor, (u, side), f));
        if d.saturating_add(f) >= best {
            let ghost a2 = Side {
                known: m1,
                pruned: a.pruned.insert(u),
                ..a
            };
            proof {
                if exact {
                    assert forall|e: int, n: nat|
                        #[trigger] walk(b.net, b.seeds, u as int, e, n) implies a.known[u].dist + e
                        >= best by {
                        assert(call_ensures(goal.floor, (u, side), f));
                        assert(f <= e);
                    }
                    lemma_both_prune(a, b, best as int, u, a2);
                }
            }
            proof {
                assert(cut_off(*goal, side, u, d, best));
                reveal(visited);
            }
            return (
                Visit { best, met: false, pruned: true, above: false, late: false },
                Ghost(a2),
                Ghost(stamp0),
                Ghost(clock0),
            );
        }
    }
    assert(let_through(*goal, side, u, d, best));
    let at: (usize, u32, Option<usize>) = choose_level(ov, home, u);
    let fwd: bool = side == 0;
    let mut late: bool = false;
    match at.2 {
        Some(i) => {
            if any_lazy && !ov.row_present(at.0, at.1, i, fwd) {
                late = true;
            }
            let ghost was = *ov;
            proof {
                assert(ov.valid_below(*ds, eff, at.0 as int)) by {
                    assert forall|m: int| 0 <= m < at.0 implies #[trigger] ov.valid(*ds, eff, m) by {}
                }
            }
            ov.ensure_row(ds, ovr, at.0, at.1, i, fwd);
            proof {
                lemma_filled_row(&was, ov, *ds, eff, at.0 as int, at.1 as int, i as int, fwd);
                lemma_rows_stay(&was, ov, at.0 as int, at.1 as int, i as int, fwd);
            }
        },
        None => {},
    }
    let (Ghost(stamp), Ghost(clock)): (Ghost<Map<u32, nat>>, Ghost<nat>) = expand(
        st,
        ds,
        ovr,
        ov,
        at,
        u,
        d,
        best,
        side,
        goal,
        Ghost(h),
        Ghost(a.seeds),
        Ghost(stamp0),
        Ghost(clock0),
        Ghost(a.pruned.remove(u)),
        Ghost(a.pot),
        Ghost(exact),
    );
    let mut best2: u32 = best;
    match other.dist_of(u) {
        Some(y) => {
            if d.saturating_add(y) < best {
                best2 = d + y;
            }
        },
        None => {},
    }
    let ghost a2 = Side { known: st@, pruned: a.pruned.remove(u), ..a };
    proof {
        if exact {
            assert forall|v: u32|
                v != u && #[trigger] settled(a2.known, v) implies settled(a.known, v)
                && a2.known[v].dist == a.known[v].dist by {
                assert(settled(st@, v));
                assert(settled(m1, v));
            }
            assert(settled(st@, u));
            lemma_both_settle(a, b, best as int, best2 as int, u, a2, x);
        }
    }
    proof {
        reveal(visited);
    }
    (
        Visit { best: best2, met: best2 != best, pruned: false, above: at.0 > 0, late },
        Ghost(a2),
        Ghost(stamp),
        Ghost(clock),
    )
}

// -------------------------------------------------------------- the search

/// How many levels a search climbs.
pub open spec fn level_cap(levels: int, use_l2: bool, max_level: Option<usize>) -> int {
    let n = if use_l2 {
        levels
    } else {
        1
    };
    match max_level {
        Some(m) => if m < 1 {
            1
        } else if m < n {
            m as int
        } else {
            n
        },
        None => n,
    }
}

/// `path` runs from a seed of the one side to a seed of the other, over arcs
/// that with the two seeds cost at most `cost` together.
pub open spec fn routed(
    a: Net,
    sa: Seq<(int, int)>,
    b: Net,
    sb: Seq<(int, int)>,
    path: Seq<u32>,
    cost: int,
) -> bool {
    exists|p: Seq<u32>, q: Seq<u32>, x: int, y: int|
        {
            &&& #[trigger] backs(a, sa, p, x)
            &&& #[trigger] backs(b, sb, q, y)
            &&& x + y <= cost
            &&& p[0] == q[0]
            &&& path == p.reverse() + q.drop_first()
        }
}

/// Some level is filled as it is used.
pub open spec fn lazy(ov: Overlay) -> bool {
    exists|k: int| 0 <= k < ov.levels@.len() && (#[trigger] ov.levels@[k]).values is Lazy
}

/// What a search with these seeds comes to.
pub open spec fn outcome(
    a: Net,
    sa: Seq<(int, int)>,
    b: Net,
    sb: Seq<(int, int)>,
    exact: bool,
    slack: int,
    r: Option<(u32, Vec<u32>)>,
) -> bool {
    &&& r matches Some((cost, path)) ==> cost < UNREACHABLE && routed(
        a,
        sa,
        b,
        sb,
        path@,
        cost as int,
    )
    &&& exact ==> no_better(
        a,
        sa,
        b,
        sb,
        short_of(
            match r {
                Some((cost, _)) => cost as int,
                None => UNREACHABLE as int,
            },
            slack,
        ),
    )
}

/// How far a search has looked: as far as its answer, but not into the last
/// `slack` of what a cost can be.
pub open spec fn short_of(cost: int, slack: int) -> int {
    if cost <= UNREACHABLE - slack {
        cost
    } else {
        UNREACHABLE - slack
    }
}

/// `h` is what `floor` says.
pub open spec fn told<F: Fn(u32, usize) -> u32>(floor: &F, h: spec_fn(u32, int) -> int) -> bool {
    forall|v: u32, side: usize, r: u32|
        #[trigger] call_ensures(floor, (v, side), r) ==> r == h(v, side as int)
}

/// Along an arc the own bound falls by no more than the arc's weight, and the
/// other one rises by no more.
pub open spec fn consistent(h: spec_fn(u32, int) -> int, side: int, net: Net) -> bool {
    forall|u: int, s: int, v: int, w: int|
        #[trigger] arc_at(net, u, s, v, w) ==> h(u as u32, side) <= w + h(v as u32, side) && h(
            v as u32,
            1 - side,
        ) <= w + h(u as u32, 1 - side)
}

/// At no vertex do the two bounds lie further apart than `reach`, give or take
/// one that rounding may cost.
pub open spec fn spanned(h: spec_fn(u32, int) -> int, reach: int, n: int) -> bool {
    forall|v: u32|
        v < n ==> #[trigger] h(v, 0) <= h(v, 1) + reach + 1 && h(v, 1) <= h(v, 0) + reach + 1
}

/// A search may be drawn by `floor` and still find the best there is: `floor`
/// is consistent on both sides, and `reach` is large enough.
pub open spec fn steady<F: Fn(u32, usize) -> u32>(floor: &F, reach: u32, a: Net, b: Net) -> bool {
    exists|h: spec_fn(u32, int) -> int|
        #[trigger] told(floor, h) && consistent(h, 0, a) && consistent(h, 1, b) && spanned(
            h,
            reach as int,
            a.n,
        )
}

/// The potential of `v` on this side.
pub open spec fn pull_at(h: spec_fn(u32, int) -> int, astar: bool, reach: u32, side: int) -> spec_fn(
    u32,
) -> int {
    |v: u32|
        if astar {
            pull(h(v, side), h(v, 1 - side), reach as int)
        } else {
            0
        }
}

/// Where the search may be drawn, its potentials fall along no arc by more
/// than the arc weighs and balance each other.
proof fn lemma_pulls<'f, F: Fn(u32, usize) -> u32>(
    goal: Goal<'f, F>,
    h: spec_fn(u32, int) -> int,
    a: Net,
    b: Net,
)
    requires
        net_ok(a),
        net_ok(b),
        goal.astar ==> told(goal.floor, h) && consistent(h, 0, a) && consistent(h, 1, b) && spanned(
            h,
            goal.reach as int,
            a.n,
        ),
        !goal.astar ==> goal.reach == 0,
    ensures
        drawn(goal, 0, pull_at(h, goal.astar, goal.reach, 0)),
        drawn(goal, 1, pull_at(h, goal.astar, goal.reach, 1)),
        falls(a, pull_at(h, goal.astar, goal.reach, 0)),
        falls(b, pull_at(h, goal.astar, goal.reach, 1)),
        forall|v: u32|
            v < a.n ==> #[trigger] pull_at(h, goal.astar, goal.reach, 0)(v) + pull_at(
                h,
                goal.astar,
                goal.reach,
                1,
            )(v) <= goal.reach,
{
    let p0 = pull_at(h, goal.astar, goal.reach, 0);
    let p1 = pull_at(h, goal.astar, goal.reach, 1);
    assert forall|v: u32, p: u32| #[trigger] drawn_to(goal, v, 0, p) implies p <= p0(v) by {
        if goal.astar {
            assert((1 - 0) as usize as int == 1);
        }
    }
    assert forall|v: u32, p: u32| #[trigger] drawn_to(goal, v, 1, p) implies p <= p1(v) by {
        if goal.astar {
            assert((1 - 1) as usize as int == 0);
        }
    }
    assert forall|u: int, s: int, v: int, w: int| #[trigger] arc_at(a, u, s, v, w) implies p0(
        u as u32,
    ) <= w + p0(v as u32) by {
        assert(w >= 0);
    }
    assert forall|u: int, s: int, v: int, w: int| #[trigger] arc_at(b, u, s, v, w) implies p1(
        u as u32,
    ) <= w + p1(v as u32) by {
        assert(w >= 0);
    }
    assert forall|v: u32| v < a.n implies #[trigger] p0(v) + p1(v) <= goal.reach by {
        if goal.astar {
            assert(h(v, 0) <= h(v, 1) + goal.reach + 1 && h(v, 1) <= h(v, 0) + goal.reach + 1);
        }
    }
}

/// When the answer of a search is the best there is: its bound never
/// overstates, it is drawn to a goal only where that is safe, and each side
/// sees the other reversed.
pub open spec fn trustworthy<F: Fn(u32, usize) -> u32>(
    a: Net,
    sa: Seq<(int, int)>,
    b: Net,
    sb: Seq<(int, int)>,
    astar: bool,
    reach: u32,
    floor: &F,
) -> bool {
    &&& astar ==> steady(floor, reach, a, b)
    &&& fair(floor, 0, b, sb)
    &&& fair(floor, 1, a, sa)
    &&& exists|x: Set<int>| mirrored(a, sa, b, sb, x)
}

/// The answer to a query from `entries` to `exits` that goes by the gates of
/// the regions they stand in.
pub open spec fn crossed<F: Fn(u32, usize) -> u32>(
    ds: Dataset,
    effects: Seq<(u32, Effect)>,
    l: Ladder,
    entries: Seq<(u32, u32)>,
    exits: Seq<(u32, u32)>,
    nlev: int,
    astar: bool,
    reach: u32,
    floor: &F,
    gave_up: bool,
    r: Option<(u32, Vec<u32>)>,
) -> bool {
    exists|home: Seq<Seq<u32>>, sa: Seq<(int, int)>, sb: Seq<(int, int)>|
        {
            let a = over_net(ds, effects, l, home, true);
            let b = over_net(ds, effects, l, home, false);
            &&& #[trigger] homes(l, entries + exits, nlev, home)
            &&& #[trigger] entered(ds, effects, l, entries, true, sa)
            &&& #[trigger] entered(ds, effects, l, exits, false, sb)
            &&& outcome(
                a,
                sa,
                b,
                sb,
                trustworthy(a, sa, b, sb, astar, reach, floor) && !gave_up,
                if astar {
                    reach as int
                } else {
                    0
                },
                r,
            )
        }
}

/// The cheaper of two answers; where they cost the same, the second.
pub open spec fn cheaper(
    a: Option<(u32, Vec<u32>)>,
    b: Option<(u32, Vec<u32>)>,
) -> Option<(u32, Vec<u32>)> {
    if cost_of(a) < cost_of(b) {
        a
    } else {
        b
    }
}

/// The answer to a query from `entries` to `exits`: the cheaper of the best way
/// inside a region they share and the best way by the gates, unless the search
/// gave up.
pub open spec fn answered<F: Fn(u32, usize) -> u32>(
    ds: Dataset,
    effects: Seq<(u32, Effect)>,
    l: Ladder,
    entries: Seq<(u32, u32)>,
    exits: Seq<(u32, u32)>,
    nlev: int,
    astar: bool,
    reach: u32,
    floor: &F,
    gave_up: bool,
    r: Option<(u32, Vec<u32>)>,
) -> bool {
    exists|near: Option<(u32, Vec<u32>)>, far: Option<(u32, Vec<u32>)>|
        {
            &&& #[trigger] best_inside(ds, effects, l, entries, exits, near)
            &&& #[trigger] crossed(
                ds,
                effects,
                l,
                entries,
                exits,
                nlev,
                astar,
                reach,
                floor,
                gave_up,
                far,
            )
            &&& r == (if gave_up {
                None
            } else {
                cheaper(near, far)
            })
        }
}

/// The trail from `v` back to its seed.
pub(crate) fn walk_back(
    st: &SearchState,
    v: u32,
    Ghost(net): Ghost<Net>,
    Ghost(seeds): Ghost<Seq<(int, int)>>,
    Ghost(stamp): Ghost<Map<u32, nat>>,
    Ghost(clock): Ghost<nat>,
) -> (path: Vec<u32>)
    requires
        st.wf(),
        honest(net, seeds, st@, stamp, clock),
        st@.contains_key(v),
    ensures
        path@ == trail(st@, stamp, v),
{
    let ghost m = st@;
    let mut path: Vec<u32> = vec![v];
    let mut at: u32 = v;
    assert(path@ + trail(m, stamp, v).drop_first() =~= trail(m, stamp, v));
    loop
        invariant_except_break
            path@ + trail(m, stamp, at).drop_first() == trail(m, stamp, v),
        invariant
            st.wf(),
            m == st@,
            honest(net, seeds, m, stamp, clock),
            m.contains_key(at),
        ensures
            path@ == trail(m, stamp, v),
        decreases m[at].dist, stamp[at],
    {
        assert(at != EMPTY);
        match st.parent_of(at) {
            Some(p) => {
                proof {
                    assert(earlier_parent(m, stamp, at));
                    assert(trail(m, stamp, at).drop_first() =~= trail(m, stamp, p));
                    assert(trail(m, stamp, p)[0] == p);
                    assert(path@.push(p) + trail(m, stamp, p).drop_first() =~= path@ + trail(
                        m,
                        stamp,
                        p,
                    ));
                }
                path.push(p);
                at = p;
            },
            None => {
                proof {
                    assert(trail(m, stamp, at).drop_first() =~= Seq::empty());
                    assert(path@ + Seq::empty() =~= path@);
                }
                break;
            },
        }
    }
    path
}

pub(crate) open spec fn earlier_parent(m: Known, stamp: Map<u32, nat>, v: u32) -> bool {
    crate::overlay::net::earlier(m, stamp, m[v].parent, v)
}

/// The forward trail the right way round, then the backward one.
pub(crate) fn join_trails(a: &Vec<u32>, b: &Vec<u32>) -> (path: Vec<u32>)
    requires
        b@.len() >= 1,
    ensures
        path@ == a@.reverse() + b@.drop_first(),
{
    let mut path: Vec<u32> = Vec::new();
    let mut i: usize = a.len();
    while i > 0
        invariant
            i <= a@.len(),
            path@ == a@.reverse().take(a@.len() - i),
        decreases i,
    {
        i -= 1;
        path.push(a[i]);
        assert(path@ =~= a@.reverse().take(a@.len() - i));
    }
    assert(path@ =~= a@.reverse());
    let mut j: usize = 1;
    while j < b.len()
        invariant
            1 <= j <= b@.len(),
            path@ == a@.reverse() + b@.subrange(1, j as int),
        decreases b@.len() - j,
    {
        path.push(b[j]);
        j += 1;
        assert(path@ =~= a@.reverse() + b@.subrange(1, j as int));
    }
    path
}

pub(crate) proof fn lemma_front_empty_top(st: &SearchState)
    requires
        st.wf(),
    ensures
        forall|v: u32|
            #[trigger] st@.contains_key(v) && st@[v].queued ==> st.order().len() > 0
                && st@[st.order()[0]].prio <= st@[v].prio,
        st.order().len() > 0 ==> st@.contains_key(st.order()[0]) && st@[st.order()[0]].queued,
{
    st.lemma_order();
    if st.order().len() > 0 {
        assert(st.order().contains(st.order()[0]));
    }
    assert forall|v: u32| #[trigger] st@.contains_key(v) && st@[v].queued implies st.order().len()
        > 0 && st@[st.order()[0]].prio <= st@[v].prio by {
        assert(st.order().contains(v));
        let j = st.order().index_of(v);
        assert(st@[st.order()[0]].prio <= st@[st.order()[j]].prio);
    }
}

/// One side between two settles, as the search holds it.
pub open spec fn side_ok(
    a: Side,
    st: &SearchState,
    net: Net,
    stamp: Map<u32, nat>,
    clock: nat,
) -> bool {
    &&& st.wf()
    &&& a.known == st@
    &&& a.net == net
    &&& honest(net, a.seeds, st@, stamp, clock)
}

/// Two figures together, as far as a number can hold them.
pub open spec fn joint(a: usize, b: usize) -> usize {
    if a + b > usize::MAX {
        usize::MAX
    } else {
        (a + b) as usize
    }
}

proof fn lemma_all_take(a: OverlayRouter, b: OverlayRouter, n: usize)
    requires
        a.all_take(n),
        a.state0 == b.state0,
        a.state1 == b.state1,
        a.lstate == b.lstate,
    ensures
        b.all_take(n),
{
    let (f, c, r2) = choose|f: usize, c: usize, r2: usize|
        {
            &&& #[trigger] a.fronts_take(f)
            &&& #[trigger] a.lstate.takes(c, r2)
            &&& n == joint(f, r2)
        };
    let (c0, c1, r0, r1) = choose|c0: usize, c1: usize, r0: usize, r1: usize|
        {
            &&& #[trigger] a.state0.takes(c0, r0)
            &&& #[trigger] a.state1.takes(c1, r1)
            &&& f == joint(r0, r1)
        };
    assert(b.state0.takes(c0, r0) && b.state1.takes(c1, r1));
    assert(b.fronts_take(f) && b.lstate.takes(c, r2));
}

/// The vertices that were settled.
pub open spec fn at_rest(m: Known) -> Set<u32> {
    m.dom().filter(|v: u32| !m[v].queued)
}

/// A settle leaves at most one more vertex settled.
proof fn lemma_at_rest(m: Known, m1: Known, m2: Known, u: u32)
    requires
        m.dom().finite(),
        m1 == m.insert(u, (Node { queued: false, ..m[u] })),
        same_settled(m1, m2),
    ensures
        at_rest(m2).len() <= at_rest(m).len() + 1,
{
    let all = at_rest(m).insert(u);
    assert(at_rest(m2).subset_of(all)) by {
        assert forall|v: u32| at_rest(m2).contains(v) implies all.contains(v) by {
            assert(settled(m2, v));
            assert(settled(m1, v));
        }
    }
    vstd::set_lib::lemma_len_subset(at_rest(m2), all);
}

pub(crate) proof fn lemma_rest_room(st: &SearchState, n: int)
    requires
        st.wf(),
        forall|v: u32| #[trigger] st@.contains_key(v) ==> v < n,
        0 <= n < MAX_REACHED,
    ensures
        st@.dom().finite(),
        at_rest(st@).len() <= n,
{
    st.lemma_order();
    lemma_room(st@, n);
    vstd::set_lib::lemma_len_subset(at_rest(st@), st@.dom());
}

/// Whether what a search holds is more than it may.
pub fn past_budget(bytes: usize, budget: usize) -> (r: bool)
    ensures
        r == (bytes > budget),
{
    bytes > budget
}

impl OverlayRouter {
    /// `r` is what the two frontiers take, as far as a number can hold it.
    pub open spec fn fronts_take(&self, r: usize) -> bool {
        exists|c0: usize, c1: usize, r0: usize, r1: usize|
            {
                &&& #[trigger] self.state0.takes(c0, r0)
                &&& #[trigger] self.state1.takes(c1, r1)
                &&& r == joint(r0, r1)
            }
    }

    /// `r` is what the two frontiers and the region scratch take.
    pub open spec fn all_take(&self, r: usize) -> bool {
        exists|f: usize, c: usize, r2: usize|
            {
                &&& #[trigger] self.fronts_take(f)
                &&& #[trigger] self.lstate.takes(c, r2)
                &&& r == joint(f, r2)
            }
    }

    /// Bytes the two frontiers and the region scratch currently hold — the
    /// figure a memory budget is stated against.
    ///
    /// This is *capacity*, not occupancy, and deliberately so: a reused router
    /// keeps the tables it grew, which is the memory the machine has to have.
    pub fn bytes(&self) -> (r: usize)
        requires
            self.wf(),
        ensures
            self.all_take(r),
    {
        let f: usize = self.frontier_bytes();
        let r2: usize = self.lstate.bytes();
        let r: usize = f.saturating_add(r2);
        assert(self.all_take(r)) by {
            let c = choose|c: usize| #[trigger] self.lstate.takes(c, r2);
            assert(self.fronts_take(f) && self.lstate.takes(c, r2) && r == joint(f, r2));
        }
        r
    }

    /// Just the two frontiers — the part that scales with the search rather
    /// than with a region.
    pub fn frontier_bytes(&self) -> (r: usize)
        requires
            self.wf(),
        ensures
            self.fronts_take(r),
    {
        let r0: usize = self.state0.bytes();
        let r1: usize = self.state1.bytes();
        let r: usize = r0.saturating_add(r1);
        assert(self.fronts_take(r)) by {
            let c0 = choose|c: usize| #[trigger] self.state0.takes(c, r0);
            let c1 = choose|c: usize| #[trigger] self.state1.takes(c, r1);
            assert(self.state0.takes(c0, r0) && self.state1.takes(c1, r1));
        }
        r
    }

    /// Vertices the two frontiers have reached — the quantity the state is
    /// supposed to scale with.
    pub fn reached(&self) -> (r: usize)
        requires
            self.wf(),
            self.state0@.dom().len() + self.state1@.dom().len() <= usize::MAX,
        ensures
            r == self.state0@.dom().len() + self.state1@.dom().len(),
    {
        self.state0.reached() + self.state1.reached()
    }

    /// The counters of a search between `ends` places: none counts more than was
    /// settled, and what concerns rows filled on the way stays at nought where no
    /// level is lazy.
    pub open spec fn tallied(&self, ends: nat, lazy: bool) -> bool {
        &&& self.regions_entered == (if ends > u64::MAX {
            u64::MAX as int
        } else {
            ends as int
        })
        &&& self.pruned <= self.settled
        &&& self.regions2_entered <= self.settled
        &&& self.late_rows <= self.settled
        &&& self.batches <= self.settled
        &&& self.batches == 0 ==> self.batch_rows == 0
        &&& !lazy ==> self.late_rows == 0 && self.batches == 0
    }

    /// Every vertex that either side has settled was counted.
    pub open spec fn settles(&self) -> bool {
        at_rest(self.state0@).len() + at_rest(self.state1@).len() <= self.settled
    }

    /// What the search holds came to more than `budget`.
    pub open spec fn overdrawn(&self, budget: usize) -> bool {
        exists|n: usize| #[trigger] self.all_take(n) && n > budget
    }

    /// The search between two sets of vertices, each with the cost of getting
    /// on or off there: inside the regions they share, and by the gates.
    pub fn seed_and_run<F: Fn(u32, usize) -> u32>(
        &mut self,
        ds: &Dataset,
        ovr: Option<&Overrides>,
        ov: &mut Overlay,
        entries: &[(u32, u32)],
        exits: &[(u32, u32)],
        settings: &Settings,
        floor: &F,
        reach: u32,
    ) -> (r: Option<(u32, Vec<u32>)>)
        requires
            old(self).wf(),
            sound_tables(old(ov), *ds, table(ovr)),
            ds.graph_ok(),
            ds.nv() == old(ov).ladder()[0].of.len(),
            ds.nv() < MAX_REACHED,
            ds.ns() <= u32::MAX,
            ovr matches Some(o) ==> o.wf(),
            forall|i: int| 0 <= i < entries@.len() ==> (#[trigger] entries@[i]).0 < ds.nv(),
            forall|i: int| 0 <= i < exits@.len() ==> (#[trigger] exits@[i]).0 < ds.nv(),
            callable(floor),
        ensures
            final(self).wf(),
            final(self).budget_bytes == old(self).budget_bytes,
            final(self).use_l2 == old(self).use_l2,
            final(self).tallied(entries@.len() + exits@.len(), lazy(*old(ov))),
            final(self).settles(),
            retold(
                *ds,
                table(ovr),
                (Query {
                    entries: entries@,
                    exits: exits@,
                    nlev: level_cap(
                        old(ov).ladder().len() as int,
                        old(self).use_l2,
                        settings.max_level,
                    ),
                    settings: *settings,
                    floor,
                    reach,
                }),
                *old(ov),
                *final(self),
                *final(ov),
            ),
            sound_tables(final(ov), *ds, table(ovr)),
            final(ov).ladder() == old(ov).ladder(),
            final(ov).bounds@ == old(ov).bounds@,
            rows_stay(*old(ov), *final(ov)),
            final(self).over_budget ==> r is None && final(self).overdrawn(old(self).budget_bytes),
            old(self).budget_bytes == usize::MAX ==> !final(self).over_budget,
            answered(
                *ds,
                table(ovr),
                old(ov).ladder(),
                entries@,
                exits@,
                level_cap(old(ov).ladder().len() as int, old(self).use_l2, settings.max_level),
                settings.astar,
                reach,
                floor,
                final(self).over_budget,
                r,
            ),
    {
        proof {
            lemma_ladder_len(ov.ladder());
        }
        let near: Option<(u32, Vec<u32>)> = find_inside(
            &mut self.lstate,
            ds,
            ovr,
            ov,
            entries,
            exits,
        );
        let far: Option<(u32, Vec<u32>)> = self.cross(
            ds,
            ovr,
            ov,
            entries,
            exits,
            settings,
            floor,
            reach,
        );
        if self.over_budget {
            return None;
        }
        let there: u32 = match &far {
            Some(a) => a.0,
            None => UNREACHABLE,
        };
        let here: u32 = match &near {
            Some(a) => a.0,
            None => UNREACHABLE,
        };
        if here < there {
            near
        } else {
            far
        }
    }

    /// Counts one settle, and the batch of rows that was filled before it.
    fn count(
        &mut self,
        batch: Option<usize>,
        pruned: bool,
        above: bool,
        late: bool,
        Ghost(ends): Ghost<nat>,
        Ghost(some_lazy): Ghost<bool>,
    )
        requires
            old(self).tallied(ends, some_lazy),
            batch is Some || late ==> some_lazy,
        ensures
            final(self).tallied(ends, some_lazy),
            final(self).settled == one_more(old(self).settled, true),
            final(self).pruned == one_more(old(self).pruned, pruned),
            final(self).regions2_entered == one_more(old(self).regions2_entered, above),
            final(self).late_rows == one_more(old(self).late_rows, late),
            final(self).batches == one_more(old(self).batches, batch is Some),
            batch is None ==> final(self).batch_rows == old(self).batch_rows,
            batch matches Some(rows) ==> final(self).batch_rows == (if old(self).batch_rows + rows
                > u64::MAX {
                u64::MAX as int
            } else {
                old(self).batch_rows + rows
            }),
            *final(self) == (OverlayRouter {
                settled: final(self).settled,
                regions2_entered: final(self).regions2_entered,
                pruned: final(self).pruned,
                batches: final(self).batches,
                batch_rows: final(self).batch_rows,
                late_rows: final(self).late_rows,
                ..*old(self)
            }),
    {
        self.settled = self.settled.saturating_add(1);
        match batch {
            Some(rows) => {
                self.batches = self.batches.saturating_add(1);
                self.batch_rows = self.batch_rows.saturating_add(rows as u64);
            },
            None => {},
        }
        if pruned {
            self.pruned = self.pruned.saturating_add(1);
        }
        if above {
            self.regions2_entered = self.regions2_entered.saturating_add(1);
        }
        if late {
            self.late_rows = self.late_rows.saturating_add(1);
        }
    }

    /// The search between two sets of vertices by the gates of their regions.
    #[verifier::rlimit(100)]
    #[verifier::spinoff_prover]
    fn cross<F: Fn(u32, usize) -> u32>(
        &mut self,
        ds: &Dataset,
        ovr: Option<&Overrides>,
        ov: &mut Overlay,
        entries: &[(u32, u32)],
        exits: &[(u32, u32)],
        settings: &Settings,
        floor: &F,
        reach: u32,
    ) -> (r: Option<(u32, Vec<u32>)>)
        requires
            old(self).wf(),
            sound_tables(old(ov), *ds, table(ovr)),
            ds.graph_ok(),
            ds.nv() == old(ov).ladder()[0].of.len(),
            ds.nv() < MAX_REACHED,
            ds.ns() <= u32::MAX,
            ovr matches Some(o) ==> o.wf(),
            forall|i: int| 0 <= i < entries@.len() ==> (#[trigger] entries@[i]).0 < ds.nv(),
            forall|i: int| 0 <= i < exits@.len() ==> (#[trigger] exits@[i]).0 < ds.nv(),
            callable(floor),
        ensures
            final(self).wf(),
            final(self).budget_bytes == old(self).budget_bytes,
            final(self).use_l2 == old(self).use_l2,
            sound_tables(final(ov), *ds, table(ovr)),
            final(ov).ladder() == old(ov).ladder(),
            final(self).tallied(entries@.len() + exits@.len(), lazy(*old(ov))),
            final(self).settles(),
            retold(
                *ds,
                table(ovr),
                (Query {
                    entries: entries@,
                    exits: exits@,
                    nlev: level_cap(
                        old(ov).ladder().len() as int,
                        old(self).use_l2,
                        settings.max_level,
                    ),
                    settings: *settings,
                    floor,
                    reach,
                }),
                *old(ov),
                *final(self),
                *final(ov),
            ),
            final(ov).bounds@ == old(ov).bounds@,
            rows_stay(*old(ov), *final(ov)),
            final(self).over_budget ==> r is None && final(self).overdrawn(old(self).budget_bytes),
            old(self).budget_bytes == usize::MAX ==> !final(self).over_budget,
            crossed(
                *ds,
                table(ovr),
                old(ov).ladder(),
                entries@,
                exits@,
                level_cap(old(ov).ladder().len() as int, old(self).use_l2, settings.max_level),
                settings.astar,
                reach,
                floor,
                final(self).over_budget,
                r,
            ),
    {
        let ghost l = ov.ladder();
        let ghost eff = table(ovr);
        proof {
            lemma_ladder_len(l);
        }
        self.settled = 0;
        self.regions_entered = 0;
        self.regions2_entered = 0;
        self.pruned = 0;
        self.batches = 0;
        self.batch_rows = 0;
        self.late_rows = 0;
        self.over_budget = false;
        let any_lazy: bool = ov.any_lazy();
        let astar: bool = settings.astar && entries.len() > 0 && exits.len() > 0;
        let cc: u32 = if astar {
            reach
        } else {
            0
        };
        let goal: Goal<F> = Goal { astar, reach: cc, floor };
        let all: usize = if self.use_l2 {
            ov.levels()
        } else {
            1
        };
        let nlev: usize = match settings.max_level {
            Some(m) => if m < 1 {
                1
            } else if m < all {
                m
            } else {
                all
            },
            None => all,
        };
        let ends: Vec<(u32, u32)> = both_ends(entries, exits);
        proof {
            assert forall|i: int| 0 <= i < ends@.len() implies (#[trigger] ends@[i]).0
                < ov.ladder()[0].of.len() by {
                if i < entries@.len() {
                    assert(ends@[i] == entries@[i]);
                } else {
                    assert(ends@[i] == exits@[i - entries@.len()]);
                }
            }
        }
        let home: Vec<Vec<u32>> = find_homes(ov, &ends, nlev);
        let ghost h = lists_of(home@);
        let ghost net0 = over_net(*ds, eff, l, h, true);
        let ghost net1 = over_net(*ds, eff, l, h, false);
        proof {
            lemma_over_ok(*ds, eff, l, h, true);
            lemma_over_ok(*ds, eff, l, h, false);
        }
        let ghost even = settings.astar ==> steady(floor, reach, net0, net1);
        let ghost told_h = choose|t: spec_fn(u32, int) -> int|
            #[trigger] told(floor, t) && consistent(t, 0, net0) && consistent(t, 1, net1) && spanned(
                t,
                reach as int,
                net0.n,
            );
        let ghost pot0 = pull_at(told_h, astar, cc, 0);
        let ghost pot1 = pull_at(told_h, astar, cc, 1);
        proof {
            if even {
                lemma_pulls(goal, told_h, net0, net1);
            }
        }
        let (Ghost(sa), Ghost(mut stamp0), Ghost(mut clock0)): (
            Ghost<Seq<(int, int)>>,
            Ghost<Map<u32, nat>>,
            Ghost<nat>,
        ) = enter(
            &mut self.state0,
            &mut self.lstate,
            ds,
            ovr,
            ov,
            entries,
            0,
            &goal,
            Ghost(net0),
            Ghost(even),
            Ghost(pot0),
        );
        let (Ghost(sb), Ghost(mut stamp1), Ghost(mut clock1)): (
            Ghost<Seq<(int, int)>>,
            Ghost<Map<u32, nat>>,
            Ghost<nat>,
        ) = enter(
            &mut self.state1,
            &mut self.lstate,
            ds,
            ovr,
            ov,
            exits,
            1,
            &goal,
            Ghost(net1),
            Ghost(even),
            Ghost(pot1),
        );
        self.regions_entered = (entries.len() as u64).saturating_add(exits.len() as u64);
        let ghost exact = trustworthy(net0, sa, net1, sb, settings.astar, reach, floor);
        let ghost slack: int = if settings.astar {
            reach as int
        } else {
            0
        };
        let ghost x = choose|x: Set<int>| mirrored(net0, sa, net1, sb, x);
        let ghost mut a = Side {
            net: net0,
            seeds: sa,
            known: self.state0@,
            pruned: Set::empty(),
            pot: pot0,
        };
        let ghost mut b = Side {
            net: net1,
            seeds: sb,
            known: self.state1@,
            pruned: Set::empty(),
            pot: pot1,
        };
        proof {
            if exact {
                lemma_both_start(a, b, UNREACHABLE as int);
            }
            lemma_front_empty_top(&self.state0);
            lemma_front_empty_top(&self.state1);
            assert(at_rest(self.state0@) =~= Set::empty());
            assert(at_rest(self.state1@) =~= Set::empty());
        }
        let ghost q = Query {
            entries: entries@,
            exits: exits@,
            nlev: nlev as int,
            settings: *settings,
            floor,
            reach,
        };
        let ghost frame = frame_of(*ds, eff, l, h, any_lazy, q);
        let ghost mut scenes = seq![
            Scene {
                fronts: (self.state0, self.state1),
                best: UNREACHABLE,
                ov: *ov,
                since: usize::MAX,
                every: 1,
            },
        ];
        let ghost mut log: Seq<Turn> = Seq::empty();
        proof {
            assert(frame.goal == goal);
            lemma_played_none(frame, scenes[0]);
            lemma_recounted_none(*self);
            assert(begun(frame, sa, sb, *old(ov), scenes[0]));
        }
        if self.state0.peek().is_none() || self.state1.peek().is_none() {
            proof {
                assert(over(frame, scenes.last()));
                assert(told_by(*ds, eff, q, *old(ov), *self, *ov, h, sa, sb, scenes, log));
                lemma_nothing_queued(&self.state0);
                lemma_nothing_queued(&self.state1);
                if sa.len() == 0 {
                    lemma_no_walk(net0, sa);
                } else {
                    lemma_no_walk(net1, sb);
                }
                assert(outcome(net0, sa, net1, sb, exact && !self.over_budget, slack, None));
            }
            return None;
        }
        let mut best: u32 = UNREACHABLE;
        let mut meet: u32 = EMPTY;
        let mut since_scan: usize = usize::MAX;
        let mut scan_every: usize = 1;
        loop
            invariant
                self.lstate.wf(),
                self.budget_bytes == old(self).budget_bytes,
                self.use_l2 == old(self).use_l2,
                !self.over_budget,
                sound_tables(ov, *ds, eff),
                ov.ladder() == l,
                eff == table(ovr),
                ds.graph_ok(),
                ds.nv() == l[0].of.len(),
                ds.nv() < MAX_REACHED,
                ds.ns() <= u32::MAX,
                ovr matches Some(o) ==> o.wf(),
                callable(floor),
                goal.floor == floor,
                goal.astar == astar,
                astar ==> settings.astar,
                1 <= nlev <= l.len(),
                h == lists_of(home@),
                home@.len() == nlev,
                homes(l, entries@ + exits@, nlev as int, h),
                nlev == level_cap(l.len() as int, old(self).use_l2, settings.max_level),
                entered(*ds, eff, l, entries@, true, sa),
                entered(*ds, eff, l, exits@, false, sb),
                net0 == over_net(*ds, eff, l, h, true),
                net1 == over_net(*ds, eff, l, h, false),
                net0.n == ds.nv(),
                net1.n == ds.nv(),
                side_ok(a, &self.state0, net0, stamp0, clock0),
                side_ok(b, &self.state1, net1, stamp1, clock1),
                a.seeds == sa,
                b.seeds == sb,
                exact == trustworthy(net0, sa, net1, sb, settings.astar, reach, floor),
                exact ==> mirrored(net0, sa, net1, sb, x),
                exact ==> both(a, b, best as int),
                !astar ==> cc == 0,
                0 <= cc <= slack,
                slack <= UNREACHABLE,
                a.pot == pot0,
                b.pot == pot1,
                exact ==> drawn(goal, 0, pot0) && drawn(goal, 1, pot1),
                exact ==> falls(net0, pot0) && falls(net1, pot1),
                exact ==> forall|v: u32|
                    v < net0.n ==> #[trigger] pot0(v) + pot1(v) <= cc,
                l == old(ov).ladder(),
                any_lazy == lazy(*old(ov)),
                self.tallied(entries@.len() + exits@.len(), any_lazy),
                self.settles(),
                ov.bounds@ == old(ov).bounds@,
                rows_stay(*old(ov), *ov),
                frame == frame_of(*ds, eff, l, h, any_lazy, q),
                frame.goal == goal,
                goal.reach == cc,
                q.entries == entries@,
                q.exits == exits@,
                q.nlev == nlev,
                q.settings == *settings,
                q.floor == floor,
                q.reach == reach,
                scenes.len() > 0,
                begun(frame, sa, sb, *old(ov), scenes[0]),
                played(frame, scenes, log),
                forall|i: int| 0 <= i < log.len() ==> !(#[trigger] log[i]).quit,
                scenes.last() == (Scene {
                    fronts: (self.state0, self.state1),
                    best,
                    ov: *ov,
                    since: since_scan,
                    every: scan_every,
                }),
                recounted(*self, log),
                meet == EMPTY <==> best == UNREACHABLE,
                meet != EMPTY ==> self.state0@.contains_key(meet) && self.state1@.contains_key(meet)
                    && self.state0@[meet].dist + self.state1@[meet].dist <= best,
            ensures
                over(frame, scenes.last()),
                self.over_budget || (exact ==> no_better(
                    net0,
                    sa,
                    net1,
                    sb,
                    short_of(best as int, slack),
                )),
            decreases
                    weights(self.state0@, ds.nv()) + weights(self.state1@, ds.nv()),
                    waiting(self.state0@).len() + waiting(self.state1@).len(),
        {
            let tf: u32 = match self.state0.peek() {
                Some(p) => p,
                None => UNREACHABLE,
            };
            let tb: u32 = match self.state1.peek() {
                Some(p) => p,
                None => UNREACHABLE,
            };
            proof {
                lemma_front_empty_top(&self.state0);
                lemma_front_empty_top(&self.state1);
                self.state0.lemma_order();
                self.state1.lemma_order();
            }
            if (tf == UNREACHABLE && tb == UNREACHABLE) || tf.saturating_add(tb)
                >= best.saturating_add(cc) {
                proof {
                    if exact {
                        lemma_both_fronts(a, b, best as int);
                        let tops: (int, int) = (
                            if self.state0.order().len() > 0 {
                                tf as int
                            } else {
                                UNREACHABLE + UNREACHABLE
                            },
                            if self.state1.order().len() > 0 {
                                tb as int
                            } else {
                                UNREACHABLE + UNREACHABLE
                            },
                        );
                        assert(topped(a, tops.0)) by {
                            assert forall|v: u32|
                                #[trigger] a.known.contains_key(v)
                                    && a.known[v].queued implies a.known[v].dist + (a.pot)(v)
                                >= tops.0 by {
                                assert(self.state0@.contains_key(v));
                            }
                        }
                        assert(topped(b, tops.1)) by {
                            assert forall|v: u32|
                                #[trigger] b.known.contains_key(v)
                                    && b.known[v].queued implies b.known[v].dist + (b.pot)(v)
                                >= tops.1 by {
                                assert(self.state1@.contains_key(v));
                            }
                        }
                        let bound = short_of(best as int, slack);
                        lemma_meet(a, b, best as int, x, tops, cc as int, bound);
                    }
                }
                break;
            }
            let ghost scene = scenes.last();
            let ghost opening = *self;
            let side: usize = if tf <= tb {
                0
            } else {
                1
            };
            let mut batch: Option<usize> = None;
            if any_lazy && since_scan >= scan_every {
                since_scan = 0;
                let ghost was = *ov;
                let (got, every): (Option<usize>, usize) = scan(
                    if side == 0 {
                        &self.state0
                    } else {
                        &self.state1
                    },
                    ds,
                    ovr,
                    ov,
                    &home,
                    side == 0,
                    settings,
                    scan_every,
                );
                batch = got;
                scan_every = every;
                proof {
                    lemma_stay_chain(*old(ov), was, *ov);
                }
            }
            since_scan = since_scan.saturating_add(1);
            let ghost mid = *ov;
            let popped: Option<(u32, u32)> = if side == 0 {
                self.state0.pop()
            } else {
                self.state1.pop()
            };
            assert(popped is Some);
            let (u, d): (u32, u32) = match popped {
                Some(p) => p,
                None => {
                    break;
                },
            };
            proof {
                if side == 0 {
                    lemma_measure_pop(a.known, ds.nv(), u);
                } else {
                    lemma_measure_pop(b.known, ds.nv(), u);
                }
            }
            proof {
                if side == 0 {
                    lemma_at_rest(a.known, self.state0@, self.state0@, u);
                } else {
                    lemma_at_rest(b.known, self.state1@, self.state1@, u);
                }
                lemma_rest_room(&self.state0, ds.nv());
                lemma_rest_room(&self.state1, ds.nv());
            }
            let held: usize = self.bytes();
            if past_budget(held, self.budget_bytes) {
                let ghost full = *self;
                self.count(
                    batch,
                    false,
                    false,
                    false,
                    Ghost(entries@.len() + exits@.len()),
                    Ghost(any_lazy),
                );
                self.over_budget = true;
                proof {
                    lemma_all_take(full, *self, held);
                    let t = Turn {
                        side,
                        batch,
                        pruned: false,
                        above: false,
                        late: false,
                        quit: true,
                    };
                    let next = Scene {
                        fronts: (self.state0, self.state1),
                        best,
                        ov: *ov,
                        since: since_scan,
                        every: scan_every,
                    };
                    assert(turn_by(frame, scene, t, mid, next));
                    lemma_played(frame, scenes, log, t, mid, next);
                    lemma_recounted_same(opening, full, log);
                    lemma_recounted(full, *self, log, t);
                    scenes = scenes.push(next);
                    log = log.push(t);
                    assert(told_by(*ds, eff, q, *old(ov), *self, *ov, h, sa, sb, scenes, log));
                }
                return None;
            }
            let ghost (m0, m1) = (self.state0@, self.state1@);
            let ghost was = *ov;
            let v: Visit;
            if side == 0 {
                let (v0, Ghost(a2), Ghost(st2), Ghost(cl2)): (
                    Visit,
                    Ghost<Side>,
                    Ghost<Map<u32, nat>>,
                    Ghost<nat>,
                ) = visit(
                    &mut self.state0,
                    &self.state1,
                    ds,
                    ovr,
                    ov,
                    &home,
                    u,
                    d,
                    best,
                    any_lazy,
                    0,
                    &goal,
                    Ghost(a),
                    Ghost(b),
                    Ghost(stamp0),
                    Ghost(clock0),
                    Ghost(exact),
                    Ghost(x),
                );
                v = v0;
                proof {
                    lemma_at_rest(a.known, m0, self.state0@, u);
                    lemma_rest_room(&self.state0, ds.nv());
                    a = a2;
                    stamp0 = st2;
                    clock0 = cl2;
                }
            } else {
                proof {
                    if exact {
                        lemma_both_swap(a, b, best as int);
                        assert(mirrored(net1, sb, net0, sa, x));
                    }
                }
                let (v0, Ghost(b2), Ghost(st2), Ghost(cl2)): (
                    Visit,
                    Ghost<Side>,
                    Ghost<Map<u32, nat>>,
                    Ghost<nat>,
                ) = visit(
                    &mut self.state1,
                    &self.state0,
                    ds,
                    ovr,
                    ov,
                    &home,
                    u,
                    d,
                    best,
                    any_lazy,
                    1,
                    &goal,
                    Ghost(b),
                    Ghost(a),
                    Ghost(stamp1),
                    Ghost(clock1),
                    Ghost(exact),
                    Ghost(x),
                );
                v = v0;
                proof {
                    lemma_at_rest(b.known, m1, self.state1@, u);
                    lemma_rest_room(&self.state1, ds.nv());
                    b = b2;
                    stamp1 = st2;
                    clock1 = cl2;
                    if exact {
                        lemma_both_swap(b, a, v.best as int);
                    }
                }
            }
            proof {
                lemma_stay_chain(*old(ov), was, *ov);
            }
            let ghost full = *self;
            self.count(
                batch,
                v.pruned,
                v.above,
                v.late,
                Ghost(entries@.len() + exits@.len()),
                Ghost(any_lazy),
            );
            proof {
                if meet != EMPTY {
                    assert(m0.contains_key(meet) && m1.contains_key(meet));
                }
            }
            proof {
                let t = Turn {
                    side,
                    batch,
                    pruned: v.pruned,
                    above: v.above,
                    late: v.late,
                    quit: false,
                };
                let next = Scene {
                    fronts: (self.state0, self.state1),
                    best: v.best,
                    ov: *ov,
                    since: since_scan,
                    every: scan_every,
                };
                assert(turn_by(frame, scene, t, mid, next));
                lemma_played(frame, scenes, log, t, mid, next);
                lemma_recounted_same(opening, full, log);
                lemma_recounted(full, *self, log, t);
                scenes = scenes.push(next);
                log = log.push(t);
            }
            if v.met {
                best = v.best;
                meet = u;
            }
        }
        assert(told_by(*ds, eff, q, *old(ov), *self, *ov, h, sa, sb, scenes, log));
        if meet == EMPTY {
            assert(outcome(net0, sa, net1, sb, exact && !self.over_budget, slack, None));
            return None;
        }
        let p: Vec<u32> = walk_back(
            &self.state0,
            meet,
            Ghost(net0),
            Ghost(sa),
            Ghost(stamp0),
            Ghost(clock0),
        );
        let q: Vec<u32> = walk_back(
            &self.state1,
            meet,
            Ghost(net1),
            Ghost(sb),
            Ghost(stamp1),
            Ghost(clock1),
        );
        proof {
            lemma_trail_backs(net0, sa, self.state0@, stamp0, clock0, meet);
            lemma_trail_backs(net1, sb, self.state1@, stamp1, clock1, meet);
        }
        let path: Vec<u32> = join_trails(&p, &q);
        let r: Option<(u32, Vec<u32>)> = Some((best, path));
        proof {
            assert(backs(net0, sa, p@, self.state0@[meet].dist as int));
            assert(backs(net1, sb, q@, self.state1@[meet].dist as int));
            assert(routed(net0, sa, net1, sb, path@, best as int));
            assert(outcome(net0, sa, net1, sb, exact && !self.over_budget, slack, r));
        }
        r
    }
}

fn both_ends(a: &[(u32, u32)], b: &[(u32, u32)]) -> (r: Vec<(u32, u32)>)
    ensures
        r@ == a@ + b@,
{
    let mut r: Vec<(u32, u32)> = Vec::new();
    let mut i: usize = 0;
    while i < a.len()
        invariant
            i <= a@.len(),
            r@ == a@.take(i as int),
        decreases a@.len() - i,
    {
        r.push(a[i]);
        i += 1;
        assert(r@ =~= a@.take(i as int));
    }
    assert(r@ =~= a@ + b@.take(0));
    let mut j: usize = 0;
    while j < b.len()
        invariant
            j <= b@.len(),
            r@ == a@ + b@.take(j as int),
        decreases b@.len() - j,
    {
        r.push(b[j]);
        j += 1;
        assert(r@ =~= a@ + b@.take(j as int));
    }
    assert(b@.take(b@.len() as int) =~= b@);
    r
}

proof fn lemma_ladder_len(l: Ladder)
    requires
        ladder_ok(l),
    ensures
        l.len() >= 1,
{
    reveal(ladder_ok);
}

/// A queue that is empty though nothing was settled holds nothing.
pub(crate) proof fn lemma_nothing_queued(st: &SearchState)
    requires
        st.wf(),
        forall|v: u32| #[trigger] st@.contains_key(v) ==> st@[v].queued,
    ensures
        st.order().len() == 0 ==> st@.dom().len() == 0,
{
    st.lemma_order();
    if st.order().len() == 0 {
        assert forall|v: u32| !st@.dom().contains(v) by {
            if st@.contains_key(v) {
                assert(st.order().contains(v));
            }
        }
        assert(st@.dom() =~= Set::empty());
    }
}

/// Without seeds there is no walk.
pub(crate) proof fn lemma_no_walk(net: Net, seeds: Seq<(int, int)>)
    requires
        seeds.len() == 0,
    ensures
        forall|v: int, d: int, n: nat| !#[trigger] walk(net, seeds, v, d, n),
{
    assert forall|v: int, d: int, n: nat| !#[trigger] walk(net, seeds, v, d, n) by {
        lemma_no_walk_at(net, seeds, v, d, n);
    }
}

proof fn lemma_no_walk_at(net: Net, seeds: Seq<(int, int)>, v: int, d: int, n: nat)
    requires
        seeds.len() == 0,
    ensures
        !walk(net, seeds, v, d, n),
    decreases n,
{
    if n > 0 && walk(net, seeds, v, d, n) {
        let (u, s, w) = choose|u: int, s: int, w: int|
            #[trigger] arc_at(net, u, s, v, w) && walk(net, seeds, u, d - w, (n - 1) as nat);
        lemma_no_walk_at(net, seeds, u, d - w, (n - 1) as nat);
    }
}

} // verus!
