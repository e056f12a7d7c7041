//! What a search over the levels did, settle by settle, and what its counters
//! say of that.

use vstd::prelude::*;
use crate::dataset::Dataset;
use crate::overlay::frontier::Known;
use crate::overlay::net::{climb, over_net};
use crate::overlay::query::OverlayRouter;
use crate::overlay::search::{
    drawn_to, entered, homes, in_sight, lacking, lacks, lazy, supplied, Goal, Settings,
};
use crate::overlay::shape::{Ladder, Overlay};
use crate::overlay::warm::rows_stay;
use crate::overrides::Effect;
use crate::paths::{Net, UNREACHABLE};
use crate::searchstate::{Node, SearchState, EMPTY};

verus! {

/// A sum, as far as a number can hold it.
pub open spec fn capped(a: int) -> u32 {
    if a > u32::MAX {
        u32::MAX
    } else {
        a as u32
    }
}

/// How far ahead a vertex is drawn: as when it was first found.
pub open spec fn pull_kept<'f, F: Fn(u32, usize) -> u32>(
    goal: Goal<'f, F>,
    side: usize,
    m: Known,
    v: u32,
    p: u32,
) -> bool {
    if m.contains_key(v) {
        p == m[v].prio - m[v].dist
    } else {
        drawn_to(goal, v, side, p)
    }
}

/// `v` is found at `d`, where that is new or nearer.
pub open spec fn planted<'f, F: Fn(u32, usize) -> u32>(
    goal: Goal<'f, F>,
    side: usize,
    m: Known,
    v: u32,
    d: u32,
    parent: u32,
    m2: Known,
) -> bool {
    if !m.contains_key(v) || d < m[v].dist {
        exists|p: u32|
            {
                &&& #[trigger] pull_kept(goal, side, m, v, p)
                &&& m2 == m.insert(v, Node { dist: d, prio: capped(d + p), parent, queued: true })
            }
    } else {
        m2 == m
    }
}

/// The seeds were entered one by one.
#[verifier::opaque]
pub open spec fn sown<'f, F: Fn(u32, usize) -> u32>(
    goal: Goal<'f, F>,
    side: usize,
    seeds: Seq<(int, int)>,
    m: Known,
) -> bool
    decreases seeds.len(),
{
    if seeds.len() == 0 {
        m == Map::<u32, Node>::empty()
    } else {
        exists|k: Known|
            {
                &&& sown(goal, side, seeds.drop_last(), k)
                &&& #[trigger] planted(goal, side, k, seeds.last().0 as u32, seeds.last().1 as u32, EMPTY, m)
            }
    }
}

pub(crate) proof fn lemma_sown_none<'f, F: Fn(u32, usize) -> u32>(
    goal: Goal<'f, F>,
    side: usize,
    seeds: Seq<(int, int)>,
    m: Known,
)
    requires
        seeds.len() == 0,
        m == Map::<u32, Node>::empty(),
    ensures
        sown(goal, side, seeds, m),
{
    reveal(sown);
}

pub(crate) proof fn lemma_sown<'f, F: Fn(u32, usize) -> u32>(
    goal: Goal<'f, F>,
    side: usize,
    seeds: Seq<(int, int)>,
    m: Known,
    v: u32,
    d: u32,
    m2: Known,
)
    requires
        sown(goal, side, seeds, m),
        planted(goal, side, m, v, d, EMPTY, m2),
    ensures
        sown(goal, side, seeds.push((v as int, d as int)), m2),
{
    reveal_with_fuel(sown, 2);
    let s2 = seeds.push((v as int, d as int));
    assert(s2.drop_last() =~= seeds);
    assert(s2.last() == (v as int, d as int));
    assert(sown(goal, side, s2.drop_last(), m) && planted(
        goal,
        side,
        m,
        s2.last().0 as u32,
        s2.last().1 as u32,
        EMPTY,
        m2,
    ));
}

/// What trying one arc of `u`, settled at `d`, does.
pub open spec fn arc_tried<'f, F: Fn(u32, usize) -> u32>(
    net: Net,
    goal: Goal<'f, F>,
    side: usize,
    m: Known,
    u: u32,
    d: u32,
    best: u32,
    slot: int,
    m2: Known,
) -> bool {
    match (net.arcs)(u as int)[slot] {
        None => m2 == m,
        Some((t, w)) => if capped(d + w) < best {
            planted(goal, side, m, t as u32, capped(d + w), u, m2)
        } else {
            m2 == m
        },
    }
}

/// The first `n` arcs of `u` were tried one by one.
#[verifier::opaque]
pub open spec fn spread<'f, F: Fn(u32, usize) -> u32>(
    net: Net,
    goal: Goal<'f, F>,
    side: usize,
    m: Known,
    u: u32,
    d: u32,
    best: u32,
    n: int,
    m2: Known,
) -> bool
    decreases n,
{
    if n <= 0 {
        m2 == m
    } else {
        exists|k: Known|
            {
                &&& spread(net, goal, side, m, u, d, best, n - 1, k)
                &&& #[trigger] arc_tried(net, goal, side, k, u, d, best, n - 1, m2)
            }
    }
}

pub(crate) proof fn lemma_spread_none<'f, F: Fn(u32, usize) -> u32>(
    net: Net,
    goal: Goal<'f, F>,
    side: usize,
    m: Known,
    u: u32,
    d: u32,
    best: u32,
)
    ensures
        spread(net, goal, side, m, u, d, best, 0, m),
{
    reveal(spread);
}

pub(crate) proof fn lemma_spread<'f, F: Fn(u32, usize) -> u32>(
    net: Net,
    goal: Goal<'f, F>,
    side: usize,
    m: Known,
    u: u32,
    d: u32,
    best: u32,
    n: int,
    k: Known,
    m2: Known,
)
    requires
        0 <= n,
        spread(net, goal, side, m, u, d, best, n, k),
        arc_tried(net, goal, side, k, u, d, best, n, m2),
    ensures
        spread(net, goal, side, m, u, d, best, n + 1, m2),
{
    reveal_with_fuel(spread, 2);
    let n2 = n + 1;
    assert(n2 - 1 == n);
    assert(spread(net, goal, side, m, u, d, best, n2 - 1, k) && arc_tried(
        net,
        goal,
        side,
        k,
        u,
        d,
        best,
        n2 - 1,
        m2,
    ));
    assert(spread(net, goal, side, m, u, d, best, n2, m2));
}

// ------------------------------------------------------------ settle by settle

/// What a search goes by.
pub struct Frame<'f, F> {
    pub nets: (Net, Net),
    pub home: Seq<Seq<u32>>,
    pub settings: Settings,
    /// Some level is filled as it is used.
    pub lazy: bool,
    pub goal: Goal<'f, F>,
}

/// How things stand between two settles.
pub struct Scene<'a> {
    pub fronts: (SearchState, SearchState),
    /// The best meeting so far.
    pub best: u32,
    pub ov: Overlay<'a>,
    /// Settles since the last look ahead, and how many there are from one to
    /// the next.
    pub since: usize,
    pub every: usize,
}

/// One settle.
pub struct Turn {
    pub side: usize,
    /// The rows filled ahead before it, where that was worth a batch.
    pub batch: Option<usize>,
    /// Left without being expanded: the bound said that nothing through it can
    /// be cheaper.
    pub pruned: bool,
    /// Expanded from a table above level 0.
    pub above: bool,
    /// Its row had still to be filled.
    pub late: bool,
    /// The search gave up here for want of memory.
    pub quit: bool,
}

/// Where the queue of a side begins.
pub open spec fn top_of(st: SearchState) -> u32 {
    if st.order().len() > 0 {
        st@[st.order()[0]].prio
    } else {
        UNREACHABLE
    }
}

/// No better meeting can come.
pub open spec fn over<'f, F>(frame: Frame<'f, F>, s: Scene) -> bool {
    let (f, b) = (top_of(s.fronts.0), top_of(s.fronts.1));
    (f == UNREACHABLE && b == UNREACHABLE) || capped(f + b) >= capped(s.best + frame.goal.reach)
}

/// The side whose queue begins nearer, the first where they begin alike.
pub open spec fn turn_side(s: Scene) -> usize {
    if top_of(s.fronts.0) <= top_of(s.fronts.1) {
        0
    } else {
        1
    }
}

pub open spec fn front_on(s: Scene, side: usize) -> SearchState {
    if side == 0 {
        s.fronts.0
    } else {
        s.fronts.1
    }
}

pub open spec fn net_on<'f, F>(frame: Frame<'f, F>, side: usize) -> Net {
    if side == 0 {
        frame.nets.0
    } else {
        frame.nets.1
    }
}

/// A look ahead: what the first of the queue lack is filled where that is worth
/// a batch, and the next look comes sooner; else it comes later.
pub open spec fn looked(
    home: Seq<Seq<u32>>,
    settings: Settings,
    st: &SearchState,
    fwd: bool,
    before: Overlay,
    every: usize,
    batch: Option<usize>,
    after: Overlay,
    every2: usize,
) -> bool {
    let ahead = in_sight(st, settings.prefetch_depth);
    let missing = lacking(before, home, ahead, fwd, ahead.len() as int);
    if missing >= settings.prefetch_min {
        &&& batch matches Some(rows) && rows == missing
        &&& supplied(before, after, home, ahead, fwd)
        &&& every2 == (if every / 2 > 1 {
            every / 2
        } else {
            1
        })
    } else {
        &&& batch is None
        &&& after == before
        &&& every2 == (if 2 * every < settings.prefetch_depth {
            (2 * every) as usize
        } else {
            settings.prefetch_depth
        })
    }
}

/// A look ahead where one is due.
pub open spec fn prepared<'f, F>(
    frame: Frame<'f, F>,
    a: Scene,
    t: Turn,
    mid: Overlay,
    b: Scene,
) -> bool {
    if frame.lazy && a.since >= a.every {
        &&& looked(
            frame.home,
            frame.settings,
            &front_on(a, t.side),
            t.side == 0,
            a.ov,
            a.every,
            t.batch,
            mid,
            b.every,
        )
        &&& b.since == 1
    } else {
        &&& t.batch is None
        &&& mid == a.ov
        &&& b.every == a.every
        &&& b.since == (if a.since < usize::MAX {
            (a.since + 1) as usize
        } else {
            a.since
        })
    }
}

/// The bound says that nothing through `u` can be cheaper than `best`.
pub open spec fn cut_off<'f, F: Fn(u32, usize) -> u32>(
    goal: Goal<'f, F>,
    side: usize,
    u: u32,
    d: u32,
    best: u32,
) -> bool {
    best != UNREACHABLE && exists|f: u32|
        #[trigger] call_ensures(goal.floor, (u, side), f) && capped(d + f) >= best
}

/// It does not say so.
pub open spec fn let_through<'f, F: Fn(u32, usize) -> u32>(
    goal: Goal<'f, F>,
    side: usize,
    u: u32,
    d: u32,
    best: u32,
) -> bool {
    best == UNREACHABLE || exists|f: u32|
        #[trigger] call_ensures(goal.floor, (u, side), f) && capped(d + f) < best
}

/// The better of the best meeting so far and one in `u`.
pub open spec fn met_at(other: Known, u: u32, d: u32, best: u32) -> u32 {
    if other.contains_key(u) && capped(d + other[u].dist) < best {
        capped(d + other[u].dist)
    } else {
        best
    }
}

/// What became of `u`, just taken off the queue of its side at `d`.
#[verifier::opaque]
pub open spec fn visited<'f, F: Fn(u32, usize) -> u32>(
    net: Net,
    goal: Goal<'f, F>,
    home: Seq<Seq<u32>>,
    some_lazy: bool,
    side: usize,
    other: Known,
    u: u32,
    d: u32,
    m: Known,
    best: u32,
    mid: Overlay,
    m2: Known,
    best2: u32,
    after: Overlay,
    pruned: bool,
    above: bool,
    late: bool,
) -> bool {
    if pruned {
        &&& cut_off(goal, side, u, d, best)
        &&& m2 == m
        &&& best2 == best
        &&& after == mid
        &&& !above
        &&& !late
    } else {
        &&& let_through(goal, side, u, d, best)
        &&& spread(net, goal, side, m, u, d, best, (net.arcs)(u as int).len() as int, m2)
        &&& best2 == met_at(other, u, d, best)
        &&& rows_stay(mid, after)
        &&& !lacks(after, home, u, side == 0)
        &&& above == (climb(mid.ladder(), home, u, 0) > 0)
        &&& late == (some_lazy && lacks(mid, home, u, side == 0))
    }
}

/// One settle, the overlay standing at `mid` after the look ahead.
pub open spec fn turn_by<'f, F: Fn(u32, usize) -> u32>(
    frame: Frame<'f, F>,
    a: Scene,
    t: Turn,
    mid: Overlay,
    b: Scene,
) -> bool {
    let st = front_on(a, t.side);
    let u = st.order()[0];
    let d = st@[u].dist;
    let m = st@.insert(u, Node { queued: false, ..st@[u] });
    &&& !over(frame, a)
    &&& t.side == turn_side(a)
    &&& st.order().len() > 0
    &&& prepared(frame, a, t, mid, b)
    &&& front_on(b, (1 - t.side) as usize) == front_on(a, (1 - t.side) as usize)
    &&& if t.quit {
        &&& front_on(b, t.side)@ == m
        &&& b.best == a.best
        &&& b.ov == mid
        &&& !t.pruned && !t.above && !t.late
    } else {
        visited(
            net_on(frame, t.side),
            frame.goal,
            frame.home,
            frame.lazy,
            t.side,
            front_on(a, (1 - t.side) as usize)@,
            u,
            d,
            m,
            a.best,
            mid,
            front_on(b, t.side)@,
            b.best,
            b.ov,
            t.pruned,
            t.above,
            t.late,
        )
    }
}

pub open spec fn turned<'f, F: Fn(u32, usize) -> u32>(
    frame: Frame<'f, F>,
    a: Scene,
    t: Turn,
    b: Scene,
) -> bool {
    exists|mid: Overlay| #[trigger] turn_by(frame, a, t, mid, b)
}

pub open spec fn turn_at<'f, 'a, F: Fn(u32, usize) -> u32>(
    frame: Frame<'f, F>,
    scenes: Seq<Scene<'a>>,
    log: Seq<Turn>,
    i: int,
) -> bool {
    turned(frame, scenes[i], log[i], scenes[i + 1]) && (log[i].quit ==> i == log.len() - 1)
}

/// The turns lead from scene to scene, and none follows giving up.
#[verifier::opaque]
pub open spec fn played<'f, 'a, F: Fn(u32, usize) -> u32>(
    frame: Frame<'f, F>,
    scenes: Seq<Scene<'a>>,
    log: Seq<Turn>,
) -> bool {
    &&& scenes.len() == log.len() + 1
    &&& forall|i: int| 0 <= i < log.len() ==> #[trigger] turn_at(frame, scenes, log, i)
}

pub(crate) proof fn lemma_played_none<'f, 'a, F: Fn(u32, usize) -> u32>(
    frame: Frame<'f, F>,
    s: Scene<'a>,
)
    ensures
        played(frame, seq![s], Seq::empty()),
{
    reveal(played);
}

pub(crate) proof fn lemma_played<'f, 'a, F: Fn(u32, usize) -> u32>(
    frame: Frame<'f, F>,
    scenes: Seq<Scene<'a>>,
    log: Seq<Turn>,
    t: Turn,
    mid: Overlay<'a>,
    b: Scene<'a>,
)
    requires
        played(frame, scenes, log),
        scenes.len() > 0,
        forall|i: int| 0 <= i < log.len() ==> !(#[trigger] log[i]).quit,
        turn_by(frame, scenes.last(), t, mid, b),
    ensures
        played(frame, scenes.push(b), log.push(t)),
{
    reveal(played);
    let (s2, l2) = (scenes.push(b), log.push(t));
    assert(turned(frame, scenes.last(), t, b));
    assert forall|i: int| 0 <= i < l2.len() implies #[trigger] turn_at(frame, s2, l2, i) by {
        if i < log.len() {
            assert(turn_at(frame, scenes, log, i));
            assert(s2[i] == scenes[i] && s2[i + 1] == scenes[i + 1] && l2[i] == log[i]);
            assert(!log[i].quit);
        } else {
            assert(s2[i] == scenes.last() && s2[i + 1] == b && l2[i] == t);
        }
    }
}

/// Before anything is settled: the seeds of both sides, and nothing filled.
pub open spec fn begun<'f, F: Fn(u32, usize) -> u32>(
    frame: Frame<'f, F>,
    sa: Seq<(int, int)>,
    sb: Seq<(int, int)>,
    before: Overlay,
    s: Scene,
) -> bool {
    &&& sown(frame.goal, 0, sa, s.fronts.0@)
    &&& sown(frame.goal, 1, sb, s.fronts.1@)
    &&& s.best == UNREACHABLE
    &&& s.ov == before
    &&& s.since == usize::MAX
    &&& s.every == 1
}

// ----------------------------------------------------------------- counting

/// In how many turns `f` holds.
pub open spec fn number(log: Seq<Turn>, f: spec_fn(Turn) -> bool) -> nat
    decreases log.len(),
{
    if log.len() == 0 {
        0
    } else {
        number(log.drop_last(), f) + (if f(log.last()) {
            1nat
        } else {
            0
        })
    }
}

/// The rows of all batches.
pub open spec fn batched(log: Seq<Turn>) -> nat
    decreases log.len(),
{
    if log.len() == 0 {
        0
    } else {
        batched(log.drop_last()) + (match log.last().batch {
            Some(rows) => rows as nat,
            None => 0,
        })
    }
}

/// A count, as far as a counter goes.
pub open spec fn counted(n: nat) -> u64 {
    if n > u64::MAX {
        u64::MAX
    } else {
        n as u64
    }
}

/// The counters are those of the turns.
#[verifier::opaque]
pub open spec fn recounted(r: OverlayRouter, log: Seq<Turn>) -> bool {
    &&& r.settled == counted(log.len())
    &&& r.pruned == counted(number(log, |t: Turn| t.pruned))
    &&& r.regions2_entered == counted(number(log, |t: Turn| t.above))
    &&& r.late_rows == counted(number(log, |t: Turn| t.late))
    &&& r.batches == counted(number(log, |t: Turn| t.batch is Some))
    &&& r.batch_rows == counted(batched(log))
}

pub(crate) proof fn lemma_recounted_none(r: OverlayRouter)
    requires
        r.settled == 0,
        r.pruned == 0,
        r.regions2_entered == 0,
        r.late_rows == 0,
        r.batches == 0,
        r.batch_rows == 0,
    ensures
        recounted(r, Seq::empty()),
{
    reveal(recounted);
}

pub(crate) proof fn lemma_recounted(a: OverlayRouter, b: OverlayRouter, log: Seq<Turn>, t: Turn)
    requires
        recounted(a, log),
        b.settled == one_more(a.settled, true),
        b.pruned == one_more(a.pruned, t.pruned),
        b.regions2_entered == one_more(a.regions2_entered, t.above),
        b.late_rows == one_more(a.late_rows, t.late),
        b.batches == one_more(a.batches, t.batch is Some),
        b.batch_rows == (match t.batch {
            None => a.batch_rows as int,
            Some(rows) => if a.batch_rows + rows > u64::MAX {
                u64::MAX as int
            } else {
                a.batch_rows + rows
            },
        }),
    ensures
        recounted(b, log.push(t)),
{
    reveal(recounted);
    let l2 = log.push(t);
    assert(l2.drop_last() =~= log);
    assert(l2.last() == t);
}

pub(crate) proof fn lemma_recounted_same(a: OverlayRouter, b: OverlayRouter, log: Seq<Turn>)
    requires
        recounted(a, log),
        b.settled == a.settled,
        b.pruned == a.pruned,
        b.regions2_entered == a.regions2_entered,
        b.late_rows == a.late_rows,
        b.batches == a.batches,
        b.batch_rows == a.batch_rows,
    ensures
        recounted(b, log),
{
    reveal(recounted);
}

/// A counter after a turn, as far as it can count.
pub open spec fn one_more(n: u64, counts: bool) -> u64 {
    if counts && n < u64::MAX {
        (n + 1) as u64
    } else {
        n
    }
}

/// What a query is asked with.
pub struct Query<'f, F> {
    pub entries: Seq<(u32, u32)>,
    pub exits: Seq<(u32, u32)>,
    pub nlev: int,
    pub settings: Settings,
    pub floor: &'f F,
    pub reach: u32,
}

/// A search goes toward its goal only where there are ends on both sides.
pub open spec fn goal_of<'f, F>(q: Query<'f, F>) -> Goal<'f, F> {
    let astar = q.settings.astar && q.entries.len() > 0 && q.exits.len() > 0;
    Goal {
        astar,
        reach: if astar {
            q.reach
        } else {
            0
        },
        floor: q.floor,
    }
}

pub open spec fn frame_of<'f, F>(
    ds: Dataset,
    effects: Seq<(u32, Effect)>,
    l: Ladder,
    home: Seq<Seq<u32>>,
    some_lazy: bool,
    q: Query<'f, F>,
) -> Frame<'f, F> {
    Frame {
        nets: (over_net(ds, effects, l, home, true), over_net(ds, effects, l, home, false)),
        home,
        settings: q.settings,
        lazy: some_lazy,
        goal: goal_of(q),
    }
}

/// From the seeds of the query, by these turns, to where the search ended: no
/// better meeting could come, or it gave up.
pub open spec fn told_by<'f, 'a, F: Fn(u32, usize) -> u32>(
    ds: Dataset,
    effects: Seq<(u32, Effect)>,
    q: Query<'f, F>,
    before: Overlay<'a>,
    r: OverlayRouter,
    after: Overlay<'a>,
    home: Seq<Seq<u32>>,
    sa: Seq<(int, int)>,
    sb: Seq<(int, int)>,
    scenes: Seq<Scene<'a>>,
    log: Seq<Turn>,
) -> bool {
    let l = before.ladder();
    let frame = frame_of(ds, effects, l, home, lazy(before), q);
    &&& homes(l, q.entries + q.exits, q.nlev, home)
    &&& entered(ds, effects, l, q.entries, true, sa)
    &&& entered(ds, effects, l, q.exits, false, sb)
    &&& scenes.len() > 0
    &&& begun(frame, sa, sb, before, scenes[0])
    &&& played(frame, scenes, log)
    &&& scenes.last().fronts == (r.state0, r.state1)
    &&& scenes.last().ov == after
    &&& recounted(r, log)
    &&& if r.over_budget {
        log.len() > 0 && log.last().quit
    } else {
        &&& over(frame, scenes.last())
        &&& forall|i: int| 0 <= i < log.len() ==> !(#[trigger] log[i]).quit
    }
}

/// The counters of a search tell what it did.
pub open spec fn retold<'f, 'a, F: Fn(u32, usize) -> u32>(
    ds: Dataset,
    effects: Seq<(u32, Effect)>,
    q: Query<'f, F>,
    before: Overlay<'a>,
    r: OverlayRouter,
    after: Overlay<'a>,
) -> bool {
    exists|
        home: Seq<Seq<u32>>,
        sa: Seq<(int, int)>,
        sb: Seq<(int, int)>,
        scenes: Seq<Scene<'a>>,
        log: Seq<Turn>,
    | #[trigger]
        told_by(ds, effects, q, before, r, after, home, sa, sb, scenes, log)
}

} // verus!
