//! Ways that never leave a region.

use vstd::prelude::*;
use crate::dataset::Dataset;
use crate::overlay::frontier::walkable;
use crate::overlay::net::{backs, inside_net, lemma_trail_backs};
use crate::overlay::query::{flood, flooded, kept_seeds};
use crate::overlay::search::{join_trails, walk_back};
use crate::overlay::shape::{cell_at, lemma_cell_bound, lemma_rung, Ladder, Overlay};
use crate::overrides::{table, Effect, Overrides};
use crate::paths::{walk, Net, UNREACHABLE};
use crate::searchstate::{SearchState, MAX_REACHED};

verus! {

/// The roads inside the region where `e` stands.
pub open spec fn around(ds: Dataset, effects: Seq<(u32, Effect)>, l: Ladder, e: (u32, u32)) -> Net {
    inside_net(ds, effects, l, 0, cell_at(l, 0, e.0 as int), true)
}

/// The one place `e`, with what it costs to get there.
pub open spec fn lone(e: (u32, u32)) -> Seq<(int, int)> {
    seq![(e.0 as int, e.1 as int)]
}

/// From `e` to `x`, which stand in one region, and never out of it, comes to
/// `d`.
pub open spec fn way_inside(
    ds: Dataset,
    effects: Seq<(u32, Effect)>,
    l: Ladder,
    e: (u32, u32),
    x: (u32, u32),
    d: int,
) -> bool {
    &&& cell_at(l, 0, e.0 as int) == cell_at(l, 0, x.0 as int)
    &&& walkable(around(ds, effects, l, e), lone(e), x.0 as int, d - x.1)
}

/// `path` leads from `e` to `x` inside their region for at most `cost`.
pub open spec fn kept_inside(
    ds: Dataset,
    effects: Seq<(u32, Effect)>,
    l: Ladder,
    e: (u32, u32),
    x: (u32, u32),
    path: Seq<u32>,
    cost: int,
) -> bool {
    &&& cell_at(l, 0, e.0 as int) == cell_at(l, 0, x.0 as int)
    &&& path.len() >= 1
    &&& path.last() == x.0
    &&& backs(around(ds, effects, l, e), lone(e), path.reverse(), cost - x.1)
}

pub open spec fn some_inside(
    ds: Dataset,
    effects: Seq<(u32, Effect)>,
    l: Ladder,
    entries: Seq<(u32, u32)>,
    exits: Seq<(u32, u32)>,
    path: Seq<u32>,
    cost: int,
) -> bool {
    exists|i: int, j: int|
        0 <= i < entries.len() && 0 <= j < exits.len() && kept_inside(
            ds,
            effects,
            l,
            #[trigger] entries[i],
            #[trigger] exits[j],
            path,
            cost,
        )
}

/// What an answer costs.
pub open spec fn cost_of(r: Option<(u32, Vec<u32>)>) -> u32 {
    match r {
        Some((cost, _)) => cost,
        None => UNREACHABLE,
    }
}

/// No way inside a region from one of the first `n` entries, or from entry `n`
/// to one of the first `m` exits, is cheaper than `cost`.
pub open spec fn least_inside(
    ds: Dataset,
    effects: Seq<(u32, Effect)>,
    l: Ladder,
    entries: Seq<(u32, u32)>,
    exits: Seq<(u32, u32)>,
    n: int,
    m: int,
    cost: u32,
) -> bool {
    forall|i: int, j: int, d: int|
        0 <= i < entries.len() && 0 <= j < exits.len() && (i < n || (i == n && j < m))
            && #[trigger] way_inside(ds, effects, l, entries[i], exits[j], d) ==> cost <= d
}

/// The cheapest way from an entry to an exit that never leaves their region,
/// where there is one.
pub open spec fn best_inside(
    ds: Dataset,
    effects: Seq<(u32, Effect)>,
    l: Ladder,
    entries: Seq<(u32, u32)>,
    exits: Seq<(u32, u32)>,
    r: Option<(u32, Vec<u32>)>,
) -> bool {
    &&& r matches Some((cost, path)) ==> cost < UNREACHABLE && some_inside(
        ds,
        effects,
        l,
        entries,
        exits,
        path@,
        cost as int,
    )
    &&& least_inside(ds, effects, l, entries, exits, entries.len() as int, 0, cost_of(r))
}

/// Whether one of `ends` stands in region `c`.
fn any_in(ov: &Overlay, c: u32, ends: &[(u32, u32)]) -> (r: bool)
    requires
        ov.wf(),
        ov.ladder().len() >= 1,
        forall|i: int| 0 <= i < ends@.len() ==> (#[trigger] ends@[i]).0 < ov.ladder()[0].of.len(),
    ensures
        r == exists|i: int|
            0 <= i < ends@.len() && cell_at(ov.ladder(), 0, (#[trigger] ends@[i]).0 as int) == c,
{
    let mut i: usize = 0;
    while i < ends.len()
        invariant
            ov.wf(),
            ov.ladder().len() >= 1,
            i <= ends@.len(),
            forall|i: int|
                0 <= i < ends@.len() ==> (#[trigger] ends@[i]).0 < ov.ladder()[0].of.len(),
            forall|x: int|
                0 <= x < i ==> cell_at(ov.ladder(), 0, (#[trigger] ends@[x]).0 as int) != c,
        decreases ends@.len() - i,
    {
        if ov.cell(ends[i].0) == c {
            return true;
        }
        i += 1;
    }
    false
}

/// What is known of a region that was searched tells the way to each exit in
/// it.
proof fn lemma_told(
    ds: Dataset,
    effects: Seq<(u32, Effect)>,
    l: Ladder,
    e: (u32, u32),
    x: (u32, u32),
    m: crate::overlay::frontier::Known,
    stamp: Map<u32, nat>,
    clock: nat,
    d: int,
)
    requires
        flooded(around(ds, effects, l, e), lone(e), m, stamp, clock),
        way_inside(ds, effects, l, e, x, d),
    ensures
        m.contains_key(x.0),
        m[x.0].dist + x.1 <= d,
{
    let net = around(ds, effects, l, e);
    let left: int = d - x.1;
    let n = choose|n: nat| walk(net, lone(e), x.0 as int, left, n);
    assert(walk(net, lone(e), x.0 as int, left, n));
}

/// The cheapest way from an entry to an exit that stays inside a region they
/// share.
pub(crate) fn find_inside(
    st: &mut SearchState,
    ds: &Dataset,
    ovr: Option<&Overrides>,
    ov: &Overlay,
    entries: &[(u32, u32)],
    exits: &[(u32, u32)],
) -> (r: Option<(u32, Vec<u32>)>)
    requires
        old(st).wf(),
        ov.wf(),
        ov.ladder().len() >= 1,
        ds.graph_ok(),
        ds.nv() == ov.ladder()[0].of.len(),
        ds.nv() < MAX_REACHED,
        ds.ns() <= u32::MAX,
        ovr matches Some(o) ==> o.wf(),
        forall|i: int| 0 <= i < entries@.len() ==> (#[trigger] entries@[i]).0 < ds.nv(),
        forall|i: int| 0 <= i < exits@.len() ==> (#[trigger] exits@[i]).0 < ds.nv(),
    ensures
        final(st).wf(),
        best_inside(*ds, table(ovr), ov.ladder(), entries@, exits@, r),
{
    let ghost l = ov.ladder();
    let ghost eff = table(ovr);
    let mut cost: u32 = UNREACHABLE;
    let mut path: Vec<u32> = Vec::new();
    let mut i: usize = 0;
    while i < entries.len()
        invariant
            st.wf(),
            ov.wf(),
            l == ov.ladder(),
            eff == table(ovr),
            l.len() >= 1,
            ds.graph_ok(),
            ds.nv() == l[0].of.len(),
            ds.nv() < MAX_REACHED,
            ds.ns() <= u32::MAX,
            ovr matches Some(o) ==> o.wf(),
            forall|i: int| 0 <= i < entries@.len() ==> (#[trigger] entries@[i]).0 < ds.nv(),
            forall|i: int| 0 <= i < exits@.len() ==> (#[trigger] exits@[i]).0 < ds.nv(),
            i <= entries@.len(),
            cost < UNREACHABLE ==> some_inside(
                *ds,
                eff,
                l,
                entries@,
                exits@,
                path@,
                cost as int,
            ),
            least_inside(*ds, eff, l, entries@, exits@, i as int, 0, cost),
        decreases entries@.len() - i,
    {
        let e: (u32, u32) = entries[i];
        proof {
            lemma_rung(l, 0);
            lemma_cell_bound(l, 0, e.0 as int);
        }
        let c: u32 = ov.cell(e.0);
        let near: bool = any_in(ov, c, exits);
        if near {
            let one: [(u32, u32); 1] = [e];
            assert(one@ =~= seq![e]);
            let (Ghost(stamp), Ghost(clock)): (Ghost<Map<u32, nat>>, Ghost<nat>) = flood(
                st,
                ds,
                ovr,
                ov,
                c,
                vstd::array::array_as_slice(&one),
                true,
            );
            let ghost net = around(*ds, eff, l, e);
            proof {
                assert(kept_seeds(l, c as int, seq![e], 0) =~= Seq::empty());
                assert(kept_seeds(l, c as int, seq![e], 1) =~= lone(e));
                assert(flooded(net, lone(e), st@, stamp, clock));
            }
            let mut j: usize = 0;
            while j < exits.len()
                invariant
                    st.wf(),
                    ov.wf(),
                    l == ov.ladder(),
                    l.len() >= 1,
                    ds.nv() == l[0].of.len(),
                    ds.nv() < MAX_REACHED,
                    i < entries@.len(),
                    e == entries@[i as int],
                    c == cell_at(l, 0, e.0 as int),
                    net == around(*ds, eff, l, e),
                    flooded(net, lone(e), st@, stamp, clock),
                    forall|i: int| 0 <= i < exits@.len() ==> (#[trigger] exits@[i]).0 < ds.nv(),
                    j <= exits@.len(),
                    cost < UNREACHABLE ==> some_inside(
                        *ds,
                        eff,
                        l,
                        entries@,
                        exits@,
                        path@,
                        cost as int,
                    ),
                    least_inside(*ds, eff, l, entries@, exits@, i as int, j as int, cost),
                decreases exits@.len() - j,
            {
                let x: (u32, u32) = exits[j];
                let ghost before = cost;
                assert(exits@[j as int].0 < ds.nv());
                if ov.cell(x.0) == c {
                    match st.dist_of(x.0) {
                        Some(d) => {
                            let sum: u32 = d.saturating_add(x.1);
                            if sum < cost {
                                cost = sum;
                                let back: Vec<u32> = walk_back(
                                    st,
                                    x.0,
                                    Ghost(net),
                                    Ghost(lone(e)),
                                    Ghost(stamp),
                                    Ghost(clock),
                                );
                                let end: Vec<u32> = vec![x.0];
                                path = join_trails(&back, &end);
                                proof {
                                    lemma_trail_backs(net, lone(e), st@, stamp, clock, x.0);
                                    assert(path@ =~= back@.reverse());
                                    assert(path@.reverse() =~= back@);
                                    assert(path@.last() == back@[0]);
                                    assert(kept_inside(
                                        *ds,
                                        eff,
                                        l,
                                        entries@[i as int],
                                        exits@[j as int],
                                        path@,
                                        cost as int,
                                    ));
                                }
                            }
                        },
                        None => {},
                    }
                }
                proof {
                    assert forall|a: int, b: int, d: int|
                        0 <= a < entries@.len() && 0 <= b < exits@.len() && (a < i || (a == i && b
                            < j + 1)) && #[trigger] way_inside(
                            *ds,
                            eff,
                            l,
                            entries@[a],
                            exits@[b],
                            d,
                        ) implies cost <= d by {
                        if a == i && b == j {
                            lemma_told(*ds, eff, l, e, x, st@, stamp, clock, d);
                        }
                    }
                }
                j += 1;
            }
        }
        proof {
            assert forall|a: int, b: int, d: int|
                0 <= a < entries@.len() && 0 <= b < exits@.len() && (a < i + 1 || (a == i + 1 && b
                    < 0)) && #[trigger] way_inside(
                    *ds,
                    eff,
                    l,
                    entries@[a],
                    exits@[b],
                    d,
                ) implies cost <= d by {
                if a == i && !near {
                    assert(cell_at(l, 0, exits@[b].0 as int) == c);
                }
            }
        }
        i += 1;
    }
    if cost < UNREACHABLE {
        Some((cost, path))
    } else {
        None
    }
}

} // verus!
