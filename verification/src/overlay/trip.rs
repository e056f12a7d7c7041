//! Queries from a place on a road to another, over the levels.

use vstd::prelude::*;
use crate::dataset::Dataset;
use crate::overlay::query::OverlayRouter;
use crate::overlay::replay::{retold, Query};
use crate::overlay::search::{answered, callable, lazy, level_cap, sound_tables, Settings};
use crate::overlay::shape::Overlay;
use crate::overlay::warm::rows_stay;
use crate::overrides::{table, Effect, Overrides};
use crate::router::ends::{
    eff_kmh, end_kmh, entries_of, exits_of, seg_entries, seg_exits, time_all, timed, Snap,
};
use crate::searchstate::MAX_REACHED;

verus! {

/// Where a trip can get on the road graph, and what that takes.
pub open spec fn on_ramps(ds: Dataset, effects: Seq<(u32, Effect)>, s: Snap) -> Seq<(u32, u32)> {
    timed(exits_of(ds, effects, s), end_kmh(ds, effects, s))
}

/// Where a trip can get off it.
pub open spec fn off_ramps(ds: Dataset, effects: Seq<(u32, Effect)>, s: Snap) -> Seq<(u32, u32)> {
    timed(entries_of(ds, effects, s), end_kmh(ds, effects, s))
}

impl OverlayRouter {
    /// As [`OverlayRouter::search_with`], without local overrides.
    pub fn search<F: Fn(u32, usize) -> u32>(
        &mut self,
        ds: &Dataset,
        ov: &mut Overlay,
        from: &Snap,
        to: &Snap,
        settings: &Settings,
        floor: &F,
        reach: u32,
    ) -> (r: Option<(u32, Vec<u32>)>)
        requires
            old(self).wf(),
            sound_tables(old(ov), *ds, table(None)),
            ds.graph_ok(),
            ds.nv() == old(ov).ladder()[0].of.len(),
            ds.nv() < MAX_REACHED,
            ds.ns() <= u32::MAX,
            from.on(*ds),
            to.on(*ds),
            callable(floor),
        ensures
            final(self).wf(),
            sound_tables(final(ov), *ds, table(None)),
            final(ov).ladder() == old(ov).ladder(),
            final(ov).bounds@ == old(ov).bounds@,
            rows_stay(*old(ov), *final(ov)),
            final(self).budget_bytes == old(self).budget_bytes,
            final(self).use_l2 == old(self).use_l2,
            final(self).tallied(
                on_ramps(*ds, table(None), *from).len() + off_ramps(*ds, table(None), *to).len(),
                lazy(*old(ov)),
            ),
            final(self).settles(),
            retold(
                *ds,
                table(None),
                (Query {
                    entries: on_ramps(*ds, table(None), *from),
                    exits: off_ramps(*ds, table(None), *to),
                    nlev: level_cap(
                        old(ov).ladder().len() as int,
                        old(self).use_l2,
                        settings.max_level,
                    ),
                    settings: *settings,
                    floor,
                    reach,
                }),
                *old(ov),
                *final(self),
                *final(ov),
            ),
            final(self).over_budget ==> r is None && final(self).overdrawn(old(self).budget_bytes),
            old(self).budget_bytes == usize::MAX ==> !final(self).over_budget,
            answered(
                *ds,
                table(None),
                old(ov).ladder(),
                on_ramps(*ds, table(None), *from),
                off_ramps(*ds, table(None), *to),
                level_cap(old(ov).ladder().len() as int, old(self).use_l2, settings.max_level),
                settings.astar,
                reach,
                floor,
                final(self).over_budget,
                r,
            ),
    {
        self.search_with(ds, None, ov, from, to, settings, floor, reach)
    }

    /// The cheapest way from one place to another, with local overrides applied
    /// to the tables as well as to the roads.
    pub fn search_with<F: Fn(u32, usize) -> u32>(
        &mut self,
        ds: &Dataset,
        ovr: Option<&Overrides>,
        ov: &mut Overlay,
        from: &Snap,
        to: &Snap,
        settings: &Settings,
        floor: &F,
        reach: u32,
    ) -> (r: Option<(u32, Vec<u32>)>)
        requires
            old(self).wf(),
            sound_tables(old(ov), *ds, table(ovr)),
            ds.graph_ok(),
            ds.nv() == old(ov).ladder()[0].of.len(),
            ds.nv() < MAX_REACHED,
            ds.ns() <= u32::MAX,
            ovr matches Some(o) ==> o.wf(),
            from.on(*ds),
            to.on(*ds),
            callable(floor),
        ensures
            final(self).wf(),
            sound_tables(final(ov), *ds, table(ovr)),
            final(ov).ladder() == old(ov).ladder(),
            final(ov).bounds@ == old(ov).bounds@,
            rows_stay(*old(ov), *final(ov)),
            final(self).budget_bytes == old(self).budget_bytes,
            final(self).use_l2 == old(self).use_l2,
            final(self).tallied(
                on_ramps(*ds, table(ovr), *from).len() + off_ramps(*ds, table(ovr), *to).len(),
                lazy(*old(ov)),
            ),
            final(self).settles(),
            retold(
                *ds,
                table(ovr),
                (Query {
                    entries: on_ramps(*ds, table(ovr), *from),
                    exits: off_ramps(*ds, table(ovr), *to),
                    nlev: level_cap(
                        old(ov).ladder().len() as int,
                        old(self).use_l2,
                        settings.max_level,
                    ),
                    settings: *settings,
                    floor,
                    reach,
                }),
                *old(ov),
                *final(self),
                *final(ov),
            ),
            final(self).over_budget ==> r is None && final(self).overdrawn(old(self).budget_bytes),
            old(self).budget_bytes == usize::MAX ==> !final(self).over_budget,
            answered(
                *ds,
                table(ovr),
                old(ov).ladder(),
                on_ramps(*ds, table(ovr), *from),
                off_ramps(*ds, table(ovr), *to),
                level_cap(old(ov).ladder().len() as int, old(self).use_l2, settings.max_level),
                settings.astar,
                reach,
                floor,
                final(self).over_budget,
                r,
            ),
    {
        let out: Vec<(u32, u32)> = seg_exits(ds, from, ovr);
        let fk: u16 = eff_kmh(ds, ovr, from);
        let entries: Vec<(u32, u32)> = time_all(&out, fk);
        let back: Vec<(u32, u32)> = seg_entries(ds, to, ovr);
        let tk: u16 = eff_kmh(ds, ovr, to);
        let exits: Vec<(u32, u32)> = time_all(&back, tk);
        self.seed_and_run(
            ds,
            ovr,
            ov,
            entries.as_slice(),
            exits.as_slice(),
            settings,
            floor,
            reach,
        )
    }
}

} // verus!
