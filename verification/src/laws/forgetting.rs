//! What local overrides make an overlay forget.

use vstd::prelude::*;
use crate::dataset::Dataset;
use crate::overlay::shape::{cell_at, gates, regions, Ladder, Overlay};
use crate::overlay::state::{seg_touches, touched_by};
use crate::overrides::Effect;

verus! {

/// Vertex `v` is an end of a segment that is overridden.
pub open spec fn at_override(ds: Dataset, effects: Seq<(u32, Effect)>, v: u32) -> bool {
    exists|x: int| 0 <= x < effects.len() && ends_at(ds, (#[trigger] effects[x]).0 as int, v)
}

pub open spec fn ends_at(ds: Dataset, s: int, v: u32) -> bool {
    0 <= s < ds.seg_u@.len() && (ds.seg_u@[s] == v || ds.seg_v@[s] == v)
}

/// An end of an overridden segment stands in region `c` of level `k`.
pub open spec fn holds_end(
    ds: Dataset,
    l: Ladder,
    effects: Seq<(u32, Effect)>,
    k: int,
    c: int,
) -> bool {
    exists|v: u32| v < l[0].of.len() && #[trigger] at_override(ds, effects, v) && cell_at(l, k, v as int) == c
}

proof fn lemma_touched(ds: Dataset, l: Ladder, effects: Seq<(u32, Effect)>, k: int, c: int)
    requires
        ds.nv() == l[0].of.len(),
        ds.seg_u@.len() == ds.seg_v@.len(),
    ensures
        touched_by(ds, l, effects, effects.len() as int, k, c) <==> holds_end(ds, l, effects, k, c),
{
    if touched_by(ds, l, effects, effects.len() as int, k, c) {
        let x = choose|x: int|
            0 <= x < effects.len() && seg_touches(ds, l, (#[trigger] effects[x]).0 as int, k, c);
        let s = effects[x].0 as int;
        let u = ds.seg_u@[s];
        let v = ds.seg_v@[s];
        if u < ds.nv() && cell_at(l, k, u as int) == c {
            assert(ends_at(ds, effects[x].0 as int, u));
            assert(at_override(ds, effects, u));
        } else {
            assert(ends_at(ds, effects[x].0 as int, v));
            assert(at_override(ds, effects, v));
        }
    }
    if holds_end(ds, l, effects, k, c) {
        let v = choose|v: u32|
            v < l[0].of.len() && #[trigger] at_override(ds, effects, v) && cell_at(l, k, v as int) == c;
        let x = choose|x: int| 0 <= x < effects.len() && ends_at(ds, (#[trigger] effects[x]).0 as int, v);
        assert(seg_touches(ds, l, effects[x].0 as int, k, c));
    }
}

/// Overrides make an overlay forget every row of the regions that an overridden
/// segment begins or ends in, on every level, and no row of any other.
pub proof fn lemma_forgotten<'a>(
    ds: Dataset,
    effects: Seq<(u32, Effect)>,
    before: Overlay<'a>,
    after: Overlay<'a>,
    gone: spec_fn(int, int) -> bool,
    k: int,
    c: int,
    i: int,
    fwd: bool,
)
    requires
        after.without(&before, gone),
        forall|x: int, y: int| #[trigger]
            gone(x, y) == touched_by(ds, before.ladder(), effects, effects.len() as int, x, y),
        ds.nv() == before.ladder()[0].of.len(),
        ds.seg_u@.len() == ds.seg_v@.len(),
        0 <= k < before.levels@.len(),
        before.levels@[k].values is Lazy,
        0 <= c < regions(before.ladder()[k]),
        0 <= i < gates(before.ladder()[k], c).len(),
    ensures
        holds_end(ds, before.ladder(), effects, k, c) ==> !after.levels@[k].has_row(c, i, fwd),
        !holds_end(ds, before.ladder(), effects, k, c) ==> after.levels@[k].has_row(c, i, fwd)
            == before.levels@[k].has_row(c, i, fwd),
{
    lemma_touched(ds, before.ladder(), effects, k, c);
    assert(gone(k, c) == touched_by(ds, before.ladder(), effects, effects.len() as int, k, c));
}

} // verus!
