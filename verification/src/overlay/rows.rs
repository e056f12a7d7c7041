//! Table rows: what they hold, and how a missing one is computed.

use vstd::prelude::*;
use crate::dataset::{seg_id, seg_of, Dataset};
use crate::heap::{Entry, Heap};
use crate::lookup::ascending;
use crate::overlay::shape::{
    cell_at, eager_entry, gates, index_in, lemma_grid, lemma_rows_apart, lemma_rung, local_index,
    members, regions, rung_ok, Ladder, Lazy, Level, Overlay, Rung, Values,
};
use crate::overlay::uses::{
    after_row, growing, lemma_tree_relax, same_but_counts, tree, ROOT,
};
use crate::overrides::{edge_ds_ov, table, Effect, Overrides};
use crate::paths::{
    arc_at, dist_to, is_dist, lemma_dist_to, lemma_finish, lemma_pop, lemma_relax, lemma_settle,
    lemma_start, net_ok, searching, total, Net, UNREACHABLE,
};

verus! {

/// One direction of the road graph: where the edges of each vertex begin.
pub open spec fn edge_head(ds: Dataset, fwd: bool) -> Seq<u32> {
    if fwd {
        ds.head@
    } else {
        ds.rhead@
    }
}

pub open spec fn edge_segs(ds: Dataset, fwd: bool) -> Seq<u32> {
    if fwd {
        ds.eseg@
    } else {
        ds.rseg@
    }
}

/// The far end of edge `t` of `u`.
pub open spec fn far_end(ds: Dataset, fwd: bool, u: u32, t: int) -> u32 {
    if fwd {
        ds.spec_target(u, t)
    } else {
        ds.spec_rtarget(u, t)
    }
}

/// What edge `t` costs; `None` where it is closed.
pub open spec fn edge_weight(
    ds: Dataset,
    effects: Seq<(u32, Effect)>,
    fwd: bool,
    t: int,
) -> Option<u32> {
    ds.cost(effects, seg_of(edge_segs(ds, fwd)[t]))
}

/// An edge as an arc between members of region `c` of level `k`. Edges that
/// leave the region are no arcs of it; above level 0 an edge inside a region
/// below is none either, since that region's table accounts for it.
pub open spec fn road_arc(
    ds: Dataset,
    effects: Seq<(u32, Effect)>,
    l: Ladder,
    k: int,
    list: Seq<u32>,
    fwd: bool,
    u: u32,
    t: int,
) -> Option<(int, int)> {
    let v = far_end(ds, fwd, u, t);
    if k > 0 && cell_at(l, k - 1, v as int) == cell_at(l, k - 1, u as int) {
        None
    } else {
        match (index_in(list, v), edge_weight(ds, effects, fwd, t)) {
            (Some(vi), Some(w)) => Some((vi, w as int)),
            _ => None,
        }
    }
}

/// A table entry of the region below that `u` is a gate of, as an arc.
pub open spec fn hop_arc(
    ds: Dataset,
    effects: Seq<(u32, Effect)>,
    l: Ladder,
    k: int,
    list: Seq<u32>,
    fwd: bool,
    u: u32,
    i: int,
    j: int,
) -> Option<(int, int)>
    decreases k, 0nat,
{
    let cb = cell_at(l, k - 1, u as int);
    if k <= 0 || j == i {
        None
    } else {
        let step = value(ds, effects, l, k - 1, cb, i, j, fwd);
        match index_in(list, gates(l[k - 1], cb)[j]) {
            Some(vi) if step != UNREACHABLE => Some((vi, step as int)),
            _ => None,
        }
    }
}

/// Everything that leaves member `u` of a region: shortcuts across the
/// region below, then edges.
pub open spec fn row_arcs(
    ds: Dataset,
    effects: Seq<(u32, Effect)>,
    l: Ladder,
    k: int,
    list: Seq<u32>,
    fwd: bool,
    u: u32,
) -> Seq<Option<(int, int)>>
    decreases k, 1nat,
{
    let head = edge_head(ds, fwd);
    let roads = Seq::new(
        (head[u + 1] - head[u as int]) as nat,
        |s: int| road_arc(ds, effects, l, k, list, fwd, u, head[u as int] + s),
    );
    let cb = cell_at(l, k - 1, u as int);
    match index_in(gates(l[k - 1], cb), u) {
        Some(i) if k > 0 => Seq::new(
            gates(l[k - 1], cb).len(),
            |j: int| hop_arc(ds, effects, l, k, list, fwd, u, i, j),
        ) + roads,
        _ => roads,
    }
}

/// The network a row of a region of level `k` is searched in: its members
/// `list`, and the arcs between them.
pub open spec fn region_net(
    ds: Dataset,
    effects: Seq<(u32, Effect)>,
    l: Ladder,
    k: int,
    list: Seq<u32>,
    fwd: bool,
) -> Net
    decreases k, 2nat,
{
    Net {
        n: list.len() as int,
        arcs: |li: int| row_arcs(ds, effects, l, k, list, fwd, list[li]),
    }
}

/// The shortest time between two gates of region `c` of level `k` over paths
/// that stay inside it: from gate `i` to gate `j`, or into `i` from `j` when
/// not `fwd`.
pub open spec fn crossing(
    ds: Dataset,
    effects: Seq<(u32, Effect)>,
    l: Ladder,
    k: int,
    c: int,
    i: int,
    j: int,
    fwd: bool,
) -> u32
    decreases k, 3nat,
{
    let m = members(l[k], c);
    let g = gates(l[k], c);
    dist_to(
        region_net(ds, effects, l, k, m, fwd),
        seq![(index_in(m, g[i])->0, 0int)],
        index_in(m, g[j])->0,
    )
}

/// What level `k` charges for a crossing: its table where it is eager, the
/// crossing itself where rows are computed on demand.
pub open spec fn value(
    ds: Dataset,
    effects: Seq<(u32, Effect)>,
    l: Ladder,
    k: int,
    c: int,
    i: int,
    j: int,
    fwd: bool,
) -> u32
    decreases k, 4nat,
{
    if l[k].eager {
        eager_entry(l[k], c, i, j, fwd)
    } else {
        crossing(ds, effects, l, k, c, i, j, fwd)
    }
}

/// What recomputing a row found.
#[derive(Debug, Clone, Copy, PartialEq, Eq, Structural)]
pub enum Row {
    /// The level keeps no rows to fill.
    Empty,
    /// Was absent; computed and stored.
    Written,
    /// Was there, and recomputing gives the same numbers (or was not asked).
    Same,
    /// Was there, the numbers have moved, and the new ones are stored.
    Changed,
}

impl<'a> Level<'a> {
    /// Same level, same rows.
    pub open spec fn same_table(&self, o: &Level<'a>) -> bool {
        &&& self.rung() == o.rung()
        &&& self.geo@ == o.geo@
        &&& self.values is Lazy ==> {
            &&& self.lazy().data@ == o.lazy().data@
            &&& self.lazy().have@ == o.lazy().have@
            &&& self.lazy().use_ct@ == o.lazy().use_ct@
            &&& self.lazy().rows == o.lazy().rows
        }
    }

    /// The counters after a row was read off a tree.
    pub open spec fn read_off(
        &self,
        o: &Level<'a>,
        net: Net,
        start: int,
        list: Seq<u32>,
        bnd: Seq<u32>,
        vs: int,
        dist: Seq<u32>,
        par: Seq<u32>,
        stamp: Seq<int>,
    ) -> bool {
        &&& dist.len() == list.len()
        &&& forall|v: int|
            0 <= v < list.len() ==> is_dist(net, seq![(start, 0int)], v, #[trigger] dist[v])
        &&& tree(net, start, dist, par, stamp)
        &&& self.lazy().counts() == after_row(
            o.lazy().counts(),
            vs,
            dist,
            par,
            stamp,
            list,
            bnd,
        )
    }

    /// What computing a row, or finding that it need not be, does to the
    /// counters: a level that counts counts along the tree that the row is read
    /// off.
    pub open spec fn noted(
        &self,
        o: &Level<'a>,
        ds: Dataset,
        effects: Seq<(u32, Effect)>,
        l: Ladder,
        k: int,
        c: int,
        i: int,
        fwd: bool,
        computed: bool,
    ) -> bool {
        if o.lazy().counts().len() == 0 || !computed {
            self.lazy().counts() == o.lazy().counts()
        } else {
            exists|dist: Seq<u32>, par: Seq<u32>, stamp: Seq<int>| #[trigger]
                self.read_off(
                    o,
                    region_net(ds, effects, l, k, members(l[k], c), fwd),
                    index_in(members(l[k], c), gates(l[k], c)[i])->0,
                    members(l[k], c),
                    gates(l[k], c),
                    l[k].vhead[c] as int,
                    dist,
                    par,
                    stamp,
                )
        }
    }

    /// Whether use is counted.
    fn counting(&self) -> (r: bool)
        requires
            self.values is Lazy,
        ensures
            r == (self.lazy().counts().len() > 0),
    {
        match &self.values {
            Values::Lazy(z) => z.counts_use(),
            Values::Eager { .. } => false,
        }
    }

    fn member_lists(&self) -> (r: (&'a [u32], &'a [u32]))
        requires
            self.values is Lazy,
        ensures
            r.0@ == self.rung().vhead,
            r.1@ == self.rung().vlist,
    {
        match &self.values {
            Values::Lazy(z) => (z.vhead, z.vlist),
            Values::Eager { .. } => (self.bhead, self.bnd),
        }
    }

    pub(crate) fn row_there(&self, c: u32, i: usize, fwd: bool) -> (r: bool)
        requires
            head_fits(self.rung(), c as int, i as int),
            self.blocks_ok(),
        ensures
            r == self.has_row(c as int, i as int, fwd),
    {
        match &self.values {
            Values::Lazy(z) => {
                let row: usize = self.bhead[c as usize] as usize + i;
                z.bit(row, fwd)
            },
            Values::Eager { .. } => true,
        }
    }
}

/// Different rows of a table share no entry.
pub proof fn lemma_entries_apart(
    lv: Level,
    c: int,
    i: int,
    j: int,
    fwd: bool,
    c2: int,
    i2: int,
    j2: int,
    f2: bool,
)
    requires
        lv.values is Lazy,
        lv.blocks_ok(),
        0 <= c < regions(lv.rung()),
        0 <= c2 < regions(lv.rung()),
        0 <= i < gates(lv.rung(), c).len(),
        0 <= j < gates(lv.rung(), c).len(),
        0 <= i2 < gates(lv.rung(), c2).len(),
        0 <= j2 < gates(lv.rung(), c2).len(),
    ensures
        0 <= lv.entry_at(c, i, j, fwd) < lv.lazy().data@.len(),
        (c, i, fwd) != (c2, i2, f2) || j != j2 ==> lv.entry_at(c, i, j, fwd) != lv.entry_at(
            c2,
            i2,
            j2,
            f2,
        ),
{
    let b = gates(lv.rung(), c).len() as int;
    let b2 = gates(lv.rung(), c2).len() as int;
    lemma_grid(i, j, b);
    lemma_grid(i2, j2, b2);
    assert(2 * b * b == 2 * (b * b)) by (nonlinear_arith);
    assert(2 * b2 * b2 == 2 * (b2 * b2)) by (nonlinear_arith);
    assert(lv.head@[c] + 2 * b * b <= lv.lazy().data@.len());
    if c == c2 {
        if fwd == f2 && lv.entry_at(c, i, j, fwd) == lv.entry_at(c2, i2, j2, f2) {
            lemma_rows_apart(i, j, i2, j2, b);
        }
    } else {
        assert(lv.head@[c] + 2 * b * b <= lv.head@[c2] || lv.head@[c2] + 2 * b2 * b2
            <= lv.head@[c]);
    }
}

impl<'a> Level<'a> {
    /// Whether a stored row already holds `row`.
    fn row_equals(&self, c: u32, i: usize, fwd: bool, row: &Vec<u32>) -> (r: bool)
        requires
            exists|units: int, nv: int| rung_ok(self.rung(), units, nv),
            self.blocks_ok(),
            c < regions(self.rung()),
            i < gates(self.rung(), c as int).len(),
            row@.len() == gates(self.rung(), c as int).len(),
            self.has_row(c as int, i as int, fwd),
        ensures
            r <==> forall|j: int|
                0 <= j < row@.len() ==> #[trigger] self.stored(c as int, i as int, j, fwd)
                    == row@[j],
    {
        let mut j: usize = 0;
        while j < row.len()
            invariant
                exists|units: int, nv: int| rung_ok(self.rung(), units, nv),
                self.blocks_ok(),
                c < regions(self.rung()),
                i < gates(self.rung(), c as int).len(),
                row@.len() == gates(self.rung(), c as int).len(),
                self.has_row(c as int, i as int, fwd),
                j <= row@.len(),
                forall|x: int|
                    0 <= x < j ==> #[trigger] self.stored(c as int, i as int, x, fwd) == row@[x],
            decreases row@.len() - j,
        {
            if self.cost_dir(c, i, j, fwd) != row[j] {
                assert(self.stored(c as int, i as int, j as int, fwd) != row@[j as int]);
                return false;
            }
            j += 1;
        }
        true
    }

    /// Store a row, and mark it present.
    fn put_row(&mut self, c: u32, i: usize, fwd: bool, row: &Vec<u32>)
        requires
            old(self).values is Lazy,
            head_fits(old(self).rung(), c as int, i as int),
            old(self).head@.len() == regions(old(self).rung()) + 1,
            old(self).blocks_ok(),
            row@.len() == gates(old(self).rung(), c as int).len(),
        ensures
            final(self).rung() == old(self).rung(),
            final(self).geo@ == old(self).geo@,
            final(self).values is Lazy,
            final(self).blocks_ok(),
            final(self).lazy().use_ct@ == old(self).lazy().use_ct@,
            final(self).has_row(c as int, i as int, fwd),
            forall|j: int|
                0 <= j < row@.len() ==> #[trigger] final(self).stored(c as int, i as int, j, fwd)
                    == row@[j],
            forall|c2: int, i2: int, f2: bool|
                0 <= c2 < regions(old(self).rung()) && 0 <= i2 < gates(old(self).rung(), c2).len()
                    && (c2, i2, f2) != (c as int, i as int, fwd) ==> #[trigger] final(self).has_row(c2, i2, f2) == old(self).has_row(c2, i2, f2),
            forall|c2: int, i2: int, j2: int, f2: bool|
                0 <= c2 < regions(old(self).rung()) && 0 <= i2 < gates(old(self).rung(), c2).len()
                    && 0 <= j2 < gates(old(self).rung(), c2).len() && (c2, i2, f2) != (
                    c as int,
                    i as int,
                    fwd,
                ) ==> #[trigger] final(self).stored(c2, i2, j2, f2) == old(self).stored(
                    c2,
                    i2,
                    j2,
                    f2,
                ),
    {
        let ghost before = *self;
        let ghost r = self.rung();
        let b: usize = row.len();
        let base: u64 = self.head[c as usize];
        let first: usize = self.bhead[c as usize] as usize + i;
        assert(self.bhead@[c + 1] <= self.bhead@[self.bhead@.len() - 1]);
        match &mut self.values {
            Values::Lazy(z) => {
                let ghost z0 = *z;
                proof {
                    lemma_grid(i as int, 0, b as int);
                    assert(2 * b * b == 2 * (b * b)) by (nonlinear_arith);
                    assert(before.head@[c as int] + 2 * gates(r, c as int).len() * gates(
                        r,
                        c as int,
                    ).len() <= z.data@.len());
                    assert(z.data@.len() == z.data.len());
                }
                let off: usize = if fwd {
                    0
                } else {
                    b * b
                };
                let p: usize = base as usize + off + i * b;
                assert(p == before.entry_at(c as int, i as int, 0, fwd));
                let size: usize = z.data.len();
                let mut j: usize = 0;
                while j < b
                    invariant
                        p + b <= size,
                        b == row@.len(),
                        j <= b,
                        p + b <= z.data@.len(),
                        z.data@.len() == z0.data@.len(),
                        z.have@ == z0.have@,
                        z.use_ct@ == z0.use_ct@,
                        z.rows == z0.rows,
                        z.vhead == z0.vhead,
                        z.vlist == z0.vlist,
                        forall|x: int| 0 <= x < j ==> #[trigger] z.data@[p + x] == row@[x],
                        forall|y: int|
                            0 <= y < z.data@.len() && !(p <= y < p + b) ==> #[trigger] z.data@[y]
                                == z0.data@[y],
                    decreases b - j,
                {
                    z.data[p + j] = row[j];
                    j += 1;
                }
                z.set_bit(first, fwd);
            },
            Values::Eager { .. } => {},
        }
        proof {
            assert(self.rung() == r);
            let z = self.lazy();
            assert forall|j: int| 0 <= j < row@.len() implies #[trigger] self.stored(
                c as int,
                i as int,
                j,
                fwd,
            ) == row@[j] by {
                assert(z.data@[before.entry_at(c as int, i as int, 0, fwd) + j] == row@[j]);
            }
            assert forall|c2: int, i2: int, j2: int, f2: bool|
                0 <= c2 < regions(r) && 0 <= i2 < gates(r, c2).len() && 0 <= j2 < gates(
                    r,
                    c2,
                ).len() && (c2, i2, f2) != (c as int, i as int, fwd) implies #[trigger] self.stored(
                c2,
                i2,
                j2,
                f2,
            ) == before.stored(c2, i2, j2, f2) by {
                let y = before.entry_at(c2, i2, j2, f2);
                let p = before.entry_at(c as int, i as int, 0, fwd);
                if p <= y < p + b {
                    lemma_entries_apart(
                        before,
                        c as int,
                        i as int,
                        y - p,
                        fwd,
                        c2,
                        i2,
                        j2,
                        f2,
                    );
                }
                lemma_entries_apart(before, c2, i2, j2, f2, c2, i2, j2, f2);
            }
            assert forall|c2: int, i2: int, f2: bool|
                0 <= c2 < regions(r) && 0 <= i2 < gates(r, c2).len() && (c2, i2, f2) != (
                    c as int,
                    i as int,
                    fwd,
                ) implies #[trigger] self.has_row(c2, i2, f2) == before.has_row(c2, i2, f2) by {
                lemma_row_number(r, c as int, i as int, c2, i2);
            }
            lemma_row_number(r, c as int, i as int, c as int, i as int);
        }
    }
}

/// Rows are numbered region by region.
pub proof fn lemma_row_number(r: Rung, c: int, i: int, c2: int, i2: int)
    requires
        head_fits(r, c, i),
        head_fits(r, c2, i2),
    ensures
        0 <= r.bhead[c] + i < r.bnd.len(),
        r.bhead[c] + i == r.bhead[c2] + i2 ==> c == c2 && i == i2,
{
    let n = r.bhead.len() - 1;
    assert(r.bhead[c + 1] <= r.bhead[n]);
    assert(r.bhead[c2 + 1] <= r.bhead[n]);
    if c < c2 {
        assert(r.bhead[c + 1] <= r.bhead[c2]);
    } else if c2 < c {
        assert(r.bhead[c2 + 1] <= r.bhead[c]);
    }
}

/// Row `i` of region `c` is one of the level's rows.
pub open spec fn head_fits(r: Rung, c: int, i: int) -> bool {
    &&& crate::dataset::head_ok(r.bhead, r.bnd.len() as int)
    &&& 0 <= c < regions(r)
    &&& 0 <= i < gates(r, c).len()
}

impl<'a> Overlay<'a> {
    /// A stored row holds what its level charges.
    pub open spec fn row_true(
        &self,
        ds: Dataset,
        effects: Seq<(u32, Effect)>,
        k: int,
        c: int,
        i: int,
        fwd: bool,
    ) -> bool {
        forall|j: int|
            0 <= j < gates(self.ladder()[k], c).len() ==> #[trigger] self.levels@[k].stored(
                c,
                i,
                j,
                fwd,
            ) == value(ds, effects, self.ladder(), k, c, i, j, fwd)
    }

    /// Every row that level `k` claims to have is right.
    pub open spec fn valid(&self, ds: Dataset, effects: Seq<(u32, Effect)>, k: int) -> bool {
        forall|c: int, i: int, fwd: bool|
            0 <= c < regions(self.ladder()[k]) && 0 <= i < gates(self.ladder()[k], c).len()
                && #[trigger] self.levels@[k].has_row(c, i, fwd) ==> self.row_true(
                ds,
                effects,
                k,
                c,
                i,
                fwd,
            )
    }

    /// Every row below level `k` is right.
    pub open spec fn valid_below(&self, ds: Dataset, effects: Seq<(u32, Effect)>, k: int) -> bool {
        forall|m: int| 0 <= m < k ==> #[trigger] self.valid(ds, effects, m)
    }

    /// Only rows below level `k` have been added to since `before`.
    pub open spec fn grown(&self, before: &Overlay<'a>, k: int) -> bool {
        &&& self.levels@.len() == before.levels@.len()
        &&& self.ladder() == before.ladder()
        &&& self.bounds@ == before.bounds@
        &&& forall|m: int|
            k <= m < self.levels@.len() ==> (#[trigger] self.levels@[m]).same_table(
                &before.levels@[m],
            )
        &&& forall|m: int, c: int, i: int, fwd: bool|
            0 <= m < k && 0 <= c < regions(self.ladder()[m]) && 0 <= i < gates(
                self.ladder()[m],
                c,
            ).len() && before.levels@[m].has_row(c, i, fwd)
                ==> #[trigger] self.levels@[m].has_row(c, i, fwd)
    }

    /// As `grown`, and beside it only row `(c, i, fwd)` of level `k` itself.
    pub open spec fn one_row(
        &self,
        before: &Overlay<'a>,
        k: int,
        c: int,
        i: int,
        fwd: bool,
    ) -> bool {
        &&& self.levels@.len() == before.levels@.len()
        &&& self.ladder() == before.ladder()
        &&& self.bounds@ == before.bounds@
        &&& forall|m: int|
            k < m < self.levels@.len() ==> (#[trigger] self.levels@[m]).same_table(
                &before.levels@[m],
            )
        &&& forall|m: int, c2: int, i2: int, f2: bool|
            0 <= m < k && 0 <= c2 < regions(self.ladder()[m]) && 0 <= i2 < gates(
                self.ladder()[m],
                c2,
            ).len() && before.levels@[m].has_row(c2, i2, f2)
                ==> #[trigger] self.levels@[m].has_row(c2, i2, f2)
        &&& forall|c2: int, i2: int, f2: bool|
            0 <= c2 < regions(self.ladder()[k]) && 0 <= i2 < gates(self.ladder()[k], c2).len() && (
            c2, i2, f2) != (c, i, fwd) ==> #[trigger] self.levels@[k].has_row(c2, i2, f2)
                == before.levels@[k].has_row(c2, i2, f2)
        &&& forall|c2: int, i2: int, j2: int, f2: bool|
            0 <= c2 < regions(self.ladder()[k]) && 0 <= i2 < gates(self.ladder()[k], c2).len() && 0
                <= j2 < gates(self.ladder()[k], c2).len() && (c2, i2, f2) != (c, i, fwd)
                ==> #[trigger] self.levels@[k].stored(c2, i2, j2, f2) == before.levels@[k].stored(
                c2,
                i2,
                j2,
                f2,
            )
    }
}

proof fn lemma_index_bound(s: Seq<u32>, v: u32)
    ensures
        index_in(s, v) matches Some(i) ==> 0 <= i < s.len() && s[i] == v,
{
}

pub proof fn lemma_net_ok(
    ds: Dataset,
    effects: Seq<(u32, Effect)>,
    l: Ladder,
    k: int,
    m: Seq<u32>,
    fwd: bool,
)
    requires
        m.len() <= u32::MAX,
    ensures
        net_ok(region_net(ds, effects, l, k, m, fwd)),
{
    let net = region_net(ds, effects, l, k, m, fwd);
    assert forall|u: int, s: int, v: int, w: int| #[trigger] arc_at(net, u, s, v, w) implies 0 <= v
        < net.n && w >= 0 by {
        let x = m[u];
        let head = edge_head(ds, fwd);
        let cb = cell_at(l, k - 1, x as int);
        let arcs = row_arcs(ds, effects, l, k, m, fwd, x);
        assert(arcs[s] == Some((v, w)));
        match index_in(gates(l[k - 1], cb), x) {
            Some(i) if k > 0 => {
                let nh = gates(l[k - 1], cb).len();
                if s < nh {
                    assert(arcs[s] == hop_arc(ds, effects, l, k, m, fwd, x, i, s));
                    lemma_index_bound(m, gates(l[k - 1], cb)[s]);
                } else {
                    assert(arcs[s] == road_arc(
                        ds,
                        effects,
                        l,
                        k,
                        m,
                        fwd,
                        x,
                        head[x as int] + (s - nh),
                    ));
                    lemma_index_bound(m, far_end(ds, fwd, x, head[x as int] + (s - nh)));
                }
            },
            _ => {
                assert(arcs[s] == road_arc(ds, effects, l, k, m, fwd, x, head[x as int] + s));
                lemma_index_bound(m, far_end(ds, fwd, x, head[x as int] + s));
            },
        }
    }
}

/// Try an arc of cost `w` from a vertex settled at `d` to local vertex `vi`.
pub(crate) fn relax_to(
    dist: &mut Vec<u32>,
    heap: &mut Heap<Entry>,
    d: u32,
    vi: usize,
    w: u32,
)
    requires
        vi < old(dist)@.len(),
        vi <= u32::MAX,
        old(heap).wf(),
    ensures
        final(heap).wf(),
        if d + w < old(dist)@[vi as int] {
            &&& final(dist)@ == old(dist)@.update(vi as int, (d + w) as u32)
            &&& final(heap)@ == old(heap)@.insert(Entry { d: (d + w) as u32, v: vi as u32 })
        } else {
            final(dist)@ == old(dist)@ && final(heap)@ == old(heap)@
        },
{
    let nd: u32 = d.saturating_add(w);
    if nd < dist[vi] {
        dist[vi] = nd;
        heap.push(Entry { d: nd, v: vi as u32 });
    }
}

/// Equal tables store equal rows.
pub proof fn lemma_same_table(a: Level, b: Level, c: int, i: int, j: int, fwd: bool)
    requires
        a.same_table(&b),
    ensures
        a.stored(c, i, j, fwd) == b.stored(c, i, j, fwd),
        a.has_row(c, i, fwd) == b.has_row(c, i, fwd),
{
}

/// A row filled at the level below keeps everything that is right right.
pub(crate) proof fn lemma_after_ensure<'a>(
    s0: &Overlay<'a>,
    s1: &Overlay<'a>,
    s2: &Overlay<'a>,
    ds: Dataset,
    effects: Seq<(u32, Effect)>,
    k: int,
    c: int,
    i: int,
    fwd: bool,
)
    requires
        0 < k <= s1.levels@.len(),
        0 <= c < regions(s1.ladder()[k - 1]),
        0 <= i < gates(s1.ladder()[k - 1], c).len(),
        s1.valid_below(ds, effects, k),
        s1.grown(s0, k),
        s2.one_row(s1, k - 1, c, i, fwd),
        s2.valid_below(ds, effects, k - 1),
        s2.levels@[k - 1].has_row(c, i, fwd),
        if s1.levels@[k - 1].has_row(c, i, fwd) {
            s2.grown(s1, k - 1)
        } else {
            s2.row_true(ds, effects, k - 1, c, i, fwd)
        },
    ensures
        s2.grown(s0, k),
        s2.valid_below(ds, effects, k),
        s2.row_true(ds, effects, k - 1, c, i, fwd),
{
    let l = s1.ladder();
    let m = k - 1;
    let (a, b) = (s1.levels@[m], s2.levels@[m]);
    assert(s1.valid(ds, effects, m));
    assert(s2.row_true(ds, effects, m, c, i, fwd)) by {
        if a.has_row(c, i, fwd) {
            assert(s1.row_true(ds, effects, m, c, i, fwd));
            assert(b.same_table(&a));
            assert forall|j: int| 0 <= j < gates(l[m], c).len() implies #[trigger] b.stored(
                c,
                i,
                j,
                fwd,
            ) == value(ds, effects, l, m, c, i, j, fwd) by {
                lemma_same_table(b, a, c, i, j, fwd);
                assert(a.stored(c, i, j, fwd) == value(ds, effects, l, m, c, i, j, fwd));
            }
        }
    }
    assert(s2.valid(ds, effects, m)) by {
        assert forall|c2: int, i2: int, f2: bool|
            0 <= c2 < regions(l[m]) && 0 <= i2 < gates(l[m], c2).len() && #[trigger] b.has_row(
                c2,
                i2,
                f2,
            ) implies s2.row_true(ds, effects, m, c2, i2, f2) by {
            if (c2, i2, f2) != (c, i, fwd) {
                assert(a.has_row(c2, i2, f2));
                assert(s1.row_true(ds, effects, m, c2, i2, f2));
                assert forall|j: int| 0 <= j < gates(l[m], c2).len() implies #[trigger] b.stored(
                    c2,
                    i2,
                    j,
                    f2,
                ) == value(ds, effects, l, m, c2, i2, j, f2) by {
                    assert(a.stored(c2, i2, j, f2) == value(ds, effects, l, m, c2, i2, j, f2));
                }
            }
        }
    }
    assert forall|x: int| 0 <= x < k implies #[trigger] s2.valid(ds, effects, x) by {
        if x < m {
            assert(s2.valid(ds, effects, x));
        }
    }
    assert forall|x: int| k <= x < s2.levels@.len() implies (#[trigger] s2.levels@[x]).same_table(
        &s0.levels@[x],
    ) by {
        assert(s1.levels@[x].same_table(&s0.levels@[x]));
    }
    assert forall|x: int, c2: int, i2: int, f2: bool|
        0 <= x < k && 0 <= c2 < regions(l[x]) && 0 <= i2 < gates(l[x], c2).len()
            && s0.levels@[x].has_row(c2, i2, f2) implies #[trigger] s2.levels@[x].has_row(
        c2,
        i2,
        f2,
    ) by {
        assert(s1.levels@[x].has_row(c2, i2, f2));
    }
}

proof fn lemma_grown_one<'a>(
    s0: &Overlay<'a>,
    s1: &Overlay<'a>,
    k: int,
    c: int,
    i: int,
    fwd: bool,
)
    requires
        0 <= k < s0.levels@.len(),
        s1.grown(s0, k),
    ensures
        s1.one_row(s0, k, c, i, fwd),
{
    let (a, b) = (s0.levels@[k], s1.levels@[k]);
    assert(b.same_table(&a));
    assert forall|c2: int, i2: int, f2: bool| #[trigger] b.has_row(c2, i2, f2) == a.has_row(
        c2,
        i2,
        f2,
    ) by {
        lemma_same_table(b, a, c2, i2, 0, f2);
    }
    assert forall|c2: int, i2: int, j2: int, f2: bool| #[trigger]
        b.stored(c2, i2, j2, f2) == a.stored(c2, i2, j2, f2) by {
        lemma_same_table(b, a, c2, i2, j2, f2);
    }
}

/// Writing one row of level `k` after levels below have grown.
proof fn lemma_put<'a>(
    s0: &Overlay<'a>,
    s1: &Overlay<'a>,
    s2: &Overlay<'a>,
    ds: Dataset,
    effects: Seq<(u32, Effect)>,
    k: int,
    c: int,
    i: int,
    fwd: bool,
)
    requires
        0 <= k < s0.levels@.len(),
        s1.wf(),
        s1.grown(s0, k),
        s1.valid_below(ds, effects, k),
        s2.levels@.len() == s1.levels@.len(),
        s2.bounds@ == s1.bounds@,
        s2.levels@ == s1.levels@.update(k, s2.levels@[k]),
        s2.levels@[k].rung() == s1.levels@[k].rung(),
        s2.levels@[k].blocks_ok(),
        forall|c2: int, i2: int, f2: bool|
            0 <= c2 < regions(s1.ladder()[k]) && 0 <= i2 < gates(s1.ladder()[k], c2).len() && (
            c2, i2, f2) != (c, i, fwd) ==> #[trigger] s2.levels@[k].has_row(c2, i2, f2)
                == s1.levels@[k].has_row(c2, i2, f2),
        forall|c2: int, i2: int, j2: int, f2: bool|
            0 <= c2 < regions(s1.ladder()[k]) && 0 <= i2 < gates(s1.ladder()[k], c2).len() && 0
                <= j2 < gates(s1.ladder()[k], c2).len() && (c2, i2, f2) != (c, i, fwd)
                ==> #[trigger] s2.levels@[k].stored(c2, i2, j2, f2) == s1.levels@[k].stored(
                c2,
                i2,
                j2,
                f2,
            ),
    ensures
        s2.ladder() == s1.ladder(),
        s2.wf(),
        s2.one_row(s0, k, c, i, fwd),
        s2.valid_below(ds, effects, k),
{
    assert(s2.ladder() =~= s1.ladder());
    lemma_grown_one(s0, s1, k, c, i, fwd);
    assert forall|m: int| 0 <= m < k implies #[trigger] s2.valid(ds, effects, m) by {
        assert(s1.valid(ds, effects, m));
        assert(s2.levels@[m] == s1.levels@[m]);
        assert forall|c2: int, i2: int, f2: bool|
            0 <= c2 < regions(s2.ladder()[m]) && 0 <= i2 < gates(s2.ladder()[m], c2).len()
                && #[trigger] s2.levels@[m].has_row(c2, i2, f2) implies s2.row_true(
            ds,
            effects,
            m,
            c2,
            i2,
            f2,
        ) by {
            assert(s1.levels@[m].has_row(c2, i2, f2));
            assert(s1.row_true(ds, effects, m, c2, i2, f2));
            assert forall|j: int| 0 <= j < gates(s2.ladder()[m], c2).len() implies #[trigger]
                s2.levels@[m].stored(c2, i2, j, f2) == value(
                ds,
                effects,
                s2.ladder(),
                m,
                c2,
                i2,
                j,
                f2,
            ) by {
                assert(s1.levels@[m].stored(c2, i2, j, f2) == value(
                    ds,
                    effects,
                    s1.ladder(),
                    m,
                    c2,
                    i2,
                    j,
                    f2,
                ));
            }
        }
    }
    assert forall|m: int| 0 <= m < s2.levels@.len() implies (#[trigger] s2.levels@[m]).blocks_ok() by {
        if m != k {
            assert(s2.levels@[m] == s1.levels@[m]);
        }
    }
    assert forall|m: int| k < m < s2.levels@.len() implies (#[trigger] s2.levels@[m]).same_table(
        &s0.levels@[m],
    ) by {
        assert(s2.levels@[m] == s1.levels@[m]);
    }
    assert forall|m: int, c2: int, i2: int, f2: bool|
        0 <= m < k && 0 <= c2 < regions(s2.ladder()[m]) && 0 <= i2 < gates(
            s2.ladder()[m],
            c2,
        ).len() && s0.levels@[m].has_row(c2, i2, f2) implies #[trigger] s2.levels@[m].has_row(
        c2,
        i2,
        f2,
    ) by {
        assert(s2.levels@[m] == s1.levels@[m]);
        assert(s1.levels@[m].has_row(c2, i2, f2));
    }
}

/// Counting leaves the rows of a level as they are.
proof fn lemma_counted<'a>(
    s0: &Overlay<'a>,
    s1: &Overlay<'a>,
    s2: &Overlay<'a>,
    ds: Dataset,
    effects: Seq<(u32, Effect)>,
    k: int,
    c: int,
    i: int,
    fwd: bool,
)
    requires
        0 <= k < s0.levels@.len(),
        s1.wf(),
        s1.grown(s0, k),
        s1.valid_below(ds, effects, k),
        s1.levels@[k].values is Lazy,
        s2.levels@.len() == s1.levels@.len(),
        s2.bounds@ == s1.bounds@,
        s2.levels@ == s1.levels@.update(k, s2.levels@[k]),
        s2.levels@[k].values is Lazy,
        s2.levels@[k].rung() == s1.levels@[k].rung(),
        same_but_counts(s2.levels@[k].lazy(), s1.levels@[k].lazy()),
        s2.levels@[k].lazy().counts().len() == s1.levels@[k].lazy().counts().len(),
    ensures
        s2.ladder() == s1.ladder(),
        s2.wf(),
        s2.one_row(s0, k, c, i, fwd),
        s2.valid_below(ds, effects, k),
        forall|c2: int, i2: int, j2: int, f2: bool| #[trigger]
            s2.levels@[k].stored(c2, i2, j2, f2) == s0.levels@[k].stored(c2, i2, j2, f2),
        forall|c2: int, i2: int, f2: bool| #[trigger]
            s2.levels@[k].has_row(c2, i2, f2) == s0.levels@[k].has_row(c2, i2, f2),
{
    let (a, b) = (s1.levels@[k], s2.levels@[k]);
    assert(a.same_table(&s0.levels@[k]));
    assert(b.blocks_ok()) by {
        assert(a.blocks_ok());
    }
    lemma_put(s0, s1, s2, ds, effects, k, c, i, fwd);
}

impl<'a> Overlay<'a> {
    /// Distances from `src` to every member `list` of a region of level `k`,
    /// over paths that stay inside it; with `track` also the member each was
    /// reached from. Reads the level below, filling what is missing there.
    #[verifier::rlimit(60)]
    fn tree_search(
        &mut self,
        ds: &Dataset,
        ovr: Option<&Overrides>,
        k: usize,
        src: u32,
        list: &[u32],
        fwd: bool,
        track: bool,
    ) -> (r: (Vec<u32>, Vec<u32>, Ghost<Seq<int>>))
        requires
            k > 0 ==> old(self).wf() && ds.nv() == old(self).ladder()[0].of.len(),
            ds.graph_ok(),
            ds.ns() <= u32::MAX,
            ovr matches Some(o) ==> o.wf(),
            k <= old(self).levels@.len(),
            ascending(list@),
            list@.len() <= u32::MAX,
            forall|x: int| 0 <= x < list@.len() ==> (#[trigger] list@[x]) < ds.nv(),
            index_in(list@, src) is Some,
            old(self).valid_below(*ds, table(ovr), k as int),
        ensures
            k > 0 ==> final(self).wf(),
            k == 0 ==> *final(self) == *old(self),
            final(self).grown(old(self), k as int),
            final(self).valid_below(*ds, table(ovr), k as int),
            r.0@.len() == list@.len(),
            forall|v: int|
                0 <= v < list@.len() ==> is_dist(
                    region_net(
                        *ds,
                        table(ovr),
                        old(self).ladder(),
                        k as int,
                        list@,
                        fwd,
                    ),
                    seq![(index_in(list@, src)->0, 0int)],
                    v,
                    #[trigger] r.0@[v],
                ),
            track ==> tree(
                region_net(*ds, table(ovr), old(self).ladder(), k as int, list@, fwd),
                index_in(list@, src)->0,
                r.0@,
                r.1@,
                r.2@,
            ),
            forall|v: int| 0 <= v < r.2@.len() ==> 0 <= #[trigger] r.2@[v],
        decreases k, 0nat,
    {
        let ghost l = self.ladder();
        let ghost eff = table(ovr);
        let ghost net = region_net(*ds, eff, l, k as int, list@, fwd);
        let ghost start: int = index_in(list@, src)->0;
        let ghost seeds = seq![(start, 0int)];
        let ghost before = *self;
        proof {
            lemma_net_ok(*ds, eff, l, k as int, list@, fwd);
            lemma_index_bound(list@, src);
        }
        let n: usize = list.len();
        let mut dist: Vec<u32> = vec![UNREACHABLE; n];
        let mut par: Vec<u32> = if track {
            vec![ROOT; n]
        } else {
            Vec::new()
        };
        let ghost mut stamp: Seq<int> = Seq::new(n as nat, |v: int| 0int);
        let ghost mut clock: int = 1;
        let mut heap: Heap<Entry> = Heap::new();
        match local_index(list, src) {
            Some(si) => {
                dist[si] = 0;
                heap.push(Entry { d: 0, v: si as u32 });
            },
            None => {},
        }
        let ghost mut done: Set<int> = Set::empty();
        let ghost mut cur: int = 0;
        proof {
            lemma_start(net, start, dist@, heap@);
            if track {
                assert(growing(net, start, dist@, par@, stamp, clock));
            }
        }
        loop
            invariant_except_break
                searching(net, seeds, dist@, heap@, done, cur, -1, 0),
            invariant
                l == self.ladder(),
                eff == table(ovr),
                net == region_net(*ds, eff, l, k as int, list@, fwd),
                k > 0 ==> self.wf(),
                k == 0 ==> *self == before,
                heap.wf(),
                self.grown(&before, k as int),
                self.valid_below(*ds, eff, k as int),
                ds.graph_ok(),
                k > 0 ==> ds.nv() == l[0].of.len(),
                ds.ns() <= u32::MAX,
                ovr matches Some(o) ==> o.wf(),
                k <= self.levels@.len(),
                ascending(list@),
                n == list@.len(),
                n <= u32::MAX,
                net.n == n,
                dist@.len() == n,
                forall|x: int| 0 <= x < list@.len() ==> (#[trigger] list@[x]) < ds.nv(),
                track ==> growing(net, start, dist@, par@, stamp, clock),
                clock >= 0,
                forall|v: int| 0 <= v < stamp.len() ==> 0 <= #[trigger] stamp[v],
            ensures
                forall|v: int| 0 <= v < net.n ==> is_dist(net, seeds, v, #[trigger] dist@[v]),
            decreases total(dist@), heap@.len(),
        {
            let ghost heap0 = heap@;
            let ghost dist0 = dist@;
            let e: Entry = match heap.pop() {
                Some(e) => e,
                None => {
                    proof {
                        lemma_finish(net, seeds, dist@, heap@, done, cur);
                    }
                    break;
                },
            };
            proof {
                lemma_pop(net, seeds, dist@, heap0, done, cur, e);
                cur = e.d as int;
            }
            let li: usize = e.v as usize;
            if e.d > dist[li] {
                continue;
            }
            let d: u32 = e.d;
            let u: u32 = list[li];
            let ghost at = li as int;
            let ghost arcs = (net.arcs)(at);
            assert(arcs == row_arcs(*ds, eff, l, k as int, list@, fwd, u));
            let mut cb: u32 = u32::MAX;
            let ghost mut slots: int = 0;
            if k > 0 {
                let below: usize = k - 1;
                cb = self.cell_at(below, u);
                proof {
                    lemma_rung(l, below as int);
                }
                assert(self.levels@[below as int].rung() == l[below as int]);
                match self.levels[below].bindex(cb, u) {
                    Some(i2) => {
                        let ghost was = *self;
                        proof {
                            assert(self.valid_below(*ds, eff, below as int)) by {
                                assert forall|x: int| 0 <= x < below implies #[trigger] self.valid(
                                    *ds,
                                    eff,
                                    x,
                                ) by {}
                            }
                        }
                        self.ensure_row(ds, ovr, below, cb, i2, fwd);
                        proof {
                            lemma_after_ensure(
                                &before,
                                &was,
                                &*self,
                                *ds,
                                eff,
                                k as int,
                                cb as int,
                                i2 as int,
                                fwd,
                            );
                        }
                        let bl: &'a [u32] = self.levels[below].boundary(cb);
                        let ghost g = gates(l[below as int], cb as int);
                        assert(self.row_true(*ds, eff, below as int, cb as int, i2 as int, fwd));
                        let mut j2: usize = 0;
                        while j2 < bl.len()
                            invariant
                                self.ladder() == l,
                                self.wf(),
                                heap.wf(),
                                below == k - 1,
                                k > 0,
                                k <= self.levels@.len(),
                                cb < regions(l[below as int]),
                                rung_ok(
                                    l[below as int],
                                    if below == 0 {
                                        l[0].of.len() as int
                                    } else {
                                        regions(l[below - 1])
                                    },
                                    l[0].of.len() as int,
                                ),
                                self.levels@[below as int].has_row(cb as int, i2 as int, fwd),
                                self.row_true(
                                    *ds,
                                    eff,
                                    below as int,
                                    cb as int,
                                    i2 as int,
                                    fwd,
                                ),
                                cb == cell_at(l, k - 1, u as int),
                                g == gates(l[below as int], cb as int),
                                bl@ == g,
                                i2 < g.len(),
                                index_in(g, u) == Some(i2 as int),
                                j2 <= g.len(),
                                arcs == row_arcs(*ds, eff, l, k as int, list@, fwd, u),
                                arcs == (net.arcs)(at),
                                ascending(list@),
                                net.n == list@.len() == dist@.len(),
                                list@.len() <= u32::MAX,
                                cur == d,
                                at >= 0,
                                at == li,
                                track ==> growing(net, start, dist@, par@, stamp, clock),
                                clock >= 0,
                                forall|v: int|
                                    0 <= v < stamp.len() ==> 0 <= #[trigger] stamp[v],
                                searching(net, seeds, dist@, heap@, done, cur, at, j2 as int),
                                total(dist@) <= total(dist0),
                                total(dist@) == total(dist0) ==> heap@.len() < heap0.len(),
                            decreases g.len() - j2,
                        {
                            let ghost d1 = dist@;
                            let ghost h1 = heap@;
                            assert(arcs[j2 as int] == hop_arc(
                                *ds,
                                eff,
                                l,
                                k as int,
                                list@,
                                fwd,
                                u,
                                i2 as int,
                                j2 as int,
                            ));
                            if j2 != i2 {
                                let step: u32 = self.levels[below].cost_dir(cb, i2, j2, fwd);
                                assert(step == value(
                                    *ds,
                                    eff,
                                    l,
                                    below as int,
                                    cb as int,
                                    i2 as int,
                                    j2 as int,
                                    fwd,
                                )) by {
                                    assert(self.levels@[below as int].stored(
                                        cb as int,
                                        i2 as int,
                                        j2 as int,
                                        fwd,
                                    ) == step);
                                }
                                if step != UNREACHABLE {
                                    match local_index(list, bl[j2]) {
                                        Some(vi) => {
                                            let better: bool = d.saturating_add(step) < dist[vi];
                                            relax_to(&mut dist, &mut heap, d, vi, step);
                                            if track && better {
                                                proof {
                                                    assert(arc_at(
                                                        net,
                                                        at,
                                                        j2 as int,
                                                        vi as int,
                                                        step as int,
                                                    ));
                                                    lemma_tree_relax(
                                                        net,
                                                        start,
                                                        d1,
                                                        par@,
                                                        stamp,
                                                        clock,
                                                        at,
                                                        j2 as int,
                                                        vi as int,
                                                        step as int,
                                                    );
                                                    stamp = stamp.update(vi as int, clock);
                                                    clock = clock + 1;
                                                }
                                                par.set(vi, li as u32);
                                            }
                                        },
                                        None => {},
                                    }
                                }
                            }
                            proof {
                                lemma_relax(
                                    net,
                                    seeds,
                                    d1,
                                    h1,
                                    done,
                                    cur,
                                    at,
                                    j2 as int,
                                    dist@,
                                    heap@,
                                );
                            }
                            j2 += 1;
                        }
                        proof {
                            slots = g.len() as int;
                        }
                    },
                    None => {},
                }
            }
            let ghost base = slots;
            let ghost head = edge_head(*ds, fwd);
            let (hs, segs): (&[u32], &[u32]) = if fwd {
                (ds.head, ds.eseg)
            } else {
                (ds.rhead, ds.rseg)
            };
            assert(hs@ == head && segs@ == edge_segs(*ds, fwd));
            assert(head[u + 1] <= head[head.len() - 1]);
            let (a, b): (usize, usize) = (hs[u as usize] as usize, hs[u as usize + 1] as usize);
            let mut t: usize = a;
            while t < b
                invariant
                    self.ladder() == l,
                    k > 0 ==> self.wf(),
                    heap.wf(),
                    ds.graph_ok(),
                    k > 0 ==> ds.nv() == l[0].of.len(),
                    ds.ns() <= u32::MAX,
                    ovr matches Some(o) ==> o.wf(),
                    eff == table(ovr),
                    k <= self.levels@.len(),
                    u < ds.nv(),
                    k > 0 ==> cb == cell_at(l, k - 1, u as int),
                    hs@ == head,
                    head == edge_head(*ds, fwd),
                    segs@ == edge_segs(*ds, fwd),
                    a == head[u as int],
                    b == head[u + 1],
                    a <= t <= b <= segs@.len(),
                    b <= u32::MAX,
                    base == 0 || k > 0,
                    arcs == row_arcs(*ds, eff, l, k as int, list@, fwd, u),
                    arcs == (net.arcs)(at),
                    arcs.len() == base + (b - a),
                    forall|x: int|
                        0 <= x < b - a ==> #[trigger] arcs[base + x] == road_arc(
                            *ds,
                            eff,
                            l,
                            k as int,
                            list@,
                            fwd,
                            u,
                            a + x,
                        ),
                    ascending(list@),
                    net.n == list@.len() == dist@.len(),
                    list@.len() <= u32::MAX,
                    cur == d,
                    at >= 0,
                    at == li,
                    track ==> growing(net, start, dist@, par@, stamp, clock),
                    clock >= 0,
                    forall|v: int| 0 <= v < stamp.len() ==> 0 <= #[trigger] stamp[v],
                    searching(net, seeds, dist@, heap@, done, cur, at, base + (t - a)),
                    total(dist@) <= total(dist0),
                    total(dist@) == total(dist0) ==> heap@.len() < heap0.len(),
                decreases b - t,
            {
                let ghost d1 = dist@;
                let ghost h1 = heap@;
                let v: u32 = if fwd {
                    ds.target(u, t)
                } else {
                    ds.rtarget(u, t)
                };
                assert(v == far_end(*ds, fwd, u, t as int));
                assert(v < ds.nv());
                assert(arcs[base + (t - a)] == road_arc(
                    *ds,
                    eff,
                    l,
                    k as int,
                    list@,
                    fwd,
                    u,
                    a + (t - a),
                ));
                let inside: bool = k > 0 && self.cell_at(k - 1, v) == cb;
                if !inside {
                    match local_index(list, v) {
                        Some(vi) => {
                            let sid: usize = seg_id(segs[t]);
                            match edge_ds_ov(ds, ovr, sid) {
                                Some(w) => {
                                    let better: bool = d.saturating_add(w) < dist[vi];
                                    relax_to(&mut dist, &mut heap, d, vi, w);
                                    if track && better {
                                        proof {
                                            assert(arc_at(
                                                net,
                                                at,
                                                base + (t - a),
                                                vi as int,
                                                w as int,
                                            ));
                                            lemma_tree_relax(
                                                net,
                                                start,
                                                d1,
                                                par@,
                                                stamp,
                                                clock,
                                                at,
                                                base + (t - a),
                                                vi as int,
                                                w as int,
                                            );
                                            stamp = stamp.update(vi as int, clock);
                                            clock = clock + 1;
                                        }
                                        par.set(vi, li as u32);
                                    }
                                },
                                None => {},
                            }
                        },
                        None => {},
                    }
                }
                proof {
                    lemma_relax(
                        net,
                        seeds,
                        d1,
                        h1,
                        done,
                        cur,
                        at,
                        base + (t - a),
                        dist@,
                        heap@,
                    );
                }
                t += 1;
            }
            proof {
                lemma_settle(net, seeds, dist@, heap@, done, cur, at);
                done = done.insert(at);
            }
        }
        (dist, par, Ghost(stamp))
    }

    /// As [`Overlay::tree_search`], distances only.
    pub(crate) fn row_search(
        &mut self,
        ds: &Dataset,
        ovr: Option<&Overrides>,
        k: usize,
        src: u32,
        list: &[u32],
        fwd: bool,
    ) -> (dist: Vec<u32>)
        requires
            k > 0 ==> old(self).wf() && ds.nv() == old(self).ladder()[0].of.len(),
            ds.graph_ok(),
            ds.ns() <= u32::MAX,
            ovr matches Some(o) ==> o.wf(),
            k <= old(self).levels@.len(),
            ascending(list@),
            list@.len() <= u32::MAX,
            forall|x: int| 0 <= x < list@.len() ==> (#[trigger] list@[x]) < ds.nv(),
            index_in(list@, src) is Some,
            old(self).valid_below(*ds, table(ovr), k as int),
        ensures
            k > 0 ==> final(self).wf(),
            k == 0 ==> *final(self) == *old(self),
            final(self).grown(old(self), k as int),
            final(self).valid_below(*ds, table(ovr), k as int),
            dist@.len() == list@.len(),
            forall|v: int|
                0 <= v < list@.len() ==> is_dist(
                    region_net(
                        *ds,
                        table(ovr),
                        old(self).ladder(),
                        k as int,
                        list@,
                        fwd,
                    ),
                    seq![(index_in(list@, src)->0, 0int)],
                    v,
                    #[trigger] dist@[v],
                ),
    {
        let (dist, _, _): (Vec<u32>, Vec<u32>, Ghost<Seq<int>>) = self.tree_search(
            ds,
            ovr,
            k,
            src,
            list,
            fwd,
            false,
        );
        dist
    }

    /// Make sure one row of a region's table is there, computing and keeping
    /// it if the level stores its values lazily. A no-op on an eager level.
    ///
    /// It recurses: filling a row at level `k` reads the level below, which
    /// may itself be lazy and fill its own rows first.
    pub fn ensure_row(
        &mut self,
        ds: &Dataset,
        ovr: Option<&Overrides>,
        k: usize,
        c: u32,
        i: usize,
        fwd: bool,
    )
        requires
            old(self).wf(),
            ds.graph_ok(),
            ds.nv() == old(self).ladder()[0].of.len(),
            ds.ns() <= u32::MAX,
            ovr matches Some(o) ==> o.wf(),
            k < old(self).levels@.len(),
            c < regions(old(self).ladder()[k as int]),
            i < gates(old(self).ladder()[k as int], c as int).len(),
            old(self).valid_below(*ds, table(ovr), k as int),
        ensures
            final(self).wf(),
            final(self).one_row(old(self), k as int, c as int, i as int, fwd),
            final(self).valid_below(*ds, table(ovr), k as int),
            final(self).levels@[k as int].has_row(c as int, i as int, fwd),
            if old(self).levels@[k as int].has_row(c as int, i as int, fwd) {
                final(self).grown(old(self), k as int)
            } else {
                final(self).row_true(*ds, table(ovr), k as int, c as int, i as int, fwd)
            },
            old(self).levels@[k as int].values is Lazy ==> final(self).levels@[k as int].noted(
                &old(self).levels@[k as int],
                *ds,
                table(ovr),
                old(self).ladder(),
                k as int,
                c as int,
                i as int,
                fwd,
                !old(self).levels@[k as int].has_row(c as int, i as int, fwd),
            ),
        decreases k, 2nat,
    {
        self.row_op(ds, ovr, k, c, i, fwd, false);
    }

    /// One search, two destinations for its answer: `compare` is what separates
    /// `ensure_row` from `recheck_row`.
    fn row_op(
        &mut self,
        ds: &Dataset,
        ovr: Option<&Overrides>,
        k: usize,
        c: u32,
        i: usize,
        fwd: bool,
        compare: bool,
    ) -> (r: Row)
        requires
            old(self).wf(),
            ds.graph_ok(),
            ds.nv() == old(self).ladder()[0].of.len(),
            ds.ns() <= u32::MAX,
            ovr matches Some(o) ==> o.wf(),
            k < old(self).levels@.len(),
            c < regions(old(self).ladder()[k as int]),
            i < gates(old(self).ladder()[k as int], c as int).len(),
            old(self).valid_below(*ds, table(ovr), k as int),
        ensures
            final(self).wf(),
            final(self).one_row(old(self), k as int, c as int, i as int, fwd),
            final(self).valid_below(*ds, table(ovr), k as int),
            final(self).levels@[k as int].has_row(c as int, i as int, fwd),
            match r {
                Row::Empty => old(self).levels@[k as int].values is Eager,
                Row::Written => !old(self).levels@[k as int].has_row(c as int, i as int, fwd),
                Row::Same | Row::Changed => old(self).levels@[k as int].values is Lazy && old(self).levels@[k as int].has_row(c as int, i as int, fwd),
            },
            r is Empty || (r is Same && !compare) ==> final(self).grown(old(self), k as int),
            old(self).levels@[k as int].values is Lazy ==> final(self).levels@[k as int].noted(
                &old(self).levels@[k as int],
                *ds,
                table(ovr),
                old(self).ladder(),
                k as int,
                c as int,
                i as int,
                fwd,
                compare || r is Written,
            ),
            r is Written || r is Changed || compare ==> final(self).row_true(
                *ds,
                table(ovr),
                k as int,
                c as int,
                i as int,
                fwd,
            ),
            compare && old(self).levels@[k as int].has_row(c as int, i as int, fwd) && (r is Same
                || r is Changed) ==> (r is Same <==> old(self).row_true(
                *ds,
                table(ovr),
                k as int,
                c as int,
                i as int,
                fwd,
            )),
            !compare ==> !(r is Changed),
        decreases k, 1nat,
    {
        let ghost before = *self;
        let ghost l = self.ladder();
        let ghost eff = table(ovr);
        if !self.levels[k].is_lazy() {
            assert(self.row_true(*ds, eff, k as int, c as int, i as int, fwd));
            return Row::Empty;
        }
        proof {
            lemma_rung(l, k as int);
            assert(self.levels@[k as int].rung() == l[k as int]);
        }
        let had: bool = self.levels[k].row_there(c, i, fwd);
        if had && !compare {
            return Row::Same;
        }
        let bnd: &'a [u32] = self.levels[k].boundary(c);
        let (vhead, vlist): (&'a [u32], &'a [u32]) = self.levels[k].member_lists();
        assert(vhead@[c + 1] <= vhead@[vhead@.len() - 1]);
        let (vs, ve): (usize, usize) = (vhead[c as usize] as usize, vhead[c as usize + 1] as usize);
        let list: &'a [u32] = vstd::slice::slice_subrange(vlist, vs, ve);
        let ghost g = gates(l[k as int], c as int);
        assert(index_in(list@, g[i as int]) is Some);
        let track: bool = self.levels[k].counting();
        let (dist, par, Ghost(stamp)): (Vec<u32>, Vec<u32>, Ghost<Seq<int>>) = self.tree_search(
            ds,
            ovr,
            k,
            bnd[i],
            list,
            fwd,
            track,
        );
        let ghost mid = *self;
        let ghost net = region_net(*ds, eff, l, k as int, list@, fwd);
        let ghost start: int = index_in(list@, g[i as int])->0;
        assert(mid.levels@[k as int].same_table(&before.levels@[k as int]));
        if track {
            assert(vhead@[c + 1] <= vlist@.len());
            self.levels[k].note_uses(
                vs,
                &dist,
                &par,
                list,
                bnd,
                Ghost(net),
                Ghost(start),
                Ghost(stamp),
            );
        }
        let ghost seen = *self;
        proof {
            assert(seen.levels@ =~= mid.levels@.update(k as int, seen.levels@[k as int]));
            lemma_counted(&before, &mid, &seen, *ds, eff, k as int, c as int, i as int, fwd);
            if track {
                assert(seen.levels@[k as int].read_off(
                    &before.levels@[k as int],
                    net,
                    start,
                    list@,
                    g,
                    vs as int,
                    dist@,
                    par@,
                    stamp,
                ));
            }
        }
        let mut row: Vec<u32> = Vec::new();
        let mut j: usize = 0;
        while j < bnd.len()
            invariant
                bnd@ == g,
                g == gates(l[k as int], c as int),
                list@ == members(l[k as int], c as int),
                ascending(list@),
                i < g.len(),
                j <= g.len(),
                row@.len() == j,
                dist@.len() == list@.len(),
                !l[k as int].eager,
                forall|x: int| 0 <= x < g.len() ==> index_in(list@, #[trigger] g[x]) is Some,
                forall|v: int|
                    0 <= v < list@.len() ==> is_dist(
                        region_net(*ds, eff, l, k as int, list@, fwd),
                        seq![(index_in(list@, g[i as int])->0, 0int)],
                        v,
                        #[trigger] dist@[v],
                    ),
                forall|x: int|
                    0 <= x < j ==> #[trigger] row@[x] == value(
                        *ds,
                        eff,
                        l,
                        k as int,
                        c as int,
                        i as int,
                        x,
                        fwd,
                    ),
            decreases g.len() - j,
        {
            assert(index_in(list@, g[j as int]) is Some);
            let x: u32 = match local_index(list, bnd[j]) {
                Some(x) => {
                    proof {
                        lemma_dist_to(
                            region_net(*ds, eff, l, k as int, list@, fwd),
                            seq![(index_in(list@, g[i as int])->0, 0int)],
                            x as int,
                            dist@[x as int],
                        );
                    }
                    dist[x]
                },
                None => UNREACHABLE,
            };
            row.push(x);
            j += 1;
        }
        if had {
            // Compare first, and only write when something moved.
            assert(seen.levels@[k as int].rung() == l[k as int]);
            if self.levels[k].row_equals(c, i, fwd, &row) {
                proof {
                    assert forall|x: int| 0 <= x < g.len() implies #[trigger] before.levels@[
                        k as int
                    ].stored(c as int, i as int, x, fwd) == value(
                        *ds,
                        eff,
                        l,
                        k as int,
                        c as int,
                        i as int,
                        x,
                        fwd,
                    ) by {
                        assert(seen.levels@[k as int].stored(c as int, i as int, x, fwd)
                            == before.levels@[k as int].stored(c as int, i as int, x, fwd));
                        assert(seen.levels@[k as int].stored(c as int, i as int, x, fwd) == row@[x]);
                    }
                    assert forall|x: int| 0 <= x < g.len() implies #[trigger] seen.levels@[
                        k as int
                    ].stored(c as int, i as int, x, fwd) == value(
                        *ds,
                        eff,
                        l,
                        k as int,
                        c as int,
                        i as int,
                        x,
                        fwd,
                    ) by {
                        assert(seen.levels@[k as int].stored(c as int, i as int, x, fwd) == row@[x]);
                    }
                }
                return Row::Same;
            }
        }
        self.levels[k].put_row(c, i, fwd, &row);
        proof {
            let after = *self;
            assert(after.levels@ =~= mid.levels@.update(k as int, after.levels@[k as int]));
            assert(after.levels@[k as int].lazy().counts() == seen.levels@[k as int].lazy().counts());
            if track {
                assert(after.levels@[k as int].read_off(
                    &before.levels@[k as int],
                    net,
                    start,
                    list@,
                    g,
                    vs as int,
                    dist@,
                    par@,
                    stamp,
                ));
            }
            lemma_put(&before, &mid, &after, *ds, eff, k as int, c as int, i as int, fwd);
            assert forall|x: int| 0 <= x < g.len() implies #[trigger] after.levels@[
                k as int
            ].stored(c as int, i as int, x, fwd) == value(
                *ds,
                eff,
                l,
                k as int,
                c as int,
                i as int,
                x,
                fwd,
            ) by {
                assert(after.levels@[k as int].stored(c as int, i as int, x, fwd) == row@[x]);
            }
            if had && before.row_true(*ds, eff, k as int, c as int, i as int, fwd) {
                assert forall|x: int| 0 <= x < row@.len() implies #[trigger] seen.levels@[
                    k as int
                ].stored(c as int, i as int, x, fwd) == row@[x] by {
                    assert(seen.levels@[k as int].stored(c as int, i as int, x, fwd)
                        == before.levels@[k as int].stored(c as int, i as int, x, fwd));
                    assert(before.levels@[k as int].stored(c as int, i as int, x, fwd) == value(
                        *ds,
                        eff,
                        l,
                        k as int,
                        c as int,
                        i as int,
                        x,
                        fwd,
                    ));
                }
            }
        }
        if had {
            Row::Changed
        } else {
            Row::Written
        }
    }

    /// Recompute a row that is already there and say whether its numbers moved.
    ///
    /// Writes the new values when they differ, so the row is correct either
    /// way. An absent row is computed and reported as `Written`.
    pub fn recheck_row(
        &mut self,
        ds: &Dataset,
        ovr: Option<&Overrides>,
        k: usize,
        c: u32,
        i: usize,
        fwd: bool,
    ) -> (r: Row)
        requires
            old(self).wf(),
            ds.graph_ok(),
            ds.nv() == old(self).ladder()[0].of.len(),
            ds.ns() <= u32::MAX,
            ovr matches Some(o) ==> o.wf(),
            k < old(self).levels@.len(),
            c < regions(old(self).ladder()[k as int]),
            i < gates(old(self).ladder()[k as int], c as int).len(),
            old(self).valid_below(*ds, table(ovr), k as int),
        ensures
            final(self).wf(),
            final(self).one_row(old(self), k as int, c as int, i as int, fwd),
            final(self).valid_below(*ds, table(ovr), k as int),
            final(self).levels@[k as int].has_row(c as int, i as int, fwd),
            final(self).row_true(*ds, table(ovr), k as int, c as int, i as int, fwd),
            r == (if old(self).levels@[k as int].values is Eager {
                Row::Empty
            } else if !old(self).levels@[k as int].has_row(c as int, i as int, fwd) {
                Row::Written
            } else if old(self).row_true(*ds, table(ovr), k as int, c as int, i as int, fwd) {
                Row::Same
            } else {
                Row::Changed
            }),
            old(self).levels@[k as int].values is Lazy ==> final(self).levels@[k as int].noted(
                &old(self).levels@[k as int],
                *ds,
                table(ovr),
                old(self).ladder(),
                k as int,
                c as int,
                i as int,
                fwd,
                true,
            ),
    {
        self.row_op(ds, ovr, k, c, i, fwd, true)
    }
}

} // verus!
