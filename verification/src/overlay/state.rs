//! What a dataset's tables currently hold, and forgetting what has gone stale.

use vstd::prelude::*;
use crate::bytes::{fnv, fnv_u64, le, FNV_START};
use crate::dataset::{seg_id, seg_of, Dataset};
use crate::lookup::ascending;
use crate::overlay::rows::lemma_row_number;
use crate::overlay::shape::{
    cell_at, gates, has_bit, index_in, ladder_ok, lemma_cell_bound, lemma_rung, local_index,
    members, ones, regions, rung_ok, Ladder, Lazy, Level, Overlay, Values,
};
use crate::overrides::{edge_ds_ov, table, Effect, Overrides};

verus! {

/// The numbers one edge of `u` adds to the hash of a region's inputs: nothing
/// when it leaves the region, else its far end and its cost. A closed edge
/// counts as a cost no duration can take.
pub open spec fn edge_input(
    ds: Dataset,
    effects: Seq<(u32, Effect)>,
    list: Seq<u32>,
    u: u32,
    t: int,
) -> Seq<u64> {
    let v = ds.spec_target(u, t);
    if index_in(list, v) is None {
        Seq::empty()
    } else {
        seq![
            v as u64,
            match ds.cost(effects, seg_of(ds.eseg@[t])) {
                Some(w) => w as u64,
                None => u64::MAX,
            },
        ]
    }
}

/// The numbers the edges `head[u]..t` of `u` add.
pub open spec fn vertex_input(
    ds: Dataset,
    effects: Seq<(u32, Effect)>,
    list: Seq<u32>,
    u: u32,
    t: int,
) -> Seq<u64>
    decreases t,
{
    if t <= ds.head@[u as int] {
        Seq::empty()
    } else {
        vertex_input(ds, effects, list, u, t - 1) + edge_input(ds, effects, list, u, t - 1)
    }
}

/// Everything a region's rows are computed from, for its first `n` members.
pub open spec fn region_input(
    ds: Dataset,
    effects: Seq<(u32, Effect)>,
    list: Seq<u32>,
    n: int,
) -> Seq<u64>
    decreases n,
{
    if n <= 0 {
        seq![list.len() as u64]
    } else {
        region_input(ds, effects, list, n - 1) + vertex_input(
            ds,
            effects,
            list,
            list[n - 1],
            ds.head@[list[n - 1] + 1] as int,
        )
    }
}

/// FNV-1a over a list of numbers, eight bytes each.
pub open spec fn hash_numbers(s: Seq<u64>) -> u64
    decreases s.len(),
{
    if s.len() == 0 {
        FNV_START
    } else {
        fnv(hash_numbers(s.drop_last()), le(s.last() as int, 8))
    }
}

proof fn lemma_hash_push(s: Seq<u64>, x: u64)
    ensures
        hash_numbers(s.push(x)) == fnv(hash_numbers(s), le(x as int, 8)),
{
    assert(s.push(x).drop_last() =~= s);
}

/// Rows a level has, both directions together.
pub open spec fn rows_present(lv: Level) -> nat {
    if lv.values is Lazy {
        ones(lv.lazy().have@, 2 * lv.lazy().rows)
    } else {
        0
    }
}

proof fn lemma_ones_clear(a: Seq<u8>, b: Seq<u8>, at: int, n: int)
    requires
        0 <= at,
        has_bit(a, at),
        forall|m: int| 0 <= m < n ==> #[trigger] has_bit(b, m) == (has_bit(a, m) && m != at),
    ensures
        ones(b, n) == ones(a, n) - (if at < n {
            1int
        } else {
            0int
        }),
    decreases n,
{
    if n > 0 {
        lemma_ones_clear(a, b, at, n - 1);
        assert(has_bit(b, n - 1) == (has_bit(a, n - 1) && n - 1 != at));
    }
}

impl<'a> Level<'a> {
    /// Forget one row if it is there, and say whether it was.
    fn drop_row(&mut self, row: usize, fwd: bool) -> (r: bool)
        requires
            old(self).blocks_ok(),
            old(self).values is Lazy,
            row < old(self).bnd@.len(),
        ensures
            final(self).blocks_ok(),
            final(self).values is Lazy,
            final(self).rung() == old(self).rung(),
            final(self).geo@ == old(self).geo@,
            final(self).lazy().data@ == old(self).lazy().data@,
            final(self).lazy().use_ct@ == old(self).lazy().use_ct@,
            final(self).lazy().rows == old(self).lazy().rows,
            r == old(self).lazy().has(row as int, fwd),
            forall|n: int|
                0 <= n < 2 * old(self).lazy().rows ==> #[trigger] has_bit(
                    final(self).lazy().have@,
                    n,
                ) == (has_bit(old(self).lazy().have@, n) && n != old(self).lazy().bit_of(
                    row as int,
                    fwd,
                )),
            rows_present(*old(self)) == rows_present(*final(self)) + (if r {
                1nat
            } else {
                0nat
            }),
    {
        let ghost before = *self;
        let mut there: bool = false;
        match &mut self.values {
            Values::Lazy(z) => {
                there = z.bit(row, fwd);
                if there {
                    z.clear_bit(row, fwd);
                }
            },
            Values::Eager { .. } => {},
        }
        proof {
            let z0 = before.lazy();
            let z1 = self.lazy();
            let at = z0.bit_of(row as int, fwd);
            if there {
                lemma_ones_clear(z0.have@, z1.have@, at, 2 * z0.rows);
            } else {
                assert forall|n: int| 0 <= n < 2 * z0.rows implies #[trigger] has_bit(z1.have@, n)
                    == (has_bit(z0.have@, n) && n != at) by {}
            }
        }
        there
    }

    /// Forget every row of a region; how many there were.
    fn drop_region(&mut self, c: u32) -> (n: usize)
        requires
            old(self).blocks_ok(),
            crate::dataset::head_ok(old(self).bhead@, old(self).bnd@.len() as int),
            c < regions(old(self).rung()),
        ensures
            final(self).blocks_ok(),
            final(self).rung() == old(self).rung(),
            final(self).geo@ == old(self).geo@,
            n + rows_present(*final(self)) == rows_present(*old(self)),
            final(self).forgot(old(self), c as int),
    {
        if !self.is_lazy() {
            return 0;
        }
        let ghost before = *self;
        let ghost z0 = before.lazy();
        assert(self.bhead@[c + 1] <= self.bhead@[self.bhead@.len() - 1]);
        let (a, b): (usize, usize) = (
            self.bhead[c as usize] as usize,
            self.bhead[c as usize + 1] as usize,
        );
        let mut n: usize = 0;
        let mut row: usize = a;
        while row < b
            invariant
                before.values is Lazy,
                z0 == before.lazy(),
                z0.bits_ok(),
                self.blocks_ok(),
                self.values is Lazy,
                self.rung() == before.rung(),
                self.geo@ == before.geo@,
                self.lazy().data@ == z0.data@,
                self.lazy().use_ct@ == z0.use_ct@,
                self.lazy().rows == z0.rows == before.bnd@.len(),
                a <= row <= b <= before.bnd@.len(),
                n <= 2 * (row - a),
                n + rows_present(*self) == rows_present(before),
                forall|m: int|
                    0 <= m < 2 * z0.rows ==> #[trigger] has_bit(self.lazy().have@, m) == (has_bit(
                        z0.have@,
                        m,
                    ) && !(a <= m < row) && !(z0.rows + a <= m < z0.rows + row)),
            decreases b - row,
        {
            let ghost z1 = self.lazy();
            if self.drop_row(row, true) {
                n += 1;
            }
            let ghost z2 = self.lazy();
            if self.drop_row(row, false) {
                n += 1;
            }
            proof {
                assert forall|m: int| 0 <= m < 2 * z0.rows implies #[trigger] has_bit(
                    self.lazy().have@,
                    m,
                ) == (has_bit(z0.have@, m) && !(a <= m < row + 1) && !(z0.rows + a <= m < z0.rows
                    + row + 1)) by {
                    assert(has_bit(z2.have@, m) == (has_bit(z1.have@, m) && m != row));
                    assert(has_bit(z1.have@, m) == (has_bit(z0.have@, m) && !(a <= m < row) && !(
                    z0.rows + a <= m < z0.rows + row)));
                }
            }
            row += 1;
        }
        proof {
            let r = before.rung();
            assert forall|c2: int, i2: int, f2: bool|
                0 <= c2 < regions(r) && 0 <= i2 < gates(r, c2).len() implies #[trigger] self.has_row(
                c2,
                i2,
                f2,
            ) == (before.has_row(c2, i2, f2) && c2 != c) by {
                lemma_row_number(r, c2, i2, c2, i2);
                if c2 < c {
                    assert(r.bhead[c2 + 1] <= r.bhead[c as int]);
                } else if c2 > c {
                    assert(r.bhead[c + 1] <= r.bhead[c2]);
                }
                let m = z0.bit_of(r.bhead[c2] + i2, f2);
                assert(has_bit(self.lazy().have@, m) == (has_bit(z0.have@, m) && !(a <= m < b) && !(
                z0.rows + a <= m < z0.rows + b)));
            }
        }
        n
    }

    /// As `before`, but without the rows of region `c`.
    pub open spec fn forgot(&self, before: &Level<'a>, c: int) -> bool {
        if before.values is Lazy {
            &&& self.values is Lazy
            &&& self.lazy().data@ == before.lazy().data@
            &&& self.lazy().use_ct@ == before.lazy().use_ct@
            &&& forall|c2: int, i2: int, f2: bool|
                0 <= c2 < regions(before.rung()) && 0 <= i2 < gates(before.rung(), c2).len()
                    ==> #[trigger] self.has_row(c2, i2, f2) == (before.has_row(c2, i2, f2) && c2
                    != c)
        } else {
            self.same_table(before)
        }
    }
}

impl<'a> Overlay<'a> {
    /// Boundary vertices of a level-0 region, ascending.
    pub fn boundary(&self, c: u32) -> (r: &'a [u32])
        requires
            self.wf(),
            c < regions(self.ladder()[0]),
        ensures
            r@ == gates(self.ladder()[0], c as int),
    {
        proof {
            lemma_first(self.ladder());
        }
        self.levels[0].boundary(c)
    }

    pub fn bindex(&self, c: u32, v: u32) -> (r: Option<usize>)
        requires
            self.wf(),
            c < regions(self.ladder()[0]),
        ensures
            match r {
                Some(i) => index_in(gates(self.ladder()[0], c as int), v) == Some(i as int) && i
                    < gates(self.ladder()[0], c as int).len(),
                None => index_in(gates(self.ladder()[0], c as int), v) is None,
            },
    {
        proof {
            lemma_first(self.ladder());
        }
        self.levels[0].bindex(c, v)
    }

    pub fn cost(&self, c: u32, i: usize, j: usize) -> (r: u32)
        requires
            self.wf(),
            c < regions(self.ladder()[0]),
            i < gates(self.ladder()[0], c as int).len(),
            j < gates(self.ladder()[0], c as int).len(),
            self.levels@[0].has_row(c as int, i as int, true),
        ensures
            r == self.levels@[0].stored(c as int, i as int, j as int, true),
    {
        proof {
            lemma_first(self.ladder());
        }
        self.levels[0].cost(c, i, j)
    }

    pub fn boundary_total(&self) -> (n: usize)
        requires
            self.levels@.len() >= 1,
        ensures
            n == self.ladder()[0].bnd.len(),
    {
        self.levels[0].boundary_total()
    }

    /// Whether the ladder goes above level 0.
    pub fn has_l2(&self) -> (r: bool)
        ensures
            r == (self.ladder().len() > 1),
    {
        self.levels.len() > 1
    }

    /// Whether a row is already there. Always true on an eager level.
    pub fn row_present(&self, k: usize, c: u32, i: usize, fwd: bool) -> (r: bool)
        requires
            self.wf(),
            k < self.levels@.len(),
            c < regions(self.ladder()[k as int]),
            i < gates(self.ladder()[k as int], c as int).len(),
        ensures
            r == self.levels@[k as int].has_row(c as int, i as int, fwd),
    {
        proof {
            lemma_rung(self.ladder(), k as int);
        }
        assert(self.levels@[k as int].rung() == self.ladder()[k as int]);
        self.levels[k].row_there(c, i, fwd)
    }

    /// Whether any level fills its rows on demand.
    pub fn any_lazy(&self) -> (r: bool)
        ensures
            r == exists|k: int| 0 <= k < self.levels@.len() && (#[trigger] self.levels@[k]).values is Lazy,
    {
        let mut k: usize = 0;
        while k < self.levels.len()
            invariant
                k <= self.levels@.len(),
                forall|m: int| 0 <= m < k ==> !((#[trigger] self.levels@[m]).values is Lazy),
            decreases self.levels@.len() - k,
        {
            if self.levels[k].is_lazy() {
                assert(self.levels@[k as int].values is Lazy);
                return true;
            }
            k += 1;
        }
        false
    }

    /// How many rows of a lazy level have been filled, out of how many there
    /// are. `None` on an eager level, which has them all by construction.
    pub fn filled(&self, k: usize) -> (r: Option<(usize, usize)>)
        requires
            k < self.levels@.len(),
            self.levels@[k as int].blocks_ok(),
        ensures
            match r {
                None => self.levels@[k as int].values is Eager,
                Some((n, all)) => {
                    let z = self.levels@[k as int].lazy();
                    &&& self.levels@[k as int].values is Lazy
                    &&& n == ones(z.have@, (2 * z.rows + 7) / 8 * 8)
                    &&& all == 2 * z.rows
                },
            },
    {
        match &self.levels[k].values {
            Values::Lazy(z) => Some(z.filled()),
            Values::Eager { .. } => None,
        }
    }

    /// Cheapest and dearest crossing of a level-0 region.
    pub fn bounds_of(&self, c: u32) -> (r: (u32, u32))
        requires
            c < self.bounds@.len(),
        ensures
            r == self.bounds@[c as int],
    {
        self.bounds[c as usize]
    }

    /// A hash of everything a level-0 region's rows are computed *from*: which
    /// members there are, which edges run between them, and what those edges
    /// cost. Zero on an eager level 0.
    pub fn input_hash(&self, ds: &Dataset, ovr: Option<&Overrides>, c: u32) -> (h: u64)
        requires
            self.wf(),
            ds.graph_ok(),
            ds.nv() == self.ladder()[0].of.len(),
            ds.ns() <= u32::MAX,
            ovr matches Some(o) ==> o.wf(),
            c < regions(self.ladder()[0]),
        ensures
            h == (if self.levels@[0].values is Eager {
                0
            } else {
                let list = members(self.ladder()[0], c as int);
                hash_numbers(region_input(*ds, table(ovr), list, list.len() as int))
            }),
    {
        let ghost l = self.ladder();
        let ghost eff = table(ovr);
        proof {
            lemma_first(l);
        }
        let (vhead, vlist): (&[u32], &[u32]) = match &self.levels[0].values {
            Values::Lazy(z) => (z.vhead, z.vlist),
            Values::Eager { .. } => {
                return 0;
            },
        };
        assert(vhead@[c + 1] <= vhead@[vhead@.len() - 1]);
        let list: &[u32] = vstd::slice::slice_subrange(
            vlist,
            vhead[c as usize] as usize,
            vhead[c as usize + 1] as usize,
        );
        assert(list@ == members(l[0], c as int));
        let ghost mut seen: Seq<u64> = seq![list@.len() as u64];
        proof {
            lemma_hash_push(Seq::empty(), list@.len() as u64);
            assert(Seq::<u64>::empty().push(list@.len() as u64) =~= seen);
        }
        let mut h: u64 = fnv_u64(FNV_START, list.len() as u64);
        let mut n: usize = 0;
        while n < list.len()
            invariant
                ds.graph_ok(),
                ds.ns() <= u32::MAX,
                ovr matches Some(o) ==> o.wf(),
                eff == table(ovr),
                n <= list@.len(),
                ascending(list@),
                forall|x: int| 0 <= x < list@.len() ==> (#[trigger] list@[x]) < ds.nv(),
                seen == region_input(*ds, eff, list@, n as int),
                h == hash_numbers(seen),
            decreases list@.len() - n,
        {
            let u: u32 = list[n];
            let ghost head = ds.head@;
            assert(head[u + 1] <= head[head.len() - 1]);
            let (a, e): (usize, usize) = (
                ds.head[u as usize] as usize,
                ds.head[u as usize + 1] as usize,
            );
            let ghost base = seen;
            let mut j: usize = a;
            assert(base + vertex_input(*ds, eff, list@, u, a as int) =~= base);
            while j < e
                invariant
                    ds.graph_ok(),
                    ds.ns() <= u32::MAX,
                    ovr matches Some(o) ==> o.wf(),
                    eff == table(ovr),
                    ascending(list@),
                    u < ds.nv(),
                    a == ds.head@[u as int],
                    e == ds.head@[u + 1],
                    a <= j <= e <= ds.eseg@.len(),
                    e <= u32::MAX,
                    seen == base + vertex_input(*ds, eff, list@, u, j as int),
                    h == hash_numbers(seen),
                decreases e - j,
            {
                let ghost seen0 = seen;
                let v: u32 = ds.target(u, j);
                let inside: bool = match local_index(list, v) {
                    Some(_) => true,
                    None => false,
                };
                if inside {
                    let sid: usize = seg_id(ds.eseg[j]);
                    let w: u64 = match edge_ds_ov(ds, ovr, sid) {
                        Some(w) => w as u64,
                        None => u64::MAX,
                    };
                    h = fnv_u64(h, v as u64);
                    h = fnv_u64(h, w);
                    proof {
                        lemma_hash_push(seen, v as u64);
                        lemma_hash_push(seen.push(v as u64), w);
                        seen = seen.push(v as u64).push(w);
                        assert(edge_input(*ds, eff, list@, u, j as int) =~= seq![v as u64, w]);
                    }
                }
                proof {
                    assert(seen =~= seen0 + edge_input(*ds, eff, list@, u, j as int));
                    assert(seen =~= base + vertex_input(*ds, eff, list@, u, j + 1));
                }
                j += 1;
            }
            n += 1;
        }
        h
    }

    /// As `before` but for region `c` of level `k`, whose rows are forgotten.
    pub open spec fn forgot(&self, before: &Overlay<'a>, k: int, c: int) -> bool {
        &&& self.levels@.len() == before.levels@.len()
        &&& self.ladder() == before.ladder()
        &&& self.bounds@ == before.bounds@
        &&& self.levels@[k].forgot(&before.levels@[k], c)
        &&& forall|m: int|
            0 <= m < self.levels@.len() && m != k ==> #[trigger] self.levels@[m]
                == before.levels@[m]
    }

    /// Forget every row of a region, so the next query recomputes them.
    ///
    /// Returns how many rows were dropped. An eager level cannot be
    /// invalidated this way and reports zero.
    pub fn invalidate(&mut self, k: usize, c: u32) -> (n: usize)
        requires
            old(self).wf(),
            k < old(self).levels@.len(),
            c < regions(old(self).ladder()[k as int]),
        ensures
            final(self).wf(),
            final(self).forgot(old(self), k as int, c as int),
            n + rows_present(final(self).levels@[k as int]) == rows_present(
                old(self).levels@[k as int],
            ),
    {
        let ghost before = *self;
        proof {
            lemma_rung(self.ladder(), k as int);
            assert(self.levels@[k as int].rung() == self.ladder()[k as int]);
        }
        let n: usize = self.levels[k].drop_region(c);
        proof {
            assert(self.ladder() =~= before.ladder());
        }
        n
    }
}

/// Rows present on the first `n` levels.
pub open spec fn all_rows(levels: Seq<Level>, n: int) -> nat
    decreases n,
{
    if n <= 0 {
        0
    } else {
        all_rows(levels, n - 1) + rows_present(levels[n - 1])
    }
}

proof fn lemma_all_rows_same(a: Seq<Level>, b: Seq<Level>, n: int)
    requires
        forall|m: int| 0 <= m < n ==> a[m] == b[m],
    ensures
        all_rows(a, n) == all_rows(b, n),
    decreases n,
{
    if n > 0 {
        lemma_all_rows_same(a, b, n - 1);
    }
}

proof fn lemma_all_rows_one(a: Seq<Level>, b: Seq<Level>, k: int, n: int)
    requires
        0 <= k < n,
        forall|m: int| 0 <= m < n && m != k ==> a[m] == b[m],
    ensures
        all_rows(a, n) + rows_present(b[k]) == all_rows(b, n) + rows_present(a[k]),
    decreases n,
{
    if k == n - 1 {
        lemma_all_rows_same(a, b, n - 1);
    } else {
        lemma_all_rows_one(a, b, k, n - 1);
    }
}

proof fn lemma_all_rows_ge(a: Seq<Level>, k: int, n: int)
    requires
        0 <= k < n,
    ensures
        rows_present(a[k]) <= all_rows(a, n),
    decreases n,
{
    if k < n - 1 {
        lemma_all_rows_ge(a, k, n - 1);
    }
}

/// An end of segment `s` is a vertex of region `c` of level `k`.
pub open spec fn seg_touches(ds: Dataset, l: Ladder, s: int, k: int, c: int) -> bool {
    &&& 0 <= s < ds.seg_u@.len()
    &&& {
        ||| ds.seg_u@[s] < ds.nv() && cell_at(l, k, ds.seg_u@[s] as int) == c
        ||| ds.seg_v@[s] < ds.nv() && cell_at(l, k, ds.seg_v@[s] as int) == c
    }
}

/// One of the first `n` overridden segments touches region `c` of level `k`.
pub open spec fn touched_by(
    ds: Dataset,
    l: Ladder,
    effects: Seq<(u32, Effect)>,
    n: int,
    k: int,
    c: int,
) -> bool {
    exists|x: int|
        0 <= x < n && seg_touches(ds, l, (#[trigger] effects[x]).0 as int, k, c)
}

impl<'a> Overlay<'a> {
    /// As `before`, without the rows of the regions in `gone`.
    pub open spec fn without(&self, before: &Overlay<'a>, gone: spec_fn(int, int) -> bool) -> bool {
        &&& self.levels@.len() == before.levels@.len()
        &&& self.ladder() == before.ladder()
        &&& self.bounds@ == before.bounds@
        &&& forall|k: int|
            0 <= k < self.levels@.len() && before.levels@[k].values is Lazy ==> {
                &&& (#[trigger] self.levels@[k]).values is Lazy
                &&& self.levels@[k].lazy().data@ == before.levels@[k].lazy().data@
                &&& self.levels@[k].lazy().use_ct@ == before.levels@[k].lazy().use_ct@
            }
        &&& forall|k: int, c: int, i: int, fwd: bool|
            0 <= k < self.levels@.len() && before.levels@[k].values is Lazy && 0 <= c < regions(
                self.ladder()[k],
            ) && 0 <= i < gates(self.ladder()[k], c).len() ==> #[trigger] self.levels@[k].has_row(
                c,
                i,
                fwd,
            ) == (before.levels@[k].has_row(c, i, fwd) && !gone(k, c))
    }

    /// Forget the regions a vertex stands in, on every level.
    fn invalidate_vertex(&mut self, v: u32, Ghost(first): Ghost<Overlay<'a>>, Ghost(gone): Ghost<
        spec_fn(int, int) -> bool,
    >) -> (n: usize)
        requires
            old(self).wf(),
            v < old(self).ladder()[0].of.len(),
            old(self).without(&first, gone),
            all_rows(old(self).levels@, old(self).levels@.len() as int) <= usize::MAX,
        ensures
            final(self).wf(),
            n + all_rows(final(self).levels@, final(self).levels@.len() as int) == all_rows(
                old(self).levels@,
                old(self).levels@.len() as int,
            ),
            final(self).without(
                &first,
                |k: int, c: int| gone(k, c) || c == cell_at(first.ladder(), k, v as int),
            ),
    {
        let ghost before = *self;
        let ghost l = self.ladder();
        proof {
            lemma_first(l);
        }
        let mut c: u32 = self.cell(v);
        let mut n: usize = 0;
        let mut k: usize = 0;
        let nlev: usize = self.levels.len();
        proof {
            lemma_cell_bound(l, 0, v as int);
        }
        while k < nlev
            invariant
                self.wf(),
                self.ladder() == l,
                l == first.ladder(),
                v < l[0].of.len(),
                nlev == self.levels@.len() == first.levels@.len() == l.len(),
                k <= nlev,
                k < nlev ==> c == cell_at(l, k as int, v as int) && c < regions(l[k as int]),
                all_rows(before.levels@, nlev as int) <= usize::MAX,
                n + all_rows(self.levels@, nlev as int) == all_rows(before.levels@, nlev as int),
                self.without(
                    &first,
                    |m: int, d: int|
                        gone(m, d) || (m < k && d == cell_at(first.ladder(), m, v as int)),
                ),
            decreases nlev - k,
        {
            let ghost was = *self;
            proof {
                lemma_all_rows_ge(was.levels@, k as int, nlev as int);
            }
            let dropped: usize = self.invalidate(k, c);
            proof {
                lemma_all_rows_one(self.levels@, was.levels@, k as int, nlev as int);
                let g1 = |m: int, d: int|
                    gone(m, d) || (m < k + 1 && d == cell_at(first.ladder(), m, v as int));
                assert(self.without(&first, g1)) by {
                    assert forall|m: int|
                        0 <= m < nlev && first.levels@[m].values is Lazy implies (
                    #[trigger] self.levels@[m]).values is Lazy && self.levels@[m].lazy().data@
                        == first.levels@[m].lazy().data@ && self.levels@[m].lazy().use_ct@
                        == first.levels@[m].lazy().use_ct@ by {
                        assert(was.levels@[m].values is Lazy);
                    }
                    assert forall|m: int, d: int, i: int, fwd: bool|
                        0 <= m < nlev && first.levels@[m].values is Lazy && 0 <= d < regions(l[m])
                            && 0 <= i < gates(l[m], d).len() implies #[trigger] self.levels@[
                        m
                    ].has_row(d, i, fwd) == (first.levels@[m].has_row(d, i, fwd) && !g1(m, d)) by {
                        assert(was.levels@[m].values is Lazy);
                        assert(was.levels@[m].has_row(d, i, fwd) == (first.levels@[m].has_row(
                            d,
                            i,
                            fwd,
                        ) && !(gone(m, d) || (m < k && d == cell_at(l, m, v as int)))));
                    }
                }
            }
            n = n + dropped;
            k += 1;
            if k < nlev {
                proof {
                    lemma_rung(l, k as int);
                    lemma_cell_bound(l, k as int, v as int);
                }
                c = self.levels[k].parent(c);
            }
        }
        proof {
            let g0 = |m: int, d: int|
                gone(m, d) || (m < k && d == cell_at(first.ladder(), m, v as int));
            let g1 = |m: int, d: int| gone(m, d) || d == cell_at(first.ladder(), m, v as int);
            assert(self.without(&first, g0));
            assert(self.without(&first, g1)) by {
                assert forall|m: int, d: int, i: int, fwd: bool|
                    0 <= m < nlev && first.levels@[m].values is Lazy && 0 <= d < regions(l[m]) && 0
                        <= i < gates(l[m], d).len() implies #[trigger] self.levels@[m].has_row(
                    d,
                    i,
                    fwd,
                ) == (first.levels@[m].has_row(d, i, fwd) && !g1(m, d)) by {
                    assert(g0(m, d) == g1(m, d));
                }
            }
        }
        n
    }

    /// Drop every cached row that a set of overrides could have changed: the
    /// rows of each region, on each level, that an end of an overridden
    /// segment stands in.
    ///
    /// Returns the rows dropped. Eager levels report none: their values have
    /// to be rebuilt rather than forgotten.
    pub fn invalidate_for(&mut self, ds: &Dataset, ovr: &Overrides) -> (n: usize)
        requires
            old(self).wf(),
            ds.nv() == old(self).ladder()[0].of.len(),
            ds.seg_u@.len() == ds.seg_v@.len(),
            all_rows(old(self).levels@, old(self).levels@.len() as int) <= usize::MAX,
        ensures
            final(self).wf(),
            n + all_rows(final(self).levels@, final(self).levels@.len() as int) == all_rows(
                old(self).levels@,
                old(self).levels@.len() as int,
            ),
            final(self).without(
                old(self),
                |k: int, c: int|
                    touched_by(*ds, old(self).ladder(), ovr@, ovr@.len() as int, k, c),
            ),
    {
        let ghost first = *self;
        let ghost l = self.ladder();
        let segs: Vec<u32> = ovr.segments();
        let mut n: usize = 0;
        let mut x: usize = 0;
        let ghost mut gone: spec_fn(int, int) -> bool = |k: int, c: int|
            touched_by(*ds, l, ovr@, 0, k, c);
        proof {
            assert(self.without(&first, gone));
        }
        while x < segs.len()
            invariant
                self.wf(),
                l == first.ladder(),
                l == self.ladder(),
                ds.nv() == l[0].of.len(),
                ds.seg_u@.len() == ds.seg_v@.len(),
                segs@ == Seq::new(ovr@.len(), |i: int| ovr@[i].0),
                x <= segs@.len(),
                self.levels@.len() == first.levels@.len(),
                all_rows(first.levels@, first.levels@.len() as int) <= usize::MAX,
                n + all_rows(self.levels@, self.levels@.len() as int) == all_rows(
                    first.levels@,
                    first.levels@.len() as int,
                ),
                self.without(&first, gone),
                forall|k: int, c: int|
                    #[trigger] gone(k, c) == touched_by(*ds, l, ovr@, x as int, k, c),
            decreases segs@.len() - x,
        {
            let sid: u32 = segs[x];
            let ghost g0 = gone;
            assert(ovr@[x as int].0 == sid);
            if (sid as usize) < ds.seg_u.len() {
                let (u, v): (u32, u32) = (ds.seg_u[sid as usize], ds.seg_v[sid as usize]);
                if (u as usize) < ds.n_vertices() {
                    let d: usize = self.invalidate_vertex(u, Ghost(first), Ghost(gone));
                    n = n + d;
                    proof {
                        let g = gone;
                        gone = |k: int, c: int| g(k, c) || c == cell_at(
                            first.ladder(),
                            k,
                            u as int,
                        );
                    }
                }
                if (v as usize) < ds.n_vertices() {
                    let d: usize = self.invalidate_vertex(v, Ghost(first), Ghost(gone));
                    n = n + d;
                    proof {
                        let g = gone;
                        gone = |k: int, c: int| g(k, c) || c == cell_at(
                            first.ladder(),
                            k,
                            v as int,
                        );
                    }
                }
            }
            proof {
                assert forall|k: int, c: int|
                    #[trigger] gone(k, c) == touched_by(*ds, l, ovr@, x + 1, k, c) by {
                    assert(g0(k, c) == touched_by(*ds, l, ovr@, x as int, k, c));
                    let hit = seg_touches(*ds, l, sid as int, k, c);
                    assert(gone(k, c) == (g0(k, c) || hit));
                    if hit {
                        assert(seg_touches(*ds, l, ovr@[x as int].0 as int, k, c));
                    }
                }
            }
            x += 1;
        }
        proof {
            let g1 = |k: int, c: int| touched_by(*ds, l, ovr@, ovr@.len() as int, k, c);
            assert(self.without(&first, g1)) by {
                assert forall|m: int, d: int, i: int, fwd: bool|
                    0 <= m < self.levels@.len() && first.levels@[m].values is Lazy && 0 <= d
                        < regions(l[m]) && 0 <= i < gates(l[m], d).len() implies #[trigger]
                    self.levels@[m].has_row(d, i, fwd) == (first.levels@[m].has_row(d, i, fwd)
                    && !g1(m, d)) by {
                    assert(gone(m, d) == g1(m, d));
                }
            }
        }
        n
    }
}

proof fn lemma_first(l: Ladder)
    requires
        ladder_ok(l),
    ensures
        l.len() >= 1,
        rung_ok(l[0], l[0].of.len() as int, l[0].of.len() as int),
{
    reveal(ladder_ok);
}

} // verus!
