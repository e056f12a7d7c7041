//! Levels, regions, gates and tables.

use vstd::prelude::*;
use crate::bits::{bit8, lemma_clear8, lemma_set8};
use crate::dataset::head_ok;
use crate::lookup::{ascending, position};
use crate::paths::UNREACHABLE;

verus! {

/// What one level of the overlay says about the map, apart from the table
/// rows that a lazy level has filled so far.
pub struct Rung {
    /// A region of the level below (a vertex, at level 0) -> its region here.
    pub of: Seq<u32>,
    pub bnd: Seq<u32>,
    pub bhead: Seq<u32>,
    pub head: Seq<u64>,
    /// Region -> the vertex set its table is computed over (lazy levels).
    pub vhead: Seq<u32>,
    pub vlist: Seq<u32>,
    pub eager: bool,
    pub mat: Seq<u8>,
    pub width: Seq<u8>,
}

pub type Ladder = Seq<Rung>;

pub open spec fn regions(r: Rung) -> int {
    if r.bhead.len() == 0 {
        0
    } else {
        r.bhead.len() - 1
    }
}

/// Boundary vertices of a region.
pub open spec fn gates(r: Rung, c: int) -> Seq<u32> {
    r.bnd.subrange(r.bhead[c] as int, r.bhead[c + 1] as int)
}

/// The vertices a region's table is computed over.
pub open spec fn members(r: Rung, c: int) -> Seq<u32> {
    r.vlist.subrange(r.vhead[c] as int, r.vhead[c + 1] as int)
}

/// Where `v` stands in a list.
pub open spec fn index_in(s: Seq<u32>, v: u32) -> Option<int> {
    if exists|i: int| 0 <= i < s.len() && s[i] == v {
        Some(choose|i: int| 0 <= i < s.len() && s[i] == v)
    } else {
        None
    }
}

pub proof fn lemma_index_in(s: Seq<u32>, i: int)
    requires
        ascending(s),
        0 <= i < s.len(),
    ensures
        index_in(s, s[i]) == Some(i),
{
    let k = choose|k: int| 0 <= k < s.len() && s[k] == s[i];
    assert(s[i] == s[i]);
    assert(0 <= k < s.len() && s[k] == s[i]);
}

/// The region of level `k` that a vertex belongs to: a walk up the ladder.
pub open spec fn cell_at(l: Ladder, k: int, v: int) -> int
    decreases k,
{
    if k <= 0 {
        l[0].of[v] as int
    } else {
        l[k].of[cell_at(l, k - 1, v)] as int
    }
}

/// Entry `(i, j)` of a packed table of width 2 or 4 that starts at `base`.
pub open spec fn packed_entry(mat: Seq<u8>, base: int, wide: bool, n: int) -> u32 {
    if wide {
        let p = base + n * 4;
        (mat[p] + mat[p + 1] * 0x100 + mat[p + 2] * 0x1_0000 + mat[p + 3] * 0x100_0000) as u32
    } else {
        let p = base + n * 2;
        let v = mat[p] + mat[p + 1] * 0x100;
        if v == 0xFFFF {
            UNREACHABLE
        } else {
            v as u32
        }
    }
}

/// What an eager table says of crossing region `c` from gate `i` to gate `j`
/// (into `i` from `j` when not `fwd`).
pub open spec fn eager_entry(r: Rung, c: int, i: int, j: int, fwd: bool) -> u32 {
    let b = gates(r, c).len() as int;
    let n = if fwd {
        i * b + j
    } else {
        j * b + i
    };
    packed_entry(r.mat, r.head[c] as int, r.width[c] != 2, n)
}

/// The arrays of one level fit together, over `units` units below and `nv`
/// vertices.
pub open spec fn rung_ok(r: Rung, units: int, nv: int) -> bool {
    &&& r.bhead.len() >= 1
    &&& regions(r) <= u32::MAX
    &&& r.of.len() == units
    &&& forall|u: int| 0 <= u < units ==> (#[trigger] r.of[u]) < regions(r)
    &&& head_ok(r.bhead, r.bnd.len() as int)
    &&& forall|i: int| 0 <= i < r.bnd.len() ==> (#[trigger] r.bnd[i]) < nv
    &&& forall|c: int| 0 <= c < regions(r) ==> ascending(#[trigger] gates(r, c))
    &&& r.head.len() == regions(r) + 1
    &&& r.eager ==> {
        &&& r.width.len() == regions(r)
        &&& forall|c: int|
            0 <= c < regions(r) ==> (#[trigger] r.head[c]) + gates(r, c).len() * gates(r, c).len()
                * (if r.width[c] == 2 {
                2int
            } else {
                4int
            }) <= r.mat.len()
    }
    &&& !r.eager ==> {
        &&& r.vhead.len() == regions(r) + 1
        &&& head_ok(r.vhead, r.vlist.len() as int)
        &&& forall|i: int| 0 <= i < r.vlist.len() ==> (#[trigger] r.vlist[i]) < nv
        &&& forall|c: int| 0 <= c < regions(r) ==> ascending(#[trigger] members(r, c))
        &&& forall|c: int, i: int|
            0 <= c < regions(r) && 0 <= i < gates(r, c).len() ==> index_in(
                members(r, c),
                #[trigger] gates(r, c)[i],
            ) is Some
    }
}

/// A nested ladder: each level places the regions of the one below, and every
/// gate stands in the region it belongs to.
#[verifier::opaque]
pub open spec fn ladder_ok(l: Ladder) -> bool {
    let nv = l[0].of.len() as int;
    &&& l.len() >= 1
    &&& forall|k: int|
        0 <= k < l.len() ==> rung_ok(
            #[trigger] l[k],
            if k == 0 {
                nv
            } else {
                regions(l[k - 1])
            },
            nv,
        )
    &&& forall|k: int, c: int, i: int|
        0 <= k < l.len() && 0 <= c < regions(l[k]) && 0 <= i < gates(l[k], c).len() ==> cell_at(
            l,
            k,
            #[trigger] gates(l[k], c)[i] as int,
        ) == c
}

/// What a sound ladder says of one level.
pub proof fn lemma_rung(l: Ladder, k: int)
    requires
        ladder_ok(l),
        0 <= k < l.len(),
    ensures
        l.len() >= 1,
        rung_ok(
            l[k],
            if k == 0 {
                l[0].of.len() as int
            } else {
                regions(l[k - 1])
            },
            l[0].of.len() as int,
        ),
{
    reveal(ladder_ok);
}

/// A gate stands in the region it belongs to.
pub proof fn lemma_gate_cell(l: Ladder, k: int, c: int, i: int)
    requires
        ladder_ok(l),
        0 <= k < l.len(),
        0 <= c < regions(l[k]),
        0 <= i < gates(l[k], c).len(),
    ensures
        cell_at(l, k, gates(l[k], c)[i] as int) == c,
{
    reveal(ladder_ok);
}

pub proof fn lemma_cell_bound(l: Ladder, k: int, v: int)
    requires
        ladder_ok(l),
        0 <= k < l.len(),
        0 <= v < l[0].of.len(),
    ensures
        0 <= cell_at(l, k, v) < regions(l[k]),
    decreases k,
{
    if k > 0 {
        lemma_cell_bound(l, k - 1, v);
    }
    lemma_rung(l, k);
}

pub proof fn lemma_grid(i: int, j: int, b: int)
    requires
        0 <= i < b,
        0 <= j < b,
    ensures
        0 <= i * b,
        i * b + b <= b * b,
        0 <= i * b + j < b * b,
{
    assert(i * b + b == (i + 1) * b) by (nonlinear_arith);
    assert((i + 1) * b <= b * b) by (nonlinear_arith)
        requires
            i + 1 <= b,
            0 <= b,
    ;
    assert(0 <= i * b) by (nonlinear_arith)
        requires
            0 <= i,
            0 <= b,
    ;
}

/// Rows of one table do not overlap.
pub proof fn lemma_rows_apart(i: int, j: int, i2: int, j2: int, b: int)
    requires
        0 <= i < b,
        0 <= j < b,
        0 <= i2 < b,
        0 <= j2 < b,
        i * b + j == i2 * b + j2,
    ensures
        i == i2,
        j == j2,
{
    if i < i2 {
        assert((i + 1) * b <= i2 * b) by (nonlinear_arith)
            requires
                i + 1 <= i2,
                0 <= b,
        ;
        assert((i + 1) * b == i * b + b) by (nonlinear_arith);
    } else if i2 < i {
        assert((i2 + 1) * b <= i * b) by (nonlinear_arith)
            requires
                i2 + 1 <= i,
                0 <= b,
        ;
        assert((i2 + 1) * b == i2 * b + b) by (nonlinear_arith);
    }
}

/// Bit `n` of a presence bitmap.
pub open spec fn has_bit(have: Seq<u8>, n: int) -> bool {
    bit8(have[n / 8], (n % 8) as u8)
}

/// How many of the first `n` bits are set.
pub open spec fn ones(have: Seq<u8>, n: int) -> nat
    decreases n,
{
    if n <= 0 {
        0
    } else {
        ones(have, n - 1) + if has_bit(have, n - 1) {
            1nat
        } else {
            0nat
        }
    }
}

/// A row cache.
///
/// A region owns one contiguous block of `2b²` entries: the forward table,
/// then the backward one. A row is filled on its first miss and a bit is set;
/// from then on reading it is a single indexed load.
pub struct Lazy<'a> {
    pub data: &'a mut [u32],
    pub have: &'a mut [u8],
    /// Rows in one direction; the backward bits start at this index.
    pub rows: usize,
    /// Region -> the vertex set its table is computed over.
    pub vhead: &'a [u32],
    pub vlist: &'a [u32],
    /// How often each member has been settled or passed through while filling
    /// this level's rows. Empty when no statistics are gathered.
    pub use_ct: &'a mut [u32],
}

impl<'a> Lazy<'a> {
    /// The table entries.
    pub open spec fn table(&self) -> Seq<u32> {
        self.data@
    }

    /// The presence bitmap.
    pub open spec fn bitmap(&self) -> Seq<u8> {
        self.have@
    }

    /// The use counters.
    pub open spec fn counts(&self) -> Seq<u32> {
        self.use_ct@
    }

    /// The bit that says whether a row is there.
    pub open spec fn bit_of(&self, row: int, fwd: bool) -> int {
        if fwd {
            row
        } else {
            self.rows + row
        }
    }

    pub open spec fn has(&self, row: int, fwd: bool) -> bool {
        has_bit(self.have@, self.bit_of(row, fwd))
    }

    /// There is a presence bit for every row, both ways.
    pub open spec fn bits_ok(&self) -> bool {
        &&& 2 * self.rows <= 8 * self.have@.len()
        &&& self.have@.len() <= usize::MAX / 8
    }

    pub(crate) fn bit(&self, row: usize, fwd: bool) -> (r: bool)
        requires
            self.bits_ok(),
            row < self.rows,
        ensures
            r == self.has(row as int, fwd),
    {
        let n: usize = if fwd {
            row
        } else {
            self.rows + row
        };
        self.have[n / 8] & (1u8 << ((n % 8) as u8)) != 0
    }

    pub(crate) fn clear_bit(&mut self, row: usize, fwd: bool)
        requires
            old(self).bits_ok(),
            row < old(self).rows,
        ensures
            final(self).bits_ok(),
            final(self).data@ == old(self).data@,
            final(self).use_ct@ == old(self).use_ct@,
            final(self).rows == old(self).rows,
            final(self).vhead == old(self).vhead,
            final(self).vlist == old(self).vlist,
            final(self).have@.len() == old(self).have@.len(),
            forall|n: int|
                0 <= n < 8 * old(self).have@.len() ==> #[trigger] has_bit(final(self).have@, n)
                    == (has_bit(old(self).have@, n) && n != old(self).bit_of(row as int, fwd)),
    {
        let n: usize = if fwd {
            row
        } else {
            self.rows + row
        };
        let ghost h0 = self.have@;
        self.have[n / 8] = self.have[n / 8] & !(1u8 << ((n % 8) as u8));
        proof {
            assert forall|m: int| 0 <= m < 8 * h0.len() implies #[trigger] has_bit(self.have@, m)
                == (has_bit(h0, m) && m != n) by {
                lemma_clear8(h0[n as int / 8], (n % 8) as u8, (m % 8) as u8);
            }
        }
    }

    pub(crate) fn set_bit(&mut self, row: usize, fwd: bool)
        requires
            old(self).bits_ok(),
            row < old(self).rows,
        ensures
            final(self).bits_ok(),
            final(self).data@ == old(self).data@,
            final(self).use_ct@ == old(self).use_ct@,
            final(self).rows == old(self).rows,
            final(self).vhead == old(self).vhead,
            final(self).vlist == old(self).vlist,
            final(self).have@.len() == old(self).have@.len(),
            forall|n: int|
                0 <= n < 8 * old(self).have@.len() ==> #[trigger] has_bit(final(self).have@, n)
                    == (has_bit(old(self).have@, n) || n == old(self).bit_of(row as int, fwd)),
    {
        let n: usize = if fwd {
            row
        } else {
            self.rows + row
        };
        let ghost h0 = self.have@;
        self.have[n / 8] = self.have[n / 8] | (1u8 << ((n % 8) as u8));
        proof {
            assert forall|m: int| 0 <= m < 8 * h0.len() implies #[trigger] has_bit(self.have@, m)
                == (has_bit(h0, m) || m == n) by {
                lemma_set8(h0[n as int / 8], (n % 8) as u8, (m % 8) as u8);
            }
        }
    }

    /// The vertex set this level's tables are computed over, in row order.
    pub fn vlist_all(&self) -> (r: &'a [u32])
        ensures
            r@ == self.vlist@,
    {
        self.vlist
    }

    /// Every member's count, in `vlist` order.
    pub fn use_ct_all(&self) -> (r: &[u32])
        ensures
            r@ == self.counts(),
    {
        &*self.use_ct
    }

    /// Whether this level gathers use statistics.
    pub fn counts_use(&self) -> (r: bool)
        ensures
            r == (self.counts().len() > 0),
    {
        self.use_ct.len() > 0
    }

    /// The use counts of one region's members.
    pub fn uses(&self, c: u32) -> (r: &[u32])
        requires
            self.use_ct@.len() > 0 ==> c + 1 < self.vhead@.len() && self.vhead@[c as int]
                <= self.vhead@[c + 1] <= self.use_ct@.len(),
        ensures
            r@ == (if self.counts().len() == 0 {
                Seq::<u32>::empty()
            } else {
                self.counts().subrange(self.vhead@[c as int] as int, self.vhead@[c + 1] as int)
            }),
    {
        if self.use_ct.len() == 0 {
            let r = vstd::slice::slice_subrange(&*self.use_ct, 0, 0);
            assert(r@ =~= Seq::<u32>::empty());
            return r;
        }
        let (a, b): (usize, usize) = (
            self.vhead[c as usize] as usize,
            self.vhead[c as usize + 1] as usize,
        );
        vstd::slice::slice_subrange(&*self.use_ct, a, b)
    }

    /// How many rows have been computed, out of how many there are.
    pub fn filled(&self) -> (r: (usize, usize))
        requires
            self.bits_ok(),
        ensures
            r.0 == ones(self.bitmap(), (2 * self.rows + 7) / 8 * 8),
            r.1 == 2 * self.rows,
    {
        let end: usize = (2 * self.rows + 7) / 8 * 8;
        let mut n: usize = 0;
        let mut i: usize = 0;
        while i < end
            invariant
                self.bits_ok(),
                end == (2 * self.rows + 7) / 8 * 8,
                i <= end <= 8 * self.have@.len(),
                n == ones(self.have@, i as int),
                n <= i,
            decreases end - i,
        {
            if self.have[i / 8] & (1u8 << ((i % 8) as u8)) != 0 {
                n += 1;
            }
            i += 1;
        }
        (n, 2 * self.rows)
    }
}

/// Where a level keeps its numbers.
pub enum Values<'a> {
    /// Every entry computed up front, narrowed to 2 or 4 bytes per region.
    Eager { mat: &'a [u8], width: &'a [u8] },
    /// Rows computed the first time they are asked for, and kept.
    Lazy(Lazy<'a>),
}

/// One level of the overlay. A level is a road network: its vertices are the
/// level below's boundary vertices, its edges are that level's table shortcuts
/// plus the cut edges between its regions.
pub struct Level<'a> {
    pub of: &'a [u32],
    pub bnd: &'a [u32],
    pub bhead: &'a [u32],
    /// Offset of each region's table: bytes for an eager level, entries for a
    /// lazy one.
    pub head: &'a [u64],
    /// Geographic box per region, empty when the dataset has none.
    pub geo: &'a [(i32, i32, i32, i32)],
    pub values: Values<'a>,
}

impl<'a> Level<'a> {
    pub open spec fn rung(&self) -> Rung {
        Rung {
            of: self.of@,
            bnd: self.bnd@,
            bhead: self.bhead@,
            head: self.head@,
            vhead: match self.values {
                Values::Eager { .. } => Seq::empty(),
                Values::Lazy(z) => z.vhead@,
            },
            vlist: match self.values {
                Values::Eager { .. } => Seq::empty(),
                Values::Lazy(z) => z.vlist@,
            },
            eager: self.values is Eager,
            mat: match self.values {
                Values::Eager { mat, .. } => mat@,
                Values::Lazy(_) => Seq::empty(),
            },
            width: match self.values {
                Values::Eager { width, .. } => width@,
                Values::Lazy(_) => Seq::empty(),
            },
        }
    }

    pub open spec fn lazy(&self) -> Lazy<'a> {
        self.values->Lazy_0
    }

    /// The block of region `c` lies inside the table, apart from all others,
    /// and every row has its presence bits.
    pub open spec fn blocks_ok(&self) -> bool {
        self.values is Lazy ==> {
            let z = self.lazy();
            &&& z.bits_ok()
            &&& z.rows == self.bnd@.len()
            &&& z.use_ct@.len() == 0 || z.use_ct@.len() == z.vlist@.len()
            &&& forall|c: int|
                0 <= c < regions(self.rung()) ==> (#[trigger] self.head@[c]) + 2 * gates(
                    self.rung(),
                    c,
                ).len() * gates(self.rung(), c).len() <= z.data@.len()
            &&& forall|c: int, d: int|
                0 <= c < regions(self.rung()) && 0 <= d < regions(self.rung()) && c != d
                    ==> (#[trigger] self.head@[c]) + 2 * gates(self.rung(), c).len() * gates(
                    self.rung(),
                    c,
                ).len() <= (#[trigger] self.head@[d]) || self.head@[d] + 2 * gates(
                    self.rung(),
                    d,
                ).len() * gates(self.rung(), d).len() <= self.head@[c]
        }
    }

    /// Where entry `j` of row `i` of region `c` stands in a lazy table.
    pub open spec fn entry_at(&self, c: int, i: int, j: int, fwd: bool) -> int {
        let b = gates(self.rung(), c).len() as int;
        self.head@[c] + (if fwd {
            0
        } else {
            b * b
        }) + i * b + j
    }

    /// The row is there (always, on an eager level).
    pub open spec fn has_row(&self, c: int, i: int, fwd: bool) -> bool {
        self.values is Lazy ==> self.lazy().has(self.bhead@[c] + i, fwd)
    }

    /// What the level's table holds at an entry.
    pub open spec fn stored(&self, c: int, i: int, j: int, fwd: bool) -> u32 {
        if self.values is Lazy {
            self.lazy().data@[self.entry_at(c, i, j, fwd)]
        } else {
            eager_entry(self.rung(), c, i, j, fwd)
        }
    }

    pub fn regions(&self) -> (n: usize)
        ensures
            n == regions(self.rung()),
    {
        if self.bhead.len() == 0 {
            0
        } else {
            self.bhead.len() - 1
        }
    }

    /// The region of this level that a region of the level below sits in.
    pub fn parent(&self, c: u32) -> (r: u32)
        requires
            c < self.of@.len(),
        ensures
            r == self.rung().of[c as int],
    {
        self.of[c as usize]
    }

    /// Boundary vertices of a region, ascending.
    pub fn boundary(&self, c: u32) -> (r: &'a [u32])
        requires
            head_ok(self.bhead@, self.bnd@.len() as int),
            c < regions(self.rung()),
        ensures
            r@ == gates(self.rung(), c as int),
    {
        let (a, b): (usize, usize) = (
            self.bhead[c as usize] as usize,
            self.bhead[c as usize + 1] as usize,
        );
        assert(self.bhead@[c + 1] <= self.bhead@[self.bhead@.len() - 1]);
        vstd::slice::slice_subrange(self.bnd, a, b)
    }

    /// Every gate of the level, in region order.
    pub fn boundary_all(&self) -> (r: &'a [u32])
        ensures
            r@ == self.rung().bnd,
    {
        self.bnd
    }

    /// Where this region's gates begin in the level-wide boundary list.
    pub fn boundary_start(&self, c: u32) -> (r: usize)
        requires
            c < self.bhead@.len(),
        ensures
            r == self.rung().bhead[c as int],
    {
        self.bhead[c as usize] as usize
    }

    pub fn bindex(&self, c: u32, v: u32) -> (r: Option<usize>)
        requires
            head_ok(self.bhead@, self.bnd@.len() as int),
            c < regions(self.rung()),
            ascending(gates(self.rung(), c as int)),
        ensures
            match r {
                Some(i) => index_in(gates(self.rung(), c as int), v) == Some(i as int) && i < gates(
                    self.rung(),
                    c as int,
                ).len(),
                None => index_in(gates(self.rung(), c as int), v) is None,
            },
    {
        local_index(self.boundary(c), v)
    }

    pub fn is_lazy(&self) -> (r: bool)
        ensures
            r == (self.values is Lazy),
    {
        matches!(self.values, Values::Lazy(_))
    }

    /// Shortest time from the `i`-th to the `j`-th boundary vertex of region
    /// `c`, using only paths inside it.
    pub fn cost(&self, c: u32, i: usize, j: usize) -> (r: u32)
        requires
            exists|units: int, nv: int| rung_ok(self.rung(), units, nv),
            self.blocks_ok(),
            c < regions(self.rung()),
            i < gates(self.rung(), c as int).len(),
            j < gates(self.rung(), c as int).len(),
            self.has_row(c as int, i as int, true),
        ensures
            r == self.stored(c as int, i as int, j as int, true),
    {
        self.cost_dir(c, i, j, true)
    }

    /// `fwd` reads the row from `i`; otherwise the cost *into* `i` from `j`.
    ///
    /// On a lazy level the row must already have been filled.
    pub fn cost_dir(&self, c: u32, i: usize, j: usize, fwd: bool) -> (r: u32)
        requires
            exists|units: int, nv: int| rung_ok(self.rung(), units, nv),
            self.blocks_ok(),
            c < regions(self.rung()),
            i < gates(self.rung(), c as int).len(),
            j < gates(self.rung(), c as int).len(),
            self.has_row(c as int, i as int, fwd),
        ensures
            r == self.stored(c as int, i as int, j as int, fwd),
    {
        let b: usize = self.boundary(c).len();
        let base: u64 = self.head[c as usize];
        proof {
            lemma_grid(i as int, j as int, b as int);
            lemma_grid(j as int, i as int, b as int);
        }
        match &self.values {
            Values::Eager { mat, width } => {
                proof {
                    assert(mat@.len() == mat.len());
                    let w: int = if width@[c as int] == 2 {
                        2
                    } else {
                        4
                    };
                    assert(self.rung().head[c as int] + b * b * w <= mat@.len());
                    assert(b * b * w <= mat@.len());
                    assert(b * b <= b * b * w) by (nonlinear_arith)
                        requires
                            w >= 1,
                            b * b >= 0,
                    ;
                }
                // The transpose is not stored, so a backward read is the
                // mirrored entry of the same table.
                let (x, y): (usize, usize) = if fwd {
                    (i, j)
                } else {
                    (j, i)
                };
                proof {
                    lemma_grid(x as int, y as int, b as int);
                }
                let k: usize = x * b + y;
                if width[c as usize] == 2 {
                    let p: usize = base as usize + k * 2;
                    let v: u32 = mat[p] as u32 + mat[p + 1] as u32 * 0x100;
                    if v == 0xFFFF {
                        UNREACHABLE
                    } else {
                        v
                    }
                } else {
                    let p: usize = base as usize + k * 4;
                    mat[p] as u32 + mat[p + 1] as u32 * 0x100 + mat[p + 2] as u32 * 0x1_0000
                        + mat[p + 3] as u32 * 0x100_0000
                }
            },
            Values::Lazy(z) => {
                proof {
                    assert(z.data@.len() == z.data.len());
                    assert(self.head@[c as int] + 2 * gates(self.rung(), c as int).len() * gates(
                        self.rung(),
                        c as int,
                    ).len() <= z.data@.len());
                    assert(2 * b * b == 2 * (b * b)) by (nonlinear_arith);
                }
                let off: usize = if fwd {
                    0
                } else {
                    b * b
                };
                z.data[base as usize + off + i * b + j]
            },
        }
    }

    pub fn boundary_total(&self) -> (n: usize)
        ensures
            n == self.rung().bnd.len(),
    {
        self.bnd.len()
    }

    /// Which region a global row index falls in: the last one that starts at
    /// or before it.
    pub fn region_of_row(&self, row: usize, nregions: usize) -> (c: u32)
        requires
            nregions < self.bhead@.len(),
            nregions <= u32::MAX,
            row <= u32::MAX,
            head_ok(self.bhead@, self.bnd@.len() as int),
            self.bhead@[0] <= row,
        ensures
            c <= nregions,
            self.bhead@[c as int] <= row,
            forall|d: int| c < d <= nregions ==> self.bhead@[d] > row,
    {
        assert(self.bhead@.len() == self.bhead.len());
        let heads: &[u32] = vstd::slice::slice_subrange(self.bhead, 0, nregions + 1);
        assert(forall|d: int| 0 <= d <= nregions ==> heads@[d] == self.bhead@[d]);
        let mut lo: usize = 0;
        let mut hi: usize = nregions + 1;
        while lo + 1 < hi
            invariant
                lo < hi <= nregions + 1 == heads@.len(),
                nregions < self.bhead@.len(),
                heads@ == self.bhead@.subrange(0, nregions + 1),
                forall|a: int, b: int| 0 <= a <= b < heads@.len() ==> heads@[a] <= heads@[b],
                heads@[lo as int] <= row,
                forall|d: int| hi <= d <= nregions ==> heads@[d] > row,
            decreases hi - lo,
        {
            let mid: usize = lo + (hi - lo) / 2;
            if heads[mid] as usize <= row {
                lo = mid;
            } else {
                hi = mid;
            }
        }
        assert forall|d: int| lo < d <= nregions implies self.bhead@[d] > row by {
            assert(heads@[d] == self.bhead@[d]);
        }
        lo as u32
    }

    /// First global row index of a region.
    pub fn row_base(&self, c: u32) -> (r: usize)
        requires
            c < self.bhead@.len(),
        ensures
            r == self.rung().bhead[c as int],
    {
        self.bhead[c as usize] as usize
    }

    pub fn has_geo(&self) -> (r: bool)
        ensures
            r == (self.geo@.len() > 0),
    {
        self.geo.len() > 0
    }

    /// Bytes per entry in a region's table. A lazy level is always 4.
    pub fn width_of(&self, c: u32) -> (w: u8)
        requires
            self.values is Eager ==> c < self.rung().width.len(),
        ensures
            w == (if self.values is Eager {
                self.rung().width[c as int]
            } else {
                4u8
            }),
    {
        match &self.values {
            Values::Eager { width, .. } => width[c as usize],
            Values::Lazy(_) => 4,
        }
    }
}

/// Where `v` stands in an ascending list.
pub(crate) fn local_index(list: &[u32], v: u32) -> (r: Option<usize>)
    requires
        ascending(list@),
    ensures
        match r {
            Some(i) => index_in(list@, v) == Some(i as int) && i < list@.len(),
            None => index_in(list@, v) is None,
        },
{
    let r = position(list, v);
    proof {
        if let Some(i) = r {
            lemma_index_in(list@, i as int);
        }
    }
    r
}

pub struct Overlay<'a> {
    pub levels: Vec<Level<'a>>,
    /// Cheapest and dearest crossing of each level-0 region.
    pub bounds: &'a [(u32, u32)],
}

impl<'a> Overlay<'a> {
    pub open spec fn ladder(&self) -> Ladder {
        Seq::new(self.levels@.len(), |k: int| self.levels@[k].rung())
    }

    /// A nested ladder, with room for every table row.
    pub open spec fn wf(&self) -> bool {
        &&& ladder_ok(self.ladder())
        &&& forall|k: int| 0 <= k < self.levels@.len() ==> (#[trigger] self.levels@[k]).blocks_ok()
    }

    /// How many levels this dataset carries.
    pub fn levels(&self) -> (n: usize)
        ensures
            n == self.ladder().len(),
    {
        self.levels.len()
    }

    pub fn level(&self, k: usize) -> (r: &Level<'a>)
        requires
            k < self.levels@.len(),
        ensures
            *r == self.levels@[k as int],
    {
        &self.levels[k]
    }

    /// The vertex-to-region map of level 0.
    pub fn cell_of(&self) -> (r: &'a [u32])
        requires
            self.levels@.len() >= 1,
        ensures
            r@ == self.ladder()[0].of,
    {
        self.levels[0].of
    }

    pub fn cells(&self) -> (n: usize)
        requires
            self.levels@.len() >= 1,
        ensures
            n == regions(self.ladder()[0]),
    {
        self.levels[0].regions()
    }

    /// The level-0 region a vertex belongs to.
    pub fn cell(&self, v: u32) -> (c: u32)
        requires
            self.levels@.len() >= 1,
            v < self.ladder()[0].of.len(),
        ensures
            c == cell_at(self.ladder(), 0, v as int),
    {
        self.levels[0].of[v as usize]
    }

    /// The region of level `k` that a vertex belongs to.
    pub fn cell_at(&self, k: usize, v: u32) -> (c: u32)
        requires
            ladder_ok(self.ladder()),
            k < self.levels@.len(),
            v < self.ladder()[0].of.len(),
        ensures
            c == cell_at(self.ladder(), k as int, v as int),
            c < regions(self.ladder()[k as int]),
    {
        let ghost l = self.ladder();
        let ghost nv = l[0].of.len() as int;
        proof {
            lemma_rung(l, 0);
        }
        let n: usize = self.levels.len();
        let mut c: u32 = self.levels[0].of[v as usize];
        let mut j: usize = 1;
        while j <= k
            invariant
                l == self.ladder(),
                ladder_ok(l),
                nv == l[0].of.len(),
                0 <= v < nv,
                k < n == self.levels@.len(),
                1 <= j <= k + 1,
                c == cell_at(l, j - 1, v as int),
            decreases k + 1 - j,
        {
            proof {
                lemma_cell_bound(l, j - 1, v as int);
                lemma_rung(l, j as int);
            }
            c = self.levels[j].of[c as usize];
            j += 1;
        }
        proof {
            lemma_cell_bound(l, k as int, v as int);
        }
        c
    }
}

} // verus!
