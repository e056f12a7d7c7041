//! Building level 0.

use vstd::prelude::*;
use crate::dataset::Dataset;
use crate::lookup::ascending;
use crate::overlay::lists::{block, is_gate, listing, lists, on_boundary};
use crate::overlay::partition::{partition, room_of, spread, FREE};
use crate::overlay::shape::Overlay;
use crate::overlay::strays::{
    absorb_strays, absorbed, apart, opened, renumbered, roots, SLACK,
};
use crate::overlay::tables::{
    crossing_bounds, narrow, region_costs, table_bounds, wide_table, Narrowed,
};
use crate::overrides::table;

verus! {

/// Where regions, their vertices and their gates are.
pub struct Shape {
    /// A unit of the level below (a vertex, at level 0) -> its region.
    pub of: Vec<u32>,
    /// Gates by region, ascending.
    pub bnd: Vec<u32>,
    pub bhead: Vec<u32>,
    /// Region -> the vertices its table is computed over, ascending.
    pub vhead: Vec<u32>,
    pub vlist: Vec<u32>,
}

impl Shape {
    pub open spec fn cells(&self) -> int {
        self.bhead@.len() - 1
    }

    pub open spec fn gates(&self, c: int) -> Seq<u32> {
        block(self.bhead@, self.bnd@, c)
    }

    pub open spec fn members(&self, c: int) -> Seq<u32> {
        block(self.vhead@, self.vlist@, c)
    }

    /// How many gates region `c` has.
    pub open spec fn width(&self, c: int) -> int {
        self.bhead@[c + 1] - self.bhead@[c]
    }
}

/// The shape of level 0 over a map of vertices to regions.
pub open spec fn shaped(ds: Dataset, s: Shape, ncells: int) -> bool {
    &&& s.of@.len() == ds.nv()
    &&& forall|v: int| 0 <= v < ds.nv() ==> (#[trigger] s.of@[v]) < ncells
    &&& lists(
        s.vhead@,
        s.vlist@,
        ncells,
        |c: int, v: u32| v < ds.nv() && s.of@[v as int] == c,
    )
    &&& lists(
        s.bhead@,
        s.bnd@,
        ncells,
        |c: int, v: u32| v < ds.nv() && s.of@[v as int] == c && on_boundary(ds, s.of@, v),
    )
}

/// The regions of a map: grown, then rid of stranded fragments.
pub open spec fn regioned(ds: Dataset, target: int, of: Seq<u32>, ncells: int) -> bool {
    let (cell, n) = spread(
        ds,
        Seq::new(ds.nv() as nat, |i: int| FREE),
        0,
        0,
        room_of(target),
    );
    exists|end: Seq<u32>|
        {
            &&& #[trigger] absorbed(ds, cell, apart(n), target * SLACK, 4, end)
            &&& renumbered(roots(cell, end), of)
            &&& ncells == opened(roots(cell, end), ds.nv())
        }
}

/// The squares of the widths of the first `c` regions, `times` each.
pub open spec fn squares(bhead: Seq<u32>, times: int, c: int) -> int
    decreases c,
{
    if c <= 0 {
        0
    } else {
        squares(bhead, times, c - 1) + times * ((bhead[c] - bhead[c - 1]) * (bhead[c] - bhead[c
            - 1]))
    }
}

proof fn lemma_squares(bhead: Seq<u32>, times: int, c: int)
    requires
        0 <= c < bhead.len(),
        times >= 0,
        forall|i: int, j: int| 0 <= i <= j < bhead.len() ==> bhead[i] <= bhead[j],
    ensures
        0 <= squares(bhead, times, c) <= times * (bhead[c] * bhead[c]),
    decreases c,
{
    if c > 0 {
        lemma_squares(bhead, times, c - 1);
        let (a, b) = (bhead[c - 1] as int, bhead[c] as int);
        assert(bhead[c - 1] <= bhead[c]);
        assert(a * a + (b - a) * (b - a) <= b * b) by (nonlinear_arith)
            requires
                0 <= a <= b,
        ;
        assert((b - a) * (b - a) >= 0) by (nonlinear_arith);
        assert(times * (a * a) + times * ((b - a) * (b - a)) <= times * (b * b)) by (nonlinear_arith)
            requires
                times >= 0,
                a * a + (b - a) * (b - a) <= b * b,
        ;
        assert(times * ((b - a) * (b - a)) >= 0) by (nonlinear_arith)
            requires
                times >= 0,
                (b - a) * (b - a) >= 0,
        ;
    } else {
        assert(times * (bhead[0] * bhead[0]) >= 0) by (nonlinear_arith)
            requires
                times >= 0,
        ;
    }
}

/// Where the table of each region begins when every one takes `times` the
/// square of its width.
pub fn square_heads(bhead: &Vec<u32>, times: u64) -> (head: Vec<u64>)
    requires
        bhead@.len() >= 1,
        times <= 2,
        forall|i: int, j: int| 0 <= i <= j < bhead@.len() ==> bhead@[i] <= bhead@[j],
        bhead@[bhead@.len() - 1] <= 0x7FFF_FFFF,
    ensures
        head@.len() == bhead@.len(),
        forall|c: int|
            0 <= c < bhead@.len() ==> #[trigger] head@[c] == squares(bhead@, times as int, c),
{
    let mut head: Vec<u64> = Vec::new();
    head.push(0);
    let mut c: usize = 0;
    let n: usize = bhead.len();
    while c + 1 < n
        invariant
            n == bhead@.len(),
            n >= 1,
            c < n,
            times <= 2,
            forall|i: int, j: int| 0 <= i <= j < bhead@.len() ==> bhead@[i] <= bhead@[j],
            bhead@[bhead@.len() - 1] <= 0x7FFF_FFFF,
            head@.len() == c + 1,
            forall|x: int| 0 <= x <= c ==> #[trigger] head@[x] == squares(bhead@, times as int, x),
        decreases n - c,
    {
        assert(bhead@[c as int] <= bhead@[c + 1]);
        let b: u64 = (bhead[c + 1] - bhead[c]) as u64;
        proof {
            let last = bhead@[n - 1] as int;
            let x = bhead@[c + 1] as int;
            assert(x <= last);
            lemma_squares(bhead@, times as int, c + 1);
            assert(times * (x * x) <= 2 * (0x7FFF_FFFFint * 0x7FFF_FFFFint)) by (nonlinear_arith)
                requires
                    0 <= x <= 0x7FFF_FFFF,
                    0 <= times <= 2,
            ;
            lemma_squares(bhead@, times as int, c as int);
            assert(0 <= b * b) by (nonlinear_arith)
                requires
                    b >= 0,
            ;
            assert(b * b <= 0x7FFF_FFFFint * 0x7FFF_FFFFint) by (nonlinear_arith)
                requires
                    0 <= b <= 0x7FFF_FFFF,
            ;
            assert(0 <= times * (b * b) <= 2 * (b * b)) by (nonlinear_arith)
                requires
                    0 <= b * b,
                    0 <= times <= 2,
            ;
        }
        let next: u64 = head[c] + times * (b * b);
        head.push(next);
        c += 1;
    }
    head
}

/// What a lazy level holds at first: its shape, where each block begins, and
/// room for rows that nobody has asked for yet.
pub struct Built {
    pub shape: Shape,
    pub cells: usize,
    pub boundary: usize,
    /// Entries of all tables in one direction.
    pub matrix_entries: u64,
    pub values: Filling,
}

pub enum Filling {
    /// Where each region's block begins: both directions side by side.
    Lazy { head: Vec<u64> },
    Eager {
        /// Tables in full width, one after another.
        wide: Vec<u32>,
        ohead: Vec<u64>,
        tables: Narrowed,
        /// The least and the greatest finite crossing of each region.
        bounds: Vec<(u32, u32)>,
    },
}

pub proof fn lemma_lists_same(
    head: Seq<u32>,
    list: Seq<u32>,
    ncells: int,
    a: spec_fn(int, u32) -> bool,
    b: spec_fn(int, u32) -> bool,
)
    requires
        lists(head, list, ncells, a),
        forall|c: int, v: u32| 0 <= c < ncells ==> #[trigger] a(c, v) == #[trigger] b(c, v),
    ensures
        lists(head, list, ncells, b),
{
    assert forall|c: int, v: u32|
        0 <= c < ncells implies (#[trigger] block(head, list, c).contains(v) <==> b(c, v)) by {
        assert(a(c, v) == b(c, v));
    }
}

/// The vertices and the gates of every region.
pub fn shape_regions(ds: &Dataset, of: Vec<u32>, ncells: usize) -> (s: Shape)
    requires
        ds.graph_ok(),
        of@.len() == ds.nv(),
        ncells <= ds.nv(),
        forall|v: int| 0 <= v < of@.len() ==> (#[trigger] of@[v]) < ncells,
    ensures
        s.of@ == of@,
        shaped(*ds, s, ncells as int),
        s.vlist@.len() <= ds.nv(),
        s.bnd@.len() <= ds.nv(),
{
    let nv: usize = ds.n_vertices();
    let mut all: Vec<(u32, u32)> = Vec::new();
    let mut some: Vec<(u32, u32)> = Vec::new();
    let mut v: usize = 0;
    while v < nv
        invariant
            ds.graph_ok(),
            nv == ds.nv(),
            nv < u32::MAX,
            of@.len() == nv,
            forall|v: int| 0 <= v < of@.len() ==> (#[trigger] of@[v]) < ncells,
            v <= nv,
            all@.len() == v,
            some@.len() <= v,
            forall|x: int| 0 <= x < all@.len() ==> #[trigger] all@[x] == (of@[x], x as u32),
            forall|x: int|
                0 <= x < some@.len() ==> {
                    &&& (#[trigger] some@[x]).1 < v
                    &&& some@[x].0 == of@[some@[x].1 as int]
                    &&& on_boundary(*ds, of@, some@[x].1)
                },
            forall|u: int|
                0 <= u < v && on_boundary(*ds, of@, u as u32) ==> some@.contains(
                    (#[trigger] of@[u], u as u32),
                ),
        decreases nv - v,
    {
        all.push((of[v], v as u32));
        let ghost s0 = some@;
        if is_gate(ds, of.as_slice(), v as u32) {
            some.push((of[v], v as u32));
        }
        proof {
            assert forall|u: int|
                0 <= u < v + 1 && on_boundary(*ds, of@, u as u32) implies some@.contains(
                (#[trigger] of@[u], u as u32),
            ) by {
                if u < v {
                    let x = s0.index_of((of@[u], u as u32));
                    assert(some@[x] == s0[x]);
                } else {
                    assert(some@[s0.len() as int] == (of@[u], u as u32));
                }
            }
        }
        v += 1;
    }
    let ghost a0 = all@;
    let ghost s0 = some@;
    proof {
        assert forall|i: int| 0 <= i < s0.len() implies (#[trigger] s0[i]).0 < ncells by {
            assert(of@[s0[i].1 as int] < ncells);
        }
        assert forall|i: int| 0 <= i < a0.len() implies (#[trigger] a0[i]).0 < ncells by {
            assert(of@[i] < ncells);
        }
    }
    let (vhead, vlist): (Vec<u32>, Vec<u32>) = listing(all, ncells);
    let (bhead, bnd): (Vec<u32>, Vec<u32>) = listing(some, ncells);
    proof {
        let n = ncells as int;
        let pa = |c: int, v: u32| a0.contains((c as u32, v));
        let qa = |c: int, v: u32| v < ds.nv() && of@[v as int] == c;
        assert forall|c: int, v: u32| 0 <= c < n implies #[trigger] pa(c, v) == #[trigger] qa(c, v) by {
            if pa(c, v) {
                let x = a0.index_of((c as u32, v));
                assert(a0[x] == (of@[x], x as u32));
            }
            if qa(c, v) {
                assert(a0[v as int] == (c as u32, v));
            }
        }
        lemma_lists_same(vhead@, vlist@, n, pa, qa);
        let ps = |c: int, v: u32| s0.contains((c as u32, v));
        let qs = |c: int, v: u32|
            v < ds.nv() && of@[v as int] == c && on_boundary(*ds, of@, v);
        assert forall|c: int, v: u32| 0 <= c < n implies #[trigger] ps(c, v) == #[trigger] qs(c, v) by {
            if ps(c, v) {
                let x = s0.index_of((c as u32, v));
                assert(s0[x].1 == v);
            }
            if qs(c, v) {
                assert(s0.contains((of@[v as int], v)));
            }
        }
        lemma_lists_same(bhead@, bnd@, n, ps, qs);
    }
    Shape { of, bnd, bhead, vhead, vlist }
}

/// Every region's table in full, one after another, with its least and its
/// greatest crossing.
pub open spec fn tabled(
    ds: Dataset,
    s: Shape,
    ncells: int,
    wide: Seq<u32>,
    ohead: Seq<u64>,
    bounds: Seq<(u32, u32)>,
) -> bool {
    &&& bounds.len() == ncells
    &&& forall|c: int|
        0 <= c < ncells ==> {
            &&& region_costs(
                ds,
                table(None),
                Seq::empty(),
                0,
                s.members(c),
                s.gates(c),
                #[trigger] wide_table(wide, ohead, s.bhead@, c),
            )
            &&& table_bounds(
                wide_table(wide, ohead, s.bhead@, c),
                s.width(c),
                bounds[c].0,
                bounds[c].1,
            )
        }
}

/// `lazy` leaves the values of level 0 to be filled on demand.
///
/// It is what makes an update possible without a rebuild: an eager table packs
/// each region at a width chosen from values that an update is about to
/// change, while forgetting a region of a lazy level is clearing bits.
pub fn build_with(ds: &Dataset, target: usize, lazy: bool) -> (r: Built)
    requires
        ds.graph_ok(),
        ds.ns() <= u32::MAX,
        ds.nv() <= 0x7FFF_FFFF,
        ds.nv() * ds.nv() <= usize::MAX,
        target <= 0x7FFF_FFFF,
    ensures
        regioned(*ds, target as int, r.shape.of@, r.cells as int),
        shaped(*ds, r.shape, r.cells as int),
        r.boundary == r.shape.bnd@.len(),
        r.matrix_entries == squares(r.shape.bhead@, 1, r.cells as int),
        r.values is Lazy == lazy,
        match r.values {
            Filling::Lazy { head } => {
                &&& head@.len() == r.cells + 1
                &&& forall|c: int|
                    0 <= c <= r.cells ==> #[trigger] head@[c] == squares(r.shape.bhead@, 2, c)
            },
            Filling::Eager { wide, ohead, tables, bounds } => {
                &&& ohead@.len() == r.cells + 1
                &&& forall|c: int|
                    0 <= c <= r.cells ==> #[trigger] ohead@[c] == squares(r.shape.bhead@, 1, c)
                &&& tabled(*ds, r.shape, r.cells as int, wide@, ohead@, bounds@)
                &&& packed(r.shape, r.cells as int, wide@, ohead@, tables)
            },
        },
{
    let (mut cell, n0): (Vec<u32>, usize) = partition(ds, target);
    proof {
        crate::overlay::partition::lemma_partition(*ds, target as int);
    }
    let cells: usize = absorb_strays(ds, &mut cell, n0, target);
    let shape: Shape = shape_regions(ds, cell, cells);
    let boundary: usize = shape.bnd.len();
    let ohead: Vec<u64> = square_heads(&shape.bhead, 1);
    let matrix_entries: u64 = ohead[cells];
    if lazy {
        let head: Vec<u64> = square_heads(&shape.bhead, 2);
        return Built {
            shape,
            cells,
            boundary,
            matrix_entries,
            values: Filling::Lazy { head },
        };
    }
    let (wide, bounds): (Vec<u32>, Vec<(u32, u32)>) = fill_tables(ds, &shape, cells, &ohead);
    proof {
        assert forall|c: int| 0 <= c < cells implies (#[trigger] shape.bhead@[c]) <= shape.bhead@[c
            + 1] && ohead@[c] + (shape.bhead@[c + 1] - shape.bhead@[c]) * (shape.bhead@[c + 1]
            - shape.bhead@[c]) <= wide@.len() by {
            assert(ohead@[c] == squares(shape.bhead@, 1, c));
            assert(squares(shape.bhead@, 1, c + 1) <= squares(shape.bhead@, 1, cells as int)) by {
                lemma_squares_mono(shape.bhead@, 1, c + 1, cells as int);
            }
        }
    }
    let tables: Narrowed = narrow(wide.as_slice(), ohead.as_slice(), shape.bhead.as_slice(), cells);
    Built {
        shape,
        cells,
        boundary,
        matrix_entries,
        values: Filling::Eager { wide, ohead, tables, bounds },
    }
}

/// The packed form of the tables.
pub open spec fn packed(
    s: Shape,
    ncells: int,
    wide: Seq<u32>,
    ohead: Seq<u64>,
    t: Narrowed,
) -> bool {
    &&& t.mat@ == crate::overlay::tables::packed_tables(wide, ohead, s.bhead@, ncells)
    &&& t.head@.len() == ncells + 1
    &&& t.width@.len() == ncells
    &&& forall|c: int|
        0 <= c <= ncells ==> #[trigger] t.head@[c] == crate::overlay::tables::packed_tables(
            wide,
            ohead,
            s.bhead@,
            c,
        ).len()
    &&& forall|c: int|
        0 <= c < ncells ==> #[trigger] t.width@[c] == (if crate::overlay::tables::narrow_fits(
            wide_table(wide, ohead, s.bhead@, c),
        ) {
            2u8
        } else {
            4u8
        })
    &&& t.narrowed == crate::overlay::tables::narrow_count(wide, ohead, s.bhead@, ncells)
}

pub proof fn lemma_squares_mono(bhead: Seq<u32>, times: int, a: int, b: int)
    requires
        0 <= a <= b,
        times >= 0,
    ensures
        squares(bhead, times, a) <= squares(bhead, times, b),
    decreases b - a,
{
    if a < b {
        lemma_squares_mono(bhead, times, a, b - 1);
        let w = bhead[b] - bhead[b - 1];
        assert(w * w >= 0) by (nonlinear_arith);
        assert(times * (w * w) >= 0) by (nonlinear_arith)
            requires
                times >= 0,
                w * w >= 0,
        ;
    }
}

fn fill_tables(ds: &Dataset, shape: &Shape, cells: usize, ohead: &Vec<u64>) -> (r: (
    Vec<u32>,
    Vec<(u32, u32)>,
))
    requires
        ds.graph_ok(),
        ds.ns() <= u32::MAX,
        ds.nv() * ds.nv() <= usize::MAX,
        shaped(*ds, *shape, cells as int),
        shape.bnd@.len() <= ds.nv(),
        shape.vlist@.len() <= ds.nv(),
        ohead@.len() == cells + 1,
        forall|c: int| 0 <= c <= cells ==> #[trigger] ohead@[c] == squares(shape.bhead@, 1, c),
    ensures
        tabled(*ds, *shape, cells as int, r.0@, ohead@, r.1@),
        r.0@.len() == squares(shape.bhead@, 1, cells as int),
{
    let none: [(u32, u32); 0] = [];
    let mut empty: Overlay = Overlay { levels: Vec::new(), bounds: vstd::array::array_as_slice(&none) };
    assert(empty.ladder() =~= Seq::empty());
    let mut wide: Vec<u32> = Vec::new();
    let mut bounds: Vec<(u32, u32)> = Vec::new();
    let mut c: usize = 0;
    while c < cells
        invariant
            ds.graph_ok(),
            ds.ns() <= u32::MAX,
            ds.nv() * ds.nv() <= usize::MAX,
            shaped(*ds, *shape, cells as int),
            shape.bnd@.len() <= ds.nv(),
            shape.vlist@.len() <= ds.nv(),
            ohead@.len() == cells + 1,
            forall|c: int| 0 <= c <= cells ==> #[trigger] ohead@[c] == squares(shape.bhead@, 1, c),
            empty.ladder() == Seq::<crate::overlay::shape::Rung>::empty(),
            empty.levels@.len() == 0,
            c <= cells,
            wide@.len() == squares(shape.bhead@, 1, c as int),
            tabled(*ds, *shape, c as int, wide@, ohead@, bounds@),
        decreases cells - c,
    {
        let ghost (bh, vh) = (shape.bhead@, shape.vhead@);
        assert(bh[c as int] <= bh[c + 1] <= bh[bh.len() - 1]);
        assert(vh[c as int] <= vh[c + 1] <= vh[vh.len() - 1]);
        let bnd: &[u32] = vstd::slice::slice_subrange(
            shape.bnd.as_slice(),
            shape.bhead[c] as usize,
            shape.bhead[c + 1] as usize,
        );
        let list: &[u32] = vstd::slice::slice_subrange(
            shape.vlist.as_slice(),
            shape.vhead[c] as usize,
            shape.vhead[c + 1] as usize,
        );
        let b: usize = bnd.len();
        proof {
            assert(list@ == shape.members(c as int));
            assert(bnd@ == shape.gates(c as int));
            assert forall|x: int| 0 <= x < list@.len() implies (#[trigger] list@[x]) < ds.nv() by {
                assert(block(vh, shape.vlist@, c as int).contains(list@[x]));
            }
            assert(ascending(block(vh, shape.vlist@, c as int)));
            assert(b * b <= ds.nv() * ds.nv()) by (nonlinear_arith)
                requires
                    0 <= b <= ds.nv(),
            ;
        }
        let t: Vec<u32> = empty.region_table(ds, None, 0, list, bnd);
        let (lo, hi): (u32, u32) = crossing_bounds(&t, b);
        let ghost w0 = wide@;
        let ghost b0 = bounds@;
        let mut x: usize = 0;
        assert(t@.take(0) =~= Seq::empty());
        while x < t.len()
            invariant
                x <= t@.len(),
                wide@ == w0 + t@.take(x as int),
            decreases t@.len() - x,
        {
            wide.push(t[x]);
            x += 1;
            assert(wide@ =~= w0 + t@.take(x as int));
        }
        bounds.push((lo, hi));
        proof {
            assert(t@.take(t@.len() as int) =~= t@);
            assert(wide@ == w0 + t@);
            assert(shape.width(c as int) == b);
            assert(wide@.len() == squares(bh, 1, c + 1)) by {
                assert(1 * (b * b) == b * b);
            }
            assert forall|d: int| 0 <= d < c + 1 implies {
                &&& region_costs(
                    *ds,
                    table(None),
                    Seq::empty(),
                    0,
                    shape.members(d),
                    shape.gates(d),
                    #[trigger] wide_table(wide@, ohead@, bh, d),
                )
                &&& table_bounds(
                    wide_table(wide@, ohead@, bh, d),
                    shape.width(d),
                    bounds@[d].0,
                    bounds@[d].1,
                )
            } by {
                assert(ohead@[d] == squares(bh, 1, d));
                if d == c {
                    assert(wide_table(wide@, ohead@, bh, d) =~= t@);
                } else {
                    lemma_squares_mono(bh, 1, d + 1, c as int);
                    assert(wide_table(wide@, ohead@, bh, d) =~= wide_table(w0, ohead@, bh, d));
                    assert(bounds@[d] == b0[d]);
                }
            }
        }
        c += 1;
    }
    (wide, bounds)
}

} // verus!
