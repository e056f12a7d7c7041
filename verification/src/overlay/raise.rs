//! One more level on top of those a dataset already has.

use vstd::prelude::*;
use crate::dataset::Dataset;
use crate::lookup::ascending;
use crate::overlay::contraction::from;
use crate::overlay::exact::{
    charged, crosses, fitted, gated, is_edge, lemma_charged, lemma_inside_mirror, lemma_region_dist,
    on_edge, populated, two_way,
};
use crate::overlay::fits::lemma_in_block;
use crate::overlay::gateindex::Traffic;
use crate::overlay::ground::squares;
use crate::overlay::growth::{carved, Rules, Terrain};
use crate::overlay::levels::{
    crossings, gathered, leaves, level_structure, rimmed, structured, terrain_of, LevelStructure,
};
use crate::overlay::lists::block;
use crate::overlay::net::{gate_at, inside_net};
use crate::overlay::rows::{edge_head, far_end, hop_arc, region_net, road_arc, row_arcs, value};
use crate::overlay::shape::{
    cell_at, eager_entry, gates, index_in, ladder_ok, lemma_cell_bound, lemma_index_in, lemma_rung,
    members, regions, rung_ok, Ladder, Overlay, Rung,
};
use crate::overlay::tables::{
    lemma_grown_twice, lemma_narrow_exact, lemma_packed_room, narrow, narrow_count, narrow_fits,
    packed_tables, pair_cost, region_costs, wide_table, Narrowed,
};
use crate::overrides::{table, Effect, Overrides};
use crate::paths::is_dist;

verus! {

/// What became of a level.
pub enum Raised {
    /// The partition left no boundary at all: every region is a whole
    /// connected component, so there is nothing to collapse.
    Barren { cells: usize, entries: u64 },
    /// The level's shape, with its tables filled.
    Filled { shape: LevelStructure, wide: Vec<u32>, tables: Narrowed },
    /// The level's shape, its rows left to be filled on demand, and how long
    /// filling them all would take.
    Shaped { shape: LevelStructure, fill: (u128, u128) },
}

/// Rows times members over the first `n` regions.
pub open spec fn fill_sum(bhead: Seq<u32>, vhead: Seq<u32>, n: int) -> int
    decreases n,
{
    if n <= 0 {
        0
    } else {
        fill_sum(bhead, vhead, n - 1) + (bhead[n] - bhead[n - 1]) * (vhead[n] - vhead[n - 1])
    }
}

/// How much work filling a level's rows is: one row is a search over the
/// region's members, so `rows x members` summed over the regions.
pub fn fill_work(bhead: &[u32], vhead: &[u32]) -> (work: u128)
    requires
        bhead@.len() == vhead@.len(),
        forall|i: int, j: int| 0 <= i <= j < bhead@.len() ==> bhead@[i] <= bhead@[j],
        forall|i: int, j: int| 0 <= i <= j < vhead@.len() ==> vhead@[i] <= vhead@[j],
        bhead@.len() <= 0x1_0000_0000,
    ensures
        work == (if bhead@.len() == 0 {
            0
        } else {
            fill_sum(bhead@, vhead@, bhead@.len() - 1)
        }),
        work <= 0xFFFF_FFFF * 0xFFFF_FFFE_0000_0001,
{
    let n: usize = bhead.len();
    if n == 0 {
        return 0;
    }
    let mut work: u128 = 0;
    let mut c: usize = 0;
    while c < n - 1
        invariant
            n == bhead@.len(),
            bhead@.len() == vhead@.len(),
            n <= 0x1_0000_0000,
            c < n,
            forall|i: int, j: int| 0 <= i <= j < bhead@.len() ==> bhead@[i] <= bhead@[j],
            forall|i: int, j: int| 0 <= i <= j < vhead@.len() ==> vhead@[i] <= vhead@[j],
            work == fill_sum(bhead@, vhead@, c as int),
            work <= c * 0xFFFF_FFFE_0000_0001,
        decreases n - c,
    {
        assert(bhead@[c as int] <= bhead@[c + 1] && vhead@[c as int] <= vhead@[c + 1]);
        let b: u128 = (bhead[c + 1] - bhead[c]) as u128;
        let m: u128 = (vhead[c + 1] - vhead[c]) as u128;
        assert(0 <= b * m <= 0xFFFF_FFFE_0000_0001) by (nonlinear_arith)
            requires
                0 <= b <= 0xFFFF_FFFF,
                0 <= m <= 0xFFFF_FFFF,
        ;
        assert(c * 0xFFFF_FFFE_0000_0001 + 0xFFFF_FFFE_0000_0001 == (c + 1) * 0xFFFF_FFFE_0000_0001);
        work = work + b * m;
        c += 1;
    }
    assert(work <= 0xFFFF_FFFF * 0xFFFF_FFFE_0000_0001) by {
        assert(c * 0xFFFF_FFFE_0000_0001 <= 0xFFFF_FFFF * 0xFFFF_FFFE_0000_0001) by (nonlinear_arith)
            requires
                c <= 0xFFFF_FFFF,
        ;
    }
    work
}

/// How many of the steps that make up the work are done in a second, as
/// measured on levels already built: on the planet, warming levels 1, 2 and 3
/// came to 32, 78 and 95 million, so this is a fair middle.
pub const OPS_PER_SEC: u64 = 85_000_000;

/// Seconds that filling a level takes, as a fraction: its work, times how many
/// gates a region below has on average (at least one), over the steps done in a
/// second.
pub open spec fn estimated(work: int, gates_below: int, regions_below: int) -> (int, int) {
    let regions = if regions_below > 1 {
        regions_below
    } else {
        1
    };
    (
        work * (if gates_below > regions {
            gates_below
        } else {
            regions
        }),
        regions * OPS_PER_SEC,
    )
}

/// How long filling every row of a level takes, in seconds, as a numerator and
/// a denominator. It is an order-of-magnitude instrument, which is all a refusal
/// needs to be.
pub fn fill_estimate(bhead: &[u32], vhead: &[u32], gates_below: u32, regions_below: u32) -> (r: (
    u128,
    u128,
))
    requires
        bhead@.len() == vhead@.len(),
        forall|i: int, j: int| 0 <= i <= j < bhead@.len() ==> bhead@[i] <= bhead@[j],
        forall|i: int, j: int| 0 <= i <= j < vhead@.len() ==> vhead@[i] <= vhead@[j],
        bhead@.len() <= 0x1_0000_0000,
    ensures
        (r.0 as int, r.1 as int) == estimated(
            if bhead@.len() == 0 {
                0
            } else {
                fill_sum(bhead@, vhead@, bhead@.len() - 1)
            },
            gates_below as int,
            regions_below as int,
        ),
        r.1 > 0,
{
    let work: u128 = fill_work(bhead, vhead);
    let regions: u32 = if regions_below > 1 {
        regions_below
    } else {
        1
    };
    let times: u32 = if gates_below > regions {
        gates_below
    } else {
        regions
    };
    assert(0 <= work * times <= 0xFFFF_FFFF * 0xFFFF_FFFE_0000_0001 * 0xFFFF_FFFF) by (nonlinear_arith)
        requires
            0 <= work <= 0xFFFF_FFFF * 0xFFFF_FFFE_0000_0001,
            0 <= times <= 0xFFFF_FFFF,
    ;
    assert(1 <= regions * OPS_PER_SEC <= 0xFFFF_FFFF * 85_000_000) by (nonlinear_arith)
        requires
            1 <= regions <= 0xFFFF_FFFF,
            OPS_PER_SEC == 85_000_000,
    ;
    (work * times as u128, regions as u128 * OPS_PER_SEC as u128)
}

impl LevelStructure {
    pub open spec fn members(&self, c: int) -> Seq<u32> {
        block(self.vhead@, self.vlist@, c)
    }

    pub open spec fn gates(&self, c: int) -> Seq<u32> {
        block(self.bhead@, self.blist@, c)
    }
}

/// Every region's table, at the place the level's layout gives it.
pub open spec fn level_tables(
    ds: Dataset,
    effects: Seq<(u32, Effect)>,
    l: Ladder,
    k: int,
    s: LevelStructure,
    n: int,
    wide: Seq<u32>,
) -> bool {
    forall|c: int|
        0 <= c < n ==> region_costs(
            ds,
            effects,
            l,
            k,
            s.members(c),
            s.gates(c),
            #[trigger] wide_table(wide, s.ohead@, s.bhead@, c),
        )
}

/// The packed form of a level's tables.
pub open spec fn level_packed(s: LevelStructure, wide: Seq<u32>, t: Narrowed) -> bool {
    &&& t.mat@ == packed_tables(wide, s.ohead@, s.bhead@, s.ncells as int)
    &&& t.head@.len() == s.ncells + 1
    &&& t.width@.len() == s.ncells
    &&& forall|c: int|
        0 <= c <= s.ncells ==> #[trigger] t.head@[c] == packed_tables(
            wide,
            s.ohead@,
            s.bhead@,
            c,
        ).len()
    &&& forall|c: int|
        0 <= c < s.ncells ==> #[trigger] t.width@[c] == (if narrow_fits(
            wide_table(wide, s.ohead@, s.bhead@, c),
        ) {
            2u8
        } else {
            4u8
        })
    &&& t.narrowed == narrow_count(wide, s.ohead@, s.bhead@, s.ncells as int)
}

/// What both ways of raising a level need of the dataset.
pub open spec fn can_raise(ds: Dataset, l: Ladder, k: int) -> bool {
    &&& ds.graph_ok()
    &&& ds.nv() == l[0].of.len()
    &&& 1 <= k <= l.len()
    &&& l[k - 1].bhead[0] == 0
    &&& regions(l[k - 1]) < u32::MAX
    &&& l[k - 1].bnd.len() <= 0x7FFF_FFFF
    &&& 2 * crossings(ds, l, k - 1, l[k - 1].bnd.len() as int) <= u32::MAX
}

/// Which shape a level has.
pub open spec fn raised_shape(
    ds: Dataset,
    l: Ladder,
    k: int,
    rules: Rules,
    pairs: Seq<(u32, u32)>,
    s: LevelStructure,
) -> bool {
    &&& structured(ds, l, k - 1, s)
    &&& exists|t: Terrain|
        #[trigger] terrain_of(ds, l, k - 1, t) && carved(
            t,
            rules,
            pairs,
            (s.lof@, s.ncells as int),
        )
}

fn zeros_after(wide: &mut Vec<u32>, n: usize)
    ensures
        final(wide)@ == old(wide)@ + Seq::new(n as nat, |i: int| 0u32),
{
    let ghost w0 = wide@;
    let mut x: usize = 0;
    assert(wide@ =~= w0 + Seq::new(0, |i: int| 0u32));
    while x < n
        invariant
            x <= n,
            wide@ == w0 + Seq::new(x as nat, |i: int| 0u32),
        decreases n - x,
    {
        wide.push(0);
        x += 1;
        assert(wide@ =~= w0 + Seq::new(x as nat, |i: int| 0u32));
    }
}

fn append_all(wide: &mut Vec<u32>, t: &Vec<u32>)
    ensures
        final(wide)@ == old(wide)@ + t@,
{
    let ghost w0 = wide@;
    let mut x: usize = 0;
    assert(t@.take(0) =~= Seq::empty());
    assert(wide@ =~= w0 + t@.take(0));
    while x < t.len()
        invariant
            x <= t@.len(),
            wide@ == w0 + t@.take(x as int),
        decreases t@.len() - x,
    {
        wide.push(t[x]);
        x += 1;
        assert(wide@ =~= w0 + t@.take(x as int));
    }
    assert(t@.take(t@.len() as int) =~= t@);
}

/// Build one more level with its tables. Rows that a level below still misses
/// are filled on the way.
///
/// The construction is self-similar: a level's table is built by the same
/// restricted search as level 0's, run over the level below's overlay graph
/// instead of the road graph.
#[verifier::rlimit(60)]
pub fn build_level(
    ds: &Dataset,
    ovr: Option<&Overrides>,
    ov: &mut Overlay,
    k: usize,
    rules: &Rules,
    traffic: &Traffic,
) -> (r: Raised)
    requires
        old(ov).wf(),
        can_raise(*ds, old(ov).ladder(), k as int),
        ds.ns() <= u32::MAX,
        ovr matches Some(o) ==> o.wf(),
        old(ov).valid_below(*ds, table(ovr), k as int),
        traffic.wf(),
        old(ov).ladder()[k - 1].bnd.len() * old(ov).ladder()[k - 1].bnd.len() <= usize::MAX,
    ensures
        final(ov).wf(),
        final(ov).ladder() == old(ov).ladder(),
        final(ov).valid_below(*ds, table(ovr), k as int),
        match r {
            Raised::Barren { cells, entries } => exists|s: LevelStructure|
                #[trigger] raised_shape(
                    *ds,
                    old(ov).ladder(),
                    k as int,
                    *rules,
                    traffic.pairs@,
                    s,
                ) && s.blist@.len() == 0 && s.ncells == cells && s.entries == entries,
            Raised::Filled { shape, wide, tables } => {
                &&& raised_shape(
                    *ds,
                    old(ov).ladder(),
                    k as int,
                    *rules,
                    traffic.pairs@,
                    shape,
                )
                &&& shape.blist@.len() > 0
                &&& wide@.len() == shape.entries
                &&& level_tables(
                    *ds,
                    table(ovr),
                    old(ov).ladder(),
                    k as int,
                    shape,
                    shape.ncells as int,
                    wide@,
                )
                &&& level_packed(shape, wide@, tables)
            },
            Raised::Shaped { .. } => false,
        },
{
    let ghost l = ov.ladder();
    let ghost eff = table(ovr);
    let ghost before = *ov;
    let s: LevelStructure = level_structure(ds, ov, k, rules, traffic);
    assert(raised_shape(*ds, l, k as int, *rules, traffic.pairs@, s));
    if s.blist.len() == 0 {
        return Raised::Barren { cells: s.ncells, entries: s.entries };
    }
    let n: usize = s.ncells;
    let mut wide: Vec<u32> = Vec::new();
    let mut c: usize = 0;
    let ghost inside = gathered(*ds, l, k - 1, s.lof@);
    let ghost rim = rimmed(*ds, l, k - 1, s.lof@);
    while c < n
        invariant
            ov.wf(),
            ov.ladder() == l,
            ov.grown(&before, k as int),
            can_raise(*ds, l, k as int),
            eff == table(ovr),
            ds.ns() <= u32::MAX,
            ovr matches Some(o) ==> o.wf(),
            ov.valid_below(*ds, eff, k as int),
            k <= ov.levels@.len(),
            structured(*ds, l, k - 1, s),
            inside == gathered(*ds, l, k - 1, s.lof@),
            rim == rimmed(*ds, l, k - 1, s.lof@),
            n == s.ncells,
            c <= n,
            l[k - 1].bnd.len() * l[k - 1].bnd.len() <= usize::MAX,
            wide@.len() == squares(s.bhead@, 2, c as int),
            level_tables(*ds, eff, l, k as int, s, c as int, wide@),
        decreases n - c,
    {
        let ghost (bh, vh) = (s.bhead@, s.vhead@);
        assert(bh[c as int] <= bh[c + 1] <= bh[bh.len() - 1]);
        assert(vh[c as int] <= vh[c + 1] <= vh[vh.len() - 1]);
        let bnd: &[u32] = vstd::slice::slice_subrange(
            s.blist.as_slice(),
            s.bhead[c] as usize,
            s.bhead[c + 1] as usize,
        );
        let list: &[u32] = vstd::slice::slice_subrange(
            s.vlist.as_slice(),
            s.vhead[c] as usize,
            s.vhead[c + 1] as usize,
        );
        let b: usize = bnd.len();
        proof {
            assert(list@ == s.members(c as int));
            assert(bnd@ == s.gates(c as int));
            assert forall|x: int| 0 <= x < list@.len() implies (#[trigger] list@[x]) < ds.nv() by {
                assert(block(vh, s.vlist@, c as int).contains(list@[x]));
                assert(inside(c as int, list@[x]));
            }
            assert(ascending(block(vh, s.vlist@, c as int)));
            assert(ascending(block(bh, s.blist@, c as int)));
            lemma_fewer_gates(*ds, l, k - 1, s, c as int);
            let all = l[k - 1].bnd.len() as int;
            assert(b * b <= all * all) by (nonlinear_arith)
                requires
                    0 <= b <= all,
            ;
        }
        let ghost was = *ov;
        let t: Vec<u32> = ov.region_table(ds, ovr, k, list, bnd);
        proof {
            lemma_grown_twice(&before, &was, ov, k as int);
        }
        let ghost w0 = wide@;
        append_all(&mut wide, &t);
        zeros_after(&mut wide, t.len());
        proof {
            assert(t@.len() == b * b);
            assert(bh[c + 1] - bh[c as int] == b);
            assert(wide@.len() == squares(bh, 2, c + 1)) by {
                assert(2 * (b * b) == b * b + b * b);
            }
            assert forall|d: int| 0 <= d < c + 1 implies region_costs(
                *ds,
                eff,
                l,
                k as int,
                s.members(d),
                s.gates(d),
                #[trigger] wide_table(wide@, s.ohead@, bh, d),
            ) by {
                assert(s.ohead@[d] == squares(bh, 2, d));
                if d == c {
                    assert(wide_table(wide@, s.ohead@, bh, d) =~= t@);
                } else {
                    crate::overlay::ground::lemma_squares_mono(bh, 2, d + 1, c as int);
                    let w = bh[d + 1] - bh[d];
                    assert(w * w >= 0) by (nonlinear_arith);
                    assert(wide_table(wide@, s.ohead@, bh, d) =~= wide_table(w0, s.ohead@, bh, d));
                }
            }
        }
        c += 1;
    }
    proof {
        assert forall|c: int| 0 <= c < n implies (#[trigger] s.bhead@[c]) <= s.bhead@[c + 1]
            && s.ohead@[c] + (s.bhead@[c + 1] - s.bhead@[c]) * (s.bhead@[c + 1] - s.bhead@[c])
            <= wide@.len() by {
            assert(s.ohead@[c] == squares(s.bhead@, 2, c));
            crate::overlay::ground::lemma_squares_mono(s.bhead@, 2, c + 1, n as int);
            let w = s.bhead@[c + 1] - s.bhead@[c];
            assert(w * w >= 0) by (nonlinear_arith);
        }
    }
    let tables: Narrowed = narrow(wide.as_slice(), s.ohead.as_slice(), s.bhead.as_slice(), n);
    Raised::Filled { shape: s, wide, tables }
}

/// A region of a level has no more gates than the level below has in all.
proof fn lemma_fewer_gates(ds: Dataset, l: Ladder, k: int, s: LevelStructure, c: int)
    requires
        structured(ds, l, k, s),
        ladder_ok(l),
        ds.nv() == l[0].of.len(),
        0 <= k < l.len(),
        0 <= c < s.ncells,
    ensures
        s.gates(c).len() <= l[k].bnd.len(),
        s.members(c).len() <= l[k].bnd.len(),
{
    let inside = gathered(ds, l, k, s.lof@);
    let rim = rimmed(ds, l, k, s.lof@);
    assert forall|x: int| 0 <= x < s.gates(c).len() implies l[k].bnd.contains(
        #[trigger] s.gates(c)[x],
    ) by {
        let v = s.gates(c)[x];
        assert(block(s.bhead@, s.blist@, c).contains(v));
        assert(rim(c, v));
        let p = crate::overlay::levels::lemma_gate_position(l, k, v);
        assert(l[k].bnd[p] == v);
    }
    assert forall|x: int| 0 <= x < s.members(c).len() implies l[k].bnd.contains(
        #[trigger] s.members(c)[x],
    ) by {
        let v = s.members(c)[x];
        assert(block(s.vhead@, s.vlist@, c).contains(v));
        assert(inside(c, v));
        let p = crate::overlay::levels::lemma_gate_position(l, k, v);
        assert(l[k].bnd[p] == v);
    }
    assert(ascending(block(s.bhead@, s.blist@, c)));
    assert(ascending(block(s.vhead@, s.vlist@, c)));
    lemma_within(s.gates(c), l[k].bnd);
    lemma_within(s.members(c), l[k].bnd);
}

/// A list without repeats whose items all stand in another is no longer.
pub proof fn lemma_within(a: Seq<u32>, b: Seq<u32>)
    requires
        ascending(a),
        forall|i: int| 0 <= i < a.len() ==> b.contains(#[trigger] a[i]),
    ensures
        a.len() <= b.len(),
{
    assert(a.no_duplicates());
    a.unique_seq_to_set();
    b.lemma_cardinality_of_set();
    assert(a.to_set().subset_of(b.to_set())) by {
        assert forall|x: u32| a.to_set().contains(x) implies b.to_set().contains(x) by {
            let i = a.index_of(x);
            assert(b.contains(a[i]));
        }
    }
    vstd::set_lib::lemma_len_subset(a.to_set(), b.to_set());
}

/// Build a level's shape and leave its numbers to be computed on demand.
pub fn build_level_lazy(ds: &Dataset, ov: &Overlay, k: usize, rules: &Rules, traffic: &Traffic) -> (r:
    Raised)
    requires
        ov.wf(),
        can_raise(*ds, ov.ladder(), k as int),
        traffic.wf(),
    ensures
        match r {
            Raised::Barren { cells, entries } => exists|s: LevelStructure|
                #[trigger] raised_shape(
                    *ds,
                    ov.ladder(),
                    k as int,
                    *rules,
                    traffic.pairs@,
                    s,
                ) && s.blist@.len() == 0 && s.ncells == cells && s.entries == entries,
            Raised::Shaped { shape, fill } => {
                &&& raised_shape(*ds, ov.ladder(), k as int, *rules, traffic.pairs@, shape)
                &&& shape.blist@.len() > 0
                &&& (fill.0 as int, fill.1 as int) == estimated(
                    fill_sum(shape.bhead@, shape.vhead@, shape.ncells as int),
                    ov.ladder()[k - 1].bnd.len() as int,
                    regions(ov.ladder()[k - 1]),
                )
            },
            Raised::Filled { .. } => false,
        },
{
    let ghost l = ov.ladder();
    let s: LevelStructure = level_structure(ds, ov, k, rules, traffic);
    assert(raised_shape(*ds, l, k as int, *rules, traffic.pairs@, s));
    if s.blist.len() == 0 {
        return Raised::Barren { cells: s.ncells, entries: s.entries };
    }
    proof {
        lemma_rung(l, k - 1);
        assert(ov.levels@[k - 1].rung() == l[k - 1]);
    }
    let below: usize = k - 1;
    let gates_below: usize = ov.level(below).bnd.len();
    let regions_below: usize = ov.level(below).regions();
    let fill: (u128, u128) = fill_estimate(
        s.bhead.as_slice(),
        s.vhead.as_slice(),
        gates_below as u32,
        regions_below as u32,
    );
    Raised::Shaped { shape: s, fill }
}

// --------------------------------------------------------------------- laws

/// A level added to a ladder changes nothing below it.
proof fn lemma_prefix_cell(l: Ladder, r: Rung, k: int, v: int)
    requires
        0 <= k < l.len(),
    ensures
        cell_at(l.push(r), k, v) == cell_at(l, k, v),
    decreases k,
{
    if k > 0 {
        lemma_prefix_cell(l, r, k - 1, v);
    }
    assert(l.push(r)[k] == l[k]);
    assert(l.push(r)[0] == l[0]);
}

proof fn lemma_prefix_inside(
    ds: Dataset,
    effects: Seq<(u32, Effect)>,
    l: Ladder,
    r: Rung,
    k: int,
    c: int,
    fwd: bool,
)
    requires
        0 <= k < l.len(),
    ensures
        inside_net(ds, effects, l.push(r), k, c, fwd) == inside_net(ds, effects, l, k, c, fwd),
{
    let (a, b) = (
        inside_net(ds, effects, l.push(r), k, c, fwd),
        inside_net(ds, effects, l, k, c, fwd),
    );
    assert forall|u: int| #[trigger] (a.arcs)(u) == (b.arcs)(u) by {
        let (x, y) = ((a.arcs)(u), (b.arcs)(u));
        assert forall|s: int| 0 <= s < x.len() implies #[trigger] x[s] == y[s] by {
            let t = edge_head(ds, fwd)[u] + s;
            lemma_prefix_cell(l, r, k, (u as u32) as int);
            lemma_prefix_cell(l, r, k, far_end(ds, fwd, u as u32, t) as int);
        }
        assert(x =~= y);
    }
    assert(a.arcs =~= b.arcs);
}

/// What lower levels charge, and the networks they are charged in, stay.
proof fn lemma_prefix_value(
    ds: Dataset,
    effects: Seq<(u32, Effect)>,
    l: Ladder,
    r: Rung,
    k: int,
    c: int,
    i: int,
    j: int,
    fwd: bool,
)
    requires
        0 <= k < l.len(),
    ensures
        value(ds, effects, l.push(r), k, c, i, j, fwd) == value(ds, effects, l, k, c, i, j, fwd),
    decreases k, 1nat,
{
    assert(l.push(r)[k] == l[k]);
    if !l[k].eager {
        lemma_prefix_net(ds, effects, l, r, k, members(l[k], c), fwd);
    }
}

proof fn lemma_prefix_net(
    ds: Dataset,
    effects: Seq<(u32, Effect)>,
    l: Ladder,
    r: Rung,
    k: int,
    list: Seq<u32>,
    fwd: bool,
)
    requires
        0 <= k <= l.len(),
    ensures
        region_net(ds, effects, l.push(r), k, list, fwd) == region_net(ds, effects, l, k, list, fwd),
    decreases k, 0nat,
{
    let l2 = l.push(r);
    let (a, b) = (
        region_net(ds, effects, l2, k, list, fwd),
        region_net(ds, effects, l, k, list, fwd),
    );
    assert forall|li: int| #[trigger] (a.arcs)(li) == (b.arcs)(li) by {
        let u = list[li];
        let (x, y) = (
            row_arcs(ds, effects, l2, k, list, fwd, u),
            row_arcs(ds, effects, l, k, list, fwd, u),
        );
        if k > 0 {
            lemma_prefix_cell(l, r, k - 1, u as int);
            assert(l2[k - 1] == l[k - 1]);
        }
        let cb = cell_at(l, k - 1, u as int);
        let g = gates(l[k - 1], cb);
        let n: int = if k > 0 && index_in(g, u) is Some {
            g.len() as int
        } else {
            0
        };
        assert(x.len() == y.len());
        assert forall|s: int| 0 <= s < x.len() implies x[s] == y[s] by {
            if s < n {
                let i = index_in(g, u)->0;
                assert(x[s] == hop_arc(ds, effects, l2, k, list, fwd, u, i, s));
                assert(y[s] == hop_arc(ds, effects, l, k, list, fwd, u, i, s));
                lemma_prefix_value(ds, effects, l, r, k - 1, cb, i, s, fwd);
            } else {
                let t = edge_head(ds, fwd)[u as int] + (s - n);
                assert(x[s] == road_arc(ds, effects, l2, k, list, fwd, u, t));
                assert(y[s] == road_arc(ds, effects, l, k, list, fwd, u, t));
                if k > 0 {
                    lemma_prefix_cell(l, r, k - 1, far_end(ds, fwd, u, t) as int);
                }
            }
        }
        assert(x =~= y);
    }
    assert(a.arcs =~= b.arcs);
}

/// The new level as a rung, its rows left to be filled.
pub open spec fn lazy_rung(s: LevelStructure) -> Rung {
    Rung {
        of: s.lof@,
        bnd: s.blist@,
        bhead: s.bhead@,
        head: s.ohead@,
        vhead: s.vhead@,
        vlist: s.vlist@,
        eager: false,
        mat: Seq::empty(),
        width: Seq::empty(),
    }
}

/// The new level as a rung with its tables.
pub open spec fn eager_rung(s: LevelStructure, t: Narrowed) -> Rung {
    Rung {
        of: s.lof@,
        bnd: s.blist@,
        bhead: s.bhead@,
        head: t.head@,
        vhead: Seq::empty(),
        vlist: Seq::empty(),
        eager: true,
        mat: t.mat@,
        width: t.width@,
    }
}

/// A rung over a shape: what both kinds share.
spec fn over_shape(r: Rung, s: LevelStructure) -> bool {
    &&& r.of == s.lof@
    &&& r.bnd == s.blist@
    &&& r.bhead == s.bhead@
    &&& r.head.len() == s.ncells + 1
    &&& !r.eager ==> r.vhead == s.vhead@ && r.vlist == s.vlist@
    &&& r.eager ==> {
        &&& r.width.len() == s.ncells
        &&& forall|c: int|
            0 <= c < s.ncells ==> (#[trigger] r.head[c]) + s.gates(c).len() * s.gates(c).len() * (
            if r.width[c] == 2 {
                2int
            } else {
                4int
            }) <= r.mat.len()
    }
}

/// The ladder with the new level fits the map, but for what its tables say.
#[verifier::rlimit(60)]
proof fn lemma_raised_shape(ds: Dataset, l: Ladder, s: LevelStructure, r: Rung)
    requires
        ds.graph_ok(),
        ladder_ok(l),
        l.len() >= 1,
        ds.nv() == l[0].of.len(),
        two_way(ds),
        gated(ds, l),
        structured(ds, l, l.len() - 1, s),
        over_shape(r, s),
    ensures
        ladder_ok(l.push(r)),
        gated(ds, l.push(r)),
        forall|c: int|
            0 <= c < s.ncells ==> populated(
                ds,
                l.push(r),
                l.len() as int,
                c,
                #[trigger] s.members(c),
            ),
{
    let k = l.len() as int;
    let l2 = l.push(r);
    let n = s.ncells as int;
    let nv = ds.nv();
    let inside = gathered(ds, l, k - 1, s.lof@);
    let rim = rimmed(ds, l, k - 1, s.lof@);
    assert(l2[k] == r);
    assert(regions(r) == n);
    lemma_rung(l, k - 1);
    assert forall|v: int| #![trigger cell_at(l2, k, v)] cell_at(l2, k, v) == s.lof@[cell_at(
        l,
        k - 1,
        v,
    )] by {
        lemma_prefix_cell(l, r, k - 1, v);
    }
    assert forall|j: int, v: int| 0 <= j < k implies #[trigger] cell_at(l2, j, v) == cell_at(l, j, v) by {
        lemma_prefix_cell(l, r, j, v);
    }
    assert forall|c: int| 0 <= c < n implies #[trigger] gates(r, c) == s.gates(c) by {}
    assert forall|i: int| 0 <= i < r.bnd.len() implies (#[trigger] r.bnd[i]) < nv by {
        let c = lemma_in_block(s.bhead@, s.blist@, n, i);
        let g = block(s.bhead@, s.blist@, c);
        assert(g[i - s.bhead@[c]] == r.bnd[i]);
        assert(g.contains(r.bnd[i]));
        assert(rim(c, r.bnd[i]));
    }
    assert forall|c: int, i: int| 0 <= c < n && 0 <= i < gates(r, c).len() implies {
        &&& cell_at(l2, k, #[trigger] gates(r, c)[i] as int) == c
        &&& s.members(c).contains(gates(r, c)[i])
    } by {
        let v = gates(r, c)[i];
        assert(block(s.bhead@, s.blist@, c).contains(v));
        assert(rim(c, v));
        assert(inside(c, v));
        assert(block(s.vhead@, s.vlist@, c).contains(v));
    }
    assert forall|c: int| 0 <= c < n implies ascending(#[trigger] gates(r, c)) by {
        assert(ascending(block(s.bhead@, s.blist@, c)));
    }
    if !r.eager {
        assert forall|i: int| 0 <= i < r.vlist.len() implies (#[trigger] r.vlist[i]) < nv by {
            let c = lemma_in_block(s.vhead@, s.vlist@, n, i);
            let g = block(s.vhead@, s.vlist@, c);
            assert(g[i - s.vhead@[c]] == r.vlist[i]);
            assert(g.contains(r.vlist[i]));
            assert(inside(c, r.vlist[i]));
        }
        assert forall|c: int| 0 <= c < n implies ascending(#[trigger] members(r, c)) by {
            assert(ascending(block(s.vhead@, s.vlist@, c)));
        }
        assert forall|c: int, i: int| 0 <= c < n && 0 <= i < gates(r, c).len() implies index_in(
            members(r, c),
            #[trigger] gates(r, c)[i],
        ) is Some by {
            let m = members(r, c);
            assert(m == s.members(c));
            let x = m.index_of(gates(r, c)[i]);
            assert(m[x] == gates(r, c)[i]);
        }
    }
    assert(rung_ok(r, regions(l[k - 1]), nv));
    assert(ladder_ok(l2)) by {
        reveal(ladder_ok);
        assert(l2[0] == l[0]);
        assert forall|j: int| 0 <= j < l2.len() implies rung_ok(
            #[trigger] l2[j],
            if j == 0 {
                nv
            } else {
                regions(l2[j - 1])
            },
            nv,
        ) by {
            if j < k {
                assert(l2[j] == l[j]);
                if j > 0 {
                    assert(l2[j - 1] == l[j - 1]);
                }
            } else {
                assert(l2[j - 1] == l[j - 1]);
            }
        }
        assert forall|j: int, c: int, i: int|
            0 <= j < l2.len() && 0 <= c < regions(l2[j]) && 0 <= i < gates(
                l2[j],
                c,
            ).len() implies cell_at(l2, j, #[trigger] gates(l2[j], c)[i] as int) == c by {
            if j < k {
                assert(l2[j] == l[j]);
                assert(cell_at(l, j, gates(l[j], c)[i] as int) == c);
            }
        }
    }
    assert forall|j: int, u: u32| 0 <= j < l2.len() && u < nv implies #[trigger] gate_at(l2, j, u)
        == on_edge(ds, l2, j, u) by {
        if j < k {
            assert(l2[j] == l[j]);
            assert(cell_at(l2, j, u as int) == cell_at(l, j, u as int));
            assert(gate_at(l, j, u) == on_edge(ds, l, j, u));
            assert forall|fwd: bool, t: int| #[trigger] crosses(ds, l2, j, fwd, u, t) == crosses(
                ds,
                l,
                j,
                fwd,
                u,
                t,
            ) by {
                assert(cell_at(l2, j, far_end(ds, fwd, u, t) as int) == cell_at(
                    l,
                    j,
                    far_end(ds, fwd, u, t) as int,
                ));
            }
            if on_edge(ds, l, j, u) {
                let (fwd, t) = choose|fwd: bool, t: int| crosses(ds, l, j, fwd, u, t);
                assert(crosses(ds, l2, j, fwd, u, t));
            }
            if on_edge(ds, l2, j, u) {
                let (fwd, t) = choose|fwd: bool, t: int| crosses(ds, l2, j, fwd, u, t);
                assert(crosses(ds, l, j, fwd, u, t));
            }
        } else {
            lemma_top_gate(ds, l, s, r, u);
        }
    }
    assert forall|c: int| 0 <= c < n implies populated(ds, l2, k, c, #[trigger] s.members(c)) by {
        let m = s.members(c);
        assert(ascending(block(s.vhead@, s.vlist@, c)));
        assert forall|v: u32| #[trigger] m.contains(v) == (v < nv && cell_at(l2, k, v as int) == c && (k
            > 0 ==> gate_at(l2, k - 1, v))) by {
            assert(block(s.vhead@, s.vlist@, c).contains(v) <==> inside(c, v));
            assert(l2[k - 1] == l[k - 1]);
            assert(cell_at(l2, k - 1, v as int) == cell_at(l, k - 1, v as int));
            assert(cell_at(l2, k, v as int) == s.lof@[cell_at(l, k - 1, v as int)]);
        }
    }
}

/// The gates of the new level are where edges leave its regions.
proof fn lemma_top_gate(ds: Dataset, l: Ladder, s: LevelStructure, r: Rung, u: u32)
    requires
        ds.graph_ok(),
        ladder_ok(l),
        l.len() >= 1,
        ds.nv() == l[0].of.len(),
        two_way(ds),
        gated(ds, l),
        structured(ds, l, l.len() - 1, s),
        over_shape(r, s),
        u < ds.nv(),
    ensures
        gate_at(l.push(r), l.len() as int, u) == on_edge(ds, l.push(r), l.len() as int, u),
{
    let k = l.len() as int;
    let l2 = l.push(r);
    let n = s.ncells as int;
    let rim = rimmed(ds, l, k - 1, s.lof@);
    assert(l2[k] == r);
    assert(regions(r) == n);
    lemma_prefix_cell(l, r, k - 1, u as int);
    lemma_cell_bound(l, k - 1, u as int);
    let cb = cell_at(l, k - 1, u as int);
    assert(s.lof@[cb] < n);
    let c = cell_at(l2, k, u as int);
    assert(c == s.lof@[cb]);
    let g = gates(r, c);
    assert(g == s.gates(c));
    assert(block(s.bhead@, s.blist@, c).contains(u) <==> rim(c, u));
    if gate_at(l2, k, u) {
        let i = choose|i: int| 0 <= i < g.len() && g[i] == u;
        assert(g.contains(u));
        let (fwd, t) = choose|fwd: bool, t: int|
            #[trigger] is_edge(ds, fwd, u, t) && s.lof@[cell_at(
                l,
                k - 1,
                far_end(ds, fwd, u, t) as int,
            )] != s.lof@[cb];
        lemma_prefix_cell(l, r, k - 1, far_end(ds, fwd, u, t) as int);
        assert(crosses(ds, l2, k, fwd, u, t));
    }
    if on_edge(ds, l2, k, u) {
        let (fwd, t) = choose|fwd: bool, t: int| crosses(ds, l2, k, fwd, u, t);
        let v = far_end(ds, fwd, u, t);
        lemma_prefix_cell(l, r, k - 1, v as int);
        assert(is_edge(ds, fwd, u, t));
        assert(leaves(ds, l, k - 1, s.lof@, u));
        assert(crosses(ds, l, k - 1, fwd, u, t)) by {
            if cell_at(l, k - 1, v as int) == cb {
                assert(cell_at(l2, k, v as int) == s.lof@[cb]);
            }
        }
        assert(on_edge(ds, l, k - 1, u));
        assert(gate_at(l, k - 1, u) == on_edge(ds, l, k - 1, u));
        assert(rim(c, u));
        let i = g.index_of(u);
        assert(g[i] == u);
    }
}

/// What eager levels charge below a new one stays right.
proof fn lemma_prefix_charged(
    ds: Dataset,
    effects: Seq<(u32, Effect)>,
    l: Ladder,
    r: Rung,
    k: int,
)
    requires
        0 <= k < l.len(),
        charged(ds, effects, l, k),
    ensures
        charged(ds, effects, l.push(r), k),
{
    let l2 = l.push(r);
    assert(l2[k] == l[k]);
    assert forall|c: int, i: int, j: int, fwd: bool|
        0 <= c < regions(l2[k]) && 0 <= i < gates(l2[k], c).len() && 0 <= j < gates(
            l2[k],
            c,
        ).len() implies is_dist(
        inside_net(ds, effects, l2, k, c, fwd),
        from(gates(l2[k], c)[i] as int),
        gates(l2[k], c)[j] as int,
        #[trigger] value(ds, effects, l2, k, c, i, j, fwd),
    ) by {
        lemma_prefix_inside(ds, effects, l, r, k, c, fwd);
        lemma_prefix_value(ds, effects, l, r, k, c, i, j, fwd);
        assert(is_dist(
            inside_net(ds, effects, l, k, c, fwd),
            from(gates(l[k], c)[i] as int),
            gates(l[k], c)[j] as int,
            value(ds, effects, l, k, c, i, j, fwd),
        ));
    }
}

/// A level raised on a ladder that fits its map gives one that fits it.
pub proof fn lemma_lazy_level_fits(
    ds: Dataset,
    effects: Seq<(u32, Effect)>,
    l: Ladder,
    s: LevelStructure,
)
    requires
        fitted(ds, effects, l),
        structured(ds, l, l.len() - 1, s),
    ensures
        fitted(ds, effects, l.push(lazy_rung(s))),
{
    let r = lazy_rung(s);
    let l2 = l.push(r);
    let k = l.len() as int;
    lemma_raised_shape(ds, l, s, r);
    assert(l2[0] == l[0]);
    assert(l2[k] == r);
    assert forall|j: int, c: int|
        0 <= j < l2.len() && !l2[j].eager && 0 <= c < regions(l2[j]) implies populated(
        ds,
        l2,
        j,
        c,
        #[trigger] members(l2[j], c),
    ) by {
        if j < k {
            assert(l2[j] == l[j]);
            lemma_prefix_populated(ds, l, r, j, c, members(l[j], c));
        } else {
            assert(members(l2[j], c) == s.members(c));
        }
    }
    assert forall|j: int| 0 <= j < l2.len() && (#[trigger] l2[j]).eager implies charged(
        ds,
        effects,
        l2,
        j,
    ) by {
        assert(l2[j] == l[j]);
        lemma_prefix_charged(ds, effects, l, r, j);
    }
}

proof fn lemma_prefix_populated(ds: Dataset, l: Ladder, r: Rung, k: int, c: int, list: Seq<u32>)
    requires
        0 <= k < l.len(),
        populated(ds, l, k, c, list),
    ensures
        populated(ds, l.push(r), k, c, list),
{
    let l2 = l.push(r);
    assert forall|v: u32| #[trigger] list.contains(v) == (v < ds.nv() && cell_at(l2, k, v as int) == c
        && (k > 0 ==> gate_at(l2, k - 1, v))) by {
        lemma_prefix_cell(l, r, k, v as int);
        if k > 0 {
            lemma_prefix_cell(l, r, k - 1, v as int);
            assert(l2[k - 1] == l[k - 1]);
        }
    }
}

/// As `lemma_lazy_level_fits`, for a level that was raised with its tables.
pub proof fn lemma_filled_level_fits(
    ds: Dataset,
    effects: Seq<(u32, Effect)>,
    l: Ladder,
    s: LevelStructure,
    wide: Seq<u32>,
    t: Narrowed,
)
    requires
        fitted(ds, effects, l),
        structured(ds, l, l.len() - 1, s),
        level_tables(ds, effects, l, l.len() as int, s, s.ncells as int, wide),
        level_packed(s, wide, t),
    ensures
        fitted(ds, effects, l.push(eager_rung(s, t))),
{
    let r = eager_rung(s, t);
    let l2 = l.push(r);
    let k = l.len() as int;
    let n = s.ncells as int;
    assert(over_shape(r, s)) by {
        assert forall|c: int| 0 <= c < n implies (#[trigger] r.head[c]) + s.gates(c).len() * s.gates(
            c,
        ).len() * (if r.width[c] == 2 {
            2int
        } else {
            4int
        }) <= r.mat.len() by {
            let w = wide_table(wide, s.ohead@, s.bhead@, c);
            assert(region_costs(ds, effects, l, k, s.members(c), s.gates(c), w));
            assert(t.width@[c] == (if narrow_fits(w) {
                2u8
            } else {
                4u8
            }));
            assert(t.head@[c] == packed_tables(wide, s.ohead@, s.bhead@, c).len());
            lemma_packed_room(wide, s.ohead@, s.bhead@, n, c);
        }
    }
    lemma_raised_shape(ds, l, s, r);
    assert(l2[0] == l[0]);
    assert(l2[k] == r);
    assert forall|j: int, c: int|
        0 <= j < l2.len() && !l2[j].eager && 0 <= c < regions(l2[j]) implies populated(
        ds,
        l2,
        j,
        c,
        #[trigger] members(l2[j], c),
    ) by {
        assert(l2[j] == l[j]);
        lemma_prefix_populated(ds, l, r, j, c, members(l[j], c));
    }
    assert forall|j: int| 0 <= j < l2.len() && (#[trigger] l2[j]).eager implies charged(
        ds,
        effects,
        l2,
        j,
    ) by {
        if j < k {
            assert(l2[j] == l[j]);
            lemma_prefix_charged(ds, effects, l, r, j);
        } else {
            lemma_charged(ds, effects, l, k - 1);
            lemma_prefix_charged(ds, effects, l, r, k - 1);
            assert forall|c: int, x: int, y: int, fwd: bool|
                0 <= c < regions(l2[k]) && 0 <= x < gates(l2[k], c).len() && 0 <= y < gates(
                    l2[k],
                    c,
                ).len() implies is_dist(
                inside_net(ds, effects, l2, k, c, fwd),
                from(gates(l2[k], c)[x] as int),
                gates(l2[k], c)[y] as int,
                #[trigger] value(ds, effects, l2, k, c, x, y, fwd),
            ) by {
                let g = gates(r, c);
                if fwd {
                    lemma_filled_entry(ds, effects, l, s, wide, t, c, x, y, fwd);
                } else {
                    lemma_filled_entry(ds, effects, l, s, wide, t, c, y, x, fwd);
                    lemma_inside_mirror(
                        ds,
                        effects,
                        l2,
                        k,
                        c,
                        true,
                        g[y] as int,
                        g[x] as int,
                        value(ds, effects, l2, k, c, x, y, fwd),
                    );
                }
            }
        }
    }
}

proof fn lemma_filled_entry(
    ds: Dataset,
    effects: Seq<(u32, Effect)>,
    l: Ladder,
    s: LevelStructure,
    wide: Seq<u32>,
    t: Narrowed,
    c: int,
    x: int,
    y: int,
    fwd: bool,
)
    requires
        fitted(ds, effects, l),
        structured(ds, l, l.len() - 1, s),
        level_tables(ds, effects, l, l.len() as int, s, s.ncells as int, wide),
        level_packed(s, wide, t),
        over_shape(eager_rung(s, t), s),
        charged(ds, effects, l.push(eager_rung(s, t)), l.len() - 1),
        0 <= c < s.ncells,
        0 <= x < s.gates(c).len(),
        0 <= y < s.gates(c).len(),
    ensures
        is_dist(
            inside_net(ds, effects, l.push(eager_rung(s, t)), l.len() as int, c, true),
            from(s.gates(c)[x] as int),
            s.gates(c)[y] as int,
            if fwd {
                value(ds, effects, l.push(eager_rung(s, t)), l.len() as int, c, x, y, true)
            } else {
                value(ds, effects, l.push(eager_rung(s, t)), l.len() as int, c, y, x, false)
            },
        ),
{
    let r = eager_rung(s, t);
    let l2 = l.push(r);
    let k = l.len() as int;
    let n = s.ncells as int;
    let g = s.gates(c);
    let m = s.members(c);
    let inside = gathered(ds, l, k - 1, s.lof@);
    let rim = rimmed(ds, l, k - 1, s.lof@);
    assert(l2[k] == r);
    assert(gates(r, c) == g);
    lemma_raised_shape(ds, l, s, r);
    let w = wide_table(wide, s.ohead@, s.bhead@, c);
    assert(region_costs(ds, effects, l, k, m, g, w));
    let b = g.len() as int;
    let at = x * b + y;
    assert(0 <= at < b * b) by (nonlinear_arith)
        requires
            0 <= x < b,
            0 <= y < b,
            at == x * b + y,
    ;
    assert(w[x * g.len() + y] == pair_cost(ds, effects, l, k, m, g[x], g[y], true));
    lemma_narrow_exact(wide, s.ohead@, s.bhead@, n, c, at);
    assert(t.width@[c] == (if narrow_fits(w) {
        2u8
    } else {
        4u8
    }));
    assert(t.head@[c] == packed_tables(wide, s.ohead@, s.bhead@, c).len());
    assert(eager_entry(r, c, x, y, true) == w[at]);
    assert(eager_entry(r, c, y, x, false) == w[at]);
    assert(block(s.bhead@, s.blist@, c).contains(g[x]) && block(s.bhead@, s.blist@, c).contains(g[y]));
    assert(rim(c, g[x]) && rim(c, g[y]));
    assert(inside(c, g[x]) && inside(c, g[y]));
    assert(block(s.vhead@, s.vlist@, c).contains(g[x]));
    assert(block(s.vhead@, s.vlist@, c).contains(g[y]));
    let (p, q) = (m.index_of(g[x]), m.index_of(g[y]));
    assert(m[p] == g[x] && m[q] == g[y]);
    assert(ascending(block(s.vhead@, s.vlist@, c)));
    lemma_index_in(m, p);
    lemma_index_in(m, q);
    lemma_prefix_net(ds, effects, l, r, k, m, true);
    assert(populated(ds, l2, k, c, s.members(c)));
    assert(l2[0] == l[0]);
    assert(m.len() <= u32::MAX) by {
        assert(s.vhead@[c] <= s.vhead@[c + 1]);
    }
    lemma_region_dist(ds, effects, l2, k, c, m, true, g[x], g[y]);
}

} // verus!
