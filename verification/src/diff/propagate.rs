//! Carrying a change of costs up the levels.

use vstd::prelude::*;
use crate::dataset::Dataset;
use crate::diff::reach::{
    cut_at, cut_by, ends_are, ends_of, ends_ok, grows, in_either, is_changed, is_seed, laid_out,
    lemma_quiet, lemma_still, lemma_unchanged, lifted, looked_at, moved, some_moved, was_right,
};
use crate::lookup::ascending;
use crate::overlay::rows::{lemma_same_table, value, Row};
use crate::overlay::shape::{
    cell_at, gates, ladder_ok, lemma_cell_bound, lemma_rung, regions, Overlay,
};
use crate::overrides::{table, Effect, Overrides};
use crate::sorting::number_set;

verus! {

/// One level's share of an update.
#[derive(Debug, Clone, Copy)]
pub struct Step {
    pub level: usize,
    /// Regions looked at.
    pub regions: usize,
    /// Of those, the ones in which a number moved.
    pub changed: usize,
    /// Rows recomputed.
    pub rows: u128,
    /// Rows whose numbers moved.
    pub moved: u128,
    /// The level keeps full tables, which are not compared: every region that
    /// is looked at counts as changed.
    pub eager: bool,
}

/// The number of a row: forwards before backwards.
pub open spec fn row_no(i: int, fwd: bool) -> int {
    2 * i + (if fwd {
        0int
    } else {
        1
    })
}

/// Of the first `p` rows of a region, how many moved.
pub open spec fn moved_rows(
    ov: Overlay,
    ds: Dataset,
    b: Seq<(u32, Effect)>,
    k: int,
    c: int,
    p: int,
) -> int
    decreases p,
{
    if p <= 0 {
        0
    } else {
        moved_rows(ov, ds, b, k, c, p - 1) + (if moved(
            ov,
            ds,
            b,
            k,
            c,
            (p - 1) / 2,
            (p - 1) % 2 == 0,
        ) {
            1int
        } else {
            0
        })
    }
}

/// The rows of the first `n` regions of a list, and how many of them moved.
pub open spec fn tally(
    ov: Overlay,
    ds: Dataset,
    b: Seq<(u32, Effect)>,
    k: int,
    seed: Seq<u32>,
    n: int,
) -> (int, int)
    decreases n,
{
    if n <= 0 {
        (0, 0)
    } else {
        let (r, m) = tally(ov, ds, b, k, seed, n - 1);
        let c = seed[n - 1] as int;
        let rows = 2 * gates(ov.ladder()[k], c).len();
        (r + rows, m + moved_rows(ov, ds, b, k, c, rows as int))
    }
}

/// A rising list of just the regions for which something holds.
pub open spec fn lists(s: Seq<u32>, f: Set<int>) -> bool {
    ascending(s) && forall|c: u32| #[trigger] s.contains(c) <==> f.contains(c as int)
}

/// The regions of level `k` in which a number moved.
pub open spec fn changed_at(
    ov: Overlay,
    ds: Dataset,
    b: Seq<(u32, Effect)>,
    segs: Seq<u32>,
    k: int,
) -> Set<int> {
    Set::new(|c: int| is_changed(ov, ds, b, segs, k, c))
}

/// What one level of an update comes to.
pub open spec fn stepped(
    ov: Overlay,
    ds: Dataset,
    b: Seq<(u32, Effect)>,
    segs: Seq<u32>,
    k: int,
    seed: Seq<u32>,
    ch: Seq<u32>,
    st: Step,
) -> bool {
    let eager = ov.ladder()[k].eager;
    &&& lists(seed, looked_at(ov, ds, b, segs, k))
    &&& lists(ch, changed_at(ov, ds, b, segs, k))
    &&& st.level == k
    &&& st.regions == seed.len()
    &&& st.changed == ch.len()
    &&& st.eager == eager
    &&& (st.rows as int, st.moved as int) == if eager {
        (0int, 0int)
    } else {
        tally(ov, ds, b, k, seed, seed.len() as int)
    }
}

pub open spec fn is_step(
    ov: Overlay,
    ds: Dataset,
    b: Seq<(u32, Effect)>,
    segs: Seq<u32>,
    k: int,
    st: Step,
) -> bool {
    exists|seed: Seq<u32>, ch: Seq<u32>| #[trigger] stepped(ov, ds, b, segs, k, seed, ch, st)
}

/// No region of a level is looked at.
pub open spec fn is_quiet(ov: Overlay, ds: Dataset, b: Seq<(u32, Effect)>, segs: Seq<u32>, k: int) -> bool {
    forall|c: int|
        0 <= c < regions(ov.ladder()[k]) ==> !#[trigger] is_seed(ov, ds, b, segs, k, c)
}

proof fn lemma_seed_bound(
    ov: Overlay,
    ds: Dataset,
    b: Seq<(u32, Effect)>,
    segs: Seq<u32>,
    k: int,
    c: int,
)
    requires
        ov.wf(),
        ds.nv() == ov.ladder()[0].of.len(),
        0 <= k < ov.ladder().len(),
        is_seed(ov, ds, b, segs, k, c),
    ensures
        0 <= c < regions(ov.ladder()[k]),
        regions(ov.ladder()[k]) <= u32::MAX,
{
    let l = ov.ladder();
    lemma_rung(l, k);
    if k == 0 {
        let (s, u, v) = choose|s: u32, u: u32, v: u32|
            segs.contains(s) && #[trigger] ends_are(ds, s, u, v) && (cell_at(l, 0, u as int) == c
                || cell_at(l, 0, v as int) == c);
        lemma_cell_bound(l, 0, u as int);
        lemma_cell_bound(l, 0, v as int);
    } else if cut_at(ds, l, segs, k - 1, c) {
        let (s, u, v) = choose|s: u32, u: u32, v: u32|
            segs.contains(s) && #[trigger] cut_by(ds, l, k - 1, s, u, v) && (l[k].of[cell_at(
                l,
                k - 1,
                u as int,
            )] == c || l[k].of[cell_at(l, k - 1, v as int)] == c);
        lemma_cell_bound(l, k - 1, u as int);
        lemma_cell_bound(l, k - 1, v as int);
    } else {
        let below = looked_at(ov, ds, b, segs, k - 1);
        let d = choose|d: int|
            0 <= d < regions(l[k - 1]) && #[trigger] grows(ov, ds, b, below, k - 1, d)
                && l[k].of[d] == c;
        assert(l[k].of[d] < regions(l[k]));
    }
}

fn find_ends(ds: &Dataset, s: u32) -> (r: Option<(u32, u32)>)
    requires
        ds.seg_u@.len() == ds.seg_v@.len(),
        ds.head@.len() >= 1,
    ensures
        r == ends_of(*ds, s),
{
    let i: usize = s as usize;
    if i >= ds.seg_u.len() {
        return None;
    }
    let (u, v): (u32, u32) = (ds.seg_u[i], ds.seg_v[i]);
    let n: usize = ds.n_vertices();
    if u as usize >= n || v as usize >= n {
        return None;
    }
    Some((u, v))
}

/// The regions of level 0 that hold an end of a changed segment.
#[verifier::rlimit(40)]
fn first_seeds(ds: &Dataset, ov: &Overlay, segments: &[u32]) -> (r: Vec<u32>)
    requires
        ov.wf(),
        ds.seg_u@.len() == ds.seg_v@.len(),
        ds.head@.len() >= 1,
        ds.nv() == ov.ladder()[0].of.len(),
    ensures
        ascending(r@),
        forall|c: u32| #[trigger] r@.contains(c) <==> in_either(
            *ds,
            ov.ladder(),
            segments@,
            c as int,
        ),
{
    let ghost l = ov.ladder();
    let mut cells: Vec<u32> = Vec::new();
    let mut i: usize = 0;
    proof {
        reveal(ladder_ok);
    }
    while i < segments.len()
        invariant
            l == ov.ladder(),
            ov.wf(),
            l.len() >= 1,
            ds.seg_u@.len() == ds.seg_v@.len(),
            ds.head@.len() >= 1,
            ds.nv() == l[0].of.len(),
            i <= segments@.len(),
            forall|c: u32| #[trigger] cells@.contains(c) <==> in_either(
                *ds,
                l,
                segments@.take(i as int),
                c as int,
            ),
        decreases segments@.len() - i,
    {
        let s: u32 = segments[i];
        let ghost c0 = cells@;
        let ghost (t0, t1) = (segments@.take(i as int), segments@.take(i + 1));
        let e: Option<(u32, u32)> = find_ends(ds, s);
        if let Some((u, v)) = e {
            cells.push(ov.cell(u));
            cells.push(ov.cell(v));
        }
        proof {
            assert(t1 =~= t0.push(s));
            assert(t1[i as int] == s);
            assert forall|c: u32| #[trigger] cells@.contains(c) <==> in_either(
                *ds,
                l,
                t1,
                c as int,
            ) by {
                if cells@.contains(c) {
                    if c0.contains(c) {
                        let (s2, u2, v2) = choose|s2: u32, u2: u32, v2: u32|
                            t0.contains(s2) && #[trigger] ends_are(*ds, s2, u2, v2) && (cell_at(
                                l,
                                0,
                                u2 as int,
                            ) == c || cell_at(l, 0, v2 as int) == c);
                        let z = t0.index_of(s2);
                        assert(t1[z] == s2);
                        assert(ends_are(*ds, s2, u2, v2));
                    } else {
                        let z = cells@.index_of(c);
                        if z < c0.len() {
                            assert(c0[z] == c);
                        }
                        let (u, v) = e->0;
                        assert(ends_are(*ds, s, u, v));
                    }
                }
                if in_either(*ds, l, t1, c as int) {
                    let (s2, u2, v2) = choose|s2: u32, u2: u32, v2: u32|
                        t1.contains(s2) && #[trigger] ends_are(*ds, s2, u2, v2) && (cell_at(
                            l,
                            0,
                            u2 as int,
                        ) == c || cell_at(l, 0, v2 as int) == c);
                    if t0.contains(s2) {
                        assert(ends_are(*ds, s2, u2, v2));
                        assert(in_either(*ds, l, t0, c as int));
                        assert(c0.contains(c));
                        let z = c0.index_of(c);
                        assert(cells@[z] == c);
                    } else {
                        let z = t1.index_of(s2);
                        if z < i {
                            assert(t0[z] == s2);
                        }
                        if cell_at(l, 0, u2 as int) == c {
                            assert(cells@[c0.len() as int] == c);
                        } else {
                            assert(cells@[c0.len() as int + 1] == c);
                        }
                    }
                }
            }
        }
        i += 1;
    }
    assert(segments@.take(i as int) =~= segments@);
    let ghost last = cells@;
    let r: Vec<u32> = number_set(cells);
    proof {
        assert forall|c: u32| #[trigger] r@.contains(c) <==> in_either(
            *ds,
            l,
            segments@,
            c as int,
        ) by {
            assert(r@.contains(c) <==> last.contains(c));
        }
    }
    r
}

/// The regions above those in which a number moved, and above the two sides of
/// a changed road between regions.
#[verifier::rlimit(60)]
fn next_seeds(
    ds: &Dataset,
    ov: &Overlay,
    segments: &[u32],
    k: usize,
    changed: &Vec<u32>,
) -> (r: Vec<u32>)
    requires
        ov.wf(),
        ds.seg_u@.len() == ds.seg_v@.len(),
        ds.head@.len() >= 1,
        ds.nv() == ov.ladder()[0].of.len(),
        k + 1 < ov.ladder().len(),
        forall|x: int| 0 <= x < changed@.len() ==> (#[trigger] changed@[x]) < regions(ov.ladder()[k as int]),
    ensures
        ascending(r@),
        forall|c: u32|
            #[trigger] r@.contains(c) <==> cut_at(
                *ds,
                ov.ladder(),
                segments@,
                k as int,
                c as int,
            ) || exists|x: int|
                0 <= x < changed@.len() && ov.ladder()[k + 1].of[#[trigger] changed@[x] as int] == c,
{
    let ghost l = ov.ladder();
    let n: usize = ov.levels();
    let up: usize = k + 1;
    proof {
        lemma_rung(l, k + 1);
        assert(ov.levels@[k + 1].rung() == l[k + 1]);
    }
    let mut cells: Vec<u32> = Vec::new();
    let mut x: usize = 0;
    while x < changed.len()
        invariant
            l == ov.ladder(),
            up == k + 1,
            up < l.len(),
            up < ov.levels@.len(),
            ov.levels@[k + 1].rung() == l[k + 1],
            l[k + 1].of.len() == regions(l[k as int]),
            forall|x: int| 0 <= x < changed@.len() ==> (#[trigger] changed@[x]) < regions(l[k as int]),
            x <= changed@.len(),
            cells@.len() == x,
            forall|y: int|
                0 <= y < x ==> #[trigger] cells@[y] == l[k + 1].of[changed@[y] as int],
        decreases changed@.len() - x,
    {
        assert(changed@[x as int] < regions(l[k as int]));
        cells.push(ov.level(up).parent(changed[x]));
        x += 1;
    }
    let ghost ups = cells@;
    let mut i: usize = 0;
    proof {
        assert forall|c: u32| #[trigger] cells@.contains(c) <==> ups.contains(c) || cut_at(
            *ds,
            l,
            segments@.take(0),
            k as int,
            c as int,
        ) by {
            if cut_at(*ds, l, segments@.take(0), k as int, c as int) {
                let (s2, u2, v2) = choose|s2: u32, u2: u32, v2: u32|
                    segments@.take(0).contains(s2) && #[trigger] cut_by(
                        *ds,
                        l,
                        k as int,
                        s2,
                        u2,
                        v2,
                    );
                assert(segments@.take(0).contains(s2));
            }
        }
    }
    while i < segments.len()
        invariant
            l == ov.ladder(),
            ov.wf(),
            up == k + 1,
            up < l.len(),
            up < ov.levels@.len(),
            ov.levels@[k + 1].rung() == l[k + 1],
            l[k + 1].of.len() == regions(l[k as int]),
            ds.seg_u@.len() == ds.seg_v@.len(),
            ds.head@.len() >= 1,
            ds.nv() == l[0].of.len(),
            i <= segments@.len(),
            forall|c: u32| #[trigger] cells@.contains(c) <==> ups.contains(c) || cut_at(
                *ds,
                l,
                segments@.take(i as int),
                k as int,
                c as int,
            ),
        decreases segments@.len() - i,
    {
        let s: u32 = segments[i];
        let ghost c0 = cells@;
        let ghost (t0, t1) = (segments@.take(i as int), segments@.take(i + 1));
        let e: Option<(u32, u32)> = find_ends(ds, s);
        let ghost mut crossed = false;
        if let Some((u, v)) = e {
            let (cu, cv): (u32, u32) = (ov.cell_at(k, u), ov.cell_at(k, v));
            if cu != cv {
                cells.push(ov.level(up).parent(cu));
                cells.push(ov.level(up).parent(cv));
                proof {
                    crossed = true;
                }
            }
        }
        proof {
            assert(t1 =~= t0.push(s));
            assert(t1[i as int] == s);
            assert forall|c: u32| #[trigger] cells@.contains(c) <==> ups.contains(c) || cut_at(
                *ds,
                l,
                t1,
                k as int,
                c as int,
            ) by {
                if cells@.contains(c) {
                    if c0.contains(c) {
                        if !ups.contains(c) {
                            let (s2, u2, v2) = choose|s2: u32, u2: u32, v2: u32|
                                t0.contains(s2) && #[trigger] cut_by(*ds, l, k as int, s2, u2, v2)
                                    && (l[k + 1].of[cell_at(l, k as int, u2 as int)] == c
                                    || l[k + 1].of[cell_at(l, k as int, v2 as int)] == c);
                            let z = t0.index_of(s2);
                            assert(t1[z] == s2);
                            assert(cut_by(*ds, l, k as int, s2, u2, v2));
                        }
                    } else {
                        let z = cells@.index_of(c);
                        if z < c0.len() {
                            assert(c0[z] == c);
                        }
                        let (u, v) = e->0;
                        assert(cut_by(*ds, l, k as int, s, u, v));
                    }
                }
                if ups.contains(c) {
                    assert(c0.contains(c));
                    let z = c0.index_of(c);
                    assert(cells@[z] == c);
                }
                if cut_at(*ds, l, t1, k as int, c as int) {
                    let (s2, u2, v2) = choose|s2: u32, u2: u32, v2: u32|
                        t1.contains(s2) && #[trigger] cut_by(*ds, l, k as int, s2, u2, v2) && (
                        l[k + 1].of[cell_at(l, k as int, u2 as int)] == c || l[k + 1].of[cell_at(
                            l,
                            k as int,
                            v2 as int,
                        )] == c);
                    if t0.contains(s2) {
                        assert(cut_by(*ds, l, k as int, s2, u2, v2));
                        assert(cut_at(*ds, l, t0, k as int, c as int));
                        assert(c0.contains(c));
                        let z = c0.index_of(c);
                        assert(cells@[z] == c);
                    } else {
                        let z = t1.index_of(s2);
                        if z < i {
                            assert(t0[z] == s2);
                        }
                        assert(crossed);
                        if l[k + 1].of[cell_at(l, k as int, u2 as int)] == c {
                            assert(cells@[c0.len() as int] == c);
                        } else {
                            assert(cells@[c0.len() as int + 1] == c);
                        }
                    }
                }
            }
        }
        i += 1;
    }
    assert(segments@.take(i as int) =~= segments@);
    let ghost last = cells@;
    let r: Vec<u32> = number_set(cells);
    proof {
        assert forall|c: u32|
            #[trigger] r@.contains(c) <==> cut_at(*ds, l, segments@, k as int, c as int)
                || exists|x: int|
                0 <= x < changed@.len() && l[k + 1].of[#[trigger] changed@[x] as int] == c by {
            assert(r@.contains(c) <==> last.contains(c));
            if ups.contains(c) {
                let z = ups.index_of(c);
                assert(l[k + 1].of[changed@[z] as int] == c);
            }
            if exists|x: int|
                0 <= x < changed@.len() && l[k + 1].of[#[trigger] changed@[x] as int] == c {
                let z = choose|x: int|
                    0 <= x < changed@.len() && l[k + 1].of[#[trigger] changed@[x] as int] == c;
                assert(ups[z] == c);
            }
        }
    }
    r
}

// --------------------------------------------------------------- one level

/// A row has been recomputed: those of the first `x` regions, and the first `p`
/// of the next.
pub open spec fn rechecked(seed: Seq<u32>, x: int, p: int, c: int, i: int, fwd: bool) -> bool {
    (exists|y: int| 0 <= y < x && (#[trigger] seed[y]) == c) || (x < seed.len() && seed[x] == c
        && row_no(i, fwd) < p)
}

/// A row is as it was before the update.
pub open spec fn untouched<'a>(
    ov: Overlay<'a>,
    ov0: Overlay<'a>,
    k: int,
    c: int,
    i: int,
    fwd: bool,
) -> bool {
    &&& ov.levels@[k].has_row(c, i, fwd) == ov0.levels@[k].has_row(c, i, fwd)
    &&& forall|j: int|
        0 <= j < gates(ov0.ladder()[k], c).len() ==> #[trigger] ov.levels@[k].stored(c, i, j, fwd)
            == ov0.levels@[k].stored(c, i, j, fwd)
}

/// Level `k` part of the way through.
#[verifier::opaque]
pub open spec fn half_done<'a>(
    ov: Overlay<'a>,
    ov0: Overlay<'a>,
    ds: Dataset,
    b: Seq<(u32, Effect)>,
    k: int,
    seed: Seq<u32>,
    x: int,
    p: int,
) -> bool {
    let l = ov0.ladder();
    &&& ov.wf()
    &&& ov.levels@.len() == ov0.levels@.len()
    &&& ov.ladder() == l
    &&& ov.valid_below(ds, b, k)
    &&& forall|m: int|
        k < m < ov.levels@.len() ==> (#[trigger] ov.levels@[m]).same_table(&ov0.levels@[m])
    &&& forall|c: int, i: int, fwd: bool|
        0 <= c < regions(l[k]) && 0 <= i < gates(l[k], c).len() ==> if #[trigger] rechecked(
            seed,
            x,
            p,
            c,
            i,
            fwd,
        ) {
            ov.levels@[k].has_row(c, i, fwd) && ov.row_true(ds, b, k, c, i, fwd)
        } else {
            untouched(ov, ov0, k, c, i, fwd)
        }
}

proof fn lemma_row_step<'a>(
    ov1: Overlay<'a>,
    ov2: Overlay<'a>,
    ov0: Overlay<'a>,
    ds: Dataset,
    b: Seq<(u32, Effect)>,
    k: int,
    seed: Seq<u32>,
    x: int,
    p: int,
    i: int,
    fwd: bool,
)
    requires
        half_done(ov1, ov0, ds, b, k, seed, x, p),
        0 <= k < ov0.levels@.len(),
        ascending(seed),
        0 <= x < seed.len(),
        seed[x] < regions(ov0.ladder()[k]),
        0 <= i < gates(ov0.ladder()[k], seed[x] as int).len(),
        p == row_no(i, fwd),
        ov2.wf(),
        ov2.one_row(&ov1, k, seed[x] as int, i, fwd),
        ov2.valid_below(ds, b, k),
        ov2.levels@[k].has_row(seed[x] as int, i, fwd),
        ov2.row_true(ds, b, k, seed[x] as int, i, fwd),
    ensures
        half_done(ov2, ov0, ds, b, k, seed, x, p + 1),
        untouched(ov1, ov0, k, seed[x] as int, i, fwd),
        !rechecked(seed, x, p, seed[x] as int, i, fwd),
{
    reveal(half_done);
    let l = ov0.ladder();
    let c0 = seed[x] as int;
    assert(!rechecked(seed, x, p, c0, i, fwd)) by {
        if exists|y: int| 0 <= y < x && (#[trigger] seed[y]) == c0 {
            let y = choose|y: int| 0 <= y < x && (#[trigger] seed[y]) == c0;
            assert(seed[y] < seed[x]);
        }
    }
    assert forall|m: int| k < m < ov2.levels@.len() implies (#[trigger] ov2.levels@[m]).same_table(
        &ov0.levels@[m],
    ) by {
        assert(ov1.levels@[m].same_table(&ov0.levels@[m]));
        assert(ov2.levels@[m].same_table(&ov1.levels@[m]));
    }
    assert forall|c: int, i2: int, f2: bool|
        0 <= c < regions(l[k]) && 0 <= i2 < gates(l[k], c).len() implies if #[trigger] rechecked(
        seed,
        x,
        p + 1,
        c,
        i2,
        f2,
    ) {
        ov2.levels@[k].has_row(c, i2, f2) && ov2.row_true(ds, b, k, c, i2, f2)
    } else {
        untouched(ov2, ov0, k, c, i2, f2)
    } by {
        if (c, i2, f2) == (c0, i, fwd) {
            assert(rechecked(seed, x, p + 1, c, i2, f2));
        } else {
            assert(rechecked(seed, x, p + 1, c, i2, f2) == rechecked(seed, x, p, c, i2, f2)) by {
                if c == c0 {
                    assert(row_no(i2, f2) != row_no(i, fwd));
                }
            }
            assert(ov2.levels@[k].has_row(c, i2, f2) == ov1.levels@[k].has_row(c, i2, f2));
            assert forall|j: int| 0 <= j < gates(l[k], c).len() implies #[trigger] ov2.levels@[k].stored(
                c,
                i2,
                j,
                f2,
            ) == ov1.levels@[k].stored(c, i2, j, f2) by {}
            if rechecked(seed, x, p, c, i2, f2) {
                assert forall|j: int| 0 <= j < gates(l[k], c).len() implies #[trigger] ov2.levels@[k].stored(
                    c,
                    i2,
                    j,
                    f2,
                ) == value(ds, b, l, k, c, i2, j, f2) by {
                    assert(ov1.levels@[k].stored(c, i2, j, f2) == value(
                        ds,
                        b,
                        l,
                        k,
                        c,
                        i2,
                        j,
                        f2,
                    ));
                }
            }
        }
    }
}

/// A region whose last row is done is done.
proof fn lemma_region_step<'a>(
    ov: Overlay<'a>,
    ov0: Overlay<'a>,
    ds: Dataset,
    b: Seq<(u32, Effect)>,
    k: int,
    seed: Seq<u32>,
    x: int,
)
    requires
        0 <= x < seed.len(),
        half_done(
            ov,
            ov0,
            ds,
            b,
            k,
            seed,
            x,
            2 * gates(ov0.ladder()[k], seed[x] as int).len() as int,
        ),
    ensures
        half_done(ov, ov0, ds, b, k, seed, x + 1, 0),
{
    reveal(half_done);
    let l = ov0.ladder();
    let p = 2 * gates(l[k], seed[x] as int).len();
    assert forall|c: int, i: int, fwd: bool|
        0 <= c < regions(l[k]) && 0 <= i < gates(l[k], c).len() implies if #[trigger] rechecked(
        seed,
        x + 1,
        0,
        c,
        i,
        fwd,
    ) {
        ov.levels@[k].has_row(c, i, fwd) && ov.row_true(ds, b, k, c, i, fwd)
    } else {
        untouched(ov, ov0, k, c, i, fwd)
    } by {
        assert(rechecked(seed, x + 1, 0, c, i, fwd) == rechecked(seed, x, p as int, c, i, fwd)) by {
            if seed[x] == c {
                assert(rechecked(seed, x + 1, 0, c, i, fwd));
            }
            if rechecked(seed, x + 1, 0, c, i, fwd) {
                let y = choose|y: int| 0 <= y < x + 1 && (#[trigger] seed[y]) == c;
                if y < x {
                    assert(seed[y] == c);
                }
            }
        }
    }
}

proof fn lemma_level_begin<'a>(
    ov: Overlay<'a>,
    ov0: Overlay<'a>,
    ds: Dataset,
    b: Seq<(u32, Effect)>,
    k: int,
    seed: Seq<u32>,
)
    requires
        ov.wf(),
        0 <= k < ov0.levels@.len(),
        ov.levels@.len() == ov0.levels@.len(),
        ov.ladder() == ov0.ladder(),
        ov.valid_below(ds, b, k),
        forall|m: int|
            k <= m < ov.levels@.len() ==> (#[trigger] ov.levels@[m]).same_table(&ov0.levels@[m]),
    ensures
        half_done(ov, ov0, ds, b, k, seed, 0, 0),
{
    reveal(half_done);
    let l = ov0.ladder();
    assert forall|c: int, i: int, fwd: bool|
        0 <= c < regions(l[k]) && 0 <= i < gates(l[k], c).len() implies if #[trigger] rechecked(
        seed,
        0,
        0,
        c,
        i,
        fwd,
    ) {
        ov.levels@[k].has_row(c, i, fwd) && ov.row_true(ds, b, k, c, i, fwd)
    } else {
        untouched(ov, ov0, k, c, i, fwd)
    } by {
        assert(!rechecked(seed, 0, 0, c, i, fwd));
        assert(ov.levels@[k].same_table(&ov0.levels@[k]));
        assert forall|j: int| 0 <= j < gates(l[k], c).len() implies #[trigger] ov.levels@[k].stored(
            c,
            i,
            j,
            fwd,
        ) == ov0.levels@[k].stored(c, i, j, fwd) by {
            lemma_same_table(ov.levels@[k], ov0.levels@[k], c, i, j, fwd);
        }
        lemma_same_table(ov.levels@[k], ov0.levels@[k], c, i, 0, fwd);
    }
}

/// Once every region that is looked at is done, all rows of the level are
/// right.
proof fn lemma_level_valid<'a>(
    ov: Overlay<'a>,
    ov0: Overlay<'a>,
    ds: Dataset,
    a: Seq<(u32, Effect)>,
    b: Seq<(u32, Effect)>,
    segs: Seq<u32>,
    k: int,
    seed: Seq<u32>,
)
    requires
        ov0.wf(),
        ds.graph_ok(),
        ds.nv() == ov0.ladder()[0].of.len(),
        ds.ns() <= u32::MAX,
        ends_ok(ds),
        laid_out(ds, ov0.ladder()),
        was_right(ov0, ds, a, b, segs),
        0 <= k < ov0.levels@.len(),
        lists(seed, looked_at(ov0, ds, b, segs, k)),
        half_done(ov, ov0, ds, b, k, seed, seed.len() as int, 0),
    ensures
        ov.wf(),
        ov.levels@.len() == ov0.levels@.len(),
        ov.ladder() == ov0.ladder(),
        ov.valid_below(ds, b, k + 1),
        forall|m: int|
            k < m < ov.levels@.len() ==> (#[trigger] ov.levels@[m]).same_table(&ov0.levels@[m]),
{
    reveal(half_done);
    let l = ov0.ladder();
    assert(ov.valid(ds, b, k)) by {
        assert forall|c: int, i: int, fwd: bool|
            0 <= c < regions(l[k]) && 0 <= i < gates(l[k], c).len() && #[trigger] ov.levels@[k].has_row(
                c,
                i,
                fwd,
            ) implies ov.row_true(ds, b, k, c, i, fwd) by {
            let n = seed.len() as int;
            if !rechecked(seed, n, 0, c, i, fwd) {
                assert(untouched(ov, ov0, k, c, i, fwd));
                lemma_rung(l, k);
                assert(!is_seed(ov0, ds, b, segs, k, c)) by {
                    if looked_at(ov0, ds, b, segs, k).contains(c) {
                        assert(seed.contains(c as u32));
                        let y = seed.index_of(c as u32);
                        assert(seed[y] == c);
                    }
                }
                if k > 0 {
                    lemma_unchanged(ov0, ds, a, b, segs, k - 1);
                }
                lemma_still(ov0, ds, a, b, segs, k, c);
                assert(ov0.valid(ds, a, k));
                assert(ov0.levels@[k].has_row(c, i, fwd));
                assert(ov0.row_true(ds, a, k, c, i, fwd));
                assert forall|j: int| 0 <= j < gates(l[k], c).len() implies #[trigger] ov.levels@[k].stored(
                    c,
                    i,
                    j,
                    fwd,
                ) == value(ds, b, l, k, c, i, j, fwd) by {
                    assert(ov0.levels@[k].stored(c, i, j, fwd) == value(
                        ds,
                        a,
                        l,
                        k,
                        c,
                        i,
                        j,
                        fwd,
                    ));
                    assert(value(ds, a, l, k, c, i, j, fwd) == value(ds, b, l, k, c, i, j, fwd));
                }
            }
        }
    }
    assert forall|m: int| 0 <= m < k + 1 implies #[trigger] ov.valid(ds, b, m) by {}
}

proof fn lemma_moved_bound(ov: Overlay, ds: Dataset, b: Seq<(u32, Effect)>, k: int, c: int, p: int)
    requires
        0 <= p,
    ensures
        0 <= moved_rows(ov, ds, b, k, c, p) <= p,
        moved_rows(ov, ds, b, k, c, p) > 0 <==> exists|q: int|
            0 <= q < p && #[trigger] row_moved(ov, ds, b, k, c, q),
    decreases p,
{
    if p > 0 {
        lemma_moved_bound(ov, ds, b, k, c, p - 1);
        if row_moved(ov, ds, b, k, c, p - 1) {
            assert(row_moved(ov, ds, b, k, c, p - 1));
        }
    }
}

spec fn row_moved(ov: Overlay, ds: Dataset, b: Seq<(u32, Effect)>, k: int, c: int, q: int) -> bool {
    moved(ov, ds, b, k, c, q / 2, q % 2 == 0)
}

proof fn lemma_some_moved(ov: Overlay, ds: Dataset, b: Seq<(u32, Effect)>, k: int, c: int)
    ensures
        moved_rows(ov, ds, b, k, c, 2 * gates(ov.ladder()[k], c).len() as int) > 0 <==> some_moved(
            ov,
            ds,
            b,
            k,
            c,
        ),
{
    let n = gates(ov.ladder()[k], c).len();
    lemma_moved_bound(ov, ds, b, k, c, 2 * n as int);
    if some_moved(ov, ds, b, k, c) {
        let (i, fwd) = choose|i: int, fwd: bool|
            0 <= i < n && #[trigger] moved(ov, ds, b, k, c, i, fwd);
        let q = row_no(i, fwd);
        assert(q / 2 == i && (q % 2 == 0) == fwd);
        assert(row_moved(ov, ds, b, k, c, q));
    }
    if exists|q: int| 0 <= q < 2 * n && #[trigger] row_moved(ov, ds, b, k, c, q) {
        let q = choose|q: int| 0 <= q < 2 * n && #[trigger] row_moved(ov, ds, b, k, c, q);
        assert(moved(ov, ds, b, k, c, q / 2, q % 2 == 0));
    }
}

/// Recomputes the rows of a region; how many there are, and how many moved.
#[verifier::rlimit(40)]
fn check_region<'a>(
    ov: &mut Overlay<'a>,
    ds: &Dataset,
    ovr: Option<&Overrides>,
    k: usize,
    seed: &Vec<u32>,
    x: usize,
    Ghost(ov0): Ghost<Overlay<'a>>,
) -> (r: (u64, u64))
    requires
        ds.graph_ok(),
        ds.nv() == ov0.ladder()[0].of.len(),
        ds.ns() <= u32::MAX,
        ovr matches Some(o) ==> o.wf(),
        k < ov0.levels@.len(),
        ascending(seed@),
        x < seed@.len(),
        seed@[x as int] < regions(ov0.ladder()[k as int]),
        !ov0.ladder()[k as int].eager,
        half_done(*old(ov), ov0, *ds, table(ovr), k as int, seed@, x as int, 0),
    ensures
        half_done(*final(ov), ov0, *ds, table(ovr), k as int, seed@, x + 1, 0),
        r.0 == 2 * gates(ov0.ladder()[k as int], seed@[x as int] as int).len(),
        r.1 == moved_rows(ov0, *ds, table(ovr), k as int, seed@[x as int] as int, r.0 as int),
{
    let ghost b = table(ovr);
    let ghost l = ov0.ladder();
    let c: u32 = seed[x];
    proof {
        reveal(half_done);
        lemma_rung(l, k as int);
        assert(ov.levels@[k as int].rung() == l[k as int]);
        assert(l[k as int].bhead[c + 1] <= l[k as int].bhead[l[k as int].bhead.len() - 1]);
    }
    let n: usize = ov.level(k).boundary(c).len();
    let ghost g = gates(l[k as int], c as int);
    assert(n == g.len() && n <= u32::MAX);
    let mut p: u64 = 0;
    let mut count: u64 = 0;
    while p < 2 * (n as u64)
        invariant
            ds.graph_ok(),
            ds.nv() == l[0].of.len(),
            ds.ns() <= u32::MAX,
            ovr matches Some(o) ==> o.wf(),
            b == table(ovr),
            l == ov0.ladder(),
            k < ov0.levels@.len(),
            ascending(seed@),
            x < seed@.len(),
            c == seed@[x as int],
            c < regions(l[k as int]),
            !l[k as int].eager,
            g == gates(l[k as int], c as int),
            n == g.len(),
            n <= u32::MAX,
            p <= 2 * n,
            half_done(*ov, ov0, *ds, b, k as int, seed@, x as int, p as int),
            count == moved_rows(ov0, *ds, b, k as int, c as int, p as int),
            count <= p,
        decreases 2 * n - p,
    {
        let i: usize = (p / 2) as usize;
        let fwd: bool = p % 2 == 0;
        let ghost before = *ov;
        proof {
            reveal(half_done);
            assert(ov.levels@[k as int].rung() == l[k as int]);
        }
        let row: Row = ov.recheck_row(ds, ovr, k, c, i, fwd);
        proof {
            assert(p == row_no(i as int, fwd));
            lemma_row_step(
                before,
                *ov,
                ov0,
                *ds,
                b,
                k as int,
                seed@,
                x as int,
                p as int,
                i as int,
                fwd,
            );
            assert(before.row_true(*ds, b, k as int, c as int, i as int, fwd) == ov0.row_true(
                *ds,
                b,
                k as int,
                c as int,
                i as int,
                fwd,
            )) by {
                lemma_rows_alike(before, ov0, *ds, b, k as int, c as int, i as int, fwd);
            }
        }
        let hit: bool = match row {
            Row::Changed => true,
            Row::Written => true,
            Row::Same => false,
            Row::Empty => false,
        };
        assert(hit == moved(ov0, *ds, b, k as int, c as int, i as int, fwd));
        if hit {
            count += 1;
        }
        p += 1;
    }
    proof {
        lemma_region_step(*ov, ov0, *ds, b, k as int, seed@, x as int);
    }
    (p, count)
}

proof fn lemma_rows_alike<'a>(
    ov: Overlay<'a>,
    ov0: Overlay<'a>,
    ds: Dataset,
    b: Seq<(u32, Effect)>,
    k: int,
    c: int,
    i: int,
    fwd: bool,
)
    requires
        untouched(ov, ov0, k, c, i, fwd),
        ov.ladder() == ov0.ladder(),
    ensures
        ov.row_true(ds, b, k, c, i, fwd) == ov0.row_true(ds, b, k, c, i, fwd),
{
    let n = gates(ov0.ladder()[k], c).len();
    if ov0.row_true(ds, b, k, c, i, fwd) {
        assert forall|j: int| 0 <= j < n implies #[trigger] ov.levels@[k].stored(c, i, j, fwd)
            == value(ds, b, ov.ladder(), k, c, i, j, fwd) by {
            assert(ov0.levels@[k].stored(c, i, j, fwd) == value(
                ds,
                b,
                ov0.ladder(),
                k,
                c,
                i,
                j,
                fwd,
            ));
        }
    }
    if ov.row_true(ds, b, k, c, i, fwd) {
        assert forall|j: int| 0 <= j < n implies #[trigger] ov0.levels@[k].stored(c, i, j, fwd)
            == value(ds, b, ov0.ladder(), k, c, i, j, fwd) by {
            assert(ov.levels@[k].stored(c, i, j, fwd) == value(
                ds,
                b,
                ov.ladder(),
                k,
                c,
                i,
                j,
                fwd,
            ));
        }
    }
}

/// Recomputes the rows of every region that is looked at.
#[verifier::rlimit(60)]
fn check_level<'a>(
    ov: &mut Overlay<'a>,
    ds: &Dataset,
    ovr: Option<&Overrides>,
    k: usize,
    seed: &Vec<u32>,
    Ghost(ov0): Ghost<Overlay<'a>>,
    Ghost(segs): Ghost<Seq<u32>>,
) -> (r: (Vec<u32>, u128, u128))
    requires
        ov0.wf(),
        ds.graph_ok(),
        ds.nv() == ov0.ladder()[0].of.len(),
        ds.ns() <= u32::MAX,
        ovr matches Some(o) ==> o.wf(),
        k < ov0.levels@.len(),
        lists(seed@, looked_at(ov0, *ds, table(ovr), segs, k as int)),
        !ov0.ladder()[k as int].eager,
        half_done(*old(ov), ov0, *ds, table(ovr), k as int, seed@, 0, 0),
    ensures
        half_done(*final(ov), ov0, *ds, table(ovr), k as int, seed@, seed@.len() as int, 0),
        lists(r.0@, changed_at(ov0, *ds, table(ovr), segs, k as int)),
        (r.1 as int, r.2 as int) == tally(
            ov0,
            *ds,
            table(ovr),
            k as int,
            seed@,
            seed@.len() as int,
        ),
{
    let ghost b = table(ovr);
    let ghost l = ov0.ladder();
    let ghost kk = k as int;
    let n: usize = seed.len();
    let mut ch: Vec<u32> = Vec::new();
    let mut rows: u128 = 0;
    let mut many: u128 = 0;
    let mut x: usize = 0;
    while x < n
        invariant
            ov0.wf(),
            ds.graph_ok(),
            ds.nv() == l[0].of.len(),
            ds.ns() <= u32::MAX,
            ovr matches Some(o) ==> o.wf(),
            b == table(ovr),
            l == ov0.ladder(),
            kk == k,
            k < ov0.levels@.len(),
            lists(seed@, looked_at(ov0, *ds, b, segs, kk)),
            !l[kk].eager,
            n == seed@.len(),
            x <= n,
            half_done(*ov, ov0, *ds, b, kk, seed@, x as int, 0),
            (rows as int, many as int) == tally(ov0, *ds, b, kk, seed@, x as int),
            rows <= x * 0x1_0000_0000_0000_0000,
            many <= rows,
            ascending(ch@),
            forall|y: int|
                0 <= y < ch@.len() ==> seed@.take(x as int).contains(#[trigger] ch@[y])
                    && some_moved(ov0, *ds, b, kk, ch@[y] as int),
            forall|y: int|
                0 <= y < x && some_moved(ov0, *ds, b, kk, #[trigger] seed@[y] as int)
                    ==> ch@.contains(seed@[y]),
        decreases n - x,
    {
        let c: u32 = seed[x];
        proof {
            assert(seed@.contains(c));
            assert(is_seed(ov0, *ds, b, segs, kk, c as int));
            lemma_seed_bound(ov0, *ds, b, segs, kk, c as int);
            lemma_some_moved(ov0, *ds, b, kk, c as int);
        }
        let (r, m): (u64, u64) = check_region(ov, ds, ovr, k, seed, x, Ghost(ov0));
        proof {
            lemma_moved_bound(ov0, *ds, b, kk, c as int, r as int);
        }
        rows = rows + r as u128;
        many = many + m as u128;
        let ghost ch0 = ch@;
        if m > 0 {
            ch.push(c);
        }
        proof {
            let (t0, t1) = (seed@.take(x as int), seed@.take(x + 1));
            assert(t1 =~= t0.push(c));
            assert(t1[x as int] == c);
            assert forall|y: int|
                0 <= y < ch@.len() implies t1.contains(#[trigger] ch@[y]) && some_moved(
                ov0,
                *ds,
                b,
                kk,
                ch@[y] as int,
            ) by {
                if y < ch0.len() {
                    assert(ch0[y] == ch@[y]);
                    let z = t0.index_of(ch0[y]);
                    assert(t1[z] == ch0[y]);
                }
            }
            assert forall|i: int, j: int| 0 <= i < j < ch@.len() implies ch@[i] < ch@[j] by {
                if j == ch0.len() {
                    assert(t0.contains(ch0[i]));
                    let z = t0.index_of(ch0[i]);
                    assert(seed@[z] < seed@[x as int]);
                }
            }
            assert forall|y: int|
                0 <= y < x + 1 && some_moved(
                    ov0,
                    *ds,
                    b,
                    kk,
                    #[trigger] seed@[y] as int,
                ) implies ch@.contains(seed@[y]) by {
                if y < x {
                    assert(ch0.contains(seed@[y]));
                    let z = ch0.index_of(seed@[y]);
                    assert(ch@[z] == seed@[y]);
                } else {
                    assert(ch@[ch0.len() as int] == c);
                }
            }
        }
        x += 1;
    }
    proof {
        let f = changed_at(ov0, *ds, b, segs, kk);
        assert(seed@.take(n as int) =~= seed@);
        assert forall|c: u32| #[trigger] ch@.contains(c) <==> f.contains(c as int) by {
            if ch@.contains(c) {
                let y = ch@.index_of(c);
                assert(seed@.contains(ch@[y]));
            }
            if f.contains(c as int) {
                assert(seed@.contains(c));
                let y = seed@.index_of(c);
                assert(ch@.contains(seed@[y]));
            }
        }
    }
    (ch, rows, many)
}

fn copy_list(s: &Vec<u32>) -> (r: Vec<u32>)
    ensures
        r@ == s@,
{
    let mut r: Vec<u32> = Vec::new();
    while r.len() < s.len()
        invariant
            r@.len() <= s@.len(),
            forall|i: int| 0 <= i < r@.len() ==> r@[i] == s@[i],
        decreases s@.len() - r@.len(),
    {
        let x: u32 = s[r.len()];
        r.push(x);
    }
    assert(r@ =~= s@);
    r
}

/// An eager level, where every row is what its table says.
proof fn lemma_eager_valid<'a>(
    ov: Overlay<'a>,
    ds: Dataset,
    b: Seq<(u32, Effect)>,
    k: int,
)
    requires
        0 <= k < ov.levels@.len(),
        ov.ladder()[k].eager,
        ov.valid_below(ds, b, k),
    ensures
        ov.valid_below(ds, b, k + 1),
{
    assert(ov.levels@[k].rung() == ov.ladder()[k]);
    assert forall|m: int| 0 <= m < k + 1 implies #[trigger] ov.valid(ds, b, m) by {
        if m == k {
            assert forall|c: int, i: int, fwd: bool|
                0 <= c < regions(ov.ladder()[k]) && 0 <= i < gates(ov.ladder()[k], c).len()
                    && #[trigger] ov.levels@[k].has_row(c, i, fwd) implies ov.row_true(
                ds,
                b,
                k,
                c,
                i,
                fwd,
            ) by {}
        }
    }
}

/// Nothing above a quiet level needs looking at.
proof fn lemma_rest_valid<'a>(
    ov: Overlay<'a>,
    ov0: Overlay<'a>,
    ds: Dataset,
    a: Seq<(u32, Effect)>,
    b: Seq<(u32, Effect)>,
    segs: Seq<u32>,
    m: int,
    k: int,
)
    requires
        ov0.wf(),
        ov.wf(),
        ds.graph_ok(),
        ds.nv() == ov0.ladder()[0].of.len(),
        ds.ns() <= u32::MAX,
        ends_ok(ds),
        laid_out(ds, ov0.ladder()),
        was_right(ov0, ds, a, b, segs),
        1 <= m <= k <= ov0.levels@.len(),
        ov.levels@.len() == ov0.levels@.len(),
        ov.ladder() == ov0.ladder(),
        ov.valid_below(ds, b, m),
        m < ov0.levels@.len() ==> is_quiet(ov0, ds, b, segs, m),
        forall|j: int|
            m <= j < ov.levels@.len() ==> (#[trigger] ov.levels@[j]).same_table(&ov0.levels@[j]),
    ensures
        ov.valid_below(ds, b, k),
    decreases k,
{
    if m < k {
        lemma_rest_valid(ov, ov0, ds, a, b, segs, m, k - 1);
        lemma_quiet(ov0, ds, b, segs, m, k - 1);
        let seed = Seq::<u32>::empty();
        lemma_level_begin(ov, ov0, ds, b, k - 1, seed);
        assert(lists(seed, looked_at(ov0, ds, b, segs, k - 1))) by {
            assert forall|c: u32| #[trigger] seed.contains(c) <==> looked_at(
                ov0,
                ds,
                b,
                segs,
                k - 1,
            ).contains(c as int) by {
                if is_seed(ov0, ds, b, segs, k - 1, c as int) {
                    lemma_seed_bound(ov0, ds, b, segs, k - 1, c as int);
                }
            }
        }
        lemma_level_valid(ov, ov0, ds, a, b, segs, k - 1, seed);
    }
}

/// The rows that are there are right under some earlier costs, which differ from
/// the present ones only on the segments.
pub open spec fn only_these_moved(
    ov: Overlay,
    ds: Dataset,
    b: Seq<(u32, Effect)>,
    segs: Seq<u32>,
) -> bool {
    exists|a: Seq<(u32, Effect)>| #[trigger] was_right(ov, ds, a, b, segs)
}

/// Carries a change of the costs of segments up the levels. Afterwards every row
/// is right again.
#[verifier::rlimit(80)]
#[verifier::spinoff_prover]
pub fn propagate<'a>(
    ds: &Dataset,
    ovr: Option<&Overrides>,
    ov: &mut Overlay<'a>,
    segments: &[u32],
) -> (out: Vec<Step>)
    requires
        old(ov).wf(),
        ds.graph_ok(),
        ds.nv() == old(ov).ladder()[0].of.len(),
        ds.ns() <= u32::MAX,
        ends_ok(*ds),
        laid_out(*ds, old(ov).ladder()),
        ovr matches Some(o) ==> o.wf(),
        only_these_moved(*old(ov), *ds, table(ovr), segments@),
    ensures
        final(ov).wf(),
        final(ov).ladder() == old(ov).ladder(),
        final(ov).valid_below(*ds, table(ovr), final(ov).levels@.len() as int),
        1 <= out@.len() <= old(ov).ladder().len(),
        forall|k: int|
            0 <= k < out@.len() ==> is_step(
                *old(ov),
                *ds,
                table(ovr),
                segments@,
                k,
                #[trigger] out@[k],
            ),
        out@.len() < old(ov).ladder().len() ==> is_quiet(
            *old(ov),
            *ds,
            table(ovr),
            segments@,
            out@.len() as int,
        ),
{
    let ghost b = table(ovr);
    let ghost ov0 = *ov;
    let ghost l = ov.ladder();
    let ghost segs = segments@;
    let ghost a = choose|a: Seq<(u32, Effect)>| #[trigger] was_right(ov0, *ds, a, b, segs);
    let n: usize = ov.levels();
    let mut seed: Vec<u32> = first_seeds(ds, ov, segments);
    let mut out: Vec<Step> = Vec::new();
    proof {
        reveal(ladder_ok);
        assert(lists(seed@, looked_at(ov0, *ds, b, segs, 0)));
    }
    let mut k: usize = 0;
    while k < n
        invariant_except_break
            lists(seed@, looked_at(ov0, *ds, b, segs, k as int)) || k == n,
            out@.len() == k,
            ov.valid_below(*ds, b, k as int),
            forall|m: int|
                k <= m < ov.levels@.len() ==> (#[trigger] ov.levels@[m]).same_table(
                    &ov0.levels@[m],
                ),
        invariant
            ov0.wf(),
            ov.wf(),
            ds.graph_ok(),
            ds.nv() == l[0].of.len(),
            ds.ns() <= u32::MAX,
            ends_ok(*ds),
            laid_out(*ds, l),
            ovr matches Some(o) ==> o.wf(),
            was_right(ov0, *ds, a, b, segs),
            b == table(ovr),
            l == ov0.ladder(),
            segs == segments@,
            n == l.len(),
            n >= 1,
            k <= n,
            ov.levels@.len() == ov0.levels@.len(),
            ov.ladder() == l,
            forall|j: int|
                0 <= j < out@.len() ==> is_step(ov0, *ds, b, segs, j, #[trigger] out@[j]),
        ensures
            ov.valid_below(*ds, b, ov.levels@.len() as int),
            1 <= out@.len() <= n,
            out@.len() < n ==> is_quiet(ov0, *ds, b, segs, out@.len() as int),
        decreases n - k,
    {
        let eager: bool = !ov.level(k).is_lazy();
        let ghost kk = k as int;
        assert(ov.levels@[kk].rung() == l[kk]);
        let (ch, rows, many): (Vec<u32>, u128, u128) = if eager {
            let ch: Vec<u32> = copy_list(&seed);
            proof {
                lemma_eager_valid(*ov, *ds, b, kk);
                assert(lists(ch@, changed_at(ov0, *ds, b, segs, kk))) by {
                    assert forall|c: u32| #[trigger] ch@.contains(c) <==> changed_at(
                        ov0,
                        *ds,
                        b,
                        segs,
                        kk,
                    ).contains(c as int) by {
                        assert(seed@.contains(c) <==> looked_at(
                            ov0,
                            *ds,
                            b,
                            segs,
                            kk,
                        ).contains(c as int));
                    }
                }
            }
            (ch, 0, 0)
        } else {
            proof {
                lemma_level_begin(*ov, ov0, *ds, b, kk, seed@);
            }
            let r: (Vec<u32>, u128, u128) = check_level(
                ov,
                ds,
                ovr,
                k,
                &seed,
                Ghost(ov0),
                Ghost(segs),
            );
            proof {
                lemma_level_valid(*ov, ov0, *ds, a, b, segs, kk, seed@);
            }
            r
        };
        let st = Step {
            level: k,
            regions: seed.len(),
            changed: ch.len(),
            rows,
            moved: many,
            eager,
        };
        out.push(st);
        proof {
            assert(stepped(ov0, *ds, b, segs, kk, seed@, ch@, st));
            assert(is_step(ov0, *ds, b, segs, kk, st));
        }
        if k + 1 >= n {
            break;
        }
        proof {
            assert forall|x: int| 0 <= x < ch@.len() implies (#[trigger] ch@[x]) < regions(l[kk]) by {
                assert(ch@.contains(ch@[x]));
                assert(is_seed(ov0, *ds, b, segs, kk, ch@[x] as int));
                lemma_seed_bound(ov0, *ds, b, segs, kk, ch@[x] as int);
            }
        }
        let next: Vec<u32> = next_seeds(ds, ov, segments, k, &ch);
        proof {
            lemma_next(ov0, *ds, b, segs, kk, ch@, next@);
        }
        if next.len() == 0 {
            proof {
                let k1 = kk + 1;
                assert(is_quiet(ov0, *ds, b, segs, k1)) by {
                    assert forall|c: int| 0 <= c < regions(l[k1]) implies !#[trigger] is_seed(
                        ov0,
                        *ds,
                        b,
                        segs,
                        k1,
                        c,
                    ) by {
                        lemma_rung(l, k1);
                        if looked_at(ov0, *ds, b, segs, k1).contains(c) {
                            assert(next@.contains(c as u32));
                        }
                    }
                }
                lemma_rest_valid(*ov, ov0, *ds, a, b, segs, kk + 1, n as int);
            }
            break;
        }
        seed = next;
        k += 1;
    }
    out
}

proof fn lemma_next(
    ov: Overlay,
    ds: Dataset,
    b: Seq<(u32, Effect)>,
    segs: Seq<u32>,
    k: int,
    ch: Seq<u32>,
    next: Seq<u32>,
)
    requires
        ov.wf(),
        0 <= k,
        k + 1 < ov.ladder().len(),
        lists(ch, changed_at(ov, ds, b, segs, k)),
        ascending(next),
        forall|c: u32|
            #[trigger] next.contains(c) <==> cut_at(ds, ov.ladder(), segs, k, c as int)
                || exists|x: int|
                0 <= x < ch.len() && ov.ladder()[k + 1].of[#[trigger] ch[x] as int] == c,
        forall|x: int| 0 <= x < ch.len() ==> (#[trigger] ch[x]) < regions(ov.ladder()[k]),
    ensures
        lists(next, looked_at(ov, ds, b, segs, k + 1)),
{
    let l = ov.ladder();
    let below = looked_at(ov, ds, b, segs, k);
    lemma_rung(l, k);
    assert forall|c: u32| #[trigger] next.contains(c) <==> looked_at(
        ov,
        ds,
        b,
        segs,
        k + 1,
    ).contains(c as int) by {
        if exists|x: int| 0 <= x < ch.len() && l[k + 1].of[#[trigger] ch[x] as int] == c {
            let x = choose|x: int|
                0 <= x < ch.len() && l[k + 1].of[#[trigger] ch[x] as int] == c;
            assert(ch.contains(ch[x]));
            assert(grows(ov, ds, b, below, k, ch[x] as int));
            assert(lifted(ov, ds, b, below, k, c as int));
        }
        if lifted(ov, ds, b, below, k, c as int) {
            let d = choose|d: int|
                0 <= d < regions(l[k]) && #[trigger] grows(ov, ds, b, below, k, d) && l[k + 1].of[d]
                    == c as int;
            assert(changed_at(ov, ds, b, segs, k).contains(d as u32 as int));
            assert(ch.contains(d as u32));
            let x = ch.index_of(d as u32);
            assert(l[k + 1].of[ch[x] as int] == c);
        }
    }
}

} // verus!
