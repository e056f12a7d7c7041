//! Filling missing rows on purpose, until a budget runs out.

use vstd::prelude::*;
use crate::dataset::Dataset;
use crate::overlay::search::{lemma_filled_row, sound_tables};
use crate::overlay::shape::{gates, lemma_rung, regions, Ladder, Overlay};
use crate::overrides::{table, Overrides};

verus! {

/// Where row `i` of region `c` comes in the order of filling: the forward rows
/// of a level first, then the backward ones.
pub open spec fn turn(l: Ladder, k: int, c: int, i: int, fwd: bool) -> int {
    l[k].bhead[c] + i + if fwd {
        0
    } else {
        l[k].bnd.len() as int
    }
}

/// The row exists.
pub open spec fn is_row(l: Ladder, k: int, c: int, i: int) -> bool {
    0 <= k < l.len() && 0 <= c < regions(l[k]) && 0 <= i < gates(l[k], c).len()
}

/// No row that was there before has gone.
pub open spec fn rows_stay(before: Overlay, after: Overlay) -> bool {
    forall|k: int, c: int, i: int, fwd: bool|
        is_row(before.ladder(), k, c, i) && before.levels@[k].has_row(c, i, fwd)
            ==> #[trigger] after.levels@[k].has_row(c, i, fwd)
}

/// Every row of the first `n` levels is there, and of level `n` those whose
/// turn comes before `r`.
pub open spec fn warmed(ov: Overlay, n: int, r: int) -> bool {
    forall|k: int, c: int, i: int, fwd: bool|
        is_row(ov.ladder(), k, c, i) && (k < n || (k == n && turn(ov.ladder(), k, c, i, fwd) < r))
            ==> #[trigger] ov.levels@[k].has_row(c, i, fwd)
}

/// The row whose turn on level `k` is `r` has still to be filled.
pub open spec fn missing_at(ov: Overlay, k: int, r: int) -> bool {
    let rows = ov.ladder()[k].bnd.len() as int;
    ov.levels@[k].values is Lazy && !ov.levels@[k].lazy().has(
        if r < rows {
            r
        } else {
            r - rows
        },
        r < rows,
    )
}

/// How many of the first `r` rows of level `k` have still to be filled.
pub open spec fn missing_in(ov: Overlay, k: int, r: int) -> int
    decreases r,
{
    if r <= 0 {
        0
    } else {
        missing_in(ov, k, r - 1) + (if missing_at(ov, k, r - 1) {
            1int
        } else {
            0
        })
    }
}

/// How many rows of the first `k` levels have still to be filled.
pub open spec fn missing_below(ov: Overlay, k: int) -> int
    decreases k,
{
    if k <= 0 {
        0
    } else {
        missing_below(ov, k - 1) + missing_in(ov, k - 1, 2 * ov.ladder()[k - 1].bnd.len() as int)
    }
}

/// The rows of level `k` from turn `r` on, and those of the levels above, are
/// there just where they were before.
pub open spec fn untouched(before: Overlay, after: Overlay, k: int, r: int) -> bool {
    forall|x: int, c: int, i: int, fwd: bool|
        is_row(before.ladder(), x, c, i) && (x > k || (x == k && turn(
            before.ladder(),
            x,
            c,
            i,
            fwd,
        ) >= r)) ==> #[trigger] after.levels@[x].has_row(c, i, fwd)
            == before.levels@[x].has_row(c, i, fwd)
}

/// Filling has come as far as turn `r` of level `k`: `n` rows were missing up
/// to there, all of them are there now, and what comes after is as it was.
pub open spec fn filled_to(before: Overlay, after: Overlay, k: int, r: int, n: int) -> bool {
    &&& n == missing_below(before, k) + missing_in(before, k, r)
    &&& warmed(after, k, r)
    &&& untouched(before, after, k, r)
}

/// `n` rows were filled in their turn, all that were missing unless it stopped.
pub open spec fn filled_some(before: Overlay, after: Overlay, n: int, stopped: bool) -> bool {
    exists|k: int, r: int| #[trigger]
        filled_to(before, after, k, r, n) && (!stopped ==> k == before.ladder().len() && r == 0)
}

proof fn lemma_eager_full(ov: Overlay, k: int, r: int)
    requires
        !(ov.levels@[k].values is Lazy),
    ensures
        missing_in(ov, k, r) == 0,
    decreases r,
{
    if r > 0 {
        lemma_eager_full(ov, k, r - 1);
    }
}

/// Filling the row whose turn is `r` touches nothing that comes after.
proof fn lemma_untouched<'a>(
    s0: Overlay<'a>,
    s1: &Overlay<'a>,
    s2: &Overlay<'a>,
    k: int,
    c: int,
    i: int,
    fwd: bool,
    r: int,
)
    requires
        0 <= k < s1.levels@.len(),
        s0.ladder() == s1.ladder(),
        s2.one_row(s1, k, c, i, fwd),
        turn(s1.ladder(), k, c, i, fwd) == r,
        untouched(s0, *s1, k, r),
    ensures
        untouched(s0, *s2, k, r + 1),
{
    let l = s1.ladder();
    assert forall|x: int, d: int, j: int, f: bool|
        is_row(l, x, d, j) && (x > k || (x == k && turn(l, x, d, j, f) >= r + 1)) implies (
    #[trigger] s2.levels@[x].has_row(d, j, f)) == s0.levels@[x].has_row(d, j, f) by {
        assert(s1.levels@[x].has_row(d, j, f) == s0.levels@[x].has_row(d, j, f));
        assert(s2.ladder()[x] == l[x]);
        assert(s1.levels@[x].rung() == l[x] && s2.levels@[x].rung() == l[x]);
        if x > k {
            assert(s2.levels@[x].same_table(&s1.levels@[x]));
        } else {
            assert((d, j, f) != (c, i, fwd));
        }
    }
}

pub(crate) proof fn lemma_rows_stay<'a>(
    s1: &Overlay<'a>,
    s2: &Overlay<'a>,
    k: int,
    c: int,
    i: int,
    fwd: bool,
)
    requires
        0 <= k < s1.levels@.len(),
        s2.one_row(s1, k, c, i, fwd),
        s2.levels@[k].has_row(c, i, fwd),
    ensures
        rows_stay(*s1, *s2),
{
    let l = s1.ladder();
    assert forall|m: int, c2: int, i2: int, f2: bool|
        is_row(l, m, c2, i2) && s1.levels@[m].has_row(c2, i2, f2) implies #[trigger] s2.levels@[m].has_row(
        c2,
        i2,
        f2,
    ) by {
        assert(s2.ladder()[m] == l[m]);
        if m > k {
            assert(s2.levels@[m].same_table(&s1.levels@[m]));
            assert(s1.levels@[m].rung() == l[m] && s2.levels@[m].rung() == l[m]);
        } else if m == k {
            if (c2, i2, f2) != (c, i, fwd) {
                assert(s2.levels@[k].has_row(c2, i2, f2) == s1.levels@[k].has_row(c2, i2, f2));
            }
        }
    }
}

/// Fills missing rows, bottom up, until `budget_rows` have been filled or
/// `late` says that the time is over. Gives how many were filled and whether
/// it stopped before the end. It is resumable by construction: the presence
/// bitmap says what is there.
#[verifier::rlimit(40)]
pub fn warm<F: Fn() -> bool>(
    ds: &Dataset,
    ovr: Option<&Overrides>,
    ov: &mut Overlay,
    budget_rows: u64,
    late: &F,
) -> (r: (u64, bool))
    requires
        sound_tables(old(ov), *ds, table(ovr)),
        ds.graph_ok(),
        ds.nv() == old(ov).ladder()[0].of.len(),
        ds.ns() <= u32::MAX,
        ovr matches Some(o) ==> o.wf(),
        forall|k: int|
            0 <= k < old(ov).ladder().len() ==> (#[trigger] old(ov).ladder()[k]).bhead[0] == 0,
        call_requires(late, ()),
    ensures
        sound_tables(final(ov), *ds, table(ovr)),
        final(ov).ladder() == old(ov).ladder(),
        rows_stay(*old(ov), *final(ov)),
        filled_some(*old(ov), *final(ov), r.0 as int, r.1),
        !r.1 ==> warmed(*final(ov), old(ov).ladder().len() as int, 0),
        r.0 <= budget_rows || r.0 == 1,
        r.1 && r.0 < budget_rows ==> call_ensures(late, (), true),
{
    let ghost l = ov.ladder();
    let ghost eff = table(ovr);
    let n: usize = ov.levels.len();
    let mut done: u64 = 0;
    let mut k: usize = 0;
    while k < n
        invariant
            sound_tables(ov, *ds, eff),
            eff == table(ovr),
            ds.graph_ok(),
            ds.nv() == l[0].of.len(),
            ds.ns() <= u32::MAX,
            ovr matches Some(o) ==> o.wf(),
            forall|k: int| 0 <= k < l.len() ==> (#[trigger] l[k]).bhead[0] == 0,
            call_requires(late, ()),
            l == ov.ladder(),
            l == old(ov).ladder(),
            n == l.len(),
            k <= n,
            rows_stay(*old(ov), *ov),
            done == 0 || done < budget_rows,
            warmed(*ov, k as int, 0),
            untouched(*old(ov), *ov, k as int, 0),
            done == missing_below(*old(ov), k as int),
        decreases n - k,
    {
        proof {
            lemma_rung(l, k as int);
            assert(ov.levels@[k as int].rung() == l[k as int]);
            assert(ov.levels@[k as int].blocks_ok());
        }
        if ov.levels[k].is_lazy() {
            let m: usize = ov.levels[k].regions();
            let rows: usize = ov.levels[k].boundary_total();
            let mut r: usize = 0;
            while r < rows * 2
                invariant
                    sound_tables(ov, *ds, eff),
                    eff == table(ovr),
                    ds.graph_ok(),
                    ds.nv() == l[0].of.len(),
                    ds.ns() <= u32::MAX,
                    ovr matches Some(o) ==> o.wf(),
                    forall|k: int| 0 <= k < l.len() ==> (#[trigger] l[k]).bhead[0] == 0,
                    call_requires(late, ()),
                    l == ov.ladder(),
                    l == old(ov).ladder(),
                    n == l.len(),
                    k < n,
                    m == regions(l[k as int]),
                    rows == l[k as int].bnd.len(),
                    rows * 2 <= usize::MAX,
                    r <= rows * 2,
                    rows_stay(*old(ov), *ov),
                    done == 0 || done < budget_rows,
                    warmed(*ov, k as int, r as int),
                    untouched(*old(ov), *ov, k as int, r as int),
                    ov.levels@[k as int].values is Lazy,
                    old(ov).levels@[k as int].values is Lazy,
                    done == missing_below(*old(ov), k as int) + missing_in(
                        *old(ov),
                        k as int,
                        r as int,
                    ),
                decreases rows * 2 - r,
            {
                let ghost kk = k as int;
                let (row, fwd): (usize, bool) = if r < rows {
                    (r, true)
                } else {
                    (r - rows, false)
                };
                proof {
                    lemma_rung(l, kk);
                    assert(ov.levels@[kk].rung() == l[kk]);
                    assert(l[kk].bhead[0] == 0);
                    assert(l[kk].bhead[m as int] == rows);
                }
                let c: u32 = ov.levels[k].region_of_row(row, m);
                proof {
                    assert(c < m);
                    assert(l[kk].bhead[c + 1] > row);
                    assert(l[kk].bhead[c + 1] <= l[kk].bhead[m as int]);
                }
                let i: usize = row - ov.levels[k].row_base(c);
                assert(gates(l[kk], c as int).len() == l[kk].bhead[c + 1] - l[kk].bhead[c as int]);
                let there: bool = ov.row_present(k, c, i, fwd);
                let ghost was = *ov;
                proof {
                    assert(is_row(l, kk, c as int, i as int));
                    assert(turn(l, kk, c as int, i as int, fwd) == r);
                    assert(ov.levels@[kk].has_row(c as int, i as int, fwd) == old(
                        ov,
                    ).levels@[kk].has_row(c as int, i as int, fwd));
                    assert(old(ov).levels@[kk].rung() == l[kk]);
                    assert(missing_at(*old(ov), kk, r as int) == !there);
                }
                let mut over: bool = false;
                if !there {
                    ov.ensure_row(ds, ovr, k, c, i, fwd);
                    proof {
                        lemma_filled_row(&was, ov, *ds, eff, kk, c as int, i as int, fwd);
                        lemma_rows_stay(&was, ov, kk, c as int, i as int, fwd);
                        lemma_stay_chain(*old(ov), was, *ov);
                        lemma_untouched(
                            *old(ov),
                            &was,
                            ov,
                            kk,
                            c as int,
                            i as int,
                            fwd,
                            r as int,
                        );
                    }
                    done = done + 1;
                    over = done >= budget_rows || late();
                }
                proof {
                    assert forall|x: int, d: int, j: int, f: bool|
                        is_row(l, x, d, j) && (x < kk || (x == kk && turn(l, x, d, j, f) < r
                            + 1)) implies #[trigger] ov.levels@[x].has_row(d, j, f) by {
                        if x < kk || turn(l, x, d, j, f) < r {
                            assert(was.levels@[x].has_row(d, j, f));
                        } else {
                            lemma_one_turn(l, kk, d, j, f, c as int, i as int, fwd);
                        }
                    }
                }
                if over {
                    assert(filled_to(*old(ov), *ov, kk, r + 1, done as int));
                    assert(filled_some(*old(ov), *ov, done as int, true));
                    return (done, true);
                }
                r = r + 1;
            }
            proof {
                assert forall|x: int, d: int, j: int, f: bool|
                    is_row(l, x, d, j) && x < k + 1 implies #[trigger] ov.levels@[x].has_row(
                    d,
                    j,
                    f,
                ) by {
                    if x == k {
                        lemma_rung(l, x);
                        let h = l[x].bhead;
                        assert(h[d + 1] <= h[h.len() - 1]);
                        assert(turn(l, x, d, j, f) < 2 * rows);
                    }
                }
            }
        } else {
            proof {
                assert(!(old(ov).levels@[k as int].values is Lazy)) by {
                    assert(old(ov).levels@[k as int].rung() == l[k as int]);
                }
                lemma_eager_full(*old(ov), k as int, 2 * l[k as int].bnd.len() as int);
                assert forall|x: int, d: int, j: int, f: bool|
                    is_row(l, x, d, j) && x < k + 1 implies #[trigger] ov.levels@[x].has_row(
                    d,
                    j,
                    f,
                ) by {}
            }
        }
        k += 1;
    }
    assert(filled_to(*old(ov), *ov, n as int, 0, done as int));
    assert(filled_some(*old(ov), *ov, done as int, false));
    (done, false)
}

pub(crate) proof fn lemma_stay_chain(a: Overlay, b: Overlay, c: Overlay)
    requires
        a.ladder() == b.ladder(),
        rows_stay(a, b),
        rows_stay(b, c),
    ensures
        rows_stay(a, c),
{
    assert forall|k: int, d: int, i: int, fwd: bool|
        is_row(a.ladder(), k, d, i) && a.levels@[k].has_row(d, i, fwd) implies #[trigger] c.levels@[k].has_row(
        d,
        i,
        fwd,
    ) by {
        assert(b.levels@[k].has_row(d, i, fwd));
    }
}

/// Two rows of a level have the same turn only if they are one.
proof fn lemma_one_turn(
    l: Ladder,
    k: int,
    c: int,
    i: int,
    f: bool,
    d: int,
    j: int,
    g: bool,
)
    requires
        crate::overlay::shape::ladder_ok(l),
        is_row(l, k, c, i),
        is_row(l, k, d, j),
        turn(l, k, c, i, f) == turn(l, k, d, j, g),
    ensures
        c == d,
        i == j,
        f == g,
{
    lemma_rung(l, k);
    let h = l[k].bhead;
    let rows = l[k].bnd.len() as int;
    assert(h[c + 1] <= h[h.len() - 1] && h[d + 1] <= h[h.len() - 1]);
    assert(h[c] + i < rows && h[d] + j < rows);
    if c < d {
        assert(h[c + 1] <= h[d]);
    }
    if d < c {
        assert(h[d + 1] <= h[c]);
    }
}

} // verus!
