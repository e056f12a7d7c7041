//! Splitting regions without rebuilding a level.

use vstd::prelude::*;
use crate::bits::lemma_set8;
use crate::dataset::{head_ok, Dataset};
use crate::lookup::ascending;
use crate::overlay::exact::{crosses, gated, is_edge, on_edge};
use crate::overlay::fits::lemma_in_block;
use crate::overlay::lists::{block, listing, lists};
use crate::overlay::net::gate_at;
use crate::overlay::rows::{edge_head, far_end};
use crate::overlay::shape::{
    cell_at, gates, has_bit, index_in, ladder_ok, lemma_cell_bound, lemma_gate_cell,
    lemma_index_in, lemma_rung, regions, Ladder, Level, Overlay, Rung, Values,
};

verus! {

/// Regions to split, each with the units to move out of it.
pub struct SplitPlan {
    pub cuts: Vec<(u32, Vec<u32>)>,
}

pub struct SplitStats {
    pub regions_before: usize,
    pub regions_after: usize,
    pub rows_kept: u64,
    pub rows_dropped: u64,
    pub gates_before: usize,
    pub gates_after: usize,
}

/// One level as a split leaves it.
pub struct LevelUpdate {
    pub of: Vec<u32>,
    pub bnd: Vec<u32>,
    pub bhead: Vec<u32>,
    pub vhead: Vec<u32>,
    pub vlist: Vec<u32>,
    pub head: Vec<u64>,
    /// Which regions keep their rows.
    pub keep: Vec<bool>,
    /// The presence bits, moved to where the rows are now counted.
    pub have: Vec<u8>,
}

// -------------------------------------------------------------- assignments

/// Units of region `c` that stand in a list move to region `fresh`.
pub open spec fn moved(of: Seq<u32>, c: u32, list: Seq<u32>, fresh: u32) -> Seq<u32> {
    Seq::new(
        of.len(),
        |u: int|
            if of[u] == c && list.contains(u as u32) {
                fresh
            } else {
                of[u]
            },
    )
}

/// The assignment after the first `n` cuts, and the next free region.
pub open spec fn cut_of(of: Seq<u32>, cuts: Seq<(u32, Vec<u32>)>, n: int, base: int) -> (
    Seq<u32>,
    int,
)
    decreases n,
{
    if n <= 0 {
        (of, base)
    } else {
        let (o, next) = cut_of(of, cuts, n - 1, base);
        let list = cuts[n - 1].1@;
        if list.len() == 0 {
            (o, next)
        } else {
            (moved(o, cuts[n - 1].0, list, next as u32), next + 1)
        }
    }
}

/// The regions that the first `n` cuts split, in order: where each fresh one
/// came from.
pub open spec fn origins(cuts: Seq<(u32, Vec<u32>)>, n: int) -> Seq<u32>
    decreases n,
{
    if n <= 0 {
        Seq::empty()
    } else if cuts[n - 1].1@.len() == 0 {
        origins(cuts, n - 1)
    } else {
        origins(cuts, n - 1).push(cuts[n - 1].0)
    }
}

proof fn lemma_cut_of(of: Seq<u32>, cuts: Seq<(u32, Vec<u32>)>, n: int, base: int)
    requires
        0 <= n,
        base >= 0,
    ensures
        cut_of(of, cuts, n, base).0.len() == of.len(),
        cut_of(of, cuts, n, base).1 == base + origins(cuts, n).len(),
        origins(cuts, n).len() <= n,
    decreases n,
{
    if n > 0 {
        lemma_cut_of(of, cuts, n - 1, base);
    }
}

proof fn lemma_cut_range(of: Seq<u32>, cuts: Seq<(u32, Vec<u32>)>, n: int, base: int)
    requires
        0 <= n,
        0 <= base,
        base + n <= u32::MAX,
        forall|u: int| 0 <= u < of.len() ==> (#[trigger] of[u]) < base,
    ensures
        forall|u: int|
            0 <= u < of.len() ==> (#[trigger] cut_of(of, cuts, n, base).0[u]) < cut_of(
                of,
                cuts,
                n,
                base,
            ).1,
    decreases n,
{
    if n > 0 {
        lemma_cut_of(of, cuts, n - 1, base);
        lemma_cut_range(of, cuts, n - 1, base);
        let (o, next) = cut_of(of, cuts, n - 1, base);
        assert forall|u: int| 0 <= u < of.len() implies (#[trigger] cut_of(of, cuts, n, base).0[u])
            < cut_of(of, cuts, n, base).1 by {
            assert(o[u] < next);
        }
    }
}

/// The region of level `k` that a vertex belongs to when the levels from
/// `base` on are assigned anew.
pub open spec fn new_at(l: Ladder, base: int, ofs: Seq<Seq<u32>>, k: int, v: int) -> int
    decreases k,
{
    if k <= 0 {
        if base == 0 {
            ofs[0][v] as int
        } else {
            l[0].of[v] as int
        }
    } else {
        let c = new_at(l, base, ofs, k - 1, v);
        if k >= base {
            ofs[k - base][c] as int
        } else {
            l[k].of[c] as int
        }
    }
}

pub open spec fn views(v: Seq<Vec<u32>>) -> Seq<Seq<u32>> {
    Seq::new(v.len(), |i: int| v[i]@)
}

/// The number of regions of level `k` when the levels from `base` on are
/// assigned anew: only level `base` gains any.
pub open spec fn new_regions(l: Ladder, base: int, cells: int, k: int) -> int {
    if k == base {
        cells
    } else {
        regions(l[k])
    }
}

/// New assignments that fit together, up to level `k`.
pub open spec fn assigned(l: Ladder, base: int, ofs: Seq<Seq<u32>>, cells: int, k: int) -> bool {
    &&& ladder_ok(l)
    &&& 0 <= base <= k < l.len()
    &&& ofs.len() > k - base
    &&& regions(l[base]) <= cells
    &&& forall|j: int|
        base <= j <= k ==> (#[trigger] ofs[j - base]).len() == (if j == 0 {
            l[0].of.len() as int
        } else {
            new_regions(l, base, cells, j - 1)
        })
    &&& forall|j: int, u: int|
        base <= j <= k && 0 <= u < ofs[j - base].len() ==> (#[trigger] ofs[j - base][u])
            < new_regions(l, base, cells, j)
}

pub proof fn lemma_new_bound(l: Ladder, base: int, ofs: Seq<Seq<u32>>, cells: int, top: int, k: int, v: int)
    requires
        assigned(l, base, ofs, cells, top),
        0 <= k <= top,
        0 <= v < l[0].of.len(),
    ensures
        0 <= new_at(l, base, ofs, k, v) < new_regions(l, base, cells, k),
    decreases k,
{
    lemma_rung(l, k);
    if k > 0 {
        lemma_new_bound(l, base, ofs, cells, top, k - 1, v);
        let c = new_at(l, base, ofs, k - 1, v);
        if k >= base {
            assert(ofs[k - base].len() == new_regions(l, base, cells, k - 1));
            assert(ofs[k - base][c] < new_regions(l, base, cells, k));
        } else {
            assert(l[k].of[c] < regions(l[k]));
        }
    } else {
        if base == 0 {
            assert(ofs[0 - base].len() == l[0].of.len());
            assert(ofs[0 - base][v] < new_regions(l, base, cells, 0));
        } else {
            assert(l[0].of[v] < regions(l[0]));
        }
    }
}

/// Walks a vertex up through whichever assignment applies at each rung.
fn find_new(ov: &Overlay, base: usize, ofs: &Vec<Vec<u32>>, k: usize, v: u32, Ghost(cells): Ghost<int>) -> (c:
    u32)
    requires
        ov.wf(),
        assigned(ov.ladder(), base as int, views(ofs@), cells, k as int),
        v < ov.ladder()[0].of.len(),
    ensures
        c == new_at(ov.ladder(), base as int, views(ofs@), k as int, v as int),
        c < new_regions(ov.ladder(), base as int, cells, k as int),
{
    let ghost l = ov.ladder();
    let ghost os = views(ofs@);
    let n: usize = ov.levels.len();
    proof {
        lemma_rung(l, 0);
        lemma_new_bound(l, base as int, os, cells, k as int, 0, v as int);
        if base == 0 {
            assert(os[0 - base].len() == l[0].of.len());
            assert(ofs@[0]@ == os[0]);
        }
    }
    let mut c: u32 = if base == 0 {
        ofs[0][v as usize]
    } else {
        ov.cell(v)
    };
    let mut j: usize = 1;
    while j <= k
        invariant
            ov.wf(),
            l == ov.ladder(),
            os == views(ofs@),
            assigned(l, base as int, os, cells, k as int),
            v < l[0].of.len(),
            n == l.len(),
            k < n,
            1 <= j <= k + 1,
            c == new_at(l, base as int, os, j - 1, v as int),
            c < new_regions(l, base as int, cells, j - 1),
        decreases k + 1 - j,
    {
        proof {
            lemma_rung(l, j as int);
            lemma_new_bound(l, base as int, os, cells, k as int, j as int, v as int);
            assert(ov.levels@[j as int].rung() == l[j as int]);
        }
        if j >= base {
            proof {
                assert(os[j - base].len() == new_regions(l, base as int, cells, j - 1));
                assert(ofs@[j - base]@ == os[j - base]);
            }
            c = ofs[j - base][c as usize];
        } else {
            c = ov.level(j).parent(c);
        }
        j += 1;
    }
    c
}

/// An edge of `v` leaves its new region.
pub open spec fn leaves_new(
    ds: Dataset,
    l: Ladder,
    base: int,
    ofs: Seq<Seq<u32>>,
    k: int,
    v: u32,
) -> bool {
    exists|fwd: bool, t: int|
        #[trigger] is_edge(ds, fwd, v, t) && new_at(
            l,
            base,
            ofs,
            k,
            far_end(ds, fwd, v, t) as int,
        ) != new_at(l, base, ofs, k, v as int)
}

/// The units of a list that belong to region `c`.
pub open spec fn in_new(
    l: Ladder,
    base: int,
    ofs: Seq<Seq<u32>>,
    k: int,
    pool: Seq<u32>,
) -> spec_fn(int, u32) -> bool {
    |c: int, v: u32| pool.contains(v) && new_at(l, base, ofs, k, v as int) == c
}

/// Those of them that have an edge out of it.
pub open spec fn rim_new(
    ds: Dataset,
    l: Ladder,
    base: int,
    ofs: Seq<Seq<u32>>,
    k: int,
    pool: Seq<u32>,
) -> spec_fn(int, u32) -> bool {
    |c: int, v: u32|
        pool.contains(v) && new_at(l, base, ofs, k, v as int) == c && leaves_new(
            ds,
            l,
            base,
            ofs,
            k,
            v,
        )
}

fn edge_leaves(
    ds: &Dataset,
    ov: &Overlay,
    base: usize,
    ofs: &Vec<Vec<u32>>,
    k: usize,
    u: u32,
    c: u32,
    fwd: bool,
    Ghost(cells): Ghost<int>,
) -> (r: bool)
    requires
        ds.graph_ok(),
        ov.wf(),
        ds.nv() == ov.ladder()[0].of.len(),
        assigned(ov.ladder(), base as int, views(ofs@), cells, k as int),
        u < ds.nv(),
        c == new_at(ov.ladder(), base as int, views(ofs@), k as int, u as int),
    ensures
        r == exists|t: int|
            #[trigger] is_edge(*ds, fwd, u, t) && new_at(
                ov.ladder(),
                base as int,
                views(ofs@),
                k as int,
                far_end(*ds, fwd, u, t) as int,
            ) != c,
{
    let ghost l = ov.ladder();
    let ghost os = views(ofs@);
    let ghost head = edge_head(*ds, fwd);
    let hs: &[u32] = if fwd {
        ds.head
    } else {
        ds.rhead
    };
    assert(head[u + 1] <= head[head.len() - 1]);
    let (a, e): (usize, usize) = (hs[u as usize] as usize, hs[u as usize + 1] as usize);
    let mut t: usize = a;
    while t < e
        invariant
            ds.graph_ok(),
            ov.wf(),
            l == ov.ladder(),
            os == views(ofs@),
            ds.nv() == l[0].of.len(),
            assigned(l, base as int, os, cells, k as int),
            u < ds.nv(),
            head == edge_head(*ds, fwd),
            a == head[u as int],
            e == head[u + 1],
            a <= t <= e,
            e <= (if fwd { ds.eseg@.len() } else { ds.rseg@.len() }),
            forall|x: int|
                a <= x < t ==> new_at(
                    l,
                    base as int,
                    os,
                    k as int,
                    (#[trigger] far_end(*ds, fwd, u, x)) as int,
                ) == c,
        decreases e - t,
    {
        let v: u32 = if fwd {
            ds.target(u, t)
        } else {
            ds.rtarget(u, t)
        };
        proof {
            assert(v == far_end(*ds, fwd, u, t as int));
            assert(v < ds.nv());
            assert(is_edge(*ds, fwd, u, t as int));
        }
        if find_new(ov, base, ofs, k, v, Ghost(cells)) != c {
            return true;
        }
        t += 1;
    }
    proof {
        assert forall|x: int| #[trigger] is_edge(*ds, fwd, u, x) implies new_at(
            l,
            base as int,
            os,
            k as int,
            far_end(*ds, fwd, u, x) as int,
        ) == c by {
            assert(a <= x < e);
        }
    }
    false
}

/// Boundary and member lists of a level under new assignments, over the
/// vertices of `pool`.
#[verifier::rlimit(40)]
fn rebuild_index_at(
    ds: &Dataset,
    ov: &Overlay,
    base: usize,
    target: usize,
    ofs: &Vec<Vec<u32>>,
    ncells: usize,
    pool: &[u32],
    Ghost(cells): Ghost<int>,
) -> (r: (Vec<u32>, Vec<u32>, Vec<u32>, Vec<u32>))
    requires
        ds.graph_ok(),
        ov.wf(),
        ds.nv() == ov.ladder()[0].of.len(),
        assigned(ov.ladder(), base as int, views(ofs@), cells, target as int),
        ncells == new_regions(ov.ladder(), base as int, cells, target as int),
        ncells < u32::MAX,
        pool@.len() <= u32::MAX,
        forall|i: int| 0 <= i < pool@.len() ==> (#[trigger] pool@[i]) < ds.nv(),
    ensures
        lists(
            r.0@,
            r.1@,
            ncells as int,
            rim_new(
                *ds,
                ov.ladder(),
                base as int,
                views(ofs@),
                target as int,
                pool@,
            ),
        ),
        lists(
            r.2@,
            r.3@,
            ncells as int,
            in_new(ov.ladder(), base as int, views(ofs@), target as int, pool@),
        ),
        r.1@.len() <= pool@.len(),
        r.3@.len() <= pool@.len(),
{
    let ghost l = ov.ladder();
    let ghost os = views(ofs@);
    let ghost b = base as int;
    let ghost k = target as int;
    let mut members: Vec<(u32, u32)> = Vec::new();
    let mut rim: Vec<(u32, u32)> = Vec::new();
    let mut i: usize = 0;
    while i < pool.len()
        invariant
            ds.graph_ok(),
            ov.wf(),
            l == ov.ladder(),
            os == views(ofs@),
            b == base,
            k == target,
            ds.nv() == l[0].of.len(),
            assigned(l, b, os, cells, k),
            ncells == new_regions(l, b, cells, k),
            forall|i: int| 0 <= i < pool@.len() ==> (#[trigger] pool@[i]) < ds.nv(),
            i <= pool@.len(),
            members@.len() == i,
            rim@.len() <= i,
            forall|x: int|
                0 <= x < i ==> #[trigger] members@[x] == (
                    new_at(l, b, os, k, pool@[x] as int) as u32,
                    pool@[x],
                ) && members@[x].0 < ncells,
            forall|x: int|
                0 <= x < rim@.len() ==> members@.contains(#[trigger] rim@[x]) && leaves_new(
                    *ds,
                    l,
                    b,
                    os,
                    k,
                    rim@[x].1,
                ),
            forall|x: int|
                0 <= x < i && leaves_new(*ds, l, b, os, k, pool@[x]) ==> rim@.contains(
                    #[trigger] members@[x],
                ),
        decreases pool@.len() - i,
    {
        let u: u32 = pool[i];
        let c: u32 = find_new(ov, base, ofs, target, u, Ghost(cells));
        let ghost (m0, r0) = (members@, rim@);
        members.push((c, u));
        let out0: bool = edge_leaves(ds, ov, base, ofs, target, u, c, true, Ghost(cells));
        let out: bool = out0 || edge_leaves(ds, ov, base, ofs, target, u, c, false, Ghost(cells));
        proof {
            assert(out == leaves_new(*ds, l, b, os, k, u)) by {
                if leaves_new(*ds, l, b, os, k, u) {
                    let (fwd, t) = choose|fwd: bool, t: int|
                        #[trigger] is_edge(*ds, fwd, u, t) && new_at(
                            l,
                            b,
                            os,
                            k,
                            far_end(*ds, fwd, u, t) as int,
                        ) != new_at(l, b, os, k, u as int);
                    if fwd {
                        assert(is_edge(*ds, true, u, t));
                    } else {
                        assert(is_edge(*ds, false, u, t));
                    }
                }
            }
        }
        if out {
            rim.push((c, u));
        }
        proof {
            assert(members@[i as int] == (c, u));
            assert forall|x: int| 0 <= x < rim@.len() implies members@.contains(#[trigger] rim@[x])
                && leaves_new(*ds, l, b, os, k, rim@[x].1) by {
                if x < r0.len() {
                    assert(m0.contains(r0[x]));
                    let y = m0.index_of(r0[x]);
                    assert(members@[y] == rim@[x]);
                }
            }
            assert forall|x: int|
                0 <= x < i + 1 && leaves_new(*ds, l, b, os, k, pool@[x]) implies rim@.contains(
                #[trigger] members@[x],
            ) by {
                if x < i {
                    assert(r0.contains(m0[x]));
                    let y = r0.index_of(m0[x]);
                    assert(rim@[y] == members@[x]);
                } else {
                    assert(rim@[r0.len() as int] == members@[x]);
                }
            }
        }
        i += 1;
    }
    let ghost (m0, r0) = (members@, rim@);
    proof {
        assert forall|x: int| 0 <= x < r0.len() implies (#[trigger] r0[x]).0 < ncells by {
            assert(m0.contains(r0[x]));
            let y = m0.index_of(r0[x]);
            assert(m0[y].0 < ncells);
        }
        assert forall|x: int| 0 <= x < m0.len() implies (#[trigger] m0[x]).0 < ncells by {}
    }
    let (vhead, vlist): (Vec<u32>, Vec<u32>) = listing(members, ncells);
    let (bhead, blist): (Vec<u32>, Vec<u32>) = listing(rim, ncells);
    proof {
        let n = ncells as int;
        let pa = |c: int, v: u32| m0.contains((c as u32, v));
        let pr = |c: int, v: u32| r0.contains((c as u32, v));
        let qa = in_new(l, b, os, k, pool@);
        let qr = rim_new(*ds, l, b, os, k, pool@);
        assert forall|c: int, v: u32| 0 <= c < n implies #[trigger] pa(c, v) == #[trigger] qa(c, v) by {
            if pa(c, v) {
                let x = m0.index_of((c as u32, v));
                assert(m0[x].1 == pool@[x]);
                lemma_new_bound(l, b, os, cells, k, k, v as int);
            }
            if qa(c, v) {
                let x = pool@.index_of(v);
                assert(m0[x] == (c as u32, v));
            }
        }
        assert forall|c: int, v: u32| 0 <= c < n implies #[trigger] pr(c, v) == #[trigger] qr(c, v) by {
            if pr(c, v) {
                let y = r0.index_of((c as u32, v));
                assert(m0.contains(r0[y]));
                assert(pa(c, v));
                assert(qa(c, v));
            }
            if qr(c, v) {
                let x = pool@.index_of(v);
                assert(m0[x] == (c as u32, v));
                assert(r0.contains(m0[x]));
            }
        }
        crate::overlay::ground::lemma_lists_same(vhead@, vlist@, n, pa, qa);
        crate::overlay::ground::lemma_lists_same(bhead@, blist@, n, pr, qr);
    }
    (bhead, blist, vhead, vlist)
}

// ---------------------------------------------------------------- one level

/// One of the cuts splits the region.
pub open spec fn is_cut(cuts: Seq<(u32, Vec<u32>)>, c: int) -> bool {
    exists|i: int| 0 <= i < cuts.len() && (#[trigger] cuts[i]).0 == c && cuts[i].1@.len() > 0
}

/// Where the table of region `c` goes when it is not kept: behind the old
/// tables, after those of the dropped regions before it.
pub open spec fn place(end: int, bhead: Seq<u32>, keep: Seq<bool>, c: int) -> int
    decreases c,
{
    if c <= 0 {
        end
    } else {
        place(end, bhead, keep, c - 1) + if keep[c - 1] {
            0
        } else {
            2 * ((bhead[c] - bhead[c - 1]) * (bhead[c] - bhead[c - 1]))
        }
    }
}

/// The rows of the regions before `c` that are kept, or that are not.
pub open spec fn rows_of(bhead: Seq<u32>, keep: Seq<bool>, kept: bool, c: int) -> int
    decreases c,
{
    if c <= 0 {
        0
    } else {
        rows_of(bhead, keep, kept, c - 1) + if keep[c - 1] == kept {
            bhead[c] - bhead[c - 1]
        } else {
            0
        }
    }
}

/// The presence bit of row `i` of region `c`.
pub open spec fn slot(bhead: Seq<u32>, rows: int, c: int, i: int, fwd: bool) -> int {
    bhead[c] + i + if fwd {
        0
    } else {
        rows
    }
}

/// The level held the row.
pub open spec fn held(lv: Level, c: int, i: int, fwd: bool) -> bool {
    lv.values is Lazy && lv.lazy().has(lv.bhead@[c] + i, fwd)
}

/// A level laid out anew over new gate lists: a region that was there, is not
/// cut and has the gates it had keeps its table and its presence bits; every
/// other one starts empty, behind the old tables.
pub open spec fn relaid(
    lv: Level,
    cut: Seq<bool>,
    bhead: Seq<u32>,
    bnd: Seq<u32>,
    keep: Seq<bool>,
    head: Seq<u64>,
    have: Seq<u8>,
) -> bool {
    let r = lv.rung();
    let n = bhead.len() - 1;
    let rows = bnd.len() as int;
    &&& keep.len() == n
    &&& forall|c: int|
        0 <= c < n ==> #[trigger] keep[c] == (c < regions(r) && !cut[c] && gates(r, c) == block(
            bhead,
            bnd,
            c,
        ))
    &&& head.len() == n + 1
    &&& forall|c: int|
        0 <= c < n ==> #[trigger] head[c] == if keep[c] {
            r.head[c] as int
        } else {
            place(r.head[regions(r)] as int, bhead, keep, c)
        }
    &&& head[n] == place(r.head[regions(r)] as int, bhead, keep, n)
    &&& have.len() == (2 * rows + 7) / 8
    &&& forall|c: int, i: int, fwd: bool|
        0 <= c < n && 0 <= i < bhead[c + 1] - bhead[c] ==> #[trigger] has_bit(
            have,
            slot(bhead, rows, c, i, fwd),
        ) == (keep[c] && held(lv, c, i, fwd))
    &&& forall|b: int| 2 * rows <= b < 8 * have.len() ==> !#[trigger] has_bit(have, b)
}

fn same_block(old: &[u32], list: &Vec<u32>, a: usize, b: usize) -> (r: bool)
    requires
        a <= b <= list@.len(),
    ensures
        r == (old@ == list@.subrange(a as int, b as int)),
{
    let ghost s = list@.subrange(a as int, b as int);
    if old.len() != b - a {
        return false;
    }
    let mut i: usize = 0;
    while i < old.len()
        invariant
            s == list@.subrange(a as int, b as int),
            a <= b <= list@.len(),
            old@.len() == b - a,
            i <= old@.len(),
            forall|x: int| 0 <= x < i ==> old@[x] == s[x],
        decreases old@.len() - i,
    {
        assert(s[i as int] == list@[a + i]);
        if old[i] != list[a + i] {
            return false;
        }
        i += 1;
    }
    assert(old@ =~= s);
    true
}

fn mark(have: &mut Vec<u8>, n: usize)
    requires
        n < 8 * old(have)@.len(),
    ensures
        final(have)@.len() == old(have)@.len(),
        forall|m: int|
            0 <= m < 8 * old(have)@.len() ==> #[trigger] has_bit(final(have)@, m) == (has_bit(
                old(have)@,
                m,
            ) || m == n),
{
    let ghost h0 = have@;
    let w: u8 = have[n / 8] | (1u8 << ((n % 8) as u8));
    have.set(n / 8, w);
    proof {
        assert forall|m: int| 0 <= m < 8 * h0.len() implies #[trigger] has_bit(have@, m) == (has_bit(
            h0,
            m,
        ) || m == n) by {
            lemma_set8(h0[n as int / 8], (n % 8) as u8, (m % 8) as u8);
        }
    }
}

proof fn lemma_place(end: int, bhead: Seq<u32>, keep: Seq<bool>, c: int)
    requires
        0 <= c < bhead.len(),
        bhead.len() == keep.len() + 1,
        forall|i: int, j: int| 0 <= i <= j < bhead.len() ==> bhead[i] <= bhead[j],
    ensures
        end <= place(end, bhead, keep, c) <= end + 2 * (bhead[c] * bhead[c]),
    decreases c,
{
    if c > 0 {
        lemma_place(end, bhead, keep, c - 1);
        let (x, y) = (bhead[c - 1] as int, bhead[c] as int);
        assert(x <= y);
        assert(0 <= (y - x) * (y - x) && x * x + (y - x) * (y - x) <= y * y) by (nonlinear_arith)
            requires
                0 <= x <= y,
        ;
    } else {
        assert(0 <= bhead[0] * bhead[0]) by (nonlinear_arith)
            requires
                0 <= bhead[0],
        ;
    }
}

proof fn lemma_rows_of(bhead: Seq<u32>, keep: Seq<bool>, kept: bool, c: int)
    requires
        0 <= c < bhead.len(),
        forall|i: int, j: int| 0 <= i <= j < bhead.len() ==> bhead[i] <= bhead[j],
    ensures
        0 <= rows_of(bhead, keep, kept, c) <= bhead[c],
    decreases c,
{
    if c > 0 {
        lemma_rows_of(bhead, keep, kept, c - 1);
        assert(bhead[c - 1] <= bhead[c]);
    }
}

/// Which regions keep exactly the boundary they had.
fn kept_regions(lv: &Level, cut: &Vec<bool>, bhead: &Vec<u32>, bnd: &Vec<u32>) -> (keep: Vec<bool>)
    requires
        bhead@.len() >= 1,
        head_ok(bhead@, bnd@.len() as int),
        lv.bhead@.len() >= 1,
        regions(lv.rung()) <= u32::MAX,
        head_ok(lv.bhead@, lv.bnd@.len() as int),
        cut@.len() == regions(lv.rung()),
    ensures
        keep@.len() == bhead@.len() - 1,
        forall|c: int|
            0 <= c < keep@.len() ==> #[trigger] keep@[c] == (c < regions(lv.rung()) && !cut@[c]
                && gates(lv.rung(), c) == block(bhead@, bnd@, c)),
{
    let n: usize = bhead.len() - 1;
    let old: usize = lv.regions();
    let mut keep: Vec<bool> = Vec::new();
    while keep.len() < n
        invariant
            n == bhead@.len() - 1,
            old == regions(lv.rung()),
            old <= u32::MAX,
            lv.bhead@.len() >= 1,
            head_ok(bhead@, bnd@.len() as int),
            head_ok(lv.bhead@, lv.bnd@.len() as int),
            cut@.len() == old,
            keep@.len() <= n,
            forall|c: int|
                0 <= c < keep@.len() ==> #[trigger] keep@[c] == (c < old && !cut@[c] && gates(
                    lv.rung(),
                    c,
                ) == block(bhead@, bnd@, c)),
        decreases n - keep@.len(),
    {
        let c: usize = keep.len();
        let mut same: bool = false;
        if c < old && !cut[c] {
            assert(bhead@[c as int] <= bhead@[c + 1] <= bhead@[n as int]);
            same = same_block(
                lv.boundary(c as u32),
                bnd,
                bhead[c] as usize,
                bhead[c + 1] as usize,
            );
        }
        keep.push(same);
    }
    keep
}

/// Kept regions hold their offsets, the rest are appended.
fn kept_heads(lv: &Level, keep: &Vec<bool>, bhead: &Vec<u32>) -> (head: Vec<u64>)
    requires
        bhead@.len() == keep@.len() + 1,
        forall|i: int, j: int| 0 <= i <= j < bhead@.len() ==> bhead@[i] <= bhead@[j],
        bhead@[bhead@.len() - 1] <= 0x7FFF_FFFF,
        lv.bhead@.len() >= 1,
        lv.head@.len() == regions(lv.rung()) + 1,
        lv.head@[regions(lv.rung())] <= 0x7FFF_FFFF_FFFF_FFFF,
        forall|c: int| 0 <= c < keep@.len() && keep@[c] ==> c < regions(lv.rung()),
    ensures
        head@.len() == bhead@.len(),
        forall|c: int|
            0 <= c < keep@.len() ==> #[trigger] head@[c] == if keep@[c] {
                lv.head@[c] as int
            } else {
                place(lv.head@[regions(lv.rung())] as int, bhead@, keep@, c)
            },
        head@[keep@.len() as int] == place(
            lv.head@[regions(lv.rung())] as int,
            bhead@,
            keep@,
            keep@.len() as int,
        ),
{
    let n: usize = keep.len();
    let old: usize = lv.regions();
    let ghost end = lv.head@[old as int] as int;
    let mut acc: u64 = lv.head[old];
    let mut head: Vec<u64> = Vec::new();
    while head.len() < n
        invariant
            n == keep@.len(),
            old == regions(lv.rung()),
            bhead@.len() == n + 1,
            forall|i: int, j: int| 0 <= i <= j < bhead@.len() ==> bhead@[i] <= bhead@[j],
            bhead@[n as int] <= 0x7FFF_FFFF,
            lv.head@.len() == old + 1,
            end == lv.head@[old as int],
            end <= 0x7FFF_FFFF_FFFF_FFFF,
            forall|c: int| 0 <= c < keep@.len() && keep@[c] ==> c < old,
            head@.len() <= n,
            acc == place(end, bhead@, keep@, head@.len() as int),
            forall|c: int|
                0 <= c < head@.len() ==> #[trigger] head@[c] == if keep@[c] {
                    lv.head@[c] as int
                } else {
                    place(end, bhead@, keep@, c)
                },
        decreases n - head@.len(),
    {
        let c: usize = head.len();
        assert(bhead@[c as int] <= bhead@[c + 1] <= bhead@[n as int]);
        let b: u64 = (bhead[c + 1] - bhead[c]) as u64;
        if keep[c] {
            head.push(lv.head[c]);
        } else {
            proof {
                lemma_place(end, bhead@, keep@, c + 1);
                let y = bhead@[c + 1] as int;
                assert(2 * (y * y) <= 2 * (0x7FFF_FFFFint * 0x7FFF_FFFFint)) by (nonlinear_arith)
                    requires
                        0 <= y <= 0x7FFF_FFFF,
                ;
                lemma_place(end, bhead@, keep@, c as int);
                assert(0 <= b * b <= 0x7FFF_FFFFint * 0x7FFF_FFFFint) by (nonlinear_arith)
                    requires
                        0 <= b <= 0x7FFF_FFFF,
                ;
            }
            head.push(acc);
            acc = acc + 2 * (b * b);
        }
    }
    head.push(acc);
    head
}

/// The presence bitmap, remapped: a kept region's rows are addressed through
/// the new gate heads, so their bits move with them.
#[verifier::rlimit(40)]
fn kept_bits(lv: &Level, keep: &Vec<bool>, bhead: &Vec<u32>, rows: usize) -> (have: Vec<u8>)
    requires
        lv.blocks_ok(),
        lv.bhead@.len() >= 1,
        head_ok(lv.bhead@, lv.bnd@.len() as int),
        bhead@.len() == keep@.len() + 1,
        bhead@[0] == 0,
        head_ok(bhead@, rows as int),
        rows <= 0x7FFF_FFFF,
        forall|c: int|
            0 <= c < keep@.len() && #[trigger] keep@[c] ==> c < regions(lv.rung()) && bhead@[c + 1]
                - bhead@[c] == lv.bhead@[c + 1] - lv.bhead@[c],
    ensures
        have@.len() == (2 * rows + 7) / 8,
        forall|c: int, i: int, fwd: bool|
            0 <= c < keep@.len() && 0 <= i < bhead@[c + 1] - bhead@[c] ==> #[trigger] has_bit(
                have@,
                slot(bhead@, rows as int, c, i, fwd),
            ) == (keep@[c] && held(*lv, c, i, fwd)),
        forall|b: int| 2 * rows <= b < 8 * have@.len() ==> !#[trigger] has_bit(have@, b),
{
    let extra: usize = if rows % 4 == 0 {
        0
    } else {
        1
    };
    let bytes: usize = rows / 4 + extra;
    let mut have: Vec<u8> = vec![0u8; bytes];
    proof {
        assert forall|b: int| 0 <= b < 8 * have@.len() implies !#[trigger] has_bit(have@, b) by {
            lemma_set8(0, 0, (b % 8) as u8);
        }
    }
    let n: usize = keep.len();
    let ghost nr = rows as int;
    let mut c: usize = 0;
    while c < n
        invariant
            lv.blocks_ok(),
            lv.bhead@.len() >= 1,
            head_ok(lv.bhead@, lv.bnd@.len() as int),
            n == keep@.len(),
            nr == rows,
            bhead@.len() == n + 1,
            head_ok(bhead@, rows as int),
            rows <= 0x7FFF_FFFF,
            forall|c: int|
                0 <= c < keep@.len() && #[trigger] keep@[c] ==> c < regions(lv.rung()) && bhead@[c
                    + 1] - bhead@[c] == lv.bhead@[c + 1] - lv.bhead@[c],
            c <= n,
            have@.len() == (2 * rows + 7) / 8,
            forall|d: int, i: int, fwd: bool|
                0 <= d < c && 0 <= i < bhead@[d + 1] - bhead@[d] ==> #[trigger] has_bit(
                    have@,
                    slot(bhead@, nr, d, i, fwd),
                ) == (keep@[d] && held(*lv, d, i, fwd)),
            forall|b: int|
                bhead@[c as int] <= b < rows || bhead@[c as int] + rows <= b < 8 * have@.len()
                    ==> !#[trigger] has_bit(have@, b),
        decreases n - c,
    {
        assert(bhead@[c as int] <= bhead@[c + 1] <= bhead@[n as int]);
        if keep[c] {
            match &lv.values {
                Values::Lazy(z) => {
                    assert(lv.bhead@[c + 1] <= lv.bhead@[lv.bhead@.len() - 1]);
                    let b: usize = (bhead[c + 1] - bhead[c]) as usize;
                    let oa: usize = lv.bhead[c] as usize;
                    let na: usize = bhead[c] as usize;
                    let mut i: usize = 0;
                    while i < b
                        invariant
                            lv.blocks_ok(),
                            n == keep@.len(),
                            nr == rows,
                            c < n,
                            bhead@.len() == n + 1,
                            head_ok(bhead@, rows as int),
                            rows <= 0x7FFF_FFFF,
                            keep@[c as int],
                            lv.values is Lazy,
                            *z == lv.lazy(),
                            z.bits_ok(),
                            z.rows == lv.bnd@.len(),
                            oa == lv.bhead@[c as int],
                            oa + b <= lv.bnd@.len(),
                            na == bhead@[c as int],
                            na + b == bhead@[c + 1],
                            na + b <= rows,
                            i <= b,
                            have@.len() == (2 * rows + 7) / 8,
                            forall|d: int, x: int, fwd: bool|
                                0 <= d < c && 0 <= x < bhead@[d + 1] - bhead@[d]
                                    ==> #[trigger] has_bit(have@, slot(bhead@, nr, d, x, fwd)) == (
                                keep@[d] && held(*lv, d, x, fwd)),
                            forall|x: int, fwd: bool|
                                0 <= x < i ==> #[trigger] has_bit(
                                    have@,
                                    slot(bhead@, nr, c as int, x, fwd),
                                ) == held(*lv, c as int, x, fwd),
                            forall|b: int|
                                na + i <= b < rows || na + i + rows <= b < 8 * have@.len()
                                    ==> !#[trigger] has_bit(have@, b),
                        decreases b - i,
                    {
                        let ghost h0 = have@;
                        let f: bool = z.bit(oa + i, true);
                        let g: bool = z.bit(oa + i, false);
                        if f {
                            mark(&mut have, na + i);
                        }
                        if g {
                            mark(&mut have, rows + na + i);
                        }
                        proof {
                            assert(has_bit(h0, na + i) == false);
                            assert(has_bit(h0, na + i + rows) == false);
                            assert forall|m: int| 0 <= m < 8 * h0.len() implies #[trigger] has_bit(
                                have@,
                                m,
                            ) == (has_bit(h0, m) || (f && m == na + i) || (g && m == rows + na
                                + i)) by {}
                            assert forall|d: int, x: int, fwd: bool|
                                0 <= d < c && 0 <= x < bhead@[d + 1]
                                    - bhead@[d] implies #[trigger] has_bit(
                                have@,
                                slot(bhead@, nr, d, x, fwd),
                            ) == (keep@[d] && held(*lv, d, x, fwd)) by {
                                assert(bhead@[d + 1] <= bhead@[c as int]);
                                assert(has_bit(h0, slot(bhead@, nr, d, x, fwd)) == (keep@[d]
                                    && held(*lv, d, x, fwd)));
                            }
                            assert forall|x: int, fwd: bool| 0 <= x < i + 1 implies #[trigger] has_bit(
                                have@,
                                slot(bhead@, nr, c as int, x, fwd),
                            ) == held(*lv, c as int, x, fwd) by {
                                if x < i {
                                    assert(has_bit(h0, slot(bhead@, nr, c as int, x, fwd)) == held(
                                        *lv,
                                        c as int,
                                        x,
                                        fwd,
                                    ));
                                }
                            }
                        }
                        i += 1;
                    }
                    proof {
                        assert forall|d: int, x: int, fwd: bool|
                            0 <= d < c + 1 && 0 <= x < bhead@[d + 1]
                                - bhead@[d] implies #[trigger] has_bit(
                            have@,
                            slot(bhead@, nr, d, x, fwd),
                        ) == (keep@[d] && held(*lv, d, x, fwd)) by {
                            if d == c {
                                assert(has_bit(have@, slot(bhead@, nr, c as int, x, fwd)) == held(
                                    *lv,
                                    c as int,
                                    x,
                                    fwd,
                                ));
                            }
                        }
                    }
                },
                Values::Eager { .. } => {
                    proof {
                        assert forall|x: int, fwd: bool|
                            0 <= x < bhead@[c + 1] - bhead@[c as int] implies !#[trigger] has_bit(
                            have@,
                            slot(bhead@, nr, c as int, x, fwd),
                        ) by {}
                    }
                },
            }
        } else {
            proof {
                assert forall|x: int, fwd: bool|
                    0 <= x < bhead@[c + 1] - bhead@[c as int] implies !#[trigger] has_bit(
                    have@,
                    slot(bhead@, nr, c as int, x, fwd),
                ) by {}
            }
        }
        c += 1;
    }
    have
}

/// The rows of the regions that are kept, and of those that are not.
fn row_counts(keep: &Vec<bool>, bhead: &Vec<u32>) -> (r: (u64, u64))
    requires
        bhead@.len() == keep@.len() + 1,
        forall|i: int, j: int| 0 <= i <= j < bhead@.len() ==> bhead@[i] <= bhead@[j],
    ensures
        r.0 == rows_of(bhead@, keep@, true, keep@.len() as int),
        r.1 == rows_of(bhead@, keep@, false, keep@.len() as int),
        r.0 <= u32::MAX,
        r.1 <= u32::MAX,
{
    let (mut a, mut b): (u64, u64) = (0, 0);
    let mut c: usize = 0;
    while c < keep.len()
        invariant
            bhead@.len() == keep@.len() + 1,
            forall|i: int, j: int| 0 <= i <= j < bhead@.len() ==> bhead@[i] <= bhead@[j],
            c <= keep@.len(),
            a == rows_of(bhead@, keep@, true, c as int),
            b == rows_of(bhead@, keep@, false, c as int),
            a <= u32::MAX,
            b <= u32::MAX,
        decreases keep@.len() - c,
    {
        proof {
            assert(bhead@[c as int] <= bhead@[c + 1]);
            lemma_rows_of(bhead@, keep@, true, c + 1);
            lemma_rows_of(bhead@, keep@, false, c + 1);
        }
        let w: u64 = (bhead[c + 1] - bhead[c]) as u64;
        if keep[c] {
            a = a + w;
        } else {
            b = b + w;
        }
        c += 1;
    }
    (a, b)
}

// ---------------------------------------------------------------- the split

/// A level split, with what became of every level from it on.
pub struct Split {
    pub levels: Vec<LevelUpdate>,
    pub stats: SplitStats,
}

/// The cuts name regions of the level and units of the level below.
pub open spec fn names_units(r: Rung, cuts: Seq<(u32, Vec<u32>)>) -> bool {
    &&& forall|i: int| 0 <= i < cuts.len() ==> (#[trigger] cuts[i]).0 < regions(r)
    &&& forall|i: int, j: int|
        0 <= i < cuts.len() && 0 <= j < cuts[i].1@.len() ==> (#[trigger] cuts[i].1@[j])
            < r.of.len()
}

/// The cuts fit the level, and so do the numbers of the regions they make.
pub open spec fn plan_ok(r: Rung, cuts: Seq<(u32, Vec<u32>)>) -> bool {
    &&& names_units(r, cuts)
    &&& regions(r) + cuts.len() < u32::MAX
}

/// The assignments from level `k` on after the cuts. A fresh region takes the
/// parent of the one it came out of.
pub open spec fn new_ofs(l: Ladder, k: int, cuts: Seq<(u32, Vec<u32>)>) -> Seq<Seq<u32>> {
    let n = cuts.len() as int;
    Seq::new(
        (l.len() - k) as nat,
        |j: int|
            if j == 0 {
                cut_of(l[k].of, cuts, n, regions(l[k])).0
            } else if j == 1 {
                l[k + 1].of + Seq::new(
                    origins(cuts, n).len(),
                    |i: int| l[k + 1].of[origins(cuts, n)[i] as int],
                )
            } else {
                l[k + j].of
            },
    )
}

/// How many regions level `k` has after the cuts.
pub open spec fn regions_after(l: Ladder, k: int, cuts: Seq<(u32, Vec<u32>)>) -> int {
    cut_of(l[k].of, cuts, cuts.len() as int, regions(l[k])).1
}

/// The vertices of a level, in the order in which they are looked at: all of
/// them at level 0, the gates of the level below above it.
pub open spec fn pool_of(nv: int, l: Ladder, k: int, ups: Seq<LevelUpdate>, j: int) -> Seq<u32> {
    if j > 0 {
        ups[j - 1].bnd@
    } else if k == 0 {
        Seq::new(nv as nat, |i: int| i as u32)
    } else {
        l[k - 1].bnd
    }
}

/// Which regions of level `k + j` are cut: none above the split level.
pub open spec fn cut_flags(r: Rung, cuts: Seq<(u32, Vec<u32>)>, j: int) -> Seq<bool> {
    Seq::new(regions(r) as nat, |c: int| j == 0 && is_cut(cuts, c))
}

/// Level `k + j` as the cuts leave it.
pub open spec fn updated(
    ds: Dataset,
    ov: Overlay,
    k: int,
    cuts: Seq<(u32, Vec<u32>)>,
    ups: Seq<LevelUpdate>,
    j: int,
) -> bool {
    let l = ov.ladder();
    let ofs = new_ofs(l, k, cuts);
    let n = new_regions(l, k, regions_after(l, k, cuts), k + j);
    let pool = pool_of(ds.nv() as int, l, k, ups, j);
    let u = ups[j];
    &&& u.of@ == ofs[j]
    &&& lists(u.bhead@, u.bnd@, n, rim_new(ds, l, k, ofs, k + j, pool))
    &&& lists(u.vhead@, u.vlist@, n, in_new(l, k, ofs, k + j, pool))
    &&& relaid(
        ov.levels@[k + j],
        cut_flags(l[k + j], cuts, j),
        u.bhead@,
        u.bnd@,
        u.keep@,
        u.head@,
        u.have@,
    )
}

/// The kept, or dropped, rows of the first `n` levels.
pub open spec fn rows_in(ups: Seq<LevelUpdate>, kept: bool, n: int) -> int
    decreases n,
{
    if n <= 0 {
        0
    } else {
        rows_in(ups, kept, n - 1) + rows_of(
            ups[n - 1].bhead@,
            ups[n - 1].keep@,
            kept,
            ups[n - 1].keep@.len() as int,
        )
    }
}

proof fn lemma_rows_in(ups: Seq<LevelUpdate>, last: LevelUpdate, kept: bool, n: int)
    requires
        0 <= n <= ups.len(),
    ensures
        rows_in(ups.push(last), kept, n) == rows_in(ups, kept, n),
    decreases n,
{
    if n > 0 {
        lemma_rows_in(ups, last, kept, n - 1);
        assert(ups.push(last)[n - 1] == ups[n - 1]);
    }
}

fn copied(s: &[u32]) -> (r: Vec<u32>)
    ensures
        r@ == s@,
{
    let mut r: Vec<u32> = Vec::new();
    while r.len() < s.len()
        invariant
            r@.len() <= s@.len(),
            r@ == s@.take(r@.len() as int),
        decreases s@.len() - r@.len(),
    {
        let x: u32 = s[r.len()];
        assert(s@.take(r@.len() as int).push(x) =~= s@.take(r@.len() as int + 1));
        r.push(x);
    }
    assert(s@.take(s@.len() as int) =~= s@);
    r
}

/// Moves the units of one cut.
fn move_units(of: &mut Vec<u32>, c: u32, list: &Vec<u32>, fresh: u32)
    requires
        fresh != c,
        forall|j: int| 0 <= j < list@.len() ==> (#[trigger] list@[j]) < old(of)@.len(),
        old(of)@.len() <= u32::MAX,
    ensures
        final(of)@ == moved(old(of)@, c, list@, fresh),
{
    let ghost o = of@;
    let mut j: usize = 0;
    while j < list.len()
        invariant
            fresh != c,
            j <= list@.len(),
            o.len() <= u32::MAX,
            of@.len() == o.len(),
            forall|j: int| 0 <= j < list@.len() ==> (#[trigger] list@[j]) < o.len(),
            forall|u: int|
                0 <= u < o.len() ==> #[trigger] of@[u] == (if o[u] == c && list@.take(
                    j as int,
                ).contains(u as u32) {
                    fresh
                } else {
                    o[u]
                }),
        decreases list@.len() - j,
    {
        let u: u32 = list[j];
        let ghost before = of@;
        if of[u as usize] == c {
            of.set(u as usize, fresh);
        }
        proof {
            let (a, b) = (list@.take(j as int), list@.take(j + 1));
            assert(b =~= a.push(u));
            assert forall|x: int| 0 <= x < o.len() implies #[trigger] of@[x] == (if o[x] == c
                && b.contains(x as u32) {
                fresh
            } else {
                o[x]
            }) by {
                assert(before[x] == (if o[x] == c && a.contains(x as u32) {
                    fresh
                } else {
                    o[x]
                }));
                if a.contains(x as u32) {
                    let y = a.index_of(x as u32);
                    assert(b[y] == x as u32);
                }
                if b.contains(x as u32) && x != u {
                    let y = b.index_of(x as u32);
                    assert(a[y] == x as u32);
                }
                assert(b[j as int] == u);
            }
        }
        j += 1;
    }
    proof {
        assert(list@.take(list@.len() as int) =~= list@);
        assert(of@ =~= moved(o, c, list@, fresh));
    }
}

/// Applies the cuts in order. Gives the new assignment, where each fresh
/// region came from, and which of the old regions were cut.
fn apply_cuts(of: &[u32], n: usize, cuts: &Vec<(u32, Vec<u32>)>) -> (r: (
    Vec<u32>,
    Vec<u32>,
    Vec<bool>,
))
    requires
        of@.len() <= u32::MAX,
        n + cuts@.len() < u32::MAX,
        forall|i: int| 0 <= i < cuts@.len() ==> (#[trigger] cuts@[i]).0 < n,
        forall|i: int, j: int|
            0 <= i < cuts@.len() && 0 <= j < cuts@[i].1@.len() ==> (#[trigger] cuts@[i].1@[j])
                < of@.len(),
    ensures
        r.0@ == cut_of(of@, cuts@, cuts@.len() as int, n as int).0,
        r.1@ == origins(cuts@, cuts@.len() as int),
        r.2@ == Seq::new(n as nat, |c: int| is_cut(cuts@, c)),
{
    let mut out: Vec<u32> = copied(of);
    let mut from: Vec<u32> = Vec::new();
    let mut cut: Vec<bool> = vec![false; n];
    let mut i: usize = 0;
    while i < cuts.len()
        invariant
            of@.len() <= u32::MAX,
            n + cuts@.len() < u32::MAX,
            forall|i: int| 0 <= i < cuts@.len() ==> (#[trigger] cuts@[i]).0 < n,
            forall|i: int, j: int|
                0 <= i < cuts@.len() && 0 <= j < cuts@[i].1@.len() ==> (#[trigger] cuts@[i].1@[j])
                    < of@.len(),
            i <= cuts@.len(),
            out@ == cut_of(of@, cuts@, i as int, n as int).0,
            n + from@.len() == cut_of(of@, cuts@, i as int, n as int).1,
            out@.len() == of@.len(),
            from@.len() <= i,
            from@ == origins(cuts@, i as int),
            cut@.len() == n,
            forall|c: int|
                0 <= c < n ==> (#[trigger] cut@[c] <==> exists|x: int|
                    0 <= x < i && (#[trigger] cuts@[x]).0 == c && cuts@[x].1@.len() > 0),
        decreases cuts@.len() - i,
    {
        let c: u32 = cuts[i].0;
        let ghost before = cut@;
        if cuts[i].1.len() > 0 {
            let fresh: u32 = (n + from.len()) as u32;
            assert forall|j: int| 0 <= j < cuts@[i as int].1@.len() implies (
            #[trigger] cuts@[i as int].1@[j]) < out@.len() by {}
            move_units(&mut out, c, &cuts[i].1, fresh);
            from.push(c);
            cut.set(c as usize, true);
        }
        proof {
            assert forall|d: int| 0 <= d < n implies (#[trigger] cut@[d] <==> exists|x: int|
                0 <= x < i + 1 && (#[trigger] cuts@[x]).0 == d && cuts@[x].1@.len() > 0) by {
                if before[d] {
                    let x = choose|x: int|
                        0 <= x < i && (#[trigger] cuts@[x]).0 == d && cuts@[x].1@.len() > 0;
                    assert(cuts@[x].0 == d);
                }
                if cuts@[i as int].1@.len() > 0 && d == c {
                    assert(cuts@[i as int].0 == d);
                }
            }
        }
        i += 1;
    }
    assert(cut@ =~= Seq::new(n as nat, |c: int| is_cut(cuts@, c)));
    (out, from, cut)
}

proof fn lemma_origins(cuts: Seq<(u32, Vec<u32>)>, n: int, m: int)
    requires
        0 <= n <= cuts.len(),
        forall|i: int| 0 <= i < cuts.len() ==> (#[trigger] cuts[i]).0 < m,
    ensures
        forall|i: int| 0 <= i < origins(cuts, n).len() ==> (#[trigger] origins(cuts, n)[i]) < m,
    decreases n,
{
    if n > 0 {
        lemma_origins(cuts, n - 1, m);
        let before = origins(cuts, n - 1);
        assert forall|i: int| 0 <= i < origins(cuts, n).len() implies (#[trigger] origins(cuts, n)[i])
            < m by {
            if i < before.len() {
                assert(origins(cuts, n)[i] == before[i]);
            }
        }
    }
}

/// The new assignments fit together.
proof fn lemma_assigned(l: Ladder, k: int, cuts: Seq<(u32, Vec<u32>)>)
    requires
        ladder_ok(l),
        0 <= k < l.len(),
        plan_ok(l[k], cuts),
    ensures
        assigned(l, k, new_ofs(l, k, cuts), regions_after(l, k, cuts), l.len() - 1),
        regions(l[k]) <= regions_after(l, k, cuts) <= regions(l[k]) + cuts.len(),
{
    let n = cuts.len() as int;
    let base = regions(l[k]);
    let ofs = new_ofs(l, k, cuts);
    let cells = regions_after(l, k, cuts);
    lemma_rung(l, k);
    lemma_cut_of(l[k].of, cuts, n, base);
    assert forall|u: int| 0 <= u < l[k].of.len() implies (#[trigger] l[k].of[u]) < base by {}
    lemma_cut_range(l[k].of, cuts, n, base);
    lemma_origins(cuts, n, base);
    assert forall|j: int| k <= j <= l.len() - 1 implies (#[trigger] ofs[j - k]).len() == (if j
        == 0 {
        l[0].of.len() as int
    } else {
        new_regions(l, k, cells, j - 1)
    }) by {
        lemma_rung(l, j);
        if j > 0 {
            lemma_rung(l, j - 1);
        }
    }
    assert forall|j: int, u: int|
        k <= j <= l.len() - 1 && 0 <= u < ofs[j - k].len() implies (#[trigger] ofs[j - k][u])
        < new_regions(l, k, cells, j) by {
        lemma_rung(l, j);
        if j == k + 1 {
            let rest = Seq::new(
                origins(cuts, n).len(),
                |i: int| l[k + 1].of[origins(cuts, n)[i] as int],
            );
            assert(ofs[1] == l[k + 1].of + rest);
            if u < l[k + 1].of.len() {
                assert(ofs[1][u] == l[k + 1].of[u]);
            } else {
                let i = u - l[k + 1].of.len();
                assert(ofs[1][u] == rest[i]);
                assert(origins(cuts, n)[i] < base);
                assert(l[k + 1].of[origins(cuts, n)[i] as int] < regions(l[k + 1]));
            }
        }
    }
}

/// The assignments of every level from `k` on.
fn assignments(ov: &Overlay, k: usize, of: Vec<u32>, from: &Vec<u32>, Ghost(cuts): Ghost<
    Seq<(u32, Vec<u32>)>,
>) -> (ofs: Vec<Vec<u32>>)
    requires
        ov.wf(),
        k < ov.ladder().len(),
        plan_ok(ov.ladder()[k as int], cuts),
        of@ == cut_of(
            ov.ladder()[k as int].of,
            cuts,
            cuts.len() as int,
            regions(ov.ladder()[k as int]),
        ).0,
        from@ == origins(cuts, cuts.len() as int),
    ensures
        views(ofs@) == new_ofs(ov.ladder(), k as int, cuts),
{
    let ghost l = ov.ladder();
    let ghost want = new_ofs(l, k as int, cuts);
    let mut ofs: Vec<Vec<u32>> = Vec::new();
    ofs.push(of);
    let n: usize = ov.levels.len();
    proof {
        lemma_origins(cuts, cuts.len() as int, regions(l[k as int]));
    }
    while ofs.len() < n - k
        invariant
            ov.wf(),
            l == ov.ladder(),
            want == new_ofs(l, k as int, cuts),
            n == l.len(),
            k < n,
            1 <= ofs@.len() <= n - k,
            from@ == origins(cuts, cuts.len() as int),
            forall|i: int| 0 <= i < from@.len() ==> (#[trigger] from@[i]) < regions(l[k as int]),
            forall|j: int| 0 <= j < ofs@.len() ==> (#[trigger] ofs@[j])@ == want[j],
        decreases n - k - ofs@.len(),
    {
        let j: usize = ofs.len();
        let src: &[u32] = ov.levels[k + j].of;
        proof {
            lemma_rung(l, k + j);
            assert(ov.levels@[k + j].rung() == l[k + j]);
        }
        let mut up: Vec<u32> = copied(src);
        if j == 1 {
            let mut i: usize = 0;
            let ghost rest = Seq::new(from@.len(), |i: int| l[k + 1].of[from@[i] as int]);
            while i < from.len()
                invariant
                    l == ov.ladder(),
                    n == l.len(),
                    k + 1 < n,
                    src@ == l[k + 1].of,
                    l[k + 1].of.len() == regions(l[k as int]),
                    rest == Seq::new(from@.len(), |i: int| l[k + 1].of[from@[i] as int]),
                    forall|i: int|
                        0 <= i < from@.len() ==> (#[trigger] from@[i]) < regions(l[k as int]),
                    i <= from@.len(),
                    up@ == src@ + rest.take(i as int),
                decreases from@.len() - i,
            {
                let x: u32 = src[from[i] as usize];
                assert(rest.take(i as int).push(x) =~= rest.take(i + 1));
                assert((src@ + rest.take(i as int)).push(x) =~= src@ + rest.take(i + 1));
                up.push(x);
                i += 1;
            }
            assert(rest.take(from@.len() as int) =~= rest);
            assert(up@ == want[1]);
        }
        assert(up@ == want[j as int]);
        ofs.push(up);
    }
    assert(views(ofs@) =~= want);
    ofs
}

fn all_vertices(n: usize) -> (r: Vec<u32>)
    requires
        n <= u32::MAX,
    ensures
        r@ == Seq::new(n as nat, |i: int| i as u32),
{
    let mut r: Vec<u32> = Vec::new();
    while r.len() < n
        invariant
            n <= u32::MAX,
            r@.len() <= n,
            forall|i: int| 0 <= i < r@.len() ==> #[trigger] r@[i] == i as u32,
        decreases n - r@.len(),
    {
        let x: u32 = r.len() as u32;
        r.push(x);
    }
    assert(r@ =~= Seq::new(n as nat, |i: int| i as u32));
    r
}

fn update_level(lv: &Level, cut: &Vec<bool>, of: &Vec<u32>, lists: (
    Vec<u32>,
    Vec<u32>,
    Vec<u32>,
    Vec<u32>,
)) -> (u: LevelUpdate)
    requires
        lv.blocks_ok(),
        lv.bhead@.len() >= 1,
        regions(lv.rung()) <= u32::MAX,
        head_ok(lv.bhead@, lv.bnd@.len() as int),
        lv.head@.len() == regions(lv.rung()) + 1,
        lv.head@[regions(lv.rung())] <= 0x7FFF_FFFF_FFFF_FFFF,
        cut@.len() == regions(lv.rung()),
        lists.0@.len() >= 1,
        lists.0@[0] == 0,
        head_ok(lists.0@, lists.1@.len() as int),
        lists.1@.len() <= 0x7FFF_FFFF,
    ensures
        u.of@ == of@,
        u.bhead@ == lists.0@,
        u.bnd@ == lists.1@,
        u.vhead@ == lists.2@,
        u.vlist@ == lists.3@,
        relaid(*lv, cut@, u.bhead@, u.bnd@, u.keep@, u.head@, u.have@),
{
    let (bhead, bnd, vhead, vlist) = lists;
    let keep: Vec<bool> = kept_regions(lv, cut, &bhead, &bnd);
    let head: Vec<u64> = kept_heads(lv, &keep, &bhead);
    proof {
        assert forall|c: int| 0 <= c < keep@.len() && #[trigger] keep@[c] implies c < regions(
            lv.rung(),
        ) && bhead@[c + 1] - bhead@[c] == lv.bhead@[c + 1] - lv.bhead@[c] by {
            assert(bhead@[c + 1] <= bhead@[bhead@.len() - 1]);
            assert(lv.bhead@[c + 1] <= lv.bhead@[lv.bhead@.len() - 1]);
            assert(gates(lv.rung(), c).len() == lv.bhead@[c + 1] - lv.bhead@[c]);
            assert(block(bhead@, bnd@, c).len() == bhead@[c + 1] - bhead@[c]);
        }
    }
    let have: Vec<u8> = kept_bits(lv, &keep, &bhead, bnd.len());
    LevelUpdate { of: copied(of), bnd, bhead, vhead, vlist, head, keep, have }
}

/// Moves units of level `k` into fresh regions, keeping the rows of every
/// region whose boundary stays as it was, at this level and at every level
/// above.
#[verifier::rlimit(60)]
pub fn split_level(ds: &Dataset, ov: &Overlay, k: usize, plan: &SplitPlan) -> (s: Split)
    requires
        ds.graph_ok(),
        ov.wf(),
        ds.nv() == ov.ladder()[0].of.len(),
        ds.nv() <= 0x7FFF_FFFF,
        k < ov.ladder().len(),
        ov.ladder().len() <= u32::MAX,
        plan_ok(ov.ladder()[k as int], plan.cuts@),
        k > 0 ==> ov.ladder()[k - 1].bnd.len() <= 0x7FFF_FFFF,
        forall|j: int|
            k <= j < ov.ladder().len() ==> regions(#[trigger] ov.ladder()[j]) < u32::MAX
                && ov.ladder()[j].head[regions(ov.ladder()[j])] <= 0x7FFF_FFFF_FFFF_FFFF,
    ensures
        s.levels@.len() == ov.ladder().len() - k,
        forall|j: int|
            0 <= j < s.levels@.len() ==> #[trigger] updated(
                *ds,
                *ov,
                k as int,
                plan.cuts@,
                s.levels@,
                j,
            ),
        s.stats.regions_before == regions(ov.ladder()[k as int]),
        s.stats.regions_after == regions_after(ov.ladder(), k as int, plan.cuts@),
        s.stats.gates_before == ov.ladder()[k as int].bnd.len(),
        s.stats.gates_after == s.levels@[0].bnd@.len(),
        s.stats.rows_kept == rows_in(s.levels@, true, s.levels@.len() as int),
        s.stats.rows_dropped == rows_in(s.levels@, false, s.levels@.len() as int),
{
    let ghost l = ov.ladder();
    let ghost cuts = plan.cuts@;
    let ghost kk = k as int;
    let ghost ofs0 = new_ofs(l, kk, cuts);
    let lv: &Level = &ov.levels[k];
    proof {
        lemma_rung(l, kk);
        assert(lv.rung() == l[kk]);
        lemma_assigned(l, kk, cuts);
        if k > 0 {
            lemma_rung(l, kk - 1);
        }
    }
    let before: usize = lv.regions();
    let (of, from, cut): (Vec<u32>, Vec<u32>, Vec<bool>) = apply_cuts(lv.of, before, &plan.cuts);
    proof {
        lemma_cut_of(l[kk].of, cuts, cuts.len() as int, before as int);
    }
    let after: usize = before + from.len();
    let ghost cells = after as int;
    let ofs: Vec<Vec<u32>> = assignments(ov, k, of, &from, Ghost(cuts));
    let mut pool: Vec<u32> = if k == 0 {
        all_vertices(ds.n_vertices())
    } else {
        copied(ov.levels[k - 1].bnd)
    };
    let mut cut: Vec<bool> = cut;
    let mut levels: Vec<LevelUpdate> = Vec::new();
    let (mut kept, mut dropped): (u64, u64) = (0, 0);
    let n: usize = ov.levels.len();
    proof {
        assert(cut@ =~= cut_flags(l[kk], cuts, 0));
        if k > 0 {
            assert(ov.levels@[kk - 1].rung() == l[kk - 1]);
        }
        assert(pool@ == pool_of(ds.nv() as int, l, kk, levels@, 0));
        assert forall|i: int| 0 <= i < pool@.len() implies (#[trigger] pool@[i]) < ds.nv() by {
            if k > 0 {
                assert(l[kk - 1].bnd[i] < ds.nv());
            }
        }
    }
    while levels.len() < n - k
        invariant
            ds.graph_ok(),
            ov.wf(),
            l == ov.ladder(),
            cuts == plan.cuts@,
            kk == k,
            ofs0 == new_ofs(l, kk, cuts),
            views(ofs@) == ofs0,
            ofs@.len() == n - k,
            cells == regions_after(l, kk, cuts),
            after == cells,
            after < u32::MAX,
            assigned(l, kk, ofs0, cells, l.len() - 1),
            ds.nv() == l[0].of.len(),
            ds.nv() <= 0x7FFF_FFFF,
            n == l.len(),
            n <= u32::MAX,
            k < n,
            forall|j: int|
                k <= j < l.len() ==> regions(#[trigger] l[j]) < u32::MAX && l[j].head[regions(l[j])]
                    <= 0x7FFF_FFFF_FFFF_FFFF,
            levels@.len() <= n - k,
            levels@.len() < n - k ==> cut@ == cut_flags(
                l[k + levels@.len()],
                cuts,
                levels@.len() as int,
            ),
            pool@ == pool_of(ds.nv() as int, l, kk, levels@, levels@.len() as int),
            pool@.len() <= 0x7FFF_FFFF,
            forall|i: int| 0 <= i < pool@.len() ==> (#[trigger] pool@[i]) < ds.nv(),
            forall|j: int|
                0 <= j < levels@.len() ==> #[trigger] updated(*ds, *ov, kk, cuts, levels@, j),
            kept == rows_in(levels@, true, levels@.len() as int),
            dropped == rows_in(levels@, false, levels@.len() as int),
            kept <= levels@.len() * u32::MAX,
            dropped <= levels@.len() * u32::MAX,
        decreases n - k - levels@.len(),
    {
        let j: usize = levels.len();
        let t: usize = k + j;
        let up: &Level = &ov.levels[t];
        let ghost ups0 = levels@;
        proof {
            lemma_rung(l, t as int);
            assert(up.rung() == l[t as int]);
            assert(up.blocks_ok());
            assert(assigned(l, kk, ofs0, cells, t as int));
            assert(ofs@[j as int]@ == views(ofs@)[j as int]);
        }
        let ncells: usize = if j == 0 {
            after
        } else {
            up.regions()
        };
        let lists: (Vec<u32>, Vec<u32>, Vec<u32>, Vec<u32>) = rebuild_index_at(
            ds,
            ov,
            k,
            t,
            &ofs,
            ncells,
            &pool,
            Ghost(cells),
        );
        let u: LevelUpdate = update_level(up, &cut, &ofs[j], lists);
        let (a, b): (u64, u64) = row_counts(&u.keep, &u.bhead);
        proof {
            lemma_rows_in(ups0, u, true, ups0.len() as int);
            lemma_rows_in(ups0, u, false, ups0.len() as int);
            assert(j * u32::MAX + u32::MAX == (j + 1) * u32::MAX) by (nonlinear_arith);
            assert((j + 1) * u32::MAX <= u32::MAX * u32::MAX) by (nonlinear_arith)
                requires
                    j + 1 <= u32::MAX,
            ;
        }
        kept = kept + a;
        dropped = dropped + b;
        pool = copied(&u.bnd);
        proof {
            let m = new_regions(l, kk, cells, t as int);
            let p = pool_of(ds.nv() as int, l, kk, ups0, j as int);
            let rim = rim_new(*ds, l, kk, ofs0, t as int, p);
            assert forall|i: int| 0 <= i < pool@.len() implies (#[trigger] pool@[i]) < ds.nv() by {
                let c = lemma_in_block(u.bhead@, u.bnd@, m, i);
                let v = pool@[i];
                assert(u.bhead@[c + 1] <= u.bhead@[u.bhead@.len() - 1]);
                assert(block(u.bhead@, u.bnd@, c)[i - u.bhead@[c]] == v);
                assert(block(u.bhead@, u.bnd@, c).contains(v));
                assert(rim(c, v));
                let y = p.index_of(v);
                assert(p[y] < ds.nv());
            }
        }
        levels.push(u);
        proof {
            assert forall|x: int| 0 <= x < levels@.len() implies #[trigger] updated(
                *ds,
                *ov,
                kk,
                cuts,
                levels@,
                x,
            ) by {
                assert(pool_of(ds.nv() as int, l, kk, levels@, x) == pool_of(
                    ds.nv() as int,
                    l,
                    kk,
                    ups0,
                    x,
                ));
                if x < j {
                    assert(updated(*ds, *ov, kk, cuts, ups0, x));
                    assert(levels@[x] == ups0[x]);
                }
            }
        }
        if t + 1 < n {
            let m: usize = ov.levels[t + 1].regions();
            proof {
                lemma_rung(l, t + 1);
                assert(ov.levels@[t + 1].rung() == l[t + 1]);
            }
            cut = vec![false; m];
            assert(cut@ =~= cut_flags(l[t + 1], cuts, j + 1));
        }
    }
    let stats = SplitStats {
        regions_before: before,
        regions_after: after,
        rows_kept: kept,
        rows_dropped: dropped,
        gates_before: lv.bnd.len(),
        gates_after: levels[0].bnd.len(),
    };
    Split { levels, stats }
}

// --------------------------------------------------------------------- laws

/// A unit that stayed keeps its region; one that moved is in a fresh region
/// that came out of it.
proof fn lemma_cut_origin(of: Seq<u32>, cuts: Seq<(u32, Vec<u32>)>, n: int, base: int, u: int)
    requires
        0 <= n <= cuts.len(),
        0 <= base,
        base + n <= u32::MAX,
        0 <= u < of.len(),
        forall|u: int| 0 <= u < of.len() ==> (#[trigger] of[u]) < base,
        forall|i: int| 0 <= i < cuts.len() ==> (#[trigger] cuts[i]).0 < base,
    ensures
        ({
            let a = cut_of(of, cuts, n, base).0[u];
            &&& a < base ==> a == of[u]
            &&& a >= base ==> a - base < origins(cuts, n).len() && origins(cuts, n)[a - base]
                == of[u]
            &&& a != of[u] ==> exists|i: int|
                0 <= i < n && (#[trigger] cuts[i]).0 == of[u] && cuts[i].1@.len() > 0
        }),
    decreases n,
{
    if n > 0 {
        lemma_cut_origin(of, cuts, n - 1, base, u);
        lemma_cut_of(of, cuts, n - 1, base);
        let (o, next) = cut_of(of, cuts, n - 1, base);
        let before = origins(cuts, n - 1);
        if o[u] != of[u] {
            let i = choose|i: int|
                0 <= i < n - 1 && (#[trigger] cuts[i]).0 == of[u] && cuts[i].1@.len() > 0;
            assert(cuts[i].0 == of[u]);
        }
        if o[u] >= base {
            assert(origins(cuts, n)[o[u] - base] == before[o[u] - base]);
        }
        assert(cuts[n - 1].0 < base);
    }
}

/// Below the split level nothing changes.
proof fn lemma_new_below(l: Ladder, base: int, ofs: Seq<Seq<u32>>, k: int, v: int)
    requires
        0 <= k < base,
    ensures
        new_at(l, base, ofs, k, v) == cell_at(l, k, v),
    decreases k,
{
    if k > 0 {
        lemma_new_below(l, base, ofs, k - 1, v);
    }
}

/// The unit of level `k` that holds a vertex.
pub open spec fn unit_at(l: Ladder, k: int, v: int) -> int {
    if k == 0 {
        v
    } else {
        cell_at(l, k - 1, v)
    }
}

/// After a split every vertex of an uncut region is where it was, and no
/// other joins it.
pub proof fn lemma_uncut(l: Ladder, k: int, cuts: Seq<(u32, Vec<u32>)>, c: int, v: int)
    requires
        ladder_ok(l),
        0 <= k < l.len(),
        plan_ok(l[k], cuts),
        0 <= c < regions(l[k]),
        !is_cut(cuts, c),
        0 <= v < l[0].of.len(),
    ensures
        new_at(l, k, new_ofs(l, k, cuts), k, v) == c <==> cell_at(l, k, v) == c,
{
    let ofs = new_ofs(l, k, cuts);
    let u = unit_at(l, k, v);
    let n = cuts.len() as int;
    lemma_rung(l, k);
    if k > 0 {
        lemma_new_below(l, k, ofs, k - 1, v);
        lemma_cell_bound(l, k - 1, v);
    }
    assert(ofs[0] == cut_of(l[k].of, cuts, n, regions(l[k])).0);
    lemma_cut_origin(l[k].of, cuts, n, regions(l[k]), u);
}

/// No level above a split gains a region or moves a vertex.
pub proof fn lemma_above(l: Ladder, k: int, cuts: Seq<(u32, Vec<u32>)>, m: int, v: int)
    requires
        ladder_ok(l),
        0 <= k < m < l.len(),
        plan_ok(l[k], cuts),
        0 <= v < l[0].of.len(),
    ensures
        new_at(l, k, new_ofs(l, k, cuts), m, v) == cell_at(l, m, v),
    decreases m,
{
    let ofs = new_ofs(l, k, cuts);
    let n = cuts.len() as int;
    lemma_rung(l, m);
    lemma_rung(l, k);
    if m > k + 1 {
        lemma_above(l, k, cuts, m - 1, v);
        assert(ofs[m - k] == l[m].of);
    } else {
        let u = unit_at(l, k, v);
        if k > 0 {
            lemma_new_below(l, k, ofs, k - 1, v);
            lemma_cell_bound(l, k - 1, v);
        }
        assert(ofs[0] == cut_of(l[k].of, cuts, n, regions(l[k])).0);
        lemma_cut_origin(l[k].of, cuts, n, regions(l[k]), u);
        let a = ofs[0][u] as int;
        let rest = Seq::new(
            origins(cuts, n).len(),
            |i: int| l[k + 1].of[origins(cuts, n)[i] as int],
        );
        assert(ofs[1] == l[k + 1].of + rest);
        assert(new_at(l, k, ofs, k, v) == a);
        assert(l[k + 1].of.len() == regions(l[k]));
        if a >= regions(l[k]) {
            assert(ofs[1][a] == rest[a - regions(l[k])]);
        } else {
            assert(ofs[1][a] == l[k + 1].of[a]);
        }
        assert(cell_at(l, k, v) == l[k].of[u]);
    }
}

/// A vertex with an edge out of its new region of a level is on the boundary
/// of its new region of the level below.
proof fn lemma_in_pool(
    ds: Dataset,
    ov: Overlay,
    k: int,
    cuts: Seq<(u32, Vec<u32>)>,
    ups: Seq<LevelUpdate>,
    j: int,
    v: u32,
)
    requires
        ds.graph_ok(),
        ladder_ok(ov.ladder()),
        ds.nv() == ov.ladder()[0].of.len(),
        gated(ds, ov.ladder()),
        0 <= k,
        0 <= j,
        k + j < ov.ladder().len(),
        plan_ok(ov.ladder()[k], cuts),
        forall|i: int| 0 <= i < j ==> #[trigger] updated(ds, ov, k, cuts, ups, i),
        v < ds.nv(),
        leaves_new(ds, ov.ladder(), k, new_ofs(ov.ladder(), k, cuts), k + j, v),
    ensures
        pool_of(ds.nv() as int, ov.ladder(), k, ups, j).contains(v),
    decreases j,
{
    let l = ov.ladder();
    let ofs = new_ofs(l, k, cuts);
    let cells = regions_after(l, k, cuts);
    let (fwd, t) = choose|fwd: bool, t: int|
        #[trigger] is_edge(ds, fwd, v, t) && new_at(l, k, ofs, k + j, far_end(ds, fwd, v, t) as int)
            != new_at(l, k, ofs, k + j, v as int);
    let w = far_end(ds, fwd, v, t);
    let pool = pool_of(ds.nv() as int, l, k, ups, j);
    lemma_assigned(l, k, cuts);
    if j > 0 {
        assert(new_at(l, k, ofs, k + j - 1, w as int) != new_at(l, k, ofs, k + j - 1, v as int));
        assert(is_edge(ds, fwd, v, t));
        assert(leaves_new(ds, l, k, ofs, k + j - 1, v));
        lemma_in_pool(ds, ov, k, cuts, ups, j - 1, v);
        assert(updated(ds, ov, k, cuts, ups, j - 1));
        let c = new_at(l, k, ofs, k + j - 1, v as int);
        lemma_new_bound(l, k, ofs, cells, l.len() - 1, k + j - 1, v as int);
        let u = ups[j - 1];
        let p = pool_of(ds.nv() as int, l, k, ups, j - 1);
        let rim = rim_new(ds, l, k, ofs, k + j - 1, p);
        assert(rim(c, v));
        let b = block(u.bhead@, u.bnd@, c);
        assert(b.contains(v));
        let x = b.index_of(v);
        assert(u.bhead@[c] <= u.bhead@[c + 1] <= u.bhead@[u.bhead@.len() - 1]);
        assert(u.bnd@[u.bhead@[c] + x] == v);
    } else if k == 0 {
        assert(pool[v as int] == v);
    } else {
        lemma_new_below(l, k, ofs, k - 1, v as int);
        lemma_new_below(l, k, ofs, k - 1, w as int);
        assert(new_at(l, k, ofs, k - 1, w as int) != new_at(l, k, ofs, k - 1, v as int));
        assert(crosses(ds, l, k - 1, fwd, v, t));
        assert(on_edge(ds, l, k - 1, v));
        assert(gate_at(l, k - 1, v));
        lemma_cell_bound(l, k - 1, v as int);
        lemma_rung(l, k - 1);
        let c = cell_at(l, k - 1, v as int);
        let r = l[k - 1];
        let x = index_in(gates(r, c), v)->0;
        assert(gates(r, c).contains(v));
        let y = gates(r, c).index_of(v);
        assert(r.bhead[c] <= r.bhead[c + 1] <= r.bhead[r.bhead.len() - 1]);
        assert(r.bnd[r.bhead[c] + y] == v);
    }
}

/// Two ascending lists of the same numbers are one list.
pub proof fn lemma_same_ascending(a: Seq<u32>, b: Seq<u32>)
    requires
        ascending(a),
        ascending(b),
        forall|v: u32| a.contains(v) <==> b.contains(v),
    ensures
        a == b,
    decreases a.len(),
{
    if a.len() == 0 {
        if b.len() > 0 {
            assert(b.contains(b[0]));
            assert(a.contains(b[0]));
        }
        assert(a =~= b);
    } else {
        assert(a.contains(a.last()));
        assert(b.contains(a.last()));
        assert(b.contains(b.last()));
        assert(a.contains(b.last()));
        let (p, q) = (a.index_of(b.last()), b.index_of(a.last()));
        assert(a[p] == b.last() && b[q] == a.last());
        assert(a.last() == b.last());
        let (x, y) = (a.drop_last(), b.drop_last());
        assert forall|v: u32| x.contains(v) <==> y.contains(v) by {
            if x.contains(v) {
                let i = x.index_of(v);
                assert(a[i] == v);
                assert(a.contains(v));
                let j = b.index_of(v);
                assert(b[j] == v);
                assert(j != b.len() - 1);
                assert(y[j] == v);
            }
            if y.contains(v) {
                let i = y.index_of(v);
                assert(b[i] == v);
                assert(b.contains(v));
                let j = a.index_of(v);
                assert(a[j] == v);
                assert(j != a.len() - 1);
                assert(x[j] == v);
            }
        }
        lemma_same_ascending(x, y);
        assert(a =~= x.push(a.last()));
        assert(b =~= y.push(b.last()));
    }
}

/// A split keeps the rows of every region it does not cut, and of every region
/// of every level above: none of their boundaries change.
pub proof fn lemma_split_keeps(
    ds: Dataset,
    ov: Overlay,
    k: int,
    cuts: Seq<(u32, Vec<u32>)>,
    ups: Seq<LevelUpdate>,
    j: int,
    c: int,
)
    requires
        ds.graph_ok(),
        ladder_ok(ov.ladder()),
        ds.nv() == ov.ladder()[0].of.len(),
        gated(ds, ov.ladder()),
        0 <= k,
        0 <= j,
        k + j < ov.ladder().len(),
        plan_ok(ov.ladder()[k], cuts),
        forall|i: int| 0 <= i <= j ==> #[trigger] updated(ds, ov, k, cuts, ups, i),
        0 <= c < regions(ov.ladder()[k + j]),
        j == 0 ==> !is_cut(cuts, c),
    ensures
        block(ups[j].bhead@, ups[j].bnd@, c) == gates(ov.ladder()[k + j], c),
        ups[j].keep@[c],
        ups[j].head@[c] == ov.ladder()[k + j].head[c],
        forall|i: int, fwd: bool|
            0 <= i < gates(ov.ladder()[k + j], c).len() ==> #[trigger] has_bit(
                ups[j].have@,
                slot(ups[j].bhead@, ups[j].bnd@.len() as int, c, i, fwd),
            ) == held(ov.levels@[k + j], c, i, fwd),
{
    let l = ov.ladder();
    let m = k + j;
    let ofs = new_ofs(l, k, cuts);
    let u = ups[j];
    let pool = pool_of(ds.nv() as int, l, k, ups, j);
    let rim = rim_new(ds, l, k, ofs, m, pool);
    let b = block(u.bhead@, u.bnd@, c);
    let g = gates(l[m], c);
    assert(updated(ds, ov, k, cuts, ups, j));
    lemma_assigned(l, k, cuts);
    lemma_rung(l, m);
    assert forall|v: int| 0 <= v < ds.nv() implies (new_at(l, k, ofs, m, v) == c <==> cell_at(
        l,
        m,
        v,
    ) == c) by {
        if j == 0 {
            lemma_uncut(l, k, cuts, c, v);
        } else {
            lemma_above(l, k, cuts, m, v);
        }
    }
    assert forall|v: u32| b.contains(v) <==> g.contains(v) by {
        assert(b.contains(v) == rim(c, v));
        if b.contains(v) {
            lemma_pool_range(ds, ov, k, cuts, ups, j, v);
            let (fwd, t) = choose|fwd: bool, t: int|
                #[trigger] is_edge(ds, fwd, v, t) && new_at(
                    l,
                    k,
                    ofs,
                    m,
                    far_end(ds, fwd, v, t) as int,
                ) != new_at(l, k, ofs, m, v as int);
            let w = far_end(ds, fwd, v, t);
            assert(w < ds.nv());
            assert(cell_at(l, m, w as int) != c);
            assert(crosses(ds, l, m, fwd, v, t));
            assert(on_edge(ds, l, m, v));
            assert(gate_at(l, m, v));
        }
        if g.contains(v) {
            let i = g.index_of(v);
            lemma_gate_cell(l, m, c, i);
            assert(l[m].bhead[c + 1] <= l[m].bhead[l[m].bhead.len() - 1]);
            assert(l[m].bnd[l[m].bhead[c] + i] == v);
            assert(v < ds.nv());
            lemma_index_in(g, i);
            assert(gate_at(l, m, v));
            assert(on_edge(ds, l, m, v));
            let (fwd, t) = choose|fwd: bool, t: int| crosses(ds, l, m, fwd, v, t);
            let w = far_end(ds, fwd, v, t);
            assert(is_edge(ds, fwd, v, t));
            assert(w < ds.nv());
            assert(leaves_new(ds, l, k, ofs, m, v));
            lemma_in_pool(ds, ov, k, cuts, ups, j, v);
            assert(rim(c, v));
        }
    }
    lemma_same_ascending(b, g);
    assert(u.keep@[c]);
    assert forall|i: int, fwd: bool| 0 <= i < g.len() implies #[trigger] has_bit(
        u.have@,
        slot(u.bhead@, u.bnd@.len() as int, c, i, fwd),
    ) == held(ov.levels@[m], c, i, fwd) by {
        assert(u.bhead@[c + 1] <= u.bhead@[u.bhead@.len() - 1]);
    }
}

/// The vertices looked at are vertices.
proof fn lemma_pool_range(
    ds: Dataset,
    ov: Overlay,
    k: int,
    cuts: Seq<(u32, Vec<u32>)>,
    ups: Seq<LevelUpdate>,
    j: int,
    v: u32,
)
    requires
        ladder_ok(ov.ladder()),
        ds.nv() == ov.ladder()[0].of.len(),
        0 <= k,
        0 <= j,
        k + j < ov.ladder().len(),
        plan_ok(ov.ladder()[k], cuts),
        ds.nv() <= u32::MAX,
        forall|i: int| 0 <= i < j ==> #[trigger] updated(ds, ov, k, cuts, ups, i),
        pool_of(ds.nv() as int, ov.ladder(), k, ups, j).contains(v),
    ensures
        v < ds.nv(),
    decreases j,
{
    let l = ov.ladder();
    let pool = pool_of(ds.nv() as int, l, k, ups, j);
    let i = pool.index_of(v);
    assert(pool[i] == v);
    if j > 0 {
        assert(updated(ds, ov, k, cuts, ups, j - 1));
        let u = ups[j - 1];
        let p = pool_of(ds.nv() as int, l, k, ups, j - 1);
        let n = new_regions(l, k, regions_after(l, k, cuts), k + j - 1);
        let rim = rim_new(ds, l, k, new_ofs(l, k, cuts), k + j - 1, p);
        let c = lemma_in_block(u.bhead@, u.bnd@, n, i);
        assert(u.bhead@[c + 1] <= u.bhead@[u.bhead@.len() - 1]);
        assert(block(u.bhead@, u.bnd@, c)[i - u.bhead@[c]] == v);
        assert(block(u.bhead@, u.bnd@, c).contains(v));
        assert(rim(c, v));
        lemma_pool_range(ds, ov, k, cuts, ups, j - 1, v);
    } else if k > 0 {
        lemma_rung(l, k - 1);
    }
}

} // verus!
