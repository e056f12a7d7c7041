//! Choosing which regions to split, and where to cut them.

use vstd::prelude::*;
use crate::dataset::{head_ok, Dataset};
use crate::lookup::ascending;
use crate::overlay::rows::{edge_head, far_end};
use crate::overlay::shape::{
    cell_at, gates, index_in, lemma_rung, local_index, members, regions, Ladder, Level, Overlay,
    Rung, Values,
};
use crate::overlay::split::{names_units, unit_at, SplitPlan};
use crate::sorting::{lemma_same_items, sort_by_first};

verus! {

// -------------------------------------------------------- the widest regions

/// The regions of more than `max` gates, widest first.
pub open spec fn ranked(r: Rung, max: int, full: Seq<u32>) -> bool {
    &&& full.no_duplicates()
    &&& forall|c: u32|
        #[trigger] full.contains(c) <==> c < regions(r) && gates(r, c as int).len() > max
    &&& forall|i: int, j: int|
        0 <= i <= j < full.len() ==> gates(r, (#[trigger] full[i]) as int).len() >= gates(
            r,
            (#[trigger] full[j]) as int,
        ).len()
}

/// The first `limit` of them; which of two equally wide ones comes first is
/// open.
pub open spec fn worst(r: Rung, max: int, limit: int, list: Seq<u32>) -> bool {
    exists|full: Seq<u32>| #[trigger]
        ranked(r, max, full) && list == full.take(
            if limit < full.len() {
                limit
            } else {
                full.len() as int
            },
        )
}

fn find_worst(lv: &Level, max: usize, limit: usize) -> (list: Vec<u32>)
    requires
        lv.bhead@.len() >= 1,
        regions(lv.rung()) <= u32::MAX,
        head_ok(lv.bhead@, lv.bnd@.len() as int),
    ensures
        worst(lv.rung(), max as int, limit as int, list@),
{
    let ghost r = lv.rung();
    let n: usize = lv.regions();
    let mut keyed: Vec<(u32, u32, u32)> = Vec::new();
    let mut c: usize = 0;
    while c < n
        invariant
            r == lv.rung(),
            n == regions(r),
            n <= u32::MAX,
            head_ok(lv.bhead@, lv.bnd@.len() as int),
            lv.bhead@.len() >= 1,
            c <= n,
            forall|i: int|
                0 <= i < keyed@.len() ==> (#[trigger] keyed@[i]).1 < c && gates(
                    r,
                    keyed@[i].1 as int,
                ).len() > max && keyed@[i].0 == u32::MAX - gates(r, keyed@[i].1 as int).len()
                    && keyed@[i].2 == 0,
            forall|i: int, j: int|
                0 <= i < j < keyed@.len() ==> (#[trigger] keyed@[i]).1 < (#[trigger] keyed@[j]).1,
            forall|d: int|
                0 <= d < c && (#[trigger] gates(r, d)).len() > max ==> keyed@.contains(
                    ((u32::MAX - gates(r, d).len()) as u32, d as u32, 0),
                ),
        decreases n - c,
    {
        let ghost k0 = keyed@;
        let b: usize = lv.boundary(c as u32).len();
        assert(b <= lv.bhead@[c + 1]);
        if b > max {
            keyed.push((u32::MAX - b as u32, c as u32, 0));
        }
        proof {
            assert forall|d: int|
                0 <= d < c + 1 && (#[trigger] gates(r, d)).len() > max implies keyed@.contains(
                ((u32::MAX - gates(r, d).len()) as u32, d as u32, 0),
            ) by {
                if d < c {
                    let x = k0.index_of(((u32::MAX - gates(r, d).len()) as u32, d as u32, 0));
                    assert(keyed@[x] == k0[x]);
                } else {
                    assert(keyed@[k0.len() as int].1 == d);
                }
            }
        }
        c += 1;
    }
    let ghost k1 = keyed@;
    sort_by_first(&mut keyed);
    let ghost full = Seq::new(keyed@.len(), |i: int| keyed@[i].1);
    proof {
        lemma_same_items(keyed@, k1);
        assert forall|i: int| 0 <= i < keyed@.len() implies k1.contains(#[trigger] keyed@[i]) by {
            assert(keyed@.contains(keyed@[i]));
        }
        lemma_shuffled(k1, keyed@);
        assert forall|d: u32| #[trigger] full.contains(d) <==> d < regions(r) && gates(
            r,
            d as int,
        ).len() > max by {
            if full.contains(d) {
                let x = full.index_of(d);
                assert(full[x] == keyed@[x].1);
                let y = k1.index_of(keyed@[x]);
                assert(k1[y] == keyed@[x]);
            }
            if d < regions(r) && gates(r, d as int).len() > max {
                let e = ((u32::MAX - gates(r, d as int).len()) as u32, d, 0u32);
                assert(k1.contains(e));
                assert(keyed@.contains(e));
                let x = keyed@.index_of(e);
                assert(full[x] == d);
            }
        }
        assert forall|i: int, j: int| 0 <= i <= j < full.len() implies gates(
            r,
            (#[trigger] full[i]) as int,
        ).len() >= gates(r, (#[trigger] full[j]) as int).len() by {
            let (x, y) = (k1.index_of(keyed@[i]), k1.index_of(keyed@[j]));
            assert(k1[x] == keyed@[i] && k1[y] == keyed@[j]);
            assert(keyed@[i].0 <= keyed@[j].0);
        }
        assert(ranked(r, max as int, full));
    }
    let stop: usize = if limit < keyed.len() {
        limit
    } else {
        keyed.len()
    };
    let mut list: Vec<u32> = Vec::new();
    while list.len() < stop
        invariant
            stop <= keyed@.len(),
            list@.len() <= stop,
            full == Seq::new(keyed@.len(), |i: int| keyed@[i].1),
            list@ == full.take(list@.len() as int),
        decreases stop - list@.len(),
    {
        let i: usize = list.len();
        assert(full.take(i as int).push(full[i as int]) =~= full.take(i + 1));
        list.push(keyed[i].1);
    }
    list
}

proof fn lemma_worst(r: Rung, max: int, limit: int, list: Seq<u32>)
    requires
        0 <= limit,
        worst(r, max, limit, list),
    ensures
        forall|i: int| 0 <= i < list.len() ==> (#[trigger] list[i]) < regions(r),
{
    let full = choose|full: Seq<u32>| #[trigger]
        ranked(r, max, full) && list == full.take(
            if limit < full.len() {
                limit
            } else {
                full.len() as int
            },
        );
    assert forall|i: int| 0 <= i < list.len() implies (#[trigger] list[i]) < regions(r) by {
        assert(list[i] == full[i]);
        assert(full.contains(full[i]));
    }
}

/// Reordered, items with distinct second parts stay distinct.
proof fn lemma_shuffled(a: Seq<(u32, u32, u32)>, b: Seq<(u32, u32, u32)>)
    requires
        a.to_multiset() == b.to_multiset(),
        forall|i: int, j: int|
            0 <= i < j < a.len() ==> (#[trigger] a[i]).1 < (#[trigger] a[j]).1,
    ensures
        Seq::new(b.len(), |i: int| b[i].1).no_duplicates(),
{
    let f = Seq::new(b.len(), |i: int| b[i].1);
    assert(a.no_duplicates());
    a.lemma_multiset_has_no_duplicates();
    b.lemma_multiset_has_no_duplicates_conv();
    lemma_same_items(a, b);
    assert forall|i: int, j: int| 0 <= i < f.len() && 0 <= j < f.len() && i != j implies f[i]
        != f[j] by {
        assert(b.contains(b[i]) && b.contains(b[j]));
        assert(a.contains(b[i]) && a.contains(b[j]));
        let (x, y) = (a.index_of(b[i]), a.index_of(b[j]));
        assert(a[x] == b[i] && a[y] == b[j]);
        assert(x != y);
    }
}

// -------------------------------------------------------------- units

/// The first `n` units that belong to region `c`, ascending.
pub open spec fn units_of(of: Seq<u32>, c: u32, n: int) -> Seq<u32>
    decreases n,
{
    if n <= 0 {
        Seq::empty()
    } else if of[n - 1] == c {
        units_of(of, c, n - 1).push((n - 1) as u32)
    } else {
        units_of(of, c, n - 1)
    }
}

pub(crate) proof fn lemma_units(of: Seq<u32>, c: u32, n: int)
    requires
        0 <= n <= of.len(),
        of.len() <= u32::MAX,
    ensures
        ascending(units_of(of, c, n)),
        units_of(of, c, n).len() <= n,
        forall|i: int|
            0 <= i < units_of(of, c, n).len() ==> (#[trigger] units_of(of, c, n)[i]) < n
                && of[units_of(of, c, n)[i] as int] == c,
    decreases n,
{
    if n > 0 {
        lemma_units(of, c, n - 1);
        let before = units_of(of, c, n - 1);
        assert forall|i: int| 0 <= i < units_of(of, c, n).len() implies (#[trigger] units_of(
            of,
            c,
            n,
        )[i]) < n && of[units_of(of, c, n)[i] as int] == c by {
            if i < before.len() {
                assert(units_of(of, c, n)[i] == before[i]);
            }
        }
        assert forall|i: int, j: int|
            0 <= i < j < units_of(of, c, n).len() implies units_of(of, c, n)[i] < units_of(
            of,
            c,
            n,
        )[j] by {
            assert(units_of(of, c, n)[i] == before[i]);
            if j < before.len() {
                assert(units_of(of, c, n)[j] == before[j]);
            }
        }
    }
}

fn find_units(of: &[u32], c: u32) -> (r: Vec<u32>)
    requires
        of@.len() <= u32::MAX,
    ensures
        r@ == units_of(of@, c, of@.len() as int),
{
    let mut r: Vec<u32> = Vec::new();
    let mut u: usize = 0;
    while u < of.len()
        invariant
            of@.len() <= u32::MAX,
            u <= of@.len(),
            r@ == units_of(of@, c, u as int),
        decreases of@.len() - u,
    {
        if of[u] == c {
            r.push(u as u32);
        }
        u += 1;
    }
    r
}

/// The vertices through which a unit touches others: itself at level 0, the
/// gates of the region above it.
pub open spec fn touching(l: Ladder, k: int, x: u32) -> Seq<u32> {
    if k == 0 {
        seq![x]
    } else {
        gates(l[k - 1], x as int)
    }
}

fn touch(ov: &Overlay, k: usize, x: u32) -> (r: Vec<u32>)
    requires
        ov.wf(),
        k < ov.ladder().len(),
        x < ov.ladder()[k as int].of.len(),
    ensures
        r@ == touching(ov.ladder(), k as int, x),
        r@.len() <= u32::MAX,
        forall|i: int| 0 <= i < r@.len() ==> (#[trigger] r@[i]) < ov.ladder()[0].of.len(),
{
    let ghost l = ov.ladder();
    proof {
        lemma_rung(l, k as int);
    }
    let mut r: Vec<u32> = Vec::new();
    if k == 0 {
        r.push(x);
        assert(r@ =~= seq![x]);
        return r;
    }
    proof {
        lemma_rung(l, k - 1);
        assert(ov.levels@[k - 1].rung() == l[k - 1]);
    }
    let b: &[u32] = ov.levels[k - 1].boundary(x);
    let ghost (h, y) = (l[k - 1].bhead, x as int);
    assert(h[y + 1] <= h[h.len() - 1]);
    while r.len() < b.len()
        invariant
            r@.len() <= b@.len(),
            b@ == gates(l[k - 1], x as int),
            r@ == b@.take(r@.len() as int),
        decreases b@.len() - r@.len(),
    {
        let v: u32 = b[r.len()];
        assert(b@.take(r@.len() as int).push(v) =~= b@.take(r@.len() as int + 1));
        r.push(v);
    }
    proof {
        assert(b@.take(b@.len() as int) =~= b@);
        assert forall|i: int| 0 <= i < r@.len() implies (#[trigger] r@[i]) < l[0].of.len() by {
            assert(r@[i] == l[k - 1].bnd[h[y] + i]);
        }
    }
    r
}

/// The unit of level `k` a vertex belongs to.
fn unit_of(ov: &Overlay, k: usize, v: u32) -> (u: u32)
    requires
        ov.wf(),
        k < ov.ladder().len(),
        v < ov.ladder()[0].of.len(),
    ensures
        u == unit_at(ov.ladder(), k as int, v as int),
        u < ov.ladder()[k as int].of.len(),
{
    proof {
        lemma_rung(ov.ladder(), k as int);
    }
    if k == 0 {
        v
    } else {
        ov.cell_at(k - 1, v)
    }
}

// ------------------------------------------------------------------- sweep

/// Units of region `c` that the edges of `u` from `t` on reach, added in turn
/// until there are `half` of them.
pub open spec fn sweep_edges(
    ds: Dataset,
    l: Ladder,
    k: int,
    c: u32,
    half: int,
    seen: Seq<u32>,
    fwd: bool,
    u: u32,
    t: int,
) -> Seq<u32>
    decreases edge_head(ds, fwd)[u + 1] - t,
{
    if t >= edge_head(ds, fwd)[u + 1] {
        seen
    } else {
        let x = unit_at(l, k, far_end(ds, fwd, u, t) as int) as u32;
        if l[k].of[x as int] == c && !seen.contains(x) {
            let s = seen.push(x);
            if s.len() >= half {
                s
            } else {
                sweep_edges(ds, l, k, c, half, s, fwd, u, t + 1)
            }
        } else {
            sweep_edges(ds, l, k, c, half, seen, fwd, u, t + 1)
        }
    }
}

/// The same for the vertices of `verts` from `i` on, forward edges first.
pub open spec fn sweep_verts(
    ds: Dataset,
    l: Ladder,
    k: int,
    c: u32,
    half: int,
    seen: Seq<u32>,
    verts: Seq<u32>,
    i: int,
) -> Seq<u32>
    decreases verts.len() - i,
{
    if i >= verts.len() {
        seen
    } else {
        let u = verts[i];
        let s = sweep_edges(
            ds,
            l,
            k,
            c,
            half,
            seen,
            true,
            u,
            edge_head(ds, true)[u as int] as int,
        );
        let s2 = sweep_edges(
            ds,
            l,
            k,
            c,
            half,
            s,
            false,
            u,
            edge_head(ds, false)[u as int] as int,
        );
        sweep_verts(ds, l, k, c, half, s2, verts, i + 1)
    }
}

/// Breadth-first from the unit at `at`, until `half` have been seen or there is
/// nothing left to visit.
pub open spec fn sweep(
    ds: Dataset,
    l: Ladder,
    k: int,
    c: u32,
    half: int,
    seen: Seq<u32>,
    at: int,
) -> Seq<u32>
    decreases l[k].of.len() - at,
{
    if at >= seen.len() || at >= l[k].of.len() || seen.len() >= half {
        seen
    } else {
        sweep(
            ds,
            l,
            k,
            c,
            half,
            sweep_verts(ds, l, k, c, half, seen, touching(l, k, seen[at]), 0),
            at + 1,
        )
    }
}

/// Half of region `c`, swept from its first unit.
pub open spec fn swept(ds: Dataset, l: Ladder, k: int, c: u32) -> Option<Seq<u32>> {
    let units = units_of(l[k].of, c, l[k].of.len() as int);
    if units.len() < 4 {
        None
    } else {
        let s = sweep(ds, l, k, c, (units.len() / 2) as int, seq![units[0]], 0);
        if 1 < s.len() < units.len() {
            Some(s)
        } else {
            None
        }
    }
}

/// The cuts of the first `n` listed regions.
pub open spec fn cuts_of(
    listed: Seq<u32>,
    half: spec_fn(u32) -> Option<Seq<u32>>,
    n: int,
) -> Seq<(u32, Seq<u32>)>
    decreases n,
{
    if n <= 0 {
        Seq::empty()
    } else {
        let rest = cuts_of(listed, half, n - 1);
        match half(listed[n - 1]) {
            Some(s) => rest.push((listed[n - 1], s)),
            None => rest,
        }
    }
}

pub open spec fn cut_views(cuts: Seq<(u32, Vec<u32>)>) -> Seq<(u32, Seq<u32>)> {
    Seq::new(cuts.len(), |i: int| (cuts[i].0, cuts[i].1@))
}

/// How the breadth-first sweep halves a region.
pub open spec fn by_sweep(ds: Dataset, l: Ladder, k: int) -> spec_fn(u32) -> Option<Seq<u32>> {
    |c: u32| swept(ds, l, k, c)
}

/// Every seen unit is marked, once, and belongs to the region.
spec fn tallied(of: Seq<u32>, c: u32, seen: Seq<u32>, mark: Seq<bool>) -> bool {
    &&& mark.len() == of.len()
    &&& seen.no_duplicates()
    &&& forall|i: int|
        0 <= i < seen.len() ==> (#[trigger] seen[i]) < of.len() && of[seen[i] as int] == c
    &&& forall|u: int| 0 <= u < of.len() ==> #[trigger] mark[u] == seen.contains(u as u32)
}

fn sweep_side(
    ds: &Dataset,
    ov: &Overlay,
    k: usize,
    c: u32,
    half: usize,
    seen: &mut Vec<u32>,
    mark: &mut Vec<bool>,
    fwd: bool,
    u: u32,
)
    requires
        ds.graph_ok(),
        ov.wf(),
        ds.nv() == ov.ladder()[0].of.len(),
        k < ov.ladder().len(),
        ov.ladder()[k as int].of.len() <= u32::MAX,
        tallied(ov.ladder()[k as int].of, c, old(seen)@, old(mark)@),
        u < ds.nv(),
    ensures
        tallied(ov.ladder()[k as int].of, c, final(seen)@, final(mark)@),
        final(seen)@ == sweep_edges(
            *ds,
            ov.ladder(),
            k as int,
            c,
            half as int,
            old(seen)@,
            fwd,
            u,
            edge_head(*ds, fwd)[u as int] as int,
        ),
{
    let ghost l = ov.ladder();
    let ghost kk = k as int;
    let ghost head = edge_head(*ds, fwd);
    let ghost goal = sweep_edges(
        *ds,
        l,
        kk,
        c,
        half as int,
        seen@,
        fwd,
        u,
        head[u as int] as int,
    );
    let hs: &[u32] = if fwd {
        ds.head
    } else {
        ds.rhead
    };
    assert(head[u + 1] <= head[head.len() - 1]);
    let (a, e): (usize, usize) = (hs[u as usize] as usize, hs[u as usize + 1] as usize);
    let mut t: usize = a;
    while t < e
        invariant
            ds.graph_ok(),
            ov.wf(),
            l == ov.ladder(),
            kk == k,
            ds.nv() == l[0].of.len(),
            k < l.len(),
            l[kk].of.len() <= u32::MAX,
            u < ds.nv(),
            head == edge_head(*ds, fwd),
            a == head[u as int],
            e == head[u + 1],
            a <= t <= e,
            e <= (if fwd { ds.eseg@.len() } else { ds.rseg@.len() }),
            tallied(l[kk].of, c, seen@, mark@),
            goal == sweep_edges(*ds, l, kk, c, half as int, seen@, fwd, u, t as int),
            goal == sweep_edges(
                *ds,
                l,
                kk,
                c,
                half as int,
                old(seen)@,
                fwd,
                u,
                head[u as int] as int,
            ),
        decreases e - t,
    {
        let v: u32 = if fwd {
            ds.target(u, t)
        } else {
            ds.rtarget(u, t)
        };
        proof {
            assert(v == far_end(*ds, fwd, u, t as int));
            assert(v < ds.nv());
            assert(ov.levels@[kk].rung() == l[kk]);
        }
        let x: u32 = unit_of(ov, k, v);
        let here: u32 = ov.levels[k].of[x as usize];
        if here == c && !mark[x as usize] {
            let ghost (s0, m0) = (seen@, mark@);
            seen.push(x);
            mark.set(x as usize, true);
            proof {
                assert(mark@[x as int]);
                assert(!s0.contains(x));
                assert(seen@ == s0.push(x));
                assert(seen@.last() == x);
                assert forall|y: int| 0 <= y < l[kk].of.len() implies #[trigger] mark@[y]
                    == seen@.contains(y as u32) by {
                    assert(m0[y] == s0.contains(y as u32));
                    if s0.contains(y as u32) {
                        let i = s0.index_of(y as u32);
                        assert(seen@[i] == y as u32);
                    }
                }
            }
            if seen.len() >= half {
                return;
            }
        }
        t += 1;
    }
}

proof fn lemma_room(of: Seq<u32>, c: u32, seen: Seq<u32>, mark: Seq<bool>)
    requires
        tallied(of, c, seen, mark),
    ensures
        seen.len() <= of.len(),
{
    let ints = seen.map_values(|x: u32| x as int);
    assert(ints.no_duplicates()) by {
        assert forall|i: int, j: int|
            0 <= i < ints.len() && 0 <= j < ints.len() && i != j implies ints[i] != ints[j] by {
            assert(seen[i] != seen[j]);
        }
    }
    ints.unique_seq_to_set();
    let all = vstd::set_lib::set_int_range(0, of.len() as int);
    vstd::set_lib::lemma_int_range(0, of.len() as int);
    assert(ints.to_set().subset_of(all)) by {
        assert forall|x: int| ints.to_set().contains(x) implies all.contains(x) by {
            let i = ints.index_of(x);
            assert(ints[i] == x);
            assert(seen[i] < of.len());
        }
    }
    vstd::set_lib::lemma_len_subset(ints.to_set(), all);
}

fn sweep_half(ds: &Dataset, ov: &Overlay, k: usize, c: u32, first: u32, half: usize) -> (seen: Vec<
    u32,
>)
    requires
        ds.graph_ok(),
        ov.wf(),
        ds.nv() == ov.ladder()[0].of.len(),
        k < ov.ladder().len(),
        ov.ladder()[k as int].of.len() <= u32::MAX,
        first < ov.ladder()[k as int].of.len(),
        ov.ladder()[k as int].of[first as int] == c,
    ensures
        seen@ == sweep(*ds, ov.ladder(), k as int, c, half as int, seq![first], 0),
        forall|i: int|
            0 <= i < seen@.len() ==> (#[trigger] seen@[i]) < ov.ladder()[k as int].of.len(),
{
    let ghost l = ov.ladder();
    let ghost kk = k as int;
    let ghost of = l[kk].of;
    assert(ov.levels@[kk].rung() == l[kk]);
    let n: usize = ov.levels[k].of.len();
    let mut mark: Vec<bool> = vec![false; n];
    let mut seen: Vec<u32> = Vec::new();
    seen.push(first);
    mark.set(first as usize, true);
    let mut at: usize = 0;
    proof {
        assert(seen@ =~= seq![first]);
        assert(seen@[0] == first);
        assert(tallied(of, c, seen@, mark@));
    }
    while at < seen.len() && seen.len() < half
        invariant
            ds.graph_ok(),
            ov.wf(),
            l == ov.ladder(),
            kk == k,
            of == l[kk].of,
            ds.nv() == l[0].of.len(),
            k < l.len(),
            of.len() <= u32::MAX,
            tallied(of, c, seen@, mark@),
            at <= seen@.len(),
            sweep(*ds, l, kk, c, half as int, seen@, at as int) == sweep(
                *ds,
                l,
                kk,
                c,
                half as int,
                seq![first],
                0,
            ),
        decreases of.len() - at,
    {
        proof {
            lemma_room(of, c, seen@, mark@);
            assert(seen@[at as int] < of.len());
        }
        let ghost s0 = seen@;
        let verts: Vec<u32> = touch(ov, k, seen[at]);
        let mut i: usize = 0;
        while i < verts.len()
            invariant
                ds.graph_ok(),
                ov.wf(),
                l == ov.ladder(),
                kk == k,
                of == l[kk].of,
                ds.nv() == l[0].of.len(),
                k < l.len(),
                of.len() <= u32::MAX,
                tallied(of, c, seen@, mark@),
                s0.len() <= seen@.len(),
                i <= verts@.len(),
                forall|i: int| 0 <= i < verts@.len() ==> (#[trigger] verts@[i]) < l[0].of.len(),
                sweep_verts(*ds, l, kk, c, half as int, seen@, verts@, i as int) == sweep_verts(
                    *ds,
                    l,
                    kk,
                    c,
                    half as int,
                    s0,
                    verts@,
                    0,
                ),
            decreases verts@.len() - i,
        {
            let u: u32 = verts[i];
            proof {
                lemma_sweep_grows(
                    *ds,
                    l,
                    kk,
                    c,
                    half as int,
                    seen@,
                    true,
                    u,
                    edge_head(*ds, true)[u as int] as int,
                );
            }
            sweep_side(ds, ov, k, c, half, &mut seen, &mut mark, true, u);
            proof {
                lemma_sweep_grows(
                    *ds,
                    l,
                    kk,
                    c,
                    half as int,
                    seen@,
                    false,
                    u,
                    edge_head(*ds, false)[u as int] as int,
                );
            }
            sweep_side(ds, ov, k, c, half, &mut seen, &mut mark, false, u);
            i += 1;
        }
        at += 1;
    }
    seen
}

proof fn lemma_sweep_grows(
    ds: Dataset,
    l: Ladder,
    k: int,
    c: u32,
    half: int,
    seen: Seq<u32>,
    fwd: bool,
    u: u32,
    t: int,
)
    ensures
        sweep_edges(ds, l, k, c, half, seen, fwd, u, t).len() >= seen.len(),
    decreases edge_head(ds, fwd)[u + 1] - t,
{
    if t < edge_head(ds, fwd)[u + 1] {
        let x = unit_at(l, k, far_end(ds, fwd, u, t) as int) as u32;
        lemma_sweep_grows(ds, l, k, c, half, seen, fwd, u, t + 1);
        lemma_sweep_grows(ds, l, k, c, half, seen.push(x), fwd, u, t + 1);
    }
}

/// Regions of level `k` over `max_gates`, worst first, each halved by a
/// breadth-first sweep over its own units.
pub fn plan_splits(
    ds: &Dataset,
    ov: &Overlay,
    k: usize,
    max_gates: usize,
    limit: usize,
) -> (plan: SplitPlan)
    requires
        ds.graph_ok(),
        ov.wf(),
        ds.nv() == ov.ladder()[0].of.len(),
        k < ov.ladder().len(),
        ov.ladder()[k as int].of.len() <= u32::MAX,
    ensures
        exists|list: Seq<u32>| #[trigger]
            worst(ov.ladder()[k as int], max_gates as int, limit as int, list) && cut_views(
                plan.cuts@,
            ) == cuts_of(list, by_sweep(*ds, ov.ladder(), k as int), list.len() as int),
        names_units(ov.ladder()[k as int], plan.cuts@),
{
    let ghost l = ov.ladder();
    let ghost kk = k as int;
    let ghost half_of = by_sweep(*ds, l, kk);
    proof {
        lemma_rung(l, kk);
        assert(ov.levels@[kk].rung() == l[kk]);
    }
    let lv: &Level = &ov.levels[k];
    let list: Vec<u32> = find_worst(lv, max_gates, limit);
    proof {
        lemma_worst(l[kk], max_gates as int, limit as int, list@);
    }
    let mut cuts: Vec<(u32, Vec<u32>)> = Vec::new();
    let mut i: usize = 0;
    assert(cut_views(cuts@) =~= cuts_of(list@, half_of, 0));
    while i < list.len()
        invariant
            ds.graph_ok(),
            ov.wf(),
            l == ov.ladder(),
            kk == k,
            half_of == by_sweep(*ds, l, kk),
            lv.of@ == l[kk].of,
            ds.nv() == l[0].of.len(),
            k < l.len(),
            l[kk].of.len() <= u32::MAX,
            forall|i: int| 0 <= i < list@.len() ==> (#[trigger] list@[i]) < regions(l[kk]),
            i <= list@.len(),
            cut_views(cuts@) == cuts_of(list@, half_of, i as int),
            names_units(l[kk], cuts@),
        decreases list@.len() - i,
    {
        let c: u32 = list[i];
        let units: Vec<u32> = find_units(lv.of, c);
        let ghost c0 = cuts@;
        assert(half_of(c) == swept(*ds, l, kk, c));
        if units.len() >= 4 {
            proof {
                lemma_units(l[kk].of, c, l[kk].of.len() as int);
            }
            let seen: Vec<u32> = sweep_half(ds, ov, k, c, units[0], units.len() / 2);
            if seen.len() > 1 && seen.len() < units.len() {
                let ghost s = seen@;
                cuts.push((c, seen));
                assert(cut_views(cuts@) =~= cut_views(c0).push((c, s)));
            }
        }
        i += 1;
    }
    SplitPlan { cuts }
}

// ------------------------------------------------------------------- growth

/// The units of `units`, other than the one at `i`, that the edges of `u` from
/// `t` on lead to, one entry per edge.
pub open spec fn link_edges(
    ds: Dataset,
    l: Ladder,
    k: int,
    units: Seq<u32>,
    i: int,
    links: Seq<int>,
    fwd: bool,
    u: u32,
    t: int,
) -> Seq<int>
    decreases edge_head(ds, fwd)[u + 1] - t,
{
    if t >= edge_head(ds, fwd)[u + 1] {
        links
    } else {
        let x = unit_at(l, k, far_end(ds, fwd, u, t) as int) as u32;
        link_edges(
            ds,
            l,
            k,
            units,
            i,
            match index_in(units, x) {
                Some(y) => if y != i {
                    links.push(y)
                } else {
                    links
                },
                None => links,
            },
            fwd,
            u,
            t + 1,
        )
    }
}

pub open spec fn link_verts(
    ds: Dataset,
    l: Ladder,
    k: int,
    units: Seq<u32>,
    i: int,
    links: Seq<int>,
    verts: Seq<u32>,
    n: int,
) -> Seq<int>
    decreases verts.len() - n,
{
    if n >= verts.len() {
        links
    } else {
        let u = verts[n];
        let a = link_edges(
            ds,
            l,
            k,
            units,
            i,
            links,
            true,
            u,
            edge_head(ds, true)[u as int] as int,
        );
        let b = link_edges(
            ds,
            l,
            k,
            units,
            i,
            a,
            false,
            u,
            edge_head(ds, false)[u as int] as int,
        );
        link_verts(ds, l, k, units, i, b, verts, n + 1)
    }
}

/// What the unit at `i` is joined to.
pub open spec fn links_of(ds: Dataset, l: Ladder, k: int, units: Seq<u32>, i: int) -> Seq<int> {
    link_verts(ds, l, k, units, i, Seq::empty(), touching(l, k, units[i]), 0)
}

/// Where a member sits in a region's use counter.
pub open spec fn slot_of(r: Rung, c: int, v: u32) -> Option<int> {
    if r.eager {
        None
    } else {
        match index_in(members(r, c), v) {
            Some(i) => Some(r.vhead[c] + i),
            None => None,
        }
    }
}

/// The uses counted for the first `n` vertices.
pub open spec fn uses_of(r: Rung, counts: Seq<u32>, c: int, verts: Seq<u32>, n: int) -> int
    decreases n,
{
    if n <= 0 {
        0
    } else {
        uses_of(r, counts, c, verts, n - 1) + match slot_of(r, c, verts[n - 1]) {
            Some(p) => counts[p] as int,
            None => 0,
        }
    }
}

/// What the level counts of its members' use; nothing on an eager level.
pub open spec fn counts_of(lv: Level) -> Seq<u32> {
    if lv.values is Lazy {
        lv.lazy().counts()
    } else {
        Seq::empty()
    }
}

/// The traffic through the unit at `i`.
pub open spec fn traffic_of(
    l: Ladder,
    k: int,
    counts: Seq<u32>,
    c: int,
    units: Seq<u32>,
    i: int,
) -> int {
    let verts = touching(l, k, units[i]);
    if counts.len() == 0 {
        0
    } else {
        uses_of(l[k], counts, c, verts, verts.len() as int)
    }
}

/// The first of the quietest among the first `n` units.
pub open spec fn quietest(traffic: Seq<int>, n: int) -> int
    decreases n,
{
    if n <= 1 {
        0
    } else {
        let b = quietest(traffic, n - 1);
        if traffic[n - 1] < traffic[b] {
            n - 1
        } else {
            b
        }
    }
}

/// The unit outside, among the first `n`, with most edges pointing inside; the
/// quieter of two equal ones, and the first of two alike.
pub open spec fn keenest(gain: Seq<int>, traffic: Seq<int>, inside: Seq<bool>, n: int) -> Option<
    int,
>
    decreases n,
{
    if n <= 0 {
        None
    } else {
        let best = keenest(gain, traffic, inside, n - 1);
        let i = n - 1;
        if inside[i] || gain[i] == 0 {
            best
        } else {
            match best {
                None => Some(i),
                Some(b) => if gain[i] > gain[b] || (gain[i] == gain[b] && traffic[i]
                    < traffic[b]) {
                    Some(i)
                } else {
                    Some(b)
                },
            }
        }
    }
}

/// One more for each of the first `n` links.
pub open spec fn pulled(gain: Seq<int>, links: Seq<int>, n: int) -> Seq<int>
    decreases n,
{
    if n <= 0 {
        gain
    } else {
        let g = pulled(gain, links, n - 1);
        g.update(links[n - 1], g[links[n - 1]] + 1)
    }
}

/// Takes the keenest unit in again and again, until `half` are inside or none
/// is joined to them.
pub open spec fn grown(
    links: Seq<Seq<int>>,
    traffic: Seq<int>,
    gain: Seq<int>,
    inside: Seq<bool>,
    taken: int,
    half: int,
) -> (Seq<bool>, int)
    decreases half - taken,
{
    if taken >= half {
        (inside, taken)
    } else {
        match keenest(gain, traffic, inside, inside.len() as int) {
            None => (inside, taken),
            Some(i) => grown(
                links,
                traffic,
                pulled(gain, links[i], links[i].len() as int),
                inside.update(i, true),
                taken + 1,
                half,
            ),
        }
    }
}

/// The first `n` units that are inside.
pub open spec fn chosen(units: Seq<u32>, inside: Seq<bool>, n: int) -> Seq<u32>
    decreases n,
{
    if n <= 0 {
        Seq::empty()
    } else if inside[n - 1] {
        chosen(units, inside, n - 1).push(units[n - 1])
    } else {
        chosen(units, inside, n - 1)
    }
}

/// Half of region `c`, grown from its quietest unit along the fewest cut
/// edges.
pub open spec fn weighed(
    ds: Dataset,
    l: Ladder,
    k: int,
    counts: Seq<u32>,
    c: u32,
) -> Option<Seq<u32>> {
    let units = units_of(l[k].of, c, l[k].of.len() as int);
    let n = units.len() as int;
    if n < 4 {
        None
    } else {
        let links = Seq::new(n as nat, |i: int| links_of(ds, l, k, units, i));
        let traffic = Seq::new(n as nat, |i: int| traffic_of(l, k, counts, c as int, units, i));
        let seed = quietest(traffic, n);
        let (inside, taken) = grown(
            links,
            traffic,
            pulled(Seq::new(n as nat, |i: int| 0int), links[seed], links[seed].len() as int),
            Seq::new(n as nat, |i: int| i == seed),
            1,
            n / 2,
        );
        if 1 < taken < n {
            Some(chosen(units, inside, n))
        } else {
            None
        }
    }
}

/// How growth by cost halves a region.
pub open spec fn by_cost(ds: Dataset, l: Ladder, k: int, counts: Seq<u32>) -> spec_fn(
    u32,
) -> Option<Seq<u32>> {
    |c: u32| weighed(ds, l, k, counts, c)
}

spec fn ints(v: Seq<usize>) -> Seq<int> {
    Seq::new(v.len(), |i: int| v[i] as int)
}

fn link_side(
    ds: &Dataset,
    ov: &Overlay,
    k: usize,
    units: &Vec<u32>,
    i: usize,
    links: &mut Vec<usize>,
    fwd: bool,
    u: u32,
)
    requires
        ds.graph_ok(),
        ov.wf(),
        ds.nv() == ov.ladder()[0].of.len(),
        k < ov.ladder().len(),
        ascending(units@),
        u < ds.nv(),
        forall|x: int| 0 <= x < old(links)@.len() ==> (#[trigger] old(links)@[x]) < units@.len(),
    ensures
        ints(final(links)@) == link_edges(
            *ds,
            ov.ladder(),
            k as int,
            units@,
            i as int,
            ints(old(links)@),
            fwd,
            u,
            edge_head(*ds, fwd)[u as int] as int,
        ),
        forall|x: int| 0 <= x < final(links)@.len() ==> (#[trigger] final(links)@[x]) < units@.len(),
{
    let ghost l = ov.ladder();
    let ghost kk = k as int;
    let ghost head = edge_head(*ds, fwd);
    let ghost goal = link_edges(
        *ds,
        l,
        kk,
        units@,
        i as int,
        ints(links@),
        fwd,
        u,
        head[u as int] as int,
    );
    let hs: &[u32] = if fwd {
        ds.head
    } else {
        ds.rhead
    };
    assert(head[u + 1] <= head[head.len() - 1]);
    let (a, e): (usize, usize) = (hs[u as usize] as usize, hs[u as usize + 1] as usize);
    let mut t: usize = a;
    while t < e
        invariant
            ds.graph_ok(),
            ov.wf(),
            l == ov.ladder(),
            kk == k,
            ds.nv() == l[0].of.len(),
            k < l.len(),
            ascending(units@),
            u < ds.nv(),
            head == edge_head(*ds, fwd),
            a == head[u as int],
            e == head[u + 1],
            a <= t <= e,
            e <= (if fwd { ds.eseg@.len() } else { ds.rseg@.len() }),
            forall|x: int| 0 <= x < links@.len() ==> (#[trigger] links@[x]) < units@.len(),
            goal == link_edges(*ds, l, kk, units@, i as int, ints(links@), fwd, u, t as int),
        decreases e - t,
    {
        let v: u32 = if fwd {
            ds.target(u, t)
        } else {
            ds.rtarget(u, t)
        };
        proof {
            assert(v == far_end(*ds, fwd, u, t as int));
            assert(v < ds.nv());
        }
        let x: u32 = unit_of(ov, k, v);
        let ghost l0 = links@;
        match local_index(units, x) {
            Some(y) => {
                if y != i {
                    links.push(y);
                    assert(ints(links@) =~= ints(l0).push(y as int));
                }
            },
            None => {},
        }
        t += 1;
    }
}

/// What the unit at `i` is joined to, and the traffic through it.
fn link(
    ds: &Dataset,
    ov: &Overlay,
    k: usize,
    c: u32,
    counts: &[u32],
    units: &Vec<u32>,
    i: usize,
) -> (r: (Vec<usize>, u64))
    requires
        ds.graph_ok(),
        ov.wf(),
        ds.nv() == ov.ladder()[0].of.len(),
        k < ov.ladder().len(),
        c < regions(ov.ladder()[k as int]),
        counts@ == counts_of(ov.levels@[k as int]),
        ascending(units@),
        i < units@.len(),
        units@[i as int] < ov.ladder()[k as int].of.len(),
    ensures
        ints(r.0@) == links_of(*ds, ov.ladder(), k as int, units@, i as int),
        r.1 == traffic_of(ov.ladder(), k as int, counts@, c as int, units@, i as int),
        forall|x: int| 0 <= x < r.0@.len() ==> (#[trigger] r.0@[x]) < units@.len(),
{
    let ghost l = ov.ladder();
    let ghost kk = k as int;
    let verts: Vec<u32> = touch(ov, k, units[i]);
    let mut links: Vec<usize> = Vec::new();
    let mut uses: u64 = 0;
    let mut n: usize = 0;
    let ghost goal = links_of(*ds, l, kk, units@, i as int);
    proof {
        assert(ints(links@) =~= Seq::<int>::empty());
        lemma_rung(l, kk);
        assert(ov.levels@[kk].rung() == l[kk]);
        assert(ov.levels@[kk].blocks_ok());
    }
    while n < verts.len()
        invariant
            ds.graph_ok(),
            ov.wf(),
            l == ov.ladder(),
            kk == k,
            ds.nv() == l[0].of.len(),
            k < l.len(),
            c < regions(l[kk]),
            ov.levels@[kk].rung() == l[kk],
            ov.levels@[kk].blocks_ok(),
            counts@ == counts_of(ov.levels@[kk]),
            ascending(units@),
            n <= verts@.len(),
            verts@.len() <= u32::MAX,
            forall|i: int| 0 <= i < verts@.len() ==> (#[trigger] verts@[i]) < l[0].of.len(),
            forall|x: int| 0 <= x < links@.len() ==> (#[trigger] links@[x]) < units@.len(),
            goal == link_verts(*ds, l, kk, units@, i as int, ints(links@), verts@, n as int),
            uses == (if counts@.len() == 0 {
                0
            } else {
                uses_of(l[kk], counts@, c as int, verts@, n as int)
            }),
            uses <= n * u32::MAX,
        decreases verts@.len() - n,
    {
        let u: u32 = verts[n];
        proof {
            assert(n * u32::MAX + u32::MAX == (n + 1) * u32::MAX) by (nonlinear_arith);
            assert((n + 1) * u32::MAX <= u32::MAX * u32::MAX) by (nonlinear_arith)
                requires
                    n + 1 <= u32::MAX,
            ;
        }
        if counts.len() > 0 {
            proof {
                lemma_rung(l, kk);
            }
            match member_slot(&ov.levels[k], c, u, Ghost(l[0].of.len() as int), Ghost(
                l[kk].of.len() as int,
            )) {
                Some(p) => {
                    uses = uses + counts[p] as u64;
                },
                None => {},
            }
        }
        link_side(ds, ov, k, units, i, &mut links, true, u);
        link_side(ds, ov, k, units, i, &mut links, false, u);
        n += 1;
    }
    (links, uses)
}

/// Where a member sits in a region's use counter.
fn member_slot(lv: &Level, c: u32, u: u32, Ghost(nv): Ghost<int>, Ghost(units): Ghost<int>) -> (r:
    Option<usize>)
    requires
        crate::overlay::shape::rung_ok(lv.rung(), units, nv),
        c < regions(lv.rung()),
    ensures
        match r {
            Some(p) => slot_of(lv.rung(), c as int, u) == Some(p as int) && p
                < lv.rung().vlist.len(),
            None => slot_of(lv.rung(), c as int, u) is None,
        },
{
    match &lv.values {
        Values::Eager { .. } => None,
        Values::Lazy(z) => {
            let ghost r = lv.rung();
            assert(r.vhead[c as int] <= r.vhead[c + 1] <= r.vhead[r.vhead.len() - 1]);
            let (a, b): (usize, usize) = (
                z.vhead[c as usize] as usize,
                z.vhead[c as usize + 1] as usize,
            );
            let list: &[u32] = vstd::slice::slice_subrange(z.vlist, a, b);
            assert(list@ == members(r, c as int));
            match local_index(list, u) {
                Some(i) => Some(a + i),
                None => None,
            }
        },
    }
}

fn find_quietest(traffic: &Vec<u64>) -> (b: usize)
    requires
        traffic@.len() > 0,
    ensures
        b == quietest(Seq::new(traffic@.len(), |i: int| traffic@[i] as int), traffic@.len() as int),
        b < traffic@.len(),
{
    let ghost tr = Seq::new(traffic@.len(), |i: int| traffic@[i] as int);
    let mut b: usize = 0;
    let mut i: usize = 1;
    while i < traffic.len()
        invariant
            tr == Seq::new(traffic@.len(), |i: int| traffic@[i] as int),
            1 <= i <= traffic@.len(),
            b < i,
            b == quietest(tr, i as int),
        decreases traffic@.len() - i,
    {
        if traffic[i] < traffic[b] {
            b = i;
        }
        i += 1;
    }
    b
}

spec fn wide(v: Seq<u128>) -> Seq<int> {
    Seq::new(v.len(), |i: int| v[i] as int)
}

spec fn tall(v: Seq<u64>) -> Seq<int> {
    Seq::new(v.len(), |i: int| v[i] as int)
}

fn find_keenest(gain: &Vec<u128>, traffic: &Vec<u64>, inside: &Vec<bool>) -> (best: Option<usize>)
    requires
        gain@.len() == inside@.len(),
        traffic@.len() == inside@.len(),
    ensures
        match best {
            Some(i) => i < inside@.len() && keenest(
                wide(gain@),
                tall(traffic@),
                inside@,
                inside@.len() as int,
            ) == Some(i as int),
            None => keenest(wide(gain@), tall(traffic@), inside@, inside@.len() as int) is None,
        },
{
    let mut best: Option<usize> = None;
    let mut i: usize = 0;
    while i < inside.len()
        invariant
            gain@.len() == inside@.len(),
            traffic@.len() == inside@.len(),
            i <= inside@.len(),
            match best {
                Some(b) => b < i && keenest(wide(gain@), tall(traffic@), inside@, i as int) == Some(
                    b as int,
                ),
                None => keenest(wide(gain@), tall(traffic@), inside@, i as int) is None,
            },
        decreases inside@.len() - i,
    {
        if !inside[i] && gain[i] != 0 {
            match best {
                None => {
                    best = Some(i);
                },
                Some(b) => {
                    if gain[i] > gain[b] || (gain[i] == gain[b] && traffic[i] < traffic[b]) {
                        best = Some(i);
                    }
                },
            }
        }
        i += 1;
    }
    best
}

/// Counts the links of a unit that was taken in.
fn pull(gain: &mut Vec<u128>, links: &Vec<usize>, Ghost(most): Ghost<int>)
    requires
        forall|x: int| 0 <= x < links@.len() ==> (#[trigger] links@[x]) < old(gain)@.len(),
        forall|x: int| 0 <= x < old(gain)@.len() ==> (#[trigger] old(gain)@[x]) <= most,
        0 <= most <= 0xFFFF_FFFF_FFFF_FFFF_FFFF_FFFF,
    ensures
        final(gain)@.len() == old(gain)@.len(),
        wide(final(gain)@) == pulled(wide(old(gain)@), ints(links@), links@.len() as int),
        forall|x: int| 0 <= x < final(gain)@.len() ==> (#[trigger] final(gain)@[x]) <= most + u64::MAX,
{
    let ghost g0 = gain@;
    let mut i: usize = 0;
    while i < links.len()
        invariant
            i <= links@.len(),
            gain@.len() == g0.len(),
            0 <= most <= 0xFFFF_FFFF_FFFF_FFFF_FFFF_FFFF,
            forall|x: int| 0 <= x < links@.len() ==> (#[trigger] links@[x]) < g0.len(),
            forall|x: int| 0 <= x < gain@.len() ==> (#[trigger] gain@[x]) <= most + i,
            wide(gain@) == pulled(wide(g0), ints(links@), i as int),
        decreases links@.len() - i,
    {
        let t: usize = links[i];
        let ghost g1 = gain@;
        gain.set(t, gain[t] + 1);
        assert(wide(gain@) =~= wide(g1).update(t as int, wide(g1)[t as int] + 1));
        assert(ints(links@)[i as int] == t);
        i += 1;
    }
}

spec fn lengths(v: Seq<Vec<usize>>) -> Seq<Seq<int>> {
    Seq::new(v.len(), |i: int| ints(v[i]@))
}

/// Grows one half from the quietest unit.
#[verifier::rlimit(30)]
fn grow_half(links: &Vec<Vec<usize>>, traffic: &Vec<u64>) -> (r: (Vec<bool>, usize))
    requires
        4 <= links@.len() <= u32::MAX,
        traffic@.len() == links@.len(),
        forall|i: int, x: int|
            0 <= i < links@.len() && 0 <= x < links@[i]@.len() ==> (#[trigger] links@[i]@[x])
                < links@.len(),
    ensures
        r.0@.len() == links@.len(),
        ({
            let n = links@.len() as int;
            let ll = lengths(links@);
            let tr = tall(traffic@);
            let seed = quietest(tr, n);
            (r.0@, r.1 as int) == grown(
                ll,
                tr,
                pulled(Seq::new(n as nat, |i: int| 0int), ll[seed], ll[seed].len() as int),
                Seq::new(n as nat, |i: int| i == seed),
                1,
                n / 2,
            )
        }),
{
    let n: usize = links.len();
    let ghost ll = lengths(links@);
    let ghost tr = tall(traffic@);
    let half: usize = n / 2;
    assert(tr =~= Seq::new(traffic@.len(), |i: int| traffic@[i] as int));
    let seed: usize = find_quietest(traffic);
    let mut inside: Vec<bool> = vec![false; n];
    let mut gain: Vec<u128> = vec![0u128; n];
    inside.set(seed, true);
    let mut taken: usize = 1;
    assert(wide(gain@) =~= Seq::new(n as nat, |i: int| 0int));
    assert(ll[seed as int] == ints(links@[seed as int]@));
    pull(&mut gain, &links[seed], Ghost(0));
    let ghost goal = grown(ll, tr, wide(gain@), inside@, 1, half as int);
    proof {
        assert(inside@ =~= Seq::new(n as nat, |i: int| i == seed));
        assert(taken * u64::MAX == u64::MAX) by (nonlinear_arith)
            requires
                taken == 1,
        ;
    }
    while taken < half
        invariant_except_break
            goal == grown(ll, tr, wide(gain@), inside@, taken as int, half as int),
        invariant
            n == links@.len(),
            n <= u32::MAX,
            half <= n,
            traffic@.len() == n,
            inside@.len() == n,
            gain@.len() == n,
            ll == lengths(links@),
            tr == tall(traffic@),
            1 <= taken <= n,
            forall|i: int, x: int|
                0 <= i < links@.len() && 0 <= x < links@[i]@.len() ==> (#[trigger] links@[i]@[x])
                    < n,
            forall|x: int| 0 <= x < gain@.len() ==> (#[trigger] gain@[x]) <= taken * u64::MAX,
        ensures
            goal == (inside@, taken as int),
        decreases half - taken,
    {
        match find_keenest(&gain, traffic, &inside) {
            None => {
                break;
            },
            Some(i) => {
                proof {
                    assert(taken * u64::MAX <= 0xFFFF_FFFFint * u64::MAX) by (nonlinear_arith)
                        requires
                            taken <= 0xFFFF_FFFF,
                    ;
                    assert(taken * u64::MAX + u64::MAX == (taken + 1) * u64::MAX)
                        by (nonlinear_arith);
                    assert(ll[i as int] == ints(links@[i as int]@));
                }
                inside.set(i, true);
                taken += 1;
                pull(&mut gain, &links[i], Ghost((taken - 1) * u64::MAX));
            },
        }
    }
    (inside, taken)
}

fn choose_inside(units: &Vec<u32>, inside: &Vec<bool>) -> (r: Vec<u32>)
    requires
        units@.len() == inside@.len(),
    ensures
        r@ == chosen(units@, inside@, units@.len() as int),
        forall|i: int| 0 <= i < r@.len() ==> units@.contains(#[trigger] r@[i]),
{
    let mut r: Vec<u32> = Vec::new();
    let mut i: usize = 0;
    while i < units.len()
        invariant
            units@.len() == inside@.len(),
            i <= units@.len(),
            r@ == chosen(units@, inside@, i as int),
            forall|x: int| 0 <= x < r@.len() ==> units@.contains(#[trigger] r@[x]),
        decreases units@.len() - i,
    {
        if inside[i] {
            r.push(units[i]);
        }
        i += 1;
    }
    r
}

/// The half of one region, or nothing to cut.
fn weigh(ds: &Dataset, ov: &Overlay, k: usize, counts: &[u32], c: u32) -> (r: Option<Vec<u32>>)
    requires
        ds.graph_ok(),
        ov.wf(),
        ds.nv() == ov.ladder()[0].of.len(),
        k < ov.ladder().len(),
        ov.ladder()[k as int].of.len() <= u32::MAX,
        c < regions(ov.ladder()[k as int]),
        counts@ == counts_of(ov.levels@[k as int]),
    ensures
        match r {
            Some(s) => weighed(*ds, ov.ladder(), k as int, counts@, c) == Some(s@),
            None => weighed(*ds, ov.ladder(), k as int, counts@, c) is None,
        },
        r matches Some(s) ==> forall|i: int|
            0 <= i < s@.len() ==> (#[trigger] s@[i]) < ov.ladder()[k as int].of.len(),
{
    let ghost l = ov.ladder();
    let ghost kk = k as int;
    assert(ov.levels@[kk].rung() == l[kk]);
    let units: Vec<u32> = find_units(ov.levels[k].of, c);
    proof {
        lemma_units(l[kk].of, c, l[kk].of.len() as int);
    }
    let n: usize = units.len();
    if n < 4 {
        return None;
    }
    let mut links: Vec<Vec<usize>> = Vec::new();
    let mut traffic: Vec<u64> = Vec::new();
    while links.len() < n
        invariant
            ds.graph_ok(),
            ov.wf(),
            l == ov.ladder(),
            kk == k,
            ds.nv() == l[0].of.len(),
            k < l.len(),
            c < regions(l[kk]),
            counts@ == counts_of(ov.levels@[kk]),
            ascending(units@),
            n == units@.len(),
            forall|i: int| 0 <= i < units@.len() ==> (#[trigger] units@[i]) < l[kk].of.len(),
            links@.len() <= n,
            traffic@.len() == links@.len(),
            forall|i: int|
                0 <= i < links@.len() ==> ints((#[trigger] links@[i])@) == links_of(
                    *ds,
                    l,
                    kk,
                    units@,
                    i,
                ),
            forall|i: int|
                0 <= i < links@.len() ==> (#[trigger] traffic@[i]) == traffic_of(
                    l,
                    kk,
                    counts@,
                    c as int,
                    units@,
                    i,
                ),
            forall|i: int, x: int|
                0 <= i < links@.len() && 0 <= x < links@[i]@.len() ==> (#[trigger] links@[i]@[x])
                    < n,
        decreases n - links@.len(),
    {
        let i: usize = links.len();
        let (a, t): (Vec<usize>, u64) = link(ds, ov, k, c, counts, &units, i);
        links.push(a);
        traffic.push(t);
    }
    proof {
        assert(lengths(links@) =~= Seq::new(n as nat, |i: int| links_of(*ds, l, kk, units@, i)));
        assert(tall(traffic@) =~= Seq::new(
            n as nat,
            |i: int| traffic_of(l, kk, counts@, c as int, units@, i),
        ));
    }
    let (inside, taken): (Vec<bool>, usize) = grow_half(&links, &traffic);
    if taken > 1 && taken < n {
        let half: Vec<u32> = choose_inside(&units, &inside);
        proof {
            assert forall|i: int| 0 <= i < half@.len() implies (#[trigger] half@[i])
                < l[kk].of.len() by {
                let x = units@.index_of(half@[i]);
                assert(units@[x] == half@[i]);
            }
        }
        Some(half)
    } else {
        None
    }
}

/// Regions of level `k` over `max_gates`, worst first, each cut where the
/// traffic is not.
pub fn plan_splits_by_cost(
    ds: &Dataset,
    ov: &Overlay,
    k: usize,
    max_gates: usize,
    limit: usize,
) -> (plan: SplitPlan)
    requires
        ds.graph_ok(),
        ov.wf(),
        ds.nv() == ov.ladder()[0].of.len(),
        k < ov.ladder().len(),
        ov.ladder()[k as int].of.len() <= u32::MAX,
    ensures
        exists|list: Seq<u32>| #[trigger]
            worst(ov.ladder()[k as int], max_gates as int, limit as int, list) && cut_views(
                plan.cuts@,
            ) == cuts_of(
                list,
                by_cost(*ds, ov.ladder(), k as int, counts_of(ov.levels@[k as int])),
                list.len() as int,
            ),
        names_units(ov.ladder()[k as int], plan.cuts@),
{
    let ghost l = ov.ladder();
    let ghost kk = k as int;
    proof {
        lemma_rung(l, kk);
        assert(ov.levels@[kk].rung() == l[kk]);
    }
    let lv: &Level = &ov.levels[k];
    let none: [u32; 0] = [];
    let counts: &[u32] = match &lv.values {
        Values::Lazy(z) => z.use_ct_all(),
        Values::Eager { .. } => vstd::array::array_as_slice(&none),
    };
    assert(counts@ =~= counts_of(*lv));
    let ghost half_of = by_cost(*ds, l, kk, counts@);
    let list: Vec<u32> = find_worst(lv, max_gates, limit);
    proof {
        lemma_worst(l[kk], max_gates as int, limit as int, list@);
    }
    let mut cuts: Vec<(u32, Vec<u32>)> = Vec::new();
    let mut i: usize = 0;
    assert(cut_views(cuts@) =~= cuts_of(list@, half_of, 0));
    while i < list.len()
        invariant
            ds.graph_ok(),
            ov.wf(),
            l == ov.ladder(),
            kk == k,
            half_of == by_cost(*ds, l, kk, counts@),
            counts@ == counts_of(ov.levels@[kk]),
            ds.nv() == l[0].of.len(),
            k < l.len(),
            l[kk].of.len() <= u32::MAX,
            forall|i: int| 0 <= i < list@.len() ==> (#[trigger] list@[i]) < regions(l[kk]),
            i <= list@.len(),
            cut_views(cuts@) == cuts_of(list@, half_of, i as int),
            names_units(l[kk], cuts@),
        decreases list@.len() - i,
    {
        let c: u32 = list[i];
        let ghost c0 = cuts@;
        assert(half_of(c) == weighed(*ds, l, kk, counts@, c));
        match weigh(ds, ov, k, counts, c) {
            Some(s) => {
                let ghost sv = s@;
                cuts.push((c, s));
                assert(cut_views(cuts@) =~= cut_views(c0).push((c, sv)));
            },
            None => {},
        }
        i += 1;
    }
    SplitPlan { cuts }
}

} // verus!
