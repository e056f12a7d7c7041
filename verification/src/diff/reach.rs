//! Which regions an edit reaches, and carrying it up the levels.
//!
//! A change of cost moves a table only where a number in it moves. Rows are
//! recomputed and compared, and the level above is looked at only where one
//! moved, or where a road between two regions changed.

use vstd::prelude::*;
use crate::dataset::{seg_of, Dataset};
use crate::lookup::ascending;
use crate::overlay::contraction::lemma_dist_exists;
use crate::overlay::exact::{is_edge, lemma_nests, populated};
use crate::overlay::rows::{
    edge_head, edge_segs, edge_weight, far_end, hop_arc, lemma_net_ok, region_net, road_arc,
    row_arcs, value,
};
use crate::overlay::shape::{
    cell_at, gates, index_in, lemma_cell_bound, lemma_rung, members, regions, Ladder, Overlay,
};
use crate::overrides::Effect;
use crate::paths::{arc_at, dist_to, is_dist, lemma_dist_to, walk, Net, UNREACHABLE};
use crate::sorting::number_set;

verus! {

/// The vertices that a segment joins, where it and they are there.
pub open spec fn ends_of(ds: Dataset, s: u32) -> Option<(u32, u32)> {
    if s < ds.seg_u@.len() && ds.seg_u@[s as int] < ds.nv() && ds.seg_v@[s as int] < ds.nv() {
        Some((ds.seg_u@[s as int], ds.seg_v@[s as int]))
    } else {
        None
    }
}

/// An end of a segment, where it is there.
pub open spec fn end_at(ds: Dataset, s: u32, v: u32) -> bool {
    s < ds.seg_u@.len() && v < ds.nv() && (ds.seg_u@[s as int] == v || ds.seg_v@[s as int] == v)
}

/// A region holds an end of one of the segments.
pub open spec fn reaches(ds: Dataset, l: Ladder, segs: Seq<u32>, k: int, c: u32) -> bool {
    exists|s: u32, v: u32|
        segs.contains(s) && #[trigger] end_at(ds, s, v) && cell_at(l, k, v as int) == c
}

/// The regions, at every level, that segments fall in. A segment falls in one
/// region per level for each of its ends.
#[verifier::rlimit(40)]
pub fn regions_of(ds: &Dataset, ov: &Overlay, segments: &[u32]) -> (r: Vec<Vec<u32>>)
    requires
        ov.wf(),
        ds.seg_u@.len() == ds.seg_v@.len(),
        ds.head@.len() >= 1,
        ds.nv() == ov.ladder()[0].of.len(),
    ensures
        r@.len() == ov.ladder().len(),
        forall|k: int|
            0 <= k < r@.len() ==> ascending(#[trigger] r@[k]@) && forall|c: u32| #[trigger]
                r@[k]@.contains(c) <==> reaches(*ds, ov.ladder(), segments@, k, c),
{
    let n: usize = ov.levels();
    let nv: usize = ds.n_vertices();
    let ghost l = ov.ladder();
    let mut r: Vec<Vec<u32>> = Vec::new();
    while r.len() < n
        invariant
            n == l.len(),
            l == ov.ladder(),
            ov.wf(),
            nv == ds.nv(),
            ds.seg_u@.len() == ds.seg_v@.len(),
            ds.nv() == l[0].of.len(),
            r@.len() <= n,
            forall|k: int|
                0 <= k < r@.len() ==> ascending(#[trigger] r@[k]@) && forall|c: u32| #[trigger]
                    r@[k]@.contains(c) <==> reaches(*ds, l, segments@, k, c),
        decreases n - r@.len(),
    {
        let k: usize = r.len();
        let mut cells: Vec<u32> = Vec::new();
        let mut i: usize = 0;
        while i < segments.len()
            invariant
                n == l.len(),
                k < n,
                l == ov.ladder(),
                ov.wf(),
                nv == ds.nv(),
                ds.seg_u@.len() == ds.seg_v@.len(),
                ds.nv() == l[0].of.len(),
                i <= segments@.len(),
                forall|c: u32| #[trigger]
                    cells@.contains(c) <==> reaches(
                        *ds,
                        l,
                        segments@.take(i as int),
                        k as int,
                        c,
                    ),
            decreases segments@.len() - i,
        {
            let s: u32 = segments[i];
            let ghost c0 = cells@;
            let ghost (t0, t1) = (segments@.take(i as int), segments@.take(i + 1));
            if (s as usize) < ds.seg_u.len() {
                let u: u32 = ds.seg_u[s as usize];
                if (u as usize) < nv {
                    cells.push(ov.cell_at(k, u));
                }
                let v: u32 = ds.seg_v[s as usize];
                if (v as usize) < nv {
                    cells.push(ov.cell_at(k, v));
                }
            }
            proof {
                assert(t1 =~= t0.push(s));
                assert forall|c: u32| #[trigger]
                    cells@.contains(c) <==> reaches(*ds, l, t1, k as int, c) by {
                    if cells@.contains(c) {
                        if c0.contains(c) {
                            let (s2, v2) = choose|s2: u32, v2: u32|
                                t0.contains(s2) && #[trigger] end_at(*ds, s2, v2) && cell_at(
                                    l,
                                    k as int,
                                    v2 as int,
                                ) == c;
                            let z = t0.index_of(s2);
                            assert(t1[z] == s2);
                            assert(end_at(*ds, s2, v2));
                        } else {
                            assert(t1[i as int] == s);
                            let z = cells@.index_of(c);
                            if z < c0.len() {
                                assert(c0[z] == c);
                            }
                            let (u, v) = (ds.seg_u@[s as int], ds.seg_v@[s as int]);
                            if z == c0.len() && u < nv {
                                assert(end_at(*ds, s, u) && cell_at(l, k as int, u as int) == c);
                            } else {
                                assert(end_at(*ds, s, v) && cell_at(l, k as int, v as int) == c);
                            }
                        }
                    }
                    if reaches(*ds, l, t1, k as int, c) {
                        let (s2, v2) = choose|s2: u32, v2: u32|
                            t1.contains(s2) && #[trigger] end_at(*ds, s2, v2) && cell_at(
                                l,
                                k as int,
                                v2 as int,
                            ) == c;
                        if t0.contains(s2) {
                            assert(end_at(*ds, s2, v2));
                            assert(reaches(*ds, l, t0, k as int, c));
                            assert(c0.contains(c));
                            let z = c0.index_of(c);
                            assert(cells@[z] == c);
                        } else {
                            let z = t1.index_of(s2);
                            if z < i {
                                assert(t0[z] == s2);
                            }
                            assert(s2 == s);
                            if ds.seg_u@[s as int] == v2 {
                                assert(cells@[c0.len() as int] == c);
                            } else if ds.seg_u@[s as int] < nv {
                                assert(cells@[c0.len() as int + 1] == c);
                            } else {
                                assert(cells@[c0.len() as int] == c);
                            }
                        }
                    }
                }
            }
            i += 1;
        }
        assert(segments@.take(i as int) =~= segments@);
        let ghost last = cells@;
        let list: Vec<u32> = number_set(cells);
        proof {
            assert forall|c: u32| #[trigger]
                list@.contains(c) <==> reaches(*ds, l, segments@, k as int, c) by {
                assert(list@.contains(c) <==> last.contains(c));
            }
        }
        r.push(list);
    }
    r
}

// ----------------------------------------------------------- carrying upward

/// The costs of all other segments are the same.
pub open spec fn confined(
    ds: Dataset,
    a: Seq<(u32, Effect)>,
    b: Seq<(u32, Effect)>,
    segs: Seq<u32>,
) -> bool {
    forall|sid: int|
        0 <= sid < ds.ns() && !segs.contains(sid as u32) ==> #[trigger] ds.cost(a, sid) == ds.cost(
            b,
            sid,
        )
}

/// A segment joins two vertices.
pub open spec fn joins(ds: Dataset, s: int, u: u32, v: u32) -> bool {
    &&& 0 <= s < ds.seg_u@.len()
    &&& (ds.seg_u@[s] == u && ds.seg_v@[s] == v) || (ds.seg_u@[s] == v && ds.seg_v@[s] == u)
}

/// Every edge runs between the ends of its segment.
pub open spec fn ends_ok(ds: Dataset) -> bool {
    &&& ds.seg_u@.len() == ds.seg_v@.len()
    &&& forall|fwd: bool, u: u32, t: int| #[trigger]
        is_edge(ds, fwd, u, t) ==> joins(
            ds,
            seg_of(edge_segs(ds, fwd)[t]),
            u,
            far_end(ds, fwd, u, t),
        )
}

/// Tables are computed over what they should be.
pub open spec fn laid_out(ds: Dataset, l: Ladder) -> bool {
    forall|k: int, c: int|
        0 <= k < l.len() && !l[k].eager && 0 <= c < regions(l[k]) ==> populated(
            ds,
            l,
            k,
            c,
            #[trigger] members(l[k], c),
        )
}

/// A changed road leaves a region of level `k` that lies in region `c` above.
pub open spec fn cut_at(ds: Dataset, l: Ladder, segs: Seq<u32>, k: int, c: int) -> bool {
    exists|s: u32, u: u32, v: u32|
        {
            &&& segs.contains(s)
            &&& #[trigger] cut_by(ds, l, k, s, u, v)
            &&& l[k + 1].of[cell_at(l, k, u as int)] == c || l[k + 1].of[cell_at(l, k, v as int)]
                == c
        }
}

/// Segment `s` runs between two regions of level `k`.
pub open spec fn cut_by(ds: Dataset, l: Ladder, k: int, s: u32, u: u32, v: u32) -> bool {
    ends_of(ds, s) == Some((u, v)) && cell_at(l, k, u as int) != cell_at(l, k, v as int)
}

pub open spec fn in_either(ds: Dataset, l: Ladder, segs: Seq<u32>, c: int) -> bool {
    exists|s: u32, u: u32, v: u32|
        segs.contains(s) && #[trigger] ends_are(ds, s, u, v) && (cell_at(l, 0, u as int) == c
            || cell_at(l, 0, v as int) == c)
}

pub open spec fn ends_are(ds: Dataset, s: u32, u: u32, v: u32) -> bool {
    ends_of(ds, s) == Some((u, v))
}

/// A row that is not there, or does not hold what it should under `b`.
pub open spec fn moved(
    ov: Overlay,
    ds: Dataset,
    b: Seq<(u32, Effect)>,
    k: int,
    c: int,
    i: int,
    fwd: bool,
) -> bool {
    !ov.levels@[k].has_row(c, i, fwd) || !ov.row_true(ds, b, k, c, i, fwd)
}

pub open spec fn some_moved(ov: Overlay, ds: Dataset, b: Seq<(u32, Effect)>, k: int, c: int) -> bool {
    exists|i: int, fwd: bool|
        0 <= i < gates(ov.ladder()[k], c).len() && #[trigger] moved(ov, ds, b, k, c, i, fwd)
}

/// A region that is looked at and in which a number moved, or may have: a full
/// table is not compared.
pub open spec fn grows(
    ov: Overlay,
    ds: Dataset,
    b: Seq<(u32, Effect)>,
    looked: Set<int>,
    k: int,
    c: int,
) -> bool {
    looked.contains(c) && (ov.ladder()[k].eager || some_moved(ov, ds, b, k, c))
}

/// Region `c` lies above a region of level `k` in which a number moved.
pub open spec fn lifted(
    ov: Overlay,
    ds: Dataset,
    b: Seq<(u32, Effect)>,
    looked: Set<int>,
    k: int,
    c: int,
) -> bool {
    exists|d: int|
        0 <= d < regions(ov.ladder()[k]) && #[trigger] grows(ov, ds, b, looked, k, d)
            && ov.ladder()[k + 1].of[d] == c
}

/// The regions of level `k` that are looked at.
pub open spec fn looked_at(
    ov: Overlay,
    ds: Dataset,
    b: Seq<(u32, Effect)>,
    segs: Seq<u32>,
    k: int,
) -> Set<int>
    decreases k,
{
    let l = ov.ladder();
    if k <= 0 {
        Set::new(|c: int| in_either(ds, l, segs, c))
    } else {
        let below = looked_at(ov, ds, b, segs, k - 1);
        Set::new(
            |c: int| cut_at(ds, l, segs, k - 1, c) || lifted(ov, ds, b, below, k - 1, c),
        )
    }
}

/// Region `c` of level `k` is looked at.
pub open spec fn is_seed(
    ov: Overlay,
    ds: Dataset,
    b: Seq<(u32, Effect)>,
    segs: Seq<u32>,
    k: int,
    c: int,
) -> bool {
    looked_at(ov, ds, b, segs, k).contains(c)
}

/// A number of region `c` of level `k` moved, or may have.
pub open spec fn is_changed(
    ov: Overlay,
    ds: Dataset,
    b: Seq<(u32, Effect)>,
    segs: Seq<u32>,
    k: int,
    c: int,
) -> bool {
    grows(ov, ds, b, looked_at(ov, ds, b, segs, k), k, c)
}

/// Two sets of costs give a region the same table.
pub open spec fn same_values(
    ds: Dataset,
    a: Seq<(u32, Effect)>,
    b: Seq<(u32, Effect)>,
    l: Ladder,
    k: int,
    c: int,
) -> bool {
    forall|i: int, j: int, fwd: bool|
        0 <= i < gates(l[k], c).len() && 0 <= j < gates(l[k], c).len() ==> #[trigger] value(
            ds,
            a,
            l,
            k,
            c,
            i,
            j,
            fwd,
        ) == value(ds, b, l, k, c, i, j, fwd)
}

/// All that is known before an update: the rows that are there are right under
/// the costs of before, and those costs differ only on the segments.
pub open spec fn was_right(
    ov: Overlay,
    ds: Dataset,
    a: Seq<(u32, Effect)>,
    b: Seq<(u32, Effect)>,
    segs: Seq<u32>,
) -> bool {
    ov.valid_below(ds, a, ov.levels@.len() as int) && confined(ds, a, b, segs)
}

/// Networks that agree on every arc have the same walks.
proof fn lemma_walks_same(x: Net, y: Net, seeds: Seq<(int, int)>, v: int, d: int, m: nat)
    requires
        x.n == y.n,
        forall|u: int| 0 <= u < x.n ==> #[trigger] (x.arcs)(u) == (y.arcs)(u),
        walk(x, seeds, v, d, m),
    ensures
        walk(y, seeds, v, d, m),
    decreases m,
{
    if m > 0 {
        let (u, s, w) = choose|u: int, s: int, w: int|
            #[trigger] arc_at(x, u, s, v, w) && walk(x, seeds, u, d - w, (m - 1) as nat);
        assert((x.arcs)(u) == (y.arcs)(u));
        assert(arc_at(y, u, s, v, w));
        lemma_walks_same(x, y, seeds, u, d - w, (m - 1) as nat);
    }
}

proof fn lemma_dist_same(x: Net, y: Net, seeds: Seq<(int, int)>, v: int)
    requires
        crate::paths::net_ok(x),
        x.n == y.n,
        forall|u: int| 0 <= u < x.n ==> #[trigger] (x.arcs)(u) == (y.arcs)(u),
        forall|z: int, d: int, m: nat| #[trigger] walk(x, seeds, z, d, m) ==> d >= 0,
    ensures
        dist_to(x, seeds, v) == dist_to(y, seeds, v),
{
    lemma_dist_exists(x, seeds, v);
    let e = choose|e: u32| is_dist(x, seeds, v, e);
    lemma_dist_to(x, seeds, v, e);
    assert(is_dist(y, seeds, v, e)) by {
        if e < UNREACHABLE {
            let m = choose|m: nat| walk(x, seeds, v, e as int, m);
            lemma_walks_same(x, y, seeds, v, e as int, m);
        }
        assert forall|d: int, m: nat| #[trigger] walk(y, seeds, v, d, m) implies e <= d by {
            lemma_walks_same(y, x, seeds, v, d, m);
        }
    }
    lemma_dist_to(y, seeds, v, e);
}

proof fn lemma_walk_paid(x: Net, seeds: Seq<(int, int)>, v: int, d: int, m: nat)
    requires
        crate::paths::net_ok(x),
        forall|i: int| 0 <= i < seeds.len() ==> (#[trigger] seeds[i]).1 >= 0,
        walk(x, seeds, v, d, m),
    ensures
        d >= 0,
    decreases m,
{
    if m > 0 {
        let (u, s, w) = choose|u: int, s: int, w: int|
            #[trigger] arc_at(x, u, s, v, w) && walk(x, seeds, u, d - w, (m - 1) as nat);
        lemma_walk_paid(x, seeds, u, d - w, (m - 1) as nat);
        assert(arc_at(x, u, s, v, w));
    }
}

/// Everything below region `c` that is not changed has the same table.
pub open spec fn same_below(
    ov: Overlay,
    ds: Dataset,
    a: Seq<(u32, Effect)>,
    b: Seq<(u32, Effect)>,
    segs: Seq<u32>,
    k: int,
) -> bool {
    forall|c: int|
        0 <= c < regions(ov.ladder()[k]) && !(#[trigger] is_changed(ov, ds, b, segs, k, c))
            ==> same_values(ds, a, b, ov.ladder(), k, c)
}

/// What leaves a member of a region that is not looked at is what it was.
#[verifier::rlimit(60)]
#[verifier::spinoff_prover]
proof fn lemma_arcs_same(
    ov: Overlay,
    ds: Dataset,
    a: Seq<(u32, Effect)>,
    b: Seq<(u32, Effect)>,
    segs: Seq<u32>,
    k: int,
    c: int,
    fwd: bool,
    u: u32,
)
    requires
        ov.wf(),
        ds.graph_ok(),
        ds.nv() == ov.ladder()[0].of.len(),
        ds.ns() <= u32::MAX,
        ends_ok(ds),
        laid_out(ds, ov.ladder()),
        confined(ds, a, b, segs),
        0 <= k < ov.ladder().len(),
        0 <= c < regions(ov.ladder()[k]),
        !ov.ladder()[k].eager,
        !is_seed(ov, ds, b, segs, k, c),
        k > 0 ==> same_below(ov, ds, a, b, segs, k - 1),
        members(ov.ladder()[k], c).contains(u),
    ensures
        row_arcs(ds, a, ov.ladder(), k, members(ov.ladder()[k], c), fwd, u) == row_arcs(
            ds,
            b,
            ov.ladder(),
            k,
            members(ov.ladder()[k], c),
            fwd,
            u,
        ),
{
    let l = ov.ladder();
    let list = members(l[k], c);
    let head = edge_head(ds, fwd);
    assert(populated(ds, l, k, c, list));
    assert(u < ds.nv() && cell_at(l, k, u as int) == c);
    let cb = cell_at(l, k - 1, u as int);
    let n = head[u + 1] - head[u as int];
    assert forall|s: int| 0 <= s < n implies #[trigger] road_arc(
        ds,
        a,
        l,
        k,
        list,
        fwd,
        u,
        head[u as int] + s,
    ) == road_arc(ds, b, l, k, list, fwd, u, head[u as int] + s) by {
        let t = head[u as int] + s;
        let v = far_end(ds, fwd, u, t);
        let sid = seg_of(edge_segs(ds, fwd)[t]);
        assert(is_edge(ds, fwd, u, t));
        assert(head[u + 1] <= head[head.len() - 1]);
        assert(0 <= sid < ds.ns());
        if !(k > 0 && cell_at(l, k - 1, v as int) == cb) && index_in(list, v) is Some
            && edge_weight(ds, a, fwd, t) != edge_weight(ds, b, fwd, t) {
            assert(segs.contains(sid as u32)) by {
                if !segs.contains(sid as u32) {
                    assert(ds.cost(a, sid) == ds.cost(b, sid));
                }
            }
            assert(joins(ds, sid, u, v));
            let i = index_in(list, v)->0;
            assert(exists|i: int| 0 <= i < list.len() && list[i] == v);
            assert(list.contains(v));
            assert(v < ds.nv() && cell_at(l, k, v as int) == c);
            let s32 = sid as u32;
            let (p, q) = (ds.seg_u@[sid], ds.seg_v@[sid]);
            assert(ends_are(ds, s32, p, q));
            if k == 0 {
                assert(in_either(ds, l, segs, c));
            } else {
                assert(cut_by(ds, l, k - 1, s32, p, q));
                assert(l[k].of[cell_at(l, k - 1, p as int)] == c);
                assert(cut_at(ds, l, segs, k - 1, c));
            }
        }
    }
    let ra = Seq::new(n as nat, |s: int| road_arc(ds, a, l, k, list, fwd, u, head[u as int] + s));
    let rb = Seq::new(n as nat, |s: int| road_arc(ds, b, l, k, list, fwd, u, head[u as int] + s));
    assert(ra =~= rb);
    match index_in(gates(l[k - 1], cb), u) {
        Some(i) if k > 0 => {
            let g = gates(l[k - 1], cb);
            lemma_cell_bound(l, k - 1, u as int);
            assert(l[k].of[cb] == c);
            assert(!is_changed(ov, ds, b, segs, k - 1, cb)) by {
                let below = looked_at(ov, ds, b, segs, k - 1);
                if grows(ov, ds, b, below, k - 1, cb) {
                    assert(lifted(ov, ds, b, below, k - 1, c));
                }
            }
            assert(same_values(ds, a, b, l, k - 1, cb));
            assert(0 <= i < g.len()) by {
                assert(exists|i: int| 0 <= i < g.len() && g[i] == u);
            }
            let ha = Seq::new(g.len(), |j: int| hop_arc(ds, a, l, k, list, fwd, u, i, j));
            let hb = Seq::new(g.len(), |j: int| hop_arc(ds, b, l, k, list, fwd, u, i, j));
            assert forall|j: int| 0 <= j < g.len() implies ha[j] == hb[j] by {
                assert(value(ds, a, l, k - 1, cb, i, j, fwd) == value(
                    ds,
                    b,
                    l,
                    k - 1,
                    cb,
                    i,
                    j,
                    fwd,
                ));
            }
            assert(ha =~= hb);
            let (xa, xb) = (
                row_arcs(ds, a, l, k, list, fwd, u),
                row_arcs(ds, b, l, k, list, fwd, u),
            );
            assert(xa.len() == g.len() + n && xb.len() == g.len() + n);
            assert forall|s: int| 0 <= s < xa.len() implies xa[s] == xb[s] by {
                if s < g.len() {
                    assert(xa[s] == hop_arc(ds, a, l, k, list, fwd, u, i, s));
                    assert(xb[s] == hop_arc(ds, b, l, k, list, fwd, u, i, s));
                    assert(ha[s] == hb[s]);
                } else {
                    assert(xa[s] == ra[s - g.len()]);
                    assert(xb[s] == rb[s - g.len()]);
                }
            }
            assert(xa =~= xb);
        },
        _ => {
            let (xa, xb) = (
                row_arcs(ds, a, l, k, list, fwd, u),
                row_arcs(ds, b, l, k, list, fwd, u),
            );
            assert(xa =~= ra);
            assert(xb =~= rb);
        },
    }
}

/// A region that is not looked at keeps its table.
pub(crate) proof fn lemma_still(
    ov: Overlay,
    ds: Dataset,
    a: Seq<(u32, Effect)>,
    b: Seq<(u32, Effect)>,
    segs: Seq<u32>,
    k: int,
    c: int,
)
    requires
        ov.wf(),
        ds.graph_ok(),
        ds.nv() == ov.ladder()[0].of.len(),
        ds.ns() <= u32::MAX,
        ends_ok(ds),
        laid_out(ds, ov.ladder()),
        confined(ds, a, b, segs),
        0 <= k < ov.ladder().len(),
        0 <= c < regions(ov.ladder()[k]),
        !is_seed(ov, ds, b, segs, k, c),
        k > 0 ==> same_below(ov, ds, a, b, segs, k - 1),
    ensures
        same_values(ds, a, b, ov.ladder(), k, c),
{
    let l = ov.ladder();
    if !l[k].eager {
        let m = members(l[k], c);
        let g = gates(l[k], c);
        lemma_rung(l, k);
        assert(l[k].vhead[c] <= l[k].vhead[c + 1] <= l[k].vhead[l[k].vhead.len() - 1]);
        assert(m.len() <= u32::MAX);
        assert forall|i: int, j: int, fwd: bool|
            0 <= i < g.len() && 0 <= j < g.len() implies #[trigger] value(
            ds,
            a,
            l,
            k,
            c,
            i,
            j,
            fwd,
        ) == value(ds, b, l, k, c, i, j, fwd) by {
            let x = region_net(ds, a, l, k, m, fwd);
            let y = region_net(ds, b, l, k, m, fwd);
            lemma_net_ok(ds, a, l, k, m, fwd);
            assert forall|u: int| 0 <= u < x.n implies #[trigger] (x.arcs)(u) == (y.arcs)(u) by {
                assert(m.contains(m[u]));
                lemma_arcs_same(ov, ds, a, b, segs, k, c, fwd, m[u]);
            }
            let seeds = seq![(index_in(m, g[i])->0, 0int)];
            assert forall|z: int, d: int, n: nat| #[trigger] walk(x, seeds, z, d, n) implies d >= 0 by {
                lemma_walk_paid(x, seeds, z, d, n);
            }
            lemma_dist_same(x, y, seeds, index_in(m, g[j])->0);
        }
    }
}

/// What is not changed has the same table, at every level.
pub(crate) proof fn lemma_unchanged(
    ov: Overlay,
    ds: Dataset,
    a: Seq<(u32, Effect)>,
    b: Seq<(u32, Effect)>,
    segs: Seq<u32>,
    k: int,
)
    requires
        ov.wf(),
        ds.graph_ok(),
        ds.nv() == ov.ladder()[0].of.len(),
        ds.ns() <= u32::MAX,
        ends_ok(ds),
        laid_out(ds, ov.ladder()),
        was_right(ov, ds, a, b, segs),
        0 <= k < ov.ladder().len(),
    ensures
        same_below(ov, ds, a, b, segs, k),
    decreases k,
{
    let l = ov.ladder();
    if k > 0 {
        lemma_unchanged(ov, ds, a, b, segs, k - 1);
    }
    assert forall|c: int|
        0 <= c < regions(l[k]) && !(#[trigger] is_changed(ov, ds, b, segs, k, c)) implies same_values(
        ds,
        a,
        b,
        l,
        k,
        c,
    ) by {
        if !is_seed(ov, ds, b, segs, k, c) {
            lemma_still(ov, ds, a, b, segs, k, c);
        } else {
            let g = gates(l[k], c);
            assert(ov.valid(ds, a, k));
            assert forall|i: int, j: int, fwd: bool|
                0 <= i < g.len() && 0 <= j < g.len() implies #[trigger] value(
                ds,
                a,
                l,
                k,
                c,
                i,
                j,
                fwd,
            ) == value(ds, b, l, k, c, i, j, fwd) by {
                assert(!moved(ov, ds, b, k, c, i, fwd));
                assert(ov.levels@[k].has_row(c, i, fwd));
                assert(ov.row_true(ds, a, k, c, i, fwd));
                assert(ov.levels@[k].stored(c, i, j, fwd) == value(ds, a, l, k, c, i, j, fwd));
                assert(ov.levels@[k].stored(c, i, j, fwd) == value(ds, b, l, k, c, i, j, fwd));
            }
        }
    }
}

/// Where nothing is looked at on one level, nothing is above it.
pub(crate) proof fn lemma_quiet(
    ov: Overlay,
    ds: Dataset,
    b: Seq<(u32, Effect)>,
    segs: Seq<u32>,
    m: int,
    k: int,
)
    requires
        ov.wf(),
        ds.nv() == ov.ladder()[0].of.len(),
        1 <= m <= k < ov.ladder().len(),
        forall|c: int| 0 <= c < regions(ov.ladder()[m]) ==> !is_seed(ov, ds, b, segs, m, c),
    ensures
        forall|c: int| 0 <= c < regions(ov.ladder()[k]) ==> !is_seed(ov, ds, b, segs, k, c),
    decreases k,
{
    let l = ov.ladder();
    if m < k {
        lemma_quiet(ov, ds, b, segs, m, k - 1);
        assert forall|c: int| 0 <= c < regions(l[k]) implies !is_seed(ov, ds, b, segs, k, c) by {
            if cut_at(ds, l, segs, k - 1, c) {
                let (s, u, v) = choose|s: u32, u: u32, v: u32|
                    segs.contains(s) && #[trigger] cut_by(ds, l, k - 1, s, u, v) && (
                    l[k].of[cell_at(l, k - 1, u as int)] == c || l[k].of[cell_at(
                        l,
                        k - 1,
                        v as int,
                    )] == c);
                if cell_at(l, k - 2, u as int) == cell_at(l, k - 2, v as int) {
                    lemma_nests(l, k - 2, k - 1, u as int, v as int);
                }
                assert(cut_by(ds, l, k - 2, s, u, v));
                let p = cell_at(l, k - 1, u as int);
                lemma_cell_bound(l, k - 1, u as int);
                assert(l[k - 1].of[cell_at(l, k - 2, u as int)] == p);
                assert(cut_at(ds, l, segs, k - 2, p));
                assert(is_seed(ov, ds, b, segs, k - 1, p));
            }
            let below = looked_at(ov, ds, b, segs, k - 1);
            if lifted(ov, ds, b, below, k - 1, c) {
                let d = choose|d: int|
                    0 <= d < regions(l[k - 1]) && #[trigger] grows(ov, ds, b, below, k - 1, d)
                        && l[k].of[d] == c;
                assert(is_seed(ov, ds, b, segs, k - 1, d));
            }
        }
    }
}

} // verus!
