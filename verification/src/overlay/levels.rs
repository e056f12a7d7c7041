//! The shape of one more level.

use vstd::prelude::*;
use crate::dataset::Dataset;
use crate::lookup::ascending;
use crate::overlay::exact::{crosses, is_edge};
use crate::overlay::gateindex::{
    count, count_from, lemma_count_in_pos, outsider, GateIndex, Traffic,
};
use crate::overlay::ground::{square_heads, squares};
use crate::overlay::growth::{carve, carved, settled_in, Rules, Terrain};
use crate::overlay::lists::{block, listing, lists};
use crate::overlay::net::gate_at;
use crate::overlay::rows::{edge_head, far_end};
use crate::overlay::shape::{
    cell_at, gates, ladder_ok, lemma_cell_bound, lemma_gate_cell, lemma_rung, regions, rung_ok,
    Ladder, Overlay,
};

verus! {

/// An edge leads from `u` into region `d` of level `k`, which is not its own.
pub open spec fn reaches(ds: Dataset, l: Ladder, k: int, u: u32, d: int) -> bool {
    exists|fwd: bool, t: int|
        #[trigger] crosses(ds, l, k, fwd, u, t) && cell_at(l, k, far_end(ds, fwd, u, t) as int) == d
}

pub open spec fn crossing_edge(ds: Dataset, l: Ladder, k: int, fwd: bool, u: u32) -> spec_fn(
    int,
) -> bool {
    |t: int| crosses(ds, l, k, fwd, u, t)
}

/// How many edges of `u` on one side leave its region, up to `n`.
pub open spec fn ways_out(ds: Dataset, l: Ladder, k: int, fwd: bool, u: u32, n: int) -> nat {
    count_from(edge_head(ds, fwd)[u as int] as int, n, crossing_edge(ds, l, k, fwd, u))
}

/// How many edges leave a region of level `k` at its first `n` gates.
pub open spec fn crossings(ds: Dataset, l: Ladder, k: int, n: int) -> nat
    decreases n,
{
    if n <= 0 {
        0
    } else {
        let u = l[k].bnd[n - 1];
        crossings(ds, l, k, n - 1) + ways_out(ds, l, k, true, u, edge_head(ds, true)[u + 1] as int)
            + ways_out(ds, l, k, false, u, edge_head(ds, false)[u + 1] as int)
    }
}

pub open spec fn stands_in(l: Ladder, k: int, c: int) -> spec_fn(int) -> bool {
    |v: int| cell_at(l, k, v) == c
}

/// The level below, as growth sees it.
pub open spec fn terrain_of(ds: Dataset, l: Ladder, k: int, t: Terrain) -> bool {
    &&& t.wf()
    &&& t.gx.bstart@ == l[k].bhead
    &&& t.bnd@ == l[k].bnd
    &&& forall|c: int|
        0 <= c < t.n() ==> #[trigger] t.csize@[c] == count(ds.nv(), stands_in(l, k, c))
    &&& forall|p: int, d: u32|
        0 <= p < t.gx.nb() ==> (#[trigger] t.gx.faces(p).contains(d) <==> d < t.n() && reaches(
            ds,
            l,
            k,
            l[k].bnd[p],
            d as int,
        ))
    &&& forall|c: int, d: u32|
        0 <= c < t.n() ==> (#[trigger] t.near(c).contains(d) <==> touch(t.gx, c, d as int) || touch(
            t.gx,
            d as int,
            c,
        ))
    &&& forall|c: int| 0 <= c < t.n() ==> ascending(#[trigger] t.near(c))
}

/// A gate of region `c` faces region `d`.
pub open spec fn touch(gx: GateIndex, c: int, d: int) -> bool {
    exists|p: int|
        0 <= p < gx.nb() && #[trigger] gx.owner@[p] == c && gx.faces(p).contains(d as u32) && 0 <= d
            <= u32::MAX
}

/// What walking the gates has put down so far: up to gate `p`, and of that
/// one the edges of the first side up to `a` and of the second up to `b`.
spec fn noted(
    ds: Dataset,
    l: Ladder,
    k: int,
    pairs: Seq<(u32, u32)>,
    gpairs: Seq<(u32, u32)>,
    p: int,
    part: spec_fn(u32) -> bool,
) -> bool {
    &&& pairs.len() == 2 * gpairs.len()
    &&& forall|q: u32, d: u32|
        #[trigger] gpairs.contains((q, d)) <==> (q < p && d < regions(l[k]) && reaches(
            ds,
            l,
            k,
            l[k].bnd[q as int],
            d as int,
        )) || (q == p && part(d))
    &&& forall|c: u32, d: u32| #[trigger] pairs.contains((c, d)) <==> met(l, k, gpairs, c, d)
    &&& forall|i: int| 0 <= i < gpairs.len() ==> (#[trigger] gpairs[i]).0 < l[k].bnd.len()
        && gpairs[i].1 < regions(l[k])
    &&& forall|i: int| 0 <= i < pairs.len() ==> (#[trigger] pairs[i]).0 < regions(l[k])
        && pairs[i].1 < regions(l[k])
}

/// Some gate links regions `c` and `d`, in either order.
spec fn met(l: Ladder, k: int, gpairs: Seq<(u32, u32)>, c: u32, d: u32) -> bool {
    exists|i: int|
        0 <= i < gpairs.len() && {
            let o = cell_at(l, k, l[k].bnd[(#[trigger] gpairs[i]).0 as int] as int);
            (o == c && gpairs[i].1 == d) || (o == d && gpairs[i].1 == c)
        }
}

/// Region of a gate is where its place in the list is.
proof fn lemma_gate_place(l: Ladder, k: int, c: int, p: int)
    requires
        ladder_ok(l),
        0 <= k < l.len(),
        0 <= c < regions(l[k]),
        l[k].bhead[c] <= p < l[k].bhead[c + 1],
    ensures
        cell_at(l, k, l[k].bnd[p] as int) == c,
        l[k].bnd[p] < l[0].of.len(),
        p < l[k].bnd.len(),
{
    lemma_rung(l, k);
    let g = gates(l[k], c);
    assert(l[k].bhead[c + 1] <= l[k].bhead[l[k].bhead.len() - 1]);
    lemma_gate_cell(l, k, c, p - l[k].bhead[c]);
    assert(g[p - l[k].bhead[c]] == l[k].bnd[p]);
}

/// One more tie between a gate and a region.
proof fn lemma_note(
    ds: Dataset,
    l: Ladder,
    k: int,
    pairs: Seq<(u32, u32)>,
    gpairs: Seq<(u32, u32)>,
    p: int,
    part: spec_fn(u32) -> bool,
    part2: spec_fn(u32) -> bool,
    c: u32,
    d: u32,
)
    requires
        noted(ds, l, k, pairs, gpairs, p, part),
        0 <= p < l[k].bnd.len(),
        p <= u32::MAX,
        c == cell_at(l, k, l[k].bnd[p] as int),
        c < regions(l[k]),
        d < regions(l[k]),
        forall|x: u32| #[trigger] part2(x) == (part(x) || x == d),
    ensures
        noted(
            ds,
            l,
            k,
            pairs.push((c, d)).push((d, c)),
            gpairs.push((p as u32, d)),
            p,
            part2,
        ),
{
    let g2 = gpairs.push((p as u32, d));
    let p2 = pairs.push((c, d)).push((d, c));
    assert(g2[gpairs.len() as int] == (p as u32, d));
    assert(p2[pairs.len() as int] == (c, d));
    assert(p2[pairs.len() as int + 1] == (d, c));
    assert forall|q: u32, e: u32| #[trigger] g2.contains((q, e)) <==> (q < p && e < regions(l[k])
        && reaches(ds, l, k, l[k].bnd[q as int], e as int)) || (q == p && part2(e)) by {
        assert(gpairs.contains((q, e)) <==> (q < p && e < regions(l[k]) && reaches(
            ds,
            l,
            k,
            l[k].bnd[q as int],
            e as int,
        )) || (q == p && part(e)));
        assert(part2(e) == (part(e) || e == d));
        if gpairs.contains((q, e)) {
            let x = gpairs.index_of((q, e));
            assert(g2[x] == (q, e));
        }
        if g2.contains((q, e)) {
            let x = g2.index_of((q, e));
            if x < gpairs.len() {
                assert(gpairs[x] == (q, e));
            }
        }
    }
    assert forall|a: u32, b: u32| #[trigger] p2.contains((a, b)) <==> met(l, k, g2, a, b) by {
        assert(pairs.contains((a, b)) <==> met(l, k, gpairs, a, b));
        if pairs.contains((a, b)) {
            let x = pairs.index_of((a, b));
            assert(p2[x] == (a, b));
        }
        if met(l, k, gpairs, a, b) {
            let i = choose|i: int|
                0 <= i < gpairs.len() && {
                    let o = cell_at(l, k, l[k].bnd[(#[trigger] gpairs[i]).0 as int] as int);
                    (o == a && gpairs[i].1 == b) || (o == b && gpairs[i].1 == a)
                };
            assert(g2[i] == gpairs[i]);
        }
        if met(l, k, g2, a, b) {
            let i = choose|i: int|
                0 <= i < g2.len() && {
                    let o = cell_at(l, k, l[k].bnd[(#[trigger] g2[i]).0 as int] as int);
                    (o == a && g2[i].1 == b) || (o == b && g2[i].1 == a)
                };
            if i < gpairs.len() {
                assert(gpairs[i] == g2[i]);
            }
        }
        if p2.contains((a, b)) {
            let x = p2.index_of((a, b));
            if x < pairs.len() {
                assert(pairs[x] == (a, b));
            }
        }
    }
}

/// Notes what the edges of one gate on one side lead to.
#[verifier::rlimit(40)]
fn note_side(
    ds: &Dataset,
    ov: &Overlay,
    k: usize,
    c: u32,
    p: u32,
    u: u32,
    fwd: bool,
    pairs: &mut Vec<(u32, u32)>,
    gpairs: &mut Vec<(u32, u32)>,
)
    requires
        ds.graph_ok(),
        ov.wf(),
        ds.nv() == ov.ladder()[0].of.len(),
        k < ov.ladder().len(),
        p < ov.ladder()[k as int].bnd.len(),
        u == ov.ladder()[k as int].bnd[p as int],
        u < ds.nv(),
        c == cell_at(ov.ladder(), k as int, u as int),
        c < regions(ov.ladder()[k as int]),
        noted(
            *ds,
            ov.ladder(),
            k as int,
            old(pairs)@,
            old(gpairs)@,
            p as int,
            side_part(*ds, ov.ladder(), k as int, u, fwd, 0, 0),
        ),
        2 * (old(gpairs)@.len() + ways_out(
            *ds,
            ov.ladder(),
            k as int,
            fwd,
            u,
            edge_head(*ds, fwd)[u + 1] as int,
        )) <= u32::MAX,
    ensures
        noted(
            *ds,
            ov.ladder(),
            k as int,
            final(pairs)@,
            final(gpairs)@,
            p as int,
            side_part(
                *ds,
                ov.ladder(),
                k as int,
                u,
                fwd,
                1,
                edge_head(*ds, fwd)[u + 1] as int,
            ),
        ),
        final(gpairs)@.len() == old(gpairs)@.len() + ways_out(
            *ds,
            ov.ladder(),
            k as int,
            fwd,
            u,
            edge_head(*ds, fwd)[u + 1] as int,
        ),
{
    let ghost l = ov.ladder();
    let ghost kk = k as int;
    let ghost g0 = gpairs@.len();
    let ghost head = edge_head(*ds, fwd);
    let hs: &[u32] = if fwd {
        ds.head
    } else {
        ds.rhead
    };
    assert(head[u + 1] <= head[head.len() - 1]);
    let (a, e): (usize, usize) = (hs[u as usize] as usize, hs[u as usize + 1] as usize);
    let ghost end = ways_out(*ds, l, kk, fwd, u, e as int);
    let mut t: usize = a;
    proof {
        lemma_side_start(*ds, l, kk, u, fwd, a as int);
        assert(noted(*ds, l, kk, pairs@, gpairs@, p as int, side_part(*ds, l, kk, u, fwd, 1, a as int)));
    }
    while t < e
        invariant
            ds.graph_ok(),
            ov.wf(),
            l == ov.ladder(),
            kk == k,
            ds.nv() == l[0].of.len(),
            k < l.len(),
            k < ov.levels@.len(),
            p < l[kk].bnd.len(),
            u == l[kk].bnd[p as int],
            u < ds.nv(),
            c == cell_at(l, kk, u as int),
            c < regions(l[kk]),
            head == edge_head(*ds, fwd),
            a == head[u as int],
            e == head[u + 1],
            a <= t <= e,
            e <= (if fwd { ds.eseg@.len() } else { ds.rseg@.len() }),
            e <= u32::MAX,
            end == ways_out(*ds, l, kk, fwd, u, e as int),
            2 * (g0 + end) <= u32::MAX,
            gpairs@.len() == g0 + ways_out(*ds, l, kk, fwd, u, t as int),
            noted(
                *ds,
                l,
                kk,
                pairs@,
                gpairs@,
                p as int,
                side_part(*ds, l, kk, u, fwd, 1, t as int),
            ),
        decreases e - t,
    {
        let v: u32 = if fwd {
            ds.target(u, t)
        } else {
            ds.rtarget(u, t)
        };
        proof {
            assert(v == far_end(*ds, fwd, u, t as int));
            assert(v < ds.nv());
            lemma_ways_mono(*ds, l, kk, fwd, u, t + 1, e as int);
        }
        let d: u32 = ov.cell_at(k, v);
        let ghost part = side_part(*ds, l, kk, u, fwd, 1, t as int);
        let ghost part2 = side_part(*ds, l, kk, u, fwd, 1, t + 1);
        let ghost (p0, q0) = (pairs@, gpairs@);
        proof {
            lemma_side_step(*ds, l, kk, u, fwd, t as int);
        }
        if d != c {
            pairs.push((c, d));
            pairs.push((d, c));
            gpairs.push((p, d));
            proof {
                assert(crosses(*ds, l, kk, fwd, u, t as int));
                lemma_note(*ds, l, kk, p0, q0, p as int, part, part2, c, d);
            }
        } else {
            proof {
                assert(!crosses(*ds, l, kk, fwd, u, t as int));
                assert(part2 =~= part);
            }
        }
        t += 1;
    }
}

/// What the edges of `u` seen so far lead to: all of the forward side when the
/// backward one is at hand, and of the side at hand, once begun, those before
/// `upto`.
spec fn side_part(
    ds: Dataset,
    l: Ladder,
    k: int,
    u: u32,
    fwd: bool,
    begun: int,
    upto: int,
) -> spec_fn(u32) -> bool {
    |d: u32|
        (!fwd && exists|t: int|
            #[trigger] crosses(ds, l, k, true, u, t) && cell_at(
                l,
                k,
                far_end(ds, true, u, t) as int,
            ) == d) || (begun > 0 && exists|t: int|
            #[trigger] crosses(ds, l, k, fwd, u, t) && t < upto && cell_at(
                l,
                k,
                far_end(ds, fwd, u, t) as int,
            ) == d)
}

proof fn lemma_side_start(ds: Dataset, l: Ladder, k: int, u: u32, fwd: bool, a: int)
    requires
        a == edge_head(ds, fwd)[u as int],
    ensures
        side_part(ds, l, k, u, fwd, 0, 0) == side_part(ds, l, k, u, fwd, 1, a),
{
    let (f, g) = (side_part(ds, l, k, u, fwd, 0, 0), side_part(ds, l, k, u, fwd, 1, a));
    assert forall|d: u32| #[trigger] f(d) == g(d) by {}
    assert(f =~= g);
}

proof fn lemma_side_step(ds: Dataset, l: Ladder, k: int, u: u32, fwd: bool, t: int)
    ensures
        ({
            let f = side_part(ds, l, k, u, fwd, 1, t);
            let g = side_part(ds, l, k, u, fwd, 1, t + 1);
            let d0 = cell_at(l, k, far_end(ds, fwd, u, t) as int);
            forall|d: u32|
                #[trigger] g(d) == (f(d) || (crosses(ds, l, k, fwd, u, t) && d == d0))
        }),
{
    let f = side_part(ds, l, k, u, fwd, 1, t);
    let g = side_part(ds, l, k, u, fwd, 1, t + 1);
    let d0 = cell_at(l, k, far_end(ds, fwd, u, t) as int);
    assert forall|d: u32| #[trigger] g(d) == (f(d) || (crosses(ds, l, k, fwd, u, t) && d == d0)) by {
        if crosses(ds, l, k, fwd, u, t) && d == d0 {
            assert(crosses(ds, l, k, fwd, u, t) && t < t + 1);
        }
    }
}

proof fn lemma_ways_mono(ds: Dataset, l: Ladder, k: int, fwd: bool, u: u32, a: int, b: int)
    requires
        a <= b,
        edge_head(ds, fwd)[u as int] <= a,
    ensures
        ways_out(ds, l, k, fwd, u, a) <= ways_out(ds, l, k, fwd, u, b),
    decreases b - a,
{
    if a < b {
        lemma_ways_mono(ds, l, k, fwd, u, a, b - 1);
    }
}

proof fn lemma_noted_next(
    ds: Dataset,
    l: Ladder,
    k: int,
    pairs: Seq<(u32, u32)>,
    gpairs: Seq<(u32, u32)>,
    p: int,
    part: spec_fn(u32) -> bool,
    none: spec_fn(u32) -> bool,
)
    requires
        noted(ds, l, k, pairs, gpairs, p, part),
        0 <= p < u32::MAX,
        forall|d: u32|
            #[trigger] part(d) == (d < regions(l[k]) && reaches(ds, l, k, l[k].bnd[p], d as int)),
        forall|d: u32| !#[trigger] none(d),
    ensures
        noted(ds, l, k, pairs, gpairs, p + 1, none),
{
    assert forall|q: u32, d: u32| #[trigger] gpairs.contains((q, d)) <==> (q < p + 1 && d < regions(
        l[k],
    ) && reaches(ds, l, k, l[k].bnd[q as int], d as int)) || (q == p + 1 && none(d)) by {
        assert(part(d) == (d < regions(l[k]) && reaches(ds, l, k, l[k].bnd[p], d as int)));
        assert(!none(d));
    }
}

/// Which gates of level `k` reach which regions.
fn walk_gates(ds: &Dataset, ov: &Overlay, k: usize) -> (r: (Vec<(u32, u32)>, Vec<(u32, u32)>, Vec<u32>))
    requires
        ds.graph_ok(),
        ov.wf(),
        ds.nv() == ov.ladder()[0].of.len(),
        k < ov.ladder().len(),
        ov.ladder()[k as int].bhead[0] == 0,
        2 * crossings(*ds, ov.ladder(), k as int, ov.ladder()[k as int].bnd.len() as int) <= u32::MAX,
    ensures
        noted(
            *ds,
            ov.ladder(),
            k as int,
            r.0@,
            r.1@,
            ov.ladder()[k as int].bnd.len() as int,
            |d: u32| false,
        ),
        r.1@.len() == crossings(
            *ds,
            ov.ladder(),
            k as int,
            ov.ladder()[k as int].bnd.len() as int,
        ),
        r.2@.len() == ov.ladder()[k as int].bnd.len(),
        forall|p: int|
            0 <= p < r.2@.len() ==> #[trigger] r.2@[p] == cell_at(
                ov.ladder(),
                k as int,
                ov.ladder()[k as int].bnd[p] as int,
            ),
{
    let ghost l = ov.ladder();
    let ghost kk = k as int;
    let ghost none = |d: u32| false;
    proof {
        lemma_rung(l, kk);
        assert(ov.levels@[kk].rung() == l[kk]);
    }
    let lv: &crate::overlay::shape::Level = ov.level(k);
    let bhead: &[u32] = lv.bhead;
    let bnd: &[u32] = lv.bnd;
    let n: usize = lv.regions();
    let mut pairs: Vec<(u32, u32)> = Vec::new();
    let mut gpairs: Vec<(u32, u32)> = Vec::new();
    let mut owner: Vec<u32> = Vec::new();
    let mut c: usize = 0;
    while c < n
        invariant
            ds.graph_ok(),
            ov.wf(),
            l == ov.ladder(),
            kk == k,
            none == (|d: u32| false),
            ds.nv() == l[0].of.len(),
            k < l.len(),
            rung_ok(
                l[kk],
                if kk == 0 {
                    l[0].of.len() as int
                } else {
                    regions(l[kk - 1])
                },
                l[0].of.len() as int,
            ),
            bhead@ == l[kk].bhead,
            bnd@ == l[kk].bnd,
            n == regions(l[kk]),
            2 * crossings(*ds, l, kk, l[kk].bnd.len() as int) <= u32::MAX,
            c <= n,
            owner@.len() == bhead@[c as int],
            forall|p: int|
                0 <= p < owner@.len() ==> #[trigger] owner@[p] == cell_at(l, kk, l[kk].bnd[p] as int),
            noted(*ds, l, kk, pairs@, gpairs@, owner@.len() as int, none),
            gpairs@.len() == crossings(*ds, l, kk, owner@.len() as int),
        decreases n - c,
    {
        assert(bhead@[c as int] <= bhead@[c + 1] <= bhead@[bhead@.len() - 1]);
        let end: usize = bhead[c + 1] as usize;
        let mut p: usize = bhead[c] as usize;
        while p < end
            invariant
                ds.graph_ok(),
                ov.wf(),
                l == ov.ladder(),
                kk == k,
                none == (|d: u32| false),
                ds.nv() == l[0].of.len(),
                k < l.len(),
                bhead@ == l[kk].bhead,
                bnd@ == l[kk].bnd,
                n == regions(l[kk]),
                n <= u32::MAX,
                c < n,
                2 * crossings(*ds, l, kk, l[kk].bnd.len() as int) <= u32::MAX,
                bhead@[c as int] <= p <= end == bhead@[c + 1],
                end <= bnd@.len(),
                end <= u32::MAX,
                owner@.len() == p,
                forall|p: int|
                    0 <= p < owner@.len() ==> #[trigger] owner@[p] == cell_at(
                        l,
                        kk,
                        l[kk].bnd[p] as int,
                    ),
                noted(*ds, l, kk, pairs@, gpairs@, p as int, none),
                gpairs@.len() == crossings(*ds, l, kk, p as int),
            decreases end - p,
        {
            let u: u32 = bnd[p];
            proof {
                lemma_gate_place(l, kk, c as int, p as int);
                lemma_crossings_mono(*ds, l, kk, p + 1, bnd@.len() as int);
                assert(side_part(*ds, l, kk, u, true, 0, 0) =~= none);
            }
            owner.push(c as u32);
            note_side(ds, ov, k, c as u32, p as u32, u, true, &mut pairs, &mut gpairs);
            proof {
                let (f, g) = (
                    side_part(*ds, l, kk, u, true, 1, edge_head(*ds, true)[u + 1] as int),
                    side_part(*ds, l, kk, u, false, 0, 0),
                );
                assert forall|d: u32| #[trigger] f(d) == g(d) by {}
                assert(f =~= g);
            }
            note_side(ds, ov, k, c as u32, p as u32, u, false, &mut pairs, &mut gpairs);
            proof {
                let part = side_part(*ds, l, kk, u, false, 1, edge_head(*ds, false)[u + 1] as int);
                assert forall|d: u32| #[trigger] part(d) == (d < regions(l[kk]) && reaches(
                    *ds,
                    l,
                    kk,
                    l[kk].bnd[p as int],
                    d as int,
                )) by {
                    if part(d) {
                        if exists|t: int|
                            #[trigger] crosses(*ds, l, kk, true, u, t) && cell_at(
                                l,
                                kk,
                                far_end(*ds, true, u, t) as int,
                            ) == d {
                            let t = choose|t: int|
                                #[trigger] crosses(*ds, l, kk, true, u, t) && cell_at(
                                    l,
                                    kk,
                                    far_end(*ds, true, u, t) as int,
                                ) == d;
                            assert(far_end(*ds, true, u, t) < ds.nv());
                            lemma_cell_bound(l, kk, far_end(*ds, true, u, t) as int);
                        } else {
                            let t = choose|t: int|
                                #[trigger] crosses(*ds, l, kk, false, u, t) && cell_at(
                                    l,
                                    kk,
                                    far_end(*ds, false, u, t) as int,
                                ) == d;
                            assert(far_end(*ds, false, u, t) < ds.nv());
                            lemma_cell_bound(l, kk, far_end(*ds, false, u, t) as int);
                        }
                    }
                    if reaches(*ds, l, kk, u, d as int) {
                        let (fwd, t) = choose|fwd: bool, t: int|
                            #[trigger] crosses(*ds, l, kk, fwd, u, t) && cell_at(
                                l,
                                kk,
                                far_end(*ds, fwd, u, t) as int,
                            ) == d;
                        assert(crosses(*ds, l, kk, fwd, u, t));
                    }
                }
                lemma_noted_next(*ds, l, kk, pairs@, gpairs@, p as int, part, none);
            }
            p += 1;
        }
        c += 1;
    }
    (pairs, gpairs, owner)
}

proof fn lemma_crossings_mono(ds: Dataset, l: Ladder, k: int, a: int, b: int)
    requires
        0 <= a <= b,
    ensures
        crossings(ds, l, k, a) <= crossings(ds, l, k, b),
    decreases b - a,
{
    if a < b {
        lemma_crossings_mono(ds, l, k, a, b - 1);
    }
}

/// How many road vertices each region of level `k` holds.
fn weigh(ds: &Dataset, ov: &Overlay, k: usize) -> (csize: Vec<u32>)
    requires
        ds.graph_ok(),
        ov.wf(),
        ds.nv() == ov.ladder()[0].of.len(),
        k < ov.ladder().len(),
    ensures
        csize@.len() == regions(ov.ladder()[k as int]),
        forall|c: int|
            0 <= c < csize@.len() ==> #[trigger] csize@[c] == count(
                ds.nv(),
                stands_in(ov.ladder(), k as int, c),
            ),
{
    let ghost l = ov.ladder();
    let ghost kk = k as int;
    proof {
        assert(ov.levels@[kk].rung() == l[kk]);
    }
    let n: usize = ov.level(k).regions();
    let nv: usize = ds.n_vertices();
    let mut csize: Vec<u32> = vec![0u32; n];
    let mut v: usize = 0;
    while v < nv
        invariant
            ov.wf(),
            l == ov.ladder(),
            kk == k,
            nv == ds.nv(),
            nv < u32::MAX,
            ds.nv() == l[0].of.len(),
            k < l.len(),
            v <= nv,
            csize@.len() == regions(l[kk]),
            forall|c: int|
                0 <= c < csize@.len() ==> #[trigger] csize@[c] == count(v as int, stands_in(l, kk, c))
                    && csize@[c] <= v,
        decreases nv - v,
    {
        let c: u32 = ov.cell_at(k, v as u32);
        let ghost s0 = csize@;
        assert(csize@[c as int] <= v);
        csize[c as usize] = csize[c as usize] + 1;
        proof {
            assert forall|x: int| 0 <= x < csize@.len() implies #[trigger] csize@[x] == count(
                v + 1,
                stands_in(l, kk, x),
            ) && csize@[x] <= v + 1 by {
                assert(s0[x] == count(v as int, stands_in(l, kk, x)) && s0[x] <= v);
                let f = stands_in(l, kk, x);
                assert(f(v as int) == (cell_at(l, kk, v as int) == x));
            }
        }
        v += 1;
    }
    csize
}

fn turned(pairs: &Vec<(u32, u32)>) -> (r: Vec<(u32, u32)>)
    ensures
        r@.len() == pairs@.len(),
        forall|i: int| 0 <= i < r@.len() ==> #[trigger] r@[i] == (pairs@[i].1, pairs@[i].0),
{
    let mut r: Vec<(u32, u32)> = Vec::new();
    let mut i: usize = 0;
    while i < pairs.len()
        invariant
            i <= pairs@.len(),
            r@.len() == i,
            forall|x: int| 0 <= x < i ==> #[trigger] r@[x] == (pairs@[x].1, pairs@[x].0),
        decreases pairs@.len() - i,
    {
        let (a, b): (u32, u32) = pairs[i];
        r.push((b, a));
        i += 1;
    }
    r
}

fn copied(v: &[u32]) -> (r: Vec<u32>)
    ensures
        r@ == v@,
{
    let mut r: Vec<u32> = Vec::new();
    let mut i: usize = 0;
    while i < v.len()
        invariant
            i <= v@.len(),
            r@ == v@.take(i as int),
        decreases v@.len() - i,
    {
        r.push(v[i]);
        i += 1;
        assert(r@ =~= v@.take(i as int));
    }
    assert(v@.take(v@.len() as int) =~= v@);
    r
}

/// Surveys a level for the growth of the one above it.
#[verifier::rlimit(40)]
pub fn survey(ds: &Dataset, ov: &Overlay, k: usize) -> (t: Terrain)
    requires
        ds.graph_ok(),
        ov.wf(),
        ds.nv() == ov.ladder()[0].of.len(),
        k < ov.ladder().len(),
        ov.ladder()[k as int].bhead[0] == 0,
        regions(ov.ladder()[k as int]) < u32::MAX,
        ov.ladder()[k as int].bnd.len() < u32::MAX,
        2 * crossings(*ds, ov.ladder(), k as int, ov.ladder()[k as int].bnd.len() as int) <= u32::MAX,
    ensures
        terrain_of(*ds, ov.ladder(), k as int, t),
{
    let ghost l = ov.ladder();
    let ghost kk = k as int;
    proof {
        lemma_rung(l, kk);
        assert(ov.levels@[kk].rung() == l[kk]);
    }
    let csize: Vec<u32> = weigh(ds, ov, k);
    let (pairs, gpairs, owner): (Vec<(u32, u32)>, Vec<(u32, u32)>, Vec<u32>) = walk_gates(
        ds,
        ov,
        k,
    );
    let lv: &crate::overlay::shape::Level = ov.level(k);
    let n: usize = lv.regions();
    let nb: usize = owner.len();
    let inv: Vec<(u32, u32)> = turned(&gpairs);
    let ghost (p0, g0, i0) = (pairs@, gpairs@, inv@);
    proof {
        assert forall|i: int| 0 <= i < i0.len() implies (#[trigger] i0[i]).0 < n by {
            assert(g0[i].1 < regions(l[kk]));
        }
    }
    let (nhead, nlist): (Vec<u32>, Vec<u32>) = listing(gpairs, nb);
    let (ihead, ilist): (Vec<u32>, Vec<u32>) = listing(inv, n);
    let (ahead, adj): (Vec<u32>, Vec<u32>) = listing(pairs, n);
    let bstart: Vec<u32> = copied(lv.bhead);
    let bnd: Vec<u32> = copied(lv.bnd);
    let gx: GateIndex = GateIndex { bstart, nhead, nlist, ihead, ilist, owner };
    let t: Terrain = Terrain { gx, ahead, adj, csize, bnd };
    proof {
        let gp = |c: int, v: u32| g0.contains((c as u32, v));
        let ip = |c: int, v: u32| i0.contains((c as u32, v));
        let pp = |c: int, v: u32| p0.contains((c as u32, v));
        assert(lists(t.gx.nhead@, t.gx.nlist@, nb as int, gp));
        assert(lists(t.gx.ihead@, t.gx.ilist@, n as int, ip));
        assert(lists(t.ahead@, t.adj@, n as int, pp));
        lemma_survey(*ds, l, kk, t, p0, g0, i0);
    }
    t
}

#[verifier::rlimit(60)]
proof fn lemma_survey(
    ds: Dataset,
    l: Ladder,
    k: int,
    t: Terrain,
    p0: Seq<(u32, u32)>,
    g0: Seq<(u32, u32)>,
    i0: Seq<(u32, u32)>,
)
    requires
        ds.graph_ok(),
        ladder_ok(l),
        ds.nv() == l[0].of.len(),
        0 <= k < l.len(),
        l[k].bhead[0] == 0,
        regions(l[k]) < u32::MAX,
        l[k].bnd.len() < u32::MAX,
        noted(ds, l, k, p0, g0, l[k].bnd.len() as int, |d: u32| false),
        i0.len() == g0.len(),
        forall|i: int| 0 <= i < i0.len() ==> #[trigger] i0[i] == (g0[i].1, g0[i].0),
        t.gx.bstart@ == l[k].bhead,
        t.bnd@ == l[k].bnd,
        t.gx.owner@.len() == l[k].bnd.len(),
        forall|p: int|
            0 <= p < t.gx.owner@.len() ==> #[trigger] t.gx.owner@[p] == cell_at(
                l,
                k,
                l[k].bnd[p] as int,
            ),
        t.csize@.len() == regions(l[k]),
        forall|c: int|
            0 <= c < t.csize@.len() ==> #[trigger] t.csize@[c] == count(ds.nv(), stands_in(l, k, c)),
        lists(
            t.gx.nhead@,
            t.gx.nlist@,
            l[k].bnd.len() as int,
            |c: int, v: u32| g0.contains((c as u32, v)),
        ),
        lists(
            t.gx.ihead@,
            t.gx.ilist@,
            regions(l[k]),
            |c: int, v: u32| i0.contains((c as u32, v)),
        ),
        lists(t.ahead@, t.adj@, regions(l[k]), |c: int, v: u32| p0.contains((c as u32, v))),
    ensures
        terrain_of(ds, l, k, t),
{
    let n = regions(l[k]);
    let nb = l[k].bnd.len() as int;
    let gx = t.gx;
    let none = |d: u32| false;
    let gp = |c: int, v: u32| g0.contains((c as u32, v));
    let ip = |c: int, v: u32| i0.contains((c as u32, v));
    let pp = |c: int, v: u32| p0.contains((c as u32, v));
    lemma_rung(l, k);
    assert forall|p: int, d: u32| 0 <= p < nb implies (#[trigger] gx.faces(p).contains(d)
        <==> d < n && reaches(ds, l, k, l[k].bnd[p], d as int)) by {
        assert(block(gx.nhead@, gx.nlist@, p).contains(d) <==> gp(p, d));
        assert(g0.contains((p as u32, d)) <==> (p < nb && d < n && reaches(
            ds,
            l,
            k,
            l[k].bnd[p],
            d as int,
        )) || (p == nb && none(d)));
    }
    assert forall|d: int, p: u32| 0 <= d < n implies (#[trigger] gx.facing(d).contains(p) <==> p < nb
        && gx.faces(p as int).contains(d as u32)) by {
        assert(block(gx.ihead@, gx.ilist@, d).contains(p) <==> ip(d, p));
        if ip(d, p) {
            let x = i0.index_of((d as u32, p));
            assert(g0[x] == (p, d as u32));
            assert(g0.contains((p, d as u32)));
            assert(block(gx.nhead@, gx.nlist@, p as int).contains(d as u32) <==> gp(
                p as int,
                d as u32,
            ));
        }
        if p < nb && gx.faces(p as int).contains(d as u32) {
            assert(block(gx.nhead@, gx.nlist@, p as int).contains(d as u32) <==> gp(
                p as int,
                d as u32,
            ));
            let x = g0.index_of((p, d as u32));
            assert(i0[x] == (d as u32, p));
        }
    }
    assert forall|p: int| 0 <= p < nb implies (#[trigger] gx.owner@[p]) < n by {
        let c = crate::overlay::fits::lemma_in_block(l[k].bhead, l[k].bnd, n, p);
        lemma_gate_place(l, k, c, p);
    }
    assert forall|p: int, c: int| 0 <= p < nb && 0 <= c < n implies (#[trigger] gx.owner@[p] == c
        <==> (#[trigger] gx.bstart@[c]) <= p < gx.bstart@[c + 1]) by {
        let e = crate::overlay::fits::lemma_in_block(l[k].bhead, l[k].bnd, n, p);
        lemma_gate_place(l, k, e, p);
        if c != e {
            if c < e {
                assert(l[k].bhead[c + 1] <= l[k].bhead[e]);
            } else {
                assert(l[k].bhead[e + 1] <= l[k].bhead[c]);
            }
        }
    }
    assert forall|p: int| 0 <= p < nb implies ascending(#[trigger] gx.faces(p)) by {
        assert(ascending(block(gx.nhead@, gx.nlist@, p)));
    }
    assert forall|d: int| 0 <= d < n implies ascending(#[trigger] gx.facing(d)) by {
        assert(ascending(block(gx.ihead@, gx.ilist@, d)));
    }
    assert forall|p: int, i: int| 0 <= p < nb && 0 <= i < gx.faces(p).len() implies (
    #[trigger] gx.faces(p)[i]) < n && gx.faces(p)[i] != gx.owner@[p] by {
        let d = gx.faces(p)[i];
        assert(gx.faces(p).contains(d));
        let (fwd, e) = choose|fwd: bool, e: int|
            #[trigger] crosses(ds, l, k, fwd, l[k].bnd[p], e) && cell_at(
                l,
                k,
                far_end(ds, fwd, l[k].bnd[p], e) as int,
            ) == d;
        assert(crosses(ds, l, k, fwd, l[k].bnd[p], e));
    }
    assert forall|i: int| 0 <= i < t.adj@.len() implies (#[trigger] t.adj@[i]) < n by {
        let c = crate::overlay::fits::lemma_in_block(t.ahead@, t.adj@, n, i);
        let b = block(t.ahead@, t.adj@, c);
        assert(b[i - t.ahead@[c]] == t.adj@[i]);
        assert(b.contains(t.adj@[i]));
        assert(pp(c, t.adj@[i]));
        let x = p0.index_of((c as u32, t.adj@[i]));
        assert(p0[x].1 < n);
    }
    assert(gx.sized());
    assert(gx.related());
    assert forall|c: int, d: u32| 0 <= c < n implies (#[trigger] t.near(c).contains(d) <==> touch(
        gx,
        c,
        d as int,
    ) || touch(gx, d as int, c)) by {
        assert(block(t.ahead@, t.adj@, c).contains(d) <==> pp(c, d));
        assert(p0.contains((c as u32, d)) <==> met(l, k, g0, c as u32, d));
        if met(l, k, g0, c as u32, d) {
            let i = choose|i: int|
                0 <= i < g0.len() && {
                    let o = cell_at(l, k, l[k].bnd[(#[trigger] g0[i]).0 as int] as int);
                    (o == c as u32 && g0[i].1 == d) || (o == d && g0[i].1 == c as u32)
                };
            let p = g0[i].0 as int;
            assert(g0.contains((p as u32, g0[i].1)));
            assert(block(gx.nhead@, gx.nlist@, p).contains(g0[i].1) <==> gp(p, g0[i].1));
            assert(gx.faces(p).contains(g0[i].1));
            assert(gx.owner@[p] == cell_at(l, k, l[k].bnd[p] as int));
        }
        if touch(gx, c, d as int) {
            let p = choose|p: int|
                0 <= p < gx.nb() && #[trigger] gx.owner@[p] == c && gx.faces(p).contains(d);
            assert(block(gx.nhead@, gx.nlist@, p).contains(d) <==> gp(p, d));
            let i = g0.index_of((p as u32, d));
            assert(g0[i].0 == p as u32);
        }
        if touch(gx, d as int, c) {
            let p = choose|p: int|
                0 <= p < gx.nb() && #[trigger] gx.owner@[p] == d && gx.faces(p).contains(c as u32);
            assert(block(gx.nhead@, gx.nlist@, p).contains(c as u32) <==> gp(p, c as u32));
            let i = g0.index_of((p as u32, c as u32));
            assert(g0[i].0 == p as u32);
        }
    }
    assert forall|c: int| 0 <= c < n implies ascending(#[trigger] t.near(c)) by {
        assert(ascending(block(t.ahead@, t.adj@, c)));
    }
}

// ------------------------------------------------------------ the new level

/// A level's shape, without any of its numbers.
///
/// It depends only on the road network's topology — which regions there are,
/// which vertices are on their boundaries, how big each table has to be — and
/// not on how long anything takes to drive.
pub struct LevelStructure {
    pub lof: Vec<u32>,
    /// Region -> its vertex set, the level below's boundary vertices inside it.
    pub vhead: Vec<u32>,
    pub vlist: Vec<u32>,
    pub bhead: Vec<u32>,
    pub blist: Vec<u32>,
    /// Entry offset of each region's table: both directions side by side.
    pub ohead: Vec<u64>,
    pub ncells: usize,
    pub entries: u64,
}

/// An edge of `v` leaves the region that `lof` puts it in.
pub open spec fn leaves(ds: Dataset, l: Ladder, k: int, lof: Seq<u32>, v: u32) -> bool {
    exists|fwd: bool, t: int|
        #[trigger] is_edge(ds, fwd, v, t) && lof[cell_at(l, k, far_end(ds, fwd, v, t) as int)]
            != lof[cell_at(l, k, v as int)]
}

/// The gates of level `k` that `lof` puts into region `c`.
pub open spec fn gathered(ds: Dataset, l: Ladder, k: int, lof: Seq<u32>) -> spec_fn(
    int,
    u32,
) -> bool {
    |c: int, v: u32| v < ds.nv() && gate_at(l, k, v) && lof[cell_at(l, k, v as int)] == c
}

/// Those of them that have an edge out of it.
pub open spec fn rimmed(ds: Dataset, l: Ladder, k: int, lof: Seq<u32>) -> spec_fn(
    int,
    u32,
) -> bool {
    |c: int, v: u32|
        v < ds.nv() && gate_at(l, k, v) && lof[cell_at(l, k, v as int)] == c && leaves(
            ds,
            l,
            k,
            lof,
            v,
        )
}

/// The shape of a level over the regions of level `k`.
pub open spec fn structured(ds: Dataset, l: Ladder, k: int, s: LevelStructure) -> bool {
    &&& settled_in(s.lof@, regions(l[k]), s.ncells as int)
    &&& lists(s.vhead@, s.vlist@, s.ncells as int, gathered(ds, l, k, s.lof@))
    &&& lists(s.bhead@, s.blist@, s.ncells as int, rimmed(ds, l, k, s.lof@))
    &&& s.ohead@.len() == s.ncells + 1
    &&& forall|c: int| 0 <= c <= s.ncells ==> #[trigger] s.ohead@[c] == squares(s.bhead@, 2, c)
    &&& s.entries == squares(s.bhead@, 2, s.ncells as int)
}

/// A gate of a level stands somewhere in its list.
pub proof fn lemma_gate_position(l: Ladder, k: int, v: u32) -> (p: int)
    requires
        ladder_ok(l),
        0 <= k < l.len(),
        v < l[0].of.len(),
        gate_at(l, k, v),
    ensures
        0 <= p < l[k].bnd.len(),
        l[k].bnd[p] == v,
{
    lemma_rung(l, k);
    lemma_cell_bound(l, k, v as int);
    let c = cell_at(l, k, v as int);
    let g = gates(l[k], c);
    let i = choose|i: int| 0 <= i < g.len() && g[i] == v;
    assert(l[k].bhead[c] <= l[k].bhead[c + 1] <= l[k].bhead[l[k].bhead.len() - 1]);
    l[k].bhead[c] + i
}

/// What stands in the list is a gate.
proof fn lemma_position_gate(l: Ladder, k: int, p: int)
    requires
        ladder_ok(l),
        0 <= k < l.len(),
        l[k].bhead[0] == 0,
        0 <= p < l[k].bnd.len(),
    ensures
        l[k].bnd[p] < l[0].of.len(),
        gate_at(l, k, l[k].bnd[p]),
{
    lemma_rung(l, k);
    let c = crate::overlay::fits::lemma_in_block(l[k].bhead, l[k].bnd, regions(l[k]), p);
    lemma_gate_place(l, k, c, p);
    let g = gates(l[k], c);
    assert(l[k].bhead[c + 1] <= l[k].bhead[l[k].bhead.len() - 1]);
    assert(g[p - l[k].bhead[c]] == l[k].bnd[p]);
}

/// A gate is one of the region it is gathered into exactly when it faces a
/// region outside.
proof fn lemma_rim(ds: Dataset, l: Ladder, k: int, t: Terrain, lof: Seq<u32>, p: int)
    requires
        ds.graph_ok(),
        ladder_ok(l),
        ds.nv() == l[0].of.len(),
        0 <= k < l.len(),
        l[k].bhead[0] == 0,
        terrain_of(ds, l, k, t),
        lof.len() == t.n(),
        0 <= p < l[k].bnd.len(),
        t.gx.owner@[p] == cell_at(l, k, l[k].bnd[p] as int),
    ensures
        leaves(ds, l, k, lof, l[k].bnd[p]) == (t.gx.outs(
            lof,
            lof[t.gx.owner@[p] as int],
            p,
        ) > 0),
{
    let v = l[k].bnd[p];
    let id = lof[t.gx.owner@[p] as int];
    let list = t.gx.faces(p);
    let f = outsider(lof, id);
    lemma_position_gate(l, k, p);
    lemma_count_in_pos(list, f);
    if leaves(ds, l, k, lof, v) {
        let (fwd, e) = choose|fwd: bool, e: int|
            #[trigger] is_edge(ds, fwd, v, e) && lof[cell_at(
                l,
                k,
                far_end(ds, fwd, v, e) as int,
            )] != lof[cell_at(l, k, v as int)];
        let d = cell_at(l, k, far_end(ds, fwd, v, e) as int);
        assert(far_end(ds, fwd, v, e) < ds.nv());
        lemma_cell_bound(l, k, far_end(ds, fwd, v, e) as int);
        assert(crosses(ds, l, k, fwd, v, e));
        assert(reaches(ds, l, k, v, d));
        assert(t.gx.faces(p).contains(d as u32));
        let i = list.index_of(d as u32);
        assert(f(list[i] as int));
    }
    if t.gx.outs(lof, id, p) > 0 {
        let i = choose|i: int| 0 <= i < list.len() && f((#[trigger] list[i]) as int);
        assert(t.gx.faces(p).contains(list[i]));
        let (fwd, e) = choose|fwd: bool, e: int|
            #[trigger] crosses(ds, l, k, fwd, v, e) && cell_at(
                l,
                k,
                far_end(ds, fwd, v, e) as int,
            ) == list[i];
        assert(is_edge(ds, fwd, v, e));
    }
}

/// The shape of level `k`, over the level below it.
#[verifier::rlimit(60)]
pub fn level_structure(ds: &Dataset, ov: &Overlay, k: usize, rules: &Rules, traffic: &Traffic) -> (s:
    LevelStructure)
    requires
        ds.graph_ok(),
        ov.wf(),
        ds.nv() == ov.ladder()[0].of.len(),
        1 <= k <= ov.ladder().len(),
        ov.ladder()[k - 1].bhead[0] == 0,
        regions(ov.ladder()[k - 1]) < u32::MAX,
        ov.ladder()[k - 1].bnd.len() <= 0x7FFF_FFFF,
        2 * crossings(*ds, ov.ladder(), k - 1, ov.ladder()[k - 1].bnd.len() as int) <= u32::MAX,
        traffic.wf(),
    ensures
        structured(*ds, ov.ladder(), k - 1, s),
        exists|t: Terrain|
            #[trigger] terrain_of(*ds, ov.ladder(), k - 1, t) && carved(
                t,
                *rules,
                traffic.pairs@,
                (s.lof@, s.ncells as int),
            ),
{
    let ghost l = ov.ladder();
    let below: usize = k - 1;
    let ghost kk = below as int;
    let t: Terrain = survey(ds, ov, below);
    let (lof, ncells): (Vec<u32>, usize) = carve(&t, rules, traffic);
    let nb: usize = t.bnd.len();
    let mut inner: Vec<(u32, u32)> = Vec::new();
    let mut rim: Vec<(u32, u32)> = Vec::new();
    let mut p: usize = 0;
    proof {
        lemma_rung(l, kk);
    }
    while p < nb
        invariant
            ds.graph_ok(),
            ladder_ok(l),
            ds.nv() == l[0].of.len(),
            0 <= kk < l.len(),
            l[kk].bhead[0] == 0,
            terrain_of(*ds, l, kk, t),
            settled_in(lof@, t.n(), ncells as int),
            nb == l[kk].bnd.len(),
            nb == t.gx.nb(),
            nb <= 0x7FFF_FFFF,
            p <= nb,
            inner@.len() == p,
            rim@.len() <= p,
            forall|x: int|
                0 <= x < p ==> #[trigger] inner@[x] == (
                    lof@[cell_at(l, kk, l[kk].bnd[x] as int)],
                    l[kk].bnd[x],
                ),
            forall|x: int|
                0 <= x < rim@.len() ==> inner@.contains(#[trigger] rim@[x]) && leaves(
                    *ds,
                    l,
                    kk,
                    lof@,
                    rim@[x].1,
                ),
            forall|x: int|
                0 <= x < p && leaves(*ds, l, kk, lof@, l[kk].bnd[x]) ==> rim@.contains(
                    #[trigger] inner@[x],
                ),
        decreases nb - p,
    {
        let u: u32 = t.bnd[p];
        assert(t.gx.owner@[p as int] < t.n());
        proof {
            let c = crate::overlay::fits::lemma_in_block(l[kk].bhead, l[kk].bnd, regions(l[kk]), p as int);
            lemma_gate_place(l, kk, c, p as int);
            assert(t.gx.owner@[p as int] == c <==> t.gx.bstart@[c] <= p < t.gx.bstart@[c + 1]);
            lemma_rim(*ds, l, kk, t, lof@, p as int);
        }
        let cc: u32 = lof[t.gx.owner[p] as usize];
        let ghost (in0, rim0) = (inner@, rim@);
        inner.push((cc, u));
        let out: u32 = t.gx.count_out(p as u32, &lof, cc);
        if out > 0 {
            rim.push((cc, u));
        }
        proof {
            assert(inner@[p as int] == (cc, u));
            assert forall|x: int| 0 <= x < rim@.len() implies inner@.contains(#[trigger] rim@[x])
                && leaves(*ds, l, kk, lof@, rim@[x].1) by {
                if x < rim0.len() {
                    assert(in0.contains(rim0[x]));
                    let y = in0.index_of(rim0[x]);
                    assert(inner@[y] == rim@[x]);
                }
            }
            assert forall|x: int|
                0 <= x < p + 1 && leaves(*ds, l, kk, lof@, l[kk].bnd[x]) implies rim@.contains(
                #[trigger] inner@[x],
            ) by {
                if x < p {
                    assert(rim0.contains(in0[x]));
                    let y = rim0.index_of(in0[x]);
                    assert(rim@[y] == inner@[x]);
                } else {
                    assert(rim@[rim0.len() as int] == inner@[x]);
                }
            }
        }
        p += 1;
    }
    let ghost (in0, rim0) = (inner@, rim@);
    proof {
        assert forall|x: int| 0 <= x < in0.len() implies (#[trigger] in0[x]).0 < ncells by {
            lemma_position_gate(l, kk, x);
            lemma_cell_bound(l, kk, l[kk].bnd[x] as int);
            assert(lof@[cell_at(l, kk, l[kk].bnd[x] as int)] < ncells);
        }
        assert forall|x: int| 0 <= x < rim0.len() implies (#[trigger] rim0[x]).0 < ncells by {
            assert(in0.contains(rim0[x]));
            let y = in0.index_of(rim0[x]);
            assert(in0[y].0 < ncells);
        }
    }
    let (vhead, vlist): (Vec<u32>, Vec<u32>) = listing(inner, ncells);
    let (bhead, blist): (Vec<u32>, Vec<u32>) = listing(rim, ncells);
    proof {
        let n = ncells as int;
        let pa = |c: int, v: u32| in0.contains((c as u32, v));
        let pr = |c: int, v: u32| rim0.contains((c as u32, v));
        let qa = gathered(*ds, l, kk, lof@);
        let qr = rimmed(*ds, l, kk, lof@);
        assert forall|c: int, v: u32| 0 <= c < n implies #[trigger] pa(c, v) == #[trigger] qa(c, v) by {
            if pa(c, v) {
                let x = in0.index_of((c as u32, v));
                assert(in0[x].1 == v);
                lemma_position_gate(l, kk, x);
            }
            if qa(c, v) {
                let x = lemma_gate_position(l, kk, v);
                assert(in0[x] == (c as u32, v));
            }
        }
        assert forall|c: int, v: u32| 0 <= c < n implies #[trigger] pr(c, v) == #[trigger] qr(c, v) by {
            if pr(c, v) {
                let y = rim0.index_of((c as u32, v));
                assert(in0.contains(rim0[y]));
                assert(pa(c, v));
                assert(qa(c, v));
            }
            if qr(c, v) {
                let x = lemma_gate_position(l, kk, v);
                assert(in0[x] == (c as u32, v));
                assert(rim0.contains(in0[x]));
            }
        }
        crate::overlay::ground::lemma_lists_same(vhead@, vlist@, n, pa, qa);
        crate::overlay::ground::lemma_lists_same(bhead@, blist@, n, pr, qr);
    }
    let ohead: Vec<u64> = square_heads(&bhead, 2);
    let entries: u64 = ohead[ncells];
    LevelStructure { lof, vhead, vlist, bhead, blist, ohead, ncells, entries }
}

} // verus!
