//! Stranded fragments, absorbed into the region they hang off.

use vstd::prelude::*;
use crate::csr::{equal, lemma_equal_take};
use crate::dataset::Dataset;
use crate::overlay::partition::{adjacent, lemma_neighbours, linked, members_of, neighbours};
use crate::overlay::rows::{edge_head, far_end};
use crate::overlay::partition::side_neighbours;
use crate::sorting::{
    lemma_occurs, lemma_occurs_pos, lemma_same_items, occurs, pair_le, pairs_sorted, sort_by_first,
    sort_pairs,
};

verus! {

/// A region this small collapses nothing worth keeping.
pub const SMALL: usize = 64;

/// How far past `target` an absorbing region may grow.
pub const SLACK: usize = 2;

// -------------------------------------------------------------- union-find

/// A forest whose trees are the classes of `rep`, with ranks that rise toward
/// the roots.
spec fn forest(par: Seq<u32>, rep: Seq<u32>, rank: Seq<nat>, top: nat) -> bool {
    &&& rep.len() == par.len()
    &&& rank.len() == par.len()
    &&& forall|x: int|
        0 <= x < par.len() ==> {
            &&& (#[trigger] par[x]) < par.len()
            &&& rep[x] < par.len()
            &&& rep[par[x] as int] == rep[x]
            &&& par[x] == x <==> rep[x] == x
            &&& par[x] != x ==> rank[par[x] as int] > rank[x]
            &&& rank[x] < top
        }
}

fn find(
    par: &mut Vec<u32>,
    x: u32,
    Ghost(rep): Ghost<Seq<u32>>,
    Ghost(rank): Ghost<Seq<nat>>,
    Ghost(top): Ghost<nat>,
) -> (r: u32)
    requires
        forest(old(par)@, rep, rank, top),
        x < old(par)@.len(),
    ensures
        forest(final(par)@, rep, rank, top),
        final(par)@.len() == old(par)@.len(),
        r == rep[x as int],
{
    let mut y: u32 = x;
    while par[y as usize] != y
        invariant
            forest(par@, rep, rank, top),
            par@.len() == old(par)@.len(),
            y < par@.len(),
            x < par@.len(),
            rep[y as int] == rep[x as int],
        decreases top - rank[y as int],
    {
        let ghost p0 = par@;
        let up: u32 = par[y as usize];
        let upper: u32 = par[up as usize];
        proof {
            assert(p0[y as int] == up && p0[up as int] == upper);
            assert(p0[upper as int] < p0.len());
        }
        par[y as usize] = upper;
        proof {
            assert forall|z: int| 0 <= z < par@.len() implies {
                &&& (#[trigger] par@[z]) < par@.len()
                &&& rep[z] < par@.len()
                &&& rep[par@[z] as int] == rep[z]
                &&& par@[z] == z <==> rep[z] == z
                &&& par@[z] != z ==> rank[par@[z] as int] > rank[z]
                &&& rank[z] < top
            } by {
                assert(p0[z] < p0.len());
            }
            assert(par@[upper as int] < par@.len());
        }
        y = upper;
    }
    assert(par@[y as int] < par@.len());
    y
}

// ------------------------------------------------------------------- model

/// The region of every vertex after merging by `rep`.
pub open spec fn roots(cell: Seq<u32>, rep: Seq<u32>) -> Seq<u32> {
    Seq::new(cell.len(), |v: int| rep[cell[v] as int])
}

/// Every region on its own.
pub open spec fn apart(n: int) -> Seq<u32> {
    Seq::new(n as nat, |x: int| x as u32)
}

/// Everything that merged into `c` now merges into `d`.
pub open spec fn merged(rep: Seq<u32>, c: u32, d: u32) -> Seq<u32> {
    Seq::new(
        rep.len(),
        |x: int|
            if rep[x] == c {
                d
            } else {
                rep[x]
            },
    )
}

/// One pair per neighbour of `u` that stands in another region.
pub open spec fn ties_of(roots: Seq<u32>, c: u32, list: Seq<u32>) -> Seq<(u32, u32)>
    decreases list.len(),
{
    if list.len() == 0 {
        Seq::empty()
    } else {
        let before = ties_of(roots, c, list.drop_last());
        let d = roots[list.last() as int];
        if d != c {
            before.push((c, d))
        } else {
            before
        }
    }
}

/// Pairs (small region, neighbour region), once per crossing edge.
pub open spec fn ties(ds: Dataset, roots: Seq<u32>, n: int) -> Seq<(u32, u32)>
    decreases n,
{
    if n <= 0 {
        Seq::empty()
    } else {
        let c = roots[n - 1];
        ties(ds, roots, n - 1) + (if equal(roots, c as int) <= SMALL {
            ties_of(roots, c, neighbours(ds, (n - 1) as u32))
        } else {
            Seq::empty()
        })
    }
}

/// `d` is what `c` shares most edges with, the lowest where there are several.
pub open spec fn strongest(t: Seq<(u32, u32)>, c: u32, d: u32) -> bool {
    &&& t.contains((c, d))
    &&& forall|e: u32|
        #[trigger] occurs(t, (c, e)) < occurs(t, (c, d)) || (occurs(t, (c, e)) == occurs(t, (c, d))
            && d <= e)
}

/// Every small region with its strongest neighbour, smallest region first.
pub open spec fn is_plan(t: Seq<(u32, u32)>, roots: Seq<u32>, plan: Seq<(u32, u32)>) -> bool {
    &&& forall|i: int|
        0 <= i < plan.len() ==> strongest(t, (#[trigger] plan[i]).0, plan[i].1)
    &&& forall|i: int, j: int|
        0 <= i < j < plan.len() ==> (#[trigger] plan[i]).0 != (#[trigger] plan[j]).0
    &&& forall|i: int, j: int|
        0 <= i <= j < plan.len() ==> equal(roots, (#[trigger] plan[i]).0 as int) <= equal(
            roots,
            (#[trigger] plan[j]).0 as int,
        )
    &&& forall|x: (u32, u32)| #[trigger] t.contains(x) ==> planned(plan, x.0)
}

pub open spec fn planned(plan: Seq<(u32, u32)>, c: u32) -> bool {
    exists|i: int| 0 <= i < plan.len() && (#[trigger] plan[i]).0 == c
}

/// The first `n` of a plan carried out: a region joins the other where the
/// two together stay under the cap.
pub open spec fn attach(
    cell: Seq<u32>,
    rep: Seq<u32>,
    plan: Seq<(u32, u32)>,
    n: int,
    cap: int,
) -> Seq<u32>
    decreases n,
{
    if n <= 0 {
        rep
    } else {
        let r = attach(cell, rep, plan, n - 1, cap);
        let (c, d) = (r[plan[n - 1].0 as int], r[plan[n - 1].1 as int]);
        let all = roots(cell, r);
        if c != d && equal(all, c as int) + equal(all, d as int) <= cap {
            merged(r, c, d)
        } else {
            r
        }
    }
}

/// `end` is what up to `rounds` rounds of absorbing make of `rep`. The order
/// among regions of one size is left open.
pub open spec fn absorbed(
    ds: Dataset,
    cell: Seq<u32>,
    rep: Seq<u32>,
    cap: int,
    rounds: nat,
    end: Seq<u32>,
) -> bool
    decreases rounds,
{
    let all = roots(cell, rep);
    let t = ties(ds, all, all.len() as int);
    if rounds == 0 || t.len() == 0 {
        end == rep
    } else {
        exists|plan: Seq<(u32, u32)>|
            {
                let next = attach(cell, rep, plan, plan.len() as int, cap);
                &&& #[trigger] is_plan(t, all, plan)
                &&& if next == rep {
                    end == rep
                } else {
                    absorbed(ds, cell, next, cap, (rounds - 1) as nat, end)
                }
            }
    }
}

/// `v` is the first vertex of its region.
pub open spec fn opens(all: Seq<u32>, v: int) -> bool {
    forall|u: int| 0 <= u < v ==> all[u] != all[v]
}

/// How many regions the first `n` vertices open.
pub open spec fn opened(all: Seq<u32>, n: int) -> nat
    decreases n,
{
    if n <= 0 {
        0
    } else {
        opened(all, n - 1) + if opens(all, n - 1) {
            1nat
        } else {
            0nat
        }
    }
}

/// Regions renumbered without gaps, in the order in which they first occur.
pub open spec fn renumbered(all: Seq<u32>, cell: Seq<u32>) -> bool {
    &&& cell.len() == all.len()
    &&& forall|v: int|
        0 <= v < all.len() && opens(all, v) ==> #[trigger] cell[v] == opened(all, v)
    &&& forall|u: int, v: int|
        0 <= u < all.len() && 0 <= v < all.len() && all[u] == all[v] ==> #[trigger] cell[u]
            == #[trigger] cell[v]
}

// ------------------------------------------------------------------ rounds

/// Regions as the forest and the sizes hold them.
spec fn counted(
    cell: Seq<u32>,
    par: Seq<u32>,
    size: Seq<u32>,
    rep: Seq<u32>,
    rank: Seq<nat>,
    top: nat,
) -> bool {
    &&& forest(par, rep, rank, top)
    &&& size.len() == par.len()
    &&& forall|v: int| 0 <= v < cell.len() ==> (#[trigger] cell[v]) < par.len()
    &&& forall|c: int| 0 <= c < size.len() ==> #[trigger] size[c] == equal(roots(cell, rep), c)
}

proof fn lemma_ties_push(all: Seq<u32>, c: u32, list: Seq<u32>, k: int)
    requires
        0 <= k < list.len(),
    ensures
        ties_of(all, c, list.take(k + 1)) == (if all[list[k] as int] != c {
            ties_of(all, c, list.take(k)).push((c, all[list[k] as int]))
        } else {
            ties_of(all, c, list.take(k))
        }),
{
    assert(list.take(k + 1).drop_last() =~= list.take(k));
    assert(list.take(k + 1).last() == list[k]);
}

/// The ties of one vertex, on one side, added to a list.
fn tie_side(
    ds: &Dataset,
    cell: &Vec<u32>,
    par: &mut Vec<u32>,
    u: u32,
    c: u32,
    fwd: bool,
    prop: &mut Vec<(u32, u32)>,
    Ghost(rep): Ghost<Seq<u32>>,
    Ghost(rank): Ghost<Seq<nat>>,
    Ghost(top): Ghost<nat>,
    Ghost(start): Ghost<Seq<(u32, u32)>>,
    Ghost(from): Ghost<int>,
)
    requires
        ds.graph_ok(),
        u < ds.nv(),
        cell@.len() == ds.nv(),
        forest(old(par)@, rep, rank, top),
        forall|v: int| 0 <= v < cell@.len() ==> (#[trigger] cell@[v]) < rep.len(),
        from == (if fwd { 0 } else { side_neighbours(*ds, true, u).len() as int }),
        old(prop)@ == start + ties_of(roots(cell@, rep), c, neighbours(*ds, u).take(from)),
    ensures
        forest(final(par)@, rep, rank, top),
        final(par)@.len() == old(par)@.len(),
        final(prop)@ == start + ties_of(
            roots(cell@, rep),
            c,
            neighbours(*ds, u).take(from + side_neighbours(*ds, fwd, u).len()),
        ),
{
    let ghost nb = neighbours(*ds, u);
    let ghost sn = side_neighbours(*ds, fwd, u);
    let ghost all = roots(cell@, rep);
    let ghost head = edge_head(*ds, fwd);
    let hs: &[u32] = if fwd {
        ds.head
    } else {
        ds.rhead
    };
    assert(head[u + 1] <= head[head.len() - 1]);
    let (a, e): (usize, usize) = (hs[u as usize] as usize, hs[u as usize + 1] as usize);
    let mut k: usize = a;
    while k < e
        invariant
            ds.graph_ok(),
            u < ds.nv(),
            cell@.len() == ds.nv(),
            forest(par@, rep, rank, top),
            par@.len() == old(par)@.len(),
            forall|v: int| 0 <= v < cell@.len() ==> (#[trigger] cell@[v]) < rep.len(),
            nb == neighbours(*ds, u),
            sn == side_neighbours(*ds, fwd, u),
            all == roots(cell@, rep),
            head == edge_head(*ds, fwd),
            from == (if fwd { 0 } else { side_neighbours(*ds, true, u).len() as int }),
            a == head[u as int],
            e == head[u + 1],
            a <= k <= e,
            sn.len() == e - a,
            from + sn.len() <= nb.len(),
            e <= (if fwd { ds.eseg@.len() } else { ds.rseg@.len() }),
            prop@ == start + ties_of(all, c, nb.take(from + (k - a))),
        decreases e - k,
    {
        let v: u32 = if fwd {
            ds.target(u, k)
        } else {
            ds.rtarget(u, k)
        };
        proof {
            assert(v == far_end(*ds, fwd, u, k as int));
            assert(sn[k - a] == v);
            assert(nb[from + (k - a)] == v);
            lemma_ties_push(all, c, nb, from + (k - a));
        }
        let d: u32 = find(par, cell[v as usize], Ghost(rep), Ghost(rank), Ghost(top));
        let ghost was = ties_of(all, c, nb.take(from + (k - a)));
        if d != c {
            prop.push((c, d));
            assert(start + was.push((c, d)) =~= (start + was).push((c, d)));
        }
        k += 1;
    }
}

/// Every tie of a small region.
fn small_ties(
    ds: &Dataset,
    cell: &Vec<u32>,
    par: &mut Vec<u32>,
    size: &Vec<u32>,
    Ghost(rep): Ghost<Seq<u32>>,
    Ghost(rank): Ghost<Seq<nat>>,
    Ghost(top): Ghost<nat>,
) -> (prop: Vec<(u32, u32)>)
    requires
        ds.graph_ok(),
        cell@.len() == ds.nv(),
        counted(cell@, old(par)@, size@, rep, rank, top),
    ensures
        forest(final(par)@, rep, rank, top),
        final(par)@.len() == old(par)@.len(),
        prop@ == ties(*ds, roots(cell@, rep), ds.nv()),
{
    let ghost all = roots(cell@, rep);
    let nv: usize = ds.n_vertices();
    let mut prop: Vec<(u32, u32)> = Vec::new();
    let mut u: usize = 0;
    while u < nv
        invariant
            ds.graph_ok(),
            nv == ds.nv(),
            cell@.len() == nv,
            u <= nv,
            nv < u32::MAX,
            counted(cell@, par@, size@, rep, rank, top),
            par@.len() == old(par)@.len(),
            all == roots(cell@, rep),
            prop@ == ties(*ds, all, u as int),
        decreases nv - u,
    {
        let c: u32 = find(par, cell[u], Ghost(rep), Ghost(rank), Ghost(top));
        assert(c == all[u as int]);
        assert(rep[cell@[u as int] as int] < par@.len()) by {
            assert(par@[cell@[u as int] as int] < par@.len());
        }
        let ghost before = prop@;
        if size[c as usize] as usize <= SMALL {
            let ghost nb = neighbours(*ds, u as u32);
            proof {
                assert(nb.take(0) =~= Seq::empty());
                assert(before + ties_of(all, c, nb.take(0)) =~= before);
            }
            tie_side(
                ds,
                cell,
                par,
                u as u32,
                c,
                true,
                &mut prop,
                Ghost(rep),
                Ghost(rank),
                Ghost(top),
                Ghost(before),
                Ghost(0),
            );
            tie_side(
                ds,
                cell,
                par,
                u as u32,
                c,
                false,
                &mut prop,
                Ghost(rep),
                Ghost(rank),
                Ghost(top),
                Ghost(before),
                Ghost(side_neighbours(*ds, true, u as u32).len() as int),
            );
            assert(nb.take(nb.len() as int) =~= nb);
        } else {
            assert(before + Seq::<(u32, u32)>::empty() =~= before);
        }
        u += 1;
    }
    prop
}

/// The strongest neighbour of every region in a sorted list of ties, each
/// with the size of its region.
fn strongest_ties(prop: &Vec<(u32, u32)>, size: &Vec<u32>) -> (best: Vec<(u32, u32, u32)>)
    requires
        pairs_sorted(prop@),
        forall|i: int| 0 <= i < prop@.len() ==> (#[trigger] prop@[i]).0 < size@.len(),
    ensures
        forall|i: int|
            0 <= i < best@.len() ==> {
                &&& strongest(prop@, (#[trigger] best@[i]).1, best@[i].2)
                &&& best@[i].1 < size@.len()
                &&& best@[i].0 == size@[best@[i].1 as int]
            },
        forall|i: int, j: int|
            0 <= i < j < best@.len() ==> (#[trigger] best@[i]).1 < (#[trigger] best@[j]).1,
        forall|x: (u32, u32)| #[trigger] prop@.contains(x) ==> exists|i: int|
            0 <= i < best@.len() && (#[trigger] best@[i]).1 == x.0,
{
    let mut best: Vec<(u32, u32, u32)> = Vec::new();
    let mut i: usize = 0;
    let n: usize = prop.len();
    while i < n
        invariant
            pairs_sorted(prop@),
            n == prop@.len(),
            forall|i: int| 0 <= i < prop@.len() ==> (#[trigger] prop@[i]).0 < size@.len(),
            i <= n,
            i > 0 && i < n ==> prop@[i - 1].0 < prop@[i as int].0,
            forall|x: int|
                0 <= x < best@.len() ==> {
                    &&& strongest(prop@, (#[trigger] best@[x]).1, best@[x].2)
                    &&& best@[x].1 < size@.len()
                    &&& best@[x].0 == size@[best@[x].1 as int]
                    &&& i > 0
                    &&& best@[x].1 <= prop@[i - 1].0
                },
            forall|x: int, y: int|
                0 <= x < y < best@.len() ==> (#[trigger] best@[x]).1 < (#[trigger] best@[y]).1,
            forall|z: int|
                0 <= z < i ==> exists|x: int|
                    0 <= x < best@.len() && (#[trigger] best@[x]).1 == (#[trigger] prop@[z]).0,
        decreases n - i,
    {
        let c: u32 = prop[i].0;
        let ghost from = i as int;
        let mut bd: u32 = 0;
        let mut bn: usize = 0;
        while i < n && prop[i].0 == c
            invariant
                pairs_sorted(prop@),
                n == prop@.len(),
                from <= i <= n,
                0 <= from < n,
                from > 0 ==> prop@[from - 1].0 < c,
                prop@[from].0 == c,
                forall|z: int| from <= z < i ==> (#[trigger] prop@[z]).0 == c,
                i == from ==> bn == 0,
                i > from ==> bn > 0,
                i > from && i < n && prop@[i as int].0 == c ==> prop@[i - 1].1 < prop@[i as int].1,
                bn > 0 ==> occurs(prop@, (c, bd)) == bn && bd <= prop@[i - 1].1,
                forall|e: u32|
                    (i > from && e <= prop@[i - 1].1) ==> (#[trigger] occurs(prop@, (c, e)) < bn || (
                    occurs(prop@, (c, e)) == bn && bd <= e)),
            decreases n - i,
        {
            let d: u32 = prop[i].1;
            let ghost at = i as int;
            let mut run: usize = 0;
            while i < n && prop[i].0 == c && prop[i].1 == d
                invariant
                    n == prop@.len(),
                    0 <= at <= i <= n,
                    at < n,
                    prop@[at] == (c, d),
                    run == i - at,
                    forall|z: int| at <= z < i ==> #[trigger] prop@[z] == (c, d),
                decreases n - i,
            {
                run += 1;
                i += 1;
            }
            proof {
                assert(i > at);
                assert(prop@[i - 1] == (c, d));
                lemma_run(prop@, (c, d), at, i as int);
                if i < n && prop@[i as int].0 == c {
                    assert(pair_le(prop@[i - 1], prop@[i as int]));
                }
                // Between the last neighbour seen and this one there is none.
                assert forall|e: u32| e < d && (at > from ==> prop@[at - 1].1 < e) implies occurs(
                    prop@,
                    (c, e),
                ) == 0 by {
                    lemma_occurs_pos(prop@, (c, e));
                    if prop@.contains((c, e)) {
                        let z = prop@.index_of((c, e));
                        if z < at {
                            if z >= from {
                                assert(pair_le(prop@[z], prop@[at - 1]));
                            } else {
                                assert(pair_le(prop@[z], prop@[from - 1]));
                            }
                        } else {
                            assert(pair_le(prop@[at], prop@[z]));
                        }
                    }
                }
            }
            if run > bn {
                bn = run;
                bd = d;
            }
        }
        proof {
            assert(prop@[i - 1].0 == c);
            assert forall|e: u32| #[trigger] occurs(prop@, (c, e)) < bn || (occurs(prop@, (c, e)) == bn
                && bd <= e) by {
                if e > prop@[i - 1].1 {
                    lemma_occurs_pos(prop@, (c, e));
                    if prop@.contains((c, e)) {
                        let z = prop@.index_of((c, e));
                        if z < i {
                            assert(pair_le(prop@[z], prop@[i - 1]));
                        } else {
                            assert(pair_le(prop@[i as int], prop@[z]));
                            assert(pair_le(prop@[i - 1], prop@[i as int]));
                        }
                    }
                }
            }
            lemma_occurs_pos(prop@, (c, bd));
            assert(strongest(prop@, c, bd));
            if i < n {
                assert(pair_le(prop@[i - 1], prop@[i as int]));
            }
            if from > 0 {
                assert(pair_le(prop@[from - 1], prop@[i - 1]));
            }
        }
        let ghost b0 = best@;
        best.push((size[c as usize], c, bd));
        proof {
            assert forall|z: int| 0 <= z < i implies exists|x: int|
                0 <= x < best@.len() && (#[trigger] best@[x]).1 == (#[trigger] prop@[z]).0 by {
                if z < from {
                    let x = choose|x: int| 0 <= x < b0.len() && (#[trigger] b0[x]).1 == prop@[z].0;
                    assert(best@[x] == b0[x]);
                } else {
                    assert(best@[b0.len() as int].1 == c);
                }
            }
        }
    }
    best
}

/// In a sorted list, equal pairs stand together.
proof fn lemma_run(s: Seq<(u32, u32)>, x: (u32, u32), a: int, b: int)
    requires
        pairs_sorted(s),
        0 <= a <= b <= s.len(),
        forall|z: int| a <= z < b ==> #[trigger] s[z] == x,
        forall|z: int| 0 <= z < a ==> #[trigger] s[z] != x,
        b < s.len() ==> s[b] != x,
        a < b,
    ensures
        occurs(s, x) == b - a,
{
    assert forall|z: int| b <= z < s.len() implies #[trigger] s[z] != x by {
        assert(pair_le(s[a], s[b]));
        assert(pair_le(s[b], s[z]));
    }
    lemma_run_at(s, x, a, b, s.len() as int);
    assert(s.take(s.len() as int) =~= s);
}

proof fn lemma_run_at(s: Seq<(u32, u32)>, x: (u32, u32), a: int, b: int, n: int)
    requires
        0 <= a <= b <= s.len(),
        0 <= n <= s.len(),
        forall|z: int| 0 <= z < s.len() ==> (#[trigger] s[z] == x <==> a <= z < b),
    ensures
        occurs(s.take(n), x) == (if n <= a {
            0
        } else if n <= b {
            n - a
        } else {
            b - a
        }),
    decreases n,
{
    if n == 0 {
        assert(s.take(0) =~= Seq::empty());
        lemma_occurs(Seq::empty(), x, x);
    } else {
        lemma_run_at(s, x, a, b, n - 1);
        assert(s.take(n) =~= s.take(n - 1).push(s[n - 1]));
        lemma_occurs(s.take(n - 1), s[n - 1], x);
    }
}

proof fn lemma_equal_merge(a: Seq<u32>, b: Seq<u32>, c: u32, d: u32, x: int)
    requires
        a.len() == b.len(),
        c != d,
        forall|v: int|
            0 <= v < a.len() ==> #[trigger] b[v] == (if a[v] == c {
                d
            } else {
                a[v]
            }),
    ensures
        equal(b, x) == (if x == d {
            equal(a, c as int) + equal(a, d as int)
        } else if x == c {
            0
        } else {
            equal(a, x)
        }),
    decreases a.len(),
{
    if a.len() > 0 {
        let (p, q) = (a.drop_last(), b.drop_last());
        assert forall|v: int| 0 <= v < p.len() implies #[trigger] q[v] == (if p[v] == c {
            d
        } else {
            p[v]
        }) by {
            assert(b[v] == q[v]);
        }
        lemma_equal_merge(p, q, c, d, x);
        assert(b[b.len() - 1] == b.last());
    }
}

pub proof fn lemma_equal_room(a: Seq<u32>, c: int, d: int)
    requires
        c != d,
    ensures
        equal(a, c) + equal(a, d) <= a.len(),
    decreases a.len(),
{
    if a.len() > 0 {
        lemma_equal_room(a.drop_last(), c, d);
    }
}

/// Carries a plan out.
fn attach_all(
    cell: &Vec<u32>,
    par: &mut Vec<u32>,
    size: &mut Vec<u32>,
    best: &Vec<(u32, u32, u32)>,
    cap: u32,
    Ghost(rep0): Ghost<Seq<u32>>,
    Ghost(rank0): Ghost<Seq<nat>>,
    Ghost(top0): Ghost<nat>,
    Ghost(plan): Ghost<Seq<(u32, u32)>>,
) -> (r: (bool, Ghost<Seq<u32>>, Ghost<Seq<nat>>, Ghost<nat>))
    requires
        counted(cell@, old(par)@, old(size)@, rep0, rank0, top0),
        cell@.len() <= u32::MAX,
        plan.len() == best@.len(),
        forall|i: int|
            0 <= i < best@.len() ==> {
                &&& #[trigger] plan[i] == (best@[i].1, best@[i].2)
                &&& best@[i].1 < rep0.len()
                &&& best@[i].2 < rep0.len()
            },
    ensures
        counted(cell@, final(par)@, final(size)@, r.1@, r.2@, r.3@),
        r.1@ == attach(cell@, rep0, plan, plan.len() as int, cap as int),
        r.0 == (r.1@ != rep0),
        final(par)@.len() == old(par)@.len(),
{
    let ghost mut rep = rep0;
    let ghost mut rank = rank0;
    let ghost mut top = top0;
    let mut any: bool = false;
    let mut i: usize = 0;
    while i < best.len()
        invariant
            counted(cell@, par@, size@, rep, rank, top),
            cell@.len() <= u32::MAX,
            plan.len() == best@.len(),
            par@.len() == old(par)@.len(),
            rep.len() == rep0.len(),
            forall|i: int|
                0 <= i < best@.len() ==> {
                    &&& #[trigger] plan[i] == (best@[i].1, best@[i].2)
                    &&& best@[i].1 < rep0.len()
                    &&& best@[i].2 < rep0.len()
                },
            i <= best@.len(),
            rep == attach(cell@, rep0, plan, i as int, cap as int),
            any == (rep != rep0),
            any ==> exists|x: int| 0 <= x < rep0.len() && #[trigger] rep0[x] == x && rep[x] != x,
            forall|x: int| 0 <= x < rep0.len() && rep0[x] != x ==> #[trigger] rep[x] != x,
        decreases best@.len() - i,
    {
        let (_, c, d): (u32, u32, u32) = best[i];
        assert(plan[i as int] == (c, d));
        let rc: u32 = find(par, c, Ghost(rep), Ghost(rank), Ghost(top));
        let rd: u32 = find(par, d, Ghost(rep), Ghost(rank), Ghost(top));
        let ghost all = roots(cell@, rep);
        proof {
            assert(par@[c as int] < par@.len());
            assert(par@[d as int] < par@.len());
            if rc != rd {
                lemma_equal_room(all, rc as int, rd as int);
            }
        }
        assert(rc < size@.len() && rd < size@.len());
        assert(rc != rd ==> size@[rc as int] + size@[rd as int] <= u32::MAX);
        if rc != rd && size[rc as usize] + size[rd as usize] <= cap {
            let ghost par0 = par@;
            let ghost size0 = size@;
            let ghost rep1 = merged(rep, rc, rd);
            let ghost rank1 = Seq::new(
                rank.len(),
                |x: int|
                    if rep[x] == rd {
                        rank[x] + top
                    } else {
                        rank[x]
                    },
            );
            proof {
                lemma_roots_are(par@, rep, rank, top, c as int);
                lemma_roots_are(par@, rep, rank, top, d as int);
            }
            // Attach the fragment to the neighbour, not the other way round.
            par[rc as usize] = rd;
            let sum: u32 = size[rd as usize] + size[rc as usize];
            size[rd as usize] = sum;
            size[rc as usize] = 0;
            proof {
                assert forall|x: int| 0 <= x < par@.len() implies {
                    &&& (#[trigger] par@[x]) < par@.len()
                    &&& rep1[x] < par@.len()
                    &&& rep1[par@[x] as int] == rep1[x]
                    &&& par@[x] == x <==> rep1[x] == x
                    &&& par@[x] != x ==> rank1[par@[x] as int] > rank1[x]
                    &&& rank1[x] < 2 * top
                } by {
                    assert(par0[x] < par0.len());
                }
                let all1 = roots(cell@, rep1);
                assert forall|x: int| 0 <= x < size@.len() implies #[trigger] size@[x] == equal(
                    all1,
                    x,
                ) by {
                    assert forall|v: int| 0 <= v < all.len() implies #[trigger] all1[v] == (if all[v]
                        == rc {
                        rd
                    } else {
                        all[v]
                    }) by {
                        assert(cell@[v] < par@.len());
                    }
                    lemma_equal_merge(all, all1, rc, rd, x);
                    assert(size0[x] == equal(all, x));
                }
                assert(rep1[rc as int] != rc);
                if rep0[rc as int] == rc {
                    assert(rep0[rc as int] == rc && rep1[rc as int] != rc);
                } else {
                    assert(rep[rc as int] != rc);
                }
                assert forall|x: int| 0 <= x < rep0.len() && rep0[x] != x implies #[trigger] rep1[x]
                    != x by {
                    assert(rep[x] != x);
                    if rep1[x] == x {
                        assert(x == rd);
                    }
                }
                rep = rep1;
                rank = rank1;
                top = 2 * top;
            }
            any = true;
        }
        i += 1;
    }
    (any, Ghost(rep), Ghost(rank), Ghost(top))
}

/// A representative represents itself.
proof fn lemma_roots_are(par: Seq<u32>, rep: Seq<u32>, rank: Seq<nat>, top: nat, x: int)
    requires
        forest(par, rep, rank, top),
        0 <= x < par.len(),
    ensures
        rep[rep[x] as int] == rep[x],
        rep[x] < par.len(),
        par[rep[x] as int] == rep[x],
    decreases top - rank[x],
{
    assert(par[x] < par.len());
    if par[x] != x {
        assert(par[par[x] as int] < par.len());
        lemma_roots_are(par, rep, rank, top, par[x] as int);
    }
    assert(par[rep[x] as int] < par.len());
}

/// Absorb stranded fragments into the region they hang off, and number the
/// regions anew without gaps.
///
/// Whole regions are merged rather than individual vertices, which keeps every
/// region connected.
pub fn absorb_strays(ds: &Dataset, cell: &mut Vec<u32>, ncells: usize, target: usize) -> (next: usize)
    requires
        ds.graph_ok(),
        old(cell)@.len() == ds.nv(),
        ncells <= ds.nv(),
        forall|v: int| 0 <= v < old(cell)@.len() ==> (#[trigger] old(cell)@[v]) < ncells,
        target <= 0x7FFF_FFFF,
    ensures
        exists|end: Seq<u32>|
            {
                &&& #[trigger] absorbed(
                    *ds,
                    old(cell)@,
                    apart(ncells as int),
                    target * SLACK,
                    4,
                    end,
                )
                &&& renumbered(roots(old(cell)@, end), final(cell)@)
                &&& next == opened(roots(old(cell)@, end), ds.nv())
            },
        forall|v: int| 0 <= v < final(cell)@.len() ==> (#[trigger] final(cell)@[v]) < next,
        final(cell)@.len() == ds.nv(),
        next <= ds.nv(),
{
    let ghost cell0 = cell@;
    let ghost rep0 = apart(ncells as int);
    let nv: usize = ds.n_vertices();
    let mut size: Vec<u32> = vec![0u32; ncells];
    let mut v: usize = 0;
    assert(cell@.take(0) =~= Seq::empty());
    while v < nv
        invariant
            nv == ds.nv(),
            nv < u32::MAX,
            cell@ == cell0,
            cell0.len() == nv,
            v <= nv,
            size@.len() == ncells,
            forall|v: int| 0 <= v < cell0.len() ==> (#[trigger] cell0[v]) < ncells,
            forall|c: int| 0 <= c < ncells ==> #[trigger] size@[c] == equal(cell0.take(v as int), c),
            forall|c: int| 0 <= c < ncells ==> #[trigger] size@[c] <= v,
        decreases nv - v,
    {
        let c: u32 = cell[v];
        assert(size@[c as int] <= v);
        let ghost s0 = size@;
        size[c as usize] = size[c as usize] + 1;
        proof {
            assert forall|x: int| 0 <= x < ncells implies #[trigger] size@[x] == equal(
                cell0.take(v + 1),
                x,
            ) && size@[x] <= v + 1 by {
                lemma_equal_take(cell0, v as int, x);
                assert(s0[x] == equal(cell0.take(v as int), x) && s0[x] <= v);
            }
        }
        v += 1;
    }
    let mut par: Vec<u32> = Vec::new();
    let mut c: usize = 0;
    while c < ncells
        invariant
            c <= ncells,
            ncells < u32::MAX,
            par@.len() == c,
            forall|x: int| 0 <= x < c ==> #[trigger] par@[x] == x,
        decreases ncells - c,
    {
        par.push(c as u32);
        c += 1;
    }
    let ghost mut rep = rep0;
    let ghost mut rank: Seq<nat> = Seq::new(ncells as nat, |x: int| 0nat);
    let ghost mut top: nat = 1;
    proof {
        assert(cell0.take(cell0.len() as int) =~= cell0);
        assert(roots(cell0, rep0) =~= cell0);
        assert(counted(cell0, par@, size@, rep, rank, top));
    }
    let cap: u32 = (target * SLACK) as u32;
    let mut left: usize = 4;
    let mut going: bool = true;
    while going && left > 0
        invariant
            ds.graph_ok(),
            nv == ds.nv(),
            nv < u32::MAX,
            cell@ == cell0,
            cell0.len() == nv,
            par@.len() == ncells,
            cap == target * SLACK,
            counted(cell0, par@, size@, rep, rank, top),
            left <= 4,
            going ==> forall|end: Seq<u32>|
                #[trigger] absorbed(*ds, cell0, rep, cap as int, left as nat, end) ==> absorbed(
                    *ds,
                    cell0,
                    rep0,
                    cap as int,
                    4,
                    end,
                ),
            !going ==> absorbed(*ds, cell0, rep0, cap as int, 4, rep),
        decreases left, going as int,
    {
        let (any, Ghost(rep1), Ghost(rank1), Ghost(top1)): (
            bool,
            Ghost<Seq<u32>>,
            Ghost<Seq<nat>>,
            Ghost<nat>,
        ) = absorb_round(
            ds,
            cell,
            &mut par,
            &mut size,
            cap,
            Ghost(rep),
            Ghost(rank),
            Ghost(top),
        );
        proof {
            if any {
                assert forall|end: Seq<u32>|
                    #[trigger] absorbed(
                        *ds,
                        cell0,
                        rep1,
                        cap as int,
                        (left - 1) as nat,
                        end,
                    ) implies absorbed(*ds, cell0, rep0, cap as int, 4, end) by {
                    let k = (left - 1) as nat;
                    assert(absorbed(*ds, cell0, rep, cap as int, k + 1, end));
                }
            } else {
                assert(absorbed(*ds, cell0, rep, cap as int, left as nat, rep));
            }
            rep = rep1;
            rank = rank1;
            top = top1;
        }
        if any {
            left -= 1;
        } else {
            going = false;
        }
    }
    proof {
        if going {
            assert(absorbed(*ds, cell0, rep, cap as int, 0, rep));
        }
    }
    renumber(cell, &mut par, ncells, Ghost(rep), Ghost(rank), Ghost(top))
}

proof fn lemma_roots_in(cell: Seq<u32>, par: Seq<u32>, rep: Seq<u32>, rank: Seq<nat>, top: nat)
    requires
        forest(par, rep, rank, top),
        forall|v: int| 0 <= v < cell.len() ==> (#[trigger] cell[v]) < par.len(),
    ensures
        forall|v: int| 0 <= v < cell.len() ==> (#[trigger] roots(cell, rep)[v]) < par.len(),
{
    assert forall|v: int| 0 <= v < cell.len() implies (#[trigger] roots(cell, rep)[v])
        < par.len() by {
        assert(cell[v] < par.len());
        assert(par[cell[v] as int] < par.len());
    }
}

/// One round of absorbing; `false` when it changed nothing.
#[verifier::rlimit(40)]
fn absorb_round(
    ds: &Dataset,
    cell: &Vec<u32>,
    par: &mut Vec<u32>,
    size: &mut Vec<u32>,
    cap: u32,
    Ghost(rep): Ghost<Seq<u32>>,
    Ghost(rank): Ghost<Seq<nat>>,
    Ghost(top): Ghost<nat>,
) -> (r: (bool, Ghost<Seq<u32>>, Ghost<Seq<nat>>, Ghost<nat>))
    requires
        ds.graph_ok(),
        cell@.len() == ds.nv(),
        counted(cell@, old(par)@, old(size)@, rep, rank, top),
    ensures
        counted(cell@, final(par)@, final(size)@, r.1@, r.2@, r.3@),
        final(par)@.len() == old(par)@.len(),
        !r.0 ==> r.1@ == rep && forall|k: nat|
            k > 0 ==> #[trigger] absorbed(*ds, cell@, rep, cap as int, k, rep),
        r.0 ==> forall|k: nat, end: Seq<u32>|
            #[trigger] absorbed(*ds, cell@, r.1@, cap as int, k, end) ==> absorbed(
                *ds,
                cell@,
                rep,
                cap as int,
                k + 1,
                end,
            ),
{
    let ghost all = roots(cell@, rep);
    let ghost nv = ds.nv();
    let ghost ncells = par@.len() as int;
    let ghost t = ties(*ds, all, nv);
    proof {
        lemma_roots_in(cell@, par@, rep, rank, top);
    }
    let mut prop: Vec<(u32, u32)> = small_ties(
        ds,
        cell,
        par,
        size,
        Ghost(rep),
        Ghost(rank),
        Ghost(top),
    );
    if prop.len() == 0 {
        return (false, Ghost(rep), Ghost(rank), Ghost(top));
    }
    sort_pairs(&mut prop);
    proof {
        lemma_same_items(prop@, t);
        lemma_ties_in(*ds, all, nv, ncells);
        assert forall|i: int| 0 <= i < prop@.len() implies (#[trigger] prop@[i]).0 < ncells
            && prop@[i].1 < ncells by {
            assert(prop@.contains(prop@[i]));
            assert(t.contains(prop@[i]));
        }
    }
    let mut best: Vec<(u32, u32, u32)> = strongest_ties(&prop, size);
    let ghost b0 = best@;
    sort_by_first(&mut best);
    let ghost plan = Seq::new(best@.len(), |i: int| (best@[i].1, best@[i].2));
    proof {
        lemma_same_items(best@, b0);
        lemma_plan(t, prop@, all, size@, b0, best@, plan);
        assert forall|i: int| 0 <= i < best@.len() implies {
            &&& #[trigger] plan[i] == (best@[i].1, best@[i].2)
            &&& best@[i].1 < rep.len()
            &&& best@[i].2 < rep.len()
        } by {
            assert(best@.contains(best@[i]));
            let j = b0.index_of(best@[i]);
            assert(strongest(prop@, b0[j].1, b0[j].2));
            let z = prop@.index_of((b0[j].1, b0[j].2));
            assert(prop@[z].1 < ncells);
        }
    }
    let (any, Ghost(rep1), Ghost(rank1), Ghost(top1)): (
        bool,
        Ghost<Seq<u32>>,
        Ghost<Seq<nat>>,
        Ghost<nat>,
    ) = attach_all(
        cell,
        par,
        size,
        &best,
        cap,
        Ghost(rep),
        Ghost(rank),
        Ghost(top),
        Ghost(plan),
    );
    proof {
        assert(t.len() != 0);
        assert(is_plan(t, all, plan));
        assert forall|k: nat, end: Seq<u32>|
            rep1 != rep && #[trigger] absorbed(
                *ds,
                cell@,
                rep1,
                cap as int,
                k,
                end,
            ) implies absorbed(*ds, cell@, rep, cap as int, k + 1, end) by {
            assert(is_plan(t, all, plan));
        }
        assert forall|k: nat| k > 0 && rep1 == rep implies #[trigger] absorbed(
            *ds,
            cell@,
            rep,
            cap as int,
            k,
            rep,
        ) by {
            assert(is_plan(t, all, plan));
        }
    }
    (any, Ghost(rep1), Ghost(rank1), Ghost(top1))
}

/// Ties are between regions.
proof fn lemma_ties_in(ds: Dataset, all: Seq<u32>, n: int, ncells: int)
    requires
        ds.graph_ok(),
        all.len() == ds.nv(),
        0 <= n <= all.len(),
        forall|v: int| 0 <= v < all.len() ==> (#[trigger] all[v]) < ncells,
    ensures
        forall|x: (u32, u32)|
            #[trigger] ties(ds, all, n).contains(x) ==> x.0 < ncells && x.1 < ncells,
    decreases n,
{
    if n > 0 {
        lemma_ties_in(ds, all, n - 1, ncells);
        let u = (n - 1) as u32;
        let c = all[n - 1];
        lemma_neighbours(ds, u);
        let nb = neighbours(ds, u);
        lemma_ties_of_in(all, c, nb, ncells);
        let a = ties(ds, all, n - 1);
        let b = ties_of(all, c, nb);
        let t = ties(ds, all, n);
        assert forall|x: (u32, u32)| #[trigger] t.contains(x) implies x.0 < ncells && x.1
            < ncells by {
            let i = t.index_of(x);
            if i < a.len() {
                assert(a.contains(a[i]));
            } else {
                assert(b.contains(b[i - a.len()]));
            }
        }
    }
}

proof fn lemma_ties_of_in(all: Seq<u32>, c: u32, list: Seq<u32>, ncells: int)
    requires
        forall|v: int| 0 <= v < all.len() ==> (#[trigger] all[v]) < ncells,
        forall|i: int| 0 <= i < list.len() ==> (#[trigger] list[i]) < all.len(),
        c < ncells,
    ensures
        forall|x: (u32, u32)|
            #[trigger] ties_of(all, c, list).contains(x) ==> x.0 < ncells && x.1 < ncells,
    decreases list.len(),
{
    if list.len() > 0 {
        let rest = list.drop_last();
        assert forall|i: int| 0 <= i < rest.len() implies (#[trigger] rest[i]) < all.len() by {
            assert(rest[i] == list[i]);
        }
        lemma_ties_of_in(all, c, rest, ncells);
        let a = ties_of(all, c, rest);
        let t = ties_of(all, c, list);
        assert(list[list.len() - 1] < all.len());
        assert forall|x: (u32, u32)| #[trigger] t.contains(x) implies x.0 < ncells && x.1
            < ncells by {
            let i = t.index_of(x);
            if i < a.len() {
                assert(a.contains(a[i]));
            }
        }
    }
}

proof fn lemma_plan(
    t: Seq<(u32, u32)>,
    prop: Seq<(u32, u32)>,
    all: Seq<u32>,
    size: Seq<u32>,
    b0: Seq<(u32, u32, u32)>,
    best: Seq<(u32, u32, u32)>,
    plan: Seq<(u32, u32)>,
)
    requires
        t.to_multiset() == prop.to_multiset(),
        b0.to_multiset() == best.to_multiset(),
        crate::sorting::firsts_sorted(best),
        forall|c: int| 0 <= c < size.len() ==> #[trigger] size[c] == equal(all, c),
        plan.len() == best.len(),
        forall|i: int| 0 <= i < best.len() ==> #[trigger] plan[i] == (best[i].1, best[i].2),
        forall|i: int|
            0 <= i < b0.len() ==> {
                &&& strongest(prop, (#[trigger] b0[i]).1, b0[i].2)
                &&& b0[i].1 < size.len()
                &&& b0[i].0 == size[b0[i].1 as int]
            },
        forall|i: int, j: int|
            0 <= i < j < b0.len() ==> (#[trigger] b0[i]).1 < (#[trigger] b0[j]).1,
        forall|x: (u32, u32)| #[trigger] prop.contains(x) ==> exists|i: int|
            0 <= i < b0.len() && (#[trigger] b0[i]).1 == x.0,
    ensures
        is_plan(t, all, plan),
{
    lemma_same_items(t, prop);
    lemma_same_items(best, b0);
    assert forall|i: int| 0 <= i < best.len() implies {
        &&& strongest(prop, (#[trigger] best[i]).1, best[i].2)
        &&& best[i].1 < size.len()
        &&& best[i].0 == size[best[i].1 as int]
    } by {
        assert(best.contains(best[i]));
        let j = b0.index_of(best[i]);
        assert(b0[j] == best[i]);
    }
    assert forall|i: int| 0 <= i < plan.len() implies strongest(
        t,
        (#[trigger] plan[i]).0,
        plan[i].1,
    ) by {
        assert(strongest(prop, best[i].1, best[i].2));
        let (c, d) = plan[i];
        assert forall|e: u32| #[trigger] occurs(t, (c, e)) < occurs(t, (c, d)) || (occurs(t, (c, e))
            == occurs(t, (c, d)) && d <= e) by {
            assert(occurs(prop, (c, e)) == occurs(t, (c, e)));
        }
    }
    // No region twice: the triples are all different, and so are their regions.
    assert forall|i: int, j: int| 0 <= i < j < plan.len() implies (#[trigger] plan[i]).0 != (
    #[trigger] plan[j]).0 by {
        if plan[i].0 == plan[j].0 {
            assert(best.contains(best[i]) && best.contains(best[j]));
            let (x, y) = (b0.index_of(best[i]), b0.index_of(best[j]));
            if x != y {
                if x < y {
                    assert(b0[x].1 < b0[y].1);
                } else {
                    assert(b0[y].1 < b0[x].1);
                }
            }
            assert(best[i] == best[j]);
            lemma_twice(best, i, j);
            lemma_once(b0, x);
            assert(occurs(b0, b0[x]) == occurs(best, best[i]));
        }
    }
    assert forall|i: int, j: int| 0 <= i <= j < plan.len() implies equal(
        all,
        (#[trigger] plan[i]).0 as int,
    ) <= equal(all, (#[trigger] plan[j]).0 as int) by {
        assert(best[i].0 <= best[j].0);
        assert(size[best[i].1 as int] == equal(all, best[i].1 as int));
        assert(size[best[j].1 as int] == equal(all, best[j].1 as int));
    }
    assert forall|x: (u32, u32)| #[trigger] t.contains(x) implies planned(plan, x.0) by {
        assert(prop.contains(x));
        let i = choose|i: int| 0 <= i < b0.len() && (#[trigger] b0[i]).1 == x.0;
        assert(b0.contains(b0[i]));
        assert(best.contains(b0[i]));
        let j = best.index_of(b0[i]);
        assert(plan[j].0 == x.0);
    }
}

/// What stands in two places occurs twice.
proof fn lemma_twice<T>(s: Seq<T>, i: int, j: int)
    requires
        0 <= i < j < s.len(),
        s[i] == s[j],
    ensures
        occurs(s, s[i]) >= 2,
    decreases s.len(),
{
    let d = s.drop_last();
    let x = s[i];
    assert(s =~= d.push(s.last()));
    lemma_occurs(d, s.last(), x);
    if j == s.len() - 1 {
        assert(d[i] == x);
        assert(d.contains(x));
        lemma_occurs_pos(d, x);
    } else {
        assert(d[i] == x && d[j] == x);
        lemma_twice(d, i, j);
    }
}

/// What stands in one place only occurs once.
proof fn lemma_once(s: Seq<(u32, u32, u32)>, i: int)
    requires
        0 <= i < s.len(),
        forall|x: int, y: int|
            0 <= x < y < s.len() ==> (#[trigger] s[x]).1 < (#[trigger] s[y]).1,
    ensures
        occurs(s, s[i]) == 1,
    decreases s.len(),
{
    let d = s.drop_last();
    let x = s[i];
    assert(s =~= d.push(s.last()));
    lemma_occurs(d, s.last(), x);
    if i == s.len() - 1 {
        lemma_occurs_pos(d, x);
        if d.contains(x) {
            let j = d.index_of(x);
            assert(s[j].1 < s[i].1);
        }
    } else {
        assert(d[i] == x);
        assert forall|a: int, b: int| 0 <= a < b < d.len() implies (#[trigger] d[a]).1 < (
        #[trigger] d[b]).1 by {
            assert(s[a].1 < s[b].1);
        }
        lemma_once(d, i);
        assert(s[i].1 < s[s.len() - 1].1);
    }
}

/// Numbers the regions anew in the order in which they first occur.
fn renumber(
    cell: &mut Vec<u32>,
    par: &mut Vec<u32>,
    ncells: usize,
    Ghost(rep): Ghost<Seq<u32>>,
    Ghost(rank): Ghost<Seq<nat>>,
    Ghost(top): Ghost<nat>,
) -> (next: usize)
    requires
        forest(old(par)@, rep, rank, top),
        old(par)@.len() == ncells,
        old(cell)@.len() < u32::MAX,
        forall|v: int| 0 <= v < old(cell)@.len() ==> (#[trigger] old(cell)@[v]) < ncells,
    ensures
        renumbered(roots(old(cell)@, rep), final(cell)@),
        next == opened(roots(old(cell)@, rep), old(cell)@.len() as int),
        forall|v: int| 0 <= v < final(cell)@.len() ==> (#[trigger] final(cell)@[v]) < next,
        next <= old(cell)@.len(),
{
    let ghost cell0 = cell@;
    let ghost all = roots(cell0, rep);
    proof {
        lemma_roots_in(cell0, par@, rep, rank, top);
    }
    let mut remap: Vec<u32> = vec![0xFFFF_FFFFu32; ncells];
    let mut next: u32 = 0;
    let n: usize = cell.len();
    let mut v: usize = 0;
    while v < n
        invariant
            forest(par@, rep, rank, top),
            par@.len() == ncells,
            remap@.len() == ncells,
            n == cell0.len(),
            n < u32::MAX,
            cell@.len() == n,
            v <= n,
            all == roots(cell0, rep),
            forall|u: int| 0 <= u < n ==> (#[trigger] all[u]) < ncells,
            forall|v: int| 0 <= v < cell0.len() ==> (#[trigger] cell0[v]) < ncells,
            forall|u: int| v <= u < n ==> #[trigger] cell@[u] == cell0[u],
            next == opened(all, v as int),
            next <= v,
            forall|r: int|
                0 <= r < ncells ==> (#[trigger] remap@[r] == 0xFFFF_FFFF <==> forall|u: int|
                    0 <= u < v ==> all[u] != r),
            forall|r: int| 0 <= r < ncells && #[trigger] remap@[r] != 0xFFFF_FFFF ==> remap@[r] < next,
            forall|u: int| 0 <= u < v ==> #[trigger] cell@[u] == remap@[all[u] as int],
            forall|u: int| 0 <= u < v && opens(all, u) ==> #[trigger] cell@[u] == opened(all, u),
            forall|u: int| 0 <= u < v ==> (#[trigger] cell@[u]) < next,
        decreases n - v,
    {
        let r: u32 = find(par, cell[v], Ghost(rep), Ghost(rank), Ghost(top));
        assert(r == all[v as int]);
        assert(par@[cell0[v as int] as int] < par@.len());
        let ghost remap0 = remap@;
        let ghost c0 = cell@;
        assert(remap0[r as int] == 0xFFFF_FFFF <==> opens(all, v as int)) by {
            if remap0[r as int] == 0xFFFF_FFFF {
                assert(forall|u: int| 0 <= u < v ==> all[u] != r);
            }
            if opens(all, v as int) {
                assert(forall|u: int| 0 <= u < v ==> all[u] != r);
            }
        }
        if remap[r as usize] == 0xFFFF_FFFF {
            remap[r as usize] = next;
            next += 1;
        }
        cell[v] = remap[r as usize];
        proof {
            assert forall|x: int| 0 <= x < ncells implies (#[trigger] remap@[x] == 0xFFFF_FFFF
                <==> forall|u: int| 0 <= u < v + 1 ==> all[u] != x) by {
                assert(remap0[x] == 0xFFFF_FFFF <==> forall|u: int| 0 <= u < v ==> all[u] != x);
                if x == r {
                    assert(all[v as int] == x);
                } else if remap0[x] == 0xFFFF_FFFF {
                    assert forall|u: int| 0 <= u < v + 1 implies all[u] != x by {}
                }
            }
            assert forall|u: int| 0 <= u < v + 1 implies #[trigger] cell@[u] == remap@[all[u] as int] by {
                if u < v {
                    assert(c0[u] == remap0[all[u] as int]);
                    assert(c0[u] < 0xFFFF_FFFF);
                }
            }
        }
        v += 1;
    }
    next as usize
}

// -------------------------------------------------------------------- laws

/// Any two vertices of region `c` are linked inside it.
pub open spec fn whole(ds: Dataset, all: Seq<u32>, c: int) -> bool {
    forall|u: int, v: int|
        #[trigger] members_of(all, c).contains(u) && #[trigger] members_of(all, c).contains(v)
            ==> joined(ds, members_of(all, c), u, v)
}

pub open spec fn joined(ds: Dataset, x: Set<int>, u: int, v: int) -> bool {
    exists|n: nat| linked(ds, x, u, v, n)
}

proof fn lemma_joined_more(ds: Dataset, x: Set<int>, y: Set<int>, u: int, v: int)
    requires
        joined(ds, x, u, v),
        x.subset_of(y),
    ensures
        joined(ds, y, u, v),
{
    let n = choose|n: nat| linked(ds, x, u, v, n);
    lemma_linked_wider(ds, x, y, u, v, n);
}

proof fn lemma_linked_wider(ds: Dataset, x: Set<int>, y: Set<int>, u: int, v: int, n: nat)
    requires
        linked(ds, x, u, v, n),
        x.subset_of(y),
    ensures
        linked(ds, y, u, v, n),
    decreases n,
{
    if n > 0 {
        let w = choose|w: int|
            #[trigger] adjacent(ds, w, v) && linked(ds, x, u, w, (n - 1) as nat);
        lemma_linked_wider(ds, x, y, u, w, (n - 1) as nat);
        assert(adjacent(ds, w, v));
    }
}

proof fn lemma_joined_step(ds: Dataset, x: Set<int>, u: int, v: int, w: int)
    requires
        joined(ds, x, u, v),
        adjacent(ds, v, w),
        x.contains(w),
    ensures
        joined(ds, x, u, w),
{
    let n = choose|n: nat| linked(ds, x, u, v, n);
    assert(linked(ds, x, u, w, n + 1)) by {
        assert(adjacent(ds, v, w));
    }
}

proof fn lemma_joined_trans(ds: Dataset, x: Set<int>, u: int, v: int, w: int, n: nat)
    requires
        joined(ds, x, u, v),
        linked(ds, x, v, w, n),
    ensures
        joined(ds, x, u, w),
    decreases n,
{
    if n > 0 {
        let y = choose|y: int|
            #[trigger] adjacent(ds, y, w) && linked(ds, x, v, y, (n - 1) as nat);
        lemma_joined_trans(ds, x, u, v, y, (n - 1) as nat);
        lemma_joined_step(ds, x, u, y, w);
    }
}

/// Two whole regions that touch make one.
proof fn lemma_union_whole(
    ds: Dataset,
    a: Set<int>,
    b: Set<int>,
    y: Set<int>,
    p: int,
    q: int,
)
    requires
        forall|u: int, v: int|
            #[trigger] a.contains(u) && #[trigger] a.contains(v) ==> joined(ds, a, u, v),
        forall|u: int, v: int|
            #[trigger] b.contains(u) && #[trigger] b.contains(v) ==> joined(ds, b, u, v),
        y == a.union(b),
        a.contains(p),
        b.contains(q),
        adjacent(ds, p, q),
    ensures
        forall|u: int, v: int|
            #[trigger] y.contains(u) && #[trigger] y.contains(v) ==> joined(ds, y, u, v),
{
    assert(adjacent(ds, q, p));
    assert forall|u: int, v: int| #[trigger] y.contains(u) && #[trigger] y.contains(
        v,
    ) implies joined(ds, y, u, v) by {
        if a.contains(u) && a.contains(v) {
            lemma_joined_more(ds, a, y, u, v);
        } else if b.contains(u) && b.contains(v) {
            lemma_joined_more(ds, b, y, u, v);
        } else if a.contains(u) {
            lemma_joined_more(ds, a, y, u, p);
            lemma_joined_step(ds, y, u, p, q);
            assert(joined(ds, b, q, v));
            lemma_joined_more(ds, b, y, q, v);
            let n = choose|n: nat| linked(ds, y, q, v, n);
            lemma_joined_trans(ds, y, u, q, v, n);
        } else {
            lemma_joined_more(ds, b, y, u, q);
            lemma_joined_step(ds, y, u, q, p);
            assert(joined(ds, a, p, v));
            lemma_joined_more(ds, a, y, p, v);
            let n = choose|n: nat| linked(ds, y, p, v, n);
            lemma_joined_trans(ds, y, u, p, v, n);
        }
    }
}

/// A tie is an edge between the two regions.
proof fn lemma_tie_edge(ds: Dataset, all: Seq<u32>, n: int, x: (u32, u32)) -> (r: (int, int))
    requires
        ds.graph_ok(),
        all.len() == ds.nv(),
        0 <= n <= all.len(),
        ties(ds, all, n).contains(x),
    ensures
        0 <= r.0 < all.len(),
        0 <= r.1 < all.len(),
        adjacent(ds, r.0, r.1),
        all[r.0] == x.0,
        all[r.1] == x.1,
        x.0 != x.1,
    decreases n,
{
    let a = ties(ds, all, n - 1);
    let u = (n - 1) as u32;
    let t = ties(ds, all, n);
    let i = t.index_of(x);
    if i < a.len() {
        assert(a.contains(a[i]));
        lemma_tie_edge(ds, all, n - 1, x)
    } else {
        let nb = neighbours(ds, u);
        let b = ties_of(all, all[n - 1], nb);
        assert(b.contains(b[i - a.len()]));
        lemma_neighbours(ds, u);
        let k = lemma_tie_of(all, all[n - 1], nb, x);
        assert(nb.contains(nb[k]));
        (n - 1, nb[k] as int)
    }
}

proof fn lemma_tie_of(all: Seq<u32>, c: u32, list: Seq<u32>, x: (u32, u32)) -> (k: int)
    requires
        ties_of(all, c, list).contains(x),
    ensures
        0 <= k < list.len(),
        x.0 == c,
        all[list[k] as int] == x.1,
        x.1 != c,
    decreases list.len(),
{
    let rest = list.drop_last();
    let a = ties_of(all, c, rest);
    let t = ties_of(all, c, list);
    let i = t.index_of(x);
    if i < a.len() {
        assert(a.contains(a[i]));
        let k = lemma_tie_of(all, c, rest, x);
        assert(rest[k] == list[k]);
        k
    } else {
        list.len() - 1
    }
}

/// The merges of one round, seen from where it began.
spec fn coarser(rep: Seq<u32>, r: Seq<u32>) -> bool {
    &&& r.len() == rep.len()
    &&& forall|x: int|
        0 <= x < rep.len() ==> (#[trigger] rep[x]) < rep.len() && r[rep[x] as int] == r[x] && r[x]
            < rep.len()
    &&& forall|x: int| 0 <= x < rep.len() ==> r[(#[trigger] r[x]) as int] == r[x]
}

proof fn lemma_attach_whole(
    ds: Dataset,
    cell: Seq<u32>,
    rep: Seq<u32>,
    plan: Seq<(u32, u32)>,
    n: int,
    cap: int,
    most: int,
)
    requires
        ds.graph_ok(),
        cell.len() == ds.nv(),
        coarser(rep, rep),
        forall|v: int| 0 <= v < cell.len() ==> (#[trigger] cell[v]) < rep.len(),
        forall|c: int| #[trigger] whole(ds, roots(cell, rep), c),
        forall|c: int| #[trigger] equal(roots(cell, rep), c) <= most,
        cap <= most,
        is_plan(ties(ds, roots(cell, rep), ds.nv()), roots(cell, rep), plan),
        0 <= n <= plan.len(),
    ensures
        coarser(rep, attach(cell, rep, plan, n, cap)),
        forall|c: int| #[trigger] whole(ds, roots(cell, attach(cell, rep, plan, n, cap)), c),
        forall|c: int|
            #[trigger] equal(roots(cell, attach(cell, rep, plan, n, cap)), c) <= most,
    decreases n,
{
    if n > 0 {
        lemma_attach_whole(ds, cell, rep, plan, n - 1, cap, most);
        let r = attach(cell, rep, plan, n - 1, cap);
        let t = ties(ds, roots(cell, rep), ds.nv());
        let x = plan[n - 1];
        assert(strongest(t, x.0, x.1));
        let (p, q) = lemma_tie_edge(ds, roots(cell, rep), ds.nv(), x);
        assert(rep[cell[p] as int] == x.0 && rep[cell[q] as int] == x.1);
        let (c, d) = (r[x.0 as int], r[x.1 as int]);
        assert(r[rep[cell[p] as int] as int] == r[cell[p] as int]);
        assert(r[rep[cell[q] as int] as int] == r[cell[q] as int]);
        let all = roots(cell, r);
        assert(all[p] == c && all[q] == d);
        if c != d && equal(all, c as int) + equal(all, d as int) <= cap {
            let r2 = merged(r, c, d);
            let all2 = roots(cell, r2);
            assert forall|v: int| 0 <= v < all.len() implies #[trigger] all2[v] == (if all[v] == c {
                d
            } else {
                all[v]
            }) by {
                assert(cell[v] < rep.len());
            }
            assert(coarser(rep, r2)) by {
                assert forall|y: int| 0 <= y < rep.len() implies r2[(#[trigger] r2[y]) as int]
                    == r2[y] by {
                    assert(rep[y] < rep.len());
                    assert(r[r[y] as int] == r[y]);
                    assert(rep[cell[q] as int] < rep.len());
                    assert(r[r[cell[q] as int] as int] == r[cell[q] as int]);
                }
                assert forall|y: int| 0 <= y < rep.len() implies (#[trigger] rep[y]) < rep.len()
                    && r2[rep[y] as int] == r2[y] && r2[y] < rep.len() by {
                    assert(r[rep[y] as int] == r[y]);
                    assert(rep[cell[q] as int] < rep.len());
                }
            }
            assert forall|e: int| #[trigger] whole(ds, all2, e) by {
                let y = members_of(all2, e);
                if e == d {
                    let (a, b) = (members_of(all, c as int), members_of(all, d as int));
                    assert(whole(ds, all, c as int) && whole(ds, all, d as int));
                    assert(y =~= a.union(b));
                    lemma_union_whole(ds, a, b, y, p, q);
                } else if e == c {
                    assert(y =~= Set::empty());
                } else {
                    assert(y =~= members_of(all, e));
                    assert(whole(ds, all, e));
                }
            }
            assert forall|e: int| #[trigger] equal(all2, e) <= most by {
                lemma_equal_merge(all, all2, c, d, e);
                assert(equal(all, e) <= most);
            }
        }
    }
}

/// Absorbing keeps regions in one piece, and lets none outgrow both the cap
/// and what the largest region was before.
pub proof fn lemma_absorbed(
    ds: Dataset,
    cell: Seq<u32>,
    rep: Seq<u32>,
    cap: int,
    rounds: nat,
    end: Seq<u32>,
    most: int,
)
    requires
        ds.graph_ok(),
        cell.len() == ds.nv(),
        forall|x: int|
            0 <= x < rep.len() ==> (#[trigger] rep[x]) < rep.len() && rep[rep[x] as int] == rep[x],
        forall|v: int| 0 <= v < cell.len() ==> (#[trigger] cell[v]) < rep.len(),
        forall|c: int| #[trigger] whole(ds, roots(cell, rep), c),
        forall|c: int| #[trigger] equal(roots(cell, rep), c) <= most,
        cap <= most,
        absorbed(ds, cell, rep, cap, rounds, end),
    ensures
        end.len() == rep.len(),
        forall|c: int| #[trigger] whole(ds, roots(cell, end), c),
        forall|c: int| #[trigger] equal(roots(cell, end), c) <= most,
    decreases rounds,
{
    let all = roots(cell, rep);
    let t = ties(ds, all, all.len() as int);
    if rounds == 0 || t.len() == 0 {
    } else {
        let plan = choose|plan: Seq<(u32, u32)>|
            {
                let next = attach(cell, rep, plan, plan.len() as int, cap);
                &&& #[trigger] is_plan(t, all, plan)
                &&& if next == rep {
                    end == rep
                } else {
                    absorbed(ds, cell, next, cap, (rounds - 1) as nat, end)
                }
            };
        let next = attach(cell, rep, plan, plan.len() as int, cap);
        assert(coarser(rep, rep));
        lemma_attach_whole(ds, cell, rep, plan, plan.len() as int, cap, most);
        if next != rep {
            assert forall|x: int| 0 <= x < next.len() implies (#[trigger] next[x]) < next.len()
                && next[next[x] as int] == next[x] by {
                assert(rep[x] < rep.len());
            }
            lemma_absorbed(ds, cell, next, cap, (rounds - 1) as nat, end, most);
        }
    }
}

} // verus!
