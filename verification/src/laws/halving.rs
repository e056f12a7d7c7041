//! Which regions are cut, and that a cut leaves two parts.

use vstd::prelude::*;
use crate::dataset::Dataset;
use crate::lookup::ascending;
use crate::overlay::plan::{
    by_cost, by_sweep, chosen, cuts_of, grown, keenest, lemma_units, links_of, pulled, quietest,
    ranked, sweep, sweep_edges, sweep_verts, swept, touching, traffic_of, units_of, weighed, worst,
};
use crate::overlay::rows::{edge_head, far_end};
use crate::overlay::shape::{gates, regions, Ladder, Rung};
use crate::overlay::split::unit_at;

verus! {

/// Units of region `c`, each once.
pub open spec fn part_of(of: Seq<u32>, c: u32, s: Seq<u32>) -> bool {
    &&& s.no_duplicates()
    &&& forall|i: int| 0 <= i < s.len() ==> of[(#[trigger] s[i]) as int] == c
}

/// Part of region `c`: more than one unit of it, and not all of them.
pub open spec fn proper_part(of: Seq<u32>, c: u32, s: Seq<u32>) -> bool {
    &&& part_of(of, c, s)
    &&& s.len() > 1
    &&& exists|d: int| 0 <= d < of.len() && #[trigger] of[d] == c && !s.contains(d as u32)
}

// --------------------------------------------------------------------- sweep

proof fn lemma_more(of: Seq<u32>, c: u32, s: Seq<u32>, x: u32)
    requires
        part_of(of, c, s),
        of[x as int] == c,
        !s.contains(x),
    ensures
        part_of(of, c, s.push(x)),
{
}

proof fn lemma_edges_part(
    ds: Dataset,
    l: Ladder,
    k: int,
    c: u32,
    half: int,
    seen: Seq<u32>,
    fwd: bool,
    u: u32,
    t: int,
)
    requires
        part_of(l[k].of, c, seen),
    ensures
        part_of(l[k].of, c, sweep_edges(ds, l, k, c, half, seen, fwd, u, t)),
    decreases edge_head(ds, fwd)[u + 1] - t,
{
    if t < edge_head(ds, fwd)[u + 1] {
        let x = unit_at(l, k, far_end(ds, fwd, u, t) as int) as u32;
        if l[k].of[x as int] == c && !seen.contains(x) {
            let s = seen.push(x);
            lemma_more(l[k].of, c, seen, x);
            if s.len() < half {
                lemma_edges_part(ds, l, k, c, half, s, fwd, u, t + 1);
            }
        } else {
            lemma_edges_part(ds, l, k, c, half, seen, fwd, u, t + 1);
        }
    }
}

proof fn lemma_verts_part(
    ds: Dataset,
    l: Ladder,
    k: int,
    c: u32,
    half: int,
    seen: Seq<u32>,
    verts: Seq<u32>,
    i: int,
)
    requires
        part_of(l[k].of, c, seen),
    ensures
        part_of(l[k].of, c, sweep_verts(ds, l, k, c, half, seen, verts, i)),
    decreases verts.len() - i,
{
    if i < verts.len() {
        let u = verts[i];
        let a = edge_head(ds, true)[u as int] as int;
        let b = edge_head(ds, false)[u as int] as int;
        lemma_edges_part(ds, l, k, c, half, seen, true, u, a);
        let s = sweep_edges(ds, l, k, c, half, seen, true, u, a);
        lemma_edges_part(ds, l, k, c, half, s, false, u, b);
        let s2 = sweep_edges(ds, l, k, c, half, s, false, u, b);
        lemma_verts_part(ds, l, k, c, half, s2, verts, i + 1);
    }
}

proof fn lemma_sweep_part(
    ds: Dataset,
    l: Ladder,
    k: int,
    c: u32,
    half: int,
    seen: Seq<u32>,
    at: int,
)
    requires
        part_of(l[k].of, c, seen),
    ensures
        part_of(l[k].of, c, sweep(ds, l, k, c, half, seen, at)),
    decreases l[k].of.len() - at,
{
    if at >= seen.len() || at >= l[k].of.len() || seen.len() >= half {
    } else {
        let verts = touching(l, k, seen[at]);
        lemma_verts_part(ds, l, k, c, half, seen, verts, 0);
        lemma_sweep_part(
            ds,
            l,
            k,
            c,
            half,
            sweep_verts(ds, l, k, c, half, seen, verts, 0),
            at + 1,
        );
    }
}

/// Fewer units than there are leave one out.
proof fn lemma_left_out(of: Seq<u32>, c: u32, s: Seq<u32>)
    requires
        of.len() <= u32::MAX,
        s.len() < units_of(of, c, of.len() as int).len(),
    ensures
        exists|d: int| 0 <= d < of.len() && #[trigger] of[d] == c && !s.contains(d as u32),
{
    let units = units_of(of, c, of.len() as int);
    lemma_units(of, c, of.len() as int);
    if forall|d: int| 0 <= d < of.len() && #[trigger] of[d] == c ==> s.contains(d as u32) {
        assert(units.no_duplicates()) by {
            assert forall|i: int, j: int|
                0 <= i < units.len() && 0 <= j < units.len() && i != j implies units[i]
                != units[j] by {
                if i < j {
                    assert(units[i] < units[j]);
                } else {
                    assert(units[j] < units[i]);
                }
            }
        }
        assert(units.to_set().subset_of(s.to_set())) by {
            assert forall|x: u32| units.to_set().contains(x) implies s.to_set().contains(x) by {
                let i = units.index_of(x);
                assert(units[i] == x);
                assert(of[x as int] == c);
                assert(s.contains((x as int) as u32));
            }
        }
        units.unique_seq_to_set();
        s.lemma_cardinality_of_set();
        vstd::set_lib::lemma_len_subset(units.to_set(), s.to_set());
    }
}

proof fn lemma_swept(ds: Dataset, l: Ladder, k: int, c: u32)
    requires
        l[k].of.len() <= u32::MAX,
    ensures
        swept(ds, l, k, c) matches Some(s) ==> proper_part(l[k].of, c, s),
{
    let of = l[k].of;
    let units = units_of(of, c, of.len() as int);
    lemma_units(of, c, of.len() as int);
    if units.len() >= 4 {
        assert(of[units[0] as int] == c);
        let first = seq![units[0]];
        assert(part_of(of, c, first));
        lemma_sweep_part(ds, l, k, c, (units.len() / 2) as int, first, 0);
        if let Some(s) = swept(ds, l, k, c) {
            lemma_left_out(of, c, s);
        }
    }
}

// ------------------------------------------------------------------- by cost

/// How many of the first `n` are inside.
spec fn within(inside: Seq<bool>, n: int) -> int
    decreases n,
{
    if n <= 0 {
        0
    } else {
        within(inside, n - 1) + if inside[n - 1] {
            1int
        } else {
            0
        }
    }
}

proof fn lemma_within_update(inside: Seq<bool>, i: int, n: int)
    requires
        0 <= i < inside.len(),
        !inside[i],
        0 <= n <= inside.len(),
    ensures
        within(inside.update(i, true), n) == within(inside, n) + if i < n {
            1int
        } else {
            0
        },
    decreases n,
{
    if n > 0 {
        lemma_within_update(inside, i, n - 1);
    }
}

proof fn lemma_within_one(n: int, seed: int, m: int)
    requires
        0 <= m <= n,
        0 <= seed < n,
    ensures
        within(Seq::new(n as nat, |i: int| i == seed), m) == if seed < m {
            1int
        } else {
            0
        },
    decreases m,
{
    if m > 0 {
        lemma_within_one(n, seed, m - 1);
    }
}

proof fn lemma_keenest(gain: Seq<int>, traffic: Seq<int>, inside: Seq<bool>, n: int)
    requires
        0 <= n <= inside.len(),
    ensures
        keenest(gain, traffic, inside, n) matches Some(i) ==> 0 <= i < n && !inside[i] && gain[i]
            != 0 && forall|j: int|
            0 <= j < n && !(#[trigger] inside[j]) && gain[j] != 0 ==> gain[j] < gain[i] || (gain[j]
                == gain[i] && traffic[j] >= traffic[i]),
        keenest(gain, traffic, inside, n) is None ==> forall|j: int|
            0 <= j < n && !(#[trigger] inside[j]) ==> gain[j] == 0,
    decreases n,
{
    if n > 0 {
        lemma_keenest(gain, traffic, inside, n - 1);
    }
}

proof fn lemma_grown(
    links: Seq<Seq<int>>,
    traffic: Seq<int>,
    gain: Seq<int>,
    inside: Seq<bool>,
    taken: int,
    half: int,
)
    requires
        taken == within(inside, inside.len() as int),
        taken <= half,
    ensures
        ({
            let (r, n) = grown(links, traffic, gain, inside, taken, half);
            &&& r.len() == inside.len()
            &&& n == within(r, r.len() as int)
            &&& n <= half
        }),
    decreases half - taken,
{
    if taken < half {
        lemma_keenest(gain, traffic, inside, inside.len() as int);
        if let Some(i) = keenest(gain, traffic, inside, inside.len() as int) {
            lemma_within_update(inside, i, inside.len() as int);
            lemma_grown(
                links,
                traffic,
                pulled(gain, links[i], links[i].len() as int),
                inside.update(i, true),
                taken + 1,
                half,
            );
        }
    }
}

proof fn lemma_chosen(of: Seq<u32>, c: u32, units: Seq<u32>, inside: Seq<bool>, n: int)
    requires
        ascending(units),
        0 <= n <= units.len(),
        inside.len() == units.len(),
        forall|i: int| 0 <= i < units.len() ==> of[(#[trigger] units[i]) as int] == c,
    ensures
        part_of(of, c, chosen(units, inside, n)),
        chosen(units, inside, n).len() == within(inside, n),
        forall|i: int|
            0 <= i < chosen(units, inside, n).len() ==> n > 0 && (#[trigger] chosen(
                units,
                inside,
                n,
            )[i]) <= units[n - 1],
    decreases n,
{
    if n > 0 {
        lemma_chosen(of, c, units, inside, n - 1);
        let (was, now) = (chosen(units, inside, n - 1), chosen(units, inside, n));
        if n > 1 {
            assert(units[n - 2] < units[n - 1]);
        }
        if inside[n - 1] {
            assert(of[units[n - 1] as int] == c);
            assert forall|i: int| 0 <= i < was.len() implies was[i] != units[n - 1] by {
                assert(was[i] <= units[n - 2]);
            }
            assert(!was.contains(units[n - 1]));
            lemma_more(of, c, was, units[n - 1]);
        }
        assert forall|i: int| 0 <= i < now.len() implies (#[trigger] now[i]) <= units[n - 1] by {
            if i < was.len() {
                assert(now[i] == was[i]);
                assert(was[i] <= units[n - 2]);
            }
        }
    }
}

proof fn lemma_quietest(traffic: Seq<int>, n: int)
    requires
        1 <= n <= traffic.len(),
    ensures
        0 <= quietest(traffic, n) < n,
        forall|i: int| 0 <= i < n ==> traffic[quietest(traffic, n)] <= #[trigger] traffic[i],
    decreases n,
{
    if n > 1 {
        lemma_quietest(traffic, n - 1);
    }
}

proof fn lemma_weighed(ds: Dataset, l: Ladder, k: int, counts: Seq<u32>, c: u32)
    requires
        l[k].of.len() <= u32::MAX,
    ensures
        weighed(ds, l, k, counts, c) matches Some(s) ==> proper_part(l[k].of, c, s) && 2 * s.len()
            <= units_of(l[k].of, c, l[k].of.len() as int).len(),
{
    let of = l[k].of;
    let units = units_of(of, c, of.len() as int);
    let n = units.len() as int;
    lemma_units(of, c, of.len() as int);
    if n >= 4 {
        let links = Seq::new(n as nat, |i: int| links_of(ds, l, k, units, i));
        let traffic = Seq::new(n as nat, |i: int| traffic_of(l, k, counts, c as int, units, i));
        let seed = quietest(traffic, n);
        lemma_quietest(traffic, n);
        lemma_within_one(n, seed, n);
        let gain = pulled(
            Seq::new(n as nat, |i: int| 0int),
            links[seed],
            links[seed].len() as int,
        );
        let start = Seq::new(n as nat, |i: int| i == seed);
        lemma_grown(links, traffic, gain, start, 1, n / 2);
        let (inside, taken) = grown(links, traffic, gain, start, 1, n / 2);
        lemma_chosen(of, c, units, inside, n);
        if let Some(s) = weighed(ds, l, k, counts, c) {
            lemma_left_out(of, c, s);
        }
    }
}

// --------------------------------------------------------------------- plans

proof fn lemma_cuts(listed: Seq<u32>, half: spec_fn(u32) -> Option<Seq<u32>>, n: int)
    requires
        0 <= n <= listed.len(),
        listed.no_duplicates(),
    ensures
        ({
            let out = cuts_of(listed, half, n);
            &&& out.len() <= n
            &&& forall|i: int|
                0 <= i < out.len() ==> listed.take(n).contains((#[trigger] out[i]).0) && half(
                    out[i].0,
                ) == Some(out[i].1)
            &&& forall|i: int, j: int|
                0 <= i < j < out.len() ==> (#[trigger] out[i]).0 != (#[trigger] out[j]).0
        }),
    decreases n,
{
    if n > 0 {
        lemma_cuts(listed, half, n - 1);
        let (was, now) = (cuts_of(listed, half, n - 1), cuts_of(listed, half, n));
        assert forall|x: u32| listed.take(n - 1).contains(x) implies #[trigger] listed.take(
            n,
        ).contains(x) && x != listed[n - 1] by {
            let i = listed.take(n - 1).index_of(x);
            assert(listed.take(n)[i] == x);
            assert(listed[i] == x);
        }
        assert(listed.take(n)[n - 1] == listed[n - 1]);
        assert forall|i: int| 0 <= i < now.len() implies listed.take(n).contains(
            (#[trigger] now[i]).0,
        ) && half(now[i].0) == Some(now[i].1) by {
            if i < was.len() {
                assert(now[i] == was[i]);
            }
        }
        assert forall|i: int, j: int| 0 <= i < j < now.len() implies (#[trigger] now[i]).0 != (
        #[trigger] now[j]).0 by {
            assert(now[i] == was[i]);
            assert(listed.take(n - 1).contains(was[i].0));
            if j < was.len() {
                assert(now[j] == was[j]);
            }
        }
    }
}

/// A plan cuts no more regions than it may, none twice, and only such as have
/// more gates than a region should.
pub open spec fn fair_plan(r: Rung, max: int, limit: int, cuts: Seq<(u32, Seq<u32>)>) -> bool {
    &&& cuts.len() <= limit
    &&& forall|i: int|
        0 <= i < cuts.len() ==> (#[trigger] cuts[i]).0 < regions(r) && gates(
            r,
            cuts[i].0 as int,
        ).len() > max
    &&& forall|i: int, j: int|
        0 <= i < j < cuts.len() ==> (#[trigger] cuts[i]).0 != (#[trigger] cuts[j]).0
}

proof fn lemma_plan(
    r: Rung,
    max: int,
    limit: int,
    list: Seq<u32>,
    half: spec_fn(u32) -> Option<Seq<u32>>,
)
    requires
        worst(r, max, limit, list),
        limit >= 0,
    ensures
        fair_plan(r, max, limit, cuts_of(list, half, list.len() as int)),
        list.no_duplicates(),
{
    let full = choose|full: Seq<u32>| #[trigger]
        ranked(r, max, full) && list == full.take(
            if limit < full.len() {
                limit
            } else {
                full.len() as int
            },
        );
    assert(list.no_duplicates());
    lemma_cuts(list, half, list.len() as int);
    assert(list.take(list.len() as int) =~= list);
    let out = cuts_of(list, half, list.len() as int);
    assert forall|i: int| 0 <= i < out.len() implies (#[trigger] out[i]).0 < regions(r) && gates(
        r,
        out[i].0 as int,
    ).len() > max by {
        let j = list.index_of(out[i].0);
        assert(full[j] == out[i].0);
        assert(full.contains(out[i].0));
    }
}

/// A plan that sweeps its regions cuts each into two parts, both with something
/// in them.
pub proof fn lemma_sweep_plan(
    ds: Dataset,
    l: Ladder,
    k: int,
    max: int,
    limit: int,
    list: Seq<u32>,
    cuts: Seq<(u32, Seq<u32>)>,
)
    requires
        l[k].of.len() <= u32::MAX,
        limit >= 0,
        worst(l[k], max, limit, list),
        cuts == cuts_of(list, by_sweep(ds, l, k), list.len() as int),
    ensures
        fair_plan(l[k], max, limit, cuts),
        forall|i: int|
            0 <= i < cuts.len() ==> proper_part(l[k].of, (#[trigger] cuts[i]).0, cuts[i].1),
{
    let half = by_sweep(ds, l, k);
    lemma_plan(l[k], max, limit, list, half);
    lemma_cuts(list, half, list.len() as int);
    assert forall|i: int| 0 <= i < cuts.len() implies proper_part(
        l[k].of,
        (#[trigger] cuts[i]).0,
        cuts[i].1,
    ) by {
        assert(half(cuts[i].0) == Some(cuts[i].1));
        lemma_swept(ds, l, k, cuts[i].0);
    }
}

/// A plan that weighs its regions cuts each into two parts, both with something
/// in them, and takes out no more than half.
pub proof fn lemma_cost_plan(
    ds: Dataset,
    l: Ladder,
    k: int,
    counts: Seq<u32>,
    max: int,
    limit: int,
    list: Seq<u32>,
    cuts: Seq<(u32, Seq<u32>)>,
)
    requires
        l[k].of.len() <= u32::MAX,
        limit >= 0,
        worst(l[k], max, limit, list),
        cuts == cuts_of(list, by_cost(ds, l, k, counts), list.len() as int),
    ensures
        fair_plan(l[k], max, limit, cuts),
        forall|i: int|
            0 <= i < cuts.len() ==> proper_part(l[k].of, (#[trigger] cuts[i]).0, cuts[i].1) && 2
                * cuts[i].1.len() <= units_of(l[k].of, cuts[i].0, l[k].of.len() as int).len(),
{
    let half = by_cost(ds, l, k, counts);
    lemma_plan(l[k], max, limit, list, half);
    lemma_cuts(list, half, list.len() as int);
    assert forall|i: int| 0 <= i < cuts.len() implies proper_part(
        l[k].of,
        (#[trigger] cuts[i]).0,
        cuts[i].1,
    ) && 2 * cuts[i].1.len() <= units_of(l[k].of, cuts[i].0, l[k].of.len() as int).len() by {
        assert(half(cuts[i].0) == Some(cuts[i].1));
        lemma_weighed(ds, l, k, counts, cuts[i].0);
    }
}

} // verus!
