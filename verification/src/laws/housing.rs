//! Where addresses come to stand.

use vstd::prelude::*;
use vstd::utf8::encode_utf8;
use crate::addresses::doors::{doors_from, lines_from, DoorModel, LineModel};
use crate::addresses::entries::{
    addresses_read, all_entries, allowed, door_entries, lemma_between_near, line_entries,
    mid_entries, middle, outline, pair_entries, step_of, stride_of, Entry, Gathered, Rec, Sums,
};
use crate::addresses::words::hn_bytes;
use crate::bitmap::{ones, BitMap};
use crate::contract::cut::marked;
use crate::pbf::node::cut_div;
use crate::text::{decimal_of, lower, word};

verus! {

/// `x` is the whole number nearest to the point that divides the way from `a`
/// to `b` as `i` parts of `n` do.
pub open spec fn divides(a: i32, b: i32, i: int, n: int, x: int) -> bool {
    -499 * n <= 1000 * (a * n + (b - a) * i) - 1000 * (x * n) <= 499 * n
}

/// The entry is that of number `k` between two houses: on their street, and as
/// far along the straight way between them as its number is between theirs.
pub open spec fn stands_between(a: Entry, b: Entry, na: int, nb: int, k: int, e: Entry) -> bool {
    &&& e.hn == encode_utf8(decimal_of(k as nat))
    &&& e.street == a.street
    &&& e.city == a.city
    &&& e.pc == a.pc
    &&& forall|x: i32| #[trigger] divides(a.lat, b.lat, k - na, nb - na, x as int) ==> e.lat == x
    &&& forall|x: i32| #[trigger] divides(a.lon, b.lon, k - na, nb - na, x as int) ==> e.lon == x
}

/// The rule of a line has a house of this number.
pub open spec fn has_house(rule: Seq<u8>, na: int, nb: int, k: int) -> bool {
    &&& na < k < nb
    &&& lower(rule) == word("even") ==> k % 2 == 0
    &&& lower(rule) == word("odd") ==> k % 2 == 1
    &&& (k - na) % step_of(rule) == 0
}

/// The numbers of houses, rising, and an entry for each.
pub open spec fn are_houses(
    a: Entry,
    b: Entry,
    rule: Seq<u8>,
    na: int,
    nb: int,
    from: int,
    out: Seq<Entry>,
    ks: Seq<int>,
) -> bool {
    &&& ks.len() == out.len()
    &&& forall|i: int|
        0 <= i < ks.len() ==> has_house(rule, na, nb, #[trigger] ks[i]) && ks[i] >= from
            && stands_between(a, b, na, nb, ks[i], out[i])
    &&& forall|i: int, j: int| 0 <= i < j < ks.len() ==> #[trigger] ks[i] < #[trigger] ks[j]
    &&& forall|k: int| k >= from && #[trigger] has_house(rule, na, nb, k) ==> ks.contains(k)
}

proof fn lemma_step(rule: Seq<u8>)
    ensures
        step_of(rule) >= 1,
{
}

proof fn lemma_one(a: Entry, b: Entry, na: int, nb: int, k: int)
    requires
        na < k < nb,
        nb - na <= 2000,
    ensures
        stands_between(
            a,
            b,
            na,
            nb,
            k,
            crate::addresses::entries::mid_entry(a, b, na, nb, k),
        ),
{
    let e = crate::addresses::entries::mid_entry(a, b, na, nb, k);
    let (i, n) = (k - na, nb - na);
    assert forall|x: i32| #[trigger] divides(a.lat, b.lat, i, n, x as int) implies e.lat == x by {
        lemma_between_near(a.lat, b.lat, i, n, x as int);
    }
    assert forall|x: i32| #[trigger] divides(a.lon, b.lon, i, n, x as int) implies e.lon == x by {
        lemma_between_near(a.lon, b.lon, i, n, x as int);
    }
}

proof fn lemma_houses(
    a: Entry,
    b: Entry,
    na: int,
    nb: int,
    rule: Seq<u8>,
    k: int,
    m: int,
) -> (ks: Seq<int>)
    requires
        0 <= na < nb,
        nb - na <= 2000,
        m >= 0,
        k == na + m * step_of(rule),
        na <= k <= nb,
    ensures
        are_houses(a, b, rule, na, nb, k, mid_entries(a, b, na, nb, rule, k), ks),
    decreases nb - k,
{
    let s = step_of(rule);
    lemma_step(rule);
    let out = mid_entries(a, b, na, nb, rule, k);
    assert(k + s == na + (m + 1) * s) by (nonlinear_arith)
        requires
            k == na + m * s,
    ;
    assert((k - na) % s == 0) by {
        vstd::arithmetic::div_mod::lemma_mod_multiples_basic(m, s);
    }
    let none = Seq::<Entry>::empty();
    let (rest, k0) = if k + s > nb {
        (none, Seq::<int>::empty())
    } else {
        (
            mid_entries(a, b, na, nb, rule, k + s),
            lemma_houses(a, b, na, nb, rule, k + s, m + 1),
        )
    };
    assert forall|x: int| x > k && #[trigger] has_house(rule, na, nb, x) implies x >= k + s by {
        lemma_no_house_inside(na, s, m, x);
    }
    let here = allowed(rule, k) && k != na && k != nb;
    assert(here == has_house(rule, na, nb, k)) by {
        lemma_apart_words();
    }
    if here {
        let ks = seq![k] + k0;
        lemma_one(a, b, na, nb, k);
        assert(out == seq![crate::addresses::entries::mid_entry(a, b, na, nb, k)] + rest);
        assert forall|i: int| 0 <= i < ks.len() implies has_house(rule, na, nb, #[trigger] ks[i])
            && ks[i] >= k && stands_between(a, b, na, nb, ks[i], out[i]) by {
            if i > 0 {
                assert(ks[i] == k0[i - 1] && out[i] == rest[i - 1]);
            }
        }
        assert forall|i: int, j: int| 0 <= i < j < ks.len() implies #[trigger] ks[i]
            < #[trigger] ks[j] by {
            assert(ks[j] == k0[j - 1]);
            if i > 0 {
                assert(ks[i] == k0[i - 1]);
            }
        }
        assert forall|x: int| x >= k && #[trigger] has_house(rule, na, nb, x) implies ks.contains(
            x,
        ) by {
            if x == k {
                assert(ks[0] == x);
            } else {
                assert(k0.contains(x));
                let i = k0.index_of(x);
                assert(ks[i + 1] == x);
            }
        }
        ks
    } else {
        assert(out == rest);
        k0
    }
}

proof fn lemma_apart_words()
    ensures
        word("even") != word("odd"),
{
    reveal_strlit("even");
    reveal_strlit("odd");
    vstd::utf8::encode_utf8_decode_utf8("even"@);
    vstd::utf8::encode_utf8_decode_utf8("odd"@);
}

proof fn lemma_no_house_inside(na: int, s: int, m: int, x: int)
    requires
        s >= 1,
        (x - na) % s == 0,
        x > na + m * s,
    ensures
        x >= na + m * s + s,
{
    let q = (x - na) / s;
    vstd::arithmetic::div_mod::lemma_fundamental_div_mod(x - na, s);
    assert(q > m) by (nonlinear_arith)
        requires
            x - na == s * q,
            x - na > m * s,
            s >= 1,
    ;
    assert(s * q >= m * s + s) by (nonlinear_arith)
        requires
            q >= m + 1,
            s >= 1,
    ;
}

/// Between two houses whose numbers rise by no more than two thousand stand
/// those that the rule of their line has, each once, in order, and where its
/// number says; between any others stands none.
pub proof fn lemma_interpolated(a: Entry, b: Entry, rule: Seq<u8>) -> (ks: Seq<int>)
    ensures
        ({
            let (na, nb) = (hn_bytes(a.hn), hn_bytes(b.hn));
            let out = pair_entries(a, b, rule);
            if na < nb && nb < u32::MAX && nb - na <= 2000 {
                are_houses(a, b, rule, na as int, nb as int, na as int, out, ks)
            } else {
                out.len() == 0
            }
        }),
{
    let (na, nb) = (hn_bytes(a.hn), hn_bytes(b.hn));
    if na < nb && nb < u32::MAX && nb - na <= 2000 {
        assert(0 * step_of(rule) == 0);
        lemma_houses(a, b, na as int, nb as int, rule, na as int, 0)
    } else {
        Seq::empty()
    }
}

// --------------------------------------------------------------------- doors

proof fn lemma_doors(ds: Seq<DoorModel>, i: int)
    requires
        0 <= i < ds.len(),
        ds[i].street.len() > 0,
        ds[i].hn.len() > 0,
    ensures
        door_entries(ds).contains(
            Entry {
                lat: ds[i].lat,
                lon: ds[i].lon,
                hn: ds[i].hn,
                street: ds[i].street,
                city: ds[i].city,
                pc: ds[i].pc,
            },
        ),
    decreases ds.len(),
{
    let e = Entry {
        lat: ds[i].lat,
        lon: ds[i].lon,
        hn: ds[i].hn,
        street: ds[i].street,
        city: ds[i].city,
        pc: ds[i].pc,
    };
    let all = door_entries(ds);
    let rest = door_entries(ds.drop_last());
    if i == ds.len() - 1 {
        assert(all[rest.len() as int] == e);
    } else {
        lemma_doors(ds.drop_last(), i);
        assert(ds.drop_last()[i] == ds[i]);
        let k = rest.index_of(e);
        assert(all[k] == e);
    }
}

proof fn lemma_within(
    need: BitMap,
    coords: Seq<(i32, i32)>,
    ds: Seq<DoorModel>,
    ls: Seq<LineModel>,
    n: int,
    m: int,
    e: Entry,
)
    requires
        0 <= n <= m,
        all_entries(need, coords, ds, ls, n).contains(e),
    ensures
        all_entries(need, coords, ds, ls, m).contains(e),
    decreases m - n,
{
    if n < m {
        lemma_within(need, coords, ds, ls, n, m - 1, e);
        let (was, now) = (
            all_entries(need, coords, ds, ls, m - 1),
            all_entries(need, coords, ds, ls, m),
        );
        let k = was.index_of(e);
        assert(now[k] == e);
    }
}

/// Some record says this.
pub open spec fn recorded(
    g: Gathered,
    lat: i32,
    lon: i32,
    hn: Seq<u8>,
    street: Seq<u8>,
    city: Seq<u8>,
    pc: Seq<u8>,
) -> bool {
    exists|k: int|
        0 <= k < g.recs@.len() && says(g, #[trigger] g.recs@[k], lat, lon, hn, street, city, pc)
}

/// The record has these coordinates, and the texts that it numbers are these.
pub open spec fn says(
    g: Gathered,
    r: Rec,
    lat: i32,
    lon: i32,
    hn: Seq<u8>,
    street: Seq<u8>,
    city: Seq<u8>,
    pc: Seq<u8>,
) -> bool {
    &&& r.lat == lat
    &&& r.lon == lon
    &&& g.streets.text(r.street as int) == street
    &&& g.hns.text(r.hn as int) == hn
    &&& city.len() > 0 ==> g.cities.text(g.places.list@[r.place as int].0 as int) == city
    &&& city.len() == 0 ==> g.places.list@[r.place as int].0 == u32::MAX
    &&& pc.len() > 0 ==> g.pcs.text(g.places.list@[r.place as int].1 as int) == pc
    &&& pc.len() == 0 ==> g.places.list@[r.place as int].1 == u32::MAX
}

proof fn lemma_recorded(g: Gathered, es: Seq<Entry>, e: Entry)
    requires
        g.holds(es),
        es.contains(e),
    ensures
        recorded(g, e.lat, e.lon, e.hn, e.street, e.city, e.pc),
{
    let k = es.index_of(e);
    assert(g.tells(g.recs@[k], es[k]));
    assert(says(g, g.recs@[k], e.lat, e.lon, e.hn, e.street, e.city, e.pc));
}

/// A door with a street and a number is among the addresses, where it was and as
/// it was.
pub proof fn lemma_door_kept(
    nodes: Seq<u8>,
    ways: Seq<u8>,
    need: BitMap,
    coords: Seq<(i32, i32)>,
    g: Gathered,
    i: int,
)
    requires
        addresses_read(nodes, ways, need, coords, Ok(g)),
        0 <= i < doors_from(nodes, 0)->0.len(),
        doors_from(nodes, 0)->0[i].street.len() > 0,
        doors_from(nodes, 0)->0[i].hn.len() > 0,
    ensures
        ({
            let d = doors_from(nodes, 0)->0[i];
            recorded(g, d.lat, d.lon, d.hn, d.street, d.city, d.pc)
        }),
{
    let (ds, ls) = (doors_from(nodes, 0)->0, lines_from(ways, 0)->0);
    let d = ds[i];
    let e = Entry { lat: d.lat, lon: d.lon, hn: d.hn, street: d.street, city: d.city, pc: d.pc };
    lemma_doors(ds, i);
    lemma_within(need, coords, ds, ls, 0, ls.len() as int, e);
    lemma_recorded(g, all_entries(need, coords, ds, ls, ls.len() as int), e);
}

// ----------------------------------------------------------------- buildings

/// Every node of an outline whose place is known lies between these.
pub open spec fn bounded(
    need: BitMap,
    coords: Seq<(i32, i32)>,
    refs: Seq<i64>,
    low: (int, int),
    high: (int, int),
) -> bool {
    forall|i: int|
        0 <= i < refs.len() && marked(need, #[trigger] refs[i] as u64) ==> {
            let c = coords[ones(need.words@, refs[i] as u64 as int)];
            c == (0i32, 0i32) || (low.0 <= c.0 <= high.0 && low.1 <= c.1 <= high.1)
        }
}

proof fn lemma_outline(
    need: BitMap,
    coords: Seq<(i32, i32)>,
    refs: Seq<i64>,
    i: int,
    stride: int,
    last: u64,
    s: Sums,
    low: (int, int),
    high: (int, int),
)
    requires
        bounded(need, coords, refs, low, high),
        stride >= 1,
        i >= 0,
        s.k >= 0,
        s.k * low.0 <= s.lat <= s.k * high.0,
        s.k * low.1 <= s.lon <= s.k * high.1,
    ensures
        ({
            let r = outline(need, coords, refs, i, stride, last, s);
            &&& r.k >= 0
            &&& r.k * low.0 <= r.lat <= r.k * high.0
            &&& r.k * low.1 <= r.lon <= r.k * high.1
        }),
    decreases refs.len() - i,
{
    if i < refs.len() {
        let r = refs[i] as u64;
        let next = if i + stride > refs.len() {
            refs.len() as int
        } else {
            i + stride
        };
        if r == last || !marked(need, r) {
            lemma_outline(need, coords, refs, next, stride, last, s, low, high);
        } else {
            let c = coords[ones(need.words@, r as int)];
            if c.0 == 0 && c.1 == 0 {
                lemma_outline(need, coords, refs, next, stride, r, s, low, high);
            } else {
                let t = Sums { lat: s.lat + c.0, lon: s.lon + c.1, k: s.k + 1 };
                assert(marked(need, refs[i] as u64));
                assert(t.k * low.0 == s.k * low.0 + low.0 && t.k * high.0 == s.k * high.0 + high.0
                    && t.k * low.1 == s.k * low.1 + low.1 && t.k * high.1 == s.k * high.1 + high.1)
                    by (nonlinear_arith)
                    requires
                        t.k == s.k + 1,
                ;
                lemma_outline(need, coords, refs, next, stride, r, t, low, high);
            }
        }
    }
}

proof fn lemma_mean(sum: int, k: int, low: int, high: int)
    requires
        k >= 1,
        k * low <= sum <= k * high,
    ensures
        low <= cut_div(sum, k) <= high,
{
    if sum >= 0 {
        let q = sum / k;
        vstd::arithmetic::div_mod::lemma_fundamental_div_mod(sum, k);
        vstd::arithmetic::div_mod::lemma_mod_bound(sum, k);
        assert(low <= q <= high) by (nonlinear_arith)
            requires
                sum == k * q + sum % k,
                0 <= sum % k < k,
                k * low <= sum <= k * high,
                k >= 1,
        ;
    } else {
        let q = (-sum) / k;
        vstd::arithmetic::div_mod::lemma_fundamental_div_mod(-sum, k);
        vstd::arithmetic::div_mod::lemma_mod_bound(-sum, k);
        assert(low <= -q <= high) by (nonlinear_arith)
            requires
                -sum == k * q + (-sum) % k,
                0 <= (-sum) % k < k,
                k * low <= sum <= k * high,
                k >= 1,
        ;
    }
}

/// The middle of a building lies within its outline: no further in any direction
/// than its nodes reach.
pub proof fn lemma_middle_inside(
    need: BitMap,
    coords: Seq<(i32, i32)>,
    refs: Seq<i64>,
    low: (int, int),
    high: (int, int),
)
    requires
        bounded(need, coords, refs, low, high),
        i32::MIN <= low.0,
        high.0 <= i32::MAX,
        i32::MIN <= low.1,
        high.1 <= i32::MAX,
    ensures
        middle(need, coords, refs) matches Some((lat, lon)) ==> low.0 <= lat <= high.0 && low.1
            <= lon <= high.1,
{
    let zero = Sums { lat: 0, lon: 0, k: 0 };
    let stride = stride_of(refs.len() as int);
    lemma_outline(need, coords, refs, 0, stride, u64::MAX, zero, low, high);
    let s = outline(need, coords, refs, 0, stride, u64::MAX, zero);
    if s.k > 0 {
        lemma_mean(s.lat, s.k, low.0, high.0);
        lemma_mean(s.lon, s.k, low.1, high.1);
    }
}

/// A building with a street and a number is among the addresses, at its middle,
/// where one can be told.
pub proof fn lemma_building_kept(
    nodes: Seq<u8>,
    ways: Seq<u8>,
    need: BitMap,
    coords: Seq<(i32, i32)>,
    g: Gathered,
    i: int,
)
    requires
        addresses_read(nodes, ways, need, coords, Ok(g)),
        0 <= i < lines_from(ways, 0)->0.len(),
        lines_from(ways, 0)->0[i].kind == 1,
        lines_from(ways, 0)->0[i].street.len() > 0,
        lines_from(ways, 0)->0[i].hn.len() > 0,
    ensures
        ({
            let l = lines_from(ways, 0)->0[i];
            middle(need, coords, l.refs) matches Some((lat, lon)) ==> recorded(
                g,
                lat,
                lon,
                l.hn,
                l.street,
                l.city,
                l.pc,
            )
        }),
{
    let (ds, ls) = (doors_from(nodes, 0)->0, lines_from(ways, 0)->0);
    let l = ls[i];
    if let Some((lat, lon)) = middle(need, coords, l.refs) {
        let e = Entry { lat, lon, hn: l.hn, street: l.street, city: l.city, pc: l.pc };
        let (was, now) = (
            all_entries(need, coords, ds, ls, i),
            all_entries(need, coords, ds, ls, i + 1),
        );
        let here = line_entries(need, coords, ds, ls, l);
        assert(here[0] == e);
        assert(now[was.len() as int] == e);
        lemma_within(need, coords, ds, ls, i + 1, ls.len() as int, e);
        lemma_recorded(g, all_entries(need, coords, ds, ls, ls.len() as int), e);
    }
}

} // verus!
