//! What lies around a point: the candidates a search outward looks at, and
//! which of them is the closest.

use vstd::prelude::*;
use vstd::string::StringExecFns;
use vstd::utf8::{decode_utf8, encode_utf8, valid_utf8};
use crate::addresses::words::{norm_of, normalize};
use crate::dataset::{cell_list, cells_ok, Dataset};
use crate::geocode::index::{ring_cells, ring_of, Geocoder};
use crate::geocode::order::{lemma_text_total, lemma_text_trans, text_before, text_lt};
use crate::graph::grid::CELL_E7;
use crate::lookup::ascending;
use crate::sorting::{number_set, text_le};
use crate::text::str_eq;

verus! {

/// The square of `ring` cells around a point stays on the map of numbers.
pub open spec fn ring_fits(lat: int, lon: int, ring: int) -> bool {
    &&& 0 <= ring <= 20_000
    &&& i32::MIN <= lat - ring * CELL_E7
    &&& lat + ring * CELL_E7 <= i32::MAX
    &&& i32::MIN <= lon - ring * CELL_E7
    &&& lon + ring * CELL_E7 <= i32::MAX
}

// ------------------------------------------------------------------ segments

/// The segments of cells, cell by cell.
pub open spec fn segments_in(ds: Dataset, keys: Seq<u64>) -> Seq<u32>
    decreases keys.len(),
{
    if keys.len() == 0 {
        Seq::empty()
    } else {
        segments_in(ds, keys.drop_last()) + cell_list(
            ds.snap_cell@,
            ds.snap_off@,
            ds.snap_seg@,
            keys.last(),
        )
    }
}

/// The segments of the cells at a distance of `ring` cells, in the order in
/// which a search outward meets them.
pub fn ring_segments(ds: &Dataset, lat_e7: i32, lon_e7: i32, ring: i32) -> (out: Vec<u32>)
    requires
        cells_ok(ds.snap_cell@, ds.snap_off@, ds.snap_seg@),
        ring_fits(lat_e7 as int, lon_e7 as int, ring as int),
    ensures
        out@ == segments_in(
            *ds,
            ring_of(lat_e7 as int, lon_e7 as int, ring as int),
        ),
{
    let keys: Vec<u64> = ring_cells(lat_e7, lon_e7, ring);
    let mut out: Vec<u32> = Vec::new();
    let mut i: usize = 0;
    while i < keys.len()
        invariant
            i <= keys@.len(),
            cells_ok(ds.snap_cell@, ds.snap_off@, ds.snap_seg@),
            out@ == segments_in(*ds, keys@.take(i as int)),
        decreases keys@.len() - i,
    {
        out.extend_from_slice(ds.cell_segments(keys[i]));
        assert(keys@.take(i + 1).drop_last() =~= keys@.take(i as int));
        i += 1;
    }
    assert(keys@.take(i as int) =~= keys@);
    out
}

/// The segments of all the cells no further than `ring` cells away.
pub open spec fn around(ds: Dataset, lat: int, lon: int, ring: int) -> Seq<u32>
    decreases ring + 1,
{
    if ring < 0 {
        Seq::empty()
    } else {
        around(ds, lat, lon, ring - 1) + segments_in(ds, ring_of(lat, lon, ring))
    }
}

/// The name of a segment, empty where it carries none.
pub open spec fn label(ds: Dataset, sid: u32) -> Seq<char> {
    if sid < ds.seg_name@.len() && ds.seg_name@[sid as int] != u32::MAX && valid_utf8(
        ds.name_bytes(ds.seg_name@[sid as int] as int),
    ) {
        decode_utf8(ds.name_bytes(ds.seg_name@[sid as int] as int))
    } else {
        Seq::empty()
    }
}

/// Every name that a segment refers to is there.
pub open spec fn named_ok(ds: Dataset) -> bool {
    forall|s: int|
        0 <= s < ds.seg_name@.len() && #[trigger] ds.seg_name@[s] != u32::MAX ==> ds.name_ok(
            ds.seg_name@[s] as int,
        )
}

fn read_label<'a>(ds: &Dataset<'a>, sid: u32) -> (r: &'a str)
    requires
        named_ok(*ds),
    ensures
        r@ == label(*ds, sid),
{
    match ds.street_name(sid as usize) {
        Some(s) => s,
        None => {
            proof {
                reveal_strlit("");
            }
            assert(""@ =~= Seq::<char>::empty());
            ""
        },
    }
}

/// The segment is on the street asked for, if one was.
pub open spec fn on_street(ds: Dataset, sid: u32, street: Option<Seq<char>>) -> bool {
    street matches Some(s) ==> norm_of(label(ds, sid)) == norm_of(s)
}

/// The segments around a place that are on a street, each once and rising.
pub open spec fn near_by(
    ds: Dataset,
    lat: int,
    lon: int,
    rings: int,
    street: Option<Seq<char>>,
    out: Seq<u32>,
) -> bool {
    &&& ascending(out)
    &&& forall|s: u32| #[trigger]
        out.contains(s) <==> around(ds, lat, lon, rings).contains(s) && on_street(ds, s, street)
}

/// The segments that a place and a street may mean: those of the cells no
/// further than `rings` away whose name reads the same, each once and rising.
/// Which of them are near enough is left to be measured.
pub fn candidates_near(
    ds: &Dataset,
    lat_e7: i32,
    lon_e7: i32,
    rings: i32,
    street: Option<&str>,
) -> (out: Vec<u32>)
    requires
        cells_ok(ds.snap_cell@, ds.snap_off@, ds.snap_seg@),
        named_ok(*ds),
        ring_fits(lat_e7 as int, lon_e7 as int, rings as int),
    ensures
        near_by(
            *ds,
            lat_e7 as int,
            lon_e7 as int,
            rings as int,
            match street {
                Some(t) => Some(t@),
                None => None,
            },
            out@,
        ),
{
    let mut all: Vec<u32> = Vec::new();
    let mut ring: i32 = 0;
    while ring <= rings
        invariant
            0 <= ring <= rings + 1,
            cells_ok(ds.snap_cell@, ds.snap_off@, ds.snap_seg@),
            ring_fits(lat_e7 as int, lon_e7 as int, rings as int),
            all@ == around(*ds, lat_e7 as int, lon_e7 as int, ring - 1),
        decreases rings + 1 - ring,
    {
        assert(ring * CELL_E7 <= rings * CELL_E7) by (nonlinear_arith)
            requires
                ring <= rings,
        ;
        let mut part: Vec<u32> = ring_segments(ds, lat_e7, lon_e7, ring);
        all.append(&mut part);
        ring += 1;
    }
    let set: Vec<u32> = number_set(all);
    let want: Option<String> = match street {
        Some(t) => Some(normalize(t)),
        None => None,
    };
    let mut out: Vec<u32> = Vec::new();
    let ghost asked = match street {
        Some(t) => Some(t@),
        None => None,
    };
    let mut i: usize = 0;
    while i < set.len()
        invariant
            i <= set@.len(),
            named_ok(*ds),
            ascending(set@),
            want matches Some(w) ==> asked is Some && w@ == norm_of(asked->0),
            want is None ==> asked is None,
            ascending(out@),
            forall|j: int| 0 <= j < out@.len() && i < set@.len() ==> #[trigger] out@[j] < set@[i as int],
            forall|s: u32| #[trigger]
                out@.contains(s) <==> set@.take(i as int).contains(s) && on_street(*ds, s, asked),
        decreases set@.len() - i,
    {
        let s: u32 = set[i];
        let keep: bool = match &want {
            None => true,
            Some(w) => {
                let have: String = normalize(read_label(ds, s));
                str_eq(have.as_str(), w.as_str())
            },
        };
        assert(keep == on_street(*ds, s, asked));
        let ghost before = out@;
        if keep {
            out.push(s);
        }
        proof {
            assert forall|x: u32| #[trigger] out@.contains(x) <==> set@.take(i + 1).contains(x)
                && on_street(*ds, x, asked) by {
                assert(set@.take(i + 1) =~= set@.take(i as int).push(s));
                lemma_pushed(set@.take(i as int), s, x);
                lemma_pushed(before, s, x);
                assert(before.contains(x) <==> set@.take(i as int).contains(x) && on_street(
                    *ds,
                    x,
                    asked,
                ));
            }
            if i + 1 < set@.len() {
                assert(set@[i as int] < set@[i + 1]);
            }
        }
        i += 1;
    }
    assert(set@.take(i as int) =~= set@);
    out
}

proof fn lemma_pushed(s: Seq<u32>, y: u32, x: u32)
    ensures
        s.push(y).contains(x) <==> s.contains(x) || x == y,
{
    if s.contains(x) {
        let i = s.index_of(x);
        assert(s.push(y)[i] == x);
    }
    if x == y {
        assert(s.push(y)[s.len() as int] == x);
    }
    if s.push(y).contains(x) && x != y {
        let i = s.push(y).index_of(x);
        assert(s[i] == x);
    }
}

// ----------------------------------------------------------------- addresses

/// The addresses of one cell, by their number.
pub open spec fn addresses_of(g: Geocoder, key: u64) -> Seq<u32> {
    if exists|i: int| 0 <= i < g.cell_key@.len() && g.cell_key@[i] == key {
        let i = choose|i: int| 0 <= i < g.cell_key@.len() && g.cell_key@[i] == key;
        Seq::new(
            (g.cell_off@[i + 1] - g.cell_off@[i]) as nat,
            |j: int| (g.cell_off@[i] + j) as u32,
        )
    } else {
        Seq::empty()
    }
}

pub open spec fn addresses_in(g: Geocoder, keys: Seq<u64>) -> Seq<u32>
    decreases keys.len(),
{
    if keys.len() == 0 {
        Seq::empty()
    } else {
        addresses_in(g, keys.drop_last()) + addresses_of(g, keys.last())
    }
}

/// The addresses in the cells at a distance of `ring` cells, in the order in
/// which a search outward meets them.
pub fn ring_addresses(g: &Geocoder, lat_e7: i32, lon_e7: i32, ring: i32) -> (out: Vec<u32>)
    requires
        g.cells_ok(),
        ring_fits(lat_e7 as int, lon_e7 as int, ring as int),
    ensures
        out@ == addresses_in(
            *g,
            ring_of(lat_e7 as int, lon_e7 as int, ring as int),
        ),
{
    let keys: Vec<u64> = ring_cells(lat_e7, lon_e7, ring);
    let mut out: Vec<u32> = Vec::new();
    let mut i: usize = 0;
    while i < keys.len()
        invariant
            i <= keys@.len(),
            g.cells_ok(),
            out@ == addresses_in(*g, keys@.take(i as int)),
        decreases keys@.len() - i,
    {
        let ghost before = out@;
        let ghost list = addresses_of(*g, keys@[i as int]);
        match g.cell_span(keys[i]) {
            None => {
                assert(list =~= Seq::<u32>::empty()) by {
                    assert(!g.cell_key@.contains(keys@[i as int]));
                }
                assert(before + list =~= before);
            },
            Some((a, b)) => {
                proof {
                    let at = choose|at: int|
                        0 <= at < g.cell_key@.len() && #[trigger] g.cell_key@[at]
                            == keys@[i as int] && a == g.cell_off@[at] && b == g.cell_off@[at + 1];
                    let at2 = choose|i2: int|
                        0 <= i2 < g.cell_key@.len() && g.cell_key@[i2] == keys@[i as int];
                    assert(at2 == at);
                }
                let mut j: usize = a;
                while j < b
                    invariant
                        a <= j <= b,
                        b <= u32::MAX,
                        list.len() == b - a,
                        forall|q: int| 0 <= q < list.len() ==> #[trigger] list[q] == a + q,
                        out@ == before + list.take(j - a),
                    decreases b - j,
                {
                    out.push(j as u32);
                    assert(list.take(j + 1 - a) =~= list.take(j - a).push(list[j - a]));
                    j += 1;
                }
                assert(list.take(b - a) =~= list);
            },
        }
        assert(keys@.take(i + 1).drop_last() =~= keys@.take(i as int));
        i += 1;
    }
    assert(keys@.take(i as int) =~= keys@);
    out
}

// --------------------------------------------------------------- the closest

/// The closest of what was known and of the first `n` measured: a tie goes to
/// what came first, and what could not be measured does not count.
pub open spec fn closest(
    best: Option<(u64, u32)>,
    items: Seq<u32>,
    far: Seq<Option<u64>>,
    n: int,
) -> Option<(u64, u32)>
    decreases n,
{
    if n <= 0 {
        best
    } else {
        let b = closest(best, items, far, n - 1);
        match far[n - 1] {
            Some(d) => if b matches Some(x) && x.0 <= d {
                b
            } else {
                Some((d, items[n - 1]))
            },
            None => b,
        }
    }
}

/// Takes another round of measured candidates into account.
pub fn closer(best: Option<(u64, u32)>, items: &Vec<u32>, far: &Vec<Option<u64>>) -> (r: Option<
    (u64, u32),
>)
    requires
        items@.len() == far@.len(),
    ensures
        r == closest(best, items@, far@, items@.len() as int),
{
    let mut b: Option<(u64, u32)> = best;
    let mut i: usize = 0;
    while i < items.len()
        invariant
            i <= items@.len(),
            items@.len() == far@.len(),
            b == closest(best, items@, far@, i as int),
        decreases items@.len() - i,
    {
        if let Some(d) = far[i] {
            let keep: bool = match b {
                Some(x) => x.0 <= d,
                None => false,
            };
            if !keep {
                b = Some((d, items[i]));
            }
        }
        i += 1;
    }
    b
}

/// Nothing measured is closer than the closest, which is one of those
/// measured or what was known before; and with nothing measured and nothing
/// known there is none.
pub proof fn lemma_closest_is_least(
    best: Option<(u64, u32)>,
    items: Seq<u32>,
    far: Seq<Option<u64>>,
    n: int,
)
    requires
        items.len() == far.len(),
        0 <= n <= items.len(),
    ensures
        match closest(best, items, far, n) {
            Some((d, x)) => {
                &&& best matches Some(b) ==> d <= b.0
                &&& forall|i: int|
                    0 <= i < n && #[trigger] far[i] is Some ==> d <= far[i]->0
                &&& best == Some((d, x)) || exists|i: int|
                    0 <= i < n && #[trigger] far[i] == Some(d) && items[i] == x
            },
            None => best is None && forall|i: int| 0 <= i < n ==> #[trigger] far[i] is None,
        },
    decreases n,
{
    if n > 0 {
        lemma_closest_is_least(best, items, far, n - 1);
        let b = closest(best, items, far, n - 1);
        if let Some((d, x)) = closest(best, items, far, n) {
            if b == Some((d, x)) {
                if best != Some((d, x)) {
                    let i = choose|i: int|
                        0 <= i < n - 1 && #[trigger] far[i] == Some(d) && items[i] == x;
                    assert(far[i] == Some(d) && items[i] == x);
                }
            } else {
                assert(far[n - 1] == Some(d) && items[n - 1] == x);
            }
        }
    }
}

// --------------------------------------------------------------------- names

/// What a segment is called in a list of names.
pub open spec fn called(ds: Dataset, sid: u32) -> Seq<char> {
    if label(ds, sid).len() == 0 {
        "(unnamed)"@
    } else {
        label(ds, sid)
    }
}

/// How many of the first `n` segments are called so.
pub open spec fn times_called(ds: Dataset, segs: Seq<u32>, name: Seq<char>, n: int) -> int
    decreases n,
{
    if n <= 0 {
        0
    } else {
        times_called(ds, segs, name, n - 1) + (if called(ds, segs[n - 1]) == name {
            1int
        } else {
            0
        })
    }
}

proof fn lemma_times(ds: Dataset, segs: Seq<u32>, name: Seq<char>, n: int)
    requires
        0 <= n,
    ensures
        0 <= times_called(ds, segs, name, n) <= n,
    decreases n,
{
    if n > 0 {
        lemma_times(ds, segs, name, n - 1);
    }
}

/// More frequent names come first, then those whose bytes come first.
pub open spec fn ahead(a: (Seq<char>, int), b: (Seq<char>, int)) -> bool {
    a.1 > b.1 || (a.1 == b.1 && text_lt(encode_utf8(a.0), encode_utf8(b.0)))
}

pub open spec fn named_count(x: (String, usize)) -> (Seq<char>, int) {
    (x.0@, x.1 as int)
}

proof fn lemma_ahead(a: (Seq<char>, int), b: (Seq<char>, int), c: (Seq<char>, int))
    ensures
        ahead(a, b) && ahead(b, c) ==> ahead(a, c),
        a.0 != b.0 && !ahead(a, b) ==> ahead(b, a),
{
    let (x, y, z) = (encode_utf8(a.0), encode_utf8(b.0), encode_utf8(c.0));
    lemma_text_total(x, y);
    lemma_text_total(x, z);
    if text_le(x, y) && text_le(y, z) {
        lemma_text_trans(x, y, z);
        if x == z {
            lemma_text_total(y, z);
        }
    }
    vstd::utf8::encode_utf8_decode_utf8(a.0);
    vstd::utf8::encode_utf8_decode_utf8(b.0);
}

fn tell_name(ds: &Dataset, sid: u32) -> (r: String)
    requires
        named_ok(*ds),
    ensures
        r@ == called(*ds, sid),
{
    let s: &str = read_label(ds, sid);
    if s.as_bytes().len() == 0 {
        proof {
            vstd::utf8::encode_utf8_decode_utf8(s@);
            lemma_no_bytes(s@);
        }
        String::from_str("(unnamed)")
    } else {
        proof {
            lemma_no_bytes(s@);
        }
        String::from_str(s)
    }
}

proof fn lemma_no_bytes(s: Seq<char>)
    ensures
        (encode_utf8(s).len() == 0) == (s.len() == 0),
{
    vstd::utf8::encode_utf8_decode_utf8(s);
    if encode_utf8(s).len() == 0 {
        assert(encode_utf8(s) =~= encode_utf8(Seq::<char>::empty()));
        vstd::utf8::encode_utf8_decode_utf8(Seq::<char>::empty());
    }
    if s.len() == 0 {
        assert(s =~= Seq::<char>::empty());
    }
}

/// The names of the first `n` segments, each once, and how often each occurs.
spec fn tallied(
    ds: Dataset,
    segs: Seq<u32>,
    n: int,
    names: Seq<String>,
    counts: Seq<usize>,
) -> bool {
    &&& names.len() == counts.len()
    &&& forall|i: int, j: int|
        0 <= i < j < names.len() ==> (#[trigger] names[i])@ != (#[trigger] names[j])@
    &&& forall|i: int|
        0 <= i < names.len() ==> counts_right(ds, segs, n, #[trigger] names[i], counts[i])
    &&& forall|k: int| 0 <= k < n ==> is_listed(names, called(ds, #[trigger] segs[k]))
}

spec fn counts_right(ds: Dataset, segs: Seq<u32>, n: int, name: String, count: usize) -> bool {
    0 < count == times_called(ds, segs, name@, n)
}

spec fn is_listed(names: Seq<String>, name: Seq<char>) -> bool {
    exists|i: int| 0 <= i < names.len() && (#[trigger] names[i])@ == name
}

fn tally_names(ds: &Dataset, segs: &Vec<u32>) -> (r: (Vec<String>, Vec<usize>))
    requires
        named_ok(*ds),
    ensures
        tallied(*ds, segs@, segs@.len() as int, r.0@, r.1@),
{
    let mut names: Vec<String> = Vec::new();
    let mut counts: Vec<usize> = Vec::new();
    let mut k: usize = 0;
    while k < segs.len()
        invariant
            k <= segs@.len(),
            named_ok(*ds),
            tallied(*ds, segs@, k as int, names@, counts@),
        decreases segs@.len() - k,
    {
        let name: String = tell_name(ds, segs[k]);
        let mut i: usize = 0;
        while i < names.len() && !str_eq(names[i].as_str(), name.as_str())
            invariant
                i <= names@.len(),
                name@ == called(*ds, segs@[k as int]),
                forall|j: int| 0 <= j < i ==> (#[trigger] names@[j])@ != name@,
            decreases names@.len() - i,
        {
            i += 1;
        }
        let ghost (n0, c0) = (names@, counts@);
        proof {
            lemma_times(*ds, segs@, name@, k as int);
            if i == n0.len() {
                lemma_uncalled(*ds, segs@, name@, k as int, n0);
            } else {
                lemma_times(*ds, segs@, n0[i as int]@, k as int);
            }
        }
        if i < names.len() {
            counts.set(i, counts[i] + 1);
        } else {
            names.push(name);
            counts.push(1);
        }
        proof {
            assert forall|z: int| 0 <= z < names@.len() implies counts_right(
                *ds,
                segs@,
                k + 1,
                #[trigger] names@[z],
                counts@[z],
            ) by {
                if z < n0.len() {
                    assert(names@[z] == n0[z]);
                    assert(counts_right(*ds, segs@, k as int, n0[z], c0[z]));
                    if i < n0.len() && z != i {
                        assert(n0[z]@ != n0[i as int]@);
                    }
                }
            }
            assert forall|q: int| 0 <= q < k + 1 implies is_listed(
                names@,
                called(*ds, #[trigger] segs@[q]),
            ) by {
                if q == k {
                    assert(names@[i as int]@ == called(*ds, segs@[k as int]));
                } else {
                    assert(is_listed(n0, called(*ds, segs@[q])));
                    let z = choose|z: int|
                        0 <= z < n0.len() && (#[trigger] n0[z])@ == called(*ds, segs@[q]);
                    assert(names@[z] == n0[z]);
                }
            }
            assert forall|x: int, y: int| 0 <= x < y < names@.len() implies (
            #[trigger] names@[x])@ != (#[trigger] names@[y])@ by {
                assert(names@[x] == n0[x]);
                if y < n0.len() {
                    assert(names@[y] == n0[y]);
                } else {
                    assert(n0[x]@ != called(*ds, segs@[k as int]));
                }
            }
            assert(tallied(*ds, segs@, k + 1, names@, counts@));
        }
        k += 1;
    }
    (names, counts)
}

proof fn lemma_uncalled(ds: Dataset, segs: Seq<u32>, name: Seq<char>, n: int, names: Seq<String>)
    requires
        0 <= n <= segs.len(),
        forall|k: int| 0 <= k < n ==> is_listed(names, called(ds, #[trigger] segs[k])),
        !is_listed(names, name),
    ensures
        times_called(ds, segs, name, n) == 0,
    decreases n,
{
    if n > 0 {
        lemma_uncalled(ds, segs, name, n - 1, names);
        assert(is_listed(names, called(ds, segs[n - 1])));
    }
}

/// A name is in a list of names.
pub open spec fn tells(out: Seq<(String, usize)>, name: Seq<char>) -> bool {
    exists|i: int| 0 <= i < out.len() && (#[trigger] out[i]).0@ == name
}

/// A list of names is in its order.
pub open spec fn in_turn(out: Seq<(String, usize)>) -> bool {
    forall|i: int, j: int|
        0 <= i < j < out.len() ==> ahead(
            named_count(#[trigger] out[i]),
            named_count(#[trigger] out[j]),
        )
}

fn comes_ahead(a: &(String, usize), b: &(String, usize)) -> (r: bool)
    ensures
        r == ahead(named_count(*a), named_count(*b)),
{
    a.1 > b.1 || (a.1 == b.1 && text_before(a.0.as_str().as_bytes(), b.0.as_str().as_bytes()))
}

/// Puts another name in its place.
fn slip_in(out: &mut Vec<(String, usize)>, new: (String, usize))
    requires
        in_turn(old(out)@),
        !tells(old(out)@, new.0@),
    ensures
        in_turn(final(out)@),
        exists|p: int| 0 <= p <= old(out)@.len() && final(out)@ == #[trigger] old(out)@.insert(p, new),
{
    let ghost o0 = out@;
    let ghost mine = named_count(new);
    let mut p: usize = 0;
    while p < out.len() && comes_ahead(&out[p], &new)
        invariant
            p <= out@.len(),
            mine == named_count(new),
            out@ == o0,
            forall|i: int| 0 <= i < p ==> ahead(named_count(#[trigger] o0[i]), mine),
        decreases out@.len() - p,
    {
        p += 1;
    }
    proof {
        assert forall|i: int| p <= i < o0.len() implies ahead(
            mine,
            named_count(#[trigger] o0[i]),
        ) by {
            let first = named_count(o0[p as int]);
            assert(first.0 != mine.0);
            lemma_ahead(first, mine, mine);
            if i > p {
                lemma_ahead(mine, first, named_count(o0[i]));
            }
        }
    }
    out.insert(p, new);
    proof {
        assert(out@ == o0.insert(p as int, new));
        assert forall|i: int, j: int| 0 <= i < j < out@.len() implies ahead(
            named_count(#[trigger] out@[i]),
            named_count(#[trigger] out@[j]),
        ) by {
            let (a, b) = (if i < p { i } else { i - 1 }, if j < p { j } else { j - 1 });
            if i != p {
                assert(out@[i] == o0[a]);
            }
            if j != p {
                assert(out@[j] == o0[b]);
            }
        }
    }
}

spec fn drawn_from(names: Seq<String>, counts: Seq<usize>, n: int, x: (String, usize)) -> bool {
    exists|i: int| 0 <= i < n && x.0@ == (#[trigger] names[i])@ && x.1 == counts[i]
}

proof fn lemma_drawn(
    names: Seq<String>,
    counts: Seq<usize>,
    k: int,
    o0: Seq<(String, usize)>,
    p: int,
    new: (String, usize),
)
    requires
        0 <= k < names.len(),
        0 <= p <= o0.len(),
        forall|i: int| 0 <= i < o0.len() ==> drawn_from(names, counts, k, #[trigger] o0[i]),
        forall|z: int| 0 <= z < k ==> tells(o0, (#[trigger] names[z])@),
        new.0@ == names[k]@,
        new.1 == counts[k],
    ensures
        forall|i: int|
            0 <= i < o0.insert(p, new).len() ==> drawn_from(
                names,
                counts,
                k + 1,
                #[trigger] o0.insert(p, new)[i],
            ),
        forall|z: int| 0 <= z < k + 1 ==> tells(o0.insert(p, new), (#[trigger] names[z])@),
{
    let o = o0.insert(p, new);
    assert forall|i: int| 0 <= i < o.len() implies drawn_from(
        names,
        counts,
        k + 1,
        #[trigger] o[i],
    ) by {
        if i == p {
            assert(o[i].0@ == names[k]@);
        } else {
            let a = if i < p { i } else { i - 1 };
            assert(o[i] == o0[a]);
            assert(drawn_from(names, counts, k, o0[a]));
        }
    }
    assert forall|z: int| 0 <= z < k + 1 implies tells(o, (#[trigger] names[z])@) by {
        if z == k {
            assert(o[p].0@ == names[z]@);
        } else {
            assert(tells(o0, names[z]@));
            let i = choose|i: int| 0 <= i < o0.len() && (#[trigger] o0[i]).0@ == names[z]@;
            let b = if i < p { i } else { i + 1 };
            assert(o[b] == o0[i]);
        }
    }
}

/// The names of segments with how many carry each: the most frequent first,
/// and where they are as frequent, in the order of their bytes.
pub fn names_near(ds: &Dataset, segs: &Vec<u32>) -> (out: Vec<(String, usize)>)
    requires
        named_ok(*ds),
    ensures
        forall|i: int|
            0 <= i < out@.len() ==> 0 < (#[trigger] out@[i]).1 == times_called(
                *ds,
                segs@,
                out@[i].0@,
                segs@.len() as int,
            ),
        forall|k: int| 0 <= k < segs@.len() ==> tells(out@, called(*ds, #[trigger] segs@[k])),
        in_turn(out@),
{
    let (names, counts): (Vec<String>, Vec<usize>) = tally_names(ds, segs);
    let mut out: Vec<(String, usize)> = Vec::new();
    let mut k: usize = 0;
    while k < names.len()
        invariant
            k <= names@.len(),
            tallied(*ds, segs@, segs@.len() as int, names@, counts@),
            forall|i: int|
                0 <= i < out@.len() ==> drawn_from(names@, counts@, k as int, #[trigger] out@[i]),
            forall|z: int| 0 <= z < k ==> tells(out@, (#[trigger] names@[z])@),
            in_turn(out@),
        decreases names@.len() - k,
    {
        let new: (String, usize) = (String::from_str(names[k].as_str()), counts[k]);
        let ghost o0 = out@;
        let ghost added = new;
        proof {
            if tells(o0, new.0@) {
                let i = choose|i: int| 0 <= i < o0.len() && (#[trigger] o0[i]).0@ == new.0@;
                assert(drawn_from(names@, counts@, k as int, o0[i]));
                let z = choose|z: int|
                    0 <= z < k && o0[i].0@ == (#[trigger] names@[z])@ && o0[i].1 == counts@[z];
                assert(names@[z]@ != names@[k as int]@);
            }
        }
        slip_in(&mut out, new);
        proof {
            let p = choose|p: int|
                0 <= p <= o0.len() && out@ == #[trigger] o0.insert(p, added);
            lemma_drawn(names@, counts@, k as int, o0, p, added);
        }
        k += 1;
    }
    proof {
        assert forall|i: int| 0 <= i < out@.len() implies 0 < (#[trigger] out@[i]).1
            == times_called(*ds, segs@, out@[i].0@, segs@.len() as int) by {
            assert(drawn_from(names@, counts@, k as int, out@[i]));
        }
        assert forall|q: int| 0 <= q < segs@.len() implies tells(
            out@,
            called(*ds, #[trigger] segs@[q]),
        ) by {
            assert(is_listed(names@, called(*ds, segs@[q])));
            let z = choose|z: int|
                0 <= z < names@.len() && (#[trigger] names@[z])@ == called(*ds, segs@[q]);
            assert(tells(out@, names@[z]@));
        }
    }
    out
}

} // verus!
