//! What a signed speed comes to.

use vstd::prelude::*;
use vstd::arithmetic::power2::pow2;
use vstd::utf8::{is_ascii_chars_encode_utf8, valid_utf8};
use crate::addresses::entries::{all_digits, digits_value};
use crate::double::{lemma_digits_range, lemma_ten_pos, ten_to};
use crate::profile::{
    is_digit, lemma_speed_near, maxspeed_of, next_of, numeral, numeral_end, part_digits, tidy,
    whole_digits, zone_kmh, Class,
};
use crate::text::{holds, word};

verus! {

/// A number and what follows it: the digits `w`, a point and the digits `p`
/// where there are any, and then something else.
pub open spec fn number_first(s: Seq<u8>, w: Seq<u8>, p: Seq<u8>, rest: Seq<u8>) -> bool {
    &&& w.len() > 0
    &&& all_digits(w)
    &&& all_digits(p)
    &&& p.len() <= 15
    &&& s == w + (if p.len() > 0 {
        seq![46u8] + p
    } else {
        Seq::empty()
    }) + rest
    &&& rest.len() > 0 ==> !is_digit(rest[0]) && rest[0] != 46
    &&& forall|i: int| 0 <= i < s.len() ==> #[trigger] s[i] != 58
}

proof fn lemma_numeral_end(s: Seq<u8>, i: int, n: int)
    requires
        0 <= i <= n <= s.len(),
        forall|j: int| i <= j < n ==> is_digit(#[trigger] s[j]) || s[j] == 46,
        n < s.len() ==> !is_digit(s[n]) && s[n] != 46,
    ensures
        numeral_end(s, i) == n,
    decreases n - i,
{
    if i < n {
        lemma_numeral_end(s, i + 1, n);
    }
}

proof fn lemma_next(s: Seq<u8>, b: u8, i: int, n: int)
    requires
        0 <= i <= n <= s.len(),
        forall|j: int| i <= j < n ==> #[trigger] s[j] != b,
        n < s.len() ==> s[n] == b,
    ensures
        next_of(s, b, i) == n,
    decreases n - i,
{
    if i < n {
        lemma_next(s, b, i + 1, n);
    }
}

/// A word does not begin with a digit.
proof fn lemma_no_word(s: Seq<u8>)
    requires
        s.len() > 0,
        48 <= s[0] <= 57,
    ensures
        s != word("none"),
        s != word("unlimited"),
        s != word("walk"),
{
    reveal_strlit("none");
    reveal_strlit("unlimited");
    reveal_strlit("walk");
    is_ascii_chars_encode_utf8("none"@);
    is_ascii_chars_encode_utf8("unlimited"@);
    is_ascii_chars_encode_utf8("walk"@);
    assert(word("none")[0] == 'n' as u8);
    assert(word("unlimited")[0] == 'u' as u8);
    assert(word("walk")[0] == 'w' as u8);
}

/// A signed number, in miles or knots where the sign says so and in kilometres
/// where it does not, comes to the whole number of km/h that it is nearest to;
/// nothing comes of zero.
pub proof fn lemma_signed(v: Seq<u8>, class: Class, w: Seq<u8>, p: Seq<u8>, rest: Seq<u8>, k: int)
    requires
        valid_utf8(v),
        number_first(tidy(v), w, p, rest),
        1 <= k <= 255,
        ({
            let unit: int = if holds(tidy(v), word("mph")) {
                1_609_344
            } else if holds(tidy(v), word("knots")) {
                1_852_000
            } else {
                1_000_000
            };
            let (n, d) = (digits_value(w + p), ten_to(p.len() as int));
            &&& (1000 * k - 499) * (d * 1_000_000) <= 1000 * (n * unit)
            &&& 1000 * (n * unit) <= (1000 * k + 499) * (d * 1_000_000)
        }),
    ensures
        maxspeed_of(v, class) == Some(k as u16),
{
    let s = tidy(v);
    let unit: int = if holds(s, word("mph")) {
        1_609_344
    } else if holds(s, word("knots")) {
        1_852_000
    } else {
        1_000_000
    };
    let (n, d) = (digits_value(w + p), ten_to(p.len() as int));
    lemma_numeral(s, w, p, rest);
    lemma_no_word(s);
    lemma_next(s, 58, 0, s.len() as int);
    lemma_ten_pos(p.len() as int);
    lemma_digits_range(w + p);
    assert(n > 0) by {
        if n == 0 {
            assert(n * unit == 0) by (nonlinear_arith)
                requires
                    n == 0,
            ;
            assert((1000 * k - 499) * (d * 1_000_000) > 0) by (nonlinear_arith)
                requires
                    k >= 1,
                    d >= 1,
            ;
        }
    }
    lemma_not_lost(n, p.len() as int);
    lemma_speed_near(n, d, unit, k);
}

/// The number that a sign begins with.
proof fn lemma_numeral(s: Seq<u8>, w: Seq<u8>, p: Seq<u8>, rest: Seq<u8>)
    requires
        number_first(s, w, p, rest),
    ensures
        whole_digits(numeral(s)) == w,
        part_digits(numeral(s)) == p,
        all_digits(w + p),
        s.len() > 0,
        48 <= s[0] <= 57,
{
    let mid = if p.len() > 0 {
        seq![46u8] + p
    } else {
        Seq::empty()
    };
    let n = w.len() + mid.len();
    assert forall|j: int| 0 <= j < n implies is_digit(#[trigger] s[j]) || s[j] == 46 by {
        if j < w.len() {
            assert(s[j] == w[j]);
        } else {
            assert(s[j] == mid[j - w.len()]);
            if j > w.len() {
                assert(s[j] == p[j - w.len() - 1]);
            }
        }
    }
    if n < s.len() {
        assert(s[n as int] == rest[0]);
    }
    lemma_numeral_end(s, 0, n as int);
    let t = numeral(s);
    assert(t =~= w + mid);
    assert forall|j: int| 0 <= j < w.len() implies #[trigger] t[j] != 46 by {
        assert(t[j] == w[j]);
    }
    lemma_next(t, 46, 0, w.len() as int);
    assert(whole_digits(t) =~= w);
    assert(part_digits(t) =~= p);
    assert(s[0] == w[0]);
}

/// A number with so few digits after its point is none that is lost.
proof fn lemma_not_lost(n: int, digits: int)
    requires
        n > 0,
        0 <= digits <= 15,
    ensures
        n * pow2(1075) > ten_to(digits),
{
    reveal_with_fuel(ten_to, 17);
    vstd::arithmetic::power2::lemma2_to64();
    vstd::arithmetic::power2::lemma2_to64_rest();
    vstd::arithmetic::power2::lemma_pow2_strictly_increases(63, 1075);
    assert(ten_to(digits) <= 1_000_000_000_000_000);
    assert(n * pow2(1075) >= pow2(1075)) by (nonlinear_arith)
        requires
            n > 0,
            pow2(1075) >= 0,
    ;
}

/// Nothing comes of a number that is zero, or of what is no text.
pub proof fn lemma_no_speed(v: Seq<u8>, class: Class, w: Seq<u8>, p: Seq<u8>, rest: Seq<u8>)
    requires
        number_first(tidy(v), w, p, rest),
        digits_value(w + p) == 0 || !valid_utf8(v),
    ensures
        maxspeed_of(v, class) is None,
{
    let s = tidy(v);
    lemma_numeral(s, w, p, rest);
    lemma_no_word(s);
    lemma_next(s, 58, 0, s.len() as int);
    lemma_ten_pos(p.len() as int);
    if valid_utf8(v) {
        assert(0 * pow2(1075) == 0) by (nonlinear_arith);
    }
}

/// A zone of some country: what stands before a colon, and the name of the zone
/// behind it.
pub open spec fn in_zone(s: Seq<u8>, country: Seq<u8>, zone: Seq<u8>) -> bool {
    &&& s == country + seq![58u8] + zone
    &&& forall|i: int| 0 <= i < country.len() ==> #[trigger] country[i] != 58
    &&& forall|i: int| 0 <= i < zone.len() ==> #[trigger] zone[i] != 58
}

/// A word in small letters has no colon.
proof fn lemma_no_colon(s: Seq<u8>, i: int)
    requires
        0 <= i < s.len(),
        s[i] == 58,
    ensures
        s != word("none"),
        s != word("unlimited"),
        s != word("walk"),
{
    reveal_strlit("none");
    reveal_strlit("unlimited");
    reveal_strlit("walk");
    is_ascii_chars_encode_utf8("none"@);
    is_ascii_chars_encode_utf8("unlimited"@);
    is_ascii_chars_encode_utf8("walk"@);
    let (a, b, c) = ("none"@, "unlimited"@, "walk"@);
    if s == word("none") {
        assert(a[i] as u8 == s[i]);
    }
    if s == word("unlimited") {
        assert(b[i] as u8 == s[i]);
    }
    if s == word("walk") {
        assert(c[i] as u8 == s[i]);
    }
}

proof fn lemma_zone(v: Seq<u8>, class: Class, country: Seq<u8>, zone: Seq<u8>)
    requires
        valid_utf8(v),
        in_zone(tidy(v), country, zone),
        zone_kmh(zone) is Some,
    ensures
        maxspeed_of(v, class) == zone_kmh(zone),
{
    let s = tidy(v);
    let n = country.len() as int;
    assert(s[n] == 58);
    assert forall|j: int| 0 <= j < n implies #[trigger] s[j] != 58 by {
        assert(s[j] == country[j]);
    }
    lemma_next(s, 58, 0, n);
    assert forall|j: int| n + 1 <= j < s.len() implies #[trigger] s[j] != 58 by {
        assert(s[j] == zone[j - n - 1]);
    }
    lemma_next(s, 58, n + 1, s.len() as int);
    assert(s.subrange(n + 1, s.len() as int) =~= zone);
    lemma_no_colon(s, n);
}

/// A zone has one speed whatever the country and the class of the road; and of
/// two zones the one farther out of town is the faster.
pub proof fn lemma_zones(
    v: Seq<u8>,
    a: Class,
    country: Seq<u8>,
    w: Seq<u8>,
    b: Class,
    other: Seq<u8>,
    zone: Seq<u8>,
    faster: Seq<u8>,
)
    requires
        valid_utf8(v),
        valid_utf8(w),
        in_zone(tidy(v), country, zone),
        in_zone(tidy(w), other, faster),
        zone_rank(zone) is Some,
        zone_rank(faster) is Some,
    ensures
        maxspeed_of(v, a) is Some,
        zone == faster ==> maxspeed_of(v, a) == maxspeed_of(w, b),
        zone_rank(zone)->0 < zone_rank(faster)->0 ==> maxspeed_of(v, a)->0 < maxspeed_of(w, b)->0,
{
    lemma_zone_words();
    lemma_zone(v, a, country, zone);
    lemma_zone(w, b, other, faster);
}

/// How far out of town a zone is.
pub open spec fn zone_rank(z: Seq<u8>) -> Option<int> {
    if z == word("living_street") {
        Some(0)
    } else if z == word("urban") {
        Some(1)
    } else if z == word("rural") {
        Some(2)
    } else if z == word("trunk") {
        Some(3)
    } else if z == word("nsl_single") {
        Some(4)
    } else if z == word("nsl_dual") {
        Some(5)
    } else if z == word("motorway") {
        Some(6)
    } else {
        None
    }
}

proof fn lemma_zone_words()
    ensures
        forall|z: Seq<u8>| (#[trigger] zone_rank(z)) is Some ==> zone_kmh(z) is Some,
        forall|y: Seq<u8>, z: Seq<u8>|
            (#[trigger] zone_rank(y)) is Some && (#[trigger] zone_rank(z)) is Some && zone_rank(
                y,
            )->0 < zone_rank(z)->0 ==> zone_kmh(y)->0 < zone_kmh(z)->0,
{
    reveal_strlit("living_street");
    reveal_strlit("urban");
    reveal_strlit("rural");
    reveal_strlit("trunk");
    reveal_strlit("nsl_single");
    reveal_strlit("nsl_dual");
    reveal_strlit("motorway");
    is_ascii_chars_encode_utf8("living_street"@);
    is_ascii_chars_encode_utf8("urban"@);
    is_ascii_chars_encode_utf8("rural"@);
    is_ascii_chars_encode_utf8("trunk"@);
    is_ascii_chars_encode_utf8("nsl_single"@);
    is_ascii_chars_encode_utf8("nsl_dual"@);
    is_ascii_chars_encode_utf8("motorway"@);
    assert(word("urban")[0] == 'u' as u8 && word("rural")[0] == 'r' as u8 && word("trunk")[0]
        == 't' as u8);
    assert(word("nsl_single").len() == 10 && word("nsl_dual").len() == 8 && word("motorway").len()
        == 8 && word("living_street").len() == 13);
    assert(word("nsl_dual")[0] == 'n' as u8 && word("motorway")[0] == 'm' as u8);
}

} // verus!
