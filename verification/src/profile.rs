//! Which ways are drivable, how fast, which way, and what they cost.
//!
//! Every decision is made on the raw bytes of the tags.

use vstd::prelude::*;
use vstd::arithmetic::power2::{
    lemma2_to64, lemma2_to64_rest, lemma_pow2_adds, lemma_pow2_pos, lemma_pow2_strictly_increases,
    lemma_pow2_unfold, pow2,
};
use vstd::utf8::{decode_utf8, encode_utf8, valid_utf8};
use crate::addresses::entries::{all_digits, digits_value};
use crate::double::{
    keep, lemma_digits_join, lemma_digits_range, lemma_keep_bounds, lemma_keep_close, lemma_keep_half, lemma_ten_pos,
    nearest, quotient, read_decimal, settle, ten_to, vanishes, whole_of,
};
use crate::text::{
    has_word, holds, is_word, lower, lowered, trim, trim_of, utf8, word,
};

verus! {

/// Road class. Order matters: lower is more important.
#[derive(Clone, Copy, PartialEq, Eq, Debug, Structural)]
pub enum Class {
    Motorway,
    MotorwayLink,
    Trunk,
    TrunkLink,
    Primary,
    PrimaryLink,
    Secondary,
    SecondaryLink,
    Tertiary,
    TertiaryLink,
    Unclassified,
    Residential,
    LivingStreet,
    Service,
    Ferry,
    Other,
}

/// The class that a `highway` value stands for.
pub open spec fn highway_class(v: Seq<u8>) -> Option<Class> {
    if v == word("motorway") {
        Some(Class::Motorway)
    } else if v == word("motorway_link") {
        Some(Class::MotorwayLink)
    } else if v == word("trunk") {
        Some(Class::Trunk)
    } else if v == word("trunk_link") {
        Some(Class::TrunkLink)
    } else if v == word("primary") {
        Some(Class::Primary)
    } else if v == word("primary_link") {
        Some(Class::PrimaryLink)
    } else if v == word("secondary") {
        Some(Class::Secondary)
    } else if v == word("secondary_link") {
        Some(Class::SecondaryLink)
    } else if v == word("tertiary") {
        Some(Class::Tertiary)
    } else if v == word("tertiary_link") {
        Some(Class::TertiaryLink)
    } else if v == word("unclassified") {
        Some(Class::Unclassified)
    } else if v == word("residential") {
        Some(Class::Residential)
    } else if v == word("living_street") {
        Some(Class::LivingStreet)
    } else if v == word("service") {
        Some(Class::Service)
    } else if v == word("road") || v == word("busway") {
        Some(Class::Other)
    } else {
        None
    }
}

/// Free-flow speed of a class in km/h.
pub open spec fn class_kmh(c: Class) -> u16 {
    match c {
        Class::Motorway => 100,
        Class::MotorwayLink => 60,
        Class::Trunk => 85,
        Class::TrunkLink => 50,
        Class::Primary => 65,
        Class::PrimaryLink => 40,
        Class::Secondary => 55,
        Class::SecondaryLink => 35,
        Class::Tertiary => 40,
        Class::TertiaryLink => 30,
        Class::Unclassified => 30,
        Class::Residential => 25,
        Class::LivingStreet => 10,
        Class::Service => 15,
        Class::Ferry => 20,
        Class::Other => 25,
    }
}

/// The number of a class in the packed attribute.
pub open spec fn class_code(c: Class) -> u8 {
    match c {
        Class::Motorway => 0,
        Class::MotorwayLink => 1,
        Class::Trunk => 2,
        Class::TrunkLink => 3,
        Class::Primary => 4,
        Class::PrimaryLink => 5,
        Class::Secondary => 6,
        Class::SecondaryLink => 7,
        Class::Tertiary => 8,
        Class::TertiaryLink => 9,
        Class::Unclassified => 10,
        Class::Residential => 11,
        Class::LivingStreet => 12,
        Class::Service => 13,
        Class::Ferry => 14,
        Class::Other => 15,
    }
}

/// Rank of a class: 0 is the long-distance backbone.
pub open spec fn class_tier(c: Class) -> u8 {
    match c {
        Class::Motorway | Class::MotorwayLink | Class::Trunk | Class::TrunkLink => 0,
        Class::Primary | Class::PrimaryLink | Class::Ferry => 1,
        Class::Secondary | Class::SecondaryLink => 2,
        Class::Tertiary | Class::TertiaryLink => 3,
        _ => 4,
    }
}

impl Class {
    pub fn from_highway(v: &[u8]) -> (r: Option<Class>)
        ensures
            r == highway_class(v@),
    {
        if is_word(v, "motorway") {
            return Some(Class::Motorway);
        }
        if is_word(v, "motorway_link") {
            return Some(Class::MotorwayLink);
        }
        if is_word(v, "trunk") {
            return Some(Class::Trunk);
        }
        if is_word(v, "trunk_link") {
            return Some(Class::TrunkLink);
        }
        if is_word(v, "primary") {
            return Some(Class::Primary);
        }
        if is_word(v, "primary_link") {
            return Some(Class::PrimaryLink);
        }
        if is_word(v, "secondary") {
            return Some(Class::Secondary);
        }
        if is_word(v, "secondary_link") {
            return Some(Class::SecondaryLink);
        }
        if is_word(v, "tertiary") {
            return Some(Class::Tertiary);
        }
        if is_word(v, "tertiary_link") {
            return Some(Class::TertiaryLink);
        }
        if is_word(v, "unclassified") {
            return Some(Class::Unclassified);
        }
        if is_word(v, "residential") {
            return Some(Class::Residential);
        }
        if is_word(v, "living_street") {
            return Some(Class::LivingStreet);
        }
        if is_word(v, "service") {
            return Some(Class::Service);
        }
        if is_word(v, "road") || is_word(v, "busway") {
            return Some(Class::Other);
        }
        None
    }

    /// Default free-flow speed in km/h when the way carries no `maxspeed`.
    pub fn default_kmh(self) -> (k: u16)
        ensures
            k == class_kmh(self),
    {
        match self {
            Class::Motorway => 100,
            Class::MotorwayLink => 60,
            Class::Trunk => 85,
            Class::TrunkLink => 50,
            Class::Primary => 65,
            Class::PrimaryLink => 40,
            Class::Secondary => 55,
            Class::SecondaryLink => 35,
            Class::Tertiary => 40,
            Class::TertiaryLink => 30,
            Class::Unclassified => 30,
            Class::Residential => 25,
            Class::LivingStreet => 10,
            Class::Service => 15,
            Class::Ferry => 20,
            Class::Other => 25,
        }
    }

    pub fn code(self) -> (k: u8)
        ensures
            k == class_code(self),
            k < 16,
    {
        match self {
            Class::Motorway => 0,
            Class::MotorwayLink => 1,
            Class::Trunk => 2,
            Class::TrunkLink => 3,
            Class::Primary => 4,
            Class::PrimaryLink => 5,
            Class::Secondary => 6,
            Class::SecondaryLink => 7,
            Class::Tertiary => 8,
            Class::TertiaryLink => 9,
            Class::Unclassified => 10,
            Class::Residential => 11,
            Class::LivingStreet => 12,
            Class::Service => 13,
            Class::Ferry => 14,
            Class::Other => 15,
        }
    }

    /// Rank used by the hierarchy filter.
    pub fn tier(self) -> (t: u8)
        ensures
            t == class_tier(self),
    {
        match self {
            Class::Motorway | Class::MotorwayLink | Class::Trunk | Class::TrunkLink => 0,
            Class::Primary | Class::PrimaryLink | Class::Ferry => 1,
            Class::Secondary | Class::SecondaryLink => 2,
            Class::Tertiary | Class::TertiaryLink => 3,
            _ => 4,
        }
    }
}

#[derive(Clone, Copy, PartialEq, Eq, Debug, Structural)]
pub enum OneWay {
    No,
    Forward,
    Backward,
}

/// Everything the builder needs from one accepted way.
#[derive(Clone, Copy, Debug)]
pub struct WayAttr {
    pub class: Class,
    pub oneway: OneWay,
    pub kmh: u16,
    pub toll: bool,
    pub bridge: bool,
    pub tunnel: bool,
    pub roundabout: bool,
    /// String-table index of the name, or `NO_STR`.
    pub name_idx: u32,
    /// String-table index of the road number, or `NO_STR`.
    pub ref_idx: u32,
}

pub const NO_STR: u32 = u32::MAX;

pub open spec fn is_true(v: Seq<u8>) -> bool {
    ||| v == word("yes")
    ||| v == word("true")
    ||| v == word("1")
    ||| v == word("designated")
    ||| v == word("permissive")
}

pub open spec fn is_false(v: Seq<u8>) -> bool {
    ||| v == word("no")
    ||| v == word("false")
    ||| v == word("0")
    ||| v == word("private")
    ||| v == word("agricultural")
    ||| v == word("forestry")
    ||| v == word("delivery")
    ||| v == word("customers")
}

fn truthy(v: &[u8]) -> (r: bool)
    ensures
        r == is_true(v@),
{
    is_word(v, "yes")
        || is_word(v, "true")
        || is_word(v, "1")
        || is_word(v, "designated")
        || is_word(v, "permissive")
}

fn falsy(v: &[u8]) -> (r: bool)
    ensures
        r == is_false(v@),
{
    is_word(v, "no")
        || is_word(v, "false")
        || is_word(v, "0")
        || is_word(v, "private")
        || is_word(v, "agricultural")
        || is_word(v, "forestry")
        || is_word(v, "delivery")
        || is_word(v, "customers")
}

// ------------------------------------------------------------------ maxspeed

/// The speed of a zone that countries define.
pub open spec fn zone_kmh(z: Seq<u8>) -> Option<u16> {
    if z == word("urban") {
        Some(50)
    } else if z == word("rural") {
        Some(80)
    } else if z == word("motorway") {
        Some(120)
    } else if z == word("living_street") {
        Some(7)
    } else if z == word("nsl_single") {
        Some(96)
    } else if z == word("nsl_dual") {
        Some(112)
    } else if z == word("trunk") {
        Some(90)
    } else {
        None
    }
}

fn zone(z: &[u8]) -> (r: Option<u16>)
    ensures
        r == zone_kmh(z@),
{
    if is_word(z, "urban") {
        return Some(50);
    }
    if is_word(z, "rural") {
        return Some(80);
    }
    if is_word(z, "motorway") {
        return Some(120);
    }
    if is_word(z, "living_street") {
        return Some(7);
    }
    if is_word(z, "nsl_single") {
        return Some(96);
    }
    if is_word(z, "nsl_dual") {
        return Some(112);
    }
    if is_word(z, "trunk") {
        return Some(90);
    }
    None
}

/// Where the first `b` from `i` on stands, or the end.
pub open spec fn next_of(s: Seq<u8>, b: u8, i: int) -> int
    decreases s.len() - i,
{
    if i >= s.len() || s[i] == b {
        i
    } else {
        next_of(s, b, i + 1)
    }
}

fn find(s: &[u8], b: u8, from: usize) -> (i: usize)
    requires
        from <= s@.len(),
    ensures
        i == next_of(s@, b, from as int),
        from <= i <= s@.len(),
{
    let mut i: usize = from;
    while i < s.len() && s[i] != b
        invariant
            from <= i <= s@.len(),
            next_of(s@, b, i as int) == next_of(s@, b, from as int),
        decreases s@.len() - i,
    {
        i += 1;
    }
    i
}

/// What stands between the first colon and the next.
pub open spec fn second_part(s: Seq<u8>) -> Option<Seq<u8>> {
    let i = next_of(s, 58, 0);
    if i >= s.len() {
        None
    } else {
        Some(s.subrange(i + 1, next_of(s, 58, i + 1)))
    }
}

pub open spec fn is_digit(b: u8) -> bool {
    48 <= b <= 57
}

/// How many digits and points `s` begins with, from `i` on.
pub open spec fn numeral_end(s: Seq<u8>, i: int) -> int
    decreases s.len() - i,
{
    if i >= s.len() || !(is_digit(s[i]) || s[i] == 46) {
        i
    } else {
        numeral_end(s, i + 1)
    }
}

/// The digits and points that `s` begins with.
pub open spec fn numeral(s: Seq<u8>) -> Seq<u8> {
    s.take(numeral_end(s, 0))
}

/// The digits before the point.
pub open spec fn whole_digits(s: Seq<u8>) -> Seq<u8> {
    s.take(next_of(s, 46, 0))
}

/// The digits after it.
pub open spec fn part_digits(s: Seq<u8>) -> Seq<u8> {
    let i = next_of(s, 46, 0);
    if i >= s.len() {
        Seq::empty()
    } else {
        s.skip(i + 1)
    }
}

/// There is a digit, and no second point.
pub open spec fn is_numeral(s: Seq<u8>) -> bool {
    all_digits(part_digits(s)) && whole_digits(s).len() + part_digits(s).len() > 0
}

/// What all the digits are worth, the point aside.
pub open spec fn figure(s: Seq<u8>) -> int {
    digits_value(whole_digits(s) + part_digits(s))
}

/// What a figure is divided by for the digits after the point.
pub open spec fn divisor(s: Seq<u8>) -> int {
    ten_to(part_digits(s).len() as int)
}

/// A unit of `millionths` of a km/h, `num` over `den` times, as a binary64 has
/// it: the number and the unit are kept first, and then what they come to.
pub open spec fn kmh_at(num: int, den: int, millionths: int) -> (int, nat) {
    let n = keep(num, den);
    if millionths == 1_000_000 {
        n
    } else {
        let c = keep(millionths, 1_000_000);
        keep(n.0 * c.0, pow2(n.1 + c.1) as int)
    }
}

/// To the nearest whole, between 1 and 255.
pub open spec fn held_speed(v: (int, nat)) -> u16 {
    let k = nearest(v.0, pow2(v.1) as int);
    if k < 1 {
        1
    } else if k > 255 {
        255
    } else {
        k as u16
    }
}

/// What a unit of the value is in millionths of a km/h.
pub open spec fn unit_of(s: Seq<u8>) -> int {
    if holds(s, word("mph")) {
        1_609_344
    } else if holds(s, word("knots")) {
        1_852_000
    } else {
        1_000_000
    }
}

/// A `maxspeed` value, trimmed and in small letters, in km/h.
pub open spec fn speed_of(s: Seq<u8>, class: Class) -> Option<u16> {
    if s.len() == 0 {
        None
    } else if s == word("none") || s == word("unlimited") {
        Some(
            if class == Class::Motorway {
                130
            } else {
                90
            },
        )
    } else if s == word("walk") {
        Some(7)
    } else if second_part(s) is Some && zone_kmh(second_part(s)->0) is Some {
        zone_kmh(second_part(s)->0)
    } else {
        let n = numeral(s);
        if !is_numeral(n) || figure(n) * pow2(1075) <= divisor(n) {
            None
        } else {
            Some(held_speed(kmh_at(figure(n), divisor(n), unit_of(s))))
        }
    }
}

/// The value as it is looked at: trimmed, in small letters.
pub open spec fn tidy(v: Seq<u8>) -> Seq<u8> {
    lower(encode_utf8(trim_of(decode_utf8(v))))
}

pub open spec fn maxspeed_of(v: Seq<u8>, class: Class) -> Option<u16> {
    if !valid_utf8(v) {
        None
    } else {
        speed_of(tidy(v), class)
    }
}

/// A figure is its whole part and what follows the point.
proof fn lemma_figure(s: Seq<u8>)
    requires
        all_digits(whole_digits(s)),
        all_digits(part_digits(s)),
    ensures
        figure(s) == digits_value(whole_digits(s)) * divisor(s) + digits_value(part_digits(s)),
        0 <= digits_value(part_digits(s)) < divisor(s),
        0 <= digits_value(whole_digits(s)),
        divisor(s) >= 1,
        figure(s) >= 0,
{
    let (w, p) = (whole_digits(s), part_digits(s));
    lemma_digits_join(w, p);
    lemma_digits_range(w);
    lemma_digits_range(p);
    lemma_ten_pos(p.len() as int);
    let (x, t) = (digits_value(w), divisor(s));
    assert(x * t >= 0) by (nonlinear_arith)
        requires
            x >= 0,
            t >= 1,
    ;
}

/// A number as it is written: its whole part, held at 256, and the digits after
/// the point.
fn read_numeral(s: &[u8]) -> (r: Option<(u64, Vec<u8>)>)
    ensures
        r is Some == is_numeral(numeral(s@)),
        r matches Some((w, p)) ==> {
            let n = numeral(s@);
            &&& all_digits(whole_digits(n))
            &&& p@ == part_digits(n)
            &&& w == (if digits_value(whole_digits(n)) > 256 {
                256
            } else {
                digits_value(whole_digits(n))
            })
        },
{
    let ghost n = numeral(s@);
    let mut w: u64 = 0;
    let mut i: usize = 0;
    assert(s@.take(0) =~= Seq::<u8>::empty());
    while i < s.len() && s[i] >= 48 && s[i] <= 57
        invariant
            i <= s@.len(),
            numeral_end(s@, i as int) == numeral_end(s@, 0),
            forall|x: int| 0 <= x < i ==> 48 <= #[trigger] s@[x] <= 57,
            digits_value(s@.take(i as int)) >= 0,
            w == (if digits_value(s@.take(i as int)) > 256 {
                256
            } else {
                digits_value(s@.take(i as int))
            }),
        decreases s@.len() - i,
    {
        assert(s@.take(i + 1).drop_last() =~= s@.take(i as int));
        let d: u64 = (s[i] - 48) as u64;
        w = if w * 10 + d > 256 {
            256
        } else {
            w * 10 + d
        };
        i += 1;
    }
    let ghost at = i as int;
    let mut p: Vec<u8> = Vec::new();
    let mut fine: bool = true;
    if i < s.len() && s[i] == 46 {
        i += 1;
        while i < s.len() && ((s[i] >= 48 && s[i] <= 57) || s[i] == 46)
            invariant
                0 <= at < i <= s@.len(),
                numeral_end(s@, i as int) == numeral_end(s@, 0),
                p@ == s@.subrange(at + 1, i as int),
                fine == all_digits(p@),
                forall|x: int| 0 <= x < i ==> is_digit(#[trigger] s@[x]) || s@[x] == 46,
            decreases s@.len() - i,
        {
            let b: u8 = s[i];
            let ghost p0 = p@;
            if b == 46 {
                fine = false;
            }
            p.push(b);
            proof {
                assert(p@ =~= s@.subrange(at + 1, i + 1));
                if p0 != p@ {
                    assert(p@.last() == b);
                    if all_digits(p0) && b != 46 {
                        assert forall|x: int| 0 <= x < p@.len() implies 48 <= #[trigger] p@[x] <= 57 by {
                            if x < p0.len() {
                                assert(p@[x] == p0[x]);
                            }
                        }
                    }
                    if all_digits(p@) {
                        assert(48 <= p@[p0.len() as int] <= 57);
                        assert forall|x: int| 0 <= x < p0.len() implies 48 <= #[trigger] p0[x] <= 57 by {
                            assert(p@[x] == p0[x]);
                        }
                    }
                }
            }
            i += 1;
        }
    }
    proof {
        assert(numeral_end(s@, 0) == i);
        assert(n == s@.take(i as int));
        lemma_next(n, 46, 0, at);
        assert(whole_digits(n) =~= s@.take(at));
        assert(part_digits(n) =~= p@);
    }
    if !fine || i == 0 || (p.len() == 0 && i == 1 && s[0] == 46) {
        return None;
    }
    Some((w, p))
}

proof fn lemma_next(s: Seq<u8>, b: u8, i: int, at: int)
    requires
        0 <= i <= at <= s.len(),
        forall|x: int| i <= x < at ==> #[trigger] s[x] != b,
        at < s.len() ==> s[at] == b,
    ensures
        next_of(s, b, i) == at,
    decreases at - i,
{
    if i < at {
        lemma_next(s, b, i + 1, at);
    }
}

/// A unit between one and two km/h.
proof fn lemma_unit(millionths: int)
    requires
        1_000_000 < millionths <= 2_000_000,
    ensures
        ({
            let c = keep(millionths, 1_000_000);
            pow2(c.1) <= c.0 <= 2 * pow2(c.1)
        }),
{
    lemma_keep_bounds(millionths, 1_000_000, 1);
    lemma_keep_bounds(millionths, 1_000_000, 2);
}

/// A number of 256 or more is held at 255 in any unit.
proof fn lemma_fast(num: int, den: int, millionths: int)
    requires
        den >= 1,
        num >= 256 * den,
        1_000_000 <= millionths <= 2_000_000,
    ensures
        held_speed(kmh_at(num, den, millionths)) == 255,
{
    let n = keep(num, den);
    let v = kmh_at(num, den, millionths);
    lemma_keep_bounds(num, den, 256);
    lemma_pow2_pos(n.1);
    if millionths != 1_000_000 {
        let c = keep(millionths, 1_000_000);
        lemma_unit(millionths);
        lemma_pow2_pos(c.1);
        lemma_pow2_adds(n.1, c.1);
        lemma_pow2_pos(n.1 + c.1);
        assert(n.0 * c.0 >= 256 * (pow2(n.1) * pow2(c.1))) by (nonlinear_arith)
            requires
                n.0 >= 256 * pow2(n.1),
                c.0 >= pow2(c.1),
                pow2(n.1) > 0,
                pow2(c.1) > 0,
        ;
        lemma_keep_bounds(n.0 * c.0, pow2(n.1 + c.1) as int, 256);
    }
    let p = pow2(v.1) as int;
    lemma_pow2_pos(v.1);
    assert((2 * v.0 + p) / (2 * p) >= 256) by (nonlinear_arith)
        requires
            v.0 >= 256 * p,
            p > 0,
    ;
}

/// A number of less than a half is held at 1 in any unit.
proof fn lemma_slow(num: int, den: int, millionths: int)
    requires
        den >= 1,
        0 <= num,
        2 * num <= den,
        1_000_000 <= millionths <= 2_000_000,
    ensures
        held_speed(kmh_at(num, den, millionths)) == 1,
{
    let n = keep(num, den);
    let v = kmh_at(num, den, millionths);
    lemma_keep_half(num, den);
    lemma_keep_bounds(num, den, 1);
    lemma_pow2_pos(n.1);
    if millionths != 1_000_000 {
        let c = keep(millionths, 1_000_000);
        lemma_unit(millionths);
        lemma_pow2_pos(c.1);
        lemma_pow2_adds(n.1, c.1);
        lemma_pow2_pos(n.1 + c.1);
        assert(0 <= n.0 * c.0 <= pow2(n.1) * pow2(c.1)) by (nonlinear_arith)
            requires
                0 <= n.0,
                2 * n.0 <= pow2(n.1),
                0 <= c.0 <= 2 * pow2(c.1),
                pow2(c.1) > 0,
        ;
        lemma_keep_bounds(n.0 * c.0, pow2(n.1 + c.1) as int, 1);
    }
    let p = pow2(v.1) as int;
    lemma_pow2_pos(v.1);
    assert((2 * v.0 + p) / (2 * p) <= 1) by (nonlinear_arith)
        requires
            0 <= v.0 <= p,
            p > 0,
    ;
}

/// One part in two to the fifty-second is less than one in a billion.
proof fn lemma_billion(x: int, y: int)
    requires
        x >= 0,
        0xF_FFFF_FFFF_FFFF * x <= 0x10_0000_0000_0000 * y,
        0x10_0000_0000_0000 * y <= 0x10_0000_0000_0001 * x,
    ensures
        999_999_999 * x <= 1_000_000_000 * y,
        1_000_000_000 * y <= 1_000_000_001 * x,
{
}

/// Three roundings to fifty-three bits do not move a number that keeps a
/// thousandth away from the halves: what is between `lo` and `hi` thousandths
/// of `den` stays within half of `k`.
proof fn lemma_thrice(
    num: int,
    den: int,
    unit: int,
    k: int,
    m: int,
    p: int,
    c: int,
    q: int,
    r: int,
    w: int,
)
    requires
        num > 0,
        den > 0,
        unit > 0,
        p > 0,
        q > 0,
        w > 0,
        m > 0,
        c > 0,
        r > 0,
        1 <= k <= 255,
        999_999_999 * (num * p) <= 1_000_000_000 * (m * den) <= 1_000_000_001 * (
        num * p),
        999_999_999 * (unit * q) <= 1_000_000_000 * (c * 1_000_000)
            <= 1_000_000_001 * (unit * q),
        999_999_999 * ((m * c) * w) <= 1_000_000_000 * (r * (p * q))
            <= 1_000_000_001 * ((m * c) * w),
        (1000 * k - 499) * (den * 1_000_000) <= 1000 * (num * unit),
        1000 * (num * unit) <= (1000 * k + 499) * (den * 1_000_000),
    ensures
        (2 * k - 1) * w <= 2 * r < (2 * k + 1) * w,
{
    let e: int = 1_000_000_000;
    let (np, md) = (num * p, m * den);
    let (uq, cu) = (unit * q, c * 1_000_000);
    let both = md * cu;
    let exact = np * uq;
    assert(np > 0 && md > 0 && uq > 0 && cu > 0) by (nonlinear_arith)
        requires
            np == num * p,
            md == m * den,
            uq == unit * q,
            cu == c * 1_000_000,
            num > 0,
            p > 0,
            m > 0,
            den > 0,
            unit > 0,
            q > 0,
            c > 0,
    ;
    assert((e - 1) * (e - 1) * exact <= e * e * both && e * e * both <= (e + 1) * (e + 1) * exact)
        by (nonlinear_arith)
        requires
            (e - 1) * np <= e * md <= (e + 1) * np,
            (e - 1) * uq <= e * cu <= (e + 1) * uq,
            both == md * cu,
            exact == np * uq,
            np > 0,
            uq > 0,
            md > 0,
            cu > 0,
            e == 1_000_000_000,
    {
        assert((e - 1) * np * ((e - 1) * uq) <= (e * md) * (e * cu)) by (nonlinear_arith)
            requires
                0 <= (e - 1) * np <= e * md,
                0 <= (e - 1) * uq <= e * cu,
        ;
        assert((e * md) * (e * cu) <= ((e + 1) * np) * ((e + 1) * uq)) by (nonlinear_arith)
            requires
                0 <= e * md <= (e + 1) * np,
                0 <= e * cu <= (e + 1) * uq,
        ;
    }
    let d = den * 1_000_000;
    let pq = p * q;
    let nu = num * unit;
    assert(exact == nu * pq) by (nonlinear_arith)
        requires
            exact == (num * p) * (unit * q),
            nu == num * unit,
            pq == p * q,
    ;
    assert(both == (m * c) * d) by (nonlinear_arith)
        requires
            both == (m * den) * (c * 1_000_000),
            d == den * 1_000_000,
    ;
    assert(m * c > 0 && pq > 0 && nu > 0) by (nonlinear_arith)
        requires
            pq == p * q,
            nu == num * unit,
            m > 0,
            c > 0,
            p > 0,
            q > 0,
            num > 0,
            unit > 0,
    ;
    lemma_thrice_end(k, m * c, pq, nu, d, r, w);
}

proof fn lemma_cubes(rt: int, yw: int, ktw: int, tw: int)
    requires
        tw > 0,
        tw <= ktw <= 255 * tw,
        1000 * ktw - 499 * tw <= 1000 * yw <= 1000 * ktw + 499 * tw,
        1_000_000_000 * 1_000_000_000 * 1_000_000_000 * rt <= 1_000_000_001 * (
        1_000_000_001 * 1_000_000_001 * yw),
        1_000_000_000 * 1_000_000_000 * 1_000_000_000 * rt >= 999_999_999 * (
        999_999_999 * 999_999_999 * yw),
    ensures
        2 * ktw - tw <= 2 * rt,
        2 * rt < 2 * ktw + tw,
{
    let a: int = 1_000_000_000_000_000_000_000_000_000;
    let b: int = 1_000_000_003_000_000_003_000_000_001;
    let c: int = 999_999_997_000_000_002_999_999_999;
    assert(1_000_000_000 * 1_000_000_000 * 1_000_000_000 == a);
    assert(1_000_000_001 * (1_000_000_001 * 1_000_000_001) == b);
    assert(999_999_999 * (999_999_999 * 999_999_999) == c);
    assert(a * rt <= b * yw && a * rt >= c * yw) by (nonlinear_arith)
        requires
            1_000_000_000 * 1_000_000_000 * 1_000_000_000 * rt
                <= 1_000_000_001 * (1_000_000_001 * 1_000_000_001 * yw),
            1_000_000_000 * 1_000_000_000 * 1_000_000_000 * rt
                >= 999_999_999 * (999_999_999 * 999_999_999 * yw),
            1_000_000_000 * 1_000_000_000 * 1_000_000_000 == a,
            1_000_000_001 * (1_000_000_001 * 1_000_000_001) == b,
            999_999_999 * (999_999_999 * 999_999_999) == c,
    ;
}

proof fn lemma_thrice_end(k: int, mc: int, pq: int, nu: int, d: int, r: int, w: int)
    requires
        mc > 0,
        pq > 0,
        nu > 0,
        d > 0,
        r > 0,
        w > 0,
        1 <= k <= 255,
        999_999_999 * 999_999_999 * (nu * pq) <= 1_000_000_000
            * 1_000_000_000 * (mc * d),
        1_000_000_000 * 1_000_000_000 * (mc * d) <= 1_000_000_001
            * 1_000_000_001 * (nu * pq),
        999_999_999 * (mc * w) <= 1_000_000_000 * (r * pq),
        1_000_000_000 * (r * pq) <= 1_000_000_001 * (mc * w),
        (1000 * k - 499) * d <= 1000 * nu,
        1000 * nu <= (1000 * k + 499) * d,
    ensures
        (2 * k - 1) * w <= 2 * r < (2 * k + 1) * w,
{
    let (e, lo, hi): (int, int, int) = (
        1_000_000_000,
        999_999_999,
        1_000_000_001,
    );
    // Times d and w, and with the two roundings put together.
    let (x, y) = (mc * d, nu * pq);
    let rpd = (r * pq) * d;
    let mwd = x * w;
    assert(lo * mwd <= e * rpd && e * rpd <= hi * mwd) by (nonlinear_arith)
        requires
            lo * (mc * w) <= e * (r * pq) <= hi * (mc * w),
            rpd == (r * pq) * d,
            mwd == (mc * d) * w,
            d > 0,
    ;
    let yw = y * w;
    assert(lo * lo * yw <= e * e * mwd && e * e * mwd <= hi * hi * yw) by (nonlinear_arith)
        requires
            lo * lo * y <= e * e * x <= hi * hi * y,
            mwd == x * w,
            yw == y * w,
            w > 0,
    ;
    let t = pq * d;
    assert(rpd == r * t) by (nonlinear_arith)
        requires
            rpd == (r * pq) * d,
            t == pq * d,
    ;
    assert((1000 * k - 499) * (t * w) <= 1000 * yw && 1000 * yw <= (1000 * k + 499) * (t * w))
        by (nonlinear_arith)
        requires
            (1000 * k - 499) * d <= 1000 * nu <= (1000 * k + 499) * d,
            yw == (nu * pq) * w,
            t == pq * d,
            pq > 0,
            w > 0,
    ;
    let tw = t * w;
    assert(tw > 0 && t > 0) by (nonlinear_arith)
        requires
            t == pq * d,
            tw == t * w,
            pq > 0,
            d > 0,
            w > 0,
    ;
    let (ktw, rt) = (k * tw, r * t);
    assert((1000 * k - 499) * tw == 1000 * ktw - 499 * tw && (1000 * k + 499) * tw == 1000 * ktw + 499
        * tw) by (nonlinear_arith)
        requires
            ktw == k * tw,
    ;
    assert(ktw <= 255 * tw && ktw >= tw) by (nonlinear_arith)
        requires
            ktw == k * tw,
            1 <= k <= 255,
            tw > 0,
    ;
    // All is linear now in rt, ktw and tw.
    assert(e * e * e * rt <= hi * (e * e * mwd) && e * e * e * rt >= lo * (e * e * mwd))
        by (nonlinear_arith)
        requires
            lo * mwd <= e * rt <= hi * mwd,
            e > 0,
    ;
    assert(e * e * e * rt <= hi * (hi * hi * yw) && e * e * e * rt >= lo * (lo * lo * yw))
        by (nonlinear_arith)
        requires
            e * e * e * rt <= hi * (e * e * mwd),
            e * e * e * rt >= lo * (e * e * mwd),
            lo * lo * yw <= e * e * mwd <= hi * hi * yw,
            lo > 0,
            hi > 0,
    ;
    lemma_cubes(rt, yw, ktw, tw);
    assert(2 * ktw - tw <= 2 * rt && 2 * rt < 2 * ktw + tw);
    assert((2 * k - 1) * w <= 2 * r && 2 * r < (2 * k + 1) * w) by (nonlinear_arith)
        requires
            2 * (k * (t * w)) - t * w <= 2 * (r * t),
            2 * (r * t) < 2 * (k * (t * w)) + t * w,
            t > 0,
    ;
}

/// A number in a unit comes to the whole number that it is nearest to, unless
/// it lies within a thousandth of the middle between two.
pub proof fn lemma_speed_near(num: int, den: int, millionths: int, k: int)
    requires
        num > 0,
        den > 0,
        1_000_000 <= millionths <= 2_000_000,
        1 <= k <= 255,
        (1000 * k - 499) * (den * 1_000_000) <= 1000 * (num * millionths),
        1000 * (num * millionths) <= (1000 * k + 499) * (den * 1_000_000),
    ensures
        held_speed(kmh_at(num, den, millionths)) == k,
{
    let (m, e) = keep(num, den);
    let p = pow2(e) as int;
    lemma_pow2_pos(e);
    lemma_keep_close(num, den);
    assert(num * p >= 0) by (nonlinear_arith)
        requires
            num > 0,
            p > 0,
    ;
    lemma_billion(num * p, m * den);
    let (r, f) = kmh_at(num, den, millionths);
    let w = pow2(f) as int;
    lemma_pow2_pos(f);
    if millionths == 1_000_000 {
        lemma_thrice(num, den, 1_000_000, k, m, p, 1, 1, m, p);
    } else {
        let (c, g) = keep(millionths, 1_000_000);
        let q = pow2(g) as int;
        lemma_pow2_pos(g);
        lemma_keep_close(millionths, 1_000_000);
        assert(millionths * q >= 0) by (nonlinear_arith)
            requires
                millionths > 0,
                q > 0,
        ;
        lemma_billion(millionths * q, c * 1_000_000);
        lemma_pow2_adds(e, g);
        assert(m * c > 0 && p * q > 0) by (nonlinear_arith)
            requires
                m > 0,
                c > 0,
                p > 0,
                q > 0,
        ;
        lemma_keep_close(m * c, pow2(e + g) as int);
        assert((m * c) * w >= 0) by (nonlinear_arith)
            requires
                m * c > 0,
                w > 0,
        ;
        lemma_billion((m * c) * w, r * (p * q));
        lemma_thrice(num, den, millionths, k, m, p, c, q, r, w);
    }
    assert((2 * r + w) / (2 * w) == k) by (nonlinear_arith)
        requires
            (2 * k - 1) * w <= 2 * r < (2 * k + 1) * w,
            w > 0,
    ;
}

/// The speed that a number in a unit comes to.
#[verifier::rlimit(40)]
fn speed_in(w: u64, d: &Vec<u8>, millionths: u64) -> (k: u16)
    requires
        w < 256,
        all_digits(d@),
        w > 0 || 2 * digits_value(d@) >= ten_to(d@.len() as int),
        1_000_000 <= millionths <= 2_000_000,
    ensures
        k == held_speed(
            kmh_at(
                w * ten_to(d@.len() as int) + digits_value(d@),
                ten_to(d@.len() as int),
                millionths as int,
            ),
        ),
{
    let ghost t = ten_to(d@.len() as int);
    let ghost x = w * t + digits_value(d@);
    let (n, e): (u64, u32) = read_decimal(w, d);
    proof {
        lemma_ten_pos(d@.len() as int);
        lemma_digits_range(d@);
        assert(0 <= x <= 256 * t) by (nonlinear_arith)
            requires
                x == w * t + digits_value(d@),
                0 <= digits_value(d@) <= t,
                0 <= w <= 255,
                t >= 1,
        ;
        lemma_keep_bounds(x, t, 256);
    }
    let (m, b): (u64, u32) = if millionths == 1_000_000 {
        (n, e)
    } else {
        let (c, f): (u64, u32) = quotient(millionths, 1_000_000);
        proof {
            lemma_unit(millionths as int);
            lemma2_to64();
            lemma2_to64_rest();
            if f > 53 {
                let j = (f - 1) as nat;
                if j > 53 {
                    lemma_pow2_strictly_increases(53, j);
                }
                assert(millionths * pow2(j) >= 1_000_000 * 0x20_0000_0000_0000) by (nonlinear_arith)
                    requires
                        millionths >= 1_000_000,
                        pow2(j) >= 0x20_0000_0000_0000,
                ;
            }
            lemma_pow2_adds(e as nat, f as nat);
            lemma_pow2_pos(e as nat);
            lemma_pow2_pos(f as nat);
            assert(0 < n * c <= 0x20_0000_0000_0000 * 0x20_0000_0000_0000) by (nonlinear_arith)
                requires
                    0 < n <= 0x20_0000_0000_0000,
                    0 < c <= 0x20_0000_0000_0000,
            ;
            assert(n * c >= 0x10_0000_0000_0000) by (nonlinear_arith)
                requires
                    n > 0,
                    c >= 0x10_0000_0000_0000,
            ;
            assert(n * c <= 512 * (pow2(e as nat) * pow2(f as nat))) by (nonlinear_arith)
                requires
                    0 <= n <= 256 * pow2(e as nat),
                    0 <= c <= 2 * pow2(f as nat),
            ;
        }
        settle(n as u128 * c as u128, e + f)
    };
    let k: u128 = whole_of(m, b);
    if k < 1 {
        1
    } else if k > 255 {
        255
    } else {
        k as u16
    }
}

/// Parse a `maxspeed` value into km/h: the plain number, `N mph`, `walk`,
/// `none`, and the country zones.
pub fn parse_maxspeed(v: &[u8], class: Class) -> (r: Option<u16>)
    ensures
        r == maxspeed_of(v@, class),
{
    let text: &str = match utf8(v) {
        None => {
            return None;
        },
        Some(t) => t,
    };
    let low: Vec<u8> = lowered(trim(text).as_bytes());
    if low.len() == 0 {
        return None;
    }
    if is_word(&low, "none") || is_word(&low, "unlimited") {
        return Some(
            if class == Class::Motorway {
                130
            } else {
                90
            },
        );
    }
    if is_word(&low, "walk") {
        return Some(7);
    }
    let at: usize = find(&low, 58, 0);
    if at < low.len() {
        let end: usize = find(&low, 58, at + 1);
        let part: &[u8] = vstd::slice::slice_subrange(low.as_slice(), at + 1, end);
        let z: Option<u16> = zone(part);
        if z.is_some() {
            return z;
        }
    }
    let (w, d): (u64, Vec<u8>) = match read_numeral(&low) {
        None => {
            return None;
        },
        Some(x) => x,
    };
    let unit: u64 = if has_word(&low, "mph") {
        1_609_344
    } else if has_word(&low, "knots") {
        1_852_000
    } else {
        1_000_000
    };
    let ghost n = numeral(low@);
    proof {
        lemma_figure(n);
        lemma_pow2_pos(1075);
        let (x, t) = (digits_value(whole_digits(n)), divisor(n));
        if w > 0 {
            assert(figure(n) * pow2(1075) > 0 && figure(n) >= t) by (nonlinear_arith)
                requires
                    figure(n) >= x * t,
                    x >= 1,
                    t >= 1,
                    pow2(1075) > 0,
            ;
            lemma_pow2_unfold(1075);
            lemma_pow2_pos(1074);
            assert(figure(n) * pow2(1075) > t) by (nonlinear_arith)
                requires
                    figure(n) >= t,
                    t >= 1,
                    pow2(1075) >= 2,
            ;
        } else {
            assert(x * t == 0) by (nonlinear_arith)
                requires
                    x == 0,
            ;
        }
        if w == 256 {
            assert(figure(n) >= 256 * t) by (nonlinear_arith)
                requires
                    figure(n) >= x * t,
                    x >= 256,
                    t >= 1,
            ;
            lemma_fast(figure(n), t, unit as int);
        }
    }
    if w == 256 {
        return Some(255);
    }
    if w == 0 {
        if vanishes(&d) {
            return None;
        }
        if d.len() == 0 || d[0] < 53 {
            proof {
                lemma_below_half(d@);
                lemma_slow(figure(n), divisor(n), unit as int);
            }
            return Some(1);
        }
        proof {
            lemma_below_half(d@);
        }
    }
    Some(speed_in(w, &d, unit))
}

/// The first digit tells on which side of a half a number below one lies.
proof fn lemma_below_half(d: Seq<u8>)
    requires
        all_digits(d),
    ensures
        d.len() == 0 || d[0] < 53 ==> 2 * digits_value(d) <= ten_to(d.len() as int),
        d.len() > 0 && d[0] >= 53 ==> 2 * digits_value(d) >= ten_to(d.len() as int),
{
    if d.len() > 0 {
        let (a, b) = (d.take(1), d.skip(1));
        assert(d =~= a + b);
        lemma_digits_join(a, b);
        lemma_digits_range(b);
        assert(a.drop_last() =~= Seq::<u8>::empty());
        assert(digits_value(a) == 10 * digits_value(a.drop_last()) + (a.last() - 48));
        let (x, t) = (digits_value(a), ten_to(b.len() as int));
        assert(ten_to(d.len() as int) == 10 * t);
        assert(48 <= d[0] <= 57);
        if d[0] < 53 {
            assert(2 * (x * t + digits_value(b)) <= 10 * t) by (nonlinear_arith)
                requires
                    x <= 4,
                    digits_value(b) <= t,
                    t >= 0,
            ;
        } else {
            assert(2 * (x * t + digits_value(b)) >= 10 * t) by (nonlinear_arith)
                requires
                    x >= 5,
                    digits_value(b) >= 0,
                    t >= 0,
            ;
        }
    }
}

// ------------------------------------------------------------------ classify

/// Where the last of the first `n` tags with such a key stands.
pub open spec fn last_at(tags: Seq<(&[u8], &[u8])>, key: spec_fn(Seq<u8>) -> bool, n: int) -> Option<
    int,
>
    decreases n,
{
    if n <= 0 {
        None
    } else if key(tags[n - 1].0@) {
        Some(n - 1)
    } else {
        last_at(tags, key, n - 1)
    }
}

/// The value of the last tag with such a key.
pub open spec fn last_value(
    tags: Seq<(&[u8], &[u8])>,
    key: spec_fn(Seq<u8>) -> bool,
    n: int,
) -> Option<Seq<u8>> {
    match last_at(tags, key, n) {
        None => None,
        Some(i) => Some(tags[i].1@),
    }
}

/// One of the first `n` tags has the key and such a value.
pub open spec fn any_tag(
    tags: Seq<(&[u8], &[u8])>,
    key: spec_fn(Seq<u8>) -> bool,
    value: spec_fn(Seq<u8>) -> bool,
    n: int,
) -> bool
    decreases n,
{
    n > 0 && (any_tag(tags, key, value, n - 1) || (key(tags[n - 1].0@) && value(
        tags[n - 1].1@,
    )))
}

pub open spec fn key(w: &str) -> spec_fn(Seq<u8>) -> bool {
    |k: Seq<u8>| k == word(w)
}

/// The direction of a way for cars in particular.
pub open spec fn car_way_key() -> spec_fn(Seq<u8>) -> bool {
    |k: Seq<u8>| k == word("oneway:motorcar") || k == word("oneway:motor_vehicle")
}

pub open spec fn toll_key() -> spec_fn(Seq<u8>) -> bool {
    |k: Seq<u8>| k == word("toll") || k == word("toll:motorcar")
}

pub open spec fn motor_key() -> spec_fn(Seq<u8>) -> bool {
    |k: Seq<u8>| k == word("motor_vehicle") || k == word("motorcar")
}

pub open spec fn ferry_value() -> spec_fn(Seq<u8>) -> bool {
    |v: Seq<u8>| v == word("ferry")
}

pub open spec fn ring_value() -> spec_fn(Seq<u8>) -> bool {
    |v: Seq<u8>| v == word("roundabout") || v == word("circular")
}

pub open spec fn false_value() -> spec_fn(Seq<u8>) -> bool {
    |v: Seq<u8>| is_false(v)
}

pub open spec fn oneway_of(v: Seq<u8>) -> OneWay {
    if v == word("yes") || v == word("true") || v == word("1") {
        OneWay::Forward
    } else if v == word("-1") || v == word("reverse") {
        OneWay::Backward
    } else {
        OneWay::No
    }
}

fn direction(v: &[u8]) -> (r: OneWay)
    ensures
        r == oneway_of(v@),
{
    if is_word(v, "yes") || is_word(v, "true") || is_word(v, "1") {
        OneWay::Forward
    } else if is_word(v, "-1") || is_word(v, "reverse") {
        OneWay::Backward
    } else {
        OneWay::No
    }
}

/// The road class of a way: its last highway tag's, or a ferry's.
pub open spec fn way_class(tags: Seq<(&[u8], &[u8])>) -> Option<Class> {
    let n = tags.len() as int;
    let c = match last_value(tags, key("highway"), n) {
        Some(v) => highway_class(v),
        None => None,
    };
    if c is Some {
        c
    } else if any_tag(tags, key("route"), ferry_value(), n) {
        Some(Class::Ferry)
    } else {
        None
    }
}

/// Motor vehicles are let in, kept out, or not spoken of.
pub open spec fn motor_of(tags: Seq<(&[u8], &[u8])>) -> Option<bool> {
    match last_value(tags, motor_key(), tags.len() as int) {
        Some(v) => Some(!is_false(v)),
        None => None,
    }
}

/// A car may use the way: it is a road or a ferry, no square, and neither
/// closed to all without cars being let in nor closed to cars.
pub open spec fn drivable(tags: Seq<(&[u8], &[u8])>) -> bool {
    let n = tags.len() as int;
    &&& way_class(tags) is Some
    &&& !(last_value(tags, key("area"), n) matches Some(v) && is_true(v))
    &&& any_tag(tags, key("access"), false_value(), n) ==> motor_of(tags) == Some(true)
    &&& motor_of(tags) != Some(false)
}

/// The direction of a way: what it is tagged for cars, wherever that tag
/// stands, else what it is tagged in general, else forward on motorways and
/// roundabouts.
pub open spec fn way_direction(tags: Seq<(&[u8], &[u8])>, class: Class) -> OneWay {
    let n = tags.len() as int;
    match (last_value(tags, car_way_key(), n), last_value(tags, key("oneway"), n)) {
        (Some(v), _) => oneway_of(v),
        (None, Some(v)) => oneway_of(v),
        (None, None) => if class == Class::Motorway || class == Class::MotorwayLink || any_tag(
            tags,
            key("junction"),
            ring_value(),
            n,
        ) {
            OneWay::Forward
        } else {
            OneWay::No
        },
    }
}

/// What the way is signed, where that can be read, or its class's speed.
pub open spec fn way_kmh(tags: Seq<(&[u8], &[u8])>, class: Class) -> u16 {
    match last_value(tags, key("maxspeed"), tags.len() as int) {
        Some(v) => match maxspeed_of(v, class) {
            Some(k) => k,
            None => class_kmh(class),
        },
        None => class_kmh(class),
    }
}

/// A flag that the last such tag sets.
pub open spec fn flag(
    tags: Seq<(&[u8], &[u8])>,
    key: spec_fn(Seq<u8>) -> bool,
    set: spec_fn(Seq<u8>) -> bool,
) -> bool {
    match last_value(tags, key, tags.len() as int) {
        Some(v) => set(v),
        None => false,
    }
}

pub open spec fn true_value() -> spec_fn(Seq<u8>) -> bool {
    |v: Seq<u8>| is_true(v)
}

pub open spec fn not_false() -> spec_fn(Seq<u8>) -> bool {
    |v: Seq<u8>| !is_false(v)
}

/// What `resolve` makes of the last such tag's value, or no string.
pub open spec fn resolved<'a, F: Fn(&'a [u8]) -> u32>(
    tags: Seq<(&'a [u8], &'a [u8])>,
    w: &str,
    resolve: F,
    idx: u32,
) -> bool {
    match last_at(tags, key(w), tags.len() as int) {
        None => idx == NO_STR,
        Some(i) => call_ensures(resolve, (tags[i].1,), idx),
    }
}

/// What the tags of a way say that `classify` wants to know.
struct Found<'a> {
    class: Option<Class>,
    ferry: bool,
    maxspeed: Option<&'a [u8]>,
    oneway: Option<OneWay>,
    car_way: Option<OneWay>,
    ring: bool,
    toll: bool,
    bridge: bool,
    tunnel: bool,
    name: Option<&'a [u8]>,
    rref: Option<&'a [u8]>,
    blocked: bool,
    motor: Option<bool>,
    area: bool,
}

spec fn slice_of<'a>(tags: Seq<(&'a [u8], &'a [u8])>, w: &str, n: int) -> Option<&'a [u8]> {
    match last_at(tags, key(w), n) {
        None => None,
        Some(i) => Some(tags[i].1),
    }
}

spec fn set_by(
    tags: Seq<(&[u8], &[u8])>,
    key: spec_fn(Seq<u8>) -> bool,
    set: spec_fn(Seq<u8>) -> bool,
    n: int,
) -> bool {
    match last_value(tags, key, n) {
        Some(v) => set(v),
        None => false,
    }
}

impl<'a> Found<'a> {
    /// What the first `n` tags say the way is.
    #[verifier::opaque]
    spec fn road_of(&self, tags: Seq<(&'a [u8], &'a [u8])>, n: int) -> bool {
        &&& self.class == (match last_value(tags, key("highway"), n) {
            Some(v) => highway_class(v),
            None => None,
        })
        &&& self.ferry == any_tag(tags, key("route"), ferry_value(), n)
        &&& self.maxspeed == slice_of(tags, "maxspeed", n)
        &&& self.ring == any_tag(tags, key("junction"), ring_value(), n)
        &&& self.name == slice_of(tags, "name", n)
        &&& self.rref == slice_of(tags, "ref", n)
        &&& self.area == set_by(tags, key("area"), true_value(), n)
    }

    /// What the first `n` tags say of who may use it, and how.
    #[verifier::opaque]
    spec fn rules_of(&self, tags: Seq<(&'a [u8], &'a [u8])>, n: int) -> bool {
        &&& self.oneway == (match last_value(tags, key("oneway"), n) {
            Some(v) => Some(oneway_of(v)),
            None => None,
        })
        &&& self.car_way == (match last_value(tags, car_way_key(), n) {
            Some(v) => Some(oneway_of(v)),
            None => None,
        })
        &&& self.toll == set_by(tags, toll_key(), true_value(), n)
        &&& self.bridge == set_by(tags, key("bridge"), not_false(), n)
        &&& self.tunnel == set_by(tags, key("tunnel"), not_false(), n)
        &&& self.blocked == any_tag(tags, key("access"), false_value(), n)
        &&& self.motor == (match last_value(tags, motor_key(), n) {
            Some(v) => Some(!is_false(v)),
            None => None,
        })
    }
}

spec fn road_step<'a>(f: Found<'a>, g: Found<'a>, k: &'a [u8], v: &'a [u8]) -> bool {
    &&& g.class == (if k@ == word("highway") {
        highway_class(v@)
    } else {
        f.class
    })
    &&& g.ferry == (f.ferry || (k@ == word("route") && v@ == word("ferry")))
    &&& g.maxspeed == (if k@ == word("maxspeed") {
        Some(v)
    } else {
        f.maxspeed
    })
    &&& g.name == (if k@ == word("name") {
        Some(v)
    } else {
        f.name
    })
    &&& g.rref == (if k@ == word("ref") {
        Some(v)
    } else {
        f.rref
    })
    &&& g.area == (if k@ == word("area") {
        is_true(v@)
    } else {
        f.area
    })
    &&& g.ring == (f.ring || (k@ == word("junction") && (v@ == word("roundabout") || v@ == word(
        "circular",
    ))))
    &&& g.oneway == f.oneway
    &&& g.car_way == f.car_way
    &&& g.toll == f.toll
    &&& g.bridge == f.bridge
    &&& g.tunnel == f.tunnel
    &&& g.blocked == f.blocked
    &&& g.motor == f.motor
}

spec fn rules_step<'a>(f: Found<'a>, g: Found<'a>, k: &'a [u8], v: &'a [u8]) -> bool {
    &&& g.oneway == (if k@ == word("oneway") {
        Some(oneway_of(v@))
    } else {
        f.oneway
    })
    &&& g.car_way == (if k@ == word("oneway:motorcar") || k@ == word("oneway:motor_vehicle") {
        Some(oneway_of(v@))
    } else {
        f.car_way
    })
    &&& g.toll == (if k@ == word("toll") || k@ == word("toll:motorcar") {
        is_true(v@)
    } else {
        f.toll
    })
    &&& g.bridge == (if k@ == word("bridge") {
        !is_false(v@)
    } else {
        f.bridge
    })
    &&& g.tunnel == (if k@ == word("tunnel") {
        !is_false(v@)
    } else {
        f.tunnel
    })
    &&& g.blocked == (f.blocked || (k@ == word("access") && is_false(v@)))
    &&& g.motor == (if k@ == word("motor_vehicle") || k@ == word("motorcar") {
        Some(!is_false(v@))
    } else {
        f.motor
    })
    &&& g.class == f.class
    &&& g.ferry == f.ferry
    &&& g.maxspeed == f.maxspeed
    &&& g.name == f.name
    &&& g.rref == f.rref
    &&& g.area == f.area
    &&& g.ring == f.ring
}

#[verifier::spinoff_prover]
proof fn lemma_road<'a>(f: Found<'a>, g: Found<'a>, tags: Seq<(&'a [u8], &'a [u8])>, i: int)
    requires
        0 <= i,
        f.road_of(tags, i),
        f.rules_of(tags, i),
        road_step(f, g, tags[i].0, tags[i].1),
    ensures
        g.road_of(tags, i + 1),
        g.rules_of(tags, i),
{
    reveal(Found::road_of);
    reveal(Found::rules_of);
}

#[verifier::spinoff_prover]
proof fn lemma_rules<'a>(f: Found<'a>, g: Found<'a>, tags: Seq<(&'a [u8], &'a [u8])>, i: int)
    requires
        0 <= i,
        f.road_of(tags, i + 1),
        f.rules_of(tags, i),
        rules_step(f, g, tags[i].0, tags[i].1),
    ensures
        g.road_of(tags, i + 1),
        g.rules_of(tags, i + 1),
{
    reveal(Found::road_of);
    reveal(Found::rules_of);
}

/// The tags on what the way is.
fn note_road<'a>(f: &mut Found<'a>, k: &'a [u8], v: &'a [u8])
    ensures
        road_step(*old(f), *final(f), k, v),
{
    if is_word(k, "highway") {
        f.class = Class::from_highway(v);
    }
    if is_word(k, "route") && is_word(v, "ferry") {
        f.ferry = true;
    }
    if is_word(k, "maxspeed") {
        f.maxspeed = Some(v);
    }
    if is_word(k, "name") {
        f.name = Some(v);
    }
    if is_word(k, "ref") {
        f.rref = Some(v);
    }
    if is_word(k, "area") {
        f.area = truthy(v);
    }
    if is_word(k, "junction") && (is_word(v, "roundabout") || is_word(v, "circular")) {
        f.ring = true;
    }
}

/// The tags on who may use it, and how.
#[verifier::rlimit(40)]
fn note_rules<'a>(f: &mut Found<'a>, k: &'a [u8], v: &'a [u8])
    ensures
        rules_step(*old(f), *final(f), k, v),
{
    if is_word(k, "oneway") {
        f.oneway = Some(direction(v));
    }
    if is_word(k, "oneway:motorcar") || is_word(k, "oneway:motor_vehicle") {
        f.car_way = Some(direction(v));
    }
    if is_word(k, "toll") || is_word(k, "toll:motorcar") {
        f.toll = truthy(v);
    }
    if is_word(k, "bridge") {
        f.bridge = !falsy(v);
    }
    if is_word(k, "tunnel") {
        f.tunnel = !falsy(v);
    }
    if is_word(k, "access") && falsy(v) {
        f.blocked = true;
    }
    if is_word(k, "motor_vehicle") || is_word(k, "motorcar") {
        f.motor = Some(!falsy(v));
    }
}

fn read_tags<'a>(tags: &[(&'a [u8], &'a [u8])]) -> (f: Found<'a>)
    ensures
        f.road_of(tags@, tags@.len() as int),
        f.rules_of(tags@, tags@.len() as int),
{
    let mut f = Found {
        class: None,
        ferry: false,
        maxspeed: None,
        oneway: None,
        car_way: None,
        ring: false,
        toll: false,
        bridge: false,
        tunnel: false,
        name: None,
        rref: None,
        blocked: false,
        motor: None,
        area: false,
    };
    reveal(Found::road_of);
    reveal(Found::rules_of);
    let mut i: usize = 0;
    while i < tags.len()
        invariant
            i <= tags@.len(),
            f.road_of(tags@, i as int),
            f.rules_of(tags@, i as int),
        decreases tags@.len() - i,
    {
        let (k, v): (&'a [u8], &'a [u8]) = tags[i];
        let ghost f0 = f;
        note_road(&mut f, k, v);
        let ghost f1 = f;
        note_rules(&mut f, k, v);
        proof {
            lemma_road(f0, f1, tags@, i as int);
            lemma_rules(f1, f, tags@, i as int);
        }
        i += 1;
    }
    f
}

/// What is said of a way with these tags.
pub open spec fn classified<'a, F: Fn(&'a [u8]) -> u32>(
    tags: Seq<(&'a [u8], &'a [u8])>,
    resolve: F,
    r: Option<WayAttr>,
) -> bool {
    match r {
        None => !drivable(tags),
        Some(a) => {
            &&& drivable(tags)
            &&& way_class(tags) == Some(a.class)
            &&& a.oneway == way_direction(tags, a.class)
            &&& a.kmh == way_kmh(tags, a.class)
            &&& a.toll == flag(tags, toll_key(), true_value())
            &&& a.bridge == flag(tags, key("bridge"), not_false())
            &&& a.tunnel == flag(tags, key("tunnel"), not_false())
            &&& a.roundabout == any_tag(tags, key("junction"), ring_value(), tags.len() as int)
            &&& resolved(tags, "name", resolve, a.name_idx)
            &&& resolved(tags, "ref", resolve, a.ref_idx)
        },
    }
}

/// Decide whether a way is drivable and, if so, collect its attributes.
///
/// `tags` holds raw keys and values; `resolve` maps a value back to its
/// string-table index.
pub fn classify<'a, F: Fn(&'a [u8]) -> u32>(tags: &[(&'a [u8], &'a [u8])], resolve: F) -> (r: Option<
    WayAttr,
>)
    requires
        forall|i: int| 0 <= i < tags@.len() ==> call_requires(resolve, ((#[trigger] tags@[i]).1,)),
    ensures
        classified(tags@, resolve, r),
{
    let f: Found<'a> = read_tags(tags);
    proof {
        reveal(Found::road_of);
        reveal(Found::rules_of);
        lemma_last(tags@, key("name"), tags@.len() as int);
        lemma_last(tags@, key("ref"), tags@.len() as int);
    }
    let class: Class = match f.class {
        Some(c) => c,
        None => {
            if f.ferry {
                Class::Ferry
            } else {
                return None;
            }
        },
    };
    // An area is a pedestrian square, not a linear road.
    if f.area {
        return None;
    }
    // A closed way may still let cars in.
    let (let_in, kept_out): (bool, bool) = match f.motor {
        Some(true) => (true, false),
        Some(false) => (false, true),
        None => (false, false),
    };
    if f.blocked && !let_in {
        return None;
    }
    if kept_out {
        return None;
    }
    let motorway: bool = match class {
        Class::Motorway | Class::MotorwayLink => true,
        _ => false,
    };
    // A direction for cars overrides the general one.
    let oneway: OneWay = match (f.car_way, f.oneway) {
        (Some(d), _) => d,
        (None, Some(d)) => d,
        (None, None) => {
            if motorway || f.ring {
                OneWay::Forward
            } else {
                OneWay::No
            }
        },
    };
    let kmh: u16 = match f.maxspeed {
        Some(v) => match parse_maxspeed(v, class) {
            Some(k) => k,
            None => class.default_kmh(),
        },
        None => class.default_kmh(),
    };
    let name_idx: u32 = match f.name {
        Some(v) => resolve(v),
        None => NO_STR,
    };
    let ref_idx: u32 = match f.rref {
        Some(v) => resolve(v),
        None => NO_STR,
    };
    Some(
        WayAttr {
            class,
            oneway,
            kmh,
            toll: f.toll,
            bridge: f.bridge,
            tunnel: f.tunnel,
            roundabout: f.ring,
            name_idx,
            ref_idx,
        },
    )
}

proof fn lemma_last(tags: Seq<(&[u8], &[u8])>, key: spec_fn(Seq<u8>) -> bool, n: int)
    ensures
        last_at(tags, key, n) matches Some(i) ==> 0 <= i < n,
    decreases n,
{
    if n > 0 {
        lemma_last(tags, key, n - 1);
    }
}

} // verus!
