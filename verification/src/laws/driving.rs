//! What a way's tags say of driving it.

use vstd::prelude::*;
use vstd::utf8::encode_utf8;
use crate::profile::{
    any_tag, car_way_key, class_code, class_kmh, class_tier, classified, false_value, ferry_value,
    highway_class, key, last_at, motor_key, not_false, ring_value, toll_key, Class, OneWay, WayAttr,
};
use crate::attr::class_at;
use crate::router::steps::class_text;
use crate::text::word;

verus! {

pub type Tags<'a> = Seq<(&'a [u8], &'a [u8])>;

/// A tag has this key.
pub open spec fn tagged(tags: Tags, k: &str) -> bool {
    exists|i: int| 0 <= i < tags.len() && (#[trigger] tags[i]).0@ == word(k)
}

/// A tag has this key and this value.
pub open spec fn says(tags: Tags, k: &str, v: &str) -> bool {
    exists|i: int| 0 <= i < tags.len() && (#[trigger] tags[i]).0@ == word(k) && tags[i].1@ == word(v)
}

/// Tag `i` has this key, and no later one has.
pub open spec fn is_last(tags: Tags, k: &str, i: int) -> bool {
    &&& 0 <= i < tags.len()
    &&& tags[i].0@ == word(k)
    &&& forall|j: int| i < j < tags.len() ==> (#[trigger] tags[j]).0@ != word(k)
}

/// Tag `i` has one of two keys, and no later one has either.
pub open spec fn is_last_of(tags: Tags, k: &str, l: &str, i: int) -> bool {
    &&& 0 <= i < tags.len()
    &&& tags[i].0@ == word(k) || tags[i].0@ == word(l)
    &&& forall|j: int|
        i < j < tags.len() ==> (#[trigger] tags[j]).0@ != word(k) && tags[j].0@ != word(l)
}

/// Words that keep a car out.
pub open spec fn keeps_out(v: Seq<u8>) -> bool {
    v == word("no") || v == word("false") || v == word("0") || v == word("private") || v == word(
        "agricultural",
    ) || v == word("forestry") || v == word("delivery") || v == word("customers")
}

pub open spec fn affirms(v: Seq<u8>) -> bool {
    v == word("yes") || v == word("true") || v == word("1") || v == word("designated") || v == word(
        "permissive",
    )
}

proof fn lemma_last_at(tags: Tags, k: spec_fn(Seq<u8>) -> bool, n: int)
    requires
        0 <= n <= tags.len(),
    ensures
        match last_at(tags, k, n) {
            Some(i) => 0 <= i < n && k(tags[i].0@) && forall|j: int|
                i < j < n ==> !k((#[trigger] tags[j]).0@),
            None => forall|j: int| 0 <= j < n ==> !k((#[trigger] tags[j]).0@),
        },
    decreases n,
{
    if n > 0 {
        lemma_last_at(tags, k, n - 1);
    }
}

proof fn lemma_any_tag(
    tags: Tags,
    k: spec_fn(Seq<u8>) -> bool,
    v: spec_fn(Seq<u8>) -> bool,
    n: int,
)
    requires
        0 <= n <= tags.len(),
    ensures
        any_tag(tags, k, v, n) == exists|i: int|
            0 <= i < n && k((#[trigger] tags[i]).0@) && v(tags[i].1@),
    decreases n,
{
    if n > 0 {
        lemma_any_tag(tags, k, v, n - 1);
        if k(tags[n - 1].0@) && v(tags[n - 1].1@) {
            assert(k(tags[n - 1].0@));
        }
    }
}

/// A way without a tag on its direction is driven one way on motorways and
/// roundabouts, and both ways elsewhere.
pub proof fn lemma_untagged_direction<'a, F: Fn(&'a [u8]) -> u32>(
    tags: Tags<'a>,
    resolve: F,
    a: WayAttr,
)
    requires
        classified(tags, resolve, Some(a)),
        !tagged(tags, "oneway"),
        !tagged(tags, "oneway:motorcar"),
        !tagged(tags, "oneway:motor_vehicle"),
    ensures
        a.oneway == (if a.roundabout || a.class == Class::Motorway || a.class
            == Class::MotorwayLink {
            OneWay::Forward
        } else {
            OneWay::No
        }),
{
    let n = tags.len() as int;
    lemma_last_at(tags, car_way_key(), n);
    lemma_last_at(tags, key("oneway"), n);
    if let Some(i) = last_at(tags, car_way_key(), n) {
        assert(tags[i].0@ == word("oneway:motorcar") || tags[i].0@ == word("oneway:motor_vehicle"));
    }
    if let Some(i) = last_at(tags, key("oneway"), n) {
        assert(tags[i].0@ == word("oneway"));
    }
}

/// A way is a roundabout exactly if it is tagged as one.
pub proof fn lemma_roundabout<'a, F: Fn(&'a [u8]) -> u32>(tags: Tags<'a>, resolve: F, a: WayAttr)
    requires
        classified(tags, resolve, Some(a)),
    ensures
        a.roundabout == (says(tags, "junction", "roundabout") || says(tags, "junction", "circular")),
{
    let n = tags.len() as int;
    lemma_any_tag(tags, key("junction"), ring_value(), n);
    if a.roundabout {
        let i = choose|i: int|
            0 <= i < n && key("junction")((#[trigger] tags[i]).0@) && ring_value()(tags[i].1@);
        assert(tags[i].0@ == word("junction"));
    }
}

/// The direction that a word stands for.
pub open spec fn runs(v: Seq<u8>, d: OneWay) -> bool {
    &&& d == OneWay::Forward <==> (v == word("yes") || v == word("true") || v == word("1"))
    &&& d == OneWay::Backward <==> (v == word("-1") || v == word("reverse"))
}

proof fn lemma_direction_words()
    ensures
        word("yes") != word("-1"),
        word("yes") != word("reverse"),
        word("true") != word("-1"),
        word("true") != word("reverse"),
        word("1") != word("-1"),
        word("1") != word("reverse"),
{
    lemma_words_apart("yes", "-1");
    lemma_words_apart("yes", "reverse");
    lemma_words_apart("true", "-1");
    lemma_words_apart("true", "reverse");
    lemma_words_apart("1", "-1");
    lemma_words_apart("1", "reverse");
    reveal_strlit("yes");
    reveal_strlit("true");
    reveal_strlit("1");
    reveal_strlit("-1");
    reveal_strlit("reverse");
    assert("yes"@.len() != "-1"@.len() && "yes"@.len() != "reverse"@.len());
    assert("true"@.len() != "-1"@.len() && "true"@.len() != "reverse"@.len());
    assert("1"@.len() != "-1"@.len() && "1"@.len() != "reverse"@.len());
}

/// Different words are written differently.
proof fn lemma_words_apart(a: &str, b: &str)
    ensures
        word(a) == word(b) ==> a@ == b@,
{
    vstd::utf8::encode_utf8_decode_utf8(a@);
    vstd::utf8::encode_utf8_decode_utf8(b@);
}

/// The last tag on the direction for cars decides; without one, the last on the
/// direction in general.
pub proof fn lemma_tagged_direction<'a, F: Fn(&'a [u8]) -> u32>(
    tags: Tags<'a>,
    resolve: F,
    a: WayAttr,
    i: int,
)
    requires
        classified(tags, resolve, Some(a)),
        is_last_of(tags, "oneway:motorcar", "oneway:motor_vehicle", i) || (is_last(
            tags,
            "oneway",
            i,
        ) && !tagged(tags, "oneway:motorcar") && !tagged(tags, "oneway:motor_vehicle")),
    ensures
        runs(tags[i].1@, a.oneway),
{
    let n = tags.len() as int;
    lemma_direction_words();
    lemma_last_at(tags, car_way_key(), n);
    lemma_last_at(tags, key("oneway"), n);
    if is_last_of(tags, "oneway:motorcar", "oneway:motor_vehicle", i) {
        assert(car_way_key()(tags[i].0@));
        let j = last_at(tags, car_way_key(), n)->0;
        if j > i {
            assert(tags[j].0@ != word("oneway:motorcar"));
        }
        assert(j == i);
    } else {
        if let Some(j) = last_at(tags, car_way_key(), n) {
            assert(tags[j].0@ == word("oneway:motorcar") || tags[j].0@ == word(
                "oneway:motor_vehicle",
            ));
        }
        assert(key("oneway")(tags[i].0@));
        let j = last_at(tags, key("oneway"), n)->0;
        if j > i {
            assert(tags[j].0@ != word("oneway"));
        }
        assert(j == i);
    }
}

/// Where the last tag on motor vehicles keeps them out, no car goes; nor where
/// some tag closes the way to all and no tag speaks of motor vehicles.
pub proof fn lemma_kept_out<'a, F: Fn(&'a [u8]) -> u32>(
    tags: Tags<'a>,
    resolve: F,
    r: Option<WayAttr>,
    i: int,
)
    requires
        classified(tags, resolve, r),
        (is_last_of(tags, "motor_vehicle", "motorcar", i) && keeps_out(tags[i].1@)) || (0 <= i
            < tags.len() && tags[i].0@ == word("access") && keeps_out(tags[i].1@) && !tagged(
            tags,
            "motor_vehicle",
        ) && !tagged(tags, "motorcar")),
    ensures
        r is None,
{
    let n = tags.len() as int;
    lemma_last_at(tags, motor_key(), n);
    lemma_any_tag(tags, key("access"), false_value(), n);
    if is_last_of(tags, "motor_vehicle", "motorcar", i) {
        assert(motor_key()(tags[i].0@));
        let j = last_at(tags, motor_key(), n)->0;
        if j > i {
            assert(tags[j].0@ != word("motor_vehicle"));
        }
        assert(j == i);
    } else {
        if let Some(j) = last_at(tags, motor_key(), n) {
            assert(tags[j].0@ == word("motor_vehicle") || tags[j].0@ == word("motorcar"));
        }
        assert(key("access")(tags[i].0@) && false_value()(tags[i].1@));
    }
}

/// A square is no road.
pub proof fn lemma_no_square<'a, F: Fn(&'a [u8]) -> u32>(
    tags: Tags<'a>,
    resolve: F,
    r: Option<WayAttr>,
    i: int,
)
    requires
        classified(tags, resolve, r),
        is_last(tags, "area", i),
        affirms(tags[i].1@),
    ensures
        r is None,
{
    let n = tags.len() as int;
    lemma_last_at(tags, key("area"), n);
    assert(key("area")(tags[i].0@));
    let j = last_at(tags, key("area"), n)->0;
    if j > i {
        assert(tags[j].0@ != word("area"));
    }
    assert(j == i);
}

/// A road that nothing closes is driven: its last highway tag names a class, and
/// no tag speaks of an area, of access or of motor vehicles. So is a closed one
/// that lets motor vehicles in.
pub proof fn lemma_let_in<'a, F: Fn(&'a [u8]) -> u32>(
    tags: Tags<'a>,
    resolve: F,
    r: Option<WayAttr>,
    i: int,
)
    requires
        classified(tags, resolve, r),
        is_last(tags, "highway", i),
        highway_class(tags[i].1@) is Some,
        !tagged(tags, "area"),
        (!tagged(tags, "access") && !tagged(tags, "motor_vehicle") && !tagged(tags, "motorcar"))
            || exists|j: int|
            is_last_of(tags, "motor_vehicle", "motorcar", j) && !keeps_out(tags[j].1@),
    ensures
        r matches Some(a) && Some(a.class) == highway_class(tags[i].1@),
{
    let n = tags.len() as int;
    lemma_last_at(tags, key("highway"), n);
    lemma_last_at(tags, key("area"), n);
    lemma_last_at(tags, motor_key(), n);
    lemma_any_tag(tags, key("access"), false_value(), n);
    assert(key("highway")(tags[i].0@));
    let h = last_at(tags, key("highway"), n)->0;
    if h > i {
        assert(tags[h].0@ != word("highway"));
    }
    assert(h == i);
    if let Some(j) = last_at(tags, key("area"), n) {
        assert(tags[j].0@ == word("area"));
    }
    if !tagged(tags, "access") && !tagged(tags, "motor_vehicle") && !tagged(tags, "motorcar") {
        if let Some(j) = last_at(tags, motor_key(), n) {
            assert(tags[j].0@ == word("motor_vehicle") || tags[j].0@ == word("motorcar"));
        }
        assert(!any_tag(tags, key("access"), false_value(), n)) by {
            if any_tag(tags, key("access"), false_value(), n) {
                let j = choose|j: int|
                    0 <= j < n && key("access")((#[trigger] tags[j]).0@) && false_value()(
                        tags[j].1@,
                    );
                assert(tags[j].0@ == word("access"));
            }
        }
    } else {
        let j = choose|j: int|
            is_last_of(tags, "motor_vehicle", "motorcar", j) && !keeps_out(tags[j].1@);
        assert(motor_key()(tags[j].0@));
        let m = last_at(tags, motor_key(), n)->0;
        if m > j {
            assert(tags[m].0@ != word("motor_vehicle"));
        }
        assert(m == j);
    }
}

/// Only roads and ferries are driven.
pub proof fn lemma_only_roads<'a, F: Fn(&'a [u8]) -> u32>(
    tags: Tags<'a>,
    resolve: F,
    a: WayAttr,
)
    requires
        classified(tags, resolve, Some(a)),
    ensures
        (a.class == Class::Ferry && says(tags, "route", "ferry")) || exists|i: int|
            is_last(tags, "highway", i) && highway_class(#[trigger] tags[i].1@) == Some(a.class),
{
    let n = tags.len() as int;
    lemma_last_at(tags, key("highway"), n);
    lemma_any_tag(tags, key("route"), ferry_value(), n);
    if let Some(i) = last_at(tags, key("highway"), n) {
        if highway_class(tags[i].1@) is Some {
            assert(is_last(tags, "highway", i));
        } else {
            let j = choose|j: int|
                0 <= j < n && key("route")((#[trigger] tags[j]).0@) && ferry_value()(tags[j].1@);
            assert(tags[j].0@ == word("route"));
        }
    } else {
        let j = choose|j: int|
            0 <= j < n && key("route")((#[trigger] tags[j]).0@) && ferry_value()(tags[j].1@);
        assert(tags[j].0@ == word("route"));
    }
}

/// A toll road, a bridge and a tunnel are such by their last tag on it.
pub proof fn lemma_flags<'a, F: Fn(&'a [u8]) -> u32>(tags: Tags<'a>, resolve: F, a: WayAttr)
    requires
        classified(tags, resolve, Some(a)),
    ensures
        a.toll == exists|i: int|
            is_last_of(tags, "toll", "toll:motorcar", i) && affirms(#[trigger] tags[i].1@),
        a.bridge == exists|i: int| is_last(tags, "bridge", i) && !keeps_out(#[trigger] tags[i].1@),
        a.tunnel == exists|i: int| is_last(tags, "tunnel", i) && !keeps_out(#[trigger] tags[i].1@),
{
    let n = tags.len() as int;
    lemma_last_at(tags, toll_key(), n);
    lemma_last_at(tags, key("bridge"), n);
    lemma_last_at(tags, key("tunnel"), n);
    if let Some(i) = last_at(tags, toll_key(), n) {
        assert(is_last_of(tags, "toll", "toll:motorcar", i));
        assert forall|j: int| is_last_of(tags, "toll", "toll:motorcar", j) implies j == i by {
            assert(toll_key()(tags[j].0@));
            if j < i {
                assert(tags[i].0@ != word("toll"));
            }
        }
        assert(a.toll == affirms(tags[i].1@));
    } else {
        assert forall|j: int| !is_last_of(tags, "toll", "toll:motorcar", j) by {
            if is_last_of(tags, "toll", "toll:motorcar", j) {
                assert(toll_key()(tags[j].0@));
            }
        }
    }
    lemma_flag(tags, "bridge", a.bridge);
    lemma_flag(tags, "tunnel", a.tunnel);
}

proof fn lemma_flag(tags: Tags, w: &str, set: bool)
    requires
        set == crate::profile::flag(tags, key(w), not_false()),
    ensures
        set == exists|i: int| is_last(tags, w, i) && !keeps_out(#[trigger] tags[i].1@),
{
    let n = tags.len() as int;
    lemma_last_at(tags, key(w), n);
    if let Some(i) = last_at(tags, key(w), n) {
        assert(is_last(tags, w, i));
        assert forall|j: int| is_last(tags, w, j) implies j == i by {
            assert(key(w)(tags[j].0@));
            if j < i {
                assert(tags[i].0@ != word(w));
            }
        }
        assert(set == !keeps_out(tags[i].1@));
    } else {
        assert forall|j: int| !is_last(tags, w, j) by {
            if is_last(tags, w, j) {
                assert(key(w)(tags[j].0@));
            }
        }
    }
}

/// Without a sign a way is as fast as its class: a better class of main road is
/// no slower than a lesser one, and a slip road slower than its main road.
pub proof fn lemma_class_speeds<'a, F: Fn(&'a [u8]) -> u32, G: Fn(&'a [u8]) -> u32>(
    tags: Tags<'a>,
    resolve: F,
    a: WayAttr,
    others: Tags<'a>,
    resolve2: G,
    b: WayAttr,
)
    requires
        classified(tags, resolve, Some(a)),
        classified(others, resolve2, Some(b)),
        !tagged(tags, "maxspeed"),
        !tagged(others, "maxspeed"),
    ensures
        a.class == b.class ==> a.kmh == b.kmh,
        main_rank(a.class) matches Some(x) && main_rank(b.class) matches Some(y) && x < y ==> a.kmh
            > b.kmh,
        main_of(a.class) == Some(b.class) ==> a.kmh < b.kmh,
        a.kmh > 0,
{
    lemma_unsigned(tags, a.class);
    lemma_unsigned(others, b.class);
}

proof fn lemma_unsigned(tags: Tags, c: Class)
    requires
        !tagged(tags, "maxspeed"),
    ensures
        crate::profile::way_kmh(tags, c) == class_kmh(c),
{
    let n = tags.len() as int;
    lemma_last_at(tags, key("maxspeed"), n);
    if let Some(i) = last_at(tags, key("maxspeed"), n) {
        assert(tags[i].0@ == word("maxspeed"));
    }
}

/// The main roads, the best first.
pub open spec fn main_rank(c: Class) -> Option<int> {
    match c {
        Class::Motorway => Some(0),
        Class::Trunk => Some(1),
        Class::Primary => Some(2),
        Class::Secondary => Some(3),
        Class::Tertiary => Some(4),
        Class::Unclassified => Some(5),
        Class::Residential => Some(6),
        Class::Service => Some(7),
        Class::LivingStreet => Some(8),
        _ => None,
    }
}

/// The main road of a slip road.
pub open spec fn main_of(c: Class) -> Option<Class> {
    match c {
        Class::MotorwayLink => Some(Class::Motorway),
        Class::TrunkLink => Some(Class::Trunk),
        Class::PrimaryLink => Some(Class::Primary),
        Class::SecondaryLink => Some(Class::Secondary),
        Class::TertiaryLink => Some(Class::Tertiary),
        _ => None,
    }
}

/// A slip road's tag is its main road's and `_link`, and its number the next.
pub proof fn lemma_links()
    ensures
        highway_class(word("motorway")) == Some(Class::Motorway),
        highway_class(word("motorway_link")) == Some(Class::MotorwayLink),
        highway_class(word("trunk")) == Some(Class::Trunk),
        highway_class(word("trunk_link")) == Some(Class::TrunkLink),
        highway_class(word("primary")) == Some(Class::Primary),
        highway_class(word("primary_link")) == Some(Class::PrimaryLink),
        highway_class(word("secondary")) == Some(Class::Secondary),
        highway_class(word("secondary_link")) == Some(Class::SecondaryLink),
        highway_class(word("tertiary")) == Some(Class::Tertiary),
        highway_class(word("tertiary_link")) == Some(Class::TertiaryLink),
        highway_class(word("unclassified")) == Some(Class::Unclassified),
        highway_class(word("residential")) == Some(Class::Residential),
        highway_class(word("living_street")) == Some(Class::LivingStreet),
        highway_class(word("service")) == Some(Class::Service),
        forall|c: Class|
            main_of(c) matches Some(m) ==> #[trigger] class_code(c) == class_code(m) + 1,
{
    reveal_strlit("motorway");
    reveal_strlit("motorway_link");
    reveal_strlit("trunk");
    reveal_strlit("trunk_link");
    reveal_strlit("primary");
    reveal_strlit("primary_link");
    reveal_strlit("secondary");
    reveal_strlit("secondary_link");
    reveal_strlit("tertiary");
    reveal_strlit("tertiary_link");
    reveal_strlit("unclassified");
    reveal_strlit("residential");
    reveal_strlit("living_street");
    reveal_strlit("service");
    reveal_strlit("road");
    reveal_strlit("busway");
    assert forall|a: &str, b: &str| word(a) == word(b) implies a@ == b@ by {
        lemma_words_apart(a, b);
    }
    assert("motorway"@[0] == 'm' && "motorway_link"@[0] == 'm');
    assert("motorway"@.len() == 8 && "motorway_link"@.len() == 13);
    assert("trunk"@.len() == 5 && "trunk_link"@.len() == 10);
    assert("primary"@.len() == 7 && "primary_link"@.len() == 12);
    assert("secondary"@.len() == 9 && "secondary_link"@.len() == 14);
    assert("tertiary"@.len() == 8 && "tertiary_link"@.len() == 13);
    assert("unclassified"@.len() == 12 && "residential"@.len() == 11);
    assert("living_street"@.len() == 13 && "service"@.len() == 7);
    assert("tertiary"@[0] == 't' && "tertiary_link"@[0] == 't');
    assert("living_street"@[0] == 'l' && "service"@[0] == 's' && "primary"@[0] == 'p');
    assert("unclassified"@[0] == 'u' && "primary_link"@[0] == 'p');
    lemma_words_apart("tertiary", "motorway");
    lemma_words_apart("tertiary_link", "motorway_link");
    lemma_words_apart("living_street", "motorway_link");
    lemma_words_apart("living_street", "tertiary_link");
    lemma_words_apart("service", "primary");
    lemma_words_apart("unclassified", "primary_link");
}

/// A slip road is drawn with its main road, and a lesser road never before a
/// greater one.
pub proof fn lemma_tiers(a: Class, b: Class)
    ensures
        main_of(a) == Some(b) ==> class_tier(a) == class_tier(b),
        main_rank(a) matches Some(x) && main_rank(b) matches Some(y) && x < y ==> class_tier(a)
            <= class_tier(b),
        class_code(a) == class_code(b) ==> a == b,
        class_at(class_code(a)) == a,
{
}

/// The word for a class of road is the tag that makes a road one of it.
pub proof fn lemma_class_names(c: Class)
    requires
        c != Class::Ferry,
        c != Class::Other,
    ensures
        highway_class(encode_utf8(class_text(c))) == Some(c),
{
    lemma_links();
}

} // verus!
