//! The packed attribute word of a way, and what an edge costs.

use vstd::prelude::*;
use crate::profile::{class_code, Class, OneWay, WayAttr};

verus! {

/// The speed limit, from the upper half of the word.
pub open spec fn kmh_of(a: u32) -> u16 {
    (a / 0x1_0000) as u16
}

pub fn attr_kmh(a: u32) -> (k: u16)
    ensures
        k == kmh_of(a),
        k == a / 0x1_0000,
{
    (a / 0x1_0000) as u16
}

/// Tenths of a second to drive `len_cm` at `kmh` (at least one).
pub open spec fn duration(len_cm: u32, kmh: u16) -> u32 {
    let t = (len_cm * 36) / ((if kmh == 0 {
        1
    } else {
        kmh as int
    }) * 100);
    if t > u32::MAX {
        u32::MAX
    } else {
        t as u32
    }
}

pub fn dur_ds(len_cm: u32, kmh: u16) -> (t: u32)
    ensures
        t == duration(len_cm, kmh),
{
    let k: u64 = if kmh == 0 {
        1
    } else {
        kmh as u64
    };
    let t: u64 = (len_cm as u64 * 36) / (k * 100);
    if t > u32::MAX as u64 {
        u32::MAX
    } else {
        t as u32
    }
}

pub const A_TOLL: u32 = 64;

pub const A_BRIDGE: u32 = 128;

pub const A_TUNNEL: u32 = 256;

pub const A_ROUNDABOUT: u32 = 512;

/// The number of a direction.
pub open spec fn oneway_code(o: OneWay) -> u32 {
    match o {
        OneWay::No => 0,
        OneWay::Forward => 1,
        OneWay::Backward => 2,
    }
}

pub open spec fn flag_bit(set: bool, bit: u32) -> int {
    if set {
        bit as int
    } else {
        0
    }
}

/// The attribute word: class, direction, flags, and the speed in the upper
/// half.
pub open spec fn packed(a: WayAttr) -> int {
    class_code(a.class) + 16 * oneway_code(a.oneway) + flag_bit(a.toll, A_TOLL) + flag_bit(
        a.bridge,
        A_BRIDGE,
    ) + flag_bit(a.tunnel, A_TUNNEL) + flag_bit(a.roundabout, A_ROUNDABOUT) + 0x1_0000 * a.kmh
}

pub fn pack_attr(a: &WayAttr) -> (w: u32)
    ensures
        w == packed(*a),
{
    let ow: u32 = match a.oneway {
        OneWay::No => 0,
        OneWay::Forward => 1,
        OneWay::Backward => 2,
    };
    let mut w: u32 = a.class.code() as u32 + 16 * ow;
    if a.toll {
        w = w + A_TOLL;
    }
    if a.bridge {
        w = w + A_BRIDGE;
    }
    if a.tunnel {
        w = w + A_TUNNEL;
    }
    if a.roundabout {
        w = w + A_ROUNDABOUT;
    }
    w + 0x1_0000 * (a.kmh as u32)
}

pub fn attr_class(a: u32) -> (c: u8)
    ensures
        c == a % 16,
{
    (a % 16) as u8
}

pub fn attr_oneway(a: u32) -> (o: u8)
    ensures
        o == (a / 16) % 4,
{
    ((a / 16) % 4) as u8
}

/// Whether the way carries a toll.
pub fn attr_toll(a: u32) -> (t: bool)
    ensures
        t == ((a / A_TOLL) % 2 == 1),
{
    (a / A_TOLL) % 2 == 1
}

/// The class with a number; those past the last are `Other`.
pub open spec fn class_at(c: u8) -> Class {
    if c == 0 {
        Class::Motorway
    } else if c == 1 {
        Class::MotorwayLink
    } else if c == 2 {
        Class::Trunk
    } else if c == 3 {
        Class::TrunkLink
    } else if c == 4 {
        Class::Primary
    } else if c == 5 {
        Class::PrimaryLink
    } else if c == 6 {
        Class::Secondary
    } else if c == 7 {
        Class::SecondaryLink
    } else if c == 8 {
        Class::Tertiary
    } else if c == 9 {
        Class::TertiaryLink
    } else if c == 10 {
        Class::Unclassified
    } else if c == 11 {
        Class::Residential
    } else if c == 12 {
        Class::LivingStreet
    } else if c == 13 {
        Class::Service
    } else if c == 14 {
        Class::Ferry
    } else {
        Class::Other
    }
}

pub fn class_of(c: u8) -> (r: Class)
    ensures
        r == class_at(c),
{
    match c {
        0 => Class::Motorway,
        1 => Class::MotorwayLink,
        2 => Class::Trunk,
        3 => Class::TrunkLink,
        4 => Class::Primary,
        5 => Class::PrimaryLink,
        6 => Class::Secondary,
        7 => Class::SecondaryLink,
        8 => Class::Tertiary,
        9 => Class::TertiaryLink,
        10 => Class::Unclassified,
        11 => Class::Residential,
        12 => Class::LivingStreet,
        13 => Class::Service,
        14 => Class::Ferry,
        _ => Class::Other,
    }
}

/// Every field of a packed word reads back as it was.
pub proof fn lemma_packed(a: WayAttr, w: u32)
    requires
        w == packed(a),
    ensures
        class_at((w % 16) as u8) == a.class,
        (w / 16) % 4 == oneway_code(a.oneway),
        ((w / A_TOLL) % 2 == 1) == a.toll,
        ((w / A_BRIDGE) % 2 == 1) == a.bridge,
        ((w / A_TUNNEL) % 2 == 1) == a.tunnel,
        ((w / A_ROUNDABOUT) % 2 == 1) == a.roundabout,
        kmh_of(w) == a.kmh,
{
    let c = class_code(a.class) as int;
    let o = oneway_code(a.oneway) as int;
    let (t, b) = (flag_bit(a.toll, 1), flag_bit(a.bridge, 1));
    let (u, r) = (flag_bit(a.tunnel, 1), flag_bit(a.roundabout, 1));
    let k = a.kmh as int;
    lemma_class_code(a.class);
    lemma_fields(w as int, c, o, t, b, u, r, k);
}

proof fn lemma_class_code(c: Class)
    ensures
        class_code(c) < 16,
        class_at(class_code(c)) == c,
{
}

proof fn lemma_fields(w: int, c: int, o: int, t: int, b: int, u: int, r: int, k: int)
    requires
        0 <= c < 16,
        0 <= o < 4,
        0 <= t < 2,
        0 <= b < 2,
        0 <= u < 2,
        0 <= r < 2,
        0 <= k <= 0xFFFF,
        w == c + 16 * o + 64 * t + 128 * b + 256 * u + 512 * r + 0x1_0000 * k,
    ensures
        w % 16 == c,
        (w / 16) % 4 == o,
        (w / 64) % 2 == t,
        (w / 128) % 2 == b,
        (w / 256) % 2 == u,
        (w / 512) % 2 == r,
        w / 0x1_0000 == k,
{
    assert(w / 16 == o + 4 * t + 8 * b + 16 * u + 32 * r + 4096 * k);
    assert(w / 64 == t + 2 * b + 4 * u + 8 * r + 1024 * k);
    assert(w / 128 == b + 2 * u + 4 * r + 512 * k);
    assert(w / 256 == u + 2 * r + 256 * k);
    assert(w / 512 == r + 128 * k);
}

} // verus!
