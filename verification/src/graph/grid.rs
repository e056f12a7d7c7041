//! Two grids over the globe: a fine one to snap to roads, a coarse one for the
//! overview.

use vstd::prelude::*;

verus! {

/// Resolution of the fine grid in 1e-7 degrees: a hundredth of a degree.
pub const CELL_E7: i32 = 100_000;

/// Resolution of the coarse grid: one degree.
pub const BIG_E7: i32 = 10_000_000;

/// Which line of a grid of `size` a coordinate is in, counted from `-off`.
pub open spec fn line(v: int, off: int, size: int) -> int {
    if v + off >= 0 {
        (v + off) / size
    } else {
        -((-(v + off)) / size)
    }
}

/// The key of a cell: its line, then its column.
pub open spec fn key_of(y: u64, x: u64) -> u64 {
    (y << 32) | x
}

fn axis(v: i32, off: i64, size: i64) -> (r: u64)
    requires
        0 <= off <= 0xFFFF_FFFF,
        1 <= size,
    ensures
        r == (line(v as int, off as int, size as int) as i64) as u64,
{
    let t: i64 = v as i64 + off;
    let q: i64 = if t >= 0 {
        t / size
    } else {
        -((-t) / size)
    };
    proof {
        assert(-0x1_0000_0000 <= q <= 0x2_0000_0000) by {
            if t >= 0 {
                vstd::arithmetic::div_mod::lemma_div_is_ordered_by_denominator(
                    t as int,
                    1,
                    size as int,
                );
                vstd::arithmetic::div_mod::lemma_div_basics(t as int);
                vstd::arithmetic::div_mod::lemma_div_pos_is_pos(t as int, size as int);
            } else {
                vstd::arithmetic::div_mod::lemma_div_is_ordered_by_denominator(
                    -t as int,
                    1,
                    size as int,
                );
                vstd::arithmetic::div_mod::lemma_div_basics(-t as int);
                vstd::arithmetic::div_mod::lemma_div_pos_is_pos(-t as int, size as int);
            }
        }
    }
    #[verifier::truncate]
    (q as u64)
}

/// The fine line of a coordinate, as it is stored.
pub open spec fn fine(v: int, off: int) -> u64 {
    (line(v, off, CELL_E7 as int) as i64) as u64
}

/// The coarse line of a coordinate, as it is stored.
pub open spec fn coarse(v: int, off: int) -> u64 {
    (line(v, off, BIG_E7 as int) as i64) as u64
}

pub fn cell_axis(v: i32, off: i64) -> (r: u64)
    requires
        0 <= off <= 0xFFFF_FFFF,
    ensures
        r == fine(v as int, off as int),
{
    axis(v, off, CELL_E7 as i64)
}

pub fn big_axis(v: i32, off: i64) -> (r: u64)
    requires
        0 <= off <= 0xFFFF_FFFF,
    ensures
        r == coarse(v as int, off as int),
{
    axis(v, off, BIG_E7 as i64)
}

pub fn cell_of(lat_e7: i32, lon_e7: i32) -> (k: u64)
    ensures
        k == key_of(fine(lat_e7 as int, 900_000_000), fine(lon_e7 as int, 1_800_000_000)),
{
    let y: u64 = cell_axis(lat_e7, 900_000_000);
    let x: u64 = cell_axis(lon_e7, 1_800_000_000);
    (y << 32) | x
}

pub fn big_cell_of(lat_e7: i32, lon_e7: i32) -> (k: u64)
    ensures
        k == key_of(coarse(lat_e7 as int, 900_000_000), coarse(lon_e7 as int, 1_800_000_000)),
{
    let y: u64 = big_axis(lat_e7, 900_000_000);
    let x: u64 = big_axis(lon_e7, 1_800_000_000);
    (y << 32) | x
}

/// A place on the globe, as far as the grid can tell.
pub open spec fn on_globe(p: (i32, i32)) -> bool {
    p.0 >= -900_000_000 && p.1 >= -1_800_000_000
}

/// On the globe lines are counted from zero, and going up never goes down.
pub proof fn lemma_lines(v: int, w: int, off: int, size: int)
    requires
        0 <= v + off <= w + off <= 0x1_0000_0000,
        100_000 <= size,
    ensures
        0 <= line(v, off, size) <= line(w, off, size) <= 42_950,
        (line(v, off, size) as i64) as u64 == line(v, off, size),
{
    vstd::arithmetic::div_mod::lemma_div_is_ordered(v + off, w + off, size);
    vstd::arithmetic::div_mod::lemma_div_pos_is_pos(v + off, size);
    vstd::arithmetic::div_mod::lemma_div_is_ordered_by_denominator(w + off, 100_000, size);
}

pub proof fn lemma_key(y: u64, x: u64)
    by (bit_vector)
    requires
        y <= 0xFFFF_FFFF,
        x <= 0xFFFF_FFFF,
    ensures
        (y << 32) | x == y * 0x1_0000_0000 + x,
{
}

/// Two cells on the globe share a key only if they are one, and a step north
/// raises it.
pub proof fn lemma_keys_apart(y: u64, x: u64, b: u64, a: u64)
    requires
        y <= 0xFFFF_FFFF,
        x <= 0xFFFF_FFFF,
        b <= 0xFFFF_FFFF,
        a <= 0xFFFF_FFFF,
    ensures
        key_of(y, x) == key_of(b, a) <==> y == b && x == a,
        y < b ==> key_of(y, x) < key_of(b, a),
{
    lemma_key(y, x);
    lemma_key(b, a);
}

} // verus!
