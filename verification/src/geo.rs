//! Places on a Hilbert curve: neighbours on the ground get numbers close to
//! each other.

use vstd::arithmetic::power2::{
    lemma2_to64, lemma2_to64_rest, lemma_pow2_adds, lemma_pow2_pos, lemma_pow2_strictly_increases,
    pow2,
};
use vstd::prelude::*;
use crate::double::{
    keep, lemma_keep_bounds, lemma_keep_moved, lemma_keep_quarter, nearest, power,
    quotient, settle, settle_signed, shift, whole_of,
};

verus! {

pub open spec fn two_to(k: int) -> int
    decreases k,
{
    if k <= 0 {
        1
    } else {
        2 * two_to(k - 1)
    }
}

/// The quarter of the square in which the curve is, in the order in which it
/// visits them.
pub open spec fn quarter(rx: int, ry: int) -> int {
    if rx == 0 {
        if ry == 0 {
            0
        } else {
            1
        }
    } else if ry == 0 {
        3
    } else {
        2
    }
}

/// Where the curve inside a quarter of side `s` passes the cell: turned in the
/// first quarter, and turned and mirrored in the last.
pub open spec fn turned(s: int, rx: int, ry: int, x: int, y: int) -> (int, int) {
    if ry == 1 {
        (x, y)
    } else if rx == 1 {
        (s - 1 - y, s - 1 - x)
    } else {
        (y, x)
    }
}

/// How far along the curve through a square of side two to the `k` the cell
/// `(x, y)` is.
pub open spec fn hilbert(k: int, x: int, y: int) -> int
    decreases k,
{
    if k <= 0 {
        0
    } else {
        let s = two_to(k - 1);
        let (rx, ry) = (x / s, y / s);
        let (u, v) = turned(s, rx, ry, x % s, y % s);
        s * s * quarter(rx, ry) + hilbert(k - 1, u, v)
    }
}

proof fn lemma_two_to(k: int)
    requires
        0 <= k,
    ensures
        two_to(k) >= 1,
        k <= 31 ==> two_to(k) <= 0x8000_0000,
    decreases k,
{
    if k > 0 {
        lemma_two_to(k - 1);
        if k <= 31 {
            lemma_small(k);
        }
    }
}

proof fn lemma_small(k: int)
    requires
        0 <= k <= 32,
    ensures
        1 <= two_to(k) <= 0x1_0000_0000,
        k <= 31 ==> two_to(k) <= 0x8000_0000,
{
    reveal_with_fuel(two_to, 33);
}

proof fn lemma_split(s: int, x: int)
    requires
        s >= 1,
        0 <= x < 2 * s,
    ensures
        x / s == 0 || x / s == 1,
        0 <= x % s < s,
        x == s * (x / s) + x % s,
{
    vstd::arithmetic::div_mod::lemma_fundamental_div_mod(x, s);
    vstd::arithmetic::div_mod::lemma_mod_bound(x, s);
    assert(x / s < 2) by (nonlinear_arith)
        requires
            s >= 1,
            0 <= x < 2 * s,
    ;
    assert(x / s >= 0) by (nonlinear_arith)
        requires
            s >= 1,
            0 <= x,
    ;
}

/// Every cell of the square has a place on the curve.
pub proof fn lemma_hilbert_range(k: int, x: int, y: int)
    requires
        0 <= k,
        0 <= x < two_to(k),
        0 <= y < two_to(k),
    ensures
        0 <= hilbert(k, x, y) < two_to(k) * two_to(k),
    decreases k,
{
    if k > 0 {
        let s = two_to(k - 1);
        lemma_two_to(k - 1);
        lemma_split(s, x);
        lemma_split(s, y);
        let (rx, ry) = (x / s, y / s);
        let (u, v) = turned(s, rx, ry, x % s, y % s);
        lemma_hilbert_range(k - 1, u, v);
        let q = quarter(rx, ry);
        let r = hilbert(k - 1, u, v);
        assert(0 <= s * s * q + r < (2 * s) * (2 * s)) by (nonlinear_arith)
            requires
                0 <= q <= 3,
                0 <= r < s * s,
                s >= 1,
        ;
    } else {
        assert(hilbert(k, x, y) == 0);
    }
}

/// No two cells share a place.
pub proof fn lemma_hilbert_apart(k: int, x: int, y: int, a: int, b: int)
    requires
        0 <= k,
        0 <= x < two_to(k),
        0 <= y < two_to(k),
        0 <= a < two_to(k),
        0 <= b < two_to(k),
        hilbert(k, x, y) == hilbert(k, a, b),
    ensures
        x == a,
        y == b,
    decreases k,
{
    if k > 0 {
        let s = two_to(k - 1);
        lemma_two_to(k - 1);
        lemma_split(s, x);
        lemma_split(s, y);
        lemma_split(s, a);
        lemma_split(s, b);
        let (u, v) = turned(s, x / s, y / s, x % s, y % s);
        let (c, d) = turned(s, a / s, b / s, a % s, b % s);
        lemma_hilbert_range(k - 1, u, v);
        lemma_hilbert_range(k - 1, c, d);
        let (q, p) = (quarter(x / s, y / s), quarter(a / s, b / s));
        let (r, t) = (hilbert(k - 1, u, v), hilbert(k - 1, c, d));
        assert(q == p) by (nonlinear_arith)
            requires
                s * s * q + r == s * s * p + t,
                0 <= r < s * s,
                0 <= t < s * s,
                s >= 1,
        ;
        lemma_hilbert_apart(k - 1, u, v, c, d);
    }
}

/// The curve begins in the first corner.
pub proof fn lemma_hilbert_start(k: int)
    requires
        0 <= k,
    ensures
        hilbert(k, 0, 0) == 0,
    decreases k,
{
    if k > 0 {
        let s = two_to(k - 1);
        lemma_two_to(k - 1);
        lemma_split(s, 0);
        assert(0int / s == 0 && 0int % s == 0) by (nonlinear_arith)
            requires
                s >= 1,
        ;
        lemma_hilbert_start(k - 1);
        assert(s * s * 0 == 0);
    }
}

/// The curve ends in the corner across from where it began, along the first
/// axis.
pub proof fn lemma_hilbert_end(k: int)
    requires
        0 <= k,
    ensures
        hilbert(k, two_to(k) - 1, 0) == two_to(k) * two_to(k) - 1,
    decreases k,
{
    if k > 0 {
        let s = two_to(k - 1);
        lemma_two_to(k - 1);
        let x = 2 * s - 1;
        lemma_split(s, x);
        lemma_split(s, 0);
        assert(x / s == 1 && x % s == s - 1) by {
            if x / s == 0 {
                assert(s * 0 == 0);
            }
            assert(s * 1 == s);
        }
        assert(0int / s == 0 && 0int % s == 0) by (nonlinear_arith)
            requires
                s >= 1,
        ;
        lemma_hilbert_end(k - 1);
        assert(s * s * 3 + (s * s - 1) == (2 * s) * (2 * s) - 1) by (nonlinear_arith);
    }
}

/// Consecutive places on the curve are neighbours on the ground.
pub proof fn lemma_hilbert_next(k: int, x: int, y: int, a: int, b: int)
    requires
        0 <= k,
        0 <= x < two_to(k),
        0 <= y < two_to(k),
        0 <= a < two_to(k),
        0 <= b < two_to(k),
        hilbert(k, a, b) == hilbert(k, x, y) + 1,
    ensures
        (x == a && (y == b + 1 || b == y + 1)) || (y == b && (x == a + 1 || a == x + 1)),
    decreases k,
{
    if k > 0 {
        let s = two_to(k - 1);
        lemma_two_to(k - 1);
        lemma_split(s, x);
        lemma_split(s, y);
        lemma_split(s, a);
        lemma_split(s, b);
        let (u, v) = turned(s, x / s, y / s, x % s, y % s);
        let (c, d) = turned(s, a / s, b / s, a % s, b % s);
        lemma_hilbert_range(k - 1, u, v);
        lemma_hilbert_range(k - 1, c, d);
        let (q, p) = (quarter(x / s, y / s), quarter(a / s, b / s));
        let (r, t) = (hilbert(k - 1, u, v), hilbert(k - 1, c, d));
        assert(s * 0 == 0 && s * 1 == s);
        assert((q == p && t == r + 1) || (p == q + 1 && r == s * s - 1 && t == 0)) by (nonlinear_arith)
            requires
                s * s * p + t == s * s * q + r + 1,
                0 <= r < s * s,
                0 <= t < s * s,
                s >= 1,
        ;
        if q == p {
            lemma_hilbert_next(k - 1, u, v, c, d);
        } else {
            lemma_hilbert_end(k - 1);
            lemma_hilbert_start(k - 1);
            lemma_hilbert_apart(k - 1, u, v, s - 1, 0);
            lemma_hilbert_apart(k - 1, c, d, 0, 0);
        }
    }
}

/// How far along the Hilbert curve of an order a cell is. Bits above the order
/// are not looked at.
pub fn hilbert_d(order: u32, x: u32, y: u32) -> (d: u64)
    requires
        1 <= order <= 32,
    ensures
        d == hilbert(
            order as int,
            x as int % two_to(order as int),
            y as int % two_to(order as int),
        ),
{
    proof {
        lemma_small(order as int);
        lemma_small(order - 1);
    }
    let mut s: u64 = 1;
    let mut i: u32 = 1;
    while i < order
        invariant
            1 <= i <= order <= 32,
            s == two_to(i - 1),
        decreases order - i,
    {
        proof {
            lemma_small(i as int);
            assert(two_to(i as int) == 2 * two_to(i - 1));
        }
        s = 2 * s;
        i += 1;
    }
    let ghost n = two_to(order as int);
    assert(n == 2 * s);
    let mut u: u64 = x as u64 % (2 * s);
    let mut v: u64 = y as u64 % (2 * s);
    let ghost goal = hilbert(order as int, u as int, v as int);
    proof {
        lemma_hilbert_range(order as int, u as int, v as int);
        assert(n * n <= 0x1_0000_0000 * 0x1_0000_0000) by (nonlinear_arith)
            requires
                1 <= n <= 0x1_0000_0000,
        ;
    }
    let mut d: u64 = 0;
    let mut k: u32 = order;
    while k > 0
        invariant
            k <= order <= 32,
            k > 0 ==> s == two_to(k - 1),
            0 <= u < two_to(k as int),
            0 <= v < two_to(k as int),
            goal == d + hilbert(k as int, u as int, v as int),
            goal <= u64::MAX,
        decreases k,
    {
        proof {
            lemma_small(k - 1);
            lemma_split(s as int, u as int);
            lemma_split(s as int, v as int);
        }
        let (rx, ry): (u64, u64) = (u / s, v / s);
        let (p, q): (u64, u64) = (u % s, v % s);
        let part: u64 = if rx == 0 {
            if ry == 0 {
                0
            } else {
                1
            }
        } else if ry == 0 {
            3
        } else {
            2
        };
        let (u2, v2): (u64, u64) = if ry == 1 {
            (p, q)
        } else if rx == 1 {
            (s - 1 - q, s - 1 - p)
        } else {
            (q, p)
        };
        proof {
            lemma_hilbert_range(k - 1, u2 as int, v2 as int);
            assert(0 <= s * s <= 0x8000_0000 * 0x8000_0000) by (nonlinear_arith)
                requires
                    1 <= s <= 0x8000_0000,
            ;
            assert(0 <= s * s * part <= 3 * (0x8000_0000 * 0x8000_0000)) by (nonlinear_arith)
                requires
                    0 <= s * s <= 0x8000_0000 * 0x8000_0000,
                    0 <= part <= 3,
            ;
        }
        d = d + s * s * part;
        u = u2;
        v = v2;
        s = s / 2;
        k -= 1;
    }
    d
}

/// Ten millionths of a degree in degrees, as a binary64 has them.
pub open spec fn degrees(v: int) -> (int, nat) {
    let (c, k) = keep(1, 10_000_000);
    keep(v * c, pow2(k) as int)
}

/// A coordinate on a scale of 0 to 65535 that reaches `half` degrees both ways,
/// to the nearest: each step as a binary64 has it, and what lies beyond the ends
/// of the scale at those ends.
pub open spec fn scaled(v: int, half: int) -> int {
    let (d, e) = degrees(v);
    let (s, f) = keep(d + half * pow2(e), pow2(e) as int);
    let (q, g) = keep(s, 2 * half * pow2(f));
    if q <= 0 {
        0
    } else if q > pow2(g) {
        65535
    } else {
        let (m, k) = keep(q * 65535, pow2(g) as int);
        nearest(m, pow2(k) as int)
    }
}

/// How far along a Hilbert curve over the globe a place is.
pub fn hilbert_latlon(lat_e7: i32, lon_e7: i32) -> (d: u64)
    ensures
        d == hilbert(16, scaled(lon_e7 as int, 180), scaled(lat_e7 as int, 90)),
{
    let x: u32 = on_scale(lon_e7, 180);
    let y: u32 = on_scale(lat_e7, 90);
    proof {
        reveal_with_fuel(two_to, 17);
        assert(two_to(16) == 65536);
        assert(x as int % 65536 == x && y as int % 65536 == y);
    }
    hilbert_d(16, x, y)
}

proof fn lemma_pow2_76()
    ensures
        pow2(76) == 0x1000_0000_0000_0000_0000,
{
    lemma2_to64();
    lemma2_to64_rest();
    lemma_pow2_adds(60, 16);
}

/// A coordinate in degrees.
fn in_degrees(v: i32) -> (r: (i64, u32))
    ensures
        (r.0 as int, r.1 as nat) == degrees(v as int),
        r.1 <= 76,
        -0x8000_0000 * pow2(r.1 as nat) <= r.0 <= 0x8000_0000 * pow2(r.1 as nat),
{
    let (c, k): (u64, u32) = quotient(1, 10_000_000);
    let ghost top = pow2(k as nat) as int;
    proof {
        lemma_pow2_76();
        lemma_pow2_pos(k as nat);
        if k > 76 {
            let j = (k - 1) as nat;
            if j > 76 {
                lemma_pow2_strictly_increases(76, j);
            }
            assert(1 * pow2(j) == pow2(j));
        }
        lemma_keep_bounds(1, 10_000_000, 1);
        assert(-0x8000_0000 * 0x20_0000_0000_0000 <= v * c <= 0x8000_0000 * 0x20_0000_0000_0000)
            by (nonlinear_arith)
            requires
                -0x8000_0000 <= v <= 0x8000_0000,
                0 <= c <= 0x20_0000_0000_0000,
        ;
        assert(-0x8000_0000 * top <= v * c <= 0x8000_0000 * top) by (nonlinear_arith)
            requires
                -0x8000_0000 <= v <= 0x8000_0000,
                0 <= c <= top,
        ;
    }
    let num: i128 = v as i128 * c as i128;
    proof {
        assert(num == 0 || num >= 0x10_0000_0000_0000 || -num >= 0x10_0000_0000_0000)
            by (nonlinear_arith)
            requires
                num == v * c,
                c >= 0x10_0000_0000_0000,
        ;
        if num >= 0 {
            lemma_keep_bounds(num as int, top, 0x8000_0000);
        } else {
            lemma_keep_bounds(-num as int, top, 0x8000_0000);
        }
    }
    settle_signed(num, k)
}

/// What is kept of nothing or less is that.
proof fn lemma_keep_low(num: int, den: int)
    requires
        num <= 0,
        den > 0,
    ensures
        keep(num, den).0 <= 0,
{
    if num == 0 {
        lemma_keep_bounds(0, den, 0);
        assert(0 * pow2(keep(0, den).1) == 0);
    } else {
        lemma_keep_bounds(-num, den, 0);
    }
}

#[verifier::rlimit(40)]
fn on_scale(v: i32, half: u64) -> (r: u32)
    requires
        90 <= half <= 180,
    ensures
        r == scaled(v as int, half as int),
        r <= 65535,
{
    let (d, e): (i64, u32) = in_degrees(v);
    let unit: u128 = power(e);
    let ghost u = unit as int;
    proof {
        lemma_pow2_76();
        if e < 76 {
            lemma_pow2_strictly_increases(e as nat, 76);
        }
        assert(half * u <= 180 * u) by (nonlinear_arith)
            requires
                half <= 180,
                u >= 1,
        ;
        assert(half * u >= 0) by (nonlinear_arith)
            requires
                half >= 1,
                u >= 1,
        ;
    }
    let sum: i128 = d as i128 + half as i128 * unit as i128;
    let ghost (sm, sf) = keep(sum as int, u);
    if sum <= 0 {
        proof {
            lemma_keep_low(sum as int, u);
            lemma_pow2_pos(sf);
            assert(2 * half * pow2(sf) > 0) by (nonlinear_arith)
                requires
                    half >= 1,
                    pow2(sf) > 0,
            ;
            lemma_keep_low(sm, 2 * half * pow2(sf));
        }
        return 0;
    }
    let (s, f): (u64, u32) = settle(sum as u128, e);
    let (q, k): (u64, u32) = quotient(s, 2 * half);
    proof {
        assert(k == shift(s as int, 2 * half as int) && k > 0);
        lemma_keep_moved(s as int, 2 * half as int, f as nat);
        lemma_pow2_76();
        if k > 62 {
            let j = (k - 1) as nat;
            lemma2_to64();
            lemma2_to64_rest();
            if j > 62 {
                lemma_pow2_strictly_increases(62, j);
            }
            assert(s * pow2(j) >= pow2(j)) by (nonlinear_arith)
                requires
                    s >= 1,
                    pow2(j) >= 1,
            ;
        }
    }
    let g: u32 = f + k;
    let ghost top = pow2(g as nat) as int;
    assert(q * 65535 >= 0x10_0000_0000_0000) by (nonlinear_arith)
        requires
            q >= 0x10_0000_0000_0000,
    ;
    proof {
        lemma_pow2_pos(g as nat);
    }
    if g > 120 {
        proof {
            lemma_pow2_strictly_increases(76, g as nat);
            let num = q * 65535;
            lemma_wide(g as nat);
            lemma_keep_quarter(num as int, top);
            let (m, w) = keep(num as int, top);
            let p = pow2(w) as int;
            lemma_pow2_pos(w);
            assert((2 * m + p) / (2 * p) == 0) by (nonlinear_arith)
                requires
                    0 <= m,
                    4 * m <= p,
                    p > 0,
            ;
        }
        return 0;
    }
    let all: u128 = power(g);
    if q as u128 > all {
        return 65535;
    }
    proof {
        assert(q * 65535 <= 65535 * top) by (nonlinear_arith)
            requires
                q <= top,
        ;
        lemma_keep_bounds(q * 65535, top, 65535);
    }
    let (m, w): (u64, u32) = settle(q as u128 * 65535, g);
    let r: u128 = whole_of(m, w);
    proof {
        let p = pow2(w as nat) as int;
        lemma_pow2_pos(w as nat);
        assert((2 * m + p) / (2 * p) <= 65535) by (nonlinear_arith)
            requires
                0 <= m <= 65535 * p,
                p > 0,
        ;
    }
    r as u32
}

proof fn lemma_wide(g: nat)
    requires
        g > 120,
    ensures
        pow2(g) >= 4 * (0x20_0000_0000_0000 * 65535),
{
    lemma2_to64();
    lemma2_to64_rest();
    lemma_pow2_adds(60, 20);
    lemma_pow2_strictly_increases(80, g);
}

} // verus!
