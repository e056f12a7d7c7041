//! Numbers as binary64 keeps them: fifty-three bits, to the nearest, ties to
//! even. A number here is `m` over two to the `k`.

use vstd::arithmetic::div_mod::{
    lemma_fundamental_div_mod, lemma_fundamental_div_mod_converse, lemma_mod_bound,
};
use vstd::arithmetic::power2::{
    lemma2_to64, lemma2_to64_rest, lemma_pow2_adds, lemma_pow2_pos, lemma_pow2_strictly_increases,
    lemma_pow2_unfold, pow2,
};
use vstd::prelude::*;
use crate::addresses::entries::{all_digits, digits_value};

verus! {

/// To the nearest whole, halves to the even one.
pub open spec fn half_even(num: int, den: int) -> int {
    let (q, r) = (num / den, num % den);
    if 2 * r > den || (2 * r == den && q % 2 == 1) {
        q + 1
    } else {
        q
    }
}

/// To the nearest whole, halves away from zero.
pub open spec fn nearest(num: int, den: int) -> int {
    if num >= 0 {
        (2 * num + den) / (2 * den)
    } else {
        -((2 * (-num) + den) / (2 * den))
    }
}

/// How often a number is doubled until it fills fifty-three bits.
pub open spec fn shift(num: int, den: int) -> nat
    decreases 0x20_0000_0000_0000 * den - num,
{
    if num <= 0 || num >= 0x10_0000_0000_0000 * den {
        0
    } else {
        1 + shift(2 * num, den)
    }
}

/// The number nearest to `num` over `den`, which is below two to the
/// fifty-third.
pub open spec fn keep(num: int, den: int) -> (int, nat) {
    if num >= 0 {
        let k = shift(num, den);
        (half_even(num * pow2(k), den), k)
    } else {
        let k = shift(-num, den);
        (-half_even(-num * pow2(k), den), k)
    }
}

/// What is kept of a number is off by no more than one part in two to the
/// fifty-second.
pub proof fn lemma_keep_close(num: int, den: int)
    requires
        num > 0,
        den > 0,
    ensures
        ({
            let (m, k) = keep(num, den);
            &&& 0xF_FFFF_FFFF_FFFF * (num * pow2(k)) <= 0x10_0000_0000_0000 * (m * den)
            &&& 0x10_0000_0000_0000 * (m * den) <= 0x10_0000_0000_0001 * (num * pow2(k))
            &&& m > 0
        }),
{
    let k = shift(num, den);
    lemma_shift_is(num, den);
    let x = num * pow2(k);
    let (q, r) = (x / den, x % den);
    lemma_fundamental_div_mod(x, den);
    lemma_mod_bound(x, den);
    let m = half_even(x, den);
    assert(q * den + r == x) by (nonlinear_arith)
        requires
            x == den * q + r,
    ;
    assert((q + 1) * den == q * den + den) by (nonlinear_arith);
    assert(2 * (m * den) <= 2 * x + den && 2 * (m * den) >= 2 * x - den);
    lemma_half_bounds(x, den, 0x10_0000_0000_0000);
}

/// What is kept of a number of either sign up to `top` is off by no more than
/// `top` parts in two to the fifty-second.
pub proof fn lemma_keep_off(num: int, den: int, top: int)
    requires
        den > 0,
        -top * den <= num <= top * den,
    ensures
        ({
            let (m, k) = keep(num, den);
            let w = pow2(k) as int;
            &&& w > 0
            &&& 0x10_0000_0000_0000 * (m * den - num * w) <= top * den * w
            &&& 0x10_0000_0000_0000 * (num * w - m * den) <= top * den * w
        }),
{
    let (m, k) = keep(num, den);
    let w = pow2(k) as int;
    lemma_pow2_pos(k);
    let size: int = if num >= 0 {
        num
    } else {
        -num
    };
    let n: int = if num >= 0 {
        m
    } else {
        -m
    };
    assert((-top) * den == -(top * den)) by (nonlinear_arith);
    assert(size * w <= top * den * w) by (nonlinear_arith)
        requires
            size <= top * den,
            w > 0,
    ;
    if num == 0 {
        lemma_half_bounds(0, den, 0);
        assert(0 * w == 0);
        assert(m == 0);
        assert(m * den - num * w == 0) by (nonlinear_arith)
            requires
                m == 0,
                num == 0,
        ;
    } else {
        lemma_keep_close(size, den);
        assert(keep(size, den) == (n, k));
        assert(n * den == (if num >= 0 {
            m * den
        } else {
            -(m * den)
        })) by (nonlinear_arith)
            requires
                n == (if num >= 0 {
                    m
                } else {
                    -m
                }),
        ;
        assert(size * w == (if num >= 0 {
            num * w
        } else {
            -(num * w)
        })) by (nonlinear_arith)
            requires
                size == (if num >= 0 {
                    num
                } else {
                    -num
                }),
        ;
    }
}

/// When a number has been doubled often enough.
pub proof fn lemma_shift(num: int, den: int, k: nat)
    requires
        num > 0,
        den > 0,
        num * pow2(k) >= 0x10_0000_0000_0000 * den,
        k > 0 ==> num * pow2((k - 1) as nat) < 0x10_0000_0000_0000 * den,
    ensures
        shift(num, den) == k,
    decreases k,
{
    lemma2_to64();
    if k == 0 {
        assert(num * 1 == num);
    } else {
        let j = (k - 1) as nat;
        lemma_pow2_unfold(k);
        lemma_pow2_pos(j);
        assert(2 * num * pow2(j) == num * pow2(k)) by (nonlinear_arith)
            requires
                pow2(k) == 2 * pow2(j),
        ;
        assert(num <= num * pow2(j)) by (nonlinear_arith)
            requires
                num > 0,
                pow2(j) >= 1,
        ;
        if j > 0 {
            let i = (j - 1) as nat;
            lemma_pow2_unfold(j);
            assert(2 * num * pow2(i) == num * pow2(j)) by (nonlinear_arith)
                requires
                    pow2(j) == 2 * pow2(i),
            ;
        }
        lemma_shift(2 * num, den, j);
    }
}

/// A common factor changes nothing.
proof fn lemma_half_common(c: int, num: int, den: int)
    requires
        c > 0,
        den > 0,
        num >= 0,
    ensures
        half_even(c * num, c * den) == half_even(num, den),
{
    let (q, r) = (num / den, num % den);
    lemma_fundamental_div_mod(num, den);
    lemma_mod_bound(num, den);
    assert(c * num == q * (c * den) + c * r) by (nonlinear_arith)
        requires
            num == den * q + r,
    ;
    assert(0 <= c * r < c * den) by (nonlinear_arith)
        requires
            0 <= r < den,
            c > 0,
    ;
    lemma_fundamental_div_mod_converse(c * num, c * den, q, c * r);
    assert((2 * (c * r) > c * den) == (2 * r > den)) by (nonlinear_arith)
        requires
            c > 0,
    ;
    assert((2 * (c * r) == c * den) == (2 * r == den)) by (nonlinear_arith)
        requires
            c > 0,
    ;
}

/// What lies above a whole number stays there, and what lies below one.
pub proof fn lemma_half_bounds(num: int, den: int, c: int)
    requires
        den > 0,
        num >= 0,
    ensures
        c * den <= num ==> c <= half_even(num, den),
        num <= c * den ==> half_even(num, den) <= c,
        half_even(num, den) >= 0,
{
    let (q, r) = (num / den, num % den);
    lemma_fundamental_div_mod(num, den);
    lemma_mod_bound(num, den);
    assert(q >= 0) by (nonlinear_arith)
        requires
            num == den * q + r,
            num >= 0,
            0 <= r < den,
    ;
    if c * den <= num {
        assert(c <= q) by (nonlinear_arith)
            requires
                num == den * q + r,
                0 <= r < den,
                c * den <= num,
        ;
    }
    if num <= c * den {
        assert(q <= c && (q == c ==> r == 0)) by (nonlinear_arith)
            requires
                num == den * q + r,
                0 <= r < den,
                num <= c * den,
        ;
    }
}

/// What is kept of a number above a whole one is no less than that, and of one
/// below it no more.
pub proof fn lemma_keep_bounds(num: int, den: int, c: int)
    requires
        den > 0,
        num >= 0,
    ensures
        keep(num, den).0 >= 0,
        c * den <= num ==> c * pow2(keep(num, den).1) <= keep(num, den).0,
        num <= c * den ==> keep(num, den).0 <= c * pow2(keep(num, den).1),
{
    let k = shift(num, den);
    let p = pow2(k) as int;
    lemma_pow2_pos(k);
    assert(num * p >= 0) by (nonlinear_arith)
        requires
            num >= 0,
            p > 0,
    ;
    if c * den <= num {
        assert((c * p) * den <= num * p) by (nonlinear_arith)
            requires
                c * den <= num,
                p > 0,
        ;
    }
    if num <= c * den {
        assert(num * p <= (c * p) * den) by (nonlinear_arith)
            requires
                num <= c * den,
                p > 0,
        ;
    }
    lemma_half_bounds(num * p, den, c * p);
}

/// Half or less stays half or less.
pub proof fn lemma_keep_half(num: int, den: int)
    requires
        den > 0,
        num >= 0,
        2 * num <= den,
    ensures
        2 * keep(num, den).0 <= pow2(keep(num, den).1),
{
    let k = shift(num, den);
    if num == 0 {
        lemma_pow2_pos(k);
        assert(0 * pow2(k) == 0);
        lemma_half_bounds(0, den, 0);
    } else {
        assert(k > 0);
        let j = (k - 1) as nat;
        lemma_pow2_unfold(k);
        let h = pow2(j) as int;
        lemma_pow2_pos(j);
        assert(num * (2 * h) <= h * den) by (nonlinear_arith)
            requires
                2 * num <= den,
                h > 0,
        ;
        assert(num * pow2(k) >= 0) by (nonlinear_arith)
            requires
                num >= 0,
        ;
        lemma_half_bounds(num * pow2(k), den, h);
    }
}

/// A quarter or less stays that.
pub proof fn lemma_keep_quarter(num: int, den: int)
    requires
        den > 0,
        num > 0,
        4 * num <= den,
    ensures
        4 * keep(num, den).0 <= pow2(keep(num, den).1),
        keep(num, den).0 >= 0,
{
    let k = shift(num, den);
    lemma_shift_is(num, den);
    lemma2_to64();
    if k < 2 {
        assert(num * pow2(k) < 0x10_0000_0000_0000 * den) by (nonlinear_arith)
            requires
                4 * num <= den,
                num > 0,
                pow2(k) <= 2,
        ;
    }
    let j = (k - 2) as nat;
    lemma_pow2_unfold(k);
    lemma_pow2_unfold((k - 1) as nat);
    let h = pow2(j) as int;
    lemma_pow2_pos(j);
    assert(num * (4 * h) <= h * den) by (nonlinear_arith)
        requires
            4 * num <= den,
            h > 0,
    ;
    assert(num * pow2(k) >= 0) by (nonlinear_arith)
        requires
            num >= 0,
    ;
    lemma_half_bounds(num * pow2(k), den, h);
}

/// A divisor times a power of two only moves the point.
pub proof fn lemma_keep_moved(num: int, den: int, e: nat)
    requires
        den > 0,
        num > 0,
        shift(num, den) > 0,
    ensures
        keep(num, den * pow2(e)) == (keep(num, den).0, keep(num, den).1 + e),
        den * pow2(e) > 0,
{
    let k = shift(num, den);
    lemma_shift_is(num, den);
    lemma_pow2_pos(e);
    lemma_pow2_adds(k, e);
    let k0 = (k - 1) as nat;
    lemma_pow2_adds(k0, e);
    let (x, y, c) = (num * pow2(k), num * pow2(k0), pow2(e) as int);
    let d2 = den * c;
    assert(d2 > 0) by (nonlinear_arith)
        requires
            den > 0,
            c > 0,
            d2 == den * c,
    ;
    assert(num * pow2(k + e) == c * x) by (nonlinear_arith)
        requires
            pow2(k + e) == pow2(k) * c,
            x == num * pow2(k),
    ;
    assert(num * pow2(k0 + e) == c * y) by (nonlinear_arith)
        requires
            pow2(k0 + e) == pow2(k0) * c,
            y == num * pow2(k0),
    ;
    assert(c * x >= 0x10_0000_0000_0000 * d2) by (nonlinear_arith)
        requires
            x >= 0x10_0000_0000_0000 * den,
            d2 == den * c,
            c > 0,
    ;
    assert(c * y < 0x10_0000_0000_0000 * d2) by (nonlinear_arith)
        requires
            y < 0x10_0000_0000_0000 * den,
            d2 == den * c,
            c > 0,
    ;
    assert((k + e - 1) as nat == k0 + e);
    lemma_shift(num, d2, k + e);
    assert(d2 == c * den) by (nonlinear_arith)
        requires
            d2 == den * c,
    ;
    assert(x >= 0) by (nonlinear_arith)
        requires
            x == num * pow2(k),
            num > 0,
    ;
    lemma_half_common(c, x, den);
}

proof fn lemma_two_to_52()
    ensures
        pow2(0) == 1,
        pow2(52) == 0x10_0000_0000_0000,
        pow2(53) == 0x20_0000_0000_0000,
{
    lemma2_to64();
    lemma2_to64_rest();
}

/// Two to the `k`.
pub fn power(k: u32) -> (p: u128)
    requires
        k <= 126,
    ensures
        p == pow2(k as nat),
        1 <= p,
{
    let mut p: u128 = 1;
    let mut i: u32 = 0;
    proof {
        lemma2_to64();
        lemma_pow2_126();
    }
    while i < k
        invariant
            i <= k <= 126,
            p == pow2(i as nat),
            1 <= p,
            pow2(126) == 0x4000_0000_0000_0000_0000_0000_0000_0000,
        decreases k - i,
    {
        proof {
            lemma_pow2_unfold((i + 1) as nat);
            if i < 125 {
                lemma_pow2_strictly_increases((i + 1) as nat, 126);
            }
        }
        p = 2 * p;
        i += 1;
    }
    p
}

proof fn lemma_pow2_126()
    ensures
        pow2(126) == 0x4000_0000_0000_0000_0000_0000_0000_0000,
{
    lemma2_to64();
    lemma2_to64_rest();
    lemma_pow2_adds(63, 63);
    assert(0x8000_0000_0000_0000 * 0x8000_0000_0000_0000
        == 0x4000_0000_0000_0000_0000_0000_0000_0000) by (nonlinear_arith);
}

/// The number nearest to `num` over `den`.
pub fn quotient(num: u64, den: u64) -> (r: (u64, u32))
    requires
        num > 0,
        den > 0,
        num < 0x20_0000_0000_0000 * den,
    ensures
        (r.0 as int, r.1 as nat) == keep(num as int, den as int),
        r.0 <= 0x20_0000_0000_0000,
        r.0 >= 0x10_0000_0000_0000,
        r.1 <= 117,
        r.1 > 0 ==> num * pow2((r.1 - 1) as nat) < 0x10_0000_0000_0000 * den,
{
    let ghost goal = 0x10_0000_0000_0000 * den;
    assert(den * 0x10_0000_0000_0000 <= 0xFFFF_FFFF_FFFF_FFFF * 0x10_0000_0000_0000) by (nonlinear_arith)
        requires
            den <= 0xFFFF_FFFF_FFFF_FFFF,
    ;
    let full: u128 = den as u128 * 0x10_0000_0000_0000;
    let mut n: u128 = num as u128;
    let mut k: u32 = 0;
    proof {
        lemma_two_to_52();
        assert(num * 1 == num);
    }
    while n < full
        invariant
            num > 0,
            full == goal,
            full <= 0xFFFF_FFFF_FFFF_FFFF * 0x10_0000_0000_0000,
            n == num * pow2(k as nat),
            n >= 1,
            n < 2 * full,
            k <= 117,
            pow2(k as nat) <= n,
            k > 0 ==> num * pow2((k - 1) as nat) < goal,
        decreases 2 * full - n,
    {
        proof {
            let k1 = (k + 1) as nat;
            lemma_pow2_unfold(k1);
            assert(num * pow2(k1) == 2 * (num * pow2(k as nat))) by (nonlinear_arith)
                requires
                    pow2(k1) == 2 * pow2(k as nat),
            ;
            if k >= 117 {
                lemma_pow2_117();
            }
        }
        n = 2 * n;
        k += 1;
    }
    proof {
        lemma_shift(num as int, den as int, k as nat);
        lemma_fundamental_div_mod(n as int, den as int);
        lemma_mod_bound(n as int, den as int);
        lemma_half_bounds(n as int, den as int, 0x20_0000_0000_0000);
        lemma_half_bounds(n as int, den as int, 0x10_0000_0000_0000);
    }
    let q: u128 = n / den as u128;
    let rest: u128 = n % den as u128;
    let up: bool = 2 * rest > den as u128 || (2 * rest == den as u128 && q % 2 == 1);
    assert(n <= 0x20_0000_0000_0000 * den) by {
        assert(2 * goal == 0x20_0000_0000_0000 * den) by (nonlinear_arith)
            requires
                goal == 0x10_0000_0000_0000 * den,
        ;
    }
    assert(q <= 0x20_0000_0000_0000) by (nonlinear_arith)
        requires
            n <= 0x20_0000_0000_0000 * den,
            n == den * q + rest,
            0 <= rest,
            den > 0,
    ;
    let m: u128 = if up {
        q + 1
    } else {
        q
    };
    (m as u64, k)
}

proof fn lemma_pow2_117()
    ensures
        pow2(117) > 0xFFFF_FFFF_FFFF_FFFF * 0x10_0000_0000_0000,
{
    lemma2_to64();
    lemma2_to64_rest();
    lemma_pow2_adds(63, 54);
}

/// The number nearest to `num` over two to the `e`.
pub fn settle(num: u128, e: u32) -> (r: (u64, u32))
    requires
        0 < num < 0x4000_0000_0000_0000_0000_0000_0000_0000,
        e <= 126,
        num < 0x20_0000_0000_0000 * pow2(e as nat),
    ensures
        (r.0 as int, r.1 as nat) == keep(num as int, pow2(e as nat) as int),
        0 < r.0 <= 0x20_0000_0000_0000,
        r.1 <= e + 52,
        num >= 0x10_0000_0000_0000 ==> r.1 <= e,
{
    let ghost d = pow2(e as nat) as int;
    proof {
        lemma_two_to_52();
        lemma_pow2_pos(e as nat);
        assert(num * 1 == num);
    }
    if num < 0x10_0000_0000_0000 {
        let mut n: u128 = num;
        let mut j: u32 = 0;
        while n < 0x10_0000_0000_0000
            invariant
                num > 0,
                n == num * pow2(j as nat),
                1 <= n < 0x20_0000_0000_0000,
                j <= 52,
                pow2(j as nat) <= n,
                pow2(52) == 0x10_0000_0000_0000,
                j > 0 ==> num * pow2((j - 1) as nat) < 0x10_0000_0000_0000,
                n < 0x10_0000_0000_0000 || j > 0,
            decreases 0x20_0000_0000_0000 - n,
        {
            proof {
                let j1 = (j + 1) as nat;
                lemma_pow2_unfold(j1);
                assert(num * pow2(j1) == 2 * (num * pow2(j as nat))) by (nonlinear_arith)
                    requires
                        pow2(j1) == 2 * pow2(j as nat),
                ;
            }
            n = 2 * n;
            j += 1;
        }
        proof {
            let k = (e + j) as nat;
            lemma_pow2_adds(e as nat, j as nat);
            assert(num * pow2(k) == n * d) by (nonlinear_arith)
                requires
                    pow2(k) == d * pow2(j as nat),
                    n == num * pow2(j as nat),
            ;
            lemma_pow2_adds(e as nat, (j - 1) as nat);
            let k0 = (k - 1) as nat;
            let part = num * pow2((j - 1) as nat);
            assert(num * pow2(k0) == part * d) by (nonlinear_arith)
                requires
                    pow2(k0) == d * pow2((j - 1) as nat),
                    part == num * pow2((j - 1) as nat),
            ;
            assert(part * d < 0x10_0000_0000_0000 * d) by (nonlinear_arith)
                requires
                    part < 0x10_0000_0000_0000,
                    d > 0,
            ;
            assert(n * d >= 0x10_0000_0000_0000 * d) by (nonlinear_arith)
                requires
                    n >= 0x10_0000_0000_0000,
                    d > 0,
            ;
            lemma_shift(num as int, d, k);
            lemma_fundamental_div_mod_converse(n * d, d, n as int, 0);
        }
        return (n as u64, e + j);
    }
    let mut s: u32 = 0;
    let mut p: u128 = 1;
    while num / p >= 0x20_0000_0000_0000
        invariant
            0x10_0000_0000_0000 <= num < 0x4000_0000_0000_0000_0000_0000_0000_0000,
            num < 0x20_0000_0000_0000 * d,
            d == pow2(e as nat),
            p == pow2(s as nat),
            1 <= p,
            s <= e <= 126,
            p * 0x10_0000_0000_0000 <= num,
        decreases num - p,
    {
        proof {
            let s1 = (s + 1) as nat;
            lemma_pow2_unfold(s1);
            lemma_fundamental_div_mod(num as int, p as int);
            lemma_mod_bound(num as int, p as int);
            let q = num as int / p as int;
            assert(num >= 0x20_0000_0000_0000 * p) by (nonlinear_arith)
                requires
                    num >= p * q,
                    q >= 0x20_0000_0000_0000,
                    p >= 1,
            ;
            if s >= e {
                assert(p == d);
            }
        }
        p = 2 * p;
        s += 1;
    }
    let q: u128 = num / p;
    let rest: u128 = num % p;
    proof {
        let k = (e - s) as nat;
        lemma_pow2_adds(k, s as nat);
        let c = pow2(k) as int;
        lemma_pow2_pos(k);
        assert(d == c * p);
        lemma_half_common(c, num as int, p as int);
        assert(num * c == c * num) by (nonlinear_arith);
        lemma_fundamental_div_mod(num as int, p as int);
        lemma_mod_bound(num as int, p as int);
        assert(num < 0x20_0000_0000_0000 * p) by (nonlinear_arith)
            requires
                num == p * q + rest,
                rest < p,
                q < 0x20_0000_0000_0000,
        ;
        assert(c * num >= 0x10_0000_0000_0000 * (c * p)) by (nonlinear_arith)
            requires
                num >= p * 0x10_0000_0000_0000,
                c > 0,
        ;
        if k > 0 {
            let k0 = (k - 1) as nat;
            lemma_pow2_unfold(k);
            let c0 = pow2(k0) as int;
            lemma_pow2_pos(k0);
            assert(num * c0 < 0x10_0000_0000_0000 * ((2 * c0) * p)) by (nonlinear_arith)
                requires
                    num < 0x20_0000_0000_0000 * p,
                    c0 > 0,
            ;
        }
        lemma_shift(num as int, d, k);
        lemma_half_bounds(num as int, p as int, 0x20_0000_0000_0000);
        lemma_half_bounds(num as int, p as int, 0x10_0000_0000_0000);
    }
    let up: bool = 2 * rest > p || (2 * rest == p && q % 2 == 1);
    let m: u128 = if up {
        q + 1
    } else {
        q
    };
    (m as u64, e - s)
}

/// As `settle`, of a number of either sign.
pub fn settle_signed(num: i128, e: u32) -> (r: (i64, u32))
    requires
        -0x4000_0000_0000_0000_0000_0000_0000_0000 < num < 0x4000_0000_0000_0000_0000_0000_0000_0000,
        e <= 126,
        num < 0x20_0000_0000_0000 * pow2(e as nat),
        -num < 0x20_0000_0000_0000 * pow2(e as nat),
    ensures
        (r.0 as int, r.1 as nat) == keep(num as int, pow2(e as nat) as int),
        -0x20_0000_0000_0000 <= r.0 <= 0x20_0000_0000_0000,
        r.1 <= e + 52,
        num == 0 || num >= 0x10_0000_0000_0000 || -num >= 0x10_0000_0000_0000 ==> r.1 <= e,
{
    if num == 0 {
        proof {
            lemma2_to64();
            lemma_pow2_pos(e as nat);
            lemma_half_bounds(0, pow2(e as nat) as int, 0);
        }
        return (0, 0);
    }
    if num > 0 {
        let (m, k): (u64, u32) = settle(num as u128, e);
        return (m as i64, k);
    }
    let (m, k): (u64, u32) = settle((-num) as u128, e);
    (-(m as i64), k)
}

/// The whole number nearest to `m` over two to the `k`.
pub fn whole_of(m: u64, k: u32) -> (r: u128)
    requires
        k <= 125,
    ensures
        r == nearest(m as int, pow2(k as nat) as int),
        r <= m + 1,
{
    proof {
        lemma_pow2_126();
        if k < 125 {
            lemma_pow2_strictly_increases(k as nat, 125);
        }
        lemma_pow2_unfold(126);
    }
    let p: u128 = power(k);
    let r: u128 = (2 * m as u128 + p) / (2 * p);
    proof {
        lemma_fundamental_div_mod(2 * m + p, 2 * p);
        lemma_mod_bound(2 * m + p, 2 * p);
        assert(r <= m + 1) by (nonlinear_arith)
            requires
                2 * m + p >= (2 * p) * r,
                p >= 1,
                m >= 0,
        ;
    }
    r
}

// ------------------------------------------------------------ from decimals

pub open spec fn ten_to(n: int) -> int
    decreases n,
{
    if n <= 0 {
        1
    } else {
        10 * ten_to(n - 1)
    }
}

pub proof fn lemma_ten_pos(n: int)
    ensures
        ten_to(n) >= 1,
    decreases n,
{
    if n > 0 {
        lemma_ten_pos(n - 1);
    }
}

/// Digits are worth less than one more digit.
pub proof fn lemma_digits_range(d: Seq<u8>)
    requires
        all_digits(d),
    ensures
        0 <= digits_value(d) < ten_to(d.len() as int),
    decreases d.len(),
{
    if d.len() > 0 {
        lemma_digits_range(d.drop_last());
    }
}

/// Digits in two parts.
pub proof fn lemma_digits_join(a: Seq<u8>, b: Seq<u8>)
    ensures
        digits_value(a + b) == digits_value(a) * ten_to(b.len() as int) + digits_value(b),
    decreases b.len(),
{
    if b.len() == 0 {
        assert(a + b =~= a);
    } else {
        lemma_digits_join(a, b.drop_last());
        assert((a + b).drop_last() =~= a + b.drop_last());
        let (x, t) = (digits_value(a), ten_to(b.len() - 1));
        assert(10 * (x * t) == x * (10 * t)) by (nonlinear_arith);
    }
}

/// Twice the digits after a point, and what that carries over it.
fn doubled(d: &Vec<u8>) -> (r: (u8, Vec<u8>))
    requires
        all_digits(d@),
    ensures
        all_digits(r.1@),
        r.1@.len() == d@.len(),
        r.0 <= 1,
        2 * digits_value(d@) == r.0 * ten_to(d@.len() as int) + digits_value(r.1@),
{
    let n: usize = d.len();
    if n == 0 {
        return (0, Vec::new());
    }
    let carry: u8 = if d[0] >= 53 {
        1
    } else {
        0
    };
    let mut out: Vec<u8> = Vec::new();
    let mut i: usize = 0;
    proof {
        assert(d@.take(0) =~= Seq::<u8>::empty());
    }
    while i < n
        invariant
            i <= n,
            n == d@.len(),
            n > 0,
            all_digits(d@),
            all_digits(out@),
            out@.len() == i,
            carry <= 1,
            2 * digits_value(d@.take(i as int)) + (if i < n && d@[i as int] >= 53 {
                1int
            } else {
                0
            }) == carry * ten_to(i as int) + digits_value(out@),
        decreases n - i,
    {
        let x: u8 = d[i] - 48;
        let next: u8 = if i + 1 < n && d[i + 1] >= 53 {
            1
        } else {
            0
        };
        let y: u8 = 48 + (2 * x) % 10 + next;
        proof {
            let t = d@.take(i + 1);
            assert(t.drop_last() =~= d@.take(i as int));
            assert(t.last() == d@[i as int]);
            assert(out@.push(y).drop_last() =~= out@);
            assert(ten_to(i + 1) == 10 * ten_to(i as int));
            assert(10 * (carry * ten_to(i as int)) == carry * ten_to(i + 1)) by (nonlinear_arith)
                requires
                    ten_to(i + 1) == 10 * ten_to(i as int),
            ;
        }
        out.push(y);
        i += 1;
    }
    assert(d@.take(n as int) =~= d@);
    (carry, out)
}

/// Whether any digit is not nought.
fn any_digit(d: &Vec<u8>) -> (r: bool)
    requires
        all_digits(d@),
    ensures
        r == (digits_value(d@) > 0),
{
    let mut i: usize = 0;
    assert(d@.take(0) =~= Seq::<u8>::empty());
    while i < d.len()
        invariant
            i <= d@.len(),
            all_digits(d@),
            digits_value(d@.take(i as int)) == 0,
        decreases d@.len() - i,
    {
        proof {
            assert(d@.take(i + 1).drop_last() =~= d@.take(i as int));
        }
        if d[i] != 48 {
            proof {
                lemma_digits_grow(d@, i + 1);
            }
            return true;
        }
        i += 1;
    }
    assert(d@.take(i as int) =~= d@);
    false
}

proof fn lemma_digits_grow(d: Seq<u8>, n: int)
    requires
        all_digits(d),
        0 <= n <= d.len(),
    ensures
        digits_value(d) >= digits_value(d.take(n)),
        digits_value(d.take(n)) >= 0,
{
    assert(d =~= d.take(n) + d.skip(n));
    lemma_digits_join(d.take(n), d.skip(n));
    lemma_digits_range(d.take(n));
    lemma_digits_range(d.skip(n));
    lemma_ten_pos(d.skip(n).len() as int);
    let (x, t) = (digits_value(d.take(n)), ten_to(d.skip(n).len() as int));
    assert(x * t >= x) by (nonlinear_arith)
        requires
            x >= 0,
            t >= 1,
    ;
}

/// Whether a number below one is too small to be told from nought: no more
/// than half of the least that can be kept.
pub fn vanishes(d: &Vec<u8>) -> (r: bool)
    requires
        all_digits(d@),
    ensures
        r == (digits_value(d@) * pow2(1075) <= ten_to(d@.len() as int)),
{
    let ghost v = digits_value(d@);
    let ghost t = ten_to(d@.len() as int);
    proof {
        lemma2_to64();
        lemma_digits_range(d@);
        assert(v * 1 == v);
    }
    let mut at: Vec<u8> = Vec::new();
    let mut i: u32 = 0;
    while at.len() < d.len()
        invariant
            at@.len() <= d@.len(),
            forall|x: int| 0 <= x < at@.len() ==> at@[x] == d@[x],
        decreases d@.len() - at@.len(),
    {
        let b: u8 = d[at.len()];
        at.push(b);
    }
    assert(at@ =~= d@);
    while i < 1074
        invariant
            i <= 1074,
            all_digits(at@),
            at@.len() == d@.len(),
            v >= 0,
            v == digits_value(d@),
            t == ten_to(d@.len() as int),
            v * pow2(i as nat) == digits_value(at@),
        decreases 1074 - i,
    {
        let (carry, next): (u8, Vec<u8>) = doubled(&at);
        proof {
            let i1 = (i + 1) as nat;
            lemma_pow2_unfold(i1);
            assert(v * pow2(i1) == 2 * (v * pow2(i as nat))) by (nonlinear_arith)
                requires
                    pow2(i1) == 2 * pow2(i as nat),
            ;
        }
        if carry == 1 {
            proof {
                lemma_digits_range(next@);
                lemma_ten_pos(d@.len() as int);
                lemma_vanish(v, t, (i + 1) as nat);
            }
            return false;
        }
        at = next;
        i += 1;
    }
    let (carry, next): (u8, Vec<u8>) = doubled(&at);
    proof {
        lemma_pow2_unfold(1075);
        assert(v * pow2(1075) == 2 * (v * pow2(1074))) by (nonlinear_arith)
            requires
                pow2(1075) == 2 * pow2(1074),
        ;
        lemma_digits_range(next@);
        assert(carry * t == (if carry == 1 {
            t
        } else {
            0
        })) by (nonlinear_arith)
            requires
                carry == 0 || carry == 1,
        ;
        assert(v * pow2(1075) == carry * t + digits_value(next@));
    }
    if carry == 0 {
        return true;
    }
    !any_digit(&next)
}

proof fn lemma_vanish(v: int, t: int, i: nat)
    requires
        v * pow2(i) >= t,
        v >= 0,
        t >= 1,
        i < 1075,
    ensures
        v * pow2(1075) > t,
{
    lemma_pow2_strictly_increases(i, 1075);
    assert(v > 0) by (nonlinear_arith)
        requires
            v * pow2(i) >= t,
            t >= 1,
            v >= 0,
    ;
    assert(v * pow2(1075) > v * pow2(i)) by (nonlinear_arith)
        requires
            v > 0,
            pow2(1075) > pow2(i),
    ;
}

/// What the count of doublings was counted for.
proof fn lemma_shift_is(num: int, den: int)
    requires
        num > 0,
        den > 0,
    ensures
        num * pow2(shift(num, den)) >= 0x10_0000_0000_0000 * den,
        shift(num, den) > 0 ==> num * pow2((shift(num, den) - 1) as nat) < 0x10_0000_0000_0000
            * den,
    decreases 0x20_0000_0000_0000 * den - num,
{
    lemma2_to64();
    let k = shift(num, den);
    if num >= 0x10_0000_0000_0000 * den {
        assert(num * 1 == num);
    } else {
        lemma_shift_is(2 * num, den);
        let j = (k - 1) as nat;
        lemma_pow2_unfold(k);
        assert(num * pow2(k) == 2 * num * pow2(j)) by (nonlinear_arith)
            requires
                pow2(k) == 2 * pow2(j),
        ;
        if j > 0 {
            let i = (j - 1) as nat;
            lemma_pow2_unfold(j);
            assert(num * pow2(j) == 2 * num * pow2(i)) by (nonlinear_arith)
                requires
                    pow2(j) == 2 * pow2(i),
            ;
        } else {
            assert(num * 1 == num);
        }
    }
}

/// A number and its first fifty-five bits, the last of which says whether more
/// follow, fill fifty-three bits alike.
proof fn lemma_sticky_fill(v: int, d: int, b: int, r: int, n: int, k: nat)
    requires
        d > 0,
        v * pow2(54) == b * d + r,
        0 <= r < d,
        b >= 0,
        n == 2 * b + (if r > 0 {
            1int
        } else {
            0
        }),
        k <= 54,
    ensures
        (v * pow2(k) >= 0x10_0000_0000_0000 * d) == (n * pow2(k) >= 0x10_0000_0000_0000 * pow2(55)),
{
    let j = (54 - k) as nat;
    lemma_pow2_adds(k, j);
    lemma_pow2_adds(54, 1);
    lemma2_to64();
    lemma_pow2_pos(j);
    lemma_pow2_pos(k);
    let (p, q) = (pow2(j) as int, pow2(k) as int);
    let c: int = 0x10_0000_0000_0000 * p;
    assert((v * q >= 0x10_0000_0000_0000 * d) == (v * q * p >= c * d)) by (nonlinear_arith)
        requires
            p > 0,
            c == 0x10_0000_0000_0000 * p,
    ;
    assert(v * q * p == b * d + r) by (nonlinear_arith)
        requires
            v * (q * p) == b * d + r,
    ;
    assert((b * d + r >= c * d) == (b >= c)) by (nonlinear_arith)
        requires
            0 <= r < d,
    ;
    assert(pow2(55) == 2 * (p * q)) by (nonlinear_arith)
        requires
            pow2(55) == (q * p) * 2,
    ;
    assert((n * q >= 0x10_0000_0000_0000 * (2 * (p * q))) == (n >= 2 * c)) by (nonlinear_arith)
        requires
            q > 0,
            c == 0x10_0000_0000_0000 * p,
    ;
}

/// What is kept of a number of at least a half is kept of its first fifty-five
/// bits, the last of which says whether more follow.
proof fn lemma_sticky(v: int, d: int, b: int, r: int, n: int)
    requires
        d > 0,
        2 * v >= d,
        v * pow2(54) == b * d + r,
        0 <= r < d,
        b >= 0,
        n == 2 * b + (if r > 0 {
            1int
        } else {
            0
        }),
    ensures
        keep(v, d) == keep(n, pow2(55) as int),
        n > 0,
{
    let k = shift(v, d);
    lemma_shift_is(v, d);
    lemma_two_to_52();
    if k > 53 {
        let j = (k - 1) as nat;
        if j > 53 {
            lemma_pow2_strictly_increases(53, j);
        }
        assert(v * pow2(j) >= 0x10_0000_0000_0000 * d) by (nonlinear_arith)
            requires
                pow2(j) >= 0x20_0000_0000_0000,
                2 * v >= d,
                d > 0,
        ;
    }
    lemma_pow2_pos(55);
    lemma_pow2_pos(54);
    lemma_sticky_fill(v, d, b, r, n, k);
    if k > 0 {
        lemma_sticky_fill(v, d, b, r, n, (k - 1) as nat);
    }
    assert(n > 0) by {
        if n <= 0 {
            assert(b == 0 && r == 0);
            assert(v * pow2(54) > 0) by (nonlinear_arith)
                requires
                    v > 0,
                    pow2(54) > 0,
            ;
        }
    }
    lemma_shift(n, pow2(55) as int, k);
    // The same whole part, and the same half.
    let j = (53 - k) as nat;
    let (h, q) = (pow2(j) as int, pow2(k) as int);
    lemma_pow2_pos(j);
    lemma_pow2_pos(k);
    let p = 2 * h;
    lemma_pow2_unfold((j + 1) as nat);
    lemma_pow2_adds(k, (j + 1) as nat);
    lemma_pow2_adds(54, 1);
    lemma2_to64();
    let (g, y) = (b / p, b % p);
    lemma_fundamental_div_mod(b, p);
    lemma_mod_bound(b, p);
    let rest = v * q - g * d;
    assert(rest * p == y * d + r) by (nonlinear_arith)
        requires
            rest == v * q - g * d,
            v * (q * p) == b * d + r,
            b == p * g + y,
    ;
    assert(0 <= rest < d) by (nonlinear_arith)
        requires
            rest * p == y * d + r,
            0 <= r < d,
            0 <= y < p,
            d > 0,
    ;
    lemma_fundamental_div_mod_converse(v * q, d, g, rest);
    let s: int = if r > 0 {
        1
    } else {
        0
    };
    assert(n == g * (2 * p) + (2 * y + s)) by (nonlinear_arith)
        requires
            n == 2 * b + s,
            b == p * g + y,
    ;
    lemma_fundamental_div_mod_converse(n, 2 * p, g, 2 * y + s);
    assert(pow2(55) == q * (2 * p)) by (nonlinear_arith)
        requires
            pow2(55) == (q * p) * 2,
    ;
    lemma_half_common(q, n, 2 * p);
    assert(q * n == n * q) by (nonlinear_arith);
    assert((2 * rest > d) == (y * d + r > h * d)) by (nonlinear_arith)
        requires
            rest * (2 * h) == y * d + r,
            h > 0,
    ;
    assert((2 * rest == d) == (y * d + r == h * d)) by (nonlinear_arith)
        requires
            rest * (2 * h) == y * d + r,
            h > 0,
    ;
    if y < h {
        assert(y * d + r < h * d) by (nonlinear_arith)
            requires
                y + 1 <= h,
                r < d,
                d > 0,
        ;
    } else if y > h {
        assert(y * d + r > h * d) by (nonlinear_arith)
            requires
                y >= h + 1,
                0 <= r,
                d > 0,
        ;
    }
}

/// What is kept of `w` and the digits after the point.
pub fn read_decimal(w: u64, d: &Vec<u8>) -> (r: (u64, u32))
    requires
        w < 256,
        all_digits(d@),
        w > 0 || 2 * digits_value(d@) >= ten_to(d@.len() as int),
    ensures
        (r.0 as int, r.1 as nat) == keep(
            w * ten_to(d@.len() as int) + digits_value(d@),
            ten_to(d@.len() as int),
        ),
        0 < r.0 <= 0x20_0000_0000_0000,
        r.1 <= 55,
{
    let ghost v = digits_value(d@);
    let ghost t = ten_to(d@.len() as int);
    proof {
        lemma_two_to_52();
        lemma_ten_pos(d@.len() as int);
        lemma_digits_range(d@);
        assert(v * 1 == v);
        lemma_pow2_unfold(54);
        lemma_pow2_unfold(55);
    }
    let (carry, first): (u8, Vec<u8>) = doubled(d);
    proof {
        lemma_pow2_unfold(1);
        assert(v * pow2(1) == 2 * v) by (nonlinear_arith)
            requires
                pow2(1) == 2,
        ;
    }
    let mut bits: u64 = carry as u64;
    let mut at: Vec<u8> = first;
    let mut i: u32 = 1;
    while i < 54
        invariant
            1 <= i <= 54,
            all_digits(at@),
            at@.len() == d@.len(),
            t == ten_to(d@.len() as int),
            v * pow2(i as nat) == bits * t + digits_value(at@),
            bits < pow2(i as nat),
            pow2(53) == 0x20_0000_0000_0000,
        decreases 54 - i,
    {
        let (c, next): (u8, Vec<u8>) = doubled(&at);
        proof {
            let i1 = (i + 1) as nat;
            lemma_pow2_unfold(i1);
            if i < 53 {
                lemma_pow2_strictly_increases(i as nat, 53);
            }
            assert(v * pow2(i1) == 2 * (v * pow2(i as nat))) by (nonlinear_arith)
                requires
                    pow2(i1) == 2 * pow2(i as nat),
            ;
            assert((2 * bits + c) * t == 2 * (bits * t) + c * t) by (nonlinear_arith);
        }
        bits = 2 * bits + c as u64;
        at = next;
        i += 1;
    }
    let more: bool = any_digit(&at);
    assert(w * 0x40_0000_0000_0000 <= 255 * 0x40_0000_0000_0000) by (nonlinear_arith)
        requires
            w <= 255,
    ;
    let b: u64 = w * 0x40_0000_0000_0000 + bits;
    let n: u128 = 2 * b as u128 + if more {
        1
    } else {
        0
    };
    proof {
        lemma_digits_range(at@);
        let r = digits_value(at@);
        let x = w * t + v;
        assert(x * pow2(54) == b * t + r) by (nonlinear_arith)
            requires
                x == w * t + v,
                v * pow2(54) == bits * t + r,
                b == w * pow2(54) + bits,
        ;
        assert(2 * x >= t) by (nonlinear_arith)
            requires
                x == w * t + v,
                v >= 0,
                t >= 1,
                w > 0 || 2 * v >= t,
                w >= 0,
        ;
        lemma_sticky(x, t, b as int, r, n as int);
        assert(n >= 0x10_0000_0000_0000) by {
            assert(b * t + r >= 0x20_0000_0000_0000 * t) by (nonlinear_arith)
                requires
                    x * pow2(54) == b * t + r,
                    2 * x >= t,
                    pow2(54) == 0x40_0000_0000_0000,
            ;
            assert(b >= 0x20_0000_0000_0000) by (nonlinear_arith)
                requires
                    b * t + r >= 0x20_0000_0000_0000 * t,
                    r < t,
                    t >= 1,
            ;
        }
    }
    settle(n, 55)
}

} // verus!
