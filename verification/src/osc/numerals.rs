//! Numbers as change files write them.

use vstd::prelude::*;
use vstd::utf8::{decode_utf8, encode_utf8, valid_utf8};
use crate::addresses::entries::{all_digits, digits_value};
use crate::text::{trim, trim_of, utf8};

verus! {

/// Digits and nothing else, up to a largest number.
pub open spec fn digits_of(s: Seq<u8>, max: int) -> Option<int> {
    if s.len() == 0 || !all_digits(s) || digits_value(s) > max {
        None
    } else {
        Some(digits_value(s))
    }
}

/// Reads the digits from `from` on.
pub fn read_digits(b: &[u8], from: usize, max: u64) -> (r: Option<u64>)
    requires
        from <= b@.len(),
    ensures
        match r {
            None => digits_of(b@.subrange(from as int, b@.len() as int), max as int) is None,
            Some(v) => digits_of(b@.subrange(from as int, b@.len() as int), max as int) == Some(
                v as int,
            ),
        },
{
    let ghost d = b@.subrange(from as int, b@.len() as int);
    if from == b.len() {
        return None;
    }
    let mut n: u128 = 0;
    let mut over: bool = false;
    let mut i: usize = from;
    assert(d.take(0) =~= Seq::<u8>::empty());
    while i < b.len()
        invariant
            d == b@.subrange(from as int, b@.len() as int),
            from <= i <= b@.len(),
            all_digits(d.take(i - from)),
            over ==> digits_value(d.take(i - from)) > max,
            !over ==> n == digits_value(d.take(i - from)) && n <= max,
        decreases b@.len() - i,
    {
        let c: u8 = b[i];
        proof {
            assert(d[i - from] == c);
            assert(d.take(i + 1 - from).drop_last() =~= d.take(i - from));
            assert(d.take(i + 1 - from).last() == c);
        }
        if c < 48 || c > 57 {
            assert(!all_digits(d)) by {
                assert(!(48 <= d[i - from] <= 57));
            }
            return None;
        }
        if !over {
            n = 10 * n + (c - 48) as u128;
            if n > max as u128 {
                over = true;
            }
        }
        proof {
            let t = d.take(i + 1 - from);
            assert forall|x: int| 0 <= x < t.len() implies 48 <= #[trigger] t[x] <= 57 by {
                if x < i - from {
                    assert(d.take(i - from)[x] == t[x]);
                }
            }
        }
        i += 1;
    }
    assert(d.take(i - from) =~= d);
    if over {
        None
    } else {
        Some(n as u64)
    }
}

/// A number without a sign but for a plus.
pub open spec fn natural_of(s: Seq<u8>) -> Option<int> {
    if s.len() > 0 && s[0] == 43 {
        digits_of(s.subrange(1, s.len() as int), u64::MAX as int)
    } else {
        digits_of(s, u64::MAX as int)
    }
}

/// A number with or without a sign.
pub open spec fn integer_of(s: Seq<u8>) -> Option<int> {
    if s.len() > 0 && s[0] == 45 {
        match digits_of(s.subrange(1, s.len() as int), 0x8000_0000_0000_0000) {
            None => None,
            Some(v) => Some(-v),
        }
    } else if s.len() > 0 && s[0] == 43 {
        digits_of(s.subrange(1, s.len() as int), i64::MAX as int)
    } else {
        digits_of(s, i64::MAX as int)
    }
}

pub open spec fn trimmed(s: Seq<u8>) -> Option<Seq<u8>> {
    if valid_utf8(s) {
        Some(encode_utf8(trim_of(decode_utf8(s))))
    } else {
        None
    }
}

/// The number of a way, white space around it let go.
pub open spec fn id_of(s: Seq<u8>) -> Option<int> {
    match trimmed(s) {
        None => None,
        Some(t) => natural_of(t),
    }
}

/// The number of a node.
pub open spec fn ref_of(s: Seq<u8>) -> Option<int> {
    match trimmed(s) {
        None => None,
        Some(t) => integer_of(t),
    }
}

pub fn read_id(s: &[u8]) -> (r: Option<u64>)
    ensures
        match r {
            None => id_of(s@) is None,
            Some(v) => id_of(s@) == Some(v as int),
        },
{
    match utf8(s) {
        None => None,
        Some(t) => {
            let t: &str = trim(t);
            let b: &[u8] = t.as_bytes();
            assert(b@.subrange(0, b@.len() as int) =~= b@);
            if b.len() > 0 && b[0] == 43 {
                read_digits(b, 1, u64::MAX)
            } else {
                read_digits(b, 0, u64::MAX)
            }
        },
    }
}

pub fn read_ref(s: &[u8]) -> (r: Option<i64>)
    ensures
        match r {
            None => ref_of(s@) is None,
            Some(v) => ref_of(s@) == Some(v as int),
        },
{
    match utf8(s) {
        None => None,
        Some(t) => {
            let t: &str = trim(t);
            let b: &[u8] = t.as_bytes();
            assert(b@.subrange(0, b@.len() as int) =~= b@);
            if b.len() > 0 && b[0] == 45 {
                match read_digits(b, 1, 0x8000_0000_0000_0000) {
                    None => None,
                    Some(v) => Some(
                        if v == 0x8000_0000_0000_0000 {
                            i64::MIN
                        } else {
                            -(v as i64)
                        },
                    ),
                }
            } else {
                let from: usize = if b.len() > 0 && b[0] == 43 {
                    1
                } else {
                    0
                };
                match read_digits(b, from, i64::MAX as u64) {
                    None => None,
                    Some(v) => Some(v as i64),
                }
            }
        },
    }
}

/// What has been read of a decimal number.
pub struct Degrees {
    pub whole: int,
    /// Places after the dot, in 1e-7.
    pub frac: int,
    /// What the last place counted.
    pub scale: int,
    pub dot: bool,
    pub any: bool,
}

/// The first `n` places of a decimal number; places past the seventh are let
/// go.
pub open spec fn degrees_to(s: Seq<u8>, n: int) -> Option<Degrees>
    decreases n,
{
    if n <= 0 {
        Some(Degrees { whole: 0, frac: 0, scale: 10_000_000, dot: false, any: false })
    } else {
        match degrees_to(s, n - 1) {
            None => None,
            Some(d) => {
                let c = s[n - 1];
                if c == 46 && !d.dot {
                    Some(Degrees { dot: true, ..d })
                } else if !(48 <= c <= 57) {
                    None
                } else if !d.dot {
                    Some(Degrees { whole: 10 * d.whole + (c - 48), any: true, ..d })
                } else if d.scale > 1 {
                    Some(
                        Degrees {
                            scale: d.scale / 10,
                            frac: d.frac + (c - 48) * (d.scale / 10),
                            any: true,
                            ..d
                        },
                    )
                } else {
                    Some(Degrees { any: true, ..d })
                }
            },
        }
    }
}

/// Degrees in 1e-7, cut off rather than rounded.
pub open spec fn degrees_of(s: Seq<u8>) -> Option<int> {
    let neg = s.len() > 0 && s[0] == 45;
    let t = if s.len() > 0 && (s[0] == 45 || s[0] == 43) {
        s.subrange(1, s.len() as int)
    } else {
        s
    };
    match degrees_to(t, t.len() as int) {
        None => None,
        Some(d) => {
            let v = d.whole * 10_000_000 + d.frac;
            let v = if neg {
                -v
            } else {
                v
            };
            if d.any && i32::MIN <= v <= i32::MAX {
                Some(v)
            } else {
                None
            }
        },
    }
}

spec fn past(whole: int) -> bool {
    whole > 0x1_0000_0000
}

proof fn lemma_past(s: Seq<u8>, a: int, b: int)
    requires
        0 <= a <= b,
        degrees_to(s, b) is Some,
    ensures
        degrees_to(s, a) is Some,
        0 <= degrees_to(s, a)->0.whole <= degrees_to(s, b)->0.whole,
        0 <= degrees_to(s, b)->0.frac,
        0 <= degrees_to(s, b)->0.scale <= 10_000_000,
        0 <= degrees_to(s, b)->0.frac <= 9_999_999 + 9 * (10_000_000 - degrees_to(s, b)->0.scale),
    decreases b,
{
    if a < b {
        lemma_past(s, a, b - 1);
    } else if b > 0 {
        lemma_past(s, b - 1, b - 1);
    }
    if b > 0 {
        let d = degrees_to(s, b - 1)->0;
        let c = s[b - 1];
        if 48 <= c <= 57 && d.dot && d.scale > 1 {
            assert((c - 48) * (d.scale / 10) <= 9 * (d.scale / 10)) by (nonlinear_arith)
                requires
                    48 <= c <= 57,
                    0 <= d.scale / 10,
            ;
            assert(0 <= (c - 48) * (d.scale / 10)) by (nonlinear_arith)
                requires
                    48 <= c <= 57,
                    0 <= d.scale / 10,
            ;
        }
    }
}

/// Parses decimal degrees into 1e-7 degrees.
#[verifier::rlimit(40)]
pub fn deg_e7(s: &[u8]) -> (r: Option<i32>)
    ensures
        match r {
            None => degrees_of(s@) is None,
            Some(v) => degrees_of(s@) == Some(v as int),
        },
{
    let neg: bool = s.len() > 0 && s[0] == 45;
    let from: usize = if s.len() > 0 && (s[0] == 45 || s[0] == 43) {
        1
    } else {
        0
    };
    let ghost t = s@.subrange(from as int, s@.len() as int);
    assert(from == 0 ==> t =~= s@);
    let mut whole: i64 = 0;
    let mut frac: i64 = 0;
    let mut scale: i64 = 10_000_000;
    let mut dot: bool = false;
    let mut any: bool = false;
    let mut over: bool = false;
    let mut i: usize = from;
    while i < s.len()
        invariant
            from <= i <= s@.len(),
            t == s@.subrange(from as int, s@.len() as int),
            degrees_of(s@) == match degrees_to(t, t.len() as int) {
                None => None,
                Some(d) => {
                    let v = d.whole * 10_000_000 + d.frac;
                    let v = if neg {
                        -v
                    } else {
                        v
                    };
                    if d.any && i32::MIN <= v <= i32::MAX {
                        Some(v)
                    } else {
                        None
                    }
                },
            },
            degrees_to(t, i - from) matches Some(d) && {
                &&& d.dot == dot
                &&& d.any == any
                &&& d.scale == scale
                &&& d.frac == frac
                &&& !over ==> d.whole == whole
                &&& over ==> past(d.whole)
            },
            !over ==> 0 <= whole <= 0x1_0000_0000,
            0 <= scale <= 10_000_000,
            0 <= frac <= 9_999_999 + 9 * (10_000_000 - scale),
        decreases s@.len() - i,
    {
        let c: u8 = s[i];
        assert(t[i - from] == c);
        if c == 46 && !dot {
            dot = true;
        } else if c < 48 || c > 57 {
            proof {
                if degrees_to(t, t.len() as int) is Some {
                    lemma_past(t, i + 1 - from, t.len() as int);
                }
            }
            return None;
        } else {
            any = true;
            let v: i64 = (c - 48) as i64;
            if dot {
                if scale > 1 {
                    scale = scale / 10;
                    assert(v * scale <= 9 * scale && 0 <= v * scale) by (nonlinear_arith)
                        requires
                            0 <= v <= 9,
                            0 <= scale,
                    ;
                    frac = frac + v * scale;
                }
            } else if !over {
                whole = 10 * whole + v;
                if whole > 0x1_0000_0000 {
                    over = true;
                }
            }
        }
        i += 1;
    }
    proof {
        lemma_past(t, t.len() as int, t.len() as int);
    }
    if !any || over {
        return None;
    }
    let v: i64 = whole * 10_000_000 + frac;
    let v: i64 = if neg {
        -v
    } else {
        v
    };
    if v < i32::MIN as i64 || v > i32::MAX as i64 {
        return None;
    }
    Some(v as i32)
}

} // verus!
