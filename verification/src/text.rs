//! Comparing bytes and text.

use vstd::prelude::*;
use vstd::string::StringExecFns;
use vstd::utf8::{decode_utf8, encode_utf8, valid_utf8};

verus! {

/// `std::str::from_utf8`: the text of a byte string, if it is valid UTF-8.
#[verifier::external_body]
pub(crate) fn utf8<'b>(b: &'b [u8]) -> (r: Option<&'b str>)
    ensures
        r matches Some(s) ==> valid_utf8(b@) && s@ == decode_utf8(b@),
        r is None ==> !valid_utf8(b@),
{
    std::str::from_utf8(b).ok()
}

/// The bytes of a word.
pub open spec fn word(s: &str) -> Seq<u8> {
    encode_utf8(s@)
}

pub fn bytes_eq(a: &[u8], b: &[u8]) -> (r: bool)
    ensures
        r == (a@ == b@),
{
    if a.len() != b.len() {
        return false;
    }
    let mut i: usize = 0;
    while i < a.len()
        invariant
            a@.len() == b@.len(),
            i <= a@.len(),
            forall|j: int| 0 <= j < i ==> a@[j] == b@[j],
        decreases a@.len() - i,
    {
        if a[i] != b[i] {
            return false;
        }
        i += 1;
    }
    assert(a@ =~= b@);
    true
}

/// Whether a byte string spells `w`.
pub fn is_word(a: &[u8], w: &str) -> (r: bool)
    ensures
        r == (a@ == word(w)),
{
    bytes_eq(a, w.as_bytes())
}

pub fn str_eq(a: &str, b: &str) -> (r: bool)
    ensures
        r == (a@ == b@),
{
    let r = bytes_eq(a.as_bytes(), b.as_bytes());
    proof {
        vstd::utf8::encode_utf8_decode_utf8(a@);
        vstd::utf8::encode_utf8_decode_utf8(b@);
    }
    r
}

/// A decimal digit as a character.
pub open spec fn digit(d: int) -> char {
    if d == 0 {
        '0'
    } else if d == 1 {
        '1'
    } else if d == 2 {
        '2'
    } else if d == 3 {
        '3'
    } else if d == 4 {
        '4'
    } else if d == 5 {
        '5'
    } else if d == 6 {
        '6'
    } else if d == 7 {
        '7'
    } else if d == 8 {
        '8'
    } else {
        '9'
    }
}

/// A number in decimal, without leading zeros.
pub open spec fn decimal_of(n: nat) -> Seq<char>
    decreases n,
{
    if n < 10 {
        seq![digit(n as int)]
    } else {
        decimal_of(n / 10).push(digit((n % 10) as int))
    }
}

fn digit_str(d: u64) -> (r: &'static str)
    requires
        d < 10,
    ensures
        r@ == seq![digit(d as int)],
{
    proof {
        reveal_strlit("0");
        reveal_strlit("1");
        reveal_strlit("2");
        reveal_strlit("3");
        reveal_strlit("4");
        reveal_strlit("5");
        reveal_strlit("6");
        reveal_strlit("7");
        reveal_strlit("8");
        reveal_strlit("9");
    }
    let r = if d == 0 {
        "0"
    } else if d == 1 {
        "1"
    } else if d == 2 {
        "2"
    } else if d == 3 {
        "3"
    } else if d == 4 {
        "4"
    } else if d == 5 {
        "5"
    } else if d == 6 {
        "6"
    } else if d == 7 {
        "7"
    } else if d == 8 {
        "8"
    } else {
        "9"
    };
    assert(r@ =~= seq![digit(d as int)]);
    r
}

/// Writes a number in decimal.
pub fn decimal(n: u64) -> (r: String)
    ensures
        r@ == decimal_of(n as nat),
    decreases n,
{
    if n < 10 {
        return String::from_str(digit_str(n));
    }
    let mut r: String = decimal(n / 10);
    r.append(digit_str(n % 10));
    assert(r@ =~= decimal_of(n as nat / 10).push(digit((n % 10) as int)));
    r
}

/// The characters with the Unicode property White_Space.
pub open spec fn is_white(c: char) -> bool {
    let n = c as u32;
    ||| 9 <= n <= 13
    ||| n == 0x20
    ||| n == 0x85
    ||| n == 0xA0
    ||| n == 0x1680
    ||| 0x2000 <= n <= 0x200A
    ||| n == 0x2028
    ||| n == 0x2029
    ||| n == 0x202F
    ||| n == 0x205F
    ||| n == 0x3000
}

/// The text without the white space at its two ends.
pub open spec fn trim_of(s: Seq<char>) -> Seq<char>
    decreases s.len(),
{
    if s.len() == 0 {
        s
    } else if is_white(s[0]) {
        trim_of(s.drop_first())
    } else if is_white(s.last()) {
        trim_of(s.drop_last())
    } else {
        s
    }
}

/// `str::trim`: the part of a text between the white space at its two ends.
#[verifier::external_body]
pub(crate) fn trim(s: &str) -> (r: &str)
    ensures
        r@ == trim_of(s@),
{
    s.trim()
}

/// A byte with `A` to `Z` made small.
pub open spec fn lower8(b: u8) -> u8 {
    if 65 <= b <= 90 {
        (b + 32) as u8
    } else {
        b
    }
}

pub open spec fn lower(s: Seq<u8>) -> Seq<u8> {
    Seq::new(s.len(), |i: int| lower8(s[i]))
}

/// The bytes with `A` to `Z` made small.
pub fn lowered(s: &[u8]) -> (r: Vec<u8>)
    ensures
        r@ == lower(s@),
{
    let mut r: Vec<u8> = Vec::new();
    while r.len() < s.len()
        invariant
            r@.len() <= s@.len(),
            forall|i: int| 0 <= i < r@.len() ==> #[trigger] r@[i] == lower8(s@[i]),
        decreases s@.len() - r@.len(),
    {
        let b: u8 = s[r.len()];
        r.push(
            if b >= 65 && b <= 90 {
                b + 32
            } else {
                b
            },
        );
    }
    assert(r@ =~= lower(s@));
    r
}

/// `w` stands in `s` at `i`.
pub open spec fn found_at(s: Seq<u8>, w: Seq<u8>, i: int) -> bool {
    0 <= i && i + w.len() <= s.len() && s.subrange(i, i + w.len()) == w
}

pub open spec fn holds(s: Seq<u8>, w: Seq<u8>) -> bool {
    exists|i: int| found_at(s, w, i)
}

/// Whether `w` stands anywhere in `s`.
pub fn has_word(s: &[u8], w: &str) -> (r: bool)
    ensures
        r == holds(s@, word(w)),
{
    let n: usize = s.len();
    let wb: &[u8] = w.as_bytes();
    let m: usize = wb.len();
    if m > n {
        return false;
    }
    if m == 0 {
        assert(s@.subrange(0, 0) =~= word(w));
        assert(found_at(s@, word(w), 0));
        return true;
    }
    let mut left: usize = n - m + 1;
    while left > 0
        invariant
            n == s@.len(),
            m == wb@.len(),
            wb@ == word(w),
            m <= n,
            left <= n - m + 1,
            forall|x: int| left <= x ==> !#[trigger] found_at(s@, word(w), x),
        decreases left,
    {
        left = left - 1;
        let part: &[u8] = vstd::slice::slice_subrange(s, left, left + m);
        if bytes_eq(part, wb) {
            assert(found_at(s@, word(w), left as int));
            return true;
        }
        assert(!found_at(s@, word(w), left as int));
    }
    false
}

} // verus!
