//! Street names and house numbers as they are compared.

use vstd::prelude::*;
use vstd::utf8::{decode_utf8, encode_utf8, valid_utf8};
use crate::text::{is_white, trim, trim_of, utf8};

verus! {

/// What `char::to_lowercase` makes of a character.
pub uninterp spec fn lowercase(c: char) -> Seq<char>;

/// `char::to_lowercase`: the small form of a character, which may be more than
/// one. Claims that it depends on the character alone.
#[verifier::external_body]
fn to_lower(c: char) -> (r: Vec<char>)
    ensures
        r@ == lowercase(c),
{
    c.to_lowercase().collect()
}

/// `String::from_iter` over characters: the text made of them, in order.
#[verifier::external_body]
pub(crate) fn from_chars(v: &Vec<char>) -> (r: String)
    ensures
        r@ == v@,
{
    v.iter().collect()
}

/// Whether a character is white space.
fn white(c: char) -> (r: bool)
    ensures
        r == is_white(c),
{
    let n: u32 = c as u32;
    (9 <= n && n <= 13) || n == 0x20 || n == 0x85 || n == 0xA0 || n == 0x1680 || (0x2000 <= n && n
        <= 0x200A) || n == 0x2028 || n == 0x2029 || n == 0x202F || n == 0x205F || n == 0x3000
}

/// The first `n` characters in small letters, runs of white space between them
/// made one blank; and whether white space came last.
pub open spec fn joined(s: Seq<char>, n: int) -> (Seq<char>, bool)
    decreases n,
{
    if n <= 0 {
        (Seq::empty(), false)
    } else {
        let (out, space) = joined(s, n - 1);
        let c = s[n - 1];
        if is_white(c) {
            (out, true)
        } else if space && out.len() > 0 {
            (out.push(' ') + lowercase(c), false)
        } else {
            (out + lowercase(c), false)
        }
    }
}

/// A name as it is compared: trimmed, in small letters, single blanks inside.
/// Diacritics are kept.
pub open spec fn norm_of(s: Seq<char>) -> Seq<char> {
    let t = trim_of(s);
    joined(t, t.len() as int).0
}

fn push_all(out: &mut Vec<char>, more: &Vec<char>)
    ensures
        final(out)@ == old(out)@ + more@,
{
    let ghost o = out@;
    let mut i: usize = 0;
    assert(o + more@.take(0) =~= o);
    while i < more.len()
        invariant
            i <= more@.len(),
            out@ == o + more@.take(i as int),
        decreases more@.len() - i,
    {
        out.push(more[i]);
        assert(out@ =~= o + more@.take(i + 1));
        i += 1;
    }
    assert(more@.take(i as int) =~= more@);
}

/// Lowercase, trim, and collapse white space.
pub fn normalize(s: &str) -> (r: String)
    ensures
        r@ == norm_of(s@),
{
    let t: &str = trim(s);
    let mut out: Vec<char> = Vec::new();
    let mut space: bool = false;
    for c in it: t.chars()
        invariant
            it.seq() == t@,
            (out@, space) == joined(t@, it.index() as int),
    {
        if white(c) {
            space = true;
        } else {
            if space && out.len() > 0 {
                out.push(' ');
            }
            space = false;
            let low: Vec<char> = to_lower(c);
            push_all(&mut out, &low);
        }
    }
    from_chars(&out)
}

/// The number that the digits before `n` write out, held at the largest.
pub open spec fn leading(s: Seq<char>, n: int) -> int
    decreases n,
{
    if n <= 0 {
        0
    } else {
        10 * leading(s, n - 1) + (s[n - 1] as u32 - 48)
    }
}

/// How many digits `s` begins with, from `i` on.
pub open spec fn digits_end(s: Seq<char>, i: int) -> int
    decreases s.len() - i,
{
    if i >= s.len() || !(48 <= s[i] as u32 <= 57) {
        i
    } else {
        digits_end(s, i + 1)
    }
}

/// The number at the front of a house number; the largest there is where there
/// is none or it does not fit.
pub open spec fn hn_of(s: Seq<char>) -> u32 {
    let t = trim_of(s);
    let e = digits_end(t, 0);
    if e == 0 || leading(t, e) > u32::MAX {
        u32::MAX
    } else {
        leading(t, e) as u32
    }
}

proof fn lemma_leading(s: Seq<char>, n: int, m: int)
    requires
        0 <= n <= m,
        forall|i: int| 0 <= i < m ==> 48 <= (#[trigger] s[i]) as u32 <= 57,
    ensures
        0 <= leading(s, n) <= leading(s, m),
    decreases m,
{
    if m > 0 {
        if n < m {
            lemma_leading(s, n, m - 1);
        } else {
            lemma_leading(s, n - 1, m - 1);
        }
        assert(48 <= s[m - 1] as u32 <= 57);
    }
}

/// Leading integer of a house number, for ordering and nearest-number search.
pub fn hn_number(s: &str) -> (r: u32)
    ensures
        r == hn_of(s@),
{
    let t: &str = trim(s);
    let mut n: u64 = 0;
    let ghost mut seen: int = 0;
    let mut any: bool = false;
    let mut over: bool = false;
    let mut going: bool = true;
    for c in it: t.chars()
        invariant
            it.seq() == t@,
            0 <= seen <= it.index(),
            any == (seen > 0),
            it.index() <= t@.len(),
            going ==> seen == it.index(),
            going ==> digits_end(t@, seen) == digits_end(t@, 0),
            !going ==> seen == digits_end(t@, 0),
            forall|i: int| 0 <= i < seen ==> 48 <= (#[trigger] t@[i]) as u32 <= 57,
            over ==> leading(t@, seen) > u32::MAX,
            !over ==> n == leading(t@, seen) && n <= u32::MAX,
    {
        let d: u32 = c as u32;
        if going {
            if d >= 48 && d <= 57 {
                proof {
                    lemma_leading(t@, seen, seen);
                }
                if !over {
                    n = 10 * n + (d - 48) as u64;
                    if n > u32::MAX as u64 {
                        over = true;
                    }
                }
                any = true;
                proof {
                    seen = seen + 1;
                }
            } else {
                going = false;
            }
        }
    }
    if !any || over {
        u32::MAX
    } else {
        n as u32
    }
}

/// The number at the front of a house number given as bytes.
pub open spec fn hn_bytes(b: Seq<u8>) -> u32 {
    if valid_utf8(b) {
        hn_of(decode_utf8(b))
    } else {
        u32::MAX
    }
}

pub fn hn_value(b: &[u8]) -> (r: u32)
    ensures
        r == hn_bytes(b@),
{
    match utf8(b) {
        None => u32::MAX,
        Some(s) => hn_number(s),
    }
}

/// What `String::from_utf8_lossy` makes of bytes.
pub uninterp spec fn lossy(b: Seq<u8>) -> Seq<char>;

/// `String::from_utf8_lossy`: the text of bytes, with a replacement character
/// for what is no UTF-8. Claims that it depends on the bytes alone, and is the
/// text itself where they are valid.
#[verifier::external_body]
fn lossy_text(b: &[u8]) -> (r: String)
    ensures
        r@ == lossy(b@),
        valid_utf8(b@) ==> r@ == decode_utf8(b@),
{
    String::from_utf8_lossy(b).into_owned()
}

/// The bytes of a name as it is compared.
pub open spec fn norm_bytes(b: Seq<u8>) -> Seq<u8> {
    encode_utf8(norm_of(lossy(b)))
}

fn bytes_of(s: &str) -> (r: Vec<u8>)
    ensures
        r@ == encode_utf8(s@),
{
    let b: &[u8] = s.as_bytes();
    let mut r: Vec<u8> = Vec::new();
    while r.len() < b.len()
        invariant
            r@.len() <= b@.len(),
            r@ == b@.take(r@.len() as int),
        decreases b@.len() - r@.len(),
    {
        let x: u8 = b[r.len()];
        assert(b@.take(r@.len() as int).push(x) =~= b@.take(r@.len() as int + 1));
        r.push(x);
    }
    assert(b@.take(b@.len() as int) =~= b@);
    r
}

/// Normalises a stored name.
pub fn norm_name(b: &[u8]) -> (r: Vec<u8>)
    ensures
        r@ == norm_bytes(b@),
{
    let t: String = lossy_text(b);
    let n: String = normalize(t.as_str());
    bytes_of(n.as_str())
}

/// Normalises what was asked for.
pub fn norm_query(s: &str) -> (r: Vec<u8>)
    ensures
        r@ == encode_utf8(norm_of(s@)),
{
    let n: String = normalize(s);
    bytes_of(n.as_str())
}

} // verus!
