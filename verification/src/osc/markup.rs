//! The attributes of an element, and the entities in them.

use vstd::prelude::*;
use crate::addresses::entries::{plain_number, read_number};
use crate::text::{bytes_eq, is_word, word};

verus! {

pub open spec fn blank(c: u8) -> bool {
    c == 32 || c == 9
}

/// The first place from `j` on that is no blank.
pub open spec fn past_blanks(s: Seq<u8>, j: int) -> int
    decreases s.len() - j,
{
    if 0 <= j < s.len() && blank(s[j]) {
        past_blanks(s, j + 1)
    } else {
        j
    }
}

/// The first place from `j` on that holds `q`, or the end.
pub open spec fn find_byte(s: Seq<u8>, q: u8, j: int) -> int
    decreases s.len() - j,
{
    if 0 <= j < s.len() && s[j] != q {
        find_byte(s, q, j + 1)
    } else {
        j
    }
}

/// The quoted value that follows a name which ends at `j`: where it begins and
/// ends.
pub open spec fn value_at(s: Seq<u8>, j: int) -> Option<(int, int)> {
    let e = past_blanks(s, j);
    if e < s.len() && s[e] == 61 {
        let q = past_blanks(s, e + 1);
        if q < s.len() && (s[q] == 34 || s[q] == 39) {
            Some((q + 1, find_byte(s, s[q], q + 1)))
        } else {
            None
        }
    } else {
        None
    }
}

/// The name stands at `i`, with a blank or nothing before it.
pub open spec fn named_at(s: Seq<u8>, name: Seq<u8>, i: int) -> bool {
    &&& i + name.len() <= s.len()
    &&& i == 0 || blank(s[i - 1])
    &&& s.subrange(i, i + name.len()) == name
}

/// The value of an attribute, sought from `i` on.
pub open spec fn attr_from(s: Seq<u8>, name: Seq<u8>, i: int) -> Option<Seq<u8>>
    decreases s.len() - i,
{
    if i + name.len() + 2 > s.len() {
        None
    } else {
        match value_at(s, i + name.len()) {
            Some((a, b)) if named_at(s, name, i) => Some(s.subrange(a, b)),
            _ => attr_from(s, name, i + 1),
        }
    }
}

pub open spec fn attr_of(s: Seq<u8>, name: Seq<u8>) -> Option<Seq<u8>> {
    attr_from(s, name, 0)
}

fn skip_blanks(s: &[u8], from: usize) -> (r: usize)
    requires
        from <= s@.len(),
    ensures
        r == past_blanks(s@, from as int),
        from <= r <= s@.len(),
{
    let mut j: usize = from;
    while j < s.len() && (s[j] == 32 || s[j] == 9)
        invariant
            from <= j <= s@.len(),
            past_blanks(s@, j as int) == past_blanks(s@, from as int),
        decreases s@.len() - j,
    {
        j += 1;
    }
    j
}

pub fn seek_byte(s: &[u8], q: u8, from: usize) -> (r: usize)
    requires
        from <= s@.len(),
    ensures
        r == find_byte(s@, q, from as int),
        from <= r <= s@.len(),
        r < s@.len() ==> s@[r as int] == q,
{
    let mut j: usize = from;
    while j < s.len() && s[j] != q
        invariant
            from <= j <= s@.len(),
            find_byte(s@, q, j as int) == find_byte(s@, q, from as int),
        decreases s@.len() - j,
    {
        j += 1;
    }
    j
}

fn find_value(s: &[u8], j: usize) -> (r: Option<(usize, usize)>)
    requires
        j <= s@.len(),
    ensures
        match r {
            None => value_at(s@, j as int) is None,
            Some((a, b)) => value_at(s@, j as int) == Some((a as int, b as int)) && a <= b
                <= s@.len(),
        },
{
    let e: usize = skip_blanks(s, j);
    if e < s.len() && s[e] == 61 {
        let q: usize = skip_blanks(s, e + 1);
        if q < s.len() && (s[q] == 34 || s[q] == 39) {
            let end: usize = seek_byte(s, s[q], q + 1);
            return Some((q + 1, end));
        }
    }
    None
}

/// One attribute value out of an element's attribute text.
pub fn attr<'a>(tag: &'a [u8], name: &str) -> (r: Option<&'a [u8]>)
    ensures
        match r {
            None => attr_of(tag@, word(name)) is None,
            Some(v) => attr_of(tag@, word(name)) == Some(v@),
        },
{
    let pat: &[u8] = name.as_bytes();
    let n: usize = pat.len();
    let mut i: usize = 0;
    while i < tag.len() && tag.len() - i >= 2 && n <= tag.len() - i - 2
        invariant
            pat@ == word(name),
            n == pat@.len(),
            i <= tag@.len(),
            attr_from(tag@, word(name), i as int) == attr_of(tag@, word(name)),
        decreases tag@.len() - i,
    {
        let edge: bool = i == 0 || tag[i - 1] == 32 || tag[i - 1] == 9;
        if edge && bytes_eq(vstd::slice::slice_subrange(tag, i, i + n), pat) {
            if let Some((a, b)) = find_value(tag, i + n) {
                return Some(vstd::slice::slice_subrange(tag, a, b));
            }
        }
        i += 1;
    }
    None
}

pub open spec fn hex_digit(c: u8) -> Option<int> {
    if 48 <= c <= 57 {
        Some(c - 48)
    } else if 97 <= c <= 102 {
        Some(c - 87)
    } else if 65 <= c <= 70 {
        Some(c - 55)
    } else {
        None
    }
}

pub open spec fn hex_value(s: Seq<u8>) -> Option<int>
    decreases s.len(),
{
    if s.len() == 0 {
        Some(0)
    } else {
        match (hex_value(s.drop_last()), hex_digit(s.last())) {
            (Some(v), Some(d)) => Some(16 * v + d),
            _ => None,
        }
    }
}

/// A number in hexadecimal, a plus sign before it or not.
pub open spec fn hex_number(s: Seq<u8>) -> Option<u32> {
    let d = if s.len() > 0 && s[0] == 43 {
        s.subrange(1, s.len() as int)
    } else {
        s
    };
    if d.len() == 0 {
        None
    } else {
        match hex_value(d) {
            None => None,
            Some(v) => if v <= u32::MAX {
                Some(v as u32)
            } else {
                None
            },
        }
    }
}

fn read_hex_digit(c: u8) -> (r: Option<u8>)
    ensures
        match r {
            None => hex_digit(c) is None,
            Some(d) => hex_digit(c) == Some(d as int) && d < 16,
        },
{
    if 48 <= c && c <= 57 {
        Some(c - 48)
    } else if 97 <= c && c <= 102 {
        Some(c - 87)
    } else if 65 <= c && c <= 70 {
        Some(c - 55)
    } else {
        None
    }
}

proof fn lemma_hex_take(s: Seq<u8>, n: int)
    requires
        0 <= n <= s.len(),
        hex_value(s) is Some,
    ensures
        hex_value(s.take(n)) is Some,
        0 <= hex_value(s.take(n))->0 <= hex_value(s)->0,
    decreases s.len(),
{
    if n == s.len() {
        assert(s.take(n) =~= s);
        if n > 0 {
            lemma_hex_take(s.drop_last(), n - 1);
        }
    } else {
        assert(s.drop_last().take(n) =~= s.take(n));
        lemma_hex_take(s.drop_last(), n);
    }
}

fn read_hex(s: &[u8], from: usize) -> (r: Option<u32>)
    requires
        from <= s@.len(),
    ensures
        r == hex_number(s@.subrange(from as int, s@.len() as int)),
{
    let ghost t = s@.subrange(from as int, s@.len() as int);
    let start: usize = if from < s.len() && s[from] == 43 {
        from + 1
    } else {
        from
    };
    let ghost d = s@.subrange(start as int, s@.len() as int);
    assert(d =~= if t.len() > 0 && t[0] == 43 {
        t.subrange(1, t.len() as int)
    } else {
        t
    });
    if start == s.len() {
        return None;
    }
    let mut v: u64 = 0;
    let mut i: usize = start;
    assert(d.take(0) =~= Seq::<u8>::empty());
    while i < s.len()
        invariant
            d == s@.subrange(start as int, s@.len() as int),
            d.len() > 0,
            start <= i <= s@.len(),
            t == s@.subrange(from as int, s@.len() as int),
            d == (if t.len() > 0 && t[0] == 43 {
                t.subrange(1, t.len() as int)
            } else {
                t
            }),
            hex_value(d.take(i - start)) == Some(v as int),
            v <= u32::MAX,
        decreases s@.len() - i,
    {
        proof {
            assert(d.take(i + 1 - start).drop_last() =~= d.take(i - start));
            assert(d.take(i + 1 - start).last() == s@[i as int]);
            if hex_value(d) is Some {
                lemma_hex_take(d, i + 1 - start);
            }
        }
        match read_hex_digit(s[i]) {
            None => {
                return None;
            },
            Some(x) => {
                v = 16 * v + x as u64;
            },
        }
        if v > u32::MAX as u64 {
            return None;
        }
        i += 1;
    }
    assert(d.take(i - start) =~= d);
    Some(v as u32)
}

/// The UTF-8 bytes of a code point.
pub open spec fn code_bytes(c: u32) -> Seq<u8> {
    if c < 0x80 {
        seq![c as u8]
    } else if c < 0x800 {
        seq![(0xC0 + c / 0x40) as u8, (0x80 + c % 0x40) as u8]
    } else if c < 0x1_0000 {
        seq![(0xE0 + c / 0x1000) as u8, (0x80 + c / 0x40 % 0x40) as u8, (0x80 + c % 0x40) as u8]
    } else {
        seq![
            (0xF0 + c / 0x4_0000) as u8,
            (0x80 + c / 0x1000 % 0x40) as u8,
            (0x80 + c / 0x40 % 0x40) as u8,
            (0x80 + c % 0x40) as u8,
        ]
    }
}

/// Whether a number is that of a character.
pub open spec fn is_code(c: u32) -> bool {
    c < 0xD800 || 0xE000 <= c <= 0x10_FFFF
}

/// The number behind a number sign.
pub open spec fn code_of(e: Seq<u8>) -> Option<u32> {
    let t = e.subrange(1, e.len() as int);
    let n = if t.len() > 0 && (t[0] == 120 || t[0] == 88) {
        hex_number(t.subrange(1, t.len() as int))
    } else {
        plain_number(t)
    };
    match n {
        Some(c) if is_code(c) => Some(c),
        _ => None,
    }
}

/// What stands for an entity, given without its ampersand and semicolon.
pub open spec fn entity(e: Seq<u8>) -> Option<Seq<u8>> {
    if e == word("amp") {
        Some(seq![38u8])
    } else if e == word("lt") {
        Some(seq![60u8])
    } else if e == word("gt") {
        Some(seq![62u8])
    } else if e == word("quot") {
        Some(seq![34u8])
    } else if e == word("apos") {
        Some(seq![39u8])
    } else if e.len() > 0 && e[0] == 35 {
        match code_of(e) {
            None => None,
            Some(c) => Some(code_bytes(c)),
        }
    } else {
        None
    }
}

/// Text with its entities replaced, from `i` on. One that is not known, or has
/// no end within reach, stays as it is.
pub open spec fn unescaped(v: Seq<u8>, i: int) -> Seq<u8>
    decreases v.len() - i,
{
    if i < 0 || i >= v.len() {
        Seq::empty()
    } else {
        let e = find_byte(v, 59, i);
        if v[i] != 38 || e >= v.len() || e - i > 10 || e < i {
            seq![v[i]] + unescaped(v, i + 1)
        } else {
            let s = v.subrange(i + 1, e);
            (match entity(s) {
                Some(x) => x,
                None => v.subrange(i, e + 1),
            }) + unescaped(v, e + 1)
        }
    }
}

fn push_code(out: &mut Vec<u8>, c: u32)
    requires
        is_code(c),
    ensures
        final(out)@ == old(out)@ + code_bytes(c),
{
    if c < 0x80 {
        out.push(c as u8);
    } else if c < 0x800 {
        out.push((0xC0 + c / 0x40) as u8);
        out.push((0x80 + c % 0x40) as u8);
    } else if c < 0x1_0000 {
        out.push((0xE0 + c / 0x1000) as u8);
        out.push((0x80 + c / 0x40 % 0x40) as u8);
        out.push((0x80 + c % 0x40) as u8);
    } else {
        out.push((0xF0 + c / 0x4_0000) as u8);
        out.push((0x80 + c / 0x1000 % 0x40) as u8);
        out.push((0x80 + c / 0x40 % 0x40) as u8);
        out.push((0x80 + c % 0x40) as u8);
    }
    assert(out@ =~= old(out)@ + code_bytes(c));
}

pub fn copy_bytes(out: &mut Vec<u8>, s: &[u8])
    ensures
        final(out)@ == old(out)@ + s@,
{
    let ghost o = out@;
    let mut i: usize = 0;
    assert(o + s@.take(0) =~= o);
    while i < s.len()
        invariant
            i <= s@.len(),
            out@ == o + s@.take(i as int),
        decreases s@.len() - i,
    {
        out.push(s[i]);
        assert(out@ =~= o + s@.take(i + 1));
        i += 1;
    }
    assert(s@.take(i as int) =~= s@);
}

fn read_code(e: &[u8]) -> (r: Option<u32>)
    requires
        e@.len() > 0,
    ensures
        r == code_of(e@),
{
    let ghost t = e@.subrange(1, e@.len() as int);
    let n: Option<u32> = if e.len() > 1 && (e[1] == 120 || e[1] == 88) {
        let r = read_hex(e, 2);
        assert(e@.subrange(2, e@.len() as int) =~= t.subrange(1, t.len() as int));
        r
    } else {
        let mut d: Vec<u8> = Vec::new();
        copy_bytes(&mut d, vstd::slice::slice_subrange(e, 1, e.len()));
        assert(d@ =~= t);
        read_number(&d)
    };
    match n {
        Some(c) => if c < 0xD800 || (0xE000 <= c && c <= 0x10_FFFF) {
            Some(c)
        } else {
            None
        },
        None => None,
    }
}

/// Appends what stands for an entity; whether anything does.
fn push_entity(out: &mut Vec<u8>, e: &[u8]) -> (r: bool)
    ensures
        match entity(e@) {
            None => !r && final(out)@ == old(out)@,
            Some(x) => r && final(out)@ == old(out)@ + x,
        },
{
    let ghost o = out@;
    let c: u8 = if is_word(e, "amp") {
        38
    } else if is_word(e, "lt") {
        60
    } else if is_word(e, "gt") {
        62
    } else if is_word(e, "quot") {
        34
    } else if is_word(e, "apos") {
        39
    } else if e.len() > 0 && e[0] == 35 {
        match read_code(e) {
            None => {
                return false;
            },
            Some(c) => {
                push_code(out, c);
                return true;
            },
        }
    } else {
        return false;
    };
    out.push(c);
    assert(out@ =~= o + seq![c]);
    true
}

/// Replaces the entities of a text.
pub fn unescape(v: &[u8]) -> (out: Vec<u8>)
    ensures
        out@ == unescaped(v@, 0),
{
    let mut out: Vec<u8> = Vec::new();
    let mut i: usize = 0;
    let ghost goal = unescaped(v@, 0);
    assert(out@ + goal =~= goal);
    while i < v.len()
        invariant
            i <= v@.len(),
            out@ + unescaped(v@, i as int) == goal,
        decreases v@.len() - i,
    {
        let ghost o = out@;
        let e: usize = if v[i] == 38 {
            seek_byte(v, 59, i)
        } else {
            v.len()
        };
        if v[i] != 38 || e >= v.len() || e - i > 10 {
            out.push(v[i]);
            assert(out@ + unescaped(v@, i + 1) =~= o + (seq![v@[i as int]] + unescaped(
                v@,
                i + 1,
            )));
            i += 1;
        } else {
            let s: &[u8] = vstd::slice::slice_subrange(v, i + 1, e);
            let known: bool = push_entity(&mut out, s);
            if !known {
                copy_bytes(&mut out, vstd::slice::slice_subrange(v, i, e + 1));
            }
            proof {
                let x = match entity(s@) {
                    Some(x) => x,
                    None => v@.subrange(i as int, e + 1),
                };
                assert(out@ =~= o + x);
                assert(o + x + unescaped(v@, e + 1) =~= o + (x + unescaped(v@, e + 1)));
            }
            i = e + 1;
        }
    }
    assert(out@ + Seq::<u8>::empty() =~= out@);
    out
}

proof fn lemma_plain(v: Seq<u8>, i: int)
    requires
        0 <= i <= v.len(),
        forall|x: int| 0 <= x < v.len() ==> v[x] != 38,
    ensures
        unescaped(v, i) == v.subrange(i, v.len() as int),
    decreases v.len() - i,
{
    if i < v.len() {
        lemma_plain(v, i + 1);
        assert(v.subrange(i, v.len() as int) =~= seq![v[i]] + v.subrange(i + 1, v.len() as int));
    } else {
        assert(v.subrange(i, v.len() as int) =~= Seq::<u8>::empty());
    }
}

/// Text without an ampersand stays as it is.
pub proof fn lemma_plain_stays(v: Seq<u8>)
    requires
        forall|x: int| 0 <= x < v.len() ==> v[x] != 38,
    ensures
        unescaped(v, 0) == v,
{
    lemma_plain(v, 0);
    assert(v.subrange(0, v.len() as int) =~= v);
}

} // verus!
