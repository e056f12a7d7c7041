//! What a change file says is what is heard of it.

use vstd::prelude::*;
use vstd::utf8::{encode_scalar, is_ascii_chars_encode_utf8};
use crate::addresses::entries::{all_digits, digits_value, plain_number};
use crate::double::{lemma_digits_join, lemma_digits_range, lemma_ten_pos, ten_to};
use crate::osc::markup::{attr_of, code_bytes, entity, find_byte, is_code, unescaped};
use crate::osc::numerals::{degrees_of, degrees_to, id_of, integer_of, natural_of, ref_of};
use crate::osc::scan::{element, name_end, white8, Heard, Section, WayModel};
use crate::text::word;

verus! {

// ------------------------------------------------------------------- degrees

proof fn lemma_whole_degrees(s: Seq<u8>, n: int)
    requires
        0 <= n <= s.len(),
        forall|i: int| 0 <= i < n ==> 48 <= #[trigger] s[i] <= 57,
    ensures
        degrees_to(s, n) matches Some(d) && d.whole == digits_value(s.take(n)) && d.frac == 0
            && d.scale == 10_000_000 && !d.dot && d.any == (n > 0),
    decreases n,
{
    if n > 0 {
        lemma_whole_degrees(s, n - 1);
        assert(s.take(n).drop_last() =~= s.take(n - 1));
        assert(s.take(n).last() == s[n - 1]);
    } else {
        assert(s.take(0) =~= Seq::<u8>::empty());
    }
}

/// What is read of the digits after the point.
proof fn lemma_part_degrees(s: Seq<u8>, w: int, n: int)
    requires
        0 <= w < n <= s.len(),
        forall|i: int| 0 <= i < w ==> 48 <= #[trigger] s[i] <= 57,
        s[w] == 46,
        forall|i: int| w < i < n ==> 48 <= #[trigger] s[i] <= 57,
        n - w - 1 <= 7,
    ensures
        degrees_to(s, n) matches Some(d) && {
            &&& d.whole == digits_value(s.take(w))
            &&& d.scale * ten_to(n - w - 1) == 10_000_000
            &&& d.frac * ten_to(n - w - 1) == digits_value(s.subrange(w + 1, n)) * 10_000_000
            &&& d.dot
            &&& d.any == (n > 1)
        },
    decreases n,
{
    reveal_with_fuel(ten_to, 9);
    if n == w + 1 {
        lemma_whole_degrees(s, w);
        assert(s.subrange(w + 1, n) =~= Seq::<u8>::empty());
    } else {
        lemma_part_degrees(s, w, n - 1);
        let d = degrees_to(s, n - 1)->0;
        let k = n - w - 2;
        let t = ten_to(k);
        let part = s.subrange(w + 1, n);
        assert(part.drop_last() =~= s.subrange(w + 1, n - 1));
        assert(part.last() == s[n - 1]);
        let c = s[n - 1] - 48;
        assert(ten_to(k + 1) == 10 * t);
        assert(k == 0 || k == 1 || k == 2 || k == 3 || k == 4 || k == 5 || k == 6);
        assert(d.scale == 10 * (d.scale / 10) && d.scale > 1) by (nonlinear_arith)
            requires
                d.scale * t == 10_000_000,
                t == 1 || t == 10 || t == 100 || t == 1_000 || t == 10_000 || t == 100_000 || t
                    == 1_000_000,
        ;
        let u = d.scale / 10;
        assert((d.frac + c * u) * (10 * t) == 10 * (d.frac * t) + c * (10 * u * t))
            by (nonlinear_arith);
        assert(10 * u * t == 10_000_000) by (nonlinear_arith)
            requires
                d.scale * t == 10_000_000,
                d.scale == 10 * u,
        ;
        assert(u * (10 * t) == 10_000_000) by (nonlinear_arith)
            requires
                10 * u * t == 10_000_000,
        ;
        assert(c * (10 * u * t) == c * 10_000_000);
    }
}

/// Degrees written with up to seven digits after the point are read exactly, in
/// units of the seventh; with a sign before them they are read on that side.
pub proof fn lemma_degrees(w: Seq<u8>, p: Seq<u8>, v: int)
    requires
        all_digits(w),
        all_digits(p),
        0 < p.len() <= 7,
        v * ten_to(p.len() as int) == digits_value(w + p) * 10_000_000,
        v <= i32::MAX,
    ensures
        degrees_of(w + seq![46u8] + p) == Some(v),
        degrees_of(seq![45u8] + (w + seq![46u8] + p)) == Some(-v),
        degrees_of(seq![43u8] + (w + seq![46u8] + p)) == Some(v),
{
    let s = w + seq![46u8] + p;
    let (n, k) = (w.len() as int, p.len() as int);
    assert forall|i: int| 0 <= i < n implies 48 <= #[trigger] s[i] <= 57 by {
        assert(s[i] == w[i]);
    }
    assert forall|i: int| n < i < s.len() implies 48 <= #[trigger] s[i] <= 57 by {
        assert(s[i] == p[i - n - 1]);
    }
    assert(s[n] == 46);
    lemma_part_degrees(s, n, s.len() as int);
    assert(s.take(n) =~= w);
    assert(s.subrange(n + 1, s.len() as int) =~= p);
    lemma_digits_join(w, p);
    lemma_ten_pos(k);
    lemma_digits_range(w);
    lemma_digits_range(p);
    let d = degrees_to(s, s.len() as int)->0;
    let t = ten_to(k);
    let (x, y) = (digits_value(w), digits_value(p));
    assert(d.whole * 10_000_000 + d.frac == v) by (nonlinear_arith)
        requires
            d.whole == x,
            d.frac * t == y * 10_000_000,
            v * t == (x * t + y) * 10_000_000,
            t >= 1,
    ;
    assert(v >= 0) by (nonlinear_arith)
        requires
            v * t == (x * t + y) * 10_000_000,
            x >= 0,
            y >= 0,
            t >= 1,
    ;
    assert(s[0] != 45 && s[0] != 43) by {
        if n > 0 {
            assert(s[0] == w[0]);
        } else {
            assert(s[0] == 46);
        }
    }
    let (a, b) = (seq![45u8] + s, seq![43u8] + s);
    assert(a.subrange(1, a.len() as int) =~= s);
    assert(b.subrange(1, b.len() as int) =~= s);
}

/// A number is read as its digits say, with a sign or without; less than nothing
/// is a number of a node and not of a way.
pub proof fn lemma_numbers(d: Seq<u8>)
    requires
        all_digits(d),
        d.len() > 0,
        digits_value(d) <= i64::MAX,
    ensures
        natural_of(d) == Some(digits_value(d)),
        natural_of(seq![43u8] + d) == Some(digits_value(d)),
        natural_of(seq![45u8] + d) is None,
        integer_of(d) == Some(digits_value(d)),
        integer_of(seq![43u8] + d) == Some(digits_value(d)),
        integer_of(seq![45u8] + d) == Some(-digits_value(d)),
{
    assert(48 <= d[0] <= 57);
    let (p, m) = (seq![43u8] + d, seq![45u8] + d);
    assert(p.subrange(1, p.len() as int) =~= d);
    assert(m.subrange(1, m.len() as int) =~= d);
    assert(m[0] == 45 && p[0] == 43);
    assert(!all_digits(m));
}

// ------------------------------------------------------------------ entities

/// A byte as it is written where it might be taken for markup.
pub open spec fn guarded(c: u8) -> Seq<u8> {
    if c == 38 {
        seq![38u8] + word("amp") + seq![59u8]
    } else if c == 60 {
        seq![38u8] + word("lt") + seq![59u8]
    } else if c == 62 {
        seq![38u8] + word("gt") + seq![59u8]
    } else if c == 34 {
        seq![38u8] + word("quot") + seq![59u8]
    } else if c == 39 {
        seq![38u8] + word("apos") + seq![59u8]
    } else {
        seq![c]
    }
}

/// Text as it is written in an attribute.
pub open spec fn guarded_all(s: Seq<u8>) -> Seq<u8>
    decreases s.len(),
{
    if s.len() == 0 {
        Seq::empty()
    } else {
        guarded(s[0]) + guarded_all(s.drop_first())
    }
}

proof fn lemma_find(v: Seq<u8>, q: u8, i: int, e: int)
    requires
        0 <= i <= e < v.len(),
        forall|j: int| i <= j < e ==> #[trigger] v[j] != q,
        v[e] == q,
    ensures
        find_byte(v, q, i) == e,
    decreases e - i,
{
    if i < e {
        lemma_find(v, q, i + 1, e);
    }
}

/// The names of entities, byte by byte.
proof fn lemma_entities()
    ensures
        word("amp") == seq![97u8, 109, 112],
        word("lt") == seq![108u8, 116],
        word("gt") == seq![103u8, 116],
        word("quot") == seq![113u8, 117, 111, 116],
        word("apos") == seq![97u8, 112, 111, 115],
{
    reveal_strlit("amp");
    reveal_strlit("lt");
    reveal_strlit("gt");
    reveal_strlit("quot");
    reveal_strlit("apos");
    is_ascii_chars_encode_utf8("amp"@);
    is_ascii_chars_encode_utf8("lt"@);
    is_ascii_chars_encode_utf8("gt"@);
    is_ascii_chars_encode_utf8("quot"@);
    is_ascii_chars_encode_utf8("apos"@);
    assert(word("amp") =~= seq![97u8, 109, 112]);
    assert(word("lt") =~= seq![108u8, 116]);
    assert(word("gt") =~= seq![103u8, 116]);
    assert(word("quot") =~= seq![113u8, 117, 111, 116]);
    assert(word("apos") =~= seq![97u8, 112, 111, 115]);
}

/// One byte is read back from where it was written.
proof fn lemma_unguard(v: Seq<u8>, i: int, c: u8)
    requires
        0 <= i,
        i + guarded(c).len() <= v.len(),
        v.subrange(i, i + guarded(c).len()) == guarded(c),
    ensures
        unescaped(v, i) == seq![c] + unescaped(v, i + guarded(c).len()),
{
    let g = guarded(c);
    lemma_entities();
    assert forall|j: int| 0 <= j < g.len() implies v[i + j] == #[trigger] g[j] by {
        assert(v.subrange(i, i + g.len())[j] == v[i + j]);
    }
    if c == 38 || c == 60 || c == 62 || c == 34 || c == 39 {
        let e = i + g.len() - 1;
        assert(v[e] == g[g.len() - 1]);
        assert forall|j: int| i <= j < e implies #[trigger] v[j] != 59 by {
            assert(v[i + (j - i)] == g[j - i]);
        }
        lemma_find(v, 59, i, e);
        assert(v[i] == g[0]);
        let s = v.subrange(i + 1, e);
        assert(s =~= g.subrange(1, g.len() - 1)) by {
            assert forall|j: int| 0 <= j < s.len() implies s[j] == g[1 + j] by {
                assert(v[i + (1 + j)] == g[1 + j]);
            }
        }
        assert(g.subrange(1, g.len() - 1) =~= if c == 38 {
            word("amp")
        } else if c == 60 {
            word("lt")
        } else if c == 62 {
            word("gt")
        } else if c == 34 {
            word("quot")
        } else {
            word("apos")
        });
        assert(word("gt")[0] != word("lt")[0]);
        assert(word("amp").len() == 3 && word("lt").len() == 2 && word("quot").len() == 4);
        assert(word("quot")[0] != word("apos")[0]);
        assert(entity(s) == Some(seq![c]));
    } else {
        assert(v[i] == g[0]);
    }
}

proof fn lemma_unguard_from(v: Seq<u8>, i: int, s: Seq<u8>)
    requires
        0 <= i,
        i + guarded_all(s).len() == v.len(),
        v.subrange(i, v.len() as int) == guarded_all(s),
    ensures
        unescaped(v, i) == s,
    decreases s.len(),
{
    if s.len() == 0 {
        assert(s =~= Seq::<u8>::empty());
    } else {
        let (g, rest) = (guarded(s[0]), guarded_all(s.drop_first()));
        let all = v.subrange(i, v.len() as int);
        assert(v.subrange(i, i + g.len()) =~= all.subrange(0, g.len() as int));
        assert((g + rest).subrange(0, g.len() as int) =~= g);
        assert(v.subrange(i + g.len(), v.len() as int) =~= all.subrange(
            g.len() as int,
            all.len() as int,
        ));
        assert((g + rest).subrange(g.len() as int, (g + rest).len() as int) =~= rest);
        lemma_unguard(v, i, s[0]);
        lemma_unguard_from(v, i + g.len(), s.drop_first());
        assert(seq![s[0]] + s.drop_first() =~= s);
    }
}

/// Text is read back as it was written, whatever in it might be taken for
/// markup.
pub proof fn lemma_unescaped(s: Seq<u8>)
    ensures
        unescaped(guarded_all(s), 0) == s,
{
    let v = guarded_all(s);
    assert(v.subrange(0, v.len() as int) =~= v);
    lemma_unguard_from(v, 0, s);
}

proof fn lemma_code_bytes(c: u32)
    requires
        is_code(c),
    ensures
        code_bytes(c) == encode_scalar(c),
{
    if c < 0x80 {
        assert((c & 0x7F) as u8 == c as u8) by (bit_vector)
            requires
                c < 0x80,
        ;
    } else if c < 0x800 {
        assert((0xC0u32 + c / 0x40) as u8 == 0xC0u8 | ((c >> 6) & 0x1F) as u8 && (0x80u32 + c
            % 0x40) as u8 == 0x80u8 | (c & 0x3F) as u8) by (bit_vector)
            requires
                0x80 <= c < 0x800,
        ;
    } else if c < 0x1_0000 {
        assert((0xE0u32 + c / 0x1000) as u8 == 0xE0u8 | ((c >> 12) & 0x0F) as u8 && (0x80u32 + c
            / 0x40 % 0x40) as u8 == 0x80u8 | ((c >> 6) & 0x3F) as u8 && (0x80u32 + c % 0x40) as u8
            == 0x80u8 | (c & 0x3F) as u8) by (bit_vector)
            requires
                0x800 <= c < 0x1_0000,
        ;
    } else {
        assert((0xF0u32 + c / 0x4_0000) as u8 == 0xF0u8 | ((c >> 18) & 0x7) as u8 && (0x80u32 + c
            / 0x1000 % 0x40) as u8 == 0x80u8 | ((c >> 12) & 0x3F) as u8 && (0x80u32 + c / 0x40
            % 0x40) as u8 == 0x80u8 | ((c >> 6) & 0x3F) as u8 && (0x80u32 + c % 0x40) as u8
            == 0x80u8 | (c & 0x3F) as u8) by (bit_vector)
            requires
                0x1_0000 <= c <= 0x10_FFFF,
        ;
    }
    assert(code_bytes(c) =~= encode_scalar(c));
}

/// A character that is written by its number comes to its own bytes.
pub proof fn lemma_numbered_character(d: Seq<u8>)
    requires
        all_digits(d),
        0 < d.len() <= 8,
        is_code(digits_value(d) as u32),
        digits_value(d) <= u32::MAX,
    ensures
        unescaped(seq![38u8, 35] + d + seq![59u8], 0) == encode_scalar(digits_value(d) as u32),
{
    let v = seq![38u8, 35] + d + seq![59u8];
    let e = d.len() as int + 2;
    assert(48 <= d[0] <= 57);
    assert forall|j: int| 0 <= j < e implies #[trigger] v[j] != 59 by {
        if j >= 2 {
            assert(v[j] == d[j - 2]);
        }
    }
    assert(v[e] == 59);
    lemma_find(v, 59, 0, e);
    let s = v.subrange(1, e);
    assert(s =~= seq![35u8] + d);
    let t = s.subrange(1, s.len() as int);
    assert(t =~= d);
    lemma_entities();
    assert(s[0] == 35);
    assert(word("amp")[0] == 97 && word("lt")[0] == 108 && word("gt")[0] == 103 && word("quot")[0]
        == 113 && word("apos")[0] == 97);
    lemma_digits_range(d);
    assert(plain_number(t) == Some(digits_value(d) as u32));
    lemma_code_bytes(digits_value(d) as u32);
    assert(v[0] == 38);
    assert(unescaped(v, e + 1) =~= Seq::<u8>::empty());
    assert(encode_scalar(digits_value(d) as u32) + Seq::<u8>::empty() =~= encode_scalar(
        digits_value(d) as u32,
    ));
}

// ------------------------------------------------------------------ elements

/// What follows the name of an element stands apart from it, and does not end
/// in a stroke.
pub open spec fn is_rest(rest: Seq<u8>) -> bool {
    rest.len() > 0 && white8(rest[0]) && rest.last() != 47
}

proof fn lemma_name_end(t: Seq<u8>, i: int, n: int)
    requires
        0 <= i <= n < t.len(),
        forall|j: int| i <= j < n ==> !white8(#[trigger] t[j]),
        white8(t[n]),
    ensures
        name_end(t, i) == n,
    decreases n - i,
{
    if i < n {
        lemma_name_end(t, i + 1, n);
    }
}

/// The names of elements, byte by byte.
proof fn lemma_names()
    ensures
        word("create") == seq![99u8, 114, 101, 97, 116, 101],
        word("modify") == seq![109u8, 111, 100, 105, 102, 121],
        word("delete") == seq![100u8, 101, 108, 101, 116, 101],
        word("way") == seq![119u8, 97, 121],
        word("nd") == seq![110u8, 100],
        word("tag") == seq![116u8, 97, 103],
        word("node") == seq![110u8, 111, 100, 101],
{
    reveal_strlit("create");
    reveal_strlit("modify");
    reveal_strlit("delete");
    reveal_strlit("way");
    reveal_strlit("nd");
    reveal_strlit("tag");
    reveal_strlit("node");
    is_ascii_chars_encode_utf8("create"@);
    is_ascii_chars_encode_utf8("modify"@);
    is_ascii_chars_encode_utf8("delete"@);
    is_ascii_chars_encode_utf8("way"@);
    is_ascii_chars_encode_utf8("nd"@);
    is_ascii_chars_encode_utf8("tag"@);
    is_ascii_chars_encode_utf8("node"@);
    assert(word("create") =~= seq![99u8, 114, 101, 97, 116, 101]);
    assert(word("modify") =~= seq![109u8, 111, 100, 105, 102, 121]);
    assert(word("delete") =~= seq![100u8, 101, 108, 101, 116, 101]);
    assert(word("way") =~= seq![119u8, 97, 121]);
    assert(word("nd") =~= seq![110u8, 100]);
    assert(word("tag") =~= seq![116u8, 97, 103]);
    assert(word("node") =~= seq![110u8, 111, 100, 101]);
}

/// A name in small letters.
spec fn plain_name(name: Seq<u8>) -> bool {
    name.len() > 0 && forall|i: int| 0 <= i < name.len() ==> 97 <= #[trigger] name[i] <= 122
}

proof fn lemma_apart()
    ensures
        word("create") != word("modify"),
        word("create") != word("delete"),
        word("create") != word("way"),
        word("create") != word("nd"),
        word("create") != word("tag"),
        word("create") != word("node"),
        word("modify") != word("delete"),
        word("modify") != word("way"),
        word("modify") != word("nd"),
        word("modify") != word("tag"),
        word("modify") != word("node"),
        word("delete") != word("way"),
        word("delete") != word("nd"),
        word("delete") != word("tag"),
        word("delete") != word("node"),
        word("way") != word("nd"),
        word("way") != word("tag"),
        word("way") != word("node"),
        word("nd") != word("tag"),
        word("nd") != word("node"),
        word("tag") != word("node"),
        plain_name(word("create")),
        plain_name(word("modify")),
        plain_name(word("delete")),
        plain_name(word("way")),
        plain_name(word("nd")),
        plain_name(word("tag")),
        plain_name(word("node")),
        word("way").len() == 3,
{
    lemma_names();
    assert(word("create")[0] == 99 && word("modify")[0] == 109 && word("delete")[0] == 100);
    assert(word("way")[0] == 119 && word("nd")[0] == 110 && word("tag")[0] == 116);
    assert(word("node").len() == 4 && word("nd").len() == 2 && word("node")[0] == 110);
}

/// An element that opens is heard by its name and what follows it; one that
/// closes itself likewise.
proof fn lemma_opened(h: Heard, name: Seq<u8>, rest: Seq<u8>)
    requires
        plain_name(name),
        is_rest(rest),
    ensures
        element(h, name + rest) == crate::osc::scan::opened(h, name, rest, false),
        element(h, (name + rest).push(47)) == crate::osc::scan::opened(h, name, rest, true),
{
    let t = name + rest;
    let n = name.len() as int;
    assert(t[0] == name[0] && t[n] == rest[0] && t.last() == rest.last());
    assert forall|j: int| 0 <= j < n implies !white8(#[trigger] t[j]) by {
        assert(t[j] == name[j]);
    }
    lemma_name_end(t, 0, n);
    assert(t.subrange(0, n) =~= name);
    assert(t.subrange(n, t.len() as int) =~= rest);
    assert(t.push(47).drop_last() =~= t);
    assert(t.push(47)[0] == t[0]);
    assert(t.push(47).last() == 47);
}

/// A tag of the way being read is heard with its key as key and its value as
/// value; one that stands outside a way is not.
pub proof fn lemma_tag_heard(h: Heard, rest: Seq<u8>, k: Seq<u8>, v: Seq<u8>)
    requires
        is_rest(rest),
        attr_of(rest, word("k")) == Some(guarded_all(k)),
        attr_of(rest, word("v")) == Some(guarded_all(v)),
    ensures
        h.way is Some ==> element(h, word("tag") + rest) == (Heard {
            tags: h.tags.push((k, v)),
            ..h
        }),
        h.way is None ==> element(h, word("tag") + rest) == h,
        element(h, (word("tag") + rest).push(47)) == element(h, word("tag") + rest),
{
    lemma_apart();
    lemma_opened(h, word("tag"), rest);
    lemma_unescaped(k);
    lemma_unescaped(v);
}

/// A node of the way being read is heard.
pub proof fn lemma_nd_heard(h: Heard, rest: Seq<u8>, v: Seq<u8>)
    requires
        is_rest(rest),
        attr_of(rest, word("ref")) == Some(v),
    ensures
        h.way is Some && ref_of(v) is Some ==> element(h, word("nd") + rest) == (Heard {
            refs: h.refs.push(ref_of(v)->0 as i64),
            ..h
        }),
        h.way is None || ref_of(v) is None ==> element(h, word("nd") + rest) == h,
        element(h, (word("nd") + rest).push(47)) == element(h, word("nd") + rest),
{
    lemma_apart();
    lemma_opened(h, word("nd"), rest);
}

/// A node by itself is counted in its section. Where it was modified, its place
/// is noted, latitude and longitude each from where it says so, or that it says
/// none.
pub proof fn lemma_node_heard(h: Heard, rest: Seq<u8>)
    requires
        is_rest(rest),
    ensures
        ({
            let g = element(h, word("node") + rest);
            let (a, o) = (attr_of(rest, word("lat")), attr_of(rest, word("lon")));
            &&& g.node_counts == h.node_counts.more(h.section)
            &&& g.way_counts == h.way_counts
            &&& h.section != Section::Modify ==> g.nodes == h.nodes && g.unplaced == h.unplaced
            &&& h.section == Section::Modify ==> {
                if a is Some && o is Some && degrees_of(a->0) is Some && degrees_of(o->0) is Some {
                    &&& g.nodes.len() == h.nodes.len() + 1
                    &&& g.nodes.last().0 == degrees_of(a->0)->0 as i32
                    &&& g.nodes.last().1 == degrees_of(o->0)->0 as i32
                    &&& g.nodes.drop_last() == h.nodes
                    &&& g.unplaced == h.unplaced
                } else {
                    g.nodes == h.nodes && g.unplaced == h.unplaced + 1
                }
            }
            &&& (g.way, g.tags, g.refs, g.ways, g.tagged, g.section) == (
                h.way,
                h.tags,
                h.refs,
                h.ways,
                h.tagged,
                h.section,
            )
        }),
{
    lemma_apart();
    lemma_opened(h, word("node"), rest);
    let g = element(h, word("node") + rest);
    if g.nodes.len() > h.nodes.len() {
        assert(g.nodes.drop_last() =~= h.nodes);
    }
}

/// A section of what was created begins with its own element, and nothing else
/// changes.
pub proof fn lemma_created_heard(h: Heard, rest: Seq<u8>)
    requires
        is_rest(rest),
    ensures
        element(h, word("create") + rest) == (Heard { section: Section::Create, ..h }),
{
    lemma_apart();
    lemma_opened(h, word("create"), rest);
}

/// A section of what was modified begins with its own element, and nothing else
/// changes.
pub proof fn lemma_modified_heard(h: Heard, rest: Seq<u8>)
    requires
        is_rest(rest),
    ensures
        element(h, word("modify") + rest) == (Heard { section: Section::Modify, ..h }),
{
    lemma_apart();
    lemma_opened(h, word("modify"), rest);
}

/// A section of what was deleted begins with its own element, and nothing else
/// changes.
pub proof fn lemma_deleted_heard(h: Heard, rest: Seq<u8>)
    requires
        is_rest(rest),
    ensures
        element(h, word("delete") + rest) == (Heard { section: Section::Delete, ..h }),
{
    lemma_apart();
    lemma_opened(h, word("delete"), rest);
}

/// The elements of a way between its opening and its close: tags and nodes.
pub enum Inner {
    Tag(Seq<u8>, Seq<u8>),
    Node(i64),
}

/// An element says that.
pub open spec fn is_inner(e: Seq<u8>, x: Inner) -> bool {
    exists|rest: Seq<u8>|
        is_rest(rest) && match x {
            Inner::Tag(k, v) => e == #[trigger] (word("tag") + rest) && attr_of(rest, word("k"))
                == Some(guarded_all(k)) && attr_of(rest, word("v")) == Some(guarded_all(v)),
            Inner::Node(n) => e == #[trigger] (word("nd") + rest) && (attr_of(rest, word("ref")) matches Some(
                v,
            ) && ref_of(v) == Some(n as int)),
        }
}

/// What is heard of elements in a row.
pub open spec fn heard_of(h: Heard, es: Seq<Seq<u8>>) -> Heard
    decreases es.len(),
{
    if es.len() == 0 {
        h
    } else {
        element(heard_of(h, es.drop_last()), es.last())
    }
}

/// The tags among them, in order.
pub open spec fn tags_of(xs: Seq<Inner>) -> Seq<(Seq<u8>, Seq<u8>)>
    decreases xs.len(),
{
    if xs.len() == 0 {
        Seq::empty()
    } else {
        match xs.last() {
            Inner::Tag(k, v) => tags_of(xs.drop_last()).push((k, v)),
            Inner::Node(_) => tags_of(xs.drop_last()),
        }
    }
}

/// The nodes among them, in order.
pub open spec fn nodes_of(xs: Seq<Inner>) -> Seq<i64>
    decreases xs.len(),
{
    if xs.len() == 0 {
        Seq::empty()
    } else {
        match xs.last() {
            Inner::Tag(_, _) => nodes_of(xs.drop_last()),
            Inner::Node(n) => nodes_of(xs.drop_last()).push(n),
        }
    }
}

proof fn lemma_inner(h: Heard, es: Seq<Seq<u8>>, xs: Seq<Inner>)
    requires
        h.way is Some,
        h.tags.len() == 0,
        h.refs.len() == 0,
        es.len() == xs.len(),
        forall|i: int| 0 <= i < es.len() ==> #[trigger] is_inner(es[i], xs[i]),
    ensures
        heard_of(h, es) == (Heard { tags: tags_of(xs), refs: nodes_of(xs), ..h }),
    decreases es.len(),
{
    if es.len() == 0 {
        assert(h.tags =~= Seq::<(Seq<u8>, Seq<u8>)>::empty());
        assert(h.refs =~= Seq::<i64>::empty());
    } else {
        let (e0, x0) = (es.drop_last(), xs.drop_last());
        assert forall|i: int| 0 <= i < e0.len() implies #[trigger] is_inner(e0[i], x0[i]) by {
            assert(is_inner(es[i], xs[i]));
        }
        lemma_inner(h, e0, x0);
        let g = heard_of(h, e0);
        let n = es.len() - 1;
        assert(is_inner(es[n], xs[n]));
        match xs.last() {
            Inner::Tag(k, v) => {
                let rest = choose|rest: Seq<u8>|
                    is_rest(rest) && es[n] == #[trigger] (word("tag") + rest) && attr_of(
                        rest,
                        word("k"),
                    ) == Some(guarded_all(k)) && attr_of(rest, word("v")) == Some(guarded_all(v));
                lemma_tag_heard(g, rest, k, v);
            },
            Inner::Node(m) => {
                let rest = choose|rest: Seq<u8>|
                    is_rest(rest) && es[n] == #[trigger] (word("nd") + rest) && (attr_of(
                        rest,
                        word("ref"),
                    ) matches Some(v) && ref_of(v) == Some(m as int));
                let v = attr_of(rest, word("ref"))->0;
                lemma_nd_heard(g, rest, v);
            },
        }
    }
}

/// A way is heard with its number, its tags and its nodes, each in the order in
/// which they stand, once it closes; and it is counted in its section.
pub proof fn lemma_way_heard(h: Heard, rest: Seq<u8>, v: Seq<u8>, es: Seq<Seq<u8>>, xs: Seq<Inner>)
    requires
        is_rest(rest),
        attr_of(rest, word("id")) == Some(v),
        id_of(v) is Some,
        es.len() == xs.len(),
        forall|i: int| 0 <= i < es.len() ==> #[trigger] is_inner(es[i], xs[i]),
    ensures
        ({
            let id = id_of(v)->0 as u64;
            let open = element(h, word("way") + rest);
            element(heard_of(open, es), seq![47u8] + word("way")) == (Heard {
                way: None,
                tags: Seq::empty(),
                refs: Seq::empty(),
                ways: h.ways.push(id),
                tagged: h.tagged.push(WayModel { id, tags: tags_of(xs), refs: nodes_of(xs) }),
                way_counts: h.way_counts.more(h.section),
                ..h
            })
        }),
{
    lemma_apart();
    lemma_opened(h, word("way"), rest);
    let open = element(h, word("way") + rest);
    lemma_inner(open, es, xs);
    let close = seq![47u8] + word("way");
    assert(close.subrange(1, 4) =~= word("way"));
    assert(close[0] == 47);
}

/// A way without a number is counted and no more: what stands in it is not
/// heard.
pub proof fn lemma_numberless(h: Heard, rest: Seq<u8>)
    requires
        is_rest(rest),
        attr_of(rest, word("id")) is None || id_of(attr_of(rest, word("id"))->0) is None,
    ensures
        element(h, word("way") + rest) == (Heard {
            way: None,
            tags: Seq::empty(),
            refs: Seq::empty(),
            way_counts: h.way_counts.more(h.section),
            ..h
        }),
{
    lemma_apart();
    lemma_opened(h, word("way"), rest);
}

} // verus!
