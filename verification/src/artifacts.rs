//! The files of a dataset: which there are, how long each must be, and what is
//! wrong where they do not agree.
//!
//! Every array is a table of records of one width, so the lengths are related,
//! and a build that stopped halfway shows in them.

use vstd::prelude::*;
use vstd::utf8::{encode_utf8, is_ascii_chars, is_ascii_chars_encode_utf8};
use crate::addresses::entries::{all_digits, digits_value, plain_number, read_number};
use crate::overlay::ladder::MAX_LEVELS;
use crate::overlay::names::numbered;
use crate::text::{decimal_of, digit, is_word, str_eq, word};

verus! {

/// The arrays that a query may read.
pub open spec fn artifact_names() -> Seq<Seq<char>> {
    seq![
        "csr.head"@,
        "csr.to"@,
        "to.d16"@,
        "to.exc"@,
        "csr.seg"@,
        "csr.rhead"@,
        "csr.rto"@,
        "rto.d16"@,
        "rto.exc"@,
        "csr.rseg"@,
        "vcoord.bin"@,
        "seg.len"@,
        "seg.attr"@,
        "seg.attr16"@,
        "attr.dict"@,
        "seg.name"@,
        "seg.u"@,
        "seg.v"@,
        "geom.pts"@,
        "geom.off"@,
        "snap.cell"@,
        "snap.off"@,
        "snap.seg"@,
        "big.cell"@,
        "big.off"@,
        "big.seg"@,
        "name.pool"@,
        "name.off"@,
        "addr.coord"@,
        "addr.hn"@,
        "addr.street"@,
        "addr.place"@,
        "acell.key"@,
        "acell.off"@,
        "fwd.idx"@,
        "fwd.group"@,
        "hn.num"@,
        "street.pool"@,
        "street.off"@,
        "street.sorted"@,
        "street.norm"@,
        "street.normoff"@,
        "city.pool"@,
        "city.off"@,
        "pc.pool"@,
        "pc.off"@,
        "hn.pool"@,
        "hn.off"@,
        "place.tab"@,
        "toll.vertex"@,
        "toll.meta"@,
        "toll.tariff.tsv"@,
        "toll.mpedb"@,
        "way.id"@,
        "way.hash"@,
        "way.topo"@,
        "way.head"@,
        "way.seg"@,
        "way.fmt"@,
        "vxyz.bin"@,
        "cell.of"@,
        "cell.bnd"@,
        "cell.bhead"@,
        "ov.head"@,
        "ov.mat"@,
        "ov.width"@,
        "ov.bounds"@,
    ]
}

/// The arrays that a query may read, in the order in which they are checked.
#[verifier::rlimit(40)]
pub fn runtime_artifacts() -> (r: Vec<&'static str>)
    ensures
        r@.len() == artifact_names().len(),
        forall|i: int| 0 <= i < r@.len() ==> (#[trigger] r@[i])@ == artifact_names()[i],
{
    let mut r: Vec<&'static str> = Vec::new();
    r.push("csr.head");
    r.push("csr.to");
    r.push("to.d16");
    r.push("to.exc");
    r.push("csr.seg");
    r.push("csr.rhead");
    r.push("csr.rto");
    r.push("rto.d16");
    r.push("rto.exc");
    r.push("csr.rseg");
    r.push("vcoord.bin");
    r.push("seg.len");
    r.push("seg.attr");
    r.push("seg.attr16");
    r.push("attr.dict");
    r.push("seg.name");
    r.push("seg.u");
    r.push("seg.v");
    r.push("geom.pts");
    r.push("geom.off");
    r.push("snap.cell");
    r.push("snap.off");
    r.push("snap.seg");
    r.push("big.cell");
    r.push("big.off");
    r.push("big.seg");
    r.push("name.pool");
    r.push("name.off");
    r.push("addr.coord");
    r.push("addr.hn");
    r.push("addr.street");
    r.push("addr.place");
    r.push("acell.key");
    r.push("acell.off");
    r.push("fwd.idx");
    r.push("fwd.group");
    r.push("hn.num");
    r.push("street.pool");
    r.push("street.off");
    r.push("street.sorted");
    r.push("street.norm");
    r.push("street.normoff");
    r.push("city.pool");
    r.push("city.off");
    r.push("pc.pool");
    r.push("pc.off");
    r.push("hn.pool");
    r.push("hn.off");
    r.push("place.tab");
    r.push("toll.vertex");
    r.push("toll.meta");
    r.push("toll.tariff.tsv");
    r.push("toll.mpedb");
    r.push("way.id");
    r.push("way.hash");
    r.push("way.topo");
    r.push("way.head");
    r.push("way.seg");
    r.push("way.fmt");
    r.push("vxyz.bin");
    r.push("cell.of");
    r.push("cell.bnd");
    r.push("cell.bhead");
    r.push("ov.head");
    r.push("ov.mat");
    r.push("ov.width");
    r.push("ov.bounds");
    r
}

/// What the files of one level end in.
pub open spec fn is_level_ending(s: Seq<u8>) -> bool {
    ||| s == word(".of")
    ||| s == word(".bnd")
    ||| s == word(".bhead")
    ||| s == word(".head")
    ||| s == word(".mat")
    ||| s == word(".width")
    ||| s == word(".vhead")
    ||| s == word(".vlist")
    ||| s == word(".lazy")
    ||| s == word(".have")
    ||| s == word(".use")
}

/// Where the first dot of a name stands, from `i` on; its end where there is
/// none.
pub open spec fn dot_at(s: Seq<u8>, i: int) -> int
    decreases s.len() - i,
{
    if i >= s.len() || s[i] == 46 {
        i
    } else {
        dot_at(s, i + 1)
    }
}

/// `l`, the number of a level from 2 on, a dot and one of the endings.
pub open spec fn is_level_name(s: Seq<u8>) -> bool {
    let d = dot_at(s, 1);
    &&& s.len() > 0 && s[0] == 108
    &&& d < s.len()
    &&& plain_number(s.subrange(1, d)) matches Some(n) && 2 <= n <= MAX_LEVELS
    &&& is_level_ending(s.subrange(d, s.len() as int))
}

fn level_ending(s: &[u8]) -> (r: bool)
    ensures
        r == is_level_ending(s@),
{
    is_word(s, ".of") || is_word(s, ".bnd") || is_word(s, ".bhead") || is_word(s, ".head") || is_word(s, ".mat") || is_word(s, ".width") || is_word(s, ".vhead") || is_word(s, ".vlist") || is_word(s, ".lazy") || is_word(s, ".have") || is_word(s, ".use")
}

/// Whether a file belongs to a level above the first.
pub fn is_level_artifact(name: &str) -> (r: bool)
    ensures
        r == is_level_name(word(name)),
{
    let s: &[u8] = name.as_bytes();
    if s.len() == 0 || s[0] != 108 {
        return false;
    }
    let mut n: Vec<u8> = Vec::new();
    let mut d: usize = 1;
    while d < s.len() && s[d] != 46
        invariant
            1 <= d <= s@.len(),
            dot_at(s@, d as int) == dot_at(s@, 1),
            n@ == s@.subrange(1, d as int),
        decreases s@.len() - d,
    {
        n.push(s[d]);
        assert(n@ =~= s@.subrange(1, d + 1));
        d += 1;
    }
    if d == s.len() {
        return false;
    }
    match read_number(&n) {
        None => false,
        Some(k) => 2 <= k && k <= MAX_LEVELS as u32 && level_ending(vstd::slice::slice_subrange(s, d, s.len())),
    }
}

/// What the names of a level's files end in, after the dot.
pub open spec fn level_endings() -> Seq<Seq<char>> {
    seq![
        "of"@,
        "bnd"@,
        "bhead"@,
        "head"@,
        "mat"@,
        "width"@,
        "vhead"@,
        "vlist"@,
        "lazy"@,
        "have"@,
        "use"@,
    ]
}

proof fn lemma_ascii_join(a: Seq<char>, b: Seq<char>)
    requires
        is_ascii_chars(a),
        is_ascii_chars(b),
    ensures
        is_ascii_chars(a + b),
        encode_utf8(a + b) == encode_utf8(a) + encode_utf8(b),
{
    let c = a + b;
    assert(is_ascii_chars(c));
    is_ascii_chars_encode_utf8(a);
    is_ascii_chars_encode_utf8(b);
    is_ascii_chars_encode_utf8(c);
    assert forall|i: int| 0 <= i < c.len() implies encode_utf8(c)[i] == (encode_utf8(a) + encode_utf8(
        b,
    ))[i] by {
        assert(encode_utf8(c)[i] == c[i] as u8);
        if i < a.len() {
            assert(c[i] == a[i]);
            assert(encode_utf8(a)[i] == a[i] as u8);
        } else {
            assert(c[i] == b[i - a.len()]);
            assert(encode_utf8(b)[i - a.len()] == b[i - a.len()] as u8);
        }
    }
    assert(encode_utf8(c) =~= encode_utf8(a) + encode_utf8(b));
}

/// An ending is one of the endings, its dot before it.
proof fn lemma_level_ending(ending: Seq<char>)
    requires
        level_endings().contains(ending),
    ensures
        is_ascii_chars("."@ + ending),
        is_level_ending(encode_utf8("."@ + ending)),
        ("."@ + ending).len() >= 1,
        ("."@ + ending)[0] == '.',
{
    reveal_strlit(".");
    reveal_strlit("of");
    reveal_strlit("bnd");
    reveal_strlit("bhead");
    reveal_strlit("head");
    reveal_strlit("mat");
    reveal_strlit("width");
    reveal_strlit("vhead");
    reveal_strlit("vlist");
    reveal_strlit("lazy");
    reveal_strlit("have");
    reveal_strlit("use");
    reveal_strlit(".of");
    reveal_strlit(".bnd");
    reveal_strlit(".bhead");
    reveal_strlit(".head");
    reveal_strlit(".mat");
    reveal_strlit(".width");
    reveal_strlit(".vhead");
    reveal_strlit(".vlist");
    reveal_strlit(".lazy");
    reveal_strlit(".have");
    reveal_strlit(".use");
    let i = level_endings().index_of(ending);
    assert(level_endings()[i] == ending);
    assert("."@ + "of"@ =~= ".of"@);
    assert("."@ + "bnd"@ =~= ".bnd"@);
    assert("."@ + "bhead"@ =~= ".bhead"@);
    assert("."@ + "head"@ =~= ".head"@);
    assert("."@ + "mat"@ =~= ".mat"@);
    assert("."@ + "width"@ =~= ".width"@);
    assert("."@ + "vhead"@ =~= ".vhead"@);
    assert("."@ + "vlist"@ =~= ".vlist"@);
    assert("."@ + "lazy"@ =~= ".lazy"@);
    assert("."@ + "have"@ =~= ".have"@);
    assert("."@ + "use"@ =~= ".use"@);
}

/// A number of two digits at most, written out and read back.
proof fn lemma_level_number(n: nat)
    requires
        2 <= n <= MAX_LEVELS,
    ensures
        is_ascii_chars(decimal_of(n)),
        all_digits(encode_utf8(decimal_of(n))),
        plain_number(encode_utf8(decimal_of(n))) == Some(n as u32),
{
    reveal_with_fuel(decimal_of, 3);
    reveal_with_fuel(digits_value, 4);
    let d = decimal_of(n);
    assert(is_ascii_chars(d));
    is_ascii_chars_encode_utf8(d);
    let b = encode_utf8(d);
    assert forall|i: int| 0 <= i < b.len() implies 48 <= #[trigger] b[i] <= 57 by {
        assert(b[i] == d[i] as u8);
    }
    assert(b[0] == d[0] as u8);
    if n < 10 {
        assert(d =~= seq![digit(n as int)]);
        assert(b.last() == 48 + n);
        assert(b.drop_last() =~= Seq::<u8>::empty());
        assert(digits_value(b) == n);
    } else {
        assert(d =~= seq![digit((n / 10) as int), digit((n % 10) as int)]);
        assert(b.last() == d[1] as u8);
        assert(b.last() == 48 + n % 10);
        assert(b.drop_last().last() == b[0]);
        assert(b[0] == 48 + n / 10);
        assert(b.drop_last().drop_last() =~= Seq::<u8>::empty());
        assert(digits_value(b) == n);
    }
}

proof fn lemma_dot_at(s: Seq<u8>, i: int, d: int)
    requires
        0 <= i <= d < s.len(),
        forall|x: int| i <= x < d ==> #[trigger] s[x] != 46,
        s[d] == 46,
    ensures
        dot_at(s, i) == d,
    decreases d - i,
{
    if i < d {
        lemma_dot_at(s, i + 1, d);
    }
}

/// Every file that a level above the first is kept in is known for one.
pub proof fn lemma_level_named(k: int, ending: Seq<char>)
    requires
        1 <= k < MAX_LEVELS,
        level_endings().contains(ending),
    ensures
        is_level_name(encode_utf8(numbered(k, ending))),
{
    let n = (k + 1) as nat;
    let tail = "."@ + ending;
    let digits = decimal_of(n);
    reveal_strlit("l");
    lemma_level_ending(ending);
    lemma_level_number(n);
    assert(is_ascii_chars("l"@));
    is_ascii_chars_encode_utf8("l"@);
    is_ascii_chars_encode_utf8(tail);
    lemma_ascii_join("l"@, digits);
    lemma_ascii_join("l"@ + digits, tail);
    assert(numbered(k, ending) =~= "l"@ + digits + tail);
    let s = encode_utf8(numbered(k, ending));
    let (head, b, t) = (encode_utf8("l"@), encode_utf8(digits), encode_utf8(tail));
    assert(s == head + b + t);
    assert(head.len() == 1 && head[0] == "l"@[0] as u8);
    assert(t[0] == tail[0] as u8);
    let d = (1 + b.len()) as int;
    assert(s[0] == 108);
    assert(s[d] == t[0]);
    assert forall|x: int| 1 <= x < d implies #[trigger] s[x] != 46 by {
        assert(s[x] == b[x - 1]);
    }
    lemma_dot_at(s, 1, d);
    assert(s.subrange(1, d) =~= b);
    assert(s.subrange(d, s.len() as int) =~= t);
}

pub open spec fn is_runtime_name(s: Seq<char>) -> bool {
    artifact_names().contains(s) || is_level_name(encode_utf8(s))
}

/// Whether a file is one that a query may read.
pub fn is_runtime_artifact(name: &str) -> (r: bool)
    ensures
        r == is_runtime_name(name@),
{
    let all: Vec<&'static str> = runtime_artifacts();
    let mut i: usize = 0;
    while i < all.len()
        invariant
            i <= all@.len(),
            all@.len() == artifact_names().len(),
            forall|j: int| 0 <= j < all@.len() ==> (#[trigger] all@[j])@ == artifact_names()[j],
            forall|j: int| 0 <= j < i ==> #[trigger] artifact_names()[j] != name@,
        decreases all@.len() - i,
    {
        if str_eq(all[i], name) {
            assert(artifact_names()[i as int] == name@);
            return true;
        }
        i += 1;
    }
    assert(!artifact_names().contains(name@));
    is_level_artifact(name)
}

pub open spec fn starts(s: Seq<u8>, p: Seq<u8>) -> bool {
    p.len() <= s.len() && s.subrange(0, p.len() as int) == p
}

pub fn starts_with(s: &[u8], p: &str) -> (r: bool)
    ensures
        r == starts(s@, word(p)),
{
    let b: &[u8] = p.as_bytes();
    b.len() <= s.len() && is_word(vstd::slice::slice_subrange(s, 0, b.len()), p)
}

pub open spec fn ends(s: Seq<u8>, p: Seq<u8>) -> bool {
    p.len() <= s.len() && s.subrange(s.len() - p.len(), s.len() as int) == p
}

pub fn ends_with(s: &[u8], p: &str) -> (r: bool)
    ensures
        r == ends(s@, word(p)),
{
    let b: &[u8] = p.as_bytes();
    b.len() <= s.len() && is_word(vstd::slice::slice_subrange(s, s.len() - b.len(), s.len()), p)
}

/// The part of a dataset that a file counts towards.
pub open spec fn group_text(s: Seq<u8>) -> Seq<char> {
    if starts(s, word("csr.")) || s == word("vcoord.bin") {
        "graph"@
    } else if starts(s, word("seg.")) {
        "segments"@
    } else if starts(s, word("geom.")) {
        "geometry (drawn line)"@
    } else if starts(s, word("snap.")) || starts(s, word("big.")) {
        "spatial index"@
    } else if starts(s, word("name.")) {
        "street names"@
    } else if starts(s, word("toll.")) {
        "toll layer (mpedb)"@
    } else if starts(s, word("ov.")) || starts(s, word("cell.")) {
        "overlay (regions)"@
    } else {
        "addresses + geocoding"@
    }
}

/// The part of a dataset that a file counts towards.
pub fn artifact_group(name: &str) -> (r: &'static str)
    ensures
        r@ == group_text(word(name)),
{
    let s: &[u8] = name.as_bytes();
    if starts_with(s, "csr.") || is_word(s, "vcoord.bin") {
        "graph"
    } else if starts_with(s, "seg.") {
        "segments"
    } else if starts_with(s, "geom.") {
        "geometry (drawn line)"
    } else if starts_with(s, "snap.") || starts_with(s, "big.") {
        "spatial index"
    } else if starts_with(s, "name.") {
        "street names"
    } else if starts_with(s, "toll.") {
        "toll layer (mpedb)"
    } else if starts_with(s, "ov.") || starts_with(s, "cell.") {
        "overlay (regions)"
    } else {
        "addresses + geocoding"
    }
}

} // verus!
