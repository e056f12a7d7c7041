//! Map data is read back as it was written.

use vstd::prelude::*;
use crate::pbf::block::{body_or_none, number_or};
use crate::pbf::wire::{
    all_fit, body, fits, is_field, last_field, leb, power128, token_at, tokens_from, tokens_of,
    varint_at, zigzag_of, Token,
};

verus! {

/// `s` stands at `p`.
pub open spec fn stands(b: Seq<u8>, p: int, s: Seq<u8>) -> bool {
    0 <= p && p + s.len() <= b.len() && b.subrange(p, p + s.len()) == s
}

/// What stands there stands there in its two halves.
pub(crate) proof fn lemma_halves(b: Seq<u8>, p: int, x: Seq<u8>, y: Seq<u8>)
    requires
        stands(b, p, x + y),
    ensures
        stands(b, p, x),
        stands(b, p + x.len(), y),
{
    let all = b.subrange(p, p + (x + y).len());
    assert(all.subrange(0, x.len() as int) =~= b.subrange(p, p + x.len()));
    assert((x + y).subrange(0, x.len() as int) =~= x);
    assert(all.subrange(x.len() as int, (x + y).len() as int) =~= b.subrange(
        p + x.len(),
        p + x.len() + y.len(),
    ));
    assert((x + y).subrange(x.len() as int, (x + y).len() as int) =~= y);
}

// ------------------------------------------------------------------- numbers

/// A number in groups of seven bits, the lowest first, every byte but the last
/// marked.
pub open spec fn written(x: int) -> Seq<u8>
    decreases x,
{
    if x < 128 {
        seq![x as u8]
    } else {
        seq![(128 + x % 128) as u8] + written(x / 128)
    }
}

proof fn lemma_written_at(b: Seq<u8>, p: int, k: int, x: int)
    requires
        0 <= k < 10,
        0 <= x < power128(10 - k),
        stands(b, p, written(x)),
    ensures
        leb(b, p, k) == Some((x, p + written(x).len())),
        written(x).len() >= 1,
    decreases x,
{
    if x < 128 {
        assert(b.subrange(p, p + 1)[0] == b[p]);
        assert(b[p] == x);
    } else {
        assert(power128(1) == 128 * power128(0));
        assert(power128(10 - k) == 128 * power128(9 - k));
        let (head, rest) = (seq![(128 + x % 128) as u8], written(x / 128));
        lemma_halves(b, p, head, rest);
        assert(b.subrange(p, p + 1)[0] == b[p]);
        assert(b[p] == 128 + x % 128);
        lemma_written_at(b, p + 1, k + 1, x / 128);
    }
}

/// A number is read back as it was written.
pub proof fn lemma_number_read(b: Seq<u8>, p: int, x: u64)
    requires
        stands(b, p, written(x as int)),
    ensures
        varint_at(b, p) == Some((x, p + written(x as int).len())),
        written(x as int).len() >= 1,
{
    reveal_with_fuel(power128, 11);
    lemma_written_at(b, p, 0, x as int);
}

/// A signed number as one without a sign: the small ones of either sign stay
/// small.
pub open spec fn folded(x: i64) -> u64 {
    if x >= 0 {
        (2 * x) as u64
    } else {
        (-2 * x - 1) as u64
    }
}

/// Signed numbers are read back as they were folded.
pub proof fn lemma_folded(x: i64)
    ensures
        zigzag_of(folded(x)) == x,
{
}

// -------------------------------------------------------------------- fields

/// A field of a message.
pub enum Field {
    Number(u64, u64),
    Text(u64, Seq<u8>),
}

/// A field as it is sent: its number and kind, then its value, or its length
/// and bytes.
pub open spec fn sent_one(f: Field) -> Seq<u8> {
    match f {
        Field::Number(num, v) => written(num * 8) + written(v as int),
        Field::Text(num, s) => written(num * 8 + 2) + (written(s.len() as int) + s),
    }
}

/// A message as it is sent, one field after another.
pub open spec fn sent(fs: Seq<Field>) -> Seq<u8>
    decreases fs.len(),
{
    if fs.len() == 0 {
        Seq::empty()
    } else {
        sent_one(fs[0]) + sent(fs.drop_first())
    }
}

pub open spec fn small(f: Field) -> bool {
    match f {
        Field::Number(num, _) => num < 1000,
        Field::Text(num, s) => num < 1000 && s.len() <= 0xFFFF_FFFF,
    }
}

/// The fields of a message, in numbers and lengths that it can hold.
pub open spec fn message(fs: Seq<Field>) -> bool {
    &&& forall|i: int| 0 <= i < fs.len() ==> small(#[trigger] fs[i])
    &&& sent(fs).len() <= usize::MAX
}

/// The token of a field.
pub open spec fn is_token(b: Seq<u8>, t: Token, f: Field) -> bool {
    match f {
        Field::Number(num, v) => t.num == num && t.wire == 0 && t.value == v,
        Field::Text(num, s) => t.num == num && t.wire == 2 && t.value == s.len() && fits(
            t,
            b.len() as int,
        ) && body(b, t) == s,
    }
}

pub(crate) proof fn lemma_token_read(b: Seq<u8>, p: int, f: Field)
    requires
        small(f),
        stands(b, p, sent_one(f)),
        b.len() <= usize::MAX,
    ensures
        token_at(b, p) matches Some((t, q)) && q == p + sent_one(f).len() && is_token(b, t, f),
        sent_one(f).len() >= 1,
{
    match f {
        Field::Number(num, v) => {
            lemma_halves(b, p, written(num * 8), written(v as int));
            lemma_number_read(b, p, (num * 8) as u64);
            lemma_number_read(b, p + written(num * 8).len(), v);
        },
        Field::Text(num, s) => {
            let (x, y) = (written(num * 8 + 2), written(s.len() as int));
            lemma_halves(b, p, x, y + s);
            lemma_halves(b, p + x.len(), y, s);
            lemma_number_read(b, p, (num * 8 + 2) as u64);
            lemma_number_read(b, p + x.len(), s.len() as u64);
        },
    }
}

proof fn lemma_tokens(b: Seq<u8>, p: int, fs: Seq<Field>)
    requires
        forall|i: int| 0 <= i < fs.len() ==> small(#[trigger] fs[i]),
        stands(b, p, sent(fs)),
        p + sent(fs).len() == b.len(),
        b.len() <= usize::MAX,
    ensures
        tokens_from(b, p) matches Some(ts) && ts.len() == fs.len() && forall|i: int|
            0 <= i < fs.len() ==> #[trigger] is_token(b, ts[i], fs[i]),
    decreases fs.len(),
{
    if fs.len() > 0 {
        let rest = fs.drop_first();
        let q = p + sent_one(fs[0]).len();
        lemma_halves(b, p, sent_one(fs[0]), sent(rest));
        lemma_token_read(b, p, fs[0]);
        assert forall|i: int| 0 <= i < rest.len() implies small(#[trigger] rest[i]) by {
            assert(rest[i] == fs[i + 1]);
        }
        lemma_tokens(b, q, rest);
        let ts = tokens_from(b, p)->0;
        let tr = tokens_from(b, q)->0;
        assert(ts.len() == fs.len());
        assert forall|i: int| 0 <= i < fs.len() implies #[trigger] is_token(b, ts[i], fs[i]) by {
            if i > 0 {
                assert(ts[i] == tr[i - 1] && fs[i] == rest[i - 1]);
                assert(is_token(b, tr[i - 1], rest[i - 1]));
            }
        }
    }
}

/// The fields of a message are read back as they were sent.
pub proof fn lemma_fields_read(fs: Seq<Field>)
    requires
        message(fs),
    ensures
        tokens_of(sent(fs)) matches Some(ts) && ts.len() == fs.len() && forall|i: int|
            0 <= i < fs.len() ==> #[trigger] is_token(sent(fs), ts[i], fs[i]),
{
    let b = sent(fs);
    assert(b.subrange(0, b.len() as int) =~= b);
    lemma_tokens(b, 0, fs);
}

/// The field is a number under `num`.
pub open spec fn is_number(f: Field, num: u64) -> bool {
    f matches Field::Number(n, _) && n == num
}

pub open spec fn is_text(f: Field, num: u64) -> bool {
    f matches Field::Text(n, _) && n == num
}

/// The message says `v` under `num`: what it says last there, or `default`
/// where it says nothing.
pub open spec fn says_number(fs: Seq<Field>, num: u64, default: u64, v: u64) -> bool {
    if exists|i: int| 0 <= i < fs.len() && is_number(#[trigger] fs[i], num) {
        exists|i: int|
            0 <= i < fs.len() && #[trigger] fs[i] == Field::Number(num, v) && forall|j: int|
                i < j < fs.len() ==> !is_number(#[trigger] fs[j], num)
    } else {
        v == default
    }
}

/// The message holds the bytes `s` under `num`, and no others there.
pub open spec fn says_text(fs: Seq<Field>, num: u64, s: Seq<u8>) -> bool {
    if exists|i: int| 0 <= i < fs.len() && is_text(#[trigger] fs[i], num) {
        exists|i: int|
            0 <= i < fs.len() && #[trigger] fs[i] == Field::Text(num, s) && forall|j: int|
                i < j < fs.len() ==> !is_text(#[trigger] fs[j], num)
    } else {
        s.len() == 0
    }
}

pub(crate) proof fn lemma_last(ts: Seq<Token>, num: u64, wire: u64, i: int, n: int)
    requires
        0 <= i < n <= ts.len(),
        is_field(ts[i], num, wire),
        forall|j: int| i < j < n ==> !is_field(#[trigger] ts[j], num, wire),
    ensures
        last_field(ts, num, wire, n) == Some(ts[i]),
    decreases n,
{
    if i < n - 1 {
        lemma_last(ts, num, wire, i, n - 1);
    }
}

pub(crate) proof fn lemma_no_last(ts: Seq<Token>, num: u64, wire: u64, n: int)
    requires
        0 <= n <= ts.len(),
        forall|j: int| 0 <= j < n ==> !is_field(#[trigger] ts[j], num, wire),
    ensures
        last_field(ts, num, wire, n) is None,
    decreases n,
{
    if n > 0 {
        lemma_no_last(ts, num, wire, n - 1);
    }
}

/// What is read under a number, in whatever order the fields came.
pub proof fn lemma_value_read(fs: Seq<Field>, num: u64, default: u64, v: u64)
    requires
        message(fs),
        says_number(fs, num, default, v),
    ensures
        tokens_of(sent(fs)) matches Some(ts) && number_or(ts, num, default) == v,
{
    lemma_fields_read(fs);
    let b = sent(fs);
    let ts = tokens_of(b)->0;
    assert forall|j: int| 0 <= j < ts.len() implies is_field(#[trigger] ts[j], num, 0) == is_number(
        fs[j],
        num,
    ) by {
        assert(is_token(b, ts[j], fs[j]));
    }
    if exists|i: int| 0 <= i < fs.len() && is_number(#[trigger] fs[i], num) {
        let i = choose|i: int|
            0 <= i < fs.len() && #[trigger] fs[i] == Field::Number(num, v) && forall|j: int|
                i < j < fs.len() ==> !is_number(#[trigger] fs[j], num);
        assert(is_token(b, ts[i], fs[i]));
        lemma_last(ts, num, 0, i, ts.len() as int);
    } else {
        lemma_no_last(ts, num, 0, ts.len() as int);
    }
}

pub proof fn lemma_text_read(fs: Seq<Field>, num: u64, s: Seq<u8>)
    requires
        message(fs),
        says_text(fs, num, s),
    ensures
        tokens_of(sent(fs)) matches Some(ts) && body_or_none(sent(fs), ts, num) == s,
{
    lemma_fields_read(fs);
    let b = sent(fs);
    let ts = tokens_of(b)->0;
    assert forall|j: int| 0 <= j < ts.len() implies is_field(#[trigger] ts[j], num, 2) == is_text(
        fs[j],
        num,
    ) by {
        assert(is_token(b, ts[j], fs[j]));
    }
    if exists|i: int| 0 <= i < fs.len() && is_text(#[trigger] fs[i], num) {
        let i = choose|i: int|
            0 <= i < fs.len() && #[trigger] fs[i] == Field::Text(num, s) && forall|j: int|
                i < j < fs.len() ==> !is_text(#[trigger] fs[j], num);
        assert(is_token(b, ts[i], fs[i]));
        lemma_last(ts, num, 2, i, ts.len() as int);
    } else {
        lemma_no_last(ts, num, 2, ts.len() as int);
        assert(s =~= Seq::<u8>::empty());
    }
}

pub(crate) proof fn lemma_fit(fs: Seq<Field>, num: u64)
    requires
        message(fs),
    ensures
        tokens_of(sent(fs)) matches Some(ts) && all_fit(ts, num, sent(fs).len() as int),
{
    lemma_fields_read(fs);
    let b = sent(fs);
    let ts = tokens_of(b)->0;
    assert forall|i: int| 0 <= i < ts.len() && is_field(#[trigger] ts[i], num, 2) implies fits(
        ts[i],
        b.len() as int,
    ) by {
        assert(is_token(b, ts[i], fs[i]));
    }
}

} // verus!
