//! Blobs are found and opened as they were written.

use vstd::prelude::*;
use crate::laws::reading::{
    is_text, is_token, lemma_fields_read, lemma_fit, lemma_last, lemma_no_last, lemma_value_read,
    message, says_number, sent, Field,
};
use crate::pbf::blob::{inflated, placed, unpacked, BlobFault, BlobKind};
use crate::pbf::wire::{body, is_field, last_field, tokens_of};
use crate::text::word;

verus! {

/// The message holds these bytes under `num`: the last that it holds there.
pub open spec fn holds_text(fs: Seq<Field>, num: u64, s: Seq<u8>) -> bool {
    exists|i: int|
        0 <= i < fs.len() && #[trigger] fs[i] == Field::Text(num, s) && forall|j: int|
            i < j < fs.len() ==> !is_text(#[trigger] fs[j], num)
}

/// The message holds no bytes under `num`.
pub open spec fn lacks_text(fs: Seq<Field>, num: u64) -> bool {
    forall|i: int| 0 <= i < fs.len() ==> !is_text(#[trigger] fs[i], num)
}

proof fn lemma_text_field(fs: Seq<Field>, num: u64, s: Seq<u8>)
    requires
        message(fs),
        holds_text(fs, num, s),
    ensures
        tokens_of(sent(fs)) matches Some(ts) && (last_field(ts, num, 2, ts.len() as int) matches Some(
            t,
        ) && crate::pbf::wire::fits(t, sent(fs).len() as int) && body(sent(fs), t) == s),
{
    lemma_fields_read(fs);
    let b = sent(fs);
    let ts = tokens_of(b)->0;
    assert forall|j: int| 0 <= j < ts.len() implies is_field(#[trigger] ts[j], num, 2) == is_text(
        fs[j],
        num,
    ) by {
        assert(is_token(b, ts[j], fs[j]));
    }
    let i = choose|i: int|
        0 <= i < fs.len() && #[trigger] fs[i] == Field::Text(num, s) && forall|j: int|
            i < j < fs.len() ==> !is_text(#[trigger] fs[j], num);
    assert(is_token(b, ts[i], fs[i]));
    lemma_last(ts, num, 2, i, ts.len() as int);
}

proof fn lemma_no_field(fs: Seq<Field>, num: u64)
    requires
        message(fs),
        lacks_text(fs, num),
    ensures
        tokens_of(sent(fs)) matches Some(ts) && last_field(ts, num, 2, ts.len() as int) is None,
{
    lemma_fields_read(fs);
    let b = sent(fs);
    let ts = tokens_of(b)->0;
    assert forall|j: int| 0 <= j < ts.len() implies !is_field(#[trigger] ts[j], num, 2) by {
        assert(is_token(b, ts[j], fs[j]));
        assert(!is_text(fs[j], num));
    }
    lemma_no_last(ts, num, 2, ts.len() as int);
}

/// The header of a blob says what kind it is and how long: the blob stands right
/// behind its header, and the next one begins where it ends. A header without a
/// length is none.
pub proof fn lemma_blob_placed(pos: int, fs: Seq<Field>, kind: Seq<u8>, len: u64)
    requires
        0 <= pos <= 0x7FFF_FFFF_FFFF_FFFF,
        message(fs),
        0 < sent(fs).len() <= 65536,
        holds_text(fs, 1, kind),
        says_number(fs, 3, 0, len),
        len <= u32::MAX,
    ensures
        len == 0 ==> (placed(pos, sent(fs)) matches Err(e) && e == BlobFault::NoSize),
        len > 0 ==> (placed(pos, sent(fs)) matches Ok((d, next)) && {
            &&& d.len == len
            &&& d.offset == pos + 4 + sent(fs).len()
            &&& next == d.offset + d.len
            &&& d.kind == BlobKind::Header <==> kind == word("OSMHeader")
            &&& d.kind == BlobKind::Data <==> kind != word("OSMHeader")
        }),
{
    lemma_fit(fs, 1);
    lemma_text_field(fs, 1, kind);
    lemma_value_read(fs, 3, 0, len);
}

/// What a blob holds as it is, is what it gives; what it holds compressed is
/// expanded to the length that it says, and is preferred where it holds both.
/// One that holds neither is refused.
pub proof fn lemma_blob_opened(fs: Seq<Field>, raw: Seq<u8>, zlib: Seq<u8>, size: u64)
    requires
        message(fs),
        says_number(fs, 2, 0, size),
        size <= isize::MAX,
    ensures
        holds_text(fs, 1, raw) && lacks_text(fs, 3) ==> (unpacked(sent(fs)) matches Ok(
            s,
        ) && s == raw),
        holds_text(fs, 3, zlib) ==> (match inflated(zlib, size as int) {
            Some(s) => unpacked(sent(fs)) matches Ok(x) && x == s,
            None => unpacked(sent(fs)) matches Err(e) && e == BlobFault::Zlib,
        }),
        lacks_text(fs, 1) && lacks_text(fs, 3) ==> (unpacked(sent(fs)) matches Err(e) && e
            == BlobFault::Unsupported),
{
    lemma_fields_read(fs);
    lemma_value_read(fs, 2, 0, size);
    if holds_text(fs, 3, zlib) {
        lemma_text_field(fs, 3, zlib);
    }
    if lacks_text(fs, 3) {
        lemma_no_field(fs, 3);
        if holds_text(fs, 1, raw) {
            lemma_text_field(fs, 1, raw);
        }
        if lacks_text(fs, 1) {
            lemma_no_field(fs, 1);
        }
    }
}

} // verus!
