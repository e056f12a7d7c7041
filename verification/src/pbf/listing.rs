//! The list of blobs kept beside an extract, so that it is walked once.

use vstd::prelude::*;
use crate::bytes::{
    get_u32, get_u64, le, lemma_le_len, lemma_le_number, lemma_pow256, number, put_u32, put_u64,
};
use crate::pbf::blob::{BlobDesc, BlobKind};

verus! {

/// The bytes one blob takes in the list.
pub const RECORD: usize = 16;

/// How a blob is written down: where it starts, how long it is, and its kind.
pub open spec fn record_of(d: BlobDesc) -> Seq<u8> {
    le(d.offset as int, 8) + le(d.len as int, 4) + seq![
        if d.kind is Header {
            0u8
        } else {
            1u8
        },
        0u8,
        0u8,
        0u8,
    ]
}

pub open spec fn listing_of(blobs: Seq<BlobDesc>) -> Seq<u8>
    decreases blobs.len(),
{
    if blobs.len() == 0 {
        Seq::empty()
    } else {
        listing_of(blobs.drop_last()) + record_of(blobs.last())
    }
}

/// What a record says.
pub open spec fn blob_at(raw: Seq<u8>, at: int) -> BlobDesc {
    BlobDesc {
        offset: number(raw.subrange(at, at + 8)) as u64,
        len: number(raw.subrange(at + 8, at + 12)) as u32,
        kind: if raw[at + 12] == 0 {
            BlobKind::Header
        } else {
            BlobKind::Data
        },
    }
}

/// The list as bytes.
pub fn write_listing(blobs: &[BlobDesc]) -> (b: Vec<u8>)
    ensures
        b@ == listing_of(blobs@),
{
    let mut b: Vec<u8> = Vec::new();
    let n: usize = blobs.len();
    let mut i: usize = 0;
    while i < n
        invariant
            n == blobs@.len(),
            i <= n,
            b@ == listing_of(blobs@.take(i as int)),
        decreases n - i,
    {
        let ghost b0 = b@;
        let d: BlobDesc = blobs[i];
        put_u64(&mut b, d.offset);
        put_u32(&mut b, d.len);
        let k: u8 = match d.kind {
            BlobKind::Header => 0,
            BlobKind::Data => 1,
        };
        b.push(k);
        b.push(0);
        b.push(0);
        b.push(0);
        assert(b@ =~= b0 + record_of(d));
        assert(blobs@.take(i + 1).drop_last() =~= blobs@.take(i as int));
        i += 1;
    }
    assert(blobs@.take(i as int) =~= blobs@);
    b
}

/// The blobs of a list; what is left over at its end is not looked at.
pub fn read_listing(raw: &[u8]) -> (out: Vec<BlobDesc>)
    ensures
        out@ == Seq::new((raw@.len() / 16) as nat, |i: int| blob_at(raw@, 16 * i)),
{
    let n: usize = raw.len() / RECORD;
    let mut out: Vec<BlobDesc> = Vec::new();
    let mut i: usize = 0;
    while i < n
        invariant
            n == raw@.len() / 16,
            raw@.len() <= usize::MAX,
            i <= n,
            out@ == Seq::new(i as nat, |j: int| blob_at(raw@, 16 * j)),
        decreases n - i,
    {
        let at: usize = RECORD * i;
        let kind: BlobKind = if raw[at + 12] == 0 {
            BlobKind::Header
        } else {
            BlobKind::Data
        };
        let d: BlobDesc = BlobDesc { offset: get_u64(raw, at), len: get_u32(raw, at + 8), kind };
        out.push(d);
        i += 1;
        assert(out@ =~= Seq::new(i as nat, |j: int| blob_at(raw@, 16 * j)));
    }
    out
}

proof fn lemma_listing_len(blobs: Seq<BlobDesc>)
    ensures
        listing_of(blobs).len() == 16 * blobs.len(),
    decreases blobs.len(),
{
    if blobs.len() > 0 {
        lemma_listing_len(blobs.drop_last());
        lemma_le_len(blobs.last().offset as int, 8);
        lemma_le_len(blobs.last().len as int, 4);
    }
}

proof fn lemma_record_read(raw: Seq<u8>, at: int, d: BlobDesc)
    requires
        0 <= at,
        at + 16 <= raw.len(),
        raw.subrange(at, at + 16) == record_of(d),
    ensures
        blob_at(raw, at) == d,
{
    lemma_pow256();
    lemma_le_number(d.offset as int, 8);
    lemma_le_number(d.len as int, 4);
    let r = record_of(d);
    assert(raw.subrange(at, at + 8) =~= le(d.offset as int, 8)) by {
        assert forall|i: int| 0 <= i < 8 implies raw.subrange(at, at + 8)[i] == le(
            d.offset as int,
            8,
        )[i] by {
            assert(raw.subrange(at, at + 16)[i] == r[i]);
        }
    }
    assert(raw.subrange(at + 8, at + 12) =~= le(d.len as int, 4)) by {
        assert forall|i: int| 0 <= i < 4 implies raw.subrange(at + 8, at + 12)[i] == le(
            d.len as int,
            4,
        )[i] by {
            assert(raw.subrange(at, at + 16)[8 + i] == r[8 + i]);
        }
    }
    assert(raw.subrange(at, at + 16)[12] == r[12]);
}

proof fn lemma_listing_at(blobs: Seq<BlobDesc>, i: int)
    requires
        0 <= i < blobs.len(),
    ensures
        listing_of(blobs).len() == 16 * blobs.len(),
        listing_of(blobs).subrange(16 * i, 16 * i + 16) == record_of(blobs[i]),
    decreases blobs.len(),
{
    lemma_listing_len(blobs);
    let rest = blobs.drop_last();
    lemma_listing_len(rest);
    let whole = listing_of(blobs);
    if i == blobs.len() - 1 {
        lemma_le_len(blobs[i].offset as int, 8);
        lemma_le_len(blobs[i].len as int, 4);
        assert(whole.subrange(16 * i, 16 * i + 16) =~= record_of(blobs[i]));
    } else {
        lemma_listing_at(rest, i);
        assert(whole.subrange(16 * i, 16 * i + 16) =~= listing_of(rest).subrange(
            16 * i,
            16 * i + 16,
        ));
    }
}

/// A list that was written is read back as it was.
pub proof fn lemma_listing_reads(blobs: Seq<BlobDesc>)
    ensures
        listing_of(blobs).len() / 16 == blobs.len(),
        Seq::new(
            (listing_of(blobs).len() / 16) as nat,
            |i: int| blob_at(listing_of(blobs), 16 * i),
        ) == blobs,
{
    lemma_listing_len(blobs);
    let raw = listing_of(blobs);
    assert forall|i: int| 0 <= i < blobs.len() implies blob_at(raw, 16 * i) == #[trigger] blobs[i] by {
        lemma_listing_at(blobs, i);
        lemma_record_read(raw, 16 * i, blobs[i]);
    }
    assert(Seq::new((raw.len() / 16) as nat, |i: int| blob_at(raw, 16 * i)) =~= blobs);
}

} // verus!
