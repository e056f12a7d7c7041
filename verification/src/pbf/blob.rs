//! Blobs: the compressed pieces an extract is made of.

use vstd::prelude::*;
use crate::pbf::block::{number_or, find_number};
use crate::pbf::wire::{
    all_fit, body, body_of, check_fit, find_last, fits, is_field, last_field, tokens, tokens_of,
    Token,
};
use crate::text::{is_word, word};

verus! {

#[derive(Clone, Copy, PartialEq, Eq, Debug, Structural)]
pub enum BlobKind {
    Header,
    Data,
}

/// Where a blob's payload stands.
#[derive(Clone, Copy, Debug)]
pub struct BlobDesc {
    pub offset: u64,
    pub len: u32,
    pub kind: BlobKind,
}

/// What keeps a blob from being read.
#[derive(Clone, Copy, PartialEq, Eq, Debug, Structural)]
pub enum BlobFault {
    /// The message breaks off or holds what is not known.
    Broken,
    /// A header of no, or an implausible, length.
    HeaderLength,
    /// A header without the size of its blob.
    NoSize,
    /// The compressed bytes cannot be expanded.
    Zlib,
    /// Neither raw nor zlib.
    Unsupported,
}

/// The longest header that is believed.
pub const MAX_HEADER: usize = 65536;

pub open spec fn header_of(b: Seq<u8>) -> Result<(BlobKind, u32), BlobFault> {
    match tokens_of(b) {
        None => Err(BlobFault::Broken),
        Some(ts) => if !all_fit(ts, 1, b.len() as int) {
            Err(BlobFault::Broken)
        } else if number_or(ts, 3, 0) as u32 == 0 {
            Err(BlobFault::NoSize)
        } else {
            Ok(
                (
                    match last_field(ts, 1, 2, ts.len() as int) {
                        Some(t) => if body(b, t) == word("OSMHeader") {
                            BlobKind::Header
                        } else {
                            BlobKind::Data
                        },
                        None => BlobKind::Data,
                    },
                    number_or(ts, 3, 0) as u32,
                ),
            )
        },
    }
}

proof fn lemma_last_is(ts: Seq<Token>, num: u64, wire: u64, n: int)
    ensures
        last_field(ts, num, wire, n) matches Some(t) ==> is_field(t, num, wire),
    decreases n,
{
    if n > 0 {
        lemma_last_is(ts, num, wire, n - 1);
    }
}

/// The kind of a blob and its size, from its header.
pub fn parse_blob_header(b: &[u8]) -> (r: Result<(BlobKind, u32), BlobFault>)
    ensures
        r == header_of(b@),
{
    let ts: Vec<Token> = match tokens(b) {
        None => {
            return Err(BlobFault::Broken);
        },
        Some(ts) => ts,
    };
    if !check_fit(&ts, 1, b.len()) {
        return Err(BlobFault::Broken);
    }
    let size: u32 = #[verifier::truncate] (find_number(&ts, 3, 0) as u32);
    if size == 0 {
        return Err(BlobFault::NoSize);
    }
    let kind: BlobKind = match find_last(&ts, 1, 2) {
        Some(t) => {
            proof {
                lemma_last_is(ts@, 1, 2, ts@.len() as int);
                let i = ts@.index_of(t);
                assert(ts@[i] == t);
                assert(is_field(ts@[i], 1, 2));
            }
            if is_word(body_of(b, &t), "OSMHeader") {
                BlobKind::Header
            } else {
                BlobKind::Data
            }
        },
        None => BlobKind::Data,
    };
    Ok((kind, size))
}

/// The blob whose header, `header`, begins four bytes after `pos`, and where
/// the next one's length stands.
pub open spec fn placed(pos: int, header: Seq<u8>) -> Result<(BlobDesc, int), BlobFault> {
    if header.len() == 0 || header.len() > MAX_HEADER {
        Err(BlobFault::HeaderLength)
    } else {
        match header_of(header) {
            Err(e) => Err(e),
            Ok((kind, len)) => Ok(
                (
                    BlobDesc { offset: (pos + 4 + header.len()) as u64, len, kind },
                    pos + 4 + header.len() + len,
                ),
            ),
        }
    }
}

pub fn place_blob(pos: u64, header: &[u8]) -> (r: Result<(BlobDesc, u64), BlobFault>)
    requires
        pos <= 0x7FFF_FFFF_FFFF_FFFF,
    ensures
        match r {
            Ok((d, next)) => placed(pos as int, header@) matches Ok((e, n)) && d == e && next == n
                && next > pos,
            Err(f) => placed(pos as int, header@) matches Err(e) && f == e,
        },
{
    let n: usize = header.len();
    if n == 0 || n > MAX_HEADER {
        return Err(BlobFault::HeaderLength);
    }
    match parse_blob_header(header) {
        Err(e) => Err(e),
        Ok((kind, len)) => {
            let offset: u64 = pos + 4 + n as u64;
            Ok((BlobDesc { offset, len, kind }, offset + len as u64))
        },
    }
}

/// What `Decompressor::zlib_decompress` of the `libdeflater` crate makes of
/// `data` when there is room for `size` bytes, or nothing where it fails.
pub uninterp spec fn inflated(data: Seq<u8>, size: int) -> Option<Seq<u8>>;

/// `libdeflater::Decompressor::zlib_decompress` on a fresh decompressor, into
/// `size` bytes: gives the bytes it wrote, or nothing where it reports an
/// error. Claims that the outcome depends on the two arguments alone and is no
/// longer than the room.
#[verifier::external_body]
fn inflate(data: &[u8], size: usize) -> (r: Option<Vec<u8>>)
    requires
        size <= isize::MAX,
    ensures
        match r {
            None => inflated(data@, size as int) is None,
            Some(v) => inflated(data@, size as int) == Some(v@) && v@.len() <= size,
        },
{
    let mut out = vec![0u8; size];
    match libdeflater::Decompressor::new().zlib_decompress(data, &mut out) {
        Ok(n) => {
            out.truncate(n);
            Some(out)
        },
        Err(_) => None,
    }
}

/// What is in a blob: where its zlib bytes stand and how long they expand to,
/// or where its raw bytes stand.
#[derive(Clone, Copy)]
pub enum Payload {
    Zlib(Token, u64),
    Raw(Token),
}

pub open spec fn payload_of(b: Seq<u8>) -> Result<Payload, BlobFault> {
    match tokens_of(b) {
        None => Err(BlobFault::Broken),
        Some(ts) => match (
            last_field(ts, 3, 2, ts.len() as int),
            last_field(ts, 1, 2, ts.len() as int),
        ) {
            (Some(t), _) => if fits(t, b.len() as int) && number_or(ts, 2, 0) <= isize::MAX {
                Ok(Payload::Zlib(t, number_or(ts, 2, 0)))
            } else {
                Err(BlobFault::Broken)
            },
            (None, Some(t)) => if fits(t, b.len() as int) {
                Ok(Payload::Raw(t))
            } else {
                Err(BlobFault::Broken)
            },
            (None, None) => Err(BlobFault::Unsupported),
        },
    }
}

/// Finds the bytes of a blob. Compressed ones come before raw ones.
pub fn find_payload(b: &[u8]) -> (r: Result<Payload, BlobFault>)
    ensures
        r == payload_of(b@),
        r matches Ok(Payload::Zlib(t, _)) ==> t.at <= b@.len(),
        r matches Ok(Payload::Raw(t)) ==> t.at <= b@.len(),
{
    let ts: Vec<Token> = match tokens(b) {
        None => {
            return Err(BlobFault::Broken);
        },
        Some(ts) => ts,
    };
    let n: usize = b.len();
    match find_last(&ts, 3, 2) {
        Some(t) => {
            proof {
                let i = ts@.index_of(t);
                assert(ts@[i] == t);
            }
            let size: u64 = find_number(&ts, 2, 0);
            if t.value > (n - t.at) as u64 || size > isize::MAX as u64 {
                return Err(BlobFault::Broken);
            }
            Ok(Payload::Zlib(t, size))
        },
        None => {
            match find_last(&ts, 1, 2) {
                Some(t) => {
                    proof {
                        let i = ts@.index_of(t);
                        assert(ts@[i] == t);
                    }
                    if t.value > (n - t.at) as u64 {
                        return Err(BlobFault::Broken);
                    }
                    Ok(Payload::Raw(t))
                },
                None => Err(BlobFault::Unsupported),
            }
        },
    }
}

/// The block that a blob holds.
pub open spec fn unpacked(b: Seq<u8>) -> Result<Seq<u8>, BlobFault> {
    match payload_of(b) {
        Err(e) => Err(e),
        Ok(Payload::Raw(t)) => Ok(body(b, t)),
        Ok(Payload::Zlib(t, size)) => match inflated(body(b, t), size as int) {
            None => Err(BlobFault::Zlib),
            Some(s) => Ok(s),
        },
    }
}

/// Takes the block out of a blob's bytes.
pub fn unpack(b: &[u8]) -> (r: Result<Vec<u8>, BlobFault>)
    ensures
        match r {
            Ok(v) => unpacked(b@) matches Ok(s) && v@ == s,
            Err(e) => unpacked(b@) matches Err(f) && e == f,
        },
{
    match find_payload(b) {
        Err(e) => Err(e),
        Ok(Payload::Raw(t)) => {
            let s: &[u8] = body_of(b, &t);
            let mut out: Vec<u8> = Vec::new();
            while out.len() < s.len()
                invariant
                    out@.len() <= s@.len(),
                    out@ == s@.take(out@.len() as int),
                decreases s@.len() - out@.len(),
            {
                let x: u8 = s[out.len()];
                assert(s@.take(out@.len() as int).push(x) =~= s@.take(out@.len() as int + 1));
                out.push(x);
            }
            assert(s@.take(s@.len() as int) =~= s@);
            Ok(out)
        },
        Ok(Payload::Zlib(t, size)) => {
            match inflate(body_of(b, &t), size as usize) {
                None => Err(BlobFault::Zlib),
                Some(v) => Ok(v),
            }
        },
    }
}

// ---------------------------------------------------------- the first way

/// Finds the first data blob that holds a way, by halving: which one to look
/// at is asked, and whether it holds one is told.
pub struct WaySearch {
    /// The blobs that hold data.
    pub data: Vec<usize>,
    pub blobs: usize,
    pub lo: usize,
    pub hi: usize,
}

/// The data blobs among the first `n`.
pub open spec fn data_of(blobs: Seq<BlobDesc>, n: int) -> Seq<int>
    decreases n,
{
    if n <= 0 {
        Seq::empty()
    } else if blobs[n - 1].kind == BlobKind::Data {
        data_of(blobs, n - 1).push(n - 1)
    } else {
        data_of(blobs, n - 1)
    }
}

impl WaySearch {
    pub open spec fn wf(&self) -> bool {
        self.lo <= self.hi <= self.data@.len()
    }

    pub open spec fn places(&self) -> Seq<int> {
        Seq::new(self.data@.len(), |i: int| self.data@[i] as int)
    }

    pub fn new(blobs: &[BlobDesc]) -> (s: WaySearch)
        ensures
            s.wf(),
            s.places() == data_of(blobs@, blobs@.len() as int),
            s.blobs == blobs@.len(),
            s.lo == 0,
            s.hi == s.data@.len(),
    {
        let mut data: Vec<usize> = Vec::new();
        let mut i: usize = 0;
        assert(Seq::new(data@.len(), |i: int| data@[i] as int) =~= data_of(blobs@, 0));
        while i < blobs.len()
            invariant
                i <= blobs@.len(),
                Seq::new(data@.len(), |i: int| data@[i] as int) == data_of(blobs@, i as int),
            decreases blobs@.len() - i,
        {
            let ghost d0 = data@;
            if blobs[i].kind == BlobKind::Data {
                data.push(i);
                assert(Seq::new(data@.len(), |i: int| data@[i] as int) =~= Seq::new(
                    d0.len(),
                    |i: int| d0[i] as int,
                ).push(i as int));
            }
            i += 1;
        }
        let hi: usize = data.len();
        let s = WaySearch { data, blobs: blobs.len(), lo: 0, hi };
        assert(s.places() =~= data_of(blobs@, blobs@.len() as int));
        s
    }

    pub open spec fn mid(&self) -> int {
        self.lo + (self.hi - self.lo) / 2
    }

    /// Which blob to look at next, if any.
    pub fn ask(&self) -> (r: Option<usize>)
        requires
            self.wf(),
        ensures
            match r {
                Some(b) => self.lo < self.hi && b == self.data@[self.mid()],
                None => self.lo == self.hi,
            },
    {
        if self.lo >= self.hi {
            return None;
        }
        Some(self.data[self.lo + (self.hi - self.lo) / 2])
    }

    /// Whether the blob that was asked for holds a way.
    pub fn tell(&mut self, has_ways: bool)
        requires
            old(self).wf(),
            old(self).lo < old(self).hi,
        ensures
            final(self).wf(),
            final(self).data == old(self).data,
            final(self).blobs == old(self).blobs,
            final(self).lo == (if has_ways {
                old(self).lo as int
            } else {
                old(self).mid() + 1
            }),
            final(self).hi == (if has_ways {
                old(self).mid()
            } else {
                old(self).hi as int
            }),
            final(self).hi - final(self).lo < old(self).hi - old(self).lo,
    {
        let mid: usize = self.lo + (self.hi - self.lo) / 2;
        if has_ways {
            self.hi = mid;
        } else {
            self.lo = mid + 1;
        }
    }

    /// The first blob with a way, or one past the last blob.
    pub fn answer(&self) -> (b: usize)
        requires
            self.wf(),
            self.lo == self.hi,
        ensures
            b == (if self.lo < self.data@.len() {
                self.data@[self.lo as int]
            } else {
                self.blobs
            }),
    {
        if self.lo >= self.data.len() {
            self.blobs
        } else {
            self.data[self.lo]
        }
    }

    /// No data blob before `lo` holds a way, and every one from `hi` on does.
    pub open spec fn bounds(&self, ways: spec_fn(int) -> bool) -> bool {
        &&& forall|i: int| 0 <= i < self.lo ==> !ways(#[trigger] self.data@[i] as int)
        &&& forall|i: int|
            self.hi <= i < self.data@.len() ==> ways(#[trigger] self.data@[i] as int)
    }
}

/// Once one data blob holds a way all later ones do.
pub open spec fn grouped(data: Seq<usize>, ways: spec_fn(int) -> bool) -> bool {
    forall|i: int, j: int|
        0 <= i <= j < data.len() && ways(#[trigger] data[i] as int) ==> ways(
            #[trigger] data[j] as int,
        )
}

/// Where the ways stand together at the end, a true answer keeps the search
/// between blobs without and blobs with ways; when it is over it has found the
/// first one.
pub proof fn lemma_way_search(a: WaySearch, b: WaySearch, ways: spec_fn(int) -> bool)
    requires
        a.wf(),
        a.lo < a.hi,
        grouped(a.data@, ways),
        a.bounds(ways),
        b.data == a.data,
        b.lo == (if ways(a.data@[a.mid()] as int) {
            a.lo as int
        } else {
            a.mid() + 1
        }),
        b.hi == (if ways(a.data@[a.mid()] as int) {
            a.mid()
        } else {
            a.hi as int
        }),
    ensures
        b.bounds(ways),
        b.lo == b.hi ==> (forall|i: int| 0 <= i < b.lo ==> !ways(#[trigger] b.data@[i] as int)) && (
        b.lo < b.data@.len() ==> ways(b.data@[b.lo as int] as int)),
{
    assert forall|i: int| 0 <= i < b.lo implies !ways(#[trigger] b.data@[i] as int) by {
        if ways(b.data@[i] as int) && i >= a.lo {
            assert(ways(a.data@[a.mid()] as int));
        }
    }
    assert forall|i: int| b.hi <= i < b.data@.len() implies ways(#[trigger] b.data@[i] as int) by {
        if ways(a.data@[a.mid()] as int) {
            assert(ways(a.data@[i] as int));
        }
    }
}

} // verus!
