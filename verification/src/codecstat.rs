//! How well each array of a dataset would compress, from a sample of its blocks.
//!
//! Every array is tried plain, and as what is left over a prediction that its
//! order suggests: a neighbour has a number close by, a road goes straight on.

use vstd::prelude::*;
use vstd::string::StringExecFns;
use crate::bytes::{le, put_u32};
use crate::pbf::wire::unzigzag_of;
use crate::varint::{leb_bytes, put_i};

verus! {

/// Records in a block: what a query would unpack at a time.
pub const BLOCK: usize = 4096;

/// How hard the sample is compressed.
pub const LEVEL: u32 = 6;

/// What `flate2` makes of bytes at a level.
pub uninterp spec fn deflated(raw: Seq<u8>, level: u32) -> Seq<u8>;

/// `ZlibEncoder` of the `flate2` crate, over a vector: the bytes compressed at a
/// level. Claims that the result depends on the bytes and the level alone.
#[verifier::external_body]
fn deflate(raw: &[u8], level: u32) -> (r: Vec<u8>)
    requires
        level <= 9,
    ensures
        r@ == deflated(raw@, level),
{
    let mut e = flate2::write::ZlibEncoder::new(Vec::new(), flate2::Compression::new(level));
    std::io::Write::write_all(&mut e, raw).expect("a vector takes every byte");
    e.finish().expect("a vector takes every byte")
}

/// What predicts the next record.
#[derive(Clone, Copy, PartialEq, Eq, Structural)]
pub enum Guess {
    /// Nothing: the value itself is kept.
    Nothing,
    /// The record before.
    Previous,
    /// The record before, without its highest bit, which is not kept either.
    PreviousSegment,
}

pub open spec fn word_value(g: Guess, v: u32) -> int {
    if g == Guess::PreviousSegment {
        (v & 0x7fff_ffff) as int
    } else {
        v as int
    }
}

/// What is left of record `i` over its prediction.
pub open spec fn word_rest(g: Guess, b: Seq<u32>, i: int) -> int {
    if g == Guess::Nothing || i == 0 {
        word_value(g, b[i])
    } else {
        word_value(g, b[i]) - word_value(g, b[i - 1])
    }
}

pub open spec fn word_rests(g: Guess, b: Seq<u32>) -> Seq<int> {
    Seq::new(b.len(), |i: int| word_rest(g, b, i))
}

/// Where point `i` is expected: at the one before or, going straight on, as far
/// past it as it lies past the one before that.
pub open spec fn expected(b: Seq<(i32, i32)>, straight: bool, i: int) -> (int, int) {
    if i <= 0 {
        (0, 0)
    } else if i == 1 || !straight {
        (b[i - 1].0 as int, b[i - 1].1 as int)
    } else {
        (2 * b[i - 1].0 - b[i - 2].0, 2 * b[i - 1].1 - b[i - 2].1)
    }
}

pub open spec fn point_rests(b: Seq<(i32, i32)>, straight: bool, n: int) -> Seq<int>
    decreases n,
{
    if n <= 0 {
        Seq::empty()
    } else {
        let e = expected(b, straight, n - 1);
        point_rests(b, straight, n - 1).push(b[n - 1].0 - e.0).push(b[n - 1].1 - e.1)
    }
}

/// Numbers written one after the other, small ones in few bytes.
pub open spec fn written(rests: Seq<int>) -> Seq<u8>
    decreases rests.len(),
{
    if rests.len() == 0 {
        Seq::empty()
    } else {
        written(rests.drop_last()) + leb_bytes(unzigzag_of(rests.last() as i64) as nat)
    }
}

/// The bytes of whole words.
pub open spec fn word_bytes(b: Seq<u32>) -> Seq<u8>
    decreases b.len(),
{
    if b.len() == 0 {
        Seq::empty()
    } else {
        word_bytes(b.drop_last()) + le(b.last() as int, 4)
    }
}

/// The bytes of points, each half in two's complement.
pub open spec fn point_words(b: Seq<(i32, i32)>) -> Seq<u32>
    decreases b.len(),
{
    if b.len() == 0 {
        Seq::empty()
    } else {
        point_words(b.drop_last()).push(b.last().0 as u32).push(b.last().1 as u32)
    }
}

fn write_rest(buf: &mut Vec<u8>, r: i64, Ghost(rests): Ghost<Seq<int>>)
    requires
        old(buf)@ == written(rests),
    ensures
        final(buf)@ == written(rests.push(r as int)),
{
    put_i(buf, r);
    assert(rests.push(r as int).drop_last() =~= rests);
}

fn pack_words(b: &[u32]) -> (r: Vec<u8>)
    ensures
        r@ == word_bytes(b@),
{
    let mut r: Vec<u8> = Vec::new();
    let mut i: usize = 0;
    while i < b.len()
        invariant
            i <= b@.len(),
            r@ == word_bytes(b@.take(i as int)),
        decreases b@.len() - i,
    {
        put_u32(&mut r, b[i]);
        assert(b@.take(i + 1).drop_last() =~= b@.take(i as int));
        i += 1;
    }
    assert(b@.take(i as int) =~= b@);
    r
}

fn words_of(b: &[(i32, i32)]) -> (r: Vec<u32>)
    ensures
        r@ == point_words(b@),
{
    let mut r: Vec<u32> = Vec::new();
    let mut i: usize = 0;
    while i < b.len()
        invariant
            i <= b@.len(),
            r@ == point_words(b@.take(i as int)),
        decreases b@.len() - i,
    {
        let p: (i32, i32) = b[i];
        r.push(
            #[verifier::truncate]
            (p.0 as u32),
        );
        r.push(
            #[verifier::truncate]
            (p.1 as u32),
        );
        assert(b@.take(i + 1).drop_last() =~= b@.take(i as int));
        i += 1;
    }
    assert(b@.take(i as int) =~= b@);
    r
}

fn guess_words(g: Guess, b: &[u32]) -> (r: Vec<u8>)
    ensures
        r@ == written(word_rests(g, b@)),
{
    let mut r: Vec<u8> = Vec::new();
    let mut prev: i64 = 0;
    let mut i: usize = 0;
    assert(word_rests(g, b@).take(0) =~= Seq::<int>::empty());
    while i < b.len()
        invariant
            i <= b@.len(),
            g == Guess::Nothing || i == 0 ==> prev == 0,
            g != Guess::Nothing && i > 0 ==> prev == word_value(g, b@[i - 1]),
            0 <= prev <= u32::MAX,
            r@ == written(word_rests(g, b@).take(i as int)),
        decreases b@.len() - i,
    {
        let w: u32 = b[i];
        let v: i64 = if g == Guess::PreviousSegment {
            (w & 0x7fff_ffff) as i64
        } else {
            w as i64
        };
        let ghost rests = word_rests(g, b@);
        write_rest(&mut r, v - prev, Ghost(rests.take(i as int)));
        assert(rests.take(i as int).push((v - prev) as int) =~= rests.take(i + 1));
        if g != Guess::Nothing {
            prev = v;
        }
        i += 1;
    }
    assert(word_rests(g, b@).take(i as int) =~= word_rests(g, b@));
    r
}

fn guess_points(b: &[(i32, i32)], straight: bool) -> (r: Vec<u8>)
    ensures
        r@ == written(point_rests(b@, straight, b@.len() as int)),
{
    let mut r: Vec<u8> = Vec::new();
    let mut i: usize = 0;
    while i < b.len()
        invariant
            i <= b@.len(),
            r@ == written(point_rests(b@, straight, i as int)),
        decreases b@.len() - i,
    {
        let (y, x): (i64, i64) = if i == 0 {
            (0, 0)
        } else if i == 1 || !straight {
            (b[i - 1].0 as i64, b[i - 1].1 as i64)
        } else {
            (
                2 * (b[i - 1].0 as i64) - b[i - 2].0 as i64,
                2 * (b[i - 1].1 as i64) - b[i - 2].1 as i64,
            )
        };
        let ghost rests = point_rests(b@, straight, i as int);
        let dy: i64 = b[i].0 as i64 - y;
        let dx: i64 = b[i].1 as i64 - x;
        write_rest(&mut r, dy, Ghost(rests));
        write_rest(&mut r, dx, Ghost(rests.push(dy as int)));
        i += 1;
    }
    r
}

/// Where the sampled blocks of an array begin: at most `n`, spread evenly.
pub open spec fn sample_spec(len: int, n: int) -> Seq<int> {
    if len <= BLOCK {
        seq![0int]
    } else {
        let blocks = len / (BLOCK as int);
        let take = if n < blocks {
            n
        } else {
            blocks
        };
        Seq::new(take as nat, |i: int| (i * blocks) / take * (BLOCK as int))
    }
}

/// Samples blocks spread evenly through `len` records.
pub fn sample_starts(len: usize, n: usize) -> (r: Vec<usize>)
    ensures
        r@.len() == sample_spec(len as int, n as int).len(),
        forall|i: int|
            0 <= i < r@.len() ==> #[trigger] r@[i] == sample_spec(len as int, n as int)[i] && (
            r@[i] < len || r@[i] == 0),
{
    let mut r: Vec<usize> = Vec::new();
    if len <= BLOCK {
        r.push(0);
        return r;
    }
    let blocks: usize = len / BLOCK;
    let take: usize = if n < blocks {
        n
    } else {
        blocks
    };
    while r.len() < take
        invariant
            len > BLOCK,
            blocks == len as int / (BLOCK as int),
            take == (if n < blocks {
                n
            } else {
                blocks
            }),
            r@.len() <= take,
            forall|i: int|
                0 <= i < r@.len() ==> #[trigger] r@[i] == (i * blocks) / (take as int) * (
                BLOCK as int) && r@[i] < len,
        decreases take - r@.len(),
    {
        let i: usize = r.len();
        proof {
            lemma_spread(i as int, blocks as int, take as int);
            assert(i * blocks <= u128::MAX) by (nonlinear_arith)
                requires
                    0 <= i <= usize::MAX,
                    0 <= blocks <= usize::MAX,
            ;
        }
        let at: u128 = (i as u128 * blocks as u128) / take as u128;
        assert(at < blocks);
        assert(at * (BLOCK as int) + (BLOCK as int) <= blocks * (BLOCK as int)) by (nonlinear_arith)
            requires
                0 <= at < blocks,
                BLOCK == 4096,
        ;
        r.push(at as usize * BLOCK);
    }
    r
}

proof fn lemma_spread(i: int, blocks: int, take: int)
    requires
        0 <= i < take <= blocks,
    ensures
        0 <= (i * blocks) / take < blocks,
{
    assert(0 <= i * blocks) by (nonlinear_arith)
        requires
            0 <= i,
            0 <= blocks,
    ;
    assert(i * blocks < take * blocks) by (nonlinear_arith)
        requires
            0 <= i < take,
            0 < blocks,
    ;
    assert(take * blocks == blocks * take) by (nonlinear_arith);
    vstd::arithmetic::div_mod::lemma_div_pos_is_pos(i * blocks, take);
    vstd::arithmetic::div_mod::lemma_multiply_divide_lt(i * blocks, take, blocks);
}

/// Bytes of a sample: as they are, as what is left over the prediction, and
/// both of these compressed.
#[derive(Clone, Copy)]
pub struct Sample {
    pub raw: u128,
    pub varint: u128,
    pub deflate: u128,
    pub predicted: u128,
}

/// What the sample of an array came to.
pub struct Measured {
    pub name: String,
    /// The whole array.
    pub raw_bytes: u64,
    pub sample: Sample,
    pub blocks: u64,
}

/// Sums over the first `n` sampled blocks.
pub struct Sums {
    pub raw: int,
    pub varint: int,
    pub deflate: int,
    pub predicted: int,
}

pub open spec fn with_block(s: Sums, raw: Seq<u8>, rests: Seq<u8>) -> Sums {
    Sums {
        raw: s.raw + raw.len(),
        varint: s.varint + rests.len(),
        deflate: s.deflate + deflated(raw, LEVEL).len(),
        predicted: s.predicted + deflated(rests, LEVEL).len(),
    }
}

pub open spec fn block_at<T>(data: Seq<T>, s: int) -> Seq<T> {
    data.subrange(
        s,
        if s + BLOCK < data.len() {
            s + BLOCK
        } else {
            data.len() as int
        },
    )
}

pub open spec fn word_sums(data: Seq<u32>, g: Guess, starts: Seq<int>, n: int) -> Sums
    decreases n,
{
    if n <= 0 {
        Sums { raw: 0, varint: 0, deflate: 0, predicted: 0 }
    } else {
        let b = block_at(data, starts[n - 1]);
        with_block(word_sums(data, g, starts, n - 1), word_bytes(b), written(word_rests(g, b)))
    }
}

pub open spec fn point_sums(
    data: Seq<(i32, i32)>,
    straight: bool,
    starts: Seq<int>,
    n: int,
) -> Sums
    decreases n,
{
    if n <= 0 {
        Sums { raw: 0, varint: 0, deflate: 0, predicted: 0 }
    } else {
        let b = block_at(data, starts[n - 1]);
        with_block(
            point_sums(data, straight, starts, n - 1),
            word_bytes(point_words(b)),
            written(point_rests(b, straight, b.len() as int)),
        )
    }
}

pub open spec fn sums_are(s: Sample, m: Sums) -> bool {
    s.raw == m.raw && s.varint == m.varint && s.deflate == m.deflate && s.predicted == m.predicted
}

spec fn room_left(s: Sample, n: int) -> bool {
    let most = (n + 1) * 0x1_0000_0000_0000_0000int;
    s.raw < most && s.varint < most && s.deflate < most && s.predicted < most
}

fn add_block(s: &mut Sample, raw: &Vec<u8>, rests: &Vec<u8>, Ghost(m): Ghost<Sums>, Ghost(
    n,
): Ghost<int>)
    requires
        sums_are(*old(s), m),
        room_left(*old(s), n),
        0 <= n < u64::MAX,
    ensures
        sums_are(*final(s), with_block(m, raw@, rests@)),
        room_left(*final(s), n + 1),
{
    let a: Vec<u8> = deflate(raw.as_slice(), LEVEL);
    let b: Vec<u8> = deflate(rests.as_slice(), LEVEL);
    let (rl, vl, al, bl): (usize, usize, usize, usize) = (
        raw.len(),
        rests.len(),
        a.len(),
        b.len(),
    );
    s.raw = s.raw + rl as u128;
    s.varint = s.varint + vl as u128;
    s.deflate = s.deflate + al as u128;
    s.predicted = s.predicted + bl as u128;
}

/// The array's bytes, the sample's, and how many blocks there are.
pub open spec fn measured(m: Measured, name: Seq<char>, len: int, width: int, sums: Sums) -> bool {
    &&& m.name@ == name
    &&& m.raw_bytes == len * width
    &&& sums_are(m.sample, sums)
    &&& m.blocks == len / (BLOCK as int)
}

/// Measures an array of words; nothing where it is empty.
pub fn measure_words(name: &str, data: &[u32], samples: usize, g: Guess) -> (r: Option<Measured>)
    requires
        data@.len() * 8 <= u64::MAX,
    ensures
        match r {
            None => data@.len() == 0,
            Some(m) => {
                let starts = sample_spec(data@.len() as int, samples as int);
                data@.len() > 0 && measured(
                    m,
                    name@,
                    data@.len() as int,
                    4,
                    word_sums(data@, g, starts, starts.len() as int),
                )
            },
        },
{
    let n: usize = data.len();
    if n == 0 {
        return None;
    }
    let starts: Vec<usize> = sample_starts(n, samples);
    let ghost at = sample_spec(n as int, samples as int);
    let mut s = Sample { raw: 0, varint: 0, deflate: 0, predicted: 0 };
    let mut i: usize = 0;
    while i < starts.len()
        invariant
            n == data@.len(),
            n > 0,
            at == sample_spec(n as int, samples as int),
            starts@.len() == at.len(),
            forall|j: int|
                0 <= j < starts@.len() ==> #[trigger] starts@[j] == at[j] && (starts@[j] < n
                    || starts@[j] == 0),
            i <= starts@.len(),
            sums_are(s, word_sums(data@, g, at, i as int)),
            room_left(s, i as int),
        decreases starts@.len() - i,
    {
        let a: usize = starts[i];
        assert(starts@[i as int] == at[i as int]);
        let b: usize = if n - a > BLOCK {
            a + BLOCK
        } else {
            n
        };
        let block: &[u32] = vstd::slice::slice_subrange(data, a, b);
        let raw: Vec<u8> = pack_words(block);
        let rests: Vec<u8> = guess_words(g, block);
        add_block(&mut s, &raw, &rests, Ghost(word_sums(data@, g, at, i as int)), Ghost(i as int));
        i += 1;
    }
    Some(
        Measured {
            name: String::from_str(name),
            raw_bytes: n as u64 * 4,
            sample: s,
            blocks: (n / BLOCK) as u64,
        },
    )
}

/// Measures an array of points; nothing where it is empty.
pub fn measure_points(name: &str, data: &[(i32, i32)], samples: usize, straight: bool) -> (r: Option<
    Measured,
>)
    requires
        data@.len() * 8 <= u64::MAX,
    ensures
        match r {
            None => data@.len() == 0,
            Some(m) => {
                let starts = sample_spec(data@.len() as int, samples as int);
                data@.len() > 0 && measured(
                    m,
                    name@,
                    data@.len() as int,
                    8,
                    point_sums(data@, straight, starts, starts.len() as int),
                )
            },
        },
{
    let n: usize = data.len();
    if n == 0 {
        return None;
    }
    let starts: Vec<usize> = sample_starts(n, samples);
    let ghost at = sample_spec(n as int, samples as int);
    let mut s = Sample { raw: 0, varint: 0, deflate: 0, predicted: 0 };
    let mut i: usize = 0;
    while i < starts.len()
        invariant
            n == data@.len(),
            n > 0,
            at == sample_spec(n as int, samples as int),
            starts@.len() == at.len(),
            forall|j: int|
                0 <= j < starts@.len() ==> #[trigger] starts@[j] == at[j] && (starts@[j] < n
                    || starts@[j] == 0),
            i <= starts@.len(),
            sums_are(s, point_sums(data@, straight, at, i as int)),
            room_left(s, i as int),
        decreases starts@.len() - i,
    {
        let a: usize = starts[i];
        assert(starts@[i as int] == at[i as int]);
        let b: usize = if n - a > BLOCK {
            a + BLOCK
        } else {
            n
        };
        let block: &[(i32, i32)] = vstd::slice::slice_subrange(data, a, b);
        let words: Vec<u32> = words_of(block);
        let raw: Vec<u8> = pack_words(words.as_slice());
        let rests: Vec<u8> = guess_points(block, straight);
        add_block(
            &mut s,
            &raw,
            &rests,
            Ghost(point_sums(data@, straight, at, i as int)),
            Ghost(i as int),
        );
        i += 1;
    }
    Some(
        Measured {
            name: String::from_str(name),
            raw_bytes: n as u64 * 8,
            sample: s,
            blocks: (n / BLOCK) as u64,
        },
    )
}

/// The arrays that are measured; one that is not there is empty.
pub struct Arrays<'a> {
    pub to: &'a [u32],
    pub rto: &'a [u32],
    pub seg: &'a [u32],
    pub geom_pts: &'a [(i32, i32)],
    pub vcoord: &'a [(i32, i32)],
    pub addr_coord: &'a [(i32, i32)],
    pub snap_seg: &'a [u32],
    pub seg_len: &'a [u32],
    pub seg_attr: &'a [u32],
    pub addr_street: &'a [u32],
}

/// What is expected of one array.
pub struct Wanted {
    pub name: Seq<char>,
    pub len: int,
    pub width: int,
    pub sums: Sums,
}

pub open spec fn want_words(name: Seq<char>, data: Seq<u32>, samples: int, g: Guess) -> Seq<Wanted> {
    let starts = sample_spec(data.len() as int, samples);
    if data.len() == 0 {
        Seq::empty()
    } else {
        seq![
            Wanted {
                name,
                len: data.len() as int,
                width: 4,
                sums: word_sums(data, g, starts, starts.len() as int),
            },
        ]
    }
}

pub open spec fn want_points(
    name: Seq<char>,
    data: Seq<(i32, i32)>,
    samples: int,
    straight: bool,
) -> Seq<Wanted> {
    let starts = sample_spec(data.len() as int, samples);
    if data.len() == 0 {
        Seq::empty()
    } else {
        seq![
            Wanted {
                name,
                len: data.len() as int,
                width: 8,
                sums: point_sums(data, straight, starts, starts.len() as int),
            },
        ]
    }
}

/// Each array in its turn, with the prediction that suits its order.
pub open spec fn wanted(a: Arrays, n: int) -> Seq<Wanted> {
    Seq::<Wanted>::empty() + want_words("csr.to"@, a.to@, n, Guess::Previous) + want_words(
        "csr.rto"@,
        a.rto@,
        n,
        Guess::Previous,
    ) + want_words("csr.seg"@, a.seg@, n, Guess::PreviousSegment) + want_points(
        "geom.pts"@,
        a.geom_pts@,
        n,
        true,
    ) + want_points("vcoord.bin"@, a.vcoord@, n, false) + want_points(
        "addr.coord"@,
        a.addr_coord@,
        n,
        false,
    ) + want_words("snap.seg"@, a.snap_seg@, n, Guess::Previous) + want_words(
        "seg.len"@,
        a.seg_len@,
        n,
        Guess::Nothing,
    ) + want_words("seg.attr"@, a.seg_attr@, n, Guess::Nothing) + want_words(
        "addr.street"@,
        a.addr_street@,
        n,
        Guess::Previous,
    )
}

pub open spec fn delivered(out: Seq<Measured>, want: Seq<Wanted>) -> bool {
    &&& out.len() == want.len()
    &&& forall|i: int|
        0 <= i < out.len() ==> measured(
            #[trigger] out[i],
            want[i].name,
            want[i].len,
            want[i].width,
            want[i].sums,
        )
}

fn add_words(
    out: &mut Vec<Measured>,
    name: &str,
    data: &[u32],
    samples: usize,
    g: Guess,
    Ghost(want): Ghost<Seq<Wanted>>,
)
    requires
        data@.len() * 8 <= u64::MAX,
        delivered(old(out)@, want),
    ensures
        delivered(final(out)@, want + want_words(name@, data@, samples as int, g)),
{
    match measure_words(name, data, samples, g) {
        None => {
            assert(want + want_words(name@, data@, samples as int, g) =~= want);
        },
        Some(m) => {
            out.push(m);
        },
    }
}

fn add_points(
    out: &mut Vec<Measured>,
    name: &str,
    data: &[(i32, i32)],
    samples: usize,
    straight: bool,
    Ghost(want): Ghost<Seq<Wanted>>,
)
    requires
        data@.len() * 8 <= u64::MAX,
        delivered(old(out)@, want),
    ensures
        delivered(final(out)@, want + want_points(name@, data@, samples as int, straight)),
{
    match measure_points(name, data, samples, straight) {
        None => {
            assert(want + want_points(name@, data@, samples as int, straight) =~= want);
        },
        Some(m) => {
            out.push(m);
        },
    }
}

/// Each array can be counted in bytes.
pub open spec fn countable(a: Arrays) -> bool {
    &&& a.to@.len() * 8 <= u64::MAX
    &&& a.rto@.len() * 8 <= u64::MAX
    &&& a.seg@.len() * 8 <= u64::MAX
    &&& a.geom_pts@.len() * 8 <= u64::MAX
    &&& a.vcoord@.len() * 8 <= u64::MAX
    &&& a.addr_coord@.len() * 8 <= u64::MAX
    &&& a.snap_seg@.len() * 8 <= u64::MAX
    &&& a.seg_len@.len() * 8 <= u64::MAX
    &&& a.seg_attr@.len() * 8 <= u64::MAX
    &&& a.addr_street@.len() * 8 <= u64::MAX
}

/// Characterises a dataset.
pub fn analyse(a: &Arrays, samples: usize) -> (out: Vec<Measured>)
    requires
        countable(*a),
    ensures
        delivered(out@, wanted(*a, samples as int)),
{
    let mut out: Vec<Measured> = Vec::new();
    let ghost n = samples as int;
    let ghost mut w: Seq<Wanted> = Seq::empty();
    add_words(&mut out, "csr.to", a.to, samples, Guess::Previous, Ghost(w));
    proof {
        w = w + want_words("csr.to"@, a.to@, n, Guess::Previous);
    }
    add_words(&mut out, "csr.rto", a.rto, samples, Guess::Previous, Ghost(w));
    proof {
        w = w + want_words("csr.rto"@, a.rto@, n, Guess::Previous);
    }
    add_words(&mut out, "csr.seg", a.seg, samples, Guess::PreviousSegment, Ghost(w));
    proof {
        w = w + want_words("csr.seg"@, a.seg@, n, Guess::PreviousSegment);
    }
    add_points(&mut out, "geom.pts", a.geom_pts, samples, true, Ghost(w));
    proof {
        w = w + want_points("geom.pts"@, a.geom_pts@, n, true);
    }
    add_points(&mut out, "vcoord.bin", a.vcoord, samples, false, Ghost(w));
    proof {
        w = w + want_points("vcoord.bin"@, a.vcoord@, n, false);
    }
    add_points(&mut out, "addr.coord", a.addr_coord, samples, false, Ghost(w));
    proof {
        w = w + want_points("addr.coord"@, a.addr_coord@, n, false);
    }
    add_words(&mut out, "snap.seg", a.snap_seg, samples, Guess::Previous, Ghost(w));
    proof {
        w = w + want_words("snap.seg"@, a.snap_seg@, n, Guess::Previous);
    }
    add_words(&mut out, "seg.len", a.seg_len, samples, Guess::Nothing, Ghost(w));
    proof {
        w = w + want_words("seg.len"@, a.seg_len@, n, Guess::Nothing);
    }
    add_words(&mut out, "seg.attr", a.seg_attr, samples, Guess::Nothing, Ghost(w));
    proof {
        w = w + want_words("seg.attr"@, a.seg_attr@, n, Guess::Nothing);
    }
    add_words(&mut out, "addr.street", a.addr_street, samples, Guess::Previous, Ghost(w));
    out
}

} // verus!
