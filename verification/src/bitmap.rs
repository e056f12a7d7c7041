//! A planet-sized bitmap over raw node ids, with rank support.
//!
//! One bit per possible id, then a rank index: the number of set bits below an
//! id is the node's position in a dense array that holds only the nodes kept.

use vstd::prelude::*;
use crate::bits::{bit64, lemma_mask64, lemma_set64};
use crate::bytes::{
    get_u64, le, lemma_le_len, lemma_le_number, lemma_pow256, number, put_u64,
};
use crate::text::bytes_eq;

verus! {

/// Words per rank block: 512 bits, so a lookup scans at most eight words.
pub const BLOCK_WORDS: usize = 8;

/// `u64::count_ones`: the number of ones in the binary representation.
#[verifier::external_body]
fn count_ones(w: u64) -> (n: u32)
    ensures
        n == ones64(w, 64),
{
    w.count_ones()
}

/// How many of the low `n` bits of a word are set.
pub open spec fn ones64(w: u64, n: int) -> int
    decreases n,
{
    if n <= 0 {
        0
    } else {
        ones64(w, n - 1) + if bit64(w, (n - 1) as u64) {
            1int
        } else {
            0
        }
    }
}

/// Bit `i` of a string of words.
pub open spec fn bit_at(words: Seq<u64>, i: int) -> bool {
    bit64(words[i / 64], (i % 64) as u64)
}

/// How many of the first `n` bits are set.
pub open spec fn ones(words: Seq<u64>, n: int) -> int
    decreases n,
{
    if n <= 0 {
        0
    } else {
        ones(words, n - 1) + if bit_at(words, n - 1) {
            1int
        } else {
            0
        }
    }
}

proof fn lemma_ones64(w: u64, n: int)
    requires
        0 <= n,
    ensures
        0 <= ones64(w, n) <= n,
    decreases n,
{
    if n > 0 {
        lemma_ones64(w, n - 1);
    }
}

/// The bits of one word are counted by themselves.
proof fn lemma_ones_word(words: Seq<u64>, k: int, n: int)
    requires
        0 <= k < words.len(),
        0 <= n <= 64,
    ensures
        ones(words, 64 * k + n) == ones(words, 64 * k) + ones64(words[k], n),
    decreases n,
{
    if n > 0 {
        lemma_ones_word(words, k, n - 1);
        let i = 64 * k + n - 1;
        assert(i / 64 == k && i % 64 == n - 1);
    }
}

pub proof fn lemma_ones(words: Seq<u64>, a: int, b: int)
    requires
        a <= b,
    ensures
        ones(words, a) <= ones(words, b),
        b >= a && a >= 0 ==> ones(words, b) - ones(words, a) <= b - a,
        ones(words, a) >= 0,
    decreases b - a, b,
{
    if a < b {
        lemma_ones(words, a, b - 1);
    } else if a > 0 {
        lemma_ones(words, a - 1, a - 1);
    }
}

proof fn lemma_masked(w: u64, rem: u64, n: int)
    requires
        0 < rem < 64,
        0 <= n <= 64,
    ensures
        ones64(w & (((1u64 << rem) - 1) as u64), n) == ones64(
            w,
            if n <= rem {
                n
            } else {
                rem as int
            },
        ),
    decreases n,
{
    if n > 0 {
        lemma_masked(w, rem, n - 1);
        lemma_mask64(w, rem, (n - 1) as u64);
    }
}

pub struct BitMap {
    pub words: Vec<u64>,
    pub n_bits: u64,
    /// Set bits before each block, once the rank index is built.
    pub rank: Vec<u64>,
}

/// What keeps a byte string from being a bitmap.
#[derive(Clone, Copy, PartialEq, Eq, Debug, Structural)]
pub enum LoadFault {
    BadMagic,
    /// The input ends before the last word.
    Short,
}

pub open spec fn bitmap_magic() -> Seq<u8> {
    seq![77u8, 80, 66, 77, 48, 48, 48, 49]
}

/// The words, eight bytes each.
pub open spec fn word_bytes(words: Seq<u64>, n: int) -> Seq<u8>
    decreases n,
{
    if n <= 0 {
        Seq::empty()
    } else {
        word_bytes(words, n - 1) + le(words[n - 1] as int, 8)
    }
}

/// How many words hold `n` bits.
pub open spec fn words_for(n: int) -> int {
    (n + 63) / 64
}

impl BitMap {
    pub open spec fn wf(&self) -> bool {
        self.words@.len() == words_for(self.n_bits as int)
    }

    pub open spec fn has(&self, i: int) -> bool {
        bit_at(self.words@, i)
    }

    /// How many bits there is room for: those past the last id are unused.
    pub open spec fn room(&self) -> int {
        64 * self.words@.len() as int
    }

    /// The rank index is up to date.
    pub open spec fn ranked(&self) -> bool {
        &&& self.rank@.len() == (self.words@.len() + 7) / 8 + 1
        &&& forall|b: int|
            0 <= b < self.rank@.len() ==> #[trigger] self.rank@[b] == ones(
                self.words@,
                if 512 * b <= self.room() {
                    512 * b
                } else {
                    self.room()
                },
            )
    }

    /// The bytes of a bitmap.
    pub open spec fn image(&self) -> Seq<u8> {
        bitmap_magic() + le(self.n_bits as int, 8) + word_bytes(
            self.words@,
            self.words@.len() as int,
        )
    }

    pub fn new(n_bits: u64) -> (b: BitMap)
        requires
            words_for(n_bits as int) <= usize::MAX,
        ensures
            b.wf(),
            b.n_bits == n_bits,
            b.rank@.len() == 0,
            forall|i: int| 0 <= i < b.room() ==> !#[trigger] b.has(i),
    {
        let extra: u64 = if n_bits % 64 == 0 {
            0
        } else {
            1
        };
        let nw: usize = (n_bits / 64 + extra) as usize;
        let words: Vec<u64> = vec![0u64; nw];
        let b = BitMap { words, n_bits, rank: Vec::new() };
        proof {
            assert forall|i: int| 0 <= i < b.room() implies !#[trigger] b.has(i) by {
                lemma_set64(0, 0, (i % 64) as u64);
            }
        }
        b
    }

    pub fn bits(&self) -> (n: u64)
        ensures
            n == self.n_bits,
    {
        self.n_bits
    }

    /// Set the bit. Says whether it was already set, which is what junction
    /// detection reads.
    pub fn set(&mut self, i: u64) -> (was: bool)
        requires
            old(self).wf(),
            i < old(self).n_bits,
        ensures
            final(self).wf(),
            was == old(self).has(i as int),
            final(self).n_bits == old(self).n_bits,
            final(self).rank@ == old(self).rank@,
            forall|j: int|
                0 <= j < old(self).room() ==> #[trigger] final(self).has(j) == (old(self).has(j) || j
                    == i),
    {
        let w: usize = (i / 64) as usize;
        let m: u64 = 1u64 << (i % 64);
        let x: u64 = self.words[w];
        let ghost w0 = self.words@;
        self.words.set(w, x | m);
        proof {
            assert forall|j: int| 0 <= j < 64 * w0.len() implies #[trigger] bit_at(self.words@, j)
                == (bit_at(w0, j) || j == i) by {
                lemma_set64(x, i % 64, (j % 64) as u64);
            }
        }
        x & m != 0
    }

    /// Set the bit.
    pub fn set_quiet(&mut self, i: u64)
        requires
            old(self).wf(),
            i < old(self).n_bits,
        ensures
            final(self).wf(),
            final(self).n_bits == old(self).n_bits,
            final(self).rank@ == old(self).rank@,
            forall|j: int|
                0 <= j < old(self).room() ==> #[trigger] final(self).has(j) == (old(self).has(j) || j
                    == i),
    {
        self.set(i);
    }

    pub fn get(&self, i: u64) -> (r: bool)
        requires
            self.wf(),
        ensures
            r == (i < self.n_bits && self.has(i as int)),
    {
        if i >= self.n_bits {
            return false;
        }
        let n: usize = self.words.len();
        assert(i / 64 < n);
        self.words[(i / 64) as usize] & (1u64 << (i % 64)) != 0
    }

    pub fn count_ones(&self) -> (n: u64)
        requires
            self.wf(),
            self.room() <= u64::MAX,
        ensures
            n == ones(self.words@, self.room()),
    {
        let mut n: u64 = 0;
        let mut i: usize = 0;
        while i < self.words.len()
            invariant
                self.room() <= u64::MAX,
                i <= self.words@.len(),
                n == ones(self.words@, 64 * i),
            decreases self.words@.len() - i,
        {
            proof {
                lemma_ones_word(self.words@, i as int, 64);
                lemma_ones(self.words@, 0, 64 * i + 64);
                lemma_ones64(self.words@[i as int], 64);
            }
            n = n + count_ones(self.words[i]) as u64;
            i += 1;
        }
        n
    }

    /// Build the rank index. Needed once after the bits are set.
    pub fn build_rank(&mut self)
        requires
            old(self).wf(),
            old(self).room() <= u64::MAX,
            old(self).words@.len() <= usize::MAX - 8,
        ensures
            final(self).wf(),
            final(self).words@ == old(self).words@,
            final(self).n_bits == old(self).n_bits,
            final(self).ranked(),
    {
        let n: usize = self.words.len();
        let nblocks: usize = (n + 7) / 8;
        let mut r: Vec<u64> = Vec::new();
        let mut acc: u64 = 0;
        let mut b: usize = 0;
        let ghost words = self.words@;
        while b < nblocks
            invariant
                words == self.words@,
                self.words == old(self).words,
                self.n_bits == old(self).n_bits,
                n == words.len(),
                n <= usize::MAX - 8,
                64 * n <= u64::MAX,
                nblocks == (n + 7) / 8,
                b <= nblocks,
                r@.len() == b,
                acc == ones(words, if 512 * b <= 64 * n { 512 * b } else { 64 * n }),
                forall|x: int|
                    0 <= x < b ==> #[trigger] r@[x] == ones(
                        words,
                        if 512 * x <= 64 * n {
                            512 * x
                        } else {
                            64 * n
                        },
                    ),
            decreases nblocks - b,
        {
            r.push(acc);
            let s: usize = b * BLOCK_WORDS;
            let e: usize = if s + BLOCK_WORDS < n {
                s + BLOCK_WORDS
            } else {
                n
            };
            let mut i: usize = s;
            while i < e
                invariant
                    words == self.words@,
                    n == words.len(),
                    64 * n <= u64::MAX,
                    s <= i <= e <= n,
                    acc == ones(words, 64 * i),
                decreases e - i,
            {
                proof {
                    lemma_ones_word(words, i as int, 64);
                    lemma_ones(words, 0, 64 * i + 64);
                    lemma_ones64(words[i as int], 64);
                }
                acc = acc + count_ones(self.words[i]) as u64;
                i += 1;
            }
            b += 1;
        }
        r.push(acc);
        self.rank = r;
        assert forall|x: int| 0 <= x < self.rank@.len() implies #[trigger] self.rank@[x] == ones(
            self.words@,
            if 512 * x <= self.room() {
                512 * x
            } else {
                self.room()
            },
        ) by {}
    }

    /// How many set bits stand below `i`: the dense index of node `i`.
    pub fn rank1(&self, i: u64) -> (n: u64)
        requires
            self.wf(),
            self.ranked(),
            i <= self.room(),
            self.room() <= u64::MAX,
        ensures
            n == ones(self.words@, i as int),
    {
        let n: usize = self.words.len();
        assert(i / 64 <= n && i / 512 <= n);
        let block: usize = (i / 512) as usize;
        let mut acc: u64 = self.rank[block];
        let ws: usize = block * BLOCK_WORDS;
        let wi: usize = (i / 64) as usize;
        let mut k: usize = ws;
        while k < wi
            invariant
                self.room() <= u64::MAX,
                ws <= k <= wi,
                wi <= self.words@.len(),
                acc == ones(self.words@, 64 * k),
            decreases wi - k,
        {
            proof {
                lemma_ones_word(self.words@, k as int, 64);
                lemma_ones(self.words@, 0, 64 * k + 64);
                lemma_ones64(self.words@[k as int], 64);
            }
            acc = acc + count_ones(self.words[k]) as u64;
            k += 1;
        }
        let rem: u64 = i % 64;
        if rem != 0 {
            proof {
                lemma_ones_word(self.words@, wi as int, rem as int);
                lemma_ones(self.words@, 0, i as int);
                lemma_masked(self.words@[wi as int], rem, 64);
                lemma_mask64(0, rem, 0);
            }
            let m: u64 = (1u64 << rem) - 1;
            acc = acc + count_ones(self.words[wi] & m) as u64;
        }
        acc
    }

    /// Total set bits, according to the rank index.
    pub fn total(&self) -> (n: u64)
        requires
            self.wf(),
        ensures
            self.ranked() ==> n == ones(self.words@, self.room()),
            self.rank@.len() == 0 ==> n == 0,
            self.rank@.len() > 0 ==> n == self.rank@.last(),
    {
        if self.rank.len() == 0 {
            return 0;
        }
        self.rank[self.rank.len() - 1]
    }

    /// Every set id with its rank, ascending.
    pub fn for_each_set(&self) -> (r: Vec<(u64, u64)>)
        requires
            self.wf(),
            self.room() <= u64::MAX,
        ensures
            r@.len() == ones(self.words@, self.room()),
            forall|k: int|
                0 <= k < r@.len() ==> (#[trigger] r@[k]).0 < self.room() && self.has(
                    r@[k].0 as int,
                ) && r@[k].1 == k && ones(self.words@, r@[k].0 as int) == k,
            forall|a: int, b: int|
                0 <= a < b < r@.len() ==> (#[trigger] r@[a]).0 < (#[trigger] r@[b]).0,
            forall|i: int|
                0 <= i < self.room() && #[trigger] self.has(i) ==> ones(self.words@, i)
                    < r@.len() && r@[ones(self.words@, i)].0 == i,
    {
        let mut r: Vec<(u64, u64)> = Vec::new();
        let mut w: usize = 0;
        let ghost words = self.words@;
        let ghost room = self.room();
        while w < self.words.len()
            invariant
                words == self.words@,
                room == 64 * words.len(),
                room <= u64::MAX,
                w <= words.len(),
                listed(words, r@, 64 * w),
            decreases words.len() - w,
        {
            let x: u64 = self.words[w];
            let mut b: u64 = 0;
            if x != 0 {
                while b < 64
                    invariant
                        words == self.words@,
                        room == 64 * words.len(),
                        room <= u64::MAX,
                        w < words.len(),
                        x == words[w as int],
                        b <= 64,
                        listed(words, r@, 64 * w + b),
                    decreases 64 - b,
                {
                    let ghost r0 = r@;
                    let ghost i = 64 * w + b;
                    assert(i / 64 == w && i % 64 == b);
                    if x & (1u64 << b) != 0 {
                        proof {
                            lemma_ones(words, 0, i);
                        }
                        r.push((w as u64 * 64 + b, r.len() as u64));
                    }
                    proof {
                        lemma_listed(words, r0, r@, i);
                    }
                    b += 1;
                }
            } else {
                proof {
                    lemma_none(words, r@, w as int, 64);
                }
            }
            w += 1;
        }
        r
    }

    /// The bytes of the bitmap: magic, the number of bits, the words.
    pub fn save(&self) -> (b: Vec<u8>)
        requires
            self.wf(),
        ensures
            b@ == self.image(),
    {
        let mut b: Vec<u8> = Vec::new();
        let m: [u8; 8] = [77, 80, 66, 77, 48, 48, 48, 49];
        let mut i: usize = 0;
        assert(m@ =~= bitmap_magic());
        while i < 8
            invariant
                m@ == bitmap_magic(),
                i <= 8,
                b@ == m@.take(i as int),
            decreases 8 - i,
        {
            assert(m@.take(i as int).push(m@[i as int]) =~= m@.take(i + 1));
            b.push(m[i]);
            i += 1;
        }
        assert(m@.take(8) =~= m@);
        put_u64(&mut b, self.n_bits);
        let ghost front = b@;
        let mut w: usize = 0;
        assert(front + word_bytes(self.words@, 0) =~= front);
        while w < self.words.len()
            invariant
                w <= self.words@.len(),
                b@ == front + word_bytes(self.words@, w as int),
            decreases self.words@.len() - w,
        {
            put_u64(&mut b, self.words[w]);
            assert(b@ =~= front + word_bytes(self.words@, w + 1));
            w += 1;
        }
        b
    }

    /// Reads a bitmap back. Bytes after the last word are ignored.
    pub fn load(b: &[u8]) -> (r: Result<BitMap, LoadFault>)
        ensures
            match r {
                Ok(m) => {
                    &&& m.wf()
                    &&& m.rank@.len() == 0
                    &&& b@.len() >= m.image().len()
                    &&& b@.take(m.image().len() as int) == m.image()
                },
                Err(LoadFault::BadMagic) => b@.len() >= 8 && b@.take(8) != bitmap_magic(),
                Err(LoadFault::Short) => b@.len() < 8 || (b@.take(8) == bitmap_magic() && (b@.len()
                    < 16 || b@.len() < 16 + 8 * words_for(number(b@.subrange(8, 16))))),
            },
    {
        if b.len() < 8 {
            return Err(LoadFault::Short);
        }
        let m: [u8; 8] = [77, 80, 66, 77, 48, 48, 48, 49];
        assert(m@ =~= bitmap_magic());
        let front: &[u8] = vstd::slice::slice_subrange(b, 0, 8);
        assert(front@ =~= b@.take(8));
        if !bytes_eq(front, vstd::array::array_as_slice(&m)) {
            return Err(LoadFault::BadMagic);
        }
        if b.len() < 16 {
            return Err(LoadFault::Short);
        }
        let n_bits: u64 = get_u64(b, 8);
        let extra: u64 = if n_bits % 64 == 0 {
            0
        } else {
            1
        };
        let nw: u64 = n_bits / 64 + extra;
        assert(nw == words_for(n_bits as int));
        if nw > ((b.len() - 16) / 8) as u64 {
            return Err(LoadFault::Short);
        }
        let n: usize = nw as usize;
        let len: usize = b.len();
        let mut words: Vec<u64> = Vec::new();
        let ghost head = b@.take(16);
        proof {
            lemma_pow256();
            lemma_le_len(n_bits as int, 8);
            crate::bytes::lemma_number_le(b@.subrange(8, 16));
            assert(head =~= bitmap_magic() + le(n_bits as int, 8));
            assert(b@.take(16) =~= head + word_bytes(words@, 0));
        }
        while words.len() < n
            invariant
                len == b@.len(),
                n <= (len - 16) / 8,
                len >= 16,
                words@.len() <= n,
                b@.take(16 + 8 * words@.len() as int) == head + word_bytes(
                    words@,
                    words@.len() as int,
                ),
            decreases n - words@.len(),
        {
            let k: usize = words.len();
            let x: u64 = get_u64(b, 16 + 8 * k);
            let ghost w0 = words@;
            words.push(x);
            proof {
                let s = b@.subrange(16 + 8 * k, 16 + 8 * k + 8);
                crate::bytes::lemma_number_le(s);
                lemma_word_bytes(w0, x, k as int);
                assert(b@.take(16 + 8 * (k + 1)) =~= b@.take(16 + 8 * k) + s);
                assert(word_bytes(words@, k + 1) == word_bytes(w0, k as int) + s);
                assert(head + (word_bytes(w0, k as int) + s) =~= (head + word_bytes(w0, k as int))
                    + s);
            }
        }
        let r = BitMap { words, n_bits, rank: Vec::new() };
        proof {
            lemma_image_len(r);
            assert(b@.take(16 + 8 * n) =~= r.image());
        }
        Ok(r)
    }
}

proof fn lemma_word_bytes(words: Seq<u64>, x: u64, n: int)
    requires
        0 <= n <= words.len(),
    ensures
        word_bytes(words.push(x), n) == word_bytes(words, n),
    decreases n,
{
    if n > 0 {
        lemma_word_bytes(words, x, n - 1);
    }
}

proof fn lemma_word_len(words: Seq<u64>, n: int)
    requires
        0 <= n,
    ensures
        word_bytes(words, n).len() == 8 * n,
    decreases n,
{
    if n > 0 {
        lemma_word_len(words, n - 1);
        lemma_le_len(words[n - 1] as int, 8);
    }
}

proof fn lemma_image_len(m: BitMap)
    ensures
        m.image().len() == 16 + 8 * m.words@.len(),
{
    lemma_word_len(m.words@, m.words@.len() as int);
    lemma_le_len(m.n_bits as int, 8);
}

/// The list holds the set bits below `n`, each with its rank.
spec fn listed(words: Seq<u64>, r: Seq<(u64, u64)>, n: int) -> bool {
    &&& r.len() == ones(words, n)
    &&& forall|k: int|
        0 <= k < r.len() ==> (#[trigger] r[k]).0 < n && bit_at(words, r[k].0 as int) && r[k].1 == k
            && ones(words, r[k].0 as int) == k
    &&& forall|a: int, b: int| 0 <= a < b < r.len() ==> (#[trigger] r[a]).0 < (#[trigger] r[b]).0
    &&& forall|i: int|
        0 <= i < n && #[trigger] bit_at(words, i) ==> ones(words, i) < r.len() && r[ones(
            words,
            i,
        )].0 == i
}

proof fn lemma_listed(words: Seq<u64>, r0: Seq<(u64, u64)>, r: Seq<(u64, u64)>, n: int)
    requires
        0 <= n < u64::MAX,
        listed(words, r0, n),
        r == (if bit_at(words, n) {
            r0.push((n as u64, r0.len() as u64))
        } else {
            r0
        }),
    ensures
        listed(words, r, n + 1),
{
    lemma_ones(words, 0, n);
    assert forall|i: int| 0 <= i < n + 1 && #[trigger] bit_at(words, i) implies ones(words, i)
        < r.len() && r[ones(words, i)].0 == i by {
        if i < n {
            lemma_ones(words, 0, i);
            assert(r0[ones(words, i)].0 == i);
        }
    }
    assert forall|k: int| 0 <= k < r.len() implies (#[trigger] r[k]).0 < n + 1 && bit_at(
        words,
        r[k].0 as int,
    ) && r[k].1 == k && ones(words, r[k].0 as int) == k by {
        if k < r0.len() {
            assert(r0[k] == r[k]);
        }
    }
    assert forall|a: int, b: int| 0 <= a < b < r.len() implies (#[trigger] r[a]).0 < (
    #[trigger] r[b]).0 by {
        assert(r0[a] == r[a]);
        if b < r0.len() {
            assert(r0[b] == r[b]);
        }
    }
}

proof fn lemma_none(words: Seq<u64>, r: Seq<(u64, u64)>, w: int, n: int)
    requires
        0 <= w < words.len(),
        64 * words.len() <= u64::MAX,
        words[w] == 0,
        listed(words, r, 64 * w),
        0 <= n <= 64,
    ensures
        listed(words, r, 64 * w + n),
    decreases n,
{
    if n > 0 {
        lemma_none(words, r, w, n - 1);
        let i = 64 * w + n - 1;
        assert(i / 64 == w && i % 64 == n - 1);
        lemma_set64(0, 0, (n - 1) as u64);
        lemma_listed(words, r, r, i);
    }
}

/// What is saved is what is loaded: two bitmaps with one image are the same.
pub proof fn lemma_image_tells(a: BitMap, b: BitMap, rest: Seq<u8>)
    requires
        a.wf(),
        b.wf(),
        (a.image() + rest).len() >= b.image().len(),
        (a.image() + rest).take(b.image().len() as int) == b.image(),
    ensures
        a.n_bits == b.n_bits,
        a.words@ == b.words@,
{
    let all = a.image() + rest;
    lemma_image_len(a);
    lemma_image_len(b);
    lemma_pow256();
    lemma_le_number(a.n_bits as int, 8);
    lemma_le_number(b.n_bits as int, 8);
    assert(all.subrange(8, 16) =~= le(a.n_bits as int, 8));
    assert(all.subrange(8, 16) =~= all.take(b.image().len() as int).subrange(8, 16));
    assert(b.image().subrange(8, 16) =~= le(b.n_bits as int, 8));
    assert(a.n_bits == b.n_bits);
    let n = a.words@.len() as int;
    assert(all.take(16 + 8 * n) =~= a.image());
    assert(a.image() == b.image());
    lemma_word_len(a.words@, n);
    lemma_word_len(b.words@, n);
    assert(a.image().subrange(16, 16 + 8 * n) =~= word_bytes(a.words@, n));
    assert(b.image().subrange(16, 16 + 8 * n) =~= word_bytes(b.words@, n));
    lemma_words_tell(a.words@, b.words@, n);
    assert(a.words@ =~= b.words@);
}

proof fn lemma_words_tell(a: Seq<u64>, b: Seq<u64>, n: int)
    requires
        0 <= n <= a.len(),
        n <= b.len(),
        word_bytes(a, n) == word_bytes(b, n),
    ensures
        forall|i: int| 0 <= i < n ==> a[i] == b[i],
    decreases n,
{
    if n > 0 {
        lemma_pow256();
        lemma_word_len(a, n - 1);
        lemma_word_len(b, n - 1);
        lemma_le_number(a[n - 1] as int, 8);
        lemma_le_number(b[n - 1] as int, 8);
        let (x, y) = (word_bytes(a, n), word_bytes(b, n));
        assert(x.take(8 * (n - 1)) =~= word_bytes(a, n - 1));
        assert(y.take(8 * (n - 1)) =~= word_bytes(b, n - 1));
        assert(x.skip(8 * (n - 1)) =~= le(a[n - 1] as int, 8));
        assert(y.skip(8 * (n - 1)) =~= le(b[n - 1] as int, 8));
        lemma_words_tell(a, b, n - 1);
    }
}

/// Every rank below the count is some set bit's.
pub proof fn lemma_nth(words: Seq<u64>, n: int, k: int)
    requires
        0 <= k < ones(words, n),
    ensures
        exists|i: int| 0 <= i < n && bit_at(words, i) && #[trigger] ones(words, i) == k,
    decreases n,
{
    if n > 0 {
        if k < ones(words, n - 1) {
            lemma_nth(words, n - 1, k);
            let i = choose|i: int|
                0 <= i < n - 1 && bit_at(words, i) && #[trigger] ones(words, i) == k;
            assert(ones(words, i) == k);
        } else {
            assert(bit_at(words, n - 1) && ones(words, n - 1) == k);
        }
    }
}

} // verus!
