//! Little-endian numbers, and the hash that stands for a byte string.

use vstd::prelude::*;

verus! {

/// The `n` low bytes of `x`, least significant first.
pub open spec fn le(x: int, n: nat) -> Seq<u8>
    decreases n,
{
    if n == 0 {
        Seq::empty()
    } else {
        seq![(x % 256) as u8] + le(x / 256, (n - 1) as nat)
    }
}

/// The number a byte string stands for, least significant byte first.
pub open spec fn number(b: Seq<u8>) -> int
    decreases b.len(),
{
    if b.len() == 0 {
        0
    } else {
        b[0] + 256 * number(b.drop_first())
    }
}

pub open spec fn pow256(n: nat) -> int
    decreases n,
{
    if n == 0 {
        1
    } else {
        256 * pow256((n - 1) as nat)
    }
}

/// Reading back what was written gives the number.
pub proof fn lemma_le_number(x: int, n: nat)
    requires
        0 <= x < pow256(n),
    ensures
        le(x, n).len() == n,
        number(le(x, n)) == x,
    decreases n,
{
    if n > 0 {
        let rest = le(x / 256, (n - 1) as nat);
        lemma_le_number(x / 256, (n - 1) as nat);
        assert(le(x, n).drop_first() =~= rest);
    }
}

pub proof fn lemma_le_len(x: int, n: nat)
    ensures
        le(x, n).len() == n,
    decreases n,
{
    if n > 0 {
        lemma_le_len(x / 256, (n - 1) as nat);
    }
}

pub proof fn lemma_pow256()
    ensures
        pow256(2) == 0x1_0000,
        pow256(4) == 0x1_0000_0000,
        pow256(8) == 0x1_0000_0000_0000_0000,
{
    reveal_with_fuel(pow256, 9);
}

/// Append the four bytes of `x`.
pub fn put_u32(b: &mut Vec<u8>, x: u32)
    ensures
        final(b)@ == old(b)@ + le(x as int, 4),
{
    let ghost b0 = b@;
    b.push((x % 256) as u8);
    b.push(((x / 0x100) % 256) as u8);
    b.push(((x / 0x1_0000) % 256) as u8);
    b.push((x / 0x100_0000) as u8);
    proof {
        reveal_with_fuel(le, 5);
        assert(b@ =~= b0 + le(x as int, 4));
    }
}

/// Append the eight bytes of `x`.
pub fn put_u64(b: &mut Vec<u8>, x: u64)
    ensures
        final(b)@ == old(b)@ + le(x as int, 8),
{
    let ghost b0 = b@;
    let mut i: usize = 0;
    let mut y: u64 = x;
    while i < 8
        invariant
            i <= 8,
            b@ + le(y as int, (8 - i) as nat) == b0 + le(x as int, 8),
        decreases 8 - i,
    {
        let ghost b1 = b@;
        let ghost y1 = y;
        b.push((y % 256) as u8);
        y = y / 256;
        i += 1;
        assert(b@ + le(y as int, (8 - i) as nat) =~= b1 + le(y1 as int, (8 - i + 1) as nat));
    }
    assert(b@ =~= b@ + le(y as int, 0));
}

/// The four bytes at `at`, as a number.
pub fn get_u32(b: &[u8], at: usize) -> (x: u32)
    requires
        at + 4 <= b@.len(),
    ensures
        x == number(b@.subrange(at as int, at + 4)),
{
    proof {
        reveal_with_fuel(number, 5);
        let s = b@.subrange(at as int, at + 4);
        assert(s.drop_first().drop_first().drop_first().drop_first() =~= Seq::<u8>::empty());
        assert(s[0] == b@[at as int] && s.drop_first()[0] == b@[at + 1]
            && s.drop_first().drop_first()[0] == b@[at + 2]
            && s.drop_first().drop_first().drop_first()[0] == b@[at + 3]);
    }
    b[at] as u32 + b[at + 1] as u32 * 0x100 + b[at + 2] as u32 * 0x1_0000 + b[at + 3] as u32
        * 0x100_0000
}

pub proof fn lemma_number_bound(b: Seq<u8>)
    ensures
        0 <= number(b) < pow256(b.len()),
    decreases b.len(),
{
    if b.len() > 0 {
        lemma_number_bound(b.drop_first());
    }
}

/// The eight bytes at `at`, as a number.
pub fn get_u64(b: &[u8], at: usize) -> (x: u64)
    requires
        at + 8 <= b@.len(),
    ensures
        x == number(b@.subrange(at as int, at + 8)),
{
    let mut x: u64 = 0;
    let mut i: usize = 8;
    let end: usize = b.len();
    proof {
        lemma_pow256();
        assert(b@.subrange(at + 8, at + 8) =~= Seq::<u8>::empty());
    }
    while i > 0
        invariant
            i <= 8,
            at + 8 <= end == b@.len(),
            x == number(b@.subrange(at + i, at + 8)),
            pow256(8) == 0x1_0000_0000_0000_0000,
        decreases i,
    {
        i -= 1;
        let ghost s = b@.subrange(at + i, at + 8);
        proof {
            assert(s.drop_first() =~= b@.subrange(at + i + 1, at + 8));
            assert(s[0] == b@[at + i]);
            lemma_number_bound(s);
            lemma_pow_le(s.len(), 8);
        }
        x = b[at + i] as u64 + 256 * x;
    }
    x
}

proof fn lemma_pow_le(a: nat, b: nat)
    requires
        a <= b,
    ensures
        pow256(a) <= pow256(b),
    decreases b - a,
{
    if a < b {
        lemma_pow_le(a, (b - 1) as nat);
        lemma_pow_pos((b - 1) as nat);
    }
}

proof fn lemma_pow_pos(n: nat)
    ensures
        pow256(n) >= 1,
    decreases n,
{
    if n > 0 {
        lemma_pow_pos((n - 1) as nat);
    }
}

/// Where an FNV-1a hash starts.
pub const FNV_START: u64 = 0xcbf2_9ce4_8422_2325;

/// FNV-1a over `b`, continuing from `h`.
pub open spec fn fnv(h: u64, b: Seq<u8>) -> u64
    decreases b.len(),
{
    if b.len() == 0 {
        h
    } else {
        (fnv(h, b.drop_last()) ^ (b.last() as u64)).wrapping_mul(0x1000_0000_01b3u64)
    }
}

/// Fold a byte string into a hash.
pub fn fnv_bytes(h: u64, b: &[u8]) -> (r: u64)
    ensures
        r == fnv(h, b@),
{
    let mut x: u64 = h;
    let mut i: usize = 0;
    assert(b@.take(0) =~= Seq::<u8>::empty());
    while i < b.len()
        invariant
            i <= b@.len(),
            x == fnv(h, b@.take(i as int)),
        decreases b@.len() - i,
    {
        assert(b@.take(i + 1).drop_last() =~= b@.take(i as int));
        x = (x ^ (b[i] as u64)).wrapping_mul(0x1000_0000_01b3);
        i += 1;
    }
    assert(b@.take(i as int) =~= b@);
    x
}

/// Fold the eight bytes of a number into a hash.
pub fn fnv_u64(h: u64, v: u64) -> (r: u64)
    ensures
        r == fnv(h, le(v as int, 8)),
{
    let mut b: Vec<u8> = Vec::new();
    put_u64(&mut b, v);
    assert(b@ =~= le(v as int, 8));
    fnv_bytes(h, b.as_slice())
}

/// The bytes of a number are the bytes it was read from.
pub proof fn lemma_number_le(b: Seq<u8>)
    ensures
        le(number(b), b.len()) == b,
    decreases b.len(),
{
    if b.len() > 0 {
        let rest = b.drop_first();
        lemma_number_le(rest);
        lemma_number_bound(rest);
        assert(number(b) % 256 == b[0] && number(b) / 256 == number(rest));
        assert(le(number(b), b.len()) =~= seq![b[0]] + rest);
        assert(b =~= seq![b[0]] + rest);
    } else {
        assert(le(number(b), b.len()) =~= b);
    }
}

} // verus!
