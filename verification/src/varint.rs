//! Numbers and byte strings in a run of bytes: seven bits a byte, the lowest
//! first.

use vstd::prelude::*;
use crate::pbf::wire::{leb, unzigzag_of, varint, varint_at, zigzag, zigzag_of};

verus! {

/// The bytes of a number.
pub open spec fn leb_bytes(x: nat) -> Seq<u8>
    decreases x,
{
    if x < 128 {
        seq![x as u8]
    } else {
        seq![(x % 128 + 128) as u8] + leb_bytes(x / 128)
    }
}

/// The bytes of a byte string: its length, then itself.
pub open spec fn string_bytes(s: Seq<u8>) -> Seq<u8> {
    leb_bytes(s.len()) + s
}

/// Append a number.
pub fn put_u(b: &mut Vec<u8>, x: u64)
    ensures
        final(b)@ == old(b)@ + leb_bytes(x as nat),
{
    let ghost b0 = b@;
    let mut y: u64 = x;
    assert(b0 + leb_bytes(x as nat) =~= b@ + leb_bytes(y as nat));
    while y >= 128
        invariant
            b0 + leb_bytes(x as nat) == b@ + leb_bytes(y as nat),
        decreases y,
    {
        let ghost b1 = b@;
        let c: u8 = (y % 128) as u8 + 128;
        b.push(c);
        proof {
            assert(b1 + (seq![c] + leb_bytes((y / 128) as nat)) =~= b@ + leb_bytes(
                (y / 128) as nat,
            ));
        }
        y = y / 128;
    }
    b.push(y as u8);
    assert(b@ =~= b0 + leb_bytes(x as nat));
}

/// Append a signed number.
pub fn put_i(b: &mut Vec<u8>, x: i64)
    ensures
        final(b)@ == old(b)@ + leb_bytes(unzigzag_of(x) as nat),
{
    let z: u64 = if x >= 0 {
        2 * (x as u64)
    } else {
        let y: u64 = (-(x + 1)) as u64;
        2 * y + 1
    };
    put_u(b, z);
}

/// Append a byte string.
pub fn put_bytes(b: &mut Vec<u8>, s: &[u8])
    ensures
        final(b)@ == old(b)@ + string_bytes(s@),
{
    let ghost b0 = b@;
    put_u(b, s.len() as u64);
    let ghost b1 = b@;
    let mut i: usize = 0;
    assert(b1 + s@.take(0) =~= b1);
    while i < s.len()
        invariant
            i <= s@.len(),
            b@ == b1 + s@.take(i as int),
        decreases s@.len() - i,
    {
        b.push(s[i]);
        assert(b@ =~= b1 + s@.take(i + 1));
        i += 1;
    }
    assert(s@.take(i as int) =~= s@);
    assert(b@ =~= b0 + string_bytes(s@));
}

/// Read a number and move past it; nothing where the input ends inside it.
pub fn get_u(b: &[u8], p: &mut usize) -> (r: Option<u64>)
    ensures
        match varint_at(b@, *old(p) as int) {
            None => r is None && *final(p) == *old(p),
            Some((v, q)) => r == Some(v) && *final(p) == q && *old(p) < q <= b@.len(),
        },
{
    varint(b, p)
}

/// Read a signed number and move past it.
pub fn get_i(b: &[u8], p: &mut usize) -> (r: Option<i64>)
    ensures
        match varint_at(b@, *old(p) as int) {
            None => r is None && *final(p) == *old(p),
            Some((v, q)) => r == Some(zigzag_of(v)) && *final(p) == q && *old(p) < q <= b@.len(),
        },
{
    match varint(b, p) {
        None => None,
        Some(v) => Some(zigzag(v)),
    }
}

/// The byte string at `p`, and where it ends.
pub open spec fn string_at(b: Seq<u8>, p: int) -> Option<(Seq<u8>, int)> {
    match varint_at(b, p) {
        None => None,
        Some((n, q)) => if q + n <= b.len() {
            Some((b.subrange(q, q + n), q + n))
        } else {
            None
        },
    }
}

/// Read a byte string and move past it; nothing where the input ends inside
/// it.
pub fn get_bytes<'a>(b: &'a [u8], p: &mut usize) -> (r: Option<&'a [u8]>)
    ensures
        match string_at(b@, *old(p) as int) {
            None => r is None,
            Some((s, q)) => r matches Some(x) && x@ == s && *final(p) == q && *old(p) < q
                <= b@.len(),
        },
{
    let n: u64 = match varint(b, p) {
        None => {
            return None;
        },
        Some(n) => n,
    };
    let q: usize = *p;
    let left: usize = b.len() - q;
    if n > left as u64 {
        return None;
    }
    let e: usize = q + n as usize;
    *p = e;
    Some(vstd::slice::slice_subrange(b, q, e))
}

proof fn lemma_leb_read(pre: Seq<u8>, x: nat, rest: Seq<u8>, k: int)
    requires
        0 <= k <= 9,
        k == 9 ==> x < 128,
        x < pow128(10 - k),
    ensures
        leb(pre + leb_bytes(x) + rest, pre.len() as int, k) == Some(
            (x as int, (pre.len() + leb_bytes(x).len()) as int),
        ),
    decreases x,
{
    let b = pre + leb_bytes(x) + rest;
    if x < 128 {
        assert(b[pre.len() as int] == x as u8);
    } else {
        let c = (x % 128 + 128) as u8;
        let pre2 = pre.push(c);
        assert(leb_bytes(x)[0] == c);
        assert(b[pre.len() as int] == c);
        assert(b =~= pre2 + leb_bytes(x / 128) + rest);
        assert(x / 128 < pow128(10 - k - 1)) by {
            assert(pow128(10 - k) == 128 * pow128(10 - k - 1));
        }
        if k == 8 {
            assert(pow128(1) == 128 * pow128(0));
        }
        lemma_leb_read(pre2, x / 128, rest, k + 1);
    }
}

spec fn pow128(k: int) -> int
    decreases k,
{
    if k <= 0 {
        1
    } else {
        128 * pow128(k - 1)
    }
}

/// What is written is what is read, wherever it stands.
pub proof fn lemma_number_kept(pre: Seq<u8>, x: u64, rest: Seq<u8>)
    ensures
        varint_at(pre + leb_bytes(x as nat) + rest, pre.len() as int) == Some(
            (x, (pre.len() + leb_bytes(x as nat).len()) as int),
        ),
{
    reveal_with_fuel(pow128, 11);
    lemma_leb_read(pre, x as nat, rest, 0);
}

/// The same for a signed number.
pub proof fn lemma_signed_kept(pre: Seq<u8>, x: i64, rest: Seq<u8>)
    ensures
        ({
            let s = leb_bytes(unzigzag_of(x) as nat);
            &&& varint_at(pre + s + rest, pre.len() as int) == Some(
                (unzigzag_of(x), (pre.len() + s.len()) as int),
            )
            &&& zigzag_of(unzigzag_of(x)) == x
        }),
{
    lemma_number_kept(pre, unzigzag_of(x), rest);
    crate::pbf::wire::lemma_zigzag(x, 0);
}

/// The same for a byte string.
pub proof fn lemma_string_kept(pre: Seq<u8>, s: Seq<u8>, rest: Seq<u8>)
    requires
        s.len() <= u64::MAX,
    ensures
        string_at(pre + string_bytes(s) + rest, pre.len() as int) == Some(
            (s, (pre.len() + string_bytes(s).len()) as int),
        ),
{
    let b = pre + string_bytes(s) + rest;
    assert(b =~= pre + leb_bytes(s.len()) + (s + rest));
    lemma_number_kept(pre, s.len() as u64, s + rest);
    let q = (pre.len() + leb_bytes(s.len()).len()) as int;
    assert(b.subrange(q, q + s.len()) =~= s);
}

} // verus!
