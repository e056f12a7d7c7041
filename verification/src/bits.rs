//! Single bits of machine words.

use vstd::prelude::*;

verus! {

/// Bit `i` of a 64-bit word.
pub open spec fn bit64(w: u64, i: u64) -> bool {
    w & (1u64 << i) != 0
}

/// Bit `i` of a byte.
pub open spec fn bit8(w: u8, i: u8) -> bool {
    w & (1u8 << i) != 0
}

pub proof fn lemma_set64(w: u64, i: u64, j: u64)
    by (bit_vector)
    requires
        i < 64,
        j < 64,
    ensures
        bit64(w | (1u64 << i), j) == (bit64(w, j) || i == j),
        !bit64(0, j),
{
}

/// A mask of the low `n` bits keeps those and no others.
pub proof fn lemma_mask64(w: u64, n: u64, j: u64)
    by (bit_vector)
    requires
        0 < n < 64,
        j < 64,
    ensures
        bit64(w & (((1u64 << n) - 1) as u64), j) == (bit64(w, j) && j < n),
        1u64 << n >= 1,
{
}

pub proof fn lemma_set8(w: u8, i: u8, j: u8)
    by (bit_vector)
    requires
        i < 8,
        j < 8,
    ensures
        bit8(w | (1u8 << i), j) == (bit8(w, j) || i == j),
        !bit8(0, j),
{
}

pub proof fn lemma_clear8(w: u8, i: u8, j: u8)
    by (bit_vector)
    requires
        i < 8,
        j < 8,
    ensures
        bit8(w & !(1u8 << i), j) == (bit8(w, j) && i != j),
{
}

} // verus!
