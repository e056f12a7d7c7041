//! The stamp that says which revision a way index was written in.

use vstd::prelude::*;
use crate::bytes::{
    get_u32, le, lemma_le_len, lemma_le_number, lemma_pow256, number, put_u32, put_u64,
};
use crate::text::bytes_eq;

verus! {

/// Revision 2 keeps a hash of a way's cost apart from one of its course.
pub const WAY_INDEX_REVISION: u32 = 2;

pub open spec fn way_magic() -> Seq<u8> {
    seq![77u8, 80, 69, 69, 87, 65, 89, 0]
}

pub open spec fn way_stamp_of(ways: u64) -> Seq<u8> {
    way_magic() + le(WAY_INDEX_REVISION as int, 4) + le(ways as int, 8)
}

/// The file recording which revision a way index was written in.
pub fn way_fmt_file() -> (r: &'static str)
    ensures
        r@ == "way.fmt"@,
{
    "way.fmt"
}

fn magic() -> (r: [u8; 8])
    ensures
        r@ == way_magic(),
{
    let r: [u8; 8] = [77, 80, 69, 69, 87, 65, 89, 0];
    assert(r@ =~= way_magic());
    r
}

/// The stamp of a way index.
pub fn way_stamp(ways: u64) -> (b: Vec<u8>)
    ensures
        b@ == way_stamp_of(ways),
{
    let m: [u8; 8] = magic();
    let mut b: Vec<u8> = Vec::new();
    let mut i: usize = 0;
    while i < 8
        invariant
            m@ == way_magic(),
            i <= 8,
            b@ == m@.take(i as int),
        decreases 8 - i,
    {
        assert(m@.take(i as int).push(m@[i as int]) =~= m@.take(i + 1));
        b.push(m[i]);
        i += 1;
    }
    assert(m@.take(8) =~= m@);
    put_u32(&mut b, WAY_INDEX_REVISION);
    put_u64(&mut b, ways);
    b
}

/// What is wrong with a way index.
#[derive(Clone, Copy, PartialEq, Eq, Debug, Structural)]
pub enum StampFault {
    /// No stamp: written before there were any.
    Missing,
    NotAStamp,
    Revision(u32),
}

pub open spec fn stamp_check(stamp: Option<Seq<u8>>) -> Result<(), StampFault> {
    match stamp {
        None => Err(StampFault::Missing),
        Some(b) => if b.len() < 20 || b.take(8) != way_magic() {
            Err(StampFault::NotAStamp)
        } else if number(b.subrange(8, 12)) != WAY_INDEX_REVISION {
            Err(StampFault::Revision(number(b.subrange(8, 12)) as u32))
        } else {
            Ok(())
        },
    }
}

/// Check that a way index is in the revision that is read.
pub fn check_way_stamp(stamp: Option<&[u8]>) -> (r: Result<(), StampFault>)
    ensures
        r == stamp_check(
            match stamp {
                Some(b) => Some(b@),
                None => None,
            },
        ),
{
    let b: &[u8] = match stamp {
        None => {
            return Err(StampFault::Missing);
        },
        Some(b) => b,
    };
    if b.len() < 20 {
        return Err(StampFault::NotAStamp);
    }
    let m: [u8; 8] = magic();
    let front: &[u8] = vstd::slice::slice_subrange(b, 0, 8);
    assert(front@ =~= b@.take(8));
    if !bytes_eq(front, vstd::array::array_as_slice(&m)) {
        return Err(StampFault::NotAStamp);
    }
    let rev: u32 = get_u32(b, 8);
    if rev != WAY_INDEX_REVISION {
        return Err(StampFault::Revision(rev));
    }
    Ok(())
}

/// An index's own stamp is accepted.
pub proof fn lemma_way_stamp(ways: u64)
    ensures
        stamp_check(Some(way_stamp_of(ways))) is Ok,
{
    let b = way_stamp_of(ways);
    lemma_pow256();
    lemma_le_len(WAY_INDEX_REVISION as int, 4);
    lemma_le_len(ways as int, 8);
    lemma_le_number(WAY_INDEX_REVISION as int, 4);
    assert(b.take(8) =~= way_magic());
    assert(b.subrange(8, 12) =~= le(WAY_INDEX_REVISION as int, 4));
}

} // verus!
