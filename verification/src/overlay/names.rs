//! The files a level is kept in.
//!
//! Level 0 keeps names of its own; every level above is numbered from 2.

use vstd::prelude::*;
use vstd::string::StringExecFns;
use crate::text::{decimal, decimal_of};

verus! {

/// `l`, the level's number, a dot and an ending.
pub open spec fn numbered(k: int, ending: Seq<char>) -> Seq<char> {
    "l"@ + decimal_of((k + 1) as nat) + "."@ + ending
}

pub open spec fn named(k: int, first: Seq<char>, ending: Seq<char>) -> Seq<char> {
    if k == 0 {
        first
    } else {
        numbered(k, ending)
    }
}

fn name(k: usize, first: &str, ending: &str) -> (r: String)
    requires
        k < u64::MAX,
    ensures
        r@ == named(k as int, first@, ending@),
{
    if k == 0 {
        return String::from_str(first);
    }
    let mut r: String = String::from_str("l");
    let n: String = decimal(k as u64 + 1);
    r.append(n.as_str());
    r.append(".");
    r.append(ending);
    r
}

/// The assignment, gate list, gate heads, table heads, table and widths of a
/// level.
pub fn level_files(k: usize) -> (r: [String; 6])
    requires
        k < u64::MAX,
    ensures
        r@.len() == 6,
        r@[0]@ == named(k as int, "cell.of"@, "of"@),
        r@[1]@ == named(k as int, "cell.bnd"@, "bnd"@),
        r@[2]@ == named(k as int, "cell.bhead"@, "bhead"@),
        r@[3]@ == named(k as int, "ov.head"@, "head"@),
        r@[4]@ == named(k as int, "ov.mat"@, "mat"@),
        r@[5]@ == named(k as int, "ov.width"@, "width"@),
{
    [
        name(k, "cell.of", "of"),
        name(k, "cell.bnd", "bnd"),
        name(k, "cell.bhead", "bhead"),
        name(k, "ov.head", "head"),
        name(k, "ov.mat", "mat"),
        name(k, "ov.width", "width"),
    ]
}

/// The four extra arrays of a lazily valued level: member heads, member list,
/// the sparse table and its presence bitmap.
pub fn lazy_files(k: usize) -> (r: [String; 4])
    requires
        k < u64::MAX,
    ensures
        r@.len() == 4,
        r@[0]@ == named(k as int, "cell.vhead"@, "vhead"@),
        r@[1]@ == named(k as int, "cell.vlist"@, "vlist"@),
        r@[2]@ == named(k as int, "ov.lazy"@, "lazy"@),
        r@[3]@ == named(k as int, "ov.have"@, "have"@),
{
    [
        name(k, "cell.vhead", "vhead"),
        name(k, "cell.vlist", "vlist"),
        name(k, "ov.lazy", "lazy"),
        name(k, "ov.have", "have"),
    ]
}

/// The file recording how a level's lazy table is laid out.
pub fn fmt_file(k: usize) -> (r: String)
    requires
        k < u64::MAX,
    ensures
        r@ == named(k as int, "ov.fmt"@, "fmt"@),
{
    name(k, "ov.fmt", "fmt")
}

/// The use counter, parallel to the member list.
pub fn use_file(k: usize) -> (r: String)
    requires
        k < u64::MAX,
    ensures
        r@ == named(k as int, "cell.use"@, "use"@),
{
    name(k, "cell.use", "use")
}

/// The geographic boxes of a level's regions.
pub fn geo_file(k: usize) -> (r: String)
    requires
        k < u64::MAX,
    ensures
        r@ == named(k as int, "ov.geo"@, "geo"@),
{
    name(k, "ov.geo", "geo")
}

} // verus!
