//! Binary search over sorted arrays.

use vstd::prelude::*;

verus! {

/// Never falling.
pub open spec fn sorted(s: Seq<u32>) -> bool {
    forall|i: int, j: int| 0 <= i <= j < s.len() ==> s[i] <= s[j]
}

/// Strictly rising.
pub open spec fn ascending(s: Seq<u32>) -> bool {
    forall|i: int, j: int| 0 <= i < j < s.len() ==> s[i] < s[j]
}

pub open spec fn sorted64(s: Seq<u64>) -> bool {
    forall|i: int, j: int| 0 <= i <= j < s.len() ==> s[i] <= s[j]
}

pub open spec fn ascending64(s: Seq<u64>) -> bool {
    forall|i: int, j: int| 0 <= i < j < s.len() ==> s[i] < s[j]
}

/// Strictly rising by first component.
pub open spec fn keyed<T>(s: Seq<(u32, T)>) -> bool {
    forall|i: int, j: int| 0 <= i < j < s.len() ==> (#[trigger] s[i]).0 < (#[trigger] s[j]).0
}

/// How many items stand before `x`: the place it belongs at.
pub fn lower_bound(v: &[u32], x: u32) -> (r: usize)
    requires
        sorted(v@),
    ensures
        r <= v@.len(),
        forall|i: int| 0 <= i < r ==> v@[i] < x,
        forall|i: int| r <= i < v@.len() ==> v@[i] >= x,
{
    let mut lo: usize = 0;
    let mut hi: usize = v.len();
    while lo < hi
        invariant
            sorted(v@),
            lo <= hi <= v@.len(),
            forall|i: int| 0 <= i < lo ==> v@[i] < x,
            forall|i: int| hi <= i < v@.len() ==> v@[i] >= x,
        decreases hi - lo,
    {
        let mid: usize = lo + (hi - lo) / 2;
        if v[mid] < x {
            lo = mid + 1;
        } else {
            hi = mid;
        }
    }
    lo
}

/// Where `x` stands, if it does.
pub fn position(v: &[u32], x: u32) -> (r: Option<usize>)
    requires
        ascending(v@),
    ensures
        match r {
            Some(i) => i < v@.len() && v@[i as int] == x,
            None => forall|i: int| 0 <= i < v@.len() ==> v@[i] != x,
        },
{
    let i: usize = lower_bound(v, x);
    if i < v.len() && v[i] == x {
        Some(i)
    } else {
        None
    }
}

pub fn position64(v: &[u64], x: u64) -> (r: Option<usize>)
    requires
        ascending64(v@),
    ensures
        match r {
            Some(i) => i < v@.len() && v@[i as int] == x,
            None => forall|i: int| 0 <= i < v@.len() ==> v@[i] != x,
        },
{
    let mut lo: usize = 0;
    let mut hi: usize = v.len();
    while lo < hi
        invariant
            ascending64(v@),
            lo <= hi <= v@.len(),
            forall|i: int| 0 <= i < lo ==> v@[i] < x,
            forall|i: int| hi <= i < v@.len() ==> v@[i] >= x,
        decreases hi - lo,
    {
        let mid: usize = lo + (hi - lo) / 2;
        if v[mid] < x {
            lo = mid + 1;
        } else {
            hi = mid;
        }
    }
    if lo < v.len() && v[lo] == x {
        Some(lo)
    } else {
        None
    }
}

/// Where the item keyed `x` stands, if there is one.
pub fn position_keyed<T>(v: &[(u32, T)], x: u32) -> (r: Option<usize>)
    requires
        keyed(v@),
    ensures
        match r {
            Some(i) => i < v@.len() && v@[i as int].0 == x,
            None => forall|i: int| 0 <= i < v@.len() ==> (#[trigger] v@[i]).0 != x,
        },
{
    let mut lo: usize = 0;
    let mut hi: usize = v.len();
    while lo < hi
        invariant
            keyed(v@),
            lo <= hi <= v@.len(),
            forall|i: int| 0 <= i < lo ==> (#[trigger] v@[i]).0 < x,
            forall|i: int| hi <= i < v@.len() ==> (#[trigger] v@[i]).0 >= x,
        decreases hi - lo,
    {
        let mid: usize = lo + (hi - lo) / 2;
        if v[mid].0 < x {
            lo = mid + 1;
        } else {
            hi = mid;
        }
    }
    if lo < v.len() && v[lo].0 == x {
        Some(lo)
    } else {
        None
    }
}

/// What a keyed table says of `x`.
pub open spec fn lookup<T>(s: Seq<(u32, T)>, x: u32) -> Option<T> {
    if exists|i: int| 0 <= i < s.len() && (#[trigger] s[i]).0 == x {
        let i = choose|i: int| 0 <= i < s.len() && (#[trigger] s[i]).0 == x;
        Some(s[i].1)
    } else {
        None
    }
}

pub proof fn lemma_lookup<T>(s: Seq<(u32, T)>, i: int)
    requires
        keyed(s),
        0 <= i < s.len(),
    ensures
        lookup(s, s[i].0) == Some(s[i].1),
{
    let k = choose|k: int| 0 <= k < s.len() && (#[trigger] s[k]).0 == s[i].0;
    assert(0 <= k < s.len() && s[k].0 == s[i].0);
    if k < i {
        assert(s[k].0 < s[i].0);
    } else if i < k {
        assert(s[i].0 < s[k].0);
    }
}

} // verus!
