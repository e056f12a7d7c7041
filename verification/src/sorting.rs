//! Sorted lists without duplicates.

use vstd::prelude::*;

verus! {

/// Tuples compare by their first component, then by their second.
pub open spec fn pair_le(a: (u32, u32), b: (u32, u32)) -> bool {
    a.0 < b.0 || (a.0 == b.0 && a.1 <= b.1)
}

pub open spec fn pair_lt(a: (u32, u32), b: (u32, u32)) -> bool {
    a.0 < b.0 || (a.0 == b.0 && a.1 < b.1)
}

pub open spec fn pairs_sorted(s: Seq<(u32, u32)>) -> bool {
    forall|i: int, j: int| 0 <= i <= j < s.len() ==> pair_le(#[trigger] s[i], #[trigger] s[j])
}

/// Strictly rising: sorted, and nothing twice.
pub open spec fn pairs_rising(s: Seq<(u32, u32)>) -> bool {
    forall|i: int, j: int| 0 <= i < j < s.len() ==> pair_lt(#[trigger] s[i], #[trigger] s[j])
}

/// `slice::sort_unstable` on pairs: afterwards the same pairs stand in
/// lexicographic order.
#[verifier::external_body]
pub(crate) fn sort_pairs(v: &mut Vec<(u32, u32)>)
    ensures
        pairs_sorted(final(v)@),
        final(v)@.to_multiset() == old(v)@.to_multiset(),
{
    v.sort_unstable();
}

/// `slice::sort_unstable` on numbers: afterwards the same numbers stand in
/// rising order.
#[verifier::external_body]
pub(crate) fn sort_numbers(v: &mut Vec<u32>)
    ensures
        crate::lookup::sorted(final(v)@),
        final(v)@.to_multiset() == old(v)@.to_multiset(),
{
    v.sort_unstable();
}

/// Pairs of a wide and a narrow number, by the first and then the second.
pub open spec fn wide_le(a: (u64, u32), b: (u64, u32)) -> bool {
    a.0 < b.0 || (a.0 == b.0 && a.1 <= b.1)
}

pub open spec fn wide_sorted(s: Seq<(u64, u32)>) -> bool {
    forall|i: int, j: int| 0 <= i <= j < s.len() ==> wide_le(#[trigger] s[i], #[trigger] s[j])
}

/// `ParallelSliceMut::par_sort_unstable` of the `rayon` crate: afterwards the
/// same pairs stand in lexicographic order.
#[verifier::external_body]
pub(crate) fn sort_wide(v: &mut Vec<(u64, u32)>)
    ensures
        wide_sorted(final(v)@),
        final(v)@.to_multiset() == old(v)@.to_multiset(),
{
    rayon::slice::ParallelSliceMut::par_sort_unstable(v.as_mut_slice());
}

/// Keys with a place each, by the key and then the place.
pub open spec fn keyed_le(a: (u64, usize), b: (u64, usize)) -> bool {
    a.0 < b.0 || (a.0 == b.0 && a.1 <= b.1)
}

pub open spec fn keyed_sorted(s: Seq<(u64, usize)>) -> bool {
    forall|i: int, j: int| 0 <= i <= j < s.len() ==> keyed_le(#[trigger] s[i], #[trigger] s[j])
}

/// `slice::sort_unstable` on keys with a place each: afterwards the same pairs
/// stand in lexicographic order.
#[verifier::external_body]
pub(crate) fn sort_keyed(v: &mut Vec<(u64, usize)>)
    ensures
        keyed_sorted(final(v)@),
        final(v)@.to_multiset() == old(v)@.to_multiset(),
{
    v.sort_unstable();
}

/// Four numbers, by the first that differs.
pub open spec fn quad_lt(a: (u32, u32, u32, u32), b: (u32, u32, u32, u32)) -> bool {
    a.0 < b.0 || (a.0 == b.0 && (a.1 < b.1 || (a.1 == b.1 && (a.2 < b.2 || (a.2 == b.2 && a.3
        < b.3)))))
}

pub open spec fn quads_sorted(s: Seq<(u32, u32, u32, u32)>) -> bool {
    forall|i: int, j: int|
        0 <= i <= j < s.len() ==> quad_lt(#[trigger] s[i], #[trigger] s[j]) || s[i] == s[j]
}

/// `ParallelSliceMut::par_sort_unstable` of the `rayon` crate, on tuples of
/// four: afterwards the same tuples stand in lexicographic order.
#[verifier::external_body]
pub(crate) fn sort_quads(v: &mut Vec<(u32, u32, u32, u32)>)
    ensures
        quads_sorted(final(v)@),
        final(v)@.to_multiset() == old(v)@.to_multiset(),
{
    rayon::slice::ParallelSliceMut::par_sort_unstable(v.as_mut_slice());
}

/// Byte strings compare by the first byte that differs; a shorter one comes
/// before what it begins.
pub open spec fn text_le(a: Seq<u8>, b: Seq<u8>) -> bool
    decreases a.len(),
{
    if a.len() == 0 {
        true
    } else if b.len() == 0 {
        false
    } else if a[0] != b[0] {
        a[0] < b[0]
    } else {
        text_le(a.drop_first(), b.drop_first())
    }
}

pub open spec fn texts_sorted(s: Seq<(Vec<u8>, u32)>) -> bool {
    forall|i: int, j: int|
        0 <= i <= j < s.len() ==> text_le((#[trigger] s[i]).0@, (#[trigger] s[j]).0@) && (s[i].0@
            == s[j].0@ ==> s[i].1 <= s[j].1)
}

/// `ParallelSliceMut::par_sort_unstable` of the `rayon` crate, on byte strings
/// with a number each: afterwards the same items stand in rising order of the
/// string, and of the number where two strings are equal.
#[verifier::external_body]
pub(crate) fn sort_texts(v: &mut Vec<(Vec<u8>, u32)>)
    ensures
        texts_sorted(final(v)@),
        final(v)@.to_multiset() == old(v)@.to_multiset(),
{
    rayon::slice::ParallelSliceMut::par_sort_unstable(v.as_mut_slice());
}

pub open spec fn firsts_sorted(s: Seq<(u32, u32, u32)>) -> bool {
    forall|i: int, j: int| 0 <= i <= j < s.len() ==> (#[trigger] s[i]).0 <= (#[trigger] s[j]).0
}

/// `slice::sort_unstable_by_key` on the first component of triples: afterwards
/// the same triples stand in rising order of it. In which order triples with
/// equal first components stand is left open.
#[verifier::external_body]
pub(crate) fn sort_by_first(v: &mut Vec<(u32, u32, u32)>)
    ensures
        firsts_sorted(final(v)@),
        final(v)@.to_multiset() == old(v)@.to_multiset(),
{
    v.sort_unstable_by_key(|x| x.0);
}

/// How often `x` occurs.
pub open spec fn occurs<T>(s: Seq<T>, x: T) -> nat {
    s.to_multiset().count(x)
}

pub proof fn lemma_occurs<T>(s: Seq<T>, x: T, y: T)
    ensures
        occurs(s.push(x), y) == occurs(s, y) + (if x == y {
            1nat
        } else {
            0nat
        }),
        occurs(Seq::<T>::empty(), y) == 0,
{
    broadcast use vstd::seq_lib::group_to_multiset_ensures;

    vstd::seq_lib::to_multiset_build(s, x);
}

pub proof fn lemma_occurs_pos<T>(s: Seq<T>, x: T)
    ensures
        occurs(s, x) > 0 <==> s.contains(x),
{
    broadcast use vstd::seq_lib::group_to_multiset_ensures;

}

pub proof fn lemma_same_items<T>(a: Seq<T>, b: Seq<T>)
    requires
        a.to_multiset() == b.to_multiset(),
    ensures
        a.len() == b.len(),
        forall|x: T| a.contains(x) <==> b.contains(x),
{
    broadcast use vstd::seq_lib::group_to_multiset_ensures;

    assert(a.len() == a.to_multiset().len());
    assert(b.len() == b.to_multiset().len());
    assert forall|x: T| a.contains(x) <==> b.contains(x) by {
        assert(a.contains(x) <==> a.to_multiset().count(x) > 0);
        assert(b.contains(x) <==> b.to_multiset().count(x) > 0);
    }
}

/// The distinct pairs of a list, rising.
pub fn pair_set(v: Vec<(u32, u32)>) -> (r: Vec<(u32, u32)>)
    ensures
        pairs_rising(r@),
        forall|x: (u32, u32)| r@.contains(x) <==> v@.contains(x),
        r@.len() <= v@.len(),
{
    let ghost v0 = v@;
    let mut s: Vec<(u32, u32)> = v;
    sort_pairs(&mut s);
    proof {
        lemma_same_items(s@, v0);
    }
    let mut r: Vec<(u32, u32)> = Vec::new();
    let mut i: usize = 0;
    while i < s.len()
        invariant
            pairs_sorted(s@),
            i <= s@.len(),
            r@.len() <= i,
            pairs_rising(r@),
            i == 0 ==> r@.len() == 0,
            i > 0 ==> r@.len() > 0 && r@.last() == s@[i - 1],
            forall|x: int| 0 <= x < r@.len() ==> s@.contains(#[trigger] r@[x]),
            forall|x: int| 0 <= x < i ==> r@.contains(#[trigger] s@[x]),
        decreases s@.len() - i,
    {
        let x: (u32, u32) = s[i];
        let fresh: bool = r.len() == 0 || r[r.len() - 1].0 != x.0 || r[r.len() - 1].1 != x.1;
        let ghost r0 = r@;
        if fresh {
            r.push(x);
        }
        proof {
            assert(s@.contains(s@[i as int]));
            if fresh && i > 0 {
                assert(pair_le(s@[i - 1], s@[i as int]));
                assert forall|a: int, b: int| 0 <= a < b < r@.len() implies pair_lt(
                    #[trigger] r@[a],
                    #[trigger] r@[b],
                ) by {
                    if b == r0.len() {
                        assert(pair_le(r0[a], r0[r0.len() - 1])) by {
                            if a < r0.len() - 1 {
                                assert(pair_lt(r0[a], r0[r0.len() - 1]));
                            }
                        }
                    }
                }
            }
            assert forall|y: int| 0 <= y < i + 1 implies r@.contains(#[trigger] s@[y]) by {
                if y < i {
                    assert(r0.contains(s@[y]));
                    let z = choose|z: int| 0 <= z < r0.len() && r0[z] == s@[y];
                    assert(r@[z] == s@[y]);
                } else if fresh {
                    assert(r@[r0.len() as int] == x);
                } else {
                    assert(r@[r@.len() - 1] == x);
                }
            }
        }
        i += 1;
    }
    proof {
        assert forall|x: (u32, u32)| r@.contains(x) <==> v0.contains(x) by {
            if r@.contains(x) {
                let z = choose|z: int| 0 <= z < r@.len() && r@[z] == x;
                assert(s@.contains(r@[z]));
            }
            if s@.contains(x) {
                let z = choose|z: int| 0 <= z < s@.len() && s@[z] == x;
                assert(r@.contains(s@[z]));
            }
        }
    }
    r
}

/// The distinct numbers of a list, rising.
pub fn number_set(v: Vec<u32>) -> (r: Vec<u32>)
    ensures
        crate::lookup::ascending(r@),
        forall|x: u32| r@.contains(x) <==> v@.contains(x),
        r@.len() <= v@.len(),
{
    let ghost v0 = v@;
    let mut s: Vec<u32> = v;
    sort_numbers(&mut s);
    proof {
        lemma_same_items(s@, v0);
    }
    let mut r: Vec<u32> = Vec::new();
    let mut i: usize = 0;
    while i < s.len()
        invariant
            crate::lookup::sorted(s@),
            i <= s@.len(),
            r@.len() <= i,
            crate::lookup::ascending(r@),
            i == 0 ==> r@.len() == 0,
            i > 0 ==> r@.len() > 0 && r@.last() == s@[i - 1],
            forall|x: int| 0 <= x < r@.len() ==> s@.contains(#[trigger] r@[x]),
            forall|x: int| 0 <= x < i ==> r@.contains(#[trigger] s@[x]),
        decreases s@.len() - i,
    {
        let x: u32 = s[i];
        let fresh: bool = r.len() == 0 || r[r.len() - 1] != x;
        let ghost r0 = r@;
        if fresh {
            r.push(x);
        }
        proof {
            assert(s@.contains(s@[i as int]));
            assert forall|y: int| 0 <= y < i + 1 implies r@.contains(#[trigger] s@[y]) by {
                if y < i {
                    assert(r0.contains(s@[y]));
                    let z = choose|z: int| 0 <= z < r0.len() && r0[z] == s@[y];
                    assert(r@[z] == s@[y]);
                } else if fresh {
                    assert(r@[r0.len() as int] == x);
                } else {
                    assert(r@[r@.len() - 1] == x);
                }
            }
        }
        i += 1;
    }
    proof {
        assert forall|x: u32| r@.contains(x) <==> v0.contains(x) by {
            if r@.contains(x) {
                let z = choose|z: int| 0 <= z < r@.len() && r@[z] == x;
                assert(s@.contains(r@[z]));
            }
            if s@.contains(x) {
                let z = choose|z: int| 0 <= z < s@.len() && s@[z] == x;
                assert(r@.contains(s@[z]));
            }
        }
    }
    r
}

} // verus!
