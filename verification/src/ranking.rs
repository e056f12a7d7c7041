//! Items in the order of their keys.

use vstd::prelude::*;
use crate::sorting::{keyed_le, lemma_same_items, sort_keyed};

verus! {

/// The order of items by key, and by number where two keys are equal: which
/// item stands at each place, and at which place each item stands.
pub struct Ranking {
    pub order: Vec<usize>,
    pub place: Vec<usize>,
}

pub open spec fn key_lt(keys: Seq<u64>, i: int, j: int) -> bool {
    keys[i] < keys[j] || (keys[i] == keys[j] && i < j)
}

pub open spec fn ranked(keys: Seq<u64>, r: Ranking) -> bool {
    &&& r.order@.len() == keys.len()
    &&& r.place@.len() == keys.len()
    &&& forall|x: int|
        0 <= x < keys.len() ==> (#[trigger] r.order@[x]) < keys.len()
            && r.place@[r.order@[x] as int] == x
    &&& forall|i: int|
        0 <= i < keys.len() ==> (#[trigger] r.place@[i]) < keys.len()
            && r.order@[r.place@[i] as int] == i
    &&& forall|x: int, y: int|
        0 <= x < y < keys.len() ==> key_lt(
            keys,
            (#[trigger] r.order@[x]) as int,
            (#[trigger] r.order@[y]) as int,
        )
}

/// Sorts items by key.
#[verifier::rlimit(40)]
pub fn rank_by(keys: &Vec<u64>) -> (r: Ranking)
    ensures
        ranked(keys@, r),
{
    let n: usize = keys.len();
    let mut pairs: Vec<(u64, usize)> = Vec::new();
    while pairs.len() < n
        invariant
            n == keys@.len(),
            pairs@.len() <= n,
            forall|i: int|
                0 <= i < pairs@.len() ==> #[trigger] pairs@[i] == (keys@[i], i as usize),
        decreases n - pairs@.len(),
    {
        let i: usize = pairs.len();
        pairs.push((keys[i], i));
    }
    let ghost list = pairs@;
    sort_keyed(&mut pairs);
    let ghost s = pairs@;
    proof {
        lemma_same_items(s, list);
        assert forall|x: int| 0 <= x < s.len() implies (#[trigger] s[x]).1 < n && s[x].0
            == keys@[s[x].1 as int] by {
            assert(s.contains(s[x]));
            let i = list.index_of(s[x]);
            assert(list[i] == s[x]);
        }
        assert(list.no_duplicates());
        list.lemma_multiset_has_no_duplicates();
        s.lemma_multiset_has_no_duplicates_conv();
        assert forall|x: int, y: int| 0 <= x < s.len() && 0 <= y < s.len() && x != y implies (
        #[trigger] s[x]).1 != (#[trigger] s[y]).1 by {
            if s[x].1 == s[y].1 {
                assert(s[x] == s[y]);
            }
        }
    }
    let mut order: Vec<usize> = Vec::new();
    let mut place: Vec<usize> = vec![0usize; n];
    while order.len() < n
        invariant
            n == keys@.len(),
            s == pairs@,
            s.len() == n,
            order@.len() <= n,
            place@.len() == n,
            forall|x: int| 0 <= x < s.len() ==> (#[trigger] s[x]).1 < n,
            forall|x: int, y: int|
                0 <= x < s.len() && 0 <= y < s.len() && x != y ==> (#[trigger] s[x]).1 != (
                #[trigger] s[y]).1,
            forall|x: int|
                0 <= x < order@.len() ==> #[trigger] order@[x] == s[x].1
                    && place@[s[x].1 as int] == x,
        decreases n - order@.len(),
    {
        let x: usize = order.len();
        let i: usize = pairs[x].1;
        let ghost o0 = order@;
        order.push(i);
        place.set(i, x);
        proof {
            assert forall|y: int| 0 <= y < order@.len() implies #[trigger] order@[y] == s[y].1
                && place@[s[y].1 as int] == y by {
                if y < x {
                    assert(o0[y] == s[y].1);
                    assert(s[y].1 != s[x as int].1);
                }
            }
        }
    }
    let r = Ranking { order, place };
    proof {
        assert forall|i: int| 0 <= i < n implies (#[trigger] r.place@[i]) < n
            && r.order@[r.place@[i] as int] == i by {
            assert(list.contains(list[i]));
            assert(s.contains(list[i]));
            let x = s.index_of(list[i]);
            assert(s[x].1 == i);
            assert(r.order@[x] == i);
        }
        assert forall|x: int, y: int| 0 <= x < y < n implies key_lt(
            keys@,
            (#[trigger] r.order@[x]) as int,
            (#[trigger] r.order@[y]) as int,
        ) by {
            assert(keyed_le(s[x], s[y]));
        }
    }
    r
}

} // verus!
