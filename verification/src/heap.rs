//! A binary heap that hands out the least-ranked item first.
//!
//! Items of one rank are indistinguishable to the heap; the item types used
//! here rank every value differently, so what comes out next is determined.

use vstd::prelude::*;
use vstd::multiset::Multiset;

verus! {

/// What a heap can order.
pub trait Ranked: Sized + Copy {
    /// Where the item stands; smaller comes out first.
    spec fn rank(self) -> int;

    fn before(&self, other: &Self) -> (r: bool)
        ensures
            r == (self.rank() < other.rank()),
    ;
}

/// A vertex waiting at a distance; nearest first, then by number.
#[derive(Clone, Copy)]
pub struct Entry {
    pub d: u32,
    pub v: u32,
}

impl Ranked for Entry {
    open spec fn rank(self) -> int {
        self.d * 0x1_0000_0000 + self.v
    }

    fn before(&self, other: &Entry) -> (r: bool) {
        self.d < other.d || (self.d == other.d && self.v < other.v)
    }
}

pub struct Heap<T: Ranked> {
    items: Vec<T>,
}

spec fn up(j: int) -> int {
    (j - 1) / 2
}

spec fn ordered_but<T: Ranked>(s: Seq<T>, hole: int) -> bool {
    forall|j: int|
        0 < j < s.len() && j != hole ==> s[#[trigger] up(j)].rank() <= s[j].rank()
}

spec fn ordered_below<T: Ranked>(s: Seq<T>, hole: int) -> bool {
    forall|j: int|
        0 < j < s.len() && up(j) != hole ==> s[#[trigger] up(j)].rank() <= s[j].rank()
}

spec fn ordered<T: Ranked>(s: Seq<T>) -> bool {
    forall|j: int| 0 < j < s.len() ==> s[#[trigger] up(j)].rank() <= s[j].rank()
}

spec fn bridged<T: Ranked>(s: Seq<T>, hole: int) -> bool {
    forall|j: int|
        0 < j < s.len() && hole > 0 && #[trigger] up(j) == hole ==> s[up(hole)].rank()
            <= s[j].rank()
}

proof fn lemma_top_least<T: Ranked>(s: Seq<T>, j: int)
    requires
        ordered(s),
        0 <= j < s.len(),
    ensures
        s[0].rank() <= s[j].rank(),
    decreases j,
{
    if j > 0 {
        lemma_top_least(s, up(j));
    }
}

proof fn lemma_update_multiset<T>(s: Seq<T>, i: int, a: T)
    requires
        0 <= i < s.len(),
    ensures
        s.update(i, a).to_multiset() == s.to_multiset().remove(s[i]).insert(a),
{
    assert(s.update(i, a) =~= s.remove(i).insert(i, a));
    vstd::seq_lib::to_multiset_insert(s.remove(i), i, a);
    vstd::seq_lib::to_multiset_remove(s, i);
}

pub proof fn lemma_swap_multiset<T>(s: Seq<T>, a: int, b: int)
    requires
        0 <= a < s.len(),
        0 <= b < s.len(),
        a != b,
    ensures
        s.update(a, s[b]).update(b, s[a]).to_multiset() == s.to_multiset(),
{
    broadcast use vstd::seq_lib::group_to_multiset_ensures;

    lemma_update_multiset(s, a, s[b]);
    lemma_update_multiset(s.update(a, s[b]), b, s[a]);
    assert(s.contains(s[a]));
    assert(s.to_multiset().count(s[a]) > 0);
    assert(s.update(a, s[b]).update(b, s[a]).to_multiset() =~= s.to_multiset());
}

impl<T: Ranked> View for Heap<T> {
    type V = Multiset<T>;

    closed spec fn view(&self) -> Multiset<T> {
        self.items@.to_multiset()
    }
}

impl<T: Ranked> Heap<T> {
    pub closed spec fn wf(&self) -> bool {
        ordered(self.items@)
    }

    pub fn new() -> (h: Self)
        ensures
            h.wf(),
            h@ == Multiset::<T>::empty(),
    {
        let h = Heap { items: Vec::new() };
        assert(h.items@ =~= Seq::<T>::empty());
        proof {
            broadcast use vstd::seq_lib::group_to_multiset_ensures;

            assert(h@.len() == 0);
        }
        h
    }

    pub fn clear(&mut self)
        ensures
            final(self).wf(),
            final(self)@ == Multiset::<T>::empty(),
    {
        self.items.clear();
        proof {
            broadcast use vstd::seq_lib::group_to_multiset_ensures;

            assert(self@.len() == 0);
        }
    }

    pub fn push(&mut self, x: T)
        requires
            old(self).wf(),
        ensures
            final(self).wf(),
            final(self)@ == old(self)@.insert(x),
    {
        let mut at: usize = self.items.len();
        self.items.push(x);
        proof {
            vstd::seq_lib::to_multiset_build(old(self).items@, x);
        }
        let ghost all = self.items@.to_multiset();
        while at > 0
            invariant_except_break
                at < self.items@.len(),
                self.items@.to_multiset() == all,
                ordered_but(self.items@, at as int),
                bridged(self.items@, at as int),
            ensures
                self.items@.to_multiset() == all,
                ordered(self.items@),
            decreases at,
        {
            let p: usize = (at - 1) / 2;
            assert(p == up(at as int));
            let (a, b) = (self.items[at], self.items[p]);
            if !a.before(&b) {
                break;
            }
            let ghost s = self.items@;
            self.items[at] = b;
            self.items[p] = a;
            proof {
                lemma_swap_multiset(s, at as int, p as int);
                let s2 = self.items@;
                assert forall|j: int| 0 < j < s2.len() && j != p implies s2[#[trigger] up(
                    j,
                )].rank() <= s2[j].rank() by {
                    if j != at && up(j) == at as int {
                        assert(s[up(at as int)].rank() <= s[j].rank());
                    } else if j != at {
                        assert(s[up(j)].rank() <= s[j].rank());
                    }
                }
                assert forall|j: int|
                    0 < j < s2.len() && p > 0 && #[trigger] up(j) == p as int implies s2[up(
                    p as int,
                )].rank() <= s2[j].rank() by {
                    assert(s[up(p as int)].rank() <= s[p as int].rank());
                    if j != at {
                        assert(s[up(j)].rank() <= s[j].rank());
                    }
                }
            }
            at = p;
        }
    }

    /// Take out an item of least rank.
    pub fn pop(&mut self) -> (r: Option<T>)
        requires
            old(self).wf(),
        ensures
            final(self).wf(),
            match r {
                None => old(self)@.len() == 0 && final(self)@ == old(self)@,
                Some(x) => {
                    &&& old(self)@.contains(x)
                    &&& final(self)@ == old(self)@.remove(x)
                    &&& final(self)@.len() + 1 == old(self)@.len()
                    &&& forall|y: T| #[trigger] old(self)@.contains(y) ==> x.rank() <= y.rank()
                },
            },
    {
        broadcast use vstd::seq_lib::group_to_multiset_ensures;

        let n: usize = self.items.len();
        if n == 0 {
            return None;
        }
        let ghost s0 = self.items@;
        let top: T = self.items[0];
        let last: T = self.items[n - 1];
        proof {
            assert forall|y: T| #[trigger] self@.contains(y) implies top.rank() <= y.rank() by {
                assert(s0.contains(y));
                let j = choose|j: int| 0 <= j < s0.len() && s0[j] == y;
                lemma_top_least(s0, j);
            }
            assert(s0.contains(s0[0]));
            assert(s0.contains(s0[n - 1]));
        }
        self.items.pop();
        if n == 1 {
            proof {
                assert(self.items@ =~= s0.remove(0));
            }
            return Some(top);
        }
        self.items[0] = last;
        proof {
            let s1 = s0.drop_last();
            assert(s1 =~= s0.remove(n - 1));
            lemma_update_multiset(s1, 0, last);
            assert(self.items@.to_multiset() =~= s0.to_multiset().remove(top));
            let s2 = self.items@;
            assert forall|j: int| 0 < j < s2.len() && up(j) != 0 implies s2[#[trigger] up(j)].rank()
                <= s2[j].rank() by {
                assert(s0[up(j)].rank() <= s0[j].rank());
            }
        }
        let ghost all = self.items@.to_multiset();
        let m: usize = self.items.len();
        let mut at: usize = 0;
        loop
            invariant_except_break
                at < m,
                ordered_below(self.items@, at as int),
                bridged(self.items@, at as int),
            invariant
                m == self.items@.len(),
                self.items@.to_multiset() == all,
            ensures
                ordered(self.items@),
            decreases m - at,
        {
            let ghost s = self.items@;
            let mut best: usize = at;
            if at < m / 2 {
                let l: usize = 2 * at + 1;
                if l < m && self.items[l].before(&self.items[best]) {
                    best = l;
                }
                if l + 1 < m && self.items[l + 1].before(&self.items[best]) {
                    best = l + 1;
                }
            }
            proof {
                assert forall|j: int| 0 < j < m && #[trigger] up(j) == at as int implies s[
                    best as int
                ].rank() <= s[j].rank() by {
                    assert(j == 2 * at + 1 || j == 2 * at + 2);
                }
            }
            if best == at {
                break;
            }
            assert(up(best as int) == at as int);
            let (a, b) = (self.items[at], self.items[best]);
            self.items[at] = b;
            self.items[best] = a;
            proof {
                lemma_swap_multiset(s, at as int, best as int);
                let s2 = self.items@;
                assert forall|j: int|
                    0 < j < s2.len() && up(j) != best as int implies s2[#[trigger] up(j)].rank()
                    <= s2[j].rank() by {
                    if up(j) == at as int {
                        assert(s[best as int].rank() <= s[j].rank());
                    } else if j == at {
                        assert(s[up(at as int)].rank() <= s[best as int].rank());
                    } else {
                        assert(s[up(j)].rank() <= s[j].rank());
                    }
                }
                assert forall|j: int|
                    0 < j < s2.len() && best > 0 && #[trigger] up(j) == best as int implies s2[up(
                    best as int,
                )].rank() <= s2[j].rank() by {
                    assert(s[up(j)].rank() <= s[j].rank());
                }
            }
            at = best;
        }
        Some(top)
    }
}

} // verus!
