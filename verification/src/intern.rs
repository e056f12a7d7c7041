//! Byte strings kept once each, under numbers in the order in which they came.

use vstd::prelude::*;
use std::collections::HashMap;
use crate::bytes::{fnv, fnv_bytes, FNV_START};
use crate::text::bytes_eq;

verus! {

/// A pool of strings laid end to end, and where each begins.
pub struct Pool {
    pub pool: Vec<u8>,
    pub off: Vec<u64>,
    /// The numbers of the strings with a hash.
    pub by_hash: HashMap<u64, Vec<u32>>,
}

pub open spec fn piece(pool: Seq<u8>, off: Seq<u64>, i: int) -> Seq<u8> {
    pool.subrange(off[i] as int, off[i + 1] as int)
}

impl Pool {
    pub open spec fn size(&self) -> int {
        self.off@.len() - 1
    }

    /// String `i`.
    pub open spec fn text(&self, i: int) -> Seq<u8> {
        piece(self.pool@, self.off@, i)
    }

    /// All strings, in order.
    pub open spec fn all(&self) -> Seq<Seq<u8>> {
        Seq::new(self.size() as nat, |i: int| self.text(i))
    }

    pub open spec fn laid_out(&self) -> bool {
        &&& self.off@.len() >= 1
        &&& self.off@.len() <= 0x1_0000_0000
        &&& self.off@[0] == 0
        &&& self.off@[self.size()] == self.pool@.len()
        &&& forall|i: int, j: int|
            0 <= i <= j < self.off@.len() ==> self.off@[i] <= self.off@[j]
    }

    /// The hash of string `i` leads to it.
    pub open spec fn reached(&self, i: int) -> bool {
        let h = fnv(FNV_START, self.text(i));
        self.by_hash@.contains_key(h) && self.by_hash@[h]@.contains(i as u32)
    }

    pub open spec fn wf(&self) -> bool {
        &&& self.laid_out()
        &&& self.all().no_duplicates()
        &&& forall|i: int| 0 <= i < self.size() ==> #[trigger] self.reached(i)
        &&& forall|h: u64, x: int|
            self.by_hash@.contains_key(h) && 0 <= x < self.by_hash@[h]@.len() ==> (
            #[trigger] self.by_hash@[h]@[x]) < self.size()
    }

    pub fn new() -> (r: Pool)
        ensures
            r.wf(),
            r.all() == Seq::<Seq<u8>>::empty(),
    {
        broadcast use vstd::std_specs::hash::group_hash_axioms;

        let mut off: Vec<u64> = Vec::new();
        off.push(0);
        let r = Pool { pool: Vec::new(), off, by_hash: HashMap::new() };
        assert(r.all() =~= Seq::<Seq<u8>>::empty());
        r
    }

    /// How many strings there are.
    pub fn len(&self) -> (n: usize)
        requires
            self.laid_out(),
        ensures
            n == self.size(),
    {
        self.off.len() - 1
    }

    /// The bytes of a string.
    pub fn get(&self, i: u32) -> (r: &[u8])
        requires
            self.laid_out(),
            i < self.size(),
        ensures
            r@ == self.text(i as int),
    {
        assert(self.off@[i as int] <= self.off@[i + 1] <= self.off@[self.size()]);
        let n: usize = self.pool.len();
        assert(self.off@[i + 1] <= n);
        let (a, b): (usize, usize) = (
            self.off[i as usize] as usize,
            self.off[i as usize + 1] as usize,
        );
        vstd::slice::slice_subrange(self.pool.as_slice(), a, b)
    }

    /// The number of a string, if it is there.
    pub fn find(&self, s: &[u8]) -> (r: Option<u32>)
        requires
            self.wf(),
        ensures
            match r {
                Some(i) => i < self.size() && self.text(i as int) == s@,
                None => !self.all().contains(s@),
            },
    {
        broadcast use vstd::std_specs::hash::group_hash_axioms;

        let h: u64 = fnv_bytes(FNV_START, s);
        let ids: &Vec<u32> = match self.by_hash.get(&h) {
            None => {
                proof {
                    if self.all().contains(s@) {
                        let i = self.all().index_of(s@);
                        assert(self.all()[i] == self.text(i));
                        assert(self.reached(i));
                    }
                }
                return None;
            },
            Some(v) => v,
        };
        let mut x: usize = 0;
        while x < ids.len()
            invariant
                self.wf(),
                self.by_hash@.contains_key(h),
                *ids == self.by_hash@[h],
                x <= ids@.len(),
                forall|y: int|
                    0 <= y < x ==> self.text((#[trigger] ids@[y]) as int) != s@,
            decreases ids@.len() - x,
        {
            let i: u32 = ids[x];
            assert(self.by_hash@[h]@[x as int] < self.size());
            if bytes_eq(self.get(i), s) {
                return Some(i);
            }
            x += 1;
        }
        proof {
            if self.all().contains(s@) {
                let i = self.all().index_of(s@);
                assert(self.all()[i] == self.text(i));
                assert(self.reached(i));
                let y = ids@.index_of(i as u32);
                assert(ids@[y] == i);
            }
        }
        None
    }

    /// The number of a string, which is kept if it is new.
    #[verifier::rlimit(40)]
    pub fn intern(&mut self, s: &[u8]) -> (id: u32)
        requires
            old(self).wf(),
            old(self).size() < u32::MAX,
        ensures
            final(self).wf(),
            id < final(self).size(),
            final(self).text(id as int) == s@,
            final(self).all() == (if old(self).all().contains(s@) {
                old(self).all()
            } else {
                old(self).all().push(s@)
            }),
            !old(self).all().contains(s@) ==> id == old(self).size(),
    {
        broadcast use vstd::std_specs::hash::group_hash_axioms;

        match self.find(s) {
            Some(i) => {
                proof {
                    assert(self.all()[i as int] == s@);
                    assert(self.all().contains(s@));
                }
                return i;
            },
            None => {},
        }
        let ghost o = *self;
        let n: usize = self.off.len() - 1;
        let id: u32 = n as u32;
        let mut k: usize = 0;
        assert(o.pool@ + s@.take(0) =~= o.pool@);
        while k < s.len()
            invariant
                k <= s@.len(),
                self.pool@ == o.pool@ + s@.take(k as int),
                self.off == o.off,
                self.by_hash == o.by_hash,
            decreases s@.len() - k,
        {
            self.pool.push(s[k]);
            assert(self.pool@ =~= o.pool@ + s@.take(k + 1));
            k += 1;
        }
        assert(s@.take(k as int) =~= s@);
        self.off.push(self.pool.len() as u64);
        let h: u64 = fnv_bytes(FNV_START, s);
        let mut ids: Vec<u32> = match self.by_hash.remove(&h) {
            Some(v) => v,
            None => Vec::new(),
        };
        let ghost ids0 = ids@;
        ids.push(id);
        self.by_hash.insert(h, ids);
        proof {
            let m = *self;
            assert forall|i: int| 0 <= i < o.size() implies #[trigger] m.text(i) == o.text(i) by {
                assert(o.off@[i] <= o.off@[i + 1] <= o.off@[o.size()]);
                assert(m.text(i) =~= o.text(i));
            }
            assert(m.text(n as int) =~= s@);
            assert(m.all() =~= o.all().push(s@));
            assert(m.by_hash@[h]@ == ids0.push(id));
            assert forall|i: int| 0 <= i < m.size() implies #[trigger] m.reached(i) by {
                if i < n {
                    assert(o.reached(i));
                    let g = fnv(FNV_START, o.text(i));
                    assert(m.text(i) == o.text(i));
                    if g == h {
                        let x = ids0.index_of(i as u32);
                        assert(m.by_hash@[h]@[x] == i as u32);
                    }
                } else {
                    assert(m.by_hash@[h]@[ids0.len() as int] == id);
                }
            }
            assert forall|g: u64, x: int|
                m.by_hash@.contains_key(g) && 0 <= x < m.by_hash@[g]@.len() implies (
            #[trigger] m.by_hash@[g]@[x]) < m.size() by {
                if g == h {
                    if x < ids0.len() {
                        assert(o.by_hash@.contains_key(h));
                        assert(o.by_hash@[h]@[x] < o.size());
                    }
                } else {
                    assert(o.by_hash@[g]@[x] < o.size());
                }
            }
        }
        id
    }
}

} // verus!
