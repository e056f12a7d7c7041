//! A search frontier whose size follows the *state*, not the work.
//!
//! One slot is held per vertex, keyed by an open-addressing table, and the
//! queue stores slot indices: an improved distance moves the existing entry
//! instead of adding another. The queue can therefore never exceed the number
//! of vertices reached, which is the quantity a memory budget is stated
//! against.

use vstd::prelude::*;

verus! {

/// Marks a free table slot, a missing parent and a slot that is not queued.
pub const EMPTY: u32 = u32::MAX;

/// Vertices a frontier may hold: the table numbers its slots by `u32`, doubles
/// when it is seven tenths full, and so never has more than two to the 31st.
pub const MAX_REACHED: usize = 0x5999_9999;

/// What is known of one reached vertex.
pub struct Node {
    pub dist: u32,
    pub prio: u32,
    pub parent: u32,
    pub queued: bool,
}

pub struct SearchState {
    /// Open-addressing table: `keys[i]` is the vertex owning slot `i`.
    keys: Vec<u32>,
    dist: Vec<u32>,
    /// What the queue orders by. Equal to `dist` for a plain Dijkstra; for a
    /// goal-directed search it is `dist + potential`.
    prio: Vec<u32>,
    par: Vec<u32>,
    /// Where slot `i` sits in `heap`, or `EMPTY` when it is not queued.
    hpos: Vec<u32>,
    heap: Vec<u32>,
    mask: usize,
    len: usize,
}

// ------------------------------------------------------------ the table

/// How many slots are taken.
spec fn used(keys: Seq<u32>) -> nat
    decreases keys.len(),
{
    if keys.len() == 0 {
        0
    } else {
        used(keys.drop_last()) + if keys.last() != EMPTY { 1nat } else { 0nat }
    }
}

proof fn lemma_used_update(keys: Seq<u32>, i: int, v: u32)
    requires
        0 <= i < keys.len(),
        keys[i] == EMPTY,
        v != EMPTY,
    ensures
        used(keys.update(i, v)) == used(keys) + 1,
    decreases keys.len(),
{
    let k2 = keys.update(i, v);
    if i == keys.len() - 1 {
        assert(k2.drop_last() =~= keys.drop_last());
    } else {
        lemma_used_update(keys.drop_last(), i, v);
        assert(k2.drop_last() =~= keys.drop_last().update(i, v));
    }
}

proof fn lemma_used_bounds(keys: Seq<u32>)
    ensures
        used(keys) <= keys.len(),
        (forall|i: int| 0 <= i < keys.len() ==> keys[i] != EMPTY) ==> used(keys) == keys.len(),
        (forall|i: int| 0 <= i < keys.len() ==> keys[i] == EMPTY) ==> used(keys) == 0,
    decreases keys.len(),
{
    if keys.len() > 0 {
        let d = keys.drop_last();
        lemma_used_bounds(d);
        assert(forall|i: int| 0 <= i < d.len() ==> d[i] == keys[i]);
        assert(keys.last() == keys[keys.len() - 1]);
    }
}

spec fn has_key(keys: Seq<u32>, v: u32) -> bool {
    v != EMPTY && exists|i: int| 0 <= i < keys.len() && keys[i] == v
}

spec fn distinct(keys: Seq<u32>) -> bool {
    forall|i: int, j: int|
        0 <= i < j < keys.len() && keys[i] != EMPTY ==> #[trigger] keys[i] != #[trigger] keys[j]
}

spec fn key_set(keys: Seq<u32>) -> Set<u32> {
    Set::new(|v: u32| has_key(keys, v))
}

proof fn lemma_key_set_len(keys: Seq<u32>)
    requires
        distinct(keys),
    ensures
        key_set(keys).finite(),
        key_set(keys).len() == used(keys),
    decreases keys.len(),
{
    if keys.len() == 0 {
        assert(key_set(keys) =~= Set::empty());
    } else {
        let d = keys.drop_last();
        let l = keys.last();
        assert(forall|i: int| 0 <= i < d.len() ==> d[i] == keys[i]);
        lemma_key_set_len(d);
        if l == EMPTY {
            assert forall|v: u32| has_key(keys, v) == has_key(d, v) by {
                if has_key(keys, v) {
                    let i = choose|i: int| 0 <= i < keys.len() && keys[i] == v;
                    assert(d[i] == v);
                }
                if has_key(d, v) {
                    let i = choose|i: int| 0 <= i < d.len() && d[i] == v;
                    assert(keys[i] == v);
                }
            }
            assert(key_set(keys) =~= key_set(d));
        } else {
            assert forall|v: u32| has_key(keys, v) == (has_key(d, v) || v == l) by {
                if has_key(keys, v) {
                    let i = choose|i: int| 0 <= i < keys.len() && keys[i] == v;
                    if i < d.len() {
                        assert(d[i] == v);
                    }
                }
                if has_key(d, v) {
                    let i = choose|i: int| 0 <= i < d.len() && d[i] == v;
                    assert(keys[i] == v);
                }
                assert(keys[keys.len() - 1] == l);
            }
            assert(!has_key(d, l)) by {
                if has_key(d, l) {
                    let i = choose|i: int| 0 <= i < d.len() && d[i] == l;
                    assert(keys[i] == keys[keys.len() - 1]);
                }
            }
            assert(key_set(keys) =~= key_set(d).insert(l));
        }
    }
}

/// The slot a vertex hashes to.
spec fn home(v: u32, mask: u64) -> u64 {
    ((v as u64).wrapping_mul(0x9E37_79B9_7F4A_7C15u64) >> 32u64)
        & mask
}

/// The `j`-th slot looked at from `h`.
spec fn step(h: int, j: int, cap: int) -> int {
    if h + j < cap {
        h + j
    } else {
        h + j - cap
    }
}

spec fn pow2_mask(mask: u64) -> bool {
    &&& mask & ((mask + 1) as u64) == 0
    &&& 1023 <= mask <= 0x7fff_ffff
}

/// Every key can be found by walking from its home: no free slot in between.
spec fn reachable_slot(keys: Seq<u32>, mask: u64, i: int, n: int) -> bool {
    &&& 0 <= n < keys.len()
    &&& i == step(home(keys[i], mask) as int, n, keys.len() as int)
    &&& forall|j: int|
        0 <= j < n ==> keys[#[trigger] step(home(keys[i], mask) as int, j, keys.len() as int)]
            != EMPTY
}

spec fn findable(keys: Seq<u32>, mask: u64) -> bool {
    forall|i: int|
        0 <= i < keys.len() && #[trigger] keys[i] != EMPTY ==> exists|n: int|
            reachable_slot(keys, mask, i, n)
}

proof fn lemma_home_bound(v: u32, mask: u64)
    ensures
        home(v, mask) <= mask,
{
    let x = (v as u64).wrapping_mul(0x9E37_79B9_7F4A_7C15u64)
        >> 32u64;
    assert(x & mask <= mask) by (bit_vector);
}

proof fn lemma_next_slot(i: u64, mask: u64)
    requires
        pow2_mask(mask),
        i <= mask,
    ensures
        ((i + 1) as u64) & mask == (if i == mask {
            0
        } else {
            i + 1
        }),
{
    assert(((i + 1) as u64) & mask == (if i == mask {
        0u64
    } else {
        (i + 1) as u64
    })) by (bit_vector)
        requires
            mask & ((mask + 1) as u64) == 0,
            1023 <= mask <= 0x7fff_ffff,
            i <= mask,
    ;
}

proof fn lemma_double_mask(mask: u64)
    requires
        pow2_mask(mask),
        mask < 0x7fff_ffff,
    ensures
        pow2_mask((2 * (mask + 1) - 1) as u64),
{
    let m2 = (2 * (mask + 1) - 1) as u64;
    assert(m2 & ((m2 + 1) as u64) == 0 && m2 <= 0x7fff_ffff) by (bit_vector)
        requires
            m2 == (2 * (mask + 1) - 1) as u64,
            mask & ((mask + 1) as u64) == 0,
            mask < 0x7fff_ffff,
    ;
}

/// Walking from the home of `v` cannot pass it by.
proof fn lemma_absent(keys: Seq<u32>, mask: u64, v: u32, n: int)
    requires
        keys.len() == mask + 1,
        findable(keys, mask),
        v != EMPTY,
        0 <= n < keys.len(),
        keys[step(home(v, mask) as int, n, keys.len() as int)] == EMPTY,
        forall|j: int|
            0 <= j < n ==> keys[#[trigger] step(home(v, mask) as int, j, keys.len() as int)] != v,
    ensures
        !has_key(keys, v),
{
    if has_key(keys, v) {
        let i = choose|i: int| 0 <= i < keys.len() && keys[i] == v;
        assert(keys[i] != EMPTY);
        let m = choose|m: int| reachable_slot(keys, mask, i, m);
        if n < m {
            assert(keys[step(home(keys[i], mask) as int, n, keys.len() as int)] != EMPTY);
        } else if m < n {
            assert(keys[step(home(v, mask) as int, m, keys.len() as int)] != v);
        }
    }
}

/// A free slot found on the walk may take the vertex.
proof fn lemma_place(keys: Seq<u32>, mask: u64, v: u32, n: int)
    requires
        keys.len() == mask + 1,
        findable(keys, mask),
        distinct(keys),
        v != EMPTY,
        !has_key(keys, v),
        0 <= n < keys.len(),
        keys[step(home(v, mask) as int, n, keys.len() as int)] == EMPTY,
        forall|j: int|
            0 <= j < n ==> keys[#[trigger] step(home(v, mask) as int, j, keys.len() as int)]
                != EMPTY,
    ensures
        ({
            let at = step(home(v, mask) as int, n, keys.len() as int);
            let k2 = keys.update(at, v);
            &&& 0 <= at < keys.len()
            &&& findable(k2, mask)
            &&& distinct(k2)
            &&& used(k2) == used(keys) + 1
        }),
{
    let at = step(home(v, mask) as int, n, keys.len() as int);
    lemma_home_bound(v, mask);
    let k2 = keys.update(at, v);
    lemma_used_update(keys, at, v);
    assert forall|i: int| 0 <= i < k2.len() && #[trigger] k2[i] != EMPTY implies exists|m: int|
        reachable_slot(k2, mask, i, m) by {
        if i == at {
            assert(reachable_slot(k2, mask, i, n));
        } else {
            assert(keys[i] != EMPTY);
            let m = choose|m: int| reachable_slot(keys, mask, i, m);
            assert forall|j: int| 0 <= j < m implies k2[#[trigger] step(
                home(k2[i], mask) as int,
                j,
                k2.len() as int,
            )] != EMPTY by {
                assert(keys[step(home(keys[i], mask) as int, j, keys.len() as int)] != EMPTY);
            }
            assert(reachable_slot(k2, mask, i, m));
        }
    }
    assert forall|i: int, j: int| 0 <= i < j < k2.len() && k2[i] != EMPTY implies #[trigger] k2[i]
        != #[trigger] k2[j] by {
        if i == at {
            assert(keys[j] != v);
        } else if j == at {
            assert(keys[i] != v);
        } else {
            assert(keys[i] != keys[j]);
        }
    }
}

// ------------------------------------------------------------ the queue

/// Table and queue agree on who is queued and where.
spec fn linked(keys: Seq<u32>, hpos: Seq<u32>, heap: Seq<u32>) -> bool {
    &&& hpos.len() == keys.len()
    &&& heap.len() <= keys.len()
    &&& forall|j: int|
        0 <= j < heap.len() ==> (#[trigger] heap[j]) < keys.len() && keys[heap[j] as int] != EMPTY
            && hpos[heap[j] as int] == j
    &&& forall|i: int|
        0 <= i < keys.len() && #[trigger] hpos[i] != EMPTY ==> hpos[i] < heap.len()
            && heap[hpos[i] as int] == i
}

spec fn hkey(prio: Seq<u32>, heap: Seq<u32>, j: int) -> u32 {
    prio[heap[j] as int]
}

spec fn parent(j: int) -> int {
    (j - 1) / 2
}

/// The queue is a binary heap by priority, but for the pair `(parent(hole), hole)`.
spec fn heaped_but(prio: Seq<u32>, heap: Seq<u32>, hole: int) -> bool {
    forall|j: int|
        0 < j < heap.len() && j != hole ==> #[trigger] hkey(prio, heap, parent(j)) <= hkey(
            prio,
            heap,
            j,
        )
}

spec fn heaped(prio: Seq<u32>, heap: Seq<u32>) -> bool {
    forall|j: int|
        0 < j < heap.len() ==> #[trigger] hkey(prio, heap, parent(j)) <= hkey(prio, heap, j)
}

proof fn lemma_root_least(prio: Seq<u32>, heap: Seq<u32>, j: int)
    requires
        heaped(prio, heap),
        0 <= j < heap.len(),
    ensures
        hkey(prio, heap, 0) <= hkey(prio, heap, j),
    decreases j,
{
    if j > 0 {
        lemma_root_least(prio, heap, parent(j));
        assert(hkey(prio, heap, parent(j)) <= hkey(prio, heap, j));
    }
}

/// As `heaped_but`, for a hole that may be too large for its children.
spec fn heaped_below(prio: Seq<u32>, heap: Seq<u32>, hole: int) -> bool {
    forall|j: int|
        0 < j < heap.len() && parent(j) != hole ==> #[trigger] hkey(prio, heap, parent(j)) <= hkey(
            prio,
            heap,
            j,
        )
}

/// Whatever hangs below `hole` is no smaller than what stands above it.
spec fn spans(prio: Seq<u32>, heap: Seq<u32>, hole: int) -> bool {
    forall|j: int|
        0 < j < heap.len() && hole > 0 && #[trigger] parent(j) == hole ==> hkey(
            prio,
            heap,
            parent(hole),
        ) <= hkey(prio, heap, j)
}

spec fn slot_of(keys: Seq<u32>, v: u32) -> int {
    choose|i: int| 0 <= i < keys.len() && keys[i] == v
}

proof fn lemma_slot_of(keys: Seq<u32>, i: int)
    requires
        distinct(keys),
        0 <= i < keys.len(),
        keys[i] != EMPTY,
    ensures
        has_key(keys, keys[i]),
        slot_of(keys, keys[i]) == i,
{
    let s = slot_of(keys, keys[i]);
    assert(0 <= s < keys.len() && keys[s] == keys[i]);
    if s < i {
        assert(keys[s] != keys[i]);
    } else if i < s {
        assert(keys[i] != keys[s]);
    }
}

/// The walk for `v` stops at slot `i`, its own or the first free one.
spec fn stops_at(keys: Seq<u32>, mask: u64, v: u32, i: int) -> bool {
    &&& 0 <= i < keys.len()
    &&& keys[i] == EMPTY || keys[i] == v
    &&& exists|n: int|
        0 <= n < keys.len() && i == #[trigger] step(home(v, mask) as int, n, keys.len() as int)
            && forall|j: int|
            0 <= j < n ==> keys[#[trigger] step(home(v, mask) as int, j, keys.len() as int)]
                != EMPTY && keys[step(home(v, mask) as int, j, keys.len() as int)] != v
}

proof fn lemma_stop(keys: Seq<u32>, mask: u64, v: u32, i: int)
    requires
        keys.len() == mask + 1,
        findable(keys, mask),
        distinct(keys),
        v != EMPTY,
        stops_at(keys, mask, v, i),
    ensures
        has_key(keys, v) <==> keys[i] == v,
        keys[i] == EMPTY ==> findable(keys.update(i, v), mask) && distinct(keys.update(i, v))
            && used(keys.update(i, v)) == used(keys) + 1,
{
    let n = choose|n: int|
        0 <= n < keys.len() && i == #[trigger] step(home(v, mask) as int, n, keys.len() as int)
            && forall|j: int|
            0 <= j < n ==> keys[#[trigger] step(home(v, mask) as int, j, keys.len() as int)]
                != EMPTY && keys[step(home(v, mask) as int, j, keys.len() as int)] != v;
    if keys[i] == EMPTY {
        lemma_absent(keys, mask, v, n);
        lemma_place(keys, mask, v, n);
    }
}

/// `Vec::capacity`: how many entries the allocation holds. The documentation
/// promises that it is at least the length and that an allocation never
/// exceeds `isize::MAX` bytes; how much slack the allocator gave is left open.
#[verifier::external_body]
fn room(v: &Vec<u32>) -> (r: usize)
    ensures
        r >= v@.len(),
        r * 4 <= isize::MAX,
{
    v.capacity()
}

/// The bytes of a table of `slots` and a queue with room for `cap`: twenty for
/// each slot and four for each place, as far as a number can hold them.
pub open spec fn held(slots: nat, cap: usize) -> usize {
    if 20 * slots + 4 * cap > usize::MAX {
        usize::MAX
    } else {
        (20 * slots + 4 * cap) as usize
    }
}

pub fn hold(slots: usize, cap: usize) -> (r: usize)
    ensures
        r == held(slots as nat, cap),
{
    let b: u128 = slots as u128 * 20 + cap as u128 * 4;
    if b > usize::MAX as u128 {
        usize::MAX
    } else {
        b as usize
    }
}

fn probe_from(keys: &Vec<u32>, mask: usize, v: u32) -> (r: usize)
    requires
        pow2_mask(mask as u64),
        keys@.len() == mask + 1,
        used(keys@) < keys@.len(),
        v != EMPTY,
    ensures
        stops_at(keys@, mask as u64, v, r as int),
{
    proof {
        lemma_home_bound(v, mask as u64);
    }
    // Fibonacci hashing: cheap and well spread for dense integer ids.
    let m: u64 = mask as u64;
    let mut i: usize = (((v as u64).wrapping_mul(0x9E37_79B9_7F4A_7C15) >> 32) & m) as usize;
    let ghost mut n: int = 0;
    let ghost h: int = home(v, m) as int;
    let ghost cap: int = keys@.len() as int;
    loop
        invariant
            pow2_mask(m),
            m == mask,
            cap == keys@.len() == mask + 1,
            used(keys@) < keys@.len(),
            h == home(v, m),
            0 <= h < cap,
            0 <= n < cap,
            i < cap,
            i == step(h, n, cap),
            forall|j: int| 0 <= j < n ==> keys@[#[trigger] step(h, j, cap)] != EMPTY && keys@[step(
                h,
                j,
                cap,
            )] != v,
        decreases cap - n,
    {
        let k: u32 = keys[i];
        if k == EMPTY || k == v {
            return i;
        }
        proof {
            lemma_next_slot(i as u64, m);
            if n + 1 == cap {
                assert forall|x: int| 0 <= x < cap implies keys@[x] != EMPTY by {
                    let j: int = if x >= h {
                        x - h
                    } else {
                        x + cap - h
                    };
                    assert(step(h, j, cap) == x);
                }
                lemma_used_bounds(keys@);
            }
            n = n + 1;
        }
        i = (((i as u64) + 1) & m) as usize;
    }
}

impl View for SearchState {
    type V = Map<u32, Node>;

    /// What is known of each reached vertex.
    closed spec fn view(&self) -> Map<u32, Node> {
        Map::new(
            |v: u32| has_key(self.keys@, v),
            |v: u32| self.node(slot_of(self.keys@, v)),
        )
    }
}

impl SearchState {
    spec fn node(&self, i: int) -> Node {
        Node {
            dist: self.dist@[i],
            prio: self.prio@[i],
            parent: self.par@[i],
            queued: self.hpos@[i] != EMPTY,
        }
    }

    /// Table and queue are consistent.
    pub closed spec fn wf(&self) -> bool {
        &&& self.shaped()
        &&& linked(self.keys@, self.hpos@, self.heap@)
        &&& heaped(self.prio@, self.heap@)
    }

    spec fn shaped(&self) -> bool {
        &&& pow2_mask(self.mask as u64)
        &&& self.keys@.len() == self.mask + 1
        &&& self.dist@.len() == self.mask + 1
        &&& self.prio@.len() == self.mask + 1
        &&& self.par@.len() == self.mask + 1
        &&& distinct(self.keys@)
        &&& findable(self.keys@, self.mask as u64)
        &&& used(self.keys@) == self.len
        &&& self.len * 10 <= (self.mask + 1) * 7
    }

    /// Table slots allocated.
    pub closed spec fn slots(&self) -> nat {
        self.keys@.len()
    }

    /// The queued vertices, in the order the queue holds them.
    pub closed spec fn order(&self) -> Seq<u32> {
        Seq::new(self.heap@.len(), |j: int| self.keys@[self.heap@[j] as int])
    }

    /// Who is queued, and that the first in line has the least priority.
    pub proof fn lemma_order(&self)
        requires
            self.wf(),
        ensures
            self.order().no_duplicates(),
            forall|v: u32|
                #![trigger self.order().contains(v)]
                self.order().contains(v) <==> self@.contains_key(v) && self@[v].queued,
            forall|j: int|
                0 <= j < self.order().len() ==> self@[self.order()[0]].prio <= self@[
                    #[trigger] self.order()[j]
                ].prio,
            self@.dom().finite(),
            self.order().len() <= self@.dom().len(),
    {
        let o = self.order();
        assert forall|j: int| 0 <= j < o.len() implies self@.contains_key(#[trigger] o[j])
            && self@[o[j]].queued && self@[o[j]].prio == hkey(self.prio@, self.heap@, j) by {
            lemma_slot_of(self.keys@, self.heap@[j] as int);
        }
        assert forall|j: int| 0 <= j < o.len() implies self@[o[0]].prio <= self@[
            #[trigger] o[j]
        ].prio by {
            lemma_root_least(self.prio@, self.heap@, j);
            assert(self@[o[0]].prio == hkey(self.prio@, self.heap@, 0));
        }
        assert forall|a: int, b: int| 0 <= a < b < o.len() implies o[a] != o[b] by {
            let (x, y) = (self.heap@[a] as int, self.heap@[b] as int);
            assert(self.hpos@[x] == a && self.hpos@[y] == b);
            if x < y {
                assert(self.keys@[x] != self.keys@[y]);
            } else {
                assert(self.keys@[y] != self.keys@[x]);
            }
        }
        assert(o.no_duplicates());
        assert forall|v: u32|
            #![trigger o.contains(v)]
            o.contains(v) <==> self@.contains_key(v) && self@[v].queued by {
            if self@.contains_key(v) && self@[v].queued {
                let i = slot_of(self.keys@, v);
                assert(self.hpos@[i] != EMPTY);
                assert(o[self.hpos@[i] as int] == v);
            }
        }
        lemma_key_set_len(self.keys@);
        assert(self@.dom() =~= key_set(self.keys@));
        o.unique_seq_to_set();
        assert(o.to_set().subset_of(self@.dom())) by {
            assert forall|v: u32| o.to_set().contains(v) implies self@.dom().contains(v) by {
                assert(o.contains(v));
            }
        }
        vstd::set_lib::lemma_len_subset(o.to_set(), self@.dom());
    }

    pub fn new() -> (s: SearchState)
        ensures
            s.wf(),
            s@ == Map::<u32, Node>::empty(),
            s.slots() == 1024,
    {
        let cap: usize = 1024;
        let s = SearchState {
            keys: vec![EMPTY; cap],
            dist: vec![0; cap],
            prio: vec![0; cap],
            par: vec![EMPTY; cap],
            hpos: vec![EMPTY; cap],
            heap: Vec::new(),
            mask: cap - 1,
            len: 0,
        };
        proof {
            lemma_used_bounds(s.keys@);
            assert(1023u64 & ((1023u64 + 1) as u64) == 0) by (bit_vector);
            assert(s@ =~= Map::<u32, Node>::empty());
        }
        s
    }

    /// Forget every vertex; the table keeps the size it grew to.
    pub fn clear(&mut self)
        requires
            old(self).wf(),
        ensures
            final(self).wf(),
            final(self)@ == Map::<u32, Node>::empty(),
            final(self).slots() == old(self).slots(),
    {
        let cap: usize = self.keys.len();
        self.keys = vec![EMPTY; cap];
        self.hpos = vec![EMPTY; cap];
        self.heap.clear();
        self.len = 0;
        proof {
            lemma_used_bounds(self.keys@);
            assert(self@ =~= Map::<u32, Node>::empty());
        }
    }

    /// How many vertices have been reached.
    pub fn reached(&self) -> (r: usize)
        requires
            self.wf(),
        ensures
            self@.dom().finite(),
            r == self@.dom().len(),
    {
        proof {
            lemma_key_set_len(self.keys@);
            assert(self@.dom() =~= key_set(self.keys@));
        }
        self.len
    }

    fn probe(&self, v: u32) -> (r: usize)
        requires
            self.shaped(),
            v != EMPTY,
        ensures
            stops_at(self.keys@, self.mask as u64, v, r as int),
            self@.contains_key(v) <==> self.keys@[r as int] == v,
            self@.contains_key(v) ==> self@[v] == self.node(r as int),
    {
        let r: usize = probe_from(&self.keys, self.mask, v);
        proof {
            lemma_stop(self.keys@, self.mask as u64, v, r as int);
            if self.keys@[r as int] == v {
                lemma_slot_of(self.keys@, r as int);
            }
        }
        r
    }

    pub fn dist_of(&self, v: u32) -> (r: Option<u32>)
        requires
            self.wf(),
            v != EMPTY,
        ensures
            r == (if self@.contains_key(v) {
                Some(self@[v].dist)
            } else {
                None
            }),
    {
        let i: usize = self.probe(v);
        if self.keys[i] == v {
            Some(self.dist[i])
        } else {
            None
        }
    }

    pub fn parent_of(&self, v: u32) -> (r: Option<u32>)
        requires
            self.wf(),
            v != EMPTY,
        ensures
            r == (if self@.contains_key(v) && self@[v].parent != EMPTY {
                Some(self@[v].parent)
            } else {
                None
            }),
    {
        let i: usize = self.probe(v);
        if self.keys[i] == v && self.par[i] != EMPTY {
            Some(self.par[i])
        } else {
            None
        }
    }

    /// The smallest priority in the queue — the figure a termination rule
    /// compares, which under a potential is not a distance.
    pub fn peek(&self) -> (r: Option<u32>)
        requires
            self.wf(),
        ensures
            r == (if self.order().len() > 0 {
                Some(self@[self.order()[0]].prio)
            } else {
                None
            }),
    {
        if self.heap.len() == 0 {
            None
        } else {
            let s: u32 = self.heap[0];
            proof {
                lemma_slot_of(self.keys@, s as int);
            }
            Some(self.prio[s as usize])
        }
    }

    /// The distance of the cheapest queued vertex.
    pub fn peek_dist(&self) -> (r: Option<u32>)
        requires
            self.wf(),
        ensures
            r == (if self.order().len() > 0 {
                Some(self@[self.order()[0]].dist)
            } else {
                None
            }),
    {
        if self.heap.len() == 0 {
            None
        } else {
            let s: u32 = self.heap[0];
            proof {
                lemma_slot_of(self.keys@, s as int);
            }
            Some(self.dist[s as usize])
        }
    }

    /// Vertices near the top of the queue, cheapest first-ish.
    ///
    /// A binary heap only promises its root, so the first `n` slots are not
    /// the `n` cheapest, but they are all shallow.
    pub fn peek_many(&self, n: usize, out: &mut Vec<u32>)
        requires
            self.wf(),
        ensures
            final(out)@ == self.order().take(if n < self.order().len() {
                n as int
            } else {
                self.order().len() as int
            }),
    {
        out.clear();
        let m: usize = if n < self.heap.len() {
            n
        } else {
            self.heap.len()
        };
        let mut j: usize = 0;
        while j < m
            invariant
                self.wf(),
                j <= m <= self.heap@.len(),
                out@ == self.order().take(j as int),
            decreases m - j,
        {
            out.push(self.keys[self.heap[j] as usize]);
            j += 1;
            assert(out@ =~= self.order().take(j as int));
        }
    }

    /// What the table takes, with a queue that has room for `cap`.
    pub open spec fn takes(&self, cap: usize, r: usize) -> bool {
        &&& self.order().len() <= cap
        &&& 4 * cap <= isize::MAX
        &&& r == held(self.slots(), cap)
    }

    /// Bytes the structure currently occupies — what a memory budget is
    /// stated against: twenty for each table slot, and the queue's allocation.
    pub fn bytes(&self) -> (r: usize)
        requires
            self.wf(),
        ensures
            exists|cap: usize| #[trigger] self.takes(cap, r),
    {
        let cap: usize = room(&self.heap);
        let r: usize = hold(self.keys.len(), cap);
        assert(self.takes(cap, r));
        r
    }
}

impl SearchState {
    /// Everything but the arrangement of the queue is as it was.
    spec fn rearranged(&self, before: &SearchState) -> bool {
        &&& self.keys@ == before.keys@
        &&& self.dist@ == before.dist@
        &&& self.prio@ == before.prio@
        &&& self.par@ == before.par@
        &&& self.mask == before.mask
        &&& self.len == before.len
        &&& self.heap@.len() == before.heap@.len()
        &&& linked(self.keys@, self.hpos@, self.heap@)
        &&& forall|i: int|
            0 <= i < self.keys@.len() ==> (#[trigger] self.hpos@[i] == EMPTY) == (before.hpos@[i]
                == EMPTY)
    }

    fn key(&self, at: usize) -> (k: u32)
        requires
            at < self.heap@.len(),
            linked(self.keys@, self.hpos@, self.heap@),
            self.prio@.len() == self.keys@.len(),
        ensures
            k == hkey(self.prio@, self.heap@, at as int),
    {
        self.prio[self.heap[at] as usize]
    }

    fn swap(&mut self, a: usize, b: usize)
        requires
            a < old(self).heap@.len(),
            b < old(self).heap@.len(),
            a != b,
            old(self).keys@.len() <= 0x8000_0000,
            linked(old(self).keys@, old(self).hpos@, old(self).heap@),
        ensures
            final(self).rearranged(old(self)),
            final(self).heap@ == old(self).heap@.update(a as int, old(self).heap@[b as int]).update(
                b as int,
                old(self).heap@[a as int],
            ),
    {
        let x: u32 = self.heap[a];
        let y: u32 = self.heap[b];
        proof {
            assert(self.hpos@[x as int] == a);
            assert(self.hpos@[y as int] == b);
        }
        self.heap[a] = y;
        self.heap[b] = x;
        self.hpos[y as usize] = a as u32;
        self.hpos[x as usize] = b as u32;
        proof {
            let (hp, h) = (old(self).hpos@, old(self).heap@);
            assert forall|j: int| 0 <= j < self.heap@.len() implies (#[trigger] self.heap@[j])
                < self.keys@.len() && self.keys@[self.heap@[j] as int] != EMPTY
                && self.hpos@[self.heap@[j] as int] == j by {
                assert(hp[h[j] as int] == j);
            }
            assert forall|i: int|
                0 <= i < self.keys@.len() && #[trigger] self.hpos@[i] != EMPTY implies self.hpos@[i]
                < self.heap@.len() && self.heap@[self.hpos@[i] as int] == i by {
                if i != x && i != y {
                    assert(hp[i] != EMPTY);
                    assert(h[hp[i] as int] == i);
                }
            }
        }
    }

    fn sift_up(&mut self, start: usize)
        requires
            start < old(self).heap@.len(),
            old(self).keys@.len() <= 0x8000_0000,
            old(self).prio@.len() == old(self).keys@.len(),
            linked(old(self).keys@, old(self).hpos@, old(self).heap@),
            heaped_but(old(self).prio@, old(self).heap@, start as int),
            spans(old(self).prio@, old(self).heap@, start as int),
        ensures
            final(self).rearranged(old(self)),
            heaped(final(self).prio@, final(self).heap@),
    {
        let mut at: usize = start;
        while at > 0
            invariant_except_break
                at < self.heap@.len(),
                self.keys@.len() <= 0x8000_0000,
                self.prio@.len() == self.keys@.len(),
                self.rearranged(old(self)),
                heaped_but(self.prio@, self.heap@, at as int),
                spans(self.prio@, self.heap@, at as int),
            ensures
                self.rearranged(old(self)),
                heaped(self.prio@, self.heap@),
            decreases at,
        {
            let up: usize = (at - 1) / 2;
            assert(up == parent(at as int));
            if self.key(up) <= self.key(at) {
                proof {
                    assert forall|j: int| 0 < j < self.heap@.len() implies #[trigger] hkey(
                        self.prio@,
                        self.heap@,
                        parent(j),
                    ) <= hkey(self.prio@, self.heap@, j) by {}
                }
                break;
            }
            let ghost h = self.heap@;
            let ghost p = self.prio@;
            self.swap(up, at);
            proof {
                let h2 = self.heap@;
                assert forall|j: int| 0 < j < h2.len() && j != up implies #[trigger] hkey(
                    p,
                    h2,
                    parent(j),
                ) <= hkey(p, h2, j) by {
                    if j == at {
                    } else if parent(j) == at as int {
                        assert(hkey(p, h, parent(at as int)) <= hkey(p, h, j));
                    } else if parent(j) == up as int {
                        assert(hkey(p, h, parent(j)) <= hkey(p, h, j));
                    } else {
                        assert(hkey(p, h, parent(j)) <= hkey(p, h, j));
                    }
                }
                assert forall|j: int|
                    0 < j < h2.len() && up > 0 && #[trigger] parent(j) == up as int implies hkey(
                    p,
                    h2,
                    parent(up as int),
                ) <= hkey(p, h2, j) by {
                    assert(hkey(p, h, parent(up as int)) <= hkey(p, h, up as int));
                    if j != at {
                        assert(hkey(p, h, parent(j)) <= hkey(p, h, j));
                    }
                }
            }
            at = up;
        }
    }

    fn sift_down(&mut self, start: usize)
        requires
            start < old(self).heap@.len(),
            old(self).keys@.len() <= 0x8000_0000,
            old(self).prio@.len() == old(self).keys@.len(),
            linked(old(self).keys@, old(self).hpos@, old(self).heap@),
            heaped_below(old(self).prio@, old(self).heap@, start as int),
            spans(old(self).prio@, old(self).heap@, start as int),
        ensures
            final(self).rearranged(old(self)),
            heaped(final(self).prio@, final(self).heap@),
    {
        let n: usize = self.heap.len();
        let mut at: usize = start;
        loop
            invariant
                at < n == self.heap@.len(),
                n <= self.keys@.len() <= 0x8000_0000,
                self.prio@.len() == self.keys@.len(),
                self.rearranged(old(self)),
                heaped_below(self.prio@, self.heap@, at as int),
                spans(self.prio@, self.heap@, at as int),
            decreases n - at,
        {
            let ghost h = self.heap@;
            let ghost p = self.prio@;
            let mut best: usize = at;
            if at < n / 2 {
                let l: usize = 2 * at + 1;
                if l < n && self.key(l) < self.key(best) {
                    best = l;
                }
                if l + 1 < n && self.key(l + 1) < self.key(best) {
                    best = l + 1;
                }
            }
            proof {
                assert forall|j: int| 0 < j < n && #[trigger] parent(j) == at as int implies hkey(
                    p,
                    h,
                    best as int,
                ) <= hkey(p, h, j) by {
                    assert(j == 2 * at + 1 || j == 2 * at + 2);
                }
            }
            if best == at {
                proof {
                    assert forall|j: int| 0 < j < h.len() implies #[trigger] hkey(p, h, parent(j))
                        <= hkey(p, h, j) by {
                        if parent(j) == at as int {
                        }
                    }
                }
                return;
            }
            assert(parent(best as int) == at as int);
            self.swap(best, at);
            proof {
                let h2 = self.heap@;
                assert forall|j: int|
                    0 < j < h2.len() && parent(j) != best as int implies #[trigger] hkey(
                    p,
                    h2,
                    parent(j),
                ) <= hkey(p, h2, j) by {
                    if parent(j) == at as int {
                        assert(hkey(p, h, best as int) <= hkey(p, h, j));
                    } else if j == at {
                        assert(hkey(p, h, parent(at as int)) <= hkey(p, h, best as int));
                    } else {
                        assert(hkey(p, h, parent(j)) <= hkey(p, h, j));
                    }
                }
                assert forall|j: int|
                    0 < j < h2.len() && best > 0 && #[trigger] parent(j) == best as int implies hkey(
                    p,
                    h2,
                    parent(best as int),
                ) <= hkey(p, h2, j) by {
                    assert(hkey(p, h, parent(j)) <= hkey(p, h, j));
                }
            }
            at = best;
        }
    }

    /// Remove and return the cheapest `(vertex, distance)`.
    pub fn pop(&mut self) -> (r: Option<(u32, u32)>)
        requires
            old(self).wf(),
        ensures
            final(self).wf(),
            final(self).slots() == old(self).slots(),
            match r {
                None => old(self).order().len() == 0 && final(self)@ == old(self)@,
                Some((v, d)) => {
                    &&& old(self).order().len() > 0
                    &&& v == old(self).order()[0]
                    &&& v != EMPTY
                    &&& old(self)@.contains_key(v)
                    &&& d == old(self)@[v].dist
                    &&& final(self)@ == old(self)@.insert(
                        v,
                        (Node { queued: false, ..old(self)@[v] }),
                    )
                },
            },
    {
        if self.heap.len() == 0 {
            return None;
        }
        let ghost before = *self;
        let top: u32 = self.heap[0];
        let n: usize = self.heap.len();
        let last: u32 = self.heap[n - 1];
        let (v, d): (u32, u32) = (self.keys[top as usize], self.dist[top as usize]);
        proof {
            lemma_slot_of(self.keys@, top as int);
            assert(self.hpos@[top as int] == 0);
            assert(self.hpos@[last as int] == n - 1);
        }
        self.heap.pop();
        self.hpos[top as usize] = EMPTY;
        if n > 1 {
            assert(last != top);
            self.heap[0] = last;
            self.hpos[last as usize] = 0;
            proof {
                let h = before.heap@;
                let h2 = self.heap@;
                let p = self.prio@;
                assert forall|j: int| 0 <= j < h2.len() implies (#[trigger] h2[j])
                    < self.keys@.len() && self.keys@[h2[j] as int] != EMPTY
                    && self.hpos@[h2[j] as int] == j by {
                    if j > 0 {
                        assert(h2[j] == h[j]);
                        assert(before.hpos@[h[j] as int] == j);
                    } else {
                        assert(h[n - 1] == last);
                    }
                }
                assert forall|i: int|
                    0 <= i < self.keys@.len() && #[trigger] self.hpos@[i]
                        != EMPTY implies self.hpos@[i] < h2.len() && h2[self.hpos@[i] as int]
                    == i by {
                    if i != last {
                        assert(before.hpos@[i] != EMPTY);
                        assert(h[before.hpos@[i] as int] == i);
                    }
                }
                assert forall|j: int| 0 < j < h2.len() && parent(j) != 0 implies #[trigger] hkey(
                    p,
                    h2,
                    parent(j),
                ) <= hkey(p, h2, j) by {
                    assert(hkey(p, h, parent(j)) <= hkey(p, h, j));
                }
            }
            self.sift_down(0);
        } else {
            proof {
                assert forall|i: int|
                    0 <= i < self.keys@.len() implies #[trigger] self.hpos@[i] == EMPTY by {
                    if before.hpos@[i] != EMPTY {
                        assert(before.heap@[before.hpos@[i] as int] == i);
                    }
                }
            }
        }
        proof {
            let after = before@.insert(v, Node { queued: false, ..before@[v] });
            assert forall|x: u32| self@.contains_key(x) implies self@[x] == after[x] by {
                let i = slot_of(self.keys@, x);
                assert(0 <= i < self.keys@.len());
                if x != v {
                    assert(i != top);
                    assert((self.hpos@[i] == EMPTY) == (before.hpos@[i] == EMPTY));
                }
            }
            assert(self@ =~= after);
        }
        Some((v, d))
    }
}

/// Slot `t` of the new table holds what slot `j` of the old one held.
spec fn moved(old: SearchState, new: SearchState, j: int, t: int) -> bool {
    &&& 0 <= t < new.keys@.len()
    &&& new.keys@[t] == old.keys@[j]
    &&& new.dist@[t] == old.dist@[j]
    &&& new.prio@[t] == old.prio@[j]
    &&& new.par@[t] == old.par@[j]
    &&& new.hpos@[t] == old.hpos@[j]
}

proof fn lemma_used_take(keys: Seq<u32>, i: int)
    requires
        0 <= i < keys.len(),
    ensures
        used(keys.take(i + 1)) == used(keys.take(i)) + (if keys[i] != EMPTY {
            1nat
        } else {
            0nat
        }),
{
    assert(keys.take(i + 1).drop_last() =~= keys.take(i));
}

impl SearchState {
    /// Double the table.
    fn grow(&mut self)
        requires
            old(self).wf(),
            old(self).mask < 0x7fff_ffff,
        ensures
            final(self).wf(),
            final(self)@ == old(self)@,
            final(self).slots() == 2 * old(self).slots(),
            final(self).len == old(self).len,
            final(self).mask == 2 * old(self).mask + 1,
    {
        let ghost before = *self;
        let n: usize = self.keys.len();
        let cap: usize = (self.mask + 1) * 2;
        let mut old_keys: Vec<u32> = vec![EMPTY; cap];
        std::mem::swap(&mut self.keys, &mut old_keys);
        let mut old_dist: Vec<u32> = vec![0; cap];
        std::mem::swap(&mut self.dist, &mut old_dist);
        let mut old_prio: Vec<u32> = vec![0; cap];
        std::mem::swap(&mut self.prio, &mut old_prio);
        let mut old_par: Vec<u32> = vec![EMPTY; cap];
        std::mem::swap(&mut self.par, &mut old_par);
        let mut old_hpos: Vec<u32> = vec![EMPTY; cap];
        std::mem::swap(&mut self.hpos, &mut old_hpos);
        proof {
            lemma_double_mask(self.mask as u64);
            lemma_used_bounds(self.keys@);
            lemma_used_bounds(before.keys@.take(0));
        }
        self.mask = cap - 1;
        let mut remap: Vec<u32> = vec![EMPTY; n];
        let mut i: usize = 0;
        while i < n
            invariant
                before.wf(),
                old_keys@ == before.keys@,
                old_dist@ == before.dist@,
                old_prio@ == before.prio@,
                old_par@ == before.par@,
                old_hpos@ == before.hpos@,
                n == before.keys@.len() == before.mask + 1,
                cap == 2 * n,
                cap <= 0x8000_0000,
                self.mask == cap - 1,
                pow2_mask(self.mask as u64),
                self.heap@ == before.heap@,
                self.len == before.len,
                self.keys@.len() == cap,
                self.dist@.len() == cap,
                self.prio@.len() == cap,
                self.par@.len() == cap,
                self.hpos@.len() == cap,
                remap@.len() == n,
                i <= n,
                distinct(self.keys@),
                findable(self.keys@, self.mask as u64),
                used(self.keys@) == used(before.keys@.take(i as int)),
                used(self.keys@) <= i,
                forall|j: int|
                    0 <= j < i && #[trigger] before.keys@[j] != EMPTY ==> moved(
                        before,
                        *self,
                        j,
                        remap@[j] as int,
                    ),
                forall|t: int|
                    0 <= t < cap && #[trigger] self.keys@[t] != EMPTY ==> exists|j: int|
                        0 <= j < i && before.keys@[j] != EMPTY && #[trigger] remap@[j] == t,
                forall|t: int|
                    0 <= t < cap && #[trigger] self.keys@[t] == EMPTY ==> self.hpos@[t] == EMPTY,
            decreases n - i,
        {
            let k: u32 = old_keys[i];
            proof {
                lemma_used_take(before.keys@, i as int);
            }
            if k != EMPTY {
                let t: usize = probe_from(&self.keys, self.mask, k);
                let ghost keys1 = self.keys@;
                let ghost mid = *self;
                let ghost remap1 = remap@;
                proof {
                    lemma_stop(keys1, self.mask as u64, k, t as int);
                    if has_key(keys1, k) {
                        let s = choose|s: int| 0 <= s < keys1.len() && keys1[s] == k;
                        assert(keys1[s] != EMPTY);
                        let j = choose|j: int|
                            0 <= j < i && before.keys@[j] != EMPTY && #[trigger] remap@[j] == s;
                        assert(moved(before, *self, j, remap@[j] as int));
                        assert(before.keys@[j] != before.keys@[i as int]);
                    }
                }
                self.keys[t] = k;
                self.dist[t] = old_dist[i];
                self.prio[t] = old_prio[i];
                self.par[t] = old_par[i];
                self.hpos[t] = old_hpos[i];
                remap[i] = t as u32;
                proof {
                    assert forall|j: int|
                        0 <= j < i + 1 && #[trigger] before.keys@[j] != EMPTY implies moved(
                        before,
                        *self,
                        j,
                        remap@[j] as int,
                    ) by {
                        if j < i {
                            assert(moved(before, mid, j, remap1[j] as int));
                            assert(remap@[j] != t);
                        }
                    }
                    assert forall|s: int|
                        0 <= s < cap && #[trigger] self.keys@[s] != EMPTY implies exists|j: int|
                        0 <= j < i + 1 && before.keys@[j] != EMPTY && #[trigger] remap@[j] == s by {
                        if s == t {
                            assert(remap@[i as int] == s);
                        } else {
                            assert(keys1[s] != EMPTY);
                            let j = choose|j: int|
                                0 <= j < i && before.keys@[j] != EMPTY && #[trigger] remap1[j] == s;
                            assert(remap@[j] == s);
                        }
                    }
                }
            }
            i += 1;
        }
        let ghost mid = *self;
        let m: usize = self.heap.len();
        let mut j: usize = 0;
        while j < m
            invariant
                before.wf(),
                m == before.heap@.len() == self.heap@.len(),
                n == before.keys@.len(),
                remap@.len() == n,
                j <= m,
                *self == (SearchState { heap: self.heap, ..mid }),
                forall|a: int|
                    j <= a < m ==> #[trigger] self.heap@[a] == before.heap@[a],
                forall|a: int|
                    0 <= a < j ==> #[trigger] self.heap@[a] == remap@[before.heap@[a] as int],
            decreases m - j,
        {
            let s: u32 = self.heap[j];
            assert(before.heap@[j as int] == s);
            self.heap[j] = remap[s as usize];
            j += 1;
        }
        proof {
            assert(before.keys@.take(n as int) =~= before.keys@);
            assert forall|a: int| 0 <= a < self.heap@.len() implies (#[trigger] self.heap@[a])
                < self.keys@.len() && self.keys@[self.heap@[a] as int] != EMPTY
                && self.hpos@[self.heap@[a] as int] == a && hkey(self.prio@, self.heap@, a) == hkey(
                before.prio@,
                before.heap@,
                a,
            ) by {
                let o = before.heap@[a] as int;
                assert(before.keys@[o] != EMPTY);
                assert(moved(before, *self, o, remap@[o] as int));
            }
            assert forall|s: int|
                0 <= s < self.keys@.len() && #[trigger] self.hpos@[s] != EMPTY implies self.hpos@[s]
                < self.heap@.len() && self.heap@[self.hpos@[s] as int] == s by {
                assert(self.keys@[s] != EMPTY);
                let o = choose|o: int|
                    0 <= o < n && before.keys@[o] != EMPTY && #[trigger] remap@[o] == s;
                assert(moved(before, *self, o, remap@[o] as int));
                assert(before.hpos@[o] != EMPTY);
            }
            assert forall|a: int| 0 < a < self.heap@.len() implies #[trigger] hkey(
                self.prio@,
                self.heap@,
                parent(a),
            ) <= hkey(self.prio@, self.heap@, a) by {
                assert(hkey(before.prio@, before.heap@, parent(a)) <= hkey(
                    before.prio@,
                    before.heap@,
                    a,
                ));
                assert(self.heap@[parent(a)] < self.keys@.len());
                assert(self.heap@[a] < self.keys@.len());
            }
            assert forall|v: u32| has_key(self.keys@, v) == has_key(before.keys@, v) by {
                if has_key(before.keys@, v) {
                    let o = slot_of(before.keys@, v);
                    assert(before.keys@[o] == v);
                    assert(moved(before, *self, o, remap@[o] as int));
                    assert(self.keys@[remap@[o] as int] == v);
                }
                if has_key(self.keys@, v) {
                    let s = slot_of(self.keys@, v);
                    assert(self.keys@[s] == v);
                    let o = choose|o: int|
                        0 <= o < n && before.keys@[o] != EMPTY && #[trigger] remap@[o] == s;
                    assert(moved(before, *self, o, remap@[o] as int));
                    assert(before.keys@[o] == v);
                }
            }
            assert forall|v: u32| self@.contains_key(v) implies self@[v] == before@[v] by {
                let o = slot_of(before.keys@, v);
                assert(has_key(before.keys@, v));
                assert(before.keys@[o] == v);
                assert(moved(before, *self, o, remap@[o] as int));
                lemma_slot_of(self.keys@, remap@[o] as int);
            }
            assert(self@ =~= before@);
        }
    }

    /// As `relax`, ordering by `prio` instead of by distance.
    ///
    /// An entry that is queued may only move forward.
    pub fn relax_with(&mut self, v: u32, d: u32, prio: u32, parent: u32) -> (r: bool)
        requires
            old(self).wf(),
            v != EMPTY,
            old(self)@.dom().len() < MAX_REACHED,
            old(self)@.contains_key(v) && old(self)@[v].queued && d < old(self)@[v].dist ==> prio
                <= old(self)@[v].prio,
        ensures
            final(self).wf(),
            r == (!old(self)@.contains_key(v) || d < old(self)@[v].dist),
            final(self)@ == (if r {
                old(self)@.insert(v, (Node { dist: d, prio, parent, queued: true }))
            } else {
                old(self)@
            }),
            final(self).slots() == (if (old(self)@.dom().len() + 1) * 10 > old(self).slots() * 7 {
                2 * old(self).slots()
            } else {
                old(self).slots()
            }),
    {
        proof {
            lemma_key_set_len(self.keys@);
            assert(self@.dom() =~= key_set(self.keys@));
        }
        if (self.len as u64 + 1) * 10 > (self.mask as u64 + 1) * 7 {
            self.grow();
        }
        let i: usize = self.probe(v);
        if self.keys[i] == EMPTY {
            self.take_slot(i, v, d, prio, parent);
            return true;
        }
        if d >= self.dist[i] {
            return false;
        }
        self.lower(i, d, prio, parent);
        true
    }

    /// Enter a vertex that is not there yet at the free slot its walk ends at.
    fn take_slot(&mut self, i: usize, v: u32, d: u32, prio: u32, parent: u32)
        requires
            old(self).wf(),
            v != EMPTY,
            stops_at(old(self).keys@, old(self).mask as u64, v, i as int),
            old(self).keys@[i as int] == EMPTY,
            (old(self).len + 1) * 10 <= (old(self).mask + 1) * 7,
        ensures
            final(self).wf(),
            final(self)@ == old(self)@.insert(
                v,
                (Node { dist: d, prio, parent, queued: true }),
            ),
            final(self).slots() == old(self).slots(),
    {
        let ghost before = *self;
        proof {
            lemma_stop(self.keys@, self.mask as u64, v, i as int);
            if self.hpos@[i as int] != EMPTY {
                assert(self.heap@[self.hpos@[i as int] as int] == i);
            }
            self.lemma_heap_room(i as int);
        }
        self.keys[i] = v;
        self.dist[i] = d;
        self.prio[i] = prio;
        self.par[i] = parent;
        self.len = self.len + 1;
        proof {
            let (h, p1, p2) = (self.heap@, before.prio@, self.prio@);
            assert forall|j: int| 0 <= j < h.len() implies #[trigger] hkey(p2, h, j) == hkey(
                p1,
                h,
                j,
            ) by {
                assert(before.keys@[h[j] as int] != EMPTY);
            }
            assert forall|j: int| 0 <= j < h.len() implies (#[trigger] h[j]) < self.keys@.len()
                && self.keys@[h[j] as int] != EMPTY && self.hpos@[h[j] as int] == j by {
                assert(before.keys@[h[j] as int] != EMPTY);
            }
            assert(linked(self.keys@, self.hpos@, self.heap@));
            assert forall|j: int| 0 < j < h.len() implies #[trigger] hkey(p2, h, self::parent(j))
                <= hkey(p2, h, j) by {
                assert(hkey(p1, h, self::parent(j)) <= hkey(p1, h, j));
                assert(hkey(p2, h, j) == hkey(p1, h, j));
            }
        }
        self.enqueue(i);
        proof {
            before.lemma_insert(self, v, i as int, Node { dist: d, prio, parent, queued: true });
        }
    }

    /// Give the vertex of slot `i` a better distance.
    fn lower(&mut self, i: usize, d: u32, prio: u32, parent: u32)
        requires
            old(self).wf(),
            i < old(self).keys@.len(),
            old(self).keys@[i as int] != EMPTY,
            old(self).hpos@[i as int] != EMPTY ==> prio <= old(self).prio@[i as int],
        ensures
            final(self).wf(),
            final(self)@ == old(self)@.insert(
                old(self).keys@[i as int],
                (Node { dist: d, prio, parent, queued: true }),
            ),
            final(self).slots() == old(self).slots(),
    {
        let ghost before = *self;
        let ghost v = self.keys@[i as int];
        self.dist[i] = d;
        self.prio[i] = prio;
        self.par[i] = parent;
        if self.hpos[i] == EMPTY {
            // Re-queue a vertex that was already settled.
            proof {
                before.lemma_heap_room(i as int);
                assert forall|j: int| 0 <= j < self.heap@.len() implies #[trigger] hkey(
                    self.prio@,
                    self.heap@,
                    j,
                ) == hkey(before.prio@, before.heap@, j) by {
                    assert(self.heap@[j] != i) by {
                        assert(before.hpos@[self.heap@[j] as int] == j);
                    }
                }
            }
            self.enqueue(i);
        } else {
            let p: usize = self.hpos[i] as usize;
            proof {
                let (h, p1, p2) = (self.heap@, before.prio@, self.prio@);
                assert(h[p as int] == i);
                assert forall|j: int| 0 <= j < h.len() && j != p implies #[trigger] hkey(p2, h, j)
                    == hkey(p1, h, j) by {
                    assert(h[j] != i) by {
                        assert(before.hpos@[h[j] as int] == j);
                    }
                }
                assert(hkey(p2, h, p as int) <= hkey(p1, h, p as int));
                assert forall|j: int| 0 < j < h.len() && j != p implies #[trigger] hkey(
                    p2,
                    h,
                    self::parent(j),
                ) <= hkey(p2, h, j) by {
                    assert(hkey(p1, h, self::parent(j)) <= hkey(p1, h, j));
                    assert(hkey(p2, h, j) == hkey(p1, h, j));
                }
                assert forall|j: int|
                    0 < j < h.len() && p > 0 && #[trigger] self::parent(j) == p as int implies hkey(
                    p2,
                    h,
                    self::parent(p as int),
                ) <= hkey(p2, h, j) by {
                    assert(hkey(p1, h, self::parent(j)) <= hkey(p1, h, j));
                    assert(hkey(p1, h, self::parent(p as int)) <= hkey(p1, h, p as int));
                    assert(hkey(p2, h, j) == hkey(p1, h, j));
                    assert(hkey(p2, h, self::parent(p as int)) == hkey(
                        p1,
                        h,
                        self::parent(p as int),
                    ));
                }
            }
            self.sift_up(p);
        }
        proof {
            let node = Node { dist: d, prio, parent, queued: true };
            assert(self.keys@ =~= before.keys@.update(i as int, v));
            before.lemma_insert(self, v, i as int, node);
        }
    }

    /// A slot that is not queued leaves room for one more entry.
    proof fn lemma_heap_room(&self, i: int)
        requires
            linked(self.keys@, self.hpos@, self.heap@),
            self.keys@.len() <= 0x8000_0000,
            0 <= i < self.keys@.len(),
            self.hpos@[i] == EMPTY,
        ensures
            self.heap@.len() < self.keys@.len(),
    {
        let h = self.heap@;
        if h.len() == self.keys@.len() {
            let s = Seq::new(h.len(), |j: int| h[j] as int);
            assert(s.no_duplicates()) by {
                assert forall|a: int, b: int| 0 <= a < s.len() && 0 <= b < s.len() && a
                    != b implies s[a] != s[b] by {
                    assert(self.hpos@[h[a] as int] == a);
                    assert(self.hpos@[h[b] as int] == b);
                }
            }
            s.unique_seq_to_set();
            let all = vstd::set_lib::set_int_range(0, h.len() as int);
            vstd::set_lib::lemma_int_range(0, h.len() as int);
            assert(s.to_set().subset_of(all)) by {
                assert forall|x: int| s.to_set().contains(x) implies all.contains(x) by {
                    let j = choose|j: int| 0 <= j < s.len() && s[j] == x;
                    assert(h[j] < self.keys@.len());
                }
            }
            vstd::set_lib::lemma_subset_equality(s.to_set(), all);
            assert(all.contains(i));
            let j = choose|j: int| 0 <= j < s.len() && s[j] == i;
            assert(self.hpos@[h[j] as int] == j);
        }
    }

    /// Append slot `i` to the queue.
    fn enqueue(&mut self, i: usize)
        requires
            i < old(self).keys@.len(),
            old(self).keys@.len() <= 0x8000_0000,
            old(self).prio@.len() == old(self).keys@.len(),
            old(self).hpos@.len() == old(self).keys@.len(),
            old(self).keys@[i as int] != EMPTY,
            old(self).hpos@[i as int] == EMPTY,
            old(self).heap@.len() < old(self).keys@.len(),
            linked(old(self).keys@, old(self).hpos@, old(self).heap@),
            heaped(old(self).prio@, old(self).heap@),
        ensures
            final(self).keys@ == old(self).keys@,
            final(self).dist@ == old(self).dist@,
            final(self).prio@ == old(self).prio@,
            final(self).par@ == old(self).par@,
            final(self).mask == old(self).mask,
            final(self).len == old(self).len,
            linked(final(self).keys@, final(self).hpos@, final(self).heap@),
            heaped(final(self).prio@, final(self).heap@),
            final(self).hpos@[i as int] != EMPTY,
            forall|j: int|
                0 <= j < old(self).keys@.len() && j != i ==> (#[trigger] final(self).hpos@[j]
                    == EMPTY) == (old(self).hpos@[j] == EMPTY),
    {
        let n: usize = self.heap.len();
        self.hpos[i] = n as u32;
        self.heap.push(i as u32);
        proof {
            let (h1, h2, p) = (old(self).heap@, self.heap@, self.prio@);
            assert forall|j: int| 0 <= j < h2.len() implies (#[trigger] h2[j]) < self.keys@.len()
                && self.keys@[h2[j] as int] != EMPTY && self.hpos@[h2[j] as int] == j by {
                if j < n {
                    assert(h2[j] == h1[j]);
                    assert(old(self).hpos@[h1[j] as int] == j);
                }
            }
            assert forall|k: int|
                0 <= k < self.keys@.len() && #[trigger] self.hpos@[k] != EMPTY implies self.hpos@[k]
                < h2.len() && h2[self.hpos@[k] as int] == k by {
                if k != i {
                    assert(old(self).hpos@[k] != EMPTY);
                }
            }
            assert forall|j: int| 0 < j < h2.len() && j != n implies #[trigger] hkey(
                p,
                h2,
                parent(j),
            ) <= hkey(p, h2, j) by {
                assert(hkey(p, h1, parent(j)) <= hkey(p, h1, j));
            }
            assert forall|j: int|
                0 < j < h2.len() && n > 0 && #[trigger] parent(j) == n as int implies hkey(
                p,
                h2,
                parent(n as int),
            ) <= hkey(p, h2, j) by {}
        }
        self.sift_up(n);
    }

    proof fn lemma_insert(&self, after: &SearchState, v: u32, i: int, node: Node)
        requires
            distinct(self.keys@),
            distinct(after.keys@),
            0 <= i < self.keys@.len(),
            after.keys@ == self.keys@.update(i, v),
            self.keys@[i] == v || (self.keys@[i] == EMPTY && !has_key(self.keys@, v)),
            v != EMPTY,
            after.node(i) == node,
            forall|j: int|
                0 <= j < self.keys@.len() && j != i ==> #[trigger] after.node(j) == self.node(j),
        ensures
            after@ == self@.insert(v, node),
    {
        let (k1, k2) = (self.keys@, after.keys@);
        lemma_slot_of(k2, i);
        let want = self@.insert(v, node);
        assert forall|x: u32| x != v implies has_key(k1, x) == has_key(k2, x) by {
            if has_key(k1, x) {
                let j = choose|j: int| 0 <= j < k1.len() && k1[j] == x;
                assert(k2[j] == x);
            }
            if has_key(k2, x) {
                let j = choose|j: int| 0 <= j < k2.len() && k2[j] == x;
                assert(k1[j] == x);
            }
        }
        assert forall|x: u32| after@.contains_key(x) implies after@[x] == want[x] by {
            if x != v {
                let j = slot_of(k1, x);
                assert(has_key(k1, x));
                assert(k1[j] == x && j != i && k2[j] == x);
                lemma_slot_of(k2, j);
            }
        }
        assert(after@ =~= want);
    }

    /// Record `v` at `d` if that improves on what is known, moving its queue
    /// entry rather than adding a second one.
    pub fn relax(&mut self, v: u32, d: u32, parent: u32) -> (r: bool)
        requires
            old(self).wf(),
            v != EMPTY,
            old(self)@.dom().len() < MAX_REACHED,
            old(self)@.contains_key(v) && old(self)@[v].queued && d < old(self)@[v].dist ==> d
                <= old(self)@[v].prio,
        ensures
            final(self).wf(),
            r == (!old(self)@.contains_key(v) || d < old(self)@[v].dist),
            final(self)@ == (if r {
                old(self)@.insert(v, (Node { dist: d, prio: d, parent, queued: true }))
            } else {
                old(self)@
            }),
    {
        self.relax_with(v, d, d, parent)
    }

    /// As `relax`, with a potential that is computed only when the vertex is
    /// first seen: on a revisit the stored `prio - dist` *is* the potential.
    pub fn relax_pot<F: FnOnce() -> u32>(&mut self, v: u32, d: u32, parent: u32, pot: F) -> (r:
        bool)
        requires
            old(self).wf(),
            v != EMPTY,
            old(self)@.dom().len() < MAX_REACHED,
            !old(self)@.contains_key(v) ==> call_requires(pot, ()),
            old(self)@.contains_key(v) ==> old(self)@[v].dist <= old(self)@[v].prio,
        ensures
            final(self).wf(),
            r == (!old(self)@.contains_key(v) || d < old(self)@[v].dist),
            !r ==> final(self)@ == old(self)@,
            r ==> exists|p: u32|
                {
                    &&& #[trigger] first_or_kept(old(self)@, v, pot, p)
                    &&& final(self)@ == old(self)@.insert(
                        v,
                        (Node {
                            dist: d,
                            prio: (if d + p > u32::MAX {
                                u32::MAX
                            } else {
                                (d + p) as u32
                            }),
                            parent,
                            queued: true,
                        }),
                    )
                },
    {
        let i: usize = self.probe(v);
        if self.keys[i] != EMPTY {
            if d >= self.dist[i] {
                return false;
            }
            let p: u32 = self.prio[i] - self.dist[i];
            assert(first_or_kept(self@, v, pot, p));
            return self.relax_with(v, d, d.saturating_add(p), parent);
        }
        let p: u32 = pot();
        assert(first_or_kept(self@, v, pot, p));
        self.relax_with(v, d, d.saturating_add(p), parent)
    }
}

/// The potential of `v`: what the closure gives on first sight, and what is
/// already built into its priority afterwards.
pub open spec fn first_or_kept<F: FnOnce() -> u32>(
    m: Map<u32, Node>,
    v: u32,
    pot: F,
    p: u32,
) -> bool {
    if m.contains_key(v) {
        p == m[v].prio - m[v].dist
    } else {
        call_ensures(pot, (), p)
    }
}

impl Default for SearchState {
    fn default() -> (s: SearchState)
        ensures
            s.wf(),
            s@ == Map::<u32, Node>::empty(),
    {
        Self::new()
    }
}

} // verus!
