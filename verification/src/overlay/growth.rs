//! Growing the regions of a level out of those of the level below.

use vstd::prelude::*;
use vstd::multiset::Multiset;
use crate::dataset::head_ok;
use crate::heap::{Heap, Ranked};
use crate::overlay::gateindex::{count, lemma_count_room, GateIndex, Traffic};
use crate::overlay::lists::block;
use crate::overlay::partition::FREE;

verus! {

/// A region a growing cell may take; the most attractive comes first.
#[derive(Clone, Copy)]
pub struct Cand {
    pub first: u32,
    pub second: u64,
    pub d: u32,
}

impl Ranked for Cand {
    open spec fn rank(self) -> int {
        -(self.first * 0x1_0000_0000_0000_0000_0000_0000 + self.second * 0x1_0000_0000 + self.d)
    }

    fn before(&self, other: &Cand) -> (r: bool) {
        if self.first != other.first {
            self.first > other.first
        } else if self.second != other.second {
            self.second > other.second
        } else {
            self.d > other.d
        }
    }
}

pub proof fn lemma_cand_rank(a: Cand, b: Cand)
    requires
        a.rank() == b.rank(),
    ensures
        a == b,
{
}

/// What the level below looks like to the one that is being grown.
pub struct Terrain {
    pub gx: GateIndex,
    /// Region -> the regions next to it.
    pub ahead: Vec<u32>,
    pub adj: Vec<u32>,
    /// Region -> how many road vertices it holds.
    pub csize: Vec<u32>,
    /// Gate position -> its vertex.
    pub bnd: Vec<u32>,
}

/// What bounds and steers the growth.
#[derive(Clone, Copy, Debug)]
pub struct Rules {
    /// Road vertices a region aims to cover.
    pub target: usize,
    /// The most gates one region may end up with; 0 for no limit.
    pub cap: usize,
    /// How many regions of the level below one region may swallow.
    pub agg: usize,
    /// Whether traffic leads the order, instead of only breaking ties.
    pub busy_leads: bool,
    /// Whether to grow by gates, or by vertices with a repair afterwards.
    pub by_gates: bool,
}

impl Terrain {
    pub open spec fn n(&self) -> int {
        self.gx.regions()
    }

    pub open spec fn near(&self, c: int) -> Seq<u32> {
        block(self.ahead@, self.adj@, c)
    }

    pub open spec fn wf(&self) -> bool {
        &&& self.gx.wf()
        &&& self.flat()
    }

    pub open spec fn flat(&self) -> bool {
        &&& self.n() < u32::MAX
        &&& self.ahead@.len() == self.n() + 1
        &&& head_ok(self.ahead@, self.adj@.len() as int)
        &&& forall|i: int| 0 <= i < self.adj@.len() ==> (#[trigger] self.adj@[i]) < self.n()
        &&& self.csize@.len() == self.n()
        &&& self.bnd@.len() == self.gx.nb()
    }

    /// The road vertices of cell `id` among the first `n` regions.
    pub open spec fn heft(&self, lof: Seq<u32>, id: u32, n: int) -> nat
        decreases n,
    {
        if n <= 0 {
            0
        } else {
            self.heft(lof, id, n - 1) + if lof[n - 1] == id {
                self.csize@[n - 1] as nat
            } else {
                0nat
            }
        }
    }

    /// All of them.
    pub open spec fn weight(&self, lof: Seq<u32>, id: u32) -> nat {
        self.heft(lof, id, self.n())
    }

    /// How a cell ranks region `e`.
    pub open spec fn cand(
        &self,
        rules: Rules,
        pairs: Seq<(u32, u32)>,
        lof: Seq<u32>,
        id: u32,
        e: u32,
    ) -> Cand {
        let gain = self.gx.gain(e, lof, id, self.gx.bstart@[e + 1] as int);
        let busy = self.gx.busy(e, lof, id, pairs, self.bnd@, self.gx.bstart@[e + 1] as int);
        if rules.busy_leads {
            Cand {
                first: (if busy > u32::MAX {
                    u32::MAX
                } else {
                    busy as u32
                }),
                second: gain as u64,
                d: e,
            }
        } else {
            Cand { first: gain as u32, second: busy as u64, d: e }
        }
    }

    /// The free regions of a list, as candidates for the cell.
    pub open spec fn offers(
        &self,
        rules: Rules,
        pairs: Seq<(u32, u32)>,
        lof: Seq<u32>,
        id: u32,
        list: Seq<u32>,
    ) -> Multiset<Cand>
        decreases list.len(),
    {
        if list.len() == 0 {
            Multiset::empty()
        } else {
            let rest = self.offers(rules, pairs, lof, id, list.drop_last());
            let e = list.last();
            if lof[e as int] == FREE {
                rest.insert(self.cand(rules, pairs, lof, id, e))
            } else {
                rest
            }
        }
    }
}

/// A cell.
pub open spec fn holder(lof: Seq<u32>, id: u32) -> spec_fn(int) -> bool {
    |c: int| lof[c] == id
}

/// How many regions cell `id` holds.
pub open spec fn held(lof: Seq<u32>, id: u32) -> nat {
    count(lof.len() as int, holder(lof, id))
}

/// What comes out of the queue next.
pub open spec fn next_of(q: Multiset<Cand>) -> Cand {
    choose|x: Cand| q.contains(x) && forall|y: Cand| #[trigger] q.contains(y) ==> x.rank() <= y.rank()
}

pub proof fn lemma_next(q: Multiset<Cand>, x: Cand)
    requires
        q.contains(x),
        forall|y: Cand| #[trigger] q.contains(y) ==> x.rank() <= y.rank(),
    ensures
        next_of(q) == x,
{
    let z = next_of(q);
    assert(q.contains(z));
    assert(z.rank() <= x.rank() && x.rank() <= z.rank());
    lemma_cand_rank(x, z);
}

/// Whether a cell passes a candidate over: it is taken, or taking it would
/// break a limit.
pub open spec fn passed_over(
    t: Terrain,
    rules: Rules,
    lof: Seq<u32>,
    id: u32,
    d: u32,
) -> bool {
    ||| lof[d as int] != FREE
    ||| t.weight(lof, id) > 0 && t.weight(lof, id) + t.csize@[d as int] > rules.target
    ||| t.gx.gates_of(lof.update(d as int, id), id) > rules.cap
}

/// Cell `id` takes the most attractive candidate that fits, again and again,
/// until it is full or nothing is left to try.
pub open spec fn grow_cell(
    t: Terrain,
    rules: Rules,
    pairs: Seq<(u32, u32)>,
    lof: Seq<u32>,
    id: u32,
    q: Multiset<Cand>,
) -> Seq<u32>
    decreases held(lof, FREE), q.len(),
    via grow_cell_ends
{
    if q.len() == 0 || !q.contains(next_of(q)) || !(0 <= next_of(q).d < lof.len()) || id == FREE {
        lof
    } else {
        let d = next_of(q).d;
        let rest = q.remove(next_of(q));
        if t.weight(lof, id) >= rules.target || held(lof, id) >= rules.agg {
            lof
        } else if passed_over(t, rules, lof, id, d) {
            grow_cell(t, rules, pairs, lof, id, rest)
        } else {
            let lof2 = lof.update(d as int, id);
            grow_cell(
                t,
                rules,
                pairs,
                lof2,
                id,
                rest.add(t.offers(rules, pairs, lof2, id, t.near(d as int))),
            )
        }
    }
}

#[via_fn]
proof fn grow_cell_ends(
    t: Terrain,
    rules: Rules,
    pairs: Seq<(u32, u32)>,
    lof: Seq<u32>,
    id: u32,
    q: Multiset<Cand>,
) {
    if q.len() == 0 || !q.contains(next_of(q)) || !(0 <= next_of(q).d < lof.len()) || id == FREE {
    } else {
        let d = next_of(q).d;
        if t.weight(lof, id) >= rules.target || held(lof, id) >= rules.agg {
        } else if passed_over(t, rules, lof, id, d) {
        } else {
            lemma_held_update(lof, d as int, id);
        }
    }
}

/// Taking a free region leaves one fewer free and gives the cell one more.
pub proof fn lemma_held_update(lof: Seq<u32>, d: int, id: u32)
    requires
        0 <= d < lof.len(),
        lof[d] != id,
    ensures
        held(lof.update(d, id), lof[d]) == held(lof, lof[d]) - 1,
        held(lof, lof[d]) > 0,
        held(lof.update(d, id), id) == held(lof, id) + 1,
{
    lemma_held_at(lof, d, id, lof.len() as int);
}

proof fn lemma_held_at(lof: Seq<u32>, d: int, id: u32, n: int)
    requires
        0 <= d < lof.len(),
        lof[d] != id,
        0 <= n <= lof.len(),
    ensures
        count(n, holder(lof.update(d, id), lof[d])) == count(n, holder(lof, lof[d])) - (if d < n {
            1int
        } else {
            0int
        }),
        count(n, holder(lof.update(d, id), id)) == count(n, holder(lof, id)) + (if d < n {
            1int
        } else {
            0int
        }),
    decreases n,
{
    if n > 0 {
        lemma_held_at(lof, d, id, n - 1);
    }
}

/// Every free region in turn starts a cell and grows it.
pub open spec fn grow_all(
    t: Terrain,
    rules: Rules,
    pairs: Seq<(u32, u32)>,
    lof: Seq<u32>,
    s: int,
    cells: int,
) -> (Seq<u32>, int)
    decreases t.n() - s,
{
    if s >= t.n() {
        (lof, cells)
    } else if lof[s] == FREE {
        let id = cells as u32;
        let lof1 = lof.update(s, id);
        grow_all(
            t,
            rules,
            pairs,
            grow_cell(
                t,
                rules,
                pairs,
                lof1,
                id,
                t.offers(rules, pairs, lof1, id, t.near(s)),
            ),
            s + 1,
            cells + 1,
        )
    } else {
        grow_all(t, rules, pairs, lof, s + 1, cells)
    }
}

/// Every cell below `cells` holds a region.
pub open spec fn inhabited(lof: Seq<u32>, cells: int) -> bool {
    forall|id: int| 0 <= id < cells ==> #[trigger] lof.contains(id as u32)
}

pub proof fn lemma_inhabited(lof: Seq<u32>, cells: int)
    requires
        inhabited(lof, cells),
        0 <= cells <= u32::MAX,
    ensures
        cells <= lof.len(),
{
    lof.lemma_cardinality_of_set();
    lemma_ids(cells);
    let ids = Set::new(|x: u32| x < cells);
    assert(ids.subset_of(lof.to_set())) by {
        assert forall|x: u32| ids.contains(x) implies lof.to_set().contains(x) by {
            assert(lof.contains((x as int) as u32));
        }
    }
    vstd::set_lib::lemma_len_subset(ids, lof.to_set());
}

proof fn lemma_ids(n: int)
    requires
        0 <= n <= u32::MAX,
    ensures
        Set::new(|x: u32| x < n).finite(),
        Set::new(|x: u32| x < n).len() == n,
    decreases n,
{
    let s = Set::new(|x: u32| x < n);
    if n == 0 {
        assert(s =~= Set::empty());
    } else {
        lemma_ids(n - 1);
        assert(s =~= Set::new(|x: u32| x < n - 1).insert((n - 1) as u32));
    }
}

pub(crate) proof fn lemma_heft_update(t: Terrain, lof: Seq<u32>, d: int, id: u32, n: int)
    requires
        0 <= d < lof.len(),
        lof[d] != id,
        0 <= n <= lof.len(),
    ensures
        t.heft(lof.update(d, id), id, n) == t.heft(lof, id, n) + (if d < n {
            t.csize@[d] as nat
        } else {
            0nat
        }),
    decreases n,
{
    if n > 0 {
        lemma_heft_update(t, lof, d, id, n - 1);
    }
}

pub proof fn lemma_heft_room(t: Terrain, lof: Seq<u32>, id: u32, n: int)
    requires
        0 <= n,
    ensures
        t.heft(lof, id, n) <= n * 0xFFFF_FFFF,
    decreases n,
{
    if n > 0 {
        lemma_heft_room(t, lof, id, n - 1);
        assert((n - 1) * 0xFFFF_FFFF + 0xFFFF_FFFF == n * 0xFFFF_FFFF);
    }
}

fn candidate(
    t: &Terrain,
    rules: &Rules,
    traffic: &Traffic,
    lof: &Vec<u32>,
    id: u32,
    e: u32,
) -> (r: Cand)
    requires
        t.wf(),
        lof@.len() == t.n(),
        e < t.n(),
        traffic.wf(),
    ensures
        r == t.cand(*rules, traffic.pairs@, lof@, id, e),
        r.d == e,
{
    let (gain, busy): (u32, u64) = t.gx.score(e, lof, id, traffic, t.bnd.as_slice());
    if rules.busy_leads {
        Cand {
            first: if busy > 0xFFFF_FFFF {
                0xFFFF_FFFF
            } else {
                busy as u32
            },
            second: gain as u64,
            d: e,
        }
    } else {
        Cand { first: gain, second: busy, d: e }
    }
}

/// Puts the free regions next to `c` into the queue.
fn offer_all(
    t: &Terrain,
    rules: &Rules,
    traffic: &Traffic,
    lof: &Vec<u32>,
    id: u32,
    c: u32,
    heap: &mut Heap<Cand>,
)
    requires
        t.wf(),
        lof@.len() == t.n(),
        c < t.n(),
        traffic.wf(),
        old(heap).wf(),
        forall|x: Cand| #[trigger] old(heap)@.contains(x) ==> x.d < t.n(),
    ensures
        final(heap).wf(),
        final(heap)@ == old(heap)@.add(
            t.offers(*rules, traffic.pairs@, lof@, id, t.near(c as int)),
        ),
        forall|x: Cand| #[trigger] final(heap)@.contains(x) ==> x.d < t.n(),
{
    let ghost h0 = heap@;
    let ghost list = t.near(c as int);
    let ghost pairs = traffic.pairs@;
    let (a, b): (usize, usize) = (t.ahead[c as usize] as usize, t.ahead[c as usize + 1] as usize);
    assert(t.ahead@[c as int] <= t.ahead@[c + 1] <= t.ahead@[t.ahead@.len() - 1]);
    let mut k: usize = a;
    proof {
        assert(list.take(0) =~= Seq::empty());
        assert(h0.add(Multiset::empty()) =~= h0);
    }
    while k < b
        invariant
            t.wf(),
            lof@.len() == t.n(),
            c < t.n(),
            traffic.wf(),
            heap.wf(),
            list == t.near(c as int),
            pairs == traffic.pairs@,
            a == t.ahead@[c as int],
            b == t.ahead@[c + 1],
            a <= k <= b <= t.adj@.len(),
            list.len() == b - a,
            heap@ == h0.add(t.offers(*rules, pairs, lof@, id, list.take(k - a))),
            forall|x: Cand| #[trigger] heap@.contains(x) ==> x.d < t.n(),
        decreases b - k,
    {
        let e: u32 = t.adj[k];
        let ghost h1 = heap@;
        proof {
            assert(list[k - a] == e);
            assert(list.take(k + 1 - a).drop_last() =~= list.take(k - a));
            assert(list.take(k + 1 - a).last() == e);
        }
        if lof[e as usize] == FREE {
            let x: Cand = candidate(t, rules, traffic, lof, id, e);
            heap.push(x);
            proof {
                let was = t.offers(*rules, pairs, lof@, id, list.take(k - a));
                assert(h0.add(was).insert(x) =~= h0.add(was.insert(x)));
                assert forall|y: Cand| #[trigger] heap@.contains(y) implies y.d < t.n() by {
                    if y != x {
                        assert(h1.contains(y));
                    }
                }
            }
        }
        k += 1;
    }
    assert(list.take(list.len() as int) =~= list);
}

/// Grows every cell by gates.
fn grow_by_gates(t: &Terrain, rules: &Rules, traffic: &Traffic) -> (r: (Vec<u32>, u32))
    requires
        t.wf(),
        traffic.wf(),
    ensures
        (r.0@, r.1 as int) == grow_all(
            *t,
            *rules,
            traffic.pairs@,
            Seq::new(t.n() as nat, |i: int| FREE),
            0,
            0,
        ),
        inhabited(r.0@, r.1 as int),
        r.0@.len() == t.n(),
        forall|c: int| 0 <= c < t.n() ==> (#[trigger] r.0@[c]) < r.1,
{
    let n: usize = t.csize.len();
    let ghost pairs = traffic.pairs@;
    let mut lof: Vec<u32> = vec![FREE; n];
    let ghost start = lof@;
    assert(start =~= Seq::new(t.n() as nat, |i: int| FREE));
    let mut cells: u32 = 0;
    let nb: usize = t.bnd.len();
    let mut outside: Vec<u32> = vec![0u32; nb];
    let mut heap: Heap<Cand> = Heap::new();
    let mut s: usize = 0;
    while s < n
        invariant
            t.wf(),
            traffic.wf(),
            pairs == traffic.pairs@,
            n == t.n(),
            n < u32::MAX,
            s <= n,
            cells <= s,
            lof@.len() == n,
            outside@.len() == t.gx.nb(),
            grow_all(*t, *rules, pairs, lof@, s as int, cells as int) == grow_all(
                *t,
                *rules,
                pairs,
                start,
                0,
                0,
            ),
            inhabited(lof@, cells as int),
            forall|c: int| 0 <= c < n ==> #[trigger] lof@[c] == FREE || lof@[c] < cells,
            forall|c: int| 0 <= c < s ==> #[trigger] lof@[c] != FREE,
        decreases n - s,
    {
        if lof[s] == FREE {
            let id: u32 = cells;
            let ghost lof0 = lof@;
            grow_one(t, rules, traffic, s as u32, id, &mut lof, &mut outside, &mut heap);
            proof {
                assert forall|x: int| 0 <= x < id + 1 implies #[trigger] lof@.contains(x as u32) by {
                    if x < id {
                        assert(lof0.contains(x as u32));
                        let i = lof0.index_of(x as u32);
                        assert(lof0[i] != FREE);
                        assert(lof@[i] == x as u32);
                    } else {
                        assert(lof@[s as int] == id);
                    }
                }
                assert forall|c: int| 0 <= c < n implies #[trigger] lof@[c] == FREE || lof@[c] < id
                    + 1 by {
                    assert(lof0[c] == FREE || lof0[c] < id);
                }
                assert forall|c: int| 0 <= c < s + 1 implies #[trigger] lof@[c] != FREE by {
                    if c < s {
                        assert(lof0[c] != FREE);
                    }
                }
            }
            cells += 1;
        }
        s += 1;
    }
    (lof, cells)
}

/// Grows one cell from region `s`.
fn grow_one(
    t: &Terrain,
    rules: &Rules,
    traffic: &Traffic,
    s: u32,
    id: u32,
    lof: &mut Vec<u32>,
    outside: &mut Vec<u32>,
    heap: &mut Heap<Cand>,
)
    requires
        t.wf(),
        traffic.wf(),
        old(lof)@.len() == t.n(),
        old(outside)@.len() == t.gx.nb(),
        s < t.n(),
        id != FREE,
        old(lof)@[s as int] == FREE,
        forall|c: int| 0 <= c < t.n() ==> (#[trigger] old(lof)@[c]) != id,
    ensures
        final(lof)@ == grow_cell(
            *t,
            *rules,
            traffic.pairs@,
            old(lof)@.update(s as int, id),
            id,
            t.offers(
                *rules,
                traffic.pairs@,
                old(lof)@.update(s as int, id),
                id,
                t.near(s as int),
            ),
        ),
        final(lof)@.len() == t.n(),
        final(outside)@.len() == t.gx.nb(),
        final(lof)@[s as int] == id,
        forall|c: int|
            0 <= c < t.n() ==> #[trigger] final(lof)@[c] == old(lof)@[c] || (old(lof)@[c] == FREE
                && final(lof)@[c] == id),
{
    let ghost pairs = traffic.pairs@;
    let ghost lof0 = lof@;
    let ghost n = t.n();
    proof {
        lemma_none_gates(*t, lof0, id);
        lemma_none_heft(*t, lof0, id, n);
    }
    let mut g: i64 = t.gx.absorb(s, lof, id, outside);
    let mut heft: u64 = t.csize[s as usize] as u64;
    let mut taken: usize = 1;
    heap.clear();
    proof {
        lemma_heft_update(*t, lof0, s as int, id, n);
        lemma_held_update(lof0, s as int, id);
        lemma_none_held(lof0, id);
        lemma_count_room(t.gx.nb(), t.gx.gate_at(lof@, id));
        lemma_count_room(n, holder(lof@, id));
    }
    let ghost goal = grow_cell(
        *t,
        *rules,
        pairs,
        lof@,
        id,
        t.offers(*rules, pairs, lof@, id, t.near(s as int)),
    );
    assert(Multiset::<Cand>::empty().add(t.offers(*rules, pairs, lof@, id, t.near(s as int)))
        =~= t.offers(*rules, pairs, lof@, id, t.near(s as int)));
    offer_all(t, rules, traffic, lof, id, s, heap);
    loop
        invariant_except_break
            grow_cell(*t, *rules, pairs, lof@, id, heap@) == goal,
        invariant
            t.wf(),
            traffic.wf(),
            pairs == traffic.pairs@,
            n == t.n(),
            heap.wf(),
            id != FREE,
            s < n,
            lof@.len() == n,
            lof0.len() == n,
            lof@[s as int] == id,
            t.gx.watched(lof@, id, outside@),
            g == t.gx.gates_of(lof@, id),
            heft == t.weight(lof@, id),
            taken == held(lof@, id),
            forall|x: Cand| #[trigger] heap@.contains(x) ==> x.d < n,
            forall|c: int|
                0 <= c < n ==> #[trigger] lof@[c] == lof0[c] || (lof0[c] == FREE && lof@[c] == id),
        ensures
            lof@ == goal,
        decreases held(lof@, FREE), heap@.len(),
    {
        let ghost h0 = heap@;
        let x: Cand = match heap.pop() {
            Some(x) => x,
            None => {
                break;
            },
        };
        proof {
            lemma_next(h0, x);
            assert(x.d < n);
            assert forall|y: Cand| #[trigger] heap@.contains(y) implies y.d < n by {
                assert(h0.contains(y));
            }
            lemma_heft_room(*t, lof@, id, n);
            lemma_count_room(t.gx.nb(), t.gx.gate_at(lof@, id));
            lemma_count_room(n, holder(lof@, id));
        }
        if heft >= rules.target as u64 || taken >= rules.agg {
            break;
        }
        let d: u32 = x.d;
        if lof[d as usize] != FREE {
            assert(passed_over(*t, *rules, lof@, id, d));
            continue;
        }
        if heft > 0 && heft + t.csize[d as usize] as u64 > rules.target as u64 {
            assert(passed_over(*t, *rules, lof@, id, d));
            continue;
        }
        let ghost lof1 = lof@;
        let more: i64 = t.gx.delta(d, lof, id, outside);
        proof {
            lemma_count_room(t.gx.nb(), t.gx.gate_at(lof1.update(d as int, id), id));
        }
        if (g + more) as u64 > rules.cap as u64 {
            assert(passed_over(*t, *rules, lof@, id, d));
            continue;
        }
        let change: i64 = t.gx.absorb(d, lof, id, outside);
        g = g + change;
        heft = heft + t.csize[d as usize] as u64;
        proof {
            lemma_heft_update(*t, lof1, d as int, id, n);
            lemma_held_update(lof1, d as int, id);
            lemma_count_room(n, holder(lof@, id));
            assert(!passed_over(*t, *rules, lof1, id, d));
        }
        taken = taken + 1;
        offer_all(t, rules, traffic, lof, id, d, heap);
    }
}

/// A cell that holds nothing has no gates, no weight and no regions.
proof fn lemma_none_gates(t: Terrain, lof: Seq<u32>, id: u32)
    requires
        t.wf(),
        lof.len() == t.n(),
        forall|c: int| 0 <= c < t.n() ==> (#[trigger] lof[c]) != id,
    ensures
        t.gx.gates_of(lof, id) == 0,
{
    let f = t.gx.gate_at(lof, id);
    assert forall|p: int| 0 <= p < t.gx.nb() implies !#[trigger] f(p) by {
        assert(t.gx.owner@[p] < t.n());
    }
    lemma_count_zero(t.gx.nb(), f);
}

proof fn lemma_count_zero(n: int, f: spec_fn(int) -> bool)
    requires
        forall|i: int| 0 <= i < n ==> !#[trigger] f(i),
    ensures
        count(n, f) == 0,
    decreases n,
{
    if n > 0 {
        lemma_count_zero(n - 1, f);
        assert(!f(n - 1));
    }
}

proof fn lemma_none_heft(t: Terrain, lof: Seq<u32>, id: u32, n: int)
    requires
        forall|c: int| 0 <= c < n ==> (#[trigger] lof[c]) != id,
    ensures
        t.heft(lof, id, n) == 0,
    decreases n,
{
    if n > 0 {
        lemma_none_heft(t, lof, id, n - 1);
        assert(lof[n - 1] != id);
    }
}

proof fn lemma_none_held(lof: Seq<u32>, id: u32)
    requires
        forall|c: int| 0 <= c < lof.len() ==> (#[trigger] lof[c]) != id,
    ensures
        held(lof, id) == 0,
{
    let f = holder(lof, id);
    assert forall|i: int| 0 <= i < lof.len() implies !#[trigger] f(i) by {}
    lemma_count_zero(lof.len() as int, f);
}

// -------------------------------------------------------- growing by vertices

/// A cell takes the free regions of a list, in order, until it is heavy
/// enough.
pub open spec fn take_free(t: Terrain, lof: Seq<u32>, id: u32, target: int, list: Seq<u32>) -> (
    Seq<u32>,
    Seq<u32>,
)
    decreases list.len(),
{
    if list.len() == 0 || t.weight(lof, id) >= target {
        (lof, Seq::empty())
    } else {
        let d = list[0];
        if lof[d as int] == FREE {
            let (lof2, rest) = take_free(
                t,
                lof.update(d as int, id),
                id,
                target,
                list.drop_first(),
            );
            (lof2, seq![d] + rest)
        } else {
            take_free(t, lof, id, target, list.drop_first())
        }
    }
}

pub(crate) proof fn lemma_take_free(t: Terrain, lof: Seq<u32>, id: u32, target: int, list: Seq<u32>)
    requires
        id != FREE,
        forall|i: int| 0 <= i < list.len() ==> (#[trigger] list[i]) < lof.len(),
    ensures
        ({
            let (lof2, taken) = take_free(t, lof, id, target, list);
            &&& held(lof2, FREE) == held(lof, FREE) - taken.len()
            &&& lof2.len() == lof.len()
            &&& forall|i: int| 0 <= i < taken.len() ==> (#[trigger] taken[i]) < lof.len()
            &&& forall|c: int|
                0 <= c < lof.len() ==> #[trigger] lof2[c] == lof[c] || (lof[c] == FREE && lof2[c]
                    == id)
        }),
    decreases list.len(),
{
    if list.len() == 0 || t.weight(lof, id) >= target {
    } else {
        let d = list[0];
        let rest = list.drop_first();
        assert forall|i: int| 0 <= i < rest.len() implies (#[trigger] rest[i]) < lof.len() by {
            assert(rest[i] == list[i + 1]);
        }
        if lof[d as int] == FREE {
            lemma_held_update(lof, d as int, id);
            lemma_take_free(t, lof.update(d as int, id), id, target, rest);
            let (lof2, t2) = take_free(t, lof.update(d as int, id), id, target, rest);
            let taken = seq![d] + t2;
            assert forall|i: int| 0 <= i < taken.len() implies (#[trigger] taken[i]) < lof.len() by {
                if i > 0 {
                    assert(taken[i] == t2[i - 1]);
                }
            }
        } else {
            lemma_take_free(t, lof, id, target, rest);
        }
    }
}

/// A cell spreads from a queue of its regions until it is heavy enough.
pub open spec fn spread_cell(
    t: Terrain,
    lof: Seq<u32>,
    id: u32,
    target: int,
    queue: Seq<u32>,
) -> Seq<u32>
    decreases held(lof, FREE), queue.len(),
    via spread_cell_ends
{
    if queue.len() == 0 || t.weight(lof, id) >= target || id == FREE || !near_in(
        t,
        lof,
        queue[0],
    ) {
        lof
    } else {
        let (lof2, taken) = take_free(t, lof, id, target, t.near(queue[0] as int));
        spread_cell(t, lof2, id, target, queue.drop_first() + taken)
    }
}

/// The neighbours of `c` are regions.
pub open spec fn near_in(t: Terrain, lof: Seq<u32>, c: u32) -> bool {
    forall|i: int|
        0 <= i < t.near(c as int).len() ==> (#[trigger] t.near(c as int)[i]) < lof.len()
}

#[via_fn]
proof fn spread_cell_ends(
    t: Terrain,
    lof: Seq<u32>,
    id: u32,
    target: int,
    queue: Seq<u32>,
) {
    if queue.len() == 0 || t.weight(lof, id) >= target || id == FREE || !near_in(
        t,
        lof,
        queue[0],
    ) {
    } else {
        lemma_take_free(t, lof, id, target, t.near(queue[0] as int));
    }
}

/// Every free region in turn starts a cell and spreads it.
pub open spec fn spread_all(t: Terrain, target: int, lof: Seq<u32>, s: int, cells: int) -> (
    Seq<u32>,
    int,
)
    decreases t.n() - s,
{
    if s >= t.n() {
        (lof, cells)
    } else if lof[s] == FREE {
        let id = cells as u32;
        spread_all(
            t,
            target,
            spread_cell(t, lof.update(s, id), id, target, seq![s as u32]),
            s + 1,
            cells + 1,
        )
    } else {
        spread_all(t, target, lof, s + 1, cells)
    }
}

/// Grows every cell by road vertices.
fn grow_by_vertices(t: &Terrain, target: usize) -> (r: (Vec<u32>, u32))
    requires
        t.flat(),
    ensures
        (r.0@, r.1 as int) == spread_all(
            *t,
            target as int,
            Seq::new(t.n() as nat, |i: int| FREE),
            0,
            0,
        ),
        inhabited(r.0@, r.1 as int),
        r.0@.len() == t.n(),
        forall|c: int| 0 <= c < t.n() ==> (#[trigger] r.0@[c]) < r.1,
{
    let n: usize = t.csize.len();
    let mut lof: Vec<u32> = vec![FREE; n];
    let ghost start = lof@;
    assert(start =~= Seq::new(t.n() as nat, |i: int| FREE));
    let mut cells: u32 = 0;
    let mut s: usize = 0;
    while s < n
        invariant
            t.flat(),
            n == t.n(),
            n < u32::MAX,
            s <= n,
            cells <= s,
            lof@.len() == n,
            spread_all(*t, target as int, lof@, s as int, cells as int) == spread_all(
                *t,
                target as int,
                start,
                0,
                0,
            ),
            inhabited(lof@, cells as int),
            forall|c: int| 0 <= c < n ==> #[trigger] lof@[c] == FREE || lof@[c] < cells,
            forall|c: int| 0 <= c < s ==> #[trigger] lof@[c] != FREE,
        decreases n - s,
    {
        if lof[s] == FREE {
            let id: u32 = cells;
            let ghost lof0 = lof@;
            spread_one(t, target, s as u32, id, &mut lof);
            proof {
                assert forall|x: int| 0 <= x < id + 1 implies #[trigger] lof@.contains(x as u32) by {
                    if x < id {
                        assert(lof0.contains(x as u32));
                        let i = lof0.index_of(x as u32);
                        assert(lof0[i] != FREE);
                        assert(lof@[i] == x as u32);
                    } else {
                        assert(lof@[s as int] == id);
                    }
                }
                assert forall|c: int| 0 <= c < n implies #[trigger] lof@[c] == FREE || lof@[c] < id
                    + 1 by {
                    assert(lof0[c] == FREE || lof0[c] < id);
                }
                assert forall|c: int| 0 <= c < s + 1 implies #[trigger] lof@[c] != FREE by {
                    if c < s {
                        assert(lof0[c] != FREE);
                    }
                }
            }
            cells += 1;
        }
        s += 1;
    }
    (lof, cells)
}

fn spread_one(t: &Terrain, target: usize, s: u32, id: u32, lof: &mut Vec<u32>)
    requires
        t.flat(),
        old(lof)@.len() == t.n(),
        s < t.n(),
        id != FREE,
        old(lof)@[s as int] == FREE,
        forall|c: int| 0 <= c < t.n() ==> (#[trigger] old(lof)@[c]) != id,
    ensures
        final(lof)@ == spread_cell(
            *t,
            old(lof)@.update(s as int, id),
            id,
            target as int,
            seq![s],
        ),
        final(lof)@.len() == t.n(),
        final(lof)@[s as int] == id,
        forall|c: int|
            0 <= c < t.n() ==> #[trigger] final(lof)@[c] == old(lof)@[c] || (old(lof)@[c] == FREE
                && final(lof)@[c] == id),
{
    let ghost lof0 = lof@;
    let ghost n = t.n();
    proof {
        lemma_none_heft(*t, lof0, id, n);
        lemma_heft_update(*t, lof0, s as int, id, n);
    }
    lof[s as usize] = id;
    let mut heft: u64 = t.csize[s as usize] as u64;
    let mut queue: Vec<u32> = vec![s];
    let mut at: usize = 0;
    let ghost goal = spread_cell(*t, lof@, id, target as int, seq![s]);
    assert(queue@.skip(0) =~= seq![s]);
    while at < queue.len() && heft < target as u64
        invariant
            t.flat(),
            n == t.n(),
            id != FREE,
            s < n,
            lof@.len() == n,
            lof0.len() == n,
            lof@[s as int] == id,
            heft == t.weight(lof@, id),
            at <= queue@.len(),
            forall|i: int| 0 <= i < queue@.len() ==> (#[trigger] queue@[i]) < n,
            spread_cell(*t, lof@, id, target as int, queue@.skip(at as int)) == goal,
            forall|c: int|
                0 <= c < n ==> #[trigger] lof@[c] == lof0[c] || (lof0[c] == FREE && lof@[c] == id),
        decreases held(lof@, FREE), queue@.len() - at,
    {
        let c: u32 = queue[at];
        let ghost q0 = queue@.skip(at as int);
        let ghost lof1 = lof@;
        let ghost queue1 = queue@;
        let ghost list = t.near(c as int);
        let (a, b): (usize, usize) = (
            t.ahead[c as usize] as usize,
            t.ahead[c as usize + 1] as usize,
        );
        proof {
            assert(q0[0] == c);
            assert(t.ahead@[c as int] <= t.ahead@[c + 1] <= t.ahead@[t.ahead@.len() - 1]);
            assert(near_in(*t, lof@, c)) by {
                assert forall|i: int| 0 <= i < list.len() implies (#[trigger] list[i])
                    < lof@.len() by {
                    assert(list[i] == t.adj@[t.ahead@[c as int] + i]);
                }
            }
            lemma_take_free(*t, lof1, id, target as int, list);
            assert(list.skip(0) =~= list);
        }
        let ghost want = take_free(*t, lof1, id, target as int, list);
        let ghost mut done: Seq<u32> = Seq::empty();
        assert(Seq::<u32>::empty() + want.1 =~= want.1);
        assert(queue@ =~= queue1 + Seq::<u32>::empty());
        let mut k: usize = a;
        while k < b && heft < target as u64
            invariant
                t.flat(),
                n == t.n(),
                id != FREE,
                s < n,
                c < n,
                lof@.len() == n,
                lof0.len() == n,
                lof@[s as int] == id,
                heft == t.weight(lof@, id),
                list == t.near(c as int),
                a == t.ahead@[c as int],
                b == t.ahead@[c + 1],
                a <= k <= b <= t.adj@.len(),
                list.len() == b - a,
                queue@ == queue1 + done,
                forall|i: int| 0 <= i < queue@.len() ==> (#[trigger] queue@[i]) < n,
                take_free(*t, lof@, id, target as int, list.skip(k - a)).0 == want.0,
                done + take_free(*t, lof@, id, target as int, list.skip(k - a)).1 == want.1,
                forall|c: int|
                    0 <= c < n ==> #[trigger] lof@[c] == lof0[c] || (lof0[c] == FREE && lof@[c]
                        == id),
            decreases b - k,
        {
            let d: u32 = t.adj[k];
            let ghost lof2 = lof@;
            proof {
                assert(list.skip(k - a)[0] == d);
                assert(list.skip(k - a).drop_first() =~= list.skip(k + 1 - a));
                lemma_heft_room(*t, lof@, id, n);
            }
            if lof[d as usize] == FREE {
                lof[d as usize] = id;
                heft = heft + t.csize[d as usize] as u64;
                queue.push(d);
                proof {
                    lemma_heft_update(*t, lof2, d as int, id, n);
                    let rest = take_free(*t, lof@, id, target as int, list.skip(k + 1 - a));
                    assert(take_free(*t, lof2, id, target as int, list.skip(k - a)) == (
                        rest.0,
                        seq![d] + rest.1,
                    ));
                    assert(done.push(d) + rest.1 =~= done + (seq![d] + rest.1));
                    done = done.push(d);
                    assert(queue@ =~= queue1 + done);
                }
            }
            k += 1;
        }
        proof {
            let rest = take_free(*t, lof@, id, target as int, list.skip(k - a));
            assert(rest == (lof@, Seq::<u32>::empty()));
            assert(done + Seq::<u32>::empty() =~= done);
            assert(queue@.skip(at + 1) =~= q0.drop_first() + want.1);
        }
        at += 1;
    }
    proof {
        let q = queue@.skip(at as int);
        assert(q.len() == 0 || t.weight(lof@, id) >= target);
    }
}

// -------------------------------------------------------------- the cap on a cell

/// How many times a rung may cut its over-cap regions before giving up.
pub const CUT_ROUNDS: usize = 8;

/// Candidates of one cell that is being cut: its regions next to `c` that
/// have no piece yet.
pub open spec fn pieces(
    t: Terrain,
    rules: Rules,
    pairs: Seq<(u32, u32)>,
    lof: Seq<u32>,
    cell: u32,
    fresh: Seq<u32>,
    id: u32,
    list: Seq<u32>,
) -> Multiset<Cand>
    decreases list.len(),
{
    if list.len() == 0 {
        Multiset::empty()
    } else {
        let rest = pieces(t, rules, pairs, lof, cell, fresh, id, list.drop_last());
        let e = list.last();
        if lof[e as int] == cell && fresh[e as int] == FREE {
            rest.insert(t.cand(rules, pairs, fresh, id, e))
        } else {
            rest
        }
    }
}

/// How many entries of a queue are regions that have a piece already.
pub open spec fn stale(q: Multiset<Cand>, fresh: Seq<u32>) -> nat {
    q.filter(|x: Cand| 0 <= x.d < fresh.len() && fresh[x.d as int] != FREE).len()
}

/// The piece `id` of a cell that is being cut, grown greedily from `s` until
/// it holds `limit` vertices.
pub open spec fn cut_piece(
    t: Terrain,
    rules: Rules,
    pairs: Seq<(u32, u32)>,
    lof: Seq<u32>,
    cell: u32,
    limit: int,
    fresh: Seq<u32>,
    id: u32,
    s: u32,
    q: Multiset<Cand>,
    n: int,
    fuel: nat,
) -> Option<Seq<u32>>
    decreases fuel,
{
    if q.len() == 0 {
        Some(fresh)
    } else if fuel == 0 {
        None
    } else {
        let x = next_of(q).d;
        let rest = q.remove(next_of(q));
        let less = (fuel - 1) as nat;
        if fresh[x as int] != FREE && fresh[x as int] != id {
            cut_piece(t, rules, pairs, lof, cell, limit, fresh, id, s, rest, n, less)
        } else if x != s && n >= limit {
            Some(fresh)
        } else {
            let fresh2 = if x != s {
                fresh.update(x as int, id)
            } else {
                fresh
            };
            let n2 = n + t.csize@[x as int];
            if n2 >= limit {
                Some(fresh2)
            } else {
                cut_piece(
                    t,
                    rules,
                    pairs,
                    lof,
                    cell,
                    limit,
                    fresh2,
                    id,
                    s,
                    rest.add(pieces(t, rules, pairs, lof, cell, fresh2, id, t.near(x as int))),
                    n2,
                    less,
                )
            }
        }
    }
}

proof fn lemma_stale_remove(q: Multiset<Cand>, fresh: Seq<u32>, x: Cand)
    requires
        q.contains(x),
        x.d < fresh.len(),
        fresh[x.d as int] != FREE,
    ensures
        stale(q.remove(x), fresh) == stale(q, fresh) - 1,
        stale(q, fresh) > 0,
{
    let f = |x: Cand| 0 <= x.d < fresh.len() && fresh[x.d as int] != FREE;
    assert(q.filter(f) =~= q.remove(x).filter(f).insert(x));
}

proof fn lemma_stale_add(a: Multiset<Cand>, b: Multiset<Cand>, fresh: Seq<u32>)
    requires
        forall|x: Cand| #[trigger] b.contains(x) ==> x.d < fresh.len() && fresh[x.d as int] == FREE,
    ensures
        stale(a.add(b), fresh) == stale(a, fresh),
{
    let f = |x: Cand| 0 <= x.d < fresh.len() && fresh[x.d as int] != FREE;
    assert forall|x: Cand| #[trigger] a.add(b).filter(f).count(x) == a.filter(f).count(x) by {
        if f(x) && b.count(x) > 0 {
            assert(b.contains(x));
        }
    }
    assert(a.add(b).filter(f) =~= a.filter(f));
}

proof fn lemma_pieces_in(
    t: Terrain,
    rules: Rules,
    pairs: Seq<(u32, u32)>,
    lof: Seq<u32>,
    cell: u32,
    fresh: Seq<u32>,
    id: u32,
    list: Seq<u32>,
)
    requires
        forall|i: int| 0 <= i < list.len() ==> (#[trigger] list[i]) < fresh.len(),
    ensures
        forall|x: Cand|
            #[trigger] pieces(t, rules, pairs, lof, cell, fresh, id, list).contains(x) ==> x.d
                < fresh.len() && fresh[x.d as int] == FREE && lof[x.d as int] == cell,
    decreases list.len(),
{
    if list.len() > 0 {
        let rest = list.drop_last();
        assert forall|i: int| 0 <= i < rest.len() implies (#[trigger] rest[i]) < fresh.len() by {
            assert(rest[i] == list[i]);
        }
        lemma_pieces_in(t, rules, pairs, lof, cell, fresh, id, rest);
        assert(list[list.len() - 1] < fresh.len());
        let e = list.last();
        let was = pieces(t, rules, pairs, lof, cell, fresh, id, rest);
        let now = pieces(t, rules, pairs, lof, cell, fresh, id, list);
        assert forall|x: Cand| #[trigger] now.contains(x) implies x.d < fresh.len()
            && fresh[x.d as int] == FREE && lof[x.d as int] == cell by {
            if !was.contains(x) {
                assert(x == t.cand(rules, pairs, fresh, id, e));
            }
        }
    }
}

/// Puts the regions next to `c` that belong to the cell and have no piece
/// into the queue.
fn piece_all(
    t: &Terrain,
    rules: &Rules,
    traffic: &Traffic,
    lof: &Vec<u32>,
    cell: u32,
    fresh: &Vec<u32>,
    id: u32,
    c: u32,
    heap: &mut Heap<Cand>,
)
    requires
        t.wf(),
        lof@.len() == t.n(),
        fresh@.len() == t.n(),
        c < t.n(),
        traffic.wf(),
        old(heap).wf(),
    ensures
        final(heap).wf(),
        final(heap)@ == old(heap)@.add(
            pieces(
                *t,
                *rules,
                traffic.pairs@,
                lof@,
                cell,
                fresh@,
                id,
                t.near(c as int),
            ),
        ),
{
    let ghost h0 = heap@;
    let ghost list = t.near(c as int);
    let ghost pairs = traffic.pairs@;
    let (a, b): (usize, usize) = (t.ahead[c as usize] as usize, t.ahead[c as usize + 1] as usize);
    assert(t.ahead@[c as int] <= t.ahead@[c + 1] <= t.ahead@[t.ahead@.len() - 1]);
    let mut k: usize = a;
    proof {
        assert(list.take(0) =~= Seq::empty());
        assert(h0.add(Multiset::empty()) =~= h0);
    }
    while k < b
        invariant
            t.wf(),
            lof@.len() == t.n(),
            fresh@.len() == t.n(),
            c < t.n(),
            traffic.wf(),
            heap.wf(),
            list == t.near(c as int),
            pairs == traffic.pairs@,
            a == t.ahead@[c as int],
            b == t.ahead@[c + 1],
            a <= k <= b <= t.adj@.len(),
            list.len() == b - a,
            heap@ == h0.add(
                pieces(*t, *rules, pairs, lof@, cell, fresh@, id, list.take(k - a)),
            ),
        decreases b - k,
    {
        let e: u32 = t.adj[k];
        proof {
            assert(list[k - a] == e);
            assert(list.take(k + 1 - a).drop_last() =~= list.take(k - a));
            assert(list.take(k + 1 - a).last() == e);
        }
        if lof[e as usize] == cell && fresh[e as usize] == FREE {
            let x: Cand = candidate(t, rules, traffic, fresh, id, e);
            heap.push(x);
            proof {
                let was = pieces(*t, *rules, pairs, lof@, cell, fresh@, id, list.take(k - a));
                assert(h0.add(was).insert(x) =~= h0.add(was.insert(x)));
            }
        }
        k += 1;
    }
    assert(list.take(list.len() as int) =~= list);
}

/// `fresh2` is the map of pieces after piece `id` has grown from `s`.
pub open spec fn piece_grown(
    t: Terrain,
    rules: Rules,
    pairs: Seq<(u32, u32)>,
    lof: Seq<u32>,
    cell: u32,
    limit: int,
    fresh: Seq<u32>,
    id: u32,
    s: u32,
    fresh2: Seq<u32>,
) -> bool {
    exists|fuel: nat|
        #[trigger] cut_piece(
            t,
            rules,
            pairs,
            lof,
            cell,
            limit,
            fresh,
            id,
            s,
            first_cand(s),
            0,
            fuel,
        ) == Some(fresh2)
}

pub open spec fn first_cand(s: u32) -> Multiset<Cand> {
    Multiset::empty().insert(Cand { first: 0, second: 0, d: s })
}

/// What a cut may do to the map of pieces: give the cell's regions to `id`.
pub open spec fn pieced(lof: Seq<u32>, cell: u32, fresh: Seq<u32>, id: u32, fresh2: Seq<u32>) -> bool {
    &&& fresh2.len() == fresh.len()
    &&& forall|d: int|
        0 <= d < fresh.len() ==> #[trigger] fresh2[d] == fresh[d] || (fresh[d] == FREE && fresh2[d]
            == id && lof[d] == cell)
}

#[verifier::rlimit(60)]
fn cut_one(
    t: &Terrain,
    rules: &Rules,
    traffic: &Traffic,
    lof: &Vec<u32>,
    cell: u32,
    limit: usize,
    fresh: &mut Vec<u32>,
    id: u32,
    s: u32,
    heap: &mut Heap<Cand>,
)
    requires
        t.wf(),
        traffic.wf(),
        lof@.len() == t.n(),
        old(fresh)@.len() == t.n(),
        s < t.n(),
        id != FREE,
        limit <= 0x3FFF_FFFF_FFFF_FFFF,
        old(fresh)@[s as int] == id,
    ensures
        piece_grown(
            *t,
            *rules,
            traffic.pairs@,
            lof@,
            cell,
            limit as int,
            old(fresh)@,
            id,
            s,
            final(fresh)@,
        ),
        pieced(lof@, cell, old(fresh)@, id, final(fresh)@),
{
    let ghost pairs = traffic.pairs@;
    let ghost fresh0 = fresh@;
    let ghost nr = t.n();
    heap.clear();
    heap.push(Cand { first: 0, second: 0, d: s });
    assert(heap@ =~= first_cand(s));
    let mut n: u64 = 0;
    let ghost mut steps: nat = 0;
    loop
        invariant_except_break
            forall|k: nat|
                #[trigger] cut_piece(
                    *t,
                    *rules,
                    pairs,
                    lof@,
                    cell,
                    limit as int,
                    fresh@,
                    id,
                    s,
                    heap@,
                    n as int,
                    k,
                ) == cut_piece(
                    *t,
                    *rules,
                    pairs,
                    lof@,
                    cell,
                    limit as int,
                    fresh0,
                    id,
                    s,
                    first_cand(s),
                    0,
                    steps + k,
                ),
            n < limit as u64 || n == 0,
            limit <= 0x3FFF_FFFF_FFFF_FFFF,
        invariant
            t.wf(),
            traffic.wf(),
            pairs == traffic.pairs@,
            nr == t.n(),
            lof@.len() == nr,
            fresh@.len() == nr,
            fresh0.len() == nr,
            s < nr,
            id != FREE,
            fresh0[s as int] == id,
            heap.wf(),
            pieced(lof@, cell, fresh0, id, fresh@),
            forall|x: Cand|
                #[trigger] heap@.contains(x) ==> x.d < nr && (x.d == s || lof@[x.d as int] == cell),
        ensures
            piece_grown(
                *t,
                *rules,
                pairs,
                lof@,
                cell,
                limit as int,
                fresh0,
                id,
                s,
                fresh@,
            ),
        decreases held(fresh@, FREE), stale(heap@, fresh@),
    {
        let ghost h0 = heap@;
        let ghost f0 = fresh@;
        let ghost n0 = n as int;
        let x: Cand = match heap.pop() {
            Some(x) => x,
            None => {
                proof {
                    assert(cut_piece(
                        *t,
                        *rules,
                        pairs,
                        lof@,
                        cell,
                        limit as int,
                        fresh@,
                        id,
                        s,
                        heap@,
                        n as int,
                        0,
                    ) == Some(fresh@));
                }
                break;
            },
        };
        let ghost rest = heap@;
        proof {
            lemma_next(h0, x);
            assert(x.d < nr);
            assert(fresh@[s as int] == id);
            // One step of the piece uses up one unit of fuel.
            assert(cut_piece(
                *t,
                *rules,
                pairs,
                lof@,
                cell,
                limit as int,
                f0,
                id,
                s,
                h0,
                n0,
                1,
            ) == cut_piece(
                *t,
                *rules,
                pairs,
                lof@,
                cell,
                limit as int,
                fresh0,
                id,
                s,
                first_cand(s),
                0,
                steps + 1,
            ));
            assert forall|y: Cand| #[trigger] rest.contains(y) implies y.d < nr && (y.d == s
                || lof@[y.d as int] == cell) by {
                assert(h0.contains(y));
            }
        }
        let d: u32 = x.d;
        if fresh[d as usize] != FREE && fresh[d as usize] != id {
            proof {
                lemma_stale_remove(h0, f0, x);
                lemma_cut_shift(
                    *t,
                    *rules,
                    pairs,
                    lof@,
                    cell,
                    limit as int,
                    (f0, h0, n0),
                    (f0, rest, n0),
                    fresh0,
                    id,
                    s,
                    steps,
                );
                steps = steps + 1;
            }
            continue;
        }
        if d != s && n >= limit as u64 {
            break;
        }
        if d != s {
            fresh[d as usize] = id;
        }
        n = n + t.csize[d as usize] as u64;
        if n >= limit as u64 {
            break;
        }
        piece_all(t, rules, traffic, lof, cell, fresh, id, d, heap);
        proof {
            let list = t.near(d as int);
            assert(t.ahead@[d as int] <= t.ahead@[d + 1] <= t.ahead@[t.ahead@.len() - 1]);
            assert forall|i: int| 0 <= i < list.len() implies (#[trigger] list[i]) < nr by {
                assert(list[i] == t.adj@[t.ahead@[d as int] + i]);
            }
            let more = pieces(*t, *rules, pairs, lof@, cell, fresh@, id, list);
            lemma_pieces_in(*t, *rules, pairs, lof@, cell, fresh@, id, list);
            assert forall|y: Cand| #[trigger] heap@.contains(y) implies y.d < nr && (y.d == s
                || lof@[y.d as int] == cell) by {
                if !rest.contains(y) {
                    assert(more.contains(y));
                }
            }
            if f0[d as int] == FREE {
                lemma_held_update(f0, d as int, id);
            } else {
                assert(fresh@ =~= f0);
                lemma_stale_remove(h0, f0, x);
                lemma_stale_add(rest, more, f0);
            }
            lemma_cut_shift(
                *t,
                *rules,
                pairs,
                lof@,
                cell,
                limit as int,
                (f0, h0, n0),
                (fresh@, heap@, n as int),
                fresh0,
                id,
                s,
                steps,
            );
            steps = steps + 1;
        }
    }
}

/// After one step the rest of the run is the run from there.
proof fn lemma_cut_shift(
    t: Terrain,
    rules: Rules,
    pairs: Seq<(u32, u32)>,
    lof: Seq<u32>,
    cell: u32,
    limit: int,
    a: (Seq<u32>, Multiset<Cand>, int),
    b: (Seq<u32>, Multiset<Cand>, int),
    fresh0: Seq<u32>,
    id: u32,
    s: u32,
    steps: nat,
)
    requires
        forall|k: nat|
            #[trigger] cut_piece(t, rules, pairs, lof, cell, limit, a.0, id, s, a.1, a.2, k)
                == cut_piece(
                t,
                rules,
                pairs,
                lof,
                cell,
                limit,
                fresh0,
                id,
                s,
                first_cand(s),
                0,
                steps + k,
            ),
        forall|k: nat|
            #[trigger] cut_piece(t, rules, pairs, lof, cell, limit, b.0, id, s, b.1, b.2, k)
                == cut_piece(t, rules, pairs, lof, cell, limit, a.0, id, s, a.1, a.2, k + 1),
    ensures
        forall|k: nat|
            #[trigger] cut_piece(t, rules, pairs, lof, cell, limit, b.0, id, s, b.1, b.2, k)
                == cut_piece(
                t,
                rules,
                pairs,
                lof,
                cell,
                limit,
                fresh0,
                id,
                s,
                first_cand(s),
                0,
                steps + 1 + k,
            ),
{
    assert forall|k: nat|
        #[trigger] cut_piece(t, rules, pairs, lof, cell, limit, b.0, id, s, b.1, b.2, k)
            == cut_piece(
            t,
            rules,
            pairs,
            lof,
            cell,
            limit,
            fresh0,
            id,
            s,
            first_cand(s),
            0,
            steps + 1 + k,
        ) by {
        let m = k + 1;
        assert(cut_piece(t, rules, pairs, lof, cell, limit, a.0, id, s, a.1, a.2, m) == cut_piece(
            t,
            rules,
            pairs,
            lof,
            cell,
            limit,
            fresh0,
            id,
            s,
            first_cand(s),
            0,
            steps + m,
        ));
        assert(steps + m == steps + 1 + k);
    }
}

/// The pieces of a cell, its regions from the `i`th on seen to: the first
/// keeps the cell's number, the others get new ones.
pub open spec fn cut_from(
    t: Terrain,
    rules: Rules,
    pairs: Seq<(u32, u32)>,
    lof: Seq<u32>,
    cell: u32,
    limit: int,
    list: Seq<u32>,
    i: int,
    fresh: Seq<u32>,
    next: int,
    end: (Seq<u32>, int),
) -> bool
    decreases list.len() - i,
{
    if i >= list.len() {
        end == (fresh, next)
    } else if fresh[list[i] as int] != FREE {
        cut_from(t, rules, pairs, lof, cell, limit, list, i + 1, fresh, next, end)
    } else {
        let id = piece_id(i, cell, next);
        exists|mid: Seq<u32>|
            {
                &&& #[trigger] piece_grown(
                    t,
                    rules,
                    pairs,
                    lof,
                    cell,
                    limit,
                    fresh.update(list[i] as int, id),
                    id,
                    list[i],
                    mid,
                )
                &&& cut_from(
                    t,
                    rules,
                    pairs,
                    lof,
                    cell,
                    limit,
                    list,
                    i + 1,
                    mid,
                    piece_next(i, next),
                    end,
                )
            }
    }
}

/// The number of the piece that the `i`th region starts.
pub open spec fn piece_id(i: int, cell: u32, next: int) -> u32 {
    if i == 0 {
        cell
    } else {
        next as u32
    }
}

/// The first free number after that.
pub open spec fn piece_next(i: int, next: int) -> int {
    if i == 0 {
        next
    } else {
        next + 1
    }
}

/// The regions of a cell, rising.
pub open spec fn cell_list(lof: Seq<u32>, cell: u32, list: Seq<u32>) -> bool {
    &&& crate::lookup::ascending(list)
    &&& forall|d: u32| #[trigger] list.contains(d) == (d < lof.len() && lof[d as int] == cell)
}

/// A map with the pieces put in.
pub open spec fn laid_over(lof: Seq<u32>, fresh: Seq<u32>) -> Seq<u32> {
    Seq::new(
        lof.len(),
        |d: int|
            if fresh[d] != FREE {
                fresh[d]
            } else {
                lof[d]
            },
    )
}

/// A quarter each round, but never nothing.
pub open spec fn quarter(x: usize) -> int {
    if x / 4 < 1 {
        1
    } else {
        (x / 4) as int
    }
}

/// The cells of a list, from the `i`th on, cut one after another.
pub open spec fn cut_over(
    t: Terrain,
    rules: Rules,
    pairs: Seq<(u32, u32)>,
    over: Seq<u32>,
    i: int,
    lof: Seq<u32>,
    targets: Seq<usize>,
    end: (Seq<u32>, Seq<usize>),
) -> bool
    decreases over.len() - i,
{
    if i >= over.len() {
        end == (lof, targets)
    } else {
        let c = over[i];
        let limit = quarter(targets[c as int]);
        exists|list: Seq<u32>, fresh: Seq<u32>, next: int|
            {
                &&& #[trigger] cell_list(lof, c, list)
                &&& #[trigger] cut_from(
                    t,
                    rules,
                    pairs,
                    lof,
                    c,
                    limit,
                    list,
                    0,
                    nothing(t.n()),
                    targets.len() as int,
                    (fresh, next),
                )
                &&& cut_over(
                    t,
                    rules,
                    pairs,
                    over,
                    i + 1,
                    laid_over(lof, fresh),
                    retarget(targets, c, limit, next),
                    end,
                )
            }
    }
}

/// No region has a piece.
pub open spec fn nothing(n: int) -> Seq<u32> {
    Seq::new(n as nat, |i: int| FREE)
}

/// What cells aim at after one was cut.
pub open spec fn retarget(targets: Seq<usize>, c: u32, limit: int, next: int) -> Seq<usize> {
    Seq::new(
        next as nat,
        |x: int|
            if x == c || x >= targets.len() {
                limit as usize
            } else {
                targets[x]
            },
    )
}

/// The cells that have more gates than they may, rising.
pub open spec fn too_wide(t: Terrain, lof: Seq<u32>, cap: int, cells: int, over: Seq<u32>) -> bool {
    &&& crate::lookup::ascending(over)
    &&& forall|c: u32|
        #[trigger] over.contains(c) == (c < cells && t.gx.gates_of(lof, c) > cap)
}

/// Up to `rounds` rounds of cutting whatever has too many gates.
pub open spec fn trimmed(
    t: Terrain,
    rules: Rules,
    pairs: Seq<(u32, u32)>,
    rounds: nat,
    lof: Seq<u32>,
    targets: Seq<usize>,
    end: (Seq<u32>, int),
) -> bool
    decreases rounds,
{
    if rounds == 0 {
        end == (lof, targets.len() as int)
    } else {
        exists|over: Seq<u32>, lof2: Seq<u32>, targets2: Seq<usize>|
            {
                &&& #[trigger] too_wide(t, lof, rules.cap as int, targets.len() as int, over)
                &&& #[trigger] cut_over(
                    t,
                    rules,
                    pairs,
                    over,
                    0,
                    lof,
                    targets,
                    (lof2, targets2),
                )
                &&& if lof2 == lof {
                    end == (lof2, targets2.len() as int)
                } else {
                    trimmed(t, rules, pairs, (rounds - 1) as nat, lof2, targets2, end)
                }
            }
    }
}

/// The cells of a level: grown, then cut down to the cap on boundary vertices.
pub open spec fn carved(
    t: Terrain,
    rules: Rules,
    pairs: Seq<(u32, u32)>,
    end: (Seq<u32>, int),
) -> bool {
    let (lof, cells) = if rules.by_gates && rules.cap > 0 {
        grow_all(t, rules, pairs, nothing(t.n()), 0, 0)
    } else {
        spread_all(t, rules.target as int, nothing(t.n()), 0, 0)
    };
    if rules.cap > 0 {
        trimmed(
            t,
            rules,
            pairs,
            CUT_ROUNDS as nat,
            lof,
            Seq::new(cells as nat, |i: int| rules.target),
            end,
        )
    } else {
        end == (lof, cells)
    }
}

/// Every region has a cell below `cells`, and every cell a region.
pub open spec fn settled_in(lof: Seq<u32>, n: int, cells: int) -> bool {
    &&& lof.len() == n
    &&& 0 <= cells <= n
    &&& inhabited(lof, cells)
    &&& forall|d: int| 0 <= d < n ==> (#[trigger] lof[d]) < cells
}

/// Cuts one cell into pieces.
#[verifier::rlimit(60)]
fn cut_cell(
    t: &Terrain,
    rules: &Rules,
    traffic: &Traffic,
    lof: &mut Vec<u32>,
    cell: u32,
    limit: usize,
    list: &[u32],
    targets: &mut Vec<usize>,
    fresh: &mut Vec<u32>,
    heap: &mut Heap<Cand>,
)
    requires
        t.wf(),
        traffic.wf(),
        settled_in(old(lof)@, t.n(), old(targets)@.len() as int),
        cell < old(targets)@.len(),
        limit == quarter(old(targets)@[cell as int]),
        cell_list(old(lof)@, cell, list@),
        old(fresh)@ == nothing(t.n()),
    ensures
        exists|pieces: Seq<u32>, next: int|
            {
                &&& #[trigger] cut_from(
                    *t,
                    *rules,
                    traffic.pairs@,
                    old(lof)@,
                    cell,
                    limit as int,
                    list@,
                    0,
                    nothing(t.n()),
                    old(targets)@.len() as int,
                    (pieces, next),
                )
                &&& final(lof)@ == laid_over(old(lof)@, pieces)
                &&& final(targets)@ == retarget(old(targets)@, cell, limit as int, next)
            },
        settled_in(final(lof)@, t.n(), final(targets)@.len() as int),
        final(fresh)@ == nothing(t.n()),
        final(targets)@.len() >= old(targets)@.len(),
        forall|d: int|
            0 <= d < t.n() && (#[trigger] old(lof)@[d]) != cell ==> final(lof)@[d] == old(lof)@[d],
        forall|d: int|
            0 <= d < t.n() ==> #[trigger] final(lof)@[d] == old(lof)@[d] || final(lof)@[d]
                >= old(targets)@.len(),
{
    let ghost pairs = traffic.pairs@;
    let ghost n = t.n();
    let ghost lof0 = lof@;
    let ghost t0 = targets@;
    let ghost none = nothing(n);
    let mut next: u32 = targets.len() as u32;
    let mut i: usize = 0;
    proof {
        assert(laid_over(lof0, none) =~= lof0);
    }
    while i < list.len()
        invariant
            t.wf(),
            traffic.wf(),
            pairs == traffic.pairs@,
            n == t.n(),
            n < u32::MAX,
            lof@ == lof0,
            lof0.len() == n,
            settled_in(lof0, n, t0.len() as int),
            cell < t0.len(),
            targets@ == t0,
            limit == quarter(t0[cell as int]),
            limit <= 0x3FFF_FFFF_FFFF_FFFF,
            cell_list(lof0, cell, list@),
            none == nothing(n),
            fresh@.len() == n,
            i <= list@.len(),
            t0.len() <= next <= n,
            i == 0 ==> fresh@ == none && next == t0.len(),
            i > 0 ==> fresh@[list@[0] as int] == cell,
            forall|d: int|
                0 <= d < n ==> #[trigger] fresh@[d] == FREE || (lof0[d] == cell && fresh@[d] < next && (
                fresh@[d] == cell || fresh@[d] >= t0.len())),
            forall|x: int| 0 <= x < i ==> fresh@[(#[trigger] list@[x]) as int] != FREE,
            forall|x: int| t0.len() <= x < next ==> #[trigger] fresh@.contains(x as u32),
            forall|end: (Seq<u32>, int)|
                #[trigger] cut_from(
                    *t,
                    *rules,
                    pairs,
                    lof0,
                    cell,
                    limit as int,
                    list@,
                    i as int,
                    fresh@,
                    next as int,
                    end,
                ) ==> cut_from(
                    *t,
                    *rules,
                    pairs,
                    lof0,
                    cell,
                    limit as int,
                    list@,
                    0,
                    none,
                    t0.len() as int,
                    end,
                ),
        decreases list@.len() - i,
    {
        let s: u32 = list[i];
        proof {
            assert(list@.contains(s));
        }
        let ghost f0 = fresh@;
        let ghost n0 = next;
        if fresh[s as usize] == FREE {
            let id: u32 = if i == 0 {
                cell
            } else {
                next
            };
            proof {
                // There are no more cells than regions.
                if i > 0 {
                    let now = laid_over(lof0, f0.update(s as int, id));
                    assert forall|x: int| 0 <= x < next + 1 implies #[trigger] now.contains(
                        x as u32,
                    ) by {
                        lemma_laid_inhabited(
                            lof0,
                            f0,
                            cell,
                            t0.len() as int,
                            next as int,
                            list@[0],
                            s,
                            id,
                            x,
                        );
                    }
                    lemma_inhabited(now, next + 1);
                }
            }
            fresh[s as usize] = id;
            let ghost f1 = fresh@;
            cut_one(t, rules, traffic, lof, cell, limit, fresh, id, s, heap);
            if i > 0 {
                next = next + 1;
            }
            proof {
                assert(f1 == f0.update(s as int, id));
                assert(fresh@[s as int] == id);
                assert forall|d: int| 0 <= d < n implies #[trigger] fresh@[d] == FREE || (lof0[d]
                    == cell && fresh@[d] < next && (fresh@[d] == cell || fresh@[d] >= t0.len())) by {
                    assert(f0[d] == FREE || (lof0[d] == cell && f0[d] < n0 && (f0[d] == cell || f0[d]
                        >= t0.len())));
                }
                assert forall|x: int| t0.len() <= x < next implies #[trigger] fresh@.contains(
                    x as u32,
                ) by {
                    if x < n0 {
                        assert(f0.contains(x as u32));
                        let d = f0.index_of(x as u32);
                        assert(f0[d] != FREE);
                        assert(f1[d] == f0[d]);
                        assert(fresh@[d] == f1[d]);
                    } else {
                        assert(fresh@[s as int] == x as u32);
                    }
                }
                assert forall|x: int| 0 <= x < i + 1 implies fresh@[(#[trigger] list@[x]) as int]
                    != FREE by {
                    assert(list@.contains(list@[x]));
                    if x < i {
                        assert(f0[list@[x] as int] != FREE);
                        assert(f1[list@[x] as int] != FREE);
                    }
                }
                if i > 0 {
                    assert(list@.contains(list@[0]));
                    assert(f1[list@[0] as int] == cell);
                }
                assert forall|end: (Seq<u32>, int)|
                    #[trigger] cut_from(
                        *t,
                        *rules,
                        pairs,
                        lof0,
                        cell,
                        limit as int,
                        list@,
                        i + 1,
                        fresh@,
                        next as int,
                        end,
                    ) implies cut_from(
                    *t,
                    *rules,
                    pairs,
                    lof0,
                    cell,
                    limit as int,
                    list@,
                    0,
                    none,
                    t0.len() as int,
                    end,
                ) by {
                    lemma_cut_step(
                        *t,
                        *rules,
                        pairs,
                        lof0,
                        cell,
                        limit as int,
                        list@,
                        i as int,
                        f0,
                        n0 as int,
                        fresh@,
                        end,
                    );
                }
            }
        } else {
            proof {
                assert(i > 0);
                assert forall|end: (Seq<u32>, int)|
                    #[trigger] cut_from(
                        *t,
                        *rules,
                        pairs,
                        lof0,
                        cell,
                        limit as int,
                        list@,
                        i + 1,
                        fresh@,
                        next as int,
                        end,
                    ) implies cut_from(
                    *t,
                    *rules,
                    pairs,
                    lof0,
                    cell,
                    limit as int,
                    list@,
                    0,
                    none,
                    t0.len() as int,
                    end,
                ) by {
                    assert(cut_from(
                        *t,
                        *rules,
                        pairs,
                        lof0,
                        cell,
                        limit as int,
                        list@,
                        i as int,
                        f0,
                        n0 as int,
                        end,
                    ));
                }
            }
        }
        i += 1;
    }
    let ghost pieces = fresh@;
    proof {
        assert(cut_from(
            *t,
            *rules,
            pairs,
            lof0,
            cell,
            limit as int,
            list@,
            list@.len() as int,
            pieces,
            next as int,
            (pieces, next as int),
        ));
        assert(list@.len() > 0) by {
            assert(lof0.contains((cell as int) as u32));
            let d = lof0.index_of(cell);
            assert(list@.contains(d as u32));
        }
        assert(list@.contains(list@[0]));
        let now = laid_over(lof0, pieces);
        assert(inhabited(now, next as int)) by {
            assert forall|x: int| 0 <= x < next implies #[trigger] now.contains(x as u32) by {
                lemma_laid_kept(
                    lof0,
                    pieces,
                    cell,
                    t0.len() as int,
                    next as int,
                    list@[0],
                    x,
                );
            }
        }
        lemma_inhabited(now, next as int);
    }
    lay_over(lof, fresh, list, Ghost(cell), Ghost(pieces));
    while targets.len() < next as usize
        invariant
            t0.len() <= targets@.len() <= next,
            forall|x: int| 0 <= x < t0.len() ==> #[trigger] targets@[x] == t0[x],
            forall|x: int| t0.len() <= x < targets@.len() ==> #[trigger] targets@[x] == limit,
        decreases next - targets@.len(),
    {
        targets.push(limit);
    }
    targets[cell as usize] = limit;
    proof {
        assert(targets@ =~= retarget(t0, cell, limit as int, next as int));
    }
}

proof fn lemma_cut_step(
    t: Terrain,
    rules: Rules,
    pairs: Seq<(u32, u32)>,
    lof: Seq<u32>,
    cell: u32,
    limit: int,
    list: Seq<u32>,
    i: int,
    fresh: Seq<u32>,
    next: int,
    mid: Seq<u32>,
    end: (Seq<u32>, int),
)
    requires
        0 <= i < list.len(),
        fresh[list[i] as int] == FREE,
        ({
            let id = piece_id(i, cell, next);
            let after = piece_next(i, next);
            &&& piece_grown(
                t,
                rules,
                pairs,
                lof,
                cell,
                limit,
                fresh.update(list[i] as int, id),
                id,
                list[i],
                mid,
            )
            &&& cut_from(t, rules, pairs, lof, cell, limit, list, i + 1, mid, after, end)
        }),
    ensures
        cut_from(t, rules, pairs, lof, cell, limit, list, i, fresh, next, end),
{
}

/// A cell that had a region before has one after a cut.
proof fn lemma_laid_kept(
    lof: Seq<u32>,
    fresh: Seq<u32>,
    cell: u32,
    cells: int,
    next: int,
    first: u32,
    x: int,
)
    requires
        fresh.len() == lof.len(),
        inhabited(lof, cells),
        0 <= cells <= u32::MAX,
        next <= u32::MAX,
        first < lof.len(),
        fresh[first as int] == cell,
        cell != FREE,
        forall|d: int|
            0 <= d < lof.len() ==> #[trigger] fresh[d] == FREE || lof[d] == cell,
        forall|y: int| cells <= y < next ==> #[trigger] fresh.contains(y as u32),
        0 <= x < next,
        next < FREE,
    ensures
        laid_over(lof, fresh).contains(x as u32),
{
    let now = laid_over(lof, fresh);
    if x >= cells {
        assert(fresh.contains(x as u32));
        let d = fresh.index_of(x as u32);
        assert(now[d] == x as u32);
    } else if x == cell {
        assert(now[first as int] == x as u32);
    } else {
        assert(lof.contains(x as u32));
        let d = lof.index_of(x as u32);
        assert(fresh[d] == FREE || lof[d] == cell);
        assert(now[d] == x as u32);
    }
}

/// Giving one more region of the cell a new number leaves no number unused.
proof fn lemma_laid_inhabited(
    lof: Seq<u32>,
    fresh: Seq<u32>,
    cell: u32,
    cells: int,
    next: int,
    first: u32,
    s: u32,
    id: u32,
    x: int,
)
    requires
        fresh.len() == lof.len(),
        inhabited(lof, cells),
        0 <= cells <= next < FREE,
        first < lof.len(),
        s < lof.len(),
        s != first || fresh[first as int] == cell,
        fresh[first as int] == cell,
        fresh[s as int] == FREE,
        lof[s as int] == cell,
        id == next,
        cell != FREE,
        forall|d: int|
            0 <= d < lof.len() ==> #[trigger] fresh[d] == FREE || lof[d] == cell,
        forall|y: int| cells <= y < next ==> #[trigger] fresh.contains(y as u32),
        0 <= x < next + 1,
    ensures
        laid_over(lof, fresh.update(s as int, id)).contains(x as u32),
{
    let f2 = fresh.update(s as int, id);
    let now = laid_over(lof, f2);
    if x == next {
        assert(now[s as int] == x as u32);
    } else if x >= cells {
        assert(fresh.contains(x as u32));
        let d = fresh.index_of(x as u32);
        assert(now[d] == x as u32);
    } else if x == cell {
        assert(now[first as int] == x as u32);
    } else {
        assert(lof.contains(x as u32));
        let d = lof.index_of(x as u32);
        assert(fresh[d] == FREE || lof[d] == cell);
        assert(now[d] == x as u32);
    }
}

/// Puts the pieces into the map and clears them away.
fn lay_over(
    lof: &mut Vec<u32>,
    fresh: &mut Vec<u32>,
    list: &[u32],
    Ghost(cell): Ghost<u32>,
    Ghost(pieces): Ghost<Seq<u32>>,
)
    requires
        old(lof)@.len() <= u32::MAX,
        cell_list(old(lof)@, cell, list@),
        old(fresh)@ == pieces,
        pieces.len() == old(lof)@.len(),
        forall|d: int|
            0 <= d < pieces.len() ==> #[trigger] pieces[d] == FREE || old(lof)@[d] == cell,
        forall|x: int| 0 <= x < list@.len() ==> pieces[(#[trigger] list@[x]) as int] != FREE,
    ensures
        final(lof)@ == laid_over(old(lof)@, pieces),
        final(fresh)@ == nothing(old(lof)@.len() as int),
{
    let ghost lof0 = lof@;
    let mut i: usize = 0;
    while i < list.len()
        invariant
            lof0.len() <= u32::MAX,
            cell_list(lof0, cell, list@),
            lof@.len() == lof0.len(),
            fresh@.len() == lof0.len(),
            pieces.len() == lof0.len(),
            i <= list@.len(),
            forall|d: int|
                0 <= d < lof0.len() && !list@.take(i as int).contains(d as u32) ==> #[trigger] lof@[d]
                    == lof0[d] && fresh@[d] == pieces[d],
            forall|x: int|
                0 <= x < i ==> lof@[(#[trigger] list@[x]) as int] == pieces[list@[x] as int]
                    && fresh@[list@[x] as int] == FREE,
        decreases list@.len() - i,
    {
        let d: u32 = list[i];
        let ghost l1 = lof@;
        let ghost f1 = fresh@;
        proof {
            assert(list@.contains(d));
            assert(!list@.take(i as int).contains(d)) by {
                let tk = list@.take(i as int);
                if tk.contains(d) {
                    let x = tk.index_of(d);
                    assert(list@[x] < list@[i as int]);
                }
            }
            assert(l1[d as int] == lof0[d as int]);
        }
        lof[d as usize] = fresh[d as usize];
        fresh[d as usize] = FREE;
        proof {
            assert forall|e: int|
                0 <= e < lof0.len() && !list@.take(i + 1).contains(e as u32) implies #[trigger] lof@[e]
                == lof0[e] && fresh@[e] == pieces[e] by {
                let (a, b) = (list@.take(i as int), list@.take(i + 1));
                assert(b[i as int] == d);
                if a.contains(e as u32) {
                    let x = a.index_of(e as u32);
                    assert(b[x] == e as u32);
                }
                assert(l1[e] == lof0[e]);
            }
            assert forall|x: int| 0 <= x < i + 1 implies lof@[(#[trigger] list@[x]) as int]
                == pieces[list@[x] as int] && fresh@[list@[x] as int] == FREE by {
                if x < i {
                    assert(list@[x] < list@[i as int]);
                    assert(list@.contains(list@[x]));
                }
            }
        }
        i += 1;
    }
    proof {
        assert(list@.take(list@.len() as int) =~= list@);
        assert forall|d: int| 0 <= d < lof0.len() implies #[trigger] lof@[d] == laid_over(
            lof0,
            pieces,
        )[d] && fresh@[d] == FREE by {
            if list@.contains(d as u32) {
                let x = list@.index_of(d as u32);
                assert(list@[x] == d as u32);
            } else {
                assert(lof@[d] == lof0[d] && fresh@[d] == pieces[d]);
                assert(pieces[d] == FREE || lof0[d] == cell);
            }
        }
        assert(lof@ =~= laid_over(lof0, pieces));
        assert forall|d: int| 0 <= d < lof0.len() implies #[trigger] fresh@[d] == FREE by {
            assert(lof@[d] == laid_over(lof0, pieces)[d]);
        }
        assert(fresh@ =~= nothing(lof0.len() as int));
    }
}

/// How many gates each cell has.
fn count_gates(t: &Terrain, lof: &Vec<u32>, cells: usize) -> (g: Vec<u32>)
    requires
        t.wf(),
        lof@.len() == t.n(),
        forall|d: int| 0 <= d < t.n() ==> (#[trigger] lof@[d]) < cells,
        cells <= u32::MAX,
    ensures
        g@.len() == cells,
        forall|c: int| 0 <= c < cells ==> #[trigger] g@[c] == t.gx.gates_of(lof@, c as u32),
{
    let mut g: Vec<u32> = vec![0u32; cells];
    let nb: usize = t.gx.owner.len();
    let mut p: usize = 0;
    while p < nb
        invariant
            t.wf(),
            lof@.len() == t.n(),
            forall|d: int| 0 <= d < t.n() ==> (#[trigger] lof@[d]) < cells,
            cells <= u32::MAX,
            nb == t.gx.nb(),
            nb <= u32::MAX,
            p <= nb,
            g@.len() == cells,
            forall|c: int|
                0 <= c < cells ==> #[trigger] g@[c] == count(p as int, t.gx.gate_at(lof@, c as u32))
                    && g@[c] <= p,
        decreases nb - p,
    {
        assert(t.gx.owner@[p as int] < t.n());
        let c: u32 = lof[t.gx.owner[p] as usize];
        let out: u32 = t.gx.count_out(p as u32, lof, c);
        assert(g@[c as int] <= p);
        let ghost g0 = g@;
        if out > 0 {
            g[c as usize] = g[c as usize] + 1;
        }
        proof {
            assert forall|x: int| 0 <= x < cells implies #[trigger] g@[x] == count(
                p + 1,
                t.gx.gate_at(lof@, x as u32),
            ) && g@[x] <= p + 1 by {
                assert(g0[x] == count(p as int, t.gx.gate_at(lof@, x as u32)) && g0[x] <= p);
                let f = t.gx.gate_at(lof@, x as u32);
                assert(f(p as int) == t.gx.gate_of(lof@, x as u32, p as int));
            }
        }
        p += 1;
    }
    g
}

/// One round of cutting. Says whether anything moved.
#[verifier::rlimit(60)]
fn trim_round(
    t: &Terrain,
    rules: &Rules,
    traffic: &Traffic,
    lof: &mut Vec<u32>,
    targets: &mut Vec<usize>,
    fresh: &mut Vec<u32>,
    heap: &mut Heap<Cand>,
) -> (moved: bool)
    requires
        t.wf(),
        traffic.wf(),
        settled_in(old(lof)@, t.n(), old(targets)@.len() as int),
        old(fresh)@ == nothing(t.n()),
    ensures
        settled_in(final(lof)@, t.n(), final(targets)@.len() as int),
        final(fresh)@ == nothing(t.n()),
        moved == (final(lof)@ != old(lof)@),
        exists|over: Seq<u32>|
            {
                &&& #[trigger] too_wide(
                    *t,
                    old(lof)@,
                    rules.cap as int,
                    old(targets)@.len() as int,
                    over,
                )
                &&& cut_over(
                    *t,
                    *rules,
                    traffic.pairs@,
                    over,
                    0,
                    old(lof)@,
                    old(targets)@,
                    (final(lof)@, final(targets)@),
                )
            },
{
    let ghost pairs = traffic.pairs@;
    let ghost n = t.n();
    let ghost lof0 = lof@;
    let ghost t0 = targets@;
    let cells: usize = targets.len();
    let g: Vec<u32> = count_gates(t, lof, cells);
    let mut over: Vec<u32> = Vec::new();
    let mut c: usize = 0;
    while c < cells
        invariant
            c <= cells,
            cells <= u32::MAX,
            g@.len() == cells,
            forall|x: int| 0 <= x < cells ==> #[trigger] g@[x] == t.gx.gates_of(lof0, x as u32),
            crate::lookup::ascending(over@),
            forall|x: int| 0 <= x < over@.len() ==> (#[trigger] over@[x]) < c,
            forall|x: u32|
                #[trigger] over@.contains(x) == (x < c && t.gx.gates_of(lof0, x) > rules.cap),
        decreases cells - c,
    {
        let ghost o0 = over@;
        if g[c] as usize > rules.cap {
            over.push(c as u32);
        }
        proof {
            assert(g@[c as int] == t.gx.gates_of(lof0, c as u32));
            assert forall|x: u32| #[trigger] over@.contains(x) == (x < c + 1 && t.gx.gates_of(
                lof0,
                x,
            ) > rules.cap) by {
                assert(o0.contains(x) == (x < c && t.gx.gates_of(lof0, x) > rules.cap));
                if over@ != o0 {
                    assert(over@[o0.len() as int] == c as u32);
                    if o0.contains(x) {
                        let y = o0.index_of(x);
                        assert(over@[y] == x);
                    }
                    if over@.contains(x) && x != c {
                        let y = over@.index_of(x);
                        assert(o0[y] == x);
                    }
                }
            }
        }
        c += 1;
    }
    proof {
        assert(too_wide(*t, lof0, rules.cap as int, cells as int, over@));
    }
    if over.len() == 0 {
        assert(cut_over(*t, *rules, pairs, over@, 0, lof0, t0, (lof0, t0)));
        return false;
    }
    let (head, list): (Vec<u32>, Vec<u32>) = group(lof, cells);
    let was: Vec<u32> = copy_of(lof);
    let mut i: usize = 0;
    while i < over.len()
        invariant
            t.wf(),
            traffic.wf(),
            pairs == traffic.pairs@,
            n == t.n(),
            cells == t0.len(),
            lof0.len() == n,
            settled_in(lof@, n, targets@.len() as int),
            cells <= targets@.len(),
            fresh@ == nothing(n),
            i <= over@.len(),
            crate::lookup::ascending(over@),
            forall|x: int| 0 <= x < over@.len() ==> (#[trigger] over@[x]) < cells,
            head@.len() == cells + 1,
            head_ok(head@, list@.len() as int),
            forall|c: int|
                0 <= c < cells ==> cell_list(lof0, c as u32, #[trigger] block(head@, list@, c)),
            forall|x: int, d: int|
                i <= x < over@.len() && 0 <= d < n ==> (lof@[d] == #[trigger] over@[x]) == (
                #[trigger] lof0[d] == over@[x]),
            forall|end: (Seq<u32>, Seq<usize>)|
                #[trigger] cut_over(*t, *rules, pairs, over@, i as int, lof@, targets@, end)
                    ==> cut_over(*t, *rules, pairs, over@, 0, lof0, t0, end),
        decreases over@.len() - i,
    {
        let c: u32 = over[i];
        let limit: usize = if targets[c as usize] / 4 < 1 {
            1
        } else {
            targets[c as usize] / 4
        };
        assert(head@[c as int] <= head@[c + 1] <= head@[head@.len() - 1]);
        let mine: &[u32] = vstd::slice::slice_subrange(
            list.as_slice(),
            head[c as usize] as usize,
            head[c as usize + 1] as usize,
        );
        let ghost lof1 = lof@;
        let ghost t1 = targets@;
        proof {
            assert(mine@ == block(head@, list@, c as int));
            assert(cell_list(lof0, c, block(head@, list@, c as int)));
            assert forall|d: u32| #[trigger] mine@.contains(d) == (d < lof1.len() && lof1[d as int]
                == c) by {
                if d < n {
                    assert((lof1[d as int] == over@[i as int]) == (lof0[d as int] == over@[i as int]));
                }
            }
            assert(cell_list(lof1, c, mine@));
        }
        cut_cell(t, rules, traffic, lof, c, limit, mine, targets, fresh, heap);
        proof {
            let (pieces, next) = choose|pieces: Seq<u32>, next: int|
                {
                    &&& #[trigger] cut_from(
                        *t,
                        *rules,
                        pairs,
                        lof1,
                        c,
                        limit as int,
                        mine@,
                        0,
                        nothing(n),
                        t1.len() as int,
                        (pieces, next),
                    )
                    &&& lof@ == laid_over(lof1, pieces)
                    &&& targets@ == retarget(t1, c, limit as int, next)
                };
            assert forall|end: (Seq<u32>, Seq<usize>)|
                #[trigger] cut_over(
                    *t,
                    *rules,
                    pairs,
                    over@,
                    i + 1,
                    lof@,
                    targets@,
                    end,
                ) implies cut_over(*t, *rules, pairs, over@, 0, lof0, t0, end) by {
                assert(cell_list(lof1, c, mine@));
                assert(cut_from(
                    *t,
                    *rules,
                    pairs,
                    lof1,
                    c,
                    quarter(t1[c as int]),
                    mine@,
                    0,
                    nothing(t.n()),
                    t1.len() as int,
                    (pieces, next),
                ));
                assert(cut_over(*t, *rules, pairs, over@, i as int, lof1, t1, end));
            }
            assert forall|x: int, d: int|
                i + 1 <= x < over@.len() && 0 <= d < n implies (lof@[d] == #[trigger] over@[x]) == (
            #[trigger] lof0[d] == over@[x]) by {
                assert((lof1[d] == over@[x]) == (lof0[d] == over@[x]));
                assert(over@[i as int] < over@[x]);
                if lof1[d] != c {
                    assert(lof@[d] == lof1[d]);
                }
                assert(lof@[d] == lof1[d] || lof@[d] >= t1.len());
            }
        }
        i += 1;
    }
    assert(cut_over(*t, *rules, pairs, over@, over@.len() as int, lof@, targets@, (lof@, targets@)));
    !same_list(&was, lof)
}

fn copy_of(v: &Vec<u32>) -> (r: Vec<u32>)
    ensures
        r@ == v@,
{
    let mut r: Vec<u32> = Vec::new();
    let mut i: usize = 0;
    while i < v.len()
        invariant
            i <= v@.len(),
            r@ == v@.take(i as int),
        decreases v@.len() - i,
    {
        r.push(v[i]);
        i += 1;
        assert(r@ =~= v@.take(i as int));
    }
    assert(v@.take(v@.len() as int) =~= v@);
    r
}

fn same_list(a: &Vec<u32>, b: &Vec<u32>) -> (r: bool)
    ensures
        r == (a@ == b@),
{
    if a.len() != b.len() {
        return false;
    }
    let mut i: usize = 0;
    while i < a.len()
        invariant
            a@.len() == b@.len(),
            i <= a@.len(),
            forall|x: int| 0 <= x < i ==> a@[x] == b@[x],
        decreases a@.len() - i,
    {
        if a[i] != b[i] {
            assert(a@[i as int] != b@[i as int]);
            return false;
        }
        i += 1;
    }
    assert(a@ =~= b@);
    true
}

/// The regions of every cell.
fn group(lof: &Vec<u32>, cells: usize) -> (r: (Vec<u32>, Vec<u32>))
    requires
        lof@.len() < u32::MAX,
        cells <= lof@.len(),
        forall|d: int| 0 <= d < lof@.len() ==> (#[trigger] lof@[d]) < cells,
    ensures
        r.0@.len() == cells + 1,
        head_ok(r.0@, r.1@.len() as int),
        forall|c: int|
            0 <= c < cells ==> cell_list(lof@, c as u32, #[trigger] block(r.0@, r.1@, c)),
{
    let n: usize = lof.len();
    let mut pairs: Vec<(u32, u32)> = Vec::new();
    let mut d: usize = 0;
    while d < n
        invariant
            n == lof@.len(),
            n < u32::MAX,
            d <= n,
            pairs@.len() == d,
            forall|x: int| 0 <= x < d ==> #[trigger] pairs@[x] == (lof@[x], x as u32),
        decreases n - d,
    {
        pairs.push((lof[d], d as u32));
        d += 1;
    }
    let ghost p0 = pairs@;
    proof {
        assert forall|i: int| 0 <= i < p0.len() implies (#[trigger] p0[i]).0 < cells by {
            assert(lof@[i] < cells);
        }
    }
    let r: (Vec<u32>, Vec<u32>) = crate::overlay::lists::listing(pairs, cells);
    proof {
        let f = |c: int, v: u32| p0.contains((c as u32, v));
        assert forall|c: int| 0 <= c < cells implies cell_list(
            lof@,
            c as u32,
            #[trigger] block(r.0@, r.1@, c),
        ) by {
            let b = block(r.0@, r.1@, c);
            assert(crate::lookup::ascending(block(r.0@, r.1@, c)));
            assert forall|v: u32| #[trigger] b.contains(v) == (v < lof@.len() && lof@[v as int]
                == c as u32) by {
                assert(block(r.0@, r.1@, c).contains(v) <==> f(c, v));
                if f(c, v) {
                    let x = p0.index_of((c as u32, v));
                    assert(p0[x] == (lof@[x], x as u32));
                }
                if v < lof@.len() && lof@[v as int] == c as u32 {
                    assert(p0[v as int] == (c as u32, v));
                }
            }
        }
    }
    r
}

/// Carves the cells of a level out of the regions of the one below.
pub fn carve(t: &Terrain, rules: &Rules, traffic: &Traffic) -> (r: (Vec<u32>, usize))
    requires
        t.wf(),
        traffic.wf(),
    ensures
        carved(*t, *rules, traffic.pairs@, (r.0@, r.1 as int)),
        settled_in(r.0@, t.n(), r.1 as int),
{
    let ghost pairs = traffic.pairs@;
    let ghost n = t.n();
    let (mut lof, cells): (Vec<u32>, u32) = if rules.by_gates && rules.cap > 0 {
        grow_by_gates(t, rules, traffic)
    } else {
        grow_by_vertices(t, rules.target)
    };
    proof {
        lemma_inhabited(lof@, cells as int);
        assert(nothing(n) =~= Seq::new(n as nat, |i: int| FREE));
    }
    if rules.cap == 0 {
        return (lof, cells as usize);
    }
    let ghost lof0 = lof@;
    let mut targets: Vec<usize> = vec![rules.target; cells as usize];
    let ghost t0 = targets@;
    assert(t0 =~= Seq::new(cells as nat, |i: int| rules.target));
    let mut fresh: Vec<u32> = vec![FREE; t.csize.len()];
    assert(fresh@ =~= nothing(n));
    let mut heap: Heap<Cand> = Heap::new();
    let mut left: usize = CUT_ROUNDS;
    let mut going: bool = true;
    while going && left > 0
        invariant
            t.wf(),
            traffic.wf(),
            pairs == traffic.pairs@,
            n == t.n(),
            settled_in(lof@, n, targets@.len() as int),
            fresh@ == nothing(n),
            left <= CUT_ROUNDS,
            going ==> forall|end: (Seq<u32>, int)|
                #[trigger] trimmed(*t, *rules, pairs, left as nat, lof@, targets@, end) ==> trimmed(
                    *t,
                    *rules,
                    pairs,
                    CUT_ROUNDS as nat,
                    lof0,
                    t0,
                    end,
                ),
            !going ==> trimmed(
                *t,
                *rules,
                pairs,
                CUT_ROUNDS as nat,
                lof0,
                t0,
                (lof@, targets@.len() as int),
            ),
        decreases left, going as int,
    {
        let ghost lof1 = lof@;
        let ghost t1 = targets@;
        let ghost less = (left - 1) as nat;
        let moved: bool = trim_round(
            t,
            rules,
            traffic,
            &mut lof,
            &mut targets,
            &mut fresh,
            &mut heap,
        );
        proof {
            let over = choose|over: Seq<u32>|
                {
                    &&& #[trigger] too_wide(*t, lof1, rules.cap as int, t1.len() as int, over)
                    &&& cut_over(*t, *rules, pairs, over, 0, lof1, t1, (lof@, targets@))
                };
            if moved {
                assert forall|end: (Seq<u32>, int)|
                    #[trigger] trimmed(
                        *t,
                        *rules,
                        pairs,
                        less,
                        lof@,
                        targets@,
                        end,
                    ) implies trimmed(*t, *rules, pairs, CUT_ROUNDS as nat, lof0, t0, end) by {
                    assert(too_wide(*t, lof1, rules.cap as int, t1.len() as int, over));
                    assert(cut_over(*t, *rules, pairs, over, 0, lof1, t1, (lof@, targets@)));
                    assert(trimmed(*t, *rules, pairs, left as nat, lof1, t1, end));
                }
            } else {
                assert(too_wide(*t, lof1, rules.cap as int, t1.len() as int, over));
                assert(cut_over(*t, *rules, pairs, over, 0, lof1, t1, (lof@, targets@)));
                assert(trimmed(
                    *t,
                    *rules,
                    pairs,
                    left as nat,
                    lof1,
                    t1,
                    (lof@, targets@.len() as int),
                ));
            }
        }
        if moved {
            left -= 1;
            assert(left as nat == less);
        } else {
            going = false;
        }
    }
    proof {
        if going {
            assert(trimmed(*t, *rules, pairs, 0, lof@, targets@, (lof@, targets@.len() as int)));
        }
    }
    let n2: usize = targets.len();
    (lof, n2)
}

} // verus!
