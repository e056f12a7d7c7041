//! Which gates face which regions, and what taking a region would do to the
//! number of gates.

use vstd::prelude::*;
use crate::dataset::head_ok;
use crate::lookup::{ascending, keyed, position_keyed};
use crate::overlay::lists::block;

verus! {

// ----------------------------------------------------------------- counting

/// How many of `0..n` have a property.
pub open spec fn count(n: int, f: spec_fn(int) -> bool) -> nat
    decreases n,
{
    if n <= 0 {
        0
    } else {
        count(n - 1, f) + if f(n - 1) {
            1nat
        } else {
            0nat
        }
    }
}

/// How many entries of a list have a property.
pub open spec fn count_in(list: Seq<u32>, f: spec_fn(int) -> bool) -> nat
    decreases list.len(),
{
    if list.len() == 0 {
        0
    } else {
        count_in(list.drop_last(), f) + if f(list.last() as int) {
            1nat
        } else {
            0nat
        }
    }
}

pub proof fn lemma_count_same(n: int, f: spec_fn(int) -> bool, g: spec_fn(int) -> bool)
    requires
        forall|i: int| 0 <= i < n ==> #[trigger] f(i) == #[trigger] g(i),
    ensures
        count(n, f) == count(n, g),
    decreases n,
{
    if n > 0 {
        lemma_count_same(n - 1, f, g);
        assert(f(n - 1) == g(n - 1));
    }
}

pub proof fn lemma_count_room(n: int, f: spec_fn(int) -> bool)
    requires
        n >= 0,
    ensures
        count(n, f) <= n,
    decreases n,
{
    if n > 0 {
        lemma_count_room(n - 1, f);
    }
}

/// Properties that never hold together add up.
pub proof fn lemma_count_split(
    n: int,
    f: spec_fn(int) -> bool,
    g: spec_fn(int) -> bool,
    h: spec_fn(int) -> bool,
)
    requires
        forall|i: int| 0 <= i < n ==> (#[trigger] h(i) == (f(i) || g(i))) && !(f(i) && g(i)),
    ensures
        count(n, h) == count(n, f) + count(n, g),
    decreases n,
{
    if n > 0 {
        lemma_count_split(n - 1, f, g, h);
        assert(h(n - 1) == (f(n - 1) || g(n - 1)));
    }
}

/// One place more.
proof fn lemma_count_one(n: int, f: spec_fn(int) -> bool, g: spec_fn(int) -> bool, x: int)
    requires
        0 <= x < n,
        f(x),
        !g(x),
        forall|i: int| 0 <= i < n && i != x ==> #[trigger] f(i) == #[trigger] g(i),
    ensures
        count(n, f) == count(n, g) + 1,
    decreases n,
{
    if x == n - 1 {
        lemma_count_same(n - 1, f, g);
    } else {
        lemma_count_one(n - 1, f, g, x);
        assert(f(n - 1) == g(n - 1));
    }
}

/// What a rising list holds all of can be counted in the list.
pub proof fn lemma_count_list(n: int, list: Seq<u32>, f: spec_fn(int) -> bool)
    requires
        ascending(list),
        forall|i: int| 0 <= i < list.len() ==> (#[trigger] list[i]) < n,
        forall|x: int| 0 <= x < n && #[trigger] f(x) ==> list.contains(x as u32),
        n <= u32::MAX + 1,
    ensures
        count(n, f) == count_in(list, f),
    decreases list.len(),
{
    if list.len() == 0 {
        let g = |x: int| false;
        assert forall|i: int| 0 <= i < n implies #[trigger] f(i) == #[trigger] g(i) by {
            if f(i) {
                assert(list.contains(i as u32));
            }
        }
        lemma_count_same(n, f, g);
        lemma_count_none(n, g);
    } else {
        let d = list.drop_last();
        let last = list.last() as int;
        assert(list[list.len() - 1] == last);
        let g = |x: int| f(x) && x != last;
        assert forall|i: int, j: int| 0 <= i < j < d.len() implies d[i] < d[j] by {
            assert(list[i] < list[j]);
        }
        assert forall|i: int| 0 <= i < d.len() implies (#[trigger] d[i]) < n by {
            assert(d[i] == list[i]);
        }
        assert forall|x: int| 0 <= x < n && #[trigger] g(x) implies d.contains(x as u32) by {
            assert(f(x));
            let i = list.index_of(x as u32);
            assert(d[i] == x);
        }
        lemma_count_list(n, d, g);
        lemma_count_in_same(d, f, g);
        if f(last) {
            lemma_count_one(n, f, g, last);
        } else {
            assert forall|i: int| 0 <= i < n implies #[trigger] f(i) == #[trigger] g(i) by {}
            lemma_count_same(n, f, g);
        }
        assert forall|i: int| 0 <= i < d.len() implies d[i] != last by {
            assert(list[i] < list[list.len() - 1]);
        }
    }
}

proof fn lemma_count_none(n: int, g: spec_fn(int) -> bool)
    requires
        forall|i: int| 0 <= i < n ==> !#[trigger] g(i),
    ensures
        count(n, g) == 0,
    decreases n,
{
    if n > 0 {
        lemma_count_none(n - 1, g);
        assert(!g(n - 1));
    }
}

/// Distinct entries below the last one.
proof fn lemma_count_in_same(list: Seq<u32>, f: spec_fn(int) -> bool, g: spec_fn(int) -> bool)
    requires
        forall|i: int| 0 <= i < list.len() ==> f((#[trigger] list[i]) as int) == g(list[i] as int),
    ensures
        count_in(list, f) == count_in(list, g),
    decreases list.len(),
{
    if list.len() > 0 {
        let d = list.drop_last();
        assert forall|i: int| 0 <= i < d.len() implies f((#[trigger] d[i]) as int) == g(
            d[i] as int,
        ) by {
            assert(d[i] == list[i]);
        }
        lemma_count_in_same(d, f, g);
        assert(list[list.len() - 1] == list.last());
    }
}

pub proof fn lemma_count_in_take(list: Seq<u32>, f: spec_fn(int) -> bool, i: int)
    requires
        0 <= i < list.len(),
    ensures
        count_in(list.take(i + 1), f) == count_in(list.take(i), f) + (if f(list[i] as int) {
            1nat
        } else {
            0nat
        }),
        count_in(list.take(i), f) <= i,
    decreases i,
{
    assert(list.take(i + 1).drop_last() =~= list.take(i));
    if i > 0 {
        lemma_count_in_take(list, f, i - 1);
    }
}

/// Counting over a stretch of places.
pub open spec fn count_from(a: int, n: int, f: spec_fn(int) -> bool) -> nat
    decreases n - a,
{
    if n <= a {
        0
    } else {
        count_from(a, n - 1, f) + if f(n - 1) {
            1nat
        } else {
            0nat
        }
    }
}

pub proof fn lemma_count_from(a: int, b: int, n: int, f: spec_fn(int) -> bool)
    requires
        0 <= a <= b <= n,
        forall|i: int| 0 <= i < n && #[trigger] f(i) ==> a <= i < b,
    ensures
        count(n, f) == count_from(a, b, f),
    decreases n,
{
    if n == b {
        lemma_count_tail(a, b, f);
    } else {
        lemma_count_from(a, b, n - 1, f);
        assert(!f(n - 1));
    }
}

proof fn lemma_count_tail(a: int, b: int, f: spec_fn(int) -> bool)
    requires
        0 <= a <= b,
        forall|i: int| 0 <= i < b && #[trigger] f(i) ==> a <= i < b,
    ensures
        count(b, f) == count_from(a, b, f),
    decreases b,
{
    if b == a {
        assert forall|i: int| 0 <= i < b implies !#[trigger] f(i) by {}
        lemma_count_none(b, f);
    } else {
        lemma_count_tail(a, b - 1, f);
    }
}

// ------------------------------------------------------------------ traffic

/// How often each road vertex has been settled, by vertex, rising. Vertices
/// that never were are left out.
pub struct Traffic<'a> {
    pub pairs: &'a [(u32, u32)],
}

/// What a vertex-keyed table says of `v`; nothing means never.
pub open spec fn traffic_at(pairs: Seq<(u32, u32)>, v: u32) -> u32 {
    if exists|i: int| 0 <= i < pairs.len() && (#[trigger] pairs[i]).0 == v {
        pairs[choose|i: int| 0 <= i < pairs.len() && (#[trigger] pairs[i]).0 == v].1
    } else {
        0
    }
}

impl<'a> Traffic<'a> {
    pub open spec fn wf(&self) -> bool {
        keyed(self.pairs@)
    }

    pub fn is_empty(&self) -> (r: bool)
        ensures
            r == (self.pairs@.len() == 0),
    {
        self.pairs.len() == 0
    }

    pub fn len(&self) -> (r: usize)
        ensures
            r == self.pairs@.len(),
    {
        self.pairs.len()
    }

    pub fn get(&self, v: u32) -> (r: u32)
        requires
            self.wf(),
        ensures
            r == traffic_at(self.pairs@, v),
    {
        match position_keyed(self.pairs, v) {
            Some(i) => {
                proof {
                    let j = choose|j: int|
                        0 <= j < self.pairs@.len() && (#[trigger] self.pairs@[j]).0 == v;
                    assert(self.pairs@[i as int].0 == v);
                    assert(self.pairs@[j].0 == v);
                    if j < i {
                        assert(self.pairs@[j].0 < self.pairs@[i as int].0);
                    }
                    if i < j {
                        assert(self.pairs@[i as int].0 < self.pairs@[j].0);
                    }
                }
                self.pairs[i].1
            },
            None => 0,
        }
    }
}

// -------------------------------------------------------------------- index

pub proof fn lemma_count_in_pos(list: Seq<u32>, f: spec_fn(int) -> bool)
    ensures
        count_in(list, f) > 0 <==> exists|i: int| 0 <= i < list.len() && f(
            (#[trigger] list[i]) as int,
        ),
    decreases list.len(),
{
    if list.len() > 0 {
        let d = list.drop_last();
        lemma_count_in_pos(d, f);
        if exists|i: int| 0 <= i < d.len() && f((#[trigger] d[i]) as int) {
            let i = choose|i: int| 0 <= i < d.len() && f((#[trigger] d[i]) as int);
            assert(f(list[i] as int));
        }
        if exists|i: int| 0 <= i < list.len() && f((#[trigger] list[i]) as int) {
            let i = choose|i: int| 0 <= i < list.len() && f((#[trigger] list[i]) as int);
            if i < d.len() {
                assert(f(d[i] as int));
            }
        }
        if f(list.last() as int) {
            assert(f(list[list.len() - 1] as int));
        }
    }
}

/// A region that is not in cell `id`.
pub open spec fn outsider(lof: Seq<u32>, id: u32) -> spec_fn(int) -> bool {
    |r: int| lof[r] != id
}

/// Everything gate-driven growth reads about how gates face regions.
///
/// The region graph says two regions touch; this says through which gates,
/// which is what lets a growing cell be told exactly how many gates it would
/// gain or bury by taking a neighbour — before it takes it.
pub struct GateIndex {
    /// Region -> its gates' positions, as `bstart[c]..bstart[c + 1]`.
    pub bstart: Vec<u32>,
    /// Gate position -> the regions it faces.
    pub nhead: Vec<u32>,
    pub nlist: Vec<u32>,
    /// Region -> the gates of other regions that face it.
    pub ihead: Vec<u32>,
    pub ilist: Vec<u32>,
    /// Gate position -> the region it belongs to.
    pub owner: Vec<u32>,
}

impl GateIndex {
    pub open spec fn regions(&self) -> int {
        self.bstart@.len() - 1
    }

    pub open spec fn nb(&self) -> int {
        self.owner@.len() as int
    }

    /// The regions that gate `p` faces.
    pub open spec fn faces(&self, p: int) -> Seq<u32> {
        block(self.nhead@, self.nlist@, p)
    }

    /// The gates of other regions that face `d`.
    pub open spec fn facing(&self, d: int) -> Seq<u32> {
        block(self.ihead@, self.ilist@, d)
    }

    pub open spec fn wf(&self) -> bool {
        &&& self.sized()
        &&& self.related()
    }

    /// The arrays have the lengths they should.
    pub open spec fn sized(&self) -> bool {
        &&& self.bstart@.len() >= 1
        &&& self.regions() < u32::MAX
        &&& self.nb() <= u32::MAX
        &&& self.bstart@[0] == 0
        &&& head_ok(self.bstart@, self.nb())
        &&& forall|p: int| 0 <= p < self.nb() ==> (#[trigger] self.owner@[p]) < self.regions()
        &&& self.nhead@.len() == self.nb() + 1
        &&& head_ok(self.nhead@, self.nlist@.len() as int)
        &&& forall|p: int, i: int|
            0 <= p < self.nb() && 0 <= i < self.faces(p).len() ==> (#[trigger] self.faces(p)[i])
                < self.regions()
        &&& self.ihead@.len() == self.regions() + 1
        &&& head_ok(self.ihead@, self.ilist@.len() as int)
    }

    /// What the arrays say of each other.
    pub open spec fn related(&self) -> bool {
        &&& forall|p: int, c: int|
            0 <= p < self.nb() && 0 <= c < self.regions() ==> (#[trigger] self.owner@[p] == c
                <==> (#[trigger] self.bstart@[c]) <= p < self.bstart@[c + 1])
        &&& forall|p: int| 0 <= p < self.nb() ==> ascending(#[trigger] self.faces(p))
        &&& forall|p: int, i: int|
            0 <= p < self.nb() && 0 <= i < self.faces(p).len() ==> (#[trigger] self.faces(p)[i])
                != self.owner@[p]
        &&& forall|d: int| 0 <= d < self.regions() ==> ascending(#[trigger] self.facing(d))
        &&& forall|d: int, p: u32|
            0 <= d < self.regions() ==> (#[trigger] self.facing(d).contains(p) <==> p < self.nb()
                && self.faces(p as int).contains(d as u32))
    }

    /// How many regions outside cell `id` gate `p` faces.
    pub open spec fn outs(&self, lof: Seq<u32>, id: u32, p: int) -> nat {
        count_in(self.faces(p), outsider(lof, id))
    }

    /// `p` is a gate of cell `id`: it belongs to it and faces something else.
    pub open spec fn gate_of(&self, lof: Seq<u32>, id: u32, p: int) -> bool {
        lof[self.owner@[p] as int] == id && self.outs(lof, id, p) > 0
    }

    pub open spec fn gate_at(&self, lof: Seq<u32>, id: u32) -> spec_fn(int) -> bool {
        |p: int| self.gate_of(lof, id, p)
    }

    /// Gate `p` faces something outside the cell.
    pub open spec fn outward(&self, lof: Seq<u32>, id: u32) -> spec_fn(int) -> bool {
        |p: int| self.outs(lof, id, p) > 0
    }

    /// Gate `p` of the cell faces one region outside it.
    pub open spec fn last_out(&self, lof: Seq<u32>, id: u32) -> spec_fn(int) -> bool {
        |p: int| lof[self.owner@[p] as int] == id && self.outs(lof, id, p) == 1
    }

    /// How many gates cell `id` has.
    pub open spec fn gates_of(&self, lof: Seq<u32>, id: u32) -> nat {
        count(self.nb(), self.gate_at(lof, id))
    }

    /// `outside` knows, of every gate of the cell's regions, how many regions
    /// outside the cell it faces.
    pub open spec fn watched(&self, lof: Seq<u32>, id: u32, outside: Seq<u32>) -> bool {
        &&& outside.len() == self.nb()
        &&& lof.len() == self.regions()
        &&& forall|p: int|
            0 <= p < self.nb() && lof[self.owner@[p] as int] == id ==> #[trigger] outside[p]
                == self.outs(lof, id, p)
    }

    /// Taking `d` into the cell: what a gate of another of its regions faces.
    proof fn lemma_outs_taken(&self, lof: Seq<u32>, id: u32, d: u32, p: int)
        requires
            self.wf(),
            lof.len() == self.regions(),
            d < self.regions(),
            lof[d as int] != id,
            0 <= p < self.nb(),
        ensures
            self.outs(lof.update(d as int, id), id, p) == self.outs(lof, id, p) - (if self.faces(
                p,
            ).contains(d) {
                1int
            } else {
                0int
            }),
            !self.faces(p).contains(d) ==> self.outs(lof.update(d as int, id), id, p) == self.outs(
                lof,
                id,
                p,
            ),
    {
        let list = self.faces(p);
        let lof2 = lof.update(d as int, id);
        assert forall|i: int| 0 <= i < list.len() implies (#[trigger] list[i]) < self.regions() by {
            assert(self.faces(p)[i] < self.regions());
        }
        assert(ascending(self.faces(p)));
        lemma_count_update(list, lof, id, d, self.regions());
    }

    proof fn lemma_delta(&self, lof: Seq<u32>, id: u32, d: u32)
        requires
            self.wf(),
            lof.len() == self.regions(),
            d < self.regions(),
            lof[d as int] != id,
        ensures
            ({
                let lof2 = lof.update(d as int, id);
                let added = count_from(
                    self.bstart@[d as int] as int,
                    self.bstart@[d + 1] as int,
                    self.outward(lof2, id),
                );
                let buried = count_in(self.facing(d as int), self.last_out(lof, id));
                self.gates_of(lof2, id) + buried == self.gates_of(lof, id) + added
            }),
    {
        let lof2 = lof.update(d as int, id);
        let nb = self.nb();
        let (lo, hi) = (self.bstart@[d as int] as int, self.bstart@[d + 1] as int);
        let old_ = self.gate_at(lof, id);
        let new_ = self.gate_at(lof2, id);
        let more = self.outward(lof2, id);
        let add_ = |p: int| self.owner@[p] == d && self.outs(lof2, id, p) > 0;
        let one = self.last_out(lof, id);
        let sub_ = |p: int| self.faces(p).contains(d) && one(p);
        let keep = |p: int| old_(p) && !sub_(p);
        assert forall|p: int| 0 <= p < nb implies (#[trigger] old_(p) == (keep(p) || sub_(p))) && !(
        keep(p) && sub_(p)) by {}
        lemma_count_split(nb, keep, sub_, old_);
        assert forall|p: int| 0 <= p < nb implies (#[trigger] new_(p) == (keep(p) || add_(p))) && !(
        keep(p) && add_(p)) by {
            self.lemma_outs_taken(lof, id, d, p);
            assert(self.owner@[p] < self.regions());
        }
        lemma_count_split(nb, keep, add_, new_);
        assert(self.bstart@[d as int] <= self.bstart@[d + 1] <= self.bstart@[self.bstart@.len() - 1]);
        assert forall|p: int| 0 <= p < nb && #[trigger] add_(p) implies lo <= p < hi by {
            assert(self.owner@[p] == d);
            assert(self.bstart@[d as int] == lo);
        }
        lemma_count_from(lo, hi, nb, add_);
        lemma_count_from_same(lo, hi, add_, more, self.owner@, d, self.bstart@, nb);
        let list = self.facing(d as int);
        assert(ascending(self.facing(d as int)));
        assert forall|i: int| 0 <= i < list.len() implies (#[trigger] list[i]) < nb && self.faces(
            list[i] as int,
        ).contains(d) by {
            assert(self.facing(d as int).contains(list[i]));
        }
        assert forall|p: int| 0 <= p < nb && #[trigger] sub_(p) implies list.contains(p as u32) by {
            assert(self.faces(p).contains(d));
            assert(self.facing(d as int).contains(p as u32));
        }
        lemma_count_list(nb, list, sub_);
        lemma_count_in_same(list, sub_, one);
    }

    /// Gates the cell would gain by taking `d`, less the gates it would bury.
    ///
    /// Exact, and evaluated without committing, because the answer decides
    /// whether to commit at all.
    pub fn delta(&self, d: u32, lof: &Vec<u32>, id: u32, outside: &Vec<u32>) -> (r: i64)
        requires
            self.wf(),
            self.watched(lof@, id, outside@),
            d < self.regions(),
            lof@[d as int] != id,
        ensures
            r == self.gates_of(lof@.update(d as int, id), id) - self.gates_of(lof@, id),
    {
        let ghost lof2 = lof@.update(d as int, id);
        let ghost more = self.outward(lof2, id);
        let ghost one = self.last_out(lof@, id);
        proof {
            self.lemma_delta(lof@, id, d);
            lemma_count_room(self.nb(), self.gate_at(lof@, id));
            lemma_count_room(self.nb(), self.gate_at(lof2, id));
        }
        let mut add: i64 = 0;
        let (lo, hi): (u32, u32) = (self.bstart[d as usize], self.bstart[d as usize + 1]);
        assert(self.bstart@[d as int] <= self.bstart@[d + 1] <= self.bstart@[self.bstart@.len() - 1]);
        let mut p: u32 = lo;
        while p < hi
            invariant
                self.wf(),
                lof@.len() == self.regions(),
                d < self.regions(),
                lof@[d as int] != id,
                lof2 == lof@.update(d as int, id),
                more == self.outward(lof2, id),
                lo == self.bstart@[d as int],
                hi == self.bstart@[d + 1],
                lo <= p <= hi,
                hi <= self.nb(),
                add == count_from(lo as int, p as int, more),
                add <= p - lo,
            decreases hi - p,
        {
            let ghost list = self.faces(p as int);
            assert(self.owner@[p as int] == d) by {
                assert(self.bstart@[d as int] <= p < self.bstart@[d + 1]);
                assert(self.owner@[p as int] < self.regions());
            }
            let outward: bool = self.looks_out(p, lof, id, d);
            if outward {
                add += 1;
            }
            proof {
                lemma_count_in_pos(list, outsider(lof2, id));
                assert(outward == more(p as int)) by {
                    if outward {
                        let i = choose|i: int|
                            0 <= i < list.len() && (#[trigger] list[i]) != d && lof@[list[i] as int]
                                != id;
                        assert(lof2[list[i] as int] != id);
                    }
                    if more(p as int) {
                        let f = outsider(lof2, id);
                        let i = choose|i: int| 0 <= i < list.len() && f((#[trigger] list[i]) as int);
                        assert(self.faces(p as int)[i] < self.regions());
                        assert(list[i] != d && lof@[list[i] as int] != id);
                    }
                }
            }
            p += 1;
        }
        let mut sub: i64 = 0;
        let ghost list = self.facing(d as int);
        let (a, b): (usize, usize) = (
            self.ihead[d as usize] as usize,
            self.ihead[d as usize + 1] as usize,
        );
        assert(self.ihead@[d as int] <= self.ihead@[d + 1] <= self.ihead@[self.ihead@.len() - 1]);
        let mut k: usize = a;
        assert(list.take(0) =~= Seq::empty());
        while k < b
            invariant
                self.wf(),
                self.watched(lof@, id, outside@),
                d < self.regions(),
                one == self.last_out(lof@, id),
                list == self.facing(d as int),
                a == self.ihead@[d as int],
                b == self.ihead@[d + 1],
                a <= k <= b <= self.ilist@.len(),
                list.len() == b - a,
                sub == count_in(list.take(k - a), one),
                sub <= k - a,
                b <= u32::MAX,
            decreases b - k,
        {
            let q: u32 = self.ilist[k];
            proof {
                assert(list[k - a] == q);
                assert(self.facing(d as int).contains(q));
                lemma_count_in_take(list, one, k - a);
                assert(self.owner@[q as int] < self.regions());
            }
            if lof[self.owner[q as usize] as usize] == id && outside[q as usize] == 1 {
                assert(one(q as int));
                sub += 1;
            } else {
                assert(!one(q as int)) by {
                    if lof@[self.owner@[q as int] as int] == id {
                        assert(outside@[q as int] == self.outs(lof@, id, q as int));
                    }
                }
            }
            k += 1;
        }
        assert(list.take(list.len() as int) =~= list);
        add - sub
    }

    /// Whether gate `p` faces a region other than `d` outside the cell.
    fn looks_out(&self, p: u32, lof: &Vec<u32>, id: u32, d: u32) -> (r: bool)
        requires
            self.sized(),
            lof@.len() == self.regions(),
            p < self.nb(),
        ensures
            r == exists|i: int|
                0 <= i < self.faces(p as int).len() && (#[trigger] self.faces(p as int)[i]) != d
                    && lof@[self.faces(p as int)[i] as int] != id,
    {
        let ghost list = self.faces(p as int);
        let (a, b): (usize, usize) = (
            self.nhead[p as usize] as usize,
            self.nhead[p as usize + 1] as usize,
        );
        assert(self.nhead@[p as int] <= self.nhead@[p + 1] <= self.nhead@[self.nhead@.len() - 1]);
        let mut k: usize = a;
        while k < b
            invariant
                self.sized(),
                lof@.len() == self.regions(),
                p < self.nb(),
                list == self.faces(p as int),
                a == self.nhead@[p as int],
                b == self.nhead@[p + 1],
                a <= k <= b <= self.nlist@.len(),
                list.len() == b - a,
                forall|i: int|
                    0 <= i < k - a ==> (#[trigger] list[i]) == d || lof@[list[i] as int] == id,
            decreases b - k,
        {
            let r: u32 = self.nlist[k];
            assert(list[k - a] == r);
            assert(self.faces(p as int)[k - a] < self.regions());
            if r != d && lof[r as usize] != id {
                return true;
            }
            k += 1;
        }
        false
    }

    /// How many regions outside the cell gate `p` faces.
    pub fn count_out(&self, p: u32, lof: &Vec<u32>, id: u32) -> (r: u32)
        requires
            self.sized(),
            lof@.len() == self.regions(),
            p < self.nb(),
        ensures
            r == self.outs(lof@, id, p as int),
    {
        let ghost list = self.faces(p as int);
        let ghost f = outsider(lof@, id);
        let (a, b): (usize, usize) = (
            self.nhead[p as usize] as usize,
            self.nhead[p as usize + 1] as usize,
        );
        assert(self.nhead@[p as int] <= self.nhead@[p + 1] <= self.nhead@[self.nhead@.len() - 1]);
        let mut n: u32 = 0;
        let mut k: usize = a;
        assert(list.take(0) =~= Seq::empty());
        while k < b
            invariant
                self.sized(),
                lof@.len() == self.regions(),
                p < self.nb(),
                list == self.faces(p as int),
                f == outsider(lof@, id),
                a == self.nhead@[p as int],
                b == self.nhead@[p + 1],
                a <= k <= b <= self.nlist@.len(),
                b <= u32::MAX,
                list.len() == b - a,
                n == count_in(list.take(k - a), f),
                n <= k - a,
            decreases b - k,
        {
            let r: u32 = self.nlist[k];
            proof {
                assert(list[k - a] == r);
                assert(self.faces(p as int)[k - a] < self.regions());
                lemma_count_in_take(list, f, k - a);
            }
            if lof[r as usize] != id {
                n += 1;
            }
            k += 1;
        }
        assert(list.take(list.len() as int) =~= list);
        n
    }

    /// Take `d` into the cell, and report the change in its gate count.
    pub fn absorb(&self, d: u32, lof: &mut Vec<u32>, id: u32, outside: &mut Vec<u32>) -> (r: i64)
        requires
            self.wf(),
            self.watched(old(lof)@, id, old(outside)@),
            d < self.regions(),
            old(lof)@[d as int] != id,
        ensures
            final(lof)@ == old(lof)@.update(d as int, id),
            self.watched(final(lof)@, id, final(outside)@),
            r == self.gates_of(final(lof)@, id) - self.gates_of(old(lof)@, id),
    {
        let ghost lof0 = lof@;
        let ghost out0 = outside@;
        let r: i64 = self.delta(d, lof, id, outside);
        let ghost list = self.facing(d as int);
        assert(ascending(self.facing(d as int)));
        let (a, b): (usize, usize) = (
            self.ihead[d as usize] as usize,
            self.ihead[d as usize + 1] as usize,
        );
        assert(self.ihead@[d as int] <= self.ihead@[d + 1] <= self.ihead@[self.ihead@.len() - 1]);
        let mut k: usize = a;
        // The burial pass runs before `d` is marked as a member: its own gates
        // have no counter yet.
        while k < b
            invariant
                self.wf(),
                self.watched(lof0, id, out0),
                d < self.regions(),
                lof@ == lof0,
                lof0[d as int] != id,
                list == self.facing(d as int),
                ascending(list),
                a == self.ihead@[d as int],
                b == self.ihead@[d + 1],
                a <= k <= b <= self.ilist@.len(),
                list.len() == b - a,
                outside@.len() == self.nb(),
                forall|p: int|
                    0 <= p < self.nb() && lof0[self.owner@[p] as int] == id ==> #[trigger] outside@[p]
                        == out0[p] - (if list.take(k - a).contains(p as u32) {
                        1int
                    } else {
                        0int
                    }),
            decreases b - k,
        {
            let q: u32 = self.ilist[k];
            let ghost seen = list.take(k - a);
            proof {
                assert(list[k - a] == q);
                assert(self.facing(d as int).contains(q));
                assert(self.owner@[q as int] < self.regions());
                assert(!seen.contains(q)) by {
                    if seen.contains(q) {
                        let x = seen.index_of(q);
                        assert(list[x] < list[k - a]);
                    }
                }
            }
            let ghost o1 = outside@;
            if lof[self.owner[q as usize] as usize] == id {
                proof {
                    assert(o1[q as int] == out0[q as int]);
                    assert(out0[q as int] == self.outs(lof0, id, q as int));
                    let f = self.faces(q as int);
                    let x = f.index_of(d);
                    let g = outsider(lof0, id);
                    assert(g(f[x] as int));
                    lemma_count_in_pos(f, g);
                }
                outside[q as usize] = outside[q as usize] - 1;
            }
            proof {
                assert forall|p: int|
                    0 <= p < self.nb() && lof0[self.owner@[p] as int] == id implies #[trigger] outside@[p]
                    == out0[p] - (if list.take(k + 1 - a).contains(p as u32) {
                    1int
                } else {
                    0int
                }) by {
                    let now = list.take(k + 1 - a);
                    assert(now =~= seen.push(q));
                    assert(o1[p] == out0[p] - (if seen.contains(p as u32) {
                        1int
                    } else {
                        0int
                    }));
                    if p == q {
                        assert(now[k - a] == q);
                    } else {
                        if seen.contains(p as u32) {
                            let x = seen.index_of(p as u32);
                            assert(now[x] == p);
                        }
                        if now.contains(p as u32) {
                            let x = now.index_of(p as u32);
                            assert(seen[x] == p);
                        }
                    }
                }
            }
            k += 1;
        }
        assert(list.take(list.len() as int) =~= list);
        let ghost out1 = outside@;
        lof[d as usize] = id;
        let (lo, hi): (u32, u32) = (self.bstart[d as usize], self.bstart[d as usize + 1]);
        assert(self.bstart@[d as int] <= self.bstart@[d + 1] <= self.bstart@[self.bstart@.len() - 1]);
        let mut p: u32 = lo;
        while p < hi
            invariant
                self.sized(),
                d < self.regions(),
                lof@.len() == self.regions(),
                lo == self.bstart@[d as int],
                hi == self.bstart@[d + 1],
                lo <= p <= hi <= self.nb(),
                outside@.len() == self.nb(),
                forall|x: int| lo <= x < p ==> #[trigger] outside@[x] == self.outs(lof@, id, x),
                forall|x: int|
                    0 <= x < self.nb() && !(lo <= x < p) ==> #[trigger] outside@[x] == out1[x],
            decreases hi - p,
        {
            let n: u32 = self.count_out(p, lof, id);
            outside[p as usize] = n;
            p += 1;
        }
        proof {
            assert forall|x: int|
                0 <= x < self.nb() && lof@[self.owner@[x] as int] == id implies #[trigger] outside@[x]
                == self.outs(lof@, id, x) by {
                assert(self.owner@[x] == d <==> self.bstart@[d as int] <= x < self.bstart@[d + 1]);
                if self.owner@[x] != d {
                    assert(out1[x] == out0[x] - (if list.contains(x as u32) {
                        1int
                    } else {
                        0int
                    }));
                    self.lemma_outs_taken(lof0, id, d, x);
                    assert(self.facing(d as int).contains(x as u32) <==> self.faces(x).contains(d));
                    assert(out0[x] == self.outs(lof0, id, x));
                }
            }
        }
        r
    }

    /// Gate `p` faces the cell.
    pub open spec fn inward(&self, lof: Seq<u32>, id: u32, p: int) -> bool {
        exists|i: int|
            0 <= i < self.faces(p).len() && lof[(#[trigger] self.faces(p)[i]) as int] == id
    }

    pub open spec fn inward_at(&self, lof: Seq<u32>, id: u32) -> spec_fn(int) -> bool {
        |p: int| self.inward(lof, id, p)
    }

    /// How many gates of `d` face the cell, up to position `n`.
    pub open spec fn gain(&self, d: u32, lof: Seq<u32>, id: u32, n: int) -> nat {
        count_from(self.bstart@[d as int] as int, n, self.inward_at(lof, id))
    }

    /// How much traffic those gates carry.
    pub open spec fn busy(
        &self,
        d: u32,
        lof: Seq<u32>,
        id: u32,
        pairs: Seq<(u32, u32)>,
        bnd: Seq<u32>,
        n: int,
    ) -> nat
        decreases n,
    {
        if n <= self.bstart@[d as int] {
            0
        } else {
            self.busy(d, lof, id, pairs, bnd, n - 1) + if self.inward(lof, id, n - 1) {
                traffic_at(pairs, bnd[n - 1]) as nat
            } else {
                0nat
            }
        }
    }

    /// How attractive `d` looks from the cell: how many of its gates already
    /// face inward, and how much traffic those carry. An ordering, not a
    /// decision — `delta` decides.
    pub fn score(
        &self,
        d: u32,
        lof: &Vec<u32>,
        id: u32,
        traffic: &Traffic,
        bnd: &[u32],
    ) -> (r: (u32, u64))
        requires
            self.wf(),
            lof@.len() == self.regions(),
            d < self.regions(),
            traffic.wf(),
            bnd@.len() == self.nb(),
        ensures
            r.0 == self.gain(d, lof@, id, self.bstart@[d + 1] as int),
            r.1 == self.busy(
                d,
                lof@,
                id,
                traffic.pairs@,
                bnd@,
                self.bstart@[d + 1] as int,
            ),
    {
        let (mut gain, mut busy): (u32, u64) = (0, 0);
        let (lo, hi): (u32, u32) = (self.bstart[d as usize], self.bstart[d as usize + 1]);
        assert(self.bstart@[d as int] <= self.bstart@[d + 1] <= self.bstart@[self.bstart@.len() - 1]);
        let mut p: u32 = lo;
        while p < hi
            invariant
                self.sized(),
                lof@.len() == self.regions(),
                d < self.regions(),
                traffic.wf(),
                bnd@.len() == self.nb(),
                lo == self.bstart@[d as int],
                hi == self.bstart@[d + 1],
                lo <= p <= hi <= self.nb(),
                gain == self.gain(d, lof@, id, p as int),
                gain <= p - lo,
                busy == self.busy(d, lof@, id, traffic.pairs@, bnd@, p as int),
                busy <= (p - lo) * 0xFFFF_FFFF,
            decreases hi - p,
        {
            if self.looks_in(p, lof, id) {
                gain += 1;
                busy += traffic.get(bnd[p as usize]) as u64;
            }
            p += 1;
        }
        (gain, busy)
    }

    fn looks_in(&self, p: u32, lof: &Vec<u32>, id: u32) -> (r: bool)
        requires
            self.sized(),
            lof@.len() == self.regions(),
            p < self.nb(),
        ensures
            r == self.inward(lof@, id, p as int),
    {
        let ghost list = self.faces(p as int);
        let (a, b): (usize, usize) = (
            self.nhead[p as usize] as usize,
            self.nhead[p as usize + 1] as usize,
        );
        assert(self.nhead@[p as int] <= self.nhead@[p + 1] <= self.nhead@[self.nhead@.len() - 1]);
        let mut k: usize = a;
        while k < b
            invariant
                self.sized(),
                lof@.len() == self.regions(),
                p < self.nb(),
                list == self.faces(p as int),
                a == self.nhead@[p as int],
                b == self.nhead@[p + 1],
                a <= k <= b <= self.nlist@.len(),
                list.len() == b - a,
                forall|i: int| 0 <= i < k - a ==> lof@[(#[trigger] list[i]) as int] != id,
            decreases b - k,
        {
            let r: u32 = self.nlist[k];
            assert(list[k - a] == r);
            assert(self.faces(p as int)[k - a] < self.regions());
            if lof[r as usize] == id {
                return true;
            }
            k += 1;
        }
        false
    }
}

/// Marking `d` as inside takes one from a rising list that holds it.
proof fn lemma_count_update(list: Seq<u32>, lof: Seq<u32>, id: u32, d: u32, n: int)
    requires
        ascending(list),
        lof.len() == n,
        d < n,
        lof[d as int] != id,
        forall|i: int| 0 <= i < list.len() ==> (#[trigger] list[i]) < n,
    ensures
        count_in(list, outsider(lof.update(d as int, id), id)) == count_in(
            list,
            outsider(lof, id),
        ) - (if list.contains(d) {
            1int
        } else {
            0int
        }),
    decreases list.len(),
{
    let lof2 = lof.update(d as int, id);
    let f = outsider(lof, id);
    let g = outsider(lof2, id);
    if list.len() > 0 {
        let s = list.drop_last();
        let last = list.last();
        assert(list[list.len() - 1] == last);
        assert forall|i: int, j: int| 0 <= i < j < s.len() implies s[i] < s[j] by {
            assert(list[i] < list[j]);
        }
        assert forall|i: int| 0 <= i < s.len() implies (#[trigger] s[i]) < n by {
            assert(list[i] < n);
        }
        lemma_count_update(s, lof, id, d, n);
        if last == d {
            assert(list.contains(d));
            assert(!s.contains(d)) by {
                if s.contains(d) {
                    let x = s.index_of(d);
                    assert(list[x] < list[list.len() - 1]);
                }
            }
        } else {
            assert(list.contains(d) == s.contains(d)) by {
                if list.contains(d) {
                    let x = list.index_of(d);
                    assert(s[x] == d);
                }
                if s.contains(d) {
                    let x = s.index_of(d);
                    assert(list[x] == d);
                }
            }
        }
    }
}

proof fn lemma_count_from_same(
    lo: int,
    hi: int,
    f: spec_fn(int) -> bool,
    g: spec_fn(int) -> bool,
    owner: Seq<u32>,
    d: u32,
    bstart: Seq<u32>,
    nb: int,
)
    requires
        forall|p: int| lo <= p < hi ==> #[trigger] f(p) == (owner[p] == d && g(p)),
        forall|p: int| lo <= p < hi ==> #[trigger] owner[p] == d,
    ensures
        count_from(lo, hi, f) == count_from(lo, hi, g),
    decreases hi - lo,
{
    if lo < hi {
        lemma_count_from_same(lo, hi - 1, f, g, owner, d, bstart, nb);
        assert(f(hi - 1) == (owner[hi - 1] == d && g(hi - 1)));
    }
}

} // verus!
