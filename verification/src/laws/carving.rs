//! The limits that cells keep as they grow.

use vstd::prelude::*;
use vstd::multiset::Multiset;
use crate::overlay::gateindex::{count_in, lemma_count_same, outsider};
use crate::overlay::growth::{
    grow_all, grow_cell, held, holder, lemma_heft_update, lemma_held_update, lemma_take_free,
    near_in, next_of, nothing, passed_over, spread_all, spread_cell, take_free, Cand, Rules,
    Terrain,
};
use crate::overlay::partition::FREE;

verus! {

/// Only free regions were taken, and only by the cell.
pub open spec fn took_free(lof: Seq<u32>, id: u32, now: Seq<u32>) -> bool {
    &&& now.len() == lof.len()
    &&& forall|d: int|
        0 <= d < lof.len() ==> #[trigger] now[d] == lof[d] || (lof[d] == FREE && now[d] == id)
}

/// The cell keeps to the limits, or holds one region that no limit can part.
pub open spec fn within(t: Terrain, rules: Rules, lof: Seq<u32>, id: u32) -> bool {
    held(lof, id) == 1 || {
        &&& t.weight(lof, id) <= rules.target
        &&& t.gx.gates_of(lof, id) <= rules.cap
        &&& held(lof, id) <= rules.agg
    }
}

proof fn lemma_grown(
    t: Terrain,
    rules: Rules,
    pairs: Seq<(u32, u32)>,
    lof: Seq<u32>,
    id: u32,
    q: Multiset<Cand>,
)
    requires
        lof.len() == t.n(),
        id != FREE,
        t.weight(lof, id) > 0,
        within(t, rules, lof, id),
    ensures
        took_free(lof, id, grow_cell(t, rules, pairs, lof, id, q)),
        within(t, rules, grow_cell(t, rules, pairs, lof, id, q), id),
    decreases held(lof, FREE), q.len(),
{
    if q.len() == 0 || !q.contains(next_of(q)) || !(0 <= next_of(q).d < lof.len()) || id == FREE {
    } else {
        let d = next_of(q).d;
        let rest = q.remove(next_of(q));
        if t.weight(lof, id) >= rules.target || held(lof, id) >= rules.agg {
        } else if passed_over(t, rules, lof, id, d) {
            lemma_grown(t, rules, pairs, lof, id, rest);
        } else {
            let lof2 = lof.update(d as int, id);
            lemma_held_update(lof, d as int, id);
            lemma_heft_update(t, lof, d as int, id, t.n());
            let more = rest.add(t.offers(rules, pairs, lof2, id, t.near(d as int)));
            lemma_grown(t, rules, pairs, lof2, id, more);
            let now = grow_cell(t, rules, pairs, lof, id, q);
            assert forall|x: int| 0 <= x < lof.len() implies #[trigger] now[x] == lof[x] || (lof[x]
                == FREE && now[x] == id) by {
                assert(now[x] == lof2[x] || (lof2[x] == FREE && now[x] == id));
            }
        }
    }
}

/// The cell holds the same regions.
spec fn same_cell(a: Seq<u32>, b: Seq<u32>, c: u32) -> bool {
    &&& a.len() == b.len()
    &&& forall|d: int| 0 <= d < a.len() ==> (#[trigger] a[d] == c) == (b[d] == c)
}

proof fn lemma_same_heft(t: Terrain, a: Seq<u32>, b: Seq<u32>, c: u32, n: int)
    requires
        same_cell(a, b, c),
        0 <= n <= a.len(),
    ensures
        t.heft(a, c, n) == t.heft(b, c, n),
    decreases n,
{
    if n > 0 {
        lemma_same_heft(t, a, b, c, n - 1);
        assert((a[n - 1] == c) == (b[n - 1] == c));
    }
}

proof fn lemma_same_outs(list: Seq<u32>, a: Seq<u32>, b: Seq<u32>, c: u32)
    requires
        same_cell(a, b, c),
        forall|i: int| 0 <= i < list.len() ==> (#[trigger] list[i]) < a.len(),
    ensures
        count_in(list, outsider(a, c)) == count_in(list, outsider(b, c)),
    decreases list.len(),
{
    if list.len() > 0 {
        let l0 = list.drop_last();
        assert forall|i: int| 0 <= i < l0.len() implies (#[trigger] l0[i]) < a.len() by {
            assert(l0[i] == list[i]);
        }
        lemma_same_outs(l0, a, b, c);
        let x = list[list.len() - 1] as int;
        assert(x < a.len());
        assert((a[x] == c) == (b[x] == c));
    }
}

proof fn lemma_same_within(t: Terrain, rules: Rules, a: Seq<u32>, b: Seq<u32>, c: u32)
    requires
        t.wf(),
        a.len() == t.n(),
        same_cell(a, b, c),
        within(t, rules, a, c),
    ensures
        within(t, rules, b, c),
{
    lemma_same_heft(t, a, b, c, t.n());
    assert forall|i: int| 0 <= i < a.len() implies #[trigger] holder(a, c)(i) == #[trigger] holder(
        b,
        c,
    )(i) by {
        assert((a[i] == c) == (b[i] == c));
    }
    lemma_count_same(a.len() as int, holder(a, c), holder(b, c));
    assert forall|p: int| 0 <= p < t.gx.nb() implies #[trigger] t.gx.gate_at(a, c)(p)
        == #[trigger] t.gx.gate_at(b, c)(p) by {
        let o = t.gx.owner@[p] as int;
        assert((a[o] == c) == (b[o] == c));
        assert forall|i: int| 0 <= i < t.gx.faces(p).len() implies (#[trigger] t.gx.faces(p)[i])
            < a.len() by {}
        lemma_same_outs(t.gx.faces(p), a, b, c);
    }
    lemma_count_same(t.gx.nb(), t.gx.gate_at(a, c), t.gx.gate_at(b, c));
}

/// What the cells so far keep.
spec fn grown_so_far(t: Terrain, rules: Rules, lof: Seq<u32>, s: int, cells: int) -> bool {
    &&& lof.len() == t.n()
    &&& 0 <= cells <= s
    &&& forall|d: int| 0 <= d < lof.len() ==> #[trigger] lof[d] == FREE || lof[d] < cells
    &&& forall|d: int| 0 <= d < s ==> #[trigger] lof[d] != FREE
    &&& forall|c: u32| c < cells ==> #[trigger] within(t, rules, lof, c)
}

proof fn lemma_alone(lof: Seq<u32>, s: int, id: u32)
    requires
        0 <= s < lof.len(),
        forall|d: int| 0 <= d < lof.len() ==> #[trigger] lof[d] != id,
    ensures
        held(lof.update(s, id), id) == 1,
{
    lemma_held_update(lof, s, id);
    lemma_none(lof, id, lof.len() as int);
}

proof fn lemma_none(lof: Seq<u32>, id: u32, n: int)
    requires
        0 <= n <= lof.len(),
        forall|d: int| 0 <= d < lof.len() ==> #[trigger] lof[d] != id,
    ensures
        crate::overlay::gateindex::count(n, holder(lof, id)) == 0,
    decreases n,
{
    if n > 0 {
        lemma_none(lof, id, n - 1);
        assert(lof[n - 1] != id);
    }
}

proof fn lemma_all_grown(
    t: Terrain,
    rules: Rules,
    pairs: Seq<(u32, u32)>,
    lof: Seq<u32>,
    s: int,
    cells: int,
)
    requires
        t.wf(),
        forall|d: int| 0 <= d < t.n() ==> (#[trigger] t.csize@[d]) > 0,
        grown_so_far(t, rules, lof, s, cells),
        0 <= s <= t.n(),
    ensures
        ({
            let (end, n) = grow_all(t, rules, pairs, lof, s, cells);
            grown_so_far(t, rules, end, t.n(), n)
        }),
    decreases t.n() - s,
{
    if s < t.n() {
        if lof[s] == FREE {
            let id = cells as u32;
            let lof1 = lof.update(s, id);
            assert forall|d: int| 0 <= d < lof.len() implies #[trigger] lof[d] != id by {
                assert(lof[d] == FREE || lof[d] < cells);
            }
            lemma_alone(lof, s, id);
            lemma_heft_update(t, lof, s, id, t.n());
            assert(t.csize@[s] > 0);
            let q = t.offers(rules, pairs, lof1, id, t.near(s));
            lemma_grown(t, rules, pairs, lof1, id, q);
            let now = grow_cell(t, rules, pairs, lof1, id, q);
            assert forall|c: u32| c < cells + 1 implies #[trigger] within(t, rules, now, c) by {
                if c != id {
                    assert(within(t, rules, lof, c));
                    assert forall|d: int| 0 <= d < lof.len() implies (#[trigger] lof[d] == c) == (
                    now[d] == c) by {
                        assert(now[d] == lof1[d] || (lof1[d] == FREE && now[d] == id));
                    }
                    lemma_same_within(t, rules, lof, now, c);
                }
            }
            assert forall|d: int| 0 <= d < now.len() implies #[trigger] now[d] == FREE || now[d]
                < cells + 1 by {
                assert(now[d] == lof1[d] || (lof1[d] == FREE && now[d] == id));
                assert(lof[d] == FREE || lof[d] < cells);
            }
            assert forall|d: int| 0 <= d < s + 1 implies #[trigger] now[d] != FREE by {
                assert(now[d] == lof1[d] || (lof1[d] == FREE && now[d] == id));
                if d < s {
                    assert(lof[d] != FREE);
                }
            }
            lemma_all_grown(t, rules, pairs, now, s + 1, cells + 1);
        } else {
            lemma_all_grown(t, rules, pairs, lof, s + 1, cells);
        }
    }
}

/// Cells that are grown by their gates take every region and keep to their
/// limits, on vertices, on gates and on regions; only a cell of one region may
/// be beyond them.
pub proof fn lemma_cells_within(t: Terrain, rules: Rules, pairs: Seq<(u32, u32)>)
    requires
        t.wf(),
        forall|d: int| 0 <= d < t.n() ==> (#[trigger] t.csize@[d]) > 0,
    ensures
        ({
            let (lof, cells) = grow_all(t, rules, pairs, nothing(t.n()), 0, 0);
            &&& lof.len() == t.n()
            &&& forall|d: int| 0 <= d < t.n() ==> (#[trigger] lof[d]) < cells
            &&& forall|c: u32| c < cells ==> #[trigger] within(t, rules, lof, c)
        }),
{
    let none = nothing(t.n());
    assert(grown_so_far(t, rules, none, 0, 0));
    lemma_all_grown(t, rules, pairs, none, 0, 0);
    let (lof, cells) = grow_all(t, rules, pairs, none, 0, 0);
    assert forall|d: int| 0 <= d < t.n() implies (#[trigger] lof[d]) < cells by {
        assert(lof[d] != FREE);
    }
}

// ------------------------------------------------------- grown by vertices

/// No region holds more than so many vertices.
pub open spec fn none_larger(t: Terrain, most: int) -> bool {
    forall|d: int| 0 <= d < t.n() ==> (#[trigger] t.csize@[d]) <= most
}

proof fn lemma_taken(
    t: Terrain,
    lof: Seq<u32>,
    id: u32,
    target: int,
    list: Seq<u32>,
    most: int,
    limit: int,
)
    requires
        lof.len() == t.n(),
        id != FREE,
        none_larger(t, most),
        forall|i: int| 0 <= i < list.len() ==> (#[trigger] list[i]) < lof.len(),
        t.weight(lof, id) <= limit,
        target + most <= limit,
    ensures
        took_free(lof, id, take_free(t, lof, id, target, list).0),
        t.weight(take_free(t, lof, id, target, list).0, id) <= limit,
    decreases list.len(),
{
    if list.len() == 0 || t.weight(lof, id) >= target {
    } else {
        let d = list[0] as int;
        let rest = list.drop_first();
        assert forall|i: int| 0 <= i < rest.len() implies (#[trigger] rest[i]) < lof.len() by {
            assert(rest[i] == list[i + 1]);
        }
        if lof[d] == FREE {
            let lof2 = lof.update(d, id);
            lemma_heft_update(t, lof, d, id, t.n());
            assert(t.csize@[d] <= most);
            lemma_taken(t, lof2, id, target, rest, most, limit);
            let now = take_free(t, lof, id, target, list).0;
            assert forall|x: int| 0 <= x < lof.len() implies #[trigger] now[x] == lof[x] || (lof[x]
                == FREE && now[x] == id) by {
                assert(now[x] == lof2[x] || (lof2[x] == FREE && now[x] == id));
            }
        } else {
            lemma_taken(t, lof, id, target, rest, most, limit);
        }
    }
}

proof fn lemma_spread(
    t: Terrain,
    lof: Seq<u32>,
    id: u32,
    target: int,
    queue: Seq<u32>,
    most: int,
    limit: int,
)
    requires
        lof.len() == t.n(),
        id != FREE,
        none_larger(t, most),
        t.weight(lof, id) <= limit,
        target + most <= limit,
    ensures
        took_free(lof, id, spread_cell(t, lof, id, target, queue)),
        t.weight(spread_cell(t, lof, id, target, queue), id) <= limit,
    decreases held(lof, FREE), queue.len(),
{
    if queue.len() == 0 || t.weight(lof, id) >= target || id == FREE || !near_in(
        t,
        lof,
        queue[0],
    ) {
    } else {
        let near = t.near(queue[0] as int);
        let (lof2, taken) = take_free(t, lof, id, target, near);
        lemma_taken(t, lof, id, target, near, most, limit);
        lemma_take_free(t, lof, id, target, near);
        lemma_spread(t, lof2, id, target, queue.drop_first() + taken, most, limit);
        let now = spread_cell(t, lof, id, target, queue);
        assert forall|x: int| 0 <= x < lof.len() implies #[trigger] now[x] == lof[x] || (lof[x]
            == FREE && now[x] == id) by {
            assert(now[x] == lof2[x] || (lof2[x] == FREE && now[x] == id));
            assert(lof2[x] == lof[x] || (lof[x] == FREE && lof2[x] == id));
        }
    }
}

spec fn spread_so_far(t: Terrain, lof: Seq<u32>, s: int, cells: int, limit: int) -> bool {
    &&& lof.len() == t.n()
    &&& 0 <= cells <= s
    &&& forall|d: int| 0 <= d < lof.len() ==> #[trigger] lof[d] == FREE || lof[d] < cells
    &&& forall|d: int| 0 <= d < s ==> #[trigger] lof[d] != FREE
    &&& forall|c: u32| c < cells ==> #[trigger] t.weight(lof, c) <= limit
}

proof fn lemma_empty_weight(t: Terrain, lof: Seq<u32>, id: u32, n: int)
    requires
        0 <= n <= lof.len(),
        forall|d: int| 0 <= d < lof.len() ==> #[trigger] lof[d] != id,
    ensures
        t.heft(lof, id, n) == 0,
    decreases n,
{
    if n > 0 {
        lemma_empty_weight(t, lof, id, n - 1);
        assert(lof[n - 1] != id);
    }
}

proof fn lemma_all_spread(
    t: Terrain,
    target: int,
    lof: Seq<u32>,
    s: int,
    cells: int,
    most: int,
    limit: int,
)
    requires
        t.wf(),
        none_larger(t, most),
        target >= 0,
        target + most <= limit,
        spread_so_far(t, lof, s, cells, limit),
        0 <= s <= t.n(),
    ensures
        ({
            let (end, n) = spread_all(t, target, lof, s, cells);
            spread_so_far(t, end, t.n(), n, limit)
        }),
    decreases t.n() - s,
{
    if s < t.n() {
        if lof[s] == FREE {
            let id = cells as u32;
            let lof1 = lof.update(s, id);
            assert forall|d: int| 0 <= d < lof.len() implies #[trigger] lof[d] != id by {
                assert(lof[d] == FREE || lof[d] < cells);
            }
            lemma_empty_weight(t, lof, id, t.n());
            lemma_heft_update(t, lof, s, id, t.n());
            assert(t.csize@[s] <= most);
            let q = seq![s as u32];
            lemma_spread(t, lof1, id, target, q, most, limit);
            let now = spread_cell(t, lof1, id, target, q);
            assert forall|c: u32| c < cells + 1 implies #[trigger] t.weight(now, c) <= limit by {
                if c != id {
                    assert(t.weight(lof, c) <= limit);
                    assert forall|d: int| 0 <= d < lof.len() implies (#[trigger] lof[d] == c) == (
                    now[d] == c) by {
                        assert(now[d] == lof1[d] || (lof1[d] == FREE && now[d] == id));
                    }
                    lemma_same_heft(t, lof, now, c, t.n());
                }
            }
            assert forall|d: int| 0 <= d < now.len() implies #[trigger] now[d] == FREE || now[d]
                < cells + 1 by {
                assert(now[d] == lof1[d] || (lof1[d] == FREE && now[d] == id));
                assert(lof[d] == FREE || lof[d] < cells);
            }
            assert forall|d: int| 0 <= d < s + 1 implies #[trigger] now[d] != FREE by {
                assert(now[d] == lof1[d] || (lof1[d] == FREE && now[d] == id));
                if d < s {
                    assert(lof[d] != FREE);
                }
            }
            lemma_all_spread(t, target, now, s + 1, cells + 1, most, limit);
        } else {
            lemma_all_spread(t, target, lof, s + 1, cells, most, limit);
        }
    }
}

/// Cells that are grown by their vertices take every region, and none is larger
/// than its target by more than the largest region.
pub proof fn lemma_spread_within(t: Terrain, target: int, most: int)
    requires
        t.wf(),
        target >= 0,
        none_larger(t, most),
    ensures
        ({
            let (lof, cells) = spread_all(t, target, nothing(t.n()), 0, 0);
            &&& lof.len() == t.n()
            &&& forall|d: int| 0 <= d < t.n() ==> (#[trigger] lof[d]) < cells
            &&& forall|c: u32| c < cells ==> #[trigger] t.weight(lof, c) <= target + most
        }),
{
    let none = nothing(t.n());
    assert(spread_so_far(t, none, 0, 0, target + most));
    lemma_all_spread(t, target, none, 0, 0, most, target + most);
    let (lof, cells) = spread_all(t, target, none, 0, 0);
    assert forall|d: int| 0 <= d < t.n() implies (#[trigger] lof[d]) < cells by {
        assert(lof[d] != FREE);
    }
}

} // verus!
