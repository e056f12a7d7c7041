//! Compressed rows: where the items of each key begin.

use vstd::prelude::*;
use crate::lookup::sorted;

verus! {

/// How many keys are below `i`.
pub open spec fn below(keys: Seq<u32>, i: int) -> nat
    decreases keys.len(),
{
    if keys.len() == 0 {
        0
    } else {
        below(keys.drop_last(), i) + if keys.last() < i {
            1nat
        } else {
            0nat
        }
    }
}

/// How many keys equal `i`.
pub open spec fn equal(keys: Seq<u32>, i: int) -> nat
    decreases keys.len(),
{
    if keys.len() == 0 {
        0
    } else {
        equal(keys.drop_last(), i) + if keys.last() == i {
            1nat
        } else {
            0nat
        }
    }
}

pub proof fn lemma_below_next(keys: Seq<u32>, i: int)
    ensures
        below(keys, i + 1) == below(keys, i) + equal(keys, i),
        below(keys, i) <= keys.len(),
    decreases keys.len(),
{
    if keys.len() > 0 {
        lemma_below_next(keys.drop_last(), i);
    }
}

pub proof fn lemma_below_mono(keys: Seq<u32>, i: int, j: int)
    requires
        i <= j,
    ensures
        below(keys, i) <= below(keys, j) <= keys.len(),
    decreases keys.len(),
{
    if keys.len() > 0 {
        lemma_below_mono(keys.drop_last(), i, j);
    }
}

pub proof fn lemma_below_ends(keys: Seq<u32>, n: int)
    requires
        forall|t: int| 0 <= t < keys.len() ==> keys[t] < n,
    ensures
        below(keys, 0) == 0,
        below(keys, n) == keys.len(),
    decreases keys.len(),
{
    if keys.len() > 0 {
        assert forall|t: int| 0 <= t < keys.drop_last().len() implies keys.drop_last()[t] < n by {
            assert(keys.drop_last()[t] == keys[t]);
        }
        lemma_below_ends(keys.drop_last(), n);
        assert(keys.last() == keys[keys.len() - 1]);
    }
}

pub proof fn lemma_equal_take(keys: Seq<u32>, t: int, i: int)
    requires
        0 <= t < keys.len(),
    ensures
        equal(keys.take(t + 1), i) == equal(keys.take(t), i) + (if keys[t] == i {
            1nat
        } else {
            0nat
        }),
{
    assert(keys.take(t + 1).drop_last() =~= keys.take(t));
}

/// Where the items of each key begin: `head[i]` counts the keys below `i`.
pub fn heads(keys: &[u32], n: usize) -> (head: Vec<u32>)
    requires
        keys@.len() <= u32::MAX,
        n < usize::MAX,
        forall|t: int| 0 <= t < keys@.len() ==> keys@[t] < n,
    ensures
        head@.len() == n + 1,
        forall|i: int| 0 <= i <= n ==> #[trigger] head@[i] == below(keys@, i),
{
    let mut head: Vec<u32> = vec![0u32; n + 1];
    let mut t: usize = 0;
    assert(keys@.take(0) =~= Seq::<u32>::empty());
    while t < keys.len()
        invariant
            keys@.len() <= u32::MAX,
            forall|t: int| 0 <= t < keys@.len() ==> keys@[t] < n,
            t <= keys@.len(),
            head@.len() == n + 1,
            head@[0] == 0,
            forall|i: int| 0 <= i < n ==> #[trigger] head@[i + 1] == equal(keys@.take(t as int), i),
        decreases keys@.len() - t,
    {
        let c: usize = keys[t] as usize;
        proof {
            assert forall|i: int| 0 <= i < n implies #[trigger] head@[i + 1] == equal(
                keys@.take(t as int),
                i,
            ) && equal(keys@.take(t + 1), i) == equal(keys@.take(t as int), i) + (if c == i {
                1nat
            } else {
                0nat
            }) by {
                lemma_equal_take(keys@, t as int, i);
            }
            lemma_below_next(keys@.take(t as int), c as int);
            lemma_below_mono(keys@.take(t as int), c as int, c + 1);
            assert(head@[c + 1] == equal(keys@.take(t as int), c as int));
        }
        let ghost h0 = head@;
        head[c + 1] = head[c + 1] + 1;
        proof {
            assert forall|i: int| 0 <= i < n implies #[trigger] head@[i + 1] == equal(
                keys@.take(t + 1),
                i,
            ) by {
                assert(h0[i + 1] == equal(keys@.take(t as int), i));
            }
        }
        t += 1;
    }
    proof {
        assert(keys@.take(t as int) =~= keys@);
        lemma_below_ends(keys@, n as int);
        assert forall|j: int| 1 <= j <= n implies #[trigger] head@[j] == equal(keys@, j - 1) by {
            assert(head@[(j - 1) + 1] == equal(keys@.take(t as int), j - 1));
        }
    }
    let mut i: usize = 1;
    while i <= n
        invariant
            n < usize::MAX,
            keys@.len() <= u32::MAX,
            1 <= i <= n + 1,
            head@.len() == n + 1,
            forall|j: int| 0 <= j < i ==> #[trigger] head@[j] == below(keys@, j),
            forall|j: int| i <= j <= n ==> #[trigger] head@[j] == equal(keys@, j - 1),
        decreases n + 1 - i,
    {
        proof {
            lemma_below_next(keys@, i - 1);
            lemma_below_mono(keys@, i - 1, i as int);
            assert(head@[i - 1] == below(keys@, i - 1));
            assert(head@[i as int] == equal(keys@, i - 1));
        }
        head[i] = head[i] + head[i - 1];
        i += 1;
    }
    head
}

/// In a sorted list the items of key `c` stand exactly between its two heads.
pub proof fn lemma_block(keys: Seq<u32>, t: int, c: int)
    requires
        sorted(keys),
        0 <= t < keys.len(),
    ensures
        keys[t] == c <==> below(keys, c) <= t < below(keys, c + 1),
        keys[t] < c <==> t < below(keys, c),
{
    lemma_below_sorted(keys, t, c);
    lemma_below_sorted(keys, t, c + 1);
}

pub proof fn lemma_below_sorted(keys: Seq<u32>, t: int, c: int)
    requires
        sorted(keys),
        0 <= t < keys.len(),
    ensures
        keys[t] < c <==> t < below(keys, c),
    decreases keys.len(),
{
    let d = keys.drop_last();
    assert forall|i: int, j: int| 0 <= i <= j < d.len() implies d[i] <= d[j] by {
        assert(d[i] == keys[i] && d[j] == keys[j]);
    }
    lemma_below_mono(d, c, c);
    if t < d.len() {
        lemma_below_sorted(d, t, c);
        assert(d[t] == keys[t]);
        if keys.last() < c {
            assert(keys[t] <= keys[keys.len() - 1]);
        }
    } else {
        if keys.last() < c {
            lemma_all_below(d, c);
        }
    }
}

proof fn lemma_all_below(keys: Seq<u32>, c: int)
    requires
        sorted(keys),
        forall|t: int| 0 <= t < keys.len() ==> keys[t] < c,
    ensures
        below(keys, c) == keys.len(),
    decreases keys.len(),
{
    if keys.len() > 0 {
        let d = keys.drop_last();
        assert forall|t: int| 0 <= t < d.len() implies d[t] < c by {
            assert(d[t] == keys[t]);
        }
        assert forall|i: int, j: int| 0 <= i <= j < d.len() implies d[i] <= d[j] by {
            assert(d[i] == keys[i] && d[j] == keys[j]);
        }
        lemma_all_below(d, c);
        assert(keys.last() == keys[keys.len() - 1]);
    }
}

/// Where item `t` belongs when items are gathered by key, each key's items
/// staying in order.
pub open spec fn slot(keys: Seq<u32>, t: int) -> int {
    below(keys, keys[t] as int) as int + equal(keys.take(t), keys[t] as int)
}

/// Different items get different slots.
pub proof fn lemma_slots_apart(keys: Seq<u32>, s: int, t: int)
    requires
        0 <= s < t < keys.len(),
    ensures
        slot(keys, s) != slot(keys, t),
        0 <= slot(keys, s) < keys.len(),
        0 <= slot(keys, t) < keys.len(),
        below(keys, keys[s] as int) <= slot(keys, s) < below(keys, keys[s] + 1),
{
    lemma_slot_range(keys, s);
    lemma_slot_range(keys, t);
    if keys[s] == keys[t] {
        lemma_equal_mono(keys, s + 1, t, keys[s] as int);
        lemma_equal_take(keys, s, keys[s] as int);
    } else if keys[s] < keys[t] {
        lemma_below_mono(keys, keys[s] + 1, keys[t] as int);
    } else {
        lemma_below_mono(keys, keys[t] + 1, keys[s] as int);
    }
}

pub proof fn lemma_slot_range(keys: Seq<u32>, t: int)
    requires
        0 <= t < keys.len(),
    ensures
        below(keys, keys[t] as int) <= slot(keys, t) < below(keys, keys[t] + 1) <= keys.len(),
{
    let c = keys[t] as int;
    lemma_below_next(keys, c);
    lemma_below_mono(keys, c + 1, c + 1);
    lemma_equal_take(keys, t, c);
    lemma_equal_mono(keys, t + 1, keys.len() as int, c);
    assert(keys.take(keys.len() as int) =~= keys);
}

proof fn lemma_equal_mono(keys: Seq<u32>, a: int, b: int, c: int)
    requires
        0 <= a <= b <= keys.len(),
    ensures
        equal(keys.take(a), c) <= equal(keys.take(b), c),
    decreases b - a,
{
    if a < b {
        lemma_equal_mono(keys, a, b - 1, c);
        lemma_equal_take(keys, b - 1, c);
    }
}

/// Gather the item numbers `0..` by key: where each item goes.
pub fn slots(keys: &[u32], head: &Vec<u32>) -> (r: Vec<u32>)
    requires
        keys@.len() <= u32::MAX,
        head@.len() >= 1,
        forall|t: int| 0 <= t < keys@.len() ==> keys@[t] < head@.len() - 1,
        forall|i: int| 0 <= i < head@.len() ==> #[trigger] head@[i] == below(keys@, i),
    ensures
        r@.len() == keys@.len(),
        forall|t: int| 0 <= t < keys@.len() ==> #[trigger] r@[t] == slot(keys@, t),
{
    let mut cursor: Vec<u32> = Vec::new();
    let mut i: usize = 0;
    assert(keys@.take(0) =~= Seq::<u32>::empty());
    while i < head.len()
        invariant
            i <= head@.len(),
            cursor@.len() == i,
            forall|j: int| 0 <= j < head@.len() ==> #[trigger] head@[j] == below(keys@, j),
            forall|j: int| 0 <= j < i ==> #[trigger] cursor@[j] == below(keys@, j),
        decreases head@.len() - i,
    {
        cursor.push(head[i]);
        i += 1;
    }
    let mut r: Vec<u32> = Vec::new();
    let mut t: usize = 0;
    while t < keys.len()
        invariant
            keys@.len() <= u32::MAX,
            t <= keys@.len(),
            r@.len() == t,
            cursor@.len() == head@.len(),
            forall|t: int| 0 <= t < keys@.len() ==> keys@[t] < head@.len() - 1,
            forall|j: int|
                0 <= j < cursor@.len() ==> #[trigger] cursor@[j] == below(keys@, j) + equal(
                    keys@.take(t as int),
                    j,
                ),
            forall|s: int| 0 <= s < t ==> #[trigger] r@[s] == slot(keys@, s),
        decreases keys@.len() - t,
    {
        let c: usize = keys[t] as usize;
        assert(cursor@[c as int] == slot(keys@, t as int));
        proof {
            lemma_slot_range(keys@, t as int);
            assert forall|j: int| 0 <= j < cursor@.len() implies equal(keys@.take(t + 1), j)
                == #[trigger] equal(keys@.take(t as int), j) + (if c == j {
                1nat
            } else {
                0nat
            }) by {
                lemma_equal_take(keys@, t as int, j);
            }
        }
        let ghost c0 = cursor@;
        r.push(cursor[c]);
        cursor[c] = cursor[c] + 1;
        proof {
            assert forall|j: int| 0 <= j < cursor@.len() implies #[trigger] cursor@[j] == below(
                keys@,
                j,
            ) + equal(keys@.take(t + 1), j) by {
                assert(c0[j] == below(keys@, j) + equal(keys@.take(t as int), j));
            }
        }
        t += 1;
    }
    r
}

} // verus!
