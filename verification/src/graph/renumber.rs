//! Segment numbers that follow the order in which the graph refers to them.

use vstd::prelude::*;
use crate::dataset::head_ok;
use crate::graph::adjacency::{seg_id, REVERSED};

verus! {

/// Where a segment first comes up in the edge list; those that never do follow
/// in their old order.
pub open spec fn first_at(words: Seq<u32>, s: int, n: int) -> int
    decreases n,
{
    if n <= 0 {
        words.len() + s
    } else {
        let rest = first_at(words, s, n - 1);
        if rest >= words.len() && seg_id(words[n - 1]) == s {
            n - 1
        } else {
            rest
        }
    }
}

pub open spec fn first_of(words: Seq<u32>, s: int) -> int {
    first_at(words, s, words.len() as int)
}

proof fn lemma_first(words: Seq<u32>, s: int, n: int)
    requires
        0 <= n <= words.len(),
        0 <= s,
    ensures
        ({
            let f = first_at(words, s, n);
            ||| f == words.len() + s && forall|i: int|
                0 <= i < n ==> seg_id(#[trigger] words[i]) != s
            ||| 0 <= f < n && seg_id(words[f]) == s && forall|i: int|
                0 <= i < f ==> seg_id(#[trigger] words[i]) != s
        }),
    decreases n,
{
    if n > 0 {
        lemma_first(words, s, n - 1);
    }
}

/// Two segments never come up first at one place.
proof fn lemma_first_apart(words: Seq<u32>, a: int, b: int)
    requires
        0 <= a,
        0 <= b,
        a != b,
    ensures
        first_of(words, a) != first_of(words, b),
{
    lemma_first(words, a, words.len() as int);
    lemma_first(words, b, words.len() as int);
}

/// New numbers below `n`, all different, in the order of first mention.
pub open spec fn numbered(words: Seq<u32>, newid: Seq<u32>) -> bool {
    &&& forall|a: int| 0 <= a < newid.len() ==> (#[trigger] newid[a]) < newid.len()
    &&& forall|a: int, b: int|
        0 <= a < newid.len() && 0 <= b < newid.len() ==> (#[trigger] newid[a] < #[trigger] newid[b]
            <==> first_of(words, a) < first_of(words, b))
}

/// The segments that have a number have those below `next`, in order, and come
/// before all others.
spec fn part(words: Seq<u32>, newid: Seq<u32>, next: int, upto: int) -> bool {
    &&& forall|a: int|
        0 <= a < newid.len() ==> (#[trigger] newid[a] == u32::MAX || newid[a] < next)
    &&& forall|a: int|
        0 <= a < newid.len() ==> (#[trigger] newid[a] == u32::MAX <==> first_of(words, a) >= upto)
    &&& forall|a: int, b: int|
        0 <= a < newid.len() && 0 <= b < newid.len() && newid[a] != u32::MAX && newid[b] != u32::MAX
            ==> (#[trigger] newid[a] < #[trigger] newid[b] <==> first_of(words, a) < first_of(
            words,
            b,
        ))
}

/// How many segments have a number.
spec fn taken(newid: Seq<u32>, n: int) -> int
    decreases n,
{
    if n <= 0 {
        0
    } else {
        taken(newid, n - 1) + if newid[n - 1] == u32::MAX {
            0int
        } else {
            1
        }
    }
}

proof fn lemma_taken(newid: Seq<u32>, n: int)
    requires
        0 <= n <= newid.len(),
    ensures
        0 <= taken(newid, n) <= n,
        taken(newid, n) == n ==> forall|a: int| 0 <= a < n ==> (#[trigger] newid[a]) != u32::MAX,
    decreases n,
{
    if n > 0 {
        lemma_taken(newid, n - 1);
    }
}

proof fn lemma_take_one(newid: Seq<u32>, s: int, x: u32, n: int)
    requires
        0 <= n <= newid.len(),
        0 <= s < newid.len(),
        newid[s] == u32::MAX,
        x != u32::MAX,
    ensures
        taken(newid.update(s, x), n) == taken(newid, n) + if s < n {
            1int
        } else {
            0
        },
    decreases n,
{
    if n > 0 {
        lemma_take_one(newid, s, x, n - 1);
    }
}

proof fn lemma_part_step(
    words: Seq<u32>,
    a: Seq<u32>,
    next: u32,
    upto: int,
    s: int,
)
    requires
        part(words, a, next as int, upto),
        0 <= s < a.len() < u32::MAX,
        a[s] == u32::MAX,
        next < u32::MAX,
        first_of(words, s) == upto,
    ensures
        part(words, a.update(s, next), next + 1, upto + 1),
{
    let b = a.update(s, next);
    assert forall|x: int| 0 <= x < b.len() implies (#[trigger] b[x] == u32::MAX <==> first_of(
        words,
        x,
    ) >= upto + 1) by {
        assert(a[x] == u32::MAX <==> first_of(words, x) >= upto);
        if x != s {
            lemma_first_apart(words, x, s);
        }
    }
    assert forall|x: int, y: int|
        0 <= x < b.len() && 0 <= y < b.len() && b[x] != u32::MAX && b[y] != u32::MAX implies (
    #[trigger] b[x] < #[trigger] b[y] <==> first_of(words, x) < first_of(words, y)) by {
        if x != s {
            assert(a[x] != u32::MAX && a[x] < next);
            assert(first_of(words, x) < upto);
        }
        if y != s {
            assert(a[y] != u32::MAX && a[y] < next);
            assert(first_of(words, y) < upto);
        }
    }
}

/// Gives segments numbers in the order in which the edge list refers to them.
#[verifier::rlimit(30)]
pub fn new_ids(words: &[u32], nseg: usize) -> (newid: Vec<u32>)
    requires
        nseg < u32::MAX,
        words@.len() <= u32::MAX,
        forall|k: int| 0 <= k < words@.len() ==> seg_id(#[trigger] words@[k]) < nseg,
    ensures
        newid@.len() == nseg,
        numbered(words@, newid@),
{
    let mut newid: Vec<u32> = vec![u32::MAX; nseg];
    let mut next: u32 = 0;
    let mut k: usize = 0;
    let ghost w = words@;
    proof {
        lemma_none_taken(newid@, nseg as int);
        assert forall|a: int| 0 <= a < nseg implies (#[trigger] newid@[a] == u32::MAX
            <==> first_of(w, a) >= 0) by {
            lemma_first(w, a, w.len() as int);
        }
    }
    while k < words.len()
        invariant
            w == words@,
            nseg < u32::MAX,
            w.len() <= u32::MAX,
            forall|k: int| 0 <= k < w.len() ==> seg_id(#[trigger] w[k]) < nseg,
            k <= w.len(),
            newid@.len() == nseg,
            part(w, newid@, next as int, k as int),
            next == taken(newid@, nseg as int),
        decreases w.len() - k,
    {
        let word: u32 = words[k];
        let sid: usize = (if word >= REVERSED {
            word - REVERSED
        } else {
            word
        }) as usize;
        assert(seg_id(w[k as int]) == sid);
        let ghost a = newid@;
        proof {
            lemma_first(w, sid as int, w.len() as int);
            lemma_taken(a, nseg as int);
        }
        if newid[sid] == u32::MAX {
            proof {
                assert(first_of(w, sid as int) >= k);
                assert(first_of(w, sid as int) == k);
                lemma_part_step(w, a, next, k as int, sid as int);
                lemma_take_one(a, sid as int, next, nseg as int);
                lemma_taken(a.update(sid as int, next), nseg as int);
            }
            newid.set(sid, next);
            next = next + 1;
        } else {
            proof {
                assert(first_of(w, sid as int) < k);
                assert forall|x: int| 0 <= x < nseg implies (#[trigger] newid@[x] == u32::MAX
                    <==> first_of(w, x) >= k + 1) by {
                    lemma_first(w, x, w.len() as int);
                    if first_of(w, x) == k {
                        assert(seg_id(w[k as int]) == x);
                    }
                }
            }
        }
        k += 1;
    }
    let mut s: usize = 0;
    while s < nseg
        invariant
            w == words@,
            nseg < u32::MAX,
            s <= nseg,
            newid@.len() == nseg,
            part(w, newid@, next as int, w.len() + s),
            next == taken(newid@, nseg as int),
        decreases nseg - s,
    {
        let ghost a = newid@;
        proof {
            lemma_taken(a, nseg as int);
            lemma_first(w, s as int, w.len() as int);
        }
        if newid[s] == u32::MAX {
            proof {
                assert(first_of(w, s as int) >= w.len() + s);
                assert(first_of(w, s as int) == w.len() + s);
                lemma_part_step(w, a, next, w.len() + s, s as int);
                lemma_take_one(a, s as int, next, nseg as int);
                lemma_taken(a.update(s as int, next), nseg as int);
            }
            newid.set(s, next);
            next = next + 1;
        } else {
            proof {
                assert forall|x: int| 0 <= x < nseg implies (#[trigger] newid@[x] == u32::MAX
                    <==> first_of(w, x) >= w.len() + s + 1) by {
                    lemma_first(w, x, w.len() as int);
                }
            }
        }
        s += 1;
    }
    proof {
        lemma_taken(newid@, nseg as int);
        assert forall|x: int| 0 <= x < nseg implies (#[trigger] newid@[x]) < nseg by {
            lemma_first(w, x, w.len() as int);
            assert(newid@[x] == u32::MAX <==> first_of(w, x) >= w.len() + nseg);
        }
        assert forall|x: int, y: int| 0 <= x < nseg && 0 <= y < nseg implies (#[trigger] newid@[x]
            < #[trigger] newid@[y] <==> first_of(w, x) < first_of(w, y)) by {
            assert(newid@[x] < nseg && newid@[y] < nseg);
        }
    }
    newid
}

proof fn lemma_none_taken(newid: Seq<u32>, n: int)
    requires
        0 <= n <= newid.len(),
        forall|a: int| 0 <= a < newid.len() ==> (#[trigger] newid[a]) == u32::MAX,
    ensures
        taken(newid, n) == 0,
    decreases n,
{
    if n > 0 {
        lemma_none_taken(newid, n - 1);
    }
}

/// New numbers are all different.
pub proof fn lemma_numbered_apart(words: Seq<u32>, newid: Seq<u32>, a: int, b: int)
    requires
        numbered(words, newid),
        0 <= a < newid.len(),
        0 <= b < newid.len(),
        a != b,
    ensures
        newid[a] != newid[b],
{
    lemma_first_apart(words, a, b);
    assert(newid[a] < newid[b] <==> first_of(words, a) < first_of(words, b));
    assert(newid[b] < newid[a] <==> first_of(words, b) < first_of(words, a));
}

pub open spec fn apart(newid: Seq<u32>) -> bool {
    &&& forall|a: int| 0 <= a < newid.len() ==> (#[trigger] newid[a]) < newid.len()
    &&& forall|a: int, b: int|
        0 <= a < newid.len() && 0 <= b < newid.len() && a != b ==> #[trigger] newid[a]
            != #[trigger] newid[b]
}

/// A per-segment array under the new numbers.
pub fn permuted(old: &[u32], newid: &Vec<u32>) -> (new: Vec<u32>)
    requires
        old@.len() == newid@.len(),
        apart(newid@),
    ensures
        new@.len() == old@.len(),
        forall|o: int| 0 <= o < old@.len() ==> new@[(#[trigger] newid@[o]) as int] == old@[o],
{
    let n: usize = old.len();
    let mut new: Vec<u32> = vec![0u32; n];
    let mut o: usize = 0;
    while o < n
        invariant
            n == old@.len(),
            old@.len() == newid@.len(),
            apart(newid@),
            new@.len() == n,
            o <= n,
            forall|x: int| 0 <= x < o ==> new@[(#[trigger] newid@[x]) as int] == old@[x],
        decreases n - o,
    {
        assert(newid@[o as int] < n);
        new.set(newid[o] as usize, old[o]);
        o += 1;
    }
    new
}

/// Every number is taken: which segment has it.
fn inverse(newid: &Vec<u32>) -> (inv: Vec<u32>)
    requires
        apart(newid@),
        newid@.len() <= u32::MAX,
    ensures
        inv@.len() == newid@.len(),
        forall|n: int|
            0 <= n < inv@.len() ==> (#[trigger] inv@[n]) < newid@.len() && newid@[inv@[n] as int]
                == n,
{
    let n: usize = newid.len();
    let mut inv: Vec<u32> = vec![0u32; n];
    let mut o: usize = 0;
    while o < n
        invariant
            n == newid@.len(),
            n <= u32::MAX,
            apart(newid@),
            inv@.len() == n,
            o <= n,
            forall|x: int| 0 <= x < o ==> inv@[(#[trigger] newid@[x]) as int] == x,
        decreases n - o,
    {
        assert(newid@[o as int] < n);
        inv.set(newid[o] as usize, o as u32);
        o += 1;
    }
    proof {
        assert forall|m: int| 0 <= m < n implies (#[trigger] inv@[m]) < n && newid@[inv@[m] as int]
            == m by {
            lemma_onto(newid@, m);
            let x = choose|x: int| 0 <= x < newid@.len() && #[trigger] newid@[x] == m;
            assert(inv@[newid@[x] as int] == x);
        }
    }
    inv
}

/// Different numbers below the length leave none out.
pub(crate) proof fn lemma_onto(newid: Seq<u32>, m: int)
    requires
        apart(newid),
        0 <= m < newid.len(),
    ensures
        exists|x: int| 0 <= x < newid.len() && #[trigger] newid[x] == m,
{
    let n = newid.len() as int;
    let ids = newid.map_values(|x: u32| x as int);
    assert(ids.no_duplicates()) by {
        assert forall|i: int, j: int|
            0 <= i < ids.len() && 0 <= j < ids.len() && i != j implies ids[i] != ids[j] by {
            assert(newid[i] != newid[j]);
        }
    }
    ids.unique_seq_to_set();
    let all = vstd::set_lib::set_int_range(0, n);
    vstd::set_lib::lemma_int_range(0, n);
    assert(ids.to_set().subset_of(all)) by {
        assert forall|x: int| ids.to_set().contains(x) implies all.contains(x) by {
            let i = ids.index_of(x);
            assert(ids[i] == x);
            assert(newid[i] < n);
        }
    }
    vstd::set_lib::lemma_subset_equality(ids.to_set(), all);
    assert(all.contains(m));
    let x = ids.index_of(m);
    assert(ids[x] == m);
    assert(newid[x] == m);
}

/// The drawn points of segment `s`.
pub open spec fn drawn(off: Seq<u32>, pts: Seq<(i32, i32)>, s: int) -> Seq<(i32, i32)> {
    pts.subrange(off[s] as int, off[s + 1] as int)
}

/// Moves every segment's geometry to its new place.
#[verifier::rlimit(30)]
pub fn move_geometry(off: &[u32], pts: &[(i32, i32)], newid: &Vec<u32>) -> (r: (
    Vec<u32>,
    Vec<(i32, i32)>,
))
    requires
        apart(newid@),
        newid@.len() <= u32::MAX,
        off@.len() == newid@.len() + 1,
        head_ok(off@, pts@.len() as int),
        off@[0] == 0,
    ensures
        r.0@.len() == off@.len(),
        r.0@[0] == 0,
        head_ok(r.0@, r.1@.len() as int),
        r.1@.len() == pts@.len(),
        forall|o: int|
            0 <= o < newid@.len() ==> drawn(r.0@, r.1@, (#[trigger] newid@[o]) as int) == drawn(
                off@,
                pts@,
                o,
            ),
{
    let nseg: usize = newid.len();
    let inv: Vec<u32> = inverse(newid);
    let mut noff: Vec<u32> = Vec::new();
    let mut npts: Vec<(i32, i32)> = Vec::new();
    noff.push(0);
    let mut i: usize = 0;
    let ghost lens = Seq::new(nseg as nat, |n: int| off@[inv@[n] + 1] - off@[inv@[n] as int]);
    proof {
        lemma_total(off@, newid@, inv@, nseg as int);
    }
    while i < nseg
        invariant
            nseg == newid@.len(),
            nseg <= u32::MAX,
            apart(newid@),
            inv@.len() == nseg,
            forall|n: int|
                0 <= n < inv@.len() ==> (#[trigger] inv@[n]) < nseg && newid@[inv@[n] as int] == n,
            off@.len() == nseg + 1,
            head_ok(off@, pts@.len() as int),
            lens == Seq::new(nseg as nat, |n: int| off@[inv@[n] + 1] - off@[inv@[n] as int]),
            sum(lens, nseg as int) == pts@.len(),
            i <= nseg,
            noff@.len() == i + 1,
            noff@[0] == 0,
            noff@[i as int] == npts@.len(),
            npts@.len() == sum(lens, i as int),
            forall|a: int, b: int| 0 <= a <= b <= i ==> noff@[a] <= noff@[b],
            forall|n: int|
                0 <= n < i ==> #[trigger] drawn(noff@, npts@, n) == drawn(
                    off@,
                    pts@,
                    inv@[n] as int,
                ),
        decreases nseg - i,
    {
        let o: usize = inv[i] as usize;
        assert(off@[o as int] <= off@[o + 1] <= off@[nseg as int]);
        let (a, b): (usize, usize) = (off[o] as usize, off[o + 1] as usize);
        let ghost (p0, n0) = (npts@, noff@);
        let mut k: usize = a;
        while k < b
            invariant
                a <= k <= b <= pts@.len(),
                npts@ == p0 + pts@.subrange(a as int, k as int),
            decreases b - k,
        {
            npts.push(pts[k]);
            assert(npts@ =~= p0 + pts@.subrange(a as int, k + 1));
            k += 1;
        }
        proof {
            assert(lens[i as int] == b - a);
            lemma_sum_mono(lens, i + 1, nseg as int);
        }
        noff.push(npts.len() as u32);
        proof {
            assert forall|n: int| 0 <= n < i + 1 implies #[trigger] drawn(noff@, npts@, n) == drawn(
                off@,
                pts@,
                inv@[n] as int,
            ) by {
                if n < i {
                    assert(n0[n + 1] <= n0[i as int]);
                    assert(n0[n] <= n0[n + 1]);
                    assert(drawn(noff@, npts@, n) =~= drawn(n0, p0, n));
                } else {
                    assert(drawn(noff@, npts@, n) =~= pts@.subrange(a as int, b as int));
                }
            }
        }
        i += 1;
    }
    proof {
        assert forall|o: int| 0 <= o < nseg implies drawn(
            noff@,
            npts@,
            (#[trigger] newid@[o]) as int,
        ) == drawn(off@, pts@, o) by {
            let n = newid@[o] as int;
            assert(n < nseg);
            assert(newid@[inv@[n] as int] == n);
            assert(inv@[n] == o);
            assert(drawn(noff@, npts@, n) == drawn(off@, pts@, inv@[n] as int));
        }
    }
    (noff, npts)
}

spec fn sum(s: Seq<int>, n: int) -> int
    decreases n,
{
    if n <= 0 {
        0
    } else {
        sum(s, n - 1) + s[n - 1]
    }
}

proof fn lemma_sum_mono(s: Seq<int>, a: int, b: int)
    requires
        0 <= a <= b <= s.len(),
        forall|i: int| 0 <= i < s.len() ==> (#[trigger] s[i]) >= 0,
    ensures
        sum(s, a) <= sum(s, b),
    decreases b - a,
{
    if a < b {
        lemma_sum_mono(s, a, b - 1);
    }
}

/// However they are ordered, the lengths add up to the same.
proof fn lemma_total(off: Seq<u32>, newid: Seq<u32>, inv: Seq<u32>, n: int)
    requires
        n == newid.len(),
        inv.len() == n,
        off.len() == n + 1,
        off[0] == 0,
        apart(newid),
        forall|m: int| 0 <= m < n ==> (#[trigger] inv[m]) < n && newid[inv[m] as int] == m,
    ensures
        sum(Seq::new(n as nat, |m: int| off[inv[m] + 1] - off[inv[m] as int]), n) == off[n],
{
    let len = Seq::new(n as nat, |o: int| off[o + 1] - off[o]);
    let moved = Seq::new(n as nat, |m: int| off[inv[m] + 1] - off[inv[m] as int]);
    lemma_plain_sum(off, len, n);
    assert forall|a: int, b: int| 0 <= a < n && 0 <= b < n && a != b implies inv[a] != inv[b] by {
        assert(newid[inv[a] as int] == a && newid[inv[b] as int] == b);
    }
    lemma_reordered(len, moved, inv, n);
}

proof fn lemma_plain_sum(off: Seq<u32>, len: Seq<int>, n: int)
    requires
        0 <= n < off.len(),
        off[0] == 0,
        n <= len.len(),
        forall|o: int| 0 <= o < n ==> #[trigger] len[o] == off[o + 1] - off[o],
    ensures
        sum(len, n) == off[n],
    decreases n,
{
    if n > 0 {
        lemma_plain_sum(off, len, n - 1);
        assert(len[n - 1] == off[n - 1 + 1] - off[n - 1]);
    }
}

/// A sum over a reordering is the sum.
proof fn lemma_reordered(a: Seq<int>, b: Seq<int>, inv: Seq<u32>, n: int)
    requires
        n == a.len(),
        n == b.len(),
        n == inv.len(),
        forall|m: int| 0 <= m < n ==> (#[trigger] inv[m]) < n && b[m] == a[inv[m] as int],
        forall|x: int, y: int| 0 <= x < n && 0 <= y < n && x != y ==> inv[x] != inv[y],
    ensures
        sum(a, n) == sum(b, n),
    decreases n,
{
    if n > 0 {
        assert(apart(inv));
        lemma_onto(inv, n - 1);
        let p = choose|x: int| 0 <= x < inv.len() && #[trigger] inv[x] == n - 1;
        let q = inv[n - 1] as int;
        // Swap what stands at `p` with the last, and leave the last out.
        let inv2 = inv.update(p, inv[n - 1]).drop_last();
        let b2 = b.update(p, b[n - 1]).drop_last();
        let a2 = a.drop_last();
        assert forall|m: int| 0 <= m < n - 1 implies (#[trigger] inv2[m]) < n - 1 && b2[m]
            == a2[inv2[m] as int] by {
            if m == p {
                assert(inv[n - 1] != inv[p]);
            } else {
                assert(inv[m] != inv[p]);
            }
        }
        assert forall|x: int, y: int| 0 <= x < n - 1 && 0 <= y < n - 1 && x != y implies inv2[x]
            != inv2[y] by {
            if x == p {
                assert(inv[n - 1] != inv[y]);
            } else if y == p {
                assert(inv[x] != inv[n - 1]);
            } else {
                assert(inv[x] != inv[y]);
            }
        }
        lemma_reordered(a2, b2, inv2, n - 1);
        lemma_sum_same(a, a2, n - 1);
        lemma_sum_swap(b, p, n);
        lemma_sum_same(b.update(p, b[n - 1]), b2, n - 1);
        assert(b[p] == a[n - 1]);
    }
}

proof fn lemma_sum_same(a: Seq<int>, b: Seq<int>, n: int)
    requires
        0 <= n <= a.len(),
        n <= b.len(),
        forall|i: int| 0 <= i < n ==> a[i] == b[i],
    ensures
        sum(a, n) == sum(b, n),
    decreases n,
{
    if n > 0 {
        lemma_sum_same(a, b, n - 1);
    }
}

/// Putting the last item at `p` leaves out what stood there.
proof fn lemma_sum_swap(b: Seq<int>, p: int, n: int)
    requires
        n == b.len(),
        0 <= p < n,
    ensures
        sum(b, n) == sum(b.update(p, b[n - 1]), n - 1) + b[p],
{
    lemma_sum_update(b, p, b[n - 1], n - 1);
}

proof fn lemma_sum_update(b: Seq<int>, p: int, x: int, n: int)
    requires
        0 <= n <= b.len(),
        0 <= p < b.len(),
    ensures
        sum(b.update(p, x), n) == sum(b, n) + if p < n {
            x - b[p]
        } else {
            0
        },
    decreases n,
{
    if n > 0 {
        lemma_sum_update(b, p, x, n - 1);
    }
}

/// A segment word under the new numbers, its direction kept.
pub open spec fn reworded(newid: Seq<u32>, w: u32) -> u32 {
    if w >= REVERSED {
        (newid[w - REVERSED] + REVERSED) as u32
    } else {
        newid[w as int]
    }
}

/// Gives every segment word its new number.
pub fn reword(words: &Vec<u32>, newid: &Vec<u32>) -> (r: Vec<u32>)
    requires
        newid@.len() <= REVERSED,
        forall|a: int| 0 <= a < newid@.len() ==> (#[trigger] newid@[a]) < newid@.len(),
        forall|k: int| 0 <= k < words@.len() ==> seg_id(#[trigger] words@[k]) < newid@.len(),
    ensures
        r@.len() == words@.len(),
        forall|k: int| 0 <= k < words@.len() ==> #[trigger] r@[k] == reworded(newid@, words@[k]),
        forall|k: int| 0 <= k < words@.len() ==> seg_id(#[trigger] r@[k]) == newid@[seg_id(words@[k]) as int],
{
    let mut r: Vec<u32> = Vec::new();
    while r.len() < words.len()
        invariant
            newid@.len() <= REVERSED,
            forall|a: int| 0 <= a < newid@.len() ==> (#[trigger] newid@[a]) < newid@.len(),
            forall|k: int| 0 <= k < words@.len() ==> seg_id(#[trigger] words@[k]) < newid@.len(),
            r@.len() <= words@.len(),
            forall|k: int| 0 <= k < r@.len() ==> #[trigger] r@[k] == reworded(newid@, words@[k]),
            forall|k: int|
                0 <= k < r@.len() ==> seg_id(#[trigger] r@[k]) == newid@[seg_id(words@[k]) as int],
        decreases words@.len() - r@.len(),
    {
        let w: u32 = words[r.len()];
        let ghost k = r@.len() as int;
        assert(seg_id(words@[k]) < newid@.len());
        if w >= REVERSED {
            assert(newid@[w - REVERSED] < newid@.len());
            r.push(newid[(w - REVERSED) as usize] + REVERSED);
        } else {
            assert(newid@[w as int] < newid@.len());
            r.push(newid[w as usize]);
        }
    }
    r
}

} // verus!
