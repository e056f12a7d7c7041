//! What every rung counted of its members' use, summed per vertex.

use vstd::prelude::*;
use crate::lookup::keyed;
use crate::overlay::shape::{Lazy, Overlay, Values};
use crate::sorting::{pair_le, pairs_sorted, sort_pairs};

verus! {

/// What the pairs of `v` add up to.
pub open spec fn tally(pairs: Seq<(u32, u32)>, v: u32) -> int
    decreases pairs.len(),
{
    if pairs.len() == 0 {
        0
    } else {
        tally(pairs.drop_last(), v) + if pairs.last().0 == v {
            pairs.last().1 as int
        } else {
            0
        }
    }
}

/// The members of a level that were used, with how often.
pub open spec fn used(vlist: Seq<u32>, counts: Seq<u32>, n: int) -> Seq<(u32, u32)>
    decreases n,
{
    if n <= 0 {
        Seq::empty()
    } else if counts[n - 1] > 0 {
        used(vlist, counts, n - 1).push((vlist[n - 1], counts[n - 1]))
    } else {
        used(vlist, counts, n - 1)
    }
}

/// The same over the first `n` levels.
pub open spec fn all_used(ov: Overlay, n: int) -> Seq<(u32, u32)>
    decreases n,
{
    if n <= 0 {
        Seq::empty()
    } else {
        let lv = ov.levels@[n - 1];
        all_used(ov, n - 1) + if lv.values is Lazy {
            used(lv.lazy().vlist@, lv.lazy().counts(), lv.lazy().counts().len() as int)
        } else {
            Seq::empty()
        }
    }
}

/// How often a vertex was used on all rungs together, as far as the number
/// fits.
pub open spec fn total(pairs: Seq<(u32, u32)>, v: u32) -> int {
    if tally(pairs, v) > u32::MAX {
        u32::MAX as int
    } else {
        tally(pairs, v)
    }
}

proof fn lemma_tally_push(s: Seq<(u32, u32)>, x: (u32, u32), v: u32)
    ensures
        tally(s.push(x), v) == tally(s, v) + if x.0 == v {
            x.1 as int
        } else {
            0
        },
{
    assert(s.push(x).drop_last() =~= s);
}

proof fn lemma_tally_remove(s: Seq<(u32, u32)>, i: int, v: u32)
    requires
        0 <= i < s.len(),
    ensures
        tally(s, v) == tally(s.remove(i), v) + if s[i].0 == v {
            s[i].1 as int
        } else {
            0
        },
    decreases s.len(),
{
    if i == s.len() - 1 {
        assert(s.remove(i) =~= s.drop_last());
    } else {
        lemma_tally_remove(s.drop_last(), i, v);
        assert(s.remove(i).drop_last() =~= s.drop_last().remove(i));
        assert(s.remove(i).last() == s.last());
    }
}

/// The order of the pairs does not matter.
proof fn lemma_tally_order(a: Seq<(u32, u32)>, b: Seq<(u32, u32)>, v: u32)
    requires
        a.to_multiset() == b.to_multiset(),
    ensures
        tally(a, v) == tally(b, v),
    decreases a.len(),
{
    broadcast use vstd::seq_lib::group_to_multiset_ensures;

    crate::sorting::lemma_same_items(a, b);
    if a.len() > 0 {
        let x = a.last();
        assert(a.contains(x));
        assert(b.contains(x));
        let i = b.index_of(x);
        assert(a.remove(a.len() - 1) =~= a.drop_last());
        assert(a.drop_last().to_multiset() =~= a.to_multiset().remove(x));
        assert(b.remove(i).to_multiset() =~= b.to_multiset().remove(x));
        lemma_tally_order(a.drop_last(), b.remove(i), v);
        lemma_tally_remove(b, i, v);
    }
}

proof fn lemma_tally_nonneg(s: Seq<(u32, u32)>, v: u32)
    ensures
        tally(s, v) >= 0,
    decreases s.len(),
{
    if s.len() > 0 {
        lemma_tally_nonneg(s.drop_last(), v);
    }
}

fn push_used(z: &Lazy, acc: &mut Vec<(u32, u32)>)
    requires
        z.counts().len() == 0 || z.counts().len() == z.vlist@.len(),
        forall|i: int| 0 <= i < old(acc)@.len() ==> (#[trigger] old(acc)@[i]).1 > 0,
    ensures
        final(acc)@ == old(acc)@ + used(z.vlist@, z.counts(), z.counts().len() as int),
        forall|i: int| 0 <= i < final(acc)@.len() ==> (#[trigger] final(acc)@[i]).1 > 0,
{
    let ghost a0 = acc@;
    let counts: &[u32] = z.use_ct_all();
    let mut i: usize = 0;
    assert(a0 + used(z.vlist@, z.counts(), 0) =~= a0);
    while i < counts.len()
        invariant
            counts@ == z.counts(),
            z.counts().len() == 0 || z.counts().len() == z.vlist@.len(),
            i <= counts@.len(),
            acc@ == a0 + used(z.vlist@, z.counts(), i as int),
            forall|i: int| 0 <= i < acc@.len() ==> (#[trigger] acc@[i]).1 > 0,
        decreases counts@.len() - i,
    {
        if counts[i] > 0 {
            acc.push((z.vlist[i], counts[i]));
            assert(acc@ =~= a0 + used(z.vlist@, z.counts(), i + 1));
        }
        i += 1;
    }
}

/// One pair per vertex that was used: its count summed over the rungs, held at
/// the largest number there is. Also gives the highest count.
pub fn fold_traffic(ov: &Overlay) -> (r: (Vec<(u32, u32)>, u32))
    requires
        ov.wf(),
    ensures
        keyed(r.0@),
        forall|i: int|
            0 <= i < r.0@.len() ==> (#[trigger] r.0@[i]).1 == total(
                all_used(*ov, ov.levels@.len() as int),
                r.0@[i].0,
            ) && r.0@[i].1 > 0,
        forall|v: u32|
            #[trigger] tally(all_used(*ov, ov.levels@.len() as int), v) > 0 ==> exists|i: int|
                0 <= i < r.0@.len() && (#[trigger] r.0@[i]).0 == v,
        r.1 == 0 <==> r.0@.len() == 0,
        forall|i: int| 0 <= i < r.0@.len() ==> (#[trigger] r.0@[i]).1 <= r.1,
        r.0@.len() > 0 ==> exists|i: int| 0 <= i < r.0@.len() && (#[trigger] r.0@[i]).1 == r.1,
{
    let mut acc: Vec<(u32, u32)> = Vec::new();
    let mut k: usize = 0;
    while k < ov.levels.len()
        invariant
            ov.wf(),
            k <= ov.levels@.len(),
            acc@ == all_used(*ov, k as int),
            forall|i: int| 0 <= i < acc@.len() ==> (#[trigger] acc@[i]).1 > 0,
        decreases ov.levels@.len() - k,
    {
        assert(ov.levels@[k as int].blocks_ok());
        match &ov.levels[k].values {
            Values::Lazy(z) => {
                push_used(z, &mut acc);
            },
            Values::Eager { .. } => {
                assert(acc@ + Seq::<(u32, u32)>::empty() =~= acc@);
            },
        }
        k += 1;
    }
    let ghost all = acc@;
    sort_pairs(&mut acc);
    let ghost s = acc@;
    proof {
        assert forall|i: int| 0 <= i < s.len() implies (#[trigger] s[i]).1 > 0 by {
            crate::sorting::lemma_same_items(s, all);
            assert(s.contains(s[i]));
            assert(all.contains(s[i]));
            let x = all.index_of(s[i]);
            assert(all[x] == s[i]);
        }
        assert forall|v: u32| tally(s, v) == tally(all, v) by {
            lemma_tally_order(s, all, v);
        }
    }
    let mut out: Vec<(u32, u32)> = Vec::new();
    let mut peak: u32 = 0;
    let mut i: usize = 0;
    while i < acc.len()
        invariant
            s == acc@,
            pairs_sorted(s),
            i <= s.len(),
            forall|i: int| 0 <= i < s.len() ==> (#[trigger] s[i]).1 > 0,
            keyed(out@),
            forall|x: int|
                0 <= x < out@.len() ==> (#[trigger] out@[x]).1 == total(
                    s.take(i as int),
                    out@[x].0,
                ) && out@[x].1 > 0,
            forall|v: u32|
                #[trigger] tally(s.take(i as int), v) > 0 ==> exists|x: int|
                    0 <= x < out@.len() && (#[trigger] out@[x]).0 == v,
            i > 0 ==> out@.len() > 0 && out@.last().0 == s[i - 1].0,
            i == 0 ==> out@.len() == 0,
        decreases s.len() - i,
    {
        let (v, c): (u32, u32) = acc[i];
        let n: usize = out.len();
        let ghost o0 = out@;
        let ghost p = s.take(i as int);
        proof {
            assert(s.take(i + 1) =~= p.push((v, c)));
            assert forall|w: u32| tally(s.take(i + 1), w) == tally(p, w) + (if v == w {
                c as int
            } else {
                0
            }) && tally(p, w) >= 0 by {
                lemma_tally_push(p, (v, c), w);
                lemma_tally_nonneg(p, w);
            }
            assert(c > 0);
            if i > 0 {
                assert(pair_le(s[i - 1], s[i as int]));
            }
        }
        if n > 0 && out[n - 1].0 == v {
            let sum: u32 = out[n - 1].1.saturating_add(c);
            out.set(n - 1, (v, sum));
            proof {
                assert forall|w: u32| #[trigger] tally(s.take(i + 1), w) > 0 implies exists|x: int|
                    0 <= x < out@.len() && (#[trigger] out@[x]).0 == w by {
                    if w == v {
                        assert(out@[n - 1].0 == w);
                    } else {
                        assert(tally(p, w) > 0);
                        let x = choose|x: int| 0 <= x < o0.len() && (#[trigger] o0[x]).0 == w;
                        assert(out@[x].0 == w);
                    }
                }
                assert forall|x: int| 0 <= x < out@.len() implies (#[trigger] out@[x]).1 == total(
                    s.take(i + 1),
                    out@[x].0,
                ) && out@[x].1 > 0 by {
                    assert(o0[x].1 == total(p, o0[x].0));
                    if x < n - 1 {
                        assert(o0[x].0 < o0[n - 1].0);
                    }
                }
            }
        } else {
            out.push((v, c));
            proof {
                if n > 0 {
                    assert(o0[n - 1].0 < v);
                }
                if tally(p, v) > 0 {
                    let x = choose|x: int| 0 <= x < o0.len() && (#[trigger] o0[x]).0 == v;
                    assert(o0[x].0 <= o0[n - 1].0);
                }
                assert forall|w: u32| #[trigger] tally(s.take(i + 1), w) > 0 implies exists|x: int|
                    0 <= x < out@.len() && (#[trigger] out@[x]).0 == w by {
                    if w == v {
                        assert(out@[n as int].0 == w);
                    } else {
                        assert(tally(p, w) > 0);
                        let x = choose|x: int| 0 <= x < o0.len() && (#[trigger] o0[x]).0 == w;
                        assert(out@[x].0 == w);
                    }
                }
                assert forall|x: int| 0 <= x < out@.len() implies (#[trigger] out@[x]).1 == total(
                    s.take(i + 1),
                    out@[x].0,
                ) && out@[x].1 > 0 by {
                    if x < n {
                        assert(o0[x].1 == total(p, o0[x].0));
                        assert(o0[x].0 <= o0[n - 1].0);
                    }
                }
                assert(keyed(out@)) by {
                    assert forall|a: int, b: int| 0 <= a < b < out@.len() implies (
                    #[trigger] out@[a]).0 < (#[trigger] out@[b]).0 by {
                        if b == n {
                            assert(o0[a].0 <= o0[n - 1].0);
                        }
                    }
                }
            }
        }
        i += 1;
    }
    proof {
        assert(s.take(s.len() as int) =~= s);
        assert forall|v: u32| #[trigger] tally(all, v) > 0 implies exists|x: int|
            0 <= x < out@.len() && (#[trigger] out@[x]).0 == v by {
            assert(tally(s, v) > 0);
        }
    }
    let mut j: usize = 0;
    while j < out.len()
        invariant
            j <= out@.len(),
            forall|x: int| 0 <= x < out@.len() ==> (#[trigger] out@[x]).1 > 0,
            forall|x: int| 0 <= x < j ==> (#[trigger] out@[x]).1 <= peak,
            j == 0 ==> peak == 0,
            j > 0 ==> exists|x: int| 0 <= x < j && (#[trigger] out@[x]).1 == peak,
        decreases out@.len() - j,
    {
        if out[j].1 > peak {
            peak = out[j].1;
            assert(out@[j as int].1 == peak);
        }
        j += 1;
    }
    (out, peak)
}

} // verus!
