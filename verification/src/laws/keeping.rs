//! The course of a build, and which builds stay.

use vstd::prelude::*;
use crate::cachecap::{enforced, governed, CacheCap};
use crate::catalog::{among, are_missing, escaped, pass_names, undone};
use crate::laws::changing::count;
use crate::pipeline::{doomed, newest_first, pruned, reached, weeded, Phase};
use crate::sorting::text_le;

verus! {

/// How many steps a build takes that goes well: its passes, the inspection, the
/// pruning unless scratch files are kept, the record, and going live.
pub open spec fn steps(keep_scratch: bool) -> int {
    if keep_scratch {
        10
    } else {
        11
    }
}

/// The first `n` outcomes are good.
pub open spec fn all_well(went: Seq<bool>, n: int) -> bool {
    forall|i: int| 0 <= i < n ==> #[trigger] went[i]
}

/// Where a build is after `n` good outcomes.
proof fn lemma_well(went: Seq<bool>, keep_scratch: bool, n: int)
    requires
        0 <= n <= went.len(),
        all_well(went, n),
    ensures
        ({
            let p = reached(went, keep_scratch, n);
            &&& n < 7 ==> p == Phase::Pass(n as usize)
            &&& n == 7 ==> p == Phase::Inspect
            &&& n == 8 && !keep_scratch ==> p == Phase::Prune
            &&& n == steps(keep_scratch) - 2 ==> p == Phase::Record
            &&& n == steps(keep_scratch) - 1 ==> p == Phase::Publish
            &&& n >= steps(keep_scratch) ==> p == Phase::Done
        }),
    decreases n,
{
    if n > 0 {
        assert(all_well(went, n - 1));
        lemma_well(went, keep_scratch, n - 1);
        assert(went[n - 1]);
    }
}

/// A build that went wrong at place `i` stays where it stopped.
proof fn lemma_wrong(went: Seq<bool>, keep_scratch: bool, i: int, n: int)
    requires
        0 <= i < n <= went.len(),
        all_well(went, i),
        !went[i],
        i < steps(keep_scratch),
    ensures
        reached(went, keep_scratch, n) == if i <= 7 {
            Phase::Failed
        } else {
            Phase::Stopped
        },
    decreases n,
{
    if n == i + 1 {
        lemma_well(went, keep_scratch, i);
    } else {
        lemma_wrong(went, keep_scratch, i, n - 1);
    }
}

/// A build is done exactly when every step of it went well; where one of its
/// passes or its inspection did not, it failed for good, and where a later step
/// did not, it stopped for good.
pub proof fn lemma_done(went: Seq<bool>, keep_scratch: bool, n: int)
    requires
        0 <= n <= went.len(),
    ensures
        reached(went, keep_scratch, n) == Phase::Done <==> n >= steps(keep_scratch) && all_well(
            went,
            steps(keep_scratch),
        ),
        reached(went, keep_scratch, n) == Phase::Failed <==> exists|i: int|
            0 <= i <= 7 && i < n && all_well(went, i) && !(#[trigger] went[i]),
        keep_scratch ==> reached(went, keep_scratch, n) != Phase::Prune,
{
    let k = steps(keep_scratch);
    let m = if n < k {
        n
    } else {
        k
    };
    if all_well(went, m) {
        if n < k {
            lemma_well(went, keep_scratch, n);
        } else {
            lemma_rest(went, keep_scratch, n);
        }
        if exists|i: int| 0 <= i <= 7 && i < n && all_well(went, i) && !(#[trigger] went[i]) {
            let i = choose|i: int|
                0 <= i <= 7 && i < n && all_well(went, i) && !(#[trigger] went[i]);
            assert(went[i]);
        }
    } else {
        let i = lemma_first_bad(went, m);
        lemma_wrong(went, keep_scratch, i, n);
        if i > 7 {
            if exists|j: int| 0 <= j <= 7 && j < n && all_well(went, j) && !(#[trigger] went[j]) {
                let j = choose|j: int|
                    0 <= j <= 7 && j < n && all_well(went, j) && !(#[trigger] went[j]);
                assert(went[j]);
            }
        }
        assert(!went[i]);
    }
}

proof fn lemma_rest(went: Seq<bool>, keep_scratch: bool, n: int)
    requires
        steps(keep_scratch) <= n <= went.len(),
        all_well(went, steps(keep_scratch)),
    ensures
        reached(went, keep_scratch, n) == Phase::Done,
    decreases n,
{
    if n == steps(keep_scratch) {
        lemma_well(went, keep_scratch, n);
    } else {
        lemma_rest(went, keep_scratch, n - 1);
    }
}

proof fn lemma_first_bad(went: Seq<bool>, n: int) -> (i: int)
    requires
        0 <= n <= went.len(),
        !all_well(went, n),
    ensures
        0 <= i < n,
        all_well(went, i),
        !went[i],
    decreases n,
{
    if all_well(went, n - 1) {
        n - 1
    } else {
        lemma_first_bad(went, n - 1)
    }
}

// ---------------------------------------------------------------- old builds

/// What is known of the builds that go, of the first `n` in order.
proof fn lemma_doomed(order: Seq<int>, dirs: Seq<Vec<u8>>, live: Seq<u8>, keep: int, n: int)
    requires
        newest_first(order, dirs),
        keep >= 0,
        0 <= n <= order.len(),
    ensures
        ({
            let (kept, out) = doomed(order, dirs, live, keep, n);
            let others = count(n, |x: int| dirs[order[x]]@ != live);
            &&& kept == if others < keep {
                others
            } else {
                keep
            }
            &&& out.len() == others - kept
            &&& forall|x: int|
                #![trigger order[x]]
                0 <= x < order.len() && out.contains(order[x]) ==> x < n && dirs[order[x]]@ != live
            &&& forall|x: int, y: int|
                0 <= x < n && 0 <= y < n && dirs[#[trigger] order[x]]@ != live && !out.contains(
                    order[x],
                ) && out.contains(#[trigger] order[y]) ==> x < y
            &&& forall|i: int| 0 <= i < out.len() ==> order.take(n).contains(#[trigger] out[i])
            &&& out.no_duplicates()
        }),
    decreases n,
{
    if n > 0 {
        lemma_doomed(order, dirs, live, keep, n - 1);
        let (k0, was) = doomed(order, dirs, live, keep, n - 1);
        let (k1, out) = doomed(order, dirs, live, keep, n);
        let p = |x: int| dirs[order[x]]@ != live;
        let d = order[n - 1];
        assert(p(n - 1) == (dirs[d]@ != live));
        assert(!was.contains(d));
        if out.len() > was.len() {
            assert forall|z: int| out.contains(z) <==> was.contains(z) || z == d by {
                if was.contains(z) {
                    let i = was.index_of(z);
                    assert(out[i] == z);
                }
                if out.contains(z) {
                    let i = out.index_of(z);
                    if i < was.len() {
                        assert(was[i] == z);
                    }
                }
                if z == d {
                    assert(out[was.len() as int] == z);
                }
            }
        }
        assert forall|i: int| 0 <= i < out.len() implies order.take(n).contains(
            #[trigger] out[i],
        ) by {
            if i < was.len() {
                let z = order.take(n - 1).index_of(was[i]);
                assert(order.take(n)[z] == was[i]);
            } else {
                assert(order.take(n)[n - 1] == d);
            }
        }
        assert forall|x: int|
            #![trigger order[x]]
            0 <= x < order.len() && out.contains(order[x]) implies x < n && dirs[order[x]]@
            != live by {
            if !was.contains(order[x]) {
                assert(order[x] == order[n - 1]);
                assert(x == n - 1);
            }
        }
        assert forall|x: int, y: int|
            0 <= x < n && 0 <= y < n && dirs[#[trigger] order[x]]@ != live && !out.contains(
                order[x],
            ) && out.contains(#[trigger] order[y]) implies x < y by {
            if y < n - 1 {
                assert(order[y] != d);
                assert(was.contains(order[y]));
                if x < n - 1 {
                    assert(!was.contains(order[x]));
                } else {
                    lemma_some_gone(order, dirs, live, keep, n - 1, order[y]);
                }
            } else if x == n - 1 {
                assert(order[x] == order[y]);
            }
        }
    } else {
        assert(order.take(0) =~= Seq::<int>::empty());
    }
}

/// Once a build goes, none of the later ones is kept.
proof fn lemma_some_gone(
    order: Seq<int>,
    dirs: Seq<Vec<u8>>,
    live: Seq<u8>,
    keep: int,
    n: int,
    z: int,
)
    requires
        0 <= n <= order.len(),
        doomed(order, dirs, live, keep, n).1.contains(z),
    ensures
        doomed(order, dirs, live, keep, n).0 >= keep,
    decreases n,
{
    if n > 0 {
        let was = doomed(order, dirs, live, keep, n - 1).1;
        if was.contains(z) {
            lemma_some_gone(order, dirs, live, keep, n - 1, z);
        } else {
            let out = doomed(order, dirs, live, keep, n).1;
            let i = out.index_of(z);
            if out.len() == was.len() {
                assert(was[i] == z);
            }
        }
    }
}

/// The live build stays, and so do the newest of the others, as many as are to
/// be kept or as there are; every other build goes, and comes once in the list.
/// `order` names each build once, newest first.
pub proof fn lemma_builds_kept(dirs: Seq<Vec<u8>>, live: Seq<u8>, keep: int, out: Seq<int>) -> (order:
    Seq<int>)
    requires
        keep >= 0,
        weeded(dirs, live, keep, out),
    ensures
        newest_first(order, dirs),
        out.no_duplicates(),
        forall|i: int| 0 <= i < out.len() ==> 0 <= #[trigger] out[i] < dirs.len(),
        forall|i: int| 0 <= i < out.len() ==> dirs[#[trigger] out[i]]@ != live,
        out.len() == ({
            let others = count(order.len() as int, |x: int| dirs[order[x]]@ != live);
            if others < keep {
                0
            } else {
                others - keep
            }
        }),
        forall|a: int, b: int|
            #![trigger dirs[a], dirs[b]]
            out.contains(a) && 0 <= b < dirs.len() && order.contains(b) && dirs[b]@ != live
                && !out.contains(b) ==> text_le(dirs[a]@, dirs[b]@),
{
    let order = choose|order: Seq<int>| #[trigger] pruned(dirs, live, keep, order, out);
    let n = order.len() as int;
    lemma_doomed(order, dirs, live, keep, n);
    assert(order.take(n) =~= order);
    assert forall|i: int| 0 <= i < out.len() implies 0 <= #[trigger] out[i] < dirs.len() && dirs[
        out[i]
    ]@ != live by {
        let x = order.index_of(out[i]);
        assert(order[x] == out[i]);
    }
    assert forall|a: int, b: int|
        #![trigger dirs[a], dirs[b]]
        out.contains(a) && 0 <= b < dirs.len() && order.contains(b) && dirs[b]@ != live
            && !out.contains(b) implies text_le(dirs[a]@, dirs[b]@) by {
        let i = out.index_of(a);
        assert(out[i] == a);
        let y = order.index_of(a);
        let x = order.index_of(b);
        assert(order[x] == b && order[y] == a);
        assert(x < y);
    }
    order
}

// -------------------------------------------------------------------- passes

proof fn lemma_undone(done: Seq<String>, n: int)
    requires
        0 <= n <= pass_names().len(),
    ensures
        forall|i: int|
            0 <= i < n && !among(done, #[trigger] pass_names()[i]) ==> undone(done, n).contains(
                pass_names()[i],
            ),
        forall|k: int|
            0 <= k < undone(done, n).len() ==> !among(done, #[trigger] undone(done, n)[k])
                && pass_names().contains(undone(done, n)[k]),
    decreases n,
{
    if n > 0 {
        lemma_undone(done, n - 1);
        let (was, now) = (undone(done, n - 1), undone(done, n));
        assert forall|i: int|
            0 <= i < n && !among(done, #[trigger] pass_names()[i]) implies now.contains(
            pass_names()[i],
        ) by {
            if i < n - 1 {
                let k = was.index_of(pass_names()[i]);
                assert(now[k] == pass_names()[i]);
            } else {
                assert(now[was.len() as int] == pass_names()[i]);
            }
        }
        assert forall|k: int| 0 <= k < now.len() implies !among(done, #[trigger] now[k])
            && pass_names().contains(now[k]) by {
            if k < was.len() {
                assert(now[k] == was[k]);
            } else {
                assert(pass_names()[n - 1] == now[k]);
            }
        }
    }
}

/// A pass is missing where it is one of a build and is not among those done.
pub proof fn lemma_missing(done: Seq<String>, r: Seq<&str>)
    requires
        are_missing(done, r),
    ensures
        forall|k: int|
            0 <= k < r.len() ==> !among(done, (#[trigger] r[k])@) && pass_names().contains(r[k]@),
        forall|i: int|
            0 <= i < pass_names().len() && !among(done, #[trigger] pass_names()[i])
                ==> is_in(r, pass_names()[i]),
{
    let n = pass_names().len() as int;
    lemma_undone(done, n);
    let all = undone(done, n);
    assert forall|k: int| 0 <= k < r.len() implies !among(done, (#[trigger] r[k])@)
        && pass_names().contains(r[k]@) by {
        assert(r[k]@ == all[k]);
    }
    assert forall|i: int|
        0 <= i < pass_names().len() && !among(done, #[trigger] pass_names()[i]) implies is_in(
        r,
        pass_names()[i],
    ) by {
        let k = all.index_of(pass_names()[i]);
        assert(r[k]@ == all[k]);
    }
}

pub open spec fn is_in(r: Seq<&str>, s: Seq<char>) -> bool {
    exists|k: int| 0 <= k < r.len() && (#[trigger] r[k])@ == s
}

// -------------------------------------------------------------------- memory

/// A mapping comes under the cap with the whole pages in it: a span that begins
/// and ends with a page, lies within the mapping and leaves less than a page of
/// it at either end; and with none where there is no whole page in it.
pub proof fn lemma_governed(
    was: Seq<(usize, usize)>,
    now: Seq<(usize, usize)>,
    start: int,
    len: int,
    page: int,
)
    requires
        governed(was, now, start, len, page),
        0 <= start,
        0 <= len,
        0 < page,
        start + len + page <= usize::MAX,
    ensures
        now == was || (now.len() == was.len() + 1 && now.drop_last() == was && {
            let (at, n) = now.last();
            &&& n > 0
            &&& at % (page as usize) == 0
            &&& n % (page as usize) == 0
            &&& start <= at < start + page
            &&& start + len - page < at + n <= start + len
        }),
        now == was ==> len < 2 * page,
        len >= 2 * page ==> now.len() == was.len() + 1,
{
    crate::cachecap::lemma_span_inside(start, len, page);
    let (lo, hi) = (
        crate::cachecap::page_up(start, page),
        crate::cachecap::page_down(start + len, page),
    );
    if hi > lo {
        assert(now.drop_last() =~= was);
        assert((hi - lo) % page == 0) by {
            let (a, b) = ((start + page - 1) / page, (start + len) / page);
            assert(hi - lo == (b - a) * page) by (nonlinear_arith)
                requires
                    lo == a * page,
                    hi == b * page,
            ;
            vstd::arithmetic::div_mod::lemma_mod_multiples_basic(b - a, page);
        }
    }
}

/// What a cap says of a run of readings.
pub open spec fn watched(cs: Seq<CacheCap>, rss: Seq<int>, flush: Seq<bool>) -> bool {
    &&& cs.len() == rss.len() + 1
    &&& flush.len() == rss.len()
    &&& forall|i: int|
        0 <= i < rss.len() ==> #[trigger] enforced(cs[i], cs[i + 1], rss[i], flush[i]) && cs[i
            + 1].budget == cs[i].budget
}

proof fn lemma_watched_to(cs: Seq<CacheCap>, rss: Seq<int>, flush: Seq<bool>, n: int)
    requires
        watched(cs, rss, flush),
        0 <= n <= rss.len(),
    ensures
        cs[n].budget == cs[0].budget,
        cs[n].flushes == cs[0].flushes + count(n, |i: int| rss[i] > cs[0].budget),
        cs[n].peak >= cs[0].peak,
        forall|i: int| 0 <= i < n ==> cs[n].peak >= #[trigger] rss[i],
        cs[n].peak == cs[0].peak || exists|i: int| 0 <= i < n && cs[n].peak == #[trigger] rss[i],
    decreases n,
{
    if n > 0 {
        lemma_watched_to(cs, rss, flush, n - 1);
        assert(enforced(cs[n - 1], cs[n - 1 + 1], rss[n - 1], flush[n - 1]));
        let p = |i: int| rss[i] > cs[0].budget;
        assert(count(n, p) == count(n - 1, p) + if p(n - 1) {
            1int
        } else {
            0
        });
        if cs[n].peak != cs[0].peak {
            if cs[n].peak == rss[n - 1] {
            } else {
                let i = choose|i: int| 0 <= i < n - 1 && cs[n - 1].peak == #[trigger] rss[i];
                assert(cs[n].peak == rss[i]);
            }
        }
    }
}

/// Over a run of readings the pages are handed back as often as a reading is
/// beyond the budget, and the peak is the largest reading.
pub proof fn lemma_watched(cs: Seq<CacheCap>, rss: Seq<int>, flush: Seq<bool>)
    requires
        watched(cs, rss, flush),
    ensures
        cs.last().flushes == cs[0].flushes + count(
            rss.len() as int,
            |i: int| rss[i] > cs[0].budget,
        ),
        forall|i: int| 0 <= i < rss.len() ==> cs.last().peak >= #[trigger] rss[i],
        cs.last().peak == cs[0].peak || exists|i: int|
            0 <= i < rss.len() && cs.last().peak == #[trigger] rss[i],
        forall|i: int| 0 <= i < rss.len() ==> #[trigger] flush[i] == (rss[i] > cs[0].budget),
{
    lemma_watched_to(cs, rss, flush, rss.len() as int);
    assert forall|i: int| 0 <= i < rss.len() implies #[trigger] flush[i] == (rss[i]
        > cs[0].budget) by {
        lemma_watched_to(cs, rss, flush, i);
        assert(enforced(cs[i], cs[i + 1], rss[i], flush[i]));
    }
}

// --------------------------------------------------------------------- paths

/// What is read of a quoted text from `i` up to its closing quote: a backslash
/// stands for what follows it. Nothing where it does not close.
pub open spec fn unquoted(s: Seq<char>, i: int) -> Option<Seq<char>>
    decreases s.len() - i,
{
    if i < 0 || i >= s.len() {
        None
    } else if s[i] == '"' {
        if i == s.len() - 1 {
            Some(Seq::empty())
        } else {
            None
        }
    } else if s[i] == '\\' {
        if i + 1 >= s.len() {
            None
        } else {
            match unquoted(s, i + 2) {
                None => None,
                Some(rest) => Some(seq![s[i + 1]] + rest),
            }
        }
    } else {
        match unquoted(s, i + 1) {
            None => None,
            Some(rest) => Some(seq![s[i]] + rest),
        }
    }
}

proof fn lemma_escaped_split(p: Seq<char>, n: int)
    requires
        0 < n <= p.len(),
    ensures
        escaped(p, n) == (if p[0] == '"' || p[0] == '\\' {
            seq!['\\', p[0]]
        } else {
            seq![p[0]]
        }) + escaped(p.drop_first(), n - 1),
    decreases n,
{
    let q = p.drop_first();
    if n == 1 {
        assert(escaped(p, 0) =~= Seq::<char>::empty());
        assert(escaped(q, 0) =~= Seq::<char>::empty());
        assert(escaped(p, 1) =~= (if p[0] == '"' || p[0] == '\\' {
            seq!['\\', p[0]]
        } else {
            seq![p[0]]
        }) + escaped(q, 0));
    } else {
        lemma_escaped_split(p, n - 1);
        assert(q[n - 2] == p[n - 1]);
        assert(escaped(p, n) =~= (if p[0] == '"' || p[0] == '\\' {
            seq!['\\', p[0]]
        } else {
            seq![p[0]]
        }) + escaped(q, n - 1));
    }
}

proof fn lemma_unquoted(s: Seq<char>, i: int, p: Seq<char>)
    requires
        0 <= i,
        i + escaped(p, p.len() as int).len() + 1 == s.len(),
        s.subrange(i, s.len() as int) == escaped(p, p.len() as int) + seq!['"'],
    ensures
        unquoted(s, i) == Some(p),
    decreases p.len(),
{
    let all = escaped(p, p.len() as int);
    let tail = s.subrange(i, s.len() as int);
    if p.len() == 0 {
        assert(tail[0] == s[i]);
        assert(p =~= Seq::<char>::empty());
    } else {
        let q = p.drop_first();
        lemma_escaped_split(p, p.len() as int);
        let rest = escaped(q, q.len() as int);
        let head = if p[0] == '"' || p[0] == '\\' {
            seq!['\\', p[0]]
        } else {
            seq![p[0]]
        };
        let k = head.len() as int;
        assert(tail == head + rest + seq!['"']);
        assert(tail[0] == s[i]);
        if k == 2 {
            assert(tail[1] == s[i + 1]);
        }
        assert(s.subrange(i + k, s.len() as int) =~= tail.subrange(k, tail.len() as int));
        assert((head + rest + seq!['"']).subrange(k, tail.len() as int) =~= rest + seq!['"']);
        lemma_unquoted(s, i + k, q);
        assert(seq![p[0]] + q =~= p);
    }
}

/// A path between quotes is read back as it is, whatever quotes and backslashes
/// it holds.
pub proof fn lemma_quoted_path(p: Seq<char>)
    ensures
        ({
            let s = seq!['"'] + escaped(p, p.len() as int) + seq!['"'];
            s[0] == '"' && unquoted(s, 1) == Some(p)
        }),
{
    let s = seq!['"'] + escaped(p, p.len() as int) + seq!['"'];
    assert(s.subrange(1, s.len() as int) =~= escaped(p, p.len() as int) + seq!['"']);
    lemma_unquoted(s, 1, p);
}

} // verus!
