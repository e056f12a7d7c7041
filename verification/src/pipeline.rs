//! The course of a build, and which old builds and files go.

use vstd::prelude::*;
use crate::artifacts::{is_runtime_artifact, is_runtime_name, starts, starts_with};
use crate::catalog::pass_names;
use crate::inspection::Counts;
use crate::sorting::{lemma_same_items, sort_texts, text_le};
use crate::text::{bytes_eq, is_word, word};

verus! {

/// What a build does next.
#[derive(Clone, Copy, PartialEq, Eq, Structural, Debug)]
pub enum Phase {
    /// Runs a pass.
    Pass(usize),
    /// Checks that the files agree.
    Inspect,
    /// Deletes what only the build needed.
    Prune,
    /// Records the files.
    Record,
    /// Becomes live.
    Publish,
    Done,
    /// A pass failed or the files do not agree: recorded as failed.
    Failed,
    /// Stopped by an error outside the passes; the record still says running.
    Stopped,
}

/// What follows a phase, by how it went.
pub open spec fn after(p: Phase, ok: bool, keep_scratch: bool) -> Phase {
    match p {
        Phase::Pass(k) => if !ok {
            Phase::Failed
        } else if k + 1 < pass_names().len() {
            Phase::Pass((k + 1) as usize)
        } else {
            Phase::Inspect
        },
        Phase::Inspect => if !ok {
            Phase::Failed
        } else if keep_scratch {
            Phase::Record
        } else {
            Phase::Prune
        },
        Phase::Prune => if ok {
            Phase::Record
        } else {
            Phase::Stopped
        },
        Phase::Record => if ok {
            Phase::Publish
        } else {
            Phase::Stopped
        },
        Phase::Publish => if ok {
            Phase::Done
        } else {
            Phase::Stopped
        },
        _ => p,
    }
}

/// What follows a phase of a build, by how it went.
pub fn advance(p: Phase, ok: bool, keep_scratch: bool) -> (r: Phase)
    ensures
        r == after(p, ok, keep_scratch),
{
    match p {
        Phase::Pass(k) => if !ok {
            Phase::Failed
        } else if k < 6 {
            Phase::Pass(k + 1)
        } else {
            Phase::Inspect
        },
        Phase::Inspect => if !ok {
            Phase::Failed
        } else if keep_scratch {
            Phase::Record
        } else {
            Phase::Prune
        },
        Phase::Prune => if ok {
            Phase::Record
        } else {
            Phase::Stopped
        },
        Phase::Record => if ok {
            Phase::Publish
        } else {
            Phase::Stopped
        },
        Phase::Publish => if ok {
            Phase::Done
        } else {
            Phase::Stopped
        },
        Phase::Done => Phase::Done,
        Phase::Failed => Phase::Failed,
        Phase::Stopped => Phase::Stopped,
    }
}

/// The phase after the first `n` outcomes.
pub open spec fn reached(went: Seq<bool>, keep_scratch: bool, n: int) -> Phase
    decreases n,
{
    if n <= 0 {
        Phase::Pass(0)
    } else {
        after(reached(went, keep_scratch, n - 1), went[n - 1], keep_scratch)
    }
}

/// A build about to become live, or that is.
pub open spec fn past_checks(p: Phase) -> bool {
    p == Phase::Prune || p == Phase::Record || p == Phase::Publish || p == Phase::Done
}

proof fn lemma_course(went: Seq<bool>, keep_scratch: bool, n: int)
    requires
        0 <= n <= went.len(),
    ensures
        ({
            let p = reached(went, keep_scratch, n);
            &&& p matches Phase::Pass(k) ==> k == n && n < pass_names().len() && forall|i: int|
                0 <= i < n ==> went[i]
            &&& p == Phase::Inspect ==> n == pass_names().len() && forall|i: int|
                0 <= i < n ==> went[i]
            &&& past_checks(p) ==> n > pass_names().len() && forall|i: int|
                0 <= i <= pass_names().len() ==> went[i]
        }),
    decreases n,
{
    if n > 0 {
        lemma_course(went, keep_scratch, n - 1);
    }
}

/// A build becomes live only after every pass went well and its files were
/// found to agree.
pub proof fn lemma_live_is_whole(went: Seq<bool>, keep_scratch: bool, n: int)
    requires
        0 <= n <= went.len(),
        reached(went, keep_scratch, n) == Phase::Publish || reached(went, keep_scratch, n)
            == Phase::Done,
    ensures
        n > pass_names().len(),
        forall|i: int| 0 <= i <= pass_names().len() ==> went[i],
{
    lemma_course(went, keep_scratch, n);
}

/// A file that only the build needed.
pub open spec fn is_scratch(name: Seq<char>) -> bool {
    !is_runtime_name(name) && vstd::utf8::encode_utf8(name) != word("HEAD")
}

/// Whether a file only served the build.
pub fn scratch(name: &str) -> (r: bool)
    ensures
        r == is_scratch(name@),
{
    !is_runtime_artifact(name) && !is_word(name.as_bytes(), "HEAD")
}

/// A file that goes with a dataset into its build directory.
pub open spec fn is_movable(s: Seq<u8>) -> bool {
    s != word("HEAD") && !starts(s, word("catalog.mpedb"))
}

/// Whether a file of the root goes with the dataset when it is adopted.
pub fn movable(name: &str) -> (r: bool)
    ensures
        r == is_movable(word(name)),
{
    let s: &[u8] = name.as_bytes();
    !is_word(s, "HEAD") && !starts_with(s, "catalog.mpedb")
}

/// The statistics that a dataset implies about itself, by name.
pub fn restat(c: &Counts) -> (r: Vec<(&'static str, u64)>)
    ensures
        r@ == seq![
            ("vertices", c.vertices),
            ("edges", c.edges),
            ("segments", c.segments),
            ("addresses", c.addresses),
            ("geometry_points", c.geometry_points),
            ("street_names", c.street_names),
        ],
{
    let mut r: Vec<(&'static str, u64)> = Vec::new();
    r.push(("vertices", c.vertices));
    r.push(("edges", c.edges));
    r.push(("segments", c.segments));
    r.push(("addresses", c.addresses));
    r.push(("geometry_points", c.geometry_points));
    r.push(("street_names", c.street_names));
    r
}

/// Microseconds since the epoch, of seconds and the rest; nothing before it.
pub fn now_us(since_epoch: Option<(u64, u32)>) -> (r: i64)
    requires
        since_epoch matches Some((s, us)) ==> s * 1_000_000 + us <= i64::MAX,
    ensures
        r == match since_epoch {
            None => 0int,
            Some((s, us)) => s * 1_000_000 + us,
        },
{
    match since_epoch {
        None => 0,
        Some((s, us)) => (s * 1_000_000 + us as u64) as i64,
    }
}

/// Builds from the last in order to the first, as places in the list.
pub open spec fn newest_first(order: Seq<int>, dirs: Seq<Vec<u8>>) -> bool {
    &&& order.len() == dirs.len()
    &&& order.no_duplicates()
    &&& forall|x: int| 0 <= x < order.len() ==> 0 <= #[trigger] order[x] < dirs.len()
    &&& forall|x: int, y: int|
        0 <= x <= y < order.len() ==> text_le(
            dirs[#[trigger] order[y]]@,
            dirs[#[trigger] order[x]]@,
        )
}

/// Of the first `n` builds in order: how many are kept besides the live one,
/// and which go.
pub open spec fn doomed(
    order: Seq<int>,
    dirs: Seq<Vec<u8>>,
    live: Seq<u8>,
    keep: int,
    n: int,
) -> (int, Seq<int>)
    decreases n,
{
    if n <= 0 {
        (0, Seq::empty())
    } else {
        let (kept, out) = doomed(order, dirs, live, keep, n - 1);
        let d = order[n - 1];
        if dirs[d]@ == live {
            (kept, out)
        } else if kept < keep {
            (kept + 1, out)
        } else {
            (kept, out.push(d))
        }
    }
}

pub open spec fn as_ints(v: Seq<usize>) -> Seq<int> {
    Seq::new(v.len(), |i: int| v[i] as int)
}

/// Builds that go: all but the live one and the newest `keep` others.
pub open spec fn pruned(dirs: Seq<Vec<u8>>, live: Seq<u8>, keep: int, order: Seq<int>, out: Seq<int>) -> bool {
    newest_first(order, dirs) && out == doomed(order, dirs, live, keep, order.len() as int).1
}

/// Builds that go, by whichever order has the newest first.
pub open spec fn weeded(dirs: Seq<Vec<u8>>, live: Seq<u8>, keep: int, out: Seq<int>) -> bool {
    exists|order: Seq<int>| #[trigger] pruned(dirs, live, keep, order, out)
}

fn copy_of(s: &[u8]) -> (r: Vec<u8>)
    ensures
        r@ == s@,
{
    let mut r: Vec<u8> = Vec::new();
    while r.len() < s.len()
        invariant
            r@.len() <= s@.len(),
            r@ == s@.take(r@.len() as int),
        decreases s@.len() - r@.len(),
    {
        let x: u8 = s[r.len()];
        assert(s@.take(r@.len() as int).push(x) =~= s@.take(r@.len() as int + 1));
        r.push(x);
    }
    assert(s@.take(s@.len() as int) =~= s@);
    r
}

/// Chooses the builds that go, as places in the list.
#[verifier::rlimit(40)]
pub fn prune(dirs: &Vec<Vec<u8>>, live: &[u8], keep: usize) -> (r: Vec<usize>)
    requires
        dirs@.len() <= u32::MAX,
    ensures
        weeded(dirs@, live@, keep as int, as_ints(r@)),
{
    let n: usize = dirs.len();
    let mut texts: Vec<(Vec<u8>, u32)> = Vec::new();
    while texts.len() < n
        invariant
            n == dirs@.len(),
            n <= u32::MAX,
            texts@.len() <= n,
            forall|i: int|
                0 <= i < texts@.len() ==> (#[trigger] texts@[i]).0@ == dirs@[i]@ && texts@[i].1
                    == i,
        decreases n - texts@.len(),
    {
        let i: usize = texts.len();
        let t: Vec<u8> = copy_of(dirs[i].as_slice());
        texts.push((t, i as u32));
    }
    let ghost list = texts@;
    sort_texts(&mut texts);
    let ghost s = texts@;
    let ghost order = Seq::new(n as nat, |x: int| s[n - 1 - x].1 as int);
    proof {
        lemma_same_items(s, list);
        assert forall|x: int| 0 <= x < s.len() implies (#[trigger] s[x]).1 < n && s[x].0@
            == dirs@[s[x].1 as int]@ by {
            assert(s.contains(s[x]));
            let i = list.index_of(s[x]);
            assert(list[i] == s[x]);
        }
        assert(list.no_duplicates());
        list.lemma_multiset_has_no_duplicates();
        s.lemma_multiset_has_no_duplicates_conv();
        assert forall|x: int, y: int| 0 <= x < s.len() && 0 <= y < s.len() && x != y implies (
        #[trigger] s[x]).1 != (#[trigger] s[y]).1 by {
            assert(s.contains(s[x]) && s.contains(s[y]));
            let (i, j) = (list.index_of(s[x]), list.index_of(s[y]));
            assert(list[i] == s[x] && list[j] == s[y]);
        }
        assert forall|x: int, y: int| 0 <= x <= y < n implies text_le(
            dirs@[#[trigger] order[y]]@,
            dirs@[#[trigger] order[x]]@,
        ) by {
            assert(text_le(s[n - 1 - y].0@, s[n - 1 - x].0@));
        }
        assert(newest_first(order, dirs@));
    }
    let mut r: Vec<usize> = Vec::new();
    let mut kept: usize = 0;
    let mut x: usize = 0;
    assert(as_ints(r@) =~= Seq::<int>::empty());
    while x < n
        invariant
            n == dirs@.len(),
            n == s.len(),
            s == texts@,
            x <= n,
            order == Seq::new(n as nat, |x: int| s[n - 1 - x].1 as int),
            forall|x: int| 0 <= x < s.len() ==> (#[trigger] s[x]).1 < n,
            kept <= keep,
            (kept as int, as_ints(r@)) == doomed(order, dirs@, live@, keep as int, x as int),
        decreases n - x,
    {
        let d: usize = texts[n - 1 - x].1 as usize;
        assert(s[n - 1 - x].1 < n);
        assert(order[x as int] == d);
        let ghost r0 = r@;
        if !bytes_eq(dirs[d].as_slice(), live) {
            if kept < keep {
                kept += 1;
            } else {
                r.push(d);
                assert(as_ints(r@) =~= as_ints(r0).push(d as int));
            }
        }
        x += 1;
    }
    proof {
        assert(pruned(dirs@, live@, keep as int, order, as_ints(r@)));
    }
    r
}

proof fn lemma_doomed(order: Seq<int>, dirs: Seq<Vec<u8>>, live: Seq<u8>, keep: int, n: int)
    requires
        0 <= n <= order.len(),
        0 <= keep,
    ensures
        ({
            let (kept, out) = doomed(order, dirs, live, keep, n);
            &&& 0 <= kept <= keep
            &&& forall|i: int| 0 <= i < out.len() ==> dirs[#[trigger] out[i]]@ != live
            &&& out.len() > 0 ==> kept == keep
            &&& forall|i: int| 0 <= i < out.len() ==> order.take(n).contains(#[trigger] out[i])
        }),
    decreases n,
{
    if n > 0 {
        lemma_doomed(order, dirs, live, keep, n - 1);
        let (kept, out) = doomed(order, dirs, live, keep, n - 1);
        let out2 = doomed(order, dirs, live, keep, n).1;
        assert forall|i: int| 0 <= i < out2.len() implies order.take(n).contains(
            #[trigger] out2[i],
        ) by {
            if i < out.len() {
                assert(order.take(n - 1).contains(out[i]));
                let z = order.take(n - 1).index_of(out[i]);
                assert(order.take(n)[z] == out[i]);
            } else {
                assert(order.take(n)[n - 1] == order[n - 1]);
            }
        }
    }
}

/// The live build never goes, whatever is to be kept; and something goes only
/// once as many others as asked for are kept.
pub proof fn lemma_live_stays(
    dirs: Seq<Vec<u8>>,
    live: Seq<u8>,
    keep: int,
    order: Seq<int>,
    out: Seq<int>,
)
    requires
        0 <= keep,
        pruned(dirs, live, keep, order, out),
    ensures
        forall|i: int| 0 <= i < out.len() ==> dirs[#[trigger] out[i]]@ != live,
        forall|i: int| 0 <= i < out.len() ==> 0 <= #[trigger] out[i] < dirs.len(),
        out.len() > 0 ==> doomed(order, dirs, live, keep, order.len() as int).0 == keep,
{
    lemma_doomed(order, dirs, live, keep, order.len() as int);
    assert forall|i: int| 0 <= i < out.len() implies 0 <= #[trigger] out[i] < dirs.len() by {
        assert(order.take(order.len() as int).contains(out[i]));
        let z = order.take(order.len() as int).index_of(out[i]);
        assert(order[z] == out[i]);
    }
}

} // verus!
