//! Matching the ways of a newer file against the way index.

use vstd::prelude::*;
use crate::lookup::ascending;
use crate::osc::settle::{add_run, index_ok, owns, road_at, road_state};
use crate::sorting::number_set;
use crate::ways::record::{steps_fit, way_hashes, way_key};

verus! {

/// Where samples of each kind stand.
pub const S_UNCHANGED: usize = 0;

pub const S_CHANGED: usize = 1;

pub const S_ADDED: usize = 2;

pub const S_DELETED: usize = 3;

/// How many samples of a kind are kept.
pub const SAMPLE_MAX: usize = 60;

/// Of the ways that did not change, one in so many is a sample.
pub const SAMPLE_STEP: u64 = 9973;

/// The hash that the way index keeps of a record: that of its cost.
pub fn hash_rec(rec: &[u8]) -> (r: Option<u64>)
    ensures
        r == match way_key(rec@) {
            None => None,
            Some((_, h, _)) => Some(h),
        },
{
    match way_hashes(rec) {
        None => None,
        Some((_, h, _)) => Some(h),
    }
}

/// What a way of a newer file leaves for the comparison: its number and the
/// hash of its cost, where a car goes there.
pub fn hash_way(id: i64, tags: &[(&[u8], &[u8])], refs: &[i64]) -> (r: Option<(u64, u64)>)
    requires
        steps_fit(refs@),
    ensures
        r == match road_at(tags@, refs@) {
            Some((_, h, _)) if refs@.len() >= 2 => Some((id as u64, h)),
            _ => None,
        },
{
    if refs.len() < 2 {
        return None;
    }
    let n: u64 = #[verifier::truncate]
    (id as u64);
    match road_state(n, tags, refs) {
        None => None,
        Some((_, h, _)) => Some((n, h)),
    }
}

#[derive(Clone, Copy, PartialEq, Eq, Structural)]
pub enum Kind {
    Unchanged,
    Changed,
    Added,
}

/// What a way of the newer file is to the index.
pub open spec fn kind_of(wid: Seq<u64>, whash: Seq<u64>, p: (u64, u64)) -> Kind {
    if !wid.contains(p.0) {
        Kind::Added
    } else if whash[wid.index_of(p.0)] == p.1 {
        Kind::Unchanged
    } else {
        Kind::Changed
    }
}

/// The newer file names a way.
pub open spec fn named(new: Seq<(u64, u64)>, id: u64) -> bool {
    exists|i: int| 0 <= i < new.len() && (#[trigger] new[i]).0 == id
}

/// Numbers rise.
pub open spec fn by_id(new: Seq<(u64, u64)>) -> bool {
    forall|i: int, j: int| 0 <= i < j < new.len() ==> (#[trigger] new[i]).0 < (#[trigger] new[j]).0
}

/// Counts and samples of the first `n` ways of the newer file.
pub struct Seen {
    pub unchanged: int,
    pub changed: int,
    pub added: int,
    pub s_unchanged: Seq<u64>,
    pub s_changed: Seq<u64>,
    pub s_added: Seq<u64>,
}

/// A sample more, while there is room.
pub open spec fn sampled(s: Seq<u64>, id: u64) -> Seq<u64> {
    if s.len() < SAMPLE_MAX {
        s.push(id)
    } else {
        s
    }
}

pub open spec fn seen(wid: Seq<u64>, whash: Seq<u64>, new: Seq<(u64, u64)>, n: int) -> Seen
    decreases n,
{
    if n <= 0 {
        Seen {
            unchanged: 0,
            changed: 0,
            added: 0,
            s_unchanged: Seq::empty(),
            s_changed: Seq::empty(),
            s_added: Seq::empty(),
        }
    } else {
        let s = seen(wid, whash, new, n - 1);
        let id = new[n - 1].0;
        match kind_of(wid, whash, new[n - 1]) {
            Kind::Unchanged => Seen {
                unchanged: s.unchanged + 1,
                s_unchanged: if (s.unchanged + 1) % (SAMPLE_STEP as int) == 0 {
                    sampled(s.s_unchanged, id)
                } else {
                    s.s_unchanged
                },
                ..s
            },
            Kind::Changed => Seen {
                changed: s.changed + 1,
                s_changed: sampled(s.s_changed, id),
                ..s
            },
            Kind::Added => Seen { added: s.added + 1, s_added: sampled(s.s_added, id), ..s },
        }
    }
}

/// How many of the first `n` ways of the index the newer file does not name,
/// and the first of them.
pub open spec fn gone(wid: Seq<u64>, new: Seq<(u64, u64)>, n: int) -> (int, Seq<u64>)
    decreases n,
{
    if n <= 0 {
        (0, Seq::empty())
    } else {
        let (k, s) = gone(wid, new, n - 1);
        if named(new, wid[n - 1]) {
            (k, s)
        } else {
            (k + 1, sampled(s, wid[n - 1]))
        }
    }
}

/// The way at place `j` of the index changed or went away.
pub open spec fn hit(wid: Seq<u64>, whash: Seq<u64>, new: Seq<(u64, u64)>, j: int) -> bool {
    forall|i: int| 0 <= i < new.len() ==> (#[trigger] new[i]) != (wid[j], whash[j])
}

/// The differences between the index and a newer file.
pub struct Changes {
    pub unchanged: u64,
    pub changed: u64,
    pub added: u64,
    pub deleted: u64,
    /// Segments of ways that changed or went away, rising.
    pub segments: Vec<u32>,
    pub s_unchanged: Vec<u64>,
    pub s_changed: Vec<u64>,
    pub s_added: Vec<u64>,
    pub s_deleted: Vec<u64>,
}

impl Changes {
    /// Counts and samples are those of the first `n` new ways and the first `m`
    /// of the index.
    pub open spec fn counts(
        &self,
        wid: Seq<u64>,
        whash: Seq<u64>,
        new: Seq<(u64, u64)>,
        n: int,
        m: int,
    ) -> bool {
        let s = seen(wid, whash, new, n);
        let g = gone(wid, new, m);
        &&& self.unchanged == s.unchanged
        &&& self.changed == s.changed
        &&& self.added == s.added
        &&& self.deleted == g.0
        &&& self.s_unchanged@ == s.s_unchanged
        &&& self.s_changed@ == s.s_changed
        &&& self.s_added@ == s.s_added
        &&& self.s_deleted@ == g.1
    }
}

fn sample(v: &mut Vec<u64>, id: u64)
    ensures
        final(v)@ == sampled(old(v)@, id),
{
    if v.len() < SAMPLE_MAX {
        v.push(id);
    }
}

spec fn so_far(
    wid: Seq<u64>,
    whash: Seq<u64>,
    new: Seq<(u64, u64)>,
    whead: Seq<u32>,
    wseg: Seq<u32>,
    segs: Seq<u32>,
    m: int,
) -> bool {
    forall|s: u32|
        #[trigger] segs.contains(s) <==> exists|j: int|
            0 <= j < m && #[trigger] hit(wid, whash, new, j) && owns(whead, wseg, j, s)
}

proof fn lemma_run(
    wid: Seq<u64>,
    whash: Seq<u64>,
    new: Seq<(u64, u64)>,
    whead: Seq<u32>,
    wseg: Seq<u32>,
    a: Seq<u32>,
    m: int,
    b: Seq<u32>,
)
    requires
        so_far(wid, whash, new, whead, wseg, a, m),
        0 <= m < wid.len(),
        index_ok(wid, whead, wseg),
        b == if hit(wid, whash, new, m) {
            a + wseg.subrange(whead[m] as int, whead[m + 1] as int)
        } else {
            a
        },
    ensures
        so_far(wid, whash, new, whead, wseg, b, m + 1),
{
    assert(whead[m] <= whead[m + 1] <= whead[whead.len() - 1]);
    assert forall|s: u32|
        #[trigger] b.contains(s) <==> exists|j: int|
            0 <= j < m + 1 && #[trigger] hit(wid, whash, new, j) && owns(whead, wseg, j, s) by {
        if b.contains(s) {
            if a.contains(s) {
                let j = choose|j: int|
                    0 <= j < m && #[trigger] hit(wid, whash, new, j) && owns(whead, wseg, j, s);
                assert(hit(wid, whash, new, j));
            } else {
                let z = b.index_of(s);
                let k = whead[m] + (z - a.len());
                assert(wseg[k] == s);
                assert(owns(whead, wseg, m, s));
            }
        }
        if exists|j: int|
            0 <= j < m + 1 && #[trigger] hit(wid, whash, new, j) && owns(whead, wseg, j, s) {
            let j = choose|j: int|
                0 <= j < m + 1 && #[trigger] hit(wid, whash, new, j) && owns(whead, wseg, j, s);
            if j < m {
                assert(a.contains(s));
                let z = a.index_of(s);
                assert(b[z] == s);
            } else {
                let k = choose|k: int| whead[j] <= k < whead[j + 1] && #[trigger] wseg[k] == s;
                assert(b[a.len() + (k - whead[j])] == s);
            }
        }
    }
}

/// Passes by a way of the index that the newer file does not name.
fn pass_by(
    out: &mut Changes,
    new: &[(u64, u64)],
    wid: &[u64],
    whash: &[u64],
    whead: &[u32],
    wseg: &[u32],
    n: usize,
    cur: usize,
)
    requires
        cur < wid@.len(),
        wid@.len() == whash@.len(),
        index_ok(wid@, whead@, wseg@),
        old(out).counts(wid@, whash@, new@, n as int, cur as int),
        old(out).deleted <= cur,
        so_far(wid@, whash@, new@, whead@, wseg@, old(out).segments@, cur as int),
        !named(new@, wid@[cur as int]),
    ensures
        final(out).counts(wid@, whash@, new@, n as int, cur + 1),
        final(out).deleted == old(out).deleted + 1,
        final(out).unchanged == old(out).unchanged,
        final(out).changed == old(out).changed,
        final(out).added == old(out).added,
        so_far(wid@, whash@, new@, whead@, wseg@, final(out).segments@, cur + 1),
{
    let ghost a = out.segments@;
    let total: usize = wid.len();
    assert(out.deleted < total);
    out.deleted = out.deleted + 1;
    sample(&mut out.s_deleted, wid[cur]);
    add_run(&mut out.segments, whead, wseg, cur);
    proof {
        assert(hit(wid@, whash@, new@, cur as int));
        lemma_run(wid@, whash@, new@, whead@, wseg@, a, cur as int, out.segments@);
    }
}

/// Matches newer ways and their hashes against the index. Both rise by number.
#[verifier::rlimit(60)]
pub fn compare(
    new: &[(u64, u64)],
    wid: &[u64],
    whash: &[u64],
    whead: &[u32],
    wseg: &[u32],
) -> (out: Changes)
    requires
        by_id(new@),
        wid@.len() == whash@.len(),
        index_ok(wid@, whead@, wseg@),
    ensures
        out.counts(wid@, whash@, new@, new@.len() as int, wid@.len() as int),
        out.unchanged + out.changed + out.deleted == wid@.len(),
        ascending(out.segments@),
        forall|s: u32|
            #[trigger] out.segments@.contains(s) <==> exists|j: int|
                0 <= j < wid@.len() && #[trigger] hit(wid@, whash@, new@, j) && owns(
                    whead@,
                    wseg@,
                    j,
                    s,
                ),
{
    let mut out = Changes {
        unchanged: 0,
        changed: 0,
        added: 0,
        deleted: 0,
        segments: Vec::new(),
        s_unchanged: Vec::new(),
        s_changed: Vec::new(),
        s_added: Vec::new(),
        s_deleted: Vec::new(),
    };
    let mut cur: usize = 0;
    let mut n: usize = 0;
    while n < new.len()
        invariant
            by_id(new@),
            wid@.len() == whash@.len(),
            index_ok(wid@, whead@, wseg@),
            n <= new@.len(),
            cur <= wid@.len(),
            out.counts(wid@, whash@, new@, n as int, cur as int),
            out.unchanged <= n,
            out.changed <= n,
            out.added <= n,
            out.deleted <= cur,
            out.unchanged + out.changed + out.deleted == cur,
            so_far(wid@, whash@, new@, whead@, wseg@, out.segments@, cur as int),
            forall|j: int, i: int|
                0 <= j < cur && n <= i < new@.len() ==> (#[trigger] wid@[j]) < (#[trigger] new@[i]).0,
            forall|j: int, i: int|
                cur <= j < wid@.len() && 0 <= i < n ==> (#[trigger] wid@[j]) > (#[trigger] new@[i]).0,
        decreases new@.len() - n,
    {
        let (id, h): (u64, u64) = new[n];
        while cur < wid.len() && wid[cur] < id
            invariant
                by_id(new@),
                wid@.len() == whash@.len(),
                index_ok(wid@, whead@, wseg@),
                n < new@.len(),
                (id, h) == new@[n as int],
                cur <= wid@.len(),
                out.counts(wid@, whash@, new@, n as int, cur as int),
                out.unchanged <= n,
                out.changed <= n,
                out.added <= n,
                out.deleted <= cur,
                out.unchanged + out.changed + out.deleted == cur,
                so_far(wid@, whash@, new@, whead@, wseg@, out.segments@, cur as int),
                forall|j: int, i: int|
                    0 <= j < cur && n <= i < new@.len() ==> (#[trigger] wid@[j]) < (
                    #[trigger] new@[i]).0,
                forall|j: int, i: int|
                    cur <= j < wid@.len() && 0 <= i < n ==> (#[trigger] wid@[j]) > (
                    #[trigger] new@[i]).0,
            decreases wid@.len() - cur,
        {
            proof {
                assert(!named(new@, wid@[cur as int])) by {
                    if named(new@, wid@[cur as int]) {
                        let i = choose|i: int|
                            0 <= i < new@.len() && (#[trigger] new@[i]).0 == wid@[cur as int];
                        if i >= n {
                            if i > n {
                                assert(new@[n as int].0 < new@[i].0);
                            }
                        }
                    }
                }
                assert forall|j: int, i: int|
                    0 <= j < cur + 1 && n <= i < new@.len() implies (#[trigger] wid@[j]) < (
                #[trigger] new@[i]).0 by {
                    if j == cur && i > n {
                        assert(new@[n as int].0 < new@[i].0);
                    }
                }
            }
            pass_by(&mut out, new, wid, whash, whead, wseg, n, cur);
            cur += 1;
        }
        let there: bool = cur < wid.len() && wid[cur] == id;
        proof {
            if there {
                assert(wid@[cur as int] == id);
                assert(wid@.contains(id));
                let z = wid@.index_of(id);
                assert(z == cur) by {
                    if z < cur {
                        assert(wid@[z] < wid@[cur as int]);
                    } else if z > cur {
                        assert(wid@[cur as int] < wid@[z]);
                    }
                }
                assert(named(new@, wid@[cur as int])) by {
                    assert(new@[n as int].0 == wid@[cur as int]);
                }
                assert(hit(wid@, whash@, new@, cur as int) <==> whash@[cur as int] != h) by {
                    if whash@[cur as int] == h {
                        assert(new@[n as int] == (wid@[cur as int], whash@[cur as int]));
                    } else {
                        assert forall|i: int| 0 <= i < new@.len() implies (#[trigger] new@[i]) != (
                            wid@[cur as int],
                            whash@[cur as int],
                        ) by {
                            if i < n {
                                assert(new@[i].0 < new@[n as int].0);
                            } else if i > n {
                                assert(new@[n as int].0 < new@[i].0);
                            }
                        }
                    }
                }
            } else {
                if wid@.contains(id) {
                    let z = wid@.index_of(id);
                    if z < cur {
                        assert(wid@[z] < new@[n as int].0);
                    } else {
                        if z > cur {
                            assert(wid@[cur as int] < wid@[z]);
                        }
                    }
                }
            }
        }
        if there {
            let ghost a = out.segments@;
            if whash[cur] == h {
                out.unchanged = out.unchanged + 1;
                if out.unchanged % SAMPLE_STEP == 0 {
                    sample(&mut out.s_unchanged, id);
                }
            } else {
                out.changed = out.changed + 1;
                sample(&mut out.s_changed, id);
                add_run(&mut out.segments, whead, wseg, cur);
            }
            proof {
                lemma_run(wid@, whash@, new@, whead@, wseg@, a, cur as int, out.segments@);
            }
            cur += 1;
        } else {
            out.added = out.added + 1;
            sample(&mut out.s_added, id);
        }
        proof {
            assert forall|j: int, i: int|
                0 <= j < cur && n + 1 <= i < new@.len() implies (#[trigger] wid@[j]) < (
            #[trigger] new@[i]).0 by {
                assert(new@[n as int].0 < new@[i].0);
                if j < cur - 1 || !there {
                    assert(wid@[j] < new@[n as int].0);
                }
            }
            assert forall|j: int, i: int|
                cur <= j < wid@.len() && 0 <= i < n + 1 implies (#[trigger] wid@[j]) > (
            #[trigger] new@[i]).0 by {
                if i == n {
                    if there {
                        assert(wid@[cur - 1] < wid@[j]);
                    } else if j > cur {
                        assert(wid@[cur as int] < wid@[j]);
                    }
                }
            }
        }
        n += 1;
    }
    while cur < wid.len()
        invariant
            wid@.len() == whash@.len(),
            index_ok(wid@, whead@, wseg@),
            n == new@.len(),
            cur <= wid@.len(),
            out.counts(wid@, whash@, new@, n as int, cur as int),
            out.deleted <= cur,
            out.unchanged + out.changed + out.deleted == cur,
            so_far(wid@, whash@, new@, whead@, wseg@, out.segments@, cur as int),
            forall|j: int, i: int|
                cur <= j < wid@.len() && 0 <= i < n ==> (#[trigger] wid@[j]) > (#[trigger] new@[i]).0,
        decreases wid@.len() - cur,
    {
        proof {
            assert(!named(new@, wid@[cur as int])) by {
                if named(new@, wid@[cur as int]) {
                    let i = choose|i: int|
                        0 <= i < new@.len() && (#[trigger] new@[i]).0 == wid@[cur as int];
                    assert(wid@[cur as int] > new@[i].0);
                }
            }
        }
        pass_by(&mut out, new, wid, whash, whead, wseg, n, cur);
        cur += 1;
    }
    let ghost last = out.segments@;
    let mut segs: Vec<u32> = Vec::new();
    std::mem::swap(&mut segs, &mut out.segments);
    out.segments = number_set(segs);
    proof {
        assert forall|s: u32|
            #[trigger] out.segments@.contains(s) <==> exists|j: int|
                0 <= j < wid@.len() && #[trigger] hit(wid@, whash@, new@, j) && owns(
                    whead@,
                    wseg@,
                    j,
                    s,
                ) by {
            assert(out.segments@.contains(s) <==> last.contains(s));
        }
    }
    out
}

proof fn lemma_seen_all(wid: Seq<u64>, whash: Seq<u64>, new: Seq<(u64, u64)>, n: int)
    requires
        0 <= n,
    ensures
        ({
            let s = seen(wid, whash, new, n);
            s.unchanged + s.changed + s.added == n && s.unchanged >= 0 && s.changed >= 0 && s.added
                >= 0
        }),
    decreases n,
{
    if n > 0 {
        lemma_seen_all(wid, whash, new, n - 1);
    }
}

/// Every way of the newer file is unchanged, changed or added, and no two of
/// these.
pub proof fn lemma_each_new_way_once(
    wid: Seq<u64>,
    whash: Seq<u64>,
    new: Seq<(u64, u64)>,
    out: Changes,
)
    requires
        out.counts(wid, whash, new, new.len() as int, wid.len() as int),
    ensures
        out.unchanged + out.changed + out.added == new.len(),
{
    lemma_seen_all(wid, whash, new, new.len() as int);
}

} // verus!
