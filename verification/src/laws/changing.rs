//! What edits and newer files change.

use vstd::prelude::*;
use crate::diff::join::{gone, hit, kind_of, seen, Changes, Kind};
use crate::lookup::ascending64;
use crate::osc::scan::WayModel;
use crate::osc::settle::{
    cost_of, final_state, ids_of, judged, last_edit, place_of, road_at, settled, verdict, weighed,
    Touched, Verdict,
};
use crate::profile::drivable;
use crate::ways::harvest::road_bytes;
use crate::ways::record::{
    cost_part, course_part, lemma_record_kept, steps_fit, way_key, way_record,
};

verus! {

/// How many of the first `n` places are such.
pub open spec fn count(n: int, p: spec_fn(int) -> bool) -> int
    decreases n,
{
    if n <= 0 {
        0
    } else {
        count(n - 1, p) + if p(n - 1) {
            1int
        } else {
            0
        }
    }
}

// --------------------------------------------------------------------- edits

/// The edit at place `i` is the last of its way.
pub open spec fn is_last_edit(ws: Seq<WayModel>, i: int) -> bool {
    &&& 0 <= i < ws.len()
    &&& forall|j: int| i < j < ws.len() ==> (#[trigger] ws[j]).id != ws[i].id
}

proof fn lemma_last_edit(ws: Seq<WayModel>, i: int, n: int)
    requires
        0 <= i < n <= ws.len(),
        forall|j: int| i < j < n ==> (#[trigger] ws[j]).id != ws[i].id,
    ensures
        last_edit(ws, ws[i].id, n) == Some(ws[i]),
    decreases n,
{
    if i < n - 1 {
        lemma_last_edit(ws, i, n - 1);
    }
}

/// What one edit comes to over an index: the way is not there, its cost is what
/// it was, no car goes there any more, or its cost is another.
pub open spec fn is_verdict(wid: Seq<u64>, whash: Seq<u64>, w: WayModel, v: Verdict) -> bool {
    &&& v == Verdict::Unknown <==> forall|p: int| 0 <= p < wid.len() ==> #[trigger] wid[p] != w.id
    &&& forall|p: int|
        0 <= p < wid.len() && #[trigger] wid[p] == w.id ==> {
            &&& v == Verdict::Same <==> cost_of(w.tags) == Some(whash[p])
            &&& v == Verdict::Unroutable <==> cost_of(w.tags) is None
        }
}

proof fn lemma_verdict(wid: Seq<u64>, whash: Seq<u64>, w: WayModel)
    requires
        ascending64(wid),
    ensures
        is_verdict(wid, whash, w, verdict(wid, whash, w)),
{
    if wid.contains(w.id) {
        let q = wid.index_of(w.id);
        assert(wid[q] == w.id);
        let p0 = place_of(wid, w.id);
        assert(0 <= p0 < wid.len() && wid[p0] == w.id);
        assert forall|p: int| 0 <= p < wid.len() && #[trigger] wid[p] == w.id implies p == p0 by {
            if p < p0 {
                assert(wid[p] < wid[p0]);
            } else if p > p0 {
                assert(wid[p0] < wid[p]);
            }
        }
    }
}

proof fn lemma_judged(
    wid: Seq<u64>,
    whash: Seq<u64>,
    ws: Seq<WayModel>,
    ids: Seq<u64>,
    n: int,
    i: int,
)
    requires
        ascending64(ids),
        0 <= n <= ids.len(),
        0 <= i < ids.len(),
    ensures
        judged(wid, whash, ws, ids, n).changed.contains(ids[i]) <==> i < n && (verdict(
            wid,
            whash,
            final_state(ws, ids[i])->0,
        ) == Verdict::Changed || verdict(wid, whash, final_state(ws, ids[i])->0)
            == Verdict::Unroutable),
    decreases n,
{
    if n > 0 {
        lemma_judged(wid, whash, ws, ids, n - 1, i);
        let (was, now) = (
            judged(wid, whash, ws, ids, n - 1).changed,
            judged(wid, whash, ws, ids, n).changed,
        );
        let id = ids[i];
        if i != n - 1 {
            if i < n - 1 {
                assert(ids[i] < ids[n - 1]);
            } else {
                assert(ids[n - 1] < ids[i]);
            }
            if was.contains(id) {
                let k = was.index_of(id);
                assert(now[k] == id);
            }
            if now.contains(id) {
                let k = now.index_of(id);
                assert(was[k] == id);
            }
        } else if now.len() > was.len() {
            assert(now[was.len() as int] == id);
        }
    }
}

/// The cost of a way changed where its last edit leaves it another cost than the
/// index has for it, or none; and nowhere else. Earlier edits of it are not
/// looked at.
pub proof fn lemma_cost_changed(
    wid: Seq<u64>,
    whash: Seq<u64>,
    ws: Seq<WayModel>,
    t: Touched,
    i: int,
    p: int,
)
    requires
        ascending64(wid),
        wid.len() == whash.len(),
        settled(wid, whash, ws, t),
        is_last_edit(ws, i),
        0 <= p < wid.len(),
        wid[p] == ws[i].id,
    ensures
        t.cost_changed@.contains(ws[i].id) <==> cost_of(ws[i].tags) != Some(whash[p]),
{
    let ids = choose|ids: Seq<u64>| #[trigger] weighed(wid, whash, ws, ids, t);
    lemma_last_edit(ws, i, ws.len() as int);
    let id = ws[i].id;
    assert(final_state(ws, id) == Some(ws[i]));
    assert(ids.contains(id));
    let k = ids.index_of(id);
    lemma_judged(wid, whash, ws, ids, ids.len() as int, k);
    lemma_verdict(wid, whash, ws[i]);
    assert(wid[p] == ws[i].id);
}

/// A way that the index does not have is none whose cost changed.
pub proof fn lemma_not_indexed(
    wid: Seq<u64>,
    whash: Seq<u64>,
    ws: Seq<WayModel>,
    t: Touched,
    i: int,
)
    requires
        ascending64(wid),
        settled(wid, whash, ws, t),
        is_last_edit(ws, i),
        !wid.contains(ws[i].id),
    ensures
        !t.cost_changed@.contains(ws[i].id),
        t.unknown >= 1,
{
    let ids = choose|ids: Seq<u64>| #[trigger] weighed(wid, whash, ws, ids, t);
    lemma_last_edit(ws, i, ws.len() as int);
    let id = ws[i].id;
    assert(final_state(ws, id) == Some(ws[i]));
    assert(ids.contains(id));
    let k = ids.index_of(id);
    lemma_judged(wid, whash, ws, ids, ids.len() as int, k);
    lemma_counts(wid, whash, ws, ids, ids.len() as int);
    lemma_count_one(ids.len() as int, is_new(wid, ids), k);
}

proof fn lemma_count_one(n: int, p: spec_fn(int) -> bool, k: int)
    requires
        0 <= k < n,
        p(k),
    ensures
        count(n, p) >= 1,
    decreases n,
{
    lemma_count_range(n - 1, p);
    if k < n - 1 {
        lemma_count_one(n - 1, p, k);
    }
}

proof fn lemma_count_range(n: int, p: spec_fn(int) -> bool)
    ensures
        count(n, p) >= 0,
    decreases n,
{
    if n > 0 {
        lemma_count_range(n - 1, p);
    }
}

pub open spec fn is_new(wid: Seq<u64>, ids: Seq<u64>) -> spec_fn(int) -> bool {
    |k: int| !wid.contains(ids[k])
}

pub open spec fn is_same(
    wid: Seq<u64>,
    whash: Seq<u64>,
    ws: Seq<WayModel>,
    ids: Seq<u64>,
) -> spec_fn(int) -> bool {
    |k: int|
        exists|p: int|
            0 <= p < wid.len() && #[trigger] wid[p] == ids[k] && cost_of(
                final_state(ws, ids[k])->0.tags,
            ) == Some(whash[p])
}

pub open spec fn is_lost(wid: Seq<u64>, ws: Seq<WayModel>, ids: Seq<u64>) -> spec_fn(int) -> bool {
    |k: int| wid.contains(ids[k]) && cost_of(final_state(ws, ids[k])->0.tags) is None
}

proof fn lemma_counts(wid: Seq<u64>, whash: Seq<u64>, ws: Seq<WayModel>, ids: Seq<u64>, n: int)
    requires
        ascending64(wid),
        ids_of(ids, ws),
        0 <= n <= ids.len(),
    ensures
        judged(wid, whash, ws, ids, n).unknown == count(n, is_new(wid, ids)),
        judged(wid, whash, ws, ids, n).same == count(n, is_same(wid, whash, ws, ids)),
        judged(wid, whash, ws, ids, n).unroutable == count(n, is_lost(wid, ws, ids)),
    decreases n,
{
    if n > 0 {
        lemma_counts(wid, whash, ws, ids, n - 1);
        let id = ids[n - 1];
        assert(ids.contains(id));
        lemma_final_id(ws, id, ws.len() as int);
        let w = final_state(ws, id)->0;
        lemma_verdict(wid, whash, w);
        let v = verdict(wid, whash, w);
        assert(wid.contains(id) <==> v != Verdict::Unknown) by {
            if wid.contains(id) {
                let q = wid.index_of(id);
                assert(wid[q] == w.id);
            } else {
                assert forall|p: int| 0 <= p < wid.len() implies #[trigger] wid[p] != w.id by {}
            }
        }
        assert(is_same(wid, whash, ws, ids)(n - 1) <==> v == Verdict::Same) by {
            if v == Verdict::Same {
                let q = wid.index_of(id);
                assert(wid[q] == ids[n - 1]);
            }
        }
        assert(is_lost(wid, ws, ids)(n - 1) <==> v == Verdict::Unroutable) by {
            if wid.contains(id) {
                let q = wid.index_of(id);
                assert(wid[q] == w.id);
            }
        }
    }
}

proof fn lemma_final_id(ws: Seq<WayModel>, id: u64, n: int)
    ensures
        last_edit(ws, id, n) matches Some(w) ==> w.id == id,
    decreases n,
{
    if n > 0 {
        lemma_final_id(ws, id, n - 1);
    }
}

/// Every way that was edited is counted once, by its last edit: those that the
/// index does not have, those whose cost is what it was, and those where no car
/// goes any more.
pub proof fn lemma_edits_counted(wid: Seq<u64>, whash: Seq<u64>, ws: Seq<WayModel>, t: Touched) -> (ids:
    Seq<u64>)
    requires
        ascending64(wid),
        settled(wid, whash, ws, t),
    ensures
        ascending64(ids),
        forall|i: int| 0 <= i < ws.len() ==> ids.contains((#[trigger] ws[i]).id),
        t.unknown == count(ids.len() as int, is_new(wid, ids)),
        t.cost_same == count(ids.len() as int, is_same(wid, whash, ws, ids)),
        t.cost_unroutable == count(ids.len() as int, is_lost(wid, ws, ids)),
        t.cost_changed@.len() + t.cost_same + t.unknown == ids.len(),
{
    let ids = choose|ids: Seq<u64>| #[trigger] weighed(wid, whash, ws, ids, t);
    lemma_counts(wid, whash, ws, ids, ids.len() as int);
    crate::osc::settle::lemma_each_way_once(wid, whash, ws, ids, t);
    assert forall|i: int| 0 <= i < ws.len() implies ids.contains((#[trigger] ws[i]).id) by {
        lemma_some_edit(ws, i, ws.len() as int);
    }
    ids
}

proof fn lemma_some_edit(ws: Seq<WayModel>, i: int, n: int)
    requires
        0 <= i < n <= ws.len(),
    ensures
        last_edit(ws, ws[i].id, n) is Some,
    decreases n,
{
    if ws[n - 1].id != ws[i].id {
        lemma_some_edit(ws, i, n - 1);
    }
}

/// What is told of a road is what a build has of it: the record that it leaves
/// there has the same hash of its cost and of its course. So a road sent again
/// as it is counts as unchanged.
pub proof fn lemma_as_built(id: i64, tags: Seq<(&[u8], &[u8])>, refs: Seq<i64>)
    requires
        drivable(tags),
        refs.len() >= 2,
        refs.len() <= u64::MAX,
        steps_fit(refs),
        crate::ways::harvest::first_or_none(tags, "name").len() <= u64::MAX,
        crate::ways::harvest::first_or_none(tags, "ref").len() <= u64::MAX,
    ensures
        match (road_at(tags, refs), way_key(road_bytes(id, tags, refs))) {
            (Some((_, cost, course)), Some((i, c, d))) => i == id as u64 && c == cost && d == course,
            _ => false,
        },
{
    let e = Seq::<u8>::empty();
    let (name, rf) = (
        crate::ways::harvest::first_or_none(tags, "name"),
        crate::ways::harvest::first_or_none(tags, "ref"),
    );
    let word = crate::ways::harvest::attr_of(tags);
    let w = way_record(id as u64, word, name, rf, refs);
    lemma_record_kept(e, id as u64, word, name, rf, refs, e);
    assert(e + w + e =~= w);
    let head = crate::varint::leb_bytes(id as u64 as nat);
    let at = (head.len() + cost_part(word, name, rf).len()) as int;
    assert(w.subrange(at, w.len() as int) =~= course_part(refs));
    reveal(way_key);
}

// ---------------------------------------------------------------- newer files

/// The index has the way, with this hash.
pub open spec fn had(wid: Seq<u64>, whash: Seq<u64>, p: (u64, u64)) -> bool {
    exists|j: int| 0 <= j < wid.len() && #[trigger] wid[j] == p.0 && whash[j] == p.1
}

pub open spec fn stayed(wid: Seq<u64>, whash: Seq<u64>, new: Seq<(u64, u64)>) -> spec_fn(int) -> bool {
    |i: int| had(wid, whash, new[i])
}

pub open spec fn altered(wid: Seq<u64>, whash: Seq<u64>, new: Seq<(u64, u64)>) -> spec_fn(int) -> bool {
    |i: int| wid.contains(new[i].0) && !had(wid, whash, new[i])
}

pub open spec fn arrived(wid: Seq<u64>, new: Seq<(u64, u64)>) -> spec_fn(int) -> bool {
    |i: int| !wid.contains(new[i].0)
}

pub open spec fn left(wid: Seq<u64>, new: Seq<(u64, u64)>) -> spec_fn(int) -> bool {
    |j: int| forall|i: int| 0 <= i < new.len() ==> (#[trigger] new[i]).0 != wid[j]
}

proof fn lemma_kind(wid: Seq<u64>, whash: Seq<u64>, p: (u64, u64))
    requires
        ascending64(wid),
    ensures
        kind_of(wid, whash, p) == Kind::Added <==> !wid.contains(p.0),
        kind_of(wid, whash, p) == Kind::Unchanged <==> had(wid, whash, p),
{
    if wid.contains(p.0) {
        let q = wid.index_of(p.0);
        assert(wid[q] == p.0);
        assert forall|j: int| 0 <= j < wid.len() && #[trigger] wid[j] == p.0 implies j == q by {
            if j < q {
                assert(wid[j] < wid[q]);
            } else if j > q {
                assert(wid[q] < wid[j]);
            }
        }
    }
}

/// Every sampled way is one of its kind, and samples are few.
pub open spec fn fair_sample(s: Seq<u64>, new: Seq<(u64, u64)>, n: int, p: spec_fn(int) -> bool) -> bool {
    &&& s.len() <= crate::diff::join::SAMPLE_MAX
    &&& forall|k: int| 0 <= k < s.len() ==> comes_so(new, n, p, #[trigger] s[k])
}

/// A way with this number comes up among the first `n`, and is such.
pub open spec fn comes_so(new: Seq<(u64, u64)>, n: int, p: spec_fn(int) -> bool, id: u64) -> bool {
    exists|i: int| 0 <= i < n && (#[trigger] new[i]).0 == id && p(i)
}

proof fn lemma_sample(s: Seq<u64>, t: Seq<u64>, new: Seq<(u64, u64)>, n: int, p: spec_fn(int) -> bool)
    requires
        n >= 1,
        fair_sample(s, new, n - 1, p),
        t == s || (p(n - 1) && t == crate::diff::join::sampled(s, new[n - 1].0)),
    ensures
        fair_sample(t, new, n, p),
{
    assert forall|k: int| 0 <= k < t.len() implies comes_so(new, n, p, #[trigger] t[k]) by {
        if k < s.len() {
            assert(t[k] == s[k]);
            assert(comes_so(new, n - 1, p, s[k]));
            let i = choose|i: int| 0 <= i < n - 1 && (#[trigger] new[i]).0 == s[k] && p(i);
            assert(new[i].0 == t[k]);
        } else {
            assert(new[n - 1].0 == t[k]);
        }
    }
}

proof fn lemma_seen(wid: Seq<u64>, whash: Seq<u64>, new: Seq<(u64, u64)>, n: int)
    requires
        ascending64(wid),
        0 <= n <= new.len(),
    ensures
        seen(wid, whash, new, n).unchanged == count(n, stayed(wid, whash, new)),
        seen(wid, whash, new, n).changed == count(n, altered(wid, whash, new)),
        seen(wid, whash, new, n).added == count(n, arrived(wid, new)),
        fair_sample(seen(wid, whash, new, n).s_unchanged, new, n, stayed(wid, whash, new)),
        fair_sample(seen(wid, whash, new, n).s_changed, new, n, altered(wid, whash, new)),
        fair_sample(seen(wid, whash, new, n).s_added, new, n, arrived(wid, new)),
    decreases n,
{
    if n > 0 {
        lemma_seen(wid, whash, new, n - 1);
        lemma_kind(wid, whash, new[n - 1]);
        let (a, b) = (seen(wid, whash, new, n - 1), seen(wid, whash, new, n));
        lemma_sample(a.s_unchanged, b.s_unchanged, new, n, stayed(wid, whash, new));
        lemma_sample(a.s_changed, b.s_changed, new, n, altered(wid, whash, new));
        lemma_sample(a.s_added, b.s_added, new, n, arrived(wid, new));
    }
}

proof fn lemma_gone(wid: Seq<u64>, new: Seq<(u64, u64)>, n: int)
    requires
        0 <= n <= wid.len(),
    ensures
        gone(wid, new, n).0 == count(n, left(wid, new)),
    decreases n,
{
    if n > 0 {
        lemma_gone(wid, new, n - 1);
    }
}

/// Of the ways of a newer file, those that the index has with the same hash are
/// unchanged, those that it has with another are changed, and those that it does
/// not have are added; a way of the index that the file does not name is
/// deleted. Each is counted once, and a sample of a kind holds ways of it.
pub proof fn lemma_compared(wid: Seq<u64>, whash: Seq<u64>, new: Seq<(u64, u64)>, out: Changes)
    requires
        ascending64(wid),
        wid.len() == whash.len(),
        out.counts(wid, whash, new, new.len() as int, wid.len() as int),
    ensures
        out.unchanged == count(new.len() as int, stayed(wid, whash, new)),
        out.changed == count(new.len() as int, altered(wid, whash, new)),
        out.added == count(new.len() as int, arrived(wid, new)),
        out.deleted == count(wid.len() as int, left(wid, new)),
        fair_sample(out.s_unchanged@, new, new.len() as int, stayed(wid, whash, new)),
        fair_sample(out.s_changed@, new, new.len() as int, altered(wid, whash, new)),
        fair_sample(out.s_added@, new, new.len() as int, arrived(wid, new)),
{
    lemma_seen(wid, whash, new, new.len() as int);
    lemma_gone(wid, new, wid.len() as int);
}

/// The way at a place of the index was hit where the newer file does not have
/// it as it was.
pub proof fn lemma_hit(wid: Seq<u64>, whash: Seq<u64>, new: Seq<(u64, u64)>, j: int)
    requires
        0 <= j < wid.len(),
        wid.len() == whash.len(),
    ensures
        hit(wid, whash, new, j) <==> !new.contains((wid[j], whash[j])),
{
    if new.contains((wid[j], whash[j])) {
        let i = new.index_of((wid[j], whash[j]));
        assert(new[i] == (wid[j], whash[j]));
    }
}

} // verus!
