//! What the ways of a change file can change in a dataset.

use vstd::prelude::*;
use crate::attr::pack_attr;
use crate::bytes::{fnv, FNV_START};
use crate::dataset::head_ok;
use crate::lookup::{ascending, ascending64, position64, sorted64};
use crate::osc::scan::{tag_models, way_models, Scanner, TaggedWay, Tally, WayModel};
use crate::profile::{classify, drivable, WayAttr, NO_STR};
use crate::ranking::{key_lt, rank_by, ranked, Ranking};
use crate::sorting::number_set;
use crate::ways::harvest::{attr_of, find_first, first_or_none, no_string};
use crate::ways::record::{
    cost_part, course_part, encode_way, lemma_record_kept, steps_fit, way_hashes, way_key,
    way_record,
};

verus! {

/// Slices that spell tags.
pub open spec fn spelled(p: Seq<(&[u8], &[u8])>, m: Seq<(Seq<u8>, Seq<u8>)>) -> bool {
    &&& p.len() == m.len()
    &&& forall|i: int| 0 <= i < p.len() ==> (#[trigger] p[i]).0@ == m[i].0 && p[i].1@ == m[i].1
}

/// The slices that spell tags: there is one such list.
pub open spec fn slices_of(m: Seq<(Seq<u8>, Seq<u8>)>) -> Seq<(&'static [u8], &'static [u8])> {
    choose|p: Seq<(&[u8], &[u8])>| spelled(p, m)
}

proof fn lemma_spelled(p: Seq<(&[u8], &[u8])>, m: Seq<(Seq<u8>, Seq<u8>)>)
    requires
        spelled(p, m),
    ensures
        p == slices_of(m),
{
    let q = slices_of(m);
    assert(spelled(q, m));
    assert forall|i: int| 0 <= i < p.len() implies p[i] == q[i] by {
        assert(p[i].0@ == m[i].0 && p[i].1@ == m[i].1);
        assert(q[i].0@ == m[i].0 && q[i].1@ == m[i].1);
        assert(p[i].0 =~= q[i].0);
        assert(p[i].1 =~= q[i].1);
    }
    assert(p =~= q);
}

fn borrow_tags<'a>(tags: &'a [(Vec<u8>, Vec<u8>)]) -> (p: Vec<(&'a [u8], &'a [u8])>)
    ensures
        p@ == slices_of(tag_models(tags@)),
{
    let mut p: Vec<(&'a [u8], &'a [u8])> = Vec::new();
    let mut i: usize = 0;
    while i < tags.len()
        invariant
            i <= tags@.len(),
            p@.len() == i,
            forall|j: int|
                0 <= j < i ==> (#[trigger] p@[j]).0@ == tags@[j].0@ && p@[j].1@ == tags@[j].1@,
        decreases tags@.len() - i,
    {
        p.push((tags[i].0.as_slice(), tags[i].1.as_slice()));
        i += 1;
    }
    proof {
        lemma_spelled(p@, tag_models(tags@));
    }
    p
}

/// The attributes of a road, the hash of what its cost is made of, and that of
/// its course; nothing where no car goes.
pub open spec fn road_at(p: Seq<(&[u8], &[u8])>, refs: Seq<i64>) -> Option<(u32, u64, u64)> {
    if drivable(p) {
        let attr = attr_of(p);
        Some(
            (
                attr,
                fnv(
                    FNV_START,
                    cost_part(attr, first_or_none(p, "name"), first_or_none(p, "ref")),
                ),
                fnv(FNV_START, course_part(refs)),
            ),
        )
    } else {
        None
    }
}

/// The packed attributes of a road.
#[verifier::rlimit(30)]
fn road_word(pairs: &[(&[u8], &[u8])]) -> (r: Option<u32>)
    ensures
        r == (if drivable(pairs@) {
            Some(attr_of(pairs@))
        } else {
            None
        }),
{
    let road: Option<WayAttr> = classify(pairs, |v: &[u8]| -> (r: u32)
        ensures
            r == NO_STR,
        { no_string(v) });
    match road {
        None => None,
        Some(a) => Some(pack_attr(&a)),
    }
}

/// The state of a road as a build would have it.
pub fn road_state(id: u64, pairs: &[(&[u8], &[u8])], refs: &[i64]) -> (r: Option<(u32, u64, u64)>)
    requires
        steps_fit(refs@),
    ensures
        r == road_at(pairs@, refs@),
{
    let word: u32 = match road_word(pairs) {
        None => {
            return None;
        },
        Some(w) => w,
    };
    let none: [u8; 0] = [];
    let empty: &[u8] = vstd::array::array_as_slice(&none);
    assert(empty@ =~= Seq::<u8>::empty());
    let name: &[u8] = match find_first(pairs, "name") {
        Some(v) => v,
        None => empty,
    };
    let rf: &[u8] = match find_first(pairs, "ref") {
        Some(v) => v,
        None => empty,
    };
    let mut rec: Vec<u8> = Vec::new();
    encode_way(&mut rec, id, word, name, rf, refs);
    let (nl, rl, fl): (usize, usize, usize) = (name.len(), rf.len(), refs.len());
    let key: Option<(u64, u64, u64)> = way_hashes(rec.as_slice());
    proof {
        let e = Seq::<u8>::empty();
        let w = way_record(id, word, name@, rf@, refs@);
        assert(rec@ =~= w);
        lemma_record_kept(e, id, word, name@, rf@, refs@, e);
        assert(e + w + e =~= w);
        let head = crate::varint::leb_bytes(id as nat);
        let at = (head.len() + cost_part(word, name@, rf@).len()) as int;
        assert(w.subrange(at, w.len() as int) =~= course_part(refs@));
        reveal(way_key);
    }
    match key {
        None => None,
        Some((_, attr, topo)) => Some((word, attr, topo)),
    }
}

/// As [`road_at`], of tags given as bytes.
pub open spec fn state_of(m: Seq<(Seq<u8>, Seq<u8>)>, refs: Seq<i64>) -> Option<(u32, u64, u64)> {
    road_at(slices_of(m), refs)
}

/// The state of a way as a build would have it.
pub fn way_state(id: u64, tags: &[(Vec<u8>, Vec<u8>)], refs: &[i64]) -> (r: Option<
    (u32, u64, u64),
>)
    requires
        steps_fit(refs@),
    ensures
        r == state_of(tag_models(tags@), refs@),
{
    let p: Vec<(&[u8], &[u8])> = borrow_tags(tags);
    road_state(id, p.as_slice(), refs)
}

pub open spec fn cost_of(m: Seq<(Seq<u8>, Seq<u8>)>) -> Option<u64> {
    match state_of(m, Seq::empty()) {
        None => None,
        Some((_, h, _)) => Some(h),
    }
}

/// The hash of what a way's cost is made of, for which its nodes are not
/// needed.
pub fn cost_hash(id: u64, tags: &[(Vec<u8>, Vec<u8>)]) -> (r: Option<u64>)
    ensures
        r == cost_of(tag_models(tags@)),
{
    let none: [i64; 0] = [];
    let refs: &[i64] = vstd::array::array_as_slice(&none);
    assert(refs@ =~= Seq::<i64>::empty());
    match way_state(id, tags, refs) {
        None => None,
        Some((_, h, _)) => Some(h),
    }
}

/// The hash of a way's cost does not depend on its nodes.
pub proof fn lemma_cost_without_nodes(m: Seq<(Seq<u8>, Seq<u8>)>, refs: Seq<i64>)
    ensures
        match state_of(m, refs) {
            None => cost_of(m) is None,
            Some((_, h, _)) => cost_of(m) == Some(h),
        },
{
}

/// The hash of a way's course does not depend on its tags, as long as a car may
/// go there.
pub proof fn lemma_course_without_tags(
    m: Seq<(Seq<u8>, Seq<u8>)>,
    other: Seq<(Seq<u8>, Seq<u8>)>,
    refs: Seq<i64>,
)
    ensures
        match (state_of(m, refs), state_of(other, refs)) {
            (Some((_, _, a)), Some((_, _, b))) => a == b,
            _ => true,
        },
{
}

/// What an edit of a way comes to.
#[derive(Clone, Copy, PartialEq, Eq, Structural)]
pub enum Verdict {
    /// The dataset does not have the way.
    Unknown,
    /// Its cost is what it was.
    Same,
    /// No car goes there any more.
    Unroutable,
    Changed,
}

/// Where a way stands in the index.
pub open spec fn place_of(wid: Seq<u64>, id: u64) -> int {
    choose|i: int| 0 <= i < wid.len() && #[trigger] wid[i] == id
}

pub open spec fn verdict(wid: Seq<u64>, whash: Seq<u64>, w: WayModel) -> Verdict {
    if !wid.contains(w.id) {
        Verdict::Unknown
    } else {
        match cost_of(w.tags) {
            None => Verdict::Unroutable,
            Some(h) => if h == whash[place_of(wid, w.id)] {
                Verdict::Same
            } else {
                Verdict::Changed
            },
        }
    }
}

fn judge(wid: &[u64], whash: &[u64], w: &TaggedWay) -> (r: Verdict)
    requires
        ascending64(wid@),
        wid@.len() == whash@.len(),
    ensures
        r == verdict(wid@, whash@, w.model()),
{
    match position64(wid, w.id) {
        None => Verdict::Unknown,
        Some(i) => {
            proof {
                assert(wid@[i as int] == w.id);
                assert(wid@.contains(w.id));
                let j = place_of(wid@, w.id);
                assert(0 <= j < wid@.len() && wid@[j] == w.id);
                assert(j == i) by {
                    if j < i {
                        assert(wid@[j] < wid@[i as int]);
                    } else if i < j {
                        assert(wid@[i as int] < wid@[j]);
                    }
                }
            }
            match cost_hash(w.id, w.tags.as_slice()) {
                None => Verdict::Unroutable,
                Some(h) => if h == whash[i] {
                    Verdict::Same
                } else {
                    Verdict::Changed
                },
            }
        },
    }
}

/// The last of the first `n` ways with a number: where several edits name a
/// way, its final state counts.
pub open spec fn last_edit(ws: Seq<WayModel>, id: u64, n: int) -> Option<WayModel>
    decreases n,
{
    if n <= 0 {
        None
    } else if ws[n - 1].id == id {
        Some(ws[n - 1])
    } else {
        last_edit(ws, id, n - 1)
    }
}

pub open spec fn final_state(ws: Seq<WayModel>, id: u64) -> Option<WayModel> {
    last_edit(ws, id, ws.len() as int)
}

/// Numbers that rise and are just those of the ways.
pub open spec fn ids_of(ids: Seq<u64>, ws: Seq<WayModel>) -> bool {
    &&& ascending64(ids)
    &&& forall|id: u64| #[trigger] ids.contains(id) <==> final_state(ws, id) is Some
}

/// What the edits of the first `n` ways come to.
pub struct Sorted {
    pub changed: Seq<u64>,
    pub same: int,
    pub unroutable: int,
    pub unknown: int,
}

pub open spec fn judged(
    wid: Seq<u64>,
    whash: Seq<u64>,
    ws: Seq<WayModel>,
    ids: Seq<u64>,
    n: int,
) -> Sorted
    decreases n,
{
    if n <= 0 {
        Sorted { changed: Seq::empty(), same: 0, unroutable: 0, unknown: 0 }
    } else {
        let s = judged(wid, whash, ws, ids, n - 1);
        let id = ids[n - 1];
        match verdict(wid, whash, final_state(ws, id)->0) {
            Verdict::Unknown => Sorted { unknown: s.unknown + 1, ..s },
            Verdict::Same => Sorted { same: s.same + 1, ..s },
            Verdict::Unroutable => Sorted {
                unroutable: s.unroutable + 1,
                changed: s.changed.push(id),
                ..s
            },
            Verdict::Changed => Sorted { changed: s.changed.push(id), ..s },
        }
    }
}

/// What change files touched.
pub struct Touched {
    /// The ways named, rising.
    pub ways: Vec<u64>,
    /// Of those, the ones whose cost changed, rising.
    pub cost_changed: Vec<u64>,
    /// Whether that could be told.
    pub cost_known: bool,
    pub unknown: u64,
    pub cost_same: u64,
    pub cost_unroutable: u64,
    pub nodes: Vec<(i32, i32)>,
    pub way_counts: Tally,
    pub node_counts: Tally,
    pub unplaced: u64,
}

/// Sorts numbers and drops those that come twice.
pub fn rising(v: &Vec<u64>) -> (r: Vec<u64>)
    ensures
        ascending64(r@),
        forall|x: u64| #[trigger] r@.contains(x) <==> v@.contains(x),
{
    let rank: Ranking = rank_by(v);
    let mut r: Vec<u64> = Vec::new();
    let mut i: usize = 0;
    let n: usize = v.len();
    while i < n
        invariant
            n == v@.len(),
            ranked(v@, rank),
            i <= n,
            ascending64(r@),
            i == 0 ==> r@.len() == 0,
            i > 0 ==> r@.len() > 0 && r@.last() == v@[rank.order@[i - 1] as int],
            forall|x: int| 0 <= x < r@.len() ==> v@.contains(#[trigger] r@[x]),
            forall|x: int| 0 <= x < i ==> r@.contains(v@[(#[trigger] rank.order@[x]) as int]),
        decreases n - i,
    {
        assert(rank.order@[i as int] < n);
        let x: u64 = v[rank.order[i]];
        let ghost r0 = r@;
        proof {
            if i > 0 {
                assert(key_lt(v@, rank.order@[i - 1] as int, rank.order@[i as int] as int));
            }
            assert(v@.contains(x));
        }
        let fresh: bool = r.len() == 0 || r[r.len() - 1] != x;
        if fresh {
            r.push(x);
        }
        proof {
            assert forall|y: int| 0 <= y < i + 1 implies r@.contains(
                v@[(#[trigger] rank.order@[y]) as int],
            ) by {
                if y < i {
                    let z = r0.index_of(v@[rank.order@[y] as int]);
                    assert(r@[z] == r0[z]);
                } else {
                    assert(r@[r@.len() - 1] == x);
                }
            }
            assert forall|a: int, b: int| 0 <= a < b < r@.len() implies r@[a] < r@[b] by {
                if b == r0.len() {
                    if a < r0.len() - 1 {
                        assert(r0[a] < r0[r0.len() - 1]);
                    }
                }
            }
        }
        i += 1;
    }
    proof {
        assert forall|x: u64| #[trigger] r@.contains(x) <==> v@.contains(x) by {
            if v@.contains(x) {
                let k = v@.index_of(x);
                let y = rank.place@[k] as int;
                assert(rank.order@[y] == k);
                assert(r@.contains(v@[rank.order@[y] as int]));
            }
            if r@.contains(x) {
                let z = r@.index_of(x);
                assert(v@.contains(r@[z]));
            }
        }
    }
    r
}

proof fn lemma_last_edit(ws: Seq<WayModel>, id: u64, n: int, k: int)
    requires
        0 <= k < n <= ws.len(),
        ws[k].id == id,
        forall|j: int| k < j < n ==> (#[trigger] ws[j]).id != id,
    ensures
        last_edit(ws, id, n) == Some(ws[k]),
    decreases n,
{
    if n - 1 > k {
        lemma_last_edit(ws, id, n - 1, k);
    }
}

proof fn lemma_has_edit(ws: Seq<WayModel>, id: u64, n: int)
    requires
        0 <= n <= ws.len(),
    ensures
        last_edit(ws, id, n) is Some <==> exists|k: int| 0 <= k < n && (#[trigger] ws[k]).id == id,
    decreases n,
{
    if n > 0 {
        lemma_has_edit(ws, id, n - 1);
        if ws[n - 1].id == id {
            assert(ws[n - 1].id == id);
        }
    }
}

fn way_ids(ws: &Vec<TaggedWay>) -> (r: Vec<u64>)
    ensures
        r@.len() == ws@.len(),
        forall|i: int| 0 <= i < r@.len() ==> #[trigger] r@[i] == ws@[i].id,
{
    let mut r: Vec<u64> = Vec::new();
    while r.len() < ws.len()
        invariant
            r@.len() <= ws@.len(),
            forall|i: int| 0 <= i < r@.len() ==> #[trigger] r@[i] == ws@[i].id,
        decreases ws@.len() - r@.len(),
    {
        let x: u64 = ws[r.len()].id;
        r.push(x);
    }
    r
}

pub open spec fn sorted_out(t: Touched, s: Sorted) -> bool {
    &&& t.cost_changed@ == s.changed
    &&& t.cost_same == s.same
    &&& t.cost_unroutable == s.unroutable
    &&& t.unknown == s.unknown
}

/// What the ways of change files come to over an index.
pub open spec fn weighed(
    wid: Seq<u64>,
    whash: Seq<u64>,
    ws: Seq<WayModel>,
    ids: Seq<u64>,
    t: Touched,
) -> bool {
    ids_of(ids, ws) && sorted_out(t, judged(wid, whash, ws, ids, ids.len() as int))
}

/// What edits of ways come to over an index.
pub open spec fn settled(wid: Seq<u64>, whash: Seq<u64>, ws: Seq<WayModel>, t: Touched) -> bool {
    exists|ids: Seq<u64>| #[trigger] weighed(wid, whash, ws, ids, t)
}

/// Judges every way by its last edit.
#[verifier::rlimit(60)]
fn weigh(t: &mut Touched, tagged: &Vec<TaggedWay>, wid: &[u64], whash: &[u64])
    requires
        ascending64(wid@),
        wid@.len() == whash@.len(),
        old(t).cost_changed@.len() == 0,
        old(t).cost_same == 0,
        old(t).cost_unroutable == 0,
        old(t).unknown == 0,
    ensures
        exists|ids: Seq<u64>| #[trigger]
            weighed(wid@, whash@, way_models(tagged@), ids, *final(t)),
        *final(t) == (Touched {
            cost_changed: final(t).cost_changed,
            cost_same: final(t).cost_same,
            cost_unroutable: final(t).cost_unroutable,
            unknown: final(t).unknown,
            ..*old(t)
        }),
{
    let ghost ws = way_models(tagged@);
    let keys: Vec<u64> = way_ids(tagged);
    let rank: Ranking = rank_by(&keys);
    let n: usize = tagged.len();
    let mut x: usize = 0;
    let ghost mut ids: Seq<u64> = Seq::empty();
    assert(t.cost_changed@ =~= Seq::<u64>::empty());
    while x < n
        invariant
            n == tagged@.len(),
            ws == way_models(tagged@),
            keys@.len() == n,
            forall|i: int| 0 <= i < n ==> #[trigger] keys@[i] == tagged@[i].id,
            ranked(keys@, rank),
            ascending64(wid@),
            wid@.len() == whash@.len(),
            x <= n,
            ids.len() <= x,
            ascending64(ids),
            forall|i: int|
                0 <= i < ids.len() ==> final_state(ws, #[trigger] ids[i]) is Some && (x < n
                    ==> ids[i] < keys@[rank.order@[x as int] as int]),
            forall|y: int|
                0 <= y < x ==> ids.contains(keys@[(#[trigger] rank.order@[y]) as int]) || (x < n
                    && keys@[rank.order@[y] as int] == keys@[rank.order@[x as int] as int]),
            sorted_out(*t, judged(wid@, whash@, ws, ids, ids.len() as int)),
            t.cost_same <= x,
            t.cost_unroutable <= x,
            t.unknown <= x,
            *t == (Touched {
                cost_changed: t.cost_changed,
                cost_same: t.cost_same,
                cost_unroutable: t.cost_unroutable,
                unknown: t.unknown,
                ..*old(t)
            }),
        decreases n - x,
    {
        assert(rank.order@[x as int] < n);
        let i: usize = rank.order[x];
        let id: u64 = keys[i];
        if x + 1 < n {
            assert(rank.order@[x + 1] < n);
            assert(key_lt(keys@, rank.order@[x as int] as int, rank.order@[x + 1] as int));
        }
        let last: bool = x + 1 == n || keys[rank.order[x + 1]] != id;
        let ghost ids0 = ids;
        if last {
            proof {
                assert forall|j: int| i < j < n implies (#[trigger] ws[j]).id != id by {
                    if ws[j].id == id {
                        let y = rank.place@[j] as int;
                        assert(rank.order@[y] == j);
                        assert(keys@[j] == tagged@[j].id);
                        if y < x {
                            assert(key_lt(keys@, rank.order@[y] as int, rank.order@[x as int] as int));
                        } else if y > x {
                            if y > x + 1 {
                                assert(key_lt(
                                    keys@,
                                    rank.order@[x + 1] as int,
                                    rank.order@[y] as int,
                                ));
                            }
                        }
                    }
                }
                assert(ws[i as int].id == id);
                lemma_last_edit(ws, id, n as int, i as int);
            }
            let v: Verdict = judge(wid, whash, &tagged[i]);
            proof {
                ids = ids0.push(id);
                assert(judged(wid@, whash@, ws, ids, ids0.len() as int) == judged(
                    wid@,
                    whash@,
                    ws,
                    ids0,
                    ids0.len() as int,
                )) by {
                    lemma_judged_same(wid@, whash@, ws, ids0, ids, ids0.len() as int);
                }
                assert(ids[ids0.len() as int] == id);
            }
            match v {
                Verdict::Unknown => {
                    t.unknown = t.unknown + 1;
                },
                Verdict::Same => {
                    t.cost_same = t.cost_same + 1;
                },
                Verdict::Unroutable => {
                    t.cost_unroutable = t.cost_unroutable + 1;
                    t.cost_changed.push(id);
                },
                Verdict::Changed => {
                    t.cost_changed.push(id);
                },
            }
        }
        proof {
            assert forall|y: int| 0 <= y < x + 1 implies ids.contains(
                keys@[(#[trigger] rank.order@[y]) as int],
            ) || (x + 1 < n && keys@[rank.order@[y] as int] == keys@[rank.order@[x + 1] as int]) by {
                let k = keys@[rank.order@[y] as int];
                if last {
                    assert(ids[ids0.len() as int] == id);
                    if ids0.contains(k) {
                        let z = ids0.index_of(k);
                        assert(ids[z] == k);
                    }
                } else if y == x {
                } else if !ids0.contains(k) {
                    assert(k == id);
                }
            }
            assert forall|z: int| 0 <= z < ids.len() implies final_state(ws, #[trigger] ids[z]) is Some
                && (x + 1 < n ==> ids[z] < keys@[rank.order@[x + 1] as int]) by {
                if z < ids0.len() {
                    assert(ids0[z] == ids[z]);
                    assert(ids0[z] < id);
                }
            }
        }
        x += 1;
    }
    proof {
        assert forall|id: u64| #[trigger] ids.contains(id) <==> final_state(ws, id) is Some by {
            lemma_has_edit(ws, id, n as int);
            if ids.contains(id) {
                let z = ids.index_of(id);
                assert(final_state(ws, ids[z]) is Some);
            }
            if final_state(ws, id) is Some {
                let k = choose|k: int| 0 <= k < n && (#[trigger] ws[k]).id == id;
                let y = rank.place@[k] as int;
                assert(rank.order@[y] == k);
                assert(keys@[k] == tagged@[k].id);
                assert(ids.contains(keys@[rank.order@[y] as int]));
            }
        }
        assert(weighed(wid@, whash@, ws, ids, *t));
    }
}

proof fn lemma_judged_same(
    wid: Seq<u64>,
    whash: Seq<u64>,
    ws: Seq<WayModel>,
    a: Seq<u64>,
    b: Seq<u64>,
    n: int,
)
    requires
        n <= a.len(),
        a.len() <= b.len(),
        forall|i: int| 0 <= i < n ==> a[i] == b[i],
    ensures
        judged(wid, whash, ws, a, n) == judged(wid, whash, ws, b, n),
    decreases n,
{
    if n > 0 {
        lemma_judged_same(wid, whash, ws, a, b, n - 1);
    }
}

/// What change files touched, judged over the way index where there is one.
pub fn settle(sc: Scanner, index: Option<(&[u64], &[u64])>) -> (t: Touched)
    requires
        index matches Some((wid, whash)) ==> ascending64(wid@) && wid@.len() == whash@.len(),
    ensures
        ascending64(t.ways@),
        forall|x: u64| #[trigger] t.ways@.contains(x) <==> sc.ways@.contains(x),
        t.nodes == sc.nodes,
        t.way_counts == sc.way_counts,
        t.node_counts == sc.node_counts,
        t.unplaced == sc.unplaced,
        t.cost_known == (index is Some),
        match index {
            None => sorted_out(
                t,
                Sorted { changed: Seq::empty(), same: 0, unroutable: 0, unknown: 0 },
            ),
            Some((wid, whash)) => settled(wid@, whash@, way_models(sc.tagged@), t),
        },
{
    let ways: Vec<u64> = rising(&sc.ways);
    let mut t = Touched {
        ways,
        cost_changed: Vec::new(),
        cost_known: index.is_some(),
        unknown: 0,
        cost_same: 0,
        cost_unroutable: 0,
        nodes: sc.nodes,
        way_counts: sc.way_counts,
        node_counts: sc.node_counts,
        unplaced: sc.unplaced,
    };
    if let Some((wid, whash)) = index {
        weigh(&mut t, &sc.tagged, wid, whash);
    }
    t
}

proof fn lemma_judged_rising(
    wid: Seq<u64>,
    whash: Seq<u64>,
    ws: Seq<WayModel>,
    ids: Seq<u64>,
    n: int,
)
    requires
        ascending64(ids),
        0 <= n <= ids.len(),
    ensures
        ({
            let s = judged(wid, whash, ws, ids, n);
            &&& ascending64(s.changed)
            &&& forall|i: int| 0 <= i < s.changed.len() ==> ids.take(n).contains(#[trigger] s.changed[i])
            &&& s.changed.len() + s.same + s.unknown == n
            &&& 0 <= s.unroutable <= s.changed.len()
        }),
    decreases n,
{
    if n > 0 {
        lemma_judged_rising(wid, whash, ws, ids, n - 1);
        let s = judged(wid, whash, ws, ids, n - 1);
        let s2 = judged(wid, whash, ws, ids, n);
        assert forall|i: int| 0 <= i < s2.changed.len() implies ids.take(n).contains(
            #[trigger] s2.changed[i],
        ) by {
            if i < s.changed.len() {
                assert(ids.take(n - 1).contains(s.changed[i]));
                let z = ids.take(n - 1).index_of(s.changed[i]);
                assert(ids.take(n)[z] == s.changed[i]);
            } else {
                assert(ids.take(n)[n - 1] == ids[n - 1]);
            }
        }
        assert forall|a: int, b: int| 0 <= a < b < s2.changed.len() implies s2.changed[a]
            < s2.changed[b] by {
            if b == s.changed.len() {
                assert(ids.take(n - 1).contains(s.changed[a]));
                let z = ids.take(n - 1).index_of(s.changed[a]);
                assert(ids[z] < ids[n - 1]);
            }
        }
    }
}

/// Each way that was read counts once: as one whose cost changed, as one whose
/// cost stayed, or as one that the dataset does not have. The changed ones rise.
pub proof fn lemma_each_way_once(
    wid: Seq<u64>,
    whash: Seq<u64>,
    ws: Seq<WayModel>,
    ids: Seq<u64>,
    t: Touched,
)
    requires
        weighed(wid, whash, ws, ids, t),
    ensures
        t.cost_changed@.len() + t.cost_same + t.unknown == ids.len(),
        t.cost_unroutable <= t.cost_changed@.len(),
        ascending64(t.cost_changed@),
        forall|i: int|
            0 <= i < t.cost_changed@.len() ==> final_state(ws, #[trigger] t.cost_changed@[i]) is Some,
{
    lemma_judged_rising(wid, whash, ws, ids, ids.len() as int);
    assert(ids.take(ids.len() as int) =~= ids);
    assert forall|i: int| 0 <= i < t.cost_changed@.len() implies final_state(
        ws,
        #[trigger] t.cost_changed@[i],
    ) is Some by {
        assert(ids.take(ids.len() as int).contains(t.cost_changed@[i]));
        assert(ids.contains(t.cost_changed@[i]));
    }
}

// ------------------------------------------------------------------ segments

/// A segment is one of those of the way at place `i`.
pub open spec fn owns(whead: Seq<u32>, wseg: Seq<u32>, i: int, s: u32) -> bool {
    exists|k: int| whead[i] <= k < whead[i + 1] && #[trigger] wseg[k] == s
}

/// The index has one run of segments for each way.
pub open spec fn index_ok(wid: Seq<u64>, whead: Seq<u32>, wseg: Seq<u32>) -> bool {
    &&& ascending64(wid)
    &&& whead.len() == wid.len() + 1
    &&& head_ok(whead, wseg.len() as int)
}

/// Appends the segments of the way at place `i`.
pub fn add_run(out: &mut Vec<u32>, whead: &[u32], wseg: &[u32], i: usize)
    requires
        head_ok(whead@, wseg@.len() as int),
        i + 1 < whead@.len(),
    ensures
        final(out)@ == old(out)@ + wseg@.subrange(
            whead@[i as int] as int,
            whead@[i + 1] as int,
        ),
{
    let ghost o = out@;
    assert(whead@[i as int] <= whead@[i + 1]);
    assert(whead@[i + 1] <= whead@[whead@.len() - 1]);
    let (a, b): (usize, usize) = (whead[i] as usize, whead[i + 1] as usize);
    let mut k: usize = a;
    assert(wseg@.subrange(a as int, a as int) =~= Seq::<u32>::empty());
    assert(o + Seq::<u32>::empty() =~= o);
    while k < b
        invariant
            a <= k <= b,
            b <= wseg@.len(),
            out@ == o + wseg@.subrange(a as int, k as int),
        decreases b - k,
    {
        out.push(wseg[k]);
        assert(out@ =~= o + wseg@.subrange(a as int, k + 1));
        k += 1;
    }
}

/// The segments that ways have in the index, rising.
#[verifier::rlimit(40)]
pub fn segments_of(ways: &[u64], wid: &[u64], whead: &[u32], wseg: &[u32]) -> (r: Vec<u32>)
    requires
        sorted64(ways@),
        index_ok(wid@, whead@, wseg@),
    ensures
        ascending(r@),
        forall|s: u32|
            #[trigger] r@.contains(s) <==> exists|i: int|
                0 <= i < wid@.len() && ways@.contains(#[trigger] wid@[i]) && owns(
                    whead@,
                    wseg@,
                    i,
                    s,
                ),
{
    let mut out: Vec<u32> = Vec::new();
    let mut i: usize = 0;
    let mut n: usize = 0;
    while n < ways.len()
        invariant
            sorted64(ways@),
            index_ok(wid@, whead@, wseg@),
            n <= ways@.len(),
            i <= wid@.len(),
            forall|j: int, m: int|
                0 <= j < i && n <= m < ways@.len() ==> (#[trigger] wid@[j]) < (#[trigger] ways@[m])
                    || ways@.take(n as int).contains(wid@[j]),
            forall|j: int| i <= j < wid@.len() ==> !ways@.take(n as int).contains(#[trigger] wid@[j]),
            forall|s: u32|
                #[trigger] out@.contains(s) <==> exists|j: int|
                    0 <= j < i && ways@.take(n as int).contains(#[trigger] wid@[j]) && owns(
                        whead@,
                        wseg@,
                        j,
                        s,
                    ),
        decreases ways@.len() - n,
    {
        let w: u64 = ways[n];
        let ghost i0 = i;
        while i < wid.len() && wid[i] < w
            invariant
                sorted64(ways@),
                index_ok(wid@, whead@, wseg@),
                n < ways@.len(),
                w == ways@[n as int],
                i0 <= i <= wid@.len(),
                forall|j: int| i0 <= j < i ==> (#[trigger] wid@[j]) < w,
            decreases wid@.len() - i,
        {
            i += 1;
        }
        let found: bool = i < wid.len() && wid[i] == w;
        let ghost o = out@;
        let ghost (t0, t1) = (ways@.take(n as int), ways@.take(n + 1));
        if found {
            add_run(&mut out, whead, wseg, i);
        }
        let ghost i1 = if found {
            i + 1
        } else {
            i as int
        };
        proof {
            assert(t1 =~= t0.push(w));
            assert forall|x: u64| #[trigger] t1.contains(x) <==> t0.contains(x) || x == w by {
                if t0.contains(x) {
                    let z = t0.index_of(x);
                    assert(t1[z] == x);
                }
                assert(t1[n as int] == w);
            }
            assert forall|j: int| i1 <= j < wid@.len() implies !t1.contains(#[trigger] wid@[j]) by {
                if found {
                    assert(wid@[i as int] < wid@[j]);
                } else if j > i {
                    assert(wid@[i as int] < wid@[j]);
                }
            }
            assert forall|j: int, m: int|
                0 <= j < i1 && n + 1 <= m < ways@.len() implies (#[trigger] wid@[j]) < (
            #[trigger] ways@[m]) || t1.contains(wid@[j]) by {
                assert(ways@[n as int] <= ways@[m]);
                if j < i0 {
                    assert(wid@[j] < ways@[n as int] || t0.contains(wid@[j]));
                }
            }
            assert forall|s: u32|
                #[trigger] out@.contains(s) <==> exists|j: int|
                    0 <= j < i1 && t1.contains(#[trigger] wid@[j]) && owns(
                        whead@,
                        wseg@,
                        j,
                        s,
                    ) by {
                if out@.contains(s) {
                    if o.contains(s) {
                        let j = choose|j: int|
                            0 <= j < i0 && t0.contains(#[trigger] wid@[j]) && owns(
                                whead@,
                                wseg@,
                                j,
                                s,
                            );
                        assert(t1.contains(wid@[j]));
                    } else {
                        let z = out@.index_of(s);
                        let k = whead@[i as int] + (z - o.len());
                        assert(wseg@[k] == s);
                        assert(owns(whead@, wseg@, i as int, s));
                        assert(t1.contains(wid@[i as int]));
                    }
                }
                if exists|j: int|
                    0 <= j < i1 && t1.contains(#[trigger] wid@[j]) && owns(whead@, wseg@, j, s) {
                    let j = choose|j: int|
                        0 <= j < i1 && t1.contains(#[trigger] wid@[j]) && owns(
                            whead@,
                            wseg@,
                            j,
                            s,
                        );
                    if found && j == i {
                        let k = choose|k: int|
                            whead@[j] <= k < whead@[j + 1] && #[trigger] wseg@[k] == s;
                        assert(out@[o.len() + (k - whead@[j])] == s);
                    } else {
                        if j >= i0 {
                            assert(wid@[j] < w);
                            assert(!t0.contains(wid@[j]));
                        } else if !t0.contains(wid@[j]) {
                            assert(wid@[j] == w);
                            assert(wid@[j] < ways@[n as int] || t0.contains(wid@[j]));
                        }
                        assert(o.contains(s));
                        let z = o.index_of(s);
                        assert(out@[z] == s);
                    }
                }
            }
        }
        if found {
            i += 1;
        }
        n += 1;
    }
    let ghost last = out@;
    let r: Vec<u32> = number_set(out);
    proof {
        assert(ways@.take(n as int) =~= ways@);
        assert forall|s: u32|
            #[trigger] r@.contains(s) <==> exists|i: int|
                0 <= i < wid@.len() && ways@.contains(#[trigger] wid@[i]) && owns(
                    whead@,
                    wseg@,
                    i,
                    s,
                ) by {
            assert(r@.contains(s) <==> last.contains(s));
        }
    }
    r
}

} // verus!
