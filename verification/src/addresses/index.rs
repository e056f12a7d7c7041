//! The indexes over address points: by place, by street and number, and street
//! names in order.

use vstd::prelude::*;
use crate::addresses::doors::{doors_from, lines_from};
use crate::addresses::entries::{all_entries, gather_addresses, Gathered, Rec, Unread};
use crate::addresses::words::{hn_bytes, hn_value, norm_bytes, norm_name};
use crate::bitmap::{ones, BitMap};
use crate::graph::grid::{cell_of, fine, key_of};
use crate::intern::{piece, Pool};
use crate::ranking::{rank_by, ranked, Ranking};
use crate::sorting::{lemma_same_items, quad_lt, sort_quads, sort_texts, text_le};

verus! {

/// Everything that finds addresses.
pub struct AddressBook {
    /// The points in the order of their grid cells.
    pub coord: Vec<(i32, i32)>,
    pub hn: Vec<u32>,
    pub street: Vec<u32>,
    pub place: Vec<u32>,
    /// The cells that hold any, and where each begins.
    pub cell_key: Vec<u64>,
    pub cell_off: Vec<u32>,
    /// The points by street, place and number.
    pub fwd_idx: Vec<u32>,
    /// Street, place and first position of each group, then an end mark.
    pub fwd_group: Vec<u32>,
    /// The number at the front of each house number.
    pub hn_num: Vec<u32>,
    /// Streets in the order of their normalised names, and those names.
    pub street_sorted: Vec<u32>,
    pub street_norm: Vec<u8>,
    pub street_normoff: Vec<u64>,
}

/// The cell of a point.
pub open spec fn cell_key(r: Rec) -> u64 {
    key_of(fine(r.lat as int, 900_000_000), fine(r.lon as int, 1_800_000_000))
}

pub open spec fn cell_keys(recs: Seq<Rec>) -> Seq<u64> {
    Seq::new(recs.len(), |i: int| cell_key(recs[i]))
}

/// The points stand in the order of their cells.
pub open spec fn by_cell(recs: Seq<Rec>, rank: Ranking, b: AddressBook) -> bool {
    let n = recs.len();
    &&& ranked(cell_keys(recs), rank)
    &&& b.coord@.len() == n
    &&& b.hn@.len() == n
    &&& b.street@.len() == n
    &&& b.place@.len() == n
    &&& forall|x: int|
        0 <= x < n ==> {
            let r = recs[rank.order@[x] as int];
            &&& #[trigger] b.coord@[x] == (r.lat, r.lon)
            &&& b.hn@[x] == r.hn
            &&& b.street@[x] == r.street
            &&& b.place@[x] == r.place
        }
}

/// Runs of equal keys: each key once, in rising order, with where its run
/// begins.
pub open spec fn runs(keys: Seq<u64>, key: Seq<u64>, off: Seq<u32>) -> bool {
    &&& off.len() == key.len() + 1
    &&& off[0] == 0
    &&& off[key.len() as int] == keys.len()
    &&& forall|i: int, j: int| 0 <= i < j < key.len() ==> key[i] < key[j]
    &&& forall|i: int, j: int| 0 <= i < j < off.len() ==> off[i] < off[j]
    &&& forall|i: int, x: int|
        0 <= i < key.len() && off[i] <= x < off[i + 1] ==> x < keys.len() && #[trigger] keys[x]
            == #[trigger] key[i]
}

/// What a point is found by: street, place, number, and where it stands.
pub open spec fn quad(b: AddressBook, x: int) -> (u32, u32, u32, u32) {
    (b.street@[x], b.place@[x], b.hn_num@[b.hn@[x] as int], x as u32)
}

/// Every point once, by street, place and number.
pub open spec fn by_street(b: AddressBook) -> bool {
    &&& b.fwd_idx@.len() == b.coord@.len()
    &&& b.fwd_idx@.no_duplicates()
    &&& forall|x: int|
        0 <= x < b.fwd_idx@.len() ==> (#[trigger] b.fwd_idx@[x]) < b.coord@.len()
    &&& forall|x: int, y: int|
        0 <= x < y < b.fwd_idx@.len() ==> quad_lt(
            quad(b, (#[trigger] b.fwd_idx@[x]) as int),
            quad(b, (#[trigger] b.fwd_idx@[y]) as int),
        )
}

/// The groups of the first `n` points: a new one wherever street or place
/// change.
pub open spec fn groups_of(pairs: Seq<(u32, u32)>, n: int) -> Seq<u32>
    decreases n,
{
    if n <= 0 {
        Seq::empty()
    } else {
        let rest = groups_of(pairs, n - 1);
        if n == 1 || pairs[n - 1] != pairs[n - 2] {
            rest + seq![pairs[n - 1].0, pairs[n - 1].1, (n - 1) as u32]
        } else {
            rest
        }
    }
}

pub open spec fn street_place(b: AddressBook) -> Seq<(u32, u32)> {
    Seq::new(
        b.fwd_idx@.len(),
        |x: int| (b.street@[b.fwd_idx@[x] as int], b.place@[b.fwd_idx@[x] as int]),
    )
}

/// Streets in the order of their normalised names.
pub open spec fn by_name(streets: Pool, b: AddressBook) -> bool {
    let n = streets.size();
    &&& b.street_sorted@.len() == n
    &&& b.street_sorted@.no_duplicates()
    &&& forall|k: int| 0 <= k < n ==> (#[trigger] b.street_sorted@[k]) < n
    &&& b.street_normoff@.len() == n + 1
    &&& b.street_normoff@[0] == 0
    &&& b.street_normoff@[n] == b.street_norm@.len()
    &&& forall|i: int, j: int|
        0 <= i <= j <= n ==> b.street_normoff@[i] <= b.street_normoff@[j]
    &&& forall|k: int|
        0 <= k < n ==> #[trigger] piece(b.street_norm@, b.street_normoff@, k) == norm_bytes(
            streets.text(b.street_sorted@[k] as int),
        )
    &&& forall|i: int, j: int|
        0 <= i <= j < n ==> {
            let (a, c) = (
                norm_bytes(streets.text((#[trigger] b.street_sorted@[i]) as int)),
                norm_bytes(streets.text((#[trigger] b.street_sorted@[j]) as int)),
            );
            text_le(a, c) && (a == c ==> b.street_sorted@[i] <= b.street_sorted@[j])
        }
}

/// The book of what was gathered.
pub open spec fn book_of(g: Gathered, b: AddressBook) -> bool {
    &&& exists|rank: Ranking| #[trigger] by_cell(g.recs@, rank, b) && runs(
        Seq::new(g.recs@.len(), |x: int| cell_keys(g.recs@)[rank.order@[x] as int]),
        b.cell_key@,
        b.cell_off@,
    )
    &&& b.hn_num@.len() == g.hns.size()
    &&& forall|i: int|
        0 <= i < g.hns.size() ==> #[trigger] b.hn_num@[i] == hn_bytes(g.hns.text(i))
    &&& by_street(b)
    &&& b.fwd_group@ == groups_of(street_place(b), b.fwd_idx@.len() as int) + seq![
        u32::MAX,
        u32::MAX,
        b.fwd_idx@.len() as u32,
    ]
    &&& by_name(g.streets, b)
}

fn number_all(hns: &Pool) -> (r: Vec<u32>)
    requires
        hns.wf(),
    ensures
        r@.len() == hns.size(),
        forall|i: int| 0 <= i < hns.size() ==> #[trigger] r@[i] == hn_bytes(hns.text(i)),
{
    let n: usize = hns.len();
    let mut r: Vec<u32> = Vec::new();
    while r.len() < n
        invariant
            hns.wf(),
            n == hns.size(),
            r@.len() <= n,
            forall|i: int| 0 <= i < r@.len() ==> #[trigger] r@[i] == hn_bytes(hns.text(i)),
        decreases n - r@.len(),
    {
        let i: usize = r.len();
        r.push(hn_value(hns.get(i as u32)));
    }
    r
}

fn cells_of(recs: &Vec<Rec>) -> (r: Vec<u64>)
    ensures
        r@ == cell_keys(recs@),
{
    let mut r: Vec<u64> = Vec::new();
    while r.len() < recs.len()
        invariant
            r@.len() <= recs@.len(),
            forall|i: int| 0 <= i < r@.len() ==> #[trigger] r@[i] == cell_keys(recs@)[i],
        decreases recs@.len() - r@.len(),
    {
        let x: Rec = recs[r.len()];
        r.push(cell_of(x.lat, x.lon));
    }
    assert(r@ =~= cell_keys(recs@));
    r
}

/// Finds the runs of keys that never fall.
#[verifier::rlimit(30)]
fn find_runs(keys: &Vec<u64>) -> (r: (Vec<u64>, Vec<u32>))
    requires
        keys@.len() <= u32::MAX,
        forall|x: int, y: int| 0 <= x <= y < keys@.len() ==> keys@[x] <= keys@[y],
    ensures
        runs(keys@, r.0@, r.1@),
{
    let mut key: Vec<u64> = Vec::new();
    let mut off: Vec<u32> = Vec::new();
    let mut x: usize = 0;
    while x < keys.len()
        invariant
            keys@.len() <= u32::MAX,
            forall|x: int, y: int| 0 <= x <= y < keys@.len() ==> keys@[x] <= keys@[y],
            x <= keys@.len(),
            off@.len() == key@.len(),
            x == 0 ==> key@.len() == 0,
            x > 0 ==> key@.len() > 0 && key@.last() == keys@[x - 1],
            runs(keys@.take(x as int), key@, off@.push(x as u32)),
        decreases keys@.len() - x,
    {
        let k: u64 = keys[x];
        let n: usize = key.len();
        let ghost (k0, o0) = (key@, off@);
        let ghost (a, b) = (keys@.take(x as int), keys@.take(x + 1));
        let ghost old_off = o0.push(x as u32);
        if n == 0 || key[n - 1] != k {
            key.push(k);
            off.push(x as u32);
        }
        proof {
            let off1 = off@.push((x + 1) as u32);
            if x > 0 {
                assert(keys@[x - 1] <= keys@[x as int]);
            }
            assert forall|i: int, j: int| 0 <= i < j < key@.len() implies key@[i] < key@[j] by {
                if j == k0.len() {
                    if i < k0.len() - 1 {
                        assert(k0[i] < k0[k0.len() - 1]);
                    }
                }
            }
            assert forall|i: int, j: int| 0 <= i < j < off1.len() implies off1[i] < off1[j] by {
                assert(i < o0.len() ==> off1[i] == old_off[i]);
                assert(j < o0.len() ==> off1[j] == old_off[j]);
                if i < o0.len() {
                    assert(old_off[i] < old_off[o0.len() as int]);
                    if j < o0.len() {
                        assert(old_off[i] < old_off[j]);
                    }
                }
            }
            assert forall|i: int, y: int|
                0 <= i < key@.len() && off1[i] <= y < off1[i + 1] implies y < b.len()
                && #[trigger] b[y] == #[trigger] key@[i] by {
                if i < k0.len() && y < x {
                    assert(old_off[i] <= y < old_off[i + 1]) by {
                        if i == k0.len() - 1 {
                            assert(old_off[i + 1] == x);
                        }
                    }
                    assert(a[y] == k0[i]);
                    assert(a[y] == b[y]);
                } else if i < k0.len() {
                    if i + 1 < o0.len() {
                        assert(old_off[i + 1] < old_off[o0.len() as int]);
                        assert(off1[i + 1] == old_off[i + 1]);
                    }
                    assert(y == x);
                    assert(i == k0.len() - 1);
                }
            }
            assert(off1[0] == 0) by {
                if o0.len() > 0 {
                    assert(old_off[0] == 0);
                }
            }
            assert(off1[key@.len() as int] == b.len());
            assert(runs(b, key@, off1));
        }
        x += 1;
    }
    assert(keys@.take(x as int) =~= keys@);
    off.push(x as u32);
    (key, off)
}

/// Points by street, place and number.
#[verifier::rlimit(40)]
fn forward_order(b: &mut AddressBook)
    requires
        old(b).coord@.len() < u32::MAX,
        old(b).hn@.len() == old(b).coord@.len(),
        old(b).street@.len() == old(b).coord@.len(),
        old(b).place@.len() == old(b).coord@.len(),
        forall|x: int|
            0 <= x < old(b).hn@.len() ==> (#[trigger] old(b).hn@[x]) < old(b).hn_num@.len(),
    ensures
        *final(b) == (AddressBook {
            fwd_idx: final(b).fwd_idx,
            fwd_group: final(b).fwd_group,
            ..*old(b)
        }),
        by_street(*final(b)),
        final(b).fwd_group@ == groups_of(
            street_place(*final(b)),
            final(b).fwd_idx@.len() as int,
        ) + seq![u32::MAX, u32::MAX, final(b).fwd_idx@.len() as u32],
{
    let n: usize = b.coord.len();
    let ghost o = *b;
    let mut quads: Vec<(u32, u32, u32, u32)> = Vec::new();
    while quads.len() < n
        invariant
            *b == o,
            n == b.coord@.len(),
            n < u32::MAX,
            b.hn@.len() == n,
            b.street@.len() == n,
            b.place@.len() == n,
            forall|x: int| 0 <= x < b.hn@.len() ==> (#[trigger] b.hn@[x]) < b.hn_num@.len(),
            quads@.len() <= n,
            forall|x: int| 0 <= x < quads@.len() ==> #[trigger] quads@[x] == quad(o, x),
        decreases n - quads@.len(),
    {
        let x: usize = quads.len();
        assert(b.hn@[x as int] < b.hn_num@.len());
        quads.push((b.street[x], b.place[x], b.hn_num[b.hn[x] as usize], x as u32));
    }
    let ghost list = quads@;
    sort_quads(&mut quads);
    let ghost s = quads@;
    proof {
        lemma_same_items(s, list);
        assert forall|x: int| 0 <= x < s.len() implies (#[trigger] s[x]).3 < n && s[x] == quad(
            o,
            s[x].3 as int,
        ) by {
            assert(s.contains(s[x]));
            let i = list.index_of(s[x]);
            assert(list[i] == s[x]);
        }
        assert(list.no_duplicates());
        list.lemma_multiset_has_no_duplicates();
        s.lemma_multiset_has_no_duplicates_conv();
    }
    let mut idx: Vec<u32> = Vec::new();
    let mut group: Vec<u32> = Vec::new();
    let ghost sp = Seq::new(s.len(), |x: int| (s[x].0, s[x].1));
    while idx.len() < n
        invariant
            n == s.len(),
            n < u32::MAX,
            s == quads@,
            sp == Seq::new(s.len(), |x: int| (s[x].0, s[x].1)),
            idx@.len() <= n,
            forall|x: int| 0 <= x < idx@.len() ==> #[trigger] idx@[x] == s[x].3,
            group@ == groups_of(sp, idx@.len() as int),
        decreases n - idx@.len(),
    {
        let x: usize = idx.len();
        let q: (u32, u32, u32, u32) = quads[x];
        let ghost g0 = group@;
        let fresh: bool = x == 0 || quads[x - 1].0 != q.0 || quads[x - 1].1 != q.1;
        if fresh {
            group.push(q.0);
            group.push(q.1);
            group.push(x as u32);
            assert(group@ =~= g0 + seq![q.0, q.1, x as u32]);
        }
        idx.push(q.3);
    }
    let ghost g0 = group@;
    group.push(u32::MAX);
    group.push(u32::MAX);
    group.push(n as u32);
    assert(group@ =~= g0 + seq![u32::MAX, u32::MAX, n as u32]);
    b.fwd_idx = idx;
    b.fwd_group = group;
    proof {
        let z = *b;
        assert(idx@.no_duplicates()) by {
            assert forall|x: int, y: int|
                0 <= x < idx@.len() && 0 <= y < idx@.len() && x != y implies idx@[x] != idx@[y] by {
                if idx@[x] == idx@[y] {
                    assert(s[x] == s[y]);
                }
            }
        }
        assert forall|x: int, y: int| 0 <= x < y < n implies quad_lt(
            quad(z, (#[trigger] z.fwd_idx@[x]) as int),
            quad(z, (#[trigger] z.fwd_idx@[y]) as int),
        ) by {
            assert(quad_lt(s[x], s[y]) || s[x] == s[y]);
            assert(idx@[x] != idx@[y]);
        }
        assert(street_place(z) =~= sp);
    }
}

/// Streets in the order of their normalised names.
#[verifier::rlimit(40)]
fn name_order(streets: &Pool) -> (r: (Vec<u32>, Vec<u8>, Vec<u64>))
    requires
        streets.wf(),
    ensures
        forall|b: AddressBook|
            b.street_sorted@ == r.0@ && b.street_norm@ == r.1@ && b.street_normoff@ == r.2@
                ==> #[trigger] by_name(*streets, b),
{
    let n: usize = streets.len();
    let mut texts: Vec<(Vec<u8>, u32)> = Vec::new();
    while texts.len() < n
        invariant
            streets.wf(),
            n == streets.size(),
            texts@.len() <= n,
            forall|i: int|
                0 <= i < texts@.len() ==> (#[trigger] texts@[i]).1 == i && texts@[i].0@
                    == norm_bytes(streets.text(i)),
        decreases n - texts@.len(),
    {
        let i: usize = texts.len();
        let t: Vec<u8> = norm_name(streets.get(i as u32));
        texts.push((t, i as u32));
    }
    let ghost list = texts@;
    sort_texts(&mut texts);
    let ghost s = texts@;
    proof {
        lemma_same_items(s, list);
        assert forall|x: int| 0 <= x < s.len() implies (#[trigger] s[x]).1 < n && s[x].0@
            == norm_bytes(streets.text(s[x].1 as int)) by {
            assert(s.contains(s[x]));
            let i = list.index_of(s[x]);
            assert(list[i] == s[x]);
        }
        assert(list.no_duplicates());
        list.lemma_multiset_has_no_duplicates();
        s.lemma_multiset_has_no_duplicates_conv();
        assert forall|x: int, y: int| 0 <= x < s.len() && 0 <= y < s.len() && x != y implies (
        #[trigger] s[x]).1 != (#[trigger] s[y]).1 by {
            assert(s.contains(s[x]) && s.contains(s[y]));
            let (i, j) = (list.index_of(s[x]), list.index_of(s[y]));
            assert(list[i] == s[x] && list[j] == s[y]);
            if s[x].1 == s[y].1 {
                assert(i == j);
            }
        }
    }
    let mut sorted: Vec<u32> = Vec::new();
    let mut norm: Vec<u8> = Vec::new();
    let mut off: Vec<u64> = Vec::new();
    off.push(0);
    while sorted.len() < n
        invariant
            n == s.len(),
            s == texts@,
            sorted@.len() <= n,
            off@.len() == sorted@.len() + 1,
            off@[0] == 0,
            off@[sorted@.len() as int] == norm@.len(),
            forall|i: int, j: int| 0 <= i <= j < off@.len() ==> off@[i] <= off@[j],
            forall|x: int| 0 <= x < sorted@.len() ==> #[trigger] sorted@[x] == s[x].1,
            forall|x: int|
                0 <= x < sorted@.len() ==> #[trigger] piece(norm@, off@, x) == s[x].0@,
        decreases n - sorted@.len(),
    {
        let x: usize = sorted.len();
        let ghost (n0, o0) = (norm@, off@);
        let mut k: usize = 0;
        assert(n0 + s[x as int].0@.take(0) =~= n0);
        while k < texts[x].0.len()
            invariant
                s == texts@,
                x < s.len(),
                k <= s[x as int].0@.len(),
                norm@ == n0 + s[x as int].0@.take(k as int),
            decreases s[x as int].0@.len() - k,
        {
            let c: u8 = texts[x].0[k];
            norm.push(c);
            assert(norm@ =~= n0 + s[x as int].0@.take(k + 1));
            k += 1;
        }
        assert(s[x as int].0@.take(k as int) =~= s[x as int].0@);
        off.push(norm.len() as u64);
        sorted.push(texts[x].1);
        proof {
            assert forall|y: int| 0 <= y < sorted@.len() implies #[trigger] piece(norm@, off@, y)
                == s[y].0@ by {
                if y < x {
                    assert(o0[y] <= o0[y + 1] <= o0[x as int]);
                    assert(piece(n0, o0, y) == s[y].0@);
                    assert(piece(norm@, off@, y) =~= piece(n0, o0, y));
                } else {
                    assert(piece(norm@, off@, y) =~= s[x as int].0@);
                }
            }
        }
    }
    proof {
        assert forall|b: AddressBook|
            b.street_sorted@ == sorted@ && b.street_norm@ == norm@ && b.street_normoff@
                == off@ implies #[trigger] by_name(*streets, b) by {
            assert forall|i: int, j: int| 0 <= i <= j < n implies {
                let (a, c) = (
                    norm_bytes(streets.text((#[trigger] b.street_sorted@[i]) as int)),
                    norm_bytes(streets.text((#[trigger] b.street_sorted@[j]) as int)),
                );
                text_le(a, c) && (a == c ==> b.street_sorted@[i] <= b.street_sorted@[j])
            } by {
                assert(s[i].0@ == norm_bytes(streets.text(s[i].1 as int)));
                assert(s[j].0@ == norm_bytes(streets.text(s[j].1 as int)));
                assert(text_le(s[i].0@, s[j].0@));
            }
            assert(b.street_sorted@.no_duplicates()) by {
                assert forall|x: int, y: int|
                    0 <= x < sorted@.len() && 0 <= y < sorted@.len() && x != y implies sorted@[x]
                    != sorted@[y] by {
                    assert(s[x].1 != s[y].1);
                }
            }
        }
    }
    (sorted, norm, off)
}

/// Builds every index over what was gathered.
#[verifier::rlimit(40)]
pub fn build_book(g: &Gathered) -> (b: AddressBook)
    requires
        g.pools_ok(),
        g.recs@.len() < u32::MAX,
        forall|i: int| 0 <= i < g.recs@.len() ==> (#[trigger] g.recs@[i]).hn < g.hns.size(),
    ensures
        book_of(*g, b),
{
    let n: usize = g.recs.len();
    let keys: Vec<u64> = cells_of(&g.recs);
    let rank: Ranking = rank_by(&keys);
    let mut coord: Vec<(i32, i32)> = Vec::new();
    let mut hn: Vec<u32> = Vec::new();
    let mut street: Vec<u32> = Vec::new();
    let mut place: Vec<u32> = Vec::new();
    let mut inorder: Vec<u64> = Vec::new();
    let ghost recs = g.recs@;
    while coord.len() < n
        invariant
            recs == g.recs@,
            n == recs.len(),
            keys@ == cell_keys(recs),
            ranked(keys@, rank),
            coord@.len() <= n,
            hn@.len() == coord@.len(),
            street@.len() == coord@.len(),
            place@.len() == coord@.len(),
            inorder@.len() == coord@.len(),
            forall|x: int|
                0 <= x < coord@.len() ==> {
                    let r = recs[rank.order@[x] as int];
                    &&& #[trigger] coord@[x] == (r.lat, r.lon)
                    &&& hn@[x] == r.hn
                    &&& street@[x] == r.street
                    &&& place@[x] == r.place
                },
            forall|x: int|
                0 <= x < coord@.len() ==> #[trigger] inorder@[x] == keys@[rank.order@[x] as int],
        decreases n - coord@.len(),
    {
        let x: usize = coord.len();
        let i: usize = rank.order[x] as usize;
        assert(rank.order@[x as int] < keys@.len());
        let r: Rec = g.recs[i];
        coord.push((r.lat, r.lon));
        hn.push(r.hn);
        street.push(r.street);
        place.push(r.place);
        inorder.push(keys[i]);
    }
    proof {
        assert forall|x: int, y: int| 0 <= x <= y < inorder@.len() implies inorder@[x]
            <= inorder@[y] by {
            if x < y {
                assert(crate::ranking::key_lt(
                    keys@,
                    rank.order@[x] as int,
                    rank.order@[y] as int,
                ));
            }
        }
    }
    let (cell_key, cell_off): (Vec<u64>, Vec<u32>) = find_runs(&inorder);
    let hn_num: Vec<u32> = number_all(&g.hns);
    let (street_sorted, street_norm, street_normoff): (Vec<u32>, Vec<u8>, Vec<u64>) = name_order(
        &g.streets,
    );
    let mut b = AddressBook {
        coord,
        hn,
        street,
        place,
        cell_key,
        cell_off,
        fwd_idx: Vec::new(),
        fwd_group: Vec::new(),
        hn_num,
        street_sorted,
        street_norm,
        street_normoff,
    };
    proof {
        assert forall|x: int| 0 <= x < b.hn@.len() implies (#[trigger] b.hn@[x])
            < b.hn_num@.len() by {
            assert(b.coord@[x] == (
                recs[rank.order@[x] as int].lat,
                recs[rank.order@[x] as int].lon,
            ));
            assert(rank.order@[x] < keys@.len());
            assert(recs[rank.order@[x] as int].hn < g.hns.size());
        }
    }
    forward_order(&mut b);
    proof {
        assert(by_cell(recs, rank, b));
        assert(inorder@ =~= Seq::new(
            recs.len(),
            |x: int| cell_keys(recs)[rank.order@[x] as int],
        ));
        assert(by_name(g.streets, b));
    }
    b
}

/// What a build of the address index comes to.
pub struct AddrStats {
    pub points: u64,
    pub streets: u64,
    pub housenumbers: u64,
    pub places: u64,
    pub groups: u64,
}

/// Reads the address records and builds the pools and indexes.
pub fn pass5(nodes: &[u8], ways: &[u8], need: &BitMap, coords: &[(i32, i32)]) -> (r: Result<
    (Gathered, AddressBook, AddrStats),
    Unread,
>)
    requires
        need.wf(),
        need.ranked(),
        need.room() <= u64::MAX,
        ones(need.words@, need.room()) <= coords@.len(),
    ensures
        match (doors_from(nodes@, 0), lines_from(ways@, 0)) {
            (Some(ds), Some(ls)) => {
                let es = all_entries(*need, coords@, ds, ls, ls.len() as int);
                match r {
                    Ok((g, b, st)) => {
                        &&& g.holds(es)
                        &&& book_of(g, b)
                        &&& st.points == es.len()
                        &&& st.streets == g.streets.size()
                        &&& st.housenumbers == g.hns.size()
                        &&& st.places == g.places.list@.len()
                        &&& st.groups == b.fwd_group@.len() / 3 - 1
                    },
                    Err(e) => e == Unread::TooMany && es.len() + 1 >= u32::MAX,
                }
            },
            _ => r matches Err(e) && e == Unread::Broken,
        },
{
    let g: Gathered = match gather_addresses(nodes, ways, need, coords) {
        Err(e) => {
            return Err(e);
        },
        Ok(g) => g,
    };
    proof {
        assert forall|i: int| 0 <= i < g.recs@.len() implies (#[trigger] g.recs@[i]).hn
            < g.hns.size() by {
            if let (Some(ds), Some(ls)) = (doors_from(nodes@, 0), lines_from(ways@, 0)) {
                let es = all_entries(*need, coords@, ds, ls, ls.len() as int);
                assert(g.tells(g.recs@[i], es[i]));
            }
        }
    }
    let b: AddressBook = build_book(&g);
    let st = AddrStats {
        points: g.recs.len() as u64,
        streets: g.streets.len() as u64,
        housenumbers: g.hns.len() as u64,
        places: g.places.list.len() as u64,
        groups: (b.fwd_group.len() / 3 - 1) as u64,
    };
    Ok((g, b, st))
}

} // verus!
