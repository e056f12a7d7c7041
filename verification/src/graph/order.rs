//! Vertices: where they are, and their numbers along the Hilbert curve.

use vstd::prelude::*;
use crate::bitmap::{ones, BitMap};
use crate::geo::{hilbert, hilbert_latlon, scaled};
use crate::sorting::{lemma_same_items, sort_wide, wide_le};

verus! {

/// Every junction is one of the nodes that are kept, and has a coordinate.
pub open spec fn junctions_ok(need: BitMap, junc: BitMap, coords: Seq<(i32, i32)>) -> bool {
    &&& need.wf()
    &&& need.ranked()
    &&& junc.wf()
    &&& need.room() <= u64::MAX
    &&& junc.room() <= u64::MAX
    &&& forall|id: int|
        0 <= id < junc.room() && #[trigger] junc.has(id) ==> id <= need.room() && ones(
            need.words@,
            id,
        ) < coords.len()
}

/// The coordinate of every junction, in the order of their ids.
pub fn gather(need: &BitMap, junc: &BitMap, coords: &[(i32, i32)]) -> (vc: Vec<(i32, i32)>)
    requires
        junctions_ok(*need, *junc, coords@),
    ensures
        vc@.len() == ones(junc.words@, junc.room()),
        forall|id: int|
            0 <= id < junc.room() && #[trigger] junc.has(id) ==> vc@[ones(junc.words@, id)]
                == coords@[ones(need.words@, id)],
{
    let ids: Vec<(u64, u64)> = junc.for_each_set();
    let mut vc: Vec<(i32, i32)> = Vec::new();
    while vc.len() < ids.len()
        invariant
            junctions_ok(*need, *junc, coords@),
            vc@.len() <= ids@.len(),
            forall|k: int|
                0 <= k < ids@.len() ==> (#[trigger] ids@[k]).0 < junc.room() && junc.has(
                    ids@[k].0 as int,
                ),
            forall|k: int|
                0 <= k < vc@.len() ==> #[trigger] vc@[k] == coords@[ones(
                    need.words@,
                    ids@[k].0 as int,
                )],
        decreases ids@.len() - vc@.len(),
    {
        let id: u64 = ids[vc.len()].0;
        assert(junc.has(id as int));
        let r: u64 = need.rank1(id);
        let n: usize = coords.len();
        assert(r < n);
        vc.push(coords[r as usize]);
    }
    proof {
        assert forall|id: int| 0 <= id < junc.room() && #[trigger] junc.has(id) implies vc@[ones(
            junc.words@,
            id,
        )] == coords@[ones(need.words@, id)] by {
            let k = ones(junc.words@, id);
            crate::bitmap::lemma_ones(junc.words@, 0, id);
            assert(ids@[k].0 == id);
            assert(vc@[k] == coords@[ones(need.words@, ids@[k].0 as int)]);
        }
    }
    vc
}

/// Where a vertex is on the curve; the lower number first where two are at one
/// place.
pub open spec fn place(vc: Seq<(i32, i32)>, i: int) -> (int, int) {
    (
        hilbert(
            16,
            scaled(vc[i].1 as int, 180),
            scaled(vc[i].0 as int, 90),
        ),
        i,
    )
}

pub open spec fn before(a: (int, int), b: (int, int)) -> bool {
    a.0 < b.0 || (a.0 == b.0 && a.1 < b.1)
}

/// New numbers that follow the curve, and the coordinates under them.
pub open spec fn along_curve(
    vc: Seq<(i32, i32)>,
    perm: Seq<u32>,
    coords: Seq<(i32, i32)>,
) -> bool {
    &&& perm.len() == vc.len()
    &&& coords.len() == vc.len()
    &&& forall|i: int|
        0 <= i < perm.len() ==> (#[trigger] perm[i]) < vc.len() && coords[perm[i] as int] == vc[i]
    &&& forall|i: int, j: int|
        0 <= i < perm.len() && 0 <= j < perm.len() ==> (#[trigger] perm[i] < #[trigger] perm[j]
            <==> before(place(vc, i), place(vc, j)))
}

spec fn listed(s: Seq<(u64, u32)>, i: int) -> bool {
    exists|y: int| 0 <= y < s.len() && (#[trigger] s[y]).1 == i
}

#[verifier::rlimit(30)]
pub fn renumber(vc: &Vec<(i32, i32)>) -> (r: (Vec<u32>, Vec<(i32, i32)>))
    requires
        vc@.len() <= u32::MAX,
    ensures
        along_curve(vc@, r.0@, r.1@),
{
    let n: usize = vc.len();
    let mut order: Vec<(u64, u32)> = Vec::new();
    while order.len() < n
        invariant
            n == vc@.len(),
            n <= u32::MAX,
            order@.len() <= n,
            forall|i: int|
                0 <= i < order@.len() ==> #[trigger] order@[i] == (place(vc@, i).0 as u64, i as u32)
                    && order@[i].0 == place(vc@, i).0,
        decreases n - order@.len(),
    {
        let i: usize = order.len();
        let c: (i32, i32) = vc[i];
        let k: u64 = hilbert_latlon(c.0, c.1);
        order.push((k, i as u32));
    }
    let ghost list = order@;
    sort_wide(&mut order);
    let ghost s = order@;
    proof {
        lemma_same_items(s, list);
        assert forall|x: int| 0 <= x < s.len() implies (#[trigger] s[x]).1 < n && s[x].0 == place(
            vc@,
            s[x].1 as int,
        ).0 by {
            assert(s.contains(s[x]));
            assert(list.contains(s[x]));
            let i = list.index_of(s[x]);
            assert(list[i] == s[x]);
        }
        assert(s.no_duplicates()) by {
            assert(list.no_duplicates());
            list.lemma_multiset_has_no_duplicates();
            s.lemma_multiset_has_no_duplicates_conv();
        }
        assert forall|x: int, y: int| 0 <= x < s.len() && 0 <= y < s.len() && x != y implies (
        #[trigger] s[x]).1 != (#[trigger] s[y]).1 by {
            if s[x].1 == s[y].1 {
                assert(s[x] == s[y]);
            }
        }
    }
    let mut perm: Vec<u32> = vec![0u32; n];
    let mut coords: Vec<(i32, i32)> = Vec::new();
    let mut x: usize = 0;
    while x < n
        invariant
            n == vc@.len(),
            n <= u32::MAX,
            s == order@,
            s.len() == n,
            x <= n,
            perm@.len() == n,
            coords@.len() == x,
            forall|y: int| 0 <= y < s.len() ==> (#[trigger] s[y]).1 < n,
            forall|y: int, z: int|
                0 <= y < s.len() && 0 <= z < s.len() && y != z ==> (#[trigger] s[y]).1 != (
                #[trigger] s[z]).1,
            forall|y: int|
                0 <= y < x ==> perm@[(#[trigger] s[y]).1 as int] == y && coords@[y]
                    == vc@[s[y].1 as int],
        decreases n - x,
    {
        let old: u32 = order[x].1;
        perm.set(old as usize, x as u32);
        coords.push(vc[old as usize]);
        x += 1;
    }
    proof {
        assert forall|i: int| 0 <= i < n implies #[trigger] listed(s, i) by {
            assert(list.contains(list[i]));
            assert(s.contains(list[i]));
            let y = s.index_of(list[i]);
            assert(s[y].1 == i);
        }
        assert forall|i: int| 0 <= i < n implies (#[trigger] perm@[i]) < n && coords@[perm@[i] as int]
            == vc@[i] by {
            assert(listed(s, i));
            let y = choose|y: int| 0 <= y < s.len() && (#[trigger] s[y]).1 == i;
            assert(perm@[s[y].1 as int] == y);
        }
        assert forall|i: int, j: int| 0 <= i < n && 0 <= j < n implies (#[trigger] perm@[i]
            < #[trigger] perm@[j] <==> before(place(vc@, i), place(vc@, j))) by {
            assert(listed(s, i) && listed(s, j));
            let a = choose|y: int| 0 <= y < s.len() && (#[trigger] s[y]).1 == i;
            let b = choose|y: int| 0 <= y < s.len() && (#[trigger] s[y]).1 == j;
            assert(perm@[s[a].1 as int] == a && perm@[s[b].1 as int] == b);
            assert(s[a].0 == place(vc@, i).0 && s[b].0 == place(vc@, j).0);
            if a < b {
                assert(wide_le(s[a], s[b]));
            }
            if b <= a {
                assert(wide_le(s[b], s[a]));
            }
        }
    }
    (perm, coords)
}

/// No two vertices get one number.
pub proof fn lemma_renumbered_apart(
    vc: Seq<(i32, i32)>,
    perm: Seq<u32>,
    coords: Seq<(i32, i32)>,
    i: int,
    j: int,
)
    requires
        along_curve(vc, perm, coords),
        0 <= i < vc.len(),
        0 <= j < vc.len(),
        i != j,
    ensures
        perm[i] != perm[j],
{
    if place(vc, i).0 < place(vc, j).0 || (place(vc, i).0 == place(vc, j).0 && i < j) {
        assert(before(place(vc, i), place(vc, j)));
        assert(perm[i] < perm[j]);
    } else {
        assert(before(place(vc, j), place(vc, i)));
        assert(perm[j] < perm[i]);
    }
}

} // verus!
