//! Whether arrays fit together: what the searches rely on, tested on arrays
//! that come from elsewhere.

use vstd::prelude::*;
use vstd::utf8::valid_utf8;
use crate::bitmap::{ones, BitMap};
use crate::bits::bit64;
use crate::dataset::{cells_ok, head_ok, seg_id, seg_of, unpack, unpacked, Dataset};
use crate::geocode::index::Geocoder;
use crate::geocode::order::{lemma_text_total, lemma_text_trans, text_at_most};
use crate::graph::adjacency::REVERSED;
use crate::graph::assemble::Parts;
use crate::graph::grid::on_globe;
use crate::graph::order::junctions_ok;
use crate::lookup::{ascending64, keyed, sorted, sorted64};
use crate::nearby::named_ok;
use crate::sorting::text_le;
use crate::text::utf8;

verus! {

/// Whether numbers never fall.
pub fn is_sorted(v: &[u32]) -> (r: bool)
    ensures
        r == sorted(v@),
{
    let mut i: usize = 1;
    while i < v.len()
        invariant
            1 <= i,
            i <= v@.len() || v@.len() == 0,
            forall|a: int, b: int| 0 <= a <= b < i && b < v@.len() ==> v@[a] <= v@[b],
        decreases v@.len() - i,
    {
        if v[i - 1] > v[i] {
            assert(!(v@[i - 1] <= v@[i as int]));
            return false;
        }
        assert forall|a: int, b: int| 0 <= a <= b < i + 1 implies v@[a] <= v@[b] by {
            if b == i {
                assert(v@[i - 1] <= v@[i as int]);
                if a < i {
                    assert(v@[a] <= v@[i - 1]);
                }
            }
        }
        i += 1;
    }
    true
}

/// Whether wide numbers never fall.
pub fn is_sorted64(v: &[u64]) -> (r: bool)
    ensures
        r == sorted64(v@),
{
    let mut i: usize = 1;
    while i < v.len()
        invariant
            1 <= i,
            i <= v@.len() || v@.len() == 0,
            forall|a: int, b: int| 0 <= a <= b < i && b < v@.len() ==> v@[a] <= v@[b],
        decreases v@.len() - i,
    {
        if v[i - 1] > v[i] {
            assert(!(v@[i - 1] <= v@[i as int]));
            return false;
        }
        assert forall|a: int, b: int| 0 <= a <= b < i + 1 implies v@[a] <= v@[b] by {
            if b == i {
                assert(v@[i - 1] <= v@[i as int]);
                if a < i {
                    assert(v@[a] <= v@[i - 1]);
                }
            }
        }
        i += 1;
    }
    true
}

/// Whether wide numbers rise.
pub fn is_ascending64(v: &[u64]) -> (r: bool)
    ensures
        r == ascending64(v@),
{
    let mut i: usize = 1;
    while i < v.len()
        invariant
            1 <= i,
            i <= v@.len() || v@.len() == 0,
            forall|a: int, b: int| 0 <= a < b < i && b < v@.len() ==> v@[a] < v@[b],
        decreases v@.len() - i,
    {
        if v[i - 1] >= v[i] {
            assert(!(v@[i - 1] < v@[i as int]));
            return false;
        }
        assert forall|a: int, b: int| 0 <= a < b < i + 1 implies v@[a] < v@[b] by {
            if b == i && a < i - 1 {
                assert(v@[a] < v@[i - 1]);
            }
        }
        i += 1;
    }
    true
}

/// Whether pairs rise by their first component.
pub fn is_keyed(v: &[(u32, u32)]) -> (r: bool)
    ensures
        r == keyed(v@),
{
    let mut i: usize = 1;
    while i < v.len()
        invariant
            1 <= i,
            i <= v@.len() || v@.len() == 0,
            forall|a: int, b: int|
                0 <= a < b < i && b < v@.len() ==> (#[trigger] v@[a]).0 < (#[trigger] v@[b]).0,
        decreases v@.len() - i,
    {
        if v[i - 1].0 >= v[i].0 {
            assert(!(v@[i - 1].0 < v@[i as int].0));
            return false;
        }
        assert forall|a: int, b: int| 0 <= a < b < i + 1 implies (#[trigger] v@[a]).0 < (
        #[trigger] v@[b]).0 by {
            if b == i && a < i - 1 {
                assert(v@[a].0 < v@[i - 1].0);
            }
        }
        i += 1;
    }
    true
}

/// Whether every number is below `n`.
pub fn all_below(v: &[u32], n: usize) -> (r: bool)
    ensures
        r == forall|i: int| 0 <= i < v@.len() ==> (#[trigger] v@[i]) < n,
{
    let mut i: usize = 0;
    while i < v.len()
        invariant
            i <= v@.len(),
            forall|a: int| 0 <= a < i ==> (#[trigger] v@[a]) < n,
        decreases v@.len() - i,
    {
        if v[i] as usize >= n {
            assert(!(v@[i as int] < n));
            return false;
        }
        i += 1;
    }
    true
}

/// Whether heads rise to the end of what they divide.
pub fn is_head(head: &[u32], edges: usize) -> (r: bool)
    ensures
        r == head_ok(head@, edges as int),
{
    head.len() > 0 && head[head.len() - 1] as usize == edges && is_sorted(head)
}

// ---------------------------------------------------------------- the graph

fn side_fits(
    head: &[u32],
    to: &[u32],
    d16: &[i16],
    exc: &[(u32, u32)],
    seg: &[u32],
    nv: usize,
    ns: usize,
) -> (r: bool)
    requires
        nv < u32::MAX,
    ensures
        r == Dataset::side_ok(head@, to@, d16@, exc@, seg@, nv as int, ns as int),
{
    if head.len() != nv + 1 || !is_head(head, seg.len()) || !is_keyed(exc) {
        return false;
    }
    if d16.len() == 0 {
        if to.len() != seg.len() {
            return false;
        }
    } else if d16.len() != seg.len() {
        return false;
    }
    let mut k: usize = 0;
    while k < seg.len()
        invariant
            k <= seg@.len(),
            forall|x: int| 0 <= x < k ==> seg_of(#[trigger] seg@[x]) < ns,
        decreases seg@.len() - k,
    {
        if seg_id(seg[k]) >= ns {
            assert(!(seg_of(seg@[k as int]) < ns));
            return false;
        }
        k += 1;
    }
    let mut u: usize = 0;
    while u < nv
        invariant
            u <= nv < u32::MAX,
            head@.len() == nv + 1,
            head_ok(head@, seg@.len() as int),
            keyed(exc@),
            if d16@.len() == 0 {
                to@.len() == seg@.len()
            } else {
                d16@.len() == seg@.len()
            },
            forall|x: u32, y: int|
                0 <= x < u && head@[x as int] <= y < head@[x + 1] ==> (#[trigger] unpacked(
                    d16@,
                    exc@,
                    to@,
                    x,
                    y,
                )) < nv,
        decreases nv - u,
    {
        let (a, e): (usize, usize) = (head[u] as usize, head[u + 1] as usize);
        assert(head@[u as int] <= head@[u + 1] <= head@[nv as int]);
        let mut k: usize = a;
        while k < e
            invariant
                a <= k <= e <= seg@.len(),
                a == head@[u as int],
                e == head@[u + 1],
                u < nv < u32::MAX,
                head@.len() == nv + 1,
                keyed(exc@),
                e <= u32::MAX,
                if d16@.len() == 0 {
                    to@.len() == seg@.len()
                } else {
                    d16@.len() == seg@.len()
                },
                forall|y: int|
                    a <= y < k ==> (#[trigger] unpacked(d16@, exc@, to@, u as u32, y)) < nv,
            decreases e - k,
        {
            let v: u32 = unpack(d16, exc, to, u as u32, k);
            if v as usize >= nv {
                assert(!(unpacked(d16@, exc@, to@, u as u32, k as int) < nv));
                return false;
            }
            k += 1;
        }
        assert forall|x: u32, y: int|
            0 <= x < u + 1 && head@[x as int] <= y < head@[x + 1] implies (#[trigger] unpacked(
            d16@,
            exc@,
            to@,
            x,
            y,
        )) < nv by {
            if x == u {
                assert(unpacked(d16@, exc@, to@, u as u32, y) < nv);
            }
        }
        u += 1;
    }
    true
}

impl<'a> Dataset<'a> {
    fn attrs_fit(&self) -> (r: bool)
        ensures
            r == self.attrs_ok(),
    {
        let ns: usize = self.n_segments();
        if self.attr_dict.len() == 0 {
            return self.seg_attr.len() == ns;
        }
        if self.seg_attr16.len() != ns {
            return false;
        }
        let mut s: usize = 0;
        while s < ns
            invariant
                s <= ns,
                ns == self.ns(),
                self.seg_attr16@.len() == ns,
                self.attr_dict@.len() != 0,
                forall|x: int| 0 <= x < s ==> (#[trigger] self.seg_attr16@[x]) < self.attr_dict@.len(),
            decreases ns - s,
        {
            if self.seg_attr16[s] as usize >= self.attr_dict.len() {
                assert(!(self.seg_attr16@[s as int] < self.attr_dict@.len()));
                return false;
            }
            s += 1;
        }
        true
    }

    /// Whether the arrays of the graph fit together: what every search needs.
    pub fn sound(&self) -> (r: bool)
        ensures
            r == self.graph_ok(),
    {
        if self.head.len() == 0 {
            return false;
        }
        let (nv, ns): (usize, usize) = (self.n_vertices(), self.n_segments());
        nv < u32::MAX as usize && side_fits(
            self.head,
            self.to,
            self.to_d16,
            self.to_exc,
            self.eseg,
            nv,
            ns,
        ) && side_fits(
            self.rhead,
            self.rto,
            self.rto_d16,
            self.rto_exc,
            self.rseg,
            nv,
            ns,
        ) && self.attrs_fit()
    }
}

/// Whether a grid's cells rise and divide what they hold.
pub fn cells_rise(cell: &[u64], off: &[u32], seg: &[u32]) -> (r: bool)
    ensures
        r == cells_ok(cell@, off@, seg@),
{
    let n: usize = cell.len();
    off.len() > 0 && off.len() - 1 == n && is_ascending64(cell) && is_sorted(off) && off[n] as usize
        <= seg.len()
}

impl<'a> Dataset<'a> {
    /// Whether every segment can be drawn.
    pub fn drawable(&self) -> (r: bool)
        ensures
            r == forall|s: int| 0 <= s < self.ns() ==> #[trigger] self.geometry_ok(s),
    {
        let n: usize = self.n_segments();
        let mut s: usize = 0;
        while s < n
            invariant
                s <= n,
                n == self.ns(),
                forall|x: int| 0 <= x < s ==> #[trigger] self.geometry_ok(x),
            decreases n - s,
        {
            if s >= self.seg_u.len() || s >= self.seg_v.len() || self.geom_off.len() <= 1 || s
                >= self.geom_off.len() - 1 {
                assert(!self.geometry_ok(s as int));
                return false;
            }
            let (a, e): (u32, u32) = (self.geom_off[s], self.geom_off[s + 1]);
            if a > e || e as usize > self.geom_pts.len() || self.seg_u[s] as usize
                >= self.vcoord.len() || self.seg_v[s] as usize >= self.vcoord.len() {
                assert(!self.geometry_ok(s as int));
                return false;
            }
            s += 1;
        }
        true
    }

    /// Whether every name that a segment refers to is there.
    pub fn named(&self) -> (r: bool)
        ensures
            r == named_ok(*self),
    {
        let n: usize = self.seg_name.len();
        let offs: usize = self.name_off.len();
        let mut s: usize = 0;
        while s < n
            invariant
                s <= n,
                n == self.seg_name@.len(),
                offs == self.name_off@.len(),
                forall|x: int|
                    0 <= x < s && #[trigger] self.seg_name@[x] != u32::MAX ==> self.name_ok(
                        self.seg_name@[x] as int,
                    ),
            decreases n - s,
        {
            let id: u32 = self.seg_name[s];
            if id != u32::MAX {
                let i: usize = id as usize;
                if offs == 0 || i >= offs - 1 || self.name_off[i] > self.name_off[i + 1]
                    || self.name_off[i + 1] > self.name_pool.len() as u64 {
                    assert(self.seg_name@[s as int] != u32::MAX && !self.name_ok(id as int));
                    return false;
                }
            }
            s += 1;
        }
        true
    }
}

// ------------------------------------------------------- what it is made from

proof fn lemma_no_bit(w: u64, i: u64)
    requires
        w == 0,
        i < 64,
    ensures
        !bit64(w, i),
{
    assert(0u64 & (1u64 << i) == 0) by (bit_vector);
}

/// Whether every junction has a coordinate.
fn placed(need: &BitMap, junc: &BitMap, coords: &[(i32, i32)]) -> (r: bool)
    requires
        need.wf(),
        need.ranked(),
        junc.wf(),
        need.room() <= u64::MAX,
        junc.room() <= u64::MAX,
    ensures
        r == junctions_ok(*need, *junc, coords@),
{
    let end: u64 = junc.words.len() as u64 * 64;
    let room: u64 = need.words.len() as u64 * 64;
    let mut id: u64 = 0;
    while id < end
        invariant
            need.wf(),
            need.ranked(),
            junc.wf(),
            need.room() <= u64::MAX,
            end == junc.room(),
            room == need.room(),
            id <= end,
            forall|x: int|
                0 <= x < id && #[trigger] junc.has(x) ==> x <= need.room() && ones(need.words@, x)
                    < coords@.len(),
        decreases end - id,
    {
        let n: usize = junc.words.len();
        assert(id / 64 < n);
        let at: usize = (id / 64) as usize;
        let w: u64 = junc.words[at];
        assert(junc.words@[id as int / 64] == w);
        if w == 0 && id % 64 == 0 {
            assert forall|x: int|
                0 <= x < id + 64 && #[trigger] junc.has(x) implies x <= need.room() && ones(
                need.words@,
                x,
            ) < coords@.len() by {
                if x >= id {
                    assert(x / 64 == id as int / 64);
                    lemma_no_bit(w, (x % 64) as u64);
                }
            }
            id = id + 64;
        } else {
            if w & (1u64 << (id % 64)) != 0 {
                assert(bit64(w, (id as int % 64) as u64));
                assert(junc.has(id as int));
                if id > room {
                    return false;
                }
                let rank: u64 = need.rank1(id);
                if rank >= coords.len() as u64 {
                    return false;
                }
            }
            assert(junc.has(id as int) == bit64(w, (id as int % 64) as u64));
            id = id + 1;
        }
    }
    true
}

fn all_on_globe(v: &[(i32, i32)]) -> (r: bool)
    ensures
        r == forall|i: int| 0 <= i < v@.len() ==> on_globe(#[trigger] v@[i]),
{
    let mut i: usize = 0;
    while i < v.len()
        invariant
            i <= v@.len(),
            forall|a: int| 0 <= a < i ==> on_globe(#[trigger] v@[a]),
        decreases v@.len() - i,
    {
        if v[i].0 < -900_000_000 || v[i].1 < -1_800_000_000 {
            assert(!on_globe(v@[i as int]));
            return false;
        }
        i += 1;
    }
    true
}

impl<'a> Parts<'a> {
    /// Whether a graph can be put together from these arrays.
    pub fn whole(&self) -> (r: bool)
        requires
            self.need.wf(),
            self.need.ranked(),
            self.junc.wf(),
            self.junc.ranked(),
            self.need.room() <= u64::MAX,
            self.junc.room() <= u64::MAX,
        ensures
            r == self.wf(),
    {
        let nv: u64 = self.junc.total();
        let n: usize = self.len_cm.len();
        if nv >= u32::MAX as u64 || n > REVERSED as usize || (n > 0 && nv == 0) {
            return false;
        }
        if self.attr.len() != n || self.name.len() != n || self.off.len() != n + 1 {
            return false;
        }
        if self.off[0] != 0 || !is_head(self.off, self.pts.len()) {
            return false;
        }
        if self.edges.len() as u64 > u32::MAX as u64 {
            return false;
        }
        let mut e: usize = 0;
        while e < self.edges.len()
            invariant
                e <= self.edges@.len(),
                nv == self.nv(),
                n == self.nseg(),
                forall|x: int|
                    0 <= x < e ==> (#[trigger] self.edges@[x]).0 < self.nv() && self.edges@[x].1
                        < self.nv() && crate::graph::adjacency::seg_id(self.edges@[x].2)
                        < self.nseg(),
            decreases self.edges@.len() - e,
        {
            let (u, v, w): (u32, u32, u32) = self.edges[e];
            let seg: u32 = if w >= REVERSED {
                w - REVERSED
            } else {
                w
            };
            if u as u64 >= nv || v as u64 >= nv || seg as usize >= n {
                assert(!(self.edges@[e as int].0 < self.nv() && self.edges@[e as int].1 < self.nv()
                    && crate::graph::adjacency::seg_id(self.edges@[e as int].2) < self.nseg()));
                return false;
            }
            e += 1;
        }
        all_on_globe(self.coords) && all_on_globe(self.pts) && placed(
            self.need,
            self.junc,
            self.coords,
        )
    }
}

// ------------------------------------------------------------ the addresses

impl<'a> Geocoder<'a> {
    fn names_fit(&self) -> (r: bool)
        ensures
            r == self.names_ok(),
    {
        let n: usize = self.street_sorted.len();
        if self.street_normoff.len() <= n {
            return false;
        }
        let off: &[u64] = vstd::slice::slice_subrange(self.street_normoff, 0, n + 1);
        if !is_sorted64(off) {
            proof {
                let (i, j) = choose|i: int, j: int| 0 <= i <= j < off@.len() && !(off@[i] <= off@[j]);
                assert(self.street_normoff@[i] == off@[i] && self.street_normoff@[j] == off@[j]);
            }
            return false;
        }
        assert forall|i: int, j: int| 0 <= i <= j <= n implies self.street_normoff@[i]
            <= self.street_normoff@[j] by {
            assert(off@[i] == self.street_normoff@[i] && off@[j] == self.street_normoff@[j]);
            assert(off@[i] <= off@[j]);
        }
        if self.street_normoff[n] > self.street_norm.len() as u64 {
            return false;
        }
        let mut k: usize = 0;
        while k < n
            invariant
                k <= n,
                n == self.street_sorted@.len(),
                self.street_normoff@.len() > n,
                forall|i: int, j: int|
                    0 <= i <= j <= n ==> self.street_normoff@[i] <= self.street_normoff@[j],
                self.street_normoff@[n as int] <= self.street_norm@.len(),
                forall|x: int| 0 <= x < k ==> valid_utf8(#[trigger] self.name(x)),
                forall|i: int, j: int|
                    0 <= i <= j < k ==> text_le(#[trigger] self.name(i), #[trigger] self.name(j)),
            decreases n - k,
        {
            let t: &[u8] = self.name_slice(k);
            if utf8(t).is_none() {
                assert(!valid_utf8(self.name(k as int)));
                return false;
            }
            if k > 0 {
                let before: &[u8] = self.name_slice(k - 1);
                if !text_at_most(before, t) {
                    assert(!text_le(self.name(k - 1), self.name(k as int)));
                    return false;
                }
            }
            assert forall|i: int, j: int| 0 <= i <= j < k + 1 implies text_le(
                #[trigger] self.name(i),
                #[trigger] self.name(j),
            ) by {
                if j == k {
                    if i < k {
                        assert(text_le(self.name(i), self.name(k - 1)));
                        lemma_text_trans(
                            self.name(i),
                            self.name(k - 1),
                            self.name(k as int),
                        );
                    } else {
                        lemma_text_total(self.name(k as int), self.name(k as int));
                    }
                }
            }
            k += 1;
        }
        true
    }

    fn name_slice(&self, k: usize) -> (r: &'a [u8])
        requires
            k + 1 < self.street_normoff@.len(),
            self.street_normoff@[k as int] <= self.street_normoff@[k + 1] <= self.street_norm@.len(),
        ensures
            r@ == self.name(k as int),
    {
        let m: usize = self.street_norm.len();
        assert(self.street_normoff@[k + 1] <= m);
        let (a, e): (usize, usize) = (
            self.street_normoff[k] as usize,
            self.street_normoff[k + 1] as usize,
        );
        vstd::slice::slice_subrange(self.street_norm, a, e)
    }
}

impl<'a> Geocoder<'a> {
    fn points_fit(&self) -> (r: bool)
        ensures
            r == self.points_ok(),
    {
        let n: usize = self.coord.len();
        self.hn.len() == n && self.street.len() == n && self.place.len() == n && all_below(
            self.hn,
            self.hn_num.len(),
        ) && all_below(self.fwd_idx, n)
    }

    fn cells_fit(&self) -> (r: bool)
        ensures
            r == self.cells_ok(),
    {
        let n: usize = self.cell_key.len();
        self.cell_off.len() > 0 && self.cell_off.len() - 1 == n && is_ascending64(self.cell_key)
            && is_sorted(self.cell_off) && self.cell_off[n] as usize <= self.coord.len()
    }

    /// Whether the groups rise by street and follow each other.
    #[verifier::rlimit(40)]
    fn groups_fit(&self) -> (r: bool)
        ensures
            r == self.groups_ok(),
    {
        if self.fwd_group.len() < 3 {
            return false;
        }
        let m: usize = self.fwd_group.len();
        let n: usize = m / 3 - 1;
        assert(n == self.groups());
        let last: u32 = self.fwd_group[3 * n + 2];
        if last as usize > self.fwd_idx.len() {
            assert(self.group_start(n as int) == last);
            return false;
        }
        let mut g: usize = 0;
        while g < n
            invariant
                g <= n,
                n == self.groups(),
                3 * n + 2 < m,
                m == self.fwd_group@.len(),
                forall|x: int, y: int|
                    0 <= x <= y < g ==> (#[trigger] self.group_street(x)) <= (
                    #[trigger] self.group_street(y)),
                forall|x: int, y: int|
                    0 <= x <= y <= g ==> (#[trigger] self.group_start(x)) <= (
                    #[trigger] self.group_start(y)),
                forall|x: int|
                    0 <= x < g ==> 2 * (#[trigger] self.group_place(x)) + 1 < self.place_tab@.len(),
            decreases n - g,
        {
            let street: u32 = self.fwd_group[3 * g];
            let place: u32 = self.fwd_group[3 * g + 1];
            let start: u32 = self.fwd_group[3 * g + 2];
            let next: u32 = self.fwd_group[3 * g + 5];
            proof {
                assert(self.group_street(g as int) == street);
                assert(self.group_place(g as int) == place);
                assert(self.group_start(g as int) == start);
                assert(self.group_start(g + 1) == next);
            }
            if start > next || 2 * place as u64 + 1 >= self.place_tab.len() as u64 {
                return false;
            }
            if g > 0 {
                let before: u32 = self.fwd_group[3 * (g - 1)];
                assert(self.group_street(g - 1) == before);
                if before > street {
                    return false;
                }
            }
            proof {
                assert forall|x: int, y: int| 0 <= x <= y < g + 1 implies (
                #[trigger] self.group_street(x)) <= (#[trigger] self.group_street(y)) by {
                    if y == g && x < g {
                        assert(self.group_street(x) <= self.group_street(g - 1));
                    }
                }
                assert forall|x: int, y: int| 0 <= x <= y <= g + 1 implies (
                #[trigger] self.group_start(x)) <= (#[trigger] self.group_start(y)) by {
                    if y == g + 1 && x <= g {
                        assert(self.group_start(x) <= self.group_start(g as int));
                    }
                }
            }
            g += 1;
        }
        assert(self.group_start(n as int) == last);
        true
    }

    /// Whether the numbers rise within every group.
    #[verifier::rlimit(40)]
    fn numbers_fit(&self) -> (r: bool)
        requires
            self.groups_ok(),
            self.points_ok(),
        ensures
            r == self.numbers_ok(),
    {
        let m: usize = self.fwd_group.len();
        let n: usize = m / 3 - 1;
        assert(n == self.groups());
        let mut g: usize = 0;
        while g < n
            invariant
                g <= n,
                n == self.groups(),
                3 * n + 2 < m,
                m == self.fwd_group@.len(),
                self.groups_ok(),
                self.points_ok(),
                forall|h: int, x: int, y: int|
                    0 <= h < g && self.group_start(h) <= x <= y < self.group_start(h + 1)
                        ==> #[trigger] self.in_order(h, x, y),
            decreases n - g,
        {
            let a: usize = self.fwd_group[3 * g + 2] as usize;
            let e: usize = self.fwd_group[3 * g + 5] as usize;
            proof {
                assert(self.group_start(g as int) == a);
                assert(self.group_start(g + 1) == e);
                assert(self.group_start(g + 1) <= self.group_start(n as int));
            }
            let mut i: usize = a;
            while i < e
                invariant
                    a <= e <= self.fwd_idx@.len(),
                    a <= i <= e || i == a,
                    g < n,
                    n == self.groups(),
                    self.group_start(g as int) == a,
                    self.group_start(g + 1) == e,
                    self.points_ok(),
                    forall|x: int, y: int|
                        a <= x <= y < i ==> #[trigger] self.in_order(g as int, x, y),
                decreases e - i,
            {
                assert(self.fwd_idx@[i as int] < self.coord@.len());
                assert(self.hn@[self.fwd_idx@[i as int] as int] < self.hn_num@.len());
                let x: u32 = self.hn_num[self.hn[self.fwd_idx[i] as usize] as usize];
                if i > a {
                    assert(self.fwd_idx@[i - 1] < self.coord@.len());
                    assert(self.hn@[self.fwd_idx@[i - 1] as int] < self.hn_num@.len());
                    let w: u32 = self.hn_num[self.hn[self.fwd_idx[i - 1] as usize] as usize];
                    if w > x {
                        assert(!self.in_order(g as int, i - 1, i as int));
                        return false;
                    }
                }
                assert forall|x: int, y: int| a <= x <= y < i + 1 implies #[trigger] self.in_order(
                    g as int,
                    x,
                    y,
                ) by {
                    if y == i && x < i {
                        assert(self.in_order(g as int, x, i - 1));
                    }
                }
                i += 1;
            }
            assert forall|h: int, x: int, y: int|
                0 <= h < g + 1 && self.group_start(h) <= x <= y < self.group_start(
                    h + 1,
                ) implies #[trigger] self.in_order(h, x, y) by {
                if h == g {
                    assert(self.in_order(g as int, x, y));
                }
            }
            g += 1;
        }
        true
    }

    /// Whether the arrays of the addresses fit together: what finding one
    /// relies on.
    pub fn readable(&self) -> (r: bool)
        ensures
            r == self.wf(),
    {
        self.points_fit() && self.groups_fit() && self.numbers_fit() && self.cells_fit()
            && self.names_fit()
    }
}

} // verus!
