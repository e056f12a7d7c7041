//! The arrays that addresses are found in.

use vstd::prelude::*;
use vstd::string::StringExecFns;
use vstd::utf8::{decode_utf8, valid_utf8};
use crate::geocode::order::{
    lemma_text_total, lemma_text_trans, text_at_most, text_before, text_lt,
};
use crate::graph::grid::{cell_of, fine, key_of, CELL_E7};
use crate::intern::piece;
use crate::lookup::{ascending64, position64};
use crate::sorting::text_le;
use crate::text::utf8;

verus! {

/// The first place of `n` where `pred` no longer holds, by halving.
pub fn partition_point<F: Fn(usize) -> bool>(n: usize, pred: F) -> (r: usize)
    requires
        forall|i: usize| i < n ==> #[trigger] call_requires(pred, (i,)),
    ensures
        r <= n,
        r > 0 ==> call_ensures(pred, ((r - 1) as usize,), true),
        r < n ==> call_ensures(pred, (r,), false),
{
    let mut lo: usize = 0;
    let mut hi: usize = n;
    while lo < hi
        invariant
            lo <= hi <= n,
            forall|i: usize| i < n ==> #[trigger] call_requires(pred, (i,)),
            lo > 0 ==> call_ensures(pred, ((lo - 1) as usize,), true),
            hi < n ==> call_ensures(pred, (hi,), false),
        decreases hi - lo,
    {
        let mid: usize = lo + (hi - lo) / 2;
        if pred(mid) {
            lo = mid + 1;
        } else {
            hi = mid;
        }
    }
    lo
}

/// The arrays of the address index.
pub struct Geocoder<'a> {
    pub coord: &'a [(i32, i32)],
    pub hn: &'a [u32],
    pub street: &'a [u32],
    pub place: &'a [u32],
    pub cell_key: &'a [u64],
    pub cell_off: &'a [u32],
    pub fwd_idx: &'a [u32],
    /// Street, place and first position of each group, then an end mark.
    pub fwd_group: &'a [u32],
    pub hn_num: &'a [u32],
    pub street_pool: &'a [u8],
    pub street_off: &'a [u64],
    pub street_sorted: &'a [u32],
    pub street_norm: &'a [u8],
    pub street_normoff: &'a [u64],
    pub city_pool: &'a [u8],
    pub city_off: &'a [u64],
    pub pc_pool: &'a [u8],
    pub pc_off: &'a [u64],
    pub hn_pool: &'a [u8],
    pub hn_off: &'a [u64],
    /// City and postcode of each place.
    pub place_tab: &'a [u32],
}

/// An address that was found.
pub struct Hit {
    pub lat_e7: i32,
    pub lon_e7: i32,
    pub street: String,
    pub housenumber: String,
    pub city: Option<String>,
    pub postcode: Option<String>,
    /// The number asked for is not there, and this is a neighbour's.
    pub approximate: bool,
}

/// String `i` of a pool, where it is there and is text.
pub open spec fn pool_text(pool: Seq<u8>, off: Seq<u64>, i: u32) -> Option<Seq<char>> {
    if i == u32::MAX || i + 1 >= off.len() || off[i as int] > off[i + 1] || off[i + 1]
        > pool.len() || !valid_utf8(piece(pool, off, i as int)) {
        None
    } else {
        Some(decode_utf8(piece(pool, off, i as int)))
    }
}

pub open spec fn or_empty(t: Option<Seq<char>>) -> Seq<char> {
    match t {
        None => Seq::empty(),
        Some(s) => s,
    }
}

/// A string of a pool.
pub fn pool<'b>(bytes: &'b [u8], off: &[u64], i: u32) -> (r: Option<&'b str>)
    ensures
        match r {
            None => pool_text(bytes@, off@, i) is None,
            Some(s) => pool_text(bytes@, off@, i) == Some(s@),
        },
{
    if i == u32::MAX || i as usize + 1 >= off.len() {
        return None;
    }
    let (a, b): (u64, u64) = (off[i as usize], off[i as usize + 1]);
    if a > b || b > bytes.len() as u64 {
        return None;
    }
    utf8(vstd::slice::slice_subrange(bytes, a as usize, b as usize))
}

impl<'a> Geocoder<'a> {
    /// Normalised name `k`.
    pub open spec fn name(&self, k: int) -> Seq<u8> {
        piece(self.street_norm@, self.street_normoff@, k)
    }

    /// The names lie in their pool and rise.
    pub open spec fn names_ok(&self) -> bool {
        let n = self.street_sorted@.len();
        &&& self.street_normoff@.len() > n
        &&& forall|i: int, j: int|
            0 <= i <= j <= n ==> self.street_normoff@[i] <= self.street_normoff@[j]
        &&& self.street_normoff@[n as int] <= self.street_norm@.len()
        &&& forall|k: int| 0 <= k < n ==> valid_utf8(#[trigger] self.name(k))
        &&& forall|i: int, j: int|
            0 <= i <= j < n ==> text_le(#[trigger] self.name(i), #[trigger] self.name(j))
    }

    pub open spec fn groups(&self) -> int {
        self.fwd_group@.len() / 3 - 1
    }

    pub open spec fn group_street(&self, g: int) -> u32 {
        self.fwd_group@[3 * g]
    }

    pub open spec fn group_place(&self, g: int) -> u32 {
        self.fwd_group@[3 * g + 1]
    }

    pub open spec fn group_start(&self, g: int) -> int {
        self.fwd_group@[3 * g + 2] as int
    }

    /// The number at position `x`.
    pub open spec fn num(&self, x: int) -> u32 {
        self.hn_num@[self.hn@[self.fwd_idx@[x] as int] as int]
    }

    /// The groups rise by street, and follow each other.
    pub open spec fn groups_ok(&self) -> bool {
        &&& self.fwd_group@.len() >= 3
        &&& forall|g: int, h: int|
            0 <= g <= h < self.groups() ==> (#[trigger] self.group_street(g)) <= (
            #[trigger] self.group_street(h))
        &&& forall|g: int, h: int|
            0 <= g <= h <= self.groups() ==> (#[trigger] self.group_start(g)) <= (
            #[trigger] self.group_start(h))
        &&& self.group_start(self.groups()) <= self.fwd_idx@.len()
        &&& forall|g: int|
            0 <= g < self.groups() ==> 2 * (#[trigger] self.group_place(g)) + 1
                < self.place_tab@.len()
    }

    /// Numbers rise within a group.
    pub open spec fn numbers_ok(&self) -> bool {
        forall|g: int, x: int, y: int|
            0 <= g < self.groups() && self.group_start(g) <= x <= y < self.group_start(g + 1)
                ==> #[trigger] self.in_order(g, x, y)
    }

    pub open spec fn in_order(&self, g: int, x: int, y: int) -> bool {
        self.num(x) <= self.num(y)
    }

    pub open spec fn points_ok(&self) -> bool {
        let n = self.coord@.len();
        &&& self.hn@.len() == n
        &&& self.street@.len() == n
        &&& self.place@.len() == n
        &&& forall|x: int| 0 <= x < n ==> (#[trigger] self.hn@[x]) < self.hn_num@.len()
        &&& forall|x: int| 0 <= x < self.fwd_idx@.len() ==> (#[trigger] self.fwd_idx@[x]) < n
    }

    pub open spec fn cells_ok(&self) -> bool {
        &&& ascending64(self.cell_key@)
        &&& self.cell_off@.len() == self.cell_key@.len() + 1
        &&& forall|i: int, j: int|
            0 <= i <= j < self.cell_off@.len() ==> self.cell_off@[i] <= self.cell_off@[j]
        &&& self.cell_off@[self.cell_key@.len() as int] <= self.coord@.len()
    }

    pub open spec fn wf(&self) -> bool {
        self.names_ok() && self.groups_ok() && self.numbers_ok() && self.points_ok()
            && self.cells_ok()
    }

    /// How many addresses there are.
    pub fn len(&self) -> (n: usize)
        ensures
            n == self.coord@.len(),
    {
        self.coord.len()
    }

    pub fn is_empty(&self) -> (r: bool)
        ensures
            r == (self.coord@.len() == 0),
    {
        self.coord.len() == 0
    }

    pub fn street_count(&self) -> (n: usize)
        ensures
            n == if self.street_off@.len() == 0 {
                0
            } else {
                self.street_off@.len() - 1
            },
    {
        if self.street_off.len() == 0 {
            0
        } else {
            self.street_off.len() - 1
        }
    }

    /// Normalised name of the `k`-th street in order.
    pub fn norm_at(&self, k: usize) -> (r: &'a [u8])
        requires
            self.names_ok(),
            k < self.street_sorted@.len(),
        ensures
            r@ == self.name(k as int),
    {
        let n: usize = self.street_norm.len();
        assert(self.street_normoff@[k as int] <= self.street_normoff@[k + 1]);
        assert(self.street_normoff@[k + 1] <= self.street_normoff@[self.street_sorted@.len() as int]);
        assert(self.street_normoff@[k + 1] <= n);
        let (a, b): (usize, usize) = (
            self.street_normoff[k] as usize,
            self.street_normoff[k + 1] as usize,
        );
        vstd::slice::slice_subrange(self.street_norm, a, b)
    }

    /// The first street whose name does not come before `q`.
    pub fn first_name(&self, q: &[u8]) -> (r: usize)
        requires
            self.names_ok(),
        ensures
            r <= self.street_sorted@.len(),
            forall|k: int| 0 <= k < self.street_sorted@.len() ==> (k < r <==> text_lt(
                #[trigger] self.name(k),
                q@,
            )),
    {
        let n: usize = self.street_sorted.len();
        let r: usize = partition_point(n, |i: usize| -> (b: bool)
            requires
                i < n,
                n == self.street_sorted@.len(),
                self.names_ok(),
            ensures
                b == text_lt(self.name(i as int), q@),
            { text_before(self.norm_at(i), q) });
        proof {
            assert forall|k: int| 0 <= k < n implies (k < r <==> text_lt(
                #[trigger] self.name(k),
                q@,
            )) by {
                if k < r {
                    assert(text_lt(self.name(r - 1), q@));
                    assert(text_le(self.name(k), self.name(r - 1)));
                    lemma_text_trans(self.name(k), self.name(r - 1), q@);
                    if self.name(k) == q@ {
                        lemma_text_total(self.name(r - 1), q@);
                    }
                } else if text_lt(self.name(k), q@) {
                    assert(!text_lt(self.name(r as int), q@));
                    assert(text_le(self.name(r as int), self.name(k)));
                    lemma_text_trans(self.name(r as int), self.name(k), q@);
                    lemma_text_total(self.name(k), q@);
                }
            }
        }
        r
    }

    /// The streets whose normalised name is `q`, as places in their order.
    pub fn street_range(&self, q: &[u8]) -> (r: (usize, usize))
        requires
            self.names_ok(),
        ensures
            r.0 <= r.1 <= self.street_sorted@.len(),
            forall|k: int|
                0 <= k < self.street_sorted@.len() ==> (r.0 <= k < r.1 <==> #[trigger] self.name(k)
                    == q@),
    {
        let n: usize = self.street_sorted.len();
        let lo: usize = self.first_name(q);
        let hi: usize = partition_point(n, |i: usize| -> (b: bool)
            requires
                i < n,
                n == self.street_sorted@.len(),
                self.names_ok(),
            ensures
                b == text_le(self.name(i as int), q@),
            { text_at_most(self.norm_at(i), q) });
        proof {
            assert(lo <= hi) by {
                if hi < lo {
                    assert(text_lt(self.name(hi as int), q@));
                }
            }
            assert forall|k: int| 0 <= k < n implies (lo <= k < hi <==> #[trigger] self.name(k)
                == q@) by {
                lemma_text_total(self.name(k), q@);
                lemma_text_total(q@, q@);
                if k < hi {
                    assert(text_le(self.name(hi - 1), q@));
                    assert(text_le(self.name(k), self.name(hi - 1)));
                    lemma_text_trans(self.name(k), self.name(hi - 1), q@);
                } else {
                    assert(!text_le(self.name(hi as int), q@));
                    assert(text_le(self.name(hi as int), self.name(k)));
                }
            }
        }
        (lo, hi)
    }

    /// How many groups there are.
    pub fn n_groups(&self) -> (n: usize)
        requires
            self.fwd_group@.len() >= 3,
        ensures
            n == self.groups(),
    {
        self.fwd_group.len() / 3 - 1
    }

    /// Street, place and span of a group.
    pub fn group_span(&self, g: usize) -> (r: (u32, u32, usize, usize))
        requires
            self.groups_ok(),
            g < self.groups(),
        ensures
            r.0 == self.group_street(g as int),
            r.1 == self.group_place(g as int),
            r.2 == self.group_start(g as int),
            r.3 == self.group_start(g + 1),
            r.2 <= r.3 <= self.fwd_idx@.len(),
    {
        assert(self.group_start(g as int) <= self.group_start(g + 1));
        assert(self.group_start(g + 1) <= self.group_start(self.groups()));
        let total: usize = self.fwd_group.len();
        assert(3 * g + 5 < total);
        (
            self.fwd_group[3 * g],
            self.fwd_group[3 * g + 1],
            self.fwd_group[3 * g + 2] as usize,
            self.fwd_group[3 * (g + 1) + 2] as usize,
        )
    }

    /// The groups of one street.
    pub fn groups_of(&self, sid: u32) -> (r: (usize, usize))
        requires
            self.groups_ok(),
        ensures
            r.0 <= r.1 <= self.groups(),
            forall|g: int|
                0 <= g < self.groups() ==> (r.0 <= g < r.1 <==> #[trigger] self.group_street(g)
                    == sid),
    {
        let n: usize = self.n_groups();
        let total: usize = self.fwd_group.len();
        let lo: usize = partition_point(n, |i: usize| -> (b: bool)
            requires
                i < self.groups(),
                total == self.fwd_group@.len(),
                3 * i < total,
                self.groups_ok(),
            ensures
                b == (self.group_street(i as int) < sid),
            { self.fwd_group[3 * i] < sid });
        let hi: usize = partition_point(n, |i: usize| -> (b: bool)
            requires
                i < self.groups(),
                total == self.fwd_group@.len(),
                3 * i < total,
                self.groups_ok(),
            ensures
                b == (self.group_street(i as int) <= sid),
            { self.fwd_group[3 * i] <= sid });
        proof {
            assert(lo <= hi) by {
                if hi < lo {
                    assert(self.group_street(hi as int) <= self.group_street(lo - 1));
                }
            }
            assert forall|g: int| 0 <= g < self.groups() implies (lo <= g < hi
                <==> #[trigger] self.group_street(g) == sid) by {
                if g < lo {
                    assert(self.group_street(g) <= self.group_street(lo - 1));
                } else {
                    assert(self.group_street(lo as int) <= self.group_street(g));
                }
                if g < hi {
                    assert(self.group_street(g) <= self.group_street(hi - 1));
                } else {
                    assert(self.group_street(hi as int) <= self.group_street(g));
                }
            }
        }
        (lo, hi)
    }

    pub open spec fn place_of(&self, x: int) -> (u32, u32) {
        let p = self.place@[x];
        if p < self.place_tab@.len() / 2 {
            (self.place_tab@[2 * p as int], self.place_tab@[2 * p + 1])
        } else {
            (u32::MAX, u32::MAX)
        }
    }

    /// A hit says what the arrays hold of address `x`.
    pub open spec fn shows(&self, h: Hit, x: int, approximate: bool) -> bool {
        let (c, p) = self.place_of(x);
        let city = pool_text(self.city_pool@, self.city_off@, c);
        let pc = pool_text(self.pc_pool@, self.pc_off@, p);
        &&& (h.lat_e7, h.lon_e7) == self.coord@[x]
        &&& h.street@ == or_empty(pool_text(self.street_pool@, self.street_off@, self.street@[x]))
        &&& h.housenumber@ == or_empty(pool_text(self.hn_pool@, self.hn_off@, self.hn@[x]))
        &&& h.city is Some == city is Some
        &&& h.city matches Some(s) ==> city == Some(s@)
        &&& h.postcode is Some == pc is Some
        &&& h.postcode matches Some(s) ==> pc == Some(s@)
        &&& h.approximate == approximate
    }

    /// The address at `x`.
    pub fn hit(&self, x: usize, approximate: bool) -> (h: Hit)
        requires
            self.points_ok(),
            x < self.coord@.len(),
        ensures
            self.shows(h, x as int, approximate),
    {
        let (lat_e7, lon_e7): (i32, i32) = self.coord[x];
        let p: usize = self.place[x] as usize;
        let (c, z): (u32, u32) = if p < self.place_tab.len() / 2 {
            (self.place_tab[2 * p], self.place_tab[2 * p + 1])
        } else {
            (u32::MAX, u32::MAX)
        };
        Hit {
            lat_e7,
            lon_e7,
            street: owned_or_empty(pool(self.street_pool, self.street_off, self.street[x])),
            housenumber: owned_or_empty(pool(self.hn_pool, self.hn_off, self.hn[x])),
            city: owned(pool(self.city_pool, self.city_off, c)),
            postcode: owned(pool(self.pc_pool, self.pc_off, z)),
            approximate,
        }
    }

    /// Where the points of a cell are; nothing where it has none.
    pub fn cell_span(&self, key: u64) -> (r: Option<(usize, usize)>)
        requires
            self.cells_ok(),
        ensures
            match r {
                None => !self.cell_key@.contains(key),
                Some((a, b)) => exists|i: int|
                    0 <= i < self.cell_key@.len() && #[trigger] self.cell_key@[i] == key && a
                        == self.cell_off@[i] && b == self.cell_off@[i + 1] && a <= b
                        <= self.coord@.len(),
            },
    {
        match position64(self.cell_key, key) {
            None => None,
            Some(i) => {
                assert(self.cell_off@[i as int] <= self.cell_off@[i + 1]);
                assert(self.cell_off@[i + 1] <= self.cell_off@[self.cell_key@.len() as int]);
                assert(self.cell_key@[i as int] == key);
                Some((self.cell_off[i] as usize, self.cell_off[i + 1] as usize))
            },
        }
    }
}

fn owned(s: Option<&str>) -> (r: Option<String>)
    ensures
        r is Some == s is Some,
        r matches Some(t) ==> s is Some && t@ == s->0@,
{
    match s {
        None => None,
        Some(t) => Some(String::from_str(t)),
    }
}

fn owned_or_empty(s: Option<&str>) -> (r: String)
    ensures
        r@ == match s {
            None => Seq::empty(),
            Some(t) => t@,
        },
{
    match s {
        None => {
            let r: String = String::from_str("");
            proof {
                reveal_strlit("");
            }
            assert(r@ =~= Seq::<char>::empty());
            r
        },
        Some(t) => String::from_str(t),
    }
}

/// The cells on the square of a radius around a point, row by row.
pub open spec fn ring_row(lat: int, lon: int, ring: int, dy: int, dx: int) -> Seq<u64>
    decreases ring + 1 - dx,
{
    if dx > ring {
        Seq::empty()
    } else {
        let k = key_of(
            fine(lat + dy * CELL_E7, 900_000_000),
            fine(lon + dx * CELL_E7, 1_800_000_000),
        );
        if dy == ring || dy == -ring || dx == ring || dx == -ring {
            seq![k] + ring_row(lat, lon, ring, dy, dx + 1)
        } else {
            ring_row(lat, lon, ring, dy, dx + 1)
        }
    }
}

pub open spec fn ring_from(lat: int, lon: int, ring: int, dy: int) -> Seq<u64>
    decreases ring + 1 - dy,
{
    if dy > ring {
        Seq::empty()
    } else {
        ring_row(lat, lon, ring, dy, -ring) + ring_from(lat, lon, ring, dy + 1)
    }
}

/// The cells at a distance of `ring` cells from a point.
pub open spec fn ring_of(lat: int, lon: int, ring: int) -> Seq<u64> {
    ring_from(lat, lon, ring, -ring)
}

/// The keys of the cells at a distance of `ring` cells from a point, for a
/// search that goes outward.
pub fn ring_cells(lat_e7: i32, lon_e7: i32, ring: i32) -> (r: Vec<u64>)
    requires
        0 <= ring <= 20_000,
        i32::MIN <= lat_e7 - ring * CELL_E7,
        lat_e7 + ring * CELL_E7 <= i32::MAX,
        i32::MIN <= lon_e7 - ring * CELL_E7,
        lon_e7 + ring * CELL_E7 <= i32::MAX,
    ensures
        r@ == ring_of(lat_e7 as int, lon_e7 as int, ring as int),
{
    let mut r: Vec<u64> = Vec::new();
    let mut dy: i32 = -ring;
    let ghost goal = ring_from(lat_e7 as int, lon_e7 as int, ring as int, -ring as int);
    assert(r@ + goal =~= goal);
    while dy <= ring
        invariant
            0 <= ring <= 20_000,
            i32::MIN <= lat_e7 - ring * CELL_E7,
            lat_e7 + ring * CELL_E7 <= i32::MAX,
            i32::MIN <= lon_e7 - ring * CELL_E7,
            lon_e7 + ring * CELL_E7 <= i32::MAX,
            -ring <= dy <= ring + 1,
            r@ + ring_from(lat_e7 as int, lon_e7 as int, ring as int, dy as int) == goal,
        decreases ring + 1 - dy,
    {
        let mut dx: i32 = -ring;
        let ghost rest = ring_from(lat_e7 as int, lon_e7 as int, ring as int, dy + 1);
        proof {
            let row = ring_row(lat_e7 as int, lon_e7 as int, ring as int, dy as int, -ring as int);
            assert(r@ + (row + rest) =~= r@ + row + rest);
        }
        while dx <= ring
            invariant
                0 <= ring <= 20_000,
                i32::MIN <= lat_e7 - ring * CELL_E7,
                lat_e7 + ring * CELL_E7 <= i32::MAX,
                i32::MIN <= lon_e7 - ring * CELL_E7,
                lon_e7 + ring * CELL_E7 <= i32::MAX,
                -ring <= dy <= ring,
                -ring <= dx <= ring + 1,
                r@ + ring_row(lat_e7 as int, lon_e7 as int, ring as int, dy as int, dx as int)
                    + rest == goal,
            decreases ring + 1 - dx,
        {
            if dy == ring || dy == -ring || dx == ring || dx == -ring {
                let k: u64 = cell_of(lat_e7 + dy * CELL_E7, lon_e7 + dx * CELL_E7);
                let ghost r0 = r@;
                r.push(k);
                proof {
                    let tail = ring_row(
                        lat_e7 as int,
                        lon_e7 as int,
                        ring as int,
                        dy as int,
                        dx + 1,
                    );
                    assert(r@ + tail =~= r0 + (seq![k] + tail));
                }
            }
            dx += 1;
        }
        assert(r@ + Seq::<u64>::empty() =~= r@);
        dy += 1;
    }
    assert(r@ + Seq::<u64>::empty() =~= r@);
    r
}

} // verus!
