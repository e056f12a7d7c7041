//! The finished dataset: dense arrays of fixed-width records.
//!
//! Nothing is parsed or decompressed at open time; whoever opens a dataset
//! hands over the mapped arrays, and every lookup below is arithmetic on them.

use vstd::prelude::*;
use vstd::utf8::{decode_utf8, valid_utf8};
use crate::attr::{attr_kmh, kmh_of};
use crate::text::utf8;
use crate::lookup::{ascending64, keyed, lemma_lookup, lookup, position64, position_keyed};

verus! {

pub struct Dataset<'a> {
    /// CSR: out-edges of `u` are `head[u]..head[u+1]`.
    pub head: &'a [u32],
    /// Full-width targets; empty on a packed dataset.
    pub to: &'a [u32],
    pub to_d16: &'a [i16],
    pub to_exc: &'a [(u32, u32)],
    /// Segment id, with bit 31 set when the edge runs against the geometry.
    pub eseg: &'a [u32],
    /// Transposed CSR, for the backward half of a bidirectional search.
    pub rhead: &'a [u32],
    pub rto: &'a [u32],
    pub rto_d16: &'a [i16],
    pub rto_exc: &'a [(u32, u32)],
    pub rseg: &'a [u32],
    pub vcoord: &'a [(i32, i32)],
    pub seg_len: &'a [u32],
    /// Full-width attribute words; empty when the dictionary form is used.
    pub seg_attr: &'a [u32],
    pub seg_attr16: &'a [u16],
    pub attr_dict: &'a [u32],
    pub seg_name: &'a [u32],
    pub seg_u: &'a [u32],
    pub seg_v: &'a [u32],
    pub geom_pts: &'a [(i32, i32)],
    pub geom_off: &'a [u32],
    pub snap_cell: &'a [u64],
    pub snap_off: &'a [u32],
    pub snap_seg: &'a [u32],
    /// Coarse overview index (1° cells, major roads only).
    pub big_cell: &'a [u64],
    pub big_off: &'a [u32],
    pub big_seg: &'a [u32],
    pub name_pool: &'a [u8],
    pub name_off: &'a [u64],
}

/// Bit 31 of an edge's segment word says which way along the geometry it runs.
pub const SEG_MASK: u32 = 0x7fff_ffff;

/// Set where an edge runs against the direction in which its segment is drawn.
pub const DIR_BIT: u32 = 0x8000_0000;

/// The segment an edge word names.
pub open spec fn seg_of(word: u32) -> int {
    word as int % 0x8000_0000
}

pub fn seg_id(word: u32) -> (s: usize)
    ensures
        s == seg_of(word),
{
    (word % 0x8000_0000) as usize
}

/// The far end of edge `k`, whose near end is `u`: a 16-bit delta where that
/// fits, an exception where it does not, or the full-width array.
pub open spec fn unpacked(
    d16: Seq<i16>,
    exc: Seq<(u32, u32)>,
    raw: Seq<u32>,
    u: u32,
    k: int,
) -> u32 {
    if d16.len() == 0 {
        raw[k]
    } else if d16[k] != i16::MIN {
        ((u as i64 + d16[k] as i64) as i64) as u32
    } else {
        match lookup(exc, k as u32) {
            Some(v) => v,
            // Cannot happen on a consistent dataset; the source keeps the
            // search well-formed.
            None => u,
        }
    }
}

pub(crate) fn unpack(d16: &[i16], exc: &[(u32, u32)], raw: &[u32], u: u32, k: usize) -> (v: u32)
    requires
        d16@.len() == 0 ==> k < raw@.len(),
        d16@.len() > 0 ==> k < d16@.len(),
        k <= u32::MAX,
        keyed(exc@),
    ensures
        v == unpacked(d16@, exc@, raw@, u, k as int),
{
    if d16.len() == 0 {
        return raw[k];  // full-width dataset
    }
    let d: i16 = d16[k];
    if d != i16::MIN {
        (u as i64 + d as i64) as u32
    } else {
        match position_keyed(exc, k as u32) {
            Some(i) => {
                proof {
                    lemma_lookup(exc@, i as int);
                }
                exc[i].1
            },
            None => {
                u
            },
        }
    }
}

/// A head array delimits `edges` entries for each of its vertices.
pub open spec fn head_ok(head: Seq<u32>, edges: int) -> bool {
    &&& head.len() >= 1
    &&& forall|i: int, j: int| 0 <= i <= j < head.len() ==> head[i] <= head[j]
    &&& head[head.len() - 1] == edges
}

impl<'a> Dataset<'a> {
    pub open spec fn nv(&self) -> int {
        if self.head@.len() == 0 {
            0
        } else {
            self.head@.len() - 1
        }
    }

    pub open spec fn ns(&self) -> int {
        self.seg_len@.len() as int
    }

    pub open spec fn spec_target(&self, u: u32, k: int) -> u32 {
        unpacked(self.to_d16@, self.to_exc@, self.to@, u, k)
    }

    pub open spec fn spec_rtarget(&self, u: u32, k: int) -> u32 {
        unpacked(self.rto_d16@, self.rto_exc@, self.rto@, u, k)
    }

    pub open spec fn spec_attr(&self, sid: int) -> u32 {
        if self.attr_dict@.len() == 0 {
            self.seg_attr@[sid]
        } else {
            self.attr_dict@[self.seg_attr16@[sid] as int]
        }
    }

    /// Every segment has an attribute word.
    pub open spec fn attrs_ok(&self) -> bool {
        if self.attr_dict@.len() == 0 {
            self.seg_attr@.len() == self.ns()
        } else {
            &&& self.seg_attr16@.len() == self.ns()
            &&& forall|s: int|
                0 <= s < self.ns() ==> (#[trigger] self.seg_attr16@[s]) < self.attr_dict@.len()
        }
    }

    /// The edge arrays of one direction fit together.
    pub open spec fn side_ok(
        head: Seq<u32>,
        to: Seq<u32>,
        d16: Seq<i16>,
        exc: Seq<(u32, u32)>,
        seg: Seq<u32>,
        nv: int,
        ns: int,
    ) -> bool {
        &&& head.len() == nv + 1
        &&& head_ok(head, seg.len() as int)
        &&& keyed(exc)
        &&& if d16.len() == 0 {
            to.len() == seg.len()
        } else {
            d16.len() == seg.len()
        }
        &&& forall|u: u32, k: int|
            0 <= u < nv && head[u as int] <= k < head[u + 1] ==> (#[trigger] unpacked(
                d16,
                exc,
                to,
                u,
                k,
            )) < nv
        &&& forall|k: int| 0 <= k < seg.len() ==> seg_of(#[trigger] seg[k]) < ns
    }

    /// The road graph is consistent: what every search needs.
    pub open spec fn graph_ok(&self) -> bool {
        &&& self.head@.len() >= 1
        &&& self.nv() < u32::MAX
        &&& Self::side_ok(
            self.head@,
            self.to@,
            self.to_d16@,
            self.to_exc@,
            self.eseg@,
            self.nv(),
            self.ns(),
        )
        &&& Self::side_ok(
            self.rhead@,
            self.rto@,
            self.rto_d16@,
            self.rto_exc@,
            self.rseg@,
            self.nv(),
            self.ns(),
        )
        &&& self.attrs_ok()
    }

    /// Target of forward edge `k`, whose source is `u`.
    pub fn target(&self, u: u32, k: usize) -> (v: u32)
        requires
            self.to_d16@.len() == 0 ==> k < self.to@.len(),
            self.to_d16@.len() > 0 ==> k < self.to_d16@.len(),
            k <= u32::MAX,
            keyed(self.to_exc@),
        ensures
            v == self.spec_target(u, k as int),
    {
        unpack(self.to_d16, self.to_exc, self.to, u, k)
    }

    /// Target of backward edge `k` — the vertex that reaches `u`.
    pub fn rtarget(&self, u: u32, k: usize) -> (v: u32)
        requires
            self.rto_d16@.len() == 0 ==> k < self.rto@.len(),
            self.rto_d16@.len() > 0 ==> k < self.rto_d16@.len(),
            k <= u32::MAX,
            keyed(self.rto_exc@),
        ensures
            v == self.spec_rtarget(u, k as int),
    {
        unpack(self.rto_d16, self.rto_exc, self.rto, u, k)
    }

    /// Packed attribute word of a segment.
    pub fn attr(&self, sid: usize) -> (a: u32)
        requires
            sid < self.ns(),
            self.attrs_ok(),
        ensures
            a == self.spec_attr(sid as int),
    {
        if self.attr_dict.len() == 0 {
            self.seg_attr[sid]
        } else {
            self.attr_dict[self.seg_attr16[sid] as usize]
        }
    }

    /// The words `max_kmh` looks through.
    pub open spec fn speed_words(&self) -> Seq<u32> {
        if self.attr_dict@.len() == 0 {
            self.seg_attr@
        } else {
            self.attr_dict@
        }
    }

    /// The fastest speed any segment claims, in km/h, and at least one.
    pub fn max_kmh(&self) -> (k: u16)
        ensures
            k >= 1,
            forall|i: int|
                0 <= i < self.speed_words().len() ==> kmh_of(#[trigger] self.speed_words()[i]) <= k,
            k == 1 || exists|i: int|
                0 <= i < self.speed_words().len() && kmh_of(#[trigger] self.speed_words()[i]) == k,
    {
        let words: &[u32] = if self.attr_dict.len() == 0 {
            self.seg_attr
        } else {
            self.attr_dict
        };
        let mut best: u16 = 1;
        let mut i: usize = 0;
        while i < words.len()
            invariant
                words@ == self.speed_words(),
                i <= words@.len(),
                best >= 1,
                forall|j: int| 0 <= j < i ==> kmh_of(#[trigger] words@[j]) <= best,
                best == 1 || exists|j: int|
                    0 <= j < words@.len() && kmh_of(#[trigger] words@[j]) == best,
            decreases words@.len() - i,
        {
            let k: u16 = attr_kmh(words[i]);
            if k > best {
                best = k;
                assert(kmh_of(words@[i as int]) == best);
            }
            i += 1;
        }
        best
    }

    pub fn n_vertices(&self) -> (n: usize)
        ensures
            n == self.nv(),
    {
        if self.head.len() == 0 {
            0
        } else {
            self.head.len() - 1
        }
    }

    pub fn n_edges(&self) -> (n: usize)
        ensures
            n == self.to@.len(),
    {
        self.to.len()
    }

    pub fn n_segments(&self) -> (n: usize)
        ensures
            n == self.ns(),
    {
        self.seg_len.len()
    }

    /// The segment's line is delimited inside the point array, and its ends
    /// are vertices.
    pub open spec fn geometry_ok(&self, sid: int) -> bool {
        &&& 0 <= sid
        &&& sid + 1 < self.geom_off@.len()
        &&& sid < self.seg_u@.len()
        &&& sid < self.seg_v@.len()
        &&& self.geom_off@[sid] <= self.geom_off@[sid + 1] <= self.geom_pts@.len()
        &&& self.seg_u@[sid] < self.vcoord@.len()
        &&& self.seg_v@[sid] < self.vcoord@.len()
    }

    /// The drawn line: its first vertex, the points between, its last vertex.
    pub open spec fn line(&self, sid: int) -> Seq<(i32, i32)> {
        seq![self.vcoord@[self.seg_u@[sid] as int]] + self.geom_pts@.subrange(
            self.geom_off@[sid] as int,
            self.geom_off@[sid + 1] as int,
        ) + seq![self.vcoord@[self.seg_v@[sid] as int]]
    }

    /// Full drawn polyline of a segment, from `seg_u` to `seg_v`.
    pub fn seg_geometry(&self, sid: usize) -> (v: Vec<(i32, i32)>)
        requires
            self.geometry_ok(sid as int),
        ensures
            v@ == self.line(sid as int),
    {
        let mut v: Vec<(i32, i32)> = Vec::new();
        v.push(self.vcoord[self.seg_u[sid] as usize]);
        let (a, b): (usize, usize) = (
            self.geom_off[sid] as usize,
            self.geom_off[sid + 1] as usize,
        );
        let mut i: usize = a;
        while i < b
            invariant
                self.geometry_ok(sid as int),
                a == self.geom_off@[sid as int],
                b == self.geom_off@[sid + 1],
                a <= i <= b,
                v@ == seq![self.vcoord@[self.seg_u@[sid as int] as int]] + self.geom_pts@.subrange(
                    a as int,
                    i as int,
                ),
            decreases b - i,
        {
            v.push(self.geom_pts[i]);
            i += 1;
            assert(v@ =~= seq![self.vcoord@[self.seg_u@[sid as int] as int]]
                + self.geom_pts@.subrange(a as int, i as int));
        }
        v.push(self.vcoord[self.seg_v[sid] as usize]);
        assert(v@ =~= self.line(sid as int));
        v
    }

    /// The bytes of name `n`.
    pub open spec fn name_bytes(&self, n: int) -> Seq<u8> {
        self.name_pool@.subrange(self.name_off@[n] as int, self.name_off@[n + 1] as int)
    }

    /// Name `n` is delimited inside the pool.
    pub open spec fn name_ok(&self, n: int) -> bool {
        &&& 0 <= n
        &&& n + 1 < self.name_off@.len()
        &&& self.name_off@[n] <= self.name_off@[n + 1] <= self.name_pool@.len()
    }

    /// The name of a segment: `None` past the last segment, where the segment
    /// carries none, and where its bytes are not text.
    pub fn street_name(&self, sid: usize) -> (r: Option<&'a str>)
        requires
            sid < self.seg_name@.len() && self.seg_name@[sid as int] != u32::MAX ==> self.name_ok(
                self.seg_name@[sid as int] as int,
            ),
        ensures
            match r {
                Some(s) => {
                    &&& sid < self.seg_name@.len()
                    &&& self.seg_name@[sid as int] != u32::MAX
                    &&& valid_utf8(self.name_bytes(self.seg_name@[sid as int] as int))
                    &&& s@ == decode_utf8(self.name_bytes(self.seg_name@[sid as int] as int))
                },
                None => sid >= self.seg_name@.len() || self.seg_name@[sid as int] == u32::MAX
                    || !valid_utf8(self.name_bytes(self.seg_name@[sid as int] as int)),
            },
    {
        if sid >= self.seg_name.len() {
            return None;
        }
        if self.seg_name[sid] == u32::MAX {
            return None;
        }
        let n: usize = self.seg_name[sid] as usize;
        assert(self.name_pool@.len() == self.name_pool.len());
        let (a, b): (usize, usize) = (self.name_off[n] as usize, self.name_off[n + 1] as usize);
        utf8(vstd::slice::slice_subrange(self.name_pool, a, b))
    }

    /// Segment ids registered in one snap-grid cell.
    pub fn cell_segments(&self, key: u64) -> (r: &'a [u32])
        requires
            cells_ok(self.snap_cell@, self.snap_off@, self.snap_seg@),
        ensures
            r@ == cell_list(self.snap_cell@, self.snap_off@, self.snap_seg@, key),
    {
        cell_slice(self.snap_cell, self.snap_off, self.snap_seg, key)
    }

    /// Major-road segments in one 1° overview cell.
    pub fn big_cell_segments(&self, key: u64) -> (r: &'a [u32])
        requires
            cells_ok(self.big_cell@, self.big_off@, self.big_seg@),
        ensures
            r@ == cell_list(self.big_cell@, self.big_off@, self.big_seg@, key),
    {
        cell_slice(self.big_cell, self.big_off, self.big_seg, key)
    }
}

/// A CSR over cells: rising keys, and one more offset than keys.
pub open spec fn cells_ok(cell: Seq<u64>, off: Seq<u32>, seg: Seq<u32>) -> bool {
    &&& ascending64(cell)
    &&& off.len() == cell.len() + 1
    &&& forall|i: int, j: int| 0 <= i <= j < off.len() ==> off[i] <= off[j]
    &&& off[off.len() - 1] <= seg.len()
}

/// What a cell holds; nothing where it is not listed.
pub open spec fn cell_list(cell: Seq<u64>, off: Seq<u32>, seg: Seq<u32>, key: u64) -> Seq<u32> {
    if exists|i: int| 0 <= i < cell.len() && cell[i] == key {
        let i = choose|i: int| 0 <= i < cell.len() && cell[i] == key;
        seg.subrange(off[i] as int, off[i + 1] as int)
    } else {
        Seq::empty()
    }
}

fn cell_slice<'b>(cell: &[u64], off: &[u32], seg: &'b [u32], key: u64) -> (r: &'b [u32])
    requires
        cells_ok(cell@, off@, seg@),
    ensures
        r@ == cell_list(cell@, off@, seg@, key),
{
    match position64(cell, key) {
        Some(i) => {
            proof {
                let j = choose|j: int| 0 <= j < cell@.len() && cell@[j] == key;
                assert(cell@[i as int] == key);
                assert(i == j);
                assert(off@[i + 1] <= off@[off@.len() - 1]);
            }
            vstd::slice::slice_subrange(seg, off[i] as usize, off[i + 1] as usize)
        },
        None => {
            let r = vstd::slice::slice_subrange(seg, 0, 0);
            assert(r@ =~= Seq::<u32>::empty());
            r
        },
    }
}

} // verus!
