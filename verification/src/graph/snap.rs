//! The grid that finds the segments near a place.

use vstd::prelude::*;
use crate::dataset::head_ok;
use crate::graph::grid::{
    big_axis, cell_axis, fine, key_of, lemma_lines, line, on_globe, BIG_E7, CELL_E7,
};
use crate::lookup::ascending;
use crate::overlay::boxes::{merge, merged, point_box};
use crate::sorting::{lemma_same_items, sort_wide, wide_le, wide_sorted};

verus! {

// ---------------------------------------------------------------- the index

/// Cell keys in rising order, and the segments of each.
pub struct CellIndex {
    pub cells: Vec<u64>,
    pub off: Vec<u32>,
    pub seg: Vec<u32>,
}

pub open spec fn group(off: Seq<u32>, seg: Seq<u32>, i: int) -> Seq<u32> {
    seg.subrange(off[i] as int, off[i + 1] as int)
}

/// Each cell once, in rising order, with the segments it is paired with, each
/// once and in rising order.
pub open spec fn indexed(
    pairs: Seq<(u64, u32)>,
    cells: Seq<u64>,
    off: Seq<u32>,
    seg: Seq<u32>,
) -> bool {
    &&& forall|i: int, j: int| 0 <= i < j < cells.len() ==> cells[i] < cells[j]
    &&& off.len() == cells.len() + 1
    &&& off[0] == 0
    &&& head_ok(off, seg.len() as int)
    &&& forall|i: int| 0 <= i < cells.len() ==> ascending(#[trigger] group(off, seg, i))
    &&& forall|i: int, s: u32|
        0 <= i < cells.len() ==> (#[trigger] group(off, seg, i).contains(s) <==> pairs.contains(
            (cells[i], s),
        ))
    &&& forall|x: int| 0 <= x < pairs.len() ==> cells.contains((#[trigger] pairs[x]).0)
}

proof fn lemma_push_contains<T>(s: Seq<T>, x: T, y: T)
    ensures
        s.push(x).contains(y) <==> s.contains(y) || x == y,
{
    if s.contains(y) {
        let i = s.index_of(y);
        assert(s.push(x)[i] == y);
    }
    if x == y {
        assert(s.push(x)[s.len() as int] == y);
    }
    if s.push(x).contains(y) {
        let i = s.push(x).index_of(y);
        if i < s.len() {
            assert(s[i] == y);
        }
    }
}

/// A pair of a cell that has not been seen.
proof fn lemma_new_cell(
    p: Seq<(u64, u32)>,
    x: (u64, u32),
    cells: Seq<u64>,
    off: Seq<u32>,
    seg: Seq<u32>,
)
    requires
        indexed(p, cells, off, seg),
        seg.len() < u32::MAX,
        forall|i: int| 0 <= i < cells.len() ==> (#[trigger] cells[i]) < x.0,
    ensures
        indexed(p.push(x), cells.push(x.0), off.push((seg.len() + 1) as u32), seg.push(x.1)),
{
    let (c2, o2, s2) = (cells.push(x.0), off.push((seg.len() + 1) as u32), seg.push(x.1));
    let n = cells.len() as int;
    assert forall|i: int| 0 <= i < n implies group(o2, s2, i) == group(off, seg, i) by {
        assert(off[i] <= off[i + 1] <= off[n]);
        assert(group(o2, s2, i) =~= group(off, seg, i));
    }
    assert(group(o2, s2, n) =~= seq![x.1]);
    assert forall|i: int| 0 <= i < c2.len() implies ascending(#[trigger] group(o2, s2, i)) by {
        if i < n {
            assert(ascending(group(off, seg, i)));
        }
    }
    assert forall|i: int, s: u32| 0 <= i < c2.len() implies (#[trigger] group(o2, s2, i).contains(s)
        <==> p.push(x).contains((c2[i], s))) by {
        lemma_push_contains(p, x, (c2[i], s));
        if i < n {
            assert(group(off, seg, i).contains(s) <==> p.contains((cells[i], s)));
        } else {
            if group(o2, s2, n).contains(s) {
                assert(s == x.1);
            }
            if s == x.1 {
                assert(group(o2, s2, n)[0] == s);
            }
            if p.contains((x.0, s)) {
                let y = p.index_of((x.0, s));
                assert(cells.contains(p[y].0));
                let z = cells.index_of(x.0);
                assert(cells[z] < x.0);
            }
        }
    }
    assert forall|y: int| 0 <= y < p.push(x).len() implies c2.contains((#[trigger] p.push(x)[y]).0) by {
        if y < p.len() {
            assert(cells.contains(p[y].0));
            lemma_push_contains(cells, x.0, p[y].0);
        } else {
            lemma_push_contains(cells, x.0, x.0);
        }
    }
    assert forall|i: int, j: int| 0 <= i <= j < o2.len() implies o2[i] <= o2[j] by {
        if j == n + 1 && i <= n {
            assert(off[i] <= off[n]);
        }
    }
}

/// Another pair of the last cell, with a higher segment or the last one again.
proof fn lemma_same_cell(
    p: Seq<(u64, u32)>,
    x: (u64, u32),
    cells: Seq<u64>,
    off: Seq<u32>,
    seg: Seq<u32>,
)
    requires
        indexed(p, cells, off, seg),
        seg.len() < u32::MAX || group(off, seg, cells.len() - 1).last() == x.1,
        cells.len() > 0,
        cells.last() == x.0,
        group(off, seg, cells.len() - 1).len() > 0,
        group(off, seg, cells.len() - 1).last() <= x.1,
    ensures
        ({
            let n = cells.len() as int;
            if group(off, seg, n - 1).last() == x.1 {
                indexed(p.push(x), cells, off, seg)
            } else {
                indexed(p.push(x), cells, off.update(n, (seg.len() + 1) as u32), seg.push(x.1))
            }
        }),
{
    let n = cells.len() as int;
    let g = group(off, seg, n - 1);
    let fresh = g.last() != x.1;
    let (o2, s2) = if fresh {
        (off.update(n, (seg.len() + 1) as u32), seg.push(x.1))
    } else {
        (off, seg)
    };
    assert forall|i: int| 0 <= i < n - 1 implies group(o2, s2, i) == group(off, seg, i) by {
        assert(off[i] <= off[i + 1] <= off[n]);
        assert(group(o2, s2, i) =~= group(off, seg, i));
    }
    let g2 = group(o2, s2, n - 1);
    assert(off[n - 1] <= off[n]);
    if fresh {
        assert(g2 =~= g.push(x.1));
    }
    assert(ascending(g));
    assert forall|i: int| 0 <= i < n implies ascending(#[trigger] group(o2, s2, i)) by {
        if i < n - 1 {
            assert(ascending(group(off, seg, i)));
        } else if fresh {
            assert forall|a: int, b: int| 0 <= a < b < g2.len() implies g2[a] < g2[b] by {
                if b == g.len() {
                    assert(g[a] <= g.last());
                }
            }
        }
    }
    assert forall|i: int, s: u32| 0 <= i < n implies (#[trigger] group(o2, s2, i).contains(s)
        <==> p.push(x).contains((cells[i], s))) by {
        lemma_push_contains(p, x, (cells[i], s));
        assert(group(off, seg, i).contains(s) <==> p.contains((cells[i], s)));
        if i == n - 1 {
            lemma_push_contains(g, x.1, s);
            if !fresh {
                assert(g[g.len() - 1] == x.1);
                assert(g.contains(x.1));
            }
        }
    }
    assert forall|y: int| 0 <= y < p.push(x).len() implies cells.contains(
        (#[trigger] p.push(x)[y]).0,
    ) by {
        if y < p.len() {
            assert(cells.contains(p[y].0));
        } else {
            assert(cells[n - 1] == x.0);
        }
    }
    assert forall|i: int, j: int| 0 <= i <= j < o2.len() implies o2[i] <= o2[j] by {
        assert(off[i] <= off[j]);
        assert(off[i] <= off[n]);
    }
}

/// One more pair is one more item, unless it was there.
proof fn lemma_items(p: Seq<(u64, u32)>, x: (u64, u32))
    ensures
        p.push(x).to_set().len() == p.to_set().len() + (if p.contains(x) {
            0int
        } else {
            1
        }),
        p.to_set().finite(),
{
    p.lemma_cardinality_of_set();
    assert(p.push(x).to_set() =~= p.to_set().insert(x)) by {
        assert forall|y: (u64, u32)| p.push(x).to_set().contains(y) == p.to_set().insert(
            x,
        ).contains(y) by {
            lemma_push_contains(p, x, y);
        }
    }
}

proof fn lemma_items_grow(p: Seq<(u64, u32)>, i: int)
    requires
        0 <= i <= p.len(),
    ensures
        p.take(i).to_set().len() <= p.to_set().len(),
{
    p.lemma_cardinality_of_set();
    assert(p.take(i).to_set().subset_of(p.to_set())) by {
        assert forall|y: (u64, u32)| p.take(i).to_set().contains(y) implies p.to_set().contains(
            y,
        ) by {
            let z = p.take(i).index_of(y);
            assert(p[z] == y);
        }
    }
    vstd::set_lib::lemma_len_subset(p.take(i).to_set(), p.to_set());
}

/// The number of entries that an index can number.
pub const MAX_ENTRIES: u64 = 0xFFFF_FFFF;

/// Groups sorted pairs by cell: a key array to search and the segments of each
/// key behind it, none twice. Nothing where there are more of them than
/// numbers.
#[verifier::rlimit(60)]
pub fn cell_index(pairs: &Vec<(u64, u32)>) -> (r: Option<CellIndex>)
    requires
        wide_sorted(pairs@),
    ensures
        match r {
            None => pairs@.to_set().len() > MAX_ENTRIES,
            Some(x) => {
                &&& indexed(pairs@, x.cells@, x.off@, x.seg@)
                &&& x.seg@.len() == pairs@.to_set().len()
                &&& x.seg@.len() <= MAX_ENTRIES
            },
        },
{
    let mut cells: Vec<u64> = Vec::new();
    let mut off: Vec<u32> = Vec::new();
    let mut seg: Vec<u32> = Vec::new();
    off.push(0);
    let mut i: usize = 0;
    assert(indexed(pairs@.take(0), cells@, off@, seg@));
    assert(pairs@.take(0).to_set() =~= Set::empty());
    while i < pairs.len()
        invariant
            wide_sorted(pairs@),
            i <= pairs@.len(),
            seg@.len() == pairs@.take(i as int).to_set().len(),
            seg@.len() <= MAX_ENTRIES,
            off@.len() == cells@.len() + 1,
            indexed(pairs@.take(i as int), cells@, off@, seg@),
            i == 0 ==> cells@.len() == 0,
            i > 0 ==> cells@.len() > 0 && cells@.last() == pairs@[i - 1].0 && seg@.len() > 0
                && seg@.last() == pairs@[i - 1].1 && off@[cells@.len() - 1] < seg@.len(),
        decreases pairs@.len() - i,
    {
        let x: (u64, u32) = pairs[i];
        let n: usize = cells.len();
        let ghost p = pairs@.take(i as int);
        let ghost (c0, o0, s0) = (cells@, off@, seg@);
        proof {
            assert(pairs@.take(i + 1) =~= p.push(x));
            lemma_items(p, x);
            lemma_items_grow(pairs@, i + 1);
            if i > 0 {
                assert(wide_le(pairs@[i - 1], pairs@[i as int]));
            }
        }
        if n == 0 || cells[n - 1] != x.0 {
            proof {
                assert forall|y: int| 0 <= y < c0.len() implies (#[trigger] c0[y]) < x.0 by {
                    assert(c0[y] <= c0[c0.len() - 1]);
                }
                if p.contains(x) {
                    let y = p.index_of(x);
                    assert(c0.contains(p[y].0));
                }
            }
            if seg.len() as u64 >= MAX_ENTRIES {
                return None;
            }
            proof {
                lemma_new_cell(p, x, c0, o0, s0);
            }
            cells.push(x.0);
            seg.push(x.1);
            off.push(seg.len() as u32);
        } else {
            proof {
                let g = group(o0, s0, n - 1);
                assert(o0[n as int] == s0.len());
                assert(g.len() > 0 && g.last() == s0.last());
                assert(g.contains(x.1) <==> p.contains((c0[n - 1], x.1)));
                assert(wide_le(pairs@[i - 1], pairs@[i as int]));
                if g.last() != x.1 && g.contains(x.1) {
                    let y = g.index_of(x.1);
                    assert(ascending(g));
                    assert(g[y] < g[g.len() - 1]);
                }
                if g.last() == x.1 {
                    assert(g[g.len() - 1] == x.1);
                }
            }
            if seg[seg.len() - 1] != x.1 && seg.len() as u64 >= MAX_ENTRIES {
                return None;
            }
            proof {
                lemma_same_cell(p, x, c0, o0, s0);
            }
            if seg[seg.len() - 1] != x.1 {
                seg.push(x.1);
                off.set(n, seg.len() as u32);
                assert(off@[n - 1] == o0[n - 1]);
            }
        }
        i += 1;
    }
    assert(pairs@.take(i as int) =~= pairs@);
    Some(CellIndex { cells, off, seg })
}

// -------------------------------------------------------------- the roads

/// The arrays that say where segments run.
pub struct Roads<'a> {
    pub vcoord: &'a [(i32, i32)],
    pub su: &'a [u32],
    pub sv: &'a [u32],
    pub off: &'a [u32],
    pub pts: &'a [(i32, i32)],
}

impl<'a> Roads<'a> {
    pub open spec fn wf(&self) -> bool {
        &&& self.su@.len() == self.sv@.len()
        &&& self.su@.len() < u32::MAX
        &&& forall|s: int|
            0 <= s < self.su@.len() ==> (#[trigger] self.su@[s]) < self.vcoord@.len()
        &&& forall|s: int|
            0 <= s < self.sv@.len() ==> (#[trigger] self.sv@[s]) < self.vcoord@.len()
        &&& forall|s: int|
            0 <= s < self.off@.len() - 1 ==> #[trigger] self.off@[s] <= self.off@[s + 1]
                <= self.pts@.len()
        &&& forall|i: int| 0 <= i < self.vcoord@.len() ==> on_globe(#[trigger] self.vcoord@[i])
        &&& forall|i: int| 0 <= i < self.pts@.len() ==> on_globe(#[trigger] self.pts@[i])
    }

    /// The drawn points between the ends of a segment.
    pub open spec fn between(&self, s: int) -> Seq<(i32, i32)> {
        if s + 1 < self.off@.len() {
            self.pts@.subrange(self.off@[s] as int, self.off@[s + 1] as int)
        } else {
            Seq::empty()
        }
    }

    /// Both ends of a segment, then the points between them.
    pub open spec fn course(&self, s: int) -> Seq<(i32, i32)> {
        seq![
            self.vcoord@[self.su@[s] as int],
            self.vcoord@[self.sv@[s] as int],
        ] + self.between(s)
    }
}

/// The box around the first `n` points.
pub open spec fn hull(pts: Seq<(i32, i32)>, n: int) -> (i32, i32, i32, i32)
    decreases n,
{
    if n <= 1 {
        point_box(pts[0])
    } else {
        merge(hull(pts, n - 1), point_box(pts[n - 1]))
    }
}

pub open spec fn box_of(r: Roads, s: int) -> (i32, i32, i32, i32) {
    hull(r.course(s), r.course(s).len() as int)
}

/// The most cells a box may touch to be entered in all of them.
pub const MAX_CELLS: u64 = 4096;

/// Lines and columns that a box touches: first and last of each.
pub open spec fn span(b: (i32, i32, i32, i32), size: int) -> (int, int, int, int) {
    (
        line(b.0 as int, 900_000_000, size),
        line(b.1 as int, 900_000_000, size),
        line(b.2 as int, 1_800_000_000, size),
        line(b.3 as int, 1_800_000_000, size),
    )
}

/// The key is one of a cell in the span.
pub open spec fn in_span(w: (int, int, int, int), key: u64) -> bool {
    exists|y: int, x: int|
        w.0 <= y <= w.1 && w.2 <= x <= w.3 && key == #[trigger] key_of(y as u64, x as u64)
}

pub open spec fn cells_in(w: (int, int, int, int)) -> int {
    (w.1 - w.0 + 1) * (w.3 - w.2 + 1)
}

/// The key is the cell of one of the points.
pub open spec fn of_point(pts: Seq<(i32, i32)>, key: u64) -> bool {
    exists|i: int|
        0 <= i < pts.len() && key == key_of(
            fine((#[trigger] pts[i]).0 as int, 900_000_000),
            fine(pts[i].1 as int, 1_800_000_000),
        )
}

/// A segment is found from a cell of the fine grid: from each that its box
/// touches or, where those are too many, from those of its points.
pub open spec fn near_cell(r: Roads, s: int, key: u64) -> bool {
    let w = span(box_of(r, s), CELL_E7 as int);
    if cells_in(w) > MAX_CELLS {
        of_point(r.course(s), key)
    } else {
        in_span(w, key)
    }
}

/// A segment of a main road is found from each cell of the coarse grid that its
/// box touches.
pub open spec fn near_big(r: Roads, main: Seq<bool>, s: int, key: u64) -> bool {
    main[s] && in_span(span(box_of(r, s), BIG_E7 as int), key)
}

/// How many entries a segment makes in the fine grid.
pub open spec fn entries_of(r: Roads, s: int) -> int {
    let w = span(box_of(r, s), CELL_E7 as int);
    if cells_in(w) > MAX_CELLS {
        r.course(s).len() as int
    } else {
        cells_in(w)
    }
}

pub open spec fn entries(r: Roads, n: int) -> int
    decreases n,
{
    if n <= 0 {
        0
    } else {
        entries(r, n - 1) + entries_of(r, n - 1)
    }
}

proof fn lemma_hull(pts: Seq<(i32, i32)>, n: int)
    requires
        1 <= n <= pts.len(),
        forall|i: int| 0 <= i < pts.len() ==> on_globe(#[trigger] pts[i]),
    ensures
        ({
            let b = hull(pts, n);
            -900_000_000 <= b.0 <= b.1 && -1_800_000_000 <= b.2 <= b.3
        }),
    decreases n,
{
    assert(on_globe(pts[n - 1]) && on_globe(pts[0]));
    if n > 1 {
        lemma_hull(pts, n - 1);
    }
}

fn course_of<'a>(r: &Roads<'a>, s: usize) -> (c: Vec<(i32, i32)>)
    requires
        r.wf(),
        s < r.su@.len(),
    ensures
        c@ == r.course(s as int),
        forall|i: int| 0 <= i < c@.len() ==> on_globe(#[trigger] c@[i]),
{
    let mut c: Vec<(i32, i32)> = Vec::new();
    assert(r.su@[s as int] < r.vcoord@.len() && r.sv@[s as int] < r.vcoord@.len());
    c.push(r.vcoord[r.su[s] as usize]);
    c.push(r.vcoord[r.sv[s] as usize]);
    let ghost ends = seq![r.vcoord@[r.su@[s as int] as int], r.vcoord@[r.sv@[s as int] as int]];
    assert(c@ =~= ends);
    let n: usize = r.off.len();
    if s + 1 < n {
        assert(n == r.off@.len());
        let ghost si = s as int;
        assert(0 <= si < r.off@.len() - 1);
        assert(r.off@[si] <= r.off@[si + 1]);
        assert(r.off@[s as int] <= r.off@[s + 1] <= r.pts@.len());
        let (a, b): (usize, usize) = (r.off[s] as usize, r.off[s + 1] as usize);
        let mut k: usize = a;
        assert(ends + r.pts@.subrange(a as int, a as int) =~= ends);
        while k < b
            invariant
                r.wf(),
                a <= k <= b <= r.pts@.len(),
                ends.len() == 2,
                c@ == ends + r.pts@.subrange(a as int, k as int),
                forall|i: int| 0 <= i < c@.len() ==> on_globe(#[trigger] c@[i]),
            decreases b - k,
        {
            c.push(r.pts[k]);
            assert(c@ =~= ends + r.pts@.subrange(a as int, k + 1));
            k += 1;
        }
    } else {
        assert(ends + Seq::<(i32, i32)>::empty() =~= ends);
    }
    c
}

fn hull_of(c: &Vec<(i32, i32)>) -> (b: (i32, i32, i32, i32))
    requires
        c@.len() >= 1,
    ensures
        b == hull(c@, c@.len() as int),
{
    let p: (i32, i32) = c[0];
    let mut b: (i32, i32, i32, i32) = (p.0, p.0, p.1, p.1);
    let mut i: usize = 1;
    while i < c.len()
        invariant
            1 <= i <= c@.len(),
            b == hull(c@, i as int),
        decreases c@.len() - i,
    {
        let q: (i32, i32) = c[i];
        b = merged(b, (q.0, q.0, q.1, q.1));
        i += 1;
    }
    b
}

/// The pairs of segment `s` are those with the keys that `p` picks.
spec fn added(old: Seq<(u64, u32)>, new: Seq<(u64, u32)>, s: u32, p: spec_fn(u64) -> bool) -> bool {
    forall|k: u64, t: u32|
        #[trigger] new.contains((k, t)) <==> old.contains((k, t)) || (t == s && p(k))
}

spec fn span_keys(w: (int, int, int, int), y: int, x: int) -> spec_fn(u64) -> bool {
    |k: u64|
        in_span((w.0, y - 1, w.2, w.3), k) || in_span((y, y, w.2, x - 1), k)
}

proof fn lemma_span_step(w: (int, int, int, int), y: int, x: int, k: u64)
    requires
        w.0 <= y <= w.1,
        w.2 <= x <= w.3,
    ensures
        span_keys(w, y, x + 1)(k) <==> span_keys(w, y, x)(k) || k == key_of(y as u64, x as u64),
{
    let (a, b) = ((y, y, w.2, x - 1), (y, y, w.2, x));
    if in_span(b, k) && !in_span(a, k) {
        let (y1, x1) = choose|y1: int, x1: int|
            b.0 <= y1 <= b.1 && b.2 <= x1 <= b.3 && k == #[trigger] key_of(y1 as u64, x1 as u64);
        if x1 < x {
            assert(k == key_of(y1 as u64, x1 as u64));
        }
        assert(x1 == x);
    }
    if in_span(a, k) {
        let (y1, x1) = choose|y1: int, x1: int|
            a.0 <= y1 <= a.1 && a.2 <= x1 <= a.3 && k == #[trigger] key_of(y1 as u64, x1 as u64);
        assert(k == key_of(y1 as u64, x1 as u64));
        assert(in_span(b, k));
    }
    if k == key_of(y as u64, x as u64) {
        assert(in_span(b, k));
    }
}

proof fn lemma_span_row(w: (int, int, int, int), y: int, k: u64)
    requires
        w.0 <= y <= w.1,
        w.2 <= w.3,
    ensures
        span_keys(w, y, w.3 + 1)(k) <==> span_keys(w, y + 1, w.2)(k),
{
    let (a, b, c) = ((w.0, y - 1, w.2, w.3), (y, y, w.2, w.3), (w.0, y, w.2, w.3));
    if in_span(a, k) {
        let (y1, x1) = choose|y1: int, x1: int|
            a.0 <= y1 <= a.1 && a.2 <= x1 <= a.3 && k == #[trigger] key_of(y1 as u64, x1 as u64);
        assert(in_span(c, k));
    }
    if in_span(b, k) {
        let (y1, x1) = choose|y1: int, x1: int|
            b.0 <= y1 <= b.1 && b.2 <= x1 <= b.3 && k == #[trigger] key_of(y1 as u64, x1 as u64);
        assert(in_span(c, k));
    }
    if in_span(c, k) {
        let (y1, x1) = choose|y1: int, x1: int|
            c.0 <= y1 <= c.1 && c.2 <= x1 <= c.3 && k == #[trigger] key_of(y1 as u64, x1 as u64);
        if y1 < y {
            assert(in_span(a, k));
        } else {
            assert(in_span(b, k));
        }
    }
    assert(!in_span((y + 1, y + 1, w.2, w.2 - 1), k));
}

spec fn span_pred(w: (int, int, int, int)) -> spec_fn(u64) -> bool {
    |k: u64| in_span(w, k)
}

spec fn point_pred(pts: Seq<(i32, i32)>) -> spec_fn(u64) -> bool {
    |k: u64| of_point(pts, k)
}

/// Pairs the segment with every cell of a span.
#[verifier::rlimit(30)]
fn push_span(
    pairs: &mut Vec<(u64, u32)>,
    s: u32,
    y0: u64,
    y1: u64,
    x0: u64,
    x1: u64,
)
    requires
        y0 <= y1 <= 0xFFFF_FFFF,
        x0 <= x1 <= 0xFFFF_FFFF,
    ensures
        added(
            old(pairs)@,
            final(pairs)@,
            s,
            span_pred((y0 as int, y1 as int, x0 as int, x1 as int)),
        ),
        final(pairs)@.len() == old(pairs)@.len() + cells_in(
            (y0 as int, y1 as int, x0 as int, x1 as int),
        ),
{
    let ghost w = (y0 as int, y1 as int, x0 as int, x1 as int);
    let ghost o = pairs@;
    let ghost cols = x1 - x0 + 1;
    let mut y: u64 = y0;
    proof {
        let none = span_keys(w, y0 as int, x0 as int);
        assert forall|k: u64| !#[trigger] none(k) by {
            assert(!in_span((w.0, w.0 - 1, w.2, w.3), k));
            assert(!in_span((w.0, w.0, w.2, w.2 - 1), k));
        }
        assert((y - y0) * cols == 0) by (nonlinear_arith)
            requires
                y == y0,
        ;
    }
    while y <= y1
        invariant
            w == (y0 as int, y1 as int, x0 as int, x1 as int),
            y0 <= y <= y1 + 1,
            y1 <= 0xFFFF_FFFF,
            x0 <= x1 <= 0xFFFF_FFFF,
            cols == x1 - x0 + 1,
            added(o, pairs@, s, span_keys(w, y as int, x0 as int)),
            pairs@.len() == o.len() + (y - y0) * cols,
        decreases y1 + 1 - y,
    {
        let mut x: u64 = x0;
        while x <= x1
            invariant
                w == (y0 as int, y1 as int, x0 as int, x1 as int),
                y0 <= y <= y1,
                y1 <= 0xFFFF_FFFF,
                x0 <= x <= x1 + 1,
                x1 <= 0xFFFF_FFFF,
                added(o, pairs@, s, span_keys(w, y as int, x as int)),
                pairs@.len() == o.len() + (y - y0) * cols + (x - x0),
            decreases x1 + 1 - x,
        {
            let ghost p0 = pairs@;
            let k: u64 = (y << 32) | x;
            pairs.push((k, s));
            proof {
                assert forall|k2: u64, t: u32|
                    #[trigger] pairs@.contains((k2, t)) <==> o.contains((k2, t)) || (t == s
                        && span_keys(w, y as int, x + 1)(k2)) by {
                    lemma_push_contains(p0, (k, s), (k2, t));
                    lemma_span_step(w, y as int, x as int, k2);
                    assert(p0.contains((k2, t)) <==> o.contains((k2, t)) || (t == s && span_keys(
                        w,
                        y as int,
                        x as int,
                    )(k2)));
                }
            }
            x += 1;
        }
        proof {
            assert((y - y0) * cols + cols == (y + 1 - y0) * cols) by (nonlinear_arith);
            let p = pairs@;
            assert forall|k2: u64, t: u32|
                #[trigger] p.contains((k2, t)) <==> o.contains((k2, t)) || (t == s && span_keys(
                    w,
                    y + 1,
                    x0 as int,
                )(k2)) by {
                lemma_span_row(w, y as int, k2);
                assert(p.contains((k2, t)) <==> o.contains((k2, t)) || (t == s && span_keys(
                    w,
                    y as int,
                    w.3 + 1,
                )(k2)));
            }
        }
        y += 1;
    }
    proof {
        let p = pairs@;
        assert forall|k2: u64, t: u32|
            #[trigger] p.contains((k2, t)) <==> o.contains((k2, t)) || (t == s && span_pred(w)(
                k2,
            )) by {
            assert(p.contains((k2, t)) <==> o.contains((k2, t)) || (t == s && span_keys(
                w,
                y as int,
                x0 as int,
            )(k2)));
            assert(!in_span((y as int, y as int, w.2, w.2 - 1), k2));
        }
    }
}

/// Pairs the segment with the cell of each point.
fn push_points(pairs: &mut Vec<(u64, u32)>, s: u32, pts: &Vec<(i32, i32)>)
    ensures
        added(old(pairs)@, final(pairs)@, s, point_pred(pts@)),
        final(pairs)@.len() == old(pairs)@.len() + pts@.len(),
{
    let ghost o = pairs@;
    let mut i: usize = 0;
    assert(pts@.take(0) =~= Seq::<(i32, i32)>::empty());
    while i < pts.len()
        invariant
            i <= pts@.len(),
            added(o, pairs@, s, point_pred(pts@.take(i as int))),
            pairs@.len() == o.len() + i,
        decreases pts@.len() - i,
    {
        let p: (i32, i32) = pts[i];
        let ghost p0 = pairs@;
        let (y, x): (u64, u64) = (cell_axis(p.0, 900_000_000), cell_axis(p.1, 1_800_000_000));
        let k: u64 = (y << 32) | x;
        pairs.push((k, s));
        proof {
            let (a, b) = (pts@.take(i as int), pts@.take(i + 1));
            assert forall|k2: u64, t: u32|
                #[trigger] pairs@.contains((k2, t)) <==> o.contains((k2, t)) || (t == s
                    && point_pred(b)(k2)) by {
                lemma_push_contains(p0, (k, s), (k2, t));
                assert(p0.contains((k2, t)) <==> o.contains((k2, t)) || (t == s && point_pred(a)(
                    k2,
                )));
                if of_point(a, k2) {
                    let j = choose|j: int|
                        0 <= j < a.len() && k2 == key_of(
                            fine((#[trigger] a[j]).0 as int, 900_000_000),
                            fine(a[j].1 as int, 1_800_000_000),
                        );
                    assert(b[j] == a[j]);
                }
                if of_point(b, k2) && k2 != k {
                    let j = choose|j: int|
                        0 <= j < b.len() && k2 == key_of(
                            fine((#[trigger] b[j]).0 as int, 900_000_000),
                            fine(b[j].1 as int, 1_800_000_000),
                        );
                    assert(j < i);
                    assert(a[j] == b[j]);
                }
                assert(b[i as int] == p);
            }
        }
        i += 1;
    }
    assert(pts@.take(i as int) =~= pts@);
}

/// The pairs hold each of the first `n` segments with the cells it is found
/// from.
spec fn covers(pairs: Seq<(u64, u32)>, n: int, p: spec_fn(int, u64) -> bool) -> bool {
    forall|k: u64, t: u32| #[trigger] pairs.contains((k, t)) <==> t < n && p(t as int, k)
}

/// The places where the first `n` segments stand in a grid, none twice.
pub open spec fn places_in(p: spec_fn(int, u64) -> bool, n: int) -> Set<(u64, u32)> {
    Set::new(|x: (u64, u32)| x.1 < n && p(x.1 as int, x.0))
}

pub open spec fn fine_pred(r: Roads) -> spec_fn(int, u64) -> bool {
    |s: int, k: u64| near_cell(r, s, k)
}

pub open spec fn big_pred(r: Roads, main: Seq<bool>) -> spec_fn(int, u64) -> bool {
    |s: int, k: u64| near_big(r, main, s, k)
}

/// Segment `s` stands under cell `k` of the index.
pub open spec fn found(x: CellIndex, k: u64, s: u32) -> bool {
    exists|i: int|
        0 <= i < x.cells@.len() && x.cells@[i] == k && (#[trigger] group(
            x.off@,
            x.seg@,
            i,
        )).contains(s)
}

/// The index finds from each cell the segments that it should, in order.
pub open spec fn index_of(x: CellIndex, n: int, p: spec_fn(int, u64) -> bool) -> bool {
    &&& forall|i: int, j: int| 0 <= i < j < x.cells@.len() ==> x.cells@[i] < x.cells@[j]
    &&& x.off@.len() == x.cells@.len() + 1
    &&& x.off@[0] == 0
    &&& head_ok(x.off@, x.seg@.len() as int)
    &&& forall|i: int|
        0 <= i < x.cells@.len() ==> ascending(#[trigger] group(x.off@, x.seg@, i))
    &&& forall|k: u64, s: u32| #[trigger] found(x, k, s) <==> s < n && p(s as int, k)
}

fn finish(pairs: Vec<(u64, u32)>, n: usize, Ghost(p): Ghost<spec_fn(int, u64) -> bool>) -> (r:
    Option<CellIndex>)
    requires
        covers(pairs@, n as int, p),
    ensures
        match r {
            None => places_in(p, n as int).len() > MAX_ENTRIES,
            Some(x) => index_of(x, n as int, p) && places_in(p, n as int).len() <= MAX_ENTRIES,
        },
{
    let mut pairs: Vec<(u64, u32)> = pairs;
    let ghost p0 = pairs@;
    sort_wide(&mut pairs);
    proof {
        lemma_same_items(pairs@, p0);
        assert(pairs@.to_set() =~= places_in(p, n as int)) by {
            assert forall|y: (u64, u32)| pairs@.to_set().contains(y) == places_in(
                p,
                n as int,
            ).contains(y) by {
                assert(p0.contains((y.0, y.1)) <==> y.1 < n && p(y.1 as int, y.0));
                assert(pairs@.contains(y) <==> p0.contains(y));
            }
        }
    }
    let x: CellIndex = match cell_index(&pairs) {
        None => {
            return None;
        },
        Some(x) => x,
    };
    proof {
        assert forall|k: u64, s: u32| #[trigger] found(x, k, s) <==> s < n && p(s as int, k) by {
            assert(p0.contains((k, s)) <==> s < n && p(s as int, k));
            assert(pairs@.contains((k, s)) <==> p0.contains((k, s)));
            if found(x, k, s) {
                let i = choose|i: int|
                    0 <= i < x.cells@.len() && x.cells@[i] == k && (#[trigger] group(
                        x.off@,
                        x.seg@,
                        i,
                    )).contains(s);
                assert(pairs@.contains((x.cells@[i], s)));
            }
            if pairs@.contains((k, s)) {
                let y = pairs@.index_of((k, s));
                assert(x.cells@.contains(pairs@[y].0));
                let i = x.cells@.index_of(k);
                assert(group(x.off@, x.seg@, i).contains(s));
            }
        }
    }
    Some(x)
}

/// What the snap index comes to.
pub struct SnapIndex {
    pub snap: CellIndex,
    pub big: CellIndex,
    /// Entries made in the fine grid.
    pub entries: u64,
    /// Segments entered at their points only.
    pub oversized: u64,
}

/// How many of the first `n` segments have too large a box.
pub open spec fn oversized(r: Roads, n: int) -> int
    decreases n,
{
    if n <= 0 {
        0
    } else {
        oversized(r, n - 1) + if cells_in(span(box_of(r, n - 1), CELL_E7 as int)) > MAX_CELLS {
            1int
        } else {
            0
        }
    }
}

proof fn lemma_entries(r: Roads, m: int, n: int)
    requires
        r.wf(),
        0 <= m <= n <= r.su@.len(),
    ensures
        0 <= entries(r, m) <= entries(r, n),
        0 <= oversized(r, m) <= m,
    decreases n,
{
    if m < n {
        lemma_entries(r, m, n - 1);
        lemma_course(r, n - 1);
    } else if n > 0 {
        lemma_entries(r, n - 1, n - 1);
        lemma_course(r, n - 1);
    }
}

proof fn lemma_course(r: Roads, s: int)
    requires
        r.wf(),
        0 <= s < r.su@.len(),
    ensures
        forall|i: int| 0 <= i < r.course(s).len() ==> on_globe(#[trigger] r.course(s)[i]),
        r.course(s).len() >= 2,
        entries_of(r, s) >= 1,
{
    let c = r.course(s);
    assert(r.su@[s] < r.vcoord@.len() && r.sv@[s] < r.vcoord@.len());
    assert(on_globe(r.vcoord@[r.su@[s] as int]) && on_globe(r.vcoord@[r.sv@[s] as int]));
    if s + 1 < r.off@.len() {
        assert(r.off@[s] <= r.off@[s + 1] <= r.pts@.len());
    }
    assert forall|i: int| 0 <= i < c.len() implies on_globe(#[trigger] c[i]) by {
        if i >= 2 {
            assert(c[i] == r.between(s)[i - 2]);
            assert(on_globe(r.pts@[r.off@[s] + i - 2]));
        }
    }
    lemma_hull(c, c.len() as int);
    let b = box_of(r, s);
    lemma_lines(b.0 as int, b.1 as int, 900_000_000, CELL_E7 as int);
    lemma_lines(b.2 as int, b.3 as int, 1_800_000_000, CELL_E7 as int);
    let w = span(b, CELL_E7 as int);
    assert(cells_in(w) >= 1) by (nonlinear_arith)
        requires
            w.0 <= w.1,
            w.2 <= w.3,
            cells_in(w) == (w.1 - w.0 + 1) * (w.3 - w.2 + 1),
    ;
}

/// Enters every segment in each grid cell its box touches; `main` says which
/// belong in the overview. A segment whose box is too large, a ferry, is
/// entered at its points. Nothing where more entries remain than there are
/// numbers, each counted once.
#[verifier::rlimit(80)]
pub fn build_snap_index(r: &Roads, main: &Vec<bool>) -> (res: Option<SnapIndex>)
    requires
        r.wf(),
        main@.len() == r.su@.len(),
    ensures
        match res {
            None => places_in(fine_pred(*r), r.su@.len() as int).len() > MAX_ENTRIES || places_in(
                big_pred(*r, main@),
                r.su@.len() as int,
            ).len() > MAX_ENTRIES,
            Some(x) => {
                &&& places_in(fine_pred(*r), r.su@.len() as int).len() <= MAX_ENTRIES
                &&& places_in(big_pred(*r, main@), r.su@.len() as int).len() <= MAX_ENTRIES
                &&& index_of(x.snap, r.su@.len() as int, fine_pred(*r))
                &&& index_of(x.big, r.su@.len() as int, big_pred(*r, main@))
                &&& x.entries == entries(*r, r.su@.len() as int)
                &&& x.oversized == oversized(*r, r.su@.len() as int)
            },
        },
{
    let n: usize = r.su.len();
    let mut pairs: Vec<(u64, u32)> = Vec::new();
    let mut big: Vec<(u64, u32)> = Vec::new();
    let mut over: u64 = 0;
    let ghost fp = fine_pred(*r);
    let ghost bp = big_pred(*r, main@);
    let mut s: usize = 0;
    while s < n
        invariant
            r.wf(),
            n == r.su@.len(),
            main@.len() == n,
            fp == fine_pred(*r),
            bp == big_pred(*r, main@),
            s <= n,
            covers(pairs@, s as int, fp),
            covers(big@, s as int, bp),
            pairs@.len() == entries(*r, s as int),
            over == oversized(*r, s as int),
            over <= s,
        decreases n - s,
    {
        let c: Vec<(i32, i32)> = course_of(r, s);
        let b: (i32, i32, i32, i32) = hull_of(&c);
        let ghost w = span(box_of(*r, s as int), CELL_E7 as int);
        proof {
            lemma_course(*r, s as int);
            lemma_hull(c@, c@.len() as int);
            lemma_lines(b.0 as int, b.1 as int, 900_000_000, CELL_E7 as int);
            lemma_lines(b.1 as int, b.1 as int, 900_000_000, CELL_E7 as int);
            lemma_lines(b.2 as int, b.3 as int, 1_800_000_000, CELL_E7 as int);
            lemma_lines(b.3 as int, b.3 as int, 1_800_000_000, CELL_E7 as int);
            lemma_entries(*r, s + 1, n as int);
        }
        let (y0, y1): (u64, u64) = (cell_axis(b.0, 900_000_000), cell_axis(b.1, 900_000_000));
        let (x0, x1): (u64, u64) = (cell_axis(b.2, 1_800_000_000), cell_axis(b.3, 1_800_000_000));
        assert(w == (y0 as int, y1 as int, x0 as int, x1 as int));
        assert((y1 - y0 + 1) * (x1 - x0 + 1) <= 42_951 * 42_951) by (nonlinear_arith)
            requires
                1 <= y1 - y0 + 1 <= 42_951,
                1 <= x1 - x0 + 1 <= 42_951,
        ;
        let ghost p0 = pairs@;
        let cells: u64 = (y1 - y0 + 1) * (x1 - x0 + 1);
        if cells > MAX_CELLS {
            over = over + 1;
            push_points(&mut pairs, s as u32, &c);
            proof {
                lemma_cover(p0, pairs@, s as int, fp, point_pred(c@));
            }
        } else {
            push_span(&mut pairs, s as u32, y0, y1, x0, x1);
            proof {
                lemma_cover(p0, pairs@, s as int, fp, span_pred(w));
            }
        }
        let ghost b0 = big@;
        if main[s] {
            let ghost v = span(box_of(*r, s as int), BIG_E7 as int);
            proof {
                lemma_lines(b.0 as int, b.1 as int, 900_000_000, BIG_E7 as int);
                lemma_lines(b.1 as int, b.1 as int, 900_000_000, BIG_E7 as int);
                lemma_lines(b.2 as int, b.3 as int, 1_800_000_000, BIG_E7 as int);
                lemma_lines(b.3 as int, b.3 as int, 1_800_000_000, BIG_E7 as int);
            }
            let (v0, v1): (u64, u64) = (big_axis(b.0, 900_000_000), big_axis(b.1, 900_000_000));
            let (h0, h1): (u64, u64) = (
                big_axis(b.2, 1_800_000_000),
                big_axis(b.3, 1_800_000_000),
            );
            push_span(&mut big, s as u32, v0, v1, h0, h1);
            proof {
                assert(v == (v0 as int, v1 as int, h0 as int, h1 as int));
                lemma_cover(b0, big@, s as int, bp, span_pred(v));
            }
        } else {
            proof {
                assert forall|k: u64, t: u32| #[trigger] big@.contains((k, t)) <==> t < s + 1 && bp(
                    t as int,
                    k,
                ) by {
                    assert(b0.contains((k, t)) <==> t < s && bp(t as int, k));
                }
            }
        }
        s += 1;
    }
    let entries: u64 = pairs.len() as u64;
    let big: CellIndex = match finish(big, n, Ghost(bp)) {
        None => {
            return None;
        },
        Some(x) => x,
    };
    let snap: CellIndex = match finish(pairs, n, Ghost(fp)) {
        None => {
            return None;
        },
        Some(x) => x,
    };
    Some(SnapIndex { snap, big, entries, oversized: over })
}

proof fn lemma_cover(
    old: Seq<(u64, u32)>,
    new: Seq<(u64, u32)>,
    s: int,
    p: spec_fn(int, u64) -> bool,
    q: spec_fn(u64) -> bool,
)
    requires
        0 <= s < u32::MAX,
        covers(old, s, p),
        added(old, new, s as u32, q),
        forall|k: u64| q(k) == #[trigger] p(s, k),
    ensures
        covers(new, s + 1, p),
{
    assert forall|k: u64, t: u32| #[trigger] new.contains((k, t)) <==> t < s + 1 && p(t as int, k) by {
        assert(old.contains((k, t)) <==> t < s && p(t as int, k));
        assert(q(k) == p(s, k));
    }
}

} // verus!
