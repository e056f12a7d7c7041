//! Roads and addresses are listed where they are.

use vstd::prelude::*;
use crate::addresses::entries::{Gathered, Rec};
use crate::addresses::index::{book_of, by_cell, cell_key, cell_keys, runs, AddressBook};
use crate::graph::adjacency::Side;
use crate::attr::class_at;
use crate::graph::assemble::{assembled, is_graph, main_roads, Graph, Parts};
use crate::profile::class_tier;
use crate::graph::grid::{fine, key_of, lemma_key, lemma_lines, line, on_globe, BIG_E7};
use crate::graph::snap::{
    big_pred, box_of, cells_in, fine_pred, found, group, hull, in_span, near_cell, of_point, span, CellIndex,
    Roads, MAX_CELLS,
};
use crate::laws::around::{cell_at, on_map};
use crate::ranking::Ranking;

verus! {

// --------------------------------------------------------------------- roads

/// The box around points holds each of them.
proof fn lemma_hull_holds(pts: Seq<(i32, i32)>, n: int, i: int)
    requires
        0 <= i < n <= pts.len(),
    ensures
        ({
            let b = hull(pts, n);
            b.0 <= pts[i].0 <= b.1 && b.2 <= pts[i].1 <= b.3
        }),
    decreases n,
{
    if n > 1 && i < n - 1 {
        lemma_hull_holds(pts, n - 1, i);
    } else if n > 1 {
        lemma_hull_holds(pts, n - 1, 0);
    }
}

/// The box around points on the globe is on the globe, and ends at points of
/// them.
proof fn lemma_hull_ends(pts: Seq<(i32, i32)>, n: int)
    requires
        1 <= n <= pts.len(),
        forall|i: int| 0 <= i < pts.len() ==> on_globe(#[trigger] pts[i]),
    ensures
        ({
            let b = hull(pts, n);
            -900_000_000 <= b.0 <= b.1 && -1_800_000_000 <= b.2 <= b.3
        }),
    decreases n,
{
    assert(on_globe(pts[n - 1]) && on_globe(pts[0]));
    if n > 1 {
        lemma_hull_ends(pts, n - 1);
    }
}

proof fn lemma_point_near(r: Roads, s: int, i: int)
    requires
        0 <= i < r.course(s).len(),
        forall|j: int| 0 <= j < r.course(s).len() ==> on_globe(#[trigger] r.course(s)[j]),
    ensures
        near_cell(
            r,
            s,
            key_of(
                fine(r.course(s)[i].0 as int, 900_000_000),
                fine(r.course(s)[i].1 as int, 1_800_000_000),
            ),
        ),
{
    let pts = r.course(s);
    let n = pts.len() as int;
    let p = pts[i];
    let b = box_of(r, s);
    let w = span(b, 100_000);
    lemma_hull_holds(pts, n, i);
    lemma_hull_ends(pts, n);
    assert(on_globe(p));
    lemma_lines(b.0 as int, p.0 as int, 900_000_000, 100_000);
    lemma_lines(p.0 as int, b.1 as int, 900_000_000, 100_000);
    lemma_lines(b.2 as int, p.1 as int, 1_800_000_000, 100_000);
    lemma_lines(p.1 as int, b.3 as int, 1_800_000_000, 100_000);
    let (y, x) = (
        line(p.0 as int, 900_000_000, 100_000),
        line(p.1 as int, 1_800_000_000, 100_000),
    );
    assert(fine(p.0 as int, 900_000_000) == y as u64);
    assert(fine(p.1 as int, 1_800_000_000) == x as u64);
    if cells_in(w) > MAX_CELLS {
        assert(of_point(
            pts,
            key_of(
                fine(pts[i].0 as int, 900_000_000),
                fine(pts[i].1 as int, 1_800_000_000),
            ),
        ));
    } else {
        assert(w.0 <= y <= w.1 && w.2 <= x <= w.3);
        assert(in_span(w, key_of(y as u64, x as u64)));
    }
}

/// A point lies in the span of the box around points that it is one of.
proof fn lemma_point_span(pts: Seq<(i32, i32)>, i: int, size: int)
    requires
        0 <= i < pts.len(),
        forall|j: int| 0 <= j < pts.len() ==> on_globe(#[trigger] pts[j]),
        100_000 <= size,
    ensures
        in_span(
            span(hull(pts, pts.len() as int), size),
            key_of(
                line(pts[i].0 as int, 900_000_000, size) as u64,
                line(pts[i].1 as int, 1_800_000_000, size) as u64,
            ),
        ),
{
    let n = pts.len() as int;
    let p = pts[i];
    let b = hull(pts, n);
    lemma_hull_holds(pts, n, i);
    lemma_hull_ends(pts, n);
    assert(on_globe(p));
    lemma_lines(b.0 as int, p.0 as int, 900_000_000, size);
    lemma_lines(p.0 as int, b.1 as int, 900_000_000, size);
    lemma_lines(b.2 as int, p.1 as int, 1_800_000_000, size);
    lemma_lines(p.1 as int, b.3 as int, 1_800_000_000, size);
    let w = span(b, size);
    let (y, x) = (
        line(p.0 as int, 900_000_000, size),
        line(p.1 as int, 1_800_000_000, size),
    );
    assert(w.0 <= y <= w.1 && w.2 <= x <= w.3);
    assert(in_span(w, key_of(y as u64, x as u64)));
}

/// The key of the cell that a point lies in.
pub open spec fn key_at(p: (i32, i32)) -> int {
    cell_at(p.0 as int, p.1 as int).0 * 0x1_0000_0000 + cell_at(p.0 as int, p.1 as int).1
}

proof fn lemma_key_is(p: (i32, i32))
    requires
        on_map(p.0 as int, p.1 as int),
    ensures
        key_of(fine(p.0 as int, 900_000_000), fine(p.1 as int, 1_800_000_000)) == key_at(p),
{
    let (y, x) = cell_at(p.0 as int, p.1 as int);
    assert(line(p.0 as int, 900_000_000, 100_000) == y);
    assert(line(p.1 as int, 1_800_000_000, 100_000) == x);
    lemma_key(y as u64, x as u64);
}

/// Cell `k` of an index lists `s`.
pub open spec fn listed_under(x: CellIndex, k: int, s: u32) -> bool {
    exists|i: int, j: int|
        #![trigger x.cells@[i], x.seg@[j]]
        0 <= i < x.cells@.len() && x.cells@[i] == k && x.off@[i] <= j < x.off@[i + 1] && x.seg@[j]
            == s
}

/// The point is an end of segment `s`, or one that it is drawn through.
pub open spec fn on_segment(g: Graph, s: int, p: (i32, i32)) -> bool {
    ||| p == g.vcoord@[g.su@[s] as int]
    ||| p == g.vcoord@[g.sv@[s] as int]
    ||| exists|k: int| g.off@[s] <= k < g.off@[s + 1] && p == #[trigger] g.pts@[k]
}

/// The places of vertices and the points of a graph lie on the globe.
pub open spec fn all_on_globe(g: Graph) -> bool {
    &&& forall|i: int| 0 <= i < g.vcoord@.len() ==> on_globe(#[trigger] g.vcoord@[i])
    &&& forall|i: int| 0 <= i < g.pts@.len() ==> on_globe(#[trigger] g.pts@[i])
    &&& forall|s: int|
        0 <= s < g.su@.len() ==> (#[trigger] g.su@[s]) < g.vcoord@.len() && g.sv@[s]
            < g.vcoord@.len()
}

/// The points of a segment are on the globe, and the given one is among them.
proof fn lemma_course(
    p: Parts,
    vc: Seq<(i32, i32)>,
    f: Side,
    b: Side,
    newid: Seq<u32>,
    attr: Seq<u32>,
    r: Roads,
    g: Graph,
    n: int,
    pt: (i32, i32),
) -> (i: int)
    requires
        assembled(p, vc, f, b, newid, attr, r, g),
        all_on_globe(g),
        0 <= n < p.nseg(),
        on_segment(g, n, pt),
    ensures
        0 <= i < r.course(n).len(),
        r.course(n)[i] == pt,
        forall|j: int| 0 <= j < r.course(n).len() ==> on_globe(#[trigger] r.course(n)[j]),
{
    let course = r.course(n);
    let (lo, hi) = (r.off@[n] as int, r.off@[n + 1] as int);
    assert(r.off@.len() == p.nseg() + 1);
    assert(lo <= hi);
    assert(r.off@[n + 1] <= r.off@[r.off@.len() - 1]);
    assert(hi <= r.pts@.len());
    let between = r.between(n);
    assert(between == r.pts@.subrange(lo, hi));
    assert(course[0] == r.vcoord@[r.su@[n] as int]);
    assert(course[1] == r.vcoord@[r.sv@[n] as int]);
    assert(g.su@.len() == p.nseg());
    assert(r.su@[n] < r.vcoord@.len() && r.sv@[n] < r.vcoord@.len());
    assert forall|j: int| 0 <= j < course.len() implies on_globe(#[trigger] course[j]) by {
        if j >= 2 {
            assert(course[j] == between[j - 2]);
            assert(course[j] == r.pts@[lo + j - 2]);
        }
    }
    let i: int = if pt == g.vcoord@[g.su@[n] as int] {
        0
    } else if pt == g.vcoord@[g.sv@[n] as int] {
        1
    } else {
        let k = choose|k: int| g.off@[n] <= k < g.off@[n + 1] && pt == #[trigger] g.pts@[k];
        assert(course[2 + (k - lo)] == between[k - lo]);
        2 + (k - lo)
    };
    i
}

/// Every segment of a graph is listed in the cell of each point that it is drawn
/// through, its two ends among them.
pub proof fn lemma_segment_listed(p: Parts, g: Graph, s: u32, pt: (i32, i32))
    requires
        is_graph(p, g),
        all_on_globe(g),
        s < p.nseg(),
        on_segment(g, s as int, pt),
        on_map(pt.0 as int, pt.1 as int),
    ensures
        listed_under(g.index.snap, key_at(pt), s),
{
    let (vc, f, b, newid, attr, r) = choose|
        vc: Seq<(i32, i32)>,
        f: Side,
        b: Side,
        newid: Seq<u32>,
        attr: Seq<u32>,
        r: Roads,
    | #[trigger]
        assembled(p, vc, f, b, newid, attr, r, g);
    let n = s as int;
    let i = lemma_course(p, vc, f, b, newid, attr, r, g, n, pt);
    let course = r.course(n);
    assert(course[i] == pt);
    lemma_point_near(r, n, i);
    lemma_key_is(pt);
    let key = key_of(fine(pt.0 as int, 900_000_000), fine(pt.1 as int, 1_800_000_000));
    let x = g.index.snap;
    assert(fine_pred(r)(n, key));
    assert(found(x, key, s));
    let c = choose|c: int|
        0 <= c < x.cells@.len() && x.cells@[c] == key && (#[trigger] group(
            x.off@,
            x.seg@,
            c,
        )).contains(s);
    let list = group(x.off@, x.seg@, c);
    let j = list.index_of(s);
    assert(x.off@[c] <= x.off@[c + 1]);
    assert(x.off@[c + 1] <= x.off@[x.off@.len() - 1]);
    assert(x.seg@[x.off@[c] + j] == s);
    assert(x.cells@[c] == key);
}

/// The attribute word of a segment.
pub open spec fn word_of(g: Graph, s: int) -> u32 {
    g.dict@[g.attr16@[s] as int]
}

/// The segment belongs in the overview: it is of a class of the first two tiers.
pub open spec fn is_main(g: Graph, s: int) -> bool {
    class_tier(class_at((word_of(g, s) % 16) as u8)) <= 1
}

proof fn lemma_word(
    p: Parts,
    vc: Seq<(i32, i32)>,
    f: Side,
    b: Side,
    newid: Seq<u32>,
    attr: Seq<u32>,
    r: Roads,
    g: Graph,
    s: int,
)
    requires
        assembled(p, vc, f, b, newid, attr, r, g),
        0 <= s < p.nseg(),
    ensures
        attr[s] == word_of(g, s),
{
    assert(crate::graph::renumber::apart(newid)) by {
        assert forall|x: int, y: int|
            0 <= x < newid.len() && 0 <= y < newid.len() && x != y implies #[trigger] newid[x]
            != #[trigger] newid[y] by {
            crate::graph::renumber::lemma_numbered_apart(f.seg@, newid, x, y);
        }
    }
    crate::graph::renumber::lemma_onto(newid, s);
    let o = choose|x: int| 0 <= x < newid.len() && #[trigger] newid[x] == s;
    assert(attr[newid[o] as int] == p.attr@[o]);
    assert(g.dict@[g.attr16@[newid[o] as int] as int] == p.attr@[o]);
}

/// Every segment of a main road is listed in the coarse cell of each point that
/// it is drawn through, and no other segment is listed there at all.
pub proof fn lemma_main_listed(p: Parts, g: Graph, s: u32, pt: (i32, i32))
    requires
        is_graph(p, g),
        all_on_globe(g),
        s < p.nseg(),
        on_segment(g, s as int, pt),
    ensures
        is_main(g, s as int) ==> found(
            g.index.big,
            key_of(
                line(pt.0 as int, 900_000_000, BIG_E7 as int) as u64,
                line(pt.1 as int, 1_800_000_000, BIG_E7 as int) as u64,
            ),
            s,
        ),
        !is_main(g, s as int) ==> forall|key: u64| !(#[trigger] found(g.index.big, key, s)),
{
    let (vc, f, b, newid, attr, r) = choose|
        vc: Seq<(i32, i32)>,
        f: Side,
        b: Side,
        newid: Seq<u32>,
        attr: Seq<u32>,
        r: Roads,
    | #[trigger]
        assembled(p, vc, f, b, newid, attr, r, g);
    let n = s as int;
    let i = lemma_course(p, vc, f, b, newid, attr, r, g, n, pt);
    lemma_word(p, vc, f, b, newid, attr, r, g, n);
    lemma_point_span(r.course(n), i, BIG_E7 as int);
    let main = main_roads(attr);
    assert(main[n] == is_main(g, n));
    assert forall|key: u64| #[trigger] found(g.index.big, key, s) == (s < p.nseg() && big_pred(
        r,
        main,
    )(n, key)) by {}
}

// ----------------------------------------------------------------- addresses

/// Point `x` of the book is the one gathered as `r`.
pub open spec fn booked(b: AddressBook, x: int, r: Rec) -> bool {
    &&& 0 <= x < b.coord@.len()
    &&& b.coord@[x].0 == r.lat
    &&& b.coord@[x].1 == r.lon
    &&& b.hn@[x] == r.hn
    &&& b.street@[x] == r.street
    &&& b.place@[x] == r.place
}

/// Some cell of the book has the key, and point `x` in it.
pub open spec fn in_cell(b: AddressBook, key: int, x: int) -> bool {
    exists|i: int|
        0 <= i < b.cell_key@.len() && #[trigger] b.cell_key@[i] == key && b.cell_off@[i] <= x
            < b.cell_off@[i + 1]
}

proof fn lemma_run_of(off: Seq<u32>, n: int, x: int) -> (i: int)
    requires
        n >= 0,
        off.len() > n,
        off[0] <= x < off[n],
        forall|i: int, j: int| 0 <= i < j < off.len() ==> off[i] < off[j],
    ensures
        0 <= i < n,
        off[i] <= x < off[i + 1],
    decreases n,
{
    if x >= off[n - 1] {
        n - 1
    } else {
        lemma_run_of(off, n - 1, x)
    }
}

/// Every address that was gathered is in the book once it is made, in the cell
/// of its own place, with its own number, street and place; and the book has no
/// others.
pub proof fn lemma_booked(g: Gathered, b: AddressBook, i: int) -> (x: int)
    requires
        book_of(g, b),
        0 <= i < g.recs@.len(),
        on_map(g.recs@[i].lat as int, g.recs@[i].lon as int),
    ensures
        booked(b, x, g.recs@[i]),
        in_cell(b, key_at((g.recs@[i].lat, g.recs@[i].lon)), x),
        b.coord@.len() == g.recs@.len(),
{
    let rank = choose|rank: Ranking| #[trigger]
        by_cell(g.recs@, rank, b) && runs(
            Seq::new(g.recs@.len(), |x: int| cell_keys(g.recs@)[rank.order@[x] as int]),
            b.cell_key@,
            b.cell_off@,
        );
    let keys = Seq::new(g.recs@.len(), |x: int| cell_keys(g.recs@)[rank.order@[x] as int]);
    let r = g.recs@[i];
    assert(rank.place@[i] < g.recs@.len());
    let x = rank.place@[i] as int;
    assert(rank.order@[x] == i);
    assert(b.coord@[x] == (r.lat, r.lon));
    assert(keys[x] == cell_keys(g.recs@)[i]);
    assert(keys[x] == cell_key(r));
    lemma_key_is((r.lat, r.lon));
    let c = lemma_run_of(b.cell_off@, b.cell_key@.len() as int, x);
    assert(keys[x] == b.cell_key@[c]);
    x
}

} // verus!
