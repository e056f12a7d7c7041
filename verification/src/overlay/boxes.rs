//! The box each region's vertices fall in.

use vstd::prelude::*;
use crate::overlay::shape::{
    cell_at, ladder_ok, lemma_cell_bound, lemma_rung, regions, Ladder, Overlay,
};

verus! {

/// The box of nothing: lowest and highest latitude, lowest and highest
/// longitude.
pub const EMPTY: (i32, i32, i32, i32) = (i32::MAX, i32::MIN, i32::MAX, i32::MIN);

/// The smallest box around two.
pub open spec fn merge(a: (i32, i32, i32, i32), b: (i32, i32, i32, i32)) -> (i32, i32, i32, i32) {
    (
        if b.0 < a.0 {
            b.0
        } else {
            a.0
        },
        if b.1 > a.1 {
            b.1
        } else {
            a.1
        },
        if b.2 < a.2 {
            b.2
        } else {
            a.2
        },
        if b.3 > a.3 {
            b.3
        } else {
            a.3
        },
    )
}

pub open spec fn point_box(p: (i32, i32)) -> (i32, i32, i32, i32) {
    (p.0, p.0, p.1, p.1)
}

/// The box around those of the first `n` points that belong to `c`.
pub open spec fn ground_box(pts: Seq<(i32, i32)>, of: Seq<u32>, c: int, n: int) -> (
    i32,
    i32,
    i32,
    i32,
)
    decreases n,
{
    if n <= 0 {
        EMPTY
    } else if of[n - 1] == c {
        merge(ground_box(pts, of, c, n - 1), point_box(pts[n - 1]))
    } else {
        ground_box(pts, of, c, n - 1)
    }
}

/// The box around those of the first `n` boxes below that belong to `c`, the
/// empty ones left out.
pub open spec fn upper_box(
    below: Seq<(i32, i32, i32, i32)>,
    of: Seq<u32>,
    c: int,
    n: int,
) -> (i32, i32, i32, i32)
    decreases n,
{
    if n <= 0 {
        EMPTY
    } else if of[n - 1] == c && below[n - 1].0 != i32::MAX {
        merge(upper_box(below, of, c, n - 1), below[n - 1])
    } else {
        upper_box(below, of, c, n - 1)
    }
}

/// The boxes of level `k`.
pub open spec fn boxes_of(pts: Seq<(i32, i32)>, l: Ladder, k: int) -> Seq<(i32, i32, i32, i32)>
    decreases k,
{
    Seq::new(
        regions(l[k]) as nat,
        |c: int|
            if k <= 0 {
                ground_box(pts, l[0].of, c, pts.len() as int)
            } else {
                upper_box(boxes_of(pts, l, k - 1), l[k].of, c, regions(l[k - 1]))
            },
    )
}

pub(crate) fn merged(a: (i32, i32, i32, i32), b: (i32, i32, i32, i32)) -> (r: (i32, i32, i32, i32))
    ensures
        r == merge(a, b),
{
    let lo: i32 = if b.0 < a.0 {
        b.0
    } else {
        a.0
    };
    let hi: i32 = if b.1 > a.1 {
        b.1
    } else {
        a.1
    };
    let west: i32 = if b.2 < a.2 {
        b.2
    } else {
        a.2
    };
    let east: i32 = if b.3 > a.3 {
        b.3
    } else {
        a.3
    };
    (lo, hi, west, east)
}

fn no_boxes(n: usize) -> (b: Vec<(i32, i32, i32, i32)>)
    ensures
        b@ == Seq::new(n as nat, |c: int| EMPTY),
{
    let mut b: Vec<(i32, i32, i32, i32)> = Vec::new();
    while b.len() < n
        invariant
            b@.len() <= n,
            forall|c: int| 0 <= c < b@.len() ==> #[trigger] b@[c] == EMPTY,
        decreases n - b@.len(),
    {
        b.push(EMPTY);
    }
    assert(b@ =~= Seq::new(n as nat, |c: int| EMPTY));
    b
}

fn ground_boxes(pts: &[(i32, i32)], of: &[u32], n: usize) -> (b: Vec<(i32, i32, i32, i32)>)
    requires
        pts@.len() <= of@.len(),
        forall|v: int| 0 <= v < of@.len() ==> (#[trigger] of@[v]) < n,
    ensures
        b@ == Seq::new(n as nat, |c: int| ground_box(pts@, of@, c, pts@.len() as int)),
{
    let mut b: Vec<(i32, i32, i32, i32)> = no_boxes(n);
    let mut v: usize = 0;
    while v < pts.len()
        invariant
            pts@.len() <= of@.len(),
            forall|v: int| 0 <= v < of@.len() ==> (#[trigger] of@[v]) < n,
            v <= pts@.len(),
            b@.len() == n,
            forall|c: int| 0 <= c < n ==> #[trigger] b@[c] == ground_box(pts@, of@, c, v as int),
        decreases pts@.len() - v,
    {
        let p: (i32, i32) = pts[v];
        let c: usize = of[v] as usize;
        assert(of@[v as int] < n);
        let m: (i32, i32, i32, i32) = merged(b[c], (p.0, p.0, p.1, p.1));
        b.set(c, m);
        v += 1;
    }
    assert(b@ =~= Seq::new(n as nat, |c: int| ground_box(pts@, of@, c, pts@.len() as int)));
    b
}

fn upper_boxes(below: &Vec<(i32, i32, i32, i32)>, of: &[u32], n: usize) -> (b: Vec<
    (i32, i32, i32, i32),
>)
    requires
        below@.len() == of@.len(),
        forall|v: int| 0 <= v < of@.len() ==> (#[trigger] of@[v]) < n,
    ensures
        b@ == Seq::new(n as nat, |c: int| upper_box(below@, of@, c, below@.len() as int)),
{
    let mut b: Vec<(i32, i32, i32, i32)> = no_boxes(n);
    let mut v: usize = 0;
    while v < below.len()
        invariant
            below@.len() == of@.len(),
            forall|v: int| 0 <= v < of@.len() ==> (#[trigger] of@[v]) < n,
            v <= below@.len(),
            b@.len() == n,
            forall|c: int| 0 <= c < n ==> #[trigger] b@[c] == upper_box(below@, of@, c, v as int),
        decreases below@.len() - v,
    {
        let s: (i32, i32, i32, i32) = below[v];
        let c: usize = of[v] as usize;
        assert(of@[v as int] < n);
        if s.0 != i32::MAX {
            let m: (i32, i32, i32, i32) = merged(b[c], s);
            b.set(c, m);
        }
        v += 1;
    }
    assert(b@ =~= Seq::new(n as nat, |c: int| upper_box(below@, of@, c, below@.len() as int)));
    b
}

/// Four numbers per region of every level: the box its vertices fall in.
pub fn build_geo(pts: &[(i32, i32)], ov: &Overlay) -> (r: Vec<Vec<(i32, i32, i32, i32)>>)
    requires
        ov.wf(),
        pts@.len() <= ov.ladder()[0].of.len(),
    ensures
        r@.len() == ov.ladder().len(),
        forall|k: int| 0 <= k < r@.len() ==> (#[trigger] r@[k])@ == boxes_of(pts@, ov.ladder(), k),
{
    let ghost l = ov.ladder();
    let n: usize = ov.levels.len();
    let mut r: Vec<Vec<(i32, i32, i32, i32)>> = Vec::new();
    while r.len() < n
        invariant
            ov.wf(),
            l == ov.ladder(),
            n == l.len(),
            pts@.len() <= l[0].of.len(),
            r@.len() <= n,
            forall|k: int| 0 <= k < r@.len() ==> (#[trigger] r@[k])@ == boxes_of(pts@, l, k),
        decreases n - r@.len(),
    {
        let k: usize = r.len();
        proof {
            lemma_rung(l, k as int);
            assert(ov.levels@[k as int].rung() == l[k as int]);
        }
        let m: usize = ov.levels[k].regions();
        if k == 0 {
            let b: Vec<(i32, i32, i32, i32)> = ground_boxes(pts, ov.levels[0].of, m);
            assert(b@ =~= boxes_of(pts@, l, 0));
            r.push(b);
        } else {
            proof {
                lemma_rung(l, k - 1);
                assert(r@[k - 1]@ == boxes_of(pts@, l, k - 1));
            }
            let b: Vec<(i32, i32, i32, i32)> = upper_boxes(&r[k - 1], ov.levels[k].of, m);
            assert(b@ =~= boxes_of(pts@, l, k as int));
            r.push(b);
        }
    }
    r
}

/// The point lies in the box.
pub open spec fn inside(b: (i32, i32, i32, i32), p: (i32, i32)) -> bool {
    b.0 <= p.0 <= b.1 && b.2 <= p.1 <= b.3
}

/// Vertex `v` is one of region `c` of level `k`.
pub open spec fn here(l: Ladder, k: int, c: int, v: int) -> bool {
    cell_at(l, k, v) == c
}

/// The box holds every point of the region, and each of its sides touches one;
/// a region without points has the empty box.
pub open spec fn tight(pts: Seq<(i32, i32)>, l: Ladder, k: int, c: int, n: int, b: (
    i32,
    i32,
    i32,
    i32,
)) -> bool {
    &&& forall|v: int| 0 <= v < n && #[trigger] here(l, k, c, v) ==> inside(b, pts[v])
    &&& b == EMPTY || {
        &&& exists|v: int| 0 <= v < n && #[trigger] here(l, k, c, v) && pts[v].0 == b.0
        &&& exists|v: int| 0 <= v < n && #[trigger] here(l, k, c, v) && pts[v].0 == b.1
        &&& exists|v: int| 0 <= v < n && #[trigger] here(l, k, c, v) && pts[v].1 == b.2
        &&& exists|v: int| 0 <= v < n && #[trigger] here(l, k, c, v) && pts[v].1 == b.3
    }
}

proof fn lemma_ground_tight(pts: Seq<(i32, i32)>, l: Ladder, c: int, n: int)
    requires
        0 <= n <= pts.len(),
    ensures
        tight(pts, l, 0, c, n, ground_box(pts, l[0].of, c, n)),
    decreases n,
{
    if n > 0 {
        lemma_ground_tight(pts, l, c, n - 1);
        let a = ground_box(pts, l[0].of, c, n - 1);
        let b = ground_box(pts, l[0].of, c, n);
        let p = pts[n - 1];
        assert(here(l, 0, c, n - 1) == (l[0].of[n - 1] == c));
        if here(l, 0, c, n - 1) {
            lemma_touch(pts, l, 0, c, n - 1, n, a);
            assert(inside(b, p));
            assert forall|v: int| 0 <= v < n && #[trigger] here(l, 0, c, v) implies inside(
                b,
                pts[v],
            ) by {
                if v < n - 1 {
                    assert(inside(a, pts[v]));
                }
            }
        } else {
            lemma_touch(pts, l, 0, c, n - 1, n, a);
        }
    }
}

/// What touches a side among fewer points touches it among more.
proof fn lemma_touch(pts: Seq<(i32, i32)>, l: Ladder, k: int, c: int, m: int, n: int, b: (
    i32,
    i32,
    i32,
    i32,
))
    requires
        m <= n,
        tight(pts, l, k, c, m, b),
    ensures
        b == EMPTY || {
            &&& exists|v: int| 0 <= v < n && #[trigger] here(l, k, c, v) && pts[v].0 == b.0
            &&& exists|v: int| 0 <= v < n && #[trigger] here(l, k, c, v) && pts[v].0 == b.1
            &&& exists|v: int| 0 <= v < n && #[trigger] here(l, k, c, v) && pts[v].1 == b.2
            &&& exists|v: int| 0 <= v < n && #[trigger] here(l, k, c, v) && pts[v].1 == b.3
        },
{
    if b != EMPTY {
        let v = choose|v: int| 0 <= v < m && #[trigger] here(l, k, c, v) && pts[v].0 == b.0;
        assert(here(l, k, c, v) && v < n);
        let v = choose|v: int| 0 <= v < m && #[trigger] here(l, k, c, v) && pts[v].0 == b.1;
        assert(here(l, k, c, v) && v < n);
        let v = choose|v: int| 0 <= v < m && #[trigger] here(l, k, c, v) && pts[v].1 == b.2;
        assert(here(l, k, c, v) && v < n);
        let v = choose|v: int| 0 <= v < m && #[trigger] here(l, k, c, v) && pts[v].1 == b.3;
        assert(here(l, k, c, v) && v < n);
    }
}

/// The box of the first `m` children is tight around their points.
spec fn partly(pts: Seq<(i32, i32)>, l: Ladder, k: int, c: int, m: int, b: (
    i32,
    i32,
    i32,
    i32,
)) -> bool {
    &&& forall|v: int|
        0 <= v < pts.len() && #[trigger] here(l, k, c, v) && cell_at(l, k - 1, v) < m ==> inside(
            b,
            pts[v],
        )
    &&& b == EMPTY || {
        &&& exists|v: int| 0 <= v < pts.len() && #[trigger] here(l, k, c, v) && pts[v].0 == b.0
        &&& exists|v: int| 0 <= v < pts.len() && #[trigger] here(l, k, c, v) && pts[v].0 == b.1
        &&& exists|v: int| 0 <= v < pts.len() && #[trigger] here(l, k, c, v) && pts[v].1 == b.2
        &&& exists|v: int| 0 <= v < pts.len() && #[trigger] here(l, k, c, v) && pts[v].1 == b.3
    }
}

#[verifier::rlimit(40)]
proof fn lemma_upper_tight(pts: Seq<(i32, i32)>, l: Ladder, k: int, c: int, m: int)
    requires
        ladder_ok(l),
        0 < k < l.len(),
        pts.len() <= l[0].of.len(),
        forall|v: int| 0 <= v < pts.len() ==> (#[trigger] pts[v]).0 < i32::MAX,
        0 <= m <= regions(l[k - 1]),
        forall|d: int|
            0 <= d < regions(l[k - 1]) ==> tight(
                pts,
                l,
                k - 1,
                d,
                pts.len() as int,
                #[trigger] boxes_of(pts, l, k - 1)[d],
            ),
    ensures
        partly(pts, l, k, c, m, upper_box(boxes_of(pts, l, k - 1), l[k].of, c, m)),
    decreases m,
{
    let below = boxes_of(pts, l, k - 1);
    if m <= 0 {
        assert forall|v: int|
            0 <= v < pts.len() && #[trigger] here(l, k, c, v) && cell_at(l, k - 1, v)
                < m implies inside(upper_box(below, l[k].of, c, m), pts[v]) by {
            lemma_cell_bound(l, k - 1, v);
        }
    } else {
        lemma_upper_tight(pts, l, k, c, m - 1);
        let a = upper_box(below, l[k].of, c, m - 1);
        let s = below[m - 1];
        let b = upper_box(below, l[k].of, c, m);
        let n = pts.len() as int;
        assert(tight(pts, l, k - 1, m - 1, n, s));
        if l[k].of[m - 1] == c {
            assert forall|v: int| #[trigger] here(l, k - 1, m - 1, v) implies here(l, k, c, v) by {}
            if s != EMPTY {
                let v = choose|v: int| 0 <= v < n && #[trigger] here(l, k - 1, m - 1, v)
                    && pts[v].0 == s.0;
                assert(here(l, k, c, v));
                assert(s.0 != i32::MAX);
                let w = choose|v: int| 0 <= v < n && #[trigger] here(l, k - 1, m - 1, v)
                    && pts[v].0 == s.1;
                assert(here(l, k, c, w));
                let x = choose|v: int| 0 <= v < n && #[trigger] here(l, k - 1, m - 1, v)
                    && pts[v].1 == s.2;
                assert(here(l, k, c, x));
                let y = choose|v: int| 0 <= v < n && #[trigger] here(l, k - 1, m - 1, v)
                    && pts[v].1 == s.3;
                assert(here(l, k, c, y));
                assert(inside(s, pts[v]) && inside(s, pts[w]) && inside(s, pts[x]) && inside(
                    s,
                    pts[y],
                ));
            }
        }
        assert forall|v: int|
            0 <= v < n && #[trigger] here(l, k, c, v) && cell_at(l, k - 1, v) < m implies inside(
            b,
            pts[v],
        ) by {
            if cell_at(l, k - 1, v) < m - 1 {
                assert(inside(a, pts[v]));
            } else {
                assert(here(l, k - 1, m - 1, v));
                assert(inside(s, pts[v]));
                assert(s.0 < i32::MAX);
            }
        }
    }
}

/// The box of a region holds every vertex in it and is as small as can be.
pub proof fn lemma_boxes_tight(pts: Seq<(i32, i32)>, l: Ladder, k: int, c: int)
    requires
        ladder_ok(l),
        0 <= k < l.len(),
        pts.len() <= l[0].of.len(),
        forall|v: int| 0 <= v < pts.len() ==> (#[trigger] pts[v]).0 < i32::MAX,
        0 <= c < regions(l[k]),
    ensures
        tight(pts, l, k, c, pts.len() as int, boxes_of(pts, l, k)[c]),
    decreases k,
{
    let n = pts.len() as int;
    if k == 0 {
        lemma_ground_tight(pts, l, c, n);
    } else {
        let below = boxes_of(pts, l, k - 1);
        assert forall|d: int| 0 <= d < regions(l[k - 1]) implies tight(
            pts,
            l,
            k - 1,
            d,
            n,
            #[trigger] below[d],
        ) by {
            lemma_boxes_tight(pts, l, k - 1, d);
        }
        lemma_upper_tight(pts, l, k, c, regions(l[k - 1]));
        let b = boxes_of(pts, l, k)[c];
        assert forall|v: int| 0 <= v < n && #[trigger] here(l, k, c, v) implies inside(
            b,
            pts[v],
        ) by {
            lemma_cell_bound(l, k - 1, v);
        }
    }
}

} // verus!
