//! The line that a route is drawn with.

use vstd::prelude::*;
use crate::dataset::Dataset;
use crate::router::route::{Leg, Route};

verus! {

/// The points of a leg in the order in which it is driven.
pub open spec fn leg_line(ds: Dataset, leg: Leg) -> Seq<(i32, i32)> {
    let line = ds.line(leg.seg as int);
    if leg.reverse {
        line.reverse()
    } else {
        line
    }
}

/// What is drawn of leg `i` of `n`: the first and the last are entered and left
/// in the middle, so the first does not begin with its end, nor the last end
/// with it.
pub open spec fn leg_part(ds: Dataset, legs: Seq<Leg>, i: int) -> Seq<(i32, i32)> {
    let line = leg_line(ds, legs[i]);
    let a: int = if i == 0 {
        1
    } else {
        0
    };
    let e: int = if i == legs.len() - 1 {
        line.len() - 1
    } else {
        line.len() as int
    };
    if a <= e {
        line.subrange(a, e)
    } else {
        Seq::empty()
    }
}

/// Where the route begins, and the parts of its first `n` legs.
pub open spec fn drawn_to(ds: Dataset, r: Route, n: int) -> Seq<(i32, i32)>
    decreases n,
{
    if n <= 0 {
        seq![(r.from.lat_e7, r.from.lon_e7)]
    } else {
        drawn_to(ds, r, n - 1) + leg_part(ds, r.legs@, n - 1)
    }
}

/// No point twice in a row.
pub open spec fn unrepeated(s: Seq<(i32, i32)>) -> Seq<(i32, i32)>
    decreases s.len(),
{
    if s.len() == 0 {
        Seq::empty()
    } else {
        let rest = unrepeated(s.drop_last());
        if rest.len() > 0 && rest.last() == s.last() {
            rest
        } else {
            rest.push(s.last())
        }
    }
}

/// The line of a route.
pub open spec fn sketched(ds: Dataset, r: Route, v: Seq<(i32, i32)>) -> bool {
    v == unrepeated(drawn_to(ds, r, r.legs@.len() as int).push((r.to.lat_e7, r.to.lon_e7)))
}

/// Adds a point unless it is the last one again.
fn add_point(out: &mut Vec<(i32, i32)>, p: (i32, i32), Ghost(s): Ghost<Seq<(i32, i32)>>)
    requires
        old(out)@ == unrepeated(s),
    ensures
        final(out)@ == unrepeated(s.push(p)),
{
    proof {
        assert(s.push(p).drop_last() =~= s);
    }
    let n: usize = out.len();
    if n > 0 {
        let q: (i32, i32) = out[n - 1];
        if q.0 == p.0 && q.1 == p.1 {
            return;
        }
    }
    out.push(p);
}

/// The points of a route's line: where it begins and ends, and between them
/// those of its legs, none twice in a row.
pub fn route_points(ds: &Dataset, r: &Route) -> (v: Vec<(i32, i32)>)
    requires
        forall|i: int|
            0 <= i < r.legs@.len() ==> ds.geometry_ok((#[trigger] r.legs@[i]).seg as int),
    ensures
        sketched(*ds, *r, v@),
{
    let mut out: Vec<(i32, i32)> = Vec::new();
    let ghost none = Seq::<(i32, i32)>::empty();
    add_point(&mut out, (r.from.lat_e7, r.from.lon_e7), Ghost(none));
    assert(none.push((r.from.lat_e7, r.from.lon_e7)) =~= drawn_to(*ds, *r, 0));
    let n: usize = r.legs.len();
    let mut i: usize = 0;
    while i < n
        invariant
            n == r.legs@.len(),
            i <= n,
            forall|i: int|
                0 <= i < r.legs@.len() ==> ds.geometry_ok((#[trigger] r.legs@[i]).seg as int),
            out@ == unrepeated(drawn_to(*ds, *r, i as int)),
        decreases n - i,
    {
        let (seg, reverse): (u32, bool) = (r.legs[i].seg, r.legs[i].reverse);
        assert(ds.geometry_ok(r.legs@[i as int].seg as int));
        let pts: Vec<(i32, i32)> = ds.seg_geometry(seg as usize);
        let m: usize = pts.len();
        let ghost line = leg_line(*ds, r.legs@[i as int]);
        let ghost part = leg_part(*ds, r.legs@, i as int);
        let ghost before = drawn_to(*ds, *r, i as int);
        let a: usize = if i == 0 {
            1
        } else {
            0
        };
        let e: usize = if i == n - 1 && m > 0 {
            m - 1
        } else {
            m
        };
        let mut j: usize = a;
        assert(before + part.take(0) =~= before);
        while j < e
            invariant
                m == pts@.len(),
                line.len() == m,
                pts@ == ds.line(seg as int),
                line == (if reverse {
                    pts@.reverse()
                } else {
                    pts@
                }),
                e <= m,
                a <= j,
                j <= e || a > e,
                a <= e ==> part == line.subrange(a as int, e as int),
                j <= e ==> out@ == unrepeated(before + part.take(j - a)),
                a > e ==> j == a && out@ == unrepeated(before),
            decreases e - j,
        {
            let p: (i32, i32) = if reverse {
                pts[m - 1 - j]
            } else {
                pts[j]
            };
            add_point(&mut out, p, Ghost(before + part.take(j - a)));
            proof {
                assert(part[j - a] == p);
                assert((before + part.take(j - a)).push(p) =~= before + part.take(j + 1 - a));
            }
            j += 1;
        }
        proof {
            if a <= e {
                assert(part.take(e - a) =~= part);
            } else {
                assert(before + part =~= before);
            }
        }
        i += 1;
    }
    add_point(&mut out, (r.to.lat_e7, r.to.lon_e7), Ghost(drawn_to(*ds, *r, n as int)));
    out
}

/// A point and the next differ.
pub open spec fn apart_at(s: Seq<(i32, i32)>, i: int) -> bool {
    s[i] != s[i + 1]
}

/// A line begins where the route does and ends where it does, and no point
/// comes twice in a row.
pub proof fn lemma_line_ends(s: Seq<(i32, i32)>)
    requires
        s.len() > 0,
    ensures
        unrepeated(s).len() > 0,
        unrepeated(s)[0] == s[0],
        unrepeated(s).last() == s.last(),
        forall|i: int| 0 <= i < unrepeated(s).len() - 1 ==> #[trigger] apart_at(unrepeated(s), i),
    decreases s.len(),
{
    let rest = unrepeated(s.drop_last());
    let all = unrepeated(s);
    if s.len() > 1 {
        lemma_line_ends(s.drop_last());
        assert forall|i: int| 0 <= i < all.len() - 1 implies #[trigger] apart_at(all, i) by {
            if i < rest.len() - 1 {
                assert(apart_at(rest, i));
                assert(all[i] == rest[i] && all[i + 1] == rest[i + 1]);
            } else {
                assert(all[i] == rest.last());
            }
        }
    } else {
        assert(s.drop_last() =~= Seq::empty());
        assert(rest =~= Seq::empty());
    }
}

} // verus!
