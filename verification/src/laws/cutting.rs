//! How a way is cut into segments.

use vstd::prelude::*;
use crate::bitmap::BitMap;
use crate::contract::cut::{
    complete, contracted, coord, cut_at, id_of, inner, known, label, line_of, made, marked, measured,
    pieces, sound, wanted, Piece,
};
use crate::ways::record::{front_at, lemma_record_kept, steps_fit, way_record};

verus! {

/// The nodes from `a` to `b` lie between two neighbouring junctions of the way,
/// its first and last node counting as such.
pub open spec fn is_span(junc: BitMap, refs: Seq<i64>, a: int, b: int) -> bool {
    &&& 0 <= a < b < refs.len()
    &&& a == 0 || marked(junc, refs[a] as u64)
    &&& b == refs.len() - 1 || marked(junc, refs[b] as u64)
    &&& forall|k: int| a < k < b ==> !marked(junc, #[trigger] id_of(refs, k))
}

proof fn lemma_pieces(junc: BitMap, refs: Seq<i64>, start: int, i: int)
    requires
        0 <= start < i,
        start == 0 || marked(junc, refs[start] as u64),
        forall|k: int| start < k < i && k < refs.len() ==> !marked(junc, #[trigger] id_of(refs, k)),
        start < refs.len() - 1 ==> i <= refs.len() - 1,
    ensures
        forall|x: int|
            0 <= x < pieces(junc, refs, start, i).len() ==> {
                let p = #[trigger] pieces(junc, refs, start, i)[x];
                is_span(junc, refs, p.0, p.1) && p.0 >= start
            },
        forall|x: int, y: int|
            0 <= x < y < pieces(junc, refs, start, i).len() ==> (#[trigger] pieces(
                junc,
                refs,
                start,
                i,
            )[x]).1 <= (#[trigger] pieces(junc, refs, start, i)[y]).0,
        forall|a: int, b: int|
            a >= start && #[trigger] is_span(junc, refs, a, b) ==> pieces(
                junc,
                refs,
                start,
                i,
            ).contains((a, b)),
    decreases refs.len() - i,
{
    let all = pieces(junc, refs, start, i);
    if i >= refs.len() {
        assert forall|a: int, b: int| a >= start && #[trigger] is_span(junc, refs, a, b) implies false by {
            assert(start < refs.len() - 1);
        }
    } else if cut_at(junc, refs, i) {
        assert(marked(junc, id_of(refs, i)) || i == refs.len() - 1);
        if i == refs.len() - 1 {
            assert(pieces(junc, refs, i, i + 1) =~= Seq::<(int, int)>::empty());
            assert(all =~= seq![(start, i)]);
            assert(is_span(junc, refs, start, i));
            assert(all.len() == 1 && all[0] == (start, i));
            assert forall|x: int| 0 <= x < all.len() implies ({
                let p = #[trigger] all[x];
                is_span(junc, refs, p.0, p.1) && p.0 >= start
            }) by {
                assert(x == 0);
            }
            assert forall|a: int, b: int|
                a >= start && #[trigger] is_span(junc, refs, a, b) implies all.contains((a, b)) by {
                if a > start {
                    assert(!marked(junc, id_of(refs, a)));
                } else if b < i {
                    assert(!marked(junc, id_of(refs, b)));
                }
                assert(all[0] == (a, b));
            }
        } else {
            lemma_pieces(junc, refs, i, i + 1);
            let rest = pieces(junc, refs, i, i + 1);
            assert(all == seq![(start, i)] + rest);
            assert(is_span(junc, refs, start, i));
            assert forall|x: int| 0 <= x < all.len() implies ({
                let p = #[trigger] all[x];
                is_span(junc, refs, p.0, p.1) && p.0 >= start
            }) by {
                if x > 0 {
                    assert(all[x] == rest[x - 1]);
                }
            }
            assert forall|x: int, y: int| 0 <= x < y < all.len() implies (#[trigger] all[x]).1 <= (
            #[trigger] all[y]).0 by {
                assert(all[y] == rest[y - 1]);
                if x > 0 {
                    assert(all[x] == rest[x - 1]);
                }
            }
            assert forall|a: int, b: int|
                a >= start && #[trigger] is_span(junc, refs, a, b) implies all.contains((a, b)) by {
                if a >= i {
                    assert(rest.contains((a, b)));
                    let k = rest.index_of((a, b));
                    assert(all[k + 1] == (a, b));
                } else {
                    if a > start {
                        assert(!marked(junc, id_of(refs, a)));
                    }
                    if b < i {
                        assert(!marked(junc, id_of(refs, b)));
                    }
                    if b > i {
                        assert(!marked(junc, id_of(refs, i)));
                    }
                    assert(all[0] == (a, b));
                }
            }
        }
    } else {
        lemma_pieces(junc, refs, start, i + 1);
        assert(all == pieces(junc, refs, start, i + 1));
    }
}

/// A piece that is driven in a ring, from a node back to it.
pub open spec fn is_ring(
    need: BitMap,
    coords: Seq<(i32, i32)>,
    refs: Seq<i64>,
    p: (int, int),
) -> bool {
    complete(need, coords, refs, p) && refs[p.0] as u64 == refs[p.1] as u64
}

proof fn lemma_wanted(need: BitMap, coords: Seq<(i32, i32)>, refs: Seq<i64>, ps: Seq<(int, int)>)
    ensures
        forall|p: (int, int)|
            #[trigger] wanted(need, coords, refs, ps).contains(p) <==> ps.contains(p) && !is_ring(
                need,
                coords,
                refs,
                p,
            ),
    decreases ps.len(),
{
    let all = wanted(need, coords, refs, ps);
    if ps.len() > 0 {
        let p0 = ps.drop_last();
        lemma_wanted(need, coords, refs, p0);
        let rest = wanted(need, coords, refs, p0);
        assert forall|p: (int, int)| #[trigger] all.contains(p) <==> ps.contains(p) && !is_ring(
            need,
            coords,
            refs,
            p,
        ) by {
            assert(ps.contains(p) <==> p0.contains(p) || p == ps.last()) by {
                if ps.contains(p) {
                    let k = ps.index_of(p);
                    if k < p0.len() {
                        assert(p0[k] == p);
                    }
                }
                if p0.contains(p) {
                    let k = p0.index_of(p);
                    assert(ps[k] == p);
                }
                if p == ps.last() {
                    assert(ps[ps.len() - 1] == p);
                }
            }
            assert(rest.contains(p) <==> p0.contains(p) && !is_ring(need, coords, refs, p));
            if rest.contains(p) {
                let k = rest.index_of(p);
                assert(all[k] == p);
            }
            if all.contains(p) {
                let k = all.index_of(p);
                if k < rest.len() {
                    assert(rest[k] == p);
                }
            }
            if p == ps.last() && !is_ring(need, coords, refs, p) {
                assert(all[rest.len() as int] == p);
            }
        }
    }
}

/// What becomes of the nodes from `a` to `b`: a segment between the two, with
/// the attributes of the way and its name, or its number where it has no name;
/// or nothing where the place of a node is not known.
pub open spec fn becomes(
    need: BitMap,
    coords: Seq<(i32, i32)>,
    refs: Seq<i64>,
    attr: u32,
    name: Seq<u8>,
    rf: Seq<u8>,
    a: int,
    b: int,
    x: Piece,
) -> bool {
    if forall|k: int| a <= k <= b ==> known(need, coords, #[trigger] id_of(refs, k)) {
        x matches Piece::Segment(s) && {
            &&& s.u_node == refs[a] as u64
            &&& s.v_node == refs[b] as u64
            &&& s.attr == attr
            &&& name.len() > 0 ==> s.name@ == name
            &&& name.len() == 0 ==> s.name@ == rf
            &&& s.raw_pts == (b - a - 1) as u32
            &&& forall|i: int|
                0 <= i < s.geom@.len() ==> passed(need, coords, refs, a, b, #[trigger] s.geom@[i])
        }
    } else {
        x is Dropped
    }
}

/// The point is the place of a node strictly between the two.
pub open spec fn passed(
    need: BitMap,
    coords: Seq<(i32, i32)>,
    refs: Seq<i64>,
    a: int,
    b: int,
    p: (i32, i32),
) -> bool {
    exists|k: int| a < k < b && p == coord(need, coords, #[trigger] id_of(refs, k))
}

proof fn lemma_inner(pts: Seq<(i32, i32)>, keep: Seq<u32>, n: int, i: int) -> (k: int)
    requires
        0 <= n <= keep.len(),
        forall|j: int| 0 <= j < keep.len() ==> (#[trigger] keep[j]) < pts.len(),
        0 <= i < inner(pts, keep, n).len(),
    ensures
        0 < k < pts.len() - 1,
        inner(pts, keep, n)[i] == pts[k],
    decreases n,
{
    let rest = inner(pts, keep, n - 1);
    assert(keep[n - 1] < pts.len());
    if i < rest.len() {
        lemma_inner(pts, keep, n - 1, i)
    } else {
        keep[n - 1] as int
    }
}

proof fn lemma_made<F: Fn(&Vec<(i32, i32)>) -> (u32, Vec<u32>)>(
    need: BitMap,
    coords: Seq<(i32, i32)>,
    refs: Seq<i64>,
    attr: u32,
    name: Seq<u8>,
    rf: Seq<u8>,
    measure: F,
    p: (int, int),
    x: Piece,
)
    requires
        sound(measure),
        p.0 < p.1,
        made(need, coords, refs, attr, label(name, rf), measure, p, x),
    ensures
        becomes(need, coords, refs, attr, name, rf, p.0, p.1, x),
{
    if complete(need, coords, refs, p) {
        reveal(sound);
        let s = x->Segment_0;
        let pts = line_of(need, coords, refs, p);
        let keep = choose|keep: Seq<u32>|
            measured(measure, pts, s.len_cm, keep) && s.geom@ == #[trigger] inner(
                pts,
                keep,
                keep.len() as int,
            );
        assert(s.geom@ == inner(pts, keep, keep.len() as int));
        assert forall|j: int| 0 <= j < keep.len() implies (#[trigger] keep[j]) < pts.len() by {
            let (v, m) = choose|v: Vec<(i32, i32)>, m: (u32, Vec<u32>)|
                v@ == pts && m.0 == s.len_cm && m.1@ == keep && #[trigger] call_ensures(
                    measure,
                    (&v,),
                    m,
                );
            assert(m.1@[j] < v@.len());
        }
        assert forall|i: int| 0 <= i < s.geom@.len() implies passed(
            need,
            coords,
            refs,
            p.0,
            p.1,
            #[trigger] s.geom@[i],
        ) by {
            let k = lemma_inner(pts, keep, keep.len() as int, i);
            assert(pts[k] == coord(need, coords, id_of(refs, p.0 + k)));
        }
    }
}

/// Some piece is what becomes of these nodes.
pub open spec fn comes_of(
    need: BitMap,
    coords: Seq<(i32, i32)>,
    refs: Seq<i64>,
    attr: u32,
    name: Seq<u8>,
    rf: Seq<u8>,
    out: Seq<Piece>,
    a: int,
    b: int,
) -> bool {
    exists|k: int|
        0 <= k < out.len() && becomes(need, coords, refs, attr, name, rf, a, b, #[trigger] out[k])
}

/// A piece is what becomes of some nodes between neighbouring junctions.
pub open spec fn is_cut(
    need: BitMap,
    junc: BitMap,
    coords: Seq<(i32, i32)>,
    refs: Seq<i64>,
    attr: u32,
    name: Seq<u8>,
    rf: Seq<u8>,
    x: Piece,
) -> bool {
    exists|a: int, b: int|
        #[trigger] is_span(junc, refs, a, b) && becomes(
            need,
            coords,
            refs,
            attr,
            name,
            rf,
            a,
            b,
            x,
        ) && !is_ring(need, coords, refs, (a, b))
}

/// A way is cut at its junctions and nowhere else: every stretch between two
/// neighbouring ones becomes a segment, unless it only leads back to where it
/// began; and every segment is such a stretch.
pub proof fn lemma_way_cut<F: Fn(&Vec<(i32, i32)>) -> (u32, Vec<u32>)>(
    id: u64,
    attr: u32,
    name: Seq<u8>,
    rf: Seq<u8>,
    refs: Seq<i64>,
    need: BitMap,
    junc: BitMap,
    coords: Seq<(i32, i32)>,
    measure: F,
    out: Seq<Piece>,
)
    requires
        steps_fit(refs),
        2 <= refs.len() <= u64::MAX,
        name.len() <= u64::MAX,
        rf.len() <= u64::MAX,
        sound(measure),
        contracted(way_record(id, attr, name, rf, refs), need, junc, coords, measure, out),
    ensures
        forall|k: int|
            0 <= k < out.len() ==> is_cut(
                need,
                junc,
                coords,
                refs,
                attr,
                name,
                rf,
                #[trigger] out[k],
            ),
        forall|a: int, b: int|
            #[trigger] is_span(junc, refs, a, b) && !is_ring(need, coords, refs, (a, b))
                ==> comes_of(need, coords, refs, attr, name, rf, out, a, b),
{
    let e = Seq::<u8>::empty();
    let rec = way_record(id, attr, name, rf, refs);
    lemma_record_kept(e, id, attr, name, rf, refs, e);
    assert(e + rec + e =~= rec);
    reveal(contracted);
    let f = front_at(rec, 0)->0;
    let all = pieces(junc, refs, 0, 1);
    let ps = wanted(need, coords, refs, all);
    lemma_pieces(junc, refs, 0, 1);
    lemma_wanted(need, coords, refs, all);
    assert forall|k: int| 0 <= k < out.len() implies is_cut(
        need,
        junc,
        coords,
        refs,
        attr,
        name,
        rf,
        #[trigger] out[k],
    ) by {
        let p = ps[k];
        assert(ps.contains(p));
        let x = all.index_of(p);
        assert(all[x] == p);
        assert(is_span(junc, refs, p.0, p.1));
        assert(made(need, coords, refs, attr, label(name, rf), measure, p, out[k]));
        lemma_made(need, coords, refs, attr, name, rf, measure, p, out[k]);
        assert(becomes(need, coords, refs, attr, name, rf, p.0, p.1, out[k]));
        assert(!is_ring(need, coords, refs, (p.0, p.1)));
    }
    assert forall|a: int, b: int|
        #[trigger] is_span(junc, refs, a, b) && !is_ring(need, coords, refs, (a, b)) implies comes_of(
        need,
        coords,
        refs,
        attr,
        name,
        rf,
        out,
        a,
        b,
    ) by {
        assert(all.contains((a, b)));
        assert(ps.contains((a, b)));
        let k = ps.index_of((a, b));
        assert(made(need, coords, refs, attr, label(name, rf), measure, ps[k], out[k]));
        lemma_made(need, coords, refs, attr, name, rf, measure, ps[k], out[k]);
        assert(becomes(need, coords, refs, attr, name, rf, a, b, out[k]));
    }
}

} // verus!
