//! One way, cut at its junctions.

use vstd::prelude::*;
use crate::bitmap::{ones, BitMap};
use crate::ways::record::{course_at, front_at, read_course, read_front, FrontOf};

verus! {

/// A latitude that stands for a coordinate that is not there.
pub const MISSING: i32 = i32::MIN;

/// One contracted segment.
pub struct Seg {
    pub u_node: u64,
    pub v_node: u64,
    pub attr: u32,
    pub len_cm: u32,
    /// Points of the drawn line between its two ends.
    pub geom: Vec<(i32, i32)>,
    pub raw_pts: u32,
    pub name: Vec<u8>,
}

/// What became of a piece of a way.
pub enum Piece {
    /// A node on it has no coordinate.
    Dropped,
    Segment(Seg),
}

/// The bit of an id is set.
pub open spec fn marked(m: BitMap, id: u64) -> bool {
    id < m.n_bits && m.has(id as int)
}

pub open spec fn id_of(refs: Seq<i64>, i: int) -> u64 {
    refs[i] as u64
}

/// A way is cut at node `i`.
pub open spec fn cut_at(junc: BitMap, refs: Seq<i64>, i: int) -> bool {
    marked(junc, id_of(refs, i)) || i == refs.len() - 1
}

/// The pieces from `start` on, the nodes before `i` having been looked at: the
/// first and last node of each.
pub open spec fn pieces(junc: BitMap, refs: Seq<i64>, start: int, i: int) -> Seq<(int, int)>
    decreases refs.len() - i,
{
    if i >= refs.len() {
        Seq::empty()
    } else if cut_at(junc, refs, i) {
        seq![(start, i)] + pieces(junc, refs, i, i + 1)
    } else {
        pieces(junc, refs, start, i + 1)
    }
}

/// The coordinate of a node.
pub open spec fn coord(need: BitMap, coords: Seq<(i32, i32)>, id: u64) -> (i32, i32) {
    coords[ones(need.words@, id as int)]
}

/// The node was kept and has a coordinate.
pub open spec fn known(need: BitMap, coords: Seq<(i32, i32)>, id: u64) -> bool {
    let c = coord(need, coords, id);
    marked(need, id) && c.0 != MISSING && !(c.0 == 0 && c.1 == 0)
}

/// Every node of the piece has a coordinate.
pub open spec fn complete(
    need: BitMap,
    coords: Seq<(i32, i32)>,
    refs: Seq<i64>,
    p: (int, int),
) -> bool {
    forall|k: int| p.0 <= k <= p.1 ==> known(need, coords, #[trigger] id_of(refs, k))
}

pub open spec fn line_of(
    need: BitMap,
    coords: Seq<(i32, i32)>,
    refs: Seq<i64>,
    p: (int, int),
) -> Seq<(i32, i32)> {
    Seq::new(
        (p.1 - p.0 + 1) as nat,
        |k: int| coord(need, coords, id_of(refs, p.0 + k)),
    )
}

/// The pieces that lead from one node to another, or that cannot be told: a
/// complete one that returns to its start is left out.
pub open spec fn wanted(
    need: BitMap,
    coords: Seq<(i32, i32)>,
    refs: Seq<i64>,
    ps: Seq<(int, int)>,
) -> Seq<(int, int)>
    decreases ps.len(),
{
    if ps.len() == 0 {
        Seq::empty()
    } else {
        let rest = wanted(need, coords, refs, ps.drop_last());
        let p = ps.last();
        if complete(need, coords, refs, p) && id_of(refs, p.0) == id_of(refs, p.1) {
            rest
        } else {
            rest.push(p)
        }
    }
}

/// The kept points of a line that are not its ends.
pub open spec fn inner(pts: Seq<(i32, i32)>, keep: Seq<u32>, n: int) -> Seq<(i32, i32)>
    decreases n,
{
    if n <= 0 {
        Seq::empty()
    } else {
        let rest = inner(pts, keep, n - 1);
        let k = keep[n - 1];
        if k != 0 && k != pts.len() - 1 {
            rest.push(pts[k as int])
        } else {
            rest
        }
    }
}

/// `measure` gives the length of a line and which of its points to keep.
pub open spec fn measured<F: Fn(&Vec<(i32, i32)>) -> (u32, Vec<u32>)>(
    measure: F,
    pts: Seq<(i32, i32)>,
    len: u32,
    keep: Seq<u32>,
) -> bool {
    exists|v: Vec<(i32, i32)>, m: (u32, Vec<u32>)|
        v@ == pts && m.0 == len && m.1@ == keep && #[trigger] call_ensures(measure, (&v,), m)
}

/// `measure` takes every line and keeps points of it.
#[verifier::opaque]
pub open spec fn sound<F: Fn(&Vec<(i32, i32)>) -> (u32, Vec<u32>)>(measure: F) -> bool {
    &&& forall|v: Vec<(i32, i32)>| #[trigger] call_requires(measure, (&v,))
    &&& forall|v: Vec<(i32, i32)>, m: (u32, Vec<u32>), i: int|
        #[trigger] call_ensures(measure, (&v,), m) && 0 <= i < m.1@.len() ==> (
        #[trigger] m.1@[i]) < v@.len()
}

/// The name of a way, or else its number.
pub open spec fn label(name: Seq<u8>, rf: Seq<u8>) -> Seq<u8> {
    if name.len() == 0 {
        rf
    } else {
        name
    }
}

/// What becomes of a piece.
pub open spec fn made<F: Fn(&Vec<(i32, i32)>) -> (u32, Vec<u32>)>(
    need: BitMap,
    coords: Seq<(i32, i32)>,
    refs: Seq<i64>,
    attr: u32,
    name: Seq<u8>,
    measure: F,
    p: (int, int),
    x: Piece,
) -> bool {
    if complete(need, coords, refs, p) {
        let pts = line_of(need, coords, refs, p);
        x matches Piece::Segment(s) && {
            &&& s.u_node == id_of(refs, p.0)
            &&& s.v_node == id_of(refs, p.1)
            &&& s.attr == attr
            &&& s.name@ == name
            &&& s.raw_pts == (pts.len() - 2) as u32
            &&& exists|keep: Seq<u32>|
                measured(measure, pts, s.len_cm, keep) && s.geom@ == #[trigger] inner(
                    pts,
                    keep,
                    keep.len() as int,
                )
        }
    } else {
        x is Dropped
    }
}

/// A record and what it is cut into.
#[verifier::opaque]
pub open spec fn contracted<F: Fn(&Vec<(i32, i32)>) -> (u32, Vec<u32>)>(
    rec: Seq<u8>,
    need: BitMap,
    junc: BitMap,
    coords: Seq<(i32, i32)>,
    measure: F,
    out: Seq<Piece>,
) -> bool {
    match front_at(rec, 0) {
        None => false,
        Some(f) => match course_at(rec, f.course_at) {
            None => false,
            Some((refs, e)) => {
                let ps = wanted(need, coords, refs, pieces(junc, refs, 0, 1));
                &&& out.len() == ps.len()
                &&& forall|k: int|
                    0 <= k < out.len() ==> made(
                        need,
                        coords,
                        refs,
                        f.attr as u32,
                        label(f.name, f.rf),
                        measure,
                        ps[k],
                        #[trigger] out[k],
                    )
            },
        },
    }
}

/// The record can be read.
#[verifier::opaque]
pub open spec fn readable(rec: Seq<u8>) -> bool {
    front_at(rec, 0) matches Some(f) && course_at(rec, f.course_at) is Some
}

fn copy_bytes(s: &[u8]) -> (r: Vec<u8>)
    ensures
        r@ == s@,
{
    let mut r: Vec<u8> = Vec::new();
    while r.len() < s.len()
        invariant
            r@.len() <= s@.len(),
            r@ == s@.take(r@.len() as int),
        decreases s@.len() - r@.len(),
    {
        let x: u8 = s[r.len()];
        assert(s@.take(r@.len() as int).push(x) =~= s@.take(r@.len() as int + 1));
        r.push(x);
    }
    assert(s@.take(s@.len() as int) =~= s@);
    r
}

/// The line of a piece, or nothing where a node has no coordinate.
fn find_line(need: &BitMap, coords: &[(i32, i32)], refs: &Vec<i64>, a: usize, b: usize) -> (r:
    Option<Vec<(i32, i32)>>)
    requires
        need.wf(),
        need.ranked(),
        need.room() <= u64::MAX,
        ones(need.words@, need.room()) <= coords@.len(),
        a < b < refs@.len(),
    ensures
        match r {
            None => !complete(*need, coords@, refs@, (a as int, b as int)),
            Some(v) => complete(*need, coords@, refs@, (a as int, b as int)) && v@ == line_of(
                *need,
                coords@,
                refs@,
                (a as int, b as int),
            ),
        },
{
    let ghost p = (a as int, b as int);
    let mut pts: Vec<(i32, i32)> = Vec::new();
    let m: usize = refs.len();
    let mut k: usize = a;
    while k <= b
        invariant
            need.wf(),
            need.ranked(),
            need.room() <= u64::MAX,
            ones(need.words@, need.room()) <= coords@.len(),
            a <= k <= b + 1,
            b < m == refs@.len(),
            p == (a as int, b as int),
            pts@.len() == k - a,
            forall|x: int|
                a <= x < k ==> known(*need, coords@, #[trigger] id_of(refs@, x)) && pts@[x - a]
                    == coord(*need, coords@, id_of(refs@, x)),
        decreases b + 1 - k,
    {
        let id: u64 = #[verifier::truncate] (refs[k] as u64);
        assert(id == id_of(refs@, k as int));
        if !need.get(id) {
            assert(!known(*need, coords@, id_of(refs@, k as int)));
            return None;
        }
        proof {
            crate::bitmap::lemma_ones(need.words@, id as int, id + 1);
            crate::bitmap::lemma_ones(need.words@, id + 1, need.room());
            assert(crate::bitmap::bit_at(need.words@, id as int));
        }
        let r: u64 = need.rank1(id);
        let n: usize = coords.len();
        assert(r < n);
        let c: (i32, i32) = coords[r as usize];
        if c.0 == MISSING || (c.0 == 0 && c.1 == 0) {
            assert(!known(*need, coords@, id_of(refs@, k as int)));
            return None;
        }
        pts.push(c);
        k += 1;
    }
    assert(pts@ =~= line_of(*need, coords@, refs@, p));
    Some(pts)
}

fn pick_inner(pts: &Vec<(i32, i32)>, keep: &Vec<u32>) -> (g: Vec<(i32, i32)>)
    requires
        forall|i: int| 0 <= i < keep@.len() ==> (#[trigger] keep@[i]) < pts@.len(),
    ensures
        g@ == inner(pts@, keep@, keep@.len() as int),
{
    let mut g: Vec<(i32, i32)> = Vec::new();
    let n: usize = pts.len();
    let mut i: usize = 0;
    while i < keep.len()
        invariant
            n == pts@.len(),
            forall|i: int| 0 <= i < keep@.len() ==> (#[trigger] keep@[i]) < pts@.len(),
            i <= keep@.len(),
            g@ == inner(pts@, keep@, i as int),
        decreases keep@.len() - i,
    {
        let k: u32 = keep[i];
        if k != 0 && k as usize != n - 1 {
            g.push(pts[k as usize]);
        }
        i += 1;
    }
    g
}

proof fn lemma_wanted_push(
    need: BitMap,
    coords: Seq<(i32, i32)>,
    refs: Seq<i64>,
    ps: Seq<(int, int)>,
    p: (int, int),
)
    ensures
        wanted(need, coords, refs, ps.push(p)) == (if complete(need, coords, refs, p) && id_of(
            refs,
            p.0,
        ) == id_of(refs, p.1) {
            wanted(need, coords, refs, ps)
        } else {
            wanted(need, coords, refs, ps).push(p)
        }),
{
    assert(ps.push(p).drop_last() =~= ps);
}

/// Cuts a way at its junctions. `measure` gives the length of a line in
/// centimetres and the points to draw it with. Nothing where the record is
/// broken.
#[verifier::rlimit(60)]
pub fn contract_way<F: Fn(&Vec<(i32, i32)>) -> (u32, Vec<u32>)>(
    rec: &[u8],
    coords: &[(i32, i32)],
    need: &BitMap,
    junc: &BitMap,
    measure: &F,
) -> (r: Option<Vec<Piece>>)
    requires
        need.wf(),
        need.ranked(),
        need.room() <= u64::MAX,
        junc.wf(),
        ones(need.words@, need.room()) <= coords@.len(),
        sound(*measure),
    ensures
        match r {
            None => !readable(rec@),
            Some(out) => contracted(rec@, *need, *junc, coords@, *measure, out@),
        },
{
    reveal(readable);
    let f: FrontOf = match read_front(rec, 0) {
        None => {
            return None;
        },
        Some(f) => f,
    };
    let (refs, _): (Vec<i64>, usize) = match read_course(rec, f.course_at) {
        None => {
            return None;
        },
        Some(x) => x,
    };
    let attr: u32 = #[verifier::truncate] (f.attr as u32);
    let name: &[u8] = if f.name.len() == 0 {
        f.rf
    } else {
        f.name
    };
    let ghost rv = refs@;
    let ghost lab = name@;
    assert(lab == label(f.name@, f.rf@));
    let n: usize = refs.len();
    let mut out: Vec<Piece> = Vec::new();
    let ghost mut done = Seq::<(int, int)>::empty();
    let mut start: usize = 0;
    let mut i: usize = 1;
    proof {
        let all = pieces(*junc, rv, 0, 1);
        assert(done + all =~= all);
    }
    while i < n
        invariant
            need.wf(),
            need.ranked(),
            need.room() <= u64::MAX,
            junc.wf(),
            ones(need.words@, need.room()) <= coords@.len(),
            sound(*measure),
            rv == refs@,
            n == rv.len(),
            lab == name@,
            start < i,
            n > 0 ==> start < n,
            i <= n || i == 1,
            done + pieces(*junc, rv, start as int, i as int) == pieces(*junc, rv, 0, 1),
            out@.len() == wanted(*need, coords@, rv, done).len(),
            forall|k: int|
                0 <= k < out@.len() ==> made(
                    *need,
                    coords@,
                    rv,
                    attr,
                    lab,
                    *measure,
                    wanted(*need, coords@, rv, done)[k],
                    #[trigger] out@[k],
                ),
        decreases n - i,
    {
        let id: u64 = #[verifier::truncate] (refs[i] as u64);
        let cut: bool = junc.get(id) || i == n - 1;
        assert(cut == cut_at(*junc, rv, i as int));
        if cut {
            let ghost p = (start as int, i as int);
            let ghost o0 = out@;
            let ghost w0 = wanted(*need, coords@, rv, done);
            proof {
                lemma_wanted_push(*need, coords@, rv, done, p);
                assert(done + (seq![p] + pieces(*junc, rv, i as int, i + 1)) =~= done.push(p)
                    + pieces(*junc, rv, i as int, i + 1));
            }
            let first: u64 = #[verifier::truncate] (refs[start] as u64);
            match find_line(need, coords, &refs, start, i) {
                None => {
                    out.push(Piece::Dropped);
                },
                Some(pts) => {
                    if first != id {
                        reveal(sound);
                        let (len_cm, keep): (u32, Vec<u32>) = measure(&pts);
                        proof {
                            assert(call_ensures(*measure, (&pts,), (len_cm, keep)));
                            assert forall|x: int| 0 <= x < keep@.len() implies (#[trigger] keep@[x])
                                < pts@.len() by {
                                let m = (len_cm, keep);
                                assert(call_ensures(*measure, (&pts,), m));
                                assert(m.1@[x] < pts@.len());
                            }
                            assert(measured(*measure, pts@, len_cm, keep@));
                        }
                        let geom: Vec<(i32, i32)> = pick_inner(&pts, &keep);
                        let raw_pts: u32 = #[verifier::truncate] ((pts.len() - 2) as u32);
                        let s = Seg {
                            u_node: first,
                            v_node: id,
                            attr,
                            len_cm,
                            geom,
                            raw_pts,
                            name: copy_bytes(name),
                        };
                        let x = Piece::Segment(s);
                        assert(made(*need, coords@, rv, attr, lab, *measure, p, x));
                        out.push(x);
                    }
                },
            }
            proof {
                done = done.push(p);
                let w1 = wanted(*need, coords@, rv, done);
                assert forall|k: int| 0 <= k < out@.len() implies made(
                    *need,
                    coords@,
                    rv,
                    attr,
                    lab,
                    *measure,
                    w1[k],
                    #[trigger] out@[k],
                ) by {
                    if k < o0.len() {
                        assert(made(*need, coords@, rv, attr, lab, *measure, w0[k], o0[k]));
                        assert(w1[k] == w0[k]);
                        assert(out@[k] == o0[k]);
                    }
                }
            }
            start = i;
        }
        i += 1;
    }
    assert(done + Seq::<(int, int)>::empty() =~= done);
    reveal(contracted);
    Some(out)
}

} // verus!
