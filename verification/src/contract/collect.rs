//! The segments of all ways, gathered into arrays.

use vstd::prelude::*;
use crate::attr::attr_oneway;
use crate::bitmap::{ones, BitMap};
use crate::contract::cut::{contract_way, contracted, marked, readable, sound, Piece, Seg};
use crate::dataset::head_ok;
use crate::graph::adjacency::REVERSED;
use crate::intern::Pool;
use crate::ways::record::{front_at, record_end, skip_way, way_hashes, way_key};

verus! {

/// A segment as it is counted.
pub struct SegModel {
    pub u_node: u64,
    pub v_node: u64,
    pub attr: u32,
    pub len_cm: u32,
    pub geom: Seq<(i32, i32)>,
    pub raw_pts: u32,
    pub name: Seq<u8>,
}

pub open spec fn model(s: Seg) -> SegModel {
    SegModel {
        u_node: s.u_node,
        v_node: s.v_node,
        attr: s.attr,
        len_cm: s.len_cm,
        geom: s.geom@,
        raw_pts: s.raw_pts,
        name: s.name@,
    }
}

/// The segments among pieces, in order.
pub open spec fn segments(ps: Seq<Piece>) -> Seq<SegModel>
    decreases ps.len(),
{
    if ps.len() == 0 {
        Seq::empty()
    } else {
        let rest = segments(ps.drop_last());
        match ps.last() {
            Piece::Dropped => rest,
            Piece::Segment(s) => rest.push(model(s)),
        }
    }
}

pub open spec fn dropped(ps: Seq<Piece>) -> int
    decreases ps.len(),
{
    if ps.len() == 0 {
        0
    } else {
        dropped(ps.drop_last()) + if ps.last() is Dropped {
            1int
        } else {
            0
        }
    }
}

/// The directed edges of segments: one way, the other, or both.
pub open spec fn edges_of(segs: Seq<SegModel>, junc: BitMap) -> Seq<(u32, u32, u32)>
    decreases segs.len(),
{
    if segs.len() == 0 {
        Seq::empty()
    } else {
        let rest = edges_of(segs.drop_last(), junc);
        let s = segs.last();
        let sid = (segs.len() - 1) as u32;
        let u = ones(junc.words@, s.u_node as int) as u32;
        let v = ones(junc.words@, s.v_node as int) as u32;
        let back = (sid + REVERSED) as u32;
        let way = (s.attr / 16) % 4;
        if way == 1 {
            rest.push((u, v, sid))
        } else if way == 2 {
            rest.push((v, u, back))
        } else {
            rest.push((u, v, sid)).push((v, u, back))
        }
    }
}

/// The names of segments, each once, in the order in which they come up.
pub open spec fn names_of(segs: Seq<SegModel>) -> Seq<Seq<u8>>
    decreases segs.len(),
{
    if segs.len() == 0 {
        Seq::empty()
    } else {
        let rest = names_of(segs.drop_last());
        let n = segs.last().name;
        if n.len() == 0 || rest.contains(n) {
            rest
        } else {
            rest.push(n)
        }
    }
}

/// All drawn points, one segment after another.
pub open spec fn points_of(segs: Seq<SegModel>) -> Seq<(i32, i32)>
    decreases segs.len(),
{
    if segs.len() == 0 {
        Seq::empty()
    } else {
        points_of(segs.drop_last()) + segs.last().geom
    }
}

pub open spec fn raw_of(segs: Seq<SegModel>) -> int
    decreases segs.len(),
{
    if segs.len() == 0 {
        0
    } else {
        raw_of(segs.drop_last()) + segs.last().raw_pts
    }
}

/// Why ways could not be gathered.
#[derive(Clone, Copy, PartialEq, Eq, Debug, Structural)]
pub enum Stop {
    /// A record is broken.
    Broken,
    /// More segments or points than there are numbers for.
    TooMany,
}

/// The arrays of all segments, and the index of ways.
pub struct Collected {
    pub len_cm: Vec<u32>,
    pub attr: Vec<u32>,
    /// Number of the name, or `u32::MAX`.
    pub name: Vec<u32>,
    pub pts: Vec<(i32, i32)>,
    pub off: Vec<u32>,
    pub edges: Vec<(u32, u32, u32)>,
    pub names: Pool,
    pub way_id: Vec<u64>,
    pub way_hash: Vec<u64>,
    pub way_topo: Vec<u64>,
    pub way_head: Vec<u32>,
    pub dropped_incomplete: u64,
    pub raw_points: u64,
}

impl Collected {
    /// The arrays hold these segments.
    #[verifier::opaque]
    pub open spec fn holds(&self, segs: Seq<SegModel>, junc: BitMap) -> bool {
        &&& segs.len() < REVERSED
        &&& self.len_cm@.len() == segs.len()
        &&& self.attr@.len() == segs.len()
        &&& self.name@.len() == segs.len()
        &&& forall|s: int|
            0 <= s < segs.len() ==> #[trigger] self.len_cm@[s] == segs[s].len_cm
        &&& forall|s: int| 0 <= s < segs.len() ==> #[trigger] self.attr@[s] == segs[s].attr
        &&& self.names.wf()
        &&& self.names.all() == names_of(segs)
        &&& forall|s: int|
            0 <= s < segs.len() ==> if segs[s].name.len() == 0 {
                #[trigger] self.name@[s] == u32::MAX
            } else {
                self.name@[s] < self.names.size() && self.names.text(self.name@[s] as int)
                    == segs[s].name
            }
        &&& self.pts@ == points_of(segs)
        &&& self.off@.len() == segs.len() + 1
        &&& self.off@[0] == 0
        &&& head_ok(self.off@, self.pts@.len() as int)
        &&& forall|s: int|
            0 <= s < segs.len() ==> self.pts@.subrange(
                #[trigger] self.off@[s] as int,
                self.off@[s + 1] as int,
            ) == segs[s].geom
        &&& self.edges@ == edges_of(segs, junc)
        &&& self.raw_points == raw_of(segs) || raw_of(segs) > u64::MAX
    }
}

fn start() -> (c: Collected)
    ensures
        c.way_id@.len() == 0,
        c.way_hash@.len() == 0,
        c.way_topo@.len() == 0,
        c.way_head@ == seq![0u32],
        c.dropped_incomplete == 0,
        forall|junc: BitMap| #[trigger] c.holds(Seq::empty(), junc),
{
    let mut off: Vec<u32> = Vec::new();
    off.push(0);
    let mut way_head: Vec<u32> = Vec::new();
    way_head.push(0);
    let c = Collected {
        len_cm: Vec::new(),
        attr: Vec::new(),
        name: Vec::new(),
        pts: Vec::new(),
        off,
        edges: Vec::new(),
        names: Pool::new(),
        way_id: Vec::new(),
        way_hash: Vec::new(),
        way_topo: Vec::new(),
        way_head,
        dropped_incomplete: 0,
        raw_points: 0,
    };
    assert(c.way_head@ =~= seq![0u32]);
    assert forall|junc: BitMap| #[trigger] c.holds(Seq::empty(), junc) by {
        reveal(Collected::holds);
        assert(c.pts@ =~= Seq::<(i32, i32)>::empty());
        assert(c.edges@ =~= Seq::<(u32, u32, u32)>::empty());
    }
    c
}

/// The way index and the count of what was dropped say nothing of segments.
proof fn lemma_holds_same(a: Collected, b: Collected, segs: Seq<SegModel>, junc: BitMap)
    requires
        a.holds(segs, junc),
        b.len_cm == a.len_cm,
        b.attr == a.attr,
        b.name == a.name,
        b.pts == a.pts,
        b.off == a.off,
        b.edges == a.edges,
        b.names == a.names,
        b.raw_points == a.raw_points,
    ensures
        b.holds(segs, junc),
{
    reveal(Collected::holds);
}

proof fn lemma_names(segs: Seq<SegModel>)
    ensures
        names_of(segs).len() <= segs.len(),
    decreases segs.len(),
{
    if segs.len() > 0 {
        lemma_names(segs.drop_last());
    }
}

/// There are no numbers for one more segment, or for its points.
pub open spec fn crowded(segs: Seq<SegModel>, s: SegModel) -> bool {
    segs.len() + 1 >= REVERSED || points_of(segs).len() + s.geom.len() > u32::MAX
}

/// What the arrays of segments are sure to be.
proof fn lemma_held(c: Collected, segs: Seq<SegModel>, junc: BitMap)
    requires
        c.holds(segs, junc),
    ensures
        segs.len() < REVERSED,
        c.len_cm@.len() == segs.len(),
        c.pts@.len() <= u32::MAX,
        c.pts@ == points_of(segs),
        c.names.wf(),
        c.names.all() == names_of(segs),
{
    reveal(Collected::holds);
    assert(c.off@[segs.len() as int] == c.pts@.len());
}

/// A segment appended to every array.
#[verifier::rlimit(60)]
#[verifier::spinoff_prover]
proof fn lemma_added(
    o: Collected,
    c: Collected,
    segs: Seq<SegModel>,
    m: SegModel,
    junc: BitMap,
    nid: u32,
    u: u32,
    v: u32,
)
    requires
        o.holds(segs, junc),
        segs.len() + 1 < REVERSED,
        o.pts@.len() + m.geom.len() <= u32::MAX,
        c.len_cm@ == o.len_cm@.push(m.len_cm),
        c.attr@ == o.attr@.push(m.attr),
        c.name@ == o.name@.push(nid),
        c.pts@ == o.pts@ + m.geom,
        c.off@ == o.off@.push((o.pts@.len() + m.geom.len()) as u32),
        c.raw_points == o.raw_points + m.raw_pts || (c.raw_points == u64::MAX && o.raw_points
            + m.raw_pts > u64::MAX),
        m.raw_pts >= 0,
        c.names.wf(),
        c.names.all() == names_of(segs.push(m)),
        m.name.len() == 0 ==> nid == u32::MAX,
        m.name.len() > 0 ==> nid < c.names.size() && c.names.text(nid as int) == m.name,
        forall|i: int|
            0 <= i < o.names.size() ==> i < c.names.size() && #[trigger] c.names.all()[i]
                == o.names.all()[i],
        u == ones(junc.words@, m.u_node as int),
        v == ones(junc.words@, m.v_node as int),
        c.edges@ == ({
            let sid = segs.len() as u32;
            let way = (m.attr / 16) % 4;
            if way == 1 {
                o.edges@.push((u, v, sid))
            } else if way == 2 {
                o.edges@.push((v, u, (sid + REVERSED) as u32))
            } else {
                o.edges@.push((u, v, sid)).push((v, u, (sid + REVERSED) as u32))
            }
        }),
    ensures
        c.holds(segs.push(m), junc),
{
    reveal(Collected::holds);
    let all = segs.push(m);
    assert(all.drop_last() =~= segs);
    assert(c.edges@ =~= edges_of(all, junc));
    assert(c.pts@ =~= points_of(all));
    assert forall|t: int| 0 <= t < all.len() implies c.pts@.subrange(
        #[trigger] c.off@[t] as int,
        c.off@[t + 1] as int,
    ) == all[t].geom by {
        if t < segs.len() {
            assert(o.off@[t] <= o.off@[t + 1] <= o.off@[segs.len() as int]);
            assert(o.pts@.subrange(o.off@[t] as int, o.off@[t + 1] as int) == segs[t].geom);
            assert(c.pts@.subrange(c.off@[t] as int, c.off@[t + 1] as int) =~= segs[t].geom);
        } else {
            assert(c.pts@.subrange(c.off@[t] as int, c.off@[t + 1] as int) =~= m.geom);
        }
    }
    assert forall|t: int| 0 <= t < all.len() implies #[trigger] c.len_cm@[t] == all[t].len_cm by {
        if t < segs.len() {
            assert(o.len_cm@[t] == segs[t].len_cm);
        }
    }
    assert forall|t: int| 0 <= t < all.len() implies #[trigger] c.attr@[t] == all[t].attr by {
        if t < segs.len() {
            assert(o.attr@[t] == segs[t].attr);
        }
    }
    assert forall|t: int| 0 <= t < all.len() implies if all[t].name.len() == 0 {
        #[trigger] c.name@[t] == u32::MAX
    } else {
        c.name@[t] < c.names.size() && c.names.text(c.name@[t] as int) == all[t].name
    } by {
        if t < segs.len() {
            assert(o.name@[t] == c.name@[t]);
            if segs[t].name.len() > 0 {
                let x = o.name@[t] as int;
                assert(o.names.all()[x] == segs[t].name);
                assert(c.names.all()[x] == o.names.all()[x]);
                assert(c.names.all()[x] == c.names.text(x));
            }
        }
    }
}

/// Appends one segment; false where there are no numbers left.
#[verifier::rlimit(40)]
fn add_segment(c: &mut Collected, s: Seg, junc: &BitMap, Ghost(segs): Ghost<Seq<SegModel>>) -> (fine:
    bool)
    requires
        old(c).holds(segs, *junc),
        junc.wf(),
        junc.ranked(),
        junc.room() <= u64::MAX,
        s.u_node <= junc.room(),
        s.v_node <= junc.room(),
        ones(junc.words@, junc.room()) <= u32::MAX,
    ensures
        fine ==> final(c).holds(segs.push(model(s)), *junc),
        !fine ==> crowded(segs, model(s)),
        final(c).way_id@ == old(c).way_id@,
        final(c).way_hash@ == old(c).way_hash@,
        final(c).way_topo@ == old(c).way_topo@,
        final(c).way_head@ == old(c).way_head@,
        final(c).dropped_incomplete == old(c).dropped_incomplete,
{
    proof {
        lemma_held(*c, segs, *junc);
    }
    let n: usize = c.len_cm.len();
    let have: usize = c.pts.len();
    let more: usize = s.geom.len();
    if n as u32 >= REVERSED - 1 || more > (u32::MAX as usize - have) {
        return false;
    }
    let ghost o = *c;
    let ghost m = model(s);
    let sid: u32 = n as u32;
    let nid: u32 = if s.name.len() == 0 {
        u32::MAX
    } else {
        proof {
            lemma_names(segs);
        }
        c.names.intern(&s.name)
    };
    let ghost nm = c.names;
    proof {
        lemma_intern(o.names, c.names, segs, m, nid);
    }
    c.len_cm.push(s.len_cm);
    c.attr.push(s.attr);
    c.name.push(nid);
    let mut k: usize = 0;
    assert(o.pts@ + s.geom@.take(0) =~= o.pts@);
    while k < more
        invariant
            more == s.geom@.len(),
            k <= more,
            c.pts@ == o.pts@ + s.geom@.take(k as int),
            c.len_cm@ == o.len_cm@.push(s.len_cm),
            c.attr@ == o.attr@.push(s.attr),
            c.name@ == o.name@.push(nid),
            c.names == nm,
            c.off@ == o.off@,
            c.edges@ == o.edges@,
            c.way_id@ == o.way_id@,
            c.way_hash@ == o.way_hash@,
            c.way_topo@ == o.way_topo@,
            c.way_head@ == o.way_head@,
            c.dropped_incomplete == o.dropped_incomplete,
            c.raw_points == o.raw_points,
        decreases more - k,
    {
        c.pts.push(s.geom[k]);
        assert(c.pts@ =~= o.pts@ + s.geom@.take(k + 1));
        k += 1;
    }
    assert(s.geom@.take(more as int) =~= s.geom@);
    c.off.push((have + more) as u32);
    c.raw_points = c.raw_points.saturating_add(s.raw_pts as u64);
    proof {
        crate::bitmap::lemma_ones(junc.words@, s.u_node as int, junc.room());
        crate::bitmap::lemma_ones(junc.words@, s.v_node as int, junc.room());
    }
    let u: u32 = junc.rank1(s.u_node) as u32;
    let v: u32 = junc.rank1(s.v_node) as u32;
    let way: u8 = attr_oneway(s.attr);
    if way == 1 {
        c.edges.push((u, v, sid));
    } else if way == 2 {
        c.edges.push((v, u, sid + REVERSED));
    } else {
        c.edges.push((u, v, sid));
        c.edges.push((v, u, sid + REVERSED));
    }
    proof {
        lemma_added(o, *c, segs, m, *junc, nid, u, v);
    }
    true
}

proof fn lemma_intern(a: Pool, b: Pool, segs: Seq<SegModel>, m: SegModel, nid: u32)
    requires
        a.wf(),
        b.wf(),
        a.all() == names_of(segs),
        if m.name.len() == 0 {
            b == a
        } else {
            b.all() == (if a.all().contains(m.name) {
                a.all()
            } else {
                a.all().push(m.name)
            })
        },
    ensures
        b.all() == names_of(segs.push(m)),
        a.size() <= b.size(),
        forall|i: int| 0 <= i < a.size() ==> #[trigger] b.all()[i] == a.all()[i],
{
    assert(segs.push(m).drop_last() =~= segs);
    assert(a.all().len() == a.size());
    assert(b.all().len() == b.size());
}

/// The records from `p` on: where each begins, and ends.
pub open spec fn records(ways: Seq<u8>, p: int, n: nat) -> Option<Seq<(int, int)>>
    decreases n,
{
    if p >= ways.len() {
        Some(Seq::empty())
    } else if n == 0 {
        None
    } else {
        match record_end(ways, p) {
            None => None,
            Some(e) => match records(ways, e, (n - 1) as nat) {
                None => None,
                Some(rest) => Some(seq![(p, e)] + rest),
            },
        }
    }
}

pub open spec fn record_of(ways: Seq<u8>, r: (int, int)) -> Seq<u8> {
    ways.subrange(r.0, r.1)
}

/// The segments of the first `n` ways.
pub open spec fn flat(lots: Seq<Seq<Piece>>, n: int) -> Seq<SegModel>
    decreases n,
{
    if n <= 0 {
        Seq::empty()
    } else {
        flat(lots, n - 1) + segments(lots[n - 1])
    }
}

pub open spec fn lost(lots: Seq<Seq<Piece>>, n: int) -> int
    decreases n,
{
    if n <= 0 {
        0
    } else {
        lost(lots, n - 1) + dropped(lots[n - 1])
    }
}

/// The way index: identity, both hashes, and where each way's segments begin.
pub open spec fn way_indexed(
    ways: Seq<u8>,
    recs: Seq<(int, int)>,
    lots: Seq<Seq<Piece>>,
    c: Collected,
) -> bool {
    &&& c.way_id@.len() == recs.len()
    &&& c.way_hash@.len() == recs.len()
    &&& c.way_topo@.len() == recs.len()
    &&& c.way_head@.len() == recs.len() + 1
    &&& forall|w: int|
        0 <= w <= recs.len() ==> #[trigger] c.way_head@[w] == flat(lots, w).len()
    &&& forall|w: int|
        0 <= w < recs.len() ==> way_key(record_of(ways, #[trigger] recs[w])) == Some(
            (c.way_id@[w], c.way_hash@[w], c.way_topo@[w]),
        )
}

/// The collection holds what the ways are cut into.
#[verifier::opaque]
pub open spec fn collected<F: Fn(&Vec<(i32, i32)>) -> (u32, Vec<u32>)>(
    ways: Seq<u8>,
    need: BitMap,
    junc: BitMap,
    coords: Seq<(i32, i32)>,
    measure: F,
    recs: Seq<(int, int)>,
    lots: Seq<Seq<Piece>>,
    c: Collected,
) -> bool {
    &&& lots.len() == recs.len()
    &&& forall|w: int|
        0 <= w < recs.len() ==> contracted(
            record_of(ways, #[trigger] recs[w]),
            need,
            junc,
            coords,
            measure,
            lots[w],
        )
    &&& c.holds(flat(lots, recs.len() as int), junc)
    &&& way_indexed(ways, recs, lots, c)
    &&& c.dropped_incomplete == lost(lots, recs.len() as int) || lost(lots, recs.len() as int)
        > u64::MAX
}

proof fn lemma_flat_push(lots: Seq<Seq<Piece>>, x: Seq<Piece>, n: int)
    requires
        0 <= n <= lots.len(),
    ensures
        flat(lots.push(x), n) == flat(lots, n),
        lost(lots.push(x), n) == lost(lots, n),
    decreases n,
{
    if n > 0 {
        lemma_flat_push(lots, x, n - 1);
    }
}

proof fn lemma_lost(lots: Seq<Seq<Piece>>, n: int)
    requires
        0 <= n <= lots.len(),
    ensures
        lost(lots, n) >= 0,
    decreases n,
{
    if n > 0 {
        lemma_lost(lots, n - 1);
        lemma_dropped(lots[n - 1]);
    }
}

proof fn lemma_dropped(ps: Seq<Piece>)
    ensures
        0 <= dropped(ps) <= ps.len(),
    decreases ps.len(),
{
    if ps.len() > 0 {
        lemma_dropped(ps.drop_last());
    }
}

/// The ends of a piece are nodes that have a bit.
proof fn lemma_ends<F: Fn(&Vec<(i32, i32)>) -> (u32, Vec<u32>)>(
    rec: Seq<u8>,
    need: BitMap,
    junc: BitMap,
    coords: Seq<(i32, i32)>,
    measure: F,
    out: Seq<Piece>,
    k: int,
)
    requires
        contracted(rec, need, junc, coords, measure, out),
        0 <= k < out.len(),
    ensures
        out[k] matches Piece::Segment(s) ==> marked(need, s.u_node) && marked(need, s.v_node),
{
    reveal(contracted);
    let f = front_at(rec, 0)->0;
    if let Some((refs, e)) = crate::ways::record::course_at(rec, f.course_at) {
        let ps = crate::contract::cut::wanted(
            need,
            coords,
            refs,
            crate::contract::cut::pieces(junc, refs, 0, 1),
        );
        assert(crate::contract::cut::made(
            need,
            coords,
            refs,
            f.attr as u32,
            crate::contract::cut::label(f.name, f.rf),
            measure,
            ps[k],
            out[k],
        ));
        lemma_pieces_order(junc, refs, 0, 1);
        lemma_wanted_from(need, coords, refs, crate::contract::cut::pieces(junc, refs, 0, 1), k);
        let p = ps[k];
        if crate::contract::cut::complete(need, coords, refs, p) {
            assert(crate::contract::cut::known(
                need,
                coords,
                crate::contract::cut::id_of(refs, p.0),
            ));
            assert(crate::contract::cut::known(
                need,
                coords,
                crate::contract::cut::id_of(refs, p.1),
            ));
        }
    }
}

proof fn lemma_pieces_order(junc: BitMap, refs: Seq<i64>, start: int, i: int)
    requires
        start < i,
    ensures
        forall|x: int|
            0 <= x < crate::contract::cut::pieces(junc, refs, start, i).len() ==> (
            #[trigger] crate::contract::cut::pieces(junc, refs, start, i)[x]).0
                < crate::contract::cut::pieces(junc, refs, start, i)[x].1,
    decreases refs.len() - i,
{
    if i < refs.len() {
        lemma_pieces_order(junc, refs, i, i + 1);
        lemma_pieces_order(junc, refs, start, i + 1);
        let ps = crate::contract::cut::pieces(junc, refs, start, i);
        let rest = crate::contract::cut::pieces(junc, refs, i, i + 1);
        let same = crate::contract::cut::pieces(junc, refs, start, i + 1);
        assert forall|x: int| 0 <= x < ps.len() implies (#[trigger] ps[x]).0 < ps[x].1 by {
            if crate::contract::cut::cut_at(junc, refs, i) {
                if x > 0 {
                    assert(ps[x] == rest[x - 1]);
                    assert(rest[x - 1].0 < rest[x - 1].1);
                }
            } else {
                assert(same[x].0 < same[x].1);
            }
        }
    }
}

proof fn lemma_wanted_from(
    need: BitMap,
    coords: Seq<(i32, i32)>,
    refs: Seq<i64>,
    ps: Seq<(int, int)>,
    k: int,
)
    requires
        forall|x: int| 0 <= x < ps.len() ==> (#[trigger] ps[x]).0 < ps[x].1,
        0 <= k < crate::contract::cut::wanted(need, coords, refs, ps).len(),
    ensures
        crate::contract::cut::wanted(need, coords, refs, ps)[k].0
            < crate::contract::cut::wanted(need, coords, refs, ps)[k].1,
    decreases ps.len(),
{
    if ps.len() > 0 {
        let d = ps.drop_last();
        let rest = crate::contract::cut::wanted(need, coords, refs, d);
        assert forall|x: int| 0 <= x < d.len() implies (#[trigger] d[x]).0 < d[x].1 by {
            assert(ps[x] == d[x]);
        }
        assert(ps[ps.len() - 1].0 < ps[ps.len() - 1].1);
        if k < rest.len() {
            lemma_wanted_from(need, coords, refs, d, k);
        }
    }
}

/// After `n` of the pieces there is no room for the next.
pub open spec fn crowded_at(segs: Seq<SegModel>, ps: Seq<Piece>, n: int) -> bool {
    &&& 0 <= n < ps.len()
    &&& ps[n] matches Piece::Segment(s) && crowded(segs + segments(ps.take(n)), model(s))
}

/// Appends the pieces of one way.
fn add_way(c: &mut Collected, given: Vec<Piece>, need: &BitMap, junc: &BitMap, Ghost(segs): Ghost<
    Seq<SegModel>,
>) -> (fine: bool)
    requires
        old(c).holds(segs, *junc),
        need.wf(),
        junc.wf(),
        junc.ranked(),
        need.n_bits <= junc.n_bits,
        junc.room() <= u64::MAX,
        ones(junc.words@, junc.room()) <= u32::MAX,
        forall|k: int|
            0 <= k < given@.len() ==> (#[trigger] given@[k] matches Piece::Segment(s) ==> marked(
                *need,
                s.u_node,
            ) && marked(*need, s.v_node)),
    ensures
        fine ==> final(c).holds(segs + segments(given@), *junc),
        !fine ==> exists|n: int| crowded_at(segs, given@, n),
        fine ==> (final(c).dropped_incomplete == old(c).dropped_incomplete + dropped(given@) || old(
            c,
        ).dropped_incomplete + dropped(given@) > u64::MAX && final(c).dropped_incomplete
            == u64::MAX),
        fine ==> final(c).way_id@ == old(c).way_id@,
        fine ==> final(c).way_hash@ == old(c).way_hash@,
        fine ==> final(c).way_topo@ == old(c).way_topo@,
        fine ==> final(c).way_head@ == old(c).way_head@,
{
    let ghost all = given@;
    let ghost o = *c;
    let mut ps: Vec<Piece> = given;
    let mut back: Vec<Piece> = Vec::new();
    // Taken from the end, so that each can be moved out, and turned round.
    while ps.len() > 0
        invariant
            all.take(ps@.len() as int) == ps@,
            ps@.len() <= all.len(),
            back@.len() == all.len() - ps@.len(),
            forall|i: int|
                0 <= i < back@.len() ==> #[trigger] back@[i] == all[all.len() - 1 - i],
        decreases ps@.len(),
    {
        let ghost p0 = ps@;
        match ps.pop() {
            Some(x) => {
                assert(x == all[p0.len() - 1]);
                back.push(x);
                assert(all.take(ps@.len() as int) =~= ps@);
            },
            None => {},
        }
    }
    let ghost mut n = 0int;
    assert(all.take(0) =~= Seq::<Piece>::empty());
    assert(segs + Seq::<SegModel>::empty() =~= segs);
    while back.len() > 0
        invariant
            need.wf(),
            junc.wf(),
            junc.ranked(),
            need.n_bits <= junc.n_bits,
            junc.room() <= u64::MAX,
            ones(junc.words@, junc.room()) <= u32::MAX,
            forall|k: int|
                0 <= k < all.len() ==> (#[trigger] all[k] matches Piece::Segment(s) ==> marked(
                    *need,
                    s.u_node,
                ) && marked(*need, s.v_node)),
            0 <= n <= all.len(),
            back@.len() == all.len() - n,
            all == given@,
            forall|i: int|
                0 <= i < back@.len() ==> #[trigger] back@[i] == all[all.len() - 1 - i],
            c.holds(segs + segments(all.take(n)), *junc),
            c.dropped_incomplete == o.dropped_incomplete + dropped(all.take(n)) || (
            o.dropped_incomplete + dropped(all.take(n)) > u64::MAX && c.dropped_incomplete
                == u64::MAX),
            c.way_id@ == o.way_id@,
            c.way_hash@ == o.way_hash@,
            c.way_topo@ == o.way_topo@,
            c.way_head@ == o.way_head@,
        decreases back@.len(),
    {
        let ghost b0 = back@;
        let ghost done = segs + segments(all.take(n));
        proof {
            assert(all.take(n + 1).drop_last() =~= all.take(n));
            assert(all.take(n + 1).last() == all[n]);
            assert(b0[b0.len() - 1] == all[n]);
        }
        match back.pop() {
            Some(Piece::Dropped) => {
                let ghost c1 = *c;
                c.dropped_incomplete = c.dropped_incomplete.saturating_add(1);
                proof {
                    lemma_holds_same(c1, *c, done, *junc);
                }
            },
            Some(Piece::Segment(s)) => {
                proof {
                    assert(all[n] matches Piece::Segment(t) && t == s);
                    assert(marked(*need, s.u_node));
                    assert(done.push(model(s)) =~= segs + segments(all.take(n + 1)));
                }
                let ghost sm = model(s);
                if !add_segment(c, s, junc, Ghost(done)) {
                    assert(crowded(done, sm));
                    assert(crowded_at(segs, all, n));
                    return false;
                }
            },
            None => {},
        }
        proof {
            n = n + 1;
        }
    }
    assert(all.take(n) =~= all);
    true
}

/// Cuts a record, and reads what the way index keeps of it.
fn cut_record<F: Fn(&Vec<(i32, i32)>) -> (u32, Vec<u32>)>(
    rec: &[u8],
    coords: &[(i32, i32)],
    need: &BitMap,
    junc: &BitMap,
    measure: &F,
) -> (r: Option<(Vec<Piece>, (u64, u64, u64))>)
    requires
        need.wf(),
        need.ranked(),
        need.room() <= u64::MAX,
        junc.wf(),
        ones(need.words@, need.room()) <= coords@.len(),
        sound(*measure),
    ensures
        match r {
            None => !readable(rec@),
            Some((ps, key)) => {
                &&& contracted(rec@, *need, *junc, coords@, *measure, ps@)
                &&& way_key(rec@) == Some(key)
                &&& forall|k: int|
                    0 <= k < ps@.len() ==> (#[trigger] ps@[k] matches Piece::Segment(s) ==> marked(
                        *need,
                        s.u_node,
                    ) && marked(*need, s.v_node))
            },
        },
{
    let ps: Vec<Piece> = match contract_way(rec, coords, need, junc, measure) {
        None => {
            return None;
        },
        Some(ps) => ps,
    };
    proof {
        assert forall|k: int| 0 <= k < ps@.len() implies (
        #[trigger] ps@[k] matches Piece::Segment(s) ==> marked(*need, s.u_node) && marked(
            *need,
            s.v_node,
        )) by {
            lemma_ends(rec@, *need, *junc, coords@, *measure, ps@, k);
        }
        reveal(contracted);
        reveal(way_key);
    }
    match way_hashes(rec) {
        None => None,
        Some(x) => Some((ps, x)),
    }
}

proof fn lemma_collect_start<F: Fn(&Vec<(i32, i32)>) -> (u32, Vec<u32>)>(
    ways: Seq<u8>,
    need: BitMap,
    junc: BitMap,
    coords: Seq<(i32, i32)>,
    measure: F,
    c: Collected,
)
    requires
        c.way_id@.len() == 0,
        c.way_hash@.len() == 0,
        c.way_topo@.len() == 0,
        c.way_head@ == seq![0u32],
        c.dropped_incomplete == 0,
        c.holds(Seq::empty(), junc),
    ensures
        collected(ways, need, junc, coords, measure, Seq::empty(), Seq::empty(), c),
{
    reveal(collected);
}

proof fn lemma_collect_holds<F: Fn(&Vec<(i32, i32)>) -> (u32, Vec<u32>)>(
    ways: Seq<u8>,
    need: BitMap,
    junc: BitMap,
    coords: Seq<(i32, i32)>,
    measure: F,
    recs: Seq<(int, int)>,
    lots: Seq<Seq<Piece>>,
    c: Collected,
)
    requires
        collected(ways, need, junc, coords, measure, recs, lots, c),
    ensures
        c.holds(flat(lots, recs.len() as int), junc),
{
    reveal(collected);
}

/// One more way.
#[verifier::rlimit(60)]
#[verifier::spinoff_prover]
proof fn lemma_collect_step<F: Fn(&Vec<(i32, i32)>) -> (u32, Vec<u32>)>(
    ways: Seq<u8>,
    need: BitMap,
    junc: BitMap,
    coords: Seq<(i32, i32)>,
    measure: F,
    recs: Seq<(int, int)>,
    lots: Seq<Seq<Piece>>,
    c0: Collected,
    c: Collected,
    r: (int, int),
    pv: Seq<Piece>,
    key: (u64, u64, u64),
)
    requires
        collected(ways, need, junc, coords, measure, recs, lots, c0),
        contracted(record_of(ways, r), need, junc, coords, measure, pv),
        c.holds(flat(lots, recs.len() as int) + segments(pv), junc),
        c.dropped_incomplete == c0.dropped_incomplete + dropped(pv) || (c0.dropped_incomplete
            + dropped(pv) > u64::MAX && c.dropped_incomplete == u64::MAX),
        way_key(record_of(ways, r)) == Some(key),
        c.way_id@ == c0.way_id@.push(key.0),
        c.way_hash@ == c0.way_hash@.push(key.1),
        c.way_topo@ == c0.way_topo@.push(key.2),
        c.way_head@ == c0.way_head@.push(c.len_cm@.len() as u32),
    ensures
        collected(ways, need, junc, coords, measure, recs.push(r), lots.push(pv), c),
{
    reveal(collected);
    reveal(Collected::holds);
    let n0 = recs.len() as int;
    let (recs1, lots1) = (recs.push(r), lots.push(pv));
    lemma_flat_push(lots, pv, n0);
    lemma_lost(lots, n0);
    lemma_dropped(pv);
    assert(flat(lots1, n0 + 1) == flat(lots, n0) + segments(pv));
    assert forall|w: int| 0 <= w <= recs1.len() implies #[trigger] c.way_head@[w] == flat(
        lots1,
        w,
    ).len() by {
        if w <= n0 {
            lemma_flat_push(lots, pv, w);
            assert(c0.way_head@[w] == flat(lots, w).len());
        }
    }
    assert forall|w: int| 0 <= w < recs1.len() implies way_key(
        record_of(ways, #[trigger] recs1[w]),
    ) == Some((c.way_id@[w], c.way_hash@[w], c.way_topo@[w])) by {
        if w < n0 {
            assert(recs1[w] == recs[w]);
            assert(c.way_id@[w] == c0.way_id@[w]);
            assert(c.way_hash@[w] == c0.way_hash@[w]);
            assert(c.way_topo@[w] == c0.way_topo@[w]);
        }
    }
    assert(way_indexed(ways, recs1, lots1, c));
    assert forall|w: int| 0 <= w < recs1.len() implies contracted(
        record_of(ways, #[trigger] recs1[w]),
        need,
        junc,
        coords,
        measure,
        lots1[w],
    ) by {
        if w < n0 {
            assert(contracted(record_of(ways, recs[w]), need, junc, coords, measure, lots[w]));
            assert(recs1[w] == recs[w] && lots1[w] == lots[w]);
        }
    }
}

/// The collection holds what all the ways are cut into.
pub open spec fn whole<F: Fn(&Vec<(i32, i32)>) -> (u32, Vec<u32>)>(
    ways: Seq<u8>,
    need: BitMap,
    junc: BitMap,
    coords: Seq<(i32, i32)>,
    measure: F,
    recs: Seq<(int, int)>,
    lots: Seq<Seq<Piece>>,
    c: Collected,
) -> bool {
    &&& records(ways, 0, ways.len()) == Some(recs)
    &&& collected(ways, need, junc, coords, measure, recs, lots, c)
}

/// There are records and pieces of which the collection is made.
pub open spec fn gathered<F: Fn(&Vec<(i32, i32)>) -> (u32, Vec<u32>)>(
    ways: Seq<u8>,
    need: BitMap,
    junc: BitMap,
    coords: Seq<(i32, i32)>,
    measure: F,
    c: Collected,
) -> bool {
    exists|recs: Seq<(int, int)>, lots: Seq<Seq<Piece>>|
        whole(ways, need, junc, coords, measure, recs, lots, c)
}

/// The records follow each other from the start up to `p`.
pub open spec fn chained(ways: Seq<u8>, recs: Seq<(int, int)>, p: int) -> bool {
    &&& recs.len() == 0 ==> p == 0
    &&& recs.len() > 0 ==> recs[0].0 == 0 && recs.last().1 == p
    &&& forall|w: int|
        0 <= w < recs.len() ==> record_end(ways, (#[trigger] recs[w]).0) == Some(recs[w].1)
    &&& forall|w: int|
        0 <= w < recs.len() - 1 ==> (#[trigger] recs[w]).1 == recs[w + 1].0
}

/// The first records are cut into more segments, or points, than there are
/// numbers for: it is the last of them, piece `n`, that does not fit.
pub open spec fn overfull<F: Fn(&Vec<(i32, i32)>) -> (u32, Vec<u32>)>(
    ways: Seq<u8>,
    need: BitMap,
    junc: BitMap,
    coords: Seq<(i32, i32)>,
    measure: F,
    recs: Seq<(int, int)>,
    lots: Seq<Seq<Piece>>,
    last: Seq<Piece>,
    r: (int, int),
) -> bool {
    &&& lots.len() == recs.len()
    &&& chained(ways, recs, r.0)
    &&& record_end(ways, r.0) == Some(r.1)
    &&& forall|w: int|
        0 <= w < recs.len() ==> contracted(
            record_of(ways, #[trigger] recs[w]),
            need,
            junc,
            coords,
            measure,
            lots[w],
        )
    &&& contracted(record_of(ways, r), need, junc, coords, measure, last)
    &&& exists|n: int| crowded_at(flat(lots, recs.len() as int), last, n)
}

/// The ways do not part into records, or one cannot be read.
pub open spec fn broken(ways: Seq<u8>) -> bool {
    match records(ways, 0, ways.len()) {
        None => true,
        Some(recs) => exists|w: int|
            0 <= w < recs.len() && !readable(record_of(ways, #[trigger] recs[w])),
    }
}

/// Notes a way in the index, after its segments.
fn note_way(c: &mut Collected, way: (u64, u64, u64), Ghost(segs): Ghost<Seq<SegModel>>, Ghost(
    junc,
): Ghost<BitMap>)
    requires
        old(c).holds(segs, junc),
    ensures
        final(c).holds(segs, junc),
        final(c).dropped_incomplete == old(c).dropped_incomplete,
        final(c).way_id@ == old(c).way_id@.push(way.0),
        final(c).way_hash@ == old(c).way_hash@.push(way.1),
        final(c).way_topo@ == old(c).way_topo@.push(way.2),
        final(c).way_head@ == old(c).way_head@.push(final(c).len_cm@.len() as u32),
{
    let ghost c0 = *c;
    c.way_id.push(way.0);
    c.way_hash.push(way.1);
    c.way_topo.push(way.2);
    c.way_head.push(#[verifier::truncate] (c.len_cm.len() as u32));
    proof {
        lemma_holds_same(c0, *c, segs, junc);
    }
}

/// Cuts every way at its junctions and gathers the segments: lengths,
/// attributes, names, drawn lines, directed edges, and the index of ways.
#[verifier::rlimit(80)]
pub fn pass3<F: Fn(&Vec<(i32, i32)>) -> (u32, Vec<u32>)>(
    ways: &[u8],
    coords: &[(i32, i32)],
    need: &BitMap,
    junc: &BitMap,
    measure: &F,
) -> (r: Result<Collected, Stop>)
    requires
        need.wf(),
        need.ranked(),
        need.room() <= u64::MAX,
        junc.wf(),
        junc.ranked(),
        need.n_bits <= junc.n_bits,
        junc.room() <= u64::MAX,
        ones(need.words@, need.room()) <= coords@.len(),
        ones(junc.words@, junc.room()) <= u32::MAX,
        sound(*measure),
    ensures
        match r {
            Ok(c) => gathered(ways@, *need, *junc, coords@, *measure, c),
            Err(Stop::Broken) => broken(ways@),
            Err(Stop::TooMany) => exists|
                recs: Seq<(int, int)>,
                lots: Seq<Seq<Piece>>,
                last: Seq<Piece>,
                r: (int, int),
            | #[trigger]
                overfull(ways@, *need, *junc, coords@, *measure, recs, lots, last, r),
        },
{
    let mut c: Collected = start();
    let ghost mut recs = Seq::<(int, int)>::empty();
    let ghost mut lots = Seq::<Seq<Piece>>::empty();
    let ghost total = ways@.len();
    let ghost goal = records(ways@, 0, total);
    let mut p: usize = 0;
    proof {
        if let Some(s) = goal {
            assert(recs + s =~= s);
        }
        lemma_collect_start(ways@, *need, *junc, coords@, *measure, c);
    }
    while p < ways.len()
        invariant
            need.wf(),
            need.ranked(),
            need.room() <= u64::MAX,
            junc.wf(),
            junc.ranked(),
            need.n_bits <= junc.n_bits,
            junc.room() <= u64::MAX,
            ones(need.words@, need.room()) <= coords@.len(),
            ones(junc.words@, junc.room()) <= u32::MAX,
            sound(*measure),
            total == ways@.len(),
            goal == records(ways@, 0, total),
            p <= total,
            recs.len() <= p,
            chained(ways@, recs, p as int),
            match records(ways@, p as int, (total - recs.len()) as nat) {
                None => goal is None,
                Some(s) => goal == Some(recs + s),
            },
            collected(ways@, *need, *junc, coords@, *measure, recs, lots, c),
        decreases total - p,
    {
        let ghost left = (total - recs.len()) as nat;
        let e: usize = match skip_way(ways, p) {
            None => {
                return Err(Stop::Broken);
            },
            Some(e) => e,
        };
        let rec: &[u8] = vstd::slice::slice_subrange(ways, p, e);
        let ghost r = (p as int, e as int);
        assert(rec@ == record_of(ways@, r));
        proof {
            assert((left - 1) as nat == (total - (recs.len() + 1)) as nat);
            if let Some(s) = records(ways@, e as int, (left - 1) as nat) {
                assert(recs + (seq![r] + s) =~= recs.push(r) + s);
            }
        }
        let (ps, way): (Vec<Piece>, (u64, u64, u64)) = match cut_record(
            rec,
            coords,
            need,
            junc,
            measure,
        ) {
            None => {
                proof {
                    if let Some(s) = records(ways@, e as int, (left - 1) as nat) {
                        let all = recs.push(r) + s;
                        assert(goal == Some(all));
                        assert(all[recs.len() as int] == r);
                        assert(!readable(record_of(ways@, all[recs.len() as int])));
                    }
                    if let Some(all) = goal {
                        let w = recs.len() as int;
                        assert(all[w] == r);
                        assert(!readable(record_of(ways@, all[w])));
                    }
                    assert(goal == records(ways@, 0, ways@.len()));
                    assert(broken(ways@));
                }
                return Err(Stop::Broken);
            },
            Some(x) => x,
        };
        let ghost pv = ps@;
        let ghost c0 = c;
        let ghost before = flat(lots, recs.len() as int);
        proof {
            lemma_collect_holds(ways@, *need, *junc, coords@, *measure, recs, lots, c);
        }
        if !add_way(&mut c, ps, need, junc, Ghost(before)) {
            proof {
                reveal(collected);
                assert(overfull(ways@, *need, *junc, coords@, *measure, recs, lots, pv, r));
            }
            return Err(Stop::TooMany);
        }
        note_way(&mut c, way, Ghost(before + segments(pv)), Ghost(*junc));
        proof {
            lemma_collect_step(
                ways@,
                *need,
                *junc,
                coords@,
                *measure,
                recs,
                lots,
                c0,
                c,
                r,
                pv,
                way,
            );
            assert(chained(ways@, recs.push(r), e as int)) by {
                let more = recs.push(r);
                assert forall|w: int| 0 <= w < more.len() - 1 implies (#[trigger] more[w]).1
                    == more[w + 1].0 by {
                    if w < recs.len() - 1 {
                        assert(recs[w].1 == recs[w + 1].0);
                    }
                }
            }
            recs = recs.push(r);
            lots = lots.push(pv);
        }
        p = e;
    }
    proof {
        assert(recs + Seq::<(int, int)>::empty() =~= recs);
        assert(records(ways@, p as int, (total - recs.len()) as nat) == Some(
            Seq::<(int, int)>::empty(),
        ));
        assert(goal == Some(recs));
        assert(whole(ways@, *need, *junc, coords@, *measure, recs, lots, c));
        assert(gathered(ways@, *need, *junc, coords@, *measure, c));
    }
    Ok(c)
}

} // verus!
