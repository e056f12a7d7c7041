//! What the graph keeps of the roads it is built from.

use vstd::prelude::*;
use crate::bitmap::BitMap;
use crate::contract::collect::{collected, edges_of, flat, gathered, whole, Collected, SegModel};
use crate::dataset::Dataset;
use crate::graph::assemble::{assembled, is_graph, Graph, Parts};
use crate::graph::adjacency::{ends_of, near, seg_id, Side};
use crate::graph::renumber::{drawn, reworded};
use crate::graph::snap::Roads;
use crate::graph::sound::{lemma_edge, lemma_graph_sound, place_of, shows};
use crate::contract::cut::Piece;
use crate::laws::riding::{allowed, lawful, way_field};
use crate::overlay::exact::{is_edge, two_way};
use crate::overlay::rows::far_end;

verus! {

/// Some edge has this segment word.
pub open spec fn has_word(edges: Seq<(u32, u32, u32)>, word: int) -> bool {
    exists|e: int| 0 <= e < edges.len() && (#[trigger] edges[e]).2 == word
}

/// Every edge runs in a direction that its segment allows.
pub open spec fn words_allowed(edges: Seq<(u32, u32, u32)>, attr: Seq<u32>) -> bool {
    forall|e: int|
        0 <= e < edges.len() ==> (#[trigger] edges[e]).2 as int % 0x8000_0000 < attr.len()
            && allowed(attr[edges[e].2 as int % 0x8000_0000], edges[e].2 >= 0x8000_0000)
}

/// Every segment has an edge in each direction that it allows.
pub open spec fn words_there(edges: Seq<(u32, u32, u32)>, attr: Seq<u32>) -> bool {
    forall|s: int|
        0 <= s < attr.len() ==> (way_field(#[trigger] attr[s]) != 2 ==> has_word(edges, s)) && (
        way_field(attr[s]) != 1 ==> has_word(edges, s + 0x8000_0000))
}

/// No two edges have one segment word, and the two edges of a segment join the
/// same vertices.
pub open spec fn words_once(edges: Seq<(u32, u32, u32)>) -> bool {
    forall|e: int, f: int|
        0 <= e < edges.len() && 0 <= f < edges.len() && e != f ==> apart(
            #[trigger] edges[e],
            #[trigger] edges[f],
        )
}

pub open spec fn apart(a: (u32, u32, u32), b: (u32, u32, u32)) -> bool {
    &&& a.2 != b.2
    &&& a.2 as int % 0x8000_0000 == b.2 as int % 0x8000_0000 ==> a.0 == b.1 && a.1 == b.0
}

/// The edges of segments with these attribute words.
pub open spec fn edges_allowed(edges: Seq<(u32, u32, u32)>, attr: Seq<u32>) -> bool {
    &&& words_allowed(edges, attr)
    &&& words_there(edges, attr)
    &&& words_once(edges)
}

/// The edges of one more segment.
spec fn more(s: int, word: u32, u: u32, v: u32) -> Seq<(u32, u32, u32)> {
    let (on, back) = ((u, v, s as u32), (v, u, (s + 0x8000_0000) as u32));
    if way_field(word) == 1 {
        seq![on]
    } else if way_field(word) == 2 {
        seq![back]
    } else {
        seq![on, back]
    }
}

proof fn lemma_more_allowed(was: Seq<(u32, u32, u32)>, attr: Seq<u32>, word: u32, u: u32, v: u32)
    requires
        words_allowed(was, attr),
        attr.len() < 0x7FFF_FFFF,
    ensures
        words_allowed(was + more(attr.len() as int, word, u, v), attr.push(word)),
{
    let x = more(attr.len() as int, word, u, v);
    let (now, a) = (was + x, attr.push(word));
    assert forall|e: int| 0 <= e < now.len() implies (#[trigger] now[e]).2 as int % 0x8000_0000
        < a.len() && allowed(a[now[e].2 as int % 0x8000_0000], now[e].2 >= 0x8000_0000) by {
        if e < was.len() {
            assert(now[e] == was[e]);
        } else {
            assert(now[e] == x[e - was.len()]);
        }
    }
}

proof fn lemma_more_there(was: Seq<(u32, u32, u32)>, attr: Seq<u32>, word: u32, u: u32, v: u32)
    requires
        words_there(was, attr),
        attr.len() < 0x7FFF_FFFF,
    ensures
        words_there(was + more(attr.len() as int, word, u, v), attr.push(word)),
{
    let n = attr.len() as int;
    let x = more(n, word, u, v);
    let (now, a) = (was + x, attr.push(word));
    assert forall|w: int| has_word(was, w) implies #[trigger] has_word(now, w) by {
        let e = choose|e: int| 0 <= e < was.len() && (#[trigger] was[e]).2 == w;
        assert(now[e].2 == w);
    }
    assert forall|s: int| 0 <= s < a.len() implies (way_field(#[trigger] a[s]) != 2 ==> has_word(
        now,
        s,
    )) && (way_field(a[s]) != 1 ==> has_word(now, s + 0x8000_0000)) by {
        if s < n {
            assert(a[s] == attr[s]);
        } else {
            let k = was.len() as int;
            assert(now[k] == x[0]);
            assert(now[k + x.len() - 1] == x[x.len() - 1]);
        }
    }
}

proof fn lemma_more_once(was: Seq<(u32, u32, u32)>, attr: Seq<u32>, word: u32, u: u32, v: u32)
    requires
        words_once(was),
        words_allowed(was, attr),
        attr.len() < 0x7FFF_FFFF,
    ensures
        words_once(was + more(attr.len() as int, word, u, v)),
{
    let n = attr.len() as int;
    let x = more(n, word, u, v);
    let now = was + x;
    assert forall|e: int, f: int|
        0 <= e < now.len() && 0 <= f < now.len() && e != f implies apart(
        #[trigger] now[e],
        #[trigger] now[f],
    ) by {
        if e < was.len() {
            assert(now[e] == was[e] && was[e].2 as int % 0x8000_0000 < n);
        } else {
            assert(now[e] == x[e - was.len()]);
        }
        if f < was.len() {
            assert(now[f] == was[f] && was[f].2 as int % 0x8000_0000 < n);
        } else {
            assert(now[f] == x[f - was.len()]);
        }
    }
}

proof fn lemma_edges(segs: Seq<SegModel>, junc: BitMap, attr: Seq<u32>)
    requires
        segs.len() < 0x8000_0000,
        attr.len() == segs.len(),
        forall|s: int| 0 <= s < segs.len() ==> #[trigger] attr[s] == segs[s].attr,
    ensures
        edges_allowed(edges_of(segs, junc), attr),
    decreases segs.len(),
{
    if segs.len() > 0 {
        let (s0, a0) = (segs.drop_last(), attr.drop_last());
        lemma_edges(s0, junc, a0);
        let (was, now) = (edges_of(s0, junc), edges_of(segs, junc));
        let s = segs.last();
        let word = attr.last();
        assert(word == s.attr);
        let u = crate::bitmap::ones(junc.words@, s.u_node as int) as u32;
        let v = crate::bitmap::ones(junc.words@, s.v_node as int) as u32;
        assert(attr =~= a0.push(word));
        assert(now =~= was + more(a0.len() as int, word, u, v));
        lemma_more_allowed(was, a0, word, u, v);
        lemma_more_there(was, a0, word, u, v);
        lemma_more_once(was, a0, word, u, v);
    }
}

/// The edges that ways are cut into run in the directions that their attribute
/// words allow: one along each segment that may be driven along, one against
/// each that may be driven against, and no other.
pub proof fn lemma_edges_allowed<F: Fn(&Vec<(i32, i32)>) -> (u32, Vec<u32>)>(
    ways: Seq<u8>,
    need: BitMap,
    junc: BitMap,
    coords: Seq<(i32, i32)>,
    measure: F,
    c: Collected,
)
    requires
        gathered(ways, need, junc, coords, measure, c),
    ensures
        edges_allowed(c.edges@, c.attr@),
        c.attr@.len() == c.len_cm@.len(),
        c.attr@.len() < 0x8000_0000,
{
    let (recs, lots) = choose|recs: Seq<(int, int)>, lots: Seq<Seq<Piece>>|
        whole(ways, need, junc, coords, measure, recs, lots, c);
    reveal(collected);
    reveal(Collected::holds);
    lemma_edges(flat(lots, recs.len() as int), junc, c.attr@);
}

/// Edge `t` of the graph is edge `e` of the parts: between the same vertices, in
/// the same direction, over a segment of the same length and attributes.
pub open spec fn same_edge(p: Parts, g: Graph, ds: Dataset, e: int, t: int) -> bool {
    let (a, b, word) = p.edges@[e];
    let (o, s) = (word as int % 0x8000_0000, ds.eseg@[t] as int % 0x8000_0000);
    &&& is_edge(ds, true, g.perm@[a as int], t)
    &&& far_end(ds, true, g.perm@[a as int], t) == g.perm@[b as int]
    &&& (ds.eseg@[t] >= 0x8000_0000) == (word >= 0x8000_0000)
    &&& ds.seg_len@[s] == p.len_cm@[o]
    &&& ds.spec_attr(s) == p.attr@[o]
    &&& g.name@[s] == p.name@[o]
    &&& g.off@[s + 1] - g.off@[s] == p.off@[o + 1] - p.off@[o]
    &&& forall|k: int|
        0 <= k < p.off@[o + 1] - p.off@[o] ==> g.pts@[g.off@[s] + k] == #[trigger] p.pts@[p.off@[o]
            + k]
}

/// The segment of edge `t` runs between the vertices of edge `e`, from the near
/// one where the edge runs along it and from the far one where it runs against.
pub open spec fn same_ends(p: Parts, g: Graph, ds: Dataset, e: int, t: int) -> bool {
    let (a, b, word) = p.edges@[e];
    let s = ds.eseg@[t] as int % 0x8000_0000;
    if word >= 0x8000_0000 {
        g.su@[s] == g.perm@[b as int] && g.sv@[s] == g.perm@[a as int]
    } else {
        g.su@[s] == g.perm@[a as int] && g.sv@[s] == g.perm@[b as int]
    }
}

proof fn lemma_ends(edges: Seq<(u32, u32, u32)>, perm: Seq<u32>, e: int, n: int)
    requires
        words_once(edges),
        0 <= e < n <= edges.len(),
    ensures
        ends_of(edges, perm, edges[e].2 as int % 0x8000_0000, n) == if edges[e].2 >= 0x8000_0000 {
            (perm[edges[e].1 as int], perm[edges[e].0 as int])
        } else {
            (perm[edges[e].0 as int], perm[edges[e].1 as int])
        },
    decreases n,
{
    let o = edges[e].2 as int % 0x8000_0000;
    let last = edges[n - 1];
    assert(seg_id(last.2) == last.2 as int % 0x8000_0000);
    if last.2 as int % 0x8000_0000 == o {
        if e != n - 1 {
            assert(apart(edges[e], edges[n - 1]));
        }
    } else {
        lemma_ends(edges, perm, e, n - 1);
    }
}

pub open spec fn keeps(p: Parts, g: Graph, ds: Dataset, e: int) -> bool {
    exists|t: int|
        0 <= t < ds.eseg@.len() && #[trigger] same_edge(p, g, ds, e, t) && (words_once(p.edges@)
            ==> same_ends(p, g, ds, e, t))
}

pub open spec fn kept_from(p: Parts, g: Graph, ds: Dataset, t: int) -> bool {
    exists|e: int| 0 <= e < p.edges@.len() && same_edge(p, g, ds, e, t)
}

proof fn lemma_same(
    p: Parts,
    vc: Seq<(i32, i32)>,
    f: Side,
    b: Side,
    newid: Seq<u32>,
    attr: Seq<u32>,
    r: Roads,
    g: Graph,
    ds: Dataset,
    e: int,
)
    requires
        p.wf(),
        assembled(p, vc, f, b, newid, attr, r, g),
        shows(ds, g),
        0 <= e < p.edges@.len(),
    ensures
        0 <= place_of(p, g.perm@, true, e) < ds.eseg@.len(),
        same_edge(p, g, ds, e, place_of(p, g.perm@, true, e)),
        words_once(p.edges@) ==> same_ends(p, g, ds, e, place_of(p, g.perm@, true, e)),
{
    let perm = g.perm@;
    let (a, z, word) = p.edges@[e];
    assert(a < p.nv() && z < p.nv());
    assert(near(p.edges@, perm, true)[e] == perm[a as int]);
    assert(near(p.edges@, perm, false)[e] == perm[z as int]);
    lemma_edge(p, perm, true, f, newid, g.forward, e);
    lemma_graph_sound(p, vc, f, b, newid, attr, r, g, ds);
    let t = place_of(p, perm, true, e);
    let o = word as int % 0x8000_0000;
    assert(ds.to@ =~= Seq::<u32>::empty());
    assert(crate::graph::adjacency::seg_id(word) == o);
    assert(ds.eseg@[t] == reworded(newid, word));
    let s = newid[o] as int;
    assert(s < newid.len());
    assert(ds.eseg@[t] as int % 0x8000_0000 == s);
    assert(g.len_cm@[s] == p.len_cm@[o]);
    let (x, y) = (drawn(g.off@, g.pts@, s), drawn(p.off@, p.pts@, o));
    assert(x == y);
    assert(g.off@[s] <= g.off@[s + 1] && p.off@[o] <= p.off@[o + 1]);
    assert(g.off@[s + 1] <= g.off@[g.off@.len() - 1]);
    assert(p.off@[o + 1] <= p.off@[p.off@.len() - 1]);
    assert(x.len() == y.len());
    assert forall|k: int| 0 <= k < p.off@[o + 1] - p.off@[o] implies g.pts@[g.off@[s] + k]
        == #[trigger] p.pts@[p.off@[o] + k] by {
        assert(x[k] == y[k]);
    }
    if words_once(p.edges@) {
        lemma_ends(p.edges@, perm, e, p.edges@.len() as int);
    }
}

/// A graph can be searched, holds every edge of its parts and no other, and
/// lets every segment be driven as its attribute word allows.
pub proof fn lemma_graph_lawful(p: Parts, g: Graph, ds: Dataset)
    requires
        p.wf(),
        is_graph(p, g),
        shows(ds, g),
    ensures
        ds.graph_ok(),
        two_way(ds),
        forall|e: int| 0 <= e < p.edges@.len() ==> #[trigger] keeps(p, g, ds, e),
        forall|t: int| 0 <= t < ds.eseg@.len() ==> #[trigger] kept_from(p, g, ds, t),
        ds.eseg@.len() == p.edges@.len(),
        edges_allowed(p.edges@, p.attr@) ==> lawful(ds),
{
    let (vc, f, b, newid, attr, r) = choose|
        vc: Seq<(i32, i32)>,
        f: Side,
        b: Side,
        newid: Seq<u32>,
        attr: Seq<u32>,
        r: Roads,
    | #[trigger]
        assembled(p, vc, f, b, newid, attr, r, g);
    lemma_graph_sound(p, vc, f, b, newid, attr, r, g, ds);
    assert forall|e: int| 0 <= e < p.edges@.len() implies #[trigger] keeps(p, g, ds, e) by {
        lemma_same(p, vc, f, b, newid, attr, r, g, ds, e);
    }
    assert forall|t: int| 0 <= t < ds.eseg@.len() implies #[trigger] kept_from(p, g, ds, t) by {
        let keys = near(p.edges@, g.perm@, true);
        crate::graph::assemble::lemma_slots_onto(keys, t);
        let e = choose|e: int| 0 <= e < keys.len() && #[trigger] crate::csr::slot(keys, e) == t;
        lemma_same(p, vc, f, b, newid, attr, r, g, ds, e);
    }
    if edges_allowed(p.edges@, p.attr@) {
        assert forall|t: int| 0 <= t < ds.eseg@.len() implies allowed(
            ds.spec_attr(#[trigger] ds.eseg@[t] as int % 0x8000_0000),
            ds.eseg@[t] >= 0x8000_0000,
        ) by {
            assert(kept_from(p, g, ds, t));
            let e = choose|e: int| 0 <= e < p.edges@.len() && same_edge(p, g, ds, e, t);
            assert(p.edges@[e].2 as int % 0x8000_0000 < p.attr@.len());
        }
    }
}

} // verus!
