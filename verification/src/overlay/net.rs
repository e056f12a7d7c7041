//! The overlay as a road network: shortcuts across regions, and the edges
//! between them.

use vstd::prelude::*;
use crate::dataset::Dataset;
use crate::overlay::frontier::{reachable, sound, walkable, Known};
use crate::overlay::rows::{edge_head, edge_weight, far_end, value};
use crate::overlay::shape::{cell_at, gates, index_in, Ladder};
use crate::overrides::Effect;
use crate::paths::{arc_at, walk, Net, UNREACHABLE};
use crate::searchstate::{Node, EMPTY};

verus! {

/// An edge, as an arc between two vertices of region `c` of level `k`.
pub open spec fn inside_arc(
    ds: Dataset,
    effects: Seq<(u32, Effect)>,
    l: Ladder,
    k: int,
    c: int,
    fwd: bool,
    u: u32,
    t: int,
) -> Option<(int, int)> {
    let v = far_end(ds, fwd, u, t);
    if cell_at(l, k, u as int) != c || cell_at(l, k, v as int) != c {
        None
    } else {
        match edge_weight(ds, effects, fwd, t) {
            Some(w) => Some((v as int, w as int)),
            None => None,
        }
    }
}

/// The roads inside region `c` of level `k`.
pub open spec fn inside_net(
    ds: Dataset,
    effects: Seq<(u32, Effect)>,
    l: Ladder,
    k: int,
    c: int,
    fwd: bool,
) -> Net {
    Net {
        n: ds.nv(),
        arcs: |u: int|
            Seq::new(
                (edge_head(ds, fwd)[u + 1] - edge_head(ds, fwd)[u]) as nat,
                |s: int|
                    inside_arc(
                        ds,
                        effects,
                        l,
                        k,
                        c,
                        fwd,
                        u as u32,
                        edge_head(ds, fwd)[u] + s,
                    ),
            ),
    }
}

/// All roads.
pub open spec fn road_net(ds: Dataset, effects: Seq<(u32, Effect)>, fwd: bool) -> Net {
    Net {
        n: ds.nv(),
        arcs: |u: int|
            Seq::new(
                (edge_head(ds, fwd)[u + 1] - edge_head(ds, fwd)[u]) as nat,
                |s: int|
                    match edge_weight(ds, effects, fwd, edge_head(ds, fwd)[u] + s) {
                        Some(w) => Some(
                            (
                                far_end(ds, fwd, u as u32, edge_head(ds, fwd)[u] + s) as int,
                                w as int,
                            ),
                        ),
                        None => None,
                    },
            ),
    }
}

/// Region `c` of level `k` holds an endpoint of the query.
pub open spec fn is_home(home: Seq<Seq<u32>>, k: int, c: int) -> bool {
    home[k].contains(c as u32)
}

/// `u` is a gate of its region of level `k`.
pub open spec fn gate_at(l: Ladder, k: int, u: u32) -> bool {
    index_in(gates(l[k], cell_at(l, k, u as int)), u) is Some
}

/// How high a vertex may be handled, climbing from level `k`: as long as the
/// region above holds neither endpoint and has the vertex on its boundary.
pub open spec fn climb(l: Ladder, home: Seq<Seq<u32>>, u: u32, k: int) -> int
    decreases home.len() - k,
{
    if k + 1 < home.len() && !is_home(home, k + 1, cell_at(l, k + 1, u as int)) && gate_at(
        l,
        k + 1,
        u,
    ) {
        climb(l, home, u, k + 1)
    } else {
        k
    }
}

/// Crossing region `c` of level `k` from gate `i` to gate `j`, from its table.
pub open spec fn shortcut(
    ds: Dataset,
    effects: Seq<(u32, Effect)>,
    l: Ladder,
    k: int,
    c: int,
    fwd: bool,
    i: int,
    j: int,
) -> Option<(int, int)> {
    let step = value(ds, effects, l, k, c, i, j, fwd);
    if j == i || step == UNREACHABLE {
        None
    } else {
        Some((gates(l[k], c)[j] as int, step as int))
    }
}

/// An edge that leaves region `c` of level `k`.
pub open spec fn leaving(
    ds: Dataset,
    effects: Seq<(u32, Effect)>,
    l: Ladder,
    k: int,
    c: int,
    fwd: bool,
    u: u32,
    t: int,
) -> Option<(int, int)> {
    let v = far_end(ds, fwd, u, t);
    if cell_at(l, k, v as int) == c {
        None
    } else {
        match edge_weight(ds, effects, fwd, t) {
            Some(w) => Some((v as int, w as int)),
            None => None,
        }
    }
}

/// What leaves `u` in the overlay: across its region at the level it is
/// handled at, then by the edges that leave that region.
pub open spec fn over_arcs(
    ds: Dataset,
    effects: Seq<(u32, Effect)>,
    l: Ladder,
    home: Seq<Seq<u32>>,
    fwd: bool,
    u: u32,
) -> Seq<Option<(int, int)>> {
    let k = climb(l, home, u, 0);
    let c = cell_at(l, k, u as int);
    let head = edge_head(ds, fwd);
    let edges = Seq::new(
        (head[u + 1] - head[u as int]) as nat,
        |s: int| leaving(ds, effects, l, k, c, fwd, u, head[u as int] + s),
    );
    match index_in(gates(l[k], c), u) {
        Some(i) => Seq::new(
            gates(l[k], c).len(),
            |j: int| shortcut(ds, effects, l, k, c, fwd, i, j),
        ) + edges,
        None => edges,
    }
}

/// The overlay for a query whose endpoints stand in the regions `home`.
pub open spec fn over_net(
    ds: Dataset,
    effects: Seq<(u32, Effect)>,
    l: Ladder,
    home: Seq<Seq<u32>>,
    fwd: bool,
) -> Net {
    Net { n: ds.nv(), arcs: |u: int| over_arcs(ds, effects, l, home, fwd, u as u32) }
}

// ----------------------------------------------------------------- trails

/// `p` comes before `v` on every trail: it is nearer, or as near and older.
pub open spec fn earlier(m: Known, stamp: Map<u32, nat>, p: u32, v: u32) -> bool {
    m[p].dist < m[v].dist || (m[p].dist == m[v].dist && stamp[p] < stamp[v])
}

/// Some arc leads from `p` to `v` for at most `slack`.
pub open spec fn arc_within(net: Net, p: u32, v: u32, slack: int) -> bool {
    exists|s: int, w: int| arc_at(net, p as int, s, v as int, w) && w <= slack
}

pub open spec fn seed_at(seeds: Seq<(int, int)>, v: u32, d: u32) -> bool {
    exists|i: int| 0 <= i < seeds.len() && #[trigger] seeds[i] == (v as int, d as int)
}

/// Parents form trails that lead back to a seed, over arcs that account for
/// the distances.
pub open spec fn trails(
    net: Net,
    seeds: Seq<(int, int)>,
    m: Known,
    stamp: Map<u32, nat>,
    clock: nat,
) -> bool {
    forall|v: u32|
        #[trigger] m.contains_key(v) ==> {
            &&& stamp.contains_key(v)
            &&& stamp[v] < clock
            &&& m[v].parent == EMPTY ==> seed_at(seeds, v, m[v].dist)
            &&& m[v].parent != EMPTY ==> {
                &&& m.contains_key(m[v].parent)
                &&& earlier(m, stamp, m[v].parent, v)
                &&& m[v].dist == UNREACHABLE || arc_within(
                    net,
                    m[v].parent,
                    v,
                    m[v].dist - m[m[v].parent].dist,
                )
            }
        }
}

/// The trail from `v` back to its seed.
pub open spec fn trail(m: Known, stamp: Map<u32, nat>, v: u32) -> Seq<u32>
    decreases m[v].dist, stamp[v],
{
    if m[v].parent != EMPTY && earlier(m, stamp, m[v].parent, v) {
        seq![v] + trail(m, stamp, m[v].parent)
    } else {
        seq![v]
    }
}

/// `p` runs from a vertex back to a seed over arcs of `net` that, with the
/// seed, cost at most `d` together.
pub open spec fn backs(net: Net, seeds: Seq<(int, int)>, p: Seq<u32>, d: int) -> bool
    decreases p.len(),
{
    if p.len() == 0 {
        false
    } else if p.len() == 1 {
        exists|x: int| #[trigger] seeds.contains((p[0] as int, x)) && x <= d
    } else {
        exists|s: int, w: int|
            #[trigger] arc_at(net, p[1] as int, s, p[0] as int, w) && backs(
                net,
                seeds,
                p.drop_first(),
                d - w,
            )
    }
}

pub proof fn lemma_backs_more(net: Net, seeds: Seq<(int, int)>, p: Seq<u32>, d: int, e: int)
    requires
        backs(net, seeds, p, d),
        d <= e,
    ensures
        backs(net, seeds, p, e),
    decreases p.len(),
{
    if p.len() == 1 {
        let x = choose|x: int| #[trigger] seeds.contains((p[0] as int, x)) && x <= d;
        assert(seeds.contains((p[0] as int, x)));
    } else {
        let (s, w) = choose|s: int, w: int|
            #[trigger] arc_at(net, p[1] as int, s, p[0] as int, w) && backs(
                net,
                seeds,
                p.drop_first(),
                d - w,
            );
        lemma_backs_more(net, seeds, p.drop_first(), d - w, e - w);
        assert(arc_at(net, p[1] as int, s, p[0] as int, w));
    }
}

/// A trail accounts for its distance.
pub proof fn lemma_trail_backs(
    net: Net,
    seeds: Seq<(int, int)>,
    m: Known,
    stamp: Map<u32, nat>,
    clock: nat,
    v: u32,
)
    requires
        trails(net, seeds, m, stamp, clock),
        m.contains_key(v),
        m[v].dist < UNREACHABLE,
    ensures
        trail(m, stamp, v).len() >= 1,
        trail(m, stamp, v)[0] == v,
        backs(net, seeds, trail(m, stamp, v), m[v].dist as int),
    decreases m[v].dist, stamp[v],
{
    let p = m[v].parent;
    let t = trail(m, stamp, v);
    if p != EMPTY {
        lemma_trail_backs(net, seeds, m, stamp, clock, p);
        let (s, w) = choose|s: int, w: int|
            arc_at(net, p as int, s, v as int, w) && w <= m[v].dist - m[p].dist;
        assert(t.drop_first() =~= trail(m, stamp, p));
        assert(t[1] == p);
        lemma_backs_more(
            net,
            seeds,
            t.drop_first(),
            m[p].dist as int,
            m[v].dist - w,
        );
        assert(arc_at(net, t[1] as int, s, t[0] as int, w));
    } else {
        let i = choose|i: int|
            0 <= i < seeds.len() && #[trigger] seeds[i] == (v as int, m[v].dist as int);
        assert(seeds.contains((t[0] as int, m[v].dist as int)));
    }
}

/// An improvement that comes over an arc keeps trails.
pub proof fn lemma_trails_relax(
    net: Net,
    seeds: Seq<(int, int)>,
    m: Known,
    stamp: Map<u32, nat>,
    clock: nat,
    u: u32,
    v: u32,
    s: int,
    w: int,
    node: Node,
)
    requires
        trails(net, seeds, m, stamp, clock),
        m.contains_key(u),
        u != EMPTY,
        arc_at(net, u as int, s, v as int, w),
        w >= 0,
        node.dist == (if m[u].dist + w > UNREACHABLE {
            UNREACHABLE as int
        } else {
            m[u].dist + w
        }),
        node.parent == u,
        !m.contains_key(v) || node.dist < m[v].dist,
    ensures
        trails(net, seeds, m.insert(v, node), stamp.insert(v, clock), clock + 1),
{
    let m2 = m.insert(v, node);
    let st2 = stamp.insert(v, clock);
    assert(u != v);
    assert forall|x: u32| #[trigger] m2.contains_key(x) implies {
        &&& st2.contains_key(x)
        &&& st2[x] < clock + 1
        &&& m2[x].parent == EMPTY ==> seed_at(seeds, x, m2[x].dist)
        &&& m2[x].parent != EMPTY ==> {
            &&& m2.contains_key(m2[x].parent)
            &&& earlier(m2, st2, m2[x].parent, x)
            &&& m2[x].dist == UNREACHABLE || arc_within(
                net,
                m2[x].parent,
                x,
                m2[x].dist - m2[m2[x].parent].dist,
            )
        }
    } by {
        if x == v {
            assert(arc_within(net, u, v, w));
        } else {
            assert(m.contains_key(x));
            let p = m[x].parent;
            if p != EMPTY && m[x].dist != UNREACHABLE && p == v {
                let (s1, w1) = choose|s1: int, w1: int|
                    arc_at(net, p as int, s1, x as int, w1) && w1 <= m[x].dist - m[p].dist;
                assert(arc_at(net, p as int, s1, x as int, w1) && w1 <= m2[x].dist - m2[p].dist);
            }
        }
    }
}

/// Entering a seed keeps trails.
pub proof fn lemma_trails_seed(
    net: Net,
    seeds: Seq<(int, int)>,
    m: Known,
    stamp: Map<u32, nat>,
    clock: nat,
    v: u32,
    d: u32,
    node: Node,
)
    requires
        trails(net, seeds, m, stamp, clock),
        node.dist == d,
        node.parent == EMPTY,
        !m.contains_key(v) || d < m[v].dist,
    ensures
        trails(
            net,
            seeds.push((v as int, d as int)),
            m.insert(v, node),
            stamp.insert(v, clock),
            clock + 1,
        ),
        trails(net, seeds.push((v as int, d as int)), m, stamp, clock),
{
    let s2 = seeds.push((v as int, d as int));
    assert(s2[seeds.len() as int] == (v as int, d as int));
    lemma_trails_more(net, seeds, m, stamp, clock, v, d);
    let m2 = m.insert(v, node);
    let st2 = stamp.insert(v, clock);
    assert forall|x: u32| #[trigger] m2.contains_key(x) implies {
        &&& st2.contains_key(x)
        &&& st2[x] < clock + 1
        &&& m2[x].parent == EMPTY ==> seed_at(s2, x, m2[x].dist)
        &&& m2[x].parent != EMPTY ==> {
            &&& m2.contains_key(m2[x].parent)
            &&& earlier(m2, st2, m2[x].parent, x)
            &&& m2[x].dist == UNREACHABLE || arc_within(
                net,
                m2[x].parent,
                x,
                m2[x].dist - m2[m2[x].parent].dist,
            )
        }
    } by {
        if x != v {
            assert(m.contains_key(x));
            let p = m[x].parent;
            if p != EMPTY && m[x].dist != UNREACHABLE && p == v {
                let (s1, w1) = choose|s1: int, w1: int|
                    arc_at(net, p as int, s1, x as int, w1) && w1 <= m[x].dist - m[p].dist;
                assert(arc_at(net, p as int, s1, x as int, w1) && w1 <= m2[x].dist - m2[p].dist);
            }
        }
    }
}

pub proof fn lemma_trails_more(
    net: Net,
    seeds: Seq<(int, int)>,
    m: Known,
    stamp: Map<u32, nat>,
    clock: nat,
    v: u32,
    d: u32,
)
    requires
        trails(net, seeds, m, stamp, clock),
    ensures
        trails(net, seeds.push((v as int, d as int)), m, stamp, clock),
{
    let s2 = seeds.push((v as int, d as int));
    assert forall|x: u32| #[trigger] m.contains_key(x) && m[x].parent == EMPTY implies seed_at(
        s2,
        x,
        m[x].dist,
    ) by {
        let i = choose|i: int|
            0 <= i < seeds.len() && #[trigger] seeds[i] == (x as int, m[x].dist as int);
        assert(s2[i] == seeds[i]);
    }
}

/// Settling a vertex changes no trail.
pub proof fn lemma_trails_settle(
    net: Net,
    seeds: Seq<(int, int)>,
    m: Known,
    stamp: Map<u32, nat>,
    clock: nat,
    u: u32,
)
    requires
        trails(net, seeds, m, stamp, clock),
        m.contains_key(u),
    ensures
        trails(net, seeds, m.insert(u, Node { queued: false, ..m[u] }), stamp, clock),
{
    let m2 = m.insert(u, Node { queued: false, ..m[u] });
    assert forall|x: u32| #[trigger] m2.contains_key(x) implies {
        &&& stamp.contains_key(x)
        &&& stamp[x] < clock
        &&& m2[x].parent == EMPTY ==> seed_at(seeds, x, m2[x].dist)
        &&& m2[x].parent != EMPTY ==> {
            &&& m2.contains_key(m2[x].parent)
            &&& earlier(m2, stamp, m2[x].parent, x)
            &&& m2[x].dist == UNREACHABLE || arc_within(
                net,
                m2[x].parent,
                x,
                m2[x].dist - m2[m2[x].parent].dist,
            )
        }
    } by {
        assert(m.contains_key(x));
    }
}

/// Relaxing keeps what is known real.
pub proof fn lemma_sound_relax(
    net: Net,
    seeds: Seq<(int, int)>,
    m: Known,
    u: u32,
    v: u32,
    s: int,
    w: int,
    node: Node,
)
    requires
        sound(net, seeds, m),
        m.contains_key(u),
        arc_at(net, u as int, s, v as int, w),
        w >= 0,
        v < net.n,
        v != EMPTY,
        node.dist == (if m[u].dist + w > UNREACHABLE {
            UNREACHABLE as int
        } else {
            m[u].dist + w
        }),
        node.dist <= node.prio,
    ensures
        sound(net, seeds, m.insert(v, node)),
{
    let m2 = m.insert(v, node);
    let (dd, n0) = choose|dd: int, n: nat| walk(net, seeds, u as int, dd, n);
    assert(walk(net, seeds, u as int, dd, n0));
    assert(walk(net, seeds, v as int, dd + w, n0 + 1)) by {
        assert(arc_at(net, u as int, s, v as int, w));
        assert(dd + w - w == dd);
    }
    if node.dist < UNREACHABLE {
        assert(walkable(net, seeds, u as int, m[u].dist as int));
        let n = choose|n: nat| walk(net, seeds, u as int, m[u].dist as int, n);
        assert(walk(net, seeds, v as int, node.dist as int, n + 1)) by {
            assert(arc_at(net, u as int, s, v as int, w));
            assert(node.dist - w == m[u].dist);
        }
    }
    assert forall|x: u32| #[trigger] m2.contains_key(x) && m2[x].dist < UNREACHABLE implies walkable(
        net,
        seeds,
        x as int,
        m2[x].dist as int,
    ) by {
        if x != v {
            assert(m.contains_key(x));
        }
    }
    assert forall|x: u32| #[trigger] m2.contains_key(x) implies reachable(net, seeds, x as int) by {
        if x != v {
            assert(m.contains_key(x));
        }
    }
}

} // verus!
