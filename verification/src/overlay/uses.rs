//! How often members of a region are used: the trees that rows are read off,
//! and counting along them.

use vstd::prelude::*;
use crate::overlay::shape::{index_in, local_index, Lazy, Level, Values};
use crate::paths::{arc_at, net_ok, Net, UNREACHABLE};

verus! {

/// No parent.
pub const ROOT: u32 = u32::MAX;

/// `p` comes before `v`: it is nearer, or as near and older.
pub open spec fn older(dist: Seq<u32>, stamp: Seq<int>, p: int, v: int) -> bool {
    dist[p] < dist[v] || (dist[p] == dist[v] && stamp[p] < stamp[v])
}

/// An arc accounts for the distance between a member and its parent.
pub open spec fn tight(net: Net, dist: Seq<u32>, p: int, v: int) -> bool {
    exists|s: int, w: int| arc_at(net, p, s, v, w) && dist[p] + w <= dist[v]
}

/// Parents lead back to the start: every member that is reached has one, but
/// for the start itself.
pub open spec fn tree(
    net: Net,
    start: int,
    dist: Seq<u32>,
    par: Seq<u32>,
    stamp: Seq<int>,
) -> bool {
    &&& par.len() == dist.len()
    &&& stamp.len() == dist.len()
    &&& forall|v: int|
        0 <= v < dist.len() ==> {
            &&& (#[trigger] par[v] == ROOT) == (v == start || dist[v] == UNREACHABLE)
            &&& par[v] != ROOT ==> par[v] < dist.len() && older(dist, stamp, par[v] as int, v)
                && tight(net, dist, par[v] as int, v)
        }
}

/// As [`tree`], while a search goes on.
pub open spec fn growing(
    net: Net,
    start: int,
    dist: Seq<u32>,
    par: Seq<u32>,
    stamp: Seq<int>,
    clock: int,
) -> bool {
    &&& tree(net, start, dist, par, stamp)
    &&& 0 <= start < dist.len()
    &&& dist[start] == 0
    &&& forall|v: int| 0 <= v < stamp.len() ==> (#[trigger] stamp[v]) < clock
}

/// A better way to `v` over `u` makes `u` its parent.
pub proof fn lemma_tree_relax(
    net: Net,
    start: int,
    dist: Seq<u32>,
    par: Seq<u32>,
    stamp: Seq<int>,
    clock: int,
    u: int,
    s: int,
    v: int,
    w: int,
)
    requires
        net_ok(net),
        net.n == dist.len(),
        dist.len() <= u32::MAX,
        growing(net, start, dist, par, stamp, clock),
        arc_at(net, u, s, v, w),
        dist[u] + w < dist[v],
    ensures
        growing(
            net,
            start,
            dist.update(v, (dist[u] + w) as u32),
            par.update(v, u as u32),
            stamp.update(v, clock),
            clock + 1,
        ),
{
    let (d2, p2, s2) = (
        dist.update(v, (dist[u] + w) as u32),
        par.update(v, u as u32),
        stamp.update(v, clock),
    );
    assert(w >= 0);
    assert(u != v);
    assert forall|x: int| 0 <= x < d2.len() implies {
        &&& (#[trigger] p2[x] == ROOT) == (x == start || d2[x] == UNREACHABLE)
        &&& p2[x] != ROOT ==> p2[x] < d2.len() && older(d2, s2, p2[x] as int, x) && tight(
            net,
            d2,
            p2[x] as int,
            x,
        )
    } by {
        if x == v {
            assert(arc_at(net, u, s, v, w) && d2[u] + w <= d2[v]);
            assert(stamp[u] < clock);
        } else {
            assert((par[x] == ROOT) == (x == start || dist[x] == UNREACHABLE));
            if par[x] != ROOT {
                let p = par[x] as int;
                assert(older(dist, stamp, p, x));
                let (t, z) = choose|t: int, z: int|
                    arc_at(net, p, t, x, z) && dist[p] + z <= dist[x];
                assert(arc_at(net, p, t, x, z) && d2[p] + z <= d2[x]);
            }
        }
    }
    assert forall|x: int| 0 <= x < s2.len() implies (#[trigger] s2[x]) < clock + 1 by {
        if x != v {
            assert(stamp[x] < clock);
        }
    }
}

/// The members on the way from `at` back to the start.
pub open spec fn chain(dist: Seq<u32>, par: Seq<u32>, stamp: Seq<int>, at: u32) -> Seq<int>
    decreases dist[at as int], stamp[at as int],
    when 0 <= stamp[at as int]
{
    if at >= dist.len() {
        Seq::empty()
    } else if par[at as int] != ROOT && older(dist, stamp, par[at as int] as int, at as int) && 0
        <= stamp[par[at as int] as int] {
        seq![at as int] + chain(dist, par, stamp, par[at as int])
    } else {
        seq![at as int]
    }
}

/// The members that are reached, among the first `n`.
pub open spec fn reached(dist: Seq<u32>, n: int) -> Seq<int>
    decreases n,
{
    if n <= 0 {
        Seq::empty()
    } else if dist[n - 1] != UNREACHABLE {
        reached(dist, n - 1).push(n - 1)
    } else {
        reached(dist, n - 1)
    }
}

/// The members that the ways to the first `n` gates run through.
pub open spec fn passed(
    dist: Seq<u32>,
    par: Seq<u32>,
    stamp: Seq<int>,
    list: Seq<u32>,
    bnd: Seq<u32>,
    n: int,
) -> Seq<int>
    decreases n,
{
    if n <= 0 {
        Seq::empty()
    } else {
        let rest = passed(dist, par, stamp, list, bnd, n - 1);
        match index_in(list, bnd[n - 1]) {
            Some(x) if dist[x] != UNREACHABLE && par[x] != ROOT => rest + chain(
                dist,
                par,
                stamp,
                par[x],
            ),
            _ => rest,
        }
    }
}

/// A counter one higher; after the largest number comes zero.
pub open spec fn bumped(c: Seq<u32>, at: int) -> Seq<u32> {
    c.update(
        at,
        if c[at] == u32::MAX {
            0u32
        } else {
            (c[at] + 1) as u32
        },
    )
}

/// Counters after members of the region that begins at `vs` were used.
pub open spec fn bump_all(c: Seq<u32>, vs: int, used: Seq<int>) -> Seq<u32>
    decreases used.len(),
{
    if used.len() == 0 {
        c
    } else {
        bumped(bump_all(c, vs, used.drop_last()), vs + used.last())
    }
}

/// Counters after a row was read off a tree: each member reached counts, and
/// each member once more for every gate whose way runs through it.
pub open spec fn after_row(
    c: Seq<u32>,
    vs: int,
    dist: Seq<u32>,
    par: Seq<u32>,
    stamp: Seq<int>,
    list: Seq<u32>,
    bnd: Seq<u32>,
) -> Seq<u32> {
    bump_all(
        c,
        vs,
        reached(dist, dist.len() as int) + passed(
            dist,
            par,
            stamp,
            list,
            bnd,
            bnd.len() as int,
        ),
    )
}

impl<'a> Lazy<'a> {
    /// Record that a member was used.
    pub(crate) fn note_use(&mut self, at: usize)
        requires
            at < old(self).counts().len(),
        ensures
            final(self).counts() == bumped(old(self).counts(), at as int),
            final(self).table() == old(self).table(),
            final(self).bitmap() == old(self).bitmap(),
            final(self).rows == old(self).rows,
            final(self).vhead == old(self).vhead,
            final(self).vlist == old(self).vlist,
    {
        let n: u32 = self.use_ct[at];
        self.use_ct[at] = n.wrapping_add(1);
    }
}

/// The same but for the counters.
pub open spec fn same_but_counts<'a>(a: Lazy<'a>, b: Lazy<'a>) -> bool {
    &&& a.table() == b.table()
    &&& a.bitmap() == b.bitmap()
    &&& a.rows == b.rows
    &&& a.vhead == b.vhead
    &&& a.vlist == b.vlist
}

/// Counts along the way from `at` back to the start.
fn note_chain<'a>(
    z: &mut Lazy<'a>,
    vs: usize,
    dist: &Vec<u32>,
    par: &Vec<u32>,
    first: u32,
    Ghost(net): Ghost<Net>,
    Ghost(start): Ghost<int>,
    Ghost(stamp): Ghost<Seq<int>>,
    Ghost(c0): Ghost<Seq<u32>>,
    Ghost(used): Ghost<Seq<int>>,
)
    requires
        tree(net, start, dist@, par@, stamp),
        forall|v: int| 0 <= v < stamp.len() ==> 0 <= #[trigger] stamp[v],
        first < dist@.len(),
        vs + dist@.len() <= old(z).counts().len(),
        old(z).counts() == bump_all(c0, vs as int, used),
        old(z).counts().len() <= usize::MAX,
    ensures
        final(z).counts() == bump_all(c0, vs as int, used + chain(dist@, par@, stamp, first)),
        final(z).counts().len() == old(z).counts().len(),
        same_but_counts(*final(z), *old(z)),
{
    let ghost mut seen = used;
    let ghost goal = used + chain(dist@, par@, stamp, first);
    let mut at: u32 = first;
    let ghost z0 = *z;
    loop
        invariant_except_break
            seen + chain(dist@, par@, stamp, at) == goal,
            at < dist@.len(),
        invariant
            tree(net, start, dist@, par@, stamp),
            forall|v: int| 0 <= v < stamp.len() ==> 0 <= #[trigger] stamp[v],
            vs + dist@.len() <= z.counts().len(),
            z.counts().len() == z0.counts().len(),
            z.counts().len() <= usize::MAX,
            z.counts() == bump_all(c0, vs as int, seen),
            same_but_counts(*z, z0),
        ensures
            seen == goal,
        decreases dist@[at as int], stamp[at as int],
    {
        let ghost c = chain(dist@, par@, stamp, at);
        let ghost s0 = seen;
        z.note_use(vs + at as usize);
        proof {
            seen = s0.push(at as int);
            assert(seen.drop_last() =~= s0);
            assert(0 <= stamp[at as int]);
        }
        let p: u32 = par[at as usize];
        if p == ROOT {
            assert(c =~= seq![at as int]);
            assert(s0 + c =~= seen);
            break;
        }
        proof {
            assert(par@[at as int] != ROOT);
            assert(0 <= stamp[p as int]);
            assert(c == seq![at as int] + chain(dist@, par@, stamp, p));
            assert(s0 + c =~= seen + chain(dist@, par@, stamp, p));
        }
        at = p;
    }
}

impl<'a> Level<'a> {
    /// Counts what a row was read off.
    #[verifier::rlimit(40)]
    pub(crate) fn note_uses(
        &mut self,
        vs: usize,
        dist: &Vec<u32>,
        par: &Vec<u32>,
        list: &[u32],
        bnd: &[u32],
        Ghost(net): Ghost<Net>,
        Ghost(start): Ghost<int>,
        Ghost(stamp): Ghost<Seq<int>>,
    )
        requires
            old(self).values is Lazy,
            crate::lookup::ascending(list@),
            list@.len() == dist@.len(),
            tree(net, start, dist@, par@, stamp),
            forall|v: int| 0 <= v < stamp.len() ==> 0 <= #[trigger] stamp[v],
            vs + dist@.len() <= old(self).lazy().counts().len(),
        ensures
            final(self).values is Lazy,
            final(self).rung() == old(self).rung(),
            final(self).geo@ == old(self).geo@,
            same_but_counts(final(self).lazy(), old(self).lazy()),
            final(self).lazy().counts().len() == old(self).lazy().counts().len(),
            final(self).lazy().counts() == after_row(
                old(self).lazy().counts(),
                vs as int,
                dist@,
                par@,
                stamp,
                list@,
                bnd@,
            ),
    {
        let ghost before = *self;
        let n: usize = dist.len();
        match &mut self.values {
            Values::Lazy(z) => {
                let ghost z0 = *z;
                let ghost c0 = z.counts();
                let room: usize = z.use_ct_all().len();
                let mut x: usize = 0;
                while x < n
                    invariant
                        n == dist@.len(),
                        x <= n,
                        vs + n <= room,
                        z.counts().len() == room,
                        z.counts() == bump_all(c0, vs as int, reached(dist@, x as int)),
                        same_but_counts(*z, z0),
                    decreases n - x,
                {
                    if dist[x] != UNREACHABLE {
                        let ghost s0 = reached(dist@, x as int);
                        z.note_use(vs + x);
                        assert(s0.push(x as int).drop_last() =~= s0);
                    }
                    x += 1;
                }
                let ghost base = reached(dist@, n as int);
                let mut j: usize = 0;
                assert(base + Seq::<int>::empty() =~= base);
                while j < bnd.len()
                    invariant
                        n == dist@.len(),
                        j <= bnd@.len(),
                        vs + n <= room,
                        crate::lookup::ascending(list@),
                        list@.len() == n,
                        tree(net, start, dist@, par@, stamp),
                        forall|v: int| 0 <= v < stamp.len() ==> 0 <= #[trigger] stamp[v],
                        z.counts().len() == room,
                        z.counts() == bump_all(
                            c0,
                            vs as int,
                            base + passed(dist@, par@, stamp, list@, bnd@, j as int),
                        ),
                        same_but_counts(*z, z0),
                    decreases bnd@.len() - j,
                {
                    let ghost rest = passed(dist@, par@, stamp, list@, bnd@, j as int);
                    match local_index(list, bnd[j]) {
                        Some(i) => {
                            assert(par@.len() == dist@.len());
                            if dist[i] != UNREACHABLE && par[i] != ROOT {
                                assert(par@[i as int] != ROOT);
                                note_chain(
                                    z,
                                    vs,
                                    dist,
                                    par,
                                    par[i],
                                    Ghost(net),
                                    Ghost(start),
                                    Ghost(stamp),
                                    Ghost(c0),
                                    Ghost(base + rest),
                                );
                                proof {
                                    let c = chain(dist@, par@, stamp, par@[i as int]);
                                    assert(base + rest + c =~= base + (rest + c));
                                }
                            }
                        },
                        None => {},
                    }
                    j += 1;
                }
            },
            Values::Eager { .. } => {},
        }
        proof {
            assert(self.rung() == before.rung());
        }
    }
}

} // verus!
