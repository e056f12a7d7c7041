//! Level 0: the map cut into connected regions.

use vstd::prelude::*;
use crate::dataset::Dataset;
use crate::overlay::rows::{edge_head, far_end};

verus! {

/// No region yet.
pub const FREE: u32 = 0xFFFF_FFFF;

/// Everything next to `u`, by the roads out of it and then by those into it.
pub open spec fn neighbours(ds: Dataset, u: u32) -> Seq<u32> {
    side_neighbours(ds, true, u) + side_neighbours(ds, false, u)
}

pub open spec fn side_neighbours(ds: Dataset, fwd: bool, u: u32) -> Seq<u32> {
    let head = edge_head(ds, fwd);
    Seq::new(
        (head[u + 1] - head[u as int]) as nat,
        |s: int| far_end(ds, fwd, u, head[u as int] + s),
    )
}

/// Region `c` takes the free vertices of a list, in order, as long as it has
/// room: the new map, and what was taken.
pub open spec fn claim(list: Seq<u32>, cell: Seq<u32>, c: u32, room: nat) -> (Seq<u32>, Seq<u32>)
    decreases list.len(),
{
    if list.len() == 0 || room == 0 {
        (cell, Seq::empty())
    } else {
        let v = list[0];
        if cell[v as int] == FREE {
            let (cell2, rest) = claim(
                list.drop_first(),
                cell.update(v as int, c),
                c,
                (room - 1) as nat,
            );
            (cell2, seq![v] + rest)
        } else {
            claim(list.drop_first(), cell, c, room)
        }
    }
}

pub proof fn lemma_claim_room(list: Seq<u32>, cell: Seq<u32>, c: u32, room: nat)
    ensures
        claim(list, cell, c, room).1.len() <= room,
    decreases list.len(),
{
    if list.len() == 0 || room == 0 {
    } else {
        let v = list[0];
        if cell[v as int] == FREE {
            lemma_claim_room(list.drop_first(), cell.update(v as int, c), c, (room - 1) as nat);
        } else {
            lemma_claim_room(list.drop_first(), cell, c, room);
        }
    }
}

/// Region `c` floods outward from a queue of its vertices until it is full or
/// has nowhere left to go.
pub open spec fn flood(ds: Dataset, cell: Seq<u32>, c: u32, room: nat, queue: Seq<u32>) -> Seq<u32>
    decreases room, queue.len(),
    via flood_ends
{
    if queue.len() == 0 || room == 0 {
        cell
    } else {
        let (cell2, taken) = claim(neighbours(ds, queue[0]), cell, c, room);
        flood(
            ds,
            cell2,
            c,
            (room - taken.len()) as nat,
            queue.drop_first() + taken,
        )
    }
}

#[via_fn]
proof fn flood_ends(ds: Dataset, cell: Seq<u32>, c: u32, room: nat, queue: Seq<u32>) {
    if queue.len() == 0 || room == 0 {
    } else {
        lemma_claim_room(neighbours(ds, queue[0]), cell, c, room);
    }
}

/// The regions after the vertices from `s` on have been seen to, each free
/// one starting a region of its own, and how many there are then.
pub open spec fn spread(
    ds: Dataset,
    cell: Seq<u32>,
    s: int,
    cells: int,
    room: nat,
) -> (Seq<u32>, int)
    decreases ds.nv() - s,
{
    if s >= ds.nv() {
        (cell, cells)
    } else if cell[s] == FREE {
        spread(
            ds,
            flood(ds, cell.update(s, cells as u32), cells as u32, room, seq![s as u32]),
            s + 1,
            cells + 1,
            room,
        )
    } else {
        spread(ds, cell, s + 1, cells, room)
    }
}

/// How many vertices a region has room for beside its first.
pub open spec fn room_of(target: int) -> nat {
    if target <= 1 {
        0
    } else {
        (target - 1) as nat
    }
}

/// Grow connected regions of roughly `target` vertices each.
///
/// Deliberately the cheapest partition that follows the graph: a flood that
/// stops at the size cap and starts again from the first free vertex.
pub fn partition(ds: &Dataset, target: usize) -> (r: (Vec<u32>, usize))
    requires
        ds.graph_ok(),
    ensures
        (r.0@, r.1 as int) == spread(
            *ds,
            Seq::new(ds.nv() as nat, |i: int| FREE),
            0,
            0,
            room_of(target as int),
        ),
{
    let nv: usize = ds.n_vertices();
    let mut cell: Vec<u32> = vec![FREE; nv];
    let mut ncells: u32 = 0;
    let ghost start = cell@;
    let ghost room0 = room_of(target as int);
    assert(start =~= Seq::new(ds.nv() as nat, |i: int| FREE));
    let room: usize = if target <= 1 {
        0
    } else {
        target - 1
    };
    let mut s: usize = 0;
    while s < nv
        invariant
            ds.graph_ok(),
            nv == ds.nv(),
            nv < u32::MAX,
            s <= nv,
            cell@.len() == nv,
            ncells <= s,
            room == room0,
            spread(*ds, cell@, s as int, ncells as int, room0) == spread(*ds, start, 0, 0, room0),
        decreases nv - s,
    {
        if cell[s] == FREE {
            cell[s] = ncells;
            let mut left: usize = room;
            let mut queue: Vec<u32> = vec![s as u32];
            let mut at: usize = 0;
            let ghost goal = flood(*ds, cell@, ncells, room0, seq![s as u32]);
            assert(queue@.subrange(0, 1) =~= seq![s as u32]);
            assert(queue@.skip(0) =~= seq![s as u32]);
            while at < queue.len() && left > 0
                invariant
                    ds.graph_ok(),
                    nv == ds.nv(),
                    nv < u32::MAX,
                    cell@.len() == nv,
                    at <= queue@.len(),
                    forall|i: int| 0 <= i < queue@.len() ==> (#[trigger] queue@[i]) < nv,
                    flood(*ds, cell@, ncells, left as nat, queue@.skip(at as int)) == goal,
                decreases left, queue@.len() - at,
            {
                let u: u32 = queue[at];
                let ghost q0 = queue@.skip(at as int);
                assert(q0[0] == u);
                let ghost cell0 = cell@;
                let ghost left0 = left as nat;
                let ghost nb = neighbours(*ds, u);
                proof {
                    lemma_claim_room(nb, cell@, ncells, left as nat);
                }
                let ghost want = claim(nb, cell@, ncells, left as nat);
                let ghost len0 = queue@.len();
                claim_side(ds, u, true, ncells, &mut cell, &mut left, &mut queue);
                let ghost cell1 = cell@;
                let ghost left1 = left as nat;
                let ghost queue1 = queue@;
                claim_side(ds, u, false, ncells, &mut cell, &mut left, &mut queue);
                proof {
                    lemma_claim_concat(
                        side_neighbours(*ds, true, u),
                        side_neighbours(*ds, false, u),
                        cell0,
                        ncells,
                        left0,
                    );
                    let t1 = claim(side_neighbours(*ds, true, u), cell0, ncells, left0).1;
                    let t2 = claim(side_neighbours(*ds, false, u), cell1, ncells, left1).1;
                    assert(queue@.skip(at + 1) =~= q0.drop_first() + (t1 + t2));
                }
                at += 1;
            }
            proof {
                let q = queue@.skip(at as int);
                assert(left == 0 || q.len() == 0);
                assert(cell@ == goal);
            }
            ncells += 1;
        }
        s += 1;
    }
    (cell, ncells as usize)
}

proof fn lemma_claim_concat(a: Seq<u32>, b: Seq<u32>, cell: Seq<u32>, c: u32, room: nat)
    ensures
        ({
            let (cell1, t1) = claim(a, cell, c, room);
            let (cell2, t2) = claim(b, cell1, c, (room - t1.len()) as nat);
            claim(a + b, cell, c, room) == (cell2, t1 + t2)
        }),
    decreases a.len(),
{
    lemma_claim_room(a, cell, c, room);
    if a.len() == 0 {
        assert(a + b =~= b);
        assert(claim(a, cell, c, room).1 + claim(b, cell, c, room).1 =~= claim(b, cell, c, room).1);
    } else if room == 0 {
        assert(Seq::<u32>::empty() + Seq::<u32>::empty() =~= Seq::<u32>::empty());
    } else {
        assert((a + b).drop_first() =~= a.drop_first() + b);
        let v = a[0];
        assert((a + b)[0] == v);
        if cell[v as int] == FREE {
            let cu = cell.update(v as int, c);
            lemma_claim_concat(a.drop_first(), b, cu, c, (room - 1) as nat);
            let (cell1, t1) = claim(a.drop_first(), cu, c, (room - 1) as nat);
            lemma_claim_room(a.drop_first(), cu, c, (room - 1) as nat);
            let (cell2, t2) = claim(b, cell1, c, (room - 1 - t1.len()) as nat);
            assert((seq![v] + t1) + t2 =~= seq![v] + (t1 + t2));
            assert((seq![v] + t1).len() == t1.len() + 1);
        } else {
            lemma_claim_concat(a.drop_first(), b, cell, c, room);
        }
    }
}

/// Region `c` takes the free neighbours of `u` on one side.
fn claim_side(
    ds: &Dataset,
    u: u32,
    fwd: bool,
    c: u32,
    cell: &mut Vec<u32>,
    left: &mut usize,
    queue: &mut Vec<u32>,
)
    requires
        ds.graph_ok(),
        u < ds.nv(),
        old(cell)@.len() == ds.nv(),
        forall|i: int| 0 <= i < old(queue)@.len() ==> (#[trigger] old(queue)@[i]) < ds.nv(),
    ensures
        ({
            let (cell2, taken) = claim(
                side_neighbours(*ds, fwd, u),
                old(cell)@,
                c,
                *old(left) as nat,
            );
            &&& final(cell)@ == cell2
            &&& *final(left) == *old(left) - taken.len()
            &&& final(queue)@ == old(queue)@ + taken
        }),
        final(cell)@.len() == old(cell)@.len(),
        forall|i: int| 0 <= i < final(queue)@.len() ==> (#[trigger] final(queue)@[i]) < ds.nv(),
{
    let ghost nb = side_neighbours(*ds, fwd, u);
    let ghost want = claim(nb, cell@, c, *left as nat);
    let ghost queue0 = queue@;
    let ghost left0 = *left;
    let hs: &[u32] = if fwd {
        ds.head
    } else {
        ds.rhead
    };
    let ghost head = edge_head(*ds, fwd);
    assert(head[u + 1] <= head[head.len() - 1]);
    let (a, e): (usize, usize) = (hs[u as usize] as usize, hs[u as usize + 1] as usize);
    let mut k: usize = a;
    proof {
        lemma_claim_room(nb, cell@, c, *left as nat);
        assert(nb.skip(0) =~= nb);
        assert(Seq::<u32>::empty() + want.1 =~= want.1);
        assert(queue@ =~= queue0 + Seq::<u32>::empty());
    }
    let ghost mut done: Seq<u32> = Seq::empty();
    while k < e && *left > 0
        invariant
            ds.graph_ok(),
            u < ds.nv(),
            cell@.len() == ds.nv(),
            head == edge_head(*ds, fwd),
            nb == side_neighbours(*ds, fwd, u),
            a == head[u as int],
            e == head[u + 1],
            a <= k <= e,
            e <= (if fwd { ds.eseg@.len() } else { ds.rseg@.len() }),
            queue@ == queue0 + done,
            *left == left0 - done.len(),
            done.len() <= left0,
            forall|i: int| 0 <= i < queue@.len() ==> (#[trigger] queue@[i]) < ds.nv(),
            claim(nb.skip(k - a), cell@, c, *left as nat).0 == want.0,
            done + claim(nb.skip(k - a), cell@, c, *left as nat).1 == want.1,
        decreases e - k,
    {
        let v: u32 = if fwd {
            ds.target(u, k)
        } else {
            ds.rtarget(u, k)
        };
        proof {
            assert(v == far_end(*ds, fwd, u, k as int));
            assert(nb.skip(k - a)[0] == v);
            assert(nb.skip(k - a).drop_first() =~= nb.skip(k + 1 - a));
        }
        let ghost cell0 = cell@;
        let ghost l0 = *left as nat;
        if cell[v as usize] == FREE {
            cell[v as usize] = c;
            *left = *left - 1;
            queue.push(v);
            proof {
                let rest = claim(nb.skip(k + 1 - a), cell@, c, *left as nat);
                assert(claim(nb.skip(k - a), cell0, c, l0) == (rest.0, seq![v] + rest.1));
                assert(done.push(v) + rest.1 =~= done + (seq![v] + rest.1));
                done = done.push(v);
                assert(queue@ =~= queue0 + done);
            }
        }
        k += 1;
    }
    proof {
        let rest = claim(nb.skip(k - a), cell@, c, *left as nat);
        assert(rest == (cell@, Seq::<u32>::empty()));
        assert(done + Seq::<u32>::empty() =~= done);
    }
}

// -------------------------------------------------------------- its regions

/// `u` and `v` are next to each other.
pub open spec fn adjacent(ds: Dataset, u: int, v: int) -> bool {
    &&& 0 <= u < ds.nv()
    &&& 0 <= v < ds.nv()
    &&& neighbours(ds, u as u32).contains(v as u32) || neighbours(ds, v as u32).contains(u as u32)
}

/// A path of neighbours from `u` to `v` that stays among `x`.
pub open spec fn linked(ds: Dataset, x: Set<int>, u: int, v: int, n: nat) -> bool
    decreases n,
{
    &&& x.contains(u)
    &&& x.contains(v)
    &&& if n == 0 {
        u == v
    } else {
        exists|w: int| #[trigger] adjacent(ds, w, v) && linked(ds, x, u, w, (n - 1) as nat)
    }
}

pub open spec fn members_of(cell: Seq<u32>, c: int) -> Set<int> {
    Set::new(|v: int| 0 <= v < cell.len() && cell[v] == c)
}

/// Region `c` hangs together from its vertex `s`.
pub open spec fn hangs(ds: Dataset, cell: Seq<u32>, c: int, s: int) -> bool {
    &&& members_of(cell, c).contains(s)
    &&& forall|v: int|
        #[trigger] members_of(cell, c).contains(v) ==> exists|n: nat|
            linked(ds, members_of(cell, c), s, v, n)
}

/// Regions `0..cells` are connected and hold no more than `most` vertices.
pub open spec fn cut_up(ds: Dataset, cell: Seq<u32>, cells: int, most: int) -> bool {
    forall|c: int|
        0 <= c < cells ==> {
            &&& (#[trigger] members_of(cell, c)).finite()
            &&& members_of(cell, c).len() <= most
            &&& exists|s: int| hangs(ds, cell, c, s)
        }
}

proof fn lemma_linked_more(ds: Dataset, x: Set<int>, y: Set<int>, u: int, v: int, n: nat)
    requires
        linked(ds, x, u, v, n),
        x.subset_of(y),
    ensures
        linked(ds, y, u, v, n),
    decreases n,
{
    if n > 0 {
        let w = choose|w: int|
            #[trigger] adjacent(ds, w, v) && linked(ds, x, u, w, (n - 1) as nat);
        lemma_linked_more(ds, x, y, u, w, (n - 1) as nat);
        assert(adjacent(ds, w, v));
    }
}

/// The map while region `c` grows from `s`: what is taken hangs together, and
/// nothing else has changed.
spec fn growing(
    ds: Dataset,
    before: Seq<u32>,
    cell: Seq<u32>,
    c: u32,
    s: int,
    size: int,
) -> bool {
    &&& cell.len() == ds.nv()
    &&& before.len() == cell.len()
    &&& forall|v: int|
        0 <= v < cell.len() ==> #[trigger] cell[v] == before[v] || (before[v] == FREE && cell[v]
            == c)
    &&& members_of(cell, c as int).finite()
    &&& members_of(cell, c as int).len() == size
    &&& hangs(ds, cell, c as int, s)
}

proof fn lemma_claim_grows(
    ds: Dataset,
    before: Seq<u32>,
    cell: Seq<u32>,
    c: u32,
    s: int,
    size: int,
    u: u32,
    list: Seq<u32>,
    room: nat,
)
    requires
        growing(ds, before, cell, c, s, size),
        c != FREE,
        u < ds.nv(),
        cell[u as int] == c,
        forall|i: int|
            0 <= i < list.len() ==> (#[trigger] list[i]) < ds.nv() && neighbours(ds, u).contains(
                list[i],
            ),
    ensures
        ({
            let (cell2, taken) = claim(list, cell, c, room);
            &&& growing(ds, before, cell2, c, s, size + taken.len())
            &&& forall|i: int|
                0 <= i < taken.len() ==> (#[trigger] taken[i]) < ds.nv() && cell2[taken[i] as int] == c
            &&& forall|v: int| 0 <= v < cell.len() && #[trigger] cell[v] == c ==> cell2[v] == c
        }),
    decreases list.len(),
{
    if list.len() == 0 || room == 0 {
    } else {
        let v = list[0];
        let rest = list.drop_first();
        assert forall|i: int| 0 <= i < rest.len() implies (#[trigger] rest[i]) < ds.nv()
            && neighbours(ds, u).contains(rest[i]) by {
            assert(rest[i] == list[i + 1]);
        }
        if cell[v as int] == FREE {
            let cell1 = cell.update(v as int, c);
            let (x, y) = (members_of(cell, c as int), members_of(cell1, c as int));
            assert(y =~= x.insert(v as int));
            assert(adjacent(ds, u as int, v as int));
            assert forall|z: int| #[trigger] y.contains(z) implies exists|n: nat|
                linked(ds, y, s, z, n) by {
                if z == v {
                    assert(x.contains(u as int));
                    let n = choose|n: nat| linked(ds, x, s, u as int, n);
                    lemma_linked_more(ds, x, y, s, u as int, n);
                    assert(linked(ds, y, s, z, n + 1)) by {
                        assert(adjacent(ds, u as int, z));
                    }
                } else {
                    assert(x.contains(z));
                    let n = choose|n: nat| linked(ds, x, s, z, n);
                    lemma_linked_more(ds, x, y, s, z, n);
                }
            }
            lemma_claim_grows(ds, before, cell1, c, s, size + 1, u, rest, (room - 1) as nat);
            let (cell2, t2) = claim(rest, cell1, c, (room - 1) as nat);
            let taken = seq![v] + t2;
            assert forall|i: int| 0 <= i < taken.len() implies (#[trigger] taken[i]) < ds.nv()
                && cell2[taken[i] as int] == c by {
                if i == 0 {
                    assert(cell1[v as int] == c);
                } else {
                    assert(taken[i] == t2[i - 1]);
                }
            }
            assert forall|w: int| 0 <= w < cell.len() && #[trigger] cell[w] == c implies cell2[w] == c by {
                assert(cell1[w] == c);
            }
        } else {
            lemma_claim_grows(ds, before, cell, c, s, size, u, rest, room);
        }
    }
}

proof fn lemma_flood_grows(
    ds: Dataset,
    before: Seq<u32>,
    cell: Seq<u32>,
    c: u32,
    s: int,
    size: int,
    room: nat,
    queue: Seq<u32>,
)
    requires
        ds.graph_ok(),
        growing(ds, before, cell, c, s, size),
        c != FREE,
        forall|i: int|
            0 <= i < queue.len() ==> (#[trigger] queue[i]) < ds.nv() && cell[queue[i] as int] == c,
    ensures
        exists|more: int|
            0 <= more <= room && #[trigger] growing(
                ds,
                before,
                flood(ds, cell, c, room, queue),
                c,
                s,
                size + more,
            ),
    decreases room, queue.len(),
{
    if queue.len() == 0 || room == 0 {
        assert(growing(ds, before, flood(ds, cell, c, room, queue), c, s, size + 0));
    } else {
        let u = queue[0];
        let list = neighbours(ds, u);
        lemma_neighbours(ds, u);
        lemma_claim_room(list, cell, c, room);
        assert forall|i: int| 0 <= i < list.len() implies (#[trigger] list[i]) < ds.nv()
            && neighbours(ds, u).contains(list[i]) by {}
        lemma_claim_grows(ds, before, cell, c, s, size, u, list, room);
        let (cell2, taken) = claim(list, cell, c, room);
        let next = queue.drop_first() + taken;
        assert forall|i: int| 0 <= i < next.len() implies (#[trigger] next[i]) < ds.nv()
            && cell2[next[i] as int] == c by {
            if i < queue.len() - 1 {
                assert(next[i] == queue[i + 1]);
                assert(cell[queue[i + 1] as int] == c);
            } else {
                assert(next[i] == taken[i - (queue.len() - 1)]);
            }
        }
        let left = (room - taken.len()) as nat;
        lemma_flood_grows(ds, before, cell2, c, s, size + taken.len(), left, next);
        let more = choose|more: int|
            0 <= more <= left && #[trigger] growing(
                ds,
                before,
                flood(ds, cell2, c, left, next),
                c,
                s,
                size + taken.len() + more,
            );
        assert(size + taken.len() + more == size + (taken.len() + more));
        assert(growing(
            ds,
            before,
            flood(ds, cell, c, room, queue),
            c,
            s,
            size + (taken.len() + more),
        ));
    }
}

pub proof fn lemma_neighbours(ds: Dataset, u: u32)
    requires
        ds.graph_ok(),
        u < ds.nv(),
    ensures
        forall|i: int| 0 <= i < neighbours(ds, u).len() ==> (#[trigger] neighbours(ds, u)[i]) < ds.nv(),
{
    let nb = neighbours(ds, u);
    let a = side_neighbours(ds, true, u);
    assert forall|i: int| 0 <= i < nb.len() implies (#[trigger] nb[i]) < ds.nv() by {
        if i < a.len() {
            assert(far_end(ds, true, u, edge_head(ds, true)[u as int] + i) < ds.nv());
        } else {
            let j = i - a.len();
            assert(nb[i] == side_neighbours(ds, false, u)[j]);
            assert(far_end(ds, false, u, edge_head(ds, false)[u as int] + j) < ds.nv());
        }
    }
}

/// Every vertex gets a region, regions are numbered without gaps, and each
/// hangs together and keeps to its size.
pub proof fn lemma_partition(ds: Dataset, target: int)
    requires
        ds.graph_ok(),
    ensures
        ({
            let (cell, cells) = spread(
                ds,
                Seq::new(ds.nv() as nat, |i: int| FREE),
                0,
                0,
                room_of(target),
            );
            &&& cell.len() == ds.nv()
            &&& 0 <= cells <= ds.nv()
            &&& forall|v: int| 0 <= v < ds.nv() ==> (#[trigger] cell[v]) < cells
            &&& cut_up(ds, cell, cells, room_of(target) as int + 1)
        }),
{
    let start = Seq::new(ds.nv() as nat, |i: int| FREE);
    lemma_spread(ds, start, 0, 0, room_of(target));
}

/// The vertices before `s` have regions below `cells`, the others have one or
/// are free.
spec fn half_done(ds: Dataset, cell: Seq<u32>, s: int, cells: int, room: nat) -> bool {
    &&& cell.len() == ds.nv()
    &&& 0 <= cells <= s
    &&& forall|v: int| 0 <= v < s && v < ds.nv() ==> (#[trigger] cell[v]) < cells
    &&& forall|v: int| 0 <= v < ds.nv() ==> #[trigger] cell[v] == FREE || cell[v] < cells
    &&& cut_up(ds, cell, cells, room as int + 1)
}

proof fn lemma_spread(ds: Dataset, cell: Seq<u32>, s: int, cells: int, room: nat)
    requires
        ds.graph_ok(),
        0 <= s <= ds.nv(),
        half_done(ds, cell, s, cells, room),
    ensures
        ({
            let (cell2, cells2) = spread(ds, cell, s, cells, room);
            &&& cells2 <= ds.nv()
            &&& half_done(ds, cell2, ds.nv(), cells2, room)
        }),
    decreases ds.nv() - s,
{
    if s < ds.nv() {
        if cell[s] == FREE {
            let c = cells as u32;
            let cell1 = cell.update(s, c);
            let x = members_of(cell1, cells);
            assert(x =~= Set::empty().insert(s));
            assert(linked(ds, x, s, s, 0));
            assert(growing(ds, cell, cell1, c, s, 1));
            lemma_flood_grows(ds, cell, cell1, c, s, 1, room, seq![s as u32]);
            let cell2 = flood(ds, cell1, c, room, seq![s as u32]);
            let more = choose|more: int|
                0 <= more <= room && #[trigger] growing(ds, cell, cell2, c, s, 1 + more);
            assert(cut_up(ds, cell2, cells + 1, room as int + 1)) by {
                assert forall|d: int| 0 <= d < cells + 1 implies {
                    &&& (#[trigger] members_of(cell2, d)).finite()
                    &&& members_of(cell2, d).len() <= room + 1
                    &&& exists|z: int| hangs(ds, cell2, d, z)
                } by {
                    if d < cells {
                        assert(members_of(cell2, d) =~= members_of(cell, d));
                        let z = choose|z: int| hangs(ds, cell, d, z);
                        assert(hangs(ds, cell2, d, z));
                    } else {
                        assert(hangs(ds, cell2, d, s));
                    }
                }
            }
            assert(members_of(cell2, cells).contains(s));
            assert forall|v: int| 0 <= v < s + 1 && v < ds.nv() implies (#[trigger] cell2[v]) < cells
                + 1 by {
                if v < s {
                    assert(cell[v] < cells);
                }
            }
            assert forall|v: int| 0 <= v < ds.nv() implies #[trigger] cell2[v] == FREE || cell2[v]
                < cells + 1 by {
                assert(cell[v] == FREE || cell[v] < cells);
            }
            lemma_spread(ds, cell2, s + 1, cells + 1, room);
        } else {
            lemma_spread(ds, cell, s + 1, cells, room);
        }
    }
}

} // verus!
