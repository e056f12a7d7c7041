//! Whether the arrays of an overlay fit together.

use vstd::prelude::*;
use crate::checks::{all_below, is_head};
use crate::dataset::head_ok;
use crate::lookup::{ascending, position};
use crate::overlay::shape::{
    cell_at, gates, index_in, ladder_ok, members, regions, rung_ok, Ladder, Lazy, Level, Overlay,
    Values,
};

verus! {

/// Whether a list rises.
fn rises(v: &[u32]) -> (r: bool)
    ensures
        r == ascending(v@),
{
    let mut i: usize = 1;
    while i < v.len()
        invariant
            1 <= i,
            i <= v@.len() || v@.len() == 0,
            forall|a: int, b: int| 0 <= a < b < i && b < v@.len() ==> v@[a] < v@[b],
        decreases v@.len() - i,
    {
        if v[i - 1] >= v[i] {
            assert(!(v@[i - 1] < v@[i as int]));
            return false;
        }
        assert forall|a: int, b: int| 0 <= a < b < i + 1 implies v@[a] < v@[b] by {
            if b == i && a < i - 1 {
                assert(v@[a] < v@[i - 1]);
            }
        }
        i += 1;
    }
    true
}

/// The list of region `c`.
fn list_of<'b>(head: &'b [u32], list: &'b [u32], c: usize) -> (r: &'b [u32])
    requires
        head_ok(head@, list@.len() as int),
        c + 1 < head@.len(),
    ensures
        r@ == list@.subrange(head@[c as int] as int, head@[c + 1] as int),
{
    let n: usize = head.len();
    assert(head@[c as int] <= head@[c + 1] <= head@[n - 1]);
    let m: usize = list.len();
    let (a, e): (usize, usize) = (head[c] as usize, head[c + 1] as usize);
    assert(e <= m);
    vstd::slice::slice_subrange(list, a, e)
}

/// Whether every region's list rises.
fn lists_rise(head: &[u32], list: &[u32]) -> (r: bool)
    requires
        head_ok(head@, list@.len() as int),
    ensures
        r == forall|c: int|
            0 <= c < head@.len() - 1 ==> ascending(
                list@.subrange((#[trigger] head@[c]) as int, head@[c + 1] as int),
            ),
{
    let n: usize = head.len();
    let mut c: usize = 0;
    while c + 1 < n
        invariant
            n == head@.len(),
            n >= 1,
            c + 1 <= n,
            head_ok(head@, list@.len() as int),
            forall|x: int|
                0 <= x < c ==> ascending(
                    list@.subrange((#[trigger] head@[x]) as int, head@[x + 1] as int),
                ),
        decreases n - c,
    {
        if !rises(list_of(head, list, c)) {
            assert(!ascending(list@.subrange(head@[c as int] as int, head@[c + 1] as int)));
            return false;
        }
        c += 1;
    }
    true
}

/// Whether each gate of a region is one of its members.
fn gates_within(l: &Level, z: &Lazy) -> (r: bool)
    requires
        l.values matches Values::Lazy(y) && y == *z,
        head_ok(l.bhead@, l.bnd@.len() as int),
        head_ok(z.vhead@, z.vlist@.len() as int),
        z.vhead@.len() == l.bhead@.len(),
        forall|c: int| 0 <= c < regions(l.rung()) ==> ascending(#[trigger] members(l.rung(), c)),
    ensures
        r == forall|c: int, i: int|
            0 <= c < regions(l.rung()) && 0 <= i < gates(l.rung(), c).len() ==> index_in(
                members(l.rung(), c),
                #[trigger] gates(l.rung(), c)[i],
            ) is Some,
{
    let ghost g = l.rung();
    let n: usize = l.bhead.len();
    let mut c: usize = 0;
    while c + 1 < n
        invariant
            g == l.rung(),
            n == l.bhead@.len(),
            n >= 1,
            c + 1 <= n,
            g.vhead == z.vhead@,
            g.vlist == z.vlist@,
            head_ok(l.bhead@, l.bnd@.len() as int),
            head_ok(z.vhead@, z.vlist@.len() as int),
            z.vhead@.len() == n,
            forall|x: int| 0 <= x < regions(g) ==> ascending(#[trigger] members(g, x)),
            forall|x: int, i: int|
                0 <= x < c && 0 <= i < gates(g, x).len() ==> index_in(
                    members(g, x),
                    #[trigger] gates(g, x)[i],
                ) is Some,
        decreases n - c,
    {
        let own: &[u32] = list_of(z.vhead, z.vlist, c);
        let bl: &[u32] = list_of(l.bhead, l.bnd, c);
        assert(own@ == members(g, c as int) && bl@ == gates(g, c as int));
        let mut i: usize = 0;
        while i < bl.len()
            invariant
                i <= bl@.len(),
                g == l.rung(),
                own@ == members(g, c as int),
                bl@ == gates(g, c as int),
                ascending(own@),
                0 <= c < regions(g),
                forall|x: int|
                    0 <= x < i ==> index_in(
                        members(g, c as int),
                        #[trigger] gates(g, c as int)[x],
                    ) is Some,
            decreases bl@.len() - i,
        {
            match position(own, bl[i]) {
                None => {
                    assert(!(index_in(members(g, c as int), gates(g, c as int)[i as int]) is Some));
                    return false;
                },
                Some(x) => {
                    assert(own@[x as int] == bl@[i as int]);
                },
            }
            i += 1;
        }
        c += 1;
    }
    true
}

/// Whether the tables of an eager level lie in its matrix.
fn tables_within(l: &Level, mat: &[u8], width: &[u8]) -> (r: bool)
    requires
        l.values matches Values::Eager { mat: m, width: w } && m@ == mat@ && w@ == width@,
        head_ok(l.bhead@, l.bnd@.len() as int),
        l.head@.len() == l.bhead@.len(),
        width@.len() == regions(l.rung()),
    ensures
        r == forall|c: int|
            0 <= c < regions(l.rung()) ==> (#[trigger] l.rung().head[c]) + gates(
                l.rung(),
                c,
            ).len() * gates(l.rung(), c).len() * (if l.rung().width[c] == 2 {
                2int
            } else {
                4int
            }) <= l.rung().mat.len(),
{
    let ghost g = l.rung();
    let n: usize = l.bhead.len();
    let mut c: usize = 0;
    while c + 1 < n
        invariant
            g == l.rung(),
            n == l.bhead@.len(),
            n >= 1,
            c + 1 <= n,
            g.mat == mat@,
            g.width == width@,
            head_ok(l.bhead@, l.bnd@.len() as int),
            l.head@.len() == n,
            width@.len() == n - 1,
            forall|x: int|
                0 <= x < c ==> (#[trigger] g.head[x]) + gates(g, x).len() * gates(g, x).len() * (
                if g.width[x] == 2 {
                    2int
                } else {
                    4int
                }) <= g.mat.len(),
        decreases n - c,
    {
        let b: u64 = list_of(l.bhead, l.bnd, c).len() as u64;
        let each: u128 = if width[c] == 2 {
            2
        } else {
            4
        };
        assert(b == gates(g, c as int).len());
        assert(0 <= b * b <= 0xFFFF_FFFF_FFFF_FFFF * 0xFFFF_FFFF_FFFF_FFFF) by (nonlinear_arith)
            requires
                0 <= b <= 0xFFFF_FFFF_FFFF_FFFF,
        ;
        proof {
            assert(l.bhead@[c as int] <= l.bhead@[c + 1]);
            assert(b <= 0xFFFF_FFFF);
            assert(b * b <= 0xFFFF_FFFF * 0xFFFF_FFFF) by (nonlinear_arith)
                requires
                    0 <= b <= 0xFFFF_FFFF,
            ;
        }
        let square: u128 = b as u128 * b as u128;
        let end: u128 = l.head[c] as u128 + square * each;
        if end > mat.len() as u128 {
            assert(g.head[c as int] + gates(g, c as int).len() * gates(g, c as int).len() * (
            if g.width[c as int] == 2 {
                2int
            } else {
                4int
            }) > g.mat.len());
            return false;
        }
        c += 1;
    }
    true
}

/// Whether the arrays of one level fit together.
fn level_fits(l: &Level, units: usize, nv: usize) -> (r: bool)
    ensures
        r == rung_ok(l.rung(), units as int, nv as int),
{
    let ghost g = l.rung();
    if l.bhead.len() == 0 {
        return false;
    }
    let n: usize = l.bhead.len() - 1;
    assert(regions(g) == n);
    if n as u64 > u32::MAX as u64 || l.of.len() != units || !all_below(l.of, n) || !is_head(
        l.bhead,
        l.bnd.len(),
    ) || !all_below(l.bnd, nv) || l.head.len() != n + 1 {
        return false;
    }
    if !lists_rise(l.bhead, l.bnd) {
        proof {
            let c = choose|c: int|
                0 <= c < l.bhead@.len() - 1 && !ascending(
                    l.bnd@.subrange((#[trigger] l.bhead@[c]) as int, l.bhead@[c + 1] as int),
                );
            assert(!ascending(gates(g, c)));
        }
        return false;
    }
    assert forall|c: int| 0 <= c < regions(g) implies ascending(#[trigger] gates(g, c)) by {
        assert(ascending(l.bnd@.subrange(l.bhead@[c] as int, l.bhead@[c + 1] as int)));
    }
    match &l.values {
        Values::Eager { mat, width } => width.len() == n && tables_within(l, mat, width),
        Values::Lazy(z) => {
            if z.vhead.len() != n + 1 || !is_head(z.vhead, z.vlist.len()) || !all_below(z.vlist, nv) {
                return false;
            }
            if !lists_rise(z.vhead, z.vlist) {
                proof {
                    let c = choose|c: int|
                        0 <= c < z.vhead@.len() - 1 && !ascending(
                            z.vlist@.subrange(
                                (#[trigger] z.vhead@[c]) as int,
                                z.vhead@[c + 1] as int,
                            ),
                        );
                    assert(!ascending(members(g, c)));
                }
                return false;
            }
            assert forall|c: int| 0 <= c < regions(g) implies ascending(#[trigger] members(g, c)) by {
                assert(ascending(z.vlist@.subrange(z.vhead@[c] as int, z.vhead@[c + 1] as int)));
            }
            gates_within(l, z)
        },
    }
}

impl<'a> Level<'a> {
    /// Where the block of region `c` ends.
    pub open spec fn block_end(&self, c: int) -> int {
        self.head@[c] + 2 * gates(self.rung(), c).len() * gates(self.rung(), c).len()
    }

    /// A lazy level's blocks follow each other inside its table, and every row
    /// has its presence bits.
    pub open spec fn blocks_follow(&self) -> bool {
        self.values is Lazy ==> {
            let z = self.lazy();
            &&& z.bits_ok()
            &&& z.rows == self.bnd@.len()
            &&& z.use_ct@.len() == 0 || z.use_ct@.len() == z.vlist@.len()
            &&& forall|c: int| 0 <= c < regions(self.rung()) ==> self.follows(c)
        }
    }

    /// A block ends where the next begins at the latest, and the last of them
    /// inside the table.
    pub open spec fn follows(&self, c: int) -> bool {
        if c + 1 < regions(self.rung()) {
            self.block_end(c) <= self.head@[c + 1]
        } else {
            self.block_end(c) <= self.lazy().data@.len()
        }
    }

    /// Whether the blocks of a lazy level follow each other.
    fn blocks_fit(&self) -> (r: bool)
        requires
            head_ok(self.bhead@, self.bnd@.len() as int),
            self.head@.len() == self.bhead@.len(),
        ensures
            r == self.blocks_follow(),
    {
        match &self.values {
            Values::Eager { .. } => true,
            Values::Lazy(z) => {
                let have: usize = z.have.len();
                if z.rows != self.bnd.len() || (z.use_ct.len() != 0 && z.use_ct.len()
                    != z.vlist.len()) {
                    return false;
                }
                if have > usize::MAX / 8 || 2 * z.rows as u128 > 8 * have as u128 {
                    return false;
                }
                let n: usize = self.bhead.len();
                let mut c: usize = 0;
                while c + 1 < n
                    invariant
                        n == self.bhead@.len(),
                        n >= 1,
                        c + 1 <= n,
                        head_ok(self.bhead@, self.bnd@.len() as int),
                        self.head@.len() == n,
                        self.values is Lazy,
                        self.lazy() == *z,
                        forall|x: int| 0 <= x < c ==> self.follows(x),
                    decreases n - c,
                {
                    let b: u64 = list_of(self.bhead, self.bnd, c).len() as u64;
                    proof {
                        assert(b == gates(self.rung(), c as int).len());
                        assert(self.bhead@[c as int] <= self.bhead@[c + 1]);
                        assert(0 <= b * b <= 0xFFFF_FFFF * 0xFFFF_FFFF) by (nonlinear_arith)
                            requires
                                0 <= b <= 0xFFFF_FFFF,
                        ;
                        assert(2 * b * b == 2 * (b * b)) by (nonlinear_arith);
                    }
                    let square: u128 = b as u128 * b as u128;
                    let end: u128 = self.head[c] as u128 + 2 * square;
                    assert(end == self.block_end(c as int));
                    let room: u128 = if c + 2 < n {
                        self.head[c + 1] as u128
                    } else {
                        z.data.len() as u128
                    };
                    if end > room {
                        assert(!self.follows(c as int));
                        return false;
                    }
                    c += 1;
                }
                true
            },
        }
    }
}

/// Blocks that follow each other lie apart.
proof fn lemma_follow(l: Level, c: int, d: int)
    requires
        l.values is Lazy,
        l.blocks_follow(),
        0 <= c < d < regions(l.rung()),
    ensures
        l.block_end(c) <= l.head@[d],
    decreases d - c,
{
    assert(l.follows(c));
    if c + 1 < d {
        lemma_follow(l, c + 1, d);
        let w = gates(l.rung(), c + 1).len() as int;
        assert(2 * w * w >= 0) by (nonlinear_arith);
    }
}

proof fn lemma_blocks(l: Level)
    requires
        l.blocks_follow(),
    ensures
        l.blocks_ok(),
{
    if l.values is Lazy {
        let n = regions(l.rung());
        assert forall|c: int| 0 <= c < n implies (#[trigger] l.head@[c]) + 2 * gates(
            l.rung(),
            c,
        ).len() * gates(l.rung(), c).len() <= l.lazy().data@.len() by {
            assert(l.follows(n - 1));
            if c < n - 1 {
                lemma_follow(l, c, n - 1);
                let w = gates(l.rung(), n - 1).len() as int;
                assert(2 * w * w >= 0) by (nonlinear_arith);
            }
            assert(l.block_end(c) <= l.lazy().data@.len());
        }
        assert forall|c: int, d: int| 0 <= c < n && 0 <= d < n && c != d implies (
        #[trigger] l.head@[c]) + 2 * gates(l.rung(), c).len() * gates(l.rung(), c).len() <= (
        #[trigger] l.head@[d]) || l.head@[d] + 2 * gates(l.rung(), d).len() * gates(
            l.rung(),
            d,
        ).len() <= l.head@[c] by {
            if c < d {
                lemma_follow(l, c, d);
                assert(l.block_end(c) <= l.head@[d]);
            } else {
                lemma_follow(l, d, c);
                assert(l.block_end(d) <= l.head@[c]);
            }
        }
    }
}

/// Each gate of level `k` stands in the region that lists it.
pub open spec fn gates_home(l: Ladder, k: int) -> bool {
    forall|c: int, i: int|
        0 <= c < regions(l[k]) && 0 <= i < gates(l[k], c).len() ==> cell_at(
            l,
            k,
            #[trigger] gates(l[k], c)[i] as int,
        ) == c
}

/// Whether each gate of a level stands in the region that lists it, `cell`
/// giving the region of every vertex.
fn gates_stand(l: &Level, cell: &Vec<u32>, Ghost(ladder): Ghost<Ladder>, Ghost(k): Ghost<int>) -> (r:
    bool)
    requires
        l.rung() == ladder[k],
        head_ok(l.bhead@, l.bnd@.len() as int),
        forall|i: int| 0 <= i < l.bnd@.len() ==> (#[trigger] l.bnd@[i]) < cell@.len(),
        forall|v: int| 0 <= v < cell@.len() ==> #[trigger] cell@[v] == cell_at(ladder, k, v),
    ensures
        r == gates_home(ladder, k),
{
    let ghost g = ladder[k];
    let n: usize = l.bhead.len();
    let mut c: usize = 0;
    while c + 1 < n
        invariant
            g == ladder[k],
            l.rung() == g,
            n == l.bhead@.len(),
            n >= 1,
            c + 1 <= n,
            head_ok(l.bhead@, l.bnd@.len() as int),
            forall|i: int| 0 <= i < l.bnd@.len() ==> (#[trigger] l.bnd@[i]) < cell@.len(),
            forall|v: int| 0 <= v < cell@.len() ==> #[trigger] cell@[v] == cell_at(ladder, k, v),
            forall|x: int, i: int|
                0 <= x < c && 0 <= i < gates(g, x).len() ==> cell_at(
                    ladder,
                    k,
                    #[trigger] gates(g, x)[i] as int,
                ) == x,
        decreases n - c,
    {
        let bl: &[u32] = list_of(l.bhead, l.bnd, c);
        assert(bl@ == gates(g, c as int));
        assert(l.bhead@[c as int] <= l.bhead@[c + 1] <= l.bhead@[n - 1]);
        let mut i: usize = 0;
        while i < bl.len()
            invariant
                i <= bl@.len(),
                bl@ == gates(g, c as int),
                g == ladder[k],
                c < regions(g),
                forall|x: int| 0 <= x < bl@.len() ==> (#[trigger] bl@[x]) < cell@.len(),
                forall|v: int|
                    0 <= v < cell@.len() ==> #[trigger] cell@[v] == cell_at(ladder, k, v),
                forall|x: int|
                    0 <= x < i ==> cell_at(ladder, k, #[trigger] gates(g, c as int)[x] as int) == c,
            decreases bl@.len() - i,
        {
            let v: u32 = bl[i];
            assert(bl@[i as int] < cell@.len());
            if cell[v as usize] as usize != c {
                assert(cell_at(ladder, k, gates(g, c as int)[i as int] as int) != c);
                return false;
            }
            i += 1;
        }
        c += 1;
    }
    true
}

impl<'a> Overlay<'a> {
    /// The arrays fit together, and every lazy level's blocks follow each other.
    pub open spec fn in_order(&self) -> bool {
        &&& ladder_ok(self.ladder())
        &&& forall|k: int|
            0 <= k < self.levels@.len() ==> (#[trigger] self.levels@[k]).blocks_follow()
    }

    /// Level `k` fits the one below, its gates stand where they are listed, and
    /// its blocks follow each other.
    pub open spec fn fits_at(&self, k: int) -> bool {
        let l = self.ladder();
        &&& rung_ok(l[k], units_at(l, k), l[0].of.len() as int)
        &&& gates_home(l, k)
        &&& self.levels@[k].blocks_follow()
    }

    /// Whether level `k` fits the one below; and the region of every vertex on
    /// it, from those on the level below.
    #[verifier::rlimit(40)]
    fn level_nested(&self, k: usize, cell: &Vec<u32>) -> (r: (bool, Vec<u32>))
        requires
            k < self.levels@.len(),
            k > 0 ==> self.ladder()[k - 1].bhead.len() >= 1,
            k > 0 ==> cell_of_all(self.ladder(), k - 1, cell@),
        ensures
            r.0 == self.fits_at(k as int),
            r.0 ==> cell_of_all(self.ladder(), k as int, r.1@),
    {
        let ghost l = self.ladder();
        let nv: usize = self.levels[0].of.len();
        assert(l[0] == self.levels@[0].rung());
        let lev: &Level = &self.levels[k];
        assert(l[k as int] == lev.rung());
        let units: usize = if k == 0 {
            nv
        } else {
            assert(l[k - 1] == self.levels@[k - 1].rung());
            self.levels[k - 1].bhead.len() - 1
        };
        assert(units == units_at(l, k as int));
        if !level_fits(lev, units, nv) {
            return (false, Vec::new());
        }
        let next: Vec<u32> = moved_up(lev, cell, k == 0, nv);
        proof {
            assert forall|v: int| 0 <= v < nv implies #[trigger] next@[v] == cell_at(
                l,
                k as int,
                v,
            ) && next@[v] < regions(l[k as int]) by {
                if k > 0 {
                    assert(cell@[v] == cell_at(l, k - 1, v));
                }
            }
        }
        if !gates_stand(lev, &next, Ghost(l), Ghost(k as int)) {
            return (false, next);
        }
        (lev.blocks_fit(), next)
    }

    /// Whether the arrays of the overlay fit together.
    pub fn nested(&self) -> (r: bool)
        ensures
            r == self.in_order(),
            r ==> self.wf(),
    {
        let n: usize = self.levels.len();
        assert(self.ladder().len() == n);
        if n == 0 {
            proof {
                reveal(ladder_ok);
            }
            return false;
        }
        let mut cell: Vec<u32> = Vec::new();
        let mut k: usize = 0;
        while k < n
            invariant
                k <= n,
                n == self.levels@.len(),
                n == self.ladder().len(),
                forall|x: int| 0 <= x < k ==> #[trigger] self.fits_at(x),
                k > 0 ==> cell_of_all(self.ladder(), k - 1, cell@),
            decreases n - k,
        {
            proof {
                if k > 0 {
                    assert(self.fits_at(k - 1));
                }
            }
            let (fine, next): (bool, Vec<u32>) = self.level_nested(k, &cell);
            if !fine {
                proof {
                    lemma_fits(self, k as int);
                }
                return false;
            }
            cell = next;
            k += 1;
        }
        proof {
            lemma_nested(self);
        }
        true
    }
}

/// What level `k` is over: the vertices, or the regions of the level below.
pub open spec fn units_at(l: Ladder, k: int) -> int {
    if k == 0 {
        l[0].of.len() as int
    } else {
        regions(l[k - 1])
    }
}

/// `cell` is the region of every vertex on level `k`.
pub open spec fn cell_of_all(l: Ladder, k: int, cell: Seq<u32>) -> bool {
    &&& cell.len() == l[0].of.len()
    &&& forall|v: int|
        0 <= v < cell.len() ==> #[trigger] cell[v] == cell_at(l, k, v) && cell[v] < regions(l[k])
}

/// Where the overlay is in order, every level fits.
proof fn lemma_fits(ov: &Overlay, k: int)
    requires
        0 <= k < ov.levels@.len(),
    ensures
        ov.in_order() ==> ov.fits_at(k),
{
    if ov.in_order() {
        let l = ov.ladder();
        reveal(ladder_ok);
        assert(rung_ok(l[k], units_at(l, k), l[0].of.len() as int));
        assert(ov.levels@[k].blocks_follow());
        assert forall|c: int, i: int| 0 <= c < regions(l[k]) && 0 <= i < gates(l[k], c).len() implies cell_at(
            l,
            k,
            #[trigger] gates(l[k], c)[i] as int,
        ) == c by {}
    }
}

/// Where every level fits, the overlay is in order.
proof fn lemma_nested(ov: &Overlay)
    requires
        ov.levels@.len() > 0,
        forall|k: int| 0 <= k < ov.levels@.len() ==> #[trigger] ov.fits_at(k),
    ensures
        ov.in_order(),
        ov.wf(),
{
    let l = ov.ladder();
    reveal(ladder_ok);
    let nv = l[0].of.len() as int;
    assert forall|k: int| 0 <= k < l.len() implies rung_ok(
        #[trigger] l[k],
        if k == 0 {
            nv
        } else {
            regions(l[k - 1])
        },
        nv,
    ) by {
        assert(ov.fits_at(k));
    }
    assert forall|k: int, c: int, i: int|
        0 <= k < l.len() && 0 <= c < regions(l[k]) && 0 <= i < gates(l[k], c).len() implies cell_at(
        l,
        k,
        #[trigger] gates(l[k], c)[i] as int,
    ) == c by {
        assert(ov.fits_at(k));
        assert(gates_home(l, k));
    }
    assert forall|k: int| 0 <= k < ov.levels@.len() implies (#[trigger] ov.levels@[k]).blocks_follow()
        && ov.levels@[k].blocks_ok() by {
        assert(ov.fits_at(k));
        lemma_blocks(ov.levels@[k]);
    }
}

/// The regions of the vertices on this level, from those on the level below.
fn moved_up(l: &Level, cell: &Vec<u32>, first: bool, nv: usize) -> (r: Vec<u32>)
    requires
        first ==> l.of@.len() == nv,
        !first ==> cell@.len() == nv && forall|v: int|
            0 <= v < nv ==> (#[trigger] cell@[v]) < l.of@.len(),
        forall|u: int| 0 <= u < l.of@.len() ==> (#[trigger] l.of@[u]) < regions(l.rung()),
    ensures
        r@.len() == nv,
        forall|v: int|
            0 <= v < nv ==> #[trigger] r@[v] == (if first {
                l.of@[v]
            } else {
                l.of@[cell@[v] as int]
            }) && r@[v] < regions(l.rung()),
{
    let mut r: Vec<u32> = Vec::new();
    while r.len() < nv
        invariant
            r@.len() <= nv,
            first ==> l.of@.len() == nv,
            !first ==> cell@.len() == nv && forall|v: int|
                0 <= v < nv ==> (#[trigger] cell@[v]) < l.of@.len(),
            forall|u: int| 0 <= u < l.of@.len() ==> (#[trigger] l.of@[u]) < regions(l.rung()),
            forall|v: int|
                0 <= v < r@.len() ==> #[trigger] r@[v] == (if first {
                    l.of@[v]
                } else {
                    l.of@[cell@[v] as int]
                }) && r@[v] < regions(l.rung()),
        decreases nv - r@.len(),
    {
        let v: usize = r.len();
        if first {
            let c: u32 = l.of[v];
            r.push(c);
        } else {
            assert(cell@[v as int] < l.of@.len());
            let u: usize = cell[v] as usize;
            let c: u32 = l.of[u];
            r.push(c);
        }
    }
    r
}

} // verus!
