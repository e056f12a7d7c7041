//! Whole tables: the shortest time between every two gates of a region.

use vstd::prelude::*;
use crate::bytes::{le, lemma_le_len, put_u32};
use crate::dataset::Dataset;
use crate::lookup::ascending;
use crate::overlay::rows::region_net;
use crate::overlay::shape::{index_in, local_index, packed_entry, Ladder, Overlay};
use crate::overrides::{table, Effect, Overrides};
use crate::paths::{dist_to, is_dist, lemma_dist_to, UNREACHABLE};

verus! {

/// The shortest time from `a` to `b` over paths among the members `list` of a
/// region of level `k`. A vertex that is no member is out of reach.
pub open spec fn pair_cost(
    ds: Dataset,
    effects: Seq<(u32, Effect)>,
    l: Ladder,
    k: int,
    list: Seq<u32>,
    a: u32,
    b: u32,
    fwd: bool,
) -> u32 {
    match (index_in(list, a), index_in(list, b)) {
        (Some(x), Some(y)) => dist_to(
            region_net(ds, effects, l, k, list, fwd),
            seq![(x, 0int)],
            y,
        ),
        _ => UNREACHABLE,
    }
}

/// A region's table, row by row: entry `(i, j)` is the cost from gate `i` to
/// gate `j`.
pub open spec fn region_costs(
    ds: Dataset,
    effects: Seq<(u32, Effect)>,
    l: Ladder,
    k: int,
    list: Seq<u32>,
    bnd: Seq<u32>,
    out: Seq<u32>,
) -> bool {
    &&& out.len() == bnd.len() * bnd.len()
    &&& forall|i: int, j: int|
        0 <= i < bnd.len() && 0 <= j < bnd.len() ==> #[trigger] out[i * bnd.len() + j]
            == pair_cost(ds, effects, l, k, list, bnd[i], bnd[j], true)
}

impl<'a> Overlay<'a> {
    /// Fill one region's table: shortest time between each ordered pair of
    /// its boundary vertices, using only paths that stay inside the region.
    ///
    /// `list` is the region's vertex set at level `k`, ascending, and `bnd`
    /// the subset of those that this level treats as boundary.
    pub fn region_table(
        &mut self,
        ds: &Dataset,
        ovr: Option<&Overrides>,
        k: usize,
        list: &[u32],
        bnd: &[u32],
    ) -> (out: Vec<u32>)
        requires
            k > 0 ==> old(self).wf() && ds.nv() == old(self).ladder()[0].of.len(),
            ds.graph_ok(),
            ds.ns() <= u32::MAX,
            ovr matches Some(o) ==> o.wf(),
            k <= old(self).levels@.len(),
            ascending(list@),
            list@.len() <= u32::MAX,
            forall|x: int| 0 <= x < list@.len() ==> (#[trigger] list@[x]) < ds.nv(),
            old(self).valid_below(*ds, table(ovr), k as int),
            bnd@.len() * bnd@.len() <= usize::MAX,
        ensures
            k > 0 ==> final(self).wf(),
            k == 0 ==> *final(self) == *old(self),
            final(self).grown(old(self), k as int),
            final(self).valid_below(*ds, table(ovr), k as int),
            region_costs(*ds, table(ovr), old(self).ladder(), k as int, list@, bnd@, out@),
    {
        let ghost l = self.ladder();
        let ghost eff = table(ovr);
        let ghost before = *self;
        let b: usize = bnd.len();
        let mut out: Vec<u32> = Vec::new();
        let mut i: usize = 0;
        assert(0 * b == 0) by (nonlinear_arith);
        while i < b
            invariant
                k > 0 ==> self.wf() && ds.nv() == l[0].of.len(),
                k == 0 ==> *self == before,
                l == self.ladder(),
                eff == table(ovr),
                ds.graph_ok(),
                ds.ns() <= u32::MAX,
                ovr matches Some(o) ==> o.wf(),
                k <= self.levels@.len(),
                ascending(list@),
                list@.len() <= u32::MAX,
                forall|x: int| 0 <= x < list@.len() ==> (#[trigger] list@[x]) < ds.nv(),
                self.grown(&before, k as int),
                self.valid_below(*ds, eff, k as int),
                b == bnd@.len(),
                i <= b,
                b * b <= usize::MAX,
                out@.len() == i * b,
                forall|x: int, y: int|
                    0 <= x < i && 0 <= y < b ==> #[trigger] out@[x * b + y] == pair_cost(
                        *ds,
                        eff,
                        l,
                        k as int,
                        list@,
                        bnd@[x],
                        bnd@[y],
                        true,
                    ),
            decreases b - i,
        {
            let src: u32 = bnd[i];
            let ghost net = region_net(*ds, eff, l, k as int, list@, true);
            let inside: bool = match local_index(list, src) {
                Some(_) => true,
                None => false,
            };
            let ghost was = *self;
            let dist: Vec<u32> = if inside {
                self.row_search(ds, ovr, k, src, list, true)
            } else {
                Vec::new()
            };
            proof {
                if k > 0 && inside {
                    lemma_grown_twice(&before, &was, &*self, k as int);
                }
            }
            let ghost out0 = out@;
            let mut j: usize = 0;
            while j < b
                invariant
                    b == bnd@.len(),
                    i < b,
                    j <= b,
                    ascending(list@),
                    net == region_net(*ds, eff, l, k as int, list@, true),
                    out@.len() == i * b + j,
                    out0.len() == i * b,
                    inside == (index_in(list@, src) is Some),
                    src == bnd@[i as int],
                    inside ==> dist@.len() == list@.len() && forall|v: int|
                        0 <= v < list@.len() ==> is_dist(
                            net,
                            seq![(index_in(list@, src)->0, 0int)],
                            v,
                            #[trigger] dist@[v],
                        ),
                    forall|x: int| 0 <= x < i * b ==> #[trigger] out@[x] == out0[x],
                    forall|y: int|
                        0 <= y < j ==> #[trigger] out@[i * b + y] == pair_cost(
                            *ds,
                            eff,
                            l,
                            k as int,
                            list@,
                            bnd@[i as int],
                            bnd@[y],
                            true,
                        ),
                decreases b - j,
            {
                let d: u32 = if inside {
                    match local_index(list, bnd[j]) {
                        Some(x) => {
                            proof {
                                lemma_dist_to(
                                    net,
                                    seq![(index_in(list@, src)->0, 0int)],
                                    x as int,
                                    dist@[x as int],
                                );
                            }
                            dist[x]
                        },
                        None => UNREACHABLE,
                    }
                } else {
                    UNREACHABLE
                };
                out.push(d);
                j += 1;
            }
            proof {
                assert((i + 1) * b == i * b + b) by (nonlinear_arith);
                assert forall|x: int, y: int| 0 <= x < i + 1 && 0 <= y < b implies #[trigger] out@[x
                    * b + y] == pair_cost(
                    *ds,
                    eff,
                    l,
                    k as int,
                    list@,
                    bnd@[x],
                    bnd@[y],
                    true,
                ) by {
                    if x < i {
                        assert(0 <= x * b + y < i * b) by (nonlinear_arith)
                            requires
                                0 <= x < i,
                                0 <= y < b,
                        ;
                        assert(out0[x * b + y] == out@[x * b + y]);
                    }
                }
            }
            i += 1;
        }
        out
    }
}

pub proof fn lemma_grown_twice<'a>(
    s0: &Overlay<'a>,
    s1: &Overlay<'a>,
    s2: &Overlay<'a>,
    k: int,
)
    requires
        s1.grown(s0, k),
        s2.grown(s1, k),
    ensures
        s2.grown(s0, k),
{
    assert forall|m: int| k <= m < s2.levels@.len() implies (#[trigger] s2.levels@[m]).same_table(
        &s0.levels@[m],
    ) by {
        assert(s1.levels@[m].same_table(&s0.levels@[m]));
    }
    assert forall|m: int, c: int, i: int, fwd: bool|
        0 <= m < k && 0 <= c < crate::overlay::shape::regions(s2.ladder()[m]) && 0 <= i
            < crate::overlay::shape::gates(s2.ladder()[m], c).len() && s0.levels@[m].has_row(
            c,
            i,
            fwd,
        ) implies #[trigger] s2.levels@[m].has_row(c, i, fwd) by {
        assert(s1.levels@[m].has_row(c, i, fwd));
    }
}

/// The least finite crossing between different gates, or `UNREACHABLE`, and
/// the greatest, or 0.
pub open spec fn table_bounds(t: Seq<u32>, b: int, lo: u32, hi: u32) -> bool {
    let counts = |n: int| 0 <= n < b * b && n / b != n % b && t[n] != UNREACHABLE;
    &&& forall|n: int| #[trigger] counts(n) ==> lo <= t[n] <= hi
    &&& lo == UNREACHABLE || exists|n: int| #[trigger] counts(n) && t[n] == lo
    &&& hi == 0 || exists|n: int| #[trigger] counts(n) && t[n] == hi
}

pub fn crossing_bounds(t: &Vec<u32>, b: usize) -> (r: (u32, u32))
    requires
        t@.len() == b * b,
    ensures
        table_bounds(t@, b as int, r.0, r.1),
{
    let (mut lo, mut hi): (u32, u32) = (UNREACHABLE, 0);
    let mut n: usize = 0;
    let ghost counts = |n: int| 0 <= n < b * b && n / b as int != n % b as int && t@[n]
        != UNREACHABLE;
    while n < t.len()
        invariant
            t@.len() == b * b,
            n <= t@.len(),
            forall|x: int| #[trigger]
                counts(x) == (0 <= x < b * b && x / b as int != x % b as int && t@[x]
                    != UNREACHABLE),
            forall|x: int| #[trigger] counts(x) && x < n ==> lo <= t@[x] <= hi,
            lo == UNREACHABLE || exists|x: int| #[trigger] counts(x) && t@[x] == lo,
            hi == 0 || exists|x: int| #[trigger] counts(x) && t@[x] == hi,
        decreases t@.len() - n,
    {
        assert(b > 0) by (nonlinear_arith)
            requires
                b * b > 0,
        ;
        let d: u32 = t[n];
        if n / b != n % b && d != UNREACHABLE {
            assert(counts(n as int));
            if d < lo {
                lo = d;
            }
            if d > hi {
                hi = d;
            }
        }
        n += 1;
    }
    (lo, hi)
}

// ------------------------------------------------------------- narrowing

/// One entry as bytes: four of them, or two with all ones for "unreachable".
pub open spec fn entry_bytes(v: u32, wide: bool) -> Seq<u8> {
    if wide {
        le(v as int, 4)
    } else {
        le(
            if v == UNREACHABLE {
                0xFFFFint
            } else {
                v as int
            },
            2,
        )
    }
}

pub open spec fn entries_bytes(t: Seq<u32>, wide: bool) -> Seq<u8>
    decreases t.len(),
{
    if t.len() == 0 {
        Seq::empty()
    } else {
        entries_bytes(t.drop_last(), wide) + entry_bytes(t.last(), wide)
    }
}

/// A table can be narrowed when it is there and every finite entry stays below
/// the narrow form's "unreachable".
pub open spec fn narrow_fits(t: Seq<u32>) -> bool {
    t.len() > 0 && forall|n: int| 0 <= n < t.len() ==> t[n] == UNREACHABLE || #[trigger] t[n]
        < 0xFFFF
}

/// Zero bytes up to the next multiple of four.
pub open spec fn padded(b: Seq<u8>) -> Seq<u8> {
    b + Seq::new(((4 - b.len() % 4) % 4) as nat, |i: int| 0u8)
}

/// The table of region `c` inside the wide array.
pub open spec fn wide_table(wide: Seq<u32>, ohead: Seq<u64>, bhead: Seq<u32>, c: int) -> Seq<u32> {
    let b = bhead[c + 1] - bhead[c];
    wide.subrange(ohead[c] as int, ohead[c] + b * b)
}

/// The tables of the first `c` regions, each at its own width and starting on
/// a four-byte boundary.
pub open spec fn packed_tables(
    wide: Seq<u32>,
    ohead: Seq<u64>,
    bhead: Seq<u32>,
    c: int,
) -> Seq<u8>
    decreases c,
{
    if c <= 0 {
        Seq::empty()
    } else {
        let t = wide_table(wide, ohead, bhead, c - 1);
        padded(packed_tables(wide, ohead, bhead, c - 1) + entries_bytes(t, !narrow_fits(t)))
    }
}

/// Tables laid out as bytes.
pub struct Narrowed {
    pub mat: Vec<u8>,
    /// Byte offset of each region's table, and the length of them all.
    pub head: Vec<u64>,
    pub width: Vec<u8>,
    /// How many regions fit 16-bit entries.
    pub narrowed: usize,
}

proof fn lemma_entry_read(v: u32, wide: bool, mat: Seq<u8>, p: int)
    requires
        0 <= p,
        p + entry_bytes(v, wide).len() <= mat.len(),
        mat.subrange(p, p + entry_bytes(v, wide).len()) == entry_bytes(v, wide),
        wide || v == UNREACHABLE || v < 0xFFFF,
    ensures
        entry_bytes(v, wide).len() == (if wide {
            4nat
        } else {
            2nat
        }),
        packed_entry(mat, p, wide, 0) == v,
{
    let x: int = if wide {
        v as int
    } else if v == UNREACHABLE {
        0xFFFF
    } else {
        v as int
    };
    let e = entry_bytes(v, wide);
    reveal_with_fuel(le, 5);
    lemma_le_len(x, 4);
    lemma_le_len(x, 2);
    let sub = mat.subrange(p, p + e.len());
    assert(mat[p] == sub[0] && mat[p + 1] == sub[1]);
    if wide {
        assert(mat[p + 2] == sub[2] && mat[p + 3] == sub[3]);
    }
}

proof fn lemma_entries_at(t: Seq<u32>, wide: bool, n: int)
    requires
        0 <= n < t.len(),
    ensures
        ({
            let w: int = if wide {
                4
            } else {
                2
            };
            &&& entries_bytes(t, wide).len() == t.len() * w
            &&& n * w + w <= t.len() * w
            &&& entries_bytes(t, wide).subrange(n * w, n * w + w) == entry_bytes(t[n], wide)
        }),
    decreases t.len(),
{
    let w: int = if wide {
        4
    } else {
        2
    };
    let d = t.drop_last();
    lemma_le_len(t.last() as int, 4);
    lemma_le_len(
        if t.last() == UNREACHABLE {
            0xFFFFint
        } else {
            t.last() as int
        },
        2,
    );
    let eb = entries_bytes(t, wide);
    if n < d.len() {
        lemma_entries_at(d, wide, n);
        assert(eb.subrange(n * w, n * w + w) =~= entries_bytes(d, wide).subrange(n * w, n * w + w));
        assert(d[n] == t[n]);
    } else {
        let db = entries_bytes(d, wide);
        if d.len() > 0 {
            lemma_entries_at(d, wide, 0);
        }
        assert(n == d.len());
        assert(db.len() == n * w);
        assert(eb == db + entry_bytes(t[n], wide));
        assert(eb.subrange(n * w, n * w + w) =~= entry_bytes(t[n], wide));
    }
}

/// Lay per-region tables out as bytes, narrowing each region that can be:
/// what is read back is what was put in.
pub fn narrow(wide: &[u32], ohead: &[u64], bhead: &[u32], ncells: usize) -> (r: Narrowed)
    requires
        bhead@.len() == ncells + 1,
        ohead@.len() >= ncells,
        forall|c: int|
            0 <= c < ncells ==> (#[trigger] bhead@[c]) <= bhead@[c + 1] && ohead@[c] + (bhead@[c + 1]
                - bhead@[c]) * (bhead@[c + 1] - bhead@[c]) <= wide@.len(),
    ensures
        r.mat@ == packed_tables(wide@, ohead@, bhead@, ncells as int),
        r.head@.len() == ncells + 1,
        r.width@.len() == ncells,
        forall|c: int|
            0 <= c <= ncells ==> #[trigger] r.head@[c] == packed_tables(
                wide@,
                ohead@,
                bhead@,
                c,
            ).len(),
        forall|c: int|
            0 <= c < ncells ==> #[trigger] r.width@[c] == (if narrow_fits(
                wide_table(wide@, ohead@, bhead@, c),
            ) {
                2u8
            } else {
                4u8
            }),
        r.narrowed == narrow_count(wide@, ohead@, bhead@, ncells as int),
{
    let mut mat: Vec<u8> = Vec::new();
    let mut head: Vec<u64> = Vec::new();
    let mut width: Vec<u8> = Vec::new();
    let mut narrowed: usize = 0;
    let mut c: usize = 0;
    while c < ncells
        invariant
            bhead@.len() == ncells + 1,
            ohead@.len() >= ncells,
            forall|x: int|
                0 <= x < ncells ==> (#[trigger] bhead@[x]) <= bhead@[x + 1] && ohead@[x] + (bhead@[x
                    + 1] - bhead@[x]) * (bhead@[x + 1] - bhead@[x]) <= wide@.len(),
            c <= ncells,
            head@.len() == c,
            width@.len() == c,
            mat@ == packed_tables(wide@, ohead@, bhead@, c as int),
            narrowed <= c,
            narrowed == narrow_count(wide@, ohead@, bhead@, c as int),
            forall|x: int|
                0 <= x < c ==> #[trigger] head@[x] == packed_tables(
                    wide@,
                    ohead@,
                    bhead@,
                    x,
                ).len(),
            forall|x: int|
                0 <= x < c ==> #[trigger] width@[x] == (if narrow_fits(
                    wide_table(wide@, ohead@, bhead@, x),
                ) {
                    2u8
                } else {
                    4u8
                }),
        decreases ncells - c,
    {
        let ghost t = wide_table(wide@, ohead@, bhead@, c as int);
        let size: usize = wide.len();
        assert(bhead@[c as int] <= bhead@[c + 1]);
        let b: usize = (bhead[c + 1] - bhead[c]) as usize;
        assert(ohead@[c as int] + b * b <= size);
        let a: usize = ohead[c] as usize;
        assert(0 <= b * b) by (nonlinear_arith)
            requires
                b >= 0,
        ;
        let n: usize = b * b;
        let mut fits: bool = n > 0;
        let mut x: usize = 0;
        while x < n
            invariant
                a + n <= size == wide@.len(),
                t == wide@.subrange(a as int, a + n),
                x <= n,
                fits <==> n > 0 && forall|y: int|
                    0 <= y < x ==> t[y] == UNREACHABLE || #[trigger] t[y] < 0xFFFF,
            decreases n - x,
        {
            let v: u32 = wide[a + x];
            assert(t[x as int] == v);
            if v != UNREACHABLE && v >= 0xFFFF {
                fits = false;
            }
            x += 1;
        }
        assert(fits == narrow_fits(t));
        head.push(mat.len() as u64);
        width.push(if fits {
            2
        } else {
            4
        });
        if fits {
            narrowed += 1;
        }
        let ghost m0 = mat@;
        let mut y: usize = 0;
        assert(t.take(0) =~= Seq::<u32>::empty());
        while y < n
            invariant
                a + n <= size == wide@.len(),
                t == wide@.subrange(a as int, a + n),
                fits == narrow_fits(t),
                y <= n,
                mat@ == m0 + entries_bytes(t.take(y as int), !fits),
            decreases n - y,
        {
            let v: u32 = wide[a + y];
            let ghost m1 = mat@;
            assert(t[y as int] == v);
            assert(t.take(y + 1).drop_last() =~= t.take(y as int));
            if fits {
                let e: u16 = if v == UNREACHABLE {
                    0xFFFF
                } else {
                    v as u16
                };
                mat.push((e % 256) as u8);
                mat.push((e / 256) as u8);
                proof {
                    reveal_with_fuel(le, 3);
                    assert(mat@ =~= m1 + entry_bytes(v, false));
                }
            } else {
                put_u32(&mut mat, v);
            }
            assert(mat@ =~= m0 + entries_bytes(t.take(y + 1), !fits));
            y += 1;
        }
        assert(t.take(n as int) =~= t);
        let ghost body = mat@;
        let ghost mut added: nat = 0;
        while mat.len() % 4 != 0
            invariant
                mat@ == body + Seq::new(added, |i: int| 0u8),
                added <= (4 - body.len() % 4) % 4,
            decreases 4 - added,
        {
            mat.push(0);
            proof {
                added = added + 1;
                assert(mat@ =~= body + Seq::new(added, |i: int| 0u8));
            }
        }
        assert(mat@ =~= padded(body));
        c += 1;
    }
    head.push(mat.len() as u64);
    Narrowed { mat, head, width, narrowed }
}

/// How many of the first `c` regions can be narrowed.
pub open spec fn narrow_count(wide: Seq<u32>, ohead: Seq<u64>, bhead: Seq<u32>, c: int) -> nat
    decreases c,
{
    if c <= 0 {
        0
    } else {
        narrow_count(wide, ohead, bhead, c - 1) + if narrow_fits(
            wide_table(wide, ohead, bhead, c - 1),
        ) {
            1nat
        } else {
            0nat
        }
    }
}

proof fn lemma_packed_prefix(
    wide: Seq<u32>,
    ohead: Seq<u64>,
    bhead: Seq<u32>,
    c: int,
    n: int,
)
    requires
        0 <= c <= n,
    ensures
        packed_tables(wide, ohead, bhead, c).len() <= packed_tables(wide, ohead, bhead, n).len(),
        packed_tables(wide, ohead, bhead, n).subrange(
            0,
            packed_tables(wide, ohead, bhead, c).len() as int,
        ) == packed_tables(wide, ohead, bhead, c),
    decreases n - c,
{
    let pc = packed_tables(wide, ohead, bhead, c);
    let pn = packed_tables(wide, ohead, bhead, n);
    if c < n {
        lemma_packed_prefix(wide, ohead, bhead, c, n - 1);
        let pm = packed_tables(wide, ohead, bhead, n - 1);
        assert(pn.subrange(0, pc.len() as int) =~= pm.subrange(0, pc.len() as int));
    } else {
        assert(pn.subrange(0, pc.len() as int) =~= pc);
    }
}

/// A region's packed table lies inside the whole.
pub proof fn lemma_packed_room(
    wide: Seq<u32>,
    ohead: Seq<u64>,
    bhead: Seq<u32>,
    ncells: int,
    c: int,
)
    requires
        0 <= c < ncells,
    ensures
        ({
            let t = wide_table(wide, ohead, bhead, c);
            packed_tables(wide, ohead, bhead, c).len() + t.len() * (if narrow_fits(t) {
                2int
            } else {
                4int
            }) <= packed_tables(wide, ohead, bhead, ncells).len()
        }),
{
    let t = wide_table(wide, ohead, bhead, c);
    lemma_packed_prefix(wide, ohead, bhead, c + 1, ncells);
    if t.len() > 0 {
        lemma_entries_at(t, !narrow_fits(t), 0);
    }
}

/// Narrowing loses nothing: an entry of a packed table reads back as the wide
/// entry it was made from.
pub proof fn lemma_narrow_exact(
    wide: Seq<u32>,
    ohead: Seq<u64>,
    bhead: Seq<u32>,
    ncells: int,
    c: int,
    n: int,
)
    requires
        0 <= c < ncells,
        0 <= n < wide_table(wide, ohead, bhead, c).len(),
    ensures
        packed_entry(
            packed_tables(wide, ohead, bhead, ncells),
            packed_tables(wide, ohead, bhead, c).len() as int,
            !narrow_fits(wide_table(wide, ohead, bhead, c)),
            n,
        ) == wide_table(wide, ohead, bhead, c)[n],
{
    let t = wide_table(wide, ohead, bhead, c);
    let big = !narrow_fits(t);
    let w: int = if big {
        4
    } else {
        2
    };
    let mat = packed_tables(wide, ohead, bhead, ncells);
    let base = packed_tables(wide, ohead, bhead, c).len() as int;
    lemma_packed_prefix(wide, ohead, bhead, c + 1, ncells);
    lemma_entries_at(t, big, n);
    let next = packed_tables(wide, ohead, bhead, c + 1);
    let eb = entries_bytes(t, big);
    let p = base + n * w;
    assert(mat.subrange(p, p + w) =~= eb.subrange(n * w, n * w + w)) by {
        assert(n * w >= 0) by (nonlinear_arith)
            requires
                n >= 0,
                w >= 0,
        ;
        assert forall|x: int| 0 <= x < w implies #[trigger] mat.subrange(p, p + w)[x]
            == eb.subrange(n * w, n * w + w)[x] by {
            assert(mat.subrange(0, next.len() as int)[p + x] == mat[p + x]);
            assert(next[p + x] == eb[n * w + x]);
        }
    }
    lemma_entry_read(t[n], big, mat, p);
    if big {
        assert(n * w == n * 4);
    } else {
        assert(n * w == n * 2);
    }
}

} // verus!
