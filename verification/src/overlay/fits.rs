//! What is built fits the map it was built from.

use vstd::prelude::*;
use crate::dataset::Dataset;
use crate::lookup::ascending;
use crate::overlay::contraction::from;
use crate::overlay::exact::{
    charged, crosses, fitted, gated, lemma_inside_mirror, lemma_region_dist, on_edge, populated,
    two_way,
};
use crate::overlay::ground::{packed, shaped, squares, tabled, Built, Filling};
use crate::overlay::lists::{block, cut_edge, lists, on_boundary};
use crate::overlay::net::{gate_at, inside_net};
use crate::overlay::rows::{region_net, row_arcs, value};
use crate::overlay::shape::{
    cell_at, eager_entry, gates, index_in, ladder_ok, lemma_index_in, members, regions, rung_ok,
    Ladder, Rung,
};
use crate::overlay::tables::{
    lemma_narrow_exact, lemma_packed_room, narrow_fits, packed_tables, pair_cost, region_costs,
    wide_table,
};
use crate::overrides::{table, Effect};
use crate::paths::is_dist;

verus! {

/// Level 0 as it was built.
pub open spec fn rung_of(b: Built) -> Rung {
    match b.values {
        Filling::Lazy { head } => Rung {
            of: b.shape.of@,
            bnd: b.shape.bnd@,
            bhead: b.shape.bhead@,
            head: head@,
            vhead: b.shape.vhead@,
            vlist: b.shape.vlist@,
            eager: false,
            mat: Seq::empty(),
            width: Seq::empty(),
        },
        Filling::Eager { wide, ohead, tables, bounds } => Rung {
            of: b.shape.of@,
            bnd: b.shape.bnd@,
            bhead: b.shape.bhead@,
            head: tables.head@,
            vhead: Seq::empty(),
            vlist: Seq::empty(),
            eager: true,
            mat: tables.mat@,
            width: tables.width@,
        },
    }
}

/// What `build_with` says of its result, apart from how regions were chosen.
pub open spec fn grounded(ds: Dataset, b: Built) -> bool {
    &&& shaped(ds, b.shape, b.cells as int)
    &&& match b.values {
        Filling::Lazy { head } => head@.len() == b.cells + 1,
        Filling::Eager { wide, ohead, tables, bounds } => {
            &&& ohead@.len() == b.cells + 1
            &&& forall|c: int|
                0 <= c <= b.cells ==> #[trigger] ohead@[c] == squares(b.shape.bhead@, 1, c)
            &&& tabled(ds, b.shape, b.cells as int, wide@, ohead@, bounds@)
            &&& packed(b.shape, b.cells as int, wide@, ohead@, tables)
        },
    }
}

/// At level 0 a region's network does not depend on any ladder.
proof fn lemma_level0_net(
    ds: Dataset,
    effects: Seq<(u32, Effect)>,
    a: Ladder,
    b: Ladder,
    list: Seq<u32>,
    fwd: bool,
)
    ensures
        region_net(ds, effects, a, 0, list, fwd) == region_net(ds, effects, b, 0, list, fwd),
{
    let (x, y) = (
        region_net(ds, effects, a, 0, list, fwd),
        region_net(ds, effects, b, 0, list, fwd),
    );
    assert forall|li: int| #[trigger] (x.arcs)(li) == (y.arcs)(li) by {
        assert(row_arcs(ds, effects, a, 0, list, fwd, list[li]) =~= row_arcs(
            ds,
            effects,
            b,
            0,
            list,
            fwd,
            list[li],
        ));
    }
    assert(x.arcs =~= y.arcs);
}

proof fn lemma_shape_fits(ds: Dataset, b: Built)
    requires
        ds.graph_ok(),
        grounded(ds, b),
        b.cells <= ds.nv(),
    ensures
        ladder_ok(seq![rung_of(b)]),
        gated(ds, seq![rung_of(b)]),
        forall|c: int|
            0 <= c < b.cells ==> populated(
                ds,
                seq![rung_of(b)],
                0,
                c,
                #[trigger] b.shape.members(c),
            ),
{
    let r = rung_of(b);
    let l = seq![r];
    let s = b.shape;
    let n = b.cells as int;
    let nv = ds.nv();
    assert(l[0] == r);
    assert(regions(r) == n);
    assert forall|c: int| 0 <= c < n implies #[trigger] gates(r, c) == s.gates(c) by {}
    let inside = |c: int, v: u32| v < nv && s.of@[v as int] == c;
    let rim = |c: int, v: u32| v < nv && s.of@[v as int] == c && on_boundary(ds, s.of@, v);
    assert(lists(s.vhead@, s.vlist@, n, inside));
    assert(lists(s.bhead@, s.bnd@, n, rim));
    assert forall|v: int| cell_at(l, 0, v) == s.of@[v] by {}
    assert forall|i: int| 0 <= i < r.bnd.len() implies (#[trigger] r.bnd[i]) < nv by {
        let c = lemma_in_block(s.bhead@, s.bnd@, n, i);
        let g = block(s.bhead@, s.bnd@, c);
        assert(g[i - s.bhead@[c]] == r.bnd[i]);
        assert(g.contains(r.bnd[i]));
        assert(rim(c, r.bnd[i]));
    }
    assert forall|c: int| 0 <= c < regions(r) implies ascending(#[trigger] gates(r, c)) by {
        assert(ascending(block(s.bhead@, s.bnd@, c)));
    }
    assert forall|c: int, i: int| 0 <= c < n && 0 <= i < gates(r, c).len() implies cell_at(
        l,
        0,
        #[trigger] gates(r, c)[i] as int,
    ) == c && s.members(c).contains(gates(r, c)[i]) by {
        let v = gates(r, c)[i];
        assert(block(s.bhead@, s.bnd@, c).contains(v));
        assert(rim(c, v));
        assert(inside(c, v));
        assert(block(s.vhead@, s.vlist@, c).contains(v));
    }
    match b.values {
        Filling::Lazy { head } => {
            assert forall|i: int| 0 <= i < r.vlist.len() implies (#[trigger] r.vlist[i]) < nv by {
                let c = lemma_in_block(s.vhead@, s.vlist@, n, i);
                let g = block(s.vhead@, s.vlist@, c);
                assert(g[i - s.vhead@[c]] == r.vlist[i]);
                assert(g.contains(r.vlist[i]));
                assert(inside(c, r.vlist[i]));
            }
            assert forall|c: int| 0 <= c < regions(r) implies ascending(#[trigger] members(r, c)) by {
                assert(ascending(block(s.vhead@, s.vlist@, c)));
            }
            assert forall|c: int, i: int|
                0 <= c < regions(r) && 0 <= i < gates(r, c).len() implies index_in(
                members(r, c),
                #[trigger] gates(r, c)[i],
            ) is Some by {
                let m = members(r, c);
                assert(m == s.members(c));
                let x = m.index_of(gates(r, c)[i]);
                assert(m[x] == gates(r, c)[i]);
            }
        },
        Filling::Eager { wide, ohead, tables, bounds } => {
            assert forall|c: int| 0 <= c < n implies (#[trigger] r.head[c]) + gates(r, c).len()
                * gates(r, c).len() * (if r.width[c] == 2 {
                2int
            } else {
                4int
            }) <= r.mat.len() by {
                let t = wide_table(wide@, ohead@, s.bhead@, c);
                assert(region_costs(
                    ds,
                    table(None),
                    Seq::empty(),
                    0,
                    s.members(c),
                    s.gates(c),
                    t,
                ));
                assert(tables.width@[c] == (if narrow_fits(t) {
                    2u8
                } else {
                    4u8
                }));
                assert(tables.head@[c] == packed_tables(wide@, ohead@, s.bhead@, c).len());
                lemma_packed_room(wide@, ohead@, s.bhead@, n, c);
                assert(t.len() == gates(r, c).len() * gates(r, c).len());
            }
        },
    }
    assert(rung_ok(r, nv, nv));
    assert(ladder_ok(l)) by {
        reveal(ladder_ok);
    }
    assert forall|k: int, u: u32| 0 <= k < l.len() && u < nv implies #[trigger] gate_at(l, k, u)
        == on_edge(ds, l, k, u) by {
        let c = cell_at(l, 0, u as int);
        assert(s.of@[u as int] < n);
        let g = gates(r, c);
        assert(block(s.bhead@, s.bnd@, c).contains(u) <==> rim(c, u));
        if gate_at(l, k, u) {
            let i = choose|i: int| 0 <= i < g.len() && g[i] == u;
            assert(block(s.bhead@, s.bnd@, c)[i] == u);
            assert(on_boundary(ds, s.of@, u));
            let (fwd, t) = choose|fwd: bool, t: int| cut_edge(ds, s.of@, fwd, u, t);
            assert(crosses(ds, l, k, fwd, u, t));
        }
        if on_edge(ds, l, k, u) {
            let (fwd, t) = choose|fwd: bool, t: int| crosses(ds, l, k, fwd, u, t);
            assert(cut_edge(ds, s.of@, fwd, u, t));
            let i = g.index_of(u);
            assert(g[i] == u);
        }
    }
    assert forall|c: int| 0 <= c < n implies populated(ds, l, 0, c, #[trigger] s.members(c)) by {
        let m = s.members(c);
        assert(ascending(block(s.vhead@, s.vlist@, c)));
        assert forall|v: u32| #[trigger] m.contains(v) == (v < nv && cell_at(l, 0, v as int) == c && (0
            > 0int ==> gate_at(l, 0 - 1, v))) by {
            assert(block(s.vhead@, s.vlist@, c).contains(v) <==> inside(c, v));
        }
    }
}

/// Every place of a grouped list belongs to some region.
pub proof fn lemma_in_block(head: Seq<u32>, list: Seq<u32>, n: int, i: int) -> (c: int)
    requires
        head.len() == n + 1,
        head[0] == 0,
        crate::dataset::head_ok(head, list.len() as int),
        0 <= i < list.len(),
    ensures
        0 <= c < n,
        head[c] <= i < head[c + 1],
{
    lemma_in_block_from(head, list, n, i, n)
}

proof fn lemma_in_block_from(head: Seq<u32>, list: Seq<u32>, n: int, i: int, k: int) -> (c: int)
    requires
        head.len() == n + 1,
        head[0] == 0,
        crate::dataset::head_ok(head, list.len() as int),
        0 <= i < list.len(),
        0 <= k <= n,
        i < head[k],
    ensures
        0 <= c < n,
        head[c] <= i < head[c + 1],
    decreases k,
{
    if k > 0 && i < head[k - 1] {
        lemma_in_block_from(head, list, n, i, k - 1)
    } else {
        k - 1
    }
}

/// A freshly built level 0 is a ladder that fits its map.
pub proof fn lemma_ground_fits(ds: Dataset, b: Built)
    requires
        ds.graph_ok(),
        two_way(ds),
        grounded(ds, b),
        b.cells <= ds.nv(),
    ensures
        fitted(ds, table(None), seq![rung_of(b)]),
{
    let r = rung_of(b);
    let l = seq![r];
    let s = b.shape;
    let n = b.cells as int;
    assert(l[0] == r);
    lemma_shape_fits(ds, b);
    if r.eager {
        assert(b.values is Eager);
        lemma_eager_charged(ds, b);
    } else {
        assert forall|k: int, c: int|
            0 <= k < l.len() && !l[k].eager && 0 <= c < regions(l[k]) implies populated(
            ds,
            l,
            k,
            c,
            #[trigger] members(l[k], c),
        ) by {
            assert(members(l[k], c) == s.members(c));
        }
    }
}

proof fn lemma_eager_charged(ds: Dataset, b: Built)
    requires
        ds.graph_ok(),
        two_way(ds),
        grounded(ds, b),
        b.cells <= ds.nv(),
        b.values is Eager,
    ensures
        charged(ds, table(None), seq![rung_of(b)], 0),
{
    let r = rung_of(b);
    let l = seq![r];
    let s = b.shape;
    let n = b.cells as int;
    let eff = table(None);
    assert(l[0] == r);
    lemma_shape_fits(ds, b);
    assert forall|c: int, i: int, j: int, fwd: bool|
        0 <= c < regions(l[0]) && 0 <= i < gates(l[0], c).len() && 0 <= j < gates(
            l[0],
            c,
        ).len() implies is_dist(
        inside_net(ds, eff, l, 0, c, fwd),
        from(gates(l[0], c)[i] as int),
        gates(l[0], c)[j] as int,
        #[trigger] value(ds, eff, l, 0, c, i, j, fwd),
    ) by {
        let g = gates(r, c);
        assert(g == s.gates(c));
        if fwd {
            lemma_eager_entry(ds, b, c, i, j, fwd);
        } else {
            lemma_eager_entry(ds, b, c, j, i, fwd);
            lemma_inside_mirror(
                ds,
                eff,
                l,
                0,
                c,
                true,
                g[j] as int,
                g[i] as int,
                value(ds, eff, l, 0, c, i, j, fwd),
            );
        }
    }
}

/// The forward crossing from gate `a` to gate `b` is what both directions of
/// the table say of it.
proof fn lemma_eager_entry(ds: Dataset, b: Built, c: int, x: int, y: int, fwd: bool)
    requires
        ds.graph_ok(),
        two_way(ds),
        grounded(ds, b),
        b.cells <= ds.nv(),
        b.values is Eager,
        0 <= c < b.cells,
        0 <= x < b.shape.gates(c).len(),
        0 <= y < b.shape.gates(c).len(),
    ensures
        is_dist(
            inside_net(ds, table(None), seq![rung_of(b)], 0, c, true),
            from(b.shape.gates(c)[x] as int),
            b.shape.gates(c)[y] as int,
            if fwd {
                value(ds, table(None), seq![rung_of(b)], 0, c, x, y, true)
            } else {
                value(ds, table(None), seq![rung_of(b)], 0, c, y, x, false)
            },
        ),
{
    let r = rung_of(b);
    let l = seq![r];
    let s = b.shape;
    let n = b.cells as int;
    let eff = table(None);
    let g = s.gates(c);
    let m = s.members(c);
    assert(l[0] == r);
    assert(gates(r, c) == g);
    lemma_shape_fits(ds, b);
    match b.values {
        Filling::Eager { wide, ohead, tables, bounds } => {
            let t = wide_table(wide@, ohead@, s.bhead@, c);
            assert(region_costs(ds, eff, Seq::empty(), 0, m, g, t));
            let w = g.len() as int;
            let at = x * w + y;
            assert(0 <= at < w * w) by (nonlinear_arith)
                requires
                    0 <= x < w,
                    0 <= y < w,
                    at == x * w + y,
            ;
            assert(t[x * g.len() + y] == pair_cost(ds, eff, Seq::empty(), 0, m, g[x], g[y], true));
            lemma_narrow_exact(wide@, ohead@, s.bhead@, n, c, at);
            assert(tables.width@[c] == (if narrow_fits(t) {
                2u8
            } else {
                4u8
            }));
            assert(tables.head@[c] == packed_tables(wide@, ohead@, s.bhead@, c).len());
            assert(eager_entry(r, c, x, y, true) == t[at]);
            assert(eager_entry(r, c, y, x, false) == t[at]);
            let inside = |c: int, v: u32| v < ds.nv() && s.of@[v as int] == c;
            let rim = |c: int, v: u32|
                v < ds.nv() && s.of@[v as int] == c && on_boundary(ds, s.of@, v);
            assert(lists(s.vhead@, s.vlist@, n, inside));
            assert(lists(s.bhead@, s.bnd@, n, rim));
            assert(block(s.bhead@, s.bnd@, c).contains(g[x]) && block(s.bhead@, s.bnd@, c).contains(
                g[y],
            ));
            assert(rim(c, g[x]) && rim(c, g[y]));
            assert(inside(c, g[x]) && inside(c, g[y]));
            assert(block(s.vhead@, s.vlist@, c).contains(g[x]));
            assert(block(s.vhead@, s.vlist@, c).contains(g[y]));
            let (p, q) = (m.index_of(g[x]), m.index_of(g[y]));
            assert(m[p] == g[x] && m[q] == g[y]);
            assert(ascending(block(s.vhead@, s.vlist@, c)));
            lemma_index_in(m, p);
            lemma_index_in(m, q);
            lemma_level0_net(ds, eff, Seq::empty(), l, m, true);
            assert(m.len() <= u32::MAX);
            assert(populated(ds, l, 0, c, s.members(c)));
            lemma_region_dist(ds, eff, l, 0, c, m, true, g[x], g[y]);
        },
        Filling::Lazy { head } => {},
    }
}

} // verus!
