use mpee_planet::bitmap::BitMap;
use mpee_planet::contract::collect::{pass3, Collected};
use mpee_planet::dataset::Dataset;
use mpee_planet::diff::propagate::propagate;
use mpee_planet::diff::reach::regions_of;
use mpee_planet::graph::assemble::{pass4, Graph, Parts};
use mpee_planet::overlay::boxes::build_geo;
use mpee_planet::overlay::gateindex::Traffic;
use mpee_planet::overlay::ground::{build_with, Built, Filling};
use mpee_planet::overlay::growth::Rules;
use mpee_planet::overlay::ladder::{halt, next_target, Halt};
use mpee_planet::overlay::layout::{lazy_stamp, verify_lazy_layout, LayoutFault};
use mpee_planet::overlay::plan::{plan_splits, plan_splits_by_cost};
use mpee_planet::overlay::query::OverlayRouter;
use mpee_planet::overlay::raise::{build_level_lazy, Raised};
use mpee_planet::overlay::reference::{reference_cost, reference_cost_with};
use mpee_planet::overlay::rows::Row;
use mpee_planet::overlay::search::Settings;
use mpee_planet::overlay::shape::{Lazy, Level, Overlay, Values};
use mpee_planet::overlay::split::split_level;
use mpee_planet::overlay::usage::fold_traffic;
use mpee_planet::overlay::warm::warm;
use mpee_planet::overrides::{check_rule, Effect, Hit, Overrides, Refusal, Rule};
use mpee_planet::pbf::node::DenseNode;
use mpee_planet::router::ends::vertex_snap;
use mpee_planet::router::{route_points, route_steps, route_tolls, Along, Router, Snap};
use mpee_planet::ways::harvest::{take_node, take_way, P1};

const SIDE: i64 = 6;

/// A square grid of streets, the first of them a fast road and the last one way.
fn gather() -> (P1, Vec<(i32, i32)>, Vec<u8>) {
    let mut st = P1::new(64);
    let mut ways = Vec::new();
    let mut addrs = Vec::new();
    let plain: [(&[u8], &[u8]); 2] = [(b"highway", b"residential"), (b"name", b"Street")];
    let fast: [(&[u8], &[u8]); 2] = [(b"highway", b"primary"), (b"name", b"Avenue")];
    let single: [(&[u8], &[u8]); 2] = [(b"highway", b"residential"), (b"oneway", b"yes")];
    for r in 0..SIDE {
        let along: Vec<i64> = (0..SIDE).map(|c| r * SIDE + c + 1).collect();
        let across: Vec<i64> = (0..SIDE).map(|c| c * SIDE + r + 1).collect();
        let tags: &[(&[u8], &[u8])] = if r == 0 {
            &fast
        } else if r == SIDE - 1 {
            &single
        } else {
            &plain
        };
        take_way(&mut st, 100 + r, tags, &along, &mut ways, &mut addrs);
        take_way(&mut st, 200 + r, &plain, &across, &mut ways, &mut addrs);
    }
    st.need.build_rank();
    let mut coords = vec![(0, 0); st.need.total() as usize];
    let (mut doors, mut tolls) = (Vec::new(), Vec::new());
    for id in 1..=SIDE * SIDE {
        let n = DenseNode {
            id,
            lat_e7: 599_000_000 + ((id - 1) / SIDE) as i32 * 10_000,
            lon_e7: 107_000_000 + ((id - 1) % SIDE) as i32 * 10_000,
            kv: Vec::new(),
        };
        take_node(&st.need, &mut st.junc, &mut coords, &n, &[], &mut doors, &mut tolls);
    }
    st.junc.build_rank();
    (st, coords, ways)
}

/// Lengths by the grid, and the two ends of every line.
fn measure(pts: &Vec<(i32, i32)>) -> (u32, Vec<u32>) {
    let mut len = 0u32;
    for w in pts.windows(2) {
        len += w[0].0.abs_diff(w[1].0) + w[0].1.abs_diff(w[1].1);
    }
    let keep = if pts.is_empty() { Vec::new() } else { vec![0, pts.len() as u32 - 1] };
    (len, keep)
}

fn assemble() -> (Collected, Graph, BitMap) {
    let (st, coords, ways) = gather();
    let c = match pass3(&ways, &coords, &st.need, &st.junc, &measure) {
        Ok(c) => c,
        Err(e) => panic!("{e:?}"),
    };
    let p = Parts {
        need: &st.need,
        junc: &st.junc,
        coords: &coords,
        edges: &c.edges,
        len_cm: &c.len_cm,
        attr: &c.attr,
        name: &c.name,
        off: &c.off,
        pts: &c.pts,
    };
    let g = match pass4(&p) {
        Ok(g) => g,
        Err(e) => panic!("{e:?}"),
    };
    (c, g, st.junc)
}

fn dataset<'a>(c: &'a Collected, g: &'a Graph) -> Dataset<'a> {
    Dataset {
        head: &g.forward.head,
        to: &[],
        to_d16: &g.forward.d16,
        to_exc: &g.forward.exc,
        eseg: &g.forward.seg,
        rhead: &g.backward.head,
        rto: &[],
        rto_d16: &g.backward.d16,
        rto_exc: &g.backward.exc,
        rseg: &g.backward.seg,
        vcoord: &g.vcoord,
        seg_len: &g.len_cm,
        seg_attr: &[],
        seg_attr16: &g.attr16,
        attr_dict: &g.dict,
        seg_name: &g.name,
        seg_u: &g.su,
        seg_v: &g.sv,
        geom_pts: &g.pts,
        geom_off: &g.off,
        snap_cell: &g.index.snap.cells,
        snap_off: &g.index.snap.off,
        snap_seg: &g.index.snap.seg,
        big_cell: &g.index.big.cells,
        big_off: &g.index.big.off,
        big_seg: &g.index.big.seg,
        name_pool: &c.names.pool,
        name_off: &c.names.off,
    }
}

/// The vertex at a corner of the grid.
fn at(g: &Graph, row: i32, col: i32) -> u32 {
    let want = (599_000_000 + row * 10_000, 107_000_000 + col * 10_000);
    g.vcoord.iter().position(|p| *p == want).unwrap() as u32
}

#[test]
fn a_grid_of_ways_becomes_a_graph() {
    let (c, g, junc) = assemble();
    let ds = dataset(&c, &g);
    assert_eq!(ds.n_vertices() as u64, junc.total());
    assert_eq!(ds.n_vertices(), 36);
    // Every way has five segments.
    assert_eq!(ds.n_segments(), 60);
    // One street is one way.
    assert_eq!(ds.eseg.len(), 2 * 55 + 5);
    assert_eq!(ds.rseg.len(), ds.eseg.len());
    assert_eq!(c.names.len(), 2);
    for s in 0..ds.n_segments() {
        assert_eq!(ds.seg_len[s], 10_000);
        assert_eq!(ds.seg_geometry(s).len(), 2);
    }
}

#[test]
fn the_router_agrees_with_the_plain_search() {
    let (c, g, _) = assemble();
    let ds = dataset(&c, &g);
    let mut r = Router::new(ds.n_vertices());
    for s in 0..36u32 {
        for t in 0..36u32 {
            let plain = reference_cost(&ds, s, t).0;
            let found = r.run(&ds, None, &vec![(s, 0)], &vec![(t, 0)]);
            assert_eq!(found.as_ref().map(|f| f.0), plain, "{s} to {t}");
            if let Some((_, path)) = found {
                assert_eq!(path[0], s);
                assert_eq!(path[path.len() - 1], t);
            }
        }
    }
}

#[test]
fn a_route_adds_up_its_segments() {
    let (c, g, _) = assemble();
    let ds = dataset(&c, &g);
    let (a, b) = (at(&g, 0, 0), at(&g, 0, 5));
    let from = vertex_snap(&ds, a, 1).unwrap();
    let to = vertex_snap(&ds, b, 1).unwrap();
    let mut r = Router::new(ds.n_vertices());
    let route = r.route(&ds, &from, &to, Along { forward: true, cm: 0 }).unwrap();
    assert_eq!(route.dist_cm, 5 * 10_000);
    assert_eq!(Some(route.dur_ds as u32), reference_cost(&ds, a, b).0);
    let whole: u64 = route.legs.iter().map(|l| l.len_cm).sum();
    assert_eq!(whole, route.dist_cm);
    let steps = route_steps(&ds, &route.legs);
    let told: u64 = steps.iter().map(|s| s.cm).sum();
    assert_eq!(told, route.dist_cm, "taking legs together loses nothing");
    assert!(steps.iter().any(|s| s.name == "Avenue"));
    let gates = vec![Some(7usize); route.vertices.len()];
    let line = route_points(&ds, &route);
    assert_eq!(line[0], ds.vcoord[a as usize]);
    assert_eq!(line[line.len() - 1], ds.vcoord[b as usize]);
    assert!(line.windows(2).all(|w| w[0] != w[1]), "no point twice in a row");
    let hits = route_tolls(&route.vertices, &gates);
    assert_eq!(hits.len(), route.vertices.len() - 2, "the ends are no crossings");
}

#[test]
fn one_segment_needs_no_search() {
    let (c, g, _) = assemble();
    let ds = dataset(&c, &g);
    let s = vertex_snap(&ds, at(&g, 2, 2), 1).unwrap();
    let mut r = Router::new(ds.n_vertices());
    let route = r.route(&ds, &s, &s, Along { forward: true, cm: 4_000 }).unwrap();
    assert_eq!(route.dist_cm, 4_000);
    assert_eq!(route.legs.len(), 1);
    assert!(route.vertices.is_empty());
}

#[test]
fn a_closed_road_is_driven_around() {
    let (c, g, _) = assemble();
    let ds = dataset(&c, &g);
    let (a, b) = (at(&g, 3, 0), at(&g, 3, 1));
    let seg = (0..ds.n_segments())
        .find(|&s| {
            (ds.seg_u[s] == a && ds.seg_v[s] == b) || (ds.seg_u[s] == b && ds.seg_v[s] == a)
        })
        .unwrap() as u32;
    let o = closing(ds.n_segments(), seg);
    let open = reference_cost(&ds, a, b).0.unwrap();
    let shut = reference_cost_with(&ds, Some(&o), a, b).0.unwrap();
    assert!(shut > open);
    let mut r = Router::new(ds.n_vertices());
    let found = r.run(&ds, Some(&o), &vec![(a, 0)], &vec![(b, 0)]).unwrap();
    assert_eq!(found.0, shut);
}

fn closing(nseg: usize, seg: u32) -> Overrides {
    Overrides::resolve(nseg, &[closed_rule(1, None)], &[vec![Hit { seg, scaled: 0 }]], 0, 1)
}

/// A place three tenths of the way along a segment.
fn midway(ds: &Dataset, seg: u32) -> Snap {
    let sid = seg as usize;
    Snap {
        seg,
        u: ds.seg_u[sid],
        v: ds.seg_v[sid],
        to_u: 3_000,
        to_v: 7_000,
        lat_e7: 0,
        lon_e7: 0,
        slowed_kmh: 1,
    }
}

/// Room for the rows of a lazy level.
struct Room {
    data: Vec<u32>,
    have: Vec<u8>,
    uses: Vec<u32>,
}

fn room(entries: u64, rows: usize, members: usize) -> Room {
    Room {
        data: vec![u32::MAX; entries as usize],
        have: vec![0; (2 * rows).div_ceil(8)],
        uses: vec![0; members],
    }
}

fn ground(b: &Built) -> (Vec<u64>, Room) {
    let head = match &b.values {
        Filling::Lazy { head } => head.clone(),
        Filling::Eager { .. } => Vec::new(),
    };
    let r = room(*head.last().unwrap(), b.boundary, b.shape.vlist.len());
    (head, r)
}

#[test]
fn the_overlay_agrees_with_the_plain_search() {
    let (c, g, _) = assemble();
    let ds = dataset(&c, &g);
    let base = build_with(&ds, 6, true);
    assert!(base.cells > 1);
    let (head, mut rows) = ground(&base);
    let mut ov = Overlay {
        levels: vec![Level {
            of: &base.shape.of,
            bnd: &base.shape.bnd,
            bhead: &base.shape.bhead,
            head: &head,
            geo: &[],
            values: Values::Lazy(Lazy {
                data: &mut rows.data,
                have: &mut rows.have,
                rows: base.boundary,
                vhead: &base.shape.vhead,
                vlist: &base.shape.vlist,
                use_ct: &mut rows.uses,
            }),
        }],
        bounds: &[],
    };
    let rules = Rules { target: 18, cap: 0, agg: 64, busy_leads: false, by_gates: true };
    let up = build_level_lazy(&ds, &ov, 1, &rules, &Traffic { pairs: &[] });
    let mut upper: Option<(mpee_planet::overlay::levels::LevelStructure, Room)> = match up {
        Raised::Shaped { shape, .. } => {
            let r = room(*shape.ohead.last().unwrap(), shape.blist.len(), shape.vlist.len());
            Some((shape, r))
        }
        _ => None,
    };
    if let Some((s, r)) = upper.as_mut() {
        ov.levels.push(Level {
            of: &s.lof,
            bnd: &s.blist,
            bhead: &s.bhead,
            head: &s.ohead,
            geo: &[],
            values: Values::Lazy(Lazy {
                data: &mut r.data,
                have: &mut r.have,
                rows: s.blist.len(),
                vhead: &s.vhead,
                vlist: &s.vlist,
                use_ct: &mut r.uses,
            }),
        });
    }
    let settings = Settings::default();
    let nothing = |_: u32, _: usize| 0u32;
    let mut router = OverlayRouter::new();
    for s in 0..36u32 {
        for t in 0..36u32 {
            let plain = reference_cost(&ds, s, t).0;
            let got = router.search_vertices(&ds, &mut ov, s, t, &settings, &nothing, 0);
            assert_eq!(got, plain, "{s} to {t}");
            router.use_l2 = false;
            let low = router.search_vertices(&ds, &mut ov, s, t, &settings, &nothing, 0);
            assert_eq!(low, plain, "{s} to {t} on the first level");
            router.use_l2 = true;
        }
    }
    // Filling everything changes nothing.
    let (_, stopped) = warm(&ds, None, &mut ov, u64::MAX, &|| false);
    assert!(!stopped);
    if let Values::Lazy(z) = &ov.levels[0].values {
        assert_eq!(z.filled().0, z.filled().1);
        assert!(z.use_ct_all().iter().any(|&n| n > 0), "use was counted");
    }
    let (a, b) = (at(&g, 0, 0), at(&g, 5, 5));
    let got = router.search_vertices(&ds, &mut ov, a, b, &settings, &nothing, 0);
    assert_eq!(got, reference_cost(&ds, a, b).0);
    // A road closes; only what that moves is carried up.
    let seg = 17u32;
    let o = closing(ds.n_segments(), seg);
    let looked = regions_of(&ds, &ov, &[seg]);
    assert_eq!(looked.len(), ov.levels());
    let steps = propagate(&ds, Some(&o), &mut ov, &[seg]);
    assert_eq!(steps[0].regions, looked[0].len());
    assert!(steps[0].changed <= steps[0].regions);
    for s in 0..36u32 {
        for t in 0..36u32 {
            let plain = reference_cost_with(&ds, Some(&o), s, t).0;
            let got = router
                .search_vertices_with(&ds, Some(&o), &mut ov, s, t, &settings, &nothing, 0);
            assert_eq!(got, plain, "{s} to {t} around the closed road");
        }
    }
}

#[test]
fn full_tables_agree_with_the_plain_search() {
    let (c, g, _) = assemble();
    let ds = dataset(&c, &g);
    let base = build_with(&ds, 6, false);
    let Filling::Eager { tables, bounds, .. } = &base.values else {
        panic!("asked for full tables");
    };
    let mut ov = Overlay {
        levels: vec![Level {
            of: &base.shape.of,
            bnd: &base.shape.bnd,
            bhead: &base.shape.bhead,
            head: &tables.head,
            geo: &[],
            values: Values::Eager { mat: &tables.mat, width: &tables.width },
        }],
        bounds,
    };
    let settings = Settings::default();
    let nothing = |_: u32, _: usize| 0u32;
    let mut router = OverlayRouter::new();
    for t in 0..36u32 {
        let plain = reference_cost(&ds, 5, t).0;
        assert_eq!(
            router.search_vertices(&ds, &mut ov, 5, t, &settings, &nothing, 0),
            plain
        );
    }
    // Between points on segments, whether their ends share a region or not.
    let mut r = Router::new(ds.n_vertices());
    for a in 0..ds.n_segments() as u32 {
        for b in 0..ds.n_segments() as u32 {
            let (from, to) = (midway(&ds, a), midway(&ds, b));
            if a == b {
                continue;
            }
            let over = router.search(&ds, &mut ov, &from, &to, &settings, &nothing, 0);
            let plain = r.route(&ds, &from, &to, Along { forward: true, cm: 0 });
            assert_eq!(over.map(|o| o.0 as u64), plain.map(|p| p.dur_ds), "{a} to {b}");
        }
    }
}

/// A lazy level 0 over the grid, handed to `f`.
fn with_ground(target: usize, f: impl FnOnce(&Dataset, &Built, &mut Overlay)) {
    let (c, g, _) = assemble();
    let ds = dataset(&c, &g);
    let base = build_with(&ds, target, true);
    let (head, mut rows) = ground(&base);
    let mut ov = Overlay {
        levels: vec![Level {
            of: &base.shape.of,
            bnd: &base.shape.bnd,
            bhead: &base.shape.bhead,
            head: &head,
            geo: &[],
            values: Values::Lazy(Lazy {
                data: &mut rows.data,
                have: &mut rows.have,
                rows: base.boundary,
                vhead: &base.shape.vhead,
                vlist: &base.shape.vlist,
                use_ct: &mut rows.uses,
            }),
        }],
        bounds: &[],
    };
    f(&ds, &base, &mut ov);
}

#[test]
fn filling_stops_at_its_budget() {
    with_ground(6, |ds, base, ov| {
        assert_eq!(warm(ds, None, ov, 3, &|| false), (3, true));
        assert_eq!(ov.filled(0), Some((3, 2 * base.boundary)));
        assert!(ov.row_present(0, 0, 0, true));
        // The clock is asked after every row.
        assert_eq!(warm(ds, None, ov, u64::MAX, &|| true), (1, true));
        let left = 2 * base.boundary as u64 - 4;
        assert_eq!(warm(ds, None, ov, u64::MAX, &|| false), (left, false));
        assert_eq!(warm(ds, None, ov, u64::MAX, &|| false), (0, false));
        // Forgetting a region gives its rows back.
        let gates = ov.boundary(0).len();
        assert_eq!(ov.invalidate(0, 0), 2 * gates);
        assert_eq!(warm(ds, None, ov, u64::MAX, &|| false), (2 * gates as u64, false));
    });
}

#[test]
fn a_row_checked_again_says_whether_it_moved() {
    with_ground(6, |ds, _, ov| {
        let (c, i) = (0..ov.cells() as u32)
            .find_map(|c| (ov.boundary(c).len() > 1).then_some((c, 0)))
            .unwrap();
        assert_eq!(ov.recheck_row(ds, None, 0, c, i, true), Row::Written);
        assert_eq!(ov.recheck_row(ds, None, 0, c, i, true), Row::Same);
        // Closing every segment moves whatever could be crossed.
        let all: Vec<Hit> = (0..ds.n_segments() as u32).map(|seg| Hit { seg, scaled: 0 }).collect();
        let shut = Overrides::resolve(ds.n_segments(), &[closed_rule(1, None)], &[all], 0, 1);
        assert_eq!(ov.recheck_row(ds, Some(&shut), 0, c, i, true), Row::Changed);
    });
}

#[test]
fn a_search_without_room_gives_up() {
    with_ground(6, |ds, base, ov| {
        let mut router = OverlayRouter::default();
        router.budget_bytes = 0;
        let (s, t) = (0u32, (0..36).find(|&t| base.shape.of[t] != base.shape.of[0]).unwrap());
        let nothing = |_: u32, _: usize| 0u32;
        let got = router.search_vertices(ds, ov, s, t as u32, &Settings::default(), &nothing, 0);
        assert_eq!(got, None);
        assert!(router.over_budget);
        router.budget_bytes = usize::MAX;
        let got = router.search_vertices(ds, ov, s, t as u32, &Settings::default(), &nothing, 0);
        assert_eq!(got, reference_cost(ds, s, t as u32).0);
        assert!(!router.over_budget);
    });
}

#[test]
fn boxes_hold_their_vertices() {
    with_ground(6, |ds, base, ov| {
        let boxes = build_geo(ds.vcoord, ov);
        assert_eq!(boxes.len(), 1);
        assert_eq!(boxes[0].len(), base.cells);
        for (v, p) in ds.vcoord.iter().enumerate() {
            let b = boxes[0][base.shape.of[v] as usize];
            assert!(b.0 <= p.0 && p.0 <= b.1 && b.2 <= p.1 && p.1 <= b.3);
        }
        let widest = boxes[0].iter().map(|b| b.1 - b.0).max().unwrap();
        assert!(widest < 60_000, "a box is no larger than its region");
    });
}

#[test]
fn a_split_level_keeps_what_is_whole() {
    with_ground(12, |ds, base, ov| {
        warm(ds, None, ov, u64::MAX, &|| false);
        let plan = plan_splits_by_cost(ds, ov, 0, 1, 1);
        assert_eq!(plan.cuts.len(), 1);
        let cut = plan.cuts[0].0;
        let widest = (0..base.cells as u32).map(|c| ov.boundary(c).len()).max().unwrap();
        assert_eq!(ov.boundary(cut).len(), widest, "the region with most gates goes first");
        let s = split_level(ds, ov, 0, &plan);
        assert_eq!(s.stats.regions_before, base.cells);
        assert_eq!(s.stats.regions_after, base.cells + 1);
        assert_eq!(s.stats.gates_before, base.boundary);
        assert_eq!(s.stats.gates_after, s.levels[0].bnd.len());
        let u = &s.levels[0];
        for v in 0..36 {
            // Nothing but the region that was cut changes.
            assert_eq!(u.of[v] == base.shape.of[v], base.shape.of[v] != cut || u.of[v] == cut);
        }
        let moved = (0..36).filter(|&v| u.of[v] != base.shape.of[v]).count();
        assert_eq!(moved, plan.cuts[0].1.len());
        assert!(!u.keep[cut as usize]);
        let by_sweep = plan_splits(ds, ov, 0, usize::MAX, 9);
        assert!(by_sweep.cuts.is_empty(), "no region has that many gates");
    });
}

#[test]
fn use_is_folded_over_the_levels() {
    with_ground(6, |ds, _, ov| {
        assert_eq!(fold_traffic(ov), (vec![], 0));
        warm(ds, None, ov, u64::MAX, &|| false);
        let (pairs, peak) = fold_traffic(ov);
        assert!(pairs.windows(2).all(|w| w[0].0 < w[1].0));
        assert_eq!(pairs.iter().map(|p| p.1).max(), Some(peak));
        let t = Traffic { pairs: &pairs };
        assert_eq!(t.get(pairs[0].0), pairs[0].1);
        assert_eq!(t.get(u32::MAX), 0);
    });
}

fn closed_rule(id: i64, expires: Option<i64>) -> Rule {
    rule(id, "closed", None, expires)
}

fn rule(id: i64, kind: &str, speed_kmh: Option<u16>, expires: Option<i64>) -> Rule {
    Rule {
        id,
        kind: kind.to_string(),
        lat_e7: 0,
        lon_e7: 0,
        radius_m: 10,
        street: None,
        speed_kmh,
        has_factor: kind == "penalty",
        note: String::new(),
        author: String::new(),
        created: 0,
        expires,
    }
}

#[test]
fn the_last_rule_that_holds_wins() {
    let hit = |seg: u32, scaled: u32| Hit { seg, scaled };
    let rules = [
        closed_rule(1, None),
        rule(2, "speed", Some(30), None),
        rule(3, "penalty", None, None),
        closed_rule(4, Some(50)),
        rule(5, "speed", None, None),
    ];
    let hits = [
        vec![hit(1, 0), hit(2, 0), hit(3, 0)],
        vec![hit(2, 0)],
        vec![hit(3, 700)],
        vec![hit(9, 0)],
        vec![hit(1, 0)],
    ];
    let o = Overrides::resolve(70, &rules, &hits, 50, 8);
    assert_eq!(o.effect(1), Some(Effect::Closed));
    assert_eq!(o.effect(2), Some(Effect::Speed(30)));
    assert_eq!(o.effect(3), Some(Effect::Penalty(700)));
    // It expired the moment that was asked about.
    assert_eq!(o.effect(9), None);
    assert!(!o.touches(9) && o.touches(3) && !o.touches(1_000_000));
    assert_eq!(o.segments(), vec![1, 2, 3]);
    // A rule that means nothing is not reported at all.
    assert_eq!(o.matched, vec![(1, 3), (2, 1), (3, 1), (4, 0)]);
    assert_eq!(o.generation, 8);
    assert!(Overrides::empty().is_empty());
}

#[test]
fn rules_that_mean_nothing_are_refused() {
    assert_eq!(check_rule("closed", None, false), Ok(()));
    assert_eq!(check_rule("speed", Some(30), false), Ok(()));
    assert_eq!(check_rule("speed", Some(0), false), Err(Refusal::NeedsSpeed));
    assert_eq!(check_rule("speed", None, true), Err(Refusal::NeedsSpeed));
    assert_eq!(check_rule("penalty", None, true), Ok(()));
    assert_eq!(check_rule("penalty", Some(9), false), Err(Refusal::NeedsFactor));
    assert_eq!(check_rule("detour", None, true), Err(Refusal::UnknownKind));
}

#[test]
fn a_ladder_ends_full_or_when_told() {
    assert_eq!(halt(1, 500, 0), None);
    assert_eq!(halt(24, 500, 0), Some(Halt::Full));
    assert_eq!(halt(2, 500, 500), Some(Halt::Told));
    assert_eq!(halt(2, 501, 500), None);
    assert_eq!(next_target(131_072, 1), 131_072);
    assert_eq!(next_target(131_072, 2), 131_072 * 32);
    assert_eq!(next_target(usize::MAX, 3), usize::MAX);
}

#[test]
fn a_lazy_level_is_read_only_as_it_was_laid_out() {
    // Two regions with one and two gates: 2 and 8 entries.
    let (bhead, head) = ([0u32, 1, 3], [0u64, 2, 10]);
    let stamp = lazy_stamp(2, 3, 10);
    let verdict = |head: &[u64], table: Option<u64>, stamp: Option<&[u8]>, have: Option<u64>| {
        verify_lazy_layout(&bhead, head, 3, table, stamp, have)
    };
    assert!(verdict(&head, Some(40), Some(&stamp), Some(1)).is_ok());
    assert!(verdict(&head, None, None, None).is_ok(), "no table, nothing to say");
    assert!(matches!(
        verdict(&head[..2], Some(40), None, Some(1)),
        Err(LayoutFault::Offsets { regions: 2, offsets: 2 })
    ));
    assert!(matches!(verdict(&head, Some(40), Some(b"x"), Some(1)), Err(LayoutFault::NotAStamp)));
    let other = lazy_stamp(2, 4, 10);
    assert!(matches!(
        verdict(&head, Some(40), Some(&other), Some(1)),
        Err(LayoutFault::Gates { got: 4, want: 3 })
    ));
    let fewer = lazy_stamp(1, 3, 10);
    assert!(matches!(
        verdict(&head, Some(40), Some(&fewer), Some(1)),
        Err(LayoutFault::Regions { got: 1, want: 2 })
    ));
    assert!(matches!(
        verdict(&head, Some(36), Some(&stamp), Some(1)),
        Err(LayoutFault::Entries { got: 10, want: 9 })
    ));
    assert!(matches!(
        verdict(&head, Some(36), None, Some(1)),
        Err(LayoutFault::Outside { region: 1, .. })
    ));
    assert!(matches!(
        verdict(&[0, 1, 10], Some(80), None, Some(1)),
        Err(LayoutFault::Overrun { region: 0, .. })
    ));
    assert!(matches!(
        verdict(&head, Some(40), None, Some(0)),
        Err(LayoutFault::Presence { bytes: 0, want: 1 })
    ));
    assert!(matches!(verdict(&head, Some(40), None, None), Err(LayoutFault::NoPresence)));
}

#[test]
fn one_region_without_gates_still_answers() {
    with_ground(64, |ds, base, ov| {
        assert_eq!((base.cells, base.boundary), (1, 0));
        let nothing = |_: u32, _: usize| 0u32;
        let mut router = OverlayRouter::new();
        for s in 0..36u32 {
            for t in 0..36u32 {
                let got = router.search_vertices(ds, ov, s, t, &Settings::default(), &nothing, 0);
                assert_eq!(got, reference_cost(ds, s, t).0, "{s} to {t}");
            }
        }
        let here = [(7u32, 0u32)];
        let set = Settings::default();
        let way = router.seed_and_run(ds, None, ov, &here, &here, &set, &nothing, 0);
        assert_eq!(way, Some((0, vec![7])));
        assert_eq!(router.settled, 0, "nothing to cross");
        assert_eq!(router.regions_entered, 2);
    });
}

#[test]
fn a_way_inside_the_region_names_its_vertices() {
    with_ground(64, |ds, _, ov| {
        let nothing = |_: u32, _: usize| 0u32;
        let mut router = OverlayRouter::new();
        let mut plain = Router::new(ds.n_vertices());
        let (from, to) = ([(3u32, 5u32)], [(30u32, 7u32)]);
        let set = Settings::default();
        let got = router.seed_and_run(ds, None, ov, &from, &to, &set, &nothing, 0).unwrap();
        let want = plain.run(ds, None, &from.to_vec(), &to.to_vec()).unwrap();
        assert_eq!(got.0, want.0);
        assert_eq!((got.1[0], *got.1.last().unwrap()), (3, 30));
        let mut cost = 12;
        for w in got.1.windows(2) {
            cost += reference_cost(ds, w[0], w[1]).0.unwrap();
        }
        assert_eq!(cost, got.0);
    });
}

#[test]
fn a_search_drawn_to_its_goal_answers_the_same() {
    with_ground(6, |ds, _, ov| {
        let far: Vec<Vec<u32>> = (0..36u32)
            .map(|s| (0..36u32).map(|t| reference_cost(ds, s, t).0.unwrap()).collect())
            .collect();
        let set = Settings { astar: true, ..Settings::default() };
        let mut router = OverlayRouter::new();
        for s in 0..36usize {
            for t in 0..36usize {
                let floor = |v: u32, side: usize| {
                    if side == 0 {
                        far[v as usize][t]
                    } else {
                        far[s][v as usize]
                    }
                };
                let reach = (0..36usize).map(|v| far[v][t].abs_diff(far[s][v])).max().unwrap();
                let got = router
                    .search_vertices(ds, ov, s as u32, t as u32, &set, &floor, reach);
                assert_eq!(got, Some(far[s][t]), "{s} to {t}");
            }
        }
    });
}

#[test]
fn a_search_counts_what_it_does() {
    with_ground(6, |ds, base, ov| {
        let t = (0..36).find(|&t| base.shape.of[t] != base.shape.of[0]).unwrap() as u32;
        let nothing = |_: u32, _: usize| 0u32;
        let mut router = OverlayRouter::new();
        let set = Settings { prefetch_min: 1, ..Settings::default() };
        let (first, again) = (ov.filled(0).unwrap().0, {
            assert!(router.search_vertices(ds, ov, 0, t, &set, &nothing, 0).is_some());
            ov.filled(0).unwrap().0
        });
        assert_eq!(first, 0);
        assert!(again > 0, "rows were filled on the way");
        assert_eq!(router.regions_entered, 2);
        assert!(router.settled > 0);
        assert!(router.batches > 0 && router.batch_rows >= router.batches);
        assert!(router.batches <= router.settled && router.late_rows <= router.settled);
        assert!(router.search_vertices(ds, ov, 0, t, &set, &nothing, 0).is_some());
        assert!(ov.filled(0).unwrap().0 >= again, "a filled row stays");
        assert_eq!(router.late_rows, 0);
    });
}

#[test]
fn a_speed_on_the_end_segment_counts_in_both_searches() {
    with_ground(6, |ds, base, ov| {
        let cell = |v: u32| base.shape.of[v as usize];
        let b = (1..ds.n_segments() as u32)
            .find(|&b| cell(ds.seg_u[b as usize]) != cell(ds.seg_u[0]))
            .unwrap();
        let slow = rule(1, "speed", Some(3), None);
        let o = Overrides::resolve(
            ds.n_segments(),
            &[slow],
            &[vec![Hit { seg: 0, scaled: 0 }, Hit { seg: b, scaled: 0 }]],
            0,
            1,
        );
        let (from, to) = (midway(ds, 0), midway(ds, b));
        let nothing = |_: u32, _: usize| 0u32;
        let mut router = OverlayRouter::new();
        let over = router
            .search_with(ds, Some(&o), ov, &from, &to, &Settings::default(), &nothing, 0)
            .unwrap();
        let mut r = Router::new(ds.n_vertices());
        let along = Along { forward: true, cm: 0 };
        let plain = r.route_with(ds, &from, &to, along, Some(&o)).unwrap();
        assert_eq!(over.0 as u64, plain.dur_ds);
        let quick = r.route(ds, &from, &to, along).unwrap();
        assert!(quick.dur_ds < plain.dur_ds, "three kilometres an hour is slower");
    });
}

#[test]
fn a_loop_is_left_and_entered_by_its_shorter_part() {
    let (c, g, _) = assemble();
    let ds = dataset(&c, &g);
    let (a, b) = (at(&g, 2, 2), at(&g, 2, 4));
    let seg = vertex_snap(&ds, a, 1).unwrap();
    let far = vertex_snap(&ds, b, 1).unwrap();
    let along = Along { forward: true, cm: 0 };
    let mut r = Router::new(ds.n_vertices());
    for (to_u, to_v) in [(1_000u32, 9_000u32), (9_000, 1_000)] {
        let ring = Snap { u: a, v: a, to_u, to_v, ..seg };
        let away = r.route(&ds, &ring, &far, along).unwrap();
        let whole: u64 = away.legs.iter().map(|l| l.len_cm).sum();
        assert_eq!(away.dist_cm, whole);
        assert_eq!(away.dist_cm, 21_000);
        assert_eq!(away.legs[0].reverse, to_u == 1_000);
        let home = r.route(&ds, &far, &ring, along).unwrap();
        assert_eq!(home.dist_cm, 21_000);
        assert_eq!(home.legs.last().unwrap().reverse, to_v == 1_000);
    }
}

#[test]
fn arrays_that_contradict_each_other_are_found_out() {
    let (c, g, _) = assemble();
    let ds = dataset(&c, &g);
    assert!(ds.sound() && ds.drawable() && ds.named());
    let mut eseg = ds.eseg.to_vec();
    eseg[3] = ds.n_segments() as u32;
    assert!(!Dataset { eseg: &eseg, ..dataset(&c, &g) }.sound());
    let mut head = ds.head.to_vec();
    head.swap(1, 2);
    assert_eq!(Dataset { head: &head, ..dataset(&c, &g) }.sound(), head == ds.head);
    assert!(!Dataset { seg_u: &[], ..dataset(&c, &g) }.drawable());
    assert!(!Dataset { name_off: &[], ..dataset(&c, &g) }.named());
}

fn parts<'a>(
    st: &'a P1,
    c: &'a Collected,
    edges: &'a [(u32, u32, u32)],
    coords: &'a [(i32, i32)],
    attr: &'a [u32],
) -> Parts<'a> {
    Parts {
        need: &st.need,
        junc: &st.junc,
        coords,
        edges,
        len_cm: &c.len_cm,
        attr,
        name: &c.name,
        off: &c.off,
        pts: &c.pts,
    }
}

#[test]
fn parts_that_contradict_each_other_are_found_out() {
    let (st, coords, ways) = gather();
    let Ok(c) = pass3(&ways, &coords, &st.need, &st.junc, &measure) else { panic!("cannot be read") };
    assert!(parts(&st, &c, &c.edges, &coords, &c.attr).whole());
    assert!(!parts(&st, &c, &c.edges, &coords, &c.attr[1..]).whole());
    assert!(!parts(&st, &c, &c.edges, &coords[..5], &c.attr).whole());
    let mut edges = c.edges.clone();
    edges[0].1 = 36;
    assert!(!parts(&st, &c, &edges, &coords, &c.attr).whole());
    let mut off_globe = coords.clone();
    off_globe[0].0 = -900_000_001;
    assert!(!parts(&st, &c, &c.edges, &off_globe, &c.attr).whole());
}

#[test]
fn levels_that_contradict_each_other_are_found_out() {
    with_ground(6, |_, base, ov| {
        assert!(ov.nested());
        let mut of = base.shape.of.clone();
        of[0] = base.cells as u32;
        let of: &'static [u32] = Vec::leak(of);
        ov.levels[0].of = of;
        assert!(!ov.nested());
        ov.levels[0].of = &of[1..];
        assert!(!ov.nested());
    });
    assert!(!Overlay { levels: Vec::new(), bounds: &[] }.nested());
}

#[test]
fn what_the_bound_cuts_off_is_counted() {
    with_ground(6, |ds, _, ov| {
        let mut router = OverlayRouter::new();
        // Once there is an answer, this bound says that nothing can better it.
        let high = |_: u32, _: usize| u32::MAX;
        let low = |_: u32, _: usize| 0u32;
        let mut cut = 0;
        for t in 1..36u32 {
            router.search_vertices(ds, ov, 0, t, &Settings::default(), &high, 0);
            assert!(router.pruned <= router.settled);
            cut += router.pruned;
            router.search_vertices(ds, ov, 0, t, &Settings::default(), &low, 0);
            assert_eq!(router.pruned, 0);
        }
        assert!(cut > 0);
    });
}
