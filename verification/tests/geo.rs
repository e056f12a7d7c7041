use mpee_planet::csr::heads;
use mpee_planet::addresses::entries::find_between;
use mpee_planet::double::{quotient, settle, whole_of};
use mpee_planet::geo::{hilbert_d, hilbert_latlon};
use mpee_planet::geocode::index::ring_cells;
use mpee_planet::graph::grid::{cell_axis, cell_of, CELL_E7};
use mpee_planet::graph::snap::cell_index;
use mpee_planet::overlay::raise::{fill_estimate, OPS_PER_SEC};

#[test]
fn hilbert_is_a_bijection_and_local() {
    let mut seen = std::collections::HashSet::new();
    for x in 0..16u32 {
        for y in 0..16u32 {
            assert!(seen.insert(hilbert_d(4, x, y)), "duplicate at {x},{y}");
        }
    }
    assert_eq!(seen.len(), 256);
    // Consecutive indices are grid neighbours.
    for x in 0..15u32 {
        let a = hilbert_d(4, x, 0);
        let b = hilbert_d(4, x + 1, 0);
        assert!(a.abs_diff(b) >= 1);
    }
}

#[test]
fn cells_are_monotonic_and_distinct() {
    let a = cell_of(599_114_900, 107_573_300);
    let b = cell_of(599_114_900 + CELL_E7, 107_573_300);
    let c = cell_of(599_114_900, 107_573_300 + CELL_E7);
    assert_ne!(a, b);
    assert_ne!(a, c);
    assert!(b > a, "a step north increases the key");
    // Two points inside the same cell share a key.
    assert_eq!(a, cell_of(599_114_900 + 10, 107_573_300 + 10));
}

#[test]
fn cell_axis_handles_the_southern_and_western_hemispheres() {
    assert_eq!(cell_axis(-900_000_000, 900_000_000), 0);
    assert_eq!(cell_axis(0, 900_000_000), 9000);
    assert_eq!(cell_axis(-1_800_000_000, 1_800_000_000), 0);
}

#[test]
fn geometry_offsets_delimit_each_segment() {
    // off[s]..off[s+1] must carve the point array into the per-segment runs.
    let counts = [3usize, 0, 5, 1];
    let mut owner: Vec<u32> = Vec::new();
    for (s, &c) in counts.iter().enumerate() {
        for _ in 0..c {
            owner.push(s as u32);
        }
    }
    let off = heads(&owner, counts.len());
    assert_eq!(off, vec![0, 3, 3, 8, 9]);
    for (s, &c) in counts.iter().enumerate() {
        assert_eq!((off[s + 1] - off[s]) as usize, c);
    }
}

#[test]
fn rings_go_outward() {
    assert_eq!(ring_cells(0, 0, 0), vec![cell_of(0, 0)]);
    let one = ring_cells(0, 0, 1);
    assert_eq!(one.len(), 8);
    assert!(!one.contains(&cell_of(0, 0)));
    assert!(one.contains(&cell_of(CELL_E7, -CELL_E7)));
}

/// The estimate in seconds, for a level below with `tenths_below` tenths of a gate in
/// a region.
fn fill_secs(bhead: &[u32], vhead: &[u32], tenths_below: u32) -> f64 {
    let (n, d) = fill_estimate(bhead, vhead, tenths_below, 10);
    n as f64 / d as f64
}

/// The planet's three rungs, as measured while warming them:
///
/// | level | Σ(rows × members) | boundary per region below | measured |
/// |---|---|---|---|
/// | 1 | 4.93e9 | 5.2 | 13 min |
/// | 2 | 9.32e9 | 856 | 28 h |
/// | 3 | 7.24e9 | 4500 | 190 h |
#[test]
fn the_estimate_stays_within_an_order_of_magnitude_of_the_planet() {
    // One region holding all the work reproduces a given Σ(rows×members).
    let check = |work: f64, b_below: f64, measured_h: f64, name: &str| {
        let rows = 1_000u32;
        let members = (work / rows as f64) as u32;
        let bhead = [0u32, rows];
        let vhead = [0u32, members];
        let got = fill_secs(&bhead, &vhead, (b_below * 10.0).round() as u32) / 3600.0;
        let ratio = got / measured_h;
        assert!(
            (0.2..5.0).contains(&ratio),
            "{name}: estimated {got:.2} h against {measured_h:.2} h measured \
             ({ratio:.2}x) — the calibration has drifted"
        );
    };
    check(4.93e9, 5.2, 13.0 / 60.0, "level 1");
    check(9.32e9, 856.0, 28.0, "level 2");
    check(7.24e9, 4500.0, 190.0, "level 3");
}

#[test]
fn an_empty_level_costs_nothing_rather_than_dividing_by_zero() {
    assert_eq!(fill_secs(&[0u32], &[0u32], 0), 0.0);
    assert_eq!(fill_secs(&[0u32, 0], &[0u32, 0], 50), 0.0);
}

#[test]
fn the_estimate_is_work_times_gates_over_the_measured_speed() {
    let per = OPS_PER_SEC as u128;
    // Two regions of 2 rows by 3 members and 1 row by 4: ten steps.
    assert_eq!(fill_estimate(&[0, 2, 3], &[0, 3, 7], 6, 2), (60, 2 * per));
    // Fewer gates than regions count as one gate in each.
    assert_eq!(fill_estimate(&[0, 2, 3], &[0, 3, 7], 1, 2), (20, 2 * per));
    assert_eq!(fill_estimate(&[0, 2, 3], &[0, 3, 7], 0, 0), (10, per));
    assert_eq!(fill_estimate(&[], &[], 0, 0), (0, per));
}

#[test]
fn neighbours_on_the_curve_are_neighbours_on_the_ground() {
    let mut at = vec![(0u32, 0u32); 1024];
    for x in 0..32u32 {
        for y in 0..32u32 {
            at[hilbert_d(5, x, y) as usize] = (x, y);
        }
    }
    assert_eq!(at[0], (0, 0));
    assert_eq!(at[1023], (31, 0));
    for w in at.windows(2) {
        assert_eq!(w[0].0.abs_diff(w[1].0) + w[0].1.abs_diff(w[1].1), 1);
    }
}

#[test]
fn numbers_are_kept_as_a_binary64_keeps_them() {
    let value = |(m, k): (u64, u32)| m as f64 / 2f64.powi(k as i32);
    for num in 1..40u64 {
        for den in 20..60u64 {
            assert_eq!(value(quotient(num, den)), num as f64 / den as f64);
        }
    }
    assert_eq!(value(quotient(1, 10_000_000)), 1e-7);
    assert_eq!(value(quotient(1_609_344, 1_000_000)), 1.609344);
    // A half goes to the even neighbour.
    let two53 = 1u128 << 53;
    assert_eq!(settle(two53 + 1, 10), (1 << 52, 9));
    assert_eq!(settle(two53 + 3, 10), ((1 << 52) + 2, 9));
    assert_eq!(settle(3, 1), (3 << 51, 52));
    assert_eq!(whole_of(5, 1), 3);
    assert_eq!(whole_of(4, 3), 1);
    assert_eq!(whole_of(3, 3), 0);
}

#[test]
fn a_coordinate_between_two_is_rounded_as_a_binary64_rounds_it() {
    assert_eq!(find_between(0, 100, 29, 200), 14, "not quite fourteen and a half");
    for (a, b) in [(0, 100), (7, -93), (599_000_000, 599_000_777), (-3, 4), (-50, -50)] {
        for n in [2u32, 3, 7, 200, 1999, 2000] {
            for i in 1..n {
                let f = i as f64 / n as f64;
                let want = (a as f64 + (b - a) as f64 * f).round() as i32;
                assert_eq!(find_between(a, b, i, n), want, "{i} of {n} from {a} to {b}");
            }
        }
    }
}

#[test]
fn a_place_on_the_globe_is_scaled_as_a_binary64_scales_it() {
    let axis = |v: i32, half: f64| {
        let deg = v as f64 * 1e-7;
        (((deg + half) / (2.0 * half)).clamp(0.0, 1.0) * 65535.0).round() as u32
    };
    let mut lon = -1_800_000_000i64;
    while lon <= 1_800_000_000 {
        for step in [-1, 0, 1] {
            let (la, lo) = (((lon + step) / 2) as i32, (lon + step) as i32);
            assert_eq!(
                hilbert_latlon(la, lo),
                hilbert_d(16, axis(lo, 180.0), axis(la, 90.0)),
                "{la} {lo}"
            );
        }
        lon += 40_000_000;
    }
    for v in [i32::MIN, i32::MAX, 0, 1, -1, 1_073_573_300] {
        assert_eq!(hilbert_latlon(v, v), hilbert_d(16, axis(v, 180.0), axis(v, 90.0)), "{v}");
    }
}

#[test]
fn a_cell_lists_a_segment_once() {
    let x = cell_index(&vec![(3, 1), (3, 1), (3, 2), (5, 1), (5, 1)]).unwrap();
    assert_eq!(x.cells, vec![3, 5]);
    assert_eq!(x.off, vec![0, 2, 3]);
    assert_eq!(x.seg, vec![1, 2, 1]);
}
