use mpee_planet::overlay::query::OverlayRouter;
use mpee_planet::overlay::search::past_budget;
use mpee_planet::searchstate::{hold, SearchState};

#[test]
fn pops_in_ascending_distance() {
    let mut s = SearchState::new();
    for (v, d) in [(5u32, 30u32), (1, 10), (9, 20), (3, 40)] {
        assert!(s.relax(v, d, 0));
    }
    let mut got = Vec::new();
    while let Some((v, d)) = s.pop() {
        got.push((v, d));
    }
    assert_eq!(got, vec![(1, 10), (9, 20), (5, 30), (3, 40)]);
}

#[test]
fn a_better_distance_moves_the_entry_instead_of_adding_one() {
    let mut s = SearchState::new();
    s.relax(7, 100, 0);
    s.relax(8, 50, 0);
    assert!(s.relax(7, 10, 1), "an improvement is accepted");
    assert!(!s.relax(7, 20, 2), "a worse one is not");
    // Two vertices went in, so two come out — the improvement did not
    // leave a stale duplicate behind.
    assert_eq!(s.pop(), Some((7, 10)));
    assert_eq!(s.pop(), Some((8, 50)));
    assert_eq!(s.pop(), None);
    assert_eq!(s.reached(), 2);
}

#[test]
fn the_queue_never_exceeds_the_vertices_reached() {
    // The property the whole structure exists for: relaxing the same
    // vertices repeatedly must not grow the queue.
    let mut s = SearchState::new();
    for round in 0..50u32 {
        for v in 0..200u32 {
            s.relax(v, 10_000 - round * 100 + v, 0);
        }
    }
    assert_eq!(s.reached(), 200);
    let mut popped = 0;
    let mut last = 0;
    while let Some((_, d)) = s.pop() {
        assert!(d >= last, "distances must come out ordered");
        last = d;
        popped += 1;
    }
    assert_eq!(popped, 200, "10 000 relaxations, 200 entries");
}

#[test]
fn survives_growing_past_its_initial_capacity() {
    let mut s = SearchState::new();
    let n = 5000u32;
    for v in 0..n {
        s.relax(v, n - v, 0);
    }
    assert_eq!(s.reached(), n as usize);
    for v in 0..n {
        assert_eq!(s.dist_of(v), Some(n - v));
    }
    let mut last = 0;
    for _ in 0..n {
        let (_, d) = s.pop().unwrap();
        assert!(d >= last);
        last = d;
    }
    assert_eq!(s.pop(), None);
}

#[test]
fn clear_makes_it_reusable() {
    let mut s = SearchState::new();
    s.relax(1, 5, 0);
    s.clear();
    assert_eq!(s.reached(), 0);
    assert_eq!(s.dist_of(1), None);
    assert_eq!(s.pop(), None);
    s.relax(2, 7, 0);
    assert_eq!(s.pop(), Some((2, 7)));
}

#[test]
fn a_parent_is_kept_with_the_distance() {
    let mut s = SearchState::new();
    s.relax(4, 9, 2);
    assert_eq!(s.parent_of(4), Some(2));
    s.relax(4, 8, 3);
    assert_eq!(s.parent_of(4), Some(3));
    assert_eq!(s.peek_dist(), Some(8));
    assert_eq!(s.parent_of(5), None);
}

#[test]
fn a_table_takes_twenty_bytes_a_slot_and_four_a_place() {
    assert_eq!(hold(16, 3), 332);
    assert_eq!(hold(0, 0), 0);
    assert_eq!(hold(usize::MAX, 1), usize::MAX);
    let mut s = SearchState::new();
    let empty = s.bytes();
    assert_eq!(empty % 4, 0);
    for v in 0..10_000u32 {
        s.relax(v, v, 0);
    }
    assert!(s.bytes() >= 24 * 10_000 && s.bytes() > empty);
    let r = OverlayRouter::new();
    assert_eq!(r.frontier_bytes(), r.state0.bytes() + r.state1.bytes());
    assert_eq!(r.bytes(), r.frontier_bytes() + r.lstate.bytes());
}

#[test]
fn a_budget_may_be_used_up_but_not_passed() {
    assert!(!past_budget(100, 100));
    assert!(past_budget(101, 100));
    assert!(!past_budget(usize::MAX, usize::MAX));
}
