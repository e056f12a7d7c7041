use mpee_planet::bitmap::BitMap;

#[test]
fn rank_matches_linear_count() {
    let mut bm = BitMap::new(10_000);
    let ids: Vec<u64> = (0..10_000).filter(|i| i % 7 == 3 || i % 13 == 0).collect();
    for &i in &ids {
        bm.set(i);
    }
    bm.build_rank();
    assert_eq!(bm.total(), ids.len() as u64);
    for (dense, &i) in ids.iter().enumerate() {
        assert_eq!(bm.rank1(i), dense as u64, "rank1({i})");
    }
}

#[test]
fn set_reports_previous_value() {
    let mut bm = BitMap::new(128);
    assert!(!bm.set(42), "first set reports not-previously-set");
    assert!(bm.set(42), "second set reports previously-set");
    assert!(bm.get(42));
    assert!(!bm.get(43));
}

#[test]
fn for_each_set_agrees_with_rank() {
    let mut bm = BitMap::new(3000);
    for i in (0..3000u64).filter(|i| i % 11 == 5) {
        bm.set(i);
    }
    bm.build_rank();
    let mut seen = Vec::new();
    for (id, rank) in bm.for_each_set() {
        assert_eq!(rank, bm.rank1(id));
        seen.push(id);
    }
    assert_eq!(seen.len(), bm.total() as usize);
    assert!(seen.windows(2).all(|w| w[0] < w[1]), "ascending");
}

#[test]
fn rank_across_block_boundaries() {
    // 512 bits per rank block — check ids either side of several blocks.
    let mut bm = BitMap::new(5000);
    for i in (0..5000).step_by(3) {
        bm.set(i);
    }
    bm.build_rank();
    let mut expect = 0u64;
    for i in 0..5000u64 {
        assert_eq!(bm.rank1(i), expect, "rank1({i})");
        if i % 3 == 0 {
            expect += 1;
        }
    }
}

#[test]
fn counting_counts_set_bits_only() {
    let mut bm = BitMap::new(200);
    bm.set(0);
    bm.set(63);
    bm.set(64);
    bm.set(199);
    assert_eq!(bm.count_ones(), 4);
    assert_eq!(bm.bits(), 200);
}

#[test]
fn a_saved_map_loads_again() {
    let mut bm = BitMap::new(1000);
    for i in (0..1000).step_by(17) {
        bm.set(i);
    }
    let image = bm.save();
    let back = BitMap::load(&image);
    assert!(back.is_ok());
    if let Ok(b) = back {
        assert_eq!(b.bits(), 1000);
        for i in 0..1000 {
            assert_eq!(b.get(i), bm.get(i));
        }
    }
    assert!(BitMap::load(&image[..3]).is_err());
}
