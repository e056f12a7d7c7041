use mpee_planet::artifacts::{ends_with, starts_with};
use mpee_planet::attr::{
    attr_class, attr_kmh, attr_oneway, attr_toll, class_of, dur_ds, pack_attr, A_BRIDGE,
    A_ROUNDABOUT, A_TUNNEL,
};
use mpee_planet::bytes::{fnv_bytes, fnv_u64, get_u32, get_u64, put_u32, put_u64, FNV_START};
use mpee_planet::csr::{heads, slots};
use mpee_planet::graph::pack::{build_attr_dict, pack_targets};
use mpee_planet::graph::renumber::{move_geometry, new_ids, permuted};
use mpee_planet::lookup::{lower_bound, position, position64, position_keyed};
use mpee_planet::overlay::names::{fmt_file, geo_file, lazy_files, level_files, use_file};
use mpee_planet::overlay::tables::narrow;
use mpee_planet::profile::{Class, OneWay, WayAttr, NO_STR};
use mpee_planet::ranking::rank_by;
use mpee_planet::router::class_name;
use mpee_planet::sorting::{number_set, pair_set};
use mpee_planet::ways::record::{encode_way, way_hashes};

#[test]
fn hashes_mix_byte_after_byte() {
    assert_eq!(fnv_bytes(FNV_START, b""), 0xcbf2_9ce4_8422_2325);
    assert_eq!(fnv_bytes(FNV_START, b"a"), 0xaf74_d84c_8601_ec8c);
    assert_eq!(fnv_bytes(FNV_START, b"foobar"), 0xf8ac_2471_f739_67e8);
    assert_eq!(fnv_u64(FNV_START, 0x61), fnv_bytes(FNV_START, &[0x61, 0, 0, 0, 0, 0, 0, 0]));
}

#[test]
fn times_are_tenths_of_a_second_cut_off() {
    // A kilometre at thirty-six is a hundred seconds.
    assert_eq!(dur_ds(100_000, 36), 1000);
    assert_eq!(dur_ds(99, 36), 0);
    assert_eq!(dur_ds(100, 0), dur_ds(100, 1));
    assert_eq!(dur_ds(u32::MAX, 1), 1_546_188_226);
}

#[test]
fn attributes_are_packed_and_read_back() {
    let a = WayAttr {
        class: Class::Tertiary,
        oneway: OneWay::Backward,
        kmh: 80,
        toll: true,
        bridge: true,
        tunnel: false,
        roundabout: true,
        name_idx: NO_STR,
        ref_idx: NO_STR,
    };
    let w = pack_attr(&a);
    assert_eq!(w, 8 | 2 << 4 | 1 << 6 | 1 << 7 | 1 << 9 | 80 << 16);
    assert_eq!(attr_class(w), 8);
    assert_eq!(attr_oneway(w), 2);
    assert_eq!(attr_kmh(w), 80);
    assert!(attr_toll(w));
    assert_eq!(w & (A_BRIDGE | A_TUNNEL | A_ROUNDABOUT), A_BRIDGE | A_ROUNDABOUT);
    assert_eq!(class_of(attr_class(w)), Class::Tertiary);
    assert_eq!(class_of(15), Class::Other);
    assert_eq!(class_of(200), Class::Other);
    assert_eq!(class_name(0), "motorway");
}

#[test]
fn numbers_stand_least_byte_first() {
    let mut b = vec![9];
    put_u32(&mut b, 0x0403_0201);
    put_u64(&mut b, 0x0807_0605_0403_0201);
    assert_eq!(b, [9, 1, 2, 3, 4, 1, 2, 3, 4, 5, 6, 7, 8]);
    assert_eq!(get_u32(&b, 1), 0x0403_0201);
    assert_eq!(get_u64(&b, 5), 0x0807_0605_0403_0201);
}

#[test]
fn the_halves_of_a_way_are_hashed_apart() {
    let (mut a, mut b, mut c) = (Vec::new(), Vec::new(), Vec::new());
    encode_way(&mut a, 5, 7, b"Street", b"", &[1, 2]);
    encode_way(&mut b, 6, 7, b"Street", b"", &[1, 3]);
    encode_way(&mut c, 5, 8, b"Street", b"", &[1, 2]);
    let (ha, hb, hc) =
        (way_hashes(&a).unwrap(), way_hashes(&b).unwrap(), way_hashes(&c).unwrap());
    assert_eq!((ha.0, hb.0), (5, 6));
    assert_eq!(ha.1, hb.1);
    assert_ne!(ha.2, hb.2);
    assert_ne!(ha.1, hc.1);
    assert_eq!(ha.2, hc.2);
    // Attribute, name and reference, as they stand in the record.
    assert_eq!(ha.1, fnv_bytes(FNV_START, b"\x07\x06Street\x00"));
}

#[test]
fn offsets_count_what_comes_before() {
    let keys = [2u32, 0, 2, 1, 2];
    let head = heads(&keys, 4);
    assert_eq!(head, vec![0, 1, 2, 5, 5]);
    assert_eq!(slots(&keys, &head), vec![2, 0, 3, 1, 4]);
}

#[test]
fn lists_are_searched_by_halving() {
    let v = [1u32, 4, 4, 9];
    assert_eq!(lower_bound(&v, 4), 1);
    assert_eq!(lower_bound(&v, 10), 4);
    let w = [1u32, 4, 9];
    assert_eq!(position(&w, 9), Some(2));
    assert_eq!(position(&w, 5), None);
    assert_eq!(position64(&[3, 8], 8), Some(1));
    assert_eq!(position_keyed(&[(3u32, 'a'), (8, 'b')], 8), Some(1));
}

#[test]
fn sets_rise_and_hold_nothing_twice() {
    assert_eq!(number_set(vec![5, 1, 5, 3, 1]), vec![1, 3, 5]);
    assert_eq!(pair_set(vec![(2, 1), (1, 9), (2, 1), (1, 0)]), vec![(1, 0), (1, 9), (2, 1)]);
    let r = rank_by(&vec![30, 10, 20, 10]);
    assert_eq!(r.order, vec![1, 3, 2, 0]);
    assert_eq!(r.place, vec![3, 0, 2, 1]);
}

#[test]
fn near_targets_fit_sixteen_bits() {
    let (d, exc) = pack_targets(&[0, 2, 2, 3], &[1, 40_000, 0]);
    assert_eq!(d, vec![1, i16::MIN, -2]);
    assert_eq!(exc, vec![(1, 40_000)]);
}

#[test]
fn attribute_words_go_through_a_dictionary() {
    let (idx, dict) = build_attr_dict(&[7, 9, 7, 7, 1]).unwrap();
    assert_eq!(idx, vec![0, 1, 0, 0, 2]);
    assert_eq!(dict, vec![7, 9, 1]);
    let many: Vec<u32> = (0..65_537).collect();
    assert!(build_attr_dict(&many).is_none());
    assert!(build_attr_dict(&many[1..]).is_some());
}

#[test]
fn segments_are_numbered_as_they_are_met() {
    // The word of an edge names its segment; the top bit is its direction.
    let ids = new_ids(&[2 | 0x8000_0000, 0, 2], 4);
    assert_eq!(ids, vec![1, 2, 0, 3]);
    assert_eq!(permuted(&[10, 11, 12, 13], &ids), vec![12, 10, 11, 13]);
    let (off, pts) = move_geometry(&[0, 1, 1, 3, 3], &[(1, 1), (2, 2), (3, 3)], &ids);
    assert_eq!(off, vec![0, 2, 3, 3, 3]);
    assert_eq!(pts, vec![(2, 2), (3, 3), (1, 1)]);
}

#[test]
fn small_tables_take_two_bytes() {
    // Two regions with one and two gates; the second has a wide entry. Every
    // table starts at a multiple of four.
    let wide = [5, 0, 70_000, u32::MAX, 0];
    let n = narrow(&wide, &[0, 1, 5], &[0, 1, 3], 2);
    assert_eq!(n.width, vec![2, 4]);
    assert_eq!(n.narrowed, 1);
    assert_eq!(n.head, vec![0, 4, 20]);
    assert_eq!(n.mat.len(), 20);
    assert_eq!(&n.mat[..2], &[5, 0]);
}

#[test]
fn the_files_of_a_level_have_their_names() {
    assert_eq!(level_files(0), ["cell.of", "cell.bnd", "cell.bhead", "ov.head", "ov.mat", "ov.width"]);
    assert_eq!(level_files(1)[0], "l2.of");
    assert_eq!(level_files(11)[4], "l12.mat");
    assert_eq!(lazy_files(2), ["l3.vhead", "l3.vlist", "l3.lazy", "l3.have"]);
    assert_eq!(use_file(1), "l2.use");
    assert_eq!(geo_file(0), "ov.geo");
    assert_eq!(geo_file(3), "l4.geo");
    assert_eq!(fmt_file(1), "l2.fmt");
    assert!(starts_with(b"csr.head", "csr."));
    assert!(!starts_with(b"cs", "csr."));
    assert!(ends_with(b"l2.mat", ".mat"));
}
