use mpee_planet::addresses::index::pass5;
use mpee_planet::addresses::words::norm_name;
use mpee_planet::addresses::{hn_number, normalize};
use mpee_planet::bitmap::BitMap;
use mpee_planet::geocode::{partition_point, Geocoder};
use mpee_planet::intern::Pool;
use mpee_planet::pbf::node::DenseNode;
use mpee_planet::ways::harvest::take_node;

#[test]
fn normalisation_keeps_norwegian_letters() {
    assert_eq!(normalize("  Karl  Johans   gate "), "karl johans gate");
    assert_eq!(normalize("Bøgata"), "bøgata");
    assert_eq!(normalize("ÅSVEIEN"), "åsveien");
    assert_ne!(normalize("Bogata"), normalize("Bøgata"));
}

#[test]
fn house_numbers_order_by_their_leading_integer() {
    assert_eq!(hn_number("42"), 42);
    assert_eq!(hn_number("42B"), 42);
    assert_eq!(hn_number("12-14"), 12);
    assert_eq!(hn_number(" 7 "), 7);
    assert_eq!(hn_number("C"), u32::MAX);
}

#[test]
fn pool_dedups_and_roundtrips() {
    let mut p = Pool::new();
    let a = p.intern(b"Main Street");
    let b = p.intern(b"42");
    let c = p.intern(b"Main Street");
    assert_eq!(a, c, "repeat interning returns the same id");
    assert_ne!(a, b);
    assert_eq!(p.len(), 2);
    assert_eq!(p.get(a), b"Main Street");
    assert_eq!(p.get(b), b"42");
}

#[test]
fn partition_point_finds_the_boundary() {
    let v = [1, 3, 3, 5, 9];
    assert_eq!(partition_point(v.len(), |i| v[i] < 3), 1);
    assert_eq!(partition_point(v.len(), |i| v[i] <= 3), 3);
    assert_eq!(partition_point(v.len(), |i| v[i] < 0), 0);
    assert_eq!(partition_point(v.len(), |i| v[i] < 100), 5);
}

#[test]
fn broken_bytes_in_a_name_are_replaced() {
    assert_eq!(norm_name(b"A\xffB"), "a\u{fffd}b".as_bytes().to_vec());
    assert_eq!(norm_name(b"Oslo"), b"oslo".to_vec());
}

fn door(id: i64, lat: i32, lon: i32) -> DenseNode {
    DenseNode { id, lat_e7: lat, lon_e7: lon, kv: Vec::new() }
}

/// Four doors on two streets, in two places.
fn doors() -> Vec<u8> {
    let need = {
        let mut n = BitMap::new(64);
        n.build_rank();
        n
    };
    let mut junc = BitMap::new(64);
    let mut coords: Vec<(i32, i32)> = Vec::new();
    let mut doors = Vec::new();
    let mut tolls = Vec::new();
    let rows: [(i64, i32, i32, &[u8], &[u8], &[u8], &[u8]); 4] = [
        (1, 599_000_000, 107_000_000, b"Storgata", b"2", b"Oslo", b"0155"),
        (2, 599_000_100, 107_000_100, b"Storgata", b"10B", b"Oslo", b"0155"),
        (3, 603_000_000, 53_000_000, b"Storgata", b"3", b"Bergen", b"5003"),
        (4, 599_000_200, 107_000_200, b"Storgaten", b"1", b"Oslo", b"0155"),
    ];
    for (id, la, lo, street, hn, city, pc) in rows {
        let tags: [(&[u8], &[u8]); 4] = [
            (b"addr:street", street),
            (b"addr:housenumber", hn),
            (b"addr:city", city),
            (b"addr:postcode", pc),
        ];
        take_node(
            &need,
            &mut junc,
            &mut coords,
            &door(id, la, lo),
            &tags,
            &mut doors,
            &mut tolls,
        );
    }
    assert!(tolls.is_empty());
    doors
}

#[test]
fn doors_are_found_by_street_and_number() {
    let mut need = BitMap::new(64);
    need.build_rank();
    let built = pass5(&doors(), &[], &need, &[]);
    assert!(built.is_ok());
    let Ok((g, b, st)) = built else { return };
    assert_eq!(st.points, 4);
    assert_eq!(st.streets, 2);
    assert_eq!(st.housenumbers, 4);
    assert_eq!(st.places, 2);
    assert_eq!(g.places.list, vec![(0, 0), (1, 1)], "in order of appearance");
    assert_eq!(st.groups, 3);
    let tab: Vec<u32> = g.places.list.iter().flat_map(|p| [p.0, p.1]).collect();
    let geo = Geocoder {
        coord: &b.coord,
        hn: &b.hn,
        street: &b.street,
        place: &b.place,
        cell_key: &b.cell_key,
        cell_off: &b.cell_off,
        fwd_idx: &b.fwd_idx,
        fwd_group: &b.fwd_group,
        hn_num: &b.hn_num,
        street_pool: &g.streets.pool,
        street_off: &g.streets.off,
        street_sorted: &b.street_sorted,
        street_norm: &b.street_norm,
        street_normoff: &b.street_normoff,
        city_pool: &g.cities.pool,
        city_off: &g.cities.off,
        pc_pool: &g.pcs.pool,
        pc_off: &g.pcs.off,
        hn_pool: &g.hns.pool,
        hn_off: &g.hns.off,
        place_tab: &tab,
    };
    assert!(geo.readable());
    let lost = [0u32, 1, 2, 9];
    assert!(!Geocoder { fwd_idx: &lost, ..geo }.readable());
    assert_eq!(geo.len(), 4);
    assert!(!geo.is_empty());
    assert_eq!(geo.street_count(), 2);
    // Exact, in the right city.
    let hits = geo.forward("storgata", "3", None, 5);
    assert_eq!(hits.len(), 2);
    assert!(!hits[0].approximate);
    assert_eq!(hits[0].city.as_deref(), Some("Bergen"));
    assert!(hits[1].approximate, "the other city has only a neighbour");
    assert_eq!(hits[1].housenumber, "2");
    // The postcode filters as the city does.
    let hits = geo.forward(" STORGATA ", "10b", Some("0155"), 5);
    assert_eq!(hits.len(), 1);
    assert!(!hits[0].approximate);
    assert_eq!(hits[0].housenumber, "10B");
    assert_eq!((hits[0].lat_e7, hits[0].lon_e7), (599_000_100, 107_000_100));
    assert!(geo.forward("storgata", "3", Some("Tromsø"), 5).is_empty());
    let all = geo.forward("storgata", "3", None, usize::MAX);
    assert_eq!(all.len(), geo.forward("storgata", "3", None, 1_000).len());
    // Names that begin alike.
    assert_eq!(geo.suggest("STORGAT", 10), vec!["Storgata".to_string(), "Storgaten".to_string()]);
    assert_eq!(geo.suggest("storgate", 10), vec!["Storgaten".to_string()]);
    assert!(geo.suggest("  ", 10).is_empty());
}

#[test]
fn broken_address_records_are_refused() {
    let mut need = BitMap::new(64);
    need.build_rank();
    let mut bytes = doors();
    bytes.pop();
    assert!(pass5(&bytes, &[], &need, &[]).is_err());
}
