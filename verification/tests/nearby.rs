use mpee_planet::dataset::Dataset;
use mpee_planet::geocode::Geocoder;
use mpee_planet::graph::cell_of;
use mpee_planet::nearby::{candidates_near, closer, names_near, ring_addresses, ring_segments};
use mpee_planet::pbf::listing::{read_listing, write_listing};
use mpee_planet::pbf::{BlobDesc, BlobKind};

/// Four segments, two of them in the cell of a point and two beside it.
fn streets<'a>(cell: &'a [u64], name: &'a [u32]) -> Dataset<'a> {
    Dataset {
        head: &[0],
        to: &[],
        to_d16: &[],
        to_exc: &[],
        eseg: &[],
        rhead: &[0],
        rto: &[],
        rto_d16: &[],
        rto_exc: &[],
        rseg: &[],
        vcoord: &[],
        seg_len: &[],
        seg_attr: &[],
        seg_attr16: &[],
        attr_dict: &[],
        seg_name: name,
        seg_u: &[],
        seg_v: &[],
        geom_pts: &[],
        geom_off: &[0],
        snap_cell: cell,
        snap_off: &[0, 2, 5],
        snap_seg: &[3, 1, 2, 0, 1],
        big_cell: &[],
        big_off: &[0],
        big_seg: &[],
        name_pool: b"High StreetMill Lane",
        name_off: &[0, 11, 20],
    }
}

const LAT: i32 = 599_050_000;
const LON: i32 = 107_050_000;

fn cells() -> [u64; 2] {
    let mut c = [cell_of(LAT, LON), cell_of(LAT, LON + 100_000)];
    c.sort();
    c
}

#[test]
fn a_search_outward_meets_cell_after_cell() {
    let (c, names) = (cells(), [0, 1, 0, u32::MAX]);
    assert_eq!(c[0], cell_of(LAT, LON));
    let ds = streets(&c, &names);
    assert_eq!(ring_segments(&ds, LAT, LON, 0), vec![3, 1]);
    assert_eq!(ring_segments(&ds, LAT, LON, 1), vec![2, 0, 1]);
    assert!(ring_segments(&ds, LAT, LON, 2).is_empty());
}

#[test]
fn a_street_narrows_what_a_place_may_mean() {
    let (c, names) = (cells(), [0, 1, 0, u32::MAX]);
    let ds = streets(&c, &names);
    assert_eq!(candidates_near(&ds, LAT, LON, 1, None), vec![0, 1, 2, 3]);
    assert_eq!(candidates_near(&ds, LAT, LON, 0, None), vec![1, 3]);
    assert_eq!(candidates_near(&ds, LAT, LON, 1, Some("  HIGH  street ")), vec![0, 2]);
    assert!(candidates_near(&ds, LAT, LON, 1, Some("Low Street")).is_empty());
}

#[test]
fn the_most_frequent_name_comes_first() {
    let (c, names) = (cells(), [0, 1, 0, u32::MAX]);
    let ds = streets(&c, &names);
    let got = names_near(&ds, &vec![0, 1, 2, 3]);
    let want =
        [("High Street", 2), ("(unnamed)", 1), ("Mill Lane", 1)].map(|(n, k)| (n.to_string(), k));
    assert_eq!(got, want);
    assert!(names_near(&ds, &vec![]).is_empty());
}

#[test]
fn the_closest_wins_and_a_tie_goes_to_the_first() {
    assert_eq!(closer(None, &vec![7, 8, 9], &vec![Some(5), Some(3), Some(3)]), Some((3, 8)));
    assert_eq!(closer(Some((3, 1)), &vec![7], &vec![Some(3)]), Some((3, 1)));
    assert_eq!(closer(None, &vec![7], &vec![None]), None);
    assert_eq!(closer(Some((9, 1)), &vec![7, 8], &vec![None, Some(2)]), Some((2, 8)));
}

#[test]
fn addresses_are_met_cell_after_cell() {
    let c = cells();
    let g = Geocoder {
        coord: &[(LAT, LON); 3],
        hn: &[0, 0, 0],
        street: &[0, 0, 0],
        place: &[0, 0, 0],
        cell_key: &c,
        cell_off: &[0, 1, 3],
        fwd_idx: &[],
        fwd_group: &[0, 0, 0],
        hn_num: &[1],
        street_pool: &[],
        street_off: &[],
        street_sorted: &[],
        street_norm: &[],
        street_normoff: &[0],
        city_pool: &[],
        city_off: &[],
        pc_pool: &[],
        pc_off: &[],
        hn_pool: &[],
        hn_off: &[],
        place_tab: &[],
    };
    assert_eq!(ring_addresses(&g, LAT, LON, 0), vec![0]);
    assert_eq!(ring_addresses(&g, LAT, LON, 1), vec![1, 2]);
}

#[test]
fn a_list_of_blobs_is_read_back() {
    let list = [
        BlobDesc { offset: 18, len: 200, kind: BlobKind::Header },
        BlobDesc { offset: 1 << 40, len: u32::MAX, kind: BlobKind::Data },
    ];
    let raw = write_listing(&list);
    assert_eq!(raw.len(), 32);
    assert_eq!(&raw[..16], &[18, 0, 0, 0, 0, 0, 0, 0, 200, 0, 0, 0, 0, 0, 0, 0]);
    let back = read_listing(&raw);
    assert_eq!(back.len(), 2);
    assert_eq!((back[0].offset, back[0].len, back[0].kind), (18, 200, BlobKind::Header));
    assert_eq!((back[1].offset, back[1].len, back[1].kind), (1 << 40, u32::MAX, BlobKind::Data));
    assert_eq!(read_listing(&raw[..31]).len(), 1);
}
