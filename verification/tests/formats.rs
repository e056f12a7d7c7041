use mpee_planet::codecstat::{analyse, measure_words, sample_starts, Arrays, Guess, BLOCK};
use mpee_planet::pbf::blob::{parse_blob_header, place_blob, unpack, BlobFault, BlobKind, WaySearch};
use mpee_planet::pbf::block::Block;
use mpee_planet::pbf::wire::{varint, zigzag};
use mpee_planet::varint::{get_bytes, get_i, get_u, put_bytes, put_i, put_u};
use mpee_planet::ways::record::{encode_way, read_course, read_front, skip_way};
use mpee_planet::ways::stamp::{check_way_stamp, way_stamp};

#[test]
fn numbers_come_back_as_they_were_put() {
    let mut b = Vec::new();
    put_u(&mut b, 300);
    put_i(&mut b, -5);
    put_bytes(&mut b, b"abc");
    put_i(&mut b, i64::MIN);
    let mut p = 0;
    assert_eq!(get_u(&b, &mut p), Some(300));
    assert_eq!(get_i(&b, &mut p), Some(-5));
    assert_eq!(get_bytes(&b, &mut p), Some(&b"abc"[..]));
    assert_eq!(get_i(&b, &mut p), Some(i64::MIN));
    assert_eq!(p, b.len());
    assert_eq!(get_u(&b, &mut p), None);
    assert_eq!(zigzag(3), -2);
    let mut q = 0;
    assert_eq!(varint(&[0xAC, 0x02], &mut q), Some(300));
}

#[test]
fn a_way_record_comes_back() {
    let mut b = Vec::new();
    encode_way(&mut b, 12, 99, b"Street", b"E6", &[5, 3, 900]);
    let f = read_front(&b, 0).unwrap();
    assert_eq!(f.id, 12);
    assert_eq!(f.attr, 99);
    assert_eq!(f.name, b"Street");
    let (refs, end) = read_course(&b, f.course_at).unwrap();
    assert_eq!(refs, vec![5, 3, 900]);
    assert_eq!(end, b.len());
    assert_eq!(skip_way(&b, 0), Some(b.len()));
    assert!(read_front(&b[..4], 0).is_none());
}

#[test]
fn a_stamp_is_known_again() {
    let s = way_stamp(77);
    assert!(check_way_stamp(Some(&s)).is_ok());
    assert!(check_way_stamp(None).is_err());
    assert!(check_way_stamp(Some(b"nonsense")).is_err());
}

/// A message field with bytes.
fn field(num: u64, body: &[u8]) -> Vec<u8> {
    let mut b = Vec::new();
    put_u(&mut b, num * 8 + 2);
    put_bytes(&mut b, body);
    b
}

fn number(num: u64, v: u64) -> Vec<u8> {
    let mut b = Vec::new();
    put_u(&mut b, num * 8);
    put_u(&mut b, v);
    b
}

/// The bytes `hello` as zlib holds them without compression.
const STORED: [u8; 16] = [
    0x78, 0x01, 0x01, 0x05, 0x00, 0xFA, 0xFF, b'h', b'e', b'l', b'l', b'o', 0x06, 0x2C, 0x02, 0x15,
];

#[test]
fn blobs_are_unpacked() {
    let raw = field(1, b"hello");
    assert_eq!(unpack(&raw).unwrap(), b"hello");
    let mut z = number(2, 5);
    z.extend(field(3, &STORED));
    assert_eq!(unpack(&z).unwrap(), b"hello");
    let mut bad = number(2, 5);
    bad.extend(field(3, b"garbage"));
    assert_eq!(unpack(&bad), Err(BlobFault::Zlib));
    assert_eq!(unpack(&field(4, b"x")), Err(BlobFault::Unsupported));
}

#[test]
fn blob_headers_say_what_follows() {
    let mut h = field(1, b"OSMData");
    h.extend(number(3, 1234));
    assert!(matches!(parse_blob_header(&h), Ok((BlobKind::Data, 1234))));
    assert!(matches!(parse_blob_header(&field(1, b"OSMData")), Err(BlobFault::NoSize)));
    let (d, next) = place_blob(100, &h).unwrap();
    assert_eq!(d.len, 1234);
    assert_eq!(d.offset, 104 + h.len() as u64);
    assert_eq!(next, d.offset + 1234);
}

#[test]
fn the_first_blob_with_ways_is_found_by_halving() {
    let mut h = field(1, b"OSMData");
    h.extend(number(3, 10));
    let mut pos = 0;
    let mut blobs = Vec::new();
    for _ in 0..20 {
        let (d, next) = place_blob(pos, &h).unwrap();
        blobs.push(d);
        pos = next;
    }
    let mut s = WaySearch::new(&blobs);
    let mut asked = 0;
    while let Some(i) = s.ask() {
        s.tell(i >= 13);
        asked += 1;
    }
    assert_eq!(s.answer(), 13);
    assert!(asked <= 6);
}

#[test]
fn a_block_gives_its_ways() {
    // Strings: "", "highway", "primary".
    let mut table = field(1, b"");
    table.extend(field(1, b"highway"));
    table.extend(field(1, b"primary"));
    let mut way = number(1, 42);
    way.extend(field(2, &[1]));
    way.extend(field(3, &[2]));
    let mut refs = Vec::new();
    put_i(&mut refs, 10);
    put_i(&mut refs, 5);
    way.extend(field(8, &refs));
    let group = field(3, &way);
    let mut b = field(1, &table);
    b.extend(field(2, &group));
    let blk = Block::parse(&b).unwrap();
    assert_eq!(blk.has_ways(), Some(true));
    let ways = blk.for_each_way().unwrap();
    assert_eq!(ways.len(), 1);
    assert_eq!(ways[0].id, 42);
    assert_eq!(ways[0].refs(), Some(vec![10, 15]));
    let tags = ways[0].tags(&blk).unwrap();
    assert_eq!(tags, vec![(&b"highway"[..], &b"primary"[..])]);
    assert!(Block::parse(&b[..b.len() - 1]).is_none() || Block::parse(&b[..b.len() - 1]).unwrap().for_each_way().is_none());
}

#[test]
fn a_sample_is_spread_over_the_array() {
    assert_eq!(sample_starts(10, 5), vec![0]);
    assert_eq!(sample_starts(BLOCK * 10, 5), vec![0, 2 * BLOCK, 4 * BLOCK, 6 * BLOCK, 8 * BLOCK]);
    assert_eq!(sample_starts(BLOCK * 3, 50).len(), 3);
    assert!(sample_starts(BLOCK * 3, 0).is_empty());
}

#[test]
fn a_good_guess_leaves_little() {
    let steps: Vec<u32> = (0..5000).map(|i| 1_000_000 + 3 * i).collect();
    let plain = measure_words("x", &steps, 10, Guess::Nothing).unwrap();
    let guessed = measure_words("x", &steps, 10, Guess::Previous).unwrap();
    assert_eq!(plain.raw_bytes, 20_000);
    assert_eq!(plain.sample.raw, 16_384);
    assert_eq!(guessed.blocks, 1);
    // The first value takes more than one byte, every other just one.
    assert_eq!(guessed.sample.varint, 4 + 4095 - 1);
    assert!(guessed.sample.predicted < plain.sample.predicted);
    assert!(guessed.sample.predicted < guessed.sample.varint);
    assert!(plain.sample.deflate < plain.sample.raw);
    assert!(measure_words("x", &[], 10, Guess::Nothing).is_none());
}

#[test]
fn empty_arrays_are_not_measured() {
    let pts: Vec<(i32, i32)> = (0..100).map(|i| (10 * i, 20 * i)).collect();
    let a = Arrays {
        to: &[1, 2, 3],
        rto: &[],
        seg: &[0x8000_0001, 2],
        geom_pts: &pts,
        vcoord: &[],
        addr_coord: &[],
        snap_seg: &[],
        seg_len: &[],
        seg_attr: &[],
        addr_street: &[],
    };
    let m = analyse(&a, 4);
    let names: Vec<&str> = m.iter().map(|x| x.name.as_str()).collect();
    assert_eq!(names, vec!["csr.to", "csr.seg", "geom.pts"]);
    // A straight line leaves nothing after its first two points.
    assert_eq!(m[2].sample.raw, 800);
    assert_eq!(m[2].sample.varint, 200);
}
