use mpee_planet::diff::join::{compare, hash_rec, hash_way};
use mpee_planet::osc::markup::{attr, unescape};
use mpee_planet::osc::numerals::{deg_e7, read_id, read_ref};
use mpee_planet::osc::scan::{Scanner, TaggedWay};
use mpee_planet::osc::settle::{cost_hash, segments_of, settle, way_state};
use mpee_planet::ways::record::encode_way;

#[test]
fn degrees_are_cut_off_not_rounded() {
    assert_eq!(deg_e7(b"59.9139"), Some(599_139_000));
    assert_eq!(deg_e7(b"-0.00000019"), Some(-1));
    assert_eq!(deg_e7(b"+10"), Some(100_000_000));
    assert_eq!(deg_e7(b"."), None);
    assert_eq!(deg_e7(b"1.2.3"), None);
    assert_eq!(deg_e7(b"1e5"), None);
    assert_eq!(deg_e7(b"99999999999999999999"), None);
    assert_eq!(deg_e7(b"214.7483647"), Some(i32::MAX));
    assert_eq!(deg_e7(b"214.7483648"), None);
}

#[test]
fn numbers_are_read_as_they_are_written() {
    assert_eq!(read_id(b" 42 "), Some(42));
    assert_eq!(read_id(b"+7"), Some(7));
    assert_eq!(read_id(b"-7"), None);
    assert_eq!(read_id(b"18446744073709551615"), Some(u64::MAX));
    assert_eq!(read_id(b"18446744073709551616"), None);
    assert_eq!(read_ref(b"-9223372036854775808"), Some(i64::MIN));
    assert_eq!(read_ref(b"9223372036854775808"), None);
    assert_eq!(read_ref(b"\xff"), None);
}

#[test]
fn attributes_are_found_whatever_their_order() {
    let tag = b" uid=\"7\" id = '12' v=\"a\"";
    assert_eq!(attr(tag, "id"), Some(&b"12"[..]));
    assert_eq!(attr(tag, "uid"), Some(&b"7"[..]));
    assert_eq!(attr(tag, "v"), Some(&b"a"[..]));
    assert_eq!(attr(tag, "k"), None);
}

#[test]
fn entities_come_out_as_bytes() {
    assert_eq!(unescape(b"Rue de l&apos;\xc3\x89glise"), "Rue de l'Église".as_bytes());
    assert_eq!(unescape(b"&amp;&lt;&gt;&quot;"), b"&<>\"");
    assert_eq!(unescape(b"&#233;&#xE9;&#X1F600;"), "éé😀".as_bytes());
    assert_eq!(unescape(b"&nope;"), b"&nope;");
    assert_eq!(unescape(b"&#xD800;"), b"&#xD800;");
    assert_eq!(unescape(b"a & b"), b"a & b");
    assert_eq!(unescape(b"&toolongtobeone;"), b"&toolongtobeone;");
}

fn scan(text: &str) -> Scanner {
    let mut s = Scanner::new();
    s.begin_file();
    let mut rest = text.as_bytes();
    loop {
        let a = rest.iter().position(|&c| c == b'<').map(|i| i + 1).unwrap_or(rest.len());
        let (skipped, r) = rest.split_at(a);
        let b = r.iter().position(|&c| c == b'>').map(|i| i + 1).unwrap_or(r.len());
        let (tag, r) = r.split_at(b);
        rest = r;
        if !s.piece(skipped, tag) {
            return s;
        }
    }
}

#[test]
fn a_change_file_is_read_to_its_end() {
    let s = scan(
        "<?xml version='1.0'?><osmChange><create><way id='9'><nd ref='1'/><nd ref='-2'/>\
         <tag k='highway' v='primary'/></way></create>\
         <modify><node id='1' lat='59.5' lon='10.25'/><node id='2'/></modify>\
         <delete><way id='5'/><node id='3' lat='1' lon='1'/></delete></osmChange><way id='12",
    );
    assert_eq!(s.ways, vec![9, 5]);
    assert_eq!(s.tagged.len(), 2);
    assert_eq!(s.tagged[0].refs, vec![1, -2]);
    assert_eq!(s.tagged[0].tags, vec![(b"highway".to_vec(), b"primary".to_vec())]);
    assert_eq!(s.nodes, vec![(595_000_000, 102_500_000)]);
    assert_eq!(s.unplaced, 1);
    assert_eq!(s.way_counts.created, 1);
    assert_eq!(s.way_counts.modified, 0);
    assert_eq!(s.way_counts.deleted, 1);
    assert_eq!(s.node_counts.modified, 2);
    assert_eq!(s.node_counts.deleted, 1);
}

fn tags(kv: &[(&str, &str)]) -> Vec<(Vec<u8>, Vec<u8>)> {
    kv.iter().map(|(k, v)| (k.as_bytes().to_vec(), v.as_bytes().to_vec())).collect()
}

#[test]
fn the_last_edit_of_a_way_counts() {
    let road = tags(&[("highway", "primary"), ("name", "A")]);
    let slow = tags(&[("highway", "primary"), ("name", "A"), ("maxspeed", "30")]);
    let path = tags(&[("highway", "footway")]);
    let was = cost_hash(1, &road).unwrap();
    let mut s = Scanner::new();
    let mut add = |id: u64, t: &Vec<(Vec<u8>, Vec<u8>)>| {
        s.ways.push(id);
        s.tagged.push(TaggedWay { id, tags: t.clone(), refs: Vec::new() });
    };
    // Edited twice, and back to what it was.
    add(1, &slow);
    add(1, &road);
    add(2, &slow);
    add(3, &path);
    add(4, &road);
    let t = settle(s, Some((&[1, 2, 3], &[was, was, was])));
    assert_eq!(t.ways, vec![1, 2, 3, 4]);
    assert!(t.cost_known);
    assert_eq!(t.cost_changed, vec![2, 3]);
    assert_eq!(t.cost_same, 1);
    assert_eq!(t.cost_unroutable, 1);
    assert_eq!(t.unknown, 1);
    let none = settle(Scanner::new(), None);
    assert!(!none.cost_known);
}

#[test]
fn the_cost_of_a_way_does_not_depend_on_its_nodes() {
    let road = tags(&[("highway", "primary"), ("ref", "E6")]);
    let (_, a, x) = way_state(1, &road, &[1, 2]).unwrap();
    let (_, b, y) = way_state(9, &road, &[5, 6, 7]).unwrap();
    assert_eq!(a, b);
    assert_ne!(x, y);
    assert_eq!(cost_hash(1, &road), Some(a));
    assert!(way_state(1, &tags(&[("building", "yes")]), &[1]).is_none());
}

#[test]
fn hashes_of_records_and_of_ways_agree() {
    let t: [(&[u8], &[u8]); 1] = [(b"highway", b"primary")];
    let (id, h) = hash_way(77, &t, &[1, 2, 3]).unwrap();
    assert_eq!(id, 77);
    let road = tags(&[("highway", "primary")]);
    let (attr, cost, _) = way_state(77, &road, &[1, 2, 3]).unwrap();
    assert_eq!(h, cost);
    let mut rec = Vec::new();
    encode_way(&mut rec, 77, attr, b"", b"", &[1, 2, 3]);
    assert_eq!(hash_rec(&rec), Some(cost));
    assert!(hash_way(77, &t, &[1]).is_none());
}

#[test]
fn each_way_is_classified_once() {
    let wid = [1u64, 2, 4, 7];
    let whash = [10u64, 20, 40, 70];
    let whead = [0u32, 2, 3, 3, 5];
    let wseg = [9u32, 8, 7, 6, 9];
    let c = compare(&[(1, 10), (2, 21), (5, 50), (9, 90)], &wid, &whash, &whead, &wseg);
    assert_eq!((c.unchanged, c.changed, c.added, c.deleted), (1, 1, 2, 2));
    assert_eq!(c.segments, vec![6, 7, 9]);
    assert_eq!(c.s_changed, vec![2]);
    assert_eq!(c.s_added, vec![5, 9]);
    assert_eq!(c.s_deleted, vec![4, 7]);
    assert!(c.s_unchanged.is_empty());
    assert_eq!(segments_of(&[1, 3, 7], &wid, &whead, &wseg), vec![6, 8, 9]);
}

#[test]
fn the_course_of_a_way_does_not_depend_on_its_tags() {
    let (_, a, x) = way_state(1, &tags(&[("highway", "residential")]), &[4, 8, 15]).unwrap();
    let (_, b, y) = way_state(2, &tags(&[("highway", "primary"), ("name", "A")]), &[4, 8, 15]).unwrap();
    assert_eq!(x, y);
    assert_ne!(a, b);
}
