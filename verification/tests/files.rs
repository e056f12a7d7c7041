use mpee_planet::artifacts::{
    artifact_group, is_level_artifact, is_runtime_artifact, runtime_artifacts,
};
use mpee_planet::cachecap::{qos_class, CacheCap};
use mpee_planet::catalog::{
    build_dir, digest_of, head_id, missing_passes, new_build_id, passes, resolve, role_of,
    toml_path,
};
use mpee_planet::inspection::{counts, verify, Fault, Stock};
use mpee_planet::overlay::names::{lazy_files, level_files, use_file};
use mpee_planet::pipeline::{advance, movable, now_us, prune, restat, scratch, Phase};

#[test]
fn level_files_are_known_by_their_shape() {
    assert!(is_level_artifact("l2.of"));
    assert!(is_level_artifact("l16.have"));
    assert!(is_level_artifact("l+3.use"));
    assert!(!is_level_artifact("l1.of"));
    assert!(is_level_artifact("l17.of"));
    assert!(is_level_artifact("l24.of"));
    assert!(!is_level_artifact("l25.of"));
    assert!(!is_level_artifact("cell.of"));
    assert!(!is_level_artifact("l2.tmp"));
    assert!(!is_level_artifact("l2.xyz"));
    assert!(!is_level_artifact("x2.of"));
    assert!(!is_level_artifact("l2"));
    assert!(!is_level_artifact(""));
    assert!(is_runtime_artifact("csr.head"));
    assert!(is_runtime_artifact("l3.mat"));
    assert!(!is_runtime_artifact("ways.rec"));
    assert_eq!(runtime_artifacts().len(), 67);
    assert_eq!(artifact_group("csr.to"), "graph");
    assert_eq!(artifact_group("hn.num"), "addresses + geocoding");
}

/// The files of a dataset with two vertices, two edges, one segment and one
/// address.
fn stock() -> Stock {
    let mut files: Vec<(String, u64)> = Vec::new();
    for f in runtime_artifacts() {
        let n = match f {
            "csr.head" | "csr.rhead" => 12,
            "to.d16" | "rto.d16" => 4,
            "csr.seg" | "csr.rseg" | "csr.to" | "csr.rto" => 8,
            "vcoord.bin" => 16,
            "seg.len" | "seg.attr" | "seg.name" | "seg.u" | "seg.v" => 4,
            "seg.attr16" => 2,
            "geom.off" => 8,
            "geom.pts" => 16,
            "snap.cell" | "big.cell" | "acell.key" => 8,
            "snap.off" | "big.off" | "acell.off" => 8,
            "addr.coord" => 8,
            "addr.hn" | "addr.street" | "addr.place" | "fwd.idx" => 4,
            "name.off" => 16,
            _ => 0,
        };
        files.push((f.to_string(), n));
    }
    Stock {
        files,
        geom_end: Some(2),
        name_end: Some(0),
        street_end: None,
        hn_end: None,
        city_end: None,
        pc_end: None,
        norm_end: None,
    }
}

fn set(st: &mut Stock, name: &str, len: u64) {
    for f in st.files.iter_mut() {
        if f.0 == name {
            f.1 = len;
        }
    }
}

#[test]
fn files_that_agree_are_no_problem() {
    let st = stock();
    assert!(verify(&st).is_empty());
    let c = counts(&st).unwrap();
    assert_eq!(c.vertices, 2);
    assert_eq!(c.edges, 2);
    assert_eq!(c.segments, 1);
    assert_eq!(c.addresses, 1);
    assert_eq!(c.geometry_points, 2);
    assert_eq!(c.street_names, 1);
    assert_eq!(restat(&c)[0], ("vertices", 2));
}

#[test]
fn each_fault_is_told() {
    let mut st = stock();
    st.files.retain(|f| f.0 != "csr.head");
    let p = verify(&st);
    assert_eq!(p.len(), 1);
    assert_eq!(p[0].file, "csr.head");
    assert!(matches!(p[0].fault, Fault::Missing));
    assert_eq!(p[0].detail(), "missing");
    assert!(counts(&st).is_none());

    let mut st = stock();
    st.files.retain(|f| f.0 != "csr.to" && f.0 != "to.d16");
    let p = verify(&st);
    assert_eq!(p[0].detail(), "missing, and so is csr.to — the dataset has neither form");

    let mut st = stock();
    set(&mut st, "csr.head", 0);
    assert_eq!(verify(&st)[0].detail(), "empty");

    let mut st = stock();
    set(&mut st, "seg.u", 12);
    let p = verify(&st);
    assert_eq!(p.len(), 1);
    assert_eq!(p[0].detail(), "is 12 bytes, but the rest of the dataset implies 4");

    let mut st = stock();
    st.files.retain(|f| f.0 != "attr.dict");
    let p = verify(&st);
    assert_eq!(p[0].file, "attr.dict");

    let mut st = stock();
    st.geom_end = Some(3);
    assert_eq!(
        verify(&st)[0].detail(),
        "holds 2 points but geom.off ends at 3 — the geometry pass did not finish"
    );

    let mut st = stock();
    set(&mut st, "snap.off", 4);
    assert_eq!(verify(&st)[0].detail(), "1 offsets for 1 cells (expected 2)");

    let mut st = stock();
    st.name_end = Some(9);
    let p = verify(&st);
    assert_eq!(p[0].file, "name.pool");
    assert_eq!(p[0].detail(), "is 0 bytes but name.off ends at 9");
}

#[test]
fn a_level_is_there_as_a_whole_or_not_at_all() {
    let mut st = stock();
    st.files.push(("l3.of".to_string(), 4));
    let p = verify(&st);
    assert!(matches!(p[0].fault, Fault::Gap { level: 3 }));
    assert!(p.iter().any(|x| x.file == "l3.bnd" && matches!(x.fault, Fault::NotInShape { .. })));
    assert!(p.iter().any(|x| x.file == "l3.mat" && matches!(x.fault, Fault::Partial { .. })));
    assert!(p.iter().any(|x| x.detail().starts_with("level 3 has neither a complete eager table (0 of 2)")));
    let mut st = stock();
    for x in ["of", "bnd", "bhead", "head", "mat", "width"] {
        st.files.push((format!("l2.{x}"), 4));
    }
    assert!(verify(&st).is_empty());
}

#[test]
fn a_build_is_published_only_when_whole() {
    let mut p = Phase::Pass(0);
    for k in 0..passes().len() {
        assert_eq!(p, Phase::Pass(k));
        p = advance(p, true, false);
    }
    assert_eq!(p, Phase::Inspect);
    assert_eq!(advance(p, false, false), Phase::Failed);
    assert_eq!(advance(p, true, true), Phase::Record);
    p = advance(p, true, false);
    assert_eq!(p, Phase::Prune);
    p = advance(p, true, false);
    p = advance(p, true, false);
    assert_eq!(p, Phase::Publish);
    assert_eq!(advance(p, true, false), Phase::Done);
    assert_eq!(advance(p, false, false), Phase::Stopped);
    assert_eq!(advance(Phase::Pass(3), false, false), Phase::Failed);
}

#[test]
fn missing_passes_are_named_in_order() {
    let done = vec!["scan".to_string(), "graph".to_string()];
    assert_eq!(missing_passes(&done), vec!["contract", "addr", "toll", "tolldb", "overlay"]);
    let all: Vec<String> = passes().iter().map(|p| p.to_string()).collect();
    assert!(missing_passes(&all).is_empty());
}

#[test]
fn the_live_build_is_never_pruned() {
    let dirs: Vec<Vec<u8>> = [b"b100".to_vec(), b"b300".to_vec(), b"b200".to_vec(), b"b400".to_vec()].into();
    // Newest first: b400, b300, b200, b100.
    assert_eq!(prune(&dirs, b"b300", 1), vec![2, 0]);
    assert_eq!(prune(&dirs, b"b100", 0), vec![3, 1, 2]);
    assert!(prune(&dirs, b"b100", 3).is_empty());
}

#[test]
fn resolve_falls_back_to_the_root_when_there_is_no_head() {
    // Nothing there, and a pointer to a build that is not there either.
    assert_eq!(resolve(None, false), None);
    assert_eq!(resolve(Some("b999\n"), false), None);
    assert_eq!(resolve(Some("b999\n"), true), Some("b999"));
    assert_eq!(build_dir("b999"), "builds/b999");
}

#[test]
fn names_and_places_of_builds() {
    assert_eq!(new_build_id(1_700_000_000_123_456), "b1700000000");
    assert!(new_build_id(1_700_000_000_000_000) < new_build_id(1_700_000_001_000_000));
    assert_eq!(build_dir("b7"), "builds/b7");
    assert_eq!(head_id("b999\n"), "b999");
    assert_eq!(resolve(Some("b999\n"), true), Some("b999"));
    assert_eq!(resolve(Some("b999\n"), false), None);
    assert_eq!(resolve(None, true), None);
    assert_eq!(toml_path("a\"b\\c"), "\"a\\\"b\\\\c\"");
    assert_eq!(role_of("csr.head"), "runtime");
    assert_eq!(role_of("ways.rec"), "scratch");
    assert!(scratch("ways.rec"));
    assert!(!scratch("HEAD"));
    assert!(!scratch("csr.seg"));
    assert!(!movable("HEAD"));
    assert!(!movable("catalog.mpedb-lock"));
    assert!(movable("csr.seg"));
    assert_eq!(now_us(None), 0);
    assert_eq!(now_us(Some((2, 5))), 2_000_005);
}

#[test]
fn a_digest_is_that_of_the_bytes() {
    let empty = digest_of(&[]);
    assert_eq!(empty, "af1349b9f5f9a1a6a0404dea36dcc9499bcb25c9adc112b7cc9a93cae41f3262");
    assert_eq!(digest_of(b"abc").len(), 64);
    assert_ne!(digest_of(b"abc"), digest_of(b"abd"));
}

#[test]
fn only_whole_pages_are_governed() {
    let mut c = CacheCap::new(100);
    c.govern(4000, 10_000, 4096);
    assert_eq!(c.spans, vec![(4096, 8192)]);
    c.govern(4100, 200, 4096);
    assert_eq!(c.spans.len(), 1, "no whole page in it");
    assert!(!c.enforce(100));
    assert!(c.enforce(101));
    assert_eq!(c.flushes, 1);
    assert_eq!(c.peak, 101);
    assert_eq!(c.budget(), 100);
}

#[test]
fn classes_of_service_have_their_numbers() {
    assert_eq!(qos_class("background"), Some(0x09));
    assert_eq!(qos_class("utility"), Some(0x11));
    assert_eq!(qos_class("default"), Some(0x15));
    assert_eq!(qos_class("user_initiated"), Some(0x19));
    assert_eq!(qos_class("Utility"), None);
    assert_eq!(qos_class(""), None);
}

#[test]
fn a_packed_dataset_counts_its_edges() {
    let mut st = stock();
    st.files.retain(|f| f.0 != "csr.to" && f.0 != "to.d16");
    st.files.push(("to.d16".to_string(), 12));
    let c = counts(&st).unwrap();
    assert_eq!(c.edges, 6);
    assert_eq!(c.vertices, 2);
}

#[test]
fn every_file_of_a_level_is_known_for_one() {
    for k in 1..24usize {
        for f in level_files(k).iter().chain(lazy_files(k).iter()) {
            assert!(is_level_artifact(f), "{f}");
        }
        assert!(is_level_artifact(&use_file(k)));
    }
}
