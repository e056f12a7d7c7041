use mpee_planet::attr::{attr_class, attr_kmh, attr_oneway, attr_toll, class_of, pack_attr};
use mpee_planet::profile::{classify, parse_maxspeed, Class, OneWay, WayAttr};

fn cls(tags: &[(&'static [u8], &'static [u8])]) -> Option<WayAttr> {
    classify(tags, |_| 0)
}

#[test]
fn motorway_is_oneway_by_default_but_tag_wins() {
    let a = cls(&[(b"highway", b"motorway")]).unwrap();
    assert_eq!(a.oneway, OneWay::Forward);
    let b = cls(&[(b"highway", b"motorway"), (b"oneway", b"no")]).unwrap();
    assert_eq!(b.oneway, OneWay::No);
}

#[test]
fn access_no_rejects_unless_motorcar_allowed() {
    assert!(cls(&[(b"highway", b"service"), (b"access", b"private")]).is_none());
    assert!(cls(&[
        (b"highway", b"service"),
        (b"access", b"private"),
        (b"motorcar", b"yes")
    ])
    .is_some());
}

#[test]
fn footways_and_squares_are_not_drivable() {
    assert!(cls(&[(b"highway", b"footway")]).is_none());
    assert!(cls(&[(b"highway", b"pedestrian"), (b"area", b"yes")]).is_none());
}

#[test]
fn ferries_are_routable_edges() {
    let a = cls(&[(b"route", b"ferry")]).unwrap();
    assert_eq!(a.class, Class::Ferry);
}

#[test]
fn maxspeed_forms() {
    assert_eq!(parse_maxspeed(b"50", Class::Primary), Some(50));
    assert_eq!(parse_maxspeed(b"60 mph", Class::Primary), Some(97));
    assert_eq!(parse_maxspeed(b"none", Class::Motorway), Some(130));
    assert_eq!(parse_maxspeed(b"walk", Class::Residential), Some(7));
    assert_eq!(parse_maxspeed(b"DE:urban", Class::Residential), Some(50));
    assert_eq!(parse_maxspeed(b"signals", Class::Residential), None);
}

#[test]
fn toll_flag_is_picked_up() {
    assert!(cls(&[(b"highway", b"motorway"), (b"toll", b"yes")]).unwrap().toll);
    assert!(!cls(&[(b"highway", b"motorway"), (b"toll", b"no")]).unwrap().toll);
}

#[test]
fn a_packed_word_gives_its_fields_back() {
    let a = cls(&[
        (b"highway", b"primary"),
        (b"oneway", b"-1"),
        (b"maxspeed", b"70"),
        (b"toll", b"yes"),
    ])
    .unwrap();
    let w = pack_attr(&a);
    assert_eq!(attr_kmh(w), 70);
    assert_eq!(attr_oneway(w), 2);
    assert!(attr_toll(w));
    assert_eq!(class_of(attr_class(w)), Class::Primary);
}

#[test]
fn a_direction_for_motorcars_wins_wherever_it_stands() {
    let way = |tags: &[(&'static [u8], &'static [u8])]| cls(tags).unwrap().oneway;
    assert_eq!(
        way(&[(b"highway", b"residential"), (b"oneway:motorcar", b"no"), (b"oneway", b"yes")]),
        OneWay::No
    );
    assert_eq!(
        way(&[(b"highway", b"residential"), (b"oneway", b"yes"), (b"oneway:motorcar", b"no")]),
        OneWay::No
    );
    assert_eq!(
        way(&[(b"highway", b"residential"), (b"oneway:motor_vehicle", b"-1"), (b"oneway", b"yes")]),
        OneWay::Backward
    );
    assert_eq!(way(&[(b"highway", b"residential"), (b"oneway", b"yes")]), OneWay::Forward);
}

/// What a binary64 makes of a number in a unit.
fn by_double(n: &str, unit: f64) -> Option<u16> {
    let x: f64 = n.parse().unwrap();
    (x > 0.0).then(|| (x * unit).round().clamp(1.0, 255.0) as u16)
}

#[test]
fn speeds_are_rounded_as_a_binary64_rounds_them() {
    let plain = |s: &str| parse_maxspeed(s.as_bytes(), Class::Primary);
    assert_eq!(plain("50.4999999999999999999"), Some(51));
    assert_eq!(plain("50.49999999999999"), Some(50));
    assert_eq!(plain("0.49999999999999999999"), Some(1));
    assert_eq!(plain("."), None);
    assert_eq!(plain("1.2.3"), None);
    assert_eq!(plain("7."), Some(7));
    assert_eq!(plain(".6"), Some(1));
    assert_eq!(plain("0.0"), None);
    // So small that nothing is left of it.
    let tiny = |zeros: usize| format!("0.{}1", "0".repeat(zeros));
    assert_eq!(plain(&tiny(400)), None);
    assert_eq!(plain(&tiny(323)), None);
    assert_eq!(plain(&tiny(322)), Some(1));
    assert_eq!(plain(&format!("0.{}24703282292062328", "0".repeat(323))), Some(1));
    assert_eq!(plain(&format!("0.{}24703282292062327", "0".repeat(323))), None);
    assert_eq!(plain(&"9".repeat(400)), Some(255));
    for n in 1..3000u32 {
        let s = format!("{}.{:02}", n / 100, n % 100 * 7 % 100);
        assert_eq!(plain(&s), by_double(&s, 1.0), "{s}");
        assert_eq!(plain(&format!("{s} mph")), by_double(&s, 1.609344), "{s} mph");
        assert_eq!(plain(&format!("{s} knots")), by_double(&s, 1.852), "{s} knots");
    }
    // Where the product comes close to a half.
    for k in 1..150u32 {
        for unit in [1.609344f64, 1.852] {
            let x = (k as f64 + 0.5) / unit;
            for s in [format!("{x:.15}"), format!("{:.17}", x + 1e-15), format!("{:.20}", x - 1e-15)] {
                let word = if unit < 1.7 { "mph" } else { "knots" };
                assert_eq!(plain(&format!("{s} {word}")), by_double(&s, unit), "{s} {word}");
            }
        }
    }
}
