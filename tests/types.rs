use dimcheck::types::{first_known_type, parse_human_type, parse_type_comment, SIBaseUnits, VALUE_SCALE};

#[test]
fn base_units_round_trip_indices() {
    for i in 0..7 {
        assert_eq!(SIBaseUnits::from_index(i).into_usize(), i);
    }
    assert_eq!(SIBaseUnits::Meter.into_usize(), 1);
    assert_eq!(SIBaseUnits::Candela.into_usize(), 6);
}

#[test]
fn vocabulary_types() {
    let cm2 = parse_human_type("cm^2").unwrap();
    assert_eq!(cm2.scalar_prefix, -4 * VALUE_SCALE);
    assert_eq!(cm2.si_units, [0, 2, 0, 0, 0, 0, 0]);
    let cm3 = parse_human_type("cm^3").unwrap();
    assert_eq!(cm3.scalar_prefix, -6 * VALUE_SCALE);
    assert_eq!(cm3.si_units, [0, 3, 0, 0, 0, 0, 0]);
    let s = parse_human_type("s").unwrap();
    assert_eq!(s.scalar_prefix, 0);
    assert_eq!(s.si_units, [1, 0, 0, 0, 0, 0, 0]);
    assert!(parse_human_type("km").is_none());
    assert!(parse_human_type("").is_none());
}

#[test]
fn type_comment_is_parsed() {
    let (name, t) = parse_type_comment("cm_value : cm").unwrap();
    assert_eq!(name, "cm_value");
    assert_eq!(t.scalar_prefix, -2 * VALUE_SCALE);
    assert_eq!(t.si_units, [0, 1, 0, 0, 0, 0, 0]);
}

#[test]
fn type_comment_without_spaces() {
    let (name, t) = parse_type_comment("area:m^2").unwrap();
    assert_eq!(name, "area");
    assert_eq!(t.si_units, [0, 2, 0, 0, 0, 0, 0]);
}

#[test]
fn type_comment_skips_unknown_units() {
    let (name, t) = parse_type_comment("x : furlong, y : s").unwrap();
    assert_eq!(name, "y");
    assert_eq!(t.si_units, [1, 0, 0, 0, 0, 0, 0]);
    assert!(parse_type_comment("no annotation here").is_none());
}

#[test]
fn first_known_type_picks_first_known() {
    let candidates = vec![
        ("a".to_string(), "parsec".to_string()),
        ("b".to_string(), "m^3".to_string()),
        ("c".to_string(), "m".to_string()),
    ];
    let (name, t) = first_known_type(&candidates).unwrap();
    assert_eq!(name, "b");
    assert_eq!(t.si_units, [0, 3, 0, 0, 0, 0, 0]);
    assert!(first_known_type(&vec![]).is_none());
}
