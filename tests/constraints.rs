use std::rc::Rc;

use dimcheck::constraints::{
    assert_equal, assert_literal, assert_repairable, constraint_system_to_linear_system, create_division_type,
    create_multiplicative_type, fits_linear_system, type_to_constraint, Constraint, Object, COLUMNS_PER_OBJECT,
};
use dimcheck::types::{parse_human_type, VALUE_SCALE};

fn obj(label: &str) -> Rc<Object> {
    Rc::new(Object::new(label))
}

fn linearize(cs: &Vec<Rc<Constraint>>) -> (Vec<Vec<i64>>, Vec<String>) {
    assert!(fits_linear_system(cs));
    constraint_system_to_linear_system(cs)
}

#[test]
fn object_new_keeps_label() {
    assert_eq!(Object::new("ns::x").label, "ns::x");
}

#[test]
fn linearize_counts_rows_and_columns() {
    let meter = parse_human_type("m").unwrap();
    let cs = vec![
        type_to_constraint(&meter, obj("a")),
        assert_repairable(obj("b"), obj("a"), obj("T0")),
    ];
    let (rows, labels) = linearize(&cs);
    assert_eq!(labels, vec!["a".to_string(), "b".to_string(), "T0".to_string()]);
    assert_eq!(rows.len(), 16);
    for row in &rows {
        assert_eq!(row.len(), 3 * COLUMNS_PER_OBJECT + 1);
    }
}

#[test]
fn linearize_empty_list() {
    let cs: Vec<Rc<Constraint>> = vec![];
    let (rows, labels) = linearize(&cs);
    assert!(rows.is_empty());
    assert!(labels.is_empty());
}

#[test]
fn linearize_same_label_shares_columns() {
    let cs = vec![assert_equal(obj("x"), obj("x"))];
    let (rows, labels) = linearize(&cs);
    assert_eq!(labels.len(), 1);
    assert_eq!(rows.len(), 8);
    for (i, row) in rows.iter().enumerate() {
        assert_eq!(row[i], 0);
        assert_eq!(row[8], 0);
    }
}

#[test]
fn type_constraint_rows_pin_each_component() {
    let cm = parse_human_type("cm").unwrap();
    let cs = vec![type_to_constraint(&cm, obj("v"))];
    let (rows, _) = linearize(&cs);
    assert_eq!(rows.len(), 8);
    for (i, row) in rows.iter().enumerate() {
        for j in 0..8 {
            assert_eq!(row[j], if i == j { 1 } else { 0 });
        }
    }
    assert_eq!(rows[0][8], -2 * VALUE_SCALE);
    assert_eq!(rows[2][8], VALUE_SCALE);
    assert_eq!(rows[1][8], 0);
}

#[test]
fn type_constraint_zero_residual_on_matching_vector() {
    let m2 = parse_human_type("m^2").unwrap();
    let cs = vec![type_to_constraint(&m2, obj("area"))];
    let (rows, _) = linearize(&cs);
    let x: Vec<i64> = vec![0, 0, 2 * VALUE_SCALE, 0, 0, 0, 0, 0];
    for row in &rows {
        let lhs: i64 = (0..8).map(|j| row[j] * x[j]).sum();
        assert_eq!(lhs, row[8]);
    }
}

#[test]
fn repairable_rows_follow_sign_convention() {
    let cs = vec![assert_repairable(obj("l"), obj("r"), obj("T3"))];
    let (rows, labels) = linearize(&cs);
    assert_eq!(labels, vec!["l".to_string(), "r".to_string(), "T3".to_string()]);
    assert_eq!(rows[0][0], 1);
    assert_eq!(rows[0][8], -1);
    assert_eq!(rows[0][16], -1);
    for d in 1..8 {
        assert_eq!(rows[d][d], 1);
        assert_eq!(rows[d][8 + d], -1);
        assert_eq!(rows[d][16 + d], 0);
    }
}

#[test]
fn multiplicative_rows_add_both_factors() {
    let cs = vec![create_multiplicative_type(obj("T0"), obj("a"), obj("b"))];
    let (rows, labels) = linearize(&cs);
    assert_eq!(labels, vec!["T0".to_string(), "a".to_string(), "b".to_string()]);
    for d in 0..8 {
        assert_eq!(rows[d][d], 1);
        assert_eq!(rows[d][8 + d], -1);
        assert_eq!(rows[d][16 + d], -1);
        assert_eq!(rows[d][24], 0);
    }
}

#[test]
fn division_rows_add_prefixes_and_subtract_exponents() {
    let cs = vec![create_division_type(obj("T0"), obj("a"), obj("b"))];
    let (rows, _) = linearize(&cs);
    assert_eq!(rows[0][0], 1);
    assert_eq!(rows[0][8], -1);
    assert_eq!(rows[0][16], -1);
    for d in 1..8 {
        assert_eq!(rows[d][d], 1);
        assert_eq!(rows[d][8 + d], -1);
        assert_eq!(rows[d][16 + d], 1);
    }
}

#[test]
fn literal_pins_prefix_and_no_dimension() {
    let cs = vec![assert_literal(2 * VALUE_SCALE, "literal 100 at here")];
    let (rows, labels) = linearize(&cs);
    assert_eq!(labels, vec!["literal 100 at here".to_string()]);
    assert_eq!(rows[0][8], 2 * VALUE_SCALE);
    for d in 1..8 {
        assert_eq!(rows[d][8], 0);
    }
}
