use dimcheck::search::{first_candidate, next_candidate, pin_repair_rows};

fn rank(pins: &Vec<bool>) -> u64 {
    pins.iter().fold(0, |acc, p| 2 * acc + if *p { 0 } else { 1 })
}

#[test]
fn candidates_run_in_rank_order() {
    let mut pins = first_candidate(3);
    assert_eq!(pins, vec![true, true, true]);
    let mut seen = vec![rank(&pins)];
    while let Some(next) = next_candidate(&pins) {
        pins = next;
        seen.push(rank(&pins));
    }
    assert_eq!(seen, (0..8).collect::<Vec<u64>>());
    assert_eq!(pins, vec![false, false, false]);
}

#[test]
fn next_candidate_unpins_last_pinned() {
    assert_eq!(next_candidate(&vec![true, false, true]), Some(vec![true, false, false]));
    assert_eq!(next_candidate(&vec![true, false, false]), Some(vec![false, true, true]));
    assert_eq!(next_candidate(&vec![false, false]), None);
    assert_eq!(next_candidate(&vec![]), None);
}

#[test]
fn more_pins_are_tried_first() {
    let order: Vec<Vec<bool>> = {
        let mut v = vec![first_candidate(3)];
        while let Some(n) = next_candidate(v.last().unwrap()) {
            v.push(n);
        }
        v
    };
    for (i, a) in order.iter().enumerate() {
        for (j, b) in order.iter().enumerate() {
            let b_pins_more = a != b && a.iter().zip(b.iter()).all(|(x, y)| !*x || *y);
            if b_pins_more {
                assert!(j < i);
            }
        }
    }
}

#[test]
fn pin_rows_are_appended_for_pinned_repairs() {
    let rows = vec![vec![1, 0, 0, 0, 0, 0, 0, 0, -1, 0, 0, 0, 0, 0, 0, 0, 5]];
    let labels = vec!["a".to_string(), "T0".to_string()];
    let repairs = vec!["T0".to_string(), "T9".to_string()];
    let out = pin_repair_rows(&rows, &labels, &repairs, &vec![true, true]);
    assert_eq!(out.len(), 2);
    assert_eq!(out[0], rows[0]);
    let mut expected = vec![0i64; 17];
    expected[8] = 1;
    assert_eq!(out[1], expected);
    let none = pin_repair_rows(&rows, &labels, &repairs, &vec![false, true]);
    assert_eq!(none, rows);
}
