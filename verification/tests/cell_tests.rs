use sudoku_solver::cell::{SudokuCell, ValueStatus};

fn empty_states() -> Vec<(ValueStatus, u32)> {
    let mut v = Vec::new();
    for i in 1..10u32 {
        v.push((ValueStatus::Possible, i));
    }
    v
}

#[test]
fn new_cell_with_value_is_defined() {
    let c = SudokuCell::new(5, 2, 3);
    assert!(c.defined);
    assert_eq!(c.value_as_int, 5);
    assert_eq!(c.get_possible(), Vec::<u32>::new());
    assert_eq!(c.get_impossible(), vec![1, 2, 3, 4, 6, 7, 8, 9]);
    assert_eq!(c.states[4], (ValueStatus::Actual, 5));
    assert_eq!(c.coordinate.x, 2);
    assert_eq!(c.coordinate.y, 3);
}

#[test]
fn new_cell_without_value_has_all_possible() {
    let c = SudokuCell::new(0, 7, 1);
    assert!(!c.defined);
    assert_eq!(c.value_as_int, 0);
    assert_eq!(c.get_possible(), vec![1, 2, 3, 4, 5, 6, 7, 8, 9]);
    assert_eq!(c.get_impossible(), Vec::<u32>::new());
    for i in 0..9 {
        assert_eq!(c.states[i], (ValueStatus::Possible, i as u32 + 1));
    }
}

#[test]
fn new_with_states_copies_first_nine() {
    let mut states = empty_states();
    states[2] = (ValueStatus::Impossible, 3);
    states.push((ValueStatus::Actual, 10));
    let c = SudokuCell::new_with_states(4, 6, states.clone());
    assert!(!c.defined);
    assert_eq!(c.value_as_int, 0);
    assert_eq!(c.coordinate.x, 4);
    assert_eq!(c.coordinate.y, 6);
    assert_eq!(c.get_val_stats_as_array(), states[0..9].to_vec());
    assert_eq!(c.get_impossible(), vec![3]);
}

#[test]
fn stats_array_lists_states_in_order() {
    let c = SudokuCell::new(9, 0, 0);
    let arr = c.get_val_stats_as_array();
    assert_eq!(arr.len(), 9);
    assert_eq!(arr[8], (ValueStatus::Actual, 9));
    assert_eq!(arr[0], (ValueStatus::Impossible, 1));
}

#[test]
fn set_impossible_strikes_one_value() {
    let mut c = SudokuCell::new(0, 1, 1);
    let r = c.set_impossible(4);
    assert_eq!(r, (false, 0));
    assert_eq!(c.get_impossible(), vec![4]);
    assert_eq!(c.get_possible(), vec![1, 2, 3, 5, 6, 7, 8, 9]);
}

#[test]
fn set_impossible_reports_last_value() {
    let mut c = SudokuCell::new(0, 1, 1);
    for v in [1u32, 2, 3, 4, 5, 6, 8] {
        assert_eq!(c.set_impossible(v), (false, 0));
    }
    assert_eq!(c.set_impossible(9), (true, 7));
    assert_eq!(c.get_possible(), vec![7]);
}

#[test]
fn set_impossible_twice_changes_nothing() {
    let mut c = SudokuCell::new(0, 1, 1);
    c.set_impossible(2);
    let before = c.get_val_stats_as_array();
    assert_eq!(c.set_impossible(2), (false, 0));
    assert_eq!(c.get_val_stats_as_array(), before);
}

#[test]
fn set_impossible_out_of_range_leaves_states() {
    let mut c = SudokuCell::new(0, 1, 1);
    assert_eq!(c.set_impossible(12), (false, 0));
    assert_eq!(c.get_possible().len(), 9);
}

#[test]
fn strike_would_empty_only_for_last_value() {
    let mut c = SudokuCell::new(0, 1, 1);
    for v in [1u32, 2, 3, 4, 5, 6, 7, 8] {
        assert!(!c.strike_would_empty(v));
        c.set_impossible(v);
    }
    assert!(c.strike_would_empty(9));
    assert!(!c.strike_would_empty(3));
}

#[test]
fn cells_equal_ignores_statuses() {
    let a = SudokuCell::new(0, 3, 3);
    let mut b = SudokuCell::new(0, 3, 3);
    b.set_impossible(5);
    assert!(a == b);
    let c = SudokuCell::new(0, 3, 4);
    assert!(a != c);
    let d = SudokuCell::new(2, 3, 3);
    assert!(a != d);
}
