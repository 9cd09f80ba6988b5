use sudoku_solver::cell::Coordinate;
use sudoku_solver::exclusives::{all_contained, coords_len_of, look_for_matches, same_coords};
use sudoku_solver::grid::{SolveError, SudokuGrid};
use sudoku_solver::sudoku::get_sudokus;

fn grid_of(rows: [&str; 9]) -> SudokuGrid {
    let mut lines: Vec<Vec<u8>> = vec![b"Grid 01".to_vec()];
    for r in rows.iter() {
        lines.push(r.as_bytes().to_vec());
    }
    let c = get_sudokus(&lines).unwrap();
    c.sudokus[0].grid
}

fn sample() -> SudokuGrid {
    grid_of([
        "530070000", "600195000", "098000060", "800060003", "400803001", "700020006", "060000280",
        "000419005", "000080079",
    ])
}

const SOLUTION: [&str; 9] = [
    "534678912", "672195348", "198342567", "859761423", "426853791", "713924856", "961537284",
    "287419635", "345286179",
];

fn values(g: &SudokuGrid) -> Vec<String> {
    g.grid
        .iter()
        .map(|row| row.iter().map(|c| char::from(b'0' + c.value_as_int as u8)).collect())
        .collect()
}

fn coord(x: u32, y: u32) -> Coordinate {
    Coordinate { x, y }
}

#[test]
fn possibles_of_open_cell() {
    let mut g = sample();
    let (vals, single) = g.get_possibles_by_cell(2, 0).unwrap();
    let mut sorted = vals.clone();
    sorted.sort();
    assert_eq!(sorted, vec![1, 2, 4]);
    assert!(!single);
    assert_eq!(g.grid[0][2].get_possible(), vec![1, 2, 4]);
}

#[test]
fn possibles_of_defined_cell_report_its_value() {
    let mut g = sample();
    let before = g.clone();
    assert_eq!(g.get_possibles_by_cell(1, 0).unwrap(), (vec![3], true));
    assert_eq!(g.get_possibles_by_cell(0, 1).unwrap(), (vec![6], true));
    assert!(g == before);
}

#[test]
fn guarantee_on_defined_cell_is_false() {
    let mut g = sample();
    let before = g.clone();
    assert_eq!(g.check_for_guarantees(0, 0), Ok(false));
    assert!(g == before);
    assert_eq!(g.get_val_by_int(5), before.clone().get_val_by_int(5));
}

#[test]
fn possibles_single_candidate() {
    let mut g = sample();
    let (vals, single) = g.get_possibles_by_cell(4, 4).unwrap();
    assert_eq!(vals, vec![5]);
    assert!(single);
    assert!(!g.grid[4][4].defined);
}

#[test]
fn guarantee_places_single_candidate() {
    let mut g = sample();
    assert_eq!(g.check_for_guarantees(4, 4), Ok(true));
    assert!(g.grid[4][4].defined);
    assert_eq!(g.grid[4][4].value_as_int, 5);
    assert_eq!(g.get_val_by_int(5), 4);
    assert_eq!(g.check_for_guarantees(2, 0), Ok(false));
    assert!(!g.grid[0][2].defined);
    assert_eq!(g.grid[0][2].get_possible(), vec![1, 2, 4]);
    assert_eq!(g.grid[0][2].get_impossible(), vec![3, 5, 6, 7, 8, 9]);
}

#[test]
fn set_value_strikes_peers() {
    let mut g = sample();
    assert_eq!(g.set_value(4, 4, 5), Ok(()));
    assert_eq!(g.grid[4][4].value_as_int, 5);
    assert_eq!(g.grid[4][4].coordinate, coord(4, 4));
    assert!(!g.grid[4][1].get_possible().contains(&5));
    assert!(!g.grid[2][4].get_possible().contains(&5));
    assert!(!g.grid[3][3].get_possible().contains(&5));
    assert!(g.grid[3][0].defined);
}

#[test]
fn set_value_on_defined_cell_changes_nothing() {
    let mut g = sample();
    let before = g;
    assert_eq!(g.set_value(0, 0, 9), Ok(()));
    assert!(g == before);
    assert_eq!(g.grid[0][0].value_as_int, 5);
}

#[test]
fn set_value_fills_last_open_cell_of_row() {
    let mut g = grid_of([
        "534678900", "000000000", "000000000", "000000000", "000000000", "000000000", "000000000",
        "000000000", "000000000",
    ]);
    assert_eq!(g.set_value(7, 0, 1), Ok(()));
    assert_eq!(g.grid[0][8].value_as_int, 2);
    assert_eq!(g.get_val_by_int(2), 1);
}

#[test]
fn set_value_places_cell_left_with_one_value() {
    let mut g = sample();
    let (vals, single) = g.get_possibles_by_cell(2, 0).unwrap();
    assert!(!single);
    assert_eq!(vals.len(), 3);
    assert_eq!(g.set_value(3, 0, 1), Ok(()));
    assert_eq!(g.grid[0][2].get_possible(), vec![2, 4]);
    assert_eq!(g.set_value(2, 1, 2), Ok(()));
    assert!(g.grid[0][2].defined);
    assert_eq!(g.grid[0][2].value_as_int, 4);
}

#[test]
fn line_elimination_when_first_cell_is_placed() {
    let mut g = grid_of([
        "500234678", "000000000", "000000000", "000000000", "000000000", "000000000", "000000000",
        "000000000", "000000000",
    ]);
    assert_eq!(g.line_elimination(), Ok(()));
    assert!(!g.grid[1][0].get_possible().contains(&1));
    assert!(!g.grid[2][2].get_possible().contains(&9));
    assert!(g.grid[0][1].get_possible().contains(&1));
}

#[test]
fn x_wing_by_columns() {
    let mut g = grid_of(["000000000"; 9]);
    for y in 0..9 {
        for x in 0..9 {
            let keep = (y == 0 && (x == 0 || x == 1 || x == 5)) || (y == 1 && (x == 0 || x == 1 || x == 6));
            if !keep {
                g.grid[y][x].set_impossible(1);
            }
        }
    }
    assert_eq!(g.x_wing(), Ok(()));
    assert!(!g.grid[0][5].get_possible().contains(&1));
    assert!(!g.grid[1][6].get_possible().contains(&1));
    assert!(g.grid[0][0].get_possible().contains(&1));
    assert!(g.grid[1][1].get_possible().contains(&1));
}

#[test]
fn find_exclusives_hidden_pair_any_order() {
    let mut g = grid_of(["000000000"; 9]);
    for x in 2..9 {
        g.grid[0][x].set_impossible(1);
        g.grid[0][x].set_impossible(2);
    }
    let mut row = g.grid[0].to_vec();
    row.reverse();
    assert_eq!(g.find_exclusives(row), Ok(()));
    assert_eq!(g.grid[0][0].get_possible(), vec![1, 2]);
    assert_eq!(g.grid[0][1].get_possible(), vec![1, 2]);
    assert_eq!(g.grid[0][2].get_possible(), vec![3, 4, 5, 6, 7, 8, 9]);
}

#[test]
fn check_each_fills_naked_singles() {
    let mut g = grid_of([
        "034678912", "672195348", "198342567", "859761423", "426053791", "713924856", "961537284",
        "287419635", "345286170",
    ]);
    assert_eq!(g.check_each(), Ok(true));
    assert_eq!(values(&g), SOLUTION.to_vec());
}

#[test]
fn analyse_solves_sample() {
    let mut g = sample();
    assert_eq!(g.analyse(), Ok(()));
    assert_eq!(values(&g), SOLUTION.to_vec());
    assert_eq!(g.get_def_val_ct(), [9u32; 9]);
}

#[test]
fn analyse_empty_grid_is_stuck() {
    let mut g = grid_of(["000000000"; 9]);
    assert_eq!(g.analyse(), Err(SolveError::Stuck));
}

#[test]
fn box_elimination_without_place_fails() {
    let mut g = grid_of(["000000000"; 9]);
    for y in 0..3 {
        for x in 0..3 {
            g.grid[y][x].set_impossible(1);
        }
    }
    assert_eq!(g.box_elimination(), Err(SolveError::NoPlaceForValue));
}

#[test]
fn line_elimination_without_place_fails() {
    let mut g = grid_of(["000000000"; 9]);
    for x in 0..9 {
        g.grid[0][x].set_impossible(4);
    }
    assert_eq!(g.line_elimination(), Err(SolveError::NoPlaceForValue));
}

#[test]
fn box_elimination_pointing_pair() {
    let mut g = grid_of(["000000000"; 9]);
    // in the first box, 7 can only go in row 0
    for y in 1..3 {
        for x in 0..3 {
            g.grid[y][x].set_impossible(7);
        }
    }
    assert_eq!(g.box_elimination(), Ok(()));
    for x in 3..9 {
        assert!(!g.grid[0][x].get_possible().contains(&7));
    }
    assert!(g.grid[1][4].get_possible().contains(&7));
    assert!(g.grid[0][1].get_possible().contains(&7));
}

#[test]
fn solve_for_number_hidden_single() {
    let mut g = grid_of(["000000000"; 9]);
    // in row 0, 6 can only go in column 8
    for x in 0..8 {
        g.grid[0][x].set_impossible(6);
    }
    assert_eq!(g.solve_for_number(6), Ok(true));
    assert!(g.grid[0][8].defined);
    assert_eq!(g.grid[0][8].value_as_int, 6);
    let mut empty = grid_of(["000000000"; 9]);
    assert_eq!(empty.solve_for_number(6), Ok(false));
}

#[test]
fn same_coords_compares_lists() {
    assert!(same_coords(&vec![coord(1, 2), coord(3, 4)], &vec![coord(1, 2), coord(3, 4)]));
    assert!(!same_coords(&vec![coord(1, 2), coord(3, 4)], &vec![coord(3, 4), coord(1, 2)]));
    assert!(!same_coords(&vec![coord(1, 2)], &vec![coord(1, 2), coord(3, 4)]));
}

#[test]
fn all_contained_checks_each_value() {
    assert!(all_contained(&vec![2, 5], &vec![1, 2, 5, 9]));
    assert!(!all_contained(&vec![2, 6], &vec![1, 2, 5, 9]));
    assert!(all_contained(&vec![], &vec![]));
}

#[test]
fn coords_len_of_finds_entry() {
    let table = vec![(2u32, vec![coord(0, 0), coord(1, 0)]), (5u32, vec![coord(0, 0), coord(2, 0), coord(3, 0)])];
    assert_eq!(coords_len_of(&table, 5), 3);
    assert_eq!(coords_len_of(&table, 2), 2);
}

#[test]
fn look_for_matches_groups_values() {
    let pair = vec![coord(0, 0), coord(1, 0)];
    let table = vec![
        (1u32, pair.clone()),
        (2u32, pair.clone()),
        (3u32, vec![coord(0, 0), coord(2, 0), coord(3, 0)]),
        (5u32, pair.clone()),
        (7u32, vec![coord(4, 0), coord(5, 0)]),
    ];
    assert_eq!(look_for_matches(&table, 0, Vec::new()), vec![vec![2, 5]]);
    assert_eq!(look_for_matches(&table, 3, vec![vec![9]]), vec![vec![9]]);
}

#[test]
fn find_exclusives_hidden_pair() {
    let mut g = grid_of(["000000000"; 9]);
    // in row 0, 1 and 2 can only go in columns 0 and 1
    for x in 2..9 {
        g.grid[0][x].set_impossible(1);
        g.grid[0][x].set_impossible(2);
    }
    let row = g.grid[0].to_vec();
    assert_eq!(g.find_exclusives(row), Ok(()));
    assert_eq!(g.grid[0][0].get_possible(), vec![1, 2]);
    assert_eq!(g.grid[0][1].get_possible(), vec![1, 2]);
    assert_eq!(g.grid[0][2].get_possible(), vec![3, 4, 5, 6, 7, 8, 9]);
}

#[test]
fn match_possibles_naked_pair() {
    let mut g = grid_of(["000000000"; 9]);
    // cells (0,0) and (1,0) can only take 3 or 4
    for x in 0..2 {
        for v in [1u32, 2, 5, 6, 7, 8, 9] {
            g.grid[0][x].set_impossible(v);
        }
    }
    assert_eq!(g.match_possibles(), Ok(()));
    for x in 2..9 {
        let p = g.grid[0][x].get_possible();
        assert!(!p.contains(&3) && !p.contains(&4));
    }
    for y in 1..3 {
        let p = g.grid[y][2].get_possible();
        assert!(!p.contains(&3) && !p.contains(&4));
    }
    assert!(g.grid[5][0].get_possible().contains(&3));
}

#[test]
fn x_wing_strikes_columns() {
    let mut g = grid_of(["000000000"; 9]);
    // in rows 1 and 5, 8 can only go in columns 2 and 6
    for y in [1usize, 5] {
        for x in 0..9 {
            if x != 2 && x != 6 {
                g.grid[y][x].set_impossible(8);
            }
        }
    }
    assert_eq!(g.x_wing(), Ok(()));
    for y in 0..9 {
        let expect = y == 1 || y == 5;
        assert_eq!(g.grid[y][2].get_possible().contains(&8), expect);
        assert_eq!(g.grid[y][6].get_possible().contains(&8), expect);
    }
    assert!(g.grid[0][0].get_possible().contains(&8));
}

#[test]
fn possibles_list_struck_values_last() {
    let mut g = sample();
    g.grid[0][2].set_impossible(1);
    let (vals, single) = g.get_possibles_by_cell(2, 0).unwrap();
    assert_eq!(vals, vec![2, 4, 1]);
    assert!(!single);
}

fn uncounted(rows: [[u32; 9]; 9]) -> SudokuGrid {
    let mut g = SudokuGrid::new();
    for y in 0..9 {
        for x in 0..9 {
            g.grid[y][x] = sudoku_solver::cell::SudokuCell::new(rows[y][x], x as u32, y as u32);
        }
    }
    g
}

#[test]
fn line_elimination_on_cells_set_without_counting() {
    let mut rows = [[0u32; 9]; 9];
    rows[0] = [5, 0, 0, 2, 3, 4, 6, 7, 8];
    let mut g = uncounted(rows);
    assert_eq!(g.get_def_val_ct(), [0; 9]);
    g.line_elimination().unwrap();
    assert!(!g.grid[1][0].get_possible().contains(&1));
    assert!(!g.grid[2][2].get_possible().contains(&9));
    assert!(g.grid[0][1].get_possible().contains(&1));
}

#[test]
fn possibles_of_defined_cell_set_without_counting() {
    let mut rows = [[0u32; 9]; 9];
    rows[0] = [0, 2, 3, 4, 5, 6, 7, 8, 0];
    let mut g = uncounted(rows);
    let before = g.clone();
    assert_eq!(g.get_possibles_by_cell(1, 0).unwrap(), (vec![2], true));
    assert!(g == before);
}

#[test]
fn set_value_leaves_cells_away_from_placed_ones() {
    let mut g = grid_of([
        "000000000", "000000000", "000000000", "000000000", "000000000", "000000000", "000000000",
        "000000000", "000000000",
    ]);
    let before = g.clone();
    assert_eq!(g.set_value(0, 0, 5), Ok(()));
    assert_eq!(g.grid[0][0].value_as_int, 5);
    for y in 0..9 {
        for x in 0..9 {
            let near = x == 0 || y == 0 || (x < 3 && y < 3);
            if !near {
                assert_eq!(g.grid[y][x].get_possible(), before.grid[y][x].get_possible());
                assert_eq!(g.grid[y][x].value_as_int, 0);
            } else if x != 0 || y != 0 {
                assert!(!g.grid[y][x].get_possible().contains(&5));
            }
        }
    }
}

#[test]
fn possibles_leave_cell_with_one_value_still_unseen() {
    let mut g = uncounted([[0u32; 9]; 9]);
    for v in 2..=9 {
        g.grid[0][0].set_impossible(v);
    }
    assert_eq!(g.grid[0][0].get_possible(), vec![1]);
    let before = g.clone();
    assert_eq!(g.get_possibles_by_cell(0, 0).unwrap(), (vec![1, 2, 3, 4, 5, 6, 7, 8, 9], false));
    assert!(g == before);
    assert_eq!(g.grid[0][0].get_possible(), vec![1]);
    assert!(!g.grid[0][0].defined);
}

#[test]
fn check_each_passes_over_cells_even_when_counters_say_full() {
    let mut g = uncounted([[0u32; 9]; 9]);
    g.grid[0][0] = sudoku_solver::cell::SudokuCell::new(5, 0, 0);
    g.definite_values.counts = [9; 9];
    assert_eq!(g.check_each(), Ok(true));
    assert!(!g.grid[0][1].get_possible().contains(&5));
    assert!(!g.grid[4][0].get_possible().contains(&5));
    assert!(g.grid[4][4].get_possible().contains(&5));
}
