use sudoku_solver::cell::{Coordinate, SudokuCell};
use sudoku_solver::grid::{SolveError, SudokuGrid};
use sudoku_solver::sbox::SudokuBox;
use sudoku_solver::sudoku::get_sudokus;

fn grid_of(rows: [&str; 9]) -> SudokuGrid {
    let mut lines: Vec<Vec<u8>> = vec![b"Grid 01".to_vec()];
    for r in rows.iter() {
        lines.push(r.as_bytes().to_vec());
    }
    let c = get_sudokus(&lines).unwrap();
    c.sudokus[0].grid
}

fn sample() -> SudokuGrid {
    grid_of([
        "530070000", "600195000", "098000060", "800060003", "400803001", "700020006", "060000280",
        "000419005", "000080079",
    ])
}

#[test]
fn new_grid_is_empty() {
    let g = SudokuGrid::new();
    assert_eq!(g.get_def_val_ct(), [0u32; 9]);
    assert!(!g.solved);
    assert_eq!(g.solved_cell_ct, 0);
    for row in g.grid.iter() {
        for c in row.iter() {
            assert!(!c.defined);
            assert_eq!(c.get_possible().len(), 9);
        }
    }
}

#[test]
fn def_val_ct_counts_givens() {
    let g = sample();
    let ct = g.get_def_val_ct();
    assert_eq!(ct, [3, 2, 3, 2, 3, 5, 3, 5, 4]);
    assert_eq!(ct.iter().sum::<u32>(), 30);
}

#[test]
fn inc_and_get_val_by_int() {
    let mut g = SudokuGrid::new();
    g.inc_val_by_int(4);
    g.inc_val_by_int(4);
    g.inc_val_by_int(9);
    g.inc_val_by_int(0);
    g.inc_val_by_int(10);
    assert_eq!(g.get_val_by_int(4), 2);
    assert_eq!(g.get_val_by_int(9), 1);
    assert_eq!(g.get_val_by_int(1), 0);
    assert_eq!(g.get_val_by_int(0), 0);
    assert_eq!(g.get_val_by_int(11), 0);
    assert_eq!(g.get_def_val_ct(), [0, 0, 0, 2, 0, 0, 0, 0, 1]);
}

#[test]
fn vals_in_row_col_box_are_placed_cells() {
    let g = sample();
    let row: Vec<u32> = g.collect_values(g.get_vals_in_row(0));
    assert_eq!(row, vec![5, 3, 7]);
    let col: Vec<u32> = g.collect_values(g.get_vals_in_col(4));
    assert_eq!(col, vec![7, 9, 6, 2, 1, 8]);
    let bx: Vec<u32> = g.collect_values(g.get_vals_in_box(SudokuBox::new(6, 6, g)));
    assert_eq!(bx, vec![2, 8, 5, 7, 9]);
}

#[test]
fn collect_values_keeps_order_and_zeros() {
    let g = SudokuGrid::new();
    let cells = vec![SudokuCell::new(3, 0, 0), SudokuCell::new(0, 1, 0), SudokuCell::new(8, 2, 0)];
    assert_eq!(g.collect_values(cells), vec![3, 0, 8]);
}

#[test]
fn return_poss_keeps_open_cells() {
    let g = sample();
    let row: Vec<SudokuCell> = g.grid[0].to_vec();
    let open = g.return_poss(row);
    let xs: Vec<u32> = open.iter().map(|c| c.coordinate.x).collect();
    assert_eq!(xs, vec![2, 3, 5, 6, 7, 8]);
    for c in open.iter() {
        assert!(!c.defined);
    }
}

#[test]
fn strike_reports_and_errors() {
    let mut g = SudokuGrid::new();
    for v in 1..9u32 {
        let r = g.strike(2, 2, v).unwrap();
        if v < 8 {
            assert_eq!(r, (false, 0));
        } else {
            assert_eq!(r, (true, 9));
        }
    }
    assert_eq!(g.strike(2, 2, 9), Err(SolveError::CellEmptied));
    assert_eq!(g.grid[2][2].get_possible(), vec![9]);
}

#[test]
fn grid_equality_compares_cells() {
    let a = sample();
    let mut b = sample();
    assert!(a == b);
    b.grid[0][2].set_impossible(1);
    assert!(a == b);
    b.grid[0][2] = SudokuCell::new(4, 2, 0);
    assert!(a != b);
    let _ = Coordinate { x: 0, y: 0 };
}
