use sudoku_solver::cell::SudokuCell;
use sudoku_solver::grid::SudokuGrid;
use sudoku_solver::sbox::SudokuBox;
use sudoku_solver::sudoku::get_sudokus;

fn grid_of(rows: [&str; 9]) -> SudokuGrid {
    let mut lines: Vec<Vec<u8>> = vec![b"Grid 01".to_vec()];
    for r in rows.iter() {
        lines.push(r.as_bytes().to_vec());
    }
    let c = get_sudokus(&lines).unwrap();
    c.sudokus[0].grid
}

fn sample() -> SudokuGrid {
    grid_of([
        "530070000", "600195000", "098000060", "800060003", "400803001", "700020006", "060000280",
        "000419005", "000080079",
    ])
}

#[test]
fn x_finder_gives_box_columns() {
    let expected = [0u32, 3, 6, 0, 3, 6, 0, 3, 6];
    for b in 0..9u32 {
        assert_eq!(SudokuBox::x_finder(b), expected[b as usize]);
    }
    assert_eq!(SudokuBox::x_finder(9), 0);
    assert_eq!(SudokuBox::x_finder(100), 0);
}

#[test]
fn y_finder_gives_box_rows() {
    let expected = [0u32, 0, 0, 3, 3, 3, 6, 6, 6];
    for b in 0..9u32 {
        assert_eq!(SudokuBox::y_finder(b), expected[b as usize]);
    }
    assert_eq!(SudokuBox::y_finder(9), 0);
}

#[test]
fn coord_translator_gives_box_start() {
    let expected = [0u32, 0, 0, 3, 3, 3, 6, 6, 6];
    for v in 0..9u32 {
        assert_eq!(SudokuBox::coord_translator(v), expected[v as usize]);
    }
}

#[test]
fn box_reads_its_cells() {
    let g = sample();
    let b = SudokuBox::new(3, 0, g);
    assert_eq!(b.x, 3);
    assert_eq!(b.y, 0);
    assert_eq!(b.x_lim, 5);
    assert_eq!(b.y_lim, 2);
    assert_eq!(b.get_vals(), vec![0, 7, 0, 1, 9, 5, 0, 0, 0]);
}

#[test]
fn box_in_box_by_coordinate() {
    let g = sample();
    let b = SudokuBox::new(6, 6, g);
    assert!(b.in_box(g.grid[7][8]));
    assert!(b.in_box(g.grid[6][6]));
    assert!(!b.in_box(g.grid[5][8]));
    assert!(!b.in_box(g.grid[8][5]));
}

#[test]
fn box_as_vec_row_by_row() {
    let g = sample();
    let b = SudokuBox::new(0, 6, g);
    let cells = b.as_vec();
    assert_eq!(cells.len(), 9);
    let vals: Vec<u32> = cells.iter().map(|c| c.value_as_int).collect();
    assert_eq!(vals, vec![0, 6, 0, 0, 0, 0, 0, 0, 0]);
    assert_eq!(cells[1].coordinate.x, 1);
    assert_eq!(cells[1].coordinate.y, 6);
}

#[test]
fn box_of_any_shape_lists_its_cells() {
    let mut open = SudokuCell::new(0, 1, 0);
    open.set_impossible(2);
    let b = SudokuBox {
        x: 0,
        x_lim: 2,
        y: 0,
        y_lim: 2,
        content: vec![vec![SudokuCell::new(3, 0, 0), open], vec![SudokuCell::new(7, 4, 4)]],
    };
    assert_eq!(b.get_vals(), vec![3, 0, 7]);
    let cells = b.as_vec();
    assert_eq!(cells.len(), 3);
    assert_eq!(cells[0].value_as_int, 3);
    assert!(cells[0].defined);
    assert_eq!(cells[1].get_impossible(), vec![2]);
    assert!(!cells[1].defined);
    assert_eq!(cells[2].coordinate.x, 4);
}
