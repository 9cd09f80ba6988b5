use sudoku_solver::cell::SudokuCell;
use sudoku_solver::grid::SudokuGrid;
use sudoku_solver::sbox::SudokuBox;
use sudoku_solver::sudoku::get_sudokus;

fn grid_of(rows: [&str; 9]) -> SudokuGrid {
    let mut lines: Vec<Vec<u8>> = vec![b"Grid 01".to_vec()];
    for r in rows.iter() {
        lines.push(r.as_bytes().to_vec());
    }
    get_sudokus(&lines).unwrap().sudokus[0].grid
}

#[test]
fn candidates_split_into_possible_and_impossible() {
    let mut c = SudokuCell::new(0, 4, 4);
    c.set_impossible(2);
    c.set_impossible(7);
    let mut all = c.get_possible();
    all.extend(c.get_impossible());
    all.sort();
    assert_eq!(all, vec![1, 2, 3, 4, 5, 6, 7, 8, 9]);
    assert_eq!(c.get_impossible(), vec![2, 7]);
}

#[test]
fn every_cell_is_in_its_own_box() {
    let g = grid_of(["000000000"; 9]);
    for y in 0..9u32 {
        for x in 0..9u32 {
            let b = SudokuBox::new(SudokuBox::coord_translator(x), SudokuBox::coord_translator(y), g);
            assert!(b.in_box(g.grid[y as usize][x as usize]));
        }
    }
}

#[test]
fn box_numbers_cover_the_grid() {
    let mut seen = Vec::new();
    for b in 0..9u32 {
        let start = (SudokuBox::x_finder(b), SudokuBox::y_finder(b));
        assert!(!seen.contains(&start));
        seen.push(start);
    }
    assert_eq!(seen.len(), 9);
}

#[test]
fn techniques_keep_placed_cells() {
    let mut g = grid_of([
        "530070000", "600195000", "098000060", "800060003", "400803001", "700020006", "060000280",
        "000419005", "000080079",
    ]);
    let before = g;
    g.solve_for_number(5).unwrap();
    g.box_elimination().unwrap();
    g.line_elimination().unwrap();
    for y in 0..9 {
        for x in 0..9 {
            if before.grid[y][x].defined {
                assert!(g.grid[y][x] == before.grid[y][x]);
            } else if !g.grid[y][x].defined {
                for v in g.grid[y][x].get_possible() {
                    assert!(before.grid[y][x].get_possible().contains(&v));
                }
            }
        }
    }
}

#[test]
fn grid_equality_is_reflexive_and_symmetric() {
    let a = grid_of(["000000000"; 9]);
    let mut b = a;
    b.grid[3][3] = SudokuCell::new(1, 3, 3);
    assert!(a == a);
    assert_eq!(a == b, b == a);
    assert!(a != b);
}
