use sudoku_solver::grid::SudokuGrid;
use sudoku_solver::grid::SolveError;
use sudoku_solver::sudoku::get_sudokus;

const PUZZLE: [&str; 9] = [
    "530070000", "600195000", "098000060", "800060003", "400803001", "700020006", "060000280",
    "000419005", "000080079",
];

const SOLUTION: [&str; 9] = [
    "534678912", "672195348", "198342567", "859761423", "426853791", "713924856", "961537284",
    "287419635", "345286179",
];

fn grid_of(rows: [&str; 9]) -> SudokuGrid {
    let mut lines: Vec<Vec<u8>> = vec![b"Grid 01".to_vec()];
    for r in rows.iter() {
        lines.push(r.as_bytes().to_vec());
    }
    get_sudokus(&lines).unwrap().sudokus[0].grid
}

fn solution_at(x: usize, y: usize) -> u32 {
    (SOLUTION[y].as_bytes()[x] - b'0') as u32
}

fn agrees_with_solution(g: &SudokuGrid) -> bool {
    for y in 0..9 {
        for x in 0..9 {
            let c = &g.grid[y][x];
            let s = solution_at(x, y);
            if c.defined {
                if c.value_as_int != s {
                    return false;
                }
            } else if !c.get_possible().contains(&s) {
                return false;
            }
        }
    }
    true
}

#[test]
fn parsed_puzzle_agrees_with_its_solution() {
    let g = grid_of(PUZZLE);
    assert!(agrees_with_solution(&g));
}

fn sparse_rows() -> Vec<String> {
    let mut rows = Vec::new();
    for y in 0..9 {
        let mut r = String::new();
        for x in 0..9 {
            if (x * 7 + y * 5) % 4 == 0 {
                r.push(SOLUTION[y].as_bytes()[x] as char);
            } else {
                r.push('0');
            }
        }
        rows.push(r);
    }
    rows
}

fn sparse_grid() -> SudokuGrid {
    let rows = sparse_rows();
    let refs: Vec<&str> = rows.iter().map(|r| r.as_str()).collect();
    grid_of([refs[0], refs[1], refs[2], refs[3], refs[4], refs[5], refs[6], refs[7], refs[8]])
}

#[test]
fn naked_singles_keep_the_solution() {
    let mut g = grid_of(PUZZLE);
    assert_eq!(g.check_each(), Ok(true));
    assert!(agrees_with_solution(&g));
    let mut h = sparse_grid();
    assert!(agrees_with_solution(&h));
    assert!(h.check_each().is_ok());
    assert!(agrees_with_solution(&h));
}

#[test]
fn every_technique_keeps_the_solution() {
    let mut g = sparse_grid();
    g.check_each().unwrap();
    for n in 1..10u32 {
        g.solve_for_number(n).unwrap();
        assert!(agrees_with_solution(&g));
    }
    g.box_elimination().unwrap();
    assert!(agrees_with_solution(&g));
    g.line_elimination().unwrap();
    assert!(agrees_with_solution(&g));
    g.match_possibles().unwrap();
    assert!(agrees_with_solution(&g));
    g.x_wing().unwrap();
    assert!(agrees_with_solution(&g));
    for i in 0..9 {
        let row = g.grid[i].to_vec();
        g.find_exclusives(row).unwrap();
        assert!(agrees_with_solution(&g));
    }
}

#[test]
fn analysis_of_sparse_puzzle_keeps_the_solution() {
    let mut g = sparse_grid();
    let r = g.analyse();
    assert!(r.is_ok() || r == Err(SolveError::Stuck));
    assert!(agrees_with_solution(&g));
}

#[test]
fn set_value_with_solution_value_keeps_it() {
    let mut g = grid_of(PUZZLE);
    g.set_value(2, 0, 4).unwrap();
    assert!(agrees_with_solution(&g));
    assert_eq!(g.grid[0][2].value_as_int, 4);
}

#[test]
fn finished_analysis_gives_the_solution() {
    let mut g = grid_of(PUZZLE);
    assert_eq!(g.analyse(), Ok(()));
    for y in 0..9 {
        for x in 0..9 {
            assert_eq!(g.grid[y][x].value_as_int, solution_at(x, y));
        }
    }
}

#[test]
fn short_puzzle_keeps_empty_rows() {
    let lines: Vec<Vec<u8>> = vec![b"Grid 01".to_vec(), b"123456789".to_vec(), b"000000000".to_vec()];
    let c = get_sudokus(&lines).unwrap();
    let g = c.sudokus[0].grid;
    assert_eq!(g.grid[0][4].value_as_int, 5);
    assert_eq!(g.grid[0][4].coordinate.x, 4);
    assert!(!g.grid[1][3].defined);
    assert_eq!(g.grid[1][3].coordinate.x, 3);
    assert_eq!(g.grid[1][3].coordinate.y, 1);
    assert!(!g.grid[5][3].defined);
    assert_eq!(g.grid[5][3].coordinate.x, 0);
    assert_eq!(g.grid[5][3].coordinate.y, 0);
}
