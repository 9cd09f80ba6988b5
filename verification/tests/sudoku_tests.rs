use sudoku_solver::sudoku::{get_sudokus, ParseError, Sudoku, SudokusCollection, SUDOKU_CT, SUDOKU_END, SUDOKU_START};

const PUZZLE: [&str; 9] = [
    "530070000", "600195000", "098000060", "800060003", "400803001", "700020006", "060000280",
    "000419005", "000080079",
];

const SOLUTION: [&str; 9] = [
    "534678912", "672195348", "198342567", "859761423", "426853791", "713924856", "961537284",
    "287419635", "345286179",
];

fn lines_of(header: &str, rows: &[&str]) -> Vec<Vec<u8>> {
    let mut lines: Vec<Vec<u8>> = vec![header.as_bytes().to_vec()];
    for r in rows.iter() {
        lines.push(r.as_bytes().to_vec());
    }
    lines
}

fn values(s: &Sudoku) -> Vec<String> {
    s.grid
        .grid
        .iter()
        .map(|row| row.iter().map(|c| char::from(b'0' + c.value_as_int as u8)).collect())
        .collect()
}

#[test]
fn constants_describe_the_input() {
    assert_eq!(SUDOKU_CT, 50);
    assert_eq!(SUDOKU_START, 1);
    assert_eq!(SUDOKU_END, 499);
}

#[test]
fn sudoku_new_is_numbered_from_one() {
    let s = Sudoku::new(0);
    assert_eq!(s.name, 1);
    assert!(!s.solved);
    assert!(!s.grid.solved);
    assert_eq!(s.analysis_ct, 0);
    assert!(s.grid.grid.iter().all(|row| row.iter().all(|c| !c.defined)));
}

#[test]
fn parse_one_puzzle() {
    let c = get_sudokus(&lines_of("Grid 01", &PUZZLE)).unwrap();
    assert!(!c.solved);
    assert_eq!(c.sudokus.len(), 1);
    let s = &c.sudokus[0];
    assert_eq!(s.name, 1);
    assert_eq!(values(s), PUZZLE.to_vec());
    assert_eq!(s.grid.grid[2][7].coordinate.x, 7);
    assert_eq!(s.grid.grid[2][7].coordinate.y, 2);
    assert_eq!(s.grid.get_def_val_ct().iter().sum::<u32>(), 30);
}

#[test]
fn parse_two_puzzles() {
    let mut lines = lines_of("Grid 01", &PUZZLE);
    lines.extend(lines_of("Grid 02", &SOLUTION));
    let c = get_sudokus(&lines).unwrap();
    assert_eq!(c.sudokus.len(), 2);
    assert_eq!(c.sudokus[1].name, 2);
    assert_eq!(values(&c.sudokus[1]), SOLUTION.to_vec());
    assert_eq!(c.sudokus[1].grid.get_def_val_ct(), [9u32; 9]);
}

#[test]
fn parse_ignores_text_after_nine_digits() {
    let rows: Vec<String> = PUZZLE.iter().map(|r| format!("{}  trailing", r)).collect();
    let refs: Vec<&str> = rows.iter().map(|r| r.as_str()).collect();
    let c = get_sudokus(&lines_of("Grid 01", &refs)).unwrap();
    assert_eq!(values(&c.sudokus[0]), PUZZLE.to_vec());
}

#[test]
fn parse_stops_after_last_line() {
    let mut lines: Vec<Vec<u8>> = Vec::new();
    for k in 0..SUDOKU_CT + 2 {
        lines.extend(lines_of(&format!("Grid {:02}", k + 1), &PUZZLE));
    }
    let c = get_sudokus(&lines).unwrap();
    assert_eq!(c.sudokus.len(), SUDOKU_CT);
    assert_eq!(c.sudokus[SUDOKU_CT - 1].name, SUDOKU_CT as u32);
}

#[test]
fn parse_bad_digit() {
    let mut rows = PUZZLE.to_vec();
    rows[3] = "8000x0003";
    assert_eq!(get_sudokus(&lines_of("Grid 01", &rows)).err(), Some(ParseError::BadDigit));
}

#[test]
fn parse_short_line() {
    let mut rows = PUZZLE.to_vec();
    rows[8] = "00008";
    assert_eq!(get_sudokus(&lines_of("Grid 01", &rows)).err(), Some(ParseError::BadDigit));
}

#[test]
fn parse_too_many_rows() {
    let mut rows = PUZZLE.to_vec();
    rows.push("000000000");
    assert_eq!(get_sudokus(&lines_of("Grid 01", &rows)).err(), Some(ParseError::TooManyRows));
}

#[test]
fn parse_empty_input() {
    let c = get_sudokus(&Vec::new()).unwrap();
    assert_eq!(c.sudokus.len(), 0);
    assert!(!c.solved);
}

#[test]
fn check_solved_marks_full_grid() {
    let c = get_sudokus(&lines_of("Grid 01", &SOLUTION)).unwrap();
    let mut s = c.sudokus[0];
    assert!(s.check_solved());
    assert!(s.solved);
    assert!(s.grid.solved);
    let d = get_sudokus(&lines_of("Grid 01", &PUZZLE)).unwrap();
    let mut t = d.sudokus[0];
    assert!(!t.check_solved());
    assert!(!t.solved);
}

#[test]
fn set_solved_sets_both_flags() {
    let mut s = Sudoku::new(4);
    s.set_solved();
    assert!(s.solved);
    assert!(s.grid.solved);
    assert_eq!(s.name, 5);
}

#[test]
fn collection_new_is_unsolved() {
    let c = SudokusCollection::new(vec![Sudoku::new(0), Sudoku::new(1)]);
    assert_eq!(c.sudokus.len(), 2);
    assert!(!c.solved);
    c.print("all");
    c.print("solved");
    c.print("unsolved");
}

#[test]
fn collection_analyse_solves_all() {
    let mut lines = lines_of("Grid 01", &PUZZLE);
    lines.extend(lines_of("Grid 02", &SOLUTION));
    let mut c = get_sudokus(&lines).unwrap();
    let mut ct = 0;
    while !c.solved {
        ct += 1;
        assert!(ct <= 100);
        c.analyse().unwrap();
    }
    assert_eq!(values(&c.sudokus[0]), SOLUTION.to_vec());
    assert!(c.sudokus.iter().all(|s| s.solved));
    assert_eq!(c.sudokus[0].analysis_ct, 1);
    assert_eq!(c.sudokus[1].analysis_ct, 1);
}

#[test]
fn collection_analyse_reports_stuck() {
    let rows = ["000000000"; 9];
    let mut c = get_sudokus(&lines_of("Grid 01", &rows)).unwrap();
    assert!(c.analyse().is_err());
}
