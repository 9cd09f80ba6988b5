use vstd::prelude::*;
use crate::grid::{SudokuGrid, SolveError, GRID_SIZE, narrows, shrinks};
use crate::candidates::no_single_at;
use crate::cell::{Coordinate, initial_states};
use crate::solution::{is_solution, agrees, cell_agrees};
use crate::solver::{keeps_all, no_solution, no_hidden_single, no_wings, no_siblings_left, no_exclusives_left};
use crate::techniques::{box_target, row_line_target, col_line_target};
use crate::placement::cleared;

verus! {

/// How many puzzles are read from the input.
pub const SUDOKU_CT: usize = 50;
/// The first puzzle read (1 is the first of the input).
pub const SUDOKU_START: usize = 1;
/// The last line of the input that is read.
pub const SUDOKU_END: usize = ((SUDOKU_START * 10) - 10) + (10 * SUDOKU_CT) - 1;

/// A puzzle with its grid, its number and how many times it was analysed.
#[derive(Clone, Copy, Debug)]
pub struct Sudoku {
    pub grid: SudokuGrid,
    pub solved: bool,
    pub name: u32,
    pub analysis_ct: u32,
}

/// Why the input could not be read as puzzles.
#[derive(Clone, Copy, Debug, PartialEq, Eq, Structural)]
pub enum ParseError {
    /// A grid line has no digit at one of its first nine positions.
    BadDigit,
    /// A puzzle has more than nine grid lines.
    TooManyRows,
}

impl Sudoku {
    /// A new unsolved puzzle with an empty grid, numbered `name` from the first read.
    pub fn new(name: u32) -> (s: Self)
        requires
            name + SUDOKU_START <= u32::MAX,
        ensures
            s.grid.wf(),
            s.grid.counted(),
            forall|x: int, y: int| 0 <= x < 9 && 0 <= y < 9 ==> {
                &&& !(#[trigger] s.grid.cell(x, y)).defined
                &&& s.grid.cell(x, y).value_as_int == 0
                &&& s.grid.cell(x, y).states@ == initial_states(0)
                &&& s.grid.cell(x, y).coordinate == (Coordinate { x: 0, y: 0 })
            },
            s.grid.solved_cell_ct == 0,
            !s.grid.solved,
            !s.solved,
            s.name == name + SUDOKU_START,
            s.analysis_ct == 0,
    {
        Self { grid: SudokuGrid::new(), solved: false, name: name + SUDOKU_START as u32, analysis_ct: 0 }
    }

    /// Whether every cell is placed; if so, marks the puzzle and its grid solved.
    pub fn check_solved(&mut self) -> (r: bool)
        ensures
            r == old(self).grid.all_placed(),
            r ==> final(self).solved && final(self).grid.solved,
            r ==> final(self).grid.grid == old(self).grid.grid,
            r ==> final(self).grid.definite_values == old(self).grid.definite_values,
            r ==> final(self).grid.solved_cell_ct == old(self).grid.solved_cell_ct,
            r ==> final(self).name == old(self).name && final(self).analysis_ct == old(self).analysis_ct,
            !r ==> *final(self) == *old(self),
    {
        let mut y: usize = 0;
        while y < GRID_SIZE
            invariant
                y <= 9,
                forall|i: int, j: int| 0 <= i < 9 && 0 <= j < y ==> (#[trigger] self.grid.cell(i, j)).defined,
            decreases 9 - y,
        {
            let mut x: usize = 0;
            while x < GRID_SIZE
                invariant
                    y < 9,
                    x <= 9,
                    forall|i: int, j: int| 0 <= i < 9 && 0 <= j < y ==> (#[trigger] self.grid.cell(i, j)).defined,
                    forall|i: int| 0 <= i < x ==> (#[trigger] self.grid.cell(i, y as int)).defined,
                decreases 9 - x,
            {
                if !self.grid.grid[y][x].defined {
                    assert(!self.grid.cell(x as int, y as int).defined);
                    return false;
                }
                x += 1;
            }
            y += 1;
        }
        self.set_solved();
        true
    }

    /// Marks the puzzle and its grid solved.
    pub fn set_solved(&mut self)
        ensures
            final(self).solved,
            final(self).grid.solved,
            final(self).grid.grid == old(self).grid.grid,
            final(self).grid.definite_values == old(self).grid.definite_values,
            final(self).grid.solved_cell_ct == old(self).grid.solved_cell_ct,
            final(self).name == old(self).name,
            final(self).analysis_ct == old(self).analysis_ct,
    {
        self.solved = true;
        self.grid.solved = true;
    }
}

/// The puzzles to solve, and whether all of them are solved.
pub struct SudokusCollection {
    pub sudokus: Vec<Sudoku>,
    pub solved: bool,
}

/// Whether the byte strings `a` and `b` are the same.
fn same_bytes(a: &[u8], b: &[u8]) -> (r: bool)
    ensures
        r == (a@ == b@),
{
    if a.len() != b.len() {
        return false;
    }
    let mut i: usize = 0;
    while i < a.len()
        invariant
            a@.len() == b@.len(),
            i <= a@.len(),
            forall|j: int| 0 <= j < i ==> a@[j] == b@[j],
        decreases a.len() - i,
    {
        if a[i] != b[i] {
            return false;
        }
        i += 1;
    }
    assert(a@ =~= b@);
    true
}

/// `g` is where an analysis of `a` got stuck: a shrinking of `a` keeping its solutions, its
/// counters not adding up to a full grid (nor its cells, when the counters of `a` agree with
/// its cells), with no open cell left a single value, no siblings and no confined group of
/// values left to act on (nor, when the cells of `a` carry their positions, a hidden single or
/// a box or line elimination to make), no x-wing, while `a` was not marked solved.
pub open spec fn stuck_from(a: SudokuGrid, g: SudokuGrid) -> bool {
    &&& shrinks(a, g)
    &&& !a.solved
    &&& g.counter_total() != 81
    &&& a.counted() ==> !g.all_placed()
    &&& a.at_home() ==> keeps_all(a, g)
    &&& forall|x: int, y: int| 0 <= x < 9 && 0 <= y < 9 ==> #[trigger] no_single_at(g, x, y)
    &&& a.at_home() ==> no_hidden_single(g)
    &&& no_wings(g)
    &&& no_siblings_left(g)
    &&& no_exclusives_left(g)
    &&& a.at_home() ==> forall|b: int, n: u32, c: int, r: int| #[trigger] box_target(g, b, n, c, r) ==> cleared(g, c, r, n)
    &&& a.at_home() ==> forall|y: int, n: u32, c: int, r: int| #[trigger] row_line_target(g, y, n, c, r) ==> cleared(g, c, r, n)
    &&& a.at_home() ==> forall|x: int, n: u32, c: int, r: int| #[trigger] col_line_target(g, x, n, c, r) ==> cleared(g, c, r, n)
}

/// `b` is `a` after one analysis: counted once more, same name, its grid narrowed (or the
/// puzzle solved), solved exactly when every cell is placed, solved or marked solved before
/// when the counters of `a` agree with its cells, and every solution compatible with the
/// grid before still compatible.
pub open spec fn analysed(a: Sudoku, b: Sudoku) -> bool {
    &&& b.analysis_ct == a.analysis_ct + 1
    &&& b.name == a.name
    &&& narrows(a.grid, b.grid) || b.solved
    &&& b.solved == b.grid.all_placed()
    &&& a.grid.counted() ==> (a.grid.solved || b.solved)
    &&& a.grid.at_home() ==> keeps_all(a.grid, b.grid)
}

impl SudokusCollection {
    /// A collection of the given puzzles, not yet solved.
    pub fn new(collection: Vec<Sudoku>) -> (c: SudokusCollection)
        ensures
            c.sudokus@ == collection@,
            !c.solved,
    {
        SudokusCollection { sudokus: collection, solved: false }
    }

    /// Walks the puzzles that `param` selects: `"solved"` the solved ones, `"unsolved"`
    /// the others, anything else all of them. Nothing is shown.
    pub fn print(&self, param: &str) {
        let want_solved = same_bytes(param.as_bytes(), "solved".as_bytes());
        let want_unsolved = same_bytes(param.as_bytes(), "unsolved".as_bytes());
        let mut i: usize = 0;
        while i < self.sudokus.len()
            invariant
                i <= self.sudokus@.len(),
            decreases self.sudokus.len() - i,
        {
            let sudoku = &self.sudokus[i];
            if !sudoku.solved && want_solved {
                i += 1;
                continue;
            }
            if sudoku.solved && want_unsolved {
                i += 1;
                continue;
            }
            i += 1;
        }
    }

    /// Analyses each unsolved puzzle once (counting the analysis) and marks the collection
    /// solved when every puzzle analysed is now solved. Stops at the first puzzle whose analysis
    /// fails, keeping the grid that analysis left and counting it.
    pub fn analyse(&mut self) -> (r: Result<(), SolveError>)
        requires
            forall|i: int| 0 <= i < old(self).sudokus@.len() ==> (#[trigger] old(self).sudokus@[i]).grid.wf(),
            forall|i: int| 0 <= i < old(self).sudokus@.len() && !(#[trigger] old(self).sudokus@[i]).solved
                ==> old(self).sudokus@[i].analysis_ct < u32::MAX,
        ensures
            final(self).sudokus@.len() == old(self).sudokus@.len(),
            forall|i: int| 0 <= i < final(self).sudokus@.len() ==> (#[trigger] final(self).sudokus@[i]).grid.wf(),
            r is Ok ==> forall|i: int| 0 <= i < old(self).sudokus@.len() && (#[trigger] old(self).sudokus@[i]).solved
                ==> final(self).sudokus@[i] == old(self).sudokus@[i],
            r is Ok ==> forall|i: int| 0 <= i < old(self).sudokus@.len() && !(#[trigger] old(self).sudokus@[i]).solved ==> {
                &&& final(self).sudokus@[i].analysis_ct == old(self).sudokus@[i].analysis_ct + 1
                &&& final(self).sudokus@[i].name == old(self).sudokus@[i].name
                &&& narrows(old(self).sudokus@[i].grid, final(self).sudokus@[i].grid) || final(self).sudokus@[i].solved
                &&& final(self).sudokus@[i].solved == final(self).sudokus@[i].grid.all_placed()
                &&& old(self).sudokus@[i].grid.counted() ==> (old(self).sudokus@[i].grid.solved || final(self).sudokus@[i].solved)
            },
            r is Ok ==> final(self).solved == forall|i: int| 0 <= i < old(self).sudokus@.len() && !(#[trigger] old(self).sudokus@[i]).solved
                ==> final(self).sudokus@[i].solved,
            r is Ok ==> forall|i: int| 0 <= i < old(self).sudokus@.len() && !(#[trigger] old(self).sudokus@[i]).solved
                && old(self).sudokus@[i].grid.at_home() ==> keeps_all(old(self).sudokus@[i].grid, final(self).sudokus@[i].grid),
            r matches Err(e) ==> exists|i: int| 0 <= i < old(self).sudokus@.len()
                && !(#[trigger] old(self).sudokus@[i]).solved
                && final(self).sudokus@[i].analysis_ct == old(self).sudokus@[i].analysis_ct + 1
                && final(self).sudokus@[i].name == old(self).sudokus@[i].name
                && final(self).sudokus@[i].solved == old(self).sudokus@[i].solved
                && final(self).sudokus@[i].grid.wf()
                && shrinks(old(self).sudokus@[i].grid, final(self).sudokus@[i].grid)
                && (forall|t: int| 0 <= t < i && (#[trigger] old(self).sudokus@[t]).solved ==> final(self).sudokus@[t] == old(self).sudokus@[t])
                && (forall|t: int| 0 <= t < i && !(#[trigger] old(self).sudokus@[t]).solved
                    ==> analysed(old(self).sudokus@[t], final(self).sudokus@[t]))
                && (forall|t: int| i < t < old(self).sudokus@.len() ==> #[trigger] final(self).sudokus@[t] == old(self).sudokus@[t])
                && (e != SolveError::Stuck && old(self).sudokus@[i].grid.at_home() ==> no_solution(old(self).sudokus@[i].grid))
                && (e == SolveError::Stuck ==> stuck_from(old(self).sudokus@[i].grid, final(self).sudokus@[i].grid)),
    {
        let mut solved_all = true;
        let mut i: usize = 0;
        while i < self.sudokus.len()
            invariant
                i <= self.sudokus@.len(),
                self.sudokus@.len() == old(self).sudokus@.len(),
                forall|t: int| 0 <= t < self.sudokus@.len() ==> (#[trigger] self.sudokus@[t]).grid.wf(),
                forall|t: int| i <= t < self.sudokus@.len() ==> #[trigger] self.sudokus@[t] == old(self).sudokus@[t],
                forall|t: int| 0 <= t < old(self).sudokus@.len() && !(#[trigger] old(self).sudokus@[t]).solved
                    ==> old(self).sudokus@[t].analysis_ct < u32::MAX,
                forall|t: int| 0 <= t < i && (#[trigger] old(self).sudokus@[t]).solved ==> self.sudokus@[t] == old(self).sudokus@[t],
                forall|t: int| 0 <= t < i && !(#[trigger] old(self).sudokus@[t]).solved ==> {
                    &&& self.sudokus@[t].analysis_ct == old(self).sudokus@[t].analysis_ct + 1
                    &&& self.sudokus@[t].name == old(self).sudokus@[t].name
                    &&& narrows(old(self).sudokus@[t].grid, self.sudokus@[t].grid) || self.sudokus@[t].solved
                    &&& self.sudokus@[t].solved == self.sudokus@[t].grid.all_placed()
                    &&& old(self).sudokus@[t].grid.counted() ==> (old(self).sudokus@[t].grid.solved || self.sudokus@[t].solved)
                },
                solved_all == forall|t: int| 0 <= t < i && !(#[trigger] old(self).sudokus@[t]).solved ==> self.sudokus@[t].solved,
                forall|t: int| 0 <= t < i && !(#[trigger] old(self).sudokus@[t]).solved && old(self).sudokus@[t].grid.at_home()
                    ==> keeps_all(old(self).sudokus@[t].grid, self.sudokus@[t].grid),
            decreases self.sudokus.len() - i,
        {
            let mut sudoku = self.sudokus[i];
            if !sudoku.solved {
                sudoku.analysis_ct += 1;
                let ghost g0 = sudoku.grid;
                match sudoku.grid.analyse() {
                    Ok(()) => {},
                    Err(e) => {
                        proof {
                            assert(!old(self).sudokus@[i as int].solved);
                            if e != SolveError::Stuck && g0.at_home() {
                                assert forall|sol: Seq<Seq<u32>>| is_solution(sol) implies !#[trigger] agrees(g0, sol) by {}
                            }
                            assert(self.sudokus@[i as int] == old(self).sudokus@[i as int]);
                            if e == SolveError::Stuck {
                                assert(stuck_from(g0, sudoku.grid));
                            }
                        }
                        let ghost before = self.sudokus@;
                        self.sudokus.set(i, sudoku);
                        proof {
                            assert forall|t: int| 0 <= t < i && !(#[trigger] old(self).sudokus@[t]).solved
                                implies analysed(old(self).sudokus@[t], self.sudokus@[t]) by {
                                assert(self.sudokus@[t] == before[t]);
                            }
                            assert forall|t: int| 0 <= t < i && (#[trigger] old(self).sudokus@[t]).solved
                                implies self.sudokus@[t] == old(self).sudokus@[t] by {
                                assert(self.sudokus@[t] == before[t]);
                            }
                            assert forall|t: int| i < t < old(self).sudokus@.len() implies #[trigger] self.sudokus@[t] == old(self).sudokus@[t] by {
                                assert(self.sudokus@[t] == before[t]);
                            }
                            assert forall|t: int| 0 <= t < self.sudokus@.len() implies (#[trigger] self.sudokus@[t]).grid.wf() by {
                                assert(t != i ==> self.sudokus@[t] == before[t]);
                            }
                            assert(self.sudokus@[i as int] == sudoku);
                        }
                        return Err(e);
                    },
                }
                let ghost g1 = sudoku.grid;
                let this_solved = sudoku.check_solved();
                proof {
                    if this_solved {
                        assert(sudoku.grid.grid == g1.grid);
                        assert forall|x: int, y: int| 0 <= x < 9 && 0 <= y < 9 implies (#[trigger] sudoku.grid.cell(x, y)).wf() by {
                            assert(g1.cell(x, y).wf());
                        }
                        assert forall|k: int| 0 <= k < 81 implies g1.value_at(k) == sudoku.grid.value_at(k) by {}
                        crate::grid::lemma_count_same(g1, sudoku.grid, 81);
                    }
                }
                proof {
                    assert(g0 == old(self).sudokus@[i as int].grid);
                    if this_solved {
                        assert(g1.all_placed());
                        assert forall|x: int, y: int| 0 <= x < 9 && 0 <= y < 9 implies (#[trigger] sudoku.grid.cell(x, y)).defined by {
                            assert(g1.cell(x, y).defined);
                        }
                    } else {
                        assert(sudoku.grid == g1);
                        assert(!sudoku.solved);
                    }
                    assert(sudoku.solved == sudoku.grid.all_placed());
                }
                if solved_all {
                    solved_all = this_solved;
                }
                proof {
                    if g0.at_home() {
                        assert forall|sol: Seq<Seq<u32>>| is_solution(sol) && #[trigger] agrees(g0, sol) implies agrees(sudoku.grid, sol) by {
                            assert(agrees(g1, sol));
                            assert forall|x: int, y: int| 0 <= x < 9 && 0 <= y < 9 implies cell_agrees(#[trigger] sudoku.grid.cell(x, y), sol[y][x]) by {
                                assert(cell_agrees(g1.cell(x, y), sol[y][x]));
                            }
                        }
                    }
                }
                let ghost before = self.sudokus@;
                self.sudokus.set(i, sudoku);
                proof {
                    assert forall|t: int| 0 <= t < i + 1 && !(#[trigger] old(self).sudokus@[t]).solved implies self.sudokus@[t].solved == (t == i && this_solved || t < i && before[t].solved) by {}
                }
            }
            i += 1;
        }
        self.solved = solved_all;
        Ok(())
    }
}

/// Reads the digit at `pos` of a grid line.
fn digit_at(line: &Vec<u8>, pos: usize) -> (r: Option<u32>)
    ensures
        r matches Some(v) ==> v <= 9 && pos < line@.len() && line@[pos as int] == 48 + v,
        r is None ==> !(pos < line@.len() && 48 <= line@[pos as int] <= 57),
{
    if pos >= line.len() {
        return None;
    }
    let b = line[pos];
    if b < 48 || b > 57 {
        return None;
    }
    Some((b - 48) as u32)
}

/// The line starts a puzzle after the first ten lines: it begins with `G`.
pub open spec fn starts_puzzle(line: Seq<u8>) -> bool {
    line.len() > 0 && line[0] == 71
}

/// The first nine bytes of the line are digits.
pub open spec fn digit_row(line: Seq<u8>) -> bool {
    line.len() >= 9 && forall|x: int| 0 <= x < 9 ==> 48 <= #[trigger] line[x] <= 57
}

/// The values of the first nine digits of the line.
pub open spec fn row_values(line: Seq<u8>) -> Seq<u32> {
    Seq::new(9, |x: int| (line[x] - 48) as u32)
}

/// What reading the first `n` lines gives: the rows read for each puzzle so far, the position
/// of the next line within its puzzle (0 before the first header), and the error met, if any.
/// A header (the first line, or from the tenth line on a line starting with `G`) starts a
/// puzzle; each later line is a row of nine digits; lines past `SUDOKU_END` are ignored.
pub open spec fn parse_upto(lines: Seq<Seq<u8>>, n: nat) -> (Seq<Seq<Seq<u32>>>, int, Option<ParseError>)
    decreases n,
{
    if n == 0 {
        (Seq::empty(), 0, None)
    } else {
        let (puzzles, inner, err) = parse_upto(lines, (n - 1) as nat);
        let li = n - 1;
        let line = lines[li];
        if err is Some || li > SUDOKU_END {
            (puzzles, inner, err)
        } else {
            let inner1 = if starts_puzzle(line) && li >= 10 { 0 } else { inner };
            if inner1 == 0 {
                (puzzles.push(Seq::empty()), 1, None)
            } else if inner1 - 1 >= 9 {
                (puzzles, inner1, Some(ParseError::TooManyRows))
            } else if !digit_row(line) {
                (puzzles, inner1, Some(ParseError::BadDigit))
            } else {
                (puzzles.update(puzzles.len() - 1, puzzles.last().push(row_values(line))), inner1 + 1, None)
            }
        }
    }
}

/// The grid holds the given rows of values, each cell built from its value at its own
/// position, and below them open cells at coordinate (0, 0).
pub open spec fn grid_holds(g: SudokuGrid, rows: Seq<Seq<u32>>) -> bool {
    forall|x: int, y: int| 0 <= x < 9 && 0 <= y < 9 ==> {
        let c = #[trigger] g.cell(x, y);
        if y < rows.len() {
            &&& c.value_as_int == rows[y][x]
            &&& c.defined == (rows[y][x] != 0)
            &&& c.states@ == initial_states(rows[y][x])
            &&& c.coordinate == (Coordinate { x: x as u32, y: y as u32 })
        } else {
            &&& c.value_as_int == 0
            &&& !c.defined
            &&& c.states@ == initial_states(0)
            &&& c.coordinate == (Coordinate { x: 0, y: 0 })
        }
    }
}

/// The shape of what `parse_upto` builds: at most nine rows per puzzle, of nine values at most 9.
pub proof fn lemma_parse_shape(lines: Seq<Seq<u8>>, n: nat)
    ensures
        ({
            let (puzzles, inner, err) = parse_upto(lines, n);
            &&& 0 <= inner <= 10
            &&& (inner == 0 <==> puzzles.len() == 0)
            &&& (err is None && puzzles.len() > 0 ==> puzzles.last().len() == inner - 1)
            &&& forall|k: int| 0 <= k < puzzles.len() ==> (#[trigger] puzzles[k]).len() <= 9
                && forall|y: int| 0 <= y < puzzles[k].len() ==> (#[trigger] puzzles[k][y]).len() == 9
                    && forall|x: int| 0 <= x < 9 ==> #[trigger] puzzles[k][y][x] <= 9
        }),
    decreases n,
{
    if n > 0 {
        lemma_parse_shape(lines, (n - 1) as nat);
        let (puzzles, inner, err) = parse_upto(lines, (n - 1) as nat);
        let (p2, inner2, err2) = parse_upto(lines, n);
        let line = lines[n - 1];
        if err is None && n - 1 <= SUDOKU_END {
            let inner1 = if starts_puzzle(line) && n - 1 >= 10 { 0 } else { inner };
            if inner1 != 0 && inner1 - 1 < 9 && digit_row(line) {
                let row = row_values(line);
                assert forall|x: int| 0 <= x < 9 implies #[trigger] row[x] <= 9 by {
                    assert(48 <= line[x] <= 57);
                }
                assert forall|k: int| 0 <= k < p2.len() implies (#[trigger] p2[k]).len() <= 9
                    && forall|y: int| 0 <= y < p2[k].len() ==> (#[trigger] p2[k][y]).len() == 9
                        && forall|x: int| 0 <= x < 9 ==> #[trigger] p2[k][y][x] <= 9 by {
                    if k == p2.len() - 1 {
                        assert(p2[k] == puzzles.last().push(row));
                        assert forall|y: int| 0 <= y < p2[k].len() implies (#[trigger] p2[k][y]).len() == 9
                            && forall|x: int| 0 <= x < 9 ==> #[trigger] p2[k][y][x] <= 9 by {
                            if y < puzzles.last().len() {
                                assert(p2[k][y] == puzzles[k][y]);
                            }
                        }
                    } else {
                        assert(p2[k] == puzzles[k]);
                    }
                }
            } else if inner1 == 0 {
                assert forall|k: int| 0 <= k < p2.len() implies (#[trigger] p2[k]).len() <= 9
                    && forall|y: int| 0 <= y < p2[k].len() ==> (#[trigger] p2[k][y]).len() == 9
                        && forall|x: int| 0 <= x < 9 ==> #[trigger] p2[k][y][x] <= 9 by {
                    if k < puzzles.len() {
                        assert(p2[k] == puzzles[k]);
                    }
                }
            }
        }
    }
}

/// A grid that holds nine rows read from the input carries each cell's position as its
/// coordinate, so the solving steps keep every solution of it.
pub proof fn lemma_full_grid_at_home(g: SudokuGrid, rows: Seq<Seq<u32>>)
    requires
        grid_holds(g, rows),
        rows.len() == 9,
    ensures
        g.at_home(),
{
    assert forall|x: int, y: int| 0 <= x < 9 && 0 <= y < 9 implies (#[trigger] g.cell(x, y)).coordinate == (Coordinate { x: x as u32, y: y as u32 }) by {
        assert(y < rows.len());
    }
}

/// A solution that completes the givens of a grid read from nine rows is compatible with it,
/// so every solving step keeps it (see `SudokuGrid::analyse`).
pub proof fn lemma_givens_agree(g: SudokuGrid, rows: Seq<Seq<u32>>, sol: Seq<Seq<u32>>)
    requires
        grid_holds(g, rows),
        rows.len() == 9,
        is_solution(sol),
        forall|x: int, y: int| 0 <= x < 9 && 0 <= y < 9 && rows[y][x] != 0 ==> #[trigger] rows[y][x] == sol[y][x],
    ensures
        agrees(g, sol),
        g.at_home(),
{
    lemma_full_grid_at_home(g, rows);
    assert forall|x: int, y: int| 0 <= x < 9 && 0 <= y < 9 implies cell_agrees(#[trigger] g.cell(x, y), sol[y][x]) by {
        assert(y < rows.len());
        let c = g.cell(x, y);
        if !c.defined {
            assert(1 <= sol[y][x] <= 9);
            assert(c.states@[sol[y][x] - 1] == initial_states(rows[y][x])[sol[y][x] - 1]);
        }
    }
}

/// Once an error is met, or every line up to `SUDOKU_END` is read, further lines change nothing.
pub proof fn lemma_parse_stable(lines: Seq<Seq<u8>>, n: nat, m: nat)
    requires
        n <= m,
        parse_upto(lines, n).2 is Some || n > SUDOKU_END,
    ensures
        parse_upto(lines, m) == parse_upto(lines, n),
    decreases m,
{
    if m > n {
        lemma_parse_stable(lines, n, (m - 1) as nat);
    }
}

/// Reads puzzles from the lines of the input (see `parse_upto`): each puzzle is numbered from
/// 1 in order, unsolved and not yet analysed, and its grid holds the rows read for it.
pub fn get_sudokus(lines: &Vec<Vec<u8>>) -> (r: Result<SudokusCollection, ParseError>)
    requires
        lines@.len() < usize::MAX,
    ensures
        ({
            let (puzzles, inner, err) = parse_upto(lines_view(lines@), lines@.len() as nat);
            &&& (r is Err <==> err is Some)
            &&& (r matches Err(e) ==> err == Some(e))
            &&& (r matches Ok(c) ==> {
                &&& !c.solved
                &&& c.sudokus@.len() == puzzles.len()
                &&& forall|k: int| 0 <= k < c.sudokus@.len() ==> {
                    &&& (#[trigger] c.sudokus@[k]).grid.wf()
                    &&& c.sudokus@[k].grid.counted()
                    &&& grid_holds(c.sudokus@[k].grid, puzzles[k])
                    &&& !c.sudokus@[k].solved
                    &&& !c.sudokus@[k].grid.solved
                    &&& c.sudokus@[k].grid.solved_cell_ct == 0
                    &&& c.sudokus@[k].analysis_ct == 0
                    &&& c.sudokus@[k].name == k + 1
                }
            })
        }),
{
    let ghost lv = lines_view(lines@);
    let mut sudokus: Vec<Sudoku> = Vec::new();
    let mut true_line: usize = 0;
    let mut inner_line: usize = 0;
    let mut sudoku_num: usize = 0;
    let mut li: usize = 0;
    while li < lines.len()
        invariant
            li <= lines@.len(),
            lines@.len() < usize::MAX,
            lv == lines_view(lines@),
            true_line == li,
            li <= SUDOKU_END + 1,
            sudoku_num <= li,
            li > 0 ==> sudokus@.len() > 0,
            sudokus@.len() == 0 ==> sudoku_num == 0 && li == 0,
            ({
                let (puzzles, inner, err) = parse_upto(lv, li as nat);
                &&& err is None
                &&& inner == inner_line
                &&& sudokus@.len() == puzzles.len()
                &&& (sudokus@.len() > 0 ==> sudoku_num == sudokus@.len() - 1)
                &&& forall|k: int| 0 <= k < sudokus@.len() ==> {
                    &&& (#[trigger] sudokus@[k]).grid.wf()
                    &&& sudokus@[k].grid.counted()
                    &&& grid_holds(sudokus@[k].grid, puzzles[k])
                    &&& !sudokus@[k].solved
                    &&& !sudokus@[k].grid.solved
                    &&& sudokus@[k].grid.solved_cell_ct == 0
                    &&& sudokus@[k].analysis_ct == 0
                    &&& sudokus@[k].name == k + 1
                }
            }),
        decreases lines.len() - li,
    {
        proof {
            lemma_parse_shape(lv, li as nat);
            lemma_parse_shape(lv, (li + 1) as nat);
        }
        let line = &lines[li];
        let ghost prev = parse_upto(lv, li as nat);
        proof {
            assert(lv[li as int] == line@);
        }
        if true_line < (10 * SUDOKU_START) - 10 {
            true_line += 1;
            li += 1;
            continue;
        }
        if true_line > SUDOKU_END {
            proof { lemma_parse_stable(lv, li as nat, lines@.len() as nat); }
            return Ok(SudokusCollection::new(sudokus));
        }
        if line.len() > 0 && line[0] == 71 && true_line >= SUDOKU_START * 10 {
            inner_line = 0;
            sudoku_num += 1;
        }
        true_line += 1;
        li += 1;
        if inner_line == 0 {
            let ghost before = sudokus@;
            sudokus.push(Sudoku::new(sudoku_num as u32));
            inner_line += 1;
            proof {
                if before.len() == 0 {
                    assert(sudoku_num == 0);
                }
                let (puzzles, inner, err) = parse_upto(lv, li as nat);
                assert forall|k: int| 0 <= k < sudokus@.len() implies {
                    &&& (#[trigger] sudokus@[k]).grid.wf()
                    &&& sudokus@[k].grid.counted()
                    &&& grid_holds(sudokus@[k].grid, puzzles[k])
                    &&& !sudokus@[k].solved
                    &&& !sudokus@[k].grid.solved
                    &&& sudokus@[k].grid.solved_cell_ct == 0
                    &&& sudokus@[k].analysis_ct == 0
                    &&& sudokus@[k].name == k + 1
                } by {
                    if k < before.len() {
                        assert(sudokus@[k] == before[k]);
                        assert(puzzles[k] == prev.0[k]);
                    } else {
                        assert(puzzles[k] == Seq::<Seq<u32>>::empty());
                    }
                }
            }
            continue;
        }
        if inner_line - 1 >= GRID_SIZE {
            proof { lemma_parse_stable(lv, li as nat, lines@.len() as nat); }
            return Err(ParseError::TooManyRows);
        }
        proof {
            assert(lv[li - 1] == line@);
            assert(!(starts_puzzle(line@) && li - 1 >= 10));
            assert(prev.1 == inner_line);
        }
        let mut sudoku = sudokus[sudoku_num];
        let y = inner_line - 1;
        let ghost k = sudoku_num as int;
        let ghost rows0 = prev.0[k];
        let mut pos: usize = 0;
        while pos < GRID_SIZE
            invariant
                y < 9,
                pos <= 9,
                sudoku.grid.wf(),
                sudoku.grid.counted(),
                !sudoku.solved,
                !sudoku.grid.solved,
                sudoku.grid.solved_cell_ct == 0,
                sudoku.analysis_ct == 0,
                sudoku.name == sudoku_num + 1,
                rows0.len() == y,
                li <= lines@.len(),
                lv == lines_view(lines@),
                !digit_row(line@) ==> parse_upto(lv, li as nat).2 == Some(ParseError::BadDigit),
                forall|x: int, yy: int| 0 <= x < 9 && 0 <= yy < 9 && yy != y ==> {
                    let c = #[trigger] sudoku.grid.cell(x, yy);
                    if yy < rows0.len() {
                        &&& c.value_as_int == rows0[yy][x]
                        &&& c.defined == (rows0[yy][x] != 0)
                        &&& c.states@ == initial_states(rows0[yy][x])
                        &&& c.coordinate == (Coordinate { x: x as u32, y: yy as u32 })
                    } else {
                        &&& c.value_as_int == 0
                        &&& !c.defined
                        &&& c.states@ == initial_states(0)
                        &&& c.coordinate == (Coordinate { x: 0, y: 0 })
                    }
                },
                forall|x: int| 0 <= x < 9 ==> {
                    let c = #[trigger] sudoku.grid.cell(x, y as int);
                    if x < pos {
                        &&& line@[x] == 48 + c.value_as_int
                        &&& c.value_as_int <= 9
                        &&& c.defined == (c.value_as_int != 0)
                        &&& c.states@ == initial_states(c.value_as_int)
                        &&& c.coordinate == (Coordinate { x: x as u32, y: y as u32 })
                    } else {
                        &&& c.value_as_int == 0
                        &&& !c.defined
                        &&& c.states@ == initial_states(0)
                        &&& c.coordinate == (Coordinate { x: 0, y: 0 })
                    }
                },
                forall|x: int| 0 <= x < pos ==> 48 <= #[trigger] line@[x] <= 57,
                pos <= line@.len(),
            decreases 9 - pos,
        {
            let val = match digit_at(line, pos) {
                Some(v) => v,
                None => {
                    proof {
                        assert(!digit_row(line@));
                        lemma_parse_stable(lv, li as nat, lines@.len() as nat);
                    }
                    return Err(ParseError::BadDigit);
                },
            };
            let ghost g_before = sudoku.grid;
            sudoku.grid.place(pos as u32, y as u32, val);
            proof {
                assert forall|x: int, yy: int| 0 <= x < 9 && 0 <= yy < 9 && !(x == pos && yy == y) implies
                    #[trigger] sudoku.grid.cell(x, yy) == g_before.cell(x, yy) by {}
            }
            pos += 1;
        }
        proof {
            let (puzzles, inner, err) = parse_upto(lv, li as nat);
            assert(digit_row(line@));
            let row = row_values(line@);
            assert(puzzles[k] == rows0.push(row));
            assert(grid_holds(sudoku.grid, puzzles[k])) by {
                assert forall|x: int, yy: int| 0 <= x < 9 && 0 <= yy < 9 implies {
                    let c = #[trigger] sudoku.grid.cell(x, yy);
                    if yy < puzzles[k].len() {
                        &&& c.value_as_int == puzzles[k][yy][x]
                        &&& c.defined == (puzzles[k][yy][x] != 0)
                        &&& c.states@ == initial_states(puzzles[k][yy][x])
                        &&& c.coordinate == (Coordinate { x: x as u32, y: yy as u32 })
                    } else {
                        &&& c.value_as_int == 0
                        &&& !c.defined
                        &&& c.states@ == initial_states(0)
                        &&& c.coordinate == (Coordinate { x: 0, y: 0 })
                    }
                } by {
                    if yy == y {
                        assert(puzzles[k][yy] == row);
                    } else if yy < y {
                        assert(puzzles[k][yy] == rows0[yy]);
                    }
                }
            }
        }
        let ghost before = sudokus@;
        sudokus.set(sudoku_num, sudoku);
        inner_line += 1;
        proof {
            let (puzzles, inner, err) = parse_upto(lv, li as nat);
            assert forall|kk: int| 0 <= kk < sudokus@.len() implies {
                &&& (#[trigger] sudokus@[kk]).grid.wf()
                &&& sudokus@[kk].grid.counted()
                &&& grid_holds(sudokus@[kk].grid, puzzles[kk])
                &&& !sudokus@[kk].solved
                &&& !sudokus@[kk].grid.solved
                &&& sudokus@[kk].grid.solved_cell_ct == 0
                &&& sudokus@[kk].analysis_ct == 0
                &&& sudokus@[kk].name == kk + 1
            } by {
                if kk != k {
                    assert(sudokus@[kk] == before[kk]);
                    assert(puzzles[kk] == prev.0[kk]);
                }
            }
        }
    }
    proof {
        assert(lines@.len() == li);
    }
    Ok(SudokusCollection::new(sudokus))
}

/// The byte contents of the lines.
pub open spec fn lines_view(lines: Seq<Vec<u8>>) -> Seq<Seq<u8>> {
    lines.map_values(|l: Vec<u8>| l@)
}

} // verus!
