use vstd::prelude::*;
use vstd::std_specs::cmp::PartialEqSpecImpl;
use crate::cell::SudokuCell;
use crate::grid::{SudokuGrid, ValueList};
use crate::sudoku::Sudoku;

verus! {

/// Two cells are equal when they agree on whether they are placed, on their value,
/// on the labels of their nine value states and on their coordinate; the statuses
/// of the values are not compared.
pub open spec fn cells_match(a: SudokuCell, b: SudokuCell) -> bool {
    &&& a.defined == b.defined
    &&& a.value_as_int == b.value_as_int
    &&& forall|i: int| 0 <= i < 9 ==> #[trigger] a.states@[i].1 == b.states@[i].1
    &&& a.coordinate == b.coordinate
}

impl PartialEq for SudokuCell {
    fn eq(&self, other: &Self) -> (r: bool) {
        if self.defined != other.defined || self.value_as_int != other.value_as_int {
            return false;
        }
        let mut i: usize = 0;
        while i < 9
            invariant
                i <= 9,
                forall|j: int| 0 <= j < i ==> self.states@[j].1 == other.states@[j].1,
            decreases 9 - i,
        {
            if self.states[i].1 != other.states[i].1 {
                return false;
            }
            i += 1;
        }
        self.coordinate == other.coordinate
    }
}

impl PartialEqSpecImpl for SudokuCell {
    open spec fn obeys_eq_spec() -> bool {
        true
    }

    open spec fn eq_spec(&self, other: &SudokuCell) -> bool {
        cells_match(*self, *other)
    }
}

impl PartialEq for ValueList {
    fn eq(&self, other: &Self) -> (r: bool) {
        let mut i: usize = 0;
        while i < 9
            invariant
                i <= 9,
                forall|j: int| 0 <= j < i ==> self.counts@[j] == other.counts@[j],
            decreases 9 - i,
        {
            if self.counts[i] != other.counts[i] {
                return false;
            }
            i += 1;
        }
        true
    }
}

impl PartialEqSpecImpl for ValueList {
    open spec fn obeys_eq_spec() -> bool {
        true
    }

    open spec fn eq_spec(&self, other: &ValueList) -> bool {
        forall|i: int| 0 <= i < 9 ==> #[trigger] self.counts@[i] == other.counts@[i]
    }
}

/// Two grids are equal when their cells match pairwise (see `cells_match`) and their
/// counters and flags are the same.
pub open spec fn grids_match(a: SudokuGrid, b: SudokuGrid) -> bool {
    &&& forall|x: int, y: int| 0 <= x < 9 && 0 <= y < 9 ==> cells_match(#[trigger] a.cell(x, y), b.cell(x, y))
    &&& a.solved_cell_ct == b.solved_cell_ct
    &&& forall|i: int| 0 <= i < 9 ==> #[trigger] a.definite_values.counts@[i] == b.definite_values.counts@[i]
    &&& a.solved == b.solved
}

impl PartialEq for SudokuGrid {
    fn eq(&self, other: &Self) -> (r: bool) {
        let mut y: usize = 0;
        while y < 9
            invariant
                y <= 9,
                forall|i: int, j: int| 0 <= i < 9 && 0 <= j < y ==> cells_match(#[trigger] self.cell(i, j), other.cell(i, j)),
            decreases 9 - y,
        {
            let mut x: usize = 0;
            while x < 9
                invariant
                    y < 9,
                    x <= 9,
                    forall|i: int, j: int| 0 <= i < 9 && 0 <= j < y ==> cells_match(#[trigger] self.cell(i, j), other.cell(i, j)),
                    forall|i: int| 0 <= i < x ==> cells_match(#[trigger] self.cell(i, y as int), other.cell(i, y as int)),
                decreases 9 - x,
            {
                let a = self.grid[y][x];
                let b = other.grid[y][x];
                let same = a == b;
                if !same {
                    assert(!cells_match(self.cell(x as int, y as int), other.cell(x as int, y as int)));
                    return false;
                }
                x += 1;
            }
            y += 1;
        }
        self.solved_cell_ct == other.solved_cell_ct && self.definite_values == other.definite_values
            && self.solved == other.solved
    }
}

impl PartialEqSpecImpl for SudokuGrid {
    open spec fn obeys_eq_spec() -> bool {
        true
    }

    open spec fn eq_spec(&self, other: &SudokuGrid) -> bool {
        grids_match(*self, *other)
    }
}

/// Two puzzles are equal when their grids are equal (see `grids_match`) and they agree on
/// being solved, on their number and on how many times they were analysed.
pub open spec fn sudokus_match(a: Sudoku, b: Sudoku) -> bool {
    &&& grids_match(a.grid, b.grid)
    &&& a.solved == b.solved
    &&& a.name == b.name
    &&& a.analysis_ct == b.analysis_ct
}

impl PartialEq for Sudoku {
    fn eq(&self, other: &Self) -> (r: bool) {
        let same_grid = self.grid == other.grid;
        same_grid && self.solved == other.solved && self.name == other.name && self.analysis_ct == other.analysis_ct
    }
}

impl PartialEqSpecImpl for Sudoku {
    open spec fn obeys_eq_spec() -> bool {
        true
    }

    open spec fn eq_spec(&self, other: &Sudoku) -> bool {
        sudokus_match(*self, *other)
    }
}

} // verus!
