use vstd::prelude::*;
use crate::cell::{SudokuCell, ValueStatus, Coordinate, initial_states, values_with, lemma_values_with};
use crate::equality::{cells_match, grids_match};
use crate::grid::SudokuGrid;
use crate::sbox::box_start;

verus! {

/// Striking a value twice is striking it once: after the first strike the value is ruled
/// out, a second strike leaves the states as they are and reports `(false, 0)`.
pub proof fn law_strike_idempotent(c: SudokuCell, v: u32, c2: SudokuCell)
    requires
        1 <= v <= 9,
        c2.states@ == c.struck_states(v),
    ensures
        c2.is_ruled_out(v),
        c2.struck_states(v) == c2.states@,
        c2.strike_outcome(v) == (false, 0u32),
{
    assert(c2.struck_states(v) =~= c2.states@);
}

/// In a well-formed open cell each value from 1 to 9 is either possible or impossible,
/// never both; a defined cell has no possible value and every other value impossible.
pub proof fn law_candidates_partition(c: SudokuCell)
    requires
        c.wf(),
    ensures
        !c.defined ==> forall|v: u32| 1 <= v <= 9 ==> (c.possible_values().contains(v) != c.impossible_values().contains(v)),
        c.defined ==> c.possible_values().len() == 0,
        c.defined ==> forall|v: u32| 1 <= v <= 9 ==> (c.impossible_values().contains(v) <==> v != c.value_as_int),
{
    lemma_values_with(c.states@, ValueStatus::Possible, 9);
    lemma_values_with(c.states@, ValueStatus::Impossible, 9);
    if c.defined && c.possible_values().len() > 0 {
        let v = c.possible_values()[0];
        assert(c.states@[v - 1].0 == ValueStatus::Possible);
    }
}

/// A cell built from a value is well formed; with 0 every value is possible, otherwise no
/// value is possible and exactly the other eight are impossible.
pub proof fn law_new_cell(val: u32, x: u32, y: u32, c: SudokuCell)
    requires
        val <= 9,
        x < 9,
        y < 9,
        c.defined == (val != 0),
        c.value_as_int == val,
        c.states@ == initial_states(val),
        c.coordinate == (Coordinate { x, y }),
    ensures
        c.wf(),
        val == 0 ==> forall|v: u32| 1 <= v <= 9 ==> c.possible_values().contains(v),
        val != 0 ==> c.possible_values().len() == 0,
        val != 0 ==> forall|v: u32| 1 <= v <= 9 ==> (c.impossible_values().contains(v) <==> v != val),
{
    assert forall|i: int| 0 <= i < 9 implies #[trigger] c.states@[i].1 == i + 1 by {
        assert(c.states@[i] == initial_states(val)[i]);
    }
    assert forall|i: int| 0 <= i < 9 implies #[trigger] c.states@[i].0 == (if i == c.value_as_int - 1 { ValueStatus::Actual } else { ValueStatus::Impossible }) || !c.defined by {
        assert(c.states@[i] == initial_states(val)[i]);
    }
    assert forall|i: int| 0 <= i < 9 implies #[trigger] c.states@[i].0 != ValueStatus::Actual || c.defined by {
        assert(c.states@[i] == initial_states(val)[i]);
    }
    assert(c.wf());
    law_candidates_partition(c);
    lemma_values_with(c.states@, ValueStatus::Possible, 9);
    if val == 0 {
        assert forall|v: u32| 1 <= v <= 9 implies c.possible_values().contains(v) by {
            assert(c.states@[v - 1] == initial_states(val)[v - 1]);
        }
    }
}

/// Every cell lies in the box built from its own coordinates: that box starts at most two
/// columns and rows before it, and inside the grid.
pub proof fn law_own_box(x: u32, y: u32)
    requires
        x < 9,
        y < 9,
    ensures
        box_start(x) <= x <= box_start(x) + 2,
        box_start(y) <= y <= box_start(y) + 2,
        box_start(x) <= 6,
        box_start(y) <= 6,
        box_start(x) % 3 == 0,
        box_start(y) % 3 == 0,
{
}

/// Boxes numbered 0 to 8 (left column `3 * (b % 3)`, top row `box_start(b)`) are the nine
/// boxes of the grid: each cell's own box has a number, and distinct numbers give distinct boxes.
pub proof fn law_box_numbers(x: u32, y: u32, b1: u32, b2: u32)
    requires
        x < 9,
        y < 9,
        b1 < 9,
        b2 < 9,
    ensures
        exists|b: u32| b < 9 && 3 * (b % 3) == box_start(x) && box_start(b) == box_start(y),
        (3 * (b1 % 3) == 3 * (b2 % 3) && box_start(b1) == box_start(b2)) ==> b1 == b2,
{
    let b = (box_start(y) + box_start(x) / 3) as u32;
    assert(b < 9 && 3 * (b % 3) == box_start(x) && box_start(b) == box_start(y));
}

/// Equality of cells (which ignores the statuses of the values) is reflexive and symmetric.
pub proof fn law_cell_equality(a: SudokuCell, b: SudokuCell)
    ensures
        cells_match(a, a),
        cells_match(a, b) == cells_match(b, a),
{
}

/// Equality of grids is reflexive and symmetric.
pub proof fn law_grid_equality(a: SudokuGrid, b: SudokuGrid)
    ensures
        grids_match(a, a),
        grids_match(a, b) == grids_match(b, a),
{
}

} // verus!
