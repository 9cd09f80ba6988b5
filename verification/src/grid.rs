use vstd::prelude::*;
use crate::sbox::SudokuBox;
use crate::solution::{is_solution, agrees, lemma_strike_keeps, conflict, no_new_conflicts, settled};
use crate::cell::{SudokuCell, ValueStatus, Coordinate, initial_states, values_with, lemma_values_with, cells_with_value, open_cells, values_of, lemma_cell_filters};

verus! {

/// Side of the grid.
pub const GRID_SIZE: usize = 9;
/// Side of the grid, as a value.
pub const GRID_SIZE_I: u32 = 9;

/// Why a solving step gave up: a cell or a unit ran out of room for a value, or no technique
/// makes progress any more.
#[derive(Clone, Copy, Debug, PartialEq, Eq, Structural)]
pub enum SolveError {
    /// A value was struck from a cell in which it was the last value left.
    CellEmptied,
    /// A value missing from a box, row or column has no cell left that can take it.
    NoPlaceForValue,
    /// A whole pass of the techniques left the grid as it was, so further passes would repeat it.
    Stuck,
}

/// How many placements of each value were counted: `counts[v - 1]` is the count of `v`.
#[derive(Clone, Copy, Debug)]
pub struct ValueList {
    pub counts: [u32; 9],
}

/// A nine by nine grid of cells, stored row by row (`grid[y][x]`).
#[derive(Clone, Copy, Debug)]
pub struct SudokuGrid {
    pub grid: [[SudokuCell; 9]; 9],
    pub solved_cell_ct: u32,
    pub definite_values: ValueList,
    pub solved: bool,
}

/// `1` when `b` holds, else `0`.
pub open spec fn ind(b: bool) -> nat {
    if b { 1 } else { 0 }
}

/// The flat index `9 * y + x` of the cell at column `x` and row `y`.
pub proof fn lemma_flat_index(x: int, y: int)
    requires
        0 <= x < 9,
        0 <= y < 9,
    ensures
        (9 * y + x) % 9 == x,
        (9 * y + x) / 9 == y,
        0 <= 9 * y + x < 81,
{
    assert((9 * y + x) % 9 == x && (9 * y + x) / 9 == y) by (nonlinear_arith)
        requires 0 <= x < 9, 0 <= y < 9;
}

/// A flat index splits into column `k % 9` and row `k / 9`.
pub proof fn lemma_flat_split(k: int)
    requires
        0 <= k < 81,
    ensures
        0 <= k % 9 < 9,
        0 <= k / 9 < 9,
        k == 9 * (k / 9) + k % 9,
{
    assert(0 <= k % 9 < 9 && 0 <= k / 9 < 9 && k == 9 * (k / 9) + k % 9) by (nonlinear_arith)
        requires 0 <= k < 81;
}

impl SudokuGrid {
    /// The cell at column `x` and row `y`.
    pub open spec fn cell(self, x: int, y: int) -> SudokuCell {
        self.grid@[y]@[x]
    }

    /// The cell with flat index `k` (row by row).
    pub open spec fn flat_cell(self, k: int) -> SudokuCell {
        self.cell(k % 9, k / 9)
    }

    /// The value of the cell with flat index `k` (row by row).
    pub open spec fn value_at(self, k: int) -> u32 {
        self.cell(k % 9, k / 9).value_as_int
    }

    /// How many of the first `n` cells (row by row) hold `v`.
    pub open spec fn count_upto(self, v: u32, n: nat) -> nat
        decreases n,
    {
        if n == 0 {
            0
        } else {
            self.count_upto(v, (n - 1) as nat) + ind(self.value_at(n - 1) == v)
        }
    }

    /// How many of the first `n` cells (row by row) hold a value.
    pub open spec fn placed_upto(self, n: nat) -> nat
        decreases n,
    {
        if n == 0 {
            0
        } else {
            self.placed_upto((n - 1) as nat) + ind(self.value_at(n - 1) != 0)
        }
    }

    /// How many cells of the grid hold `v`.
    pub open spec fn value_count(self, v: u32) -> nat {
        self.count_upto(v, 81)
    }

    /// How many cells of the grid hold a value.
    pub open spec fn placed_count(self) -> nat {
        self.placed_upto(81)
    }

    /// Every cell holds a value.
    pub open spec fn all_placed(self) -> bool {
        forall|x: int, y: int| 0 <= x < 9 && 0 <= y < 9 ==> (#[trigger] self.cell(x, y)).defined
    }

    /// The nine counters added up.
    pub open spec fn counter_total(self) -> int {
        let c = self.definite_values.counts@;
        c[0] + c[1] + c[2] + c[3] + c[4] + c[5] + c[6] + c[7] + c[8]
    }

    /// Well-formedness: each cell is well formed, and the counters have room, in total, to
    /// count every cell that is still open.
    pub open spec fn wf(self) -> bool {
        &&& forall|x: int, y: int| 0 <= x < 9 && 0 <= y < 9 ==> (#[trigger] self.cell(x, y)).wf()
        &&& self.counter_total() + 81 <= u32::MAX + self.placed_count()
    }

    /// The counters agree with the cells: `counts[v - 1]` is how many cells hold `v`.
    pub open spec fn counted(self) -> bool {
        forall|v: u32| 1 <= v <= 9 ==> self.definite_values.counts@[v - 1] == #[trigger] self.value_count(v)
    }

    /// The cells of row `y`, left to right.
    pub open spec fn row_cells(self, y: int) -> Seq<SudokuCell> {
        self.grid@[y]@
    }

    /// The cells of column `x`, top to bottom.
    pub open spec fn col_cells(self, x: int) -> Seq<SudokuCell> {
        Seq::new(9, |y: int| self.grid@[y]@[x])
    }
}

/// Counting never exceeds the number of cells looked at.
pub proof fn lemma_count_bound(g: SudokuGrid, v: u32, n: nat)
    ensures
        g.count_upto(v, n) <= n,
        g.placed_upto(n) <= n,
    decreases n,
{
    if n > 0 {
        lemma_count_bound(g, v, (n - 1) as nat);
    }
}

/// When no cell among the first `n` holds `v`, none is counted.
pub proof fn lemma_count_zero(g: SudokuGrid, v: u32, n: nat)
    requires
        forall|k: int| 0 <= k < n ==> g.value_at(k) != v,
    ensures
        g.count_upto(v, n) == 0,
    decreases n,
{
    if n > 0 {
        lemma_count_zero(g, v, (n - 1) as nat);
    }
}

/// Changing the value of one cell (flat index `k0`) changes each count by that cell alone.
pub proof fn lemma_count_change(g1: SudokuGrid, g2: SudokuGrid, k0: int, n: nat)
    requires
        0 <= k0 < 81,
        n <= 81,
        forall|k: int| 0 <= k < 81 && k != k0 ==> g1.value_at(k) == g2.value_at(k),
    ensures
        forall|v: u32| #[trigger] g2.count_upto(v, n) + ind(k0 < n && g1.value_at(k0) == v)
            == g1.count_upto(v, n) + ind(k0 < n && g2.value_at(k0) == v),
        g2.placed_upto(n) + ind(k0 < n && g1.value_at(k0) != 0) == g1.placed_upto(n) + ind(k0 < n && g2.value_at(k0) != 0),
    decreases n,
{
    if n > 0 {
        let m = (n - 1) as nat;
        lemma_count_change(g1, g2, k0, m);
        assert forall|v: u32| #[trigger] g2.count_upto(v, n) + ind(k0 < n && g1.value_at(k0) == v)
            == g1.count_upto(v, n) + ind(k0 < n && g2.value_at(k0) == v) by {
            assert(g2.count_upto(v, m) + ind(k0 < m && g1.value_at(k0) == v)
                == g1.count_upto(v, m) + ind(k0 < m && g2.value_at(k0) == v));
        }
    }
}

/// Grids whose cells hold the same values have the same counts.
pub proof fn lemma_count_same(g1: SudokuGrid, g2: SudokuGrid, n: nat)
    requires
        n <= 81,
        forall|k: int| 0 <= k < 81 ==> g1.value_at(k) == g2.value_at(k),
    ensures
        forall|v: u32| #[trigger] g2.count_upto(v, n) == g1.count_upto(v, n),
        g2.placed_upto(n) == g1.placed_upto(n),
    decreases n,
{
    if n > 0 {
        let m = (n - 1) as nat;
        lemma_count_same(g1, g2, m);
        assert forall|v: u32| #[trigger] g2.count_upto(v, n) == g1.count_upto(v, n) by {
            assert(g2.count_upto(v, m) == g1.count_upto(v, m));
        }
    }
}

/// The sum over the nine values of their counts among the first `n` cells.
pub open spec fn counts_sum(g: SudokuGrid, n: nat) -> nat {
    g.count_upto(1, n) + g.count_upto(2, n) + g.count_upto(3, n) + g.count_upto(4, n) + g.count_upto(5, n)
        + g.count_upto(6, n) + g.count_upto(7, n) + g.count_upto(8, n) + g.count_upto(9, n)
}

/// With every value at most 9, the counts of the nine values add up to the placed cells.
pub proof fn lemma_counts_sum(g: SudokuGrid, n: nat)
    requires
        n <= 81,
        forall|k: int| 0 <= k < 81 ==> g.value_at(k) <= 9,
    ensures
        counts_sum(g, n) == g.placed_upto(n),
    decreases n,
{
    if n > 0 {
        lemma_counts_sum(g, (n - 1) as nat);
    }
}

/// When the counters agree with the cells, they add up to the number of placed cells.
pub proof fn lemma_counted_total(g: SudokuGrid)
    requires
        g.wf(),
        g.counted(),
    ensures
        g.counter_total() == g.placed_count(),
{
    assert forall|k: int| 0 <= k < 81 implies g.value_at(k) <= 9 by {
        lemma_flat_split(k);
        assert(g.cell(k % 9, k / 9).wf());
    }
    lemma_counts_sum(g, 81);
    assert(g.definite_values.counts@[1 - 1] == g.value_count(1));
    assert(g.definite_values.counts@[2 - 1] == g.value_count(2));
    assert(g.definite_values.counts@[3 - 1] == g.value_count(3));
    assert(g.definite_values.counts@[4 - 1] == g.value_count(4));
    assert(g.definite_values.counts@[5 - 1] == g.value_count(5));
    assert(g.definite_values.counts@[6 - 1] == g.value_count(6));
    assert(g.definite_values.counts@[7 - 1] == g.value_count(7));
    assert(g.definite_values.counts@[8 - 1] == g.value_count(8));
    assert(g.definite_values.counts@[9 - 1] == g.value_count(9));
}

/// The first `n` cells all hold a value exactly when `n` of them are counted as placed.
pub proof fn lemma_placed_full(g: SudokuGrid, n: nat)
    requires
        n <= 81,
    ensures
        g.placed_upto(n) == n <==> (forall|k: int| 0 <= k < n ==> g.value_at(k) != 0),
    decreases n,
{
    if n > 0 {
        lemma_placed_full(g, (n - 1) as nat);
        lemma_count_bound(g, 0, (n - 1) as nat);
    }
}

/// In a well-formed grid, all 81 cells are placed exactly when every cell is defined.
pub proof fn lemma_all_placed(g: SudokuGrid)
    requires
        g.wf(),
    ensures
        g.placed_count() == 81 <==> g.all_placed(),
{
    lemma_placed_full(g, 81);
    if g.placed_count() == 81 {
        assert forall|x: int, y: int| 0 <= x < 9 && 0 <= y < 9 implies (#[trigger] g.cell(x, y)).defined by {
            lemma_flat_index(x, y);
            assert(g.value_at(9 * y + x) != 0);
        }
    }
    if g.all_placed() {
        assert forall|k: int| 0 <= k < 81 implies g.value_at(k) != 0 by {
            lemma_flat_split(k);
            assert(g.cell(k % 9, k / 9).defined);
        }
    }
}

/// Cell `b` is a later state of cell `a`: a defined cell stays as it is, and an open cell
/// either gets defined or keeps its place and labels with only fewer possible values.
pub open spec fn cell_narrows(a: SudokuCell, b: SudokuCell) -> bool {
    if a.defined {
        b == a
    } else {
        b.defined || {
            &&& b.value_as_int == a.value_as_int
            &&& b.coordinate == a.coordinate
            &&& forall|i: int| 0 <= i < 9 ==> (#[trigger] b.states@[i]).1 == a.states@[i].1
                && (b.states@[i].0 == ValueStatus::Possible ==> a.states@[i].0 == ValueStatus::Possible)
        }
    }
}

/// Grid `b` keeps what grid `a` settled: each cell narrows, the flags stay, and cells that
/// carried their own positions as coordinates still do.
pub open spec fn shrinks(a: SudokuGrid, b: SudokuGrid) -> bool {
    &&& forall|x: int, y: int| 0 <= x < 9 && 0 <= y < 9 ==> cell_narrows(a.cell(x, y), #[trigger] b.cell(x, y))
    &&& b.solved_cell_ct == a.solved_cell_ct
    &&& b.solved == a.solved
    &&& a.at_home() ==> b.at_home()
    &&& counts_kept(a, b)
}

/// Each counter of `b` is ahead of its count of cells by as much as in `a`: the counters
/// moved exactly as the cells did.
pub open spec fn counts_kept(a: SudokuGrid, b: SudokuGrid) -> bool {
    forall|v: u32| 1 <= v <= 9 ==> b.definite_values.counts@[v - 1] + a.value_count(v)
        == a.definite_values.counts@[v - 1] + #[trigger] b.value_count(v)
}

/// Counters that agree with the cells still agree after the grid shrinks.
pub proof fn lemma_counted_shrinks(a: SudokuGrid, b: SudokuGrid)
    requires
        a.counted(),
        shrinks(a, b),
    ensures
        b.counted(),
{
    assert forall|v: u32| 1 <= v <= 9 implies b.definite_values.counts@[v - 1] == #[trigger] b.value_count(v) by {
        assert(a.definite_values.counts@[v - 1] == a.value_count(v));
    }
}

/// Grid `b` is a later state of grid `a`: it shrinks from `a`, and when the cells of `a` carry
/// their positions, every placed value still possible in an open peer in `b` already was in `a`.
pub open spec fn narrows(a: SudokuGrid, b: SudokuGrid) -> bool {
    &&& shrinks(a, b)
    &&& a.at_home() ==> no_new_conflicts(a, b)
}

/// Every grid narrows to itself.
pub proof fn lemma_narrows_refl(a: SudokuGrid)
    ensures
        narrows(a, a),
{
}

/// Shrinking composes.
pub proof fn lemma_shrinks_trans(a: SudokuGrid, b: SudokuGrid, c: SudokuGrid)
    requires
        shrinks(a, b),
        shrinks(b, c),
    ensures
        shrinks(a, c),
{
    assert forall|x: int, y: int| 0 <= x < 9 && 0 <= y < 9 implies cell_narrows(a.cell(x, y), #[trigger] c.cell(x, y)) by {
        assert(cell_narrows(a.cell(x, y), b.cell(x, y)));
        assert(cell_narrows(b.cell(x, y), c.cell(x, y)));
    }
    assert forall|v: u32| 1 <= v <= 9 implies c.definite_values.counts@[v - 1] + a.value_count(v)
        == a.definite_values.counts@[v - 1] + #[trigger] c.value_count(v) by {
        assert(b.definite_values.counts@[v - 1] + a.value_count(v) == a.definite_values.counts@[v - 1] + b.value_count(v));
        assert(c.definite_values.counts@[v - 1] + b.value_count(v) == b.definite_values.counts@[v - 1] + c.value_count(v));
    }
}

/// A settled grid with positions as coordinates stays settled as it narrows.
pub proof fn lemma_settled_narrows(a: SudokuGrid, b: SudokuGrid)
    requires
        settled(a),
        a.at_home(),
        narrows(a, b),
    ensures
        settled(b),
{
    assert forall|px: int, py: int, qx: int, qy: int| !#[trigger] conflict(b, px, py, qx, qy) by {
        if conflict(b, px, py, qx, qy) {
            assert(conflict(a, px, py, qx, qy));
        }
    }
}

/// Narrowing composes.
pub proof fn lemma_narrows_trans(a: SudokuGrid, b: SudokuGrid, c: SudokuGrid)
    requires
        narrows(a, b),
        narrows(b, c),
    ensures
        narrows(a, c),
{
    lemma_shrinks_trans(a, b, c);
    if a.at_home() {
        assert forall|px: int, py: int, qx: int, qy: int| #[trigger] conflict(c, px, py, qx, qy) implies conflict(a, px, py, qx, qy) by {
            assert(conflict(b, px, py, qx, qy));
        }
    }
}

/// Narrowing never unplaces a cell: the placed count grows, and strictly when an open
/// cell among the first `n` got a value.
pub proof fn lemma_narrows_placed_upto(a: SudokuGrid, b: SudokuGrid, n: nat)
    requires
        a.wf(),
        b.wf(),
        narrows(a, b),
        n <= 81,
    ensures
        b.placed_upto(n) >= a.placed_upto(n),
        (exists|k: int| 0 <= k < n && a.value_at(k) == 0 && b.value_at(k) != 0) ==> b.placed_upto(n) > a.placed_upto(n),
    decreases n,
{
    if n > 0 {
        let m = (n - 1) as nat;
        lemma_narrows_placed_upto(a, b, m);
        let k = n - 1;
        lemma_flat_split(k);
        assert(a.cell(k % 9, k / 9).wf());
        assert(b.cell(k % 9, k / 9).wf());
        assert(cell_narrows(a.cell(k % 9, k / 9), b.cell(k % 9, k / 9)));
        if exists|j: int| 0 <= j < n && a.value_at(j) == 0 && b.value_at(j) != 0 {
            let j = choose|j: int| 0 <= j < n && a.value_at(j) == 0 && b.value_at(j) != 0;
            if j < m {
                assert(exists|j2: int| 0 <= j2 < m && a.value_at(j2) == 0 && b.value_at(j2) != 0);
            }
        }
    }
}

/// Narrowing never unplaces a cell; placing an open cell strictly grows the placed count.
pub proof fn lemma_narrows_placed(a: SudokuGrid, b: SudokuGrid)
    requires
        a.wf(),
        b.wf(),
        narrows(a, b),
    ensures
        b.placed_count() >= a.placed_count(),
        forall|x: int, y: int| 0 <= x < 9 && 0 <= y < 9 && !a.cell(x, y).defined && (#[trigger] b.cell(x, y)).defined
            ==> b.placed_count() > a.placed_count(),
{
    lemma_narrows_placed_upto(a, b, 81);
    assert forall|x: int, y: int| 0 <= x < 9 && 0 <= y < 9 && !a.cell(x, y).defined && (#[trigger] b.cell(x, y)).defined
        implies b.placed_count() > a.placed_count() by {
        lemma_flat_index(x, y);
        assert(a.cell(x, y).wf() && b.cell(x, y).wf());
        assert(a.value_at(9 * y + x) == 0 && b.value_at(9 * y + x) != 0);
    }
}

/// Striking a value from a well-formed cell, when it does not empty the cell, keeps the
/// cell well formed, narrows it, leaves a defined cell as it was, and reports a value 1 to 9.
pub proof fn lemma_strike_cell(c: SudokuCell, v: u32, c2: SudokuCell)
    requires
        c.wf(),
        !c.strike_empties(v),
        c2.states@ == c.struck_states(v),
        c2.defined == c.defined,
        c2.value_as_int == c.value_as_int,
        c2.coordinate == c.coordinate,
    ensures
        c2.wf(),
        cell_narrows(c, c2),
        c.defined ==> c2 == c,
        c.strike_outcome(v).0 ==> 1 <= c.strike_outcome(v).1 <= 9,
{
    let st = c.struck_states(v);
    lemma_values_with(st, ValueStatus::Possible, 9);
    lemma_values_with(st, ValueStatus::Impossible, 9);
    if c.defined {
        if 1 <= v <= 9 && v == c.value_as_int {
            assert forall|i: int| 0 <= i < 9 implies st[i].0 == ValueStatus::Impossible by {}
            if values_with(st, ValueStatus::Possible, 9).len() > 0 {
                assert(st[values_with(st, ValueStatus::Possible, 9)[0] - 1].0 == ValueStatus::Possible);
            }
            assert(false);
        }
        assert(st =~= c.states@);
        assert(c2.states =~= c.states);
    }
}

/// Some open cell of `g` has a single possible value left, whose strike was refused.
pub open spec fn open_emptied(g: SudokuGrid) -> bool {
    exists|x: int, y: int, v: u32| 0 <= x < 9 && 0 <= y < 9 && !g.cell(x, y).defined && #[trigger] g.cell(x, y).strike_empties(v)
}

/// Some cell of `g` would be left with no value by striking some value from it.
pub open spec fn emptiable(g: SudokuGrid) -> bool {
    exists|x: int, y: int, v: u32| 0 <= x < 9 && 0 <= y < 9 && #[trigger] g.cell(x, y).strike_empties(v)
}

impl SudokuGrid {
    /// Marks `value` impossible in the cell at column `x`, row `y`, and reports as
    /// `set_impossible` does; refuses when that would leave the cell with no value.
    pub fn strike(&mut self, x: u32, y: u32, value: u32) -> (r: Result<(bool, u32), SolveError>)
        requires
            old(self).wf(),
            x < 9,
            y < 9,
        ensures
            r matches Err(e) ==> e == SolveError::CellEmptied,
            r is Err ==> emptiable(*final(self)),
            final(self).wf(),
            narrows(*old(self), *final(self)),
            r is Err <==> old(self).cell(x as int, y as int).strike_empties(value),
            r is Err ==> *final(self) == *old(self),
            r matches Ok(p) ==> p == old(self).cell(x as int, y as int).strike_outcome(value) && (p.0 ==> 1 <= p.1 <= 9),
            r is Ok ==> final(self).cell(x as int, y as int).states@ == old(self).cell(x as int, y as int).struck_states(value),
            final(self).cell(x as int, y as int).defined == old(self).cell(x as int, y as int).defined,
            final(self).cell(x as int, y as int).value_as_int == old(self).cell(x as int, y as int).value_as_int,
            final(self).cell(x as int, y as int).coordinate == old(self).cell(x as int, y as int).coordinate,
            forall|sol: Seq<Seq<u32>>| is_solution(sol) && #[trigger] agrees(*old(self), sol) && sol[y as int][x as int] != value
                ==> r is Ok && agrees(*final(self), sol),
            forall|i: int, j: int| 0 <= i < 9 && 0 <= j < 9 && !(i == x && j == y) ==> #[trigger] final(self).cell(i, j) == old(self).cell(i, j),
            forall|k: int| 0 <= k < 81 ==> #[trigger] final(self).value_at(k) == old(self).value_at(k),
            final(self).placed_count() == old(self).placed_count(),
    {
        let xu = x as usize;
        let yu = y as usize;
        let c = self.grid[yu][xu];
        if c.strike_would_empty(value) {
            proof {
                assert forall|sol: Seq<Seq<u32>>| is_solution(sol) && #[trigger] agrees(*self, sol) && sol[y as int][x as int] != value
                    implies false by {
                    lemma_strike_keeps(*self, *self, x as int, y as int, value, sol);
                }
                assert(self.cell(x as int, y as int).strike_empties(value));
            }
            return Err(SolveError::CellEmptied);
        }
        let mut c2 = c;
        let p = c2.set_impossible(value);
        let ghost before = *self;
        self.grid[yu][xu] = c2;
        proof {
            assert(c == before.cell(x as int, y as int));
            assert(before.cell(x as int, y as int).wf());
            lemma_strike_cell(c, value, c2);
            assert forall|k: int| 0 <= k < 81 implies before.value_at(k) == self.value_at(k) by {
                lemma_flat_split(k);
            }
            lemma_count_same(before, *self, 81);
            assert forall|i: int, j: int| 0 <= i < 9 && 0 <= j < 9 implies (#[trigger] self.cell(i, j)).wf() by {
                assert(before.cell(i, j).wf());
            }
            assert forall|i: int, j: int| 0 <= i < 9 && 0 <= j < 9 implies cell_narrows(before.cell(i, j), #[trigger] self.cell(i, j)) by {}
            assert forall|px: int, py: int, qx: int, qy: int| #[trigger] conflict(*self, px, py, qx, qy)
                implies conflict(before, px, py, qx, qy) by {
                let k = (self.cell(px, py).value_as_int - 1) as int;
                if qx == x && qy == y {
                    assert(self.cell(qx, qy).states@[k] == c.struck_states(value)[k]);
                }
            }
            assert forall|sol: Seq<Seq<u32>>| is_solution(sol) && #[trigger] agrees(before, sol) && sol[y as int][x as int] != value
                implies agrees(*self, sol) by {
                lemma_strike_keeps(before, *self, x as int, y as int, value, sol);
            }
        }
        Ok(p)
    }
}

/// An open copy of `c`: not defined, value 0, same states and coordinate.
pub open spec fn reopened(c: SudokuCell) -> SudokuCell {
    SudokuCell { defined: false, value_as_int: 0, ..c }
}

impl SudokuGrid {
    /// The nine cells of the box whose top-left cell is at column `bx`, row `by`, row by row.
    pub open spec fn box_cells(self, bx: int, by: int) -> Seq<SudokuCell> {
        Seq::new(9, |k: int| self.cell(bx + k % 3, by + k / 3))
    }

    /// An empty grid: every cell open with all values possible, at coordinate (0, 0).
    pub fn new() -> (g: SudokuGrid)
        ensures
            g.wf(),
            g.counted(),
            forall|x: int, y: int| 0 <= x < 9 && 0 <= y < 9 ==> {
                &&& !(#[trigger] g.cell(x, y)).defined
                &&& g.cell(x, y).value_as_int == 0
                &&& g.cell(x, y).states@ == initial_states(0)
                &&& g.cell(x, y).coordinate == (Coordinate { x: 0, y: 0 })
            },
            forall|i: int| 0 <= i < 9 ==> g.definite_values.counts@[i] == 0,
            g.solved_cell_ct == 0,
            !g.solved,
    {
        let c = SudokuCell::new(0, 0, 0);
        let row = [c; 9];
        let g = SudokuGrid {
            grid: [row; 9],
            solved_cell_ct: 0,
            definite_values: ValueList { counts: [0u32; 9] },
            solved: false,
        };
        proof {
            assert forall|x: int, y: int| 0 <= x < 9 && 0 <= y < 9 implies #[trigger] g.cell(x, y) == c by {
                assert(g.grid@[y] == row);
            }
            assert forall|x: int, y: int| 0 <= x < 9 && 0 <= y < 9 implies (#[trigger] g.cell(x, y)).wf() by {
                assert(g.cell(x, y) == c);
                assert forall|i: int| 0 <= i < 9 implies #[trigger] c.states@[i].0 != ValueStatus::Actual by {
                    assert(c.states@[i] == initial_states(0)[i]);
                }
                assert forall|i: int| 0 <= i < 9 implies #[trigger] c.states@[i].1 == i + 1 by {
                    assert(c.states@[i] == initial_states(0)[i]);
                }
            }
            assert forall|v: u32| 1 <= v <= 9 implies g.definite_values.counts@[v - 1] == #[trigger] g.value_count(v) by {
                assert forall|k: int| 0 <= k < 81 implies g.value_at(k) != v by {
                    lemma_flat_split(k);
                    assert(g.cell(k % 9, k / 9) == c);
                }
                lemma_count_zero(g, v, 81);
            }
            lemma_count_bound(g, 0, 81);
        }
        g
    }

    /// The nine counters, `r[v - 1]` being the count of `v`.
    pub fn get_def_val_ct(&self) -> (r: [u32; 9])
        ensures
            r@ == self.definite_values.counts@,
    {
        let mut def_vals = [0u32; 9];
        let mut i: usize = 0;
        while i < 9
            invariant
                i <= 9,
                forall|j: int| 0 <= j < i ==> def_vals@[j] == self.definite_values.counts@[j],
            decreases 9 - i,
        {
            def_vals[i] = self.definite_values.counts[i];
            i += 1;
        }
        assert(def_vals@ =~= self.definite_values.counts@);
        def_vals
    }

    /// Adds one to the counter of `value` (nothing for a value outside 1 to 9).
    pub fn inc_val_by_int(&mut self, value: u32)
        requires
            1 <= value <= 9 ==> old(self).definite_values.counts@[value - 1] < u32::MAX,
        ensures
            final(self).definite_values.counts@ == (if 1 <= value <= 9 {
                old(self).definite_values.counts@.update(value - 1, (old(self).definite_values.counts@[value - 1] + 1) as u32)
            } else {
                old(self).definite_values.counts@
            }),
            final(self).grid == old(self).grid,
            final(self).solved_cell_ct == old(self).solved_cell_ct,
            final(self).solved == old(self).solved,
    {
        if 1 <= value && value <= 9 {
            let i = (value - 1) as usize;
            self.definite_values.counts[i] = self.definite_values.counts[i] + 1;
        }
    }

    /// The counter of `value` (0 for a value outside 1 to 9).
    pub fn get_val_by_int(&mut self, value: u32) -> (r: u32)
        ensures
            *final(self) == *old(self),
            r == (if 1 <= value <= 9 { old(self).definite_values.counts@[value - 1] } else { 0 }),
    {
        if 1 <= value && value <= 9 {
            self.definite_values.counts[(value - 1) as usize]
        } else {
            0
        }
    }

    /// The cells of column `x` that hold a value, top to bottom.
    pub fn get_vals_in_col(&self, x: u32) -> (numbers: Vec<SudokuCell>)
        requires
            x < 9,
        ensures
            numbers@ == cells_with_value(self.col_cells(x as int)),
    {
        let x_size = x as usize;
        let mut numbers: Vec<SudokuCell> = Vec::new();
        let mut row: usize = 0;
        while row < GRID_SIZE
            invariant
                x < 9,
                x_size == x,
                row <= 9,
                numbers@ == cells_with_value(self.col_cells(x as int).subrange(0, row as int)),
            decreases 9 - row,
        {
            let cell = self.grid[row][x_size];
            assert(self.col_cells(x as int).subrange(0, row + 1).drop_last() =~= self.col_cells(x as int).subrange(0, row as int));
            if cell.value_as_int != 0 {
                numbers.push(cell);
            }
            row += 1;
        }
        assert(self.col_cells(x as int).subrange(0, 9) =~= self.col_cells(x as int));
        numbers
    }

    /// The cells of row `y` that hold a value, left to right.
    pub fn get_vals_in_row(&self, y: u32) -> (numbers: Vec<SudokuCell>)
        requires
            y < 9,
        ensures
            numbers@ == cells_with_value(self.row_cells(y as int)),
    {
        let y_size = y as usize;
        let mut numbers: Vec<SudokuCell> = Vec::new();
        let mut col: usize = 0;
        while col < GRID_SIZE
            invariant
                y < 9,
                y_size == y,
                col <= 9,
                numbers@ == cells_with_value(self.row_cells(y as int).subrange(0, col as int)),
            decreases 9 - col,
        {
            let cell = self.grid[y_size][col];
            assert(self.row_cells(y as int).subrange(0, col + 1).drop_last() =~= self.row_cells(y as int).subrange(0, col as int));
            if cell.value_as_int != 0 {
                numbers.push(cell);
            }
            col += 1;
        }
        assert(self.row_cells(y as int).subrange(0, 9) =~= self.row_cells(y as int));
        numbers
    }

    /// The cells that hold a value in the box of the grid with the corner of `g_box`, row by row.
    pub fn get_vals_in_box(&self, g_box: SudokuBox) -> (numbers: Vec<SudokuCell>)
        requires
            g_box.x <= 6,
            g_box.y <= 6,
        ensures
            numbers@ == cells_with_value(self.box_cells(g_box.x as int, g_box.y as int)),
    {
        let ghost all = self.box_cells(g_box.x as int, g_box.y as int);
        let mut numbers: Vec<SudokuCell> = Vec::new();
        let mut row: usize = 0;
        while row < 3
            invariant
                g_box.x <= 6,
                g_box.y <= 6,
                all == self.box_cells(g_box.x as int, g_box.y as int),
                row <= 3,
                numbers@ == cells_with_value(all.subrange(0, 3 * row)),
            decreases 3 - row,
        {
            let mut col: usize = 0;
            while col < 3
                invariant
                    g_box.x <= 6,
                    g_box.y <= 6,
                    all == self.box_cells(g_box.x as int, g_box.y as int),
                    row < 3,
                    col <= 3,
                    numbers@ == cells_with_value(all.subrange(0, 3 * row + col)),
                decreases 3 - col,
            {
                let cell = self.grid[row + (g_box.y as usize)][col + (g_box.x as usize)];
                proof {
                    let k = 3 * row + col;
                    assert(k / 3 == row && k % 3 == col) by (nonlinear_arith) requires k == 3 * row + col, 0 <= col < 3;
                    assert(all[k] == cell);
                    assert(all.subrange(0, k + 1).drop_last() =~= all.subrange(0, k));
                }
                if cell.value_as_int != 0 {
                    numbers.push(cell);
                }
                col += 1;
            }
            row += 1;
        }
        assert(all.subrange(0, 9) =~= all);
        numbers
    }

    /// The value of each cell of `vector`, in order.
    pub fn collect_values(&self, vector: Vec<SudokuCell>) -> (vals: Vec<u32>)
        ensures
            vals@ == values_of(vector@),
    {
        let mut vals: Vec<u32> = Vec::new();
        let mut i: usize = 0;
        while i < vector.len()
            invariant
                i <= vector.len(),
                vals@.len() == i,
                forall|j: int| 0 <= j < i ==> #[trigger] vals@[j] == vector@[j].value_as_int,
            decreases vector.len() - i,
        {
            vals.push(vector[i].value_as_int);
            i += 1;
        }
        assert(vals@ =~= values_of(vector@));
        vals
    }

    /// Open copies of the cells of `nbhd` that are not defined, in order.
    pub fn return_poss(&self, nbhd: Vec<SudokuCell>) -> (cells: Vec<SudokuCell>)
        ensures
            cells@ == open_cells(nbhd@).map_values(|c: SudokuCell| reopened(c)),
    {
        let mut cells: Vec<SudokuCell> = Vec::new();
        let mut i: usize = 0;
        while i < nbhd.len()
            invariant
                i <= nbhd.len(),
                cells@ == open_cells(nbhd@.subrange(0, i as int)).map_values(|c: SudokuCell| reopened(c)),
            decreases nbhd.len() - i,
        {
            let cell = nbhd[i];
            assert(nbhd@.subrange(0, i + 1).drop_last() =~= nbhd@.subrange(0, i as int));
            if !cell.defined {
                let fresh = SudokuCell::new_with_states(cell.coordinate.x, cell.coordinate.y, cell.get_val_stats_as_array());
                assert(fresh.states =~= cell.states);
                cells.push(fresh);
                assert(cells@ =~= open_cells(nbhd@.subrange(0, i + 1)).map_values(|c: SudokuCell| reopened(c)));
            }
            i += 1;
        }
        assert(nbhd@.subrange(0, nbhd.len() as int) =~= nbhd@);
        cells
    }
}

/// What is left to decide in a cell: nothing for a defined cell, else one plus the number
/// of values still possible.
pub open spec fn cell_potential(c: SudokuCell) -> nat {
    if c.defined { 0 } else { 1 + c.possible_values().len() }
}

/// The sum of `cell_potential` over the first `n` cells (row by row).
pub open spec fn potential_upto(g: SudokuGrid, n: nat) -> nat
    decreases n,
{
    if n == 0 {
        0
    } else {
        potential_upto(g, (n - 1) as nat) + cell_potential(g.flat_cell(n - 1))
    }
}

/// What is left to decide in the whole grid.
pub open spec fn potential(g: SudokuGrid) -> nat {
    potential_upto(g, 81)
}

/// Fewer statuses possible give fewer possible values, strictly so when one was lost.
pub proof fn lemma_possible_count(sa: Seq<(ValueStatus, u32)>, sb: Seq<(ValueStatus, u32)>, n: nat)
    requires
        n <= 9,
        sa.len() == 9,
        sb.len() == 9,
        forall|i: int| 0 <= i < 9 ==> (#[trigger] sb[i]).0 == ValueStatus::Possible ==> sa[i].0 == ValueStatus::Possible,
    ensures
        values_with(sb, ValueStatus::Possible, n).len() <= values_with(sa, ValueStatus::Possible, n).len(),
        (exists|i: int| 0 <= i < n && sa[i].0 == ValueStatus::Possible && sb[i].0 != ValueStatus::Possible)
            ==> values_with(sb, ValueStatus::Possible, n).len() < values_with(sa, ValueStatus::Possible, n).len(),
    decreases n,
{
    if n > 0 {
        let m = (n - 1) as nat;
        lemma_possible_count(sa, sb, m);
        assert(sb[m as int].0 == ValueStatus::Possible ==> sa[m as int].0 == ValueStatus::Possible);
        if exists|i: int| 0 <= i < n && sa[i].0 == ValueStatus::Possible && sb[i].0 != ValueStatus::Possible {
            let i = choose|i: int| 0 <= i < n && sa[i].0 == ValueStatus::Possible && sb[i].0 != ValueStatus::Possible;
            if i < m {
                assert(exists|j: int| 0 <= j < m && sa[j].0 == ValueStatus::Possible && sb[j].0 != ValueStatus::Possible);
            }
        }
    }
}

/// A narrowed well-formed cell has no more potential, and strictly less when it changed.
pub proof fn lemma_cell_potential(a: SudokuCell, b: SudokuCell)
    requires
        a.wf(),
        b.wf(),
        cell_narrows(a, b),
    ensures
        cell_potential(b) <= cell_potential(a),
        b != a ==> cell_potential(b) < cell_potential(a),
{
    if !a.defined && !b.defined {
        lemma_possible_count(a.states@, b.states@, 9);
        if b != a {
            if forall|i: int| 0 <= i < 9 ==> a.states@[i] == b.states@[i] {
                assert(a.states@ =~= b.states@);
                assert(a.states =~= b.states);
                assert(false);
            }
            let i = choose|i: int| 0 <= i < 9 && a.states@[i] != b.states@[i];
            assert(a.states@[i].1 == b.states@[i].1);
            assert(a.states@[i].0 != ValueStatus::Actual && b.states@[i].0 != ValueStatus::Actual);
            assert(a.states@[i].0 == ValueStatus::Possible && b.states@[i].0 != ValueStatus::Possible);
        }
    }
}

/// Narrowing never raises the potential of the first `n` cells, and lowers it when one of
/// them changed.
pub proof fn lemma_potential_upto(a: SudokuGrid, b: SudokuGrid, n: nat)
    requires
        a.wf(),
        b.wf(),
        narrows(a, b),
        n <= 81,
    ensures
        potential_upto(b, n) <= potential_upto(a, n),
        (exists|k: int| 0 <= k < n && #[trigger] b.flat_cell(k) != a.flat_cell(k)) ==> potential_upto(b, n) < potential_upto(a, n),
    decreases n,
{
    if n > 0 {
        let m = (n - 1) as nat;
        lemma_potential_upto(a, b, m);
        let k = n - 1;
        lemma_flat_split(k);
        assert(a.cell(k % 9, k / 9).wf());
        assert(b.cell(k % 9, k / 9).wf());
        assert(cell_narrows(a.cell(k % 9, k / 9), b.cell(k % 9, k / 9)));
        lemma_cell_potential(a.cell(k % 9, k / 9), b.cell(k % 9, k / 9));
        if exists|j: int| 0 <= j < n && b.flat_cell(j) != a.flat_cell(j) {
            let j = choose|j: int| 0 <= j < n && b.flat_cell(j) != a.flat_cell(j);
            if j < m {
                assert(exists|j2: int| 0 <= j2 < m && #[trigger] b.flat_cell(j2) != a.flat_cell(j2));
            }
        }
    }
}

/// Narrowing to a grid with some other cell strictly lowers the potential.
pub proof fn lemma_potential_drops(a: SudokuGrid, b: SudokuGrid)
    requires
        a.wf(),
        b.wf(),
        narrows(a, b),
        exists|x: int, y: int| 0 <= x < 9 && 0 <= y < 9 && b.cell(x, y) != a.cell(x, y),
    ensures
        potential(b) < potential(a),
{
    let (x, y) = choose|x: int, y: int| 0 <= x < 9 && 0 <= y < 9 && b.cell(x, y) != a.cell(x, y);
    lemma_flat_index(x, y);
    let k = 9 * y + x;
    assert(b.flat_cell(k) != a.flat_cell(k));
    lemma_potential_upto(a, b, 81);
}

} // verus!
