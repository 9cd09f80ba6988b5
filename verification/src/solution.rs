use vstd::prelude::*;
use crate::cell::{SudokuCell, Coordinate, ValueStatus, values_with, lemma_values_with};
use crate::grid::SudokuGrid;

verus! {

/// The first column (or row) of the box band that holds column (or row) `i`.
pub open spec fn box_of(i: int) -> int {
    if i <= 2 { 0 } else if i <= 5 { 3 } else { 6 }
}

/// Whether (`x`, `y`) lies in unit `kind` of the cell (`x0`, `y0`): its row (kind 0), its
/// column (kind 1) or its box (any other kind).
pub open spec fn in_unit(kind: int, x0: int, y0: int, x: int, y: int) -> bool {
    &&& 0 <= x < 9
    &&& 0 <= y < 9
    &&& if kind == 0 {
        y == y0
    } else if kind == 1 {
        x == x0
    } else {
        box_of(x) == box_of(x0) && box_of(y) == box_of(y0)
    }
}

/// Whether (`x1`, `y1`) and (`x2`, `y2`) are two different cells sharing a row, column or box.
pub open spec fn peers(x1: int, y1: int, x2: int, y2: int) -> bool {
    &&& !(x1 == x2 && y1 == y2)
    &&& (y1 == y2 || x1 == x2 || (box_of(x1) == box_of(x2) && box_of(y1) == box_of(y2)))
}

/// Whether `sol`, row by row, is a completed grid: values 1 to 9, never the same value in
/// two peers, and every value in every row, column and box.
pub open spec fn is_solution(sol: Seq<Seq<u32>>) -> bool {
    &&& sol.len() == 9
    &&& forall|y: int| 0 <= y < 9 ==> (#[trigger] sol[y]).len() == 9
    &&& forall|x: int, y: int| 0 <= x < 9 && 0 <= y < 9 ==> 1 <= #[trigger] sol[y][x] <= 9
    &&& forall|x1: int, y1: int, x2: int, y2: int|
        #![trigger sol[y1][x1], sol[y2][x2]]
        0 <= x1 < 9 && 0 <= y1 < 9 && 0 <= x2 < 9 && 0 <= y2 < 9 && peers(x1, y1, x2, y2)
            ==> sol[y1][x1] != sol[y2][x2]
    &&& forall|kind: int, x0: int, y0: int, v: u32| 0 <= x0 < 9 && 0 <= y0 < 9 && 1 <= v <= 9
        ==> #[trigger] unit_holds(sol, kind, x0, y0, v)
}

/// Some cell of unit `kind` of (`x0`, `y0`) holds `v` in `sol`.
pub open spec fn unit_holds(sol: Seq<Seq<u32>>, kind: int, x0: int, y0: int, v: u32) -> bool {
    exists|x: int, y: int| in_unit(kind, x0, y0, x, y) && #[trigger] sol[y][x] == v
}

/// Cell `c` is compatible with the value `v`: a placed cell holds it, an open cell keeps it possible.
pub open spec fn cell_agrees(c: SudokuCell, v: u32) -> bool {
    if c.defined {
        c.value_as_int == v
    } else {
        c.states@[v - 1].0 == ValueStatus::Possible
    }
}

/// Every cell of `g` is compatible with the solution `sol`.
pub open spec fn agrees(g: SudokuGrid, sol: Seq<Seq<u32>>) -> bool {
    forall|x: int, y: int| 0 <= x < 9 && 0 <= y < 9 ==> cell_agrees(#[trigger] g.cell(x, y), sol[y][x])
}

impl SudokuGrid {
    /// Every cell carries its own position as its coordinate.
    pub open spec fn at_home(self) -> bool {
        forall|x: int, y: int| 0 <= x < 9 && 0 <= y < 9 ==> (#[trigger] self.cell(x, y)).coordinate == (Coordinate { x: x as u32, y: y as u32 })
    }
}

/// In `g` the value placed at (`px`, `py`) is still possible in its open peer (`qx`, `qy`).
pub open spec fn conflict(g: SudokuGrid, px: int, py: int, qx: int, qy: int) -> bool {
    &&& 0 <= px < 9
    &&& 0 <= py < 9
    &&& 0 <= qx < 9
    &&& 0 <= qy < 9
    &&& peers(px, py, qx, qy)
    &&& g.cell(px, py).defined
    &&& !g.cell(qx, qy).defined
    &&& g.cell(qx, qy).states@[g.cell(px, py).value_as_int - 1].0 == ValueStatus::Possible
}

/// No placed value is still possible in an open peer.
pub open spec fn settled(g: SudokuGrid) -> bool {
    forall|px: int, py: int, qx: int, qy: int| !#[trigger] conflict(g, px, py, qx, qy)
}

/// Every conflict of `b` is a conflict of `a`.
pub open spec fn no_new_conflicts(a: SudokuGrid, b: SudokuGrid) -> bool {
    forall|px: int, py: int, qx: int, qy: int| #[trigger] conflict(b, px, py, qx, qy) ==> conflict(a, px, py, qx, qy)
}

/// The column of the cell at index `i` (0 to 8) of unit `kind` of (`cx`, _).
pub open spec fn unit_x(kind: int, cx: int, i: int) -> int {
    if kind == 0 { i } else if kind == 1 { cx } else { box_of(cx) + i % 3 }
}

/// The row of the cell at index `i` (0 to 8) of unit `kind` of (_, `cy`).
pub open spec fn unit_y(kind: int, cy: int, i: int) -> int {
    if kind == 0 { cy } else if kind == 1 { i } else { box_of(cy) + i / 3 }
}

impl SudokuGrid {
    /// The nine cells of unit `kind` (row, column or box) of the cell at (`cx`, `cy`).
    pub open spec fn unit_cells(self, kind: int, cx: int, cy: int) -> Seq<SudokuCell> {
        if kind == 0 {
            self.row_cells(cy)
        } else if kind == 1 {
            self.col_cells(cx)
        } else {
            self.box_cells(box_of(cx), box_of(cy))
        }
    }
}

/// `nbhd` holds the cells of the row, the column or the box of (`cx`, `cy`) in `g`.
pub open spec fn is_unit_of(g: SudokuGrid, nbhd: Seq<SudokuCell>, cx: int, cy: int) -> bool {
    exists|kind: int| 0 <= kind < 3 && nbhd == g.unit_cells(kind, cx, cy)
}

/// The cells of a unit sit at nine different positions of that unit, one per index.
pub proof fn lemma_unit_cells(g: SudokuGrid, kind: int, cx: int, cy: int)
    requires
        0 <= kind < 3,
        0 <= cx < 9,
        0 <= cy < 9,
    ensures
        g.unit_cells(kind, cx, cy).len() == 9,
        in_unit(kind, cx, cy, cx, cy),
        forall|i: int| 0 <= i < 9 ==> #[trigger] g.unit_cells(kind, cx, cy)[i] == g.cell(unit_x(kind, cx, i), unit_y(kind, cy, i))
            && in_unit(kind, cx, cy, unit_x(kind, cx, i), unit_y(kind, cy, i)),
        forall|i: int, j: int| 0 <= i < 9 && 0 <= j < 9 && i != j
            ==> !(unit_x(kind, cx, i) == unit_x(kind, cx, j) && unit_y(kind, cy, i) == unit_y(kind, cy, j)),
{
    assert forall|i: int| 0 <= i < 9 implies #[trigger] g.unit_cells(kind, cx, cy)[i] == g.cell(unit_x(kind, cx, i), unit_y(kind, cy, i))
        && in_unit(kind, cx, cy, unit_x(kind, cx, i), unit_y(kind, cy, i)) by {
        assert(0 <= i % 3 < 3 && 0 <= i / 3 < 3) by (nonlinear_arith)
            requires 0 <= i < 9;
    }
    assert forall|i: int, j: int| 0 <= i < 9 && 0 <= j < 9 && i != j
        implies !(unit_x(kind, cx, i) == unit_x(kind, cx, j) && unit_y(kind, cy, i) == unit_y(kind, cy, j)) by {
        if kind == 2 {
            assert(i == 3 * (i / 3) + i % 3 && j == 3 * (j / 3) + j % 3) by (nonlinear_arith)
                requires 0 <= i < 9, 0 <= j < 9;
        }
    }
}

/// Two different cells of one unit are peers.
pub proof fn lemma_unit_peers(kind: int, cx: int, cy: int, ax: int, ay: int, bx: int, by: int)
    requires
        0 <= kind < 3,
        in_unit(kind, cx, cy, ax, ay),
        in_unit(kind, cx, cy, bx, by),
        !(ax == bx && ay == by),
    ensures
        peers(ax, ay, bx, by),
{
}

/// A strike of a value that the solution does not have at that cell keeps the solution:
/// it cannot empty the cell, and the struck cell stays compatible.
pub proof fn lemma_strike_keeps(g: SudokuGrid, g2: SudokuGrid, x: int, y: int, v: u32, sol: Seq<Seq<u32>>)
    requires
        g.wf(),
        0 <= x < 9,
        0 <= y < 9,
        is_solution(sol),
        sol[y][x] != v,
        agrees(g, sol),
    ensures
        !g.cell(x, y).strike_empties(v),
        g2.cell(x, y).states@ == g.cell(x, y).struck_states(v)
            && g2.cell(x, y).defined == g.cell(x, y).defined
            && g2.cell(x, y).value_as_int == g.cell(x, y).value_as_int
            && (forall|i: int, j: int| 0 <= i < 9 && 0 <= j < 9 && !(i == x && j == y) ==> #[trigger] g2.cell(i, j) == g.cell(i, j))
            ==> agrees(g2, sol),
{
    let c = g.cell(x, y);
    let s = sol[y][x];
    assert(cell_agrees(c, s));
    assert(1 <= s <= 9);
    let st = c.struck_states(v);
    assert(st[s - 1] == c.states@[s - 1]);
    assert(c.wf());
    lemma_values_with(st, ValueStatus::Impossible, 9);
    if c.strike_empties(v) {
        assert(values_with(st, ValueStatus::Impossible, 9).len() == 9);
        assert(st[s - 1].0 == ValueStatus::Impossible);
    }
    if g2.cell(x, y).states@ == g.cell(x, y).struck_states(v)
        && g2.cell(x, y).defined == g.cell(x, y).defined
        && g2.cell(x, y).value_as_int == g.cell(x, y).value_as_int
        && (forall|i: int, j: int| 0 <= i < 9 && 0 <= j < 9 && !(i == x && j == y) ==> #[trigger] g2.cell(i, j) == g.cell(i, j)) {
        assert forall|i: int, j: int| 0 <= i < 9 && 0 <= j < 9 implies cell_agrees(#[trigger] g2.cell(i, j), sol[j][i]) by {
            if !(i == x && j == y) {
                assert(cell_agrees(g.cell(i, j), sol[j][i]));
            }
        }
    }
}

} // verus!
