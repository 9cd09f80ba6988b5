use vstd::prelude::*;
use crate::candidates::{same_grid_cells, lemma_same_cells_seen, lemma_narrows_between};
use crate::cell::{SudokuCell, Coordinate, ValueStatus, lemma_values_with, values_of, open_cells, lemma_cell_filters, cells_with_value,
    lemma_open_cells_has, lemma_cells_with_value_has};
use crate::grid::{emptiable, open_emptied, SudokuGrid, SolveError, GRID_SIZE, GRID_SIZE_I, narrows, lemma_narrows_trans, lemma_narrows_refl, shrinks, lemma_shrinks_trans, cell_narrows};
use crate::sbox::{SudokuBox, box_start};
use crate::util::contains_u32;
use crate::solution::{is_solution, agrees, cell_agrees, peers, in_unit, unit_holds, box_of};
use crate::placement::{lemma_single_left, lemma_box_position, cleared, lemma_cleared_stays, lemma_all_cleared_stay};

verus! {

/// Whether two coordinates are the same.
pub fn equal_coords(a: Coordinate, b: Coordinate) -> (r: bool)
    ensures
        r == (a == b),
{
    if a.y == b.y {
        return a.x == b.x;
    }
    false
}

/// Some open cell of `cells` other than the one at `at` can still take `number`.
pub open spec fn possible_elsewhere(cells: Seq<SudokuCell>, at: Coordinate, number: u32) -> bool {
    exists|i: int| 0 <= i < cells.len() && #[trigger] cells[i].coordinate != at && !cells[i].defined
        && cells[i].possible_values().contains(number)
}

/// Whether some open cell of `cells` other than the one at `at` can still take `number`.
pub fn possible_in_other(cells: &Vec<SudokuCell>, at: Coordinate, number: u32) -> (r: bool)
    ensures
        r == possible_elsewhere(cells@, at, number),
{
    let mut i: usize = 0;
    while i < cells.len()
        invariant
            i <= cells.len(),
            forall|j: int| 0 <= j < i ==> !(#[trigger] cells@[j].coordinate != at && !cells@[j].defined
                && cells@[j].possible_values().contains(number)),
        decreases cells.len() - i,
    {
        let c = cells[i];
        if !equal_coords(c.coordinate, at) && !c.defined && contains_u32(&c.get_possible(), number) {
            return true;
        }
        i += 1;
    }
    false
}

/// Unit `kind` of (`cx`, `cy`) is among the cells `u`.
pub open spec fn covers_unit(g: SudokuGrid, u: Seq<SudokuCell>, kind: int, cx: int, cy: int) -> bool {
    forall|qx: int, qy: int| #[trigger] in_unit(kind, cx, cy, qx, qy) ==> u.contains(g.cell(qx, qy))
}

/// A hidden single: when a unit of an open cell has `number` in none of its placed cells and
/// no other open cell of it can take `number`, the solution has `number` in that cell.
pub proof fn lemma_hidden_single(g: SudokuGrid, sol: Seq<Seq<u32>>, u: Seq<SudokuCell>, kind: int, cx: int, cy: int, number: u32)
    requires
        g.wf(),
        g.at_home(),
        is_solution(sol),
        agrees(g, sol),
        0 <= cx < 9,
        0 <= cy < 9,
        1 <= number <= 9,
        covers_unit(g, u, kind, cx, cy),
        !values_of(u).contains(number),
        !possible_elsewhere(u, Coordinate { x: cx as u32, y: cy as u32 }, number),
    ensures
        g.cell(cx, cy).defined || sol[cy][cx] == number,
{
    assert(unit_holds(sol, kind, cx, cy, number));
    let (qx, qy) = choose|qx: int, qy: int| in_unit(kind, cx, cy, qx, qy) && #[trigger] sol[qy][qx] == number;
    assert(u.contains(g.cell(qx, qy)));
    let i = choose|i: int| 0 <= i < u.len() && u[i] == g.cell(qx, qy);
    let c = g.cell(qx, qy);
    assert(c.wf());
    assert(cell_agrees(c, sol[qy][qx]));
    if c.defined {
        assert(values_of(u)[i] == number);
    } else {
        lemma_values_with(c.states@, ValueStatus::Possible, 9);
        assert(c.possible_values().contains(number));
        assert(c.coordinate == (Coordinate { x: qx as u32, y: qy as u32 }));
        if !(qx == cx && qy == cy) {
            assert(u[i].coordinate != (Coordinate { x: cx as u32, y: cy as u32 }));
        }
    }
}

/// The cells of a row, a column or a box cover that unit of each of their cells.
pub proof fn lemma_units_covered(g: SudokuGrid, cx: int, cy: int)
    requires
        0 <= cx < 9,
        0 <= cy < 9,
    ensures
        covers_unit(g, g.row_cells(cy), 0, cx, cy),
        covers_unit(g, g.col_cells(cx), 1, cx, cy),
        covers_unit(g, g.box_cells(box_of(cx), box_of(cy)), 2, cx, cy),
{
    assert forall|qx: int, qy: int| #[trigger] in_unit(0, cx, cy, qx, qy) implies g.row_cells(cy).contains(g.cell(qx, qy)) by {
        assert(g.row_cells(cy)[qx] == g.cell(qx, qy));
    }
    assert forall|qx: int, qy: int| #[trigger] in_unit(1, cx, cy, qx, qy) implies g.col_cells(cx).contains(g.cell(qx, qy)) by {
        assert(g.col_cells(cx)[qy] == g.cell(qx, qy));
    }
    lemma_box_position(cx, cy, 0);
    assert forall|qx: int, qy: int| #[trigger] in_unit(2, cx, cy, qx, qy) implies g.box_cells(box_of(cx), box_of(cy)).contains(g.cell(qx, qy)) by {
        let j = 3 * (qy - box_of(cy)) + (qx - box_of(cx));
        assert(in_unit(2, cx, cy, qx, qy));
        assert(g.box_cells(box_of(cx), box_of(cy))[j] == g.cell(qx, qy));
    }
}

/// The cells of `cells` that can still take `number`, in order.
pub open spec fn taking(cells: Seq<SudokuCell>, number: u32) -> Seq<SudokuCell> {
    cells.filter(|c: SudokuCell| c.possible_values().contains(number))
}

/// The left column of box number `b` (boxes numbered row by row).
pub open spec fn box_left(b: int) -> int {
    3 * (b % 3)
}

/// The line `line` lacks `n` and none of its open cells can take it.
pub open spec fn line_blocked(line: Seq<SudokuCell>, n: u32) -> bool {
    &&& 1 <= n <= 9
    &&& !values_of(cells_with_value(line)).contains(n)
    &&& taking(open_cells(line), n).len() == 0
}

/// Box `b` of `g` lacks `n` and none of its cells can take it.
pub open spec fn box_blocked(g: SudokuGrid, b: int, n: u32) -> bool {
    let cells = g.box_cells(box_left(b), box_start(b as u32) as int);
    &&& 0 <= b < 9
    &&& 1 <= n <= 9
    &&& !values_of(cells).contains(n)
    &&& taking(cells, n).len() == 0
}

/// Box `b` of `g` lacks `n` and the cells of the box that can take `n` all lie in one row (or,
/// failing that, in one column): `n` is struck from the cell at (`c`, `r`) on that line
/// outside the box.
pub open spec fn box_target(g: SudokuGrid, b: int, n: u32, c: int, r: int) -> bool {
    let cells = g.box_cells(box_left(b), box_start(b as u32) as int);
    let cand = taking(cells, n);
    &&& 0 <= b < 9
    &&& 1 <= n <= 9
    &&& 0 <= c < 9
    &&& 0 <= r < 9
    &&& !values_of(cells).contains(n)
    &&& cand.len() > 0
    &&& if forall|i: int| 0 <= i < cand.len() ==> (#[trigger] cand[i]).coordinate.y == cand[0].coordinate.y {
        r == cand[0].coordinate.y && !(box_left(b) <= c <= box_left(b) + 2)
    } else {
        &&& forall|i: int| 0 <= i < cand.len() ==> (#[trigger] cand[i]).coordinate.x == cand[0].coordinate.x
        &&& c == cand[0].coordinate.x
        &&& !(box_start(b as u32) <= r <= box_start(b as u32) + 2)
    }
}

/// The line `line` lacks `n`, and its open cells that can take `n` all lie in the box of the
/// first of them, which holds the cell at (`c`, `r`).
pub open spec fn line_hits(line: Seq<SudokuCell>, n: u32, c: int, r: int) -> bool {
    let cand = taking(open_cells(line), n);
    let bx = box_start(cand[0].coordinate.x) as int;
    let by = box_start(cand[0].coordinate.y) as int;
    &&& 1 <= n <= 9
    &&& 0 <= c < 9
    &&& 0 <= r < 9
    &&& !values_of(cells_with_value(line)).contains(n)
    &&& cand.len() > 0
    &&& forall|i: int| 1 <= i < cand.len() ==> bx <= (#[trigger] cand[i]).coordinate.x <= bx + 2 && by <= cand[i].coordinate.y <= by + 2
    &&& bx <= c <= bx + 2
    &&& by <= r <= by + 2
}

/// Row `y` of `g` confines `n` to one box: `n` is struck from the cell at (`c`, `r`) of that
/// box in another row.
pub open spec fn row_line_target(g: SudokuGrid, y: int, n: u32, c: int, r: int) -> bool {
    0 <= y < 9 && line_hits(g.row_cells(y), n, c, r) && r != y
}

/// Column `x` of `g` confines `n` to one box: `n` is struck from the cell at (`c`, `r`) of that
/// box in another column.
pub open spec fn col_line_target(g: SudokuGrid, x: int, n: u32, c: int, r: int) -> bool {
    0 <= x < 9 && line_hits(g.col_cells(x), n, c, r) && c != x
}

/// Each grid of `ss` comes from `start` by narrowing, each grid of `ts` from the grid of `ss`
/// at the same place, and `end` from each grid of `ts`; all are well formed.
pub open spec fn chained(start: SudokuGrid, ss: Seq<SudokuGrid>, ts: Seq<SudokuGrid>, end: SudokuGrid) -> bool {
    &&& ss.len() == ts.len()
    &&& forall|k: int| 0 <= k < ss.len() ==> narrows(start, #[trigger] ss[k]) && narrows(ss[k], ts[k]) && narrows(ts[k], end)
        && ss[k].wf() && ts[k].wf()
}

/// A chain that ends at `mid` also ends at any later state of `mid`.
pub proof fn lemma_chain_extend(start: SudokuGrid, ss: Seq<SudokuGrid>, ts: Seq<SudokuGrid>, mid: SudokuGrid, end: SudokuGrid)
    requires
        chained(start, ss, ts, mid),
        narrows(mid, end),
    ensures
        chained(start, ss, ts, end),
{
    assert forall|k: int| 0 <= k < ss.len() implies narrows(start, #[trigger] ss[k]) && narrows(ss[k], ts[k]) && narrows(ts[k], end) by {
        assert(narrows(start, ss[k]));
        lemma_narrows_trans(ts[k], mid, end);
    }
}

/// With `s` the grid when the cell at (`x`, `y`) is examined and `t` the grid once its
/// candidates are worked out: the cell is open in `s`, `number` is not yet placed in its
/// column, row or box in `s` nor in `t`, and in `t` no other open cell of its box, or of its
/// row, or of its column can take `number`. A hidden single.
pub open spec fn hidden_single(s: SudokuGrid, t: SudokuGrid, number: u32, x: int, y: int) -> bool {
    let at = Coordinate { x: x as u32, y: y as u32 };
    &&& !s.cell(x, y).defined
    &&& !s.seen(x, y, number)
    &&& !values_of(t.col_cells(x)).contains(number)
    &&& !values_of(t.row_cells(y)).contains(number)
    &&& !values_of(t.box_cells(box_of(x), box_of(y))).contains(number)
    &&& (!possible_elsewhere(t.box_cells(box_of(x), box_of(y)), at, number)
        || !possible_elsewhere(t.row_cells(y), at, number)
        || !possible_elsewhere(t.col_cells(x), at, number))
}

/// Grids with the same cells show the same hidden singles.
pub proof fn lemma_same_cells_hidden(s1: SudokuGrid, t1: SudokuGrid, s2: SudokuGrid, t2: SudokuGrid, number: u32, x: int, y: int)
    requires
        same_grid_cells(s1, s2),
        same_grid_cells(t1, t2),
        0 <= x < 9,
        0 <= y < 9,
    ensures
        hidden_single(s1, t1, number, x, y) == hidden_single(s2, t2, number, x, y),
{
    lemma_same_cells_seen(s1, s2, x, y);
    assert(t1.col_cells(x) =~= t2.col_cells(x)) by {
        assert forall|k: int| 0 <= k < 9 implies #[trigger] t1.col_cells(x)[k] == t2.col_cells(x)[k] by {
            assert(t1.cell(x, k) == t2.cell(x, k));
        }
    }
    assert(t1.row_cells(y) =~= t2.row_cells(y)) by {
        assert forall|k: int| 0 <= k < 9 implies #[trigger] t1.row_cells(y)[k] == t2.row_cells(y)[k] by {
            assert(t1.cell(k, y) == t2.cell(k, y));
        }
    }
    let bx = box_of(x);
    let by = box_of(y);
    assert(t1.box_cells(bx, by) =~= t2.box_cells(bx, by)) by {
        assert forall|k: int| 0 <= k < 9 implies #[trigger] t1.box_cells(bx, by)[k] == t2.box_cells(bx, by)[k] by {
            assert(0 <= k % 3 < 3 && 0 <= k / 3 < 3) by (nonlinear_arith) requires 0 <= k < 9;
            assert(t1.cell(bx + k % 3, by + k / 3) == t2.cell(bx + k % 3, by + k / 3));
        }
    }
    assert(s1.cell(x, y) == s2.cell(x, y));
}

/// Grids with the same cells have the same box and line targets and the same cleared cells.
pub proof fn lemma_same_cells_targets(a: SudokuGrid, g: SudokuGrid)
    requires
        same_grid_cells(a, g),
    ensures
        forall|b: int, n: u32, c: int, r: int| #[trigger] box_target(a, b, n, c, r) == box_target(g, b, n, c, r),
        forall|y: int, n: u32, c: int, r: int| #[trigger] row_line_target(a, y, n, c, r) == row_line_target(g, y, n, c, r),
        forall|x: int, n: u32, c: int, r: int| #[trigger] col_line_target(a, x, n, c, r) == col_line_target(g, x, n, c, r),
        forall|c: int, r: int, n: u32| 0 <= c < 9 && 0 <= r < 9 ==> #[trigger] cleared(a, c, r, n) == cleared(g, c, r, n),
{
    assert forall|y: int| 0 <= y < 9 implies #[trigger] a.row_cells(y) == g.row_cells(y) by {
        assert forall|k: int| 0 <= k < 9 implies #[trigger] a.row_cells(y)[k] == g.row_cells(y)[k] by {
            assert(a.cell(k, y) == g.cell(k, y));
        }
        assert(a.row_cells(y) =~= g.row_cells(y));
    }
    assert forall|x: int| 0 <= x < 9 implies #[trigger] a.col_cells(x) == g.col_cells(x) by {
        assert forall|k: int| 0 <= k < 9 implies #[trigger] a.col_cells(x)[k] == g.col_cells(x)[k] by {
            assert(a.cell(x, k) == g.cell(x, k));
        }
        assert(a.col_cells(x) =~= g.col_cells(x));
    }
    assert forall|b: int| 0 <= b < 9 implies #[trigger] a.box_cells(box_left(b), box_start(b as u32) as int) == g.box_cells(box_left(b), box_start(b as u32) as int) by {
        let bx = box_left(b);
        let by = box_start(b as u32) as int;
        assert(0 <= bx <= 6 && 0 <= by <= 6) by (nonlinear_arith) requires 0 <= b < 9, bx == 3 * (b % 3), by == box_start(b as u32);
        assert forall|k: int| 0 <= k < 9 implies #[trigger] a.box_cells(bx, by)[k] == g.box_cells(bx, by)[k] by {
            assert(0 <= k % 3 < 3 && 0 <= k / 3 < 3) by (nonlinear_arith) requires 0 <= k < 9;
            assert(a.cell(bx + k % 3, by + k / 3) == g.cell(bx + k % 3, by + k / 3));
        }
        assert(a.box_cells(bx, by) =~= g.box_cells(bx, by));
    }
    assert forall|b: int, n: u32, c: int, r: int| #[trigger] box_target(a, b, n, c, r) == box_target(g, b, n, c, r) by {
        if 0 <= b < 9 {
            assert(a.box_cells(box_left(b), box_start(b as u32) as int) == g.box_cells(box_left(b), box_start(b as u32) as int));
        }
    }
    assert forall|y: int, n: u32, c: int, r: int| #[trigger] row_line_target(a, y, n, c, r) == row_line_target(g, y, n, c, r) by {
        if 0 <= y < 9 {
            assert(a.row_cells(y) == g.row_cells(y));
        }
    }
    assert forall|x: int, n: u32, c: int, r: int| #[trigger] col_line_target(a, x, n, c, r) == col_line_target(g, x, n, c, r) by {
        if 0 <= x < 9 {
            assert(a.col_cells(x) == g.col_cells(x));
        }
    }
    assert forall|c: int, r: int, n: u32| 0 <= c < 9 && 0 <= r < 9 implies #[trigger] cleared(a, c, r, n) == cleared(g, c, r, n) by {
        assert(a.cell(c, r) == g.cell(c, r));
    }
}

/// In a step from `b` to `a` that left every cell as it was, the record of a
/// `solve_for_number` call shows no hidden single left in `a` for a value not placed nine times.
pub proof fn lemma_no_hidden_left(b: SudokuGrid, a: SudokuGrid, ss: Seq<SudokuGrid>, ts: Seq<SudokuGrid>, number: u32, x: int, y: int)
    requires
        b.wf(),
        a.wf(),
        same_grid_cells(b, a),
        ss.len() == 81,
        chained(b, ss, ts, a),
        0 <= x < 9,
        0 <= y < 9,
        forall|i: int, j: int| 0 <= i < 9 && 0 <= j < 9
            && #[trigger] hidden_single(ss[9 * j + i], ts[9 * j + i], number, i, j) ==> a.cell(i, j).defined,
    ensures
        !hidden_single(a, a, number, x, y),
{
    let k = 9 * y + x;
    let s = ss[k];
    let t = ts[k];
    assert(narrows(b, s) && narrows(s, t) && narrows(t, a) && s.wf() && t.wf());
    lemma_narrows_trans(s, t, a);
    lemma_narrows_between(b, s, a);
    assert(same_grid_cells(s, a)) by {
        assert forall|i: int, j: int| 0 <= i < 9 && 0 <= j < 9 implies #[trigger] s.cell(i, j) == a.cell(i, j) by {
            assert(b.cell(i, j) == s.cell(i, j));
            assert(b.cell(i, j) == a.cell(i, j));
        }
    }
    lemma_narrows_between(s, t, a);
    assert(same_grid_cells(t, a)) by {
        assert forall|i: int, j: int| 0 <= i < 9 && 0 <= j < 9 implies #[trigger] t.cell(i, j) == a.cell(i, j) by {
            assert(s.cell(i, j) == t.cell(i, j));
            assert(s.cell(i, j) == a.cell(i, j));
        }
    }
    lemma_same_cells_hidden(s, t, a, a, number, x, y);
    if hidden_single(a, a, number, x, y) {
        assert(hidden_single(ss[9 * y + x], ts[9 * y + x], number, x, y));
        assert(a.cell(x, y).defined);
    }
}

/// Extends the record of examined cells by the cell at (`c`, `r`): earlier cells placed in
/// `prev` stay placed in the later grid `g`.
pub proof fn lemma_step_cells(ss: Seq<SudokuGrid>, ts: Seq<SudokuGrid>, prev: SudokuGrid, g: SudokuGrid, number: u32, c: int, r: int)
    requires
        0 <= c < 9,
        0 <= r < 9,
        ss.len() == 9 * r + c + 1,
        ts.len() == ss.len(),
        shrinks(prev, g),
        forall|x: int, y: int| 0 <= x < 9 && 0 <= y < 9 && 9 * y + x < 9 * r + c
            && #[trigger] hidden_single(ss[9 * y + x], ts[9 * y + x], number, x, y) ==> prev.cell(x, y).defined,
        hidden_single(ss[9 * r + c], ts[9 * r + c], number, c, r) ==> g.cell(c, r).defined,
    ensures
        forall|x: int, y: int| 0 <= x < 9 && 0 <= y < 9 && 9 * y + x < 9 * r + c + 1
            && #[trigger] hidden_single(ss[9 * y + x], ts[9 * y + x], number, x, y) ==> g.cell(x, y).defined,
{
    assert forall|x: int, y: int| 0 <= x < 9 && 0 <= y < 9 && 9 * y + x < 9 * r + c + 1
        && #[trigger] hidden_single(ss[9 * y + x], ts[9 * y + x], number, x, y) implies g.cell(x, y).defined by {
        if 9 * y + x < 9 * r + c {
            assert(prev.cell(x, y).defined);
            assert(cell_narrows(prev.cell(x, y), g.cell(x, y)));
        } else {
            assert(y == r && x == c);
        }
    }
}

/// Two different cells within the three columns from `bx0` and three rows from `by0`, a box,
/// are peers.
pub proof fn lemma_same_box(bx0: int, by0: int, ax: int, ay: int, cx: int, cy: int)
    requires
        bx0 == 0 || bx0 == 3 || bx0 == 6,
        by0 == 0 || by0 == 3 || by0 == 6,
        bx0 <= ax <= bx0 + 2,
        bx0 <= cx <= bx0 + 2,
        by0 <= ay <= by0 + 2,
        by0 <= cy <= by0 + 2,
        !(ax == cx && ay == cy),
    ensures
        peers(ax, ay, cx, cy),
{
}

/// Where a box has no cell placed with `number`, the cell in which the solution has `number`
/// is one of the open cells of the box that can take it.
pub proof fn lemma_box_candidates(g: SudokuGrid, sol: Seq<Seq<u32>>, bx0: int, by0: int, number: u32, cells: Seq<SudokuCell>)
    requires
        g.wf(),
        g.at_home(),
        is_solution(sol),
        agrees(g, sol),
        bx0 == 0 || bx0 == 3 || bx0 == 6,
        by0 == 0 || by0 == 3 || by0 == 6,
        1 <= number <= 9,
        cells == g.box_cells(bx0, by0),
        !values_of(cells).contains(number),
    ensures
        exists|t: int| 0 <= t < taking(cells, number).len() && {
            let c = #[trigger] taking(cells, number)[t];
            &&& sol[c.coordinate.y as int][c.coordinate.x as int] == number
            &&& bx0 <= c.coordinate.x <= bx0 + 2
            &&& by0 <= c.coordinate.y <= by0 + 2
        },
{
    let poss = taking(cells, number);
    assert(unit_holds(sol, 2, bx0, by0, number));
    let (qx, qy) = choose|qx: int, qy: int| in_unit(2, bx0, by0, qx, qy) && #[trigger] sol[qy][qx] == number;
    lemma_box_position(bx0, by0, 0);
    let j = 3 * (qy - box_of(by0)) + (qx - box_of(bx0));
    assert(in_unit(2, bx0, by0, qx, qy));
    assert(cells[j] == g.cell(qx, qy));
    let c = g.cell(qx, qy);
    assert(c.wf());
    assert(cell_agrees(c, sol[qy][qx]));
    if c.defined {
        assert(values_of(cells)[j] == number);
    }
    lemma_values_with(c.states@, ValueStatus::Possible, 9);
    assert(c.possible_values().contains(number));
    broadcast use vstd::seq_lib::group_filter_ensures;
    assert(poss == cells.filter(|c: SudokuCell| c.possible_values().contains(number)));
    assert(poss.contains(c));
    let t = choose|t: int| 0 <= t < poss.len() && poss[t] == c;
    assert(c.coordinate == (Coordinate { x: qx as u32, y: qy as u32 }));
    assert(poss[t] == c);
}

/// Where a line has no cell placed with `number`, the cell in which the solution has `number`
/// is one of the open cells of the line that can take it.
pub proof fn lemma_line_candidates(g: SudokuGrid, sol: Seq<Seq<u32>>, kind: int, x0: int, y0: int, number: u32, line: Seq<SudokuCell>, open: Seq<SudokuCell>)
    requires
        g.wf(),
        g.at_home(),
        is_solution(sol),
        agrees(g, sol),
        kind == 0 || kind == 1,
        0 <= x0 < 9,
        0 <= y0 < 9,
        1 <= number <= 9,
        kind == 0 ==> line == g.row_cells(y0),
        kind == 1 ==> line == g.col_cells(x0),
        forall|i: int| 0 <= i < line.len() && (#[trigger] line[i]).defined ==> line[i].value_as_int != number,
        forall|i: int| 0 <= i < line.len() && !(#[trigger] line[i]).defined ==> open.contains(line[i]),
    ensures
        exists|t: int| 0 <= t < taking(open, number).len() && {
            let c = #[trigger] taking(open, number)[t];
            &&& sol[c.coordinate.y as int][c.coordinate.x as int] == number
            &&& (kind == 0 ==> c.coordinate.y == y0)
            &&& (kind == 1 ==> c.coordinate.x == x0)
        },
{
    let poss = taking(open, number);
    assert(unit_holds(sol, kind, x0, y0, number));
    let (qx, qy) = choose|qx: int, qy: int| in_unit(kind, x0, y0, qx, qy) && #[trigger] sol[qy][qx] == number;
    let j = if kind == 0 { qx } else { qy };
    assert(line[j] == g.cell(qx, qy));
    let c = g.cell(qx, qy);
    assert(c.wf());
    assert(cell_agrees(c, sol[qy][qx]));
    assert(!c.defined);
    lemma_values_with(c.states@, ValueStatus::Possible, 9);
    assert(c.possible_values().contains(number));
    assert(open.contains(c));
    let i = choose|i: int| 0 <= i < open.len() && open[i] == c;
    broadcast use vstd::seq_lib::group_filter_ensures;
    assert(poss == open.filter(|c: SudokuCell| c.possible_values().contains(number)));
    assert(poss.contains(c));
    let t = choose|t: int| 0 <= t < poss.len() && poss[t] == c;
    assert(c.coordinate == (Coordinate { x: qx as u32, y: qy as u32 }));
    assert(poss[t] == c);
}

/// Some cell is placed in `b` and open in `a`.
pub open spec fn newly_placed(a: SudokuGrid, b: SudokuGrid) -> bool {
    exists|x: int, y: int| 0 <= x < 9 && 0 <= y < 9 && #[trigger] b.cell(x, y).defined && !a.cell(x, y).defined
}

impl SudokuGrid {
    /// Whether some cell placed here is open in `earlier`.
    pub fn placed_since(&self, earlier: &SudokuGrid) -> (r: bool)
        ensures
            r == newly_placed(*earlier, *self),
    {
        let mut y: usize = 0;
        while y < 9
            invariant
                y <= 9,
                forall|i: int, j: int| 0 <= i < 9 && 0 <= j < y ==> !(#[trigger] self.cell(i, j).defined && !earlier.cell(i, j).defined),
            decreases 9 - y,
        {
            let mut x: usize = 0;
            while x < 9
                invariant
                    y < 9,
                    x <= 9,
                    forall|i: int, j: int| 0 <= i < 9 && 0 <= j < y ==> !(#[trigger] self.cell(i, j).defined && !earlier.cell(i, j).defined),
                    forall|i: int| 0 <= i < x ==> !(#[trigger] self.cell(i, y as int).defined && !earlier.cell(i, y as int).defined),
                decreases 9 - x,
            {
                if self.grid[y][x].defined && !earlier.grid[y][x].defined {
                    assert(self.cell(x as int, y as int).defined && !earlier.cell(x as int, y as int).defined);
                    return true;
                }
                x += 1;
            }
            y += 1;
        }
        false
    }

    /// Strikes `value` from the cell at (`x`, `y`) and sets the cell when one value is left.
    /// Fails when that strike would leave the cell with no value (the grid is then as it was),
    /// or when setting the cell empties an open cell (see `set_value`).
    pub fn eliminate(&mut self, x: u32, y: u32, value: u32) -> (r: Result<(), SolveError>)
        requires
            old(self).wf(),
            x < 9,
            y < 9,
        ensures
            r matches Err(e) ==> e == SolveError::CellEmptied,
            r is Err ==> emptiable(*final(self)),
            final(self).wf(),
            shrinks(*old(self), *final(self)),
            r is Ok ==> narrows(*old(self), *final(self)),
            old(self).at_home() ==> forall|sol: Seq<Seq<u32>>| is_solution(sol) && #[trigger] agrees(*old(self), sol)
                && sol[y as int][x as int] != value ==> r is Ok && agrees(*final(self), sol),
            old(self).cell(x as int, y as int).strike_empties(value) ==> r is Err && *final(self) == *old(self),
            r is Err && !old(self).cell(x as int, y as int).strike_empties(value) && old(self).at_home() ==> open_emptied(*final(self)),
            r is Ok && 1 <= value <= 9 ==> cleared(*final(self), x as int, y as int, value),
            r is Ok && !old(self).cell(x as int, y as int).strike_outcome(value).0 ==> {
                &&& final(self).cell(x as int, y as int).states@ == old(self).cell(x as int, y as int).struck_states(value)
                &&& forall|i: int, j: int| 0 <= i < 9 && 0 <= j < 9 && !(i == x && j == y) ==> #[trigger] final(self).cell(i, j) == old(self).cell(i, j)
            },
            r is Ok && !old(self).cell(x as int, y as int).defined && old(self).cell(x as int, y as int).strike_outcome(value).0 ==> {
                &&& final(self).cell(x as int, y as int).defined
                &&& final(self).cell(x as int, y as int).value_as_int == old(self).cell(x as int, y as int).strike_outcome(value).1
            },
    {
        let ghost start = *self;
        let p = match self.strike(x, y, value) {
            Ok(p) => p,
            Err(e) => return Err(e),
        };
        if p.0 {
            let ghost mid = *self;
            proof {
                if start.at_home() {
                    assert forall|sol: Seq<Seq<u32>>| is_solution(sol) && #[trigger] agrees(start, sol)
                        && sol[y as int][x as int] != value implies agrees(mid, sol) && sol[y as int][x as int] == p.1 by {
                        lemma_single_left(start, sol, x as int, y as int, value);
                    }
                }
            }
            let res = self.set_value(x, y, p.1);
            proof {
                lemma_shrinks_trans(*old(self), mid, *self);
                if res is Ok {
                    lemma_narrows_trans(*old(self), mid, *self);
                }
                if start.at_home() {
                    assert forall|sol: Seq<Seq<u32>>| is_solution(sol) && #[trigger] agrees(start, sol)
                        && sol[y as int][x as int] != value implies res is Ok && agrees(*self, sol) by {
                        assert(agrees(mid, sol));
                    }
                }
            }
            return res;
        }
        Ok(())
    }

    /// Places `number` in each open cell that can take it and is the only cell that can in
    /// its box, or in its row, or in its column. Nothing is done when all nine are placed.
    /// Reports whether it placed a cell.
    #[verifier::rlimit(40)]
    #[verifier::spinoff_prover]
    pub fn solve_for_number(&mut self, number: u32) -> (r: Result<bool, SolveError>)
        requires
            old(self).wf(),
            1 <= number <= 9,
        ensures
            r matches Err(e) ==> e == SolveError::CellEmptied,
            r is Err ==> emptiable(*final(self)),
            final(self).wf(),
            shrinks(*old(self), *final(self)),
            r is Ok ==> narrows(*old(self), *final(self)),
            old(self).at_home() ==> forall|sol: Seq<Seq<u32>>| is_solution(sol) && #[trigger] agrees(*old(self), sol)
                ==> r is Ok && agrees(*final(self), sol),
            old(self).definite_values.counts@[number - 1] == 9 ==> r is Ok && *final(self) == *old(self),
            r is Ok && old(self).at_home() ==> exists|ss: Seq<SudokuGrid>, ts: Seq<SudokuGrid>| ss.len() == 81 && ts.len() == 81
                && chained(*old(self), ss, ts, *final(self))
                && (old(self).definite_values.counts@[number - 1] != 9 ==> forall|x: int, y: int| 0 <= x < 9 && 0 <= y < 9
                    && #[trigger] hidden_single(ss[9 * y + x], ts[9 * y + x], number, x, y) ==> final(self).cell(x, y).defined),
            r matches Ok(placed) ==> placed == newly_placed(*old(self), *final(self)),
    {
        proof { lemma_narrows_refl(*self); }
        let prev = *self;
        if self.get_def_val_ct()[(number - 1) as usize] == GRID_SIZE_I {
            proof {
                let ss = Seq::new(81, |k: int| *self);
                assert(chained(*self, ss, ss, *self));
                assert(ss.len() == 81 && chained(*old(self), ss, ss, *self));
            }
            proof { assert(!newly_placed(*old(self), *self)); }
            return Ok(false);
        }
        let ghost mut ss: Seq<SudokuGrid> = Seq::empty();
        let ghost mut ts: Seq<SudokuGrid> = Seq::empty();
        let snapshot = self.grid;
        let ghost snap_grid = *self;
        let mut r: usize = 0;
        while r < GRID_SIZE
            invariant
                self.wf(),
                snap_grid == *old(self),
                old(self).at_home() ==> forall|sol: Seq<Seq<u32>>| is_solution(sol) && #[trigger] agrees(*old(self), sol)
                    ==> agrees(*self, sol),
                narrows(*old(self), *self),
                snap_grid.wf(),
                snapshot == snap_grid.grid,
                1 <= number <= 9,
                r <= 9,
                ss.len() == 9 * r,
                ss.len() == ts.len(),
                old(self).definite_values.counts@[number - 1] != 9,
                chained(*old(self), ss, ts, *self),
                old(self).at_home() ==> forall|x: int, y: int| 0 <= x < 9 && 0 <= y < 9 && 9 * y + x < ss.len()
                    && #[trigger] hidden_single(ss[9 * y + x], ts[9 * y + x], number, x, y) ==> self.cell(x, y).defined,
            decreases 9 - r,
        {
            let mut c: usize = 0;
            while c < GRID_SIZE
                invariant
                    self.wf(),
                    snap_grid == *old(self),
                    old(self).at_home() ==> forall|sol: Seq<Seq<u32>>| is_solution(sol) && #[trigger] agrees(*old(self), sol)
                        ==> agrees(*self, sol),
                    narrows(*old(self), *self),
                    snap_grid.wf(),
                    snapshot == snap_grid.grid,
                    1 <= number <= 9,
                    r < 9,
                    c <= 9,
                    ss.len() == 9 * r + c,
                    ss.len() == ts.len(),
                    old(self).definite_values.counts@[number - 1] != 9,
                    chained(*old(self), ss, ts, *self),
                    old(self).at_home() ==> forall|x: int, y: int| 0 <= x < 9 && 0 <= y < 9 && 9 * y + x < ss.len()
                        && #[trigger] hidden_single(ss[9 * y + x], ts[9 * y + x], number, x, y) ==> self.cell(x, y).defined,
                decreases 9 - c,
            {
                let cell = snapshot[r][c];
                assert(snap_grid.cell(c as int, r as int).wf());
                if cell.defined {
                    proof {
                        lemma_narrows_refl(*self);
                        assert(cell_narrows(snap_grid.cell(c as int, r as int), self.cell(c as int, r as int)));
                        let ghost ss0 = ss;
                        ss = ss.push(*self);
                        ts = ts.push(*self);
                        assert forall|k: int| 0 <= k < ss.len() implies narrows(*old(self), #[trigger] ss[k]) && narrows(ss[k], ts[k]) && narrows(ts[k], *self) by {
                            if k < ss0.len() {
                                assert(ss[k] == ss0[k]);
                            }
                        }
                        if old(self).at_home() {
                            lemma_step_cells(ss, ts, *self, *self, number, c as int, r as int);
                        }
                    }
                    c += 1;
                    continue;
                }
                let cx = cell.coordinate.x;
                let cy = cell.coordinate.y;
                let ghost before = *self;
                let ghost head = *self;
                let ghost ss0 = ss;
                let ghost ts0 = ts;
                let poss = match self.get_possibles_by_cell(cx, cy) {
                    Ok(p) => p,
                    Err(e) => {
                        proof {
                            lemma_shrinks_trans(*old(self), before, *self);
                            if old(self).at_home() {
                                assert forall|sol: Seq<Seq<u32>>| is_solution(sol) implies !#[trigger] agrees(*old(self), sol) by {
                                    if agrees(*old(self), sol) {
                                        assert(agrees(before, sol));
                                    }
                                }
                            }
                        }
                        return Err(e);
                    },
                };
                proof {
                    lemma_narrows_trans(*old(self), before, *self);
                    if old(self).at_home() {
                        assert forall|sol: Seq<Seq<u32>>| is_solution(sol) && #[trigger] agrees(*old(self), sol) implies agrees(*self, sol) by {
                            assert(agrees(before, sol));
                        }
                    }
                    ss = ss.push(head);
                    ts = ts.push(*self);
                    lemma_narrows_refl(*self);
                    assert forall|k: int| 0 <= k < ss.len() implies narrows(*old(self), #[trigger] ss[k]) && narrows(ss[k], ts[k]) && narrows(ts[k], *self) by {
                        if k < ss0.len() {
                            assert(ss[k] == ss0[k] && ts[k] == ts0[k]);
                            lemma_narrows_trans(ts0[k], head, *self);
                        }
                    }
                    assert(chained(*old(self), ss, ts, *self));
                    if old(self).at_home() {
                        assert(snap_grid.cell(c as int, r as int) == cell);
                        assert(cx == c && cy == r);
                        assert(forall|x: int, y: int| 0 <= x < 9 && 0 <= y < 9 && 9 * y + x < 9 * r + c
                            && #[trigger] hidden_single(ss[9 * y + x], ts[9 * y + x], number, x, y) ==> head.cell(x, y).defined) by {
                            assert forall|x: int, y: int| 0 <= x < 9 && 0 <= y < 9 && 9 * y + x < 9 * r + c
                                && #[trigger] hidden_single(ss[9 * y + x], ts[9 * y + x], number, x, y) implies head.cell(x, y).defined by {
                                assert(ss[9 * y + x] == ss0[9 * y + x] && ts[9 * y + x] == ts0[9 * y + x]);
                            }
                        }
                        assert(ss[9 * r + c] == head && ts[9 * r + c] == *self);
                    }
                }
                if !contains_u32(&poss.0, number) {
                    proof {
                        if old(self).at_home() {
                            if !head.cell(c as int, r as int).defined {
                                assert(poss.0@ == head.candidate_list(c as int, r as int));
                                if !head.seen(c as int, r as int, number) {
                                    assert(poss.0@.contains(number));
                                }
                            }
                            lemma_step_cells(ss, ts, head, *self, number, c as int, r as int);
                        }
                    }
                    c += 1;
                    continue;
                }
                let nbhd_col = self.col_vec(cx);
                let nbhd_col_vals = self.collect_values(Self::copy_cells(&nbhd_col));
                let nbhd_row = self.row_vec(cy);
                let nbhd_row_vals = self.collect_values(Self::copy_cells(&nbhd_row));
                let nbhd_box = SudokuBox::new(SudokuBox::coord_translator(cx), SudokuBox::coord_translator(cy), *self);
                let nbhd_box_vals = nbhd_box.get_vals();
                proof {
                    if old(self).at_home() {
                        assert(nbhd_row_vals@ == values_of(self.row_cells(r as int)));
                        assert(nbhd_col_vals@ == values_of(self.col_cells(c as int)));
                        nbhd_box.lemma_flat_wf();
                        assert(values_of(self.box_cells(box_of(c as int), box_of(r as int))) =~= nbhd_box_vals@) by {
                            assert forall|t: int| 0 <= t < 9 implies #[trigger] values_of(self.box_cells(box_of(c as int), box_of(r as int)))[t] == nbhd_box_vals@[t] by {
                                lemma_box_position(c as int, r as int, t);
                                assert(nbhd_box.cells()[t] == nbhd_box.at(t));
                            }
                        }
                    }
                }
                if contains_u32(&nbhd_col_vals, number) {
                    proof {
                        if old(self).at_home() {
                            assert(!hidden_single(head, *self, number, c as int, r as int));
                            lemma_step_cells(ss, ts, head, *self, number, c as int, r as int);
                        }
                    }
                    c += 1;
                    continue;
                }
                if contains_u32(&nbhd_row_vals, number) {
                    proof {
                        if old(self).at_home() {
                            assert(!hidden_single(head, *self, number, c as int, r as int));
                            lemma_step_cells(ss, ts, head, *self, number, c as int, r as int);
                        }
                    }
                    c += 1;
                    continue;
                }
                if contains_u32(&nbhd_box_vals, number) {
                    proof {
                        if old(self).at_home() {
                            assert(!hidden_single(head, *self, number, c as int, r as int));
                            lemma_step_cells(ss, ts, head, *self, number, c as int, r as int);
                        }
                    }
                    c += 1;
                    continue;
                }
                let box_vec = nbhd_box.as_vec();
                let possible_in_other_box = possible_in_other(&box_vec, cell.coordinate, number);
                let mut possible_in_other_row = false;
                let mut possible_in_other_col = false;
                if possible_in_other_box {
                    possible_in_other_row = possible_in_other(&nbhd_row, cell.coordinate, number);
                    if possible_in_other_row {
                        possible_in_other_col = possible_in_other(&nbhd_col, cell.coordinate, number);
                    }
                }
                proof {
                    if old(self).at_home() {
                        assert(box_vec@ =~= self.box_cells(box_of(c as int), box_of(r as int))) by {
                            assert forall|t: int| 0 <= t < 9 implies #[trigger] box_vec@[t] == self.box_cells(box_of(c as int), box_of(r as int))[t] by {
                                lemma_box_position(c as int, r as int, t);
                                assert(box_vec@[t] == nbhd_box.at(t));
                            }
                        }
                        assert(nbhd_row@ == self.row_cells(r as int));
                        assert(nbhd_col@ == self.col_cells(c as int));
                        assert(cell.coordinate == (Coordinate { x: c as u32, y: r as u32 }));
                    }
                }
                if possible_in_other_box && possible_in_other_col && possible_in_other_row {
                    proof {
                        if old(self).at_home() {
                            assert(!hidden_single(head, *self, number, c as int, r as int));
                            lemma_step_cells(ss, ts, head, *self, number, c as int, r as int);
                        }
                    }
                    c += 1;
                    continue;
                }
                let ghost before2 = *self;
                assert(chained(*old(self), ss, ts, before2));
                proof {
                    if old(self).at_home() {
                        assert(snap_grid.cell(c as int, r as int) == cell);
                        assert(cx == c && cy == r);
                        assert(self.at_home());
                        lemma_units_covered(*self, cx as int, cy as int);
                        assert(box_vec@ =~= self.box_cells(box_of(cx as int), box_of(cy as int))) by {
                            assert forall|t: int| 0 <= t < 9 implies #[trigger] box_vec@[t] == self.box_cells(box_of(cx as int), box_of(cy as int))[t] by {
                                lemma_box_position(cx as int, cy as int, t);
                                assert(box_vec@[t] == nbhd_box.at(t));
                            }
                        }
                        assert(values_of(box_vec@) =~= nbhd_box_vals@) by {
                            assert forall|t: int| 0 <= t < 9 implies #[trigger] values_of(box_vec@)[t] == nbhd_box_vals@[t] by {
                                assert(box_vec@[t] == nbhd_box.at(t));
                            }
                        }
                        assert(nbhd_row_vals@ == values_of(nbhd_row@));
                        assert(nbhd_col_vals@ == values_of(nbhd_col@));
                        assert forall|sol: Seq<Seq<u32>>| is_solution(sol) && #[trigger] agrees(*old(self), sol)
                            implies self.cell(cx as int, cy as int).defined || sol[cy as int][cx as int] == number by {
                            assert(agrees(*self, sol));
                            if !possible_in_other_box {
                                lemma_hidden_single(*self, sol, box_vec@, 2, cx as int, cy as int, number);
                            } else if !possible_in_other_row {
                                lemma_hidden_single(*self, sol, nbhd_row@, 0, cx as int, cy as int, number);
                            } else {
                                lemma_hidden_single(*self, sol, nbhd_col@, 1, cx as int, cy as int, number);
                            }
                        }
                    }
                }
                match self.set_value(cx, cy, number) {
                    Ok(()) => {},
                    Err(e) => {
                        proof {
                            lemma_shrinks_trans(*old(self), before2, *self);
                            if old(self).at_home() {
                                assert forall|sol: Seq<Seq<u32>>| is_solution(sol) implies !#[trigger] agrees(*old(self), sol) by {
                                    if agrees(*old(self), sol) {
                                        assert(agrees(before2, sol));
                                    }
                                }
                            }
                        }
                        return Err(e);
                    },
                }
                proof {
                    lemma_narrows_trans(*old(self), before2, *self);
                    lemma_chain_extend(*old(self), ss, ts, before2, *self);
                    lemma_shrinks_trans(head, before2, *self);
                    if old(self).at_home() {
                        assert forall|sol: Seq<Seq<u32>>| is_solution(sol) && #[trigger] agrees(*old(self), sol) implies agrees(*self, sol) by {
                            assert(agrees(before2, sol));
                        }
                        assert(cx == c && cy == r);
                        if !before2.cell(c as int, r as int).defined {
                            assert(self.cell(c as int, r as int).defined);
                        } else {
                            assert(cell_narrows(before2.cell(c as int, r as int), self.cell(c as int, r as int)));
                        }
                        lemma_step_cells(ss, ts, head, *self, number, c as int, r as int);
                    }
                }
                c += 1;
            }
            r += 1;
        }
        let placed = self.placed_since(&prev);
        Ok(placed)
    }

    /// The cells of `cells` that can still take `number`, in order.
    pub fn cells_taking(cells: &Vec<SudokuCell>, number: u32) -> (r: Vec<SudokuCell>)
        requires
            forall|i: int| 0 <= i < cells@.len() ==> (#[trigger] cells@[i]).wf(),
        ensures
            r@ == taking(cells@, number),
            forall|i: int| 0 <= i < r@.len() ==> (#[trigger] r@[i]).wf() && r@[i].possible_values().contains(number)
                && cells@.contains(r@[i]),
    {
        let mut r: Vec<SudokuCell> = Vec::new();
        let mut i: usize = 0;
        while i < cells.len()
            invariant
                i <= cells.len(),
                forall|t: int| 0 <= t < cells@.len() ==> (#[trigger] cells@[t]).wf(),
                r@ == cells@.take(i as int).filter(|c: SudokuCell| c.possible_values().contains(number)),
                forall|t: int| 0 <= t < r@.len() ==> (#[trigger] r@[t]).wf() && r@[t].possible_values().contains(number)
                    && cells@.contains(r@[t]),
            decreases cells.len() - i,
        {
            proof {
                assert(cells@.take(i + 1).drop_last() =~= cells@.take(i as int));
                reveal_with_fuel(Seq::filter, 1);
            }
            let c = cells[i];
            if contains_u32(&c.get_possible(), number) {
                r.push(c);
                assert(cells@[i as int] == c);
            }
            i += 1;
        }
        proof { assert(cells@.take(cells@.len() as int) =~= cells@); }
        r
    }

    /// For each box and each value the box lacks: when the cells of the box that can take
    /// the value all lie in one row (or else all in one column), strikes the value from the
    /// cells of that row (column) outside the box. Stops with `NoPlaceForValue` when no cell
    /// of the box can take the value.
    pub fn box_elimination(&mut self) -> (r: Result<(), SolveError>)
        requires
            old(self).wf(),
        ensures
            r matches Err(e) ==> e == SolveError::CellEmptied || e == SolveError::NoPlaceForValue,
            (r matches Err(e) && e == SolveError::CellEmptied) ==> emptiable(*final(self)),
            (r matches Err(e) && e == SolveError::NoPlaceForValue) ==> exists|g: SudokuGrid, b: int, n: u32|
                narrows(*old(self), g) && shrinks(g, *final(self)) && #[trigger] box_blocked(g, b, n),
            final(self).wf(),
            shrinks(*old(self), *final(self)),
            r is Ok ==> narrows(*old(self), *final(self)),
            old(self).at_home() ==> forall|sol: Seq<Seq<u32>>| is_solution(sol) && #[trigger] agrees(*old(self), sol)
                ==> r is Ok && agrees(*final(self), sol),
            r is Ok && old(self).at_home() ==> exists|states: Seq<SudokuGrid>| states.len() == 9
                && (forall|b: int| 0 <= b < 9 ==> narrows(*old(self), #[trigger] states[b]) && narrows(states[b], *final(self)) && states[b].wf())
                && (forall|b: int, n: u32, c: int, r: int| 0 <= b < 9 && #[trigger] box_target(states[b], b, n, c, r)
                    ==> cleared(*final(self), c, r, n)),
    {
        proof { lemma_narrows_refl(*self); }
        let ghost mut states: Seq<SudokuGrid> = Seq::empty();
        let mut boxdex: u32 = 0;
        while boxdex < GRID_SIZE_I
            invariant
                self.wf(),
                narrows(*old(self), *self),
                boxdex <= 9,
                old(self).at_home() ==> forall|sol: Seq<Seq<u32>>| is_solution(sol) && #[trigger] agrees(*old(self), sol)
                    ==> agrees(*self, sol),
                states.len() == boxdex,
                forall|b: int| 0 <= b < boxdex ==> narrows(*old(self), #[trigger] states[b]) && narrows(states[b], *self) && states[b].wf(),
                old(self).at_home() ==> forall|b: int, n: u32, c: int, r: int| 0 <= b < boxdex && #[trigger] box_target(states[b], b, n, c, r)
                    ==> cleared(*self, c, r, n),
            decreases 9 - boxdex,
        {
            let new_box = SudokuBox::new(SudokuBox::x_finder(boxdex), SudokuBox::y_finder(boxdex), *self);
            let ghost box_src = *self;
            proof {
                states = states.push(box_src);
                lemma_narrows_refl(box_src);
            }
            let ghost bx0 = new_box.x as int;
            let ghost by0 = new_box.y as int;
            proof {
                assert(new_box.cells() =~= box_src.box_cells(bx0, by0)) by {
                    assert forall|t: int| 0 <= t < 9 implies #[trigger] new_box.cells()[t] == box_src.box_cells(bx0, by0)[t] by {
                        lemma_box_position(0, 0, t);
                    }
                }
            }
            let mut number: u32 = 1;
            while number < GRID_SIZE_I + 1
                invariant
                    self.wf(),
                    narrows(*old(self), *self),
                    new_box.wf(),
                    new_box.values_in_range(),
                    boxdex < 9,
                    1 <= number <= 10,
                    box_src.wf(),
                    narrows(*old(self), box_src),
                    bx0 == new_box.x,
                    by0 == new_box.y,
                    bx0 == 0 || bx0 == 3 || bx0 == 6,
                    by0 == 0 || by0 == 3 || by0 == 6,
                    new_box.x_lim == bx0 + 2,
                    new_box.y_lim == by0 + 2,
                    new_box.cells() == box_src.box_cells(bx0, by0),
                    old(self).at_home() ==> forall|sol: Seq<Seq<u32>>| is_solution(sol) && #[trigger] agrees(*old(self), sol)
                        ==> agrees(*self, sol) && agrees(box_src, sol),
                    bx0 == box_left(boxdex as int),
                    by0 == box_start(boxdex) as int,
                    states.len() == boxdex + 1,
                    states[boxdex as int] == box_src,
                    narrows(box_src, *self),
                    forall|b: int| 0 <= b < boxdex ==> narrows(*old(self), #[trigger] states[b]) && narrows(states[b], box_src),
                    old(self).at_home() ==> forall|b: int, n: u32, c: int, r: int| 0 <= b < boxdex && #[trigger] box_target(states[b], b, n, c, r)
                        ==> cleared(*self, c, r, n),
                    old(self).at_home() ==> forall|n: u32, c: int, r: int| 1 <= n < number && #[trigger] box_target(box_src, boxdex as int, n, c, r)
                        ==> cleared(*self, c, r, n),
                decreases 10 - number,
            {
                let box_vals = new_box.get_vals();
                proof {
                    new_box.lemma_flat_wf();
                    assert(values_of(box_src.box_cells(bx0, by0)) =~= box_vals@) by {
                        assert forall|t: int| 0 <= t < 9 implies #[trigger] values_of(box_src.box_cells(bx0, by0))[t] == box_vals@[t] by {
                            assert(new_box.cells()[t] == new_box.at(t));
                        }
                    }
                }
                if contains_u32(&box_vals, number) {
                    proof {
                        if old(self).at_home() {
                            assert forall|n: u32, c: int, r: int| 1 <= n < number + 1 && #[trigger] box_target(box_src, boxdex as int, n, c, r)
                                implies cleared(*self, c, r, n) by {
                                if n == number {
                                    assert(values_of(box_src.box_cells(bx0, by0)).contains(number));
                                }
                            }
                        }
                    }
                    number += 1;
                    continue;
                }
                let box_cells = new_box.as_vec();
                proof {
                    assert forall|t: int| 0 <= t < box_cells@.len() implies (#[trigger] box_cells@[t]).wf() by {
                        assert(box_cells@[t] == new_box.at(t));
                        assert(new_box.content@[t / 3]@[t % 3].wf());
                    }
                    assert(values_of(box_cells@) =~= box_vals@) by {
                        assert forall|t: int| 0 <= t < 9 implies #[trigger] values_of(box_cells@)[t] == box_vals@[t] by {
                            assert(box_cells@[t] == new_box.at(t));
                        }
                    }
                }
                let poss_vec = Self::cells_taking(&box_cells, number);
                proof {
                    if old(self).at_home() {
                        assert forall|sol: Seq<Seq<u32>>| is_solution(sol) && #[trigger] agrees(*old(self), sol)
                            implies exists|t: int| 0 <= t < poss_vec@.len() && {
                                let c = #[trigger] poss_vec@[t];
                                &&& sol[c.coordinate.y as int][c.coordinate.x as int] == number
                                &&& bx0 <= c.coordinate.x <= bx0 + 2
                                &&& by0 <= c.coordinate.y <= by0 + 2
                            } by {
                            assert(agrees(box_src, sol));
                            lemma_box_candidates(box_src, sol, bx0, by0, number, box_cells@);
                            let t = choose|t: int| 0 <= t < taking(box_cells@, number).len() && {
                                let c = #[trigger] taking(box_cells@, number)[t];
                                &&& sol[c.coordinate.y as int][c.coordinate.x as int] == number
                                &&& bx0 <= c.coordinate.x <= bx0 + 2
                                &&& by0 <= c.coordinate.y <= by0 + 2
                            };
                            assert(poss_vec@[t] == taking(box_cells@, number)[t]);
                        }
                    }
                }
                if poss_vec.len() == 0 {
                    proof {
                        assert(box_cells@ =~= box_src.box_cells(bx0, by0)) by {
                            assert forall|t: int| 0 <= t < 9 implies #[trigger] box_cells@[t] == box_src.box_cells(bx0, by0)[t] by {
                                assert(box_cells@[t] == new_box.at(t));
                                assert(new_box.cells()[t] == new_box.at(t));
                            }
                        }
                        assert(box_blocked(box_src, boxdex as int, number));
                        assert(narrows(*old(self), box_src) && shrinks(box_src, *self));
                    }
                    return Err(SolveError::NoPlaceForValue);
                }
                let first_y = poss_vec[0].coordinate.y;
                let first_x = poss_vec[0].coordinate.x;
                let mut same_row_ct: usize = 0;
                let mut same_col_ct: usize = 0;
                let mut k: usize = 0;
                while k < poss_vec.len()
                    invariant
                        k <= poss_vec.len(),
                        same_row_ct <= k,
                        same_col_ct <= k,
                        (forall|t: int| 0 <= t < k ==> (#[trigger] poss_vec@[t]).coordinate.y == first_y) <==> same_row_ct == k,
                        (forall|t: int| 0 <= t < k ==> (#[trigger] poss_vec@[t]).coordinate.x == first_x) <==> same_col_ct == k,
                    decreases poss_vec.len() - k,
                {
                    if poss_vec[k].coordinate.y == first_y {
                        same_row_ct += 1;
                    }
                    if poss_vec[k].coordinate.x == first_x {
                        same_col_ct += 1;
                    }
                    k += 1;
                }
                assert(poss_vec@[0].wf());
                proof {
                    assert(box_cells@.contains(poss_vec@[0]));
                    let z = choose|z: int| 0 <= z < box_cells@.len() && box_cells@[z] == poss_vec@[0];
                    lemma_box_position(0, 0, z);
                    if old(self).at_home() {
                        assert(box_cells@[z] == box_src.cell(bx0 + z % 3, by0 + z / 3));
                        assert(box_src.at_home());
                    }
                }
                let ghost cand = taking(box_src.box_cells(bx0, by0), number);
                proof {
                    assert(poss_vec@ == cand);
                    assert(cand[0].coordinate.y == first_y && cand[0].coordinate.x == first_x);
                }
                if same_row_ct == poss_vec.len() {
                    let row_copy = self.grid[first_y as usize];
                    let ghost row_src = *self;
                    let mut j: usize = 0;
                    while j < 9
                        invariant
                            self.wf(),
                            narrows(*old(self), *self),
                            row_src.wf(),
                            narrows(*old(self), row_src),
                            first_y < 9,
                            row_copy == row_src.grid@[first_y as int],
                            j <= 9,
                            new_box.x == bx0,
                            new_box.x_lim == bx0 + 2,
                            new_box.y == by0,
                            new_box.y_lim == by0 + 2,
                            bx0 == 0 || bx0 == 3 || bx0 == 6,
                            by0 == 0 || by0 == 3 || by0 == 6,
                            old(self).at_home() ==> by0 <= first_y <= by0 + 2,
                            forall|t: int| 0 <= t < poss_vec@.len() ==> (#[trigger] poss_vec@[t]).coordinate.y == first_y,
                            poss_vec@ == cand,
                            cand == taking(box_src.box_cells(bx0, by0), number),
                            cand.len() > 0,
                            cand[0].coordinate.y == first_y,
                            bx0 == box_left(boxdex as int),
                            by0 == box_start(boxdex) as int,
                            boxdex < 9,
                            1 <= number <= 9,
                            !values_of(box_src.box_cells(bx0, by0)).contains(number),
                            narrows(box_src, *self),
                            old(self).at_home() ==> row_src.at_home(),
                            old(self).at_home() ==> forall|b: int, n: u32, c: int, r: int| 0 <= b < boxdex && #[trigger] box_target(states[b], b, n, c, r)
                                ==> cleared(*self, c, r, n),
                            old(self).at_home() ==> forall|n: u32, c: int, r: int| 1 <= n < number && #[trigger] box_target(box_src, boxdex as int, n, c, r)
                                ==> cleared(*self, c, r, n),
                            old(self).at_home() ==> forall|c: int| 0 <= c < j && #[trigger] box_target(box_src, boxdex as int, number, c, first_y as int)
                                ==> cleared(*self, c, first_y as int, number),
                            old(self).at_home() ==> forall|sol: Seq<Seq<u32>>| is_solution(sol) && #[trigger] agrees(*old(self), sol)
                                ==> agrees(*self, sol) && exists|t: int| 0 <= t < poss_vec@.len() && {
                                    let c = #[trigger] poss_vec@[t];
                                    &&& sol[c.coordinate.y as int][c.coordinate.x as int] == number
                                    &&& bx0 <= c.coordinate.x <= bx0 + 2
                                    &&& by0 <= c.coordinate.y <= by0 + 2
                                },
                        decreases 9 - j,
                    {
                        let cell = row_copy[j];
                        assert(row_src.cell(j as int, first_y as int).wf());
                        if !new_box.in_box(cell) {
                            let ghost before = *self;
                            proof {
                                if old(self).at_home() {
                                    assert(row_src.at_home());
                                    assert(cell == row_src.cell(j as int, first_y as int));
                                    assert(cell.coordinate == (Coordinate { x: j as u32, y: first_y }));
                                    assert forall|sol: Seq<Seq<u32>>| is_solution(sol) && #[trigger] agrees(*old(self), sol)
                                        implies sol[first_y as int][j as int] != number by {
                                        let t = choose|t: int| 0 <= t < poss_vec@.len() && {
                                            let c = #[trigger] poss_vec@[t];
                                            &&& sol[c.coordinate.y as int][c.coordinate.x as int] == number
                                            &&& bx0 <= c.coordinate.x <= bx0 + 2
                                            &&& by0 <= c.coordinate.y <= by0 + 2
                                        };
                                        let qx = poss_vec@[t].coordinate.x as int;
                                        assert(poss_vec@[t].coordinate.y == first_y);
                                        assert(peers(qx, first_y as int, j as int, first_y as int));
                                    }
                                }
                            }
                            match self.eliminate(cell.coordinate.x, cell.coordinate.y, number) {
                                Ok(()) => {},
                                Err(e) => {
                                    proof {
                                        lemma_shrinks_trans(*old(self), before, *self);
                                        if old(self).at_home() {
                                            assert forall|sol: Seq<Seq<u32>>| is_solution(sol) implies !#[trigger] agrees(*old(self), sol) by {
                                                if agrees(*old(self), sol) {
                                                    assert(agrees(before, sol));
                                                }
                                            }
                                        }
                                    }
                                    return Err(e);
                                },
                            }
                            proof {
                                lemma_narrows_trans(*old(self), before, *self);
                                lemma_narrows_trans(box_src, before, *self);
                                lemma_all_cleared_stay(before, *self);
                                if old(self).at_home() {
                                    assert forall|sol: Seq<Seq<u32>>| is_solution(sol) && #[trigger] agrees(*old(self), sol)
                                        implies agrees(*self, sol) by {
                                        assert(agrees(before, sol));
                                    }
                                    assert(cleared(*self, j as int, first_y as int, number));
                                }
                            }
                        } else {
                            proof {
                                if old(self).at_home() {
                                    assert(cell == row_src.cell(j as int, first_y as int));
                                    assert(!box_target(box_src, boxdex as int, number, j as int, first_y as int));
                                }
                            }
                        }
                        j += 1;
                    }
                    proof {
                        if old(self).at_home() {
                            assert forall|n: u32, c: int, r: int| 1 <= n < number + 1 && #[trigger] box_target(box_src, boxdex as int, n, c, r)
                                implies cleared(*self, c, r, n) by {
                                if n == number {
                                    assert(r == first_y);
                                }
                            }
                        }
                    }
                    number += 1;
                    continue;
                }
                if same_col_ct == poss_vec.len() {
                    let grid_copy = self.grid;
                    let ghost col_src = *self;
                    let col = first_x as usize;
                    let mut j: usize = 0;
                    while j < 9
                        invariant
                            self.wf(),
                            narrows(*old(self), *self),
                            col_src.wf(),
                            narrows(*old(self), col_src),
                            col < 9,
                            col == first_x,
                            grid_copy == col_src.grid,
                            j <= 9,
                            new_box.x == bx0,
                            new_box.x_lim == bx0 + 2,
                            new_box.y == by0,
                            new_box.y_lim == by0 + 2,
                            bx0 == 0 || bx0 == 3 || bx0 == 6,
                            by0 == 0 || by0 == 3 || by0 == 6,
                            old(self).at_home() ==> bx0 <= first_x <= bx0 + 2,
                            forall|t: int| 0 <= t < poss_vec@.len() ==> (#[trigger] poss_vec@[t]).coordinate.x == first_x,
                            !(forall|t: int| 0 <= t < poss_vec@.len() ==> (#[trigger] poss_vec@[t]).coordinate.y == first_y),
                            poss_vec@ == cand,
                            cand == taking(box_src.box_cells(bx0, by0), number),
                            cand.len() > 0,
                            cand[0].coordinate.y == first_y,
                            cand[0].coordinate.x == first_x,
                            bx0 == box_left(boxdex as int),
                            by0 == box_start(boxdex) as int,
                            boxdex < 9,
                            1 <= number <= 9,
                            !values_of(box_src.box_cells(bx0, by0)).contains(number),
                            narrows(box_src, *self),
                            old(self).at_home() ==> col_src.at_home(),
                            old(self).at_home() ==> forall|b: int, n: u32, c: int, r: int| 0 <= b < boxdex && #[trigger] box_target(states[b], b, n, c, r)
                                ==> cleared(*self, c, r, n),
                            old(self).at_home() ==> forall|n: u32, c: int, r: int| 1 <= n < number && #[trigger] box_target(box_src, boxdex as int, n, c, r)
                                ==> cleared(*self, c, r, n),
                            old(self).at_home() ==> forall|r: int| 0 <= r < j && #[trigger] box_target(box_src, boxdex as int, number, first_x as int, r)
                                ==> cleared(*self, first_x as int, r, number),
                            old(self).at_home() ==> forall|sol: Seq<Seq<u32>>| is_solution(sol) && #[trigger] agrees(*old(self), sol)
                                ==> agrees(*self, sol) && exists|t: int| 0 <= t < poss_vec@.len() && {
                                    let c = #[trigger] poss_vec@[t];
                                    &&& sol[c.coordinate.y as int][c.coordinate.x as int] == number
                                    &&& bx0 <= c.coordinate.x <= bx0 + 2
                                    &&& by0 <= c.coordinate.y <= by0 + 2
                                },
                        decreases 9 - j,
                    {
                        let cell = grid_copy[j][col];
                        assert(col_src.cell(col as int, j as int).wf());
                        if !new_box.in_box(cell) {
                            let ghost before = *self;
                            proof {
                                if old(self).at_home() {
                                    assert(col_src.at_home());
                                    assert(cell == col_src.cell(col as int, j as int));
                                    assert(cell.coordinate == (Coordinate { x: first_x, y: j as u32 }));
                                    assert forall|sol: Seq<Seq<u32>>| is_solution(sol) && #[trigger] agrees(*old(self), sol)
                                        implies sol[j as int][first_x as int] != number by {
                                        let t = choose|t: int| 0 <= t < poss_vec@.len() && {
                                            let c = #[trigger] poss_vec@[t];
                                            &&& sol[c.coordinate.y as int][c.coordinate.x as int] == number
                                            &&& bx0 <= c.coordinate.x <= bx0 + 2
                                            &&& by0 <= c.coordinate.y <= by0 + 2
                                        };
                                        let qy = poss_vec@[t].coordinate.y as int;
                                        assert(poss_vec@[t].coordinate.x == first_x);
                                        assert(peers(first_x as int, qy, first_x as int, j as int));
                                    }
                                }
                            }
                            match self.eliminate(cell.coordinate.x, cell.coordinate.y, number) {
                                Ok(()) => {},
                                Err(e) => {
                                    proof {
                                        lemma_shrinks_trans(*old(self), before, *self);
                                        if old(self).at_home() {
                                            assert forall|sol: Seq<Seq<u32>>| is_solution(sol) implies !#[trigger] agrees(*old(self), sol) by {
                                                if agrees(*old(self), sol) {
                                                    assert(agrees(before, sol));
                                                }
                                            }
                                        }
                                    }
                                    return Err(e);
                                },
                            }
                            proof {
                                lemma_narrows_trans(*old(self), before, *self);
                                lemma_narrows_trans(box_src, before, *self);
                                lemma_all_cleared_stay(before, *self);
                                if old(self).at_home() {
                                    assert forall|sol: Seq<Seq<u32>>| is_solution(sol) && #[trigger] agrees(*old(self), sol)
                                        implies agrees(*self, sol) by {
                                        assert(agrees(before, sol));
                                    }
                                    assert(cleared(*self, first_x as int, j as int, number));
                                }
                            }
                        } else {
                            proof {
                                if old(self).at_home() {
                                    assert(cell == col_src.cell(col as int, j as int));
                                    assert(!box_target(box_src, boxdex as int, number, first_x as int, j as int));
                                }
                            }
                        }
                        j += 1;
                    }
                    proof {
                        if old(self).at_home() {
                            assert forall|n: u32, c: int, r: int| 1 <= n < number + 1 && #[trigger] box_target(box_src, boxdex as int, n, c, r)
                                implies cleared(*self, c, r, n) by {
                                if n == number {
                                    assert(c == first_x);
                                }
                            }
                        }
                    }
                } else {
                    proof {
                        if old(self).at_home() {
                            assert forall|n: u32, c: int, r: int| 1 <= n < number + 1 && #[trigger] box_target(box_src, boxdex as int, n, c, r)
                                implies cleared(*self, c, r, n) by {
                                if n == number {
                                    assert(!(forall|t: int| 0 <= t < poss_vec@.len() ==> (#[trigger] poss_vec@[t]).coordinate.x == first_x));
                                }
                            }
                        }
                    }
                }
                number += 1;
            }
            proof {
                assert forall|b: int| 0 <= b < boxdex + 1 implies narrows(*old(self), #[trigger] states[b]) && narrows(states[b], *self) && states[b].wf() by {
                    if b < boxdex {
                        lemma_narrows_trans(states[b], box_src, *self);
                    }
                }
                if old(self).at_home() {
                    assert forall|b: int, n: u32, c: int, r: int| 0 <= b < boxdex + 1 && #[trigger] box_target(states[b], b, n, c, r)
                        implies cleared(*self, c, r, n) by {
                        if b == boxdex {
                            if n < 1 || n > 9 {
                            } else {
                                assert(box_target(box_src, boxdex as int, n, c, r));
                            }
                        }
                    }
                }
            }
            boxdex += 1;
        }
        proof {
            if old(self).at_home() {
                assert(states.len() == 9);
            }
        }
        Ok(())
    }

    /// Whether every cell of `cells` after the first lies in `check_box`.
    fn rest_in_box(check_box: &SudokuBox, cells: &Vec<SudokuCell>) -> (r: bool)
        ensures
            r == forall|i: int| 1 <= i < cells@.len() ==> check_box.covers(#[trigger] cells@[i]),
    {
        let mut i: usize = 1;
        while i < cells.len()
            invariant
                1 <= i,
                forall|t: int| 1 <= t < i && t < cells@.len() ==> check_box.covers(#[trigger] cells@[t]),
            decreases cells.len() - i,
        {
            if !check_box.in_box(cells[i]) {
                return false;
            }
            i += 1;
        }
        true
    }

    /// Splits a line of cells into its open cells and the values of its defined cells.
    fn split_line(line: &Vec<SudokuCell>) -> (r: (Vec<SudokuCell>, Vec<u32>))
        requires
            forall|i: int| 0 <= i < line@.len() ==> (#[trigger] line@[i]).wf(),
        ensures
            r.0@ == open_cells(line@),
            r.1@ == values_of(cells_with_value(line@)),
            forall|i: int| 0 <= i < r.0@.len() ==> (#[trigger] r.0@[i]).wf() && line@.contains(r.0@[i]),
    {
        let mut empty: Vec<SudokuCell> = Vec::new();
        let mut defined_nums: Vec<u32> = Vec::new();
        let mut i: usize = 0;
        while i < line.len()
            invariant
                i <= line.len(),
                forall|t: int| 0 <= t < line@.len() ==> (#[trigger] line@[t]).wf(),
                forall|t: int| 0 <= t < empty@.len() ==> (#[trigger] empty@[t]).wf() && line@.contains(empty@[t]),
                empty@ == open_cells(line@.take(i as int)),
                defined_nums@ == values_of(cells_with_value(line@.take(i as int))),
            decreases line.len() - i,
        {
            let c = line[i];
            proof {
                assert(line@.take(i + 1).drop_last() =~= line@.take(i as int));
                assert(line@.take(i + 1).last() == c);
                assert(line@[i as int].wf());
            }
            if !c.defined {
                empty.push(c);
                assert(line@[i as int] == c);
            } else {
                defined_nums.push(c.value_as_int);
                proof {
                    assert(values_of(cells_with_value(line@.take(i + 1))) =~= values_of(cells_with_value(line@.take(i as int))).push(c.value_as_int));
                }
            }
            i += 1;
        }
        proof { assert(line@.take(line@.len() as int) =~= line@); }
        (empty, defined_nums)
    }

    /// For each row, then each column, and each value the line lacks: when the cells of the
    /// line that can take the value all lie in one box, strikes the value from the other
    /// cells of that box. Stops with `NoPlaceForValue` when no cell of the line can take it.
    pub fn line_elimination(&mut self) -> (r: Result<(), SolveError>)
        requires
            old(self).wf(),
        ensures
            r matches Err(e) ==> e == SolveError::CellEmptied || e == SolveError::NoPlaceForValue,
            (r matches Err(e) && e == SolveError::CellEmptied) ==> emptiable(*final(self)),
            (r matches Err(e) && e == SolveError::NoPlaceForValue) ==>
                (exists|y: int, n: u32| 0 <= y < 9 && #[trigger] line_blocked(old(self).row_cells(y), n))
                || (exists|g: SudokuGrid, x: int, n: u32| narrows(*old(self), g) && shrinks(g, *final(self)) && 0 <= x < 9
                    && #[trigger] line_blocked(g.col_cells(x), n)),
            final(self).wf(),
            shrinks(*old(self), *final(self)),
            r is Ok ==> narrows(*old(self), *final(self)),
            old(self).at_home() ==> forall|sol: Seq<Seq<u32>>| is_solution(sol) && #[trigger] agrees(*old(self), sol)
                ==> r is Ok && agrees(*final(self), sol),
            r is Ok && old(self).at_home() ==> forall|y: int, n: u32, c: int, rr: int| #[trigger] row_line_target(*old(self), y, n, c, rr)
                ==> cleared(*final(self), c, rr, n),
            r is Ok && old(self).at_home() ==> exists|cols: Seq<SudokuGrid>| cols.len() == 9
                && (forall|x: int| 0 <= x < 9 ==> narrows(*old(self), #[trigger] cols[x]) && narrows(cols[x], *final(self)) && cols[x].wf())
                && (forall|x: int, n: u32, c: int, rr: int| 0 <= x < 9 && #[trigger] col_line_target(cols[x], x, n, c, rr)
                    ==> cleared(*final(self), c, rr, n)),
    {
        proof { lemma_narrows_refl(*self); }
        let snapshot = *self;
        let mut r: usize = 0;
        while r < GRID_SIZE
            invariant
                self.wf(),
                narrows(*old(self), *self),
                snapshot.wf(),
                snapshot == *old(self),
                r <= 9,
                old(self).at_home() ==> forall|sol: Seq<Seq<u32>>| is_solution(sol) && #[trigger] agrees(*old(self), sol)
                    ==> agrees(*self, sol),
                old(self).at_home() ==> forall|y: int, n: u32, c: int, rr: int| y < r && #[trigger] row_line_target(*old(self), y, n, c, rr)
                    ==> cleared(*self, c, rr, n),
            decreases 9 - r,
        {
            let row = snapshot.row_vec(r as u32);
            proof {
                assert forall|t: int| 0 <= t < row@.len() implies (#[trigger] row@[t]).wf() by {
                    assert(snapshot.cell(t, r as int).wf());
                }
            }
            let (empty_row, defined_nums) = Self::split_line(&row);
            let mut num: u32 = 1;
            while num < GRID_SIZE_I + 1
                invariant
                    self.wf(),
                    narrows(*old(self), *self),
                    snapshot == *old(self),
                    snapshot.wf(),
                    r < 9,
                    row@ == snapshot.row_cells(r as int),
                    row@.len() == 9,
                    forall|t: int| 0 <= t < 9 ==> (#[trigger] row@[t]).wf(),
                    forall|t: int| 0 <= t < empty_row@.len() ==> (#[trigger] empty_row@[t]).wf(),
                    empty_row@ == open_cells(row@),
                    defined_nums@ == values_of(cells_with_value(row@)),
                    1 <= num <= 10,
                    old(self).at_home() ==> forall|sol: Seq<Seq<u32>>| is_solution(sol) && #[trigger] agrees(*old(self), sol)
                        ==> agrees(*self, sol),
                    old(self).at_home() ==> forall|y: int, n: u32, c: int, rr: int| y < r && #[trigger] row_line_target(*old(self), y, n, c, rr)
                        ==> cleared(*self, c, rr, n),
                    old(self).at_home() ==> forall|n: u32, c: int, rr: int| n < num && #[trigger] row_line_target(*old(self), r as int, n, c, rr)
                        ==> cleared(*self, c, rr, n),
                decreases 10 - num,
            {
                if contains_u32(&defined_nums, num) {
                    proof {
                        if old(self).at_home() {
                            assert forall|n: u32, c: int, rr: int| n < num + 1 && #[trigger] row_line_target(*old(self), r as int, n, c, rr)
                                implies cleared(*self, c, rr, n) by {
                                if n == num {
                                    assert(values_of(cells_with_value(row@)).contains(num));
                                }
                            }
                        }
                    }
                    num += 1;
                    continue;
                }
                let cells = Self::cells_taking(&empty_row, num);
                proof {
                    if old(self).at_home() {
                        assert forall|sol: Seq<Seq<u32>>| is_solution(sol) && #[trigger] agrees(*old(self), sol)
                            implies exists|t: int| 0 <= t < cells@.len() && {
                                    let c = #[trigger] cells@[t];
                                    &&& sol[c.coordinate.y as int][c.coordinate.x as int] == num
                                    &&& c.coordinate.y == r
                                } by {
                            assert forall|t: int| 0 <= t < row@.len() && (#[trigger] row@[t]).defined implies row@[t].value_as_int != num by {
                                if row@[t].value_as_int == num {
                                    lemma_cells_with_value_has(row@, t);
                                }
                            }
                            assert forall|t: int| 0 <= t < row@.len() && !(#[trigger] row@[t]).defined implies empty_row@.contains(row@[t]) by {
                                lemma_open_cells_has(row@, t);
                            }
                            lemma_line_candidates(snapshot, sol, 0, 0, r as int, num, row@, empty_row@);
                        }
                    }
                }
                if cells.len() == 0 {
                    proof {
                        assert(line_blocked(old(self).row_cells(r as int), num));
                    }
                    return Err(SolveError::NoPlaceForValue);
                }
                assert(cells@[0].wf());
                let check_box = SudokuBox::new(
                    SudokuBox::coord_translator(cells[0].coordinate.x),
                    SudokuBox::coord_translator(cells[0].coordinate.y),
                    *self,
                );
                if !Self::rest_in_box(&check_box, &cells) {
                    proof {
                        if old(self).at_home() {
                            assert forall|n: u32, c: int, rr: int| n < num + 1 && #[trigger] row_line_target(*old(self), r as int, n, c, rr)
                                implies cleared(*self, c, rr, n) by {
                                if n == num {
                                    assert(cells@ == taking(open_cells(row@), num));
                                    assert(old(self).row_cells(r as int) == row@);
                                    let t = choose|t: int| 1 <= t < cells@.len() && !check_box.covers(#[trigger] cells@[t]);
                                    let cand = taking(open_cells(old(self).row_cells(r as int)), num);
                                    assert(cand == cells@);
                                    let bx = box_start(cand[0].coordinate.x) as int;
                                    let by = box_start(cand[0].coordinate.y) as int;
                                    assert(bx <= cand[t].coordinate.x <= bx + 2 && by <= cand[t].coordinate.y <= by + 2);
                                    assert(check_box.covers(cells@[t]));
                                }
                            }
                        }
                    }
                    num += 1;
                    continue;
                }
                let ghost box_src = *self;
                let box_cells = check_box.as_vec();
                let first = row[0];
                assert(row@[0].wf());
                let mut j: usize = 0;
                while j < box_cells.len()
                    invariant
                        self.wf(),
                        narrows(*old(self), *self),
                        box_src.wf(),
                        narrows(*old(self), box_src),
                        box_cells@ == check_box.cells(),
                        check_box.wf(),
                        check_box.x == box_start(cells@[0].coordinate.x),
                        check_box.y == box_start(cells@[0].coordinate.y),
                        check_box.x_lim == check_box.x + 2,
                        check_box.y_lim == check_box.y + 2,
                        forall|rr: int, c: int| 0 <= rr < 3 && 0 <= c < 3 ==> #[trigger] check_box.content@[rr]@[c] == box_src.cell(check_box.x + c, check_box.y + rr),
                        forall|t: int| 1 <= t < cells@.len() ==> check_box.covers(#[trigger] cells@[t]),
                        cells@.len() > 0,
                        cells@[0].wf(),
                        first == row@[0],
                        row@ == snapshot.row_cells(r as int),
                        snapshot == *old(self),
                        r < 9,
                        j <= box_cells.len(),
                        old(self).at_home() ==> forall|sol: Seq<Seq<u32>>| is_solution(sol) && #[trigger] agrees(*old(self), sol)
                            ==> agrees(*self, sol) && exists|t: int| 0 <= t < cells@.len() && {
                                    let c = #[trigger] cells@[t];
                                    &&& sol[c.coordinate.y as int][c.coordinate.x as int] == num
                                    &&& c.coordinate.y == r
                                },
                        cells@ == taking(open_cells(row@), num),
                        1 <= num <= 9,
                        narrows(box_src, *self),
                        old(self).at_home() ==> box_src.at_home(),
                        old(self).at_home() ==> forall|y: int, n: u32, c: int, rr: int| y < r && #[trigger] row_line_target(*old(self), y, n, c, rr)
                            ==> cleared(*self, c, rr, n),
                        old(self).at_home() ==> forall|n: u32, c: int, rr: int| n < num && #[trigger] row_line_target(*old(self), r as int, n, c, rr)
                            ==> cleared(*self, c, rr, n),
                        old(self).at_home() ==> forall|t: int| 0 <= t < j && #[trigger] row_line_target(*old(self), r as int, num,
                            check_box.x + t % 3, check_box.y + t / 3) ==> cleared(*self, check_box.x + t % 3, check_box.y + t / 3, num),
                    decreases box_cells.len() - j,
                {
                    let box_cell = box_cells[j];
                    proof {
                        assert(box_cells@.len() == 9);
                        assert(box_cell == check_box.at(j as int));
                        assert(check_box.content@[(j / 3) as int]@[(j % 3) as int].wf());
                    }
                    if box_cell.coordinate.y == first.coordinate.y {
                        proof {
                            if old(self).at_home() {
                                lemma_box_position(0, 0, j as int);
                                let tx = check_box.x + (j as int) % 3;
                                let ty = check_box.y + (j as int) / 3;
                                assert(box_cell == box_src.cell(tx, ty));
                                assert(box_cell.coordinate == (Coordinate { x: tx as u32, y: ty as u32 }));
                                assert(snapshot.at_home());
                                assert(row@[0] == snapshot.cell(0, r as int));
                                assert(!row_line_target(*old(self), r as int, num, tx, ty));
                            }
                        }
                        j += 1;
                        continue;
                    }
                    let ghost before = *self;
                    proof {
                        if old(self).at_home() {
                            lemma_box_position(0, 0, j as int);
                            let tx = check_box.x + (j as int) % 3;
                            let ty = check_box.y + (j as int) / 3;
                            assert(box_cell == box_src.cell(tx, ty));
                            assert(box_src.at_home());
                            assert(box_cell.coordinate == (Coordinate { x: tx as u32, y: ty as u32 }));
                            assert(snapshot.at_home());
                            assert(row@[0] == snapshot.cell(0, r as int));
                            assert(first.coordinate == (Coordinate { x: 0, y: r as u32 }));
                            assert forall|sol: Seq<Seq<u32>>| is_solution(sol) && #[trigger] agrees(*old(self), sol)
                                implies sol[ty][tx] != num by {
                                let t = choose|t: int| 0 <= t < cells@.len() && {
                                    let c = #[trigger] cells@[t];
                                    &&& sol[c.coordinate.y as int][c.coordinate.x as int] == num
                                    &&& c.coordinate.y == r
                                };
                                let c = cells@[t];
                                if t >= 1 {
                                    assert(check_box.covers(c));
                                }
                                lemma_same_box(check_box.x as int, check_box.y as int, c.coordinate.x as int, r as int, tx, ty);
                            }
                        }
                    }
                    match self.eliminate(box_cell.coordinate.x, box_cell.coordinate.y, num) {
                        Ok(()) => {},
                        Err(e) => {
                            proof {
                                lemma_shrinks_trans(*old(self), before, *self);
                                if old(self).at_home() {
                                    assert forall|sol: Seq<Seq<u32>>| is_solution(sol) implies !#[trigger] agrees(*old(self), sol) by {
                                        if agrees(*old(self), sol) {
                                            assert(agrees(before, sol));
                                        }
                                    }
                                }
                            }
                            return Err(e);
                        },
                    }
                    proof {
                        lemma_narrows_trans(*old(self), before, *self);
                        lemma_narrows_trans(box_src, before, *self);
                        lemma_all_cleared_stay(before, *self);
                        if old(self).at_home() {
                            assert forall|sol: Seq<Seq<u32>>| is_solution(sol) && #[trigger] agrees(*old(self), sol)
                                implies agrees(*self, sol) by {
                                assert(agrees(before, sol));
                            }
                            lemma_box_position(0, 0, j as int);
                            let tx = check_box.x + (j as int) % 3;
                            let ty = check_box.y + (j as int) / 3;
                            assert(box_cell.coordinate == (Coordinate { x: tx as u32, y: ty as u32 }));
                            assert(cleared(*self, tx, ty, num));
                        }
                    }
                    j += 1;
                }
                proof {
                    if old(self).at_home() {
                        assert forall|n: u32, c: int, rr: int| n < num + 1 && #[trigger] row_line_target(*old(self), r as int, n, c, rr)
                            implies cleared(*self, c, rr, n) by {
                            if n == num {
                                assert(old(self).row_cells(r as int) == row@);
                                assert(check_box.x == box_start(cells@[0].coordinate.x));
                                let t = 3 * (rr - check_box.y) + (c - check_box.x);
                                assert(0 <= t < 9 && t % 3 == c - check_box.x && t / 3 == rr - check_box.y) by (nonlinear_arith)
                                    requires 0 <= c - check_box.x < 3, 0 <= rr - check_box.y < 3, t == 3 * (rr - check_box.y) + (c - check_box.x);
                                assert(row_line_target(*old(self), r as int, num, check_box.x + t % 3, check_box.y + t / 3));
                            }
                        }
                    }
                }
                num += 1;
            }
            proof {
                if old(self).at_home() {
                    assert forall|y: int, n: u32, c: int, rr: int| y < r + 1 && #[trigger] row_line_target(*old(self), y, n, c, rr)
                        implies cleared(*self, c, rr, n) by {
                        if y == r && n >= 10 {
                        }
                    }
                }
            }
            r += 1;
        }

        let ghost mut cols: Seq<SudokuGrid> = Seq::empty();
        proof {
            if old(self).at_home() {
                assert forall|y: int, n: u32, c: int, rr: int| #[trigger] row_line_target(*old(self), y, n, c, rr)
                    implies cleared(*self, c, rr, n) by {
                    assert(y < r);
                }
            }
        }
        let mut col: usize = 0;
        while col < GRID_SIZE
            invariant
                self.wf(),
                narrows(*old(self), *self),
                col <= 9,
                old(self).at_home() ==> forall|y: int, n: u32, c: int, rr: int| #[trigger] row_line_target(*old(self), y, n, c, rr)
                    ==> cleared(*self, c, rr, n),
                cols.len() == col,
                forall|x: int| 0 <= x < col ==> narrows(*old(self), #[trigger] cols[x]) && narrows(cols[x], *self) && cols[x].wf(),
                old(self).at_home() ==> forall|x: int, n: u32, c: int, rr: int| 0 <= x < col && #[trigger] col_line_target(cols[x], x, n, c, rr)
                    ==> cleared(*self, c, rr, n),
                old(self).at_home() ==> forall|sol: Seq<Seq<u32>>| is_solution(sol) && #[trigger] agrees(*old(self), sol)
                    ==> agrees(*self, sol),
            decreases 9 - col,
        {
            let column = self.col_vec(col as u32);
            let ghost col_src = *self;
            proof {
                cols = cols.push(col_src);
                lemma_narrows_refl(col_src);
            }
            proof {
                assert forall|t: int| 0 <= t < column@.len() implies (#[trigger] column@[t]).wf() by {
                    assert(self.cell(col as int, t).wf());
                }
            }
            let (empty_col, defined_nums) = Self::split_line(&column);
            let mut num: u32 = 1;
            while num < GRID_SIZE_I + 1
                invariant
                    self.wf(),
                    narrows(*old(self), *self),
                    col_src.wf(),
                    narrows(*old(self), col_src),
                    col < 9,
                    column@ == col_src.col_cells(col as int),
                    forall|t: int| 0 <= t < column@.len() ==> (#[trigger] column@[t]).wf(),
                    forall|t: int| 0 <= t < empty_col@.len() ==> (#[trigger] empty_col@[t]).wf(),
                    empty_col@ == open_cells(column@),
                    defined_nums@ == values_of(cells_with_value(column@)),
                    1 <= num <= 10,
                    old(self).at_home() ==> forall|sol: Seq<Seq<u32>>| is_solution(sol) && #[trigger] agrees(*old(self), sol)
                        ==> agrees(*self, sol) && agrees(col_src, sol),
                    old(self).at_home() ==> forall|y: int, n: u32, c: int, rr: int| #[trigger] row_line_target(*old(self), y, n, c, rr)
                        ==> cleared(*self, c, rr, n),
                    cols.len() == col + 1,
                    cols[col as int] == col_src,
                    narrows(col_src, *self),
                    forall|x: int| 0 <= x < col ==> narrows(*old(self), #[trigger] cols[x]) && narrows(cols[x], col_src) && cols[x].wf(),
                    old(self).at_home() ==> forall|x: int, n: u32, c: int, rr: int| 0 <= x < col && #[trigger] col_line_target(cols[x], x, n, c, rr)
                        ==> cleared(*self, c, rr, n),
                    old(self).at_home() ==> forall|n: u32, c: int, rr: int| n < num && #[trigger] col_line_target(col_src, col as int, n, c, rr)
                        ==> cleared(*self, c, rr, n),
                decreases 10 - num,
            {
                if contains_u32(&defined_nums, num) {
                    proof {
                        if old(self).at_home() {
                            assert forall|n: u32, c: int, rr: int| n < num + 1 && #[trigger] col_line_target(col_src, col as int, n, c, rr)
                                implies cleared(*self, c, rr, n) by {
                                if n == num {
                                    assert(values_of(cells_with_value(column@)).contains(num));
                                }
                            }
                        }
                    }
                    num += 1;
                    continue;
                }
                let cells = Self::cells_taking(&empty_col, num);
                proof {
                    if old(self).at_home() {
                        assert forall|sol: Seq<Seq<u32>>| is_solution(sol) && #[trigger] agrees(*old(self), sol)
                            implies exists|t: int| 0 <= t < cells@.len() && {
                                    let c = #[trigger] cells@[t];
                                    &&& sol[c.coordinate.y as int][c.coordinate.x as int] == num
                                    &&& c.coordinate.x == col
                                } by {
                            assert forall|t: int| 0 <= t < column@.len() && (#[trigger] column@[t]).defined implies column@[t].value_as_int != num by {
                                if column@[t].value_as_int == num {
                                    lemma_cells_with_value_has(column@, t);
                                }
                            }
                            assert forall|t: int| 0 <= t < column@.len() && !(#[trigger] column@[t]).defined implies empty_col@.contains(column@[t]) by {
                                lemma_open_cells_has(column@, t);
                            }
                            assert(col_src.at_home());
                            lemma_line_candidates(col_src, sol, 1, col as int, 0, num, column@, empty_col@);
                        }
                    }
                }
                if cells.len() == 0 {
                    proof {
                        assert(line_blocked(col_src.col_cells(col as int), num));
                        assert(narrows(*old(self), col_src) && shrinks(col_src, *self));
                    }
                    return Err(SolveError::NoPlaceForValue);
                }
                assert(cells@[0].wf());
                let check_box = SudokuBox::new(
                    SudokuBox::coord_translator(cells[0].coordinate.x),
                    SudokuBox::coord_translator(cells[0].coordinate.y),
                    *self,
                );
                if !Self::rest_in_box(&check_box, &cells) {
                    proof {
                        if old(self).at_home() {
                            assert forall|n: u32, c: int, rr: int| n < num + 1 && #[trigger] col_line_target(col_src, col as int, n, c, rr)
                                implies cleared(*self, c, rr, n) by {
                                if n == num {
                                    assert(cells@ == taking(open_cells(column@), num));
                                    let t = choose|t: int| 1 <= t < cells@.len() && !check_box.covers(#[trigger] cells@[t]);
                                    let cand = taking(open_cells(col_src.col_cells(col as int)), num);
                                    assert(cand == cells@);
                                    let bx = box_start(cand[0].coordinate.x) as int;
                                    let by = box_start(cand[0].coordinate.y) as int;
                                    assert(bx <= cand[t].coordinate.x <= bx + 2 && by <= cand[t].coordinate.y <= by + 2);
                                    assert(check_box.covers(cells@[t]));
                                }
                            }
                        }
                    }
                    num += 1;
                    continue;
                }
                let ghost box_src = *self;
                let box_cells = check_box.as_vec();
                let mut j: usize = 0;
                while j < box_cells.len()
                    invariant
                        self.wf(),
                        narrows(*old(self), *self),
                        box_src.wf(),
                        narrows(*old(self), box_src),
                        box_cells@ == check_box.cells(),
                        check_box.wf(),
                        check_box.x == box_start(cells@[0].coordinate.x),
                        check_box.y == box_start(cells@[0].coordinate.y),
                        check_box.x_lim == check_box.x + 2,
                        check_box.y_lim == check_box.y + 2,
                        forall|rr: int, c: int| 0 <= rr < 3 && 0 <= c < 3 ==> #[trigger] check_box.content@[rr]@[c] == box_src.cell(check_box.x + c, check_box.y + rr),
                        forall|t: int| 1 <= t < cells@.len() ==> check_box.covers(#[trigger] cells@[t]),
                        cells@.len() > 0,
                        cells@[0].wf(),
                        col < 9,
                        j <= box_cells.len(),
                        cells@ == taking(open_cells(column@), num),
                        column@ == col_src.col_cells(col as int),
                        1 <= num <= 9,
                        narrows(box_src, *self),
                        narrows(col_src, box_src),
                        old(self).at_home() ==> box_src.at_home(),
                        old(self).at_home() ==> forall|y: int, n: u32, c: int, rr: int| #[trigger] row_line_target(*old(self), y, n, c, rr)
                            ==> cleared(*self, c, rr, n),
                        cols.len() == col + 1,
                        cols[col as int] == col_src,
                        narrows(col_src, *self),
                        forall|x: int| 0 <= x < col ==> narrows(*old(self), #[trigger] cols[x]) && narrows(cols[x], col_src) && cols[x].wf(),
                        old(self).at_home() ==> forall|x: int, n: u32, c: int, rr: int| 0 <= x < col && #[trigger] col_line_target(cols[x], x, n, c, rr)
                            ==> cleared(*self, c, rr, n),
                        old(self).at_home() ==> forall|n: u32, c: int, rr: int| n < num && #[trigger] col_line_target(col_src, col as int, n, c, rr)
                            ==> cleared(*self, c, rr, n),
                        old(self).at_home() ==> forall|t: int| 0 <= t < j && #[trigger] col_line_target(col_src, col as int, num,
                            check_box.x + t % 3, check_box.y + t / 3) ==> cleared(*self, check_box.x + t % 3, check_box.y + t / 3, num),
                        old(self).at_home() ==> forall|sol: Seq<Seq<u32>>| is_solution(sol) && #[trigger] agrees(*old(self), sol)
                            ==> agrees(*self, sol) && exists|t: int| 0 <= t < cells@.len() && {
                                    let c = #[trigger] cells@[t];
                                    &&& sol[c.coordinate.y as int][c.coordinate.x as int] == num
                                    &&& c.coordinate.x == col
                                },
                    decreases box_cells.len() - j,
                {
                    let box_cell = box_cells[j];
                    proof {
                        assert(box_cells@.len() == 9);
                        assert(box_cell == check_box.at(j as int));
                        assert(check_box.content@[(j / 3) as int]@[(j % 3) as int].wf());
                    }
                    if box_cell.coordinate.x == self.grid[0][col].coordinate.x {
                        proof {
                            if old(self).at_home() {
                                lemma_box_position(0, 0, j as int);
                                let tx = check_box.x + (j as int) % 3;
                                let ty = check_box.y + (j as int) / 3;
                                assert(box_cell == box_src.cell(tx, ty));
                                assert(box_cell.coordinate == (Coordinate { x: tx as u32, y: ty as u32 }));
                                assert(self.at_home());
                                assert(self.cell(col as int, 0).coordinate == (Coordinate { x: col as u32, y: 0 }));
                                assert(!col_line_target(col_src, col as int, num, tx, ty));
                            }
                        }
                        j += 1;
                        continue;
                    }
                    let ghost before = *self;
                    proof {
                        if old(self).at_home() {
                            lemma_box_position(0, 0, j as int);
                            let tx = check_box.x + (j as int) % 3;
                            let ty = check_box.y + (j as int) / 3;
                            assert(box_cell == box_src.cell(tx, ty));
                            assert(box_src.at_home());
                            assert(box_cell.coordinate == (Coordinate { x: tx as u32, y: ty as u32 }));
                            assert(self.at_home());
                            assert(self.cell(col as int, 0).coordinate == (Coordinate { x: col as u32, y: 0 }));
                            assert forall|sol: Seq<Seq<u32>>| is_solution(sol) && #[trigger] agrees(*old(self), sol)
                                implies sol[ty][tx] != num by {
                                let t = choose|t: int| 0 <= t < cells@.len() && {
                                    let c = #[trigger] cells@[t];
                                    &&& sol[c.coordinate.y as int][c.coordinate.x as int] == num
                                    &&& c.coordinate.x == col
                                };
                                let c = cells@[t];
                                if t >= 1 {
                                    assert(check_box.covers(c));
                                }
                                lemma_same_box(check_box.x as int, check_box.y as int, col as int, c.coordinate.y as int, tx, ty);
                            }
                        }
                    }
                    match self.eliminate(box_cell.coordinate.x, box_cell.coordinate.y, num) {
                        Ok(()) => {},
                        Err(e) => {
                            proof {
                                lemma_shrinks_trans(*old(self), before, *self);
                                if old(self).at_home() {
                                    assert forall|sol: Seq<Seq<u32>>| is_solution(sol) implies !#[trigger] agrees(*old(self), sol) by {
                                        if agrees(*old(self), sol) {
                                            assert(agrees(before, sol));
                                        }
                                    }
                                }
                            }
                            return Err(e);
                        },
                    }
                    proof {
                        lemma_narrows_trans(*old(self), before, *self);
                        lemma_narrows_trans(box_src, before, *self);
                        lemma_all_cleared_stay(before, *self);
                        if old(self).at_home() {
                            assert forall|sol: Seq<Seq<u32>>| is_solution(sol) && #[trigger] agrees(*old(self), sol)
                                implies agrees(*self, sol) by {
                                assert(agrees(before, sol));
                            }
                            lemma_box_position(0, 0, j as int);
                            let tx = check_box.x + (j as int) % 3;
                            let ty = check_box.y + (j as int) / 3;
                            assert(box_cell.coordinate == (Coordinate { x: tx as u32, y: ty as u32 }));
                            assert(cleared(*self, tx, ty, num));
                        }
                    }
                    j += 1;
                }
                proof {
                    lemma_narrows_trans(col_src, box_src, *self);
                    if old(self).at_home() {
                        assert forall|n: u32, c: int, rr: int| n < num + 1 && #[trigger] col_line_target(col_src, col as int, n, c, rr)
                            implies cleared(*self, c, rr, n) by {
                            if n == num {
                                assert(check_box.x == box_start(cells@[0].coordinate.x));
                                let t = 3 * (rr - check_box.y) + (c - check_box.x);
                                assert(0 <= t < 9 && t % 3 == c - check_box.x && t / 3 == rr - check_box.y) by (nonlinear_arith)
                                    requires 0 <= c - check_box.x < 3, 0 <= rr - check_box.y < 3, t == 3 * (rr - check_box.y) + (c - check_box.x);
                                assert(col_line_target(col_src, col as int, num, check_box.x + t % 3, check_box.y + t / 3));
                            }
                        }
                    }
                }
                num += 1;
            }
            proof {
                assert forall|x: int| 0 <= x < col + 1 implies narrows(*old(self), #[trigger] cols[x]) && narrows(cols[x], *self) && cols[x].wf() by {
                    if x < col {
                        lemma_narrows_trans(cols[x], col_src, *self);
                    }
                }
                if old(self).at_home() {
                    assert forall|x: int, n: u32, c: int, rr: int| 0 <= x < col + 1 && #[trigger] col_line_target(cols[x], x, n, c, rr)
                        implies cleared(*self, c, rr, n) by {
                        if x == col && n >= 10 {
                        }
                    }
                }
            }
            col += 1;
        }
        Ok(())
    }
}

} // verus!
