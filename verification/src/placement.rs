use vstd::prelude::*;
use crate::cell::{SudokuCell, Coordinate, ValueStatus, initial_states, cells_with_value, open_cells, values_of, lemma_cell_filters,
    values_with, lemma_values_with, lemma_open_cells_has, lemma_cells_with_value_has, lemma_cells_with_value_from};
use crate::grid::{emptiable, open_emptied, counts_kept, SudokuGrid, SolveError, GRID_SIZE_I, narrows, shrinks, cell_narrows, ind, lemma_shrinks_trans, lemma_flat_index, lemma_flat_split,
    lemma_count_change, lemma_count_bound, lemma_narrows_trans, lemma_narrows_refl};
use crate::sbox::{SudokuBox, box_start};
use crate::util::contains_u32;
use crate::solution::{is_solution, agrees, cell_agrees, peers, unit_holds, in_unit, box_of, conflict, no_new_conflicts, unit_x, unit_y, lemma_unit_cells, lemma_unit_peers};

verus! {

/// A placement waiting to be made: `value` goes to the cell at `coordinate`.
#[derive(Clone, Copy, Debug)]
pub struct CellRef {
    pub coordinate: Coordinate,
    pub value: u32,
}

/// A pending placement inside the grid with a value from 1 to 9.
pub open spec fn valid_ref(c: CellRef) -> bool {
    c.coordinate.x < 9 && c.coordinate.y < 9 && 1 <= c.value <= 9
}

/// The cell at (`x`, `y`) is open in `a` and placed in `b`.
pub open spec fn placed_between(a: SudokuGrid, b: SudokuGrid, x: int, y: int) -> bool {
    !a.cell(x, y).defined && b.cell(x, y).defined
}

/// Every cell that differs between `a` and `b` was placed on the way, or shares a row, a
/// column or a box with a cell that was.
pub open spec fn changed_near_placed(a: SudokuGrid, b: SudokuGrid) -> bool {
    forall|qx: int, qy: int| 0 <= qx < 9 && 0 <= qy < 9 && #[trigger] b.cell(qx, qy) != a.cell(qx, qy)
        ==> placed_between(a, b, qx, qy)
            || exists|px: int, py: int| 0 <= px < 9 && 0 <= py < 9 && #[trigger] placed_between(a, b, px, py) && peers(px, py, qx, qy)
}

/// A step from `a` to `b` that places the cell at (`cx`, `cy`), keeps every placed cell placed
/// and changes nothing outside one unit of that cell keeps the changes near placed cells.
pub proof fn lemma_near_placed_step(o: SudokuGrid, a: SudokuGrid, b: SudokuGrid, kind: int, cx: int, cy: int)
    requires
        changed_near_placed(o, a),
        0 <= kind < 3,
        0 <= cx < 9,
        0 <= cy < 9,
        placed_between(o, b, cx, cy),
        forall|i: int, j: int| 0 <= i < 9 && 0 <= j < 9 && a.cell(i, j).defined ==> #[trigger] b.cell(i, j).defined,
        forall|i: int, j: int| 0 <= i < 9 && 0 <= j < 9 && !in_unit(kind, cx, cy, i, j) ==> #[trigger] b.cell(i, j) == a.cell(i, j),
    ensures
        changed_near_placed(o, b),
{
    assert forall|qx: int, qy: int| 0 <= qx < 9 && 0 <= qy < 9 && #[trigger] b.cell(qx, qy) != o.cell(qx, qy)
        implies placed_between(o, b, qx, qy)
            || exists|px: int, py: int| 0 <= px < 9 && 0 <= py < 9 && #[trigger] placed_between(o, b, px, py) && peers(px, py, qx, qy) by {
        if in_unit(kind, cx, cy, qx, qy) {
            if !(qx == cx && qy == cy) {
                lemma_unit_peers(kind, cx, cy, cx, cy, qx, qy);
                assert(placed_between(o, b, cx, cy) && peers(cx, cy, qx, qy));
            }
        } else {
            assert(b.cell(qx, qy) == a.cell(qx, qy));
            if !placed_between(o, a, qx, qy) {
                let (px, py) = choose|px: int, py: int| 0 <= px < 9 && 0 <= py < 9 && #[trigger] placed_between(o, a, px, py) && peers(px, py, qx, qy);
                assert(a.cell(px, py).defined);
                assert(b.cell(px, py).defined);
                assert(placed_between(o, b, px, py));
            } else {
                assert(a.cell(qx, qy).defined);
            }
        }
    }
}

/// The placement `e` puts the solution's value at its cell.
pub open spec fn right_for(e: CellRef, sol: Seq<Seq<u32>>) -> bool {
    sol[e.coordinate.y as int][e.coordinate.x as int] == e.value
}

/// Queue `q` is queue `q0` with entries added at its end.
pub open spec fn extends(q0: Seq<CellRef>, q: Seq<CellRef>) -> bool {
    q.len() >= q0.len() && forall|i: int| 0 <= i < q0.len() ==> #[trigger] q[i] == q0[i]
}

/// Every entry of `q` past those of `q0` is right for `sol`.
pub open spec fn new_right(q0: Seq<CellRef>, q: Seq<CellRef>, sol: Seq<Seq<u32>>) -> bool {
    forall|i: int| q0.len() <= i < q.len() ==> right_for(#[trigger] q[i], sol)
}

/// In `g` the cell at (`x`, `y`) is placed or no longer has `v` possible.
pub open spec fn cleared(g: SudokuGrid, x: int, y: int, v: u32) -> bool {
    g.cell(x, y).defined || g.cell(x, y).states@[v - 1].0 != ValueStatus::Possible
}

/// A cleared cell stays cleared as the grid shrinks.
pub proof fn lemma_cleared_stays(a: SudokuGrid, b: SudokuGrid, x: int, y: int, v: u32)
    requires
        shrinks(a, b),
        0 <= x < 9,
        0 <= y < 9,
        1 <= v <= 9,
        cleared(a, x, y, v),
    ensures
        cleared(b, x, y, v),
{
    assert(cell_narrows(a.cell(x, y), b.cell(x, y)));
}

/// Every cleared cell stays cleared as the grid shrinks.
pub proof fn lemma_all_cleared_stay(a: SudokuGrid, b: SudokuGrid)
    requires
        shrinks(a, b),
    ensures
        forall|c: int, r: int, n: u32| 0 <= c < 9 && 0 <= r < 9 && 1 <= n <= 9 && #[trigger] cleared(a, c, r, n)
            ==> cleared(b, c, r, n),
{
    assert forall|c: int, r: int, n: u32| 0 <= c < 9 && 0 <= r < 9 && 1 <= n <= 9 && #[trigger] cleared(a, c, r, n)
        implies cleared(b, c, r, n) by {
        lemma_cleared_stays(a, b, c, r, n);
    }
}

/// A placement at (`cx`, `cy`) followed by strikes that cleared its value from the cell's
/// row, column and box leaves no new conflict: the whole step narrows.
pub proof fn lemma_place_narrows(pre: SudokuGrid, mid: SudokuGrid, fin: SudokuGrid, cx: int, cy: int, cv: u32)
    requires
        shrinks(pre, mid),
        narrows(mid, fin),
        0 <= cx < 9,
        0 <= cy < 9,
        1 <= cv <= 9,
        mid.cell(cx, cy).defined,
        mid.cell(cx, cy).value_as_int == cv,
        forall|px: int, py: int, qx: int, qy: int| #[trigger] conflict(mid, px, py, qx, qy)
            ==> conflict(pre, px, py, qx, qy) || (px == cx && py == cy),
        mid.at_home() ==> forall|j: int| 0 <= j < 9 ==> #[trigger] cleared(fin, j, cy, cv),
        mid.at_home() ==> forall|j: int| 0 <= j < 9 ==> #[trigger] cleared(fin, cx, j, cv),
        mid.at_home() ==> forall|qx: int, qy: int| #[trigger] in_unit(2, cx, cy, qx, qy) ==> cleared(fin, qx, qy, cv),
    ensures
        narrows(pre, fin),
{
    lemma_shrinks_trans(pre, mid, fin);
    if pre.at_home() {
        assert(mid.at_home());
        assert forall|px: int, py: int, qx: int, qy: int| #[trigger] conflict(fin, px, py, qx, qy)
            implies conflict(pre, px, py, qx, qy) by {
            assert(conflict(mid, px, py, qx, qy));
            if px == cx && py == cy {
                assert(cell_narrows(mid.cell(cx, cy), fin.cell(cx, cy)));
                if qy == cy {
                    assert(cleared(fin, qx, cy, cv));
                } else if qx == cx {
                    assert(cleared(fin, cx, qy, cv));
                } else {
                    assert(in_unit(2, cx, cy, qx, qy));
                    assert(cleared(fin, qx, qy, cv));
                }
            }
        }
    }
}

/// A pending placement inside the grid.
pub open spec fn in_grid_ref(e: CellRef) -> bool {
    e.coordinate.x < 9 && e.coordinate.y < 9
}

/// The cell at index `t` of unit `kind` of (`cx`, `cy`) is the one open cell of that unit.
pub open spec fn lone_open(g: SudokuGrid, kind: int, cx: int, cy: int, t: int) -> bool {
    &&& 0 <= t < 9
    &&& !g.unit_cells(kind, cx, cy)[t].defined
    &&& forall|s: int| 0 <= s < 9 && s != t ==> (#[trigger] g.unit_cells(kind, cx, cy)[s]).defined
}

/// Some entry of `q` is for the cell at (`x`, `y`).
pub open spec fn queued(q: Seq<CellRef>, x: int, y: int) -> bool {
    exists|i: int| 0 <= i < q.len() && (#[trigger] q[i]).coordinate.x == x && q[i].coordinate.y == y
}

/// Each row, column or box of the cell at (`cx`, `cy`) that has a single open cell has that
/// cell waiting in `q`.
pub open spec fn units_queued(g: SudokuGrid, q: Seq<CellRef>, cx: int, cy: int) -> bool {
    forall|kind: int, t: int| 0 <= kind < 3 && #[trigger] lone_open(g, kind, cx, cy, t)
        ==> queued(q, unit_x(kind, cx, t), unit_y(kind, cy, t))
}

/// Every open cell of `g` whose value states differ from those it had in `g0` has at least two
/// possible values, or is waiting in `q`.
pub open spec fn strikes_queued(g0: SudokuGrid, g: SudokuGrid, q: Seq<CellRef>) -> bool {
    forall|qx: int, qy: int| 0 <= qx < 9 && 0 <= qy < 9 && !g.cell(qx, qy).defined
        && #[trigger] g.cell(qx, qy).states@ != g0.cell(qx, qy).states@
        ==> g.cell(qx, qy).possible_values().len() >= 2 || queued(q, qx, qy)
}

/// A longer queue still holds every cell the shorter one held.
pub proof fn lemma_strikes_queued_extends(g0: SudokuGrid, g: SudokuGrid, q0: Seq<CellRef>, q1: Seq<CellRef>)
    requires
        strikes_queued(g0, g, q0),
        extends(q0, q1),
    ensures
        strikes_queued(g0, g, q1),
{
    assert forall|i: int, j: int| 0 <= i < 9 && 0 <= j < 9 && !g.cell(i, j).defined
        && #[trigger] g.cell(i, j).states@ != g0.cell(i, j).states@
        implies g.cell(i, j).possible_values().len() >= 2 || queued(q1, i, j) by {
        if !(g.cell(i, j).possible_values().len() >= 2) {
            let k = choose|k: int| 0 <= k < q0.len() && (#[trigger] q0[k]).coordinate.x == i && q0[k].coordinate.y == j;
            assert(q1[k] == q0[k]);
        }
    }
}

/// A strike on an open cell that neither empties it nor leaves it a single value leaves it
/// at least two values, unless the value was already ruled out (then nothing changes).
pub proof fn lemma_strike_leaves_two(c: SudokuCell, v: u32)
    requires
        c.wf(),
        !c.defined,
        !c.strike_outcome(v).0,
        !c.strike_empties(v),
    ensures
        c.is_ruled_out(v) ==> c.struck_states(v) == c.states@,
        !c.is_ruled_out(v) ==> values_with(c.struck_states(v), ValueStatus::Possible, 9).len() >= 2,
{
    let st = c.struck_states(v);
    if c.is_ruled_out(v) {
        assert(st =~= c.states@);
    } else {
        lemma_values_with(st, ValueStatus::Possible, 9);
        lemma_values_with(st, ValueStatus::Impossible, 9);
        assert(st.len() == 9);
        let i = choose|i: int| 0 <= i < 9 && st[i].0 != ValueStatus::Impossible;
        assert(c.states@[i].0 != ValueStatus::Actual);
        assert(st[i].0 == ValueStatus::Possible);
        assert(values_with(st, ValueStatus::Possible, 9).contains((i + 1) as u32));
    }
}

/// One strike in a cascade keeps every changed open cell of the grid either with two values
/// or queued, given that a strike leaving a single value queues its cell.
pub proof fn lemma_strike_step(g0: SudokuGrid, before: SudokuGrid, after: SudokuGrid, q0: Seq<CellRef>, q1: Seq<CellRef>,
    qx: int, qy: int, v: u32)
    requires
        strikes_queued(g0, before, q0),
        extends(q0, q1),
        0 <= qx < 9,
        0 <= qy < 9,
        before.cell(qx, qy).wf(),
        !before.cell(qx, qy).defined,
        after.cell(qx, qy).states@ == before.cell(qx, qy).struck_states(v),
        after.cell(qx, qy).defined == before.cell(qx, qy).defined,
        forall|i: int, j: int| 0 <= i < 9 && 0 <= j < 9 && !(i == qx && j == qy) ==> #[trigger] after.cell(i, j) == before.cell(i, j),
        !before.cell(qx, qy).strike_empties(v),
        before.cell(qx, qy).strike_outcome(v).0 ==> queued(q1, qx, qy),
    ensures
        strikes_queued(g0, after, q1),
{
    assert forall|i: int, j: int| 0 <= i < 9 && 0 <= j < 9 && !after.cell(i, j).defined
        && #[trigger] after.cell(i, j).states@ != g0.cell(i, j).states@
        implies after.cell(i, j).possible_values().len() >= 2 || queued(q1, i, j) by {
        if i == qx && j == qy {
            if !before.cell(qx, qy).strike_outcome(v).0 {
                lemma_strike_leaves_two(before.cell(qx, qy), v);
                if before.cell(qx, qy).is_ruled_out(v) {
                    assert(before.cell(i, j).states@ != g0.cell(i, j).states@);
                    if !(before.cell(i, j).possible_values().len() >= 2) {
                        let k = choose|k: int| 0 <= k < q0.len() && (#[trigger] q0[k]).coordinate.x == i && q0[k].coordinate.y == j;
                        assert(q1[k] == q0[k]);
                    }
                }
            }
        } else {
            assert(after.cell(i, j) == before.cell(i, j));
            if !(before.cell(i, j).possible_values().len() >= 2) {
                let k = choose|k: int| 0 <= k < q0.len() && (#[trigger] q0[k]).coordinate.x == i && q0[k].coordinate.y == j;
                assert(q1[k] == q0[k]);
            }
        }
    }
}

/// A cell held by a queue is still held by a longer one.
pub proof fn lemma_queued_extends(q0: Seq<CellRef>, q1: Seq<CellRef>, x: int, y: int)
    requires
        queued(q0, x, y),
        extends(q0, q1),
    ensures
        queued(q1, x, y),
{
    let k = choose|k: int| 0 <= k < q0.len() && (#[trigger] q0[k]).coordinate.x == x && q0[k].coordinate.y == y;
    assert(q1[k] == q0[k]);
}

/// One round of a placement: the entry for (`cx`, `cy`) is taken from `q_pre`, the cell is
/// replaced (`mid`), and the box, row and column are searched (`gb`, `gr`, `gc`) while the
/// queue only grows. Changed open cells keep two values or stay queued.
pub proof fn lemma_strikes_queued_round(g0: SudokuGrid, pre: SudokuGrid, q_pre: Seq<CellRef>, mid: SudokuGrid,
    gb: SudokuGrid, gr: SudokuGrid, gc: SudokuGrid, qm: Seq<CellRef>, qb: Seq<CellRef>, qr: Seq<CellRef>, qc: Seq<CellRef>,
    cx: int, cy: int)
    requires
        0 <= cx < 9,
        0 <= cy < 9,
        strikes_queued(g0, pre, q_pre),
        q_pre.len() >= 1,
        q_pre[0].coordinate.x == cx,
        q_pre[0].coordinate.y == cy,
        qm == q_pre.drop_first(),
        forall|i: int, j: int| 0 <= i < 9 && 0 <= j < 9 && !(i == cx && j == cy) ==> #[trigger] mid.cell(i, j) == pre.cell(i, j),
        !mid.cell(cx, cy).defined ==> mid.cell(cx, cy).possible_values().len() >= 2,
        strikes_queued(mid, gb, qb),
        strikes_queued(gb, gr, qr),
        strikes_queued(gr, gc, qc),
        extends(qm, qb),
        extends(qb, qr),
        extends(qr, qc),
        forall|i: int, j: int| 0 <= i < 9 && 0 <= j < 9 ==> #[trigger] gb.cell(i, j).defined == mid.cell(i, j).defined,
        forall|i: int, j: int| 0 <= i < 9 && 0 <= j < 9 ==> #[trigger] gr.cell(i, j).defined == gb.cell(i, j).defined,
        forall|i: int, j: int| 0 <= i < 9 && 0 <= j < 9 ==> #[trigger] gc.cell(i, j).defined == gr.cell(i, j).defined,
    ensures
        strikes_queued(g0, gc, qc),
{
    assert forall|i: int, j: int| 0 <= i < 9 && 0 <= j < 9 && !gc.cell(i, j).defined
        && #[trigger] gc.cell(i, j).states@ != g0.cell(i, j).states@
        implies gc.cell(i, j).possible_values().len() >= 2 || queued(qc, i, j) by {
        assert(gr.cell(i, j).defined == gb.cell(i, j).defined && gb.cell(i, j).defined == mid.cell(i, j).defined);
        if gc.cell(i, j).states@ != gr.cell(i, j).states@ {
        } else if gr.cell(i, j).states@ != gb.cell(i, j).states@ {
            if !(gr.cell(i, j).possible_values().len() >= 2) {
                lemma_queued_extends(qr, qc, i, j);
            }
        } else if gb.cell(i, j).states@ != mid.cell(i, j).states@ {
            if !(gb.cell(i, j).possible_values().len() >= 2) {
                lemma_queued_extends(qb, qr, i, j);
                lemma_queued_extends(qr, qc, i, j);
            }
        } else if !(i == cx && j == cy) {
            assert(mid.cell(i, j) == pre.cell(i, j));
            if !(pre.cell(i, j).possible_values().len() >= 2) {
                let k = choose|k: int| 0 <= k < q_pre.len() && (#[trigger] q_pre[k]).coordinate.x == i && q_pre[k].coordinate.y == j;
                assert(k != 0);
                assert(qm[k - 1] == q_pre[k]);
                lemma_queued_extends(qm, qb, i, j);
                lemma_queued_extends(qb, qr, i, j);
                lemma_queued_extends(qr, qc, i, j);
            }
        }
    }
}

/// A sequence of cells none of which is open has no open cell.
pub proof fn lemma_no_open_cells(s: Seq<SudokuCell>)
    requires
        forall|i: int| 0 <= i < s.len() ==> (#[trigger] s[i]).defined,
    ensures
        open_cells(s).len() == 0,
    decreases s.len(),
{
    if s.len() > 0 {
        lemma_no_open_cells(s.drop_last());
    }
}

/// A sequence of cells whose one open cell sits at `t` has that cell as its only open cell.
pub proof fn lemma_lone_open_cells(s: Seq<SudokuCell>, t: int)
    requires
        0 <= t < s.len(),
        !s[t].defined,
        forall|i: int| 0 <= i < s.len() && i != t ==> (#[trigger] s[i]).defined,
    ensures
        open_cells(s) == seq![s[t]],
    decreases s.len(),
{
    if t == s.len() - 1 {
        lemma_no_open_cells(s.drop_last());
        assert(open_cells(s) =~= seq![s[t]]);
    } else {
        lemma_lone_open_cells(s.drop_last(), t);
    }
}

/// With `copy` the cells of unit `kind` of (`cx`, `cy`) in a grid `src` whose cells carry
/// their positions, and `g` open where `src` is: if the last entry of `q` is for the one open
/// cell of `copy` whenever it has exactly one, every lone open cell of that unit in `g` is queued.
pub proof fn lemma_lone_queued(g: SudokuGrid, src: SudokuGrid, kind: int, cx: int, cy: int, copy: Seq<SudokuCell>, q: Seq<CellRef>)
    requires
        0 <= kind < 3,
        0 <= cx < 9,
        0 <= cy < 9,
        src.at_home(),
        copy == src.unit_cells(kind, cx, cy),
        forall|i: int, j: int| 0 <= i < 9 && 0 <= j < 9 ==> #[trigger] g.cell(i, j).defined == src.cell(i, j).defined,
        open_cells(copy).len() == 1 ==> q.len() >= 1 && q[q.len() - 1].coordinate == open_cells(copy)[0].coordinate,
    ensures
        forall|t: int| #[trigger] lone_open(g, kind, cx, cy, t) ==> queued(q, unit_x(kind, cx, t), unit_y(kind, cy, t)),
{
    lemma_unit_cells(g, kind, cx, cy);
    lemma_unit_cells(src, kind, cx, cy);
    assert forall|t: int| #[trigger] lone_open(g, kind, cx, cy, t) implies queued(q, unit_x(kind, cx, t), unit_y(kind, cy, t)) by {
        let ux = unit_x(kind, cx, t);
        let uy = unit_y(kind, cy, t);
        assert forall|s: int| 0 <= s < 9 implies #[trigger] copy[s].defined == g.unit_cells(kind, cx, cy)[s].defined by {
            assert(copy[s] == src.cell(unit_x(kind, cx, s), unit_y(kind, cy, s)));
            assert(g.unit_cells(kind, cx, cy)[s] == g.cell(unit_x(kind, cx, s), unit_y(kind, cy, s)));
        }
        assert forall|s: int| 0 <= s < copy.len() && s != t implies (#[trigger] copy[s]).defined by {
            assert(g.unit_cells(kind, cx, cy)[s].defined);
        }
        lemma_lone_open_cells(copy, t);
        assert(open_cells(copy)[0] == copy[t]);
        assert(copy[t] == src.cell(ux, uy));
        assert(src.cell(ux, uy).coordinate == (Coordinate { x: ux as u32, y: uy as u32 }));
        assert(q[q.len() - 1].coordinate.x == ux && q[q.len() - 1].coordinate.y == uy);
    }
}

/// Grids open in the same places have the same lone open cells.
pub proof fn lemma_lone_open_same(a: SudokuGrid, b: SudokuGrid, kind: int, cx: int, cy: int, t: int)
    requires
        0 <= kind < 3,
        0 <= cx < 9,
        0 <= cy < 9,
        forall|i: int, j: int| 0 <= i < 9 && 0 <= j < 9 ==> #[trigger] a.cell(i, j).defined == b.cell(i, j).defined,
    ensures
        lone_open(a, kind, cx, cy, t) == lone_open(b, kind, cx, cy, t),
{
    lemma_unit_cells(a, kind, cx, cy);
    lemma_unit_cells(b, kind, cx, cy);
    assert forall|s: int| 0 <= s < 9 implies #[trigger] a.unit_cells(kind, cx, cy)[s].defined == b.unit_cells(kind, cx, cy)[s].defined by {
        assert(a.unit_cells(kind, cx, cy)[s] == a.cell(unit_x(kind, cx, s), unit_y(kind, cy, s)));
        assert(b.unit_cells(kind, cx, cy)[s] == b.cell(unit_x(kind, cx, s), unit_y(kind, cy, s)));
    }
    if lone_open(a, kind, cx, cy, t) {
        assert forall|s: int| 0 <= s < 9 && s != t implies (#[trigger] b.unit_cells(kind, cx, cy)[s]).defined by {
            assert(a.unit_cells(kind, cx, cy)[s].defined);
        }
    }
    if lone_open(b, kind, cx, cy, t) {
        assert forall|s: int| 0 <= s < 9 && s != t implies (#[trigger] a.unit_cells(kind, cx, cy)[s]).defined by {
            assert(b.unit_cells(kind, cx, cy)[s].defined);
        }
    }
}

/// The box, row and column of a placed cell, each searched in turn while the queue grew and
/// no cell changed between open and placed, all have their lone open cells queued at the end.
pub proof fn lemma_own_units_queued(gb: SudokuGrid, gr: SudokuGrid, gc: SudokuGrid, qb: Seq<CellRef>, qr: Seq<CellRef>, qc: Seq<CellRef>, cx: int, cy: int)
    requires
        0 <= cx < 9,
        0 <= cy < 9,
        forall|i: int, j: int| 0 <= i < 9 && 0 <= j < 9 ==> #[trigger] gr.cell(i, j).defined == gb.cell(i, j).defined,
        forall|i: int, j: int| 0 <= i < 9 && 0 <= j < 9 ==> #[trigger] gc.cell(i, j).defined == gr.cell(i, j).defined,
        extends(qb, qr),
        extends(qr, qc),
        forall|t: int| #[trigger] lone_open(gb, 2, cx, cy, t) ==> queued(qb, unit_x(2, cx, t), unit_y(2, cy, t)),
        forall|t: int| #[trigger] lone_open(gr, 0, cx, cy, t) ==> queued(qr, unit_x(0, cx, t), unit_y(0, cy, t)),
        forall|t: int| #[trigger] lone_open(gc, 1, cx, cy, t) ==> queued(qc, unit_x(1, cx, t), unit_y(1, cy, t)),
    ensures
        units_queued(gc, qc, cx, cy),
{
    assert forall|kind: int, t: int| 0 <= kind < 3 && #[trigger] lone_open(gc, kind, cx, cy, t)
        implies queued(qc, unit_x(kind, cx, t), unit_y(kind, cy, t)) by {
        let ux = unit_x(kind, cx, t);
        let uy = unit_y(kind, cy, t);
        if kind == 2 {
            lemma_lone_open_same(gc, gr, 2, cx, cy, t);
            lemma_lone_open_same(gr, gb, 2, cx, cy, t);
            let i = choose|i: int| 0 <= i < qb.len() && (#[trigger] qb[i]).coordinate.x == ux && qb[i].coordinate.y == uy;
            assert(qr[i] == qb[i]);
            assert(qc[i] == qr[i]);
        } else if kind == 0 {
            lemma_lone_open_same(gc, gr, 0, cx, cy, t);
            let i = choose|i: int| 0 <= i < qr.len() && (#[trigger] qr[i]).coordinate.x == ux && qr[i].coordinate.y == uy;
            assert(qc[i] == qr[i]);
        }
    }
}

/// Once the cell at (`cx`, `cy`) has been dealt with and `q` only grew past the popped entry
/// for it, the units of each cell placed since `g0` still have their lone open cells queued:
/// those through (`cx`, `cy`) because its own units do, the others because nothing in them
/// changed.
pub proof fn lemma_units_queued_step(g0: SudokuGrid, pre: SudokuGrid, q_pre: Seq<CellRef>, post: SudokuGrid, q_post: Seq<CellRef>, cx: int, cy: int)
    requires
        0 <= cx < 9,
        0 <= cy < 9,
        q_pre.len() >= 1,
        q_pre[0].coordinate.x == cx,
        q_pre[0].coordinate.y == cy,
        extends(q_pre.drop_first(), q_post),
        forall|i: int, j: int| 0 <= i < 9 && 0 <= j < 9 && !(i == cx && j == cy)
            ==> #[trigger] post.cell(i, j).defined == pre.cell(i, j).defined,
        pre.cell(cx, cy).defined ==> post.cell(cx, cy).defined,
        post.cell(cx, cy).defined && !pre.cell(cx, cy).defined ==> units_queued(post, q_post, cx, cy),
        pre.cell(cx, cy).defined || units_queued(post, q_post, cx, cy),
        forall|px: int, py: int| 0 <= px < 9 && 0 <= py < 9 && #[trigger] pre.cell(px, py).defined && !g0.cell(px, py).defined
            ==> units_queued(pre, q_pre, px, py),
    ensures
        forall|px: int, py: int| 0 <= px < 9 && 0 <= py < 9 && #[trigger] post.cell(px, py).defined && !g0.cell(px, py).defined
            ==> units_queued(post, q_post, px, py),
{
    assert forall|px: int, py: int| 0 <= px < 9 && 0 <= py < 9 && #[trigger] post.cell(px, py).defined && !g0.cell(px, py).defined
        implies units_queued(post, q_post, px, py) by {
        if !(px == cx && py == cy) || pre.cell(cx, cy).defined {
            assert(pre.cell(px, py).defined);
            assert(units_queued(pre, q_pre, px, py));
            assert forall|kind: int, t: int| 0 <= kind < 3 && #[trigger] lone_open(post, kind, px, py, t)
                implies queued(q_post, unit_x(kind, px, t), unit_y(kind, py, t)) by {
                lemma_unit_cells(pre, kind, px, py);
                lemma_unit_cells(post, kind, px, py);
                let ux = unit_x(kind, px, t);
                let uy = unit_y(kind, py, t);
                if in_unit(kind, px, py, cx, cy) && !pre.cell(cx, cy).defined {
                    lemma_unit_cells(post, kind, cx, cy);
                    assert(post.unit_cells(kind, px, py) == post.unit_cells(kind, cx, cy));
                    assert forall|s: int| 0 <= s < 9 implies unit_x(kind, px, s) == unit_x(kind, cx, s) && unit_y(kind, py, s) == unit_y(kind, cy, s) by {}
                    assert(lone_open(post, kind, cx, cy, t));
                } else {
                    assert forall|s: int| 0 <= s < 9 implies #[trigger] post.unit_cells(kind, px, py)[s].defined == pre.unit_cells(kind, px, py)[s].defined by {
                        assert(post.unit_cells(kind, px, py)[s] == post.cell(unit_x(kind, px, s), unit_y(kind, py, s)));
                        assert(pre.unit_cells(kind, px, py)[s] == pre.cell(unit_x(kind, px, s), unit_y(kind, py, s)));
                        if unit_x(kind, px, s) == cx && unit_y(kind, py, s) == cy {
                            assert(in_unit(kind, px, py, cx, cy));
                            assert(pre.cell(cx, cy).defined);
                        }
                    }
                    assert forall|s: int| 0 <= s < 9 && s != t implies (#[trigger] pre.unit_cells(kind, px, py)[s]).defined by {
                        assert(post.unit_cells(kind, px, py)[s].defined);
                    }
                    assert(!pre.unit_cells(kind, px, py)[t].defined);
                    assert(lone_open(pre, kind, px, py, t));
                    assert(queued(q_pre, ux, uy));
                    let i = choose|i: int| 0 <= i < q_pre.len() && (#[trigger] q_pre[i]).coordinate.x == ux && q_pre[i].coordinate.y == uy;
                    if i == 0 {
                        assert(ux == cx && uy == cy);
                        assert(in_unit(kind, px, py, cx, cy));
                        assert(pre.cell(cx, cy).defined);
                        assert(false);
                    }
                    assert(q_pre.drop_first()[i - 1] == q_pre[i]);
                    assert(q_post[i - 1] == q_pre[i]);
                }
            }
        }
    }
}

/// A pending placement is harmless for `sol`: its cell is already placed in `g`, it places 0,
/// or it places the solution's value.
pub open spec fn entry_ok(g: SudokuGrid, e: CellRef, sol: Seq<Seq<u32>>) -> bool {
    g.cell(e.coordinate.x as int, e.coordinate.y as int).defined || e.value == 0 || right_for(e, sol)
}

/// Every pending placement of `q` is harmless for `sol`.
pub open spec fn queue_ok(g: SudokuGrid, q: Seq<CellRef>, sol: Seq<Seq<u32>>) -> bool {
    forall|i: int| 0 <= i < q.len() ==> entry_ok(g, #[trigger] q[i], sol)
}

/// Harmless placements stay harmless as the grid narrows and right ones are queued.
pub proof fn lemma_queue_narrows(a: SudokuGrid, b: SudokuGrid, q: Seq<CellRef>, q2: Seq<CellRef>, sol: Seq<Seq<u32>>)
    requires
        narrows(a, b),
        extends(q, q2),
        queue_ok(a, q, sol),
        new_right(q, q2, sol),
        forall|i: int| 0 <= i < q.len() ==> in_grid_ref(#[trigger] q[i]),
    ensures
        queue_ok(b, q2, sol),
{
    assert forall|i: int| 0 <= i < q2.len() implies entry_ok(b, #[trigger] q2[i], sol) by {
        if i < q.len() {
            let e = q[i];
            assert(q2[i] == e);
            assert(entry_ok(a, e, sol));
            assert(in_grid_ref(e));
            assert(cell_narrows(a.cell(e.coordinate.x as int, e.coordinate.y as int), b.cell(e.coordinate.x as int, e.coordinate.y as int)));
        } else {
            assert(right_for(q2[i], sol));
        }
    }
}

/// A value placed in a cell is not the solution's value at any peer (nor is 0).
pub proof fn lemma_peer_value(g: SudokuGrid, sol: Seq<Seq<u32>>, px: int, py: int, qx: int, qy: int, value: u32)
    requires
        is_solution(sol),
        agrees(g, sol),
        0 <= px < 9,
        0 <= py < 9,
        0 <= qx < 9,
        0 <= qy < 9,
        value != 0 ==> g.cell(px, py).defined && g.cell(px, py).value_as_int == value && peers(px, py, qx, qy),
    ensures
        sol[qy][qx] != value,
{
    assert(1 <= sol[qy][qx] <= 9);
    if value != 0 {
        assert(cell_agrees(g.cell(px, py), sol[py][px]));
        assert(sol[py][px] != sol[qy][qx]);
    }
}

/// A strike that leaves an open cell with one value leaves it with the solution's value.
pub proof fn lemma_single_left(g: SudokuGrid, sol: Seq<Seq<u32>>, x: int, y: int, value: u32)
    requires
        g.wf(),
        is_solution(sol),
        agrees(g, sol),
        0 <= x < 9,
        0 <= y < 9,
        sol[y][x] != value,
        g.cell(x, y).strike_outcome(value).0,
    ensures
        sol[y][x] == g.cell(x, y).strike_outcome(value).1,
{
    let c = g.cell(x, y);
    let s = sol[y][x];
    assert(cell_agrees(c, s));
    assert(1 <= s <= 9);
    assert(c.wf());
    let st = c.struck_states(value);
    assert(st[s - 1] == c.states@[s - 1]);
    lemma_values_with(st, ValueStatus::Possible, 9);
    lemma_values_with(c.states@, ValueStatus::Possible, 9);
    let left = values_with(st, ValueStatus::Possible, 9);
    if c.defined {
        if 1 <= value <= 9 {
            assert(c.is_ruled_out(value));
        } else {
            assert(st == c.states@);
            if left.len() > 0 {
                assert(st[left[0] - 1].0 == ValueStatus::Possible);
            }
        }
    } else {
        assert(left.contains(s));
        let k = choose|k: int| 0 <= k < left.len() && left[k] == s;
        assert(k == 0);
    }
}

/// In a row with a single open cell, the value missing from the row's placed values is the
/// solution's value at that cell.
pub proof fn lemma_last_in_row(g: SudokuGrid, sol: Seq<Seq<u32>>, y: int, last_cell: SudokuCell, last_val: u32)
    requires
        g.wf(),
        g.at_home(),
        is_solution(sol),
        agrees(g, sol),
        0 <= y < 9,
        open_cells(g.row_cells(y)).len() == 1,
        last_cell == open_cells(g.row_cells(y))[0],
        1 <= last_val <= 9,
        !values_of(cells_with_value(g.row_cells(y))).contains(last_val),
    ensures
        sol[last_cell.coordinate.y as int][last_cell.coordinate.x as int] == last_val,
{
    let row = g.row_cells(y);
    assert(unit_holds(sol, 0, 0, y, last_val));
    let (qx, qy) = choose|qx: int, qy: int| in_unit(0, 0, y, qx, qy) && #[trigger] sol[qy][qx] == last_val;
    assert(qy == y);
    assert(row[qx] == g.cell(qx, y));
    assert(cell_agrees(g.cell(qx, y), sol[y][qx]));
    assert(g.cell(qx, y).wf());
    if g.cell(qx, y).defined {
        lemma_cells_with_value_has(row, qx);
    } else {
        lemma_open_cells_has(row, qx);
        let k = choose|k: int| 0 <= k < open_cells(row).len() && open_cells(row)[k] == row[qx];
        assert(k == 0);
        assert(g.cell(qx, y).coordinate == (Coordinate { x: qx as u32, y: y as u32 }));
    }
}

/// In a column with a single open cell, the value missing from the column's placed values
/// is the solution's value at that cell.
pub proof fn lemma_last_in_col(g: SudokuGrid, sol: Seq<Seq<u32>>, x: int, last_cell: SudokuCell, last_val: u32)
    requires
        g.wf(),
        g.at_home(),
        is_solution(sol),
        agrees(g, sol),
        0 <= x < 9,
        open_cells(g.col_cells(x)).len() == 1,
        last_cell == open_cells(g.col_cells(x))[0],
        1 <= last_val <= 9,
        !values_of(cells_with_value(g.col_cells(x))).contains(last_val),
    ensures
        sol[last_cell.coordinate.y as int][last_cell.coordinate.x as int] == last_val,
{
    let col = g.col_cells(x);
    assert(unit_holds(sol, 1, x, 0, last_val));
    let (qx, qy) = choose|qx: int, qy: int| in_unit(1, x, 0, qx, qy) && #[trigger] sol[qy][qx] == last_val;
    assert(qx == x);
    assert(col[qy] == g.cell(x, qy));
    assert(cell_agrees(g.cell(x, qy), sol[qy][x]));
    assert(g.cell(x, qy).wf());
    if g.cell(x, qy).defined {
        lemma_cells_with_value_has(col, qy);
    } else {
        lemma_open_cells_has(col, qy);
        let k = choose|k: int| 0 <= k < open_cells(col).len() && open_cells(col)[k] == col[qy];
        assert(k == 0);
        assert(g.cell(x, qy).coordinate == (Coordinate { x: x as u32, y: qy as u32 }));
    }
}

/// Position `k` (0 to 8, row by row) of the box of (`px`, `py`) is a cell of that box, and
/// every cell of that box is at some position.
pub proof fn lemma_box_position(px: int, py: int, k: int)
    requires
        0 <= px < 9,
        0 <= py < 9,
        0 <= k < 9,
    ensures
        0 <= k % 3 < 3,
        0 <= k / 3 < 3,
        in_unit(2, px, py, box_of(px) + k % 3, box_of(py) + k / 3),
        forall|qx: int, qy: int| #[trigger] in_unit(2, px, py, qx, qy) ==> {
            let j = 3 * (qy - box_of(py)) + (qx - box_of(px));
            &&& 0 <= j < 9
            &&& j % 3 == qx - box_of(px)
            &&& j / 3 == qy - box_of(py)
        },
{
    assert(0 <= k % 3 < 3 && 0 <= k / 3 < 3) by (nonlinear_arith)
        requires 0 <= k < 9;
    assert forall|qx: int, qy: int| #[trigger] in_unit(2, px, py, qx, qy) implies {
        let j = 3 * (qy - box_of(py)) + (qx - box_of(px));
        &&& 0 <= j < 9
        &&& j % 3 == qx - box_of(px)
        &&& j / 3 == qy - box_of(py)
    } by {
        let a = qx - box_of(px);
        let b = qy - box_of(py);
        assert(0 <= a < 3 && 0 <= b < 3);
        assert((3 * b + a) % 3 == a && (3 * b + a) / 3 == b) by (nonlinear_arith)
            requires 0 <= a < 3, 0 <= b < 3;
    }
}

/// In a box copy with a single open cell, the value missing from the copy's values is the
/// solution's value at that cell.
pub proof fn lemma_last_in_box(g: SudokuGrid, sol: Seq<Seq<u32>>, px: int, py: int, bx: Seq<SudokuCell>, last_cell: SudokuCell, last_val: u32)
    requires
        g.wf(),
        g.at_home(),
        is_solution(sol),
        agrees(g, sol),
        0 <= px < 9,
        0 <= py < 9,
        bx == g.box_cells(box_of(px), box_of(py)),
        open_cells(bx).len() == 1,
        last_cell == open_cells(bx)[0],
        1 <= last_val <= 9,
        !values_of(bx).contains(last_val),
    ensures
        sol[last_cell.coordinate.y as int][last_cell.coordinate.x as int] == last_val,
{
    assert(unit_holds(sol, 2, px, py, last_val));
    let (qx, qy) = choose|qx: int, qy: int| in_unit(2, px, py, qx, qy) && #[trigger] sol[qy][qx] == last_val;
    lemma_box_position(px, py, 0);
    assert(in_unit(2, px, py, qx, qy));
    let j = 3 * (qy - box_of(py)) + (qx - box_of(px));
    assert(bx[j] == g.cell(qx, qy));
    assert(cell_agrees(g.cell(qx, qy), sol[qy][qx]));
    assert(g.cell(qx, qy).wf());
    if g.cell(qx, qy).defined {
        assert(values_of(bx)[j] == last_val);
    } else {
        lemma_open_cells_has(bx, j);
        let k = choose|k: int| 0 <= k < open_cells(bx).len() && open_cells(bx)[k] == bx[j];
        assert(k == 0);
        assert(g.cell(qx, qy).coordinate == (Coordinate { x: qx as u32, y: qy as u32 }));
    }
}

/// Eight or fewer numbers cannot cover all of 1 to 9.
pub proof fn lemma_missing_value(s: Seq<u32>)
    requires
        s.len() <= 8,
    ensures
        exists|v: u32| 1 <= v <= 9 && !s.contains(v),
{
    if forall|v: u32| 1 <= v <= 9 ==> s.contains(v) {
        let t = seq![1u32, 2u32, 3u32, 4u32, 5u32, 6u32, 7u32, 8u32, 9u32];
        assert(t.no_duplicates());
        t.unique_seq_to_set();
        assert forall|v: u32| t.to_set().contains(v) implies s.to_set().contains(v) by {
            assert(t.contains(v));
            let k = choose|k: int| 0 <= k < t.len() && t[k] == v;
            assert(1 <= t[k] <= 9);
        }
        s.lemma_cardinality_of_set();
        vstd::set_lib::lemma_len_subset(t.to_set(), s.to_set());
        assert(false);
    }
}

/// Nine numbers one of which is 0 cannot cover all of 1 to 9.
pub proof fn lemma_missing_value_with_zero(s: Seq<u32>, z: int)
    requires
        s.len() <= 9,
        0 <= z < s.len(),
        s[z] == 0,
    ensures
        exists|v: u32| 1 <= v <= 9 && !s.contains(v),
{
    let t = s.remove(z);
    lemma_missing_value(t);
    let v = choose|v: u32| 1 <= v <= 9 && !t.contains(v);
    if s.contains(v) {
        let k = choose|k: int| 0 <= k < s.len() && s[k] == v;
        if k < z {
            assert(t[k] == v);
        } else {
            assert(k != z);
            assert(t[k - 1] == v);
        }
    }
}

/// Each open cell of `s` is a cell of `s`.
pub proof fn lemma_open_cells_from(s: Seq<SudokuCell>)
    ensures
        forall|k: int| 0 <= k < open_cells(s).len() ==> s.contains(#[trigger] open_cells(s)[k]),
    decreases s.len(),
{
    if s.len() > 0 {
        let t = s.drop_last();
        lemma_open_cells_from(t);
        assert forall|k: int| 0 <= k < open_cells(s).len() implies s.contains(#[trigger] open_cells(s)[k]) by {
            if k < open_cells(t).len() {
                let c = open_cells(t)[k];
                let j = choose|j: int| 0 <= j < t.len() && t[j] == c;
                assert(s[j] == c);
            } else {
                assert(s[s.len() - 1] == s.last());
            }
        }
    }
}

/// The smallest value from 1 to 9 missing from `present`, or 0 if there is none.
pub fn first_missing(present: &Vec<u32>) -> (r: u32)
    ensures
        r <= 9,
        r == 0 ==> forall|v: u32| 1 <= v <= 9 ==> present@.contains(v),
        r != 0 ==> !present@.contains(r) && forall|v: u32| 1 <= v < r ==> present@.contains(v),
{
    let mut i: u32 = 1;
    while i < GRID_SIZE_I + 1
        invariant
            1 <= i <= 10,
            forall|v: u32| 1 <= v < i ==> present@.contains(v),
        decreases 10 - i,
    {
        if !contains_u32(present, i) {
            return i;
        }
        i += 1;
    }
    0
}

/// The cells of `v` that are not defined, in order.
pub fn open_cells_of(v: &Vec<SudokuCell>) -> (r: Vec<SudokuCell>)
    ensures
        r@ == open_cells(v@),
{
    let mut r: Vec<SudokuCell> = Vec::new();
    let mut i: usize = 0;
    while i < v.len()
        invariant
            i <= v.len(),
            r@ == open_cells(v@.subrange(0, i as int)),
        decreases v.len() - i,
    {
        assert(v@.subrange(0, i + 1).drop_last() =~= v@.subrange(0, i as int));
        if !v[i].defined {
            r.push(v[i]);
        }
        i += 1;
    }
    assert(v@.subrange(0, v.len() as int) =~= v@);
    r
}

impl SudokuGrid {
    /// The cells of row `y`, left to right.
    pub fn row_vec(&self, y: u32) -> (r: Vec<SudokuCell>)
        requires
            y < 9,
        ensures
            r@ == self.row_cells(y as int),
    {
        let mut r: Vec<SudokuCell> = Vec::new();
        let mut i: usize = 0;
        while i < 9
            invariant
                y < 9,
                i <= 9,
                r@ == self.row_cells(y as int).subrange(0, i as int),
            decreases 9 - i,
        {
            r.push(self.grid[y as usize][i]);
            assert(r@ =~= self.row_cells(y as int).subrange(0, i + 1));
            i += 1;
        }
        assert(r@ =~= self.row_cells(y as int));
        r
    }

    /// The cells of column `x`, top to bottom.
    pub fn col_vec(&self, x: u32) -> (r: Vec<SudokuCell>)
        requires
            x < 9,
        ensures
            r@ == self.col_cells(x as int),
    {
        let mut r: Vec<SudokuCell> = Vec::new();
        let mut i: usize = 0;
        while i < 9
            invariant
                x < 9,
                i <= 9,
                r@ == self.col_cells(x as int).subrange(0, i as int),
            decreases 9 - i,
        {
            r.push(self.grid[i][x as usize]);
            assert(r@ =~= self.col_cells(x as int).subrange(0, i + 1));
            i += 1;
        }
        assert(r@ =~= self.col_cells(x as int));
        r
    }

    /// Puts a fresh cell holding `value` at the open cell (`x`, `y`) and counts it.
    pub fn place(&mut self, x: u32, y: u32, value: u32)
        requires
            old(self).wf(),
            x < 9,
            y < 9,
            value <= 9,
            !old(self).cell(x as int, y as int).defined,
        ensures
            final(self).wf(),
            final(self).cell(x as int, y as int).defined == (value != 0),
            final(self).cell(x as int, y as int).value_as_int == value,
            final(self).cell(x as int, y as int).states@ == initial_states(value),
            final(self).cell(x as int, y as int).coordinate == (Coordinate { x, y }),
            forall|i: int, j: int| 0 <= i < 9 && 0 <= j < 9 && !(i == x && j == y) ==> #[trigger] final(self).cell(i, j) == old(self).cell(i, j),
            final(self).placed_count() == old(self).placed_count() + ind(value != 0),
            value != 0 ==> shrinks(*old(self), *final(self)),
            value != 0 ==> forall|px: int, py: int, qx: int, qy: int| #[trigger] conflict(*final(self), px, py, qx, qy)
                ==> conflict(*old(self), px, py, qx, qy) || (px == x && py == y),
            final(self).solved == old(self).solved,
            final(self).solved_cell_ct == old(self).solved_cell_ct,
            old(self).at_home() ==> final(self).at_home(),
            counts_kept(*old(self), *final(self)),
            forall|sol: Seq<Seq<u32>>| is_solution(sol) && #[trigger] agrees(*old(self), sol) && (value == 0 || sol[y as int][x as int] == value)
                ==> agrees(*final(self), sol),
    {
        let ghost before = *self;
        let c = SudokuCell::new(value, x, y);
        self.grid[y as usize][x as usize] = c;
        let ghost mid = *self;
        proof {
            let k0 = 9 * (y as int) + (x as int);
            lemma_flat_index(x as int, y as int);
            assert(before.cell(x as int, y as int).wf());
            assert forall|k: int| 0 <= k < 81 && k != k0 implies before.value_at(k) == mid.value_at(k) by {
                lemma_flat_split(k);
            }
            lemma_count_change(before, mid, k0, 81);
            lemma_count_bound(mid, 0, 81);
            assert(before.value_at(k0) == 0);
        }
        self.inc_val_by_int(value);
        proof {
            let k0 = 9 * (y as int) + (x as int);
            lemma_flat_index(x as int, y as int);
            assert(self.grid == mid.grid);
            assert forall|k: int| 0 <= k < 81 implies mid.value_at(k) == self.value_at(k) by {}
            crate::grid::lemma_count_same(mid, *self, 81);
            assert(before.value_at(k0) == 0);
            assert(mid.value_at(k0) == value);
            assert forall|i: int, j: int| 0 <= i < 9 && 0 <= j < 9 implies (#[trigger] self.cell(i, j)).wf() by {
                if i == x && j == y {
                    assert forall|t: int| 0 <= t < 9 implies #[trigger] c.states@[t].1 == t + 1 by {
                        assert(c.states@[t] == initial_states(value)[t]);
                    }
                    assert forall|t: int| 0 <= t < 9 implies #[trigger] c.states@[t].0 == (if t == c.value_as_int - 1 { ValueStatus::Actual } else { ValueStatus::Impossible }) || !c.defined by {
                        assert(c.states@[t] == initial_states(value)[t]);
                    }
                    assert forall|t: int| 0 <= t < 9 implies #[trigger] c.states@[t].0 != ValueStatus::Actual || c.defined by {
                        assert(c.states@[t] == initial_states(value)[t]);
                    }
                } else {
                    assert(before.cell(i, j).wf());
                }
            }
            assert forall|v: u32| 1 <= v <= 9 implies self.definite_values.counts@[v - 1] + before.value_count(v)
                == before.definite_values.counts@[v - 1] + #[trigger] self.value_count(v) by {
                assert(mid.count_upto(v, 81) + ind(k0 < 81 && before.value_at(k0) == v)
                    == before.count_upto(v, 81) + ind(k0 < 81 && mid.value_at(k0) == v));
                assert(self.count_upto(v, 81) == mid.count_upto(v, 81));
                assert(mid.definite_values == before.definite_values);
                if v == value {
                    assert(self.definite_values.counts@[v - 1] == before.definite_values.counts@[v - 1] + 1);
                } else {
                    assert(self.definite_values.counts@[v - 1] == before.definite_values.counts@[v - 1]);
                }
            }
            crate::grid::lemma_count_same(mid, *self, 81);
            assert forall|i: int, j: int| 0 <= i < 9 && 0 <= j < 9 implies cell_narrows(before.cell(i, j), #[trigger] self.cell(i, j)) || value == 0 by {
                assert(before.cell(i, j).wf());
            }
            if value != 0 {
                assert forall|px: int, py: int, qx: int, qy: int| #[trigger] conflict(*self, px, py, qx, qy)
                    implies conflict(before, px, py, qx, qy) || (px == x && py == y) by {
                    if !(px == x && py == y) {
                        assert(!(qx == x && qy == y));
                        assert(self.cell(px, py) == before.cell(px, py));
                        assert(self.cell(qx, qy) == before.cell(qx, qy));
                    }
                }
            }
            if before.at_home() {
                assert forall|i: int, j: int| 0 <= i < 9 && 0 <= j < 9
                    implies (#[trigger] self.cell(i, j)).coordinate == (Coordinate { x: i as u32, y: j as u32 }) by {
                    if !(i == x && j == y) {
                        assert(before.cell(i, j).coordinate == (Coordinate { x: i as u32, y: j as u32 }));
                    }
                }
            }
            assert forall|sol: Seq<Seq<u32>>| is_solution(sol) && #[trigger] agrees(before, sol) && (value == 0 || sol[y as int][x as int] == value)
                implies agrees(*self, sol) by {
                {
                    assert forall|i: int, j: int| 0 <= i < 9 && 0 <= j < 9 implies cell_agrees(#[trigger] self.cell(i, j), sol[j][i]) by {
                        if i == x && j == y {
                            let s = sol[j][i];
                            assert(1 <= s <= 9);
                            assert(c.states@[s - 1] == initial_states(value)[s - 1]);
                        } else {
                            assert(cell_agrees(before.cell(i, j), sol[j][i]));
                        }
                    }
                }
            }
        }
    }

    /// Copies of the cells of `v`.
    pub fn copy_cells(v: &Vec<SudokuCell>) -> (r: Vec<SudokuCell>)
        ensures
            r@ == v@,
    {
        let mut r: Vec<SudokuCell> = Vec::new();
        let mut i: usize = 0;
        while i < v.len()
            invariant
                i <= v.len(),
                r@ == v@.subrange(0, i as int),
            decreases v.len() - i,
        {
            r.push(v[i]);
            assert(r@ =~= v@.subrange(0, i + 1));
            i += 1;
        }
        assert(r@ =~= v@);
        r
    }

    /// Strikes `value` from the open cells of the box copy `bx`, queueing each cell left
    /// with one value; then, if the copy had a single open cell, queues the value the box lacks.
    fn cascade_box(&mut self, bx: &Vec<SudokuCell>, value: u32, sets: &mut Vec<CellRef>, px: Ghost<int>, py: Ghost<int>) -> (r: Result<(), SolveError>)
        requires
            old(self).wf(),
            bx@.len() == 9,
            forall|i: int| 0 <= i < 9 ==> (#[trigger] bx@[i]).wf(),
            forall|i: int| 0 <= i < old(sets)@.len() ==> valid_ref(#[trigger] old(sets)@[i]),
            0 <= px@ < 9,
            0 <= py@ < 9,
            bx@ == old(self).box_cells(box_of(px@), box_of(py@)),
            value != 0 ==> old(self).cell(px@, py@).defined && old(self).cell(px@, py@).value_as_int == value,
        ensures
            r matches Err(e) ==> e == SolveError::CellEmptied,
            r is Err ==> emptiable(*final(self)),
            r is Err && old(self).at_home() ==> open_emptied(*final(self)),
            final(self).wf(),
            narrows(*old(self), *final(self)),
            final(self).placed_count() == old(self).placed_count(),
            forall|i: int| 0 <= i < final(sets)@.len() ==> valid_ref(#[trigger] final(sets)@[i]),
            extends(old(sets)@, final(sets)@),
            old(self).at_home() ==> forall|sol: Seq<Seq<u32>>| is_solution(sol) && #[trigger] agrees(*old(self), sol)
                ==> r is Ok && agrees(*final(self), sol) && new_right(old(sets)@, final(sets)@, sol),
            r is Ok && old(self).at_home() && 1 <= value <= 9 ==> forall|qx: int, qy: int| #[trigger] in_unit(2, px@, py@, qx, qy)
                ==> cleared(*final(self), qx, qy, value),
            forall|i: int, j: int| 0 <= i < 9 && 0 <= j < 9 ==> #[trigger] final(self).cell(i, j).defined == old(self).cell(i, j).defined,
            old(self).at_home() ==> forall|i: int, j: int| 0 <= i < 9 && 0 <= j < 9 && !in_unit(2, px@, py@, i, j)
                ==> #[trigger] final(self).cell(i, j) == old(self).cell(i, j),
            r is Ok && old(self).at_home() ==> forall|t: int| #[trigger] lone_open(*final(self), 2, px@, py@, t)
                ==> queued(final(sets)@, unit_x(2, px@, t), unit_y(2, py@, t)),
            r is Ok && old(self).at_home() ==> strikes_queued(*old(self), *final(self), final(sets)@),
    {
        let ghost start = *self;
        let ghost q0 = sets@;
        let ghost bxs = box_of(px@);
        let ghost bys = box_of(py@);
        let mut i: usize = 0;
        while i < bx.len()
            invariant
                self.wf(),
                start == *old(self),
                q0 == old(sets)@,
                narrows(start, *self),
                self.placed_count() == start.placed_count(),
                bx@.len() == 9,
                forall|t: int| 0 <= t < 9 ==> (#[trigger] bx@[t]).wf(),
                forall|t: int| 0 <= t < sets@.len() ==> valid_ref(#[trigger] sets@[t]),
                i <= bx.len(),
                0 <= px@ < 9,
                0 <= py@ < 9,
                bxs == box_of(px@),
                bys == box_of(py@),
                bx@ == start.box_cells(bxs, bys),
                value != 0 ==> start.cell(px@, py@).defined && start.cell(px@, py@).value_as_int == value,
                extends(q0, sets@),
                start.at_home() ==> forall|sol: Seq<Seq<u32>>| is_solution(sol) && #[trigger] agrees(start, sol)
                    ==> agrees(*self, sol) && new_right(q0, sets@, sol),
                start.at_home() && 1 <= value <= 9 ==> forall|t: int| 0 <= t < i ==> #[trigger] cleared(*self, bxs + t % 3, bys + t / 3, value),
                start.at_home() ==> forall|a: int, b: int| 0 <= a < 9 && 0 <= b < 9 && !in_unit(2, px@, py@, a, b)
                    ==> #[trigger] self.cell(a, b) == start.cell(a, b),
                forall|a: int, b: int| 0 <= a < 9 && 0 <= b < 9 ==> #[trigger] self.cell(a, b).defined == start.cell(a, b).defined,
                start.at_home() ==> strikes_queued(start, *self, sets@),
            decreases bx.len() - i,
        {
            let c = bx[i];
            assert(bx@[i as int].wf());
            let ghost pre_step = *self;
            proof {
                if start.at_home() && 1 <= value <= 9 {
                    lemma_box_position(px@, py@, i as int);
                    assert(c == start.cell(bxs + (i as int) % 3, bys + (i as int) / 3));
                }
            }
            if !c.defined {
                let ghost before = *self;
                let ghost sets_before = sets@;
                let ghost qx = bxs + (i as int) % 3;
                let ghost qy = bys + (i as int) / 3;
                proof {
                    lemma_box_position(px@, py@, i as int);
                    assert(c == start.cell(qx, qy));
                    if start.at_home() {
                        assert(c.coordinate == (Coordinate { x: qx as u32, y: qy as u32 }));
                    }
                    if value != 0 {
                        assert(!(qx == px@ && qy == py@));
                        assert(peers(px@, py@, qx, qy));
                    }
                }
                let p = match self.strike(c.coordinate.x, c.coordinate.y, value) {
                    Ok(p) => p,
                    Err(e) => {
                        proof {
                            if start.at_home() {
                                assert(!before.cell(qx, qy).defined);
                                assert(!self.cell(qx, qy).defined && self.cell(qx, qy).strike_empties(value));
                            }
                            if start.at_home() {
                                assert forall|sol: Seq<Seq<u32>>| is_solution(sol) implies !#[trigger] agrees(start, sol) by {
                                    if agrees(start, sol) {
                                        assert(agrees(before, sol));
                                        lemma_peer_value(start, sol, px@, py@, qx, qy, value);
                                    }
                                }
                            }
                        }
                        return Err(e);
                    },
                };
                proof {
                    lemma_narrows_trans(start, before, *self);
                    if start.at_home() {
                        assert forall|sol: Seq<Seq<u32>>| is_solution(sol) && #[trigger] agrees(start, sol)
                            implies agrees(*self, sol) && new_right(q0, sets@, sol) by {
                            assert(agrees(before, sol));
                            lemma_peer_value(start, sol, px@, py@, qx, qy, value);
                        }
                    }
                }
                if p.0 {
                    let ghost mid = *self;
                    sets.push(CellRef { coordinate: c.coordinate, value: p.1 });
                    proof {
                        if start.at_home() {
                            assert forall|sol: Seq<Seq<u32>>| is_solution(sol) && #[trigger] agrees(start, sol)
                                implies agrees(*self, sol) && new_right(q0, sets@, sol) by {
                                assert(agrees(mid, sol));
                                assert(agrees(before, sol));
                                lemma_peer_value(start, sol, px@, py@, qx, qy, value);
                                lemma_single_left(before, sol, qx, qy, value);
                                assert(new_right(q0, sets_before, sol));
                                assert(sets@[sets@.len() - 1] == CellRef { coordinate: c.coordinate, value: p.1 });
                            }
                        }
                    }
                }
                proof {
                    if start.at_home() {
                        assert(extends(sets_before, sets@));
                        if p.0 {
                            assert(sets@[sets@.len() - 1].coordinate == c.coordinate);
                        }
                        lemma_strike_step(start, before, *self, sets_before, sets@, qx, qy, value);
                    }
                }
            }
            proof {
                if start.at_home() && 1 <= value <= 9 {
                    assert forall|t: int| 0 <= t < i + 1 implies #[trigger] cleared(*self, bxs + t % 3, bys + t / 3, value) by {
                        lemma_box_position(px@, py@, t);
                        if t < i {
                            assert(cleared(pre_step, bxs + t % 3, bys + t / 3, value));
                            lemma_cleared_stays(pre_step, *self, bxs + t % 3, bys + t / 3, value);
                        } else {
                            if c.defined {
                                assert(cell_narrows(start.cell(bxs + t % 3, bys + t / 3), self.cell(bxs + t % 3, bys + t / 3)));
                            } else {
                                assert(c.coordinate == (Coordinate { x: (bxs + t % 3) as u32, y: (bys + t / 3) as u32 }));
                            }
                        }
                    }
                }
            }
            i += 1;
        }
        proof {
            if start.at_home() && 1 <= value <= 9 {
                assert forall|qx: int, qy: int| #[trigger] in_unit(2, px@, py@, qx, qy) implies cleared(*self, qx, qy, value) by {
                    lemma_box_position(px@, py@, 0);
                    let t = 3 * (qy - bys) + (qx - bxs);
                    assert(cleared(*self, bxs + t % 3, bys + t / 3, value));
                }
            }
        }
        let ghost after_strikes = *self;
        let ghost sets_at_strikes_end = sets@;
        let bx_empty = open_cells_of(bx);
        if bx_empty.len() == 1 {
            let last_cell = bx_empty[bx_empty.len() - 1];
            let present_vals = self.collect_values(Self::copy_cells(bx));
            let last_val = first_missing(&present_vals);
            let ghost sets_before = sets@;
            proof {
                lemma_cell_filters(bx@);
                assert(bx@.contains(last_cell));
                let z = choose|z: int| 0 <= z < bx@.len() && bx@[z] == last_cell;
                assert(bx@[z].wf());
                assert(present_vals@[z] == 0);
                lemma_missing_value_with_zero(present_vals@, z);
            }
            sets.push(CellRef { coordinate: last_cell.coordinate, value: last_val });
            proof {
                if start.at_home() {
                    assert forall|sol: Seq<Seq<u32>>| is_solution(sol) && #[trigger] agrees(start, sol)
                        implies agrees(*self, sol) && new_right(q0, sets@, sol) by {
                        lemma_last_in_box(start, sol, px@, py@, bx@, last_cell, last_val);
                        assert(new_right(q0, sets_before, sol));
                    }
                }
            }
        }
        proof {
            if start.at_home() {
                assert(bx@ == start.unit_cells(2, px@, py@));
                lemma_lone_queued(*self, start, 2, px@, py@, bx@, sets@);
                lemma_strikes_queued_extends(start, *self, sets_at_strikes_end, sets@);
            }
        }
        assert(*self == after_strikes);
        Ok(())
    }

    /// Strikes `value` from the open cells of row `y`, queueing each cell left with one
    /// value; then, if the row has a single open cell, queues the value the row lacks.
    fn cascade_row(&mut self, y: u32, value: u32, sets: &mut Vec<CellRef>, px: Ghost<int>) -> (r: Result<(), SolveError>)
        requires
            old(self).wf(),
            y < 9,
            forall|i: int| 0 <= i < old(sets)@.len() ==> valid_ref(#[trigger] old(sets)@[i]),
            0 <= px@ < 9,
            value != 0 ==> old(self).cell(px@, y as int).defined && old(self).cell(px@, y as int).value_as_int == value,
        ensures
            r matches Err(e) ==> e == SolveError::CellEmptied,
            r is Err ==> emptiable(*final(self)),
            r is Err && old(self).at_home() ==> open_emptied(*final(self)),
            final(self).wf(),
            narrows(*old(self), *final(self)),
            final(self).placed_count() == old(self).placed_count(),
            forall|i: int| 0 <= i < final(sets)@.len() ==> valid_ref(#[trigger] final(sets)@[i]),
            extends(old(sets)@, final(sets)@),
            old(self).at_home() ==> forall|sol: Seq<Seq<u32>>| is_solution(sol) && #[trigger] agrees(*old(self), sol)
                ==> r is Ok && agrees(*final(self), sol) && new_right(old(sets)@, final(sets)@, sol),
            r is Ok && old(self).at_home() && 1 <= value <= 9 ==> forall|j: int| 0 <= j < 9 ==> #[trigger] cleared(*final(self), j, y as int, value),
            forall|i: int, j: int| 0 <= i < 9 && 0 <= j < 9 ==> #[trigger] final(self).cell(i, j).defined == old(self).cell(i, j).defined,
            old(self).at_home() ==> forall|i: int, j: int| 0 <= i < 9 && 0 <= j < 9 && !in_unit(0, px@, y as int, i, j)
                ==> #[trigger] final(self).cell(i, j) == old(self).cell(i, j),
            r is Ok && old(self).at_home() ==> forall|t: int| #[trigger] lone_open(*final(self), 0, px@, y as int, t)
                ==> queued(final(sets)@, unit_x(0, px@, t), unit_y(0, y as int, t)),
            r is Ok && old(self).at_home() ==> strikes_queued(*old(self), *final(self), final(sets)@),
    {
        let ghost start = *self;
        let ghost q0 = sets@;
        let row_copy = self.grid[y as usize];
        assert forall|t: int| 0 <= t < 9 implies (#[trigger] row_copy@[t]).wf() by {
            assert(start.cell(t, y as int).wf());
        }
        let mut j: usize = 0;
        while j < 9
            invariant
                self.wf(),
                start == *old(self),
                q0 == old(sets)@,
                narrows(start, *self),
                self.placed_count() == start.placed_count(),
                y < 9,
                row_copy == start.grid@[y as int],
                forall|t: int| 0 <= t < 9 ==> (#[trigger] row_copy@[t]).wf(),
                forall|t: int| 0 <= t < sets@.len() ==> valid_ref(#[trigger] sets@[t]),
                j <= 9,
                0 <= px@ < 9,
                value != 0 ==> start.cell(px@, y as int).defined && start.cell(px@, y as int).value_as_int == value,
                extends(q0, sets@),
                start.at_home() ==> forall|sol: Seq<Seq<u32>>| is_solution(sol) && #[trigger] agrees(start, sol)
                    ==> agrees(*self, sol) && new_right(q0, sets@, sol),
                start.at_home() && 1 <= value <= 9 ==> forall|t: int| 0 <= t < j ==> #[trigger] cleared(*self, t, y as int, value),
                start.at_home() ==> forall|a: int, b: int| 0 <= a < 9 && 0 <= b < 9 && !in_unit(0, px@, y as int, a, b)
                    ==> #[trigger] self.cell(a, b) == start.cell(a, b),
                forall|a: int, b: int| 0 <= a < 9 && 0 <= b < 9 ==> #[trigger] self.cell(a, b).defined == start.cell(a, b).defined,
                start.at_home() ==> strikes_queued(start, *self, sets@),
            decreases 9 - j,
        {
            let rc = row_copy[j];
            assert(row_copy@[j as int].wf());
            let ghost pre_step = *self;
            let row_vals = self.collect_values(self.get_vals_in_row(y));
            proof {
                if row_vals@.contains(0) {
                    lemma_cells_with_value_from(self.row_cells(y as int), 0);
                }
            }
            if rc.defined || contains_u32(&row_vals, rc.value_as_int) {
                proof {
                    if start.at_home() && 1 <= value <= 9 {
                        assert(rc == start.cell(j as int, y as int));
                        assert(cell_narrows(start.cell(j as int, y as int), self.cell(j as int, y as int)));
                    }
                }
                j += 1;
                continue;
            }
            let ghost before = *self;
            let ghost sets_before = sets@;
            proof {
                if start.at_home() {
                    assert(rc == start.cell(j as int, y as int));
                    assert(rc.coordinate == (Coordinate { x: j as u32, y: y as u32 }));
                }
            }
            let p = match self.strike(rc.coordinate.x, rc.coordinate.y, value) {
                Ok(p) => p,
                Err(e) => {
                    proof {
                        if start.at_home() {
                            assert(!before.cell(j as int, y as int).defined);
                            assert(!self.cell(j as int, y as int).defined && self.cell(j as int, y as int).strike_empties(value));
                        }
                        if start.at_home() {
                            assert forall|sol: Seq<Seq<u32>>| is_solution(sol) implies !#[trigger] agrees(start, sol) by {
                                if agrees(start, sol) {
                                    assert(agrees(before, sol));
                                    lemma_peer_value(before, sol, px@, y as int, j as int, y as int, value);
                                }
                            }
                        }
                    }
                    return Err(e);
                },
            };
            proof {
                lemma_narrows_trans(start, before, *self);
                if start.at_home() {
                    assert forall|sol: Seq<Seq<u32>>| is_solution(sol) && #[trigger] agrees(start, sol)
                        implies agrees(*self, sol) && new_right(q0, sets@, sol) by {
                        assert(agrees(before, sol));
                        lemma_peer_value(before, sol, px@, y as int, j as int, y as int, value);
                    }
                }
            }
            if p.0 {
                let ghost mid = *self;
                sets.push(CellRef { coordinate: rc.coordinate, value: p.1 });
                proof {
                    if start.at_home() {
                        assert forall|sol: Seq<Seq<u32>>| is_solution(sol) && #[trigger] agrees(start, sol)
                            implies agrees(*self, sol) && new_right(q0, sets@, sol) by {
                            assert(agrees(mid, sol));
                            assert(agrees(before, sol));
                            lemma_peer_value(before, sol, px@, y as int, j as int, y as int, value);
                            lemma_single_left(before, sol, j as int, y as int, value);
                            assert(new_right(q0, sets_before, sol));
                            assert(sets@[sets@.len() - 1] == CellRef { coordinate: rc.coordinate, value: p.1 });
                        }
                    }
                }
            }
            proof {
                if start.at_home() {
                    assert(extends(sets_before, sets@));
                    if p.0 {
                        assert(sets@[sets@.len() - 1].coordinate == rc.coordinate);
                    }
                    lemma_strike_step(start, before, *self, sets_before, sets@, j as int, y as int, value);
                }
            }
            proof {
                if start.at_home() && 1 <= value <= 9 {
                    assert forall|t: int| 0 <= t < j + 1 implies #[trigger] cleared(*self, t, y as int, value) by {
                        if t < j {
                            assert(cleared(pre_step, t, y as int, value));
                            lemma_cleared_stays(pre_step, *self, t, y as int, value);
                        }
                    }
                }
            }
            j += 1;
        }
        let ghost after_strikes = *self;
        let ghost sets_at_strikes_end = sets@;
        let rw_empty = open_cells_of(&self.row_vec(y));
        if rw_empty.len() == 1 {
            let last_cell = rw_empty[0];
            let present_vals = self.collect_values(self.get_vals_in_row(y));
            let last_val = first_missing(&present_vals);
            let ghost sets_before = sets@;
            proof {
                let row = self.row_cells(y as int);
                assert forall|t: int| 0 <= t < row.len() implies (#[trigger] row[t]).wf() by {
                    assert(self.cell(t, y as int).wf());
                }
                lemma_cell_filters(row);
                assert(row.contains(last_cell));
                lemma_missing_value(present_vals@);
            }
            sets.push(CellRef { coordinate: last_cell.coordinate, value: last_val });
            proof {
                if start.at_home() {
                    assert forall|sol: Seq<Seq<u32>>| is_solution(sol) && #[trigger] agrees(start, sol)
                        implies agrees(*self, sol) && new_right(q0, sets@, sol) by {
                        assert(agrees(*self, sol));
                        lemma_last_in_row(*self, sol, y as int, last_cell, last_val);
                        assert(new_right(q0, sets_before, sol));
                    }
                }
            }
        }
        proof {
            if start.at_home() {
                assert(self.at_home());
                lemma_lone_queued(*self, *self, 0, px@, y as int, self.row_cells(y as int), sets@);
                lemma_strikes_queued_extends(start, *self, sets_at_strikes_end, sets@);
            }
        }
        assert(*self == after_strikes);
        Ok(())
    }

    /// Strikes `value` from the open cells of column `x`, queueing each cell left with one
    /// value; then, if the column has a single open cell, queues the value the column lacks.
    fn cascade_col(&mut self, x: u32, value: u32, sets: &mut Vec<CellRef>, py: Ghost<int>) -> (r: Result<(), SolveError>)
        requires
            old(self).wf(),
            x < 9,
            forall|i: int| 0 <= i < old(sets)@.len() ==> valid_ref(#[trigger] old(sets)@[i]),
            0 <= py@ < 9,
            value != 0 ==> old(self).cell(x as int, py@).defined && old(self).cell(x as int, py@).value_as_int == value,
        ensures
            r matches Err(e) ==> e == SolveError::CellEmptied,
            r is Err ==> emptiable(*final(self)),
            r is Err && old(self).at_home() ==> open_emptied(*final(self)),
            final(self).wf(),
            narrows(*old(self), *final(self)),
            final(self).placed_count() == old(self).placed_count(),
            forall|i: int| 0 <= i < final(sets)@.len() ==> valid_ref(#[trigger] final(sets)@[i]),
            extends(old(sets)@, final(sets)@),
            old(self).at_home() ==> forall|sol: Seq<Seq<u32>>| is_solution(sol) && #[trigger] agrees(*old(self), sol)
                ==> r is Ok && agrees(*final(self), sol) && new_right(old(sets)@, final(sets)@, sol),
            r is Ok && old(self).at_home() && 1 <= value <= 9 ==> forall|j: int| 0 <= j < 9 ==> #[trigger] cleared(*final(self), x as int, j, value),
            forall|i: int, j: int| 0 <= i < 9 && 0 <= j < 9 ==> #[trigger] final(self).cell(i, j).defined == old(self).cell(i, j).defined,
            old(self).at_home() ==> forall|i: int, j: int| 0 <= i < 9 && 0 <= j < 9 && !in_unit(1, x as int, py@, i, j)
                ==> #[trigger] final(self).cell(i, j) == old(self).cell(i, j),
            r is Ok && old(self).at_home() ==> forall|t: int| #[trigger] lone_open(*final(self), 1, x as int, py@, t)
                ==> queued(final(sets)@, unit_x(1, x as int, t), unit_y(1, py@, t)),
            r is Ok && old(self).at_home() ==> strikes_queued(*old(self), *final(self), final(sets)@),
    {
        let ghost start = *self;
        let ghost q0 = sets@;
        let grid_copy = self.grid;
        assert forall|t: int| 0 <= t < 9 implies (#[trigger] grid_copy@[t]@[x as int]).wf() by {
            assert(start.cell(x as int, t).wf());
        }
        let mut r: usize = 0;
        while r < 9
            invariant
                self.wf(),
                start == *old(self),
                q0 == old(sets)@,
                narrows(start, *self),
                self.placed_count() == start.placed_count(),
                x < 9,
                grid_copy == start.grid,
                forall|t: int| 0 <= t < 9 ==> (#[trigger] grid_copy@[t]@[x as int]).wf(),
                forall|t: int| 0 <= t < sets@.len() ==> valid_ref(#[trigger] sets@[t]),
                r <= 9,
                0 <= py@ < 9,
                value != 0 ==> start.cell(x as int, py@).defined && start.cell(x as int, py@).value_as_int == value,
                extends(q0, sets@),
                start.at_home() ==> forall|sol: Seq<Seq<u32>>| is_solution(sol) && #[trigger] agrees(start, sol)
                    ==> agrees(*self, sol) && new_right(q0, sets@, sol),
                start.at_home() && 1 <= value <= 9 ==> forall|t: int| 0 <= t < r ==> #[trigger] cleared(*self, x as int, t, value),
                start.at_home() ==> forall|a: int, b: int| 0 <= a < 9 && 0 <= b < 9 && !in_unit(1, x as int, py@, a, b)
                    ==> #[trigger] self.cell(a, b) == start.cell(a, b),
                forall|a: int, b: int| 0 <= a < 9 && 0 <= b < 9 ==> #[trigger] self.cell(a, b).defined == start.cell(a, b).defined,
                start.at_home() ==> strikes_queued(start, *self, sets@),
            decreases 9 - r,
        {
            let cc = grid_copy[r][x as usize];
            assert(grid_copy@[r as int]@[x as int].wf());
            let ghost pre_step = *self;
            let col_vals = self.collect_values(self.get_vals_in_col(x));
            proof {
                if col_vals@.contains(0) {
                    lemma_cells_with_value_from(self.col_cells(x as int), 0);
                }
            }
            if cc.defined || contains_u32(&col_vals, cc.value_as_int) {
                proof {
                    if start.at_home() && 1 <= value <= 9 {
                        assert(cc == start.cell(x as int, r as int));
                        assert(cell_narrows(start.cell(x as int, r as int), self.cell(x as int, r as int)));
                    }
                }
                r += 1;
                continue;
            }
            let ghost before = *self;
            let ghost sets_before = sets@;
            proof {
                if start.at_home() {
                    assert(cc == start.cell(x as int, r as int));
                    assert(cc.coordinate == (Coordinate { x: x as u32, y: r as u32 }));
                }
            }
            let p = match self.strike(cc.coordinate.x, cc.coordinate.y, value) {
                Ok(p) => p,
                Err(e) => {
                    proof {
                        if start.at_home() {
                            assert(!before.cell(x as int, r as int).defined);
                            assert(!self.cell(x as int, r as int).defined && self.cell(x as int, r as int).strike_empties(value));
                        }
                        if start.at_home() {
                            assert forall|sol: Seq<Seq<u32>>| is_solution(sol) implies !#[trigger] agrees(start, sol) by {
                                if agrees(start, sol) {
                                    assert(agrees(before, sol));
                                    lemma_peer_value(before, sol, x as int, py@, x as int, r as int, value);
                                }
                            }
                        }
                    }
                    return Err(e);
                },
            };
            proof {
                lemma_narrows_trans(start, before, *self);
                if start.at_home() {
                    assert forall|sol: Seq<Seq<u32>>| is_solution(sol) && #[trigger] agrees(start, sol)
                        implies agrees(*self, sol) && new_right(q0, sets@, sol) by {
                        assert(agrees(before, sol));
                        lemma_peer_value(before, sol, x as int, py@, x as int, r as int, value);
                    }
                }
            }
            if p.0 {
                let ghost mid = *self;
                sets.push(CellRef { coordinate: cc.coordinate, value: p.1 });
                proof {
                    if start.at_home() {
                        assert forall|sol: Seq<Seq<u32>>| is_solution(sol) && #[trigger] agrees(start, sol)
                            implies agrees(*self, sol) && new_right(q0, sets@, sol) by {
                            assert(agrees(mid, sol));
                            assert(agrees(before, sol));
                            lemma_peer_value(before, sol, x as int, py@, x as int, r as int, value);
                            lemma_single_left(before, sol, x as int, r as int, value);
                            assert(new_right(q0, sets_before, sol));
                            assert(sets@[sets@.len() - 1] == CellRef { coordinate: cc.coordinate, value: p.1 });
                        }
                    }
                }
            }
            proof {
                if start.at_home() {
                    assert(extends(sets_before, sets@));
                    if p.0 {
                        assert(sets@[sets@.len() - 1].coordinate == cc.coordinate);
                    }
                    lemma_strike_step(start, before, *self, sets_before, sets@, x as int, r as int, value);
                }
            }
            proof {
                if start.at_home() && 1 <= value <= 9 {
                    assert forall|t: int| 0 <= t < r + 1 implies #[trigger] cleared(*self, x as int, t, value) by {
                        if t < r {
                            assert(cleared(pre_step, x as int, t, value));
                            lemma_cleared_stays(pre_step, *self, x as int, t, value);
                        }
                    }
                }
            }
            r += 1;
        }
        let ghost after_strikes = *self;
        let ghost sets_at_strikes_end = sets@;
        let cl_empty = open_cells_of(&self.col_vec(x));
        if cl_empty.len() == 1 {
            let last_cell = cl_empty[0];
            let present_vals = self.collect_values(self.get_vals_in_col(x));
            let last_val = first_missing(&present_vals);
            let ghost sets_before = sets@;
            proof {
                let col = self.col_cells(x as int);
                assert forall|t: int| 0 <= t < col.len() implies (#[trigger] col[t]).wf() by {
                    assert(self.cell(x as int, t).wf());
                }
                lemma_cell_filters(col);
                assert(col.contains(last_cell));
                lemma_missing_value(present_vals@);
            }
            sets.push(CellRef { coordinate: last_cell.coordinate, value: last_val });
            proof {
                if start.at_home() {
                    assert forall|sol: Seq<Seq<u32>>| is_solution(sol) && #[trigger] agrees(start, sol)
                        implies agrees(*self, sol) && new_right(q0, sets@, sol) by {
                        assert(agrees(*self, sol));
                        lemma_last_in_col(*self, sol, x as int, last_cell, last_val);
                        assert(new_right(q0, sets_before, sol));
                    }
                }
            }
        }
        proof {
            if start.at_home() {
                assert(self.at_home());
                lemma_lone_queued(*self, *self, 1, x as int, py@, self.col_cells(x as int), sets@);
                lemma_strikes_queued_extends(start, *self, sets_at_strikes_end, sets@);
            }
        }
        assert(*self == after_strikes);
        Ok(())
    }

    /// Places `value` in the cell at column `x`, row `y`, then makes, first in first out,
    /// every placement that placements force: a value struck from the rest of the box, row
    /// and column that leaves a cell with a single value, and the missing value of a box,
    /// row or column left with a single open cell. Defined cells are never changed. When the
    /// cells carry their positions, only the cells it placed and cells sharing a row, column
    /// or box with one of them change; at the end no row, column or box of a cell it placed
    /// has a single open cell, and each open cell whose values it changed keeps at least two;
    /// and a failure means an open cell had its last possible value struck.
    pub fn set_value(&mut self, x: u32, y: u32, value: u32) -> (r: Result<(), SolveError>)
        requires
            old(self).wf(),
            x < 9,
            y < 9,
            !old(self).cell(x as int, y as int).defined ==> value <= 9,
        ensures
            r matches Err(e) ==> e == SolveError::CellEmptied,
            r is Err ==> emptiable(*final(self)),
            r is Err && old(self).at_home() ==> open_emptied(*final(self)),
            final(self).wf(),
            value != 0 ==> shrinks(*old(self), *final(self)),
            value != 0 && r is Ok ==> narrows(*old(self), *final(self)),
            r is Ok && value != 0 && !old(self).cell(x as int, y as int).defined ==> {
                &&& final(self).cell(x as int, y as int).defined
                &&& final(self).cell(x as int, y as int).value_as_int == value
                &&& final(self).cell(x as int, y as int).states@ == initial_states(value)
                &&& final(self).cell(x as int, y as int).coordinate == (Coordinate { x, y })
            },
            old(self).cell(x as int, y as int).defined ==> r is Ok && *final(self) == *old(self),
            r is Ok && value != 0 && old(self).at_home() && !old(self).cell(x as int, y as int).defined
                ==> forall|qx: int, qy: int| 0 <= qx < 9 && 0 <= qy < 9 && peers(x as int, y as int, qx, qy)
                    ==> #[trigger] cleared(*final(self), qx, qy, value),
            old(self).at_home() ==> final(self).at_home(),
            value != 0 && old(self).at_home() ==> changed_near_placed(*old(self), *final(self)),
            old(self).at_home() ==> forall|sol: Seq<Seq<u32>>| is_solution(sol) && #[trigger] agrees(*old(self), sol)
                && (old(self).cell(x as int, y as int).defined || value == 0 || sol[y as int][x as int] == value)
                ==> r is Ok && agrees(*final(self), sol),
            r is Ok && old(self).at_home() ==> forall|px: int, py: int, kind: int, t: int| 0 <= px < 9 && 0 <= py < 9 && 0 <= kind < 3
                && final(self).cell(px, py).defined && !old(self).cell(px, py).defined
                ==> !#[trigger] lone_open(*final(self), kind, px, py, t),
            r is Ok && old(self).at_home() ==> forall|qx: int, qy: int| 0 <= qx < 9 && 0 <= qy < 9 && !final(self).cell(qx, qy).defined
                && #[trigger] final(self).cell(qx, qy).states@ != old(self).cell(qx, qy).states@
                ==> final(self).cell(qx, qy).possible_values().len() >= 2,
    {
        if self.grid[y as usize][x as usize].defined {
            proof { lemma_narrows_refl(*self); }
            return Ok(());
        }
        let mut sets: Vec<CellRef> = Vec::new();
        sets.push(CellRef { coordinate: Coordinate { x, y }, value });
        let mut ct: u32 = 0;
        let ghost mut first: bool = true;
        proof { lemma_count_bound(*self, 0, 81); }
        while sets.len() > 0
            invariant
                self.wf(),
                x < 9,
                y < 9,
                value <= 9,
                value != 0 ==> narrows(*old(self), *self),
                first ==> *self == *old(self) && sets@.len() == 1 && sets@[0] == (CellRef { coordinate: Coordinate { x, y }, value }),
                old(self).cell(x as int, y as int).defined ==> *self == *old(self) && (!first ==> sets@.len() == 0),
                !first && value != 0 && !old(self).cell(x as int, y as int).defined ==> {
                    &&& self.cell(x as int, y as int).defined
                    &&& self.cell(x as int, y as int).value_as_int == value
                    &&& self.cell(x as int, y as int).states@ == initial_states(value)
                    &&& self.cell(x as int, y as int).coordinate == (Coordinate { x, y })
                },
                forall|i: int| 0 <= i < sets@.len() ==> (first && i == 0) || valid_ref(#[trigger] sets@[i]),
                forall|i: int| 0 <= i < sets@.len() ==> in_grid_ref(#[trigger] sets@[i]),
                old(self).at_home() ==> self.at_home(),
                value != 0 && old(self).at_home() ==> changed_near_placed(*old(self), *self),
                old(self).at_home() ==> forall|sol: Seq<Seq<u32>>| is_solution(sol) && #[trigger] agrees(*old(self), sol)
                    && (old(self).cell(x as int, y as int).defined || value == 0 || sol[y as int][x as int] == value)
                    ==> agrees(*self, sol) && queue_ok(*self, sets@, sol),
                ct + (81 - self.placed_count()) + ind(first) <= 82,
                self.placed_count() <= 81,
                old(self).at_home() ==> forall|px: int, py: int| 0 <= px < 9 && 0 <= py < 9 && #[trigger] self.cell(px, py).defined
                    && !old(self).cell(px, py).defined ==> units_queued(*self, sets@, px, py),
                old(self).at_home() ==> strikes_queued(*old(self), *self, sets@),
            decreases 81 - self.placed_count() + ind(first), sets@.len(),
        {
            let cur = sets[0];
            proof {
                if !first {
                    assert(valid_ref(sets@[0]));
                }
            }
            let ghost before_sets = sets@;
            if self.grid[cur.coordinate.y as usize][cur.coordinate.x as usize].defined {
                sets.remove(0);
                proof {
                    assert(sets@ =~= before_sets.drop_first());
                    if old(self).at_home() {
                        lemma_units_queued_step(*old(self), *self, before_sets, *self, sets@,
                            cur.coordinate.x as int, cur.coordinate.y as int);
                        assert forall|i: int, j: int| 0 <= i < 9 && 0 <= j < 9 && !self.cell(i, j).defined
                            && #[trigger] self.cell(i, j).states@ != old(self).cell(i, j).states@
                            implies self.cell(i, j).possible_values().len() >= 2 || queued(sets@, i, j) by {
                            if !(self.cell(i, j).possible_values().len() >= 2) {
                                let k = choose|k: int| 0 <= k < before_sets.len() && (#[trigger] before_sets[k]).coordinate.x == i
                                    && before_sets[k].coordinate.y == j;
                                assert(k != 0);
                                assert(sets@[k - 1] == before_sets[k]);
                            }
                        }
                    }
                    first = false;
                    assert forall|i: int| 0 <= i < sets@.len() implies (first && i == 0) || valid_ref(#[trigger] sets@[i]) by {
                        assert(sets@[i] == before_sets[i + 1]);
                    }
                    assert forall|i: int| 0 <= i < sets@.len() implies in_grid_ref(#[trigger] sets@[i]) by {
                        assert(sets@[i] == before_sets[i + 1]);
                    }
                    if old(self).at_home() {
                        assert forall|sol: Seq<Seq<u32>>| is_solution(sol) && #[trigger] agrees(*old(self), sol)
                            && (old(self).cell(x as int, y as int).defined || value == 0 || sol[y as int][x as int] == value)
                            implies agrees(*self, sol) && queue_ok(*self, sets@, sol) by {
                            assert(queue_ok(*self, before_sets, sol));
                            assert forall|i: int| 0 <= i < sets@.len() implies entry_ok(*self, #[trigger] sets@[i], sol) by {
                                assert(sets@[i] == before_sets[i + 1]);
                                assert(entry_ok(*self, before_sets[i + 1], sol));
                            }
                        }
                    }
                }
                continue;
            }
            let cx = cur.coordinate.x;
            let cy = cur.coordinate.y;
            let cv = cur.value;
            sets.remove(0);
            let ghost pre = *self;
            let ghost was_first = first;
            self.place(cx, cy, cv);
            proof {
                first = false;
                lemma_count_bound(*self, 0, 81);
                assert forall|i: int| 0 <= i < sets@.len() implies valid_ref(#[trigger] sets@[i]) by {
                    assert(sets@[i] == before_sets[i + 1]);
                }
                if old(self).at_home() {
                    assert forall|sol: Seq<Seq<u32>>| is_solution(sol) && #[trigger] agrees(*old(self), sol)
                        && (old(self).cell(x as int, y as int).defined || value == 0 || sol[y as int][x as int] == value)
                        implies agrees(*self, sol) && queue_ok(*self, sets@, sol) by {
                        assert(agrees(pre, sol));
                        assert(queue_ok(pre, before_sets, sol));
                        assert(entry_ok(pre, before_sets[0], sol));
                        assert(agrees(*self, sol));
                        assert forall|i: int| 0 <= i < sets@.len() implies entry_ok(*self, #[trigger] sets@[i], sol) by {
                            let e = before_sets[i + 1];
                            assert(sets@[i] == e);
                            assert(entry_ok(pre, e, sol));
                            assert(valid_ref(e));
                            if !(e.coordinate.x == cx && e.coordinate.y == cy) {
                                assert(self.cell(e.coordinate.x as int, e.coordinate.y as int) == pre.cell(e.coordinate.x as int, e.coordinate.y as int));
                            }
                        }
                    }
                }
            }
            ct += 1;
            assert(ct < 100);
            let ghost mid = *self;
            proof {
                if value != 0 && old(self).at_home() {
                    assert(cv != 0);
                    assert(cell_narrows(old(self).cell(cx as int, cy as int), pre.cell(cx as int, cy as int)));
                    lemma_near_placed_step(*old(self), pre, mid, 0, cx as int, cy as int);
                }
            }
            let bx_box = SudokuBox::new(SudokuBox::coord_translator(cx), SudokuBox::coord_translator(cy), *self);
            let bx = bx_box.as_vec();
            proof {
                assert forall|t: int| 0 <= t < 9 implies (#[trigger] bx@[t]).wf() by {
                    assert(bx@[t] == bx_box.at(t));
                    assert(0 <= t / 3 < 3 && 0 <= t % 3 < 3);
                    assert(bx_box.content@[t / 3]@[t % 3].wf());
                }
                assert forall|t: int| 0 <= t < 9 implies #[trigger] bx@[t] == self.box_cells(box_of(cx as int), box_of(cy as int))[t] by {
                    assert(bx@[t] == bx_box.at(t));
                    lemma_box_position(cx as int, cy as int, t);
                }
                assert(bx@ =~= self.box_cells(box_of(cx as int), box_of(cy as int)));
            }
            let ghost q_mid = sets@;
            match self.cascade_box(&bx, cv, &mut sets, Ghost(cx as int), Ghost(cy as int)) {
                Ok(()) => {},
                Err(e) => {
                    proof {
                        if value != 0 { lemma_shrinks_trans(*old(self), pre, mid); }
                        if value != 0 && old(self).at_home() {
                            lemma_near_placed_step(*old(self), mid, *self, 2, cx as int, cy as int);
                        }
                        if old(self).at_home() {
                            assert forall|sol: Seq<Seq<u32>>| is_solution(sol) && #[trigger] agrees(*old(self), sol)
                                && (old(self).cell(x as int, y as int).defined || value == 0 || sol[y as int][x as int] == value)
                                implies false by {
                                assert(agrees(mid, sol));
                            }
                        }
                    }
                    return Err(e);
                },
            }
            let ghost after_box = *self;
            proof {
                if value != 0 && old(self).at_home() {
                    lemma_near_placed_step(*old(self), mid, after_box, 2, cx as int, cy as int);
                }
            }
            let ghost q_box = sets@;
            proof {
                if old(self).at_home() {
                    assert forall|sol: Seq<Seq<u32>>| is_solution(sol) && #[trigger] agrees(*old(self), sol)
                        && (old(self).cell(x as int, y as int).defined || value == 0 || sol[y as int][x as int] == value)
                        implies agrees(*self, sol) && queue_ok(*self, sets@, sol) by {
                        assert(agrees(mid, sol));
                        assert(queue_ok(mid, q_mid, sol));
                        assert forall|i: int| 0 <= i < q_mid.len() implies in_grid_ref(#[trigger] q_mid[i]) by {
                            assert(valid_ref(q_mid[i]));
                        }
                        lemma_queue_narrows(mid, *self, q_mid, sets@, sol);
                    }
                }
            }
            match self.cascade_row(cy, cv, &mut sets, Ghost(cx as int)) {
                Ok(()) => {},
                Err(e) => {
                    proof {
                        if value != 0 { lemma_shrinks_trans(*old(self), pre, mid); lemma_shrinks_trans(*old(self), mid, after_box); }
                        if value != 0 && old(self).at_home() {
                            lemma_near_placed_step(*old(self), after_box, *self, 0, cx as int, cy as int);
                        }
                        if old(self).at_home() {
                            assert forall|sol: Seq<Seq<u32>>| is_solution(sol) && #[trigger] agrees(*old(self), sol)
                                && (old(self).cell(x as int, y as int).defined || value == 0 || sol[y as int][x as int] == value)
                                implies false by {
                                assert(agrees(after_box, sol));
                            }
                        }
                    }
                    return Err(e);
                },
            }
            let ghost after_row = *self;
            proof {
                if value != 0 && old(self).at_home() {
                    lemma_near_placed_step(*old(self), after_box, after_row, 0, cx as int, cy as int);
                }
            }
            let ghost q_row = sets@;
            proof {
                if old(self).at_home() {
                    assert forall|sol: Seq<Seq<u32>>| is_solution(sol) && #[trigger] agrees(*old(self), sol)
                        && (old(self).cell(x as int, y as int).defined || value == 0 || sol[y as int][x as int] == value)
                        implies agrees(*self, sol) && queue_ok(*self, sets@, sol) by {
                        assert(agrees(after_box, sol));
                        assert(queue_ok(after_box, q_box, sol));
                        assert forall|i: int| 0 <= i < q_box.len() implies in_grid_ref(#[trigger] q_box[i]) by {
                            assert(valid_ref(q_box[i]));
                        }
                        lemma_queue_narrows(after_box, *self, q_box, sets@, sol);
                    }
                }
            }
            match self.cascade_col(cx, cv, &mut sets, Ghost(cy as int)) {
                Ok(()) => {},
                Err(e) => {
                    proof {
                        if value != 0 {
                            lemma_shrinks_trans(*old(self), pre, mid);
                            lemma_shrinks_trans(*old(self), mid, after_box);
                            lemma_shrinks_trans(*old(self), after_box, after_row);
                        }
                        if value != 0 && old(self).at_home() {
                            lemma_near_placed_step(*old(self), after_row, *self, 1, cx as int, cy as int);
                        }
                        if old(self).at_home() {
                            assert forall|sol: Seq<Seq<u32>>| is_solution(sol) && #[trigger] agrees(*old(self), sol)
                                && (old(self).cell(x as int, y as int).defined || value == 0 || sol[y as int][x as int] == value)
                                implies false by {
                                assert(agrees(after_row, sol));
                            }
                        }
                    }
                    return Err(e);
                },
            }
            proof {
                if value != 0 && old(self).at_home() {
                    lemma_near_placed_step(*old(self), after_row, *self, 1, cx as int, cy as int);
                }
                lemma_narrows_trans(mid, after_box, after_row);
                lemma_narrows_trans(mid, after_row, *self);
                if value != 0 {
                    assert(cv != 0);
                    if mid.at_home() {
                        assert forall|j: int| 0 <= j < 9 implies #[trigger] cleared(*self, j, cy as int, cv) by {
                            assert(cleared(after_row, j, cy as int, cv));
                            lemma_cleared_stays(after_row, *self, j, cy as int, cv);
                        }
                        assert forall|qx: int, qy: int| #[trigger] in_unit(2, cx as int, cy as int, qx, qy) implies cleared(*self, qx, qy, cv) by {
                            assert(cleared(after_box, qx, qy, cv));
                            lemma_shrinks_trans(after_box, after_row, *self);
                            lemma_cleared_stays(after_box, *self, qx, qy, cv);
                        }
                    }
                    lemma_place_narrows(pre, mid, *self, cx as int, cy as int, cv);
                    lemma_narrows_trans(*old(self), pre, *self);
                }
                if value != 0 && !old(self).cell(x as int, y as int).defined {
                    assert(mid.cell(x as int, y as int).defined);
                    assert(cell_narrows(mid.cell(x as int, y as int), self.cell(x as int, y as int)));
                }
                assert forall|i: int| 0 <= i < sets@.len() implies in_grid_ref(#[trigger] sets@[i]) by {
                    assert(valid_ref(sets@[i]));
                }
                if old(self).at_home() {
                    assert forall|sol: Seq<Seq<u32>>| is_solution(sol) && #[trigger] agrees(*old(self), sol)
                        && (old(self).cell(x as int, y as int).defined || value == 0 || sol[y as int][x as int] == value)
                        implies agrees(*self, sol) && queue_ok(*self, sets@, sol) by {
                        assert(agrees(after_row, sol));
                        assert(queue_ok(after_row, q_row, sol));
                        assert forall|i: int| 0 <= i < q_row.len() implies in_grid_ref(#[trigger] q_row[i]) by {
                            assert(valid_ref(q_row[i]));
                        }
                        lemma_queue_narrows(after_row, *self, q_row, sets@, sol);
                    }
                }
                if old(self).at_home() {
                    assert(q_mid =~= before_sets.drop_first());
                    assert(extends(q_mid, sets@)) by {
                        assert forall|i: int| 0 <= i < q_mid.len() implies #[trigger] sets@[i] == q_mid[i] by {
                            assert(q_box[i] == q_mid[i]);
                            assert(q_row[i] == q_box[i]);
                        }
                    }
                    lemma_own_units_queued(after_box, after_row, *self, q_box, q_row, sets@, cx as int, cy as int);
                    assert forall|i: int, j: int| 0 <= i < 9 && 0 <= j < 9 && !(i == cx && j == cy)
                        implies #[trigger] self.cell(i, j).defined == pre.cell(i, j).defined by {
                        assert(after_row.cell(i, j).defined == after_box.cell(i, j).defined);
                        assert(after_box.cell(i, j).defined == mid.cell(i, j).defined);
                        assert(mid.cell(i, j) == pre.cell(i, j));
                    }
                    lemma_units_queued_step(*old(self), pre, before_sets, *self, sets@, cx as int, cy as int);
                    if !mid.cell(cx as int, cy as int).defined {
                        lemma_values_with(initial_states(cv), ValueStatus::Possible, 9);
                        assert(cv == 0);
                        assert(mid.cell(cx as int, cy as int).possible_values().len() == 9);
                    }
                    lemma_strikes_queued_round(*old(self), pre, before_sets, mid, after_box, after_row, *self,
                        q_mid, q_box, q_row, sets@, cx as int, cy as int);
                }
            }
        }
        proof {
            if value != 0 && old(self).at_home() && !old(self).cell(x as int, y as int).defined {
                assert forall|qx: int, qy: int| 0 <= qx < 9 && 0 <= qy < 9 && peers(x as int, y as int, qx, qy)
                    implies #[trigger] cleared(*self, qx, qy, value) by {
                    if !cleared(*self, qx, qy, value) {
                        assert(conflict(*self, x as int, y as int, qx, qy));
                    }
                }
            }
        }
        Ok(())
    }
}

} // verus!
