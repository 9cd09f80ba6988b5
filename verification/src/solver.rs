use vstd::prelude::*;
use crate::cell::{SudokuCell, ValueStatus};
use crate::grid::{emptiable, counts_kept, SudokuGrid, SolveError, GRID_SIZE, GRID_SIZE_I, narrows, potential, lemma_narrows_trans,
    lemma_narrows_refl, lemma_potential_drops, shrinks, lemma_shrinks_trans};
use crate::sbox::SudokuBox;
use crate::siblings::{coords_in_grid, pass_states, siblings_cleared, siblings_pass_done, lemma_siblings_cleared_stays};
use crate::exclusives::{exclusive_groups, strikes_done, lemma_strikes_done_stays};
use crate::sbox::box_start;
use crate::solution::{is_solution, agrees, cell_agrees, settled};
use crate::grid::lemma_settled_narrows;
use crate::exclusives::{is_unit, lemma_same_cells_as_refl};
use crate::placement::lemma_box_position;
use crate::candidates::{same_grid_cells, no_single_at, lemma_narrows_between};
use crate::techniques::{hidden_single, chained, lemma_same_cells_hidden, lemma_no_hidden_left, box_target, row_line_target,
    col_line_target, lemma_same_cells_targets};
use crate::placement::cleared;
use crate::xwing::{wing_active, first_wing, wing_target, pair_target, cleared_on, lemma_same_cells_wing, lemma_first_wing, lemma_target_open};
use crate::equality::{grids_match, cells_match};

verus! {

/// Every solution compatible with `a` is compatible with `b`.
pub open spec fn keeps_all(a: SudokuGrid, b: SudokuGrid) -> bool {
    forall|sol: Seq<Seq<u32>>| is_solution(sol) && #[trigger] agrees(a, sol) ==> agrees(b, sol)
}

/// No solution is compatible with `g`.
pub open spec fn no_solution(g: SudokuGrid) -> bool {
    forall|sol: Seq<Seq<u32>>| is_solution(sol) ==> !#[trigger] agrees(g, sol)
}

/// Two successive steps that keep the solutions keep them, and a settled grid stays settled.
pub proof fn lemma_keep_solutions(a: SudokuGrid, before: SudokuGrid, after: SudokuGrid)
    requires
        narrows(a, before),
        narrows(before, after),
        a.at_home() ==> keeps_all(a, before) && keeps_all(before, after),
    ensures
        a.at_home() ==> keeps_all(a, after),
        a.at_home() && settled(before) ==> settled(after),
{
    if a.at_home() {
        assert forall|sol: Seq<Seq<u32>>| is_solution(sol) && #[trigger] agrees(a, sol) implies agrees(after, sol) by {
            assert(agrees(before, sol));
        }
        if settled(before) {
            lemma_settled_narrows(before, after);
        }
    }
}

/// A step that failed after steps that kept the solutions shows that there were none.
pub proof fn lemma_keep_solutions_err(a: SudokuGrid, before: SudokuGrid)
    requires
        a.at_home() ==> keeps_all(a, before) && no_solution(before),
    ensures
        a.at_home() ==> no_solution(a),
{
    if a.at_home() {
        assert forall|sol: Seq<Seq<u32>>| is_solution(sol) implies !#[trigger] agrees(a, sol) by {
            if agrees(a, sol) {
                assert(agrees(before, sol));
            }
        }
    }
}

/// Grids with the same cells, whose counters moved as their cells did, have the same counters.
pub proof fn lemma_same_cells_counts(a: SudokuGrid, b: SudokuGrid)
    requires
        counts_kept(a, b),
        same_grid_cells(a, b),
    ensures
        forall|v: u32| 1 <= v <= 9 ==> #[trigger] a.definite_values.counts@[v - 1] == b.definite_values.counts@[v - 1],
{
    assert forall|k: int| 0 <= k < 81 implies a.value_at(k) == b.value_at(k) by {
        crate::grid::lemma_flat_split(k);
        assert(a.cell(k % 9, k / 9) == b.cell(k % 9, k / 9));
    }
    crate::grid::lemma_count_same(a, b, 81);
    assert forall|v: u32| 1 <= v <= 9 implies #[trigger] a.definite_values.counts@[v - 1] == b.definite_values.counts@[v - 1] by {
        assert(a.value_count(v) == b.value_count(v));
    }
}

/// No open cell of `g` is a hidden single for a value not placed nine times.
pub open spec fn no_hidden_single(g: SudokuGrid) -> bool {
    forall|n: u32, x: int, y: int| 1 <= n <= 9 && g.definite_values.counts@[n - 1] != 9 && 0 <= x < 9 && 0 <= y < 9
        ==> !#[trigger] hidden_single(g, g, n, x, y)
}

/// Two grids with the same cells, one a later state of the other, and a third met between
/// them with each step shrinking: all three have the same cells.
proof fn lemma_between_same(ps: SudokuGrid, m: SudokuGrid, f: SudokuGrid)
    requires
        ps.wf(),
        m.wf(),
        shrinks(ps, m),
        shrinks(m, f),
        same_grid_cells(ps, f),
    ensures
        same_grid_cells(m, f),
{
    lemma_narrows_between(ps, m, f);
    assert forall|qx: int, qy: int| 0 <= qx < 9 && 0 <= qy < 9 implies #[trigger] m.cell(qx, qy) == f.cell(qx, qy) by {
        assert(ps.cell(qx, qy) == m.cell(qx, qy));
        assert(ps.cell(qx, qy) == f.cell(qx, qy));
    }
}

/// When a pass of `analyse` from `ps` changed no cell (ending at `f`), the box and line
/// eliminations made in it (from `an` to `ab`, and from `ab` to `al`) left nothing to strike.
proof fn lemma_stuck_targets(ps: SudokuGrid, an: SudokuGrid, ab: SudokuGrid, al: SudokuGrid, f: SudokuGrid)
    requires
        ps.wf(),
        an.wf(),
        ab.wf(),
        al.wf(),
        narrows(ps, an),
        narrows(an, ab),
        narrows(ab, al),
        shrinks(al, f),
        same_grid_cells(ps, f),
        exists|states: Seq<SudokuGrid>| states.len() == 9
            && (forall|b: int| 0 <= b < 9 ==> narrows(an, #[trigger] states[b]) && narrows(states[b], ab) && states[b].wf())
            && (forall|b: int, n: u32, c: int, r: int| 0 <= b < 9 && #[trigger] box_target(states[b], b, n, c, r)
                ==> cleared(ab, c, r, n)),
        forall|y: int, n: u32, c: int, rr: int| #[trigger] row_line_target(ab, y, n, c, rr) ==> cleared(al, c, rr, n),
        exists|cols: Seq<SudokuGrid>| cols.len() == 9
            && (forall|x: int| 0 <= x < 9 ==> narrows(ab, #[trigger] cols[x]) && narrows(cols[x], al) && cols[x].wf())
            && (forall|x: int, n: u32, c: int, rr: int| 0 <= x < 9 && #[trigger] col_line_target(cols[x], x, n, c, rr)
                ==> cleared(al, c, rr, n)),
    ensures
        forall|b: int, n: u32, c: int, r: int| #[trigger] box_target(f, b, n, c, r) ==> cleared(f, c, r, n),
        forall|y: int, n: u32, c: int, r: int| #[trigger] row_line_target(f, y, n, c, r) ==> cleared(f, c, r, n),
        forall|x: int, n: u32, c: int, r: int| #[trigger] col_line_target(f, x, n, c, r) ==> cleared(f, c, r, n),
{
    lemma_shrinks_trans(ab, al, f);
    lemma_shrinks_trans(an, ab, f);
    lemma_shrinks_trans(ps, an, ab);
    lemma_shrinks_trans(ps, ab, al);
    lemma_between_same(ps, an, f);
    lemma_between_same(ps, ab, f);
    lemma_between_same(ps, al, f);
    lemma_same_cells_targets(ab, f);
    lemma_same_cells_targets(al, f);
    let states = choose|states: Seq<SudokuGrid>| states.len() == 9
        && (forall|b: int| 0 <= b < 9 ==> narrows(an, #[trigger] states[b]) && narrows(states[b], ab) && states[b].wf())
        && (forall|b: int, n: u32, c: int, r: int| 0 <= b < 9 && #[trigger] box_target(states[b], b, n, c, r)
            ==> cleared(ab, c, r, n));
    assert forall|b: int, n: u32, c: int, r: int| #[trigger] box_target(f, b, n, c, r) implies cleared(f, c, r, n) by {
        let st = states[b];
        assert(narrows(an, st) && narrows(st, ab) && st.wf());
        lemma_shrinks_trans(ps, an, st);
        lemma_shrinks_trans(st, ab, f);
        lemma_between_same(ps, st, f);
        lemma_same_cells_targets(st, f);
        assert(box_target(st, b, n, c, r));
        assert(cleared(ab, c, r, n));
    }
    let cols = choose|cols: Seq<SudokuGrid>| cols.len() == 9
        && (forall|x: int| 0 <= x < 9 ==> narrows(ab, #[trigger] cols[x]) && narrows(cols[x], al) && cols[x].wf())
        && (forall|x: int, n: u32, c: int, rr: int| 0 <= x < 9 && #[trigger] col_line_target(cols[x], x, n, c, rr)
            ==> cleared(al, c, rr, n));
    assert forall|x: int, n: u32, c: int, r: int| #[trigger] col_line_target(f, x, n, c, r) implies cleared(f, c, r, n) by {
        let st = cols[x];
        assert(narrows(ab, st) && narrows(st, al) && st.wf());
        lemma_shrinks_trans(ps, ab, st);
        lemma_shrinks_trans(st, al, f);
        lemma_between_same(ps, st, f);
        lemma_same_cells_targets(st, f);
        assert(col_line_target(st, x, n, c, r));
        assert(cleared(al, c, r, n));
    }
    assert forall|y: int, n: u32, c: int, r: int| #[trigger] row_line_target(f, y, n, c, r) implies cleared(f, c, r, n) by {
        assert(row_line_target(ab, y, n, c, r));
        assert(cleared(al, c, r, n));
    }
}

/// No value has an x-wing over rows or over columns in `g`.
pub open spec fn no_wings(g: SudokuGrid) -> bool {
    forall|n: u32| 1 <= n <= 9 ==> !#[trigger] wing_active(g, false, n) && !wing_active(g, true, n)
}

/// What an `x_wing` call from `b` to `a` cleared: the targets of the first value with a row
/// x-wing, or, when no value has one, those of the first value with a column x-wing.
pub open spec fn wings_cleared(b: SudokuGrid, a: SudokuGrid) -> bool {
    &&& forall|n: u32, c: int, row: int| first_wing(b, false, n) && #[trigger] wing_target(b, false, n, c, row)
        ==> cleared_on(a, false, c, row, n)
    &&& (forall|n: u32| 1 <= n <= 9 ==> !#[trigger] wing_active(b, false, n))
        ==> forall|n: u32, r: int, col: int| first_wing(b, true, n) && #[trigger] wing_target(b, true, n, r, col)
            ==> cleared_on(a, true, r, col, n)
}

/// Every group of values that `find_exclusives` acts on in `nbhd` is struck down in `g`: an
/// open cell of `nbhd` that can take every value of a group has no other value left.
pub open spec fn exclusives_done(g: SudokuGrid, nbhd: Seq<SudokuCell>) -> bool {
    forall|q: int, n: int| 0 <= q < exclusive_groups(nbhd).len() && 0 <= n < nbhd.len() && !nbhd[n].defined
        ==> #[trigger] strikes_done(g, exclusive_groups(nbhd)[q], nbhd[n])
}

/// Unit `j` of a pass of `analyse` over `g`: with `i = j / 3`, the box numbered `i`, row `i`,
/// then column `i`.
pub open spec fn pass_unit(g: SudokuGrid, j: int) -> Seq<SudokuCell> {
    let i = j / 3;
    if j % 3 == 0 {
        g.unit_cells(2, 3 * (i % 3), box_start(i as u32) as int)
    } else if j % 3 == 1 {
        g.unit_cells(0, 0, i)
    } else {
        g.unit_cells(1, i, 0)
    }
}

/// No row, column or box of `g` has a group of values left to strike down.
pub open spec fn no_exclusives_left(g: SudokuGrid) -> bool {
    forall|j: int| 0 <= j < 27 ==> exclusives_done(g, #[trigger] pass_unit(g, j))
}

/// No cell of `g` with two or three values has siblings in its row, column or box whose
/// values are still possible elsewhere in that unit.
pub open spec fn no_siblings_left(g: SudokuGrid) -> bool {
    forall|x: int, y: int, k: int| 0 <= x < 9 && 0 <= y < 9 && 0 <= k < 3
        ==> #[trigger] siblings_cleared(g, g.cell(x, y), k, g)
}

/// The record of the units searched so far in a pass from `ps`: grid `eg[j]` is the grid
/// when unit `j` was searched, and what that search struck down holds in `g`.
pub open spec fn exclusives_record(ps: SudokuGrid, eg: Seq<SudokuGrid>, g: SudokuGrid) -> bool {
    &&& eg.len() <= 27
    &&& pass_states(ps, eg, g)
    &&& forall|j: int| 0 <= j < eg.len() ==> exclusives_done(g, #[trigger] pass_unit(eg[j], j))
}

/// The pair and triple step of a pass, from `al` to `am`: either it ran, with the record `gs`
/// of its searches, or it was skipped because `al` did not match `ps`.
pub open spec fn siblings_step(al: SudokuGrid, ps: SudokuGrid, done: bool, gs: Seq<SudokuGrid>, am: SudokuGrid) -> bool {
    &&& done ==> gs.len() == 243 && narrows(al, am) && pass_states(al, gs, am) && siblings_pass_done(gs, 81, am)
    &&& !done ==> am == al && !grids_match(al, ps)
}

/// Grids with the same cells have the same units.
proof fn lemma_same_cells_unit(a: SudokuGrid, b: SudokuGrid, kind: int, cx: int, cy: int)
    requires
        same_grid_cells(a, b),
        0 <= kind < 3,
        0 <= cx < 9,
        0 <= cy < 9,
    ensures
        a.unit_cells(kind, cx, cy) == b.unit_cells(kind, cx, cy),
{
    crate::solution::lemma_unit_cells(a, kind, cx, cy);
    crate::solution::lemma_unit_cells(b, kind, cx, cy);
    assert(a.unit_cells(kind, cx, cy) =~= b.unit_cells(kind, cx, cy));
}

/// The units of a pass hold nine well-formed cells of a well-formed grid.
proof fn lemma_pass_unit_wf(g: SudokuGrid, j: int)
    requires
        g.wf(),
        0 <= j < 27,
    ensures
        pass_unit(g, j).len() == 9,
        forall|n: int| 0 <= n < 9 ==> (#[trigger] pass_unit(g, j)[n]).wf(),
{
    let i = j / 3;
    let (kind, cx, cy) = if j % 3 == 0 {
        (2int, 3 * (i % 3), box_start(i as u32) as int)
    } else if j % 3 == 1 {
        (0int, 0int, i)
    } else {
        (1int, i, 0int)
    };
    crate::solution::lemma_unit_cells(g, kind, cx, cy);
    assert(pass_unit(g, j) == g.unit_cells(kind, cx, cy));
}

/// What a search struck down stays struck down as the grid shrinks.
proof fn lemma_exclusives_stay(a: SudokuGrid, b: SudokuGrid, nbhd: Seq<SudokuCell>)
    requires
        exclusives_done(a, nbhd),
        shrinks(a, b),
        forall|n: int| 0 <= n < nbhd.len() ==> (#[trigger] nbhd[n]).wf(),
    ensures
        exclusives_done(b, nbhd),
{
    assert forall|q: int, n: int| 0 <= q < exclusive_groups(nbhd).len() && 0 <= n < nbhd.len() && !nbhd[n].defined
        implies #[trigger] strikes_done(b, exclusive_groups(nbhd)[q], nbhd[n]) by {
        assert(nbhd[n].wf());
        lemma_strikes_done_stays(a, b, exclusive_groups(nbhd)[q], nbhd[n]);
    }
}

/// The record of a pass still holds of a later grid.
proof fn lemma_exclusives_record_stays(ps: SudokuGrid, eg: Seq<SudokuGrid>, a: SudokuGrid, b: SudokuGrid)
    requires
        exclusives_record(ps, eg, a),
        narrows(a, b),
    ensures
        exclusives_record(ps, eg, b),
{
    assert forall|j: int| 0 <= j < eg.len() implies (#[trigger] eg[j]).wf() && narrows(ps, eg[j]) && narrows(eg[j], b) by {
        lemma_narrows_trans(eg[j], a, b);
    }
    assert forall|j: int| 0 <= j < eg.len() implies exclusives_done(b, #[trigger] pass_unit(eg[j], j)) by {
        assert(eg[j].wf());
        lemma_pass_unit_wf(eg[j], j);
        lemma_exclusives_stay(a, b, pass_unit(eg[j], j));
    }
}

/// Adds the search of unit `eg.len()`, made from `b` and ending at `now`, to the record.
proof fn lemma_exclusives_record_step(ps: SudokuGrid, eg: Seq<SudokuGrid>, b: SudokuGrid, now: SudokuGrid)
    requires
        eg.len() < 27,
        exclusives_record(ps, eg, b),
        b.wf(),
        narrows(ps, b),
        narrows(b, now),
        exclusives_done(now, pass_unit(b, eg.len() as int)),
    ensures
        exclusives_record(ps, eg.push(b), now),
{
    lemma_exclusives_record_stays(ps, eg, b, now);
    let eg2 = eg.push(b);
    assert forall|j: int| 0 <= j < eg2.len() implies (#[trigger] eg2[j]).wf() && narrows(ps, eg2[j]) && narrows(eg2[j], now) by {
        if j < eg.len() {
            assert(eg2[j] == eg[j]);
        }
    }
    assert forall|j: int| 0 <= j < eg2.len() implies exclusives_done(now, #[trigger] pass_unit(eg2[j], j)) by {
        if j < eg.len() {
            assert(eg2[j] == eg[j]);
        }
    }
}

/// When a pass of `analyse` from `ps` changed no cell (ending at `f`), every unit it
/// searched for groups of values is, in `f`, left with none to strike down.
proof fn lemma_stuck_exclusives(ps: SudokuGrid, eg: Seq<SudokuGrid>, f: SudokuGrid)
    requires
        ps.wf(),
        f.wf(),
        eg.len() == 27,
        exclusives_record(ps, eg, f),
        same_grid_cells(ps, f),
    ensures
        no_exclusives_left(f),
{
    assert forall|j: int| 0 <= j < 27 implies exclusives_done(f, #[trigger] pass_unit(f, j)) by {
        assert(eg[j].wf() && narrows(ps, eg[j]) && narrows(eg[j], f));
        lemma_between_same(ps, eg[j], f);
        let i = j / 3;
        assert(0 <= i < 9);
        assert(box_start(i as u32) < 9);
        lemma_same_cells_unit(eg[j], f, 2, 3 * (i % 3), box_start(i as u32) as int);
        lemma_same_cells_unit(eg[j], f, 0, 0, i);
        lemma_same_cells_unit(eg[j], f, 1, i, 0);
        assert(pass_unit(eg[j], j) == pass_unit(f, j));
        assert(exclusives_done(f, pass_unit(eg[j], j)));
    }
}

/// When a pass of `analyse` from `ps` changed no cell (ending at `f`), its pair and triple
/// step (from `al` to `am`) ran and left, in `f`, no siblings to act on.
proof fn lemma_stuck_siblings(ps: SudokuGrid, al: SudokuGrid, done: bool, gs: Seq<SudokuGrid>, am: SudokuGrid, f: SudokuGrid)
    requires
        ps.wf(),
        al.wf(),
        am.wf(),
        f.wf(),
        narrows(ps, al),
        shrinks(am, f),
        same_grid_cells(ps, f),
        siblings_step(al, ps, done, gs, am),
    ensures
        no_siblings_left(f),
{
    if !done {
        lemma_between_same(ps, al, f);
        lemma_between_same(ps, ps, f);
        lemma_same_cells_counts(al, ps);
        assert forall|x: int, y: int| 0 <= x < 9 && 0 <= y < 9 implies cells_match(#[trigger] al.cell(x, y), ps.cell(x, y)) by {
            assert(al.cell(x, y) == f.cell(x, y));
            assert(ps.cell(x, y) == f.cell(x, y));
        }
        assert forall|i: int| 0 <= i < 9 implies #[trigger] al.definite_values.counts@[i] == ps.definite_values.counts@[i] by {
            assert(al.definite_values.counts@[((i + 1) as u32) - 1] == ps.definite_values.counts@[((i + 1) as u32) - 1]);
        }
        assert(grids_match(al, ps));
        assert(false);
    }
    assert forall|x: int, y: int, k: int| 0 <= x < 9 && 0 <= y < 9 && 0 <= k < 3
        implies #[trigger] siblings_cleared(f, f.cell(x, y), k, f) by {
        let i = 9 * y + x;
        let g = gs[3 * i + k];
        let h = gs[3 * i];
        assert(0 <= 3 * i + k < 243);
        assert(g.wf() && narrows(al, g) && narrows(g, am));
        assert(h.wf() && narrows(al, h) && narrows(h, am));
        lemma_narrows_trans(ps, al, g);
        lemma_narrows_trans(ps, al, h);
        lemma_shrinks_trans(g, am, f);
        lemma_shrinks_trans(h, am, f);
        lemma_between_same(ps, g, f);
        lemma_between_same(ps, h, f);
        let c = h.cell(x, y);
        assert(c == f.cell(x, y));
        assert(c.wf());
        assert(siblings_cleared(g, c, k, am));
        lemma_siblings_cleared_stays(g, c, k, am, f);
        lemma_same_cells_unit(g, f, k, c.coordinate.x as int, c.coordinate.y as int);
    }
}

/// When a pass of `analyse` from `ps` changed no cell (ending at `f`), its x-wing step (from
/// `xc`, to `ax`) ran and left no x-wing over rows or columns in `f`.
proof fn lemma_stuck_wings(ps: SudokuGrid, xc: SudokuGrid, done: bool, ax: SudokuGrid, f: SudokuGrid)
    requires
        ps.wf(),
        xc.wf(),
        ax.wf(),
        f.wf(),
        narrows(ps, xc),
        shrinks(ax, f),
        same_grid_cells(ps, f),
        done ==> narrows(xc, ax) && wings_cleared(xc, ax),
        !done ==> ax == xc && !grids_match(xc, ps),
    ensures
        no_wings(f),
{
    if !done {
        lemma_between_same(ps, xc, f);
        lemma_between_same(ps, ps, f);
        lemma_same_cells_counts(xc, ps);
        assert forall|x: int, y: int| 0 <= x < 9 && 0 <= y < 9 implies cells_match(#[trigger] xc.cell(x, y), ps.cell(x, y)) by {
            assert(xc.cell(x, y) == f.cell(x, y));
            assert(ps.cell(x, y) == f.cell(x, y));
        }
        assert forall|i: int| 0 <= i < 9 implies #[trigger] xc.definite_values.counts@[i] == ps.definite_values.counts@[i] by {
            assert(xc.definite_values.counts@[((i + 1) as u32) - 1] == ps.definite_values.counts@[((i + 1) as u32) - 1]);
        }
        assert(grids_match(xc, ps));
        assert(false);
    }
    lemma_shrinks_trans(xc, ax, f);
    lemma_shrinks_trans(ps, xc, ax);
    lemma_between_same(ps, xc, f);
    lemma_between_same(ps, ax, f);
    lemma_same_cells_counts(xc, f);
    lemma_same_cells_targets(ax, f);
    assert forall|n: u32| 1 <= n <= 9 implies !#[trigger] wing_active(f, false, n) by {
        lemma_same_cells_wing(xc, f, false, n);
        if wing_active(f, false, n) {
            lemma_first_wing(xc, false, n);
            let n0 = choose|n0: u32| 1 <= n0 <= n && first_wing(xc, false, n0);
            let (c, r) = choose|c: int, r: int| wing_target(xc, false, n0, c, r);
            lemma_same_cells_wing(xc, f, false, n0);
            let q = choose|q: int| pair_target(xc, false, n0, q, c, r);
            assert(cleared_on(ax, false, c, r, n0));
            assert(cleared_on(f, false, c, r, n0));
            lemma_target_open(f, false, n0, c, r);
        }
    }
    assert forall|n: u32| 1 <= n <= 9 implies !#[trigger] wing_active(xc, false, n) by {
        lemma_same_cells_wing(xc, f, false, n);
    }
    assert forall|n: u32| 1 <= n <= 9 implies !#[trigger] wing_active(f, true, n) by {
        lemma_same_cells_wing(xc, f, true, n);
        if wing_active(f, true, n) {
            lemma_first_wing(xc, true, n);
            let n0 = choose|n0: u32| 1 <= n0 <= n && first_wing(xc, true, n0);
            let (c, r) = choose|c: int, r: int| wing_target(xc, true, n0, c, r);
            lemma_same_cells_wing(xc, f, true, n0);
            let q = choose|q: int| pair_target(xc, true, n0, q, c, r);
            assert(cleared_on(ax, true, c, r, n0));
            assert(cleared_on(f, true, c, r, n0));
            lemma_target_open(f, true, n0, c, r);
        }
    }
}

/// Whether two cells are the same in every field.
pub fn cell_identical(a: &SudokuCell, b: &SudokuCell) -> (r: bool)
    ensures
        r == (*a == *b),
{
    if a.defined != b.defined || a.value_as_int != b.value_as_int || a.coordinate.x != b.coordinate.x
        || a.coordinate.y != b.coordinate.y {
        return false;
    }
    let mut i: usize = 0;
    while i < 9
        invariant
            i <= 9,
            forall|j: int| 0 <= j < i ==> a.states@[j] == b.states@[j],
        decreases 9 - i,
    {
        if a.states[i].0 != b.states[i].0 || a.states[i].1 != b.states[i].1 {
            return false;
        }
        i += 1;
    }
    assert(a.states =~= b.states);
    true
}

impl SudokuGrid {
    /// Whether every cell of the grid is the same as in `other`.
    pub fn same_cells(&self, other: &SudokuGrid) -> (r: bool)
        ensures
            r == forall|x: int, y: int| 0 <= x < 9 && 0 <= y < 9 ==> #[trigger] self.cell(x, y) == other.cell(x, y),
    {
        let mut y: usize = 0;
        while y < 9
            invariant
                y <= 9,
                forall|i: int, j: int| 0 <= i < 9 && 0 <= j < y ==> #[trigger] self.cell(i, j) == other.cell(i, j),
            decreases 9 - y,
        {
            let mut x: usize = 0;
            while x < 9
                invariant
                    y < 9,
                    x <= 9,
                    forall|i: int, j: int| 0 <= i < 9 && 0 <= j < y ==> #[trigger] self.cell(i, j) == other.cell(i, j),
                    forall|i: int| 0 <= i < x ==> #[trigger] self.cell(i, y as int) == other.cell(i, y as int),
                decreases 9 - x,
            {
                if !cell_identical(&self.grid[y][x], &other.grid[y][x]) {
                    assert(self.cell(x as int, y as int) != other.cell(x as int, y as int));
                    return false;
                }
                x += 1;
            }
            y += 1;
        }
        true
    }

    /// Tries to solve the grid: passes of every technique until the counters say every cell
    /// is placed. Succeeds only with a grid marked solved or counters adding up to a full grid
    /// (every cell placed, when the counters agree with the cells), after at least one pass
    /// over the open cells when the grid was not marked solved (so that, when the cells carry
    /// their positions, no open cell keeps a value its peers hold); stops with `Stuck` when a
    /// whole pass leaves the grid as it was (further passes would repeat it): then no open
    /// cell has a single value left, no pair or triple of siblings and no group of values
    /// confined to as many cells has anything left to strike, and no x-wing is left; when the
    /// cells carry their positions, no hidden single is left and the box and line
    /// eliminations have nothing to strike.
    #[verifier::rlimit(80)]
    #[verifier::spinoff_prover]
    pub fn analyse(&mut self) -> (r: Result<(), SolveError>)
        requires
            old(self).wf(),
        ensures
            final(self).wf(),
            shrinks(*old(self), *final(self)),
            r is Ok ==> narrows(*old(self), *final(self)),
            r is Ok ==> old(self).solved || final(self).counter_total() == 81,
            old(self).counted() ==> final(self).counted(),
            r is Ok && old(self).counted() ==> old(self).solved || final(self).all_placed(),
            r is Ok && !old(self).solved && old(self).at_home() ==> settled(*final(self)),
            (r matches Err(e) && e == SolveError::CellEmptied) ==> emptiable(*final(self)),
            r == Err::<(), SolveError>(SolveError::Stuck) ==> !old(self).solved && final(self).counter_total() != 81,
            r == Err::<(), SolveError>(SolveError::Stuck) && old(self).counted() ==> !final(self).all_placed(),
            r == Err::<(), SolveError>(SolveError::Stuck) ==> forall|x: int, y: int| 0 <= x < 9 && 0 <= y < 9
                ==> #[trigger] no_single_at(*final(self), x, y),
            r == Err::<(), SolveError>(SolveError::Stuck) && old(self).at_home() ==> no_hidden_single(*final(self)),
            r == Err::<(), SolveError>(SolveError::Stuck) && old(self).at_home() ==> {
                &&& forall|b: int, n: u32, c: int, r: int| #[trigger] box_target(*final(self), b, n, c, r) ==> cleared(*final(self), c, r, n)
                &&& forall|y: int, n: u32, c: int, r: int| #[trigger] row_line_target(*final(self), y, n, c, r) ==> cleared(*final(self), c, r, n)
                &&& forall|x: int, n: u32, c: int, r: int| #[trigger] col_line_target(*final(self), x, n, c, r) ==> cleared(*final(self), c, r, n)
            },
            r == Err::<(), SolveError>(SolveError::Stuck) ==> no_wings(*final(self)),
            r == Err::<(), SolveError>(SolveError::Stuck) ==> no_siblings_left(*final(self)),
            r == Err::<(), SolveError>(SolveError::Stuck) ==> no_exclusives_left(*final(self)),
            old(self).at_home() ==> forall|sol: Seq<Seq<u32>>| is_solution(sol) && #[trigger] agrees(*old(self), sol)
                ==> (r is Ok || r == Err::<(), SolveError>(SolveError::Stuck)) && agrees(*final(self), sol)
                    && (final(self).all_placed() ==> forall|x: int, y: int| 0 <= x < 9 && 0 <= y < 9
                        ==> #[trigger] final(self).cell(x, y).value_as_int == sol[y][x]),
    {
        proof { lemma_narrows_refl(*self); }
        loop
            invariant
                self.wf(),
                narrows(*old(self), *self),
                old(self).at_home() ==> keeps_all(*old(self), *self),
            decreases potential(*self),
        {
            let prev = *self;
            let ghost pass_start = *self;
            match self.check_each() {
                Ok(true) => {
                    proof {
                        lemma_keep_solutions(*old(self), pass_start, *self);
                        lemma_placed_values(*old(self), *self);
                        lemma_narrows_trans(*old(self), pass_start, *self);
                        if old(self).counted() {
                            crate::grid::lemma_counted_shrinks(*old(self), pass_start);
                        }
                    }
                    return Ok(());
                },
                Ok(false) => {},
                Err(e) => {
                    proof {
                        lemma_shrinks_trans(*old(self), pass_start, *self);
                        lemma_keep_solutions_err(*old(self), pass_start);
                        if old(self).counted() {
                            crate::grid::lemma_counted_shrinks(*old(self), *self);
                        }
                    }
                    return Err(e);
                },
            }
            proof {
                lemma_keep_solutions(*old(self), pass_start, *self);
                lemma_narrows_trans(*old(self), pass_start, *self);
            }

            let mut number: u32 = 1;
            while number < GRID_SIZE_I + 1
                invariant
                    self.wf(),
                    narrows(*old(self), *self),
                    narrows(pass_start, *self),
                    1 <= number <= 10,
                    old(self).at_home() ==> keeps_all(*old(self), *self) && settled(*self),
                    pass_start.wf(),
                    old(self).at_home() && same_grid_cells(pass_start, *self) ==> forall|n: u32, x: int, y: int|
                        1 <= n < number && self.definite_values.counts@[n - 1] != 9 && 0 <= x < 9 && 0 <= y < 9
                        ==> !#[trigger] hidden_single(*self, *self, n, x, y),
                decreases 10 - number,
            {
                if self.get_val_by_int(number) == GRID_SIZE_I {
                    number += 1;
                    continue;
                }
                let ghost before = *self;
                match self.solve_for_number(number) {
                    Ok(_) => {},
                    Err(e) => {
                        proof {
                            lemma_shrinks_trans(*old(self), before, *self);
                            lemma_keep_solutions_err(*old(self), before);
                        }
                        return Err(e);
                    },
                }
                proof {
                    lemma_keep_solutions(*old(self), before, *self);
                    lemma_narrows_trans(*old(self), before, *self);
                    lemma_narrows_trans(pass_start, before, *self);
                    if old(self).at_home() && same_grid_cells(pass_start, *self) {
                        lemma_narrows_between(pass_start, before, *self);
                        assert(same_grid_cells(before, *self)) by {
                            assert forall|qx: int, qy: int| 0 <= qx < 9 && 0 <= qy < 9
                                implies #[trigger] before.cell(qx, qy) == self.cell(qx, qy) by {
                                assert(pass_start.cell(qx, qy) == before.cell(qx, qy));
                                assert(pass_start.cell(qx, qy) == self.cell(qx, qy));
                            }
                        }
                        lemma_same_cells_counts(before, *self);
                        assert(before.at_home());
                        let (ss, ts) = choose|ss: Seq<SudokuGrid>, ts: Seq<SudokuGrid>| ss.len() == 81 && ts.len() == 81
                            && chained(before, ss, ts, *self)
                            && (before.definite_values.counts@[number - 1] != 9 ==> forall|x: int, y: int| 0 <= x < 9 && 0 <= y < 9
                                && #[trigger] hidden_single(ss[9 * y + x], ts[9 * y + x], number, x, y) ==> self.cell(x, y).defined);
                        assert forall|n: u32, x: int, y: int| 1 <= n < number + 1 && self.definite_values.counts@[n - 1] != 9
                            && 0 <= x < 9 && 0 <= y < 9 implies !#[trigger] hidden_single(*self, *self, n, x, y) by {
                            if n < number {
                                lemma_same_cells_hidden(before, before, *self, *self, n, x, y);
                                assert(!hidden_single(before, before, n, x, y));
                            } else {
                                lemma_no_hidden_left(before, *self, ss, ts, number, x, y);
                            }
                        }
                    }
                }
                number += 1;
            }
            let ghost after_numbers = *self;
            proof { lemma_narrows_refl(after_numbers); }

            let ghost before = *self;
            match self.box_elimination() {
                Ok(()) => {},
                Err(e) => {
                    proof {
                        lemma_shrinks_trans(*old(self), before, *self);
                        lemma_keep_solutions_err(*old(self), before);
                    }
                    return Err(e);
                },
            }
            let ghost after_box = *self;
            proof {
                lemma_keep_solutions(*old(self), before, *self);
                lemma_narrows_trans(*old(self), before, *self);
                lemma_narrows_trans(pass_start, before, *self);
                lemma_shrinks_trans(after_numbers, before, *self);
            }

            let ghost before = *self;
            match self.line_elimination() {
                Ok(()) => {},
                Err(e) => {
                    proof {
                        lemma_shrinks_trans(*old(self), before, *self);
                        lemma_keep_solutions_err(*old(self), before);
                    }
                    return Err(e);
                },
            }
            let ghost after_line = *self;
            proof {
                lemma_keep_solutions(*old(self), before, *self);
                lemma_narrows_trans(*old(self), before, *self);
                lemma_narrows_trans(pass_start, before, *self);
                lemma_shrinks_trans(after_numbers, before, *self);
                lemma_narrows_refl(after_line);
            }

            let ghost mut mp_done = false;
            let ghost mut mp_gs: Seq<SudokuGrid> = Seq::empty();
            if *self == prev {
                let ghost before = *self;
                match self.match_possibles() {
                    Ok(()) => {},
                    Err(e) => {
                        proof {
                            lemma_shrinks_trans(*old(self), before, *self);
                            lemma_keep_solutions_err(*old(self), before);
                        }
                        return Err(e);
                    },
                }
                proof {
                    lemma_keep_solutions(*old(self), before, *self);
                    lemma_narrows_trans(*old(self), before, *self);
                    lemma_narrows_trans(pass_start, before, *self);
                    lemma_shrinks_trans(after_numbers, before, *self);
                    lemma_shrinks_trans(after_line, before, *self);
                    mp_done = true;
                    mp_gs = choose|gs: Seq<SudokuGrid>| gs.len() == 243 && pass_states(before, gs, *self)
                        && siblings_pass_done(gs, 81, *self);
                }
            } else {
                proof {
                    assert(!grids_match(after_line, prev));
                }
            }
            let ghost after_mp = *self;
            proof {
                lemma_narrows_refl(after_mp);
                assert(siblings_step(after_line, prev, mp_done, mp_gs, after_mp));
            }

            let ghost xw_check = *self;
            let ghost mut xw_done = false;
            if *self == prev {
                let ghost before = *self;
                match self.x_wing() {
                    Ok(()) => {},
                    Err(e) => {
                        proof {
                            lemma_shrinks_trans(*old(self), before, *self);
                            lemma_keep_solutions_err(*old(self), before);
                        }
                        return Err(e);
                    },
                }
                proof {
                    lemma_keep_solutions(*old(self), before, *self);
                    lemma_narrows_trans(*old(self), before, *self);
                    lemma_narrows_trans(pass_start, before, *self);
                    lemma_shrinks_trans(after_numbers, before, *self);
                    lemma_shrinks_trans(after_line, before, *self);
                    lemma_shrinks_trans(after_mp, before, *self);
                    assert(wings_cleared(xw_check, *self));
                    xw_done = true;
                }
            } else {
                proof {
                    assert(!grids_match(xw_check, prev));
                }
            }
            let ghost after_xw = *self;
            proof {
                lemma_narrows_refl(after_xw);
                assert(xw_done ==> narrows(xw_check, after_xw) && wings_cleared(xw_check, after_xw));
                assert(!xw_done ==> after_xw == xw_check && !grids_match(xw_check, prev));
            }

            let ghost mut eg: Seq<SudokuGrid> = Seq::empty();
            let mut i: usize = 0;
            while i < GRID_SIZE
                invariant
                    self.wf(),
                    narrows(*old(self), *self),
                    narrows(pass_start, *self),
                    shrinks(after_numbers, *self),
                    shrinks(after_line, *self),
                    shrinks(after_xw, *self),
                    shrinks(after_mp, *self),
                    siblings_step(after_line, prev, mp_done, mp_gs, after_mp),
                    after_line.wf(),
                    after_mp.wf(),
                    narrows(pass_start, after_line),
                    eg.len() == 3 * i,
                    exclusives_record(pass_start, eg, *self),
                    xw_check.wf(),
                    xw_done ==> narrows(xw_check, after_xw) && wings_cleared(xw_check, after_xw),
                    !xw_done ==> after_xw == xw_check && !grids_match(xw_check, prev),
                    narrows(pass_start, xw_check),
                    i <= 9,
                    old(self).at_home() ==> keeps_all(*old(self), *self) && settled(*self),
                decreases 9 - i,
            {
                let n_box_grid = SudokuBox::new(SudokuBox::x_finder(i as u32), SudokuBox::y_finder(i as u32), *self);
                let n_box = n_box_grid.as_vec();
                proof {
                    assert forall|t: int| 0 <= t < n_box@.len() implies (#[trigger] n_box@[t]).coordinate.x < 9 && n_box@[t].coordinate.y < 9 by {
                        assert(n_box@[t] == n_box_grid.at(t));
                        assert(n_box_grid.content@[t / 3]@[t % 3].wf());
                    }
                    let bx = n_box_grid.x as int;
                    let by = n_box_grid.y as int;
                    assert(n_box@ =~= self.unit_cells(2, bx, by)) by {
                        assert forall|t: int| 0 <= t < 9 implies #[trigger] n_box@[t] == self.unit_cells(2, bx, by)[t] by {
                            assert(n_box@[t] == n_box_grid.at(t));
                            lemma_box_position(bx, by, t);
                        }
                    }
                    lemma_same_cells_as_refl(n_box@);
                    assert(is_unit(*self, n_box@));
                }
                let ghost b1 = *self;
                match self.find_exclusives(n_box) {
                    Ok(()) => {},
                    Err(e) => {
                        proof {
                            lemma_shrinks_trans(*old(self), b1, *self);
                            lemma_keep_solutions_err(*old(self), b1);
                        }
                        return Err(e);
                    },
                }
                proof {
                    lemma_keep_solutions(*old(self), b1, *self);
                    lemma_narrows_trans(*old(self), b1, *self);
                    lemma_narrows_trans(pass_start, b1, *self);
                    lemma_shrinks_trans(after_numbers, b1, *self);
                    lemma_shrinks_trans(after_line, b1, *self);
                    lemma_shrinks_trans(after_xw, b1, *self);
                    lemma_shrinks_trans(after_mp, b1, *self);
                    assert(n_box@ == pass_unit(b1, (3 * i) as int));
                    lemma_exclusives_record_step(pass_start, eg, b1, *self);
                    eg = eg.push(b1);
                }

                let row = self.row_vec(i as u32);
                proof {
                    assert forall|t: int| 0 <= t < row@.len() implies (#[trigger] row@[t]).coordinate.x < 9 && row@[t].coordinate.y < 9 by {
                        assert(self.cell(t, i as int).wf());
                    }
                    assert(row@ == self.unit_cells(0, 0, i as int));
                    lemma_same_cells_as_refl(row@);
                    assert(is_unit(*self, row@));
                }
                let ghost b2 = *self;
                match self.find_exclusives(row) {
                    Ok(()) => {},
                    Err(e) => {
                        proof {
                            lemma_shrinks_trans(*old(self), b2, *self);
                            lemma_keep_solutions_err(*old(self), b2);
                        }
                        return Err(e);
                    },
                }
                proof {
                    lemma_keep_solutions(*old(self), b2, *self);
                    lemma_narrows_trans(*old(self), b2, *self);
                    lemma_narrows_trans(pass_start, b2, *self);
                    lemma_shrinks_trans(after_numbers, b2, *self);
                    lemma_shrinks_trans(after_line, b2, *self);
                    lemma_shrinks_trans(after_xw, b2, *self);
                    lemma_shrinks_trans(after_mp, b2, *self);
                    assert(row@ == pass_unit(b2, (3 * i + 1) as int));
                    lemma_exclusives_record_step(pass_start, eg, b2, *self);
                    eg = eg.push(b2);
                }

                let col = self.col_vec(i as u32);
                proof {
                    assert forall|t: int| 0 <= t < col@.len() implies (#[trigger] col@[t]).coordinate.x < 9 && col@[t].coordinate.y < 9 by {
                        assert(self.cell(i as int, t).wf());
                    }
                    assert(col@ == self.unit_cells(1, i as int, 0));
                    lemma_same_cells_as_refl(col@);
                    assert(is_unit(*self, col@));
                }
                let ghost b3 = *self;
                match self.find_exclusives(col) {
                    Ok(()) => {},
                    Err(e) => {
                        proof {
                            lemma_shrinks_trans(*old(self), b3, *self);
                            lemma_keep_solutions_err(*old(self), b3);
                        }
                        return Err(e);
                    },
                }
                proof {
                    lemma_keep_solutions(*old(self), b3, *self);
                    lemma_narrows_trans(*old(self), b3, *self);
                    lemma_narrows_trans(pass_start, b3, *self);
                    lemma_shrinks_trans(after_numbers, b3, *self);
                    lemma_shrinks_trans(after_line, b3, *self);
                    lemma_shrinks_trans(after_xw, b3, *self);
                    lemma_shrinks_trans(after_mp, b3, *self);
                    assert(col@ == pass_unit(b3, (3 * i + 2) as int));
                    lemma_exclusives_record_step(pass_start, eg, b3, *self);
                    eg = eg.push(b3);
                }
                i += 1;
            }

            let ghost before = *self;
            match self.check_each() {
                Ok(true) => {
                    proof {
                        lemma_keep_solutions(*old(self), before, *self);
                        lemma_narrows_trans(*old(self), before, *self);
                        lemma_placed_values(*old(self), *self);
                        if old(self).counted() {
                            crate::grid::lemma_counted_shrinks(*old(self), before);
                        }
                    }
                    return Ok(());
                },
                Ok(false) => {},
                Err(e) => {
                    proof {
                        lemma_shrinks_trans(*old(self), before, *self);
                        lemma_keep_solutions_err(*old(self), before);
                        if old(self).counted() {
                            crate::grid::lemma_counted_shrinks(*old(self), *self);
                        }
                    }
                    return Err(e);
                },
            }
            proof {
                lemma_keep_solutions(*old(self), before, *self);
                lemma_narrows_trans(*old(self), before, *self);
                lemma_narrows_trans(pass_start, before, *self);
                lemma_shrinks_trans(after_numbers, before, *self);
                lemma_shrinks_trans(after_line, before, *self);
                lemma_shrinks_trans(after_xw, before, *self);
                lemma_shrinks_trans(after_mp, before, *self);
                lemma_exclusives_record_stays(pass_start, eg, before, *self);
            }

            if self.same_cells(&prev) {
                proof {
                    lemma_placed_values(*old(self), *self);
                    assert(same_grid_cells(pass_start, *self));
                    lemma_narrows_between(pass_start, before, *self);
                    assert(same_grid_cells(before, *self)) by {
                        assert forall|qx: int, qy: int| 0 <= qx < 9 && 0 <= qy < 9
                            implies #[trigger] before.cell(qx, qy) == self.cell(qx, qy) by {
                            assert(pass_start.cell(qx, qy) == before.cell(qx, qy));
                            assert(pass_start.cell(qx, qy) == self.cell(qx, qy));
                        }
                    }
                    assert(prev == pass_start);
                    lemma_stuck_wings(pass_start, xw_check, xw_done, after_xw, *self);
                    assert(no_wings(*self));
                    lemma_stuck_siblings(pass_start, after_line, mp_done, mp_gs, after_mp, *self);
                    lemma_stuck_exclusives(pass_start, eg, *self);
                    if old(self).at_home() {
                        lemma_narrows_between(pass_start, after_numbers, *self);
                        assert(same_grid_cells(after_numbers, *self)) by {
                            assert forall|qx: int, qy: int| 0 <= qx < 9 && 0 <= qy < 9
                                implies #[trigger] after_numbers.cell(qx, qy) == self.cell(qx, qy) by {
                                assert(pass_start.cell(qx, qy) == after_numbers.cell(qx, qy));
                                assert(pass_start.cell(qx, qy) == self.cell(qx, qy));
                            }
                        }
                        lemma_same_cells_counts(after_numbers, *self);
                        lemma_stuck_targets(pass_start, after_numbers, after_box, after_line, *self);
                        assert forall|n: u32, x: int, y: int| 1 <= n <= 9 && self.definite_values.counts@[n - 1] != 9
                            && 0 <= x < 9 && 0 <= y < 9 implies !#[trigger] hidden_single(*self, *self, n, x, y) by {
                            lemma_same_cells_hidden(after_numbers, after_numbers, *self, *self, n, x, y);
                        }
                    }
                }
                proof {
                    if old(self).counted() {
                        crate::grid::lemma_counted_shrinks(*old(self), before);
                        crate::grid::lemma_counted_shrinks(*old(self), *self);
                    }
                }
                return Err(SolveError::Stuck);
            }
            proof { lemma_potential_drops(pass_start, *self); }
        }
    }
}

/// A grid that keeps the solutions compatible with `a` holds, in each placed cell, their value.
pub proof fn lemma_placed_values(a: SudokuGrid, b: SudokuGrid)
    requires
        a.at_home() ==> keeps_all(a, b),
    ensures
        a.at_home() ==> forall|sol: Seq<Seq<u32>>| is_solution(sol) && #[trigger] agrees(a, sol)
            ==> agrees(b, sol) && (b.all_placed() ==> forall|x: int, y: int| 0 <= x < 9 && 0 <= y < 9
                ==> #[trigger] b.cell(x, y).value_as_int == sol[y][x]),
{
    if a.at_home() {
        assert forall|sol: Seq<Seq<u32>>| is_solution(sol) && #[trigger] agrees(a, sol)
            implies agrees(b, sol) && (b.all_placed() ==> forall|x: int, y: int| 0 <= x < 9 && 0 <= y < 9
                ==> #[trigger] b.cell(x, y).value_as_int == sol[y][x]) by {
            assert(agrees(b, sol));
            if b.all_placed() {
                assert forall|x: int, y: int| 0 <= x < 9 && 0 <= y < 9 implies #[trigger] b.cell(x, y).value_as_int == sol[y][x] by {
                    assert(b.cell(x, y).defined);
                    assert(cell_agrees(b.cell(x, y), sol[y][x]));
                }
            }
        }
    }
}

} // verus!
