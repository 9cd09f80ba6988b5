use vstd::prelude::*;
use crate::cell::{SudokuCell, ValueStatus, cells_with_value, values_of, values_with, lemma_values_with, lemma_cells_with_value_from, lemma_cells_with_value_has};
use crate::grid::{emptiable, SudokuGrid, SolveError, GRID_SIZE_I, narrows, cell_narrows, lemma_narrows_trans, lemma_narrows_refl, shrinks, lemma_shrinks_trans};
use crate::sbox::{SudokuBox, box_start};
use crate::util::{contains_u32, remove_value, push_absent};
use crate::solution::{is_solution, agrees, cell_agrees, peers, conflict, settled, in_unit, box_of};
use crate::placement::{lemma_box_position, lemma_single_left};

verus! {

/// Removing `v` from a duplicate-free list removes it where it stands.
pub proof fn lemma_removed_at(l: Seq<u32>, l2: Seq<u32>, v: u32, j: int)
    requires
        l.no_duplicates(),
        0 <= j < l.len(),
        l[j] == v,
        exists|k: int| 0 <= k < l.len() && l[k] == v && l2 == l.remove(k),
    ensures
        l2 == l.remove(j),
{
    let k = choose|k: int| 0 <= k < l.len() && l[k] == v && l2 == l.remove(k);
    assert(k == j);
}

/// The values `1..=n` for which `f` holds, in increasing order.
pub open spec fn pick(f: spec_fn(u32) -> bool, n: nat) -> Seq<u32>
    decreases n,
{
    if n == 0 {
        Seq::empty()
    } else {
        let prev = pick(f, (n - 1) as nat);
        if f(n as u32) {
            prev.push(n as u32)
        } else {
            prev
        }
    }
}

/// The values picked are those from 1 to `n` for which `f` holds, each once, all below `n + 1`.
pub proof fn lemma_pick(f: spec_fn(u32) -> bool, n: nat)
    requires
        n <= 9,
    ensures
        forall|k: int| 0 <= k < pick(f, n).len() ==> 1 <= #[trigger] pick(f, n)[k] <= n,
        forall|v: u32| pick(f, n).contains(v) <==> (1 <= v <= n && f(v)),
        pick(f, n).no_duplicates(),
    decreases n,
{
    if n > 0 {
        lemma_pick(f, (n - 1) as nat);
        let prev = pick(f, (n - 1) as nat);
        let cur = pick(f, n);
        if f(n as u32) {
            assert(cur == prev.push(n as u32));
        } else {
            assert(cur == prev);
        }
        assert forall|v: u32| cur.contains(v) implies (1 <= v <= n && f(v)) by {
            let k = choose|k: int| 0 <= k < cur.len() && cur[k] == v;
            if k < prev.len() {
                assert(prev[k] == v);
                assert(prev.contains(v));
            } else {
                assert(f(n as u32) && cur[k] == n as u32);
                assert(v == n as u32);
            }
        }
        assert forall|v: u32| (1 <= v <= n && f(v)) implies cur.contains(v) by {
            if v < n {
                assert(prev.contains(v));
                let k = choose|k: int| 0 <= k < prev.len() && prev[k] == v;
                assert(cur[k] == v);
            } else {
                assert(v == n as u32);
                assert(cur[cur.len() - 1] == v);
            }
        }
        assert forall|a: int, b: int| 0 <= a < cur.len() && 0 <= b < cur.len() && a != b implies cur[a] != cur[b] by {
            if a < prev.len() && b < prev.len() {
                assert(cur[a] == prev[a] && cur[b] == prev[b]);
            } else if a < prev.len() {
                assert(cur[a] == prev[a]);
            } else {
                assert(cur[b] == prev[b]);
            }
        }
    }
}

/// `values_with` is a pick over the states.
pub proof fn lemma_values_with_pick(st: Seq<(ValueStatus, u32)>, n: nat)
    requires
        n <= 9,
    ensures
        values_with(st, ValueStatus::Possible, n) == pick(|v: u32| st[v - 1].0 == ValueStatus::Possible, n),
    decreases n,
{
    if n > 0 {
        lemma_values_with_pick(st, (n - 1) as nat);
    }
}

/// A value already placed in the column, row or box of an open cell is not the solution's
/// value at that cell.
pub proof fn lemma_seen_excludes(g: SudokuGrid, sol: Seq<Seq<u32>>, x: int, y: int, v: u32)
    requires
        g.wf(),
        is_solution(sol),
        agrees(g, sol),
        0 <= x < 9,
        0 <= y < 9,
        !g.cell(x, y).defined,
        g.seen(x, y, v),
    ensures
        sol[y][x] != v,
{
    if g.col_values(x).contains(v) {
        let s = g.col_cells(x);
        lemma_cells_with_value_from(s, v);
        let i = choose|i: int| 0 <= i < s.len() && (#[trigger] s[i]).value_as_int == v;
        assert(g.cell(x, i).wf());
        assert(cell_agrees(g.cell(x, i), sol[i][x]));
        assert(peers(x, i, x, y));
        assert(sol[i][x] != sol[y][x]);
    } else if g.row_values(y).contains(v) {
        let s = g.row_cells(y);
        lemma_cells_with_value_from(s, v);
        let i = choose|i: int| 0 <= i < s.len() && (#[trigger] s[i]).value_as_int == v;
        assert(g.cell(i, y).wf());
        assert(cell_agrees(g.cell(i, y), sol[y][i]));
        assert(peers(i, y, x, y));
        assert(sol[y][i] != sol[y][x]);
    } else {
        let bx = box_start(x as u32) as int;
        let by = box_start(y as u32) as int;
        let s = g.box_cells(bx, by);
        lemma_cells_with_value_from(s, v);
        let i = choose|i: int| 0 <= i < s.len() && (#[trigger] s[i]).value_as_int == v;
        lemma_box_position(x, y, i);
        let qx = bx + i % 3;
        let qy = by + i / 3;
        assert(s[i] == g.cell(qx, qy));
        assert(g.cell(qx, qy).wf());
        assert(cell_agrees(g.cell(qx, qy), sol[qy][qx]));
        assert(peers(qx, qy, x, y));
        assert(sol[qy][qx] != sol[y][x]);
    }
}

/// A value placed in a peer of the cell at (`x`, `y`) is among the values seen from it.
pub proof fn lemma_peer_seen(g: SudokuGrid, px: int, py: int, x: int, y: int)
    requires
        g.wf(),
        0 <= px < 9,
        0 <= py < 9,
        0 <= x < 9,
        0 <= y < 9,
        peers(px, py, x, y),
        g.cell(px, py).defined,
    ensures
        g.seen(x, y, g.cell(px, py).value_as_int),
{
    assert(g.cell(px, py).wf());
    if py == y {
        assert(g.row_cells(y)[px] == g.cell(px, py));
        lemma_cells_with_value_has(g.row_cells(y), px);
    } else if px == x {
        assert(g.col_cells(x)[py] == g.cell(px, py));
        lemma_cells_with_value_has(g.col_cells(x), py);
    } else {
        lemma_box_position(x, y, 0);
        assert(in_unit(2, x, y, px, py));
        let j = 3 * (py - box_of(y)) + (px - box_of(x));
        let s = g.box_cells(box_start(x as u32) as int, box_start(y as u32) as int);
        assert(s[j] == g.cell(px, py));
        lemma_cells_with_value_has(s, j);
    }
}

/// At least two values of `vals` are still possible in the cell `c`.
pub open spec fn two_kept(c: SudokuCell, vals: Seq<u32>) -> bool {
    exists|v: u32, w: u32| #![trigger vals.contains(v), vals.contains(w)] v != w && 1 <= v <= 9 && 1 <= w <= 9 && vals.contains(v) && vals.contains(w)
        && c.states@[v - 1].0 == ValueStatus::Possible && c.states@[w - 1].0 == ValueStatus::Possible
}

/// Every value still possible in the cell `c` is among `vals`.
pub open spec fn possible_within(c: SudokuCell, vals: Seq<u32>) -> bool {
    forall|v: u32| 1 <= v <= 9 && #[trigger] c.states@[v - 1].0 == ValueStatus::Possible ==> vals.contains(v)
}

/// Every cell of `a` is the same as in `b`.
pub open spec fn same_grid_cells(a: SudokuGrid, b: SudokuGrid) -> bool {
    forall|x: int, y: int| 0 <= x < 9 && 0 <= y < 9 ==> #[trigger] a.cell(x, y) == b.cell(x, y)
}

/// The cell at (`x`, `y`) is placed, or no single value is left for it.
pub open spec fn no_single_at(g: SudokuGrid, x: int, y: int) -> bool {
    g.cell(x, y).defined || forall|v: u32| !#[trigger] g.only_candidate(x, y, v)
}

/// Every cell of `a` holds the same value as in `b` (0 for an open cell).
pub open spec fn same_values(a: SudokuGrid, b: SudokuGrid) -> bool {
    forall|x: int, y: int| 0 <= x < 9 && 0 <= y < 9 ==> #[trigger] a.cell(x, y).value_as_int == b.cell(x, y).value_as_int
}

/// Cells holding the same values, one for one, hold the same placed values in order.
pub proof fn lemma_same_values_placed(a: Seq<SudokuCell>, b: Seq<SudokuCell>)
    requires
        a.len() == b.len(),
        forall|i: int| 0 <= i < a.len() ==> #[trigger] a[i].value_as_int == b[i].value_as_int,
    ensures
        values_of(cells_with_value(a)) == values_of(cells_with_value(b)),
    decreases a.len(),
{
    if a.len() > 0 {
        lemma_same_values_placed(a.drop_last(), b.drop_last());
        assert(a.last().value_as_int == b.last().value_as_int);
        let pa = cells_with_value(a.drop_last());
        let pb = cells_with_value(b.drop_last());
        if a.last().value_as_int != 0 {
            assert(values_of(pa.push(a.last())) =~= values_of(pa).push(a.last().value_as_int));
            assert(values_of(pb.push(b.last())) =~= values_of(pb).push(b.last().value_as_int));
        }
    }
}

/// Grids whose cells hold the same values see the same placed values around each cell.
pub proof fn lemma_same_values_seen(a: SudokuGrid, b: SudokuGrid, x: int, y: int)
    requires
        same_values(a, b),
        a.wf(),
        b.wf(),
        0 <= x < 9,
        0 <= y < 9,
    ensures
        forall|v: u32| #[trigger] a.seen(x, y, v) == b.seen(x, y, v),
        no_single_at(a, x, y) == no_single_at(b, x, y),
{
    assert forall|k: int| 0 <= k < 9 implies #[trigger] a.col_cells(x)[k].value_as_int == b.col_cells(x)[k].value_as_int by {
        assert(a.cell(x, k).value_as_int == b.cell(x, k).value_as_int);
    }
    lemma_same_values_placed(a.col_cells(x), b.col_cells(x));
    assert forall|k: int| 0 <= k < 9 implies #[trigger] a.row_cells(y)[k].value_as_int == b.row_cells(y)[k].value_as_int by {
        assert(a.cell(k, y).value_as_int == b.cell(k, y).value_as_int);
    }
    lemma_same_values_placed(a.row_cells(y), b.row_cells(y));
    let bx = box_start(x as u32) as int;
    let by = box_start(y as u32) as int;
    assert forall|k: int| 0 <= k < 9 implies #[trigger] a.box_cells(bx, by)[k].value_as_int == b.box_cells(bx, by)[k].value_as_int by {
        assert(0 <= k % 3 < 3 && 0 <= k / 3 < 3) by (nonlinear_arith) requires 0 <= k < 9;
        assert(a.cell(bx + k % 3, by + k / 3).value_as_int == b.cell(bx + k % 3, by + k / 3).value_as_int);
    }
    lemma_same_values_placed(a.box_cells(bx, by), b.box_cells(bx, by));
    assert(a.cell(x, y).value_as_int == b.cell(x, y).value_as_int);
    assert(a.cell(x, y).wf() && b.cell(x, y).wf());
    assert forall|v: u32| #[trigger] a.seen(x, y, v) == b.seen(x, y, v) by {}
    assert forall|v: u32| #[trigger] a.only_candidate(x, y, v) == b.only_candidate(x, y, v) by {
        if a.only_candidate(x, y, v) {
            assert forall|w: u32| 1 <= w <= 9 && !b.seen(x, y, w) implies w == v by {
                assert(a.seen(x, y, w) == b.seen(x, y, w));
            }
            assert(!b.seen(x, y, v) == !a.seen(x, y, v));
        }
        if b.only_candidate(x, y, v) {
            assert forall|w: u32| 1 <= w <= 9 && !a.seen(x, y, w) implies w == v by {
                assert(a.seen(x, y, w) == b.seen(x, y, w));
            }
            assert(!b.seen(x, y, v) == !a.seen(x, y, v));
        }
    }
    if no_single_at(a, x, y) && !a.cell(x, y).defined {
        assert forall|v: u32| !#[trigger] b.only_candidate(x, y, v) by {
            assert(a.only_candidate(x, y, v) == b.only_candidate(x, y, v));
        }
    }
    if no_single_at(b, x, y) && !b.cell(x, y).defined {
        assert forall|v: u32| !#[trigger] a.only_candidate(x, y, v) by {
            assert(a.only_candidate(x, y, v) == b.only_candidate(x, y, v));
        }
    }
}

/// A grid met between two grids with the same values, each step shrinking, has those values too.
pub proof fn lemma_values_between(a: SudokuGrid, b: SudokuGrid, c: SudokuGrid)
    requires
        a.wf(),
        b.wf(),
        c.wf(),
        shrinks(a, b),
        shrinks(b, c),
        same_values(a, c),
    ensures
        same_values(a, b),
        same_values(b, c),
{
    assert forall|x: int, y: int| 0 <= x < 9 && 0 <= y < 9 implies #[trigger] a.cell(x, y).value_as_int == b.cell(x, y).value_as_int by {
        assert(cell_narrows(a.cell(x, y), b.cell(x, y)));
        assert(cell_narrows(b.cell(x, y), c.cell(x, y)));
        assert(a.cell(x, y).wf() && b.cell(x, y).wf() && c.cell(x, y).wf());
        assert(a.cell(x, y).value_as_int == c.cell(x, y).value_as_int);
    }
    assert forall|x: int, y: int| 0 <= x < 9 && 0 <= y < 9 implies #[trigger] b.cell(x, y).value_as_int == c.cell(x, y).value_as_int by {
        assert(a.cell(x, y).value_as_int == b.cell(x, y).value_as_int);
        assert(a.cell(x, y).value_as_int == c.cell(x, y).value_as_int);
    }
}

/// Grids with the same cells see the same placed values around each cell.
pub proof fn lemma_same_cells_seen(a: SudokuGrid, b: SudokuGrid, x: int, y: int)
    requires
        same_grid_cells(a, b),
        0 <= x < 9,
        0 <= y < 9,
    ensures
        forall|v: u32| #[trigger] a.seen(x, y, v) == b.seen(x, y, v),
        no_single_at(a, x, y) == no_single_at(b, x, y),
{
    assert(a.col_cells(x) =~= b.col_cells(x)) by {
        assert forall|k: int| 0 <= k < 9 implies #[trigger] a.col_cells(x)[k] == b.col_cells(x)[k] by {
            assert(a.cell(x, k) == b.cell(x, k));
        }
    }
    assert(a.row_cells(y) =~= b.row_cells(y)) by {
        assert forall|k: int| 0 <= k < 9 implies #[trigger] a.row_cells(y)[k] == b.row_cells(y)[k] by {
            assert(a.cell(k, y) == b.cell(k, y));
        }
    }
    let bx = box_start(x as u32) as int;
    let by = box_start(y as u32) as int;
    assert(a.box_cells(bx, by) =~= b.box_cells(bx, by)) by {
        assert forall|k: int| 0 <= k < 9 implies #[trigger] a.box_cells(bx, by)[k] == b.box_cells(bx, by)[k] by {
            assert(0 <= k % 3 < 3 && 0 <= k / 3 < 3) by (nonlinear_arith) requires 0 <= k < 9;
            assert(a.cell(bx + k % 3, by + k / 3) == b.cell(bx + k % 3, by + k / 3));
        }
    }
    assert(a.cell(x, y) == b.cell(x, y));
    assert forall|v: u32| #[trigger] a.seen(x, y, v) == b.seen(x, y, v) by {}
    assert forall|v: u32| #[trigger] a.only_candidate(x, y, v) == b.only_candidate(x, y, v) by {
        if a.only_candidate(x, y, v) {
            assert forall|w: u32| 1 <= w <= 9 && !b.seen(x, y, w) implies w == v by {
                assert(a.seen(x, y, w) == b.seen(x, y, w));
            }
            assert(!b.seen(x, y, v) == !a.seen(x, y, v));
        }
        if b.only_candidate(x, y, v) {
            assert forall|w: u32| 1 <= w <= 9 && !a.seen(x, y, w) implies w == v by {
                assert(a.seen(x, y, w) == b.seen(x, y, w));
            }
            assert(!b.seen(x, y, v) == !a.seen(x, y, v));
        }
    }
    if no_single_at(a, x, y) && !a.cell(x, y).defined {
        assert forall|v: u32| !#[trigger] b.only_candidate(x, y, v) by {
            assert(a.only_candidate(x, y, v) == b.only_candidate(x, y, v));
        }
    }
    if no_single_at(b, x, y) && !b.cell(x, y).defined {
        assert forall|v: u32| !#[trigger] a.only_candidate(x, y, v) by {
            assert(a.only_candidate(x, y, v) == b.only_candidate(x, y, v));
        }
    }
}

/// A grid met between two grids with the same cells, each step shrinking, has those cells too.
pub proof fn lemma_narrows_between(a: SudokuGrid, b: SudokuGrid, c: SudokuGrid)
    requires
        a.wf(),
        b.wf(),
        shrinks(a, b),
        shrinks(b, c),
        same_grid_cells(a, c),
    ensures
        same_grid_cells(a, b),
{
    assert forall|x: int, y: int| 0 <= x < 9 && 0 <= y < 9 implies #[trigger] a.cell(x, y) == b.cell(x, y) by {
        let ca = a.cell(x, y);
        let cb = b.cell(x, y);
        assert(cell_narrows(ca, cb));
        assert(cell_narrows(cb, c.cell(x, y)));
        assert(c.cell(x, y) == ca);
        if !ca.defined {
            assert(ca.wf() && cb.wf());
            assert(!cb.defined);
            assert forall|i: int| 0 <= i < 9 implies #[trigger] cb.states@[i] == ca.states@[i] by {
                assert(cb.states@[i].0 != ValueStatus::Actual);
                assert(ca.states@[i].0 != ValueStatus::Actual);
            }
            assert(cb.states@ =~= ca.states@);
            assert(cb.states =~= ca.states);
        }
    }
}

/// The cell at (`qx`, `qy`), when open, has no placed peer value still possible.
pub open spec fn free_at(g: SudokuGrid, qx: int, qy: int) -> bool {
    forall|px: int, py: int| !#[trigger] conflict(g, px, py, qx, qy)
}

impl SudokuGrid {
    /// The values placed in column `x`.
    pub open spec fn col_values(self, x: int) -> Seq<u32> {
        values_of(cells_with_value(self.col_cells(x)))
    }

    /// The values placed in row `y`.
    pub open spec fn row_values(self, y: int) -> Seq<u32> {
        values_of(cells_with_value(self.row_cells(y)))
    }

    /// The values placed in the box holding column `x`, row `y`.
    pub open spec fn box_values(self, x: int, y: int) -> Seq<u32> {
        values_of(cells_with_value(self.box_cells(box_start(x as u32) as int, box_start(y as u32) as int)))
    }

    /// Whether `v` is already placed in the column, row or box of the cell at (`x`, `y`).
    pub open spec fn seen(self, x: int, y: int, v: u32) -> bool {
        self.col_values(x).contains(v) || self.row_values(y).contains(v) || self.box_values(x, y).contains(v)
    }

    /// The values not yet placed in the column, row or box of the cell at (`x`, `y`): first
    /// those the cell still has possible, then the others, each in increasing order.
    pub open spec fn candidate_list(self, x: int, y: int) -> Seq<u32> {
        pick(|v: u32| self.cell(x, y).states@[v - 1].0 == ValueStatus::Possible && !self.seen(x, y, v), 9)
            + pick(|v: u32| self.cell(x, y).states@[v - 1].0 != ValueStatus::Possible && !self.seen(x, y, v), 9)
    }

    /// The values that can still go in the cell at column `x`, row `y`, judged by the values
    /// placed in its column, row and box, and whether there is only one.
    ///
    /// For a defined cell this reports its value with `true`, and changes nothing. For an open cell the list holds, each once, every value
    /// from 1 to 9 not yet placed in its column, row or box. When there is not exactly one,
    /// every other value is struck from the cell, and a cell left with one value is set to it;
    /// a cell whose possible values are all in the list is left as it is.
    pub fn get_possibles_by_cell(&mut self, x: u32, y: u32) -> (r: Result<(Vec<u32>, bool), SolveError>)
        requires
            old(self).wf(),
            x < 9,
            y < 9,
        ensures
            r matches Err(e) ==> e == SolveError::CellEmptied,
            r is Err ==> emptiable(*final(self)),
            final(self).wf(),
            shrinks(*old(self), *final(self)),
            r is Ok ==> narrows(*old(self), *final(self)),
            r matches Ok((vals, flag)) ==> {
                if old(self).cell(x as int, y as int).defined {
                    &&& vals@ == seq![old(self).cell(x as int, y as int).value_as_int]
                    &&& flag
                    &&& *final(self) == *old(self)
                } else {
                    &&& vals@ == old(self).candidate_list(x as int, y as int)
                    &&& vals@.no_duplicates()
                    &&& forall|v: u32| vals@.contains(v) <==> (1 <= v <= 9 && !old(self).seen(x as int, y as int, v))
                    &&& flag == (vals@.len() == 1)
                    &&& flag ==> *final(self) == *old(self)
                    &&& !flag ==> (final(self).cell(x as int, y as int).defined || forall|v: u32| 1 <= v <= 9
                        ==> (#[trigger] final(self).cell(x as int, y as int).states@[v - 1].0 == ValueStatus::Possible)
                            == (old(self).cell(x as int, y as int).states@[v - 1].0 == ValueStatus::Possible && vals@.contains(v)))
                    &&& !flag && !final(self).cell(x as int, y as int).defined ==> {
                        &&& forall|i: int, j: int| 0 <= i < 9 && 0 <= j < 9 && !(i == x && j == y)
                            ==> #[trigger] final(self).cell(i, j) == old(self).cell(i, j)
                        &&& final(self).cell(x as int, y as int).possible_values().len() >= 2
                            || final(self).cell(x as int, y as int) == old(self).cell(x as int, y as int)
                    }
                    &&& !flag && two_kept(old(self).cell(x as int, y as int), vals@) ==> !final(self).cell(x as int, y as int).defined
                    &&& !flag && possible_within(old(self).cell(x as int, y as int), vals@) ==> *final(self) == *old(self)
                }
            },
            old(self).at_home() ==> forall|sol: Seq<Seq<u32>>| is_solution(sol) && #[trigger] agrees(*old(self), sol)
                ==> r is Ok && agrees(*final(self), sol),
    {
        let mut possible: Vec<u32> = Vec::new();
        let y_u = y as usize;
        let x_u = x as usize;

        if self.grid[y_u][x_u].defined {
            possible.push(self.grid[y_u][x_u].value_as_int);
            return Ok((possible, true));
        }

        let col = self.collect_values(self.get_vals_in_col(x));
        let row = self.collect_values(self.get_vals_in_row(y));
        let bx = self.collect_values(self.get_vals_in_box(SudokuBox::new(
            SudokuBox::coord_translator(x),
            SudokuBox::coord_translator(y),
            *self,
        )));

        possible = self.grid[y_u][x_u].get_possible();
        let ghost p0 = possible@;
        proof {
            let c = self.cell(x as int, y as int);
            lemma_values_with(c.states@, ValueStatus::Possible, 9);
            assert forall|i: int, j: int| 0 <= i < j < p0.len() implies p0[i] != p0[j] by {}
        }

        let ghost g = *old(self);
        let ghost fa = |v: u32| g.cell(x as int, y as int).states@[v - 1].0 == ValueStatus::Possible && !g.seen(x as int, y as int, v);
        let ghost fb = |v: u32| g.cell(x as int, y as int).states@[v - 1].0 != ValueStatus::Possible && !g.seen(x as int, y as int, v);
        let ghost mut k: int = 0;
        proof {
            assert(possible@ =~= pick(fa, 0) + p0.subrange(0, p0.len() as int) + pick(fb, 0));
        }
        let mut index: u32 = 1;
        while index < GRID_SIZE_I + 1
            invariant
                1 <= index <= 10,
                g == *old(self),
                fa == |v: u32| g.cell(x as int, y as int).states@[v - 1].0 == ValueStatus::Possible && !g.seen(x as int, y as int, v),
                fb == |v: u32| g.cell(x as int, y as int).states@[v - 1].0 != ValueStatus::Possible && !g.seen(x as int, y as int, v),
                0 <= k <= p0.len(),
                forall|j: int| 0 <= j < k ==> p0[j] < index,
                forall|j: int| k <= j < p0.len() ==> p0[j] >= index,
                forall|i: int, j: int| 0 <= i < j < p0.len() ==> p0[i] < p0[j],
                possible@ == pick(fa, (index - 1) as nat) + p0.subrange(k, p0.len() as int) + pick(fb, (index - 1) as nat),
                possible@.no_duplicates(),
                col@ == old(self).col_values(x as int),
                row@ == old(self).row_values(y as int),
                bx@ == old(self).box_values(x as int, y as int),
                forall|v: u32| 1 <= v <= 9 ==> (p0.contains(v) <==> old(self).cell(x as int, y as int).states@[v - 1].0 == ValueStatus::Possible),
                forall|v: u32| p0.contains(v) ==> 1 <= v <= 9,
                forall|v: u32| #[trigger] possible@.contains(v) <==> (if v < index {
                    1 <= v && !old(self).seen(x as int, y as int, v)
                } else {
                    p0.contains(v)
                }),
            decreases 10 - index,
        {
            let ghost v = index;
            let ghost pa = pick(fa, (index - 1) as nat);
            let ghost pb = pick(fb, (index - 1) as nat);
            let ghost pv = g.cell(x as int, y as int).states@[v - 1].0 == ValueStatus::Possible;
            let ghost l0 = possible@;
            proof {
                lemma_pick(fa, (index - 1) as nat);
                lemma_pick(fb, (index - 1) as nat);
                if pv {
                    assert(p0.contains(v));
                    let j = choose|j: int| 0 <= j < p0.len() && p0[j] == v;
                    if j != k {
                        assert(p0[k] >= index);
                        assert(p0[k] < p0[j]);
                    }
                    assert(k < p0.len() && p0[k] == v);
                    assert(l0[pa.len() as int] == v);
                    assert(l0 =~= pa + seq![v] + p0.subrange(k + 1, p0.len() as int) + pb);
                } else {
                    assert(!l0.contains(v));
                }
            }
            if contains_u32(&col, index) {
                if contains_u32(&possible, index) {
                    remove_value(&mut possible, index);
                    proof { lemma_removed_at(l0, possible@, v, pa.len() as int); }
                }
                proof {
                    if pv { k = k + 1; }
                    assert(g.seen(x as int, y as int, v));
                    assert(!fa(v) && !fb(v));
                    assert(pick(fa, v as nat) == pa);
                    assert(pick(fb, v as nat) == pb);
                    assert(possible@ =~= pick(fa, v as nat) + p0.subrange(k, p0.len() as int) + pick(fb, v as nat));
                }
                index += 1;
                continue;
            }
            if contains_u32(&row, index) {
                if contains_u32(&possible, index) {
                    remove_value(&mut possible, index);
                    proof { lemma_removed_at(l0, possible@, v, pa.len() as int); }
                }
                proof {
                    if pv { k = k + 1; }
                    assert(g.seen(x as int, y as int, v));
                    assert(!fa(v) && !fb(v));
                    assert(pick(fa, v as nat) == pa);
                    assert(pick(fb, v as nat) == pb);
                    assert(possible@ =~= pick(fa, v as nat) + p0.subrange(k, p0.len() as int) + pick(fb, v as nat));
                }
                index += 1;
                continue;
            } else {
                push_absent(&mut possible, index);
            }
            let ghost l1 = possible@;
            if contains_u32(&bx, index) {
                if contains_u32(&possible, index) {
                    remove_value(&mut possible, index);
                    proof {
                        if pv {
                            lemma_removed_at(l0, possible@, v, pa.len() as int);
                        } else {
                            assert(l1 == l0.push(v));
                            lemma_removed_at(l1, possible@, v, l0.len() as int);
                            assert(possible@ =~= l0);
                        }
                    }
                }
                proof {
                    if pv { k = k + 1; }
                    assert(g.seen(x as int, y as int, v));
                    assert(!fa(v) && !fb(v));
                    assert(pick(fa, v as nat) == pa);
                    assert(pick(fb, v as nat) == pb);
                    assert(possible@ =~= pick(fa, v as nat) + p0.subrange(k, p0.len() as int) + pick(fb, v as nat));
                }
                index += 1;
                continue;
            } else {
                push_absent(&mut possible, index);
            }
            proof {
                if pv {
                    k = k + 1;
                    assert(pick(fa, v as nat) == pa.push(v));
                    assert(pick(fb, v as nat) == pb);
                } else {
                    assert(pick(fa, v as nat) == pa);
                    assert(pick(fb, v as nat) == pb.push(v));
                }
                assert(possible@ =~= pick(fa, v as nat) + p0.subrange(k, p0.len() as int) + pick(fb, v as nat));
            }
            index += 1;
        }
        proof {
            if k < p0.len() {
                assert(p0.contains(p0[k]));
            }
            assert(p0.subrange(k, p0.len() as int) =~= Seq::<u32>::empty());
            assert(possible@ =~= old(self).candidate_list(x as int, y as int));
        }

        if possible.len() == 1 {
            return Ok((possible, true));
        }

        let ghost start = *self;
        proof {
            assert forall|v: u32| 1 <= v <= 9 && !possible@.contains(v) implies start.seen(x as int, y as int, v) by {}
        }
        let mut n: u32 = 0;
        while n < GRID_SIZE_I
            invariant
                forall|v: u32| 1 <= v <= 9 && !possible@.contains(v) ==> start.seen(x as int, y as int, v),
                !start.cell(x as int, y as int).defined,
                start.wf(),
                start.at_home() ==> forall|sol: Seq<Seq<u32>>| is_solution(sol) && #[trigger] agrees(start, sol)
                    ==> agrees(*self, sol),
                self.wf(),
                x < 9,
                y < 9,
                x_u == x,
                y_u == y,
                start == *old(self),
                narrows(start, *self),
                n <= 9,
                self.cell(x as int, y as int).defined || forall|v: u32| 1 <= v <= 9
                    ==> (#[trigger] self.cell(x as int, y as int).states@[v - 1].0 == ValueStatus::Possible)
                        == (start.cell(x as int, y as int).states@[v - 1].0 == ValueStatus::Possible && (v > n || possible@.contains(v))),
                !self.cell(x as int, y as int).defined ==> {
                    &&& forall|i: int, j: int| 0 <= i < 9 && 0 <= j < 9 && !(i == x && j == y)
                        ==> #[trigger] self.cell(i, j) == start.cell(i, j)
                    &&& self.cell(x as int, y as int).possible_values().len() >= 2
                        || self.cell(x as int, y as int) == start.cell(x as int, y as int)
                },
                two_kept(start.cell(x as int, y as int), possible@) ==> !self.cell(x as int, y as int).defined,
                possible_within(start.cell(x as int, y as int), possible@) ==> *self == start,
            decreases 9 - n,
        {
            let i = n + 1;
            if contains_u32(&possible, i) {
                n += 1;
                continue;
            }
            let imp = self.grid[y_u][x_u].get_impossible();
            if contains_u32(&imp, i) {
                proof {
                    let c = self.cell(x as int, y as int);
                    lemma_values_with(c.states@, ValueStatus::Impossible, 9);
                }
                n += 1;
                continue;
            }
            let ghost before = *self;
            let p = match self.strike(x, y, i) {
                Ok(p) => p,
                Err(e) => {
                    proof {
                        if start.at_home() {
                            assert forall|sol: Seq<Seq<u32>>| is_solution(sol) implies !#[trigger] agrees(start, sol) by {
                                if agrees(start, sol) {
                                    assert(agrees(before, sol));
                                    lemma_seen_excludes(start, sol, x as int, y as int, i);
                                }
                            }
                        }
                    }
                    return Err(e);
                },
            };
            proof {
                lemma_narrows_trans(start, before, *self);
                if start.at_home() {
                    assert forall|sol: Seq<Seq<u32>>| is_solution(sol) && #[trigger] agrees(start, sol) implies agrees(*self, sol) by {
                        assert(agrees(before, sol));
                        lemma_seen_excludes(start, sol, x as int, y as int, i);
                    }
                }
                assert(self.cell(x as int, y as int).states@[i - 1].0 == ValueStatus::Impossible);
                if two_kept(start.cell(x as int, y as int), possible@) {
                    let (v, w) = choose|v: u32, w: u32| #![trigger possible@.contains(v), possible@.contains(w)] v != w && 1 <= v <= 9 && 1 <= w <= 9
                        && possible@.contains(v) && possible@.contains(w)
                        && start.cell(x as int, y as int).states@[v - 1].0 == ValueStatus::Possible
                        && start.cell(x as int, y as int).states@[w - 1].0 == ValueStatus::Possible;
                    let st = before.cell(x as int, y as int).struck_states(i);
                    assert(before.cell(x as int, y as int).states@[v - 1].0 == ValueStatus::Possible);
                    assert(before.cell(x as int, y as int).states@[w - 1].0 == ValueStatus::Possible);
                    assert(v != i && w != i);
                    lemma_values_with(st, ValueStatus::Possible, 9);
                    assert(values_with(st, ValueStatus::Possible, 9).contains(v));
                    assert(values_with(st, ValueStatus::Possible, 9).contains(w));
                    if values_with(st, ValueStatus::Possible, 9).len() == 1 {
                        assert(values_with(st, ValueStatus::Possible, 9)[0] == v);
                        assert(values_with(st, ValueStatus::Possible, 9)[0] == w);
                    }
                    assert(!p.0);
                }
                if !p.0 {
                    assert(before.cell(x as int, y as int).wf());
                    assert(!before.cell(x as int, y as int).is_ruled_out(i)) by {
                        lemma_values_with(before.cell(x as int, y as int).states@, ValueStatus::Impossible, 9);
                    }
                    crate::placement::lemma_strike_leaves_two(before.cell(x as int, y as int), i);
                }
                if !self.cell(x as int, y as int).defined {
                    assert forall|v: u32| 1 <= v <= 9 implies
                        (#[trigger] self.cell(x as int, y as int).states@[v - 1].0 == ValueStatus::Possible)
                        == (start.cell(x as int, y as int).states@[v - 1].0 == ValueStatus::Possible && (v > i || possible@.contains(v))) by {
                        if v != i {
                            assert(self.cell(x as int, y as int).states@[v - 1] == before.cell(x as int, y as int).states@[v - 1]);
                        }
                    }
                }
            }
            if p.0 {
                let ghost before2 = *self;
                proof {
                    if start.at_home() {
                        assert forall|sol: Seq<Seq<u32>>| is_solution(sol) && #[trigger] agrees(start, sol)
                            implies sol[y as int][x as int] == p.1 by {
                            assert(agrees(before, sol));
                            lemma_seen_excludes(start, sol, x as int, y as int, i);
                            lemma_single_left(before, sol, x as int, y as int, i);
                        }
                    }
                }
                match self.set_value(x, y, p.1) {
                    Ok(()) => {},
                    Err(e) => {
                        proof {
                            lemma_shrinks_trans(start, before2, *self);
                            if start.at_home() {
                                assert forall|sol: Seq<Seq<u32>>| is_solution(sol) implies !#[trigger] agrees(start, sol) by {
                                    if agrees(start, sol) {
                                        assert(agrees(before2, sol));
                                        assert(sol[y as int][x as int] == p.1);
                                    }
                                }
                            }
                        }
                        return Err(e);
                    },
                }
                proof {
                    lemma_narrows_trans(start, before2, *self);
                    if start.at_home() {
                        assert forall|sol: Seq<Seq<u32>>| is_solution(sol) && #[trigger] agrees(start, sol) implies agrees(*self, sol) by {
                            assert(agrees(before2, sol));
                            assert(sol[y as int][x as int] == p.1);
                        }
                    }
                }
            }
            n += 1;
        }
        Ok((possible, false))
    }

    /// Whether `v` is the only value that can still go in the cell at (`x`, `y`).
    pub open spec fn only_candidate(self, x: int, y: int, v: u32) -> bool {
        &&& 1 <= v <= 9
        &&& !self.seen(x, y, v)
        &&& forall|w: u32| 1 <= w <= 9 && !self.seen(x, y, w) ==> w == v
    }

    /// Sets the cell at (`x`, `y`) when a single value can go there; reports whether it did.
    ///
    /// For a defined cell nothing changes and the report is false. For an open cell the report is whether exactly one value is not
    /// yet placed in its column, row and box; the cell then holds that value. Otherwise the
    /// values placed there are struck from the cell, which is set if one value is left.
    pub fn check_for_guarantees(&mut self, x: u32, y: u32) -> (r: Result<bool, SolveError>)
        requires
            old(self).wf(),
            x < 9,
            y < 9,
        ensures
            r matches Err(e) ==> e == SolveError::CellEmptied,
            r is Err ==> emptiable(*final(self)),
            final(self).wf(),
            shrinks(*old(self), *final(self)),
            r is Ok ==> narrows(*old(self), *final(self)),
            r matches Ok(b) ==> {
                if old(self).cell(x as int, y as int).defined {
                    &&& !b
                    &&& *final(self) == *old(self)
                } else {
                    &&& b == (exists|v: u32| old(self).only_candidate(x as int, y as int, v))
                    &&& b ==> final(self).cell(x as int, y as int).defined
                        && old(self).only_candidate(x as int, y as int, final(self).cell(x as int, y as int).value_as_int)
                    &&& !b ==> final(self).cell(x as int, y as int).defined || forall|v: u32| 1 <= v <= 9
                        ==> (#[trigger] final(self).cell(x as int, y as int).states@[v - 1].0 == ValueStatus::Possible)
                            == (old(self).cell(x as int, y as int).states@[v - 1].0 == ValueStatus::Possible
                                && !old(self).seen(x as int, y as int, v))
                }
            },
            old(self).at_home() ==> forall|sol: Seq<Seq<u32>>| is_solution(sol) && #[trigger] agrees(*old(self), sol)
                ==> r is Ok && agrees(*final(self), sol),
            r is Ok && old(self).at_home() && !old(self).cell(x as int, y as int).defined
                ==> final(self).cell(x as int, y as int).defined || free_at(*final(self), x as int, y as int),
    {
        if self.grid[y as usize][x as usize].defined {
            proof { lemma_narrows_refl(*self); }
            return Ok(false);
        }
        let ghost start = *self;
        let possibles = match self.get_possibles_by_cell(x, y) {
            Ok(p) => p,
            Err(e) => return Err(e),
        };
        proof {
            if !start.cell(x as int, y as int).defined {
                let vals = possibles.0@;
                if exists|v: u32| start.only_candidate(x as int, y as int, v) {
                    let v = choose|v: u32| start.only_candidate(x as int, y as int, v);
                    assert(vals.contains(v));
                    let k = choose|k: int| 0 <= k < vals.len() && vals[k] == v;
                    if vals.len() != 1 {
                        let k2 = if k == 0 { 1int } else { 0int };
                        assert(vals.contains(vals[k2]));
                        assert(vals[k2] != vals[k]);
                    }
                }
                if vals.len() == 1 {
                    assert(vals.contains(vals[0]));
                    assert forall|w: u32| 1 <= w <= 9 && !start.seen(x as int, y as int, w) implies w == vals[0] by {
                        assert(vals.contains(w));
                    }
                    assert(start.only_candidate(x as int, y as int, vals[0]));
                }
            }
        }
        if possibles.1 {
            let val = possibles.0[0];
            proof {
                assert(possibles.0@.len() == 1);
                assert(possibles.0@.contains(val));
            }
            if val > 0 {
                let ghost before = *self;
                proof {
                    if start.at_home() {
                        assert forall|sol: Seq<Seq<u32>>| is_solution(sol) && #[trigger] agrees(start, sol)
                            implies before.cell(x as int, y as int).defined || sol[y as int][x as int] == val by {
                            if !start.cell(x as int, y as int).defined {
                                let s = sol[y as int][x as int];
                                assert(1 <= s <= 9);
                                if start.seen(x as int, y as int, s) {
                                    lemma_seen_excludes(start, sol, x as int, y as int, s);
                                }
                                assert(possibles.0@.contains(s));
                            }
                        }
                    }
                }
                match self.set_value(x, y, val) {
                    Ok(()) => {},
                    Err(e) => {
                        proof {
                            if start.at_home() {
                                assert forall|sol: Seq<Seq<u32>>| is_solution(sol) implies !#[trigger] agrees(start, sol) by {
                                    if agrees(start, sol) {
                                        assert(agrees(before, sol));
                                    }
                                }
                            }
                        }
                        return Err(e);
                    },
                }
                proof {
                    lemma_narrows_trans(start, before, *self);
                    if start.at_home() {
                        assert forall|sol: Seq<Seq<u32>>| is_solution(sol) && #[trigger] agrees(start, sol) implies agrees(*self, sol) by {
                            assert(agrees(before, sol));
                        }
                    }
                }
                return Ok(true);
            }
            return Ok(false);
        }
        proof {
            if start.at_home() && !start.cell(x as int, y as int).defined && !self.cell(x as int, y as int).defined {
                assert forall|px: int, py: int| !#[trigger] conflict(*self, px, py, x as int, y as int) by {
                    if conflict(*self, px, py, x as int, y as int) {
                        let w = self.cell(px, py).value_as_int;
                        assert(self.cell(px, py).wf());
                        assert(self.cell(x as int, y as int).states@[w - 1].0 == ValueStatus::Possible);
                        assert(possibles.0@.contains(w));
                        if start.cell(px, py).defined {
                            assert(cell_narrows(start.cell(px, py), self.cell(px, py)));
                            lemma_peer_seen(start, px, py, x as int, y as int);
                        } else {
                            assert(conflict(start, px, py, x as int, y as int));
                        }
                    }
                }
            }
        }
        Ok(false)
    }

    /// Sets every cell with a single possible value, pass after pass, until a pass sets
    /// none or the counters add up to a full grid. Reports whether the grid is solved: true at
    /// once when it is marked solved, else whether the counters add up to a full grid at the
    /// end (whether every cell is placed, when the counters agree with the cells). A grid not
    /// marked solved always gets at least one pass over its open cells, whatever the counters
    /// say: when the cells carry their positions, no open cell keeps as possible a value that
    /// a cell of its row, column or box holds; and when no value was placed, no open cell is
    /// left with a single value that its row, column and box do not hold.
    pub fn check_each(&mut self) -> (r: Result<bool, SolveError>)
        requires
            old(self).wf(),
        ensures
            r matches Err(e) ==> e == SolveError::CellEmptied,
            r is Err ==> emptiable(*final(self)),
            final(self).wf(),
            shrinks(*old(self), *final(self)),
            r is Ok ==> narrows(*old(self), *final(self)),
            r matches Ok(b) ==> b == (old(self).solved || final(self).counter_total() == 81),
            old(self).counted() ==> final(self).counted(),
            old(self).counted() ==> (r matches Ok(b) ==> b == (old(self).solved || final(self).all_placed())),
            old(self).at_home() ==> forall|sol: Seq<Seq<u32>>| is_solution(sol) && #[trigger] agrees(*old(self), sol)
                ==> r is Ok && agrees(*final(self), sol),
            r is Ok && !old(self).solved && old(self).at_home() ==> settled(*final(self)),
            old(self).solved ==> r == Ok::<bool, SolveError>(true) && *final(self) == *old(self),
            r is Ok && !old(self).solved && same_values(*old(self), *final(self))
                ==> forall|x: int, y: int| 0 <= x < 9 && 0 <= y < 9 ==> #[trigger] no_single_at(*final(self), x, y),
    {
        let mut no_guarantees_found = false;
        let mut all_solved = self.solved;
        let ghost mut did_pass = false;
        proof { lemma_narrows_refl(*self); crate::grid::lemma_count_bound(*self, 0, 81); }
        while !no_guarantees_found && !all_solved && !self.solved
            invariant
                self.wf(),
                old(self).at_home() ==> forall|sol: Seq<Seq<u32>>| is_solution(sol) && #[trigger] agrees(*old(self), sol)
                    ==> agrees(*self, sol),
                narrows(*old(self), *self),
                self.placed_count() <= 81,
                !old(self).solved ==> (all_solved == (self.counter_total() == 81) || (!no_guarantees_found && !all_solved)),
                old(self).solved ==> all_solved,
                did_pass && old(self).at_home() ==> settled(*self),
                !did_pass ==> !no_guarantees_found && all_solved == old(self).solved,
                old(self).solved ==> *self == *old(self),
                old(self).wf(),
                did_pass && same_values(*old(self), *self)
                    ==> forall|qx: int, qy: int| 0 <= qx < 9 && 0 <= qy < 9 ==> #[trigger] no_single_at(*self, qx, qy),
            decreases 2 * (81 - self.placed_count()) + (if no_guarantees_found { 0int } else { 1int }),
        {
            no_guarantees_found = true;
            let ghost pass_start = *self;
            let mut row: usize = 0;
            while row < 9
                invariant
                    self.wf(),
                    old(self).at_home() ==> forall|sol: Seq<Seq<u32>>| is_solution(sol) && #[trigger] agrees(*old(self), sol)
                        ==> agrees(*self, sol),
                    narrows(*old(self), *self),
                    narrows(pass_start, *self),
                    pass_start.wf(),
                    row <= 9,
                    old(self).at_home() ==> forall|qx: int, qy: int| 0 <= qx < 9 && 0 <= qy < row ==> #[trigger] free_at(*self, qx, qy),
                    !no_guarantees_found ==> self.placed_count() > pass_start.placed_count(),
                    narrows(*old(self), pass_start),
                    same_values(pass_start, *self)
                        ==> forall|qx: int, qy: int| 0 <= qx < 9 && 0 <= qy < row ==> #[trigger] no_single_at(*self, qx, qy),
                    !old(self).solved,
                    old(self).wf(),
                decreases 9 - row,
            {
                let mut col: usize = 0;
                while col < 9
                    invariant
                        self.wf(),
                        old(self).at_home() ==> forall|sol: Seq<Seq<u32>>| is_solution(sol) && #[trigger] agrees(*old(self), sol)
                            ==> agrees(*self, sol),
                        narrows(*old(self), *self),
                        narrows(pass_start, *self),
                        pass_start.wf(),
                        row < 9,
                        col <= 9,
                        old(self).at_home() ==> forall|qx: int, qy: int| 0 <= qx < 9 && 0 <= qy < 9 && (qy < row || (qy == row && qx < col))
                            ==> #[trigger] free_at(*self, qx, qy),
                        !no_guarantees_found ==> self.placed_count() > pass_start.placed_count(),
                        narrows(*old(self), pass_start),
                        same_values(pass_start, *self) ==> forall|qx: int, qy: int| 0 <= qx < 9 && 0 <= qy < 9
                            && (qy < row || (qy == row && qx < col)) ==> #[trigger] no_single_at(*self, qx, qy),
                        !old(self).solved,
                        old(self).wf(),
                    decreases 9 - col,
                {
                    let ghost before_cell = *self;
                    if !self.grid[row][col].defined {
                        let ghost before = *self;
                        let found = match self.check_for_guarantees(col as u32, row as u32) {
                            Ok(b) => b,
                            Err(e) => {
                                proof {
                                    lemma_shrinks_trans(*old(self), before, *self);
                                    if old(self).at_home() {
                                        assert forall|sol: Seq<Seq<u32>>| is_solution(sol) implies !#[trigger] agrees(*old(self), sol) by {
                                            if agrees(*old(self), sol) {
                                                assert(agrees(before, sol));
                                            }
                                        }
                                    }
                                }
                                return Err(e);
                            },
                        };
                        proof {
                            if !found {
                                assert(no_single_at(before, col as int, row as int));
                            }
                            if old(self).at_home() {
                                assert forall|sol: Seq<Seq<u32>>| is_solution(sol) && #[trigger] agrees(*old(self), sol)
                                    implies agrees(*self, sol) by {
                                    assert(agrees(before, sol));
                                }
                            }
                            lemma_narrows_trans(*old(self), before, *self);
                            lemma_narrows_trans(pass_start, before, *self);
                            crate::grid::lemma_narrows_placed(pass_start, *self);
                            crate::grid::lemma_narrows_placed(before, *self);
                        }
                        if found {
                            proof {
                                assert(!before.cell(col as int, row as int).defined);
                                assert(self.cell(col as int, row as int).defined);
                                assert(!pass_start.cell(col as int, row as int).defined) by {
                                    if pass_start.cell(col as int, row as int).defined {
                                        assert(cell_narrows(pass_start.cell(col as int, row as int), before.cell(col as int, row as int)));
                                    }
                                }
                            }
                            no_guarantees_found = false;
                        }
                    }
                    proof {
                        if old(self).at_home() {
                            assert forall|qx: int, qy: int| 0 <= qx < 9 && 0 <= qy < 9 && (qy < row || (qy == row && qx < col + 1))
                                implies #[trigger] free_at(*self, qx, qy) by {
                                assert(narrows(before_cell, *self));
                                assert(before_cell.at_home());
                                if qy < row || (qy == row && qx < col) {
                                    assert(free_at(before_cell, qx, qy));
                                    assert forall|px: int, py: int| !#[trigger] conflict(*self, px, py, qx, qy) by {
                                        if conflict(*self, px, py, qx, qy) {
                                            assert(conflict(before_cell, px, py, qx, qy));
                                        }
                                    }
                                } else if before_cell.cell(qx, qy).defined {
                                    assert(cell_narrows(before_cell.cell(qx, qy), self.cell(qx, qy)));
                                }
                            }
                        }
                    }
                    proof {
                        if same_values(pass_start, *self) {
                            assert(before_cell.wf());
                            lemma_values_between(pass_start, before_cell, *self);
                            assert forall|qx: int, qy: int| 0 <= qx < 9 && 0 <= qy < 9 && (qy < row || (qy == row && qx < col + 1))
                                implies #[trigger] no_single_at(*self, qx, qy) by {
                                lemma_same_values_seen(before_cell, *self, qx, qy);
                                if qy == row && qx == col && !before_cell.cell(qx, qy).defined {
                                    assert(before_cell.cell(qx, qy).value_as_int == self.cell(qx, qy).value_as_int);
                                    assert(self.cell(qx, qy).wf());
                                    assert(no_single_at(before_cell, qx, qy));
                                }
                            }
                        }
                    }
                    col += 1;
                }
                row += 1;
            }
            proof {
                if same_values(*old(self), *self) {
                    lemma_values_between(*old(self), pass_start, *self);
                }
                did_pass = true;
                if old(self).at_home() {
                    assert forall|px: int, py: int, qx: int, qy: int| !#[trigger] conflict(*self, px, py, qx, qy) by {
                        if 0 <= qx < 9 && 0 <= qy < 9 {
                            assert(free_at(*self, qx, qy));
                        }
                    }
                }
            }
            let counts = self.get_def_val_ct();
            proof {
                crate::grid::lemma_count_bound(*self, 0, 81);
                crate::grid::lemma_narrows_placed(pass_start, *self);
            }
            let total: u32 = counts[0] + counts[1] + counts[2] + counts[3] + counts[4] + counts[5] + counts[6]
                + counts[7] + counts[8];
            all_solved = total == GRID_SIZE_I * GRID_SIZE_I;
        }
        proof {
            if old(self).counted() {
                crate::grid::lemma_counted_shrinks(*old(self), *self);
                crate::grid::lemma_counted_total(*self);
                crate::grid::lemma_all_placed(*self);
            }
        }
        Ok(all_solved)
    }
}


} // verus!
