use vstd::prelude::*;
use crate::cell::{SudokuCell, ValueStatus, lemma_values_with};
use crate::solution::{is_solution, agrees, cell_agrees, peers, in_unit, unit_holds, conflict, settled};
use crate::grid::lemma_settled_narrows;
use crate::placement::{cleared, lemma_cleared_stays};
use crate::grid::{emptiable, SudokuGrid, SolveError, GRID_SIZE, GRID_SIZE_I, narrows, lemma_narrows_trans, lemma_narrows_refl, shrinks, lemma_shrinks_trans};
use crate::util::{contains_u32, contains_usize};
use crate::candidates::same_grid_cells;

verus! {

/// Lines paired with the positions in them that can take a value.
pub type LineTable = Vec<(usize, Vec<usize>)>;

/// The contents of a line table: each line with its positions.
pub open spec fn lines_view(t: Seq<(usize, Vec<usize>)>) -> Seq<(usize, Seq<usize>)> {
    t.map_values(|e: (usize, Vec<usize>)| (e.0, e.1@))
}

/// The lines of the table, in order.
pub open spec fn line_keys(t: Seq<(usize, Seq<usize>)>) -> Seq<usize> {
    t.map_values(|e: (usize, Seq<usize>)| e.0)
}

/// Every group is made of lines of the table.
pub open spec fn lines_within(groups: Seq<Vec<usize>>, keys: Seq<usize>) -> bool {
    forall|g: int, e: int| 0 <= g < groups.len() && 0 <= e < groups[g]@.len() ==> keys.contains(#[trigger] groups[g]@[e])
}

/// The lines after line `i` and before line `j` of the table with the same positions as
/// line `i`, in order.
pub open spec fn later_keys(lines: Seq<(usize, Seq<usize>)>, i: int, j: int) -> Seq<usize>
    decreases j - i,
{
    if j <= i + 1 {
        Seq::empty()
    } else {
        let prev = later_keys(lines, i, j - 1);
        if lines[j - 1].1 == lines[i].1 {
            prev.push(lines[j - 1].0)
        } else {
            prev
        }
    }
}

/// The group started by line `i`: the later lines with its positions, then itself.
pub open spec fn line_group(lines: Seq<(usize, Seq<usize>)>, i: int) -> Seq<usize> {
    later_keys(lines, i, lines.len() as int).push(lines[i].0)
}

/// Line `i` starts a group: it has two positions, no earlier line has them, a later one does.
pub open spec fn group_leader(lines: Seq<(usize, Seq<usize>)>, i: int) -> bool {
    &&& lines[i].1.len() == 2
    &&& later_keys(lines, i, lines.len() as int).len() > 0
    &&& forall|j: int| 0 <= j < i ==> lines[j].1 != lines[i].1
}

/// The groups started by the first `n` lines, in order.
pub open spec fn matched_lines(lines: Seq<(usize, Seq<usize>)>, n: nat) -> Seq<Seq<usize>>
    decreases n,
{
    if n == 0 {
        Seq::empty()
    } else {
        let prev = matched_lines(lines, (n - 1) as nat);
        if group_leader(lines, n - 1) {
            prev.push(line_group(lines, n - 1))
        } else {
            prev
        }
    }
}

/// The contents of each group.
pub open spec fn group_views(groups: Seq<Vec<usize>>) -> Seq<Seq<usize>> {
    groups.map_values(|g: Vec<usize>| g@)
}

/// `later_keys` holds the lines between `i` and `j` with the positions of line `i`.
pub proof fn lemma_later_keys(lines: Seq<(usize, Seq<usize>)>, i: int, j: int)
    requires
        0 <= i < j <= lines.len(),
    ensures
        forall|k: usize| later_keys(lines, i, j).contains(k) <==>
            exists|t: int| i < t < j && #[trigger] lines[t].0 == k && lines[t].1 == lines[i].1,
    decreases j - i,
{
    if j > i + 1 {
        lemma_later_keys(lines, i, j - 1);
        let prev = later_keys(lines, i, j - 1);
        let cur = later_keys(lines, i, j);
        assert forall|k: usize| cur.contains(k) <==>
            exists|t: int| i < t < j && #[trigger] lines[t].0 == k && lines[t].1 == lines[i].1 by {
            if cur.contains(k) {
                let q = choose|q: int| 0 <= q < cur.len() && cur[q] == k;
                if q < prev.len() {
                    assert(prev[q] == k);
                    assert(prev.contains(k));
                } else {
                    assert(lines[j - 1].0 == k);
                }
            }
            if exists|t: int| i < t < j && #[trigger] lines[t].0 == k && lines[t].1 == lines[i].1 {
                let t = choose|t: int| i < t < j && #[trigger] lines[t].0 == k && lines[t].1 == lines[i].1;
                if t < j - 1 {
                    assert(prev.contains(k));
                    let q = choose|q: int| 0 <= q < prev.len() && prev[q] == k;
                    assert(cur[q] == k);
                } else {
                    assert(cur[cur.len() - 1] == k);
                }
            }
        }
    }
}

/// `g` is the group of a leader among the first `n` lines.
pub open spec fn leaders_group(lines: Seq<(usize, Seq<usize>)>, n: nat, g: Seq<usize>) -> bool {
    exists|l: int| 0 <= l < n && group_leader(lines, l) && g == line_group(lines, l)
}

/// The groups among the first `n` are exactly those of the leaders among them.
pub proof fn lemma_matched_lines(lines: Seq<(usize, Seq<usize>)>, n: nat)
    requires
        n <= lines.len(),
    ensures
        forall|q: int| 0 <= q < matched_lines(lines, n).len() ==> leaders_group(lines, n, #[trigger] matched_lines(lines, n)[q]),
        forall|l: int| 0 <= l < n && group_leader(lines, l) ==> #[trigger] matched_lines(lines, n).contains(line_group(lines, l)),
    decreases n,
{
    if n > 0 {
        let m = (n - 1) as nat;
        lemma_matched_lines(lines, m);
        let prev = matched_lines(lines, m);
        let cur = matched_lines(lines, n);
        assert forall|q: int| 0 <= q < matched_lines(lines, n).len() implies leaders_group(lines, n, #[trigger] matched_lines(lines, n)[q]) by {
            if q < prev.len() {
                assert(cur[q] == prev[q]);
                assert(leaders_group(lines, m, matched_lines(lines, m)[q]));
                let l = choose|l: int| 0 <= l < m && group_leader(lines, l) && matched_lines(lines, m)[q] == line_group(lines, l);
                assert(0 <= l < n && group_leader(lines, l) && cur[q] == line_group(lines, l));
            } else {
                assert(group_leader(lines, n - 1));
                assert(cur[q] == line_group(lines, n - 1));
                assert(0 <= n - 1 < n && group_leader(lines, n - 1) && cur[q] == line_group(lines, n - 1));
            }
        }
        assert forall|l: int| 0 <= l < n && group_leader(lines, l) implies #[trigger] cur.contains(line_group(lines, l)) by {
            if l < m {
                assert(prev.contains(line_group(lines, l)));
                let q = choose|q: int| 0 <= q < prev.len() && prev[q] == line_group(lines, l);
                assert(cur[q] == prev[q]);
            } else {
                assert(cur[cur.len() - 1] == line_group(lines, l));
            }
        }
    } else {
        assert(matched_lines(lines, n) =~= Seq::<Seq<usize>>::empty());
    }
}

/// With distinct lines, a line with two positions is in a group of an earlier line exactly
/// when an earlier line has the same positions.
pub proof fn lemma_in_group(lines: Seq<(usize, Seq<usize>)>, i: nat)
    requires
        0 <= i < lines.len(),
        line_keys(lines).no_duplicates(),
        lines[i as int].1.len() == 2,
    ensures
        (exists|q: int| 0 <= q < matched_lines(lines, i).len() && (#[trigger] matched_lines(lines, i)[q]).contains(lines[i as int].0))
            <==> (exists|j: int| 0 <= j < i && lines[j].1 == lines[i as int].1),
{
    lemma_matched_lines(lines, i);
    let key = lines[i as int].0;
    let mi = matched_lines(lines, i);
    if exists|q: int| 0 <= q < mi.len() && (#[trigger] mi[q]).contains(key) {
        let q = choose|q: int| 0 <= q < mi.len() && (#[trigger] mi[q]).contains(key);
        assert(leaders_group(lines, i, mi[q]));
        let l = choose|l: int| 0 <= l < i && group_leader(lines, l) && mi[q] == line_group(lines, l);
        lemma_later_keys(lines, l, lines.len() as int);
        let g = line_group(lines, l);
        let qq = choose|qq: int| 0 <= qq < g.len() && g[qq] == key;
        if qq == g.len() - 1 {
            assert(line_keys(lines)[l] == key && line_keys(lines)[i as int] == key);
            assert(false);
        } else {
            assert(later_keys(lines, l, lines.len() as int)[qq] == key);
            assert(later_keys(lines, l, lines.len() as int).contains(key));
            let t = choose|t: int| l < t < lines.len() && #[trigger] lines[t].0 == key && lines[t].1 == lines[l].1;
            assert(line_keys(lines)[t] == key && line_keys(lines)[i as int] == key);
            assert(t == i);
        }
    }
    if exists|j: int| 0 <= j < i && lines[j].1 == lines[i as int].1 {
        let j = choose|j: int| 0 <= j < i && lines[j].1 == lines[i as int].1;
        lemma_reaches_group(lines, i as int, j);
    }
}

/// If line `j` before line `i` has its positions, some group among the first `i` holds line `i`.
proof fn lemma_reaches_group(lines: Seq<(usize, Seq<usize>)>, i: int, j: int)
    requires
        0 <= j < i < lines.len(),
        lines[i].1.len() == 2,
        lines[j].1 == lines[i].1,
    ensures
        exists|q: int| 0 <= q < matched_lines(lines, i as nat).len() && (#[trigger] matched_lines(lines, i as nat)[q]).contains(lines[i].0),
    decreases j,
{
    if exists|j2: int| 0 <= j2 < j && lines[j2].1 == lines[j].1 {
        let j2 = choose|j2: int| 0 <= j2 < j && lines[j2].1 == lines[j].1;
        lemma_reaches_group(lines, i, j2);
    } else {
        lemma_later_keys(lines, j, lines.len() as int);
        assert(lines[i].0 == lines[i].0);
        assert(later_keys(lines, j, lines.len() as int).contains(lines[i].0));
        assert(group_leader(lines, j));
        lemma_matched_lines(lines, i as nat);
        let mi = matched_lines(lines, i as nat);
        assert(mi.contains(line_group(lines, j)));
        let q = choose|q: int| 0 <= q < mi.len() && mi[q] == line_group(lines, j);
        let lk = later_keys(lines, j, lines.len() as int);
        let k = choose|k: int| 0 <= k < lk.len() && lk[k] == lines[i].0;
        assert(line_group(lines, j)[k] == lines[i].0);
        assert(mi[q].contains(lines[i].0));
    }
}

/// A group of two lines holds a later line and its leader, which have the same two positions.
pub proof fn lemma_pair_group(lines: Seq<(usize, Seq<usize>)>, g: Seq<usize>)
    requires
        leaders_group(lines, lines.len() as nat, g),
        g.len() == 2,
    ensures
        exists|i: int, j: int| 0 <= i < lines.len() && 0 <= j < lines.len() && i != j
            && lines[i].0 == g[0] && lines[j].0 == g[1]
            && lines[i].1 == lines[j].1 && lines[j].1.len() == 2,
{
    let l = choose|l: int| 0 <= l < lines.len() && group_leader(lines, l) && g == line_group(lines, l);
    let lk = later_keys(lines, l, lines.len() as int);
    assert(lk.len() == 1);
    lemma_later_keys(lines, l, lines.len() as int);
    assert(g[0] == lk[0]);
    assert(lk.contains(lk[0]));
    let t = choose|t: int| l < t < lines.len() && #[trigger] lines[t].0 == lk[0] && lines[t].1 == lines[l].1;
    assert(lines[t].0 == g[0] && lines[l].0 == g[1]);
}

/// The cell at position `pos` of line `line`: of row `line` when `by_cols` is false, of column
/// `line` when it is true.
pub open spec fn line_cell(g: SudokuGrid, by_cols: bool, line: int, pos: int) -> SudokuCell {
    if by_cols { g.cell(line, pos) } else { g.cell(pos, line) }
}

/// The column of the cell at position `pos` of line `line`.
pub open spec fn spot_x(by_cols: bool, line: int, pos: int) -> int {
    if by_cols { line } else { pos }
}

/// The row of the cell at position `pos` of line `line`.
pub open spec fn spot_y(by_cols: bool, line: int, pos: int) -> int {
    if by_cols { pos } else { line }
}

/// `v` is cleared from the cell at position `pos` of line `line`.
pub open spec fn cleared_on(g: SudokuGrid, by_cols: bool, pos: int, line: int, v: u32) -> bool {
    cleared(g, spot_x(by_cols, line, pos), spot_y(by_cols, line, pos), v)
}

/// A value cleared from a cell of a line stays cleared as the grid shrinks.
pub proof fn lemma_cleared_on_stays(a: SudokuGrid, b: SudokuGrid, by_cols: bool, pos: int, line: int, v: u32)
    requires
        shrinks(a, b),
        0 <= pos < 9,
        0 <= line < 9,
        1 <= v <= 9,
        cleared_on(a, by_cols, pos, line, v),
    ensures
        cleared_on(b, by_cols, pos, line, v),
{
    lemma_cleared_stays(a, b, spot_x(by_cols, line, pos), spot_y(by_cols, line, pos), v);
}

/// The x-wing rule: when two lines (rows, or columns when `by_cols`) can take `number` only
/// at the same two positions, and the grid is settled, no other line has the solution's
/// `number` at either position.
pub proof fn lemma_x_wing(g: SudokuGrid, by_cols: bool, sol: Seq<Seq<u32>>, number: u32, ra: int, rb: int, p: Seq<usize>, r: int, column: int)
    requires
        g.wf(),
        settled(g),
        is_solution(sol),
        agrees(g, sol),
        1 <= number <= 9,
        0 <= ra < 9,
        0 <= rb < 9,
        0 <= r < 9,
        ra != rb,
        r != ra,
        r != rb,
        p.len() == 2,
        p[0] != p[1],
        p[0] < 9,
        p[1] < 9,
        forall|c: int| 0 <= c < 9 && !line_cell(g, by_cols, ra, c).defined && line_cell(g, by_cols, ra, c).possible_values().contains(number) ==> p.contains(c as usize),
        forall|c: int| 0 <= c < 9 && !line_cell(g, by_cols, rb, c).defined && line_cell(g, by_cols, rb, c).possible_values().contains(number) ==> p.contains(c as usize),
        !line_cell(g, by_cols, ra, p[0] as int).defined && line_cell(g, by_cols, ra, p[0] as int).possible_values().contains(number),
        !line_cell(g, by_cols, rb, p[0] as int).defined && line_cell(g, by_cols, rb, p[0] as int).possible_values().contains(number),
        0 <= column < 9,
        p.contains(column as usize),
    ensures
        sol[spot_y(by_cols, r, column)][spot_x(by_cols, r, column)] != number,
{
    let ca = column_of(g, by_cols, sol, number, ra, p);
    let cb = column_of(g, by_cols, sol, number, rb, p);
    assert(p.contains(ca as usize) && p.contains(cb as usize));
    if ca == cb {
        assert(peers(spot_x(by_cols, ra, ca), spot_y(by_cols, ra, ca), spot_x(by_cols, rb, cb), spot_y(by_cols, rb, cb)));
    }
    let k = choose|k: int| 0 <= k < 2 && p[k] == column as usize;
    if column == ca {
        assert(peers(spot_x(by_cols, r, column), spot_y(by_cols, r, column), spot_x(by_cols, ra, ca), spot_y(by_cols, ra, ca)));
    } else if column == cb {
        assert(peers(spot_x(by_cols, r, column), spot_y(by_cols, r, column), spot_x(by_cols, rb, cb), spot_y(by_cols, rb, cb)));
    } else {
        let ka = choose|ka: int| 0 <= ka < 2 && p[ka] == ca as usize;
        let kb = choose|kb: int| 0 <= kb < 2 && p[kb] == cb as usize;
        assert(false);
    }
}

/// The position in line `row` at which the solution has `number`; in a settled grid where
/// the line has an open cell that can take `number`, it is one of those cells.
pub proof fn column_of(g: SudokuGrid, by_cols: bool, sol: Seq<Seq<u32>>, number: u32, row: int, p: Seq<usize>) -> (c: int)
    requires
        g.wf(),
        settled(g),
        is_solution(sol),
        agrees(g, sol),
        1 <= number <= 9,
        0 <= row < 9,
        p.len() == 2,
        p[0] < 9,
        forall|c: int| 0 <= c < 9 && !line_cell(g, by_cols, row, c).defined && line_cell(g, by_cols, row, c).possible_values().contains(number) ==> p.contains(c as usize),
        !line_cell(g, by_cols, row, p[0] as int).defined && line_cell(g, by_cols, row, p[0] as int).possible_values().contains(number),
    ensures
        0 <= c < 9,
        sol[spot_y(by_cols, row, c)][spot_x(by_cols, row, c)] == number,
        p.contains(c as usize),
{
    let q: int;
    if by_cols {
        assert(unit_holds(sol, 1, row, 0, number));
        let (qx, qy) = choose|qx: int, qy: int| in_unit(1, row, 0, qx, qy) && #[trigger] sol[qy][qx] == number;
        q = qy;
    } else {
        assert(unit_holds(sol, 0, 0, row, number));
        let (qx, qy) = choose|qx: int, qy: int| in_unit(0, 0, row, qx, qy) && #[trigger] sol[qy][qx] == number;
        q = qx;
    }
    assert(0 <= q < 9 && sol[spot_y(by_cols, row, q)][spot_x(by_cols, row, q)] == number);
    let cell = line_cell(g, by_cols, row, q);
    assert(cell.wf());
    assert(cell_agrees(cell, sol[spot_y(by_cols, row, q)][spot_x(by_cols, row, q)]));
    let c0 = p[0] as int;
    if cell.defined {
        assert(line_cell(g, by_cols, row, c0).wf());
        lemma_values_with(line_cell(g, by_cols, row, c0).states@, ValueStatus::Possible, 9);
        assert(!conflict(g, spot_x(by_cols, row, q), spot_y(by_cols, row, q), spot_x(by_cols, row, c0), spot_y(by_cols, row, c0)));
        assert(q != c0);
        assert(peers(spot_x(by_cols, row, q), spot_y(by_cols, row, q), spot_x(by_cols, row, c0), spot_y(by_cols, row, c0)));
    } else {
        lemma_values_with(cell.states@, ValueStatus::Possible, 9);
        assert(cell.possible_values().contains(number));
    }
    q
}

/// Grids with the same cells pick the same positions in each line.
pub proof fn lemma_same_cells_takers(a: SudokuGrid, g: SudokuGrid, by_cols: bool, line: int, number: u32, n: int)
    requires
        same_grid_cells(a, g),
        0 <= line < 9,
        0 <= n <= 9,
    ensures
        row_takers(a, by_cols, line, number, n) == row_takers(g, by_cols, line, number, n),
    decreases n,
{
    if n > 0 {
        lemma_same_cells_takers(a, g, by_cols, line, number, n - 1);
        assert(line_cell(a, by_cols, line, n - 1) == line_cell(g, by_cols, line, n - 1));
    }
}

/// Grids with the same cells have the same line tables.
pub proof fn lemma_same_cells_table(a: SudokuGrid, g: SudokuGrid, by_cols: bool, number: u32, m: int)
    requires
        same_grid_cells(a, g),
        0 <= m <= 9,
    ensures
        row_table(a, by_cols, number, m) == row_table(g, by_cols, number, m),
    decreases m,
{
    if m > 0 {
        lemma_same_cells_table(a, g, by_cols, number, m - 1);
        lemma_same_cells_takers(a, g, by_cols, m - 1, number, 9);
    }
}

/// The lines of an x-wing pair are lines of the grid.
pub proof fn lemma_pair_lines(g: SudokuGrid, by_cols: bool, number: u32, q: int)
    requires
        0 <= q < wing_pairs(g, by_cols, number).len(),
    ensures
        forall|e: int| 0 <= e < wing_pairs(g, by_cols, number)[q].len() ==> #[trigger] wing_pairs(g, by_cols, number)[q][e] < 9,
{
    let lines = row_table(g, by_cols, number, 9);
    let mall = matched_lines(lines, lines.len());
    let wp = wing_pairs(g, by_cols, number);
    lemma_row_table(g, by_cols, number, 9);
    assert(wp.contains(wp[q]));
    mall.lemma_filter_contains_rev(|p: Seq<usize>| p.len() == 2, wp[q]);
    let idx = choose|idx: int| 0 <= idx < mall.len() && mall[idx] == wp[q];
    lemma_matched_lines(lines, lines.len());
    assert(leaders_group(lines, lines.len(), mall[idx]));
    let l = choose|l: int| 0 <= l < lines.len() && group_leader(lines, l) && mall[idx] == line_group(lines, l);
    lemma_later_keys(lines, l, lines.len() as int);
    let lk = later_keys(lines, l, lines.len() as int);
    assert forall|e: int| 0 <= e < wp[q].len() implies #[trigger] wp[q][e] < 9 by {
        if e < lk.len() {
            assert(lk.contains(lk[e]));
            let t = choose|t: int| l < t < lines.len() && #[trigger] lines[t].0 == lk[e] && lines[t].1 == lines[l].1;
            assert(lines[t].0 < 9);
        } else {
            assert(lines[l].0 < 9);
        }
    }
}

/// Grids with the same cells and the same counts have the same x-wing targets.
pub proof fn lemma_same_cells_wing(a: SudokuGrid, g: SudokuGrid, by_cols: bool, number: u32)
    requires
        same_grid_cells(a, g),
        forall|v: u32| 1 <= v <= 9 ==> #[trigger] a.definite_values.counts@[v - 1] == g.definite_values.counts@[v - 1],
    ensures
        forall|c: int, r: int| #[trigger] wing_target(a, by_cols, number, c, r) == wing_target(g, by_cols, number, c, r),
        wing_active(a, by_cols, number) == wing_active(g, by_cols, number),
{
    lemma_same_cells_table(a, g, by_cols, number, 9);
    assert(wing_pairs(a, by_cols, number) == wing_pairs(g, by_cols, number));
    assert forall|q: int, c: int, r: int| #[trigger] pair_target(a, by_cols, number, q, c, r) == pair_target(g, by_cols, number, q, c, r) by {
        if 0 <= q < wing_pairs(g, by_cols, number).len() && 0 <= r < 9 && wing_pairs(g, by_cols, number)[q].len() > 0 {
            lemma_pair_lines(g, by_cols, number, q);
            lemma_same_cells_takers(a, g, by_cols, r, number, 9);
            lemma_same_cells_takers(a, g, by_cols, wing_pairs(g, by_cols, number)[q][0] as int, number, 9);
        }
    }
    assert forall|c: int, r: int| #[trigger] wing_target(a, by_cols, number, c, r) == wing_target(g, by_cols, number, c, r) by {
        if wing_target(a, by_cols, number, c, r) {
            let q = choose|q: int| pair_target(a, by_cols, number, q, c, r);
            assert(pair_target(g, by_cols, number, q, c, r));
        }
        if wing_target(g, by_cols, number, c, r) {
            let q = choose|q: int| pair_target(g, by_cols, number, q, c, r);
            assert(pair_target(a, by_cols, number, q, c, r));
        }
    }
    if wing_active(a, by_cols, number) {
        let (c, r) = choose|c: int, r: int| wing_target(a, by_cols, number, c, r);
        assert(wing_target(g, by_cols, number, c, r));
    }
    if wing_active(g, by_cols, number) {
        let (c, r) = choose|c: int, r: int| wing_target(g, by_cols, number, c, r);
        assert(wing_target(a, by_cols, number, c, r));
    }
}

/// A value for which the x-wing acts leads to a first such value.
pub proof fn lemma_first_wing(g: SudokuGrid, by_cols: bool, n: u32)
    requires
        wing_active(g, by_cols, n),
    ensures
        exists|n0: u32| 1 <= n0 <= n && first_wing(g, by_cols, n0),
    decreases n,
{
    if exists|m: u32| 1 <= m < n && wing_active(g, by_cols, m) {
        let m = choose|m: u32| 1 <= m < n && wing_active(g, by_cols, m);
        lemma_first_wing(g, by_cols, m);
    } else {
        assert(first_wing(g, by_cols, n));
    }
}

/// An x-wing target is an open cell that can take the value: it is not cleared.
pub proof fn lemma_target_open(g: SudokuGrid, by_cols: bool, number: u32, c: int, r: int)
    requires
        g.wf(),
        wing_target(g, by_cols, number, c, r),
        1 <= number <= 9,
    ensures
        !cleared_on(g, by_cols, c, r, number),
{
    let q = choose|q: int| pair_target(g, by_cols, number, q, c, r);
    lemma_row_takers(g, by_cols, r, number, 9);
    let cell = line_cell(g, by_cols, r, c);
    assert(!cell.defined && cell.possible_values().contains(number));
    assert(cell.wf());
    lemma_values_with(cell.states@, ValueStatus::Possible, 9);
    assert(cell == g.cell(spot_x(by_cols, r, c), spot_y(by_cols, r, c)));
}

/// Whether two position lists are the same.
pub fn same_positions(a: &Vec<usize>, b: &Vec<usize>) -> (r: bool)
    ensures
        r == (a@ == b@),
{
    if a.len() != b.len() {
        return false;
    }
    let mut i: usize = 0;
    while i < a.len()
        invariant
            a@.len() == b@.len(),
            i <= a@.len(),
            forall|j: int| 0 <= j < i ==> a@[j] == b@[j],
        decreases a.len() - i,
    {
        if a[i] != b[i] {
            return false;
        }
        i += 1;
    }
    assert(a@ =~= b@);
    true
}

/// A copy of a list of positions.
pub fn copy_positions(v: &Vec<usize>) -> (r: Vec<usize>)
    ensures
        r@ == v@,
{
    let mut r: Vec<usize> = Vec::new();
    let mut i: usize = 0;
    while i < v.len()
        invariant
            i <= v.len(),
            r@ == v@.subrange(0, i as int),
        decreases v.len() - i,
    {
        r.push(v[i]);
        assert(r@ =~= v@.subrange(0, i + 1));
        i += 1;
    }
    assert(r@ =~= v@);
    r
}

/// Whether any group of `groups` holds `line`.
pub fn in_some_group(groups: &Vec<Vec<usize>>, line: usize) -> (r: bool)
    ensures
        r == exists|g: int| 0 <= g < groups@.len() && (#[trigger] groups@[g])@.contains(line),
{
    let mut i: usize = 0;
    while i < groups.len()
        invariant
            i <= groups@.len(),
            forall|g: int| 0 <= g < i ==> !(#[trigger] groups@[g])@.contains(line),
        decreases groups.len() - i,
    {
        if contains_usize(&groups[i], line) {
            return true;
        }
        i += 1;
    }
    false
}

/// The positions listed for `key` (empty when `key` is not a line of the table).
pub fn lookup_line(table: &LineTable, key: usize) -> (r: Vec<usize>)
    ensures
        line_keys(lines_view(table@)).contains(key) ==> exists|i: int| 0 <= i < table@.len() && table@[i].0 == key && r@ == table@[i].1@,
        !line_keys(lines_view(table@)).contains(key) ==> r@.len() == 0,
{
    let mut i: usize = 0;
    while i < table.len()
        invariant
            i <= table@.len(),
            forall|j: int| 0 <= j < i ==> table@[j].0 != key,
        decreases table.len() - i,
    {
        if table[i].0 == key {
            proof { assert(line_keys(lines_view(table@))[i as int] == key); }
            return copy_positions(&table[i].1);
        }
        i += 1;
    }
    proof {
        if line_keys(lines_view(table@)).contains(key) {
            let k = choose|k: int| 0 <= k < line_keys(lines_view(table@)).len() && line_keys(lines_view(table@))[k] == key;
            assert(table@[k].0 == key);
        }
    }
    Vec::new()
}

impl SudokuGrid {
    /// Keeps only the groups of exactly two lines, in order.
    pub fn trim_matches(&self, matches: Vec<Vec<usize>>) -> (r: Vec<Vec<usize>>)
        ensures
            r@ == matches@.filter(|g: Vec<usize>| g@.len() == 2),
    {
        let ghost orig = matches@;
        let mut matches = matches;
        let mut match_len = matches.len();
        let mut i: usize = 0;
        let ghost mut k: int = 0;
        while i < match_len
            invariant
                match_len == matches@.len(),
                0 <= k <= orig.len(),
                i <= match_len,
                matches@ == orig.take(k).filter(|g: Vec<usize>| g@.len() == 2) + orig.skip(k),
                i == orig.take(k).filter(|g: Vec<usize>| g@.len() == 2).len(),
            decreases orig.len() - k,
        {
            let ghost kept = orig.take(k).filter(|g: Vec<usize>| g@.len() == 2);
            proof {
                assert(orig.take(k + 1).drop_last() =~= orig.take(k));
                reveal_with_fuel(Seq::filter, 1);
                assert(matches@[i as int] == orig[k]);
            }
            if matches[i].len() == 2 {
                i += 1;
                proof {
                    k = k + 1;
                    assert(matches@ =~= orig.take(k).filter(|g: Vec<usize>| g@.len() == 2) + orig.skip(k));
                }
                continue;
            }
            matches.remove(i);
            match_len = matches.len();
            proof {
                k = k + 1;
                assert(matches@ =~= orig.take(k).filter(|g: Vec<usize>| g@.len() == 2) + orig.skip(k));
            }
        }
        proof {
            assert(orig.skip(k).len() == 0);
            assert(orig.take(k) =~= orig);
            assert(matches@ =~= orig.filter(|g: Vec<usize>| g@.len() == 2));
        }
        matches
    }

    /// Groups lines with the same two positions: a line with two positions that no earlier
    /// line shares gets a group made of the later lines with the same positions, in order,
    /// then itself, when there is at least one such later line.
    pub fn get_matched_lines(&self, lines: LineTable) -> (r: Vec<Vec<usize>>)
        requires
            line_keys(lines_view(lines@)).no_duplicates(),
        ensures
            group_views(r@) == matched_lines(lines_view(lines@), lines@.len()),
            lines_within(r@, line_keys(lines_view(lines@))),
    {
        let ghost lv = lines_view(lines@);
        let mut matches: Vec<Vec<usize>> = Vec::new();
        let mut i: usize = 0;
        while i < lines.len()
            invariant
                lv == lines_view(lines@),
                i <= lv.len(),
                line_keys(lv).no_duplicates(),
                lines_within(matches@, line_keys(lv)),
                group_views(matches@) == matched_lines(lv, i as nat),
            decreases lines.len() - i,
        {
            let line = lines[i].0;
            let coords = &lines[i].1;
            proof { assert(line_keys(lv)[i as int] == line); }
            if coords.len() != 2 {
                proof {
                    assert(!group_leader(lv, i as int));
                    assert(group_views(matches@) =~= matched_lines(lv, (i + 1) as nat));
                }
                i += 1;
                continue;
            }
            if in_some_group(&matches, line) {
                proof {
                    lemma_in_group(lv, i as nat);
                    let q = choose|q: int| 0 <= q < matches@.len() && (#[trigger] matches@[q])@.contains(line);
                    assert(group_views(matches@)[q] == matches@[q]@);
                    assert(matched_lines(lv, i as nat)[q].contains(line));
                    assert(line == lv[i as int].0);
                    assert(0 <= q < matched_lines(lv, i as nat).len());
                    assert(exists|q2: int| 0 <= q2 < matched_lines(lv, i as nat).len()
                        && (#[trigger] matched_lines(lv, i as nat)[q2]).contains(lv[i as int].0));
                    let j = choose|j: int| 0 <= j < i && lv[j].1 == lv[i as int].1;
                    assert(!group_leader(lv, i as int));
                    assert(group_views(matches@) =~= matched_lines(lv, (i + 1) as nat));
                }
                i += 1;
                continue;
            }
            proof {
                lemma_in_group(lv, i as nat);
                assert forall|j: int| 0 <= j < i implies lv[j].1 != lv[i as int].1 by {
                    if lv[j].1 == lv[i as int].1 {
                        let q = choose|q: int| 0 <= q < matched_lines(lv, i as nat).len()
                            && (#[trigger] matched_lines(lv, i as nat)[q]).contains(line);
                        assert(matches@[q]@ == group_views(matches@)[q]);
                        assert(matches@[q]@.contains(line));
                    }
                }
            }
            let mut add_line = false;
            let mut coords_vec: Vec<usize> = Vec::new();
            let mut j: usize = i + 1;
            while j < lines.len()
                invariant
                    lv == lines_view(lines@),
                    i < j <= lv.len(),
                    coords@ == lv[i as int].1,
                    forall|e: int| 0 <= e < coords_vec@.len() ==> line_keys(lv).contains(#[trigger] coords_vec@[e]),
                    coords_vec@ == later_keys(lv, i as int, j as int),
                    add_line == (coords_vec@.len() > 0),
                decreases lines.len() - j,
            {
                if same_positions(&lines[j].1, coords) {
                    proof { assert(line_keys(lv)[j as int] == lv[j as int].0); }
                    coords_vec.push(lines[j].0);
                    add_line = true;
                }
                j += 1;
            }
            if add_line {
                coords_vec.push(line);
                let ghost before = matches@;
                matches.push(coords_vec);
                proof {
                    assert forall|g: int, e: int| 0 <= g < matches@.len() && 0 <= e < matches@[g]@.len()
                        implies line_keys(lv).contains(#[trigger] matches@[g]@[e]) by {
                        if g < before.len() {
                            assert(matches@[g] == before[g]);
                        }
                    }
                    assert(group_leader(lv, i as int));
                    assert(group_views(matches@) =~= matched_lines(lv, (i + 1) as nat));
                }
            } else {
                proof {
                    assert(!group_leader(lv, i as int));
                    assert(group_views(matches@) =~= matched_lines(lv, (i + 1) as nat));
                }
            }
            i += 1;
        }
        matches
    }

    /// One x-wing pass over rows, or over columns when `by_cols`: for each value not yet
    /// placed nine times (stopping after the first value for which something was struck),
    /// finds pairs of lines in which the value can go at exactly the same two positions, and
    /// strikes it at those positions in every other line. Reports whether it struck anything.
    pub fn wing_pass(&mut self, by_cols: bool) -> (r: Result<bool, SolveError>)
        requires
            old(self).wf(),
        ensures
            r matches Err(e) ==> e == SolveError::CellEmptied,
            r is Err ==> emptiable(*final(self)),
            final(self).wf(),
            shrinks(*old(self), *final(self)),
            r is Ok ==> narrows(*old(self), *final(self)),
            old(self).at_home() && settled(*old(self)) ==> forall|sol: Seq<Seq<u32>>| is_solution(sol) && #[trigger] agrees(*old(self), sol)
                ==> r is Ok && agrees(*final(self), sol),
            r is Ok ==> forall|n: u32, c: int, row: int| first_wing(*old(self), by_cols, n) && #[trigger] wing_target(*old(self), by_cols, n, c, row)
                ==> cleared_on(*final(self), by_cols, c, row, n),
            (forall|n: u32| 1 <= n <= 9 ==> !#[trigger] wing_active(*old(self), by_cols, n)) ==> r == Ok::<bool, SolveError>(false) && *final(self) == *old(self),
            r matches Ok(changed) ==> changed == exists|n: u32| 1 <= n <= 9 && #[trigger] wing_active(*old(self), by_cols, n),
            r is Ok ==> x_wings_cleared(*old(self), *final(self), by_cols),
    {
        proof { lemma_narrows_refl(*self); }
        let ghost ctx = old(self).at_home() && settled(*old(self));
        let mut changed = false;
        let mut number: u32 = 1;
        while number < GRID_SIZE_I + 1
            invariant
                self.wf(),
                narrows(*old(self), *self),
                1 <= number <= 10,
                ctx == (old(self).at_home() && settled(*old(self))),
                ctx ==> settled(*self) && self.at_home(),
                ctx ==> forall|sol: Seq<Seq<u32>>| is_solution(sol) && #[trigger] agrees(*old(self), sol) ==> agrees(*self, sol),
                !changed ==> *self == *old(self),
                !changed ==> forall|m: u32| 1 <= m < number ==> !#[trigger] wing_active(*old(self), by_cols, m),
                changed ==> exists|n0: u32| 1 <= n0 < number && first_wing(*old(self), by_cols, n0)
                    && forall|c: int, r: int| #[trigger] wing_target(*old(self), by_cols, n0, c, r) ==> cleared_on(*self, by_cols, c, r, n0),
            ensures
                !changed ==> number == 10,
            decreases 10 - number,
        {
            if changed {
                break;
            }
            if self.get_def_val_ct()[(number - 1) as usize] == GRID_SIZE_I {
                proof {
                    assert forall|m: u32| 1 <= m < number + 1 implies !#[trigger] wing_active(*old(self), by_cols, m) by {
                        if m == number {
                            assert(old(self).definite_values.counts@[number - 1] == 9);
                        }
                    }
                }
                number += 1;
                continue;
            }
            let ghost g1 = *self;
            let mut row_coords: LineTable = Vec::new();
            let mut row: usize = 0;
            while row < GRID_SIZE
                invariant
                    row <= 9,
                    g1 == *self,
                    1 <= number <= 9,
                    forall|i: int| 0 <= i < row_coords@.len() ==> (#[trigger] row_coords@[i]).0 < row,
                    forall|i: int, j: int| 0 <= i < j < row_coords@.len() ==> row_coords@[i].0 < row_coords@[j].0,
                    forall|i: int, e: int| 0 <= i < row_coords@.len() && 0 <= e < row_coords@[i].1@.len() ==> #[trigger] row_coords@[i].1@[e] < 9,
                    forall|i: int| 0 <= i < row_coords@.len() ==> #[trigger] takers(g1, by_cols, row_coords@[i].0 as int, number, row_coords@[i].1@),
                    lines_view(row_coords@) == row_table(g1, by_cols, number, row as int),
                decreases 9 - row,
            {
                let mut cols: Vec<usize> = Vec::new();
                let mut col: usize = 0;
                while col < GRID_SIZE
                    invariant
                        row < 9,
                        col <= 9,
                        g1 == *self,
                        forall|e: int| 0 <= e < cols@.len() ==> #[trigger] cols@[e] < col,
                        forall|e: int, f: int| 0 <= e < f < cols@.len() ==> cols@[e] < cols@[f],
                        forall|c: int| 0 <= c < col ==> (cols@.contains(c as usize)
                            <==> (!line_cell(g1, by_cols, row as int, c).defined && line_cell(g1, by_cols, row as int, c).possible_values().contains(number))),
                        forall|e: int| 0 <= e < cols@.len() ==> #[trigger] cols@[e] < 9,
                        cols@ == row_takers(g1, by_cols, row as int, number, col as int),
                    decreases 9 - col,
                {
                    let ghost before_cols = cols@;
                    let here = if by_cols { self.grid[col][row] } else { self.grid[row][col] };
                    if !here.defined && contains_u32(&here.get_possible(), number) {
                        cols.push(col);
                        proof {
                            assert(row_takers(g1, by_cols, row as int, number, col + 1) == before_cols.push(col));
                        }
                    }
                    proof {
                        assert forall|c: int| 0 <= c < col + 1 implies (cols@.contains(c as usize)
                            <==> (!line_cell(g1, by_cols, row as int, c).defined && line_cell(g1, by_cols, row as int, c).possible_values().contains(number))) by {
                            if c < col {
                                if cols@.contains(c as usize) && cols@.len() > before_cols.len() {
                                    let k = choose|k: int| 0 <= k < cols@.len() && cols@[k] == c as usize;
                                    if k < before_cols.len() {
                                        assert(before_cols[k] == c as usize);
                                    }
                                }
                                if before_cols.contains(c as usize) {
                                    let k = choose|k: int| 0 <= k < before_cols.len() && before_cols[k] == c as usize;
                                    assert(cols@[k] == c as usize);
                                }
                            } else {
                                if cols@.len() > before_cols.len() {
                                    assert(cols@[cols@.len() - 1] == col);
                                } else if cols@.contains(c as usize) {
                                    let k = choose|k: int| 0 <= k < cols@.len() && cols@[k] == c as usize;
                                    assert(before_cols[k] < col);
                                }
                            }
                        }
                    }
                    col += 1;
                }
                let ghost before_rows = row_coords@;
                if cols.len() > 0 {
                    let ghost before = row_coords@;
                    proof {
                        assert forall|c: int| 0 <= c < 9 && !line_cell(g1, by_cols, row as int, c).defined && line_cell(g1, by_cols, row as int, c).possible_values().contains(number)
                            implies cols@.contains(c as usize) by {}
                        assert forall|e: int| 0 <= e < cols@.len() implies !line_cell(g1, by_cols, row as int, cols@[e] as int).defined
                            && line_cell(g1, by_cols, row as int, cols@[e] as int).possible_values().contains(number) by {
                            assert(cols@.contains(cols@[e]));
                        }
                    }
                    row_coords.push((row, cols));
                    proof {
                        assert forall|i: int, e: int| 0 <= i < row_coords@.len() && 0 <= e < row_coords@[i].1@.len()
                            implies #[trigger] row_coords@[i].1@[e] < 9 by {
                            if i < before.len() {
                                assert(row_coords@[i] == before[i]);
                            }
                        }
                        assert forall|i: int| 0 <= i < row_coords@.len() implies #[trigger] takers(g1, by_cols, row_coords@[i].0 as int, number, row_coords@[i].1@) by {
                            if i < before.len() {
                                assert(row_coords@[i] == before[i]);
                            }
                        }
                    }
                }
                proof {
                    if cols@.len() > 0 {
                        assert(lines_view(row_coords@) =~= lines_view(before_rows).push((row as usize, cols@)));
                    }
                    assert(lines_view(row_coords@) =~= row_table(g1, by_cols, number, row + 1));
                }
                row += 1;
            }

            let table_copy = copy_table(&row_coords);
            proof {
                assert forall|i: int, j: int| 0 <= i < line_keys(lines_view(table_copy@)).len() && 0 <= j < line_keys(lines_view(table_copy@)).len() && i != j
                    implies line_keys(lines_view(table_copy@))[i] != line_keys(lines_view(table_copy@))[j] by {
                    if i < j {
                        assert(row_coords@[i].0 < row_coords@[j].0);
                    } else {
                        assert(row_coords@[j].0 < row_coords@[i].0);
                    }
                }
            }
            let ghost lines = lines_view(table_copy@);
            proof {
                assert(lines =~= lines_view(row_coords@));
                assert(lines == row_table(g1, by_cols, number, 9));
                lemma_row_table(g1, by_cols, number, 9);
            }
            let grouped = self.get_matched_lines(table_copy);
            let matches = self.trim_matches(grouped);
            proof {
                lemma_filter_views(grouped@);
                assert(group_views(matches@) == wing_pairs(g1, by_cols, number));
            }

            let mut m: usize = 0;
            while m < matches.len()
                invariant
                    self.wf(),
                    narrows(*old(self), *self),
                    1 <= number <= 9,
                    m <= matches@.len(),
                    matches@ == grouped@.filter(|g: Vec<usize>| g@.len() == 2),
                    lines_within(grouped@, line_keys(lines_view(row_coords@))),
                    group_views(grouped@) == matched_lines(lines, lines.len()),
                    lines.len() == row_coords@.len(),
                    forall|i: int| 0 <= i < row_coords@.len() ==> (#[trigger] lines[i]).0 == row_coords@[i].0 && lines[i].1 == row_coords@[i].1@,
                    forall|i: int, j: int| 0 <= i < j < row_coords@.len() ==> row_coords@[i].0 < row_coords@[j].0,
                    forall|i: int, e: int| 0 <= i < row_coords@.len() && 0 <= e < row_coords@[i].1@.len() ==> #[trigger] row_coords@[i].1@[e] < 9,
                    forall|i: int| 0 <= i < row_coords@.len() ==> #[trigger] takers(g1, by_cols, row_coords@[i].0 as int, number, row_coords@[i].1@),
                    forall|i: int| 0 <= i < row_coords@.len() ==> (#[trigger] row_coords@[i]).0 < 9,
                    ctx == (old(self).at_home() && settled(*old(self))),
                    ctx ==> settled(g1) && g1.wf() && settled(*self) && self.at_home(),
                    ctx ==> forall|sol: Seq<Seq<u32>>| is_solution(sol) && #[trigger] agrees(*old(self), sol) ==> agrees(*self, sol) && agrees(g1, sol),
                    g1 == *old(self),
                    old(self).definite_values.counts@[number - 1] != 9,
                    lines == row_table(g1, by_cols, number, 9),
                    lines_view(row_coords@) == lines,
                    group_views(matches@) == wing_pairs(g1, by_cols, number),
                    !changed ==> *self == g1,
                    changed ==> exists|q: int, c: int, r: int| pair_target(g1, by_cols, number, q, c, r),
                    !changed ==> forall|q: int, c: int, r: int| 0 <= q < m ==> !#[trigger] pair_target(g1, by_cols, number, q, c, r),
                    forall|q: int, c: int, r: int| 0 <= q < m && #[trigger] pair_target(g1, by_cols, number, q, c, r) ==> cleared_on(*self, by_cols, c, r, number),
                decreases matches.len() - m,
            {
                let rows = &matches[m];
                let ghost ia: int;
                let ghost ib: int;
                proof {
                    assert(group_views(matches@)[m as int] == rows@);
                    grouped@.lemma_filter_pred(|g: Vec<usize>| g@.len() == 2, m as int);
                    grouped@.lemma_filter_contains_rev(|g: Vec<usize>| g@.len() == 2, matches@[m as int]);
                    let gi = choose|gi: int| 0 <= gi < grouped@.len() && grouped@[gi] == matches@[m as int];
                    assert(line_keys(lines_view(row_coords@)).contains(grouped@[gi]@[0]));
                    lemma_matched_lines(lines, lines.len() as nat);
                    assert(group_views(grouped@)[gi] == grouped@[gi]@);
                    assert(leaders_group(lines, lines.len() as nat, matched_lines(lines, lines.len() as nat)[gi]));
                    lemma_pair_group(lines, rows@);
                    let (i0, j0) = choose|i: int, j: int| 0 <= i < lines.len() && 0 <= j < lines.len() && i != j
                        && lines[i].0 == rows@[0] && lines[j].0 == rows@[1]
                        && lines[i].1 == lines[j].1 && lines[j].1.len() == 2;
                    ia = i0;
                    ib = j0;
                }
                let mut row: usize = 0;
                while row < GRID_SIZE
                    invariant
                        self.wf(),
                        narrows(*old(self), *self),
                        row <= 9,
                        1 <= number <= 9,
                        rows@.len() == 2,
                        line_keys(lines_view(row_coords@)).contains(rows@[0]),
                        forall|i: int, e: int| 0 <= i < row_coords@.len() && 0 <= e < row_coords@[i].1@.len() ==> #[trigger] row_coords@[i].1@[e] < 9,
                        forall|i: int, j: int| 0 <= i < j < row_coords@.len() ==> row_coords@[i].0 < row_coords@[j].0,
                        forall|i: int| 0 <= i < row_coords@.len() ==> #[trigger] takers(g1, by_cols, row_coords@[i].0 as int, number, row_coords@[i].1@),
                        forall|i: int| 0 <= i < row_coords@.len() ==> (#[trigger] row_coords@[i]).0 < 9,
                        0 <= ia < row_coords@.len(),
                        0 <= ib < row_coords@.len(),
                        ia != ib,
                        row_coords@[ia].0 == rows@[0],
                        row_coords@[ib].0 == rows@[1],
                        row_coords@[ia].1@ == row_coords@[ib].1@,
                        row_coords@[ib].1@.len() == 2,
                        ctx == (old(self).at_home() && settled(*old(self))),
                        ctx ==> settled(g1) && g1.wf() && settled(*self) && self.at_home(),
                        ctx ==> forall|sol: Seq<Seq<u32>>| is_solution(sol) && #[trigger] agrees(*old(self), sol) ==> agrees(*self, sol) && agrees(g1, sol),
                        g1 == *old(self),
                        old(self).definite_values.counts@[number - 1] != 9,
                        m < matches@.len(),
                        matches@.len() == wing_pairs(g1, by_cols, number).len(),
                        rows@ == wing_pairs(g1, by_cols, number)[m as int],
                        lines_view(row_coords@) == row_table(g1, by_cols, number, 9),
                        !changed ==> *self == g1,
                        changed ==> exists|q: int, c: int, r: int| pair_target(g1, by_cols, number, q, c, r),
                        !changed ==> forall|q: int, c: int, r: int| (0 <= q < m || (q == m && r < row)) ==> !#[trigger] pair_target(g1, by_cols, number, q, c, r),
                        forall|q: int, c: int, r: int| (0 <= q < m || (q == m && r < row)) && #[trigger] pair_target(g1, by_cols, number, q, c, r) ==> cleared_on(*self, by_cols, c, r, number),
                    decreases 9 - row,
                {
                    if contains_usize(rows, row) {
                        proof {
                            assert forall|q: int, c: int, r: int| (0 <= q < m || (q == m && r < row + 1)) && #[trigger] pair_target(g1, by_cols, number, q, c, r)
                                implies cleared_on(*self, by_cols, c, r, number) by {
                                if q == m && r == row {
                                    assert(rows@.contains(row as usize));
                                }
                            }
                            assert forall|q: int, c: int, r: int| !changed && (0 <= q < m || (q == m && r < row + 1)) implies !#[trigger] pair_target(g1, by_cols, number, q, c, r) by {
                                if q == m && r == row {
                                    assert(rows@.contains(row as usize));
                                }
                            }
                        }
                        row += 1;
                        continue;
                    }
                    if !line_keys_contain(&row_coords, row) {
                        proof {
                            lemma_row_table(g1, by_cols, number, 9);
                            assert(row_takers(g1, by_cols, row as int, number, 9).len() == 0);
                            assert forall|q: int, c: int, r: int| (0 <= q < m || (q == m && r < row + 1)) && #[trigger] pair_target(g1, by_cols, number, q, c, r)
                                implies cleared_on(*self, by_cols, c, r, number) by {
                                if q == m && r == row {
                                    assert(!row_takers(g1, by_cols, row as int, number, 9).contains(c as usize));
                                }
                            }
                            assert forall|q: int, c: int, r: int| !changed && (0 <= q < m || (q == m && r < row + 1)) implies !#[trigger] pair_target(g1, by_cols, number, q, c, r) by {
                                if q == m && r == row {
                                    assert(!row_takers(g1, by_cols, row as int, number, 9).contains(c as usize));
                                }
                            }
                        }
                        row += 1;
                        continue;
                    }
                    let target = lookup_line(&row_coords, row);
                    let target_columns = lookup_line(&row_coords, rows[0]);
                    proof {
                        let ti = choose|ti: int| 0 <= ti < row_coords@.len() && row_coords@[ti].0 == row && target@ == row_coords@[ti].1@;
                        assert forall|e: int| 0 <= e < target@.len() implies #[trigger] target@[e] < 9 by {
                            assert(target@[e] == row_coords@[ti].1@[e]);
                        }
                        let tc = choose|tc: int| 0 <= tc < row_coords@.len() && row_coords@[tc].0 == rows@[0] && target_columns@ == row_coords@[tc].1@;
                        if tc != ia {
                            if tc < ia {
                                assert(row_coords@[tc].0 < row_coords@[ia].0);
                            } else {
                                assert(row_coords@[ia].0 < row_coords@[tc].0);
                            }
                        }
                        assert(target_columns@ == row_coords@[ia].1@);
                        assert(row != rows@[0] && row != rows@[1]) by {
                            assert(rows@.contains(rows@[0]) && rows@.contains(rows@[1]));
                        }
                        lemma_row_table(g1, by_cols, number, 9);
                        assert(lines_view(row_coords@)[ti] == (row_coords@[ti].0, row_coords@[ti].1@));
                        assert(target@ == row_takers(g1, by_cols, row as int, number, 9));
                        assert(lines_view(row_coords@)[tc] == (row_coords@[tc].0, row_coords@[tc].1@));
                        assert(target_columns@ == row_takers(g1, by_cols, rows@[0] as int, number, 9));
                        assert(!rows@.contains(row as usize));
                    }
                    let mut t: usize = 0;
                    while t < target.len()
                        invariant
                            self.wf(),
                            narrows(*old(self), *self),
                            row < 9,
                            1 <= number <= 9,
                            t <= target@.len(),
                            forall|e: int| 0 <= e < target@.len() ==> #[trigger] target@[e] < 9,
                            target_columns@ == row_coords@[ia].1@,
                            0 <= ia < row_coords@.len(),
                            0 <= ib < row_coords@.len(),
                            row != rows@[0] && row != rows@[1],
                            row_coords@[ia].0 == rows@[0],
                            row_coords@[ib].0 == rows@[1],
                            rows@[0] != rows@[1],
                            row_coords@[ia].1@ == row_coords@[ib].1@,
                            row_coords@[ib].1@.len() == 2,
                            forall|i: int, e: int| 0 <= i < row_coords@.len() && 0 <= e < row_coords@[i].1@.len() ==> #[trigger] row_coords@[i].1@[e] < 9,
                            forall|i: int| 0 <= i < row_coords@.len() ==> #[trigger] takers(g1, by_cols, row_coords@[i].0 as int, number, row_coords@[i].1@),
                            forall|i: int| 0 <= i < row_coords@.len() ==> (#[trigger] row_coords@[i]).0 < 9,
                            ctx == (old(self).at_home() && settled(*old(self))),
                            ctx ==> settled(g1) && g1.wf() && settled(*self) && self.at_home(),
                            ctx ==> forall|sol: Seq<Seq<u32>>| is_solution(sol) && #[trigger] agrees(*old(self), sol) ==> agrees(*self, sol) && agrees(g1, sol),
                            g1 == *old(self),
                            old(self).definite_values.counts@[number - 1] != 9,
                            m < matches@.len(),
                            matches@.len() == wing_pairs(g1, by_cols, number).len(),
                            rows@ == wing_pairs(g1, by_cols, number)[m as int],
                            target@ == row_takers(g1, by_cols, row as int, number, 9),
                            target_columns@ == row_takers(g1, by_cols, rows@[0] as int, number, 9),
                            !rows@.contains(row as usize),
                            !changed ==> *self == g1,
                            changed ==> exists|q: int, c: int, r: int| pair_target(g1, by_cols, number, q, c, r),
                            !changed ==> forall|q: int, c: int, r: int| (0 <= q < m || (q == m && r < row)) ==> !#[trigger] pair_target(g1, by_cols, number, q, c, r),
                            forall|q: int, c: int, r: int| (0 <= q < m || (q == m && r < row)) && #[trigger] pair_target(g1, by_cols, number, q, c, r) ==> cleared_on(*self, by_cols, c, r, number),
                            forall|e: int| 0 <= e < t && target_columns@.contains(#[trigger] target@[e]) ==> cleared_on(*self, by_cols, target@[e] as int, row as int, number),
                            !changed ==> forall|e: int| 0 <= e < t ==> !target_columns@.contains(#[trigger] target@[e]),
                        decreases target.len() - t,
                    {
                        let column = target[t];
                        if !contains_usize(&target_columns, column) {
                            t += 1;
                            continue;
                        }
                        let ghost before = *self;
                        proof {
                            lemma_row_takers(g1, by_cols, row as int, number, 9);
                            assert(target@[t as int] == column);
                            assert(column < 9);
                            assert(pair_target(g1, by_cols, number, m as int, column as int, row as int)) by {
                                assert(target@.contains(column));
                                assert(target_columns@.contains(column));
                            }
                            assert(wing_target(*old(self), by_cols, number, column as int, row as int));
                            assert(wing_active(*old(self), by_cols, number));
                            if ctx {
                                let p = row_coords@[ia].1@;
                                assert(takers(g1, by_cols, rows@[0] as int, number, p));
                                assert(takers(g1, by_cols, rows@[1] as int, number, p));
                                assert(p[0] != p[1]) by {
                                    assert(takers(g1, by_cols, row_coords@[ib].0 as int, number, row_coords@[ib].1@));
                                }
                                assert(p.contains(p[0]));
                                assert forall|sol: Seq<Seq<u32>>| is_solution(sol) && #[trigger] agrees(*old(self), sol)
                                    implies sol[spot_y(by_cols, row as int, column as int)][spot_x(by_cols, row as int, column as int)] != number by {
                                    assert(agrees(g1, sol));
                                    lemma_x_wing(g1, by_cols, sol, number, rows@[0] as int, rows@[1] as int, p, row as int, column as int);
                                }
                            }
                        }
                        let (ex, ey) = if by_cols { (row as u32, column as u32) } else { (column as u32, row as u32) };
                        match self.eliminate(ex, ey, number) {
                            Ok(()) => {},
                            Err(e) => {
                                proof {
                                    lemma_shrinks_trans(*old(self), before, *self);
                                    if ctx {
                                        assert forall|sol: Seq<Seq<u32>>| is_solution(sol) && #[trigger] agrees(*old(self), sol) implies false by {
                                            assert(agrees(before, sol));
                                        }
                                    }
                                }
                                return Err(e);
                            },
                        }
                        proof {
                            lemma_narrows_trans(*old(self), before, *self);
                            assert forall|q: int, c: int, r: int| (0 <= q < m || (q == m && r < row)) && #[trigger] pair_target(g1, by_cols, number, q, c, r)
                                implies cleared_on(*self, by_cols, c, r, number) by {
                                lemma_row_takers(g1, by_cols, r, number, 9);
                                assert(row_takers(g1, by_cols, r, number, 9).contains(c as usize));
                                lemma_cleared_on_stays(before, *self, by_cols, c, r, number);
                            }
                            assert forall|e: int| 0 <= e < t + 1 && target_columns@.contains(#[trigger] target@[e]) implies cleared_on(*self, by_cols, target@[e] as int, row as int, number) by {
                                if e < t {
                                    lemma_cleared_on_stays(before, *self, by_cols, target@[e] as int, row as int, number);
                                }
                            }
                            if ctx {
                                lemma_settled_narrows(before, *self);
                                assert forall|sol: Seq<Seq<u32>>| is_solution(sol) && #[trigger] agrees(*old(self), sol)
                                    implies agrees(*self, sol) && agrees(g1, sol) by {
                                    assert(agrees(before, sol));
                                }
                            }
                        }
                        changed = true;
                        t += 1;
                    }
                    proof {
                        lemma_row_takers(g1, by_cols, row as int, number, 9);
                        assert forall|q: int, c: int, r: int| (0 <= q < m || (q == m && r < row + 1)) && #[trigger] pair_target(g1, by_cols, number, q, c, r)
                            implies cleared_on(*self, by_cols, c, r, number) by {
                            if q == m && r == row {
                                let e = choose|e: int| 0 <= e < target@.len() && target@[e] == c as usize;
                                assert(target_columns@.contains(target@[e]));
                                assert(target@[e] as int == c);
                            }
                        }
                        assert forall|q: int, c: int, r: int| !changed && (0 <= q < m || (q == m && r < row + 1)) implies !#[trigger] pair_target(g1, by_cols, number, q, c, r) by {
                            if q == m && r == row && pair_target(g1, by_cols, number, q, c, r) {
                                let e = choose|e: int| 0 <= e < target@.len() && target@[e] == c as usize;
                                assert(target_columns@.contains(target@[e]));
                            }
                        }
                    }
                    row += 1;
                }
                proof {
                    assert forall|q: int, c: int, r: int| 0 <= q < m + 1 && #[trigger] pair_target(g1, by_cols, number, q, c, r)
                        implies cleared_on(*self, by_cols, c, r, number) by {
                        if q == m {
                            assert(r < 9);
                        }
                    }
                    assert forall|q: int, c: int, r: int| !changed && 0 <= q < m + 1 implies !#[trigger] pair_target(g1, by_cols, number, q, c, r) by {
                        if q == m && pair_target(g1, by_cols, number, q, c, r) {
                            assert(r < 9);
                        }
                    }
                }
                m += 1;
            }
            proof {
                assert forall|c: int, r: int| #[trigger] wing_target(g1, by_cols, number, c, r) implies cleared_on(*self, by_cols, c, r, number) by {
                    let q = choose|q: int| pair_target(g1, by_cols, number, q, c, r);
                }
                if changed {
                    let (q0, c0, r0) = choose|q: int, c: int, r: int| pair_target(g1, by_cols, number, q, c, r);
                    assert(wing_target(g1, by_cols, number, c0, r0));
                    assert(wing_active(g1, by_cols, number));
                    assert(first_wing(*old(self), by_cols, number));
                } else {
                    assert forall|c: int, r: int| !wing_target(g1, by_cols, number, c, r) by {
                        if wing_target(g1, by_cols, number, c, r) {
                            let q = choose|q: int| pair_target(g1, by_cols, number, q, c, r);
                        }
                    }
                    assert forall|m2: u32| 1 <= m2 < number + 1 implies !#[trigger] wing_active(*old(self), by_cols, m2) by {}
                }
            }
            number += 1;
        }
        proof {
            if changed {
                let n0 = choose|n0: u32| 1 <= n0 < number && first_wing(*old(self), by_cols, n0)
                    && forall|c: int, r: int| #[trigger] wing_target(*old(self), by_cols, n0, c, r) ==> cleared_on(*self, by_cols, c, r, n0);
                assert forall|n: u32, c: int, row: int| first_wing(*old(self), by_cols, n) && #[trigger] wing_target(*old(self), by_cols, n, c, row)
                    implies cleared_on(*self, by_cols, c, row, n) by {
                    if n < n0 {
                        assert(!wing_active(*old(self), by_cols, n));
                    } else if n > n0 {
                        assert(!wing_active(*old(self), by_cols, n0));
                    }
                }
            } else {
                assert(forall|m2: u32| 1 <= m2 < number ==> !#[trigger] wing_active(*old(self), by_cols, m2));
            }
        }
        proof { lemma_x_wings_cleared(*old(self), *self, by_cols); }
        Ok(changed)
    }

    /// Strikes values by x-wings: first over rows (see `wing_pass`); when no pair of rows
    /// strikes anything, the same over columns, with rows and columns swapped. Every value
    /// from 1 to 9 is looked at: the smallest value with two rows that can take it only at
    /// the same two columns has it struck from those columns in every other row.
    pub fn x_wing(&mut self) -> (r: Result<(), SolveError>)
        requires
            old(self).wf(),
        ensures
            r matches Err(e) ==> e == SolveError::CellEmptied,
            r is Err ==> emptiable(*final(self)),
            final(self).wf(),
            shrinks(*old(self), *final(self)),
            r is Ok ==> narrows(*old(self), *final(self)),
            old(self).at_home() && settled(*old(self)) ==> forall|sol: Seq<Seq<u32>>| is_solution(sol) && #[trigger] agrees(*old(self), sol)
                ==> r is Ok && agrees(*final(self), sol),
            r is Ok ==> forall|n: u32, c: int, row: int| first_wing(*old(self), false, n) && #[trigger] wing_target(*old(self), false, n, c, row)
                ==> cleared_on(*final(self), false, c, row, n),
            r is Ok && (forall|n: u32| 1 <= n <= 9 ==> !#[trigger] wing_active(*old(self), false, n))
                ==> forall|n: u32, r: int, col: int| first_wing(*old(self), true, n) && #[trigger] wing_target(*old(self), true, n, r, col)
                    ==> cleared_on(*final(self), true, r, col, n),
            (forall|n: u32| 1 <= n <= 9 ==> !#[trigger] wing_active(*old(self), false, n))
                && (forall|n: u32| 1 <= n <= 9 ==> !#[trigger] wing_active(*old(self), true, n))
                ==> r is Ok && *final(self) == *old(self),
            r is Ok ==> forall|n: u32, y1: int, y2: int, c1: int, c2: int, y: int, c: int|
                #![trigger x_wing_lines(*old(self), false, n, y1, y2, c1, c2), cleared(*final(self), c, y, n)]
                1 <= n <= 9 && old(self).definite_values.counts@[n - 1] != 9
                && x_wing_lines(*old(self), false, n, y1, y2, c1, c2)
                && (forall|m: u32| 1 <= m < n ==> #[trigger] no_line_pairs(*old(self), false, m))
                && 0 <= y < 9 && y != y1 && y != y2 && (c == c1 || c == c2)
                ==> cleared(*final(self), c, y, n),
            r is Ok && (forall|n: u32| 1 <= n <= 9 ==> !#[trigger] wing_active(*old(self), false, n))
                ==> x_wings_cleared(*old(self), *final(self), true),
    {
        let ghost g0 = *self;
        let changed = match self.wing_pass(false) {
            Ok(c) => c,
            Err(e) => return Err(e),
        };
        let ghost g1 = *self;
        proof { lemma_x_wings_cleared(g0, g1, false); }
        if changed {
            proof { lemma_row_wings_cells(g0, g1); }
            return Ok(());
        }
        match self.wing_pass(true) {
            Ok(_) => {
                proof {
                    lemma_x_wings_cleared_stays(g0, g1, *self, false);
                    lemma_row_wings_cells(g0, *self);
                }
                Ok(())
            },
            Err(e) => Err(e),
        }
    }
}

/// In line `y` of `g` (a row, or a column when `by_cols`), the open cells that can take `n`
/// are exactly those at positions `c1` and `c2`.
pub open spec fn takes_only(g: SudokuGrid, by_cols: bool, y: int, n: u32, c1: int, c2: int) -> bool {
    forall|c: int| 0 <= c < 9 ==> ((!line_cell(g, by_cols, y, c).defined
        && #[trigger] line_cell(g, by_cols, y, c).possible_values().contains(n)) <==> (c == c1 || c == c2))
}

/// Lines `y1` and `y2` of `g` can take `n` only at positions `c1` and `c2`, and no third line
/// can take it exactly there.
pub open spec fn x_wing_lines(g: SudokuGrid, by_cols: bool, n: u32, y1: int, y2: int, c1: int, c2: int) -> bool {
    &&& 0 <= y1 < 9
    &&& 0 <= y2 < 9
    &&& y1 != y2
    &&& 0 <= c1 < c2 < 9
    &&& takes_only(g, by_cols, y1, n, c1, c2)
    &&& takes_only(g, by_cols, y2, n, c1, c2)
    &&& forall|y: int| 0 <= y < 9 && y != y1 && y != y2 ==> !#[trigger] takes_only(g, by_cols, y, n, c1, c2)
}

/// No two lines of `g` can take `m` at the same two positions and nowhere else.
pub open spec fn no_line_pairs(g: SudokuGrid, by_cols: bool, m: u32) -> bool {
    forall|y1: int, y2: int, c1: int, c2: int| 0 <= y1 < y2 < 9 && 0 <= c1 < c2 < 9
        ==> !(#[trigger] takes_only(g, by_cols, y1, m, c1, c2) && #[trigger] takes_only(g, by_cols, y2, m, c1, c2))
}

/// A strictly increasing list of positions holding exactly `a` and `b` (with `a < b`) is `[a, b]`.
proof fn lemma_two_positions(s: Seq<usize>, a: usize, b: usize)
    requires
        a < b,
        forall|e: int, f: int| 0 <= e < f < s.len() ==> s[e] < s[f],
        forall|c: usize| s.contains(c) <==> (c == a || c == b),
    ensures
        s == seq![a, b],
{
    assert(s.contains(a));
    assert(s.contains(b));
    let ia = choose|i: int| 0 <= i < s.len() && s[i] == a;
    let ib = choose|i: int| 0 <= i < s.len() && s[i] == b;
    assert(ia < ib) by {
        if ib < ia {
            assert(s[ib] < s[ia]);
        }
    }
    if s.len() > 2 {
        assert(s.contains(s[0]) && s.contains(s[1]) && s.contains(s[2]));
        assert(s[0] < s[1] && s[1] < s[2]);
    }
    assert(s.len() == 2);
    assert(ia == 0 && ib == 1);
    assert(s =~= seq![a, b]);
}

/// The positions of a line that can take `number` are `[c1, c2]` exactly when the line takes
/// it only there.
proof fn lemma_takers_pair(g: SudokuGrid, by_cols: bool, y: int, number: u32, c1: int, c2: int)
    requires
        0 <= c1 < c2 < 9,
    ensures
        takes_only(g, by_cols, y, number, c1, c2) <==> row_takers(g, by_cols, y, number, 9) == seq![c1 as usize, c2 as usize],
{
    lemma_row_takers(g, by_cols, y, number, 9);
    let s = row_takers(g, by_cols, y, number, 9);
    if takes_only(g, by_cols, y, number, c1, c2) {
        assert forall|c: usize| s.contains(c) <==> (c == c1 as usize || c == c2 as usize) by {
            if s.contains(c) {
                assert(c < 9);
                assert(line_cell(g, by_cols, y, c as int).possible_values().contains(number));
            }
            if c == c1 as usize || c == c2 as usize {
                assert(line_cell(g, by_cols, y, c as int).possible_values().contains(number));
            }
        }
        lemma_two_positions(s, c1 as usize, c2 as usize);
    }
    if s == seq![c1 as usize, c2 as usize] {
        assert forall|c: int| 0 <= c < 9 implies ((!line_cell(g, by_cols, y, c).defined
            && #[trigger] line_cell(g, by_cols, y, c).possible_values().contains(number)) <==> (c == c1 || c == c2)) by {
            assert(s.contains(c as usize) <==> (c as usize == c1 as usize || c as usize == c2 as usize)) by {
                if s.contains(c as usize) {
                    let k = choose|k: int| 0 <= k < s.len() && s[k] == c as usize;
                }
                if c == c1 {
                    assert(s[0] == c1 as usize);
                }
                if c == c2 {
                    assert(s[1] == c2 as usize);
                }
            }
        }
    }
}

/// Without two later lines sharing the positions of line `i`, it starts no group.
proof fn lemma_later_keys_none(lines: Seq<(usize, Seq<usize>)>, i: int, j: int)
    requires
        0 <= i < j <= lines.len(),
        forall|u: int| i < u < j ==> lines[u].1 != lines[i].1,
    ensures
        later_keys(lines, i, j).len() == 0,
    decreases j - i,
{
    if j > i + 1 {
        lemma_later_keys_none(lines, i, j - 1);
    }
}

/// With exactly one later line `t` sharing the positions of line `i`, the later lines are `t`.
proof fn lemma_later_keys_one(lines: Seq<(usize, Seq<usize>)>, i: int, j: int, t: int)
    requires
        0 <= i < t < j <= lines.len(),
        lines[t].1 == lines[i].1,
        forall|u: int| i < u < j && u != t ==> lines[u].1 != lines[i].1,
    ensures
        later_keys(lines, i, j) == seq![lines[t].0],
    decreases j - i,
{
    if j - 1 == t {
        lemma_later_keys_none(lines, i, j - 1);
        assert(later_keys(lines, i, j) =~= seq![lines[t].0]);
    } else {
        lemma_later_keys_one(lines, i, j - 1, t);
    }
}

/// Every x-wing of `g` over its lines (rows, or columns when `by_cols`) is struck in `f`: when
/// two lines can take `n` only at the same two positions, no third line can, no smaller value
/// has two such lines, and `n` is not placed nine times, no other line of `f` can take `n` at
/// those positions.
pub open spec fn x_wings_cleared(g: SudokuGrid, f: SudokuGrid, by_cols: bool) -> bool {
    forall|n: u32, y1: int, y2: int, c1: int, c2: int, y: int, c: int|
        #![trigger x_wing_lines(g, by_cols, n, y1, y2, c1, c2), cleared_on(f, by_cols, c, y, n)]
        1 <= n <= 9 && g.definite_values.counts@[n - 1] != 9
        && x_wing_lines(g, by_cols, n, y1, y2, c1, c2)
        && (forall|m: u32| 1 <= m < n ==> #[trigger] no_line_pairs(g, by_cols, m))
        && 0 <= y < 9 && y != y1 && y != y2 && (c == c1 || c == c2)
        ==> cleared_on(f, by_cols, c, y, n)
}

/// A pass that strikes the targets of the first value with an x-wing strikes every x-wing
/// described by the cells alone.
pub proof fn lemma_x_wings_cleared(g: SudokuGrid, f: SudokuGrid, by_cols: bool)
    requires
        narrows(g, f),
        forall|n: u32, c: int, row: int| first_wing(g, by_cols, n) && #[trigger] wing_target(g, by_cols, n, c, row)
            ==> cleared_on(f, by_cols, c, row, n),
    ensures
        x_wings_cleared(g, f, by_cols),
{
    assert forall|n: u32, y1: int, y2: int, c1: int, c2: int, y: int, c: int|
        #![trigger x_wing_lines(g, by_cols, n, y1, y2, c1, c2), cleared_on(f, by_cols, c, y, n)]
        1 <= n <= 9 && g.definite_values.counts@[n - 1] != 9
        && x_wing_lines(g, by_cols, n, y1, y2, c1, c2)
        && (forall|m: u32| 1 <= m < n ==> #[trigger] no_line_pairs(g, by_cols, m))
        && 0 <= y < 9 && y != y1 && y != y2 && (c == c1 || c == c2)
        implies cleared_on(f, by_cols, c, y, n) by {
        let cell = line_cell(g, by_cols, y, c);
        lemma_values_with(cell.states@, ValueStatus::Possible, 9);
        if !cleared_on(g, by_cols, c, y, n) {
            assert(cell.possible_values().contains(n));
            lemma_wing_found(g, by_cols, n, y1, y2, c1, c2, y, c);
            assert forall|m: u32| 1 <= m < n implies !wing_active(g, by_cols, m) by {
                assert(no_line_pairs(g, by_cols, m));
                lemma_no_pairs_inactive(g, by_cols, m);
            }
            assert(first_wing(g, by_cols, n));
        } else {
            lemma_cleared_on_stays(g, f, by_cols, c, y, n);
        }
    }
}

/// Over rows, the x-wings of `g` are struck in `f` cell by cell.
proof fn lemma_row_wings_cells(g: SudokuGrid, f: SudokuGrid)
    requires
        x_wings_cleared(g, f, false),
    ensures
        forall|n: u32, y1: int, y2: int, c1: int, c2: int, y: int, c: int|
            #![trigger x_wing_lines(g, false, n, y1, y2, c1, c2), cleared(f, c, y, n)]
            1 <= n <= 9 && g.definite_values.counts@[n - 1] != 9
            && x_wing_lines(g, false, n, y1, y2, c1, c2)
            && (forall|m: u32| 1 <= m < n ==> #[trigger] no_line_pairs(g, false, m))
            && 0 <= y < 9 && y != y1 && y != y2 && (c == c1 || c == c2)
            ==> cleared(f, c, y, n),
{
    assert forall|n: u32, y1: int, y2: int, c1: int, c2: int, y: int, c: int|
        #![trigger x_wing_lines(g, false, n, y1, y2, c1, c2), cleared(f, c, y, n)]
        1 <= n <= 9 && g.definite_values.counts@[n - 1] != 9
        && x_wing_lines(g, false, n, y1, y2, c1, c2)
        && (forall|m: u32| 1 <= m < n ==> #[trigger] no_line_pairs(g, false, m))
        && 0 <= y < 9 && y != y1 && y != y2 && (c == c1 || c == c2)
        implies cleared(f, c, y, n) by {
        assert(cleared_on(f, false, c, y, n));
    }
}

/// What an x-wing struck stays struck as the grid shrinks.
pub proof fn lemma_x_wings_cleared_stays(g: SudokuGrid, a: SudokuGrid, b: SudokuGrid, by_cols: bool)
    requires
        x_wings_cleared(g, a, by_cols),
        shrinks(a, b),
    ensures
        x_wings_cleared(g, b, by_cols),
{
    assert forall|n: u32, y1: int, y2: int, c1: int, c2: int, y: int, c: int|
        #![trigger x_wing_lines(g, by_cols, n, y1, y2, c1, c2), cleared_on(b, by_cols, c, y, n)]
        1 <= n <= 9 && g.definite_values.counts@[n - 1] != 9
        && x_wing_lines(g, by_cols, n, y1, y2, c1, c2)
        && (forall|m: u32| 1 <= m < n ==> #[trigger] no_line_pairs(g, by_cols, m))
        && 0 <= y < 9 && y != y1 && y != y2 && (c == c1 || c == c2)
        implies cleared_on(b, by_cols, c, y, n) by {
        assert(cleared_on(a, by_cols, c, y, n));
        lemma_cleared_on_stays(a, b, by_cols, c, y, n);
    }
}

/// A value that no two lines can take at the same two positions only has no x-wing.
pub proof fn lemma_no_pairs_inactive(g: SudokuGrid, by_cols: bool, m: u32)
    requires
        no_line_pairs(g, by_cols, m),
    ensures
        !wing_active(g, by_cols, m),
{
    broadcast use vstd::seq_lib::group_filter_ensures;
    if wing_active(g, by_cols, m) {
        let lines = row_table(g, by_cols, m, 9);
        lemma_row_table(g, by_cols, m, 9);
        let (c, r) = choose|c: int, r: int| wing_target(g, by_cols, m, c, r);
        let q = choose|q: int| pair_target(g, by_cols, m, q, c, r);
        let matched = matched_lines(lines, lines.len() as nat);
        let p = wing_pairs(g, by_cols, m)[q];
        assert(wing_pairs(g, by_cols, m).contains(p));
        assert(p.len() == 2);
        matched.lemma_filter_contains_rev(|p: Seq<usize>| p.len() == 2, p);
        assert(matched.contains(p));
        lemma_matched_lines(lines, lines.len() as nat);
        let k = choose|k: int| 0 <= k < matched.len() && matched[k] == p;
        assert(leaders_group(lines, lines.len() as nat, matched[k]));
        lemma_pair_group(lines, p);
        let (i, j) = choose|i: int, j: int| 0 <= i < lines.len() && 0 <= j < lines.len() && i != j
            && lines[i].0 == p[0] && lines[j].0 == p[1]
            && lines[i].1 == lines[j].1 && lines[j].1.len() == 2;
        let ri = lines[i].0 as int;
        let rj = lines[j].0 as int;
        assert(ri != rj) by {
            if i < j { assert(lines[i].0 < lines[j].0); } else { assert(lines[j].0 < lines[i].0); }
        }
        let pos = lines[i].1;
        lemma_row_takers(g, by_cols, ri, m, 9);
        assert(pos == row_takers(g, by_cols, ri, m, 9));
        assert(pos[0] < pos[1] && pos[1] < 9) by {
            assert(pos.contains(pos[1]));
        }
        let c1 = pos[0] as int;
        let c2 = pos[1] as int;
        assert(pos =~= seq![c1 as usize, c2 as usize]);
        lemma_takers_pair(g, by_cols, ri, m, c1, c2);
        lemma_takers_pair(g, by_cols, rj, m, c1, c2);
        if ri < rj {
            assert(!(takes_only(g, by_cols, ri, m, c1, c2) && takes_only(g, by_cols, rj, m, c1, c2)));
        } else {
            assert(!(takes_only(g, by_cols, rj, m, c1, c2) && takes_only(g, by_cols, ri, m, c1, c2)));
        }
    }
}

/// Two lines that can take `n` only at the same two positions, with no third such line, make
/// an x-wing for `n` that strikes it at those positions of every other line that can take it.
pub proof fn lemma_wing_found(g: SudokuGrid, by_cols: bool, n: u32, y1: int, y2: int, c1: int, c2: int, y: int, c: int)
    requires
        1 <= n <= 9,
        g.definite_values.counts@[n - 1] != 9,
        x_wing_lines(g, by_cols, n, y1, y2, c1, c2),
        0 <= y < 9,
        y != y1,
        y != y2,
        c == c1 || c == c2,
        !line_cell(g, by_cols, y, c).defined,
        line_cell(g, by_cols, y, c).possible_values().contains(n),
    ensures
        wing_target(g, by_cols, n, c, y),
        wing_active(g, by_cols, n),
{
    broadcast use vstd::seq_lib::group_filter_ensures;
    let lines = row_table(g, by_cols, n, 9);
    lemma_row_table(g, by_cols, n, 9);
    let pair = seq![c1 as usize, c2 as usize];
    lemma_takers_pair(g, by_cols, y1, n, c1, c2);
    lemma_takers_pair(g, by_cols, y2, n, c1, c2);
    let ya = if y1 < y2 { y1 } else { y2 };
    let yb = if y1 < y2 { y2 } else { y1 };
    assert(row_takers(g, by_cols, ya, n, 9).len() > 0);
    assert(row_takers(g, by_cols, yb, n, 9).len() > 0);
    assert(line_keys(lines).contains(ya as usize));
    assert(line_keys(lines).contains(yb as usize));
    let ia = choose|i: int| 0 <= i < line_keys(lines).len() && line_keys(lines)[i] == ya as usize;
    let ib = choose|i: int| 0 <= i < line_keys(lines).len() && line_keys(lines)[i] == yb as usize;
    assert(lines[ia].0 == ya as usize && lines[ib].0 == yb as usize);
    assert(ia < ib) by {
        if ib < ia { assert(lines[ib].0 < lines[ia].0); }
        if ib == ia { assert(ya != yb); }
    }
    assert(lines[ia].1 == pair && lines[ib].1 == pair);
    // any line with these positions is one of the two
    assert forall|u: int| 0 <= u < lines.len() && lines[u].1 == pair implies u == ia || u == ib by {
        let ru = lines[u].0 as int;
        assert(lines[u].1 == row_takers(g, by_cols, ru, n, 9));
        lemma_takers_pair(g, by_cols, ru, n, c1, c2);
        assert(takes_only(g, by_cols, ru, n, c1, c2));
        assert(ru == y1 || ru == y2);
        if u != ia && u != ib {
            if ru == ya {
                if u < ia { assert(lines[u].0 < lines[ia].0); } else { assert(lines[ia].0 < lines[u].0); }
            } else {
                if u < ib { assert(lines[u].0 < lines[ib].0); } else { assert(lines[ib].0 < lines[u].0); }
            }
        }
    }
    lemma_later_keys_one(lines, ia, lines.len() as int, ib);
    lemma_later_keys(lines, ia, lines.len() as int);
    assert(group_leader(lines, ia));
    let grp = line_group(lines, ia);
    assert(grp =~= seq![yb as usize, ya as usize]);
    let matched = matched_lines(lines, lines.len() as nat);
    lemma_matched_lines(lines, lines.len() as nat);
    assert(matched.contains(grp));
    let k = choose|k: int| 0 <= k < matched.len() && matched[k] == grp;
    matched.lemma_filter_contains(|p: Seq<usize>| p.len() == 2, k);
    let wp = wing_pairs(g, by_cols, n);
    assert(wp.contains(grp));
    let q = choose|q: int| 0 <= q < wp.len() && wp[q] == grp;
    lemma_row_takers(g, by_cols, y, n, 9);
    assert(row_takers(g, by_cols, y, n, 9).contains(c as usize));
    assert(row_takers(g, by_cols, yb, n, 9).contains(c as usize)) by {
        if c == c1 { assert(pair[0] == c as usize); } else { assert(pair[1] == c as usize); }
    }
    assert(!grp.contains(y as usize));
    assert(pair_target(g, by_cols, n, q, c, y));
    assert(wing_target(g, by_cols, n, c, y));
}

/// The positions `c < n` whose cell in line `row` of `g` (a row, or a column when `by_cols`)
/// is open and can take `number`, in increasing order.
pub open spec fn row_takers(g: SudokuGrid, by_cols: bool, row: int, number: u32, n: int) -> Seq<usize>
    decreases n,
{
    if n <= 0 {
        Seq::empty()
    } else {
        let prev = row_takers(g, by_cols, row, number, n - 1);
        if !line_cell(g, by_cols, row, n - 1).defined && line_cell(g, by_cols, row, n - 1).possible_values().contains(number) {
            prev.push((n - 1) as usize)
        } else {
            prev
        }
    }
}

/// The lines `r < m` of `g` with a position that can take `number`, each with those
/// positions, in increasing order of line.
pub open spec fn row_table(g: SudokuGrid, by_cols: bool, number: u32, m: int) -> Seq<(usize, Seq<usize>)>
    decreases m,
{
    if m <= 0 {
        Seq::empty()
    } else {
        let prev = row_table(g, by_cols, number, m - 1);
        if row_takers(g, by_cols, m - 1, number, 9).len() > 0 {
            prev.push(((m - 1) as usize, row_takers(g, by_cols, m - 1, number, 9)))
        } else {
            prev
        }
    }
}

/// The pairs of lines of `g` in which `number` can go at exactly the same two positions, as
/// `wing_pass` finds them.
pub open spec fn wing_pairs(g: SudokuGrid, by_cols: bool, number: u32) -> Seq<Seq<usize>> {
    matched_lines(row_table(g, by_cols, number, 9), row_table(g, by_cols, number, 9).len()).filter(|p: Seq<usize>| p.len() == 2)
}

/// Pair `q` of the x-wing for `number` strikes it at position `column` of line `row`: the
/// line is not one of the pair's, and the position is one of the line's and of the pair's.
pub open spec fn pair_target(g: SudokuGrid, by_cols: bool, number: u32, q: int, column: int, row: int) -> bool {
    &&& 0 <= q < wing_pairs(g, by_cols, number).len()
    &&& 0 <= row < 9
    &&& 0 <= column < 9
    &&& !wing_pairs(g, by_cols, number)[q].contains(row as usize)
    &&& row_takers(g, by_cols, row, number, 9).contains(column as usize)
    &&& row_takers(g, by_cols, wing_pairs(g, by_cols, number)[q][0] as int, number, 9).contains(column as usize)
}

/// The x-wing for `number` strikes it at position `column` of line `row`.
pub open spec fn wing_target(g: SudokuGrid, by_cols: bool, number: u32, column: int, row: int) -> bool {
    exists|q: int| pair_target(g, by_cols, number, q, column, row)
}

/// The x-wing acts for `number`: the value is not placed nine times, and it has something to strike.
pub open spec fn wing_active(g: SudokuGrid, by_cols: bool, number: u32) -> bool {
    &&& 1 <= number <= 9
    &&& g.definite_values.counts@[number - 1] != 9
    &&& exists|c: int, r: int| wing_target(g, by_cols, number, c, r)
}

/// `number` is the first value for which the x-wing acts.
pub open spec fn first_wing(g: SudokuGrid, by_cols: bool, number: u32) -> bool {
    wing_active(g, by_cols, number) && forall|m: u32| 1 <= m < number ==> !wing_active(g, by_cols, m)
}

/// The positions picked for a line are those below `n` whose cell can take the value, each
/// once and in increasing order.
pub proof fn lemma_row_takers(g: SudokuGrid, by_cols: bool, row: int, number: u32, n: int)
    requires
        0 <= n <= 9,
    ensures
        forall|e: int| 0 <= e < row_takers(g, by_cols, row, number, n).len() ==> #[trigger] row_takers(g, by_cols, row, number, n)[e] < n,
        forall|e: int, f: int| 0 <= e < f < row_takers(g, by_cols, row, number, n).len() ==> row_takers(g, by_cols, row, number, n)[e] < row_takers(g, by_cols, row, number, n)[f],
        forall|c: int| 0 <= c < n ==> (row_takers(g, by_cols, row, number, n).contains(c as usize)
            <==> (!line_cell(g, by_cols, row, c).defined && line_cell(g, by_cols, row, c).possible_values().contains(number))),
        forall|c: usize| #[trigger] row_takers(g, by_cols, row, number, n).contains(c) ==> c < n,
    decreases n,
{
    if n > 0 {
        lemma_row_takers(g, by_cols, row, number, n - 1);
        let prev = row_takers(g, by_cols, row, number, n - 1);
        let cur = row_takers(g, by_cols, row, number, n);
        assert forall|c: int| 0 <= c < n implies (cur.contains(c as usize)
            <==> (!line_cell(g, by_cols, row, c).defined && line_cell(g, by_cols, row, c).possible_values().contains(number))) by {
            if cur.contains(c as usize) {
                let k = choose|k: int| 0 <= k < cur.len() && cur[k] == c as usize;
                if k < prev.len() {
                    assert(prev[k] == c as usize);
                }
            }
            if !line_cell(g, by_cols, row, c).defined && line_cell(g, by_cols, row, c).possible_values().contains(number) {
                if c < n - 1 {
                    assert(prev.contains(c as usize));
                    let k = choose|k: int| 0 <= k < prev.len() && prev[k] == c as usize;
                    assert(cur[k] == c as usize);
                } else {
                    assert(cur[cur.len() - 1] == c as usize);
                }
            }
        }
        assert forall|c: usize| #[trigger] cur.contains(c) implies c < n by {
            let k = choose|k: int| 0 <= k < cur.len() && cur[k] == c;
            if k < prev.len() {
                assert(prev[k] == c);
                assert(prev.contains(c));
            }
        }
    }
}

/// The entries of `row_table`: lines below `m` with their positions, increasing, and every line
/// below `m` with a position is one of them.
pub proof fn lemma_row_table(g: SudokuGrid, by_cols: bool, number: u32, m: int)
    requires
        0 <= m <= 9,
    ensures
        forall|i: int| 0 <= i < row_table(g, by_cols, number, m).len() ==> (#[trigger] row_table(g, by_cols, number, m)[i]).0 < m
            && row_table(g, by_cols, number, m)[i].1 == row_takers(g, by_cols, row_table(g, by_cols, number, m)[i].0 as int, number, 9),
        forall|i: int, j: int| 0 <= i < j < row_table(g, by_cols, number, m).len() ==> row_table(g, by_cols, number, m)[i].0 < row_table(g, by_cols, number, m)[j].0,
        forall|r: int| 0 <= r < m ==> (line_keys(row_table(g, by_cols, number, m)).contains(r as usize) <==> row_takers(g, by_cols, r, number, 9).len() > 0),
    decreases m,
{
    if m > 0 {
        lemma_row_table(g, by_cols, number, m - 1);
        let prev = row_table(g, by_cols, number, m - 1);
        let cur = row_table(g, by_cols, number, m);
        assert forall|r: int| 0 <= r < m implies (line_keys(cur).contains(r as usize) <==> row_takers(g, by_cols, r, number, 9).len() > 0) by {
            if line_keys(cur).contains(r as usize) {
                let k = choose|k: int| 0 <= k < line_keys(cur).len() && line_keys(cur)[k] == r as usize;
                if k < prev.len() {
                    assert(line_keys(prev)[k] == r as usize);
                }
            }
            if row_takers(g, by_cols, r, number, 9).len() > 0 {
                if r < m - 1 {
                    assert(line_keys(prev).contains(r as usize));
                    let k = choose|k: int| 0 <= k < line_keys(prev).len() && line_keys(prev)[k] == r as usize;
                    assert(line_keys(cur)[k] == r as usize);
                } else {
                    assert(line_keys(cur)[cur.len() - 1] == r as usize);
                }
            }
        }
    }
}

/// Keeping the groups of two lines commutes with taking their contents.
pub proof fn lemma_filter_views(s: Seq<Vec<usize>>)
    ensures
        group_views(s.filter(|g: Vec<usize>| g@.len() == 2)) == group_views(s).filter(|p: Seq<usize>| p.len() == 2),
    decreases s.len(),
{
    reveal_with_fuel(Seq::filter, 1);
    if s.len() > 0 {
        lemma_filter_views(s.drop_last());
        assert(group_views(s).drop_last() =~= group_views(s.drop_last()));
        assert(group_views(s).last() == s.last()@);
        if s.last()@.len() == 2 {
            assert(group_views(s.filter(|g: Vec<usize>| g@.len() == 2)) =~= group_views(s.drop_last().filter(|g: Vec<usize>| g@.len() == 2)).push(s.last()@));
        }
    } else {
        assert(group_views(s.filter(|g: Vec<usize>| g@.len() == 2)) =~= Seq::<Seq<usize>>::empty());
        assert(group_views(s) =~= Seq::<Seq<usize>>::empty());
    }
}

/// The positions `cols` of line `row` are exactly those whose open cell in `g` can take
/// `number`, in increasing order.
pub open spec fn takers(g: SudokuGrid, by_cols: bool, row: int, number: u32, cols: Seq<usize>) -> bool {
    &&& forall|e: int, f: int| 0 <= e < f < cols.len() ==> cols[e] < cols[f]
    &&& forall|e: int| 0 <= e < cols.len() ==> cols[e] < 9 && !line_cell(g, by_cols, row, cols[e] as int).defined
        && line_cell(g, by_cols, row, cols[e] as int).possible_values().contains(number)
    &&& forall|c: int| 0 <= c < 9 && !line_cell(g, by_cols, row, c).defined && line_cell(g, by_cols, row, c).possible_values().contains(number)
        ==> cols.contains(c as usize)
}

/// A copy of a line table.
pub fn copy_table(t: &LineTable) -> (r: LineTable)
    ensures
        r@.len() == t@.len(),
        forall|i: int| 0 <= i < t@.len() ==> (#[trigger] r@[i]).0 == t@[i].0 && r@[i].1@ == t@[i].1@,
        line_keys(lines_view(r@)) == line_keys(lines_view(t@)),
{
    let mut r: LineTable = Vec::new();
    let mut i: usize = 0;
    while i < t.len()
        invariant
            i <= t@.len(),
            r@.len() == i,
            forall|j: int| 0 <= j < i ==> (#[trigger] r@[j]).0 == t@[j].0 && r@[j].1@ == t@[j].1@,
        decreases t.len() - i,
    {
        r.push((t[i].0, copy_positions(&t[i].1)));
        i += 1;
    }
    assert(line_keys(lines_view(r@)) =~= line_keys(lines_view(t@)));
    r
}

/// Whether `key` is a line of the table.
pub fn line_keys_contain(table: &LineTable, key: usize) -> (r: bool)
    ensures
        r == line_keys(lines_view(table@)).contains(key),
{
    let mut i: usize = 0;
    while i < table.len()
        invariant
            i <= table@.len(),
            forall|j: int| 0 <= j < i ==> table@[j].0 != key,
        decreases table.len() - i,
    {
        if table[i].0 == key {
            proof { assert(line_keys(lines_view(table@))[i as int] == key); }
            return true;
        }
        i += 1;
    }
    proof {
        if line_keys(lines_view(table@)).contains(key) {
            let k = choose|k: int| 0 <= k < line_keys(lines_view(table@)).len() && line_keys(lines_view(table@))[k] == key;
            assert(table@[k].0 == key);
        }
    }
    false
}

} // verus!
