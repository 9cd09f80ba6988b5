use vstd::prelude::*;
use crate::cell::{SudokuCell, Coordinate, ValueStatus};
use crate::grid::{emptiable, SudokuGrid, SolveError, GRID_SIZE_I, narrows, lemma_narrows_trans, lemma_narrows_refl, shrinks, lemma_shrinks_trans};
use crate::siblings::{coords_in_grid, distinct_coords};
use crate::techniques::equal_coords;
use crate::util::contains_u32;
use crate::techniques::taking;
use crate::cell::{lemma_values_with, open_cells};
use crate::solution::{is_solution, agrees, cell_agrees, peers, in_unit, unit_holds, conflict, settled, box_of, unit_x, unit_y, lemma_unit_cells, lemma_unit_peers};
use crate::placement::{lemma_box_position, cleared, lemma_cleared_stays};
use crate::grid::reopened;

verus! {

/// For each value, in increasing order, the coordinates of the cells that can take it.
pub type PossTable = Vec<(u32, Vec<Coordinate>)>;

/// The contents of a table: each value with its coordinates.
pub open spec fn table_view(t: Seq<(u32, Vec<Coordinate>)>) -> Seq<(u32, Seq<Coordinate>)> {
    t.map_values(|e: (u32, Vec<Coordinate>)| (e.0, e.1@))
}

/// The values that head the entries of a table.
pub open spec fn table_keys(t: Seq<(u32, Seq<Coordinate>)>) -> Seq<u32> {
    t.map_values(|e: (u32, Seq<Coordinate>)| e.0)
}

/// Every group is non-empty and made of values that head entries of the table.
pub open spec fn groups_within(groups: Seq<Vec<u32>>, keys: Seq<u32>) -> bool {
    forall|g: int| 0 <= g < groups.len() ==> (#[trigger] groups[g])@.len() >= 1
        && forall|e: int| 0 <= e < groups[g]@.len() ==> keys.contains(#[trigger] groups[g]@[e])
}

/// Whether two coordinate lists are the same.
pub fn same_coords(a: &Vec<Coordinate>, b: &Vec<Coordinate>) -> (r: bool)
    ensures
        r == (a@ == b@),
{
    if a.len() != b.len() {
        return false;
    }
    let mut i: usize = 0;
    while i < a.len()
        invariant
            a@.len() == b@.len(),
            i <= a@.len(),
            forall|j: int| 0 <= j < i ==> a@[j] == b@[j],
        decreases a.len() - i,
    {
        if !equal_coords(a[i], b[i]) {
            return false;
        }
        i += 1;
    }
    assert(a@ =~= b@);
    true
}

/// Whether every value of `set` is in `cell_set`.
pub fn all_contained(set: &Vec<u32>, cell_set: &Vec<u32>) -> (r: bool)
    ensures
        r == forall|i: int| 0 <= i < set@.len() ==> cell_set@.contains(#[trigger] set@[i]),
{
    let mut i: usize = 0;
    while i < set.len()
        invariant
            i <= set@.len(),
            forall|j: int| 0 <= j < i ==> cell_set@.contains(#[trigger] set@[j]),
        decreases set.len() - i,
    {
        if !contains_u32(cell_set, set[i]) {
            return false;
        }
        i += 1;
    }
    true
}

/// The number of coordinates listed for `key` in the table.
pub fn coords_len_of(table: &PossTable, key: u32) -> (r: usize)
    requires
        table_keys(table_view(table@)).contains(key),
    ensures
        exists|i: int| 0 <= i < table@.len() && table@[i].0 == key && r == table@[i].1@.len()
            && forall|j: int| 0 <= j < i ==> table@[j].0 != key,
{
    let mut i: usize = 0;
    while i < table.len()
        invariant
            i <= table@.len(),
            table_keys(table_view(table@)).contains(key),
            forall|j: int| 0 <= j < i ==> table@[j].0 != key,
        decreases table.len() - i,
    {
        if table[i].0 == key {
            return table[i].1.len();
        }
        assert(table_keys(table_view(table@))[i as int] == table@[i as int].0);
        i += 1;
    }
    proof {
        let k = choose|k: int| 0 <= k < table_keys(table_view(table@)).len() && table_keys(table_view(table@))[k] == key;
        assert(table@[k].0 == key);
    }
    0
}

/// The values of the entries after entry `i` and before entry `j` whose cells are those of
/// entry `i`, in order.
pub open spec fn same_cells_later(t: Seq<(u32, Seq<Coordinate>)>, i: int, j: int) -> Seq<u32>
    decreases j - i,
{
    if j <= i + 1 {
        Seq::empty()
    } else {
        let prev = same_cells_later(t, i, j - 1);
        if t[j - 1].1 == t[i].1 {
            prev.push(t[j - 1].0)
        } else {
            prev
        }
    }
}

/// The group started by entry `i`: its value, then the later values with the same cells.
pub open spec fn value_group(t: Seq<(u32, Seq<Coordinate>)>, i: int) -> Seq<u32> {
    seq![t[i].0] + same_cells_later(t, i, t.len() as int)
}

/// The group of entry `i` is kept: it has a second value and no more values than cells.
pub open spec fn kept_group(t: Seq<(u32, Seq<Coordinate>)>, i: int) -> bool {
    2 <= value_group(t, i).len() <= t[i].1.len()
}

/// The kept groups of the entries from `from` on, in order.
pub open spec fn value_groups(t: Seq<(u32, Seq<Coordinate>)>, from: int) -> Seq<Seq<u32>>
    decreases t.len() - from,
{
    if from >= t.len() || from < 0 {
        Seq::empty()
    } else {
        let rest = value_groups(t, from + 1);
        if kept_group(t, from) {
            seq![value_group(t, from)] + rest
        } else {
            rest
        }
    }
}

/// The contents of each group.
pub open spec fn groups_view(groups: Seq<Vec<u32>>) -> Seq<Seq<u32>> {
    groups.map_values(|g: Vec<u32>| g@)
}

/// `same_cells_later` only grows with `j`, and holds values of the table.
pub proof fn lemma_same_cells_later(t: Seq<(u32, Seq<Coordinate>)>, i: int, j: int, k: int)
    requires
        0 <= i < j <= k <= t.len(),
    ensures
        same_cells_later(t, i, j).len() <= same_cells_later(t, i, k).len(),
        forall|e: int| 0 <= e < same_cells_later(t, i, j).len() ==> table_keys(t).contains(#[trigger] same_cells_later(t, i, j)[e]),
    decreases k - j,
{
    if k > j {
        lemma_same_cells_later(t, i, j, k - 1);
    } else {
        lemma_same_cells_members(t, i, j);
    }
}

/// The values in `same_cells_later` are values of the table.
proof fn lemma_same_cells_members(t: Seq<(u32, Seq<Coordinate>)>, i: int, j: int)
    requires
        0 <= i < j <= t.len(),
    ensures
        forall|e: int| 0 <= e < same_cells_later(t, i, j).len() ==> table_keys(t).contains(#[trigger] same_cells_later(t, i, j)[e]),
    decreases j - i,
{
    if j > i + 1 {
        lemma_same_cells_members(t, i, j - 1);
        let prev = same_cells_later(t, i, j - 1);
        let cur = same_cells_later(t, i, j);
        assert forall|e: int| 0 <= e < cur.len() implies table_keys(t).contains(#[trigger] cur[e]) by {
            if e < prev.len() {
                assert(cur[e] == prev[e]);
            } else {
                assert(table_keys(t)[j - 1] == cur[e]);
            }
        }
    }
}

/// Gathers the groups of the entries from `from` on (see `value_groups`) after `matches`:
/// each entry starts a group with the later entries that have exactly its cells; a group
/// with no second value is dropped, and so is one with more values than cells.
pub fn look_for_matches(table: &PossTable, from: usize, matches: Vec<Vec<u32>>) -> (r: Vec<Vec<u32>>)
    requires
        groups_within(matches@, table_keys(table_view(table@))),
        table_keys(table_view(table@)).no_duplicates(),
    ensures
        groups_within(r@, table_keys(table_view(table@))),
        groups_view(r@) == groups_view(matches@) + value_groups(table_view(table@), from as int),
    decreases table@.len() - from,
{
    let mut matches = matches;
    if from >= table.len() || table.len() - from <= 1 {
        proof {
            if from < table@.len() {
                assert(same_cells_later(table_view(table@), from as int, table@.len() as int).len() == 0);
                assert(value_groups(table_view(table@), from + 1) =~= Seq::<Seq<u32>>::empty());
            }
            assert(groups_view(matches@) + value_groups(table_view(table@), from as int) =~= groups_view(matches@));
        }
        return matches;
    }
    let k_1 = table[from].0;
    let v_1 = &table[from].1;
    let ghost t = table_view(table@);
    let ghost base = matches@;
    proof {
        assert(table_keys(table_view(table@))[from as int] == k_1);
        lemma_same_cells_later(t, from as int, from + 1, t.len() as int);
    }
    let mut first_group: Vec<u32> = Vec::new();
    first_group.push(k_1);
    matches.push(first_group);
    proof {
        assert forall|g: int| 0 <= g < matches@.len() implies (#[trigger] matches@[g])@.len() >= 1
            && forall|e: int| 0 <= e < matches@[g]@.len() ==> table_keys(table_view(table@)).contains(#[trigger] matches@[g]@[e]) by {
            if g == matches@.len() - 1 {
                assert(matches@[g]@ =~= seq![k_1]);
            }
        }
        assert(matches@[matches@.len() - 1]@ =~= seq![k_1] + same_cells_later(t, from as int, from + 1));
    }
    let mut matching = false;
    let mut removed = false;
    let mut j: usize = from + 1;
    while j < table.len()
        invariant_except_break
            matches@.len() == base.len() + 1,
            matches@[matches@.len() - 1]@ == seq![k_1] + same_cells_later(t, from as int, j as int),
            !removed,
            matching == (same_cells_later(t, from as int, j as int).len() > 0),
            matching ==> 1 + same_cells_later(t, from as int, j as int).len() <= v_1@.len(),
        invariant
            t == table_view(table@),
            from + 1 <= j <= table@.len(),
            v_1@ == t[from as int].1,
            k_1 == t[from as int].0,
            table_keys(table_view(table@)).no_duplicates(),
            groups_within(matches@, table_keys(table_view(table@))),
            forall|g: int| 0 <= g < base.len() ==> #[trigger] matches@[g] == base[g],
        ensures
            groups_within(matches@, table_keys(table_view(table@))),
            forall|g: int| 0 <= g < base.len() ==> #[trigger] matches@[g] == base[g],
            removed ==> matches@.len() == base.len() && !kept_group(t, from as int) && matching,
            !removed ==> matches@.len() == base.len() + 1
                && matches@[matches@.len() - 1]@ == value_group(t, from as int)
                && matching == (value_group(t, from as int).len() >= 2)
                && (matching ==> value_group(t, from as int).len() <= v_1@.len()),
        decreases table@.len() - j,
    {
        let k_2 = table[j].0;
        if same_coords(&table[j].1, v_1) {
            matching = true;
            proof { assert(table_keys(table_view(table@))[j as int] == k_2); }
            let ghost before = matches@;
            let mut group = matches.pop().unwrap();
            let ghost g0 = group@;
            proof {
                assert(g0 == seq![k_1] + same_cells_later(t, from as int, j as int));
                lemma_same_cells_later(t, from as int, j as int, j as int);
                assert forall|e: int| 0 <= e < g0.len() implies g0[e] != k_2 by {
                    if e == 0 {
                        assert(table_keys(t)[from as int] == k_1);
                        assert(table_keys(t)[j as int] == k_2);
                    } else {
                        let w = same_cells_later(t, from as int, j as int)[e - 1];
                        assert(g0[e] == w);
                        lemma_later_index(t, from as int, j as int, e - 1);
                        let q = choose|q: int| from < q < j && t[q].0 == w;
                        assert(table_keys(t)[q] == w);
                        assert(table_keys(t)[j as int] == k_2);
                    }
                }
            }
            if !contains_u32(&group, k_2) {
                group.push(k_2);
            }
            proof {
                assert(group@ =~= seq![k_1] + same_cells_later(t, from as int, j + 1));
            }
            let too_big = group.len() > v_1.len();
            if too_big {
                removed = true;
                proof {
                    assert(matches@ =~= before.drop_last());
                    assert forall|g: int| 0 <= g < matches@.len() implies (#[trigger] matches@[g])@.len() >= 1
                        && forall|e: int| 0 <= e < matches@[g]@.len() ==> table_keys(table_view(table@)).contains(#[trigger] matches@[g]@[e]) by {
                        assert(matches@[g] == before[g]);
                    }
                    lemma_same_cells_later(t, from as int, j + 1, t.len() as int);
                    assert forall|g: int| 0 <= g < base.len() implies #[trigger] matches@[g] == base[g] by {
                        assert(matches@[g] == before[g]);
                    }
                }
                break;
            }
            matches.push(group);
            proof {
                assert(before[before.len() - 1]@ == g0);
                assert forall|g: int| 0 <= g < matches@.len() implies (#[trigger] matches@[g])@.len() >= 1
                    && forall|e: int| 0 <= e < matches@[g]@.len() ==> table_keys(table_view(table@)).contains(#[trigger] matches@[g]@[e]) by {
                    if g < matches@.len() - 1 {
                        assert(matches@[g] == before[g]);
                    } else {
                        lemma_same_cells_later(t, from as int, j + 1, j + 1);
                        assert forall|e: int| 0 <= e < matches@[g]@.len() implies table_keys(table_view(table@)).contains(#[trigger] matches@[g]@[e]) by {
                            if e == 0 {
                                assert(table_keys(t)[from as int] == k_1);
                            } else {
                                assert(matches@[g]@[e] == same_cells_later(t, from as int, j + 1)[e - 1]);
                            }
                        }
                    }
                }
                assert forall|g: int| 0 <= g < base.len() implies #[trigger] matches@[g] == base[g] by {
                    assert(matches@[g] == before[g]);
                }
            }
        }
        j += 1;
    }
    let ghost after_loop = matches@;
    if !matching {
        matches.pop();
        proof {
            assert forall|g: int| 0 <= g < matches@.len() implies (#[trigger] matches@[g])@.len() >= 1
                && forall|e: int| 0 <= e < matches@[g]@.len() ==> table_keys(table_view(table@)).contains(#[trigger] matches@[g]@[e]) by {
                assert(matches@[g] == after_loop[g]);
            }
        }
    }
    proof {
        let expected = if kept_group(t, from as int) { seq![value_group(t, from as int)] } else { Seq::empty() };
        if kept_group(t, from as int) {
            assert(!removed && matching);
            assert(matches@.len() == base.len() + 1);
        } else {
            assert(matches@.len() == base.len());
        }
        assert forall|g: int| 0 <= g < matches@.len() implies groups_view(matches@)[g] == (groups_view(base) + expected)[g] by {
            if g < base.len() {
                assert(matches@[g] == base[g]);
            }
        }
        assert(groups_view(matches@) =~= groups_view(base) + expected);
        assert(value_groups(t, from as int) == expected + value_groups(t, from + 1));
        assert(groups_view(base) + expected + value_groups(t, from + 1) =~= groups_view(base) + (expected + value_groups(t, from + 1)));
    }
    look_for_matches(table, from + 1, matches)
}

/// An entry of `same_cells_later` is the value of some entry between `i` and `j`.
proof fn lemma_later_index(t: Seq<(u32, Seq<Coordinate>)>, i: int, j: int, e: int)
    requires
        0 <= i < j <= t.len(),
        0 <= e < same_cells_later(t, i, j).len(),
    ensures
        exists|p: int| i < p < j && t[p].0 == same_cells_later(t, i, j)[e],
    decreases j - i,
{
    if j > i + 1 {
        let prev = same_cells_later(t, i, j - 1);
        if e < prev.len() {
            lemma_later_index(t, i, j - 1, e);
            assert(same_cells_later(t, i, j)[e] == prev[e]);
        } else {
            assert(same_cells_later(t, i, j)[e] == t[j - 1].0);
        }
    }
}

/// The coordinates of the cells of `cells` that can still take `v`, in order.
pub open spec fn coords_of(cells: Seq<SudokuCell>, v: u32) -> Seq<Coordinate> {
    taking(cells, v).map_values(|c: SudokuCell| c.coordinate)
}

/// Some cell of `cells` that can take `v` is at `c`.
pub open spec fn listed_from(cells: Seq<SudokuCell>, v: u32, c: Coordinate) -> bool {
    exists|i: int| 0 <= i < cells.len() && (#[trigger] cells[i]).possible_values().contains(v) && cells[i].coordinate == c
}

/// A cell that can take `v` has its coordinate listed for `v`, and every listed coordinate is
/// that of such a cell.
pub proof fn lemma_coords_of(cells: Seq<SudokuCell>, v: u32)
    ensures
        forall|i: int| 0 <= i < cells.len() && (#[trigger] cells[i]).possible_values().contains(v)
            ==> coords_of(cells, v).contains(cells[i].coordinate),
        forall|k: int| 0 <= k < coords_of(cells, v).len() ==> listed_from(cells, v, #[trigger] coords_of(cells, v)[k]),
{
    let f = taking(cells, v);
    broadcast use vstd::seq_lib::group_filter_ensures;
    assert(f == cells.filter(|c: SudokuCell| c.possible_values().contains(v)));
    assert forall|i: int| 0 <= i < cells.len() && (#[trigger] cells[i]).possible_values().contains(v)
        implies coords_of(cells, v).contains(cells[i].coordinate) by {
        assert(f.contains(cells[i]));
        let k = choose|k: int| 0 <= k < f.len() && f[k] == cells[i];
        assert(coords_of(cells, v)[k] == cells[i].coordinate);
    }
    assert forall|k: int| 0 <= k < coords_of(cells, v).len() implies listed_from(cells, v, #[trigger] coords_of(cells, v)[k]) by {
        assert(f.contains(f[k]));
        cells.lemma_filter_contains_rev(|c: SudokuCell| c.possible_values().contains(v), f[k]);
        let i = choose|i: int| 0 <= i < cells.len() && cells[i] == f[k];
        assert(cells[i].possible_values().contains(v));
    }
}

/// `g` is the kept group of an entry at `from` or later.
pub open spec fn group_from(t: Seq<(u32, Seq<Coordinate>)>, from: int, g: Seq<u32>) -> bool {
    exists|i: int| from <= i < t.len() && kept_group(t, i) && g == value_group(t, i)
}

/// The kept groups from entry `from` on are groups of entries at `from` or later.
pub proof fn lemma_value_groups(t: Seq<(u32, Seq<Coordinate>)>, from: int)
    requires
        0 <= from,
    ensures
        forall|q: int| 0 <= q < value_groups(t, from).len() ==> group_from(t, from, #[trigger] value_groups(t, from)[q]),
    decreases t.len() - from,
{
    if from < t.len() {
        lemma_value_groups(t, from + 1);
        let rest = value_groups(t, from + 1);
        assert forall|q: int| 0 <= q < value_groups(t, from).len() implies group_from(t, from, #[trigger] value_groups(t, from)[q]) by {
            if kept_group(t, from) {
                if q == 0 {
                    assert(value_groups(t, from)[0] == value_group(t, from));
                } else {
                    assert(value_groups(t, from)[q] == rest[q - 1]);
                    assert(group_from(t, from + 1, rest[q - 1]));
                }
            } else {
                assert(value_groups(t, from)[q] == rest[q]);
                assert(group_from(t, from + 1, rest[q]));
            }
        }
    }
}

/// With distinct values in the table, the values of a group are distinct, and each is the
/// value of an entry with the cells of the group's first entry.
pub proof fn lemma_value_group_members(t: Seq<(u32, Seq<Coordinate>)>, i: int)
    requires
        0 <= i < t.len(),
        table_keys(t).no_duplicates(),
    ensures
        value_group(t, i).no_duplicates(),
        value_group(t, i)[0] == t[i].0,
        forall|e: int| 0 <= e < value_group(t, i).len() ==> exists|p: int| 0 <= p < t.len()
            && t[p].0 == #[trigger] value_group(t, i)[e] && t[p].1 == t[i].1,
{
    lemma_same_cells_distinct(t, i, t.len() as int);
    let g = value_group(t, i);
    let l = same_cells_later(t, i, t.len() as int);
    assert forall|e: int| 0 <= e < g.len() implies exists|p: int| 0 <= p < t.len()
        && t[p].0 == #[trigger] g[e] && t[p].1 == t[i].1 by {
        if e > 0 {
            assert(g[e] == l[e - 1]);
        }
    }
    assert forall|a: int, b: int| 0 <= a < g.len() && 0 <= b < g.len() && a != b implies g[a] != g[b] by {
        if a > 0 && b > 0 {
            assert(g[a] == l[a - 1] && g[b] == l[b - 1]);
        } else if a == 0 {
            assert(g[b] == l[b - 1]);
            let p = choose|p: int| i < p < t.len() && t[p].0 == l[b - 1] && t[p].1 == t[i].1;
            assert(table_keys(t)[p] == t[p].0 && table_keys(t)[i] == t[i].0);
        } else {
            assert(g[a] == l[a - 1]);
            let p = choose|p: int| i < p < t.len() && t[p].0 == l[a - 1] && t[p].1 == t[i].1;
            assert(table_keys(t)[p] == t[p].0 && table_keys(t)[i] == t[i].0);
        }
    }
}

/// The values of `same_cells_later` are distinct, each the value of a later entry with the
/// same cells.
pub proof fn lemma_same_cells_distinct(t: Seq<(u32, Seq<Coordinate>)>, i: int, j: int)
    requires
        0 <= i < j <= t.len(),
        table_keys(t).no_duplicates(),
    ensures
        same_cells_later(t, i, j).no_duplicates(),
        forall|e: int| 0 <= e < same_cells_later(t, i, j).len() ==> exists|p: int| i < p < j
            && t[p].0 == #[trigger] same_cells_later(t, i, j)[e] && t[p].1 == t[i].1,
    decreases j - i,
{
    if j > i + 1 {
        lemma_same_cells_distinct(t, i, j - 1);
        let prev = same_cells_later(t, i, j - 1);
        let cur = same_cells_later(t, i, j);
        assert forall|e: int| 0 <= e < cur.len() implies exists|p: int| i < p < j
            && t[p].0 == #[trigger] cur[e] && t[p].1 == t[i].1 by {
            if e < prev.len() {
                assert(cur[e] == prev[e]);
                let p = choose|p: int| i < p < j - 1 && t[p].0 == #[trigger] prev[e] && t[p].1 == t[i].1;
            } else {
                assert(cur[e] == t[j - 1].0);
            }
        }
        if t[j - 1].1 == t[i].1 {
            assert forall|a: int, b: int| 0 <= a < cur.len() && 0 <= b < cur.len() && a != b implies cur[a] != cur[b] by {
                if a < prev.len() && b < prev.len() {
                    assert(cur[a] == prev[a] && cur[b] == prev[b]);
                } else {
                    let e = if a < prev.len() { a } else { b };
                    assert(cur[e] == prev[e]);
                    let p = choose|p: int| i < p < j - 1 && t[p].0 == #[trigger] prev[e] && t[p].1 == t[i].1;
                    assert(table_keys(t)[p] == t[p].0 && table_keys(t)[j - 1] == t[j - 1].0);
                }
            }
        }
    }
}

/// The cell of unit `kind` of (`cx`, `cy`) where the solution has `v`.
pub open spec fn home_of(sol: Seq<Seq<u32>>, kind: int, cx: int, cy: int, v: u32) -> (int, int) {
    choose|p: (int, int)| in_unit(kind, cx, cy, p.0, p.1) && sol[p.1][p.0] == v
}

/// A sequence with distinct entries, each in a sequence at most as long, covers it.
pub proof fn lemma_cover(t: Seq<Coordinate>, s: Seq<Coordinate>)
    requires
        t.no_duplicates(),
        t.len() == s.len(),
        forall|i: int| 0 <= i < t.len() ==> s.contains(#[trigger] t[i]),
    ensures
        forall|c: Coordinate| s.contains(c) ==> t.contains(c),
{
    t.unique_seq_to_set();
    s.lemma_cardinality_of_set();
    assert(t.to_set().subset_of(s.to_set())) by {
        assert forall|c: Coordinate| t.to_set().contains(c) implies s.to_set().contains(c) by {
            assert(t.contains(c));
            let i = choose|i: int| 0 <= i < t.len() && t[i] == c;
            assert(s.contains(t[i]));
        }
    }
    vstd::set_lib::lemma_len_subset(t.to_set(), s.to_set());
    vstd::set_lib::lemma_subset_equality(t.to_set(), s.to_set());
    assert forall|c: Coordinate| s.contains(c) implies t.contains(c) by {
        assert(s.to_set().contains(c));
        assert(t.to_set().contains(c));
    }
}

/// A hidden subset: in a settled grid, when the values of `g` (as many as the cells `cs`)
/// can each go only in the cells `cs` of a unit, every one of those cells has one of them in
/// the solution.
pub proof fn lemma_hidden_subset(grid: SudokuGrid, sol: Seq<Seq<u32>>, kind: int, cx: int, cy: int, g: Seq<u32>, cs: Seq<Coordinate>, qx: int, qy: int)
    requires
        grid.wf(),
        grid.at_home(),
        settled(grid),
        is_solution(sol),
        agrees(grid, sol),
        0 <= kind < 3,
        0 <= cx < 9,
        0 <= cy < 9,
        g.no_duplicates(),
        g.len() == cs.len(),
        cs.len() >= 1,
        forall|e: int| 0 <= e < g.len() ==> 1 <= #[trigger] g[e] <= 9 && coords_of(grid.unit_cells(kind, cx, cy), g[e]).len() >= 1,
        forall|e: int, c: Coordinate| 0 <= e < g.len() && #[trigger] coords_of(grid.unit_cells(kind, cx, cy), g[e]).contains(c) ==> cs.contains(c),
        cs.contains(Coordinate { x: qx as u32, y: qy as u32 }),
        0 <= qx < 9,
        0 <= qy < 9,
    ensures
        g.contains(sol[qy][qx]),
{
    let u = grid.unit_cells(kind, cx, cy);
    lemma_unit_cells(grid, kind, cx, cy);
    let t = Seq::new(g.len(), |i: int| Coordinate { x: home_of(sol, kind, cx, cy, g[i]).0 as u32, y: home_of(sol, kind, cx, cy, g[i]).1 as u32 });
    assert forall|i: int| 0 <= i < g.len() implies in_unit(kind, cx, cy, home_of(sol, kind, cx, cy, #[trigger] g[i]).0, home_of(sol, kind, cx, cy, g[i]).1)
        && sol[home_of(sol, kind, cx, cy, g[i]).1][home_of(sol, kind, cx, cy, g[i]).0] == g[i] && cs.contains(t[i]) by {
        let v = g[i];
        assert(unit_holds(sol, kind, cx, cy, v));
        let (x0, y0) = choose|x: int, y: int| in_unit(kind, cx, cy, x, y) && #[trigger] sol[y][x] == v;
        assert(in_unit(kind, cx, cy, (x0, y0).0, (x0, y0).1) && sol[(x0, y0).1][(x0, y0).0] == v);
        let h = home_of(sol, kind, cx, cy, v);
        let (x, y) = h;
        let c = grid.cell(x, y);
        assert(c.wf());
        assert(cell_agrees(c, sol[y][x]));
        lemma_coords_of(u, v);
        assert(coords_of(u, v).len() >= 1);
        assert(listed_from(u, v, coords_of(u, v)[0]));
        let i0 = choose|i0: int| 0 <= i0 < u.len() && (#[trigger] u[i0]).possible_values().contains(v) && u[i0].coordinate == coords_of(u, v)[0];
        let (ux, uy) = (unit_x(kind, cx, i0), unit_y(kind, cy, i0));
        assert(u[i0] == grid.cell(ux, uy));
        assert(u[i0].wf());
        lemma_values_with(u[i0].states@, ValueStatus::Possible, 9);
        if u[i0].defined {
            assert(u[i0].states@[v - 1].0 == ValueStatus::Possible);
        }
        if c.defined {
            assert(!conflict(grid, x, y, ux, uy));
            lemma_unit_peers(kind, cx, cy, x, y, ux, uy);
        }
        lemma_values_with(c.states@, ValueStatus::Possible, 9);
        assert(c.possible_values().contains(v));
        let k = if kind == 0 { x } else if kind == 1 { y } else { 3 * (y - box_of(cy)) + (x - box_of(cx)) };
        lemma_box_position(cx, cy, 0);
        assert(u[k] == c);
        assert(c.coordinate == (Coordinate { x: x as u32, y: y as u32 }));
        assert(coords_of(u, v).contains(u[k].coordinate));
    }
    assert(t.no_duplicates()) by {
        assert forall|a: int, b: int| 0 <= a < t.len() && 0 <= b < t.len() && a != b implies t[a] != t[b] by {
            let ha = home_of(sol, kind, cx, cy, g[a]);
            let hb = home_of(sol, kind, cx, cy, g[b]);
            assert(in_unit(kind, cx, cy, ha.0, ha.1) && sol[ha.1][ha.0] == g[a]);
            assert(in_unit(kind, cx, cy, hb.0, hb.1) && sol[hb.1][hb.0] == g[b]);
            assert(g[a] != g[b]);
        }
    }
    lemma_cover(t, cs);
    let q = Coordinate { x: qx as u32, y: qy as u32 };
    assert(t.contains(q));
    let i = choose|i: int| 0 <= i < t.len() && t[i] == q;
    let h = home_of(sol, kind, cx, cy, g[i]);
    assert(in_unit(kind, cx, cy, h.0, h.1) && sol[h.1][h.0] == g[i]);
    assert(h.0 == qx && h.1 == qy);
    assert(g.contains(g[i]));
}

impl SudokuGrid {
    /// In the neighbourhood `nbhd`, finds groups of values that can only go in the same
    /// cells, as many cells as values; every other value is struck from those cells. Every
    /// such group of two or more values (a hidden pair, triple or larger) is acted on.
    pub fn find_exclusives(&mut self, nbhd: Vec<SudokuCell>) -> (r: Result<(), SolveError>)
        requires
            old(self).wf(),
            exclusive_groups(nbhd@).len() > 0 ==> coords_in_grid(nbhd@),
        ensures
            r matches Err(e) ==> e == SolveError::CellEmptied,
            r is Err ==> emptiable(*final(self)),
            final(self).wf(),
            shrinks(*old(self), *final(self)),
            r is Ok ==> narrows(*old(self), *final(self)),
            old(self).at_home() && settled(*old(self)) && is_unit(*old(self), nbhd@)
                ==> forall|sol: Seq<Seq<u32>>| is_solution(sol) && #[trigger] agrees(*old(self), sol)
                    ==> r is Ok && agrees(*final(self), sol),
            r is Ok ==> forall|q: int, n: int| 0 <= q < exclusive_groups(nbhd@).len() && 0 <= n < nbhd@.len() && !nbhd@[n].defined
                ==> #[trigger] strikes_done(*final(self), exclusive_groups(nbhd@)[q], nbhd@[n]),
            r is Ok && distinct_coords(nbhd@) ==> forall|s: Seq<u32>, n: int, w: u32|
                #![trigger hidden_group(nbhd@, s), cleared(*final(self), nbhd@[n].coordinate.x as int, nbhd@[n].coordinate.y as int, w)]
                hidden_group(nbhd@, s) && 0 <= n < nbhd@.len() && !nbhd@[n].defined
                && coords_of(nbhd@, s[0]).contains(nbhd@[n].coordinate)
                && nbhd@[n].possible_values().contains(w) && !s.contains(w)
                ==> cleared(*final(self), nbhd@[n].coordinate.x as int, nbhd@[n].coordinate.y as int, w),
    {
        proof { lemma_narrows_refl(*self); }
        let ghost g0 = *self;
        let ghost ctx = g0.at_home() && settled(g0) && is_unit(g0, nbhd@);
        let mut all_possible: Vec<u32> = Vec::new();
        let mut value: u32 = 1;
        while value < GRID_SIZE_I + 1
            invariant
                1 <= value <= 10,
                forall|p: int, q: int| 0 <= p < q < all_possible@.len() ==> all_possible@[p] < all_possible@[q],
                forall|p: int| 0 <= p < all_possible@.len() ==> 1 <= #[trigger] all_possible@[p] < value,
                forall|w: u32| 1 <= w < value && coords_of(nbhd@, w).len() > 0 ==> #[trigger] all_possible@.contains(w),
                forall|w: u32| #[trigger] all_possible@.contains(w) ==> coords_of(nbhd@, w).len() > 0,
            decreases 10 - value,
        {
            let mut found = false;
            let mut i: usize = 0;
            while i < nbhd.len()
                invariant
                    i <= nbhd@.len(),
                    found == exists|t: int| 0 <= t < i && (#[trigger] nbhd@[t]).possible_values().contains(value),
                decreases nbhd.len() - i,
            {
                if contains_u32(&nbhd[i].get_possible(), value) {
                    found = true;
                }
                i += 1;
            }
            proof {
                lemma_coords_of(nbhd@, value);
                if found {
                    let t = choose|t: int| 0 <= t < nbhd@.len() && (#[trigger] nbhd@[t]).possible_values().contains(value);
                    assert(coords_of(nbhd@, value).contains(nbhd@[t].coordinate));
                } else if coords_of(nbhd@, value).len() > 0 {
                    assert(listed_from(nbhd@, value, coords_of(nbhd@, value)[0]));
                }
            }
            let ghost before = all_possible@;
            if found {
                all_possible.push(value);
            }
            proof {
                assert forall|w: u32| #[trigger] all_possible@.contains(w) implies coords_of(nbhd@, w).len() > 0 by {
                    if !found {
                        assert(all_possible@ == before);
                        assert(before.contains(w));
                    } else if w != value {
                        let k0 = choose|k: int| 0 <= k < all_possible@.len() && all_possible@[k] == w;
                        assert(k0 < before.len());
                        assert(before[k0] == w);
                        assert(before.contains(w));
                    }
                }
                assert forall|w: u32| 1 <= w < value + 1 && coords_of(nbhd@, w).len() > 0 implies #[trigger] all_possible@.contains(w) by {
                    if w < value {
                        assert(before.contains(w));
                        let k = choose|k: int| 0 <= k < before.len() && before[k] == w;
                        assert(all_possible@[k] == w);
                    } else {
                        assert(all_possible@[all_possible@.len() - 1] == w);
                    }
                }
            }
            value += 1;
        }

        let mut all_poss_array: PossTable = Vec::new();
        let mut a: usize = 0;
        while a < all_possible.len()
            invariant
                a <= all_possible@.len(),
                forall|p: int, q: int| 0 <= p < q < all_possible@.len() ==> all_possible@[p] < all_possible@[q],
                forall|p: int| 0 <= p < all_possible@.len() ==> 1 <= #[trigger] all_possible@[p] <= 9,
                forall|p: int, q: int| 0 <= p < q < all_poss_array@.len() ==> all_poss_array@[p].0 < all_poss_array@[q].0,
                a < all_possible@.len() ==> forall|p: int| 0 <= p < all_poss_array@.len() ==> all_poss_array@[p].0 < all_possible@[a as int],
                forall|p: int| 0 <= p < all_poss_array@.len() ==> 1 <= (#[trigger] all_poss_array@[p]).0 <= 9
                    && all_poss_array@[p].1@ == coords_of(nbhd@, all_poss_array@[p].0)
                    && all_poss_array@[p].1@.len() >= 2,
                forall|w: u32| 1 <= w <= 9 && coords_of(nbhd@, w).len() > 0 ==> #[trigger] all_possible@.contains(w),
                table_view(all_poss_array@) == table_for(nbhd@, if a == 0 { 0nat } else { all_possible@[a - 1] as nat }),
            decreases all_possible.len() - a,
        {
            let value = all_possible[a];
            let ghost lastv: nat = if a == 0 { 0nat } else { all_possible@[a - 1] as nat };
            proof {
                assert forall|w: u32| lastv < w <= (value - 1) as nat implies #[trigger] coords_of(nbhd@, w).len() == 0 by {
                    if coords_of(nbhd@, w).len() > 0 {
                        assert(all_possible@.contains(w));
                        let k = choose|k: int| 0 <= k < all_possible@.len() && all_possible@[k] == w;
                        if k < a {
                            if k < a - 1 {
                                assert(all_possible@[k] < all_possible@[a - 1]);
                            }
                        } else if k > a {
                            assert(all_possible@[a as int] < all_possible@[k]);
                        }
                    }
                }
                if a > 0 {
                    assert(all_possible@[a - 1] < all_possible@[a as int]);
                }
                lemma_table_gap(nbhd@, lastv, (value - 1) as nat);
            }
            let mut poss_coords: Vec<Coordinate> = Vec::new();
            let mut i: usize = 0;
            while i < nbhd.len()
                invariant
                    i <= nbhd@.len(),
                    poss_coords@ == coords_of(nbhd@.take(i as int), value),
                decreases nbhd.len() - i,
            {
                proof {
                    assert(nbhd@.take(i + 1).drop_last() =~= nbhd@.take(i as int));
                    reveal_with_fuel(Seq::filter, 1);
                }
                if contains_u32(&nbhd[i].get_possible(), value) {
                    poss_coords.push(nbhd[i].coordinate);
                    proof {
                        assert(taking(nbhd@.take(i + 1), value) == taking(nbhd@.take(i as int), value).push(nbhd@[i as int]));
                        assert(poss_coords@ =~= coords_of(nbhd@.take(i + 1), value));
                    }
                } else {
                    proof {
                        assert(taking(nbhd@.take(i + 1), value) == taking(nbhd@.take(i as int), value));
                    }
                }
                i += 1;
            }
            proof { assert(nbhd@.take(nbhd@.len() as int) =~= nbhd@); }
            proof {
                assert(table_view(all_poss_array@) == table_for(nbhd@, (value - 1) as nat));
            }
            let ghost before_t = all_poss_array@;
            if poss_coords.len() >= 2 {
                let ghost before = all_poss_array@;
                all_poss_array.push((value, poss_coords));
                proof {
                    assert forall|p: int| 0 <= p < all_poss_array@.len() implies 1 <= (#[trigger] all_poss_array@[p]).0 <= 9
                        && all_poss_array@[p].1@ == coords_of(nbhd@, all_poss_array@[p].0)
                        && all_poss_array@[p].1@.len() >= 2 by {
                        if p < before.len() {
                            assert(all_poss_array@[p] == before[p]);
                        }
                    }
                }
            }
            proof {
                assert(table_view(all_poss_array@) =~= table_for(nbhd@, value as nat));
            }
            a += 1;
        }

        proof {
            let lastv: nat = if all_possible@.len() == 0 { 0nat } else { all_possible@[all_possible@.len() - 1] as nat };
            assert forall|w: u32| lastv < w <= 9 implies #[trigger] coords_of(nbhd@, w).len() == 0 by {
                if coords_of(nbhd@, w).len() > 0 {
                    assert(all_possible@.contains(w));
                    let k = choose|k: int| 0 <= k < all_possible@.len() && all_possible@[k] == w;
                    if k < all_possible@.len() - 1 {
                        assert(all_possible@[k] < all_possible@[all_possible@.len() - 1]);
                    }
                }
            }
            lemma_table_gap(nbhd@, lastv, 9);
            assert(table_view(all_poss_array@) == table_for(nbhd@, 9));
        }

        proof {
            let keys = table_keys(table_view(all_poss_array@));
            assert forall|p: int, q: int| 0 <= p < keys.len() && 0 <= q < keys.len() && p != q implies keys[p] != keys[q] by {
                if p < q {
                    assert(all_poss_array@[p].0 < all_poss_array@[q].0);
                } else {
                    assert(all_poss_array@[q].0 < all_poss_array@[p].0);
                }
            }
            assert(groups_within(Seq::<Vec<u32>>::empty(), keys));
        }
        let ghost t = table_view(all_poss_array@);
        let mut excludes = look_for_matches(&all_poss_array, 0, Vec::new());
        proof {
            lemma_value_groups(t, 0);
            assert(groups_view(Seq::<Vec<u32>>::empty()) + value_groups(t, 0) =~= value_groups(t, 0));
            assert forall|g: int| 0 <= g < excludes@.len() implies group_from(t, 0, #[trigger] excludes@[g]@) by {
                assert(groups_view(excludes@)[g] == excludes@[g]@);
                assert(value_groups(t, 0)[g] == excludes@[g]@);
            }
        }
        let ghost vg = value_groups(t, 0);
        let ghost mut kk: int = 0;
        proof {
            assert(groups_view(excludes@) == vg);
            assert(groups_view(excludes@) =~= vg.take(0).filter(|g: Seq<u32>| group_sized(t, g)) + vg.skip(0)) by {
                reveal_with_fuel(Seq::filter, 1);
                assert(vg.take(0) =~= Seq::<Seq<u32>>::empty());
                assert(vg.skip(0) =~= vg);
            }
        }
        let mut i: usize = 0;
        while i < excludes.len()
            invariant
                i <= excludes@.len(),
                t == table_view(all_poss_array@),
                vg == value_groups(t, 0),
                0 <= kk <= vg.len(),
                groups_view(excludes@) == vg.take(kk).filter(|g: Seq<u32>| group_sized(t, g)) + vg.skip(kk),
                i == vg.take(kk).filter(|g: Seq<u32>| group_sized(t, g)).len(),
                table_keys(t).no_duplicates(),
                groups_within(excludes@, table_keys(table_view(all_poss_array@))),
                forall|g: int| 0 <= g < excludes@.len() ==> group_from(t, 0, #[trigger] excludes@[g]@),
                forall|g: int| 0 <= g < i ==> group_sized(t, #[trigger] excludes@[g]@),
            decreases excludes@.len() - i,
        {
            assert(excludes@[i as int]@.len() >= 1);
            let n_cells = coords_len_of(&all_poss_array, excludes[i][0]);
            let ghost gcur = excludes@[i as int]@;
            proof {
                assert(groups_view(excludes@)[i as int] == gcur);
                assert(gcur == vg[kk]);
                assert(vg.take(kk + 1).drop_last() =~= vg.take(kk));
                reveal_with_fuel(Seq::filter, 1);
                let pk = choose|pk: int| 0 <= pk < all_poss_array@.len() && all_poss_array@[pk].0 == gcur[0] && n_cells == all_poss_array@[pk].1@.len()
                    && forall|j: int| 0 <= j < pk ==> all_poss_array@[j].0 != gcur[0];
                assert(t[pk].0 == gcur[0] && t[pk].1.len() == n_cells);
                if group_sized(t, gcur) {
                    let p = choose|p: int| 0 <= p < t.len() && t[p].0 == gcur[0] && t[p].1.len() == gcur.len();
                    assert(table_keys(t)[p] == t[p].0 && table_keys(t)[pk] == t[pk].0);
                    assert(p == pk);
                }
            }
            if n_cells != excludes[i].len() {
                let ghost before = excludes@;
                excludes.remove(i);
                proof {
                    let a0 = vg.take(kk).filter(|g: Seq<u32>| group_sized(t, g));
                    assert(vg.take(kk + 1).drop_last() =~= vg.take(kk));
                    assert(vg.take(kk + 1).last() == vg[kk]);
                    assert(!group_sized(t, vg[kk]));
                    assert(vg.take(kk + 1).filter(|g: Seq<u32>| group_sized(t, g)) == a0) by {
                        reveal_with_fuel(Seq::filter, 1);
                    }
                    assert(groups_view(excludes@) =~= groups_view(before).remove(i as int)) by {
                        assert forall|q: int| 0 <= q < excludes@.len() implies groups_view(excludes@)[q] == groups_view(before).remove(i as int)[q] by {
                            if q < i {
                                assert(excludes@[q] == before[q]);
                            } else {
                                assert(excludes@[q] == before[q + 1]);
                            }
                        }
                    }
                    assert(groups_view(before) == a0 + vg.skip(kk));
                    assert((a0 + vg.skip(kk)).remove(i as int) =~= a0 + vg.skip(kk + 1));
                    kk = kk + 1;
                    assert(groups_view(excludes@) =~= vg.take(kk).filter(|g: Seq<u32>| group_sized(t, g)) + vg.skip(kk));
                    assert forall|g: int| 0 <= g < excludes@.len() implies (#[trigger] excludes@[g])@.len() >= 1
                        && forall|e: int| 0 <= e < excludes@[g]@.len() ==> table_keys(table_view(all_poss_array@)).contains(#[trigger] excludes@[g]@[e]) by {
                        if g < i {
                            assert(excludes@[g] == before[g]);
                        } else {
                            assert(excludes@[g] == before[g + 1]);
                        }
                    }
                    assert forall|g: int| 0 <= g < excludes@.len() implies group_from(t, 0, #[trigger] excludes@[g]@) by {
                        if g < i {
                            assert(excludes@[g] == before[g]);
                        } else {
                            assert(excludes@[g] == before[g + 1]);
                        }
                    }
                    assert forall|g: int| 0 <= g < i implies group_sized(t, #[trigger] excludes@[g]@) by {
                        assert(excludes@[g] == before[g]);
                    }
                }
                continue;
            }
            proof {
                let gi = excludes@[i as int]@;
                let pk = choose|pk: int| 0 <= pk < all_poss_array@.len() && all_poss_array@[pk].0 == gi[0] && n_cells == all_poss_array@[pk].1@.len()
                    && forall|j: int| 0 <= j < pk ==> all_poss_array@[j].0 != gi[0];
                assert(t[pk].0 == gi[0] && t[pk].1.len() == gi.len());
                assert(group_sized(t, gi));
                kk = kk + 1;
                assert(groups_view(excludes@) =~= vg.take(kk).filter(|g: Seq<u32>| group_sized(t, g)) + vg.skip(kk));
            }
            i += 1;
        }
        proof {
            assert(vg.skip(kk).len() == 0);
            assert(vg.take(kk) =~= vg);
            assert(groups_view(excludes@) =~= exclusive_groups(nbhd@));
        }

        let nbhd_poss = self.return_poss(Self::copy_cells(&nbhd));
        proof {
            if exclusive_groups(nbhd@).len() > 0 {
                assert forall|q: int| 0 <= q < nbhd_poss@.len() implies (#[trigger] nbhd_poss@[q]).coordinate.x < 9 && nbhd_poss@[q].coordinate.y < 9 by {
                    crate::placement::lemma_open_cells_from(nbhd@);
                    let c = crate::cell::open_cells(nbhd@)[q];
                    assert(nbhd_poss@[q] == crate::grid::reopened(c));
                }
            }
            assert forall|q: int| 0 <= q < nbhd_poss@.len() implies #[trigger] copied_from(nbhd@, nbhd_poss@[q]) by {
                crate::placement::lemma_open_cells_from(nbhd@);
                let c = crate::cell::open_cells(nbhd@)[q];
                assert(nbhd_poss@[q] == crate::grid::reopened(c));
                assert(nbhd@.contains(c));
                crate::siblings::lemma_open_cells_undefined(nbhd@, q);
                let k = choose|k: int| 0 <= k < nbhd@.len() && nbhd@[k] == c;
                assert(!nbhd@[k].defined && nbhd@[k].states == nbhd_poss@[q].states && nbhd@[k].coordinate == nbhd_poss@[q].coordinate);
            }
        }
        let mut si: usize = 0;
        while si < excludes.len()
            invariant
                self.wf(),
                narrows(*old(self), *self),
                excludes@.len() > 0 ==> coords_in_grid(nbhd_poss@),
                si <= excludes@.len(),
                g0 == *old(self),
                g0.wf(),
                t == table_view(all_poss_array@),
                ctx == (g0.at_home() && settled(g0) && is_unit(g0, nbhd@)),
                table_keys(t).no_duplicates(),
                forall|g: int| 0 <= g < excludes@.len() ==> group_from(t, 0, #[trigger] excludes@[g]@),
                forall|g: int| 0 <= g < excludes@.len() ==> group_sized(t, #[trigger] excludes@[g]@),
                forall|p: int| 0 <= p < t.len() ==> 1 <= (#[trigger] t[p]).0 <= 9 && t[p].1 == coords_of(nbhd@, t[p].0) && t[p].1.len() >= 2,
                forall|q: int| 0 <= q < nbhd_poss@.len() ==> #[trigger] copied_from(nbhd@, nbhd_poss@[q]),
                ctx ==> forall|sol: Seq<Seq<u32>>| is_solution(sol) && #[trigger] agrees(*old(self), sol) ==> agrees(*self, sol),
                groups_view(excludes@) == exclusive_groups(nbhd@),
                nbhd_poss@ == open_cells(nbhd@).map_values(|c: SudokuCell| reopened(c)),
                forall|q: int, c: int| 0 <= q < si && 0 <= c < nbhd_poss@.len() ==> #[trigger] strikes_done(*self, excludes@[q]@, nbhd_poss@[c]),
            decreases excludes@.len() - si,
        {
            let set = &excludes[si];
            let ghost si_start = *self;
            let mut ci: usize = 0;
            while ci < nbhd_poss.len()
                invariant
                    self.wf(),
                    narrows(*old(self), *self),
                    excludes@.len() > 0 ==> coords_in_grid(nbhd_poss@),
                    ci <= nbhd_poss@.len(),
                    g0 == *old(self),
                    g0.wf(),
                    t == table_view(all_poss_array@),
                    ctx == (g0.at_home() && settled(g0) && is_unit(g0, nbhd@)),
                    table_keys(t).no_duplicates(),
                    group_from(t, 0, set@),
                    group_sized(t, set@),
                    forall|p: int| 0 <= p < t.len() ==> 1 <= (#[trigger] t[p]).0 <= 9 && t[p].1 == coords_of(nbhd@, t[p].0) && t[p].1.len() >= 2,
                    forall|q: int| 0 <= q < nbhd_poss@.len() ==> #[trigger] copied_from(nbhd@, nbhd_poss@[q]),
                    ctx ==> forall|sol: Seq<Seq<u32>>| is_solution(sol) && #[trigger] agrees(*old(self), sol) ==> agrees(*self, sol),
                    set@ == excludes@[si as int]@,
                    si < excludes@.len(),
                    shrinks(si_start, *self),
                    forall|q: int, c: int| 0 <= q < si && 0 <= c < nbhd_poss@.len() ==> #[trigger] strikes_done(si_start, excludes@[q]@, nbhd_poss@[c]),
                    forall|c: int| 0 <= c < ci ==> #[trigger] strikes_done(*self, set@, nbhd_poss@[c]),
                decreases nbhd_poss@.len() - ci,
            {
                let cell = nbhd_poss[ci];
                let cell_set = cell.get_possible();
                let ghost ci_start = *self;
                proof {
                    lemma_values_with(cell.states@, ValueStatus::Possible, 9);
                }
                if all_contained(set, &cell_set) {
                    proof {
                        if ctx {
                            assert(copied_from(nbhd@, cell));
                            assert forall|sol: Seq<Seq<u32>>| is_solution(sol) && #[trigger] agrees(*old(self), sol)
                                implies set@.contains(sol[cell.coordinate.y as int][cell.coordinate.x as int]) by {
                                lemma_exclusive_cell(g0, sol, nbhd@, t, set@, cell);
                            }
                        }
                    }
                    let mut vi: usize = 0;
                    while vi < cell_set.len()
                        invariant
                            self.wf(),
                            narrows(*old(self), *self),
                            cell.coordinate.x < 9,
                            cell.coordinate.y < 9,
                            vi <= cell_set@.len(),
                            g0 == *old(self),
                            ctx == (g0.at_home() && settled(g0) && is_unit(g0, nbhd@)),
                            ctx ==> forall|sol: Seq<Seq<u32>>| is_solution(sol) && #[trigger] agrees(*old(self), sol)
                                ==> agrees(*self, sol) && set@.contains(sol[cell.coordinate.y as int][cell.coordinate.x as int]),
                            cell_set@ == cell.possible_values(),
                            forall|k: int| 0 <= k < cell_set@.len() ==> 1 <= #[trigger] cell_set@[k] <= 9,
                            shrinks(ci_start, *self),
                            forall|k: int| 0 <= k < vi && !set@.contains(#[trigger] cell_set@[k]) ==> cleared(*self, cell.coordinate.x as int, cell.coordinate.y as int, cell_set@[k]),
                        decreases cell_set@.len() - vi,
                    {
                        let value = cell_set[vi];
                        if contains_u32(set, value) {
                            vi += 1;
                            continue;
                        }
                        let ghost before = *self;
                        match self.eliminate(cell.coordinate.x, cell.coordinate.y, value) {
                            Ok(()) => {},
                            Err(e) => {
                                proof {
                                    lemma_shrinks_trans(*old(self), before, *self);
                                    if ctx {
                                        assert forall|sol: Seq<Seq<u32>>| is_solution(sol) && #[trigger] agrees(*old(self), sol) implies false by {
                                            assert(agrees(before, sol));
                                        }
                                    }
                                }
                                return Err(e);
                            },
                        }
                        proof {
                            lemma_narrows_trans(*old(self), before, *self);
                            lemma_shrinks_trans(ci_start, before, *self);
                            assert forall|k: int| 0 <= k < vi + 1 && !set@.contains(#[trigger] cell_set@[k]) implies cleared(*self, cell.coordinate.x as int, cell.coordinate.y as int, cell_set@[k]) by {
                                if k < vi {
                                    lemma_cleared_stays(before, *self, cell.coordinate.x as int, cell.coordinate.y as int, cell_set@[k]);
                                }
                            }
                            if ctx {
                                assert forall|sol: Seq<Seq<u32>>| is_solution(sol) && #[trigger] agrees(*old(self), sol)
                                    implies agrees(*self, sol) && set@.contains(sol[cell.coordinate.y as int][cell.coordinate.x as int]) by {
                                    assert(agrees(before, sol));
                                }
                            }
                        }
                        vi += 1;
                    }
                    proof {
                        assert forall|v: u32| cell.possible_values().contains(v) && !set@.contains(v)
                            implies cleared(*self, cell.coordinate.x as int, cell.coordinate.y as int, v) by {
                            let k = choose|k: int| 0 <= k < cell_set@.len() && cell_set@[k] == v;
                            assert(!set@.contains(cell_set@[k]));
                        }
                        assert(strikes_done(*self, set@, cell));
                    }
                } else {
                    proof {
                        let e = choose|e: int| !(0 <= e < set@.len() ==> cell_set@.contains(#[trigger] set@[e]));
                        assert(!(forall|e2: int| 0 <= e2 < set@.len() ==> cell.possible_values().contains(#[trigger] set@[e2])));
                        assert(strikes_done(*self, set@, cell));
                    }
                }
                proof {
                    assert(nbhd_poss@[ci as int] == cell);
                    assert forall|c: int| 0 <= c < ci + 1 implies #[trigger] strikes_done(*self, set@, nbhd_poss@[c]) by {
                        if c < ci {
                            lemma_strikes_done_stays(ci_start, *self, set@, nbhd_poss@[c]);
                        }
                    }
                }
                ci += 1;
            }
            proof {
                assert forall|q: int, c: int| 0 <= q < si + 1 && 0 <= c < nbhd_poss@.len() implies #[trigger] strikes_done(*self, excludes@[q]@, nbhd_poss@[c]) by {
                    if q < si {
                        lemma_strikes_done_stays(si_start, *self, excludes@[q]@, nbhd_poss@[c]);
                    }
                }
            }
            si += 1;
        }
        proof {
            assert forall|q: int, n: int| 0 <= q < exclusive_groups(nbhd@).len() && 0 <= n < nbhd@.len() && !nbhd@[n].defined
                implies #[trigger] strikes_done(*self, exclusive_groups(nbhd@)[q], nbhd@[n]) by {
                assert(groups_view(excludes@)[q] == excludes@[q]@);
                crate::cell::lemma_open_cells_has(nbhd@, n);
                let c = choose|c: int| 0 <= c < crate::cell::open_cells(nbhd@).len() && crate::cell::open_cells(nbhd@)[c] == nbhd@[n];
                assert(nbhd_poss@[c] == reopened(nbhd@[n]));
                assert(strikes_done(*self, excludes@[q]@, nbhd_poss@[c]));
                assert(nbhd_poss@[c].possible_values() == nbhd@[n].possible_values());
            }
            if distinct_coords(nbhd@) {
                assert forall|s: Seq<u32>, n: int, w: u32|
                    #![trigger hidden_group(nbhd@, s), cleared(*self, nbhd@[n].coordinate.x as int, nbhd@[n].coordinate.y as int, w)]
                    hidden_group(nbhd@, s) && 0 <= n < nbhd@.len() && !nbhd@[n].defined
                    && coords_of(nbhd@, s[0]).contains(nbhd@[n].coordinate)
                    && nbhd@[n].possible_values().contains(w) && !s.contains(w)
                    implies cleared(*self, nbhd@[n].coordinate.x as int, nbhd@[n].coordinate.y as int, w) by {
                    lemma_hidden_group(nbhd@, s);
                    let q = choose|q: int| 0 <= q < exclusive_groups(nbhd@).len() && same_members(#[trigger] exclusive_groups(nbhd@)[q], s);
                    let g = exclusive_groups(nbhd@)[q];
                    assert(strikes_done(*self, g, nbhd@[n]));
                    assert forall|e: int| 0 <= e < g.len() implies nbhd@[n].possible_values().contains(#[trigger] g[e]) by {
                        assert(g.contains(g[e]));
                        assert(s.contains(g[e]));
                        let ee = choose|ee: int| 0 <= ee < s.len() && s[ee] == g[e];
                        assert(1 <= s[ee] <= 9);
                        assert(coords_of(nbhd@, g[e]) == coords_of(nbhd@, s[0]));
                        lemma_coords_of(nbhd@, g[e]);
                        let kk = choose|kk: int| 0 <= kk < coords_of(nbhd@, g[e]).len() && coords_of(nbhd@, g[e])[kk] == nbhd@[n].coordinate;
                        assert(listed_from(nbhd@, g[e], coords_of(nbhd@, g[e])[kk]));
                        let i = choose|i: int| 0 <= i < nbhd@.len() && (#[trigger] nbhd@[i]).possible_values().contains(g[e]) && nbhd@[i].coordinate == nbhd@[n].coordinate;
                        if i != n {
                            if i < n { assert(nbhd@[i].coordinate != nbhd@[n].coordinate); } else { assert(nbhd@[n].coordinate != nbhd@[i].coordinate); }
                        }
                    }
                    assert(!g.contains(w));
                }
            }
        }
        Ok(())
    }
}

/// When cell `c` can take every value of the group `g`, each other value it can take is
/// cleared from its position in `grid`.
pub open spec fn strikes_done(grid: SudokuGrid, g: Seq<u32>, c: SudokuCell) -> bool {
    (forall|e: int| 0 <= e < g.len() ==> c.possible_values().contains(#[trigger] g[e]))
        ==> forall|v: u32| c.possible_values().contains(v) && !g.contains(v)
            ==> #[trigger] cleared(grid, c.coordinate.x as int, c.coordinate.y as int, v)
}

/// What was cleared stays cleared as the grid shrinks.
pub proof fn lemma_strikes_done_stays(a: SudokuGrid, b: SudokuGrid, g: Seq<u32>, c: SudokuCell)
    requires
        strikes_done(a, g, c),
        shrinks(a, b),
        c.coordinate.x < 9,
        c.coordinate.y < 9,
    ensures
        strikes_done(b, g, c),
{
    if forall|e: int| 0 <= e < g.len() ==> c.possible_values().contains(#[trigger] g[e]) {
        assert forall|v: u32| c.possible_values().contains(v) && !g.contains(v)
            implies #[trigger] cleared(b, c.coordinate.x as int, c.coordinate.y as int, v) by {
            lemma_values_with(c.states@, ValueStatus::Possible, 9);
            lemma_cleared_stays(a, b, c.coordinate.x as int, c.coordinate.y as int, v);
        }
    }
}

/// The table built for `nbhd`: each value from 1 to `n` that at least two cells of `nbhd` can
/// take, with the coordinates of those cells, in increasing order of value.
pub open spec fn table_for(nbhd: Seq<SudokuCell>, n: nat) -> Seq<(u32, Seq<Coordinate>)>
    decreases n,
{
    if n == 0 {
        Seq::empty()
    } else {
        let prev = table_for(nbhd, (n - 1) as nat);
        if coords_of(nbhd, n as u32).len() >= 2 {
            prev.push((n as u32, coords_of(nbhd, n as u32)))
        } else {
            prev
        }
    }
}

/// Values that no cell can take add nothing to the table.
pub proof fn lemma_table_gap(nbhd: Seq<SudokuCell>, lo: nat, hi: nat)
    requires
        lo <= hi <= 9,
        forall|w: u32| lo < w <= hi ==> #[trigger] coords_of(nbhd, w).len() == 0,
    ensures
        table_for(nbhd, hi) == table_for(nbhd, lo),
    decreases hi,
{
    if hi > lo {
        assert(coords_of(nbhd, hi as u32).len() == 0);
        lemma_table_gap(nbhd, lo, (hi - 1) as nat);
    }
}

/// `a` and `b` hold the same values.
pub open spec fn same_members(a: Seq<u32>, b: Seq<u32>) -> bool {
    forall|w: u32| a.contains(w) <==> b.contains(w)
}

/// The values `s` (at least two, each once) can go only in the same cells of `nbhd`, as many
/// cells as values, and no other value can go in exactly those cells: a hidden pair, triple
/// or larger group.
pub open spec fn hidden_group(nbhd: Seq<SudokuCell>, s: Seq<u32>) -> bool {
    &&& 2 <= s.len()
    &&& s.no_duplicates()
    &&& forall|e: int| 0 <= e < s.len() ==> 1 <= #[trigger] s[e] <= 9
    &&& coords_of(nbhd, s[0]).len() == s.len()
    &&& forall|w: u32| 1 <= w <= 9 ==> (s.contains(w) <==> #[trigger] coords_of(nbhd, w) == coords_of(nbhd, s[0]))
}

/// The table lists, in increasing order, each value from 1 to `n` that at least two cells can
/// take, with the coordinates of those cells.
pub proof fn lemma_table_for(nbhd: Seq<SudokuCell>, n: nat)
    requires
        n <= 9,
    ensures
        forall|i: int| 0 <= i < table_for(nbhd, n).len() ==> 1 <= (#[trigger] table_for(nbhd, n)[i]).0 <= n
            && table_for(nbhd, n)[i].1 == coords_of(nbhd, table_for(nbhd, n)[i].0)
            && table_for(nbhd, n)[i].1.len() >= 2,
        forall|i: int, j: int| 0 <= i < j < table_for(nbhd, n).len() ==> table_for(nbhd, n)[i].0 < table_for(nbhd, n)[j].0,
        forall|w: u32| 1 <= w <= n && #[trigger] coords_of(nbhd, w).len() >= 2
            ==> exists|i: int| 0 <= i < table_for(nbhd, n).len() && table_for(nbhd, n)[i].0 == w,
    decreases n,
{
    if n > 0 {
        lemma_table_for(nbhd, (n - 1) as nat);
        let prev = table_for(nbhd, (n - 1) as nat);
        let t = table_for(nbhd, n);
        assert forall|w: u32| 1 <= w <= n && #[trigger] coords_of(nbhd, w).len() >= 2
            implies exists|i: int| 0 <= i < t.len() && t[i].0 == w by {
            if w < n {
                let i = choose|i: int| 0 <= i < prev.len() && prev[i].0 == w;
                assert(t[i] == prev[i]);
            } else {
                assert(t[t.len() - 1].0 == w);
            }
        }
        assert forall|i: int| 0 <= i < t.len() implies 1 <= (#[trigger] t[i]).0 <= n
            && t[i].1 == coords_of(nbhd, t[i].0) && t[i].1.len() >= 2 by {
            if i < prev.len() {
                assert(t[i] == prev[i]);
            }
        }
        assert forall|i: int, j: int| 0 <= i < j < t.len() implies t[i].0 < t[j].0 by {
            if j < prev.len() {
                assert(t[i] == prev[i] && t[j] == prev[j]);
            } else {
                assert(t[i] == prev[i]);
                assert(prev[i].0 <= n - 1);
            }
        }
    }
}

/// The kept group of entry `i` is among the kept groups from any entry up to `i`.
proof fn lemma_value_groups_has(t: Seq<(u32, Seq<Coordinate>)>, from: int, i: int)
    requires
        0 <= from <= i < t.len(),
        kept_group(t, i),
    ensures
        value_groups(t, from).contains(value_group(t, i)),
    decreases i - from,
{
    let vg = value_groups(t, from);
    if from == i {
        assert(vg[0] == value_group(t, i));
    } else {
        lemma_value_groups_has(t, from + 1, i);
        let rest = value_groups(t, from + 1);
        let k = choose|k: int| 0 <= k < rest.len() && rest[k] == value_group(t, i);
        if kept_group(t, from) {
            assert(vg[k + 1] == rest[k]);
        } else {
            assert(vg[k] == rest[k]);
        }
    }
}

/// A later entry with the cells of entry `i` has its value among the later values of `i`.
proof fn lemma_later_member(t: Seq<(u32, Seq<Coordinate>)>, i: int, j: int, p: int)
    requires
        0 <= i < p < j <= t.len(),
        t[p].1 == t[i].1,
    ensures
        same_cells_later(t, i, j).contains(t[p].0),
    decreases j,
{
    let cur = same_cells_later(t, i, j);
    if p == j - 1 {
        assert(cur[cur.len() - 1] == t[p].0);
    } else {
        lemma_later_member(t, i, j - 1, p);
        let prev = same_cells_later(t, i, j - 1);
        let k = choose|k: int| 0 <= k < prev.len() && prev[k] == t[p].0;
        assert(cur[k] == prev[k]);
    }
}

/// Among the entries up to `k`, there is a first one whose value is in `s`.
proof fn lemma_first_member(t: Seq<(u32, Seq<Coordinate>)>, s: Seq<u32>, k: int)
    requires
        0 <= k < t.len(),
        s.contains(t[k].0),
    ensures
        exists|i: int| 0 <= i <= k && s.contains(t[i].0) && forall|j: int| 0 <= j < i ==> !s.contains(#[trigger] t[j].0),
    decreases k,
{
    if exists|j: int| 0 <= j < k && s.contains(#[trigger] t[j].0) {
        let j = choose|j: int| 0 <= j < k && s.contains(#[trigger] t[j].0);
        lemma_first_member(t, s, j);
    } else {
        assert(forall|j: int| 0 <= j < k ==> !s.contains(#[trigger] t[j].0));
    }
}

/// A hidden group is one of the groups `find_exclusives` acts on: that group holds exactly
/// its values.
pub proof fn lemma_hidden_group(nbhd: Seq<SudokuCell>, s: Seq<u32>)
    requires
        hidden_group(nbhd, s),
    ensures
        exists|q: int| 0 <= q < exclusive_groups(nbhd).len() && same_members(#[trigger] exclusive_groups(nbhd)[q], s),
{
    broadcast use vstd::seq_lib::group_filter_ensures;
    let t = table_for(nbhd, 9);
    lemma_table_for(nbhd, 9);
    let l = coords_of(nbhd, s[0]);
    assert(s.contains(s[0]));
    assert(1 <= s[0] <= 9);
    assert(coords_of(nbhd, s[0]).len() >= 2);
    let k0 = choose|i: int| 0 <= i < t.len() && t[i].0 == s[0];
    lemma_first_member(t, s, k0);
    let i0 = choose|i: int| 0 <= i <= k0 && s.contains(t[i].0) && forall|j: int| 0 <= j < i ==> !s.contains(#[trigger] t[j].0);
    assert(table_keys(t).no_duplicates()) by {
        assert forall|a: int, b: int| 0 <= a < table_keys(t).len() && 0 <= b < table_keys(t).len() && a != b
            implies table_keys(t)[a] != table_keys(t)[b] by {
            if a < b { assert(t[a].0 < t[b].0); } else { assert(t[b].0 < t[a].0); }
        }
    }
    assert(t[i0].1 == l) by {
        assert(t[i0].1 == coords_of(nbhd, t[i0].0));
    }
    let g = value_group(t, i0);
    lemma_value_group_members(t, i0);
    let scl = same_cells_later(t, i0, t.len() as int);
    assert forall|w: u32| g.contains(w) <==> s.contains(w) by {
        if g.contains(w) {
            let e = choose|e: int| 0 <= e < g.len() && g[e] == w;
            let p = choose|p: int| 0 <= p < t.len() && t[p].0 == #[trigger] g[e] && t[p].1 == t[i0].1;
            assert(t[p].1 == coords_of(nbhd, t[p].0));
        }
        if s.contains(w) {
            let e = choose|e: int| 0 <= e < s.len() && s[e] == w;
            assert(1 <= s[e] <= 9);
            assert(coords_of(nbhd, w) == l);
            let p = choose|i: int| 0 <= i < t.len() && t[i].0 == w;
            if p < i0 {
                assert(!s.contains(t[p].0));
            } else if p == i0 {
                assert(g[0] == w);
            } else {
                assert(t[p].1 == coords_of(nbhd, w));
                lemma_later_member(t, i0, t.len() as int, p);
                let k = choose|k: int| 0 <= k < scl.len() && scl[k] == w;
                assert(g[k + 1] == w);
            }
        }
    }
    assert(g.len() == s.len()) by {
        assert(g.to_set() =~= s.to_set());
        g.unique_seq_to_set();
        s.unique_seq_to_set();
    }
    assert(kept_group(t, i0));
    lemma_value_groups_has(t, 0, i0);
    let vg = value_groups(t, 0);
    let k = choose|k: int| 0 <= k < vg.len() && vg[k] == g;
    assert(group_sized(t, g)) by {
        assert(t[i0].0 == g[0] && t[i0].1.len() == g.len());
    }
    vg.lemma_filter_contains(|gg: Seq<u32>| group_sized(t, gg), k);
    let eg = exclusive_groups(nbhd);
    assert(eg.contains(g));
    let q = choose|q: int| 0 <= q < eg.len() && eg[q] == g;
    assert(same_members(eg[q], s));
}

/// The groups of values `find_exclusives` acts on for `nbhd`: the kept groups of its table
/// with as many values as cells.
pub open spec fn exclusive_groups(nbhd: Seq<SudokuCell>) -> Seq<Seq<u32>> {
    value_groups(table_for(nbhd, 9), 0).filter(|g: Seq<u32>| group_sized(table_for(nbhd, 9), g))
}

/// `a` and `b` hold the same cells, each once, in any order.
pub open spec fn same_cells_as(a: Seq<SudokuCell>, b: Seq<SudokuCell>) -> bool {
    &&& a.len() == b.len()
    &&& forall|i: int| 0 <= i < a.len() ==> b.contains(#[trigger] a[i])
    &&& forall|j: int| 0 <= j < b.len() ==> a.contains(#[trigger] b[j])
}

/// A sequence holds the same cells as itself.
pub proof fn lemma_same_cells_as_refl(s: Seq<SudokuCell>)
    ensures
        same_cells_as(s, s),
{
    assert forall|i: int| 0 <= i < s.len() implies s.contains(#[trigger] s[i]) by {}
}

/// `nbhd` holds the cells of one row, column or box of `g`, in any order.
pub open spec fn is_unit(g: SudokuGrid, nbhd: Seq<SudokuCell>) -> bool {
    exists|kind: int, cx: int, cy: int| 0 <= kind < 3 && 0 <= cx < 9 && 0 <= cy < 9 && same_cells_as(nbhd, g.unit_cells(kind, cx, cy))
}

/// The group `g` has as many values as cells listed for its first value.
pub open spec fn group_sized(t: Seq<(u32, Seq<Coordinate>)>, g: Seq<u32>) -> bool {
    exists|p: int| 0 <= p < t.len() && t[p].0 == g[0] && t[p].1.len() == g.len()
}

/// `c` is an open copy of a cell of `nbhd`: same states and coordinate.
pub open spec fn copied_from(nbhd: Seq<SudokuCell>, c: SudokuCell) -> bool {
    exists|k: int| 0 <= k < nbhd.len() && !nbhd[k].defined && #[trigger] nbhd[k].states == c.states && nbhd[k].coordinate == c.coordinate
}

/// A cell of the unit that can take every value of a kept, sized group has one of them in
/// the solution.
pub proof fn lemma_exclusive_cell(g0: SudokuGrid, sol: Seq<Seq<u32>>, nbhd: Seq<SudokuCell>, t: Seq<(u32, Seq<Coordinate>)>, set: Seq<u32>, cell: SudokuCell)
    requires
        g0.wf(),
        g0.at_home(),
        settled(g0),
        is_unit(g0, nbhd),
        is_solution(sol),
        agrees(g0, sol),
        table_keys(t).no_duplicates(),
        group_from(t, 0, set),
        group_sized(t, set),
        forall|p: int| 0 <= p < t.len() ==> 1 <= (#[trigger] t[p]).0 <= 9 && t[p].1 == coords_of(nbhd, t[p].0) && t[p].1.len() >= 2,
        copied_from(nbhd, cell),
        forall|i: int| 0 <= i < set.len() ==> cell.possible_values().contains(#[trigger] set[i]),
    ensures
        set.contains(sol[cell.coordinate.y as int][cell.coordinate.x as int]),
{
    let (kind, cx, cy) = choose|kind: int, cx: int, cy: int| 0 <= kind < 3 && 0 <= cx < 9 && 0 <= cy < 9
        && same_cells_as(nbhd, g0.unit_cells(kind, cx, cy));
    let u = g0.unit_cells(kind, cx, cy);
    let i = choose|i: int| 0 <= i < t.len() && kept_group(t, i) && set == value_group(t, i);
    lemma_value_group_members(t, i);
    let pk = choose|pk: int| 0 <= pk < t.len() && t[pk].0 == set[0] && t[pk].1.len() == set.len();
    assert(table_keys(t)[pk] == t[pk].0 && table_keys(t)[i] == t[i].0);
    assert(pk == i);
    let cs = t[i].1;
    lemma_unit_cells(g0, kind, cx, cy);
    assert forall|e: int| 0 <= e < set.len() implies 1 <= #[trigger] set[e] <= 9 && coords_of(u, set[e]).len() >= 1 by {
        let p = choose|p: int| 0 <= p < t.len() && t[p].0 == set[e] && t[p].1 == t[i].1;
        assert(1 <= t[p].0 <= 9);
        let v = set[e];
        assert(t[p].1 == coords_of(nbhd, v));
        lemma_coords_of(nbhd, v);
        assert(listed_from(nbhd, v, coords_of(nbhd, v)[0]));
        let inb = choose|inb: int| 0 <= inb < nbhd.len() && (#[trigger] nbhd[inb]).possible_values().contains(v) && nbhd[inb].coordinate == coords_of(nbhd, v)[0];
        assert(u.contains(nbhd[inb]));
        let ju = choose|ju: int| 0 <= ju < u.len() && u[ju] == nbhd[inb];
        lemma_coords_of(u, v);
        assert(coords_of(u, v).contains(u[ju].coordinate));
    }
    assert forall|e: int, c: Coordinate| 0 <= e < set.len() && #[trigger] coords_of(u, set[e]).contains(c) implies cs.contains(c) by {
        let p = choose|p: int| 0 <= p < t.len() && t[p].0 == set[e] && t[p].1 == t[i].1;
        let v = set[e];
        lemma_coords_of(u, v);
        let q = choose|q: int| 0 <= q < coords_of(u, v).len() && coords_of(u, v)[q] == c;
        assert(listed_from(u, v, coords_of(u, v)[q]));
        let iu = choose|iu: int| 0 <= iu < u.len() && (#[trigger] u[iu]).possible_values().contains(v) && u[iu].coordinate == c;
        assert(nbhd.contains(u[iu]));
        let jn = choose|jn: int| 0 <= jn < nbhd.len() && nbhd[jn] == u[iu];
        lemma_coords_of(nbhd, v);
        assert(coords_of(nbhd, v).contains(nbhd[jn].coordinate));
        assert(t[p].1 == coords_of(nbhd, t[p].0));
    }
    let k = choose|k: int| 0 <= k < nbhd.len() && !nbhd[k].defined && #[trigger] nbhd[k].states == cell.states && nbhd[k].coordinate == cell.coordinate;
    assert(cell.possible_values().contains(set[0]));
    assert(nbhd[k].possible_values() == cell.possible_values());
    lemma_coords_of(nbhd, set[0]);
    assert(coords_of(nbhd, set[0]).contains(nbhd[k].coordinate));
    assert(u.contains(nbhd[k]));
    let j = choose|j: int| 0 <= j < u.len() && u[j] == nbhd[k];
    assert(u[j] == g0.cell(unit_x(kind, cx, j), unit_y(kind, cy, j)));
    assert(cell.coordinate == (Coordinate { x: unit_x(kind, cx, j) as u32, y: unit_y(kind, cy, j) as u32 }));
    lemma_hidden_subset(g0, sol, kind, cx, cy, set, cs, unit_x(kind, cx, j), unit_y(kind, cy, j));
}

} // verus!
