use vstd::prelude::*;
use crate::cell::{SudokuCell, Coordinate, ValueStatus};
use crate::grid::{emptiable, SudokuGrid, SolveError, GRID_SIZE, narrows, lemma_narrows_trans, lemma_narrows_refl, shrinks, lemma_shrinks_trans};
use crate::sbox::SudokuBox;
use crate::techniques::equal_coords;
use crate::cell::{open_cells, values_with};
use crate::grid::{reopened, cell_narrows};
use crate::solution::{is_solution, agrees, cell_agrees, peers, in_unit, is_unit_of, unit_x, unit_y, lemma_unit_cells, lemma_unit_peers};
use crate::placement::{lemma_single_left, lemma_box_position, cleared, lemma_cleared_stays};

verus! {

/// Every cell of `cells` has a coordinate inside the grid.
pub open spec fn coords_in_grid(cells: Seq<SudokuCell>) -> bool {
    forall|i: int| 0 <= i < cells.len() ==> (#[trigger] cells[i]).coordinate.x < 9 && cells[i].coordinate.y < 9
}

/// The value states of `cell` whose status is possible, in order.
pub fn possible_states(cell: &SudokuCell) -> (r: Vec<(ValueStatus, u32)>)
    ensures
        r@ == possible_of(cell.states@),
{
    let mut r: Vec<(ValueStatus, u32)> = Vec::new();
    let mut i: usize = 0;
    while i < 9
        invariant
            i <= 9,
            r@ == possible_of(cell.states@.take(i as int)),
        decreases 9 - i,
    {
        proof {
            assert(cell.states@.take(i + 1).drop_last() =~= cell.states@.take(i as int));
            reveal_with_fuel(Seq::filter, 1);
        }
        if cell.states[i].0 == ValueStatus::Possible {
            r.push(cell.states[i]);
        }
        i += 1;
    }
    proof { assert(cell.states@.take(9) =~= cell.states@); }
    r
}

/// How many positions `i < n` have equal labels `a[i].1 == b[i].1`.
pub open spec fn labels_matching(a: Seq<(ValueStatus, u32)>, b: Seq<(ValueStatus, u32)>, n: int) -> nat
    decreases n,
{
    if n <= 0 {
        0
    } else {
        labels_matching(a, b, n - 1) + (if a[n - 1].1 == b[n - 1].1 { 1nat } else { 0nat })
    }
}

/// How many positions `i` (within both lists) have equal labels `a[i].1 == b[i].1`.
pub fn matching_labels(a: &Vec<(ValueStatus, u32)>, b: &Vec<(ValueStatus, u32)>) -> (r: usize)
    ensures
        r == labels_matching(a@, b@, if a@.len() <= b@.len() { a@.len() as int } else { b@.len() as int }),
{
    let mut count: usize = 0;
    let mut i: usize = 0;
    while i < a.len() && i < b.len()
        invariant
            count == labels_matching(a@, b@, i as int),
            count <= i,
            i <= a@.len(),
            i <= b@.len(),
        decreases a.len() - i,
    {
        if a[i].1 == b[i].1 {
            count += 1;
        }
        i += 1;
    }
    count
}

/// The states of `st` whose status is possible, in order.
pub open spec fn possible_of(st: Seq<(ValueStatus, u32)>) -> Seq<(ValueStatus, u32)> {
    st.filter(|e: (ValueStatus, u32)| e.0 == ValueStatus::Possible)
}

/// The labels (values) of a list of value states, in order.
pub open spec fn labels(s: Seq<(ValueStatus, u32)>) -> Seq<u32> {
    s.map_values(|e: (ValueStatus, u32)| e.1)
}

/// `s` is an open copy of the cell of `g` at its coordinate: that cell is open and has the
/// same value states.
pub open spec fn open_copy(g: SudokuGrid, s: SudokuCell) -> bool {
    &&& s.coordinate.x < 9
    &&& s.coordinate.y < 9
    &&& !g.cell(s.coordinate.x as int, s.coordinate.y as int).defined
    &&& s.states == g.cell(s.coordinate.x as int, s.coordinate.y as int).states
}

/// No two cells of `s` have the same coordinate.
pub open spec fn distinct_coords(s: Seq<SudokuCell>) -> bool {
    forall|i: int, j: int| 0 <= i < j < s.len() ==> (#[trigger] s[i]).coordinate != (#[trigger] s[j]).coordinate
}

/// The open cells of cells with distinct coordinates have distinct coordinates.
pub proof fn lemma_open_cells_distinct(s: Seq<SudokuCell>)
    requires
        distinct_coords(s),
    ensures
        distinct_coords(open_cells(s)),
    decreases s.len(),
{
    if s.len() > 0 {
        let t = s.drop_last();
        assert(distinct_coords(t)) by {
            assert forall|i: int, j: int| 0 <= i < j < t.len() implies (#[trigger] t[i]).coordinate != (#[trigger] t[j]).coordinate by {
                assert(t[i] == s[i] && t[j] == s[j]);
            }
        }
        lemma_open_cells_distinct(t);
        crate::placement::lemma_open_cells_from(t);
        if !s.last().defined {
            let o = open_cells(s);
            assert forall|i: int, j: int| 0 <= i < j < o.len() implies (#[trigger] o[i]).coordinate != (#[trigger] o[j]).coordinate by {
                if j == o.len() - 1 {
                    let c = open_cells(t)[i];
                    assert(o[i] == c);
                    let k = choose|k: int| 0 <= k < t.len() && t[k] == c;
                    assert(s[k] == c);
                    assert(s[s.len() - 1] == s.last());
                } else {
                    assert(o[i] == open_cells(t)[i] && o[j] == open_cells(t)[j]);
                }
            }
        }
    }
}

/// Positions where the labels match, counted over `n` positions, are all `n` only when the
/// labels match at every one of them.
pub proof fn lemma_labels_matching(a: Seq<(ValueStatus, u32)>, b: Seq<(ValueStatus, u32)>, n: int)
    requires
        0 <= n,
        labels_matching(a, b, n) == n,
    ensures
        forall|i: int| 0 <= i < n ==> a[i].1 == b[i].1,
    decreases n,
{
    if n > 0 {
        assert(labels_matching(a, b, n - 1) <= n - 1) by {
            lemma_labels_matching_bound(a, b, n - 1);
        }
        lemma_labels_matching(a, b, n - 1);
    }
}

/// At most `n` positions out of `n` match.
pub proof fn lemma_labels_matching_bound(a: Seq<(ValueStatus, u32)>, b: Seq<(ValueStatus, u32)>, n: int)
    requires
        0 <= n,
    ensures
        labels_matching(a, b, n) <= n,
    decreases n,
{
    if n > 0 {
        lemma_labels_matching_bound(a, b, n - 1);
    }
}

/// Every cell kept by `open_cells` is open.
pub proof fn lemma_open_cells_undefined(s: Seq<SudokuCell>, t: int)
    requires
        0 <= t < open_cells(s).len(),
    ensures
        !open_cells(s)[t].defined,
    decreases s.len(),
{
    let u = s.drop_last();
    if t < open_cells(u).len() {
        lemma_open_cells_undefined(u, t);
        if !s.last().defined {
            assert(open_cells(s)[t] == open_cells(u)[t]);
        }
    }
}

/// An open copy of a cell compatible with the solution lists the solution's value among
/// its possible labels.
pub proof fn lemma_copy_takes(g: SudokuGrid, sol: Seq<Seq<u32>>, sc: SudokuCell)
    requires
        g.wf(),
        is_solution(sol),
        agrees(g, sol),
        open_copy(g, sc),
    ensures
        labels(possible_of(sc.states@)).contains(sol[sc.coordinate.y as int][sc.coordinate.x as int]),
{
    let x = sc.coordinate.x as int;
    let y = sc.coordinate.y as int;
    let c = g.cell(x, y);
    let v = sol[y][x];
    assert(cell_agrees(c, v));
    assert(c.wf());
    assert(1 <= v <= 9);
    let st = sc.states@;
    assert(st[v - 1] == c.states@[v - 1]);
    assert(st[v - 1] == (ValueStatus::Possible, v));
    let f = possible_of(st);
    broadcast use vstd::seq_lib::group_filter_ensures;
    assert(f.contains(st[v - 1]));
    let k = choose|k: int| 0 <= k < f.len() && f[k] == st[v - 1];
    assert(labels(f)[k] == v);
}

/// The labels of the possible states of a well-formed cell are distinct.
pub proof fn lemma_possible_labels(c: SudokuCell)
    requires
        c.wf(),
    ensures
        labels(possible_of(c.states@)).no_duplicates(),
        c.defined ==> possible_of(c.states@).len() == 0,
{
    lemma_filter_labels(c.states@, 9);
    assert(c.states@.take(9) =~= c.states@);
}

/// Filtering states labelled `1..=n` in order keeps labels in increasing order, each at most `n`.
pub proof fn lemma_filter_labels(st: Seq<(ValueStatus, u32)>, n: int)
    requires
        0 <= n <= st.len(),
        forall|i: int| 0 <= i < st.len() ==> #[trigger] st[i].1 == i + 1,
    ensures
        labels(possible_of(st.take(n))).no_duplicates(),
        forall|k: int| 0 <= k < possible_of(st.take(n)).len()
            ==> #[trigger] possible_of(st.take(n))[k].1 <= n,
        (forall|i: int| 0 <= i < n ==> (#[trigger] st[i]).0 != ValueStatus::Possible) ==> possible_of(st.take(n)).len() == 0,
    decreases n,
{
    let f = possible_of(st.take(n));
    if n > 0 {
        lemma_filter_labels(st, n - 1);
        let g = possible_of(st.take(n - 1));
        assert(st.take(n).drop_last() =~= st.take(n - 1));
        reveal_with_fuel(Seq::filter, 1);
        if st[n - 1].0 == ValueStatus::Possible {
            assert(f == g.push(st[n - 1]));
            assert forall|a: int, b: int| 0 <= a < f.len() && 0 <= b < f.len() && a != b implies labels(f)[a] != labels(f)[b] by {
                if a < g.len() && b < g.len() {
                    assert(labels(g)[a] != labels(g)[b]);
                } else if a < g.len() {
                    assert(g[a].1 <= n - 1);
                } else {
                    assert(g[b].1 <= n - 1);
                }
            }
        } else {
            assert(f == g);
        }
    } else {
        assert(f.len() == 0) by {
            reveal_with_fuel(Seq::filter, 1);
        }
    }
}

/// `s` without its first cell at coordinate `at` (unchanged when there is none).
pub open spec fn drop_first_at(s: Seq<SudokuCell>, at: Coordinate) -> Seq<SudokuCell>
    decreases s.len(),
{
    if s.len() == 0 {
        s
    } else if s[0].coordinate == at {
        s.drop_first()
    } else {
        seq![s[0]] + drop_first_at(s.drop_first(), at)
    }
}

/// The open copies of the cells of `nbhd`, without the first at `at`, whose possible labels
/// are `p`, in order: the cells `check_siblings` takes as siblings of the cell at `at`.
pub open spec fn sibling_matches(nbhd: Seq<SudokuCell>, at: Coordinate, p: Seq<u32>) -> Seq<SudokuCell> {
    drop_first_at(open_cells(nbhd).map_values(|c: SudokuCell| reopened(c)), at)
        .filter(|c: SudokuCell| possible_of(c.states@).len() == p.len())
        .filter(|c: SudokuCell| labels(possible_of(c.states@)) == p)
}

/// Siblings are found: one for two labels, two for three.
pub open spec fn siblings_active(nbhd: Seq<SudokuCell>, at: Coordinate, p: Seq<u32>) -> bool {
    (p.len() == 2 && sibling_matches(nbhd, at, p).len() >= 1) || (p.len() == 3 && sibling_matches(nbhd, at, p).len() >= 2)
}

/// The coordinates of the cell at `at` and of the siblings taken for it.
pub open spec fn sibling_coords(nbhd: Seq<SudokuCell>, at: Coordinate, p: Seq<u32>) -> Seq<Coordinate> {
    seq![at] + sibling_matches(nbhd, at, p).take(p.len() - 1).map_values(|c: SudokuCell| c.coordinate)
}

/// The cell `c` is open, is not at `at`, and the values it can take, in increasing order, are `p`.
pub open spec fn twin(c: SudokuCell, at: Coordinate, p: Seq<u32>) -> bool {
    &&& !c.defined
    &&& c.coordinate != at
    &&& labels(possible_of(c.states@)) == p
}

/// Besides the cell at `at`, `nbhd` has one more open cell that can take exactly the two values
/// `p`, or two more that can take exactly the three values `p`: a naked pair or triple.
pub open spec fn naked_group(nbhd: Seq<SudokuCell>, at: Coordinate, p: Seq<u32>) -> bool {
    ||| p.len() == 2 && exists|i: int| 0 <= i < nbhd.len() && #[trigger] twin(nbhd[i], at, p)
    ||| p.len() == 3 && exists|i: int, j: int| 0 <= i < j < nbhd.len() && #[trigger] twin(nbhd[i], at, p) && #[trigger] twin(nbhd[j], at, p)
}

/// An open cell of `s` is among its open cells; the open cells are cells of `s`.
proof fn lemma_open_cells_members(s: Seq<SudokuCell>)
    ensures
        forall|i: int| 0 <= i < s.len() && !s[i].defined ==> open_cells(s).contains(#[trigger] s[i]),
        forall|x: SudokuCell| #[trigger] open_cells(s).contains(x) ==> s.contains(x) && !x.defined,
    decreases s.len(),
{
    if s.len() > 0 {
        let t = s.drop_last();
        lemma_open_cells_members(t);
        let o = open_cells(s);
        let ot = open_cells(t);
        assert forall|i: int| 0 <= i < s.len() && !s[i].defined implies o.contains(#[trigger] s[i]) by {
            if i < t.len() {
                assert(t[i] == s[i]);
                assert(ot.contains(t[i]));
                let k = choose|k: int| 0 <= k < ot.len() && ot[k] == t[i];
                if !s.last().defined { assert(o[k] == ot[k]); } else { assert(o == ot); }
            } else {
                assert(o[o.len() - 1] == s.last());
            }
        }
        assert forall|x: SudokuCell| #[trigger] o.contains(x) implies s.contains(x) && !x.defined by {
            let k = choose|k: int| 0 <= k < o.len() && o[k] == x;
            if !s.last().defined && k == o.len() - 1 {
                assert(s[s.len() - 1] == x);
            } else {
                assert(ot[k] == x);
                assert(ot.contains(x));
                let j = choose|j: int| 0 <= j < t.len() && t[j] == x;
                assert(s[j] == x);
            }
        }
    }
}

/// Dropping the first cell at `at` keeps every cell not at `at`, and adds none.
proof fn lemma_drop_first_members(s: Seq<SudokuCell>, at: Coordinate)
    ensures
        forall|x: SudokuCell| s.contains(x) && x.coordinate != at ==> #[trigger] drop_first_at(s, at).contains(x),
        forall|x: SudokuCell| #[trigger] drop_first_at(s, at).contains(x) ==> s.contains(x),
    decreases s.len(),
{
    if s.len() > 0 {
        let t = s.drop_first();
        lemma_drop_first_members(t, at);
        let d = drop_first_at(s, at);
        let dt = drop_first_at(t, at);
        assert forall|x: SudokuCell| s.contains(x) && x.coordinate != at implies #[trigger] d.contains(x) by {
            let k = choose|k: int| 0 <= k < s.len() && s[k] == x;
            if s[0].coordinate == at {
                assert(k != 0);
                assert(t[k - 1] == x);
                assert(t.contains(x));
            } else if k == 0 {
                assert(d == seq![s[0]] + dt);
                assert(d[0] == x);
            } else {
                assert(t[k - 1] == x);
                assert(t.contains(x));
                assert(dt.contains(x));
                let j = choose|j: int| 0 <= j < dt.len() && dt[j] == x;
                assert(d == seq![s[0]] + dt);
                assert(d[j + 1] == x);
            }
        }
        assert forall|x: SudokuCell| #[trigger] d.contains(x) implies s.contains(x) by {
            let k = choose|k: int| 0 <= k < d.len() && d[k] == x;
            if s[0].coordinate == at {
                assert(t.contains(x));
                let j = choose|j: int| 0 <= j < t.len() && t[j] == x;
                assert(s[j + 1] == x);
            } else if k == 0 {
                assert(s[0] == x);
            } else {
                assert(dt[k - 1] == x);
                assert(dt.contains(x));
                let j = choose|j: int| 0 <= j < t.len() && t[j] == x;
                assert(s[j + 1] == x);
            }
        }
    }
}

/// The siblings `check_siblings` takes are the twins of the neighbourhood: every twin is
/// taken (as an open copy), and every cell taken is an open copy of a twin.
pub proof fn lemma_sibling_matches(nbhd: Seq<SudokuCell>, at: Coordinate, p: Seq<u32>)
    ensures
        forall|i: int| 0 <= i < nbhd.len() && #[trigger] twin(nbhd[i], at, p)
            ==> sibling_matches(nbhd, at, p).contains(reopened(nbhd[i])),
        forall|k: int| 0 <= k < sibling_matches(nbhd, at, p).len() ==> exists|i: int| 0 <= i < nbhd.len()
            && !nbhd[i].defined && nbhd[i].coordinate == (#[trigger] sibling_matches(nbhd, at, p)[k]).coordinate
            && labels(possible_of(nbhd[i].states@)) == p,
{
    broadcast use vstd::seq_lib::group_filter_ensures;
    let o = open_cells(nbhd);
    let m = o.map_values(|c: SudokuCell| reopened(c));
    let d = drop_first_at(m, at);
    let f1p = |c: SudokuCell| possible_of(c.states@).len() == p.len();
    let f2p = |c: SudokuCell| labels(possible_of(c.states@)) == p;
    let f1 = d.filter(f1p);
    let f2 = f1.filter(f2p);
    assert(f2 == sibling_matches(nbhd, at, p));
    lemma_open_cells_members(nbhd);
    lemma_drop_first_members(m, at);
    assert forall|i: int| 0 <= i < nbhd.len() && #[trigger] twin(nbhd[i], at, p) implies f2.contains(reopened(nbhd[i])) by {
        let c = nbhd[i];
        let rc = reopened(c);
        assert(o.contains(c));
        let k = choose|k: int| 0 <= k < o.len() && o[k] == c;
        assert(m[k] == rc);
        assert(m.contains(rc));
        assert(d.contains(rc));
        let k1 = choose|k1: int| 0 <= k1 < d.len() && d[k1] == rc;
        assert(labels(possible_of(rc.states@)).len() == possible_of(rc.states@).len());
        assert(f1p(d[k1]));
        d.lemma_filter_contains(f1p, k1);
        assert(f1.contains(rc));
        let k2 = choose|k2: int| 0 <= k2 < f1.len() && f1[k2] == rc;
        f1.lemma_filter_contains(f2p, k2);
    }
    assert forall|k: int| 0 <= k < f2.len() implies exists|i: int| 0 <= i < nbhd.len()
        && !nbhd[i].defined && nbhd[i].coordinate == (#[trigger] f2[k]).coordinate
        && labels(possible_of(nbhd[i].states@)) == p by {
        let x = f2[k];
        assert(f2.contains(x));
        assert(f2p(x));
        f1.lemma_filter_contains_rev(f2p, x);
        d.lemma_filter_contains_rev(f1p, x);
        assert(m.contains(x));
        let j = choose|j: int| 0 <= j < m.len() && m[j] == x;
        assert(x == reopened(o[j]));
        assert(o.contains(o[j]));
        let i = choose|i: int| 0 <= i < nbhd.len() && nbhd[i] == o[j];
        assert(!nbhd[i].defined && nbhd[i].coordinate == x.coordinate && nbhd[i].states == x.states);
    }
}

/// A naked pair or triple makes the search active, and no cell of the neighbourhood other
/// than the twins (and the cell at `at`) is taken as a sibling.
pub proof fn lemma_naked_group(nbhd: Seq<SudokuCell>, at: Coordinate, p: Seq<u32>)
    requires
        naked_group(nbhd, at, p),
        distinct_coords(nbhd),
    ensures
        siblings_active(nbhd, at, p),
        forall|n: int| 0 <= n < nbhd.len() && nbhd[n].coordinate != at && labels(possible_of(nbhd[n].states@)) != p
            ==> !#[trigger] sibling_coords(nbhd, at, p).contains(nbhd[n].coordinate),
{
    lemma_sibling_matches(nbhd, at, p);
    let sm = sibling_matches(nbhd, at, p);
    if p.len() == 2 {
        let i = choose|i: int| 0 <= i < nbhd.len() && #[trigger] twin(nbhd[i], at, p);
        assert(sm.contains(reopened(nbhd[i])));
    } else {
        let (i, j) = choose|i: int, j: int| 0 <= i < j < nbhd.len() && #[trigger] twin(nbhd[i], at, p) && #[trigger] twin(nbhd[j], at, p);
        assert(sm.contains(reopened(nbhd[i])));
        assert(sm.contains(reopened(nbhd[j])));
        let a = choose|a: int| 0 <= a < sm.len() && sm[a] == reopened(nbhd[i]);
        let b = choose|b: int| 0 <= b < sm.len() && sm[b] == reopened(nbhd[j]);
        assert(nbhd[i].coordinate != nbhd[j].coordinate);
        assert(a != b);
    }
    assert forall|n: int| 0 <= n < nbhd.len() && nbhd[n].coordinate != at && labels(possible_of(nbhd[n].states@)) != p
        implies !#[trigger] sibling_coords(nbhd, at, p).contains(nbhd[n].coordinate) by {
        let sc = sibling_coords(nbhd, at, p);
        let tk = sm.take(p.len() - 1);
        if sc.contains(nbhd[n].coordinate) {
            let e = choose|e: int| 0 <= e < sc.len() && sc[e] == nbhd[n].coordinate;
            assert(e != 0);
            assert(sc[e] == tk[e - 1].coordinate);
            assert(tk[e - 1] == sm[e - 1]);
            let i = choose|i: int| 0 <= i < nbhd.len()
                && !nbhd[i].defined && nbhd[i].coordinate == (#[trigger] sm[e - 1]).coordinate
                && labels(possible_of(nbhd[i].states@)) == p;
            if i != n {
                if i < n { assert(nbhd[i].coordinate != nbhd[n].coordinate); } else { assert(nbhd[n].coordinate != nbhd[i].coordinate); }
            }
        }
    }
}

/// A well-formed cell whose state for `v` is possible lists `v` among its possible labels.
pub proof fn lemma_possible_label(c: SudokuCell, v: u32)
    requires
        c.wf(),
        1 <= v <= 9,
        c.states@[v - 1].0 == ValueStatus::Possible,
    ensures
        labels(possible_of(c.states@)).contains(v),
{
    let st = c.states@;
    assert(st[v - 1] == (ValueStatus::Possible, v));
    let f = possible_of(st);
    broadcast use vstd::seq_lib::group_filter_ensures;
    assert(f.contains(st[v - 1]));
    let k = choose|k: int| 0 <= k < f.len() && f[k] == st[v - 1];
    assert(labels(f)[k] == v);
}

/// A cell met between two equal states of a well-formed cell, each step narrowing, is that cell.
pub proof fn lemma_cell_between(a: SudokuCell, b: SudokuCell, c: SudokuCell)
    requires
        a.wf(),
        b.wf(),
        cell_narrows(a, b),
        cell_narrows(b, c),
        c == a,
    ensures
        b == a,
{
    if !a.defined {
        assert(!b.defined);
        assert forall|i: int| 0 <= i < 9 implies #[trigger] b.states@[i] == a.states@[i] by {
            assert(b.states@[i].0 != ValueStatus::Actual);
            assert(a.states@[i].0 != ValueStatus::Actual);
            assert(c.states@[i] == a.states@[i]);
        }
        assert(b.states@ =~= a.states@);
        assert(b.states@.len() == 9);
        assert(b.states == a.states) by {
            assert(b.states@ == a.states@);
        }
    }
}

/// At most `p.len()` distinct values (with `p` of at most three) lie in `p`.
proof fn lemma_pigeon(p: Seq<u32>, vals: Seq<u32>)
    requires
        p.len() <= 3,
        vals.no_duplicates(),
        forall|e: int| 0 <= e < vals.len() ==> p.contains(#[trigger] vals[e]),
    ensures
        vals.len() <= p.len(),
{
    if vals.len() > p.len() {
        lemma_pigeon_over(p, vals);
    }
}

proof fn lemma_pigeon_over(p: Seq<u32>, vals: Seq<u32>)
    requires
        p.len() <= 3,
        vals.len() > p.len(),
        vals.no_duplicates(),
        forall|e: int| 0 <= e < vals.len() ==> p.contains(#[trigger] vals[e]),
    ensures
        vals.len() <= p.len(),
{
    let idx = Seq::new(vals.len(), |e: int| choose|k: int| 0 <= k < p.len() && p[k] == vals[e]);
    assert forall|e: int| 0 <= e < vals.len() implies 0 <= #[trigger] idx[e] < p.len() && p[idx[e]] == vals[e] by {
        assert(p.contains(vals[e]));
    }
    assert(idx[0] != idx[1]);
    if p.len() == 3 {
        assert(idx[0] != idx[2] && idx[1] != idx[2] && idx[0] != idx[3] && idx[1] != idx[3] && idx[2] != idx[3]);
    } else if p.len() == 2 {
        assert(idx[0] != idx[2] && idx[1] != idx[2]);
    }
}

/// In `a`, the open cell at (`x`, `y`) and its twins in its unit `kind` (a row, a column or a
/// box) form a naked pair or triple, and in `f` these cells are still as they were in `a`.
pub open spec fn naked_kept(a: SudokuGrid, f: SudokuGrid, kind: int, x: int, y: int) -> bool {
    let at = Coordinate { x: x as u32, y: y as u32 };
    let p = labels(possible_of(a.cell(x, y).states@));
    let u = a.unit_cells(kind, x, y);
    &&& 0 <= kind < 3
    &&& 0 <= x < 9
    &&& 0 <= y < 9
    &&& !a.cell(x, y).defined
    &&& naked_group(u, at, p)
    &&& f.cell(x, y) == a.cell(x, y)
    &&& forall|j: int| 0 <= j < 9 && #[trigger] twin(u[j], at, p) ==> f.cell(unit_x(kind, x, j), unit_y(kind, y, j)) == u[j]
}

/// The solution's value of an open cell that agrees with it is among the cell's possible labels.
proof fn lemma_sol_label(c: SudokuCell, v: u32)
    requires
        c.wf(),
        !c.defined,
        1 <= v <= 9,
        cell_agrees(c, v),
    ensures
        labels(possible_of(c.states@)).contains(v),
{
    lemma_possible_label(c, v);
}

/// A pass of `match_possibles` from `a` to `f` (with the record `gs` of its searches), on a grid
/// whose cells carry their positions and that a solution agrees with: when a naked pair or
/// triple of `a` is still there in `f`, no other open cell of its unit can take its values.
pub proof fn lemma_naked_cleared(a: SudokuGrid, f: SudokuGrid, gs: Seq<SudokuGrid>, sol: Seq<Seq<u32>>,
    kind: int, x: int, y: int, i: int, v: u32)
    requires
        a.wf(),
        f.wf(),
        a.at_home(),
        is_solution(sol),
        agrees(a, sol),
        agrees(f, sol),
        gs.len() == 243,
        pass_states(a, gs, f),
        siblings_pass_done(gs, 81, f),
        naked_kept(a, f, kind, x, y),
        0 <= i < 9,
        !twin(a.unit_cells(kind, x, y)[i], Coordinate { x: x as u32, y: y as u32 }, labels(possible_of(a.cell(x, y).states@))),
        !(unit_x(kind, x, i) == x && unit_y(kind, y, i) == y),
        labels(possible_of(a.cell(x, y).states@)).contains(v),
        1 <= v <= 9,
    ensures
        cleared(f, unit_x(kind, x, i), unit_y(kind, y, i), v),
{
    let at = Coordinate { x: x as u32, y: y as u32 };
    let p = labels(possible_of(a.cell(x, y).states@));
    let u = a.unit_cells(kind, x, y);
    let qx = unit_x(kind, x, i);
    let qy = unit_y(kind, y, i);
    lemma_unit_cells(a, kind, x, y);
    if !cleared(f, qx, qy, v) {
        let t = 9 * y + x;
        assert(0 <= 3 * t + kind < 243);
        let g = gs[3 * t + kind];
        let h = gs[3 * t];
        assert(g.wf() && narrows(a, g) && narrows(g, f));
        assert(h.wf() && narrows(a, h) && narrows(h, f));
        assert(siblings_cleared(gs[3 * (9 * y + x) + kind], gs[3 * (9 * y + x)].cell(x, y), kind, f));
        assert(a.cell(x, y).wf() && h.cell(x, y).wf());
        assert(cell_narrows(a.cell(x, y), h.cell(x, y)));
        assert(cell_narrows(h.cell(x, y), f.cell(x, y)));
        lemma_cell_between(a.cell(x, y), h.cell(x, y), f.cell(x, y));
        let c = h.cell(x, y);
        assert(c.coordinate == at);
        assert(g.at_home());
        let nb = g.unit_cells(kind, x, y);
        lemma_unit_cells(g, kind, x, y);
        assert(nb == g.unit_cells(kind, c.coordinate.x as int, c.coordinate.y as int));
        // the twins of `a` are unchanged in `g`
        assert forall|j: int| 0 <= j < 9 && #[trigger] twin(u[j], at, p) implies nb[j] == u[j] by {
            let px = unit_x(kind, x, j);
            let py = unit_y(kind, y, j);
            assert(u[j] == a.cell(px, py) && nb[j] == g.cell(px, py));
            assert(a.cell(px, py).wf() && g.cell(px, py).wf());
            assert(cell_narrows(a.cell(px, py), g.cell(px, py)));
            assert(cell_narrows(g.cell(px, py), f.cell(px, py)));
            lemma_cell_between(a.cell(px, py), g.cell(px, py), f.cell(px, py));
        }
        assert(naked_group(nb, at, p)) by {
            if p.len() == 2 {
                let j = choose|j: int| 0 <= j < u.len() && #[trigger] twin(u[j], at, p);
                assert(twin(nb[j], at, p));
            } else {
                let (j1, j2) = choose|j1: int, j2: int| 0 <= j1 < j2 < u.len() && #[trigger] twin(u[j1], at, p) && #[trigger] twin(u[j2], at, p);
                assert(twin(nb[j1], at, p) && twin(nb[j2], at, p));
            }
        }
        assert(distinct_coords(nb)) by {
            assert forall|j1: int, j2: int| 0 <= j1 < j2 < nb.len() implies (#[trigger] nb[j1]).coordinate != (#[trigger] nb[j2]).coordinate by {
                assert(nb[j1] == g.cell(unit_x(kind, x, j1), unit_y(kind, y, j1)));
                assert(nb[j2] == g.cell(unit_x(kind, x, j2), unit_y(kind, y, j2)));
            }
        }
        lemma_naked_group(nb, at, p);
        assert(nb[i] == g.cell(qx, qy));
        assert(nb[i].coordinate == (Coordinate { x: qx as u32, y: qy as u32 }));
        assert(cell_narrows(g.cell(qx, qy), f.cell(qx, qy)));
        assert(!nb[i].defined);
        if twin(nb[i], at, p) {
            // the pair or triple, with this cell, would put too many values of the solution in `p`
            assert(f.cell(qx, qy).wf() && g.cell(qx, qy).wf());
            assert(cell_agrees(f.cell(qx, qy), sol[qy][qx]));
            assert(1 <= sol[qy][qx] <= 9);
            assert(g.cell(qx, qy).states@[sol[qy][qx] - 1].0 == ValueStatus::Possible);
            lemma_possible_label(g.cell(qx, qy), sol[qy][qx]);
            assert(cell_agrees(a.cell(x, y), sol[y][x]));
            lemma_sol_label(a.cell(x, y), sol[y][x]);
            lemma_possible_labels(a.cell(x, y));
            if p.len() == 2 {
                let j = choose|j: int| 0 <= j < u.len() && #[trigger] twin(u[j], at, p);
                let jx = unit_x(kind, x, j);
                let jy = unit_y(kind, y, j);
                assert(u[j] == a.cell(jx, jy) && a.cell(jx, jy).wf());
                assert(cell_agrees(a.cell(jx, jy), sol[jy][jx]));
                lemma_sol_label(a.cell(jx, jy), sol[jy][jx]);
                assert(j != i);
                lemma_unit_peers(kind, x, y, x, y, jx, jy);
                lemma_unit_peers(kind, x, y, x, y, qx, qy);
                lemma_unit_peers(kind, x, y, jx, jy, qx, qy);
                assert(sol[y][x] != sol[jy][jx] && sol[y][x] != sol[qy][qx] && sol[jy][jx] != sol[qy][qx]);
                let vals = seq![sol[y][x], sol[jy][jx], sol[qy][qx]];
                assert(forall|e: int| 0 <= e < vals.len() ==> p.contains(#[trigger] vals[e]));
                lemma_pigeon(p, vals);
            } else {
                let (j1, j2) = choose|j1: int, j2: int| 0 <= j1 < j2 < u.len() && #[trigger] twin(u[j1], at, p) && #[trigger] twin(u[j2], at, p);
                let ax = unit_x(kind, x, j1);
                let ay = unit_y(kind, y, j1);
                let bx = unit_x(kind, x, j2);
                let by = unit_y(kind, y, j2);
                assert(u[j1] == a.cell(ax, ay) && a.cell(ax, ay).wf());
                assert(u[j2] == a.cell(bx, by) && a.cell(bx, by).wf());
                assert(cell_agrees(a.cell(ax, ay), sol[ay][ax]));
                assert(cell_agrees(a.cell(bx, by), sol[by][bx]));
                lemma_sol_label(a.cell(ax, ay), sol[ay][ax]);
                lemma_sol_label(a.cell(bx, by), sol[by][bx]);
                assert(j1 != i && j2 != i);
                lemma_unit_peers(kind, x, y, x, y, ax, ay);
                lemma_unit_peers(kind, x, y, x, y, bx, by);
                lemma_unit_peers(kind, x, y, x, y, qx, qy);
                lemma_unit_peers(kind, x, y, ax, ay, bx, by);
                lemma_unit_peers(kind, x, y, ax, ay, qx, qy);
                lemma_unit_peers(kind, x, y, bx, by, qx, qy);
                let vals = seq![sol[y][x], sol[ay][ax], sol[by][bx], sol[qy][qx]];
                assert(sol[y][x] != sol[ay][ax] && sol[y][x] != sol[by][bx] && sol[y][x] != sol[qy][qx]);
                assert(sol[ay][ax] != sol[by][bx] && sol[ay][ax] != sol[qy][qx] && sol[by][bx] != sol[qy][qx]);
                assert(forall|e: int| 0 <= e < vals.len() ==> p.contains(#[trigger] vals[e]));
                lemma_pigeon(p, vals);
            }
        }
        assert(!sibling_coords(nb, at, p).contains(nb[i].coordinate));
        assert(cleared(f, nb[i].coordinate.x as int, nb[i].coordinate.y as int, v));
    }
}

/// Dropping the first cell at `at` leaves the cells before it in place.
pub proof fn lemma_drop_split(s: Seq<SudokuCell>, at: Coordinate, k: int)
    requires
        0 <= k <= s.len(),
        forall|t: int| 0 <= t < k ==> (#[trigger] s[t]).coordinate != at,
    ensures
        drop_first_at(s, at) == s.take(k) + drop_first_at(s.skip(k), at),
    decreases k,
{
    if k == 0 {
        assert(s.take(0) =~= Seq::<SudokuCell>::empty());
        assert(s.skip(0) =~= s);
        assert(s.take(0) + drop_first_at(s.skip(0), at) =~= drop_first_at(s, at));
    } else {
        let d = s.drop_first();
        assert forall|t: int| 0 <= t < k - 1 implies (#[trigger] d[t]).coordinate != at by {
            assert(d[t] == s[t + 1]);
        }
        lemma_drop_split(d, at, k - 1);
        assert(d.skip(k - 1) =~= s.skip(k));
        assert(seq![s[0]] + d.take(k - 1) =~= s.take(k));
        assert(seq![s[0]] + (d.take(k - 1) + drop_first_at(d.skip(k - 1), at)) =~= s.take(k) + drop_first_at(s.skip(k), at));
    }
}

/// The number of possible states is the number of possible values.
pub proof fn lemma_possible_count(st: Seq<(ValueStatus, u32)>, n: nat)
    requires
        n <= st.len(),
    ensures
        values_with(st, ValueStatus::Possible, n).len() == possible_of(st.take(n as int)).len(),
    decreases n,
{
    if n > 0 {
        lemma_possible_count(st, (n - 1) as nat);
        assert(st.take(n as int).drop_last() =~= st.take(n - 1));
        reveal_with_fuel(Seq::filter, 1);
    } else {
        reveal_with_fuel(Seq::filter, 1);
    }
}

/// Labels matching at every position out of `n` count `n` matches.
pub proof fn lemma_all_labels_match(a: Seq<(ValueStatus, u32)>, b: Seq<(ValueStatus, u32)>, n: int)
    requires
        0 <= n,
        forall|i: int| 0 <= i < n ==> a[i].1 == b[i].1,
    ensures
        labels_matching(a, b, n) == n,
    decreases n,
{
    if n > 0 {
        lemma_all_labels_match(a, b, n - 1);
    }
}

/// Filtering one more element of `s` adds it when it passes, and what the first elements
/// keep begins what all of `s` keeps.
pub proof fn lemma_filter_step(s: Seq<SudokuCell>, k: int, f: spec_fn(SudokuCell) -> bool)
    requires
        0 <= k < s.len(),
    ensures
        s.take(k + 1).filter(f) == (if f(s[k]) { s.take(k).filter(f).push(s[k]) } else { s.take(k).filter(f) }),
        s.take(k + 1).filter(f).is_prefix_of(s.filter(f)),
{
    assert(s.take(k + 1).drop_last() =~= s.take(k));
    assert(s.take(k + 1).last() == s[k]);
    reveal_with_fuel(Seq::filter, 1);
    s.take(k + 1).lemma_filter_monotone(s, f);
    assert(s.take(k + 1).is_prefix_of(s));
}

/// The labels match position by position, as many as both lists hold, exactly when the lists
/// of labels are equal.
pub proof fn lemma_match_equiv(p: Seq<(ValueStatus, u32)>, t: Seq<(ValueStatus, u32)>)
    ensures
        ({
            let n = if p.len() <= t.len() { p.len() as int } else { t.len() as int };
            labels_matching(p, t, n) == p.len() && labels_matching(p, t, n) == t.len()
        }) <==> labels(t) == labels(p),
{
    let n = if p.len() <= t.len() { p.len() as int } else { t.len() as int };
    if labels(t) == labels(p) {
        assert(labels(t).len() == t.len() && labels(p).len() == p.len());
        assert forall|q: int| 0 <= q < n implies p[q].1 == t[q].1 by {
            assert(labels(t)[q] == labels(p)[q]);
        }
        lemma_all_labels_match(p, t, n);
    }
    if labels_matching(p, t, n) == p.len() && labels_matching(p, t, n) == t.len() {
        lemma_labels_matching(p, t, n);
        assert(labels(t) =~= labels(p));
    }
}

/// A naked pair or triple: when two or three different cells of one unit take their solution
/// values among as many distinct values, no other cell of the unit takes one of them.
pub proof fn lemma_naked_subset(sol: Seq<Seq<u32>>, p: Seq<u32>, sibs: Seq<SudokuCell>, kind: int, cx: int, cy: int, tx: int, ty: int)
    requires
        is_solution(sol),
        0 <= kind < 3,
        p.len() == sibs.len(),
        p.len() == 2 || p.len() == 3,
        p.no_duplicates(),
        distinct_coords(sibs),
        forall|i: int| 0 <= i < sibs.len() ==> in_unit(kind, cx, cy, (#[trigger] sibs[i]).coordinate.x as int, sibs[i].coordinate.y as int),
        forall|i: int| 0 <= i < sibs.len() ==> p.contains(sol[(#[trigger] sibs[i]).coordinate.y as int][sibs[i].coordinate.x as int]),
        in_unit(kind, cx, cy, tx, ty),
        forall|i: int| 0 <= i < sibs.len() ==> (#[trigger] sibs[i]).coordinate != (Coordinate { x: tx as u32, y: ty as u32 }),
    ensures
        !p.contains(sol[ty][tx]),
{
    let n = p.len();
    let sv = Seq::new(n, |i: int| sol[sibs[i].coordinate.y as int][sibs[i].coordinate.x as int]);
    assert forall|i: int, j: int| 0 <= i < n && 0 <= j < n && i != j implies sv[i] != sv[j] by {
        let (a, b) = if i < j { (i, j) } else { (j, i) };
        assert(sibs[a].coordinate != sibs[b].coordinate);
        assert(in_unit(kind, cx, cy, sibs[i].coordinate.x as int, sibs[i].coordinate.y as int));
        assert(in_unit(kind, cx, cy, sibs[j].coordinate.x as int, sibs[j].coordinate.y as int));
        lemma_unit_peers(kind, cx, cy, sibs[i].coordinate.x as int, sibs[i].coordinate.y as int, sibs[j].coordinate.x as int, sibs[j].coordinate.y as int);
    }
    assert forall|i: int| 0 <= i < n implies sv[i] != sol[ty][tx] by {
        assert(sibs[i].coordinate != (Coordinate { x: tx as u32, y: ty as u32 }));
        assert(in_unit(kind, cx, cy, sibs[i].coordinate.x as int, sibs[i].coordinate.y as int));
        lemma_unit_peers(kind, cx, cy, sibs[i].coordinate.x as int, sibs[i].coordinate.y as int, tx, ty);
    }
    assert forall|i: int| 0 <= i < n implies p.contains(#[trigger] sv[i]) by {
        assert(p.contains(sol[sibs[i].coordinate.y as int][sibs[i].coordinate.x as int]));
    }
    if p.contains(sol[ty][tx]) {
        let m = choose|m: int| 0 <= m < n && p[m] == sol[ty][tx];
        // every value of p other than p[m] is hit by a sibling, leaving too few values
        let idx = Seq::new(n, |i: int| choose|j: int| 0 <= j < n && p[j] == sv[i]);
        assert forall|i: int| 0 <= i < n implies 0 <= #[trigger] idx[i] < n && p[idx[i]] == sv[i] && idx[i] != m by {
            assert(p.contains(sv[i]));
        }
        assert forall|i: int, j: int| 0 <= i < n && 0 <= j < n && i != j implies idx[i] != idx[j] by {
            assert(p[idx[i]] == sv[i] && p[idx[j]] == sv[j]);
        }
        if n == 2 {
            assert(idx[0] != idx[1]);
        } else {
            assert(idx[0] != idx[1] && idx[1] != idx[2] && idx[0] != idx[2]);
        }
    }
}

/// With `g` the grid when unit `kind` of the cell `c` is searched: where siblings of `c` are
/// found there, every other cell of that unit has the values of `c` cleared in `end`.
pub open spec fn siblings_cleared(g: SudokuGrid, c: SudokuCell, kind: int, end: SudokuGrid) -> bool {
    let nbhd = g.unit_cells(kind, c.coordinate.x as int, c.coordinate.y as int);
    let p = labels(possible_of(c.states@));
    siblings_active(nbhd, c.coordinate, p) ==> forall|n: int, v: u32|
        0 <= n < nbhd.len() && !sibling_coords(nbhd, c.coordinate, p).contains(nbhd[n].coordinate)
        && p.contains(v) && 1 <= v <= 9
        ==> #[trigger] cleared(end, nbhd[n].coordinate.x as int, nbhd[n].coordinate.y as int, v)
}

/// The first `n` cells, in reading order, have been searched: `gs` holds, for cell `i`, the
/// grid when its row, its column and its box were searched, at places `3 i`, `3 i + 1` and
/// `3 i + 2`.
pub open spec fn siblings_pass_done(gs: Seq<SudokuGrid>, n: int, end: SudokuGrid) -> bool {
    forall|x: int, y: int, k: int| 0 <= x < 9 && 0 <= y < 9 && 9 * y + x < n && 0 <= k < 3
        ==> #[trigger] siblings_cleared(gs[3 * (9 * y + x) + k], gs[3 * (9 * y + x)].cell(x, y), k, end)
}

/// Each grid of `gs` is well formed, comes from `start` by narrowing, and narrows to `end`.
pub open spec fn pass_states(start: SudokuGrid, gs: Seq<SudokuGrid>, end: SudokuGrid) -> bool {
    forall|j: int| 0 <= j < gs.len() ==> (#[trigger] gs[j]).wf() && narrows(start, gs[j]) && narrows(gs[j], end)
}

/// Extends a record of grids by three grids met in turn on the way to `end`.
pub proof fn lemma_pass_states_step(start: SudokuGrid, gs: Seq<SudokuGrid>, a: SudokuGrid, b: SudokuGrid, c: SudokuGrid, end: SudokuGrid)
    requires
        pass_states(start, gs, a),
        a.wf(),
        b.wf(),
        c.wf(),
        narrows(start, a),
        narrows(a, b),
        narrows(b, c),
        narrows(c, end),
    ensures
        pass_states(start, gs.push(a).push(b).push(c), end),
{
    let gs2 = gs.push(a).push(b).push(c);
    lemma_narrows_trans(b, c, end);
    lemma_narrows_trans(a, b, end);
    lemma_narrows_trans(start, a, b);
    lemma_narrows_trans(start, b, c);
    assert forall|j: int| 0 <= j < gs2.len() implies (#[trigger] gs2[j]).wf() && narrows(start, gs2[j]) && narrows(gs2[j], end) by {
        if j < gs.len() {
            assert(gs2[j] == gs[j]);
            lemma_narrows_trans(gs[j], a, end);
        }
    }
}

/// What a search cleared stays cleared as the grid shrinks.
pub proof fn lemma_siblings_cleared_stays(g: SudokuGrid, c: SudokuCell, kind: int, a: SudokuGrid, b: SudokuGrid)
    requires
        g.wf(),
        c.wf(),
        0 <= kind < 3,
        shrinks(a, b),
        siblings_cleared(g, c, kind, a),
    ensures
        siblings_cleared(g, c, kind, b),
{
    let nbhd = g.unit_cells(kind, c.coordinate.x as int, c.coordinate.y as int);
    let p = labels(possible_of(c.states@));
    lemma_unit_cells(g, kind, c.coordinate.x as int, c.coordinate.y as int);
    if siblings_active(nbhd, c.coordinate, p) {
        assert forall|n: int, v: u32| 0 <= n < nbhd.len() && !sibling_coords(nbhd, c.coordinate, p).contains(nbhd[n].coordinate)
            && p.contains(v) && 1 <= v <= 9
            implies #[trigger] cleared(b, nbhd[n].coordinate.x as int, nbhd[n].coordinate.y as int, v) by {
            assert(nbhd[n] == g.cell(unit_x(kind, c.coordinate.x as int, n), unit_y(kind, c.coordinate.y as int, n)));
            assert(nbhd[n].wf());
            assert(cleared(a, nbhd[n].coordinate.x as int, nbhd[n].coordinate.y as int, v));
            lemma_cleared_stays(a, b, nbhd[n].coordinate.x as int, nbhd[n].coordinate.y as int, v);
        }
    }
}

/// Adds the three searches of the cell at (`col`, `row`), cell `n` in reading order, to the
/// record of a pass whose earlier effects held of `prev` and now hold of `now`.
pub proof fn lemma_siblings_pass_step(gs: Seq<SudokuGrid>, a: SudokuGrid, b: SudokuGrid, c: SudokuGrid,
    col: int, row: int, prev: SudokuGrid, now: SudokuGrid)
    requires
        0 <= col < 9,
        0 <= row < 9,
        gs.len() == 3 * (9 * row + col),
        forall|j: int| 0 <= j < gs.len() ==> (#[trigger] gs[j]).wf(),
        a.wf(),
        siblings_pass_done(gs, 9 * row + col, prev),
        shrinks(prev, now),
        siblings_cleared(a, a.cell(col, row), 0, now),
        siblings_cleared(b, a.cell(col, row), 1, now),
        siblings_cleared(c, a.cell(col, row), 2, now),
    ensures
        siblings_pass_done(gs.push(a).push(b).push(c), 9 * row + col + 1, now),
{
    let gs2 = gs.push(a).push(b).push(c);
    let n = 9 * row + col;
    assert forall|x: int, y: int, k: int| 0 <= x < 9 && 0 <= y < 9 && 9 * y + x < n + 1 && 0 <= k < 3
        implies #[trigger] siblings_cleared(gs2[3 * (9 * y + x) + k], gs2[3 * (9 * y + x)].cell(x, y), k, now) by {
        if 9 * y + x < n {
            let i = 9 * y + x;
            assert(gs2[3 * i + k] == gs[3 * i + k] && gs2[3 * i] == gs[3 * i]);
            assert(siblings_cleared(gs[3 * i + k], gs[3 * i].cell(x, y), k, prev));
            assert(gs[3 * i].cell(x, y).wf());
            lemma_siblings_cleared_stays(gs[3 * i + k], gs[3 * i].cell(x, y), k, prev, now);
        } else {
            assert(y == row && x == col);
            assert(gs2[3 * n] == a && gs2[3 * n + 1] == b && gs2[3 * n + 2] == c);
        }
    }
}

impl SudokuGrid {
    /// Looks in the neighbourhood `nbhd` (a row, column or box holding `cell`) for one other
    /// open cell (when `poss_vals` has two values) or two (when it has three) whose possible
    /// values match `poss_vals` position by position; when found, strikes each value of
    /// `poss_vals` from every other open cell of the neighbourhood. So a naked pair or triple
    /// (cells that can take exactly the same two or three values) clears those values from
    /// every other cell of a neighbourhood whose cells have distinct coordinates.
    pub fn check_siblings(&mut self, nbhd: Vec<SudokuCell>, cell: SudokuCell, poss_vals: &Vec<(ValueStatus, u32)>) -> (r: Result<(), SolveError>)
        requires
            old(self).wf(),
            siblings_active(nbhd@, cell.coordinate, labels(poss_vals@)) ==> coords_in_grid(nbhd@),
        ensures
            r matches Err(e) ==> e == SolveError::CellEmptied,
            r is Err ==> emptiable(*final(self)),
            final(self).wf(),
            shrinks(*old(self), *final(self)),
            r is Ok ==> narrows(*old(self), *final(self)),
            old(self).at_home() && cell.coordinate.x < 9 && cell.coordinate.y < 9
                && is_unit_of(*old(self), nbhd@, cell.coordinate.x as int, cell.coordinate.y as int)
                && labels(poss_vals@).no_duplicates()
                ==> forall|sol: Seq<Seq<u32>>| is_solution(sol) && #[trigger] agrees(*old(self), sol)
                    && labels(poss_vals@).contains(sol[cell.coordinate.y as int][cell.coordinate.x as int])
                    ==> r is Ok && agrees(*final(self), sol),
            r is Ok && siblings_active(nbhd@, cell.coordinate, labels(poss_vals@)) ==> forall|n: int, v: u32|
                0 <= n < nbhd@.len() && !sibling_coords(nbhd@, cell.coordinate, labels(poss_vals@)).contains(nbhd@[n].coordinate)
                && labels(poss_vals@).contains(v) && 1 <= v <= 9
                ==> #[trigger] cleared(*final(self), nbhd@[n].coordinate.x as int, nbhd@[n].coordinate.y as int, v),
            !siblings_active(nbhd@, cell.coordinate, labels(poss_vals@)) ==> r is Ok && *final(self) == *old(self),
            r is Ok && naked_group(nbhd@, cell.coordinate, labels(poss_vals@)) && distinct_coords(nbhd@) ==> forall|n: int, v: u32|
                0 <= n < nbhd@.len() && nbhd@[n].coordinate != cell.coordinate
                && labels(possible_of(nbhd@[n].states@)) != labels(poss_vals@)
                && labels(poss_vals@).contains(v) && 1 <= v <= 9
                ==> #[trigger] cleared(*final(self), nbhd@[n].coordinate.x as int, nbhd@[n].coordinate.y as int, v),
    {
        proof { lemma_narrows_refl(*self); }
        let ghost g0 = *self;
        let ghost cx = cell.coordinate.x as int;
        let ghost cy = cell.coordinate.y as int;
        let ghost ctx = g0.at_home() && cell.coordinate.x < 9 && cell.coordinate.y < 9
            && is_unit_of(g0, nbhd@, cx, cy) && labels(poss_vals@).no_duplicates();
        let ghost kind: int = if ctx { choose|kind: int| 0 <= kind < 3 && nbhd@ == g0.unit_cells(kind, cx, cy) } else { 0 };
        let mut nbhd_poss = self.return_poss(Self::copy_cells(&nbhd));
        proof {
            if ctx {
                assert(0 <= kind < 3 && nbhd@ == g0.unit_cells(kind, cx, cy));
                lemma_unit_cells(g0, kind, cx, cy);
                assert forall|i: int| 0 <= i < nbhd@.len() implies (#[trigger] nbhd@[i]).coordinate == (Coordinate { x: unit_x(kind, cx, i) as u32, y: unit_y(kind, cy, i) as u32 }) by {
                    assert(nbhd@[i] == g0.cell(unit_x(kind, cx, i), unit_y(kind, cy, i)));
                }
                assert(distinct_coords(nbhd@)) by {
                    assert forall|i: int, j: int| 0 <= i < j < nbhd@.len() implies (#[trigger] nbhd@[i]).coordinate != (#[trigger] nbhd@[j]).coordinate by {
                        assert(nbhd@[i].coordinate == (Coordinate { x: unit_x(kind, cx, i) as u32, y: unit_y(kind, cy, i) as u32 }));
                        assert(nbhd@[j].coordinate == (Coordinate { x: unit_x(kind, cx, j) as u32, y: unit_y(kind, cy, j) as u32 }));
                    }
                }
                lemma_open_cells_distinct(nbhd@);
                crate::placement::lemma_open_cells_from(nbhd@);
                let o = open_cells(nbhd@);
                assert forall|i: int| 0 <= i < nbhd_poss@.len() implies open_copy(g0, #[trigger] nbhd_poss@[i])
                    && in_unit(kind, cx, cy, nbhd_poss@[i].coordinate.x as int, nbhd_poss@[i].coordinate.y as int) by {
                    let c = o[i];
                    assert(nbhd_poss@[i] == crate::grid::reopened(c));
                    assert(nbhd@.contains(c));
                    let k = choose|k: int| 0 <= k < nbhd@.len() && nbhd@[k] == c;
                    assert(c == g0.cell(unit_x(kind, cx, k), unit_y(kind, cy, k)));
                    crate::cell::lemma_cell_filters(o);
                    assert(o.contains(c));
                    assert(!c.defined) by {
                        assert(forall|t: int| 0 <= t < o.len() ==> !(#[trigger] o[t]).defined) by {
                            assert forall|t: int| 0 <= t < o.len() implies !(#[trigger] o[t]).defined by {
                                lemma_open_cells_undefined(nbhd@, t);
                            }
                        }
                    }
                }
                assert(distinct_coords(nbhd_poss@)) by {
                    assert forall|i: int, j: int| 0 <= i < j < nbhd_poss@.len() implies (#[trigger] nbhd_poss@[i]).coordinate != (#[trigger] nbhd_poss@[j]).coordinate by {
                        assert(nbhd_poss@[i].coordinate == o[i].coordinate);
                        assert(nbhd_poss@[j].coordinate == o[j].coordinate);
                    }
                }
            }
        }
        let poss_len = poss_vals.len();
        let ghost o = nbhd_poss@;
        proof {
            assert(o == open_cells(nbhd@).map_values(|c: SudokuCell| reopened(c)));
        }

        let mut index: usize = 0;
        while index < nbhd_poss.len()
            invariant_except_break
                forall|t: int| 0 <= t < index ==> (#[trigger] nbhd_poss@[t]).coordinate != cell.coordinate,
                nbhd_poss@ == o,
                index == nbhd_poss@.len() ==> nbhd_poss@ == drop_first_at(o, cell.coordinate),
            invariant
                index <= nbhd_poss.len(),
                ctx ==> forall|t: int| 0 <= t < nbhd_poss@.len() ==> open_copy(g0, #[trigger] nbhd_poss@[t])
                    && in_unit(kind, cx, cy, nbhd_poss@[t].coordinate.x as int, nbhd_poss@[t].coordinate.y as int),
                ctx ==> distinct_coords(nbhd_poss@),
            ensures
                forall|t: int| 0 <= t < nbhd_poss@.len() ==> (#[trigger] nbhd_poss@[t]).coordinate != cell.coordinate || !ctx,
                nbhd_poss@ == drop_first_at(o, cell.coordinate),
            decreases nbhd_poss.len() - index,
        {
            if equal_coords(cell.coordinate, nbhd_poss[index].coordinate) {
                let ghost before = nbhd_poss@;
                nbhd_poss.remove(index);
                proof {
                    lemma_drop_split(o, cell.coordinate, index as int);
                    assert(o.skip(index as int).drop_first() =~= o.skip(index + 1));
                    assert(nbhd_poss@ =~= o.take(index as int) + o.skip(index + 1));
                    assert forall|t: int| 0 <= t < nbhd_poss@.len() implies #[trigger] nbhd_poss@[t] == before[if t < index { t } else { t + 1 }] by {}
                    if ctx {
                        assert forall|t: int| 0 <= t < nbhd_poss@.len() implies (#[trigger] nbhd_poss@[t]).coordinate != cell.coordinate by {
                            let u = if t < index { t } else { t + 1 };
                            assert(nbhd_poss@[t] == before[u]);
                            if u < index {
                                assert(before[u].coordinate != before[index as int].coordinate);
                            } else {
                                assert(before[index as int].coordinate != before[u].coordinate);
                            }
                        }
                        assert forall|t: int, w: int| 0 <= t < w < nbhd_poss@.len() implies (#[trigger] nbhd_poss@[t]).coordinate != (#[trigger] nbhd_poss@[w]).coordinate by {
                            let u = if t < index { t } else { t + 1 };
                            let v = if w < index { w } else { w + 1 };
                            assert(nbhd_poss@[t] == before[u] && nbhd_poss@[w] == before[v]);
                        }
                        assert forall|t: int| 0 <= t < nbhd_poss@.len() implies open_copy(g0, #[trigger] nbhd_poss@[t])
                            && in_unit(kind, cx, cy, nbhd_poss@[t].coordinate.x as int, nbhd_poss@[t].coordinate.y as int) by {
                            let u = if t < index { t } else { t + 1 };
                            assert(nbhd_poss@[t] == before[u]);
                        }
                    }
                }
                break;
            }
            index += 1;
            proof {
                if index == nbhd_poss.len() {
                    lemma_drop_split(o, cell.coordinate, index as int);
                    assert(o.take(index as int) =~= o);
                    assert(o.skip(index as int) =~= Seq::<SudokuCell>::empty());
                }
            }
        }

        let ghost l1 = nbhd_poss@;
        let ghost mut kk: int = 0;
        let mut index: usize = 0;
        while index < nbhd_poss.len()
            invariant
                index <= nbhd_poss.len(),
                0 <= kk <= l1.len(),
                poss_len == poss_vals@.len(),
                nbhd_poss@ == l1.take(kk).filter(|c: SudokuCell| possible_of(c.states@).len() == labels(poss_vals@).len()) + l1.skip(kk),
                index == l1.take(kk).filter(|c: SudokuCell| possible_of(c.states@).len() == labels(poss_vals@).len()).len(),
                ctx ==> forall|t: int| 0 <= t < nbhd_poss@.len() ==> open_copy(g0, #[trigger] nbhd_poss@[t])
                    && in_unit(kind, cx, cy, nbhd_poss@[t].coordinate.x as int, nbhd_poss@[t].coordinate.y as int)
                    && nbhd_poss@[t].coordinate != cell.coordinate,
                ctx ==> distinct_coords(nbhd_poss@),
            decreases nbhd_poss.len() - index,
        {
            let ghost kept = l1.take(kk).filter(|c: SudokuCell| possible_of(c.states@).len() == labels(poss_vals@).len());
            proof {
                assert(l1.take(kk + 1).drop_last() =~= l1.take(kk));
                reveal_with_fuel(Seq::filter, 1);
                assert(nbhd_poss@[index as int] == l1[kk]);
                lemma_possible_count(nbhd_poss@[index as int].states@, 9);
                assert(nbhd_poss@[index as int].states@.take(9) =~= nbhd_poss@[index as int].states@);
            }
            let this_poss = nbhd_poss[index].get_possible();
            if this_poss.len() != poss_len {
                let ghost before = nbhd_poss@;
                nbhd_poss.remove(index);
                proof {
                    kk = kk + 1;
                    assert(nbhd_poss@ =~= l1.take(kk).filter(|c: SudokuCell| possible_of(c.states@).len() == labels(poss_vals@).len()) + l1.skip(kk));
                    assert forall|t: int| 0 <= t < nbhd_poss@.len() implies #[trigger] nbhd_poss@[t] == before[if t < index { t } else { t + 1 }] by {}
                    if ctx {
                        assert forall|t: int, w: int| 0 <= t < w < nbhd_poss@.len() implies (#[trigger] nbhd_poss@[t]).coordinate != (#[trigger] nbhd_poss@[w]).coordinate by {
                            let u = if t < index { t } else { t + 1 };
                            let v = if w < index { w } else { w + 1 };
                            assert(nbhd_poss@[t] == before[u] && nbhd_poss@[w] == before[v]);
                        }
                        assert forall|t: int| 0 <= t < nbhd_poss@.len() implies open_copy(g0, #[trigger] nbhd_poss@[t])
                            && in_unit(kind, cx, cy, nbhd_poss@[t].coordinate.x as int, nbhd_poss@[t].coordinate.y as int)
                            && nbhd_poss@[t].coordinate != cell.coordinate by {
                            let u = if t < index { t } else { t + 1 };
                            assert(nbhd_poss@[t] == before[u]);
                        }
                    }
                }
                continue;
            }
            proof {
                kk = kk + 1;
                assert(nbhd_poss@ =~= l1.take(kk).filter(|c: SudokuCell| possible_of(c.states@).len() == labels(poss_vals@).len()) + l1.skip(kk));
            }
            index += 1;
        }
        proof {
            assert(l1.skip(kk).len() == 0);
            assert(l1.take(kk) =~= l1);
            assert(nbhd_poss@ =~= l1.filter(|c: SudokuCell| possible_of(c.states@).len() == labels(poss_vals@).len()));
        }

        let ghost l2 = nbhd_poss@;
        proof { assert(l2.take(l2.len() as int) =~= l2); }
        let mut sibling_cells: Vec<SudokuCell> = Vec::new();
        let mut looking_for_third = false;
        let mut k: usize = 0;
        let ghost mut idx: Seq<int> = Seq::empty();
        while k < nbhd_poss.len()
            invariant_except_break
                (sibling_cells@.len() == 0 && !looking_for_third) || (sibling_cells@.len() == 2 && looking_for_third && poss_len != 2),
                forall|t: int| 0 <= t < idx.len() ==> idx[t] < k,
                sibling_cells@.len() == 0 ==> l2.take(k as int).filter(|c: SudokuCell| labels(possible_of(c.states@)) == labels(poss_vals@)).len() == 0,
                sibling_cells@.len() > 0 ==> sibling_cells@ == seq![cell] + l2.take(k as int).filter(|c: SudokuCell| labels(possible_of(c.states@)) == labels(poss_vals@)),
            invariant
                l2 == nbhd_poss@,
                l2.take(l2.len() as int) == l2,
                k <= nbhd_poss.len(),
                poss_len == poss_vals@.len(),
                sibling_cells@.len() == 0 ==> idx.len() == 0,
                sibling_cells@.len() == 0 || (sibling_cells@.len() == idx.len() + 1 && sibling_cells@[0] == cell),
                forall|t: int| 0 <= t < idx.len() ==> 0 <= #[trigger] idx[t] < nbhd_poss@.len()
                    && sibling_cells@[t + 1] == nbhd_poss@[idx[t]]
                    && labels(possible_of(nbhd_poss@[idx[t]].states@)) == labels(poss_vals@),
                forall|t: int, w: int| 0 <= t < w < idx.len() ==> idx[t] < idx[w],
                ctx ==> forall|t: int| 0 <= t < nbhd_poss@.len() ==> open_copy(g0, #[trigger] nbhd_poss@[t])
                    && in_unit(kind, cx, cy, nbhd_poss@[t].coordinate.x as int, nbhd_poss@[t].coordinate.y as int)
                    && nbhd_poss@[t].coordinate != cell.coordinate,
                ctx ==> distinct_coords(nbhd_poss@),
            ensures
                sibling_cells@.len() == 0 || sibling_cells@.len() == 2 || sibling_cells@.len() == 3,
                sibling_cells@.len() > 0 ==> sibling_cells@.len() - 1
                    <= l2.filter(|c: SudokuCell| labels(possible_of(c.states@)) == labels(poss_vals@)).len(),
                sibling_cells@.len() == 0 ==> l2.filter(|c: SudokuCell| labels(possible_of(c.states@)) == labels(poss_vals@)).len() == 0,
                sibling_cells@.len() > 0 ==> sibling_cells@ == seq![cell]
                    + l2.filter(|c: SudokuCell| labels(possible_of(c.states@)) == labels(poss_vals@)).take(sibling_cells@.len() - 1),
                poss_len == 2 && l2.filter(|c: SudokuCell| labels(possible_of(c.states@)) == labels(poss_vals@)).len() >= 1 ==> sibling_cells@.len() == 2,
                poss_len == 3 && l2.filter(|c: SudokuCell| labels(possible_of(c.states@)) == labels(poss_vals@)).len() >= 2 ==> sibling_cells@.len() == 3,
            decreases nbhd_poss.len() - k,
        {
            let nbhd_check = nbhd_poss[k];
            let t = possible_states(&nbhd_check);
            let matching = matching_labels(poss_vals, &t);
            let ghost mk = l2.take(k as int).filter(|c: SudokuCell| labels(possible_of(c.states@)) == labels(poss_vals@));
            let ghost mk1 = l2.take(k + 1).filter(|c: SudokuCell| labels(possible_of(c.states@)) == labels(poss_vals@));
            proof {
                lemma_filter_step(l2, k as int, |c: SudokuCell| labels(possible_of(c.states@)) == labels(poss_vals@));
                lemma_match_equiv(poss_vals@, t@);
            }
            if !(matching == poss_len && matching == t.len()) {
                k += 1;
                continue;
            }
            proof {
                lemma_labels_matching(poss_vals@, t@, poss_len as int);
                assert(labels(t@) =~= labels(poss_vals@));
            }
            if !looking_for_third {
                sibling_cells.push(cell);
            }
            sibling_cells.push(nbhd_check);
            proof {
                let ghost old_idx = idx;
                idx = idx.push(k as int);
                assert forall|t: int| 0 <= t < idx.len() implies 0 <= #[trigger] idx[t] < nbhd_poss@.len()
                    && sibling_cells@[t + 1] == nbhd_poss@[idx[t]]
                    && labels(possible_of(nbhd_poss@[idx[t]].states@)) == labels(poss_vals@) by {
                    if t < old_idx.len() {
                        assert(idx[t] == old_idx[t]);
                    }
                }
            }
            proof {
                assert(sibling_cells@ =~= seq![cell] + mk1);
                let mall = l2.filter(|c: SudokuCell| labels(possible_of(c.states@)) == labels(poss_vals@));
                assert(mk1.is_prefix_of(mall));
                assert(mall.take(mk1.len() as int) =~= mk1);
            }
            if poss_len == 2 {
                break;
            }
            if looking_for_third {
                break;
            }
            looking_for_third = true;
            k += 1;
        }

        let ghost mall = l2.filter(|c: SudokuCell| labels(possible_of(c.states@)) == labels(poss_vals@));
        proof {
            assert(l2 == l1.filter(|c: SudokuCell| possible_of(c.states@).len() == labels(poss_vals@).len()));
            assert(mall == sibling_matches(nbhd@, cell.coordinate, labels(poss_vals@)));
        }
        if sibling_cells.len() == 0 {
            proof {
                lemma_narrows_refl(*self);
                if naked_group(nbhd@, cell.coordinate, labels(poss_vals@)) && distinct_coords(nbhd@) {
                lemma_naked_group(nbhd@, cell.coordinate, labels(poss_vals@));
            }
            }
            return Ok(());
        }
        if sibling_cells.len() != poss_len {
            proof {
                lemma_narrows_refl(*self);
                if naked_group(nbhd@, cell.coordinate, labels(poss_vals@)) && distinct_coords(nbhd@) {
                lemma_naked_group(nbhd@, cell.coordinate, labels(poss_vals@));
            }
            }
            return Ok(());
        }
        proof {
            assert(labels(poss_vals@).len() == poss_len);
            assert(siblings_active(nbhd@, cell.coordinate, labels(poss_vals@)));
        }
        proof {
            assert(sibling_cells@.map_values(|c: SudokuCell| c.coordinate) =~= sibling_coords(nbhd@, cell.coordinate, labels(poss_vals@)));
        }
        proof {
            if ctx {
                assert(distinct_coords(sibling_cells@)) by {
                    assert forall|a: int, b: int| 0 <= a < b < sibling_cells@.len() implies (#[trigger] sibling_cells@[a]).coordinate != (#[trigger] sibling_cells@[b]).coordinate by {
                        if a == 0 {
                            assert(sibling_cells@[b] == nbhd_poss@[idx[b - 1]]);
                        } else {
                            assert(idx[a - 1] < idx[b - 1]);
                            assert(sibling_cells@[a] == nbhd_poss@[idx[a - 1]]);
                            assert(sibling_cells@[b] == nbhd_poss@[idx[b - 1]]);
                        }
                    }
                }
            }
        }

        let mut n: usize = 0;
        while n < nbhd.len()
            invariant
                self.wf(),
                narrows(*old(self), *self),
                coords_in_grid(nbhd@),
                n <= nbhd.len(),
                g0 == *old(self),
                g0.wf(),
                ctx == (g0.at_home() && cell.coordinate.x < 9 && cell.coordinate.y < 9 && is_unit_of(g0, nbhd@, cx, cy) && labels(poss_vals@).no_duplicates()),
                ctx ==> 0 <= kind < 3 && nbhd@ == g0.unit_cells(kind, cx, cy) && 0 <= cx < 9 && 0 <= cy < 9
                    && g0.at_home() && labels(poss_vals@).no_duplicates(),
                cx == cell.coordinate.x as int,
                cy == cell.coordinate.y as int,
                sibling_cells@.len() == poss_len,
                siblings_active(nbhd@, cell.coordinate, labels(poss_vals@)),
                poss_len == poss_vals@.len(),
                poss_len == 2 || poss_len == 3,
                sibling_cells@.len() == idx.len() + 1 && sibling_cells@[0] == cell,
                forall|t: int| 0 <= t < idx.len() ==> 0 <= #[trigger] idx[t] < nbhd_poss@.len()
                    && sibling_cells@[t + 1] == nbhd_poss@[idx[t]]
                    && labels(possible_of(nbhd_poss@[idx[t]].states@)) == labels(poss_vals@),
                ctx ==> forall|t: int| 0 <= t < nbhd_poss@.len() ==> open_copy(g0, #[trigger] nbhd_poss@[t])
                    && in_unit(kind, cx, cy, nbhd_poss@[t].coordinate.x as int, nbhd_poss@[t].coordinate.y as int)
                    && nbhd_poss@[t].coordinate != cell.coordinate,
                ctx ==> distinct_coords(sibling_cells@),
                ctx ==> forall|sol: Seq<Seq<u32>>| is_solution(sol) && #[trigger] agrees(*old(self), sol)
                    && labels(poss_vals@).contains(sol[cell.coordinate.y as int][cell.coordinate.x as int])
                    ==> agrees(*self, sol),
                sibling_cells@.map_values(|c: SudokuCell| c.coordinate) == sibling_coords(nbhd@, cell.coordinate, labels(poss_vals@)),
                forall|m: int, v: u32| 0 <= m < n && !sibling_cells@.map_values(|c: SudokuCell| c.coordinate).contains(nbhd@[m].coordinate)
                    && labels(poss_vals@).contains(v) && 1 <= v <= 9
                    ==> #[trigger] cleared(*self, nbhd@[m].coordinate.x as int, nbhd@[m].coordinate.y as int, v),
            decreases nbhd.len() - n,
        {
            let col_cell = nbhd[n];
            let y = col_cell.coordinate.y as usize;
            let x = col_cell.coordinate.x as usize;
            let mut skip = false;
            let mut s: usize = 0;
            while s < sibling_cells.len()
                invariant_except_break
                    !skip,
                invariant
                    s <= sibling_cells.len(),
                    x < 9,
                    y < 9,
                    !skip ==> forall|t: int| 0 <= t < s ==> (#[trigger] sibling_cells@[t]).coordinate != col_cell.coordinate,
                    !skip && s > 0 ==> !self.cell(x as int, y as int).defined,
                ensures
                    !skip ==> forall|t: int| 0 <= t < sibling_cells@.len() ==> (#[trigger] sibling_cells@[t]).coordinate != col_cell.coordinate,
                    !skip && sibling_cells@.len() > 0 ==> !self.cell(x as int, y as int).defined,
                    skip ==> self.cell(x as int, y as int).defined || exists|t: int| 0 <= t < sibling_cells@.len()
                        && (#[trigger] sibling_cells@[t]).coordinate == col_cell.coordinate,
                decreases sibling_cells.len() - s,
            {
                if equal_coords(sibling_cells[s].coordinate, col_cell.coordinate) || self.grid[y][x].defined {
                    skip = true;
                    proof {
                        if !self.cell(x as int, y as int).defined {
                            assert(sibling_cells@[s as int].coordinate == col_cell.coordinate);
                        }
                    }
                    break;
                }
                s += 1;
            }
            let ghost before_n = *self;
            if skip {
                proof {
                    assert forall|m: int, v: u32| 0 <= m < n + 1 && !sibling_cells@.map_values(|c: SudokuCell| c.coordinate).contains(nbhd@[m].coordinate)
                        && labels(poss_vals@).contains(v) && 1 <= v <= 9
                        implies #[trigger] cleared(*self, nbhd@[m].coordinate.x as int, nbhd@[m].coordinate.y as int, v) by {
                        if m == n {
                            if !self.cell(x as int, y as int).defined {
                                let t = choose|t: int| 0 <= t < sibling_cells@.len() && (#[trigger] sibling_cells@[t]).coordinate == col_cell.coordinate;
                                assert(sibling_cells@.map_values(|c: SudokuCell| c.coordinate)[t] == col_cell.coordinate);
                            }
                        }
                    }
                }
                n += 1;
                continue;
            }
            let ghost tx = x as int;
            let ghost ty = y as int;
            proof {
                if ctx {
                    lemma_unit_cells(g0, kind, cx, cy);
                    assert(nbhd@[n as int] == g0.cell(unit_x(kind, cx, n as int), unit_y(kind, cy, n as int)));
                    assert(col_cell.coordinate == (Coordinate { x: unit_x(kind, cx, n as int) as u32, y: unit_y(kind, cy, n as int) as u32 }));
                    assert(in_unit(kind, cx, cy, tx, ty));
                    assert forall|sol: Seq<Seq<u32>>| is_solution(sol) && #[trigger] agrees(*old(self), sol)
                        && labels(poss_vals@).contains(sol[cell.coordinate.y as int][cell.coordinate.x as int])
                        implies !labels(poss_vals@).contains(sol[ty][tx]) by {
                        assert forall|t: int| 0 <= t < sibling_cells@.len() implies in_unit(kind, cx, cy, (#[trigger] sibling_cells@[t]).coordinate.x as int, sibling_cells@[t].coordinate.y as int) by {
                            if t > 0 {
                                assert(sibling_cells@[t] == nbhd_poss@[idx[t - 1]]);
                            }
                        }
                        assert forall|t: int| 0 <= t < sibling_cells@.len() implies labels(poss_vals@).contains(sol[(#[trigger] sibling_cells@[t]).coordinate.y as int][sibling_cells@[t].coordinate.x as int]) by {
                            if t > 0 {
                                let sc = nbhd_poss@[idx[t - 1]];
                                assert(sibling_cells@[t] == sc);
                                lemma_copy_takes(g0, sol, sc);
                            }
                        }
                        assert forall|t: int| 0 <= t < sibling_cells@.len() implies (#[trigger] sibling_cells@[t]).coordinate != (Coordinate { x: tx as u32, y: ty as u32 }) by {}
                        lemma_naked_subset(sol, labels(poss_vals@), sibling_cells@, kind, cx, cy, tx, ty);
                    }
                }
            }
            let mut v: usize = 0;
            while v < poss_vals.len()
                invariant
                    self.wf(),
                    narrows(*old(self), *self),
                    x < 9,
                    y < 9,
                    tx == x,
                    ty == y,
                    v <= poss_vals.len(),
                    shrinks(before_n, *self),
                    siblings_active(nbhd@, cell.coordinate, labels(poss_vals@)),
                    forall|q: int| 0 <= q < v && 1 <= #[trigger] poss_vals@[q].1 <= 9 ==> cleared(*self, x as int, y as int, poss_vals@[q].1),
                    cx == cell.coordinate.x as int,
                    cy == cell.coordinate.y as int,
                    g0 == *old(self),
                    ctx == (g0.at_home() && cell.coordinate.x < 9 && cell.coordinate.y < 9 && is_unit_of(g0, nbhd@, cx, cy) && labels(poss_vals@).no_duplicates()),
                    ctx ==> forall|sol: Seq<Seq<u32>>| is_solution(sol) && #[trigger] agrees(*old(self), sol)
                        && labels(poss_vals@).contains(sol[cell.coordinate.y as int][cell.coordinate.x as int])
                        ==> agrees(*self, sol) && !labels(poss_vals@).contains(sol[ty][tx]),
                decreases poss_vals.len() - v,
            {
                let ghost before = *self;
                let val = poss_vals[v].1;
                proof {
                    assert(labels(poss_vals@)[v as int] == val);
                    assert(labels(poss_vals@).contains(val));
                }
                let p = match self.strike(x as u32, y as u32, val) {
                    Ok(p) => p,
                    Err(e) => {
                        proof {
                            if ctx {
                                assert forall|sol: Seq<Seq<u32>>| is_solution(sol) && #[trigger] agrees(*old(self), sol)
                                    && labels(poss_vals@).contains(sol[cell.coordinate.y as int][cell.coordinate.x as int]) implies false by {
                                    assert(agrees(before, sol));
                                }
                            }
                        }
                        return Err(e);
                    },
                };
                proof {
                    lemma_narrows_trans(*old(self), before, *self);
                    lemma_shrinks_trans(before_n, before, *self);
                    assert forall|q: int| 0 <= q < v + 1 && 1 <= #[trigger] poss_vals@[q].1 <= 9 implies cleared(*self, x as int, y as int, poss_vals@[q].1) by {
                        if q < v {
                            lemma_cleared_stays(before, *self, x as int, y as int, poss_vals@[q].1);
                        } else {
                            assert(self.cell(x as int, y as int).states@[val - 1] == before.cell(x as int, y as int).struck_states(val)[val - 1]);
                        }
                    }
                    if ctx {
                        assert forall|sol: Seq<Seq<u32>>| is_solution(sol) && #[trigger] agrees(*old(self), sol)
                            && labels(poss_vals@).contains(sol[cell.coordinate.y as int][cell.coordinate.x as int])
                            implies agrees(*self, sol) && !labels(poss_vals@).contains(sol[ty][tx]) by {
                            assert(agrees(before, sol));
                        }
                    }
                }
                if p.0 {
                    let target = self.grid[y][x].coordinate;
                    assert(self.cell(x as int, y as int).wf());
                    let ghost before2 = *self;
                    proof {
                        if ctx {
                            assert(self.at_home());
                            assert(target == (Coordinate { x: x as u32, y: y as u32 }));
                            assert forall|sol: Seq<Seq<u32>>| is_solution(sol) && #[trigger] agrees(*old(self), sol)
                                && labels(poss_vals@).contains(sol[cell.coordinate.y as int][cell.coordinate.x as int])
                                implies sol[ty][tx] == p.1 by {
                                assert(agrees(before, sol));
                                lemma_single_left(before, sol, tx, ty, val);
                            }
                        }
                    }
                    match self.set_value(target.x, target.y, p.1) {
                        Ok(()) => {},
                        Err(e) => {
                            proof {
                                lemma_shrinks_trans(*old(self), before2, *self);
                                if ctx {
                                    assert forall|sol: Seq<Seq<u32>>| is_solution(sol) && #[trigger] agrees(*old(self), sol)
                                        && labels(poss_vals@).contains(sol[cell.coordinate.y as int][cell.coordinate.x as int]) implies false by {
                                        assert(agrees(before2, sol));
                                    }
                                }
                            }
                            return Err(e);
                        },
                    }
                    proof {
                        lemma_narrows_trans(*old(self), before2, *self);
                        lemma_shrinks_trans(before_n, before2, *self);
                        assert forall|q: int| 0 <= q < v + 1 && 1 <= #[trigger] poss_vals@[q].1 <= 9 implies cleared(*self, x as int, y as int, poss_vals@[q].1) by {
                            lemma_cleared_stays(before2, *self, x as int, y as int, poss_vals@[q].1);
                        }
                        if ctx {
                            assert forall|sol: Seq<Seq<u32>>| is_solution(sol) && #[trigger] agrees(*old(self), sol)
                                && labels(poss_vals@).contains(sol[cell.coordinate.y as int][cell.coordinate.x as int])
                                implies agrees(*self, sol) && !labels(poss_vals@).contains(sol[ty][tx]) by {
                                assert(agrees(before2, sol));
                            }
                        }
                    }
                }
                v += 1;
            }
            proof {
                assert forall|m: int, w: u32| 0 <= m < n + 1 && !sibling_cells@.map_values(|c: SudokuCell| c.coordinate).contains(nbhd@[m].coordinate)
                    && labels(poss_vals@).contains(w) && 1 <= w <= 9
                    implies #[trigger] cleared(*self, nbhd@[m].coordinate.x as int, nbhd@[m].coordinate.y as int, w) by {
                    if m < n {
                        assert(cleared(before_n, nbhd@[m].coordinate.x as int, nbhd@[m].coordinate.y as int, w));
                        lemma_cleared_stays(before_n, *self, nbhd@[m].coordinate.x as int, nbhd@[m].coordinate.y as int, w);
                    } else {
                        let q = choose|q: int| 0 <= q < labels(poss_vals@).len() && labels(poss_vals@)[q] == w;
                        assert(poss_vals@[q].1 == w);
                    }
                }
            }
            n += 1;
        }
        proof {
            if naked_group(nbhd@, cell.coordinate, labels(poss_vals@)) && distinct_coords(nbhd@) {
            lemma_naked_group(nbhd@, cell.coordinate, labels(poss_vals@));
        }
        }
        Ok(())
    }

    /// For each cell with two or three possible values, looks for matching cells in its row,
    /// its column and its box (see `check_siblings`). On a grid whose cells carry their
    /// positions and that a solution agrees with, a naked pair or triple still there at the end
    /// leaves no other open cell of its unit able to take its values.
    pub fn match_possibles(&mut self) -> (r: Result<(), SolveError>)
        requires
            old(self).wf(),
        ensures
            r matches Err(e) ==> e == SolveError::CellEmptied,
            r is Err ==> emptiable(*final(self)),
            final(self).wf(),
            shrinks(*old(self), *final(self)),
            r is Ok ==> narrows(*old(self), *final(self)),
            old(self).at_home() ==> forall|sol: Seq<Seq<u32>>| is_solution(sol) && #[trigger] agrees(*old(self), sol)
                ==> r is Ok && agrees(*final(self), sol),
            r is Ok ==> exists|gs: Seq<SudokuGrid>| gs.len() == 243 && pass_states(*old(self), gs, *final(self))
                && siblings_pass_done(gs, 81, *final(self)),
            r is Ok && old(self).at_home() && (exists|sol: Seq<Seq<u32>>| is_solution(sol) && agrees(*old(self), sol))
                ==> forall|kind: int, x: int, y: int, i: int, v: u32|
                    #![trigger naked_kept(*old(self), *final(self), kind, x, y), cleared(*final(self), unit_x(kind, x, i), unit_y(kind, y, i), v)]
                    naked_kept(*old(self), *final(self), kind, x, y) && 0 <= i < 9
                    && !twin(old(self).unit_cells(kind, x, y)[i], (Coordinate { x: x as u32, y: y as u32 }),
                        labels(possible_of(old(self).cell(x, y).states@)))
                    && !(unit_x(kind, x, i) == x && unit_y(kind, y, i) == y)
                    && labels(possible_of(old(self).cell(x, y).states@)).contains(v) && 1 <= v <= 9
                    ==> cleared(*final(self), unit_x(kind, x, i), unit_y(kind, y, i), v),
    {
        proof { lemma_narrows_refl(*self); }
        let ghost mut gs: Seq<SudokuGrid> = Seq::empty();
        let mut row: usize = 0;
        while row < GRID_SIZE
            invariant
                self.wf(),
                narrows(*old(self), *self),
                row <= 9,
                old(self).at_home() ==> forall|sol: Seq<Seq<u32>>| is_solution(sol) && #[trigger] agrees(*old(self), sol)
                    ==> agrees(*self, sol),
                gs.len() == 3 * (9 * row),
                pass_states(*old(self), gs, *self),
                siblings_pass_done(gs, 9 * row, *self),
            decreases 9 - row,
        {
            let mut col: usize = 0;
            while col < GRID_SIZE
                invariant
                    self.wf(),
                    narrows(*old(self), *self),
                    row < 9,
                    col <= 9,
                    old(self).at_home() ==> forall|sol: Seq<Seq<u32>>| is_solution(sol) && #[trigger] agrees(*old(self), sol)
                        ==> agrees(*self, sol),
                    gs.len() == 3 * (9 * row + col),
                    pass_states(*old(self), gs, *self),
                    siblings_pass_done(gs, 9 * row + col, *self),
                decreases 9 - col,
            {
                let cell = self.grid[row][col];
                assert(self.cell(col as int, row as int).wf());
                let poss_vals = possible_states(&cell);
                let poss_len = poss_vals.len();
                if poss_len != 2 && poss_len != 3 {
                    proof {
                        lemma_narrows_refl(*self);
                        assert(labels(possible_of(cell.states@)).len() == poss_len);
                        lemma_siblings_pass_step(gs, *self, *self, *self, col as int, row as int, *self, *self);
                        lemma_pass_states_step(*old(self), gs, *self, *self, *self, *self);
                        gs = gs.push(*self).push(*self).push(*self);
                    }
                    col += 1;
                    continue;
                }
                let ghost cx = cell.coordinate.x as int;
                let ghost cy = cell.coordinate.y as int;
                proof {
                    lemma_possible_labels(cell);
                    if old(self).at_home() {
                        assert(self.at_home());
                        assert(cell.coordinate == (Coordinate { x: col as u32, y: row as u32 }));

                        assert(open_copy(*self, cell));
                        assert forall|sol: Seq<Seq<u32>>| is_solution(sol) && #[trigger] agrees(*old(self), sol)
                            implies labels(poss_vals@).contains(sol[cy][cx]) by {
                            assert(agrees(*self, sol));
                            lemma_copy_takes(*self, sol, cell);
                        }
                    }
                }
                let cell_row = self.row_vec(cell.coordinate.y);
                proof {
                    assert forall|i: int| 0 <= i < cell_row@.len() implies (#[trigger] cell_row@[i]).coordinate.x < 9 && cell_row@[i].coordinate.y < 9 by {
                        assert(self.cell(i, cell.coordinate.y as int).wf());
                    }
                    assert(cell_row@ == self.unit_cells(0, cx, cy));
                }
                let ghost b1 = *self;
                match self.check_siblings(cell_row, cell, &poss_vals) {
                    Ok(()) => {},
                    Err(e) => {
                        proof {
                            lemma_shrinks_trans(*old(self), b1, *self);
                            if old(self).at_home() {
                                assert forall|sol: Seq<Seq<u32>>| is_solution(sol) && #[trigger] agrees(*old(self), sol) implies false by {
                                    assert(agrees(b1, sol));
                                }
                            }
                        }
                        return Err(e);
                    },
                }
                let ghost after1 = *self;
                proof {
                    assert(siblings_cleared(b1, cell, 0, after1));
                    lemma_narrows_trans(*old(self), b1, *self);
                    if old(self).at_home() {
                        assert forall|sol: Seq<Seq<u32>>| is_solution(sol) && #[trigger] agrees(*old(self), sol) implies agrees(*self, sol) by {
                            assert(agrees(b1, sol));
                        }
                    }
                }
                let cell_col = self.col_vec(cell.coordinate.x);
                proof {
                    assert forall|i: int| 0 <= i < cell_col@.len() implies (#[trigger] cell_col@[i]).coordinate.x < 9 && cell_col@[i].coordinate.y < 9 by {
                        assert(self.cell(cell.coordinate.x as int, i).wf());
                    }
                    assert(cell_col@ == self.unit_cells(1, cx, cy));
                }
                let ghost b2 = *self;
                match self.check_siblings(cell_col, cell, &poss_vals) {
                    Ok(()) => {},
                    Err(e) => {
                        proof {
                            lemma_shrinks_trans(*old(self), b2, *self);
                            if old(self).at_home() {
                                assert forall|sol: Seq<Seq<u32>>| is_solution(sol) && #[trigger] agrees(*old(self), sol) implies false by {
                                    assert(agrees(b2, sol));
                                }
                            }
                        }
                        return Err(e);
                    },
                }
                let ghost after2 = *self;
                proof {
                    assert(siblings_cleared(b2, cell, 1, after2));
                    lemma_narrows_trans(*old(self), b2, *self);
                    if old(self).at_home() {
                        assert forall|sol: Seq<Seq<u32>>| is_solution(sol) && #[trigger] agrees(*old(self), sol) implies agrees(*self, sol) by {
                            assert(agrees(b2, sol));
                        }
                    }
                }
                let c_box = SudokuBox::new(
                    SudokuBox::coord_translator(cell.coordinate.x),
                    SudokuBox::coord_translator(cell.coordinate.y),
                    *self,
                );
                let cell_box = c_box.as_vec();
                proof {
                    assert forall|i: int| 0 <= i < cell_box@.len() implies (#[trigger] cell_box@[i]).coordinate.x < 9 && cell_box@[i].coordinate.y < 9 by {
                        assert(cell_box@[i] == c_box.at(i));
                        assert(c_box.content@[i / 3]@[i % 3].wf());
                    }
                    assert(cell_box@ =~= self.unit_cells(2, cx, cy)) by {
                        assert forall|t: int| 0 <= t < 9 implies #[trigger] cell_box@[t] == self.unit_cells(2, cx, cy)[t] by {
                            assert(cell_box@[t] == c_box.at(t));
                            lemma_box_position(cx, cy, t);
                        }
                    }
                }
                let ghost b3 = *self;
                match self.check_siblings(cell_box, cell, &poss_vals) {
                    Ok(()) => {},
                    Err(e) => {
                        proof {
                            lemma_shrinks_trans(*old(self), b3, *self);
                            if old(self).at_home() {
                                assert forall|sol: Seq<Seq<u32>>| is_solution(sol) && #[trigger] agrees(*old(self), sol) implies false by {
                                    assert(agrees(b3, sol));
                                }
                            }
                        }
                        return Err(e);
                    },
                }
                proof {
                    lemma_narrows_trans(*old(self), b3, *self);
                    if old(self).at_home() {
                        assert forall|sol: Seq<Seq<u32>>| is_solution(sol) && #[trigger] agrees(*old(self), sol) implies agrees(*self, sol) by {
                            assert(agrees(b3, sol));
                        }
                    }
                    assert(siblings_cleared(b3, cell, 2, *self));
                    assert(cell == b1.cell(col as int, row as int));
                    lemma_shrinks_trans(after1, b3, *self);
                    lemma_siblings_cleared_stays(b1, cell, 0, after1, *self);
                    lemma_siblings_cleared_stays(b2, cell, 1, after2, *self);
                    lemma_shrinks_trans(b1, b2, *self);
                    lemma_siblings_pass_step(gs, b1, b2, b3, col as int, row as int, b1, *self);
                    lemma_pass_states_step(*old(self), gs, b1, b2, b3, *self);
                    gs = gs.push(b1).push(b2).push(b3);
                }
                col += 1;
            }
            row += 1;
        }
        proof {
            if old(self).at_home() && (exists|sol: Seq<Seq<u32>>| is_solution(sol) && agrees(*old(self), sol)) {
                let sol = choose|sol: Seq<Seq<u32>>| is_solution(sol) && agrees(*old(self), sol);
                assert(agrees(*self, sol));
                assert forall|kind: int, x: int, y: int, i: int, v: u32|
                    #![trigger naked_kept(*old(self), *self, kind, x, y), cleared(*self, unit_x(kind, x, i), unit_y(kind, y, i), v)]
                    naked_kept(*old(self), *self, kind, x, y) && 0 <= i < 9
                    && !twin(old(self).unit_cells(kind, x, y)[i], (Coordinate { x: x as u32, y: y as u32 }),
                        labels(possible_of(old(self).cell(x, y).states@)))
                    && !(unit_x(kind, x, i) == x && unit_y(kind, y, i) == y)
                    && labels(possible_of(old(self).cell(x, y).states@)).contains(v) && 1 <= v <= 9
                    implies cleared(*self, unit_x(kind, x, i), unit_y(kind, y, i), v) by {
                    lemma_naked_cleared(*old(self), *self, gs, sol, kind, x, y, i, v);
                }
            }
        }
        Ok(())
    }
}

} // verus!
