use vstd::prelude::*;
use crate::util::contains_u32;

verus! {

/// The status of one candidate value in a cell.
#[derive(Clone, Copy, Debug, PartialEq, Eq, Structural)]
pub enum ValueStatus {
    Actual,
    Possible,
    Impossible,
}

/// A position in the grid: `x` is the column, `y` the row.
#[derive(Clone, Copy, Debug, PartialEq, Eq, Structural)]
pub struct Coordinate {
    pub x: u32,
    pub y: u32,
}

/// One square of a grid, with the status of each of the nine values.
#[derive(Clone, Copy, Debug)]
pub struct SudokuCell {
    pub defined: bool,
    pub value_as_int: u32,
    pub states: [(ValueStatus, u32); 9],
    pub coordinate: Coordinate,
}

/// The states of a cell built by `SudokuCell::new` with the given value.
pub open spec fn initial_states(val: u32) -> Seq<(ValueStatus, u32)> {
    Seq::new(9, |i: int|
        (if val == 0 { ValueStatus::Possible }
         else if i == val - 1 { ValueStatus::Actual }
         else { ValueStatus::Impossible }, (i + 1) as u32))
}

/// The values `1..=n` whose entry in `s` has status `st`, in increasing order.
pub open spec fn values_with(s: Seq<(ValueStatus, u32)>, st: ValueStatus, n: nat) -> Seq<u32>
    decreases n,
{
    if n == 0 {
        Seq::empty()
    } else {
        let prev = values_with(s, st, (n - 1) as nat);
        if s[n - 1].0 == st {
            prev.push(n as u32)
        } else {
            prev
        }
    }
}

/// What `values_with` holds: exactly the matching values, each once, in increasing order.
pub proof fn lemma_values_with(s: Seq<(ValueStatus, u32)>, st: ValueStatus, n: nat)
    requires
        n <= s.len(),
        n <= 9,
    ensures
        values_with(s, st, n).len() <= n,
        forall|k: int| 0 <= k < values_with(s, st, n).len() ==> 1 <= #[trigger] values_with(s, st, n)[k] <= n,
        forall|k: int| 0 <= k < values_with(s, st, n).len() ==> s[values_with(s, st, n)[k] - 1].0 == st,
        forall|v: u32| 1 <= v <= n ==> (values_with(s, st, n).contains(v) <==> s[v - 1].0 == st),
        forall|i: int, j: int| 0 <= i < j < values_with(s, st, n).len() ==> values_with(s, st, n)[i] < values_with(s, st, n)[j],
        values_with(s, st, n).len() == n <==> (forall|i: int| 0 <= i < n ==> s[i].0 == st),
    decreases n,
{
    if n > 0 {
        lemma_values_with(s, st, (n - 1) as nat);
        let prev = values_with(s, st, (n - 1) as nat);
        let cur = values_with(s, st, n);
        assert forall|v: u32| 1 <= v <= n implies (cur.contains(v) <==> s[v - 1].0 == st) by {
            if v < n {
                if s[n - 1].0 == st {
                    if cur.contains(v) {
                        let k = choose|k: int| 0 <= k < cur.len() && cur[k] == v;
                        if k < prev.len() {
                            assert(prev[k] == v);
                        }
                    }
                    if prev.contains(v) {
                        let k = choose|k: int| 0 <= k < prev.len() && prev[k] == v;
                        assert(cur[k] == v);
                    }
                }
            } else {
                if s[n - 1].0 == st {
                    assert(cur[cur.len() - 1] == v);
                } else {
                    if prev.contains(v) {
                        let k = choose|k: int| 0 <= k < prev.len() && prev[k] == v;
                        assert(prev[k] <= n - 1);
                    }
                }
            }
        }
        if cur.len() == n {
            assert forall|i: int| 0 <= i < n implies s[i].0 == st by {
                if s[n - 1].0 != st {
                    assert(prev.len() <= n - 1);
                }
                if i < n - 1 {
                    assert(prev.len() == n - 1);
                }
            }
        }
    }
}

/// The cells of `s` that hold a value (a nonzero `value_as_int`), in order.
pub open spec fn cells_with_value(s: Seq<SudokuCell>) -> Seq<SudokuCell>
    decreases s.len(),
{
    if s.len() == 0 {
        Seq::empty()
    } else {
        let prev = cells_with_value(s.drop_last());
        if s.last().value_as_int != 0 {
            prev.push(s.last())
        } else {
            prev
        }
    }
}

/// The cells of `s` that are not defined, in order.
pub open spec fn open_cells(s: Seq<SudokuCell>) -> Seq<SudokuCell>
    decreases s.len(),
{
    if s.len() == 0 {
        Seq::empty()
    } else {
        let prev = open_cells(s.drop_last());
        if !s.last().defined {
            prev.push(s.last())
        } else {
            prev
        }
    }
}

/// The values of the cells of `s`, in order.
pub open spec fn values_of(s: Seq<SudokuCell>) -> Seq<u32> {
    s.map_values(|c: SudokuCell| c.value_as_int)
}

/// Facts on the two filters over well-formed cells: the cells holding a value and the
/// open cells split `s`, and each kept cell comes from `s`.
pub proof fn lemma_cell_filters(s: Seq<SudokuCell>)
    requires
        forall|i: int| 0 <= i < s.len() ==> (#[trigger] s[i]).wf(),
    ensures
        cells_with_value(s).len() + open_cells(s).len() == s.len(),
        forall|k: int| 0 <= k < cells_with_value(s).len() ==> s.contains(#[trigger] cells_with_value(s)[k]) && cells_with_value(s)[k].value_as_int != 0,
        forall|k: int| 0 <= k < open_cells(s).len() ==> s.contains(#[trigger] open_cells(s)[k]) && !open_cells(s)[k].defined,
    decreases s.len(),
{
    if s.len() > 0 {
        let t = s.drop_last();
        assert forall|i: int| 0 <= i < t.len() implies (#[trigger] t[i]).wf() by {
            assert(t[i] == s[i]);
        }
        lemma_cell_filters(t);
        assert forall|k: int| 0 <= k < cells_with_value(s).len() implies s.contains(#[trigger] cells_with_value(s)[k]) && cells_with_value(s)[k].value_as_int != 0 by {
            if k < cells_with_value(t).len() {
                let c = cells_with_value(t)[k];
                let j = choose|j: int| 0 <= j < t.len() && t[j] == c;
                assert(s[j] == c);
            } else {
                assert(s[s.len() - 1] == s.last());
            }
        }
        assert forall|k: int| 0 <= k < open_cells(s).len() implies s.contains(#[trigger] open_cells(s)[k]) && !open_cells(s)[k].defined by {
            if k < open_cells(t).len() {
                let c = open_cells(t)[k];
                let j = choose|j: int| 0 <= j < t.len() && t[j] == c;
                assert(s[j] == c);
            } else {
                assert(s[s.len() - 1] == s.last());
            }
        }
        assert(s[s.len() - 1].wf());
    }
}

/// An open cell of `s` is among its open cells.
pub proof fn lemma_open_cells_has(s: Seq<SudokuCell>, i: int)
    requires
        0 <= i < s.len(),
        !s[i].defined,
    ensures
        open_cells(s).contains(s[i]),
    decreases s.len(),
{
    let t = s.drop_last();
    if i < s.len() - 1 {
        assert(t[i] == s[i]);
        lemma_open_cells_has(t, i);
        let k = choose|k: int| 0 <= k < open_cells(t).len() && open_cells(t)[k] == s[i];
        if !s.last().defined {
            assert(open_cells(s)[k] == s[i]);
        }
    } else {
        assert(open_cells(s)[open_cells(s).len() - 1] == s[i]);
    }
}

/// The value of a cell of `s` holding one is among the values of the cells holding one.
pub proof fn lemma_cells_with_value_has(s: Seq<SudokuCell>, i: int)
    requires
        0 <= i < s.len(),
        s[i].value_as_int != 0,
    ensures
        values_of(cells_with_value(s)).contains(s[i].value_as_int),
    decreases s.len(),
{
    let t = s.drop_last();
    if i < s.len() - 1 {
        assert(t[i] == s[i]);
        lemma_cells_with_value_has(t, i);
        let k = choose|k: int| 0 <= k < values_of(cells_with_value(t)).len() && values_of(cells_with_value(t))[k] == s[i].value_as_int;
        if s.last().value_as_int != 0 {
            assert(values_of(cells_with_value(s))[k] == s[i].value_as_int);
        } else {
            assert(values_of(cells_with_value(s))[k] == s[i].value_as_int);
        }
    } else {
        let n = cells_with_value(s).len();
        assert(values_of(cells_with_value(s))[n - 1] == s[i].value_as_int);
    }
}

/// A value among those of the cells of `s` holding one comes from a cell of `s`.
pub proof fn lemma_cells_with_value_from(s: Seq<SudokuCell>, v: u32)
    requires
        values_of(cells_with_value(s)).contains(v),
    ensures
        v != 0,
        exists|i: int| 0 <= i < s.len() && (#[trigger] s[i]).value_as_int == v,
    decreases s.len(),
{
    let t = s.drop_last();
    let w = values_of(cells_with_value(s));
    let k = choose|k: int| 0 <= k < w.len() && w[k] == v;
    if s.last().value_as_int != 0 && k == cells_with_value(s).len() - 1 {
        assert(s[s.len() - 1] == s.last());
    } else {
        assert(values_of(cells_with_value(t))[k] == v);
        lemma_cells_with_value_from(t, v);
        let i = choose|i: int| 0 <= i < t.len() && (#[trigger] t[i]).value_as_int == v;
        assert(s[i] == t[i]);
    }
}

impl SudokuCell {
    /// Well-formedness of a cell inside a grid.
    pub open spec fn wf(self) -> bool {
        &&& self.value_as_int <= 9
        &&& self.defined == (self.value_as_int != 0)
        &&& self.coordinate.x < 9
        &&& self.coordinate.y < 9
        &&& forall|i: int| 0 <= i < 9 ==> #[trigger] self.states@[i].1 == i + 1
        &&& self.defined ==> forall|i: int| 0 <= i < 9 ==> #[trigger] self.states@[i].0 == (if i == self.value_as_int - 1 { ValueStatus::Actual } else { ValueStatus::Impossible })
        &&& !self.defined ==> forall|i: int| 0 <= i < 9 ==> #[trigger] self.states@[i].0 != ValueStatus::Actual
    }

    /// The values still possible for this cell, in increasing order.
    pub open spec fn possible_values(self) -> Seq<u32> {
        values_with(self.states@, ValueStatus::Possible, 9)
    }

    /// The values ruled out for this cell, in increasing order.
    pub open spec fn impossible_values(self) -> Seq<u32> {
        values_with(self.states@, ValueStatus::Impossible, 9)
    }

    /// Whether value `v` (1 to 9) is already ruled out.
    pub open spec fn is_ruled_out(self, v: u32) -> bool {
        1 <= v <= 9 && self.states@[v - 1].0 == ValueStatus::Impossible
    }

    /// The states of the cell once value `v` is marked impossible (unchanged when `v` is not 1 to 9).
    pub open spec fn struck_states(self, v: u32) -> Seq<(ValueStatus, u32)> {
        if 1 <= v <= 9 {
            self.states@.update(v - 1, (ValueStatus::Impossible, self.states@[v - 1].1))
        } else {
            self.states@
        }
    }

    /// What `set_impossible(v)` reports: whether exactly one value is left, and which.
    pub open spec fn strike_outcome(self, v: u32) -> (bool, u32) {
        let left = values_with(self.struck_states(v), ValueStatus::Possible, 9);
        if self.is_ruled_out(v) {
            (false, 0)
        } else if left.len() == 1 {
            (true, left[0])
        } else {
            (false, 0)
        }
    }

    /// Whether `set_impossible(v)` would leave every value of the cell impossible.
    pub open spec fn strike_empties(self, v: u32) -> bool {
        &&& !self.is_ruled_out(v)
        &&& values_with(self.struck_states(v), ValueStatus::Possible, 9).len() != 1
        &&& values_with(self.struck_states(v), ValueStatus::Impossible, 9).len() >= 9
    }

    /// Builds a cell holding `val` (0 means an empty cell with every value possible).
    pub fn new(val: u32, x: u32, y: u32) -> (cell: SudokuCell)
        requires
            val <= 9,
        ensures
            cell.defined == (val != 0),
            cell.value_as_int == val,
            cell.states@ == initial_states(val),
            cell.coordinate == (Coordinate { x, y }),
    {
        let mut states = [(ValueStatus::Impossible, 1u32); 9];
        let mut i: usize = 0;
        while i < 9
            invariant
                i <= 9,
                val <= 9,
                forall|j: int| 0 <= j < i ==> states@[j] == initial_states(val)[j],
            decreases 9 - i,
        {
            let st = if val == 0 {
                ValueStatus::Possible
            } else if i as u32 == val - 1 {
                ValueStatus::Actual
            } else {
                ValueStatus::Impossible
            };
            states[i] = (st, (i + 1) as u32);
            i += 1;
        }
        assert(states@ =~= initial_states(val));
        SudokuCell { defined: val != 0, value_as_int: val, states, coordinate: Coordinate { x, y } }
    }

    /// Builds an empty cell whose value states are the first nine entries of `states`.
    pub fn new_with_states(x: u32, y: u32, states: Vec<(ValueStatus, u32)>) -> (cell: SudokuCell)
        requires
            states.len() >= 9,
        ensures
            !cell.defined,
            cell.value_as_int == 0,
            cell.states@ == states@.subrange(0, 9),
            cell.coordinate == (Coordinate { x, y }),
    {
        let arr = [states[0], states[1], states[2], states[3], states[4], states[5], states[6], states[7], states[8]];
        assert(arr@ =~= states@.subrange(0, 9));
        SudokuCell { defined: false, value_as_int: 0, states: arr, coordinate: Coordinate { x, y } }
    }

    /// The status of each of the nine values, in order.
    pub fn get_val_stats_as_array(&self) -> (arr: Vec<(ValueStatus, u32)>)
        ensures
            arr@ == self.states@,
    {
        let mut arr = Vec::new();
        let mut i: usize = 0;
        while i < 9
            invariant
                i <= 9,
                arr@ == self.states@.subrange(0, i as int),
            decreases 9 - i,
        {
            arr.push(self.states[i]);
            i += 1;
        }
        assert(arr@ =~= self.states@);
        arr
    }

    /// The values of the cell with the given status, in increasing order.
    fn values_with_status(&self, st: ValueStatus) -> (vals: Vec<u32>)
        ensures
            vals@ == values_with(self.states@, st, 9),
    {
        let mut vals = Vec::new();
        let mut i: usize = 0;
        while i < 9
            invariant
                i <= 9,
                vals@ == values_with(self.states@, st, i as nat),
            decreases 9 - i,
        {
            if self.states[i].0 == st {
                vals.push((i + 1) as u32);
            }
            i += 1;
        }
        vals
    }

    /// The values ruled out for this cell, in increasing order.
    pub fn get_impossible(&self) -> (vals: Vec<u32>)
        ensures
            vals@ == self.impossible_values(),
    {
        self.values_with_status(ValueStatus::Impossible)
    }

    /// The values still possible for this cell, in increasing order.
    pub fn get_possible(&self) -> (vals: Vec<u32>)
        ensures
            vals@ == self.possible_values(),
    {
        self.values_with_status(ValueStatus::Possible)
    }

    /// Whether `set_impossible(value)` would leave no value of the cell standing.
    pub fn strike_would_empty(&self, value: u32) -> (r: bool)
        ensures
            r == self.strike_empties(value),
    {
        let mut c = *self;
        proof { lemma_values_with(self.states@, ValueStatus::Impossible, 9); }
        if contains_u32(&self.get_impossible(), value) {
            return false;
        }
        if 1 <= value && value <= 9 {
            let i = (value - 1) as usize;
            let lab = c.states[i].1;
            c.states[i] = (ValueStatus::Impossible, lab);
        }
        assert(c.states@ =~= self.struck_states(value));
        c.get_possible().len() != 1 && c.get_impossible().len() >= 9
    }

    /// Marks `value` impossible. Reports `(true, v)` when `v` is then the only value left,
    /// and `(false, 0)` otherwise or when `value` was already ruled out.
    pub fn set_impossible(&mut self, value: u32) -> (r: (bool, u32))
        requires
            !old(self).strike_empties(value),
        ensures
            final(self).states@ == old(self).struck_states(value),
            final(self).defined == old(self).defined,
            final(self).value_as_int == old(self).value_as_int,
            final(self).coordinate == old(self).coordinate,
            r == old(self).strike_outcome(value),
    {
        proof { lemma_values_with(self.states@, ValueStatus::Impossible, 9); }
        if contains_u32(&self.get_impossible(), value) {
            assert(self.states@ =~= old(self).struck_states(value));
            return (false, 0);
        }
        if 1 <= value && value <= 9 {
            let i = (value - 1) as usize;
            let lab = self.states[i].1;
            self.states[i] = (ValueStatus::Impossible, lab);
        }
        assert(self.states@ =~= old(self).struck_states(value));
        let poss = self.get_possible();
        if poss.len() == 1 {
            return (true, poss[0]);
        }
        (false, 0)
    }
}

} // verus!
