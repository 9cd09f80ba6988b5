use vstd::prelude::*;
use crate::cell::{SudokuCell, ValueStatus, values_of, initial_states};
use crate::grid::SudokuGrid;

verus! {

/// A copy of the three by three box whose top-left cell is at column `x`, row `y`.
#[derive(Clone, Debug)]
pub struct SudokuBox {
    pub x: u32,
    pub x_lim: u32,
    pub y: u32,
    pub y_lim: u32,
    pub content: Vec<Vec<SudokuCell>>,
}

/// The top-left column (or row) of the box holding column (or row) `value`.
pub open spec fn box_start(value: u32) -> u32 {
    if value <= 2 { 0 } else if value <= 5 { 3 } else { 6 }
}

impl SudokuBox {
    /// The cell of the box at position `k` (0 to 8), row by row.
    pub open spec fn at(self, k: int) -> SudokuCell {
        self.content@[k / 3]@[k % 3]
    }

    /// The nine cells of the box, row by row.
    pub open spec fn cells(self) -> Seq<SudokuCell> {
        Seq::new(9, |k: int| self.at(k))
    }

    /// The box is three rows of three well-formed cells.
    pub open spec fn wf(self) -> bool {
        &&& self.content@.len() == 3
        &&& forall|r: int| 0 <= r < 3 ==> (#[trigger] self.content@[r]).len() == 3
        &&& forall|r: int, c: int| 0 <= r < 3 && 0 <= c < 3 ==> (#[trigger] self.content@[r]@[c]).wf()
    }

    /// Whether `cell` lies within the columns and rows covered by the box.
    pub open spec fn covers(self, cell: SudokuCell) -> bool {
        self.x <= cell.coordinate.x <= self.x_lim && self.y <= cell.coordinate.y <= self.y_lim
    }

    /// Copies the box of `grid` whose top-left cell is at column `x`, row `y`.
    pub fn new(x: u32, y: u32, grid: SudokuGrid) -> (b: SudokuBox)
        requires
            x <= 6,
            y <= 6,
        ensures
            b.x == x,
            b.y == y,
            b.x_lim == x + 2,
            b.y_lim == y + 2,
            b.content@.len() == 3,
            forall|r: int| 0 <= r < 3 ==> (#[trigger] b.content@[r]).len() == 3,
            forall|r: int, c: int| 0 <= r < 3 && 0 <= c < 3 ==> #[trigger] b.content@[r]@[c] == grid.cell(x + c, y + r),
            grid.wf() ==> b.wf() && b.values_in_range(),
    {
        let mut g_box: Vec<Vec<SudokuCell>> = Vec::new();
        let mut i_y: usize = 0;
        while i_y < 3
            invariant
                x <= 6,
                y <= 6,
                i_y <= 3,
                g_box@.len() == i_y,
                forall|r: int| 0 <= r < i_y ==> (#[trigger] g_box@[r]).len() == 3,
                forall|r: int, c: int| 0 <= r < i_y && 0 <= c < 3 ==> #[trigger] g_box@[r]@[c] == grid.cell(x + c, y + r),
            decreases 3 - i_y,
        {
            let mut g_row: Vec<SudokuCell> = Vec::new();
            let mut i_x: usize = 0;
            while i_x < 3
                invariant
                    x <= 6,
                    y <= 6,
                    i_y < 3,
                    i_x <= 3,
                    g_row@.len() == i_x,
                    forall|c: int| 0 <= c < i_x ==> #[trigger] g_row@[c] == grid.cell(x + c, y + i_y),
                decreases 3 - i_x,
            {
                g_row.push(grid.grid[y as usize + i_y][i_x + x as usize]);
                i_x += 1;
            }
            g_box.push(g_row);
            i_y += 1;
        }
        let b = SudokuBox { x, x_lim: x + 2, y, y_lim: y + 2, content: g_box };
        proof {
            if grid.wf() {
                assert forall|r: int, c: int| 0 <= r < 3 && 0 <= c < 3 implies (#[trigger] b.content@[r]@[c]).wf() by {
                    assert(grid.cell(x + c, y + r).wf());
                }
                b.lemma_wf_in_range();
            }
        }
        b
    }

    /// The left column of box number `value` (boxes numbered row by row); 0 past 8.
    pub fn x_finder(value: u32) -> (r: u32)
        ensures
            r == (if value <= 8 { 3 * (value % 3) } else { 0 }),
    {
        match value {
            0 | 3 | 6 => 0,
            1 | 4 | 7 => 3,
            2 | 5 | 8 => 6,
            _ => 0,
        }
    }

    /// The top-left column (or row) of the box holding column (or row) `value`.
    pub fn coord_translator(value: u32) -> (r: u32)
        requires
            value <= 8,
        ensures
            r == box_start(value),
    {
        if value <= 2 {
            0
        } else if value <= 5 {
            3
        } else {
            6
        }
    }

    /// The top row of box number `value` (boxes numbered row by row); 0 past 8.
    pub fn y_finder(value: u32) -> (r: u32)
        ensures
            r == (if value <= 8 { box_start(value) } else { 0 }),
    {
        if value <= 2 {
            0
        } else if value <= 5 {
            3
        } else if value <= 8 {
            6
        } else {
            0
        }
    }

    /// The values of the cells, row by row.
    pub fn get_vals(&self) -> (values: Vec<u32>)
        ensures
            values@ == values_of(flat_cells(self.content@)),
            self.wf() ==> values@.len() == 9,
            self.wf() ==> forall|k: int| 0 <= k < 9 ==> #[trigger] values@[k] == self.at(k).value_as_int,
    {
        let mut values: Vec<u32> = Vec::new();
        let mut r: usize = 0;
        while r < self.content.len()
            invariant
                r <= self.content@.len(),
                values@ == values_of(flat_cells(self.content@.take(r as int))),
            decreases self.content.len() - r,
        {
            let mut c: usize = 0;
            while c < self.content[r].len()
                invariant
                    r < self.content@.len(),
                    c <= self.content@[r as int]@.len(),
                    values@ == values_of(flat_cells(self.content@.take(r as int)) + self.content@[r as int]@.take(c as int)),
                decreases self.content@[r as int]@.len() - c,
            {
                values.push(self.content[r][c].value_as_int);
                proof {
                    assert(flat_cells(self.content@.take(r as int)) + self.content@[r as int]@.take(c + 1)
                        =~= (flat_cells(self.content@.take(r as int)) + self.content@[r as int]@.take(c as int)).push(self.content@[r as int]@[c as int]));
                    assert(values@ =~= values_of(flat_cells(self.content@.take(r as int)) + self.content@[r as int]@.take(c + 1)));
                }
                c += 1;
            }
            proof {
                lemma_flat_step(self.content@, r as int);
                assert(self.content@[r as int]@.take(self.content@[r as int]@.len() as int) =~= self.content@[r as int]@);
            }
            r += 1;
        }
        proof {
            assert(self.content@.take(self.content@.len() as int) =~= self.content@);
            if self.wf() {
                self.lemma_flat_wf();
            }
        }
        values
    }

    /// Whether `cell` lies within the columns and rows covered by the box.
    pub fn in_box(&self, cell: SudokuCell) -> (r: bool)
        ensures
            r == self.covers(cell),
    {
        if cell.coordinate.x < self.x {
            return false;
        }
        if cell.coordinate.x > self.x_lim {
            return false;
        }
        if cell.coordinate.y < self.y {
            return false;
        }
        if cell.coordinate.y > self.y_lim {
            return false;
        }
        true
    }

    /// Fresh copies of the cells, row by row: a defined cell rebuilt from its value, an open
    /// one from its value states. For a well-formed box these equal the cells.
    pub fn as_vec(&self) -> (cells: Vec<SudokuCell>)
        requires
            self.values_in_range(),
        ensures
            cells@.len() == flat_cells(self.content@).len(),
            forall|k: int| 0 <= k < cells@.len() ==> rebuilt_from(flat_cells(self.content@)[k], #[trigger] cells@[k]),
            self.wf() ==> cells@ == self.cells(),
    {
        let mut cells: Vec<SudokuCell> = Vec::new();
        let mut r: usize = 0;
        while r < self.content.len()
            invariant
                r <= self.content@.len(),
                forall|k: int| 0 <= k < flat_cells(self.content@).len() && (#[trigger] flat_cells(self.content@)[k]).defined
                    ==> flat_cells(self.content@)[k].value_as_int <= 9,
                cells@.len() == flat_cells(self.content@.take(r as int)).len(),
                forall|k: int| 0 <= k < cells@.len() ==> rebuilt_from(flat_cells(self.content@.take(r as int))[k], #[trigger] cells@[k]),
            decreases self.content.len() - r,
        {
            let ghost done = flat_cells(self.content@.take(r as int));
            proof {
                lemma_flat_step(self.content@, r as int);
                lemma_flat_prefix(self.content@, r + 1);
            }
            let mut c: usize = 0;
            while c < self.content[r].len()
                invariant
                    r < self.content@.len(),
                    c <= self.content@[r as int]@.len(),
                    done == flat_cells(self.content@.take(r as int)),
                    flat_cells(self.content@.take(r + 1)) == done + self.content@[r as int]@,
                    forall|k: int| 0 <= k < done.len() + self.content@[r as int]@.len() ==> flat_cells(self.content@.take(r + 1))[k] == #[trigger] flat_cells(self.content@)[k],
                    done.len() + self.content@[r as int]@.len() <= flat_cells(self.content@).len(),
                    forall|k: int| 0 <= k < flat_cells(self.content@).len() && (#[trigger] flat_cells(self.content@)[k]).defined
                        ==> flat_cells(self.content@)[k].value_as_int <= 9,
                    cells@.len() == done.len() + c,
                    forall|k: int| 0 <= k < cells@.len() ==> rebuilt_from((done + self.content@[r as int]@)[k], #[trigger] cells@[k]),
                decreases self.content@[r as int]@.len() - c,
            {
                let cell = self.content[r][c];
                proof {
                    let k = done.len() + c;
                    assert((done + self.content@[r as int]@)[k] == cell);
                    assert(flat_cells(self.content@)[k] == cell);
                }
                let fresh = if cell.defined {
                    SudokuCell::new(cell.value_as_int, cell.coordinate.x, cell.coordinate.y)
                } else {
                    SudokuCell::new_with_states(cell.coordinate.x, cell.coordinate.y, cell.get_val_stats_as_array())
                };
                cells.push(fresh);
                proof {
                    assert forall|k: int| 0 <= k < cells@.len() implies rebuilt_from((done + self.content@[r as int]@)[k], #[trigger] cells@[k]) by {
                        if k == cells@.len() - 1 {
                            assert(cells@[k] == fresh);
                            assert((done + self.content@[r as int]@)[k] == cell);
                            if !cell.defined {
                                assert(fresh.states@ =~= cell.states@);
                            }
                        }
                    }
                }
                c += 1;
            }
            proof {
                assert forall|k: int| 0 <= k < cells@.len() implies rebuilt_from(flat_cells(self.content@.take(r + 1))[k], #[trigger] cells@[k]) by {
                    assert(flat_cells(self.content@.take(r + 1))[k] == (done + self.content@[r as int]@)[k]);
                }
            }
            r += 1;
        }
        proof {
            assert(self.content@.take(self.content@.len() as int) =~= self.content@);
            if self.wf() {
                self.lemma_flat_wf();
                assert forall|k: int| 0 <= k < 9 implies #[trigger] cells@[k] == self.cells()[k] by {
                    let c = flat_cells(self.content@)[k];
                    assert(c == self.at(k));
                    assert(0 <= k / 3 < 3 && 0 <= k % 3 < 3);
                    assert(self.content@[k / 3]@[k % 3].wf());
                    let f = cells@[k];
                    assert(rebuilt_from(c, f));
                    assert forall|i: int| 0 <= i < 9 implies #[trigger] f.states@[i] == c.states@[i] by {
                        let b = c.states@[i];
                        assert(b.1 == i + 1);
                        if c.defined {
                            assert(b.0 == (if i == c.value_as_int - 1 { ValueStatus::Actual } else { ValueStatus::Impossible }));
                            assert(f.states@[i] == initial_states(c.value_as_int)[i]);
                        }
                    }
                    assert(f.states@ =~= c.states@);
                    assert(f.states =~= c.states);
                }
                assert(cells@ =~= self.cells());
            }
        }
        cells
    }

    /// Every defined cell of the box holds a value from 0 to 9.
    pub open spec fn values_in_range(self) -> bool {
        forall|k: int| 0 <= k < flat_cells(self.content@).len() && (#[trigger] flat_cells(self.content@)[k]).defined
            ==> flat_cells(self.content@)[k].value_as_int <= 9
    }

    /// The cells of a well-formed box, row after row, are its nine cells, all holding values
    /// from 0 to 9.
    pub proof fn lemma_wf_in_range(self)
        requires
            self.wf(),
        ensures
            self.values_in_range(),
    {
        self.lemma_flat_wf();
        assert forall|k: int| 0 <= k < flat_cells(self.content@).len() && (#[trigger] flat_cells(self.content@)[k]).defined
            implies flat_cells(self.content@)[k].value_as_int <= 9 by {
            assert(flat_cells(self.content@)[k] == self.at(k));
            assert(0 <= k / 3 < 3 && 0 <= k % 3 < 3);
            assert(self.content@[k / 3]@[k % 3].wf());
        }
    }

    /// The cells of a well-formed box, row after row, are its nine cells.
    pub proof fn lemma_flat_wf(self)
        requires
            self.wf(),
        ensures
            flat_cells(self.content@) == self.cells(),
    {
        let c = self.content@;
        lemma_flat_step(c, 0);
        lemma_flat_step(c, 1);
        lemma_flat_step(c, 2);
        assert(c.take(0) =~= Seq::<Vec<SudokuCell>>::empty());
        assert(c.take(3) =~= c);
        assert forall|k: int| 0 <= k < 9 implies #[trigger] flat_cells(c)[k] == self.cells()[k] by {
            assert(k / 3 == 0 || k / 3 == 1 || k / 3 == 2) by (nonlinear_arith) requires 0 <= k < 9;
            assert(0 <= k % 3 < 3 && k == 3 * (k / 3) + k % 3) by (nonlinear_arith) requires 0 <= k < 9;
        }
        assert(flat_cells(c) =~= self.cells());
    }
}

/// The cells of the rows `rows`, row after row.
pub open spec fn flat_cells(rows: Seq<Vec<SudokuCell>>) -> Seq<SudokuCell>
    decreases rows.len(),
{
    if rows.len() == 0 {
        Seq::empty()
    } else {
        flat_cells(rows.drop_last()) + rows.last()@
    }
}

/// `f` is the fresh copy of `c` that `as_vec` makes: a defined cell rebuilt from its value, an
/// open one with the same states, both at the same coordinate.
pub open spec fn rebuilt_from(c: SudokuCell, f: SudokuCell) -> bool {
    &&& f.coordinate == c.coordinate
    &&& if c.defined {
        &&& f.defined == (c.value_as_int != 0)
        &&& f.value_as_int == c.value_as_int
        &&& f.states@ == initial_states(c.value_as_int)
    } else {
        &&& !f.defined
        &&& f.value_as_int == 0
        &&& f.states@ == c.states@
    }
}

/// One more row: the cells of the first `r + 1` rows are those of the first `r` and row `r`.
pub proof fn lemma_flat_step(rows: Seq<Vec<SudokuCell>>, r: int)
    requires
        0 <= r < rows.len(),
    ensures
        flat_cells(rows.take(r + 1)) == flat_cells(rows.take(r)) + rows[r]@,
{
    assert(rows.take(r + 1).drop_last() =~= rows.take(r));
    assert(rows.take(r + 1).last() == rows[r]);
}

/// The cells of the first `r` rows begin the cells of all rows.
pub proof fn lemma_flat_prefix(rows: Seq<Vec<SudokuCell>>, r: int)
    requires
        0 <= r <= rows.len(),
    ensures
        flat_cells(rows.take(r)).len() <= flat_cells(rows).len(),
        forall|k: int| 0 <= k < flat_cells(rows.take(r)).len() ==> flat_cells(rows.take(r))[k] == #[trigger] flat_cells(rows)[k],
    decreases rows.len() - r,
{
    if r < rows.len() {
        lemma_flat_prefix(rows, r + 1);
        lemma_flat_step(rows, r);
    } else {
        assert(rows.take(r) =~= rows);
    }
}

} // verus!
