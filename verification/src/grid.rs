//! The sheet: a fixed square of cells, its history, the cursor, and the
//! operations that insert rows and columns or load and save it.
use vstd::prelude::*;
use crate::cell::{CellType, TranslateRule, TranslateFault, translates_to, translation_fails};
use crate::text::{decimal, usize_to_decimal, chars_of, string_of, append_all};
use crate::refs;
use crate::csv::{
    escape_csv_spec, join_fields, lemma_join_push, lemma_doubled_chars, doubled_quotes, unlines, single_line,
    lemma_lines_round_trip, lemma_written_fields_round_trip, fields_cells, field_cell, lines_spec, latin1,
    written_field, written_fields,
    parse_csv_chars,
};

verus! {

/// Number of rows and of columns of the sheet.
pub const LEN: usize = 1001;

/// File extension of sheets saved with their values computed.
pub const CSV_EXT: &'static str = "csv";

/// File extension of sheets saved with their formulas.
pub const CUSTOM_EXT: &'static str = "nscim";

/// Width of the row-number column: the number of digits of `LEN`.
pub fn get_header_size() -> (r: usize)
    ensures
        r == decimal(LEN as nat).len(),
{
    usize_to_decimal(LEN).len()
}

/// Contents that may stand in a cell: an equation starts with `=`.
pub open spec fn cell_ok(c: Option<CellType>) -> bool {
    c matches Some(v) ==> v.wf()
}

/// The cells of one sheet, `LEN` columns of `LEN` cells, each either empty
/// or holding contents; indexed `[x][y]`.
pub struct CellGrid {
    cells: Vec<Vec<Option<CellType>>>,
}

/// What cell `(x, y)` holds after a row is inserted above row `iy`: the
/// rows from `iy` on move down by one, the new row is empty and the last row
/// falls off.
pub open spec fn row_shift(g: CellGrid, iy: int, x: int, y: int) -> Option<CellType> {
    if y < iy {
        g.cell(x, y)
    } else if y == iy {
        None
    } else {
        g.cell(x, y - 1)
    }
}

/// What cell `(x, y)` holds after a column is inserted before column `ix`.
pub open spec fn column_shift(g: CellGrid, ix: int, x: int, y: int) -> Option<CellType> {
    if x < ix {
        g.cell(x, y)
    } else if x == ix {
        None
    } else {
        g.cell(x - 1, y)
    }
}

/// The largest `x` and the largest `y` (separately) of the non-empty cells,
/// 0 when there are none.
pub open spec fn is_max(g: CellGrid, r: (usize, usize)) -> bool {
    &&& (exists|x: int, y: int| #[trigger] g.cell(x, y) is Some) ==> (exists|y: int| #[trigger] g.cell(
        r.0 as int,
        y,
    ) is Some) && (exists|x: int| #[trigger] g.cell(x, r.1 as int) is Some)
    &&& (forall|x: int, y: int| #[trigger] g.cell(x, y) is Some ==> x <= r.0 && y <= r.1)
    &&& (!exists|x: int, y: int| #[trigger] g.cell(x, y) is Some) ==> r == (0usize, 0usize)
}

impl CellGrid {
    pub closed spec fn wf(self) -> bool {
        &&& self.cells@.len() == LEN
        &&& forall|x: int| 0 <= x < LEN ==> (#[trigger] self.cells@[x])@.len() == LEN
        &&& forall|x: int, y: int| cell_ok(#[trigger] self.cell(x, y))
    }

    /// Cell `(x, y)`; empty outside the sheet.
    pub closed spec fn cell(self, x: int, y: int) -> Option<CellType> {
        if 0 <= x < self.cells@.len() && 0 <= y < self.cells@[x]@.len() {
            self.cells@[x]@[y]
        } else {
            None
        }
    }

    /// Every cell of `self` and `other` holds the same.
    pub open spec fn same_cells(self, other: CellGrid) -> bool {
        forall|x: int, y: int| #[trigger] self.cell(x, y) == other.cell(x, y)
    }

    /// An empty sheet.
    pub fn new() -> (r: CellGrid)
        ensures
            r.wf(),
            forall|x: int, y: int| #[trigger] r.cell(x, y) is None,
    {
        let mut a: Vec<Vec<Option<CellType>>> = Vec::with_capacity(LEN);
        let mut i: usize = 0;
        while i < LEN
            invariant
                i <= LEN,
                a@.len() == i,
                forall|x: int| 0 <= x < i ==> (#[trigger] a@[x])@.len() == LEN,
                forall|x: int, y: int| 0 <= x < i && 0 <= y < LEN ==> (#[trigger] a@[x]@[y]) is None,
            decreases LEN - i,
        {
            let mut b: Vec<Option<CellType>> = Vec::with_capacity(LEN);
            let mut j: usize = 0;
            while j < LEN
                invariant
                    j <= LEN,
                    b@.len() == j,
                    forall|y: int| 0 <= y < j ==> (#[trigger] b@[y]) is None,
                decreases LEN - j,
            {
                b.push(None);
                j = j + 1;
            }
            a.push(b);
            i = i + 1;
        }
        let r = CellGrid { cells: a };
        assert forall|x: int, y: int| #[trigger] r.cell(x, y) is None by {
            if 0 <= x < r.cells@.len() && 0 <= y < r.cells@[x]@.len() {
                assert(a@[x]@[y] is None);
            }
        }
        r
    }

    /// Cell `(x, y)`; empty outside the sheet.
    pub fn get_cell_raw(&self, x: usize, y: usize) -> (r: &Option<CellType>)
        requires
            self.wf(),
        ensures
            *r == self.cell(x as int, y as int),
    {
        if x >= LEN || y >= LEN {
            return &None;
        }
        &self.cells[x][y]
    }

    /// Puts `val` in cell `(x, y)`.
    pub fn set_cell_raw(&mut self, pos: (usize, usize), val: Option<CellType>)
        requires
            old(self).wf(),
            pos.0 < LEN,
            pos.1 < LEN,
            cell_ok(val),
        ensures
            final(self).wf(),
            final(self).cell(pos.0 as int, pos.1 as int) == val,
            forall|x: int, y: int|
                (x, y) != (pos.0 as int, pos.1 as int) ==> #[trigger] final(self).cell(x, y) == old(self).cell(x, y),
    {
        let (x, y) = pos;
        let ghost before = *self;
        self.cells[x].set(y, val);
        assert forall|a: int, b: int|
            (a, b) != (x as int, y as int) implies #[trigger] self.cell(a, b) == before.cell(a, b) by {
            if 0 <= a < LEN && a != x {
                assert(self.cells@[a] == before.cells@[a]);
            }
        }
        assert forall|a: int, b: int| cell_ok(#[trigger] self.cell(a, b)) by {
            if (a, b) != (x as int, y as int) {
                assert(self.cell(a, b) == before.cell(a, b));
                assert(cell_ok(before.cell(a, b)));
            }
        }
        assert forall|a: int| 0 <= a < LEN implies (#[trigger] self.cells@[a])@.len() == LEN by {
            if a != x {
                assert(self.cells@[a] == before.cells@[a]);
            }
        }
    }

    /// Inserts an empty row above row `y`: the rows from `y` on move down
    /// by one and the last row is dropped.
    pub fn insert_row(&mut self, y: usize)
        requires
            old(self).wf(),
            y <= LEN,
        ensures
            final(self).wf(),
            forall|a: int, b: int|
                0 <= a < LEN && 0 <= b < LEN ==> #[trigger] final(self).cell(a, b) == row_shift(
                    *old(self),
                    y as int,
                    a,
                    b,
                ),
    {
        let ghost before = *self;
        let mut x: usize = 0;
        while x < LEN
            invariant
                x <= LEN,
                y <= LEN,
                before.wf(),
                self.cells@.len() == LEN,
                forall|a: int| 0 <= a < LEN ==> (#[trigger] self.cells@[a])@.len() == LEN,
                forall|a: int, b: int|
                    0 <= a < x && 0 <= b < LEN ==> #[trigger] self.cell(a, b) == row_shift(
                        before,
                        y as int,
                        a,
                        b,
                    ),
                forall|a: int| x <= a < LEN ==> #[trigger] self.cells@[a] == before.cells@[a],
            decreases LEN - x,
        {
            let ghost col = self.cells@[x as int]@;
            let ghost prev = *self;
            self.cells[x].insert(y, None);
            let _ = self.cells[x].pop();
            assert forall|a: int| 0 <= a < LEN && a != x implies #[trigger] self.cells@[a] == prev.cells@[a] by {}
            assert forall|a: int, b: int| 0 <= a < x && 0 <= b < LEN implies #[trigger] self.cell(a, b) == row_shift(
                before,
                y as int,
                a,
                b,
            ) by {
                assert(self.cells@[a] == prev.cells@[a]);
                assert(self.cell(a, b) == prev.cell(a, b));
            }
            assert forall|b: int| 0 <= b < LEN implies #[trigger] self.cell(x as int, b) == row_shift(
                before,
                y as int,
                x as int,
                b,
            ) by {
                assert(before.cell(x as int, b) == col[b]);
                if b > y {
                    assert(before.cell(x as int, b - 1) == col[b - 1]);
                }
            }
            x = x + 1;
        }
        assert forall|a: int, b: int| cell_ok(#[trigger] self.cell(a, b)) by {
            if 0 <= a < LEN && 0 <= b < LEN {
                assert(self.cell(a, b) == row_shift(before, y as int, a, b));
                assert(cell_ok(before.cell(a, b)));
                assert(cell_ok(before.cell(a, b - 1)));
            }
        }
    }

    /// Inserts an empty column before column `x`: the columns from `x` on
    /// move right by one and the last column is dropped.
    pub fn insert_column(&mut self, x: usize)
        requires
            old(self).wf(),
            x <= LEN,
        ensures
            final(self).wf(),
            forall|a: int, b: int|
                0 <= a < LEN && 0 <= b < LEN ==> #[trigger] final(self).cell(a, b) == column_shift(
                    *old(self),
                    x as int,
                    a,
                    b,
                ),
    {
        let ghost before = *self;
        let mut v: Vec<Option<CellType>> = Vec::with_capacity(LEN);
        let mut j: usize = 0;
        while j < LEN
            invariant
                j <= LEN,
                v@.len() == j,
                forall|b: int| 0 <= b < j ==> (#[trigger] v@[b]) is None,
            decreases LEN - j,
        {
            v.push(None);
            j = j + 1;
        }
        self.cells.insert(x, v);
        let _ = self.cells.pop();
        assert forall|a: int| 0 <= a < LEN implies (#[trigger] self.cells@[a])@.len() == LEN by {
            if a > x {
                assert(self.cells@[a] == before.cells@[a - 1]);
            } else if a < x {
                assert(self.cells@[a] == before.cells@[a]);
            }
        }
        assert forall|a: int, b: int|
            0 <= a < LEN && 0 <= b < LEN implies #[trigger] self.cell(a, b) == column_shift(
                before,
                x as int,
                a,
                b,
            ) by {
            if a > x {
                assert(self.cells@[a] == before.cells@[a - 1]);
            } else if a < x {
                assert(self.cells@[a] == before.cells@[a]);
            }
        }
        assert forall|a: int, b: int| cell_ok(#[trigger] self.cell(a, b)) by {
            if 0 <= a < LEN && 0 <= b < LEN {
                assert(cell_ok(before.cell(a, b)));
                assert(cell_ok(before.cell(a - 1, b)));
            }
        }
    }

    /// The farthest modified cell: the largest `x` and the largest `y`
    /// (separately) of the non-empty cells, `(0, 0)` when all are empty.
    #[must_use]
    pub fn max(&self) -> (r: (usize, usize))
        requires
            self.wf(),
        ensures
            is_max(*self, r),
    {
        let mut max_x: usize = 0;
        let mut max_y: usize = 0;
        let mut found = false;
        let mut x: usize = 0;
        while x < LEN
            invariant
                x <= LEN,
                self.wf(),
                forall|a: int, b: int| 0 <= a < x && #[trigger] self.cell(a, b) is Some ==> a <= max_x && b <= max_y,
                found <==> exists|a: int, b: int| 0 <= a < x && #[trigger] self.cell(a, b) is Some,
                found ==> exists|b: int| #[trigger] self.cell(max_x as int, b) is Some,
                found ==> exists|a: int| #[trigger] self.cell(a, max_y as int) is Some,
                !found ==> max_x == 0 && max_y == 0,
            decreases LEN - x,
        {
            let mut y: usize = 0;
            while y < LEN
                invariant
                    x < LEN,
                    y <= LEN,
                    self.wf(),
                    forall|a: int, b: int|
                        ((0 <= a < x) || (a == x && 0 <= b < y)) && #[trigger] self.cell(a, b) is Some ==> a
                            <= max_x && b <= max_y,
                    found <==> exists|a: int, b: int|
                        ((0 <= a < x) || (a == x && 0 <= b < y)) && #[trigger] self.cell(a, b) is Some,
                    found ==> exists|b: int| #[trigger] self.cell(max_x as int, b) is Some,
                    found ==> exists|a: int| #[trigger] self.cell(a, max_y as int) is Some,
                    !found ==> max_x == 0 && max_y == 0,
                decreases LEN - y,
            {
                if self.cells[x][y].is_some() {
                    assert(self.cell(x as int, y as int) is Some);
                    if y > max_y || !found {
                        max_y = y;
                    }
                    if x > max_x || !found {
                        max_x = x;
                    }
                    found = true;
                }
                y = y + 1;
            }
            x = x + 1;
        }
        assert forall|a: int, b: int| #[trigger] self.cell(a, b) is Some implies a <= max_x && b <= max_y by {
            if !(0 <= a < LEN) {
                assert(self.cell(a, b) is None);
            }
        }
        proof {
            if exists|a: int, b: int| #[trigger] self.cell(a, b) is Some {
                let (a, b) = choose|a: int, b: int| #[trigger] self.cell(a, b) is Some;
                if !(0 <= a < LEN) {
                    assert(self.cell(a, b) is None);
                }
                assert(found);
            }
        }
        (max_x, max_y)
    }

    /// The last non-empty row of column `x`; 0 when the column is empty or
    /// outside the sheet.
    #[must_use]
    pub fn max_y_at_x(&self, x: usize) -> (r: usize)
        requires
            self.wf(),
        ensures
            forall|b: int| #[trigger] self.cell(x as int, b) is Some ==> b <= r,
            r > 0 ==> self.cell(x as int, r as int) is Some,
            r < LEN,
    {
        let mut max_y: usize = 0;
        if x < LEN {
            let mut y: usize = 0;
            while y < LEN
                invariant
                    x < LEN,
                    y <= LEN,
                    self.wf(),
                    forall|b: int| 0 <= b < y && #[trigger] self.cell(x as int, b) is Some ==> b <= max_y,
                    max_y > 0 ==> self.cell(x as int, max_y as int) is Some,
                decreases LEN - y,
            {
                if self.cells[x][y].is_some() {
                    if y > max_y {
                        max_y = y;
                    }
                }
                y = y + 1;
            }
        }
        max_y
    }
}

/// Some non-empty cell of `g` cannot be moved under `rule`.
pub open spec fn some_cell_fails(g: CellGrid, from: (usize, usize), to: (usize, usize), rule: TranslateRule) -> bool {
    exists|x: int, y: int| #[trigger] g.cell(x, y) matches Some(c) && translation_fails(c, from, to, rule)
}

impl CellGrid {
    /// Moves every equation of the sheet from `from` to `to` under `rule`
    /// (see `CellType::translated`); `Err` exactly when some cell cannot be
    /// moved.
    pub fn translate_all(&mut self, from: (usize, usize), to: (usize, usize), rule: TranslateRule) -> (r: Result<
        (),
        TranslateFault,
    >)
        requires
            old(self).wf(),
        ensures
            final(self).wf(),
            r is Err <==> some_cell_fails(*old(self), from, to, rule),
            r is Ok ==> forall|x: int, y: int|
                moved_cell(old(self).cell(x, y), #[trigger] final(self).cell(x, y), from, to, rule),
    {
        let ghost before = *self;
        let mut x: usize = 0;
        while x < LEN
            invariant
                x <= LEN,
                self.wf(),
                before.wf(),
                before == *old(self),
                forall|a: int, b: int| 0 <= a < x && 0 <= b < LEN ==> moved_cell(before.cell(a, b), #[trigger] self.cell(a, b), from, to, rule),
                forall|a: int, b: int| x <= a < LEN && 0 <= b < LEN ==> #[trigger] self.cell(a, b) == before.cell(a, b),
                forall|a: int, b: int| 0 <= a < x && 0 <= b < LEN ==> !(#[trigger] before.cell(a, b) matches Some(c) && translation_fails(c, from, to, rule)),
            decreases LEN - x,
        {
            let mut y: usize = 0;
            while y < LEN
                invariant
                    x < LEN,
                    y <= LEN,
                    self.wf(),
                    before.wf(),
                    before == *old(self),
                    forall|a: int, b: int| ((0 <= a < x && 0 <= b < LEN) || (a == x && 0 <= b < y)) ==> moved_cell(before.cell(a, b), #[trigger] self.cell(a, b), from, to, rule),
                    forall|a: int, b: int| ((x < a < LEN && 0 <= b < LEN) || (a == x && y <= b < LEN)) ==> #[trigger] self.cell(a, b) == before.cell(a, b),
                    forall|a: int, b: int| ((0 <= a < x && 0 <= b < LEN) || (a == x && 0 <= b < y)) ==> !(#[trigger] before.cell(a, b) matches Some(c) && translation_fails(c, from, to, rule)),
                decreases LEN - y,
            {
                let moved = match self.get_cell_raw(x, y) {
                    Some(c) => {
                        assert(cell_ok(self.cell(x as int, y as int)));
                        match c.translated(from, to, rule) {
                            Ok(n) => Some(n),
                            Err(f) => {
                                assert(before.cell(x as int, y as int) matches Some(cc) && translation_fails(cc, from, to, rule));
                                return Err(f);
                            },
                        }
                    },
                    None => None,
                };
                self.set_cell_raw((x, y), moved);
                y = y + 1;
            }
            x = x + 1;
        }
        assert forall|a: int, b: int| moved_cell(before.cell(a, b), #[trigger] self.cell(a, b), from, to, rule) by {
            if !(0 <= a < LEN && 0 <= b < LEN) {
                assert(before.cell(a, b) is None);
                assert(self.cell(a, b) is None);
            }
        }
        assert(!some_cell_fails(before, from, to, rule)) by {
            if some_cell_fails(before, from, to, rule) {
                let (a, b) = choose|a: int, b: int| #[trigger] before.cell(a, b) matches Some(c) && translation_fails(c, from, to, rule);
                if !(0 <= a < LEN && 0 <= b < LEN) {
                    assert(before.cell(a, b) is None);
                }
            }
        }
        Ok(())
    }
}

impl Clone for CellGrid {
    fn clone(&self) -> (r: CellGrid)
        ensures
            self.wf() ==> r.wf(),
            r.same_cells(*self),
    {
        let mut a: Vec<Vec<Option<CellType>>> = Vec::with_capacity(self.cells.len());
        let mut i: usize = 0;
        while i < self.cells.len()
            invariant
                i <= self.cells.len(),
                a@.len() == i,
                forall|x: int| 0 <= x < i ==> (#[trigger] a@[x])@ == self.cells@[x]@,
            decreases self.cells.len() - i,
        {
            let col = &self.cells[i];
            let mut b: Vec<Option<CellType>> = Vec::with_capacity(col.len());
            let mut j: usize = 0;
            while j < col.len()
                invariant
                    j <= col.len(),
                    b@.len() == j,
                    forall|y: int| 0 <= y < j ==> (#[trigger] b@[y]) == col@[y],
                decreases col.len() - j,
            {
                let c = match &col[j] {
                    Some(v) => Some(v.clone()),
                    None => None,
                };
                b.push(c);
                j = j + 1;
            }
            assert(b@ =~= col@);
            a.push(b);
            i = i + 1;
        }
        let r = CellGrid { cells: a };
        assert forall|x: int, y: int| #[trigger] r.cell(x, y) == self.cell(x, y) by {
            if 0 <= x < a@.len() {
                assert(a@[x]@ == self.cells@[x]@);
            }
        }
        r
    }
}


/// Whether the sheet is edited for its values or for its formatting.
#[derive(Clone, Copy, PartialEq, Eq, Debug)]
pub enum GridType {
    Values,
    Formatting,
}

/// Why a grid operation stopped.
#[derive(Clone, Copy, PartialEq, Eq, Debug)]
pub enum GridFault {
    /// The position is outside the sheet, or moving past it overflows.
    OutOfGrid,
    /// A cell's equation could not be moved.
    Translate(TranslateFault),
}

/// The sheet as the user edits it: its history of states, which state is
/// current, the cursor, whether there are unsaved changes, and the editing
/// mode.
pub struct Grid {
    /// Which grid in history are we currently on
    current_grid: usize,
    /// An array of grids, thru history
    grid_history: Vec<CellGrid>,
    /// (X, Y)
    selected_cell: (usize, usize),
    /// Have unsaved modifications been made?
    dirty: bool,
    mode: GridType,
}

/// `c + m` in `i32` arithmetic as the cursor moves: the position read as
/// `i32`, the momentum added with saturation, then kept between 0 and
/// `LEN - 1`.
pub open spec fn momentum_target(c: usize, m: i32) -> usize {
    let s = (c as i32) as int + m as int;
    let s = if s < i32::MIN { i32::MIN as int } else if s > i32::MAX { i32::MAX as int } else { s };
    let p = if s < 0 { 0 } else { s };
    if p > LEN - 1 {
        (LEN - 1) as usize
    } else {
        p as usize
    }
}

/// The cell at `(x, y)` after a shift gives `shifted` and every equation is
/// moved from `from` to `to` under `rule`.
pub open spec fn moved_cell(
    shifted: Option<CellType>,
    now: Option<CellType>,
    from: (usize, usize),
    to: (usize, usize),
    rule: TranslateRule,
) -> bool {
    match shifted {
        None => now is None,
        Some(c) => now matches Some(n) && translates_to(c, n, from, to, rule),
    }
}

impl Grid {
    pub closed spec fn wf(self) -> bool {
        &&& self.current_grid < self.grid_history@.len()
        &&& forall|i: int| 0 <= i < self.grid_history@.len() ==> (#[trigger] self.grid_history@[i]).wf()
    }

    /// The current state of the sheet.
    pub closed spec fn current(self) -> CellGrid {
        self.grid_history@[self.current_grid as int]
    }

    /// Every state of the sheet kept so far.
    pub closed spec fn history(self) -> Seq<CellGrid> {
        self.grid_history@
    }

    /// The position of the current state in the history.
    pub closed spec fn current_index(self) -> int {
        self.current_grid as int
    }

    /// The cursor `(x, y)`.
    pub closed spec fn cursor_at(self) -> (usize, usize) {
        self.selected_cell
    }

    /// There are unsaved changes.
    pub closed spec fn is_dirty(self) -> bool {
        self.dirty
    }

    pub closed spec fn mode_of(self) -> GridType {
        self.mode
    }

    /// Cell `(x, y)` of the current state.
    pub open spec fn cell(self, x: int, y: int) -> Option<CellType> {
        self.current().cell(x, y)
    }

    /// The same history, cursor and mode; only the dirty flag may differ.
    pub open spec fn same_but_dirty(self, other: Grid) -> bool {
        &&& self.history() == other.history()
        &&& self.current_index() == other.current_index()
        &&& self.cursor_at() == other.cursor_at()
        &&& self.mode_of() == other.mode_of()
    }

    /// `self` is `old` after a transaction on the sheet: a copy of the
    /// state before is added at the end of the history, the current state
    /// is changed in place, and the sheet is marked as changed.
    pub open spec fn transacted_from(self, old: Grid) -> bool {
        &&& self.history().len() == old.history().len() + 1
        &&& self.history().last().same_cells(old.current())
        &&& self.current_index() == old.current_index()
        &&& forall|i: int|
            0 <= i < old.history().len() && i != old.current_index() ==> #[trigger] self.history()[i]
                == old.history()[i]
        &&& self.cursor_at() == old.cursor_at()
        &&& self.mode_of() == old.mode_of()
        &&& self.is_dirty()
    }

    /// An empty sheet with the cursor at `(0, 0)` and nothing to save.
    pub fn new() -> (r: Grid)
        ensures
            r.wf(),
            forall|x: int, y: int| #[trigger] r.cell(x, y) is None,
            r.history().len() == 1,
            r.cursor_at() == (0usize, 0usize),
            !r.is_dirty(),
            r.mode_of() == GridType::Values,
    {
        let x = CellGrid::new();
        let mut h: Vec<CellGrid> = Vec::new();
        h.push(x);
        Grid { current_grid: 0, grid_history: h, selected_cell: (0, 0), dirty: false, mode: GridType::Values }
    }

    /// A sheet holding `rows` (indexed `[y][x]`, as the lines of a file),
    /// with nothing to save.
    pub fn from_rows(rows: &Vec<Vec<Option<CellType>>>) -> (r: Grid)
        requires
            rows@.len() <= LEN,
            forall|y: int| 0 <= y < rows@.len() ==> (#[trigger] rows@[y])@.len() <= LEN,
            forall|y: int, x: int| 0 <= y < rows@.len() && 0 <= x < rows@[y]@.len() ==> cell_ok(
                #[trigger] rows@[y]@[x],
            ),
        ensures
            r.wf(),
            forall|x: int, y: int| #[trigger] r.cell(x, y) == (if 0 <= y < rows@.len() && 0 <= x < rows@[y]@.len() {
                rows@[y]@[x]
            } else {
                None
            }),
            r.history().len() == 1,
            r.cursor_at() == (0usize, 0usize),
            !r.is_dirty(),
            r.mode_of() == GridType::Values,
    {
        let mut g = CellGrid::new();
        let mut y: usize = 0;
        while y < rows.len()
            invariant
                y <= rows@.len() <= LEN,
                g.wf(),
                forall|a: int| 0 <= a < rows@.len() ==> (#[trigger] rows@[a])@.len() <= LEN,
                forall|b: int, a: int| 0 <= b < rows@.len() && 0 <= a < rows@[b]@.len() ==> cell_ok(
                    #[trigger] rows@[b]@[a],
                ),
                forall|a: int, b: int| #[trigger] g.cell(a, b) == (if 0 <= b < y && 0 <= a < rows@[b]@.len() {
                    rows@[b]@[a]
                } else {
                    None
                }),
            decreases rows@.len() - y,
        {
            let row = &rows[y];
            let mut x: usize = 0;
            while x < row.len()
                invariant
                    y < rows@.len() <= LEN,
                    row == rows@[y as int],
                    x <= row@.len() <= LEN,
                    g.wf(),
                    forall|b: int, a: int| 0 <= b < rows@.len() && 0 <= a < rows@[b]@.len() ==> cell_ok(
                        #[trigger] rows@[b]@[a],
                    ),
                    forall|a: int, b: int| #[trigger] g.cell(a, b) == (if (0 <= b < y && 0 <= a < rows@[b]@.len()) || (b
                        == y && 0 <= a < x) {
                        rows@[b]@[a]
                    } else {
                        None
                    }),
                decreases row@.len() - x,
            {
                let c = match &row[x] {
                    Some(v) => Some(v.clone()),
                    None => None,
                };
                assert(cell_ok(rows@[y as int]@[x as int]));
                g.set_cell_raw((x, y), c);
                x = x + 1;
            }
            y = y + 1;
        }
        let mut h: Vec<CellGrid> = Vec::new();
        h.push(g);
        Grid { current_grid: 0, grid_history: h, selected_cell: (0, 0), dirty: false, mode: GridType::Values }
    }

    /// The current state of the sheet.
    pub fn get_grid(&self) -> (r: &CellGrid)
        requires
            self.wf(),
        ensures
            *r == self.current(),
            r.wf(),
    {
        &self.grid_history[self.current_grid]
    }

    /// Whether there are changes not yet saved.
    pub fn needs_to_be_saved(&self) -> (r: bool)
        ensures
            r == self.is_dirty(),
    {
        self.dirty
    }

    /// Records that the sheet was saved.
    pub fn mark_saved(&mut self)
        ensures
            final(self).same_but_dirty(*old(self)),
            !final(self).is_dirty(),
            final(self).wf() == old(self).wf(),
    {
        self.dirty = false;
    }

    /// The cursor `(x, y)`.
    pub fn cursor(&self) -> (r: (usize, usize))
        ensures
            r == self.cursor_at(),
    {
        self.selected_cell
    }

    /// Moves the cursor to `(x, y)`.
    pub fn mv_cursor_to(&mut self, x: usize, y: usize)
        ensures
            final(self).cursor_at() == (x, y),
            final(self).history() == old(self).history(),
            final(self).current_index() == old(self).current_index(),
            final(self).is_dirty() == old(self).is_dirty(),
            final(self).mode_of() == old(self).mode_of(),
            final(self).wf() == old(self).wf(),
    {
        self.selected_cell = (x, y);
    }

    /// Moves the cursor by a momentum `(dx, dy)`, in `i32`, saturating, and
    /// kept inside the sheet.
    pub fn apply_momentum(&mut self, momentum: (i32, i32))
        ensures
            final(self).cursor_at() == (
                momentum_target(old(self).cursor_at().0, momentum.0),
                momentum_target(old(self).cursor_at().1, momentum.1),
            ),
            final(self).history() == old(self).history(),
            final(self).current_index() == old(self).current_index(),
            final(self).is_dirty() == old(self).is_dirty(),
            final(self).mode_of() == old(self).mode_of(),
            final(self).wf() == old(self).wf(),
    {
        let (cx, cy) = self.cursor();
        let x = move_axis(cx, momentum.0);
        let y = move_axis(cy, momentum.1);
        self.mv_cursor_to(x, y);
    }

    /// The editing mode.
    pub fn get_mode(&self) -> (r: GridType)
        ensures
            r == self.mode_of(),
    {
        self.mode
    }

    /// Switches to editing formatting.
    pub fn set_mode_formatting(&mut self)
        ensures
            final(self).mode_of() == GridType::Formatting,
            final(self).history() == old(self).history(),
            final(self).current_index() == old(self).current_index(),
            final(self).cursor_at() == old(self).cursor_at(),
            final(self).is_dirty() == old(self).is_dirty(),
            final(self).wf() == old(self).wf(),
    {
        self.mode = GridType::Formatting;
    }

    /// Switches to editing values.
    pub fn set_mode_editing(&mut self)
        ensures
            final(self).mode_of() == GridType::Values,
            final(self).history() == old(self).history(),
            final(self).current_index() == old(self).current_index(),
            final(self).cursor_at() == old(self).cursor_at(),
            final(self).is_dirty() == old(self).is_dirty(),
            final(self).wf() == old(self).wf(),
    {
        self.mode = GridType::Values;
    }

    /// Cell `(x, y)` of the current state; empty outside the sheet.
    pub fn get_cell_raw(&self, x: usize, y: usize) -> (r: &Option<CellType>)
        requires
            self.wf(),
        ensures
            *r == self.cell(x as int, y as int),
    {
        if x >= LEN || y >= LEN {
            return &None;
        }
        self.grid_history[self.current_grid].get_cell_raw(x, y)
    }

    /// Every cell of a well-formed sheet may stand in a cell.
    pub proof fn lemma_cells_ok(self)
        requires
            self.wf(),
        ensures
            forall|x: int, y: int| cell_ok(#[trigger] self.cell(x, y)),
    {
        assert(self.current().wf());
    }

    /// Outside the sheet every cell is empty.
    pub proof fn lemma_outside_empty(self, x: int, y: int)
        requires
            self.wf(),
            !(0 <= x < LEN && 0 <= y < LEN),
        ensures
            self.cell(x, y) is None,
    {
        assert(self.current().wf());
    }

    /// The cell a reference such as `A6` or `F0` names; empty when the text
    /// is not a reference.
    pub fn get_cell(&self, cell_id: &str) -> (r: &Option<CellType>)
        requires
            self.wf(),
        ensures
            *r == (match refs::parse_to_idx_spec(cell_id@) {
                Some((x, y)) => self.cell(x as int, y as int),
                None => None,
            }),
    {
        match refs::parse_to_idx(cell_id) {
            Some((x, y)) => self.get_cell_raw(x, y),
            None => &None,
        }
    }

    /// The text cell `(x, y)` displays, empty for an empty cell.
    pub fn get_cell_display(&self, x: usize, y: usize) -> (r: String)
        requires
            self.wf(),
        ensures
            r@ == (match self.cell(x as int, y as int) {
                Some(c) => c.text(),
                None => Seq::empty(),
            }),
    {
        match self.get_cell_raw(x, y) {
            Some(c) => c.to_string(),
            None => String::new(),
        }
    }

    /// Puts `val` in cell `(x, y)` of the current state and marks the sheet
    /// as changed.
    pub fn set_cell_raw(&mut self, pos: (usize, usize), val: Option<CellType>)
        requires
            old(self).wf(),
            pos.0 < LEN,
            pos.1 < LEN,
            cell_ok(val),
        ensures
            final(self).wf(),
            final(self).cell(pos.0 as int, pos.1 as int) == val,
            forall|x: int, y: int|
                (x, y) != (pos.0 as int, pos.1 as int) ==> #[trigger] final(self).cell(x, y) == old(self).cell(x, y),
            final(self).history().len() == old(self).history().len(),
            forall|i: int|
                0 <= i < old(self).history().len() && i != old(self).current_index() ==> #[trigger] final(self).history()[i] == old(self).history()[i],
            final(self).current_index() == old(self).current_index(),
            final(self).cursor_at() == old(self).cursor_at(),
            final(self).mode_of() == old(self).mode_of(),
            final(self).is_dirty(),
    {
        let cur = self.current_grid;
        self.grid_history[cur].set_cell_raw(pos, val);
        self.dirty = true;
        proof {
            assert forall|i: int| 0 <= i < self.grid_history@.len() implies (#[trigger] self.grid_history@[i]).wf() by {
                if i != cur {
                    assert(self.grid_history@[i] == old(self).grid_history@[i]);
                }
            }
        }
    }

    /// Puts `val` in the cell a reference such as `A0` names; nothing
    /// changes in the cells when the text is not a reference. The sheet is
    /// marked as changed either way.
    pub fn set_cell(&mut self, cell_id: &str, val: CellType)
        requires
            old(self).wf(),
            val.wf(),
            refs::parse_to_idx_spec(cell_id@) matches Some((x, y)) ==> x < LEN && y < LEN,
        ensures
            final(self).wf(),
            match refs::parse_to_idx_spec(cell_id@) {
                Some((a, b)) => final(self).cell(a as int, b as int) == Some(val) && forall|x: int, y: int|
                    (x, y) != (a as int, b as int) ==> #[trigger] final(self).cell(x, y) == old(self).cell(x, y),
                None => final(self).current() == old(self).current(),
            },
            final(self).current_index() == old(self).current_index(),
            final(self).cursor_at() == old(self).cursor_at(),
            final(self).is_dirty(),
    {
        if let Some(loc) = refs::parse_to_idx(cell_id) {
            self.set_cell_raw(loc, Some(val));
        }
        self.dirty = true;
    }

    /// Fills cell `(x, y)` with `val` when there is one; with `None` the
    /// cell keeps what it holds.
    pub fn merge_in_value(&mut self, pos: (usize, usize), val: Option<CellType>)
        requires
            old(self).wf(),
            pos.0 < LEN,
            pos.1 < LEN,
            cell_ok(val),
        ensures
            final(self).wf(),
            final(self).cell(pos.0 as int, pos.1 as int) == (match val {
                Some(v) => Some(v),
                None => old(self).cell(pos.0 as int, pos.1 as int),
            }),
            forall|x: int, y: int|
                (x, y) != (pos.0 as int, pos.1 as int) ==> #[trigger] final(self).cell(x, y) == old(self).cell(x, y),
            final(self).history().len() == old(self).history().len(),
            forall|i: int|
                0 <= i < old(self).history().len() && i != old(self).current_index() ==> #[trigger] final(self).history()[i] == old(self).history()[i],
            final(self).current_index() == old(self).current_index(),
            final(self).cursor_at() == old(self).cursor_at(),
            final(self).mode_of() == old(self).mode_of(),
            final(self).is_dirty() == (old(self).is_dirty() || val is Some),
    {
        if val.is_some() {
            self.set_cell_raw(pos, val);
        }
    }

    /// Starts a transaction: a copy of the current state is added to the
    /// end of the history, and the sheet is marked as changed.
    fn begin_transaction(&mut self)
        requires
            old(self).wf(),
        ensures
            final(self).wf(),
            final(self).transacted_from(*old(self)),
            final(self).current() == old(self).current(),
    {
        let old_grid = self.grid_history[self.current_grid].clone();
        self.grid_history.push(old_grid);
        self.dirty = true;
        proof {
            let cur = self.current_grid as int;
            assert(self.grid_history@[cur] == old(self).grid_history@[cur]);
            assert forall|i: int| 0 <= i < self.grid_history@.len() implies (#[trigger] self.grid_history@[i]).wf() by {
                if i < old(self).grid_history@.len() {
                    assert(self.grid_history@[i] == old(self).grid_history@[i]);
                }
            }
        }
    }
}

proof fn lemma_transaction_kept(start: Grid, pre: Grid, post: Grid)
    requires
        start.wf(),
        pre.transacted_from(start),
        post.history().len() == pre.history().len(),
        forall|i: int|
            0 <= i < pre.history().len() && i != pre.current_index() ==> #[trigger] post.history()[i]
                == pre.history()[i],
        post.current_index() == pre.current_index(),
        post.cursor_at() == pre.cursor_at(),
        post.mode_of() == pre.mode_of(),
        post.is_dirty(),
    ensures
        post.transacted_from(start),
        post.history().last() == pre.history().last(),
{
    let n = pre.history().len() - 1;
    assert(post.history()[n] == pre.history()[n]);
    assert forall|i: int|
        0 <= i < start.history().len() && i != start.current_index() implies #[trigger] post.history()[i]
            == start.history()[i] by {
        assert(post.history()[i] == pre.history()[i]);
    }
}

/// A block of cells placed with its top-left cell at `at` lies inside the
/// sheet.
pub open spec fn block_fits(at: (usize, usize), cells: Seq<Vec<Option<CellType>>>) -> bool {
    forall|i: int| 0 <= i < cells.len() ==> column_fits(at, i, #[trigger] cells[i]@.len())
}

/// Column `i` of a block at `at`, `len` cells high, lies inside the sheet.
pub open spec fn column_fits(at: (usize, usize), i: int, len: nat) -> bool {
    &&& at.0 + i < LEN
    &&& at.1 + len <= LEN
}

/// `self` is `old` with its last transaction taken back: the state saved
/// before the transaction (the last one kept) becomes the current state
/// again and leaves the history. With nothing saved, nothing changes.
pub open spec fn undid(new: Grid, old: Grid) -> bool {
    if old.history().len() > old.current_index() + 1 {
        &&& new.history().len() == old.history().len() - 1
        &&& new.current().same_cells(old.history().last())
        &&& new.current_index() == old.current_index()
        &&& forall|i: int|
            0 <= i < new.history().len() && i != old.current_index() ==> #[trigger] new.history()[i]
                == old.history()[i]
        &&& new.cursor_at() == old.cursor_at()
        &&& new.mode_of() == old.mode_of()
        &&& new.is_dirty()
    } else {
        new == old
    }
}

impl Grid {
    /// Takes back the last transaction (see `undid`).
    pub fn undo(&mut self)
        requires
            old(self).wf(),
        ensures
            final(self).wf(),
            undid(*final(self), *old(self)),
    {
        if self.grid_history.len() > self.current_grid + 1 {
            let last = self.grid_history.pop().unwrap();
            let cur = self.current_grid;
            self.grid_history.set(cur, last);
            self.dirty = true;
            proof {
                assert forall|i: int| 0 <= i < self.grid_history@.len() implies (#[trigger] self.grid_history@[i]).wf() by {
                    if i != cur {
                        assert(self.grid_history@[i] == old(self).grid_history@[i]);
                    } else {
                        assert(self.grid_history@[i] == old(self).grid_history@.last());
                    }
                }
            }
        }
    }

    /// In one transaction, puts `val` in cell `pos`.
    pub fn transact_set_cell(&mut self, pos: (usize, usize), val: Option<CellType>)
        requires
            old(self).wf(),
            pos.0 < LEN,
            pos.1 < LEN,
            cell_ok(val),
        ensures
            final(self).wf(),
            final(self).transacted_from(*old(self)),
            final(self).cell(pos.0 as int, pos.1 as int) == val,
            forall|x: int, y: int|
                (x, y) != (pos.0 as int, pos.1 as int) ==> #[trigger] final(self).cell(x, y) == old(self).cell(x, y),
    {
        self.begin_transaction();
        let ghost mid = *self;
        self.set_cell_raw(pos, val);
        assert(self.history().last() == mid.history().last());
    }

    /// In one transaction, fills the block of cells whose top-left cell is
    /// `at` from `cells` (indexed `[x][y]`); a `None` leaves its cell as it
    /// is.
    pub fn transact_merge_block(&mut self, at: (usize, usize), cells: &Vec<Vec<Option<CellType>>>)
        requires
            old(self).wf(),
            block_fits(at, cells@),
            forall|i: int, j: int|
                0 <= i < cells@.len() && 0 <= j < cells@[i]@.len() ==> cell_ok(#[trigger] cells@[i]@[j]),
        ensures
            final(self).wf(),
            final(self).transacted_from(*old(self)),
            forall|a: int, b: int|
                #[trigger] final(self).cell(a, b) == (if 0 <= a - at.0 < cells@.len() && 0 <= b - at.1
                    < cells@[a - at.0]@.len() && cells@[a - at.0]@[b - at.1] is Some {
                    cells@[a - at.0]@[b - at.1]
                } else {
                    old(self).cell(a, b)
                }),
    {
        self.begin_transaction();
        let ghost mid = *self;
        let mut i: usize = 0;
        while i < cells.len()
            invariant
                i <= cells@.len(),
                self.wf(),
                self.transacted_from(*old(self)),
                old(self).wf(),
                self.history().last() == mid.history().last(),
                block_fits(at, cells@),
                forall|k: int, j: int|
                    0 <= k < cells@.len() && 0 <= j < cells@[k]@.len() ==> cell_ok(#[trigger] cells@[k]@[j]),
                forall|a: int, b: int|
                    #[trigger] self.cell(a, b) == (if 0 <= a - at.0 < i && 0 <= b - at.1 < cells@[a - at.0]@.len()
                        && cells@[a - at.0]@[b - at.1] is Some {
                        cells@[a - at.0]@[b - at.1]
                    } else {
                        old(self).cell(a, b)
                    }),
            decreases cells@.len() - i,
        {
            let col = &cells[i];
            assert(at.0 + i < LEN && at.1 + cells@[i as int]@.len() <= LEN);
            let ghost inner = *self;
            let mut j: usize = 0;
            while j < col.len()
                invariant
                    i < cells@.len(),
                    col@ == cells@[i as int]@,
                    j <= col@.len(),
                    at.0 + i < LEN,
                    at.1 + col@.len() <= LEN,
                    forall|k: int| 0 <= k < col@.len() ==> cell_ok(#[trigger] col@[k]),
                    self.wf(),
                    self.transacted_from(*old(self)),
                    old(self).wf(),
                old(self).wf(),
                    self.history().last() == mid.history().last(),
                    forall|a: int, b: int|
                        #[trigger] self.cell(a, b) == (if a == at.0 + i && 0 <= b - at.1 < j && col@[b - at.1] is Some {
                            col@[b - at.1]
                        } else {
                            inner.cell(a, b)
                        }),
                decreases col@.len() - j,
            {
                let v = match &col[j] {
                    Some(c) => Some(c.clone()),
                    None => None,
                };
                assert(cell_ok(col@[j as int]));
                let ghost pre = *self;
                self.merge_in_value((at.0 + i, at.1 + j), v);
                proof { lemma_transaction_kept(*old(self), pre, *self); }
                j = j + 1;
            }
            i = i + 1;
        }
    }

    /// A new sheet holding the block of this one from `low` to `high`
    /// (inclusive) with its top-left cell at `(0, 0)`, made in one
    /// transaction. `Err(OutOfGrid)` when the block is wider or taller than
    /// the sheet.
    pub fn sub_sheet(&self, low: (usize, usize), high: (usize, usize)) -> (r: Result<Grid, GridFault>)
        requires
            self.wf(),
            low.0 <= high.0,
            low.1 <= high.1,
        ensures
            r is Err <==> (high.0 - low.0 >= LEN || high.1 - low.1 >= LEN),
            r is Err ==> r == Err::<Grid, GridFault>(GridFault::OutOfGrid),
            r matches Ok(g) ==> g.wf() && g.is_dirty() && g.cursor_at() == (0usize, 0usize)
                && g.history().len() == 2 && forall|a: int, b: int|
                #[trigger] g.cell(a, b) == (if 0 <= a <= high.0 - low.0 && 0 <= b <= high.1 - low.1 {
                    self.cell(low.0 + a, low.1 + b)
                } else {
                    None
                }),
    {
        if high.0 - low.0 >= LEN || high.1 - low.1 >= LEN {
            return Err(GridFault::OutOfGrid);
        }
        let w = high.0 - low.0 + 1;
        let h = high.1 - low.1 + 1;
        let mut g = Grid::new();
        let ghost g0 = g;
        g.begin_transaction();
        assert forall|a: int, b: int| #[trigger] g.cell(a, b) is None by {
            assert(g0.cell(a, b) is None);
        }
        proof { self.lemma_cells_ok(); }
        let mut i: usize = 0;
        while i < w
            invariant
                w == high.0 - low.0 + 1 <= LEN,
                h == high.1 - low.1 + 1 <= LEN,
                i <= w,
                self.wf(),
                forall|a: int, b: int| cell_ok(#[trigger] self.cell(a, b)),
                g.wf(),
                g.is_dirty(),
                g.cursor_at() == (0usize, 0usize),
                g.history().len() == 2,
                forall|a: int, b: int|
                    #[trigger] g.cell(a, b) == (if 0 <= a < i && 0 <= b < h {
                        self.cell(low.0 + a, low.1 + b)
                    } else {
                        None
                    }),
            decreases w - i,
        {
            let mut j: usize = 0;
            while j < h
                invariant
                    w == high.0 - low.0 + 1 <= LEN,
                    h == high.1 - low.1 + 1 <= LEN,
                    i < w,
                    j <= h,
                    self.wf(),
                    forall|a: int, b: int| cell_ok(#[trigger] self.cell(a, b)),
                    g.wf(),
                    g.is_dirty(),
                    g.cursor_at() == (0usize, 0usize),
                    g.history().len() == 2,
                    forall|a: int, b: int|
                        #[trigger] g.cell(a, b) == (if (0 <= a < i && 0 <= b < h) || (a == i && 0 <= b < j) {
                            self.cell(low.0 + a, low.1 + b)
                        } else {
                            None
                        }),
                decreases h - j,
            {
                let v = match self.get_cell_raw(low.0 + i, low.1 + j) {
                    Some(c) => Some(c.clone()),
                    None => None,
                };
                g.set_cell_raw((i, j), v);
                j = j + 1;
            }
            i = i + 1;
        }
        Ok(g)
    }
}

/// Two sheets with the same history and the same current position have
/// the same current state.
pub proof fn lemma_same_current(a: Grid, b: Grid)
    requires
        a.history() == b.history(),
        a.current_index() == b.current_index(),
    ensures
        a.current() == b.current(),
{
}

/// Taking back a transaction restores the sheet it started from: the
/// cells, the rest of the history, the cursor and the mode.
pub proof fn lemma_undo_restores(before: Grid, after: Grid, undone: Grid)
    requires
        before.wf(),
        after.transacted_from(before),
        undid(undone, after),
    ensures
        undone.current().same_cells(before.current()),
        undone.history().len() == before.history().len(),
        undone.current_index() == before.current_index(),
        forall|i: int|
            0 <= i < before.history().len() && i != before.current_index() ==> #[trigger] undone.history()[i]
                == before.history()[i],
        undone.cursor_at() == before.cursor_at(),
        undone.mode_of() == before.mode_of(),
{
    assert(after.history().len() > after.current_index() + 1);
    assert forall|i: int|
        0 <= i < before.history().len() && i != before.current_index() implies #[trigger] undone.history()[i]
            == before.history()[i] by {
        assert(undone.history()[i] == after.history()[i]);
    }
}

/// The sheet counts as changed after every change of its cells that can be
/// taken back: a transaction (paste, fill, cut, the insert functions and
/// the other `transact_` calls) always leaves it marked as changed, and so
/// does an undo that takes a transaction back; an undo with nothing to take
/// back leaves the mark as it was. (`Grid::new`, `Grid::from_rows` and
/// `mark_saved` leave it unmarked; `set_cell`, `set_cell_raw` and
/// `merge_in_value` with a value mark it; cursor moves and mode switches
/// keep it; see their contracts.)
pub proof fn lemma_changes_mark_dirty(before: Grid, after: Grid)
    requires
        before.wf(),
    ensures
        after.transacted_from(before) ==> after.is_dirty(),
        undid(after, before) ==> (after.is_dirty() <==> (before.is_dirty() || before.history().len()
            > before.current_index() + 1)),
{
}

/// Some cell of the sheet, shifted for a row inserted above `iy`, cannot be
/// moved down.
pub open spec fn row_insert_fails(g: CellGrid, iy: int) -> bool {
    exists|x: int, y: int|
        0 <= x < LEN && 0 <= y < LEN && (#[trigger] row_shift(g, iy, x, y) matches Some(c) && translation_fails(
            c,
            (0usize, 0usize),
            (0usize, 1usize),
            TranslateRule::RowsFrom(iy as usize),
        ))
}

/// Some cell of the sheet, shifted for a column inserted before `ix`,
/// cannot be moved right.
pub open spec fn column_insert_fails(g: CellGrid, ix: int) -> bool {
    exists|x: int, y: int|
        0 <= x < LEN && 0 <= y < LEN && (#[trigger] column_shift(g, ix, x, y) matches Some(c)
            && translation_fails(c, (0usize, 0usize), (1usize, 0usize), TranslateRule::ColumnsFrom(ix as usize)))
}

impl Grid {
    /// Applies a change of the current state made by `f` as a transaction.
    proof fn lemma_transaction_wf(self, old: Grid)
        requires
            old.wf(),
            self.current_grid == old.current_grid,
            self.grid_history@.len() == old.grid_history@.len() + 1,
            self.grid_history@.last().wf(),
            self.grid_history@[self.current_grid as int].wf(),
            forall|i: int| 0 <= i < old.grid_history@.len() && i != old.current_grid ==> #[trigger] self.grid_history@[i] == old.grid_history@[i],
        ensures
            self.wf(),
    {
        assert forall|i: int| 0 <= i < self.grid_history@.len() implies (#[trigger] self.grid_history@[i]).wf() by {
            if i < old.grid_history@.len() && i != old.current_grid {
                assert(self.grid_history@[i] == old.grid_history@[i]);
            }
        }
    }

    /// Inserts an empty row above the row of `pos` as one transaction:
    /// rows from there on move down one (the last row falls off) and every
    /// equation's references to those rows move down with them.
    /// `Err(OutOfGrid)`, with nothing changed, when the row is past the end
    /// of the sheet; `Err(Translate)` exactly when some equation cannot be
    /// moved.
    pub fn insert_row_above(&mut self, pos: (usize, usize)) -> (r: Result<(), GridFault>)
        requires
            old(self).wf(),
        ensures
            final(self).wf(),
            (r == Err::<(), GridFault>(GridFault::OutOfGrid)) <==> pos.1 > LEN,
            pos.1 > LEN ==> *final(self) == *old(self),
            pos.1 <= LEN ==> (r is Err <==> row_insert_fails(old(self).current(), pos.1 as int)),
            r is Ok ==> final(self).transacted_from(*old(self)) && forall|x: int, y: int|
                0 <= x < LEN && 0 <= y < LEN ==> moved_cell(
                    row_shift(old(self).current(), pos.1 as int, x, y),
                    #[trigger] final(self).cell(x, y),
                    (0usize, 0usize),
                    (0usize, 1usize),
                    TranslateRule::RowsFrom(pos.1),
                ),
    {
        let iy = pos.1;
        if iy > LEN {
            return Err(GridFault::OutOfGrid);
        }
        let ghost before = *self;
        self.begin_transaction();
        let ghost mid = *self;
        let cur = self.current_grid;
        self.grid_history[cur].insert_row(iy);
        let ghost shifted = self.grid_history@[cur as int];
        let res = self.grid_history[cur].translate_all((0, 0), (0, 1), TranslateRule::RowsFrom(iy));
        proof {
            self.lemma_transaction_wf(before);
            assert(some_cell_fails(shifted, (0usize, 0usize), (0usize, 1usize), TranslateRule::RowsFrom(iy))
                == row_insert_fails(before.current(), iy as int)) by {
                if some_cell_fails(shifted, (0usize, 0usize), (0usize, 1usize), TranslateRule::RowsFrom(iy)) {
                    let (a, b) = choose|a: int, b: int| #[trigger] shifted.cell(a, b) matches Some(c) && translation_fails(c, (0usize, 0usize), (0usize, 1usize), TranslateRule::RowsFrom(iy));
                    if !(0 <= a < LEN && 0 <= b < LEN) {
                        assert(shifted.cell(a, b) is None);
                    }
                    assert(row_shift(before.current(), iy as int, a, b) == shifted.cell(a, b));
                }
                if row_insert_fails(before.current(), iy as int) {
                    let (a, b) = choose|a: int, b: int|
                        0 <= a < LEN && 0 <= b < LEN && (#[trigger] row_shift(before.current(), iy as int, a, b) matches Some(c) && translation_fails(c, (0usize, 0usize), (0usize, 1usize), TranslateRule::RowsFrom(iy)));
                    assert(shifted.cell(a, b) == row_shift(before.current(), iy as int, a, b));
                }
            }
        }
        match res {
            Ok(()) => Ok(()),
            Err(f) => Err(GridFault::Translate(f)),
        }
    }

    /// Inserts an empty row below the row of `pos` (see `insert_row_above`);
    /// `Err(OutOfGrid)` also when the row after it overflows.
    pub fn insert_row_below(&mut self, pos: (usize, usize)) -> (r: Result<(), GridFault>)
        requires
            old(self).wf(),
        ensures
            final(self).wf(),
            (r == Err::<(), GridFault>(GridFault::OutOfGrid)) <==> pos.1 >= LEN,
            pos.1 >= LEN ==> *final(self) == *old(self),
            pos.1 < LEN ==> (r is Err <==> row_insert_fails(old(self).current(), pos.1 + 1)),
            r is Ok ==> final(self).transacted_from(*old(self)) && forall|x: int, y: int|
                0 <= x < LEN && 0 <= y < LEN ==> moved_cell(
                    row_shift(old(self).current(), pos.1 + 1, x, y),
                    #[trigger] final(self).cell(x, y),
                    (0usize, 0usize),
                    (0usize, 1usize),
                    TranslateRule::RowsFrom((pos.1 + 1) as usize),
                ),
    {
        if pos.1 >= LEN {
            return Err(GridFault::OutOfGrid);
        }
        self.insert_row_above((pos.0, pos.1 + 1))
    }

    /// Inserts an empty column before the column of `pos` as one
    /// transaction: columns from there on move right one (the last column
    /// falls off) and every equation's references to those columns move
    /// with them. `Err(OutOfGrid)`, with nothing changed, when the column is
    /// past the end of the sheet; `Err(Translate)` exactly when some
    /// equation cannot be moved.
    pub fn insert_column_before(&mut self, pos: (usize, usize)) -> (r: Result<(), GridFault>)
        requires
            old(self).wf(),
        ensures
            final(self).wf(),
            (r == Err::<(), GridFault>(GridFault::OutOfGrid)) <==> pos.0 > LEN,
            pos.0 > LEN ==> *final(self) == *old(self),
            pos.0 <= LEN ==> (r is Err <==> column_insert_fails(old(self).current(), pos.0 as int)),
            r is Ok ==> final(self).transacted_from(*old(self)) && forall|x: int, y: int|
                0 <= x < LEN && 0 <= y < LEN ==> moved_cell(
                    column_shift(old(self).current(), pos.0 as int, x, y),
                    #[trigger] final(self).cell(x, y),
                    (0usize, 0usize),
                    (1usize, 0usize),
                    TranslateRule::ColumnsFrom(pos.0),
                ),
    {
        let ix = pos.0;
        if ix > LEN {
            return Err(GridFault::OutOfGrid);
        }
        let ghost before = *self;
        self.begin_transaction();
        let cur = self.current_grid;
        self.grid_history[cur].insert_column(ix);
        let ghost shifted = self.grid_history@[cur as int];
        let res = self.grid_history[cur].translate_all((0, 0), (1, 0), TranslateRule::ColumnsFrom(ix));
        proof {
            self.lemma_transaction_wf(before);
            assert(some_cell_fails(shifted, (0usize, 0usize), (1usize, 0usize), TranslateRule::ColumnsFrom(ix))
                == column_insert_fails(before.current(), ix as int)) by {
                if some_cell_fails(shifted, (0usize, 0usize), (1usize, 0usize), TranslateRule::ColumnsFrom(ix)) {
                    let (a, b) = choose|a: int, b: int| #[trigger] shifted.cell(a, b) matches Some(c) && translation_fails(c, (0usize, 0usize), (1usize, 0usize), TranslateRule::ColumnsFrom(ix));
                    if !(0 <= a < LEN && 0 <= b < LEN) {
                        assert(shifted.cell(a, b) is None);
                    }
                    assert(column_shift(before.current(), ix as int, a, b) == shifted.cell(a, b));
                }
                if column_insert_fails(before.current(), ix as int) {
                    let (a, b) = choose|a: int, b: int|
                        0 <= a < LEN && 0 <= b < LEN && (#[trigger] column_shift(before.current(), ix as int, a, b) matches Some(c) && translation_fails(c, (0usize, 0usize), (1usize, 0usize), TranslateRule::ColumnsFrom(ix)));
                    assert(shifted.cell(a, b) == column_shift(before.current(), ix as int, a, b));
                }
            }
        }
        match res {
            Ok(()) => Ok(()),
            Err(f) => Err(GridFault::Translate(f)),
        }
    }

    /// Inserts an empty column after the column of `pos` (see
    /// `insert_column_before`); `Err(OutOfGrid)` also when the column after
    /// it overflows.
    pub fn insert_column_after(&mut self, pos: (usize, usize)) -> (r: Result<(), GridFault>)
        requires
            old(self).wf(),
        ensures
            final(self).wf(),
            (r == Err::<(), GridFault>(GridFault::OutOfGrid)) <==> pos.0 >= LEN,
            pos.0 >= LEN ==> *final(self) == *old(self),
            pos.0 < LEN ==> (r is Err <==> column_insert_fails(old(self).current(), pos.0 + 1)),
            r is Ok ==> final(self).transacted_from(*old(self)) && forall|x: int, y: int|
                0 <= x < LEN && 0 <= y < LEN ==> moved_cell(
                    column_shift(old(self).current(), pos.0 + 1, x, y),
                    #[trigger] final(self).cell(x, y),
                    (0usize, 0usize),
                    (1usize, 0usize),
                    TranslateRule::ColumnsFrom((pos.0 + 1) as usize),
                ),
    {
        if pos.0 >= LEN {
            return Err(GridFault::OutOfGrid);
        }
        self.insert_column_before((pos.0 + 1, pos.1))
    }
}

/// One coordinate moved by a momentum (see `momentum_target`).
fn move_axis(c: usize, m: i32) -> (r: usize)
    ensures
        r == momentum_target(c, m),
{
    let s: i64 = (c as i32) as i64 + m as i64;
    let s: i64 = if s < -2147483648 { -2147483648 } else if s > 2147483647 { 2147483647 } else { s };
    let p: i64 = if s < 0 { 0 } else { s };
    if p > (LEN - 1) as i64 {
        LEN - 1
    } else {
        p as usize
    }
}


/// The non-empty cells of the first `n` rows of column `x`, in row order.
pub open spec fn column_values_upto(g: CellGrid, x: int, n: nat) -> Seq<CellType>
    decreases n,
{
    if n == 0 {
        Seq::empty()
    } else {
        let before = column_values_upto(g, x, (n - 1) as nat);
        match g.cell(x, n - 1) {
            Some(c) => before.push(c),
            None => before,
        }
    }
}

/// The non-empty cells of column `x`, top to bottom.
pub open spec fn column_values(g: CellGrid, x: int) -> Seq<CellType> {
    column_values_upto(g, x, LEN as nat)
}

/// The non-empty cells of columns `s` to `e`, column after column.
pub open spec fn range_values(g: CellGrid, s: int, e: int) -> Seq<CellType>
    decreases e - s + 1,
{
    if e < s {
        Seq::empty()
    } else {
        range_values(g, s, e - 1) + column_values(g, e)
    }
}

proof fn lemma_column_values_stable(g: CellGrid, x: int, n: nat)
    requires
        forall|b: int| n <= b < LEN ==> #[trigger] g.cell(x, b) is None,
        n <= LEN,
    ensures
        column_values_upto(g, x, n) == column_values(g, x),
    decreases LEN - n,
{
    if n < LEN {
        lemma_column_values_stable(g, x, n + 1);
        assert(g.cell(x, n as int) is None);
    }
}

/// Appends the non-empty cells of column `x` to `buf`, top to bottom.
fn push_column(g: &CellGrid, x: usize, buf: &mut Vec<CellType>)
    requires
        g.wf(),
    ensures
        final(buf)@ == old(buf)@ + column_values(*g, x as int),
{
    let my = g.max_y_at_x(x);
    let ghost start = buf@;
    let mut y: usize = 0;
    while y <= my
        invariant
            y <= my + 1,
            my < LEN,
            g.wf(),
            buf@ == start + column_values_upto(*g, x as int, y as nat),
            forall|b: int| #[trigger] g.cell(x as int, b) is Some ==> b <= my,
        decreases my + 1 - y,
    {
        match g.get_cell_raw(x, y) {
            Some(c) => {
                buf.push(c.clone());
            },
            None => {},
        }
        assert(buf@ =~= start + column_values_upto(*g, x as int, (y + 1) as nat));
        y = y + 1;
    }
    proof {
        lemma_column_values_stable(*g, x as int, (my + 1) as nat);
    }
}

/// Where a sheet is saved and in which form: a `.csv` path, or any other
/// extension than `.nscim`, gets the computed values; a `.nscim` path gets
/// the formulas; a path without extension gets the `.csv` extension added
/// and the computed values.
pub open spec fn save_target_spec(path: Seq<char>) -> (bool, Seq<char>) {
    match path_extension_of(path) {
        Some(e) => (e != CUSTOM_EXT@, path),
        None => (true, path_with_added_extension(path, CSV_EXT@)),
    }
}

/// The extension of a path, as `std::path::Path::extension` reads it.
pub uninterp spec fn path_extension_of(path: Seq<char>) -> Option<Seq<char>>;

/// A path with an extension added, as `std::path::PathBuf::add_extension`
/// writes it.
pub uninterp spec fn path_with_added_extension(path: Seq<char>, ext: Seq<char>) -> Seq<char>;

/// `std::path::Path::extension`: the part of the file name after its last
/// `.`, if any (a name that starts with its only `.` has none).
#[verifier::external_body]
fn path_extension(path: &str) -> (r: Option<String>)
    ensures
        match r {
            Some(e) => path_extension_of(path@) == Some(e@),
            None => path_extension_of(path@) is None,
        },
{
    match std::path::Path::new(path).extension() {
        Some(e) => Some(e.to_string_lossy().into_owned()),
        None => None,
    }
}

/// `std::path::PathBuf::add_extension`: the path with `.ext` appended to its
/// file name. It panics on an extension that holds a path separator, so
/// such extensions (`/`, and `\` where that is a separator too) are left
/// out.
#[verifier::external_body]
fn path_add_extension(path: &str, ext: &str) -> (r: String)
    requires
        forall|j: int| 0 <= j < ext@.len() ==> #[trigger] ext@[j] != '/' && ext@[j] != '\\',
    ensures
        r@ == path_with_added_extension(path@, ext@),
{
    let mut b = std::path::PathBuf::from(path);
    b.add_extension(ext);
    b.to_string_lossy().into_owned()
}

/// One cell as written in a CSV file: the computed value when there is one
/// to write, else the escaped display text; then `\n` after the last cell
/// of a row, `,` after any other. An empty cell is the separator alone.
pub open spec fn cell_csv(c: Option<CellType>, value: Option<Seq<char>>, last: bool) -> Seq<char> {
    let delim = if last { '\n' } else { ',' };
    match c {
        Some(v) => (match value {
            Some(t) => t,
            None => escape_csv_spec(v.text()),
        }).push(delim),
        None => seq![delim],
    }
}

/// The computed value given for `(x, y)`, if any.
pub open spec fn value_at(values: Seq<Vec<Option<String>>>, x: int, y: int) -> Option<Seq<char>> {
    if 0 <= x < values.len() && 0 <= y < values[x]@.len() {
        match values[x]@[y] {
            Some(t) => Some(t@),
            None => None,
        }
    } else {
        None
    }
}

/// The first `n` cells of row `y`, up to column `mx`.
pub open spec fn row_csv(g: CellGrid, resolve: bool, values: Seq<Vec<Option<String>>>, y: int, mx: int, n: nat) -> Seq<char>
    decreases n,
{
    if n == 0 {
        Seq::empty()
    } else {
        let x = n - 1;
        row_csv(g, resolve, values, y, mx, (n - 1) as nat) + cell_csv(
            g.cell(x, y),
            if resolve { value_at(values, x, y) } else { None },
            x == mx,
        )
    }
}

/// The first `m` rows, each up to column `mx`.
pub open spec fn sheet_csv(g: CellGrid, resolve: bool, values: Seq<Vec<Option<String>>>, mx: int, m: nat) -> Seq<char>
    decreases m,
{
    if m == 0 {
        Seq::empty()
    } else {
        sheet_csv(g, resolve, values, mx, (m - 1) as nat) + row_csv(g, resolve, values, m - 1, mx, (mx + 1) as nat)
    }
}

/// The farthest modified cell of `g` (see `is_max`).
pub open spec fn grid_max(g: CellGrid) -> (usize, usize) {
    choose|r: (usize, usize)| is_max(g, r)
}

proof fn lemma_max_unique(g: CellGrid, r: (usize, usize))
    requires
        is_max(g, r),
    ensures
        grid_max(g) == r,
{
    let m = grid_max(g);
    assert(is_max(g, m));
    if exists|x: int, y: int| #[trigger] g.cell(x, y) is Some {
        let y1 = choose|y: int| #[trigger] g.cell(r.0 as int, y) is Some;
        let y2 = choose|y: int| #[trigger] g.cell(m.0 as int, y) is Some;
        let x1 = choose|x: int| #[trigger] g.cell(x, r.1 as int) is Some;
        let x2 = choose|x: int| #[trigger] g.cell(x, m.1 as int) is Some;
        assert(r.0 <= m.0 && m.0 <= r.0);
        assert(r.1 <= m.1 && m.1 <= r.1);
    }
}

/// The text of the sheet as a CSV file: every row up to the last modified
/// one, each with every column up to the last modified one.
pub open spec fn sheet_text(g: CellGrid, resolve: bool, values: Seq<Vec<Option<String>>>) -> Seq<char> {
    let m = grid_max(g);
    sheet_csv(g, resolve, values, m.0 as int, (m.1 + 1) as nat)
}

/// The text a cell contributes to its CSV field: its own text, or nothing.
pub open spec fn cell_field(c: Option<CellType>) -> Seq<char> {
    match c {
        Some(v) => v.text(),
        None => Seq::empty(),
    }
}

/// The fields of the first `n` cells of row `y`.
pub open spec fn row_fields(g: CellGrid, y: int, n: nat) -> Seq<Seq<char>> {
    Seq::new(n, |x: int| cell_field(g.cell(x, y)))
}

/// Text that survives a save and a load unchanged: ASCII with no line
/// break (a `"` is written doubled and a text holding `,` in quotes, and
/// both read back).
pub open spec fn plain_text(t: Seq<char>) -> bool {
    forall|j: int| 0 <= j < t.len() ==> plain_char(#[trigger] t[j])
}

pub open spec fn plain_char(c: char) -> bool {
    &&& '\0' <= c <= '\u{7f}'
    &&& c != '\n'
    &&& c != '\r'
}

/// The fields the first `n` cells of row `y` are written as.
pub open spec fn written_row(g: CellGrid, y: int, n: nat) -> Seq<Seq<char>> {
    written_fields(row_fields(g, y, n))
}

/// Every cell of `g` holds plain text.
pub open spec fn plain_sheet(g: CellGrid) -> bool {
    forall|x: int, y: int| #[trigger] g.cell(x, y) is Some ==> plain_text(g.cell(x, y)->0.text())
}

proof fn lemma_row_csv_fields(g: CellGrid, values: Seq<Vec<Option<String>>>, y: int, mx: int, n: nat)
    requires
        plain_sheet(g),
        1 <= n <= mx + 1,
    ensures
        row_csv(g, false, values, y, mx, n) == join_fields(written_row(g, y, n)) + seq![
            if n - 1 == mx { '\n' } else { ',' },
        ],
    decreases n,
{
    let x = n - 1;
    let c = g.cell(x, y);
    let f = cell_field(c);
    let w = written_field(f);
    assert(cell_csv(c, None, x == mx) == w + seq![if x == mx { '\n' } else { ',' }]) by {
        if c is None {
            assert(!f.contains(','));
            assert(doubled_quotes(f) =~= Seq::<char>::empty());
        }
    }
    if n == 1 {
        assert(written_row(g, y, n) =~= seq![w]);
        assert(row_csv(g, false, values, y, mx, 0) =~= Seq::<char>::empty());
        assert(row_csv(g, false, values, y, mx, n) =~= w + seq![if x == mx { '\n' } else { ',' }]);
    } else {
        lemma_row_csv_fields(g, values, y, mx, (n - 1) as nat);
        assert(written_row(g, y, (n - 1) as nat).push(w) =~= written_row(g, y, n));
        lemma_join_push(written_row(g, y, (n - 1) as nat), w);
        assert(row_csv(g, false, values, y, mx, n) =~= join_fields(written_row(g, y, n)) + seq![
            if n - 1 == mx { '\n' } else { ',' },
        ]);
    }
}

/// An ASCII character that is no line break.
pub open spec fn line_char(c: char) -> bool {
    &&& '\0' <= c <= '\u{7f}'
    &&& c != '\n'
    &&& c != '\r'
}

/// Text made of ASCII characters that are no line break.
pub open spec fn line_text(t: Seq<char>) -> bool {
    forall|j: int| 0 <= j < t.len() ==> line_char(#[trigger] t[j])
}

proof fn lemma_written_line(t: Seq<char>)
    requires
        plain_text(t),
    ensures
        line_text(written_field(t)),
{
    let d = doubled_quotes(t);
    let w = written_field(t);
    lemma_doubled_chars(t);
    assert forall|j: int| 0 <= j < d.len() implies line_char(#[trigger] d[j]) by {
        if d[j] != '"' {
            let k = choose|k: int| 0 <= k < t.len() && t[k] == d[j];
            assert(plain_char(t[k]));
        }
    }
    assert forall|j: int| 0 <= j < w.len() implies line_char(#[trigger] w[j]) by {
        if t.contains(',') {
            if 0 < j < w.len() - 1 {
                assert(w[j] == d[j - 1]);
            }
        } else {
            assert(w[j] == d[j]);
        }
    }
}

proof fn lemma_join_plain(fs: Seq<Seq<char>>)
    requires
        forall|k: int| 0 <= k < fs.len() ==> line_text(#[trigger] fs[k]),
    ensures
        line_text(join_fields(fs)),
    decreases fs.len(),
{
    if fs.len() == 1 {
        assert(line_text(fs[0]));
    } else if fs.len() > 1 {
        let rest = fs.drop_first();
        assert forall|k: int| 0 <= k < rest.len() implies line_text(#[trigger] rest[k]) by {
            assert(rest[k] == fs[k + 1]);
        }
        lemma_join_plain(rest);
        assert(line_text(fs[0]));
        let j0 = join_fields(fs);
        assert(j0 == fs[0] + seq![','] + join_fields(rest));
        assert forall|j: int| 0 <= j < j0.len() implies line_char(#[trigger] j0[j]) by {
            if j < fs[0].len() {
                assert(j0[j] == fs[0][j]);
            } else if j > fs[0].len() {
                assert(j0[j] == join_fields(rest)[j - fs[0].len() - 1]);
            }
        }
    }
}

/// The lines of the saved sheet: row `y`'s fields joined with `,`.
pub open spec fn sheet_lines(g: CellGrid, mx: int, m: nat) -> Seq<Seq<char>> {
    Seq::new(m, |y: int| join_fields(written_row(g, y, (mx + 1) as nat)))
}

proof fn lemma_sheet_csv_lines(g: CellGrid, values: Seq<Vec<Option<String>>>, mx: int, m: nat)
    requires
        plain_sheet(g),
        0 <= mx,
    ensures
        sheet_csv(g, false, values, mx, m) == unlines(sheet_lines(g, mx, m)),
    decreases m,
{
    if m == 0 {
        assert(sheet_lines(g, mx, m) =~= Seq::<Seq<char>>::empty());
    } else {
        lemma_sheet_csv_lines(g, values, mx, (m - 1) as nat);
        lemma_row_csv_fields(g, values, m - 1, mx, (mx + 1) as nat);
        assert(sheet_lines(g, mx, m).drop_last() =~= sheet_lines(g, mx, (m - 1) as nat));
        assert(sheet_csv(g, false, values, mx, m) =~= unlines(sheet_lines(g, mx, m)));
    }
}

proof fn lemma_unlines_ascii(ls: Seq<Seq<char>>)
    requires
        forall|k: int, j: int| 0 <= k < ls.len() && 0 <= j < ls[k].len() ==> line_char(#[trigger] ls[k][j]),
    ensures
        vstd::utf8::is_ascii_chars(unlines(ls)),
    decreases ls.len(),
{
    if ls.len() > 0 {
        let p = ls.drop_last();
        assert forall|k: int, j: int| 0 <= k < p.len() && 0 <= j < p[k].len() implies line_char(#[trigger] p[k][j]) by {
            assert(p[k] == ls[k]);
        }
        lemma_unlines_ascii(p);
        let u = unlines(ls);
        let l = ls.last();
        assert(u == unlines(p) + l + seq!['\n']);
        assert forall|i: int| 0 <= i < u.len() implies '\0' <= #[trigger] u[i] <= '\u{7f}' by {
            if i < unlines(p).len() {
                assert(u[i] == unlines(p)[i]);
            } else if i < unlines(p).len() + l.len() {
                let j = i - unlines(p).len();
                assert(u[i] == ls[ls.len() - 1][j]);
                assert(line_char(ls[ls.len() - 1][j]));
            }
        }
    }
}

proof fn lemma_ascii_latin1(t: Seq<char>)
    requires
        vstd::utf8::is_ascii_chars(t),
    ensures
        latin1(vstd::utf8::encode_utf8(t)) == t,
{
    vstd::utf8::is_ascii_chars_encode_utf8(t);
    let b = vstd::utf8::encode_utf8(t);
    assert forall|i: int| 0 <= i < t.len() implies #[trigger] latin1(b)[i] == t[i] by {
        assert('\0' <= t[i] <= '\u{7f}');
        assert(t[i] as u8 == b[i]);
        let c = t[i];
        assert((c as u8) as char == c);
    }
    assert(latin1(b) =~= t);
}

proof fn lemma_row_plain(g: CellGrid, y: int, n: nat)
    requires
        plain_sheet(g),
    ensures
        forall|k: int| 0 <= k < n ==> plain_text(#[trigger] row_fields(g, y, n)[k]),
{
    assert forall|k: int| 0 <= k < n implies plain_text(#[trigger] row_fields(g, y, n)[k]) by {
        if g.cell(k, y) is Some {
            assert(plain_text(g.cell(k, y)->0.text()));
        }
    }
}

/// Cell `x` of a line read back; a line that ends early has none there.
pub open spec fn read_cell(cells: Seq<Option<Seq<char>>>, x: int) -> Option<Seq<char>> {
    if 0 <= x < cells.len() {
        cells[x]
    } else {
        None
    }
}

proof fn lemma_read_fields(fs: Seq<Seq<char>>, x: int)
    requires
        fs.len() >= 1,
        0 <= x < fs.len(),
    ensures
        read_cell(fields_cells(fs), x) == field_cell(fs[x]),
        fields_cells(fs).len() <= fs.len(),
{
    let front = fs.drop_last().map_values(|f: Seq<char>| field_cell(f));
    if x < fs.len() - 1 {
        assert(fields_cells(fs)[x] == front[x]);
    } else if fs.last().len() > 0 {
        assert(fields_cells(fs)[x] == Some(fs.last()));
    }
}

/// The lines of the file a sheet is saved to (computed values left out),
/// as they are read back.
pub open spec fn saved_lines(g: CellGrid, values: Seq<Vec<Option<String>>>) -> Seq<Seq<char>> {
    lines_spec(latin1(vstd::utf8::encode_utf8(sheet_text(g, false, values))))
}

/// Saving a sheet and loading the file back gives back its cells. The file
/// read back has one line for each row up to the last modified one; on line
/// `y`, the cell read at column `x` (up to the last modified column) is the
/// text of cell `(x, y)`, where an empty text and an empty cell both read as
/// no cell, and no line holds more cells than there are columns. This holds
/// for sheets whose texts are plain: ASCII with no line break (a `"` is
/// written doubled and a text holding `,` in quotes, and both read back).
pub proof fn lemma_save_load_round_trip(g: CellGrid, values: Seq<Vec<Option<String>>>)
    requires
        plain_sheet(g),
    ensures
        saved_lines(g, values).len() == grid_max(g).1 + 1,
        forall|y: int, x: int|
            0 <= y <= grid_max(g).1 && 0 <= x <= grid_max(g).0 ==> #[trigger] read_cell(
                parse_csv_chars(saved_lines(g, values)[y]),
                x,
            ) == field_cell(cell_field(g.cell(x, y))),
        forall|y: int|
            0 <= y <= grid_max(g).1 ==> (#[trigger] parse_csv_chars(saved_lines(g, values)[y])).len()
                <= grid_max(g).0 + 1,
{
    let m = grid_max(g);
    let mx: int = m.0 as int;
    let rows: nat = (m.1 + 1) as nat;
    let ls = sheet_lines(g, mx, rows);
    let t = sheet_text(g, false, values);
    lemma_sheet_csv_lines(g, values, mx, rows);
    assert(t == unlines(ls));
    assert forall|k: int| 0 <= k < ls.len() implies #[trigger] single_line(ls[k]) && (forall|j: int|
        0 <= j < ls[k].len() ==> line_char(#[trigger] ls[k][j])) by {
        let fs = row_fields(g, k, (mx + 1) as nat);
        lemma_row_plain(g, k, (mx + 1) as nat);
        assert forall|i: int| 0 <= i < written_row(g, k, (mx + 1) as nat).len() implies line_text(
            #[trigger] written_row(g, k, (mx + 1) as nat)[i],
        ) by {
            lemma_written_line(fs[i]);
        }
        lemma_join_plain(written_row(g, k, (mx + 1) as nat));
        if ls[k].len() > 0 {
            assert(line_char(ls[k][ls[k].len() - 1]));
        }
    }
    assert forall|k: int, j: int| 0 <= k < ls.len() && 0 <= j < ls[k].len() implies line_char(
        #[trigger] ls[k][j],
    ) by {
        assert(single_line(ls[k]));
    }
    lemma_unlines_ascii(ls);
    lemma_ascii_latin1(t);
    lemma_lines_round_trip(ls);
    assert(saved_lines(g, values) == ls);
    assert forall|y: int| 0 <= y <= m.1 implies parse_csv_chars(#[trigger] ls[y]) == fields_cells(
        row_fields(g, y, (mx + 1) as nat),
    ) by {
        let fs = row_fields(g, y, (mx + 1) as nat);
        lemma_row_plain(g, y, (mx + 1) as nat);
        lemma_written_fields_round_trip(fs);
    }
    assert forall|y: int, x: int| 0 <= y <= m.1 && 0 <= x <= m.0 implies #[trigger] read_cell(
        parse_csv_chars(saved_lines(g, values)[y]),
        x,
    ) == field_cell(cell_field(g.cell(x, y))) by {
        let fs = row_fields(g, y, (mx + 1) as nat);
        assert(parse_csv_chars(ls[y]) == fields_cells(fs));
        lemma_read_fields(fs, x);
    }
    assert forall|y: int| 0 <= y <= m.1 implies (#[trigger] parse_csv_chars(saved_lines(g, values)[y])).len()
        <= m.0 + 1 by {
        let fs = row_fields(g, y, (mx + 1) as nat);
        assert(parse_csv_chars(ls[y]) == fields_cells(fs));
        lemma_read_fields(fs, 0);
    }
}

impl Grid {
    /// Column index named by the letters of `i` (see `refs::char_to_idx`).
    pub fn char_to_idx(i: &str) -> (r: usize)
        ensures
            r == refs::char_to_idx_spec(i@),
    {
        refs::char_to_idx(i)
    }

    /// Parses a reference such as `A0`, `C10`, `ZZ99` or `$A$0` into an
    /// `(x, y)` index (see `refs::parse_to_idx`).
    pub fn parse_to_idx(i: &str) -> (r: Option<(usize, usize)>)
        ensures
            r == refs::parse_to_idx_spec(i@),
    {
        refs::parse_to_idx(i)
    }

    /// The column header for index `idx` (see `refs::num_to_char`).
    pub fn num_to_char(idx: usize) -> (r: String)
        ensures
            r@ == refs::num_to_char_spec(idx as nat),
    {
        refs::num_to_char(idx)
    }

    /// The column indices of a range such as `A:C` (see
    /// `refs::range_as_indices`).
    pub fn range_as_indices(range: &str) -> (r: Option<(usize, usize)>)
        ensures
            r == refs::range_as_indices_spec(range@),
    {
        refs::range_as_indices(range)
    }

    /// Splits one line of CSV into its cells (see `csv::parse_csv_line`).
    pub fn parse_csv_line(line: &str) -> (r: Vec<Option<String>>)
        ensures
            crate::csv::opt_views(r@) == crate::csv::parse_csv_chars(crate::csv::latin1(
                vstd::string::StringSliceAdditionalSpecFns::spec_bytes(line),
            )),
    {
        crate::csv::parse_csv_line(line)
    }

    /// The cells a column range such as `A:C` covers: the non-empty cells
    /// of each column from the first to the last, top to bottom; `None`
    /// when the text is not a range.
    pub fn expand_range(&self, range: &str) -> (r: Option<Vec<CellType>>)
        requires
            self.wf(),
        ensures
            match refs::range_as_indices_spec(range@) {
                Some((s, e)) => r matches Some(v) && v@ == range_values(self.current(), s as int, e as int),
                None => r is None,
            },
    {
        let (s, e) = match refs::range_as_indices(range) {
            Some(p) => p,
            None => {
                return None;
            },
        };
        let g = self.get_grid();
        let mut buf: Vec<CellType> = Vec::new();
        if s > e {
            return Some(buf);
        }
        let mut x: usize = s;
        loop
            invariant_except_break
                s <= x <= e,
                g.wf(),
                buf@ == range_values(*g, s as int, x - 1),
            ensures
                buf@ == range_values(*g, s as int, e as int),
            decreases e - x,
        {
            push_column(g, x, &mut buf);
            if x == e {
                break;
            }
            x = x + 1;
        }
        Some(buf)
    }

    /// Where to save the sheet for `path`, and whether computed values are
    /// written (see `save_target_spec`).
    pub fn save_target(path: &str) -> (r: (bool, String))
        ensures
            (r.0, r.1@) == save_target_spec(path@),
    {
        match path_extension(path) {
            Some(e) => {
                let ext = chars_of(e.as_str());
                let custom = chars_of(CUSTOM_EXT);
                let same = crate::text::chars_eq(&ext, &custom);
                (!same, path.to_string())
            },
            None => {
                proof {
                    reveal_strlit("csv");
                }
                (true, path_add_extension(path, CSV_EXT))
            },
        }
    }

    /// The sheet's text as a CSV file: each row up to the last modified
    /// one holds every column up to the last modified one. A non-empty cell
    /// is written as its computed value from `values` (indexed `[x][y]`)
    /// when `resolve` is set and a value is given, else as its escaped
    /// display text; cells are separated by `,` and rows end with `\n`.
    pub fn csv_text(&self, resolve: bool, values: &Vec<Vec<Option<String>>>) -> (r: String)
        requires
            self.wf(),
        ensures
            r@ == sheet_text(self.current(), resolve, values@),
    {
        let g = self.get_grid();
        let (mx, my) = g.max();
        proof { lemma_max_unique(*g, (mx, my)); }
        let mut out: Vec<char> = Vec::new();
        let mut y: usize = 0;
        assert(mx < LEN && my < LEN) by {
            if exists|x: int, y: int| #[trigger] g.cell(x, y) is Some {
                let b = choose|b: int| #[trigger] g.cell(mx as int, b) is Some;
                let a = choose|a: int| #[trigger] g.cell(a, my as int) is Some;
            }
        }
        while y <= my
            invariant
                my < LEN,
                mx < LEN,
                y <= my + 1,
                g.wf(),
                out@ == sheet_csv(*g, resolve, values@, mx as int, y as nat),
            decreases my + 1 - y,
        {
            let mut x: usize = 0;
            let ghost start = out@;
            while x <= mx
                invariant
                    my < LEN,
                    mx < LEN,
                    y <= my,
                    x <= mx + 1,
                    g.wf(),
                    out@ == start + row_csv(*g, resolve, values@, y as int, mx as int, x as nat),
                decreases mx + 1 - x,
            {
                let last = x == mx;
                let delim = if last { '\n' } else { ',' };
                let ghost prev = out@;
                match g.get_cell_raw(x, y) {
                    Some(cell) => {
                        let mut used = false;
                        if resolve && x < values.len() {
                            let col = &values[x];
                            if y < col.len() {
                                match &col[y] {
                                    Some(t) => {
                                        append_all(&mut out, &chars_of(t.as_str()));
                                        used = true;
                                    },
                                    None => {},
                                }
                            }
                        }
                        if !used {
                            let esc = cell.escaped_csv_string();
                            append_all(&mut out, &chars_of(esc.as_str()));
                        }
                        out.push(delim);
                    },
                    None => {
                        out.push(delim);
                    },
                }
                assert(out@ =~= start + row_csv(*g, resolve, values@, y as int, mx as int, (x + 1) as nat));
                x = x + 1;
            }
            y = y + 1;
        }
        string_of(&out)
    }
}

} // verus!
