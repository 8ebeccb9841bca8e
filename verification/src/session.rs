//! The editor's whole state and what each key and command does to it.
//! Reading the keyboard, drawing, files and other programs are the
//! caller's part: a command that needs them returns an `Effect` that says
//! what to do, and the caller reports back.
use vstd::prelude::*;
use crate::cell::{Cell, CellType};
use crate::clipboard::{Clipboard, block_of, paste_cell, fits_at, delta_i32, low_high, paste_fails, pasted_cell};
use crate::grid::{Grid, GridFault, GridType, LEN, momentum_target, undid, cell_ok, moved_cell, column_shift, row_shift, column_insert_fails, row_insert_fails};
use crate::cell::TranslateRule;
use crate::message::MsgType;
use crate::message::StatusMessage;
use crate::mode::{Mode, EditBuffer, FormatEditor, FormatEditorMode, RulesViewer};
use crate::screen::{ScreenSpace, saturate, center_delta, follow};
use crate::vars::{Vars, Marks};
use crate::text::{alphabetic, is_ascii_letter, is_digit, parse_usize_spec, decimal, usize_to_decimal, chars_of, string_of, append_all, words, replace_spec, replace_all, key_value, lemma_decimal_digits};
use crate::csv::latin1;

verus! {

/// Why a key or command could not be carried out; in each case the
/// program stops.
#[derive(Clone, Copy, PartialEq, Eq, Debug)]
pub enum KeyFault {
    /// A sheet operation failed (see `GridFault`).
    Grid(GridFault),
    /// A paste count was asked of an empty clipboard.
    EmptyClipboard,
    /// A position or a count does not fit in its integer type.
    Overflow,
    /// No screen size is known that holds two cells each way, or a cell
    /// size is zero.
    Screen,
    /// A multi-byte character ended a chord.
    Slice,
}

/// The editor.
pub struct App {
    pub exit: bool,
    pub grid: Grid,
    pub mode: Mode,
    pub file: Option<String>,
    pub msg: StatusMessage,
    pub vars: Vars,
    pub screen: ScreenSpace,
    pub marks: Marks,
    pub clipboard: Clipboard,
}

/// The parts of the editor outside the sheet and the mode are the same.
pub open spec fn same_besides(a: App, b: App) -> bool {
    &&& a.exit == b.exit
    &&& a.file == b.file
    &&& a.msg == b.msg
    &&& a.vars == b.vars
    &&& a.screen == b.screen
    &&& a.marks == b.marks
    &&& a.clipboard == b.clipboard
}

/// The same sheet states, dirty flag and editing mode; the cursor may
/// differ.
pub open spec fn same_sheet(a: Grid, b: Grid) -> bool {
    &&& a.history() == b.history()
    &&& a.current_index() == b.current_index()
    &&& a.is_dirty() == b.is_dirty()
    &&& a.mode_of() == b.mode_of()
}

/// Where a movement key sends the cursor from `c`.
pub open spec fn motion(c: (usize, usize), key: char) -> Option<(usize, usize)> {
    if key == 'h' || key == 'b' {
        Some((if c.0 > 0 { (c.0 - 1) as usize } else { 0usize }, c.1))
    } else if key == 'j' {
        Some((c.0, if c.1 + 1 < LEN - 1 { (c.1 + 1) as usize } else { (LEN - 1) as usize }))
    } else if key == 'k' {
        Some((c.0, if c.1 > 0 { (c.1 - 1) as usize } else { 0usize }))
    } else if key == 'l' || key == 'w' {
        Some((if c.0 + 1 < LEN - 1 { (c.0 + 1) as usize } else { (LEN - 1) as usize }, c.1))
    } else if key == '0' {
        Some((0usize, c.1))
    } else if key == '$' {
        Some(((LEN - 1) as usize, c.1))
    } else if key == 'G' {
        Some((c.0, (LEN - 1) as usize))
    } else {
        None
    }
}

/// The cursor after the movement key `key` is pressed `n` times from `c`.
pub open spec fn motion_n(c: (usize, usize), key: char, n: nat) -> (usize, usize)
    decreases n,
{
    if n == 0 {
        c
    } else {
        match motion(motion_n(c, key, (n - 1) as nat), key) {
            Some(t) => t,
            None => motion_n(c, key, (n - 1) as nat),
        }
    }
}

/// The text a cell shows, empty for an empty cell.
pub open spec fn shown(c: Option<CellType>) -> Seq<char> {
    match c {
        Some(v) => v.text(),
        None => Seq::empty(),
    }
}

/// The message after `n` cells are copied.
pub open spec fn yanked_text(n: nat) -> Seq<char> {
    "Yanked "@ + decimal(n) + " cells"@
}

impl App {
    pub open spec fn wf(self) -> bool {
        &&& self.grid.wf()
        &&& self.clipboard.wf()
    }

    /// The cursor.
    pub open spec fn cursor(self) -> (usize, usize) {
        self.grid.cursor_at()
    }

    /// An empty sheet in normal mode, with no file, no message, no
    /// settings, no marks and nothing copied.
    pub fn new() -> (r: App)
        ensures
            r.wf(),
            !r.exit,
            forall|x: int, y: int| #[trigger] r.grid.cell(x, y) is None,
            r.grid.history().len() == 1,
            r.grid.cursor_at() == (0usize, 0usize),
            !r.grid.is_dirty(),
            r.grid.mode_of() == GridType::Values,
            r.mode is Normal,
            r.file is None,
            r.msg.text() is None,
            r.vars@ == Map::<Seq<char>, Seq<char>>::empty(),
            r.screen.scroll_at() == (0usize, 0usize),
            r.screen.defaults() == (10usize, 1usize),
            r.screen.seen() == (0usize, 0usize),
            r.marks@ == Map::<char, (usize, usize)>::empty(),
            r.clipboard.contents() == Seq::<Seq<Option<CellType>>>::empty(),
            r.clipboard.last_paste() == (0usize, 0usize),
            r.clipboard.raw_momentum() == (0i32, 1i32),
    {
        App {
            exit: false,
            grid: Grid::new(),
            mode: Mode::Normal,
            file: None,
            msg: StatusMessage::none(),
            vars: Vars::new(),
            screen: ScreenSpace::new(),
            marks: Marks::new(),
            clipboard: Clipboard::new(),
        }
    }

    /// Pastes at the cursor and moves the cursor on by the clipboard's
    /// momentum.
    fn paste_and_move(&mut self) -> (r: Result<(), KeyFault>)
        requires
            old(self).wf(),
        ensures
            final(self).wf(),
            paste_effect(*old(self), *final(self), r),
            final(self).mode == old(self).mode,
            final(self).msg == old(self).msg,
    {
        let c = self.grid.cursor();
        if !self.clipboard.fits(c) {
            return Err(KeyFault::Grid(GridFault::OutOfGrid));
        }
        if !self.clipboard.momentum_fits(c) {
            return Err(KeyFault::Overflow);
        }
        match self.clipboard.paste(&mut self.grid) {
            Ok(()) => {},
            Err(f) => {
                return Err(KeyFault::Grid(GridFault::Translate(f)));
            },
        }
        let m = self.clipboard.momentum();
        let ghost mid = self.grid;
        self.grid.apply_momentum(m);
        proof { crate::grid::lemma_same_current(self.grid, mid); }
        assert forall|a: int, b: int|
            pasted_cell(
                old(self).clipboard.contents(),
                old(self).clipboard.source(),
                old(self).cursor(),
                old(self).grid.cell(a, b),
                #[trigger] self.grid.cell(a, b),
                a,
                b,
            ) by {
            assert(mid.cell(a, b) == self.grid.cell(a, b));
        }
        Ok(())
    }
}

/// The move from the last paste to the cursor fits in `i32` on both axes.
pub open spec fn momentum_ok(a: App) -> bool {
    &&& i32::MIN <= delta_i32(a.cursor().0, a.clipboard.last_paste().0) <= i32::MAX
    &&& i32::MIN <= delta_i32(a.cursor().1, a.clipboard.last_paste().1) <= i32::MAX
}

/// `n` is `o` after the clipboard is pasted at the cursor and the cursor
/// moves on by the new momentum.
pub open spec fn pasted(o: App, n: App) -> bool {
    let m = (
        delta_i32(o.cursor().0, o.clipboard.last_paste().0) as i32,
        delta_i32(o.cursor().1, o.clipboard.last_paste().1) as i32,
    );
    let dir = if m.1 != 0 { (0i32, m.1) } else { (m.0, 0i32) };
    &&& forall|a: int, b: int|
        pasted_cell(
            o.clipboard.contents(),
            o.clipboard.source(),
            o.cursor(),
            o.grid.cell(a, b),
            #[trigger] n.grid.cell(a, b),
            a,
            b,
        )
    &&& n.clipboard.source() == o.clipboard.source()
    &&& n.cursor() == (momentum_target(o.cursor().0, dir.0), momentum_target(o.cursor().1, dir.1))
    &&& n.grid.current_index() == o.grid.current_index()
    &&& n.grid.history().len() == o.grid.history().len()
    &&& n.grid.mode_of() == o.grid.mode_of()
    &&& n.clipboard.contents() == o.clipboard.contents()
    &&& n.clipboard.last_paste() == o.cursor()
    &&& n.clipboard.raw_momentum() == m
    &&& n.exit == o.exit
    &&& n.file == o.file
    &&& n.vars == o.vars
    &&& n.screen == o.screen
    &&& n.marks == o.marks
}

/// `n` is `o` with a column inserted before column `ix`, its equations
/// moved accordingly, in one transaction (the cursor aside).
pub open spec fn col_inserted(n: Grid, o: Grid, ix: int) -> bool {
    &&& n.history().len() == o.history().len() + 1
    &&& n.history().last().same_cells(o.current())
    &&& n.current_index() == o.current_index()
    &&& forall|i: int|
        0 <= i < o.history().len() && i != o.current_index() ==> #[trigger] n.history()[i] == o.history()[i]
    &&& n.mode_of() == o.mode_of()
    &&& n.is_dirty()
    &&& forall|x: int, y: int|
        0 <= x < LEN && 0 <= y < LEN ==> moved_cell(
            column_shift(o.current(), ix, x, y),
            #[trigger] n.cell(x, y),
            (0usize, 0usize),
            (1usize, 0usize),
            TranslateRule::ColumnsFrom(ix as usize),
        )
}

/// `n` is `o` with a row inserted above row `iy`, its equations moved
/// accordingly, in one transaction (the cursor aside).
pub open spec fn row_inserted(n: Grid, o: Grid, iy: int) -> bool {
    &&& n.history().len() == o.history().len() + 1
    &&& n.history().last().same_cells(o.current())
    &&& n.current_index() == o.current_index()
    &&& forall|i: int|
        0 <= i < o.history().len() && i != o.current_index() ==> #[trigger] n.history()[i] == o.history()[i]
    &&& n.mode_of() == o.mode_of()
    &&& n.is_dirty()
    &&& forall|x: int, y: int|
        0 <= x < LEN && 0 <= y < LEN ==> moved_cell(
            row_shift(o.current(), iy, x, y),
            #[trigger] n.cell(x, y),
            (0usize, 0usize),
            (0usize, 1usize),
            TranslateRule::RowsFrom(iy as usize),
        )
}

/// The outcome of inserting a column before `ix` (`at_out` when `ix` is
/// past the sheet), with the cursor then at `to`.
pub open spec fn col_insert_effect(o: App, n: App, r: Result<(), KeyFault>, ix: int, out: bool, to: (usize, usize)) -> bool {
    &&& out ==> r == Err::<(), KeyFault>(KeyFault::Grid(GridFault::OutOfGrid))
    &&& !out ==> (r is Err <==> column_insert_fails(o.grid.current(), ix))
    &&& !out && r is Err ==> r != Err::<(), KeyFault>(KeyFault::Grid(GridFault::OutOfGrid)) && (r matches Err(KeyFault::Grid(_)))
    &&& r is Ok ==> col_inserted(n.grid, o.grid, ix) && n.cursor() == to && n.mode == o.mode && same_besides(n, o)
}

/// The outcome of inserting a row above `iy` (see `col_insert_effect`).
pub open spec fn row_insert_effect(o: App, n: App, r: Result<(), KeyFault>, iy: int, out: bool, to: (usize, usize)) -> bool {
    &&& out ==> r == Err::<(), KeyFault>(KeyFault::Grid(GridFault::OutOfGrid))
    &&& !out ==> (r is Err <==> row_insert_fails(o.grid.current(), iy))
    &&& !out && r is Err ==> r != Err::<(), KeyFault>(KeyFault::Grid(GridFault::OutOfGrid)) && (r matches Err(KeyFault::Grid(_)))
    &&& r is Ok ==> row_inserted(n.grid, o.grid, iy) && n.cursor() == to && n.mode == o.mode && same_besides(n, o)
}

/// The outcome of a paste key: a fault when a cell would land outside the
/// sheet or the momentum overflows, else the paste.
pub open spec fn paste_effect(o: App, n: App, r: Result<(), KeyFault>) -> bool {
    &&& r is Err <==> !paste_possible(o)
    &&& !fits_at(o.clipboard.contents(), o.cursor()) ==> r == Err::<(), KeyFault>(KeyFault::Grid(GridFault::OutOfGrid))
    &&& fits_at(o.clipboard.contents(), o.cursor()) && !momentum_ok(o) ==> r == Err::<(), KeyFault>(KeyFault::Overflow)
    &&& fits_at(o.clipboard.contents(), o.cursor()) && momentum_ok(o) && paste_fails(
        o.clipboard.contents(),
        o.clipboard.source(),
        o.cursor(),
    ) ==> (r matches Err(KeyFault::Grid(GridFault::Translate(_))))
    &&& r is Ok ==> pasted(o, n) && n.msg == o.msg && n.mode == o.mode
}

/// Pasting at the cursor keeps every cell inside the sheet, its momentum
/// fits, and every equation can be moved to where it lands.
pub open spec fn paste_possible(o: App) -> bool {
    &&& fits_at(o.clipboard.contents(), o.cursor())
    &&& momentum_ok(o)
    &&& !paste_fails(o.clipboard.contents(), o.clipboard.source(), o.cursor())
}

/// The block from `p` to `c` copied from `g`, as the clipboard holds it.
pub open spec fn copied_block(g: Grid, p: (usize, usize), c: (usize, usize)) -> Seq<Seq<Option<CellType>>> {
    block_of(g, low_high(p.0, c.0).0 as int, low_high(p.1, c.1).0 as int, low_high(p.0, c.0).1 as int, low_high(p.1, c.1).1 as int)
}

/// `n` is `o` after the block between `p` and `c` is cut: copied to the
/// clipboard and emptied on the sheet.
pub open spec fn cut_from(o: App, n: App, p: (usize, usize), c: (usize, usize)) -> bool {
    let (lx, hx) = low_high(p.0, c.0);
    let (ly, hy) = low_high(p.1, c.1);
    &&& n.clipboard.contents() == copied_block(o.grid, p, c)
    &&& n.clipboard.last_paste() == (lx, ly)
    &&& n.clipboard.raw_momentum() == o.clipboard.raw_momentum()
    &&& forall|a: int, b: int|
        #[trigger] n.grid.cell(a, b) == (if lx <= a <= hx && ly <= b <= hy {
            None
        } else {
            o.grid.cell(a, b)
        })
    &&& n.cursor() == o.cursor()
    &&& n.grid.current_index() == o.grid.current_index()
    &&& n.grid.history().len() == o.grid.history().len()
    &&& n.grid.mode_of() == o.grid.mode_of()
    &&& n.grid.is_dirty() == (o.grid.is_dirty() || (lx < LEN && ly < LEN))
    &&& n.exit == o.exit
    &&& n.file == o.file
    &&& n.msg == o.msg
    &&& n.vars == o.vars
    &&& n.screen == o.screen
    &&& n.marks == o.marks
}

/// `n` is `o` after the block between `p` and `c` is copied.
pub open spec fn copied_from(o: App, n: App, p: (usize, usize), c: (usize, usize)) -> bool {
    &&& n.clipboard.contents() == copied_block(o.grid, p, c)
    &&& n.clipboard.last_paste() == (low_high(p.0, c.0).0, low_high(p.1, c.1).0)
    &&& n.clipboard.source() == (low_high(p.0, c.0).0, low_high(p.1, c.1).0)
    &&& n.clipboard.raw_momentum() == o.clipboard.raw_momentum()
    &&& n.grid == o.grid
    &&& n.exit == o.exit
    &&& n.file == o.file
    &&& n.vars == o.vars
    &&& n.screen == o.screen
    &&& n.marks == o.marks
}

/// What a key does in normal or visual mode.
pub open spec fn normal_effect(o: App, n: App, key: char, r: Result<(), KeyFault>) -> bool {
    let c = o.cursor();
    if motion(c, key) is Some {
        &&& r is Ok
        &&& n.cursor() == motion(c, key).unwrap()
        &&& same_sheet(n.grid, o.grid)
        &&& n.mode == o.mode
        &&& same_besides(n, o)
    } else if key == 'v' {
        r is Ok && n.mode == Mode::Visual(c) && n.grid == o.grid && same_besides(n, o)
    } else if key == ':' {
        &&& r is Ok
        &&& n.grid == o.grid
        &&& same_besides(n, o)
        &&& match o.mode {
            Mode::Visual(p) => n.mode matches Mode::VisualCmd(q, b) && q == p && b@ == seq![':'],
            _ => n.mode matches Mode::Command(b) && b@ == seq![':'],
        }
    } else if key == 'r' {
        r is Ok && n.grid == o.grid && same_besides(n, o) && (n.mode matches Mode::Insert(b) && b@ == Seq::<char>::empty())
    } else if key == 'i' || key == 'a' {
        &&& r is Ok
        &&& n.grid == o.grid
        &&& same_besides(n, o)
        &&& if o.grid.mode_of() == GridType::Values {
            n.mode matches Mode::Insert(b) && b@ == latin1(vstd::utf8::encode_utf8(shown(o.grid.cell(c.0 as int, c.1 as int))))
        } else {
            n.mode matches Mode::Formatting(e) && e.cell.value == o.grid.cell(c.0 as int, c.1 as int)
                && e.cell.formatting is None && e.mode == FormatEditorMode::Viewer(RulesViewer { index: 0 })
        }
    } else if key == 'u' {
        r is Ok && undid(n.grid, o.grid) && n.mode == o.mode && same_besides(n, o)
    } else if key == 'I' {
        col_insert_effect(o, n, r, c.0 as int, c.0 > LEN, c)
    } else if key == 'A' {
        col_insert_effect(o, n, r, c.0 + 1, c.0 >= LEN, ((c.0 + 1) as usize, c.1))
    } else if key == 'o' {
        row_insert_effect(o, n, r, c.1 + 1, c.1 >= LEN, (c.0, (c.1 + 1) as usize))
    } else if key == 'O' {
        row_insert_effect(o, n, r, c.1 as int, c.1 > LEN, c)
    } else if key == 'p' {
        paste_effect(o, n, r) && n.mode == o.mode
    } else {
        match o.mode {
            Mode::Visual(p) => if key == 'd' || key == 'x' {
                r is Ok && cut_from(o, n, p, c) && n.mode is Normal
            } else if key == 'y' {
                let w = copied_block(o.grid, p, c).len();
                let h = copied_block(o.grid, p, c)[0].len();
                &&& r is Err <==> w * h > usize::MAX
                &&& r is Err ==> r == Err::<(), KeyFault>(KeyFault::Overflow)
                &&& r is Ok ==> copied_from(o, n, p, c) && n.mode is Normal && n.msg.kind() == MsgType::Info
                    && n.msg.text() == Some(yanked_text(w * h))
            } else {
                r is Ok && n == o
            },
            _ => r is Ok && n.grid == o.grid && same_besides(n, o) && (n.mode matches Mode::Chord(b) && b@ == seq![key]),
        }
    }
}

impl App {
    /// A key in normal or visual mode (see `normal_effect`).
    fn normal_key(&mut self, key: char) -> (r: Result<(), KeyFault>)
        requires
            old(self).wf(),
            old(self).mode is Normal || old(self).mode is Visual,
        ensures
            final(self).wf(),
            normal_effect(*old(self), *final(self), key, r),
    {
        let (x, y) = self.grid.cursor();
        if key == 'h' || key == 'b' {
            self.grid.mv_cursor_to(x.saturating_sub(1), y);
            return Ok(());
        } else if key == 'j' {
            let t = y.saturating_add(1);
            self.grid.mv_cursor_to(x, if t < LEN - 1 { t } else { LEN - 1 });
            return Ok(());
        } else if key == 'k' {
            self.grid.mv_cursor_to(x, y.saturating_sub(1));
            return Ok(());
        } else if key == 'l' || key == 'w' {
            let t = x.saturating_add(1);
            self.grid.mv_cursor_to(if t < LEN - 1 { t } else { LEN - 1 }, y);
            return Ok(());
        } else if key == '0' {
            self.grid.mv_cursor_to(0, y);
            return Ok(());
        } else if key == '$' {
            self.grid.mv_cursor_to(LEN - 1, y);
            return Ok(());
        } else if key == 'G' {
            self.grid.mv_cursor_to(x, LEN - 1);
            return Ok(());
        } else if key == 'i' || key == 'a' {
            match self.grid.get_mode() {
                GridType::Values => {
                    let val = self.grid.get_cell_display(x, y);
                    self.mode = Mode::Insert(EditBuffer::from(val));
                },
                GridType::Formatting => {
                    let cell = match self.grid.get_cell_raw(x, y) {
                        Some(v) => Cell::from_value(v.clone()),
                        None => Cell::default(),
                    };
                    self.mode = Mode::Formatting(FormatEditor::new(cell));
                },
            }
            return Ok(());
        } else if key == 'r' {
            let empty = String::new();
            let eb = EditBuffer::from(empty);
            assert(eb@ =~= Seq::<char>::empty());
            self.mode = Mode::Insert(eb);
            return Ok(());
        } else if key == 'I' {
            return match self.grid.insert_column_before((x, y)) {
                Ok(()) => Ok(()),
                Err(e) => Err(KeyFault::Grid(e)),
            };
        } else if key == 'A' {
            match self.grid.insert_column_after((x, y)) {
                Ok(()) => {},
                Err(e) => {
                    return Err(KeyFault::Grid(e));
                },
            }
            let ghost mid = self.grid;
            self.grid.mv_cursor_to(x + 1, y);
            proof {
                crate::grid::lemma_same_current(self.grid, mid);
                assert forall|a: int, b: int| #[trigger] self.grid.cell(a, b) == mid.cell(a, b) by {}
            }
            return Ok(());
        } else if key == 'o' {
            match self.grid.insert_row_below((x, y)) {
                Ok(()) => {},
                Err(e) => {
                    return Err(KeyFault::Grid(e));
                },
            }
            let ghost mid = self.grid;
            self.grid.mv_cursor_to(x, y + 1);
            proof {
                crate::grid::lemma_same_current(self.grid, mid);
                assert forall|a: int, b: int| #[trigger] self.grid.cell(a, b) == mid.cell(a, b) by {}
            }
            return Ok(());
        } else if key == 'O' {
            return match self.grid.insert_row_above((x, y)) {
                Ok(()) => Ok(()),
                Err(e) => Err(KeyFault::Grid(e)),
            };
        } else if key == 'v' {
            self.mode = Mode::Visual((x, y));
            return Ok(());
        } else if key == ':' {
            match self.mode {
                Mode::Visual(pos) => {
                    self.mode = Mode::VisualCmd(pos, EditBuffer::new(':'));
                },
                _ => {
                    self.mode = Mode::Command(EditBuffer::new(':'));
                },
            }
            return Ok(());
        } else if key == 'u' {
            self.grid.undo();
            return Ok(());
        } else if key == 'p' {
            return self.paste_and_move();
        }
        match self.mode {
            Mode::Visual(pos) => {
                if key == 'd' || key == 'x' {
                    self.clipboard.clipboard_cut(pos, (x, y), &mut self.grid);
                    self.mode = Mode::Normal;
                } else if key == 'y' {
                    self.clipboard.clipboard_copy(pos, (x, y), &self.grid);
                    let cb = self.clipboard.copied();
                    let w = cb.len();
                    proof {
                        let m = cb@.map_values(|c: Vec<Option<CellType>>| c@);
                        assert(m.len() == cb@.len());
                        assert(self.clipboard.contents().len() >= 1);
                        assert(m[0] == cb@[0]@);
                    }
                    let h = cb[0].len();
                    if w.checked_mul(h).is_none() {
                        return Err(KeyFault::Overflow);
                    }
                    let n = self.clipboard.qty();
                    let mut text = chars_of("Yanked ");
                    append_all(&mut text, &usize_to_decimal(n));
                    append_all(&mut text, &chars_of(" cells"));
                    let t = string_of(&text);
                    self.msg = StatusMessage::info(t.as_str());
                    self.mode = Mode::Normal;
                }
            },
            _ => {
                self.mode = Mode::Chord(EditBuffer::new(key));
            },
        }
        Ok(())
    }
}

/// A repeated key keeps chords it starts in check: the key is a letter,
/// and a chord being typed starts with it.
pub open spec fn repeat_ok(m: Mode, key: char) -> bool {
    &&& alphabetic(key)
    &&& m matches Mode::Chord(b) ==> b@.len() > 0 && b@[0] == key
}

/// What a key does while a chord is typed, but for a letter after a
/// count (see `chord_effect`).
pub open spec fn chord_base(o: App, n: App, key: char, r: Result<(), KeyFault>) -> bool {
    match o.mode {
        Mode::Chord(b) => {
            let b2 = b@.push(key);
            let c = o.cursor();
            let stay = r is Ok && n.grid == o.grid && same_besides(n, o) && (n.mode matches Mode::Chord(nb)
                && nb@ == b2);
            let moved_to = |t: (usize, usize)|
                r is Ok && n.cursor() == t && same_sheet(n.grid, o.grid) && n.mode is Normal && same_besides(n, o);
            if b2[0] == ':' {
                r is Ok && n.grid == o.grid && same_besides(n, o) && (n.mode matches Mode::Command(nb) && nb@ == seq![':'])
            } else if (key as u32) >= 128 {
                r == Err::<(), KeyFault>(KeyFault::Slice)
            } else {
                match parse_usize_spec(b@) {
                    Some(num) => if key == 'G' {
                        moved_to((c.0, num))
                    } else if alphabetic(key) {
                        false
                    } else {
                        stay
                    },
                    None => if b@ == seq!['d'] && (key == ' ' || key == 'w') {
                        r is Ok && cut_from(o, n, c, c) && n.mode is Normal
                    } else if b@ == seq!['g'] && key == 'g' {
                        moved_to((c.0, 0usize))
                    } else if b@ == seq!['g'] && key == 'G' {
                        let to = o.screen.scroll_at().1 + o.screen.cells_down(o.vars@);
                        if !o.screen.sized(o.vars@) {
                            r == Err::<(), KeyFault>(KeyFault::Screen)
                        } else if to > usize::MAX {
                            r == Err::<(), KeyFault>(KeyFault::Overflow)
                        } else {
                            moved_to((c.0, to as usize))
                        }
                    } else if b@ == seq!['g'] && key == '$' {
                        let to = o.screen.scroll_at().0 + o.screen.cells_across(o.vars@);
                        if !o.screen.sized(o.vars@) {
                            r == Err::<(), KeyFault>(KeyFault::Screen)
                        } else if to > usize::MAX {
                            r == Err::<(), KeyFault>(KeyFault::Overflow)
                        } else {
                            moved_to((to as usize, c.1))
                        }
                    } else if b@ == seq!['g'] && key == '0' {
                        moved_to((o.screen.scroll_at().0, c.1))
                    } else if b@ == seq!['z'] && key == 'z' {
                        if !o.screen.sized(o.vars@) {
                            r == Err::<(), KeyFault>(KeyFault::Screen)
                        } else if !centers(o.screen, o.vars@, c) {
                            r == Err::<(), KeyFault>(KeyFault::Overflow)
                        } else {
                            &&& r is Ok
                            &&& n.screen.scroll_at() == centered(o.screen, o.vars@, c)
                            &&& n.screen.seen() == o.screen.seen()
                            &&& n.screen.defaults() == o.screen.defaults()
                            &&& n.grid == o.grid
                            &&& n.mode is Normal
                            &&& n.exit == o.exit && n.file == o.file && n.msg == o.msg && n.vars == o.vars
                            &&& n.marks == o.marks && n.clipboard == o.clipboard
                        }
                    } else if b@ == seq!['m'] {
                        &&& r is Ok
                        &&& n.marks@ == o.marks@.insert(key, c)
                        &&& n.grid == o.grid
                        &&& n.mode is Normal
                        &&& n.exit == o.exit && n.file == o.file && n.msg == o.msg && n.vars == o.vars
                        &&& n.screen == o.screen && n.clipboard == o.clipboard
                    } else if b@ == seq!['\''] {
                        moved_to(if o.marks@.contains_key(key) { o.marks@[key] } else { c })
                    } else if b@ == seq!['y'] && key == 'y' {
                        r is Ok && copied_from(o, n, c, c) && n.mode is Normal && n.msg.kind() == MsgType::Info
                            && n.msg.text() == Some("Yanked 1 cell"@)
                    } else if b@ == seq!['g'] && key == 'p' {
                        let q = o.clipboard.contents().len() * o.clipboard.contents()[0].len();
                        &&& !paste_possible(o) ==> r is Err && paste_effect(o, n, r)
                        &&& paste_possible(o) ==> (
                            if o.clipboard.contents().len() == 0 {
                                r == Err::<(), KeyFault>(KeyFault::EmptyClipboard)
                            } else if q > usize::MAX {
                                r == Err::<(), KeyFault>(KeyFault::Overflow)
                            } else {
                                &&& r is Ok
                                &&& pasted(o, n)
                                &&& n.mode is Normal
                                &&& n.msg.kind() == MsgType::Info
                                &&& n.msg.text() == Some(if q > 1 { "Pasted cells, no formatting"@ } else { "Pasted cell, no formatting"@ })
                            })
                    } else {
                        stay
                    },
                }
            }
        },
        _ => true,
    }
}

/// A letter typed after a count `num` in a chord `b`.
pub open spec fn count_letter(b: Seq<char>, key: char) -> Option<usize> {
    if b.push(key)[0] != ':' && (key as u32) < 128 && key != 'G' && alphabetic(key) {
        parse_usize_spec(b)
    } else {
        None
    }
}

/// What a key does while a chord is typed: a letter after a count is
/// pressed that many times (when `top` is set; a repeated press never
/// meets one), the rest as `chord_base` says.
pub open spec fn chord_effect(o: App, n: App, key: char, r: Result<(), KeyFault>, top: bool) -> bool {
    match o.mode {
        Mode::Chord(b) => match count_letter(b@, key) {
            Some(num) => top && repeated(o, n, key, num as nat, r) && (motion(o.cursor(), key) is Some ==> r is Ok
                && n.cursor() == motion_n(o.cursor(), key, num as nat) && same_sheet(n.grid, o.grid) && n.mode is Normal
                && same_besides(n, o)),
            None => chord_base(o, n, key, r),
        },
        _ => true,
    }
}

/// What a key pressed again by a count does.
pub open spec fn nested_effect(o: App, n: App, key: char, r: Result<(), KeyFault>) -> bool {
    match o.mode {
        Mode::Normal => normal_effect(o, n, key, r),
        Mode::Visual(_) => normal_effect(o, n, key, r),
        Mode::Chord(_) => chord_base(o, n, key, r),
        _ => r is Ok && n == o,
    }
}

/// Each state of `s` is the one before it after `key` is pressed.
pub open spec fn presses(s: Seq<App>, key: char) -> bool {
    forall|j: int, k: int| 0 <= j && k == j + 1 && k < s.len() ==> #[trigger] nested_effect(s[j], s[k], key, Ok(()))
}

/// `n` is `o`, put in normal mode, after `key` is pressed `num` times, or
/// the fault of the press that failed.
pub open spec fn repeated(o: App, n: App, key: char, num: nat, r: Result<(), KeyFault>) -> bool {
    exists|s: Seq<App>|
        #[trigger] presses(s, key) && s.len() >= 1 && s[0].mode is Normal && s[0].grid == o.grid && same_besides(
            s[0],
            o,
        ) && (r is Ok ==> s.len() == num + 1 && s.last() == n) && (r is Err ==> s.len() <= num && nested_effect(
            s.last(),
            n,
            key,
            r,
        ))
}

/// Centring the window on `c` stays within the integer types.
pub open spec fn centers(s: ScreenSpace, vars: Map<Seq<char>, Seq<char>>, c: (usize, usize)) -> bool {
    let xc = s.scroll_at().0 + s.cells_across(vars) / 2;
    let yc = s.scroll_at().1 + s.cells_down(vars) / 2;
    &&& xc <= usize::MAX
    &&& isize::MIN <= center_delta(c.0, xc as usize) <= isize::MAX
    &&& yc <= usize::MAX
    &&& isize::MIN <= center_delta(c.1, yc as usize) <= isize::MAX
}

/// The scroll position that centres the window on `c`.
pub open spec fn centered(s: ScreenSpace, vars: Map<Seq<char>, Seq<char>>, c: (usize, usize)) -> (usize, usize) {
    let xc = s.scroll_at().0 + s.cells_across(vars) / 2;
    let yc = s.scroll_at().1 + s.cells_down(vars) / 2;
    (saturate(s.scroll_at().0 + center_delta(c.0, xc as usize)), saturate(s.scroll_at().1 + center_delta(c.1, yc as usize)))
}

proof fn lemma_letter_not_number(s: Seq<char>)
    requires
        s.len() > 0,
        alphabetic(s[0]),
    ensures
        parse_usize_spec(s) is None,
{
    assert(s[0] != '+');
    assert(!is_digit(s[0]));
    assert(!crate::text::all_digits(s));
}

impl App {
    /// A key while a chord is typed (see `chord_effect`).
    fn chord_key(&mut self, key: char, top: bool) -> (r: Result<(), KeyFault>)
        requires
            old(self).wf(),
            old(self).mode is Chord,
            !top ==> repeat_ok(old(self).mode, key),
        ensures
            final(self).wf(),
            chord_effect(*old(self), *final(self), key, r, top),
            !top && r is Ok ==> repeat_ok(final(self).mode, key),
        decreases if top { 3int } else { 0int },
    {
        let b: Vec<char> = match &self.mode {
            Mode::Chord(c) => c.chars().clone(),
            _ => Vec::new(),
        };
        let mut b2 = b.clone();
        b2.push(key);
        if b2[0] == ':' {
            self.mode = Mode::Command(EditBuffer::new(':'));
            return Ok(());
        }
        if (key as u32) >= 128 {
            return Err(KeyFault::Slice);
        }
        let (x, y) = self.grid.cursor();
        match crate::text::parse_usize(&b) {
            Some(num) => {
                proof {
                    if !top {
                        lemma_letter_not_number(b@);
                    }
                }
                if key == 'G' {
                    self.grid.mv_cursor_to(x, num);
                    self.mode = Mode::Normal;
                    return Ok(());
                }
                if key.is_alphabetic() {
                    self.mode = Mode::Normal;
                    return self.repeat_key(key, num);
                }
                self.mode = Mode::Chord(EditBuffer::from_chars(b2));
                return Ok(());
            },
            None => {},
        }
        let one = b.len() == 1;
        proof {
            if one {
                assert(b@ =~= seq![b@[0]]);
            }
        }
        if one && b[0] == 'd' && (key == ' ' || key == 'w') {
            self.clipboard.clipboard_cut((x, y), (x, y), &mut self.grid);
            self.mode = Mode::Normal;
        } else if one && b[0] == 'g' && key == 'g' {
            self.grid.mv_cursor_to(x, 0);
            self.mode = Mode::Normal;
        } else if one && b[0] == 'g' && key == 'G' {
            if !self.screen_sized() {
                return Err(KeyFault::Screen);
            }
            let (_, y_height) = self.screen.get_screen_size(&self.vars);
            let y_origin = self.screen.scroll_y();
            match y_origin.checked_add(y_height) {
                Some(t) => {
                    self.grid.mv_cursor_to(x, t);
                },
                None => {
                    return Err(KeyFault::Overflow);
                },
            }
            self.mode = Mode::Normal;
        } else if one && b[0] == 'g' && key == '$' {
            if !self.screen_sized() {
                return Err(KeyFault::Screen);
            }
            let (x_width, _) = self.screen.get_screen_size(&self.vars);
            let x_origin = self.screen.scroll_x();
            match x_origin.checked_add(x_width) {
                Some(t) => {
                    self.grid.mv_cursor_to(t, y);
                },
                None => {
                    return Err(KeyFault::Overflow);
                },
            }
            self.mode = Mode::Normal;
        } else if one && b[0] == 'g' && key == '0' {
            let x_origin = self.screen.scroll_x();
            self.grid.mv_cursor_to(x_origin, y);
            self.mode = Mode::Normal;
        } else if one && b[0] == 'z' && key == 'z' {
            if !self.screen_sized() {
                return Err(KeyFault::Screen);
            }
            if !self.can_center((x, y)) {
                return Err(KeyFault::Overflow);
            }
            self.screen.center_x((x, y), &self.vars);
            self.screen.center_y((x, y), &self.vars);
            self.mode = Mode::Normal;
        } else if one && b[0] == 'm' {
            self.marks.insert(key, (x, y));
            self.mode = Mode::Normal;
        } else if one && b[0] == '\'' {
            match self.marks.get(&key) {
                Some(p) => {
                    let (cx, cy) = *p;
                    self.grid.mv_cursor_to(cx, cy);
                },
                None => {},
            }
            self.mode = Mode::Normal;
        } else if one && b[0] == 'y' && key == 'y' {
            self.clipboard.clipboard_copy((x, y), (x, y), &self.grid);
            self.mode = Mode::Normal;
            self.msg = StatusMessage::info("Yanked 1 cell");
        } else if one && b[0] == 'g' && key == 'p' {
            match self.paste_and_move() {
                Ok(()) => {},
                Err(e) => {
                    return Err(e);
                },
            }
            self.mode = Mode::Normal;
            let cb = self.clipboard.copied();
            let w = cb.len();
            if w == 0 {
                return Err(KeyFault::EmptyClipboard);
            }
            proof {
                let m = cb@.map_values(|c: Vec<Option<CellType>>| c@);
                assert(m.len() == cb@.len());
                assert(m[0] == cb@[0]@);
            }
            let h = cb[0].len();
            if w.checked_mul(h).is_none() {
                return Err(KeyFault::Overflow);
            }
            let q = self.clipboard.qty();
            if q > 1 {
                self.msg = StatusMessage::info("Pasted cells, no formatting");
            } else {
                self.msg = StatusMessage::info("Pasted cell, no formatting");
            }
        } else {
            self.mode = Mode::Chord(EditBuffer::from_chars(b2));
        }
        Ok(())
    }

    /// Presses `key` `num` times, from normal mode.
    fn repeat_key(&mut self, key: char, num: usize) -> (r: Result<(), KeyFault>)
        requires
            old(self).wf(),
            old(self).mode is Normal,
            alphabetic(key),
        ensures
            final(self).wf(),
            motion(old(self).cursor(), key) is Some ==> r is Ok && final(self).cursor() == motion_n(
                old(self).cursor(),
                key,
                num as nat,
            ) && same_sheet(final(self).grid, old(self).grid) && final(self).mode is Normal && same_besides(
                *final(self),
                *old(self),
            ),
            repeated(*old(self), *final(self), key, num as nat, r),
        decreases 2int,
    {
        let ghost o1 = *self;
        let ghost c = self.cursor();
        let ghost mut states: Seq<App> = seq![*self];
        let mut i: usize = 0;
        while i < num
            invariant
                i <= num,
                self.wf(),
                alphabetic(key),
                repeat_ok(self.mode, key),
                states.len() == i + 1,
                states[0] == o1,
                o1 == *old(self),
                o1.mode is Normal,
                states.last() == *self,
                presses(states, key),
                motion(c, key) is Some ==> self.mode is Normal && self.cursor() == motion_n(c, key, i as nat)
                    && same_sheet(self.grid, o1.grid) && same_besides(*self, o1),
            decreases num - i,
        {
            assert((motion(self.cursor(), key) is Some) == (motion(c, key) is Some));
            let ghost pre = *self;
            match self.step(key, false) {
                Ok(()) => {},
                Err(e) => {
                    proof {
                        if motion(c, key) is Some {
                            assert(pre.mode is Normal);
                            assert(normal_effect(pre, *self, key, Err(e)));
                            assert(false);
                        }
                        assert(presses(states, key));
                        assert(states.last() == pre);
                        assert(nested_effect(states.last(), *self, key, Err(e)));
                        assert(states.len() <= num);
                    }
                    return Err(e);
                },
            }
            proof {
                let next = states.push(*self);
                assert(nested_effect(pre, *self, key, Ok(())));
                assert forall|j: int, k: int| 0 <= j && k == j + 1 && k < next.len() implies #[trigger] nested_effect(next[j], next[k], key, Ok(())) by {
                    if k < states.len() {
                        assert(next[j] == states[j] && next[k] == states[k]);
                        assert(nested_effect(states[j], states[k], key, Ok(())));
                    } else {
                        assert(next[j] == pre && next[k] == *self);
                    }
                }
                states = next;
            }
            i = i + 1;
        }
        assert(presses(states, key));
        Ok(())
    }

    /// Whether the screen size is known and holds two cells each way.
    fn screen_sized(&self) -> (r: bool)
        ensures
            r == self.screen.sized(self.vars@),
    {
        let w = self.screen.get_cell_width(&self.vars);
        let h = self.screen.get_cell_height(&self.vars);
        if w == 0 || h == 0 {
            return false;
        }
        let (sw, sh) = self.screen_seen();
        sw / w >= 2 && sh / h >= 2
    }

    /// Whether centring the window on `c` stays within the integer types.
    fn can_center(&self, c: (usize, usize)) -> (r: bool)
        requires
            self.screen.sized(self.vars@),
        ensures
            r == centers(self.screen, self.vars@, c),
    {
        let (xs, ys) = self.screen.get_screen_size(&self.vars);
        let xc = match self.screen.scroll_x().checked_add(xs / 2) {
            Some(v) => v,
            None => {
                return false;
            },
        };
        let yc = match self.screen.scroll_y().checked_add(ys / 2) {
            Some(v) => v,
            None => {
                return false;
            },
        };
        let dx: i128 = (#[verifier::truncate] (c.0 as isize)) as i128 - (#[verifier::truncate] (xc as isize)) as i128;
        let dy: i128 = (#[verifier::truncate] (c.1 as isize)) as i128 - (#[verifier::truncate] (yc as isize)) as i128;
        isize::MIN as i128 <= dx && dx <= isize::MAX as i128 && isize::MIN as i128 <= dy && dy <= isize::MAX as i128
    }

    fn screen_seen(&self) -> (r: (usize, usize))
        ensures
            r == self.screen.seen(),
    {
        self.screen.seen_size()
    }
}

/// What a key does, whatever the mode: keys typed into a line or the
/// formatting editor are handled elsewhere and change nothing here.
pub open spec fn key_effect(o: App, n: App, key: char, r: Result<(), KeyFault>, top: bool) -> bool {
    match o.mode {
        Mode::Normal => normal_effect(o, n, key, r),
        Mode::Visual(_) => normal_effect(o, n, key, r),
        Mode::Chord(_) => chord_effect(o, n, key, r, top),
        _ => r is Ok && n == o,
    }
}

/// Where the movement keys take the cursor in normal or visual mode: `h`
/// and `b` one column left and `l` and `w` one column right (held at the
/// sheet's edges), `k` one row up and `j` one row down (likewise), `0` to
/// the first column and `$` to the last column of the same row, and `G` to
/// the last row of the same column.
pub proof fn lemma_motion_keys(o: App, n: App, key: char, r: Result<(), KeyFault>)
    requires
        o.mode is Normal || o.mode is Visual,
        key_effect(o, n, key, r, true),
    ensures
        key == '$' ==> r is Ok && n.cursor() == ((LEN - 1) as usize, o.cursor().1),
        key == '0' ==> r is Ok && n.cursor() == (0usize, o.cursor().1),
        key == 'G' ==> r is Ok && n.cursor() == (o.cursor().0, (LEN - 1) as usize),
        (key == 'h' || key == 'b') ==> r is Ok && n.cursor().1 == o.cursor().1 && n.cursor().0 == (if o.cursor().0
            > 0 {
            o.cursor().0 - 1
        } else {
            0
        }),
        (key == 'l' || key == 'w') ==> r is Ok && n.cursor().1 == o.cursor().1 && n.cursor().0 == (if o.cursor().0
            + 1 < LEN - 1 {
            o.cursor().0 + 1
        } else {
            LEN - 1
        }),
        key == 'k' ==> r is Ok && n.cursor().0 == o.cursor().0 && n.cursor().1 == (if o.cursor().1 > 0 {
            o.cursor().1 - 1
        } else {
            0
        }),
        key == 'j' ==> r is Ok && n.cursor().0 == o.cursor().0 && n.cursor().1 == (if o.cursor().1 + 1 < LEN
            - 1 {
            o.cursor().1 + 1
        } else {
            LEN - 1
        }),
{
}

impl App {
    fn step(&mut self, key: char, top: bool) -> (r: Result<(), KeyFault>)
        requires
            old(self).wf(),
            !top ==> repeat_ok(old(self).mode, key),
        ensures
            final(self).wf(),
            key_effect(*old(self), *final(self), key, r, top),
            !top ==> nested_effect(*old(self), *final(self), key, r),
            !top && r is Ok ==> repeat_ok(final(self).mode, key),
        decreases if top { 4int } else { 1int },
    {
        let kind: u8 = match &self.mode {
            Mode::Normal => 0,
            Mode::Visual(_) => 0,
            Mode::Chord(_) => 1,
            _ => 2,
        };
        if kind == 0 {
            self.normal_key(key)
        } else if kind == 1 {
            self.chord_key(key, top)
        } else {
            Ok(())
        }
    }
}

impl Mode {
    /// Handles a key pressed in normal, visual or chord mode (see
    /// `key_effect`). A count typed before a letter repeats it; a count
    /// before `G` goes to that row.
    pub fn process_key(app: &mut App, key: char) -> (r: Result<(), KeyFault>)
        requires
            old(app).wf(),
        ensures
            final(app).wf(),
            key_effect(*old(app), *final(app), key, r, true),
    {
        app.step(key, true)
    }
}

/// The last part of a path, as `std::path::Path::file_name` reads it.
pub uninterp spec fn file_name_of(path: Seq<char>) -> Option<Seq<char>>;

/// `std::path::Path::file_name`: the final part of the path, none when the
/// path ends in `..` or is a root.
#[verifier::external_body]
fn path_file_name(path: &str) -> (r: Option<String>)
    ensures
        match r {
            Some(n) => file_name_of(path@) == Some(n@),
            None => file_name_of(path@) is None,
        },
{
    match std::path::Path::new(path).file_name() {
        Some(n) => Some(n.to_string_lossy().into_owned()),
        None => None,
    }
}

/// Work a command leaves to the caller: files and other programs.
pub enum Effect {
    /// Nothing to do.
    Nothing,
    /// Save the sheet to `path` (see `Grid::save_target`, `Grid::csv_text`),
    /// then `report` the outcome.
    Save { path: String },
    /// Save `sheet`, a block of the sheet, to `path`; `report` a failure.
    Export { path: String, sheet: Grid },
    /// Save `sheet` as the plot's data, run the plotting program with
    /// `title`, copy its picture to `output`, and `report` the outcome.
    Plot { output: String, sheet: Grid, title: String },
    /// Read each text as a number where it is one and hand the readings to
    /// `App::fill`; `texts` is indexed `[x][y]` from the block's top-left
    /// cell `at`.
    Fill { at: (usize, usize), texts: Vec<Vec<String>> },
    /// Read `text` as a number where it is one and hand the reading to
    /// `App::commit` for the cell `pos`.
    Commit { pos: (usize, usize), text: String },
}

/// Where the data of a plot is written.
pub const PLOT_DATA: &'static str = "/tmp/plot.csv";

/// Where the plotting program writes its picture.
pub const PLOT_PICTURE: &'static str = "/tmp/output.png";

/// The plotting program's script: `template` with `$FILE` replaced by the
/// data's path, `$TITLE` by `title`, `$XLABEL` and `$YLABEL` by fixed
/// labels and `$OUTPUT` by the picture's path, in that order.
pub open spec fn plot_script_spec(template: Seq<char>, title: Seq<char>) -> Seq<char> {
    let s = replace_spec(template, "$FILE"@, PLOT_DATA@);
    let s = replace_spec(s, "$TITLE"@, title);
    let s = replace_spec(s, "$XLABEL"@, "hard-coded x"@);
    let s = replace_spec(s, "$YLABEL"@, "hard-coded y"@);
    replace_spec(s, "$OUTPUT"@, PLOT_PICTURE@)
}

/// The plotting program's script (see `plot_script_spec`).
pub fn plot_script(template: &str, title: &str) -> (r: String)
    ensures
        r@ == plot_script_spec(template@, title@),
{
    let s = chars_of(template);
    let s = replace_all(&s, &chars_of("$FILE"), &chars_of(PLOT_DATA));
    let s = replace_all(&s, &chars_of("$TITLE"), &chars_of(title));
    let s = replace_all(&s, &chars_of("$XLABEL"), &chars_of("hard-coded x"));
    let s = replace_all(&s, &chars_of("$YLABEL"), &chars_of("hard-coded y"));
    let s = replace_all(&s, &chars_of("$OUTPUT"), &chars_of(PLOT_PICTURE));
    string_of(&s)
}

/// How the caller's part of a command went.
pub enum Outcome {
    /// The sheet was saved to this path.
    Saved(String),
    /// Saving failed with this error.
    SaveFailed(String),
    /// Exporting a block failed.
    ExportFailed,
    /// The plot was written to this file.
    Plotted(String),
    /// The plotting program is not installed.
    PlotMissing,
    /// Plotting failed with this error.
    PlotFailed(String),
}

/// The text a fill writes in the cell `(x, y)`, the `(i, j)`-th of the
/// block: `xi`, `yi`, `x` and `y` in `arg` replaced, in that order, by
/// those numbers.
pub open spec fn fill_text(arg: Seq<char>, i: nat, j: nat, x: nat, y: nat) -> Seq<char> {
    replace_spec(replace_spec(replace_spec(replace_spec(arg, "xi"@, decimal(i)), "yi"@, decimal(j)), "x"@, decimal(x)), "y"@, decimal(y))
}

proof fn lemma_replace_absent(s: Seq<char>, p: Seq<char>, t: Seq<char>)
    requires
        p.len() > 0,
        forall|j: int| 0 <= j < s.len() ==> #[trigger] s[j] != p[0],
    ensures
        replace_spec(s, p, t) == s,
    decreases s.len(),
{
    if s.len() >= p.len() {
        assert(s.take(p.len() as int)[0] != p[0]);
        let r = s.drop_first();
        assert forall|j: int| 0 <= j < r.len() implies #[trigger] r[j] != p[0] by {
            assert(r[j] == s[j + 1]);
        }
        lemma_replace_absent(r, p, t);
        assert(seq![s[0]] + r =~= s);
    }
}

proof fn lemma_replace_whole(p: Seq<char>, t: Seq<char>)
    requires
        p.len() > 0,
    ensures
        replace_spec(p, p, t) == t,
{
    assert(p.take(p.len() as int) =~= p);
    assert(p.skip(p.len() as int) =~= Seq::<char>::empty());
    assert(replace_spec(Seq::<char>::empty(), p, t) == Seq::<char>::empty());
    assert(t + Seq::<char>::empty() =~= t);
}

proof fn lemma_digits_unchanged(n: nat, p: Seq<char>, t: Seq<char>)
    requires
        p.len() > 0,
        !is_digit(p[0]),
    ensures
        replace_spec(decimal(n), p, t) == decimal(n),
{
    lemma_decimal_digits(n);
    assert forall|j: int| 0 <= j < decimal(n).len() implies #[trigger] decimal(n)[j] != p[0] by {
        assert(is_digit(decimal(n)[j]));
    }
    lemma_replace_absent(decimal(n), p, t);
}

/// In a fill, `xi` and `yi` stand for the cell's offset inside the block
/// (counted from 0, wherever the block lies) and `x` and `y` for the cell's
/// own column and row: a fill of `xi` writes `i` in the `(i, j)`-th cell of
/// the block, of `yi` writes `j`, of `x` writes its column and of `y` its
/// row.
pub proof fn lemma_fill_placeholders(i: nat, j: nat, x: nat, y: nat)
    ensures
        fill_text("xi"@, i, j, x, y) == decimal(i),
        fill_text("yi"@, i, j, x, y) == decimal(j),
        fill_text("x"@, i, j, x, y) == decimal(x),
        fill_text("y"@, i, j, x, y) == decimal(y),
{
    reveal_strlit("xi");
    reveal_strlit("yi");
    reveal_strlit("x");
    reveal_strlit("y");
    let xi = "xi"@;
    let yi = "yi"@;
    let xs = "x"@;
    let ys = "y"@;
    // `xi`
    lemma_replace_whole(xi, decimal(i));
    lemma_digits_unchanged(i, yi, decimal(j));
    lemma_digits_unchanged(i, xs, decimal(x));
    lemma_digits_unchanged(i, ys, decimal(y));
    // `yi`
    lemma_replace_absent(yi, xi, decimal(i));
    lemma_replace_whole(yi, decimal(j));
    lemma_digits_unchanged(j, xs, decimal(x));
    lemma_digits_unchanged(j, ys, decimal(y));
    // `x`
    lemma_replace_absent(xs, yi, decimal(j));
    assert(replace_spec(xs, xi, decimal(i)) == xs);
    lemma_replace_whole(xs, decimal(x));
    lemma_digits_unchanged(x, ys, decimal(y));
    // `y`
    assert(replace_spec(ys, xi, decimal(i)) == ys);
    assert(replace_spec(ys, yi, decimal(j)) == ys);
    lemma_replace_absent(ys, xs, decimal(x));
    lemma_replace_whole(ys, decimal(y));
}

/// The command words typed in `b`, after its first character.
pub open spec fn command_words(b: Seq<char>) -> Seq<Seq<char>> {
    words(b.drop_first())
}

/// The name a plot is titled with: the file's name, else `unknown`.
pub open spec fn project_name(file: Option<String>) -> Seq<char> {
    match file {
        Some(f) => match file_name_of(f@) {
            Some(n) => n,
            None => "unknown"@,
        },
        None => "unknown"@,
    }
}

/// What a `:` command typed in normal mode does.
pub open spec fn command_effect(o: App, n: App, b: Seq<char>, r: Result<Effect, KeyFault>) -> bool {
    let args = command_words(b);
    let unchanged = r matches Ok(Effect::Nothing) && n == o;
    if b.len() == 0 || (b[0] as u32) >= 128 {
        r == Err::<Effect, KeyFault>(KeyFault::Slice)
    } else if args.len() == 0 {
        unchanged
    } else if args[0] == "format"@ || args[0] == "edit"@ {
        &&& r matches Ok(Effect::Nothing)
        &&& n.grid.mode_of() == (if args[0] == "format"@ { GridType::Formatting } else { GridType::Values })
        &&& n.grid.history() == o.grid.history()
        &&& n.grid.current_index() == o.grid.current_index()
        &&& n.grid.cursor_at() == o.grid.cursor_at()
        &&& n.grid.is_dirty() == o.grid.is_dirty()
        &&& n.mode == o.mode
        &&& same_besides(n, o)
    } else if args[0] == "w"@ {
        if args.len() > 1 {
            (r matches Ok(Effect::Save { path }) && path@ == args[1]) && n == o
        } else if o.file is Some {
            (r matches Ok(Effect::Save { path }) && path@ == o.file.unwrap()@) && n == o
        } else {
            &&& r matches Ok(Effect::Nothing)
            &&& n.msg.kind() == MsgType::Error && n.msg.text() == Some("No file selected"@)
            &&& n.grid == o.grid && n.mode == o.mode && n.exit == o.exit && n.file == o.file
            &&& n.vars == o.vars && n.screen == o.screen && n.marks == o.marks && n.clipboard == o.clipboard
        }
    } else if args[0] == "q"@ || args[0] == "q!"@ {
        let keep = args[0] == "q"@ && o.grid.is_dirty();
        &&& r matches Ok(Effect::Nothing)
        &&& n.exit == !keep
        &&& keep ==> n.msg.kind() == MsgType::Error && n.msg.text() == Some("File not saved"@)
        &&& !keep ==> n.msg == o.msg
        &&& n.grid == o.grid && n.mode == o.mode && n.file == o.file
        &&& n.vars == o.vars && n.screen == o.screen && n.marks == o.marks && n.clipboard == o.clipboard
    } else if args[0] == "set"@ {
        &&& r matches Ok(Effect::Nothing)
        &&& n.vars@ == (if args.len() > 1 && key_value(args[1]) is Some {
            o.vars@.insert(key_value(args[1]).unwrap().0, key_value(args[1]).unwrap().1)
        } else {
            o.vars@
        })
        &&& n.msg.kind() == MsgType::Error && n.msg.text() == Some("set <key>=<value>"@)
        &&& n.grid == o.grid && n.mode == o.mode && n.exit == o.exit && n.file == o.file
        &&& n.screen == o.screen && n.marks == o.marks && n.clipboard == o.clipboard
    } else {
        unchanged
    }
}

/// What a `:` command typed for the block from `p` to the cursor does.
pub open spec fn block_command_effect(o: App, n: App, p: (usize, usize), b: Seq<char>, r: Result<Effect, KeyFault>) -> bool {
    let args = command_words(b);
    let c = o.cursor();
    let (lx, hx) = low_high(p.0, c.0);
    let (ly, hy) = low_high(p.1, c.1);
    let rest_same = n.exit == o.exit && n.file == o.file && n.vars == o.vars && n.screen == o.screen
        && n.marks == o.marks && n.clipboard == o.clipboard;
    if b.len() == 0 || (b[0] as u32) >= 128 {
        r == Err::<Effect, KeyFault>(KeyFault::Slice)
    } else if args.len() == 0 {
        r matches Ok(Effect::Nothing) && n == o
    } else if args[0] == "f"@ || args[0] == "fill"@ {
        if args.len() > 1 {
            if hx >= LEN || hy >= LEN {
                r == Err::<Effect, KeyFault>(KeyFault::Grid(GridFault::OutOfGrid))
            } else {
                &&& r matches Ok(Effect::Fill { at, texts }) && at == (lx, ly) && texts@.len() == hx - lx + 1
                    && forall|i: int|
                    0 <= i < texts@.len() ==> (#[trigger] texts@[i])@.len() == hy - ly + 1 && forall|j: int|
                        0 <= j < hy - ly + 1 ==> (#[trigger] texts@[i]@[j])@ == fill_text(
                            args[1],
                            i as nat,
                            j as nat,
                            (lx + i) as nat,
                            (ly + j) as nat,
                        )
                &&& n.mode is Normal && n.grid == o.grid && n.msg == o.msg && rest_same
            }
        } else {
            &&& r matches Ok(Effect::Nothing)
            &&& n.grid.transacted_from(o.grid) && n.grid.current().same_cells(o.grid.current())
            &&& n.mode is Normal && n.msg == o.msg && rest_same
        }
    } else if args[0] == "export"@ {
        if args.len() > 1 {
            if hx - lx >= LEN || hy - ly >= LEN {
                r == Err::<Effect, KeyFault>(KeyFault::Grid(GridFault::OutOfGrid))
            } else {
                &&& r matches Ok(Effect::Export { path, sheet }) && path@ == args[1] && exported(sheet, o.grid, lx, ly, hx, hy)
                &&& n.mode is Normal && n.grid == o.grid && n.msg == o.msg && rest_same
            }
        } else {
            &&& r matches Ok(Effect::Nothing)
            &&& n.msg.kind() == MsgType::Error && n.msg.text() == Some("export <path.csv>"@)
            &&& n.mode is Normal && n.grid == o.grid && rest_same
        }
    } else if args[0] == "plot"@ {
        if hx - lx >= LEN || hy - ly >= LEN {
            r == Err::<Effect, KeyFault>(KeyFault::Grid(GridFault::OutOfGrid))
        } else {
            &&& r matches Ok(Effect::Plot { output, sheet, title }) && output@ == (if args.len() > 1 {
                args[1]
            } else {
                "plot.png"@
            }) && title@ == project_name(o.file) && exported(sheet, o.grid, lx, ly, hx, hy)
            &&& n.mode is Normal && n.grid == o.grid && n.msg == o.msg && rest_same
        }
    } else {
        r matches Ok(Effect::Nothing) && n == o
    }
}

/// `sheet` holds the block of `g` from `(lx, ly)` to `(hx, hy)` with its
/// top-left cell at `(0, 0)`.
pub open spec fn exported(sheet: Grid, g: Grid, lx: usize, ly: usize, hx: usize, hy: usize) -> bool {
    &&& sheet.wf()
    &&& forall|a: int, b: int|
        #[trigger] sheet.cell(a, b) == (if 0 <= a <= hx - lx && 0 <= b <= hy - ly {
            g.cell(lx + a, ly + b)
        } else {
            None
        })
}

/// What a command does, in either command mode; in any other mode
/// nothing.
pub open spec fn cmd_effect(o: App, n: App, r: Result<Effect, KeyFault>) -> bool {
    match o.mode {
        Mode::Command(b) => command_effect(o, n, b@, r),
        Mode::VisualCmd(p, b) => block_command_effect(o, n, p, b@, r),
        _ => r matches Ok(Effect::Nothing) && n == o,
    }
}

/// Whether `w` reads `lit`.
fn word_is(w: &Vec<char>, lit: &str) -> (r: bool)
    ensures
        r == (w@ == lit@),
{
    let l = chars_of(lit);
    crate::text::chars_eq(w, &l)
}

/// The texts a fill writes in the block from `(lx, ly)` to `(hx, hy)`.
fn fill_texts(arg: &Vec<char>, lx: usize, ly: usize, hx: usize, hy: usize) -> (r: Vec<Vec<String>>)
    requires
        lx <= hx < LEN,
        ly <= hy < LEN,
    ensures
        r@.len() == hx - lx + 1,
        forall|i: int|
            0 <= i < r@.len() ==> (#[trigger] r@[i])@.len() == hy - ly + 1 && forall|j: int|
                0 <= j < hy - ly + 1 ==> (#[trigger] r@[i]@[j])@ == fill_text(arg@, i as nat, j as nat, (lx + i) as nat, (ly + j) as nat),
{
    let xi = chars_of("xi");
    let yi = chars_of("yi");
    let xs = chars_of("x");
    let ys = chars_of("y");
    let mut out: Vec<Vec<String>> = Vec::new();
    let mut i: usize = 0;
    while i < hx - lx + 1
        invariant
            lx <= hx < LEN,
            ly <= hy < LEN,
            xi@ == "xi"@, yi@ == "yi"@, xs@ == "x"@, ys@ == "y"@,
            i <= hx - lx + 1,
            out@.len() == i,
            forall|k: int|
                0 <= k < i ==> (#[trigger] out@[k])@.len() == hy - ly + 1 && forall|j: int|
                    0 <= j < hy - ly + 1 ==> (#[trigger] out@[k]@[j])@ == fill_text(arg@, k as nat, j as nat, (lx + k) as nat, (ly + j) as nat),
        decreases hx - lx + 1 - i,
    {
        let mut col: Vec<String> = Vec::new();
        let mut j: usize = 0;
        while j < hy - ly + 1
            invariant
                lx <= hx < LEN,
                ly <= hy < LEN,
                i < hx - lx + 1,
                xi@ == "xi"@, yi@ == "yi"@, xs@ == "x"@, ys@ == "y"@,
                j <= hy - ly + 1,
                col@.len() == j,
                forall|m: int|
                    0 <= m < j ==> (#[trigger] col@[m])@ == fill_text(arg@, i as nat, m as nat, (lx + i) as nat, (ly + m) as nat),
            decreases hy - ly + 1 - j,
        {
            let t1 = crate::text::replace_all(arg, &xi, &usize_to_decimal(i));
            let t2 = crate::text::replace_all(&t1, &yi, &usize_to_decimal(j));
            let t3 = crate::text::replace_all(&t2, &xs, &usize_to_decimal(lx + i));
            let t4 = crate::text::replace_all(&t3, &ys, &usize_to_decimal(ly + j));
            col.push(string_of(&t4));
            j = j + 1;
        }
        out.push(col);
        i = i + 1;
    }
    out
}

impl Mode {
    /// Carries out the `:` command typed in command mode, or in visual
    /// command mode for the selected block (see `cmd_effect`); the work
    /// with files and other programs is returned as an `Effect`.
    pub fn process_cmd(app: &mut App) -> (r: Result<Effect, KeyFault>)
        requires
            old(app).wf(),
        ensures
            final(app).wf(),
            cmd_effect(*old(app), *final(app), r),
    {
        let (pos, b, block): ((usize, usize), Vec<char>, bool) = match &app.mode {
            Mode::Command(e) => ((0, 0), e.chars().clone(), false),
            Mode::VisualCmd(p, e) => (*p, e.chars().clone(), true),
            _ => {
                return Ok(Effect::Nothing);
            },
        };
        if b.len() == 0 || (b[0] as u32) >= 128 {
            return Err(KeyFault::Slice);
        }
        let mut rest: Vec<char> = Vec::new();
        let mut k: usize = 1;
        while k < b.len()
            invariant
                1 <= k <= b@.len(),
                rest@ == b@.subrange(1, k as int),
            decreases b@.len() - k,
        {
            rest.push(b[k]);
            k = k + 1;
            assert(rest@ =~= b@.subrange(1, k as int));
        }
        assert(rest@ =~= b@.drop_first());
        let args = crate::text::split_words(&rest);
        proof {
            assert forall|m: int| 0 <= m < args@.len() implies #[trigger] args@[m]@ == command_words(b@)[m] by {
                assert(crate::text::views(args@)[m] == args@[m]@);
            }
            assert(crate::text::views(args@).len() == args@.len());
        }
        if args.len() == 0 {
            return Ok(Effect::Nothing);
        }
        if !block {
            if word_is(&args[0], "format") {
                app.grid.set_mode_formatting();
            } else if word_is(&args[0], "edit") {
                app.grid.set_mode_editing();
            } else if word_is(&args[0], "w") {
                if args.len() > 1 {
                    return Ok(Effect::Save { path: string_of(&args[1]) });
                } else {
                    match &app.file {
                        Some(f) => {
                            return Ok(Effect::Save { path: f.clone() });
                        },
                        None => {
                            app.msg = StatusMessage::error("No file selected");
                        },
                    }
                }
            } else if word_is(&args[0], "q") {
                if app.grid.needs_to_be_saved() {
                    app.exit = false;
                    app.msg = StatusMessage::error("File not saved");
                } else {
                    app.exit = true;
                }
            } else if word_is(&args[0], "q!") {
                app.exit = true;
            } else if word_is(&args[0], "set") {
                if args.len() > 1 {
                    match crate::text::split_key_value(&args[1]) {
                        Some((key, value)) => {
                            app.vars.insert(string_of(&key), string_of(&value));
                        },
                        None => {},
                    }
                }
                app.msg = StatusMessage::error("set <key>=<value>");
            }
            return Ok(Effect::Nothing);
        }
        let (x1, y1) = pos;
        let (x2, y2) = app.grid.cursor();
        let (low_x, hi_x) = if x1 < x2 { (x1, x2) } else { (x2, x1) };
        let (low_y, hi_y) = if y1 < y2 { (y1, y2) } else { (y2, y1) };
        if word_is(&args[0], "f") || word_is(&args[0], "fill") {
            if args.len() > 1 {
                if hi_x >= LEN || hi_y >= LEN {
                    return Err(KeyFault::Grid(GridFault::OutOfGrid));
                }
                let texts = fill_texts(&args[1], low_x, low_y, hi_x, hi_y);
                app.mode = Mode::Normal;
                return Ok(Effect::Fill { at: (low_x, low_y), texts });
            } else {
                let none: Vec<Vec<Option<CellType>>> = Vec::new();
                let ghost g0 = app.grid;
                app.grid.transact_merge_block((low_x, low_y), &none);
                proof {
                    assert forall|a: int, b: int| #[trigger] app.grid.current().cell(a, b) == g0.current().cell(a, b) by {
                        assert(app.grid.cell(a, b) == g0.cell(a, b));
                    }
                }
                app.mode = Mode::Normal;
                return Ok(Effect::Nothing);
            }
        } else if word_is(&args[0], "export") {
            if args.len() > 1 {
                let sheet = match app.grid.sub_sheet((low_x, low_y), (hi_x, hi_y)) {
                    Ok(g) => g,
                    Err(e) => {
                        return Err(KeyFault::Grid(e));
                    },
                };
                app.mode = Mode::Normal;
                return Ok(Effect::Export { path: string_of(&args[1]), sheet });
            } else {
                app.msg = StatusMessage::error("export <path.csv>");
                app.mode = Mode::Normal;
                return Ok(Effect::Nothing);
            }
        } else if word_is(&args[0], "plot") {
            let output = if args.len() > 1 { string_of(&args[1]) } else { "plot.png".to_string() };
            let sheet = match app.grid.sub_sheet((low_x, low_y), (hi_x, hi_y)) {
                Ok(g) => g,
                Err(e) => {
                    return Err(KeyFault::Grid(e));
                },
            };
            let title = match &app.file {
                Some(f) => match path_file_name(f.as_str()) {
                    Some(n) => n,
                    None => "unknown".to_string(),
                },
                None => "unknown".to_string(),
            };
            app.mode = Mode::Normal;
            return Ok(Effect::Plot { output, sheet, title });
        }
        Ok(Effect::Nothing)
    }
}

/// The message after saving: `Saved file` and the file's name, or `n/a`.
pub open spec fn saved_text(path: Seq<char>) -> Seq<char> {
    "Saved file "@ + match file_name_of(path) {
        Some(n) => n,
        None => "n/a"@,
    }
}

/// The name the status line shows for the sheet's file: the last part of
/// its path, or `[No Name]` when there is no file or no such part; then
/// `[+]` when the sheet has changes to save.
pub open spec fn file_status(file: Option<String>, dirty: bool) -> Seq<char> {
    (match file {
        Some(f) => match file_name_of(f@) {
            Some(n) => n,
            None => "[No Name]"@,
        },
        None => "[No Name]"@,
    }) + if dirty {
        "[+]"@
    } else {
        Seq::empty()
    }
}

impl App {
    /// The file name shown in the status line (see `file_status`).
    pub fn file_name_display(&self) -> (r: String)
        ensures
            r@ == file_status(self.file, self.grid.is_dirty()),
    {
        let mut text = match &self.file {
            Some(f) => match path_file_name(f.as_str()) {
                Some(n) => chars_of(n.as_str()),
                None => chars_of("[No Name]"),
            },
            None => chars_of("[No Name]"),
        };
        let ghost name = text@;
        if self.grid.needs_to_be_saved() {
            append_all(&mut text, &chars_of("[+]"));
        } else {
            assert(text@ =~= name + Seq::<char>::empty());
        }
        string_of(&text)
    }
}

impl App {
    /// Takes in how the caller's part of a command went: the message to
    /// show, and after a save, the file is adopted when there was none and
    /// the sheet counts as saved.
    pub fn report(&mut self, outcome: Outcome)
        requires
            old(self).wf(),
        ensures
            final(self).wf(),
            match outcome {
                Outcome::Saved(p) => final(self).msg.kind() == MsgType::Info && final(self).msg.text() == Some(saved_text(p@))
                    && final(self).file == (if old(self).file is None { Some(p) } else { old(self).file })
                    && !final(self).grid.is_dirty() && final(self).grid.same_but_dirty(old(self).grid),
                Outcome::SaveFailed(e) => final(self).msg.kind() == MsgType::Error && final(self).msg.text() == Some(e@)
                    && final(self).file == old(self).file && final(self).grid == old(self).grid,
                Outcome::ExportFailed => final(self).msg.kind() == MsgType::Error && final(self).msg.text() == Some("Failed to save file"@)
                    && final(self).file == old(self).file && final(self).grid == old(self).grid,
                Outcome::Plotted(o) => final(self).msg.kind() == MsgType::Info && final(self).msg.text() == Some(
                    "Created "@ + o@ + ". Artifacts are in /tmp"@,
                ) && final(self).file == old(self).file && final(self).grid == old(self).grid,
                Outcome::PlotMissing => final(self).msg.kind() == MsgType::Error && final(self).msg.text() == Some("Error - Is gnuplot installed?"@)
                    && final(self).file == old(self).file && final(self).grid == old(self).grid,
                Outcome::PlotFailed(e) => final(self).msg.kind() == MsgType::Error && final(self).msg.text() == Some(e@)
                    && final(self).file == old(self).file && final(self).grid == old(self).grid,
            },
            final(self).exit == old(self).exit,
            final(self).mode == old(self).mode,
            final(self).vars == old(self).vars,
            final(self).screen == old(self).screen,
            final(self).marks == old(self).marks,
            final(self).clipboard == old(self).clipboard,
    {
        match outcome {
            Outcome::Saved(p) => {
                let mut text = chars_of("Saved file ");
                match path_file_name(p.as_str()) {
                    Some(n) => append_all(&mut text, &chars_of(n.as_str())),
                    None => append_all(&mut text, &chars_of("n/a")),
                }
                let t = string_of(&text);
                self.msg = StatusMessage::info(t.as_str());
                self.grid.mark_saved();
                if self.file.is_none() {
                    self.file = Some(p);
                }
            },
            Outcome::SaveFailed(e) => {
                self.msg = StatusMessage::error(e.as_str());
            },
            Outcome::ExportFailed => {
                self.msg = StatusMessage::error("Failed to save file");
            },
            Outcome::Plotted(o) => {
                let mut text = chars_of("Created ");
                append_all(&mut text, &chars_of(o.as_str()));
                append_all(&mut text, &chars_of(". Artifacts are in /tmp"));
                let t = string_of(&text);
                self.msg = StatusMessage::info(t.as_str());
            },
            Outcome::PlotMissing => {
                self.msg = StatusMessage::error("Error - Is gnuplot installed?");
            },
            Outcome::PlotFailed(e) => {
                self.msg = StatusMessage::error(e.as_str());
            },
        }
    }
}

/// A key as the terminal reports it.
#[derive(Clone, Copy, PartialEq, Eq, Debug)]
pub enum Key {
    Char(char),
    Esc,
    Enter,
    Backspace,
    Left,
    Right,
    Up,
    Down,
    PageUp,
    PageDown,
    Other,
}

/// The character a key stands for in normal mode: the arrows move like
/// `h`, `l`, `k` and `j`.
pub open spec fn normal_char(k: Key) -> Option<char> {
    match k {
        Key::Char(c) => Some(c),
        Key::Left => Some('h'),
        Key::Right => Some('l'),
        Key::Up => Some('k'),
        Key::Down => Some('j'),
        _ => None,
    }
}

/// A key's fault or success, without what it returns.
pub open spec fn unit_of(r: Result<Effect, KeyFault>) -> Result<(), KeyFault> {
    match r {
        Ok(_) => Ok(()),
        Err(e) => Err(e),
    }
}

/// `n` is `o` in mode `m`.
pub open spec fn only_mode(o: App, n: App, m: Mode) -> bool {
    n.mode == m && n.grid == o.grid && same_besides(n, o)
}

/// A line being typed changes as the key edits it: a character is added,
/// backspace removes the last one.
pub open spec fn edited(b: Seq<char>, k: Key) -> Seq<char> {
    match k {
        Key::Char(c) => b.push(c),
        Key::Backspace => if b.len() > 0 { b.drop_last() } else { b },
        _ => b,
    }
}

/// What a key does in each mode, before the window follows the cursor.
pub open spec fn handled(o: App, n: App, k: Key, r: Result<Effect, KeyFault>) -> bool {
    let nothing = r matches Ok(Effect::Nothing) && n == o;
    let pressed = |c: char| (r is Err || r matches Ok(Effect::Nothing)) && key_effect(o, n, c, unit_of(r), true);
    match o.mode {
        Mode::Normal => if normal_char(k) is Some {
            pressed(normal_char(k).unwrap())
        } else if k == Key::PageDown {
            r matches Ok(Effect::Nothing) && undid(n.grid, o.grid) && n.mode == o.mode && same_besides(n, o)
        } else {
            nothing
        },
        Mode::Visual(_) => match k {
            Key::Char(c) => pressed(c),
            Key::Esc => r matches Ok(Effect::Nothing) && only_mode(o, n, Mode::Normal),
            _ => nothing,
        },
        Mode::Chord(b) => match k {
            Key::Char(c) => pressed(c),
            Key::Esc => r matches Ok(Effect::Nothing) && only_mode(o, n, Mode::Normal),
            Key::Backspace => r matches Ok(Effect::Nothing) && (n.mode matches Mode::Chord(nb) && nb@ == edited(b@, k))
                && n.grid == o.grid && same_besides(n, o),
            _ => nothing,
        },
        Mode::Insert(b) => match k {
            Key::Esc => r matches Ok(Effect::Nothing) && only_mode(o, n, Mode::Normal),
            Key::Enter => (r matches Ok(Effect::Commit { pos, text }) && pos == o.cursor() && text@ == b@)
                && only_mode(o, n, Mode::Normal),
            Key::Char(_) => r matches Ok(Effect::Nothing) && (n.mode matches Mode::Insert(nb) && nb@ == edited(b@, k))
                && n.grid == o.grid && same_besides(n, o),
            Key::Backspace => r matches Ok(Effect::Nothing) && (n.mode matches Mode::Insert(nb) && nb@ == edited(b@, k))
                && n.grid == o.grid && same_besides(n, o),
            _ => nothing,
        },
        Mode::Command(b) => match k {
            Key::Esc => r matches Ok(Effect::Nothing) && only_mode(o, n, Mode::Normal),
            Key::Enter => n.mode is Normal && exists|m: App| #[trigger] cmd_effect(o, m, r) && n.grid == m.grid && same_besides(n, m),
            Key::Char(_) => r matches Ok(Effect::Nothing) && (n.mode matches Mode::Command(nb) && nb@ == edited(b@, k))
                && n.grid == o.grid && same_besides(n, o),
            Key::Backspace => r matches Ok(Effect::Nothing) && (n.mode matches Mode::Command(nb) && nb@ == edited(b@, k))
                && n.grid == o.grid && same_besides(n, o),
            _ => nothing,
        },
        Mode::VisualCmd(p, b) => match k {
            Key::Esc => r matches Ok(Effect::Nothing) && only_mode(o, n, Mode::Visual(p)),
            Key::Enter => n.mode == Mode::Visual(p) && exists|m: App| #[trigger] cmd_effect(o, m, r) && n.grid == m.grid && same_besides(n, m),
            Key::Char(_) => r matches Ok(Effect::Nothing) && (n.mode matches Mode::VisualCmd(q, nb) && q == p && nb@ == edited(b@, k))
                && n.grid == o.grid && same_besides(n, o),
            Key::Backspace => r matches Ok(Effect::Nothing) && (n.mode matches Mode::VisualCmd(q, nb) && q == p && nb@ == edited(b@, k))
                && n.grid == o.grid && same_besides(n, o),
            _ => nothing,
        },
        Mode::Formatting(_) => nothing,
    }
}

impl App {
    /// Handles one key (see `handled`); what it leaves to the caller comes
    /// back as an `Effect`. Afterwards the caller lets the window follow
    /// the cursor (`follow_cursor`).
    pub fn handle_key(&mut self, k: Key) -> (r: Result<Effect, KeyFault>)
        requires
            old(self).wf(),
        ensures
            final(self).wf(),
            handled(*old(self), *final(self), k, r),
    {
        let kind: u8 = match &self.mode {
            Mode::Normal => 0,
            Mode::Visual(_) => 1,
            Mode::Chord(_) => 2,
            Mode::Insert(_) => 3,
            Mode::Command(_) => 4,
            Mode::VisualCmd(_, _) => 5,
            Mode::Formatting(_) => 6,
        };
        if kind == 0 {
            let c = match k {
                Key::Char(c) => c,
                Key::Left => 'h',
                Key::Right => 'l',
                Key::Up => 'k',
                Key::Down => 'j',
                Key::PageDown => {
                    self.grid.undo();
                    return Ok(Effect::Nothing);
                },
                _ => {
                    return Ok(Effect::Nothing);
                },
            };
            return match Mode::process_key(self, c) {
                Ok(()) => Ok(Effect::Nothing),
                Err(e) => Err(e),
            };
        }
        if kind == 1 || kind == 2 {
            match k {
                Key::Char(c) => {
                    return match Mode::process_key(self, c) {
                        Ok(()) => Ok(Effect::Nothing),
                        Err(e) => Err(e),
                    };
                },
                Key::Esc => {
                    self.mode = Mode::Normal;
                },
                Key::Backspace => {
                    if kind == 2 {
                        if let Mode::Chord(b) = &mut self.mode {
                            b.backspace();
                        }
                    }
                },
                _ => {},
            }
            return Ok(Effect::Nothing);
        }
        if kind == 3 || kind == 4 || kind == 5 {
            match k {
                Key::Esc => {
                    let next = match &self.mode {
                        Mode::VisualCmd(p, _) => Mode::Visual(*p),
                        _ => Mode::Normal,
                    };
                    self.mode = next;
                    return Ok(Effect::Nothing);
                },
                Key::Char(c) => {
                    match &mut self.mode {
                        Mode::Insert(b) => b.add_char(c),
                        Mode::Command(b) => b.add_char(c),
                        Mode::VisualCmd(_, b) => b.add_char(c),
                        _ => {},
                    }
                    return Ok(Effect::Nothing);
                },
                Key::Backspace => {
                    match &mut self.mode {
                        Mode::Insert(b) => b.backspace(),
                        Mode::Command(b) => b.backspace(),
                        Mode::VisualCmd(_, b) => b.backspace(),
                        _ => {},
                    }
                    return Ok(Effect::Nothing);
                },
                Key::Enter => {
                    if kind == 3 {
                        let text = match &self.mode {
                            Mode::Insert(b) => b.as_string(),
                            _ => String::new(),
                        };
                        let pos = self.grid.cursor();
                        self.mode = Mode::Normal;
                        return Ok(Effect::Commit { pos, text });
                    }
                    let back = match &self.mode {
                        Mode::VisualCmd(p, _) => Mode::Visual(*p),
                        _ => Mode::Normal,
                    };
                    let r = Mode::process_cmd(self);
                    let ghost m = *self;
                    self.mode = back;
                    assert(cmd_effect(*old(self), m, r));
                    return r;
                },
                _ => {
                    return Ok(Effect::Nothing);
                },
            }
        }
        Ok(Effect::Nothing)
    }

    /// Scrolls the window just enough that the cursor is inside it; a
    /// fault when no screen size is known that holds two cells each way,
    /// or when the window's far edge overflows.
    pub fn follow_cursor(&mut self) -> (r: Result<(), KeyFault>)
        requires
            old(self).wf(),
        ensures
            final(self).wf(),
            !old(self).screen.sized(old(self).vars@) ==> r == Err::<(), KeyFault>(KeyFault::Screen),
            old(self).screen.sized(old(self).vars@) ==> (r is Err <==> !old(self).screen.can_follow(old(self).vars@)),
            old(self).screen.sized(old(self).vars@) && r is Err ==> r == Err::<(), KeyFault>(KeyFault::Overflow),
            r is Ok ==> final(self).screen.scroll_at() == (
                follow(old(self).screen.scroll_at().0, old(self).cursor().0, old(self).screen.cells_across(old(self).vars@)),
                follow(old(self).screen.scroll_at().1, old(self).cursor().1, old(self).screen.cells_down(old(self).vars@)),
            ),
            r is Ok ==> final(self).screen.scroll_at().0 <= final(self).cursor().0 <= final(self).screen.scroll_at().0
                + final(self).screen.cells_across(final(self).vars@),
            r is Ok ==> final(self).screen.scroll_at().1 <= final(self).cursor().1 <= final(self).screen.scroll_at().1
                + final(self).screen.cells_down(final(self).vars@),
            final(self).screen.seen() == old(self).screen.seen(),
            final(self).screen.defaults() == old(self).screen.defaults(),
            final(self).grid == old(self).grid,
            final(self).mode == old(self).mode,
            final(self).exit == old(self).exit,
            final(self).file == old(self).file,
            final(self).msg == old(self).msg,
            final(self).vars == old(self).vars,
            final(self).marks == old(self).marks,
            final(self).clipboard == old(self).clipboard,
    {
        if !self.screen_sized() {
            return Err(KeyFault::Screen);
        }
        let (xs, ys) = self.screen.get_screen_size(&self.vars);
        if self.screen.scroll_x().checked_add(xs).is_none() || self.screen.scroll_y().checked_add(ys).is_none() {
            return Err(KeyFault::Overflow);
        }
        let c = self.grid.cursor();
        self.screen.scroll_based_on_cursor_location(c, &self.vars);
        Ok(())
    }

    /// Puts what was typed in the cell `pos`, in one transaction: the
    /// number `number` reads it as, when it reads as one; else nothing for
    /// empty text; else the text as an equation or a string (see
    /// `CellType::duck_type`).
    pub fn commit(&mut self, pos: (usize, usize), text: String, number: Option<String>) -> (r: Result<(), KeyFault>)
        requires
            old(self).wf(),
        ensures
            final(self).wf(),
            r is Err <==> (pos.0 >= LEN || pos.1 >= LEN),
            r is Err ==> r == Err::<(), KeyFault>(KeyFault::Grid(GridFault::OutOfGrid)),
            r is Ok ==> final(self).grid.transacted_from(old(self).grid) && final(self).grid.cell(pos.0 as int, pos.1 as int)
                == committed(text, number) && forall|x: int, y: int|
                (x, y) != (pos.0 as int, pos.1 as int) ==> #[trigger] final(self).grid.cell(x, y) == old(self).grid.cell(x, y),
            final(self).mode == old(self).mode,
            same_besides(*final(self), *old(self)),
    {
        if pos.0 >= LEN || pos.1 >= LEN {
            return Err(KeyFault::Grid(GridFault::OutOfGrid));
        }
        let val = match number {
            Some(n) => Some(CellType::duck_type(text, Some(n))),
            None => {
                if chars_of(text.as_str()).len() == 0 {
                    None
                } else {
                    Some(CellType::duck_type(text, None))
                }
            },
        };
        self.grid.transact_set_cell(pos, val);
        Ok(())
    }

    /// Fills the block whose top-left cell is `at` from `texts`, each read
    /// as the number `numbers` gives for it where it gives one (see
    /// `CellType::duck_type`), in one transaction.
    pub fn fill(&mut self, at: (usize, usize), texts: &Vec<Vec<String>>, numbers: &Vec<Vec<Option<String>>>) -> (r: Result<(), KeyFault>)
        requires
            old(self).wf(),
        ensures
            final(self).wf(),
            r is Err <==> !fill_fits(at, texts@, numbers@),
            r is Err ==> r == Err::<(), KeyFault>(KeyFault::Grid(GridFault::OutOfGrid)),
            r is Ok ==> final(self).grid.transacted_from(old(self).grid) && forall|a: int, b: int|
                #[trigger] final(self).grid.cell(a, b) == (if 0 <= a - at.0 < texts@.len() && 0 <= b - at.1 < texts@[a - at.0]@.len() {
                    committed_some(texts@[a - at.0]@[b - at.1], numbers@[a - at.0]@[b - at.1])
                } else {
                    old(self).grid.cell(a, b)
                }),
            final(self).mode == old(self).mode,
            same_besides(*final(self), *old(self)),
    {
        let mut cells: Vec<Vec<Option<CellType>>> = Vec::new();
        if numbers.len() != texts.len() {
            return Err(KeyFault::Grid(GridFault::OutOfGrid));
        }
        let mut i: usize = 0;
        while i < texts.len()
            invariant
                *self == *old(self),
                self.wf(),
                i <= texts@.len(),
                numbers@.len() == texts@.len(),
                cells@.len() == i,
                forall|k: int| 0 <= k < i ==> same_len(#[trigger] cells@[k]@, texts@[k]@),
                forall|k: int, j: int|
                    0 <= k < i && 0 <= j < cells@[k]@.len() ==> #[trigger] cells@[k]@[j] == committed_some(texts@[k]@[j], numbers@[k]@[j]),
                forall|k: int| 0 <= k < i ==> #[trigger] fill_col_fits(at, texts@, numbers@, k),
            decreases texts@.len() - i,
        {
            let tcol = &texts[i];
            let ncol = &numbers[i];
            if tcol.len() != ncol.len() || i >= LEN || at.0 >= LEN - i || tcol.len() > LEN || at.1 > LEN - tcol.len() {
                proof {
                    assert(!fill_fits(at, texts@, numbers@)) by {
                        assert(!fill_col_fits(at, texts@, numbers@, i as int));
                    }
                }
                return Err(KeyFault::Grid(GridFault::OutOfGrid));
            }
            let mut col: Vec<Option<CellType>> = Vec::new();
            let mut j: usize = 0;
            while j < tcol.len()
                invariant
                    j <= tcol@.len(),
                    tcol@.len() == ncol@.len(),
                    tcol == texts@[i as int],
                    ncol == numbers@[i as int],
                    col@.len() == j,
                    forall|m: int| 0 <= m < j ==> #[trigger] col@[m] == committed_some(tcol@[m], ncol@[m]),
                decreases tcol@.len() - j,
            {
                let n = match &ncol[j] {
                    Some(t) => Some(t.clone()),
                    None => None,
                };
                let v = CellType::duck_type(tcol[j].clone(), n);
                col.push(Some(v));
                j = j + 1;
            }
            cells.push(col);
            assert(same_len(cells@[i as int]@, texts@[i as int]@));
            assert(fill_col_fits(at, texts@, numbers@, i as int));
            i = i + 1;
        }
        proof {
            assert(crate::grid::block_fits(at, cells@)) by {
                assert forall|k: int| 0 <= k < cells@.len() implies crate::grid::column_fits(at, k, #[trigger] cells@[k]@.len()) by {
                    assert(fill_col_fits(at, texts@, numbers@, k));
                    assert(same_len(cells@[k]@, texts@[k]@));
                }
            }
            assert forall|k: int, j: int| 0 <= k < cells@.len() && 0 <= j < cells@[k]@.len() implies cell_ok(#[trigger] cells@[k]@[j]) by {}
        }
        self.grid.transact_merge_block(at, &cells);
        Ok(())
    }
}

/// What a typed text puts in a cell: the number it reads as, else nothing
/// for empty text, else an equation or a string.
pub open spec fn committed(text: String, number: Option<String>) -> Option<CellType> {
    match number {
        Some(n) => Some(CellType::Number(n)),
        None => if text@.len() == 0 {
            None
        } else {
            committed_some(text, None)
        },
    }
}

/// A filled text as a cell (see `committed`; an empty text is a string).
pub open spec fn committed_some(text: String, number: Option<String>) -> Option<CellType> {
    match number {
        Some(n) => Some(CellType::Number(n)),
        None => if text@.len() > 0 && text@[0] == '=' {
            Some(CellType::Equation(text))
        } else {
            Some(CellType::String(text))
        },
    }
}

/// Column `i` of a fill lies inside the sheet and has a reading for each
/// text.
pub open spec fn fill_col_fits(at: (usize, usize), texts: Seq<Vec<String>>, numbers: Seq<Vec<Option<String>>>, i: int) -> bool {
    &&& texts[i]@.len() == numbers[i]@.len()
    &&& at.0 + i < LEN
    &&& at.1 + texts[i]@.len() <= LEN
}

/// Two sequences have the same length.
pub open spec fn same_len<A, B>(a: Seq<A>, b: Seq<B>) -> bool {
    a.len() == b.len()
}

/// A fill lies inside the sheet and has a reading for each text.
pub open spec fn fill_fits(at: (usize, usize), texts: Seq<Vec<String>>, numbers: Seq<Vec<Option<String>>>) -> bool {
    &&& texts.len() == numbers.len()
    &&& forall|i: int| 0 <= i < texts.len() ==> #[trigger] fill_col_fits(at, texts, numbers, i)
}

/// Whether the cell drawn at screen position `(x, y)` (the headers are
/// row and column 0) lies between the corner of a visual selection and
/// the cursor; the screen position is not shifted by the scroll.
pub open spec fn selected_at(m: Mode, cursor: (usize, usize), x: int, y: int) -> bool {
    let corner = match m {
        Mode::Visual(p) => Some(p),
        Mode::VisualCmd(p, _) => Some(p),
        _ => None,
    };
    match corner {
        Some(p) => {
            let (x1, y1) = (p.0 + 1, p.1 + 1);
            let (x2, y2) = (cursor.0 + 1, cursor.1 + 1);
            &&& (x1 <= x <= x2 || x2 <= x <= x1)
            &&& (y1 <= y <= y2 || y2 <= y <= y1)
        },
        None => false,
    }
}

impl App {
    /// Whether the cell drawn at screen position `(x, y)` is selected (see
    /// `selected_at`).
    pub fn is_selected(&self, x: usize, y: usize) -> (r: bool)
        requires
            self.cursor().0 < usize::MAX,
            self.cursor().1 < usize::MAX,
            match self.mode {
                Mode::Visual(p) => p.0 < usize::MAX && p.1 < usize::MAX,
                Mode::VisualCmd(p, _) => p.0 < usize::MAX && p.1 < usize::MAX,
                _ => true,
            },
        ensures
            r == selected_at(self.mode, self.cursor(), x as int, y as int),
    {
        let corner = match &self.mode {
            Mode::Visual(p) => Some(*p),
            Mode::VisualCmd(p, _) => Some(*p),
            _ => None,
        };
        match corner {
            Some((x1, y1)) => {
                let (x2, y2) = self.grid.cursor();
                let (x1, y1, x2, y2) = (x1 + 1, y1 + 1, x2 + 1, y2 + 1);
                ((x >= x1 && x <= x2) || (x >= x2 && x <= x1)) && ((y >= y1 && y <= y2) || (y >= y2 && y <= y1))
            },
            None => false,
        }
    }
}

} // verus!
