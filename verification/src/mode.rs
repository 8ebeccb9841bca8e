//! The editor's modes, the line editor used while typing, and the state of
//! the formatting editor.
use vstd::prelude::*;
use crate::cell::{Cell, CellStyle, CellType, Color, FormatRule};
use crate::text::chars_of;
use crate::csv::latin1;

verus! {

/// What the keyboard does at the moment.
pub enum Mode {
    /// Typing a cell's new contents.
    Insert(EditBuffer),
    /// Typing a multi-key command such as `gg` or `10l`.
    Chord(EditBuffer),
    /// Moving around the sheet.
    Normal,
    /// Typing a `:` command.
    Command(EditBuffer),
    /// Selecting a block from the given corner to the cursor.
    Visual((usize, usize)),
    /// Typing a `:` command for the selected block.
    VisualCmd((usize, usize), EditBuffer),
    /// Editing a cell's formatting rules.
    Formatting(FormatEditor),
}

impl Mode {
    /// The name the mode shows in the corner of the sheet.
    pub open spec fn name_of(self) -> Seq<char> {
        match self {
            Mode::Normal => "NORMAL"@,
            Mode::Insert(_) => "INSERT"@,
            Mode::Chord(_) => "CHORD"@,
            Mode::Command(_) => "COMMAND"@,
            Mode::Visual(_) => "VISUAL"@,
            Mode::VisualCmd(_, _) => "V-CMD"@,
            Mode::Formatting(_) => "FMT"@,
        }
    }

    /// The name the mode shows in the corner of the sheet.
    pub fn name(&self) -> (r: &'static str)
        ensures
            r@ == self.name_of(),
    {
        match self {
            Mode::Normal => "NORMAL",
            Mode::Insert(_) => "INSERT",
            Mode::Chord(_) => "CHORD",
            Mode::Command(_) => "COMMAND",
            Mode::Visual(_) => "VISUAL",
            Mode::VisualCmd(_, _) => "V-CMD",
            Mode::Formatting(_) => "FMT",
        }
    }

    /// How many characters the left of the command line shows: the text
    /// being typed, or in normal mode the text of the cell under the cursor.
    pub open spec fn shown_len(self, cell: Option<CellType>) -> nat {
        match self {
            Mode::Insert(e) => e@.len(),
            Mode::Command(e) => e@.len(),
            Mode::Chord(e) => e@.len(),
            Mode::VisualCmd(_, e) => e@.len(),
            Mode::Normal => match cell {
                Some(c) => c.text().len(),
                None => 0,
            },
            _ => 0,
        }
    }

    /// How many characters the left of the command line shows (see
    /// `shown_len`).
    pub fn chars_to_display(&self, cell: &Option<CellType>) -> (r: usize)
        ensures
            r == self.shown_len(*cell),
    {
        match self {
            Mode::Insert(e) => e.len(),
            Mode::Command(e) => e.len(),
            Mode::Chord(e) => e.len(),
            Mode::VisualCmd(_, e) => e.len(),
            Mode::Normal => match cell {
                Some(c) => chars_of(c.to_string().as_str()).len(),
                None => 0,
            },
            _ => 0,
        }
    }

    /// The colors of the mode's name: a background for the modes where
    /// one types, a foreground alone for the modes that move.
    pub fn get_style(&self) -> (r: CellStyle)
        ensures
            r == (match self {
                Mode::Insert(_) => CellStyle { fg: Some(Color::White), bg: Some(Color::Blue) },
                Mode::Command(_) => CellStyle { fg: Some(Color::Black), bg: Some(Color::Magenta) },
                Mode::VisualCmd(_, _) => CellStyle { fg: Some(Color::Black), bg: Some(Color::Yellow) },
                Mode::Chord(_) => CellStyle { fg: Some(Color::Black), bg: Some(Color::LightBlue) },
                Mode::Formatting(_) => CellStyle { fg: Some(Color::White), bg: Some(Color::Cyan) },
                Mode::Visual(_) => CellStyle { fg: Some(Color::Yellow), bg: None },
                Mode::Normal => CellStyle { fg: Some(Color::Green), bg: None },
            }),
    {
        match self {
            Mode::Insert(_) => CellStyle { fg: Some(Color::White), bg: Some(Color::Blue) },
            Mode::Command(_) => CellStyle { fg: Some(Color::Black), bg: Some(Color::Magenta) },
            Mode::VisualCmd(_, _) => CellStyle { fg: Some(Color::Black), bg: Some(Color::Yellow) },
            Mode::Chord(_) => CellStyle { fg: Some(Color::Black), bg: Some(Color::LightBlue) },
            Mode::Formatting(_) => CellStyle { fg: Some(Color::White), bg: Some(Color::Cyan) },
            Mode::Visual(_) => CellStyle { fg: Some(Color::Yellow), bg: None },
            Mode::Normal => CellStyle { fg: Some(Color::Green), bg: None },
        }
    }
}

/// A line being typed.
pub struct EditBuffer {
    buf: Vec<char>,
}

impl View for EditBuffer {
    type V = Seq<char>;

    closed spec fn view(&self) -> Seq<char> {
        self.buf@
    }
}

impl EditBuffer {
    /// A line holding `value`, each byte read as one character.
    pub fn from(value: String) -> (r: EditBuffer)
        ensures
            r@ == latin1(vstd::utf8::encode_utf8(value@)),
    {
        let text = value.as_str();
        let bytes = text.as_bytes();
        let mut b: Vec<char> = Vec::new();
        let mut k: usize = 0;
        while k < bytes.len()
            invariant
                k <= bytes.len(),
                bytes@ == vstd::utf8::encode_utf8(value@),
                b@ == crate::csv::latin1(bytes@).take(k as int),
            decreases bytes.len() - k,
        {
            b.push(bytes[k] as char);
            k = k + 1;
            assert(b@ =~= crate::csv::latin1(bytes@).take(k as int));
        }
        assert(b@ =~= crate::csv::latin1(vstd::utf8::encode_utf8(value@)));
        EditBuffer { buf: b }
    }

    /// A line holding `chars`.
    pub(crate) fn from_chars(chars: Vec<char>) -> (r: EditBuffer)
        ensures
            r@ == chars@,
    {
        EditBuffer { buf: chars }
    }

    /// A line holding one character.
    pub fn new(inital: char) -> (r: EditBuffer)
        ensures
            r@ == seq![inital],
    {
        let mut buf: Vec<char> = Vec::new();
        buf.push(inital);
        assert(buf@ =~= seq![inital]);
        EditBuffer { buf }
    }

    /// Removes the last character, if any.
    pub fn backspace(&mut self)
        ensures
            final(self)@ == (if old(self)@.len() > 0 {
                old(self)@.drop_last()
            } else {
                old(self)@
            }),
    {
        let _ = self.buf.pop();
    }

    /// Adds `c` at the end.
    pub fn add_char(&mut self, c: char)
        ensures
            final(self)@ == old(self)@.push(c),
    {
        self.buf.push(c)
    }

    /// The line's text.
    pub fn as_string(&self) -> (r: String)
        ensures
            r@ == self@,
    {
        crate::text::string_of(&self.buf)
    }

    /// The number of characters.
    pub fn len(&self) -> (r: usize)
        ensures
            r == self@.len(),
    {
        self.buf.len()
    }

    /// The characters of the line.
    pub fn chars(&self) -> (r: &Vec<char>)
        ensures
            r@ == self@,
    {
        &self.buf
    }
}

/// The formatting editor: the cell whose rules are edited, and whether
/// the rules are listed or one rule is edited.
pub struct FormatEditor {
    pub mode: FormatEditorMode,
    pub cell: Cell,
}

impl FormatEditor {
    /// Lists the rules of `cell`, the first one selected.
    pub fn new(cell: Cell) -> (r: FormatEditor)
        ensures
            r.cell == cell,
            r.mode == FormatEditorMode::Viewer(RulesViewer { index: 0 }),
    {
        FormatEditor { mode: FormatEditorMode::Viewer(RulesViewer::default()), cell }
    }
}

/// Listing the rules, or editing one.
pub enum FormatEditorMode {
    Viewer(RulesViewer),
    Editor(RuleEditor),
}

/// Which rule of the list is selected.
pub struct RulesViewer {
    pub index: u16,
}

impl RulesViewer {
    /// The first rule selected.
    pub fn default() -> (r: RulesViewer)
        ensures
            r.index == 0,
    {
        RulesViewer { index: 0 }
    }
}

/// Which part of a rule is being chosen, with the selected entry.
pub enum EditingState {
    Selecting(usize),
    Value(EditBuffer),
    Sign(usize),
    FG(usize),
    BG(usize),
}

/// A rule being edited, and where it stands in the cell's list.
pub struct RuleEditor {
    pub editing: EditingState,
    pub rule: FormatRule,
    pub cell_rule_index: usize,
}

impl RuleEditor {
    /// Edits `rule`, the rule at `idx`, starting at the first field.
    pub fn new(rule: FormatRule, idx: usize) -> (r: RuleEditor)
        ensures
            r.editing == EditingState::Selecting(0),
            r.rule == rule,
            r.cell_rule_index == idx,
    {
        RuleEditor { editing: EditingState::Selecting(0), rule, cell_rule_index: idx }
    }
}

/// The plot being set up: its x column and its y columns.
pub struct Plot {
    x: usize,
    y: Vec<usize>,
}

impl Plot {
    /// The x column.
    pub closed spec fn x_column(self) -> usize {
        self.x
    }

    /// The y columns.
    pub closed spec fn y_columns(self) -> Seq<usize> {
        self.y@
    }

    /// A plot of column `y` against column `x`.
    pub fn new(x: usize, y: usize) -> (r: Plot)
        ensures
            r.x_column() == x,
            r.y_columns() == seq![y],
    {
        let mut v: Vec<usize> = Vec::new();
        v.push(y);
        assert(v@ =~= seq![y]);
        Plot { x, y: v }
    }

    /// Adds a y column (column 1).
    pub fn add_column(&mut self)
        ensures
            final(self).y_columns() == old(self).y_columns().push(1),
            final(self).x_column() == old(self).x_column(),
    {
        self.y.push(1)
    }

    /// Removes the last y column, if any.
    pub fn del_column(&mut self)
        ensures
            final(self).y_columns() == (if old(self).y_columns().len() > 0 {
                old(self).y_columns().drop_last()
            } else {
                old(self).y_columns()
            }),
            final(self).x_column() == old(self).x_column(),
    {
        let _ = self.y.pop();
    }

    /// Keys do nothing to a plot yet.
    pub fn process_key(&mut self, c: char)
        ensures
            final(self).x_column() == old(self).x_column(),
            final(self).y_columns() == old(self).y_columns(),
    {
    }
}

} // verus!
