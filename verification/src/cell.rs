//! Cell contents, conditional formatting rules, and the translation of the
//! references inside an equation when a cell is copied or shifted.
use vstd::prelude::*;
use crate::text::{chars_of, string_of, append_all, decimal, usize_to_decimal, replace_all, replace_spec, split_on, split_at_char, views};
use crate::refs::{
    parse_to_idx, parse_to_idx_spec, range_as_indices, range_as_indices_spec, column_letters,
    column_letters_spec,
};
use crate::csv::{escape_csv, escape_csv_spec};
use crate::grid::LEN;
use evalexpr::{build_operator_tree, DefaultNumericTypes};
use vstd::std_specs::cmp::PartialEqSpecImpl;

verus! {

/// What a cell holds. A number is held as its decimal rendering (the text
/// the number displays as, which reads back as the same number); an
/// equation is the text of the formula, starting with `=`.
#[derive(Debug)]
pub enum CellType {
    Number(String),
    String(String),
    Equation(String),
}

impl CellType {
    /// The text the cell displays.
    pub open spec fn text(self) -> Seq<char> {
        match self {
            CellType::Number(t) => t@,
            CellType::String(t) => t@,
            CellType::Equation(t) => t@,
        }
    }

    /// The text the cell displays: the number's rendering, the string, or
    /// the equation's formula.
    pub fn to_string(&self) -> (r: String)
        ensures
            r@ == self.text(),
    {
        match self {
            CellType::Number(t) => t.clone(),
            CellType::String(t) => t.clone(),
            CellType::Equation(t) => t.clone(),
        }
    }

    /// Classifies entered text: a number when it reads as one (`number` is
    /// then its rendering), otherwise an equation when it starts with `=`,
    /// otherwise a string.
    pub fn duck_type(value: String, number: Option<String>) -> (r: CellType)
        ensures
            r == (match number {
                Some(n) => CellType::Number(n),
                None => if value@.len() > 0 && value@[0] == '=' {
                    CellType::Equation(value)
                } else {
                    CellType::String(value)
                },
            }),
    {
        match number {
            Some(n) => CellType::Number(n),
            None => {
                let cs = chars_of(value.as_str());
                if cs.len() > 0 && cs[0] == '=' {
                    CellType::Equation(value)
                } else {
                    CellType::String(value)
                }
            },
        }
    }

    /// The cell's display text as written in a CSV file: every `"` doubled,
    /// and the whole quoted when it holds a `,`.
    pub fn escaped_csv_string(&self) -> (r: String)
        ensures
            r@ == escape_csv_spec(self.text()),
    {
        let d = self.to_string();
        let cs = chars_of(d.as_str());
        let e = escape_csv(&cs);
        string_of(&e)
    }

    /// The empty string cell.
    pub fn default() -> (r: CellType)
        ensures
            r is String && r.text() == Seq::<char>::empty(),
    {
        CellType::String(String::new())
    }
}

impl Clone for CellType {
    fn clone(&self) -> (r: CellType)
        ensures
            r == *self,
    {
        match self {
            CellType::Number(t) => CellType::Number(t.clone()),
            CellType::String(t) => CellType::String(t.clone()),
            CellType::Equation(t) => CellType::Equation(t.clone()),
        }
    }
}

/// The formula of an equation: the text after its leading `=`; text that
/// does not start with `=` is no equation, and the error says so.
pub open spec fn formula_of(eq: Seq<char>) -> Result<Seq<char>, Seq<char>> {
    if eq.len() > 0 && eq[0] == '=' {
        Ok(eq.skip(1))
    } else {
        Err(seq!['"'] + eq + "\" is not an equation"@)
    }
}

/// The formula to evaluate for an equation (see `formula_of`).
pub fn equation_formula(eq: &str) -> (r: Result<String, String>)
    ensures
        match r {
            Ok(f) => formula_of(eq@) == Ok::<Seq<char>, Seq<char>>(f@),
            Err(e) => formula_of(eq@) == Err::<Seq<char>, Seq<char>>(e@),
        },
{
    let cs = chars_of(eq);
    if cs.len() > 0 && cs[0] == '=' {
        let mut body: Vec<char> = Vec::new();
        let mut i: usize = 1;
        while i < cs.len()
            invariant
                1 <= i <= cs.len(),
                body@ == cs@.subrange(1, i as int),
            decreases cs.len() - i,
        {
            body.push(cs[i]);
            i = i + 1;
            assert(body@ =~= cs@.subrange(1, i as int));
        }
        assert(body@ =~= cs@.skip(1));
        Ok(string_of(&body))
    } else {
        let mut msg: Vec<char> = Vec::new();
        msg.push('"');
        append_all(&mut msg, &cs);
        append_all(&mut msg, &chars_of("\" is not an equation"));
        assert(msg@ =~= seq!['"'] + eq@ + "\" is not an equation"@);
        Err(string_of(&msg))
    }
}

/// Two contents are equal when they are of the same kind and hold the
/// same text.
impl PartialEq for CellType {
    fn eq(&self, other: &Self) -> (r: bool) {
        match (self, other) {
            (CellType::Number(a), CellType::Number(b)) => String::eq(a, b),
            (CellType::String(a), CellType::String(b)) => String::eq(a, b),
            (CellType::Equation(a), CellType::Equation(b)) => String::eq(a, b),
            _ => false,
        }
    }
}

impl PartialEqSpecImpl for CellType {
    open spec fn obeys_eq_spec() -> bool {
        true
    }

    open spec fn eq_spec(&self, other: &Self) -> bool {
        match (*self, *other) {
            (CellType::Number(a), CellType::Number(b)) => a@ == b@,
            (CellType::String(a), CellType::String(b)) => a@ == b@,
            (CellType::Equation(a), CellType::Equation(b)) => a@ == b@,
            _ => false,
        }
    }
}

/// The colors a formatting rule can use.
#[derive(Clone, Copy, PartialEq, Eq, Debug)]
pub enum Color {
    Reset,
    Black,
    Red,
    Green,
    Yellow,
    Blue,
    Magenta,
    Cyan,
    Gray,
    DarkGray,
    LightRed,
    LightGreen,
    LightYellow,
    LightBlue,
    LightMagenta,
    LightCyan,
    White,
}

/// The name a color displays as: its name, as in `ratatui`'s `Color`.
pub open spec fn color_text(c: Color) -> Seq<char> {
    match c {
        Color::Reset => "Reset"@,
        Color::Black => "Black"@,
        Color::Red => "Red"@,
        Color::Green => "Green"@,
        Color::Yellow => "Yellow"@,
        Color::Blue => "Blue"@,
        Color::Magenta => "Magenta"@,
        Color::Cyan => "Cyan"@,
        Color::Gray => "Gray"@,
        Color::DarkGray => "DarkGray"@,
        Color::LightRed => "LightRed"@,
        Color::LightGreen => "LightGreen"@,
        Color::LightYellow => "LightYellow"@,
        Color::LightBlue => "LightBlue"@,
        Color::LightMagenta => "LightMagenta"@,
        Color::LightCyan => "LightCyan"@,
        Color::White => "White"@,
    }
}

/// The name a color displays as (see `color_text`).
fn color_name(c: Color) -> (r: String)
    ensures
        r@ == color_text(c),
{
    let t: &str = match c {
        Color::Reset => "Reset",
        Color::Black => "Black",
        Color::Red => "Red",
        Color::Green => "Green",
        Color::Yellow => "Yellow",
        Color::Blue => "Blue",
        Color::Magenta => "Magenta",
        Color::Cyan => "Cyan",
        Color::Gray => "Gray",
        Color::DarkGray => "DarkGray",
        Color::LightRed => "LightRed",
        Color::LightGreen => "LightGreen",
        Color::LightYellow => "LightYellow",
        Color::LightBlue => "LightBlue",
        Color::LightMagenta => "LightMagenta",
        Color::LightCyan => "LightCyan",
        Color::White => "White",
    };
    t.to_string()
}


impl CellType {
    /// An equation's formula starts with `=`.
    pub open spec fn wf(self) -> bool {
        self matches CellType::Equation(e) ==> e@.len() > 0 && e@[0] == '='
    }
}

/// The variables an expression reads, in the order `evalexpr` lists them.
pub uninterp spec fn evalexpr_variables(expr: Seq<char>) -> Seq<Seq<char>>;

/// The functions an expression calls, in the order `evalexpr` lists them.
pub uninterp spec fn evalexpr_functions(expr: Seq<char>) -> Seq<Seq<char>>;

pub open spec fn string_views(v: Seq<String>) -> Seq<Seq<char>> {
    v.map_values(|s: String| s@)
}

/// `evalexpr::build_operator_tree` and `Node::iter_variable_identifiers`:
/// every read or written variable of the expression, each occurrence once,
/// in tree order; none when the expression does not parse. As the tokenizer
/// splits at every `=`, no identifier is empty or holds a `=`.
#[verifier::external_body]
fn expression_variables(expr: &str) -> (r: Vec<String>)
    ensures
        string_views(r@) == evalexpr_variables(expr@),
        forall|i: int|
            0 <= i < r@.len() ==> (#[trigger] r@[i])@.len() > 0 && !r@[i]@.contains('='),
{
    match build_operator_tree::<DefaultNumericTypes>(expr) {
        Ok(tree) => tree.iter_variable_identifiers().map(|v| v.to_string()).collect(),
        Err(_) => Vec::new(),
    }
}

/// `evalexpr::build_operator_tree` and `Node::iter_function_identifiers`:
/// the functions the expression calls; none when it does not parse.
#[verifier::external_body]
fn expression_functions(expr: &str) -> (r: Vec<String>)
    ensures
        string_views(r@) == evalexpr_functions(expr@),
{
    match build_operator_tree::<DefaultNumericTypes>(expr) {
        Ok(tree) => tree.iter_function_identifiers().map(|v| v.to_string()).collect(),
        Err(_) => Vec::new(),
    }
}

/// Which references a translation rewrites.
#[derive(Clone, Copy, PartialEq, Eq, Debug)]
pub enum TranslateRule {
    /// Every occurrence, wherever it points.
    Anywhere,
    /// Only references to this row or below; any other variable is refused.
    RowsFrom(usize),
    /// Only references to this column or to its right; any other variable
    /// is refused.
    ColumnsFrom(usize),
}

/// Why a translation stopped.
#[derive(Clone, Copy, PartialEq, Eq, Debug)]
pub enum TranslateFault {
    /// The equation calls a function, which the reference scan cannot walk.
    CallsFunction,
    /// A shifted position does not fit in an `i32`.
    Overflow,
    /// An insertion rule met a variable that is not a cell reference.
    NotAReference,
}

/// Number of `$` in `v`.
pub open spec fn dollar_count(v: Seq<char>) -> nat
    decreases v.len(),
{
    if v.len() == 0 {
        0
    } else {
        dollar_count(v.drop_last()) + if v.last() == '$' { 1nat } else { 0nat }
    }
}

/// `src` moved by `to - from`, each position read as an `i32`: `None`
/// when the difference or the sum leaves the `i32` range; a negative result
/// wraps around as it is read back as `usize`.
pub open spec fn shifted(src: usize, from: usize, to: usize) -> Option<usize> {
    let d = (to as i32) as int - (from as i32) as int;
    if d < i32::MIN || d > i32::MAX {
        None
    } else {
        let t = (src as i32) as int + d;
        if t < i32::MIN || t > i32::MAX {
            None
        } else {
            Some((t as i32) as usize)
        }
    }
}

/// A range's columns moved by `to - from`, each stopped at column 0.
pub open spec fn range_shift(xs: usize, xe: usize, from: usize, to: usize) -> Option<(usize, usize)> {
    let d = (to as i32) as int - (from as i32) as int;
    if d < i32::MIN || d > i32::MAX {
        None
    } else {
        let a = (xs as i32) as int + d;
        let b = (xe as i32) as int + d;
        if a < i32::MIN || a > i32::MAX || b < i32::MIN || b > i32::MAX {
            None
        } else {
            Some((if a < 0 { 0 } else { a as usize }, if b < 0 { 0 } else { b as usize }))
        }
    }
}

/// The text of a reference to `(x, y)`, keeping a `$` before the column or
/// the row when that axis is locked.
pub open spec fn reference_text(x: usize, y: usize, lock_x: bool, lock_y: bool) -> Seq<char> {
    if lock_x {
        seq!['$'] + column_letters_spec(x as nat) + decimal(y as nat)
    } else if lock_y {
        column_letters_spec(x as nat) + seq!['$'] + decimal(y as nat)
    } else {
        column_letters_spec(x as nat) + decimal(y as nat)
    }
}

/// Replaces `old` by `new` in `rolling` under `rule`. The insertion rules
/// leave references before the insertion point alone and refuse anything
/// that is not a reference.
pub open spec fn rewrite_spec(rule: TranslateRule, rolling: Seq<char>, old: Seq<char>, new: Seq<char>) -> Option<
    Seq<char>,
> {
    match rule {
        TranslateRule::Anywhere => Some(replace_spec(rolling, old, new)),
        TranslateRule::RowsFrom(iy) => match parse_to_idx_spec(old) {
            Some((_, ay)) => Some(if ay < iy { rolling } else { replace_spec(rolling, old, new) }),
            None => None,
        },
        TranslateRule::ColumnsFrom(ix) => match parse_to_idx_spec(old) {
            Some((ax, _)) => Some(if ax < ix { rolling } else { replace_spec(rolling, old, new) }),
            None => None,
        },
    }
}

/// Rewrites one variable of the equation `rolling` for a move from `from`
/// to `to`. A variable with two `$` is left alone; one `$` at its start
/// locks the column, one elsewhere locks the row. A reference moves by
/// `to - from` on each unlocked axis; a column range `A:C` moves its columns
/// (not below column 0); anything else is left alone. `None` where the
/// move overflows or the rule refuses the variable.
pub open spec fn translate_var(
    rolling: Seq<char>,
    var: Seq<char>,
    from: (usize, usize),
    to: (usize, usize),
    rule: TranslateRule,
) -> Option<Seq<char>> {
    let c = dollar_count(var);
    if c == 2 {
        Some(rolling)
    } else {
        let lock_x = c == 1 && var[0] == '$';
        let lock_y = c == 1 && var[0] != '$';
        match parse_to_idx_spec(var) {
            Some((sx, sy)) => {
                let dx = if lock_x { Some(sx) } else { shifted(sx, from.0, to.0) };
                let dy = if lock_y { Some(sy) } else { shifted(sy, from.1, to.1) };
                match (dx, dy) {
                    (Some(x), Some(y)) => rewrite_spec(rule, rolling, var, reference_text(x, y, lock_x, lock_y)),
                    _ => None,
                }
            },
            None => match range_as_indices_spec(var) {
                Some((xs, xe)) => match range_shift(xs, xe, from.0, to.0) {
                    Some((a, b)) => rewrite_spec(
                        rule,
                        rolling,
                        var,
                        column_letters_spec(a as nat) + seq![':'] + column_letters_spec(b as nat),
                    ),
                    None => None,
                },
                None => Some(rolling),
            },
        }
    }
}

/// Rewrites the variables of an equation one after the other.
pub open spec fn translate_vars(
    rolling: Seq<char>,
    vars: Seq<Seq<char>>,
    from: (usize, usize),
    to: (usize, usize),
    rule: TranslateRule,
) -> Option<Seq<char>>
    decreases vars.len(),
{
    if vars.len() == 0 {
        Some(rolling)
    } else {
        match translate_var(rolling, vars[0], from, to, rule) {
            Some(r) => translate_vars(r, vars.drop_first(), from, to, rule),
            None => None,
        }
    }
}

/// Moving a reference's coordinate by `to - from` adds that offset, in
/// either direction, whenever every value and the result fit in `i32` and
/// the result is not negative.
pub proof fn lemma_shift_by_offset(s: usize, f: usize, t: usize)
    requires
        s <= i32::MAX,
        f <= i32::MAX,
        t <= i32::MAX,
        0 <= s + t - f <= i32::MAX,
    ensures
        shifted(s, f, t) == Some((s + t - f) as usize),
{
    assert((s as i32) as int == s);
    assert((f as i32) as int == f);
    assert((t as i32) as int == t);
    let r: int = s + t - f;
    assert(((r as i32) as usize) as int == r);
}

/// A reference with no `$`, moved from `from` to `to` anywhere, is
/// rewritten to the cell offset from it by `to - from` on both axes, up,
/// down, left or right alike.
pub proof fn lemma_reference_moves(
    rolling: Seq<char>,
    var: Seq<char>,
    sx: usize,
    sy: usize,
    from: (usize, usize),
    to: (usize, usize),
)
    requires
        dollar_count(var) == 0,
        parse_to_idx_spec(var) == Some((sx, sy)),
        sx <= i32::MAX,
        sy <= i32::MAX,
        from.0 <= i32::MAX,
        from.1 <= i32::MAX,
        to.0 <= i32::MAX,
        to.1 <= i32::MAX,
        0 <= sx + to.0 - from.0 <= i32::MAX,
        0 <= sy + to.1 - from.1 <= i32::MAX,
    ensures
        translate_var(rolling, var, from, to, TranslateRule::Anywhere) == Some(
            replace_spec(
                rolling,
                var,
                column_letters_spec((sx + to.0 - from.0) as nat) + decimal((sy + to.1 - from.1) as nat),
            ),
        ),
{
    lemma_shift_by_offset(sx, from.0, to.0);
    lemma_shift_by_offset(sy, from.1, to.1);
}

/// The axis of a reference that an insertion does not move stays where it
/// is.
proof fn lemma_shift_none(s: usize)
    ensures
        shifted(s, 0, 0) is Some,
{
    assert((0usize as i32) as int == 0);
}

proof fn lemma_shift_one(s: usize)
    requires
        s < LEN,
    ensures
        shifted(s, 0, 1) == Some((s + 1) as usize),
{
    lemma_shift_by_offset(s, 0, 1);
}

/// Inserting a column before column `ix` leaves every reference to a column
/// left of `ix` as it is written, whatever its `$` signs.
pub proof fn lemma_column_insert_keeps_left(rolling: Seq<char>, var: Seq<char>, ix: usize, sx: usize, sy: usize)
    requires
        ix <= LEN,
        parse_to_idx_spec(var) == Some((sx, sy)),
        sx < ix,
    ensures
        translate_var(rolling, var, (0usize, 0usize), (1usize, 0usize), TranslateRule::ColumnsFrom(ix))
            == Some(rolling),
{
    lemma_shift_one(sx);
    lemma_shift_none(sy);
}

/// Inserting a column before column `ix` moves every reference with no `$`
/// to column `ix` or right of it one column right, its row kept.
pub proof fn lemma_column_insert_moves_right(rolling: Seq<char>, var: Seq<char>, ix: usize, sx: usize, sy: usize)
    requires
        dollar_count(var) == 0,
        parse_to_idx_spec(var) == Some((sx, sy)),
        ix <= sx < LEN,
        sy <= i32::MAX,
    ensures
        translate_var(rolling, var, (0usize, 0usize), (1usize, 0usize), TranslateRule::ColumnsFrom(ix))
            == Some(replace_spec(rolling, var, column_letters_spec((sx + 1) as nat) + decimal(sy as nat))),
{
    lemma_shift_one(sx);
    lemma_shift_by_offset(sy, 0, 0);
}

/// Inserting a row above row `iy` leaves every reference to a row above
/// `iy` as it is written, whatever its `$` signs.
pub proof fn lemma_row_insert_keeps_above(rolling: Seq<char>, var: Seq<char>, iy: usize, sx: usize, sy: usize)
    requires
        iy <= LEN,
        parse_to_idx_spec(var) == Some((sx, sy)),
        sy < iy,
    ensures
        translate_var(rolling, var, (0usize, 0usize), (0usize, 1usize), TranslateRule::RowsFrom(iy))
            == Some(rolling),
{
    lemma_shift_one(sy);
    lemma_shift_none(sx);
}

/// Inserting a row above row `iy` moves every reference with no `$` to row
/// `iy` or below it one row down, its column kept.
pub proof fn lemma_row_insert_moves_down(rolling: Seq<char>, var: Seq<char>, iy: usize, sx: usize, sy: usize)
    requires
        dollar_count(var) == 0,
        parse_to_idx_spec(var) == Some((sx, sy)),
        iy <= sy < LEN,
        sx <= i32::MAX,
    ensures
        translate_var(rolling, var, (0usize, 0usize), (0usize, 1usize), TranslateRule::RowsFrom(iy))
            == Some(replace_spec(rolling, var, column_letters_spec(sx as nat) + decimal((sy + 1) as nat))),
{
    lemma_shift_one(sy);
    lemma_shift_by_offset(sx, 0, 0);
}

/// The equation `eq` (with its leading `=`) moved from `from` to `to`:
/// every variable of the formula after the `=` rewritten in turn; `None`
/// when the formula calls a function or a rewrite fails.
pub open spec fn translate_equation_spec(
    eq: Seq<char>,
    from: (usize, usize),
    to: (usize, usize),
    rule: TranslateRule,
) -> Option<Seq<char>> {
    let body = eq.skip(1);
    if evalexpr_functions(body).len() > 0 {
        None
    } else {
        translate_vars(eq, evalexpr_variables(body), from, to, rule)
    }
}

proof fn lemma_replace_keeps_head(s: Seq<char>, p: Seq<char>, t: Seq<char>)
    requires
        s.len() > 0,
        s[0] == '=',
        p.len() > 0,
        p[0] != '=',
    ensures
        replace_spec(s, p, t).len() > 0,
        replace_spec(s, p, t)[0] == '=',
{
    if s.len() >= p.len() {
        assert(s.take(p.len() as int)[0] != p[0]);
    }
}

/// Number of `$` in `v`, and whether `v` starts with one.
fn dollars(v: &Vec<char>) -> (r: usize)
    ensures
        r == dollar_count(v@),
{
    let mut n: usize = 0;
    let mut i: usize = 0;
    while i < v.len()
        invariant
            i <= v.len(),
            n == dollar_count(v@.take(i as int)),
            n <= i,
        decreases v.len() - i,
    {
        assert(v@.take(i + 1).drop_last() =~= v@.take(i as int));
        if v[i] == '$' {
            n = n + 1;
        }
        i = i + 1;
    }
    assert(v@.take(v.len() as int) =~= v@);
    n
}

/// `src` moved by `to - from` in `i32` arithmetic (see `shifted`).
fn shift(src: usize, from: usize, to: usize) -> (r: Option<usize>)
    ensures
        r == shifted(src, from, to),
{
    let d: i64 = (to as i32) as i64 - (from as i32) as i64;
    if d < -2147483648 || d > 2147483647 {
        return None;
    }
    let t: i64 = (src as i32) as i64 + d;
    if t < -2147483648 || t > 2147483647 {
        return None;
    }
    Some((t as i32) as usize)
}

fn shift_range(xs: usize, xe: usize, from: usize, to: usize) -> (r: Option<(usize, usize)>)
    ensures
        r == range_shift(xs, xe, from, to),
{
    let d: i64 = (to as i32) as i64 - (from as i32) as i64;
    if d < -2147483648 || d > 2147483647 {
        return None;
    }
    let a: i64 = (xs as i32) as i64 + d;
    let b: i64 = (xe as i32) as i64 + d;
    if a < -2147483648 || a > 2147483647 || b < -2147483648 || b > 2147483647 {
        return None;
    }
    let a2: usize = if a < 0 { 0 } else { a as usize };
    let b2: usize = if b < 0 { 0 } else { b as usize };
    Some((a2, b2))
}

fn rewrite(rule: TranslateRule, rolling: Vec<char>, old: &Vec<char>, new: &Vec<char>) -> (r: Option<Vec<char>>)
    ensures
        r matches Some(v) ==> rewrite_spec(rule, rolling@, old@, new@) == Some(v@),
        r is None ==> rewrite_spec(rule, rolling@, old@, new@) is None,
{
    match rule {
        TranslateRule::Anywhere => Some(replace_all(&rolling, old, new)),
        TranslateRule::RowsFrom(iy) => {
            let os = string_of(old);
            match parse_to_idx(os.as_str()) {
                Some((_, ay)) => if ay < iy {
                    Some(rolling)
                } else {
                    Some(replace_all(&rolling, old, new))
                },
                None => None,
            }
        },
        TranslateRule::ColumnsFrom(ix) => {
            let os = string_of(old);
            match parse_to_idx(os.as_str()) {
                Some((ax, _)) => if ax < ix {
                    Some(rolling)
                } else {
                    Some(replace_all(&rolling, old, new))
                },
                None => None,
            }
        },
    }
}

proof fn lemma_rewrite_keeps_head(rule: TranslateRule, rolling: Seq<char>, old: Seq<char>, new: Seq<char>)
    requires
        rolling.len() > 0,
        rolling[0] == '=',
        old.len() > 0,
        !old.contains('='),
    ensures
        rewrite_spec(rule, rolling, old, new) matches Some(r) ==> r.len() > 0 && r[0] == '=',
{
    assert(old[0] != '=') by {
        if old[0] == '=' {
            assert(old.contains('='));
        }
    }
    lemma_replace_keeps_head(rolling, old, new);
}

fn reference_chars(x: usize, y: usize, lock_x: bool, lock_y: bool) -> (r: Vec<char>)
    ensures
        r@ == reference_text(x, y, lock_x, lock_y),
{
    let letters = column_letters(x);
    let digits = usize_to_decimal(y);
    let mut out: Vec<char> = Vec::new();
    if lock_x {
        out.push('$');
        append_all(&mut out, &letters);
        append_all(&mut out, &digits);
        assert(out@ =~= seq!['$'] + letters@ + digits@);
    } else if lock_y {
        append_all(&mut out, &letters);
        out.push('$');
        append_all(&mut out, &digits);
        assert(out@ =~= letters@ + seq!['$'] + digits@);
    } else {
        append_all(&mut out, &letters);
        append_all(&mut out, &digits);
        assert(out@ =~= letters@ + digits@);
    }
    out
}

/// Rewrites one variable of `rolling` (see `translate_var`).
fn translate_one(
    rolling: Vec<char>,
    var: &String,
    from: (usize, usize),
    to: (usize, usize),
    rule: TranslateRule,
) -> (r: Result<Vec<char>, TranslateFault>)
    ensures
        r matches Ok(v) ==> translate_var(rolling@, var@, from, to, rule) == Some(v@),
        r is Err ==> translate_var(rolling@, var@, from, to, rule) is None,
{
    let vc = chars_of(var.as_str());
    let c = dollars(&vc);
    if c == 2 {
        return Ok(rolling);
    }
    let lock_x = c == 1 && vc[0] == '$';
    let lock_y = c == 1 && vc[0] != '$';
    proof {
        if c == 1 {
            assert(vc@.len() > 0);
        }
    }
    match parse_to_idx(var.as_str()) {
        Some((sx, sy)) => {
            let dx = if lock_x { Some(sx) } else { shift(sx, from.0, to.0) };
            let dy = if lock_y { Some(sy) } else { shift(sy, from.1, to.1) };
            match (dx, dy) {
                (Some(x), Some(y)) => {
                    let new = reference_chars(x, y, lock_x, lock_y);
                    match rewrite(rule, rolling, &vc, &new) {
                        Some(v) => Ok(v),
                        None => Err(TranslateFault::NotAReference),
                    }
                },
                _ => Err(TranslateFault::Overflow),
            }
        },
        None => match range_as_indices(var.as_str()) {
            Some((xs, xe)) => match shift_range(xs, xe, from.0, to.0) {
                Some((a, b)) => {
                    let mut new = column_letters(a);
                    new.push(':');
                    let end = column_letters(b);
                    append_all(&mut new, &end);
                    assert(new@ =~= column_letters_spec(a as nat) + seq![':'] + column_letters_spec(b as nat));
                    match rewrite(rule, rolling, &vc, &new) {
                        Some(v) => Ok(v),
                        None => Err(TranslateFault::NotAReference),
                    }
                },
                None => Err(TranslateFault::Overflow),
            },
            None => Ok(rolling),
        },
    }
}

proof fn lemma_translate_var_keeps_head(
    rolling: Seq<char>,
    var: Seq<char>,
    from: (usize, usize),
    to: (usize, usize),
    rule: TranslateRule,
)
    requires
        rolling.len() > 0,
        rolling[0] == '=',
        var.len() > 0,
        !var.contains('='),
    ensures
        translate_var(rolling, var, from, to, rule) matches Some(r) ==> r.len() > 0 && r[0] == '=',
{
    let c = dollar_count(var);
    let lock_x = c == 1 && var[0] == '$';
    let lock_y = c == 1 && var[0] != '$';
    match parse_to_idx_spec(var) {
        Some((sx, sy)) => {
            let dx = if lock_x { Some(sx) } else { shifted(sx, from.0, to.0) };
            let dy = if lock_y { Some(sy) } else { shifted(sy, from.1, to.1) };
            match (dx, dy) {
                (Some(x), Some(y)) => {
                    lemma_rewrite_keeps_head(rule, rolling, var, reference_text(x, y, lock_x, lock_y));
                },
                _ => {},
            }
        },
        None => match range_as_indices_spec(var) {
            Some((xs, xe)) => match range_shift(xs, xe, from.0, to.0) {
                Some((a, b)) => {
                    lemma_rewrite_keeps_head(
                        rule,
                        rolling,
                        var,
                        column_letters_spec(a as nat) + seq![':'] + column_letters_spec(b as nat),
                    );
                },
                None => {},
            },
            None => {},
        },
    }
}

/// Moves the references of equation `eq` (whose formula starts with `=`)
/// from `from` to `to` under `rule`; the result starts with `=` too.
pub fn translate_equation(
    eq: &String,
    from: (usize, usize),
    to: (usize, usize),
    rule: TranslateRule,
) -> (r: Result<String, TranslateFault>)
    requires
        eq@.len() > 0,
        eq@[0] == '=',
    ensures
        r matches Ok(s) ==> translate_equation_spec(eq@, from, to, rule) == Some(s@) && s@.len() > 0
            && s@[0] == '=',
        r is Err ==> translate_equation_spec(eq@, from, to, rule) is None,
{
    let cs = chars_of(eq.as_str());
    let mut body_chars: Vec<char> = Vec::new();
    let mut k: usize = 1;
    while k < cs.len()
        invariant
            1 <= k <= cs.len(),
            body_chars@ == cs@.subrange(1, k as int),
        decreases cs.len() - k,
    {
        body_chars.push(cs[k]);
        k = k + 1;
        assert(body_chars@ =~= cs@.subrange(1, k as int));
    }
    assert(body_chars@ =~= eq@.skip(1));
    let body = string_of(&body_chars);
    let fns = expression_functions(body.as_str());
    if fns.len() > 0 {
        return Err(TranslateFault::CallsFunction);
    }
    let vars = expression_variables(body.as_str());
    let ghost all = string_views(vars@);
    let mut rolling = cs;
    let mut i: usize = 0;
    assert(all.skip(0) =~= all);
    while i < vars.len()
        invariant
            i <= vars.len(),
            all == string_views(vars@),
            all == evalexpr_variables(eq@.skip(1)),
            evalexpr_functions(eq@.skip(1)).len() == 0,
            rolling@.len() > 0,
            rolling@[0] == '=',
            forall|j: int|
                0 <= j < vars@.len() ==> (#[trigger] vars@[j])@.len() > 0 && !vars@[j]@.contains('='),
            translate_vars(rolling@, all.skip(i as int), from, to, rule) == translate_vars(
                eq@,
                all,
                from,
                to,
                rule,
            ),
        decreases vars.len() - i,
    {
        let ghost before = rolling@;
        assert(all.skip(i as int)[0] == vars@[i as int]@);
        assert(all.skip(i as int).drop_first() =~= all.skip(i + 1));
        proof {
            lemma_translate_var_keeps_head(before, vars@[i as int]@, from, to, rule);
        }
        match translate_one(rolling, &vars[i], from, to, rule) {
            Ok(v) => {
                rolling = v;
            },
            Err(f) => {
                return Err(f);
            },
        }
        i = i + 1;
    }
    assert(all.skip(vars.len() as int) =~= Seq::<Seq<char>>::empty());
    assert(all.skip(0) =~= all);
    Ok(string_of(&rolling))
}


/// Foreground and background colors of a formatted cell.
#[derive(Clone, Copy, PartialEq, Eq, Debug)]
pub struct CellStyle {
    pub fg: Option<Color>,
    pub bg: Option<Color>,
}

impl CellStyle {
    /// No colors set.
    pub fn default() -> (r: CellStyle)
        ensures
            r.fg is None && r.bg is None,
    {
        CellStyle { fg: None, bg: None }
    }
}

/// A conditional format: when the cell's number is above (`GT`), below
/// (`LT`) or equal to (`EQ`) the threshold, the style applies. The
/// threshold is held as a number's rendering, like `CellType::Number`.
pub enum FormatRule {
    GT(String, CellStyle),
    LT(String, CellStyle),
    EQ(String, CellStyle),
}

impl FormatRule {
    pub open spec fn threshold(self) -> Seq<char> {
        match self {
            FormatRule::GT(v, _) => v@,
            FormatRule::LT(v, _) => v@,
            FormatRule::EQ(v, _) => v@,
        }
    }

    pub open spec fn style(self) -> CellStyle {
        match self {
            FormatRule::GT(_, s) => s,
            FormatRule::LT(_, s) => s,
            FormatRule::EQ(_, s) => s,
        }
    }

    /// The rule as one line: sign, threshold, foreground and background
    /// color names (`Reset` for an unset color), separated by `,`.
    pub open spec fn serialized(self) -> Seq<char> {
        seq![self.sign(), ','] + self.threshold() + seq![','] + color_text(self.style().fg.unwrap_or(Color::Reset))
            + seq![','] + color_text(self.style().bg.unwrap_or(Color::Reset))
    }

    pub open spec fn sign(self) -> char {
        match self {
            FormatRule::GT(_, _) => '>',
            FormatRule::LT(_, _) => '<',
            FormatRule::EQ(_, _) => '=',
        }
    }

    /// The rule's comparison sign: `>`, `<` or `=`.
    pub fn sign_char(&self) -> (r: char)
        ensures
            r == self.sign(),
    {
        match self {
            FormatRule::GT(_, _) => '>',
            FormatRule::LT(_, _) => '<',
            FormatRule::EQ(_, _) => '=',
        }
    }

    /// The rule's threshold.
    pub fn get_threashold(&self) -> (r: String)
        ensures
            r@ == self.threshold(),
    {
        match self {
            FormatRule::GT(v, _) => v.clone(),
            FormatRule::LT(v, _) => v.clone(),
            FormatRule::EQ(v, _) => v.clone(),
        }
    }

    /// The style the rule applies.
    pub fn get_style(&self) -> (r: CellStyle)
        ensures
            r == self.style(),
    {
        match self {
            FormatRule::GT(_, s) => *s,
            FormatRule::LT(_, s) => *s,
            FormatRule::EQ(_, s) => *s,
        }
    }

    /// The rule with `style` in place of its style, sign and threshold kept.
    pub open spec fn with_style(self, style: CellStyle) -> FormatRule {
        match self {
            FormatRule::GT(v, _) => FormatRule::GT(v, style),
            FormatRule::LT(v, _) => FormatRule::LT(v, style),
            FormatRule::EQ(v, _) => FormatRule::EQ(v, style),
        }
    }

    /// The style the rule applies, to change in place: whatever it is set
    /// to becomes the rule's style, the sign and threshold kept.
    pub fn get_style_mut(&mut self) -> (r: &mut CellStyle)
        ensures
            *r == old(self).style(),
            *final(self) == old(self).with_style(*final(r)),
    {
        match self {
            FormatRule::GT(_, s) => s,
            FormatRule::LT(_, s) => s,
            FormatRule::EQ(_, s) => s,
        }
    }

    /// The names of the rule's foreground and background colors, `None` for
    /// an unset one.
    pub fn style_string(&self) -> (r: (String, String))
        ensures
            r.0@ == (match self.style().fg {
                Some(c) => color_text(c),
                None => "None"@,
            }),
            r.1@ == (match self.style().bg {
                Some(c) => color_text(c),
                None => "None"@,
            }),
    {
        let s = self.get_style();
        let fg = match s.fg {
            Some(c) => color_name(c),
            None => "None".to_string(),
        };
        let bg = match s.bg {
            Some(c) => color_name(c),
            None => "None".to_string(),
        };
        (fg, bg)
    }

    /// The rule as one line: sign, threshold, foreground and background
    /// color names (`Reset` for an unset color), separated by `,`.
    pub fn serialize(&self) -> (r: String)
        ensures
            r@ == self.serialized(),
    {
        let style = self.get_style();
        let v = self.get_threashold();
        let fg = color_name(match style.fg { Some(c) => c, None => Color::Reset });
        let bg = color_name(match style.bg { Some(c) => c, None => Color::Reset });
        let mut out: Vec<char> = Vec::new();
        out.push(self.sign_char());
        out.push(',');
        append_all(&mut out, &chars_of(v.as_str()));
        out.push(',');
        append_all(&mut out, &chars_of(fg.as_str()));
        out.push(',');
        append_all(&mut out, &chars_of(bg.as_str()));
        assert(out@ =~= seq![self.sign(), ','] + self.threshold() + seq![','] + color_text(
            self.style().fg.unwrap_or(Color::Reset),
        ) + seq![','] + color_text(self.style().bg.unwrap_or(Color::Reset)));
        string_of(&out)
    }
}

/// The color a rule's line names, any color but `Reset`.
pub open spec fn named_color(name: Seq<char>) -> Option<Color> {
    if name == "Black"@ {
        Some(Color::Black)
    } else if name == "Red"@ {
        Some(Color::Red)
    } else if name == "Green"@ {
        Some(Color::Green)
    } else if name == "Yellow"@ {
        Some(Color::Yellow)
    } else if name == "Blue"@ {
        Some(Color::Blue)
    } else if name == "Magenta"@ {
        Some(Color::Magenta)
    } else if name == "Cyan"@ {
        Some(Color::Cyan)
    } else if name == "Gray"@ {
        Some(Color::Gray)
    } else if name == "DarkGray"@ {
        Some(Color::DarkGray)
    } else if name == "LightRed"@ {
        Some(Color::LightRed)
    } else if name == "LightGreen"@ {
        Some(Color::LightGreen)
    } else if name == "LightYellow"@ {
        Some(Color::LightYellow)
    } else if name == "LightBlue"@ {
        Some(Color::LightBlue)
    } else if name == "LightMagenta"@ {
        Some(Color::LightMagenta)
    } else if name == "LightCyan"@ {
        Some(Color::LightCyan)
    } else if name == "White"@ {
        Some(Color::White)
    } else {
        None
    }
}

/// The color `name` names (see `named_color`).
fn color_named(name: &Vec<char>) -> (r: Option<Color>)
    ensures
        r == named_color(name@),
{
    if crate::text::chars_eq(name, &chars_of("Black")) {
        return Some(Color::Black);
    }
    if crate::text::chars_eq(name, &chars_of("Red")) {
        return Some(Color::Red);
    }
    if crate::text::chars_eq(name, &chars_of("Green")) {
        return Some(Color::Green);
    }
    if crate::text::chars_eq(name, &chars_of("Yellow")) {
        return Some(Color::Yellow);
    }
    if crate::text::chars_eq(name, &chars_of("Blue")) {
        return Some(Color::Blue);
    }
    if crate::text::chars_eq(name, &chars_of("Magenta")) {
        return Some(Color::Magenta);
    }
    if crate::text::chars_eq(name, &chars_of("Cyan")) {
        return Some(Color::Cyan);
    }
    if crate::text::chars_eq(name, &chars_of("Gray")) {
        return Some(Color::Gray);
    }
    if crate::text::chars_eq(name, &chars_of("DarkGray")) {
        return Some(Color::DarkGray);
    }
    if crate::text::chars_eq(name, &chars_of("LightRed")) {
        return Some(Color::LightRed);
    }
    if crate::text::chars_eq(name, &chars_of("LightGreen")) {
        return Some(Color::LightGreen);
    }
    if crate::text::chars_eq(name, &chars_of("LightYellow")) {
        return Some(Color::LightYellow);
    }
    if crate::text::chars_eq(name, &chars_of("LightBlue")) {
        return Some(Color::LightBlue);
    }
    if crate::text::chars_eq(name, &chars_of("LightMagenta")) {
        return Some(Color::LightMagenta);
    }
    if crate::text::chars_eq(name, &chars_of("LightCyan")) {
        return Some(Color::LightCyan);
    }
    if crate::text::chars_eq(name, &chars_of("White")) {
        return Some(Color::White);
    }
    None
}

/// The rule a line names: four parts separated by `,`, the first starting
/// with the sign (`>`, `<` or `=`), the second the threshold, which
/// `threshold` gives as read; the third and fourth name the colors, a name
/// that is no color (such as `Reset`) leaving that color unset.
pub open spec fn deserialized(data: Seq<char>, threshold: Option<String>) -> Option<FormatRule> {
    let parts = split_on(data, ',');
    let style = CellStyle { fg: named_color(parts[2]), bg: named_color(parts[3]) };
    if parts.len() == 4 && threshold is Some && parts[0].len() > 0 {
        let t = threshold.unwrap();
        if parts[0][0] == '=' {
            Some(FormatRule::EQ(t, style))
        } else if parts[0][0] == '>' {
            Some(FormatRule::GT(t, style))
        } else if parts[0][0] == '<' {
            Some(FormatRule::LT(t, style))
        } else {
            None
        }
    } else {
        None
    }
}

impl FormatRule {
    /// Reads a rule from its line (see `deserialized`); `threshold` is the
    /// rendering of the number the second part reads as, `None` when it
    /// does not read as one.
    pub fn deserialize(data: &str, threshold: Option<String>) -> (r: Option<FormatRule>)
        ensures
            r == deserialized(data@, threshold),
    {
        let parts = split_at_char(&chars_of(data), ',');
        proof {
            assert(views(parts@).len() == parts@.len());
        }
        if parts.len() != 4 {
            return None;
        }
        proof {
            assert forall|k: int| 0 <= k < 4 implies #[trigger] views(parts@)[k] == parts@[k]@ by {}
        }
        let style = CellStyle { fg: color_named(&parts[2]), bg: color_named(&parts[3]) };
        let t = match threshold {
            Some(t) => t,
            None => {
                return None;
            },
        };
        if parts[0].len() == 0 {
            return None;
        }
        let c = parts[0][0];
        if c == '=' {
            Some(FormatRule::EQ(t, style))
        } else if c == '>' {
            Some(FormatRule::GT(t, style))
        } else if c == '<' {
            Some(FormatRule::LT(t, style))
        } else {
            None
        }
    }
}

proof fn lemma_split_extend(p: Seq<char>, y: Seq<char>, sep: char)
    requires
        !y.contains(sep),
    ensures
        split_on(p + y, sep) == split_on(p, sep).drop_last().push(split_on(p, sep).last() + y),
    decreases y.len(),
{
    crate::text::lemma_split_on_nonempty(p, sep);
    if y.len() == 0 {
        assert(p + y =~= p);
        assert(split_on(p, sep).last() + y =~= split_on(p, sep).last());
        assert(split_on(p, sep).drop_last().push(split_on(p, sep).last()) =~= split_on(p, sep));
    } else {
        let y1 = y.drop_last();
        assert(!y1.contains(sep)) by {
            if y1.contains(sep) {
                let k = choose|k: int| 0 <= k < y1.len() && y1[k] == sep;
                assert(y[k] == sep);
            }
        }
        assert(y.last() != sep) by {
            assert(y[y.len() - 1] == y.last());
        }
        lemma_split_extend(p, y1, sep);
        assert((p + y).drop_last() =~= p + y1);
        assert((p + y).last() == y.last());
        crate::text::lemma_split_on_nonempty(p + y1, sep);
        let q = split_on(p + y1, sep);
        assert(q.last() == split_on(p, sep).last() + y1);
        assert(q.drop_last() =~= split_on(p, sep).drop_last());
        assert(q.last().push(y.last()) =~= split_on(p, sep).last() + y);
        assert(split_on(p + y, sep) == q.drop_last().push(q.last().push(y.last())));
    }
}

proof fn lemma_split_sep(p: Seq<char>, y: Seq<char>, sep: char)
    requires
        !y.contains(sep),
    ensures
        split_on(p + seq![sep] + y, sep) == split_on(p, sep).push(y),
{
    let q = p + seq![sep];
    assert(q.drop_last() =~= p);
    assert(q.last() == sep);
    lemma_split_extend(q, y, sep);
    assert(split_on(q, sep) == split_on(p, sep).push(Seq::empty()));
    assert(Seq::<char>::empty() + y =~= y);
    assert(split_on(q, sep).drop_last() =~= split_on(p, sep));
}

proof fn lemma_color_names(c: Color)
    requires
        c != Color::Reset,
    ensures
        named_color(color_text(c)) == Some(c),
        !color_text(c).contains(','),
        !color_text(Color::Reset).contains(','),
        named_color(color_text(Color::Reset)) is None,
{
    reveal_strlit("Black");
    reveal_strlit("Red");
    reveal_strlit("Green");
    reveal_strlit("Yellow");
    reveal_strlit("Blue");
    reveal_strlit("Magenta");
    reveal_strlit("Cyan");
    reveal_strlit("Gray");
    reveal_strlit("DarkGray");
    reveal_strlit("LightRed");
    reveal_strlit("LightGreen");
    reveal_strlit("LightYellow");
    reveal_strlit("LightBlue");
    reveal_strlit("LightMagenta");
    reveal_strlit("LightCyan");
    reveal_strlit("White");
    reveal_strlit("Reset");
    assert("Black"@.len() == 5);
    assert("Red"@.len() == 3);
    assert("Green"@.len() == 5);
    assert("Yellow"@.len() == 6);
    assert("Blue"@.len() == 4);
    assert("Magenta"@.len() == 7);
    assert("Cyan"@.len() == 4);
    assert("Gray"@.len() == 4);
    assert("DarkGray"@.len() == 8);
    assert("LightRed"@.len() == 8);
    assert("LightGreen"@.len() == 10);
    assert("LightYellow"@.len() == 11);
    assert("LightBlue"@.len() == 9);
    assert("LightMagenta"@.len() == 12);
    assert("LightCyan"@.len() == 9);
    assert("White"@.len() == 5);
    assert("Reset"@.len() == 5);
    assert("Black"@[0] != "Green"@[0]);
    assert("Black"@[0] != "White"@[0]);
    assert("Black"@[0] != "Reset"@[0]);
    assert("Green"@[0] != "White"@[0]);
    assert("Green"@[0] != "Reset"@[0]);
    assert("Blue"@[0] != "Cyan"@[0]);
    assert("Blue"@[0] != "Gray"@[0]);
    assert("Cyan"@[0] != "Gray"@[0]);
    assert("DarkGray"@[0] != "LightRed"@[0]);
    assert("LightBlue"@[5] != "LightCyan"@[5]);
    assert("White"@[0] != "Reset"@[0]);
    match c {
        Color::Black => {
            assert(named_color("Black"@) == Some(Color::Black));
        },
        Color::Red => {
            assert(named_color("Red"@) == Some(Color::Red));
        },
        Color::Green => {
            assert(named_color("Green"@) == Some(Color::Green));
        },
        Color::Yellow => {
            assert(named_color("Yellow"@) == Some(Color::Yellow));
        },
        Color::Blue => {
            assert(named_color("Blue"@) == Some(Color::Blue));
        },
        Color::Magenta => {
            assert(named_color("Magenta"@) == Some(Color::Magenta));
        },
        Color::Cyan => {
            assert(named_color("Cyan"@) == Some(Color::Cyan));
        },
        Color::Gray => {
            assert(named_color("Gray"@) == Some(Color::Gray));
        },
        Color::DarkGray => {
            assert(named_color("DarkGray"@) == Some(Color::DarkGray));
        },
        Color::LightRed => {
            assert(named_color("LightRed"@) == Some(Color::LightRed));
        },
        Color::LightGreen => {
            assert(named_color("LightGreen"@) == Some(Color::LightGreen));
        },
        Color::LightYellow => {
            assert(named_color("LightYellow"@) == Some(Color::LightYellow));
        },
        Color::LightBlue => {
            assert(named_color("LightBlue"@) == Some(Color::LightBlue));
        },
        Color::LightMagenta => {
            assert(named_color("LightMagenta"@) == Some(Color::LightMagenta));
        },
        Color::LightCyan => {
            assert(named_color("LightCyan"@) == Some(Color::LightCyan));
        },
        Color::White => {
            assert(named_color("White"@) == Some(Color::White));
        },
        Color::Reset => {},
    }
}

/// Reading back the line of a rule gives the rule, when its threshold
/// holds no `,` and is read as itself, and neither of its colors is
/// `Reset` (an unset color reads back as unset).
pub proof fn lemma_rule_round_trip(r: FormatRule, t: String)
    requires
        t@ == r.threshold(),
        !r.threshold().contains(','),
        r.style().fg != Some(Color::Reset),
        r.style().bg != Some(Color::Reset),
    ensures
        deserialized(r.serialized(), Some(t)) == Some(match r {
            FormatRule::GT(_, s) => FormatRule::GT(t, s),
            FormatRule::LT(_, s) => FormatRule::LT(t, s),
            FormatRule::EQ(_, s) => FormatRule::EQ(t, s),
        }),
{
    let fg = r.style().fg.unwrap_or(Color::Reset);
    let bg = r.style().bg.unwrap_or(Color::Reset);
    if fg != Color::Reset {
        lemma_color_names(fg);
    } else {
        lemma_color_names(Color::Black);
    }
    if bg != Color::Reset {
        lemma_color_names(bg);
    }
    let a = seq![r.sign()];
    assert(!a.contains(',')) by {
        assert(a[0] == r.sign());
    }
    lemma_split_extend(Seq::empty(), a, ',');
    assert(Seq::<char>::empty() + a =~= a);
    assert(split_on(Seq::<char>::empty(), ',') == seq![Seq::<char>::empty()]);
    assert(split_on(a, ',') =~= seq![a]);
    lemma_split_sep(a, r.threshold(), ',');
    let b = a + seq![','] + r.threshold();
    lemma_split_sep(b, color_text(fg), ',');
    let c = b + seq![','] + color_text(fg);
    lemma_split_sep(c, color_text(bg), ',');
    let d = c + seq![','] + color_text(bg);
    assert(d =~= r.serialized());
    let parts = split_on(d, ',');
    assert(parts =~= seq![a, r.threshold(), color_text(fg), color_text(bg)]);
    assert(named_color(color_text(fg)) == r.style().fg);
    assert(named_color(color_text(bg)) == r.style().bg);
}

impl Clone for FormatRule {
    fn clone(&self) -> (r: FormatRule)
        ensures
            r == *self,
    {
        match self {
            FormatRule::GT(v, s) => FormatRule::GT(v.clone(), *s),
            FormatRule::LT(v, s) => FormatRule::LT(v.clone(), *s),
            FormatRule::EQ(v, s) => FormatRule::EQ(v.clone(), *s),
        }
    }
}

/// The formatting rules of a cell, tried in order.
pub struct Formatting {
    pub rules: Vec<FormatRule>,
}

/// `n` followed by ` rule` when it is one, ` rules` otherwise.
pub open spec fn rule_count_text(n: nat) -> Seq<char> {
    decimal(n) + if n == 1 { " rule"@ } else { " rules"@ }
}

impl Formatting {
    /// No rules.
    pub fn default() -> (r: Formatting)
        ensures
            r.rules@.len() == 0,
    {
        Formatting { rules: Vec::new() }
    }

    /// How many rules there are, as `1 rule` or `3 rules`.
    pub fn to_string(&self) -> (r: String)
        ensures
            r@ == rule_count_text(self.rules@.len()),
    {
        let mut out = usize_to_decimal(self.rules.len());
        let suffix = if self.rules.len() == 1 { " rule" } else { " rules" };
        append_all(&mut out, &chars_of(suffix));
        string_of(&out)
    }
}

/// The style of the first rule that applies, scanning from rule `i`; the
/// default style when none does.
pub open spec fn first_applying_style(rules: Seq<FormatRule>, applies: Seq<bool>, i: int) -> CellStyle
    decreases rules.len() - i,
{
    if i < 0 || i >= rules.len() {
        CellStyle { fg: None, bg: None }
    } else if applies[i] {
        rules[i].style()
    } else {
        first_applying_style(rules, applies, i + 1)
    }
}

impl Formatting {
    /// The style a value gets: that of the first rule that applies to it,
    /// else the default style. `applies[i]` tells whether rule `i`'s
    /// comparison holds of the value.
    pub fn eval_for_style(&self, applies: &Vec<bool>) -> (r: CellStyle)
        requires
            applies@.len() == self.rules@.len(),
        ensures
            r == first_applying_style(self.rules@, applies@, 0),
    {
        let mut i: usize = 0;
        while i < self.rules.len()
            invariant
                i <= self.rules@.len(),
                applies@.len() == self.rules@.len(),
                first_applying_style(self.rules@, applies@, 0) == first_applying_style(
                    self.rules@,
                    applies@,
                    i as int,
                ),
            decreases self.rules.len() - i,
        {
            if applies[i] {
                return self.rules[i].get_style();
            }
            i = i + 1;
        }
        CellStyle::default()
    }
}

impl Clone for Formatting {
    fn clone(&self) -> (r: Formatting)
        ensures
            r.rules@ == self.rules@,
    {
        let mut rules: Vec<FormatRule> = Vec::new();
        let mut i: usize = 0;
        while i < self.rules.len()
            invariant
                i <= self.rules.len(),
                rules@ == self.rules@.take(i as int),
            decreases self.rules.len() - i,
        {
            rules.push(self.rules[i].clone());
            i = i + 1;
            assert(rules@ =~= self.rules@.take(i as int));
        }
        assert(self.rules@.take(self.rules.len() as int) =~= self.rules@);
        Formatting { rules }
    }
}

/// A cell of the sheet: its contents and its formatting.
pub struct Cell {
    pub value: Option<CellType>,
    pub formatting: Option<Formatting>,
}

impl Cell {
    /// The cell's contents are well formed.
    pub open spec fn wf(self) -> bool {
        self.value matches Some(v) ==> v.wf()
    }

    /// An empty cell with no formatting.
    pub fn default() -> (r: Cell)
        ensures
            r.value is None,
            r.formatting is None,
    {
        Cell { value: None, formatting: None }
    }

    /// A cell holding `value`, with no formatting.
    pub fn from_value(value: CellType) -> (r: Cell)
        ensures
            r.value == Some(value),
            r.formatting is None,
    {
        Cell { value: Some(value), formatting: None }
    }

    /// Adds a formatting rule after the cell's other rules.
    pub fn push_rule(&mut self, rule: FormatRule)
        ensures
            final(self).value == old(self).value,
            final(self).formatting matches Some(f) && f.rules@ == (match old(self).formatting {
                Some(g) => g.rules@,
                None => Seq::empty(),
            }).push(rule),
    {
        match &mut self.formatting {
            Some(f) => {
                f.rules.push(rule);
            },
            None => {
                let mut f = Formatting::default();
                f.rules.push(rule);
                self.formatting = Some(f);
            },
        }
    }

    /// How many formatting rules the cell has (`1 rule`, `2 rules`), or
    /// nothing when it has no formatting.
    pub fn format_string(&self) -> (r: String)
        ensures
            r@ == (match self.formatting {
                Some(f) => rule_count_text(f.rules@.len()),
                None => Seq::empty(),
            }),
    {
        match &self.formatting {
            Some(f) => f.to_string(),
            None => String::new(),
        }
    }

    /// The text the cell's value displays, or nothing for an empty cell.
    pub fn value_string(&self) -> (r: String)
        ensures
            r@ == (match self.value {
                Some(v) => v.text(),
                None => Seq::empty(),
            }),
    {
        match &self.value {
            Some(v) => v.to_string(),
            None => String::new(),
        }
    }

    /// The value as written in a CSV file (see `CellType::escaped_csv_string`),
    /// or nothing for an empty cell.
    pub fn escaped_csv_string(&self) -> (r: String)
        ensures
            r@ == (match self.value {
                Some(v) => escape_csv_spec(v.text()),
                None => Seq::empty(),
            }),
    {
        match &self.value {
            Some(v) => v.escaped_csv_string(),
            None => String::new(),
        }
    }

    /// The cell as it reads when moved from `from` to `to`: an equation has
    /// its references rewritten under `rule` (see `translate_equation_spec`)
    /// and loses its formatting; a number or string is kept as it is; an
    /// empty cell comes out empty and unformatted. `Err` where the rewrite
    /// cannot be done.
    pub fn custom_translate_cell(&self, from: (usize, usize), to: (usize, usize), rule: TranslateRule) -> (r:
        Result<Cell, TranslateFault>)
        requires
            self.wf(),
        ensures
            match self.value {
                None => r matches Ok(c) && c.value is None && c.formatting is None,
                Some(CellType::Equation(eq)) => match translate_equation_spec(eq@, from, to, rule) {
                    Some(neq) => r matches Ok(c) && c.value matches Some(CellType::Equation(e)) && e@
                        == neq && c.formatting is None,
                    None => r is Err,
                },
                Some(_) => r matches Ok(c) && c.value == self.value && c.formatting_same(*self),
            },
            r matches Ok(c) ==> c.wf(),
    {
        match &self.value {
            None => Ok(Cell::default()),
            Some(CellType::Equation(eq)) => match translate_equation(eq, from, to, rule) {
                Ok(neq) => Ok(Cell { value: Some(CellType::Equation(neq)), formatting: None }),
                Err(f) => Err(f),
            },
            Some(_) => Ok(self.clone()),
        }
    }

    /// `custom_translate_cell` with every reference rewritten.
    pub fn translate_cell(&self, from: (usize, usize), to: (usize, usize)) -> (r: Result<Cell, TranslateFault>)
        requires
            self.wf(),
        ensures
            match self.value {
                None => r matches Ok(c) && c.value is None && c.formatting is None,
                Some(CellType::Equation(eq)) => match translate_equation_spec(eq@, from, to, TranslateRule::Anywhere) {
                    Some(neq) => r matches Ok(c) && c.value matches Some(CellType::Equation(e)) && e@
                        == neq && c.formatting is None,
                    None => r is Err,
                },
                Some(_) => r matches Ok(c) && c.value == self.value && c.formatting_same(*self),
            },
            r matches Ok(c) ==> c.wf(),
    {
        self.custom_translate_cell(from, to, TranslateRule::Anywhere)
    }

    /// Both cells have the same formatting rules (or both none).
    pub open spec fn formatting_same(self, other: Cell) -> bool {
        match (self.formatting, other.formatting) {
            (Some(a), Some(b)) => a.rules@ == b.rules@,
            (None, None) => true,
            _ => false,
        }
    }
}

impl Clone for Cell {
    fn clone(&self) -> (r: Cell)
        ensures
            r.value == self.value,
            r.formatting_same(*self),
    {
        let value = match &self.value {
            Some(v) => Some(v.clone()),
            None => None,
        };
        let formatting = match &self.formatting {
            Some(f) => Some(f.clone()),
            None => None,
        };
        Cell { value, formatting }
    }
}


/// `new` is what `old` reads as after a move under `rule`: an equation
/// with its references rewritten, anything else unchanged.
pub open spec fn translates_to(
    old: CellType,
    new: CellType,
    from: (usize, usize),
    to: (usize, usize),
    rule: TranslateRule,
) -> bool {
    match old {
        CellType::Equation(e) => new matches CellType::Equation(n) && translate_equation_spec(
            e@,
            from,
            to,
            rule,
        ) == Some(n@),
        _ => new == old,
    }
}

/// Moving `c` under `rule` cannot be done.
pub open spec fn translation_fails(c: CellType, from: (usize, usize), to: (usize, usize), rule: TranslateRule) -> bool {
    c matches CellType::Equation(e) && translate_equation_spec(e@, from, to, rule) is None
}

impl CellType {
    /// The contents as they read after a move from `from` to `to`: an
    /// equation has its references rewritten under `rule`; a number or a
    /// string is unchanged. `Err` exactly when the rewrite cannot be done.
    pub fn translated(&self, from: (usize, usize), to: (usize, usize), rule: TranslateRule) -> (r: Result<
        CellType,
        TranslateFault,
    >)
        requires
            self.wf(),
        ensures
            r matches Ok(n) ==> translates_to(*self, n, from, to, rule) && n.wf(),
            r is Err <==> translation_fails(*self, from, to, rule),
    {
        match self {
            CellType::Equation(eq) => match translate_equation(eq, from, to, rule) {
                Ok(n) => Ok(CellType::Equation(n)),
                Err(f) => Err(f),
            },
            _ => Ok(self.clone()),
        }
    }
}

} // verus!
