//! The window onto the sheet: how far it is scrolled, how large a cell is
//! drawn, and how many cells fit on the screen.
use vstd::prelude::*;
use crate::grid::LEN;
use crate::text::{chars_of, parse_usize, parse_usize_spec};
use crate::vars::Vars;

verus! {

/// A size setting: the number `vars` gives for `name`, when it gives one
/// that reads as a `usize`, else `default`.
pub open spec fn setting(vars: Map<Seq<char>, Seq<char>>, name: Seq<char>, default: usize) -> usize {
    if vars.contains_key(name) && parse_usize_spec(vars[name]) is Some {
        parse_usize_spec(vars[name]).unwrap()
    } else {
        default
    }
}

/// The scroll position on one axis after the cursor at `c` is brought
/// into a window that starts at `s` and shows `n` more cells after the
/// first: the window moves just enough.
pub open spec fn follow(s: usize, c: usize, n: int) -> usize {
    if c < s {
        c
    } else if c > s + n {
        (c - n) as usize
    } else {
        s
    }
}

/// How many cells of size `cell` fit in `space` characters, at most
/// `LEN - 1`.
pub open spec fn fit(space: int, cell: int) -> int {
    if space / cell > LEN {
        LEN - 1
    } else {
        space / cell
    }
}

/// `v` kept between 0 and `usize::MAX`.
pub open spec fn saturate(v: int) -> usize {
    if v < 0 {
        0
    } else if v > usize::MAX {
        usize::MAX
    } else {
        v as usize
    }
}

/// The move that centres the window on `c`: the cursor minus the
/// window's centre, each read as `isize`.
pub open spec fn center_delta(c: usize, center: usize) -> int {
    (c as isize) as int - (center as isize) as int
}

/// The scroll position, the default cell size and the size of the screen
/// area last drawn on.
pub struct ScreenSpace {
    /// This is measured in cells
    scroll: (usize, usize),
    default_cell_len: usize,
    default_cell_hight: usize,
    /// This is measured in chars
    last_seen_screen_size: (usize, usize),
}

impl ScreenSpace {
    /// How far the window is scrolled `(x, y)`, in cells.
    pub closed spec fn scroll_at(self) -> (usize, usize) {
        self.scroll
    }

    /// The size of the screen area last drawn on `(width, height)`, in
    /// characters.
    pub closed spec fn seen(self) -> (usize, usize) {
        self.last_seen_screen_size
    }

    /// The cell size used when no setting gives one `(width, height)`.
    pub closed spec fn defaults(self) -> (usize, usize) {
        (self.default_cell_len, self.default_cell_hight)
    }

    /// Cell width: the `length` setting, else the default.
    pub open spec fn width_of(self, vars: Map<Seq<char>, Seq<char>>) -> usize {
        setting(vars, "length"@, self.defaults().0)
    }

    /// Cell height: the `height` setting, else the default.
    pub open spec fn height_of(self, vars: Map<Seq<char>, Seq<char>>) -> usize {
        setting(vars, "height"@, self.defaults().1)
    }

    /// How many cells after the first one the window shows across; the
    /// screen shows two cells fewer than its width holds.
    pub open spec fn cells_across(self, vars: Map<Seq<char>, Seq<char>>) -> int {
        self.seen().0 / self.width_of(vars) - 2
    }

    /// How many cells after the first one the window shows down.
    pub open spec fn cells_down(self, vars: Map<Seq<char>, Seq<char>>) -> int {
        self.seen().1 / self.height_of(vars) - 2
    }

    /// The cell sizes are positive and the screen last drawn on holds at
    /// least two cells each way.
    pub open spec fn sized(self, vars: Map<Seq<char>, Seq<char>>) -> bool {
        &&& self.width_of(vars) > 0
        &&& self.height_of(vars) > 0
        &&& self.cells_across(vars) >= 0
        &&& self.cells_down(vars) >= 0
    }

    /// The window fits and its far edge can be computed.
    pub open spec fn can_follow(self, vars: Map<Seq<char>, Seq<char>>) -> bool {
        &&& self.sized(vars)
        &&& self.scroll_at().0 + self.cells_across(vars) <= usize::MAX
        &&& self.scroll_at().1 + self.cells_down(vars) <= usize::MAX
    }

    /// Not scrolled, cells 10 wide and 1 high, no screen seen yet.
    pub fn new() -> (r: ScreenSpace)
        ensures
            r.scroll_at() == (0usize, 0usize),
            r.defaults() == (10usize, 1usize),
            r.seen() == (0usize, 0usize),
    {
        ScreenSpace { scroll: (0, 0), default_cell_len: 10, default_cell_hight: 1, last_seen_screen_size: (0, 0) }
    }

    /// The size of the screen area last drawn on.
    pub fn seen_size(&self) -> (r: (usize, usize))
        ensures
            r == self.seen(),
    {
        self.last_seen_screen_size
    }

    /// Columns scrolled past.
    pub fn scroll_x(&self) -> (r: usize)
        ensures
            r == self.scroll_at().0,
    {
        self.scroll.0
    }

    /// Rows scrolled past.
    pub fn scroll_y(&self) -> (r: usize)
        ensures
            r == self.scroll_at().1,
    {
        self.scroll.1
    }

    /// The height of a cell in characters.
    pub fn get_cell_height(&self, vars: &Vars) -> (r: usize)
        ensures
            r == self.height_of(vars@),
    {
        if let Some(h) = vars.get("height") {
            if let Some(p) = parse_usize(&chars_of(h.as_str())) {
                return p;
            }
        }
        self.default_cell_hight
    }

    /// The width of a cell in characters.
    pub fn get_cell_width(&self, vars: &Vars) -> (r: usize)
        ensures
            r == self.width_of(vars@),
    {
        if let Some(h) = vars.get("length") {
            if let Some(p) = parse_usize(&chars_of(h.as_str())) {
                return p;
            }
        }
        self.default_cell_len
    }

    /// How many cells fit in a screen area `width` by `height` characters
    /// (at most `LEN - 1` each way); the area is remembered as the screen
    /// last drawn on.
    pub fn how_many_cells_fit_in(&mut self, width: u16, height: u16, vars: &Vars) -> (r: (u16, u16))
        requires
            old(self).width_of(vars@) > 0,
            old(self).height_of(vars@) > 0,
        ensures
            final(self).seen() == (width as usize, height as usize),
            final(self).scroll_at() == old(self).scroll_at(),
            final(self).defaults() == old(self).defaults(),
            r.0 as int == fit(width as int, old(self).width_of(vars@) as int),
            r.1 as int == fit(height as int, old(self).height_of(vars@) as int),
    {
        self.last_seen_screen_size = (width as usize, height as usize);
        let w = self.get_cell_width(vars);
        let h = self.get_cell_height(vars);
        let x_max = if width as usize / w > LEN { LEN - 1 } else { width as usize / w };
        let y_max = if height as usize / h > LEN { LEN - 1 } else { height as usize / h };
        (x_max as u16, y_max as u16)
    }

    /// How many cells after the first the window shows `(across, down)`.
    pub fn get_screen_size(&self, vars: &Vars) -> (r: (usize, usize))
        requires
            self.sized(vars@),
        ensures
            r == (self.cells_across(vars@) as usize, self.cells_down(vars@) as usize),
    {
        let w = self.get_cell_width(vars);
        let h = self.get_cell_height(vars);
        (self.last_seen_screen_size.0 / w - 2, self.last_seen_screen_size.1 / h - 2)
    }

    /// Scrolls just enough that `cursor` is inside the window.
    pub fn scroll_based_on_cursor_location(&mut self, cursor: (usize, usize), vars: &Vars)
        requires
            old(self).can_follow(vars@),
        ensures
            final(self).scroll_at() == (
                follow(old(self).scroll_at().0, cursor.0, old(self).cells_across(vars@)),
                follow(old(self).scroll_at().1, cursor.1, old(self).cells_down(vars@)),
            ),
            final(self).scroll_at().0 <= cursor.0 <= final(self).scroll_at().0 + old(self).cells_across(vars@),
            final(self).scroll_at().1 <= cursor.1 <= final(self).scroll_at().1 + old(self).cells_down(vars@),
            final(self).seen() == old(self).seen(),
            final(self).defaults() == old(self).defaults(),
    {
        let (cursor_x, cursor_y) = cursor;
        let (x_cells, y_cells) = self.get_screen_size(vars);
        let lower_x = self.scroll_x();
        let upper_x = self.scroll_x() + x_cells;
        if cursor_x < lower_x {
            let delta = lower_x - cursor_x;
            self.scroll.0 = self.scroll.0.saturating_sub(delta);
        }
        if cursor_x > upper_x {
            let delta = cursor_x - upper_x;
            self.scroll.0 = self.scroll.0.saturating_add(delta);
        }
        let lower_y = self.scroll_y();
        let upper_y = self.scroll_y() + y_cells;
        if cursor_y < lower_y {
            let delta = lower_y - cursor_y;
            self.scroll.1 = self.scroll.1.saturating_sub(delta);
        }
        if cursor_y > upper_y {
            let delta = cursor_y - upper_y;
            self.scroll.1 = self.scroll.1.saturating_add(delta);
        }
    }

    /// Scrolls across so that the window's centre column is the cursor's.
    pub fn center_x(&mut self, cursor: (usize, usize), vars: &Vars)
        requires
            old(self).sized(vars@),
            old(self).scroll_at().0 + old(self).cells_across(vars@) / 2 <= usize::MAX,
            isize::MIN <= center_delta(
                cursor.0,
                (old(self).scroll_at().0 + old(self).cells_across(vars@) / 2) as usize,
            ) <= isize::MAX,
        ensures
            final(self).scroll_at() == (
                saturate(old(self).scroll_at().0 + center_delta(
                    cursor.0,
                    (old(self).scroll_at().0 + old(self).cells_across(vars@) / 2) as usize,
                )),
                old(self).scroll_at().1,
            ),
            final(self).seen() == old(self).seen(),
            final(self).defaults() == old(self).defaults(),
    {
        let (x_cells, _) = self.get_screen_size(vars);
        let x_center = self.scroll_x() + x_cells / 2;
        let delta: isize = #[verifier::truncate] (cursor.0 as isize) - #[verifier::truncate] (x_center as isize);
        self.scroll.0 = add_signed_saturating(self.scroll.0, delta);
    }

    /// Scrolls down so that the window's centre row is the cursor's.
    pub fn center_y(&mut self, cursor: (usize, usize), vars: &Vars)
        requires
            old(self).sized(vars@),
            old(self).scroll_at().1 + old(self).cells_down(vars@) / 2 <= usize::MAX,
            isize::MIN <= center_delta(
                cursor.1,
                (old(self).scroll_at().1 + old(self).cells_down(vars@) / 2) as usize,
            ) <= isize::MAX,
        ensures
            final(self).scroll_at() == (
                old(self).scroll_at().0,
                saturate(old(self).scroll_at().1 + center_delta(
                    cursor.1,
                    (old(self).scroll_at().1 + old(self).cells_down(vars@) / 2) as usize,
                )),
            ),
            final(self).seen() == old(self).seen(),
            final(self).defaults() == old(self).defaults(),
    {
        let (_, y_cells) = self.get_screen_size(vars);
        let y_center = self.scroll_y() + y_cells / 2;
        let delta: isize = #[verifier::truncate] (cursor.1 as isize) - #[verifier::truncate] (y_center as isize);
        self.scroll.1 = add_signed_saturating(self.scroll.1, delta);
    }
}

/// `usize::saturating_add_signed`: `a + d`, kept between 0 and
/// `usize::MAX`.
fn add_signed_saturating(a: usize, d: isize) -> (r: usize)
    ensures
        r == saturate(a + d),
{
    if d >= 0 {
        a.saturating_add(d as usize)
    } else {
        let m: usize = ((-(d + 1)) as usize) + 1;
        a.saturating_sub(m)
    }
}

/// `n` spaces.
pub open spec fn spaces(n: nat) -> Seq<char> {
    Seq::new(n, |i: int| ' ')
}

/// `text` with half of the room it leaves in `space` characters (counted
/// in bytes, rounded down) put before it.
pub open spec fn centered_text(text: Seq<char>, space: int) -> Seq<char> {
    let len = vstd::utf8::encode_utf8(text).len();
    spaces(if space > len { ((space - len) / 2) as nat } else { 0 }) + text
}

/// Centres `text` in `avaliable_space` characters, as a header is drawn:
/// `99` in 4 becomes ` 99`.
pub fn center_text(text: &str, avaliable_space: i32) -> (r: String)
    requires
        vstd::utf8::encode_utf8(text@).len() <= i32::MAX,
    ensures
        r@ == centered_text(text@, avaliable_space as int),
{
    let len = text.len();
    let ghost blen = vstd::utf8::encode_utf8(text@).len();
    assert(len == blen);
    let margin: i64 = avaliable_space as i64 - len as i64;
    let mut out: Vec<char> = Vec::new();
    if margin > 0 {
        let half: i64 = margin / 2;
        let mut k: i64 = 0;
        while k < half
            invariant
                0 <= k <= half,
                out@ == spaces(k as nat),
            decreases half - k,
        {
            out.push(' ');
            k = k + 1;
            assert(out@ =~= spaces(k as nat));
        }
        assert(half == (avaliable_space - blen) / 2);
    } else {
        assert(out@ =~= spaces(0));
    }
    crate::text::append_all(&mut out, &crate::text::chars_of(text));
    crate::text::string_of(&out)
}

} // verus!
