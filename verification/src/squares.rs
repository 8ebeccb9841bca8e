//! What the squares of the sheet's window show and where they are drawn:
//! the cell behind a square, the shade of a header square, how far a
//! cell's text may run on into the empty cells to its right, the text cut
//! to that width, and the rectangle a square takes on the screen.
use vstd::prelude::*;
use crate::grid::{Grid, LEN};
use vstd::utf8::{encode_utf8, is_char_boundary};
use vstd::string::StringSliceAdditionalSpecFns;

verus! {

/// The cell a square shows along one axis: square 0 holds the headers,
/// square `p > 0` shows cell `p - 1` counted from the scroll position.
pub open spec fn square_index_spec(p: u16, scroll: usize) -> int {
    if p == 0 {
        0
    } else {
        p - 1 + scroll
    }
}

/// The cell the square at screen position `p` shows along one axis (see
/// `square_index_spec`).
pub fn square_index(p: u16, scroll: usize) -> (r: usize)
    requires
        square_index_spec(p, scroll) <= usize::MAX,
    ensures
        r == square_index_spec(p, scroll),
{
    if p == 0 {
        0
    } else {
        (p - 1) as usize + scroll
    }
}

/// The shade of a header square.
#[derive(Clone, Copy, Debug, PartialEq, Eq)]
pub enum Shade {
    /// The header of the cursor's row or column.
    Cursor,
    /// An even row or column.
    Even,
    /// An odd row or column.
    Odd,
}

/// The shade of the header of row or column `idx` when the cursor is in
/// row or column `cursor`.
pub fn header_shade(idx: usize, cursor: usize) -> (r: Shade)
    ensures
        r == (if idx == cursor {
            Shade::Cursor
        } else if idx % 2 == 0 {
            Shade::Even
        } else {
            Shade::Odd
        }),
{
    if idx == cursor {
        Shade::Cursor
    } else if idx % 2 == 0 {
        Shade::Even
    } else {
        Shade::Odd
    }
}

/// How many cells `w` wide text `len` long covers: `len / w` rounded up.
pub open spec fn cells_covered(len: int, w: int) -> int {
    len / w + if len % w == 0 {
        0int
    } else {
        1int
    }
}

/// The width the text of cell `(x, y)`, `len` long, may be drawn over,
/// scanning from the `i`-th cell to its right: `w * i` at the first cell it
/// would run into that holds something, else the whole text.
pub open spec fn overflow_scan(g: Grid, x: int, y: int, len: int, w: int, i: int) -> int
    decreases cells_covered(len, w) - i,
{
    if i >= cells_covered(len, w) {
        len
    } else if g.cell(x + i, y) is Some {
        w * i
    } else {
        overflow_scan(g, x, y, len, w, i + 1)
    }
}

/// The width the text of cell `(x, y)`, `len` bytes long, may be drawn
/// over when cells are `w` wide: it runs on into the empty cells to its
/// right, up to the first cell it would cover that holds something.
pub fn overflow_width(grid: &Grid, x: usize, y: usize, len: usize, w: usize) -> (r: usize)
    requires
        grid.wf(),
        w > 0,
        x < LEN,
        len <= usize::MAX - LEN,
    ensures
        r == overflow_scan(*grid, x as int, y as int, len as int, w as int, 1),
        r <= len,
{
    let covered: usize = len / w + if len % w == 0 {
        0
    } else {
        1
    };
    let mut i: usize = 1;
    while i < covered
        invariant
            grid.wf(),
            w > 0,
            x < LEN,
            len <= usize::MAX - LEN,
            covered == cells_covered(len as int, w as int),
            1 <= i,
            overflow_scan(*grid, x as int, y as int, len as int, w as int, 1) == overflow_scan(
                *grid,
                x as int,
                y as int,
                len as int,
                w as int,
                i as int,
            ),
        decreases covered - i,
    {
        assert(i < len + 1) by (nonlinear_arith)
            requires
                w > 0,
                i < covered,
                covered == len / w + if len % w == 0 {
                    0int
                } else {
                    1int
                },
        ;
        if grid.get_cell_raw(x + i, y).is_some() {
            assert(w * i < len) by (nonlinear_arith)
                requires
                    w > 0,
                    i < covered,
                    covered == len / w + if len % w == 0 {
                        0int
                    } else {
                        1int
                    },
            ;
            return w * i;
        }
        i = i + 1;
    }
    len
}

proof fn lemma_encode_concat(a: Seq<char>, b: Seq<char>)
    ensures
        encode_utf8(a + b) == encode_utf8(a) + encode_utf8(b),
    decreases a.len(),
{
    if a.len() == 0 {
        assert(a + b =~= b);
        assert(encode_utf8(a) =~= Seq::<u8>::empty());
        assert(Seq::<u8>::empty() + encode_utf8(b) =~= encode_utf8(b));
    } else {
        lemma_encode_concat(a.drop_first(), b);
        assert((a + b).drop_first() =~= a.drop_first() + b);
        assert((a + b)[0] == a[0]);
        assert(encode_utf8(a + b) =~= encode_utf8(a) + encode_utf8(b));
    }
}

/// The text drawn in a square where it may take `bound` bytes: the whole
/// text when it fits, else its first `bound - 2` bytes followed by `…`.
/// `None` where that cut cannot be made: `bound` is under 2, or byte
/// `bound - 2` falls inside a character.
pub fn clip_display(text: &str, bound: usize) -> (r: Option<String>)
    ensures
        bound >= text.spec_bytes().len() ==> r is Some && r->0@ == text@,
        bound < text.spec_bytes().len() ==> (r is Some <==> bound >= 2 && is_char_boundary(
            text.spec_bytes(),
            bound - 2,
        )),
        bound < text.spec_bytes().len() && r is Some ==> encode_utf8(r->0@) == text.spec_bytes().subrange(
            0,
            bound - 2,
        ) + encode_utf8(seq!['…']),
{
    let n = text.as_bytes().len();
    if bound >= n {
        return Some(text.to_string());
    }
    if bound < 2 {
        return None;
    }
    if !text.is_char_boundary(bound - 2) {
        return None;
    }
    let (head, _rest) = text.split_at(bound - 2);
    let mut s = head.to_string();
    s.push('…');
    proof {
        assert(s@ =~= head@ + seq!['…']);
        lemma_encode_concat(head@, seq!['…']);
    }
    Some(s)
}

/// The rectangle `(x, y, width, height)` the square at screen position
/// `(x, y)` is drawn in, within `area` (`x`, `y`, width, height), when
/// cells are `cell` (width, height) large and the row headers `header`
/// wide. Squares right of the headers move left by the difference between
/// a cell's width and the headers'. A row header takes the headers' width;
/// a square whose text may take `suggestion` gets that width, kept within
/// what is left of the area's width and at least a cell's width; any other
/// square takes one cell. `None` where a step leaves the range of `u16`.
pub open spec fn square_rect(
    x: int,
    y: int,
    area: (u16, u16, u16, u16),
    cell: (u16, u16),
    header: u16,
    suggestion: Option<u16>,
) -> Option<(int, int, int, int)> {
    let xw = x * cell.0;
    let x0 = area.0 + xw;
    let yh = y * cell.1;
    let y_off = area.1 + yh;
    let shift = cell.0 - header;
    let x_off = if x > 0 {
        x0 - shift
    } else {
        x0
    };
    if xw > u16::MAX || x0 > u16::MAX || yh > u16::MAX || y_off > u16::MAX || (x > 0 && (shift < 0 || x_off
        < 0)) {
        None
    } else if x == 0 && y != 0 {
        Some((x_off, y_off, header as int, cell.1 as int))
    } else {
        match suggestion {
            Some(s) => if area.2 < x_off {
                None
            } else {
                let room = area.2 - x_off;
                let fitted = if room < s {
                    room
                } else {
                    s as int
                };
                Some((x_off, y_off, if fitted < cell.0 {
                    cell.0 as int
                } else {
                    fitted
                }, cell.1 as int))
            },
            None => Some((x_off, y_off, cell.0 as int, cell.1 as int)),
        }
    }
}

/// A rectangle's coordinates as integers.
pub open spec fn rect_ints(q: (u16, u16, u16, u16)) -> (int, int, int, int) {
    (q.0 as int, q.1 as int, q.2 as int, q.3 as int)
}

/// The rectangle the square at `(x, y)` is drawn in (see `square_rect`).
pub fn square_area(
    x: u16,
    y: u16,
    area: (u16, u16, u16, u16),
    cell: (u16, u16),
    header: u16,
    suggestion: Option<u16>,
) -> (r: Option<(u16, u16, u16, u16)>)
    ensures
        r is None <==> square_rect(x as int, y as int, area, cell, header, suggestion) is None,
        r is Some ==> rect_ints(r->0) == square_rect(
            x as int,
            y as int,
            area,
            cell,
            header,
            suggestion,
        )->0,
{
    assert(x * cell.0 <= 0xffff * 0xffff) by (nonlinear_arith)
        requires
            x <= 0xffff,
            cell.0 <= 0xffff,
    ;
    assert(y * cell.1 <= 0xffff * 0xffff) by (nonlinear_arith)
        requires
            y <= 0xffff,
            cell.1 <= 0xffff,
    ;
    let xw: u32 = x as u32 * cell.0 as u32;
    let yh: u32 = y as u32 * cell.1 as u32;
    if xw > 0xffff || yh > 0xffff {
        return None;
    }
    let x0: u32 = area.0 as u32 + xw;
    let y_off: u32 = area.1 as u32 + yh;
    if x0 > 0xffff || y_off > 0xffff {
        return None;
    }
    let mut x_off: u32 = x0;
    if x > 0 {
        if cell.0 < header {
            return None;
        }
        let shift: u32 = (cell.0 - header) as u32;
        if x0 < shift {
            return None;
        }
        x_off = x0 - shift;
    }
    if x == 0 && y != 0 {
        return Some((x_off as u16, y_off as u16, header, cell.1));
    }
    match suggestion {
        Some(s) => {
            if (area.2 as u32) < x_off {
                return None;
            }
            let room: u32 = area.2 as u32 - x_off;
            let fitted: u32 = if room < s as u32 {
                room
            } else {
                s as u32
            };
            let width: u32 = if fitted < cell.0 as u32 {
                cell.0 as u32
            } else {
                fitted
            };
            Some((x_off as u16, y_off as u16, width as u16, cell.1))
        },
        None => Some((x_off as u16, y_off as u16, cell.0, cell.1)),
    }
}

} // verus!
