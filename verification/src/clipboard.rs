//! Copying a block of cells and pasting it at the cursor.
use vstd::prelude::*;
use crate::cell::{CellType, TranslateFault, TranslateRule, translation_fails};
use crate::grid::{Grid, LEN, cell_ok, moved_cell, column_fits};

verus! {

/// A copied block of cells, where the last paste was made, and the
/// direction of the last paste.
pub struct Clipboard {
    /// The copied cells, indexed `[x][y]` from the block's top-left cell.
    clipboard: Vec<Vec<Option<CellType>>>,
    /// Where the copied block's top-left cell was copied from.
    origin: (usize, usize),
    last_paste_cell: (usize, usize),
    momentum: (i32, i32),
}

/// The cell `(a, b)` holds after `contents` is pasted with its top-left
/// cell at `at`, where it held `before`.
pub open spec fn paste_cell(
    contents: Seq<Seq<Option<CellType>>>,
    at: (usize, usize),
    before: Option<CellType>,
    a: int,
    b: int,
) -> Option<CellType> {
    let i = a - at.0;
    let j = b - at.1;
    if 0 <= i < contents.len() && 0 <= j < contents[i].len() {
        contents[i][j]
    } else {
        before
    }
}

/// Every pasted cell lands inside the sheet.
pub open spec fn fits_at(contents: Seq<Seq<Option<CellType>>>, at: (usize, usize)) -> bool {
    forall|i: int| 0 <= i < contents.len() ==> column_fits(at, i, #[trigger] contents[i].len())
}

/// The block of `g` from column `lx` to `hx` and row `ly` to `hy`,
/// indexed `[x][y]` from its top-left cell.
pub open spec fn block_of(g: Grid, lx: int, ly: int, hx: int, hy: int) -> Seq<Seq<Option<CellType>>> {
    Seq::new(
        (hx - lx + 1) as nat,
        |i: int| Seq::new((hy - ly + 1) as nat, |j: int| g.cell(lx + i, ly + j)),
    )
}

/// The cells of column `x` from row `ly` to `hy`.
fn copy_column(from: &Grid, x: usize, ly: usize, hy: usize) -> (r: Vec<Option<CellType>>)
    requires
        from.wf(),
        ly <= hy,
    ensures
        r@ == Seq::new((hy - ly + 1) as nat, |j: int| from.cell(x as int, ly + j)),
{
    let mut col: Vec<Option<CellType>> = Vec::new();
    let mut y: usize = ly;
    loop
        invariant_except_break
            ly <= y <= hy,
            from.wf(),
            col@ == Seq::new((y - ly) as nat, |j: int| from.cell(x as int, ly + j)),
        ensures
            col@ == Seq::new((hy - ly + 1) as nat, |j: int| from.cell(x as int, ly + j)),
        decreases hy - y,
    {
        let c = match from.get_cell_raw(x, y) {
            Some(v) => Some(v.clone()),
            None => None,
        };
        col.push(c);
        assert(col@ =~= Seq::new((y + 1 - ly) as nat, |j: int| from.cell(x as int, ly + j)));
        if y == hy {
            break;
        }
        y = y + 1;
    }
    col
}

/// The views of a block's columns.
pub open spec fn views_of(b: Seq<Vec<Option<CellType>>>) -> Seq<Seq<Option<CellType>>> {
    b.map_values(|c: Vec<Option<CellType>>| c@)
}

/// The copied block fits where it was copied from: its far corner is a
/// position.
pub open spec fn origin_ok(o: (usize, usize), c: Seq<Seq<Option<CellType>>>) -> bool {
    c.len() > 0 ==> o.0 + c.len() - 1 <= usize::MAX && o.1 + c[0].len() - 1 <= usize::MAX
}

proof fn lemma_origin_in(c: Seq<Seq<Option<CellType>>>, o: (usize, usize), x: int)
    requires
        origin_ok(o, c),
        0 <= x < c.len(),
        c[x].len() == c[0].len(),
    ensures
        o.0 + x <= usize::MAX,
        o.1 + c[x].len() <= usize::MAX + 1,
{
}

/// The cell `(i, j)` of the block, an equation, cannot be moved from where
/// it was copied (the block copied from `o`) to where it lands (the block
/// pasted at `at`).
pub open spec fn cell_fails(c: Seq<Seq<Option<CellType>>>, o: (usize, usize), at: (usize, usize), i: int, j: int) -> bool {
    c[i][j] matches Some(v) && translation_fails(
        v,
        ((o.0 + i) as usize, (o.1 + j) as usize),
        ((at.0 + i) as usize, (at.1 + j) as usize),
        TranslateRule::Anywhere,
    )
}

/// Some equation of the block cannot be moved to where it lands.
pub open spec fn paste_fails(c: Seq<Seq<Option<CellType>>>, o: (usize, usize), at: (usize, usize)) -> bool {
    exists|i: int, j: int| 0 <= i < c.len() && 0 <= j < c[i].len() && #[trigger] cell_fails(c, o, at, i, j)
}

/// `b` is the block `c`, copied from `o`, with each equation moved to
/// where it lands at `at`.
pub open spec fn translated_block(
    c: Seq<Seq<Option<CellType>>>,
    o: (usize, usize),
    at: (usize, usize),
    b: Seq<Seq<Option<CellType>>>,
) -> bool {
    &&& b.len() == c.len()
    &&& forall|i: int| 0 <= i < c.len() ==> same_height(#[trigger] b[i], c[i])
    &&& forall|i: int, j: int|
        0 <= i < c.len() && 0 <= j < c[i].len() ==> moved_cell(
            c[i][j],
            #[trigger] b[i][j],
            ((o.0 + i) as usize, (o.1 + j) as usize),
            ((at.0 + i) as usize, (at.1 + j) as usize),
            TranslateRule::Anywhere,
        )
}

/// Two columns have the same height.
pub open spec fn same_height(a: Seq<Option<CellType>>, b: Seq<Option<CellType>>) -> bool {
    a.len() == b.len()
}

/// Every cell of the block may stand in a cell.
pub open spec fn block_ok(b: Seq<Seq<Option<CellType>>>) -> bool {
    forall|i: int, j: int| 0 <= i < b.len() && 0 <= j < b[i].len() ==> cell_ok(#[trigger] b[i][j])
}

/// All columns of the block are as high as the first.
pub open spec fn rectangular(b: Seq<Seq<Option<CellType>>>) -> bool {
    forall|i: int| 0 <= i < b.len() ==> same_height(#[trigger] b[i], b[0])
}

/// After the block `c`, copied from `o`, is pasted at `at`, the cell
/// `(a, b)` that held `before` holds `now`: inside the block, the copied
/// cell with its equation moved there; elsewhere, what it held.
pub open spec fn pasted_cell(
    c: Seq<Seq<Option<CellType>>>,
    o: (usize, usize),
    at: (usize, usize),
    before: Option<CellType>,
    now: Option<CellType>,
    a: int,
    b: int,
) -> bool {
    let i = a - at.0;
    let j = b - at.1;
    if 0 <= i < c.len() && 0 <= j < c[i].len() {
        moved_cell(c[i][j], now, ((o.0 + i) as usize, (o.1 + j) as usize), (a as usize, b as usize), TranslateRule::Anywhere)
    } else {
        now == before
    }
}

/// Writes `block` into `into` with its top-left cell at `at`.
fn write_block(block: &Vec<Vec<Option<CellType>>>, at: (usize, usize), into: &mut Grid)
    requires
        old(into).wf(),
        fits_at(views_of(block@), at),
        block_ok(views_of(block@)),
        rectangular(views_of(block@)),
    ensures
        final(into).wf(),
        forall|a: int, b: int|
            #[trigger] final(into).cell(a, b) == paste_cell(views_of(block@), at, old(into).cell(a, b), a, b),
        final(into).cursor_at() == old(into).cursor_at(),
        final(into).current_index() == old(into).current_index(),
        final(into).history().len() == old(into).history().len(),
        final(into).mode_of() == old(into).mode_of(),
        pastes_any(views_of(block@)) ==> final(into).is_dirty(),
        !pastes_any(views_of(block@)) ==> *final(into) == *old(into),
{
    let (cx, cy) = at;
    let ghost c = views_of(block@);
    let ghost before = *into;
    let mut x: usize = 0;
    while x < block.len()
        invariant
            c == views_of(block@),
            block_ok(c),
            rectangular(c),
            x <= c.len(),
            into.wf(),
            fits_at(c, (cx, cy)),
            into.cursor_at() == before.cursor_at(),
            into.current_index() == before.current_index(),
            into.history().len() == before.history().len(),
            into.mode_of() == before.mode_of(),
            (x > 0 && pastes_any(c)) ==> into.is_dirty(),
            (x == 0 || !pastes_any(c)) ==> *into == before,
            forall|a: int, b: int|
                #[trigger] into.cell(a, b) == paste_cell(c.take(x as int), (cx, cy), before.cell(a, b), a, b),
        decreases c.len() - x,
    {
        let row = &block[x];
        assert(row@ == c[x as int]);
        assert(same_height(c[x as int], c[0]));
        let ghost mid = *into;
        let mut y: usize = 0;
        while y < row.len()
            invariant
                c == views_of(block@),
                block_ok(c),
                x < c.len(),
                row@ == c[x as int],
                y <= row@.len(),
                into.wf(),
                fits_at(c, (cx, cy)),
                into.cursor_at() == before.cursor_at(),
                into.current_index() == before.current_index(),
                into.history().len() == before.history().len(),
                into.mode_of() == before.mode_of(),
                row@.len() == c[0].len(),
                ((x > 0 && pastes_any(c)) || y > 0) ==> into.is_dirty(),
                ((x == 0 || !pastes_any(c)) && y == 0) ==> *into == before,
                forall|a: int, b: int|
                    #[trigger] into.cell(a, b) == (if a == cx + x && cy <= b < cy + y {
                        c[x as int][b - cy]
                    } else {
                        mid.cell(a, b)
                    }),
            decreases row@.len() - y,
        {
            assert(cx + x < LEN && cy + y < LEN);
            assert(cell_ok(c[x as int][y as int]));
            let v = match &row[y] {
                Some(v) => Some(v.clone()),
                None => None,
            };
            into.set_cell_raw((x + cx, y + cy), v);
            y = y + 1;
        }
        proof {
            assert forall|a: int, b: int|
                #[trigger] into.cell(a, b) == paste_cell(c.take(x + 1), (cx, cy), before.cell(a, b), a, b) by {
                assert(mid.cell(a, b) == paste_cell(c.take(x as int), (cx, cy), before.cell(a, b), a, b));
                if a == cx + x && cy <= b < cy + row@.len() {
                    assert(c.take(x + 1)[a - cx] == c[x as int]);
                }
            }
        }
        x = x + 1;
    }
    assert(c.take(x as int) =~= c);
}

/// Pasting `contents` changes some cell.
pub open spec fn pastes_any(contents: Seq<Seq<Option<CellType>>>) -> bool {
    contents.len() > 0 && contents[0].len() > 0
}

/// The smaller and the larger of two coordinates.
pub open spec fn low_high(a: usize, b: usize) -> (usize, usize) {
    if a < b {
        (a, b)
    } else {
        (b, a)
    }
}

/// The difference `a - b` of two positions, each read as `i32`.
pub open spec fn delta_i32(a: usize, b: usize) -> int {
    (a as i32) as int - (b as i32) as int
}

impl Clipboard {
    /// The copied cells, indexed `[x][y]`.
    pub closed spec fn contents(self) -> Seq<Seq<Option<CellType>>> {
        self.clipboard@.map_values(|c: Vec<Option<CellType>>| c@)
    }

    /// Where the last paste was made (or the top-left cell of the last
    /// copy).
    pub closed spec fn last_paste(self) -> (usize, usize) {
        self.last_paste_cell
    }

    /// The move from the last paste to the one before it.
    pub closed spec fn raw_momentum(self) -> (i32, i32) {
        self.momentum
    }

    /// Every copied cell may stand in a cell, and the block is a rectangle.
    pub closed spec fn wf(self) -> bool {
        &&& forall|i: int, j: int|
            0 <= i < self.clipboard@.len() && 0 <= j < self.clipboard@[i]@.len() ==> cell_ok(
                #[trigger] self.clipboard@[i]@[j],
            )
        &&& forall|i: int|
            0 <= i < self.clipboard@.len() ==> (#[trigger] self.clipboard@[i])@.len()
                == self.clipboard@[0]@.len()
        &&& origin_ok(self.origin, self.contents())
    }

    /// Where the copied block's top-left cell was copied from.
    pub closed spec fn source(self) -> (usize, usize) {
        self.origin
    }

    /// An empty clipboard; the first paste moves down.
    pub fn new() -> (r: Clipboard)
        ensures
            r.wf(),
            r.contents() == Seq::<Seq<Option<CellType>>>::empty(),
            r.last_paste() == (0usize, 0usize),
            r.raw_momentum() == (0i32, 1i32),
    {
        let r = Clipboard { clipboard: Vec::new(), origin: (0, 0), last_paste_cell: (0, 0), momentum: (0, 1) };
        assert(r.contents() =~= Seq::<Seq<Option<CellType>>>::empty());
        r
    }

    /// The copied cells, indexed `[x][y]`.
    pub fn copied(&self) -> (r: &Vec<Vec<Option<CellType>>>)
        ensures
            r@.map_values(|c: Vec<Option<CellType>>| c@) == self.contents(),
    {
        &self.clipboard
    }

    /// Whether pasting at `at` keeps every cell inside the sheet.
    pub fn fits(&self, at: (usize, usize)) -> (r: bool)
        ensures
            r == fits_at(self.contents(), at),
    {
        let mut i: usize = 0;
        while i < self.clipboard.len()
            invariant
                i <= self.clipboard@.len(),
                fits_at(self.contents().take(i as int), at),
            decreases self.clipboard@.len() - i,
        {
            assert(self.contents()[i as int] == self.clipboard@[i as int]@);
            if i >= LEN || at.0 >= LEN - i || self.clipboard[i].len() > LEN || at.1 > LEN - self.clipboard[i].len() {
                return false;
            }
            assert(fits_at(self.contents().take(i + 1), at)) by {
                assert forall|k: int| 0 <= k < i + 1 implies #[trigger] self.contents().take(i + 1)[k] == self.contents().take(i as int)[k] || k == i by {}
            }
            i = i + 1;
        }
        assert(self.contents().len() == self.clipboard@.len());
        assert(self.contents().take(i as int) =~= self.contents());
        true
    }

    /// Whether the move from the last paste to `at` fits in `i32` on both
    /// axes.
    pub fn momentum_fits(&self, at: (usize, usize)) -> (r: bool)
        ensures
            r == (i32::MIN <= delta_i32(at.0, self.last_paste().0) <= i32::MAX && i32::MIN <= delta_i32(
                at.1,
                self.last_paste().1,
            ) <= i32::MAX),
    {
        let dx: i64 = (#[verifier::truncate] (at.0 as i32)) as i64 - (#[verifier::truncate] (self.last_paste_cell.0 as i32)) as i64;
        let dy: i64 = (#[verifier::truncate] (at.1 as i32)) as i64 - (#[verifier::truncate] (self.last_paste_cell.1 as i32)) as i64;
        i32::MIN as i64 <= dx && dx <= i32::MAX as i64 && i32::MIN as i64 <= dy && dy <= i32::MAX as i64
    }

    /// How many cells were copied: the block's width times its height.
    pub fn qty(&self) -> (r: usize)
        requires
            self.contents().len() > 0,
            self.contents().len() * self.contents()[0].len() <= usize::MAX,
        ensures
            r == self.contents().len() * self.contents()[0].len(),
    {
        assert(self.contents()[0] == self.clipboard@[0]@);
        let x_len = self.clipboard.len();
        let y_len = self.clipboard[0].len();
        x_len * y_len
    }

    /// The direction in which the next paste moves the cursor: the move
    /// between the last two pastes, with a vertical move taking precedence
    /// so that it is never diagonal.
    pub fn momentum(&self) -> (r: (i32, i32))
        ensures
            r == (if self.raw_momentum().1 != 0 {
                (0i32, self.raw_momentum().1)
            } else {
                (self.raw_momentum().0, 0i32)
            }),
    {
        let (x, y) = self.momentum;
        if y != 0 {
            (0, y)
        } else {
            (x, 0)
        }
    }

    /// Pastes the copied block with its top-left cell at the cursor of
    /// `into`, each equation moved from where it was copied to where it
    /// lands (see `pasted_cell`); the momentum becomes the move from the
    /// last paste to this one, and this paste becomes the last one. `Err`,
    /// with nothing changed, when an equation cannot be moved.
    pub fn paste(&mut self, into: &mut Grid) -> (r: Result<(), TranslateFault>)
        requires
            old(self).wf(),
            old(into).wf(),
            fits_at(old(self).contents(), old(into).cursor_at()),
            i32::MIN <= delta_i32(old(into).cursor_at().0, old(self).last_paste().0) <= i32::MAX,
            i32::MIN <= delta_i32(old(into).cursor_at().1, old(self).last_paste().1) <= i32::MAX,
        ensures
            final(self).wf(),
            final(into).wf(),
            r is Err <==> paste_fails(old(self).contents(), old(self).source(), old(into).cursor_at()),
            r is Err ==> *final(self) == *old(self) && *final(into) == *old(into),
            r is Ok ==> forall|a: int, b: int|
                pasted_cell(
                    old(self).contents(),
                    old(self).source(),
                    old(into).cursor_at(),
                    old(into).cell(a, b),
                    #[trigger] final(into).cell(a, b),
                    a,
                    b,
                ),
            final(into).cursor_at() == old(into).cursor_at(),
            final(into).current_index() == old(into).current_index(),
            final(into).history().len() == old(into).history().len(),
            final(into).mode_of() == old(into).mode_of(),
            r is Ok && pastes_any(old(self).contents()) ==> final(into).is_dirty(),
            r is Ok && !pastes_any(old(self).contents()) ==> *final(into) == *old(into),
            final(self).contents() == old(self).contents(),
            final(self).source() == old(self).source(),
            r is Ok ==> final(self).last_paste() == old(into).cursor_at(),
            r is Ok ==> final(self).raw_momentum() == (
                delta_i32(old(into).cursor_at().0, old(self).last_paste().0) as i32,
                delta_i32(old(into).cursor_at().1, old(self).last_paste().1) as i32,
            ),
    {
        let (cx, cy) = into.cursor();
        let block = match self.translate_block((cx, cy)) {
            Ok(b) => b,
            Err(f) => {
                return Err(f);
            },
        };
        let ghost before = *into;
        let ghost bv = views_of(block@);
        proof {
            let c = self.contents();
            assert forall|i: int| 0 <= i < bv.len() implies column_fits((cx, cy), i, #[trigger] bv[i].len()) by {
                assert(same_height(bv[i], c[i]));
                assert(column_fits((cx, cy), i, c[i].len()));
            }
            assert forall|i: int| 0 <= i < bv.len() implies same_height(#[trigger] bv[i], bv[0]) by {
                assert(same_height(bv[i], c[i]));
                assert(same_height(bv[0], c[0]));
                assert(c[i] == self.clipboard@[i]@);
                assert(c[0] == self.clipboard@[0]@);
            }
        }
        write_block(&block, (cx, cy), into);
        proof {
            let c = self.contents();
            let o = self.origin;
            assert forall|a: int, b: int|
                pasted_cell(c, o, (cx, cy), before.cell(a, b), #[trigger] into.cell(a, b), a, b) by {
                assert(into.cell(a, b) == paste_cell(bv, (cx, cy), before.cell(a, b), a, b));
                let i = a - cx;
                let j = b - cy;
                if 0 <= i < c.len() && 0 <= j < c[i].len() {
                    assert(bv[i][j] == block@[i]@[j]);
                    assert(moved_cell(c[i][j], block@[i]@[j], ((o.0 + i) as usize, (o.1 + j) as usize), ((cx + i) as usize, (cy + j) as usize), TranslateRule::Anywhere));
                }
            }
            assert(pastes_any(bv) == pastes_any(c));
        }
        let (lx, ly) = self.last_paste_cell;
        let dx = #[verifier::truncate] (cx as i32) - #[verifier::truncate] (lx as i32);
        let dy = #[verifier::truncate] (cy as i32) - #[verifier::truncate] (ly as i32);
        self.momentum = (dx, dy);
        self.last_paste_cell = (cx, cy);
        Ok(())
    }

    /// The copied block with each equation moved from where it was copied
    /// to where it lands with its top-left cell at `at`.
    fn translate_block(&self, at: (usize, usize)) -> (r: Result<Vec<Vec<Option<CellType>>>, TranslateFault>)
        requires
            self.wf(),
            fits_at(self.contents(), at),
        ensures
            r is Err <==> paste_fails(self.contents(), self.source(), at),
            r matches Ok(b) ==> translated_block(self.contents(), self.source(), at, views_of(b@)) && block_ok(views_of(b@)),
    {
        let ghost c = self.contents();
        let o = self.origin;
        let mut out: Vec<Vec<Option<CellType>>> = Vec::new();
        let mut x: usize = 0;
        while x < self.clipboard.len()
            invariant
                self.wf(),
                c == self.contents(),
                o == self.source(),
                x <= c.len(),
                fits_at(c, at),
                out@.len() == x,
                forall|i: int| 0 <= i < x ==> (#[trigger] out@[i])@.len() == c[i].len(),
                forall|i: int, j: int|
                    0 <= i < x && 0 <= j < c[i].len() ==> moved_cell(
                        c[i][j],
                        #[trigger] out@[i]@[j],
                        ((o.0 + i) as usize, (o.1 + j) as usize),
                        ((at.0 + i) as usize, (at.1 + j) as usize),
                        TranslateRule::Anywhere,
                    ) && cell_ok(out@[i]@[j]),
                forall|i: int, j: int| 0 <= i < x && 0 <= j < c[i].len() ==> !#[trigger] cell_fails(c, o, at, i, j),
            decreases c.len() - x,
        {
            let row = &self.clipboard[x];
            assert(row@ == c[x as int]);
            assert(c[x as int].len() == c[0].len());
            proof { lemma_origin_in(c, o, x as int); }
            let mut col: Vec<Option<CellType>> = Vec::new();
            let mut y: usize = 0;
            while y < row.len()
                invariant
                    self.wf(),
                    c == self.contents(),
                    o == self.source(),
                    x < c.len(),
                    row@ == c[x as int],
                    y <= row@.len(),
                    fits_at(c, at),
                    o.0 + x <= usize::MAX,
                    o.1 + c[x as int].len() <= usize::MAX + 1,
                    col@.len() == y,
                    forall|j: int|
                        0 <= j < y ==> moved_cell(
                            c[x as int][j],
                            #[trigger] col@[j],
                            ((o.0 + x) as usize, (o.1 + j) as usize),
                            ((at.0 + x) as usize, (at.1 + j) as usize),
                            TranslateRule::Anywhere,
                        ) && cell_ok(col@[j]),
                    forall|j: int| 0 <= j < y ==> !#[trigger] cell_fails(c, o, at, x as int, j),
                decreases row@.len() - y,
            {
                assert(at.0 + x < LEN && at.1 + y < LEN) by {
                    assert(c[x as int] == c[x as int]);
                }
                assert(cell_ok(self.clipboard@[x as int]@[y as int]));
                let v = match &row[y] {
                    Some(v) => match v.translated((o.0 + x, o.1 + y), (at.0 + x, at.1 + y), TranslateRule::Anywhere) {
                        Ok(n) => Some(n),
                        Err(f) => {
                            proof {
                                assert(cell_fails(c, o, at, x as int, y as int));
                            }
                            return Err(f);
                        },
                    },
                    None => None,
                };
                col.push(v);
                y = y + 1;
            }
            out.push(col);
            x = x + 1;
        }
        proof {
            let bv = views_of(out@);
            assert(bv.len() == c.len());
            assert forall|i: int| 0 <= i < bv.len() implies #[trigger] bv[i] == out@[i]@ by {}
        }
        Ok(out)
    }

    /// Copies the block between `start` and `end` (any two opposite
    /// corners) from `from`; its top-left cell becomes the last paste
    /// position.
    pub fn clipboard_copy(&mut self, start: (usize, usize), end: (usize, usize), from: &Grid)
        requires
            from.wf(),
        ensures
            final(self).wf(),
            final(self).contents() == block_of(
                *from,
                low_high(start.0, end.0).0 as int,
                low_high(start.1, end.1).0 as int,
                low_high(start.0, end.0).1 as int,
                low_high(start.1, end.1).1 as int,
            ),
            final(self).last_paste() == (low_high(start.0, end.0).0, low_high(start.1, end.1).0),
            final(self).source() == (low_high(start.0, end.0).0, low_high(start.1, end.1).0),
            final(self).raw_momentum() == old(self).raw_momentum(),
    {
        let (x1, y1) = start;
        let (x2, y2) = end;
        let (low_x, hi_x) = if x1 < x2 { (x1, x2) } else { (x2, x1) };
        let (low_y, hi_y) = if y1 < y2 { (y1, y2) } else { (y2, y1) };
        let ghost want = block_of(*from, low_x as int, low_y as int, hi_x as int, hi_y as int);
        proof { from.lemma_cells_ok(); }
        let ghost m0 = self.momentum;
        self.clipboard.clear();
        self.origin = (low_x, low_y);
        let mut x: usize = low_x;
        loop
            invariant_except_break
                low_x <= x <= hi_x,
                low_y <= hi_y,
                from.wf(),
                forall|a: int, b: int| cell_ok(#[trigger] from.cell(a, b)),
                want == block_of(*from, low_x as int, low_y as int, hi_x as int, hi_y as int),
                self.contents() == want.take(x - low_x),
                self.wf(),
                self.momentum == m0,
                self.origin == (low_x, low_y),
            ensures
                self.contents() == want,
                self.wf(),
                self.momentum == m0,
                self.origin == (low_x, low_y),
            decreases hi_x - x,
        {
            let col = copy_column(from, x, low_y, hi_y);
            let ghost prev = self.contents();
            self.clipboard.push(col);
            proof {
                assert(self.contents() =~= prev.push(col@));
                assert(want.take(x + 1 - low_x) =~= want.take(x - low_x).push(want[x - low_x]));
                assert(want[x - low_x] =~= col@);
                assert forall|i: int| 0 <= i < self.clipboard@.len() implies (#[trigger] self.clipboard@[i])@.len()
                    == self.clipboard@[0]@.len() by {
                    assert(self.clipboard@[i]@ == self.contents()[i]);
                    assert(self.clipboard@[0]@ == self.contents()[0]);
                }
                assert forall|i: int, j: int|
                    0 <= i < self.clipboard@.len() && 0 <= j < self.clipboard@[i]@.len() implies cell_ok(
                    #[trigger] self.clipboard@[i]@[j],
                ) by {
                    assert(self.clipboard@[i]@ == self.contents()[i]);
                    assert(self.contents()[i] == want[i]);
                }
            }
            if x == hi_x {
                assert(want.take(x + 1 - low_x) =~= want);
                break;
            }
            x = x + 1;
        }
        self.last_paste_cell = (low_x, low_y);
    }

    /// Copies the block between `start` and `end` from `grid` (see
    /// `clipboard_copy`), then empties its cells inside the sheet.
    pub fn clipboard_cut(&mut self, start: (usize, usize), end: (usize, usize), grid: &mut Grid)
        requires
            old(grid).wf(),
        ensures
            final(self).wf(),
            final(self).contents() == block_of(
                *old(grid),
                low_high(start.0, end.0).0 as int,
                low_high(start.1, end.1).0 as int,
                low_high(start.0, end.0).1 as int,
                low_high(start.1, end.1).1 as int,
            ),
            final(self).last_paste() == (low_high(start.0, end.0).0, low_high(start.1, end.1).0),
            final(self).source() == (low_high(start.0, end.0).0, low_high(start.1, end.1).0),
            final(self).raw_momentum() == old(self).raw_momentum(),
            final(grid).wf(),
            forall|a: int, b: int|
                #[trigger] final(grid).cell(a, b) == (if low_high(start.0, end.0).0 <= a <= low_high(
                    start.0,
                    end.0,
                ).1 && low_high(start.1, end.1).0 <= b <= low_high(start.1, end.1).1 {
                    None
                } else {
                    old(grid).cell(a, b)
                }),
            final(grid).cursor_at() == old(grid).cursor_at(),
            final(grid).current_index() == old(grid).current_index(),
            final(grid).history().len() == old(grid).history().len(),
            final(grid).mode_of() == old(grid).mode_of(),
            final(grid).is_dirty() == (old(grid).is_dirty() || (low_high(start.0, end.0).0 < LEN
                && low_high(start.1, end.1).0 < LEN)),
    {
        self.clipboard_copy(start, end, grid);
        let (x1, y1) = start;
        let (x2, y2) = end;
        let (low_x, hi_x) = if x1 < x2 { (x1, x2) } else { (x2, x1) };
        let (low_y, hi_y) = if y1 < y2 { (y1, y2) } else { (y2, y1) };
        if low_x >= LEN || low_y >= LEN {
            proof {
                assert forall|a: int, b: int| low_x <= a <= hi_x && low_y <= b <= hi_y implies #[trigger] grid.cell(a, b)
                    is None by {
                    grid.lemma_outside_empty(a, b);
                }
            }
            return;
        }
        let top_x = if hi_x < LEN { hi_x } else { LEN - 1 };
        let top_y = if hi_y < LEN { hi_y } else { LEN - 1 };
        let ghost before = *grid;
        let mut x: usize = low_x;
        while x <= top_x
            invariant
                low_x <= x <= top_x + 1,
                top_x < LEN,
                low_y <= top_y < LEN,
                top_x == (if hi_x < LEN { hi_x } else { (LEN - 1) as usize }),
                top_y == (if hi_y < LEN { hi_y } else { (LEN - 1) as usize }),
                grid.wf(),
                grid.cursor_at() == before.cursor_at(),
                grid.current_index() == before.current_index(),
                grid.history().len() == before.history().len(),
                grid.mode_of() == before.mode_of(),
                x > low_x ==> grid.is_dirty(),
                x == low_x ==> *grid == before,
                forall|a: int, b: int|
                    #[trigger] grid.cell(a, b) == (if low_x <= a < x && low_y <= b <= top_y {
                        None
                    } else {
                        before.cell(a, b)
                    }),
            decreases top_x + 1 - x,
        {
            let mut y: usize = low_y;
            let ghost mid = *grid;
            while y <= top_y
                invariant
                    low_x <= x <= top_x,
                    top_x < LEN,
                    low_y <= y <= top_y + 1,
                    top_y < LEN,
                    grid.wf(),
                    grid.cursor_at() == before.cursor_at(),
                    grid.current_index() == before.current_index(),
                    grid.history().len() == before.history().len(),
                    grid.mode_of() == before.mode_of(),
                    (x > low_x || y > low_y) ==> grid.is_dirty(),
                    (x == low_x && y == low_y) ==> *grid == before,
                    forall|a: int, b: int|
                        #[trigger] grid.cell(a, b) == (if a == x && low_y <= b < y {
                            None
                        } else {
                            mid.cell(a, b)
                        }),
                decreases top_y + 1 - y,
            {
                grid.set_cell_raw((x, y), None);
                y = y + 1;
            }
            x = x + 1;
        }
        proof {
            assert forall|a: int, b: int|
                #[trigger] grid.cell(a, b) == (if low_x <= a <= hi_x && low_y <= b <= hi_y {
                    None
                } else {
                    before.cell(a, b)
                }) by {
                if low_x <= a <= hi_x && low_y <= b <= hi_y && !(a <= top_x && b <= top_y) {
                    assert(before.cell(a, b) is None) by {
                        before.lemma_outside_empty(a, b);
                    }
                }
            }
        }
    }
}

} // verus!
