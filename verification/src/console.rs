//! The text console: a grid of character cells drawn into the open area of
//! the panel.
//!
//! Printable characters advance the cursor and wrap at the right edge, `\n`
//! starts a new line, backspace steps back and erases, and running off the
//! bottom scrolls everything up a row. A write redraws only the cells that
//! it changes; a scroll repaints the whole area.
use crate::vga::palette::{BLACK, TAN};
use crate::vga::{on_screen, pixel, plotted_pixels, put_pixel, same_picture, PIXELS, WIDTH};
use vstd::prelude::*;

pub mod typing;

verus! {

pub const COLS: usize = 24;
pub const ROWS: usize = 18;

/// Cells of the grid.
pub const CELLS: usize = 432;

/// Width and height of a cell in pixels.
pub const CELL: usize = 8;

/// The pixel at the top left of the console.
pub const ORIGIN_X: usize = 48;
pub const ORIGIN_Y: usize = 50;

/// The first and last character that has a glyph.
pub const FIRST: u8 = 0x20;
pub const LAST: u8 = 0x7e;

const FG: u8 = TAN;
const BG: u8 = BLACK;

/// Whether `c` has a glyph.
pub open spec fn printable(c: u8) -> bool {
    FIRST <= c <= LAST
}

/// The cells of a grid, row by row, and the cursor. The cursor waits behind
/// the last column until the next character decides whether to wrap.
#[verifier::ext_equal]
pub struct GridModel {
    pub cells: Seq<u8>,
    pub row: int,
    pub col: int,
}

/// A row of blanks.
pub open spec fn blanks(n: nat) -> Seq<u8> {
    Seq::new(n, |i: int| 0x20u8)
}

impl GridModel {
    pub open spec fn wf(self) -> bool {
        &&& self.cells.len() == CELLS
        &&& 0 <= self.row < ROWS
        &&& 0 <= self.col <= COLS
        &&& forall|i: int| 0 <= i < CELLS ==> printable(#[trigger] self.cells[i])
    }

    /// The blank grid with the cursor at its start.
    pub open spec fn blank() -> GridModel {
        GridModel { cells: blanks(CELLS as nat), row: 0, col: 0 }
    }

    /// The character in a cell.
    pub open spec fn cell(self, row: int, col: int) -> u8 {
        self.cells[row * COLS + col]
    }

    pub open spec fn with_cell(self, row: int, col: int, c: u8) -> GridModel {
        GridModel { cells: self.cells.update(row * COLS + col, c), ..self }
    }

    /// Whether a new line scrolls.
    pub open spec fn at_bottom(self) -> bool {
        self.row + 1 >= ROWS
    }

    /// The grid after a new line: every row moved up one and a blank one
    /// below them if the cursor was on the last.
    pub open spec fn newline(self) -> GridModel {
        if self.at_bottom() {
            GridModel { cells: self.cells.skip(COLS as int) + blanks(COLS as nat), col: 0, ..self }
        } else {
            GridModel { row: self.row + 1, col: 0, ..self }
        }
    }

    /// The cell that a backspace erases.
    pub open spec fn before_cursor(self) -> Option<(int, int)> {
        if self.col > 0 {
            Some((self.row, self.col - 1))
        } else if self.row > 0 {
            Some((self.row - 1, COLS - 1))
        } else {
            None
        }
    }

    /// Whether `byte` scrolls the grid.
    pub open spec fn scrolls(self, byte: u8) -> bool {
        self.at_bottom() && (byte == 0x0a || byte != 0x0d && byte != 0x08 && self.col == COLS)
    }

    /// The grid after `byte`.
    pub open spec fn put(self, byte: u8) -> GridModel {
        if byte == 0x0a {
            self.newline()
        } else if byte == 0x0d {
            GridModel { col: 0, ..self }
        } else if byte == 0x08 {
            match self.before_cursor() {
                Some((row, col)) => GridModel { row, col, ..self.with_cell(row, col, 0x20) },
                None => self,
            }
        } else {
            let at = if self.col == COLS {
                self.newline()
            } else {
                self
            };
            let c = if printable(byte) {
                byte
            } else {
                0x3f
            };
            GridModel { col: at.col + 1, ..at.with_cell(at.row, at.col, c) }
        }
    }

    /// The cell that `byte` draws at once; a byte that scrolls draws none,
    /// since everything is repainted.
    pub open spec fn draws(self, byte: u8) -> Option<(int, int)> {
        if byte == 0x0a || byte == 0x0d || self.scrolls(byte) {
            None
        } else if byte == 0x08 {
            self.before_cursor()
        } else if self.col == COLS {
            Some((self.row + 1, 0))
        } else {
            Some((self.row, self.col))
        }
    }

    /// The grid after all of `bytes`.
    pub open spec fn write(self, bytes: Seq<u8>) -> GridModel
        decreases bytes.len(),
    {
        if bytes.len() == 0 {
            self
        } else {
            self.write(bytes.drop_last()).put(bytes.last())
        }
    }

    /// Whether any of `bytes` scrolls the grid.
    pub open spec fn write_scrolls(self, bytes: Seq<u8>) -> bool
        decreases bytes.len(),
    {
        bytes.len() > 0 && (self.write_scrolls(bytes.drop_last()) || self.write(
            bytes.drop_last(),
        ).scrolls(bytes.last()))
    }

    /// The picture after the cells that `bytes` draw one by one.
    pub open spec fn write_drawn(self, fb: Seq<u8>, font: Seq<[u8; 8]>, bytes: Seq<u8>) -> Seq<u8>
        decreases bytes.len(),
    {
        if bytes.len() == 0 {
            fb
        } else {
            let so_far = self.write_drawn(fb, font, bytes.drop_last());
            let grid = self.write(bytes.drop_last());
            match grid.draws(bytes.last()) {
                Some((row, col)) => cell_drawn(
                    so_far,
                    font,
                    row,
                    col,
                    grid.put(bytes.last()).cell(row, col),
                ),
                None => so_far,
            }
        }
    }

    /// The picture after `bytes` have been written.
    pub open spec fn shown(self, fb: Seq<u8>, font: Seq<[u8; 8]>, bytes: Seq<u8>) -> Seq<u8> {
        let drawn = self.write_drawn(fb, font, bytes);
        if self.write_scrolls(bytes) {
            text_drawn(drawn, font, self.write(bytes).cells)
        } else {
            drawn
        }
    }

    /// Every byte keeps a grid well formed.
    pub proof fn put_wf(self, byte: u8)
        requires
            self.wf(),
        ensures
            self.put(byte).wf(),
            self.newline().wf(),
    {
        assert(self.newline().wf());
    }

    /// So does a write.
    pub proof fn write_wf(self, bytes: Seq<u8>)
        requires
            self.wf(),
        ensures
            self.write(bytes).wf(),
        decreases bytes.len(),
    {
        if bytes.len() > 0 {
            self.write_wf(bytes.drop_last());
            self.write(bytes.drop_last()).put_wf(bytes.last());
        }
    }
}

/// Whether the glyph `bits` is lit at column `dx` of row `dy`; the lowest
/// bit of a row is its left end.
pub open spec fn lit(bits: [u8; 8], dx: int, dy: int) -> bool {
    bits[dy] & (1u8 << (dx as u8)) != 0
}

/// The color of a pixel of a cell that holds `c`.
pub open spec fn ink(font: Seq<[u8; 8]>, c: u8, dx: int, dy: int) -> u8 {
    if lit(font[c - FIRST], dx, dy) {
        TAN
    } else {
        BLACK
    }
}

/// Whether `(px, py)` lies in the cell at `row` and `col`.
pub open spec fn in_cell(px: int, py: int, row: int, col: int) -> bool {
    let x0 = ORIGIN_X + col * CELL;
    let y0 = ORIGIN_Y + row * CELL;
    x0 <= px < x0 + CELL && y0 <= py < y0 + CELL
}

/// `fb` with the character `c` drawn in a cell.
pub open spec fn cell_drawn(fb: Seq<u8>, font: Seq<[u8; 8]>, row: int, col: int, c: u8) -> Seq<u8> {
    Seq::new(
        fb.len(),
        |i: int|
            if in_cell(i % WIDTH as int, i / WIDTH as int, row, col) {
                ink(
                    font,
                    c,
                    i % WIDTH as int - ORIGIN_X - col * CELL,
                    i / WIDTH as int - ORIGIN_Y - row * CELL,
                )
            } else {
                fb[i]
            },
    )
}

/// Whether `(px, py)` lies in the console.
pub open spec fn in_console(px: int, py: int) -> bool {
    ORIGIN_X <= px < ORIGIN_X + COLS * CELL && ORIGIN_Y <= py < ORIGIN_Y + ROWS * CELL
}

/// The row of cells that a pixel of the console lies in.
pub open spec fn row_at(py: int) -> int {
    (py - ORIGIN_Y) / (CELL as int)
}

/// The column of cells that a pixel of the console lies in.
pub open spec fn col_at(px: int) -> int {
    (px - ORIGIN_X) / (CELL as int)
}

/// The color of a pixel of the console that shows `cells`.
pub open spec fn text_ink(font: Seq<[u8; 8]>, cells: Seq<u8>, px: int, py: int) -> u8 {
    ink(
        font,
        cells[row_at(py) * COLS + col_at(px)],
        (px - ORIGIN_X) % (CELL as int),
        (py - ORIGIN_Y) % (CELL as int),
    )
}

/// `fb` with all of `cells` drawn in the console.
pub open spec fn text_drawn(fb: Seq<u8>, font: Seq<[u8; 8]>, cells: Seq<u8>) -> Seq<u8> {
    Seq::new(
        fb.len(),
        |i: int|
            if in_console(i % WIDTH as int, i / WIDTH as int) {
                text_ink(font, cells, i % WIDTH as int, i / WIDTH as int)
            } else {
                fb[i]
            },
    )
}

/// The text console's cells and cursor.
pub struct Grid {
    cells: Vec<u8>,
    row: usize,
    col: usize,
}

impl View for Grid {
    type V = GridModel;

    closed spec fn view(&self) -> GridModel {
        GridModel { cells: self.cells@, row: self.row as int, col: self.col as int }
    }
}

impl Grid {
    pub open spec fn wf(&self) -> bool {
        self@.wf()
    }

    /// A blank grid with the cursor at its start.
    pub fn new() -> (grid: Grid)
        ensures
            grid.wf(),
            grid@ == GridModel::blank(),
    {
        let cells = blank_cells(CELLS);
        Grid { cells, row: 0, col: 0 }
    }

    /// Move to the start of the next line, scrolling if that is past the
    /// bottom. Returns whether it scrolled.
    pub fn newline(&mut self) -> (scrolled: bool)
        requires
            old(self).wf(),
        ensures
            final(self).wf(),
            final(self)@ == old(self)@.newline(),
            scrolled == old(self)@.at_bottom(),
    {
        proof {
            self@.put_wf(0x0a);
        }
        let ghost before = self@;
        self.col = 0;
        if self.row + 1 < ROWS {
            self.row += 1;
            return false;
        }
        let mut cells: Vec<u8> = Vec::new();
        let mut i: usize = COLS;
        while i < CELLS
            invariant
                COLS <= i <= CELLS,
                self.cells@.len() == CELLS,
                cells@ == self.cells@.subrange(COLS as int, i as int),
            decreases CELLS - i,
        {
            cells.push(self.cells[i]);
            i += 1;
        }
        let mut last = blank_cells(COLS);
        cells.append(&mut last);
        self.cells = cells;
        assert(self@ =~= before.newline());
        true
    }

    /// Apply one byte. Returns whether the whole grid needs repainting;
    /// if it does not, the one cell that changed has been drawn.
    pub fn put(&mut self, fb: &mut [u8], font: &[[u8; 8]; 95], byte: u8) -> (scrolled: bool)
        requires
            old(self).wf(),
            old(fb)@.len() == PIXELS,
        ensures
            final(self).wf(),
            final(self)@ == old(self)@.put(byte),
            scrolled == old(self)@.scrolls(byte),
            final(fb)@ == (match old(self)@.draws(byte) {
                Some((row, col)) => cell_drawn(
                    old(fb)@,
                    font@,
                    row,
                    col,
                    old(self)@.put(byte).cell(row, col),
                ),
                None => old(fb)@,
            }),
    {
        proof {
            self@.put_wf(byte);
        }
        let ghost before = self@;
        if byte == 0x0a {
            self.newline()
        } else if byte == 0x0d {
            self.col = 0;
            false
        } else if byte == 0x08 {
            if self.col > 0 {
                self.col -= 1;
            } else if self.row > 0 {
                self.row -= 1;
                self.col = COLS - 1;
            } else {
                return false;
            }
            self.cells.set(self.row * COLS + self.col, 0x20);
            assert(self@ =~= before.put(byte));
            draw_cell(fb, font, self.row, self.col, 0x20);
            false
        } else {
            let mut scrolled = false;
            if self.col == COLS {
                scrolled = self.newline();
            }
            let c: u8 = if FIRST <= byte && byte <= LAST {
                byte
            } else {
                0x3f
            };
            self.cells.set(self.row * COLS + self.col, c);
            if !scrolled {
                draw_cell(fb, font, self.row, self.col, c);
            }
            self.col += 1;
            assert(self@ =~= before.put(byte));
            scrolled
        }
    }

    /// The characters on the screen, row by row.
    pub fn snapshot(&self) -> (cells: Vec<u8>)
        requires
            self.wf(),
        ensures
            cells@ == self@.cells,
    {
        let mut cells: Vec<u8> = Vec::new();
        let mut i: usize = 0;
        while i < CELLS
            invariant
                i <= CELLS,
                self.cells@.len() == CELLS,
                cells@ == self.cells@.take(i as int),
            decreases CELLS - i,
        {
            cells.push(self.cells[i]);
            i += 1;
        }
        assert(cells@ =~= self.cells@);
        cells
    }

    /// The character in a cell.
    pub fn cell(&self, row: usize, col: usize) -> (c: u8)
        requires
            self.wf(),
            row < ROWS,
            col < COLS,
        ensures
            c == self@.cell(row as int, col as int),
            printable(c),
    {
        self.cells[row * COLS + col]
    }

    /// Row and column of the cursor.
    pub fn cursor(&self) -> (at: (usize, usize))
        ensures
            at.0 == self@.row,
            at.1 == self@.col,
    {
        (self.row, self.col)
    }
}

fn blank_cells(n: usize) -> (cells: Vec<u8>)
    ensures
        cells@ == blanks(n as nat),
{
    let mut cells: Vec<u8> = Vec::new();
    let mut i: usize = 0;
    while i < n
        invariant
            i <= n,
            cells@ == blanks(i as nat),
        decreases n - i,
    {
        cells.push(0x20);
        assert(cells@ =~= blanks((i + 1) as nat));
        i += 1;
    }
    cells
}

/// Draw the character `c` in a cell.
pub fn draw_cell(fb: &mut [u8], font: &[[u8; 8]; 95], row: usize, col: usize, c: u8)
    requires
        old(fb)@.len() == PIXELS,
        row < ROWS,
        col < COLS,
        printable(c),
    ensures
        final(fb)@ == cell_drawn(old(fb)@, font@, row as int, col as int, c),
{
    let ghost before = fb@;
    let ghost after = cell_drawn(before, font@, row as int, col as int, c);
    let bitmap = &font[(c - FIRST) as usize];
    let x0: usize = ORIGIN_X + col * CELL;
    let y0: usize = ORIGIN_Y + row * CELL;
    let mut dy: usize = 0;
    while dy < CELL
        invariant
            dy <= CELL,
            row < ROWS,
            col < COLS,
            printable(c),
            x0 == ORIGIN_X + col * CELL,
            y0 == ORIGIN_Y + row * CELL,
            *bitmap == font@[c - FIRST],
            before.len() == PIXELS,
            fb@.len() == PIXELS,
            forall|px: int, py: int|
                on_screen(px, py) ==> #[trigger] pixel(fb@, px, py) == (if in_cell(
                    px,
                    py,
                    row as int,
                    col as int,
                ) && py < y0 + dy {
                    ink(font@, c, px - x0, py - y0)
                } else {
                    pixel(before, px, py)
                }),
        decreases CELL - dy,
    {
        let bits = bitmap[dy];
        let mut dx: usize = 0;
        while dx < CELL
            invariant
                dx <= CELL,
                dy < CELL,
                row < ROWS,
                col < COLS,
                printable(c),
                x0 == ORIGIN_X + col * CELL,
                y0 == ORIGIN_Y + row * CELL,
                *bitmap == font@[c - FIRST],
                bits == bitmap@[dy as int],
                before.len() == PIXELS,
                fb@.len() == PIXELS,
                forall|px: int, py: int|
                    on_screen(px, py) ==> #[trigger] pixel(fb@, px, py) == (if in_cell(
                        px,
                        py,
                        row as int,
                        col as int,
                    ) && (py < y0 + dy || py == y0 + dy && px < x0 + dx) {
                        ink(font@, c, px - x0, py - y0)
                    } else {
                        pixel(before, px, py)
                    }),
            decreases CELL - dx,
        {
            let color = if bits & (1u8 << (dx as u8)) != 0 {
                FG
            } else {
                BG
            };
            assert(color == ink(font@, c, dx as int, dy as int));
            proof {
                plotted_pixels(fb@, x0 + dx, y0 + dy, color);
            }
            put_pixel(fb, x0 + dx, y0 + dy, color);
            assert(x0 + dx - x0 == dx && y0 + dy - y0 == dy);
            dx += 1;
        }
        dy += 1;
    }
    proof {
        assert forall|px: int, py: int| on_screen(px, py) implies #[trigger] pixel(fb@, px, py)
            == pixel(after, px, py) by {
            assert((py * 320 + px) % 320 == px);
            assert((py * 320 + px) / 320 == py);
        }
        same_picture(fb@, after);
    }
}

/// The pixels of cells before `(row, col)`, in reading order, have been drawn.
spec fn partly_drawn(
    before: Seq<u8>,
    fb: Seq<u8>,
    font: Seq<[u8; 8]>,
    cells: Seq<u8>,
    row: int,
    col: int,
) -> bool {
    forall|px: int, py: int|
        on_screen(px, py) ==> #[trigger] pixel(fb, px, py) == (if in_console(px, py) && (
        row_at(py) < row || row_at(py) == row && col_at(px) < col) {
            text_ink(font, cells, px, py)
        } else {
            pixel(before, px, py)
        })
}

/// One more cell drawn.
proof fn cell_is_text(
    before: Seq<u8>,
    fb: Seq<u8>,
    font: Seq<[u8; 8]>,
    cells: Seq<u8>,
    row: int,
    col: int,
)
    requires
        fb.len() == PIXELS,
        0 <= row < ROWS,
        0 <= col < COLS,
        partly_drawn(before, fb, font, cells, row, col),
    ensures
        partly_drawn(
            before,
            cell_drawn(fb, font, row, col, cells[row * COLS + col]),
            font,
            cells,
            row,
            col + 1,
        ),
{
    let after = cell_drawn(fb, font, row, col, cells[row * COLS + col]);
    assert forall|px: int, py: int| on_screen(px, py) implies #[trigger] pixel(after, px, py) == (
    if in_console(px, py) && (row_at(py) < row || row_at(py) == row && col_at(px) < col + 1) {
        text_ink(font, cells, px, py)
    } else {
        pixel(before, px, py)
    }) by {
        assert((py * 320 + px) % 320 == px);
        assert((py * 320 + px) / 320 == py);
        assert(pixel(fb, px, py) == fb[py * 320 + px]);
        assert(in_cell(px, py, row, col) <==> in_console(px, py) && row_at(py) == row && col_at(px) == col);
    }
}

/// Draw every cell of `grid`.
pub fn draw_all(fb: &mut [u8], grid: &Grid, font: &[[u8; 8]; 95])
    requires
        old(fb)@.len() == PIXELS,
        grid.wf(),
    ensures
        final(fb)@ == text_drawn(old(fb)@, font@, grid@.cells),
{
    let ghost before = fb@;
    let ghost after = text_drawn(before, font@, grid@.cells);
    let mut row: usize = 0;
    while row < ROWS
        invariant
            row <= ROWS,
            grid.wf(),
            fb@.len() == PIXELS,
            partly_drawn(before, fb@, font@, grid@.cells, row as int, 0),
        decreases ROWS - row,
    {
        let mut col: usize = 0;
        while col < COLS
            invariant
                row < ROWS,
                col <= COLS,
                grid.wf(),
                fb@.len() == PIXELS,
                partly_drawn(before, fb@, font@, grid@.cells, row as int, col as int),
            decreases COLS - col,
        {
            proof {
                cell_is_text(before, fb@, font@, grid@.cells, row as int, col as int);
            }
            let c = grid.cell(row, col);
            draw_cell(fb, font, row, col, c);
            col += 1;
        }
        row += 1;
    }
    proof {
        assert forall|px: int, py: int| on_screen(px, py) implies #[trigger] pixel(fb@, px, py)
            == pixel(after, px, py) by {
            assert((py * 320 + px) % 320 == px);
            assert((py * 320 + px) / 320 == py);
        }
        same_picture(fb@, after);
    }
}

/// Write `bytes` to the console.
pub fn write(fb: &mut [u8], grid: &mut Grid, font: &[[u8; 8]; 95], bytes: &[u8])
    requires
        old(fb)@.len() == PIXELS,
        old(grid).wf(),
    ensures
        final(grid).wf(),
        final(grid)@ == old(grid)@.write(bytes@),
        final(fb)@ == old(grid)@.shown(old(fb)@, font@, bytes@),
        final(fb)@.len() == PIXELS,
{
    let ghost start = grid@;
    let ghost before = fb@;
    let mut repaint = false;
    let mut i: usize = 0;
    while i < bytes.len()
        invariant
            i <= bytes.len(),
            grid.wf(),
            fb@.len() == PIXELS,
            grid@ == start.write(bytes@.take(i as int)),
            repaint == start.write_scrolls(bytes@.take(i as int)),
            fb@ == start.write_drawn(before, font@, bytes@.take(i as int)),
        decreases bytes.len() - i,
    {
        proof {
            let next = bytes@.take(i + 1);
            assert(next.drop_last() =~= bytes@.take(i as int));
            assert(next.last() == bytes@[i as int]);
        }
        let scrolled = grid.put(fb, font, bytes[i]);
        repaint = repaint || scrolled;
        i += 1;
    }
    assert(bytes@.take(i as int) =~= bytes@);
    if repaint {
        draw_all(fb, grid, font);
    }
}

/// Repaint every cell.
pub fn redraw(fb: &mut [u8], grid: &Grid, font: &[[u8; 8]; 95])
    requires
        old(fb)@.len() == PIXELS,
        grid.wf(),
    ensures
        final(fb)@ == text_drawn(old(fb)@, font@, grid@.cells),
        final(fb)@.len() == PIXELS,
{
    draw_all(fb, grid, font);
}

/// Blank the grid, home the cursor and repaint.
pub fn reset(fb: &mut [u8], grid: &mut Grid, font: &[[u8; 8]; 95])
    requires
        old(fb)@.len() == PIXELS,
    ensures
        final(grid).wf(),
        final(grid)@ == GridModel::blank(),
        final(fb)@ == text_drawn(old(fb)@, font@, GridModel::blank().cells),
{
    *grid = Grid::new();
    draw_all(fb, grid, font);
}

/// The screen shows the grid: every pixel of the console has the color that
/// the cells give it.
pub open spec fn shows(fb: Seq<u8>, font: Seq<[u8; 8]>, cells: Seq<u8>) -> bool {
    fb == text_drawn(fb, font, cells)
}

/// Repainting makes the screen show the grid, whatever it showed before.
pub proof fn repaint_shows(fb: Seq<u8>, font: Seq<[u8; 8]>, cells: Seq<u8>)
    ensures
        shows(text_drawn(fb, font, cells), font, cells),
{
    let after = text_drawn(fb, font, cells);
    assert(after =~= text_drawn(after, font, cells));
}

/// Changing one cell of what the screen shows and drawing it keeps the
/// screen showing the cells.
proof fn drawing_keeps_showing(fb: Seq<u8>, font: Seq<[u8; 8]>, cells: Seq<u8>, row: int, col: int, c: u8)
    requires
        fb.len() == PIXELS,
        cells.len() == CELLS,
        0 <= row < ROWS,
        0 <= col < COLS,
        shows(fb, font, cells),
    ensures
        shows(
            cell_drawn(fb, font, row, col, c),
            font,
            cells.update(row * COLS + col, c),
        ),
{
    let after = cell_drawn(fb, font, row, col, c);
    let changed = cells.update(row * COLS + col, c);
    let full = text_drawn(after, font, changed);
    assert forall|px: int, py: int| on_screen(px, py) implies #[trigger] pixel(after, px, py)
        == pixel(full, px, py) by {
        let i = py * 320 + px;
        assert(i % 320 == px);
        assert(i / 320 == py);
        assert(fb[i] == text_drawn(fb, font, cells)[i]);
        assert(in_cell(px, py, row, col) <==> in_console(px, py) && row_at(py) == row && col_at(px) == col);
        if in_console(px, py) {
            let r = row_at(py);
            let k = col_at(px);
            assert(0 <= r < 18 && 0 <= k < 24);
            assert(r * 24 + k == row * 24 + col ==> r == row && k == col);
        }
    }
    same_picture(after, full);
}

/// The picture one byte leaves before any repainting.
spec fn byte_drawn(grid: GridModel, fb: Seq<u8>, font: Seq<[u8; 8]>, byte: u8) -> Seq<u8> {
    match grid.draws(byte) {
        Some((row, col)) => cell_drawn(fb, font, row, col, grid.put(byte).cell(row, col)),
        None => fb,
    }
}

/// A byte that does not scroll keeps the screen showing the grid.
proof fn byte_keeps_showing(grid: GridModel, fb: Seq<u8>, font: Seq<[u8; 8]>, byte: u8)
    requires
        fb.len() == PIXELS,
        grid.wf(),
        !grid.scrolls(byte),
        shows(fb, font, grid.cells),
    ensures
        shows(byte_drawn(grid, fb, font, byte), font, grid.put(byte).cells),
{
    match grid.draws(byte) {
        Some((row, col)) => {
            let c = grid.put(byte).cell(row, col);
            assert(grid.put(byte).cells =~= grid.cells.update(row * COLS + col, c));
            drawing_keeps_showing(fb, font, grid.cells, row, col, c);
        },
        None => {
            assert(grid.put(byte).cells =~= grid.cells);
        },
    }
}

/// Before any repainting, a write that does not scroll keeps the screen
/// showing the grid.
proof fn draws_keep_showing(grid: GridModel, fb: Seq<u8>, font: Seq<[u8; 8]>, bytes: Seq<u8>)
    requires
        fb.len() == PIXELS,
        grid.wf(),
        shows(fb, font, grid.cells),
    ensures
        grid.write_drawn(fb, font, bytes).len() == PIXELS,
        !grid.write_scrolls(bytes) ==> shows(
            grid.write_drawn(fb, font, bytes),
            font,
            grid.write(bytes).cells,
        ),
    decreases bytes.len(),
{
    if bytes.len() > 0 {
        draws_keep_showing(grid, fb, font, bytes.drop_last());
        grid.write_wf(bytes.drop_last());
        if !grid.write_scrolls(bytes) {
            byte_keeps_showing(
                grid.write(bytes.drop_last()),
                grid.write_drawn(fb, font, bytes.drop_last()),
                font,
                bytes.last(),
            );
        }
    }
}

/// A screen that shows the grid shows it after every write too.
pub proof fn write_keeps_showing(grid: GridModel, fb: Seq<u8>, font: Seq<[u8; 8]>, bytes: Seq<u8>)
    requires
        fb.len() == PIXELS,
        grid.wf(),
        shows(fb, font, grid.cells),
    ensures
        shows(grid.shown(fb, font, bytes), font, grid.write(bytes).cells),
{
    draws_keep_showing(grid, fb, font, bytes);
    if grid.write_scrolls(bytes) {
        repaint_shows(grid.write_drawn(fb, font, bytes), font, grid.write(bytes).cells);
    }
}

/// A write leaves every pixel outside the console as it was.
pub proof fn write_stays_in_console(
    grid: GridModel,
    fb: Seq<u8>,
    font: Seq<[u8; 8]>,
    bytes: Seq<u8>,
    px: int,
    py: int,
)
    requires
        fb.len() == PIXELS,
        grid.wf(),
        on_screen(px, py),
        !in_console(px, py),
    ensures
        grid.shown(fb, font, bytes).len() == PIXELS,
        pixel(grid.shown(fb, font, bytes), px, py) == pixel(fb, px, py),
{
    draws_stay_in_console(grid, fb, font, bytes, px, py);
    assert((py * 320 + px) % 320 == px);
    assert((py * 320 + px) / 320 == py);
}

proof fn draws_stay_in_console(
    grid: GridModel,
    fb: Seq<u8>,
    font: Seq<[u8; 8]>,
    bytes: Seq<u8>,
    px: int,
    py: int,
)
    requires
        fb.len() == PIXELS,
        grid.wf(),
        on_screen(px, py),
        !in_console(px, py),
    ensures
        grid.write_drawn(fb, font, bytes).len() == PIXELS,
        pixel(grid.write_drawn(fb, font, bytes), px, py) == pixel(fb, px, py),
    decreases bytes.len(),
{
    if bytes.len() > 0 {
        draws_stay_in_console(grid, fb, font, bytes.drop_last(), px, py);
        grid.write_wf(bytes.drop_last());
        let at = grid.write(bytes.drop_last());
        assert((py * 320 + px) % 320 == px);
        assert((py * 320 + px) / 320 == py);
        match at.draws(bytes.last()) {
            Some((row, col)) => {
                assert(0 <= row < ROWS && 0 <= col < COLS);
                assert(!in_cell(px, py, row, col));
            },
            None => {},
        }
    }
}

/// A backspace takes back the character before it: the cursor returns to
/// where that character went and its cell is blank.
pub proof fn backspace_takes_back(grid: GridModel, c: u8)
    requires
        grid.wf(),
        c != 0x08 && c != 0x0a && c != 0x0d,
    ensures
        ({
            let at = if grid.col == COLS {
                grid.newline()
            } else {
                grid
            };
            grid.put(c).put(0x08) == at.with_cell(at.row, at.col, 0x20)
        }),
{
    grid.put_wf(c);
    let at = if grid.col == COLS {
        grid.newline()
    } else {
        grid
    };
    assert(grid.put(c).put(0x08) =~= at.with_cell(at.row, at.col, 0x20));
}

/// Scrolling shifts every row up one and leaves the bottom row blank.
pub proof fn scrolling_shifts(grid: GridModel, row: int, col: int)
    requires
        grid.wf(),
        grid.at_bottom(),
        0 <= row < ROWS,
        0 <= col < COLS,
    ensures
        row + 1 < ROWS ==> grid.newline().cell(row, col) == grid.cell(row + 1, col),
        row + 1 == ROWS ==> grid.newline().cell(row, col) == 0x20,
{
}

} // verus!
