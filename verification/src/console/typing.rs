//! What a reader of the screen sees of the bytes that are written.
use vstd::prelude::*;

use crate::console::{shows, GridModel, COLS};
use crate::vga::pixel;

verus! {

/// A character leaves itself in the cell just before the cursor, from the
/// space to the tilde; any other byte that does not move the cursor about
/// leaves a question mark.
pub proof fn character_is_left_before_the_cursor(grid: GridModel, byte: u8)
    requires
        grid.wf(),
        byte != 0x0a && byte != 0x0d && byte != 0x08,
    ensures
        ({
            let after = grid.put(byte);
            &&& 1 <= after.col <= 24
            &&& 0x20 <= byte <= 0x7e ==> after.cell(after.row, after.col - 1) == byte
            &&& byte < 0x20 || byte > 0x7e ==> after.cell(after.row, after.col - 1) == 0x3f
        }),
{
    grid.put_wf(byte);
    let at = if grid.col == COLS {
        grid.newline()
    } else {
        grid
    };
    assert(at.wf());
    assert(0 <= at.row * 24 + at.col < 432);
}

/// The cursor goes one to the right, and from behind the last of the 24
/// columns to the second one of the next row; below the last of the 18 rows
/// there is none, and everything moves up instead.
pub proof fn character_moves_the_cursor(grid: GridModel, byte: u8)
    requires
        grid.wf(),
        byte != 0x0a && byte != 0x0d && byte != 0x08,
    ensures
        grid.col < 24 ==> grid.put(byte).col == grid.col + 1 && grid.put(byte).row == grid.row,
        grid.col == 24 ==> grid.put(byte).col == 1,
        grid.col == 24 && grid.row < 17 ==> grid.put(byte).row == grid.row + 1,
        grid.col == 24 && grid.row == 17 ==> grid.put(byte).row == 17,
{
}

/// A character changes no cell but the one before the cursor, unless it had
/// to go below the last row: then every other cell holds what was below it,
/// and the rest of the last row is blank.
pub proof fn character_changes_one_cell(grid: GridModel, byte: u8, row: int, col: int)
    requires
        grid.wf(),
        byte != 0x0a && byte != 0x0d && byte != 0x08,
        0 <= row < 18,
        0 <= col < 24,
        (row, col) != (grid.put(byte).row, grid.put(byte).col - 1),
    ensures
        !(grid.col == 24 && grid.row == 17) ==> grid.put(byte).cell(row, col) == grid.cell(row, col),
        grid.col == 24 && grid.row == 17 && row < 17 ==> grid.put(byte).cell(row, col) == grid.cell(
            row + 1,
            col,
        ),
        grid.col == 24 && grid.row == 17 && row == 17 ==> grid.put(byte).cell(row, col) == 0x20,
{
    let at = if grid.col == COLS {
        grid.newline()
    } else {
        grid
    };
    grid.put_wf(byte);
    assert(at.wf());
    assert(0 <= at.row * 24 + at.col < 432);
    assert(row * 24 + col != at.row * 24 + at.col);
}

/// A new line starts at the left of the next row and changes no cell; from
/// the last row it moves every row up and leaves a blank one.
pub proof fn new_line_starts_the_next_row(grid: GridModel, row: int, col: int)
    requires
        grid.wf(),
        0 <= row < 18,
        0 <= col < 24,
    ensures
        grid.put(0x0a).col == 0,
        grid.row < 17 ==> grid.put(0x0a).row == grid.row + 1 && grid.put(0x0a).cell(row, col)
            == grid.cell(row, col),
        grid.row == 17 ==> grid.put(0x0a).row == 17,
        grid.row == 17 && row < 17 ==> grid.put(0x0a).cell(row, col) == grid.cell(row + 1, col),
        grid.row == 17 && row == 17 ==> grid.put(0x0a).cell(row, col) == 0x20,
{
}

/// A carriage return goes to the left of the row and changes no cell.
pub proof fn carriage_return_stays_in_its_row(grid: GridModel)
    requires
        grid.wf(),
    ensures
        grid.put(0x0d).col == 0,
        grid.put(0x0d).row == grid.row,
        grid.put(0x0d).cells == grid.cells,
{
}

/// A backspace blanks the cell before the cursor, over the left edge that at
/// the end of the row above, and the cursor goes there; at the very start
/// nothing happens. No other cell changes.
pub proof fn backspace_blanks_the_cell_before(grid: GridModel, row: int, col: int)
    requires
        grid.wf(),
        0 <= row < 18,
        0 <= col < 24,
    ensures
        ({
            let after = grid.put(0x08);
            &&& grid.col > 0 ==> after.row == grid.row && after.col == grid.col - 1
            &&& grid.col == 0 && grid.row > 0 ==> after.row == grid.row - 1 && after.col == 23
            &&& grid.col == 0 && grid.row == 0 ==> after == grid
            &&& grid.col > 0 || grid.row > 0 ==> after.cell(after.row, after.col) == 0x20
            &&& (row, col) != (after.row, after.col) ==> after.cell(row, col) == grid.cell(row, col)
        }),
{
    let after = grid.put(0x08);
    grid.put_wf(0x08);
    assert(0 <= after.row * 24 + after.col < 432);
    assert((row, col) != (after.row, after.col) ==> row * 24 + col != after.row * 24 + after.col);
}

/// A blank console is blank everywhere, with the cursor at the top left.
pub proof fn blank_console_is_blank(row: int, col: int)
    requires
        0 <= row < 18,
        0 <= col < 24,
    ensures
        GridModel::blank().cell(row, col) == 0x20,
        GridModel::blank().row == 0,
        GridModel::blank().col == 0,
{
}

/// What is written in two pieces is what is written in one.
pub proof fn writing_in_pieces(grid: GridModel, first: Seq<u8>, second: Seq<u8>)
    ensures
        grid.write(first + second) == grid.write(first).write(second),
    decreases second.len(),
{
    if second.len() == 0 {
        assert(first + second =~= first);
    } else {
        writing_in_pieces(grid, first, second.drop_last());
        assert((first + second).drop_last() =~= first + second.drop_last());
    }
}

/// A line of characters is there to be read: on a row with room for it, each
/// is in its own cell, left to right, and nothing else on the screen has
/// changed.
pub proof fn line_can_be_read(grid: GridModel, text: Seq<u8>, row: int, col: int)
    requires
        grid.wf(),
        grid.col + text.len() <= 24,
        forall|i: int| 0 <= i < text.len() ==> 0x20 <= #[trigger] text[i] <= 0x7e,
        0 <= row < 18,
        0 <= col < 24,
    ensures
        grid.write(text).row == grid.row,
        grid.write(text).col == grid.col + text.len(),
        row == grid.row && grid.col <= col < grid.col + text.len() ==> grid.write(text).cell(row, col)
            == text[col - grid.col],
        !(row == grid.row && grid.col <= col < grid.col + text.len()) ==> grid.write(text).cell(
            row,
            col,
        ) == grid.cell(row, col),
    decreases text.len(),
{
    if text.len() > 0 {
        let rest = text.drop_last();
        line_can_be_read(grid, rest, row, col);
        grid.write_wf(rest);
        let before = grid.write(rest);
        character_is_left_before_the_cursor(before, text.last());
        if (row, col) != (before.put(text.last()).row, before.put(text.last()).col - 1) {
            character_changes_one_cell(before, text.last(), row, col);
        }
    }
}

/// On a screen that shows the grid, each character is eight pixels wide and
/// high, and a pixel of it has the ink's color exactly where the bit of its
/// glyph is set, the lowest bit at the left.
pub proof fn glyph_is_on_the_screen(
    fb: Seq<u8>,
    font: Seq<[u8; 8]>,
    grid: GridModel,
    row: int,
    col: int,
    dx: int,
    dy: int,
)
    requires
        fb.len() == 320 * 200,
        grid.wf(),
        shows(fb, font, grid.cells),
        0 <= row < 18,
        0 <= col < 24,
        0 <= dx < 8,
        0 <= dy < 8,
    ensures
        ({
            let bits = font[grid.cell(row, col) - 0x20][dy];
            let lit = bits & (1u8 << (dx as u8)) != 0;
            pixel(fb, 48 + 8 * col + dx, 50 + 8 * row + dy) == (if lit {
                crate::vga::palette::TAN
            } else {
                crate::vga::palette::BLACK
            })
        }),
{
    let px = 48 + 8 * col + dx;
    let py = 50 + 8 * row + dy;
    let i = py * 320 + px;
    assert(i % 320 == px);
    assert(i / 320 == py);
    assert(0 <= i < 64000);
    assert(fb[i] == crate::console::text_drawn(fb, font, grid.cells)[i]);
    assert((px - 48) / 8 == col && (px - 48) % 8 == dx);
    assert((py - 50) / 8 == row && (py - 50) % 8 == dy);
    assert(crate::console::in_console(px, py));
}

} // verus!
