//! Drawing for the 320x200 screen with one palette index per pixel: palette
//! programming, flat rectangles with rounded corners, and the panel made of
//! them.
use crate::console::{redraw, text_drawn, Grid};
use crate::pic::PortWrite;
use vstd::prelude::*;

pub mod palette;
pub mod shapes;

verus! {

pub const WIDTH: usize = 320;
pub const HEIGHT: usize = 200;

/// Bytes of the framebuffer.
pub const PIXELS: usize = 64000;

/// Physical address of the framebuffer.
pub const FRAMEBUFFER_PHYS_ADDR: u64 = 0xa0000;

const DAC_INDEX: u16 = 0x3c8;
const DAC_DATA: u16 = 0x3c9;

/// Whether `(px, py)` is a pixel of the screen.
pub open spec fn on_screen(px: int, py: int) -> bool {
    0 <= px < WIDTH && 0 <= py < HEIGHT
}

/// The color of pixel `(px, py)` of `fb`.
pub open spec fn pixel(fb: Seq<u8>, px: int, py: int) -> u8 {
    fb[py * WIDTH + px]
}

/// Two pictures with the same pixels are the same.
pub proof fn same_picture(a: Seq<u8>, b: Seq<u8>)
    requires
        a.len() == PIXELS,
        b.len() == PIXELS,
        forall|px: int, py: int|
            on_screen(px, py) ==> #[trigger] pixel(a, px, py) == pixel(b, px, py),
    ensures
        a == b,
{
    assert forall|i: int| 0 <= i < PIXELS implies a[i] == b[i] by {
        let px = i % 320;
        let py = i / 320;
        assert(on_screen(px, py));
        assert(pixel(a, px, py) == pixel(b, px, py));
    }
    assert(a =~= b);
}

/// `fb` with pixel `(x, y)` in `color`; the same if that is off the screen.
pub open spec fn plotted(fb: Seq<u8>, x: int, y: int, color: u8) -> Seq<u8> {
    if on_screen(x, y) {
        fb.update(y * WIDTH + x, color)
    } else {
        fb
    }
}

/// Plotting a pixel changes that pixel only.
pub proof fn plotted_pixels(fb: Seq<u8>, x: int, y: int, color: u8)
    requires
        fb.len() == PIXELS,
    ensures
        plotted(fb, x, y, color).len() == PIXELS,
        forall|px: int, py: int|
            on_screen(px, py) ==> #[trigger] pixel(plotted(fb, x, y, color), px, py) == (if px == x
                && py == y {
                color
            } else {
                pixel(fb, px, py)
            }),
{
}

/// Whether the rectangle of width `w` and height `h` at `(x, y)` covers
/// `(px, py)`.
pub open spec fn in_rect(px: int, py: int, x: int, y: int, w: int, h: int) -> bool {
    x <= px < x + w && y <= py < y + h
}

/// `fb` with that rectangle filled.
pub open spec fn rect_filled(fb: Seq<u8>, x: int, y: int, w: int, h: int, color: u8) -> Seq<u8> {
    Seq::new(
        fb.len(),
        |i: int|
            if in_rect(i % WIDTH as int, i / WIDTH as int, x, y, w, h) {
                color
            } else {
                fb[i]
            },
    )
}

/// Which of a rectangle's corners are rounded.
#[derive(Clone, Copy, Debug, PartialEq, Eq, Structural)]
pub struct Corners {
    pub top_left: bool,
    pub top_right: bool,
    pub bottom_left: bool,
    pub bottom_right: bool,
}

impl Corners {
    /// The same choice for all four corners.
    pub open spec fn each(rounded: bool) -> Corners {
        Corners {
            top_left: rounded,
            top_right: rounded,
            bottom_left: rounded,
            bottom_right: rounded,
        }
    }

    /// No corner rounded.
    pub fn none() -> (corners: Corners)
        ensures
            corners == Corners::each(false),
    {
        Corners { top_left: false, top_right: false, bottom_left: false, bottom_right: false }
    }

    /// Every corner rounded.
    pub fn all() -> (corners: Corners)
        ensures
            corners == Corners::each(true),
    {
        Corners { top_left: true, top_right: true, bottom_left: true, bottom_right: true }
    }
}

/// Whether `(col, row)` lies within distance `r` of `(ccol, crow)`.
pub open spec fn in_circle(col: int, row: int, ccol: int, crow: int, r: int) -> bool {
    (col - ccol) * (col - ccol) + (row - crow) * (row - crow) <= r * r
}

/// Whether the pixel in column `col` and row `row` of a `w` by `h`
/// rectangle is painted when `corners` are rounded to radius `r`: a pixel
/// in the `r` by `r` box of a rounded corner only inside the quarter circle
/// about the inner point of that box, every other one always.
pub open spec fn rounded_covers(
    col: int,
    row: int,
    w: int,
    h: int,
    r: int,
    corners: Corners,
) -> bool {
    let left = col < r;
    let right = w >= r && col >= w - r;
    let top = row < r;
    let bottom = h >= r && row >= h - r;
    if corners.top_left && left && top {
        in_circle(col, row, r, r, r)
    } else if corners.top_right && right && top {
        in_circle(col, row, w - r, r, r)
    } else if corners.bottom_left && left && bottom {
        in_circle(col, row, r, h - r, r)
    } else if corners.bottom_right && right && bottom {
        in_circle(col, row, w - r, h - r, r)
    } else {
        true
    }
}

/// Whether the rounded rectangle at `(x, y)` covers `(px, py)`.
pub open spec fn in_rounded(
    px: int,
    py: int,
    x: int,
    y: int,
    w: int,
    h: int,
    r: int,
    corners: Corners,
) -> bool {
    in_rect(px, py, x, y, w, h) && rounded_covers(px - x, py - y, w, h, r, corners)
}

/// `fb` with that rounded rectangle filled.
pub open spec fn rounded_filled(
    fb: Seq<u8>,
    x: int,
    y: int,
    w: int,
    h: int,
    r: int,
    corners: Corners,
    color: u8,
) -> Seq<u8> {
    Seq::new(
        fb.len(),
        |i: int|
            if in_rounded(i % WIDTH as int, i / WIDTH as int, x, y, w, h, r, corners) {
                color
            } else {
                fb[i]
            },
    )
}

/// The pixel at an index.
proof fn coordinates(px: int, py: int)
    requires
        on_screen(px, py),
    ensures
        0 <= py * WIDTH + px < PIXELS,
        (py * WIDTH + px) % WIDTH as int == px,
        (py * WIDTH + px) / WIDTH as int == py,
{
}

/// A rectangle without rounded corners is the plain rectangle.
pub proof fn square_corners_fill_all(
    fb: Seq<u8>,
    x: int,
    y: int,
    w: int,
    h: int,
    r: int,
    color: u8,
)
    ensures
        rounded_filled(fb, x, y, w, h, r, Corners::each(false), color) == rect_filled(
            fb,
            x,
            y,
            w,
            h,
            color,
        ),
{
    assert(rounded_filled(fb, x, y, w, h, r, Corners::each(false), color) =~= rect_filled(
        fb,
        x,
        y,
        w,
        h,
        color,
    ));
}

/// Set pixel `(x, y)`; nothing happens off the screen.
pub fn put_pixel(fb: &mut [u8], x: usize, y: usize, color: u8)
    requires
        old(fb)@.len() == PIXELS,
    ensures
        final(fb)@ == plotted(old(fb)@, x as int, y as int, color),
{
    if x < WIDTH && y < HEIGHT {
        fb[y * WIDTH + x] = color;
    }
}

/// Fill the `w` by `h` rectangle at `(x, y)`, as far as it is on the screen.
pub fn fill_rect(fb: &mut [u8], x: usize, y: usize, w: usize, h: usize, color: u8)
    requires
        old(fb)@.len() == PIXELS,
        w > 0 && h > 0 ==> x + w - 1 <= usize::MAX && y + h - 1 <= usize::MAX,
    ensures
        final(fb)@ == rect_filled(old(fb)@, x as int, y as int, w as int, h as int, color),
{
    let ghost before = fb@;
    let mut row: usize = 0;
    while row < h
        invariant
            row <= h,
            before.len() == PIXELS,
            fb@.len() == PIXELS,
            w > 0 && h > 0 ==> x + w - 1 <= usize::MAX && y + h - 1 <= usize::MAX,
            forall|px: int, py: int|
                on_screen(px, py) ==> #[trigger] pixel(fb@, px, py) == (if in_rect(
                    px,
                    py,
                    x as int,
                    y as int,
                    w as int,
                    row as int,
                ) {
                    color
                } else {
                    pixel(before, px, py)
                }),
        decreases h - row,
    {
        let mut col: usize = 0;
        while col < w
            invariant
                row < h,
                col <= w,
                before.len() == PIXELS,
                fb@.len() == PIXELS,
                w > 0 && h > 0 ==> x + w - 1 <= usize::MAX && y + h - 1 <= usize::MAX,
                forall|px: int, py: int|
                    on_screen(px, py) ==> #[trigger] pixel(fb@, px, py) == (if in_rect(
                        px,
                        py,
                        x as int,
                        y as int,
                        w as int,
                        row as int,
                    ) || in_rect(px, py, x as int, y + row, col as int, 1) {
                        color
                    } else {
                        pixel(before, px, py)
                    }),
            decreases w - col,
        {
            proof {
                plotted_pixels(fb@, x + col, y + row, color);
            }
            put_pixel(fb, x + col, y + row, color);
            col += 1;
        }
        row += 1;
    }
    proof {
        let after = rect_filled(before, x as int, y as int, w as int, h as int, color);
        assert forall|px: int, py: int| on_screen(px, py) implies #[trigger] pixel(fb@, px, py)
            == pixel(after, px, py) by {
            coordinates(px, py);
        }
        same_picture(fb@, after);
    }
}

/// Whether `(col, row)` is painted; see `rounded_covers`.
fn covers(col: usize, row: usize, w: usize, h: usize, r: usize, corners: Corners) -> (b: bool)
    requires
        col < w,
        row < h,
        w <= i64::MAX,
        h <= i64::MAX,
        r * r <= usize::MAX,
        2 * (r * r) <= i64::MAX,
    ensures
        b == rounded_covers(col as int, row as int, w as int, h as int, r as int, corners),
{
    let left = col < r;
    let right = w >= r && col >= w - r;
    let top = row < r;
    let bottom = h >= r && row >= h - r;
    let center: Option<(usize, usize)> = if corners.top_left && left && top {
        Some((r, r))
    } else if corners.top_right && right && top {
        Some((w - r, r))
    } else if corners.bottom_left && left && bottom {
        Some((r, h - r))
    } else if corners.bottom_right && right && bottom {
        Some((w - r, h - r))
    } else {
        None
    };
    match center {
        Some((ccol, crow)) => {
            assert(r <= i64::MAX) by (nonlinear_arith)
                requires
                    2 * (r * r) <= i64::MAX,
            ;
            let dx: i64 = col as i64 - ccol as i64;
            let dy: i64 = row as i64 - crow as i64;
            proof {
                short_square(dx as int, r as int);
                short_square(dy as int, r as int);
            }
            dx * dx + dy * dy <= (r * r) as i64
        },
        None => true,
    }
}

/// The square of a distance of at most `r`.
proof fn short_square(d: int, r: int)
    by (nonlinear_arith)
    requires
        -r <= d <= r,
    ensures
        0 <= d * d <= r * r,
{
}

/// Fill the `w` by `h` rectangle at `(x, y)`, the `corners` rounded to
/// radius `r`, as far as it is on the screen.
pub fn fill_rounded_rect(
    fb: &mut [u8],
    x: usize,
    y: usize,
    w: usize,
    h: usize,
    r: usize,
    corners: Corners,
    color: u8,
)
    requires
        old(fb)@.len() == PIXELS,
        w > 0 && h > 0 ==> x + w - 1 <= usize::MAX && y + h - 1 <= usize::MAX,
        w <= i64::MAX,
        h <= i64::MAX,
        r * r <= usize::MAX,
        2 * (r * r) <= i64::MAX,
    ensures
        final(fb)@ == rounded_filled(
            old(fb)@,
            x as int,
            y as int,
            w as int,
            h as int,
            r as int,
            corners,
            color,
        ),
{
    let ghost before = fb@;
    let mut row: usize = 0;
    while row < h
        invariant
            row <= h,
            before.len() == PIXELS,
            fb@.len() == PIXELS,
            w > 0 && h > 0 ==> x + w - 1 <= usize::MAX && y + h - 1 <= usize::MAX,
            w <= i64::MAX,
            h <= i64::MAX,
            r * r <= usize::MAX,
            2 * (r * r) <= i64::MAX,
            forall|px: int, py: int|
                on_screen(px, py) ==> #[trigger] pixel(fb@, px, py) == (if in_rounded(
                    px,
                    py,
                    x as int,
                    y as int,
                    w as int,
                    h as int,
                    r as int,
                    corners,
                ) && py < y + row {
                    color
                } else {
                    pixel(before, px, py)
                }),
        decreases h - row,
    {
        let mut col: usize = 0;
        while col < w
            invariant
                row < h,
                col <= w,
                before.len() == PIXELS,
                fb@.len() == PIXELS,
                w > 0 && h > 0 ==> x + w - 1 <= usize::MAX && y + h - 1 <= usize::MAX,
                w <= i64::MAX,
                h <= i64::MAX,
                r * r <= usize::MAX,
                2 * (r * r) <= i64::MAX,
                forall|px: int, py: int|
                    on_screen(px, py) ==> #[trigger] pixel(fb@, px, py) == (if in_rounded(
                        px,
                        py,
                        x as int,
                        y as int,
                        w as int,
                        h as int,
                        r as int,
                        corners,
                    ) && (py < y + row || py == y + row && px < x + col) {
                        color
                    } else {
                        pixel(before, px, py)
                    }),
            decreases w - col,
        {
            let visible = covers(col, row, w, h, r, corners);
            if visible {
                proof {
                    plotted_pixels(fb@, x + col, y + row, color);
                }
                put_pixel(fb, x + col, y + row, color);
            }
            assert(x + col - x == col && y + row - y == row);
            col += 1;
        }
        row += 1;
    }
    proof {
        let after = rounded_filled(
            before,
            x as int,
            y as int,
            w as int,
            h as int,
            r as int,
            corners,
            color,
        );
        assert forall|px: int, py: int| on_screen(px, py) implies #[trigger] pixel(fb@, px, py)
            == pixel(after, px, py) by {
            coordinates(px, py);
        }
        same_picture(fb@, after);
    }
}

/// The writes that set palette entry `index` to a color of 6 bits a channel.
pub fn set_palette_color(index: u8, r6: u8, g6: u8, b6: u8) -> (writes: Vec<PortWrite>)
    ensures
        writes@ == color_writes((index, r6, g6, b6)),
{
    let mut writes: Vec<PortWrite> = Vec::new();
    writes.push(PortWrite { port: DAC_INDEX, value: index });
    writes.push(PortWrite { port: DAC_DATA, value: r6 });
    writes.push(PortWrite { port: DAC_DATA, value: g6 });
    writes.push(PortWrite { port: DAC_DATA, value: b6 });
    assert(writes@ =~= color_writes((index, r6, g6, b6)));
    writes
}

/// The index goes to port `0x3c8`, then red, green and blue to `0x3c9`.
pub open spec fn color_writes(entry: (u8, u8, u8, u8)) -> Seq<PortWrite> {
    seq![
        PortWrite { port: 0x3c8, value: entry.0 },
        PortWrite { port: 0x3c9, value: entry.1 },
        PortWrite { port: 0x3c9, value: entry.2 },
        PortWrite { port: 0x3c9, value: entry.3 },
    ]
}

/// The writes for all of `entries`, one after the other.
pub open spec fn palette_writes(entries: Seq<(u8, u8, u8, u8)>) -> Seq<PortWrite>
    decreases entries.len(),
{
    if entries.len() == 0 {
        Seq::empty()
    } else {
        palette_writes(entries.drop_last()) + color_writes(entries.last())
    }
}

/// The writes that set every color of the panel.
pub fn init_palette() -> (writes: Vec<PortWrite>)
    ensures
        writes@ == palette_writes(palette::table()),
{
    let entries = palette::entries();
    let mut writes: Vec<PortWrite> = Vec::new();
    let mut i: usize = 0;
    while i < entries.len()
        invariant
            i <= entries.len(),
            entries@ == palette::table(),
            writes@ == palette_writes(palette::table().take(i as int)),
        decreases entries.len() - i,
    {
        let (index, r, g, b) = entries[i];
        let mut more = set_palette_color(index, r, g, b);
        proof {
            assert(palette::table().take(i + 1).drop_last() =~= palette::table().take(i as int));
        }
        writes.append(&mut more);
        i += 1;
    }
    assert(palette::table().take(i as int) =~= palette::table());
    writes
}

pub const BUTTON_COUNT: usize = 4;

const BUTTON_X: usize = 250;
const BUTTON_Y0: usize = 15;
const BUTTON_SPACING: usize = 40;
const BUTTON_W: usize = 55;
const BUTTON_H: usize = 30;
const BUTTON_RADIUS: usize = 10;
const HIGHLIGHT_MARGIN: usize = 4;

/// The color of button `i`.
pub open spec fn button_color(i: int) -> u8 {
    if i == 0 {
        palette::RED_ALERT
    } else if i == 1 {
        palette::BLUE
    } else if i == 2 {
        palette::TAN
    } else {
        palette::ORANGE
    }
}

/// `fb` with button `i` drawn on it, on a larger highlighted shape if it is
/// the selected one.
pub open spec fn button_drawn(fb: Seq<u8>, i: int, selected: bool) -> Seq<u8> {
    let under = if selected {
        rounded_filled(
            fb,
            246,
            11 + 40 * i,
            63,
            38,
            14,
            Corners::each(true),
            palette::HIGHLIGHT,
        )
    } else {
        fb
    };
    rounded_filled(under, 250, 15 + 40 * i, 55, 30, 10, Corners::each(true), button_color(i))
}

/// `fb` with the first `n` buttons drawn on it.
pub open spec fn buttons_drawn(fb: Seq<u8>, n: nat, selected: Option<usize>) -> Seq<u8>
    decreases n,
{
    if n == 0 {
        fb
    } else {
        button_drawn(
            buttons_drawn(fb, (n - 1) as nat, selected),
            n - 1,
            selected == Some((n - 1) as usize),
        )
    }
}

/// The panel: a black screen, an orange bar along the top with a rounded
/// left end, a purple bar hanging from it with a rounded lower end, and a
/// column of buttons along the right edge.
pub open spec fn panel(selected: Option<usize>) -> Seq<u8> {
    let black = Seq::new(PIXELS as nat, |i: int| palette::BLACK);
    let bar = rounded_filled(
        black,
        0,
        15,
        200,
        28,
        14,
        (Corners { top_left: true, top_right: false, bottom_left: true, bottom_right: false }),
        palette::ORANGE,
    );
    let both = rounded_filled(
        bar,
        0,
        43,
        40,
        120,
        14,
        (Corners { top_left: false, top_right: false, bottom_left: true, bottom_right: true }),
        palette::PURPLE,
    );
    buttons_drawn(both, BUTTON_COUNT as nat, selected)
}

fn color_of_button(i: usize) -> (color: u8)
    ensures
        color == button_color(i as int),
{
    if i == 0 {
        palette::RED_ALERT
    } else if i == 1 {
        palette::BLUE
    } else if i == 2 {
        palette::TAN
    } else {
        palette::ORANGE
    }
}

/// Draw button `i`.
fn draw_button(fb: &mut [u8], i: usize, selected: bool)
    requires
        i < BUTTON_COUNT,
        old(fb)@.len() == PIXELS,
    ensures
        final(fb)@ == button_drawn(old(fb)@, i as int, selected),
        final(fb)@.len() == PIXELS,
{
    let y: usize = BUTTON_Y0 + i * BUTTON_SPACING;
    if selected {
        fill_rounded_rect(
            fb,
            BUTTON_X - HIGHLIGHT_MARGIN,
            y - HIGHLIGHT_MARGIN,
            BUTTON_W + 2 * HIGHLIGHT_MARGIN,
            BUTTON_H + 2 * HIGHLIGHT_MARGIN,
            BUTTON_RADIUS + HIGHLIGHT_MARGIN,
            Corners::all(),
            palette::HIGHLIGHT,
        );
    }
    let color = color_of_button(i);
    fill_rounded_rect(fb, BUTTON_X, y, BUTTON_W, BUTTON_H, BUTTON_RADIUS, Corners::all(), color);
}

/// Paint the panel, with the selected button highlighted and the console's
/// text on it.
pub fn draw_demo_panel(fb: &mut [u8], selected: Option<usize>, grid: &Grid, font: &[[u8; 8]; 95])
    requires
        old(fb)@.len() == PIXELS,
        grid.wf(),
    ensures
        final(fb)@ == text_drawn(panel(selected), font@, grid@.cells),
{
    fill_rect(fb, 0, 0, WIDTH, HEIGHT, palette::BLACK);
    proof {
        assert(fb@ =~= Seq::new(PIXELS as nat, |i: int| palette::BLACK)) by {
            assert forall|i: int| 0 <= i < PIXELS implies fb@[i] == palette::BLACK by {
                assert(in_rect(i % 320, i / 320, 0, 0, 320, 200));
            }
        }
    }
    fill_rounded_rect(
        fb,
        0,
        15,
        200,
        28,
        14,
        Corners { top_left: true, top_right: false, bottom_left: true, bottom_right: false },
        palette::ORANGE,
    );
    fill_rounded_rect(
        fb,
        0,
        43,
        40,
        120,
        14,
        Corners { top_left: false, top_right: false, bottom_left: true, bottom_right: true },
        palette::PURPLE,
    );
    let ghost both = fb@;
    let mut i: usize = 0;
    while i < BUTTON_COUNT
        invariant
            i <= BUTTON_COUNT,
            fb@.len() == PIXELS,
            fb@ == buttons_drawn(both, i as nat, selected),
        decreases BUTTON_COUNT - i,
    {
        let chosen = match selected {
            Some(s) => s == i,
            None => false,
        };
        draw_button(fb, i, chosen);
        i += 1;
    }
    redraw(fb, grid, font);
}

/// Select button `index` and repaint the panel; nothing happens if there is
/// no such button.
pub fn select_button(
    fb: &mut [u8],
    selected: &mut Option<usize>,
    grid: &Grid,
    font: &[[u8; 8]; 95],
    index: usize,
)
    requires
        old(fb)@.len() == PIXELS,
        grid.wf(),
    ensures
        index < BUTTON_COUNT ==> *final(selected) == Some(index) && final(fb)@ == text_drawn(
            panel(Some(index)),
            font@,
            grid@.cells,
        ),
        index >= BUTTON_COUNT ==> *final(selected) == *old(selected) && final(fb)@ == old(fb)@,
{
    if index >= BUTTON_COUNT {
        return;
    }
    *selected = Some(index);
    draw_demo_panel(fb, Some(index), grid, font);
}

} // verus!
