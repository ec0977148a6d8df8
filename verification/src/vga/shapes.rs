//! What shapes leave on the screen, pixel by pixel.
use vstd::prelude::*;

use crate::vga::palette;
use crate::vga::{
    button_drawn, buttons_drawn, color_writes, palette_writes, panel, pixel,
    rect_filled, rounded_covers, rounded_filled, Corners,
};

verus! {

/// A filled rectangle has its color inside, from the first to the last
/// column and row, and everything else on the screen is as it was.
pub proof fn rectangle_fills_its_inside(
    fb: Seq<u8>,
    x: int,
    y: int,
    w: int,
    h: int,
    color: u8,
    px: int,
    py: int,
)
    requires
        fb.len() == 64000,
        0 <= px < 320,
        0 <= py < 200,
    ensures
        rect_filled(fb, x, y, w, h, color).len() == 64000,
        x <= px < x + w && y <= py < y + h ==> pixel(rect_filled(fb, x, y, w, h, color), px, py)
            == color,
        !(x <= px < x + w && y <= py < y + h) ==> pixel(
            rect_filled(fb, x, y, w, h, color),
            px,
            py,
        ) == pixel(fb, px, py),
{
    let i = py * 320 + px;
    assert(i % 320 == px && i / 320 == py);
}

/// A rounded rectangle paints nothing outside its rectangle, everything
/// inside it that is in no rounded corner, and of a rounded corner what is
/// within its circle.
pub proof fn rounded_rectangle_fills_its_inside(
    fb: Seq<u8>,
    x: int,
    y: int,
    w: int,
    h: int,
    r: int,
    corners: Corners,
    color: u8,
    px: int,
    py: int,
)
    requires
        fb.len() == 64000,
        0 <= px < 320,
        0 <= py < 200,
        0 <= r <= w,
        0 <= r <= h,
    ensures
        ({
            let after = rounded_filled(fb, x, y, w, h, r, corners, color);
            let inside = x <= px < x + w && y <= py < y + h;
            let col = px - x;
            let row = py - y;
            &&& after.len() == 64000
            &&& !inside ==> pixel(after, px, py) == pixel(fb, px, py)
            &&& inside && r <= col < w - r ==> pixel(after, px, py) == color
            &&& inside && r <= row < h - r ==> pixel(after, px, py) == color
            &&& inside && corners == Corners::each(false) ==> pixel(after, px, py) == color
            &&& pixel(after, px, py) == color || pixel(after, px, py) == pixel(fb, px, py)
        }),
{
    let i = py * 320 + px;
    assert(i % 320 == px && i / 320 == py);
}

/// In the box of a rounded corner, a pixel is painted exactly if it is no
/// further from the inner corner of the box than the radius; one corner's
/// rounding leaves the others alone.
pub proof fn corners_are_quarter_circles(col: int, row: int, w: int, h: int, r: int)
    requires
        0 < r,
        2 * r <= w,
        2 * r <= h,
        0 <= col < w,
        0 <= row < h,
    ensures
        ({
            let tl = Corners {
                top_left: true,
                top_right: false,
                bottom_left: false,
                bottom_right: false,
            };
            let tr = Corners {
                top_left: false,
                top_right: true,
                bottom_left: false,
                bottom_right: false,
            };
            let bl = Corners {
                top_left: false,
                top_right: false,
                bottom_left: true,
                bottom_right: false,
            };
            let br = Corners {
                top_left: false,
                top_right: false,
                bottom_left: false,
                bottom_right: true,
            };
            let left = r - col;
            let right = col - (w - r);
            let up = r - row;
            let down = row - (h - r);
            &&& rounded_covers(col, row, w, h, r, tl) <==> !(left > 0 && up > 0) || left * left + up
                * up <= r * r
            &&& rounded_covers(col, row, w, h, r, tr) <==> !(right >= 0 && up > 0) || right * right
                + up * up <= r * r
            &&& rounded_covers(col, row, w, h, r, bl) <==> !(left > 0 && down >= 0) || left * left
                + down * down <= r * r
            &&& rounded_covers(col, row, w, h, r, br) <==> !(right >= 0 && down >= 0) || right
                * right + down * down <= r * r
        }),
{
    assert((col - r) * (col - r) == (r - col) * (r - col)) by (nonlinear_arith);
    assert((row - r) * (row - r) == (r - row) * (r - row)) by (nonlinear_arith);
}

/// Setting a color names it once and then gives its three parts in order:
/// red, green, blue.
pub proof fn color_is_set_in_four_writes(index: u8, r: u8, g: u8, b: u8)
    ensures
        ({
            let w = color_writes((index, r, g, b));
            &&& w.len() == 4
            &&& w[0].port == 0x3c8 && w[0].value == index
            &&& w[1].port == 0x3c9 && w[1].value == r
            &&& w[2].port == 0x3c9 && w[2].value == g
            &&& w[3].port == 0x3c9 && w[3].value == b
        }),
{
}

/// Color number `k` of a table is set by the writes from number `4 * k` on.
pub proof fn colors_are_set_in_order(entries: Seq<(u8, u8, u8, u8)>, k: int)
    requires
        0 <= k < entries.len(),
    ensures
        palette_writes(entries).len() == 4 * entries.len(),
        palette_writes(entries)[4 * k].value == entries[k].0,
        palette_writes(entries)[4 * k + 1].value == entries[k].1,
        palette_writes(entries)[4 * k + 2].value == entries[k].2,
        palette_writes(entries)[4 * k + 3].value == entries[k].3,
        palette_writes(entries)[4 * k].port == 0x3c8,
    decreases entries.len(),
{
    let front = entries.drop_last();
    writes_len(front);
    writes_len(entries);
    if k < front.len() {
        colors_are_set_in_order(front, k);
    }
}

proof fn writes_len(entries: Seq<(u8, u8, u8, u8)>)
    ensures
        palette_writes(entries).len() == 4 * entries.len(),
    decreases entries.len(),
{
    if entries.len() > 0 {
        writes_len(entries.drop_last());
    }
}

/// One button: itself in its color, around it the frame if it is selected,
/// and nothing else changed.
proof fn button_pixels(fb: Seq<u8>, i: int, selected: bool, px: int, py: int)
    requires
        fb.len() == 64000,
        0 <= i < 4,
        0 <= px < 320,
        0 <= py < 200,
    ensures
        ({
            let after = button_drawn(fb, i, selected);
            let y = 15 + 40 * i;
            &&& after.len() == 64000
            &&& 260 <= px < 295 && y <= py < y + 30 ==> pixel(after, px, py)
                == crate::vga::button_color(i)
            &&& 250 <= px < 305 && y + 10 <= py < y + 20 ==> pixel(after, px, py)
                == crate::vga::button_color(i)
            &&& selected && 260 <= px < 295 && (y - 4 <= py < y || y + 30 <= py < y + 34) ==> pixel(
                after,
                px,
                py,
            ) == crate::vga::palette::HIGHLIGHT
            &&& !(246 <= px < 309 && y - 4 <= py < y + 34) ==> pixel(after, px, py) == pixel(
                fb,
                px,
                py,
            )
            &&& !selected && !(250 <= px < 305 && y <= py < y + 30) ==> pixel(after, px, py)
                == pixel(fb, px, py)
        }),
{
    let y = 15 + 40 * i;
    let under = rounded_filled(
        fb,
        246,
        11 + 40 * i,
        63,
        38,
        14,
        Corners::each(true),
        crate::vga::palette::HIGHLIGHT,
    );
    rounded_rectangle_fills_its_inside(
        fb,
        246,
        11 + 40 * i,
        63,
        38,
        14,
        Corners::each(true),
        crate::vga::palette::HIGHLIGHT,
        px,
        py,
    );
    let from = if selected {
        under
    } else {
        fb
    };
    rounded_rectangle_fills_its_inside(
        from,
        250,
        y,
        55,
        30,
        10,
        Corners::each(true),
        crate::vga::button_color(i),
        px,
        py,
    );
}

proof fn buttons_pixels(fb: Seq<u8>, n: nat, selected: Option<usize>, i: int, px: int, py: int)
    requires
        fb.len() == 64000,
        n <= 4,
        0 <= px < 320,
        0 <= py < 200,
    ensures
        ({
            let after = buttons_drawn(fb, n, selected);
            let y = 15 + 40 * i;
            &&& after.len() == 64000
            &&& 0 <= i < n && 260 <= px < 295 && y <= py < y + 30 ==> pixel(after, px, py)
                == crate::vga::button_color(i)
            &&& 0 <= i < n && selected == Some(i as usize) && 260 <= px < 295 && (y - 4 <= py < y || y
                + 30 <= py < y + 34) ==> pixel(after, px, py) == crate::vga::palette::HIGHLIGHT
            &&& 0 <= i < n && selected != Some(i as usize) && 260 <= px < 295 && (y - 4 <= py < y || y
                + 30 <= py < y + 34) ==> pixel(after, px, py) == pixel(fb, px, py)
            &&& px < 246 || px >= 309 ==> pixel(after, px, py) == pixel(fb, px, py)
        }),
    decreases n,
{
    if n > 0 {
        let before = buttons_drawn(fb, (n - 1) as nat, selected);
        buttons_pixels(fb, (n - 1) as nat, selected, i, px, py);
        button_pixels(before, n - 1, selected == Some((n - 1) as usize), px, py);
        if i == n - 1 {
            untouched_by_the_others(fb, (n - 1) as nat, selected, i, px, py);
        }
    }
}

/// The place of a button is not touched by those above it.
proof fn untouched_by_the_others(
    fb: Seq<u8>,
    n: nat,
    selected: Option<usize>,
    i: int,
    px: int,
    py: int,
)
    requires
        fb.len() == 64000,
        n <= i < 4,
        0 <= px < 320,
        0 <= py < 200,
    ensures
        buttons_drawn(fb, n, selected).len() == 64000,
        py >= 11 + 40 * i ==> pixel(buttons_drawn(fb, n, selected), px, py) == pixel(fb, px, py),
    decreases n,
{
    if n > 0 {
        untouched_by_the_others(fb, (n - 1) as nat, selected, i, px, py);
        let before = buttons_drawn(fb, (n - 1) as nat, selected);
        button_pixels(before, n - 1, selected == Some((n - 1) as usize), px, py);
    }
}

/// The panel: four buttons along the right edge, each in its color, the
/// selected one and no other in a frame; the bar along the top and the one
/// that hangs from it; and black everywhere else.
pub proof fn panel_shows_its_parts(selected: Option<usize>, i: int, px: int, py: int)
    requires
        0 <= i < 4,
        0 <= px < 320,
        0 <= py < 200,
    ensures
        ({
            let p = pixel(panel(selected), px, py);
            let y = 15 + 40 * i;
            &&& panel(selected).len() == 64000
            &&& 260 <= px < 295 && y <= py < y + 30 ==> p == (if i == 0 {
                3u8
            } else if i == 1 {
                4u8
            } else if i == 2 {
                5u8
            } else {
                1u8
            })
            &&& 260 <= px < 295 && (y - 4 <= py < y || y + 30 <= py < y + 34) ==> p == (
            if selected == Some(i as usize) {
                6u8
            } else {
                0u8
            })
            &&& 14 <= px < 200 && 15 <= py < 43 ==> p == 1
            &&& 0 <= px < 40 && 43 <= py < 149 ==> p == 2
            &&& 0 <= px < 200 && py < 15 ==> p == 0
            &&& 40 <= px < 246 && 43 <= py ==> p == 0
            &&& 200 <= px < 246 ==> p == 0
            &&& px < 246 && 163 <= py ==> p == 0
        }),
{
    let black = Seq::new(64000, |k: int| 0u8);
    let over = Corners { top_left: true, top_right: false, bottom_left: true, bottom_right: false };
    let hung = Corners { top_left: false, top_right: false, bottom_left: true, bottom_right: true };
    assert(black =~= Seq::new(crate::vga::PIXELS as nat, |k: int| crate::vga::palette::BLACK));
    let bar = rounded_filled(black, 0, 15, 200, 28, 14, over, 1);
    let both = rounded_filled(bar, 0, 43, 40, 120, 14, hung, 2);
    rounded_rectangle_fills_its_inside(black, 0, 15, 200, 28, 14, over, 1, px, py);
    rounded_rectangle_fills_its_inside(bar, 0, 43, 40, 120, 14, hung, 2, px, py);
    square_end(black, px, py);
    square_top(bar, px, py);
    assert(pixel(black, px, py) == 0) by {
        assert(0 <= py * 320 + px < 64000);
    }
    buttons_pixels(both, 4, selected, i, px, py);
}

/// The right end of the upper bar is square.
proof fn square_end(fb: Seq<u8>, px: int, py: int)
    requires
        fb.len() == 64000,
        0 <= px < 320,
        0 <= py < 200,
    ensures
        14 <= px < 200 && 15 <= py < 43 ==> pixel(
            rounded_filled(
                fb,
                0,
                15,
                200,
                28,
                14,
                (Corners { top_left: true, top_right: false, bottom_left: true, bottom_right: false }),
                1,
            ),
            px,
            py,
        ) == 1,
{
    let i = py * 320 + px;
    assert(i % 320 == px && i / 320 == py);
}

/// The top of the hanging bar is square.
proof fn square_top(fb: Seq<u8>, px: int, py: int)
    requires
        fb.len() == 64000,
        0 <= px < 320,
        0 <= py < 200,
    ensures
        0 <= px < 40 && 43 <= py < 149 ==> pixel(
            rounded_filled(
                fb,
                0,
                43,
                40,
                120,
                14,
                (Corners { top_left: false, top_right: false, bottom_left: true, bottom_right: true }),
                2,
            ),
            px,
            py,
        ) == 2,
{
    let i = py * 320 + px;
    assert(i % 320 == px && i / 320 == py);
}

/// Whether `six` is `eight` of 255 in parts of 63, rounded.
pub open spec fn in_six_bits(six: u8, eight: int) -> bool {
    -255 <= 2 * (255 * six - 63 * eight) <= 255
}

/// Whether entry `k` sets color number `k` to that red, green and blue.
pub open spec fn sets_color(k: int, red: int, green: int, blue: int) -> bool {
    let e = palette::table()[k];
    e.0 == k && in_six_bits(e.1, red) && in_six_bits(e.2, green) && in_six_bits(e.3, blue)
}

/// The seven colors: black, orange, purple, red, blue, tan and white.
pub proof fn panel_has_its_colors()
    ensures
        palette::table().len() == 7,
        sets_color(0, 0x00, 0x00, 0x00),
        sets_color(1, 0xff, 0x99, 0x00),
        sets_color(2, 0x99, 0x66, 0xcc),
        sets_color(3, 0xcc, 0x66, 0x66),
        sets_color(4, 0x66, 0x99, 0xcc),
        sets_color(5, 0xff, 0xcc, 0x99),
        sets_color(6, 0xff, 0xff, 0xff),
{
}

} // verus!
