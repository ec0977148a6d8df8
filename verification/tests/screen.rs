use neumann::console::{
    draw_cell, redraw, reset, Grid, COLS, ORIGIN_X, ORIGIN_Y, ROWS,
};
use neumann::keyboard::translate;
use neumann::pic::PortWrite;
use neumann::vga::palette::{
    entries, BLACK, BLUE, HIGHLIGHT, ORANGE, PURPLE, RED_ALERT, TAN,
};
use neumann::vga::{
    draw_demo_panel, fill_rect, fill_rounded_rect, init_palette, put_pixel, select_button,
    set_palette_color, Corners, HEIGHT, PIXELS, WIDTH,
};
use neumann::{pic, pit};

/// A font whose glyph for `c` has `c` in its first row.
fn font() -> [[u8; 8]; 95] {
    let mut f = [[0u8; 8]; 95];
    for (i, g) in f.iter_mut().enumerate() {
        g[0] = i as u8;
    }
    f
}

fn row(grid: &Grid, r: usize) -> Vec<u8> {
    (0..COLS).map(|c| grid.cell(r, c)).collect()
}

fn at(fb: &[u8], x: usize, y: usize) -> u8 {
    fb[y * WIDTH + x]
}

#[test]
fn terminal_behaviors() {
    let font = font();
    let mut fb = vec![0u8; PIXELS];
    let mut grid = Grid::new();
    neumann::console::write(&mut fb, &mut grid, &font, b"abx\x08c\n");
    neumann::console::write(&mut fb, &mut grid, &font, &[b'x'; COLS + 3]);
    assert_eq!(&row(&grid, 0)[..4], b"abc ");
    assert_eq!(row(&grid, 1), vec![b'x'; COLS]);
    assert_eq!(&row(&grid, 2)[..4], b"xxx ");
    neumann::console::write(&mut fb, &mut grid, &font, b"\x08\x08\x08\x08");
    assert_eq!(&row(&grid, 2)[..3], b"   ");
    assert_eq!(grid.cell(1, COLS - 1), b' ');
    assert_eq!(grid.cell(1, COLS - 2), b'x');
    reset(&mut fb, &mut grid, &font);
    for i in 0..ROWS + 2 {
        neumann::console::write(&mut fb, &mut grid, &font, &[b'a' + i as u8, b'\n']);
    }
    assert_eq!(grid.cell(0, 0), b'd');
    assert_eq!(grid.cell(ROWS - 2, 0), b'a' + (ROWS + 1) as u8);
    assert_eq!(grid.cell(ROWS - 1, 0), b' ');
    reset(&mut fb, &mut grid, &font);
    assert_eq!(grid.snapshot(), vec![b' '; COLS * ROWS]);
    assert_eq!(grid.cursor(), (0, 0));
}

#[test]
fn control_characters() {
    let font = font();
    let mut fb = vec![0u8; PIXELS];
    let mut grid = Grid::new();
    neumann::console::write(&mut fb, &mut grid, &font, b"\x08");
    assert_eq!(grid.cursor(), (0, 0));
    neumann::console::write(&mut fb, &mut grid, &font, b"ab\rX\x01");
    assert_eq!(&row(&grid, 0)[..3], b"X? ");
    assert_eq!(grid.cursor(), (0, 2));
}

#[test]
fn the_cursor_waits_at_the_edge() {
    let font = font();
    let mut fb = vec![0u8; PIXELS];
    let mut grid = Grid::new();
    neumann::console::write(&mut fb, &mut grid, &font, &[b'y'; COLS]);
    assert_eq!(grid.cursor(), (0, COLS));
    neumann::console::write(&mut fb, &mut grid, &font, b"\n");
    assert_eq!(grid.cursor(), (1, 0));
}

#[test]
fn a_scroll_happens_once_when_needed() {
    let mut grid = Grid::new();
    for _ in 0..ROWS - 1 {
        assert!(!grid.newline());
    }
    assert!(grid.newline());
}

#[test]
fn cells_are_drawn_where_they_belong() {
    let font = font();
    let mut fb = vec![9u8; PIXELS];
    draw_cell(&mut fb, &font, 2, 3, b'%');
    let (x, y) = (ORIGIN_X + 24, ORIGIN_Y + 16);
    // '%' is glyph 5: bits 0 and 2 of the first row.
    assert_eq!(at(&fb, x, y), TAN);
    assert_eq!(at(&fb, x + 1, y), BLACK);
    assert_eq!(at(&fb, x + 2, y), TAN);
    assert_eq!(at(&fb, x + 7, y + 7), BLACK);
    assert_eq!(at(&fb, x + 8, y), 9);
    assert_eq!(at(&fb, x - 1, y), 9);
    assert_eq!(at(&fb, x, y + 8), 9);
}

#[test]
fn writes_show_on_the_screen() {
    let font = font();
    let mut fb = vec![0u8; PIXELS];
    let mut grid = Grid::new();
    redraw(&mut fb, &grid, &font);
    let mut text: Vec<u8> = vec![];
    for i in 0..ROWS + 3 {
        text.extend_from_slice(&[b'!' + i as u8, b'\n', b'z', 0x08]);
    }
    neumann::console::write(&mut fb, &mut grid, &font, &text);
    let mut again = fb.clone();
    redraw(&mut again, &grid, &font);
    assert_eq!(fb, again);
}

#[test]
fn pixels_off_the_screen_are_dropped() {
    let mut fb = vec![0u8; PIXELS];
    put_pixel(&mut fb, WIDTH, 0, 1);
    put_pixel(&mut fb, 0, HEIGHT, 1);
    assert!(fb.iter().all(|&p| p == 0));
    put_pixel(&mut fb, WIDTH - 1, HEIGHT - 1, 1);
    assert_eq!(fb[PIXELS - 1], 1);
    fill_rect(&mut fb, 318, 198, 10, 10, 2);
    assert_eq!(fb.iter().filter(|&&p| p == 2).count(), 4);
}

#[test]
fn corners_are_round() {
    let mut fb = vec![0u8; PIXELS];
    fill_rounded_rect(&mut fb, 10, 10, 20, 20, 5, Corners::all(), 3);
    assert_eq!(at(&fb, 10, 10), 0);
    assert_eq!(at(&fb, 15, 10), 3);
    assert_eq!(at(&fb, 12, 12), 3);
    assert_eq!(at(&fb, 11, 11), 0);
    assert_eq!(at(&fb, 20, 20), 3);
    let mut square = vec![0u8; PIXELS];
    fill_rounded_rect(&mut square, 10, 10, 20, 20, 5, Corners::none(), 3);
    let mut plain = vec![0u8; PIXELS];
    fill_rect(&mut plain, 10, 10, 20, 20, 3);
    assert_eq!(square, plain);
}

#[test]
fn the_panel_and_its_buttons() {
    let font = font();
    let mut fb = vec![0u8; PIXELS];
    let grid = Grid::new();
    draw_demo_panel(&mut fb, None, &grid, &font);
    assert_eq!(at(&fb, 100, 30), ORANGE);
    assert_eq!(at(&fb, 0, 15), BLACK);
    assert_eq!(at(&fb, 20, 100), PURPLE);
    assert_eq!(at(&fb, 270, 30), RED_ALERT);
    assert_eq!(at(&fb, 270, 70), BLUE);
    assert_eq!(at(&fb, 270, 110), TAN);
    assert_eq!(at(&fb, 270, 150), ORANGE);
    assert_eq!(at(&fb, 270, 12), BLACK);
    let mut selected = None;
    select_button(&mut fb, &mut selected, &grid, &font, 0);
    assert_eq!(selected, Some(0));
    assert_eq!(at(&fb, 270, 12), HIGHLIGHT);
    assert_eq!(at(&fb, 270, 30), RED_ALERT);
    let before = fb.clone();
    select_button(&mut fb, &mut selected, &grid, &font, 4);
    assert_eq!(selected, Some(0));
    assert_eq!(fb, before);
}

#[test]
fn repainting_the_panel_keeps_the_text() {
    let font = font();
    let mut fb = vec![0u8; PIXELS];
    let mut grid = Grid::new();
    let mut selected = None;
    neumann::console::write(&mut fb, &mut grid, &font, b"!");
    select_button(&mut fb, &mut selected, &grid, &font, 1);
    assert_eq!(at(&fb, ORIGIN_X, ORIGIN_Y), TAN);
}

#[test]
fn palette_programming() {
    let w = |port, value| PortWrite { port, value };
    assert_eq!(
        set_palette_color(1, 63, 38, 0),
        vec![w(0x3c8, 1), w(0x3c9, 63), w(0x3c9, 38), w(0x3c9, 0)]
    );
    let all = init_palette();
    assert_eq!(all.len(), 28);
    assert_eq!(all[24], w(0x3c8, HIGHLIGHT));
    assert_eq!(entries()[5], (TAN, 63, 50, 38));
}

#[test]
fn keys() {
    assert_eq!(translate(0x02), Some(b'1'));
    assert_eq!(translate(0x1e), Some(b'a'));
    assert_eq!(translate(0x1c), Some(b'\n'));
    assert_eq!(translate(0x2b), Some(b'\\'));
    assert_eq!(translate(0x28), Some(b'\''));
    assert_eq!(translate(0x39), Some(b' '));
    assert_eq!(translate(0x35), Some(b'/'));
    assert_eq!(translate(0x00), None);
    assert_eq!(translate(0x1d), None);
    assert_eq!(translate(0x3a), None);
    assert_eq!(translate(0x9e), None);
}

#[test]
fn interrupt_controllers() {
    let w = |port, value| PortWrite { port, value };
    assert_eq!(pic::end_of_interrupt(12), vec![w(0xa0, 0x20), w(0x20, 0x20)]);
    assert_eq!(pic::end_of_interrupt(7), vec![w(0x20, 0x20)]);
    let all = pic::init();
    assert_eq!(all[2], w(0x21, 32));
    assert_eq!(all[3], w(0xa1, 40));
    assert_eq!(all[8], w(0x21, 0xfc));
}

#[test]
fn interval_timer() {
    assert_eq!(pit::HZ, 60);
    assert!(!pit::init().is_empty());
}
