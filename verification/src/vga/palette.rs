//! The panel's colors. The converter takes 6 bits a channel, so each
//! component is `round(c * 63 / 255)` of an 8-bit one.
use vstd::prelude::*;

verus! {

pub const BLACK: u8 = 0;
pub const ORANGE: u8 = 1;
pub const PURPLE: u8 = 2;
pub const RED_ALERT: u8 = 3;
pub const BLUE: u8 = 4;
pub const TAN: u8 = 5;
/// The frame of the selected button.
pub const HIGHLIGHT: u8 = 6;

/// Index, red, green and blue of every color.
pub open spec fn table() -> Seq<(u8, u8, u8, u8)> {
    seq![
        (BLACK, 0u8, 0u8, 0u8),
        (ORANGE, 63u8, 38u8, 0u8),
        (PURPLE, 38u8, 25u8, 50u8),
        (RED_ALERT, 50u8, 25u8, 25u8),
        (BLUE, 25u8, 38u8, 50u8),
        (TAN, 63u8, 50u8, 38u8),
        (HIGHLIGHT, 63u8, 63u8, 63u8),
    ]
}

/// Index, red, green and blue of every color.
pub fn entries() -> (colors: [(u8, u8, u8, u8); 7])
    ensures
        colors@ == table(),
{
    let colors: [(u8, u8, u8, u8); 7] = [
        (BLACK, 0, 0, 0),
        (ORANGE, 63, 38, 0),
        (PURPLE, 38, 25, 50),
        (RED_ALERT, 50, 25, 25),
        (BLUE, 25, 38, 50),
        (TAN, 63, 50, 38),
        (HIGHLIGHT, 63, 63, 63),
    ];
    assert(colors@ =~= table());
    colors
}

} // verus!
