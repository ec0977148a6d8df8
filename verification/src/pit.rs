//! The interval timer.
use vstd::prelude::*;

use crate::pic::PortWrite;

verus! {

const CHANNEL0: u16 = 0x40;
const MODE_COMMAND: u16 = 0x43;

/// Channel 0, access low-then-high byte, mode 3 (square wave), binary.
const SQUARE_WAVE: u8 = 0x36;

/// The timer's fixed input frequency.
pub const TIMER_FREQ: u32 = 1193182;

/// Ticks per second.
pub const HZ: u32 = 60;

/// The writes that make channel 0 fire `HZ` times a second: the mode, then
/// the divisor of the input frequency, low byte first.
pub fn init() -> (writes: Vec<PortWrite>)
    ensures
        writes@.len() == 3,
        writes@[0] == (PortWrite { port: 0x43, value: 0x36 }),
        writes@[1].port == 0x40,
        writes@[2].port == 0x40,
        writes@[1].value + 256 * writes@[2].value == TIMER_FREQ / HZ,
        // As near to sixty times a second as a whole divisor comes.
        60 * (writes@[1].value + 256 * writes@[2].value) <= 1193182,
        60 * (writes@[1].value + 256 * writes@[2].value + 1) > 1193182,
{
    let count: u16 = (TIMER_FREQ / HZ) as u16;
    assert(count == TIMER_FREQ / HZ);
    assert((count & 0xff) as u8 + 256 * ((count >> 8) as u8) == count) by (bit_vector);
    let mut writes: Vec<PortWrite> = Vec::new();
    writes.push(PortWrite { port: MODE_COMMAND, value: SQUARE_WAVE });
    writes.push(PortWrite { port: CHANNEL0, value: (count & 0xff) as u8 });
    writes.push(PortWrite { port: CHANNEL0, value: (count >> 8) as u8 });
    writes
}

} // verus!
