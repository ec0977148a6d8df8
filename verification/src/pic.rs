//! The two cascaded interrupt controllers.
use vstd::prelude::*;

verus! {

/// A byte to write to an I/O port.
#[derive(Clone, Copy, Debug, PartialEq, Eq, Structural)]
pub struct PortWrite {
    pub port: u16,
    pub value: u8,
}

pub const MASTER_CMD: u16 = 0x20;
pub const MASTER_DATA: u16 = 0x21;
pub const SLAVE_CMD: u16 = 0xa0;
pub const SLAVE_DATA: u16 = 0xa1;

/// Interrupt vector of the first request line; the others follow.
pub const IRQ0_VECTOR: u8 = 32;
const IRQ8_VECTOR: u8 = 40;

/// The line of the master that the slave is wired to.
const CASCADE_IRQ: u8 = 2;

/// Edge triggered, cascaded, with a fourth initialization word.
const ICW1_INIT_ICW4: u8 = 0x11;
/// 8086 mode, normal end of interrupt.
const ICW4_8086: u8 = 0x01;

const EOI: u8 = 0x20;

/// The writes that initialize both controllers: vectors from
/// `IRQ0_VECTOR` on, the slave on its line of the master, and every line
/// masked but the timer's and the keyboard's.
pub fn init() -> (writes: Vec<PortWrite>)
    ensures
        writes@ == seq![
            PortWrite { port: MASTER_CMD, value: 0x11 },
            PortWrite { port: SLAVE_CMD, value: 0x11 },
            PortWrite { port: MASTER_DATA, value: IRQ0_VECTOR },
            PortWrite { port: SLAVE_DATA, value: (IRQ0_VECTOR + 8) as u8 },
            PortWrite { port: MASTER_DATA, value: 4 },
            PortWrite { port: SLAVE_DATA, value: 2 },
            PortWrite { port: MASTER_DATA, value: 1 },
            PortWrite { port: SLAVE_DATA, value: 1 },
            PortWrite { port: MASTER_DATA, value: 0xfc },
            PortWrite { port: SLAVE_DATA, value: 0xff },
        ],
{
    let mut writes: Vec<PortWrite> = Vec::new();
    writes.push(PortWrite { port: MASTER_CMD, value: ICW1_INIT_ICW4 });
    writes.push(PortWrite { port: SLAVE_CMD, value: ICW1_INIT_ICW4 });
    writes.push(PortWrite { port: MASTER_DATA, value: IRQ0_VECTOR });
    writes.push(PortWrite { port: SLAVE_DATA, value: IRQ8_VECTOR });
    writes.push(PortWrite { port: MASTER_DATA, value: 1 << CASCADE_IRQ });
    writes.push(PortWrite { port: SLAVE_DATA, value: CASCADE_IRQ });
    writes.push(PortWrite { port: MASTER_DATA, value: ICW4_8086 });
    writes.push(PortWrite { port: SLAVE_DATA, value: ICW4_8086 });
    writes.push(PortWrite { port: MASTER_DATA, value: !0b0000_0011u8 });
    writes.push(PortWrite { port: SLAVE_DATA, value: 0xff });
    proof {
        assert(1u8 << 2u8 == 4) by (bit_vector);
        assert(!0b0000_0011u8 == 0xfc) by (bit_vector);
    }
    writes
}

/// The writes that acknowledge an interrupt on line `irq`: to the slave
/// first if the line is one of its own, and always to the master.
pub fn end_of_interrupt(irq: u8) -> (writes: Vec<PortWrite>)
    ensures
        writes@ == (if irq >= 8 {
            seq![
                PortWrite { port: SLAVE_CMD, value: 0x20 },
                PortWrite { port: MASTER_CMD, value: 0x20 },
            ]
        } else {
            seq![PortWrite { port: MASTER_CMD, value: 0x20 }]
        }),
{
    let mut writes: Vec<PortWrite> = Vec::new();
    if irq >= 8 {
        writes.push(PortWrite { port: SLAVE_CMD, value: EOI });
    }
    writes.push(PortWrite { port: MASTER_CMD, value: EOI });
    writes
}

} // verus!
