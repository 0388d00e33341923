//! The pair of 8259 programmable interrupt controllers.
//!
//! The two are cascaded: the slave's output feeds the master's IRQ2 line,
//! giving 15 usable IRQs. Both power up mapped to interrupt vectors 0-15,
//! which in long mode collide with the CPU's own exception vectors, so
//! remapping them above 31 is not optional.

use crate::kernel::port::{io_wait, pause, sends, PortWrite};
use vstd::prelude::*;

verus! {

const PIC1_COMMAND: u16 = 0x20;

const PIC1_DATA: u16 = 0x21;

const PIC2_COMMAND: u16 = 0xA0;

const PIC2_DATA: u16 = 0xA1;

/// Begin initialisation, and promise a fourth command word later.
const ICW1: u8 = 0x11;

/// 8086/88 mode (as opposed to the original 8080 mode).
const ICW4_8086: u8 = 0x01;

/// Non-specific end of interrupt.
const EOI: u8 = 0x20;

/// Where the master's eight IRQs land: the first vector after the 32
/// architecturally reserved exception vectors.
pub const PIC1_OFFSET: u8 = 32;

/// Where the slave's eight IRQs land.
pub const PIC2_OFFSET: u8 = 40;

/// IRQ0, the interval timer.
pub const TIMER_VECTOR: u8 = 32;

/// IRQ1, the PS/2 keyboard.
pub const KEYBOARD_VECTOR: u8 = 33;

/// The last vector of the remapped range.
pub const LAST_VECTOR: u8 = 47;

/// A set bit masks that IRQ: all but the timer and the keyboard.
pub const PIC1_MASK: u8 = 0b1111_1100;

/// Everything behind the slave is masked.
pub const PIC2_MASK: u8 = 0b1111_1111;

/// The writes that remap both controllers and mask everything except the
/// timer and the keyboard, in order.
pub open spec fn remap_writes() -> Seq<PortWrite> {
    seq![
        sends(0x20, 0x11),
        pause(),
        sends(0xA0, 0x11),
        pause(),
        sends(0x21, PIC1_OFFSET),
        pause(),
        sends(0xA1, PIC2_OFFSET),
        pause(),
        sends(0x21, 4),
        pause(),
        sends(0xA1, 2),
        pause(),
        sends(0x21, 1),
        pause(),
        sends(0xA1, 1),
        pause(),
        sends(0x21, PIC1_MASK),
        sends(0xA1, PIC2_MASK),
    ]
}

/// Remap both controllers and mask everything except the timer and the
/// keyboard: the writes to make, in order, once, with interrupts disabled.
pub fn init() -> (writes: [PortWrite; 18])
    ensures
        writes@ == remap_writes(),
{
    let writes: [PortWrite; 18] = [
        // Start the initialisation sequence on both chips.
        PortWrite { port: PIC1_COMMAND, value: ICW1 },
        io_wait(),
        PortWrite { port: PIC2_COMMAND, value: ICW1 },
        io_wait(),
        // The vector offset each chip's IRQs map to.
        PortWrite { port: PIC1_DATA, value: PIC1_OFFSET },
        io_wait(),
        PortWrite { port: PIC2_DATA, value: PIC2_OFFSET },
        io_wait(),
        // Wire up the cascade. The master is told there is a slave on IRQ2
        // (bit 2); the slave is told its own cascade identity is 2.
        PortWrite { port: PIC1_DATA, value: 4 },
        io_wait(),
        PortWrite { port: PIC2_DATA, value: 2 },
        io_wait(),
        PortWrite { port: PIC1_DATA, value: ICW4_8086 },
        io_wait(),
        PortWrite { port: PIC2_DATA, value: ICW4_8086 },
        io_wait(),
        // The interrupt masks. Bit 2 is the master's cascade line: as long
        // as it stays masked, nothing behind the slave reaches the CPU.
        PortWrite { port: PIC1_DATA, value: PIC1_MASK },
        PortWrite { port: PIC2_DATA, value: PIC2_MASK },
    ];
    assert(writes@ =~= remap_writes());
    writes
}

/// Acknowledge the interrupt at `vector`, so that the next one is delivered:
/// the write to the slave, if there is one to make first, and the write to
/// the master.
///
/// An IRQ from the slave was relayed through the master, so both chips need
/// acknowledging, the slave first.
pub fn end_of_interrupt(vector: u8) -> (writes: (Option<PortWrite>, PortWrite))
    ensures
        writes.0 == (if vector >= PIC2_OFFSET {
            Some(sends(0xA0, 0x20))
        } else {
            None
        }),
        writes.1 == sends(0x20, 0x20),
{
    let slave = if vector >= PIC2_OFFSET {
        Some(PortWrite { port: PIC2_COMMAND, value: EOI })
    } else {
        None
    };
    (slave, PortWrite { port: PIC1_COMMAND, value: EOI })
}

/// IRQ `line` of the pair is masked once the controllers are set up.
pub open spec fn masked(line: u8) -> bool {
    if line < 8 {
        PIC1_MASK & (1u8 << line) != 0
    } else {
        PIC2_MASK & (1u8 << ((line - 8) as u8)) != 0
    }
}

/// The timer and the keyboard are the only lines that can interrupt, and
/// every line lands on a vector of its own above the CPU's exceptions.
pub proof fn only_timer_and_keyboard_are_unmasked(line: u8)
    requires
        line < 16,
    ensures
        masked(line) <==> line != 0 && line != 1,
        PIC1_OFFSET + line >= 32,
        PIC1_OFFSET + line <= LAST_VECTOR,
        TIMER_VECTOR == PIC1_OFFSET + 0,
        KEYBOARD_VECTOR == PIC1_OFFSET + 1,
        PIC2_OFFSET == PIC1_OFFSET + 8,
{
    assert(line < 8 ==> (0b1111_1100u8 & (1u8 << line) != 0 <==> line != 0 && line != 1))
        by (bit_vector);
    if line >= 8 {
        let high = (line - 8) as u8;
        assert(high < 8 ==> 0b1111_1111u8 & (1u8 << high) != 0) by (bit_vector);
    }
}

/// Behind the pauses, each controller gets its four command words and its
/// mask, in order: the start, the vector its first line lands on, the wiring
/// of the two, and the mode.
pub proof fn each_controller_gets_its_command_words(i: int)
    requires
        0 <= i < 8,
    ensures
        remap_writes().len() == 18,
        remap_writes()[2 * i + 1] == (PortWrite { port: 0x80, value: 0 }),
        remap_writes()[0] == (PortWrite { port: 0x20, value: 0x11 }),
        remap_writes()[2] == (PortWrite { port: 0xa0, value: 0x11 }),
        remap_writes()[4] == (PortWrite { port: 0x21, value: 32 }),
        remap_writes()[6] == (PortWrite { port: 0xa1, value: 40 }),
        remap_writes()[8] == (PortWrite { port: 0x21, value: 4 }),
        remap_writes()[10] == (PortWrite { port: 0xa1, value: 2 }),
        remap_writes()[12] == (PortWrite { port: 0x21, value: 1 }),
        remap_writes()[14] == (PortWrite { port: 0xa1, value: 1 }),
        remap_writes()[16] == (PortWrite { port: 0x21, value: 0xfc }),
        remap_writes()[17] == (PortWrite { port: 0xa1, value: 0xff }),
{
}

} // verus!
