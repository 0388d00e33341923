//! What goes over the x86 I/O ports.
//!
//! The drivers of the legacy devices decide here what to write where; only
//! the kernel's own `out` instruction writes it.

use vstd::prelude::*;

verus! {

/// One byte to write to one port.
#[derive(Clone, Copy, Debug, PartialEq, Eq, Structural)]
pub struct PortWrite {
    pub port: u16,
    pub value: u8,
}

/// A write to the POST diagnostic port, which nothing uses: it wastes a
/// moment, to give a slow legacy device time to latch the previous write.
pub open spec fn pause() -> PortWrite {
    PortWrite { port: 0x80, value: 0 }
}

/// The write that wastes a moment.
pub fn io_wait() -> (write: PortWrite)
    ensures
        write == pause(),
{
    PortWrite { port: 0x80, value: 0 }
}

/// A write of `value` to `port`.
pub open spec fn sends(port: u16, value: u8) -> PortWrite {
    PortWrite { port, value }
}

/// A write is to its own port and of its own value, and a pause goes to the
/// diagnostic port.
pub proof fn a_write_names_its_port_and_value(port: u16, value: u8)
    ensures
        sends(port, value).port == port,
        sends(port, value).value == value,
        pause().port == 0x80,
        pause().value == 0,
{
}

} // verus!
