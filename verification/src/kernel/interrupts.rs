//! The interrupt flag.
//!
//! The kernel is single-core with no threads, so the only thing that can
//! interrupt a sequence of instructions is an interrupt. Disabling them is
//! therefore a complete critical section.

use vstd::prelude::*;

verus! {

/// What to do around a critical section.
#[derive(Clone, Copy, Debug, PartialEq, Eq, Structural)]
pub struct CriticalSection {
    /// Disable interrupts before it.
    pub disable: bool,
    /// Enable them after it.
    pub restore: bool,
}

/// The interrupt flag: bit 9 of the flags register.
pub open spec fn enabled(flags: u64) -> bool {
    flags / 0x200 % 2 == 1
}

/// What to do around a critical section entered with these flags.
///
/// The *previous* state is restored: a critical section inside an interrupt
/// handler, where interrupts are already off, must not turn them on.
pub fn critical_section(flags: u64) -> (section: CriticalSection)
    ensures
        section.disable == enabled(flags),
        section.restore == enabled(flags),
{
    assert(flags & 0x200 != 0 <==> flags / 0x200 % 2 == 1) by (bit_vector);
    let was_enabled: bool = flags & 0x200 != 0;
    CriticalSection { disable: was_enabled, restore: was_enabled }
}

/// Whether interrupts are on after a step that may turn them off or on.
pub open spec fn flag_after(before: bool, disable: bool, enable: bool) -> bool {
    if enable {
        true
    } else if disable {
        false
    } else {
        before
    }
}

/// Interrupts are off inside a critical section, and after it they are as
/// they were before.
pub proof fn a_critical_section_restores_the_flag(flags: u64, section: CriticalSection)
    requires
        section.disable == enabled(flags),
        section.restore == enabled(flags),
    ensures
        !flag_after(enabled(flags), section.disable, false),
        flag_after(
            flag_after(enabled(flags), section.disable, false),
            false,
            section.restore,
        ) == enabled(flags),
{
}

/// Interrupts are on exactly if bit 9 of the flags is set, whatever the
/// other bits are.
pub proof fn the_flag_is_bit_nine(flags: u64, other: u64)
    ensures
        enabled(flags) <==> flags & 0x200 != 0,
        flags & 0x200 == other & 0x200 ==> (enabled(flags) <==> enabled(other)),
{
    assert(flags & 0x200 != 0 <==> flags / 0x200 % 2 == 1) by (bit_vector);
    assert(other & 0x200 != 0 <==> other / 0x200 % 2 == 1) by (bit_vector);
}

} // verus!
