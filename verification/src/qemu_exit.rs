//! Leaving the virtual machine with an exit code.
//!
//! The `isa-debug-exit` device shuts QEMU down with process exit code
//! `(value << 1) | 1` when `value` is written to its port.

use vstd::prelude::*;

verus! {

/// The port of the `isa-debug-exit` device.
pub const ISA_DEBUG_EXIT_PORT: u16 = 0xf4;

/// What the guest reports.
///
/// A written value of 0 would map to process exit code 1, which QEMU's own
/// generic errors use too, so no code writes 0.
#[derive(Clone, Copy, Debug, PartialEq, Eq, Structural)]
pub enum QemuExitCode {
    Success,
    Failed,
}

impl QemuExitCode {
    /// The value written to the port.
    pub open spec fn spec_value(self) -> u32 {
        match self {
            QemuExitCode::Success => 0x10,
            QemuExitCode::Failed => 0x11,
        }
    }

    /// The value written to the port.
    pub fn value(self) -> (value: u32)
        ensures
            value == self.spec_value(),
    {
        match self {
            QemuExitCode::Success => 0x10,
            QemuExitCode::Failed => 0x11,
        }
    }
}

/// The exit code QEMU ends with when `value` is written.
pub open spec fn process_exit_code(value: u32) -> int {
    2 * value + 1
}

/// The two reports end in the two codes that the host looks for, neither is
/// QEMU's own error code, and they differ.
pub proof fn exit_codes_tell_the_outcomes_apart(code: QemuExitCode)
    ensures
        process_exit_code(QemuExitCode::Success.spec_value()) == 33,
        process_exit_code(QemuExitCode::Failed.spec_value()) == 35,
        process_exit_code(code.spec_value()) != 1,
{
}

/// The two reports write different values, neither of them zero, to the port
/// that QEMU is told to watch.
pub proof fn the_reports_write_different_values(one: QemuExitCode, two: QemuExitCode)
    ensures
        one != two ==> one.spec_value() != two.spec_value(),
        one.spec_value() != 0,
        ISA_DEBUG_EXIT_PORT == 0xf4,
        process_exit_code(one.spec_value()) == 2 * one.spec_value() + 1,
{
}

} // verus!
