//! What a boot's exit code means.

use vstd::prelude::*;

verus! {

/// The process exit code of a guest that reported success.
pub const EXPECTED_EXIT_CODE: i32 = 33;

/// The process exit code of a guest that reported a failure.
pub const FAILURE_EXIT_CODE: i32 = 35;

/// What a normal boot came to.
#[derive(Clone, Copy, Debug, PartialEq, Eq, Structural)]
pub enum RunVerdict {
    /// The guest reported success. The run passes if the screen has text.
    CheckScreen,
    /// The guest reported an internal failure.
    InternalFailure,
    /// Some other exit code.
    Unexpected(i32),
    /// The virtual machine was ended by a signal.
    Signal,
}

/// What a normal boot came to, by its exit code; `None` stands for a signal.
pub fn judge_run(observed: Option<i32>) -> (verdict: RunVerdict)
    ensures
        verdict == (match observed {
            None => RunVerdict::Signal,
            Some(code) => if code == EXPECTED_EXIT_CODE {
                RunVerdict::CheckScreen
            } else if code == FAILURE_EXIT_CODE {
                RunVerdict::InternalFailure
            } else {
                RunVerdict::Unexpected(code)
            },
        }),
{
    match observed {
        None => RunVerdict::Signal,
        Some(code) => {
            if code == EXPECTED_EXIT_CODE {
                RunVerdict::CheckScreen
            } else if code == FAILURE_EXIT_CODE {
                RunVerdict::InternalFailure
            } else {
                RunVerdict::Unexpected(code)
            }
        },
    }
}

/// What the boot of a corrupted image came to.
#[derive(Clone, Copy, Debug, PartialEq, Eq, Structural)]
pub enum TestVerdict {
    /// The bootloader rejected the image instead of jumping into it.
    Rejected,
    /// A success code from a corrupted image: the validation did not run.
    NotValidated,
    /// Some other exit code.
    Unexpected(i32),
    /// The virtual machine was ended by a signal.
    Signal,
    /// The boot itself failed.
    NotBooted,
    /// The original image could not be put back.
    NotRestored,
}

/// What the boot of a corrupted image came to. `observed` is its exit code,
/// `None` for a signal, or an error if the boot itself failed.
///
/// The original image is put back before anything is interpreted, so a
/// failure to do that is what is reported, whatever the boot came to.
pub fn judge_test(restored: bool, observed: Result<Option<i32>, ()>) -> (verdict: TestVerdict)
    ensures
        verdict == (if !restored {
            TestVerdict::NotRestored
        } else {
            match observed {
                Err(()) => TestVerdict::NotBooted,
                Ok(None) => TestVerdict::Signal,
                Ok(Some(code)) => if code == FAILURE_EXIT_CODE {
                    TestVerdict::Rejected
                } else if code == EXPECTED_EXIT_CODE {
                    TestVerdict::NotValidated
                } else {
                    TestVerdict::Unexpected(code)
                },
            }
        }),
{
    if !restored {
        return TestVerdict::NotRestored;
    }
    match observed {
        Err(_) => TestVerdict::NotBooted,
        Ok(None) => TestVerdict::Signal,
        Ok(Some(code)) => {
            if code == FAILURE_EXIT_CODE {
                TestVerdict::Rejected
            } else if code == EXPECTED_EXIT_CODE {
                TestVerdict::NotValidated
            } else {
                TestVerdict::Unexpected(code)
            }
        },
    }
}

/// The codes looked for are those that the guest's two reports end in.
pub proof fn the_codes_are_the_guests()
    ensures
        EXPECTED_EXIT_CODE == crate::qemu_exit::process_exit_code(
            crate::qemu_exit::QemuExitCode::Success.spec_value(),
        ),
        FAILURE_EXIT_CODE == crate::qemu_exit::process_exit_code(
            crate::qemu_exit::QemuExitCode::Failed.spec_value(),
        ),
{
}

} // verus!
