//! Typing into the guest, and capturing its screen, through QEMU's monitor.
//!
//! [`Injection`] decides what comes next; its caller sleeps, talks to the
//! monitor and the file system, and hands back whether that worked.
//!
//! The keystrokes have to arrive *after* the kernel has enabled interrupts,
//! and there is no signal for that other than time. Sending repeatedly is
//! simpler and more robust than trying to synchronise, and the kernel only
//! needs one to arrive.

use vstd::prelude::*;

verus! {

/// How often to try to reach the monitor.
pub const CONNECT_TRIES: u32 = 100;

/// How often to send a key: a backstop against a QEMU that never exits.
pub const KEY_SENDS: u32 = 40;

/// Why the screen was not captured.
#[derive(Clone, Copy, Debug, PartialEq, Eq, Structural)]
pub enum InjectionError {
    /// The monitor could not be reached.
    NoMonitor,
    /// An old capture could not be removed.
    OldCaptureStays,
    /// The capture could not be requested.
    NotRequested,
    /// The capture was not created.
    NotCreated,
}

/// Where the injection stands.
#[derive(Clone, Copy, Debug, PartialEq, Eq, Structural)]
pub enum Injection {
    /// Pause before the next try to connect, with this many left.
    BeforeConnect(u32),
    /// Try to connect, with this many tries left.
    Connecting(u32),
    /// Give the guest time to boot.
    Booting,
    /// Remove the old capture; a missing one counts as removed.
    Removing,
    /// Request the capture.
    Requesting,
    /// Give QEMU time to write it.
    Capturing,
    /// Look whether it is there.
    Checking,
    /// Pause before the next key, with this many left.
    BeforeKey(u32),
    /// Send a key, with this many left.
    Sending(u32),
    /// Over: QEMU is gone, or everything was sent.
    Done,
    Failed(InjectionError),
}

/// What to do next.
#[derive(Clone, Copy, Debug, PartialEq, Eq, Structural)]
pub enum InjectionAction {
    /// Sleep for this many milliseconds.
    Sleep(u64),
    /// Connect to the monitor.
    Connect,
    /// Remove the old capture.
    Remove,
    /// Ask the monitor for a screen dump.
    RequestDump,
    /// Look whether the capture is there.
    CheckDump,
    /// Ask the monitor to send the key `a`.
    SendKey,
    /// Nothing: the injection is over.
    Stop,
}

impl Injection {
    /// What the injection does next.
    pub open spec fn spec_action(self) -> InjectionAction {
        match self {
            Injection::BeforeConnect(_) => InjectionAction::Sleep(100),
            Injection::Connecting(_) => InjectionAction::Connect,
            Injection::Booting => InjectionAction::Sleep(4500),
            Injection::Removing => InjectionAction::Remove,
            Injection::Requesting => InjectionAction::RequestDump,
            Injection::Capturing => InjectionAction::Sleep(500),
            Injection::Checking => InjectionAction::CheckDump,
            Injection::BeforeKey(_) => InjectionAction::Sleep(500),
            Injection::Sending(_) => InjectionAction::SendKey,
            Injection::Done => InjectionAction::Stop,
            Injection::Failed(_) => InjectionAction::Stop,
        }
    }

    /// Where the injection stands once that worked, or did not.
    pub open spec fn spec_next(self, worked: bool) -> Injection {
        match self {
            Injection::BeforeConnect(left) => Injection::Connecting(left),
            Injection::Connecting(left) => if worked {
                Injection::Booting
            } else if left > 1 {
                Injection::BeforeConnect((left - 1) as u32)
            } else {
                Injection::Failed(InjectionError::NoMonitor)
            },
            Injection::Booting => Injection::Removing,
            Injection::Removing => if worked {
                Injection::Requesting
            } else {
                Injection::Failed(InjectionError::OldCaptureStays)
            },
            Injection::Requesting => if worked {
                Injection::Capturing
            } else {
                Injection::Failed(InjectionError::NotRequested)
            },
            Injection::Capturing => Injection::Checking,
            Injection::Checking => if worked {
                Injection::BeforeKey(KEY_SENDS)
            } else {
                Injection::Failed(InjectionError::NotCreated)
            },
            Injection::BeforeKey(left) => Injection::Sending(left),
            Injection::Sending(left) => if worked && left > 1 {
                Injection::BeforeKey((left - 1) as u32)
            } else {
                Injection::Done
            },
            Injection::Done => Injection::Done,
            Injection::Failed(error) => Injection::Failed(error),
        }
    }

    /// How many actions are left, at most.
    pub open spec fn actions_left(self) -> int {
        let keys = 2 * KEY_SENDS;
        match self {
            Injection::BeforeConnect(left) => keys + 6 + 2 * left,
            Injection::Connecting(left) => keys + 5 + 2 * left,
            Injection::Booting => keys + 5,
            Injection::Removing => keys + 4,
            Injection::Requesting => keys + 3,
            Injection::Capturing => keys + 2,
            Injection::Checking => keys + 1,
            Injection::BeforeKey(left) => 2 * left,
            Injection::Sending(left) => 2 * left - 1,
            Injection::Done => 0,
            Injection::Failed(_) => 0,
        }
    }

    /// The counts are those of an injection under way.
    pub open spec fn wf(self) -> bool {
        match self {
            Injection::BeforeConnect(left) => 1 <= left <= CONNECT_TRIES,
            Injection::Connecting(left) => 1 <= left <= CONNECT_TRIES,
            Injection::BeforeKey(left) => 1 <= left <= KEY_SENDS,
            Injection::Sending(left) => 1 <= left <= KEY_SENDS,
            _ => true,
        }
    }

    /// Start, unless injection is suppressed.
    ///
    /// Suppressing it is what gives the keyboard path a negative test: the
    /// kernel's own keyboard deadline should then fire.
    pub fn new(suppressed: bool) -> (injection: Injection)
        ensures
            injection == (if suppressed {
                Injection::Done
            } else {
                Injection::BeforeConnect(CONNECT_TRIES)
            }),
            injection.wf(),
    {
        if suppressed {
            Injection::Done
        } else {
            Injection::BeforeConnect(CONNECT_TRIES)
        }
    }

    /// What the injection does next.
    pub fn action(self) -> (action: InjectionAction)
        ensures
            action == self.spec_action(),
    {
        match self {
            Injection::BeforeConnect(_) => InjectionAction::Sleep(100),
            Injection::Connecting(_) => InjectionAction::Connect,
            Injection::Booting => InjectionAction::Sleep(4500),
            Injection::Removing => InjectionAction::Remove,
            Injection::Requesting => InjectionAction::RequestDump,
            Injection::Capturing => InjectionAction::Sleep(500),
            Injection::Checking => InjectionAction::CheckDump,
            Injection::BeforeKey(_) => InjectionAction::Sleep(500),
            Injection::Sending(_) => InjectionAction::SendKey,
            Injection::Done => InjectionAction::Stop,
            Injection::Failed(_) => InjectionAction::Stop,
        }
    }

    /// Where the injection stands once that worked, or did not.
    pub fn next(self, worked: bool) -> (next: Injection)
        ensures
            next == self.spec_next(worked),
    {
        match self {
            Injection::BeforeConnect(left) => Injection::Connecting(left),
            Injection::Connecting(left) => {
                if worked {
                    Injection::Booting
                } else if left > 1 {
                    Injection::BeforeConnect(left - 1)
                } else {
                    Injection::Failed(InjectionError::NoMonitor)
                }
            },
            Injection::Booting => Injection::Removing,
            Injection::Removing => {
                if worked {
                    Injection::Requesting
                } else {
                    Injection::Failed(InjectionError::OldCaptureStays)
                }
            },
            Injection::Requesting => {
                if worked {
                    Injection::Capturing
                } else {
                    Injection::Failed(InjectionError::NotRequested)
                }
            },
            Injection::Capturing => Injection::Checking,
            Injection::Checking => {
                if worked {
                    Injection::BeforeKey(KEY_SENDS)
                } else {
                    Injection::Failed(InjectionError::NotCreated)
                }
            },
            Injection::BeforeKey(left) => Injection::Sending(left),
            Injection::Sending(left) => {
                if worked && left > 1 {
                    Injection::BeforeKey(left - 1)
                } else {
                    Injection::Done
                }
            },
            Injection::Done => Injection::Done,
            Injection::Failed(error) => Injection::Failed(error),
        }
    }
}

/// The injection ends: whatever works or does not, every action leaves fewer
/// to come, and it is over exactly when there is nothing left to do.
pub proof fn the_injection_ends(injection: Injection, worked: bool)
    requires
        injection.wf(),
    ensures
        injection.spec_next(worked).wf(),
        injection.spec_action() != InjectionAction::Stop ==> 0 <= injection.spec_next(
            worked,
        ).actions_left() < injection.actions_left(),
        injection.spec_action() == InjectionAction::Stop <==> injection.actions_left() == 0,
        injection.spec_action() == InjectionAction::Stop <==> (injection == Injection::Done
            || injection is Failed),
{
}

/// Where an injection stands after its actions worked or did not, in order.
pub open spec fn after_actions(injection: Injection, worked: Seq<bool>) -> Injection
    decreases worked.len(),
{
    if worked.len() == 0 {
        injection
    } else {
        after_actions(injection, worked.drop_last()).spec_next(worked.last())
    }
}

/// The monitor is tried as often as it takes, a tenth of a second apart, but
/// no more than a hundred times: each failed try costs one, and a try that
/// works starts the boot's time.
pub proof fn the_monitor_is_tried_a_hundred_times(left: u32)
    ensures
        Injection::BeforeConnect(left).spec_action() == InjectionAction::Sleep(100),
        Injection::BeforeConnect(left).spec_next(true) == Injection::Connecting(left),
        Injection::BeforeConnect(left).spec_next(false) == Injection::Connecting(left),
        Injection::Connecting(left).spec_action() == InjectionAction::Connect,
        Injection::Connecting(left).spec_next(true) == Injection::Booting,
        left > 1 ==> Injection::Connecting(left).spec_next(false) == Injection::BeforeConnect(
            (left - 1) as u32,
        ),
        left <= 1 ==> Injection::Connecting(left).spec_next(false) == Injection::Failed(
            InjectionError::NoMonitor,
        ),
        CONNECT_TRIES == 100,
{
}

/// Once the monitor is reached, the capture is made before any key is sent:
/// the guest gets 4.5 seconds to boot, the old capture goes, a new one is
/// asked for, half a second later it must be there, and then come the keys.
/// The first of these that does not work ends the injection, and says which
/// it was.
pub proof fn the_capture_comes_before_the_keys(waited: bool)
    ensures
        Injection::Booting.spec_action() == InjectionAction::Sleep(4500),
        Injection::Booting.spec_next(waited) == Injection::Removing,
        Injection::Removing.spec_action() == InjectionAction::Remove,
        Injection::Removing.spec_next(true) == Injection::Requesting,
        Injection::Removing.spec_next(false) == Injection::Failed(
            InjectionError::OldCaptureStays,
        ),
        Injection::Requesting.spec_action() == InjectionAction::RequestDump,
        Injection::Requesting.spec_next(true) == Injection::Capturing,
        Injection::Requesting.spec_next(false) == Injection::Failed(InjectionError::NotRequested),
        Injection::Capturing.spec_action() == InjectionAction::Sleep(500),
        Injection::Capturing.spec_next(waited) == Injection::Checking,
        Injection::Checking.spec_action() == InjectionAction::CheckDump,
        Injection::Checking.spec_next(true) == Injection::BeforeKey(40),
        Injection::Checking.spec_next(false) == Injection::Failed(InjectionError::NotCreated),
{
}

/// A key is sent again and again, half a second apart, until it cannot be
/// sent or none is left; either way that is the end, and no failure.
pub proof fn keys_are_sent_until_qemu_is_gone(left: u32, waited: bool)
    ensures
        Injection::BeforeKey(left).spec_action() == InjectionAction::Sleep(500),
        Injection::BeforeKey(left).spec_next(waited) == Injection::Sending(left),
        Injection::Sending(left).spec_action() == InjectionAction::SendKey,
        Injection::Sending(left).spec_next(false) == Injection::Done,
        left > 1 ==> Injection::Sending(left).spec_next(true) == Injection::BeforeKey(
            (left - 1) as u32,
        ),
        left <= 1 ==> Injection::Sending(left).spec_next(true) == Injection::Done,
{
}

/// What is over stays over.
pub proof fn an_injection_that_is_over_stays_over(error: InjectionError, worked: Seq<bool>)
    ensures
        after_actions(Injection::Done, worked) == Injection::Done,
        after_actions(Injection::Failed(error), worked) == Injection::Failed(error),
        Injection::Done.spec_action() == InjectionAction::Stop,
        Injection::Failed(error).spec_action() == InjectionAction::Stop,
    decreases worked.len(),
{
    if worked.len() > 0 {
        an_injection_that_is_over_stays_over(error, worked.drop_last());
    }
}

} // verus!
