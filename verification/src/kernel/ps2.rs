//! The 8042 PS/2 controller.
//!
//! Port `0x60` is data; `0x64` is command on write and status on read.
//! Status bit 0 means the output buffer holds a byte to read; bit 1 means
//! the input buffer still holds a byte the controller has not consumed, so
//! writing before it clears would lose the write.
//!
//! [`Setup`] decides, one reading of the status at a time, what the kernel
//! does next with the two ports.

use crate::kernel::port::{sends, PortWrite};
use vstd::prelude::*;

verus! {

pub const DATA: u16 = 0x60;

pub const COMMAND: u16 = 0x64;

pub const STATUS: u16 = 0x64;

const STATUS_OUTPUT_FULL: u8 = 0x01;

const STATUS_INPUT_FULL: u8 = 0x02;

const CMD_READ_CONFIG: u8 = 0x20;

const CMD_WRITE_CONFIG: u8 = 0x60;

const CMD_ENABLE_FIRST_PORT: u8 = 0xAE;

/// Raise IRQ1 when the first port has data.
pub const CONFIG_FIRST_PORT_INTERRUPT: u8 = 0x01;

/// *Disable* the first port's clock. Must be clear.
pub const CONFIG_FIRST_PORT_CLOCK_DISABLED: u8 = 0x10;

/// How often the status is read in each step before giving up.
///
/// On a machine with no such controller the status reads back as `0xFF`:
/// both bits appear permanently set, and a wait without a bound would never
/// end. There is no timer tick yet to bound it by, so each wait counts its
/// readings instead.
pub const SPIN_BUDGET: u32 = 200_000;

/// The steps of the setup, in order. Each waits for a status and then acts.
#[derive(Clone, Copy, Debug, PartialEq, Eq, Structural)]
pub enum Step {
    /// Throw away what the firmware left unread.
    Drain,
    EnableFirstPort,
    RequestConfig,
    ReadConfig,
    RequestConfigWrite,
    WriteConfig,
    Finished,
}

/// What to do with the ports after a reading of the status.
#[derive(Clone, Copy, Debug, PartialEq, Eq, Structural)]
pub enum Action {
    /// Read the status again.
    Poll,
    /// Read a byte of data and throw it away, then read the status again.
    Discard,
    /// Make this write, then go on with the setup.
    Send(PortWrite),
    /// Read a byte of data and hand it over, then read the status again.
    Receive,
    /// Give up in this step, after reading a byte of data and throwing it
    /// away if so marked.
    GiveUp(Step, bool),
}

/// A setup in progress.
#[derive(Clone, Copy, Debug, PartialEq, Eq, Structural)]
pub struct Setup {
    pub step: Step,
    /// How many readings of the status this step has left.
    pub left: u32,
    /// The configuration byte to write back.
    pub config: u8,
}

impl Step {
    /// The step after this one.
    pub open spec fn successor(self) -> Step {
        match self {
            Step::Drain => Step::EnableFirstPort,
            Step::EnableFirstPort => Step::RequestConfig,
            Step::RequestConfig => Step::ReadConfig,
            Step::ReadConfig => Step::RequestConfigWrite,
            Step::RequestConfigWrite => Step::WriteConfig,
            Step::WriteConfig => Step::Finished,
            Step::Finished => Step::Finished,
        }
    }

    /// How many steps are left, this one among them.
    pub open spec fn steps_left(self) -> int {
        match self {
            Step::Drain => 6,
            Step::EnableFirstPort => 5,
            Step::RequestConfig => 4,
            Step::ReadConfig => 3,
            Step::RequestConfigWrite => 2,
            Step::WriteConfig => 1,
            Step::Finished => 0,
        }
    }

    /// The status this step waits for: nothing left to read, a byte to read,
    /// or room for a write.
    pub open spec fn ready(self, status: u8) -> bool {
        match self {
            Step::Drain => status % 2 == 0,
            Step::ReadConfig => status % 2 == 1,
            _ => status / 2 % 2 == 0,
        }
    }

    /// What to say when this step gives up.
    pub fn timeout_message(self) -> (message: &'static str)
        ensures
            message@ == (match self {
                Step::Drain => "ps2: timed out draining the output buffer; no 8042 present?"@,
                Step::EnableFirstPort => "ps2: timed out waiting to enable the first port"@,
                Step::RequestConfig => "ps2: timed out waiting to request the config byte"@,
                Step::ReadConfig => "ps2: timed out waiting to read the config byte"@,
                Step::RequestConfigWrite =>
                    "ps2: timed out waiting to write the config byte command"@,
                Step::WriteConfig => "ps2: timed out waiting to write the config byte"@,
                Step::Finished => ""@,
            }),
    {
        match self {
            Step::Drain => "ps2: timed out draining the output buffer; no 8042 present?",
            Step::EnableFirstPort => "ps2: timed out waiting to enable the first port",
            Step::RequestConfig => "ps2: timed out waiting to request the config byte",
            Step::ReadConfig => "ps2: timed out waiting to read the config byte",
            Step::RequestConfigWrite =>
                "ps2: timed out waiting to write the config byte command",
            Step::WriteConfig => "ps2: timed out waiting to write the config byte",
            Step::Finished => "",
        }
    }
}

/// The configuration byte with the first port's interrupt on and its clock
/// running, and every other bit as it was.
pub open spec fn enabled(config: u8) -> u8 {
    (config | 0x01) & !0x10u8
}

impl Setup {
    /// The setup is waiting for a status.
    pub open spec fn waiting(self) -> bool {
        self.step != Step::Finished && 0 < self.left <= SPIN_BUDGET
    }

    /// How many readings of the status are left in all, at most.
    pub open spec fn readings_left(self) -> int {
        if self.step == Step::Finished {
            0
        } else {
            (self.step.steps_left() - 1) * SPIN_BUDGET + self.left
        }
    }

    /// The state after a reading of the status.
    pub open spec fn next(self, status: u8) -> Setup {
        if self.step.ready(status) {
            Setup { step: self.step.successor(), left: SPIN_BUDGET, ..self }
        } else {
            Setup { left: (self.left - 1) as u32, ..self }
        }
    }

    /// What a reading of the status calls for.
    pub open spec fn action(self, status: u8) -> Action {
        if self.step.ready(status) {
            match self.step {
                Step::EnableFirstPort => Action::Send(sends(0x64, 0xAE)),
                Step::RequestConfig => Action::Send(sends(0x64, 0x20)),
                Step::ReadConfig => Action::Receive,
                Step::RequestConfigWrite => Action::Send(sends(0x64, 0x60)),
                Step::WriteConfig => Action::Send(sends(0x60, self.config)),
                _ => Action::Poll,
            }
        } else if self.left == 1 {
            Action::GiveUp(self.step, self.step == Step::Drain)
        } else if self.step == Step::Drain {
            Action::Discard
        } else {
            Action::Poll
        }
    }

    /// Start setting the controller up so that keystrokes raise IRQ1.
    pub fn init() -> (setup: Setup)
        ensures
            setup == (Setup { step: Step::Drain, left: SPIN_BUDGET, config: 0 }),
            setup.waiting(),
    {
        Setup { step: Step::Drain, left: SPIN_BUDGET, config: 0 }
    }

    /// Take a reading of the status.
    pub fn status(&mut self, status: u8) -> (action: Action)
        requires
            old(self).waiting(),
        ensures
            *final(self) == old(self).next(status),
            action == old(self).action(status),
    {
        assert(status & 0x01 == status % 2) by (bit_vector);
        assert(status & 0x02 == 0 <==> status / 2 % 2 == 0) by (bit_vector);
        let ready: bool = match self.step {
            Step::Drain => status & STATUS_OUTPUT_FULL == 0,
            Step::ReadConfig => status & STATUS_OUTPUT_FULL != 0,
            _ => status & STATUS_INPUT_FULL == 0,
        };
        let step = self.step;
        if ready {
            self.left = SPIN_BUDGET;
            match step {
                Step::Drain => {
                    self.step = Step::EnableFirstPort;
                    Action::Poll
                },
                Step::EnableFirstPort => {
                    self.step = Step::RequestConfig;
                    Action::Send(PortWrite { port: COMMAND, value: CMD_ENABLE_FIRST_PORT })
                },
                Step::RequestConfig => {
                    self.step = Step::ReadConfig;
                    Action::Send(PortWrite { port: COMMAND, value: CMD_READ_CONFIG })
                },
                Step::ReadConfig => {
                    self.step = Step::RequestConfigWrite;
                    Action::Receive
                },
                Step::RequestConfigWrite => {
                    self.step = Step::WriteConfig;
                    Action::Send(PortWrite { port: COMMAND, value: CMD_WRITE_CONFIG })
                },
                Step::WriteConfig => {
                    self.step = Step::Finished;
                    Action::Send(PortWrite { port: DATA, value: self.config })
                },
                Step::Finished => Action::Poll,
            }
        } else {
            self.left = self.left - 1;
            let draining: bool = match step {
                Step::Drain => true,
                _ => false,
            };
            if self.left == 0 {
                Action::GiveUp(step, draining)
            } else if draining {
                Action::Discard
            } else {
                Action::Poll
            }
        }
    }

    /// Take the configuration byte that was read: the first port raises its
    /// interrupt, and its clock runs.
    ///
    /// It is written back even when nothing changed: writing it is what
    /// makes the controller deliver interrupts.
    pub fn receive(&mut self, config: u8)
        ensures
            *final(self) == (Setup { config: enabled(config), ..*old(self) }),
    {
        self.config = (config | CONFIG_FIRST_PORT_INTERRUPT) & !CONFIG_FIRST_PORT_CLOCK_DISABLED;
    }

    /// Whether everything is done.
    pub fn finished(&self) -> (done: bool)
        ensures
            done == (self.step == Step::Finished),
    {
        match self.step {
            Step::Finished => true,
            _ => false,
        }
    }
}

/// The setup never hangs: every reading of the status leaves fewer to come,
/// there are at most six full budgets of them, and when a step has none
/// left it gives up and says which step it was.
pub proof fn the_setup_never_hangs(setup: Setup, status: u8)
    requires
        setup.waiting(),
    ensures
        0 <= setup.next(status).readings_left() < setup.readings_left() <= 6 * SPIN_BUDGET,
        setup.next(status).waiting() || setup.next(status).step == Step::Finished
            || setup.action(status) is GiveUp,
        setup.action(status) matches Action::GiveUp(step, _) ==> step == setup.step
            && !setup.step.ready(status),
{
}

/// Without a controller, where every reading is `0xFF`, the first step is
/// never ready, so the setup ends there.
pub proof fn a_missing_controller_is_noticed_at_once()
    ensures
        !Step::Drain.ready(0xff),
{
}

/// What is written back enables the interrupt and the clock of the first
/// port, and changes nothing else.
pub proof fn only_the_first_port_bits_change(config: u8)
    ensures
        enabled(config) & 0x01 != 0,
        enabled(config) & 0x10 == 0,
        enabled(config) & 0xee == config & 0xee,
        enabled(enabled(config)) == enabled(config),
{
    assert(((config | 0x01) & !0x10u8) & 0x01 != 0) by (bit_vector);
    assert(((config | 0x01) & !0x10u8) & 0x10 == 0) by (bit_vector);
    assert(((config | 0x01) & !0x10u8) & 0xee == config & 0xee) by (bit_vector);
    assert((((config | 0x01) & !0x10u8) | 0x01) & !0x10u8 == (config | 0x01) & !0x10u8)
        by (bit_vector);
}

/// The controller's protocol is kept: nothing is written while it has not
/// consumed the last write, and no byte is read unless there is one.
pub proof fn the_protocol_is_kept(setup: Setup, status: u8)
    requires
        setup.waiting(),
    ensures
        setup.action(status) is Send ==> status & 0x02 == 0,
        setup.action(status) is Receive ==> status & 0x01 != 0,
        setup.action(status) is Discard ==> status & 0x01 != 0,
        setup.action(status) matches Action::GiveUp(_, discard) ==> (discard ==> status & 0x01
            != 0),
{
    assert(status & 0x01 == status % 2) by (bit_vector);
    assert(status & 0x02 == 0 <==> status / 2 % 2 == 0) by (bit_vector);
}

/// A step acts as soon as the status allows it, and then makes way for the
/// next with a full budget of its own: the drain ends when there is nothing
/// left to read, the configuration is read when there is something, and the
/// four writes go out when there is room, with these bytes to these ports.
pub proof fn a_ready_controller_is_set_up_step_by_step(setup: Setup, status: u8)
    requires
        setup.waiting(),
    ensures
        ({
            let room = status & 0x02 == 0;
            let byte = status & 0x01 != 0;
            let next = setup.next(status);
            let action = setup.action(status);
            &&& setup.step == Step::Drain && !byte ==> next.step == Step::EnableFirstPort && action
                == Action::Poll
            &&& setup.step == Step::EnableFirstPort && room ==> next.step == Step::RequestConfig
                && action == Action::Send(PortWrite { port: 0x64, value: 0xae })
            &&& setup.step == Step::RequestConfig && room ==> next.step == Step::ReadConfig
                && action == Action::Send(PortWrite { port: 0x64, value: 0x20 })
            &&& setup.step == Step::ReadConfig && byte ==> next.step == Step::RequestConfigWrite
                && action == Action::Receive
            &&& setup.step == Step::RequestConfigWrite && room ==> next.step == Step::WriteConfig
                && action == Action::Send(PortWrite { port: 0x64, value: 0x60 })
            &&& setup.step == Step::WriteConfig && room ==> next.step == Step::Finished && action
                == Action::Send(PortWrite { port: 0x60, value: setup.config })
            &&& next.step != setup.step ==> next.left == 200_000
            &&& next.config == setup.config
        }),
{
    assert(status & 0x01 == status % 2) by (bit_vector);
    assert(status & 0x02 == 0 <==> status / 2 % 2 == 0) by (bit_vector);
}

/// A step that is not ready is tried again until its budget is used up, and
/// only then given up; the drain throws away a byte at each try.
pub proof fn a_busy_controller_is_waited_for(setup: Setup, status: u8)
    requires
        setup.waiting(),
        setup.next(status).step == setup.step,
    ensures
        setup.next(status).left + 1 == setup.left,
        setup.next(status).config == setup.config,
        setup.left > 1 ==> setup.action(status) == (if setup.step == Step::Drain {
            Action::Discard
        } else {
            Action::Poll
        }),
        setup.left == 1 ==> setup.action(status) == Action::GiveUp(
            setup.step,
            setup.step == Step::Drain,
        ),
        setup.step == Step::Drain ==> status & 0x01 != 0,
        setup.step == Step::ReadConfig ==> status & 0x01 == 0,
        setup.step != Step::Drain && setup.step != Step::ReadConfig ==> status & 0x02 != 0,
{
    assert(status & 0x01 == status % 2) by (bit_vector);
    assert(status & 0x02 == 0 <==> status / 2 % 2 == 0) by (bit_vector);
}

/// The controller is reached through the ports a PC has it at.
pub proof fn the_controller_is_at_its_ports()
    ensures
        DATA == 0x60,
        COMMAND == 0x64,
        STATUS == 0x64,
        crate::kernel::keyboard::DATA_PORT == DATA,
{
}

} // verus!
