//! Launching QEMU against the staged image, and waiting for it to exit.

use vstd::prelude::*;
use vstd::string::StringExecFns;

verus! {

/// How long to let QEMU run before taking it for hung.
pub const QEMU_TIMEOUT_MS: u64 = 60_000;

/// How long to sleep between two looks at a running QEMU.
pub const POLL_INTERVAL_MS: u64 = 100;

/// What QEMU needs to boot.
pub struct Boot {
    /// The firmware's code.
    pub ovmf_code: String,
    /// This run's writable copy of the firmware's variables.
    pub vars_copy: String,
    /// The directory to expose as a FAT volume.
    pub esp_dir: String,
    /// Where QEMU's monitor listens.
    pub monitor_socket: String,
}

/// The command line, word by word.
pub open spec fn command_line(boot: Boot) -> Seq<Seq<char>> {
    seq![
        "-drive"@,
        "if=pflash,format=raw,readonly=on,file="@ + boot.ovmf_code@,
        "-drive"@,
        "if=pflash,format=raw,file="@ + boot.vars_copy@,
        "-drive"@,
        "format=raw,file=fat:rw:"@ + boot.esp_dir@,
        "-device"@,
        "isa-debug-exit,iobase=0xf4,iosize=0x04"@,
        "-no-reboot"@,
        "-m"@,
        "256M"@,
        "-display"@,
        "none"@,
        "-serial"@,
        "stdio"@,
        "-monitor"@,
        "unix:"@ + boot.monitor_socket@ + ",server,nowait"@,
    ]
}

/// The words of a list of arguments.
pub open spec fn words_of(args: Seq<String>) -> Seq<Seq<char>> {
    args.map_values(|arg: String| arg@)
}

/// `head` with `tail` behind it.
fn joined(head: &str, tail: &str) -> (both: String)
    ensures
        both@ == head@ + tail@,
{
    let mut both: String = head.to_owned();
    both.append(tail);
    both
}

/// Add one word.
fn word(args: &mut Vec<String>, text: &str)
    ensures
        words_of(final(args)@) == words_of(old(args)@).push(text@),
{
    let ghost before = args@;
    args.push(text.to_owned());
    assert(words_of(args@) =~= words_of(before).push(text@));
}

/// QEMU's arguments.
///
/// `-no-reboot` makes a triple fault exit at once, where the default would
/// reboot the firmware and try again until the timeout.
pub fn arguments(boot: &Boot) -> (args: Vec<String>)
    ensures
        words_of(args@) == command_line(*boot),
{
    let mut args: Vec<String> = Vec::new();
    assert(words_of(args@) =~= Seq::<Seq<char>>::empty());
    word(&mut args, "-drive");
    let code: String = joined("if=pflash,format=raw,readonly=on,file=", boot.ovmf_code.as_str());
    word(&mut args, code.as_str());
    word(&mut args, "-drive");
    let vars: String = joined("if=pflash,format=raw,file=", boot.vars_copy.as_str());
    word(&mut args, vars.as_str());
    word(&mut args, "-drive");
    let volume: String = joined("format=raw,file=fat:rw:", boot.esp_dir.as_str());
    word(&mut args, volume.as_str());
    word(&mut args, "-device");
    word(&mut args, "isa-debug-exit,iobase=0xf4,iosize=0x04");
    word(&mut args, "-no-reboot");
    word(&mut args, "-m");
    word(&mut args, "256M");
    word(&mut args, "-display");
    word(&mut args, "none");
    word(&mut args, "-serial");
    word(&mut args, "stdio");
    word(&mut args, "-monitor");
    let socket: String = joined("unix:", boot.monitor_socket.as_str());
    let monitor: String = joined(socket.as_str(), ",server,nowait");
    word(&mut args, monitor.as_str());
    assert(words_of(args@) =~= command_line(*boot));
    args
}

/// What to do after a look at a running QEMU.
#[derive(Clone, Copy, Debug, PartialEq, Eq, Structural)]
pub enum PollStep {
    /// It has exited.
    Exited,
    /// It hangs: kill it and report the hang.
    TimedOut,
    /// Look again after the poll interval.
    Sleep,
}

/// What to do after a look at a QEMU that was started `elapsed_ms` ago.
///
/// An exit counts however late it is noticed; without one, the boot hangs
/// once the timeout is reached.
pub fn poll(exited: bool, elapsed_ms: u64) -> (step: PollStep)
    ensures
        step == (if exited {
            PollStep::Exited
        } else if elapsed_ms >= QEMU_TIMEOUT_MS {
            PollStep::TimedOut
        } else {
            PollStep::Sleep
        }),
{
    if exited {
        PollStep::Exited
    } else if elapsed_ms >= QEMU_TIMEOUT_MS {
        PollStep::TimedOut
    } else {
        PollStep::Sleep
    }
}

/// Words `i` and `i + 1` of the command line are an option and its value.
pub open spec fn option_at(boot: Boot, i: int, name: Seq<char>, value: Seq<char>) -> bool {
    command_line(boot)[i] == name && command_line(boot)[i + 1] == value
}

/// QEMU boots the firmware it is given, read-only, with the variables and the
/// volume it is given, reports through the exit device, does not reboot, and
/// gives its serial line to the terminal and its monitor to the socket.
pub proof fn the_command_line_names_everything_it_was_given(boot: Boot)
    ensures
        command_line(boot).len() == 17,
        option_at(
            boot,
            0,
            "-drive"@,
            "if=pflash,format=raw,readonly=on,file="@ + boot.ovmf_code@,
        ),
        option_at(boot, 2, "-drive"@, "if=pflash,format=raw,file="@ + boot.vars_copy@),
        option_at(boot, 4, "-drive"@, "format=raw,file=fat:rw:"@ + boot.esp_dir@),
        option_at(boot, 6, "-device"@, "isa-debug-exit,iobase=0xf4,iosize=0x04"@),
        command_line(boot)[8] == "-no-reboot"@,
        option_at(boot, 9, "-m"@, "256M"@),
        option_at(boot, 11, "-display"@, "none"@),
        option_at(boot, 13, "-serial"@, "stdio"@),
        option_at(boot, 15, "-monitor"@, "unix:"@ + boot.monitor_socket@ + ",server,nowait"@),
{
}

/// The words of a list of arguments are those arguments, one for one.
pub proof fn words_are_the_arguments(args: Seq<String>, i: int)
    requires
        0 <= i < args.len(),
    ensures
        words_of(args).len() == args.len(),
        words_of(args)[i] == args[i]@,
{
}

} // verus!
