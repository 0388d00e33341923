//! What the build tool was asked to do.

use vstd::prelude::*;

verus! {

/// The command given on the command line.
#[derive(Clone, Copy, Debug, PartialEq, Eq, Structural)]
pub enum Command {
    /// Build, stage, and boot, and expect success.
    Run,
    /// Boot a deliberately corrupted kernel image, and expect a rejection.
    Test,
    /// A word that is no command.
    Unknown,
    /// Nothing.
    Missing,
}

/// The command in an argument list, whose first entry is the program.
pub open spec fn command_of(args: Seq<String>) -> Command {
    if args.len() < 2 {
        Command::Missing
    } else if args[1]@ == "run"@ {
        Command::Run
    } else if args[1]@ == "test"@ {
        Command::Test
    } else {
        Command::Unknown
    }
}

/// Find the command in the argument list. Further arguments are ignored.
pub fn parse_command(args: &[String]) -> (command: Command)
    ensures
        command == command_of(args@),
{
    if args.len() < 2 {
        return Command::Missing;
    }
    let name: &String = &args[1];
    if name.eq(&"run".to_owned()) {
        Command::Run
    } else if name.eq(&"test".to_owned()) {
        Command::Test
    } else {
        Command::Unknown
    }
}

/// Only the word behind the program's name counts, and only the two commands
/// are known, spelled exactly.
pub proof fn only_the_first_argument_counts(args: Seq<String>, more: Seq<String>)
    ensures
        args.len() >= 2 ==> command_of(args + more) == command_of(args),
        command_of(args) == Command::Missing <==> args.len() < 2,
        args.len() >= 2 ==> {
            &&& command_of(args) == Command::Run <==> args[1]@ == seq!['r', 'u', 'n']
            &&& command_of(args) == Command::Test <==> args[1]@ == seq!['t', 'e', 's', 't']
        },
{
    reveal_strlit("run");
    reveal_strlit("test");
    assert("run"@ =~= seq!['r', 'u', 'n']);
    assert("test"@ =~= seq!['t', 'e', 's', 't']);
    if args.len() >= 2 {
        assert((args + more)[1] == args[1]);
        assert(seq!['r', 'u', 'n'].len() != seq!['t', 'e', 's', 't'].len());
    }
}

} // verus!
