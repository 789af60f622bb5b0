//! Which command the arguments of the program ask for.
use crate::text::{same, texts};
use vstd::prelude::*;

verus! {

/// A command, with the index of its first argument.
pub enum Command {
    Usage,
    Read(usize),
    Write(usize),
}

/// The flags that only the write command knows.
pub open spec fn is_write_flag(s: Seq<char>) -> bool {
    ||| s == "--add"@
    ||| s == "-A"@
    ||| s == "--cp"@
    ||| s == "-C"@
    ||| s == "--mv"@
    ||| s == "-M"@
    ||| s == "--rm"@
    ||| s == "-R"@
    ||| s == "-r"@
    ||| s == "--set-mode"@
    ||| s == "--set-owner"@
    ||| s == "--set-context"@
    ||| s == "--sparse-output"@
    ||| s == "--shared-blocks"@
    ||| s == "--shader-blocks"@
    ||| s == "--compact"@
    ||| s == "--compress"@
    ||| s == "--reserve-mb"@
    ||| s == "--reserve"@
    ||| s == "--convert-to"@
    ||| s == "--input"@
    ||| s == "--output"@
}

/// Whether one of the arguments is a flag of the write command.
pub open spec fn has_write_flag(args: Seq<Seq<char>>) -> bool {
    exists|i: int| 0 <= i < args.len() && is_write_flag(#[trigger] args[i])
}

fn check_write_flag(s: &str) -> (b: bool)
    ensures
        b == is_write_flag(s@),
{
    same(s, "--add") || same(s, "-A") || same(s, "--cp") || same(s, "-C") || same(s, "--mv")
        || same(s, "-M") || same(s, "--rm") || same(s, "-R") || same(s, "-r") || same(
        s,
        "--set-mode",
    ) || same(s, "--set-owner") || same(s, "--set-context") || same(s, "--sparse-output") || same(
        s,
        "--shared-blocks",
    ) || same(s, "--shader-blocks") || same(s, "--compact") || same(s, "--compress") || same(
        s,
        "--reserve-mb",
    ) || same(s, "--reserve") || same(s, "--convert-to") || same(s, "--input") || same(
        s,
        "--output",
    )
}

/// Whether one of the arguments is a flag of the write command.
pub fn looks_like_write(args: &[String]) -> (b: bool)
    ensures
        b == has_write_flag(texts(args@)),
{
    let ghost t = texts(args@);
    let mut i: usize = 0;
    while i < args.len()
        invariant
            i <= args@.len() == t.len(),
            t == texts(args@),
            forall|k: int| 0 <= k < i ==> !is_write_flag(#[trigger] t[k]),
        decreases args.len() - i,
    {
        assert(t[i as int] == args@[i as int]@);
        if check_write_flag(args[i].as_str()) {
            assert(is_write_flag(t[i as int]));
            return true;
        }
        i += 1;
    }
    false
}

/// The command that arguments ask for. It may be left out: flags of the write
/// command imply that one, and other arguments the read command.
pub open spec fn command_of(args: Seq<Seq<char>>) -> Command {
    if args.len() == 0 || args[0] == "-h"@ || args[0] == "--help"@ {
        Command::Usage
    } else if args[0] == "read"@ {
        Command::Read(1)
    } else if args[0] == "write"@ {
        Command::Write(1)
    } else if has_write_flag(args) {
        Command::Write(0)
    } else {
        Command::Read(0)
    }
}

/// Finds the command that arguments ask for.
pub fn choose_command(args: &[String]) -> (c: Command)
    ensures
        c == command_of(texts(args@)),
{
    if args.len() == 0 {
        return Command::Usage;
    }
    let first = args[0].as_str();
    assert(texts(args@)[0] == first@);
    if same(first, "-h") || same(first, "--help") {
        Command::Usage
    } else if same(first, "read") {
        Command::Read(1)
    } else if same(first, "write") {
        Command::Write(1)
    } else if looks_like_write(args) {
        Command::Write(0)
    } else {
        Command::Read(0)
    }
}

} // verus!
