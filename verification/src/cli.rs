//! The command line: an optional path to edit, or a request for help.
use vstd::prelude::*;
use vstd::string::StringExecFns;
use vstd::utf8::*;

use crate::std_calls::str_from_utf8;

verus! {

broadcast use vstd::seq::group_seq_axioms;

/// What the command line asks for.
pub enum Command {
    Help,
    /// Edit the file at this path (its bytes as the system gives them), or a new buffer.
    Edit(Option<Vec<u8>>),
}

/// A command line that cannot be understood.
#[derive(Debug, Clone)]
pub enum ParseError {
    UnknownOption(String),
}

/// The bytes of `-h`.
pub open spec fn short_help() -> Seq<u8> {
    seq![45u8, 104u8]
}

/// The bytes of `--help`.
pub open spec fn long_help() -> Seq<u8> {
    seq![45u8, 45u8, 104u8, 101u8, 108u8, 112u8]
}

impl ParseError {
    /// The error as a line of text.
    pub fn to_string(&self) -> (res: String)
        ensures
            match self {
                ParseError::UnknownOption(s) => res@ == "unknown option: "@ + s@,
            },
    {
        match self {
            ParseError::UnknownOption(s) => {
                let mut out = String::from_str("unknown option: ");
                out.append(s.as_str());
                out
            },
        }
    }
}

/// Whether `arg` is `-h` or `--help`.
fn is_help(arg: &Vec<u8>) -> (res: bool)
    ensures
        res == (arg@ == short_help() || arg@ == long_help()),
{
    let n: usize = arg.len();
    let short = n == 2 && arg[0] == 45 && arg[1] == 104;
    let long = n == 6 && arg[0] == 45 && arg[1] == 45 && arg[2] == 104 && arg[3] == 101 && arg[4]
        == 108 && arg[5] == 112;
    proof {
        if short {
            assert(arg@ =~= short_help());
        }
        if long {
            assert(arg@ =~= long_help());
        }
        if arg@ == short_help() {
            assert(arg@[0] == 45 && arg@[1] == 104);
        }
        if arg@ == long_help() {
            assert(arg@[0] == 45 && arg@[1] == 45 && arg@[2] == 104 && arg@[3] == 101 && arg@[4]
                == 108 && arg@[5] == 112);
        }
    }
    short || long
}

/// Reads the arguments that follow the program's name: help for `-h` or `--help`,
/// an error for anything else that is text starting with `-`, else the path to
/// edit; with no argument, a new buffer. Only the first argument is read.
pub fn parse(args: &Vec<Vec<u8>>) -> (res: Result<Command, ParseError>)
    ensures
        args@.len() == 0 ==> res matches Ok(Command::Edit(None)),
        args@.len() > 0 ==> ({
            let a = args@[0]@;
            if a == short_help() || a == long_help() {
                res matches Ok(Command::Help)
            } else if valid_utf8(a) && a.len() > 0 && a[0] == 45u8 {
                res matches Err(ParseError::UnknownOption(s)) && s@ == decode_utf8(a)
            } else {
                res matches Ok(Command::Edit(Some(p))) && p@ == a
            }
        }),
{
    if args.len() == 0 {
        return Ok(Command::Edit(None));
    }
    let arg: &Vec<u8> = &args[0];
    if is_help(arg) {
        return Ok(Command::Help);
    }
    match str_from_utf8(arg.as_slice()) {
        Some(s) => {
            if arg.len() > 0 && arg[0] == 45 {
                return Err(ParseError::UnknownOption(String::from_str(s)));
            }
        },
        None => {},
    }
    Ok(Command::Edit(Some(arg.clone())))
}

/// The usage line, printed with the help and after an error.
pub fn usage() -> (res: &'static str)
    ensures
        res@ == "usage: editor [-h | --help] [<path>]"@,
{
    "usage: editor [-h | --help] [<path>]"
}

/// The help message, one line at a time.
pub fn help_lines() -> (res: Vec<&'static str>)
    ensures
        res@.len() == 7,
        res@[0]@ == "usage: editor [-h | --help] [<path>]"@,
        res@[1]@ == ""@,
        res@[2]@ == "arguments:"@,
        res@[3]@ == "  <path>        path to a file open, or none for an empty buffer"@,
        res@[4]@ == ""@,
        res@[5]@ == "options:"@,
        res@[6]@ == "  -h, --help    print this message"@,
{
    let mut lines: Vec<&'static str> = Vec::new();
    lines.push(usage());
    lines.push("");
    lines.push("arguments:");
    lines.push("  <path>        path to a file open, or none for an empty buffer");
    lines.push("");
    lines.push("options:");
    lines.push("  -h, --help    print this message");
    lines
}

} // verus!
