//! Reading the command line: a subcommand, the archive path and an
//! optional entry selector.
use vstd::prelude::*;
use crate::archive::{edits, target_bit, Mode};

verus! {

/// What the command line asks for.
#[derive(Debug, PartialEq)]
pub enum ParsedArgs<'a> {
    /// Show the usage text.
    Help,
    /// Run `mode` on `file_path`, on the entries `selection` picks.
    Run { mode: Mode, file_path: &'a str, selection: Option<&'a str> },
}

/// The meaning of a command line, over the texts of its words.
pub enum ArgsModel {
    Help,
    Run(Mode, Seq<char>, Option<Seq<char>>),
}

impl<'a> View for ParsedArgs<'a> {
    type V = ArgsModel;

    open spec fn view(&self) -> ArgsModel {
        match self {
            ParsedArgs::Help => ArgsModel::Help,
            ParsedArgs::Run { mode, file_path, selection } => ArgsModel::Run(
                *mode,
                file_path@,
                match selection {
                    Some(s) => Some(s@),
                    None => None,
                },
            ),
        }
    }
}

/// Whether `command` asks for help.
pub open spec fn is_help_word(command: Seq<char>) -> bool {
    command == "help"@ || command == "--help"@ || command == "-h"@
}

/// The mode a subcommand names, if it names one.
pub open spec fn subcommand_of(command: Seq<char>) -> Option<Mode> {
    if command == "status"@ {
        Some(Mode::Status)
    } else if command == "detail"@ {
        Some(Mode::Detail)
    } else if command == "set"@ {
        Some(Mode::SetBit)
    } else if command == "clear"@ {
        Some(Mode::Clear)
    } else if command == "toggle"@ {
        Some(Mode::Toggle)
    } else {
        None
    }
}

/// The message for a word that is no subcommand.
pub open spec fn unknown_message(command: Seq<char>) -> Seq<char> {
    "unknown subcommand: '"@ + command + "'"@
}

/// What the words `args` (the program name first) ask for.
pub open spec fn args_result(args: Seq<Seq<char>>) -> Result<ArgsModel, Seq<char>> {
    if args.len() == 1 {
        Ok(ArgsModel::Help)
    } else if args.len() == 2 {
        if is_help_word(args[1]) {
            Ok(ArgsModel::Help)
        } else if subcommand_of(args[1]) is Some {
            Err("'"@ + args[1] + "' requires <file.zip>"@)
        } else {
            Err(unknown_message(args[1]))
        }
    } else if args.len() == 3 || args.len() == 4 {
        if is_help_word(args[1]) {
            Err("help does not take a file path"@)
        } else {
            match subcommand_of(args[1]) {
                None => Err(unknown_message(args[1])),
                Some(mode) => if args.len() == 3 {
                    Ok(ArgsModel::Run(mode, args[2], None))
                } else if mode == Mode::Status {
                    Err("'"@ + args[1] + "' does not take an entry selector"@)
                } else {
                    Ok(ArgsModel::Run(mode, args[2], Some(args[3])))
                },
            }
        }
    } else {
        Err("too many arguments"@)
    }
}

/// Whether the texts `a` and `b` are equal.
fn same_text(a: &str, b: &str) -> (r: bool)
    ensures
        r == (a@ == b@),
{
    String::from_str(a) == String::from_str(b)
}

/// Whether `command` asks for help.
pub fn is_help(command: &str) -> (r: bool)
    ensures
        r == is_help_word(command@),
{
    same_text(command, "help") || same_text(command, "--help") || same_text(command, "-h")
}

/// The mode a subcommand names, if it names one.
pub fn parse_subcommand(command: &str) -> (r: Option<Mode>)
    ensures
        r == subcommand_of(command@),
{
    if same_text(command, "status") {
        Some(Mode::Status)
    } else if same_text(command, "detail") {
        Some(Mode::Detail)
    } else if same_text(command, "set") {
        Some(Mode::SetBit)
    } else if same_text(command, "clear") {
        Some(Mode::Clear)
    } else if same_text(command, "toggle") {
        Some(Mode::Toggle)
    } else {
        None
    }
}

fn unknown_subcommand(command: &str) -> (e: String)
    ensures
        e@ == unknown_message(command@),
{
    let mut e = String::from_str("unknown subcommand: '");
    e.append(command);
    e.append("'");
    e
}

/// Read the command line `args` (the program name first).
pub fn parse_args<'a>(args: &'a [String]) -> (r: Result<ParsedArgs<'a>, String>)
    ensures
        match args_result(args@.map_values(|s: String| s@)) {
            Ok(m) => r is Ok && r->Ok_0@ == m,
            Err(e) => r is Err && r->Err_0@ == e,
        },
{
    let ghost words = args@.map_values(|s: String| s@);
    let n = args.len();
    if n == 1 {
        return Ok(ParsedArgs::Help);
    }
    if n == 2 {
        let command = args[1].as_str();
        assert(command@ == words[1]);
        if is_help(command) {
            return Ok(ParsedArgs::Help);
        }
        if parse_subcommand(command).is_some() {
            let mut e = String::from_str("'");
            e.append(command);
            e.append("' requires <file.zip>");
            return Err(e);
        }
        return Err(unknown_subcommand(command));
    }
    if n == 3 || n == 4 {
        let command = args[1].as_str();
        let file_path = args[2].as_str();
        assert(command@ == words[1]);
        assert(file_path@ == words[2]);
        if is_help(command) {
            return Err(String::from_str("help does not take a file path"));
        }
        let mode = match parse_subcommand(command) {
            Some(m) => m,
            None => return Err(unknown_subcommand(command)),
        };
        if n == 3 {
            return Ok(ParsedArgs::Run { mode, file_path, selection: None });
        }
        let selection = args[3].as_str();
        assert(selection@ == words[3]);
        return match mode {
            Mode::Status => {
                let mut e = String::from_str("'");
                e.append(command);
                e.append("' does not take an entry selector");
                Err(e)
            },
            _ => Ok(ParsedArgs::Run { mode, file_path, selection: Some(selection) }),
        };
    }
    Err(String::from_str("too many arguments"))
}

/// Each of the five subcommand words names its own mode, and no other word
/// names one; `set` and `clear` ask for bit 11 set and clear whatever it
/// was, `toggle` for it flipped, and `status` and `detail` for no edit. So
/// `<word> <file>` runs that mode on that file with no selector.
pub proof fn law_subcommands(program: Seq<char>, path: Seq<char>, command: Seq<char>)
    ensures
        subcommand_of("status"@) == Some(Mode::Status),
        subcommand_of("detail"@) == Some(Mode::Detail),
        subcommand_of("set"@) == Some(Mode::SetBit),
        subcommand_of("clear"@) == Some(Mode::Clear),
        subcommand_of("toggle"@) == Some(Mode::Toggle),
        subcommand_of(command) is Some ==> command == "status"@ || command == "detail"@
            || command == "set"@ || command == "clear"@ || command == "toggle"@,
        forall|b: bool| target_bit(subcommand_of("set"@)->Some_0, b),
        forall|b: bool| !target_bit(subcommand_of("clear"@)->Some_0, b),
        forall|b: bool| target_bit(subcommand_of("toggle"@)->Some_0, b) == !b,
        !edits(subcommand_of("status"@)->Some_0) && !edits(subcommand_of("detail"@)->Some_0),
        subcommand_of(command) matches Some(m) ==> args_result(seq![program, command, path])
            == Ok::<ArgsModel, Seq<char>>(ArgsModel::Run(m, path, None)),
{
    reveal_strlit("status");
    reveal_strlit("detail");
    reveal_strlit("set");
    reveal_strlit("clear");
    reveal_strlit("toggle");
    reveal_strlit("help");
    reveal_strlit("--help");
    reveal_strlit("-h");
    let w = seq!["status"@, "detail"@, "set"@, "clear"@, "toggle"@, "help"@, "--help"@, "-h"@];
    // Words of one length differ in their first letter.
    assert(w[0][0] == 's' && w[1][0] == 'd' && w[4][0] == 't' && w[6][0] == '-');
    assert forall|a: int, b: int| 0 <= a < w.len() && 0 <= b < w.len() && a != b implies w[a]
        != w[b] by {
        if w[a].len() == w[b].len() {
            assert(w[a][0] != w[b][0]);
        }
    }
    assert("detail"@ != "status"@) by { assert(w[1] != w[0]); }
    assert("set"@ != "status"@ && "set"@ != "detail"@) by { assert(w[2] != w[0] && w[2] != w[1]); }
    assert("clear"@ != "status"@ && "clear"@ != "detail"@ && "clear"@ != "set"@) by {
        assert(w[3] != w[0] && w[3] != w[1] && w[3] != w[2]);
    }
    assert("toggle"@ != "status"@ && "toggle"@ != "detail"@ && "toggle"@ != "set"@ && "toggle"@
        != "clear"@) by {
        assert(w[4] != w[0] && w[4] != w[1] && w[4] != w[2] && w[4] != w[3]);
    }
    let args = seq![program, command, path];
    if subcommand_of(command) is Some {
        assert(args[1] == command);
        assert(!is_help_word(command)) by {
            assert forall|a: int, b: int| 0 <= a < 5 && 5 <= b < 8 implies w[a] != w[b] by {}
            assert(w[5] != w[0] && w[5] != w[1] && w[5] != w[2] && w[5] != w[3] && w[5] != w[4]);
            assert(w[6] != w[0] && w[6] != w[1] && w[6] != w[2] && w[6] != w[3] && w[6] != w[4]);
            assert(w[7] != w[0] && w[7] != w[1] && w[7] != w[2] && w[7] != w[3] && w[7] != w[4]);
        }
    }
}

} // verus!
