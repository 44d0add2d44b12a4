use vstd::prelude::*;
use crate::errors::GuardianError;
use crate::strings::{str_trim, trim_whitespace};

verus! {

/// What the command word asks for.
#[derive(Debug, PartialEq, Eq)]
pub enum CommandKind {
    /// `scan`: record a new baseline of the folder.
    Scan,
    /// `check`: compare the folder with the baseline.
    Check,
    /// Any other word, kept to be reported.
    Unknown(String),
}

/// The command and the folder named on the command line.
#[derive(Debug, PartialEq, Eq)]
pub struct Invocation {
    pub command: CommandKind,
    pub folder: String,
}

/// Whether a command kind is the one that a command word names.
pub open spec fn names_command(kind: CommandKind, word: Seq<char>) -> bool {
    match kind {
        CommandKind::Scan => word == "scan"@,
        CommandKind::Check => word == "check"@,
        CommandKind::Unknown(w) => word != "scan"@ && word != "check"@ && w@ == word,
    }
}

/// The command word alone decides the command, one word each: only
/// `scan` names the scan, only `check` names the check, and any other word
/// names neither.
pub proof fn lemma_command_words(kind: CommandKind, word: Seq<char>)
    ensures
        names_command(CommandKind::Scan, word) <==> word == "scan"@,
        names_command(CommandKind::Check, word) <==> word == "check"@,
        "scan"@ != "check"@,
        names_command(kind, word) ==> (kind is Scan <==> word == "scan"@) && (kind is Check <==> word
            == "check"@),
{
    reveal_strlit("scan");
    reveal_strlit("check");
    assert("scan"@[1] != "check"@[1]);
}

/// Reads the command line (the program's name first): the command word
/// and the folder are the second and third arguments; further arguments
/// are ignored.
pub fn parse_invocation(args: &Vec<String>) -> (invocation: Result<Invocation, GuardianError>)
    ensures
        invocation is Err <==> args.len() < 3,
        invocation matches Err(e) ==> e is MissingArguments,
        invocation matches Ok(inv) ==> names_command(inv.command, args@[1]@) && inv.folder@
            == args@[2]@,
        invocation matches Ok(inv) ==> (inv.command is Scan <==> args@[1]@ == "scan"@) && (
        inv.command is Check <==> args@[1]@ == "check"@),
{
    if args.len() < 3 {
        return Err(GuardianError::MissingArguments);
    }
    let word = &args[1];
    let command = if *word == "scan".to_owned() {
        CommandKind::Scan
    } else if *word == "check".to_owned() {
        CommandKind::Check
    } else {
        CommandKind::Unknown(word.clone())
    };
    proof {
        lemma_command_words(command, word@);
    }
    Ok(Invocation { command, folder: args[2].clone() })
}

/// The password typed on a line: the line without surrounding whitespace,
/// refused when nothing is left.
pub fn password_from_line(line: &str) -> (password: Result<String, GuardianError>)
    ensures
        password is Ok <==> trim_whitespace(line@).len() > 0,
        password matches Ok(p) ==> p@ == trim_whitespace(line@),
        password matches Err(e) ==> e is EmptyPassword,
{
    let trimmed = str_trim(line);
    if trimmed.is_empty() {
        Err(GuardianError::EmptyPassword)
    } else {
        Ok(trimmed.to_owned())
    }
}

} // verus!
