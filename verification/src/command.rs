//! The two invocations the tool accepts, read from the argument list.

use vstd::prelude::*;

verus! {

/// What lowercasing a character sequence yields: a function of the
/// characters alone.
pub uninterp spec fn lower_of(s: Seq<char>) -> Seq<char>;

/// Relies on str::to_lowercase: the result depends on the characters
/// alone.
#[verifier::external_body]
fn lowercase(s: &str) -> (r: String)
    ensures
        r@ == lower_of(s@),
{
    s.to_lowercase()
}

/// A parsed invocation: stage a path, or commit with a message.
#[derive(Debug, Clone, PartialEq, Eq)]
pub enum Command {
    Add(String),
    Commit(String),
}

/// Why an argument list is not an invocation.
#[derive(Debug, Clone, Copy, PartialEq, Eq, Structural)]
pub enum CommandError {
    /// Fewer or more arguments than a command word and its argument.
    MissingArguments,
    /// A command word that is neither `add` nor `commit`.
    UnknownCommand,
}

impl Command {
    /// Reads an invocation from the argument list: the program name, a
    /// command word in any letter case, and the command's one argument.
    pub fn parse(args: Vec<String>) -> (r: Result<Command, CommandError>)
        ensures
            args@.len() != 3 ==> r == Err::<Command, CommandError>(CommandError::MissingArguments),
            args@.len() == 3 ==> (match r {
                Ok(Command::Add(p)) => lower_of(args@[1]@) == "add"@ && p@ == args@[2]@,
                Ok(Command::Commit(m)) => lower_of(args@[1]@) == "commit"@ && m@ == args@[2]@,
                Err(e) => e == CommandError::UnknownCommand && lower_of(args@[1]@) != "add"@
                    && lower_of(args@[1]@) != "commit"@,
            }),
    {
        if args.len() != 3 {
            return Err(CommandError::MissingArguments);
        }
        let command = lowercase(args[1].as_str());
        let arguments = args[2].clone();
        if command == String::from_str("add") {
            Ok(Command::Add(arguments))
        } else if command == String::from_str("commit") {
            Ok(Command::Commit(arguments))
        } else {
            Err(CommandError::UnknownCommand)
        }
    }
}

} // verus!
