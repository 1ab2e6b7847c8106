use vstd::prelude::*;

verus! {

/// What the command line asks for.
#[derive(Debug, Clone, Copy, PartialEq, Eq, Structural)]
pub enum Command {
    /// No command was given.
    Missing,
    /// `init`: create a repository and ask for the database login.
    Init,
    /// `status`: compare the database with the staged and tracked tables.
    Status,
    /// `stage <schema.name>...`.
    Stage,
    /// `unstage <schema.name>...`.
    Unstage,
    /// `commit`: record the staged tables.
    Commit,
    /// `remove <schema.name>...`: stage the removal of tracked tables.
    Remove,
    /// `log`: list the commits.
    Log,
    /// Any other word.
    Invalid,
}

/// The command that a word names.
pub open spec fn command_for(word: Seq<char>) -> Command {
    if word == "init"@ {
        Command::Init
    } else if word == "status"@ {
        Command::Status
    } else if word == "stage"@ {
        Command::Stage
    } else if word == "unstage"@ {
        Command::Unstage
    } else if word == "commit"@ {
        Command::Commit
    } else if word == "remove"@ {
        Command::Remove
    } else if word == "log"@ {
        Command::Log
    } else {
        Command::Invalid
    }
}

/// Whether `word` is `name`.
fn is_word(word: &String, name: &str) -> (r: bool)
    ensures
        r == (word@ == name@),
{
    *word == String::from_str(name)
}

/// Picks the command from the program's arguments (the first one is the
/// program itself): `Missing` when there is no other, else the command
/// that the second one names. The arguments after it are the command's own.
pub fn select_command(args: &Vec<String>) -> (r: Command)
    requires
        args.len() >= 1,
    ensures
        r == if args.len() == 1 {
            Command::Missing
        } else {
            command_for(args@[1]@)
        },
{
    if args.len() == 1 {
        return Command::Missing;
    }
    let word = &args[1];
    if is_word(word, "init") {
        Command::Init
    } else if is_word(word, "status") {
        Command::Status
    } else if is_word(word, "stage") {
        Command::Stage
    } else if is_word(word, "unstage") {
        Command::Unstage
    } else if is_word(word, "commit") {
        Command::Commit
    } else if is_word(word, "remove") {
        Command::Remove
    } else if is_word(word, "log") {
        Command::Log
    } else {
        Command::Invalid
    }
}

} // verus!
