//! The commands of the interactive shell: one line, split into words at
//! whitespace, names a command and its argument.

use crate::bytes_order::{compare_bytes, Comparison};
use crate::document::{document_tokens, tokens};
use crate::inverted_index::{lemma_term_bytes_injective, term_bytes};
use vstd::prelude::*;

verus! {

/// A command line of the shell.
#[derive(Debug, PartialEq, Eq)]
pub enum Command {
    /// `build <corpus>`: index the corpus file and publish it.
    Build(String),
    /// `lookup <term>`: print the term's postings and the lookup report.
    Lookup(String),
    /// `lookup-stats <term>`: print only the lookup report.
    LookupStats(String),
    /// A line without words.
    Empty,
    /// Anything else.
    Unknown,
}

/// Whether `command` is what the words `words` of a line say.
pub open spec fn command_of(command: Command, words: Seq<Seq<char>>) -> bool {
    if words.len() == 0 {
        command == Command::Empty
    } else if words.len() == 2 && words[0] == "build"@ {
        command matches Command::Build(argument) && argument@ == words[1]
    } else if words.len() == 2 && words[0] == "lookup"@ {
        command matches Command::Lookup(argument) && argument@ == words[1]
    } else if words.len() == 2 && words[0] == "lookup-stats"@ {
        command matches Command::LookupStats(argument) && argument@ == words[1]
    } else {
        command == Command::Unknown
    }
}

/// Whether two texts are equal.
fn same_text(a: &str, b: &str) -> (same: bool)
    ensures
        same == (a@ == b@),
{
    let same = compare_bytes(a.as_bytes(), b.as_bytes()) == Comparison::Equal;
    proof {
        lemma_term_bytes_injective(a@, b@);
    }
    same
}

/// Reads a command line.
pub fn parse_command(line: &str) -> (command: Command)
    ensures
        command_of(command, tokens(line@)),
{
    let words = document_tokens(line);
    if words.len() == 0 {
        return Command::Empty;
    }
    if words.len() != 2 {
        return Command::Unknown;
    }
    let name = words[0];
    let argument = words[1].to_owned();
    if same_text(name, "build") {
        Command::Build(argument)
    } else if same_text(name, "lookup") {
        Command::Lookup(argument)
    } else if same_text(name, "lookup-stats") {
        Command::LookupStats(argument)
    } else {
        Command::Unknown
    }
}


/// A line's words decide its command: no words make it empty; a command
/// takes exactly one argument, so any other number of words makes the line
/// unknown, whatever the first word is; and a command that is recognised
/// carries the second word as its argument, under the name the first word
/// gives.
pub proof fn lemma_command_words(command: Command, words: Seq<Seq<char>>)
    requires
        command_of(command, words),
    ensures
        command == Command::Empty <==> words.len() == 0,
        words.len() != 0 && words.len() != 2 ==> command == Command::Unknown,
        command matches Command::Build(argument) ==> words.len() == 2 && words[0] == "build"@
            && argument@ == words[1],
        command matches Command::Lookup(argument) ==> words.len() == 2 && words[0] == "lookup"@
            && argument@ == words[1],
        command matches Command::LookupStats(argument) ==> words.len() == 2 && words[0]
            == "lookup-stats"@ && argument@ == words[1],
        words.len() == 2 && words[0] != "build"@ && words[0] != "lookup"@ && words[0]
            != "lookup-stats"@ ==> command == Command::Unknown,
{
}

} // verus!
