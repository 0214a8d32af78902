//! What the command line says.
use vstd::prelude::*;
use vstd::string::*;
use crate::command;
use crate::command::{parse_command, Command, ParseError, ParseFailure, Response, ResponseSpec};
use crate::error::DBError;
use crate::text;

verus! {

/// The greeting.
pub fn banner() -> (s: &'static str)
    ensures
        s@ == "ceredb CLI REPL (SET/GET/DELETE). Type EXIT to quit."@,
{
    "ceredb CLI REPL (SET/GET/DELETE). Type EXIT to quit."
}

/// The text of an answer that carries no value.
pub open spec fn response_text(r: ResponseSpec) -> Seq<char> {
    match r {
        ResponseSpec::Okay => "OK"@,
        ResponseSpec::Nil => "(nil)"@,
        ResponseSpec::Bye => "bye"@,
        ResponseSpec::Value(_) => ""@,
    }
}

/// The text of an answer that carries no value.
pub fn format_response(response: &Response) -> (s: &'static str)
    ensures
        s@ == response_text(response@),
{
    match response {
        Response::Okay => "OK",
        Response::Nil => "(nil)",
        Response::Bye => "bye",
        Response::Value(_) => "",
    }
}

/// What a line that is no command is answered with; an empty one is not answered.
pub open spec fn failure_line(e: ParseFailure) -> Option<Seq<char>> {
    match e {
        ParseFailure::Empty => None,
        ParseFailure::UnknownCommand(c) => Some("ERR unknown command: "@ + c),
        ParseFailure::InvalidArity { command: _, expected } => Some("ERR usage: "@ + expected),
        ParseFailure::UnterminatedQuotedValue => Some("ERR unterminated quoted value"@),
    }
}

/// What a line that is no command is answered with.
pub fn format_parse_error(e: &ParseError) -> (line: Option<String>)
    ensures
        match line {
            Some(l) => failure_line(e@) == Some(l@),
            None => failure_line(e@) is None,
        },
{
    match e {
        ParseError::Empty => None,
        ParseError::UnknownCommand(c) => {
            let mut line = "ERR unknown command: ".to_owned();
            line.append(c.as_str());
            Some(line)
        },
        ParseError::InvalidArity { command: _, expected } => {
            let mut line = "ERR usage: ".to_owned();
            line.append(expected);
            Some(line)
        },
        ParseError::UnterminatedQuotedValue => Some("ERR unterminated quoted value".to_owned()),
    }
}

/// What to do with a line that was read.
pub enum ReplInput {
    /// Run the command.
    Run(Command),
    /// Print this.
    Print(String),
    /// Nothing.
    Skip,
}

/// What to do with a line that was read.
pub fn read_input(line: &str) -> (r: ReplInput)
    ensures
        match command::parsed(line@) {
            Ok(c) => r matches ReplInput::Run(found) && found@ == c,
            Err(e) => match failure_line(e) {
                Some(text) => r matches ReplInput::Print(l) && l@ == text,
                None => r is Skip,
            },
        },
{
    match parse_command(line) {
        Ok(c) => ReplInput::Run(c),
        Err(e) => match format_parse_error(&e) {
            Some(l) => ReplInput::Print(l),
            None => ReplInput::Skip,
        },
    }
}

/// What a command is answered with, and whether that is the last answer.
pub fn format_result(result: &Result<Response, DBError>) -> (r: (String, bool))
    ensures
        match result {
            Ok(response) => {
                &&& r.0@ == match response@ {
                    ResponseSpec::Value(v) => v,
                    other => response_text(other),
                }
                &&& r.1 == (response@ is Bye)
            },
            Err(e) => r.0@ == "ERR "@ + e@.text() && !r.1,
        },
{
    match result {
        Ok(response) => match response {
            Response::Value(v) => (v.clone(), false),
            other => (format_response(other).to_owned(), matches!(other, Response::Bye)),
        },
        Err(e) => {
            let mut line = "ERR ".to_owned();
            line.append(e.describe().as_str());
            (line, false)
        },
    }
}

/// A line that is no command is answered with what is wrong with it: the word that names
/// no command, or how the command is used. An empty line alone is not answered.
pub proof fn law_failure_is_named(e: ParseFailure)
    ensures
        failure_line(e) is None <==> e is Empty,
        failure_line(e) matches Some(line) ==> text::has_prefix(line, "ERR "@),
        e matches ParseFailure::UnknownCommand(word) ==> text::has_suffix(
            failure_line(e)->0,
            word,
        ),
        e matches ParseFailure::InvalidArity { command, expected } ==> text::has_suffix(
            failure_line(e)->0,
            expected,
        ),
{
    reveal_strlit("ERR ");
    reveal_strlit("ERR unknown command: ");
    reveal_strlit("ERR usage: ");
    reveal_strlit("ERR unterminated quoted value");
    if let Some(line) = failure_line(e) {
        assert(line.take(4) =~= "ERR "@);
    }
    match e {
        ParseFailure::UnknownCommand(word) => {
            text::law_prefix_and_suffix("ERR unknown command: "@, word, word);
        },
        ParseFailure::InvalidArity { command: _, expected } => {
            text::law_prefix_and_suffix("ERR usage: "@, expected, expected);
        },
        _ => {},
    }
}

/// The answers that carry no value are told apart by their texts, and none of these is
/// empty.
pub proof fn law_answers_told_apart(a: ResponseSpec, b: ResponseSpec)
    requires
        !(a is Value),
        !(b is Value),
        response_text(a) == response_text(b),
    ensures
        a == b,
        response_text(a).len() > 0,
{
    reveal_strlit("OK");
    reveal_strlit("(nil)");
    reveal_strlit("bye");
}

} // verus!
