//! Commands as text: reading them and running them.
use vstd::prelude::*;
use vstd::string::*;
use crate::api::api::KVEngine;
use crate::bytes;
use crate::error::DBError;
use crate::text;

verus! {

/// A command.
#[derive(Debug, PartialEq, Eq)]
pub enum Command {
    SetKey { key: String, value: String },
    Get { key: String },
    Delete { key: String },
    Exit,
}

/// What a command says.
pub enum CommandSpec {
    SetKey { key: Seq<char>, value: Seq<char> },
    Get { key: Seq<char> },
    Delete { key: Seq<char> },
    Exit,
}

impl View for Command {
    type V = CommandSpec;

    open spec fn view(&self) -> CommandSpec {
        match self {
            Command::SetKey { key, value } => CommandSpec::SetKey { key: key@, value: value@ },
            Command::Get { key } => CommandSpec::Get { key: key@ },
            Command::Delete { key } => CommandSpec::Delete { key: key@ },
            Command::Exit => CommandSpec::Exit,
        }
    }
}

/// The answer to a command.
#[derive(Debug, PartialEq, Eq)]
pub enum Response {
    Okay,
    Value(String),
    Nil,
    Bye,
}

/// What an answer says.
pub enum ResponseSpec {
    Okay,
    Value(Seq<char>),
    Nil,
    Bye,
}

impl View for Response {
    type V = ResponseSpec;

    open spec fn view(&self) -> ResponseSpec {
        match self {
            Response::Okay => ResponseSpec::Okay,
            Response::Value(v) => ResponseSpec::Value(v@),
            Response::Nil => ResponseSpec::Nil,
            Response::Bye => ResponseSpec::Bye,
        }
    }
}

/// Why a text is no command.
#[derive(Debug, PartialEq, Eq)]
pub enum ParseError {
    Empty,
    UnterminatedQuotedValue,
    UnknownCommand(String),
    InvalidArity { command: String, expected: &'static str },
}

/// Why a text is no command.
pub enum ParseFailure {
    Empty,
    UnterminatedQuotedValue,
    UnknownCommand(Seq<char>),
    InvalidArity { command: Seq<char>, expected: Seq<char> },
}

impl View for ParseError {
    type V = ParseFailure;

    open spec fn view(&self) -> ParseFailure {
        match self {
            ParseError::Empty => ParseFailure::Empty,
            ParseError::UnterminatedQuotedValue => ParseFailure::UnterminatedQuotedValue,
            ParseError::UnknownCommand(c) => ParseFailure::UnknownCommand(c@),
            ParseError::InvalidArity { command, expected } => ParseFailure::InvalidArity {
                command: command@,
                expected: expected@,
            },
        }
    }
}

/// How far the splitting of a text has got.
#[verifier::ext_equal]
pub struct Scan {
    /// The parts so far.
    pub tokens: Seq<Seq<char>>,
    /// The part that has been begun.
    pub current: Seq<char>,
    /// The quote that the part stands in.
    pub quote: Option<char>,
    /// The character before was a backslash inside quotes.
    pub escape: bool,
}

impl Scan {
    /// Nothing split yet.
    pub open spec fn start() -> Scan {
        Scan { tokens: seq![], current: seq![], quote: None, escape: false }
    }

    /// The part that has been begun is complete.
    pub open spec fn ended(self) -> Scan {
        Scan { tokens: self.tokens.push(self.current), current: seq![], ..self }
    }

    /// The part that has been begun, unless it is empty, is complete.
    pub open spec fn cut(self) -> Scan {
        if self.current.len() == 0 {
            self
        } else {
            self.ended()
        }
    }

    /// One more character. Inside quotes a backslash takes the next character as it
    /// is, and the same quote ends the part; outside, a quote begins a part and white
    /// space separates parts.
    pub open spec fn with(self, ch: char) -> Scan {
        match self.quote {
            Some(quote) => if self.escape {
                Scan { current: self.current.push(ch), escape: false, ..self }
            } else if ch == '\\' {
                Scan { escape: true, ..self }
            } else if ch == quote {
                Scan { quote: None, ..self.ended() }
            } else {
                Scan { current: self.current.push(ch), ..self }
            },
            None => if ch == '"' || ch == '\'' {
                Scan { quote: Some(ch), ..self.cut() }
            } else if text::white_space(ch) {
                self.cut()
            } else {
                Scan { current: self.current.push(ch), ..self }
            },
        }
    }
}

/// Characters one after the other.
pub open spec fn scanned(s: Seq<char>) -> Scan
    decreases s.len(),
{
    if s.len() == 0 {
        Scan::start()
    } else {
        scanned(s.drop_last()).with(s.last())
    }
}

/// The parts of a text. A quote that is not closed is an error.
pub open spec fn tokens_of(s: Seq<char>) -> Result<Seq<Seq<char>>, ParseFailure> {
    let end = scanned(text::trimmed(s));
    if end.quote is Some {
        Err(ParseFailure::UnterminatedQuotedValue)
    } else {
        Ok(end.cut().tokens)
    }
}

/// The texts of strings.
pub open spec fn token_texts(tokens: Seq<String>) -> Seq<Seq<char>> {
    Seq::new(tokens.len(), |i: int| tokens[i]@)
}

/// Ends the part that has been begun.
fn end_part(tokens: &mut Vec<String>, current: &mut Vec<char>)
    ensures
        token_texts(final(tokens)@) == token_texts(old(tokens)@).push(old(current)@),
        final(current)@ == Seq::<char>::empty(),
{
    let ghost before = token_texts(tokens@);
    tokens.push(text::string_of(current.as_slice()));
    assert(token_texts(tokens@) =~= before.push(current@));
    current.clear();
    assert(current@ =~= Seq::<char>::empty());
}

/// The parts of a text.
pub fn tokenize(input: &str) -> (r: Result<Vec<String>, ParseError>)
    ensures
        match r {
            Ok(tokens) => tokens_of(input@) == Ok::<_, ParseFailure>(token_texts(tokens@)),
            Err(e) => tokens_of(input@) == Err::<Seq<Seq<char>>, _>(e@),
        },
{
    let chars: Vec<char> = text::trim_chars(input);
    let ghost all = text::trimmed(input@);
    let mut tokens: Vec<String> = Vec::new();
    let mut current: Vec<char> = Vec::new();
    let mut quote: Option<char> = None;
    let mut escape: bool = false;
    let mut i: usize = 0;
    proof {
        assert(all.take(0) =~= seq![]);
        assert(token_texts(tokens@) =~= seq![]);
        assert(current@ =~= seq![]);
    }
    while i < chars.len()
        invariant
            i <= chars@.len(),
            all == chars@,
            scanned(all.take(i as int)) == (Scan {
                tokens: token_texts(tokens@),
                current: current@,
                quote,
                escape,
            }),
        decreases chars@.len() - i,
    {
        let ch: char = chars[i];
        let ghost before = scanned(all.take(i as int));
        proof {
            assert(all.take(i + 1).drop_last() =~= all.take(i as int));
            assert(all.take(i + 1).last() == ch);
        }
        match quote {
            Some(q) => {
                if escape {
                    current.push(ch);
                    escape = false;
                } else if ch == '\\' {
                    escape = true;
                } else if ch == q {
                    quote = None;
                    end_part(&mut tokens, &mut current);
                } else {
                    current.push(ch);
                }
            },
            None => {
                if ch == '"' || ch == '\'' {
                    if current.len() > 0 {
                        end_part(&mut tokens, &mut current);
                    }
                    quote = Some(ch);
                } else if text::is_white_space(ch) {
                    if current.len() > 0 {
                        end_part(&mut tokens, &mut current);
                    }
                } else {
                    current.push(ch);
                }
            },
        }
        assert(before.with(ch) =~= (Scan {
            tokens: token_texts(tokens@),
            current: current@,
            quote,
            escape,
        }));
        i = i + 1;
    }
    assert(all.take(i as int) =~= all);
    if quote.is_some() {
        return Err(ParseError::UnterminatedQuotedValue);
    }
    if current.len() > 0 {
        end_part(&mut tokens, &mut current);
    }
    Ok(tokens)
}

/// The failure for a command with the wrong number of parts.
pub open spec fn bad_arity(command: Seq<char>, expected: Seq<char>) -> ParseFailure {
    ParseFailure::InvalidArity { command, expected }
}

/// The command that parts make, where `keyword` is the first one in upper case.
pub open spec fn command_of(keyword: Seq<char>, tokens: Seq<Seq<char>>) -> Result<
    CommandSpec,
    ParseFailure,
> {
    if keyword == "SET"@ {
        if tokens.len() == 3 {
            Ok(CommandSpec::SetKey { key: tokens[1], value: tokens[2] })
        } else {
            Err(bad_arity("SET"@, "SET <key> <value>"@))
        }
    } else if keyword == "GET"@ {
        if tokens.len() == 2 {
            Ok(CommandSpec::Get { key: tokens[1] })
        } else {
            Err(bad_arity("GET"@, "GET <key>"@))
        }
    } else if keyword == "DELETE"@ || keyword == "DEL"@ {
        if tokens.len() == 2 {
            Ok(CommandSpec::Delete { key: tokens[1] })
        } else {
            Err(bad_arity(keyword, "DELETE <key> (or DEL <key>)"@))
        }
    } else if keyword == "EXIT"@ || keyword == "QUIT"@ {
        Ok(CommandSpec::Exit)
    } else {
        Err(ParseFailure::UnknownCommand(tokens[0]))
    }
}

/// The command that parts make, where `keyword` is the first one in upper case.
pub fn build_command(keyword: String, tokens: &Vec<String>) -> (r: Result<Command, ParseError>)
    requires
        tokens@.len() > 0,
    ensures
        match r {
            Ok(c) => command_of(keyword@, token_texts(tokens@)) == Ok::<_, ParseFailure>(c@),
            Err(e) => command_of(keyword@, token_texts(tokens@)) == Err::<CommandSpec, _>(e@),
        },
{
    let word = keyword.as_str();
    if text::same_text(word, "SET") {
        if tokens.len() != 3 {
            return Err(
                ParseError::InvalidArity {
                    command: "SET".to_owned(),
                    expected: "SET <key> <value>",
                },
            );
        }
        return Ok(Command::SetKey { key: tokens[1].clone(), value: tokens[2].clone() });
    }
    if text::same_text(word, "GET") {
        if tokens.len() != 2 {
            return Err(
                ParseError::InvalidArity { command: "GET".to_owned(), expected: "GET <key>" },
            );
        }
        return Ok(Command::Get { key: tokens[1].clone() });
    }
    if text::same_text(word, "DELETE") || text::same_text(word, "DEL") {
        if tokens.len() != 2 {
            return Err(
                ParseError::InvalidArity {
                    command: keyword,
                    expected: "DELETE <key> (or DEL <key>)",
                },
            );
        }
        return Ok(Command::Delete { key: tokens[1].clone() });
    }
    if text::same_text(word, "EXIT") || text::same_text(word, "QUIT") {
        return Ok(Command::Exit);
    }
    Err(ParseError::UnknownCommand(tokens[0].clone()))
}

/// What a text is as a command.
pub open spec fn parsed(s: Seq<char>) -> Result<CommandSpec, ParseFailure> {
    match tokens_of(s) {
        Err(e) => Err(e),
        Ok(tokens) => if tokens.len() == 0 {
            Err(ParseFailure::Empty)
        } else {
            command_of(text::upper(tokens[0]), tokens)
        },
    }
}

/// Reads a command. The name of the command may be in lower or upper case.
pub fn parse_command(input: &str) -> (r: Result<Command, ParseError>)
    ensures
        match r {
            Ok(c) => parsed(input@) == Ok::<_, ParseFailure>(c@),
            Err(e) => parsed(input@) == Err::<CommandSpec, _>(e@),
        },
{
    let tokens: Vec<String> = match tokenize(input) {
        Err(e) => {
            return Err(e);
        },
        Ok(tokens) => tokens,
    };
    if tokens.len() == 0 {
        return Err(ParseError::Empty);
    }
    let keyword: String = text::to_uppercase(tokens[0].as_str());
    assert(token_texts(tokens@)[0] == tokens@[0]@);
    build_command(keyword, &tokens)
}

/// A command is the same, whatever the case of its name. Of a name that is no command,
/// the failure repeats the name as it was written.
pub proof fn law_keyword_case(tokens: Seq<Seq<char>>)
    requires
        tokens.len() > 0,
        text::ascii(tokens[0]),
    ensures
        command_of(
            text::upper(text::lower(tokens[0])),
            tokens.update(0, text::lower(tokens[0])),
        ) == (match command_of(text::upper(tokens[0]), tokens) {
            Err(ParseFailure::UnknownCommand(_)) => Err(
                ParseFailure::UnknownCommand(text::lower(tokens[0])),
            ),
            other => other,
        }),
{
    text::law_upper_of_lower(tokens[0]);
}

/// The state after more characters.
pub open spec fn scanned_from(at: Scan, s: Seq<char>) -> Scan
    decreases s.len(),
{
    if s.len() == 0 {
        at
    } else {
        scanned_from(at, s.drop_last()).with(s.last())
    }
}

proof fn lemma_scan_start(s: Seq<char>)
    ensures
        scanned(s) == scanned_from(Scan::start(), s),
    decreases s.len(),
{
    if s.len() > 0 {
        lemma_scan_start(s.drop_last());
    }
}

/// A text that can stand without quotes: it is not empty, and it has neither white space
/// nor quotes.
pub open spec fn bare(s: Seq<char>) -> bool {
    &&& s.len() > 0
    &&& forall|i: int|
        0 <= i < s.len() ==> !text::white_space(#[trigger] s[i]) && s[i] != '"' && s[i] != '\''
}

proof fn lemma_scan_bare(at: Scan, s: Seq<char>)
    requires
        at.quote is None,
        s.len() == 0 || bare(s),
    ensures
        scanned_from(at, s) == (Scan { current: at.current + s, ..at }),
    decreases s.len(),
{
    if s.len() == 0 {
        assert(at.current + s =~= at.current);
    } else {
        let t = s.drop_last();
        assert forall|i: int| 0 <= i < t.len() implies !text::white_space(#[trigger] t[i]) && t[i]
            != '"' && t[i] != '\'' by {
            assert(t[i] == s[i]);
        }
        lemma_scan_bare(at, t);
        let c = s[s.len() - 1];
        assert(s.last() == c);
        assert((at.current + t).push(c) =~= at.current + s);
    }
}

/// A text as it is written between double quotes: a backslash stands before each double
/// quote and each backslash.
pub open spec fn escaped(s: Seq<char>) -> Seq<char>
    decreases s.len(),
{
    if s.len() == 0 {
        seq![]
    } else {
        let c = s.last();
        if c == '"' || c == '\\' {
            escaped(s.drop_last()) + seq!['\\', c]
        } else {
            escaped(s.drop_last()).push(c)
        }
    }
}

/// A text in double quotes.
pub open spec fn quoted(s: Seq<char>) -> Seq<char> {
    seq!['"'] + escaped(s) + seq!['"']
}

proof fn lemma_scan_two(at: Scan, s: Seq<char>, a: char, b: char)
    ensures
        scanned_from(at, s + seq![a, b]) == scanned_from(at, s).with(a).with(b),
{
    let t = s + seq![a, b];
    assert(t.drop_last() =~= s.push(a));
    assert(s.push(a).drop_last() =~= s);
    assert(t.last() == b);
    assert(s.push(a).last() == a);
    assert(scanned_from(at, s.push(a)) == scanned_from(at, s).with(a));
}

/// A text as it is written between quotes of one kind: a backslash stands before each
/// such quote and each backslash.
pub open spec fn escaped_for(s: Seq<char>, quote: char) -> Seq<char>
    decreases s.len(),
{
    if s.len() == 0 {
        seq![]
    } else {
        let c = s.last();
        if c == quote || c == '\\' {
            escaped_for(s.drop_last(), quote) + seq!['\\', c]
        } else {
            escaped_for(s.drop_last(), quote).push(c)
        }
    }
}

proof fn lemma_escaped(s: Seq<char>)
    ensures
        escaped(s) == escaped_for(s, '"'),
    decreases s.len(),
{
    if s.len() > 0 {
        lemma_escaped(s.drop_last());
    }
}

proof fn lemma_scan_escaped(at: Scan, s: Seq<char>, quote: char)
    requires
        at.quote == Some(quote),
        quote != '\\',
        !at.escape,
    ensures
        scanned_from(at, escaped_for(s, quote)) == (Scan { current: at.current + s, ..at }),
    decreases s.len(),
{
    if s.len() == 0 {
        assert(at.current + s =~= at.current);
    } else {
        let (front, c) = (s.drop_last(), s.last());
        lemma_scan_escaped(at, front, quote);
        assert((at.current + front).push(c) =~= at.current + s);
        if c == quote || c == '\\' {
            lemma_scan_two(at, escaped_for(front, quote), '\\', c);
        } else {
            assert(escaped_for(front, quote).push(c).drop_last() =~= escaped_for(front, quote));
            assert(escaped_for(front, quote).push(c).last() == c);
        }
    }
}

proof fn lemma_scan_concat(at: Scan, a: Seq<char>, b: Seq<char>)
    ensures
        scanned_from(at, a + b) == scanned_from(scanned_from(at, a), b),
    decreases b.len(),
{
    if b.len() == 0 {
        assert(a + b =~= a);
    } else {
        lemma_scan_concat(at, a, b.drop_last());
        assert((a + b).drop_last() =~= a + b.drop_last());
        assert((a + b).last() == b.last());
    }
}

proof fn lemma_scan_one(at: Scan, c: char)
    ensures
        scanned_from(at, seq![c]) == at.with(c),
{
    assert(seq![c].drop_last() =~= Seq::<char>::empty());
    assert(scanned_from(at, Seq::<char>::empty()) == at);
}

/// Any value can be set: written in quotes, it is read as it is.
pub proof fn law_quoted_value(key: Seq<char>, value: Seq<char>)
    requires
        bare(key),
    ensures
        parsed("SET "@ + key + seq![' '] + quoted(value)) == Ok::<_, ParseFailure>(
            CommandSpec::SetKey { key, value },
        ),
{
    reveal_strlit("SET ");
    reveal_strlit("SET");
    let head = "SET"@;
    let line = "SET "@ + key + seq![' '] + quoted(value);
    // There is nothing to trim.
    assert(line[0] == 'S');
    assert(line.last() == '"');
    assert(text::trimmed(line) == line);
    // Part by part.
    let empty = Seq::<Seq<char>>::empty();
    let none = Seq::<char>::empty();
    let s0 = Scan::start();
    let s1 = Scan { tokens: empty, current: head, quote: None, escape: false };
    let s2 = Scan { tokens: seq![head], current: none, quote: None, escape: false };
    let s3 = Scan { tokens: seq![head], current: key, quote: None, escape: false };
    let s4 = Scan { tokens: seq![head, key], current: none, quote: None, escape: false };
    let s5 = Scan { tokens: seq![head, key], current: none, quote: Some('"'), escape: false };
    let s6 = Scan { tokens: seq![head, key], current: value, quote: Some('"'), escape: false };
    let s7 = Scan { tokens: seq![head, key, value], current: none, quote: None, escape: false };
    assert(bare(head));
    lemma_scan_bare(s0, head);
    assert(s0.current + head =~= head);
    assert(scanned_from(s0, head) =~= s1);
    assert(s1.with(' ') =~= s2) by {
        assert(empty.push(head) =~= seq![head]);
    }
    lemma_scan_bare(s2, key);
    assert(none + key =~= key);
    assert(s3.with(' ') =~= s4) by {
        assert(seq![head].push(key) =~= seq![head, key]);
    }
    assert(s4.with('"') =~= s5);
    lemma_scan_escaped(s5, value, '"');
    lemma_escaped(value);
    assert(none + value =~= value);
    assert(s6.with('"') =~= s7) by {
        assert(seq![head, key].push(value) =~= seq![head, key, value]);
    }
    let parts = head + (seq![' '] + (key + (seq![' '] + (seq!['"'] + (escaped(value) + seq!['"'])))));
    assert(line =~= parts);
    lemma_scan_start(parts);
    lemma_scan_concat(s0, head, parts.skip(3));
    assert(head + parts.skip(3) =~= parts);
    assert(parts.skip(3) =~= seq![' '] + (key + (seq![' '] + (seq!['"'] + (escaped(value)
        + seq!['"'])))));
    lemma_scan_concat(s1, seq![' '], key + (seq![' '] + (seq!['"'] + (escaped(value)
        + seq!['"']))));
    lemma_scan_one(s1, ' ');
    lemma_scan_concat(s2, key, seq![' '] + (seq!['"'] + (escaped(value) + seq!['"'])));
    lemma_scan_concat(s3, seq![' '], seq!['"'] + (escaped(value) + seq!['"']));
    lemma_scan_one(s3, ' ');
    lemma_scan_concat(s4, seq!['"'], escaped(value) + seq!['"']);
    lemma_scan_one(s4, '"');
    lemma_scan_concat(s5, escaped(value), seq!['"']);
    lemma_scan_one(s6, '"');
    assert(scanned(line) == s7);
    assert(tokens_of(line) == Ok::<_, ParseFailure>(seq![head, key, value]));
    assert(text::upper(head) =~= head);
}

/// A value that was set as a text is shown as that text.
pub proof fn law_value_shown(value: Seq<char>)
    ensures
        text::utf8_lossy(vstd::utf8::encode_utf8(value)) == value,
{
    vstd::utf8::encode_utf8_valid_utf8(value);
    vstd::utf8::encode_utf8_decode_utf8(value);
}

/// What a command asks of a store.
pub enum EngineCall {
    Put(Vec<u8>, Vec<u8>),
    Get(Vec<u8>),
    Delete(Vec<u8>),
    Nothing,
}

/// What a command asks of a store.
pub enum EngineCallSpec {
    Put(Seq<u8>, Seq<u8>),
    Get(Seq<u8>),
    Delete(Seq<u8>),
    Nothing,
}

impl View for EngineCall {
    type V = EngineCallSpec;

    open spec fn view(&self) -> EngineCallSpec {
        match self {
            EngineCall::Put(k, v) => EngineCallSpec::Put(k@, v@),
            EngineCall::Get(k) => EngineCallSpec::Get(k@),
            EngineCall::Delete(k) => EngineCallSpec::Delete(k@),
            EngineCall::Nothing => EngineCallSpec::Nothing,
        }
    }
}

/// What a command asks of a store: keys and values as UTF-8.
pub open spec fn call_of(c: CommandSpec) -> EngineCallSpec {
    match c {
        CommandSpec::SetKey { key, value } => EngineCallSpec::Put(
            vstd::utf8::encode_utf8(key),
            vstd::utf8::encode_utf8(value),
        ),
        CommandSpec::Get { key } => EngineCallSpec::Get(vstd::utf8::encode_utf8(key)),
        CommandSpec::Delete { key } => EngineCallSpec::Delete(vstd::utf8::encode_utf8(key)),
        CommandSpec::Exit => EngineCallSpec::Nothing,
    }
}

/// What a command asks of a store.
pub fn engine_call(command: &Command) -> (call: EngineCall)
    ensures
        call@ == call_of(command@),
{
    match command {
        Command::SetKey { key, value } => EngineCall::Put(
            bytes::copy_bytes(key.as_str().as_bytes()),
            bytes::copy_bytes(value.as_str().as_bytes()),
        ),
        Command::Get { key } => EngineCall::Get(bytes::copy_bytes(key.as_str().as_bytes())),
        Command::Delete { key } => EngineCall::Delete(bytes::copy_bytes(key.as_str().as_bytes())),
        Command::Exit => EngineCall::Nothing,
    }
}

/// The answer to a change, from what the store said.
pub fn change_response(outcome: Result<(), DBError>) -> (r: Result<Response, DBError>)
    ensures
        answers_change(outcome, r),
{
    match outcome {
        Ok(()) => Ok(Response::Okay),
        Err(e) => Err(e),
    }
}

/// `r` is the answer to a change that ended with `outcome`.
pub open spec fn answers_change(
    outcome: Result<(), DBError>,
    r: Result<Response, DBError>,
) -> bool {
    match outcome {
        Ok(()) => r matches Ok(Response::Okay),
        Err(e) => r == Err::<Response, _>(e),
    }
}

/// The answer to a lookup, from what the store said: the value as text.
pub fn value_response(outcome: Result<Option<Vec<u8>>, DBError>) -> (r: Result<Response, DBError>)
    ensures
        answers_lookup(outcome, r),
{
    match outcome {
        Ok(Some(value)) => Ok(Response::Value(text::from_utf8_lossy(value.as_slice()))),
        Ok(None) => Ok(Response::Nil),
        Err(e) => Err(e),
    }
}

/// `r` is the answer to a lookup that ended with `outcome`.
pub open spec fn answers_lookup(
    outcome: Result<Option<Vec<u8>>, DBError>,
    r: Result<Response, DBError>,
) -> bool {
    match outcome {
        Ok(Some(value)) => r matches Ok(Response::Value(t)) && t@ == text::utf8_lossy(value@),
        Ok(None) => r matches Ok(Response::Nil),
        Err(e) => r == Err::<Response, _>(e),
    }
}

/// Setting a key was answered with `r`.
pub open spec fn put_answered<E: KVEngine>(
    before: E,
    key: Seq<u8>,
    value: Seq<u8>,
    after: E,
    r: Result<Response, DBError>,
) -> bool {
    exists|outcome: Result<(), DBError>| #[trigger]
        before.puts(key, value, &after, outcome) && answers_change(outcome, r)
}

/// Deleting a key was answered with `r`.
pub open spec fn delete_answered<E: KVEngine>(
    before: E,
    key: Seq<u8>,
    after: E,
    r: Result<Response, DBError>,
) -> bool {
    exists|outcome: Result<(), DBError>| #[trigger]
        before.deletes(key, &after, outcome) && answers_change(outcome, r)
}

/// Looking a key up was answered with `r`.
pub open spec fn get_answered<E: KVEngine>(
    engine: E,
    key: Seq<u8>,
    r: Result<Response, DBError>,
) -> bool {
    exists|outcome: Result<Option<Vec<u8>>, DBError>| #[trigger]
        engine.gets(key, outcome) && answers_lookup(outcome, r)
}

/// Runs a command on a store.
pub fn execute_command<E: KVEngine>(engine: &mut E, command: Command) -> (r: Result<
    Response,
    DBError,
>)
    ensures
        match call_of(command@) {
            EngineCallSpec::Put(key, value) => put_answered(
                *old(engine),
                key,
                value,
                *final(engine),
                r,
            ),
            EngineCallSpec::Get(key) => *final(engine) == *old(engine) && get_answered(
                *old(engine),
                key,
                r,
            ),
            EngineCallSpec::Delete(key) => delete_answered(*old(engine), key, *final(engine), r),
            EngineCallSpec::Nothing => *final(engine) == *old(engine) && (r matches Ok(
                Response::Bye,
            )),
        },
{
    let ghost before = *engine;
    match engine_call(&command) {
        EngineCall::Put(key, value) => {
            let ghost (k, v) = (key@, value@);
            let outcome = engine.put(key, value);
            let ghost o = outcome;
            let r = change_response(outcome);
            assert(before.puts(k, v, engine, o) && answers_change(o, r));
            assert(put_answered(before, k, v, *engine, r));
            r
        },
        EngineCall::Get(key) => {
            let outcome = engine.get(key.as_slice());
            let ghost o = outcome;
            let r = value_response(outcome);
            assert(before.gets(key@, o) && answers_lookup(o, r));
            assert(get_answered(before, key@, r));
            r
        },
        EngineCall::Delete(key) => {
            let ghost k = key@;
            let outcome = engine.delete(key);
            let ghost o = outcome;
            let r = change_response(outcome);
            assert(before.deletes(k, engine, o) && answers_change(o, r));
            assert(delete_answered(before, k, *engine, r));
            r
        },
        EngineCall::Nothing => Ok(Response::Bye),
    }
}

/// A part of a command as it is written: bare, or in quotes of one kind.
pub struct WrittenPart {
    pub text: Seq<char>,
    pub quote: Option<char>,
}

impl WrittenPart {
    /// The part can be written so.
    pub open spec fn ok(self) -> bool {
        match self.quote {
            None => bare(self.text),
            Some(quote) => quote == '"' || quote == '\'',
        }
    }

    /// The part as it is written.
    pub open spec fn written(self) -> Seq<char> {
        match self.quote {
            None => self.text,
            Some(quote) => seq![quote] + escaped_for(self.text, quote) + seq![quote],
        }
    }
}

/// Parts can be written.
pub open spec fn writable(parts: Seq<WrittenPart>) -> bool {
    forall|i: int| 0 <= i < parts.len() ==> (#[trigger] parts[i]).ok()
}

/// The texts of parts.
pub open spec fn part_texts(parts: Seq<WrittenPart>) -> Seq<Seq<char>> {
    Seq::new(parts.len(), |i: int| parts[i].text)
}

/// Parts written one after the other, with `gap` between them.
pub open spec fn line_of(parts: Seq<WrittenPart>, gap: Seq<char>) -> Seq<char>
    decreases parts.len(),
{
    if parts.len() == 0 {
        seq![]
    } else if parts.len() == 1 {
        parts[0].written()
    } else {
        line_of(parts.drop_last(), gap) + gap + parts.last().written()
    }
}

/// White space behind a part ends it, however much of it there is.
proof fn lemma_scan_gap(at: Scan, gap: Seq<char>)
    requires
        at.quote is None,
        text::blank(gap),
        gap.len() > 0,
    ensures
        scanned_from(at, gap) == at.cut(),
    decreases gap.len(),
{
    let (front, c) = (gap.drop_last(), gap.last());
    assert(gap[gap.len() - 1] == c);
    assert(!(c == '"' || c == '\''));
    if front.len() > 0 {
        assert forall|i: int| 0 <= i < front.len() implies text::white_space(
            #[trigger] front[i],
        ) by {
            assert(front[i] == gap[i]);
        }
        lemma_scan_gap(at, front);
    } else {
        assert(scanned_from(at, front) == at);
    }
}

/// A part is read where none has been begun.
proof fn lemma_scan_part(at: Scan, part: WrittenPart)
    requires
        part.ok(),
        at.quote is None,
        !at.escape,
        at.current.len() == 0,
    ensures
        ({
            let end = scanned_from(at, part.written());
            &&& end.quote is None
            &&& !end.escape
            &&& end.cut() == (Scan { tokens: at.tokens.push(part.text), ..at })
        }),
{
    match part.quote {
        None => {
            lemma_scan_bare(at, part.text);
            assert(at.current + part.text =~= part.text);
            let end = scanned_from(at, part.text);
            assert(end.cut() =~= (Scan { tokens: at.tokens.push(part.text), ..at }));
        },
        Some(quote) => {
            let open = Scan { quote: Some(quote), ..at };
            let body = escaped_for(part.text, quote);
            assert(part.written() =~= seq![quote] + (body + seq![quote]));
            lemma_scan_concat(at, seq![quote], body + seq![quote]);
            lemma_scan_one(at, quote);
            assert(at.with(quote) =~= open);
            lemma_scan_concat(open, body, seq![quote]);
            lemma_scan_escaped(open, part.text, quote);
            assert(at.current + part.text =~= part.text);
            let full = Scan { current: part.text, ..open };
            lemma_scan_one(full, quote);
            assert(full.with(quote) =~= (Scan { tokens: at.tokens.push(part.text), ..at }));
        },
    }
}

proof fn lemma_scan_line(parts: Seq<WrittenPart>, gap: Seq<char>)
    requires
        writable(parts),
        text::blank(gap),
        gap.len() > 0,
    ensures
        ({
            let end = scanned(line_of(parts, gap));
            &&& end.quote is None
            &&& !end.escape
            &&& end.cut() == (Scan { tokens: part_texts(parts), ..Scan::start() })
        }),
    decreases parts.len(),
{
    let line = line_of(parts, gap);
    lemma_scan_start(line);
    if parts.len() == 0 {
        assert(Scan::start().cut() =~= (Scan { tokens: part_texts(parts), ..Scan::start() }));
    } else if parts.len() == 1 {
        lemma_scan_part(Scan::start(), parts[0]);
        assert(Scan::start().tokens.push(parts[0].text) =~= part_texts(parts));
    } else {
        let (front, last) = (parts.drop_last(), parts.last());
        assert(parts[parts.len() - 1] == last);
        assert forall|i: int| 0 <= i < front.len() implies (#[trigger] front[i]).ok() by {
            assert(front[i] == parts[i]);
        }
        lemma_scan_line(front, gap);
        let before = line_of(front, gap);
        lemma_scan_start(before);
        let end = scanned(before);
        assert(line =~= before + (gap + last.written()));
        lemma_scan_concat(Scan::start(), before, gap + last.written());
        lemma_scan_concat(end, gap, last.written());
        lemma_scan_gap(end, gap);
        lemma_scan_part(end.cut(), last);
        assert(part_texts(front).push(last.text) =~= part_texts(parts));
    }
}

/// Neither end of a line is white space.
proof fn lemma_line_ends(parts: Seq<WrittenPart>, gap: Seq<char>)
    requires
        writable(parts),
        parts.len() > 0,
    ensures
        line_of(parts, gap).len() > 0,
        !text::white_space(line_of(parts, gap)[0]),
        !text::white_space(line_of(parts, gap).last()),
    decreases parts.len(),
{
    let (front, last) = (parts.drop_last(), parts.last());
    assert(parts[parts.len() - 1] == last);
    let w = last.written();
    assert(w.len() > 0 && !text::white_space(w[0]) && !text::white_space(w.last())) by {
        match last.quote {
            None => {
                assert(!text::white_space(last.text[0]));
                assert(!text::white_space(last.text[last.text.len() - 1]));
            },
            Some(quote) => {
                assert(w[0] == quote && w.last() == quote);
            },
        }
    }
    if parts.len() > 1 {
        assert forall|i: int| 0 <= i < front.len() implies (#[trigger] front[i]).ok() by {
            assert(front[i] == parts[i]);
        }
        lemma_line_ends(front, gap);
        let before = line_of(front, gap);
        assert((before + gap + w)[0] == before[0]);
        assert((before + gap + w).last() == w.last());
    }
}

/// The parts of a command are read as they were written: each may stand bare, if it can,
/// or in quotes of either kind, with white space between the parts and round the whole.
pub proof fn law_parts_read_back(
    parts: Seq<WrittenPart>,
    gap: Seq<char>,
    before: Seq<char>,
    after: Seq<char>,
)
    requires
        writable(parts),
        text::blank(gap),
        gap.len() > 0,
        text::blank(before),
        text::blank(after),
    ensures
        tokens_of(before + line_of(parts, gap) + after) == Ok::<_, ParseFailure>(
            part_texts(parts),
        ),
{
    if parts.len() > 0 {
        lemma_line_ends(parts, gap);
    }
    text::law_trimmed(before, line_of(parts, gap), after);
    lemma_scan_line(parts, gap);
}

/// A quote that is not closed makes a text no command.
pub proof fn law_open_quote_refused(
    parts: Seq<WrittenPart>,
    gap: Seq<char>,
    quote: char,
    rest: Seq<char>,
)
    requires
        writable(parts),
        text::blank(gap),
        gap.len() > 0,
        quote == '"' || quote == '\'',
        rest.len() > 0 ==> !text::white_space(rest.last()),
    ensures
        parsed(line_of(parts, gap) + seq![quote] + escaped_for(rest, quote)) == Err::<
            CommandSpec,
            _,
        >(ParseFailure::UnterminatedQuotedValue),
{
    let head = line_of(parts, gap);
    let body = escaped_for(rest, quote);
    let line = head + seq![quote] + body;
    if parts.len() > 0 {
        lemma_line_ends(parts, gap);
        assert(line[0] == head[0]);
    } else {
        assert(line[0] == quote);
    }
    if rest.len() > 0 {
        assert(body.last() == rest.last());
        assert(line.last() == body.last());
    } else {
        assert(line.last() == quote);
    }
    let none = Seq::<char>::empty();
    text::law_trimmed(none, line, none);
    assert(none + line + none =~= line);
    lemma_scan_line(parts, gap);
    lemma_scan_start(head);
    lemma_scan_start(line);
    let at = scanned(head);
    assert(line =~= head + (seq![quote] + body));
    lemma_scan_concat(Scan::start(), head, seq![quote] + body);
    lemma_scan_concat(at, seq![quote], body);
    lemma_scan_one(at, quote);
    let open = at.with(quote);
    assert(open.quote == Some(quote) && !open.escape);
    lemma_scan_escaped(open, rest, quote);
}

/// A word is a name whatever the case of its letters: each is that of the name, or the
/// same letter in lower case.
pub open spec fn spells(word: Seq<char>, name: Seq<char>) -> bool {
    &&& word.len() == name.len()
    &&& forall|i: int|
        0 <= i < word.len() ==> (#[trigger] word[i] == name[i] || word[i] as int == name[i] as int
            + ('a' as int - 'A' as int))
}

/// All characters are letters in upper case.
pub open spec fn capitals(s: Seq<char>) -> bool {
    forall|i: int| 0 <= i < s.len() ==> 'A' <= #[trigger] s[i] <= 'Z'
}

proof fn lemma_spells(word: Seq<char>, name: Seq<char>)
    requires
        capitals(name),
    ensures
        spells(word, name) ==> text::ascii(word) && text::upper(word) == name,
        text::ascii(word) && text::upper(word) == name ==> spells(word, name),
{
    if spells(word, name) {
        assert forall|i: int| 0 <= i < word.len() implies (#[trigger] word[i] as u32) < 128 by {
            lemma_small_char(word[i], name[i]);
        }
        text::law_case_letter_by_letter(word);
        assert forall|i: int| 0 <= i < word.len() implies text::upper(word)[i] == name[i] by {
            lemma_small_char(word[i], name[i]);
            assert(text::upper(word)[i] as int == name[i] as int);
        }
        assert(text::upper(word) =~= name);
    }
    if text::ascii(word) && text::upper(word) == name {
        text::law_case_letter_by_letter(word);
        assert forall|i: int| 0 <= i < word.len() implies (#[trigger] word[i] == name[i]
            || word[i] as int == name[i] as int + ('a' as int - 'A' as int)) by {
            assert(text::upper(word)[i] as int == name[i] as int);
        }
    }
}

proof fn lemma_small_char(c: char, capital: char)
    requires
        'A' <= capital <= 'Z',
        c == capital || c as int == capital as int + ('a' as int - 'A' as int),
    ensures
        (c as u32) < 128,
        c == capital || 'a' <= c <= 'z',
{
}

/// A line whose first part is `word`, and whose other parts are `rest`.
pub open spec fn line_with(
    word: Seq<char>,
    rest: Seq<WrittenPart>,
    gap: Seq<char>,
    before: Seq<char>,
    after: Seq<char>,
) -> Seq<char> {
    before + line_of(seq![WrittenPart { text: word, quote: None }] + rest, gap) + after
}

/// The word and the parts can be written in a line.
pub open spec fn line_ok(
    word: Seq<char>,
    rest: Seq<WrittenPart>,
    gap: Seq<char>,
    before: Seq<char>,
    after: Seq<char>,
) -> bool {
    &&& bare(word)
    &&& writable(rest)
    &&& text::blank(gap) && gap.len() > 0
    &&& text::blank(before) && text::blank(after)
}

proof fn lemma_line_parsed(
    word: Seq<char>,
    rest: Seq<WrittenPart>,
    gap: Seq<char>,
    before: Seq<char>,
    after: Seq<char>,
)
    requires
        line_ok(word, rest, gap, before, after),
    ensures
        parsed(line_with(word, rest, gap, before, after)) == command_of(
            text::upper(word),
            seq![word] + part_texts(rest),
        ),
{
    let parts = seq![WrittenPart { text: word, quote: None }] + rest;
    assert forall|i: int| 0 <= i < parts.len() implies (#[trigger] parts[i]).ok() by {
        if i > 0 {
            assert(parts[i] == rest[i - 1]);
        }
    }
    law_parts_read_back(parts, gap, before, after);
    assert(part_texts(parts) =~= seq![word] + part_texts(rest));
}

proof fn lemma_names()
    ensures
        capitals("SET"@),
        capitals("GET"@),
        capitals("DELETE"@),
        capitals("DEL"@),
        capitals("EXIT"@),
        capitals("QUIT"@),
        "SET"@ != "GET"@,
        "SET"@ != "DELETE"@,
        "SET"@ != "DEL"@,
        "SET"@ != "EXIT"@,
        "SET"@ != "QUIT"@,
        "GET"@ != "DELETE"@,
        "GET"@ != "DEL"@,
        "GET"@ != "EXIT"@,
        "GET"@ != "QUIT"@,
        "DELETE"@ != "EXIT"@,
        "DELETE"@ != "QUIT"@,
        "DEL"@ != "EXIT"@,
        "DEL"@ != "QUIT"@,
{
    reveal_strlit("SET");
    reveal_strlit("GET");
    reveal_strlit("DELETE");
    reveal_strlit("DEL");
    reveal_strlit("EXIT");
    reveal_strlit("QUIT");
    assert("SET"@[0] == 'S' && "GET"@[0] == 'G' && "DEL"@[0] == 'D');
    assert("DELETE"@[0] == 'D' && "EXIT"@[0] == 'E' && "QUIT"@[0] == 'Q');
}

/// A lookup reads as one of the very key that was written, whatever the case of its name;
/// it takes one key.
pub proof fn law_get_reads_key(
    word: Seq<char>,
    rest: Seq<WrittenPart>,
    gap: Seq<char>,
    before: Seq<char>,
    after: Seq<char>,
)
    requires
        line_ok(word, rest, gap, before, after),
        spells(word, "GET"@),
    ensures
        parsed(line_with(word, rest, gap, before, after)) == (if rest.len() == 1 {
            Ok(CommandSpec::Get { key: rest[0].text })
        } else {
            Err(
                ParseFailure::InvalidArity { command: "GET"@, expected: "GET <key>"@ },
            )
        }),
{
    lemma_names();
    lemma_spells(word, "GET"@);
    lemma_line_parsed(word, rest, gap, before, after);
}

/// A deletion reads as one of the very key that was written, under either of its names
/// and whatever their case; it takes one key.
pub proof fn law_delete_reads_key(
    word: Seq<char>,
    rest: Seq<WrittenPart>,
    gap: Seq<char>,
    before: Seq<char>,
    after: Seq<char>,
    name: Seq<char>,
)
    requires
        line_ok(word, rest, gap, before, after),
        name == "DELETE"@ || name == "DEL"@,
        spells(word, name),
    ensures
        parsed(line_with(word, rest, gap, before, after)) == (if rest.len() == 1 {
            Ok(CommandSpec::Delete { key: rest[0].text })
        } else {
            Err(
                ParseFailure::InvalidArity {
                    command: name,
                    expected: "DELETE <key> (or DEL <key>)"@,
                },
            )
        }),
{
    lemma_names();
    lemma_spells(word, name);
    lemma_line_parsed(word, rest, gap, before, after);
}

/// A change reads as one of the very key that was written, to the very value, whatever the
/// case of its name; it takes a key and a value.
pub proof fn law_set_reads_key_and_value(
    word: Seq<char>,
    rest: Seq<WrittenPart>,
    gap: Seq<char>,
    before: Seq<char>,
    after: Seq<char>,
)
    requires
        line_ok(word, rest, gap, before, after),
        spells(word, "SET"@),
    ensures
        parsed(line_with(word, rest, gap, before, after)) == (if rest.len() == 2 {
            Ok(CommandSpec::SetKey { key: rest[0].text, value: rest[1].text })
        } else {
            Err(
                ParseFailure::InvalidArity { command: "SET"@, expected: "SET <key> <value>"@ },
            )
        }),
{
    lemma_names();
    lemma_spells(word, "SET"@);
    lemma_line_parsed(word, rest, gap, before, after);
}

/// The session ends on either of two words, whatever their case and whatever follows. A
/// word that is no name is refused as it was written, and a line without a part is empty.
pub proof fn law_other_words(
    word: Seq<char>,
    rest: Seq<WrittenPart>,
    gap: Seq<char>,
    before: Seq<char>,
    after: Seq<char>,
)
    requires
        line_ok(word, rest, gap, before, after),
        text::ascii(word),
    ensures
        spells(word, "EXIT"@) || spells(word, "QUIT"@) ==> parsed(
            line_with(word, rest, gap, before, after),
        ) == Ok::<_, ParseFailure>(CommandSpec::Exit),
        !spells(word, "SET"@) && !spells(word, "GET"@) && !spells(word, "DELETE"@) && !spells(
            word,
            "DEL"@,
        ) && !spells(word, "EXIT"@) && !spells(word, "QUIT"@) ==> parsed(
            line_with(word, rest, gap, before, after),
        ) == Err::<CommandSpec, _>(ParseFailure::UnknownCommand(word)),
        parsed(before) == Err::<CommandSpec, _>(ParseFailure::Empty),
{
    lemma_names();
    lemma_spells(word, "SET"@);
    lemma_spells(word, "GET"@);
    lemma_spells(word, "DELETE"@);
    lemma_spells(word, "DEL"@);
    lemma_spells(word, "EXIT"@);
    lemma_spells(word, "QUIT"@);
    lemma_line_parsed(word, rest, gap, before, after);
    let none = Seq::<WrittenPart>::empty();
    law_parts_read_back(none, gap, before, after.take(0));
    assert(before + line_of(none, gap) + after.take(0) =~= before);
}

/// A bare key, one space behind the name of a command, is read as it is.
pub proof fn law_bare_key(key: Seq<char>)
    requires
        bare(key),
    ensures
        parsed("GET "@ + key) == Ok::<_, ParseFailure>(CommandSpec::Get { key }),
        parsed("DELETE "@ + key) == Ok::<_, ParseFailure>(CommandSpec::Delete { key }),
        parsed("DEL "@ + key) == Ok::<_, ParseFailure>(CommandSpec::Delete { key }),
{
    reveal_strlit("GET");
    reveal_strlit("GET ");
    reveal_strlit("DELETE");
    reveal_strlit("DELETE ");
    reveal_strlit("DEL");
    reveal_strlit("DEL ");
    let part = WrittenPart { text: key, quote: None };
    let (gap, none) = (seq![' '], Seq::<char>::empty());
    let rest = seq![part];
    lemma_one_key_line("GET"@, part);
    lemma_one_key_line("DELETE"@, part);
    lemma_one_key_line("DEL"@, part);
    assert("GET "@ =~= "GET"@ + gap);
    assert("DELETE "@ =~= "DELETE"@ + gap);
    assert("DEL "@ =~= "DEL"@ + gap);
    law_get_reads_key("GET"@, rest, gap, none, none);
    law_delete_reads_key("DELETE"@, rest, gap, none, none, "DELETE"@);
    law_delete_reads_key("DEL"@, rest, gap, none, none, "DEL"@);
}

proof fn lemma_one_key_line(word: Seq<char>, part: WrittenPart)
    ensures
        line_with(word, seq![part], seq![' '], Seq::<char>::empty(), Seq::<char>::empty()) == word
            + seq![' '] + part.written(),
{
    let none = Seq::<char>::empty();
    let first = WrittenPart { text: word, quote: None };
    let parts = seq![first] + seq![part];
    assert(parts.drop_last() =~= seq![first]);
    assert(parts.last() == part);
    assert(line_of(seq![first], seq![' ']) == word);
    assert(none + line_of(parts, seq![' ']) + none =~= line_of(parts, seq![' ']));
}

/// A lookup and a deletion ask the store for the bytes that the change of the same key
/// has set, a change of another key sets others, and the value that was set is shown as
/// it was written.
pub proof fn law_same_key_same_bytes(
    key: Seq<char>,
    value: Seq<char>,
    other: Seq<char>,
    stored: Vec<u8>,
    r: Result<Response, DBError>,
)
    ensures
        ({
            let put = call_of(CommandSpec::SetKey { key, value });
            &&& put is Put
            &&& call_of(CommandSpec::Get { key }) == EngineCallSpec::Get(put->Put_0)
            &&& call_of(CommandSpec::Delete { key }) == EngineCallSpec::Delete(put->Put_0)
            &&& other != key ==> call_of(CommandSpec::Get { key: other }) != EngineCallSpec::Get(
                put->Put_0,
            )
            &&& answers_lookup(Ok(Some(stored)), r) && stored@ == put->Put_1 ==> (r matches Ok(
                Response::Value(shown),
            ) && shown@ == value)
            &&& call_of(CommandSpec::Exit) == EngineCallSpec::Nothing
        }),
{
    law_value_shown(value);
    law_value_shown(key);
    law_value_shown(other);
}

/// A change that the store made is acknowledged, a key without a value is shown as such,
/// and a failure of the store is handed on.
pub proof fn law_store_is_answered(e: DBError, r: Result<Response, DBError>)
    ensures
        answers_change(Ok(()), r) <==> (r matches Ok(Response::Okay)),
        answers_lookup(Ok(None), r) <==> (r matches Ok(Response::Nil)),
        answers_change(Err(e), r) <==> r == Err::<Response, _>(e),
        answers_lookup(Err(e), r) <==> r == Err::<Response, _>(e),
{
}

} // verus!
