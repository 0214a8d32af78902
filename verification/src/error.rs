//! Errors of the store.
use vstd::prelude::*;
use vstd::string::*;

verus! {

/// The kinds of input/output failure that the store tells apart.
#[derive(Clone, Copy, Debug, PartialEq, Eq, Structural)]
pub enum ErrorKind {
    /// The data ends before the value that was to be read.
    UnexpectedEof,
    /// The data does not have the form that it should have.
    InvalidData,
    /// An argument cannot be encoded.
    InvalidInput,
    /// The thing that was looked for is not there.
    NotFound,
    /// Any other failure.
    Other,
}

/// An input/output failure: its kind and a message.
#[derive(Clone, Debug)]
pub struct IoError {
    pub kind: ErrorKind,
    pub message: String,
}

/// What an error says, as mathematical values.
pub struct IoFailure {
    pub kind: ErrorKind,
    pub message: Seq<char>,
}

impl View for IoError {
    type V = IoFailure;

    open spec fn view(&self) -> IoFailure {
        IoFailure { kind: self.kind, message: self.message@ }
    }
}

impl IoError {
    /// An error of the given kind with the given message.
    pub fn new(kind: ErrorKind, message: &str) -> (e: IoError)
        ensures
            e@ == (IoFailure { kind, message: message@ }),
    {
        IoError { kind, message: message.to_owned() }
    }

    /// An error of the given kind with a message that was built up.
    pub fn with_message(kind: ErrorKind, message: String) -> (e: IoError)
        ensures
            e@ == (IoFailure { kind, message: message@ }),
    {
        IoError { kind, message }
    }

    /// The error's kind.
    pub fn kind(&self) -> (kind: ErrorKind)
        ensures
            kind == self@.kind,
    {
        self.kind
    }

    /// The error for data that ends too early.
    pub fn eof() -> (e: IoError)
        ensures
            e@ == eof_failure(),
    {
        IoError::new(ErrorKind::UnexpectedEof, "failed to fill whole buffer")
    }
}

/// What the error for data that ends too early says.
pub open spec fn eof_failure() -> IoFailure {
    IoFailure { kind: ErrorKind::UnexpectedEof, message: "failed to fill whole buffer"@ }
}

/// What can go wrong in the store.
#[derive(Clone, Debug)]
pub enum DBError {
    /// Reading or writing failed.
    Io(IoError),
    /// The storage layer cannot do what was asked.
    StorageError(String),
    /// Stored data is damaged.
    Corrupted(String),
    /// A lock was poisoned.
    MutexPoisoned(String),
}

/// What an error of the store says.
pub enum DBFailure {
    Io(IoFailure),
    StorageError(Seq<char>),
    Corrupted(Seq<char>),
    MutexPoisoned(Seq<char>),
}

impl View for DBError {
    type V = DBFailure;

    open spec fn view(&self) -> DBFailure {
        match *self {
            DBError::Io(e) => DBFailure::Io(e@),
            DBError::StorageError(m) => DBFailure::StorageError(m@),
            DBError::Corrupted(m) => DBFailure::Corrupted(m@),
            DBError::MutexPoisoned(m) => DBFailure::MutexPoisoned(m@),
        }
    }
}

impl DBFailure {
    /// The text of the failure.
    pub open spec fn text(self) -> Seq<char> {
        match self {
            DBFailure::Io(e) => e.message,
            DBFailure::StorageError(m) => m,
            DBFailure::Corrupted(m) => m,
            DBFailure::MutexPoisoned(m) => m,
        }
    }
}

impl DBError {
    /// The text of the error.
    pub fn describe(&self) -> (s: String)
        ensures
            s@ == self@.text(),
    {
        match self {
            DBError::Io(e) => e.message.clone(),
            DBError::StorageError(m) => m.clone(),
            DBError::Corrupted(m) => m.clone(),
            DBError::MutexPoisoned(m) => m.clone(),
        }
    }
}

/// The text of a failure is the message that it was made with.
pub proof fn law_text_is_message(e: IoFailure, m: Seq<char>)
    ensures
        DBFailure::Io(e).text() == e.message,
        DBFailure::StorageError(m).text() == m,
        DBFailure::Corrupted(m).text() == m,
        DBFailure::MutexPoisoned(m).text() == m,
{
}

/// Data that ends too early is told by its kind, and as a reader tells it.
pub proof fn law_early_end_is_told()
    ensures
        eof_failure().kind == ErrorKind::UnexpectedEof,
        DBFailure::Io(eof_failure()).text() == "failed to fill whole buffer"@,
{
}

} // verus!
