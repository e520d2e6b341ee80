//! The errors of the library.

use vstd::prelude::*;
use vstd::string::StringExecFns;
use std::path::PathBuf;

verus! {

/// `std::path::PathBuf`, which the library carries without looking inside.
#[verifier::external_type_specification]
#[verifier::external_body]
pub struct ExPathBuf(PathBuf);

/// `std::io::ErrorKind`, which the library carries without looking inside.
#[verifier::external_type_specification]
#[verifier::external_body]
pub struct ExIoErrorKind(std::io::ErrorKind);

/// `PathBuf::clone`: the copy is the same path.
pub assume_specification[ <PathBuf as Clone>::clone ](path: &PathBuf) -> (copy: PathBuf)
    ensures
        copy == *path,
;

/// `std::io::ErrorKind::clone`: the copy is the same kind.
pub assume_specification[ <std::io::ErrorKind as Clone>::clone ](kind: &std::io::ErrorKind) -> (copy:
    std::io::ErrorKind)
    ensures
        copy == *kind,
;

/// The various kinds of errors in the system.
#[derive(Clone, Debug, Eq, PartialEq)]
#[non_exhaustive]
pub enum ErrorKind {
    /// No alignment with a positive score could be found.
    NoAlignments,
    /// An alignment doesn't match the text, or a traceback takes a step
    /// that no alignment has.
    InvalidAlignment,
    /// A topic reaches beyond the end of its text.
    InvalidTopic,
    /// An anchor's file path is not absolute.
    InvalidPath,
    /// The bytes of a file are not text in the anchor's encoding.
    EncodingError(String),
    /// A repository can't be found.
    RepositoryNotFound(PathBuf),
    /// A repository already exists.
    RepositoryExists(PathBuf),
    /// An I/O error has occurred.
    Io(std::io::ErrorKind, String),
    /// Some other kind of error has occurred.
    Other(String),
}

/// `std::fmt::Debug` of a path, which quotes it.
#[verifier::external_body]
fn shown_path(path: &PathBuf) -> String {
    format!("{:?}", path)
}

/// `std::fmt::Debug` of a kind of I/O error, which is its name.
#[verifier::external_body]
fn shown_io_kind(kind: &std::io::ErrorKind) -> String {
    format!("{:?}", kind)
}

/// `message` is `begin` and then some text.
pub open spec fn begins_with(message: Seq<char>, begin: Seq<char>) -> bool {
    message.len() >= begin.len() && message.subrange(0, begin.len() as int) == begin
}

/// `message` is some text and then `end`.
pub open spec fn ends_with(message: Seq<char>, end: Seq<char>) -> bool {
    message.len() >= end.len() && message.subrange(message.len() - end.len(), message.len() as int)
        == end
}

impl ErrorKind {
    /// What `message` says of each kind: a fixed text for a kind without
    /// fields, the text that the error holds for an encoding error and an
    /// "other" error, and for the rest a fixed beginning before the path or
    /// the kind of I/O error, which the platform puts into words, and for
    /// an I/O error its description at the end.
    pub open spec fn is_message(self, message: Seq<char>) -> bool {
        match self {
            ErrorKind::NoAlignments => message == "No alignment found"@,
            ErrorKind::InvalidAlignment => message == "Alignment does not map to source"@,
            ErrorKind::InvalidTopic => message == "Unable to read topic"@,
            ErrorKind::InvalidPath => message == "Anchor file path's must be absolute"@,
            ErrorKind::EncodingError(text) => message == text@,
            ErrorKind::RepositoryNotFound(_) => begins_with(message, "repository not found for "@),
            ErrorKind::RepositoryExists(_) => begins_with(message, "repository already exists: "@),
            ErrorKind::Io(_, description) => begins_with(message, "I/O error: "@) && ends_with(
                message,
                " "@ + description@,
            ),
            ErrorKind::Other(text) => message == text@,
        }
    }

    /// The error in words.
    pub fn message(&self) -> (message: String)
        ensures
            self.is_message(message@),
    {
        match self {
            ErrorKind::NoAlignments => "No alignment found".to_owned(),
            ErrorKind::InvalidAlignment => "Alignment does not map to source".to_owned(),
            ErrorKind::InvalidTopic => "Unable to read topic".to_owned(),
            ErrorKind::InvalidPath => "Anchor file path's must be absolute".to_owned(),
            ErrorKind::EncodingError(text) => text.clone(),
            ErrorKind::RepositoryNotFound(p) => {
                let mut message = "repository not found for ".to_owned();
                let shown = shown_path(p);
                message.append(shown.as_str());
                assert(message@.subrange(0, "repository not found for "@.len() as int)
                    =~= "repository not found for "@);
                message
            },
            ErrorKind::RepositoryExists(p) => {
                let mut message = "repository already exists: ".to_owned();
                let shown = shown_path(p);
                message.append(shown.as_str());
                assert(message@.subrange(0, "repository already exists: "@.len() as int)
                    =~= "repository already exists: "@);
                message
            },
            ErrorKind::Io(kind, description) => {
                let mut message = "I/O error: ".to_owned();
                let shown = shown_io_kind(kind);
                message.append(shown.as_str());
                message.append(" ");
                message.append(description.as_str());
                assert(message@.subrange(0, "I/O error: "@.len() as int) =~= "I/O error: "@);
                assert(message@.subrange(
                    message@.len() - (" "@ + description@).len(),
                    message@.len() as int,
                ) =~= " "@ + description@);
                message
            },
            ErrorKind::Other(text) => text.clone(),
        }
    }
}

/// Common error type: an error of some kind.
#[derive(Debug)]
pub struct Error {
    kind: ErrorKind,
}

impl Error {
    /// The error of kind `kind`.
    pub closed spec fn of(kind: ErrorKind) -> Error {
        Error { kind }
    }

    /// The kind of the error.
    pub closed spec fn kind(self) -> ErrorKind {
        self.kind
    }

    /// Creates a `RepositoryNotFound` error.
    pub fn repository_not_found(p: PathBuf) -> (e: Error)
        ensures
            e.kind() == ErrorKind::RepositoryNotFound(p),
    {
        Error { kind: ErrorKind::RepositoryNotFound(p) }
    }

    /// Creates a `RepositoryExists` error.
    pub fn repository_exists(p: PathBuf) -> (e: Error)
        ensures
            e.kind() == ErrorKind::RepositoryExists(p),
    {
        Error { kind: ErrorKind::RepositoryExists(p) }
    }

    /// Creates an "other" error.
    pub fn other(msg: &str) -> (e: Error)
        ensures
            e.kind() matches ErrorKind::Other(m) && m@ == msg@,
    {
        Error { kind: ErrorKind::Other(msg.to_owned()) }
    }

    /// Gets the `ErrorKind` for an `Error`.
    pub fn find(&self) -> (kind: &ErrorKind)
        ensures
            *kind == self.kind(),
    {
        &self.kind
    }
}

impl From<ErrorKind> for Error {
    fn from(kind: ErrorKind) -> (e: Error) {
        Error { kind }
    }
}

impl vstd::std_specs::convert::FromSpecImpl<ErrorKind> for Error {
    open spec fn obeys_from_spec() -> bool {
        true
    }

    open spec fn from_spec(kind: ErrorKind) -> Error {
        Error::of(kind)
    }
}

/// An error that is made from a kind is of that kind.
pub proof fn lemma_kind_of(kind: ErrorKind)
    ensures
        Error::of(kind).kind() == kind,
{
}

} // verus!
