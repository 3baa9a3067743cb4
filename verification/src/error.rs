//! The errors of the library.
use vstd::prelude::*;

verus! {

/// Why an operation of the library failed; paths are held as strings.
#[derive(Debug, PartialEq, Eq, Clone)]
pub enum Error {
    /// The path is not a directory.
    NotADirectory(String),
    /// The path is not a file.
    NotAFile(String),
    /// The path does not exist.
    DoesNotExist(String),
    /// The sub path is not a descendant of the root (sub path, root).
    InvalidSubPath(String, String),
    /// The meta file name is not one of the configured ones.
    InvalidMetaFileName(String),
    /// The meta file did not contain any data.
    EmptyMetaFile(String),
    /// The metadata does not have the form its target asks for.
    InvalidMetadata,
    /// There is no parent above the root.
    CappedAtRoot,
    /// The file could not be read.
    Io(String),
    /// The YAML text could not be scanned; the scanner's message.
    Yaml(String),
    /// Another failure, with its message.
    Msg(String),
}

/// An error as a mathematical value.
pub enum ErrorV {
    NotADirectory(Seq<char>),
    NotAFile(Seq<char>),
    DoesNotExist(Seq<char>),
    InvalidSubPath(Seq<char>, Seq<char>),
    InvalidMetaFileName(Seq<char>),
    EmptyMetaFile(Seq<char>),
    InvalidMetadata,
    CappedAtRoot,
    Io(Seq<char>),
    Yaml(Seq<char>),
    Msg(Seq<char>),
}

impl View for Error {
    type V = ErrorV;

    open spec fn view(&self) -> ErrorV {
        match self {
            Error::NotADirectory(p) => ErrorV::NotADirectory(p@),
            Error::NotAFile(p) => ErrorV::NotAFile(p@),
            Error::DoesNotExist(p) => ErrorV::DoesNotExist(p@),
            Error::InvalidSubPath(p, r) => ErrorV::InvalidSubPath(p@, r@),
            Error::InvalidMetaFileName(s) => ErrorV::InvalidMetaFileName(s@),
            Error::EmptyMetaFile(p) => ErrorV::EmptyMetaFile(p@),
            Error::InvalidMetadata => ErrorV::InvalidMetadata,
            Error::CappedAtRoot => ErrorV::CappedAtRoot,
            Error::Io(p) => ErrorV::Io(p@),
            Error::Yaml(m) => ErrorV::Yaml(m@),
            Error::Msg(m) => ErrorV::Msg(m@),
        }
    }
}

/// Whether an error agrees with what the model says of it: `Some(e)` where the
/// model knows the error, `None` for a YAML scanning error, whose message is
/// the scanner's.
pub open spec fn error_agrees(e: Error, expected: Option<ErrorV>) -> bool {
    match expected {
        Some(x) => e@ == x,
        None => e is Yaml,
    }
}

} // verus!
