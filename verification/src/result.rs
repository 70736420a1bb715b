//! The failure values that decoding reports.

use vstd::prelude::*;

verus! {

/// What went wrong while a stream was read.
#[derive(Debug, Clone, Copy, PartialEq, Eq, Structural)]
pub enum ErrorKind {
    /// The byte source or sink failed; the message carries its words.
    Io,
    /// The header or the code table of a block does not parse.
    CorruptHeader,
    /// The input ends before the declared number of payload bits, or the
    /// declared payload ends inside a code word.
    TruncatedStream,
    /// The payload holds bits with which no code word of the table starts.
    UnknownCodeWord,
    /// The primary index is not a position of the decoded block.
    InvalidIndex,
}

/// A failure, as a kind and a message for people.
#[derive(Debug, PartialEq, Eq)]
pub struct Error {
    pub kind: ErrorKind,
    pub message: String,
}

/// The message that goes with each kind of failure.
pub open spec fn kind_message(kind: ErrorKind) -> Seq<char> {
    match kind {
        ErrorKind::Io => "Failed to read the input"@,
        ErrorKind::CorruptHeader => "Corrupt header"@,
        ErrorKind::TruncatedStream => "Truncated stream"@,
        ErrorKind::UnknownCodeWord => "Unexpected code word"@,
        ErrorKind::InvalidIndex => "Invalid primary index"@,
    }
}

impl Error {
    /// A failure of the byte source or sink, described by `str`.
    pub fn new(str: &str) -> (error: Error)
        ensures
            error.kind == ErrorKind::Io,
            error.message@ == str@,
    {
        Error { kind: ErrorKind::Io, message: str.to_owned() }
    }

    /// The failure of the given kind, with the message of that kind.
    pub fn of_kind(kind: ErrorKind) -> (error: Error)
        ensures
            error.kind == kind,
            error.message@ == kind_message(kind),
    {
        let text = match kind {
            ErrorKind::Io => "Failed to read the input",
            ErrorKind::CorruptHeader => "Corrupt header",
            ErrorKind::TruncatedStream => "Truncated stream",
            ErrorKind::UnknownCodeWord => "Unexpected code word",
            ErrorKind::InvalidIndex => "Invalid primary index",
        };
        Error { kind, message: text.to_owned() }
    }
}

} // verus!
