//! The ways in which reading or writing an archive fails.

use vstd::prelude::*;

verus! {

/// Why an archive could not be read or written.
#[derive(Clone, Copy, Debug, PartialEq, Eq, Structural)]
pub enum TarError {
    /// A header block is shorter than 512 bytes, one of its numeric fields
    /// is not octal text, or one of its text fields is not UTF-8.
    MalformedHeader,
    /// The stream ends before the blocks that an entry's declared size
    /// demands.
    TruncatedBody,
    /// The file is neither a regular file, a directory, a symbolic link, a
    /// device nor a FIFO.
    UnsupportedEntryType,
    /// A path longer than 100 bytes cannot be cut 100 bytes before its end,
    /// because that place lies inside a character.
    UnsplittablePath,
    /// A value does not fit the fixed width of its header field.
    FieldOverflow,
}

impl TarError {
    /// The words for each failure.
    pub open spec fn message_text(&self) -> Seq<char> {
        match self {
            TarError::MalformedHeader => "malformed header block"@,
            TarError::TruncatedBody => "archive ends inside the body of an entry"@,
            TarError::UnsupportedEntryType => "Type flag is not supported!"@,
            TarError::UnsplittablePath => "path cannot be split into prefix and name"@,
            TarError::FieldOverflow => "value does not fit its header field"@,
        }
    }

    /// A short description of the failure.
    pub fn message(&self) -> (text: &'static str)
        ensures
            text@ == self.message_text(),
    {
        match self {
            TarError::MalformedHeader => "malformed header block",
            TarError::TruncatedBody => "archive ends inside the body of an entry",
            TarError::UnsupportedEntryType => "Type flag is not supported!",
            TarError::UnsplittablePath => "path cannot be split into prefix and name",
            TarError::FieldOverflow => "value does not fit its header field",
        }
    }
}

} // verus!
