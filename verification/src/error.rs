//! What can be wrong with an archive, or with what an archive is built from.

use vstd::prelude::*;
use vstd::string::StringExecFns;

verus! {

/// The part of an archive that a read ran out of bytes in.
#[derive(Debug, Clone, Copy, PartialEq, Eq, Structural)]
pub enum Section {
    /// The 32 bytes at the start.
    Header,
    /// The entry records that follow the header.
    EntryTable,
    /// The contents of the files, from the header's data start on.
    DataSection,
}

/// Why an archive could not be read or built.
#[derive(Debug, Clone, Copy, PartialEq, Eq, Structural)]
pub enum PacError {
    /// The input does not begin with the bytes `FPAC`.
    BadMagic,
    /// The header announces no entries.
    ZeroEntries,
    /// The input ends inside the named section.
    Truncated(Section),
    /// The name field of the entry record with this index has no NUL byte, or
    /// the bytes before its first NUL byte are not UTF-8.
    FileEntry(usize),
    /// An archive was to be built from metadata without entries.
    EmptyMeta,
    /// No contents were supplied for the entry with this index.
    MissingFile(usize),
    /// A size or an offset of the archive to be built does not fit in 32 bits.
    TooLarge,
}

impl PacError {
    /// The text of [`PacError::message`].
    pub open spec fn spec_message(self) -> Seq<char> {
        match self {
            PacError::BadMagic => "bad magic"@,
            PacError::ZeroEntries => "zero entries"@,
            PacError::Truncated(Section::Header) => "truncated header"@,
            PacError::Truncated(Section::EntryTable) => "truncated entry table"@,
            PacError::Truncated(Section::DataSection) => "truncated data section"@,
            PacError::FileEntry(_) => "could not parse file entry"@,
            PacError::EmptyMeta => "empty metadata"@,
            PacError::MissingFile(_) => "missing file contents"@,
            PacError::TooLarge => "archive too large"@,
        }
    }

    /// A short description of the error, for people.
    pub fn message(&self) -> (text: String)
        ensures
            text@ == self.spec_message(),
    {
        match self {
            PacError::BadMagic => String::from_str("bad magic"),
            PacError::ZeroEntries => String::from_str("zero entries"),
            PacError::Truncated(Section::Header) => String::from_str("truncated header"),
            PacError::Truncated(Section::EntryTable) => String::from_str("truncated entry table"),
            PacError::Truncated(Section::DataSection) => String::from_str(
                "truncated data section",
            ),
            PacError::FileEntry(_) => String::from_str("could not parse file entry"),
            PacError::EmptyMeta => String::from_str("empty metadata"),
            PacError::MissingFile(_) => String::from_str("missing file contents"),
            PacError::TooLarge => String::from_str("archive too large"),
        }
    }
}

} // verus!
