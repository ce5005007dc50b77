//! The failures of a search.

use regex::Error as RegexError;
use vstd::prelude::*;
use walkdir::Error as WalkError;

verus! {

/// The diagnostic of `regex` for a pattern that does not compile. It is
/// carried through unread.
#[verifier::external_type_specification]
#[verifier::external_body]
pub struct ExRegexError(RegexError);

/// The failure that `walkdir` reports for an entry it could not visit. It is
/// carried through unread.
#[verifier::external_type_specification]
#[verifier::external_body]
pub struct ExWalkDirError(WalkError);

/// The failure of the operating system on opening or reading a file. It is
/// carried through unread.
#[verifier::external_type_specification]
#[verifier::external_body]
pub struct ExIoError(std::io::Error);

/// Why a search produced no summary. Each kind carries what a precise message
/// needs and nothing else.
#[derive(Debug)]
pub enum Error {
    /// The pattern is no valid regular expression: the diagnostic, and the
    /// pattern as the caller wrote it.
    BadRegex(regex::Error, String),
    /// The traversal of a directory tree failed at one entry.
    WalkDir(walkdir::Error),
    /// A file could not be opened: its path, and the cause.
    Io(String, std::io::Error),
}

} // verus!
