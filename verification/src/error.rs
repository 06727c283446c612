//! The errors of the library.

use vstd::prelude::*;
use vstd::std_specs::convert::FromSpecImpl;
use vstd::string::*;

verus! {

/// The error type of input and output in std. The library carries such an
/// error through and reads nothing from it but its message.
#[verifier::external_type_specification]
#[verifier::external_body]
pub struct ExIoError(std::io::Error);

/// What can go wrong.
#[derive(Debug)]
pub enum TgitError {
    /// The file system refused an operation.
    IoError(std::io::Error),
    /// No directory from the starting point upwards holds a repository.
    NoDirectory,
    /// The bytes stored for a commit are not a text.
    InvalidCommit,
    /// The index file holds a malformed line.
    InvalidIndex,
}

/// What an error of the file system says of itself, through its `Display`
/// impl in std. Nothing is claimed of the text: it comes from the operating
/// system.
#[verifier::external_body]
fn io_error_text(e: &std::io::Error) -> String {
    format!("{}", e)
}

/// The message of `NoDirectory`.
pub open spec fn no_directory_text() -> Seq<char> {
    "No Directory Found"@
}

/// The message of `InvalidCommit`.
pub open spec fn invalid_commit_text() -> Seq<char> {
    "The commit is invalid"@
}

/// The message of `InvalidIndex`.
pub open spec fn invalid_index_text() -> Seq<char> {
    "The index is corrupt"@
}

impl TgitError {
    /// The message shown to the user.
    pub fn message(&self) -> (text: String)
        ensures
            *self is NoDirectory ==> text@ == no_directory_text(),
            *self is InvalidCommit ==> text@ == invalid_commit_text(),
            *self is InvalidIndex ==> text@ == invalid_index_text(),
    {
        match self {
            TgitError::IoError(e) => io_error_text(e),
            TgitError::NoDirectory => String::from_str("No Directory Found"),
            TgitError::InvalidCommit => String::from_str("The commit is invalid"),
            TgitError::InvalidIndex => String::from_str("The index is corrupt"),
        }
    }
}

impl From<std::io::Error> for TgitError {
    /// An error of the file system, as an error of the library.
    fn from(value: std::io::Error) -> (r: TgitError) {
        TgitError::IoError(value)
    }
}

impl FromSpecImpl<std::io::Error> for TgitError {
    open spec fn obeys_from_spec() -> bool {
        true
    }

    open spec fn from_spec(value: std::io::Error) -> TgitError {
        TgitError::IoError(value)
    }
}

} // verus!
