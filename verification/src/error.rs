//! The failures that the store reports.
use vstd::prelude::*;

verus! {

/// Why an operation did not complete.
#[derive(Clone, Copy, Debug, PartialEq, Eq, Structural)]
pub enum Error {
    /// The repository layout was already present when a bootstrap was asked for.
    AlreadyInitialized,
    /// The repository layout is missing.
    RepositoryNotInitialized,
    /// A path that was to be staged does not exist.
    PathNotFound,
    /// The staging ledger holds no record.
    NothingToCommit,
    /// No object is stored under the digest.
    ObjectNotFound,
    /// `HEAD` does not name a branch.
    RefResolutionFailed,
    /// An underlying storage or encoding step failed.
    IOFailure,
}

impl Error {
    /// What `message` returns.
    pub open spec fn message_text(self) -> Seq<char> {
        match self {
            Error::AlreadyInitialized => "Already a git repository"@,
            Error::RepositoryNotInitialized => "Not an initialized rusty_git repository"@,
            Error::PathNotFound => "The specified file or directory does not exist"@,
            Error::NothingToCommit => "Nothing to commit"@,
            Error::ObjectNotFound => "Object not found"@,
            Error::RefResolutionFailed => "HEAD does not name a branch"@,
            Error::IOFailure => "I/O failure"@,
        }
    }

    /// The text shown to the user for this failure.
    pub fn message(&self) -> (s: String)
        ensures
            s@ == self.message_text(),
    {
        match self {
            Error::AlreadyInitialized => String::from_str("Already a git repository"),
            Error::RepositoryNotInitialized => String::from_str(
                "Not an initialized rusty_git repository",
            ),
            Error::PathNotFound => String::from_str(
                "The specified file or directory does not exist",
            ),
            Error::NothingToCommit => String::from_str("Nothing to commit"),
            Error::ObjectNotFound => String::from_str("Object not found"),
            Error::RefResolutionFailed => String::from_str("HEAD does not name a branch"),
            Error::IOFailure => String::from_str("I/O failure"),
        }
    }
}

} // verus!
