//! Making ready the directory that the store lives in.
//!
//! The caller tries to create the parent directory of the store's path and hands
//! over what came of it; this module says whether the store may be opened.

use vstd::prelude::*;
use vstd::string::*;

verus! {

/// Why the directory could not be created, as far as the rules tell causes apart.
#[derive(Clone, Copy, Debug, PartialEq, Eq)]
pub enum DirFailure {
    /// The directory is there already.
    AlreadyExists,
    /// The caller may not create it.
    PermissionDenied,
    /// Anything else.
    Other,
}

/// What came of trying to create the parent directory of the store's path.
#[derive(Clone, Debug, PartialEq, Eq)]
pub enum DirAttempt {
    /// The path has no parent directory; nothing was tried.
    NoParent,
    /// The directory was created, or all of it was there.
    Created,
    /// The attempt failed; `detail` is the system's account of the failure.
    Failed { failure: DirFailure, detail: String },
}

/// Why the store cannot be opened at its path.
#[derive(Clone, Debug, PartialEq, Eq)]
pub enum DirectoryError {
    /// The path has no parent directory.
    NoParent,
    /// The caller may not create the directory.
    PermissionDenied,
    /// The directory could not be created for another reason.
    Other { detail: String },
}

/// The message of an error for which the path has no parent directory.
pub open spec fn no_parent_message() -> Seq<char> {
    "Failed to get the data directory"@
}

/// The message of an error for which permission was denied.
pub open spec fn permission_denied_message() -> Seq<char> {
    "Permission denied to create the data directory"@
}

/// What the message of any other error starts with; the detail follows.
pub open spec fn other_message_head() -> Seq<char> {
    "Miscellaneous error creating the data directory: "@
}

impl DirectoryError {
    /// The message of the error.
    pub open spec fn message_text(&self) -> Seq<char> {
        match self {
            DirectoryError::NoParent => no_parent_message(),
            DirectoryError::PermissionDenied => permission_denied_message(),
            DirectoryError::Other { detail } => other_message_head() + detail@,
        }
    }

    /// The message of the error, for the one who started the program.
    pub fn message(&self) -> (text: String)
        ensures
            text@ == self.message_text(),
    {
        match self {
            DirectoryError::NoParent => "Failed to get the data directory".to_owned(),
            DirectoryError::PermissionDenied => {
                "Permission denied to create the data directory".to_owned()
            },
            DirectoryError::Other { detail } => {
                let mut text: String =
                    "Miscellaneous error creating the data directory: ".to_owned();
                text.append(detail.as_str());
                text
            },
        }
    }
}

/// Decides whether the store may be opened after an attempt to create its
/// directory. A directory that was there already is as good as one created, so
/// that making it ready twice succeeds twice. A path without a parent and every
/// other failure are fatal, a denied permission with an error of its own.
pub fn directory_outcome(attempt: DirAttempt) -> (r: Result<(), DirectoryError>)
    ensures
        r is Ok <==> (attempt is Created || (attempt is Failed && attempt->failure
            is AlreadyExists)),
        attempt is NoParent ==> r == Err::<(), DirectoryError>(DirectoryError::NoParent),
        attempt is Failed && attempt->failure is PermissionDenied ==> r == Err::<
            (),
            DirectoryError,
        >(DirectoryError::PermissionDenied),
        attempt is Failed && attempt->failure is Other ==> r == Err::<(), DirectoryError>(
            DirectoryError::Other { detail: attempt->detail },
        ),
{
    match attempt {
        DirAttempt::NoParent => Err(DirectoryError::NoParent),
        DirAttempt::Created => Ok(()),
        DirAttempt::Failed { failure, detail } => match failure {
            DirFailure::AlreadyExists => Ok(()),
            DirFailure::PermissionDenied => Err(DirectoryError::PermissionDenied),
            DirFailure::Other => Err(DirectoryError::Other { detail }),
        },
    }
}

} // verus!
