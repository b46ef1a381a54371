//! How failures of repository access are classified.

use vstd::prelude::*;
use crate::error::{ErrorView, KazeNhanhError};

verus! {

/// The part of the Git library an error came from, as far as the engine tells them apart.
#[derive(Debug, Clone, Copy, PartialEq, Eq)]
pub enum GitErrorClass {
    Repository,
    Filesystem,
    Os,
    Reference,
    Other,
}

/// The kind of a Git error, as far as the engine tells them apart.
#[derive(Debug, Clone, Copy, PartialEq, Eq)]
pub enum GitErrorCode {
    NotFound,
    GenericError,
    InvalidSpec,
    UnbornBranch,
    Other,
}

/// Opening failed because there is no repository at the path.
pub open spec fn repository_missing(class: GitErrorClass, code: GitErrorCode) -> bool {
    code == GitErrorCode::NotFound && (class == GitErrorClass::Repository || class == GitErrorClass::Filesystem
        || class == GitErrorClass::Os)
}

/// The error opening a repository at `repo_path` turns into: a missing
/// repository, or a failed Git operation carrying the library's message.
pub fn open_failure(repo_path: String, class: GitErrorClass, code: GitErrorCode, detail: String) -> (e: KazeNhanhError)
    ensures
        repository_missing(class, code) ==> e@ == ErrorView::RepositoryNotFound(repo_path@),
        !repository_missing(class, code) ==> e@ == (ErrorView::GitOperationError { path: repo_path@, detail: detail@ }),
{
    let missing = match code {
        GitErrorCode::NotFound => match class {
            GitErrorClass::Repository | GitErrorClass::Filesystem | GitErrorClass::Os => true,
            _ => false,
        },
        _ => false,
    };
    if missing {
        KazeNhanhError::RepositoryNotFound(repo_path)
    } else {
        KazeNhanhError::GitOperationError { path: repo_path, detail }
    }
}

/// The error says HEAD does not resolve, as in a repository without commits.
pub open spec fn missing_head(class: GitErrorClass, code: GitErrorCode) -> bool {
    class == GitErrorClass::Reference && (code == GitErrorCode::GenericError || code == GitErrorCode::NotFound
        || code == GitErrorCode::InvalidSpec || code == GitErrorCode::UnbornBranch)
}

/// Whether a Git error only says that HEAD does not resolve yet.
pub fn is_missing_head_reference(class: GitErrorClass, code: GitErrorCode) -> (b: bool)
    ensures
        b == missing_head(class, code),
{
    match class {
        GitErrorClass::Reference => match code {
            GitErrorCode::GenericError | GitErrorCode::NotFound | GitErrorCode::InvalidSpec | GitErrorCode::UnbornBranch => true,
            GitErrorCode::Other => false,
        },
        _ => false,
    }
}

} // verus!
