//! What is decided about a repository's head and about the identity that
//! signs a commit, once the backend has answered.
use crate::commit_info::{recorded, CommitInfo, RawCommit};
use git2::Oid;
use vstd::prelude::*;

verus! {

/// The backend's code for "not found".
pub const NOT_FOUND: i32 = -3;

/// A failure of the version-control backend: its code, its class and its
/// message.
#[derive(Debug, PartialEq, Eq)]
pub struct BackendError {
    pub code: i32,
    pub class: i32,
    pub message: String,
}

impl Clone for BackendError {
    fn clone(&self) -> (copy: BackendError)
        ensures
            copy == *self,
    {
        BackendError { code: self.code, class: self.class, message: self.message.clone() }
    }
}

/// Why an operation on a repository failed.
#[derive(Debug, PartialEq, Eq)]
pub enum GitError {
    /// The head of the repository points at no commit.
    NoHead,
    /// The backend failed.
    Backend(BackendError),
}

/// The result of an operation on a repository.
pub type GitResult<T> = Result<T, GitError>;

/// The commit that the head points at, from what resolving the head gave:
/// that commit's identifier; `NoHead` where the head points at none; the
/// backend's failure where it could not be resolved.
pub fn get_head(head: Result<Option<Oid>, BackendError>) -> (r: GitResult<Oid>)
    ensures
        r == match head {
            Ok(Some(id)) => Ok::<Oid, GitError>(id),
            Ok(None) => Err(GitError::NoHead),
            Err(e) => Err(GitError::Backend(e)),
        },
{
    match head {
        Ok(target) => match target {
            Some(id) => Ok(id),
            None => Err(GitError::NoHead),
        },
        Err(e) => Err(GitError::Backend(e)),
    }
}

/// The record of the head commit, from what looking up the identifier that
/// `get_head` returned gave: the commit's record, or the backend's failure.
pub fn get_head_commit(found: Result<RawCommit, BackendError>) -> (r: GitResult<CommitInfo>)
    ensures
        match found {
            Ok(commit) => r matches Ok(info) && info@ == recorded(commit),
            Err(e) => r == Err::<CommitInfo, GitError>(GitError::Backend(e)),
        },
{
    match found {
        Ok(commit) => Ok(CommitInfo::from(commit)),
        Err(e) => Err(GitError::Backend(e)),
    }
}

/// The name and the e-mail address that sign a commit.
#[derive(Debug, PartialEq, Eq)]
pub struct Signature {
    pub name: String,
    pub email: String,
}

/// What the repository's configuration says of its user: whether it has an
/// entry for the name, and the e-mail address where it has one that is text.
pub struct UserConfig {
    pub has_name: bool,
    pub email: Option<String>,
}

/// What is to be done to find the signature of a commit.
pub enum SignatureStep {
    /// Nothing more: this is the outcome.
    Done(Result<Signature, BackendError>),
    /// The configuration is to be read, and `config_signature` called with
    /// this failure and with what was read.
    ReadConfig(BackendError),
}

/// The first step towards the signature of a commit, from what asking the
/// backend for the default signature gave. The default signature stands. A
/// failure stands too, unless it says that none was found: then the
/// configuration is to be read.
pub fn get_signature(default: Result<Signature, BackendError>) -> (step: SignatureStep)
    ensures
        step == match default {
            Ok(signature) => SignatureStep::Done(Ok(signature)),
            Err(e) => if e.code == NOT_FOUND {
                SignatureStep::ReadConfig(e)
            } else {
                SignatureStep::Done(Err(e))
            },
        },
{
    match default {
        Ok(signature) => SignatureStep::Done(Ok(signature)),
        Err(e) => if e.code == NOT_FOUND {
            SignatureStep::ReadConfig(e)
        } else {
            SignatureStep::Done(Err(e))
        },
    }
}

/// The signature of a commit where the backend found no default one, from
/// what reading the configuration gave. A configuration that has an e-mail
/// address and no name signs as `unknown` with that address. Any other
/// configuration leaves the failure `missing` standing, and a configuration
/// that could not be read fails with its own failure.
pub fn config_signature(missing: BackendError, config: Result<UserConfig, BackendError>) -> (r:
    Result<Signature, BackendError>)
    ensures
        match config {
            Err(e) => r == Err::<Signature, BackendError>(e),
            Ok(user) => match user.email {
                Some(email) if !user.has_name => r matches Ok(signature) && signature.name@
                    == "unknown"@ && signature.email@ == email@,
                _ => r == Err::<Signature, BackendError>(missing),
            },
        },
{
    match config {
        Err(e) => Err(e),
        Ok(user) => {
            if user.has_name {
                return Err(missing);
            }
            match user.email {
                Some(email) => Ok(Signature { name: "unknown".to_owned(), email }),
                None => Err(missing),
            }
        },
    }
}

} // verus!
