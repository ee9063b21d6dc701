//! When the working directory is made durable by a snapshot commit.
use crate::commit_info::{CommitInfo, CommitInfoView, CommitMessage, CommitMessageView};
use crate::repository::{GitError, GitResult};
use crate::text::{chars_of, contains, occurs_at, occurs_in};
use vstd::prelude::*;

verus! {

/// The subject that marks a snapshot commit.
pub const SNAPSHOT_MSG: &'static str = "[snapshot]";

/// The message of a snapshot commit: the marker as subject, and no body.
pub open spec fn snapshot_message() -> CommitMessageView {
    CommitMessageView { subject: SNAPSHOT_MSG@, body: Seq::empty() }
}

/// Whether a commit is a snapshot commit: its subject holds the marker.
pub open spec fn is_snapshot(commit: CommitInfoView) -> bool {
    occurs_in(commit.message.subject, SNAPSHOT_MSG@)
}

/// The message to commit the working directory under, given the head commit
/// and the number of paths that the working directory has changed: the
/// snapshot message where the head is no snapshot and something has changed,
/// nothing otherwise.
pub open spec fn snapshot_due(head: CommitInfoView, changes: nat) -> Option<CommitMessageView> {
    if is_snapshot(head) || changes == 0 {
        None
    } else {
        Some(snapshot_message())
    }
}

/// Decides whether the head commit is a snapshot commit already. Where it is,
/// no snapshot commit is due, and the status of the working directory need
/// not be asked for.
pub fn is_head_snapshot(head: &CommitInfo) -> (b: bool)
    ensures
        b == is_snapshot(head@),
{
    let subject = chars_of(head.message.subject.as_str());
    let marker = chars_of(SNAPSHOT_MSG);
    contains(&subject, &marker)
}

/// Decides whether a snapshot commit is due, from the head commit and the
/// paths that the working directory has changed, as the backend gave them.
///
/// The head decides first. A head that could not be read fails with its
/// failure. A head that is a snapshot commit already needs no commit,
/// whatever the status is, a status that could not be read included. Only
/// then the status counts: one that could not be read fails with its failure,
/// one without changes needs no commit, and any other asks for the commit.
/// Returns the message under which all paths are to be staged and committed,
/// or `None` where no commit is needed.
pub fn commit_snapshot(head: GitResult<CommitInfo>, status: GitResult<Vec<String>>) -> (r:
    GitResult<Option<CommitMessage>>)
    ensures
        match head {
            Err(e) => r == Err::<Option<CommitMessage>, GitError>(e),
            Ok(commit) => if is_snapshot(commit@) {
                r == Ok::<Option<CommitMessage>, GitError>(None)
            } else {
                match status {
                    Err(e) => r == Err::<Option<CommitMessage>, GitError>(e),
                    Ok(changed) => match r {
                        Ok(Some(message)) => snapshot_due(commit@, changed.len() as nat) == Some(
                            message@,
                        ),
                        Ok(None) => snapshot_due(commit@, changed.len() as nat) is None,
                        Err(_) => false,
                    },
                }
            },
        },
{
    let commit = match head {
        Ok(commit) => commit,
        Err(e) => {
            return Err(e);
        },
    };
    if is_head_snapshot(&commit) {
        return Ok(None);
    }
    let changed = match status {
        Ok(changed) => changed,
        Err(e) => {
            return Err(e);
        },
    };
    if changed.len() == 0 {
        return Ok(None);
    }
    proof {
        reveal_strlit("");
        assert(""@ =~= Seq::<char>::empty());
    }
    Ok(Some(CommitMessage::new(SNAPSHOT_MSG, "")))
}

/// Right after a snapshot commit no second one is due: with the commit that
/// was asked for as the new head, or, where none was asked for, with the head
/// and the changes as they were, nothing is due whatever has changed.
pub proof fn lemma_snapshot_once(
    head: CommitInfoView,
    changes: nat,
    next_head: CommitInfoView,
    next_changes: nat,
)
    requires
        match snapshot_due(head, changes) {
            Some(message) => next_head.message == message,
            None => next_head == head && next_changes == changes,
        },
    ensures
        snapshot_due(next_head, next_changes) is None,
{
    if snapshot_due(head, changes) is Some {
        let marker = SNAPSHOT_MSG@;
        assert(marker.subrange(0, marker.len() as int) =~= marker);
        assert(occurs_at(next_head.message.subject, marker, 0));
    }
}

/// A snapshot commit at the head makes every further one undue, even while
/// the working directory has changes: the head is looked at first.
pub proof fn lemma_snapshot_head_wins(head: CommitInfoView, changes: nat)
    requires
        is_snapshot(head),
    ensures
        snapshot_due(head, changes) is None,
{
}

} // verus!
