//! An event-sourcing engine that keeps its event log in the commit history of a
//! version-controlled repository.
//!
//! The crate holds the decisions of the engine: how a walk over the history is
//! started and ended, how an event becomes a commit message and a commit an
//! event, which events a read selects and in what order, how a snapshot and the
//! events after it become the current state, and when a snapshot commit is due.
//! Reading and writing the repository itself is left to the caller, who hands
//! in what was read and carries out what is returned.
use vstd::prelude::*;

pub mod aggregate;
pub mod commit_info;
pub mod commit_reader;
pub mod commit_snapshot;
pub mod event;
pub mod eventstore;
pub mod frame;
pub mod git_eventstore;
pub mod mem_eventstore;
pub mod rehydration;
pub mod replay_order;
pub mod repository;
pub mod snapshot;
pub mod testing;
pub mod text;

pub use crate::aggregate::{Aggregate, AggregateEntry, AggregateError, AggregateRoot};
pub use crate::commit_info::{CommitInfo, CommitMessage, RawCommit};
pub use crate::commit_reader::{CommitReadStartOn, CommitReader, WalkAction, WalkEvent};
pub use crate::commit_snapshot::{commit_snapshot, is_head_snapshot, SNAPSHOT_MSG};
pub use crate::event::{Event, EventRecord, PersistedEvent, Version};
pub use crate::eventstore::{sort_by_version, Eventstore, VersionSelect};
pub use crate::frame::{decode_body, encode_body, Decoded, Frame};
pub use crate::git_eventstore::{
    DecodeError, EncodeError, GitEventstore, ReadError, EVENT_TAG,
};
pub use crate::mem_eventstore::InMemoryEventstore;
pub use crate::rehydration::{get_unsaved_events, load_aggregate, rehydrate, unsaved_select};
pub use crate::replay_order::sort_for_replay;
pub use crate::repository::{
    config_signature, get_head, get_head_commit, get_signature, BackendError, GitError, GitResult,
    Signature, SignatureStep, UserConfig,
};
pub use crate::snapshot::Snapshot;

verus! {

/// Why loading an aggregate failed: the replay, the event store or the
/// snapshot store, each with its own error.
#[derive(Debug, PartialEq, Eq)]
pub enum Error<E, EE, SE> {
    /// An event could not be replayed.
    AggregateError(E),
    /// The event store failed.
    EventstoreError(EE),
    /// The snapshot store failed.
    SnapshotError(SE),
}

} // verus!
