//! Bringing a root up to date: the events that a root has not seen are read,
//! ordered and replayed, and the root is saved again.
use crate::aggregate::{
    are_distinct, fails, is_open, lemma_replay_advances, replays, root_of, version_of, Aggregate,
    AggregateEntry, AggregateError, AggregateRoot, RootView,
};
use crate::event::PersistedEvent;
use crate::eventstore::{selected, Eventstore, VersionSelect};
use crate::replay_order::{
    in_replay_order, lemma_in_replay_order, lemma_in_replay_order_keeps, sort_for_replay,
};
use crate::snapshot::Snapshot;
use crate::Error;
use vstd::prelude::*;

verus! {

/// The events of `batches` on end.
pub open spec fn joined<T>(batches: Seq<Vec<PersistedEvent<T>>>) -> Seq<PersistedEvent<T>>
    decreases batches.len(),
{
    if batches.len() == 0 {
        Seq::empty()
    } else {
        joined(batches.drop_last()) + batches.last()@
    }
}

/// What is to be read for an aggregate of a root: the events after its
/// version; nothing for an aggregate at the last version there is, which can
/// have no later events.
pub fn unsaved_select<T>(entry: &AggregateEntry<T>) -> (select: Option<VersionSelect>)
    ensures
        select == if is_open(*entry) {
            Some(VersionSelect::From((entry.version + 1) as u64))
        } else {
            None
        },
{
    if entry.version < u64::MAX {
        Some(VersionSelect::From(entry.version + 1))
    } else {
        None
    }
}

/// Whether a read of the events after the version of `entry` may return
/// `outcome`.
pub open spec fn reads_after<T, E: Eventstore>(
    eventstore: &E,
    entry: AggregateEntry<T>,
    outcome: Result<Vec<PersistedEvent<E::Event>>, E::Error>,
) -> bool {
    call_ensures(
        E::read,
        (eventstore, entry.aggregate_id, VersionSelect::From((entry.version + 1) as u64)),
        outcome,
    )
}

/// Whether `batches` may be what the store returns for the aggregates of
/// `entries`, one after the other: for each the events after its version, and
/// nothing for one that can have no later events.
pub open spec fn gathers<T, E: Eventstore>(
    eventstore: &E,
    entries: Seq<AggregateEntry<T>>,
    batches: Seq<Vec<PersistedEvent<E::Event>>>,
) -> bool {
    &&& batches.len() == entries.len()
    &&& forall|i: int|
        0 <= i < entries.len() ==> if is_open(entries[i]) {
            reads_after(eventstore, entries[i], Ok(#[trigger] batches[i]))
        } else {
            batches[i]@.len() == 0
        }
}

/// Whether every event of `events` is an event of an aggregate of `root`,
/// later than that aggregate's version.
pub open spec fn are_unsaved<T: Aggregate>(
    root: AggregateRoot<T>,
    events: Seq<PersistedEvent<T::Event>>,
) -> bool {
    forall|i: int|
        0 <= i < events.len() ==> root@.versions.contains_key((#[trigger] events[i]).aggregate_id@)
            && events[i].version > version_of(root@, events[i].aggregate_id@)
}

/// Whether `unsaved` may be what the store holds beyond `root`: what it
/// returns for the aggregates of the root, one after the other, on end.
pub open spec fn holds_beyond<T: Aggregate, E: Eventstore<Event = T::Event>>(
    eventstore: &E,
    root: AggregateRoot<T>,
    unsaved: Seq<PersistedEvent<T::Event>>,
) -> bool {
    &&& are_unsaved(root, unsaved)
    &&& exists|batches: Seq<Vec<PersistedEvent<T::Event>>>|
        gathers(eventstore, root.listing(), batches) && unsaved == #[trigger] joined(batches)
}

/// Whether reading what the store holds beyond `root` may fail with `error`:
/// the reads for the aggregates before one of the root's aggregates may
/// succeed, and the read for that one may fail with the error. It is the
/// first read that fails.
pub open spec fn fails_beyond<T: Aggregate, E: Eventstore<Event = T::Event>>(
    eventstore: &E,
    root: AggregateRoot<T>,
    error: E::Error,
) -> bool {
    exists|n: int, batches: Seq<Vec<PersistedEvent<T::Event>>>|
        {
            &&& 0 <= n < root.listing().len()
            &&& #[trigger] gathers(eventstore, root.listing().take(n), batches)
            &&& is_open(root.listing()[n])
            &&& reads_after(eventstore, root.listing()[n], Err(error))
        }
}

/// Whether `store` may answer a request to load with `outcome`.
pub open spec fn loads<T: Aggregate, S: Snapshot<T>>(
    store: S,
    outcome: Result<AggregateRoot<T>, S::Error>,
) -> bool {
    call_ensures(S::load, (&store,), outcome)
}

/// Whether `after` has each aggregate at the version that `events` bring it
/// to from `before`: its version in `before` and one more for each of its
/// events.
pub open spec fn advances<T, E>(
    before: RootView<T>,
    events: Seq<PersistedEvent<E>>,
    after: RootView<T>,
) -> bool {
    forall|aggregate_id: Seq<char>|
        #[trigger] version_of(after, aggregate_id) == version_of(before, aggregate_id) + selected(
            events,
            aggregate_id,
            VersionSelect::All,
        ).len()
}

/// Whether bringing `loaded` up to date with `unsaved` may fail with `error`:
/// the replay of the events in the order of their replay may reach an event
/// that fails with it.
pub open spec fn fails_replay<T: Aggregate>(
    loaded: RootView<T>,
    unsaved: Seq<PersistedEvent<T::Event>>,
    error: AggregateError<T::Error>,
) -> bool {
    exists|n: int, reached: RootView<T>|
        0 <= n < unsaved.len() && replays(loaded, in_replay_order(unsaved).take(n), reached)
            && #[trigger] fails(reached, in_replay_order(unsaved)[n], error)
}

/// Whether loading may bring `root` about: the snapshot store may load a
/// root, the event store may hold events beyond it, and the replay of these
/// events in the order of their replay may lead from the one root to the
/// other, which then has each aggregate at the version that the events bring
/// it to.
pub open spec fn brings_about<T, E, S>(eventstore: &E, snapshot: S, root: AggregateRoot<T>) -> bool
    where T: Aggregate, E: Eventstore<Event = T::Event>, S: Snapshot<T> {
    exists|loaded: AggregateRoot<T>, unsaved: Seq<PersistedEvent<T::Event>>|
        {
            &&& loads(snapshot, Ok(loaded))
            &&& #[trigger] holds_beyond(eventstore, loaded, unsaved)
            &&& replays(loaded@, in_replay_order(unsaved), root@)
            &&& advances(loaded@, unsaved, root@)
        }
}

/// Whether loading may fail with `error` on reading the events: the snapshot
/// store may load a root beyond which reading may fail with it.
pub open spec fn fails_on_reading<T, E, S>(eventstore: &E, snapshot: S, error: E::Error) -> bool
    where T: Aggregate, E: Eventstore<Event = T::Event>, S: Snapshot<T> {
    exists|loaded: AggregateRoot<T>|
        loads(snapshot, Ok(loaded)) && #[trigger] fails_beyond(eventstore, loaded, error)
}

/// Whether loading may fail with `error` on replaying the events: the
/// snapshot store may load a root and the event store may hold events beyond
/// it whose replay may fail with it.
pub open spec fn fails_on_replaying<T, E, S>(
    eventstore: &E,
    snapshot: S,
    error: AggregateError<T::Error>,
) -> bool where T: Aggregate, E: Eventstore<Event = T::Event>, S: Snapshot<T> {
    exists|loaded: AggregateRoot<T>, unsaved: Seq<PersistedEvent<T::Event>>|
        {
            &&& loads(snapshot, Ok(loaded))
            &&& #[trigger] holds_beyond(eventstore, loaded, unsaved)
            &&& fails_replay(loaded@, unsaved, error)
        }
}

/// Reads from `eventstore` the events that `root` has not seen: for each of
/// its aggregates, one after the other, the events after the aggregate's
/// version. The result holds what the reads returned, on end. The first read
/// that fails ends the work with its error: nothing is read after it, and what
/// was read before it is not returned.
pub fn get_unsaved_events<T, E>(root: &AggregateRoot<T>, eventstore: &E) -> (r: Result<
    Vec<PersistedEvent<T::Event>>,
    E::Error,
>) where T: Aggregate, E: Eventstore<Event = T::Event>
    ensures
        match r {
            Ok(unsaved) => holds_beyond(eventstore, *root, unsaved@),
            Err(error) => fails_beyond(eventstore, *root, error),
        },
{
    let entries = root.entries();
    let mut unsaved: Vec<PersistedEvent<T::Event>> = Vec::new();
    let ghost mut batches: Seq<Vec<PersistedEvent<T::Event>>> = Seq::empty();
    let mut n: usize = 0;
    while n < entries.len()
        invariant
            n <= entries.len(),
            entries@ == root.listing(),
            are_distinct(entries@),
            root@ == root_of(entries@),
            gathers(eventstore, entries@.take(n as int), batches),
            unsaved@ == joined(batches),
            are_unsaved(*root, unsaved@),
        decreases entries.len() - n,
    {
        let entry = &entries[n];
        let ghost before = batches;
        let mut events: Vec<PersistedEvent<T::Event>> = Vec::new();
        if let Some(select) = unsaved_select(entry) {
            match eventstore.read(entry.aggregate_id.clone(), select) {
                Ok(found) => {
                    events = found;
                },
                Err(error) => {
                    return Err(error);
                },
            }
        }
        proof {
            batches = before.push(events);
            assert(batches.drop_last() =~= before);
        }
        unsaved.append(&mut events);
        n += 1;
    }
    Ok(unsaved)
}

/// Brings `root` up to date with `unsaved`: replays the events in the order
/// of their replay, ascending by aggregate and for each aggregate ascending
/// by version. After a success each aggregate is at its version in `root`
/// and one more for each of its events. The first event that cannot be
/// replayed ends the work with its error.
pub fn rehydrate<T: Aggregate>(
    root: AggregateRoot<T>,
    unsaved: Vec<PersistedEvent<T::Event>>,
) -> (r: Result<AggregateRoot<T>, AggregateError<T::Error>>)
    ensures
        match r {
            Ok(after) => replays(root@, in_replay_order(unsaved@), after@) && advances(
                root@,
                unsaved@,
                after@,
            ),
            Err(error) => fails_replay(root@, unsaved@, error),
        },
{
    let events = sort_for_replay(unsaved);
    proof {
        lemma_in_replay_order(unsaved@);
    }
    let mut current = root;
    match current.save_events(events) {
        Ok(_) => {
            proof {
                assert forall|aggregate_id: Seq<char>|
                    #[trigger] version_of(current@, aggregate_id) == version_of(
                        root@,
                        aggregate_id,
                    ) + selected(unsaved@, aggregate_id, VersionSelect::All).len() by {
                    lemma_replay_advances(
                        root@,
                        in_replay_order(unsaved@),
                        current@,
                        aggregate_id,
                    );
                    lemma_in_replay_order_keeps(unsaved@, aggregate_id);
                }
            }
            Ok(current)
        },
        Err(error) => Err(error),
    }
}

/// After a load each aggregate is at the version that the snapshot store
/// holds for it and one more for each event that the event store holds
/// beyond: where every root that the snapshot store may load has the
/// aggregate at version `from`, and the event store holds `count` events of
/// the aggregate beyond every such root, the root that was loaded has it at
/// version `from + count`.
pub proof fn lemma_load_advances<T, E, S>(
    eventstore: &E,
    snapshot: S,
    root: AggregateRoot<T>,
    aggregate_id: Seq<char>,
    from: nat,
    count: nat,
) where T: Aggregate, E: Eventstore<Event = T::Event>, S: Snapshot<T>
    requires
        brings_about(eventstore, snapshot, root),
        forall|loaded: AggregateRoot<T>| #[trigger]
            loads(snapshot, Ok(loaded)) ==> version_of(loaded@, aggregate_id) == from,
        forall|loaded: AggregateRoot<T>, unsaved: Seq<PersistedEvent<T::Event>>|
            loads(snapshot, Ok(loaded)) && #[trigger] holds_beyond(eventstore, loaded, unsaved)
                ==> selected(unsaved, aggregate_id, VersionSelect::All).len() == count,
    ensures
        version_of(root@, aggregate_id) == from + count,
{
    let (loaded, unsaved) = choose|
        loaded: AggregateRoot<T>,
        unsaved: Seq<PersistedEvent<T::Event>>,
    |
        {
            &&& loads(snapshot, Ok(loaded))
            &&& #[trigger] holds_beyond(eventstore, loaded, unsaved)
            &&& replays(loaded@, in_replay_order(unsaved), root@)
            &&& advances(loaded@, unsaved, root@)
        };
}

/// Loads the current root: the root that `snapshot` holds, brought up to date
/// with the events that `eventstore` holds beyond it, and saved again.
///
/// Each failure keeps its origin: the snapshot store's on loading or saving,
/// the event store's on reading, the replay's on an event that is not the next
/// one of its aggregate or that the aggregate refuses. No root is returned
/// after a failure.
pub fn load_aggregate<T, E, S>(eventstore: &E, snapshot: &mut S) -> (r: Result<
    AggregateRoot<T>,
    Error<AggregateError<T::Error>, E::Error, S::Error>,
>) where T: Aggregate, E: Eventstore<Event = T::Event>, S: Snapshot<T>
    ensures
        match r {
            Ok(root) => {
                &&& brings_about(eventstore, *old(snapshot), root)
                &&& exists|store: &mut S, saved: Result<(), S::Error>|
                    {
                        &&& *store == *old(snapshot)
                        &&& *final(store) == *final(snapshot)
                        &&& saved is Ok
                        &&& #[trigger] call_ensures(S::save, (store, &root), saved)
                    }
            },
            Err(Error::SnapshotError(error)) => {
                ||| loads(*old(snapshot), Err(error)) && *final(snapshot) == *old(snapshot)
                ||| exists|root: AggregateRoot<T>, store: &mut S|
                    {
                        &&& brings_about(eventstore, *old(snapshot), root)
                        &&& *store == *old(snapshot)
                        &&& *final(store) == *final(snapshot)
                        &&& #[trigger] call_ensures(S::save, (store, &root), Err(error))
                    }
            },
            Err(Error::EventstoreError(error)) => {
                &&& fails_on_reading::<T, E, S>(eventstore, *old(snapshot), error)
                &&& *final(snapshot) == *old(snapshot)
            },
            Err(Error::AggregateError(error)) => {
                &&& fails_on_replaying::<T, E, S>(eventstore, *old(snapshot), error)
                &&& *final(snapshot) == *old(snapshot)
            },
        },
{
    let loaded = match snapshot.load() {
        Ok(root) => root,
        Err(error) => {
            return Err(Error::SnapshotError(error));
        },
    };
    let unsaved = match get_unsaved_events(&loaded, eventstore) {
        Ok(unsaved) => unsaved,
        Err(error) => {
            return Err(Error::EventstoreError(error));
        },
    };
    let root = match rehydrate(loaded, unsaved) {
        Ok(root) => root,
        Err(error) => {
            return Err(Error::AggregateError(error));
        },
    };
    match snapshot.save(&root) {
        Ok(_) => Ok(root),
        Err(error) => Err(Error::SnapshotError(error)),
    }
}

} // verus!
