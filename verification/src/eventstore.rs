//! What an event store offers, which events a read selects, and the order in
//! which events are replayed.
use crate::event::{PersistedEvent, Version};
use vstd::prelude::*;

verus! {

/// Which versions of an aggregate's history a read asks for.
#[derive(Clone, Copy, Debug, PartialEq, Eq)]
pub enum VersionSelect {
    /// Every version.
    All,
    /// This version and all later ones.
    From(Version),
}

impl VersionSelect {
    /// Whether the selection holds `version`.
    pub open spec fn admits(self, version: Version) -> bool {
        match self {
            VersionSelect::All => true,
            VersionSelect::From(first) => version >= first,
        }
    }

    /// Decides whether the selection holds `version`.
    pub fn includes(&self, version: Version) -> (r: bool)
        ensures
            r == self.admits(version),
    {
        match self {
            VersionSelect::All => true,
            VersionSelect::From(first) => version >= *first,
        }
    }
}

/// Whether a read of the aggregate `aggregate_id` with `select` asks for
/// `event`.
pub open spec fn is_selected<T>(
    event: PersistedEvent<T>,
    aggregate_id: Seq<char>,
    select: VersionSelect,
) -> bool {
    event.aggregate_id@ == aggregate_id && select.admits(event.version)
}

/// Whether every event of `events` is an event of the aggregate
/// `aggregate_id`.
pub open spec fn are_of<T>(events: Seq<PersistedEvent<T>>, aggregate_id: Seq<char>) -> bool {
    forall|i: int| 0 <= i < events.len() ==> (#[trigger] events[i]).aggregate_id@ == aggregate_id
}

/// The events of `log` that a read of `aggregate_id` with `select` asks for,
/// in the order of `log`.
pub open spec fn selected<T>(
    log: Seq<PersistedEvent<T>>,
    aggregate_id: Seq<char>,
    select: VersionSelect,
) -> Seq<PersistedEvent<T>>
    decreases log.len(),
{
    if log.len() == 0 {
        Seq::empty()
    } else {
        let before = selected(log.drop_last(), aggregate_id, select);
        if is_selected(log.last(), aggregate_id, select) {
            before.push(log.last())
        } else {
            before
        }
    }
}

/// Every selected event is one that the read asks for.
pub proof fn lemma_selected_is_selected<T>(
    log: Seq<PersistedEvent<T>>,
    aggregate_id: Seq<char>,
    select: VersionSelect,
)
    ensures
        selected(log, aggregate_id, select).len() <= log.len(),
        forall|i: int|
            0 <= i < selected(log, aggregate_id, select).len() ==> is_selected(
                #[trigger] selected(log, aggregate_id, select)[i],
                aggregate_id,
                select,
            ),
    decreases log.len(),
{
    if log.len() > 0 {
        lemma_selected_is_selected(log.drop_last(), aggregate_id, select);
    }
}

/// A read of two logs on end is the read of the first followed by the read of
/// the second.
pub proof fn lemma_selected_of_joined<T>(
    first: Seq<PersistedEvent<T>>,
    second: Seq<PersistedEvent<T>>,
    aggregate_id: Seq<char>,
    select: VersionSelect,
)
    ensures
        selected(first + second, aggregate_id, select) == selected(first, aggregate_id, select)
            + selected(second, aggregate_id, select),
    decreases second.len(),
{
    if second.len() > 0 {
        assert((first + second).drop_last() =~= first + second.drop_last());
        lemma_selected_of_joined(first, second.drop_last(), aggregate_id, select);
    }
}

/// A read that asks for every event of a log returns the log.
pub proof fn lemma_selected_whole<T>(
    log: Seq<PersistedEvent<T>>,
    aggregate_id: Seq<char>,
    select: VersionSelect,
)
    requires
        forall|i: int| 0 <= i < log.len() ==> is_selected(#[trigger] log[i], aggregate_id, select),
    ensures
        selected(log, aggregate_id, select) == log,
    decreases log.len(),
{
    if log.len() > 0 {
        lemma_selected_whole(log.drop_last(), aggregate_id, select);
    }
}

/// The events of `events` at version `first` or later, in the order of
/// `events`.
pub open spec fn from_version<T>(events: Seq<PersistedEvent<T>>, first: Version) -> Seq<
    PersistedEvent<T>,
>
    decreases events.len(),
{
    if events.len() == 0 {
        Seq::empty()
    } else {
        let before = from_version(events.drop_last(), first);
        if events.last().version >= first {
            before.push(events.last())
        } else {
            before
        }
    }
}

/// A read from a version on returns, of what a read of all versions returns,
/// exactly the events at that version or later, in the same order.
pub proof fn lemma_selected_from<T>(
    log: Seq<PersistedEvent<T>>,
    aggregate_id: Seq<char>,
    first: Version,
)
    ensures
        selected(log, aggregate_id, VersionSelect::From(first)) == from_version(
            selected(log, aggregate_id, VersionSelect::All),
            first,
        ),
    decreases log.len(),
{
    if log.len() > 0 {
        lemma_selected_from(log.drop_last(), aggregate_id, first);
        let all = selected(log.drop_last(), aggregate_id, VersionSelect::All);
        if log.last().aggregate_id@ == aggregate_id {
            assert(all.push(log.last()).drop_last() =~= all);
        }
    }
}

/// Whether the versions of `events` never go down.
pub open spec fn is_ascending<T>(events: Seq<PersistedEvent<T>>) -> bool {
    forall|i: int, j: int| 0 <= i < j < events.len() ==> events[i].version <= events[j].version
}

/// A store of events, each at its place in the history of one aggregate.
pub trait Eventstore {
    type Event;

    type Error;

    /// The events of the aggregate `aggregate_id` that `select` asks for.
    /// Whatever the store, a read returns no event of another aggregate and
    /// none outside the selection.
    fn read(&self, aggregate_id: String, select: VersionSelect) -> (r: Result<
        Vec<PersistedEvent<Self::Event>>,
        Self::Error,
    >)
        ensures
            r matches Ok(events) ==> forall|i: int|
                0 <= i < events.len() ==> is_selected(#[trigger] events[i], aggregate_id@, select),
    ;

    /// Adds `events` to the store, in their order. The events are added one
    /// by one: after a failure those before it stay.
    fn append(&mut self, events: Vec<PersistedEvent<Self::Event>>) -> Result<(), Self::Error>;
}

/// The number of events at the front of `events` whose version is below
/// `version`.
pub open spec fn rank<T>(events: Seq<PersistedEvent<T>>, version: Version) -> int
    decreases events.len(),
{
    if events.len() == 0 || events.first().version >= version {
        0
    } else {
        1 + rank(events.drop_first(), version)
    }
}

/// `events`, with `event` put before the first event of its version or a later
/// one.
pub open spec fn placed<T>(events: Seq<PersistedEvent<T>>, event: PersistedEvent<T>) -> Seq<
    PersistedEvent<T>,
> {
    events.insert(rank(events, event.version), event)
}

/// `events` in ascending order of version; events of one version keep their
/// order.
pub open spec fn by_version<T>(events: Seq<PersistedEvent<T>>) -> Seq<PersistedEvent<T>>
    decreases events.len(),
{
    if events.len() == 0 {
        Seq::empty()
    } else {
        placed(by_version(events.drop_first()), events.first())
    }
}

proof fn lemma_rank<T>(events: Seq<PersistedEvent<T>>, version: Version)
    ensures
        0 <= rank(events, version) <= events.len(),
        forall|i: int| 0 <= i < rank(events, version) ==> events[i].version < version,
        rank(events, version) < events.len() ==> events[rank(events, version)].version >= version,
    decreases events.len(),
{
    if events.len() > 0 && events.first().version < version {
        let rest = events.drop_first();
        lemma_rank(rest, version);
        assert forall|i: int| 0 <= i < rank(events, version) implies events[i].version
            < version by {
            if i > 0 {
                assert(events[i] == rest[i - 1]);
            }
        }
    }
}

proof fn lemma_rank_found<T>(events: Seq<PersistedEvent<T>>, version: Version, at: int)
    requires
        0 <= at <= events.len(),
        forall|i: int| 0 <= i < at ==> events[i].version < version,
        at < events.len() ==> events[at].version >= version,
    ensures
        rank(events, version) == at,
    decreases events.len(),
{
    if at > 0 {
        let rest = events.drop_first();
        lemma_rank_found(rest, version, at - 1);
    }
}

proof fn lemma_placed<T>(events: Seq<PersistedEvent<T>>, event: PersistedEvent<T>)
    requires
        is_ascending(events),
    ensures
        is_ascending(placed(events, event)),
        placed(events, event).to_multiset() == events.to_multiset().insert(event),
        placed(events, event).len() == events.len() + 1,
{
    let at = rank(events, event.version);
    lemma_rank(events, event.version);
    vstd::seq_lib::to_multiset_insert(events, at, event);
}

/// Ordering by version gives the same events, each as often as before, with
/// versions that never go down.
pub proof fn lemma_by_version<T>(events: Seq<PersistedEvent<T>>)
    ensures
        is_ascending(by_version(events)),
        by_version(events).to_multiset() == events.to_multiset(),
        by_version(events).len() == events.len(),
    decreases events.len(),
{
    if events.len() == 0 {
        assert(events =~= Seq::empty());
    } else {
        let rest = events.drop_first();
        lemma_by_version(rest);
        lemma_placed(by_version(rest), events.first());
        assert(events =~= rest.insert(0, events.first()));
        vstd::seq_lib::to_multiset_insert(rest, 0, events.first());
    }
}

/// Events whose versions never go down are in the order of their versions
/// already.
pub proof fn lemma_by_version_of_ascending<T>(events: Seq<PersistedEvent<T>>)
    requires
        is_ascending(events),
    ensures
        by_version(events) == events,
    decreases events.len(),
{
    if events.len() > 0 {
        let rest = events.drop_first();
        lemma_by_version_of_ascending(rest);
    }
}

/// Whether the versions of `events` go down from each event to the next.
pub open spec fn is_descending<T>(events: Seq<PersistedEvent<T>>) -> bool {
    forall|i: int, j: int| 0 <= i < j < events.len() ==> events[i].version > events[j].version
}

/// Events whose versions go down from each to the next come out in the
/// opposite order: oldest first where they were newest first.
pub proof fn lemma_by_version_of_descending<T>(events: Seq<PersistedEvent<T>>)
    requires
        is_descending(events),
    ensures
        by_version(events) == events.reverse(),
    decreases events.len(),
{
    if events.len() > 0 {
        let rest = events.drop_first();
        lemma_by_version_of_descending(rest);
        let turned = rest.reverse();
        lemma_rank_found(turned, events.first().version, turned.len() as int);
    }
}

/// Puts `events` in ascending order of version. Events of one version keep
/// their order.
pub fn sort_by_version<T>(events: Vec<PersistedEvent<T>>) -> (sorted: Vec<PersistedEvent<T>>)
    ensures
        sorted@ == by_version(events@),
{
    let mut rest = events;
    let mut sorted: Vec<PersistedEvent<T>> = Vec::new();
    while rest.len() > 0
        invariant
            rest@.len() <= events@.len(),
            rest@ == events@.take(rest@.len() as int),
            sorted@ == by_version(events@.skip(rest@.len() as int)),
        decreases rest.len(),
    {
        let ghost done = events@.skip(rest@.len() as int);
        let event = rest.pop().unwrap();
        let mut at: usize = 0;
        while at < sorted.len() && sorted[at].version < event.version
            invariant
                at <= sorted.len(),
                forall|i: int| 0 <= i < at ==> sorted[i].version < event.version,
            decreases sorted.len() - at,
        {
            at += 1;
        }
        proof {
            lemma_rank_found(sorted@, event.version, at as int);
            let more = events@.skip(rest@.len() as int);
            assert(more.drop_first() =~= done);
        }
        sorted.insert(at, event);
    }
    assert(events@.skip(0) =~= events@);
    sorted
}

} // verus!
