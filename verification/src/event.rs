//! Events, and events as a store holds them.
use vstd::prelude::*;

verus! {

/// The version of an aggregate: the number of events applied to it.
pub type Version = u64;

/// One state transition of an aggregate.
pub trait Event {
    /// The name of the event's kind, as it is shown in the history.
    fn name(&self) -> String;
}

/// An event at its place in an aggregate's history.
#[derive(Debug, PartialEq, Eq)]
pub struct PersistedEvent<T> {
    pub aggregate_id: String,
    pub version: Version,
    pub event: T,
}

/// A persisted event with its aggregate's identifier as a sequence of
/// characters.
pub struct PersistedEventView<T> {
    pub aggregate_id: Seq<char>,
    pub version: Version,
    pub event: T,
}

impl<T> View for PersistedEvent<T> {
    type V = PersistedEventView<T>;

    open spec fn view(&self) -> PersistedEventView<T> {
        PersistedEventView {
            aggregate_id: self.aggregate_id@,
            version: self.version,
            event: self.event,
        }
    }
}

/// `copy` is a copy of `event`: the same place in the same history, with an
/// event that `clone` may return for the one that `event` holds.
pub open spec fn is_copy<T: Clone>(event: PersistedEvent<T>, copy: PersistedEvent<T>) -> bool {
    &&& copy.aggregate_id@ == event.aggregate_id@
    &&& copy.version == event.version
    &&& cloned(event.event, copy.event)
}

impl<T: Clone> Clone for PersistedEvent<T> {
    fn clone(&self) -> (copy: PersistedEvent<T>)
        ensures
            is_copy(*self, copy),
    {
        PersistedEvent {
            aggregate_id: self.aggregate_id.clone(),
            version: self.version,
            event: self.event.clone(),
        }
    }
}

/// An event as the history holds it: the name of its kind, and its data in
/// serialized form.
#[derive(Debug, PartialEq, Eq)]
pub struct EventRecord {
    pub name: String,
    pub payload: String,
}

/// An event record as two sequences of characters.
pub struct EventRecordView {
    pub name: Seq<char>,
    pub payload: Seq<char>,
}

impl View for EventRecord {
    type V = EventRecordView;

    open spec fn view(&self) -> EventRecordView {
        EventRecordView { name: self.name@, payload: self.payload@ }
    }
}

impl Clone for EventRecord {
    fn clone(&self) -> (copy: EventRecord)
        ensures
            copy == *self,
    {
        EventRecord { name: self.name.clone(), payload: self.payload.clone() }
    }
}

impl Event for EventRecord {
    fn name(&self) -> (name: String)
        ensures
            name@ == self.name@,
    {
        self.name.clone()
    }
}

} // verus!
