//! An event store that keeps its events in memory, in the order in which they
//! were appended.
use crate::event::{is_copy, Event, PersistedEvent};
use crate::eventstore::{
    are_of, is_ascending, lemma_selected_is_selected, lemma_selected_of_joined,
    lemma_selected_whole, selected, Eventstore, VersionSelect,
};
use std::convert::Infallible;
use vstd::prelude::*;

verus! {

/// An event store in memory. Every store is a value of its own: two stores
/// share nothing.
#[derive(Debug)]
pub struct InMemoryEventstore<T: Event> {
    log: Vec<PersistedEvent<T>>,
}

/// `copies` holds a copy of each event of `events`, in the same order.
pub open spec fn are_copies<T: Clone>(
    events: Seq<PersistedEvent<T>>,
    copies: Seq<PersistedEvent<T>>,
) -> bool {
    &&& copies.len() == events.len()
    &&& forall|i: int| 0 <= i < events.len() ==> is_copy(events[i], #[trigger] copies[i])
}

impl<T: Event> InMemoryEventstore<T> {
    /// The events that the store holds, in the order in which they were
    /// appended.
    pub closed spec fn events(self) -> Seq<PersistedEvent<T>> {
        self.log@
    }

    /// A store that holds no event.
    pub fn new() -> (store: Self)
        ensures
            store.events() == Seq::<PersistedEvent<T>>::empty(),
    {
        InMemoryEventstore { log: Vec::new() }
    }
}

impl<T: Event> Default for InMemoryEventstore<T> {
    fn default() -> (store: Self)
        ensures
            store.events() == Seq::<PersistedEvent<T>>::empty(),
    {
        InMemoryEventstore::new()
    }
}

impl<T: Event + Clone> Eventstore for InMemoryEventstore<T> {
    type Event = T;

    type Error = Infallible;

    /// A copy of each event of the aggregate that `select` asks for, in the
    /// order in which the events were appended. Never fails.
    fn read(&self, aggregate_id: String, select: VersionSelect) -> (r: Result<
        Vec<PersistedEvent<T>>,
        Infallible,
    >)
        ensures
            r matches Ok(events) && are_copies(
                selected(self.events(), aggregate_id@, select),
                events@,
            ),
    {
        let mut events: Vec<PersistedEvent<T>> = Vec::new();
        let mut n: usize = 0;
        while n < self.log.len()
            invariant
                n <= self.log.len(),
                are_copies(selected(self.log@.take(n as int), aggregate_id@, select), events@),
            decreases self.log.len() - n,
        {
            let event = &self.log[n];
            assert(self.log@.take(n + 1).drop_last() =~= self.log@.take(n as int));
            if event.aggregate_id == aggregate_id && select.includes(event.version) {
                events.push(event.clone());
            }
            n += 1;
        }
        proof {
            assert(self.log@.take(n as int) =~= self.log@);
            lemma_selected_is_selected(self.log@, aggregate_id@, select);
        }
        Ok(events)
    }

    /// Puts `events` at the end of the store, in their order. Never fails.
    fn append(&mut self, events: Vec<PersistedEvent<T>>) -> (r: Result<(), Infallible>)
        ensures
            r is Ok,
            final(self).events() == old(self).events() + events@,
    {
        let mut events = events;
        self.log.append(&mut events);
        Ok(())
    }
}

/// After `events`, all of one aggregate, are appended to a store that held
/// none of that aggregate, a read of all its versions returns these events in
/// the order in which they were appended: ascending by version where they
/// were appended so.
pub proof fn lemma_read_after_append<T>(
    log: Seq<PersistedEvent<T>>,
    events: Seq<PersistedEvent<T>>,
    aggregate_id: Seq<char>,
)
    requires
        selected(log, aggregate_id, VersionSelect::All).len() == 0,
        are_of(events, aggregate_id),
    ensures
        selected(log + events, aggregate_id, VersionSelect::All) == events,
        is_ascending(events) ==> is_ascending(
            selected(log + events, aggregate_id, VersionSelect::All),
        ),
{
    lemma_selected_of_joined(log, events, aggregate_id, VersionSelect::All);
    lemma_selected_whole(events, aggregate_id, VersionSelect::All);
}

} // verus!
