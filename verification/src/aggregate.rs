//! Aggregates, and the root that holds the current state and version of each.
use crate::event::{PersistedEvent, Version};
use crate::eventstore::{selected, VersionSelect};
use vstd::prelude::*;

verus! {

/// A consistency boundary whose state follows from its events alone.
pub trait Aggregate: Sized {
    type Event;

    type Error;

    /// The state that follows `state` when `event` happens, or why the event
    /// cannot happen in that state. The first event of an aggregate meets no
    /// state.
    fn apply(state: Option<&Self>, event: &PersistedEvent<Self::Event>) -> Result<
        Self,
        Self::Error,
    >;
}

/// Why an event could not be replayed.
#[derive(Debug, PartialEq, Eq)]
pub enum AggregateError<E> {
    /// The event is not the one that follows the aggregate's version: there is
    /// a gap in the history, or a version occurs twice.
    VersionConflict { aggregate_id: String, expected: Version, actual: Version },
    /// The aggregate refused the event.
    Rejected(E),
}

/// One aggregate of a root: its identifier, the version of the last event
/// applied to it, and the state that this event left.
#[derive(Debug, PartialEq, Eq)]
pub struct AggregateEntry<T> {
    pub aggregate_id: String,
    pub version: Version,
    pub state: T,
}

/// The aggregates of one kind that are in memory, each with its version.
#[derive(Debug)]
pub struct AggregateRoot<T: Aggregate> {
    entries: Vec<AggregateEntry<T>>,
}

/// A root as two maps from the identifiers of its aggregates: to their
/// states, and to the versions of the last events applied to them.
pub struct RootView<T> {
    pub states: Map<Seq<char>, T>,
    pub versions: Map<Seq<char>, Version>,
}

/// Whether one of `entries` is the aggregate `aggregate_id`.
pub open spec fn holds<T>(entries: Seq<AggregateEntry<T>>, aggregate_id: Seq<char>) -> bool {
    exists|i: int| 0 <= i < entries.len() && (#[trigger] entries[i]).aggregate_id@ == aggregate_id
}

/// The position of the aggregate `aggregate_id` in `entries`.
pub open spec fn position<T>(entries: Seq<AggregateEntry<T>>, aggregate_id: Seq<char>) -> int {
    choose|i: int| 0 <= i < entries.len() && (#[trigger] entries[i]).aggregate_id@ == aggregate_id
}

/// Whether no two of `entries` are the same aggregate.
pub open spec fn are_distinct<T>(entries: Seq<AggregateEntry<T>>) -> bool {
    forall|i: int, j: int|
        0 <= i < j < entries.len() ==> (#[trigger] entries[i]).aggregate_id@ != (
        #[trigger] entries[j]).aggregate_id@
}

/// The root that `entries` make up.
pub open spec fn root_of<T>(entries: Seq<AggregateEntry<T>>) -> RootView<T> {
    RootView {
        states: Map::new(
            |id: Seq<char>| holds(entries, id),
            |id: Seq<char>| entries[position(entries, id)].state,
        ),
        versions: Map::new(
            |id: Seq<char>| holds(entries, id),
            |id: Seq<char>| entries[position(entries, id)].version,
        ),
    }
}

/// The version of the aggregate `aggregate_id` in `root`: that of the last
/// event applied to it, 0 where none was.
pub open spec fn version_of<T>(root: RootView<T>, aggregate_id: Seq<char>) -> Version {
    if root.versions.contains_key(aggregate_id) {
        root.versions[aggregate_id]
    } else {
        0
    }
}

/// The state of the aggregate `aggregate_id` in `root`, if it has one.
pub open spec fn state_of<T>(root: RootView<T>, aggregate_id: Seq<char>) -> Option<T> {
    if root.states.contains_key(aggregate_id) {
        Some(root.states[aggregate_id])
    } else {
        None
    }
}

/// Whether the aggregate may answer `event` in `state` with `outcome`.
pub open spec fn answers<T: Aggregate>(
    state: Option<T>,
    event: PersistedEvent<T::Event>,
    outcome: Result<T, T::Error>,
) -> bool {
    match state {
        Some(state) => call_ensures(T::apply, (Some(&state), &event), outcome),
        None => call_ensures(T::apply, (None, &event), outcome),
    }
}

/// Whether `event` is the next event of its aggregate in `root`: its version
/// is the aggregate's version plus one.
pub open spec fn is_next<T, E>(root: RootView<T>, event: PersistedEvent<E>) -> bool {
    event.version == version_of(root, event.aggregate_id@) + 1
}

/// `root` with the aggregate `aggregate_id` in this state at this version.
pub open spec fn with_aggregate<T>(
    root: RootView<T>,
    aggregate_id: Seq<char>,
    state: T,
    version: Version,
) -> RootView<T> {
    RootView {
        states: root.states.insert(aggregate_id, state),
        versions: root.versions.insert(aggregate_id, version),
    }
}

/// Whether applying `event` may lead from `before` to `after`: the event is
/// the next one of its aggregate, the aggregate may answer it with the state
/// that `after` holds, and `after` records the event's version. Nothing else
/// changes.
pub open spec fn applies<T: Aggregate>(
    before: RootView<T>,
    event: PersistedEvent<T::Event>,
    after: RootView<T>,
) -> bool {
    let id = event.aggregate_id@;
    &&& is_next(before, event)
    &&& after.states.contains_key(id)
    &&& answers(state_of(before, id), event, Ok::<T, T::Error>(after.states[id]))
    &&& after == with_aggregate(before, id, after.states[id], event.version)
}

/// Whether `trace` is a replay of `events` from `before` to `after`: it
/// begins with `before`, each event leads from one root of it to the next,
/// and it ends with `after`.
pub open spec fn is_replay<T: Aggregate>(
    trace: Seq<RootView<T>>,
    before: RootView<T>,
    events: Seq<PersistedEvent<T::Event>>,
    after: RootView<T>,
) -> bool {
    &&& trace.len() == events.len() + 1
    &&& trace.first() == before
    &&& trace.last() == after
    &&& forall|i: int|
        0 <= i < events.len() ==> applies(trace[i], events[i], #[trigger] trace[i + 1])
}

/// Whether replaying `events` in order may lead from `before` to `after`.
pub open spec fn replays<T: Aggregate>(
    before: RootView<T>,
    events: Seq<PersistedEvent<T::Event>>,
    after: RootView<T>,
) -> bool {
    exists|trace: Seq<RootView<T>>| is_replay(trace, before, events, after)
}

/// Whether replaying `event` on `root` may fail with `error`: with a version
/// conflict that names the aggregate, the version that was due and the
/// event's version, where the event is not the next one; with the
/// aggregate's refusal where it is.
pub open spec fn fails<T: Aggregate>(
    root: RootView<T>,
    event: PersistedEvent<T::Event>,
    error: AggregateError<T::Error>,
) -> bool {
    let id = event.aggregate_id@;
    match error {
        AggregateError::VersionConflict { aggregate_id, expected, actual } => {
            &&& !is_next(root, event)
            &&& aggregate_id@ == id
            &&& expected == if version_of(root, id) < u64::MAX {
                (version_of(root, id) + 1) as u64
            } else {
                u64::MAX
            }
            &&& actual == event.version
        },
        AggregateError::Rejected(refusal) => {
            &&& is_next(root, event)
            &&& answers(state_of(root, id), event, Err::<T, T::Error>(refusal))
        },
    }
}

/// What a root says of an aggregate is what its entry holds.
pub proof fn lemma_root_of_entry<T>(entries: Seq<AggregateEntry<T>>, at: int)
    requires
        are_distinct(entries),
        0 <= at < entries.len(),
    ensures
        root_of(entries).versions.contains_key(entries[at].aggregate_id@),
        version_of(root_of(entries), entries[at].aggregate_id@) == entries[at].version,
        state_of(root_of(entries), entries[at].aggregate_id@) == Some(entries[at].state),
{
}

proof fn lemma_root_of_pushed<T>(entries: Seq<AggregateEntry<T>>, entry: AggregateEntry<T>)
    requires
        are_distinct(entries),
        !holds(entries, entry.aggregate_id@),
    ensures
        are_distinct(entries.push(entry)),
        root_of(entries.push(entry)) == with_aggregate(
            root_of(entries),
            entry.aggregate_id@,
            entry.state,
            entry.version,
        ),
{
    let after = entries.push(entry);
    assert forall|id: Seq<char>| #![auto] holds(after, id) <==> holds(entries, id) || id
        == entry.aggregate_id@ by {
        if holds(after, id) {
            assert(after[position(after, id)].aggregate_id@ == id);
        }
        if holds(entries, id) {
            assert(after[position(entries, id)].aggregate_id@ == id);
        }
        if id == entry.aggregate_id@ {
            assert(after[entries.len() as int].aggregate_id@ == id);
        }
    }
    let expected = with_aggregate(
        root_of(entries),
        entry.aggregate_id@,
        entry.state,
        entry.version,
    );
    assert(root_of(after).states =~= expected.states);
    assert(root_of(after).versions =~= expected.versions);
}

proof fn lemma_root_of_replaced<T>(
    entries: Seq<AggregateEntry<T>>,
    at: int,
    entry: AggregateEntry<T>,
)
    requires
        are_distinct(entries),
        0 <= at < entries.len(),
        entries[at].aggregate_id@ == entry.aggregate_id@,
    ensures
        are_distinct(entries.update(at, entry)),
        root_of(entries.update(at, entry)) == with_aggregate(
            root_of(entries),
            entry.aggregate_id@,
            entry.state,
            entry.version,
        ),
{
    let after = entries.update(at, entry);
    assert forall|id: Seq<char>| #![auto] holds(after, id) <==> holds(entries, id) by {
        if holds(after, id) {
            assert(after[position(after, id)].aggregate_id@ == id);
        }
        if holds(entries, id) {
            assert(after[position(entries, id)].aggregate_id@ == id);
        }
    }
    let expected = with_aggregate(
        root_of(entries),
        entry.aggregate_id@,
        entry.state,
        entry.version,
    );
    assert(root_of(after).states =~= expected.states);
    assert(root_of(after).versions =~= expected.versions);
}

impl<T: Aggregate> View for AggregateRoot<T> {
    type V = RootView<T>;

    closed spec fn view(&self) -> RootView<T> {
        root_of(self.entries@)
    }
}

/// Whether an aggregate may have events after its version: it has, unless it
/// is at the last version there is.
pub open spec fn is_open<T>(entry: AggregateEntry<T>) -> bool {
    entry.version < u64::MAX
}

impl<T: Aggregate> AggregateRoot<T> {
    #[verifier::type_invariant]
    spec fn no_aggregate_twice(self) -> bool {
        are_distinct(self.entries@)
    }

    /// The aggregates of the root in the order in which `entries` lists them.
    pub closed spec fn listing(self) -> Seq<AggregateEntry<T>> {
        self.entries@
    }

    /// A root without aggregates.
    pub fn new() -> (root: Self)
        ensures
            root@.states == Map::<Seq<char>, T>::empty(),
            root@.versions == Map::<Seq<char>, Version>::empty(),
            root.listing().len() == 0,
    {
        AggregateRoot { entries: Vec::new() }
    }

    fn find(&self, aggregate_id: &str) -> (found: Option<usize>)
        ensures
            match found {
                Some(at) => at < self.entries.len() && self.entries[at as int].aggregate_id@
                    == aggregate_id@,
                None => !holds(self.entries@, aggregate_id@),
            },
    {
        let wanted = aggregate_id.to_owned();
        let mut at: usize = 0;
        while at < self.entries.len()
            invariant
                at <= self.entries.len(),
                wanted@ == aggregate_id@,
                forall|i: int| 0 <= i < at ==> self.entries[i].aggregate_id@ != aggregate_id@,
            decreases self.entries.len() - at,
        {
            if self.entries[at].aggregate_id == wanted {
                return Some(at);
            }
            at += 1;
        }
        None
    }

    /// The aggregates of the root, each once.
    pub fn entries(&self) -> (entries: &Vec<AggregateEntry<T>>)
        ensures
            entries@ == self.listing(),
            are_distinct(entries@),
            self@ == root_of(entries@),
    {
        proof {
            use_type_invariant(self);
        }
        &self.entries
    }

    /// The state of the aggregate `aggregate_id`, if the root holds it.
    pub fn get_state(&self, aggregate_id: &str) -> (state: Option<&T>)
        ensures
            match state {
                Some(state) => state_of(self@, aggregate_id@) == Some(*state),
                None => state_of(self@, aggregate_id@) is None,
            },
    {
        proof {
            use_type_invariant(self);
        }
        match self.find(aggregate_id) {
            Some(at) => {
                Some(&self.entries[at].state)
            },
            None => None,
        }
    }

    /// The version of the aggregate `aggregate_id`: that of the last event
    /// applied to it, 0 where the root does not hold it.
    pub fn get_version(&self, aggregate_id: &str) -> (version: Version)
        ensures
            version == version_of(self@, aggregate_id@),
    {
        proof {
            use_type_invariant(self);
        }
        match self.find(aggregate_id) {
            Some(at) => {
                self.entries[at].version
            },
            None => 0,
        }
    }

    /// Puts the aggregate `aggregate_id` into the root in this state at this
    /// version, in place of what the root held of it.
    pub fn restore(&mut self, aggregate_id: String, state: T, version: Version)
        ensures
            final(self)@ == with_aggregate(old(self)@, aggregate_id@, state, version),
    {
        proof {
            use_type_invariant(&*self);
        }
        let entry = AggregateEntry { aggregate_id, version, state };
        let found = self.find(entry.aggregate_id.as_str());
        let mut entries: Vec<AggregateEntry<T>> = Vec::new();
        std::mem::swap(&mut self.entries, &mut entries);
        match found {
            Some(at) => {
                proof {
                    lemma_root_of_replaced(entries@, at as int, entry);
                }
                entries.set(at, entry);
            },
            None => {
                proof {
                    lemma_root_of_pushed(entries@, entry);
                }
                entries.push(entry);
            },
        }
        self.entries = entries;
    }

    /// Replays one event: the event must be the next one of its aggregate,
    /// and the aggregate must accept it. Then the root holds the state that
    /// the aggregate answered, at the event's version. Otherwise the root
    /// stays as it was, and the error tells which of the two failed.
    pub fn save_event(&mut self, event: &PersistedEvent<T::Event>) -> (r: Result<
        (),
        AggregateError<T::Error>,
    >)
        ensures
            match r {
                Ok(_) => applies(old(self)@, *event, final(self)@),
                Err(error) => fails(old(self)@, *event, error) && final(self)@ == old(self)@,
            },
    {
        let current = self.get_version(event.aggregate_id.as_str());
        if current == u64::MAX || event.version != current + 1 {
            let expected = if current < u64::MAX {
                current + 1
            } else {
                u64::MAX
            };
            return Err(
                AggregateError::VersionConflict {
                    aggregate_id: event.aggregate_id.clone(),
                    expected,
                    actual: event.version,
                },
            );
        }
        let outcome = T::apply(self.get_state(event.aggregate_id.as_str()), event);
        match outcome {
            Ok(state) => {
                self.restore(event.aggregate_id.clone(), state, event.version);
                Ok(())
            },
            Err(refusal) => Err(AggregateError::Rejected(refusal)),
        }
    }

    /// Replays `events` in their order, up to the first that fails. After a
    /// success the root holds what the replay of all of them leads to. After
    /// a failure it holds what the replay of the events before the failing
    /// one leads to, and the error is that event's.
    pub fn save_events(&mut self, events: Vec<PersistedEvent<T::Event>>) -> (r: Result<
        (),
        AggregateError<T::Error>,
    >)
        ensures
            match r {
                Ok(_) => replays(old(self)@, events@, final(self)@),
                Err(error) => exists|n: int|
                    0 <= n < events.len() && replays(old(self)@, events@.take(n), final(self)@)
                        && fails(final(self)@, #[trigger] events[n], error),
            },
    {
        let ghost before = self@;
        let ghost mut trace: Seq<RootView<T>> = seq![self@];
        let mut n: usize = 0;
        while n < events.len()
            invariant
                n <= events.len(),
                before == old(self)@,
                is_replay(trace, before, events@.take(n as int), self@),
            decreases events.len() - n,
        {
            match self.save_event(&events[n]) {
                Ok(_) => {
                    proof {
                        trace = trace.push(self@);
                    }
                },
                Err(error) => {
                    return Err(error);
                },
            }
            n += 1;
        }
        proof {
            assert(events@.take(n as int) =~= events@);
        }
        Ok(())
    }
}

proof fn lemma_replay_counts<T: Aggregate>(
    trace: Seq<RootView<T>>,
    before: RootView<T>,
    events: Seq<PersistedEvent<T::Event>>,
    after: RootView<T>,
    aggregate_id: Seq<char>,
)
    requires
        is_replay(trace, before, events, after),
    ensures
        version_of(after, aggregate_id) == version_of(before, aggregate_id) + selected(
            events,
            aggregate_id,
            VersionSelect::All,
        ).len(),
        selected(events, aggregate_id, VersionSelect::All).len() == 0 ==> state_of(
            after,
            aggregate_id,
        ) == state_of(before, aggregate_id),
    decreases events.len(),
{
    if events.len() > 0 {
        let reached = trace[events.len() - 1];
        lemma_replay_counts(trace.drop_last(), before, events.drop_last(), reached, aggregate_id);
    }
}

/// A replay moves the version of each aggregate forward by the number of its
/// events: no event is skipped, and none is applied twice. An aggregate
/// without events keeps its state.
pub proof fn lemma_replay_advances<T: Aggregate>(
    before: RootView<T>,
    events: Seq<PersistedEvent<T::Event>>,
    after: RootView<T>,
    aggregate_id: Seq<char>,
)
    requires
        replays(before, events, after),
    ensures
        version_of(after, aggregate_id) == version_of(before, aggregate_id) + selected(
            events,
            aggregate_id,
            VersionSelect::All,
        ).len(),
        selected(events, aggregate_id, VersionSelect::All).len() == 0 ==> state_of(
            after,
            aggregate_id,
        ) == state_of(before, aggregate_id),
{
    let trace = choose|trace: Seq<RootView<T>>| is_replay(trace, before, events, after);
    lemma_replay_counts(trace, before, events, after, aggregate_id);
}

} // verus!
