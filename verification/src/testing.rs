//! A small aggregate, its events, and a snapshot store in memory, for trying
//! the engine out.
use crate::aggregate::{are_distinct, holds, version_of, Aggregate, AggregateEntry, AggregateRoot};
use crate::event::{Event, PersistedEvent};
use crate::snapshot::Snapshot;
use std::convert::Infallible;
use vstd::prelude::*;

verus! {

/// How far a todo has come.
#[derive(Clone, Copy, Debug, PartialEq, Eq, Structural)]
pub enum TodoStatus {
    InProgress,
    Done,
}

/// What happens to a todo.
#[derive(Debug, PartialEq, Eq)]
pub enum TodoEvent {
    TodoCreated { id: String, title: String, status: TodoStatus },
    TodoTitleUpdated { title: String },
    TodoStatusUpdated { status: TodoStatus },
}

impl Clone for TodoEvent {
    fn clone(&self) -> (copy: TodoEvent)
        ensures
            copy == *self,
    {
        match self {
            TodoEvent::TodoCreated { id, title, status } => TodoEvent::TodoCreated {
                id: id.clone(),
                title: title.clone(),
                status: *status,
            },
            TodoEvent::TodoTitleUpdated { title } => TodoEvent::TodoTitleUpdated {
                title: title.clone(),
            },
            TodoEvent::TodoStatusUpdated { status } => TodoEvent::TodoStatusUpdated {
                status: *status,
            },
        }
    }
}

/// The name of the kind of `event`.
pub open spec fn name_of(event: TodoEvent) -> Seq<char> {
    match event {
        TodoEvent::TodoCreated { .. } => "TodoCreated"@,
        TodoEvent::TodoTitleUpdated { .. } => "TodoTitleUpdated"@,
        TodoEvent::TodoStatusUpdated { .. } => "TodoStatusUpdated"@,
    }
}

impl Event for TodoEvent {
    fn name(&self) -> (name: String)
        ensures
            name@ == name_of(*self),
    {
        match self {
            TodoEvent::TodoCreated { .. } => "TodoCreated".to_owned(),
            TodoEvent::TodoTitleUpdated { .. } => "TodoTitleUpdated".to_owned(),
            TodoEvent::TodoStatusUpdated { .. } => "TodoStatusUpdated".to_owned(),
        }
    }
}

/// Something to do.
#[derive(Debug, PartialEq, Eq)]
pub struct Todo {
    pub id: String,
    pub title: String,
    pub status: TodoStatus,
}

impl Clone for Todo {
    fn clone(&self) -> (copy: Todo)
        ensures
            copy == *self,
    {
        Todo { id: self.id.clone(), title: self.title.clone(), status: self.status }
    }
}

/// Why a todo refuses an event.
#[derive(Clone, Copy, Debug, PartialEq, Eq, Structural)]
pub enum TodoError {
    /// The todo exists already.
    AlreadyCreated,
    /// There is no such todo yet.
    NotCreated,
}

/// A todo as sequences of characters.
pub struct TodoView {
    pub id: Seq<char>,
    pub title: Seq<char>,
    pub status: TodoStatus,
}

impl View for Todo {
    type V = TodoView;

    open spec fn view(&self) -> TodoView {
        TodoView { id: self.id@, title: self.title@, status: self.status }
    }
}

/// The todo that follows `state` when `event` happens. Creation makes a todo
/// where there was none; a new title or status changes the todo that is there.
pub open spec fn applied(state: Option<TodoView>, event: TodoEvent) -> Result<TodoView, TodoError> {
    match (state, event) {
        (None, TodoEvent::TodoCreated { id, title, status }) => Ok(
            TodoView { id: id@, title: title@, status },
        ),
        (None, _) => Err(TodoError::NotCreated),
        (Some(_), TodoEvent::TodoCreated { .. }) => Err(TodoError::AlreadyCreated),
        (Some(todo), TodoEvent::TodoTitleUpdated { title }) => Ok(
            TodoView { id: todo.id, title: title@, status: todo.status },
        ),
        (Some(todo), TodoEvent::TodoStatusUpdated { status }) => Ok(
            TodoView { id: todo.id, title: todo.title, status },
        ),
    }
}

/// The view of the todo in `state`, if there is one.
pub open spec fn view_of(state: Option<&Todo>) -> Option<TodoView> {
    match state {
        Some(todo) => Some(todo@),
        None => None,
    }
}

impl Aggregate for Todo {
    type Event = TodoEvent;

    type Error = TodoError;

    fn apply(state: Option<&Todo>, event: &PersistedEvent<TodoEvent>) -> (r: Result<
        Todo,
        TodoError,
    >)
        ensures
            match r {
                Ok(todo) => applied(view_of(state), event.event) == Ok::<TodoView, TodoError>(
                    todo@,
                ),
                Err(error) => applied(view_of(state), event.event) == Err::<TodoView, TodoError>(
                    error,
                ),
            },
    {
        match state {
            None => match &event.event {
                TodoEvent::TodoCreated { id, title, status } => Ok(
                    Todo { id: id.clone(), title: title.clone(), status: *status },
                ),
                _ => Err(TodoError::NotCreated),
            },
            Some(todo) => match &event.event {
                TodoEvent::TodoCreated { .. } => Err(TodoError::AlreadyCreated),
                TodoEvent::TodoTitleUpdated { title } => Ok(
                    Todo { id: todo.id.clone(), title: title.clone(), status: todo.status },
                ),
                TodoEvent::TodoStatusUpdated { status } => Ok(
                    Todo { id: todo.id.clone(), title: todo.title.clone(), status: *status },
                ),
            },
        }
    }
}

/// A snapshot store in memory.
pub struct InMemorySnapshot<T: Aggregate + Clone> {
    saved: Vec<AggregateEntry<T>>,
}

/// Whether `copy` is a copy of `entry`: the same aggregate at the same
/// version, in a state that `clone` may return for the entry's state.
pub open spec fn is_copy_of<T: Clone>(entry: AggregateEntry<T>, copy: AggregateEntry<T>) -> bool {
    &&& copy.aggregate_id@ == entry.aggregate_id@
    &&& copy.version == entry.version
    &&& cloned(entry.state, copy.state)
}

/// Whether `copies` holds a copy of each entry of `entries`, in their order.
pub open spec fn are_copies_of<T: Clone>(
    entries: Seq<AggregateEntry<T>>,
    copies: Seq<AggregateEntry<T>>,
) -> bool {
    &&& copies.len() == entries.len()
    &&& forall|i: int| 0 <= i < entries.len() ==> is_copy_of(entries[i], #[trigger] copies[i])
}

impl<T: Aggregate + Clone> InMemorySnapshot<T> {
    #[verifier::type_invariant]
    spec fn no_aggregate_twice(self) -> bool {
        are_distinct(self.saved@)
    }

    /// The aggregates that were saved last.
    pub closed spec fn saved(self) -> Seq<AggregateEntry<T>> {
        self.saved@
    }

    /// A store in which nothing was saved yet.
    pub fn new() -> (store: Self)
        ensures
            store.saved().len() == 0,
    {
        InMemorySnapshot { saved: Vec::new() }
    }
}

fn copy_entries<T: Clone>(entries: &Vec<AggregateEntry<T>>) -> (copies: Vec<AggregateEntry<T>>)
    ensures
        are_copies_of(entries@, copies@),
{
    let mut copies: Vec<AggregateEntry<T>> = Vec::new();
    let mut n: usize = 0;
    while n < entries.len()
        invariant
            n <= entries.len(),
            are_copies_of(entries@.take(n as int), copies@),
        decreases entries.len() - n,
    {
        let entry = &entries[n];
        copies.push(
            AggregateEntry {
                aggregate_id: entry.aggregate_id.clone(),
                version: entry.version,
                state: entry.state.clone(),
            },
        );
        n += 1;
    }
    copies
}

impl<T: Aggregate + Clone> Snapshot<T> for InMemorySnapshot<T> {
    type Error = Infallible;

    /// A root with a copy of each aggregate that was saved last, at the
    /// version at which it was saved, and with no other aggregate. Never
    /// fails.
    fn load(&self) -> (r: Result<AggregateRoot<T>, Infallible>)
        ensures
            r matches Ok(root) && {
                &&& forall|id: Seq<char>|
                    root@.versions.contains_key(id) <==> holds(self.saved(), id)
                &&& forall|id: Seq<char>| root@.states.contains_key(id) <==> holds(self.saved(), id)
                &&& forall|i: int|
                    0 <= i < self.saved().len() ==> {
                        let entry = #[trigger] self.saved()[i];
                        &&& version_of(root@, entry.aggregate_id@) == entry.version
                        &&& cloned(entry.state, root@.states[entry.aggregate_id@])
                    }
            },
    {
        proof {
            use_type_invariant(self);
        }
        let mut root = AggregateRoot::new();
        let mut n: usize = 0;
        while n < self.saved.len()
            invariant
                n <= self.saved.len(),
                are_distinct(self.saved@),
                forall|id: Seq<char>|
                    root@.versions.contains_key(id) <==> holds(self.saved@.take(n as int), id),
                forall|id: Seq<char>|
                    root@.states.contains_key(id) <==> holds(self.saved@.take(n as int), id),
                forall|i: int|
                    0 <= i < n ==> {
                        let entry = #[trigger] self.saved@[i];
                        &&& version_of(root@, entry.aggregate_id@) == entry.version
                        &&& cloned(entry.state, root@.states[entry.aggregate_id@])
                    },
            decreases self.saved.len() - n,
        {
            let entry = &self.saved[n];
            let ghost before = self.saved@.take(n as int);
            let ghost after = self.saved@.take(n + 1);
            proof {
                assert forall|id: Seq<char>| holds(after, id) <==> holds(before, id) || id
                    == entry.aggregate_id@ by {
                    if id == entry.aggregate_id@ {
                        assert(after[n as int].aggregate_id@ == id);
                    }
                }
            }
            root.restore(entry.aggregate_id.clone(), entry.state.clone(), entry.version);
            n += 1;
        }
        assert(self.saved@.take(n as int) =~= self.saved@);
        Ok(root)
    }

    /// Keeps a copy of each aggregate of `root` in place of what was saved
    /// before. Never fails.
    fn save(&mut self, root: &AggregateRoot<T>) -> (r: Result<(), Infallible>)
        ensures
            r is Ok,
            are_copies_of(root.listing(), final(self).saved()),
    {
        let entries = root.entries();
        let copies = copy_entries(entries);
        self.saved = copies;
        Ok(())
    }
}

} // verus!
