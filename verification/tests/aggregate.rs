use geeks_event_sourcing::testing::{InMemorySnapshot, Todo, TodoError, TodoEvent, TodoStatus};
use geeks_event_sourcing::{
    get_unsaved_events, load_aggregate, rehydrate, sort_for_replay, AggregateError,
    AggregateRoot, Error, Eventstore, InMemoryEventstore, PersistedEvent, Snapshot,
    VersionSelect,
};

fn created(id: &str, title: &str) -> TodoEvent {
    TodoEvent::TodoCreated {
        id: id.to_string(),
        title: title.to_string(),
        status: TodoStatus::InProgress,
    }
}

fn retitled(title: &str) -> TodoEvent {
    TodoEvent::TodoTitleUpdated { title: title.to_string() }
}

fn done() -> TodoEvent {
    TodoEvent::TodoStatusUpdated { status: TodoStatus::Done }
}

fn persisted(aggregate_id: &str, version: u64, event: TodoEvent) -> PersistedEvent<TodoEvent> {
    PersistedEvent { aggregate_id: aggregate_id.to_string(), version, event }
}

fn todo(id: &str, title: &str, status: TodoStatus) -> Todo {
    Todo { id: id.to_string(), title: title.to_string(), status }
}

fn conflict(aggregate_id: &str, expected: u64, actual: u64) -> AggregateError<TodoError> {
    AggregateError::VersionConflict { aggregate_id: aggregate_id.to_string(), expected, actual }
}

/// An event store whose reads fail.
struct BrokenStore;

impl Eventstore for BrokenStore {
    type Event = TodoEvent;
    type Error = String;

    fn read(
        &self,
        aggregate_id: String,
        _select: VersionSelect,
    ) -> Result<Vec<PersistedEvent<TodoEvent>>, String> {
        Err(format!("cannot read {}", aggregate_id))
    }

    fn append(&mut self, _events: Vec<PersistedEvent<TodoEvent>>) -> Result<(), String> {
        Err("cannot append".to_string())
    }
}

/// An event store whose reads fail for all aggregates but one, and which
/// counts the reads.
struct HalfBroken {
    works_for: &'static str,
    reads: std::cell::Cell<usize>,
}

impl Eventstore for HalfBroken {
    type Event = TodoEvent;
    type Error = String;

    fn read(
        &self,
        aggregate_id: String,
        _select: VersionSelect,
    ) -> Result<Vec<PersistedEvent<TodoEvent>>, String> {
        self.reads.set(self.reads.get() + 1);
        if aggregate_id == self.works_for {
            Ok(vec![persisted(&aggregate_id, 2, retitled("later"))])
        } else {
            Err(format!("cannot read {}", aggregate_id))
        }
    }

    fn append(&mut self, _events: Vec<PersistedEvent<TodoEvent>>) -> Result<(), String> {
        Ok(())
    }
}

/// An event store that returns its events newest first.
struct NewestFirst(InMemoryEventstore<TodoEvent>);

impl Eventstore for NewestFirst {
    type Event = TodoEvent;
    type Error = std::convert::Infallible;

    fn read(
        &self,
        aggregate_id: String,
        select: VersionSelect,
    ) -> Result<Vec<PersistedEvent<TodoEvent>>, Self::Error> {
        let mut events = self.0.read(aggregate_id, select)?;
        events.reverse();
        Ok(events)
    }

    fn append(&mut self, events: Vec<PersistedEvent<TodoEvent>>) -> Result<(), Self::Error> {
        self.0.append(events)
    }
}

/// A snapshot store that fails to load, or to save.
struct BrokenSnapshot {
    loads: bool,
}

impl Snapshot<Todo> for BrokenSnapshot {
    type Error = &'static str;

    fn load(&self) -> Result<AggregateRoot<Todo>, Self::Error> {
        if self.loads {
            Ok(AggregateRoot::new())
        } else {
            Err("cannot load")
        }
    }

    fn save(&mut self, _root: &AggregateRoot<Todo>) -> Result<(), Self::Error> {
        Err("cannot save")
    }
}

#[test]
fn should_load_snapshot_from_fs() {
    let todo = todo("todo1", "Eat pizza", TodoStatus::Done);
    let mut root = AggregateRoot::<Todo>::new();
    root.restore("todo1".to_string(), todo, 1);
    let mut snapshot = InMemorySnapshot::new();
    snapshot.save(&root).unwrap();
    let aggregate = snapshot.load().unwrap();

    assert!(aggregate.get_state("todo1").is_some());
    assert_eq!(aggregate.get_state("todo1"), root.get_state("todo1"));
    assert_eq!(aggregate.get_version("todo1"), 1);
    assert_eq!(aggregate.entries().len(), 1);
}

#[test]
fn new_snapshot_store_loads_a_root_without_aggregates() {
    let snapshot: InMemorySnapshot<Todo> = InMemorySnapshot::new();
    let root = snapshot.load().unwrap();
    assert_eq!(root.entries().len(), 0);
    assert!(root.get_state("todo1").is_none());
    assert_eq!(root.get_version("todo1"), 0);
}

#[test]
fn saving_again_replaces_what_was_saved() {
    let mut snapshot = InMemorySnapshot::new();
    let mut root = AggregateRoot::<Todo>::new();
    root.restore("a".to_string(), todo("a", "A", TodoStatus::Done), 4);
    root.restore("b".to_string(), todo("b", "B", TodoStatus::InProgress), 2);
    snapshot.save(&root).unwrap();
    snapshot.save(&root).unwrap();
    assert_eq!(snapshot.load().unwrap().entries().len(), 2);

    let mut smaller = AggregateRoot::<Todo>::new();
    smaller.restore("b".to_string(), todo("b", "B2", TodoStatus::Done), 3);
    snapshot.save(&smaller).unwrap();
    let loaded = snapshot.load().unwrap();
    assert_eq!(loaded.entries().len(), 1);
    assert_eq!(loaded.get_state("b"), Some(&todo("b", "B2", TodoStatus::Done)));
    assert_eq!(loaded.get_version("b"), 3);
    assert_eq!(loaded.get_version("a"), 0);
}

#[test]
fn root_holds_each_aggregate_once() {
    let mut root = AggregateRoot::<Todo>::new();
    assert_eq!(root.get_version("todo1"), 0);
    assert_eq!(root.get_state("todo1"), None);
    root.restore("todo1".to_string(), todo("todo1", "one", TodoStatus::InProgress), 1);
    root.restore("todo2".to_string(), todo("todo2", "two", TodoStatus::InProgress), 5);
    root.restore("todo1".to_string(), todo("todo1", "uno", TodoStatus::Done), 2);
    assert_eq!(root.entries().len(), 2);
    assert_eq!(root.get_state("todo1"), Some(&todo("todo1", "uno", TodoStatus::Done)));
    assert_eq!(root.get_version("todo1"), 2);
    assert_eq!(root.get_version("todo2"), 5);
    assert_eq!(root.get_version("todo"), 0);
}

#[test]
fn events_are_replayed_in_order_and_versions_recorded() {
    let mut root = AggregateRoot::<Todo>::new();
    let r = root.save_events(vec![
        persisted("todo1", 1, created("todo1", "Drink coffee")),
        persisted("todo2", 1, created("todo2", "Sleep")),
        persisted("todo1", 2, retitled("Eat pizza")),
        persisted("todo1", 3, done()),
    ]);
    assert_eq!(r, Ok(()));
    assert_eq!(root.get_state("todo1"), Some(&todo("todo1", "Eat pizza", TodoStatus::Done)));
    assert_eq!(root.get_state("todo2"), Some(&todo("todo2", "Sleep", TodoStatus::InProgress)));
    assert_eq!(root.get_version("todo1"), 3);
    assert_eq!(root.get_version("todo2"), 1);
}

#[test]
fn gap_in_the_versions_is_a_conflict() {
    let mut root = AggregateRoot::<Todo>::new();
    let r = root.save_events(vec![
        persisted("todo1", 1, created("todo1", "Drink coffee")),
        persisted("todo1", 3, retitled("Eat pizza")),
        persisted("todo1", 2, retitled("Too late")),
    ]);
    assert_eq!(r, Err(conflict("todo1", 2, 3)));
    assert_eq!(root.get_version("todo1"), 1);
    assert_eq!(
        root.get_state("todo1"),
        Some(&todo("todo1", "Drink coffee", TodoStatus::InProgress))
    );
}

#[test]
fn version_that_occurs_twice_is_a_conflict() {
    let mut root = AggregateRoot::<Todo>::new();
    root.restore("todo1".to_string(), todo("todo1", "x", TodoStatus::InProgress), 2);
    assert_eq!(root.save_event(&persisted("todo1", 2, retitled("again"))), Err(conflict("todo1", 3, 2)));
    assert_eq!(root.save_event(&persisted("todo1", 0, retitled("zero"))), Err(conflict("todo1", 3, 0)));
    assert_eq!(root.save_event(&persisted("new", 0, created("new", "n"))), Err(conflict("new", 1, 0)));
    assert_eq!(root.save_event(&persisted("new", 2, created("new", "n"))), Err(conflict("new", 1, 2)));
    assert_eq!(root.save_event(&persisted("todo1", 3, retitled("next"))), Ok(()));
    assert_eq!(root.get_version("todo1"), 3);
}

#[test]
fn aggregate_at_the_last_version_takes_no_event() {
    let mut root = AggregateRoot::<Todo>::new();
    root.restore("todo1".to_string(), todo("todo1", "x", TodoStatus::InProgress), u64::MAX);
    assert_eq!(
        root.save_event(&persisted("todo1", u64::MAX, retitled("again"))),
        Err(conflict("todo1", u64::MAX, u64::MAX))
    );
    assert_eq!(
        root.save_event(&persisted("todo1", 0, retitled("wrapped"))),
        Err(conflict("todo1", u64::MAX, 0))
    );
    let store: InMemoryEventstore<TodoEvent> = InMemoryEventstore::new();
    assert_eq!(get_unsaved_events(&root, &store), Ok(Vec::new()));
}

#[test]
fn refusal_of_the_aggregate_is_kept() {
    let mut root = AggregateRoot::<Todo>::new();
    assert_eq!(
        root.save_event(&persisted("todo1", 1, retitled("nothing there"))),
        Err(AggregateError::Rejected(TodoError::NotCreated))
    );
    assert_eq!(root.get_version("todo1"), 0);
    assert_eq!(root.save_event(&persisted("todo1", 1, created("todo1", "a"))), Ok(()));
    assert_eq!(
        root.save_events(vec![
            persisted("todo1", 2, retitled("b")),
            persisted("todo1", 3, created("todo1", "again")),
            persisted("todo1", 4, retitled("c")),
        ]),
        Err(AggregateError::Rejected(TodoError::AlreadyCreated))
    );
    assert_eq!(root.get_version("todo1"), 2);
    assert_eq!(root.get_state("todo1"), Some(&todo("todo1", "b", TodoStatus::InProgress)));
}

#[test]
fn unsaved_events_are_those_after_each_version() {
    let mut store = InMemoryEventstore::new();
    store
        .append(vec![
            persisted("todo1", 1, created("todo1", "Drink coffee")),
            persisted("todo2", 1, created("todo2", "Sleep")),
            persisted("todo1", 2, retitled("Eat pizza")),
            persisted("todo3", 1, created("todo3", "Unknown to the root")),
            persisted("todo2", 2, retitled("Sleep more")),
            persisted("todo1", 3, done()),
        ])
        .unwrap();
    let mut root = AggregateRoot::<Todo>::new();
    root.restore("todo1".to_string(), todo("todo1", "Drink coffee", TodoStatus::InProgress), 1);
    root.restore("todo2".to_string(), todo("todo2", "Sleep more", TodoStatus::InProgress), 2);

    let unsaved = get_unsaved_events(&root, &store).unwrap();
    assert_eq!(
        unsaved,
        vec![persisted("todo1", 2, retitled("Eat pizza")), persisted("todo1", 3, done())]
    );
    assert_eq!(get_unsaved_events(&AggregateRoot::<Todo>::new(), &store), Ok(Vec::new()));
    assert_eq!(get_unsaved_events(&root, &BrokenStore), Err("cannot read todo1".to_string()));
}

#[test]
fn first_read_that_fails_ends_the_reading() {
    let mut root = AggregateRoot::<Todo>::new();
    root.restore("one".to_string(), todo("one", "1", TodoStatus::InProgress), 1);
    root.restore("two".to_string(), todo("two", "2", TodoStatus::InProgress), 1);
    root.restore("three".to_string(), todo("three", "3", TodoStatus::InProgress), 1);
    let listed: Vec<_> = root.entries().iter().map(|e| e.aggregate_id.clone()).collect();
    assert_eq!(listed, vec!["one", "two", "three"]);

    let store = HalfBroken { works_for: "one", reads: std::cell::Cell::new(0) };
    assert_eq!(get_unsaved_events(&root, &store), Err("cannot read two".to_string()));
    assert_eq!(store.reads.get(), 2);

    let store = HalfBroken { works_for: "three", reads: std::cell::Cell::new(0) };
    assert_eq!(get_unsaved_events(&root, &store), Err("cannot read one".to_string()));
    assert_eq!(store.reads.get(), 1);
}

#[test]
fn rehydration_applies_version_2_then_version_3() {
    let mut store = NewestFirst(InMemoryEventstore::new());
    store
        .append(vec![
            persisted("todo1", 1, created("todo1", "Drink coffee")),
            persisted("todo1", 2, retitled("Eat pizza")),
            persisted("todo1", 3, retitled("Eat more pizza")),
        ])
        .unwrap();
    let versions: Vec<_> = store
        .read("todo1".to_string(), VersionSelect::All)
        .unwrap()
        .iter()
        .map(|e| e.version)
        .collect();
    assert_eq!(versions, vec![3, 2, 1]);

    let mut saved = AggregateRoot::<Todo>::new();
    saved.restore("todo1".to_string(), todo("todo1", "Drink coffee", TodoStatus::InProgress), 1);
    let mut snapshot = InMemorySnapshot::new();
    snapshot.save(&saved).unwrap();

    let root = load_aggregate(&store, &mut snapshot).ok().unwrap();
    assert_eq!(root.get_version("todo1"), 3);
    assert_eq!(
        root.get_state("todo1"),
        Some(&todo("todo1", "Eat more pizza", TodoStatus::InProgress))
    );

    let again = snapshot.load().unwrap();
    assert_eq!(again.get_version("todo1"), 3);
    assert_eq!(again.get_state("todo1"), root.get_state("todo1"));
    let root = load_aggregate(&store, &mut snapshot).ok().unwrap();
    assert_eq!(root.get_version("todo1"), 3);
}

#[test]
fn rehydrate_orders_the_events_of_each_aggregate_by_version() {
    let mut root = AggregateRoot::<Todo>::new();
    root.restore("a".to_string(), todo("a", "A1", TodoStatus::InProgress), 1);
    root.restore("b".to_string(), todo("b", "B4", TodoStatus::InProgress), 4);
    let root = rehydrate(
        root,
        vec![
            persisted("b", 6, done()),
            persisted("a", 3, retitled("A3")),
            persisted("b", 5, retitled("B5")),
            persisted("a", 2, retitled("A2")),
        ],
    )
    .ok()
    .unwrap();
    assert_eq!(root.get_state("a"), Some(&todo("a", "A3", TodoStatus::InProgress)));
    assert_eq!(root.get_state("b"), Some(&todo("b", "B5", TodoStatus::Done)));
    assert_eq!(root.get_version("a"), 3);
    assert_eq!(root.get_version("b"), 6);
}

#[test]
fn rehydrate_replays_aggregate_by_aggregate() {
    let mut root = AggregateRoot::<Todo>::new();
    root.restore("b".to_string(), todo("b", "B1", TodoStatus::InProgress), 1);
    root.restore("a".to_string(), todo("a", "A3", TodoStatus::InProgress), 3);
    let r = rehydrate(root, vec![persisted("a", 5, done()), persisted("b", 3, done())]);
    assert_eq!(r.err(), Some(conflict("a", 4, 5)));

    let mut root = AggregateRoot::<Todo>::new();
    root.restore("b".to_string(), todo("b", "B1", TodoStatus::InProgress), 1);
    root.restore("a".to_string(), todo("a", "A3", TodoStatus::InProgress), 3);
    let r = rehydrate(root, vec![persisted("b", 3, done()), persisted("a", 4, done())]);
    assert_eq!(r.err(), Some(conflict("b", 2, 3)));
}

#[test]
fn replay_order_is_by_aggregate_then_by_version() {
    let events = vec![
        persisted("b", 1, retitled("b1")),
        persisted("ab", 9, retitled("ab9")),
        persisted("a", 2, retitled("a2 first")),
        persisted("é", 1, retitled("é1")),
        persisted("", 7, retitled("7")),
        persisted("a", 1, retitled("a1")),
        persisted("B", 3, retitled("B3")),
        persisted("a", 2, retitled("a2 second")),
        persisted("b", 0, retitled("b0")),
    ];
    let sorted = sort_for_replay(events);
    assert_eq!(
        sorted,
        vec![
            persisted("", 7, retitled("7")),
            persisted("B", 3, retitled("B3")),
            persisted("a", 1, retitled("a1")),
            persisted("a", 2, retitled("a2 first")),
            persisted("a", 2, retitled("a2 second")),
            persisted("ab", 9, retitled("ab9")),
            persisted("b", 0, retitled("b0")),
            persisted("b", 1, retitled("b1")),
            persisted("é", 1, retitled("é1")),
        ]
    );
    let mut ids: Vec<String> = sorted.iter().map(|e| e.aggregate_id.clone()).collect();
    let listed = ids.clone();
    ids.sort();
    assert_eq!(ids, listed);
    assert_eq!(sort_for_replay(Vec::<PersistedEvent<TodoEvent>>::new()), Vec::new());
}

#[test]
fn rehydrate_fails_on_a_gap() {
    let mut root = AggregateRoot::<Todo>::new();
    root.restore("a".to_string(), todo("a", "A1", TodoStatus::InProgress), 1);
    let r = rehydrate(root, vec![persisted("a", 4, done()), persisted("a", 2, retitled("A2"))]);
    assert_eq!(r.err(), Some(conflict("a", 3, 4)));
}

#[test]
fn load_with_an_empty_snapshot_store_replays_nothing_it_does_not_know() {
    let mut store = InMemoryEventstore::new();
    store.append(vec![persisted("todo1", 1, created("todo1", "Drink coffee"))]).unwrap();
    let mut snapshot: InMemorySnapshot<Todo> = InMemorySnapshot::new();
    let root = load_aggregate(&store, &mut snapshot).ok().unwrap();
    assert_eq!(root.entries().len(), 0);
}

#[test]
fn each_failure_keeps_its_origin() {
    let store: InMemoryEventstore<TodoEvent> = InMemoryEventstore::new();
    let r = load_aggregate(&store, &mut BrokenSnapshot { loads: false });
    assert_eq!(r.err(), Some(Error::SnapshotError("cannot load")));
    let r = load_aggregate(&store, &mut BrokenSnapshot { loads: true });
    assert_eq!(r.err(), Some(Error::SnapshotError("cannot save")));

    let mut saved = AggregateRoot::<Todo>::new();
    saved.restore("todo1".to_string(), todo("todo1", "Drink coffee", TodoStatus::InProgress), 1);
    let mut snapshot = InMemorySnapshot::new();
    snapshot.save(&saved).unwrap();
    let r = load_aggregate(&BrokenStore, &mut snapshot);
    assert_eq!(r.err(), Some(Error::EventstoreError("cannot read todo1".to_string())));

    let mut store = InMemoryEventstore::new();
    store.append(vec![persisted("todo1", 3, retitled("a gap before"))]).unwrap();
    let r = load_aggregate(&store, &mut snapshot);
    assert_eq!(r.err(), Some(Error::AggregateError(conflict("todo1", 2, 3))));
    assert_eq!(snapshot.load().unwrap().get_version("todo1"), 1);

    let mut store = InMemoryEventstore::new();
    store.append(vec![persisted("todo1", 2, created("todo1", "again"))]).unwrap();
    let r = load_aggregate(&store, &mut snapshot);
    assert_eq!(
        r.err(),
        Some(Error::AggregateError(AggregateError::Rejected(TodoError::AlreadyCreated)))
    );
}
