//! The event store that keeps each event as one commit of a repository: how an
//! event becomes a commit message and a commit an event, and which events of a
//! walk over the history a read returns.
use crate::commit_info::{
    lemma_parse_render, line_break, parsed, rendered, CommitInfo, CommitInfoView, CommitMessage,
    CommitMessageView,
};
use crate::event::{EventRecord, EventRecordView, PersistedEvent, PersistedEventView, Version};
use crate::eventstore::{
    are_of, by_version, is_ascending, lemma_by_version, lemma_by_version_of_descending,
    sort_by_version, VersionSelect,
};
use crate::frame::{
    decode_body, decoded, encode_body, framed, lemma_decoded_framed, Decoded, DecodedView,
    FrameView,
};
use crate::repository::BackendError;
use crate::text::{chars_of, extend, has_prefix, slice_of, starts_with, string_of};
use git2::Oid;
use std::path::PathBuf;
use vstd::prelude::*;

verus! {

/// The path of a repository, `std::path::PathBuf`: carried, never looked
/// into.
#[verifier::external_type_specification]
#[verifier::external_body]
pub struct ExPathBuf(std::path::PathBuf);

/// How the subject of an event commit begins.
pub const EVENT_TAG: &'static str = "[event] ";

/// Why a commit is no event.
#[derive(Debug, PartialEq, Eq)]
pub enum DecodeError {
    /// The subject does not begin with the tag of event commits.
    NotTagged,
    /// The body does not begin as the body of an event commit does.
    NotAFrame,
    /// The body begins as that of an event of this aggregate does, and goes
    /// on as none does.
    Corrupt { aggregate_id: String },
}

/// Why a commit is no event, with texts as sequences of characters.
pub enum DecodeErrorView {
    NotTagged,
    NotAFrame,
    Corrupt { aggregate_id: Seq<char> },
}

impl View for DecodeError {
    type V = DecodeErrorView;

    open spec fn view(&self) -> DecodeErrorView {
        match self {
            DecodeError::NotTagged => DecodeErrorView::NotTagged,
            DecodeError::NotAFrame => DecodeErrorView::NotAFrame,
            DecodeError::Corrupt { aggregate_id } => DecodeErrorView::Corrupt {
                aggregate_id: aggregate_id@,
            },
        }
    }
}

/// Why an event cannot be written as a commit.
#[derive(Clone, Copy, Debug, PartialEq, Eq, Structural)]
pub enum EncodeError {
    /// The name of the event's kind holds a line break: the subject of the
    /// commit would not be one line, and the commit would not read back as
    /// the event.
    NameNotOneLine,
}

/// Why reading an aggregate's events failed.
#[derive(Debug, PartialEq, Eq)]
pub enum ReadError {
    /// The walk over the history failed.
    Backend(BackendError),
    /// This commit holds an event of the aggregate that cannot be read.
    Corrupt { commit: Oid },
}

/// A persisted event record with its texts as sequences of characters.
pub type RecordView = PersistedEventView<EventRecordView>;

/// The view of a persisted event record.
pub open spec fn record_view(event: PersistedEvent<EventRecord>) -> RecordView {
    PersistedEventView {
        aggregate_id: event.aggregate_id@,
        version: event.version,
        event: event.event@,
    }
}

/// The message of the commit that holds `event`: the tag and the name of the
/// event's kind as subject, and as body the frame with the aggregate's
/// identifier, the event's version and its data.
pub open spec fn message_of(event: RecordView) -> CommitMessageView {
    CommitMessageView {
        subject: EVENT_TAG@ + event.event.name,
        body: framed(
            FrameView {
                aggregate_id: event.aggregate_id,
                version: event.version,
                payload: event.event.payload,
            },
        ),
    }
}

/// Whether `event` can be written as a commit: the name of its kind is one
/// line.
pub open spec fn is_encodable(event: RecordView) -> bool {
    !event.event.name.contains(line_break())
}

/// The message of the commit that holds `event`, or why the event cannot be
/// written as a commit.
pub open spec fn encoded(event: RecordView) -> Result<CommitMessageView, EncodeError> {
    if is_encodable(event) {
        Ok(message_of(event))
    } else {
        Err(EncodeError::NameNotOneLine)
    }
}

/// The event that a commit with `message` holds, or why it holds none.
pub open spec fn event_of(message: CommitMessageView) -> Result<RecordView, DecodeErrorView> {
    if !has_prefix(message.subject, EVENT_TAG@) {
        Err(DecodeErrorView::NotTagged)
    } else {
        match decoded(message.body) {
            DecodedView::NotAnEvent => Err(DecodeErrorView::NotAFrame),
            DecodedView::Corrupt { aggregate_id } => Err(DecodeErrorView::Corrupt { aggregate_id }),
            DecodedView::Event(frame) => Ok(
                PersistedEventView {
                    aggregate_id: frame.aggregate_id,
                    version: frame.version,
                    event: EventRecordView {
                        name: message.subject.skip(EVENT_TAG@.len() as int),
                        payload: frame.payload,
                    },
                },
            ),
        }
    }
}

/// The commit that holds an event gives the event back: its aggregate, its
/// version, its name and its data.
pub proof fn lemma_event_of_message(event: RecordView)
    ensures
        event_of(message_of(event)) == Ok::<RecordView, DecodeErrorView>(event),
{
    let message = message_of(event);
    let tag = EVENT_TAG@;
    assert(message.subject.subrange(0, tag.len() as int) =~= tag);
    assert(message.subject.skip(tag.len() as int) =~= event.event.name);
    lemma_decoded_framed(
        FrameView {
            aggregate_id: event.aggregate_id,
            version: event.version,
            payload: event.event.payload,
        },
    );
}

/// The text of the commit that holds an event gives the event back: every
/// event that can be written as a commit is read back from the commit's text
/// as it was.
pub proof fn lemma_event_of_text(event: RecordView)
    requires
        is_encodable(event),
    ensures
        event_of(parsed(rendered(message_of(event)))) == Ok::<RecordView, DecodeErrorView>(event),
{
    reveal_strlit("[event] ");
    reveal_strlit("{\"aggregate_id\":\"");
    let message = message_of(event);
    lemma_parse_render(message);
    lemma_event_of_message(event);
}

/// Whether a read of the aggregate `aggregate_id` with `select` returns the
/// event of `commit`: the commit holds an event of that aggregate with a
/// version that `select` asks for.
pub open spec fn is_wanted(
    commit: CommitInfoView,
    aggregate_id: Seq<char>,
    select: VersionSelect,
) -> bool {
    event_of(commit.message) matches Ok(event) && event.aggregate_id == aggregate_id
        && select.admits(event.version)
}

/// Whether `commit` holds an event of the aggregate `aggregate_id` that
/// cannot be read.
pub open spec fn is_lost(commit: CommitInfoView, aggregate_id: Seq<char>) -> bool {
    event_of(commit.message) == Err::<RecordView, DecodeErrorView>(
        DecodeErrorView::Corrupt { aggregate_id },
    )
}

/// The events that a read of `aggregate_id` with `select` finds in `commits`,
/// in the order of `commits`.
pub open spec fn found_in(
    commits: Seq<CommitInfo>,
    aggregate_id: Seq<char>,
    select: VersionSelect,
) -> Seq<RecordView>
    decreases commits.len(),
{
    if commits.len() == 0 {
        Seq::empty()
    } else {
        let before = found_in(commits.drop_last(), aggregate_id, select);
        if is_wanted(commits.last()@, aggregate_id, select) {
            before.push(event_of(commits.last()@.message)->Ok_0)
        } else {
            before
        }
    }
}

/// Every event that a read finds is an event of the aggregate with a version
/// that the selection holds, and the read finds no more events than there are
/// commits.
pub proof fn lemma_found_in_is_wanted(
    commits: Seq<CommitInfo>,
    aggregate_id: Seq<char>,
    select: VersionSelect,
)
    ensures
        found_in(commits, aggregate_id, select).len() <= commits.len(),
        forall|i: int|
            0 <= i < found_in(commits, aggregate_id, select).len() ==> {
                let event = #[trigger] found_in(commits, aggregate_id, select)[i];
                event.aggregate_id == aggregate_id && select.admits(event.version)
            },
    decreases commits.len(),
{
    if commits.len() > 0 {
        lemma_found_in_is_wanted(commits.drop_last(), aggregate_id, select);
    }
}

/// The events of `events` at version `first` or later, in the order of
/// `events`.
pub open spec fn records_from(events: Seq<RecordView>, first: Version) -> Seq<RecordView>
    decreases events.len(),
{
    if events.len() == 0 {
        Seq::empty()
    } else {
        let before = records_from(events.drop_last(), first);
        if events.last().version >= first {
            before.push(events.last())
        } else {
            before
        }
    }
}

/// A read from a version on finds, of what a read of all versions finds,
/// exactly the events at that version or later, in the same order.
pub proof fn lemma_found_in_from(commits: Seq<CommitInfo>, aggregate_id: Seq<char>, first: Version)
    ensures
        found_in(commits, aggregate_id, VersionSelect::From(first)) == records_from(
            found_in(commits, aggregate_id, VersionSelect::All),
            first,
        ),
    decreases commits.len(),
{
    if commits.len() > 0 {
        lemma_found_in_from(commits.drop_last(), aggregate_id, first);
        let all = found_in(commits.drop_last(), aggregate_id, VersionSelect::All);
        if is_wanted(commits.last()@, aggregate_id, VersionSelect::All) {
            let event = event_of(commits.last()@.message)->Ok_0;
            assert(all.push(event).drop_last() =~= all);
        }
    }
}

/// Whether `commits`, newest first, are the commits that hold `events`, one
/// for each event in the order of the events.
pub open spec fn hold_events(
    commits: Seq<CommitInfo>,
    events: Seq<PersistedEvent<EventRecord>>,
) -> bool {
    &&& commits.len() == events.len()
    &&& forall|i: int|
        0 <= i < events.len() ==> (#[trigger] commits[i])@.message == message_of(
            record_view(events[events.len() - 1 - i]),
        )
}

proof fn lemma_found_in_held(
    commits: Seq<CommitInfo>,
    events: Seq<PersistedEvent<EventRecord>>,
    aggregate_id: Seq<char>,
    count: int,
)
    requires
        hold_events(commits, events),
        are_of(events, aggregate_id),
        0 <= count <= commits.len(),
    ensures
        found_in(commits.take(count), aggregate_id, VersionSelect::All) == views_of(
            events.reverse().take(count),
        ),
        forall|i: int| 0 <= i < count ==> !is_lost((#[trigger] commits[i])@, aggregate_id),
    decreases count,
{
    if count > 0 {
        lemma_found_in_held(commits, events, aggregate_id, count - 1);
        let event = events[events.len() - count];
        lemma_event_of_message(record_view(event));
        assert(commits.take(count).drop_last() =~= commits.take(count - 1));
    }
}

/// After events of one aggregate were appended as commits, a read of all
/// versions of the aggregate over these commits loses no event and finds each
/// of them, newest first; what it returns holds each event that it found as
/// often as it found it, with versions that never go down.
pub proof fn lemma_read_after_append(
    commits: Seq<CommitInfo>,
    events: Seq<PersistedEvent<EventRecord>>,
    aggregate_id: Seq<char>,
    found: Seq<PersistedEvent<EventRecord>>,
)
    requires
        hold_events(commits, events),
        are_of(events, aggregate_id),
        views_of(found) == found_in(commits, aggregate_id, VersionSelect::All),
    ensures
        forall|i: int| 0 <= i < commits.len() ==> !is_lost((#[trigger] commits[i])@, aggregate_id),
        views_of(found) == views_of(events.reverse()),
        by_version(found).to_multiset() == found.to_multiset(),
        is_ascending(by_version(found)),
{
    lemma_found_in_held(commits, events, aggregate_id, commits.len() as int);
    assert(commits.take(commits.len() as int) =~= commits);
    lemma_by_version(found);
}

/// After events of one aggregate, with versions that go up from each to the
/// next, were appended as commits, a read of all versions of the aggregate
/// over these commits returns exactly these events, oldest first.
pub proof fn lemma_read_in_order(
    commits: Seq<CommitInfo>,
    events: Seq<PersistedEvent<EventRecord>>,
    aggregate_id: Seq<char>,
    found: Seq<PersistedEvent<EventRecord>>,
)
    requires
        hold_events(commits, events),
        are_of(events, aggregate_id),
        forall|i: int, j: int|
            0 <= i < j < events.len() ==> (#[trigger] events[i]).version < (
            #[trigger] events[j]).version,
        views_of(found) == found_in(commits, aggregate_id, VersionSelect::All),
    ensures
        views_of(by_version(found)) == views_of(events),
{
    lemma_read_after_append(commits, events, aggregate_id, found);
    let turned = events.reverse();
    assert(found.len() == events.len()) by {
        assert(views_of(found).len() == views_of(turned).len());
    }
    assert forall|i: int| 0 <= i < found.len() implies (#[trigger] found[i]).version
        == events[events.len() - 1 - i].version by {
        assert(views_of(found)[i] == views_of(turned)[i]);
    }
    lemma_by_version_of_descending(found);
    assert forall|i: int| 0 <= i < events.len() implies views_of(found.reverse())[i] == views_of(
        events,
    )[i] by {
        assert(views_of(found)[events.len() - 1 - i] == views_of(turned)[events.len() - 1 - i]);
    }
}

/// The views of `events`.
pub open spec fn views_of(events: Seq<PersistedEvent<EventRecord>>) -> Seq<RecordView> {
    events.map_values(|event: PersistedEvent<EventRecord>| record_view(event))
}

/// Whether a read of the aggregate `aggregate_id` gets past `item` of a walk:
/// the item is a commit, and not one that holds an event of the aggregate
/// that cannot be read.
pub open spec fn is_readable(
    item: Result<CommitInfo, BackendError>,
    aggregate_id: Seq<char>,
) -> bool {
    match item {
        Ok(commit) => !is_lost(commit@, aggregate_id),
        Err(_) => false,
    }
}

/// The error with which a read of the aggregate `aggregate_id` ends at
/// `item`, which it does not get past.
pub open spec fn ends_read(item: Result<CommitInfo, BackendError>, error: ReadError) -> bool {
    match item {
        Ok(commit) => error == (ReadError::Corrupt { commit: commit.id }),
        Err(e) => error == ReadError::Backend(e),
    }
}

/// The commits of a walk that gave no failure.
pub open spec fn commits_of(walk: Seq<Result<CommitInfo, BackendError>>) -> Seq<CommitInfo> {
    walk.map_values(|item: Result<CommitInfo, BackendError>| item->Ok_0)
}

/// An event store in the history of a repository.
pub struct GitEventstore {
    pub name: String,
    repo_path: PathBuf,
}

impl GitEventstore {
    /// The name of the store.
    pub closed spec fn spec_name(self) -> Seq<char> {
        self.name@
    }

    /// Where the repository lies.
    pub closed spec fn spec_repo_path(self) -> PathBuf {
        self.repo_path
    }

    /// The store with this name in the repository at `repo_path`.
    pub fn new(name: &str, repo_path: PathBuf) -> (store: Self)
        ensures
            store.spec_name() == name@,
            store.spec_repo_path() == repo_path,
    {
        GitEventstore { name: name.to_owned(), repo_path }
    }

    /// Where the repository lies.
    pub fn repo_path(&self) -> (path: &PathBuf)
        ensures
            *path == self.spec_repo_path(),
    {
        &self.repo_path
    }

    /// The message of the commit that holds `persisted`. An event whose kind
    /// has a name of more than one line cannot be written, and is refused.
    pub fn event_to_commit_message(persisted: &PersistedEvent<EventRecord>) -> (r: Result<
        CommitMessage,
        EncodeError,
    >)
        ensures
            match r {
                Ok(message) => encoded(record_view(*persisted)) == Ok::<
                    CommitMessageView,
                    EncodeError,
                >(message@),
                Err(error) => encoded(record_view(*persisted)) == Err::<
                    CommitMessageView,
                    EncodeError,
                >(error),
            },
    {
        let name = chars_of(persisted.event.name.as_str());
        let mut n: usize = 0;
        while n < name.len()
            invariant
                n <= name.len(),
                name@ == persisted.event.name@,
                forall|i: int| 0 <= i < n ==> name@[i] != line_break(),
            decreases name.len() - n,
        {
            if name[n] == '\n' {
                assert(name@.contains(name@[n as int]));
                return Err(EncodeError::NameNotOneLine);
            }
            n += 1;
        }
        let mut subject = chars_of(EVENT_TAG);
        extend(&mut subject, &name);
        Ok(
            CommitMessage {
                subject: string_of(&subject),
                body: encode_body(
                    persisted.aggregate_id.as_str(),
                    persisted.version,
                    persisted.event.payload.as_str(),
                ),
            },
        )
    }

    /// The event that `commit` holds, or why it holds none.
    pub fn commit_to_event(commit: &CommitInfo) -> (r: Result<
        PersistedEvent<EventRecord>,
        DecodeError,
    >)
        ensures
            match r {
                Ok(event) => event_of(commit@.message) == Ok::<RecordView, DecodeErrorView>(
                    record_view(event),
                ),
                Err(error) => event_of(commit@.message) == Err::<RecordView, DecodeErrorView>(
                    error@,
                ),
            },
    {
        let subject = chars_of(commit.message.subject.as_str());
        let tag = chars_of(EVENT_TAG);
        if !starts_with(&subject, &tag) {
            return Err(DecodeError::NotTagged);
        }
        match decode_body(commit.message.body.as_str()) {
            Decoded::NotAnEvent => Err(DecodeError::NotAFrame),
            Decoded::Corrupt { aggregate_id } => Err(DecodeError::Corrupt { aggregate_id }),
            Decoded::Event(frame) => {
                let name = slice_of(&subject, tag.len(), subject.len());
                Ok(
                    PersistedEvent {
                        aggregate_id: frame.aggregate_id,
                        version: frame.version,
                        event: EventRecord { name: string_of(&name), payload: frame.payload },
                    },
                )
            },
        }
    }

    /// What is to be committed for `events`: for each event, in the order of
    /// the events, the message of the commit that holds it, or why it cannot
    /// be written. The commits are to be made one by one in this order, up to
    /// the first event that cannot be written.
    pub fn append(&self, events: &Vec<PersistedEvent<EventRecord>>) -> (messages: Vec<
        Result<CommitMessage, EncodeError>,
    >)
        ensures
            messages.len() == events.len(),
            forall|i: int|
                0 <= i < events.len() ==> match #[trigger] messages[i] {
                    Ok(message) => encoded(record_view(events[i])) == Ok::<
                        CommitMessageView,
                        EncodeError,
                    >(message@),
                    Err(error) => encoded(record_view(events[i])) == Err::<
                        CommitMessageView,
                        EncodeError,
                    >(error),
                },
    {
        let mut messages: Vec<Result<CommitMessage, EncodeError>> = Vec::new();
        let mut n: usize = 0;
        while n < events.len()
            invariant
                n <= events.len(),
                messages.len() == n,
                forall|i: int|
                    0 <= i < n ==> match #[trigger] messages[i] {
                        Ok(message) => encoded(record_view(events[i])) == Ok::<
                            CommitMessageView,
                            EncodeError,
                        >(message@),
                        Err(error) => encoded(record_view(events[i])) == Err::<
                            CommitMessageView,
                            EncodeError,
                        >(error),
                    },
            decreases events.len() - n,
        {
            messages.push(GitEventstore::event_to_commit_message(&events[n]));
            n += 1;
        }
        messages
    }

    /// The events of the aggregate `aggregate_id` that `select` asks for,
    /// from a walk over the history that gave `walk`, newest commit first: in
    /// ascending order of version, whatever the order of the commits.
    ///
    /// A commit that holds no event, or an event of another aggregate, is
    /// passed over. A commit that holds an event of this aggregate that cannot
    /// be read fails the read, and so does a failure of the walk, whichever
    /// comes first.
    pub fn read(
        &self,
        walk: &Vec<Result<CommitInfo, BackendError>>,
        aggregate_id: &str,
        select: VersionSelect,
    ) -> (r: Result<Vec<PersistedEvent<EventRecord>>, ReadError>)
        ensures
            match r {
                Ok(events) => {
                    &&& forall|i: int|
                        0 <= i < walk.len() ==> is_readable(#[trigger] walk[i], aggregate_id@)
                    &&& exists|found: Seq<PersistedEvent<EventRecord>>|
                        #![auto]
                        views_of(found) == found_in(commits_of(walk@), aggregate_id@, select)
                            && events@ == by_version(found)
                },
                Err(error) => exists|n: int|
                    {
                        &&& 0 <= n < walk.len()
                        &&& forall|i: int|
                            0 <= i < n ==> is_readable(#[trigger] walk[i], aggregate_id@)
                        &&& !is_readable(walk[n], aggregate_id@)
                        &&& #[trigger] ends_read(walk[n], error)
                    },
            },
    {
        let wanted = aggregate_id.to_owned();
        let mut found: Vec<PersistedEvent<EventRecord>> = Vec::new();
        let mut n: usize = 0;
        while n < walk.len()
            invariant
                n <= walk.len(),
                wanted@ == aggregate_id@,
                forall|i: int| 0 <= i < n ==> is_readable(#[trigger] walk[i], aggregate_id@),
                views_of(found@) == found_in(
                    commits_of(walk@.take(n as int)),
                    aggregate_id@,
                    select,
                ),
            decreases walk.len() - n,
        {
            let commit = match &walk[n] {
                Ok(commit) => commit,
                Err(e) => {
                    assert(ends_read(walk[n as int], ReadError::Backend(*e)));
                    return Err(ReadError::Backend(e.clone()));
                },
            };
            proof {
                let longer = commits_of(walk@.take(n + 1));
                assert(longer.drop_last() =~= commits_of(walk@.take(n as int)));
            }
            match GitEventstore::commit_to_event(commit) {
                Ok(event) => {
                    if event.aggregate_id == wanted && select.includes(event.version) {
                        found.push(event);
                    }
                },
                Err(error) => {
                    if let DecodeError::Corrupt { aggregate_id: owner } = error {
                        if owner == wanted {
                            let lost = ReadError::Corrupt { commit: commit.id };
                            assert(ends_read(walk[n as int], lost));
                            return Err(lost);
                        }
                    }
                },
            }
            n += 1;
        }
        assert(walk@.take(n as int) =~= walk@);
        Ok(sort_by_version(found))
    }
}

} // verus!
