//! The walk over a repository's history: where it starts, when it ends, and
//! what it yields. The reader decides; the caller pushes the start point into
//! the backend's walk, advances it, and reports what happened.
use crate::commit_info::CommitInfo;
use crate::repository::BackendError;
use git2::Oid;
use vstd::prelude::*;

verus! {

/// The commit from which a walk goes back through the history.
#[derive(Clone, Copy, Debug, PartialEq, Eq)]
pub enum CommitReadStartOn {
    /// The commit that the head points at.
    Head,
    /// The commit with this identifier.
    Oid(Oid),
}

/// What the backend did at the reader's request.
pub enum WalkEvent {
    /// The start point was pushed into the walk, or the push failed.
    Pushed(Result<(), BackendError>),
    /// The walk was advanced: it gave its next commit, or failed to, or gave
    /// nothing because the history is exhausted.
    Advanced(Option<Result<CommitInfo, BackendError>>),
}

/// What the reader asks for next.
pub enum WalkAction {
    /// Push this start point into the walk, and report `WalkEvent::Pushed`.
    Push(CommitReadStartOn),
    /// Advance the walk, and report `WalkEvent::Advanced`.
    Advance,
    /// Hand this item to the consumer: a commit, a failure, or the end.
    Yield(Option<Result<CommitInfo, BackendError>>),
}

/// Whether `action` yields the last item of a walk: the end, or a failure.
pub open spec fn is_last(action: WalkAction) -> bool {
    match action {
        WalkAction::Yield(None) => true,
        WalkAction::Yield(Some(Err(_))) => true,
        _ => false,
    }
}

/// A reader of commits: from a start point back through the history, up to
/// and not including the first commit on which the end predicate holds. Once
/// it has yielded the end or a failure, it yields the end ever after.
pub struct CommitReader<F: Fn(&CommitInfo) -> bool> {
    start_on: CommitReadStartOn,
    end_when: Option<F>,
    started: bool,
    ended: bool,
}

impl<F: Fn(&CommitInfo) -> bool> CommitReader<F> {
    #[verifier::type_invariant]
    spec fn predicate_is_total(self) -> bool {
        self.end_when matches Some(f) ==> forall|commit: &CommitInfo| call_requires(f, (commit,))
    }

    /// Where the walk starts.
    pub closed spec fn start(self) -> CommitReadStartOn {
        self.start_on
    }

    /// The end predicate, if one was given.
    pub closed spec fn predicate(self) -> Option<F> {
        self.end_when
    }

    /// Whether the start point has been pushed into the walk.
    pub closed spec fn is_started(self) -> bool {
        self.started
    }

    /// Whether the reader has yielded its last item.
    pub closed spec fn is_ended(self) -> bool {
        self.ended
    }

    /// Whether the end predicate may answer `verdict` on `commit`. Without a
    /// predicate the answer is always no.
    pub open spec fn ends_at(self, commit: CommitInfo, verdict: bool) -> bool {
        match self.predicate() {
            Some(f) => call_ensures(f, (&commit,), verdict),
            None => !verdict,
        }
    }

    /// Whether the reader may yield the commit that the walk gave as `item`.
    pub open spec fn passes(self, item: Result<CommitInfo, BackendError>) -> bool {
        match item {
            Ok(commit) => self.ends_at(commit, false),
            Err(_) => false,
        }
    }

    /// Whether the reader may end on the commit that the walk gave as `item`.
    pub open spec fn stops(self, item: Result<CommitInfo, BackendError>) -> bool {
        match item {
            Ok(commit) => self.ends_at(commit, true),
            Err(_) => false,
        }
    }

    /// A reader that starts on the head and reads to the end of the history.
    /// Nothing is asked of the backend before the first item is requested.
    pub fn new() -> (reader: Self)
        ensures
            reader.start() == CommitReadStartOn::Head,
            reader.predicate() is None,
            !reader.is_started(),
            !reader.is_ended(),
    {
        CommitReader {
            start_on: CommitReadStartOn::Head,
            end_when: None,
            started: false,
            ended: false,
        }
    }

    /// The same reader, starting on the head.
    #[must_use]
    pub fn start_on_head(self) -> (reader: Self)
        ensures
            reader.start() == CommitReadStartOn::Head,
            reader.predicate() == self.predicate(),
            reader.is_started() == self.is_started(),
            reader.is_ended() == self.is_ended(),
    {
        self.start_on(CommitReadStartOn::Head)
    }

    /// The same reader, starting on the commit with this identifier.
    #[must_use]
    pub fn start_on_oid(self, oid: Oid) -> (reader: Self)
        ensures
            reader.start() == CommitReadStartOn::Oid(oid),
            reader.predicate() == self.predicate(),
            reader.is_started() == self.is_started(),
            reader.is_ended() == self.is_ended(),
    {
        self.start_on(CommitReadStartOn::Oid(oid))
    }

    /// The same reader, starting on `start`.
    #[must_use]
    pub fn start_on(self, start: CommitReadStartOn) -> (reader: Self)
        ensures
            reader.start() == start,
            reader.predicate() == self.predicate(),
            reader.is_started() == self.is_started(),
            reader.is_ended() == self.is_ended(),
    {
        proof {
            use_type_invariant(&self);
        }
        CommitReader {
            start_on: start,
            end_when: self.end_when,
            started: self.started,
            ended: self.ended,
        }
    }

    /// The same reader, ending before the first commit on which `end_when`
    /// holds. The predicate must accept every commit.
    #[must_use]
    pub fn end_when(self, end_when: F) -> (reader: Self)
        requires
            forall|commit: &CommitInfo| call_requires(end_when, (commit,)),
        ensures
            reader.start() == self.start(),
            reader.predicate() == Some(end_when),
            reader.is_started() == self.is_started(),
            reader.is_ended() == self.is_ended(),
    {
        CommitReader {
            start_on: self.start_on,
            end_when: Some(end_when),
            started: self.started,
            ended: self.ended,
        }
    }

    /// What a request for the next item begins with: the push of the start
    /// point while the walk has not started, an advance of the walk after
    /// that, and the end once the reader has ended.
    pub fn push_start(&self) -> (action: WalkAction)
        ensures
            action == if self.is_ended() {
                WalkAction::Yield(None)
            } else if self.is_started() {
                WalkAction::Advance
            } else {
                WalkAction::Push(self.start())
            },
    {
        if self.ended {
            WalkAction::Yield(None)
        } else if self.started {
            WalkAction::Advance
        } else {
            WalkAction::Push(self.start_on)
        }
    }

    /// What follows from an event. A push that succeeded starts the walk,
    /// which is then advanced; one that failed is yielded as a failure, and
    /// the walk stays unstarted. An exhausted walk and a failed advance are
    /// yielded as they are. A commit is yielded unless the end predicate holds
    /// on it: then the end is yielded in its place. With the end or a
    /// failure the reader ends, and whatever happens after that, it yields the
    /// end.
    pub fn next(&mut self, event: WalkEvent) -> (action: WalkAction)
        ensures
            final(self).start() == old(self).start(),
            final(self).predicate() == old(self).predicate(),
            final(self).is_ended() == (old(self).is_ended() || is_last(action)),
            final(self).is_started() == (old(self).is_started() || (!old(self).is_ended() && (
            event matches WalkEvent::Pushed(Ok(_))))),
            if old(self).is_ended() {
                action == WalkAction::Yield(None)
            } else {
                match event {
                    WalkEvent::Pushed(Ok(_)) => action == WalkAction::Advance,
                    WalkEvent::Pushed(Err(e)) => action == WalkAction::Yield(Some(Err(e))),
                    WalkEvent::Advanced(None) => action == WalkAction::Yield(None),
                    WalkEvent::Advanced(Some(Err(e))) => action == WalkAction::Yield(
                        Some(Err(e)),
                    ),
                    WalkEvent::Advanced(Some(Ok(commit))) => if action == WalkAction::Yield(None) {
                        old(self).ends_at(commit, true)
                    } else {
                        action == WalkAction::Yield(Some(Ok(commit))) && old(self).ends_at(
                            commit,
                            false,
                        )
                    },
                }
            },
    {
        proof {
            use_type_invariant(&*self);
        }
        if self.ended {
            return WalkAction::Yield(None);
        }
        match event {
            WalkEvent::Pushed(pushed) => match pushed {
                Ok(_) => {
                    self.started = true;
                    WalkAction::Advance
                },
                Err(e) => {
                    self.ended = true;
                    WalkAction::Yield(Some(Err(e)))
                },
            },
            WalkEvent::Advanced(item) => match item {
                Some(Ok(commit)) => {
                    let ended = match &self.end_when {
                        Some(f) => f(&commit),
                        None => false,
                    };
                    if ended {
                        self.ended = true;
                        WalkAction::Yield(None)
                    } else {
                        WalkAction::Yield(Some(Ok(commit)))
                    }
                },
                other => {
                    self.ended = true;
                    WalkAction::Yield(other)
                },
            },
        }
    }

    /// Everything that the reader yields over a walk whose start point is
    /// pushed with the outcome `pushed` and which then gives the items of
    /// `walk` in order: the commits before the first one on which the end
    /// predicate holds, or all of them; or the first failure, after which
    /// nothing more is read. A push that fails is that failure, and nothing
    /// of the walk is read then. A reader that has ended yields nothing.
    pub fn read(self, pushed: Result<(), BackendError>, walk: &Vec<
        Result<CommitInfo, BackendError>,
    >) -> (r: Result<Vec<CommitInfo>, BackendError>)
        ensures
            self.is_ended() ==> (r matches Ok(commits) && commits.len() == 0),
            !self.is_ended() ==> match r {
                Ok(commits) => {
                    &&& self.is_started() || pushed is Ok
                    &&& commits.len() <= walk.len()
                    &&& forall|i: int|
                        0 <= i < commits.len() ==> walk[i] == Ok::<CommitInfo, BackendError>(
                            commits[i],
                        ) && self.passes(walk[i])
                    &&& commits.len() < walk.len() ==> self.stops(walk[commits.len() as int])
                },
                Err(e) => {
                    ||| !self.is_started() && pushed == Err::<(), BackendError>(e)
                    ||| exists|n: int|
                        {
                            &&& self.is_started() || pushed is Ok
                            &&& 0 <= n < walk.len()
                            &&& walk[n] == Err::<CommitInfo, BackendError>(e)
                            &&& forall|i: int| 0 <= i < n ==> self.passes(walk[i])
                        }
                },
            },
    {
        let mut state = self;
        let mut commits: Vec<CommitInfo> = Vec::new();
        match state.push_start() {
            WalkAction::Push(_) => {
                if let WalkAction::Yield(Some(Err(e))) = state.next(WalkEvent::Pushed(pushed)) {
                    return Err(e);
                }
            },
            WalkAction::Advance => {},
            WalkAction::Yield(_) => {
                return Ok(commits);
            },
        }
        let mut n: usize = 0;
        while n < walk.len()
            invariant
                n <= walk.len(),
                commits.len() == n,
                state.predicate() == self.predicate(),
                !state.is_ended(),
                !self.is_ended(),
                self.is_started() || pushed is Ok,
                forall|i: int|
                    0 <= i < n ==> walk[i] == Ok::<CommitInfo, BackendError>(commits[i])
                        && self.passes(walk[i]),
            decreases walk.len() - n,
        {
            let item = match &walk[n] {
                Ok(commit) => Ok(commit.clone()),
                Err(e) => Err(e.clone()),
            };
            match state.next(WalkEvent::Advanced(Some(item))) {
                WalkAction::Yield(Some(Ok(commit))) => {
                    commits.push(commit);
                },
                WalkAction::Yield(Some(Err(e))) => {
                    return Err(e);
                },
                _ => {
                    return Ok(commits);
                },
            }
            n += 1;
        }
        Ok(commits)
    }
}

} // verus!
