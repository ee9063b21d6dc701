use geeks_event_sourcing::{
    BackendError, CommitInfo, CommitReadStartOn, CommitReader, RawCommit, WalkAction, WalkEvent,
};
use git2::Oid;

/// A history, newest commit first.
struct History {
    commits: Vec<CommitInfo>,
}

fn oid(n: usize) -> Oid {
    Oid::from_str(&format!("{:040x}", n)).unwrap()
}

fn not_found() -> BackendError {
    BackendError { code: -3, class: 0, message: "not found".to_string() }
}

/// The history that `git commit --allow-empty -m ..` leaves for these
/// messages, given oldest first.
fn history(messages: &[&str]) -> History {
    let mut commits = Vec::new();
    for (n, message) in messages.iter().enumerate().rev() {
        commits.push(CommitInfo::from(RawCommit {
            message: Some(format!("{}\n", message)),
            time: 1_600_000_000 + n as i64,
            author_name: Some("Test".to_string()),
            author_email: Some("test@test.com".to_string()),
            id: oid(n + 1),
        }));
    }
    History { commits }
}

/// The walk that a backend runs for a reader over a history.
struct Walk<'a, F: Fn(&CommitInfo) -> bool> {
    history: &'a History,
    reader: CommitReader<F>,
    next: Option<usize>,
    pushes: usize,
}

impl<'a, F: Fn(&CommitInfo) -> bool> Walk<'a, F> {
    fn new(history: &'a History, reader: CommitReader<F>) -> Self {
        Walk { history, reader, next: None, pushes: 0 }
    }

    fn push(&mut self, start: CommitReadStartOn) -> Result<(), BackendError> {
        self.pushes += 1;
        let found = match start {
            CommitReadStartOn::Head => {
                if self.history.commits.is_empty() {
                    None
                } else {
                    Some(0)
                }
            }
            CommitReadStartOn::Oid(id) => self.history.commits.iter().position(|c| c.id == id),
        };
        match found {
            Some(at) => {
                self.next = Some(at);
                Ok(())
            }
            None => Err(not_found()),
        }
    }

    fn advance(&mut self) -> Option<Result<CommitInfo, BackendError>> {
        let at = self.next?;
        let commit = self.history.commits.get(at)?;
        self.next = Some(at + 1);
        Some(Ok(commit.clone()))
    }
}

impl<'a, F: Fn(&CommitInfo) -> bool> Iterator for Walk<'a, F> {
    type Item = Result<CommitInfo, BackendError>;

    fn next(&mut self) -> Option<Self::Item> {
        let mut action = self.reader.push_start();
        loop {
            action = match action {
                WalkAction::Push(start) => {
                    let pushed = self.push(start);
                    self.reader.next(WalkEvent::Pushed(pushed))
                }
                WalkAction::Advance => {
                    let item = self.advance();
                    self.reader.next(WalkEvent::Advanced(item))
                }
                WalkAction::Yield(item) => return item,
            };
        }
    }
}

type Always = fn(&CommitInfo) -> bool;

#[test]
fn should_read_commits_from_head() {
    let fixture = history(&["1", "2", "3"]);
    let reader = CommitReader::<Always>::new().start_on_head();
    let commits: Vec<_> = Walk::new(&fixture, reader).map(|x| x.unwrap()).collect();

    assert_eq!(commits.len(), 3);
    assert!(commits[0].message.subject.contains('3'));
    assert!(commits[1].message.subject.contains('2'));
    assert!(commits[2].message.subject.contains('1'));
}

#[test]
fn should_read_commits_from_oid() {
    let fixture = history(&["1", "2", "3"]);
    let reader = CommitReader::<Always>::new().start_on_head();
    let commits: Vec<_> = Walk::new(&fixture, reader).map(|x| x.unwrap()).collect();

    let reader = CommitReader::<Always>::new().start_on_oid(commits[1].id);
    let commits: Vec<_> = Walk::new(&fixture, reader).map(|x| x.unwrap()).collect();

    assert_eq!(commits.len(), 2);
    assert!(commits[0].message.subject.contains('2'));
    assert!(commits[1].message.subject.contains('1'));
}

#[test]
fn should_read_commits_by_limited() {
    let fixture = history(&["1", "2", "3"]);
    let reader = CommitReader::<Always>::new().start_on_head();
    let commits: Vec<_> = Walk::new(&fixture, reader).take(2).map(|x| x.unwrap()).collect();

    assert_eq!(commits.len(), 2);
    assert!(commits[0].message.subject.contains('3'));
    assert!(commits[1].message.subject.contains('2'));
}

#[test]
fn should_read_commits_until_end() {
    let fixture = history(&["1", "2", "3", "4", "5"]);
    let reader = CommitReader::new()
        .start_on_head()
        .end_when(|commit: &CommitInfo| commit.message.subject.contains('3'));
    let commits: Vec<_> = Walk::new(&fixture, reader).map(|x| x.unwrap()).collect();

    assert_eq!(commits.len(), 2);
    assert!(commits[0].message.subject.contains('5'));
    assert!(commits[1].message.subject.contains('4'));

    let reader = CommitReader::new()
        .start_on_head()
        .end_when(|commit: &CommitInfo| commit.message.subject.contains('5'));
    let commits: Vec<_> = Walk::new(&fixture, reader).map(|x| x.unwrap()).collect();

    assert_eq!(commits.len(), 0);
}

#[test]
fn reader_asks_for_nothing_before_the_first_item() {
    let fixture = history(&["1", "2"]);
    let reader = CommitReader::<Always>::new().start_on_oid(oid(1)).start_on_head();
    let mut walk = Walk::new(&fixture, reader);
    assert_eq!(walk.pushes, 0);
    assert!(walk.next().is_some());
    assert_eq!(walk.pushes, 1);
    assert!(walk.next().is_some());
    assert!(walk.next().is_none());
    assert_eq!(walk.pushes, 1);
}

#[test]
fn reader_starts_with_a_push_and_goes_on_with_advances() {
    let mut reader = CommitReader::<Always>::new().start_on_oid(oid(7));
    assert!(matches!(
        reader.push_start(),
        WalkAction::Push(CommitReadStartOn::Oid(id)) if id == oid(7)
    ));
    assert!(matches!(reader.next(WalkEvent::Pushed(Ok(()))), WalkAction::Advance));
    assert!(matches!(reader.push_start(), WalkAction::Advance));
    assert!(matches!(reader.next(WalkEvent::Advanced(None)), WalkAction::Yield(None)));
}

#[test]
fn reader_yields_a_failed_push_and_ends() {
    let mut reader = CommitReader::<Always>::new();
    let action = reader.next(WalkEvent::Pushed(Err(not_found())));
    assert!(matches!(action, WalkAction::Yield(Some(Err(e))) if e == not_found()));
    assert!(matches!(reader.push_start(), WalkAction::Yield(None)));
    assert!(matches!(reader.next(WalkEvent::Pushed(Ok(()))), WalkAction::Yield(None)));
}

#[test]
fn reader_yields_a_failed_advance_and_ends() {
    let mut reader = CommitReader::<Always>::new();
    reader.next(WalkEvent::Pushed(Ok(())));
    let action = reader.next(WalkEvent::Advanced(Some(Err(not_found()))));
    assert!(matches!(action, WalkAction::Yield(Some(Err(e))) if e == not_found()));
    assert!(matches!(reader.push_start(), WalkAction::Yield(None)));
    let fixture = history(&["1"]);
    let commit = fixture.commits[0].clone();
    let action = reader.next(WalkEvent::Advanced(Some(Ok(commit))));
    assert!(matches!(action, WalkAction::Yield(None)));
}

#[test]
fn reader_that_has_ended_stays_ended() {
    let fixture = history(&["1", "2", "3", "4", "5"]);
    let reader = CommitReader::new()
        .start_on_head()
        .end_when(|commit: &CommitInfo| commit.message.subject.contains('3'));
    let mut walk = Walk::new(&fixture, reader);
    assert!(walk.next().unwrap().unwrap().message.subject.contains('5'));
    assert!(walk.next().unwrap().unwrap().message.subject.contains('4'));
    assert!(walk.next().is_none());
    let asked = walk.next;
    assert!(walk.next().is_none());
    assert!(walk.next().is_none());
    assert_eq!(walk.next, asked);

    let reader = CommitReader::<Always>::new();
    let mut walk = Walk::new(&fixture, reader);
    assert_eq!(walk.by_ref().count(), 5);
    assert!(walk.next().is_none());
    assert_eq!(walk.pushes, 1);
}

#[test]
fn read_of_a_reader_that_has_ended_is_empty() {
    let fixture = history(&["1", "2"]);
    let walk: Vec<_> = fixture.commits.iter().map(|c| Ok(c.clone())).collect();
    let mut reader = CommitReader::<Always>::new();
    reader.next(WalkEvent::Pushed(Ok(())));
    reader.next(WalkEvent::Advanced(None));
    assert_eq!(reader.read(Ok(()), &walk), Ok(Vec::new()));
}

#[test]
fn walk_on_an_empty_repository_yields_the_failure_and_stops() {
    let fixture = History { commits: Vec::new() };
    let reader = CommitReader::<Always>::new();
    let items: Vec<_> = Walk::new(&fixture, reader).collect();
    assert_eq!(items, vec![Err(not_found())]);
}

#[test]
fn read_returns_the_commits_before_the_end() {
    let fixture = history(&["1", "2", "3", "4", "5"]);
    let walk: Vec<_> = fixture.commits.iter().map(|c| Ok(c.clone())).collect();
    let reader = CommitReader::new().end_when(|c: &CommitInfo| c.message.subject == "3");
    let commits = reader.read(Ok(()), &walk).unwrap();
    let subjects: Vec<_> = commits.iter().map(|c| c.message.subject.as_str()).collect();
    assert_eq!(subjects, vec!["5", "4"]);

    let reader = CommitReader::<Always>::new();
    let commits = reader.read(Ok(()), &walk).unwrap();
    assert_eq!(commits, fixture.commits);
}

#[test]
fn read_stops_at_the_first_failure() {
    let fixture = history(&["1", "2", "3"]);
    let mut walk: Vec<_> = fixture.commits.iter().map(|c| Ok(c.clone())).collect();
    walk[1] = Err(not_found());
    let reader = CommitReader::<Always>::new();
    assert_eq!(reader.read(Ok(()), &walk), Err(not_found()));

    let reader = CommitReader::new().end_when(|c: &CommitInfo| c.message.subject == "3");
    assert_eq!(reader.read(Ok(()), &walk), Ok(Vec::new()));

    let reader = CommitReader::<Always>::new();
    let failed = BackendError { code: -1, class: 2, message: "no head".to_string() };
    assert_eq!(reader.read(Err(failed.clone()), &walk), Err(failed));
}
