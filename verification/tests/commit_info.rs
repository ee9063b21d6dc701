use geeks_event_sourcing::{CommitInfo, CommitMessage, RawCommit};
use git2::Oid;

fn message(subject: &str, body: &str) -> CommitMessage {
    CommitMessage { subject: subject.to_string(), body: body.to_string() }
}

#[test]
fn parse_takes_the_first_line_as_subject() {
    assert_eq!(CommitMessage::parse("initial"), message("initial", ""));
    assert_eq!(CommitMessage::parse("initial\n"), message("initial", ""));
    assert_eq!(CommitMessage::parse(""), message("", ""));
    assert_eq!(CommitMessage::parse("\n\n"), message("", ""));
}

#[test]
fn parse_takes_the_rest_as_body_without_the_breaks_around_it() {
    assert_eq!(CommitMessage::parse("subject\n\nbody"), message("subject", "body"));
    assert_eq!(CommitMessage::parse("subject\nbody\n"), message("subject", "body"));
    assert_eq!(
        CommitMessage::parse("subject\n\n\nline one\n\nline two\n\n"),
        message("subject", "line one\n\nline two")
    );
    assert_eq!(CommitMessage::parse("\nbody"), message("", "body"));
}

#[test]
fn render_writes_subject_and_body_with_an_empty_line_between() {
    assert_eq!(message("subject", "").render(), "subject");
    assert_eq!(message("subject", "body").render(), "subject\n\nbody");
    assert_eq!(CommitMessage::new("[event] A", "{}").render(), "[event] A\n\n{}");
}

#[test]
fn parse_gives_back_what_render_wrote() {
    for m in [
        message("subject", ""),
        message("subject", "body"),
        message("", ""),
        message("[event] TodoCreated", "{\"aggregate_id\":\"a\\nb\",\"version\":1,\"event\":{}}"),
        message("s", "two\n\nparagraphs"),
        message("héllo ✓", "wörld"),
    ] {
        assert_eq!(CommitMessage::parse(&m.render()), m);
    }
}

#[test]
fn parse_of_a_subject_with_a_break_does_not_give_it_back() {
    let m = message("two\nlines", "");
    assert_eq!(CommitMessage::parse(&m.render()), message("two", "lines"));
}

#[test]
fn commit_without_texts_reads_as_empty_and_unknown() {
    let id = Oid::from_str("00000000000000000000000000000000000000aa").unwrap();
    let info = CommitInfo::from(RawCommit {
        message: None,
        time: -5,
        author_name: None,
        author_email: None,
        id,
    });
    assert_eq!(info.message, message("", ""));
    assert_eq!(info.time, -5);
    assert_eq!(info.author_name, "unknown");
    assert_eq!(info.author_email, "unknown");
    assert_eq!(info.id, id);
}

#[test]
fn commit_with_texts_keeps_them() {
    let id = Oid::from_str("00000000000000000000000000000000000000ab").unwrap();
    let info = CommitInfo::from(RawCommit {
        message: Some("fix: thing\n\nwhy\n".to_string()),
        time: 12,
        author_name: Some("Ann".to_string()),
        author_email: Some("ann@example.org".to_string()),
        id,
    });
    assert_eq!(info.message, message("fix: thing", "why"));
    assert_eq!(info.author_name, "Ann");
    assert_eq!(info.author_email, "ann@example.org");
    assert_eq!(info.clone(), info);
}
