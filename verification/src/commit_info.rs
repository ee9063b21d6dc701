//! Commits as plain values: the message with its subject and body, and the
//! record that a walk over the history yields for each commit.
use crate::text::{chars_of, extend, slice_of, string_of};
use git2::Oid;
use vstd::prelude::*;

verus! {

/// The identifier of a commit, `git2::Oid`: carried, never looked into.
#[verifier::external_type_specification]
#[verifier::external_body]
pub struct ExOid(git2::Oid);

/// The message of a commit: a one-line subject and a body.
#[derive(Debug, PartialEq, Eq)]
pub struct CommitMessage {
    pub subject: String,
    pub body: String,
}

/// A commit message as two sequences of characters.
pub struct CommitMessageView {
    pub subject: Seq<char>,
    pub body: Seq<char>,
}

impl View for CommitMessage {
    type V = CommitMessageView;

    open spec fn view(&self) -> CommitMessageView {
        CommitMessageView { subject: self.subject@, body: self.body@ }
    }
}

/// The line break.
pub open spec fn line_break() -> char {
    '\n'
}

/// The first position at or after `from` at which `text` holds a line break,
/// or the length of `text` where there is none.
pub open spec fn line_end(text: Seq<char>, from: int) -> int
    decreases text.len() - from,
{
    if from < 0 || from >= text.len() || text[from] == line_break() {
        from
    } else {
        line_end(text, from + 1)
    }
}

/// The first position at or after `from` at which `text` holds something
/// other than a line break, or the length of `text`.
pub open spec fn skip_breaks(text: Seq<char>, from: int) -> int
    decreases text.len() - from,
{
    if from < 0 || from >= text.len() || text[from] != line_break() {
        from
    } else {
        skip_breaks(text, from + 1)
    }
}

/// The end of `text` once the line breaks that close it are taken off, never
/// below `low`.
pub open spec fn trim_breaks(text: Seq<char>, low: int, high: int) -> int
    decreases high - low,
{
    if high <= low || high > text.len() || text[high - 1] != line_break() {
        high
    } else {
        trim_breaks(text, low, high - 1)
    }
}

/// The message that a commit's text stands for: the first line is the
/// subject; the body is what follows, without the line breaks before and after
/// it.
pub open spec fn parsed(text: Seq<char>) -> CommitMessageView {
    let end = line_end(text, 0);
    let start = skip_breaks(text, end);
    let stop = trim_breaks(text, start, text.len() as int);
    CommitMessageView { subject: text.take(end), body: text.subrange(start, stop) }
}

/// The text of a commit with this message: the subject alone where the body
/// is empty, else subject, an empty line, body.
pub open spec fn rendered(message: CommitMessageView) -> Seq<char> {
    if message.body.len() == 0 {
        message.subject
    } else {
        message.subject + seq![line_break(), line_break()] + message.body
    }
}

/// A message that its text gives back: the subject is one line, and the body
/// neither begins nor ends with a line break.
pub open spec fn is_canonical(message: CommitMessageView) -> bool {
    &&& !message.subject.contains(line_break())
    &&& message.body.len() > 0 ==> message.body.first() != line_break() && message.body.last()
        != line_break()
}

proof fn lemma_line_end_bounds(text: Seq<char>, from: int)
    requires
        0 <= from <= text.len(),
    ensures
        from <= line_end(text, from) <= text.len(),
        forall|i: int| from <= i < line_end(text, from) ==> text[i] != line_break(),
        line_end(text, from) < text.len() ==> text[line_end(text, from)] == line_break(),
    decreases text.len() - from,
{
    if from < text.len() && text[from] != line_break() {
        lemma_line_end_bounds(text, from + 1);
    }
}

proof fn lemma_line_end_found(text: Seq<char>, from: int, end: int)
    requires
        0 <= from <= end <= text.len(),
        forall|i: int| from <= i < end ==> text[i] != line_break(),
        end < text.len() ==> text[end] == line_break(),
    ensures
        line_end(text, from) == end,
    decreases end - from,
{
    if from < end {
        lemma_line_end_found(text, from + 1, end);
    }
}

proof fn lemma_skip_breaks_bounds(text: Seq<char>, from: int)
    requires
        0 <= from <= text.len(),
    ensures
        from <= skip_breaks(text, from) <= text.len(),
        forall|i: int| from <= i < skip_breaks(text, from) ==> text[i] == line_break(),
        skip_breaks(text, from) < text.len() ==> text[skip_breaks(text, from)] != line_break(),
    decreases text.len() - from,
{
    if from < text.len() && text[from] == line_break() {
        lemma_skip_breaks_bounds(text, from + 1);
    }
}

proof fn lemma_skip_breaks_found(text: Seq<char>, from: int, start: int)
    requires
        0 <= from <= start <= text.len(),
        forall|i: int| from <= i < start ==> text[i] == line_break(),
        start < text.len() ==> text[start] != line_break(),
    ensures
        skip_breaks(text, from) == start,
    decreases start - from,
{
    if from < start {
        lemma_skip_breaks_found(text, from + 1, start);
    }
}

proof fn lemma_trim_breaks_bounds(text: Seq<char>, low: int, high: int)
    requires
        0 <= low <= high <= text.len(),
    ensures
        low <= trim_breaks(text, low, high) <= high,
        forall|i: int| trim_breaks(text, low, high) <= i < high ==> text[i] == line_break(),
        trim_breaks(text, low, high) > low ==> text[trim_breaks(text, low, high) - 1]
            != line_break(),
    decreases high - low,
{
    if high > low && text[high - 1] == line_break() {
        lemma_trim_breaks_bounds(text, low, high - 1);
    }
}

/// Every text stands for a canonical message.
pub proof fn lemma_parsed_is_canonical(text: Seq<char>)
    ensures
        is_canonical(parsed(text)),
{
    let end = line_end(text, 0);
    let start = skip_breaks(text, end);
    lemma_line_end_bounds(text, 0);
    lemma_skip_breaks_bounds(text, end);
    lemma_trim_breaks_bounds(text, start, text.len() as int);
}

/// The text of a canonical message stands for that message.
pub proof fn lemma_parse_render(message: CommitMessageView)
    requires
        is_canonical(message),
    ensures
        parsed(rendered(message)) == message,
{
    let text = rendered(message);
    let n = message.subject.len() as int;
    lemma_line_end_found(text, 0, n);
    assert(text.take(n) =~= message.subject);
    if message.body.len() == 0 {
        assert(text.subrange(n, n) =~= message.body);
    } else {
        lemma_skip_breaks_found(text, n, n + 2);
        assert(text.subrange(n + 2, text.len() as int) =~= message.body);
    }
}

impl CommitMessage {
    /// The message with this subject and this body.
    pub fn new(subject: &str, body: &str) -> (message: CommitMessage)
        ensures
            message@ == (CommitMessageView { subject: subject@, body: body@ }),
    {
        CommitMessage { subject: subject.to_owned(), body: body.to_owned() }
    }

    /// Reads a commit's text: the first line is the subject, and what follows
    /// it, without the line breaks before and after, is the body.
    pub fn parse(text: &str) -> (message: CommitMessage)
        ensures
            message@ == parsed(text@),
    {
        let chars = chars_of(text);
        let len = chars.len();
        let mut end: usize = 0;
        while end < len && chars[end] != '\n'
            invariant
                end <= len == chars.len(),
                line_end(chars@, 0) == line_end(chars@, end as int),
            decreases len - end,
        {
            end += 1;
        }
        let mut start: usize = end;
        while start < len && chars[start] == '\n'
            invariant
                end <= start <= len == chars.len(),
                skip_breaks(chars@, end as int) == skip_breaks(chars@, start as int),
            decreases len - start,
        {
            start += 1;
        }
        let mut stop: usize = len;
        while stop > start && chars[stop - 1] == '\n'
            invariant
                start <= stop <= len == chars.len(),
                trim_breaks(chars@, start as int, len as int) == trim_breaks(
                    chars@,
                    start as int,
                    stop as int,
                ),
            decreases stop - start,
        {
            stop -= 1;
        }
        let subject = slice_of(&chars, 0, end);
        let body = slice_of(&chars, start, stop);
        CommitMessage { subject: string_of(&subject), body: string_of(&body) }
    }

    /// Writes the message as a commit's text: the subject alone where the body
    /// is empty, else subject, an empty line, body.
    pub fn render(&self) -> (text: String)
        ensures
            text@ == rendered(self@),
    {
        let mut chars = chars_of(self.subject.as_str());
        let body = chars_of(self.body.as_str());
        if body.len() > 0 {
            chars.push('\n');
            chars.push('\n');
            extend(&mut chars, &body);
        }
        string_of(&chars)
    }
}

impl Clone for CommitMessage {
    fn clone(&self) -> (copy: CommitMessage)
        ensures
            copy == *self,
    {
        CommitMessage { subject: self.subject.clone(), body: self.body.clone() }
    }
}

/// What the backend knows of one commit. The message and the author's name
/// and e-mail address are absent where they are not text.
pub struct RawCommit {
    pub message: Option<String>,
    pub time: i64,
    pub author_name: Option<String>,
    pub author_email: Option<String>,
    pub id: Oid,
}

/// One commit of the history, as a walk yields it.
#[derive(Debug, PartialEq, Eq)]
pub struct CommitInfo {
    pub message: CommitMessage,
    /// Seconds since the epoch.
    pub time: i64,
    pub author_name: String,
    pub author_email: String,
    pub id: Oid,
}

/// A commit record with its texts as sequences of characters.
pub struct CommitInfoView {
    pub message: CommitMessageView,
    pub time: i64,
    pub author_name: Seq<char>,
    pub author_email: Seq<char>,
    pub id: Oid,
}

impl View for CommitInfo {
    type V = CommitInfoView;

    open spec fn view(&self) -> CommitInfoView {
        CommitInfoView {
            message: self.message@,
            time: self.time,
            author_name: self.author_name@,
            author_email: self.author_email@,
            id: self.id,
        }
    }
}

/// The text of `value`, or `fallback` where there is none.
pub open spec fn text_or(value: Option<String>, fallback: Seq<char>) -> Seq<char> {
    match value {
        Some(text) => text@,
        None => fallback,
    }
}

fn unwrap_or(value: Option<String>, fallback: &str) -> (text: String)
    ensures
        text@ == text_or(value, fallback@),
{
    match value {
        Some(text) => text,
        None => fallback.to_owned(),
    }
}

/// The record of a commit: a message that is absent reads as the empty text,
/// an author's name or address that is absent as `unknown`.
pub open spec fn recorded(commit: RawCommit) -> CommitInfoView {
    CommitInfoView {
        message: parsed(text_or(commit.message, ""@)),
        time: commit.time,
        author_name: text_or(commit.author_name, "unknown"@),
        author_email: text_or(commit.author_email, "unknown"@),
        id: commit.id,
    }
}

impl CommitInfo {
    /// The record of a commit: a message that is absent reads as the empty
    /// text, an author's name or address that is absent as `unknown`.
    pub fn from(commit: RawCommit) -> (info: CommitInfo)
        ensures
            info@ == recorded(commit),
    {
        let text = unwrap_or(commit.message, "");
        CommitInfo {
            message: CommitMessage::parse(text.as_str()),
            time: commit.time,
            author_name: unwrap_or(commit.author_name, "unknown"),
            author_email: unwrap_or(commit.author_email, "unknown"),
            id: commit.id,
        }
    }
}

impl Clone for CommitInfo {
    fn clone(&self) -> (copy: CommitInfo)
        ensures
            copy == *self,
    {
        CommitInfo {
            message: self.message.clone(),
            time: self.time,
            author_name: self.author_name.clone(),
            author_email: self.author_email.clone(),
            id: self.id,
        }
    }
}

} // verus!
