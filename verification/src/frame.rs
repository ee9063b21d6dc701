//! The body of an event commit: a frame that holds the aggregate's
//! identifier, the event's version and the event's serialized data.
//!
//! A frame reads `{"aggregate_id":"ID","version":N,"event":DATA}`, where `ID`
//! is the identifier with its quotation marks, backslashes and control
//! characters escaped, `N` is the version in decimal digits, and `DATA` is the
//! data as it was handed in.
//!
//! A body is read as a frame only where it is written exactly so: the parts
//! in this order with nothing between them, the identifier with these escapes
//! and no others, the version without sign and without leading zeros.
use crate::event::Version;
use crate::text::{chars_of, extend, has_prefix, matches_at, occurs_at, slice_of, string_of};
use vstd::prelude::*;

verus! {

/// The digit that stands for `value` in hexadecimal: `0` to `9`, `a` to `f`.
pub open spec fn hex_digit(value: nat) -> char {
    if value < 10 {
        (48 + value) as u8 as char
    } else {
        (87 + value) as u8 as char
    }
}

/// What the hexadecimal digit `c` stands for; nothing for another character.
pub open spec fn hex_value(c: char) -> Option<nat> {
    let code = c as u32;
    if 48 <= code <= 57 {
        Some((code - 48) as nat)
    } else if 97 <= code <= 102 {
        Some((code - 87) as nat)
    } else {
        None
    }
}

/// Whether the control character with this code has an escape of two
/// characters: backspace, tab, line feed, form feed, carriage return.
pub open spec fn has_short_escape(code: nat) -> bool {
    code == 8 || code == 9 || code == 10 || code == 12 || code == 13
}

/// How one character of an identifier is written in a frame. A quotation
/// mark and a backslash get a backslash in front; a control character is
/// written as backslash and letter where it has such an escape, else as
/// `\u00` and its code in two hexadecimal digits; any other character stands
/// for itself.
pub open spec fn escape(c: char) -> Seq<char> {
    let code = c as u32;
    if c == '"' {
        seq!['\\', '"']
    } else if c == '\\' {
        seq!['\\', '\\']
    } else if code == 8 {
        seq!['\\', 'b']
    } else if code == 9 {
        seq!['\\', 't']
    } else if code == 10 {
        seq!['\\', 'n']
    } else if code == 12 {
        seq!['\\', 'f']
    } else if code == 13 {
        seq!['\\', 'r']
    } else if code < 32 {
        seq!['\\', 'u', '0', '0', hex_digit((code / 16) as nat), hex_digit((code % 16) as nat)]
    } else {
        seq![c]
    }
}

/// The character that the front of `text` stands for, and the number of
/// characters that it takes; nothing where the front of `text` is not the
/// escape of a character.
pub open spec fn unescape(text: Seq<char>) -> Option<(char, nat)> {
    if text.len() == 0 {
        None
    } else if text[0] == '\\' {
        if text.len() < 2 {
            None
        } else if text[1] == '"' {
            Some(('"', 2nat))
        } else if text[1] == '\\' {
            Some(('\\', 2nat))
        } else if text[1] == 'b' {
            Some((8u8 as char, 2nat))
        } else if text[1] == 't' {
            Some((9u8 as char, 2nat))
        } else if text[1] == 'n' {
            Some((10u8 as char, 2nat))
        } else if text[1] == 'f' {
            Some((12u8 as char, 2nat))
        } else if text[1] == 'r' {
            Some((13u8 as char, 2nat))
        } else if text[1] == 'u' && text.len() >= 6 && text[2] == '0' && text[3] == '0' {
            match (hex_value(text[4]), hex_value(text[5])) {
                (Some(high), Some(low)) => if high < 2 && !has_short_escape(16 * high + low) {
                    Some(((16 * high + low) as u8 as char, 6nat))
                } else {
                    None
                },
                _ => None,
            }
        } else {
            None
        }
    } else if text[0] == '"' || (text[0] as u32) < 32 {
        None
    } else {
        Some((text[0], 1nat))
    }
}

/// An identifier as a frame holds it between quotation marks: each of its
/// characters escaped.
pub open spec fn quoted(text: Seq<char>) -> Seq<char>
    decreases text.len(),
{
    if text.len() == 0 {
        Seq::empty()
    } else {
        escape(text.first()) + quoted(text.drop_first())
    }
}

/// The identifier that stands at the front of `text`, up to the quotation
/// mark that closes it, and what follows that mark; nothing where `text` does
/// not begin with an escaped identifier and a quotation mark.
pub open spec fn unquoted(text: Seq<char>) -> Option<(Seq<char>, Seq<char>)>
    decreases text.len(),
{
    if text.len() == 0 {
        None
    } else if text[0] == '"' {
        Some((Seq::empty(), text.skip(1)))
    } else {
        match unescape(text) {
            Some((c, taken)) => if 0 < taken <= text.len() {
                match unquoted(text.skip(taken as int)) {
                    Some((more, rest)) => Some((seq![c] + more, rest)),
                    None => None,
                }
            } else {
                None
            },
            None => None,
        }
    }
}

proof fn lemma_unescape_escape(c: char, rest: Seq<char>)
    ensures
        unescape(escape(c) + rest) == Some((c, escape(c).len())),
        escape(c).len() > 0,
        escape(c)[0] != '"',
{
    let code = c as u32;
}

/// An identifier that was written into a frame is read back as it was,
/// whatever follows the quotation mark that closes it.
pub proof fn lemma_unquoted_quoted(text: Seq<char>, rest: Seq<char>)
    ensures
        unquoted(quoted(text) + seq!['"'] + rest) == Some((text, rest)),
    decreases text.len(),
{
    let whole = quoted(text) + seq!['"'] + rest;
    if text.len() > 0 {
        let c = text.first();
        let after = quoted(text.drop_first()) + seq!['"'] + rest;
        lemma_unescape_escape(c, after);
        assert(whole.skip(escape(c).len() as int) =~= after);
        lemma_unquoted_quoted(text.drop_first(), rest);
    }
}

proof fn lemma_hex_digit_of_value(c: char)
    requires
        hex_value(c) is Some,
    ensures
        hex_digit(hex_value(c)->0) == c,
{
}

proof fn lemma_digit_of_value(c: char)
    requires
        is_digit(c),
    ensures
        digit(digit_value(c)) == c,
        digit_value(c) < 10,
{
}

proof fn lemma_escape_unescape(text: Seq<char>)
    requires
        unescape(text) is Some,
    ensures
        ({
            let (c, taken) = unescape(text)->0;
            0 < taken <= text.len() && text.take(taken as int) == escape(c)
        }),
{
    let (_, taken) = unescape(text)->0;
    if text[0] == '\\' && taken == 6 {
        lemma_hex_digit_of_value(text[4]);
        lemma_hex_digit_of_value(text[5]);
    }
}

/// What is read as an identifier was written as that identifier: the text
/// is the identifier escaped, the quotation mark that closes it, and the rest.
pub proof fn lemma_quoted_unquoted(text: Seq<char>)
    requires
        unquoted(text) is Some,
    ensures
        ({
            let (found, rest) = unquoted(text)->0;
            text == quoted(found) + seq!['"'] + rest
        }),
    decreases text.len(),
{
    let (found, rest) = unquoted(text)->0;
    if text[0] != '"' {
        let (c, taken) = unescape(text)->0;
        lemma_escape_unescape(text);
        let after = text.skip(taken as int);
        lemma_quoted_unquoted(after);
        let (more, _) = unquoted(after)->0;
        assert(found.first() == c);
        assert(found.drop_first() =~= more);
        assert(text =~= text.take(taken as int) + after);
    }
}

fn from_hex_digit(c: char) -> (value: Option<u8>)
    ensures
        match value {
            Some(v) => hex_value(c) == Some(v as nat),
            None => hex_value(c) is None,
        },
{
    let code = c as u32;
    if 48 <= code && code <= 57 {
        Some((code - 48) as u8)
    } else if 97 <= code && code <= 102 {
        Some((code - 87) as u8)
    } else {
        None
    }
}

fn read_escape(text: &Vec<char>, at: usize) -> (r: Option<(char, usize)>)
    requires
        at < text.len(),
    ensures
        match r {
            Some((c, taken)) => 0 < taken && at + taken <= text.len() && unescape(
                text@.skip(at as int),
            ) == Some((c, taken as nat)),
            None => unescape(text@.skip(at as int)) is None,
        },
{
    let left = text.len() - at;
    let first = text[at];
    if first == '\\' {
        if left < 2 {
            return None;
        }
        let second = text[at + 1];
        if second == '"' {
            Some(('"', 2))
        } else if second == '\\' {
            Some(('\\', 2))
        } else if second == 'b' {
            Some((8u8 as char, 2))
        } else if second == 't' {
            Some((9u8 as char, 2))
        } else if second == 'n' {
            Some((10u8 as char, 2))
        } else if second == 'f' {
            Some((12u8 as char, 2))
        } else if second == 'r' {
            Some((13u8 as char, 2))
        } else if second == 'u' && left >= 6 && text[at + 2] == '0' && text[at + 3] == '0' {
            match (from_hex_digit(text[at + 4]), from_hex_digit(text[at + 5])) {
                (Some(high), Some(low)) => {
                    if high < 2 {
                        let code: u8 = 16 * high + low;
                        if code == 8 || code == 9 || code == 10 || code == 12 || code == 13 {
                            None
                        } else {
                            Some((code as char, 6))
                        }
                    } else {
                        None
                    }
                },
                _ => None,
            }
        } else {
            None
        }
    } else if first == '"' || (first as u32) < 32 {
        None
    } else {
        Some((first, 1))
    }
}

/// What `found` becomes with `front` before its identifier.
spec fn after_front(front: Seq<char>, found: Option<(Seq<char>, Seq<char>)>) -> Option<
    (Seq<char>, Seq<char>),
> {
    match found {
        Some((more, rest)) => Some((front + more, rest)),
        None => None,
    }
}

fn read_quoted(text: &Vec<char>, from: usize) -> (r: Option<(Vec<char>, usize)>)
    requires
        from <= text.len(),
    ensures
        match r {
            Some((found, end)) => from < end <= text.len() && unquoted(text@.skip(from as int))
                == Some((found@, text@.skip(end as int))),
            None => unquoted(text@.skip(from as int)) is None,
        },
{
    let mut found: Vec<char> = Vec::new();
    let mut at: usize = from;
    while at < text.len()
        invariant
            from <= at <= text.len(),
            unquoted(text@.skip(from as int)) == after_front(
                found@,
                unquoted(text@.skip(at as int)),
            ),
        decreases text.len() - at,
    {
        let ghost front = text@.skip(at as int);
        if text[at] == '"' {
            return Some((found, at + 1));
        }
        match read_escape(text, at) {
            Some((c, taken)) => {
                proof {
                    assert(front.skip(taken as int) =~= text@.skip(at + taken));
                    match unquoted(text@.skip(at + taken)) {
                        Some((more, rest)) => {
                        },
                        None => {},
                    }
                }
                found.push(c);
                at += taken;
            },
            None => {
                return None;
            },
        }
    }
    None
}

/// Whether `c` is a decimal digit.
pub open spec fn is_digit(c: char) -> bool {
    48 <= (c as u32) <= 57
}

/// The decimal digit that stands for `value`.
pub open spec fn digit(value: nat) -> char {
    (48 + value) as u8 as char
}

/// What the decimal digit `c` stands for; 0 for another character.
pub open spec fn digit_value(c: char) -> nat {
    if is_digit(c) {
        ((c as u32) - 48) as nat
    } else {
        0
    }
}

/// `n` in decimal digits, without leading zeros.
pub open spec fn decimal(n: nat) -> Seq<char>
    decreases n,
{
    if n < 10 {
        seq![digit(n)]
    } else {
        decimal(n / 10).push(digit(n % 10))
    }
}

/// The number that `digits` stand for.
pub open spec fn number(digits: Seq<char>) -> nat
    decreases digits.len(),
{
    if digits.len() == 0 {
        0
    } else {
        number(digits.drop_last()) * 10 + digit_value(digits.last())
    }
}

/// The number of digits at the front of `text`.
pub open spec fn digits_in_front(text: Seq<char>) -> nat
    decreases text.len(),
{
    if text.len() == 0 || !is_digit(text[0]) {
        0
    } else {
        1 + digits_in_front(text.skip(1))
    }
}

/// The version at the front of `text`, and what follows it; nothing where
/// `text` does not begin with a number in decimal digits, without leading
/// zeros, that a version can hold.
pub open spec fn unnumbered(text: Seq<char>) -> Option<(u64, Seq<char>)> {
    let count = digits_in_front(text) as int;
    let digits = text.take(count);
    if count == 0 || (count > 1 && text[0] == '0') || number(digits) > u64::MAX {
        None
    } else {
        Some((number(digits) as u64, text.skip(count)))
    }
}

proof fn lemma_decimal(n: nat)
    ensures
        decimal(n).len() >= 1,
        forall|i: int| 0 <= i < decimal(n).len() ==> is_digit(#[trigger] decimal(n)[i]),
        decimal(n).len() > 1 ==> decimal(n)[0] != '0',
        number(decimal(n)) == n,
    decreases n,
{
    if n < 10 {
        let one = decimal(n);
        assert(number(one.drop_last()) == 0);
    } else {
        lemma_decimal(n / 10);
        let front = decimal(n / 10);
        let all = decimal(n);
        assert(all.drop_last() =~= front);
        if front.len() == 1 {
            if n / 10 >= 10 {
                lemma_decimal(n / 10 / 10);
            }
        }
    }
}

proof fn lemma_digits_in_front(text: Seq<char>, count: int)
    requires
        0 <= count <= text.len(),
        forall|i: int| 0 <= i < count ==> is_digit(#[trigger] text[i]),
    ensures
        digits_in_front(text) >= count,
        (count == text.len() || !is_digit(text[count])) ==> digits_in_front(text) == count,
    decreases count,
{
    if count > 0 {
        let rest = text.skip(1);
        lemma_digits_in_front(rest, count - 1);
    }
}

proof fn lemma_number_grows(digits: Seq<char>, shorter: int, longer: int)
    requires
        0 <= shorter <= longer <= digits.len(),
    ensures
        number(digits.take(shorter)) <= number(digits.take(longer)),
    decreases longer - shorter,
{
    if shorter < longer {
        lemma_number_grows(digits, shorter, longer - 1);
        assert(digits.take(longer).drop_last() =~= digits.take(longer - 1));
    }
}

/// A version that was written in decimal digits is read back as it was,
/// where what follows it does not begin with a digit.
pub proof fn lemma_unnumbered_decimal(version: u64, rest: Seq<char>)
    requires
        rest.len() == 0 || !is_digit(rest[0]),
    ensures
        unnumbered(decimal(version as nat) + rest) == Some((version, rest)),
{
    let digits = decimal(version as nat);
    let text = digits + rest;
    lemma_decimal(version as nat);
    let count = digits.len() as int;
    lemma_digits_in_front(text, count);
    assert(text.take(count) =~= digits);
}

proof fn lemma_digits_are_digits(text: Seq<char>)
    ensures
        digits_in_front(text) <= text.len(),
        forall|i: int| 0 <= i < digits_in_front(text) ==> is_digit(#[trigger] text[i]),
    decreases text.len(),
{
    if text.len() > 0 && is_digit(text[0]) {
        let rest = text.skip(1);
        lemma_digits_are_digits(rest);
        assert forall|i: int| 0 <= i < digits_in_front(text) implies is_digit(
            #[trigger] text[i],
        ) by {
            if i > 0 {
                assert(text[i] == rest[i - 1]);
            }
        }
    }
}

proof fn lemma_decimal_number(digits: Seq<char>)
    requires
        digits.len() >= 1,
        forall|i: int| 0 <= i < digits.len() ==> is_digit(#[trigger] digits[i]),
        digits.len() > 1 ==> digits[0] != '0',
    ensures
        decimal(number(digits)) == digits,
        digits.len() > 1 ==> number(digits) >= 10,
    decreases digits.len(),
{
    lemma_digit_of_value(digits.last());
    if digits.len() == 1 {
        assert(number(digits.drop_last()) == 0);
    } else {
        lemma_decimal_number(digits.drop_last());
    }
}

/// What is read as a version was written as that version: the text is the
/// version in decimal digits, and the rest.
pub proof fn lemma_decimal_unnumbered(text: Seq<char>)
    requires
        unnumbered(text) is Some,
    ensures
        ({
            let (version, rest) = unnumbered(text)->0;
            text == decimal(version as nat) + rest
        }),
{
    let count = digits_in_front(text) as int;
    lemma_digits_are_digits(text);
    let digits = text.take(count);
    lemma_decimal_number(digits);
}

fn read_number(text: &Vec<char>, from: usize) -> (r: Option<(u64, usize)>)
    requires
        from <= text.len(),
    ensures
        match r {
            Some((value, end)) => from < end <= text.len() && unnumbered(text@.skip(from as int))
                == Some((value, text@.skip(end as int))),
            None => unnumbered(text@.skip(from as int)) is None,
        },
{
    let ghost front = text@.skip(from as int);
    let mut value: u64 = 0;
    let mut at: usize = from;
    while at < text.len() && 48 <= text[at] as u32 && text[at] as u32 <= 57
        invariant
            from <= at <= text.len(),
            front == text@.skip(from as int),
            forall|i: int| 0 <= i < at - from ==> is_digit(#[trigger] front[i]),
            value == number(front.take(at - from)),
        decreases text.len() - at,
    {
        let d = (text[at] as u32 - 48) as u64;
        proof {
            assert(front.take(at - from + 1).drop_last() =~= front.take(at - from));
        }
        if value > (u64::MAX - d) / 10 {
            proof {
                let count = digits_in_front(front) as int;
                lemma_digits_in_front(front, at - from + 1);
                lemma_digits_are_digits(front);
                lemma_number_grows(front.take(count), at - from + 1, count);
                assert(front.take(count).take(at - from + 1) =~= front.take(at - from + 1));
                assert(front.take(count).take(count) =~= front.take(count));
            }
            return None;
        }
        value = value * 10 + d;
        at += 1;
    }
    proof {
        lemma_digits_in_front(front, at - from);
    }
    if at == from || (at - from > 1 && text[from] == '0') {
        return None;
    }
    Some((value, at))
}

/// What a frame holds.
#[derive(Debug, PartialEq, Eq)]
pub struct Frame {
    pub aggregate_id: String,
    pub version: Version,
    pub payload: String,
}

/// A frame with its texts as sequences of characters.
pub struct FrameView {
    pub aggregate_id: Seq<char>,
    pub version: Version,
    pub payload: Seq<char>,
}

impl View for Frame {
    type V = FrameView;

    open spec fn view(&self) -> FrameView {
        FrameView {
            aggregate_id: self.aggregate_id@,
            version: self.version,
            payload: self.payload@,
        }
    }
}

/// What reading the body of a commit gave.
#[derive(Debug, PartialEq, Eq)]
pub enum Decoded {
    /// The body does not begin as a frame does: the commit is no event.
    NotAnEvent,
    /// The body begins as a frame of this aggregate does, and goes on as no
    /// frame does.
    Corrupt { aggregate_id: String },
    /// The body is this frame.
    Event(Frame),
}

/// What reading a body gave, with texts as sequences of characters.
pub enum DecodedView {
    NotAnEvent,
    Corrupt { aggregate_id: Seq<char> },
    Event(FrameView),
}

impl View for Decoded {
    type V = DecodedView;

    open spec fn view(&self) -> DecodedView {
        match self {
            Decoded::NotAnEvent => DecodedView::NotAnEvent,
            Decoded::Corrupt { aggregate_id } => DecodedView::Corrupt {
                aggregate_id: aggregate_id@,
            },
            Decoded::Event(frame) => DecodedView::Event(frame@),
        }
    }
}

/// How a frame begins, up to the identifier.
pub open spec fn opening() -> Seq<char> {
    "{\"aggregate_id\":\""@
}

/// What stands between the identifier's closing quotation mark and the
/// version.
pub open spec fn version_key() -> Seq<char> {
    ",\"version\":"@
}

/// What stands between the version and the data.
pub open spec fn event_key() -> Seq<char> {
    ",\"event\":"@
}

/// The body that holds `frame`.
pub open spec fn framed(frame: FrameView) -> Seq<char> {
    opening() + quoted(frame.aggregate_id) + seq!['"'] + version_key() + decimal(
        frame.version as nat,
    ) + event_key() + frame.payload + seq!['}']
}

/// What follows an identifier in a frame, read: the version and the data;
/// nothing where `text` is not what follows an identifier in a frame.
pub open spec fn unframed_rest(text: Seq<char>) -> Option<(u64, Seq<char>)> {
    if !has_prefix(text, version_key()) {
        None
    } else {
        match unnumbered(text.skip(version_key().len() as int)) {
            None => None,
            Some((version, rest)) => if has_prefix(rest, event_key()) && rest.len()
                > event_key().len() && rest.last() == '}' {
                Some((version, rest.subrange(event_key().len() as int, rest.len() - 1)))
            } else {
                None
            },
        }
    }
}

/// What a body reads as.
pub open spec fn decoded(body: Seq<char>) -> DecodedView {
    if !has_prefix(body, opening()) {
        DecodedView::NotAnEvent
    } else {
        match unquoted(body.skip(opening().len() as int)) {
            None => DecodedView::NotAnEvent,
            Some((aggregate_id, rest)) => match unframed_rest(rest) {
                None => DecodedView::Corrupt { aggregate_id },
                Some((version, payload)) => DecodedView::Event(
                    FrameView { aggregate_id, version, payload },
                ),
            },
        }
    }
}

/// The body that holds a frame reads as that frame: every identifier, every
/// version and every data come back as they went in.
pub proof fn lemma_decoded_framed(frame: FrameView)
    ensures
        decoded(framed(frame)) == DecodedView::Event(frame),
{
    reveal_strlit(",\"event\":");
    let body = framed(frame);
    let data = event_key() + frame.payload + seq!['}'];
    let tail = version_key() + decimal(frame.version as nat) + data;
    let after = quoted(frame.aggregate_id) + seq!['"'] + tail;
    assert(body.subrange(0, opening().len() as int) =~= opening());
    assert(body.skip(opening().len() as int) =~= after);
    lemma_unquoted_quoted(frame.aggregate_id, tail);
    assert(tail.subrange(0, version_key().len() as int) =~= version_key());
    assert(tail.skip(version_key().len() as int) =~= decimal(frame.version as nat) + data);
    lemma_unnumbered_decimal(frame.version, data);
    assert(data.subrange(0, event_key().len() as int) =~= event_key());
    assert(data.subrange(event_key().len() as int, data.len() - 1) =~= frame.payload);
}

/// How the frames of the aggregate `aggregate_id` begin: up to the quotation
/// mark that closes the identifier.
pub open spec fn begun(aggregate_id: Seq<char>) -> Seq<char> {
    opening() + quoted(aggregate_id) + seq!['"']
}

/// What a body that reads as a frame holds is what was written into it: the
/// body is the body that holds that frame.
pub proof fn lemma_framed_decoded(body: Seq<char>)
    requires
        decoded(body) is Event,
    ensures
        body == framed(decoded(body)->Event_0),
{
    let after = body.skip(opening().len() as int);
    assert(body =~= opening() + after);
    lemma_quoted_unquoted(after);
    let (_, rest) = unquoted(after)->0;
    let numbered = rest.skip(version_key().len() as int);
    assert(rest =~= version_key() + numbered);
    lemma_decimal_unnumbered(numbered);
}

/// What each outcome of reading a body means. An event: the body is the body
/// that holds the frame. A corrupt frame: the body begins as the frames of
/// that aggregate do, and is the body of no frame. No event: the body begins
/// as the frames of no aggregate do.
pub proof fn lemma_decoded_means(body: Seq<char>)
    ensures
        match decoded(body) {
            DecodedView::Event(frame) => body == framed(frame),
            DecodedView::Corrupt { aggregate_id } => has_prefix(body, begun(aggregate_id))
                && forall|frame: FrameView| body != #[trigger] framed(frame),
            DecodedView::NotAnEvent => forall|aggregate_id: Seq<char>|
                !has_prefix(body, #[trigger] begun(aggregate_id)),
        },
{
    match decoded(body) {
        DecodedView::Event(frame) => {
            lemma_framed_decoded(body);
        },
        DecodedView::Corrupt { aggregate_id } => {
            let after = body.skip(opening().len() as int);
            assert(body =~= opening() + after);
            lemma_quoted_unquoted(after);
            assert(body.subrange(0, begun(aggregate_id).len() as int) =~= begun(aggregate_id));
            assert forall|frame: FrameView| body != #[trigger] framed(frame) by {
                lemma_decoded_framed(frame);
            }
        },
        DecodedView::NotAnEvent => {
            assert forall|aggregate_id: Seq<char>|
                !has_prefix(body, #[trigger] begun(aggregate_id)) by {
                let front = begun(aggregate_id);
                if has_prefix(body, front) {
                    let rest = body.skip(front.len() as int);
                    assert(body =~= front + rest);
                    assert(body.subrange(0, opening().len() as int) =~= opening());
                    assert(body.skip(opening().len() as int) =~= quoted(aggregate_id) + seq!['"']
                        + rest);
                    lemma_unquoted_quoted(aggregate_id, rest);
                }
            }
        },
    }
}

/// An identifier as a frame holds it: escaped, between quotation marks.
pub open spec fn in_quotes(text: Seq<char>) -> Seq<char> {
    seq!['"'] + quoted(text) + seq!['"']
}

/// `serde_json::to_string` on a text: the text as JSON writes it, between
/// quotation marks, with its quotation marks, backslashes and control
/// characters escaped and every other character as it is. Writing a text
/// does not fail.
#[verifier::external_body]
fn json_of_text(text: &str) -> (json: Option<String>)
    ensures
        json is Some,
        json.unwrap()@ == in_quotes(text@),
{
    serde_json::to_string(text).ok()
}

/// `serde_json::to_string` on a number: the number in decimal digits,
/// without leading zeros. Writing a number does not fail.
#[verifier::external_body]
fn json_of_number(number: u64) -> (json: Option<String>)
    ensures
        json is Some,
        json.unwrap()@ == decimal(number as nat),
{
    serde_json::to_string(&number).ok()
}

/// Writes the body that holds this identifier, this version and this data.
pub fn encode_body(aggregate_id: &str, version: Version, payload: &str) -> (body: String)
    ensures
        body@ == framed(
            FrameView { aggregate_id: aggregate_id@, version, payload: payload@ },
        ),
{
    let identifier = match json_of_text(aggregate_id) {
        Some(written) => written,
        None => String::new(),
    };
    let number = match json_of_number(version) {
        Some(written) => written,
        None => String::new(),
    };
    let mut out = chars_of("{\"aggregate_id\":");
    extend(&mut out, &chars_of(identifier.as_str()));
    extend(&mut out, &chars_of(",\"version\":"));
    extend(&mut out, &chars_of(number.as_str()));
    extend(&mut out, &chars_of(",\"event\":"));
    extend(&mut out, &chars_of(payload));
    out.push('}');
    proof {
        reveal_strlit("{\"aggregate_id\":");
        reveal_strlit("{\"aggregate_id\":\"");
        assert("{\"aggregate_id\":"@ + seq!['"'] =~= opening());
        assert(out@ =~= framed(
            FrameView { aggregate_id: aggregate_id@, version, payload: payload@ },
        ));
    }
    string_of(&out)
}

proof fn lemma_prefix_at(text: Seq<char>, pattern: Seq<char>, at: int)
    requires
        0 <= at <= text.len(),
    ensures
        occurs_at(text, pattern, at) == has_prefix(text.skip(at), pattern),
{
    if at + pattern.len() <= text.len() {
        assert(text.skip(at).subrange(0, pattern.len() as int) =~= text.subrange(
            at,
            at + pattern.len(),
        ));
    }
}

fn read_rest(text: &Vec<char>, from: usize) -> (r: Option<(Version, Vec<char>)>)
    requires
        from <= text.len(),
    ensures
        match r {
            Some((version, payload)) => unframed_rest(text@.skip(from as int)) == Some(
                (version, payload@),
            ),
            None => unframed_rest(text@.skip(from as int)) is None,
        },
{
    let key = chars_of(",\"version\":");
    proof {
        lemma_prefix_at(text@, key@, from as int);
    }
    if !matches_at(text, &key, from) {
        return None;
    }
    let start = from + key.len();
    assert(text@.skip(from as int).skip(key@.len() as int) =~= text@.skip(start as int));
    let (version, end) = match read_number(text, start) {
        Some(found) => found,
        None => {
            return None;
        },
    };
    let key = chars_of(",\"event\":");
    proof {
        lemma_prefix_at(text@, key@, end as int);
    }
    if !matches_at(text, &key, end) {
        return None;
    }
    let data = end + key.len();
    if data >= text.len() || text[text.len() - 1] != '}' {
        return None;
    }
    let payload = slice_of(text, data, text.len() - 1);
    Some((version, payload))
}

/// Reads a body: as a frame; as the corrupt frame of an aggregate, where it
/// begins with an identifier as a frame does and does not go on as one; as no
/// event otherwise.
pub fn decode_body(body: &str) -> (r: Decoded)
    ensures
        r@ == decoded(body@),
        match r {
            Decoded::Event(frame) => body@ == framed(frame@),
            Decoded::Corrupt { aggregate_id } => has_prefix(body@, begun(aggregate_id@))
                && forall|frame: FrameView| body@ != #[trigger] framed(frame),
            Decoded::NotAnEvent => forall|aggregate_id: Seq<char>|
                !has_prefix(body@, #[trigger] begun(aggregate_id)),
        },
{
    proof {
        lemma_decoded_means(body@);
    }
    let text = chars_of(body);
    let key = chars_of("{\"aggregate_id\":\"");
    if !matches_at(&text, &key, 0) {
        return Decoded::NotAnEvent;
    }
    let (id, end) = match read_quoted(&text, key.len()) {
        Some(found) => found,
        None => {
            return Decoded::NotAnEvent;
        },
    };
    let aggregate_id = string_of(&id);
    match read_rest(&text, end) {
        Some((version, payload)) => Decoded::Event(
            Frame { aggregate_id, version, payload: string_of(&payload) },
        ),
        None => Decoded::Corrupt { aggregate_id },
    }
}

} // verus!
