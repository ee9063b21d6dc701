//! The order in which events are replayed: by aggregate, and for each
//! aggregate by version.
use crate::event::PersistedEvent;
use crate::eventstore::{is_selected, lemma_selected_of_joined, selected, VersionSelect};
use crate::text::chars_of;
use vstd::prelude::*;

verus! {

/// Whether the text `a` comes before the text `b`: at the first place where
/// they differ `a` has the character with the lower code, or `a` ends there
/// and `b` goes on.
pub open spec fn text_before(a: Seq<char>, b: Seq<char>) -> bool
    decreases a.len(),
{
    if b.len() == 0 {
        false
    } else if a.len() == 0 {
        true
    } else if (a[0] as u32) != (b[0] as u32) {
        (a[0] as u32) < (b[0] as u32)
    } else {
        text_before(a.skip(1), b.skip(1))
    }
}

/// Whether `a` is replayed before `b`: its aggregate comes before that of
/// `b`, or it is an earlier version of the same aggregate.
pub open spec fn replays_before<T>(a: PersistedEvent<T>, b: PersistedEvent<T>) -> bool {
    text_before(a.aggregate_id@, b.aggregate_id@) || (a.aggregate_id@ == b.aggregate_id@
        && a.version < b.version)
}

/// Whether `events` are in the order of their replay: no event stands after
/// one that is replayed after it.
pub open spec fn is_replay_ordered<T>(events: Seq<PersistedEvent<T>>) -> bool {
    forall|i: int, j: int| 0 <= i < j < events.len() ==> !replays_before(events[j], events[i])
}

/// The number of events at the front of `events` that are replayed before
/// `event`.
pub open spec fn replay_rank<T>(events: Seq<PersistedEvent<T>>, event: PersistedEvent<T>) -> int
    decreases events.len(),
{
    if events.len() == 0 || !replays_before(events.first(), event) {
        0
    } else {
        1 + replay_rank(events.drop_first(), event)
    }
}

/// `events` in the order of their replay: ascending by aggregate, and for
/// each aggregate ascending by version; events of one aggregate and version
/// keep their order.
pub open spec fn in_replay_order<T>(events: Seq<PersistedEvent<T>>) -> Seq<PersistedEvent<T>>
    decreases events.len(),
{
    if events.len() == 0 {
        Seq::empty()
    } else {
        let rest = in_replay_order(events.drop_first());
        rest.insert(replay_rank(rest, events.first()), events.first())
    }
}

proof fn lemma_same_code(x: char, y: char)
    requires
        (x as u32) == (y as u32),
    ensures
        x == y,
{
}

/// Of two texts one comes before the other, or they are the same text; never
/// both, and no text comes before itself.
pub proof fn lemma_text_order(a: Seq<char>, b: Seq<char>)
    ensures
        a == b || text_before(a, b) || text_before(b, a),
        !(text_before(a, b) && text_before(b, a)),
        a == b ==> !text_before(a, b),
    decreases a.len(),
{
    if a.len() > 0 && b.len() > 0 && (a[0] as u32) == (b[0] as u32) {
        lemma_text_order(a.skip(1), b.skip(1));
        if a.skip(1) == b.skip(1) {
            lemma_same_code(a[0], b[0]);
            assert(a =~= seq![a[0]] + a.skip(1));
        }
    }
}

/// A text that comes before a second, which comes before a third, comes
/// before the third.
pub proof fn lemma_text_order_goes_on(a: Seq<char>, b: Seq<char>, c: Seq<char>)
    requires
        text_before(a, b),
        text_before(b, c),
    ensures
        text_before(a, c),
    decreases a.len(),
{
    if a.len() > 0 && (a[0] as u32) == (b[0] as u32) && (b[0] as u32) == (c[0] as u32) {
        lemma_text_order_goes_on(a.skip(1), b.skip(1), c.skip(1));
    }
}

proof fn lemma_not_before_goes_on<T>(
    a: PersistedEvent<T>,
    b: PersistedEvent<T>,
    c: PersistedEvent<T>,
)
    requires
        !replays_before(b, a),
        !replays_before(c, b),
    ensures
        !replays_before(c, a),
        replays_before(a, b) ==> !replays_before(b, a),
{
    let (x, y, z) = (a.aggregate_id@, b.aggregate_id@, c.aggregate_id@);
    lemma_text_order(x, y);
    if text_before(z, x) && text_before(x, y) {
        lemma_text_order_goes_on(z, x, y);
    }
}

proof fn lemma_replay_rank<T>(events: Seq<PersistedEvent<T>>, event: PersistedEvent<T>)
    ensures
        0 <= replay_rank(events, event) <= events.len(),
        forall|i: int|
            0 <= i < replay_rank(events, event) ==> replays_before(#[trigger] events[i], event),
        replay_rank(events, event) < events.len() ==> !replays_before(
            events[replay_rank(events, event)],
            event,
        ),
    decreases events.len(),
{
    if events.len() > 0 && replays_before(events.first(), event) {
        let rest = events.drop_first();
        lemma_replay_rank(rest, event);
        assert forall|i: int| 0 <= i < replay_rank(events, event) implies replays_before(
            #[trigger] events[i],
            event,
        ) by {
            if i > 0 {
                assert(events[i] == rest[i - 1]);
            }
        }
    }
}

proof fn lemma_replay_rank_found<T>(
    events: Seq<PersistedEvent<T>>,
    event: PersistedEvent<T>,
    at: int,
)
    requires
        0 <= at <= events.len(),
        forall|i: int| 0 <= i < at ==> replays_before(#[trigger] events[i], event),
        at < events.len() ==> !replays_before(events[at], event),
    ensures
        replay_rank(events, event) == at,
    decreases events.len(),
{
    if at > 0 {
        let rest = events.drop_first();
        lemma_replay_rank_found(rest, event, at - 1);
    }
}

proof fn lemma_placed_in_order<T>(events: Seq<PersistedEvent<T>>, event: PersistedEvent<T>)
    requires
        is_replay_ordered(events),
    ensures
        is_replay_ordered(events.insert(replay_rank(events, event), event)),
{
    let at = replay_rank(events, event);
    lemma_replay_rank(events, event);
    let after = events.insert(at, event);
    assert forall|i: int, j: int| 0 <= i < j < after.len() implies !replays_before(
        after[j],
        after[i],
    ) by {
        if j == at {
            lemma_text_order(events[i].aggregate_id@, event.aggregate_id@);
        } else if i == at {
            if j - 1 > at {
                lemma_not_before_goes_on(event, events[at], events[j - 1]);
            }
        }
    }
}

/// Putting events in the order of their replay gives the same events, each
/// as often as before, in that order.
pub proof fn lemma_in_replay_order<T>(events: Seq<PersistedEvent<T>>)
    ensures
        is_replay_ordered(in_replay_order(events)),
        in_replay_order(events).to_multiset() == events.to_multiset(),
        in_replay_order(events).len() == events.len(),
    decreases events.len(),
{
    if events.len() == 0 {
        assert(events =~= Seq::empty());
    } else {
        let rest = events.drop_first();
        let ordered = in_replay_order(rest);
        lemma_in_replay_order(rest);
        lemma_placed_in_order(ordered, events.first());
        lemma_replay_rank(ordered, events.first());
        vstd::seq_lib::to_multiset_insert(
            ordered,
            replay_rank(ordered, events.first()),
            events.first(),
        );
        assert(events =~= rest.insert(0, events.first()));
        vstd::seq_lib::to_multiset_insert(rest, 0, events.first());
    }
}

proof fn lemma_selected_of_inserted<T>(
    events: Seq<PersistedEvent<T>>,
    at: int,
    event: PersistedEvent<T>,
    aggregate_id: Seq<char>,
)
    requires
        0 <= at <= events.len(),
    ensures
        selected(events.insert(at, event), aggregate_id, VersionSelect::All) == selected(
            events.take(at),
            aggregate_id,
            VersionSelect::All,
        ) + selected(seq![event], aggregate_id, VersionSelect::All) + selected(
            events.skip(at),
            aggregate_id,
            VersionSelect::All,
        ),
        selected(events, aggregate_id, VersionSelect::All) == selected(
            events.take(at),
            aggregate_id,
            VersionSelect::All,
        ) + selected(events.skip(at), aggregate_id, VersionSelect::All),
        selected(seq![event], aggregate_id, VersionSelect::All) == if event.aggregate_id@
            == aggregate_id {
            seq![event]
        } else {
            Seq::empty()
        },
{
    let all = VersionSelect::All;
    assert(events.insert(at, event) =~= events.take(at) + seq![event] + events.skip(at));
    assert(events =~= events.take(at) + events.skip(at));
    lemma_selected_of_joined(events.take(at) + seq![event], events.skip(at), aggregate_id, all);
    lemma_selected_of_joined(events.take(at), seq![event], aggregate_id, all);
    lemma_selected_of_joined(events.take(at), events.skip(at), aggregate_id, all);
    assert(selected(seq![event].drop_last(), aggregate_id, all) =~= Seq::empty());
}

/// In the order of their replay each aggregate has as many events as before.
pub proof fn lemma_in_replay_order_keeps<T>(events: Seq<PersistedEvent<T>>, aggregate_id: Seq<char>)
    ensures
        selected(in_replay_order(events), aggregate_id, VersionSelect::All).len() == selected(
            events,
            aggregate_id,
            VersionSelect::All,
        ).len(),
    decreases events.len(),
{
    if events.len() > 0 {
        let rest = events.drop_first();
        let ordered = in_replay_order(rest);
        lemma_in_replay_order_keeps(rest, aggregate_id);
        lemma_replay_rank(ordered, events.first());
        lemma_selected_of_inserted(
            ordered,
            replay_rank(ordered, events.first()),
            events.first(),
            aggregate_id,
        );
        assert(events =~= rest.insert(0, events.first()));
        lemma_selected_of_inserted(rest, 0, events.first(), aggregate_id);
    }
}

/// In the order of their replay the events of each aggregate stand in
/// ascending order of version.
pub proof fn lemma_replay_order_is_by_version<T>(events: Seq<PersistedEvent<T>>, i: int, j: int)
    requires
        is_replay_ordered(events),
        0 <= i < j < events.len(),
        events[i].aggregate_id@ == events[j].aggregate_id@,
    ensures
        events[i].version <= events[j].version,
{
    assert(!replays_before(events[j], events[i]));
}

fn comes_before(a: &Vec<char>, b: &Vec<char>) -> (r: bool)
    ensures
        r == text_before(a@, b@),
{
    let mut n: usize = 0;
    assert(a@.skip(0) =~= a@ && b@.skip(0) =~= b@);
    loop
        invariant
            n <= a.len(),
            n <= b.len(),
            text_before(a@, b@) == text_before(a@.skip(n as int), b@.skip(n as int)),
        decreases a.len() - n,
    {
        if n == b.len() {
            return false;
        }
        if n == a.len() {
            return true;
        }
        let x = a[n] as u32;
        let y = b[n] as u32;
        if x != y {
            return x < y;
        }
        assert(a@.skip(n as int).skip(1) =~= a@.skip(n + 1));
        assert(b@.skip(n as int).skip(1) =~= b@.skip(n + 1));
        n += 1;
    }
}

fn is_replayed_before<T>(a: &PersistedEvent<T>, b: &PersistedEvent<T>) -> (r: bool)
    ensures
        r == replays_before(*a, *b),
{
    if a.aggregate_id == b.aggregate_id {
        proof {
            lemma_text_order(a.aggregate_id@, b.aggregate_id@);
        }
        a.version < b.version
    } else {
        let x = chars_of(a.aggregate_id.as_str());
        let y = chars_of(b.aggregate_id.as_str());
        comes_before(&x, &y)
    }
}

/// Puts `events` in the order of their replay: ascending by aggregate, and
/// for each aggregate ascending by version. Events of one aggregate and
/// version keep their order.
pub fn sort_for_replay<T>(events: Vec<PersistedEvent<T>>) -> (sorted: Vec<PersistedEvent<T>>)
    ensures
        sorted@ == in_replay_order(events@),
{
    let mut rest = events;
    let mut sorted: Vec<PersistedEvent<T>> = Vec::new();
    while rest.len() > 0
        invariant
            rest@.len() <= events@.len(),
            rest@ == events@.take(rest@.len() as int),
            sorted@ == in_replay_order(events@.skip(rest@.len() as int)),
        decreases rest.len(),
    {
        let ghost done = events@.skip(rest@.len() as int);
        let event = rest.pop().unwrap();
        let mut at: usize = 0;
        while at < sorted.len() && is_replayed_before(&sorted[at], &event)
            invariant
                at <= sorted.len(),
                forall|i: int| 0 <= i < at ==> replays_before(#[trigger] sorted[i], event),
            decreases sorted.len() - at,
        {
            at += 1;
        }
        proof {
            lemma_replay_rank_found(sorted@, event, at as int);
            let more = events@.skip(rest@.len() as int);
            assert(more.drop_first() =~= done);
        }
        sorted.insert(at, event);
    }
    assert(events@.skip(0) =~= events@);
    sorted
}

} // verus!
