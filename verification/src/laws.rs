//! What holds of every stream of terminal events.

use crate::event::{
    adds_step, coalesced, expanded, poll_step, pushed, pushed_adds_one_event, queued_as,
    terminal_events, InputError, InputEvent, InputMessage, Poll, Received, MAX_EVENTS_PER_BATCH,
};
use crate::scroll::{
    after_event, continues, is_scroll_event, normalized, retains, scrolls, valid_burst, Burst,
    MAX_EVENTS_PER_NOTCH, SCROLL_BURST_GAP_NANOS,
};
use crate::terminal::{Event, MouseEvent};
use vstd::prelude::*;

verus! {

/// A terminal event and when it arrived, in nanoseconds.
pub struct Arrival {
    pub event: Event,
    pub at: int,
}

/// The events of a stream.
pub open spec fn events_of(stream: Seq<Arrival>) -> Seq<Event> {
    stream.map_values(|a: Arrival| a.event)
}

/// The burst after a stream.
pub open spec fn after_stream(burst: Option<Burst>, stream: Seq<Arrival>) -> Option<Burst>
    decreases stream.len(),
{
    if stream.len() == 0 {
        burst
    } else {
        after_event(after_stream(burst, stream.drop_last()), stream.last().event, stream.last().at)
    }
}

/// Whether the event at `i` of a stream is retained.
pub open spec fn retained_at(burst: Option<Burst>, stream: Seq<Arrival>, i: int) -> bool {
    normalized(after_stream(burst, stream.take(i)), stream[i].event, stream[i].at) is Some
}

/// What is retained of a stream.
pub open spec fn retained_of(burst: Option<Burst>, stream: Seq<Arrival>) -> Seq<Event>
    decreases stream.len(),
{
    if stream.len() == 0 {
        Seq::empty()
    } else {
        let before = retained_of(burst, stream.drop_last());
        match normalized(
            after_stream(burst, stream.drop_last()),
            stream.last().event,
            stream.last().at,
        ) {
            Some(event) => before.push(event),
            None => before,
        }
    }
}

/// What is retained of a stream does not depend on where the stream is cut, as long as the
/// burst is carried over.
pub proof fn retention_is_independent_of_cuts(
    burst: Option<Burst>,
    first: Seq<Arrival>,
    second: Seq<Arrival>,
)
    ensures
        after_stream(burst, first + second) == after_stream(after_stream(burst, first), second),
        retained_of(burst, first + second) == retained_of(burst, first) + retained_of(
            after_stream(burst, first),
            second,
        ),
    decreases second.len(),
{
    if second.len() == 0 {
        assert(first + second == first);
    } else {
        assert((first + second).drop_last() == first + second.drop_last());
        assert((first + second).last() == second.last());
        retention_is_independent_of_cuts(burst, first, second.drop_last());
    }
}

/// Events are retained in the order in which they arrived, unchanged.
pub proof fn retention_keeps_order(burst: Option<Burst>, stream: Seq<Arrival>) -> (places: Seq<int>)
    ensures
        places.len() == retained_of(burst, stream).len(),
        forall|m: int|
            0 <= m < places.len() ==> 0 <= #[trigger] places[m] < stream.len() && retained_of(
                burst,
                stream,
            )[m] == stream[places[m]].event,
        forall|m: int, l: int|
            0 <= m < l < places.len() ==> #[trigger] places[m] < #[trigger] places[l],
    decreases stream.len(),
{
    if stream.len() == 0 {
        Seq::empty()
    } else {
        let places = retention_keeps_order(burst, stream.drop_last());
        match normalized(
            after_stream(burst, stream.drop_last()),
            stream.last().event,
            stream.last().at,
        ) {
            Some(_) => places.push(stream.len() - 1),
            None => places,
        }
    }
}

/// The events that are no scroll events, in order.
pub open spec fn other_events(events: Seq<Event>) -> Seq<Event> {
    events.filter(|e: Event| !is_scroll_event(e))
}

/// Every event that is no scroll event is retained.
pub proof fn other_events_are_retained(burst: Option<Burst>, stream: Seq<Arrival>)
    ensures
        other_events(retained_of(burst, stream)) == other_events(events_of(stream)),
    decreases stream.len(),
{
    reveal(Seq::filter);
    if stream.len() > 0 {
        other_events_are_retained(burst, stream.drop_last());
        assert(events_of(stream).drop_last() == events_of(stream.drop_last()));
        let before = retained_of(burst, stream.drop_last());
        assert(before.push(stream.last().event).drop_last() == before);
    }
}

/// Only a scroll event may be dropped, before the queue or for want of room in it.
pub proof fn only_scroll_events_may_be_dropped(burst: Option<Burst>, event: Event, at: int)
    requires
        !is_scroll_event(event),
    ensures
        normalized(burst, event, at) == Some(event),
        queued_as(event) is Wait,
{
}

/// Every burst that a stream leaves behind is valid.
pub proof fn bursts_stay_valid(burst: Option<Burst>, stream: Seq<Arrival>)
    requires
        valid_burst(burst),
    ensures
        valid_burst(after_stream(burst, stream)),
    decreases stream.len(),
{
    if stream.len() > 0 {
        bursts_stay_valid(burst, stream.drop_last());
    }
}

/// An event that differs from the one before it is retained: another direction, another place
/// of the pointer, other modifiers, or no scroll at all.
pub proof fn changes_are_retained(burst: Option<Burst>, stream: Seq<Arrival>, i: int)
    requires
        0 < i < stream.len(),
        stream[i].event != stream[i - 1].event,
    ensures
        retained_at(burst, stream, i),
{
    assert(stream.take(i).last() == stream[i - 1]);
}

/// Whether a stream is a burst: the same scroll event, each less than the gap after the last.
pub open spec fn is_burst(stream: Seq<Arrival>, mouse: MouseEvent) -> bool {
    &&& scrolls(mouse.kind)
    &&& forall|i: int| 0 <= i < stream.len() ==> (#[trigger] stream[i]).event == Event::Mouse(mouse)
    &&& forall|i: int|
        0 < i < stream.len() ==> (#[trigger] stream[i]).at - stream[i - 1].at
            < SCROLL_BURST_GAP_NANOS
}

/// How many notches `n` events of a burst make.
pub open spec fn notches(n: nat) -> nat {
    (n + MAX_EVENTS_PER_NOTCH - 1) as nat / MAX_EVENTS_PER_NOTCH as nat
}

/// How many of `n` events of a burst have arrived since one was last retained.
pub open spec fn since_retained(n: nat) -> nat {
    ((n - 1) % (MAX_EVENTS_PER_NOTCH as int) + 1) as nat
}

proof fn lemma_next_of_burst(n: nat)
    requires
        n > 0,
    ensures
        notches(1) == 1,
        since_retained(1) == 1,
        since_retained(n) >= MAX_EVENTS_PER_NOTCH ==> notches(n + 1) == notches(n) + 1
            && since_retained(n + 1) == 1,
        since_retained(n) < MAX_EVENTS_PER_NOTCH ==> notches(n + 1) == notches(n)
            && since_retained(n + 1) == since_retained(n) + 1,
{
}

/// Of a burst, one event is retained for each notch that it makes.
pub proof fn a_burst_retains_its_notches(
    burst: Option<Burst>,
    stream: Seq<Arrival>,
    mouse: MouseEvent,
)
    requires
        is_burst(stream, mouse),
        stream.len() > 0,
        !continues(burst, mouse, stream[0].at),
    ensures
        retained_of(burst, stream) == Seq::new(
            notches(stream.len()),
            |i: int| Event::Mouse(mouse),
        ),
        after_stream(burst, stream) == Some(
            Burst { last: stream.last().at, mouse, count: since_retained(stream.len()) },
        ),
    decreases stream.len(),
{
    let rest = stream.drop_last();
    let n = rest.len();
    let last = stream.last();
    assert(last.event == Event::Mouse(mouse));
    let before = after_stream(burst, rest);
    let kept = retained_of(burst, rest);
    if n == 0 {
        lemma_next_of_burst(1);
        assert(before == burst);
        assert(kept == Seq::<Event>::empty());
        assert(retained_of(burst, stream) == kept.push(last.event));
    } else {
        assert forall|i: int| 0 < i < n implies (#[trigger] rest[i]).at - rest[i - 1].at
            < SCROLL_BURST_GAP_NANOS by {
            assert(stream[i].at - stream[i - 1].at < SCROLL_BURST_GAP_NANOS);
        }
        a_burst_retains_its_notches(burst, rest, mouse);
        lemma_next_of_burst(n);
        assert(stream[n as int].at - stream[n - 1].at < SCROLL_BURST_GAP_NANOS);
        assert(continues(before, mouse, last.at));
        assert(retains(before, mouse, last.at) == (since_retained(n) >= MAX_EVENTS_PER_NOTCH));
        if retains(before, mouse, last.at) {
            assert(retained_of(burst, stream) == kept.push(last.event));
        } else {
            assert(retained_of(burst, stream) == kept);
        }
    }
}

/// Events that arrive at least the gap apart are all retained.
pub proof fn paced_events_are_retained(burst: Option<Burst>, stream: Seq<Arrival>)
    requires
        burst is Some && stream.len() > 0 ==> stream[0].at - burst->Some_0.last
            >= SCROLL_BURST_GAP_NANOS,
        forall|i: int|
            0 < i < stream.len() ==> (#[trigger] stream[i]).at - stream[i - 1].at
                >= SCROLL_BURST_GAP_NANOS,
    ensures
        retained_of(burst, stream) == events_of(stream),
    decreases stream.len(),
{
    if stream.len() > 0 {
        let rest = stream.drop_last();
        assert forall|i: int| 0 < i < rest.len() implies (#[trigger] rest[i]).at - rest[i - 1].at
            >= SCROLL_BURST_GAP_NANOS by {
            assert(stream[i].at - stream[i - 1].at >= SCROLL_BURST_GAP_NANOS);
        }
        paced_events_are_retained(burst, rest);
        let last = stream.len() - 1;
        if last > 0 {
            assert(stream[last].at - stream[last - 1].at >= SCROLL_BURST_GAP_NANOS);
            assert(rest.last() == stream[last - 1]);
        }
        assert(events_of(stream) == events_of(rest).push(stream.last().event));
    }
}

/// No more events in a row are dropped than a notch has after its first.
pub proof fn few_events_are_dropped_in_a_row(burst: Option<Burst>, stream: Seq<Arrival>)
    requires
        valid_burst(burst),
        retained_of(burst, stream).len() == 0,
    ensures
        stream.len() < MAX_EVENTS_PER_NOTCH,
{
    lemma_dropped_in_a_row(burst, stream);
}

proof fn lemma_dropped_in_a_row(burst: Option<Burst>, stream: Seq<Arrival>)
    requires
        valid_burst(burst),
        retained_of(burst, stream).len() == 0,
    ensures
        stream.len() > 0 ==> burst is Some && (after_stream(burst, stream) matches Some(b)
            && b.count == burst->Some_0.count + stream.len() && b.valid()),
    decreases stream.len(),
{
    if stream.len() > 0 {
        lemma_dropped_in_a_row(burst, stream.drop_last());
        bursts_stay_valid(burst, stream);
    }
}

/// The notches of a gesture, one after the other.
pub open spec fn gesture(notches: Seq<Seq<Arrival>>) -> Seq<Arrival>
    decreases notches.len(),
{
    if notches.len() == 0 {
        Seq::empty()
    } else {
        gesture(notches.drop_last()) + notches.last()
    }
}

/// Whether each notch is a burst of no more events than a notch has, and comes at least the
/// gap after the one before it.
pub open spec fn is_gesture(notches: Seq<Seq<Arrival>>, mouse: MouseEvent) -> bool {
    &&& forall|i: int|
        0 <= i < notches.len() ==> is_burst(#[trigger] notches[i], mouse) && 0 < notches[i].len()
            <= MAX_EVENTS_PER_NOTCH
    &&& forall|i: int|
        0 < i < notches.len() ==> (#[trigger] notches[i]).first().at - notches[i - 1].last().at
            >= SCROLL_BURST_GAP_NANOS
}

/// Of a gesture, one event is retained for each notch.
pub proof fn each_notch_of_a_gesture_counts_once(notches: Seq<Seq<Arrival>>, mouse: MouseEvent)
    requires
        is_gesture(notches, mouse),
    ensures
        retained_of(None, gesture(notches)) == Seq::new(
            notches.len(),
            |i: int| Event::Mouse(mouse),
        ),
{
    lemma_gesture(notches, mouse);
}

proof fn lemma_gesture(notches: Seq<Seq<Arrival>>, mouse: MouseEvent)
    requires
        is_gesture(notches, mouse),
    ensures
        retained_of(None, gesture(notches)) == Seq::new(
            notches.len(),
            |i: int| Event::Mouse(mouse),
        ),
        notches.len() > 0 ==> (after_stream(None, gesture(notches)) matches Some(b) && b.last
            == notches.last().last().at),
    decreases notches.len(),
{
    if notches.len() > 0 {
        let rest = notches.drop_last();
        let k = notches.len() - 1;
        assert forall|i: int| 0 < i < rest.len() implies (#[trigger] rest[i]).first().at - rest[i
            - 1].last().at >= SCROLL_BURST_GAP_NANOS by {
            assert(notches[i].first().at - notches[i - 1].last().at >= SCROLL_BURST_GAP_NANOS);
        }
        lemma_gesture(rest, mouse);
        let before = after_stream(None, gesture(rest));
        assert(is_burst(notches[k], mouse));
        if k > 0 {
            assert(notches[k].first().at - notches[k - 1].last().at >= SCROLL_BURST_GAP_NANOS);
            assert(rest.last() == notches[k - 1]);
        } else {
            assert(gesture(rest) == Seq::<Arrival>::empty());
        }
        a_burst_retains_its_notches(before, notches[k], mouse);
        retention_is_independent_of_cuts(None, gesture(rest), notches[k]);
    }
}

/// A batch stands for the events that it was made of, in order.
pub proof fn a_batch_stands_for_its_events(events: Seq<Event>)
    requires
        events.len() <= usize::MAX,
    ensures
        expanded(coalesced(events)) == events,
    decreases events.len(),
{
    if events.len() > 0 {
        let rest = events.drop_last();
        a_batch_stands_for_its_events(rest);
        let batch = coalesced(rest);
        if batch.len() > 0 {
            assert(terminal_events(batch.last()).len() <= expanded(batch).len());
        }
        pushed_adds_one_event(batch, events.last());
        assert(rest.push(events.last()) == events);
    }
}

/// In a batch, no two equal scroll events stand side by side, every row has a step, and only
/// scroll events stand in rows.
pub proof fn a_batch_joins_equal_scrolls(events: Seq<Event>)
    requires
        events.len() <= usize::MAX,
    ensures
        forall|i: int|
            0 <= i < coalesced(events).len() ==> match #[trigger] coalesced(events)[i] {
                InputEvent::Scroll { mouse, steps } => scrolls(mouse.kind) && steps > 0,
                InputEvent::Terminal(event) => !is_scroll_event(event),
            },
        forall|i: int, j: int|
            #![trigger coalesced(events)[i], coalesced(events)[j]]
            0 <= i && j == i + 1 && j < coalesced(events).len() && coalesced(events)[i] is Scroll
                && coalesced(events)[j] is Scroll ==> coalesced(events)[i]->mouse != coalesced(
                events,
            )[j]->mouse,
    decreases events.len(),
{
    if events.len() > 0 {
        let rest = events.drop_last();
        a_batch_joins_equal_scrolls(rest);
        a_batch_stands_for_its_events(rest);
        let batch = coalesced(rest);
        if batch.len() > 0 {
            assert(terminal_events(batch.last()).len() <= expanded(batch).len());
            assert(batch.last() == batch[batch.len() - 1]);
        }
        assert(coalesced(events) == pushed(batch, events.last()));
        assert(adds_step(batch, events.last()) ==> batch.last()->steps < usize::MAX);
    }
}

/// How far a stream scrolls does not depend on the batches into which it is cut.
pub proof fn scroll_distance_is_independent_of_batches(
    burst: Option<Burst>,
    first: Seq<Arrival>,
    second: Seq<Arrival>,
)
    requires
        first.len() + second.len() <= usize::MAX,
    ensures
        expanded(coalesced(retained_of(burst, first + second))) == expanded(
            coalesced(retained_of(burst, first)),
        ) + expanded(coalesced(retained_of(after_stream(burst, first), second))),
{
    retention_is_independent_of_cuts(burst, first, second);
    retention_keeps_at_most_all(burst, first);
    retention_keeps_at_most_all(after_stream(burst, first), second);
    a_batch_stands_for_its_events(retained_of(burst, first));
    a_batch_stands_for_its_events(retained_of(after_stream(burst, first), second));
    a_batch_stands_for_its_events(retained_of(burst, first + second));
}

/// No more events are retained than arrive.
pub proof fn retention_keeps_at_most_all(burst: Option<Burst>, stream: Seq<Arrival>)
    ensures
        retained_of(burst, stream).len() <= stream.len(),
    decreases stream.len(),
{
    if stream.len() > 0 {
        retention_keeps_at_most_all(burst, stream.drop_last());
    }
}

/// What a poll comes to that is handed one thing after the other from the queue.
pub open spec fn poll_run(gathered: Seq<Event>, queue: Seq<Received>) -> Poll
    decreases queue.len(),
{
    if queue.len() == 0 {
        Poll::Gathering(gathered)
    } else {
        match poll_step(gathered, queue[0]) {
            Poll::Gathering(more) => poll_run(more, queue.drop_first()),
            end => end,
        }
    }
}

/// A queue that holds events.
pub open spec fn queue_of(events: Seq<Event>) -> Seq<Received> {
    events.map_values(|e: Event| Received::Message(InputMessage::Event(e)))
}

/// Events that do not fill a batch are gathered in order, whatever follows them.
proof fn lemma_poll_gathers(gathered: Seq<Event>, events: Seq<Event>, rest: Seq<Received>)
    requires
        gathered.len() + events.len() < MAX_EVENTS_PER_BATCH,
    ensures
        poll_run(gathered, queue_of(events) + rest) == poll_run(gathered + events, rest),
    decreases events.len(),
{
    let queue = queue_of(events) + rest;
    if events.len() == 0 {
        assert(queue == rest);
        assert(gathered + events == gathered);
    } else {
        let tail = events.drop_first();
        assert(queue.drop_first() == queue_of(tail) + rest);
        assert(gathered.push(events[0]) + tail == gathered + events);
        lemma_poll_gathers(gathered.push(events[0]), tail, rest);
    }
}

/// A poll hands out all events that are there, in order, where they do not fill a batch.
pub proof fn a_poll_hands_out_what_is_there(events: Seq<Event>)
    requires
        events.len() < MAX_EVENTS_PER_BATCH,
    ensures
        poll_run(Seq::empty(), queue_of(events).push(Received::Nothing)) == Poll::Finished(events),
{
    let rest = seq![Received::Nothing];
    lemma_poll_gathers(Seq::empty(), events, rest);
    assert(queue_of(events).push(Received::Nothing) == queue_of(events) + rest);
    assert(Seq::<Event>::empty() + events == events);
}

/// A poll leaves in the queue what does not go into a full batch.
pub proof fn a_poll_stops_at_a_full_batch(events: Seq<Event>, rest: Seq<Received>)
    requires
        events.len() == MAX_EVENTS_PER_BATCH,
    ensures
        poll_run(Seq::empty(), queue_of(events) + rest) == Poll::Finished(events),
{
    let first = events.drop_last();
    let after = seq![Received::Message(InputMessage::Event(events.last()))] + rest;
    lemma_poll_gathers(Seq::empty(), first, after);
    assert(queue_of(events) + rest == queue_of(first) + after);
    assert(Seq::<Event>::empty() + first == first);
    assert(first.push(events.last()) == events);
}

/// A poll that meets an error or a closed queue before the batch is full fails with it.
pub proof fn a_poll_fails_with_the_first_error(
    events: Seq<Event>,
    error: String,
    rest: Seq<Received>,
)
    requires
        events.len() < MAX_EVENTS_PER_BATCH,
    ensures
        poll_run(
            Seq::empty(),
            queue_of(events) + (seq![Received::Message(InputMessage::Error(error))] + rest),
        ) == Poll::Failed(InputError::Failed(error)),
        poll_run(Seq::empty(), queue_of(events) + (seq![Received::Disconnected] + rest))
            == Poll::Failed(InputError::Stopped),
{
    lemma_poll_gathers(
        Seq::empty(),
        events,
        seq![Received::Message(InputMessage::Error(error))] + rest,
    );
    lemma_poll_gathers(Seq::empty(), events, seq![Received::Disconnected] + rest);
}

} // verus!
