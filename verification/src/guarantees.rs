//! What becomes of the events of a terminal, told by the events alone.

use crate::event::{
    after_read, coalesced, poll_step, pushed, queued_as, read_step, Enqueue, InputError,
    InputEvent, InputMessage, Poll, PollStep, ReadStep, Received, EVENT_POLL_TIMEOUT_MILLIS,
    MAX_BUFFERED_EVENTS, MAX_EVENTS_PER_BATCH,
};
use crate::laws::{after_stream, retained_of, Arrival};
use crate::scroll::{
    after_event, after_scroll, is_scroll_event, normalized, retains, scrolls, Burst,
    MAX_EVENTS_PER_NOTCH, SCROLL_BURST_GAP_NANOS,
};
use crate::terminal::{Event, MouseEvent, MouseEventKind};
use vstd::prelude::*;

verus! {

/// A notch is eight events, a burst has gaps below a millisecond, a batch takes 512 messages
/// out of a queue of 1024, and a poll waits a tenth of a second.
pub proof fn limits()
    ensures
        MAX_EVENTS_PER_NOTCH == 8,
        SCROLL_BURST_GAP_NANOS == 1_000_000,
        MAX_EVENTS_PER_BATCH == 512,
        MAX_BUFFERED_EVENTS == 1024,
        EVENT_POLL_TIMEOUT_MILLIS == 100,
{
}

/// The wheel is turned up or down by exactly two kinds of mouse event.
pub proof fn the_wheel_turns_up_and_down(event: Event)
    ensures
        is_scroll_event(event) <==> event is Mouse && (event->Mouse_0.kind
            == MouseEventKind::ScrollUp || event->Mouse_0.kind == MouseEventKind::ScrollDown),
        event is Mouse ==> (scrolls(event->Mouse_0.kind) <==> is_scroll_event(event)),
{
}

/// A key, a paste, a change of focus or size, a click, a drag, a move and a turn of the wheel
/// to the side are retained whatever came before, end the burst, wait for room in the queue, and
/// are handed out as they are.
pub proof fn every_other_event_passes_as_it_is(
    burst: Option<Burst>,
    event: Event,
    at: int,
    events: Seq<InputEvent>,
)
    requires
        event is Mouse ==> event->Mouse_0.kind != MouseEventKind::ScrollUp
            && event->Mouse_0.kind != MouseEventKind::ScrollDown,
    ensures
        normalized(burst, event, at) == Some(event),
        after_event(burst, event, at) == None::<Burst>,
        queued_as(event) == Enqueue::Wait(InputMessage::Event(event)),
        read_step(burst, Ok(event), at) == ReadStep::Enqueue(
            Enqueue::Wait(InputMessage::Event(event)),
        ),
        pushed(events, event) == events.push(InputEvent::Terminal(event)),
{
}

/// A scroll is retained exactly where none is remembered, the one remembered is another, it
/// came a millisecond or more before, or seven like it were dropped since the last one that was
/// retained. It is remembered with when it came, and the count starts again with each that is
/// retained.
pub proof fn a_scroll_is_judged_by_the_one_before(burst: Option<Burst>, mouse: MouseEvent, at: int)
    ensures
        burst is None ==> retains(burst, mouse, at),
        burst is Some && burst->Some_0.mouse != mouse ==> retains(burst, mouse, at),
        burst is Some && at - burst->Some_0.last >= 1_000_000 ==> retains(burst, mouse, at),
        burst is Some && burst->Some_0.count >= 8 ==> retains(burst, mouse, at),
        burst is Some && burst->Some_0.mouse == mouse && at - burst->Some_0.last < 1_000_000
            && burst->Some_0.count < 8 ==> !retains(burst, mouse, at),
        after_scroll(burst, mouse, at) is Some,
        after_scroll(burst, mouse, at)->Some_0.last == at,
        after_scroll(burst, mouse, at)->Some_0.mouse == mouse,
        retains(burst, mouse, at) ==> after_scroll(burst, mouse, at)->Some_0.count == 1,
        !retains(burst, mouse, at) ==> after_scroll(burst, mouse, at)->Some_0.count
            == burst->Some_0.count + 1,
{
}

/// A turn of the wheel up or down passes unchanged where it is retained and not at all where it
/// is not, and it is not waited for where the queue is full.
pub proof fn a_turn_of_the_wheel_passes_where_it_is_retained(
    burst: Option<Burst>,
    mouse: MouseEvent,
    at: int,
)
    requires
        mouse.kind == MouseEventKind::ScrollUp || mouse.kind == MouseEventKind::ScrollDown,
    ensures
        retains(burst, mouse, at) ==> normalized(burst, Event::Mouse(mouse), at) == Some(
            Event::Mouse(mouse),
        ),
        !retains(burst, mouse, at) ==> normalized(burst, Event::Mouse(mouse), at) == None::<Event>,
        after_event(burst, Event::Mouse(mouse), at) == after_scroll(burst, mouse, at),
        queued_as(Event::Mouse(mouse)) == Enqueue::Try(InputMessage::Event(Event::Mouse(mouse))),
        retains(burst, mouse, at) ==> read_step(burst, Ok(Event::Mouse(mouse)), at)
            == ReadStep::Enqueue(Enqueue::Try(InputMessage::Event(Event::Mouse(mouse)))),
        !retains(burst, mouse, at) ==> read_step(burst, Ok(Event::Mouse(mouse)), at)
            == ReadStep::Skip,
{
}

/// Of equal scrolls, each less than a millisecond after the last, every eighth is retained,
/// from the first on. `states[i]` is the burst before the scroll that comes at `times[i]`. The
/// first is no part of a burst: none is remembered, or another, or one a millisecond or more
/// before.
pub proof fn one_in_eight_equal_scrolls_is_retained(
    states: Seq<Option<Burst>>,
    times: Seq<int>,
    mouse: MouseEvent,
    i: int,
)
    requires
        states.len() == times.len() + 1,
        forall|j: int|
            0 <= j < times.len() ==> #[trigger] states[j + 1] == after_scroll(
                states[j],
                mouse,
                times[j],
            ),
        forall|j: int| 0 < j < times.len() ==> #[trigger] times[j] - times[j - 1] < 1_000_000,
        states[0] is None || states[0]->Some_0.mouse != mouse || times[0] - states[0]->Some_0.last
            >= 1_000_000,
        0 <= i < times.len(),
    ensures
        retains(states[i], mouse, times[i]) <==> i % 8 == 0,
        states[i + 1] == Some(
            Burst { last: times[i], mouse, count: (i % 8 + 1) as nat },
        ),
    decreases i,
{
    assert(states[i + 1] == after_scroll(states[i], mouse, times[i]));
    if i > 0 {
        one_in_eight_equal_scrolls_is_retained(states, times, mouse, i - 1);
        assert(times[i] - times[i - 1] < 1_000_000);
        assert(states[i - 1 + 1] == states[i]);
    }
}

/// Of a stream of n equal turns of the wheel, each less than a millisecond after the last and
/// the first no part of a burst, n over eight, rounded up, are retained, and the count that is
/// left is that of the last eight.
pub proof fn a_free_spin_is_bounded(burst: Option<Burst>, stream: Seq<Arrival>, mouse: MouseEvent)
    requires
        mouse.kind == MouseEventKind::ScrollUp || mouse.kind == MouseEventKind::ScrollDown,
        stream.len() > 0,
        forall|i: int|
            0 <= i < stream.len() ==> (#[trigger] stream[i]).event == Event::Mouse(mouse),
        forall|i: int|
            0 < i < stream.len() ==> (#[trigger] stream[i]).at - stream[i - 1].at < 1_000_000,
        burst is None || burst->Some_0.mouse != mouse || stream[0].at - burst->Some_0.last
            >= 1_000_000,
    ensures
        retained_of(burst, stream).len() == (stream.len() + 7) / 8,
        forall|k: int|
            0 <= k < retained_of(burst, stream).len() ==> #[trigger] retained_of(burst, stream)[k]
                == Event::Mouse(mouse),
        after_stream(burst, stream) == Some(
            Burst {
                last: stream.last().at,
                mouse,
                count: ((stream.len() - 1) % 8 + 1) as nat,
            },
        ),
    decreases stream.len(),
{
    let rest = stream.drop_last();
    let n = rest.len();
    let last = stream.last();
    assert(stream[n as int] == last);
    if n == 0 {
        assert(after_stream(burst, rest) == burst);
        assert(retained_of(burst, rest) == Seq::<Event>::empty());
    } else {
        assert forall|i: int| 0 < i < rest.len() implies (#[trigger] rest[i]).at - rest[i - 1].at
            < 1_000_000 by {
            assert(stream[i].at - stream[i - 1].at < 1_000_000);
        }
        a_free_spin_is_bounded(burst, rest, mouse);
        assert(last.at - stream[n - 1].at < 1_000_000);
        lemma_one_more(n);
    }
}

proof fn lemma_one_more(n: nat)
    requires
        n > 0,
    ensures
        (n - 1) % 8 + 1 >= 8 ==> (n + 8) / 8 == (n + 7) / 8 + 1 && n % 8 == 0,
        (n - 1) % 8 + 1 < 8 ==> (n + 8) / 8 == (n + 7) / 8 && n % 8 == (n - 1) % 8 + 1,
{
}

/// An event that differs from the one before it is retained, and so is one that comes a
/// millisecond or more after it.
pub proof fn a_changed_or_a_paced_event_is_retained(
    burst: Option<Burst>,
    first: Event,
    then_at: int,
    second: Event,
    at: int,
)
    requires
        first != second || at - then_at >= 1_000_000,
    ensures
        normalized(after_event(burst, first, then_at), second, at) == Some(second),
{
}

/// An event is added to a batch as it is, but for a turn of the wheel up or down: it adds a
/// step to the last row where that is of the same mouse event, and else starts a row.
pub proof fn a_scroll_joins_only_an_equal_one(events: Seq<InputEvent>, mouse: MouseEvent)
    requires
        mouse.kind == MouseEventKind::ScrollUp || mouse.kind == MouseEventKind::ScrollDown,
        events.len() > 0 && events.last() is Scroll ==> events.last()->steps < usize::MAX,
    ensures
        events.len() > 0 && events.last() is Scroll && events.last()->mouse == mouse ==> {
            let after = pushed(events, Event::Mouse(mouse));
            &&& after.len() == events.len()
            &&& after.drop_last() == events.drop_last()
            &&& after.last() is Scroll
            &&& after.last()->mouse == mouse
            &&& after.last()->steps == events.last()->steps + 1
        },
        !(events.len() > 0 && events.last() is Scroll && events.last()->mouse == mouse) ==> pushed(
            events,
            Event::Mouse(mouse),
        ) == events.push(InputEvent::Scroll { mouse, steps: 1 }),
{
    let after = pushed(events, Event::Mouse(mouse));
    if events.len() > 0 && events.last() is Scroll && events.last()->mouse == mouse {
        assert(after.drop_last() == events.drop_last());
    }
}

/// A batch is the events that it was made of, in order, cut into rows: `ends[k]` is where the
/// row at `k` ends. A turn of the wheel up or down stands in a row of equal ones, with as many
/// steps as it has events, and the next row of scrolls is of another; any other event is a row
/// of its own, handed out as it is.
pub proof fn a_batch_is_its_events_in_rows(events: Seq<Event>) -> (ends: Seq<int>)
    requires
        events.len() <= usize::MAX,
    ensures
        ends.len() == coalesced(events).len(),
        events.len() == 0 <==> ends.len() == 0,
        ends.len() > 0 ==> ends.last() == events.len(),
        forall|k: int|
            #![trigger coalesced(events)[k]]
            0 <= k < ends.len() ==> {
                let start = if k == 0 {
                    0
                } else {
                    ends[k - 1]
                };
                &&& 0 <= start < ends[k] <= events.len()
                &&& coalesced(events)[k] is Terminal ==> {
                    let event = coalesced(events)[k]->Terminal_0;
                    &&& ends[k] == start + 1
                    &&& event == events[start]
                    &&& event is Mouse ==> event->Mouse_0.kind != MouseEventKind::ScrollUp
                        && event->Mouse_0.kind != MouseEventKind::ScrollDown
                }
                &&& coalesced(events)[k] is Scroll ==> {
                    let mouse = coalesced(events)[k]->mouse;
                    &&& coalesced(events)[k]->steps == ends[k] - start
                    &&& mouse.kind == MouseEventKind::ScrollUp || mouse.kind
                        == MouseEventKind::ScrollDown
                    &&& forall|i: int|
                        start <= i < ends[k] ==> #[trigger] events[i] == Event::Mouse(mouse)
                    &&& k > 0 && coalesced(events)[k - 1] is Scroll ==> coalesced(events)[k
                        - 1]->mouse != mouse
                }
            },
{
    let ends = lemma_rows(events);
    let batch = coalesced(events);
    assert forall|k: int|
        #![trigger coalesced(events)[k]]
        0 <= k < ends.len() implies {
        let start = if k == 0 {
            0
        } else {
            ends[k - 1]
        };
        &&& 0 <= start < ends[k] <= events.len()
        &&& coalesced(events)[k] is Terminal ==> {
            let event = coalesced(events)[k]->Terminal_0;
            &&& ends[k] == start + 1
            &&& event == events[start]
            &&& event is Mouse ==> event->Mouse_0.kind != MouseEventKind::ScrollUp
                && event->Mouse_0.kind != MouseEventKind::ScrollDown
        }
        &&& coalesced(events)[k] is Scroll ==> {
            let mouse = coalesced(events)[k]->mouse;
            &&& coalesced(events)[k]->steps == ends[k] - start
            &&& mouse.kind == MouseEventKind::ScrollUp || mouse.kind == MouseEventKind::ScrollDown
            &&& forall|i: int|
                start <= i < ends[k] ==> #[trigger] events[i] == Event::Mouse(mouse)
            &&& k > 0 && coalesced(events)[k - 1] is Scroll ==> coalesced(events)[k - 1]->mouse
                != mouse
        }
    } by {
        assert(is_row(events, batch, ends, k));
    }
    ends
}

/// Where the row at `k` starts.
spec fn row_start(ends: Seq<int>, k: int) -> int {
    if k == 0 {
        0
    } else {
        ends[k - 1]
    }
}

/// Whether the row at `k` is what stands there among the events.
spec fn is_row(events: Seq<Event>, batch: Seq<InputEvent>, ends: Seq<int>, k: int) -> bool {
    let start = row_start(ends, k);
    &&& 0 <= start < ends[k] <= events.len()
    &&& match batch[k] {
        InputEvent::Terminal(event) => {
            &&& ends[k] == start + 1
            &&& event == events[start]
            &&& !is_scroll_event(event)
        },
        InputEvent::Scroll { mouse, steps } => {
            &&& steps == ends[k] - start
            &&& scrolls(mouse.kind)
            &&& forall|i: int| start <= i < ends[k] ==> #[trigger] events[i] == Event::Mouse(mouse)
            &&& k > 0 && batch[k - 1] is Scroll ==> batch[k - 1]->mouse != mouse
        },
    }
}

proof fn lemma_rows(events: Seq<Event>) -> (ends: Seq<int>)
    requires
        events.len() <= usize::MAX,
    ensures
        ends.len() == coalesced(events).len(),
        events.len() == 0 <==> ends.len() == 0,
        ends.len() > 0 ==> ends.last() == events.len(),
        forall|k: int|
            0 <= k < ends.len() ==> #[trigger] is_row(events, coalesced(events), ends, k),
    decreases events.len(),
{
    if events.len() == 0 {
        Seq::empty()
    } else {
        let rest = events.drop_last();
        let event = events.last();
        let before = lemma_rows(rest);
        let batch = coalesced(rest);
        let after = coalesced(events);
        assert(after == pushed(batch, event));
        let n = events.len() as int;
        let last = batch.len() - 1;
        if batch.len() > 0 {
            assert(is_row(rest, batch, before, last));
        }
        let joins = is_scroll_event(event) && batch.len() > 0 && batch.last() is Scroll
            && event == Event::Mouse(batch.last()->mouse);
        let ends = if joins {
            before.drop_last().push(n)
        } else {
            before.push(n)
        };
        let end = ends.len() - 1;
        assert forall|k: int| 0 <= k < end implies #[trigger] is_row(events, after, ends, k) by {
            assert(is_row(rest, batch, before, k));
            assert(after[k] == batch[k]);
            assert(row_start(ends, k) == row_start(before, k));
            if batch[k] is Scroll {
                let mouse = batch[k]->mouse;
                assert forall|i: int| row_start(ends, k) <= i < ends[k] implies
                    #[trigger] events[i] == Event::Mouse(mouse) by {
                    assert(rest[i] == Event::Mouse(mouse));
                }
            }
        }
        assert(is_row(events, after, ends, end)) by {
            if joins {
                let mouse = batch.last()->mouse;
                assert(row_start(ends, end) == row_start(before, last));
                assert(after[end]->steps == batch.last()->steps + 1);
                assert forall|i: int| row_start(ends, end) <= i < n implies #[trigger] events[i]
                    == Event::Mouse(mouse) by {
                    if i < n - 1 {
                        assert(rest[i] == Event::Mouse(mouse));
                    }
                }
            } else {
                assert(row_start(ends, end) == n - 1);
                assert(events[n - 1] == event);
            }
        }
        ends
    }
}

/// A poll takes in events in order up to the 512th, with which it ends; it ends with what it
/// has where nothing is there, and fails with an error that it is handed or where the queue is
/// closed.
pub proof fn a_poll_ends_with_nothing_an_error_or_the_512th_event(
    gathered: Seq<Event>,
    event: Event,
    error: String,
)
    ensures
        gathered.len() < 511 ==> poll_step(
            gathered,
            Received::Message(InputMessage::Event(event)),
        ) == Poll::Gathering(gathered.push(event)),
        gathered.len() >= 511 ==> poll_step(
            gathered,
            Received::Message(InputMessage::Event(event)),
        ) == Poll::Finished(gathered.push(event)),
        poll_step(gathered, Received::Message(InputMessage::Error(error))) == Poll::Failed(
            InputError::Failed(error),
        ),
        poll_step(gathered, Received::Nothing) == Poll::Finished(gathered),
        poll_step(gathered, Received::Disconnected) == Poll::Failed(InputError::Stopped),
{
}

/// A step hands out the batch of what the poll gathered, the error that it met, or a reader
/// that holds what it gathered.
pub proof fn a_step_hands_out_what_the_poll_came_to(step: PollStep, poll: Poll)
    requires
        step.comes_to(poll),
    ensures
        step is Receive <==> poll is Gathering,
        step is Finish <==> poll is Finished,
        step is Fail <==> poll is Failed,
        poll is Gathering ==> step->Receive_0@ == poll->Gathering_0,
        poll is Finished ==> step->Finish_0@.events == coalesced(poll->Finished_0),
        poll is Finished ==> step->Finish_0@.retained_count == poll->Finished_0.len(),
        poll is Finished ==> step->Finish_0@.raw_count == 0,
        poll is Failed ==> step->Fail_0 == poll->Failed_0,
{
}

/// A read error ends the reading with that error, leaves the burst as it was and is no raw
/// event; any read of an event is one, retained or not.
pub proof fn a_read_error_stops_the_reader(
    burst: Option<Burst>,
    event: Event,
    error: String,
    at: int,
)
    ensures
        read_step(burst, Err(error), at) == ReadStep::Stop(InputMessage::Error(error)),
        read_step(burst, Err(error), at).counted() == 0,
        read_step(burst, Ok(event), at) !is Stop,
        read_step(burst, Ok(event), at).counted() == 1,
        after_read(burst, Ok(event), at) == after_event(burst, event, at),
        after_read(burst, Err(error), at) == burst,
{
}

/// The texts of the errors.
pub proof fn the_texts_of_errors(error: String)
    ensures
        InputError::Failed(error).text() == "Terminal input failed: "@ + error@,
        InputError::Stopped.text() == "Terminal input reader stopped unexpectedly"@,
{
}

} // verus!
