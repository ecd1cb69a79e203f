//! A session: the reader of the terminal, the queue and the polls, in any interleaving.

use crate::event::{
    after_read, coalesced, expanded, poll_step, queued_as, raw_left, raw_reported, read_step,
    BatchModel, Enqueue, InputError, InputMessage, Poll, ReadStep, Received,
    MAX_BUFFERED_EVENTS, MAX_EVENTS_PER_BATCH,
};
use crate::laws::{
    a_batch_stands_for_its_events, after_stream, events_of, other_events, retained_of,
    retention_keeps_at_most_all, Arrival,
};
use crate::scroll::{is_scroll_event, normalized, Burst};
use crate::terminal::Event;
use vstd::prelude::*;

verus! {

/// What has happened in a session.
pub struct Session {
    /// The burst of the reader.
    pub burst: Option<Burst>,
    /// The events that the reader has read.
    pub read: Seq<Event>,
    /// The error that a read gave, if one did.
    pub failed: Option<String>,
    /// The message that the reader is putting into the queue.
    pub outgoing: Option<Enqueue>,
    /// All messages that were put into the queue.
    pub sent: Seq<InputMessage>,
    /// How many of them were taken from the queue.
    pub taken: nat,
    /// The counter of raw events.
    pub counter: nat,
    /// What the current poll has gathered.
    pub gathered: Seq<Event>,
    /// What the current poll is about to hand out.
    pub finishing: Option<Seq<Event>>,
    /// The batches that were handed out.
    pub batches: Seq<BatchModel>,
    /// The errors that were handed out.
    pub failures: Seq<InputError>,
}

/// One step of a session.
pub enum Action {
    /// The reader reads the terminal.
    Read(Result<Event, String>, int),
    /// The reader tries to put its message into the queue.
    Send,
    /// The current poll takes from the queue.
    Receive,
    /// The current poll takes the counter and hands out its batch.
    HandOut,
}

/// The session at its start.
pub open spec fn started() -> Session {
    Session {
        burst: None,
        read: Seq::empty(),
        failed: None,
        outgoing: None,
        sent: Seq::empty(),
        taken: 0,
        counter: 0,
        gathered: Seq::empty(),
        finishing: None,
        batches: Seq::empty(),
        failures: Seq::empty(),
    }
}

/// The events among messages, in order.
pub open spec fn events_in(messages: Seq<InputMessage>) -> Seq<Event> {
    messages.filter_map(|m: InputMessage| event_in(m))
}

/// The event of a message.
pub open spec fn event_in(message: InputMessage) -> Option<Event> {
    match message {
        InputMessage::Event(event) => Some(event),
        InputMessage::Error(_) => None,
    }
}

/// The message of a step of the reader; the last one waits for room.
pub open spec fn outgoing_of(step: ReadStep) -> Option<Enqueue> {
    match step {
        ReadStep::Skip => None,
        ReadStep::Enqueue(enqueue) => Some(enqueue),
        ReadStep::Stop(message) => Some(Enqueue::Wait(message)),
    }
}

impl Session {
    /// What is in the queue.
    pub open spec fn queue(self) -> Seq<InputMessage> {
        self.sent.skip(self.taken as int)
    }

    /// The events that were received.
    pub open spec fn received(self) -> Seq<Event> {
        events_in(self.sent.take(self.taken as int))
    }

    /// Whether there is room in the queue.
    pub open spec fn has_room(self) -> bool {
        self.queue().len() < MAX_BUFFERED_EVENTS
    }

    /// Whether the reader has ended: nothing will be put into the queue any more.
    pub open spec fn ended(self) -> bool {
        self.failed is Some && self.outgoing is None
    }

    /// What taking from the queue comes to.
    pub open spec fn next_received(self) -> Received {
        if self.queue().len() > 0 {
            Received::Message(self.sent[self.taken as int])
        } else if self.ended() {
            Received::Disconnected
        } else {
            Received::Nothing
        }
    }

    /// The session after a step. A step that cannot be made changes nothing: the reader puts
    /// its message into the queue before it reads again, reads nothing after an error, and
    /// waits for room where it must.
    pub open spec fn after(self, action: Action) -> Session {
        match action {
            Action::Read(read, at) => if self.failed is None && self.outgoing is None {
                let step = read_step(self.burst, read, at);
                Session {
                    burst: after_read(self.burst, read, at),
                    read: match read {
                        Ok(event) => self.read.push(event),
                        Err(_) => self.read,
                    },
                    failed: match read {
                        Ok(_) => None,
                        Err(error) => Some(error),
                    },
                    outgoing: outgoing_of(step),
                    counter: self.counter + step.counted(),
                    ..self
                }
            } else {
                self
            },
            Action::Send => match self.outgoing {
                Some(Enqueue::Try(message)) => Session {
                    outgoing: None,
                    sent: if self.has_room() {
                        self.sent.push(message)
                    } else {
                        self.sent
                    },
                    ..self
                },
                Some(Enqueue::Wait(message)) => if self.has_room() {
                    Session { outgoing: None, sent: self.sent.push(message), ..self }
                } else {
                    self
                },
                None => self,
            },
            Action::Receive => if self.finishing is None {
                let poll = poll_step(self.gathered, self.next_received());
                Session {
                    taken: if self.queue().len() > 0 {
                        self.taken + 1
                    } else {
                        self.taken
                    },
                    gathered: match poll {
                        Poll::Gathering(gathered) => gathered,
                        _ => Seq::empty(),
                    },
                    finishing: match poll {
                        Poll::Finished(gathered) => Some(gathered),
                        _ => None,
                    },
                    failures: match poll {
                        Poll::Failed(error) => self.failures.push(error),
                        _ => self.failures,
                    },
                    ..self
                }
            } else {
                self
            },
            Action::HandOut => match self.finishing {
                Some(gathered) => Session {
                    finishing: None,
                    counter: raw_left(self.counter, Poll::Finished(gathered)),
                    batches: self.batches.push(
                        BatchModel {
                            events: coalesced(gathered),
                            raw_count: raw_reported(self.counter, Poll::Finished(gathered)),
                            retained_count: gathered.len(),
                        },
                    ),
                    ..self
                },
                None => self,
            },
        }
    }

    /// The events on their way: put into the queue, or about to be.
    pub open spec fn passed_on(self) -> Seq<Event> {
        match self.outgoing {
            Some(Enqueue::Try(message)) | Some(Enqueue::Wait(message)) => events_in(
                self.sent.push(message),
            ),
            None => events_in(self.sent),
        }
    }

    /// What the current poll holds.
    pub open spec fn held(self) -> Seq<Event> {
        match self.finishing {
            Some(gathered) => gathered,
            None => self.gathered,
        }
    }
}

/// A session after some steps.
pub open spec fn run(actions: Seq<Action>) -> Session
    decreases actions.len(),
{
    if actions.len() == 0 {
        started()
    } else {
        run(actions.drop_last()).after(actions.last())
    }
}

/// How many raw events batches report.
pub open spec fn total_raw(batches: Seq<BatchModel>) -> nat
    decreases batches.len(),
{
    if batches.len() == 0 {
        0
    } else {
        total_raw(batches.drop_last()) + batches.last().raw_count
    }
}

/// How many events batches retain.
pub open spec fn total_retained(batches: Seq<BatchModel>) -> nat
    decreases batches.len(),
{
    if batches.len() == 0 {
        0
    } else {
        total_retained(batches.drop_last()) + batches.last().retained_count
    }
}

/// The events that batches stand for, in order.
pub open spec fn handed_out(batches: Seq<BatchModel>) -> Seq<Event>
    decreases batches.len(),
{
    if batches.len() == 0 {
        Seq::empty()
    } else {
        handed_out(batches.drop_last()) + expanded(batches.last().events)
    }
}

/// Whether `part[m]` is `whole[places[m]]`, at places that go up.
pub open spec fn stands_at<A>(part: Seq<A>, whole: Seq<A>, places: Seq<int>) -> bool {
    &&& places.len() == part.len()
    &&& forall|m: int|
        0 <= m < places.len() ==> 0 <= #[trigger] places[m] < whole.len() && part[m]
            == whole[places[m]]
    &&& forall|m: int, l: int|
        0 <= m < l < places.len() ==> #[trigger] places[m] < #[trigger] places[l]
}

/// Whether `part` is `whole` with some elements left out.
pub open spec fn is_subsequence<A>(part: Seq<A>, whole: Seq<A>) -> bool {
    exists|places: Seq<int>| stands_at(part, whole, places)
}

impl Session {
    /// Every event that was read is counted once, in a batch or still in the counter.
    pub open spec fn counts_agree(self) -> bool {
        &&& total_raw(self.batches) + self.counter == self.read.len()
        &&& total_retained(self.batches) <= total_raw(self.batches)
    }

    /// The error of a read, where there is one, is the last message, and waits for room.
    pub open spec fn error_goes_last(self) -> bool {
        match self.failed {
            None => {
                &&& all_events(self.sent)
                &&& self.outgoing matches Some(enqueue) ==> exists|event: Event|
                    enqueue == queued_as(event)
            },
            Some(error) => match self.outgoing {
                Some(enqueue) => {
                    &&& enqueue == Enqueue::Wait(InputMessage::Error(error))
                    &&& all_events(self.sent)
                },
                None => {
                    &&& self.sent.len() > 0
                    &&& self.sent.last() == InputMessage::Error(error)
                    &&& all_events(self.sent.drop_last())
                },
            },
        }
    }

    /// What is on its way is what was read, but for scroll events.
    pub open spec fn only_scrolls_are_missing(self) -> bool {
        &&& is_subsequence(self.passed_on(), self.read)
        &&& other_events(self.passed_on()) == other_events(self.read)
    }

    /// The batches and the current poll hold what was received, until a poll fails.
    pub open spec fn polls_agree(self) -> bool {
        let held = handed_out(self.batches) + self.held();
        &&& self.taken <= self.sent.len()
        &&& self.queue().len() <= MAX_BUFFERED_EVENTS
        &&& self.gathered.len() < MAX_EVENTS_PER_BATCH
        &&& self.finishing matches Some(gathered) ==> gathered.len() <= MAX_EVENTS_PER_BATCH
            && self.gathered.len() == 0
        &&& total_retained(self.batches) == handed_out(self.batches).len()
        &&& held.len() <= self.received().len()
        &&& held == self.received().take(held.len() as int)
        &&& self.failures.len() == 0 ==> held == self.received()
    }

    /// Once a poll has met the error, the queue is empty for good, and every later poll fails.
    pub open spec fn failures_follow_the_error(self) -> bool {
        if self.failures.len() == 0 {
            self.ended() ==> self.taken < self.sent.len()
        } else {
            &&& self.ended()
            &&& self.taken == self.sent.len()
            &&& self.finishing is None
            &&& self.gathered.len() == 0
            &&& self.failures[0] == InputError::Failed(self.failed->Some_0)
            &&& forall|i: int|
                0 < i < self.failures.len() ==> #[trigger] self.failures[i] == InputError::Stopped
        }
    }

    /// What holds of a session at any time.
    pub open spec fn holds(self) -> bool {
        &&& self.counts_agree()
        &&& self.error_goes_last()
        &&& self.only_scrolls_are_missing()
        &&& self.polls_agree()
        &&& self.failures_follow_the_error()
    }
}

/// Whether no message is an error.
pub open spec fn all_events(messages: Seq<InputMessage>) -> bool {
    forall|i: int| 0 <= i < messages.len() ==> (#[trigger] messages[i]) is Event
}

proof fn lemma_events_push(messages: Seq<InputMessage>, message: InputMessage)
    ensures
        events_in(messages.push(message)) == match event_in(message) {
            Some(event) => events_in(messages).push(event),
            None => events_in(messages),
        },
{
    assert(messages.push(message).drop_last() == messages);
    reveal(Seq::filter_map);
}

proof fn lemma_events_split(messages: Seq<InputMessage>, n: int)
    requires
        0 <= n <= messages.len(),
    ensures
        events_in(messages) == events_in(messages.take(n)) + events_in(messages.skip(n)),
    decreases messages.len(),
{
    if n == messages.len() {
        assert(messages.take(n) == messages);
        assert(messages.skip(n) == Seq::<InputMessage>::empty());
        reveal(Seq::filter_map);
        assert(events_in(messages.skip(n)) == Seq::<Event>::empty());
    } else {
        let rest = messages.drop_last();
        let last = messages.last();
        lemma_events_split(rest, n);
        assert(rest.take(n) == messages.take(n));
        assert(messages.skip(n) == rest.skip(n).push(last));
        assert(messages == rest.push(last));
        lemma_events_push(rest, last);
        lemma_events_push(rest.skip(n), last);
    }
}

proof fn lemma_others_push(events: Seq<Event>, event: Event)
    ensures
        other_events(events.push(event)) == if is_scroll_event(event) {
            other_events(events)
        } else {
            other_events(events).push(event)
        },
{
    assert(events.push(event).drop_last() == events);
    reveal(Seq::filter);
}

/// A sequence with some elements left out is still one with those left out when both get an
/// element more, or only the whole does.
proof fn lemma_subsequence_push<A>(part: Seq<A>, whole: Seq<A>, x: A)
    requires
        is_subsequence(part, whole),
    ensures
        is_subsequence(part.push(x), whole.push(x)),
        is_subsequence(part, whole.push(x)),
{
    let places = choose|places: Seq<int>| stands_at(part, whole, places);
    assert(stands_at(part, whole.push(x), places));
    assert(stands_at(part.push(x), whole.push(x), places.push(whole.len() as int)));
}

proof fn lemma_subsequence_shorter<A>(part: Seq<A>, whole: Seq<A>, n: int)
    requires
        is_subsequence(part, whole),
        0 <= n <= part.len(),
    ensures
        is_subsequence(part.take(n), whole),
        part.len() <= whole.len(),
{
    let places = choose|places: Seq<int>| stands_at(part, whole, places);
    assert(stands_at(part.take(n), whole, places.take(n)));
    lemma_places_go_up(places, whole.len() as int, part.len() as int);
}

proof fn lemma_places_go_up(places: Seq<int>, bound: int, n: int)
    requires
        0 <= n <= places.len(),
        bound >= 0,
        forall|m: int| 0 <= m < places.len() ==> 0 <= #[trigger] places[m] < bound,
        forall|m: int, l: int|
            0 <= m < l < places.len() ==> #[trigger] places[m] < #[trigger] places[l],
    ensures
        n > 0 ==> places[n - 1] >= n - 1,
        n <= bound,
    decreases n,
{
    if n > 0 {
        lemma_places_go_up(places, bound, n - 1);
        if n > 1 {
            assert(places[n - 2] < places[n - 1]);
        }
        assert(0 <= places[n - 1] < bound);
    }
}

proof fn lemma_read_keeps(s: Session, read: Result<Event, String>, at: int)
    requires
        s.holds(),
    ensures
        s.after(Action::Read(read, at)).holds(),
{
    let t = s.after(Action::Read(read, at));
    if s.failed is None && s.outgoing is None {
        match read {
            Ok(event) => {
                lemma_others_push(s.read, event);
                lemma_subsequence_push(s.passed_on(), s.read, event);
                lemma_others_push(s.passed_on(), event);
                lemma_events_push(s.sent, InputMessage::Event(event));
                match normalized(s.burst, event, at) {
                    Some(kept) => {
                        assert(kept == event);
                        assert(t.outgoing == Some(queued_as(event)));
                    },
                    None => {
                        assert(is_scroll_event(event));
                    },
                }
            },
            Err(error) => {
                lemma_events_push(s.sent, InputMessage::Error(error));
            },
        }
    }
}

proof fn lemma_send_keeps(s: Session)
    requires
        s.holds(),
    ensures
        s.after(Action::Send).holds(),
{
    let t = s.after(Action::Send);
    match s.outgoing {
        Some(Enqueue::Try(message)) => {
            lemma_events_push(s.sent, message);
            let event = message->Event_0;
            assert(s.failed is None);
            assert(message == InputMessage::Event(event) && is_scroll_event(event));
            if s.has_room() {
                assert(t.sent.take(t.taken as int) == s.sent.take(s.taken as int));
            } else {
                lemma_subsequence_shorter(
                    s.passed_on(),
                    s.read,
                    events_in(s.sent).len() as int,
                );
                assert(s.passed_on().take(events_in(s.sent).len() as int) == events_in(s.sent));
                lemma_others_push(events_in(s.sent), event);
            }
        },
        Some(Enqueue::Wait(message)) => {
            if s.has_room() {
                assert(t.sent.take(t.taken as int) == s.sent.take(s.taken as int));
                assert(t.sent.drop_last() == s.sent);
                if s.failed is None {
                    let event = choose|event: Event| Enqueue::Wait(message) == queued_as(event);
                    assert(message == InputMessage::Event(event));
                }
            }
        },
        None => {},
    }
}

proof fn lemma_receive_keeps(s: Session)
    requires
        s.holds(),
    ensures
        s.after(Action::Receive).holds(),
{
    let t = s.after(Action::Receive);
    if s.finishing is None {
        if s.queue().len() > 0 {
            let message = s.sent[s.taken as int];
            assert(s.failures.len() == 0);
            assert(t.sent.take(t.taken as int) == s.sent.take(s.taken as int).push(message));
            lemma_events_push(s.sent.take(s.taken as int), message);
            match message {
                InputMessage::Event(event) => {
                    assert(handed_out(s.batches) + s.gathered.push(event) == (handed_out(
                        s.batches,
                    ) + s.gathered).push(event));
                    assert(t.received() == s.received().push(event));
                    assert(t.received().take(t.received().len() as int) == t.received());
                },
                InputMessage::Error(error) => {
                    assert(s.ended());
                    assert(s.taken == s.sent.len() - 1) by {
                        if s.taken < s.sent.len() - 1 {
                            assert(s.sent.drop_last()[s.taken as int] is Event);
                        }
                    }
                    assert(t.received() == s.received());
                    lemma_prefix_kept(handed_out(s.batches), s.held(), s.received());
                    assert(handed_out(t.batches) + t.held() == handed_out(s.batches));
                },
            }
        } else if s.ended() {
            assert(s.failures.len() > 0);
            lemma_prefix_kept(handed_out(s.batches), s.held(), s.received());
            assert(handed_out(t.batches) + t.held() == handed_out(s.batches));
        }
    }
}

proof fn lemma_prefix_kept(first: Seq<Event>, second: Seq<Event>, whole: Seq<Event>)
    requires
        (first + second).len() <= whole.len(),
        first + second == whole.take((first + second).len() as int),
    ensures
        first == whole.take(first.len() as int),
{
    assert forall|i: int| 0 <= i < first.len() implies first[i] == whole[i] by {
        let both = first + second;
        assert(both[i] == first[i]);
        assert(both[i] == whole.take(both.len() as int)[i]);
    }
}

proof fn lemma_hand_out_keeps(s: Session)
    requires
        s.holds(),
    ensures
        s.after(Action::HandOut).holds(),
{
    let t = s.after(Action::HandOut);
    match s.finishing {
        Some(gathered) => {
            let batch = t.batches.last();
            assert(t.batches.drop_last() == s.batches);
            a_batch_stands_for_its_events(gathered);
            assert(handed_out(t.batches) == handed_out(s.batches) + gathered);
            assert(handed_out(t.batches) + t.held() == handed_out(s.batches) + s.held());
            lemma_events_split(s.sent, s.taken as int);
            lemma_received_within_read(s);
        },
        None => {},
    }
}

/// No more events are received than are read.
proof fn lemma_received_within_read(s: Session)
    requires
        s.only_scrolls_are_missing(),
        s.taken <= s.sent.len(),
    ensures
        s.received().len() <= s.read.len(),
{
    lemma_events_split(s.sent, s.taken as int);
    match s.outgoing {
        Some(Enqueue::Try(message)) | Some(Enqueue::Wait(message)) => {
            lemma_events_push(s.sent, message);
        },
        None => {},
    }
    lemma_subsequence_shorter(s.passed_on(), s.read, 0);
}

/// What holds of a session holds at its start and after every step.
proof fn lemma_run_holds(actions: Seq<Action>)
    ensures
        run(actions).holds(),
    decreases actions.len(),
{
    if actions.len() == 0 {
        let s = started();
        assert(s.received() == Seq::<Event>::empty()) by {
            reveal(Seq::filter_map);
            assert(s.sent.take(0) == Seq::<InputMessage>::empty());
        }
        assert(s.passed_on() == Seq::<Event>::empty()) by {
            reveal(Seq::filter_map);
        }
        assert(stands_at(s.passed_on(), s.read, Seq::empty()));
        assert(handed_out(s.batches) + s.held() == s.received());
        assert(s.received().take(0) == s.received());
    } else {
        let s = run(actions.drop_last());
        lemma_run_holds(actions.drop_last());
        match actions.last() {
            Action::Read(read, at) => lemma_read_keeps(s, read, at),
            Action::Send => lemma_send_keeps(s),
            Action::Receive => lemma_receive_keeps(s),
            Action::HandOut => lemma_hand_out_keeps(s),
        }
    }
}

/// Every event that was read is reported as a raw event once, in a batch, or is still in the
/// counter; an error is not.
pub proof fn each_raw_event_is_reported_once(actions: Seq<Action>)
    ensures
        total_raw(run(actions).batches) + run(actions).counter == run(actions).read.len(),
{
    lemma_run_holds(actions);
}

/// A batch reports the counter and leaves 0. To take from the queue leaves the counter as it
/// was, also where the poll then fails.
pub proof fn a_batch_takes_the_counter_and_a_failure_leaves_it(s: Session)
    ensures
        s.finishing is Some ==> s.after(Action::HandOut).counter == 0 && s.after(
            Action::HandOut,
        ).batches.last().raw_count == s.counter,
        s.after(Action::Receive).counter == s.counter,
        s.after(Action::Receive).batches == s.batches,
{
}

/// What a poll reports of the counter and what it leaves in it make up the counter.
pub proof fn what_is_reported_is_not_left(counter: nat, poll: Poll)
    ensures
        poll !is Gathering ==> raw_reported(counter, poll) + raw_left(counter, poll) == counter,
        poll is Finished ==> raw_reported(counter, poll) == counter && raw_left(counter, poll)
            == 0,
        poll is Failed ==> raw_reported(counter, poll) == 0 && raw_left(counter, poll) == counter,
{
}

/// All batches together report at least as many raw events as they retain.
pub proof fn no_more_is_retained_than_was_counted(actions: Seq<Action>)
    ensures
        total_retained(run(actions).batches) <= total_raw(run(actions).batches),
{
    lemma_run_holds(actions);
}

/// The error of a read is the only error that is put into the queue and the last message. It
/// waits for room and is never dropped.
pub proof fn a_read_error_is_the_last_message(actions: Seq<Action>)
    ensures
        ({
            let s = run(actions);
            &&& forall|i: int|
                0 <= i < s.sent.len() && (#[trigger] s.sent[i]) is Error ==> s.ended() && i
                    == s.sent.len() - 1 && s.sent[i] == InputMessage::Error(s.failed->Some_0)
            &&& s.ended() ==> s.sent.len() > 0 && s.sent.last() == InputMessage::Error(
                s.failed->Some_0,
            )
            &&& s.failed is Some && s.outgoing is Some ==> {
                let sent = s.after(Action::Send);
                &&& s.has_room() ==> sent.ended() && sent.sent == s.sent.push(
                    InputMessage::Error(s.failed->Some_0),
                )
                &&& !s.has_room() ==> sent == s
            }
        }),
{
    lemma_run_holds(actions);
    let s = run(actions);
    assert forall|i: int| 0 <= i < s.sent.len() && (#[trigger] s.sent[i]) is Error implies s.ended()
        && i == s.sent.len() - 1 && s.sent[i] == InputMessage::Error(s.failed->Some_0) by {
        if s.ended() && i < s.sent.len() - 1 {
            assert(s.sent.drop_last()[i] is Event);
        }
    }
}

/// After an error nothing more is read or counted, and once the error is in the queue nothing
/// more is put into it.
pub proof fn nothing_is_read_after_an_error(actions: Seq<Action>, more: Seq<Action>)
    requires
        run(actions).failed is Some,
    ensures
        run(actions + more).read == run(actions).read,
        run(actions + more).failed == run(actions).failed,
        run(actions).ended() ==> run(actions + more).sent == run(actions).sent,
        run(actions).ended() ==> run(actions + more).ended(),
    decreases more.len(),
{
    if more.len() == 0 {
        assert(actions + more == actions);
    } else {
        assert((actions + more).drop_last() == actions + more.drop_last());
        assert((actions + more).last() == more.last());
        nothing_is_read_after_an_error(actions, more.drop_last());
    }
}

/// The first poll that fails is the one that reaches the error, and it fails with it. Every
/// later poll fails, and no batch is handed out any more.
pub proof fn polls_fail_from_the_error_on(actions: Seq<Action>)
    ensures
        ({
            let s = run(actions);
            let next = s.after(Action::Receive);
            &&& s.finishing is None && s.queue().len() > 0 && s.sent[s.taken as int] is Error
                ==> next.failures == seq![InputError::Failed(s.failed->Some_0)]
            &&& s.failures.len() > 0 ==> {
                &&& s.ended()
                &&& s.failures[0] == InputError::Failed(s.failed->Some_0)
                &&& forall|i: int|
                    0 < i < s.failures.len() ==> #[trigger] s.failures[i] == InputError::Stopped
                &&& next.failures == s.failures.push(InputError::Stopped)
                &&& s.after(Action::HandOut).batches == s.batches
            }
        }),
{
    lemma_run_holds(actions);
    a_read_error_is_the_last_message(actions);
    let s = run(actions);
    if s.finishing is None && s.queue().len() > 0 && s.sent[s.taken as int] is Error {
        assert(s.after(Action::Receive).failures == s.failures.push(
            InputError::Failed(s.failed->Some_0),
        ));
        assert(s.failures.len() == 0);
        assert(s.failures.push(InputError::Failed(s.failed->Some_0)) == seq![
            InputError::Failed(s.failed->Some_0),
        ]);
    }
}

/// What is received is what was read, in order, with some scroll events left out and nothing
/// else: once nothing is on its way, all events but scroll events have been received.
pub proof fn only_scroll_events_are_lost_on_the_way(actions: Seq<Action>)
    ensures
        is_subsequence(run(actions).received(), run(actions).read),
        is_subsequence(run(actions).passed_on(), run(actions).read),
        other_events(run(actions).passed_on()) == other_events(run(actions).read),
        run(actions).outgoing is None && run(actions).queue().len() == 0 ==> other_events(
            run(actions).received(),
        ) == other_events(run(actions).read),
{
    lemma_run_holds(actions);
    let s = run(actions);
    lemma_events_split(s.sent, s.taken as int);
    match s.outgoing {
        Some(Enqueue::Try(message)) | Some(Enqueue::Wait(message)) => {
            lemma_events_push(s.sent, message);
        },
        None => {},
    }
    let n = s.received().len() as int;
    lemma_subsequence_shorter(s.passed_on(), s.read, n);
    assert(s.passed_on().take(n) == s.received());
    if s.queue().len() == 0 {
        assert(s.sent.take(s.taken as int) == s.sent);
    }
}

/// The batches stand for what was received, in order: all of it but for what the current poll
/// holds, as long as no poll has failed.
pub proof fn batches_hold_what_was_received(actions: Seq<Action>)
    ensures
        run(actions).failures.len() == 0 ==> handed_out(run(actions).batches) + run(
            actions,
        ).held() == run(actions).received(),
        handed_out(run(actions).batches).len() <= run(actions).received().len(),
        handed_out(run(actions).batches) == run(actions).received().take(
            handed_out(run(actions).batches).len() as int,
        ),
        total_retained(run(actions).batches) == handed_out(run(actions).batches).len(),
{
    lemma_run_holds(actions);
    let s = run(actions);
    lemma_prefix_kept(handed_out(s.batches), s.held(), s.received());
}

/// The queue never holds more than it has room for.
pub proof fn the_queue_is_bounded(actions: Seq<Action>)
    ensures
        run(actions).queue().len() <= MAX_BUFFERED_EVENTS,
{
    lemma_run_holds(actions);
}

/// The events that were read in a session, and when.
pub open spec fn arrivals(actions: Seq<Action>) -> Seq<Arrival>
    decreases actions.len(),
{
    if actions.len() == 0 {
        Seq::empty()
    } else {
        let before = run(actions.drop_last());
        let earlier = arrivals(actions.drop_last());
        match actions.last() {
            Action::Read(Ok(event), at) if before.failed is None && before.outgoing is None =>
                earlier.push(Arrival { event, at }),
            _ => earlier,
        }
    }
}

/// How many messages were dropped in a session because there was no room for them.
pub open spec fn dropped(actions: Seq<Action>) -> nat
    decreases actions.len(),
{
    if actions.len() == 0 {
        0
    } else {
        let before = run(actions.drop_last());
        let earlier = dropped(actions.drop_last());
        match (actions.last(), before.outgoing) {
            (Action::Send, Some(Enqueue::Try(_))) if !before.has_room() => earlier + 1,
            _ => earlier,
        }
    }
}

/// What is on its way is what is retained of the events that were read, less one event for
/// each that was dropped for want of room: nothing is lost in any other way.
pub proof fn events_are_lost_only_to_notches_and_for_want_of_room(actions: Seq<Action>)
    ensures
        events_of(arrivals(actions)) == run(actions).read,
        run(actions).burst == after_stream(None, arrivals(actions)),
        is_subsequence(run(actions).passed_on(), retained_of(None, arrivals(actions))),
        run(actions).passed_on().len() + dropped(actions) == retained_of(
            None,
            arrivals(actions),
        ).len(),
        dropped(actions) == 0 ==> run(actions).passed_on() == retained_of(
            None,
            arrivals(actions),
        ),
    decreases actions.len(),
{
    reveal(Seq::filter_map);
    if actions.len() == 0 {
        let s = started();
        assert(s.passed_on() == Seq::<Event>::empty());
        assert(stands_at(s.passed_on(), retained_of(None, arrivals(actions)), Seq::empty()));
        assert(events_of(arrivals(actions)) == s.read);
    } else {
        let rest = actions.drop_last();
        events_are_lost_only_to_notches_and_for_want_of_room(rest);
        lemma_run_holds(rest);
        let s = run(rest);
        let t = run(actions);
        let kept = retained_of(None, arrivals(rest));
        match actions.last() {
            Action::Read(read, at) => if s.failed is None && s.outgoing is None {
                match read {
                    Ok(event) => {
                        let arrival = Arrival { event, at };
                        let stream = arrivals(rest).push(arrival);
                        assert(stream.drop_last() == arrivals(rest));
                        assert(events_of(stream) == events_of(arrivals(rest)).push(event));
                        lemma_subsequence_push(s.passed_on(), kept, event);
                        lemma_events_push(s.sent, InputMessage::Event(event));
                    },
                    Err(error) => {
                        lemma_events_push(s.sent, InputMessage::Error(error));
                    },
                }
            },
            Action::Send => match s.outgoing {
                Some(Enqueue::Try(message)) => {
                    lemma_events_push(s.sent, message);
                    if !s.has_room() {
                        let n = events_in(s.sent).len() as int;
                        lemma_subsequence_shorter(s.passed_on(), kept, n);
                        assert(s.passed_on().take(n) == events_in(s.sent));
                    }
                },
                _ => {},
            },
            _ => {},
        }
    }
}

/// The steps of a reader that reads a stream and puts what it retains into the queue.
pub open spec fn reading(stream: Seq<Arrival>) -> Seq<Action>
    decreases stream.len(),
{
    if stream.len() == 0 {
        Seq::empty()
    } else {
        reading(stream.drop_last()).push(
            Action::Read(Ok(stream.last().event), stream.last().at),
        ).push(Action::Send)
    }
}

/// Messages that hold events.
pub open spec fn messages_of(events: Seq<Event>) -> Seq<InputMessage> {
    events.map_values(|e: Event| InputMessage::Event(e))
}

/// Of a stream that the queue has room for, the queue holds exactly what is retained, and the
/// counter counts every event.
pub proof fn a_queue_with_room_holds_all_that_is_retained(stream: Seq<Arrival>)
    requires
        stream.len() <= MAX_BUFFERED_EVENTS,
    ensures
        run(reading(stream)).counter == stream.len(),
        run(reading(stream)).queue() == messages_of(retained_of(None, stream)),
        run(reading(stream)).outgoing is None,
        run(reading(stream)).failed is None,
{
    lemma_reading(stream);
}

proof fn lemma_reading(stream: Seq<Arrival>)
    requires
        stream.len() <= MAX_BUFFERED_EVENTS,
    ensures
        ({
            let s = run(reading(stream));
            &&& s.counter == stream.len()
            &&& s.taken == 0
            &&& s.queue() == s.sent
            &&& s.sent == messages_of(retained_of(None, stream))
            &&& s.burst == after_stream(None, stream)
            &&& s.outgoing is None
            &&& s.failed is None
        }),
    decreases stream.len(),
{
    let s = run(reading(stream));
    if stream.len() == 0 {
        assert(s.sent == messages_of(retained_of(None, stream)));
    } else {
        let rest = stream.drop_last();
        let last = stream.last();
        lemma_reading(rest);
        let before = run(reading(rest));
        let read = reading(rest).push(Action::Read(Ok(last.event), last.at));
        assert(read.drop_last() == reading(rest));
        assert(reading(stream) == read.push(Action::Send));
        assert(reading(stream).drop_last() == read);
        let middle = run(read);
        assert(middle == before.after(Action::Read(Ok(last.event), last.at)));
        assert(s == middle.after(Action::Send));
        retention_keeps_at_most_all(None, rest);
        assert(middle.queue() == before.sent);
        assert(middle.has_room());
        let kept = retained_of(None, rest);
        assert(messages_of(kept.push(last.event)) == messages_of(kept).push(
            InputMessage::Event(last.event),
        ));
        assert(s.queue() == s.sent);
    }
}

} // verus!
