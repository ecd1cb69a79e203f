//! Event loop and input handling

use crate::scroll::{
    after_event, is_scroll, is_scroll_event, normalize_terminal_event, normalized,
    Burst, ScrollNormalizer,
};
use crate::terminal::{Event, MouseEvent};
use vstd::prelude::*;

verus! {

/// How long to wait for the first message of a batch.
pub const EVENT_POLL_TIMEOUT_MILLIS: u64 = 100;

/// How many messages one batch takes.
pub const MAX_EVENTS_PER_BATCH: usize = 512;

/// How many messages the queue holds.
pub const MAX_BUFFERED_EVENTS: usize = MAX_EVENTS_PER_BATCH * 2;

/// An event of a batch.
#[derive(Debug)]
pub enum InputEvent {
    Terminal(Event),
    /// Equal scroll events in a row, and how many of them.
    Scroll { mouse: MouseEvent, steps: usize },
}

/// The terminal events that an event of a batch stands for.
pub open spec fn terminal_events(event: InputEvent) -> Seq<Event> {
    match event {
        InputEvent::Terminal(event) => seq![event],
        InputEvent::Scroll { mouse, steps } => Seq::new(
            steps as nat,
            |i: int| Event::Mouse(mouse),
        ),
    }
}

/// The terminal events that a batch stands for, in order.
pub open spec fn expanded(events: Seq<InputEvent>) -> Seq<Event>
    decreases events.len(),
{
    if events.len() == 0 {
        Seq::empty()
    } else {
        expanded(events.drop_last()) + terminal_events(events.last())
    }
}

/// Whether a scroll event adds a step to the last event of a batch.
pub open spec fn adds_step(events: Seq<InputEvent>, event: Event) -> bool {
    &&& is_scroll_event(event)
    &&& events.len() > 0
    &&& events.last() matches InputEvent::Scroll { mouse, .. } && event == Event::Mouse(mouse)
}

/// A batch after one more event: a scroll event that is the same as the last one adds a step
/// to it, another starts a row of its own, and any other event is kept as it is.
pub open spec fn pushed(events: Seq<InputEvent>, event: Event) -> Seq<InputEvent> {
    if adds_step(events, event) {
        events.drop_last().push(
            InputEvent::Scroll {
                mouse: event->Mouse_0,
                steps: (events.last()->steps + 1) as usize,
            },
        )
    } else if is_scroll_event(event) {
        events.push(InputEvent::Scroll { mouse: event->Mouse_0, steps: 1 })
    } else {
        events.push(InputEvent::Terminal(event))
    }
}

/// The batch that the events make, one after the other.
pub open spec fn coalesced(events: Seq<Event>) -> Seq<InputEvent>
    decreases events.len(),
{
    if events.len() == 0 {
        Seq::empty()
    } else {
        pushed(coalesced(events.drop_last()), events.last())
    }
}

/// Adds an event to a batch and returns how many events it retained.
pub fn push_input_event(event: Event, events: &mut Vec<InputEvent>) -> (r: usize)
    requires
        adds_step(old(events)@, event) ==> old(events)@.last()->steps < usize::MAX,
    ensures
        r == 1,
        final(events)@ == pushed(old(events)@, event),
{
    match event {
        Event::Mouse(mouse) if is_scroll(mouse.kind) => {
            let repeats: bool = match events.last() {
                Some(InputEvent::Scroll { mouse: previous, .. }) => *previous == mouse,
                _ => false,
            };
            if repeats {
                if let Some(InputEvent::Scroll { steps, .. }) = events.last_mut() {
                    *steps += 1;
                }
            } else {
                events.push(InputEvent::Scroll { mouse, steps: 1 });
            }
        },
        other => events.push(InputEvent::Terminal(other)),
    }
    1
}

/// One more event in a batch is one more that it stands for.
pub proof fn pushed_adds_one_event(events: Seq<InputEvent>, event: Event)
    requires
        adds_step(events, event) ==> events.last()->steps < usize::MAX,
    ensures
        expanded(pushed(events, event)) == expanded(events).push(event),
{
    let after = pushed(events, event);
    if adds_step(events, event) {
        assert(after.drop_last() == events.drop_last());
        assert(terminal_events(after.last()) == terminal_events(events.last()).push(event));
    } else {
        assert(after.drop_last() == events);
        assert(terminal_events(after.last()) == seq![event]);
    }
}

/// No row of a batch has more steps than the batch stands for events.
proof fn lemma_steps_within(events: Seq<InputEvent>)
    ensures
        events.len() > 0 && events.last() is Scroll ==> events.last()->steps <= expanded(
            events,
        ).len(),
{
}

/// What a batch holds.
pub struct BatchModel {
    pub events: Seq<InputEvent>,
    pub raw_count: nat,
    pub retained_count: nat,
}

/// The events of one poll.
#[derive(Debug)]
pub struct EventBatch {
    events: Vec<InputEvent>,
    raw_count: usize,
    retained_count: usize,
}

impl View for EventBatch {
    type V = BatchModel;

    closed spec fn view(&self) -> BatchModel {
        BatchModel {
            events: self.events@,
            raw_count: self.raw_count as nat,
            retained_count: self.retained_count as nat,
        }
    }
}

impl Default for EventBatch {
    fn default() -> (r: Self)
        ensures
            r@ == (BatchModel { events: Seq::empty(), raw_count: 0, retained_count: 0 }),
    {
        EventBatch { events: Vec::new(), raw_count: 0, retained_count: 0 }
    }
}

impl EventBatch {
    #[verifier::type_invariant]
    spec fn well_formed(self) -> bool {
        &&& self.events@ == coalesced(expanded(self.events@))
        &&& self.retained_count == expanded(self.events@).len()
        &&& self.retained_count <= MAX_EVENTS_PER_BATCH
    }

    /// Whether the terminal sent anything since the last poll.
    pub fn had_input(&self) -> (r: bool)
        ensures
            r == (self@.raw_count > 0 || self@.retained_count > 0),
    {
        self.raw_count > 0 || self.retained_count > 0
    }

    /// How many events the terminal sent.
    pub fn raw_count(&self) -> (r: usize)
        ensures
            r == self@.raw_count,
    {
        self.raw_count
    }

    /// How many events the batch stands for.
    pub fn retained_count(&self) -> (r: usize)
        ensures
            r == self@.retained_count,
            r == expanded(self@.events).len(),
            r <= MAX_EVENTS_PER_BATCH,
    {
        proof {
            use_type_invariant(self);
        }
        self.retained_count
    }

    pub fn into_events(self) -> (r: Vec<InputEvent>)
        ensures
            r@ == self@.events,
            r@ == coalesced(expanded(r@)),
            expanded(r@).len() == self@.retained_count,
            expanded(r@).len() <= MAX_EVENTS_PER_BATCH,
    {
        proof {
            use_type_invariant(&self);
        }
        self.events
    }

    /// The batch, with the number of events that the terminal sent.
    pub fn with_raw_count(self, raw_count: usize) -> (r: Self)
        ensures
            r@ == (BatchModel { raw_count: raw_count as nat, ..self@ }),
    {
        proof {
            use_type_invariant(&self);
        }
        EventBatch { events: self.events, raw_count, retained_count: self.retained_count }
    }
}

/// What passes through the queue.
#[derive(Debug)]
pub enum InputMessage {
    Event(Event),
    /// Why the terminal could not be read.
    Error(String),
}

/// Why there is no batch.
#[derive(Debug)]
pub enum InputError {
    /// The terminal could not be read.
    Failed(String),
    /// The queue was closed.
    Stopped,
}

impl InputError {
    /// The text of the error.
    pub open spec fn text(self) -> Seq<char> {
        match self {
            InputError::Failed(error) => "Terminal input failed: "@ + error@,
            InputError::Stopped => "Terminal input reader stopped unexpectedly"@,
        }
    }

    pub fn message(&self) -> (r: String)
        ensures
            r@ == self.text(),
            self matches InputError::Failed(error) ==> r@ == "Terminal input failed: "@ + error@,
            self is Stopped ==> r@ == "Terminal input reader stopped unexpectedly"@,
    {
        match self {
            InputError::Failed(error) => {
                let mut message: String = "Terminal input failed: ".to_string();
                message.append(error.as_str());
                message
            },
            InputError::Stopped => "Terminal input reader stopped unexpectedly".to_string(),
        }
    }
}

/// What taking from the queue came to.
#[derive(Debug)]
pub enum Received {
    Message(InputMessage),
    /// Nothing came in time, or nothing was there.
    Nothing,
    /// The queue is empty and closed.
    Disconnected,
}

/// How to take the next message from the queue.
#[derive(Debug, Clone, Copy, PartialEq, Eq, Structural)]
pub enum Receive {
    /// Wait for it, but no longer than this.
    Wait { timeout_millis: u64 },
    /// Take it if it is there.
    Try,
}

/// What to do after a message was asked for.
#[derive(Debug)]
pub enum PollStep {
    /// Ask for the next one.
    Receive(EventReader),
    /// Hand out the batch.
    Finish(EventBatch),
    /// Hand out the error; what was gathered is lost.
    Fail(InputError),
}

/// What a poll comes to.
pub enum Poll {
    /// It goes on, with these events gathered.
    Gathering(Seq<Event>),
    /// It hands out these events.
    Finished(Seq<Event>),
    /// It hands out an error.
    Failed(InputError),
}

/// A poll that has gathered some events, after one more was asked for: it ends when nothing is
/// there or the batch is full, and fails where the queue holds an error or is closed.
pub open spec fn poll_step(gathered: Seq<Event>, received: Received) -> Poll {
    match received {
        Received::Message(InputMessage::Event(event)) => if gathered.len() + 1
            < MAX_EVENTS_PER_BATCH {
            Poll::Gathering(gathered.push(event))
        } else {
            Poll::Finished(gathered.push(event))
        },
        Received::Message(InputMessage::Error(error)) => Poll::Failed(InputError::Failed(error)),
        Received::Nothing => Poll::Finished(gathered),
        Received::Disconnected => Poll::Failed(InputError::Stopped),
    }
}

/// How many raw events a poll reports of a counter: a batch reports them all, an error none.
pub open spec fn raw_reported(counter: nat, poll: Poll) -> nat {
    match poll {
        Poll::Finished(_) => counter,
        _ => 0,
    }
}

/// What a poll leaves in a counter of raw events: nothing where it hands out a batch, and all
/// of it where it goes on or fails.
pub open spec fn raw_left(counter: nat, poll: Poll) -> nat {
    match poll {
        Poll::Finished(_) => 0,
        _ => counter,
    }
}

impl PollStep {
    /// Whether the counter of raw events is to be taken, for the batch to report, and set to 0.
    pub fn takes_raw_count(&self) -> (r: bool)
        ensures
            forall|poll: Poll, counter: nat|
                self.comes_to(poll) ==> #[trigger] raw_reported(counter, poll) == (if r {
                    counter
                } else {
                    0
                }) && raw_left(counter, poll) == (if r {
                    0
                } else {
                    counter
                }),
            r == (self is Finish),
    {
        matches!(self, PollStep::Finish(_))
    }

    /// Whether the step is what the poll comes to. A batch counts what it retained; what the
    /// terminal sent is not known yet.
    pub open spec fn comes_to(self, poll: Poll) -> bool {
        match (self, poll) {
            (PollStep::Receive(reader), Poll::Gathering(gathered)) => reader@ == gathered,
            (PollStep::Finish(batch), Poll::Finished(gathered)) => batch@ == (BatchModel {
                events: coalesced(gathered),
                raw_count: 0,
                retained_count: gathered.len(),
            }),
            (PollStep::Fail(error), Poll::Failed(failure)) => error == failure,
            _ => false,
        }
    }
}

/// Gathers the messages of one poll.
#[derive(Debug)]
pub struct EventReader {
    events: Vec<InputEvent>,
    retained_count: usize,
    message_count: usize,
}

impl View for EventReader {
    type V = Seq<Event>;

    /// The events that were gathered.
    closed spec fn view(&self) -> Seq<Event> {
        expanded(self.events@)
    }
}

impl EventReader {
    #[verifier::type_invariant]
    spec fn well_formed(self) -> bool {
        &&& self.events@ == coalesced(self@)
        &&& self.retained_count == self@.len()
        &&& self.message_count == self@.len()
        &&& self@.len() < MAX_EVENTS_PER_BATCH
    }

    pub fn new() -> (r: Self)
        ensures
            r@ == Seq::<Event>::empty(),
    {
        EventReader { events: Vec::with_capacity(16), retained_count: 0, message_count: 0 }
    }

    /// How to take the next message: wait for the first, then only take what is there.
    pub fn next_receive(&self) -> (r: Receive)
        ensures
            r == if self@.len() == 0 {
                Receive::Wait { timeout_millis: EVENT_POLL_TIMEOUT_MILLIS }
            } else {
                Receive::Try
            },
    {
        proof {
            use_type_invariant(self);
        }
        if self.message_count == 0 {
            Receive::Wait { timeout_millis: EVENT_POLL_TIMEOUT_MILLIS }
        } else {
            Receive::Try
        }
    }

    /// Takes in what came from the queue.
    pub fn poll_events(self, received: Received) -> (step: PollStep)
        ensures
            step.comes_to(poll_step(self@, received)),
            match received {
                Received::Message(InputMessage::Event(event)) => if self@.len() < 511 {
                    step matches PollStep::Receive(reader) && reader@ == self@.push(event)
                } else {
                    step matches PollStep::Finish(batch) && batch@ == (BatchModel {
                        events: coalesced(self@.push(event)),
                        raw_count: 0,
                        retained_count: self@.len() + 1,
                    })
                },
                Received::Message(InputMessage::Error(error)) => step == PollStep::Fail(
                    InputError::Failed(error),
                ),
                Received::Nothing => step matches PollStep::Finish(batch) && batch@ == (
                BatchModel {
                    events: coalesced(self@),
                    raw_count: 0,
                    retained_count: self@.len(),
                }),
                Received::Disconnected => step == PollStep::Fail(InputError::Stopped),
            },
    {
        proof {
            use_type_invariant(&self);
        }
        let message: InputMessage = match received {
            Received::Message(message) => message,
            Received::Nothing => {
                return PollStep::Finish(
                    EventBatch {
                        events: self.events,
                        raw_count: 0,
                        retained_count: self.retained_count,
                    },
                );
            },
            Received::Disconnected => return PollStep::Fail(InputError::Stopped),
        };
        let event: Event = match Self::event_from_message(message) {
            Ok(event) => event,
            Err(error) => return PollStep::Fail(error),
        };
        let ghost gathered = self@;
        proof {
            lemma_steps_within(self.events@);
            pushed_adds_one_event(self.events@, event);
            assert(gathered.push(event).drop_last() == gathered);
        }
        let message_count: usize = self.message_count + 1;
        let retained: usize = self.retained_count;
        let mut events: Vec<InputEvent> = self.events;
        let retained_count: usize = retained + push_input_event(event, &mut events);
        if message_count < MAX_EVENTS_PER_BATCH {
            PollStep::Receive(EventReader { events, retained_count, message_count })
        } else {
            PollStep::Finish(EventBatch { events, raw_count: 0, retained_count })
        }
    }

    /// The event of a message, or the error that it reports.
    pub fn event_from_message(message: InputMessage) -> (r: Result<Event, InputError>)
        ensures
            r == match message {
                InputMessage::Event(event) => Ok::<Event, InputError>(event),
                InputMessage::Error(error) => Err(InputError::Failed(error)),
            },
    {
        match message {
            InputMessage::Event(event) => Ok(event),
            InputMessage::Error(error) => Err(InputError::Failed(error)),
        }
    }
}

/// How to put a message into the queue.
#[derive(Debug)]
pub enum Enqueue {
    /// Put it in if there is room, else drop it.
    Try(InputMessage),
    /// Wait for room.
    Wait(InputMessage),
}

/// How an event is put into the queue: a scroll event may be dropped, no other event.
pub open spec fn queued_as(event: Event) -> Enqueue {
    if is_scroll_event(event) {
        Enqueue::Try(InputMessage::Event(event))
    } else {
        Enqueue::Wait(InputMessage::Event(event))
    }
}

/// Decides how to put an event into the queue.
pub fn enqueue_event(event: Event) -> (r: Enqueue)
    ensures
        r == queued_as(event),
{
    let is_scroll_event: bool = match &event {
        Event::Mouse(mouse) => is_scroll(mouse.kind),
        _ => false,
    };
    let message: InputMessage = InputMessage::Event(event);
    if is_scroll_event {
        Enqueue::Try(message)
    } else {
        Enqueue::Wait(message)
    }
}

/// What putting a message into the queue came to.
#[derive(Debug, Clone, Copy, PartialEq, Eq, Structural)]
pub enum Sent {
    Queued,
    /// There was no room for it.
    Full,
    /// Nothing takes from the queue any more.
    Disconnected,
}

/// Whether to go on reading: a message that was dropped for want of room is no error.
pub fn enqueue_result(sent: Sent) -> (r: Result<(), ()>)
    ensures
        r == if sent is Disconnected {
            Err::<(), ()>(())
        } else {
            Ok(())
        },
{
    match sent {
        Sent::Queued | Sent::Full => Ok(()),
        Sent::Disconnected => Err(()),
    }
}

/// What to do after the terminal was read.
#[derive(Debug)]
pub enum ReadStep {
    /// Nothing: the event was not retained.
    Skip,
    /// Put a message into the queue, and go on unless that fails.
    Enqueue(Enqueue),
    /// Put a last message into the queue, waiting for room, and stop.
    Stop(InputMessage),
}

/// What to do after the terminal was read at `at`.
pub open spec fn read_step(burst: Option<Burst>, read: Result<Event, String>, at: int) -> ReadStep {
    match read {
        Ok(event) => match normalized(burst, event, at) {
            None => ReadStep::Skip,
            Some(event) => ReadStep::Enqueue(queued_as(event)),
        },
        Err(error) => ReadStep::Stop(InputMessage::Error(error)),
    }
}

/// The burst after the terminal was read at `at`.
pub open spec fn after_read(
    burst: Option<Burst>,
    read: Result<Event, String>,
    at: int,
) -> Option<Burst> {
    match read {
        Ok(event) => after_event(burst, event, at),
        Err(_) => burst,
    }
}

impl ReadStep {
    /// How many events were read: every event counts, retained or not, and an error does not.
    pub open spec fn counted(self) -> nat {
        match self {
            ReadStep::Skip | ReadStep::Enqueue(_) => 1,
            ReadStep::Stop(_) => 0,
        }
    }

    pub fn raw_count(&self) -> (r: usize)
        ensures
            r == self.counted(),
    {
        match self {
            ReadStep::Skip | ReadStep::Enqueue(_) => 1,
            ReadStep::Stop(_) => 0,
        }
    }
}

/// Takes in what was read from the terminal at `arrived_at`, in nanoseconds: an event that is
/// retained goes into the queue, and an error ends the reading.
pub fn read_event(
    scroll: &mut ScrollNormalizer,
    read: Result<Event, String>,
    arrived_at: u128,
) -> (r: ReadStep)
    ensures
        r == read_step(old(scroll)@, read, arrived_at as int),
        final(scroll)@ == after_read(old(scroll)@, read, arrived_at as int),
        read is Err ==> *final(scroll) == *old(scroll),
        read matches Ok(event) && !is_scroll_event(event) ==> final(scroll).is_initial(),
{
    match read {
        Ok(event) => match normalize_terminal_event(scroll, event, arrived_at) {
            Some(event) => ReadStep::Enqueue(enqueue_event(event)),
            None => ReadStep::Skip,
        },
        Err(error) => ReadStep::Stop(InputMessage::Error(error)),
    }
}

} // verus!
