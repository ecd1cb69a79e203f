use keifu::event::{
    enqueue_event, enqueue_result, push_input_event, read_event, Enqueue, EventBatch, EventReader,
    InputError, InputEvent, InputMessage, PollStep, ReadStep, Receive, Received, Sent,
    EVENT_POLL_TIMEOUT_MILLIS, MAX_BUFFERED_EVENTS, MAX_EVENTS_PER_BATCH,
};
use keifu::scroll::{
    is_scroll, normalize_terminal_event, ScrollNormalizer, MAX_EVENTS_PER_NOTCH,
};
use keifu::terminal::{
    Event, KeyCode, KeyEvent, KeyEventKind, KeyEventState, KeyModifiers, MouseButton, MouseEvent,
    MouseEventKind,
};
use std::sync::mpsc::{sync_channel, SyncSender, TrySendError};

const MICRO: u128 = 1_000;
const MILLI: u128 = 1_000_000;
const NOW: u128 = 5_000_000_000;

#[derive(Clone)]
struct TimedEvent {
    event: Event,
    arrived_at: u128,
}

fn mouse(kind: MouseEventKind) -> MouseEvent {
    MouseEvent {
        kind,
        column: 5,
        row: 5,
        modifiers: KeyModifiers { bits: 0 },
    }
}

fn key(c: char) -> Event {
    Event::Key(KeyEvent {
        code: KeyCode::Char(c),
        modifiers: KeyModifiers { bits: 0 },
        kind: KeyEventKind::Press,
        state: KeyEventState { bits: 0 },
    })
}

fn scroll(kind: MouseEventKind, arrived_at: u128) -> TimedEvent {
    TimedEvent {
        event: Event::Mouse(mouse(kind)),
        arrived_at,
    }
}

fn paced_scrolls(kind: MouseEventKind, count: usize, start: u128, gap: u128) -> Vec<TimedEvent> {
    (0..count)
        .map(|index| scroll(kind, start + gap * index as u128))
        .collect()
}

fn retained_count(events: &[InputEvent]) -> usize {
    events
        .iter()
        .map(|event| match event {
            InputEvent::Terminal(_) => 1,
            InputEvent::Scroll { steps, .. } => *steps,
        })
        .sum()
}

fn normalize(
    scroll: &mut ScrollNormalizer,
    events: impl IntoIterator<Item = TimedEvent>,
) -> Vec<InputEvent> {
    let mut normalized = Vec::new();
    for timed in events {
        if let Some(event) = normalize_terminal_event(scroll, timed.event, timed.arrived_at) {
            push_input_event(event, &mut normalized);
        }
    }
    normalized
}

#[test]
fn normalizes_amplified_events_from_one_notch() {
    for count in [1, 3, MAX_EVENTS_PER_NOTCH] {
        let mut normalizer = ScrollNormalizer::default();
        let events = paced_scrolls(MouseEventKind::ScrollDown, count, NOW, 50 * MICRO);

        let normalized = normalize(&mut normalizer, events);

        assert_eq!(retained_count(&normalized), 1);
    }
}

#[test]
fn keeps_each_amplified_notch_in_a_fast_gesture() {
    let events = (0..20).flat_map(|notch| {
        paced_scrolls(
            MouseEventKind::ScrollDown,
            MAX_EVENTS_PER_NOTCH,
            NOW + notch * 4 * MILLI,
            50 * MICRO,
        )
    });
    let mut normalizer = ScrollNormalizer::default();

    let normalized = normalize(&mut normalizer, events);

    assert_eq!(retained_count(&normalized), 20);
}

#[test]
fn retains_fast_scroll_distance_independent_of_render_batches() {
    let events = paced_scrolls(MouseEventKind::ScrollDown, 60, NOW, 4 * MILLI);
    let mut one_batch = ScrollNormalizer::default();
    let normalized = normalize(&mut one_batch, events);
    let one_batch_total = retained_count(&normalized);
    assert!(matches!(
        normalized.as_slice(),
        [InputEvent::Scroll { steps: 60, .. }]
    ));

    let mut split_batches = ScrollNormalizer::default();
    let split_total: usize = paced_scrolls(MouseEventKind::ScrollDown, 60, NOW, 4 * MILLI)
        .chunks(5)
        .map(|batch| retained_count(&normalize(&mut split_batches, batch.to_vec())))
        .sum();

    assert_eq!(one_batch_total, 60);
    assert_eq!(split_total, 60);
}

#[test]
fn bounds_a_sub_millisecond_free_spin_stream() {
    let mut normalizer = ScrollNormalizer::default();
    let events = paced_scrolls(MouseEventKind::ScrollDown, 80, NOW, 50 * MICRO);

    let normalized = normalize(&mut normalizer, events);

    assert_eq!(retained_count(&normalized), 10);
}

#[test]
fn keeps_direction_changes_and_other_events_in_order() {
    let mut normalizer = ScrollNormalizer::default();
    let key = TimedEvent {
        event: key('j'),
        arrived_at: NOW + 200 * MICRO,
    };
    let events = vec![
        scroll(MouseEventKind::ScrollDown, NOW),
        scroll(MouseEventKind::ScrollDown, NOW + 50 * MICRO),
        key,
        scroll(MouseEventKind::ScrollUp, NOW + 250 * MICRO),
        scroll(MouseEventKind::ScrollUp, NOW + 300 * MICRO),
    ];

    let normalized = normalize(&mut normalizer, events);

    assert_eq!(retained_count(&normalized), 3);
    assert!(matches!(
        normalized.as_slice(),
        [
            InputEvent::Scroll {
                mouse: MouseEvent {
                    kind: MouseEventKind::ScrollDown,
                    ..
                },
                steps: 1
            },
            InputEvent::Terminal(Event::Key(_)),
            InputEvent::Scroll {
                mouse: MouseEvent {
                    kind: MouseEventKind::ScrollUp,
                    ..
                },
                steps: 1
            }
        ]
    ));
}

#[test]
fn keeps_scrolls_when_the_pointer_or_modifiers_change() {
    let mut normalizer = ScrollNormalizer::default();
    let mut moved = scroll(MouseEventKind::ScrollDown, NOW + 50 * MICRO);
    let Event::Mouse(mouse) = &mut moved.event else {
        unreachable!();
    };
    mouse.column += 1;
    let mut modified = scroll(MouseEventKind::ScrollDown, NOW + 100 * MICRO);
    let Event::Mouse(mouse) = &mut modified.event else {
        unreachable!();
    };
    mouse.modifiers = KeyModifiers { bits: 1 };

    let normalized = normalize(
        &mut normalizer,
        vec![scroll(MouseEventKind::ScrollDown, NOW), moved, modified],
    );

    assert_eq!(retained_count(&normalized), 3);
}

#[test]
fn one_millisecond_gap_starts_a_new_notch() {
    let mut within_gap = ScrollNormalizer::default();
    let within = normalize(
        &mut within_gap,
        vec![
            scroll(MouseEventKind::ScrollDown, NOW),
            scroll(MouseEventKind::ScrollDown, NOW + 999 * MICRO),
        ],
    );
    let mut at_boundary = ScrollNormalizer::default();
    let boundary = normalize(
        &mut at_boundary,
        vec![
            scroll(MouseEventKind::ScrollDown, NOW),
            scroll(MouseEventKind::ScrollDown, NOW + MILLI),
        ],
    );

    assert_eq!(retained_count(&within), 1);
    assert_eq!(retained_count(&boundary), 2);
}

fn put(sender: &SyncSender<InputMessage>, event: Event) -> Result<(), ()> {
    enqueue_result(match enqueue_event(event) {
        Enqueue::Try(message) => match sender.try_send(message) {
            Ok(()) => Sent::Queued,
            Err(TrySendError::Full(_)) => Sent::Full,
            Err(TrySendError::Disconnected(_)) => Sent::Disconnected,
        },
        Enqueue::Wait(message) => match sender.send(message) {
            Ok(()) => Sent::Queued,
            Err(_) => Sent::Disconnected,
        },
    })
}

#[test]
fn full_queue_drops_scroll_but_preserves_keyboard_input() {
    let (sender, receiver) = sync_channel(1);
    let scroll = scroll(MouseEventKind::ScrollDown, NOW).event;
    assert_eq!(put(&sender, scroll.clone()), Ok(()));
    assert_eq!(put(&sender, scroll), Ok(()));

    assert!(matches!(enqueue_event(key('j')), Enqueue::Wait(_)));
    assert!(matches!(
        receiver.try_recv(),
        Ok(InputMessage::Event(Event::Mouse(_)))
    ));
    assert_eq!(put(&sender, key('j')), Ok(()));
    assert!(matches!(
        receiver.try_recv(),
        Ok(InputMessage::Event(Event::Key(_)))
    ));
    assert!(receiver.try_recv().is_err());
}

#[test]
fn a_closed_queue_ends_the_reader() {
    let (sender, receiver) = sync_channel(1);
    drop(receiver);
    assert_eq!(
        put(&sender, scroll(MouseEventKind::ScrollUp, NOW).event),
        Err(())
    );
    assert_eq!(put(&sender, key('q')), Err(()));
    assert_eq!(enqueue_result(Sent::Queued), Ok(()));
    assert_eq!(enqueue_result(Sent::Full), Ok(()));
    assert_eq!(enqueue_result(Sent::Disconnected), Err(()));
}

#[test]
fn only_up_and_down_scroll() {
    assert!(is_scroll(MouseEventKind::ScrollUp));
    assert!(is_scroll(MouseEventKind::ScrollDown));
    assert!(!is_scroll(MouseEventKind::ScrollLeft));
    assert!(!is_scroll(MouseEventKind::ScrollRight));
    assert!(!is_scroll(MouseEventKind::Moved));
    assert!(!is_scroll(MouseEventKind::Down(MouseButton::Middle)));
}

#[test]
fn the_ninth_event_of_a_burst_is_retained() {
    let mut normalizer = ScrollNormalizer::default();
    let mouse = mouse(MouseEventKind::ScrollUp);
    let retained: Vec<bool> = (0..17)
        .map(|i| normalizer.should_retain(mouse, NOW + i * 999 * MICRO))
        .collect();
    let expected: Vec<bool> = (0..17).map(|i| i % 8 == 0).collect();
    assert_eq!(retained, expected);
}

#[test]
fn a_clock_that_goes_back_keeps_the_burst() {
    let mut normalizer = ScrollNormalizer::default();
    let mouse = mouse(MouseEventKind::ScrollUp);
    assert!(normalizer.should_retain(mouse, NOW));
    assert!(!normalizer.should_retain(mouse, NOW - 5 * MILLI));
    assert!(normalizer.should_retain(mouse, NOW));
    normalizer.reset();
    assert!(normalizer.should_retain(mouse, NOW));
}

#[test]
fn any_other_event_ends_a_burst() {
    for other in [
        Event::FocusGained,
        Event::FocusLost,
        Event::Paste("text".to_string()),
        Event::Resize(80, 24),
        Event::Mouse(mouse(MouseEventKind::ScrollLeft)),
    ] {
        let mut normalizer = ScrollNormalizer::default();
        let events = vec![
            scroll(MouseEventKind::ScrollDown, NOW),
            TimedEvent {
                event: other,
                arrived_at: NOW,
            },
            scroll(MouseEventKind::ScrollDown, NOW),
            scroll(MouseEventKind::ScrollDown, NOW),
        ];
        assert_eq!(normalize(&mut normalizer, events).len(), 3);
    }
}

#[test]
fn equal_scrolls_add_steps_and_sideways_scrolls_do_not() {
    let mut events = Vec::new();
    assert_eq!(
        push_input_event(Event::Mouse(mouse(MouseEventKind::ScrollUp)), &mut events),
        1
    );
    push_input_event(Event::Mouse(mouse(MouseEventKind::ScrollUp)), &mut events);
    push_input_event(Event::Mouse(mouse(MouseEventKind::ScrollDown)), &mut events);
    push_input_event(Event::Mouse(mouse(MouseEventKind::ScrollLeft)), &mut events);
    push_input_event(Event::Mouse(mouse(MouseEventKind::ScrollLeft)), &mut events);
    assert!(matches!(
        events.as_slice(),
        [
            InputEvent::Scroll { steps: 2, .. },
            InputEvent::Scroll { steps: 1, .. },
            InputEvent::Terminal(Event::Mouse(_)),
            InputEvent::Terminal(Event::Mouse(_)),
        ]
    ));
    assert_eq!(retained_count(&events), 5);
}

fn poll(mut messages: Vec<Received>) -> (Result<EventBatch, InputError>, usize) {
    messages.reverse();
    let mut reader = EventReader::new();
    let mut taken = 0;
    loop {
        let expected = if taken == 0 {
            Receive::Wait {
                timeout_millis: EVENT_POLL_TIMEOUT_MILLIS,
            }
        } else {
            Receive::Try
        };
        assert_eq!(reader.next_receive(), expected);
        let received = messages.pop().unwrap_or(Received::Nothing);
        taken += 1;
        match reader.poll_events(received) {
            PollStep::Receive(next) => reader = next,
            PollStep::Finish(batch) => return (Ok(batch), taken),
            PollStep::Fail(error) => return (Err(error), taken),
        }
    }
}

fn message(event: Event) -> Received {
    Received::Message(InputMessage::Event(event))
}

#[test]
fn a_poll_without_messages_is_empty() {
    let (batch, taken) = poll(Vec::new());
    let batch = batch.unwrap();
    assert_eq!(taken, 1);
    assert_eq!(batch.raw_count(), 0);
    assert_eq!(batch.retained_count(), 0);
    assert!(!batch.had_input());

    let batch = batch.with_raw_count(3);
    assert_eq!(batch.raw_count(), 3);
    assert!(batch.had_input());
    assert!(batch.into_events().is_empty());
}

#[test]
fn a_poll_gathers_what_is_there() {
    let up = Event::Mouse(mouse(MouseEventKind::ScrollUp));
    let (batch, taken) = poll(vec![
        message(up.clone()),
        message(up.clone()),
        message(key('k')),
        message(up),
    ]);
    let batch = batch.unwrap();
    assert_eq!(taken, 5);
    assert_eq!(batch.retained_count(), 4);
    assert!(batch.had_input());
    assert!(matches!(
        batch.with_raw_count(9).into_events().as_slice(),
        [
            InputEvent::Scroll { steps: 2, .. },
            InputEvent::Terminal(Event::Key(_)),
            InputEvent::Scroll { steps: 1, .. },
        ]
    ));
}

#[test]
fn a_poll_takes_at_most_one_batch() {
    assert_eq!(MAX_EVENTS_PER_BATCH, 512);
    assert_eq!(MAX_BUFFERED_EVENTS, 1024);
    let messages = (0..600).map(|_| message(key('x'))).collect();
    let (batch, taken) = poll(messages);
    assert_eq!(taken, 512);
    let batch = batch.unwrap();
    assert_eq!(batch.retained_count(), 512);
    assert_eq!(batch.into_events().len(), 512);
}

#[test]
fn a_poll_reports_errors() {
    let error = InputMessage::Error("no such device".to_string());
    let (result, taken) = poll(vec![message(key('x')), Received::Message(error)]);
    assert_eq!(taken, 2);
    assert_eq!(
        result.unwrap_err().message(),
        "Terminal input failed: no such device"
    );

    let (result, _) = poll(vec![Received::Disconnected]);
    assert!(matches!(result, Err(InputError::Stopped)));
    let (result, _) = poll(vec![message(key('x')), Received::Disconnected]);
    assert_eq!(
        result.unwrap_err().message(),
        "Terminal input reader stopped unexpectedly"
    );
}

#[test]
fn messages_hold_events_or_errors() {
    assert!(matches!(
        EventReader::event_from_message(InputMessage::Event(Event::FocusLost)),
        Ok(Event::FocusLost)
    ));
    assert!(matches!(
        EventReader::event_from_message(InputMessage::Error("gone".to_string())),
        Err(InputError::Failed(text)) if text == "gone"
    ));
}

#[test]
fn reading_counts_every_event_and_stops_on_an_error() {
    let mut normalizer = ScrollNormalizer::default();
    let down = scroll(MouseEventKind::ScrollDown, NOW).event;

    let first = read_event(&mut normalizer, Ok(down.clone()), NOW);
    assert!(matches!(first, ReadStep::Enqueue(Enqueue::Try(_))));
    assert_eq!(first.raw_count(), 1);

    let second = read_event(&mut normalizer, Ok(down), NOW + 1);
    assert!(matches!(second, ReadStep::Skip));
    assert_eq!(second.raw_count(), 1);

    let third = read_event(&mut normalizer, Ok(key('g')), NOW + 2);
    assert!(matches!(third, ReadStep::Enqueue(Enqueue::Wait(_))));

    let last = read_event(&mut normalizer, Err("closed".to_string()), NOW + 3);
    assert!(matches!(&last, ReadStep::Stop(InputMessage::Error(text)) if text == "closed"));
    assert_eq!(last.raw_count(), 0);
}

#[test]
fn an_empty_batch_is_the_default() {
    let batch = EventBatch::default();
    assert!(!batch.had_input());
    assert_eq!(batch.raw_count(), 0);
    assert_eq!(batch.retained_count(), 0);
    assert!(batch.into_events().is_empty());
}

#[test]
fn a_reset_normalizer_is_a_new_one() {
    let text = |normalizer: &ScrollNormalizer| format!("{:?}", normalizer);
    let fresh = text(&ScrollNormalizer::default());
    let mut normalizer = ScrollNormalizer::default();
    let up = mouse(MouseEventKind::ScrollUp);
    for _ in 0..5 {
        normalizer.should_retain(up, NOW);
    }
    assert_ne!(text(&normalizer), fresh);
    normalizer.reset();
    assert_eq!(text(&normalizer), fresh);
    normalizer.reset();
    assert_eq!(text(&normalizer), fresh);

    normalizer.should_retain(up, NOW);
    normalizer.should_retain(up, NOW);
    normalize_terminal_event(&mut normalizer, key('a'), NOW);
    assert_eq!(text(&normalizer), fresh);
    assert!(normalizer.should_retain(up, NOW));
}

#[test]
fn only_a_batch_takes_the_raw_count() {
    let step = EventReader::new().poll_events(message(key('a')));
    assert!(!step.takes_raw_count());
    let step = EventReader::new().poll_events(Received::Nothing);
    assert!(step.takes_raw_count());
    let step = EventReader::new().poll_events(Received::Disconnected);
    assert!(!step.takes_raw_count());
}

struct Reading {
    sender: Option<SyncSender<InputMessage>>,
    scroll: ScrollNormalizer,
    counter: usize,
}

impl Reading {
    fn read(&mut self, read: Result<Event, String>, at: u128) {
        let Some(sender) = self.sender.take() else {
            return;
        };
        let step = read_event(&mut self.scroll, read, at);
        self.counter += step.raw_count();
        match step {
            ReadStep::Skip => self.sender = Some(sender),
            ReadStep::Enqueue(Enqueue::Try(message)) => {
                let _ = sender.try_send(message);
                self.sender = Some(sender);
            }
            ReadStep::Enqueue(Enqueue::Wait(message)) => {
                sender.send(message).unwrap();
                self.sender = Some(sender);
            }
            ReadStep::Stop(message) => sender.send(message).unwrap(),
        }
    }
}

fn poll_queue(
    receiver: &std::sync::mpsc::Receiver<InputMessage>,
    counter: &mut usize,
) -> Result<EventBatch, InputError> {
    let mut reader = EventReader::new();
    loop {
        let received = match receiver.try_recv() {
            Ok(message) => Received::Message(message),
            Err(std::sync::mpsc::TryRecvError::Empty) => Received::Nothing,
            Err(std::sync::mpsc::TryRecvError::Disconnected) => Received::Disconnected,
        };
        let step = reader.poll_events(received);
        let raw_count = if step.takes_raw_count() {
            std::mem::take(counter)
        } else {
            0
        };
        match step {
            PollStep::Receive(next) => reader = next,
            PollStep::Finish(batch) => return Ok(batch.with_raw_count(raw_count)),
            PollStep::Fail(error) => return Err(error),
        }
    }
}

#[test]
fn a_session_loses_only_scrolls_and_counts_every_event_once() {
    let (sender, receiver) = sync_channel(MAX_BUFFERED_EVENTS);
    let mut reading = Reading {
        sender: Some(sender),
        scroll: ScrollNormalizer::default(),
        counter: 0,
    };
    let up = Event::Mouse(mouse(MouseEventKind::ScrollUp));
    // Scrolls that are all retained fill the queue but for one place.
    for i in 0..1023 {
        reading.read(Ok(up.clone()), NOW + i * MILLI);
    }
    reading.read(Ok(key('a')), NOW);
    // There is no room for these.
    for i in 0..3 {
        reading.read(Ok(up.clone()), NOW + i * MILLI);
    }
    assert_eq!(reading.counter, 1027);

    let first = poll_queue(&receiver, &mut reading.counter).unwrap();
    assert_eq!((first.raw_count(), first.retained_count()), (1027, 512));
    assert_eq!(reading.counter, 0);
    let second = poll_queue(&receiver, &mut reading.counter).unwrap();
    assert_eq!((second.raw_count(), second.retained_count()), (0, 512));
    assert!(matches!(
        second.into_events().as_slice(),
        [
            InputEvent::Scroll { steps: 511, .. },
            InputEvent::Terminal(Event::Key(_)),
        ]
    ));

    reading.read(Ok(key('b')), NOW);
    reading.read(Err("gone".to_string()), NOW);
    reading.read(Ok(key('c')), NOW);
    assert_eq!(reading.counter, 1);
    let failed = poll_queue(&receiver, &mut reading.counter);
    assert_eq!(
        failed.unwrap_err().message(),
        "Terminal input failed: gone"
    );
    assert_eq!(reading.counter, 1);
    for _ in 0..2 {
        let failed = poll_queue(&receiver, &mut reading.counter);
        assert!(matches!(failed, Err(InputError::Stopped)));
    }
}

#[test]
fn a_queue_with_room_holds_all_that_is_retained() {
    let (sender, receiver) = sync_channel(MAX_BUFFERED_EVENTS);
    let mut reading = Reading {
        sender: Some(sender),
        scroll: ScrollNormalizer::default(),
        counter: 0,
    };
    let up = Event::Mouse(mouse(MouseEventKind::ScrollUp));
    for i in 0..10 {
        reading.read(Ok(up.clone()), NOW + i * 50 * MICRO);
    }
    reading.read(Ok(key('a')), NOW + 600 * MICRO);
    reading.read(Ok(up), NOW + 650 * MICRO);
    assert_eq!(reading.counter, 12);

    let queued: Vec<InputMessage> = receiver.try_iter().collect();
    assert!(matches!(
        queued.as_slice(),
        [
            InputMessage::Event(Event::Mouse(_)),
            InputMessage::Event(Event::Mouse(_)),
            InputMessage::Event(Event::Key(_)),
            InputMessage::Event(Event::Mouse(_)),
        ]
    ));
}
