//! Wheel notches that arrive as bursts of scroll events.

use crate::terminal::{Event, MouseEvent, MouseEventKind};
use vstd::prelude::*;

verus! {

/// Two equal scroll events less than this many nanoseconds apart belong to one burst.
pub const SCROLL_BURST_GAP_NANOS: u128 = 1_000_000;

/// How many events of a burst count as one notch of the wheel.
pub const MAX_EVENTS_PER_NOTCH: usize = 8;

/// Whether the wheel was turned up or down.
pub open spec fn scrolls(kind: MouseEventKind) -> bool {
    kind is ScrollUp || kind is ScrollDown
}

/// Whether the event is a turn of the wheel up or down.
pub open spec fn is_scroll_event(event: Event) -> bool {
    event matches Event::Mouse(mouse) && scrolls(mouse.kind)
}

pub fn is_scroll(kind: MouseEventKind) -> (r: bool)
    ensures
        r == scrolls(kind),
        r == (kind == MouseEventKind::ScrollUp || kind == MouseEventKind::ScrollDown),
{
    matches!(kind, MouseEventKind::ScrollUp | MouseEventKind::ScrollDown)
}

/// A burst of equal scroll events.
pub struct Burst {
    /// When the last one arrived, in nanoseconds.
    pub last: int,
    pub mouse: MouseEvent,
    /// How many have arrived since one was last retained, that one included.
    pub count: nat,
}

impl Burst {
    pub open spec fn valid(self) -> bool {
        1 <= self.count <= MAX_EVENTS_PER_NOTCH
    }
}

/// Whether a burst, if there is one, is valid.
pub open spec fn valid_burst(burst: Option<Burst>) -> bool {
    burst matches Some(b) ==> b.valid()
}

/// Whether a scroll event that arrives at `at` belongs to the burst.
pub open spec fn continues(burst: Option<Burst>, mouse: MouseEvent, at: int) -> bool {
    burst matches Some(b) && b.mouse == mouse && at - b.last < SCROLL_BURST_GAP_NANOS
}

/// Whether a scroll event is retained: it starts a burst, or as many of the burst as make a
/// notch have arrived.
pub open spec fn retains(burst: Option<Burst>, mouse: MouseEvent, at: int) -> bool {
    !continues(burst, mouse, at) || burst->Some_0.count >= MAX_EVENTS_PER_NOTCH
}

/// The burst after a scroll event.
pub open spec fn after_scroll(burst: Option<Burst>, mouse: MouseEvent, at: int) -> Option<Burst> {
    Some(
        Burst {
            last: at,
            mouse,
            count: if retains(burst, mouse, at) {
                1
            } else {
                burst->Some_0.count + 1
            },
        },
    )
}

/// Retains one scroll event of each notch.
#[derive(Debug)]
pub struct ScrollNormalizer {
    /// When the last scroll event arrived, in nanoseconds, and what it was.
    last_scroll: Option<(u128, MouseEvent)>,
    burst_count: usize,
}

impl View for ScrollNormalizer {
    type V = Option<Burst>;

    closed spec fn view(&self) -> Option<Burst> {
        match self.last_scroll {
            Some((last, mouse)) => Some(
                Burst { last: last as int, mouse, count: self.burst_count as nat },
            ),
            None => None,
        }
    }
}

impl Default for ScrollNormalizer {
    fn default() -> (r: Self)
        ensures
            r@ is None,
            r.is_initial(),
    {
        ScrollNormalizer { last_scroll: None, burst_count: 0 }
    }
}

impl ScrollNormalizer {
    #[verifier::type_invariant]
    spec fn well_formed(self) -> bool {
        &&& valid_burst(self@)
        &&& self.burst_count <= MAX_EVENTS_PER_NOTCH
        &&& self.last_scroll is None <==> self.burst_count == 0
    }

    /// Whether no scroll event was seen and none is counted.
    pub closed spec fn is_initial(self) -> bool {
        self.last_scroll is None && self.burst_count == 0
    }

    /// How many events of the burst are counted.
    pub closed spec fn counted(self) -> nat {
        self.burst_count as nat
    }

    /// There is only one normalizer that has seen nothing: a reset one is a new one.
    pub proof fn initial_is_one_value(a: Self, b: Self)
        requires
            a.is_initial(),
            b.is_initial(),
        ensures
            a == b,
    {
    }

    /// Whether to retain a scroll event that arrived at `arrived_at`, in nanoseconds. One that
    /// arrives before the last counts as no time after it.
    pub fn should_retain(&mut self, mouse: MouseEvent, arrived_at: u128) -> (r: bool)
        ensures
            r == retains(old(self)@, mouse, arrived_at as int),
            r == (old(self)@ is None || old(self)@->Some_0.mouse != mouse || arrived_at
                - old(self)@->Some_0.last >= 1_000_000 || old(self)@->Some_0.count >= 8),
            final(self)@ == Some(
                Burst {
                    last: arrived_at as int,
                    mouse,
                    count: if r {
                        1
                    } else {
                        old(self)@->Some_0.count + 1
                    },
                },
            ),
            old(self).is_initial() ==> r,
            final(self)@ == after_scroll(old(self)@, mouse, arrived_at as int),
            valid_burst(final(self)@),
            old(self)@ is None <==> old(self).counted() == 0,
            old(self)@ is None <==> old(self).is_initial(),
            old(self).counted() <= MAX_EVENTS_PER_NOTCH,
            final(self)@ is Some,
            1 <= final(self).counted() <= MAX_EVENTS_PER_NOTCH,
            final(self).counted() == final(self)@->Some_0.count,
    {
        proof {
            use_type_invariant(&*self);
        }
        let continues_burst: bool = match self.last_scroll {
            Some((last, last_mouse)) => last_mouse == mouse && arrived_at.saturating_sub(last)
                < SCROLL_BURST_GAP_NANOS,
            None => false,
        };
        let retained: bool = !continues_burst || self.burst_count + 1 > MAX_EVENTS_PER_NOTCH;
        let burst_count: usize = if retained {
            1
        } else {
            self.burst_count + 1
        };
        *self = ScrollNormalizer { last_scroll: Some((arrived_at, mouse)), burst_count };
        retained
    }

    /// Ends the burst.
    pub fn reset(&mut self)
        ensures
            final(self)@ is None,
            final(self).is_initial(),
            old(self).is_initial() ==> *final(self) == *old(self),
    {
        *self = ScrollNormalizer { last_scroll: None, burst_count: 0 };
    }
}

/// What is retained of an event.
pub open spec fn normalized(burst: Option<Burst>, event: Event, at: int) -> Option<Event> {
    match event {
        Event::Mouse(mouse) if scrolls(mouse.kind) => if retains(burst, mouse, at) {
            Some(event)
        } else {
            None
        },
        _ => Some(event),
    }
}

/// The burst after an event: any event but a scroll ends it.
pub open spec fn after_event(burst: Option<Burst>, event: Event, at: int) -> Option<Burst> {
    match event {
        Event::Mouse(mouse) if scrolls(mouse.kind) => after_scroll(burst, mouse, at),
        _ => None,
    }
}

/// Passes an event on, unless it is a scroll event that is not retained.
pub fn normalize_terminal_event(
    scroll: &mut ScrollNormalizer,
    event: Event,
    arrived_at: u128,
) -> (r: Option<Event>)
    ensures
        r == normalized(old(scroll)@, event, arrived_at as int),
        final(scroll)@ == after_event(old(scroll)@, event, arrived_at as int),
        valid_burst(final(scroll)@),
        !is_scroll_event(event) ==> final(scroll).is_initial(),
        !(event is Mouse && (event->Mouse_0.kind is ScrollUp || event->Mouse_0.kind is ScrollDown))
            ==> r == Some(event) && final(scroll)@ is None,
{
    match event {
        Event::Mouse(mouse) if is_scroll(mouse.kind) => {
            if scroll.should_retain(mouse, arrived_at) {
                Some(Event::Mouse(mouse))
            } else {
                None
            }
        },
        other => {
            scroll.reset();
            Some(other)
        },
    }
}

} // verus!
