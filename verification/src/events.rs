//! What the outside world tells the engine.
//!
//! Every variant that the engine makes a timing decision on carries the instant
//! it happened. Reading the clock belongs to the producers, never to the loop.

use vstd::prelude::*;

verus! {

/// A point in time, in nanoseconds since an origin that the producers share.
#[derive(Debug, Clone, Copy, PartialEq, Eq, Structural)]
pub struct Instant {
    pub nanos: u64,
}

/// One thing that happened, stamped with when.
#[derive(Debug, Clone)]
pub enum Event {
    /// Bytes read from the PTY. Already written to stdout by the caller: the
    /// engine sees a copy and never sits in the output path.
    Output(Vec<u8>, Instant),
    /// Bytes read from the user's stdin, before any forwarding.
    Input(Vec<u8>, Instant),
    /// The 200 ms heartbeat.
    Tick(Instant),
    /// The PTY write for an [`crate::engine::Action::Answer`] failed.
    AnswerFailed(Instant),
    /// The terminal was resized. The resize itself is the caller's job; the
    /// engine only redraws.
    Winch(Instant),
    /// A fatal signal. The engine turns it into an exit code.
    Terminate(i32),
    /// The PTY closed: the child is gone. The engine has nothing to say; the
    /// caller reaps the child and propagates its status.
    Eof,
}

/// An [`Event`] as plain values.
pub enum EventView {
    Output(Seq<u8>, int),
    Input(Seq<u8>, int),
    Tick(int),
    AnswerFailed(int),
    Winch(int),
    Terminate(int),
    Eof,
}

impl View for Event {
    type V = EventView;

    open spec fn view(&self) -> EventView {
        match self {
            Event::Output(bytes, now) => EventView::Output(bytes@, now.nanos as int),
            Event::Input(bytes, now) => EventView::Input(bytes@, now.nanos as int),
            Event::Tick(now) => EventView::Tick(now.nanos as int),
            Event::AnswerFailed(now) => EventView::AnswerFailed(now.nanos as int),
            Event::Winch(now) => EventView::Winch(now.nanos as int),
            Event::Terminate(signo) => EventView::Terminate(*signo as int),
            Event::Eof => EventView::Eof,
        }
    }
}

/// When it happened, for the events that say so.
pub open spec fn stamp_of(event: EventView) -> Option<int> {
    match event {
        EventView::Output(_, now) | EventView::Input(_, now) | EventView::Tick(now)
        | EventView::AnswerFailed(now) | EventView::Winch(now) => Some(now),
        EventView::Terminate(_) | EventView::Eof => None,
    }
}

impl Event {
    /// When it happened, for the events that say so.
    #[must_use]
    pub fn stamp(&self) -> (stamp: Option<Instant>)
        ensures
            match self {
                Event::Output(_, now) | Event::Input(_, now) | Event::Tick(now)
                | Event::AnswerFailed(now) | Event::Winch(now) => stamp == Some(*now),
                Event::Terminate(_) | Event::Eof => stamp is None,
            },
            match stamp {
                Some(now) => stamp_of(self@) == Some(now.nanos as int),
                None => stamp_of(self@) is None,
            },
    {
        match self {
            Event::Output(_, now) => Some(*now),
            Event::Input(_, now) => Some(*now),
            Event::Tick(now) => Some(*now),
            Event::AnswerFailed(now) => Some(*now),
            Event::Winch(now) => Some(*now),
            Event::Terminate(_) => None,
            Event::Eof => None,
        }
    }
}

}
