//! The in-memory queue of events not yet durably written.
//!
//! Pushing never touches the disk; the owner renders the pending batch with
//! [`EventBuffer::pending_text`], appends that text to the log file, and only
//! after the write succeeded calls [`EventBuffer::clear`]. A failed write
//! leaves the buffer as it was, so the same events are retried on the next
//! flush: delivery to the log is at-least-once.

use vstd::prelude::*;
use crate::codec::{render_pending, render_pending_text};
use crate::events::{Event, EventV, views_of};

verus! {

/// The pending events, oldest first.
pub struct EventBuffer {
    pending: Vec<Event>,
}

impl View for EventBuffer {
    type V = Seq<EventV>;

    closed spec fn view(&self) -> Seq<EventV> {
        views_of(self.pending@)
    }
}

impl EventBuffer {
    /// An empty buffer.
    pub fn new() -> (b: EventBuffer)
        ensures
            b@ == Seq::<EventV>::empty(),
    {
        let b = EventBuffer { pending: Vec::new() };
        proof {
            assert(b@ =~= Seq::<EventV>::empty());
        }
        b
    }

    /// Queue one event. Never touches the disk.
    pub fn push(&mut self, e: Event)
        ensures
            final(self)@ == old(self)@.push(e@),
    {
        self.pending.push(e);
        proof {
            assert(self@ =~= old(self)@.push(self.pending@.last()@));
        }
    }

    /// Is nothing waiting to be written?
    pub fn is_empty(&self) -> (r: bool)
        ensures
            r == (self@.len() == 0),
    {
        self.pending.len() == 0
    }

    /// The text that carries the whole pending batch to the log: each event's
    /// line preceded by its own newline.
    pub fn pending_text(&self) -> (s: String)
        ensures
            s@ == render_pending(self@),
    {
        render_pending_text(&self.pending)
    }

    /// Forget the pending events — only after the text returned by
    /// [`EventBuffer::pending_text`] has actually been written out.
    pub fn clear(&mut self)
        ensures
            final(self)@ == Seq::<EventV>::empty(),
    {
        self.pending.clear();
        proof {
            assert(self@ =~= Seq::<EventV>::empty());
        }
    }
}

} // verus!
