//! Colors and the output events that the library hands to a display sink.
//!
//! The display sink itself (a host primitive that puts a colored string on a
//! character-cell surface) is outside this crate: the verified code computes
//! the exact sequence of output events, and an unverified adapter performs
//! them.

use vstd::prelude::*;

verus! {

/// A foreground/background pair of packed 24-bit RGB color values.
///
/// Compared by equality to detect color-run boundaries.
#[derive(Clone, Copy, Debug, PartialEq, Eq, Structural)]
pub struct ColorPair {
    pub front: usize,
    pub back: usize,
}

/// One output event, as handed to the sink adapter.
///
/// `Colored` is one call of the colored-put primitive: the text together with
/// a foreground and a background color. `Plain` is uncolored host-console
/// output (line terminators, annotation indentation).
#[derive(Debug, PartialEq, Eq)]
pub enum OutEvent {
    Colored { text: String, front: usize, back: usize },
    Plain { text: String },
}

/// The mathematical value of an [`OutEvent`]: the same shape over `Seq<char>`.
pub enum EventView {
    Colored { text: Seq<char>, front: usize, back: usize },
    Plain { text: Seq<char> },
}

impl View for OutEvent {
    type V = EventView;

    open spec fn view(&self) -> EventView {
        match self {
            OutEvent::Colored { text, front, back } => EventView::Colored {
                text: text@,
                front: *front,
                back: *back,
            },
            OutEvent::Plain { text } => EventView::Plain { text: text@ },
        }
    }
}

/// The views of a whole event list, in order.
pub open spec fn event_views(events: Seq<OutEvent>) -> Seq<EventView> {
    events.map_values(|e: OutEvent| e@)
}

} // verus!
