//! Events and the handlers that widgets register for them.

use vstd::prelude::*;
use crate::binding::BindingId;
use crate::index::Index;

verus! {

/// The category of an event.
#[derive(Clone, Copy, Debug, PartialEq, Eq, Structural, Hash)]
pub enum EventType {
    Click,
    Hover,
    MouseIn,
    MouseOut,
    Focus,
    Blur,
}

/// An event, addressed to the widget under the point where it happened.
#[derive(Clone, Copy, Debug, PartialEq, Eq, Structural, Hash)]
pub struct Event {
    pub target: Index,
    pub event_type: EventType,
}

/// A handler: on an event of category `on`, write the widget `value` to
/// `binding`. A handler that was declared without a widget to write fails
/// when it is called.
///
/// A handler acts on bindings only. What it writes shows in the tree with
/// the next render pass.
#[derive(Clone, Copy, Debug, PartialEq, Eq, Structural, Hash)]
pub struct OnEvent {
    pub on: EventType,
    pub binding: BindingId,
    pub value: Option<Index>,
}

impl OnEvent {
    /// A handler that writes `value` to `binding` on events of category `on`.
    pub fn new(on: EventType, binding: BindingId, value: Option<Index>) -> (handler: OnEvent)
        ensures
            handler == (OnEvent { on, binding, value }),
    {
        OnEvent { on, binding, value }
    }

    /// Whether the handler acts on `event`.
    pub fn accepts(&self, event: &Event) -> (r: bool)
        ensures
            r == (self.on == event.event_type),
    {
        self.on == event.event_type
    }
}

} // verus!
