//! From complete mouse packets to input events.

use crate::events::{push_event, Event, EventQueue, MouseState, EVENT_QUEUE_SIZE};
use vstd::prelude::*;

verus! {

/// Queues the event for a complete mouse packet. Returns whether the queue
/// took it.
pub fn handle_on_complete(queue: &mut EventQueue, state: MouseState) -> (accepted: bool)
    requires
        old(queue).wf(),
    ensures
        final(queue).wf(),
        accepted == (old(queue).events().len() < EVENT_QUEUE_SIZE),
        final(queue).events() == (if accepted {
            old(queue).events().push(Event::MouseEvent(state))
        } else {
            old(queue).events()
        }),
{
    push_event(queue, Event::MouseEvent(state))
}

} // verus!
