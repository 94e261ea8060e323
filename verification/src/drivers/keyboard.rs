//! From decoded keys to input events.

use crate::events::{push_event, Event, EventQueue, KeyboardEvent, EVENT_QUEUE_SIZE};
use vstd::prelude::*;

verus! {

/// What the decoder says happened to a key.
#[derive(Debug, Clone, Copy, PartialEq, Eq, Structural)]
pub enum KeyState {
    Up,
    Down,
    SingleShot,
}

/// The event for a decoded key.
pub open spec fn key_event(state: KeyState, code: u8) -> KeyboardEvent {
    match state {
        KeyState::Down => KeyboardEvent::KeyPressed(code),
        KeyState::Up => KeyboardEvent::KeyReleased(code),
        KeyState::SingleShot => KeyboardEvent::SingleShot(code),
    }
}

/// Queues the event for a key that the decoder has recognised. Returns
/// whether the queue took it.
pub fn keyboard_interrupt_handler(queue: &mut EventQueue, state: KeyState, code: u8) -> (accepted:
    bool)
    requires
        old(queue).wf(),
    ensures
        final(queue).wf(),
        accepted == (old(queue).events().len() < EVENT_QUEUE_SIZE),
        final(queue).events() == (if accepted {
            old(queue).events().push(Event::KeyboardEvent(key_event(state, code)))
        } else {
            old(queue).events()
        }),
{
    let event = match state {
        KeyState::Down => KeyboardEvent::KeyPressed(code),
        KeyState::Up => KeyboardEvent::KeyReleased(code),
        KeyState::SingleShot => KeyboardEvent::SingleShot(code),
    };
    push_event(queue, Event::KeyboardEvent(event))
}

} // verus!
