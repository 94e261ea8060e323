//! The queue of input events: what the keyboard and mouse handlers put in
//! and the kernel's event loop takes out, first in, first out.
//!
//! The queue is a bounded queue of crossbeam; it holds each event as one
//! number.

use crossbeam_queue::ArrayQueue;
use vstd::prelude::*;

verus! {

/// Number of events that the queue can hold.
pub const EVENT_QUEUE_SIZE: usize = 128;

/// What happened to a key, with the key's code.
#[derive(Debug, Clone, Copy, PartialEq, Eq, Structural)]
pub enum KeyboardEvent {
    KeyPressed(u8),
    KeyReleased(u8),
    SingleShot(u8),
}

/// A snapshot of the mouse: its flags and how far it moved.
#[derive(Debug, Clone, Copy, PartialEq, Eq, Structural)]
pub struct MouseState {
    pub flags: u8,
    pub x: i16,
    pub y: i16,
}

/// An input event.
#[derive(Debug, Clone, Copy, PartialEq, Eq, Structural)]
pub enum Event {
    KeyboardEvent(KeyboardEvent),
    MouseEvent(MouseState),
}

/// The number that stands for an event in the queue: the kind in the two
/// lowest bits, the payload above them.
pub open spec fn event_code(event: Event) -> u64 {
    match event {
        Event::KeyboardEvent(KeyboardEvent::KeyPressed(code)) => (4 * code) as u64,
        Event::KeyboardEvent(KeyboardEvent::KeyReleased(code)) => (1 + 4 * code) as u64,
        Event::KeyboardEvent(KeyboardEvent::SingleShot(code)) => (2 + 4 * code) as u64,
        Event::MouseEvent(state) => (3 + 4 * (state.flags + 256 * ((state.x + 32768) + 65536 * (
        state.y + 32768)))) as u64,
    }
}

/// The event that a number stands for.
pub open spec fn event_of(code: u64) -> Event {
    let kind = code % 4;
    let payload = code / 4;
    if kind == 0 {
        Event::KeyboardEvent(KeyboardEvent::KeyPressed((payload % 256) as u8))
    } else if kind == 1 {
        Event::KeyboardEvent(KeyboardEvent::KeyReleased((payload % 256) as u8))
    } else if kind == 2 {
        Event::KeyboardEvent(KeyboardEvent::SingleShot((payload % 256) as u8))
    } else {
        Event::MouseEvent(
            MouseState {
                flags: (payload % 256) as u8,
                x: (((payload / 256) % 65536) - 32768) as i16,
                y: (((payload / 16777216) % 65536) - 32768) as i16,
            },
        )
    }
}

/// Every event is found again from its number.
pub proof fn lemma_event_code_round_trip(event: Event)
    ensures
        event_of(event_code(event)) == event,
{
}

/// Turns an event into its number.
pub fn encode_event(event: Event) -> (code: u64)
    ensures
        code == event_code(event),
{
    match event {
        Event::KeyboardEvent(KeyboardEvent::KeyPressed(code)) => 4 * (code as u64),
        Event::KeyboardEvent(KeyboardEvent::KeyReleased(code)) => 1 + 4 * (code as u64),
        Event::KeyboardEvent(KeyboardEvent::SingleShot(code)) => 2 + 4 * (code as u64),
        Event::MouseEvent(state) => {
            let x = (state.x as i64 + 32768) as u64;
            let y = (state.y as i64 + 32768) as u64;
            3 + 4 * (state.flags as u64 + 256 * (x + 65536 * y))
        },
    }
}

/// Turns a number back into the event it stands for.
pub fn decode_event(code: u64) -> (event: Event)
    ensures
        event == event_of(code),
{
    let kind = code % 4;
    let payload = code / 4;
    if kind == 0 {
        Event::KeyboardEvent(KeyboardEvent::KeyPressed((payload % 256) as u8))
    } else if kind == 1 {
        Event::KeyboardEvent(KeyboardEvent::KeyReleased((payload % 256) as u8))
    } else if kind == 2 {
        Event::KeyboardEvent(KeyboardEvent::SingleShot((payload % 256) as u8))
    } else {
        let x = ((payload / 256) % 65536) as i64 - 32768;
        let y = ((payload / 16777216) % 65536) as i64 - 32768;
        Event::MouseEvent(MouseState { flags: (payload % 256) as u8, x: x as i16, y: y as i16 })
    }
}

#[verifier::external_type_specification]
#[verifier::external_body]
#[verifier::reject_recursive_types(T)]
pub struct ExArrayQueue<T>(ArrayQueue<T>);

/// The items of a queue, oldest first.
pub uninterp spec fn queue_items(queue: ArrayQueue<u64>) -> Seq<u64>;

/// The capacity that a queue was made with.
pub uninterp spec fn queue_capacity(queue: ArrayQueue<u64>) -> nat;

/// `ArrayQueue::new` of crossbeam: an empty queue of the given capacity,
/// which must not be zero.
#[verifier::external_body]
fn queue_new(capacity: usize) -> (queue: ArrayQueue<u64>)
    requires
        0 < capacity <= 65536,
    ensures
        queue_items(queue) == Seq::<u64>::empty(),
        queue_capacity(queue) == capacity,
{
    ArrayQueue::new(capacity)
}

/// `ArrayQueue::push_mut` of crossbeam: puts the value behind the others
/// and returns `true`, or, if the queue is full, leaves the queue as it is
/// and returns `false`.
#[verifier::external_body]
fn queue_push(queue: &mut ArrayQueue<u64>, value: u64) -> (pushed: bool)
    ensures
        queue_capacity(*final(queue)) == queue_capacity(*old(queue)),
        pushed == (queue_items(*old(queue)).len() < queue_capacity(*old(queue))),
        queue_items(*final(queue)) == (if pushed {
            queue_items(*old(queue)).push(value)
        } else {
            queue_items(*old(queue))
        }),
{
    queue.push_mut(value).is_ok()
}

/// `ArrayQueue::pop_mut` of crossbeam: takes out the oldest value, or
/// returns `None` if the queue is empty.
#[verifier::external_body]
fn queue_pop(queue: &mut ArrayQueue<u64>) -> (value: Option<u64>)
    ensures
        queue_capacity(*final(queue)) == queue_capacity(*old(queue)),
        match value {
            Some(v) => queue_items(*old(queue)).len() > 0 && v == queue_items(*old(queue))[0]
                && queue_items(*final(queue)) == queue_items(*old(queue)).drop_first(),
            None => queue_items(*old(queue)).len() == 0 && queue_items(*final(queue))
                == queue_items(*old(queue)),
        },
{
    queue.pop_mut()
}

/// `ArrayQueue::is_empty` of crossbeam: whether the queue holds nothing.
#[verifier::external_body]
fn queue_is_empty(queue: &ArrayQueue<u64>) -> (empty: bool)
    ensures
        empty == (queue_items(*queue).len() == 0),
{
    queue.is_empty()
}

/// The queue of input events.
pub struct EventQueue {
    queue: ArrayQueue<u64>,
}

impl EventQueue {
    /// The events in the queue, oldest first.
    pub closed spec fn events(&self) -> Seq<Event> {
        queue_items(self.queue).map_values(|code: u64| event_of(code))
    }

    /// The queue holds at most `EVENT_QUEUE_SIZE` events.
    pub closed spec fn wf(&self) -> bool {
        queue_capacity(self.queue) == EVENT_QUEUE_SIZE && queue_items(self.queue).len()
            <= EVENT_QUEUE_SIZE
    }

    /// An empty queue.
    pub fn new() -> (queue: Self)
        ensures
            queue.wf(),
            queue.events() == Seq::<Event>::empty(),
    {
        let queue = EventQueue { queue: queue_new(EVENT_QUEUE_SIZE) };
        assert(queue.events() =~= Seq::<Event>::empty());
        queue
    }
}

/// Puts an event in the queue. If the queue is full the event is dropped,
/// and `false` is returned.
pub fn push_event(queue: &mut EventQueue, event: Event) -> (accepted: bool)
    requires
        old(queue).wf(),
    ensures
        final(queue).wf(),
        accepted == (old(queue).events().len() < EVENT_QUEUE_SIZE),
        final(queue).events() == (if accepted {
            old(queue).events().push(event)
        } else {
            old(queue).events()
        }),
{
    let code = encode_event(event);
    proof {
        lemma_event_code_round_trip(event);
    }
    let accepted = queue_push(&mut queue.queue, code);
    proof {
        if accepted {
            assert(queue.events() =~= old(queue).events().push(event));
        }
    }
    accepted
}

/// Takes the oldest event out of the queue, if there is one.
pub fn pop_event(queue: &mut EventQueue) -> (event: Option<Event>)
    requires
        old(queue).wf(),
    ensures
        final(queue).wf(),
        match event {
            Some(e) => old(queue).events().len() > 0 && e == old(queue).events()[0] && final(queue).events() == old(queue).events().drop_first(),
            None => old(queue).events().len() == 0 && final(queue).events() == old(queue).events(),
        },
{
    match queue_pop(&mut queue.queue) {
        Some(code) => {
            proof {
                assert(queue.events() =~= old(queue).events().drop_first());
            }
            Some(decode_event(code))
        },
        None => None,
    }
}

/// Whether the queue holds an event.
pub fn has_events(queue: &EventQueue) -> (some: bool)
    ensures
        some == (queue.events().len() > 0),
{
    !queue_is_empty(&queue.queue)
}

} // verus!
