//! The plain timer handler, used before tasks are scheduled.

use vstd::prelude::*;

verus! {

/// The mark that the handler prints for a tick: `u` if the tick interrupted
/// code in ring 3, `.` otherwise. The ring is the requested privilege level
/// of the interrupted code selector.
pub fn timer_interrupt_handler(code_segment: u16) -> (mark: char)
    ensures
        mark == (if code_segment & 3 == 3 {
            'u'
        } else {
            '.'
        }),
{
    if (code_segment & 3) == 3 {
        'u'
    } else {
        '.'
    }
}

} // verus!
