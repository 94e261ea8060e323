//! Segment selectors of the descriptor table.
//!
//! The table holds, after the null descriptor: kernel code, kernel data,
//! user data, user code, and the task-state segment. User data comes before
//! user code so that one base value serves the fast system-call return: base
//! plus 8 selects user data and base plus 16 selects user code.

use vstd::prelude::*;
use x86_64::structures::gdt::{Descriptor, GlobalDescriptorTable};
use x86_64::structures::tss::TaskStateSegment;

verus! {

/// Interrupt-stack-table slot of the double-fault handler.
pub const DOUBLE_FAULT_IST_INDEX: u16 = 0;

/// Interrupt-stack-table slot of the page-fault handler.
pub const PAGE_FAULT_IST_INDEX: u16 = 1;

/// Interrupt-stack-table slot of the general-protection-fault handler.
pub const GENERAL_PROTECTION_FAULT_IST_INDEX: u16 = 2;

/// The selectors of the five descriptors, each with the privilege level of
/// its descriptor as requested level.
#[derive(Clone, Copy, Debug, PartialEq, Eq, Structural)]
pub struct Selectors {
    pub code: u16,
    pub data: u16,
    pub user_code: u16,
    pub user_data: u16,
    pub tss: u16,
}

/// The selectors of the table's layout.
pub open spec fn layout() -> Selectors {
    Selectors { code: 0x08, data: 0x10, user_code: 0x23, user_data: 0x1b, tss: 0x28 }
}

/// The descriptors of the table.
#[derive(Clone, Copy, Debug, PartialEq, Eq, Structural)]
pub enum Segment {
    KernelCode,
    KernelData,
    UserData,
    UserCode,
    TaskState,
}

/// The privilege level of a descriptor: 3 for the user segments, 0 for
/// the kernel's and for the task-state segment.
pub open spec fn privilege(segment: Segment) -> nat {
    match segment {
        Segment::KernelCode => 0,
        Segment::KernelData => 0,
        Segment::UserData => 3,
        Segment::UserCode => 3,
        Segment::TaskState => 0,
    }
}

#[verifier::external_type_specification]
#[verifier::external_body]
pub struct ExGlobalDescriptorTable<const MAX: usize>(GlobalDescriptorTable<MAX>);

#[verifier::external_type_specification]
#[verifier::external_body]
pub struct ExTaskStateSegment(TaskStateSegment);

/// What a slot of the table holds: the null descriptor, a descriptor (of
/// the task-state segment its lower half), or the upper half of the
/// descriptor of the task-state segment.
#[derive(Clone, Copy, Debug, PartialEq, Eq, Structural)]
pub enum Slot {
    Null,
    Segment(Segment),
    TaskStateUpper,
}

/// The slots that a descriptor fills: one, or two for the task-state
/// segment.
pub open spec fn slots_of(segment: Segment) -> Seq<Slot> {
    match segment {
        Segment::TaskState => seq![Slot::Segment(segment), Slot::TaskStateUpper],
        _ => seq![Slot::Segment(segment)],
    }
}

/// The slots of a table that are in use, in order.
pub uninterp spec fn table_slots(table: GlobalDescriptorTable<8>) -> Seq<Slot>;

/// The slots of the table's layout.
pub open spec fn slots_layout() -> Seq<Slot> {
    seq![
        Slot::Null,
        Slot::Segment(Segment::KernelCode),
        Slot::Segment(Segment::KernelData),
        Slot::Segment(Segment::UserData),
        Slot::Segment(Segment::UserCode),
        Slot::Segment(Segment::TaskState),
        Slot::TaskStateUpper,
    ]
}

/// `GlobalDescriptorTable::new` of x86_64: a table of eight slots, of which
/// the first holds the null descriptor.
#[verifier::external_body]
fn table_new() -> (table: GlobalDescriptorTable<8>)
    ensures
        table_slots(table) == seq![Slot::Null],
{
    GlobalDescriptorTable::new()
}

/// `GlobalDescriptorTable::append` of x86_64, with the descriptor that
/// x86_64 makes for `segment` (for the task-state segment, of `tss`): the
/// descriptor fills the next slot, or the next two for the task-state
/// segment, and the slots before stay; the selector returned is the first
/// of these slots' index times eight plus the descriptor's privilege
/// level. The table must have the slots free.
#[verifier::external_body]
fn table_append(
    table: &mut GlobalDescriptorTable<8>,
    segment: Segment,
    tss: &'static TaskStateSegment,
) -> (selector: u16)
    requires
        table_slots(*old(table)).len() + slots_of(segment).len() <= 8,
    ensures
        selector == table_slots(*old(table)).len() * 8 + privilege(segment),
        table_slots(*final(table)) == table_slots(*old(table)) + slots_of(segment),
{
    let descriptor = match segment {
        Segment::KernelCode => Descriptor::kernel_code_segment(),
        Segment::KernelData => Descriptor::kernel_data_segment(),
        Segment::UserData => Descriptor::user_data_segment(),
        Segment::UserCode => Descriptor::user_code_segment(),
        Segment::TaskState => Descriptor::tss_segment(tss),
    };
    table.append(descriptor).0
}

/// Builds the descriptor table for the task-state segment `tss`: kernel
/// code, kernel data, user data, user code and the task-state segment, in
/// that order, behind the null descriptor. Returns the table, to be loaded,
/// and the selectors that the table handed out.
pub fn build(tss: &'static TaskStateSegment) -> (built: (GlobalDescriptorTable<8>, Selectors))
    ensures
        built.1 == layout(),
        table_slots(built.0) == slots_layout(),
{
    let mut table = table_new();
    let code = table_append(&mut table, Segment::KernelCode, tss);
    let data = table_append(&mut table, Segment::KernelData, tss);
    let user_data = table_append(&mut table, Segment::UserData, tss);
    let user_code = table_append(&mut table, Segment::UserCode, tss);
    let task_state = table_append(&mut table, Segment::TaskState, tss);
    assert(table_slots(table) =~= slots_layout());
    (table, Selectors { code, data, user_code, user_data, tss: task_state })
}

/// The selectors of the descriptor table that `build` makes.
pub fn selectors() -> (s: Selectors)
    ensures
        s == layout(),
{
    Selectors { code: 0x08, data: 0x10, user_code: 0x23, user_data: 0x1b, tss: 0x28 }
}

} // verus!
