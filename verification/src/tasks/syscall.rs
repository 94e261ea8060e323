//! Processor set-up for the fast system-call instructions: the values that
//! go into the control registers and the model-specific registers, and the
//! dispatcher that the system-call entry calls.

use crate::gdt::Selectors;
use vstd::prelude::*;
use x86_64::registers::control::{Cr0Flags, Cr4Flags};
use x86_64::registers::model_specific::EferFlags;
use x86_64::registers::rflags::RFlags;

verus! {

/// Size of the kernel stack that the system-call entry switches to.
pub const SYSCALL_STACK_SIZE: usize = 16384;

/// Number of the model-specific register STAR.
pub const STAR_MSR: u32 = 0xC000_0081;

/// The bits of the flags that set-up touches.
#[derive(Debug, Clone, Copy, PartialEq, Eq, Structural)]
pub struct ControlBits {
    pub cr0_monitor_coprocessor: u64,
    pub cr0_numeric_error: u64,
    pub cr0_alignment_mask: u64,
    pub cr0_not_write_through: u64,
    pub cr0_cache_disable: u64,
    pub cr4_timestamp_disable: u64,
    pub cr4_machine_check_exception: u64,
    pub cr4_page_global: u64,
    pub cr4_performance_monitor_counter: u64,
    pub cr4_fsgsbase: u64,
    pub efer_system_call_extensions: u64,
    pub rflags_interrupt_flag: u64,
}

/// The positions that the architecture gives those flags.
pub open spec fn architected_bits() -> ControlBits {
    ControlBits {
        cr0_monitor_coprocessor: 0x2,
        cr0_numeric_error: 0x20,
        cr0_alignment_mask: 0x4_0000,
        cr0_not_write_through: 0x2000_0000,
        cr0_cache_disable: 0x4000_0000,
        cr4_timestamp_disable: 0x4,
        cr4_machine_check_exception: 0x40,
        cr4_page_global: 0x80,
        cr4_performance_monitor_counter: 0x100,
        cr4_fsgsbase: 0x1_0000,
        efer_system_call_extensions: 0x1,
        rflags_interrupt_flag: 0x200,
    }
}

/// The `bits` of the flag constants of x86_64's `Cr0Flags`, `Cr4Flags`,
/// `EferFlags` and `RFlags`: each constant is one bit, at the position that
/// the architecture gives the flag.
#[verifier::external_body]
fn control_bits() -> (bits: ControlBits)
    ensures
        bits == architected_bits(),
{
    ControlBits {
        cr0_monitor_coprocessor: Cr0Flags::MONITOR_COPROCESSOR.bits(),
        cr0_numeric_error: Cr0Flags::NUMERIC_ERROR.bits(),
        cr0_alignment_mask: Cr0Flags::ALIGNMENT_MASK.bits(),
        cr0_not_write_through: Cr0Flags::NOT_WRITE_THROUGH.bits(),
        cr0_cache_disable: Cr0Flags::CACHE_DISABLE.bits(),
        cr4_timestamp_disable: Cr4Flags::TIMESTAMP_DISABLE.bits(),
        cr4_machine_check_exception: Cr4Flags::MACHINE_CHECK_EXCEPTION.bits(),
        cr4_page_global: Cr4Flags::PAGE_GLOBAL.bits(),
        cr4_performance_monitor_counter: Cr4Flags::PERFORMANCE_MONITOR_COUNTER.bits(),
        cr4_fsgsbase: Cr4Flags::FSGSBASE.bits(),
        efer_system_call_extensions: EferFlags::SYSTEM_CALL_EXTENSIONS.bits(),
        rflags_interrupt_flag: RFlags::INTERRUPT_FLAG.bits(),
    }
}

/// The features of the processor that set-up asks about.
#[derive(Debug, Clone, Copy, PartialEq, Eq, Structural)]
pub struct CpuFeatures {
    /// Global pages are supported.
    pub pge: bool,
    /// The instructions that read and write the FS and GS bases are
    /// supported.
    pub fsgsbase: bool,
    /// Machine-check exceptions are supported.
    pub mce: bool,
}

/// What set-up writes: the new control registers and the model-specific
/// registers of the fast system call.
#[derive(Debug, Clone, Copy, PartialEq, Eq, Structural)]
pub struct SyscallSetup {
    pub cr0: u64,
    pub cr4: u64,
    pub efer: u64,
    /// Entry point of system calls.
    pub lstar: u64,
    /// The flags that the processor clears on entry.
    pub sfmask: u64,
    /// The selectors for entry and return.
    pub star: u64,
}

/// CR0 after set-up: alignment mask, numeric error and monitor coprocessor
/// set, the cache enabled.
pub open spec fn cr0_after(cr0: u64) -> u64 {
    (((cr0 | 0x4_0000) | 0x20) | 0x2) & !(0x4000_0000u64 | 0x2000_0000u64)
}

/// CR4 after set-up: the performance counter and the time stamp open to
/// user mode, and each supported feature enabled.
pub open spec fn cr4_after(cr4: u64, features: CpuFeatures) -> u64 {
    let cleared = cr4 & !(0x100u64 | 0x4u64);
    let global = if features.pge {
        cleared | 0x80
    } else {
        cleared
    };
    let bases = if features.fsgsbase {
        global | 0x1_0000
    } else {
        global
    };
    if features.mce {
        bases | 0x40
    } else {
        bases
    }
}

/// The value of STAR: the base selector for the return to user mode in
/// bits 48 to 63 and the kernel code selector in bits 32 to 47. The base
/// is the user data selector, without its privilege level, less 8, so that
/// base plus 8 selects user data and base plus 16 selects user code.
pub open spec fn star_of(selectors: Selectors) -> u64 {
    ((((selectors.user_data & !3u16) - 8) as u64) << 48) | ((selectors.code as u64) << 32)
}

/// Computes STAR from the selectors of the descriptor table.
pub fn star_value(selectors: &Selectors) -> (star: u64)
    requires
        selectors.user_data >= 8,
    ensures
        star == star_of(*selectors),
        *selectors == crate::gdt::layout() ==> star == 0x0010_0008_0000_0000,
{
    assert((0x1bu16 & !3u16) == 0x18 && ((0x10u64 << 48) | (0x08u64 << 32)) == 0x0010_0008_0000_0000)
        by (bit_vector);
    let user_data = selectors.user_data;
    assert(user_data & !3u16 >= 8) by (bit_vector)
        requires
            user_data >= 8,
    ;
    let syscall_cs: u64 = selectors.code as u64;
    let sysret_base: u64 = ((selectors.user_data & !3) - 8) as u64;
    (sysret_base << 48) | (syscall_cs << 32)
}

/// Computes what set-up writes, from the current control registers, the
/// processor's features, the selectors and the address of the system-call
/// entry.
///
/// The interrupt-enable flag goes into the mask, so that the processor
/// clears it on entry: the entry enables interrupts again only after it has
/// switched to the kernel stack.
pub fn init_syscalls(
    cr0: u64,
    cr4: u64,
    efer: u64,
    features: CpuFeatures,
    selectors: &Selectors,
    handler: u64,
) -> (setup: SyscallSetup)
    requires
        selectors.user_data >= 8,
    ensures
        setup == (SyscallSetup {
            cr0: cr0_after(cr0),
            cr4: cr4_after(cr4, features),
            efer: efer | 0x1,
            lstar: handler,
            sfmask: 0x200,
            star: star_of(*selectors),
        }),
{
    let bits = control_bits();
    let mut new_cr0 = cr0;
    new_cr0 = new_cr0 | bits.cr0_alignment_mask;
    new_cr0 = new_cr0 | bits.cr0_numeric_error;
    new_cr0 = new_cr0 | bits.cr0_monitor_coprocessor;
    new_cr0 = new_cr0 & !(bits.cr0_cache_disable | bits.cr0_not_write_through);
    let mut new_cr4 = cr4;
    new_cr4 = new_cr4 & !(bits.cr4_performance_monitor_counter | bits.cr4_timestamp_disable);
    if features.pge {
        new_cr4 = new_cr4 | bits.cr4_page_global;
    }
    if features.fsgsbase {
        new_cr4 = new_cr4 | bits.cr4_fsgsbase;
    }
    if features.mce {
        new_cr4 = new_cr4 | bits.cr4_machine_check_exception;
    }
    SyscallSetup {
        cr0: new_cr0,
        cr4: new_cr4,
        efer: efer | bits.efer_system_call_extensions,
        lstar: handler,
        sfmask: bits.rflags_interrupt_flag,
        star: star_value(selectors),
    }
}

/// A system call as the entry hands it to the dispatcher: the number from
/// `rax` and the arguments from `rdi`, `rsi`, `rdx`, `r10` and `r8`.
#[derive(Debug, Clone, Copy, PartialEq, Eq, Structural)]
pub struct SyscallRequest {
    pub number: u64,
    pub arg1: u64,
    pub arg2: u64,
    pub arg3: u64,
    pub arg4: u64,
    pub arg5: u64,
}

/// The registers at a `syscall` instruction, as the dispatcher's request:
/// the fourth argument comes from `r10`, because the instruction itself
/// overwrites `rcx`.
pub fn request_of(rax: u64, rdi: u64, rsi: u64, rdx: u64, r10: u64, r8: u64) -> (request:
    SyscallRequest)
    ensures
        request == (SyscallRequest {
            number: rax,
            arg1: rdi,
            arg2: rsi,
            arg3: rdx,
            arg4: r10,
            arg5: r8,
        }),
{
    SyscallRequest { number: rax, arg1: rdi, arg2: rsi, arg3: rdx, arg4: r10, arg5: r8 }
}

/// The dispatcher of system calls. No call is defined yet: every request
/// returns zero, which the entry leaves in `rax`.
pub fn syscall_entry(
    syscall_num: u64,
    arg1: u64,
    arg2: u64,
    arg3: u64,
    arg4: u64,
    arg5: u64,
) -> (result: u64)
    ensures
        result == 0,
{
    0
}

} // verus!
