//! The task record and the register file that is saved and restored when
//! tasks are switched.

use crate::gdt::selectors;
use crate::mm::slub::{provider_ok, PageProvider};
use crate::mm::user::{
    grant_user_access, set_page_user_accessible, walk_present, AddressSpace,
};
use crate::mm::window::{page_base, WordMemory};
use crate::tasks::elf::{
    fill_page, first_defect, header_of, image_pages, image_resident, image_word, load_elf,
    load_step, load_stopped, mapped_only, Error, ProgramHeader, PT_LOAD, USER_STACK_TOP,
};
use vstd::prelude::*;

verus! {

/// Size of each task's kernel stack.
pub const KERNEL_STACK_SIZE: u64 = 4096;

/// Size of the user stack of a task that is started from bare code.
pub const USER_STACK_SIZE: u64 = 4096;

/// The interrupt-enable bit of the flags register.
pub const INTERRUPT_FLAG: u64 = 0x200;

/// The register file of a suspended task, in the order in which the timer
/// entry pushes it: the general-purpose registers, then the frame that the
/// processor pushes on an interrupt.
#[derive(Debug, Clone, Copy, PartialEq, Eq, Structural)]
pub struct TaskContext {
    pub r15: u64,
    pub r14: u64,
    pub r13: u64,
    pub r12: u64,
    pub r11: u64,
    pub r10: u64,
    pub r9: u64,
    pub r8: u64,
    pub rbp: u64,
    pub rdi: u64,
    pub rsi: u64,
    pub rdx: u64,
    pub rcx: u64,
    pub rbx: u64,
    pub rax: u64,
    pub rip: u64,
    pub cs: u64,
    pub rflags: u64,
    pub rsp: u64,
    pub ss: u64,
}

impl TaskContext {
    /// The context in which every register is zero.
    pub open spec fn zeroed() -> TaskContext {
        TaskContext {
            r15: 0,
            r14: 0,
            r13: 0,
            r12: 0,
            r11: 0,
            r10: 0,
            r9: 0,
            r8: 0,
            rbp: 0,
            rdi: 0,
            rsi: 0,
            rdx: 0,
            rcx: 0,
            rbx: 0,
            rax: 0,
            rip: 0,
            cs: 0,
            rflags: 0,
            rsp: 0,
            ss: 0,
        }
    }

    /// The context of a user task that has not run yet.
    pub open spec fn user(entry_point: u64, user_stack_top: u64) -> TaskContext {
        TaskContext {
            rip: entry_point,
            cs: 0x23,
            rflags: 0x200,
            rsp: user_stack_top,
            ss: 0x1b,
            ..TaskContext::zeroed()
        }
    }

    /// A context resumes in ring 3 with interrupts enabled: the code and
    /// stack selectors request privilege level 3, the stack selector is the
    /// user data selector, and the interrupt-enable flag is set.
    pub open spec fn is_user(&self) -> bool {
        &&& self.cs % 4 == 3
        &&& self.ss == 0x1b
        &&& (self.rflags / 0x200) % 2 == 1
    }

    /// Creates the context of a user task that starts at `entry_point` with
    /// its stack pointer at `user_stack_top`: general-purpose registers
    /// zero, user selectors with requested privilege level 3, interrupts
    /// enabled.
    pub fn new_user(entry_point: u64, user_stack_top: u64) -> (context: Self)
        ensures
            context == TaskContext::user(entry_point, user_stack_top),
            context.is_user(),
    {
        let s = selectors();
        assert(0x23u16 | 3 == 0x23 && 0x1bu16 | 3 == 0x1b) by (bit_vector);
        let user_code = (s.user_code | 3) as u64;
        let user_data = (s.user_data | 3) as u64;
        TaskContext {
            r15: 0,
            r14: 0,
            r13: 0,
            r12: 0,
            r11: 0,
            r10: 0,
            r9: 0,
            r8: 0,
            rbp: 0,
            rdi: 0,
            rsi: 0,
            rdx: 0,
            rcx: 0,
            rbx: 0,
            rax: 0,
            rip: entry_point,
            cs: user_code,
            rflags: INTERRUPT_FLAG,
            rsp: user_stack_top,
            ss: user_data,
        }
    }
}

impl Default for TaskContext {
    fn default() -> (context: Self)
        ensures
            context == TaskContext::zeroed(),
    {
        TaskContext {
            r15: 0,
            r14: 0,
            r13: 0,
            r12: 0,
            r11: 0,
            r10: 0,
            r9: 0,
            r8: 0,
            rbp: 0,
            rdi: 0,
            rsi: 0,
            rdx: 0,
            rcx: 0,
            rbx: 0,
            rax: 0,
            rip: 0,
            cs: 0,
            rflags: 0,
            rsp: 0,
            ss: 0,
        }
    }
}

/// State of a task.
#[derive(Debug, Clone, Copy, PartialEq, Eq, Structural)]
pub enum TaskState {
    Ready,
    Running,
    Blocked,
}

/// Hands out task identifiers, counting up from 1.
pub struct TaskIds {
    next: u64,
}

impl TaskIds {
    /// The identifier that the next task receives.
    pub closed spec fn next_id(&self) -> u64 {
        self.next
    }

    /// A source whose first identifier is 1.
    pub fn new() -> (ids: Self)
        ensures
            ids.next_id() == 1,
    {
        TaskIds { next: 1 }
    }

    /// Takes the next identifier. The counter wraps around after the
    /// largest value.
    pub fn take(&mut self) -> (id: u64)
        ensures
            id == old(self).next_id(),
            final(self).next_id() == (if id == u64::MAX {
                0
            } else {
                (id + 1) as u64
            }),
    {
        let id = self.next;
        self.next = if id == u64::MAX {
            0
        } else {
            id + 1
        };
        id
    }
}

/// A task: its identifier, state and saved registers, and the bottom of its
/// private kernel stack, which interrupts use while the task runs.
#[derive(Debug, Clone, Copy, PartialEq, Eq, Structural)]
pub struct Task {
    pub id: u64,
    pub state: TaskState,
    pub context: TaskContext,
    pub kernel_stack: u64,
}

/// The segment that stands for the code of a task that is started from
/// bare code: the first page-full of the code, at the code page.
pub open spec fn code_segment(code_page: u64, len: nat) -> ProgramHeader {
    ProgramHeader {
        p_type: PT_LOAD,
        p_flags: 1,
        p_offset: 0,
        p_vaddr: code_page,
        p_filesz: (if len <= 4096 {
            len
        } else {
            4096
        }) as u64,
        p_memsz: 4096,
    }
}

impl Task {
    /// Creates a task that runs bare code.
    ///
    /// The page of the user stack is made user accessible and writable, the
    /// code page user accessible and executable; then the code, up to one
    /// page of it, is copied to the code page, and the rest of the page is
    /// zeroed. The task starts at the code page, with its stack pointer at
    /// the end of the user stack. The tables of the walks of both pages
    /// must exist.
    pub fn new<M: WordMemory>(
        ids: &mut TaskIds,
        entry_code: &[u8],
        mem: &mut M,
        space: &AddressSpace,
        user_stack: u64,
        kernel_stack: u64,
        code_page: u64,
    ) -> (task: Task)
        requires
            space.wf(),
            user_stack <= u64::MAX - USER_STACK_SIZE,
            code_page % 4096 == 0,
            code_page <= u64::MAX - 8191,
            walk_present(old(mem)@, *space, user_stack),
            walk_present(
                grant_user_access(old(mem)@, *space, user_stack, true, false),
                *space,
                code_page,
            ),
        ensures
            task == (Task {
                id: old(ids).next_id(),
                state: TaskState::Ready,
                context: TaskContext::user(code_page, (user_stack + USER_STACK_SIZE) as u64),
                kernel_stack,
            }),
            final(ids).next_id() == (if task.id == u64::MAX {
                0
            } else {
                (task.id + 1) as u64
            }),
            forall|j: u64|
                j < 512 ==> #[trigger] final(mem)@[(code_page + 8 * j) as u64] == image_word(
                    entry_code@,
                    Some(code_segment(code_page, entry_code@.len())),
                    code_page + 8 * j,
                ),
            forall|addr: u64|
                page_base(addr) != code_page ==> #[trigger] final(mem)@[addr] == grant_user_access(
                    grant_user_access(old(mem)@, *space, user_stack, true, false),
                    *space,
                    code_page,
                    false,
                    true,
                )[addr],
    {
        let id = ids.take();
        set_page_user_accessible(mem, space, user_stack, true, false);
        set_page_user_accessible(mem, space, code_page, false, true);
        let copy_len = if entry_code.len() <= 4096 {
            entry_code.len()
        } else {
            4096
        };
        let segment = ProgramHeader {
            p_type: PT_LOAD,
            p_flags: 1,
            p_offset: 0,
            p_vaddr: code_page,
            p_filesz: copy_len as u64,
            p_memsz: 4096,
        };
        proof {
            let end = code_page + 4096 + 4095;
            assert(end - end % 4096 == code_page + 4096) by {
                lemma_next_page(code_page);
            }
        }
        fill_page(mem, code_page, entry_code, Some(segment), code_page);
        let context = TaskContext::new_user(code_page, user_stack + USER_STACK_SIZE);
        Task { id, state: TaskState::Ready, context, kernel_stack }
    }

    /// Creates a task from an executable: takes the next identifier, loads
    /// the file into the address space, and starts the task at the file's
    /// entry point with its stack pointer at the top of the user stack.
    /// The identifier is spent even if loading fails; what then holds of
    /// the address space is what the loader says.
    pub fn from_elf<M: WordMemory, P: PageProvider>(
        ids: &mut TaskIds,
        elf_data: &[u8],
        mem: &mut M,
        provider: &mut P,
        space: &mut AddressSpace,
        kernel_stack: u64,
    ) -> (task: Result<Task, Error>)
        requires
            old(space).tree_inv(old(mem)@, old(provider)),
            provider_ok(old(provider), old(mem)@),
        ensures
            final(space).tree_inv(final(mem)@, final(provider)),
            provider_ok(final(provider), final(mem)@),
            load_step(*old(space), old(mem)@, old(provider), *final(space), final(mem)@, final(provider)),
            final(ids).next_id() == (if old(ids).next_id() == u64::MAX {
                0
            } else {
                (old(ids).next_id() + 1) as u64
            }),
            first_defect(elf_data@) is None ==> mapped_only(
                *old(space),
                old(mem)@,
                *final(space),
                final(mem)@,
                image_pages(elf_data@),
            ),
            match first_defect(elf_data@) {
                Some(e) => {
                    &&& task == Err::<Task, Error>(Error::InvalidElf(e))
                    &&& final(mem)@ == old(mem)@
                    &&& *final(space) == *old(space)
                    &&& forall|q: u64| final(provider).holds(q) == old(provider).holds(q)
                },
                None => match task {
                    Ok(task) => {
                        &&& task == (Task {
                            id: old(ids).next_id(),
                            state: TaskState::Ready,
                            context: TaskContext::user(
                                header_of(elf_data@)->Ok_0.entry,
                                USER_STACK_TOP,
                            ),
                            kernel_stack,
                        })
                        &&& task.context.is_user()
                        &&& image_resident(elf_data@, final(mem)@, *final(space), final(provider))
                    },
                    Err(Error::MappingFailed(e)) => load_stopped(
                        elf_data@,
                        *old(space),
                        old(mem)@,
                        old(provider),
                        *final(space),
                        final(mem)@,
                        final(provider),
                        e,
                    ),
                    Err(Error::InvalidElf(_)) => false,
                },
            },
    {
        let id = ids.take();
        let loaded = match load_elf(elf_data, mem, provider, space) {
            Ok(loaded) => loaded,
            Err(e) => {
                return Err(e);
            },
        };
        let context = TaskContext::new_user(loaded.entry_point, loaded.stack_top);
        Ok(Task { id, state: TaskState::Ready, context, kernel_stack })
    }
}

/// The page after a page address, found by rounding up.
proof fn lemma_next_page(page: u64)
    by (bit_vector)
    requires
        page % 4096 == 0,
        page <= u64::MAX - 8191,
    ensures
        ((page + 8191) as u64 - ((page + 8191) as u64) % 4096) as u64 == (page + 4096) as u64,
        ((page + 8191) as u64) % 4096 <= (page + 8191) as u64,
{
}

impl Task {
    /// The address just above the kernel stack.
    pub open spec fn spec_kernel_stack_top(&self) -> u64 {
        (self.kernel_stack + KERNEL_STACK_SIZE) as u64
    }

    /// The kernel stack lies inside the address space.
    pub open spec fn wf(&self) -> bool {
        self.kernel_stack <= u64::MAX - KERNEL_STACK_SIZE
    }

    /// The address just above the kernel stack.
    pub fn kernel_stack_top(&self) -> (top: u64)
        requires
            self.wf(),
        ensures
            top == self.spec_kernel_stack_top(),
    {
        self.kernel_stack + KERNEL_STACK_SIZE
    }
}

} // verus!
