//! What happens to the saved registers on a timer tick and on the first
//! entry into user mode.
//!
//! The interrupt entry pushes the registers of the interrupted task so that
//! the stack holds a `TaskContext`, calls `timer_tick` on it, pops the
//! registers and returns from the interrupt. Whatever `timer_tick` leaves in
//! the context is what the processor resumes.

use crate::tasks::scheduler::{next_index, Scheduler};
use crate::tasks::task::{Task, TaskContext, TaskState};
use vstd::prelude::*;

verus! {

/// What a timer tick did.
#[derive(Debug, Clone, Copy, PartialEq, Eq, Structural)]
pub enum Tick {
    /// The scheduler has not been started; nothing changed.
    NotStarted {
        /// Whether the interrupted code ran in ring 3.
        from_usermode: bool,
    },
    /// The scheduler was consulted.
    Scheduled {
        /// The task that was current when the tick arrived.
        task_id: Option<u64>,
        /// If tasks were switched, the top of the incoming task's kernel
        /// stack, to be stored in the privileged stack slot of the
        /// task-state segment.
        kernel_stack_top: Option<u64>,
    },
}

/// Whether a code selector requests privilege level 3.
pub open spec fn selector_is_user(cs: u64) -> bool {
    cs & 3 == 3
}

/// The tasks after a switch away from `out`, whose registers at the tick
/// were `saved`, to `inc`.
pub open spec fn tasks_after_switch(tasks: Seq<Task>, out: int, inc: int, saved: TaskContext) -> Seq<
    Task,
> {
    tasks.update(out, Task { state: TaskState::Ready, context: saved, ..tasks[out] }).update(
        inc,
        Task {
            state: TaskState::Running,
            ..tasks.update(out, Task { state: TaskState::Ready, context: saved, ..tasks[out] })[inc]
        },
    )
}

/// Handles a timer tick that interrupted the code whose registers are in
/// `context`.
///
/// Before the scheduler is started nothing changes. After that the
/// scheduler rotates; if it switched, the interrupted registers are stored
/// as the outgoing task's context and `context` receives the incoming
/// task's. The caller acknowledges the interrupt after this returns.
pub fn timer_tick(context: &mut TaskContext, scheduler: &mut Scheduler) -> (tick: Tick)
    requires
        old(scheduler).wf(),
    ensures
        final(scheduler).wf(),
        final(scheduler).started() == old(scheduler).started(),
        !old(scheduler).started() ==> {
            &&& tick == (Tick::NotStarted { from_usermode: selector_is_user(old(context).cs) })
            &&& *final(context) == *old(context)
            &&& final(scheduler).tasks() == old(scheduler).tasks()
            &&& final(scheduler).current() == old(scheduler).current()
        },
        old(scheduler).started() && old(scheduler).tasks().len() < 2 ==> {
            &&& tick == (Tick::Scheduled {
                task_id: Some(old(scheduler).tasks()[old(scheduler).current()].id),
                kernel_stack_top: None,
            })
            &&& *final(context) == *old(context)
            &&& final(scheduler).tasks() == old(scheduler).tasks()
            &&& final(scheduler).current() == old(scheduler).current()
        },
        old(scheduler).started() && old(scheduler).tasks().len() >= 2 ==> {
            let tasks = old(scheduler).tasks();
            let out = old(scheduler).current();
            let inc = next_index(out, tasks.len() as int);
            &&& tick == (Tick::Scheduled {
                task_id: Some(tasks[out].id),
                kernel_stack_top: Some(tasks[inc].spec_kernel_stack_top()),
            })
            &&& final(scheduler).current() == inc
            &&& *final(context) == tasks[inc].context
            &&& final(scheduler).tasks() == tasks_after_switch(tasks, out, inc, *old(context))
        },
{
    let from_usermode = (context.cs & 3) == 3;
    if !scheduler.is_initialized() {
        return Tick::NotStarted { from_usermode };
    }
    let task_id = scheduler.current_task_id();
    match scheduler.schedule() {
        None => Tick::Scheduled { task_id, kernel_stack_top: None },
        Some(switch) => {
            let saved = *context;
            scheduler.save_context(switch.outgoing, saved);
            match scheduler.context(switch.incoming) {
                Some(incoming) => {
                    *context = incoming;
                },
                None => {},
            }
            proof {
                let out = old(scheduler).current();
                let n = old(scheduler).tasks().len() as int;
                let inc = next_index(out, n);
                assert(inc != out && 0 <= inc < n) by (nonlinear_arith)
                    requires
                        n >= 2,
                        0 <= out < n,
                        inc == (out + 1) % n,
                ;
                assert(scheduler.tasks() =~= tasks_after_switch(
                    old(scheduler).tasks(),
                    out,
                    inc,
                    *old(context),
                ));
            }
            Tick::Scheduled { task_id, kernel_stack_top: Some(switch.kernel_stack_top) }
        },
    }
}

/// The interrupt frame and stack with which user mode is entered.
#[derive(Debug, Clone, Copy, PartialEq, Eq, Structural)]
pub struct FirstSwitch {
    pub rip: u64,
    pub cs: u64,
    pub rflags: u64,
    pub rsp: u64,
    pub ss: u64,
    /// The selector for the data segment registers: the stack selector.
    pub data_selector: u64,
    /// Top of the task's kernel stack, for the privileged stack slot of the
    /// task-state segment.
    pub kernel_stack_top: u64,
}

/// What the first entry into user mode loads: the interrupt frame of the
/// current task's context, its stack selector for the data segment
/// registers, and its kernel stack top. There must be a task.
pub fn switch_to_first_task(scheduler: &Scheduler) -> (first: FirstSwitch)
    requires
        scheduler.wf(),
        scheduler.tasks().len() > 0,
    ensures
        ({
            let task = scheduler.tasks()[scheduler.current()];
            first == (FirstSwitch {
                rip: task.context.rip,
                cs: task.context.cs,
                rflags: task.context.rflags,
                rsp: task.context.rsp,
                ss: task.context.ss,
                data_selector: task.context.ss,
                kernel_stack_top: task.spec_kernel_stack_top(),
            })
        }),
{
    let context = match scheduler.current_context() {
        Some(c) => *c,
        None => TaskContext::default(),
    };
    let kernel_stack_top = match scheduler.current_kernel_stack_top() {
        Some(top) => top,
        None => 0,
    };
    FirstSwitch {
        rip: context.rip,
        cs: context.cs,
        rflags: context.rflags,
        rsp: context.rsp,
        ss: context.ss,
        data_selector: context.ss,
        kernel_stack_top,
    }
}

} // verus!
