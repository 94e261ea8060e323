//! Round-robin scheduler: the tasks in admission order, and which of them
//! runs.

use crate::tasks::task::{Task, TaskContext, TaskState};
use vstd::arithmetic::div_mod::{lemma_fundamental_div_mod, lemma_fundamental_div_mod_converse, lemma_mod_bound};
use vstd::prelude::*;

verus! {

/// What the interrupt entry needs to switch tasks: which task leaves, which
/// task comes in, and the top of the incoming task's kernel stack.
#[derive(Debug, Clone, Copy, PartialEq, Eq, Structural)]
pub struct ContextSwitch {
    /// Index of the task that was running; its context receives the
    /// registers that the interrupt entry saved.
    pub outgoing: usize,
    /// Index of the task that runs next; its context is restored.
    pub incoming: usize,
    /// Top of the incoming task's kernel stack, for the privileged stack
    /// slot of the task-state segment.
    pub kernel_stack_top: u64,
}

/// Simple round-robin scheduler.
pub struct Scheduler {
    tasks: Vec<Task>,
    current: usize,
    initialized: bool,
}

/// The index that follows `current` in a rotation over `count` tasks.
pub open spec fn next_index(current: int, count: int) -> int {
    (current + 1) % count
}

impl Scheduler {
    /// The tasks in admission order.
    pub closed spec fn tasks(&self) -> Seq<Task> {
        self.tasks@
    }

    /// Index of the current task.
    pub closed spec fn current(&self) -> int {
        self.current as int
    }

    /// Whether `start` has marked the first task as running.
    pub closed spec fn started(&self) -> bool {
        self.initialized
    }

    /// The current index is that of a task (or zero when there is none),
    /// no task but the current one is running, once started the current
    /// task is running, a current task other than the first is running, and
    /// every kernel stack lies inside the address space.
    pub open spec fn wf(&self) -> bool {
        &&& self.tasks().len() == 0 ==> self.current() == 0
        &&& self.tasks().len() > 0 ==> 0 <= self.current() < self.tasks().len()
        &&& forall|i: int|
            0 <= i < self.tasks().len() && (#[trigger] self.tasks()[i]).state == TaskState::Running
                ==> i == self.current()
        &&& self.started() ==> self.tasks().len() > 0 && self.tasks()[self.current()].state
            == TaskState::Running
        &&& self.current() != 0 ==> self.tasks()[self.current()].state == TaskState::Running
        &&& forall|i: int| 0 <= i < self.tasks().len() ==> (#[trigger] self.tasks()[i]).wf()
    }

    /// Every task is ready.
    pub open spec fn all_ready(&self) -> bool {
        forall|i: int|
            0 <= i < self.tasks().len() ==> (#[trigger] self.tasks()[i]).state == TaskState::Ready
    }

    /// A scheduler without tasks.
    pub fn new() -> (scheduler: Self)
        ensures
            scheduler.wf(),
            scheduler.tasks() == Seq::<Task>::empty(),
            scheduler.current() == 0,
            !scheduler.started(),
            scheduler.all_ready(),
    {
        Scheduler { tasks: Vec::new(), current: 0, initialized: false }
    }

    /// Admits a task that is ready to run, behind those admitted before.
    pub fn add_task(&mut self, task: Task)
        requires
            old(self).wf(),
            task.wf(),
            task.state == TaskState::Ready,
        ensures
            final(self).wf(),
            final(self).tasks() == old(self).tasks().push(task),
            final(self).current() == old(self).current(),
            final(self).started() == old(self).started(),
            old(self).all_ready() ==> final(self).all_ready(),
    {
        self.tasks.push(task);
    }

    /// Number of tasks.
    pub fn task_count(&self) -> (count: usize)
        ensures
            count == self.tasks().len(),
    {
        self.tasks.len()
    }

    /// Marks the first task as running and the scheduler as started. Without
    /// tasks nothing happens.
    pub fn start(&mut self)
        requires
            old(self).wf(),
            old(self).all_ready(),
        ensures
            final(self).wf(),
            final(self).current() == old(self).current(),
            old(self).tasks().len() == 0 ==> final(self).tasks() == old(self).tasks()
                && !final(self).started(),
            old(self).tasks().len() > 0 ==> final(self).started() && final(self).tasks() == old(
                self,
            ).tasks().update(
                0,
                Task { state: TaskState::Running, ..old(self).tasks()[0] },
            ) && final(self).current() == 0,
    {
        if self.tasks.len() > 0 {
            let first = self.tasks[0];
            self.tasks.set(0, Task { state: TaskState::Running, ..first });
            self.initialized = true;
        }
    }

    /// Whether the scheduler has been started.
    pub fn is_initialized(&self) -> (started: bool)
        ensures
            started == self.started(),
    {
        self.initialized
    }

    /// The current task's context, for the first switch into user mode.
    pub fn current_context(&self) -> (context: Option<&TaskContext>)
        requires
            self.wf(),
        ensures
            match context {
                Some(c) => self.tasks().len() > 0 && *c == self.tasks()[self.current()].context,
                None => self.tasks().len() == 0,
            },
    {
        if self.tasks.len() == 0 {
            None
        } else {
            Some(&self.tasks[self.current].context)
        }
    }

    /// The current task's context, to be written: what the caller leaves
    /// in it is the task's context afterwards, and nothing else changes.
    pub fn current_context_mut(&mut self) -> (context: Option<&mut TaskContext>)
        requires
            old(self).wf(),
        ensures
            final(self).wf(),
            final(self).current() == old(self).current(),
            final(self).started() == old(self).started(),
            match context {
                Some(c) => old(self).tasks().len() > 0 && *c == old(self).tasks()[old(
                    self,
                ).current()].context && final(self).tasks() == old(self).tasks().update(
                    old(self).current(),
                    Task { context: *final(c), ..old(self).tasks()[old(self).current()] },
                ),
                None => old(self).tasks().len() == 0 && final(self).tasks() == old(self).tasks(),
            },
    {
        if self.tasks.len() == 0 {
            None
        } else {
            Some(&mut self.tasks[self.current].context)
        }
    }

    /// The context of the task at `index`.
    pub fn context(&self, index: usize) -> (context: Option<TaskContext>)
        ensures
            match context {
                Some(c) => index < self.tasks().len() && c == self.tasks()[index as int].context,
                None => index >= self.tasks().len(),
            },
    {
        if index < self.tasks.len() {
            Some(self.tasks[index].context)
        } else {
            None
        }
    }

    /// Stores `context` as the saved registers of the task at `index`.
    /// Returns whether there is such a task.
    pub fn save_context(&mut self, index: usize, context: TaskContext) -> (stored: bool)
        requires
            old(self).wf(),
        ensures
            final(self).wf(),
            final(self).current() == old(self).current(),
            final(self).started() == old(self).started(),
            stored == (index < old(self).tasks().len()),
            stored ==> final(self).tasks() == old(self).tasks().update(
                index as int,
                Task { context, ..old(self).tasks()[index as int] },
            ),
            !stored ==> final(self).tasks() == old(self).tasks(),
    {
        if index < self.tasks.len() {
            let task = self.tasks[index];
            self.tasks.set(index, Task { context, ..task });
            true
        } else {
            false
        }
    }

    /// Top of the current task's kernel stack.
    pub fn current_kernel_stack_top(&self) -> (top: Option<u64>)
        requires
            self.wf(),
        ensures
            match top {
                Some(t) => self.tasks().len() > 0 && t == self.tasks()[self.current()].spec_kernel_stack_top(),
                None => self.tasks().len() == 0,
            },
    {
        if self.tasks.len() == 0 {
            None
        } else {
            Some(self.tasks[self.current].kernel_stack_top())
        }
    }

    /// Identifier of the current task.
    pub fn current_task_id(&self) -> (id: Option<u64>)
        requires
            self.wf(),
        ensures
            match id {
                Some(id) => self.tasks().len() > 0 && id == self.tasks()[self.current()].id,
                None => self.tasks().len() == 0,
            },
    {
        if self.tasks.len() == 0 {
            None
        } else {
            Some(self.tasks[self.current].id)
        }
    }

    /// Rotates to the next task in admission order.
    ///
    /// With fewer than two tasks nothing changes and `None` is returned.
    /// Otherwise the current task becomes ready, the task after it (the
    /// first, after the last) becomes current and running, and the switch is
    /// described.
    pub fn schedule(&mut self) -> (switch: Option<ContextSwitch>)
        requires
            old(self).wf(),
        ensures
            final(self).wf(),
            final(self).started() == old(self).started(),
            final(self).tasks().len() == old(self).tasks().len(),
            match switch {
                None => old(self).tasks().len() < 2 && final(self).tasks() == old(self).tasks()
                    && final(self).current() == old(self).current(),
                Some(s) => {
                    let n = old(self).tasks().len() as int;
                    let out = old(self).current();
                    let inc = next_index(out, n);
                    &&& n >= 2
                    &&& s.outgoing == out
                    &&& s.incoming == inc
                    &&& final(self).current() == inc
                    &&& s.kernel_stack_top == old(self).tasks()[inc].spec_kernel_stack_top()
                    &&& final(self).tasks() == old(self).tasks().update(
                        out,
                        Task { state: TaskState::Ready, ..old(self).tasks()[out] },
                    ).update(inc, Task { state: TaskState::Running, ..old(self).tasks()[inc] })
                },
            },
    {
        let n = self.tasks.len();
        if n < 2 {
            return None;
        }
        let outgoing = self.current;
        let leaving = self.tasks[outgoing];
        self.tasks.set(outgoing, Task { state: TaskState::Ready, ..leaving });
        let incoming = if outgoing + 1 == n {
            0
        } else {
            outgoing + 1
        };
        assert(incoming == next_index(outgoing as int, n as int)) by (nonlinear_arith)
            requires
                0 <= outgoing < n,
                incoming == (if outgoing + 1 == n {
                    0
                } else {
                    outgoing + 1
                }),
        ;
        self.current = incoming;
        let entering = self.tasks[incoming];
        self.tasks.set(incoming, Task { state: TaskState::Running, ..entering });
        let kernel_stack_top = self.tasks[incoming].kernel_stack_top();
        Some(ContextSwitch { outgoing, incoming, kernel_stack_top })
    }
}

/// The task that is current after `k` rotations that began with task
/// `start` current, among `n` tasks.
pub open spec fn dispatched(start: int, n: int, k: int) -> int {
    (start + k) % n
}

/// How often task `t` becomes current in the first `count` rotations.
pub open spec fn dispatch_count(start: int, n: int, t: int, count: nat) -> nat
    decreases count,
{
    if count == 0 {
        0
    } else {
        dispatch_count(start, n, t, (count - 1) as nat) + if dispatched(start, n, count as int)
            == t {
            1nat
        } else {
            0nat
        }
    }
}

/// `x` is `q` times `n` plus a remainder `r` below `n`.
pub open spec fn splits(x: int, n: int, q: int, r: int) -> bool {
    0 <= r < n && x == q * n + r
}

/// Quotient and remainder: `x == (x / n) * n + x % n` with the remainder
/// below `n`, and any such pair is the quotient and remainder.
proof fn lemma_quotient(x: int, n: int)
    requires
        n > 0,
    ensures
        x == (x / n) * n + x % n,
        0 <= x % n < n,
        forall|q: int, r: int| #[trigger] splits(x, n, q, r) ==> q == x / n && r == x % n,
{
    lemma_fundamental_div_mod(x, n);
    lemma_mod_bound(x, n);
    assert(n * (x / n) == (x / n) * n) by (nonlinear_arith);
    assert forall|q: int, r: int| #[trigger] splits(x, n, q, r) implies q == x / n && r == x % n by {
        lemma_fundamental_div_mod_converse(x, n, q, r);
    }
}

/// Each rotation makes the next task in admission order current.
pub proof fn lemma_dispatch_follows_rotation(start: int, n: int, k: int)
    requires
        n > 0,
        0 <= start < n,
        k >= 0,
    ensures
        dispatched(start, n, 0) == start,
        dispatched(start, n, k + 1) == next_index(dispatched(start, n, k), n),
{
    lemma_quotient(start, n);
    assert(splits(start, n, 0, start));
    let x = start + k;
    lemma_quotient(x, n);
    lemma_quotient(x + 1, n);
    lemma_quotient(x % n + 1, n);
    let q = x / n;
    let r = x % n;
    if r + 1 < n {
        assert(splits(x + 1, n, q, r + 1));
        assert(splits(r + 1, n, 0, r + 1));
    } else {
        assert(x + 1 == (q + 1) * n + 0) by (nonlinear_arith)
            requires
                x == q * n + r,
                r + 1 == n,
        ;
        assert(splits(x + 1, n, q + 1, 0));
        assert(splits(r + 1, n, 1, 0));
    }
}

/// Round robin is fair: over any number of rotations among `n` tasks, each
/// task becomes current either the whole number of times that the count
/// divided by `n` gives, or once more, and never more than the count
/// divided by `n` and rounded up.
pub proof fn lemma_round_robin_is_fair(start: int, n: int, t: int, count: nat)
    requires
        n > 0,
        0 <= start < n,
        0 <= t < n,
    ensures
        count as int / n <= dispatch_count(start, n, t, count) <= (count + n - 1) / n,
{
    let b = start - t + n;
    lemma_dispatch_count_closed(start, n, t, count);
    lemma_quotient(b, n);
    lemma_quotient(b + count, n);
    lemma_quotient(count as int, n);
    lemma_quotient(count + n - 1, n);
    let qb = b / n;
    let rb = b % n;
    let qc = count as int / n;
    let rc = count as int % n;
    if rb + rc < n {
        assert(b + count == (qb + qc) * n + (rb + rc)) by (nonlinear_arith)
            requires
                b == qb * n + rb,
                count == qc * n + rc,
        ;
        assert(splits(b + count, n, qb + qc, rb + rc));
    } else {
        assert(b + count == (qb + qc + 1) * n + (rb + rc - n)) by (nonlinear_arith)
            requires
                b == qb * n + rb,
                count == qc * n + rc,
        ;
        assert(splits(b + count, n, qb + qc + 1, rb + rc - n));
    }
    if rc == 0 {
        assert(splits(count + n - 1, n, qc, n - 1));
    } else {
        assert(count + n - 1 == (qc + 1) * n + (rc - 1)) by (nonlinear_arith)
            requires
                count == qc * n + rc,
        ;
        assert(splits(count + n - 1, n, qc + 1, rc - 1));
    }
}

/// The number of times task `t` becomes current in `count` rotations is
/// the number of multiples of `n` among the next `count` numbers after
/// `start - t + n`.
proof fn lemma_dispatch_count_closed(start: int, n: int, t: int, count: nat)
    requires
        n > 0,
        0 <= start < n,
        0 <= t < n,
    ensures
        dispatch_count(start, n, t, count) == (start - t + n + count) / n - (start - t + n) / n,
    decreases count,
{
    let b = start - t + n;
    if count > 0 {
        lemma_dispatch_count_closed(start, n, t, (count - 1) as nat);
        let x = b + count;
        lemma_quotient(x, n);
        lemma_quotient(x - 1, n);
        lemma_quotient(start + count, n);
        let q = x / n;
        let r = x % n;
        if r == 0 {
            assert(x - 1 == (q - 1) * n + (n - 1)) by (nonlinear_arith)
                requires
                    x == q * n + r,
                    r == 0,
            ;
            assert(splits(x - 1, n, q - 1, n - 1));
            assert(start + count == (q - 1) * n + t) by (nonlinear_arith)
                requires
                    x == q * n + r,
                    r == 0,
                    x == start - t + n + count,
            ;
            assert(splits(start + count, n, q - 1, t));
        } else {
            assert(splits(x - 1, n, q, r - 1));
            if r + t >= n {
                assert(start + count == q * n + (r + t - n)) by (nonlinear_arith)
                    requires
                        x == q * n + r,
                        x == start - t + n + count,
                ;
                assert(splits(start + count, n, q, r + t - n));
            } else {
                assert(start + count == (q - 1) * n + (r + t)) by (nonlinear_arith)
                    requires
                        x == q * n + r,
                        x == start - t + n + count,
                ;
                assert(splits(start + count, n, q - 1, r + t));
            }
        }
    }
}

} // verus!
