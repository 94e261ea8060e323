//! Tasks: the executable loader, the task record and the scheduler.

pub mod elf;
pub mod scheduler;
pub mod switch;
pub mod syscall;
pub mod task;
