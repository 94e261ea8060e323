//! Core of a small x86_64 kernel: physical and virtual memory management,
//! the user page-table editor, the ELF loader, the round-robin scheduler and
//! the processor set-up values, each with a machine-checked contract.

pub mod drivers;
pub mod events;
pub mod gdt;
pub mod graphics;
pub mod interrupts;
pub mod mm;
pub mod tasks;
