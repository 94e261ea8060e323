//! Drivers: what the kernel writes to devices.

pub mod exit;
pub mod keyboard;
pub mod mouse;
pub mod pit;
