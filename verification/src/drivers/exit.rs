//! Leaving the virtual machine through its debug-exit device.

use vstd::prelude::*;

verus! {

/// Number of the I/O port of the debug-exit device.
pub const EXIT_PORT: u16 = 0xf4;

/// The exit status that the kernel asks the virtual machine to end with.
#[derive(Debug, Clone, Copy, PartialEq, Eq, Structural)]
pub enum QemuExitCode {
    Success,
    Failed,
}

impl QemuExitCode {
    /// The status that the machine's process ends with: 0x11 for success,
    /// 0x13 for failure. The status must be odd, because the device
    /// doubles what is written to it and adds one.
    pub open spec fn spec_code(&self) -> u32 {
        match self {
            QemuExitCode::Success => 0x11,
            QemuExitCode::Failed => 0x13,
        }
    }

    /// The status that the machine's process ends with.
    pub fn code(&self) -> (code: u32)
        ensures
            code == self.spec_code(),
    {
        match self {
            QemuExitCode::Success => 0x11,
            QemuExitCode::Failed => 0x13,
        }
    }
}

/// The status with which the machine ends when `value` is written to the
/// device.
pub open spec fn machine_status(value: u32) -> int {
    2 * value + 1
}

/// The value to write to the debug-exit device so that the machine ends
/// with the status of `exit_code`: the status shifted right by one.
pub fn exit_qemu(exit_code: QemuExitCode) -> (value: u32)
    ensures
        value == exit_code.spec_code() / 2,
        machine_status(value) == exit_code.spec_code(),
{
    let code = exit_code.code();
    assert(0x11u32 >> 1 == 8 && 0x13u32 >> 1 == 9) by (bit_vector);
    code >> 1
}

} // verus!
