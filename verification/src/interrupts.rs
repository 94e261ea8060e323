//! Interrupt vectors of the devices.

use vstd::prelude::*;

verus! {

/// The devices that interrupt, each with its vector.
#[derive(Debug, Clone, Copy, PartialEq, Eq, Structural)]
pub enum InterruptIndex {
    Keyboard,
    Timer,
    Mouse,
}

impl InterruptIndex {
    /// The vector of the device: 32 for the timer, 33 for the keyboard, 44
    /// for the mouse.
    pub open spec fn vector(&self) -> u8 {
        match self {
            InterruptIndex::Keyboard => 33,
            InterruptIndex::Timer => 32,
            InterruptIndex::Mouse => 44,
        }
    }

    /// The vector of the device.
    pub fn as_u8(&self) -> (vector: u8)
        ensures
            vector == self.vector(),
    {
        match self {
            InterruptIndex::Keyboard => 33,
            InterruptIndex::Timer => 32,
            InterruptIndex::Mouse => 44,
        }
    }
}

/// A fault that ends the machine.
#[derive(Debug, Clone, Copy, PartialEq, Eq, Structural)]
pub enum Fault {
    DivideError,
    DoubleFault,
    PageFault,
    GeneralProtection,
}

} // verus!
