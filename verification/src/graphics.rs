//! The frame buffer and its back buffer.
//!
//! Drawing goes to a back buffer in ordinary memory, which is copied to the
//! device's buffer when a frame is complete.

use crate::mm::memory::{allocation_made, BootInfoFrameAllocator};
use vstd::prelude::*;

verus! {

/// The device's frame buffer and the back buffer, by address, and the
/// geometry they share. Pixels are 32 bits wide.
pub struct Framebuffer {
    pub front_buffer: u64,
    pub back_buffer: u64,
    pub width: usize,
    pub height: usize,
    pub stride: usize,
}

/// A copy of pixels from one buffer to another.
#[derive(Debug, Clone, Copy, PartialEq, Eq, Structural)]
pub struct BufferCopy {
    pub from: u64,
    pub to: u64,
    pub pixels: usize,
}

/// Number of pages that hold `bytes` bytes.
pub open spec fn pages_for(bytes: int) -> int {
    (bytes + 4095) / 4096
}

impl Framebuffer {
    /// Address of the device's buffer.
    pub open spec fn front(&self) -> u64 {
        self.front_buffer
    }

    /// Address of the back buffer.
    pub open spec fn back(&self) -> u64 {
        self.back_buffer
    }

    /// The buffers hold as many pixels as the geometry says.
    pub open spec fn wf(&self) -> bool {
        self.stride * self.height <= usize::MAX
    }

    /// Sets up the back buffer for the device's buffer at `front_buffer`:
    /// allocates the pages that hold `stride * height` pixels of four bytes
    /// and places the back buffer at their address in the direct window.
    /// The caller zeroes the back buffer. `None` is returned if the size or
    /// the address does not fit the machine, or no memory is left; nothing
    /// is allocated then but in the last case, where the allocation itself
    /// failed.
    pub fn new(
        front_buffer: u64,
        width: usize,
        height: usize,
        stride: usize,
        allocator: &mut BootInfoFrameAllocator,
        phys_mem_offset: u64,
    ) -> (buffer: Option<Framebuffer>)
        requires
            old(allocator).wf(),
        ensures
            final(allocator).wf(),
            stride * height * 4 + 4095 > usize::MAX ==> buffer is None && *final(allocator) == *old(allocator),
            stride * height * 4 + 4095 <= usize::MAX ==> {
                let pages = pages_for(stride * height * 4);
                exists|frame: Option<u64>|
                    {
                        &&& #[trigger] allocation_made(
                            old(allocator).ranges(),
                            old(allocator).allocated_bytes(),
                            pages * 4096,
                            4096,
                            frame,
                            final(allocator).ranges(),
                            final(allocator).allocated_bytes(),
                        )
                        &&& match buffer {
                            Some(b) => frame is Some && b.back() == frame->Some_0 + phys_mem_offset
                                && b.front() == front_buffer && b.width == width && b.height
                                == height && b.stride == stride && b.wf(),
                            None => frame is None || frame->Some_0 + phys_mem_offset > u64::MAX,
                        }
                    }
            },
    {
        let pixels = match stride.checked_mul(height) {
            Some(pixels) => pixels,
            None => {
                proof {
                    assert(stride * height * 4 >= stride * height) by (nonlinear_arith)
                        requires
                            stride * height >= 0,
                    ;
                }
                return None;
            },
        };
        let buffer_size = match pixels.checked_mul(4) {
            Some(size) => size,
            None => {
                return None;
            },
        };
        if buffer_size > usize::MAX - 4095 {
            return None;
        }
        let pages_needed = (buffer_size + 4095) / 4096;
        let frame = allocator.allocate_contiguous(pages_needed);
        proof {
            assert(buffer_size == stride * height * 4);
            assert(pages_needed == pages_for(stride * height * 4));
            assert(allocation_made(
                old(allocator).ranges(),
                old(allocator).allocated_bytes(),
                pages_for(stride * height * 4) * 4096,
                4096,
                frame,
                allocator.ranges(),
                allocator.allocated_bytes(),
            ));
        }
        let phys_addr = match frame {
            Some(phys_addr) => phys_addr,
            None => {
                return None;
            },
        };
        if phys_addr > u64::MAX - phys_mem_offset {
            return None;
        }
        Some(
            Framebuffer {
                front_buffer,
                back_buffer: phys_addr + phys_mem_offset,
                width,
                height,
                stride,
            },
        )
    }

    /// What showing the back buffer takes: a copy of all pixels from the
    /// back buffer to the device's buffer.
    pub fn flip(&self) -> (copy: BufferCopy)
        requires
            self.wf(),
        ensures
            copy == (BufferCopy {
                from: self.back(),
                to: self.front(),
                pixels: (self.stride * self.height) as usize,
            }),
    {
        BufferCopy { from: self.back_buffer, to: self.front_buffer, pixels: self.stride * self.height }
    }

    /// Address of the back buffer, where drawing goes.
    pub fn get_back_buffer_ptr(&self) -> (address: u64)
        ensures
            address == self.back(),
    {
        self.back_buffer
    }
}

} // verus!
