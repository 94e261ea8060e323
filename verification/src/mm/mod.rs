//! Memory management: the word-addressed view of the direct physical window,
//! the bootstrap range allocator, the buddy allocator, the slab caches, the
//! user page-table editor, and the adoption of page tables that exist.

pub mod allocator;
pub mod buddy;
pub mod memory;
pub mod slub;
pub mod slub_allocator;
pub mod tree;
pub mod user;
pub mod window;
