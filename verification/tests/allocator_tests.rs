use kernel::mm::allocator::{add_frame, allocate_frame, init_heap};
use kernel::mm::buddy::BuddyAllocator;
use kernel::mm::slub::{PageProvider, SCache, PAGE_SIZE};
use kernel::mm::window::{SparseMemory, WordMemory};

/// Hands out pages of a simulated heap and checks that what comes back was
/// handed out.
struct TestPageProvider {
    allocated_pages: Vec<u64>,
    next: u64,
}

impl TestPageProvider {
    fn new() -> Self {
        Self { allocated_pages: Vec::new(), next: 0x10_0000 }
    }
}

impl PageProvider for TestPageProvider {
    fn alloc_page<M: WordMemory>(&mut self, mem: &mut M) -> Option<u64> {
        let page = self.next;
        self.next += PAGE_SIZE;
        let mut offset = 0;
        while offset < PAGE_SIZE {
            mem.write(page + offset, 0);
            offset += 8;
        }
        self.allocated_pages.push(page);
        Some(page)
    }

    fn free_page<M: WordMemory>(&mut self, _mem: &mut M, page: u64) {
        if let Some(pos) = self.allocated_pages.iter().position(|&p| p == page) {
            self.allocated_pages.remove(pos);
        } else {
            panic!("Double free or freeing unknown page");
        }
    }
}

#[test]
fn test_buddy_allocator() {
    let mut mem = SparseMemory::new();
    let mut buddy = BuddyAllocator::new();

    let memory_size: u64 = 4 * 1024 * 1024;
    let memory: u64 = 8 * 1024 * 1024;

    for i in (0..memory_size).step_by(4096) {
        buddy.add_frame(&mut mem, memory + i);
    }

    let ptr1 = buddy.allocate(&mut mem, 0).expect("Failed to alloc order 0");
    let ptr2 = buddy.allocate(&mut mem, 1).expect("Failed to alloc order 1");

    assert_eq!(ptr1 % 4096, 0);
    assert_eq!(ptr2 % 8192, 0);

    let ptr3 = buddy.allocate(&mut mem, 5).expect("Failed to alloc order 5");

    buddy.dealloc(&mut mem, ptr1, 0);
    buddy.dealloc(&mut mem, ptr2, 1);
    buddy.dealloc(&mut mem, ptr3, 5);
}

#[test]
fn test_slub_allocator() {
    let mut mem = SparseMemory::new();
    let mut provider = TestPageProvider::new();
    let mut cache = SCache::new(32);

    let ptr1 = cache.allocate(&mut mem, &mut provider).expect("Failed to alloc 32B");
    let ptr2 = cache.allocate(&mut mem, &mut provider).expect("Failed to alloc 32B");

    mem.write(ptr1, 0xAA);
    mem.write(ptr2, 0xBB);

    assert_ne!(ptr1, ptr2);

    let page1 = ptr1 & !(PAGE_SIZE - 1);
    let page2 = ptr2 & !(PAGE_SIZE - 1);
    assert_eq!(page1, page2);

    cache.dealloc(&mut mem, ptr1, &mut provider);
    cache.dealloc(&mut mem, ptr2, &mut provider);
}

#[test]
fn test_slub_allocator_exhaustion() {
    let mut mem = SparseMemory::new();
    let mut provider = TestPageProvider::new();
    let mut cache = SCache::new(1024);

    let mut ptrs = Vec::new();

    for _ in 0..10 {
        if let Some(ptr) = cache.allocate(&mut mem, &mut provider) {
            ptrs.push(ptr);
        }
    }

    assert_eq!(ptrs.len(), 10);

    for ptr in ptrs {
        cache.dealloc(&mut mem, ptr, &mut provider);
    }
}

#[test]
fn buddy_pairing() {
    let mut mem = SparseMemory::new();
    let mut buddy = BuddyAllocator::new();
    let base: u64 = 8 * 1024 * 1024;
    for i in 0..1024u64 {
        buddy.add_frame(&mut mem, base + i * 4096);
    }
    let p0 = buddy.allocate(&mut mem, 0).unwrap();
    let p1 = buddy.allocate(&mut mem, 1).unwrap();
    assert_eq!(p0 % 4096, 0);
    assert_eq!(p1 % 8192, 0);
    let p2 = buddy.allocate(&mut mem, 5).unwrap();
    assert_eq!(p2 % (32 * 4096), 0);
    buddy.dealloc(&mut mem, p0, 0);
    buddy.dealloc(&mut mem, p1, 1);
    buddy.dealloc(&mut mem, p2, 5);
    let big = buddy.allocate(&mut mem, 7);
    assert!(big.is_some());
    assert_eq!(big.unwrap() % (128 * 4096), 0);
}

#[test]
fn buddy_merges_single_pages_to_one_block() {
    let mut mem = SparseMemory::new();
    let mut buddy = BuddyAllocator::new();
    let base: u64 = 8 * 1024 * 1024;
    for i in 0..2048u64 {
        buddy.add_frame(&mut mem, base + i * 4096);
    }
    assert_eq!(buddy.allocate(&mut mem, 12), None);
    assert_eq!(buddy.allocate(&mut mem, 11), Some(base));
    assert_eq!(buddy.allocate(&mut mem, 0), None);
}

#[test]
fn buddy_serves_the_highest_order() {
    let mut mem = SparseMemory::new();
    let mut buddy = BuddyAllocator::new();
    let base: u64 = 16 * 1024 * 1024;
    for i in 0..4096u64 {
        buddy.add_frame(&mut mem, base + i * 4096);
    }
    assert_eq!(buddy.allocate(&mut mem, 13), None);
    assert_eq!(buddy.allocate(&mut mem, 12), Some(base));
    assert_eq!(buddy.allocate(&mut mem, 0), None);
    buddy.dealloc(&mut mem, base, 12);
    let low = buddy.allocate(&mut mem, 11).unwrap();
    let high = buddy.allocate(&mut mem, 11).unwrap();
    assert_eq!(low, base);
    assert_eq!(high, base + 8 * 1024 * 1024);
    buddy.dealloc(&mut mem, low, 11);
    buddy.dealloc(&mut mem, high, 11);
    assert_eq!(buddy.allocate(&mut mem, 12), Some(base));
}

#[test]
fn buddy_split_returns_lower_half_and_round_trip_restores() {
    let mut mem = SparseMemory::new();
    let mut buddy = BuddyAllocator::new();
    let base: u64 = 16 * 1024 * 1024;
    for i in 0..4u64 {
        buddy.add_frame(&mut mem, base + i * 4096);
    }
    let a = buddy.allocate(&mut mem, 0).unwrap();
    assert_eq!(a, base);
    let b = buddy.allocate(&mut mem, 0).unwrap();
    assert_eq!(b, base + 4096);
    let c = buddy.allocate(&mut mem, 1).unwrap();
    assert_eq!(c, base + 8192);
    assert_eq!(buddy.allocate(&mut mem, 0), None);
    buddy.dealloc(&mut mem, c, 1);
    buddy.dealloc(&mut mem, b, 0);
    buddy.dealloc(&mut mem, a, 0);
    assert_eq!(buddy.allocate(&mut mem, 2), Some(base));
}

#[test]
fn buddy_ignores_addresses_outside_the_window() {
    let mut mem = SparseMemory::new();
    let mut buddy = BuddyAllocator::new();
    buddy.set_offset(0x4000_0000);
    buddy.add_frame(&mut mem, 0x1000);
    buddy.add_frame(&mut mem, 0x8000_0000);
    assert_eq!(buddy.allocate(&mut mem, 0), None);
    buddy.add_frame(&mut mem, 0x4000_0000);
    assert_eq!(buddy.allocate_frame(&mut mem), Some(0));
}

#[test]
fn heap_pages_come_from_the_buddy_allocator() {
    let mut mem = SparseMemory::new();
    let mut provider = init_heap(0x4000_0000);
    add_frame(&mut provider, &mut mem, 0x4000_0000 + 0x5000);
    assert_eq!(allocate_frame(&mut provider, &mut mem), Some(0x5000));
    assert_eq!(allocate_frame(&mut provider, &mut mem), None);
    provider.free_page(&mut mem, 0x4000_5000);
    assert_eq!(provider.alloc_page(&mut mem), Some(0x4000_5000));
}

#[test]
fn slab_coherence() {
    let mut mem = SparseMemory::new();
    let mut provider = TestPageProvider::new();
    let mut cache = SCache::new(32);
    let a = cache.allocate(&mut mem, &mut provider).unwrap();
    let b = cache.allocate(&mut mem, &mut provider).unwrap();
    mem.write(a, 0xAA);
    mem.write(b, 0xBB);
    assert_eq!(a & !4095, b & !4095);
    assert_eq!(provider.allocated_pages.len(), 1);
    let page = a & !4095;
    assert_eq!(a, page + 32);
    assert_eq!(b, page + 64);
    assert_eq!(mem.read(page + 24), 32);
    assert_eq!(mem.read(page + 16), 2);
    cache.dealloc(&mut mem, a, &mut provider);
    assert_eq!(mem.read(page + 16), 1);
    cache.dealloc(&mut mem, b, &mut provider);
    assert!(provider.allocated_pages.is_empty());
}

#[test]
fn slab_reuses_freed_object_first() {
    let mut mem = SparseMemory::new();
    let mut provider = TestPageProvider::new();
    let mut cache = SCache::new(64);
    let a = cache.allocate(&mut mem, &mut provider).unwrap();
    let b = cache.allocate(&mut mem, &mut provider).unwrap();
    assert_eq!(a & 4095, 64);
    assert_eq!(b, a + 64);
    cache.dealloc(&mut mem, a, &mut provider);
    let c = cache.allocate(&mut mem, &mut provider).unwrap();
    assert_eq!(c, a);
}

#[test]
fn slab_of_half_pages_holds_one_object() {
    let mut mem = SparseMemory::new();
    let mut provider = TestPageProvider::new();
    let mut cache = SCache::new(2048);
    let a = cache.allocate(&mut mem, &mut provider).unwrap();
    let b = cache.allocate(&mut mem, &mut provider).unwrap();
    assert_eq!(a & 4095, 2048);
    assert_ne!(a & !4095, b & !4095);
    assert_eq!(provider.allocated_pages.len(), 2);
    cache.dealloc(&mut mem, a, &mut provider);
    assert_eq!(provider.allocated_pages.len(), 1);
}
