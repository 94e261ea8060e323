use kernel::mm::memory::{BootInfoFrameAllocator, MemoryRegion, MemoryRegionKind, PhysRange};

fn usable(start: u64, end: u64) -> MemoryRegion {
    MemoryRegion { start, end, kind: MemoryRegionKind::Usable }
}

#[test]
fn init_keeps_usable_pages_sorted() {
    let map = [
        usable(0x10_0800, 0x20_0800),
        MemoryRegion { start: 0x30_0000, end: 0x40_0000, kind: MemoryRegionKind::Bootloader },
        usable(0x1000, 0x5000),
        usable(0x9000, 0x9800),
        usable(0x50_0000, 0x50_0fff),
        MemoryRegion { start: 0x60_0000, end: 0x70_0000, kind: MemoryRegionKind::UnknownUefi(7) },
    ];
    let allocator = BootInfoFrameAllocator::init(&map);
    assert_eq!(allocator.range_count(), 2);
    assert_eq!(allocator.allocated_memory(), 0);
    assert_eq!(allocator.free_memory(), 0x4000 + 0xff000);
    assert_eq!(PhysRange::new(1, 2), PhysRange { start: 1, end: 2 });
    assert_eq!(PhysRange::empty(), PhysRange { start: 0, end: 0 });
}

#[test]
fn allocation_takes_the_first_fit() {
    let map = [usable(0x1000, 0x3000), usable(0x10_0000, 0x50_0000)];
    let mut allocator = BootInfoFrameAllocator::init(&map);
    assert_eq!(allocator.allocate_contiguous(0), None);
    assert_eq!(allocator.allocate_frame(), Some(0x1000));
    assert_eq!(allocator.allocate_contiguous(2), Some(0x10_0000));
    assert_eq!(allocator.allocated_memory(), 0x3000);
    assert_eq!(allocator.range_count(), 2);
    assert_eq!(allocator.allocate_frame(), Some(0x2000));
    assert_eq!(allocator.range_count(), 1);
    assert_eq!(allocator.allocate_huge_page(), Some(0x20_0000));
    assert_eq!(allocator.range_count(), 2);
    assert_eq!(allocator.free_memory(), 0x40_2000 - 0x4000 - 0x20_0000);
    assert_eq!(allocator.allocate_contiguous_aligned(1, 0x100_0000), None);
    assert_eq!(allocator.allocate_contiguous(0x1000), None);
}

#[test]
fn free_restores_the_ranges() {
    let map = [usable(0x10_0000, 0x50_0000)];
    let mut allocator = BootInfoFrameAllocator::init(&map);
    let total = allocator.free_memory();
    let frame = allocator.allocate_contiguous_aligned(16, 0x20_0000).unwrap();
    assert_eq!(frame, 0x20_0000);
    assert_eq!(allocator.range_count(), 2);
    assert_eq!(allocator.allocated_memory(), 0x1_0000);
    assert_eq!(allocator.free_memory() + allocator.allocated_memory(), total);
    allocator.free_contiguous(frame, 16);
    assert_eq!(allocator.range_count(), 1);
    assert_eq!(allocator.allocated_memory(), 0);
    assert_eq!(allocator.free_memory(), total);
    allocator.free_contiguous(0x9000_0000, 0);
    assert_eq!(allocator.range_count(), 1);
    let one = allocator.allocate_frame().unwrap();
    assert_eq!(one, 0x10_0000);
    allocator.free_frame(one);
    assert_eq!(allocator.range_count(), 1);
    assert_eq!(allocator.free_memory(), total);
}

#[test]
fn table_holds_at_most_its_capacity() {
    let mut map = Vec::new();
    for i in 0..300u64 {
        map.push(usable(0x10_0000 + i * 0x2000, 0x10_1000 + i * 0x2000));
    }
    let allocator = BootInfoFrameAllocator::init(&map);
    assert_eq!(allocator.range_count(), 256);
    assert_eq!(allocator.free_memory(), 256 * 4096);
}

#[test]
fn no_pages_are_no_allocation_whatever_the_alignment() {
    let map = [usable(0x10_0000, 0x50_0000)];
    let mut allocator = BootInfoFrameAllocator::init(&map);
    let total = allocator.free_memory();
    assert_eq!(allocator.allocate_contiguous_aligned(0, 4096), None);
    assert_eq!(allocator.allocate_contiguous_aligned(0, 3), None);
    assert_eq!(allocator.allocate_contiguous_aligned(0, 0), None);
    assert_eq!(allocator.allocate_contiguous(0), None);
    assert_eq!(allocator.free_memory(), total);
    assert_eq!(allocator.allocated_memory(), 0);
    assert_eq!(allocator.range_count(), 1);
}
