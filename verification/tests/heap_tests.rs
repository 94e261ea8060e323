use kernel::drivers::keyboard::{keyboard_interrupt_handler, KeyState};
use kernel::drivers::mouse::handle_on_complete;
use kernel::drivers::pit::timer_interrupt_handler;
use kernel::events::{
    decode_event, encode_event, has_events, pop_event, push_event, Event, EventQueue,
    KeyboardEvent, MouseState,
};
use kernel::mm::slub::{read_free_object, read_header, PageProvider, SCache};
use kernel::mm::user::BuddyFrameAllocator;
use kernel::graphics::Framebuffer;
use kernel::mm::allocator::{add_frame, init_heap, SlubAllocator};
use kernel::mm::memory::{BootInfoFrameAllocator, MemoryRegion, MemoryRegionKind};
use kernel::mm::slub_allocator::KmemCache;
use kernel::mm::user::{
    set_page_user_accessible, map_user_page, AddressSpace, PRESENT, USER_ACCESSIBLE, WRITABLE,
};
use kernel::mm::window::{SparseMemory, WordMemory};
use kernel::tasks::task::{Task, TaskIds, TaskState};

const WINDOW: u64 = 0x4000_0000;

fn heap_with_pages(pages: u64) -> (SparseMemory, kernel::mm::allocator::GlobalPageAllocator) {
    let mut mem = SparseMemory::new();
    let mut provider = init_heap(WINDOW);
    for i in 0..pages {
        add_frame(&mut provider, &mut mem, WINDOW + 0x10_0000 + i * 4096);
    }
    (mem, provider)
}

#[test]
fn heap_routes_by_size_class() {
    let (mut mem, mut provider) = heap_with_pages(64);
    let mut heap = SlubAllocator::new();
    let a = heap.allocate(&mut mem, &mut provider, 1).unwrap();
    let b = heap.allocate(&mut mem, &mut provider, 16).unwrap();
    assert_eq!(a & !4095, b & !4095);
    assert_eq!(mem.read((a & !4095) + 24), 16);
    let c = heap.allocate(&mut mem, &mut provider, 17).unwrap();
    assert_ne!(c & !4095, a & !4095);
    assert_eq!(mem.read((c & !4095) + 24), 32);
    let d = heap.allocate(&mut mem, &mut provider, 2048).unwrap();
    assert_eq!(mem.read((d & !4095) + 24), 2048);
    let e = heap.allocate(&mut mem, &mut provider, 2049).unwrap();
    assert_eq!(e % 4096, 0);
    let f = heap.allocate(&mut mem, &mut provider, 4096).unwrap();
    assert_eq!(f % 4096, 0);
    assert_ne!(e, f);
    assert_eq!(heap.allocate(&mut mem, &mut provider, 4097), None);
    heap.dealloc(&mut mem, &mut provider, e, 2049);
    heap.dealloc(&mut mem, &mut provider, f, 4096);
    heap.dealloc(&mut mem, &mut provider, d, 2048);
    heap.dealloc(&mut mem, &mut provider, c, 17);
    heap.dealloc(&mut mem, &mut provider, b, 16);
    heap.dealloc(&mut mem, &mut provider, a, 1);
    let mut count = 0;
    while provider.frame_allocator.allocate(&mut mem, 0).is_some() {
        count += 1;
    }
    assert_eq!(count, 64);
}

#[test]
fn heap_runs_out_of_pages() {
    let (mut mem, mut provider) = heap_with_pages(1);
    let mut heap = SlubAllocator::new();
    assert!(heap.allocate(&mut mem, &mut provider, 1024).is_some());
    assert!(heap.allocate(&mut mem, &mut provider, 1024).is_some());
    assert!(heap.allocate(&mut mem, &mut provider, 1024).is_some());
    assert_eq!(heap.allocate(&mut mem, &mut provider, 1024), None);
    assert_eq!(heap.allocate(&mut mem, &mut provider, 3000), None);
}

#[test]
fn buckets_of_the_earlier_layout() {
    let heap = kernel::mm::slub_allocator::SlubAllocator::new();
    assert_eq!(heap.get_bucket(0), Some(0));
    assert_eq!(heap.get_bucket(8), Some(0));
    assert_eq!(heap.get_bucket(9), Some(1));
    assert_eq!(heap.get_bucket(129), Some(5));
    assert_eq!(heap.get_bucket(2048), Some(8));
    assert_eq!(heap.get_bucket(2049), None);
    assert_eq!(KmemCache::new(64).object_size, 64);
}

#[test]
fn events_leave_in_the_order_they_came() {
    let mut queue = EventQueue::new();
    assert!(!has_events(&queue));
    assert_eq!(pop_event(&mut queue), None);
    let key = Event::KeyboardEvent(KeyboardEvent::KeyPressed(30));
    let up = Event::KeyboardEvent(KeyboardEvent::KeyReleased(30));
    let shot = Event::KeyboardEvent(KeyboardEvent::SingleShot(255));
    let mouse = Event::MouseEvent(MouseState { flags: 9, x: -3, y: 32767 });
    assert!(push_event(&mut queue, key));
    assert!(push_event(&mut queue, mouse));
    assert!(push_event(&mut queue, up));
    assert!(push_event(&mut queue, shot));
    assert!(has_events(&queue));
    assert_eq!(pop_event(&mut queue), Some(key));
    assert_eq!(pop_event(&mut queue), Some(mouse));
    assert_eq!(pop_event(&mut queue), Some(up));
    assert_eq!(pop_event(&mut queue), Some(shot));
    assert_eq!(pop_event(&mut queue), None);
    assert_eq!(encode_event(key), 120);
    assert_eq!(decode_event(121), up);
    assert_eq!(decode_event(encode_event(mouse)), mouse);
    let lowest = Event::MouseEvent(MouseState { flags: 0, x: -32768, y: -32768 });
    assert_eq!(encode_event(lowest), 3);
    assert_eq!(decode_event(3), lowest);
}

#[test]
fn full_queue_drops_events() {
    let mut queue = EventQueue::new();
    for i in 0..128u32 {
        assert!(push_event(&mut queue, Event::KeyboardEvent(KeyboardEvent::KeyPressed(i as u8))));
    }
    assert!(!push_event(&mut queue, Event::KeyboardEvent(KeyboardEvent::KeyPressed(200))));
    assert_eq!(pop_event(&mut queue), Some(Event::KeyboardEvent(KeyboardEvent::KeyPressed(0))));
    assert!(push_event(&mut queue, Event::KeyboardEvent(KeyboardEvent::KeyPressed(201))));
    for i in 1..128u32 {
        assert_eq!(
            pop_event(&mut queue),
            Some(Event::KeyboardEvent(KeyboardEvent::KeyPressed(i as u8)))
        );
    }
    assert_eq!(pop_event(&mut queue), Some(Event::KeyboardEvent(KeyboardEvent::KeyPressed(201))));
    assert!(!has_events(&queue));
}

#[test]
fn back_buffer_takes_whole_pages() {
    let map = [MemoryRegion { start: 0x10_0000, end: 0x90_0000, kind: MemoryRegionKind::Usable }];
    let mut allocator = BootInfoFrameAllocator::init(&map);
    let fb = Framebuffer::new(0xfd00_0000, 640, 480, 640, &mut allocator, 0x4000_0000).unwrap();
    assert_eq!(fb.width, 640);
    assert_eq!(fb.height, 480);
    assert_eq!(fb.stride, 640);
    assert_eq!(fb.get_back_buffer_ptr(), 0x4010_0000);
    assert_eq!(allocator.allocated_memory(), 640 * 480 * 4);
    let copy = fb.flip();
    assert_eq!(copy.from, 0x4010_0000);
    assert_eq!(copy.to, 0xfd00_0000);
    assert_eq!(copy.pixels, 640 * 480);
    let odd = Framebuffer::new(0xfd00_0000, 10, 3, 11, &mut allocator, 0).unwrap();
    assert_eq!(odd.get_back_buffer_ptr(), 0x10_0000 + 640 * 480 * 4);
    assert_eq!(allocator.allocated_memory(), 640 * 480 * 4 + 4096);
    assert!(Framebuffer::new(0, 4096, 4096, 4096, &mut allocator, 0).is_none());
    assert_eq!(allocator.usable_frame(0), Some(0x10_0000 + 640 * 480 * 4 + 4096));
    assert_eq!(allocator.usable_frame_count(), (0x80_0000 - 640 * 480 * 4 - 4096) / 4096);
    assert_eq!(allocator.usable_frame(allocator.usable_frame_count()), None);
}

#[test]
fn task_from_bare_code() {
    let (mut mem, mut provider) = heap_with_pages(64);
    let mut space = AddressSpace::create(&mut mem, &mut provider, WINDOW).unwrap();
    let stack = 0x50_0000;
    let code = 0x60_0000;
    map_user_page(&mut mem, &mut provider, &mut space, stack, PRESENT).unwrap();
    let frame = map_user_page(&mut mem, &mut provider, &mut space, code, PRESENT).unwrap();
    let mut ids = TaskIds::new();
    let program = [0x0f, 0x05, 0xf3, 0x90, 0xeb, 0xfa, 1, 2, 3];
    let task = Task::new(&mut ids, &program, &mut mem, &space, stack, 0x70_0000, code);
    assert_eq!(task.id, 1);
    assert_eq!(task.state, TaskState::Ready);
    assert_eq!(task.context.rip, code);
    assert_eq!(task.context.rsp, stack + 4096);
    assert_eq!(task.kernel_stack_top(), 0x70_1000);
    assert_eq!(mem.read(code), 0x0201_faeb_90f3_050f);
    assert_eq!(mem.read(code + 8), 3);
    assert_eq!(mem.read(code + 16), 0);
    let l4 = mem.read(WINDOW + space.level_4);
    assert_ne!(l4 & USER_ACCESSIBLE, 0);
    let _ = (frame, WRITABLE);
    set_page_user_accessible(&mut mem, &space, code, false, true);
    assert_eq!(ids.take(), 2);
}

#[test]
fn handlers_queue_events() {
    let mut queue = EventQueue::new();
    assert!(keyboard_interrupt_handler(&mut queue, KeyState::Down, 4));
    assert!(keyboard_interrupt_handler(&mut queue, KeyState::Up, 4));
    assert!(keyboard_interrupt_handler(&mut queue, KeyState::SingleShot, 9));
    let state = MouseState { flags: 1, x: 10, y: -10 };
    assert!(handle_on_complete(&mut queue, state));
    assert_eq!(pop_event(&mut queue), Some(Event::KeyboardEvent(KeyboardEvent::KeyPressed(4))));
    assert_eq!(pop_event(&mut queue), Some(Event::KeyboardEvent(KeyboardEvent::KeyReleased(4))));
    assert_eq!(pop_event(&mut queue), Some(Event::KeyboardEvent(KeyboardEvent::SingleShot(9))));
    assert_eq!(pop_event(&mut queue), Some(Event::MouseEvent(state)));
    assert_eq!(timer_interrupt_handler(0x23), 'u');
    assert_eq!(timer_interrupt_handler(0x08), '.');
}

#[test]
fn slab_header_and_free_list_lie_in_the_page() {
    let (mut mem, mut provider) = heap_with_pages(4);
    let mut cache = SCache::new(1024);
    let a = cache.allocate(&mut mem, &mut provider).unwrap();
    let page = a & !4095;
    assert_eq!(a, page + 1024);
    let header = read_header(&mem, page);
    assert_eq!(header.object_size, 1024);
    assert_eq!(header.in_use, 1);
    assert_eq!(header.freelist, page + 2048);
    assert_eq!(header.next_slab, 0);
    assert_eq!(read_free_object(&mem, page + 2048).next, page + 3072);
    assert_eq!(read_free_object(&mem, page + 3072).next, 0);
    let b = cache.allocate(&mut mem, &mut provider).unwrap();
    let c = cache.allocate(&mut mem, &mut provider).unwrap();
    assert_eq!((b, c), (page + 2048, page + 3072));
    assert_eq!(read_header(&mem, page).freelist, 0);
    let d = cache.allocate(&mut mem, &mut provider).unwrap();
    assert_ne!(d & !4095, page);
    cache.dealloc(&mut mem, b, &mut provider);
    let header = read_header(&mem, page);
    assert_eq!(header.in_use, 2);
    assert_eq!(header.freelist, b);
    assert_eq!(header.next_slab, d & !4095);
    cache.dealloc(&mut mem, a, &mut provider);
    cache.dealloc(&mut mem, c, &mut provider);
    assert_eq!(provider.alloc_page(&mut mem), Some(page));
}

#[test]
fn frames_for_page_tables_come_from_the_heap_pages() {
    let (mut mem, provider) = heap_with_pages(2);
    let mut frames = BuddyFrameAllocator { pages: provider };
    assert_eq!(frames.allocate_frame(&mut mem), Some(0x10_0000));
    assert_eq!(frames.allocate_frame(&mut mem), Some(0x10_1000));
    assert_eq!(frames.allocate_frame(&mut mem), None);
}

#[test]
fn ten_objects_of_1024_bytes_from_a_new_cache() {
    let (mut mem, mut provider) = heap_with_pages(8);
    let mut cache = SCache::new(1024);
    let mut objects = Vec::new();
    for _ in 0..10 {
        let obj = cache.allocate(&mut mem, &mut provider).unwrap();
        assert_eq!(obj % 8, 0);
        assert!(!objects.contains(&obj));
        objects.push(obj);
    }
    let mut pages: Vec<u64> = objects.iter().map(|o| o & !4095).collect();
    pages.dedup();
    assert_eq!(pages.len(), 4);
}

#[test]
fn adopted_page_becomes_a_slab() {
    let mut mem = SparseMemory::new();
    let mut cache = SCache::new(1024);
    let page: u64 = WINDOW + 0x20_0000;
    let obj = cache.adopt_page(&mut mem, page);
    assert_eq!(obj, page + 1024);
    let header = read_header(&mem, page);
    assert_eq!(header.next_slab, 0);
    assert_eq!(header.freelist, page + 2048);
    assert_eq!(header.in_use, 1);
    assert_eq!(header.object_size, 1024);
    assert_eq!(read_free_object(&mem, page + 2048).next, page + 3072);
    assert_eq!(read_free_object(&mem, page + 3072).next, 0);
}

#[test]
fn bucket_cache_hands_out_and_takes_back() {
    let (mut mem, mut provider) = heap_with_pages(2);
    let mut bucket = KmemCache::new(64);
    let a = bucket.allocate(&mut mem, &mut provider).unwrap();
    let b = bucket.allocate(&mut mem, &mut provider).unwrap();
    assert_eq!(a & !4095, b & !4095);
    assert_eq!(b, a + 64);
    assert_eq!(mem.read((a & !4095) + 24), 64);
    bucket.dealloc(&mut mem, b, &mut provider);
    assert_eq!(bucket.allocate(&mut mem, &mut provider), Some(b));
    bucket.dealloc(&mut mem, a, &mut provider);
    bucket.dealloc(&mut mem, b, &mut provider);
    let mut count = 0;
    while provider.frame_allocator.allocate(&mut mem, 0).is_some() {
        count += 1;
    }
    assert_eq!(count, 2);
}
