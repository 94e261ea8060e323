use kernel::mm::slub::PageProvider;
use kernel::mm::user::{
    enter_user_page, frame_of_page, map_user_page, set_page_user_accessible, translate_addr,
    AddressSpace, MapError, NO_EXECUTE, PRESENT, USER_ACCESSIBLE, WRITABLE,
};
use kernel::mm::window::{SparseMemory, WordMemory};

/// Hands out consecutive pages from a fixed range.
struct BumpProvider {
    next: u64,
    end: u64,
}

impl PageProvider for BumpProvider {
    fn alloc_page<M: WordMemory>(&mut self, _mem: &mut M) -> Option<u64> {
        if self.next >= self.end {
            None
        } else {
            let page = self.next;
            self.next += 4096;
            Some(page)
        }
    }

    fn free_page<M: WordMemory>(&mut self, _mem: &mut M, _page: u64) {}
}

const OFFSET: u64 = 0x1000_0000;

fn entry(mem: &SparseMemory, space: &AddressSpace, table: u64, index: u64) -> u64 {
    mem.read(space.phys_offset + table + 8 * index)
}

#[test]
fn user_accessible_propagation() {
    let mut mem = SparseMemory::new();
    let mut provider = BumpProvider { next: OFFSET + 0x10_0000, end: OFFSET + 0x20_0000 };
    let mut space = AddressSpace::create(&mut mem, &mut provider, OFFSET).unwrap();
    let v: u64 = 0x40_0000;
    let phys = map_user_page(&mut mem, &mut provider, &mut space, v, PRESENT | NO_EXECUTE).unwrap();
    let e4 = entry(&mem, &space, space.level_4, 0);
    assert_eq!(e4 & USER_ACCESSIBLE, 0);
    let t3 = e4 & 0x000f_ffff_ffff_f000;
    let e3 = entry(&mem, &space, t3, 0);
    assert_eq!(e3 & USER_ACCESSIBLE, 0);

    set_page_user_accessible(&mut mem, &space, v, true, false);

    let e4 = entry(&mem, &space, space.level_4, 0);
    let e3 = entry(&mem, &space, e4 & 0x000f_ffff_ffff_f000, 0);
    let e2 = entry(&mem, &space, e3 & 0x000f_ffff_ffff_f000, 2);
    let e1 = entry(&mem, &space, e2 & 0x000f_ffff_ffff_f000, 0);
    assert_ne!(e4 & USER_ACCESSIBLE, 0);
    assert_ne!(e3 & USER_ACCESSIBLE, 0);
    assert_ne!(e2 & USER_ACCESSIBLE, 0);
    assert_ne!(e1 & USER_ACCESSIBLE, 0);
    assert_ne!(e1 & WRITABLE, 0);
    assert_ne!(e1 & NO_EXECUTE, 0);
    assert_eq!(e1 & 0x000f_ffff_ffff_f000, phys);
    assert_eq!(translate_addr(&mem, &space, v + 0x123), Some(phys + 0x123));
}

#[test]
fn non_canonical_address_is_refused() {
    let mut mem = SparseMemory::new();
    let mut provider = BumpProvider { next: OFFSET + 0x10_0000, end: OFFSET + 0x20_0000 };
    let mut space = AddressSpace::create(&mut mem, &mut provider, OFFSET).unwrap();
    let r = map_user_page(&mut mem, &mut provider, &mut space, 0x0000_8000_0000_0000, PRESENT);
    assert_eq!(r, Err(MapError::NonCanonicalAddress));
}

#[test]
fn granting_access_twice_changes_nothing() {
    let mut mem = SparseMemory::new();
    let mut provider = BumpProvider { next: OFFSET + 0x10_0000, end: OFFSET + 0x20_0000 };
    let mut space = AddressSpace::create(&mut mem, &mut provider, OFFSET).unwrap();
    let v: u64 = 0x7_FFFF_E000;
    map_user_page(&mut mem, &mut provider, &mut space, v, PRESENT | NO_EXECUTE).unwrap();
    set_page_user_accessible(&mut mem, &space, v, false, true);
    let mut once = Vec::new();
    let mut addr = OFFSET + 0x10_0000;
    while addr < provider.next {
        once.push(mem.read(addr));
        addr += 8;
    }
    set_page_user_accessible(&mut mem, &space, v, false, true);
    let mut twice = Vec::new();
    let mut addr = OFFSET + 0x10_0000;
    while addr < provider.next {
        twice.push(mem.read(addr));
        addr += 8;
    }
    assert_eq!(once, twice);
}

#[test]
fn walk_uses_the_index_of_each_level() {
    let mut mem = SparseMemory::new();
    let mut provider = BumpProvider { next: OFFSET + 0x10_0000, end: OFFSET + 0x20_0000 };
    let mut space = AddressSpace::create(&mut mem, &mut provider, OFFSET).unwrap();
    let v: u64 = (5 << 39) | (7 << 30) | (11 << 21) | (13 << 12);
    let flags = PRESENT | WRITABLE | USER_ACCESSIBLE;
    let phys = map_user_page(&mut mem, &mut provider, &mut space, v, flags).unwrap();
    let e4 = entry(&mem, &space, space.level_4, 5);
    assert_eq!(e4 & 7, 7);
    let e3 = entry(&mem, &space, e4 & 0x000f_ffff_ffff_f000, 7);
    assert_eq!(e3 & 7, 7);
    let e2 = entry(&mem, &space, e3 & 0x000f_ffff_ffff_f000, 11);
    assert_eq!(e2 & 7, 7);
    let e1 = entry(&mem, &space, e2 & 0x000f_ffff_ffff_f000, 13);
    assert_eq!(e1, phys | flags);
    assert_eq!(entry(&mem, &space, space.level_4, 0), 0);
    assert_eq!(translate_addr(&mem, &space, v + 0xfff), Some(phys + 0xfff));
    assert_eq!(translate_addr(&mem, &space, v + 0x1000), None);
    assert_eq!(
        map_user_page(&mut mem, &mut provider, &mut space, v, flags),
        Err(MapError::PageAlreadyMapped)
    );
    let high: u64 = 0xffff_8000_0000_0000;
    assert!(map_user_page(&mut mem, &mut provider, &mut space, high, flags).is_ok());
    assert_ne!(entry(&mem, &space, space.level_4, 256), 0);
}

#[test]
fn mapping_fails_without_frames() {
    let mut mem = SparseMemory::new();
    let mut provider = BumpProvider { next: OFFSET + 0x10_0000, end: OFFSET + 0x10_1000 };
    let mut space = AddressSpace::create(&mut mem, &mut provider, OFFSET).unwrap();
    assert_eq!(
        map_user_page(&mut mem, &mut provider, &mut space, 0x40_0000, PRESENT),
        Err(MapError::FrameAllocationFailed)
    );
    let mut provider = BumpProvider { next: OFFSET + 0x20_0000, end: OFFSET + 0x20_2000 };
    assert_eq!(
        map_user_page(&mut mem, &mut provider, &mut space, 0x40_0000, PRESENT),
        Err(MapError::TableAllocationFailed)
    );
    let mut empty = BumpProvider { next: 0, end: 0 };
    assert!(matches!(
        AddressSpace::create(&mut mem, &mut empty, OFFSET),
        Err(MapError::TableAllocationFailed)
    ));
    let mut low = BumpProvider { next: 0x1000, end: 0x2000 };
    assert!(matches!(
        AddressSpace::create(&mut mem, &mut low, OFFSET),
        Err(MapError::FrameOutsideWindow)
    ));
}

fn rooted(mem: &mut SparseMemory) -> AddressSpace {
    AddressSpace::with_root(mem, OFFSET, Some(OFFSET + 0x10_0000)).unwrap()
}

#[test]
fn page_enters_with_the_pages_handed_in() {
    let mut mem = SparseMemory::new();
    let mut space = rooted(&mut mem);
    assert_eq!(space.phys_offset, OFFSET);
    assert_eq!(space.level_4, 0x10_0000);
    let v: u64 = 0x40_0000;
    let frame = OFFSET + 0x20_0000;
    let spare = [Some(OFFSET + 0x30_0000), Some(OFFSET + 0x31_0000), Some(OFFSET + 0x32_0000)];
    mem.write(OFFSET + 0x30_0000 + 8, 77);
    let flags = PRESENT | WRITABLE | NO_EXECUTE;
    let r = enter_user_page(&mut mem, &mut space, v, flags, Some(frame), spare);
    assert_eq!(r, Ok(0x20_0000));
    assert_eq!(entry(&mem, &space, space.level_4, 0), 0x30_0000 | PRESENT | WRITABLE);
    assert_eq!(entry(&mem, &space, 0x30_0000, 0), 0x31_0000 | PRESENT | WRITABLE);
    assert_eq!(entry(&mem, &space, 0x30_0000, 1), 0);
    assert_eq!(entry(&mem, &space, 0x31_0000, 2), 0x32_0000 | PRESENT | WRITABLE);
    assert_eq!(entry(&mem, &space, 0x32_0000, 0), 0x20_0000 | flags);
    assert_eq!(translate_addr(&mem, &space, v + 8), Some(0x20_0000 + 8));

    let again = enter_user_page(&mut mem, &mut space, v, flags, Some(OFFSET + 0x21_0000), [None; 3]);
    assert_eq!(again, Err(MapError::PageAlreadyMapped));
    assert_eq!(entry(&mem, &space, 0x32_0000, 0), 0x20_0000 | flags);

    let next = enter_user_page(&mut mem, &mut space, v + 4096, flags, Some(OFFSET + 0x21_0000), [None; 3]);
    assert_eq!(next, Ok(0x21_0000));
    assert_eq!(entry(&mem, &space, 0x32_0000, 1), 0x21_0000 | flags);
}

#[test]
fn entering_names_what_is_missing() {
    let mut mem = SparseMemory::new();
    let mut space = rooted(&mut mem);
    let v: u64 = 0x40_0000;
    let frame = Some(OFFSET + 0x20_0000);
    let all = [Some(OFFSET + 0x30_0000), Some(OFFSET + 0x31_0000), Some(OFFSET + 0x32_0000)];

    let r = enter_user_page(&mut mem, &mut space, 0x0000_8000_0000_0000, PRESENT, frame, all);
    assert_eq!(r, Err(MapError::NonCanonicalAddress));
    let r = enter_user_page(&mut mem, &mut space, v, PRESENT, None, all);
    assert_eq!(r, Err(MapError::FrameAllocationFailed));
    let r = enter_user_page(&mut mem, &mut space, v, PRESENT, Some(OFFSET + 0x20_0008), all);
    assert_eq!(r, Err(MapError::FrameOutsideWindow));
    let r = enter_user_page(&mut mem, &mut space, v, PRESENT, Some(OFFSET - 4096), all);
    assert_eq!(r, Err(MapError::FrameOutsideWindow));
    assert_eq!(entry(&mem, &space, space.level_4, 0), 0);

    let r = enter_user_page(&mut mem, &mut space, v, 0, frame, all);
    assert_eq!(r, Err(MapError::ParentEntryUnusable));
    assert_eq!(entry(&mem, &space, space.level_4, 0), 0);

    let r = enter_user_page(&mut mem, &mut space, v, PRESENT, frame, [all[0], None, None]);
    assert_eq!(r, Err(MapError::TableAllocationFailed));
    assert_eq!(entry(&mem, &space, space.level_4, 0), 0x30_0000 | PRESENT);
    assert_eq!(entry(&mem, &space, 0x30_0000, 0), 0);

    let r = enter_user_page(&mut mem, &mut space, v, PRESENT, frame, [Some(12), None, None]);
    assert_eq!(r, Err(MapError::FrameOutsideWindow));

    mem.write(OFFSET + 0x30_0000, 0x5000_0000 | PRESENT | 0x80);
    let r = enter_user_page(&mut mem, &mut space, v, PRESENT, frame, all);
    assert_eq!(r, Err(MapError::ParentEntryUnusable));
    mem.write(OFFSET + 0x30_0000, 0x5000_0000 | WRITABLE);
    let r = enter_user_page(&mut mem, &mut space, v, PRESENT, frame, all);
    assert_eq!(r, Err(MapError::ParentEntryUnusable));
}

#[test]
fn root_is_made_of_the_page_handed_in() {
    let mut mem = SparseMemory::new();
    mem.write(OFFSET + 0x10_0000 + 16, 9);
    let space = AddressSpace::with_root(&mut mem, OFFSET, Some(OFFSET + 0x10_0000)).unwrap();
    assert_eq!(space.level_4, 0x10_0000);
    assert_eq!(mem.read(OFFSET + 0x10_0000 + 16), 0);
    assert_eq!(
        AddressSpace::with_root(&mut mem, OFFSET, None).err(),
        Some(MapError::TableAllocationFailed)
    );
    assert_eq!(
        AddressSpace::with_root(&mut mem, OFFSET, Some(OFFSET - 4096)).err(),
        Some(MapError::FrameOutsideWindow)
    );
    assert_eq!(frame_of_page(OFFSET, Some(OFFSET + 0x3000), MapError::TableAllocationFailed), Ok(0x3000));
    assert_eq!(
        frame_of_page(OFFSET, Some(OFFSET + 0x3001), MapError::TableAllocationFailed),
        Err(MapError::FrameOutsideWindow)
    );
    assert_eq!(
        frame_of_page(OFFSET, None, MapError::FrameAllocationFailed),
        Err(MapError::FrameAllocationFailed)
    );
}

#[test]
fn mapping_takes_one_page_for_each_table_that_is_missing() {
    let mut mem = SparseMemory::new();
    let mut provider = BumpProvider { next: OFFSET + 0x10_0000, end: OFFSET + 0x20_0000 };
    let mut space = AddressSpace::create(&mut mem, &mut provider, OFFSET).unwrap();
    assert_eq!(provider.next, OFFSET + 0x10_1000);
    let v: u64 = 0x40_0000;
    assert_eq!(map_user_page(&mut mem, &mut provider, &mut space, v, PRESENT), Ok(0x10_1000));
    assert_eq!(provider.next, OFFSET + 0x10_5000);
    assert_eq!(map_user_page(&mut mem, &mut provider, &mut space, v + 4096, PRESENT), Ok(0x10_5000));
    assert_eq!(provider.next, OFFSET + 0x10_6000);
    let far: u64 = 0x4000_0000;
    assert_eq!(map_user_page(&mut mem, &mut provider, &mut space, far, PRESENT), Ok(0x10_6000));
    assert_eq!(provider.next, OFFSET + 0x10_9000);
    assert_eq!(
        map_user_page(&mut mem, &mut provider, &mut space, v, PRESENT),
        Err(MapError::PageAlreadyMapped)
    );
    assert_eq!(provider.next, OFFSET + 0x10_a000);
}

#[test]
fn mapping_stops_at_the_table_that_has_no_page() {
    let mut mem = SparseMemory::new();
    let mut provider = BumpProvider { next: OFFSET + 0x10_0000, end: OFFSET + 0x10_3000 };
    let mut space = AddressSpace::create(&mut mem, &mut provider, OFFSET).unwrap();
    let v: u64 = 0x40_0000;
    assert_eq!(
        map_user_page(&mut mem, &mut provider, &mut space, v, PRESENT),
        Err(MapError::TableAllocationFailed)
    );
    assert_eq!(entry(&mem, &space, space.level_4, 0), 0x10_2000 | PRESENT);
    assert_eq!(entry(&mem, &space, 0x10_2000, 0), 0);
}

#[test]
fn existing_tables_are_adopted() {
    let mut mem = SparseMemory::new();
    let mut provider = BumpProvider { next: OFFSET + 0x10_0000, end: OFFSET + 0x20_0000 };
    let mut space = AddressSpace::create(&mut mem, &mut provider, OFFSET).unwrap();
    map_user_page(&mut mem, &mut provider, &mut space, 0x40_0000, PRESENT).unwrap();
    map_user_page(&mut mem, &mut provider, &mut space, 0x4000_0000, PRESENT).unwrap();
    let root = space.level_4;

    let mut adopted = AddressSpace::adopt(&mem, OFFSET, root, 16).unwrap();
    assert_eq!(adopted.phys_offset, OFFSET);
    assert_eq!(adopted.level_4, root);
    let phys = map_user_page(&mut mem, &mut provider, &mut adopted, 0x40_1000, PRESENT).unwrap();
    assert_eq!(translate_addr(&mem, &adopted, 0x40_1008), Some(phys + 8));

    assert!(AddressSpace::adopt(&mem, OFFSET, root, 6).is_some());
    assert!(AddressSpace::adopt(&mem, OFFSET, root, 5).is_none());
    assert!(AddressSpace::adopt(&mem, OFFSET, root, 0).is_none());
    assert!(AddressSpace::adopt(&mem, OFFSET, root + 8, 16).is_none());
    assert!(AddressSpace::adopt(&mem, OFFSET + 8, root, 16).is_none());
}

#[test]
fn tables_that_form_no_tree_are_not_adopted() {
    let mut mem = SparseMemory::new();
    let root: u64 = 0x10_0000;
    let space = AddressSpace::with_root(&mut mem, OFFSET, Some(OFFSET + root)).unwrap();
    assert!(AddressSpace::adopt(&mem, OFFSET, root, 4).is_some());

    // An entry in use that is not present.
    mem.write(OFFSET + root + 8, 0x20_0000 | WRITABLE);
    assert!(AddressSpace::adopt(&mem, OFFSET, root, 4).is_none());

    // A table that is reached at two levels: the level-4 table points to
    // itself.
    mem.write(OFFSET + root + 8, root | PRESENT);
    assert!(AddressSpace::adopt(&mem, OFFSET, root, 4).is_none());

    // A table outside the window.
    let high: u64 = 0xffff_8000_0000_0000;
    assert!(AddressSpace::adopt(&mem, high, root, 4).is_some());
    mem.write(high + root + 16, 0x000f_ffff_ffff_f000 | PRESENT);
    assert!(AddressSpace::adopt(&mem, high, root, 4).is_none());

    // A huge page ends the walk.
    mem.write(OFFSET + root + 8, 0x4000_0000 | PRESENT | 0x80);
    assert!(AddressSpace::adopt(&mem, OFFSET, root, 1).is_some());
    assert_eq!(space.level_4, root);
}
