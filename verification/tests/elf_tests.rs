use kernel::mm::slub::PageProvider;
use kernel::mm::user::{translate_addr, AddressSpace, MapError};
use kernel::mm::window::{SparseMemory, WordMemory};
use kernel::tasks::elf::{
    load_elf, parse_header, parse_program_header, ElfError, ElfLoadResult, Error, USER_STACK_TOP,
};

struct BumpProvider {
    next: u64,
    end: u64,
}

impl PageProvider for BumpProvider {
    fn alloc_page<M: WordMemory>(&mut self, _mem: &mut M) -> Option<u64> {
        if self.next >= self.end {
            None
        } else {
            let page = self.next;
            self.next += 4096;
            Some(page)
        }
    }

    fn free_page<M: WordMemory>(&mut self, _mem: &mut M, _page: u64) {}
}

const OFFSET: u64 = 0x1000_0000;

fn put(bytes: &mut Vec<u8>, at: usize, value: u64, width: usize) {
    for k in 0..width {
        bytes[at + k] = ((value >> (8 * k)) & 0xff) as u8;
    }
}

fn minimal_elf(vaddr: u64, code: &[u8], memsz: u64, flags: u64) -> Vec<u8> {
    let mut bytes = vec![0u8; 120];
    bytes[0] = 0x7f;
    bytes[1] = 0x45;
    bytes[2] = 0x4c;
    bytes[3] = 0x46;
    bytes[4] = 2;
    bytes[5] = 1;
    put(&mut bytes, 24, vaddr, 8);
    put(&mut bytes, 32, 64, 8);
    put(&mut bytes, 54, 56, 2);
    put(&mut bytes, 56, 1, 2);
    put(&mut bytes, 64, 1, 4);
    put(&mut bytes, 68, flags, 4);
    put(&mut bytes, 72, 120, 8);
    put(&mut bytes, 80, vaddr, 8);
    put(&mut bytes, 96, code.len() as u64, 8);
    put(&mut bytes, 104, memsz, 8);
    bytes.extend_from_slice(code);
    bytes
}

fn fresh() -> (SparseMemory, BumpProvider, AddressSpace) {
    let mut mem = SparseMemory::new();
    let mut provider = BumpProvider { next: OFFSET + 0x10_0000, end: OFFSET + 0x40_0000 };
    let space = AddressSpace::create(&mut mem, &mut provider, OFFSET).unwrap();
    (mem, provider, space)
}

#[test]
fn elf_load() {
    let bytes = minimal_elf(0x40_0000, &[0xEB, 0xFE], 2, 5);
    let (mut mem, mut provider, mut space) = fresh();
    let result = load_elf(&bytes, &mut mem, &mut provider, &mut space).unwrap();
    assert_eq!(result.entry_point, 0x40_0000);
    assert_eq!(result.stack_top, 0x7_FFFF_F000);
    assert_eq!(result.stack_top, USER_STACK_TOP);
    let phys = translate_addr(&mem, &space, 0x40_0000).unwrap();
    assert_eq!(mem.read(OFFSET + phys), 0xFEEB);
    for j in 1..512u64 {
        assert_eq!(mem.read(OFFSET + phys + 8 * j), 0);
    }
    for k in 0..16u64 {
        let page = USER_STACK_TOP - 16 * 4096 + k * 4096;
        let frame = translate_addr(&mem, &space, page).unwrap();
        assert_eq!(frame % 4096, 0);
        assert_eq!(mem.read(OFFSET + frame), 0);
    }
    assert_eq!(translate_addr(&mem, &space, USER_STACK_TOP), None);
    assert_eq!(translate_addr(&mem, &space, 0x40_1000), None);
}

#[test]
fn loading_twice_gives_the_same_pages() {
    let code: Vec<u8> = (0..5000u32).map(|i| (i % 251) as u8).collect();
    let bytes = minimal_elf(0x40_0010, &code, 9000, 6);
    let (mut mem_a, mut provider_a, mut space_a) = fresh();
    let a = load_elf(&bytes, &mut mem_a, &mut provider_a, &mut space_a).unwrap();
    let mut mem_b = SparseMemory::new();
    let mut provider_b = BumpProvider { next: OFFSET + 0x80_0000, end: OFFSET + 0xc0_0000 };
    let mut space_b = AddressSpace::create(&mut mem_b, &mut provider_b, OFFSET).unwrap();
    let b = load_elf(&bytes, &mut mem_b, &mut provider_b, &mut space_b).unwrap();
    assert_eq!(a, b);
    assert_eq!(a, ElfLoadResult { entry_point: 0x40_0010, stack_top: USER_STACK_TOP });
    for page in [0x40_0000u64, 0x40_1000, 0x40_2000] {
        let fa = translate_addr(&mem_a, &space_a, page).unwrap();
        let fb = translate_addr(&mem_b, &space_b, page).unwrap();
        assert_ne!(fa, fb);
        for j in 0..512u64 {
            assert_eq!(mem_a.read(OFFSET + fa + 8 * j), mem_b.read(OFFSET + fb + 8 * j));
        }
    }
    let first = translate_addr(&mem_a, &space_a, 0x40_0000).unwrap();
    assert_eq!(mem_a.read(OFFSET + first), 0);
    assert_eq!(mem_a.read(OFFSET + first + 16), 0x0706_0504_0302_0100);
    let last = translate_addr(&mem_a, &space_a, 0x40_2000).unwrap();
    assert_eq!(mem_a.read(OFFSET + last + 8 * 511), 0);
    assert_eq!(translate_addr(&mem_a, &space_a, 0x40_3000), None);
}

#[test]
fn bad_magic_is_invalid() {
    let mut bytes = minimal_elf(0x40_0000, &[0xEB, 0xFE], 2, 5);
    bytes[1] = 0x46;
    let (mut mem, mut provider, mut space) = fresh();
    assert_eq!(
        load_elf(&bytes, &mut mem, &mut provider, &mut space),
        Err(Error::InvalidElf(ElfError::BadMagic))
    );
    assert_eq!(parse_header(&bytes), Err(ElfError::BadMagic));
}

#[test]
fn short_file_and_wrong_class_are_invalid() {
    let bytes = minimal_elf(0x40_0000, &[0xEB, 0xFE], 2, 5);
    assert_eq!(parse_header(&bytes[..63]), Err(ElfError::TooSmall));
    let mut other = bytes.clone();
    other[4] = 1;
    assert_eq!(parse_header(&other), Err(ElfError::NotElf64));
    let header = parse_header(&bytes).unwrap();
    assert_eq!(header.entry, 0x40_0000);
    assert_eq!(header.phoff, 64);
    assert_eq!(header.phentsize, 56);
    assert_eq!(header.phnum, 1);
    let ph = parse_program_header(&bytes, &header, 0).unwrap();
    assert_eq!(ph.p_type, 1);
    assert_eq!(ph.p_flags, 5);
    assert_eq!(ph.p_offset, 120);
    assert_eq!(ph.p_vaddr, 0x40_0000);
    assert_eq!(ph.p_filesz, 2);
    assert_eq!(ph.p_memsz, 2);
    assert_eq!(parse_program_header(&bytes, &header, 1), None);
}

#[test]
fn program_header_beyond_the_file_is_invalid() {
    let mut bytes = minimal_elf(0x40_0000, &[0xEB, 0xFE], 2, 5);
    put(&mut bytes, 56, 2, 2);
    let (mut mem, mut provider, mut space) = fresh();
    assert_eq!(
        load_elf(&bytes, &mut mem, &mut provider, &mut space),
        Err(Error::InvalidElf(ElfError::ProgramHeaderOutOfBounds))
    );
}

#[test]
fn segment_data_beyond_the_file_is_invalid() {
    let mut bytes = minimal_elf(0x40_0000, &[0xEB, 0xFE], 2, 5);
    put(&mut bytes, 96, 3, 8);
    put(&mut bytes, 104, 3, 8);
    let (mut mem, mut provider, mut space) = fresh();
    assert_eq!(
        load_elf(&bytes, &mut mem, &mut provider, &mut space),
        Err(Error::InvalidElf(ElfError::SegmentDataOutOfBounds))
    );
}

#[test]
fn segment_at_the_end_of_the_address_space_is_invalid() {
    let bytes = minimal_elf(0xffff_ffff_ffff_f000, &[0xEB, 0xFE], 2, 5);
    let (mut mem, mut provider, mut space) = fresh();
    assert_eq!(
        load_elf(&bytes, &mut mem, &mut provider, &mut space),
        Err(Error::InvalidElf(ElfError::SegmentAddressOverflow))
    );
}

#[test]
fn non_canonical_segment_fails_to_map() {
    let bytes = minimal_elf(0x0000_8000_0000_0000, &[0xEB, 0xFE], 2, 5);
    let (mut mem, mut provider, mut space) = fresh();
    assert_eq!(
        load_elf(&bytes, &mut mem, &mut provider, &mut space),
        Err(Error::MappingFailed(MapError::NonCanonicalAddress))
    );
}

#[test]
fn running_out_of_frames_fails_to_map() {
    let bytes = minimal_elf(0x40_0000, &[0xEB, 0xFE], 2, 5);
    let mut mem = SparseMemory::new();
    let mut provider = BumpProvider { next: OFFSET + 0x10_0000, end: OFFSET + 0x10_6000 };
    let mut space = AddressSpace::create(&mut mem, &mut provider, OFFSET).unwrap();
    let result = load_elf(&bytes, &mut mem, &mut provider, &mut space);
    assert!(matches!(result, Err(Error::MappingFailed(_))));
    assert_eq!(MapError::FrameAllocationFailed.message(), "Failed to allocate frame");
    assert_eq!(MapError::PageAlreadyMapped.message(), "Failed to map page");
}

#[test]
fn segment_without_memory_is_skipped() {
    let bytes = minimal_elf(0x40_0800, &[], 0, 5);
    let (mut mem, mut provider, mut space) = fresh();
    let result = load_elf(&bytes, &mut mem, &mut provider, &mut space).unwrap();
    assert_eq!(result.entry_point, 0x40_0800);
    assert_eq!(translate_addr(&mem, &space, 0x40_0000), None);
}

#[test]
fn loading_stops_at_a_page_already_mapped() {
    let bytes = minimal_elf(0x40_0000, &[0xEB, 0xFE], 0x1800, 5);
    let (mut mem, mut provider, mut space) = fresh();
    let taken = kernel::mm::user::map_user_page(
        &mut mem,
        &mut provider,
        &mut space,
        0x40_1000,
        kernel::mm::user::PRESENT,
    )
    .unwrap();
    assert_eq!(
        load_elf(&bytes, &mut mem, &mut provider, &mut space),
        Err(Error::MappingFailed(MapError::PageAlreadyMapped))
    );
    let first = translate_addr(&mem, &space, 0x40_0000).unwrap();
    assert_eq!(mem.read(OFFSET + first), 0xFEEB);
    assert_eq!(translate_addr(&mem, &space, 0x40_1000), Some(taken));
}

#[test]
fn buddy_provider_gives_and_takes_single_pages() {
    let mut mem = SparseMemory::new();
    let mut pages = kernel::mm::allocator::init_heap(OFFSET);
    assert_eq!(pages.alloc_page(&mut mem), None);
    pages.free_page(&mut mem, OFFSET + 0x3000);
    pages.free_page(&mut mem, OFFSET + 0x2000);
    pages.free_page(&mut mem, 0x1000);
    assert_eq!(pages.frame_allocator.allocate(&mut mem, 1), Some(OFFSET + 0x2000));
    pages.free_page(&mut mem, OFFSET + 0x2000);
    assert_eq!(pages.alloc_page(&mut mem), Some(OFFSET + 0x2000));
    assert_eq!(pages.alloc_page(&mut mem), None);
    pages.free_page(&mut mem, OFFSET + 0x3000);
    pages.free_page(&mut mem, OFFSET + 0x2000);
    assert_eq!(pages.alloc_page(&mut mem), Some(OFFSET + 0x2000));
    assert_eq!(pages.alloc_page(&mut mem), Some(OFFSET + 0x3000));
    assert_eq!(pages.alloc_page(&mut mem), None);
}
