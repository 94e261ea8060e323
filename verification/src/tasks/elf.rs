//! Loader for statically linked 64-bit little-endian ELF executables.
//!
//! Loading has two passes. The first reads the file header and every program
//! header and checks them against the file; it touches no memory, so whether
//! a file is rejected as invalid depends on its bytes alone. The second maps
//! and fills the pages of each loadable segment and then the user stack.

use crate::mm::slub::{lemma_provider_ok_kept, provider_ok, PageProvider};
use crate::mm::user::{
    entered_from, entries_kept, entry_addr, entry_of, entry_of_page, is_canonical, leaves_kept,
    lemma_mapping_kept, lemma_walk_reaches_kept, map_user_page, maps_to, records_kept,
    table_index, walk_of, walk_reaches, AddressSpace, Entering, MapError, NO_EXECUTE, PRESENT,
    USER_ACCESSIBLE, WRITABLE,
};
use crate::mm::window::{page_base, WordMemory};
use vstd::prelude::*;

verus! {

/// Top of the user stack; the stack grows down from here.
pub const USER_STACK_TOP: u64 = 0x7_FFFF_F000;

/// Number of pages of the user stack.
pub const USER_STACK_PAGES: u64 = 16;

/// Size of the user stack in bytes.
pub const USER_STACK_SIZE: u64 = 65536;

/// Size of the ELF file header.
pub const HEADER_SIZE: usize = 64;

/// Size of one program header.
pub const PROGRAM_HEADER_SIZE: usize = 56;

/// Program header type of a loadable segment.
pub const PT_LOAD: u32 = 1;

/// Why a file is not an executable that can be loaded.
#[derive(Clone, Copy, Debug, PartialEq, Eq, Structural)]
pub enum ElfError {
    /// The file is shorter than a file header.
    TooSmall,
    /// The file does not start with the bytes 7f 45 4c 46.
    BadMagic,
    /// The class byte does not say 64-bit.
    NotElf64,
    /// A program header reaches beyond the end of the file.
    ProgramHeaderOutOfBounds,
    /// The end of a loadable segment, rounded up to a page, is beyond the
    /// address space.
    SegmentAddressOverflow,
    /// The file bytes of a loadable segment reach beyond the end of the file.
    SegmentDataOutOfBounds,
}

/// Why loading failed.
#[derive(Clone, Copy, Debug, PartialEq, Eq, Structural)]
pub enum Error {
    /// A page could not be mapped.
    MappingFailed(MapError),
    /// The file is malformed.
    InvalidElf(ElfError),
}

/// What the loader hands to task admission.
#[derive(Clone, Copy, Debug, PartialEq, Eq, Structural)]
pub struct ElfLoadResult {
    pub entry_point: u64,
    pub stack_top: u64,
}

/// The fields of the file header that loading uses.
#[derive(Clone, Copy, Debug, PartialEq, Eq, Structural)]
pub struct ElfHeader {
    pub entry: u64,
    pub phoff: u64,
    pub phentsize: u16,
    pub phnum: u16,
}

/// The fields of a program header that loading uses.
#[derive(Clone, Copy, Debug, PartialEq, Eq, Structural)]
pub struct ProgramHeader {
    pub p_type: u32,
    pub p_flags: u32,
    pub p_offset: u64,
    pub p_vaddr: u64,
    pub p_filesz: u64,
    pub p_memsz: u64,
}

/// The little-endian number in the `width` bytes of `data` from `at`.
pub open spec fn le_value(data: Seq<u8>, at: int, width: nat) -> nat
    decreases width,
{
    if width == 0 {
        0
    } else {
        data[at] as nat + 256 * le_value(data, at + 1, (width - 1) as nat)
    }
}

/// The file header of `data`, or the reason it has none.
pub open spec fn header_of(data: Seq<u8>) -> Result<ElfHeader, ElfError> {
    if data.len() < 64 {
        Err(ElfError::TooSmall)
    } else if !(data[0] == 0x7f && data[1] == 0x45 && data[2] == 0x4c && data[3] == 0x46) {
        Err(ElfError::BadMagic)
    } else if data[4] != 2 {
        Err(ElfError::NotElf64)
    } else {
        Ok(
            ElfHeader {
                entry: le_value(data, 24, 8) as u64,
                phoff: le_value(data, 32, 8) as u64,
                phentsize: le_value(data, 54, 2) as u16,
                phnum: le_value(data, 56, 2) as u16,
            },
        )
    }
}

/// Where program header `index` starts in the file.
pub open spec fn program_header_start(header: ElfHeader, index: int) -> int {
    header.phoff + index * header.phentsize
}

/// Program header `index` of `data`, or `None` if it reaches beyond the file.
pub open spec fn program_header_of(data: Seq<u8>, header: ElfHeader, index: int) -> Option<
    ProgramHeader,
> {
    let start = program_header_start(header, index);
    if start + 56 > data.len() {
        None
    } else {
        Some(
            ProgramHeader {
                p_type: le_value(data, start, 4) as u32,
                p_flags: le_value(data, start + 4, 4) as u32,
                p_offset: le_value(data, start + 8, 8) as u64,
                p_vaddr: le_value(data, start + 16, 8) as u64,
                p_filesz: le_value(data, start + 32, 8) as u64,
                p_memsz: le_value(data, start + 40, 8) as u64,
            },
        )
    }
}

impl ProgramHeader {
    /// A segment is loaded if its type is LOAD and it occupies memory.
    pub open spec fn is_loaded(&self) -> bool {
        self.p_type == PT_LOAD && self.p_memsz > 0
    }

    /// First address of the first page of the segment.
    pub open spec fn start_page(&self) -> int {
        self.p_vaddr - self.p_vaddr % 4096
    }

    /// First address after the last page of the segment.
    pub open spec fn end_page(&self) -> int {
        let end = self.p_vaddr + self.p_memsz + 4095;
        end - end % 4096
    }

    /// Number of file bytes that land in the segment's pages.
    pub open spec fn copied_len(&self) -> int {
        if self.p_filesz <= self.end_page() - self.p_vaddr {
            self.p_filesz as int
        } else {
            self.end_page() - self.p_vaddr
        }
    }

    /// Why the segment cannot be loaded from a file of `len` bytes, if it
    /// cannot.
    pub open spec fn defect(&self, len: nat) -> Option<ElfError> {
        if !self.is_loaded() {
            None
        } else if self.p_vaddr + self.p_memsz + 4095 > u64::MAX {
            Some(ElfError::SegmentAddressOverflow)
        } else if self.copied_len() > 0 && self.p_offset + self.copied_len() > len {
            Some(ElfError::SegmentDataOutOfBounds)
        } else {
            None
        }
    }

    /// The flags that the segment's pages are mapped with: present, user
    /// accessible and writable, and no-execute unless the segment is
    /// executable.
    pub open spec fn page_flags(&self) -> u64 {
        if self.p_flags & 1 == 0 {
            (PRESENT | USER_ACCESSIBLE | WRITABLE | NO_EXECUTE) as u64
        } else {
            (PRESENT | USER_ACCESSIBLE | WRITABLE) as u64
        }
    }

    /// Whether the page at `page` belongs to the segment.
    pub open spec fn has_page(&self, page: u64) -> bool {
        self.is_loaded() && page % 4096 == 0 && self.start_page() <= page < self.end_page()
    }

    /// The byte that loading puts at virtual address `addr` of one of the
    /// segment's pages: the file byte that belongs there, or zero.
    pub open spec fn byte_at(&self, data: Seq<u8>, addr: int) -> u8 {
        if self.p_vaddr <= addr < self.p_vaddr + self.p_filesz {
            data[self.p_offset + (addr - self.p_vaddr)]
        } else {
            0
        }
    }

    /// The word that loading puts at virtual address `addr`.
    pub open spec fn word_at(&self, data: Seq<u8>, addr: int) -> u64 {
        (self.byte_at(data, addr) as nat + 256 * (self.byte_at(data, addr + 1) as nat + 256 * (
        self.byte_at(data, addr + 2) as nat + 256 * (self.byte_at(data, addr + 3) as nat + 256 * (
        self.byte_at(data, addr + 4) as nat + 256 * (self.byte_at(data, addr + 5) as nat + 256 * (
        self.byte_at(data, addr + 6) as nat + 256 * (self.byte_at(data, addr + 7) as nat)))))))) as u64
    }
}

/// The first fault found in `data` when its headers are read in order, if
/// there is one: a fault of the file header, else the first program header
/// that is out of bounds or describes a segment that cannot be loaded.
pub open spec fn first_defect(data: Seq<u8>) -> Option<ElfError> {
    match header_of(data) {
        Err(e) => Some(e),
        Ok(header) => first_segment_defect(data, header, 0),
    }
}

/// The first fault among the program headers from `index` on.
pub open spec fn first_segment_defect(data: Seq<u8>, header: ElfHeader, index: int) -> Option<
    ElfError,
>
    decreases header.phnum - index,
{
    if index < 0 || index >= header.phnum {
        None
    } else {
        match program_header_of(data, header, index) {
            None => Some(ElfError::ProgramHeaderOutOfBounds),
            Some(ph) => match ph.defect(data.len()) {
                Some(e) => Some(e),
                None => first_segment_defect(data, header, index + 1),
            },
        }
    }
}

/// Reads one byte as a number.
fn byte(data: &[u8], at: usize) -> (value: u64)
    requires
        at < data@.len(),
    ensures
        value == data@[at as int],
{
    data[at] as u64
}

/// Reads a little-endian 16-bit number.
fn read_u16(data: &[u8], at: usize) -> (value: u16)
    requires
        at + 2 <= data@.len(),
    ensures
        value == le_value(data@, at as int, 2),
{
    reveal_with_fuel(le_value, 3);
    let len = data.len();
    let v = byte(data, at) + 256 * byte(data, at + 1);
    v as u16
}

/// Reads a little-endian 32-bit number.
fn read_u32(data: &[u8], at: usize) -> (value: u32)
    requires
        at + 4 <= data@.len(),
    ensures
        value == le_value(data@, at as int, 4),
{
    reveal_with_fuel(le_value, 5);
    let len = data.len();
    let v = byte(data, at) + 256 * (byte(data, at + 1) + 256 * (byte(data, at + 2) + 256 * byte(
        data,
        at + 3,
    )));
    v as u32
}

/// Reads a little-endian 64-bit number.
fn read_u64(data: &[u8], at: usize) -> (value: u64)
    requires
        at + 8 <= data@.len(),
    ensures
        value == le_value(data@, at as int, 8),
{
    reveal_with_fuel(le_value, 9);
    let len = data.len();
    let low = byte(data, at) + 256 * (byte(data, at + 1) + 256 * (byte(data, at + 2) + 256 * byte(
        data,
        at + 3,
    )));
    let high = byte(data, at + 4) + 256 * (byte(data, at + 5) + 256 * (byte(data, at + 6) + 256
        * byte(data, at + 7)));
    low + 4294967296 * high
}

/// Reads and checks the file header.
pub fn parse_header(data: &[u8]) -> (parsed: Result<ElfHeader, ElfError>)
    ensures
        parsed == header_of(data@),
{
    if data.len() < HEADER_SIZE {
        return Err(ElfError::TooSmall);
    }
    if !(data[0] == 0x7f && data[1] == 0x45 && data[2] == 0x4c && data[3] == 0x46) {
        return Err(ElfError::BadMagic);
    }
    if data[4] != 2 {
        return Err(ElfError::NotElf64);
    }
    Ok(
        ElfHeader {
            entry: read_u64(data, 24),
            phoff: read_u64(data, 32),
            phentsize: read_u16(data, 54),
            phnum: read_u16(data, 56),
        },
    )
}

/// Reads program header `index`, or returns `None` if it reaches beyond the
/// end of the file.
pub fn parse_program_header(data: &[u8], header: &ElfHeader, index: u16) -> (parsed: Option<
    ProgramHeader,
>)
    ensures
        parsed == program_header_of(data@, *header, index as int),
{
    let len = data.len() as u64;
    assert(index * header.phentsize <= 65535 * 65535) by (nonlinear_arith)
        requires
            index <= 65535,
            header.phentsize <= 65535,
    ;
    let within: u64 = index as u64 * header.phentsize as u64;
    if header.phoff > len || within > len - header.phoff || len - header.phoff - within < 56 {
        return None;
    }
    let start = (header.phoff + within) as usize;
    Some(
        ProgramHeader {
            p_type: read_u32(data, start),
            p_flags: read_u32(data, start + 4),
            p_offset: read_u64(data, start + 8),
            p_vaddr: read_u64(data, start + 16),
            p_filesz: read_u64(data, start + 32),
            p_memsz: read_u64(data, start + 40),
        },
    )
}

/// The fault of one segment, if it has one.
pub fn check_segment(ph: &ProgramHeader, len: usize) -> (fault: Option<ElfError>)
    ensures
        fault == ph.defect(len as nat),
{
    if ph.p_type != PT_LOAD || ph.p_memsz == 0 {
        return None;
    }
    if ph.p_memsz > u64::MAX - 4095 || ph.p_vaddr > u64::MAX - 4095 - ph.p_memsz {
        return Some(ElfError::SegmentAddressOverflow);
    }
    let end = ph.p_vaddr + ph.p_memsz + 4095;
    let end_page = end - end % 4096;
    let room = end_page - ph.p_vaddr;
    let copied = if ph.p_filesz <= room {
        ph.p_filesz
    } else {
        room
    };
    let len = len as u64;
    if copied > 0 && (ph.p_offset > len || copied > len - ph.p_offset) {
        return Some(ElfError::SegmentDataOutOfBounds);
    }
    None
}

/// Reads every program header in order and checks it and its segment.
/// Returns the headers, or the first fault.
pub fn parse_program_headers(data: &[u8], header: &ElfHeader) -> (parsed: Result<
    Vec<ProgramHeader>,
    ElfError,
>)
    ensures
        match parsed {
            Ok(headers) => {
                &&& first_segment_defect(data@, *header, 0) is None
                &&& headers@.len() == header.phnum
                &&& forall|i: int|
                    0 <= i < header.phnum ==> program_header_of(data@, *header, i) == Some(
                        #[trigger] headers@[i],
                    ) && headers@[i].defect(data@.len()) is None
            },
            Err(e) => first_segment_defect(data@, *header, 0) == Some(e),
        },
{
    let mut headers: Vec<ProgramHeader> = Vec::new();
    let mut index: u16 = 0;
    while index < header.phnum
        invariant
            index <= header.phnum,
            headers@.len() == index,
            first_segment_defect(data@, *header, 0) == first_segment_defect(
                data@,
                *header,
                index as int,
            ),
            forall|i: int|
                0 <= i < index ==> program_header_of(data@, *header, i) == Some(
                    #[trigger] headers@[i],
                ) && headers@[i].defect(data@.len()) is None,
        decreases header.phnum - index,
    {
        let ph = match parse_program_header(data, header, index) {
            Some(ph) => ph,
            None => {
                return Err(ElfError::ProgramHeaderOutOfBounds);
            },
        };
        match check_segment(&ph, data.len()) {
            Some(e) => {
                return Err(e);
            },
            None => {},
        }
        headers.push(ph);
        index = index + 1;
    }
    Ok(headers)
}

/// The flags that the stack's pages are mapped with.
pub open spec fn stack_flags() -> u64 {
    (PRESENT | WRITABLE | USER_ACCESSIBLE | NO_EXECUTE) as u64
}

/// The address of stack page `k`, counted from the bottom.
pub open spec fn stack_page(k: int) -> u64 {
    (USER_STACK_TOP - USER_STACK_SIZE + 4096 * k) as u64
}

/// The word that loading puts at virtual address `addr`: that of the
/// segment, or zero on the stack.
pub open spec fn image_word(data: Seq<u8>, segment: Option<ProgramHeader>, addr: int) -> u64 {
    match segment {
        Some(ph) => ph.word_at(data, addr),
        None => 0,
    }
}

/// The frame that the page at `page` is mapped to.
pub open spec fn frame_of(mem: Map<u64, u64>, space: AddressSpace, page: u64) -> u64 {
    entry_addr(mem[walk_of(mem, space, page).slot1])
}

/// The page at `page` is mapped with `flags` to a frame of its own, outside
/// the tables and out of the provider's hands, and the frame holds the image
/// of the page.
pub open spec fn resident<P: PageProvider>(
    mem: Map<u64, u64>,
    space: AddressSpace,
    provider: &P,
    page: u64,
    flags: u64,
    data: Seq<u8>,
    segment: Option<ProgramHeader>,
) -> bool {
    let frame = frame_of(mem, space, page);
    &&& maps_to(mem, space, page, frame, flags)
    &&& frame % 4096 == 0
    &&& space.slot_fits(frame)
    &&& !space.tables@.contains_key(frame)
    &&& !provider.holds((space.phys_offset + frame) as u64)
    &&& forall|j: u64|
        j < 512 ==> #[trigger] mem[(space.phys_offset + frame + 8 * j) as u64] == image_word(
            data,
            segment,
            page + 8 * j,
        )
}

/// What one step of loading may change: tables are added from pages that
/// the provider held, entries in use are kept, the provider only gives
/// pages away, and no word changes outside the pages that the provider held
/// and the pages of the tables.
pub open spec fn load_step<P: PageProvider>(
    s0: AddressSpace,
    m0: Map<u64, u64>,
    p0: &P,
    s1: AddressSpace,
    m1: Map<u64, u64>,
    p1: &P,
) -> bool {
    &&& s1.phys_offset == s0.phys_offset
    &&& s1.level_4 == s0.level_4
    &&& records_kept(s0.tables@, s1.tables@)
    &&& entries_kept(s0, m0, m1)
    &&& forall|q: u64| #[trigger] p1.holds(q) ==> p0.holds(q)
    &&& forall|t: u64| #[trigger]
        s1.tables@.contains_key(t) && !s0.tables@.contains_key(t) ==> p0.holds(
            (s0.phys_offset + t) as u64,
        )
    &&& forall|addr: u64|
        !p0.holds(page_base(addr)) && !s0.is_table_page(page_base(addr)) ==> #[trigger] m1[addr]
            == m0[addr]
}

/// A page that is resident stays resident, in the same frame, over a step
/// of loading.
pub proof fn lemma_resident_kept<P: PageProvider>(
    s0: AddressSpace,
    m0: Map<u64, u64>,
    p0: &P,
    s1: AddressSpace,
    m1: Map<u64, u64>,
    p1: &P,
    page: u64,
    flags: u64,
    data: Seq<u8>,
    segment: Option<ProgramHeader>,
)
    requires
        s0.tree_inv(m0, p0),
        load_step(s0, m0, p0, s1, m1, p1),
        resident(m0, s0, p0, page, flags, data, segment),
        flags & PRESENT != 0,
    ensures
        resident(m1, s1, p1, page, flags, data, segment),
        frame_of(m1, s1, page) == frame_of(m0, s0, page),
{
    let frame = frame_of(m0, s0, page);
    lemma_flags_make_entry_used(frame, flags);
    lemma_mapping_kept(s0, m0, s1, m1, p0, page, frame, flags);
    assert forall|j: u64| j < 512 implies #[trigger] m1[(s0.phys_offset + frame + 8 * j) as u64]
        == image_word(data, segment, page + 8 * j) by {
        let addr = (s0.phys_offset + frame + 8 * j) as u64;
        assert(m0[addr] == image_word(data, segment, page + 8 * j));
        lemma_word_in_frame(s0, frame, j);
    }
}

/// An entry with the present flag is not zero.
proof fn lemma_flags_make_entry_used(frame: u64, flags: u64)
    by (bit_vector)
    requires
        flags & PRESENT != 0,
    ensures
        frame | flags != 0,
{
}

/// Word `j` of the frame at `frame` lies in the page of that frame, if the
/// frame lies inside the window.
proof fn lemma_word_in_frame(space: AddressSpace, frame: u64, j: u64)
    requires
        space.phys_offset % 4096 == 0,
        frame % 4096 == 0,
        j < 512,
    ensures
        space.phys_offset + frame + 4096 <= u64::MAX ==> page_base(
            (space.phys_offset + frame + 8 * j) as u64,
        ) == space.phys_offset + frame,
{
}

/// Steps of loading compose.
pub proof fn lemma_load_step_chain<P: PageProvider>(
    s0: AddressSpace,
    m0: Map<u64, u64>,
    p0: &P,
    s1: AddressSpace,
    m1: Map<u64, u64>,
    p1: &P,
    s2: AddressSpace,
    m2: Map<u64, u64>,
    p2: &P,
)
    requires
        load_step(s0, m0, p0, s1, m1, p1),
        load_step(s1, m1, p1, s2, m2, p2),
    ensures
        load_step(s0, m0, p0, s2, m2, p2),
{
    assert forall|t: u64, i: u64| s0.tables@.contains_key(t) && i < 512 implies crate::mm::user::entry_kept(
        s0.tables@[t],
        crate::mm::user::entry_of(m0, s0, t, i),
        #[trigger] crate::mm::user::entry_of(m2, s0, t, i),
    ) by {
        let e1 = crate::mm::user::entry_of(m1, s0, t, i);
        assert(crate::mm::user::entry_of(m1, s1, t, i) == e1);
        assert(crate::mm::user::entry_of(m2, s1, t, i) == crate::mm::user::entry_of(m2, s0, t, i));
        assert(crate::mm::user::entry_kept(s0.tables@[t], crate::mm::user::entry_of(m0, s0, t, i), e1));
        assert(crate::mm::user::entry_kept(s1.tables@[t], e1, crate::mm::user::entry_of(m2, s1, t, i)));
        lemma_used_if_present(e1);
    }
    assert forall|addr: u64|
        !p0.holds(page_base(addr)) && !s0.is_table_page(page_base(addr)) implies #[trigger] m2[addr]
        == m0[addr] by {
        assert(m1[addr] == m0[addr]);
        let page = page_base(addr);
        if s1.is_table_page(page) {
            let t = (page - s1.phys_offset) as u64;
            assert(s1.tables@.contains_key(t));
            assert(!s0.tables@.contains_key(t));
            assert(p0.holds((s0.phys_offset + t) as u64));
        }
    }
}

/// A present entry is not zero.
proof fn lemma_used_if_present(entry: u64)
    by (bit_vector)
    ensures
        entry & PRESENT != 0 ==> entry != 0,
{
}

/// The byte that loading puts at `addr`, read from the file or zero.
fn segment_byte(data: &[u8], ph: &ProgramHeader, addr: u64) -> (value: u64)
    requires
        ph.is_loaded(),
        ph.defect(data@.len()) is None,
        addr < ph.end_page(),
    ensures
        value == ph.byte_at(data@, addr as int),
{
    if addr >= ph.p_vaddr && addr - ph.p_vaddr < ph.p_filesz {
        let len = data.len();
        let at = ph.p_offset + (addr - ph.p_vaddr);
        data[at as usize] as u64
    } else {
        0
    }
}

/// The word that loading puts at `addr`.
fn segment_word(data: &[u8], ph: &ProgramHeader, addr: u64) -> (value: u64)
    requires
        ph.is_loaded(),
        ph.defect(data@.len()) is None,
        addr + 8 <= ph.end_page(),
    ensures
        value == ph.word_at(data@, addr as int),
{
    let b0 = segment_byte(data, ph, addr);
    let b1 = segment_byte(data, ph, addr + 1);
    let b2 = segment_byte(data, ph, addr + 2);
    let b3 = segment_byte(data, ph, addr + 3);
    let b4 = segment_byte(data, ph, addr + 4);
    let b5 = segment_byte(data, ph, addr + 5);
    let b6 = segment_byte(data, ph, addr + 6);
    let b7 = segment_byte(data, ph, addr + 7);
    b0 + 256 * (b1 + 256 * (b2 + 256 * (b3 + 256 * (b4 + 256 * (b5 + 256 * (b6 + 256 * b7))))))
}

/// Writes the image of the page at `page` into the frame at window address
/// `dest`.
pub fn fill_page<M: WordMemory>(
    mem: &mut M,
    dest: u64,
    data: &[u8],
    segment: Option<ProgramHeader>,
    page: u64,
)
    requires
        dest % 4096 == 0,
        dest <= u64::MAX - 4096,
        page % 4096 == 0,
        match segment {
            Some(ph) => ph.has_page(page) && ph.defect(data@.len()) is None,
            None => page <= u64::MAX - 4096,
        },
    ensures
        forall|j: u64|
            j < 512 ==> #[trigger] final(mem)@[(dest + 8 * j) as u64] == image_word(
                data@,
                segment,
                page + 8 * j,
            ),
        forall|addr: u64| page_base(addr) != dest ==> #[trigger] final(mem)@[addr] == old(mem)@[addr],
{
    let mut j: u64 = 0;
    while j < 512
        invariant
            j <= 512,
            dest % 4096 == 0,
            dest <= u64::MAX - 4096,
            page % 4096 == 0,
            match segment {
                Some(ph) => ph.has_page(page) && ph.defect(data@.len()) is None,
                None => page <= u64::MAX - 4096,
            },
            forall|i: u64|
                i < j ==> #[trigger] mem@[(dest + 8 * i) as u64] == image_word(
                    data@,
                    segment,
                    page + 8 * i,
                ),
            forall|addr: u64| page_base(addr) != dest ==> #[trigger] mem@[addr] == old(mem)@[addr],
        decreases 512 - j,
    {
        let word = match segment {
            Some(ph) => segment_word(data, &ph, page + 8 * j),
            None => 0,
        };
        mem.write(dest + 8 * j, word);
        j = j + 1;
    }
}

/// The walk of `page` reaches a level-1 table whose entry for the page is
/// in use.
pub open spec fn page_in_use(mem: Map<u64, u64>, space: AddressSpace, page: u64) -> bool {
    let w = walk_of(mem, space, page);
    &&& walk_reaches(mem, space, page, entry_addr(mem[w.slot2]))
    &&& mem[w.slot1] != 0
}

/// What the error `e` says of the page at which loading stopped: the error
/// is that of a non-canonical address exactly when the page's address is
/// not canonical, and the error of a page already mapped comes with the
/// page's level-1 entry in use.
pub open spec fn stopped_at(mem: Map<u64, u64>, space: AddressSpace, page: u64, e: MapError) -> bool {
    &&& e == MapError::NonCanonicalAddress <==> !is_canonical(page)
    &&& e == MapError::PageAlreadyMapped ==> page_in_use(mem, space, page)
}

/// What the error `e` says of a page that was not loaded: what
/// `stopped_at` says; a page whose address is not canonical leaves memory
/// and tables untouched; and if no frame came for the page, no table was
/// added.
pub open spec fn page_refused(
    before: AddressSpace,
    mem_before: Map<u64, u64>,
    after: AddressSpace,
    mem_after: Map<u64, u64>,
    page: u64,
    e: MapError,
) -> bool {
    &&& stopped_at(mem_after, after, page, e)
    &&& !is_canonical(page) ==> mem_after == mem_before && after.tables@ == before.tables@
    &&& e == MapError::FrameAllocationFailed ==> after.tables@ == before.tables@
}

/// Loading of the segment stopped with `e` at its page `stop`: every page
/// of the segment below `stop` is resident, and `stop` is not.
pub open spec fn segment_stopped<P: PageProvider>(
    mem: Map<u64, u64>,
    space: AddressSpace,
    provider: &P,
    data: Seq<u8>,
    ph: ProgramHeader,
    stop: u64,
    e: MapError,
) -> bool {
    &&& ph.has_page(stop)
    &&& stopped_at(mem, space, stop, e)
    &&& forall|done: u64| #[trigger]
        ph.has_page(done) && done < stop ==> resident(
            mem,
            space,
            provider,
            done,
            ph.page_flags(),
            data,
            Some(ph),
        )
}

/// Loading of the stack stopped with `e` at its page number `stop`: every
/// stack page below it is resident.
pub open spec fn stack_stopped<P: PageProvider>(
    mem: Map<u64, u64>,
    space: AddressSpace,
    provider: &P,
    data: Seq<u8>,
    stop: int,
    e: MapError,
) -> bool {
    &&& 0 <= stop < 16
    &&& stopped_at(mem, space, stack_page(stop), e)
    &&& forall|done: int|
        0 <= done < stop ==> resident(
            mem,
            space,
            provider,
            #[trigger] stack_page(done),
            stack_flags(),
            data,
            None,
        )
}

/// Only pages of `pages` were mapped between two states: every level-1
/// entry that is in use afterwards was there before with the same value,
/// or is the entry of a page of `pages` whose walk reaches it.
pub open spec fn mapped_only(
    s0: AddressSpace,
    m0: Map<u64, u64>,
    s1: AddressSpace,
    m1: Map<u64, u64>,
    pages: Set<u64>,
) -> bool {
    forall|t: u64, i: u64|
        #![trigger entry_of(m1, s1, t, i)]
        s1.tables@.contains_key(t) && s1.tables@[t] == 1 && i < 512 && entry_of(m1, s1, t, i) != 0
            ==> {
            ||| s0.tables@.contains_key(t) && entry_of(m0, s0, t, i) == entry_of(m1, s1, t, i)
            ||| exists|page: u64|
                pages.contains(page) && #[trigger] walk_reaches(m1, s1, page, t) && table_index(
                    page,
                    1,
                ) == i
        }
}

/// The pages of a segment.
pub open spec fn segment_pages(ph: ProgramHeader) -> Set<u64> {
    Set::new(|page: u64| ph.has_page(page))
}

/// The pages of the stack.
pub open spec fn stack_pages() -> Set<u64> {
    Set::new(|page: u64| exists|k: int| 0 <= k < 16 && page == #[trigger] stack_page(k))
}

/// The pages of the image of a file: those of its segments and those of
/// the stack.
pub open spec fn image_pages(data: Seq<u8>) -> Set<u64> {
    Set::new(
        |page: u64|
            {
                let header = header_of(data)->Ok_0;
                ||| exists|i: int|
                    0 <= i < header.phnum && (#[trigger] program_header_of(
                        data,
                        header,
                        i,
                    ))->Some_0.has_page(page)
                ||| stack_pages().contains(page)
            },
    )
}

/// A step that keeps the level-1 entries but for that of a page of `pages`
/// maps only pages of `pages`.
proof fn lemma_mapped_one(
    s0: AddressSpace,
    m0: Map<u64, u64>,
    s1: AddressSpace,
    m1: Map<u64, u64>,
    vaddr: Option<u64>,
    pages: Set<u64>,
)
    requires
        leaves_kept(s0, m0, s1, m1, vaddr),
        vaddr is Some ==> pages.contains(vaddr->Some_0),
    ensures
        mapped_only(s0, m0, s1, m1, pages),
{
}

/// Steps that map only pages of two sets map, one after the other, only
/// pages of a set that holds both.
proof fn lemma_mapped_chain(
    s0: AddressSpace,
    m0: Map<u64, u64>,
    s1: AddressSpace,
    m1: Map<u64, u64>,
    s2: AddressSpace,
    m2: Map<u64, u64>,
    first: Set<u64>,
    second: Set<u64>,
    both: Set<u64>,
)
    requires
        mapped_only(s0, m0, s1, m1, first),
        mapped_only(s1, m1, s2, m2, second),
        first.subset_of(both),
        second.subset_of(both),
        s1.tables@.contains_key(s1.level_4),
        s2.phys_offset == s1.phys_offset,
        s2.level_4 == s1.level_4,
        s1.phys_offset == s0.phys_offset,
        records_kept(s1.tables@, s2.tables@),
        entries_kept(s1, m1, m2),
    ensures
        mapped_only(s0, m0, s2, m2, both),
{
    assert forall|t: u64, i: u64|
        #![trigger entry_of(m2, s2, t, i)]
        s2.tables@.contains_key(t) && s2.tables@[t] == 1 && i < 512 && entry_of(m2, s2, t, i)
            != 0 implies {
        ||| s0.tables@.contains_key(t) && entry_of(m0, s0, t, i) == entry_of(m2, s2, t, i)
        ||| exists|page: u64|
            both.contains(page) && #[trigger] walk_reaches(m2, s2, page, t) && table_index(page, 1)
                == i
    } by {
        if s1.tables@.contains_key(t) && entry_of(m1, s1, t, i) == entry_of(m2, s2, t, i) {
            if !(s0.tables@.contains_key(t) && entry_of(m0, s0, t, i) == entry_of(m1, s1, t, i)) {
                let page = choose|page: u64|
                    first.contains(page) && #[trigger] walk_reaches(m1, s1, page, t) && table_index(
                        page,
                        1,
                    ) == i;
                lemma_walk_reaches_kept(s1, m1, s2, m2, page, t);
                assert(both.contains(page));
            }
        } else {
            let page = choose|page: u64|
                second.contains(page) && #[trigger] walk_reaches(m2, s2, page, t) && table_index(
                    page,
                    1,
                ) == i;
            assert(both.contains(page));
        }
    }
}

/// The attempt to load `page` with `flags` failed with `e`: the page was
/// entered with pages of the provider, and `e`, the memory and the tables
/// afterwards are what came of that.
pub open spec fn page_failed<P: PageProvider>(
    before: AddressSpace,
    mem_before: Map<u64, u64>,
    provider_before: &P,
    after: AddressSpace,
    mem_after: Map<u64, u64>,
    provider_after: &P,
    page: u64,
    flags: u64,
    e: MapError,
) -> bool {
    &&& page_refused(before, mem_before, after, mem_after, page, e)
    &&& entered_from(
        mem_before,
        before,
        provider_before,
        provider_after,
        page,
        flags,
        (Entering { result: Err(e), mem: mem_after, tables: after.tables@ }),
    )
}

/// Loading went by steps from the state `s0`, `m0`, `p0` to a state with
/// the tables in order, and there the attempt to load `page` with `flags`
/// failed with `e` and left the state `s1`, `m1`, `p1`.
pub open spec fn attempt_failed<P: PageProvider>(
    s0: AddressSpace,
    m0: Map<u64, u64>,
    p0: &P,
    s1: AddressSpace,
    m1: Map<u64, u64>,
    p1: &P,
    page: u64,
    flags: u64,
    e: MapError,
) -> bool {
    exists|s: AddressSpace, m: Map<u64, u64>, p: P|
        {
            &&& #[trigger] load_step(s0, m0, p0, s, m, &p)
            &&& s.tree_inv(m, &p)
            &&& provider_ok(&p, m)
            &&& page_failed(s, m, &p, s1, m1, p1, page, flags, e)
        }
}

/// An attempt that failed after steps of loading failed after the steps
/// before those, too.
proof fn lemma_attempt_later<P: PageProvider>(
    s0: AddressSpace,
    m0: Map<u64, u64>,
    p0: &P,
    s1: AddressSpace,
    m1: Map<u64, u64>,
    p1: &P,
    s2: AddressSpace,
    m2: Map<u64, u64>,
    p2: &P,
    page: u64,
    flags: u64,
    e: MapError,
)
    requires
        load_step(s0, m0, p0, s1, m1, p1),
        attempt_failed(s1, m1, p1, s2, m2, p2, page, flags, e),
    ensures
        attempt_failed(s0, m0, p0, s2, m2, p2, page, flags, e),
{
    let (s, m, p) = choose|s: AddressSpace, m: Map<u64, u64>, p: P|
        {
            &&& #[trigger] load_step(s1, m1, p1, s, m, &p)
            &&& s.tree_inv(m, &p)
            &&& provider_ok(&p, m)
            &&& page_failed(s, m, &p, s2, m2, p2, page, flags, e)
        };
    lemma_load_step_chain(s0, m0, p0, s1, m1, p1, s, m, &p);
    assert(load_step(s0, m0, p0, s, m, &p));
}

/// Every page of each of the first `count` segments is resident.
pub open spec fn segments_resident<P: PageProvider>(
    data: Seq<u8>,
    mem: Map<u64, u64>,
    space: AddressSpace,
    provider: &P,
    count: int,
) -> bool {
    let header = header_of(data)->Ok_0;
    forall|i: int, page: u64|
        0 <= i < count && (#[trigger] program_header_of(data, header, i))->Some_0.has_page(page)
            ==> #[trigger] resident(
            mem,
            space,
            provider,
            page,
            program_header_of(data, header, i)->Some_0.page_flags(),
            data,
            program_header_of(data, header, i),
        )
}

/// Loading stopped with `e` at the page `stop` of part `part` of the image:
/// segment `part`, or the stack where `part` is the number of segments.
/// Every segment before that part is resident, and so is every page of
/// the part below `stop`; the attempt to load `stop` failed with `e`.
pub open spec fn stopped_in<P: PageProvider>(
    data: Seq<u8>,
    s0: AddressSpace,
    m0: Map<u64, u64>,
    p0: &P,
    s1: AddressSpace,
    m1: Map<u64, u64>,
    p1: &P,
    part: int,
    stop: u64,
    e: MapError,
) -> bool {
    let header = header_of(data)->Ok_0;
    &&& 0 <= part <= header.phnum
    &&& segments_resident(data, m1, s1, p1, part)
    &&& if part < header.phnum {
        let ph = program_header_of(data, header, part)->Some_0;
        &&& segment_stopped(m1, s1, p1, data, ph, stop, e)
        &&& attempt_failed(s0, m0, p0, s1, m1, p1, stop, ph.page_flags(), e)
    } else {
        &&& exists|k: int| #[trigger] stack_stopped(m1, s1, p1, data, k, e) && stop == stack_page(k)
        &&& attempt_failed(s0, m0, p0, s1, m1, p1, stop, stack_flags(), e)
    }
}

/// Loading stopped with `e` at a page of the image: see `stopped_in`.
pub open spec fn load_stopped<P: PageProvider>(
    data: Seq<u8>,
    s0: AddressSpace,
    m0: Map<u64, u64>,
    p0: &P,
    s1: AddressSpace,
    m1: Map<u64, u64>,
    p1: &P,
    e: MapError,
) -> bool {
    exists|part: int, stop: u64| #[trigger] stopped_in(data, s0, m0, p0, s1, m1, p1, part, stop, e)
}

/// Maps the page at `page` with `flags` and fills its frame with its image.
///
/// A page whose address is not canonical is refused and nothing changes.
/// Otherwise a frame and the tables that the walk lacks are taken from the
/// provider; if that or the edit of the tables fails, the error is handed
/// on and the frame is not filled.
#[verifier::rlimit(50)]
fn load_page<M: WordMemory, P: PageProvider>(
    mem: &mut M,
    provider: &mut P,
    space: &mut AddressSpace,
    data: &[u8],
    segment: Option<ProgramHeader>,
    page: u64,
    flags: u64,
) -> (loaded: Result<(), MapError>)
    requires
        old(space).tree_inv(old(mem)@, old(provider)),
        provider_ok(old(provider), old(mem)@),
        crate::mm::user::valid_page_flags(flags),
        page % 4096 == 0,
        match segment {
            Some(ph) => ph.has_page(page) && ph.defect(data@.len()) is None,
            None => page <= u64::MAX - 4096,
        },
    ensures
        final(space).tree_inv(final(mem)@, final(provider)),
        provider_ok(final(provider), final(mem)@),
        load_step(*old(space), old(mem)@, old(provider), *final(space), final(mem)@, final(provider)),
        leaves_kept(
            *old(space),
            old(mem)@,
            *final(space),
            final(mem)@,
            (if loaded is Ok {
                Some(page)
            } else {
                None
            }),
        ),
        match loaded {
            Ok(()) => is_canonical(page) && resident(
                final(mem)@,
                *final(space),
                final(provider),
                page,
                flags,
                data@,
                segment,
            ),
            Err(e) => page_failed(
                *old(space),
                old(mem)@,
                old(provider),
                *final(space),
                final(mem)@,
                final(provider),
                page,
                flags,
                e,
            ),
        },
{
    let ghost s0 = *space;
    let ghost m0 = mem@;
    let phys = match map_user_page(mem, provider, space, page, flags) {
        Ok(phys) => phys,
        Err(e) => {
            return Err(e);
        },
    };
    let ghost m1 = mem@;
    let dest = space.phys_offset + phys;
    fill_page(mem, dest, data, segment, page);
    proof {
        let s1 = *space;
        let m2 = mem@;
        lemma_provider_ok_kept(provider, m1, m2);
        assert forall|t: u64, i: u64| s1.tables@.contains_key(t) && i < 512 implies crate::mm::user::entry_of(
            m2,
            s1,
            t,
            i,
        ) == crate::mm::user::entry_of(m1, s1, t, i) by {
            lemma_word_in_frame(s1, t, i);
        }
        lemma_walk_in_tables(s1, m1, m2, provider, page, phys, flags);
        assert(frame_of(m2, s1, page) == phys);
        assert forall|j: u64| j < 512 implies #[trigger] m2[(s1.phys_offset + phys + 8 * j) as u64]
            == image_word(data@, segment, page + 8 * j) by {
            assert(m2[(dest + 8 * j) as u64] == image_word(data@, segment, page + 8 * j));
        }
        assert forall|t: u64, i: u64| s0.tables@.contains_key(t) && i < 512 implies crate::mm::user::entry_kept(
            s0.tables@[t],
            crate::mm::user::entry_of(m0, s0, t, i),
            #[trigger] crate::mm::user::entry_of(m2, s0, t, i),
        ) by {
            assert(s1.tables@.contains_key(t));
            assert(crate::mm::user::entry_of(m2, s1, t, i) == crate::mm::user::entry_of(m1, s1, t, i));
            assert(crate::mm::user::entry_of(m2, s0, t, i) == crate::mm::user::entry_of(m1, s0, t, i));
        }
        assert forall|addr: u64|
            !old(provider).holds(page_base(addr)) && !s0.is_table_page(page_base(addr)) implies #[trigger] m2[addr]
            == m0[addr] by {
            assert(m1[addr] == m0[addr]);
            assert(old(provider).holds(dest));
        }
        assert forall|t: u64, i: u64| s1.tables@.contains_key(t) && i < 512 implies crate::mm::user::entry_kept(
            s1.tables@[t],
            entry_of(m1, s1, t, i),
            #[trigger] entry_of(m2, s1, t, i),
        ) by {
            assert(entry_of(m2, s1, t, i) == entry_of(m1, s1, t, i));
        }
        assert forall|t: u64, i: u64|
            #![trigger entry_of(m2, s1, t, i)]
            s1.tables@.contains_key(t) && s1.tables@[t] == 1 && i < 512 implies {
            ||| entry_of(m2, s1, t, i) == (if s0.tables@.contains_key(t) {
                entry_of(m0, s0, t, i)
            } else {
                0
            })
            ||| walk_reaches(m2, s1, page, t) && table_index(page, 1) == i
        } by {
            assert(entry_of(m2, s1, t, i) == entry_of(m1, s1, t, i));
            if walk_reaches(m1, s1, page, t) {
                lemma_walk_reaches_kept(s1, m1, s1, m2, page, t);
            }
        }
    }
    Ok(())
}

/// Writing outside the tables leaves the walk of a mapped page as it was.
proof fn lemma_walk_in_tables<P: PageProvider>(
    space: AddressSpace,
    mem: Map<u64, u64>,
    after: Map<u64, u64>,
    provider: &P,
    vaddr: u64,
    phys: u64,
    flags: u64,
)
    requires
        space.tree_inv(mem, provider),
        maps_to(mem, space, vaddr, phys, flags),
        forall|t: u64, i: u64|
            space.tables@.contains_key(t) && i < 512 ==> #[trigger] crate::mm::user::entry_of(
                after,
                space,
                t,
                i,
            ) == crate::mm::user::entry_of(mem, space, t, i),
    ensures
        walk_of(after, space, vaddr) == walk_of(mem, space, vaddr),
        maps_to(after, space, vaddr, phys, flags),
{
    crate::mm::user::lemma_walk_stays_in_tables(space, mem, provider, vaddr);
    let w = walk_of(mem, space, vaddr);
    let t3 = entry_addr(mem[w.slot4]);
    let t2 = entry_addr(mem[w.slot3]);
    let t1 = entry_addr(mem[w.slot2]);
    assert(after[w.slot4] == crate::mm::user::entry_of(after, space, space.level_4, crate::mm::user::table_index(vaddr, 4)));
    assert(after[w.slot3] == crate::mm::user::entry_of(after, space, t3, crate::mm::user::table_index(vaddr, 3)));
    assert(after[w.slot2] == crate::mm::user::entry_of(after, space, t2, crate::mm::user::table_index(vaddr, 2)));
    assert(after[w.slot1] == crate::mm::user::entry_of(after, space, t1, crate::mm::user::table_index(vaddr, 1)));
}

/// A step that changes nothing is a step of loading.
proof fn lemma_load_step_none<P: PageProvider>(space: AddressSpace, mem: Map<u64, u64>, provider: &P)
    requires
        space.tree_inv(mem, provider),
    ensures
        load_step(space, mem, provider, space, mem, provider),
{
    assert forall|t: u64, i: u64| space.tables@.contains_key(t) && i < 512 implies crate::mm::user::entry_kept(
        space.tables@[t],
        crate::mm::user::entry_of(mem, space, t, i),
        #[trigger] crate::mm::user::entry_of(mem, space, t, i),
    ) by {}
}

/// The flags for the pages of a segment.
fn segment_flags(ph: &ProgramHeader) -> (flags: u64)
    ensures
        flags == ph.page_flags(),
        crate::mm::user::valid_page_flags(flags),
        flags & PRESENT != 0,
{
    assert(0x8000_0000_0000_0007u64 & 0x000f_ffff_ffff_f000u64 == 0 && 0x8000_0000_0000_0007u64
        & 0x80u64 == 0 && 0x7u64 & 0x000f_ffff_ffff_f000u64 == 0 && 0x7u64 & 0x80u64 == 0
        && 0x8000_0000_0000_0007u64 & 1u64 != 0 && 0x7u64 & 1u64 != 0 && (((1u64 | 4u64) | 2u64)
        | 0x8000_0000_0000_0000u64) == 0x8000_0000_0000_0007u64 && ((1u64 | 4u64) | 2u64) == 0x7u64
        && (((1u64 | 2u64) | 4u64) | 0x8000_0000_0000_0000u64) == 0x8000_0000_0000_0007u64)
        by (bit_vector);
    if ph.p_flags & 1 == 0 {
        PRESENT | USER_ACCESSIBLE | WRITABLE | NO_EXECUTE
    } else {
        PRESENT | USER_ACCESSIBLE | WRITABLE
    }
}

/// Maps and fills every page of one segment, lowest address first. A
/// segment that is not loadable or occupies no memory is skipped: that
/// succeeds and changes nothing. Loading stops at the first page that
/// cannot be loaded; the pages below it stay resident.
#[verifier::rlimit(50)]
fn load_segment<M: WordMemory, P: PageProvider>(
    mem: &mut M,
    provider: &mut P,
    space: &mut AddressSpace,
    data: &[u8],
    ph: &ProgramHeader,
) -> (loaded: Result<(), MapError>)
    requires
        old(space).tree_inv(old(mem)@, old(provider)),
        provider_ok(old(provider), old(mem)@),
        ph.defect(data@.len()) is None,
    ensures
        final(space).tree_inv(final(mem)@, final(provider)),
        provider_ok(final(provider), final(mem)@),
        load_step(*old(space), old(mem)@, old(provider), *final(space), final(mem)@, final(provider)),
        mapped_only(*old(space), old(mem)@, *final(space), final(mem)@, segment_pages(*ph)),
        !ph.is_loaded() ==> loaded is Ok && final(mem)@ == old(mem)@ && final(space).tables@ == old(space).tables@ && forall|q: u64| final(provider).holds(q) == old(provider).holds(q),
        match loaded {
            Ok(()) => forall|page: u64| #[trigger]
                ph.has_page(page) ==> is_canonical(page) && resident(
                    final(mem)@,
                    *final(space),
                    final(provider),
                    page,
                    ph.page_flags(),
                    data@,
                    Some(*ph),
                ),
            Err(e) => exists|stop: u64|
                {
                    &&& #[trigger] segment_stopped(
                        final(mem)@,
                        *final(space),
                        final(provider),
                        data@,
                        *ph,
                        stop,
                        e,
                    )
                    &&& attempt_failed(
                        *old(space),
                        old(mem)@,
                        old(provider),
                        *final(space),
                        final(mem)@,
                        final(provider),
                        stop,
                        ph.page_flags(),
                        e,
                    )
                },
        },
{
    proof {
        lemma_load_step_none(*space, mem@, provider);
    }
    if ph.p_type != PT_LOAD || ph.p_memsz == 0 {
        return Ok(());
    }
    let flags = segment_flags(ph);
    let start_page = ph.p_vaddr - ph.p_vaddr % 4096;
    let end = ph.p_vaddr + ph.p_memsz + 4095;
    let end_page = end - end % 4096;
    let mut page = start_page;
    while page < end_page
        invariant
            start_page == ph.start_page(),
            end_page == ph.end_page(),
            start_page <= page <= end_page,
            page % 4096 == 0,
            ph.is_loaded(),
            ph.defect(data@.len()) is None,
            flags == ph.page_flags(),
            crate::mm::user::valid_page_flags(flags),
            flags & PRESENT != 0,
            space.tree_inv(mem@, provider),
            provider_ok(provider, mem@),
            load_step(*old(space), old(mem)@, old(provider), *space, mem@, provider),
            mapped_only(*old(space), old(mem)@, *space, mem@, segment_pages(*ph)),
            forall|done: u64| #[trigger]
                ph.has_page(done) && done < page ==> is_canonical(done) && resident(
                    mem@,
                    *space,
                    provider,
                    done,
                    flags,
                    data@,
                    Some(*ph),
                ),
        decreases end_page - page,
    {
        let ghost s1 = *space;
        let ghost m1 = mem@;
        let ghost p1 = *provider;
        match load_page(mem, provider, space, data, Some(*ph), page, flags) {
            Ok(()) => {},
            Err(e) => {
                proof {
                    lemma_load_step_chain(
                        *old(space),
                        old(mem)@,
                        old(provider),
                        s1,
                        m1,
                        &p1,
                        *space,
                        mem@,
                        provider,
                    );
                    assert forall|done: u64| #[trigger] ph.has_page(done) && done < page implies resident(
                        mem@,
                        *space,
                        provider,
                        done,
                        ph.page_flags(),
                        data@,
                        Some(*ph),
                    ) by {
                        lemma_resident_kept(
                            s1,
                            m1,
                            &p1,
                            *space,
                            mem@,
                            provider,
                            done,
                            flags,
                            data@,
                            Some(*ph),
                        );
                    }
                    assert(ph.has_page(page));
                    assert(segment_stopped(mem@, *space, provider, data@, *ph, page, e));
                    lemma_mapped_one(s1, m1, *space, mem@, None, segment_pages(*ph));
                    lemma_mapped_chain(
                        *old(space),
                        old(mem)@,
                        s1,
                        m1,
                        *space,
                        mem@,
                        segment_pages(*ph),
                        segment_pages(*ph),
                        segment_pages(*ph),
                    );
                    assert(load_step(*old(space), old(mem)@, old(provider), s1, m1, &p1));
                    assert(attempt_failed(
                        *old(space),
                        old(mem)@,
                        old(provider),
                        *space,
                        mem@,
                        provider,
                        page,
                        ph.page_flags(),
                        e,
                    ));
                }
                return Err(e);
            },
        }
        proof {
            lemma_load_step_chain(
                *old(space),
                old(mem)@,
                old(provider),
                s1,
                m1,
                &p1,
                *space,
                mem@,
                provider,
            );
            assert(ph.has_page(page));
            lemma_mapped_one(s1, m1, *space, mem@, Some(page), segment_pages(*ph));
            lemma_mapped_chain(
                *old(space),
                old(mem)@,
                s1,
                m1,
                *space,
                mem@,
                segment_pages(*ph),
                segment_pages(*ph),
                segment_pages(*ph),
            );
            assert forall|done: u64| #[trigger] ph.has_page(done) && done < page + 4096 implies is_canonical(
                done,
            ) && resident(mem@, *space, provider, done, flags, data@, Some(*ph)) by {
                if done < page {
                    lemma_resident_kept(
                        s1,
                        m1,
                        &p1,
                        *space,
                        mem@,
                        provider,
                        done,
                        flags,
                        data@,
                        Some(*ph),
                    );
                } else {
                    assert(done == page);
                }
            }
        }
        page = page + 4096;
    }
    Ok(())
}

/// Maps and zeroes the sixteen pages of the user stack, lowest first.
/// Loading stops at the first page that cannot be loaded; the pages below
/// it stay resident. The addresses of the stack are canonical, so the error
/// is never that of a non-canonical address.
#[verifier::rlimit(50)]
fn load_stack<M: WordMemory, P: PageProvider>(
    mem: &mut M,
    provider: &mut P,
    space: &mut AddressSpace,
    data: &[u8],
) -> (loaded: Result<(), MapError>)
    requires
        old(space).tree_inv(old(mem)@, old(provider)),
        provider_ok(old(provider), old(mem)@),
    ensures
        final(space).tree_inv(final(mem)@, final(provider)),
        provider_ok(final(provider), final(mem)@),
        load_step(*old(space), old(mem)@, old(provider), *final(space), final(mem)@, final(provider)),
        mapped_only(*old(space), old(mem)@, *final(space), final(mem)@, stack_pages()),
        loaded != Err::<(), MapError>(MapError::NonCanonicalAddress),
        match loaded {
            Ok(()) => forall|k: int|
                0 <= k < 16 ==> resident(
                    final(mem)@,
                    *final(space),
                    final(provider),
                    #[trigger] stack_page(k),
                    stack_flags(),
                    data@,
                    None,
                ),
            Err(e) => exists|stop: int|
                {
                    &&& #[trigger] stack_stopped(
                        final(mem)@,
                        *final(space),
                        final(provider),
                        data@,
                        stop,
                        e,
                    )
                    &&& attempt_failed(
                        *old(space),
                        old(mem)@,
                        old(provider),
                        *final(space),
                        final(mem)@,
                        final(provider),
                        stack_page(stop),
                        stack_flags(),
                        e,
                    )
                },
        },
{
    proof {
        lemma_load_step_none(*space, mem@, provider);
    }
    assert(0x8000_0000_0000_0007u64 & 0x000f_ffff_ffff_f000u64 == 0 && 0x8000_0000_0000_0007u64
        & 0x80u64 == 0 && 0x8000_0000_0000_0007u64 & 1u64 != 0 && (((1u64 | 2u64) | 4u64)
        | 0x8000_0000_0000_0000u64) == 0x8000_0000_0000_0007u64) by (bit_vector);
    let flags = PRESENT | WRITABLE | USER_ACCESSIBLE | NO_EXECUTE;
    let mut k: u64 = 0;
    while k < USER_STACK_PAGES
        invariant
            k <= 16,
            flags == stack_flags(),
            crate::mm::user::valid_page_flags(flags),
            flags & PRESENT != 0,
            space.tree_inv(mem@, provider),
            provider_ok(provider, mem@),
            load_step(*old(space), old(mem)@, old(provider), *space, mem@, provider),
            mapped_only(*old(space), old(mem)@, *space, mem@, stack_pages()),
            forall|done: int|
                0 <= done < k ==> resident(
                    mem@,
                    *space,
                    provider,
                    #[trigger] stack_page(done),
                    flags,
                    data@,
                    None,
                ),
        decreases 16 - k,
    {
        let ghost s1 = *space;
        let ghost m1 = mem@;
        let ghost p1 = *provider;
        let page = USER_STACK_TOP - USER_STACK_SIZE + 4096 * k;
        match load_page(mem, provider, space, data, None, page, flags) {
            Ok(()) => {},
            Err(e) => {
                proof {
                    lemma_load_step_chain(
                        *old(space),
                        old(mem)@,
                        old(provider),
                        s1,
                        m1,
                        &p1,
                        *space,
                        mem@,
                        provider,
                    );
                    assert forall|done: int| 0 <= done < k implies resident(
                        mem@,
                        *space,
                        provider,
                        #[trigger] stack_page(done),
                        stack_flags(),
                        data@,
                        None,
                    ) by {
                        lemma_resident_kept(
                            s1,
                            m1,
                            &p1,
                            *space,
                            mem@,
                            provider,
                            stack_page(done),
                            flags,
                            data@,
                            None,
                        );
                    }
                    assert(page == stack_page(k as int));
                    assert(is_canonical(page));
                    assert(stack_stopped(mem@, *space, provider, data@, k as int, e));
                    lemma_mapped_one(s1, m1, *space, mem@, None, stack_pages());
                    lemma_mapped_chain(
                        *old(space),
                        old(mem)@,
                        s1,
                        m1,
                        *space,
                        mem@,
                        stack_pages(),
                        stack_pages(),
                        stack_pages(),
                    );
                    assert(load_step(*old(space), old(mem)@, old(provider), s1, m1, &p1));
                    assert(attempt_failed(
                        *old(space),
                        old(mem)@,
                        old(provider),
                        *space,
                        mem@,
                        provider,
                        stack_page(k as int),
                        stack_flags(),
                        e,
                    ));
                }
                return Err(e);
            },
        }
        proof {
            lemma_load_step_chain(
                *old(space),
                old(mem)@,
                old(provider),
                s1,
                m1,
                &p1,
                *space,
                mem@,
                provider,
            );
            assert(page == stack_page(k as int));
            assert(stack_pages().contains(page));
            lemma_mapped_one(s1, m1, *space, mem@, Some(page), stack_pages());
            lemma_mapped_chain(
                *old(space),
                old(mem)@,
                s1,
                m1,
                *space,
                mem@,
                stack_pages(),
                stack_pages(),
                stack_pages(),
            );
            assert forall|done: int| 0 <= done < k + 1 implies resident(
                mem@,
                *space,
                provider,
                #[trigger] stack_page(done),
                flags,
                data@,
                None,
            ) by {
                if done < k {
                    lemma_resident_kept(
                        s1,
                        m1,
                        &p1,
                        *space,
                        mem@,
                        provider,
                        stack_page(done),
                        flags,
                        data@,
                        None,
                    );
                }
            }
        }
        k = k + 1;
    }
    Ok(())
}

/// Every page of every loadable segment of the file, and every page of the
/// stack, is resident with its image.
pub open spec fn image_resident<P: PageProvider>(
    data: Seq<u8>,
    mem: Map<u64, u64>,
    space: AddressSpace,
    provider: &P,
) -> bool {
    let header = header_of(data)->Ok_0;
    &&& forall|i: int, page: u64|
        0 <= i < header.phnum && (#[trigger] program_header_of(data, header, i))->Some_0.has_page(
            page,
        ) ==> #[trigger] resident(
            mem,
            space,
            provider,
            page,
            program_header_of(data, header, i)->Some_0.page_flags(),
            data,
            program_header_of(data, header, i),
        )
    &&& forall|k: int|
        0 <= k < 16 ==> resident(
            mem,
            space,
            provider,
            #[trigger] stack_page(k),
            stack_flags(),
            data,
            None,
        )
}

/// Loads an executable into an address space and gives it a stack.
///
/// The file is checked first: if its headers have a fault, the first one is
/// reported as `InvalidElf` and nothing is touched. Otherwise every page of
/// every loadable segment is mapped present, user accessible and writable
/// (and no-execute unless the segment is executable), zeroed, and filled
/// with the file bytes that belong to it; then the sixteen stack pages below
/// `USER_STACK_TOP` are mapped writable and no-execute and zeroed. If a page
/// cannot be mapped, loading stops with `MappingFailed`.
///
/// On success each of those pages is resident: mapped to a frame of its
/// own that holds exactly its image. When loading stops, the error is the
/// one with which the attempt to map the page at which it stopped failed,
/// and every page of the image before that page is resident. Either way
/// no page is mapped that is not a page of the image. A file with a fault
/// leaves memory, the tables and the provider as they were.
#[verifier::rlimit(50)]
pub fn load_elf<M: WordMemory, P: PageProvider>(
    data: &[u8],
    mem: &mut M,
    provider: &mut P,
    space: &mut AddressSpace,
) -> (loaded: Result<ElfLoadResult, Error>)
    requires
        old(space).tree_inv(old(mem)@, old(provider)),
        provider_ok(old(provider), old(mem)@),
    ensures
        final(space).tree_inv(final(mem)@, final(provider)),
        provider_ok(final(provider), final(mem)@),
        load_step(*old(space), old(mem)@, old(provider), *final(space), final(mem)@, final(provider)),
        first_defect(data@) is None ==> mapped_only(
            *old(space),
            old(mem)@,
            *final(space),
            final(mem)@,
            image_pages(data@),
        ),
        match first_defect(data@) {
            Some(e) => {
                &&& loaded == Err::<ElfLoadResult, Error>(Error::InvalidElf(e))
                &&& final(mem)@ == old(mem)@
                &&& *final(space) == *old(space)
                &&& forall|q: u64| final(provider).holds(q) == old(provider).holds(q)
            },
            None => match loaded {
                Ok(result) => {
                    &&& result.entry_point == header_of(data@)->Ok_0.entry
                    &&& result.stack_top == USER_STACK_TOP
                    &&& image_resident(data@, final(mem)@, *final(space), final(provider))
                },
                Err(Error::MappingFailed(e)) => load_stopped(
                    data@,
                    *old(space),
                    old(mem)@,
                    old(provider),
                    *final(space),
                    final(mem)@,
                    final(provider),
                    e,
                ),
                Err(Error::InvalidElf(_)) => false,
            },
        },
{
    proof {
        lemma_load_step_none(*space, mem@, provider);
    }
    let header = match parse_header(data) {
        Ok(header) => header,
        Err(e) => {
            return Err(Error::InvalidElf(e));
        },
    };
    let headers = match parse_program_headers(data, &header) {
        Ok(headers) => headers,
        Err(e) => {
            return Err(Error::InvalidElf(e));
        },
    };
    let mut index: usize = 0;
    while index < headers.len()
        invariant
            index <= headers@.len(),
            headers@.len() == header.phnum,
            header_of(data@) == Ok::<ElfHeader, ElfError>(header),
            first_defect(data@) is None,
            forall|i: int|
                0 <= i < header.phnum ==> program_header_of(data@, header, i) == Some(
                    #[trigger] headers@[i],
                ) && headers@[i].defect(data@.len()) is None,
            space.tree_inv(mem@, provider),
            provider_ok(provider, mem@),
            load_step(*old(space), old(mem)@, old(provider), *space, mem@, provider),
            mapped_only(*old(space), old(mem)@, *space, mem@, image_pages(data@)),
            forall|i: int, page: u64|
                0 <= i < index && (#[trigger] headers@[i]).has_page(page) ==> #[trigger] resident(
                    mem@,
                    *space,
                    provider,
                    page,
                    headers@[i].page_flags(),
                    data@,
                    Some(headers@[i]),
                ),
        decreases headers@.len() - index,
    {
        let ghost s1 = *space;
        let ghost m1 = mem@;
        let ghost p1 = *provider;
        let ph = headers[index];
        match load_segment(mem, provider, space, data, &ph) {
            Ok(()) => {},
            Err(e) => {
                proof {
                    lemma_load_step_chain(
                        *old(space),
                        old(mem)@,
                        old(provider),
                        s1,
                        m1,
                        &p1,
                        *space,
                        mem@,
                        provider,
                    );
                    assert(segment_pages(ph).subset_of(image_pages(data@))) by {
                        assert(program_header_of(data@, header, index as int) == Some(ph));
                    }
                    lemma_mapped_chain(
                        *old(space),
                        old(mem)@,
                        s1,
                        m1,
                        *space,
                        mem@,
                        image_pages(data@),
                        segment_pages(ph),
                        image_pages(data@),
                    );
                    let stop = choose|stop: u64|
                        {
                            &&& #[trigger] segment_stopped(mem@, *space, provider, data@, ph, stop, e)
                            &&& attempt_failed(
                                s1,
                                m1,
                                &p1,
                                *space,
                                mem@,
                                provider,
                                stop,
                                ph.page_flags(),
                                e,
                            )
                        };
                    lemma_attempt_later(
                        *old(space),
                        old(mem)@,
                        old(provider),
                        s1,
                        m1,
                        &p1,
                        *space,
                        mem@,
                        provider,
                        stop,
                        ph.page_flags(),
                        e,
                    );
                    assert forall|i: int, page: u64|
                        0 <= i < index && (#[trigger] program_header_of(
                            data@,
                            header,
                            i,
                        ))->Some_0.has_page(page) implies #[trigger] resident(
                        mem@,
                        *space,
                        provider,
                        page,
                        program_header_of(data@, header, i)->Some_0.page_flags(),
                        data@,
                        program_header_of(data@, header, i),
                    ) by {
                        lemma_segment_flags_present(headers@[i]);
                        lemma_resident_kept(
                            s1,
                            m1,
                            &p1,
                            *space,
                            mem@,
                            provider,
                            page,
                            headers@[i].page_flags(),
                            data@,
                            Some(headers@[i]),
                        );
                    }
                    assert(program_header_of(data@, header, index as int) == Some(ph));
                    assert(stopped_in(
                        data@,
                        *old(space),
                        old(mem)@,
                        old(provider),
                        *space,
                        mem@,
                        provider,
                        index as int,
                        stop,
                        e,
                    ));
                }
                return Err(Error::MappingFailed(e));
            },
        }
        proof {
            lemma_load_step_chain(
                *old(space),
                old(mem)@,
                old(provider),
                s1,
                m1,
                &p1,
                *space,
                mem@,
                provider,
            );
            assert(segment_pages(ph).subset_of(image_pages(data@))) by {
                assert(program_header_of(data@, header, index as int) == Some(ph));
            }
            lemma_mapped_chain(
                *old(space),
                old(mem)@,
                s1,
                m1,
                *space,
                mem@,
                image_pages(data@),
                segment_pages(ph),
                image_pages(data@),
            );
            assert forall|i: int, page: u64|
                0 <= i < index + 1 && (#[trigger] headers@[i]).has_page(page) implies #[trigger] resident(
                mem@,
                *space,
                provider,
                page,
                headers@[i].page_flags(),
                data@,
                Some(headers@[i]),
            ) by {
                if i < index {
                    lemma_segment_flags_present(headers@[i]);
                    lemma_resident_kept(
                        s1,
                        m1,
                        &p1,
                        *space,
                        mem@,
                        provider,
                        page,
                        headers@[i].page_flags(),
                        data@,
                        Some(headers@[i]),
                    );
                } else {
                    assert(ph.has_page(page));
                }
            }
        }
        index = index + 1;
    }
    let ghost s2 = *space;
    let ghost m2 = mem@;
    let ghost p2 = *provider;
    match load_stack(mem, provider, space, data) {
        Ok(()) => {},
        Err(e) => {
            proof {
                lemma_load_step_chain(
                    *old(space),
                    old(mem)@,
                    old(provider),
                    s2,
                    m2,
                    &p2,
                    *space,
                    mem@,
                    provider,
                );
                lemma_mapped_chain(
                    *old(space),
                    old(mem)@,
                    s2,
                    m2,
                    *space,
                    mem@,
                    image_pages(data@),
                    stack_pages(),
                    image_pages(data@),
                );
                let k = choose|k: int|
                    {
                        &&& #[trigger] stack_stopped(mem@, *space, provider, data@, k, e)
                        &&& attempt_failed(
                            s2,
                            m2,
                            &p2,
                            *space,
                            mem@,
                            provider,
                            stack_page(k),
                            stack_flags(),
                            e,
                        )
                    };
                lemma_attempt_later(
                    *old(space),
                    old(mem)@,
                    old(provider),
                    s2,
                    m2,
                    &p2,
                    *space,
                    mem@,
                    provider,
                    stack_page(k),
                    stack_flags(),
                    e,
                );
                assert forall|i: int, page: u64|
                    0 <= i < header.phnum && (#[trigger] program_header_of(
                        data@,
                        header,
                        i,
                    ))->Some_0.has_page(page) implies #[trigger] resident(
                    mem@,
                    *space,
                    provider,
                    page,
                    program_header_of(data@, header, i)->Some_0.page_flags(),
                    data@,
                    program_header_of(data@, header, i),
                ) by {
                    lemma_segment_flags_present(headers@[i]);
                    lemma_resident_kept(
                        s2,
                        m2,
                        &p2,
                        *space,
                        mem@,
                        provider,
                        page,
                        headers@[i].page_flags(),
                        data@,
                        Some(headers@[i]),
                    );
                }
                assert(stopped_in(
                    data@,
                    *old(space),
                    old(mem)@,
                    old(provider),
                    *space,
                    mem@,
                    provider,
                    header.phnum as int,
                    stack_page(k),
                    e,
                ));
            }
            return Err(Error::MappingFailed(e));
        },
    }
    proof {
        lemma_load_step_chain(
            *old(space),
            old(mem)@,
            old(provider),
            s2,
            m2,
            &p2,
            *space,
            mem@,
            provider,
        );
        lemma_mapped_chain(
            *old(space),
            old(mem)@,
            s2,
            m2,
            *space,
            mem@,
            image_pages(data@),
            stack_pages(),
            image_pages(data@),
        );
        assert forall|i: int, page: u64|
            0 <= i < header.phnum && (#[trigger] program_header_of(data@, header, i))->Some_0.has_page(
                page,
            ) implies #[trigger] resident(
            mem@,
            *space,
            provider,
            page,
            program_header_of(data@, header, i)->Some_0.page_flags(),
            data@,
            program_header_of(data@, header, i),
        ) by {
            let ph = headers@[i];
            lemma_segment_flags_present(ph);
            lemma_resident_kept(
                s2,
                m2,
                &p2,
                *space,
                mem@,
                provider,
                page,
                ph.page_flags(),
                data@,
                Some(ph),
            );
        }
    }
    Ok(ElfLoadResult { entry_point: header.entry, stack_top: USER_STACK_TOP })
}

/// The flags of a segment's pages include the present flag.
proof fn lemma_segment_flags_present(ph: ProgramHeader)
    ensures
        ph.page_flags() & PRESENT != 0,
{
    assert(0x8000_0000_0000_0007u64 & 1u64 != 0 && 0x7u64 & 1u64 != 0 && (((1u64 | 4u64) | 2u64)
        | 0x8000_0000_0000_0000u64) == 0x8000_0000_0000_0007u64 && ((1u64 | 4u64) | 2u64) == 0x7u64)
        by (bit_vector);
}

/// Two loads of the same file give the same result and the same pages:
/// whatever the memories and frames, a page resident after one load holds,
/// word for word, what it holds after the other.
pub proof fn lemma_load_is_repeatable<P: PageProvider, Q: PageProvider>(
    data: Seq<u8>,
    segment: Option<ProgramHeader>,
    page: u64,
    flags: u64,
    mem_a: Map<u64, u64>,
    space_a: AddressSpace,
    provider_a: &P,
    mem_b: Map<u64, u64>,
    space_b: AddressSpace,
    provider_b: &Q,
)
    requires
        resident(mem_a, space_a, provider_a, page, flags, data, segment),
        resident(mem_b, space_b, provider_b, page, flags, data, segment),
    ensures
        forall|j: u64|
            j < 512 ==> mem_a[(space_a.phys_offset + frame_of(mem_a, space_a, page) + 8 * j) as u64]
                == #[trigger] mem_b[(space_b.phys_offset + frame_of(mem_b, space_b, page) + 8
                * j) as u64],
{
    assert forall|j: u64| j < 512 implies mem_a[(space_a.phys_offset + frame_of(
        mem_a,
        space_a,
        page,
    ) + 8 * j) as u64] == #[trigger] mem_b[(space_b.phys_offset + frame_of(mem_b, space_b, page) + 8
        * j) as u64] by {
        assert(mem_a[(space_a.phys_offset + frame_of(mem_a, space_a, page) + 8 * j) as u64]
            == image_word(data, segment, page + 8 * j));
    }
}

} // verus!
