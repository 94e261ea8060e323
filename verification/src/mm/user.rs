//! The user page-table editor.
//!
//! Page tables are four levels of 512 eight-byte entries. They are read and
//! written through the direct window: the table in physical frame `t` starts
//! at window address `phys_offset + t`.

use crate::mm::slub::{lemma_provider_ok_kept, provider_ok, PageProvider};
use crate::mm::window::{page_base, WordMemory};
use crate::mm::allocator::GlobalPageAllocator;
use crate::mm::buddy::alloc_result;
use vstd::prelude::*;
use x86_64::VirtAddr;

verus! {

/// Entry flag: the entry maps a frame or points to a table.
pub const PRESENT: u64 = 0x1;

/// Entry flag: writes are allowed.
pub const WRITABLE: u64 = 0x2;

/// Entry flag: ring 3 may use the translation.
pub const USER_ACCESSIBLE: u64 = 0x4;

/// Entry flag: the entry maps a huge page and is the last level of its walk.
pub const HUGE_PAGE: u64 = 0x80;

/// Entry flag: instruction fetches are forbidden.
pub const NO_EXECUTE: u64 = 0x8000_0000_0000_0000;

/// The bits of an entry that hold the physical address.
pub const ADDRESS_MASK: u64 = 0x000f_ffff_ffff_f000;

/// A four-level address space: where the direct window starts, and the
/// physical address of the level-4 table.
///
/// The ghost field records the frames that hold the tables of this space,
/// each with its level; it exists only in proofs.
pub struct AddressSpace {
    pub phys_offset: u64,
    pub level_4: u64,
    pub tables: Ghost<Map<u64, int>>,
}

/// The table indices of a virtual address, level 4 first.
pub open spec fn table_index(vaddr: u64, level: int) -> u64 {
    if level == 4 {
        (vaddr >> 39) & 0x1ff
    } else if level == 3 {
        (vaddr >> 30) & 0x1ff
    } else if level == 2 {
        (vaddr >> 21) & 0x1ff
    } else {
        (vaddr >> 12) & 0x1ff
    }
}

/// An address is canonical when bits 48 to 63 repeat bit 47.
pub open spec fn is_canonical(vaddr: u64) -> bool {
    vaddr < 0x0000_8000_0000_0000 || vaddr >= 0xffff_8000_0000_0000
}

/// The physical address stored in an entry.
pub open spec fn entry_addr(entry: u64) -> u64 {
    entry & ADDRESS_MASK
}

/// Whether an entry has a flag set.
pub open spec fn has_flag(entry: u64, flag: u64) -> bool {
    entry & flag != 0
}

/// An entry after the user-accessible bit has been granted at a level above
/// the last.
pub open spec fn grant_user(entry: u64) -> u64 {
    entry | USER_ACCESSIBLE
}

/// An entry after access has been granted at the last level of a walk.
pub open spec fn grant_leaf(entry: u64, writable: bool, executable: bool) -> u64 {
    let e = entry | USER_ACCESSIBLE;
    let e = if writable {
        e | WRITABLE
    } else {
        e
    };
    if executable {
        e & !NO_EXECUTE
    } else {
        e
    }
}

impl AddressSpace {
    /// The window is page aligned and the level-4 table is a frame address.
    pub open spec fn wf(&self) -> bool {
        &&& self.phys_offset % 4096 == 0
        &&& self.level_4 % 4096 == 0
        &&& self.level_4 <= ADDRESS_MASK
    }

    /// Window address of entry `index` of the table in frame `table`.
    pub open spec fn slot(&self, table: u64, index: u64) -> int {
        self.phys_offset + table + 8 * index
    }

    /// Window address of the entry that a walk of `vaddr` reads at `level`
    /// in the table in frame `table`.
    pub open spec fn slot_of(&self, table: u64, vaddr: u64, level: int) -> u64 {
        self.slot(table, table_index(vaddr, level)) as u64
    }

    pub open spec fn slot_fits(&self, table: u64) -> bool {
        self.phys_offset + table + 4096 <= u64::MAX
    }
}

/// What a walk of `vaddr` reads: the entry slots level by level. The walk
/// ends at level 2 if that entry maps a huge page.
pub struct Walk {
    pub slot4: u64,
    pub slot3: u64,
    pub slot2: u64,
    pub slot1: u64,
}

/// The slots of the walk of `vaddr` in memory `mem`.
pub open spec fn walk_of(mem: Map<u64, u64>, space: AddressSpace, vaddr: u64) -> Walk {
    let slot4 = space.slot_of(space.level_4, vaddr, 4);
    let slot3 = space.slot_of(entry_addr(mem[slot4]), vaddr, 3);
    let slot2 = space.slot_of(entry_addr(mem[slot3]), vaddr, 2);
    let slot1 = space.slot_of(entry_addr(mem[slot2]), vaddr, 1);
    Walk { slot4, slot3, slot2, slot1 }
}

/// Whether the walk of `vaddr` ends at level 2 with a huge page.
pub open spec fn walk_is_huge(mem: Map<u64, u64>, space: AddressSpace, vaddr: u64) -> bool {
    has_flag(mem[walk_of(mem, space, vaddr).slot2], HUGE_PAGE)
}

/// The tables of the walk of `vaddr` exist down to its last level: levels 4
/// and 3 are present and not huge, and level 2 is huge or present.
pub open spec fn walk_present(mem: Map<u64, u64>, space: AddressSpace, vaddr: u64) -> bool {
    let w = walk_of(mem, space, vaddr);
    &&& space.slot_fits(space.level_4)
    &&& has_flag(mem[w.slot4], PRESENT)
    &&& !has_flag(mem[w.slot4], HUGE_PAGE)
    &&& space.slot_fits(entry_addr(mem[w.slot4]))
    &&& has_flag(mem[w.slot3], PRESENT)
    &&& !has_flag(mem[w.slot3], HUGE_PAGE)
    &&& space.slot_fits(entry_addr(mem[w.slot3]))
    &&& (has_flag(mem[w.slot2], HUGE_PAGE) || (has_flag(mem[w.slot2], PRESENT) && space.slot_fits(
        entry_addr(mem[w.slot2]),
    )))
}

/// Every entry that the hardware reads on the walk of `vaddr` carries the
/// user-accessible bit.
pub open spec fn user_reachable(mem: Map<u64, u64>, space: AddressSpace, vaddr: u64) -> bool {
    let w = walk_of(mem, space, vaddr);
    &&& has_flag(mem[w.slot4], USER_ACCESSIBLE)
    &&& has_flag(mem[w.slot3], USER_ACCESSIBLE)
    &&& has_flag(mem[w.slot2], USER_ACCESSIBLE)
    &&& (walk_is_huge(mem, space, vaddr) || has_flag(mem[w.slot1], USER_ACCESSIBLE))
}

/// The memory after user access has been granted to the page of `vaddr`:
/// the user bit is set level by level, and the last level also receives the
/// write permission and loses the no-execute bit as asked.
pub open spec fn grant_user_access(
    mem: Map<u64, u64>,
    space: AddressSpace,
    vaddr: u64,
    writable: bool,
    executable: bool,
) -> Map<u64, u64> {
    let slot4 = space.slot_of(space.level_4, vaddr, 4);
    let m4 = mem.insert(slot4, grant_user(mem[slot4]));
    let slot3 = space.slot_of(entry_addr(m4[slot4]), vaddr, 3);
    let m3 = m4.insert(slot3, grant_user(m4[slot3]));
    let slot2 = space.slot_of(entry_addr(m3[slot3]), vaddr, 2);
    if has_flag(m3[slot2], HUGE_PAGE) {
        m3.insert(slot2, grant_leaf(m3[slot2], writable, executable))
    } else {
        let m2 = m3.insert(slot2, grant_user(m3[slot2]));
        let slot1 = space.slot_of(entry_addr(m2[slot2]), vaddr, 1);
        m2.insert(slot1, grant_leaf(m2[slot1], writable, executable))
    }
}

/// `VirtAddr::try_new` of x86_64 accepts an address exactly when bits 48 to
/// 63 are copies of bit 47; this reports whether it did.
#[verifier::external_body]
fn canonical(vaddr: u64) -> (ok: bool)
    ensures
        ok == is_canonical(vaddr),
{
    VirtAddr::try_new(vaddr).is_ok()
}

/// `VirtAddr::p4_index` of x86_64, on the address with bits 48 to 63
/// rewritten by `VirtAddr::new_truncate`: bits 39 to 47 of the address.
#[verifier::external_body]
fn p4_index(vaddr: u64) -> (index: u64)
    ensures
        index == table_index(vaddr, 4),
        index < 512,
{
    u64::from(u16::from(VirtAddr::new_truncate(vaddr).p4_index()))
}

/// `VirtAddr::p3_index` of x86_64: bits 30 to 38 of the address.
#[verifier::external_body]
fn p3_index(vaddr: u64) -> (index: u64)
    ensures
        index == table_index(vaddr, 3),
        index < 512,
{
    u64::from(u16::from(VirtAddr::new_truncate(vaddr).p3_index()))
}

/// `VirtAddr::p2_index` of x86_64: bits 21 to 29 of the address.
#[verifier::external_body]
fn p2_index(vaddr: u64) -> (index: u64)
    ensures
        index == table_index(vaddr, 2),
        index < 512,
{
    u64::from(u16::from(VirtAddr::new_truncate(vaddr).p2_index()))
}

/// `VirtAddr::p1_index` of x86_64: bits 12 to 20 of the address.
#[verifier::external_body]
fn p1_index(vaddr: u64) -> (index: u64)
    ensures
        index == table_index(vaddr, 1),
        index < 512,
{
    u64::from(u16::from(VirtAddr::new_truncate(vaddr).p1_index()))
}

/// Granting access keeps the address, the present bit and the huge bit of an
/// entry, leaves the user bit set, and changes nothing when done again.
pub proof fn lemma_grant_keeps_walk(entry: u64, writable: bool, executable: bool)
    by (bit_vector)
    ensures
        entry_addr(grant_user(entry)) == entry_addr(entry),
        has_flag(grant_user(entry), PRESENT) == has_flag(entry, PRESENT),
        has_flag(grant_user(entry), HUGE_PAGE) == has_flag(entry, HUGE_PAGE),
        has_flag(grant_user(entry), USER_ACCESSIBLE),
        entry_addr(grant_leaf(entry, writable, executable)) == entry_addr(entry),
        has_flag(grant_leaf(entry, writable, executable), PRESENT) == has_flag(entry, PRESENT),
        has_flag(grant_leaf(entry, writable, executable), HUGE_PAGE) == has_flag(
            entry,
            HUGE_PAGE,
        ),
        has_flag(grant_leaf(entry, writable, executable), USER_ACCESSIBLE),
        has_flag(entry, USER_ACCESSIBLE) ==> grant_user(entry) == entry,
        grant_leaf(grant_leaf(entry, writable, executable), writable, executable) == grant_leaf(
            entry,
            writable,
            executable,
        ),
        grant_user(grant_leaf(entry, writable, executable)) == grant_leaf(
            entry,
            writable,
            executable,
        ),
{
}

/// The address field of an entry is a frame address.
pub proof fn lemma_entry_addr_is_frame(entry: u64)
    by (bit_vector)
    ensures
        entry_addr(entry) % 4096 == 0,
        entry_addr(entry) <= ADDRESS_MASK,
{
}

/// Window address of the entry of `table` that the walk of `vaddr` reads at
/// `level`.
fn entry_slot(space: &AddressSpace, table: u64, vaddr: u64, level: u8) -> (slot: u64)
    requires
        space.wf(),
        table % 4096 == 0,
        space.slot_fits(table),
        1 <= level <= 4,
    ensures
        slot == space.slot_of(table, vaddr, level as int),
        slot % 8 == 0,
        space.phys_offset + table <= slot < space.phys_offset + table + 4096,
{
    let index = if level == 4 {
        p4_index(vaddr)
    } else if level == 3 {
        p3_index(vaddr)
    } else if level == 2 {
        p2_index(vaddr)
    } else {
        p1_index(vaddr)
    };
    proof {
        lemma_frame_is_word_aligned(space.phys_offset);
        lemma_frame_is_word_aligned(table);
    }
    let within: u64 = 8 * index;
    let base: u64 = space.phys_offset + table;
    base + within
}

/// A multiple of the page size is a multiple of the word size.
proof fn lemma_frame_is_word_aligned(addr: u64)
    by (bit_vector)
    requires
        addr % 4096 == 0,
    ensures
        addr % 8 == 0,
{
}

/// Sets the user-accessible bit on every level of the walk of `page`, and at
/// the last level also grants writing if `writable` and execution if
/// `executable`. A huge-page entry at level 2 is the last level.
///
/// The tables of the walk must exist. The caller flushes the translation
/// cache for `page` afterwards.
pub fn set_page_user_accessible<M: WordMemory>(
    mem: &mut M,
    space: &AddressSpace,
    page: u64,
    writable: bool,
    executable: bool,
)
    requires
        space.wf(),
        walk_present(old(mem)@, *space, page),
    ensures
        final(mem)@ == grant_user_access(old(mem)@, *space, page, writable, executable),
        user_reachable(final(mem)@, *space, page),
{
    proof {
        lemma_user_reachable_after_grant(mem@, *space, page, writable, executable);
        lemma_grant_follows_walk(mem@, *space, page);
    }
    let slot4 = entry_slot(space, space.level_4, page, 4);
    let e4 = mem.read(slot4) | USER_ACCESSIBLE;
    mem.write(slot4, e4);
    proof {
        lemma_entry_addr_is_frame(e4);
    }

    let slot3 = entry_slot(space, e4 & ADDRESS_MASK, page, 3);
    let e3 = mem.read(slot3) | USER_ACCESSIBLE;
    mem.write(slot3, e3);
    proof {
        lemma_entry_addr_is_frame(e3);
    }

    let slot2 = entry_slot(space, e3 & ADDRESS_MASK, page, 2);
    let e2 = mem.read(slot2);
    if e2 & HUGE_PAGE != 0 {
        mem.write(slot2, leaf_entry(e2, writable, executable));
    } else {
        let e2 = e2 | USER_ACCESSIBLE;
        mem.write(slot2, e2);
        proof {
            lemma_entry_addr_is_frame(e2);
        }
        let slot1 = entry_slot(space, e2 & ADDRESS_MASK, page, 1);
        let e1 = mem.read(slot1);
        mem.write(slot1, leaf_entry(e1, writable, executable));
    }
}

/// The entry at the last level of a walk after access has been granted.
fn leaf_entry(entry: u64, writable: bool, executable: bool) -> (granted: u64)
    ensures
        granted == grant_leaf(entry, writable, executable),
{
    let mut e = entry | USER_ACCESSIBLE;
    if writable {
        e = e | WRITABLE;
    }
    if executable {
        e = e & !NO_EXECUTE;
    }
    e
}

/// While access is granted along a walk whose tables exist, each entry read
/// is present where the walk in the memory before needs it, and its table
/// fits the window.
proof fn lemma_grant_follows_walk(mem: Map<u64, u64>, space: AddressSpace, vaddr: u64)
    requires
        walk_present(mem, space, vaddr),
    ensures
        ({
            let slot4 = space.slot_of(space.level_4, vaddr, 4);
            let m4 = mem.insert(slot4, grant_user(mem[slot4]));
            let slot3 = space.slot_of(entry_addr(m4[slot4]), vaddr, 3);
            let m3 = m4.insert(slot3, grant_user(m4[slot3]));
            let slot2 = space.slot_of(entry_addr(m3[slot3]), vaddr, 2);
            let m2 = m3.insert(slot2, grant_user(m3[slot2]));
            &&& space.slot_fits(entry_addr(m4[slot4]))
            &&& space.slot_fits(entry_addr(m3[slot3]))
            &&& !has_flag(m3[slot2], HUGE_PAGE) ==> space.slot_fits(entry_addr(m2[slot2]))
        }),
{
    let w = walk_of(mem, space, vaddr);
    lemma_grant_keeps_walk(mem[w.slot4], false, false);
    lemma_grant_keeps_walk(mem[w.slot3], false, false);
    lemma_grant_keeps_walk(mem[w.slot2], false, false);
    lemma_grant_keeps_walk(grant_user(mem[w.slot4]), false, false);
    lemma_grant_keeps_walk(grant_user(mem[w.slot3]), false, false);
}

/// After access has been granted to a page whose tables exist, every entry
/// that the hardware reads on its walk has the user-accessible bit, and the
/// walk reads the same entries as before.
#[verifier::rlimit(50)]
pub proof fn lemma_user_reachable_after_grant(
    mem: Map<u64, u64>,
    space: AddressSpace,
    vaddr: u64,
    writable: bool,
    executable: bool,
)
    requires
        walk_present(mem, space, vaddr),
    ensures
        user_reachable(grant_user_access(mem, space, vaddr, writable, executable), space, vaddr),
        walk_of(grant_user_access(mem, space, vaddr, writable, executable), space, vaddr)
            == walk_of(mem, space, vaddr),
        walk_is_huge(grant_user_access(mem, space, vaddr, writable, executable), space, vaddr)
            == walk_is_huge(mem, space, vaddr),
        walk_present(grant_user_access(mem, space, vaddr, writable, executable), space, vaddr),
{
    let w = walk_of(mem, space, vaddr);
    let after = grant_user_access(mem, space, vaddr, writable, executable);
    lemma_grant_all(mem[w.slot4], writable, executable);
    lemma_grant_all(mem[w.slot3], writable, executable);
    lemma_grant_all(mem[w.slot2], writable, executable);
    lemma_grant_all(mem[w.slot1], writable, executable);
    let m4 = mem.insert(w.slot4, grant_user(mem[w.slot4]));
    assert(entry_addr(m4[w.slot4]) == entry_addr(mem[w.slot4]));
    assert(entry_addr(m4[w.slot3]) == entry_addr(mem[w.slot3]));
    let m3 = m4.insert(w.slot3, grant_user(m4[w.slot3]));
    assert(entry_addr(m3[w.slot3]) == entry_addr(mem[w.slot3]));
    assert(entry_addr(m3[w.slot2]) == entry_addr(mem[w.slot2]));
    assert(has_flag(m3[w.slot2], HUGE_PAGE) == has_flag(mem[w.slot2], HUGE_PAGE));
    if has_flag(m3[w.slot2], HUGE_PAGE) {
        assert(after == m3.insert(w.slot2, grant_leaf(m3[w.slot2], writable, executable)));
        assert(entry_addr(after[w.slot4]) == entry_addr(mem[w.slot4]));
        assert(entry_addr(after[w.slot3]) == entry_addr(mem[w.slot3]));
        assert(entry_addr(after[w.slot2]) == entry_addr(mem[w.slot2]));
    } else {
        let m2 = m3.insert(w.slot2, grant_user(m3[w.slot2]));
        assert(entry_addr(m2[w.slot2]) == entry_addr(mem[w.slot2]));
        assert(after == m2.insert(w.slot1, grant_leaf(m2[w.slot1], writable, executable)));
        assert(entry_addr(after[w.slot4]) == entry_addr(mem[w.slot4]));
        assert(entry_addr(after[w.slot3]) == entry_addr(mem[w.slot3]));
        assert(entry_addr(after[w.slot2]) == entry_addr(mem[w.slot2]));
    }
}

/// Granting the same access to the same page a second time changes nothing.
#[verifier::rlimit(50)]
pub proof fn lemma_grant_user_access_idempotent(
    mem: Map<u64, u64>,
    space: AddressSpace,
    vaddr: u64,
    writable: bool,
    executable: bool,
)
    ensures
        grant_user_access(
            grant_user_access(mem, space, vaddr, writable, executable),
            space,
            vaddr,
            writable,
            executable,
        ) == grant_user_access(mem, space, vaddr, writable, executable),
{
    let w = walk_of(mem, space, vaddr);
    let once = grant_user_access(mem, space, vaddr, writable, executable);
    let twice = grant_user_access(once, space, vaddr, writable, executable);
    lemma_grant_all(mem[w.slot4], writable, executable);
    lemma_grant_all(mem[w.slot3], writable, executable);
    lemma_grant_all(mem[w.slot2], writable, executable);
    lemma_grant_all(mem[w.slot1], writable, executable);
    lemma_grant_keeps_walk(once[w.slot4], writable, executable);
    lemma_grant_keeps_walk(once[w.slot3], writable, executable);
    lemma_grant_keeps_walk(once[w.slot2], writable, executable);
    lemma_grant_keeps_walk(once[w.slot1], writable, executable);
    let m4 = mem.insert(w.slot4, grant_user(mem[w.slot4]));
    let m3 = m4.insert(w.slot3, grant_user(m4[w.slot3]));
    assert(entry_addr(m4[w.slot4]) == entry_addr(mem[w.slot4]));
    assert(entry_addr(m3[w.slot3]) == entry_addr(mem[w.slot3]));
    assert(has_flag(m3[w.slot2], HUGE_PAGE) == has_flag(mem[w.slot2], HUGE_PAGE));
    if has_flag(m3[w.slot2], HUGE_PAGE) {
        let leaf = grant_leaf(m3[w.slot2], writable, executable);
        lemma_grant_keeps_walk(m3[w.slot2], writable, executable);
        assert(once == m3.insert(w.slot2, leaf));
        assert(once[w.slot2] == leaf);
        let n4 = once.insert(w.slot4, grant_user(once[w.slot4]));
        assert(n4 =~= once);
        let n3 = n4.insert(w.slot3, grant_user(n4[w.slot3]));
        assert(n3 =~= once);
        assert(twice =~= once);
    } else {
        let m2 = m3.insert(w.slot2, grant_user(m3[w.slot2]));
        let leaf = grant_leaf(m2[w.slot1], writable, executable);
        lemma_grant_keeps_walk(m2[w.slot1], writable, executable);
        assert(entry_addr(m2[w.slot2]) == entry_addr(mem[w.slot2]));
        assert(once == m2.insert(w.slot1, leaf));
        assert(once[w.slot1] == leaf);
        let n4 = once.insert(w.slot4, grant_user(once[w.slot4]));
        assert(n4 =~= once);
        let n3 = n4.insert(w.slot3, grant_user(n4[w.slot3]));
        assert(n3 =~= once);
        let n2 = n3.insert(w.slot2, grant_user(n3[w.slot2]));
        assert(n2 =~= once);
        assert(twice =~= once);
    }
}

/// The facts of `lemma_grant_keeps_walk` for an entry and for each entry
/// that one or two grants make of it.
proof fn lemma_grant_all(entry: u64, writable: bool, executable: bool)
    ensures
        granted_like(entry, grant_user(entry)),
        granted_like(entry, grant_leaf(entry, writable, executable)),
        granted_like(entry, grant_user(grant_user(entry))),
        granted_like(entry, grant_leaf(grant_user(entry), writable, executable)),
        granted_like(entry, grant_user(grant_user(grant_user(entry)))),
        granted_like(entry, grant_leaf(grant_user(grant_user(entry)), writable, executable)),
        granted_like(
            entry,
            grant_leaf(grant_user(grant_user(grant_user(entry))), writable, executable),
        ),
{
    let u1 = grant_user(entry);
    let u2 = grant_user(u1);
    let u3 = grant_user(u2);
    lemma_grant_keeps_walk(entry, writable, executable);
    lemma_grant_keeps_walk(u1, writable, executable);
    lemma_grant_keeps_walk(u2, writable, executable);
    lemma_grant_keeps_walk(u3, writable, executable);
}

/// `after` has the address, present bit and huge bit of `before`, and the
/// user bit.
pub open spec fn granted_like(before: u64, after: u64) -> bool {
    &&& entry_addr(after) == entry_addr(before)
    &&& has_flag(after, PRESENT) == has_flag(before, PRESENT)
    &&& has_flag(after, HUGE_PAGE) == has_flag(before, HUGE_PAGE)
    &&& has_flag(after, USER_ACCESSIBLE)
}

/// Why a page could not be mapped.
#[derive(Clone, Copy, Debug, PartialEq, Eq, Structural)]
pub enum MapError {
    /// The virtual address is not canonical.
    NonCanonicalAddress,
    /// The provider had no page left for the frame to map.
    FrameAllocationFailed,
    /// The provider had no page left for a page table.
    TableAllocationFailed,
    /// A page from the provider lies outside the direct window, or beyond
    /// what an entry can address.
    FrameOutsideWindow,
    /// An entry above the last level maps a huge page or is not present.
    ParentEntryUnusable,
    /// The level-1 entry is already in use.
    PageAlreadyMapped,
}

impl MapError {
    /// A short description of the failure.
    pub fn message(&self) -> (text: &'static str)
        ensures
            text@ == (if *self == MapError::FrameAllocationFailed {
                "Failed to allocate frame"@
            } else {
                "Failed to map page"@
            }),
    {
        match self {
            MapError::FrameAllocationFailed => "Failed to allocate frame",
            _ => "Failed to map page",
        }
    }
}

/// Flags that can go into an entry beside a frame address: no address bit,
/// and not the huge-page bit.
pub open spec fn valid_page_flags(flags: u64) -> bool {
    flags & ADDRESS_MASK == 0 && flags & HUGE_PAGE == 0
}

/// The flags that a mapping with `flags` asks of the tables above it.
pub open spec fn parent_flags(flags: u64) -> u64 {
    flags & (PRESENT | WRITABLE | USER_ACCESSIBLE)
}

/// The physical address that `vaddr` translates to, if every level of its
/// walk is present.
pub open spec fn translation(mem: Map<u64, u64>, space: AddressSpace, vaddr: u64) -> Option<u64> {
    let w = walk_of(mem, space, vaddr);
    if has_flag(mem[w.slot4], PRESENT) && has_flag(mem[w.slot3], PRESENT) && has_flag(
        mem[w.slot2],
        PRESENT,
    ) && has_flag(mem[w.slot1], PRESENT) {
        Some((entry_addr(mem[w.slot1]) + (vaddr & 0xfff)) as u64)
    } else {
        None
    }
}

/// The walk of `vaddr` stays inside the window and meets no huge page, as
/// far as it is present.
pub open spec fn translation_defined(mem: Map<u64, u64>, space: AddressSpace, vaddr: u64) -> bool {
    let w = walk_of(mem, space, vaddr);
    &&& space.slot_fits(space.level_4)
    &&& has_flag(mem[w.slot4], PRESENT) ==> {
        &&& !has_flag(mem[w.slot4], HUGE_PAGE)
        &&& space.slot_fits(entry_addr(mem[w.slot4]))
        &&& has_flag(mem[w.slot3], PRESENT) ==> {
            &&& !has_flag(mem[w.slot3], HUGE_PAGE)
            &&& space.slot_fits(entry_addr(mem[w.slot3]))
            &&& has_flag(mem[w.slot2], PRESENT) ==> {
                &&& !has_flag(mem[w.slot2], HUGE_PAGE)
                &&& space.slot_fits(entry_addr(mem[w.slot2]))
                &&& has_flag(mem[w.slot1], PRESENT) ==> !has_flag(mem[w.slot1], HUGE_PAGE)
            }
        }
    }
}

/// Translates a virtual address by walking the four levels, or returns
/// `None` if a level is not present.
pub fn translate_addr<M: WordMemory>(mem: &M, space: &AddressSpace, addr: u64) -> (phys: Option<
    u64,
>)
    requires
        space.wf(),
        translation_defined(mem@, *space, addr),
    ensures
        phys == translation(mem@, *space, addr),
{
    let mut table = space.level_4;
    let mut level: u8 = 4;
    let ghost w = walk_of(mem@, *space, addr);
    while level >= 1
        invariant
            0 <= level <= 4,
            space.wf(),
            translation_defined(mem@, *space, addr),
            w == walk_of(mem@, *space, addr),
            level >= 1 ==> table % 4096 == 0 && space.slot_fits(table),
            level == 4 ==> table == space.level_4,
            level <= 3 ==> has_flag(mem@[w.slot4], PRESENT),
            level == 3 ==> table == entry_addr(mem@[w.slot4]),
            level <= 2 ==> has_flag(mem@[w.slot3], PRESENT),
            level == 2 ==> table == entry_addr(mem@[w.slot3]),
            level <= 1 ==> has_flag(mem@[w.slot2], PRESENT),
            level == 1 ==> table == entry_addr(mem@[w.slot2]),
            level == 0 ==> has_flag(mem@[w.slot1], PRESENT) && table == entry_addr(mem@[w.slot1]),
        decreases level,
    {
        let slot = entry_slot(space, table, addr, level);
        let entry = mem.read(slot);
        if entry & PRESENT == 0 {
            return None;
        }
        proof {
            lemma_entry_addr_is_frame(entry);
        }
        table = entry & ADDRESS_MASK;
        level = level - 1;
    }
    proof {
        let off = addr & 0xfff;
        assert(off <= 0xfff) by (bit_vector)
            requires
                off == addr & 0xfff,
        ;
        lemma_entry_addr_is_frame(mem@[w.slot1]);
    }
    Some(table + (addr & 0xfff))
}

/// The entry `index` of the table in frame `table`.
pub open spec fn entry_of(mem: Map<u64, u64>, space: AddressSpace, table: u64, index: u64) -> u64 {
    mem[space.slot(table, index) as u64]
}

impl AddressSpace {
    /// An address space over the level-4 table in frame `level_4`.
    pub fn new(phys_offset: u64, level_4: u64) -> (space: Self)
        ensures
            space.phys_offset == phys_offset,
            space.level_4 == level_4,
            space.tables@ == Map::<u64, int>::empty().insert(level_4, 4int),
    {
        AddressSpace {
            phys_offset,
            level_4,
            tables: Ghost(Map::<u64, int>::empty().insert(level_4, 4int)),
        }
    }

    /// Whether the page that starts at window address `page` holds one of
    /// the tables of this space.
    pub open spec fn is_table_page(&self, page: u64) -> bool {
        page >= self.phys_offset && self.tables@.contains_key((page - self.phys_offset) as u64)
    }

    /// The tables form a tree.
    ///
    /// The level-4 table is recorded; every recorded table is a frame inside
    /// the window; and in a table above level 1 every entry in use is
    /// present and, unless it maps a huge page, points to a recorded table
    /// of the next level down.
    pub open spec fn tree_shape(&self, mem: Map<u64, u64>) -> bool {
        &&& self.wf()
        &&& self.tables@.contains_key(self.level_4)
        &&& self.tables@[self.level_4] == 4
        &&& forall|t: u64| #[trigger]
            self.tables@.contains_key(t) ==> {
                &&& t % 4096 == 0
                &&& t <= ADDRESS_MASK
                &&& self.slot_fits(t)
                &&& 1 <= self.tables@[t] <= 4
            }
        &&& forall|t: u64, i: u64|
            self.tables@.contains_key(t) && self.tables@[t] >= 2 && i < 512 && #[trigger] entry_of(
                mem,
                *self,
                t,
                i,
            ) != 0 ==> {
                let e = entry_of(mem, *self, t, i);
                &&& has_flag(e, PRESENT)
                &&& !has_flag(e, HUGE_PAGE) ==> self.tables@.contains_key(entry_addr(e))
                    && self.tables@[entry_addr(e)] == self.tables@[t] - 1
            }
    }

    /// The tables form a tree that the provider has no hand in: no recorded
    /// table lies in a page that the provider holds.
    pub open spec fn tree_inv<P: PageProvider>(&self, mem: Map<u64, u64>, provider: &P) -> bool {
        &&& self.tree_shape(mem)
        &&& forall|t: u64| #[trigger]
            self.tables@.contains_key(t) ==> !provider.holds((self.phys_offset + t) as u64)
    }
}

/// Two entries of page-aligned tables share a slot only if they are the
/// same entry of the same table.
proof fn lemma_slots_differ(space: AddressSpace, t1: u64, i1: u64, t2: u64, i2: u64)
    requires
        t1 % 4096 == 0,
        t2 % 4096 == 0,
        i1 < 512,
        i2 < 512,
        space.phys_offset % 4096 == 0,
        space.slot_fits(t1),
        space.slot_fits(t2),
    ensures
        space.slot(t1, i1) == space.slot(t2, i2) ==> t1 == t2 && i1 == i2,
        page_base(space.slot(t1, i1) as u64) == space.phys_offset + t1,
{
}

/// How an entry in use may change while pages are mapped: above level 1
/// it keeps its address, stays present and keeps its huge bit; at level 1
/// it does not change at all.
pub open spec fn entry_kept(level: int, before: u64, after: u64) -> bool {
    before != 0 ==> if level >= 2 {
        &&& entry_addr(after) == entry_addr(before)
        &&& has_flag(after, PRESENT)
        &&& has_flag(after, HUGE_PAGE) == has_flag(before, HUGE_PAGE)
    } else {
        after == before
    }
}

/// Every entry in use of every table recorded before is kept.
pub open spec fn entries_kept(
    before: AddressSpace,
    mem_before: Map<u64, u64>,
    mem_after: Map<u64, u64>,
) -> bool {
    forall|t: u64, i: u64|
        before.tables@.contains_key(t) && i < 512 ==> entry_kept(
            before.tables@[t],
            entry_of(mem_before, before, t, i),
            #[trigger] entry_of(mem_after, before, t, i),
        )
}

/// A present entry is not zero.
proof fn lemma_present_is_used(entry: u64)
    by (bit_vector)
    ensures
        has_flag(entry, PRESENT) ==> entry != 0,
{
}

/// Entries kept over one step and then over another are kept over both.
proof fn lemma_entries_kept_chain(
    s0: AddressSpace,
    m0: Map<u64, u64>,
    s1: AddressSpace,
    m1: Map<u64, u64>,
    m2: Map<u64, u64>,
)
    requires
        s1.phys_offset == s0.phys_offset,
        records_kept(s0.tables@, s1.tables@),
        entries_kept(s0, m0, m1),
        entries_kept(s1, m1, m2),
    ensures
        entries_kept(s0, m0, m2),
{
    assert forall|t: u64, i: u64| s0.tables@.contains_key(t) && i < 512 implies entry_kept(
        s0.tables@[t],
        entry_of(m0, s0, t, i),
        #[trigger] entry_of(m2, s0, t, i),
    ) by {
        let e0 = entry_of(m0, s0, t, i);
        let e1 = entry_of(m1, s0, t, i);
        let e2 = entry_of(m2, s0, t, i);
        assert(entry_of(m1, s1, t, i) == e1);
        assert(entry_of(m2, s1, t, i) == e2);
        assert(entry_kept(s0.tables@[t], e0, e1));
        assert(entry_kept(s1.tables@[t], e1, e2));
        lemma_present_is_used(e1);
    }
}

/// A page that was mapped stays mapped to the same frame with the same
/// level-1 entry when the entries in use are kept.
pub proof fn lemma_mapping_kept<P: PageProvider>(
    space: AddressSpace,
    mem: Map<u64, u64>,
    after: AddressSpace,
    mem_after: Map<u64, u64>,
    provider: &P,
    vaddr: u64,
    phys: u64,
    flags: u64,
)
    requires
        space.tree_inv(mem, provider),
        after.phys_offset == space.phys_offset,
        after.level_4 == space.level_4,
        entries_kept(space, mem, mem_after),
        maps_to(mem, space, vaddr, phys, flags),
        phys | flags != 0,
    ensures
        maps_to(mem_after, after, vaddr, phys, flags),
        walk_of(mem_after, after, vaddr) == walk_of(mem, space, vaddr),
{
    lemma_index_bound(vaddr);
    let w = walk_of(mem, space, vaddr);
    let i4 = table_index(vaddr, 4);
    let i3 = table_index(vaddr, 3);
    let i2 = table_index(vaddr, 2);
    let i1 = table_index(vaddr, 1);
    let t4 = space.level_4;
    assert(mem[w.slot4] == entry_of(mem, space, t4, i4));
    assert(mem_after[w.slot4] == entry_of(mem_after, space, t4, i4));
    lemma_present_is_used(mem[w.slot4]);
    let t3 = entry_addr(mem[w.slot4]);
    assert(mem[w.slot3] == entry_of(mem, space, t3, i3));
    assert(mem_after[w.slot3] == entry_of(mem_after, space, t3, i3));
    lemma_present_is_used(mem[w.slot3]);
    let t2 = entry_addr(mem[w.slot3]);
    assert(mem[w.slot2] == entry_of(mem, space, t2, i2));
    assert(mem_after[w.slot2] == entry_of(mem_after, space, t2, i2));
    lemma_present_is_used(mem[w.slot2]);
    let t1 = entry_addr(mem[w.slot2]);
    assert(mem[w.slot1] == entry_of(mem, space, t1, i1));
    assert(mem_after[w.slot1] == entry_of(mem_after, space, t1, i1));
}

/// In a tree of tables, the walk of an address that is present down to
/// level 2 reads its entries in recorded tables of levels 4, 3, 2 and 1.
pub proof fn lemma_walk_stays_in_tables<P: PageProvider>(
    space: AddressSpace,
    mem: Map<u64, u64>,
    provider: &P,
    vaddr: u64,
)
    requires
        space.tree_inv(mem, provider),
        ({
            let w = walk_of(mem, space, vaddr);
            &&& has_flag(mem[w.slot4], PRESENT) && !has_flag(mem[w.slot4], HUGE_PAGE)
            &&& has_flag(mem[w.slot3], PRESENT) && !has_flag(mem[w.slot3], HUGE_PAGE)
            &&& has_flag(mem[w.slot2], PRESENT) && !has_flag(mem[w.slot2], HUGE_PAGE)
        }),
    ensures
        walk_reaches(mem, space, vaddr, entry_addr(mem[walk_of(mem, space, vaddr).slot2])),
        table_index(vaddr, 4) < 512,
        table_index(vaddr, 3) < 512,
        table_index(vaddr, 2) < 512,
        table_index(vaddr, 1) < 512,
        ({
            let w = walk_of(mem, space, vaddr);
            &&& mem[w.slot4] == entry_of(mem, space, space.level_4, table_index(vaddr, 4))
            &&& mem[w.slot3] == entry_of(mem, space, entry_addr(mem[w.slot4]), table_index(vaddr, 3))
            &&& mem[w.slot2] == entry_of(mem, space, entry_addr(mem[w.slot3]), table_index(vaddr, 2))
            &&& mem[w.slot1] == entry_of(mem, space, entry_addr(mem[w.slot2]), table_index(vaddr, 1))
        }),
{
    lemma_index_bound(vaddr);
    let w = walk_of(mem, space, vaddr);
    let t4 = space.level_4;
    assert(mem[w.slot4] == entry_of(mem, space, t4, table_index(vaddr, 4)));
    lemma_present_is_used(mem[w.slot4]);
    let t3 = entry_addr(mem[w.slot4]);
    assert(mem[w.slot3] == entry_of(mem, space, t3, table_index(vaddr, 3)));
    lemma_present_is_used(mem[w.slot3]);
    let t2 = entry_addr(mem[w.slot3]);
    assert(mem[w.slot2] == entry_of(mem, space, t2, table_index(vaddr, 2)));
    lemma_present_is_used(mem[w.slot2]);
}

/// What a step did to the level-1 entries: each is what it was, and those
/// of a table that is new are unused, but for the entry of the page of
/// `vaddr`, if one is given, whose walk then reaches its level-1 table.
pub open spec fn leaves_kept(
    before: AddressSpace,
    mem_before: Map<u64, u64>,
    after: AddressSpace,
    mem_after: Map<u64, u64>,
    vaddr: Option<u64>,
) -> bool {
    forall|t: u64, i: u64|
        #![trigger entry_of(mem_after, after, t, i)]
        after.tables@.contains_key(t) && after.tables@[t] == 1 && i < 512 ==> {
            ||| entry_of(mem_after, after, t, i) == (if before.tables@.contains_key(t) {
                entry_of(mem_before, before, t, i)
            } else {
                0
            })
            ||| vaddr is Some && walk_reaches(mem_after, after, vaddr->Some_0, t) && table_index(
                vaddr->Some_0,
                1,
            ) == i
        }
}

/// A walk that reaches its level-1 table reads the same entries, and
/// reaches the same table, after a step that keeps the records and the
/// entries in use.
pub proof fn lemma_walk_reaches_kept(
    space: AddressSpace,
    mem: Map<u64, u64>,
    after: AddressSpace,
    mem_after: Map<u64, u64>,
    vaddr: u64,
    t1: u64,
)
    requires
        space.tables@.contains_key(space.level_4),
        after.phys_offset == space.phys_offset,
        after.level_4 == space.level_4,
        records_kept(space.tables@, after.tables@),
        entries_kept(space, mem, mem_after),
        walk_reaches(mem, space, vaddr, t1),
    ensures
        walk_reaches(mem_after, after, vaddr, t1),
        walk_of(mem_after, after, vaddr) == walk_of(mem, space, vaddr),
{
    let w = walk_of(mem, space, vaddr);
    lemma_index_bound(vaddr);
    let t3 = entry_addr(mem[w.slot4]);
    let t2 = entry_addr(mem[w.slot3]);
    lemma_present_is_used(mem[w.slot4]);
    lemma_present_is_used(mem[w.slot3]);
    lemma_present_is_used(mem[w.slot2]);
    assert(mem[w.slot4] == entry_of(mem, space, space.level_4, table_index(vaddr, 4)));
    assert(entry_kept(
        space.tables@[space.level_4],
        entry_of(mem, space, space.level_4, table_index(vaddr, 4)),
        entry_of(mem_after, space, space.level_4, table_index(vaddr, 4)),
    ));
    assert(mem[w.slot3] == entry_of(mem, space, t3, table_index(vaddr, 3)));
    assert(entry_kept(
        space.tables@[t3],
        entry_of(mem, space, t3, table_index(vaddr, 3)),
        entry_of(mem_after, space, t3, table_index(vaddr, 3)),
    ));
    assert(mem[w.slot2] == entry_of(mem, space, t2, table_index(vaddr, 2)));
    assert(entry_kept(
        space.tables@[t2],
        entry_of(mem, space, t2, table_index(vaddr, 2)),
        entry_of(mem_after, space, t2, table_index(vaddr, 2)),
    ));
}

/// What one level of entering a page keeps, in a tree of tables and with
/// a spare page that is none of its tables: the tree stays a tree; only the
/// entry read and, where it is used, the spare page change; the spare page
/// is the only table that can be new; and entries in use are kept. On
/// success the entry read is present, carries `flags` and points to the
/// table returned, which is recorded one level down.
pub proof fn lemma_table_step(
    mem: Map<u64, u64>,
    space: AddressSpace,
    table: u64,
    vaddr: u64,
    level: int,
    flags: u64,
    spare: Option<u64>,
)
    requires
        space.tree_shape(mem),
        space.tables@.contains_key(table),
        space.tables@[table] == level,
        2 <= level <= 4,
        flags & ADDRESS_MASK == 0,
        flags & HUGE_PAGE == 0,
        spare matches Some(p) ==> !space.is_table_page(p),
    ensures
        ({
            let s = table_step(mem, space, table, vaddr, level, flags, spare);
            let slot = space.slot_of(table, vaddr, level);
            &&& records_kept(space.tables@, s.tables)
            &&& with_tables(space, s.tables).tree_shape(s.mem)
            &&& forall|addr: u64| #[trigger]
                s.mem[addr] != mem[addr] ==> addr == slot || (s.used && spare == Some(
                    page_base(addr),
                ))
            &&& forall|t: u64| #[trigger]
                s.tables.contains_key(t) && !space.tables@.contains_key(t) ==> s.used && spare
                    == Some((space.phys_offset + t) as u64)
            &&& entries_kept(space, mem, s.mem)
            &&& leaves_kept(space, mem, with_tables(space, s.tables), s.mem, None)
            &&& match s.next {
                Ok(t) => {
                    &&& s.tables.contains_key(t)
                    &&& s.tables[t] == level - 1
                    &&& entry_addr(s.mem[slot]) == t
                    &&& has_flag(s.mem[slot], PRESENT)
                    &&& !has_flag(s.mem[slot], HUGE_PAGE)
                    &&& s.mem[slot] & flags == flags
                },
                Err(e) => s.mem == mem && s.tables == space.tables@,
            }
        }),
{
    let s = table_step(mem, space, table, vaddr, level, flags, spare);
    let after = with_tables(space, s.tables);
    let slot = space.slot_of(table, vaddr, level);
    let index = table_index(vaddr, level);
    let entry = mem[slot];
    lemma_index_bound(vaddr);
    lemma_slots_differ(space, table, index, table, index);
    assert(entry == entry_of(mem, space, table, index));
    assert forall|t: u64, i: u64| space.tables@.contains_key(t) && i < 512 implies page_base(
        space.slot(t, i) as u64,
    ) == space.phys_offset + t && (space.slot(t, i) == slot ==> t == table && i == index) by {
        lemma_slots_differ(space, t, i, table, index);
    }
    if s.next is Ok {
        let t = s.next->Ok_0;
        if entry == 0 {
            let page = spare->Some_0;
            let created = t | flags;
            let cleared = zeroed(mem, page, 512);
            lemma_new_entry(t, flags);
            lemma_zeroed(mem, page, 512);
            assert(!space.tables@.contains_key(t));
            assert(page_base(slot) == space.phys_offset + table);
            assert(page_base(slot) != page);
            assert(after.slot_fits(t));
            assert forall|t2: u64, i2: u64|
                after.tables@.contains_key(t2) && after.tables@[t2] >= 2 && i2 < 512
                    && #[trigger] entry_of(s.mem, after, t2, i2) != 0 implies ({
                let e = entry_of(s.mem, after, t2, i2);
                &&& has_flag(e, PRESENT)
                &&& !has_flag(e, HUGE_PAGE) ==> after.tables@.contains_key(entry_addr(e))
                    && after.tables@[entry_addr(e)] == after.tables@[t2] - 1
            }) by {
                lemma_slots_differ(space, t2, i2, table, index);
                if t2 == t {
                    assert(cleared[(page + 8 * i2) as u64] == 0);
                    assert(after.slot(t2, i2) == page + 8 * i2);
                    assert(false);
                } else if t2 == table && i2 == index {
                } else {
                    assert(entry_of(s.mem, after, t2, i2) == entry_of(mem, space, t2, i2));
                    let e = entry_of(mem, space, t2, i2);
                    if !has_flag(e, HUGE_PAGE) {
                        assert(space.tables@.contains_key(entry_addr(e)));
                    }
                }
            }
            assert(created & flags == flags) by (bit_vector)
                requires
                    created == t | flags,
            ;
            assert forall|t2: u64, i2: u64|
                space.tables@.contains_key(t2) && i2 < 512 implies entry_kept(
                space.tables@[t2],
                entry_of(mem, space, t2, i2),
                #[trigger] entry_of(s.mem, space, t2, i2),
            ) by {
                lemma_slots_differ(space, t2, i2, table, index);
            }
            assert forall|t2: u64, i2: u64|
                after.tables@.contains_key(t2) && after.tables@[t2] == 1 && i2
                    < 512 implies #[trigger] entry_of(s.mem, after, t2, i2) == (if space.tables@.contains_key(
                t2,
            ) {
                entry_of(mem, space, t2, i2)
            } else {
                0
            }) by {
                lemma_slots_differ(space, t2, i2, table, index);
                if t2 == t {
                    assert(cleared[(page + 8 * i2) as u64] == 0);
                    assert(after.slot(t2, i2) == page + 8 * i2);
                }
            }
        } else {
            let updated = entry | flags;
            lemma_added_flags(entry, flags);
            lemma_entry_addr_is_frame(updated);
            assert(has_flag(entry, PRESENT));
            assert forall|t2: u64, i2: u64|
                after.tables@.contains_key(t2) && after.tables@[t2] >= 2 && i2 < 512
                    && #[trigger] entry_of(s.mem, after, t2, i2) != 0 implies ({
                let e = entry_of(s.mem, after, t2, i2);
                &&& has_flag(e, PRESENT)
                &&& !has_flag(e, HUGE_PAGE) ==> after.tables@.contains_key(entry_addr(e))
                    && after.tables@[entry_addr(e)] == after.tables@[t2] - 1
            }) by {
                lemma_slots_differ(space, t2, i2, table, index);
                if t2 == table && i2 == index {
                } else {
                    assert(entry_of(s.mem, after, t2, i2) == entry_of(mem, space, t2, i2));
                }
            }
            assert forall|t2: u64, i2: u64|
                space.tables@.contains_key(t2) && i2 < 512 implies entry_kept(
                space.tables@[t2],
                entry_of(mem, space, t2, i2),
                #[trigger] entry_of(s.mem, space, t2, i2),
            ) by {
                lemma_slots_differ(space, t2, i2, table, index);
            }
            assert forall|t2: u64, i2: u64|
                after.tables@.contains_key(t2) && after.tables@[t2] == 1 && i2
                    < 512 implies #[trigger] entry_of(s.mem, after, t2, i2) == entry_of(
                mem,
                space,
                t2,
                i2,
            ) by {
                lemma_slots_differ(space, t2, i2, table, index);
            }
        }
    } else {
        assert(after.tables@ == space.tables@);
    }
}

/// The walk of `vaddr` is present down to level 1, meets no huge page, and
/// its level-1 entry holds frame `phys` with `flags`.
pub open spec fn maps_to(
    mem: Map<u64, u64>,
    space: AddressSpace,
    vaddr: u64,
    phys: u64,
    flags: u64,
) -> bool {
    let w = walk_of(mem, space, vaddr);
    &&& has_flag(mem[w.slot4], PRESENT) && !has_flag(mem[w.slot4], HUGE_PAGE)
    &&& has_flag(mem[w.slot3], PRESENT) && !has_flag(mem[w.slot3], HUGE_PAGE)
    &&& has_flag(mem[w.slot2], PRESENT) && !has_flag(mem[w.slot2], HUGE_PAGE)
    &&& mem[w.slot1] == phys | flags
    &&& entry_addr(mem[w.slot1]) == phys
}

/// A page mapped with the present flag translates: every address of the
/// page goes to the same offset in the frame.
pub proof fn lemma_mapped_translates(
    mem: Map<u64, u64>,
    space: AddressSpace,
    vaddr: u64,
    phys: u64,
    flags: u64,
)
    requires
        maps_to(mem, space, vaddr, phys, flags),
        has_flag(flags, PRESENT),
    ensures
        translation(mem, space, vaddr) == Some((phys + (vaddr & 0xfff)) as u64),
{
    lemma_flag_of_entry(phys, flags);
}

/// An entry made of a frame and flags has each flag of the flags.
proof fn lemma_flag_of_entry(phys: u64, flags: u64)
    by (bit_vector)
    ensures
        flags & PRESENT != 0 ==> (phys | flags) & PRESENT != 0,
{
}

/// The memory after the first `words` words of the page at window address
/// `page` have been set to zero.
pub open spec fn zeroed(mem: Map<u64, u64>, page: u64, words: nat) -> Map<u64, u64>
    decreases words,
{
    if words == 0 {
        mem
    } else {
        zeroed(mem, page, (words - 1) as nat).insert((page + 8 * (words - 1)) as u64, 0)
    }
}

/// Zeroing words of a page sets those words to zero and leaves every other
/// page as it was.
pub proof fn lemma_zeroed(mem: Map<u64, u64>, page: u64, words: nat)
    requires
        page % 4096 == 0,
        page <= u64::MAX - 4096,
        words <= 512,
    ensures
        forall|j: u64| j < words ==> #[trigger] zeroed(mem, page, words)[(page + 8 * j) as u64] == 0,
        forall|addr: u64|
            page_base(addr) != page ==> #[trigger] zeroed(mem, page, words)[addr] == mem[addr],
    decreases words,
{
    if words > 0 {
        lemma_zeroed(mem, page, (words - 1) as nat);
        let before = zeroed(mem, page, (words - 1) as nat);
        let last = (page + 8 * (words - 1)) as u64;
        lemma_word_of_page(page, (words - 1) as u64);
        assert forall|j: u64| j < words implies #[trigger] zeroed(mem, page, words)[(page + 8
            * j) as u64] == 0 by {
            if j < words - 1 {
                assert(before[(page + 8 * j) as u64] == 0);
            }
        }
    }
}

/// Word `j` of a page lies in that page.
proof fn lemma_word_of_page(page: u64, j: u64)
    requires
        page % 4096 == 0,
        page <= u64::MAX - 4096,
        j < 512,
    ensures
        page_base((page + 8 * j) as u64) == page,
        (page + 8 * j) % 8 == 0,
{
    lemma_word_in_page(page, j);
    assert(page + 8 * j <= u64::MAX);
    assert((page + 8 * j) as u64 == page + 8 * j);
}

/// Word `j` of a page: its address is word aligned, and rounding it down
/// to a page gives the page.
proof fn lemma_word_in_page(page: u64, j: u64)
    by (bit_vector)
    requires
        page % 4096 == 0,
        page <= 0xffff_ffff_ffff_efff,
        j < 512,
    ensures
        ((page + 8 * j) as u64 - ((page + 8 * j) as u64) % 4096) as u64 == page,
        ((page + 8 * j) as u64) % 4096 <= (page + 8 * j) as u64,
        ((page + 8 * j) as u64) % 8 == 0,
{
}

/// Fills the page at window address `page` with zero words.
fn zero_page<M: WordMemory>(mem: &mut M, page: u64)
    requires
        page % 4096 == 0,
        page <= u64::MAX - 4096,
    ensures
        final(mem)@ == zeroed(old(mem)@, page, 512),
        forall|j: u64| j < 512 ==> #[trigger] final(mem)@[(page + 8 * j) as u64] == 0,
        forall|addr: u64| page_base(addr) != page ==> #[trigger] final(mem)@[addr] == old(mem)@[addr],
{
    let mut i: u64 = 0;
    while i < 512
        invariant
            i <= 512,
            page % 4096 == 0,
            page <= u64::MAX - 4096,
            mem@ == zeroed(old(mem)@, page, i as nat),
        decreases 512 - i,
    {
        proof {
            lemma_word_of_page(page, i);
        }
        mem.write(page + 8 * i, 0);
        i = i + 1;
    }
    proof {
        lemma_zeroed(old(mem)@, page, 512);
    }
}

/// The frame of a page that was handed in for mapping: `missing` if no page
/// was handed in; the error of a frame outside the window if the page is not
/// page aligned, lies below the window or too far above its start for an
/// entry to address, or ends beyond the address space; else the page's
/// offset in the window.
pub open spec fn page_frame(phys_offset: u64, page: Option<u64>, missing: MapError) -> Result<
    u64,
    MapError,
> {
    match page {
        None => Err(missing),
        Some(p) => if p % 4096 != 0 || p < phys_offset || p - phys_offset > ADDRESS_MASK || p
            > u64::MAX - 4096 {
            Err(MapError::FrameOutsideWindow)
        } else {
            Ok((p - phys_offset) as u64)
        },
    }
}

/// The frame of a page that was handed in for mapping.
pub fn frame_of_page(phys_offset: u64, page: Option<u64>, missing: MapError) -> (frame: Result<
    u64,
    MapError,
>)
    ensures
        frame == page_frame(phys_offset, page, missing),
{
    match page {
        None => Err(missing),
        Some(p) => {
            if p % 4096 != 0 || p < phys_offset || p - phys_offset > ADDRESS_MASK || p > u64::MAX
                - 4096 {
                Err(MapError::FrameOutsideWindow)
            } else {
                Ok(p - phys_offset)
            }
        },
    }
}

/// What one level of entering a page gives: the table of the next level or
/// the error, the memory and the record of tables afterwards, and whether
/// the level was missing, so that the spare page was called for.
pub struct TableStep {
    pub next: Result<u64, MapError>,
    pub mem: Map<u64, u64>,
    pub tables: Map<u64, int>,
    pub used: bool,
}

/// One level of entering the page of `vaddr`: the entry that the walk reads
/// in `table` at `level`.
///
/// If the entry is unused, the spare page becomes the table of the next
/// level: it is zeroed and entered with `flags`. That fails if there is no
/// spare page, if it is no frame of the window, or if `flags` lack the
/// present flag. If the entry is in use, `flags` are added to it. That fails
/// if the entry is not present or maps a huge page. It also fails if the
/// table does not fit the window.
pub open spec fn table_step(
    mem: Map<u64, u64>,
    space: AddressSpace,
    table: u64,
    vaddr: u64,
    level: int,
    flags: u64,
    spare: Option<u64>,
) -> TableStep {
    let slot = space.slot_of(table, vaddr, level);
    let entry = mem[slot];
    if !space.slot_fits(table) {
        TableStep {
            next: Err(MapError::FrameOutsideWindow),
            mem,
            tables: space.tables@,
            used: false,
        }
    } else if entry == 0 {
        match page_frame(space.phys_offset, spare, MapError::TableAllocationFailed) {
            Err(e) => TableStep { next: Err(e), mem, tables: space.tables@, used: true },
            Ok(t) => if (t | flags) & PRESENT == 0 {
                TableStep {
                    next: Err(MapError::ParentEntryUnusable),
                    mem,
                    tables: space.tables@,
                    used: true,
                }
            } else {
                TableStep {
                    next: Ok(t),
                    mem: zeroed(mem, (space.phys_offset + t) as u64, 512).insert(slot, t | flags),
                    tables: space.tables@.insert(t, level - 1),
                    used: true,
                }
            },
        }
    } else if entry & PRESENT == 0 || (entry | flags) & HUGE_PAGE != 0 {
        TableStep {
            next: Err(MapError::ParentEntryUnusable),
            mem,
            tables: space.tables@,
            used: false,
        }
    } else {
        TableStep {
            next: Ok((entry | flags) & ADDRESS_MASK),
            mem: if entry | flags == entry {
                mem
            } else {
                mem.insert(slot, entry | flags)
            },
            tables: space.tables@,
            used: false,
        }
    }
}

/// The space with another record of tables.
pub open spec fn with_tables(space: AddressSpace, tables: Map<u64, int>) -> AddressSpace {
    AddressSpace { phys_offset: space.phys_offset, level_4: space.level_4, tables: Ghost(tables) }
}

/// What entering a page gives: the frame or the error, and the memory and
/// the record of tables afterwards.
pub struct Entering {
    pub result: Result<u64, MapError>,
    pub mem: Map<u64, u64>,
    pub tables: Map<u64, int>,
}

/// The walk from level 4 to the level-1 table of `vaddr`, with the pages
/// `spare` for the tables that it lacks, used in the order in which levels
/// are found missing. The result is the frame of the level-1 table, or the
/// error of the first level that fails: see `table_step`.
pub open spec fn reaching(
    mem: Map<u64, u64>,
    space: AddressSpace,
    vaddr: u64,
    flags: u64,
    spare: Seq<Option<u64>>,
) -> Entering {
    let s4 = table_step(mem, space, space.level_4, vaddr, 4, flags, spare[0]);
    let n3 = if s4.used {
        1int
    } else {
        0int
    };
    match s4.next {
        Err(e) => Entering { result: Err(e), mem: s4.mem, tables: s4.tables },
        Ok(t3) => {
            let s3 = table_step(s4.mem, with_tables(space, s4.tables), t3, vaddr, 3, flags, spare[n3]);
            let n2 = if s3.used {
                n3 + 1
            } else {
                n3
            };
            match s3.next {
                Err(e) => Entering { result: Err(e), mem: s3.mem, tables: s3.tables },
                Ok(t2) => {
                    let s2 = table_step(
                        s3.mem,
                        with_tables(space, s3.tables),
                        t2,
                        vaddr,
                        2,
                        flags,
                        spare[n2],
                    );
                    Entering { result: s2.next, mem: s2.mem, tables: s2.tables }
                },
            }
        },
    }
}

/// Entering the page of `vaddr` with `flags`, with the page `frame` for the
/// frame and the pages `spare` for the tables that the walk lacks.
///
/// The errors, in the order in which they are looked for: the address is
/// not canonical; there is no frame; the frame is no frame of the window;
/// then what `reaching` says of the walk with the present, writable and
/// user bits of `flags`; the level-1 table does not fit the window; the
/// level-1 entry is in use. Otherwise the level-1 entry receives the frame
/// with `flags`.
pub open spec fn entering(
    mem: Map<u64, u64>,
    space: AddressSpace,
    vaddr: u64,
    flags: u64,
    frame: Option<u64>,
    spare: Seq<Option<u64>>,
) -> Entering {
    if !is_canonical(vaddr) {
        Entering { result: Err(MapError::NonCanonicalAddress), mem, tables: space.tables@ }
    } else {
        match page_frame(space.phys_offset, frame, MapError::FrameAllocationFailed) {
            Err(e) => Entering { result: Err(e), mem, tables: space.tables@ },
            Ok(phys) => {
                let r = reaching(mem, space, vaddr, parent_flags(flags), spare);
                match r.result {
                    Err(e) => r,
                    Ok(t1) => {
                        let slot1 = space.slot_of(t1, vaddr, 1);
                        if !space.slot_fits(t1) {
                            Entering {
                                result: Err(MapError::FrameOutsideWindow),
                                mem: r.mem,
                                tables: r.tables,
                            }
                        } else if r.mem[slot1] != 0 {
                            Entering {
                                result: Err(MapError::PageAlreadyMapped),
                                mem: r.mem,
                                tables: r.tables,
                            }
                        } else {
                            Entering {
                                result: Ok(phys),
                                mem: r.mem.insert(slot1, phys | flags),
                                tables: r.tables,
                            }
                        }
                    },
                }
            },
        }
    }
}

/// The result of entering a page.
pub open spec fn entered(
    mem: Map<u64, u64>,
    space: AddressSpace,
    vaddr: u64,
    flags: u64,
    frame: Option<u64>,
    spare: Seq<Option<u64>>,
) -> Result<u64, MapError> {
    entering(mem, space, vaddr, flags, frame, spare).result
}

/// The memory after entering a page.
pub open spec fn memory_entered(
    mem: Map<u64, u64>,
    space: AddressSpace,
    vaddr: u64,
    flags: u64,
    frame: Option<u64>,
    spare: Seq<Option<u64>>,
) -> Map<u64, u64> {
    entering(mem, space, vaddr, flags, frame, spare).mem
}

/// Whether the table in frame `table` lies wholly inside the window.
fn table_fits(space: &AddressSpace, table: u64) -> (fits: bool)
    ensures
        fits == space.slot_fits(table),
{
    space.phys_offset <= u64::MAX - 4096 && table <= u64::MAX - 4096 - space.phys_offset
}

/// One level of entering a page: see `table_step`. Returns the table of
/// the next level, or the error, and whether the spare page was called for.
fn enter_table<M: WordMemory>(
    mem: &mut M,
    space: &mut AddressSpace,
    table: u64,
    vaddr: u64,
    level: u8,
    flags: u64,
    spare: Option<u64>,
) -> (stepped: (Result<u64, MapError>, bool))
    requires
        old(space).wf(),
        table % 4096 == 0,
        2 <= level <= 4,
        flags & ADDRESS_MASK == 0,
        flags & HUGE_PAGE == 0,
    ensures
        final(space).phys_offset == old(space).phys_offset,
        final(space).level_4 == old(space).level_4,
        stepped.0 == table_step(old(mem)@, *old(space), table, vaddr, level as int, flags, spare).next,
        stepped.1 == table_step(old(mem)@, *old(space), table, vaddr, level as int, flags, spare).used,
        final(mem)@ == table_step(old(mem)@, *old(space), table, vaddr, level as int, flags, spare).mem,
        final(space).tables@ == table_step(
            old(mem)@,
            *old(space),
            table,
            vaddr,
            level as int,
            flags,
            spare,
        ).tables,
        stepped.0 is Ok ==> stepped.0->Ok_0 % 4096 == 0,
{
    if !table_fits(space, table) {
        return (Err(MapError::FrameOutsideWindow), false);
    }
    let slot = entry_slot(space, table, vaddr, level);
    let entry = mem.read(slot);
    if entry == 0 {
        let t = match frame_of_page(space.phys_offset, spare, MapError::TableAllocationFailed) {
            Ok(t) => t,
            Err(e) => {
                return (Err(e), true);
            },
        };
        let created = t | flags;
        if created & PRESENT == 0 {
            return (Err(MapError::ParentEntryUnusable), true);
        }
        zero_page(mem, space.phys_offset + t);
        mem.write(slot, created);
        proof {
            space.tables = Ghost(space.tables@.insert(t, level - 1));
        }
        (Ok(t), true)
    } else {
        let updated = entry | flags;
        if entry & PRESENT == 0 || updated & HUGE_PAGE != 0 {
            return (Err(MapError::ParentEntryUnusable), false);
        }
        proof {
            lemma_entry_addr_is_frame(updated);
        }
        if updated != entry {
            mem.write(slot, updated);
        }
        (Ok(updated & ADDRESS_MASK), false)
    }
}

/// Enters the page of `vaddr` with `flags` into the tables: `frame` is the
/// page for its frame, and `spare` are the pages for the tables that the
/// walk lacks. Returns the frame's physical address.
///
/// The pages are taken as they are handed in: none is asked for here. The
/// result, the memory and the record of tables afterwards are exactly what
/// `entering` says.
pub fn enter_user_page<M: WordMemory>(
    mem: &mut M,
    space: &mut AddressSpace,
    vaddr: u64,
    flags: u64,
    frame: Option<u64>,
    spare: [Option<u64>; 3],
) -> (mapped: Result<u64, MapError>)
    requires
        old(space).wf(),
        valid_page_flags(flags),
    ensures
        final(space).phys_offset == old(space).phys_offset,
        final(space).level_4 == old(space).level_4,
        mapped == entered(old(mem)@, *old(space), vaddr, flags, frame, spare@),
        final(mem)@ == memory_entered(old(mem)@, *old(space), vaddr, flags, frame, spare@),
        final(space).tables@ == entering(old(mem)@, *old(space), vaddr, flags, frame, spare@).tables,
{
    if !canonical(vaddr) {
        return Err(MapError::NonCanonicalAddress);
    }
    let phys = match frame_of_page(space.phys_offset, frame, MapError::FrameAllocationFailed) {
        Ok(phys) => phys,
        Err(e) => {
            return Err(e);
        },
    };
    let up = flags & (PRESENT | WRITABLE | USER_ACCESSIBLE);
    proof {
        lemma_parent_flags(flags);
    }
    let ghost space0 = *space;
    let root = space.level_4;
    let (r4, u4) = enter_table(mem, space, root, vaddr, 4, up, spare[0]);
    let t3 = match r4 {
        Ok(t) => t,
        Err(e) => {
            return Err(e);
        },
    };
    let n3: usize = if u4 {
        1
    } else {
        0
    };
    proof {
        assert(*space == with_tables(space0, space.tables@));
    }
    let (r3, u3) = enter_table(mem, space, t3, vaddr, 3, up, spare[n3]);
    let t2 = match r3 {
        Ok(t) => t,
        Err(e) => {
            return Err(e);
        },
    };
    let n2: usize = if u3 {
        n3 + 1
    } else {
        n3
    };
    proof {
        assert(*space == with_tables(space0, space.tables@));
    }
    let (r2, _u2) = enter_table(mem, space, t2, vaddr, 2, up, spare[n2]);
    let t1 = match r2 {
        Ok(t) => t,
        Err(e) => {
            return Err(e);
        },
    };
    if !table_fits(space, t1) {
        return Err(MapError::FrameOutsideWindow);
    }
    let slot1 = entry_slot(space, t1, vaddr, 1);
    if mem.read(slot1) != 0 {
        return Err(MapError::PageAlreadyMapped);
    }
    mem.write(slot1, phys | flags);
    Ok(phys)
}

/// An address space whose only table is the level-4 table in frame
/// `level_4`.
pub open spec fn rooted(phys_offset: u64, level_4: u64) -> AddressSpace {
    AddressSpace {
        phys_offset,
        level_4,
        tables: Ghost(Map::<u64, int>::empty().insert(level_4, 4int)),
    }
}

impl AddressSpace {
    /// Makes the page `page` the level-4 table of an empty address space:
    /// the page is zeroed. Fails, and changes nothing, if there is no page
    /// or if it is no frame of the window.
    pub fn with_root<M: WordMemory>(mem: &mut M, phys_offset: u64, page: Option<u64>) -> (created:
        Result<AddressSpace, MapError>)
        requires
            phys_offset % 4096 == 0,
        ensures
            match page_frame(phys_offset, page, MapError::TableAllocationFailed) {
                Ok(root) => {
                    &&& created == Ok::<AddressSpace, MapError>(rooted(phys_offset, root))
                    &&& final(mem)@ == zeroed(old(mem)@, page->Some_0, 512)
                    &&& rooted(phys_offset, root).tree_shape(final(mem)@)
                    &&& forall|i: u64|
                        i < 512 ==> #[trigger] entry_of(final(mem)@, rooted(phys_offset, root), root, i)
                            == 0
                },
                Err(e) => created == Err::<AddressSpace, MapError>(e) && final(mem)@ == old(mem)@,
            },
    {
        let root = match frame_of_page(phys_offset, page, MapError::TableAllocationFailed) {
            Ok(root) => root,
            Err(e) => {
                return Err(e);
            },
        };
        zero_page(mem, phys_offset + root);
        let space = AddressSpace {
            phys_offset,
            level_4: root,
            tables: Ghost(Map::<u64, int>::empty().insert(root, 4int)),
        };
        proof {
            assert forall|i: u64| i < 512 implies #[trigger] entry_of(mem@, space, root, i) == 0 by {
                assert(space.slot(root, i) == (phys_offset + root) + 8 * i);
                assert(mem@[((phys_offset + root) + 8 * i) as u64] == 0);
            }
        }
        Ok(space)
    }

    /// Creates an empty address space: takes one page from the provider for
    /// the level-4 table and zeroes it.
    ///
    /// The provider decides which page it is, and whether there is one; the
    /// space is the one that `with_root` makes of that page, in the memory
    /// as the provider left it.
    pub fn create<M: WordMemory, P: PageProvider>(
        mem: &mut M,
        provider: &mut P,
        phys_offset: u64,
    ) -> (created: Result<AddressSpace, MapError>)
        requires
            provider_ok(old(provider), old(mem)@),
            phys_offset % 4096 == 0,
        ensures
            provider_ok(final(provider), final(mem)@),
            forall|q: u64| #[trigger] final(provider).holds(q) ==> old(provider).holds(q),
            forall|addr: u64|
                !old(provider).holds(page_base(addr)) ==> #[trigger] final(mem)@[addr] == old(
                    mem,
                )@[addr],
            exists|page: Option<u64>|
                {
                    &&& page matches Some(p) ==> old(provider).holds(p) && !final(provider).holds(p)
                    &&& #[trigger] page_frame(phys_offset, page, MapError::TableAllocationFailed)
                        == match created {
                        Ok(space) => Ok::<u64, MapError>(space.level_4),
                        Err(e) => Err::<u64, MapError>(e),
                    }
                },
            match created {
                Ok(space) => {
                    &&& space == rooted(phys_offset, space.level_4)
                    &&& space.tree_inv(final(mem)@, final(provider))
                    &&& old(provider).holds((phys_offset + space.level_4) as u64)
                    &&& forall|i: u64| i < 512 ==> #[trigger] entry_of(final(mem)@, space, space.level_4, i) == 0
                },
                Err(e) => e == MapError::TableAllocationFailed || e == MapError::FrameOutsideWindow,
            },
    {
        let page = provider.alloc_page(mem);
        let ghost given = mem@;
        let created = Self::with_root(mem, phys_offset, page);
        proof {
            if page is Some {
                lemma_zeroed(given, page->Some_0, 512);
            }
            lemma_provider_ok_kept(provider, given, mem@);
            assert(page_frame(phys_offset, page, MapError::TableAllocationFailed) == match created {
                Ok(space) => Ok::<u64, MapError>(space.level_4),
                Err(e) => Err::<u64, MapError>(e),
            });
        }
        created
    }
}

/// The walk of `vaddr` is present down to the level-1 table in frame `t1`
/// and meets no huge page.
pub open spec fn walk_reaches(mem: Map<u64, u64>, space: AddressSpace, vaddr: u64, t1: u64) -> bool {
    let w = walk_of(mem, space, vaddr);
    &&& has_flag(mem[w.slot4], PRESENT) && !has_flag(mem[w.slot4], HUGE_PAGE)
    &&& has_flag(mem[w.slot3], PRESENT) && !has_flag(mem[w.slot3], HUGE_PAGE)
    &&& has_flag(mem[w.slot2], PRESENT) && !has_flag(mem[w.slot2], HUGE_PAGE)
    &&& entry_addr(mem[w.slot2]) == t1
    &&& space.tables@.contains_key(entry_addr(mem[w.slot4]))
    &&& space.tables@.contains_key(entry_addr(mem[w.slot3]))
    &&& space.tables@.contains_key(t1)
    &&& space.tables@[entry_addr(mem[w.slot4])] == 3
    &&& space.tables@[entry_addr(mem[w.slot3])] == 2
    &&& space.tables@[t1] == 1
}

/// Whether `page` is one of the spare pages.
pub open spec fn among(spare: Seq<Option<u64>>, page: u64) -> bool {
    spare[0] == Some(page) || spare[1] == Some(page) || spare[2] == Some(page)
}

/// The pages handed in for entering a page are loose: none is a table of
/// the space, and no two of them are the same page.
pub open spec fn pages_loose(space: AddressSpace, frame: Option<u64>, spare: Seq<Option<u64>>) -> bool {
    &&& spare.len() == 3
    &&& frame is Some ==> !space.is_table_page(frame->Some_0) && !among(spare, frame->Some_0)
    &&& spare[0] is Some ==> !space.is_table_page(spare[0]->Some_0)
    &&& spare[1] is Some ==> !space.is_table_page(spare[1]->Some_0)
    &&& spare[2] is Some ==> !space.is_table_page(spare[2]->Some_0)
    &&& spare[0] is Some ==> spare[0] != spare[1] && spare[0] != spare[2]
    &&& spare[1] is Some ==> spare[1] != spare[2]
}

/// What the walk to the level-1 table keeps, in a tree of tables and with
/// loose spare pages: the tree stays a tree; only table pages and spare
/// pages change; only spare pages become tables; entries in use are kept;
/// and on success the walk of `vaddr` reaches the table returned.
#[verifier::rlimit(50)]
pub proof fn lemma_reaching(
    mem: Map<u64, u64>,
    space: AddressSpace,
    vaddr: u64,
    flags: u64,
    spare: Seq<Option<u64>>,
)
    requires
        space.tree_shape(mem),
        flags & ADDRESS_MASK == 0,
        flags & HUGE_PAGE == 0,
        pages_loose(space, None, spare),
    ensures
        ({
            let r = reaching(mem, space, vaddr, flags, spare);
            let after = with_tables(space, r.tables);
            &&& records_kept(space.tables@, r.tables)
            &&& after.tree_shape(r.mem)
            &&& forall|addr: u64| #[trigger]
                r.mem[addr] != mem[addr] ==> space.is_table_page(page_base(addr)) || among(
                    spare,
                    page_base(addr),
                )
            &&& forall|t: u64| #[trigger]
                r.tables.contains_key(t) && !space.tables@.contains_key(t) ==> among(
                    spare,
                    (space.phys_offset + t) as u64,
                )
            &&& entries_kept(space, mem, r.mem)
            &&& leaves_kept(space, mem, after, r.mem, None)
            &&& r.result matches Ok(t1) ==> walk_reaches(r.mem, after, vaddr, t1)
        }),
{
    let i4 = table_index(vaddr, 4);
    let i3 = table_index(vaddr, 3);
    let i2 = table_index(vaddr, 2);
    let root = space.level_4;
    lemma_index_bound(vaddr);
    lemma_table_pages(space);
    let slot4 = space.slot_of(root, vaddr, 4);
    let s4 = table_step(mem, space, root, vaddr, 4, flags, spare[0]);
    lemma_table_step(mem, space, root, vaddr, 4, flags, spare[0]);
    if s4.next is Ok {
        let t3 = s4.next->Ok_0;
        let space1 = with_tables(space, s4.tables);
        let n3 = if s4.used {
            1int
        } else {
            0int
        };
        let slot3 = space.slot_of(t3, vaddr, 3);
        lemma_table_pages(space1);
        lemma_slots_differ(space1, root, i4, t3, i3);
        let s3 = table_step(s4.mem, space1, t3, vaddr, 3, flags, spare[n3]);
        lemma_table_step(s4.mem, space1, t3, vaddr, 3, flags, spare[n3]);
        lemma_entries_kept_chain(space, mem, space1, s4.mem, s3.mem);
        if s3.next is Ok {
            let t2 = s3.next->Ok_0;
            let space2 = with_tables(space, s3.tables);
            let n2 = if s3.used {
                n3 + 1
            } else {
                n3
            };
            let slot2 = space.slot_of(t2, vaddr, 2);
            lemma_table_pages(space2);
            lemma_slots_differ(space2, root, i4, t2, i2);
            lemma_slots_differ(space2, t3, i3, t2, i2);
            assert(s3.mem[slot4] == s4.mem[slot4]);
            let s2 = table_step(s3.mem, space2, t2, vaddr, 2, flags, spare[n2]);
            lemma_table_step(s3.mem, space2, t2, vaddr, 2, flags, spare[n2]);
            lemma_entries_kept_chain(space, mem, space2, s3.mem, s2.mem);
            if s2.next is Ok {
                let t1 = s2.next->Ok_0;
                let after = with_tables(space, s2.tables);
                assert(s2.mem[slot4] == s4.mem[slot4]);
                assert(s2.mem[slot3] == s3.mem[slot3]);
                assert(space1.tables@.contains_key(t3));
                assert(space2.tables@.contains_key(t3));
                assert(space2.tables@.contains_key(t2));
                let w = walk_of(s2.mem, after, vaddr);
                assert(w.slot4 == slot4);
                assert(w.slot3 == slot3);
                assert(w.slot2 == slot2);
            }
        }
    }
}

/// The page whose level-1 entry a mapping wrote: that of `vaddr` if the
/// mapping succeeded, none if it failed.
pub open spec fn entry_of_page(vaddr: u64, mapped: Result<u64, MapError>) -> Option<u64> {
    if mapped is Ok {
        Some(vaddr)
    } else {
        None
    }
}

/// What entering a page keeps, in a tree of tables and with loose pages:
/// the tree stays a tree; only table pages and spare pages change; only
/// spare pages become tables; entries in use are kept. On success the frame
/// is the one handed in, it is no table, and the walk of `vaddr` ends in an
/// entry that holds it with `flags`. The address is refused exactly when it
/// is not canonical; and where the entry was in use, the walk reaches it.
#[verifier::rlimit(50)]
pub proof fn lemma_entering(
    mem: Map<u64, u64>,
    space: AddressSpace,
    vaddr: u64,
    flags: u64,
    frame: Option<u64>,
    spare: Seq<Option<u64>>,
)
    requires
        space.tree_shape(mem),
        valid_page_flags(flags),
        pages_loose(space, frame, spare),
    ensures
        ({
            let e = entering(mem, space, vaddr, flags, frame, spare);
            let after = with_tables(space, e.tables);
            &&& records_kept(space.tables@, e.tables)
            &&& after.tree_shape(e.mem)
            &&& forall|addr: u64| #[trigger]
                e.mem[addr] != mem[addr] ==> space.is_table_page(page_base(addr)) || among(
                    spare,
                    page_base(addr),
                )
            &&& forall|t: u64| #[trigger]
                e.tables.contains_key(t) && !space.tables@.contains_key(t) ==> among(
                    spare,
                    (space.phys_offset + t) as u64,
                )
            &&& entries_kept(space, mem, e.mem)
            &&& leaves_kept(space, mem, after, e.mem, entry_of_page(vaddr, e.result))
            &&& !is_canonical(vaddr) <==> e.result == Err::<u64, MapError>(
                MapError::NonCanonicalAddress,
            )
            &&& e.result matches Ok(phys) ==> {
                &&& frame == Some((space.phys_offset + phys) as u64)
                &&& phys % 4096 == 0
                &&& phys <= ADDRESS_MASK
                &&& space.slot_fits(phys)
                &&& !e.tables.contains_key(phys)
                &&& maps_to(e.mem, after, vaddr, phys, flags)
            }
            &&& (e.result == Err::<u64, MapError>(MapError::NonCanonicalAddress) || e.result
                == Err::<u64, MapError>(MapError::FrameAllocationFailed)) ==> e.mem == mem
                && e.tables == space.tables@
            &&& e.result == Err::<u64, MapError>(MapError::PageAlreadyMapped) ==> ({
                let w = walk_of(e.mem, after, vaddr);
                &&& walk_reaches(e.mem, after, vaddr, entry_addr(e.mem[w.slot2]))
                &&& e.mem[w.slot1] != 0
            })
        }),
{
    let e = entering(mem, space, vaddr, flags, frame, spare);
    let up = parent_flags(flags);
    lemma_parent_flags(flags);
    if is_canonical(vaddr) {
        match page_frame(space.phys_offset, frame, MapError::FrameAllocationFailed) {
            Err(_) => {},
            Ok(phys) => {
                let r = reaching(mem, space, vaddr, up, spare);
                lemma_reaching(mem, space, vaddr, up, spare);
                let space1 = with_tables(space, r.tables);
                if r.result is Ok {
                    let t1 = r.result->Ok_0;
                    let slot1 = space.slot_of(t1, vaddr, 1);
                    lemma_leaf(r.mem, space1, vaddr, t1, phys, flags);
                    if r.mem[slot1] == 0 {
                        lemma_entries_kept_chain(space, mem, space1, r.mem, e.mem);
                        assert(space1.is_table_page(page_base(slot1)));
                        assert(space1.tables@.contains_key(
                            (page_base(slot1) - space.phys_offset) as u64,
                        ));
                    }
                }
            },
        }
    }
}

/// Writing the level-1 entry of a walk that reaches its level-1 table
/// leaves the tree a tree, keeps the entries in use, and maps the page.
proof fn lemma_leaf(
    mem: Map<u64, u64>,
    space: AddressSpace,
    vaddr: u64,
    t1: u64,
    phys: u64,
    flags: u64,
)
    requires
        space.tree_shape(mem),
        walk_reaches(mem, space, vaddr, t1),
        phys % 4096 == 0,
        phys <= ADDRESS_MASK,
        valid_page_flags(flags),
    ensures
        space.slot_fits(t1),
        walk_of(mem, space, vaddr).slot1 == space.slot_of(t1, vaddr, 1),
        page_base(space.slot_of(t1, vaddr, 1)) == space.phys_offset + t1,
        mem[space.slot_of(t1, vaddr, 1)] == 0 ==> {
            let after = mem.insert(space.slot_of(t1, vaddr, 1), phys | flags);
            &&& space.tree_shape(after)
            &&& entries_kept(space, mem, after)
            &&& maps_to(after, space, vaddr, phys, flags)
            &&& walk_reaches(after, space, vaddr, t1)
            &&& leaves_kept(space, mem, space, after, Some(vaddr))
        },
{
    let w = walk_of(mem, space, vaddr);
    let i1 = table_index(vaddr, 1);
    let slot1 = space.slot_of(t1, vaddr, 1);
    let after = mem.insert(slot1, phys | flags);
    lemma_index_bound(vaddr);
    lemma_table_pages(space);
    lemma_slots_differ(space, space.level_4, table_index(vaddr, 4), t1, i1);
    lemma_slots_differ(space, entry_addr(mem[w.slot4]), table_index(vaddr, 3), t1, i1);
    lemma_slots_differ(space, entry_addr(mem[w.slot3]), table_index(vaddr, 2), t1, i1);
    assert(w.slot1 == slot1);
    if mem[slot1] == 0 {
        lemma_new_entry(phys, flags);
        assert forall|t: u64, i: u64|
            space.tables@.contains_key(t) && space.tables@[t] >= 2 && i < 512 implies #[trigger] entry_of(
            after,
            space,
            t,
            i,
        ) == entry_of(mem, space, t, i) by {
            lemma_slots_differ(space, t, i, t1, i1);
        }
        assert(after[w.slot4] == mem[w.slot4]);
        assert(after[w.slot3] == mem[w.slot3]);
        assert(after[w.slot2] == mem[w.slot2]);
        assert(walk_of(after, space, vaddr) == w);
        assert forall|t: u64, i: u64| space.tables@.contains_key(t) && i < 512 implies entry_kept(
            space.tables@[t],
            entry_of(mem, space, t, i),
            #[trigger] entry_of(after, space, t, i),
        ) by {
            lemma_slots_differ(space, t, i, t1, i1);
        }
        assert(walk_reaches(after, space, vaddr, t1));
        assert forall|t: u64, i: u64|
            #![trigger entry_of(after, space, t, i)]
            space.tables@.contains_key(t) && space.tables@[t] == 1 && i < 512 implies entry_of(
            after,
            space,
            t,
            i,
        ) == entry_of(mem, space, t, i) || (t == t1 && i == i1) by {
            lemma_slots_differ(space, t, i, t1, i1);
        }
    }
}

/// The page of every entry of a recorded table is that table's page, which
/// the space counts among its table pages.
proof fn lemma_table_pages(space: AddressSpace)
    requires
        space.wf(),
        forall|t: u64| #[trigger]
            space.tables@.contains_key(t) ==> t % 4096 == 0 && space.slot_fits(t),
    ensures
        forall|t: u64, i: u64|
            space.tables@.contains_key(t) && i < 512 ==> space.is_table_page(
                page_base(#[trigger] space.slot(t, i) as u64),
            ),
{
    assert forall|t: u64, i: u64| space.tables@.contains_key(t) && i < 512 implies space.is_table_page(
        page_base(#[trigger] space.slot(t, i) as u64),
    ) by {
        lemma_slots_differ(space, t, i, t, i);
    }
}

/// Every table recorded in `before` is recorded in `after` with the same
/// level.
pub open spec fn records_kept(before: Map<u64, int>, after: Map<u64, int>) -> bool {
    forall|t: u64| #[trigger] before.contains_key(t) ==> after.contains_key(t) && after[t] == before[t]
}

/// The pages were taken from a provider between `before` and `after`: each
/// was held before and is not held after, and no two are the same page.
pub open spec fn pages_taken<P: PageProvider>(
    before: &P,
    after: &P,
    frame: Option<u64>,
    spare: Seq<Option<u64>>,
) -> bool {
    &&& spare.len() == 3
    &&& frame is Some ==> before.holds(frame->Some_0) && !after.holds(frame->Some_0) && !among(
        spare,
        frame->Some_0,
    )
    &&& spare[0] is Some ==> before.holds(spare[0]->Some_0) && !after.holds(spare[0]->Some_0)
    &&& spare[1] is Some ==> before.holds(spare[1]->Some_0) && !after.holds(spare[1]->Some_0)
    &&& spare[2] is Some ==> before.holds(spare[2]->Some_0) && !after.holds(spare[2]->Some_0)
    &&& spare[0] is Some ==> spare[0] != spare[1] && spare[0] != spare[2]
    &&& spare[1] is Some ==> spare[1] != spare[2]
}

/// The page of `vaddr` was entered with pages of a provider, and `outcome`
/// came of it: there are a frame and spare pages, taken from the provider
/// between `before` and `after`, none of them in vain, and a memory that
/// differs from `mem` only in pages that the provider held, such that
/// `outcome` is what `entering` says of them.
pub open spec fn entered_from<P: PageProvider>(
    mem: Map<u64, u64>,
    space: AddressSpace,
    before: &P,
    after: &P,
    vaddr: u64,
    flags: u64,
    outcome: Entering,
) -> bool {
    exists|given: Map<u64, u64>, frame: Option<u64>, spare: Seq<Option<u64>>|
        {
            &&& pages_taken(before, after, frame, spare)
            &&& pages_needed(given, space, vaddr, flags, frame, spare)
            &&& forall|addr: u64|
                !before.holds(page_base(addr)) ==> #[trigger] given[addr] == mem[addr]
            &&& #[trigger] entering(given, space, vaddr, flags, frame, spare) == outcome
        }
}

/// The number of tables that the walk of `vaddr` lacks from `level` down,
/// starting in `table`: none where the walk cannot go on; below an unused
/// entry every level down to level 1, or only the first if `flags` would
/// not make its entry present.
pub open spec fn lacking_from(
    mem: Map<u64, u64>,
    space: AddressSpace,
    table: u64,
    vaddr: u64,
    level: int,
    flags: u64,
) -> int
    decreases level,
{
    let entry = mem[space.slot_of(table, vaddr, level)];
    if level < 2 || !space.slot_fits(table) {
        0
    } else if entry == 0 {
        if flags & PRESENT == 0 {
            1
        } else {
            level - 1
        }
    } else if entry & PRESENT == 0 || (entry | flags) & HUGE_PAGE != 0 {
        0
    } else {
        lacking_from(mem, space, (entry | flags) & ADDRESS_MASK, vaddr, level - 1, flags)
    }
}

/// No page was taken in vain: spare pages were taken only with a frame in
/// hand, no more of them than the walk of `vaddr` lacks tables in `mem`, and
/// none after one that is no frame of the window.
pub open spec fn pages_needed(
    mem: Map<u64, u64>,
    space: AddressSpace,
    vaddr: u64,
    flags: u64,
    frame: Option<u64>,
    spare: Seq<Option<u64>>,
) -> bool {
    forall|k: int|
        0 <= k < 3 && (#[trigger] spare[k]) is Some ==> {
            &&& page_frame(space.phys_offset, frame, MapError::FrameAllocationFailed) is Ok
            &&& k < lacking_from(mem, space, space.level_4, vaddr, 4, parent_flags(flags))
            &&& k > 0 ==> page_frame(space.phys_offset, spare[k - 1], MapError::TableAllocationFailed) is Ok
        }
}

/// The number of tables that a walk lacks depends on the entries of the
/// tables alone.
proof fn lemma_lacking_same(
    space: AddressSpace,
    mem: Map<u64, u64>,
    other: Map<u64, u64>,
    vaddr: u64,
    flags: u64,
)
    requires
        space.tree_shape(mem),
        flags & ADDRESS_MASK == 0,
        flags & HUGE_PAGE == 0,
        forall|t: u64, i: u64|
            space.tables@.contains_key(t) && i < 512 ==> #[trigger] entry_of(other, space, t, i)
                == entry_of(mem, space, t, i),
    ensures
        lacking_from(other, space, space.level_4, vaddr, 4, flags) == lacking_from(
            mem,
            space,
            space.level_4,
            vaddr,
            4,
            flags,
        ),
{
    reveal_with_fuel(lacking_from, 5);
    lemma_index_bound(vaddr);
    let t4 = space.level_4;
    let e4 = entry_of(mem, space, t4, table_index(vaddr, 4));
    assert(entry_of(other, space, t4, table_index(vaddr, 4)) == e4);
    lemma_added_flags(e4, flags);
    if e4 != 0 && e4 & PRESENT != 0 && (e4 | flags) & HUGE_PAGE == 0 {
        let t3 = ((e4 | flags) & ADDRESS_MASK) as u64;
        assert(t3 == entry_addr(e4));
        assert(space.tables@.contains_key(t3) && space.tables@[t3] == 3);
        let e3 = entry_of(mem, space, t3, table_index(vaddr, 3));
        assert(entry_of(other, space, t3, table_index(vaddr, 3)) == e3);
        lemma_added_flags(e3, flags);
        if e3 != 0 && e3 & PRESENT != 0 && (e3 | flags) & HUGE_PAGE == 0 {
            let t2 = ((e3 | flags) & ADDRESS_MASK) as u64;
            assert(t2 == entry_addr(e3));
            assert(space.tables@.contains_key(t2) && space.tables@[t2] == 2);
            let e2 = entry_of(mem, space, t2, table_index(vaddr, 2));
            assert(entry_of(other, space, t2, table_index(vaddr, 2)) == e2);
            lemma_added_flags(e2, flags);
        }
    }
}

/// Counts the tables that the walk of `vaddr` lacks, without changing
/// anything.
fn tables_lacking<M: WordMemory>(mem: &M, space: &AddressSpace, vaddr: u64, flags: u64) -> (lacking:
    u8)
    requires
        space.wf(),
    ensures
        lacking == lacking_from(mem@, *space, space.level_4, vaddr, 4, flags),
        lacking <= 3,
{
    let mut table = space.level_4;
    let mut level: u8 = 4;
    while level >= 2
        invariant
            space.wf(),
            1 <= level <= 4,
            table % 4096 == 0,
            lacking_from(mem@, *space, space.level_4, vaddr, 4, flags) == lacking_from(
                mem@,
                *space,
                table,
                vaddr,
                level as int,
                flags,
            ),
        decreases level,
    {
        if !table_fits(space, table) {
            return 0;
        }
        let entry = mem.read(entry_slot(space, table, vaddr, level));
        if entry == 0 {
            if flags & PRESENT == 0 {
                return 1;
            }
            return level - 1;
        }
        let updated = entry | flags;
        if entry & PRESENT == 0 || updated & HUGE_PAGE != 0 {
            return 0;
        }
        proof {
            lemma_entry_addr_is_frame(updated);
        }
        table = updated & ADDRESS_MASK;
        level = level - 1;
    }
    0
}

/// Maps a fresh frame at the page of `vaddr` with `flags`.
///
/// One page is taken from the provider for the frame, and one more for each
/// table that the walk lacks, until the provider has none or hands out a
/// page outside the window. The pages are then entered: the tables are
/// zeroed and entered with the present, writable and user bits of `flags`.
/// The frame's physical address is returned, so that the caller can fill
/// the page through the direct window; the caller flushes the translation
/// cache.
///
/// The provider decides which pages these are. The result, the memory and
/// the record of tables are what `entering` says of those pages, in the
/// memory as the provider left it.
#[verifier::rlimit(50)]
pub fn map_user_page<M: WordMemory, P: PageProvider>(
    mem: &mut M,
    provider: &mut P,
    space: &mut AddressSpace,
    vaddr: u64,
    flags: u64,
) -> (mapped: Result<u64, MapError>)
    requires
        old(space).tree_inv(old(mem)@, old(provider)),
        provider_ok(old(provider), old(mem)@),
        valid_page_flags(flags),
    ensures
        final(space).phys_offset == old(space).phys_offset,
        final(space).level_4 == old(space).level_4,
        entered_from(
            old(mem)@,
            *old(space),
            old(provider),
            final(provider),
            vaddr,
            flags,
            (Entering { result: mapped, mem: final(mem)@, tables: final(space).tables@ }),
        ),
        records_kept(old(space).tables@, final(space).tables@),
        final(space).tree_inv(final(mem)@, final(provider)),
        provider_ok(final(provider), final(mem)@),
        forall|q: u64| #[trigger] final(provider).holds(q) ==> old(provider).holds(q),
        forall|addr: u64|
            !old(provider).holds(page_base(addr)) && !old(space).is_table_page(page_base(addr))
                ==> #[trigger] final(mem)@[addr] == old(mem)@[addr],
        forall|t: u64| #[trigger]
            final(space).tables@.contains_key(t) && !old(space).tables@.contains_key(t)
                ==> old(provider).holds((old(space).phys_offset + t) as u64),
        entries_kept(*old(space), old(mem)@, final(mem)@),
        leaves_kept(
            *old(space),
            old(mem)@,
            *final(space),
            final(mem)@,
            entry_of_page(vaddr, mapped),
        ),
        !is_canonical(vaddr) <==> mapped == Err::<u64, MapError>(MapError::NonCanonicalAddress),
        !is_canonical(vaddr) ==> final(mem)@ == old(mem)@ && final(space).tables@ == old(
            space,
        ).tables@,
        mapped matches Ok(phys) ==> {
            &&& phys % 4096 == 0
            &&& phys <= ADDRESS_MASK
            &&& old(space).slot_fits(phys)
            &&& old(provider).holds((old(space).phys_offset + phys) as u64)
            &&& !final(provider).holds((old(space).phys_offset + phys) as u64)
            &&& !final(space).tables@.contains_key(phys)
            &&& maps_to(final(mem)@, *final(space), vaddr, phys, flags)
        },
        mapped == Err::<u64, MapError>(MapError::FrameAllocationFailed) ==> final(space).tables@
            == old(space).tables@,
        mapped == Err::<u64, MapError>(MapError::PageAlreadyMapped) ==> ({
            let w = walk_of(final(mem)@, *final(space), vaddr);
            &&& walk_reaches(final(mem)@, *final(space), vaddr, entry_addr(final(mem)@[w.slot2]))
            &&& final(mem)@[w.slot1] != 0
        }),
{
    let ghost space0 = *space;
    let ghost mem0 = mem@;
    let none: Option<u64> = None;
    if !canonical(vaddr) {
        proof {
            assert(entering(mem0, space0, vaddr, flags, none, seq![none, none, none]) == (Entering {
                result: Err(MapError::NonCanonicalAddress),
                mem: mem0,
                tables: space0.tables@,
            }));
            assert(pages_taken(old(provider), provider, none, seq![none, none, none]));
            assert(pages_needed(mem0, space0, vaddr, flags, none, seq![none, none, none]));
        }
        return Err(MapError::NonCanonicalAddress);
    }
    let frame = provider.alloc_page(mem);
    let ghost probed = mem@;
    let up = flags & (PRESENT | WRITABLE | USER_ACCESSIBLE);
    let lacking: u8 = match frame_of_page(space.phys_offset, frame, MapError::FrameAllocationFailed) {
        Ok(_) => tables_lacking(mem, space, vaddr, up),
        Err(_) => 0,
    };
    let first = if lacking >= 1 {
        provider.alloc_page(mem)
    } else {
        None
    };
    let more = match frame_of_page(space.phys_offset, first, MapError::TableAllocationFailed) {
        Ok(_) => lacking >= 2,
        Err(_) => false,
    };
    let second = if more {
        provider.alloc_page(mem)
    } else {
        None
    };
    let more = match frame_of_page(space.phys_offset, second, MapError::TableAllocationFailed) {
        Ok(_) => lacking >= 3,
        Err(_) => false,
    };
    let third = if more {
        provider.alloc_page(mem)
    } else {
        None
    };
    let spare = [first, second, third];
    let ghost given = mem@;
    proof {
        assert(spare@ =~= seq![first, second, third]);
        assert forall|t: u64, i: u64|
            space0.tables@.contains_key(t) && i < 512 implies #[trigger] entry_of(
            given,
            space0,
            t,
            i,
        ) == entry_of(mem0, space0, t, i) by {
            lemma_slots_differ(space0, t, i, t, i);
            assert(page_base(space0.slot(t, i) as u64) == (space0.phys_offset + t) as u64);
            assert(!old(provider).holds((space0.phys_offset + t) as u64));
        }
        assert(space0.tree_shape(given));
        assert(entries_kept(space0, mem0, given));
        assert forall|t: u64, i: u64|
            space0.tables@.contains_key(t) && i < 512 implies #[trigger] entry_of(
            probed,
            space0,
            t,
            i,
        ) == entry_of(given, space0, t, i) by {
            lemma_slots_differ(space0, t, i, t, i);
            assert(page_base(space0.slot(t, i) as u64) == (space0.phys_offset + t) as u64);
            assert(!old(provider).holds((space0.phys_offset + t) as u64));
        }
        lemma_parent_flags(flags);
        lemma_lacking_same(space0, given, probed, vaddr, up);
        assert(pages_needed(given, space0, vaddr, flags, frame, spare@));
        assert(pages_taken(old(provider), provider, frame, spare@));
        assert(pages_loose(space0, frame, spare@));
        lemma_entering(given, space0, vaddr, flags, frame, spare@);
    }
    let mapped = enter_user_page(mem, space, vaddr, flags, frame, spare);
    proof {
        let e = entering(given, space0, vaddr, flags, frame, spare@);
        assert(*space == with_tables(space0, e.tables));
        assert(e == (Entering { result: mapped, mem: mem@, tables: space.tables@ }));
        lemma_entries_kept_chain(space0, mem0, space0, given, mem@);
        assert forall|addr: u64| provider.holds(page_base(addr)) implies #[trigger] mem@[addr]
            == given[addr] by {
            if space0.is_table_page(page_base(addr)) {
                assert(space0.tables@.contains_key((page_base(addr) - space0.phys_offset) as u64));
            }
        }
        lemma_provider_ok_kept(provider, given, mem@);
    }
    mapped
}

/// The flags asked of parent tables hold no address bit and not the huge
/// bit.
proof fn lemma_parent_flags(flags: u64)
    by (bit_vector)
    ensures
        parent_flags(flags) & ADDRESS_MASK == 0,
        parent_flags(flags) & HUGE_PAGE == 0,
{
}

/// Every table index is below 512.
proof fn lemma_index_bound(vaddr: u64)
    by (bit_vector)
    ensures
        table_index(vaddr, 4) < 512,
        table_index(vaddr, 3) < 512,
        table_index(vaddr, 2) < 512,
        table_index(vaddr, 1) < 512,
{
}

/// A frame address joined with flags keeps its address and gains exactly
/// those flags.
proof fn lemma_new_entry(t: u64, flags: u64)
    by (bit_vector)
    requires
        t % 4096 == 0,
        t <= ADDRESS_MASK,
        flags & ADDRESS_MASK == 0,
        flags & HUGE_PAGE == 0,
    ensures
        entry_addr(t | flags) == t,
        !has_flag(t | flags, HUGE_PAGE),
        (t | flags) & !ADDRESS_MASK == flags,
        flags & PRESENT != 0 ==> t | flags != 0,
{
}

/// Adding flags to an entry keeps its address and its huge bit, and keeps
/// it present if it was.
proof fn lemma_added_flags(entry: u64, flags: u64)
    by (bit_vector)
    requires
        flags & ADDRESS_MASK == 0,
        flags & HUGE_PAGE == 0,
    ensures
        entry_addr(entry | flags) == entry_addr(entry),
        has_flag(entry | flags, HUGE_PAGE) == has_flag(entry, HUGE_PAGE),
        has_flag(entry, PRESENT) ==> has_flag(entry | flags, PRESENT),
        has_flag(entry | flags, PRESENT) ==> entry | flags != 0,
        (entry | flags) | flags == entry | flags,
        (entry | flags) & flags == flags,
{
}

/// Physical frames from the kernel's page allocator.
pub struct BuddyFrameAllocator {
    pub pages: GlobalPageAllocator,
}

impl BuddyFrameAllocator {
    /// Allocates one frame and returns its physical address, or `None` if
    /// no page is free.
    pub fn allocate_frame<M: WordMemory>(&mut self, mem: &mut M) -> (frame: Option<u64>)
        requires
            old(self).pages.frame_allocator.wf(old(mem)@),
        ensures
            final(self).pages.frame_allocator.wf(final(mem)@),
            match alloc_result(
                old(self).pages.frame_allocator.free_lists(),
                old(self).pages.frame_allocator.offset(),
                0,
            ) {
                None => frame is None,
                Some((addr, lists)) => frame == Some(
                    (addr - old(self).pages.frame_allocator.offset()) as u64,
                ) && final(self).pages.frame_allocator.free_lists() == lists,
            },
    {
        crate::mm::allocator::allocate_frame(&mut self.pages, mem)
    }
}

} // verus!
