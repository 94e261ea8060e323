//! The bootstrap frame allocator: the usable physical memory as a sorted
//! table of free ranges, from which aligned runs of pages are cut and to
//! which they are returned.

use vstd::prelude::*;

verus! {

/// Size of a page in bytes.
pub const PAGE_SIZE: u64 = 4096;

/// Size of a huge page: 2 MiB.
pub const HUGE_PAGE_SIZE: u64 = 0x20_0000;

/// Size of a giant page: 1 GiB.
pub const GIANT_PAGE_SIZE: u64 = 0x4000_0000;

/// Number of free ranges that the table can hold.
pub const MAX_RANGES: usize = 256;

/// What the firmware says a region of physical memory is used for.
#[derive(Debug, Clone, Copy, PartialEq, Eq, Structural)]
pub enum MemoryRegionKind {
    /// Unused memory that the kernel may take.
    Usable,
    /// Memory that the bootloader has put to use.
    Bootloader,
    /// A firmware-specific kind from UEFI.
    UnknownUefi(u32),
    /// A firmware-specific kind from BIOS.
    UnknownBios(u32),
}

/// One entry of the firmware memory map: the bytes from `start` up to, not
/// including, `end`.
#[derive(Debug, Clone, Copy, PartialEq, Eq, Structural)]
pub struct MemoryRegion {
    pub start: u64,
    pub end: u64,
    pub kind: MemoryRegionKind,
}

/// A run of free physical memory from `start` up to, not including, `end`.
#[derive(Debug, Clone, Copy, PartialEq, Eq, Structural)]
pub struct PhysRange {
    pub start: u64,
    pub end: u64,
}

impl PhysRange {
    /// The range that holds nothing.
    pub fn empty() -> (range: Self)
        ensures
            range == (PhysRange { start: 0, end: 0 }),
    {
        PhysRange { start: 0, end: 0 }
    }

    /// The range from `start` up to `end`.
    pub fn new(start: u64, end: u64) -> (range: Self)
        ensures
            range == (PhysRange { start, end }),
    {
        PhysRange { start, end }
    }

    /// Number of bytes in the range.
    pub open spec fn size(&self) -> int {
        self.end - self.start
    }

    /// Whether `addr` lies in the range.
    pub open spec fn contains(&self, addr: int) -> bool {
        self.start <= addr < self.end
    }

    /// A range of whole pages that is not empty.
    pub open spec fn is_pages(&self) -> bool {
        self.start < self.end && self.start % 4096 == 0 && self.end % 4096 == 0
    }
}

/// The smallest multiple of `alignment` that is not below `addr`.
pub open spec fn align_up(addr: int, alignment: int) -> int {
    if addr % alignment == 0 {
        addr
    } else {
        addr + alignment - addr % alignment
    }
}

/// The pages that lie entirely inside a usable region: its start rounded up
/// and its end rounded down to a page boundary, if anything is left.
pub open spec fn usable_pages(region: MemoryRegion) -> Option<PhysRange> {
    let start = align_up(region.start as int, 4096);
    let end = region.end - region.end % 4096;
    if region.kind == MemoryRegionKind::Usable && start < end {
        Some(PhysRange { start: start as u64, end: end as u64 })
    } else {
        None
    }
}

/// The ranges taken from a memory map, in the order of the map: the usable
/// pages of each region, as long as fewer than `MAX_RANGES` were taken.
pub open spec fn taken_ranges(map: Seq<MemoryRegion>) -> Seq<PhysRange>
    decreases map.len(),
{
    if map.len() == 0 {
        Seq::empty()
    } else {
        let before = taken_ranges(map.drop_last());
        match usable_pages(map.last()) {
            Some(range) => if before.len() < MAX_RANGES {
                before.push(range)
            } else {
                before
            },
            None => before,
        }
    }
}

/// Total size of the ranges.
pub open spec fn total_size(ranges: Seq<PhysRange>) -> int
    decreases ranges.len(),
{
    if ranges.len() == 0 {
        0
    } else {
        total_size(ranges.drop_last()) + ranges.last().size()
    }
}

/// The ranges are whole pages, sorted by start, and no two overlap.
pub open spec fn sorted_disjoint(ranges: Seq<PhysRange>) -> bool {
    &&& forall|i: int| 0 <= i < ranges.len() ==> (#[trigger] ranges[i]).is_pages()
    &&& forall|i: int, j: int|
        0 <= i < j < ranges.len() ==> (#[trigger] ranges[i]).end <= (#[trigger] ranges[j]).start
}

/// Whether `addr` lies in one of the ranges.
pub open spec fn covers(ranges: Seq<PhysRange>, addr: int) -> bool {
    exists|i: int| 0 <= i < ranges.len() && (#[trigger] ranges[i]).contains(addr)
}

/// Where a range that starts at `start` goes in a sorted table: before the
/// first range that starts after it.
pub open spec fn insert_position(ranges: Seq<PhysRange>, start: u64) -> int
    decreases ranges.len(),
{
    if ranges.len() == 0 {
        0
    } else if start < ranges[0].start {
        0
    } else {
        1 + insert_position(ranges.drop_first(), start)
    }
}

/// The table with `range` inserted at its place.
pub open spec fn insert_sorted(ranges: Seq<PhysRange>, range: PhysRange) -> Seq<PhysRange> {
    ranges.insert(insert_position(ranges, range.start), range)
}

/// The ranges inserted one after the other into an empty table.
pub open spec fn sorted_from(ranges: Seq<PhysRange>) -> Seq<PhysRange>
    decreases ranges.len(),
{
    if ranges.len() == 0 {
        Seq::empty()
    } else {
        insert_sorted(sorted_from(ranges.drop_last()), ranges.last())
    }
}

/// The table with every two ranges merged of which the first ends where the
/// second starts.
pub open spec fn coalesced(ranges: Seq<PhysRange>) -> Seq<PhysRange>
    decreases ranges.len(),
{
    if ranges.len() < 2 {
        ranges
    } else if ranges[0].end == ranges[1].start {
        coalesced(
            seq![PhysRange { start: ranges[0].start, end: ranges[1].end }] + ranges.subrange(
                2,
                ranges.len() as int,
            ),
        )
    } else {
        seq![ranges[0]] + coalesced(ranges.drop_first())
    }
}

/// A frame allocator over the usable memory of the firmware memory map.
///
/// The free ranges are kept in a table of fixed size, so that the allocator
/// works before there is a heap.
pub struct BootInfoFrameAllocator {
    free_ranges: [PhysRange; 256],
    range_count: usize,
    allocated_bytes: u64,
    total_bytes: u64,
    built: Ghost<Seq<PhysRange>>,
}

impl BootInfoFrameAllocator {
    /// The free ranges, in table order.
    pub closed spec fn ranges(&self) -> Seq<PhysRange> {
        self.free_ranges@.subrange(0, self.range_count as int)
    }

    /// Bytes handed out and not returned.
    pub closed spec fn allocated_bytes(&self) -> int {
        self.allocated_bytes as int
    }

    /// Bytes that the allocator started with.
    pub closed spec fn total_bytes(&self) -> int {
        self.total_bytes as int
    }

    /// The ranges that the allocator was built from: the memory that it
    /// manages, free or allocated.
    pub closed spec fn built(&self) -> Seq<PhysRange> {
        self.built@
    }

    /// The table fits, its ranges are sorted and disjoint, and every byte
    /// is accounted for: the total is what is allocated plus what is free.
    pub open spec fn table_wf(&self) -> bool {
        &&& self.table_ok()
        &&& self.ranges().len() <= MAX_RANGES
        &&& sorted_disjoint(self.ranges())
        &&& self.total_bytes() == self.allocated_bytes() + total_size(self.ranges())
    }

    /// The table is in order, and every free byte lies in the memory that
    /// the allocator was built from.
    pub open spec fn wf(&self) -> bool {
        &&& self.table_wf()
        &&& forall|addr: int| covers(self.ranges(), addr) ==> covers(self.built(), addr)
    }

    /// The count of ranges is within the table.
    pub closed spec fn table_ok(&self) -> bool {
        self.range_count <= 256
    }

    /// Free memory in bytes.
    pub fn free_memory(&self) -> (bytes: u64)
        requires
            self.wf(),
        ensures
            bytes == total_size(self.ranges()),
            bytes == self.total_bytes() - self.allocated_bytes(),
    {
        proof {
            lemma_total_size_bounds(self.ranges());
        }
        self.total_bytes - self.allocated_bytes
    }

    /// Allocated memory in bytes.
    pub fn allocated_memory(&self) -> (bytes: u64)
        ensures
            bytes == self.allocated_bytes(),
    {
        self.allocated_bytes
    }

    /// Number of free ranges in the table.
    pub fn range_count(&self) -> (count: usize)
        requires
            self.wf(),
        ensures
            count == self.ranges().len(),
    {
        self.range_count
    }
}

impl BootInfoFrameAllocator {
    /// Removes the range at `index` and closes the gap.
    fn remove_range(&mut self, index: usize)
        requires
            old(self).table_ok(),
            index < old(self).ranges().len(),
        ensures
            final(self).table_ok(),
            final(self).ranges() == old(self).ranges().remove(index as int),
            final(self).allocated_bytes() == old(self).allocated_bytes(),
            final(self).total_bytes() == old(self).total_bytes(),
            final(self).built() == old(self).built(),
    {
        let mut j = index;
        while j < self.range_count - 1
            invariant
                index <= j < self.range_count,
                self.range_count == old(self).range_count,
                self.range_count <= 256,
                self.allocated_bytes == old(self).allocated_bytes,
                self.total_bytes == old(self).total_bytes,
                self.built == old(self).built,
                forall|k: int| 0 <= k < index ==> self.free_ranges@[k] == old(self).free_ranges@[k],
                forall|k: int| index <= k < j ==> self.free_ranges@[k] == old(self).free_ranges@[k + 1],
                forall|k: int| j <= k < 256 ==> self.free_ranges@[k] == old(self).free_ranges@[k],
            decreases self.range_count - j,
        {
            self.free_ranges[j] = self.free_ranges[j + 1];
            j += 1;
        }
        self.range_count -= 1;
        self.free_ranges[self.range_count] = PhysRange::empty();
        assert(self.ranges() =~= old(self).ranges().remove(index as int));
    }

    /// Inserts `range` before the first range that starts after it. The
    /// table must have room.
    fn insert_range_sorted(&mut self, range: PhysRange)
        requires
            old(self).table_ok(),
            old(self).ranges().len() < MAX_RANGES,
        ensures
            final(self).table_ok(),
            final(self).ranges() == insert_sorted(old(self).ranges(), range),
            final(self).allocated_bytes() == old(self).allocated_bytes(),
            final(self).total_bytes() == old(self).total_bytes(),
            final(self).built() == old(self).built(),
    {
        let mut pos: usize = 0;
        while pos < self.range_count && !(range.start < self.free_ranges[pos].start)
            invariant
                pos <= self.range_count,
                self.range_count < 256,
                *self == *old(self),
                forall|k: int| 0 <= k < pos ==> (#[trigger] self.free_ranges@[k]).start <= range.start,
            decreases self.range_count - pos,
        {
            pos += 1;
        }
        proof {
            let ranges = self.ranges();
            assert forall|i: int| 0 <= i < pos implies (#[trigger] ranges[i]).start <= range.start by {
                assert(ranges[i] == self.free_ranges@[i]);
            }
            lemma_insert_position_is(ranges, range.start, pos as int);
        }
        let mut j = self.range_count;
        while j > pos
            invariant
                pos <= j <= self.range_count,
                self.range_count == old(self).range_count,
                self.range_count < 256,
                self.allocated_bytes == old(self).allocated_bytes,
                self.total_bytes == old(self).total_bytes,
                self.built == old(self).built,
                forall|k: int| 0 <= k <= j ==> self.free_ranges@[k] == old(self).free_ranges@[k],
                forall|k: int|
                    j < k <= self.range_count ==> self.free_ranges@[k] == old(self).free_ranges@[k
                        - 1],
            decreases j,
        {
            self.free_ranges[j] = self.free_ranges[j - 1];
            j -= 1;
        }
        self.free_ranges[pos] = range;
        self.range_count += 1;
        assert(self.ranges() =~= old(self).ranges().insert(pos as int, range));
    }

    /// Merges every two neighbouring ranges of which the first ends where
    /// the second starts.
    #[verifier::rlimit(50)]
    fn coalesce_ranges(&mut self)
        requires
            old(self).table_ok(),
        ensures
            final(self).table_ok(),
            final(self).ranges() == coalesced(old(self).ranges()),
            final(self).allocated_bytes() == old(self).allocated_bytes(),
            final(self).total_bytes() == old(self).total_bytes(),
            final(self).built() == old(self).built(),
    {
        if self.range_count < 2 {
            return ;
        }
        let mut i: usize = 0;
        proof {
            let all = self.ranges();
            assert(all.subrange(0, all.len() as int) =~= all);
            assert(all.subrange(0, 0) + coalesced(all) =~= coalesced(all));
        }
        while i < self.range_count - 1
            invariant
                self.range_count >= 1,
                self.range_count <= 256,
                i < self.range_count,
                self.allocated_bytes == old(self).allocated_bytes,
                self.total_bytes == old(self).total_bytes,
                self.built == old(self).built,
                coalesced(old(self).ranges()) == self.ranges().subrange(0, i as int) + coalesced(
                    self.ranges().subrange(i as int, self.range_count as int),
                ),
            decreases self.range_count - i, self.range_count,
        {
            let ghost before = self.ranges();
            let ghost tail = before.subrange(i as int, self.range_count as int);
            if self.free_ranges[i].end == self.free_ranges[i + 1].start {
                let end = self.free_ranges[i + 1].end;
                let start = self.free_ranges[i].start;
                self.free_ranges[i] = PhysRange { start, end };
                let ghost updated = self.ranges();
                assert(updated =~= before.update(i as int, PhysRange { start, end }));
                self.remove_range(i + 1);
                proof {
                    let now = self.ranges();
                    let merged = PhysRange { start, end };
                    assert(now == updated.remove(i + 1));
                    assert(tail[0] == before[i as int] && tail[1] == before[i + 1]);
                    let left = now.subrange(i as int, now.len() as int);
                    let right = seq![merged] + tail.subrange(2, tail.len() as int);
                    assert(left.len() == right.len());
                    assert forall|k: int| 0 <= k < left.len() implies left[k] == right[k] by {
                        if k > 0 {
                            assert(left[k] == now[i + k]);
                            assert(now[i + k] == updated[i + k + 1]);
                            assert(right[k] == tail[k + 1]);
                        }
                    }
                    assert(left =~= right);
                    assert(now.subrange(0, i as int) =~= before.subrange(0, i as int));
                }
            } else {
                proof {
                    assert(tail[0] == before[i as int] && tail[1] == before[i + 1]);
                    assert(tail.drop_first() =~= before.subrange(i + 1, self.range_count as int));
                    assert(before.subrange(0, i + 1) =~= before.subrange(0, i as int) + seq![
                        before[i as int],
                    ]);
                    assert(before.subrange(0, i as int) + (seq![tail[0]] + coalesced(
                        tail.drop_first(),
                    )) =~= before.subrange(0, i + 1) + coalesced(tail.drop_first()));
                }
                i += 1;
            }
        }
        proof {
            let now = self.ranges();
            assert(now.subrange(0, i as int) + now.subrange(i as int, self.range_count as int)
                =~= now);
        }
    }
}

/// Whether a run of `size` bytes aligned to `alignment` can be cut from
/// range `index`: the run fits, and if a fragment would be left on both
/// sides the table has room for one more range.
pub open spec fn fits_at(ranges: Seq<PhysRange>, index: int, size: int, alignment: int) -> bool {
    let range = ranges[index];
    let start = align_up(range.start as int, alignment);
    &&& size > 0
    &&& start + size <= range.end
    &&& !(start > range.start && start + size < range.end && ranges.len() >= MAX_RANGES)
}

/// The free page number `index`, counting through the ranges in order.
pub open spec fn frame_at(ranges: Seq<PhysRange>, index: int) -> Option<u64>
    decreases ranges.len(),
{
    if ranges.len() == 0 || index < 0 {
        None
    } else if index < ranges[0].size() / 4096 {
        Some((ranges[0].start + 4096 * index) as u64)
    } else {
        frame_at(ranges.drop_first(), index - ranges[0].size() / 4096)
    }
}

/// A page number below the number of pages of a size lies inside the size.
proof fn lemma_whole_pages(size: u64, page: u64)
    requires
        page < size / 4096,
    ensures
        page * 4096 + 4096 <= size,
{
}

/// The first range from `from` on from which the run can be cut.
pub open spec fn first_fit(ranges: Seq<PhysRange>, size: int, alignment: int, from: int) -> Option<
    int,
>
    decreases ranges.len() - from,
{
    if from < 0 || from >= ranges.len() {
        None
    } else if fits_at(ranges, from, size, alignment) {
        Some(from)
    } else {
        first_fit(ranges, size, alignment, from + 1)
    }
}

/// The table after the bytes from `start` to `start + size` have been cut
/// from range `index`: the fragments before and after the run, as far as
/// they are not empty, stand in its place.
pub open spec fn cut(ranges: Seq<PhysRange>, index: int, start: int, size: int) -> Seq<PhysRange> {
    let range = ranges[index];
    let before = if start > range.start {
        seq![PhysRange { start: range.start, end: start as u64 }]
    } else {
        Seq::empty()
    };
    let after = if start + size < range.end {
        seq![PhysRange { start: (start + size) as u64, end: range.end }]
    } else {
        Seq::empty()
    };
    ranges.subrange(0, index) + before + after + ranges.subrange(index + 1, ranges.len() as int)
}

/// The usable pages of any two regions of the map have no byte in common.
pub open spec fn regions_apart(map: Seq<MemoryRegion>) -> bool {
    forall|i: int, j: int|
        0 <= i < j < map.len() && usable_pages(map[i]) is Some && usable_pages(map[j]) is Some
            ==> apart(
            #[trigger] usable_pages(map[i])->Some_0,
            #[trigger] usable_pages(map[j])->Some_0,
        )
}

impl BootInfoFrameAllocator {
    /// Builds the allocator from the firmware memory map.
    ///
    /// Only usable regions count. Each is shrunk to whole pages, start
    /// rounded up and end rounded down; what is empty after that is dropped,
    /// and so is what comes after the table is full. The ranges are sorted
    /// by start. Nothing is allocated yet.
    #[verifier::rlimit(50)]
    pub fn init(memory_map: &[MemoryRegion]) -> (allocator: Self)
        requires
            regions_apart(memory_map@),
        ensures
            allocator.wf(),
            allocator.ranges() == sorted_from(taken_ranges(memory_map@)),
            allocator.built() == allocator.ranges(),
            allocator.allocated_bytes() == 0,
            allocator.total_bytes() == total_size(allocator.ranges()),
    {
        let mut allocator = BootInfoFrameAllocator {
            free_ranges: [PhysRange { start: 0, end: 0 }; 256],
            range_count: 0,
            allocated_bytes: 0,
            total_bytes: 0,
            built: Ghost(Seq::empty()),
        };
        let mut i: usize = 0;
        proof {
            assert(memory_map@.subrange(0, 0) =~= Seq::<MemoryRegion>::empty());
            assert(allocator.ranges() =~= Seq::<PhysRange>::empty());
        }
        while i < memory_map.len()
            invariant
                i <= memory_map@.len(),
                regions_apart(memory_map@),
                allocator.table_wf(),
                allocator.allocated_bytes == 0,
                allocator.ranges().len() == taken_ranges(memory_map@.subrange(0, i as int)).len(),
                allocator.ranges() == sorted_from(taken_ranges(memory_map@.subrange(0, i as int))),
                forall|k: int|
                    0 <= k < allocator.ranges().len() ==> exists|j: int|
                        0 <= j < i && #[trigger] usable_pages(memory_map@[j]) == Some(
                            #[trigger] allocator.ranges()[k],
                        ),
            decreases memory_map@.len() - i,
        {
            let region = memory_map[i];
            let ghost before_map = memory_map@.subrange(0, i as int);
            let ghost next_map = memory_map@.subrange(0, i + 1);
            let ghost old_ranges = allocator.ranges();
            proof {
                assert(next_map.drop_last() =~= before_map);
                assert(next_map.last() == region);
            }
            let mut taken = false;
            if region.kind == MemoryRegionKind::Usable && region.start <= u64::MAX - 4095 {
                let rem = region.start % 4096;
                let start = if rem == 0 {
                    region.start
                } else {
                    region.start + (4096 - rem)
                };
                let end = region.end - region.end % 4096;
                if end > start && allocator.range_count < MAX_RANGES {
                    let range = PhysRange::new(start, end);
                    proof {
                        assert(usable_pages(region) == Some(range));
                        assert forall|k: int| 0 <= k < old_ranges.len() implies apart(
                            #[trigger] old_ranges[k],
                            range,
                        ) by {
                            let j = choose|j: int|
                                0 <= j < i && #[trigger] usable_pages(memory_map@[j]) == Some(
                                    old_ranges[k],
                                );
                            assert(apart(
                                usable_pages(memory_map@[j])->Some_0,
                                usable_pages(memory_map@[i as int])->Some_0,
                            ));
                        }
                        lemma_insert_sorted(old_ranges, range);
                        lemma_total_size_fits(insert_sorted(old_ranges, range));
                    }
                    allocator.insert_range_sorted(range);
                    allocator.total_bytes += end - start;
                    taken = true;
                    proof {
                        let at = insert_position(old_ranges, range.start);
                        lemma_insert_position(old_ranges, range.start);
                        assert forall|k: int| 0 <= k < allocator.ranges().len() implies exists|j: int|
                            0 <= j < i + 1 && #[trigger] usable_pages(memory_map@[j]) == Some(
                                #[trigger] allocator.ranges()[k],
                            ) by {
                            if k < at {
                                assert(allocator.ranges()[k] == old_ranges[k]);
                                let j = choose|j: int|
                                    0 <= j < i && #[trigger] usable_pages(memory_map@[j]) == Some(
                                        old_ranges[k],
                                    );
                                assert(usable_pages(memory_map@[j]) == Some(allocator.ranges()[k]));
                            } else if k == at {
                                assert(usable_pages(memory_map@[i as int]) == Some(
                                    allocator.ranges()[k],
                                ));
                            } else {
                                assert(allocator.ranges()[k] == old_ranges[k - 1]);
                                let j = choose|j: int|
                                    0 <= j < i && #[trigger] usable_pages(memory_map@[j]) == Some(
                                        old_ranges[k - 1],
                                    );
                                assert(usable_pages(memory_map@[j]) == Some(allocator.ranges()[k]));
                            }
                        }
                    }
                }
            }
            proof {
                if !taken {
                    assert(taken_ranges(next_map) == taken_ranges(before_map));
                    assert forall|k: int| 0 <= k < allocator.ranges().len() implies exists|j: int|
                        0 <= j < i + 1 && #[trigger] usable_pages(memory_map@[j]) == Some(
                            #[trigger] allocator.ranges()[k],
                        ) by {
                        let j = choose|j: int|
                            0 <= j < i && #[trigger] usable_pages(memory_map@[j]) == Some(
                                allocator.ranges()[k],
                            );
                        assert(usable_pages(memory_map@[j]) == Some(allocator.ranges()[k]));
                    }
                } else {
                    let range = usable_pages(region)->Some_0;
                    assert(taken_ranges(next_map) == taken_ranges(before_map).push(range));
                    assert(taken_ranges(next_map).drop_last() =~= taken_ranges(before_map));
                }
            }
            i += 1;
        }
        proof {
            assert(memory_map@.subrange(0, i as int) =~= memory_map@);
        }
        allocator.built = Ghost(allocator.ranges());
        allocator
    }
}

impl BootInfoFrameAllocator {
    /// Number of free pages.
    pub fn usable_frame_count(&self) -> (count: u64)
        requires
            self.wf(),
        ensures
            count == total_size(self.ranges()) / 4096,
    {
        self.free_memory() / PAGE_SIZE
    }

    /// The free page number `index`, counting through the ranges in table
    /// order, or `None` if there are not that many.
    pub fn usable_frame(&self, index: u64) -> (frame: Option<u64>)
        requires
            self.wf(),
        ensures
            frame == frame_at(self.ranges(), index as int),
    {
        let mut left = index;
        let mut i: usize = 0;
        proof {
            assert(self.ranges().subrange(0, self.ranges().len() as int) =~= self.ranges());
        }
        while i < self.range_count
            invariant
                i <= self.range_count,
                self.wf(),
                frame_at(self.ranges(), index as int) == frame_at(
                    self.ranges().subrange(i as int, self.ranges().len() as int),
                    left as int,
                ),
            decreases self.range_count - i,
        {
            let range = self.free_ranges[i];
            let ghost rest = self.ranges().subrange(i as int, self.ranges().len() as int);
            proof {
                assert(rest[0] == self.ranges()[i as int]);
                assert(range == rest[0]);
                assert(range.is_pages());
                assert(rest.drop_first() =~= self.ranges().subrange(
                    i + 1,
                    self.ranges().len() as int,
                ));
            }
            let pages = (range.end - range.start) / PAGE_SIZE;
            if left < pages {
                proof {
                    assert(left * 4096 < range.end - range.start) by {
                        lemma_whole_pages((range.end - range.start) as u64, left);
                    }
                }
                return Some(range.start + left * PAGE_SIZE);
            }
            left = left - pages;
            i += 1;
        }
        proof {
            assert(self.ranges().subrange(i as int, self.ranges().len() as int)
                =~= Seq::<PhysRange>::empty());
        }
        None
    }

    /// Allocates `count` contiguous pages. Returns the address of the first,
    /// or `None` if no range has room.
    pub fn allocate_contiguous(&mut self, count: usize) -> (frame: Option<u64>)
        requires
            old(self).wf(),
        ensures
            final(self).wf(),
            final(self).total_bytes() == old(self).total_bytes(),
            final(self).built() == old(self).built(),
            allocation_made(
                old(self).ranges(),
                old(self).allocated_bytes(),
                count as int * 4096,
                4096,
                frame,
                final(self).ranges(),
                final(self).allocated_bytes(),
            ),
    {
        assert(4096int % 4096 == 0);
        self.allocate_contiguous_aligned(count, PAGE_SIZE)
    }

    /// Allocates one page.
    pub fn allocate_frame(&mut self) -> (frame: Option<u64>)
        requires
            old(self).wf(),
        ensures
            final(self).wf(),
            final(self).total_bytes() == old(self).total_bytes(),
            final(self).built() == old(self).built(),
            allocation_made(
                old(self).ranges(),
                old(self).allocated_bytes(),
                4096,
                4096,
                frame,
                final(self).ranges(),
                final(self).allocated_bytes(),
            ),
    {
        self.allocate_contiguous(1)
    }

    /// Allocates a huge page: 512 contiguous pages aligned to 2 MiB.
    pub fn allocate_huge_page(&mut self) -> (frame: Option<u64>)
        requires
            old(self).wf(),
        ensures
            final(self).wf(),
            final(self).total_bytes() == old(self).total_bytes(),
            final(self).built() == old(self).built(),
            allocation_made(
                old(self).ranges(),
                old(self).allocated_bytes(),
                0x20_0000,
                0x20_0000,
                frame,
                final(self).ranges(),
                final(self).allocated_bytes(),
            ),
    {
        assert(0x20_0000int % 4096 == 0);
        self.allocate_contiguous_aligned(512, HUGE_PAGE_SIZE)
    }

    /// Allocates `count` contiguous pages whose first address is a multiple
    /// of `alignment`.
    ///
    /// The run is cut from the first range in table order in which it fits.
    /// What is left of that range before and after the run stays in the
    /// table; a range that would leave two fragments is passed over while
    /// the table is full. Returns `None`, and changes nothing, if `count` is
    /// zero, whatever the alignment, or if no range serves. For a count
    /// above zero the alignment is a power of two, or more generally a
    /// divisor or a multiple of the page size.
    pub fn allocate_contiguous_aligned(&mut self, count: usize, alignment: u64) -> (frame: Option<
        u64,
    >)
        requires
            old(self).wf(),
            count > 0 ==> page_alignment(alignment as int),
        ensures
            final(self).wf(),
            final(self).total_bytes() == old(self).total_bytes(),
            final(self).built() == old(self).built(),
            count == 0 ==> frame is None,
            allocation_made(
                old(self).ranges(),
                old(self).allocated_bytes(),
                count as int * 4096,
                alignment as int,
                frame,
                final(self).ranges(),
                final(self).allocated_bytes(),
            ),
    {
        if count == 0 || count as u64 > u64::MAX / 4096 {
            proof {
                lemma_no_fit_for(self.ranges(), count as int * 4096, alignment as int, 0);
            }
            return None;
        }
        let required_size: u64 = count as u64 * PAGE_SIZE;
        let mut i: usize = 0;
        while i < self.range_count
            invariant
                i <= self.range_count,
                *self == *old(self),
                self.wf(),
                page_alignment(alignment as int),
                required_size == count as int * 4096,
                required_size > 0,
                first_fit(self.ranges(), required_size as int, alignment as int, 0) == first_fit(
                    self.ranges(),
                    required_size as int,
                    alignment as int,
                    i as int,
                ),
            decreases self.range_count - i,
        {
            let range = self.free_ranges[i];
            assert(range == self.ranges()[i as int]);
            match aligned_run(range, required_size, alignment) {
                Some(aligned_start) => {
                    let two_fragments = aligned_start > range.start && required_size < range.end
                        - aligned_start;
                    if !(two_fragments && self.range_count >= MAX_RANGES) {
                        self.take_run(i, aligned_start, required_size);
                        return Some(aligned_start);
                    }
                },
                None => {},
            }
            i += 1;
        }
        None
    }

    /// Cuts the run of `size` bytes at `start` out of range `index`.
    #[verifier::rlimit(50)]
    fn take_run(&mut self, index: usize, start: u64, size: u64)
        requires
            old(self).wf(),
            index < old(self).ranges().len(),
            old(self).ranges()[index as int].start <= start,
            size > 0,
            start + size <= old(self).ranges()[index as int].end,
            start % 4096 == 0,
            size % 4096 == 0,
            !(start > old(self).ranges()[index as int].start && start + size < old(
                self,
            ).ranges()[index as int].end && old(self).ranges().len() >= MAX_RANGES),
        ensures
            final(self).wf(),
            final(self).total_bytes() == old(self).total_bytes(),
            final(self).built() == old(self).built(),
            final(self).allocated_bytes() == old(self).allocated_bytes() + size,
            final(self).ranges() == cut(old(self).ranges(), index as int, start as int, size as int),
            forall|addr: int| start <= addr < start + size ==> covers(old(self).ranges(), addr),
            forall|addr: int|
                covers(final(self).ranges(), addr) <==> covers(old(self).ranges(), addr) && !(start
                    <= addr < start + size),
    {
        let ghost ranges = self.ranges();
        let range = self.free_ranges[index];
        assert(range == ranges[index as int]);
        assert forall|addr: int| start <= addr < start + size implies covers(ranges, addr) by {
            assert(ranges[index as int].contains(addr));
        }
        let alloc_end = start + size;
        let has_before = start > range.start;
        let has_after = alloc_end < range.end;
        proof {
            lemma_cut(ranges, index as int, start as int, size as int);
            lemma_total_size_bounds(ranges);
        }
        self.remove_range(index);
        let ghost removed = self.ranges();
        if has_before {
            let before = PhysRange::new(range.start, start);
            proof {
                lemma_fragment_position(ranges, index as int, before);
            }
            self.insert_range_sorted(before);
            assert(self.ranges() == removed.insert(index as int, before));
        }
        if has_after {
            let after = PhysRange::new(alloc_end, range.end);
            proof {
                if has_before {
                    let before = PhysRange { start: range.start, end: start };
                    lemma_fragment_position_after(ranges, index as int, before, after);
                } else {
                    lemma_fragment_position(ranges, index as int, after);
                }
            }
            self.insert_range_sorted(after);
        }
        assert(self.ranges() =~= cut(ranges, index as int, start as int, size as int));
        self.allocated_bytes += size;
    }

    /// Returns `count` contiguous pages from `start` to the allocator: the
    /// range goes into the table at its place, and neighbours that touch
    /// are merged. With `count` zero nothing happens.
    ///
    /// The pages must have been allocated and be in nobody's use: whole
    /// pages of the memory that the allocator was built from that overlap
    /// no free range, no more than is allocated, and the table must have
    /// room for one more range.
    pub fn free_contiguous(&mut self, start: u64, count: usize)
        requires
            old(self).wf(),
            count > 0 ==> {
                &&& start % 4096 == 0
                &&& start + count * 4096 <= u64::MAX
                &&& count * 4096 <= old(self).allocated_bytes()
                &&& old(self).ranges().len() < MAX_RANGES
                &&& forall|i: int|
                    0 <= i < old(self).ranges().len() ==> apart(
                        #[trigger] old(self).ranges()[i],
                        PhysRange { start, end: (start + count * 4096) as u64 },
                    )
                &&& forall|addr: int|
                    start <= addr < start + count * 4096 ==> covers(old(self).built(), addr)
            },
        ensures
            final(self).wf(),
            final(self).total_bytes() == old(self).total_bytes(),
            final(self).built() == old(self).built(),
            count == 0 ==> final(self).ranges() == old(self).ranges() && final(self).allocated_bytes()
                == old(self).allocated_bytes(),
            count > 0 ==> {
                let freed = PhysRange { start, end: (start + count * 4096) as u64 };
                &&& final(self).ranges() == coalesced(insert_sorted(old(self).ranges(), freed))
                &&& final(self).allocated_bytes() == old(self).allocated_bytes() - count * 4096
                &&& forall|addr: int|
                    covers(final(self).ranges(), addr) <==> covers(old(self).ranges(), addr)
                        || freed.contains(addr)
            },
    {
        if count == 0 {
            return ;
        }
        let size: u64 = count as u64 * PAGE_SIZE;
        let end = start + size;
        let freed = PhysRange::new(start, end);
        proof {
            lemma_insert_sorted(self.ranges(), freed);
            lemma_coalesced(insert_sorted(self.ranges(), freed));
        }
        self.allocated_bytes = if self.allocated_bytes >= size {
            self.allocated_bytes - size
        } else {
            0
        };
        self.insert_range_sorted(freed);
        self.coalesce_ranges();
        proof {
            assert forall|addr: int| covers(self.ranges(), addr) implies covers(
                self.built(),
                addr,
            ) by {
                assert(covers(old(self).ranges(), addr) || freed.contains(addr));
                if !freed.contains(addr) {
                    assert(covers(old(self).built(), addr));
                }
            }
        }
    }

    /// Returns one page to the allocator.
    pub fn free_frame(&mut self, frame: u64)
        requires
            old(self).wf(),
            frame % 4096 == 0,
            frame + 4096 <= u64::MAX,
            4096 <= old(self).allocated_bytes(),
            old(self).ranges().len() < MAX_RANGES,
            forall|i: int|
                0 <= i < old(self).ranges().len() ==> apart(
                    #[trigger] old(self).ranges()[i],
                    PhysRange { start: frame, end: (frame + 4096) as u64 },
                ),
            forall|addr: int| frame <= addr < frame + 4096 ==> covers(old(self).built(), addr),
        ensures
            final(self).wf(),
            final(self).total_bytes() == old(self).total_bytes(),
            final(self).built() == old(self).built(),
            final(self).ranges() == coalesced(
                insert_sorted(old(self).ranges(), PhysRange { start: frame, end: (frame + 4096) as u64 }),
            ),
            final(self).allocated_bytes() == old(self).allocated_bytes() - 4096,
    {
        self.free_contiguous(frame, 1);
    }
}

/// Where a run of `size` bytes aligned to `alignment` starts in `range`,
/// if it fits there.
fn aligned_run(range: PhysRange, size: u64, alignment: u64) -> (start: Option<u64>)
    requires
        range.is_pages(),
        page_alignment(alignment as int),
        size > 0,
    ensures
        match start {
            Some(s) => s == align_up(range.start as int, alignment as int) && s + size <= range.end
                && range.start <= s && s % 4096 == 0 && s % alignment == 0,
            None => align_up(range.start as int, alignment as int) + size > range.end,
        },
{
    proof {
        lemma_align_up(range.start as int, alignment as int);
        lemma_aligned_is_page(range.start as int, alignment as int);
    }
    let rem = range.start % alignment;
    let aligned = if rem == 0 {
        range.start
    } else if alignment - rem > u64::MAX - range.start {
        return None;
    } else {
        range.start + (alignment - rem)
    };
    if aligned <= range.end && size <= range.end - aligned {
        Some(aligned)
    } else {
        None
    }
}

/// An alignment that keeps page addresses page addresses: a divisor or a
/// multiple of the page size.
pub open spec fn page_alignment(alignment: int) -> bool {
    alignment > 0 && (4096int % alignment == 0 || alignment % 4096 == 0)
}

/// A page address rounded up to such an alignment is a page address.
pub proof fn lemma_aligned_is_page(addr: int, alignment: int)
    requires
        addr >= 0,
        addr % 4096 == 0,
        page_alignment(alignment),
    ensures
        align_up(addr, alignment) % 4096 == 0,
{
    lemma_align_up(addr, alignment);
    if 4096int % alignment == 0 {
        lemma_multiple_of_multiple(addr, 4096, alignment);
    } else {
        lemma_multiple_of_multiple(align_up(addr, alignment), alignment, 4096);
    }
}

/// A multiple of a multiple of `c` is a multiple of `c`.
proof fn lemma_multiple_of_multiple(a: int, b: int, c: int)
    requires
        b > 0,
        c > 0,
        a % b == 0,
        b % c == 0,
    ensures
        a % c == 0,
{
    vstd::arithmetic::div_mod::lemma_fundamental_div_mod(a, b);
    vstd::arithmetic::div_mod::lemma_fundamental_div_mod(b, c);
    let q = a / b;
    let p = b / c;
    assert(a == (p * q) * c) by (nonlinear_arith)
        requires
            a == b * q,
            b == c * p,
    ;
    vstd::arithmetic::div_mod::lemma_mod_multiples_basic(p * q, c);
}

/// What an allocation of `size` bytes aligned to `alignment` does to the
/// table and the count of allocated bytes, and what it returns.
pub open spec fn allocation_made(
    ranges: Seq<PhysRange>,
    allocated: int,
    size: int,
    alignment: int,
    frame: Option<u64>,
    ranges_after: Seq<PhysRange>,
    allocated_after: int,
) -> bool {
    match first_fit(ranges, size, alignment, 0) {
        None => frame is None && ranges_after == ranges && allocated_after == allocated,
        Some(index) => {
            let start = align_up(ranges[index].start as int, alignment);
            &&& frame == Some(start as u64)
            &&& start % alignment == 0
            &&& ranges_after == cut(ranges, index, start, size)
            &&& allocated_after == allocated + size
            &&& forall|addr: int| start <= addr < start + size ==> covers(ranges, addr)
            &&& forall|addr: int|
                covers(ranges_after, addr) <==> covers(ranges, addr) && !(start <= addr < start
                    + size)
        },
    }
}

/// No run of no bytes fits anywhere, whatever the alignment, and no run
/// longer than the address space.
proof fn lemma_no_fit_for(ranges: Seq<PhysRange>, size: int, alignment: int, from: int)
    requires
        size <= 0 || (size > u64::MAX && alignment > 0),
        from >= 0,
    ensures
        first_fit(ranges, size, alignment, from) is None,
    decreases ranges.len() - from,
{
    if from < ranges.len() {
        if size > 0 {
            assert(align_up(ranges[from].start as int, alignment) >= ranges[from].start) by {
                lemma_align_up(ranges[from].start as int, alignment);
            }
        }
        lemma_no_fit_for(ranges, size, alignment, from + 1);
    }
}

/// Rounding up gives a multiple of the alignment that is at least the
/// address and less than one alignment above it.
pub proof fn lemma_align_up(addr: int, alignment: int)
    requires
        addr >= 0,
        alignment > 0,
    ensures
        addr <= align_up(addr, alignment) < addr + alignment,
        align_up(addr, alignment) % alignment == 0,
{
    vstd::arithmetic::div_mod::lemma_mod_bound(addr, alignment);
    if addr % alignment != 0 {
        let up = addr + alignment - addr % alignment;
        vstd::arithmetic::div_mod::lemma_fundamental_div_mod(addr, alignment);
        let q = addr / alignment;
        assert(up == alignment * (q + 1)) by (nonlinear_arith)
            requires
                addr == alignment * q + addr % alignment,
                up == addr + alignment - addr % alignment,
        ;
        vstd::arithmetic::div_mod::lemma_mod_multiples_basic(q + 1, alignment);
        assert(alignment * (q + 1) == (q + 1) * alignment) by (nonlinear_arith);
    }
}

/// Cutting a run out of a range of a sorted, disjoint table leaves the table
/// sorted and disjoint, takes the run's size off its total, and takes the
/// run's bytes, and no others, out of what it covers.
#[verifier::rlimit(100)]
#[verifier::spinoff_prover]
pub proof fn lemma_cut(ranges: Seq<PhysRange>, index: int, start: int, size: int)
    requires
        sorted_disjoint(ranges),
        0 <= index < ranges.len(),
        ranges[index].start <= start,
        size > 0,
        start + size <= ranges[index].end,
        start % 4096 == 0,
        size % 4096 == 0,
    ensures
        sorted_disjoint(cut(ranges, index, start, size)),
        total_size(cut(ranges, index, start, size)) == total_size(ranges) - size,
        forall|addr: int|
            covers(cut(ranges, index, start, size), addr) <==> covers(ranges, addr) && !(start
                <= addr < start + size),
{
    let range = ranges[index];
    let removed = ranges.remove(index);
    lemma_covers_remove(ranges, index);
    lemma_total_size_remove(ranges, index);
    assert(range.is_pages());
    let before = PhysRange { start: range.start, end: start as u64 };
    let after = PhysRange { start: (start + size) as u64, end: range.end };
    let with_before = if start > range.start {
        removed.insert(index, before)
    } else {
        removed
    };
    if start > range.start {
        lemma_total_size_insert(removed, index, before);
        lemma_covers_insert(removed, index, before);
    }
    let at = if start > range.start {
        index + 1
    } else {
        index
    };
    let result = if start + size < range.end {
        with_before.insert(at, after)
    } else {
        with_before
    };
    if start + size < range.end {
        lemma_total_size_insert(with_before, at, after);
        lemma_covers_insert(with_before, at, after);
    }
    assert(result =~= cut(ranges, index, start, size));
    assert forall|i: int| 0 <= i < result.len() implies (#[trigger] result[i]).is_pages() by {
        if i < index {
            assert(result[i] == ranges[i]);
        } else if i >= index + (result.len() - removed.len()) {
            assert(result[i] == ranges[i - (result.len() - removed.len()) + 1]);
        }
    }
    assert forall|i: int, j: int| 0 <= i < j < result.len() implies (#[trigger] result[i]).end <= (
    #[trigger] result[j]).start by {
        let extra = result.len() - removed.len();
        let lo = if i < index {
            ranges[i]
        } else if i >= index + extra {
            ranges[i - extra + 1]
        } else {
            result[i]
        };
        assert(result[i] == lo);
        let hi = if j < index {
            ranges[j]
        } else if j >= index + extra {
            ranges[j - extra + 1]
        } else {
            result[j]
        };
        assert(result[j] == hi);
        if i < index {
            assert(ranges[i].end <= ranges[index].start);
        }
        if j >= index + extra {
            assert(ranges[index].end <= ranges[j - extra + 1].start);
        }
        if i < index && j >= index + extra {
            assert(ranges[i].end <= ranges[j - extra + 1].start);
        }
        if i >= index + extra {
            assert(ranges[i - extra + 1].end <= ranges[j - extra + 1].start);
        }
    }
}

/// A fragment of range `index` goes, in the table without that range, where
/// the range stood.
proof fn lemma_fragment_position(ranges: Seq<PhysRange>, index: int, fragment: PhysRange)
    requires
        sorted_disjoint(ranges),
        0 <= index < ranges.len(),
        ranges[index].start <= fragment.start < ranges[index].end,
    ensures
        insert_position(ranges.remove(index), fragment.start) == index,
{
    let removed = ranges.remove(index);
    assert forall|i: int| 0 <= i < index implies (#[trigger] removed[i]).start <= fragment.start by {
        assert(removed[i] == ranges[i]);
        assert(ranges[i].is_pages());
        assert(ranges[i].end <= ranges[index].start);
    }
    if index < removed.len() {
        assert(removed[index] == ranges[index + 1]);
        assert(ranges[index].end <= ranges[index + 1].start);
    }
    lemma_insert_position_is(removed, fragment.start, index);
}

/// The fragment after the run goes behind the fragment before it.
proof fn lemma_fragment_position_after(
    ranges: Seq<PhysRange>,
    index: int,
    before: PhysRange,
    after: PhysRange,
)
    requires
        sorted_disjoint(ranges),
        0 <= index < ranges.len(),
        before.start == ranges[index].start,
        before.start <= after.start < ranges[index].end,
    ensures
        insert_position(ranges.remove(index).insert(index, before), after.start) == index + 1,
{
    let table = ranges.remove(index).insert(index, before);
    assert forall|i: int| 0 <= i < index + 1 implies (#[trigger] table[i]).start <= after.start by {
        if i < index {
            assert(table[i] == ranges[i]);
            assert(ranges[i].is_pages());
            assert(ranges[i].end <= ranges[index].start);
        }
    }
    if index + 1 < table.len() {
        assert(table[index + 1] == ranges[index + 1]);
        assert(ranges[index].end <= ranges[index + 1].start);
    }
    lemma_insert_position_is(table, after.start, index + 1);
}

/// The total size of a sorted, disjoint table is at most the distance from
/// its first start to its last end.
pub proof fn lemma_total_size_fits(ranges: Seq<PhysRange>)
    requires
        sorted_disjoint(ranges),
    ensures
        ranges.len() > 0 ==> total_size(ranges) <= ranges.last().end - ranges[0].start,
        total_size(ranges) <= u64::MAX,
    decreases ranges.len(),
{
    if ranges.len() > 1 {
        let front = ranges.drop_last();
        assert forall|i: int, j: int| 0 <= i < j < front.len() implies (#[trigger] front[i]).end
            <= (#[trigger] front[j]).start by {
            assert(front[i] == ranges[i] && front[j] == ranges[j]);
        }
        assert forall|i: int| 0 <= i < front.len() implies (#[trigger] front[i]).is_pages() by {
            assert(front[i] == ranges[i]);
        }
        lemma_total_size_fits(front);
        assert(front.last() == ranges[ranges.len() - 2]);
        assert(ranges[ranges.len() - 2].end <= ranges[ranges.len() - 1].start);
        assert(front[0] == ranges[0]);
    } else if ranges.len() == 1 {
        assert(ranges.drop_last() =~= Seq::<PhysRange>::empty());
        assert(total_size(ranges.drop_last()) == 0);
        assert(ranges[0].is_pages());
    }
}

/// The total size of ranges is not negative if each range is not.
pub proof fn lemma_total_size_bounds(ranges: Seq<PhysRange>)
    requires
        forall|i: int| 0 <= i < ranges.len() ==> (#[trigger] ranges[i]).start <= ranges[i].end,
    ensures
        total_size(ranges) >= 0,
        forall|i: int| 0 <= i < ranges.len() ==> (#[trigger] ranges[i]).size() <= total_size(ranges),
    decreases ranges.len(),
{
    if ranges.len() > 0 {
        lemma_total_size_bounds(ranges.drop_last());
        assert forall|i: int| 0 <= i < ranges.len() implies (#[trigger] ranges[i]).size()
            <= total_size(ranges) by {
            if i < ranges.len() - 1 {
                assert(ranges.drop_last()[i] == ranges[i]);
            }
        }
    }
}

/// Inserting a range adds its size to the total.
pub proof fn lemma_total_size_insert(ranges: Seq<PhysRange>, at: int, range: PhysRange)
    requires
        0 <= at <= ranges.len(),
    ensures
        total_size(ranges.insert(at, range)) == total_size(ranges) + range.size(),
    decreases ranges.len(),
{
    let after = ranges.insert(at, range);
    if at == ranges.len() {
        assert(after.drop_last() =~= ranges);
    } else {
        assert(after.drop_last() =~= ranges.drop_last().insert(at, range));
        assert(after.last() == ranges.last());
        lemma_total_size_insert(ranges.drop_last(), at, range);
    }
}

/// Removing a range takes its size off the total.
pub proof fn lemma_total_size_remove(ranges: Seq<PhysRange>, at: int)
    requires
        0 <= at < ranges.len(),
    ensures
        total_size(ranges.remove(at)) == total_size(ranges) - ranges[at].size(),
    decreases ranges.len(),
{
    let after = ranges.remove(at);
    if at == ranges.len() - 1 {
        assert(after =~= ranges.drop_last());
    } else {
        assert(after.drop_last() =~= ranges.drop_last().remove(at));
        assert(after.last() == ranges.last());
        lemma_total_size_remove(ranges.drop_last(), at);
    }
}

/// The insert position is the first index whose range starts after
/// `start`, or the length if there is none.
pub proof fn lemma_insert_position(ranges: Seq<PhysRange>, start: u64)
    ensures
        0 <= insert_position(ranges, start) <= ranges.len(),
        forall|i: int|
            0 <= i < insert_position(ranges, start) ==> (#[trigger] ranges[i]).start <= start,
        insert_position(ranges, start) < ranges.len() ==> start < ranges[insert_position(
            ranges,
            start,
        )].start,
    decreases ranges.len(),
{
    if ranges.len() > 0 && start >= ranges[0].start {
        let rest = ranges.drop_first();
        lemma_insert_position(rest, start);
        assert forall|i: int| 0 <= i < insert_position(ranges, start) implies (#[trigger] ranges[i]).start
            <= start by {
            if i > 0 {
                assert(rest[i - 1] == ranges[i]);
            }
        }
        if insert_position(ranges, start) < ranges.len() {
            assert(rest[insert_position(rest, start)] == ranges[insert_position(ranges, start)]);
        }
    }
}

/// An index is the insert position if no range before it starts after
/// `start` and the range at it, if there is one, does.
pub proof fn lemma_insert_position_is(ranges: Seq<PhysRange>, start: u64, at: int)
    requires
        0 <= at <= ranges.len(),
        forall|i: int| 0 <= i < at ==> (#[trigger] ranges[i]).start <= start,
        at < ranges.len() ==> start < ranges[at].start,
    ensures
        insert_position(ranges, start) == at,
    decreases ranges.len(),
{
    if ranges.len() > 0 && at > 0 {
        let rest = ranges.drop_first();
        assert(ranges[0].start <= start);
        assert forall|i: int| 0 <= i < at - 1 implies (#[trigger] rest[i]).start <= start by {
            assert(rest[i] == ranges[i + 1]);
        }
        if at - 1 < rest.len() {
            assert(rest[at - 1] == ranges[at]);
        }
        lemma_insert_position_is(rest, start, at - 1);
    }
}

/// Two ranges have no byte in common.
pub open spec fn apart(a: PhysRange, b: PhysRange) -> bool {
    a.end <= b.start || b.end <= a.start
}

/// Inserting a range of pages that overlaps none of the ranges of a sorted,
/// disjoint table leaves the table sorted and disjoint, and it then covers
/// what it covered and the range.
pub proof fn lemma_insert_sorted(ranges: Seq<PhysRange>, range: PhysRange)
    requires
        sorted_disjoint(ranges),
        range.is_pages(),
        forall|i: int| 0 <= i < ranges.len() ==> apart(#[trigger] ranges[i], range),
    ensures
        sorted_disjoint(insert_sorted(ranges, range)),
        total_size(insert_sorted(ranges, range)) == total_size(ranges) + range.size(),
        forall|addr: int|
            covers(insert_sorted(ranges, range), addr) <==> covers(ranges, addr) || range.contains(
                addr,
            ),
{
    let at = insert_position(ranges, range.start);
    let after = insert_sorted(ranges, range);
    lemma_insert_position(ranges, range.start);
    lemma_total_size_insert(ranges, at, range);
    assert forall|i: int, j: int| 0 <= i < j < after.len() implies (#[trigger] after[i]).end <= (
    #[trigger] after[j]).start by {
        if j < at {
        } else if j == at {
            assert(apart(ranges[i], range));
        } else if i < at {
        } else if i == at {
            assert(apart(ranges[j - 1], range));
            if at < j - 1 {
                assert(ranges[at].end <= ranges[j - 1].start);
            }
        } else {
        }
    }
    lemma_covers_insert(ranges, at, range);
}

/// A table with a range inserted anywhere covers what it covered and the
/// range.
pub proof fn lemma_covers_insert(ranges: Seq<PhysRange>, at: int, range: PhysRange)
    requires
        0 <= at <= ranges.len(),
    ensures
        forall|addr: int|
            covers(ranges.insert(at, range), addr) <==> covers(ranges, addr) || range.contains(addr),
{
    let after = ranges.insert(at, range);
    assert forall|addr: int| covers(after, addr) <==> covers(ranges, addr) || range.contains(
        addr,
    ) by {
        if covers(after, addr) {
            let i = choose|i: int| 0 <= i < after.len() && (#[trigger] after[i]).contains(addr);
            if i < at {
                assert(ranges[i].contains(addr));
            } else if i > at {
                assert(ranges[i - 1].contains(addr));
            }
        }
        if covers(ranges, addr) {
            let i = choose|i: int| 0 <= i < ranges.len() && (#[trigger] ranges[i]).contains(addr);
            if i < at {
                assert(after[i].contains(addr));
            } else {
                assert(after[i + 1].contains(addr));
            }
        }
        if range.contains(addr) {
            assert(after[at].contains(addr));
        }
    }
}

/// A table with a range removed covers what it covered outside that range,
/// if the table is sorted and disjoint.
pub proof fn lemma_covers_remove(ranges: Seq<PhysRange>, at: int)
    requires
        0 <= at < ranges.len(),
        sorted_disjoint(ranges),
    ensures
        sorted_disjoint(ranges.remove(at)),
        forall|addr: int|
            covers(ranges.remove(at), addr) <==> covers(ranges, addr) && !ranges[at].contains(addr),
{
    let after = ranges.remove(at);
    assert forall|addr: int| covers(after, addr) <==> covers(ranges, addr) && !ranges[at].contains(
        addr,
    ) by {
        if covers(after, addr) {
            let i = choose|i: int| 0 <= i < after.len() && (#[trigger] after[i]).contains(addr);
            if i < at {
                assert(ranges[i].contains(addr));
                assert(ranges[i].end <= ranges[at].start);
            } else {
                assert(ranges[i + 1].contains(addr));
                assert(ranges[at].end <= ranges[i + 1].start);
            }
        }
        if covers(ranges, addr) && !ranges[at].contains(addr) {
            let i = choose|i: int| 0 <= i < ranges.len() && (#[trigger] ranges[i]).contains(addr);
            if i < at {
                assert(after[i].contains(addr));
            } else {
                assert(after[i - 1].contains(addr));
            }
        }
    }
}

/// The total size of a range followed by a table.
pub proof fn lemma_total_size_cons(first: PhysRange, rest: Seq<PhysRange>)
    ensures
        total_size(seq![first] + rest) == first.size() + total_size(rest),
    decreases rest.len(),
{
    let all = seq![first] + rest;
    if rest.len() == 0 {
        assert(all.drop_last() =~= Seq::<PhysRange>::empty());
        assert(total_size(all.drop_last()) == 0);
        assert(all.last() == first);
    } else {
        assert(all.drop_last() =~= seq![first] + rest.drop_last());
        assert(all.last() == rest.last());
        lemma_total_size_cons(first, rest.drop_last());
    }
}

/// Merging neighbours keeps a sorted, disjoint table sorted and disjoint,
/// and changes neither its total size nor what it covers.
#[verifier::rlimit(60)]
pub proof fn lemma_coalesced(ranges: Seq<PhysRange>)
    requires
        sorted_disjoint(ranges),
    ensures
        sorted_disjoint(coalesced(ranges)),
        total_size(coalesced(ranges)) == total_size(ranges),
        coalesced(ranges).len() <= ranges.len(),
        forall|addr: int| covers(coalesced(ranges), addr) <==> covers(ranges, addr),
        forall|k: int|
            0 <= k < coalesced(ranges).len() ==> (#[trigger] coalesced(ranges)[k]).start
                >= ranges[0].start,
    decreases ranges.len(),
{
    if ranges.len() >= 2 {
        let first = ranges[0];
        let second = ranges[1];
        let beyond = ranges.subrange(2, ranges.len() as int);
        assert(ranges =~= seq![first] + ranges.drop_first());
        assert(ranges.drop_first() =~= seq![second] + beyond);
        lemma_total_size_cons(first, ranges.drop_first());
        lemma_total_size_cons(second, beyond);
        if first.end == second.start {
            let merged = PhysRange { start: first.start, end: second.end };
            let next = seq![merged] + beyond;
            lemma_total_size_cons(merged, beyond);
            assert forall|i: int, j: int| 0 <= i < j < next.len() implies (#[trigger] next[i]).end
                <= (#[trigger] next[j]).start by {
                assert(next[j] == ranges[j + 1]);
                if i > 0 {
                    assert(next[i] == ranges[i + 1]);
                } else {
                    assert(ranges[1].end <= ranges[j + 1].start);
                }
            }
            assert forall|i: int| 0 <= i < next.len() implies (#[trigger] next[i]).is_pages() by {
                if i > 0 {
                    assert(next[i] == ranges[i + 1]);
                } else {
                    assert(ranges[0].is_pages() && ranges[1].is_pages());
                }
            }
            lemma_coalesced(next);
            assert forall|addr: int| covers(next, addr) <==> covers(ranges, addr) by {
                if covers(next, addr) {
                    let i = choose|i: int| 0 <= i < next.len() && (#[trigger] next[i]).contains(addr);
                    if i > 0 {
                        assert(ranges[i + 1].contains(addr));
                    } else if addr < first.end {
                        assert(ranges[0].contains(addr));
                    } else {
                        assert(ranges[1].contains(addr));
                    }
                }
                if covers(ranges, addr) {
                    let i = choose|i: int| 0 <= i < ranges.len() && (#[trigger] ranges[i]).contains(
                        addr,
                    );
                    if i >= 2 {
                        assert(next[i - 1].contains(addr));
                    } else {
                        assert(next[0].contains(addr));
                    }
                }
            }
            assert forall|addr: int| covers(coalesced(ranges), addr) <==> covers(ranges, addr) by {
                assert(covers(coalesced(next), addr) <==> covers(next, addr));
            }
        } else {
            let rest = ranges.drop_first();
            assert forall|i: int, j: int| 0 <= i < j < rest.len() implies (#[trigger] rest[i]).end
                <= (#[trigger] rest[j]).start by {
                assert(rest[i] == ranges[i + 1] && rest[j] == ranges[j + 1]);
            }
            assert forall|i: int| 0 <= i < rest.len() implies (#[trigger] rest[i]).is_pages() by {
                assert(rest[i] == ranges[i + 1]);
            }
            lemma_coalesced(rest);
            let merged_rest = coalesced(rest);
            let all = seq![first] + merged_rest;
            lemma_total_size_cons(first, merged_rest);
            assert(ranges[0].is_pages() && ranges[1].is_pages());
            assert(ranges[0].end <= ranges[1].start);
            assert forall|i: int, j: int| 0 <= i < j < all.len() implies (#[trigger] all[i]).end <= (
            #[trigger] all[j]).start by {
                assert(all[j] == merged_rest[j - 1]);
                if i > 0 {
                    assert(all[i] == merged_rest[i - 1]);
                }
            }
            assert forall|i: int| 0 <= i < all.len() implies (#[trigger] all[i]).is_pages() by {
                if i > 0 {
                    assert(all[i] == merged_rest[i - 1]);
                }
            }
            assert forall|k: int| 0 <= k < all.len() implies (#[trigger] all[k]).start
                >= ranges[0].start by {
                if k > 0 {
                    assert(all[k] == merged_rest[k - 1]);
                }
            }
            assert forall|addr: int| covers(all, addr) <==> covers(ranges, addr) by {
                if covers(all, addr) {
                    let i = choose|i: int| 0 <= i < all.len() && (#[trigger] all[i]).contains(addr);
                    if i > 0 {
                        assert(merged_rest[i - 1].contains(addr));
                        assert(covers(merged_rest, addr));
                        assert(covers(rest, addr));
                        let k = choose|k: int| 0 <= k < rest.len() && (#[trigger] rest[k]).contains(
                            addr,
                        );
                        assert(ranges[k + 1].contains(addr));
                    } else {
                        assert(ranges[0].contains(addr));
                    }
                }
                if covers(ranges, addr) {
                    let i = choose|i: int| 0 <= i < ranges.len() && (#[trigger] ranges[i]).contains(
                        addr,
                    );
                    if i > 0 {
                        assert(rest[i - 1].contains(addr));
                        assert(covers(rest, addr));
                        assert(covers(merged_rest, addr));
                        let k = choose|k: int|
                            0 <= k < merged_rest.len() && (#[trigger] merged_rest[k]).contains(addr);
                        assert(all[k + 1].contains(addr));
                    } else {
                        assert(all[0].contains(addr));
                    }
                }
            }
        }
    }
}

/// The first fit, if there is one, is a range of the table in which the run
/// fits.
pub proof fn lemma_first_fit(ranges: Seq<PhysRange>, size: int, alignment: int, from: int)
    requires
        from >= 0,
    ensures
        match first_fit(ranges, size, alignment, from) {
            Some(index) => from <= index < ranges.len() && fits_at(ranges, index, size, alignment),
            None => true,
        },
    decreases ranges.len() - from,
{
    if from < ranges.len() && !fits_at(ranges, from, size, alignment) {
        lemma_first_fit(ranges, size, alignment, from + 1);
    }
}

/// Allocating a run and freeing it again restores the free memory: the
/// table is sorted and disjoint, has the total size it had, and covers
/// exactly the bytes it covered. (The table must have room to take the run
/// back.)
#[verifier::rlimit(50)]
pub proof fn lemma_allocate_then_free_restores(ranges: Seq<PhysRange>, size: int, alignment: int)
    requires
        sorted_disjoint(ranges),
        page_alignment(alignment),
        size % 4096 == 0,
        first_fit(ranges, size, alignment, 0) is Some,
        cut(
            ranges,
            first_fit(ranges, size, alignment, 0)->Some_0,
            align_up(
                ranges[first_fit(ranges, size, alignment, 0)->Some_0].start as int,
                alignment,
            ),
            size,
        ).len() < MAX_RANGES,
    ensures
        ({
            let index = first_fit(ranges, size, alignment, 0)->Some_0;
            let start = align_up(ranges[index].start as int, alignment);
            let taken = cut(ranges, index, start, size);
            let freed = PhysRange { start: start as u64, end: (start + size) as u64 };
            let back = coalesced(insert_sorted(taken, freed));
            &&& sorted_disjoint(back)
            &&& total_size(back) == total_size(ranges)
            &&& forall|addr: int| covers(back, addr) <==> covers(ranges, addr)
        }),
{
    lemma_first_fit(ranges, size, alignment, 0);
    let index = first_fit(ranges, size, alignment, 0)->Some_0;
    let range = ranges[index];
    assert(range.is_pages());
    let start = align_up(range.start as int, alignment);
    lemma_align_up(range.start as int, alignment);
    lemma_aligned_is_page(range.start as int, alignment);
    lemma_cut(ranges, index, start, size);
    let taken = cut(ranges, index, start, size);
    let freed = PhysRange { start: start as u64, end: (start + size) as u64 };
    assert forall|i: int| 0 <= i < taken.len() implies apart(#[trigger] taken[i], freed) by {
        lemma_range_of_cut(ranges, index, start, size, i);
    }
    lemma_insert_sorted(taken, freed);
    lemma_coalesced(insert_sorted(taken, freed));
    let back = coalesced(insert_sorted(taken, freed));
    assert forall|addr: int| covers(back, addr) <==> covers(ranges, addr) by {
        if start <= addr < start + size {
            assert(range.contains(addr));
            assert(covers(ranges, addr));
        }
    }
}

/// Each range of the table after a cut lies in a range of the table before
/// it, and apart from the run.
proof fn lemma_range_of_cut(ranges: Seq<PhysRange>, index: int, start: int, size: int, i: int)
    requires
        sorted_disjoint(ranges),
        0 <= index < ranges.len(),
        ranges[index].start <= start,
        size > 0,
        start + size <= ranges[index].end,
        0 <= i < cut(ranges, index, start, size).len(),
    ensures
        cut(ranges, index, start, size)[i].end <= start || start + size <= cut(
            ranges,
            index,
            start,
            size,
        )[i].start,
{
    let result = cut(ranges, index, start, size);
    let range = ranges[index];
    let extra = result.len() - (ranges.len() - 1);
    assert(ranges[index].is_pages());
    if i < index {
        assert(result[i] == ranges[i]);
        assert(ranges[i].end <= ranges[index].start);
    } else if i >= index + extra {
        assert(result[i] == ranges[i - extra + 1]);
        assert(ranges[index].end <= ranges[i - extra + 1].start);
    }
}

} // verus!
