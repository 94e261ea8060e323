//! Slab caches: fixed-size objects carved out of single pages.
//!
//! A slab is one page. Its first four words are the header: the next slab
//! of the cache's partial list, the head of the slab's list of free
//! objects, the number of objects in use, and the object size. The objects
//! follow the header; a free object holds, in its first word, the address
//! of the next free object of its slab. Zero stands for no address.

use crate::mm::window::{page_base, WordMemory};
use vstd::prelude::*;

verus! {

/// A source of whole pages, addressed through the direct window.
///
/// A provider keeps its own records inside the pages it holds, so it is
/// described by two things: which pages it holds, and an invariant over the
/// memory it keeps its records in. It promises to touch no word outside the
/// pages it holds, and its invariant depends on no other word: callers state
/// that with [`provider_ok`]. An implementation outside verified code need
/// not define the two.
pub trait PageProvider: Sized {
    /// Whether the page that starts at `page` is in the provider's hands.
    open spec fn holds(&self, page: u64) -> bool {
        arbitrary()
    }

    /// The provider's invariant over the memory that stores its records.
    open spec fn inv(&self, mem: Map<u64, u64>) -> bool {
        arbitrary()
    }

    /// Hands out one page, or `None` when none is left.
    ///
    /// The page was held and no longer is; nothing else becomes held, and no
    /// word outside the pages held before the call changes.
    fn alloc_page<M: WordMemory>(&mut self, mem: &mut M) -> (page: Option<u64>)
        requires
            forall|other: Map<u64, u64>|
                (forall|addr: u64|
                    old(self).holds(page_base(addr)) ==> #[trigger] other[addr] == old(mem)@[addr])
                    ==> #[trigger] old(self).inv(other),
        ensures
            forall|other: Map<u64, u64>|
                (forall|addr: u64|
                    final(self).holds(page_base(addr)) ==> #[trigger] other[addr] == final(mem)@[addr])
                    ==> #[trigger] final(self).inv(other),
            forall|addr: u64|
                !old(self).holds(page_base(addr)) ==> #[trigger] final(mem)@[addr] == old(
                    mem,
                )@[addr],
            forall|q: u64| #[trigger] final(self).holds(q) ==> old(self).holds(q),
            match page {
                Some(p) => p % 4096 == 0 && p != 0 && p <= u64::MAX - 4096 && old(self).holds(p)
                    && !final(self).holds(p),
                None => true,
            },
    ;

    /// Takes back a page that the provider does not hold.
    ///
    /// No page other than `page` becomes held, and no word outside `page` and
    /// the pages held before the call changes.
    fn free_page<M: WordMemory>(&mut self, mem: &mut M, page: u64)
        requires
            forall|other: Map<u64, u64>|
                (forall|addr: u64|
                    old(self).holds(page_base(addr)) ==> #[trigger] other[addr] == old(mem)@[addr])
                    ==> #[trigger] old(self).inv(other),
            page % 4096 == 0,
            page != 0,
            page <= u64::MAX - 4096,
            !old(self).holds(page),
        ensures
            forall|other: Map<u64, u64>|
                (forall|addr: u64|
                    final(self).holds(page_base(addr)) ==> #[trigger] other[addr] == final(mem)@[addr])
                    ==> #[trigger] final(self).inv(other),
            forall|addr: u64|
                !old(self).holds(page_base(addr)) && page_base(addr) != page
                    ==> #[trigger] final(mem)@[addr] == old(mem)@[addr],
            forall|q: u64| #[trigger] final(self).holds(q) ==> old(self).holds(q) || q == page,
    ;
}

/// `other` holds, in every page that the provider holds, what `mem` holds.
pub open spec fn agrees_on_held<P: PageProvider>(
    provider: &P,
    mem: Map<u64, u64>,
    other: Map<u64, u64>,
) -> bool {
    forall|addr: u64| provider.holds(page_base(addr)) ==> #[trigger] other[addr] == mem[addr]
}

/// The provider's invariant holds of `mem` and depends on no word outside
/// the pages that the provider holds: it holds of every memory that agrees
/// with `mem` on those pages.
pub open spec fn provider_ok<P: PageProvider>(provider: &P, mem: Map<u64, u64>) -> bool {
    forall|other: Map<u64, u64>|
        agrees_on_held(provider, mem, other) ==> #[trigger] provider.inv(other)
}

/// A provider stays in order while the pages that it holds stay as they
/// are.
pub proof fn lemma_provider_ok_kept<P: PageProvider>(
    provider: &P,
    before: Map<u64, u64>,
    after: Map<u64, u64>,
)
    requires
        provider_ok(provider, before),
        forall|addr: u64|
            provider.holds(page_base(addr)) ==> #[trigger] after[addr] == before[addr],
    ensures
        provider_ok(provider, after),
        provider.inv(after),
{
    assert forall|other: Map<u64, u64>| agrees_on_held(provider, after, other) implies #[trigger] provider.inv(
        other,
    ) by {
        assert(agrees_on_held(provider, before, other));
    }
    assert(agrees_on_held(provider, after, after));
}

/// Size of a page.
pub const PAGE_SIZE: u64 = 4096;

/// Size of the slab header in bytes.
pub const HEADER_SIZE: u64 = 32;

/// Offset of the head of the free list in the header.
pub const FREELIST_OFFSET: u64 = 8;

/// Offset of the count of objects in use in the header.
pub const IN_USE_OFFSET: u64 = 16;

/// Offset of the object size in the header.
pub const OBJECT_SIZE_OFFSET: u64 = 24;

/// The header of a slab, as it lies at the start of the slab's page.
#[derive(Debug, Clone, Copy, PartialEq, Eq, Structural)]
pub struct SlabHeader {
    /// Next slab of the partial list, or zero.
    pub next_slab: u64,
    /// First free object of the slab, or zero.
    pub freelist: u64,
    /// Number of objects in use.
    pub in_use: u64,
    /// Size of the slab's objects.
    pub object_size: u64,
}

/// A free object, as it lies in its slot: the address of the next free
/// object of the slab, or zero.
#[derive(Debug, Clone, Copy, PartialEq, Eq, Structural)]
pub struct FreeObject {
    pub next: u64,
}

/// An object size that a cache can serve: a multiple of the word size, at
/// least one word and at most half a page.
pub open spec fn valid_object_size(size: u64) -> bool {
    size % 8 == 0 && 8 <= size <= 2048
}

/// Whether `size` is a power of two.
pub open spec fn is_power_of_two(size: u64) -> bool {
    size != 0 && size & ((size - 1) as u64) == 0
}

/// Offset of the first object in a slab: the header size, rounded up to the
/// object size if that is a power of two.
pub open spec fn object_start(size: u64) -> int {
    if is_power_of_two(size) && 32int % (size as int) != 0 {
        32 + size - 32int % (size as int)
    } else {
        32
    }
}

/// Number of objects in a slab.
pub open spec fn capacity(size: u64) -> int {
    (4096 - object_start(size)) / (size as int)
}

/// Address of slot `index` of the slab at `page`.
pub open spec fn slot(page: u64, size: u64, index: int) -> int {
    page + object_start(size) + index * size
}

/// Where the objects of a slab start and how many there are.
pub proof fn lemma_layout(size: u64)
    requires
        valid_object_size(size),
    ensures
        32 <= object_start(size) <= 2048,
        object_start(size) % 8 == 0,
        1 <= capacity(size) <= 508,
        capacity(size) * size <= 4096 - object_start(size),
{
    let start = object_start(size);
    let sz = size as int;
    vstd::arithmetic::div_mod::lemma_mod_bound(32, sz);
    vstd::arithmetic::div_mod::lemma_fundamental_div_mod(32, sz);
    if is_power_of_two(size) && 32int % sz != 0 {
        let q = 32int / sz;
        assert(q >= 0) by (nonlinear_arith)
            requires
                sz > 0,
                q == 32int / sz,
        ;
        lemma_powers_of_two(size);
        assert(sz > 32);
        assert(q == 0) by (nonlinear_arith)
            requires
                32 == sz * q + 32int % sz,
                0 <= 32int % sz,
                sz > 32,
                q >= 0,
        ;
        assert(start == sz);
    }
    let avail = 4096 - start;
    let cap = capacity(size);
    vstd::arithmetic::div_mod::lemma_fundamental_div_mod(avail, sz);
    vstd::arithmetic::div_mod::lemma_mod_bound(avail, sz);
    assert(cap * sz <= avail && avail < (cap + 1) * sz) by (nonlinear_arith)
        requires
            avail == sz * cap + avail % sz,
            0 <= avail % sz < sz,
    ;
    assert(cap >= 1 && cap <= 508) by (nonlinear_arith)
        requires
            cap * sz <= avail,
            avail < (cap + 1) * sz,
            8 <= sz <= 2048,
            2048 <= avail <= 4064,
    ;
}

/// Facts about the slots of a slab: each lies behind the header and inside
/// the page, is word aligned, and two slots do not overlap.
pub proof fn lemma_slots(page: u64, size: u64, i: int, j: int)
    requires
        valid_object_size(size),
        page % 4096 == 0,
        page <= u64::MAX - 4096,
        0 <= i < capacity(size),
        0 <= j < capacity(size),
    ensures
        32 <= object_start(size) <= 2048,
        object_start(size) % 8 == 0,
        1 <= capacity(size) <= 508,
        page + 32 <= slot(page, size, i),
        slot(page, size, i) + size <= page + 4096,
        slot(page, size, i) % 8 == 0,
        slot(page, size, i) != 0,
        page_base(slot(page, size, i) as u64) == page,
        i != j ==> slot(page, size, i) != slot(page, size, j),
        i < j ==> slot(page, size, i) + size <= slot(page, size, j),
{
    lemma_layout(size);
    let start = object_start(size);
    let sz = size as int;
    let avail = 4096 - start;
    let cap = capacity(size);
    assert((i + 1) * sz <= cap * sz && 0 <= i * sz) by (nonlinear_arith)
        requires
            0 <= i < cap,
            sz > 0,
    ;
    assert((i * sz) % 8 == 0) by {
        lemma_multiple_of_word(i, sz);
    }
    lemma_page_is_word(page);
    assert(i * sz + sz == (i + 1) * sz) by (nonlinear_arith);
    lemma_inside_page(page, (start + i * sz) as u64);
    if i < j {
        assert((i + 1) * sz <= j * sz) by (nonlinear_arith)
            requires
                i < j,
                sz > 0,
        ;
    }
    if j < i {
        assert((j + 1) * sz <= i * sz) by (nonlinear_arith)
            requires
                j < i,
                sz > 0,
        ;
        assert(j * sz + sz == (j + 1) * sz) by (nonlinear_arith);
    }
}

/// The powers of two among the object sizes.
proof fn lemma_powers_of_two(size: u64)
    by (bit_vector)
    requires
        size != 0,
        size & ((size - 1) as u64) == 0,
        8 <= size <= 2048,
    ensures
        size == 8 || size == 16 || size == 32 || size == 64 || size == 128 || size == 256 || size
            == 512 || size == 1024 || size == 2048,
{
}

/// A multiple of a multiple of eight is a multiple of eight.
proof fn lemma_multiple_of_word(i: int, size: int)
    requires
        size % 8 == 0,
        size > 0,
        i >= 0,
    ensures
        (i * size) % 8 == 0,
{
    vstd::arithmetic::div_mod::lemma_fundamental_div_mod(size, 8);
    let q = size / 8;
    assert(i * size == 8 * (i * q)) by (nonlinear_arith)
        requires
            size == 8 * q,
    ;
    vstd::arithmetic::div_mod::lemma_mod_multiples_basic(i * q, 8);
    assert((i * q) * 8 == 8 * (i * q)) by (nonlinear_arith);
}

/// A page address is word aligned.
proof fn lemma_page_is_word(page: u64)
    by (bit_vector)
    requires
        page % 4096 == 0,
    ensures
        page % 8 == 0,
{
}

/// An address inside a page has that page as its page.
proof fn lemma_inside_page(page: u64, within: u64)
    by (bit_vector)
    requires
        page % 4096 == 0,
        page <= u64::MAX - 4096,
        within < 4096,
    ensures
        ((page + within) as u64 - ((page + within) as u64) % 4096) as u64 == page,
        ((page + within) as u64) % 4096 <= (page + within) as u64,
        page % 8 == 0,
        within % 8 == 0 ==> ((page + within) as u64) % 8 == 0,
{
}

/// The first page of a list of slabs, or zero.
pub open spec fn first_or_zero(list: Seq<u64>) -> u64 {
    if list.len() > 0 {
        list[0]
    } else {
        0
    }
}

/// The address of the free object at place `j` of a slab's free list, or
/// zero past its end.
pub open spec fn free_at(page: u64, size: u64, free: Seq<int>, j: int) -> u64 {
    if 0 <= j < free.len() {
        slot(page, size, free[j]) as u64
    } else {
        0
    }
}

/// The free object at place `j` of the free list holds the address of the
/// one at place `j + 1`.
pub open spec fn free_link_ok(mem: Map<u64, u64>, page: u64, size: u64, free: Seq<int>, j: int) -> bool {
    mem[free_at(page, size, free, j)] == free_at(page, size, free, j + 1)
}

/// The page at `page` is a slab of objects of `size` whose free slots are
/// `free`, in list order: at least one object is in use, the header says
/// so, and the free objects are linked in that order.
pub open spec fn slab_ok(mem: Map<u64, u64>, page: u64, size: u64, free: Seq<int>) -> bool {
    &&& page % 4096 == 0
    &&& page != 0
    &&& page <= u64::MAX - 4096
    &&& free.len() < capacity(size)
    &&& free.no_duplicates()
    &&& forall|j: int| 0 <= j < free.len() ==> 0 <= #[trigger] free[j] < capacity(size)
    &&& mem[(page + 8) as u64] == free_at(page, size, free, 0)
    &&& mem[(page + 16) as u64] == capacity(size) - free.len()
    &&& mem[(page + 24) as u64] == size
    &&& forall|j: int| 0 <= j < free.len() ==> #[trigger] free_link_ok(mem, page, size, free, j)
}

/// The slab at place `i` of the partial list is a slab of the cache with a
/// free object, and its header holds the address of the next slab of the
/// list.
pub open spec fn partial_ok(
    mem: Map<u64, u64>,
    slabs: Map<u64, Seq<int>>,
    partial: Seq<u64>,
    i: int,
) -> bool {
    &&& slabs.contains_key(partial[i])
    &&& slabs[partial[i]].len() > 0
    &&& mem[partial[i]] == (if i + 1 < partial.len() {
        partial[i + 1]
    } else {
        0
    })
    &&& partial[i] % 4096 == 0
    &&& partial[i] != 0
}

/// A slab cache for objects of one size.
pub struct SCache {
    partial: u64,
    size: u64,
    partial_list: Ghost<Seq<u64>>,
    slabs: Ghost<Map<u64, Seq<int>>>,
}

impl SCache {
    /// Size of the cache's objects.
    pub closed spec fn object_size(&self) -> u64 {
        self.size
    }

    /// The slabs with free objects, in list order.
    pub closed spec fn partial_slabs(&self) -> Seq<u64> {
        self.partial_list@
    }

    /// The slabs of the cache, each with its free slots in list order.
    pub closed spec fn slabs(&self) -> Map<u64, Seq<int>> {
        self.slabs@
    }

    /// The head of the partial list.
    pub closed spec fn head(&self) -> u64 {
        self.partial
    }

    /// Whether `obj` is an object of the cache that is in use: a slot of
    /// one of its slabs that is not free.
    pub open spec fn is_allocated(&self, obj: u64) -> bool {
        exists|i: int|
            self.slabs().contains_key(page_base(obj)) && 0 <= i < capacity(self.object_size())
                && obj == #[trigger] slot(page_base(obj), self.object_size(), i)
                && !self.slabs()[page_base(obj)].contains(i)
    }

    /// The cache is consistent with memory: the partial list links the
    /// slabs that have free objects, and every header and free list is as
    /// the cache records it.
    pub open spec fn shape(&self, mem: Map<u64, u64>) -> bool {
        &&& valid_object_size(self.object_size())
        &&& self.head() == first_or_zero(self.partial_slabs())
        &&& self.partial_slabs().no_duplicates()
        &&& forall|i: int|
            0 <= i < self.partial_slabs().len() ==> #[trigger] partial_ok(
                mem,
                self.slabs(),
                self.partial_slabs(),
                i,
            )
        &&& forall|page: u64| #[trigger]
            self.slabs().contains_key(page) ==> {
                &&& slab_ok(mem, page, self.object_size(), self.slabs()[page])
                &&& self.slabs()[page].len() > 0 ==> self.partial_slabs().contains(page)
            }
    }

    /// The cache is consistent with memory and with the provider: it has
    /// its shape, and every slab is out of the provider's hands.
    pub open spec fn wf<P: PageProvider>(&self, mem: Map<u64, u64>, provider: &P) -> bool {
        &&& self.shape(mem)
        &&& forall|page: u64| #[trigger] self.slabs().contains_key(page) ==> !provider.holds(page)
    }

    /// A cache for objects of `size` bytes, without slabs.
    pub fn new(size: u64) -> (cache: Self)
        ensures
            cache.object_size() == size,
            cache.partial_slabs() == Seq::<u64>::empty(),
            cache.slabs() == Map::<u64, Seq<int>>::empty(),
            cache.head() == 0,
    {
        SCache {
            partial: 0,
            size,
            partial_list: Ghost(Seq::empty()),
            slabs: Ghost(Map::empty()),
        }
    }

    /// A cache without slabs has its shape in any memory, if its object
    /// size is valid.
    pub proof fn lemma_empty_has_shape(&self, mem: Map<u64, u64>)
        requires
            valid_object_size(self.object_size()),
            self.partial_slabs() == Seq::<u64>::empty(),
            self.slabs() == Map::<u64, Seq<int>>::empty(),
            self.head() == 0,
        ensures
            self.shape(mem),
    {
    }

    /// A cache without slabs is consistent with any memory and provider, if
    /// its object size is valid.
    pub proof fn lemma_empty_is_wf<P: PageProvider>(&self, mem: Map<u64, u64>, provider: &P)
        requires
            valid_object_size(self.object_size()),
            self.partial_slabs() == Seq::<u64>::empty(),
            self.slabs() == Map::<u64, Seq<int>>::empty(),
            self.head() == 0,
        ensures
            self.wf(mem, provider),
    {
        self.lemma_empty_has_shape(mem);
    }
}

/// A slab stays as it is while the words of its page behind the first stay
/// as they are.
pub proof fn lemma_slab_unchanged(
    mem: Map<u64, u64>,
    after: Map<u64, u64>,
    page: u64,
    size: u64,
    free: Seq<int>,
)
    requires
        valid_object_size(size),
        slab_ok(mem, page, size, free),
        forall|a: u64| page_base(a) == page && a != page ==> #[trigger] after[a] == mem[a],
    ensures
        slab_ok(after, page, size, free),
{
    lemma_inside_page(page, 8);
    lemma_inside_page(page, 16);
    lemma_inside_page(page, 24);
    if free.len() > 0 {
        lemma_slots(page, size, free[0], free[0]);
    }
    assert forall|j: int| 0 <= j < free.len() implies #[trigger] free_link_ok(
        after,
        page,
        size,
        free,
        j,
    ) by {
        assert(free_link_ok(mem, page, size, free, j));
        lemma_slots(page, size, free[j], free[j]);
    }
}

/// After the first free object of a slab has been taken, the slab is as
/// the rest of its free list says.
proof fn lemma_after_take(
    mem: Map<u64, u64>,
    after: Map<u64, u64>,
    page: u64,
    size: u64,
    free: Seq<int>,
)
    requires
        valid_object_size(size),
        slab_ok(mem, page, size, free),
        free.len() > 0,
        after[(page + 8) as u64] == free_at(page, size, free, 1),
        after[(page + 16) as u64] == capacity(size) - free.len() + 1,
        forall|a: u64|
            a != page && a != page + 8 && a != page + 16 ==> #[trigger] after[a] == mem[a],
    ensures
        slab_ok(after, page, size, free.drop_first()),
        forall|i: int| free.drop_first().contains(i) <==> free.contains(i) && i != free[0],
{
    let rest = free.drop_first();
    assert forall|j: int| 0 <= j < rest.len() implies 0 <= #[trigger] rest[j] < capacity(size) by {
        assert(rest[j] == free[j + 1]);
    }
    assert forall|j: int| 0 <= j < rest.len() implies #[trigger] free_link_ok(
        after,
        page,
        size,
        rest,
        j,
    ) by {
        assert(free_link_ok(mem, page, size, free, j + 1));
        assert(rest[j] == free[j + 1]);
        if j + 1 < rest.len() {
            assert(rest[j + 1] == free[j + 2]);
        }
        lemma_slots(page, size, free[j + 1], free[j + 1]);
    }
    if rest.len() > 0 {
        assert(rest[0] == free[1]);
    }
    assert(rest.no_duplicates()) by {
        assert forall|i: int, j: int| 0 <= i < rest.len() && 0 <= j < rest.len() && i != j implies rest[i]
            != rest[j] by {
            assert(rest[i] == free[i + 1] && rest[j] == free[j + 1]);
        }
    }
    assert forall|i: int| rest.contains(i) <==> free.contains(i) && i != free[0] by {
        if rest.contains(i) {
            let j = choose|j: int| 0 <= j < rest.len() && rest[j] == i;
            assert(free[j + 1] == i);
        }
        if free.contains(i) && i != free[0] {
            let j = choose|j: int| 0 <= j < free.len() && free[j] == i;
            assert(rest[j - 1] == i);
        }
    }
}

/// The free slots of a slab that has just been made and has given away its
/// first object: the slots from the second on, in address order.
pub open spec fn fresh_free(size: u64) -> Seq<int> {
    Seq::new((capacity(size) - 1) as nat, |j: int| j + 1)
}

/// A page whose slots are linked in address order, and whose header says
/// that the first is in use, is a slab.
proof fn lemma_fresh_slab(mem: Map<u64, u64>, page: u64, size: u64)
    requires
        valid_object_size(size),
        page % 4096 == 0,
        page != 0,
        page <= u64::MAX - 4096,
        forall|k: int|
            1 <= k < capacity(size) ==> #[trigger] mem[slot(page, size, k) as u64] == (if k + 1
                < capacity(size) {
                slot(page, size, k + 1) as u64
            } else {
                0
            }),
        mem[(page + 8) as u64] == (if capacity(size) > 1 {
            slot(page, size, 1) as u64
        } else {
            0
        }),
        mem[(page + 16) as u64] == 1,
        mem[(page + 24) as u64] == size,
    ensures
        slab_ok(mem, page, size, fresh_free(size)),
        !fresh_free(size).contains(0),
{
    let free = fresh_free(size);
    lemma_layout(size);
    assert forall|j: int| 0 <= j < free.len() implies #[trigger] free_link_ok(
        mem,
        page,
        size,
        free,
        j,
    ) by {
        lemma_slots(page, size, j + 1, j + 1);
        assert(mem[slot(page, size, j + 1) as u64] == (if j + 2 < capacity(size) {
            slot(page, size, j + 2) as u64
        } else {
            0
        }));
    }
}

/// The header that memory holds at `page`.
pub open spec fn header_at(mem: Map<u64, u64>, page: u64) -> SlabHeader {
    SlabHeader {
        next_slab: mem[page],
        freelist: mem[(page + 8) as u64],
        in_use: mem[(page + 16) as u64],
        object_size: mem[(page + 24) as u64],
    }
}

/// Reads the header of the slab at `page`.
pub fn read_header<M: WordMemory>(mem: &M, page: u64) -> (header: SlabHeader)
    requires
        page % 4096 == 0,
        page <= u64::MAX - 4096,
    ensures
        header == header_at(mem@, page),
{
    proof {
        lemma_inside_page(page, 0);
        lemma_inside_page(page, 8);
        lemma_inside_page(page, 16);
        lemma_inside_page(page, 24);
    }
    SlabHeader {
        next_slab: mem.read(page),
        freelist: mem.read(page + FREELIST_OFFSET),
        in_use: mem.read(page + IN_USE_OFFSET),
        object_size: mem.read(page + OBJECT_SIZE_OFFSET),
    }
}

/// Reads the free object at `addr`.
pub fn read_free_object<M: WordMemory>(mem: &M, addr: u64) -> (object: FreeObject)
    requires
        addr % 8 == 0,
    ensures
        object == (FreeObject { next: mem@[addr] }),
{
    FreeObject { next: mem.read(addr) }
}

/// The offset of the first object and the number of objects of a slab.
fn slab_layout(size: u64) -> (layout: (u64, u64))
    requires
        valid_object_size(size),
    ensures
        layout.0 == object_start(size),
        layout.1 == capacity(size),
        1 <= layout.1 <= 508,
        32 <= layout.0 <= 2048,
{
    proof {
        lemma_layout(size);
    }
    let rem = HEADER_SIZE % size;
    let power_of_two = size & (size - 1) == 0;
    let start = if power_of_two && rem != 0 {
        HEADER_SIZE + (size - rem)
    } else {
        HEADER_SIZE
    };
    (start, (PAGE_SIZE - start) / size)
}

/// What an allocation does to a cache and returns.
///
/// If the partial list is not empty, the first free object of its first
/// slab is returned and leaves that slab's free list, the slab leaves the
/// partial list if that was its last free object, and the provider is not
/// touched. Otherwise, if an object is returned, it is the first slot of a
/// page that the provider held and gave up; the page is a slab of the cache
/// with the other slots free, and is the partial list if there are any.
pub open spec fn allocation_effect<P: PageProvider>(
    before: SCache,
    provider_before: &P,
    object: Option<u64>,
    after: SCache,
    provider_after: &P,
) -> bool {
    &&& before.partial_slabs().len() > 0 ==> {
        let page = before.partial_slabs()[0];
        let free = before.slabs()[page];
        &&& object == Some(free_at(page, before.object_size(), free, 0))
        &&& after.slabs() == before.slabs().insert(page, free.drop_first())
        &&& after.partial_slabs() == (if free.len() == 1 {
            before.partial_slabs().drop_first()
        } else {
            before.partial_slabs()
        })
        &&& forall|q: u64| provider_after.holds(q) == provider_before.holds(q)
    }
    &&& before.partial_slabs().len() == 0 ==> match object {
        Some(obj) => {
            let page = page_base(obj);
            &&& provider_before.holds(page)
            &&& !provider_after.holds(page)
            &&& obj == slot(page, before.object_size(), 0)
            &&& after.slabs() == before.slabs().insert(page, fresh_free(before.object_size()))
            &&& after.partial_slabs() == (if capacity(before.object_size()) > 1 {
                seq![page]
            } else {
                Seq::<u64>::empty()
            })
        },
        None => after.slabs() == before.slabs() && after.partial_slabs() == before.partial_slabs(),
    }
}

/// What freeing the object at `obj` does to a cache.
///
/// The object's slot goes to the front of its slab's free list. If that
/// leaves no object of the slab in use, the slab leaves the cache and its
/// partial list. Otherwise the slab joins the partial list at the front if
/// its free list was empty, and the provider is not touched.
pub open spec fn release_effect<P: PageProvider>(
    before: SCache,
    provider_before: &P,
    obj: u64,
    after: SCache,
    provider_after: &P,
) -> bool {
    let page = page_base(obj);
    let size = before.object_size();
    let free = before.slabs()[page];
    let index = slot_index(page, size, obj);
    if free.len() + 1 == capacity(size) {
        &&& after.slabs() == before.slabs().remove(page)
        &&& after.partial_slabs() == without(before.partial_slabs(), page)
    } else {
        &&& after.slabs() == before.slabs().insert(page, seq![index] + free)
        &&& after.partial_slabs() == (if free.len() == 0 {
            seq![page] + before.partial_slabs()
        } else {
            before.partial_slabs()
        })
        &&& forall|q: u64| provider_after.holds(q) == provider_before.holds(q)
    }
}

impl SCache {
    /// Allocates an object and returns its address.
    ///
    /// If a slab has a free object, the first free object of the first such
    /// slab is taken, and the slab leaves the partial list if that was its
    /// last. Otherwise a page is requested from the provider and made a
    /// slab: its objects are linked in address order, the first is taken,
    /// and the slab joins the partial list if objects remain. `None` is
    /// returned, and nothing changes, if the provider has no page.
    #[verifier::rlimit(50)]
    pub fn allocate<P: PageProvider, M: WordMemory>(&mut self, mem: &mut M, provider: &mut P) -> (object:
        Option<u64>)
        requires
            old(self).wf(old(mem)@, old(provider)),
            provider_ok(old(provider), old(mem)@),
        ensures
            final(self).wf(final(mem)@, final(provider)),
            provider_ok(final(provider), final(mem)@),
            final(self).object_size() == old(self).object_size(),
            forall|q: u64| #[trigger] final(provider).holds(q) ==> old(provider).holds(q),
            forall|page: u64| #[trigger]
                final(self).slabs().contains_key(page) ==> old(self).slabs().contains_key(page)
                    || old(provider).holds(page),
            allocation_effect(*old(self), old(provider), object, *final(self), final(provider)),
            forall|other: u64| old(self).is_allocated(other) ==> #[trigger] final(self).is_allocated(other),
            match object {
                Some(obj) => {
                    let page = page_base(obj);
                    &&& !old(self).is_allocated(obj)
                    &&& final(self).is_allocated(obj)
                    &&& final(self).slabs().contains_key(page)
                    &&& page + 32 <= obj
                    &&& obj + old(self).object_size() <= page + 4096
                    &&& obj % 8 == 0
                    &&& final(mem)@[(page + 24) as u64] == old(self).object_size()
                },
                None => true,
            },
            forall|a: u64|
                !old(provider).holds(page_base(a)) && !old(self).slabs().contains_key(page_base(a))
                    ==> #[trigger] final(mem)@[a] == old(mem)@[a],
    {
        let ghost mem0 = mem@;
        let ghost slabs0 = self.slabs();
        let ghost list0 = self.partial_slabs();
        let size = self.size;
        assert(size == self.object_size());
        proof {
            assert(self.head() == first_or_zero(list0));
            assert(self.wf(mem0, provider));
            if list0.len() > 0 {
                assert(partial_ok(mem0, slabs0, list0, 0));
                assert(slabs0.contains_key(list0[0]));
                assert(slab_ok(mem0, list0[0], size, slabs0[list0[0]]));
            }
            lemma_layout(size);
        }
        if self.partial != 0 {
            let slab = self.partial;
            let ghost free = slabs0[slab];
            proof {
                assert(partial_ok(mem0, slabs0, list0, 0));
                assert(slabs0.contains_key(slab));
                assert(slab_ok(mem0, slab, size, free));
                assert(free_link_ok(mem0, slab, size, free, 0));
                lemma_slots(slab, size, free[0], free[0]);
                if free.len() > 1 {
                    lemma_slots(slab, size, free[1], free[1]);
                }
                lemma_inside_page(slab, 0);
                lemma_inside_page(slab, 8);
                lemma_inside_page(slab, 16);
                lemma_slots(slab, size, 0, 0);
            }
            let obj = mem.read(slab + FREELIST_OFFSET);
            let next_obj = mem.read(obj);
            mem.write(slab + FREELIST_OFFSET, next_obj);
            let in_use = mem.read(slab + IN_USE_OFFSET);
            mem.write(slab + IN_USE_OFFSET, in_use + 1);
            if next_obj == 0 {
                let next_slab = mem.read(slab);
                self.partial = next_slab;
                mem.write(slab, 0);
                proof {
                    self.partial_list = Ghost(list0.drop_first());
                }
            }
            proof {
                self.slabs = Ghost(slabs0.insert(slab, free.drop_first()));
                let list1 = self.partial_list@;
                let slabs1 = self.slabs@;
                lemma_after_take(mem0, mem@, slab, size, free);
                lemma_provider_ok_kept(provider, mem0, mem@);
                assert forall|page: u64| #[trigger] slabs1.contains_key(page) implies slab_ok(
                    mem@,
                    page,
                    size,
                    slabs1[page],
                ) && !provider.holds(page) && (slabs1[page].len() > 0 ==> list1.contains(page)) by {
                    if page != slab {
                        assert(slabs0.contains_key(page));
                        lemma_slab_unchanged(mem0, mem@, page, size, slabs0[page]);
                        if slabs0[page].len() > 0 {
                            let i = choose|i: int| 0 <= i < list0.len() && list0[i] == page;
                            if next_obj == 0 {
                                assert(list1[i - 1] == page);
                            }
                        }
                    } else {
                        if next_obj != 0 {
                            assert(list1[0] == slab);
                        }
                    }
                }
                assert forall|i: int| 0 <= i < list1.len() implies #[trigger] partial_ok(
                    mem@,
                    slabs1,
                    list1,
                    i,
                ) by {
                    let i0 = if next_obj == 0 {
                        i + 1
                    } else {
                        i
                    };
                    assert(partial_ok(mem0, slabs0, list0, i0));
                    assert(list1[i] == list0[i0]);
                    if i0 > 0 {
                        assert(list0[i0] != list0[0]);
                        assert(slabs0.contains_key(list0[i0]));
                        assert(slab_ok(mem0, list0[i0], size, slabs0[list0[i0]]));
                        lemma_inside_page(list0[i0], 0);
                    }
                }
                if next_obj == 0 && list0.len() > 1 {
                    assert(list1[0] == list0[1]);
                }
                assert(list1.no_duplicates()) by {
                    if next_obj == 0 {
                        assert forall|i: int, j: int|
                            0 <= i < list1.len() && 0 <= j < list1.len() && i != j implies list1[i]
                            != list1[j] by {
                            assert(list1[i] == list0[i + 1] && list1[j] == list0[j + 1]);
                        }
                    }
                }
                assert(!old(self).is_allocated(obj)) by {
                    if old(self).is_allocated(obj) {
                        let i = choose|i: int|
                            slabs0.contains_key(page_base(obj)) && 0 <= i < capacity(size) && obj
                                == #[trigger] slot(page_base(obj), size, i) && !slabs0[page_base(
                                obj,
                            )].contains(i);
                        lemma_slots(slab, size, i, free[0]);
                        assert(free.contains(free[0]));
                    }
                }
                assert forall|other: u64| old(self).is_allocated(other) implies #[trigger] self.is_allocated(
                    other,
                ) by {
                    let i = choose|i: int|
                        slabs0.contains_key(page_base(other)) && 0 <= i < capacity(size) && other
                            == #[trigger] slot(page_base(other), size, i) && !slabs0[page_base(
                            other,
                        )].contains(i);
                    assert(self.object_size() == size);
                    assert(other == slot(page_base(other), size, i));
                    assert(!self.slabs()[page_base(other)].contains(i));
                }
                assert(self.is_allocated(obj)) by {
                    assert(self.object_size() == size);
                    assert(page_base(obj) == slab);
                    assert(obj == slot(page_base(obj), size, free[0]));
                    assert(0 <= free[0] < capacity(size));
                    assert(self.slabs().contains_key(slab));
                    assert(self.slabs()[slab] == free.drop_first());
                    assert(!free.drop_first().contains(free[0]));
                }
            }
            return Some(obj);
        }
        proof {
            assert(list0.len() == 0);
        }
        let got = provider.alloc_page(mem);
        let ghost mem1 = mem@;
        proof {
            assert forall|page: u64| #[trigger] slabs0.contains_key(page) implies slab_ok(
                mem1,
                page,
                size,
                slabs0[page],
            ) && !provider.holds(page) && (slabs0[page].len() > 0 ==> list0.contains(page)) by {
                assert(slab_ok(mem0, page, size, slabs0[page]));
                assert forall|a: u64| page_base(a) == page && a != page implies #[trigger] mem1[a]
                    == mem0[a] by {}
                lemma_slab_unchanged(mem0, mem1, page, size, slabs0[page]);
            }
        }
        let page = match got {
            Some(page) => page,
            None => {
                return None;
            },
        };
        proof {
            assert(self.shape(mem1));
        }
        let obj = self.adopt_page(mem, page);
        proof {
            lemma_provider_ok_kept(provider, mem1, mem@);
            lemma_slots(page, size, 0, 0);
            assert(page_base(obj) == page);
        }
        Some(obj)
    }

    /// Makes the page at `page` a slab of the cache and takes its first
    /// object: the objects of the page are linked in address order, the
    /// header is written, and the slab becomes the partial list if objects
    /// remain. Returns the address of the first object.
    ///
    /// The cache has no slab with a free object, and the page is none of
    /// its slabs. Nothing outside the page changes.
    #[verifier::rlimit(50)]
    pub fn adopt_page<M: WordMemory>(&mut self, mem: &mut M, page: u64) -> (object: u64)
        requires
            old(self).shape(old(mem)@),
            old(self).partial_slabs().len() == 0,
            !old(self).slabs().contains_key(page),
            page % 4096 == 0,
            page != 0,
            page <= u64::MAX - 4096,
        ensures
            final(self).shape(final(mem)@),
            final(self).object_size() == old(self).object_size(),
            object == slot(page, old(self).object_size(), 0),
            final(self).slabs() == old(self).slabs().insert(
                page,
                fresh_free(old(self).object_size()),
            ),
            final(self).partial_slabs() == (if capacity(old(self).object_size()) > 1 {
                seq![page]
            } else {
                Seq::<u64>::empty()
            }),
            forall|a: u64| page_base(a) != page ==> #[trigger] final(mem)@[a] == old(mem)@[a],
            final(mem)@[(page + 24) as u64] == old(self).object_size(),
            !old(self).is_allocated(object),
            final(self).is_allocated(object),
            forall|other: u64| old(self).is_allocated(other) ==> #[trigger] final(self).is_allocated(other),
    {
        let ghost mem1 = mem@;
        let ghost slabs0 = self.slabs();
        let ghost list0 = self.partial_slabs();
        let size = self.size;
        assert(size == self.object_size());
        proof {
            lemma_layout(size);
        }
        let (start, cap) = slab_layout(size);
        let mut next_ptr: u64 = 0;
        let mut i: u64 = cap;
        while i > 0
            invariant
                0 <= i <= cap,
                cap == capacity(size),
                start == object_start(size),
                valid_object_size(size),
                page % 4096 == 0,
                page != 0,
                page <= u64::MAX - 4096,
                next_ptr == (if i < cap {
                    slot(page, size, i as int) as u64
                } else {
                    0
                }),
                forall|k: int|
                    i <= k < cap ==> #[trigger] mem@[slot(page, size, k) as u64] == (if k + 1 < cap {
                        slot(page, size, k + 1) as u64
                    } else {
                        0
                    }),
                forall|a: u64| page_base(a) != page ==> #[trigger] mem@[a] == mem1[a],
            decreases i,
        {
            i = i - 1;
            proof {
                lemma_slots(page, size, i as int, i as int);
                assert(i * size >= 0 && i * size <= 4096) by (nonlinear_arith)
                    requires
                        0 <= i,
                        size >= 8,
                        page + start + i * size + size <= page + 4096,
                        start >= 0,
                ;
                assert forall|k: int| i < k < cap implies #[trigger] slot(page, size, k) != slot(
                    page,
                    size,
                    i as int,
                ) && 0 <= slot(page, size, k) <= u64::MAX by {
                    lemma_slots(page, size, k, i as int);
                }
            }
            let ptr = page + start + i * size;
            mem.write(ptr, next_ptr);
            next_ptr = ptr;
        }
        let obj = next_ptr;
        proof {
            lemma_slots(page, size, 0, 0);
            if cap > 1 {
                lemma_slots(page, size, 1, 0);
            }
            lemma_inside_page(page, 0);
            lemma_inside_page(page, 8);
            lemma_inside_page(page, 16);
            lemma_inside_page(page, 24);
        }
        let second = mem.read(obj);
        let ghost mem2 = mem@;
        mem.write(page, 0);
        mem.write(page + FREELIST_OFFSET, second);
        mem.write(page + IN_USE_OFFSET, 1);
        mem.write(page + OBJECT_SIZE_OFFSET, size);
        if second != 0 {
            self.partial = page;
            proof {
                self.partial_list = Ghost(seq![page]);
            }
        }
        proof {
            self.slabs = Ghost(slabs0.insert(page, fresh_free(size)));
            let slabs1 = self.slabs@;
            let list1 = self.partial_list@;
            assert forall|k: int| 1 <= k < capacity(size) implies #[trigger] mem@[slot(
                page,
                size,
                k,
            ) as u64] == (if k + 1 < capacity(size) {
                slot(page, size, k + 1) as u64
            } else {
                0
            }) by {
                lemma_slots(page, size, k, k);
                assert(mem2[slot(page, size, k) as u64] == (if k + 1 < cap {
                    slot(page, size, k + 1) as u64
                } else {
                    0
                }));
            }
            lemma_fresh_slab(mem@, page, size);
            assert(!slabs0.contains_key(page));
            assert forall|p: u64| #[trigger] slabs1.contains_key(p) implies slab_ok(
                mem@,
                p,
                size,
                slabs1[p],
            ) && (slabs1[p].len() > 0 ==> list1.contains(p)) by {
                if p != page {
                    assert(slabs0.contains_key(p));
                    assert forall|a: u64| page_base(a) == p && a != p implies #[trigger] mem@[a]
                        == mem1[a] by {}
                    lemma_slab_unchanged(mem1, mem@, p, size, slabs0[p]);
                } else {
                    if fresh_free(size).len() > 0 {
                        assert(list1[0] == page);
                    }
                }
            }
            assert forall|i: int| 0 <= i < list1.len() implies #[trigger] partial_ok(
                mem@,
                slabs1,
                list1,
                i,
            ) by {}
            assert(!old(self).is_allocated(obj)) by {
                assert(page_base(obj) == page);
            }
            assert forall|other: u64| old(self).is_allocated(other) implies #[trigger] self.is_allocated(
                other,
            ) by {
                let i = choose|i: int|
                    slabs0.contains_key(page_base(other)) && 0 <= i < capacity(size) && other
                        == #[trigger] slot(page_base(other), size, i) && !slabs0[page_base(
                        other,
                    )].contains(i);
                assert(self.object_size() == size);
                assert(other == slot(page_base(other), size, i));
                assert(!self.slabs()[page_base(other)].contains(i));
            }
            if capacity(size) > 1 {
                assert(second != 0);
                assert(self.partial_slabs() == seq![page]);
            } else {
                assert(second == 0);
                assert(self.partial_slabs() =~= Seq::<u64>::empty());
            }
            assert(self.is_allocated(obj)) by {
                assert(self.object_size() == size);
                assert(page_base(obj) == page);
                assert(obj == slot(page_base(obj), size, 0));
                assert(self.slabs().contains_key(page));
                assert(self.slabs()[page] == fresh_free(size));
                assert(!fresh_free(size).contains(0));
            }
        }
        obj
    }
}

/// After a free object has been put back in front of a slab's free list,
/// the slab is as the longer list says.
proof fn lemma_after_put(
    mem: Map<u64, u64>,
    after: Map<u64, u64>,
    page: u64,
    size: u64,
    free: Seq<int>,
    index: int,
)
    requires
        valid_object_size(size),
        slab_ok(mem, page, size, free),
        0 <= index < capacity(size),
        !free.contains(index),
        free.len() + 1 < capacity(size),
        after[slot(page, size, index) as u64] == free_at(page, size, free, 0),
        after[(page + 8) as u64] == slot(page, size, index) as u64,
        after[(page + 16) as u64] == capacity(size) - free.len() - 1,
        forall|a: u64|
            a != page && a != page + 8 && a != page + 16 && a != slot(page, size, index)
                ==> #[trigger] after[a] == mem[a],
    ensures
        slab_ok(after, page, size, seq![index] + free),
        forall|i: int| (seq![index] + free).contains(i) <==> free.contains(i) || i == index,
{
    let longer = seq![index] + free;
    lemma_slots(page, size, index, index);
    assert forall|j: int| 0 <= j < longer.len() implies 0 <= #[trigger] longer[j] < capacity(
        size,
    ) by {
        if j > 0 {
            assert(longer[j] == free[j - 1]);
        }
    }
    assert(longer.no_duplicates()) by {
        assert forall|i: int, j: int|
            0 <= i < longer.len() && 0 <= j < longer.len() && i != j implies longer[i]
            != longer[j] by {
            if i > 0 {
                assert(longer[i] == free[i - 1]);
                assert(free.contains(free[i - 1]));
            }
            if j > 0 {
                assert(longer[j] == free[j - 1]);
                assert(free.contains(free[j - 1]));
            }
        }
    }
    assert forall|j: int| 0 <= j < longer.len() implies #[trigger] free_link_ok(
        after,
        page,
        size,
        longer,
        j,
    ) by {
        if j > 0 {
            assert(free_link_ok(mem, page, size, free, j - 1));
            assert(longer[j] == free[j - 1]);
            assert(free.contains(free[j - 1]));
            if j < free.len() {
                assert(longer[j + 1] == free[j]);
            }
            lemma_slots(page, size, free[j - 1], index);
        } else {
            if free.len() > 0 {
                assert(longer[1] == free[0]);
            }
        }
    }
    assert forall|i: int| longer.contains(i) <==> free.contains(i) || i == index by {
        if longer.contains(i) {
            let j = choose|j: int| 0 <= j < longer.len() && longer[j] == i;
            if j > 0 {
                assert(free[j - 1] == i);
            }
        }
        if free.contains(i) {
            let j = choose|j: int| 0 <= j < free.len() && free[j] == i;
            assert(longer[j + 1] == i);
        }
        if i == index {
            assert(longer[0] == i);
        }
    }
}

/// The list of slabs is linked through the first words of their headers,
/// from the head on, and holds each slab only once.
pub open spec fn list_ok(mem: Map<u64, u64>, list: Seq<u64>, head: u64) -> bool {
    &&& head == first_or_zero(list)
    &&& list.no_duplicates()
    &&& forall|i: int|
        0 <= i < list.len() ==> #[trigger] list_link_ok(mem, list, i)
}

/// The slab at place `i` of the list is a page that holds the address of
/// the next slab of the list.
pub open spec fn list_link_ok(mem: Map<u64, u64>, list: Seq<u64>, i: int) -> bool {
    &&& list[i] % 4096 == 0
    &&& list[i] != 0
    &&& mem[list[i]] == (if i + 1 < list.len() {
        list[i + 1]
    } else {
        0
    })
}

/// The list without `slab`.
pub open spec fn without(list: Seq<u64>, slab: u64) -> Seq<u64> {
    if list.contains(slab) {
        list.remove(list.index_of(slab))
    } else {
        list
    }
}

/// A list without one of its slabs holds the other slabs, each once.
proof fn lemma_without(list: Seq<u64>, slab: u64)
    requires
        list.no_duplicates(),
    ensures
        without(list, slab).no_duplicates(),
        !without(list, slab).contains(slab),
        forall|p: u64| p != slab ==> (without(list, slab).contains(p) <==> list.contains(p)),
{
    let rest = without(list, slab);
    if list.contains(slab) {
        let at = list.index_of(slab);
        assert forall|i: int| 0 <= i < rest.len() implies rest[i] == list[if i >= at {
            i + 1
        } else {
            i
        }] by {}
        assert forall|i: int, j: int| 0 <= i < rest.len() && 0 <= j < rest.len() && i != j implies rest[i]
            != rest[j] by {
            let i0 = if i >= at {
                i + 1
            } else {
                i
            };
            let j0 = if j >= at {
                j + 1
            } else {
                j
            };
            assert(rest[i] == list[i0] && rest[j] == list[j0]);
        }
        if rest.contains(slab) {
            let i = choose|i: int| 0 <= i < rest.len() && rest[i] == slab;
            let i0 = if i >= at {
                i + 1
            } else {
                i
            };
            assert(rest[i] == list[i0]);
        }
        assert forall|p: u64| p != slab implies (rest.contains(p) <==> list.contains(p)) by {
            if rest.contains(p) {
                let i = choose|i: int| 0 <= i < rest.len() && rest[i] == p;
                let i0 = if i >= at {
                    i + 1
                } else {
                    i
                };
                assert(list[i0] == p);
            }
            if list.contains(p) {
                let i0 = choose|i: int| 0 <= i < list.len() && list[i] == p;
                let i = if i0 > at {
                    i0 - 1
                } else {
                    i0
                };
                assert(rest[i] == p);
            }
        }
    }
}

impl SCache {
    /// Takes `slab` out of the partial list, if it is in it.
    #[verifier::rlimit(50)]
    fn remove_slab_from_partial<M: WordMemory>(&mut self, mem: &mut M, slab: u64)
        requires
            list_ok(old(mem)@, old(self).partial_slabs(), old(self).head()),
        ensures
            final(self).object_size() == old(self).object_size(),
            final(self).slabs() == old(self).slabs(),
            final(self).partial_slabs() == without(old(self).partial_slabs(), slab),
            list_ok(final(mem)@, final(self).partial_slabs(), final(self).head()),
            forall|a: u64|
                #[trigger] final(mem)@[a] != old(mem)@[a] ==> old(self).partial_slabs().contains(a),
    {
        let ghost list = self.partial_slabs();
        let ghost mem0 = mem@;
        proof {
            lemma_without(list, slab);
            if list.len() > 0 {
                assert(list_link_ok(mem0, list, 0));
            }
        }
        if self.partial == 0 {
            proof {
                if list.contains(slab) {
                    let i = choose|i: int| 0 <= i < list.len() && list[i] == slab;
                }
            }
            return ;
        }
        if self.partial == slab {
            proof {
                lemma_page_is_word(slab);
                assert(list[0] == slab);
                assert(list.contains(slab));
                assert(list.index_of(slab) == 0);
            }
            self.partial = mem.read(slab);
            proof {
                let rest = list.remove(0);
                self.partial_list = Ghost(rest);
                assert forall|i: int| 0 <= i < rest.len() implies #[trigger] list_link_ok(
                    mem0,
                    rest,
                    i,
                ) by {
                    assert(list_link_ok(mem0, list, i + 1));
                }
                if rest.len() > 0 {
                    assert(rest[0] == list[1]);
                }
            }
            return ;
        }
        let mut prev = self.partial;
        let ghost mut k: int = 0;
        loop
            invariant
                *self == *old(self),
                mem@ == mem0,
                mem0 == old(mem)@,
                list == self.partial_slabs(),
                list.no_duplicates(),
                list_ok(mem0, list, self.head()),
                0 <= k < list.len(),
                prev == list[k],
                forall|j: int| 0 <= j <= k ==> list[j] != slab,
            decreases list.len() - k,
        {
            proof {
                assert(list_link_ok(mem0, list, k));
                if k + 1 < list.len() {
                    assert(list_link_ok(mem0, list, k + 1));
                }
                lemma_page_is_word(prev);
            }
            let node = mem.read(prev);
            if node == 0 {
                proof {
                    if list.contains(slab) {
                        let i = choose|i: int| 0 <= i < list.len() && list[i] == slab;
                    }
                }
                return ;
            }
            if node == slab {
                proof {
                    assert(list[k + 1] == slab);
                    assert(list.contains(slab));
                    assert(list.index_of(slab) == k + 1);
                    assert(list_link_ok(mem0, list, k + 1));
                    lemma_page_is_word(slab);
                }
                let next = mem.read(slab);
                mem.write(prev, next);
                proof {
                    let rest = list.remove(k + 1);
                    self.partial_list = Ghost(rest);
                    assert forall|i: int| 0 <= i < rest.len() implies #[trigger] list_link_ok(
                        mem@,
                        rest,
                        i,
                    ) by {
                        let i0 = if i > k {
                            i + 1
                        } else {
                            i
                        };
                        assert(list_link_ok(mem0, list, i0));
                        assert(rest[i] == list[i0]);
                        if i + 1 < rest.len() {
                            assert(rest[i + 1] == list[if i + 1 > k {
                                i + 2
                            } else {
                                i + 1
                            }]);
                        }
                        if i0 != k {
                            assert(list[i0] != list[k]);
                        }
                    }
                    assert(rest[0] == list[0]);
                    assert(list.contains(prev));
                }
                return ;
            }
            proof {
                k = k + 1;
            }
            prev = node;
        }
    }

    /// Frees the object at `obj`, which must be an object of the cache that
    /// is in use.
    ///
    /// The object goes to the front of its slab's free list. If the slab
    /// then has no object in use, it leaves the partial list and its page
    /// goes back to the provider. If the slab was full, it joins the partial
    /// list at the front.
    #[verifier::rlimit(50)]
    pub fn dealloc<P: PageProvider, M: WordMemory>(&mut self, mem: &mut M, obj: u64, provider: &mut P)
        requires
            old(self).wf(old(mem)@, old(provider)),
            provider_ok(old(provider), old(mem)@),
            old(self).is_allocated(obj),
        ensures
            final(self).wf(final(mem)@, final(provider)),
            provider_ok(final(provider), final(mem)@),
            final(self).object_size() == old(self).object_size(),
            !final(self).is_allocated(obj),
            forall|other: u64| #[trigger] final(self).is_allocated(other) ==> old(self).is_allocated(other),
            forall|q: u64|
                #[trigger] final(provider).holds(q) ==> old(provider).holds(q) || q == page_base(
                    obj,
                ),
            release_effect(*old(self), old(provider), obj, *final(self), final(provider)),
            forall|a: u64|
                !old(provider).holds(page_base(a)) && !old(self).slabs().contains_key(page_base(a))
                    ==> #[trigger] final(mem)@[a] == old(mem)@[a],
    {
        let ghost mem0 = mem@;
        let ghost slabs0 = self.slabs();
        let ghost list0 = self.partial_slabs();
        let size = self.size;
        assert(size == self.object_size());
        let ghost index = choose|i: int|
            slabs0.contains_key(page_base(obj)) && 0 <= i < capacity(size) && obj == #[trigger] slot(
                page_base(obj),
                size,
                i,
            ) && !slabs0[page_base(obj)].contains(i);
        let page = obj - obj % PAGE_SIZE;
        let ghost free = slabs0[page];
        proof {
            assert(self.wf(mem0, provider));
            assert(slabs0.contains_key(page));
            assert(slab_ok(mem0, page, size, free));
            lemma_slots(page, size, index, index);
            lemma_slot_index(page, size, index);
            lemma_inside_page(page, 0);
            lemma_inside_page(page, 8);
            lemma_inside_page(page, 16);
            assert forall|i: int| 0 <= i < list0.len() implies #[trigger] list_link_ok(
                mem0,
                list0,
                i,
            ) by {
                assert(partial_ok(mem0, slabs0, list0, i));
                assert(slabs0.contains_key(list0[i]));
                assert(slab_ok(mem0, list0[i], size, slabs0[list0[i]]));
            }
        }
        let old_head = mem.read(page + FREELIST_OFFSET);
        mem.write(obj, old_head);
        mem.write(page + FREELIST_OFFSET, obj);
        let in_use = mem.read(page + IN_USE_OFFSET) - 1;
        mem.write(page + IN_USE_OFFSET, in_use);
        let ghost mem1 = mem@;
        proof {
            assert forall|i: int| 0 <= i < list0.len() implies #[trigger] list_link_ok(
                mem1,
                list0,
                i,
            ) by {
                assert(list_link_ok(mem0, list0, i));
                assert(partial_ok(mem0, slabs0, list0, i));
                assert(slabs0.contains_key(list0[i]));
                assert(slab_ok(mem0, list0[i], size, slabs0[list0[i]]));
                lemma_inside_page(list0[i], 0);
            }
        }
        if in_use == 0 {
            self.remove_slab_from_partial(mem, page);
            let ghost mem2 = mem@;
            let ghost list1 = self.partial_slabs();
            proof {
                lemma_without(list0, page);
                assert forall|a: u64| #[trigger] mem2[a] != mem0[a] implies slabs0.contains_key(
                    page_base(a),
                ) && !provider.holds(page_base(a)) by {
                    if mem2[a] != mem1[a] {
                        assert(list0.contains(a));
                        let i = choose|i: int| 0 <= i < list0.len() && list0[i] == a;
                        assert(partial_ok(mem0, slabs0, list0, i));
                        assert(list_link_ok(mem0, list0, i));
                        lemma_inside_page(a, 0);
                    }
                }
                lemma_provider_ok_kept(provider, mem0, mem2);
            }
            provider.free_page(mem, page);
            proof {
                self.slabs = Ghost(slabs0.remove(page));
                let slabs1 = self.slabs();
                assert(self.object_size() == size);
                assert forall|p: u64| #[trigger] slabs1.contains_key(p) implies slab_ok(
                    mem@,
                    p,
                    size,
                    slabs1[p],
                ) && !provider.holds(p) && (slabs1[p].len() > 0 ==> list1.contains(p)) by {
                    assert(slabs0.contains_key(p));
                    assert(slab_ok(mem0, p, size, slabs0[p]));
                    assert forall|a: u64| page_base(a) == p && a != p implies #[trigger] mem@[a]
                        == mem0[a] by {
                        if mem2[a] != mem1[a] {
                            assert(list0.contains(a));
                            let i = choose|i: int| 0 <= i < list0.len() && list0[i] == a;
                            assert(list_link_ok(mem0, list0, i));
                            lemma_inside_page(a, 0);
                        }
                    }
                    lemma_slab_unchanged(mem0, mem@, p, size, slabs0[p]);
                }
                assert forall|i: int| 0 <= i < list1.len() implies #[trigger] partial_ok(
                    mem@,
                    slabs1,
                    list1,
                    i,
                ) by {
                    assert(list_link_ok(mem2, list1, i));
                    assert(list1.contains(list1[i]));
                    assert(list0.contains(list1[i]));
                    let i0 = choose|i0: int| 0 <= i0 < list0.len() && list0[i0] == list1[i];
                    assert(partial_ok(mem0, slabs0, list0, i0));
                    lemma_inside_page(list1[i], 0);
                    assert(slabs0.contains_key(list1[i]));
                }
                assert(!self.is_allocated(obj));
                assert forall|other: u64| #[trigger] self.is_allocated(other) implies old(self).is_allocated(other) by {
                    let i = choose|i: int|
                        slabs1.contains_key(page_base(other)) && 0 <= i < capacity(size) && other
                            == #[trigger] slot(page_base(other), size, i) && !slabs1[page_base(
                            other,
                        )].contains(i);
                    assert(other == slot(page_base(other), size, i));
                    assert(!slabs0[page_base(other)].contains(i));
                }
            }
        } else {
            if old_head == 0 {
                mem.write(page, self.partial);
                self.partial = page;
                proof {
                    self.partial_list = Ghost(seq![page] + list0);
                }
            }
            proof {
                self.slabs = Ghost(slabs0.insert(page, seq![index] + free));
                let slabs1 = self.slabs();
                let list1 = self.partial_slabs();
                assert(self.object_size() == size);
                if free.len() > 0 {
                    lemma_slots(page, size, free[0], index);
                }
                lemma_after_put(mem0, mem@, page, size, free, index);
                lemma_provider_ok_kept(provider, mem0, mem@);
                assert(free.len() == 0 <==> old_head == 0) by {
                    if free.len() > 0 {
                        lemma_slots(page, size, free[0], free[0]);
                    }
                }
                assert(free.len() == 0 ==> !list0.contains(page)) by {
                    if list0.contains(page) {
                        let i = choose|i: int| 0 <= i < list0.len() && list0[i] == page;
                        assert(partial_ok(mem0, slabs0, list0, i));
                    }
                }
                assert forall|p: u64| #[trigger] slabs1.contains_key(p) implies slab_ok(
                    mem@,
                    p,
                    size,
                    slabs1[p],
                ) && !provider.holds(p) && (slabs1[p].len() > 0 ==> list1.contains(p)) by {
                    if p != page {
                        assert(slabs0.contains_key(p));
                        assert(slab_ok(mem0, p, size, slabs0[p]));
                        lemma_slab_unchanged(mem0, mem@, p, size, slabs0[p]);
                        if slabs0[p].len() > 0 {
                            let i = choose|i: int| 0 <= i < list0.len() && list0[i] == p;
                            if old_head == 0 {
                                assert(list1[i + 1] == p);
                            }
                        }
                    } else {
                        if old_head == 0 {
                            assert(list1[0] == page);
                        }
                    }
                }
                assert forall|i: int| 0 <= i < list1.len() implies #[trigger] partial_ok(
                    mem@,
                    slabs1,
                    list1,
                    i,
                ) by {
                    if old_head == 0 {
                        if i > 0 {
                            assert(partial_ok(mem0, slabs0, list0, i - 1));
                            assert(list1[i] == list0[i - 1]);
                            assert(list_link_ok(mem0, list0, i - 1));
                            assert(list0.contains(list0[i - 1]));
                            lemma_inside_page(list0[i - 1], 0);
                            if i + 1 < list1.len() {
                                assert(list1[i + 1] == list0[i]);
                            }
                        } else {
                            if list0.len() > 0 {
                                assert(list1[1] == list0[0]);
                            }
                        }
                    } else {
                        assert(partial_ok(mem0, slabs0, list0, i));
                        assert(list_link_ok(mem0, list0, i));
                        lemma_inside_page(list0[i], 0);
                    }
                }
                assert(list1.no_duplicates()) by {
                    if old_head == 0 {
                        assert forall|i: int, j: int|
                            0 <= i < list1.len() && 0 <= j < list1.len() && i != j implies list1[i]
                            != list1[j] by {
                            if i > 0 {
                                assert(list1[i] == list0[i - 1]);
                                assert(list0.contains(list0[i - 1]));
                            }
                            if j > 0 {
                                assert(list1[j] == list0[j - 1]);
                                assert(list0.contains(list0[j - 1]));
                            }
                        }
                    }
                }
                assert(!self.is_allocated(obj)) by {
                    if self.is_allocated(obj) {
                        let i = choose|i: int|
                            slabs1.contains_key(page_base(obj)) && 0 <= i < capacity(size) && obj
                                == #[trigger] slot(page_base(obj), size, i) && !slabs1[page_base(
                                obj,
                            )].contains(i);
                        lemma_slots(page, size, i, index);
                    }
                }
                assert forall|other: u64| #[trigger] self.is_allocated(other) implies old(self).is_allocated(other) by {
                    let i = choose|i: int|
                        slabs1.contains_key(page_base(other)) && 0 <= i < capacity(size) && other
                            == #[trigger] slot(page_base(other), size, i) && !slabs1[page_base(
                            other,
                        )].contains(i);
                    assert(other == slot(page_base(other), size, i));
                    assert(!slabs0[page_base(other)].contains(i));
                }
            }
        }
    }
}

/// The index of the slot at `obj` in the slab at `page`.
pub open spec fn slot_index(page: u64, size: u64, obj: u64) -> int {
    (obj - page - object_start(size)) / (size as int)
}

/// The index of a slot is recovered from its address.
pub proof fn lemma_slot_index(page: u64, size: u64, index: int)
    requires
        valid_object_size(size),
        page % 4096 == 0,
        page <= u64::MAX - 4096,
        0 <= index < capacity(size),
    ensures
        slot_index(page, size, slot(page, size, index) as u64) == index,
{
    lemma_slots(page, size, index, index);
    vstd::arithmetic::div_mod::lemma_fundamental_div_mod_converse(
        index * size,
        size as int,
        index,
        0,
    );
}

impl SCache {
    /// A cache stays consistent while the words of its slabs stay as they
    /// are and the provider keeps its hands off them.
    pub proof fn lemma_wf_kept<P: PageProvider, Q: PageProvider>(
        &self,
        mem: Map<u64, u64>,
        provider: &P,
        after: Map<u64, u64>,
        provider_after: &Q,
    )
        requires
            self.wf(mem, provider),
            forall|a: u64| self.slabs().contains_key(page_base(a)) ==> #[trigger] after[a] == mem[a],
            forall|page: u64| #[trigger]
                self.slabs().contains_key(page) ==> !provider_after.holds(page),
        ensures
            self.wf(after, provider_after),
    {
        let size = self.object_size();
        assert forall|page: u64| #[trigger] self.slabs().contains_key(page) implies slab_ok(
            after,
            page,
            size,
            self.slabs()[page],
        ) by {
            assert(slab_ok(mem, page, size, self.slabs()[page]));
            lemma_slab_unchanged(mem, after, page, size, self.slabs()[page]);
        }
        assert forall|i: int| 0 <= i < self.partial_slabs().len() implies #[trigger] partial_ok(
            after,
            self.slabs(),
            self.partial_slabs(),
            i,
        ) by {
            assert(partial_ok(mem, self.slabs(), self.partial_slabs(), i));
            let page = self.partial_slabs()[i];
            assert(self.slabs().contains_key(page));
            assert(slab_ok(mem, page, size, self.slabs()[page]));
            lemma_inside_page(page, 0);
        }
    }
}

} // verus!
