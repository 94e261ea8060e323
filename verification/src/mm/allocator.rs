//! The kernel's page provider and heap: the buddy allocator behind the
//! interface that slab caches and the page-table editor take pages through,
//! and the heap that routes each request to the slab cache of its size
//! class or, above the largest class, to a whole page.

use crate::mm::buddy::{
    alloc_result, block_free_of, block_ok, covered, dealloc_result, in_block, in_window,
    lemma_block_is_node, lemma_orders,
    lemma_covered_page, lemma_page_free_of, link_ok, links_ok, BuddyAllocator, ORDERS,
};
use crate::mm::slub::{allocation_effect, provider_ok, release_effect, PageProvider, SCache};
use crate::mm::window::{page_base, WordMemory};
use vstd::prelude::*;

verus! {

/// The page allocator of the kernel heap: hands out and takes back single
/// pages of the buddy allocator's window.
pub struct GlobalPageAllocator {
    pub frame_allocator: BuddyAllocator,
}

impl PageProvider for GlobalPageAllocator {
    /// A page is held if it is a page of a free block.
    open spec fn holds(&self, page: u64) -> bool {
        self.held(page)
    }

    open spec fn inv(&self, mem: Map<u64, u64>) -> bool {
        self.frame_allocator.wf(mem)
    }

    /// Allocates a block of order zero from the buddy allocator: the head
    /// of the lowest free list that is not empty, split down to one page.
    /// `None` comes exactly when no block is free, and nothing changes then.
    fn alloc_page<M: WordMemory>(&mut self, mem: &mut M) -> (page: Option<u64>)
        ensures
            final(self).frame_allocator.offset() == old(self).frame_allocator.offset(),
            match alloc_result(
                old(self).frame_allocator.free_lists(),
                old(self).frame_allocator.offset(),
                0,
            ) {
                None => page is None && final(self).frame_allocator.free_lists() == old(self).frame_allocator.free_lists() && final(self).frame_allocator.bitmap() == old(self).frame_allocator.bitmap() && final(mem)@ == old(mem)@,
                Some((addr, lists)) => page == Some(addr) && final(self).frame_allocator.free_lists() == lists,
            },
    {
        let ghost lists = self.frame_allocator.free_lists();
        let ghost offset = self.frame_allocator.offset();
        proof {
            assert(self.frame_allocator.wf(mem@)) by {
                assert(forall|addr: u64|
                    self.holds(page_base(addr)) ==> #[trigger] mem@[addr] == mem@[addr]);
                assert(self.inv(mem@));
            }
        }
        let page = self.frame_allocator.allocate(mem, 0);
        proof {
            assert forall|other: Map<u64, u64>|
                (forall|addr: u64|
                    self.holds(page_base(addr)) ==> #[trigger] other[addr] == mem@[addr]) implies #[trigger] self.inv(
                other,
            ) by {
                self.lemma_wf_depends_on_held_pages(mem@, other);
            }
            assert forall|addr: u64| !old(self).holds(page_base(addr)) implies #[trigger] mem@[addr]
                == old(mem)@[addr] by {
                if covered(lists, addr as int) {
                    lemma_covered_page(lists, offset, addr);
                }
            }
            match page {
                Some(p) => {
                    lemma_block_is_node(offset, p, 0);
                    assert(in_block(p, 0, p as int));
                },
                None => {},
            }
        }
        page
    }

    /// Frees the page as a block of order zero of the buddy allocator: it
    /// is merged with its buddy, order by order, as far as the buddies are
    /// free, and is held afterwards. A page outside the window is ignored.
    fn free_page<M: WordMemory>(&mut self, mem: &mut M, page: u64)
        ensures
            final(self).frame_allocator.offset() == old(self).frame_allocator.offset(),
            in_window(old(self).frame_allocator.offset(), page) ==> final(self).frame_allocator.free_lists() == dealloc_result(
                old(self).frame_allocator.free_lists(),
                old(self).frame_allocator.offset(),
                page,
                0,
            ) && final(self).holds(page),
            !in_window(old(self).frame_allocator.offset(), page) ==> final(self).frame_allocator.free_lists() == old(self).frame_allocator.free_lists() && final(self).frame_allocator.bitmap() == old(self).frame_allocator.bitmap() && final(mem)@ == old(mem)@,
    {
        let ghost lists = self.frame_allocator.free_lists();
        let ghost offset = self.frame_allocator.offset();
        proof {
            assert(self.frame_allocator.wf(mem@)) by {
                assert(forall|addr: u64|
                    self.holds(page_base(addr)) ==> #[trigger] mem@[addr] == mem@[addr]);
                assert(self.inv(mem@));
            }
            lemma_page_free_of(lists, offset, page);
        }
        self.frame_allocator.dealloc(mem, page, 0);
        proof {
            assert forall|other: Map<u64, u64>|
                (forall|addr: u64|
                    self.holds(page_base(addr)) ==> #[trigger] other[addr] == mem@[addr]) implies #[trigger] self.inv(
                other,
            ) by {
                self.lemma_wf_depends_on_held_pages(mem@, other);
            }
            assert forall|addr: u64|
                !old(self).holds(page_base(addr)) && page_base(addr) != page implies #[trigger] mem@[addr]
                == old(mem)@[addr] by {
                if covered(lists, addr as int) {
                    lemma_covered_page(lists, offset, addr);
                }
                if in_block(page, 0, addr as int) {
                    lemma_page_of(addr, page);
                }
            }
            assert forall|q: u64| #[trigger] self.holds(q) implies old(self).holds(q) || q
                == page by {
                if in_block(page, 0, q as int) {
                    lemma_page_of(q, page);
                }
            }
            if in_window(offset, page) {
                lemma_orders();
                assert(in_block(page, 0, page as int));
                assert(covered(self.frame_allocator.free_lists(), page as int));
            }
        }
    }
}

impl GlobalPageAllocator {
    /// Whether the page at `page` is a page of a free block.
    pub open spec fn held(&self, page: u64) -> bool {
        page % 4096 == 0 && covered(self.frame_allocator.free_lists(), page as int)
    }

    /// The allocator's consistency reads only words of free blocks.
    pub proof fn lemma_wf_depends_on_held_pages(&self, before: Map<u64, u64>, after: Map<u64, u64>)
        requires
            self.frame_allocator.wf(before),
            forall|addr: u64| self.held(page_base(addr)) ==> #[trigger] after[addr] == before[addr],
        ensures
            self.frame_allocator.wf(after),
    {

        let lists = self.frame_allocator.free_lists();
        let offset = self.frame_allocator.offset();
        reveal(links_ok);
        assert forall|k: int, i: int|
            0 <= k < ORDERS && 0 <= i < lists[k].len() implies #[trigger] link_ok(
            after,
            lists,
            k,
            i,
        ) by {
            let node = lists[k][i];
            assert(link_ok(before, lists, k, i));
            lemma_block_is_node(offset, node, k);
            assert(in_block(lists[k][i], k, node as int));
            assert(in_block(lists[k][i], k, node + 8));
            lemma_covered_page(lists, offset, node);
            lemma_covered_page(lists, offset, (node + 8) as u64);
            assert(self.held(page_base(node)));
            assert(self.held(page_base((node + 8) as u64)));
        }
    }
}

/// An address inside a page has that page as its page.
proof fn lemma_page_of(addr: u64, page: u64)
    by (bit_vector)
    requires
        page % 4096 == 0,
        page <= addr,
        ((addr - page) as u64) < 4096,
    ensures
        (addr - addr % 4096) as u64 == page,
        addr % 4096 <= addr,
{
}

/// Creates the page allocator of the heap, with the start of its window at
/// `offset` and nothing free yet.
pub fn init_heap(offset: u64) -> (provider: GlobalPageAllocator)
    ensures
        provider.frame_allocator.pristine(),
        provider.frame_allocator.offset() == offset,
{
    let mut provider = GlobalPageAllocator { frame_allocator: BuddyAllocator::new() };
    provider.frame_allocator.set_offset(offset);
    provider
}

/// Adds a free page to the page allocator, as the memory map is walked at
/// startup.
pub fn add_frame<M: WordMemory>(provider: &mut GlobalPageAllocator, mem: &mut M, start: u64)
    requires
        old(provider).frame_allocator.wf(old(mem)@),
        in_window(old(provider).frame_allocator.offset(), start) ==> block_ok(
            old(provider).frame_allocator.offset(),
            start,
            0,
        ) && block_free_of(old(provider).frame_allocator.free_lists(), start, 0),
    ensures
        final(provider).frame_allocator.wf(final(mem)@),
        final(provider).frame_allocator.offset() == old(provider).frame_allocator.offset(),
        in_window(old(provider).frame_allocator.offset(), start) ==> forall|a: int|
            #[trigger] covered(final(provider).frame_allocator.free_lists(), a) <==> covered(
                old(provider).frame_allocator.free_lists(),
                a,
            ) || in_block(start, 0, a),
{
    provider.frame_allocator.add_frame(mem, start);
}

/// Allocates one page from the page allocator and returns its physical
/// address, or `None` if no page is free.
pub fn allocate_frame<M: WordMemory>(provider: &mut GlobalPageAllocator, mem: &mut M) -> (frame:
    Option<u64>)
    requires
        old(provider).frame_allocator.wf(old(mem)@),
    ensures
        final(provider).frame_allocator.wf(final(mem)@),
        match alloc_result(
            old(provider).frame_allocator.free_lists(),
            old(provider).frame_allocator.offset(),
            0,
        ) {
            None => frame is None,
            Some((addr, lists)) => frame == Some(
                (addr - old(provider).frame_allocator.offset()) as u64,
            ) && final(provider).frame_allocator.free_lists() == lists,
        },
{
    provider.frame_allocator.allocate_frame(mem)
}

/// Number of size classes of the heap.
pub const SIZE_CLASSES: usize = 8;

/// Largest request that a size class serves.
pub const LARGEST_CLASS: usize = 2048;

/// The size class that serves a request of `size` bytes up to 2048: the
/// smallest of 16, 32, 64, 128, 256, 512, 1024 and 2048 that fits.
pub open spec fn class_index(size: int) -> int {
    if size <= 16 {
        0
    } else if size <= 32 {
        1
    } else if size <= 64 {
        2
    } else if size <= 128 {
        3
    } else if size <= 256 {
        4
    } else if size <= 512 {
        5
    } else if size <= 1024 {
        6
    } else {
        7
    }
}

/// The object size of a size class.
pub open spec fn class_size(index: int) -> u64 {
    if index == 0 {
        16
    } else if index == 1 {
        32
    } else if index == 2 {
        64
    } else if index == 3 {
        128
    } else if index == 4 {
        256
    } else if index == 5 {
        512
    } else if index == 6 {
        1024
    } else {
        2048
    }
}

/// The kernel heap: one slab cache for each size class, and whole pages
/// for what is larger.
pub struct SlubAllocator {
    caches: Vec<SCache>,
    large: Ghost<Set<u64>>,
}

/// The index of the size class for a request of `size` bytes.
fn bucket(size: usize) -> (index: usize)
    requires
        size <= LARGEST_CLASS,
    ensures
        index == class_index(size as int),
        index < SIZE_CLASSES,
        size <= class_size(index as int),
{
    if size <= 16 {
        0
    } else if size <= 32 {
        1
    } else if size <= 64 {
        2
    } else if size <= 128 {
        3
    } else if size <= 256 {
        4
    } else if size <= 512 {
        5
    } else if size <= 1024 {
        6
    } else {
        7
    }
}

impl SlubAllocator {
    /// The caches of the size classes, smallest first.
    pub closed spec fn caches(&self) -> Seq<SCache> {
        self.caches@
    }

    /// The pages that were handed out whole.
    pub closed spec fn large_pages(&self) -> Set<u64> {
        self.large@
    }

    /// Each size class has its cache, the caches are consistent and share
    /// no slab, and the pages handed out whole are in nobody else's hands.
    pub open spec fn wf<P: PageProvider>(&self, mem: Map<u64, u64>, provider: &P) -> bool {
        &&& self.caches().len() == SIZE_CLASSES
        &&& forall|i: int|
            0 <= i < SIZE_CLASSES ==> (#[trigger] self.caches()[i]).object_size() == class_size(i)
                && self.caches()[i].wf(mem, provider)
        &&& forall|i: int, j: int, page: u64|
            0 <= i < SIZE_CLASSES && 0 <= j < SIZE_CLASSES && i != j
                && #[trigger] self.caches()[i].slabs().contains_key(page)
                ==> !#[trigger] self.caches()[j].slabs().contains_key(page)
        &&& forall|page: u64| #[trigger]
            self.large_pages().contains(page) ==> {
                &&& page % 4096 == 0
                &&& page != 0
                &&& page <= u64::MAX - 4096
                &&& !provider.holds(page)
                &&& forall|i: int|
                    0 <= i < SIZE_CLASSES ==> !(#[trigger] self.caches()[i]).slabs().contains_key(
                        page,
                    )
            }
    }

    /// The heap has handed out nothing yet: its caches have no slabs, and
    /// no page is out whole.
    pub open spec fn pristine(&self) -> bool {
        &&& self.caches().len() == SIZE_CLASSES
        &&& self.large_pages() == Set::<u64>::empty()
        &&& forall|i: int|
            0 <= i < SIZE_CLASSES ==> {
                let cache = #[trigger] self.caches()[i];
                &&& cache.object_size() == class_size(i)
                &&& cache.slabs() == Map::<u64, Seq<int>>::empty()
                &&& cache.partial_slabs() == Seq::<u64>::empty()
                &&& cache.head() == 0
            }
    }

    /// A heap that has handed out nothing is consistent with any memory
    /// and any provider.
    pub proof fn lemma_pristine_is_wf<P: PageProvider>(&self, mem: Map<u64, u64>, provider: &P)
        requires
            self.pristine(),
        ensures
            self.wf(mem, provider),
    {
        assert forall|i: int| 0 <= i < SIZE_CLASSES implies (#[trigger] self.caches()[i]).object_size()
            == class_size(i) && self.caches()[i].wf(mem, provider) by {
            self.caches()[i].lemma_empty_is_wf(mem, provider);
        }
    }

    /// A heap whose caches have no slabs yet.
    pub fn new() -> (heap: Self)
        ensures
            heap.pristine(),
    {
        let mut caches: Vec<SCache> = Vec::new();
        caches.push(SCache::new(16));
        caches.push(SCache::new(32));
        caches.push(SCache::new(64));
        caches.push(SCache::new(128));
        caches.push(SCache::new(256));
        caches.push(SCache::new(512));
        caches.push(SCache::new(1024));
        caches.push(SCache::new(2048));
        SlubAllocator { caches, large: Ghost(Set::empty()) }
    }

    /// Allocates `size` bytes and returns their address, or `None`.
    ///
    /// A request of up to 2048 bytes is served by the cache of the smallest
    /// size class that fits. A larger request of up to a page takes a whole
    /// page from the provider. Nothing larger is served.
    #[verifier::rlimit(50)]
    pub fn allocate<P: PageProvider, M: WordMemory>(
        &mut self,
        mem: &mut M,
        provider: &mut P,
        size: usize,
    ) -> (object: Option<u64>)
        requires
            old(self).wf(old(mem)@, old(provider)),
            provider_ok(old(provider), old(mem)@),
        ensures
            final(self).wf(final(mem)@, final(provider)),
            provider_ok(final(provider), final(mem)@),
            forall|q: u64| #[trigger] final(provider).holds(q) ==> old(provider).holds(q),
            size > 4096 ==> object is None && final(mem)@ == old(mem)@ && final(self).caches() == old(self).caches() && final(self).large_pages() == old(self).large_pages(),
            2048 < size <= 4096 ==> final(self).caches() == old(self).caches() && match object {
                Some(page) => old(provider).holds(page) && !final(provider).holds(page) && final(self).large_pages() == old(self).large_pages().insert(page),
                None => final(self).large_pages() == old(self).large_pages(),
            },
            size <= 2048 ==> {
                let index = class_index(size as int);
                &&& final(self).large_pages() == old(self).large_pages()
                &&& forall|i: int|
                    0 <= i < SIZE_CLASSES && i != index ==> #[trigger] final(self).caches()[i] == old(self).caches()[i]
                &&& allocation_effect(
                    old(self).caches()[index],
                    old(provider),
                    object,
                    final(self).caches()[index],
                    final(provider),
                )
                &&& match object {
                    Some(obj) => {
                        &&& !old(self).caches()[index].is_allocated(obj)
                        &&& final(self).caches()[index].is_allocated(obj)
                        &&& obj % 8 == 0
                        &&& obj + class_size(index) <= page_base(obj) + 4096
                    },
                    None => final(self).caches()[index].slabs() == old(self).caches()[index].slabs(),
                }
            },
    {
        if size > LARGEST_CLASS {
            if size <= 4096 {
                let ghost mem0 = mem@;
                let page = provider.alloc_page(mem);
                proof {
                    let caches0 = old(self).caches();
                    if page is Some {
                        self.large = Ghost(self.large@.insert(page->Some_0));
                    }
                    assert forall|i: int| 0 <= i < SIZE_CLASSES implies (#[trigger] caches0[i]).wf(
                        mem0,
                        old(provider),
                    ) by {}
                    self.lemma_caches_kept(caches0, mem0, old(provider), mem@, provider);
                    assert forall|q: u64| #[trigger] self.large_pages().contains(q) implies !provider.holds(
                        q,
                    ) && q % 4096 == 0 && q != 0 && q <= u64::MAX - 4096 && (forall|i: int|
                        0 <= i < SIZE_CLASSES ==> !(#[trigger] caches0[i]).slabs().contains_key(q)) by {
                        if old(self).large_pages().contains(q) {
                        } else {
                            assert forall|i: int| 0 <= i < SIZE_CLASSES implies !(
                            #[trigger] caches0[i]).slabs().contains_key(q) by {
                                assert(caches0[i].wf(mem0, old(provider)));
                            }
                        }
                    }
                }
                return page;
            }
            return None;
        }
        let index = bucket(size);
        let ghost mem0 = mem@;
        let ghost caches0 = self.caches();
        let object = self.caches[index].allocate(mem, provider);
        proof {
            let caches1 = self.caches();
            assert forall|i: int| 0 <= i < SIZE_CLASSES implies (#[trigger] caches1[i]).object_size()
                == class_size(i) by {
                assert(caches0[i].object_size() == class_size(i));
                if i != index {
                    assert(caches1[i] == caches0[i]);
                }
            }
            assert forall|i: int| 0 <= i < SIZE_CLASSES && i != index implies (#[trigger] caches1[i]).wf(
                mem@,
                provider,
            ) by {
                assert(caches1[i] == caches0[i]);
                assert(caches0[i].wf(mem0, old(provider)));
                assert forall|a: u64| caches0[i].slabs().contains_key(page_base(a)) implies #[trigger] mem@[a]
                    == mem0[a] by {
                    assert(!caches0[index as int].slabs().contains_key(page_base(a)));
                }
                caches0[i].lemma_wf_kept(mem0, old(provider), mem@, provider);
            }
            assert forall|i: int, j: int, page: u64|
                0 <= i < SIZE_CLASSES && 0 <= j < SIZE_CLASSES && i != j
                    && #[trigger] caches1[i].slabs().contains_key(
                    page,
                ) implies !#[trigger] caches1[j].slabs().contains_key(page) by {
                if caches1[j].slabs().contains_key(page) {
                    if i == index {
                        assert(caches0[j].slabs().contains_key(page));
                        if !caches0[i].slabs().contains_key(page) {
                            assert(caches0[j].wf(mem0, old(provider)));
                        }
                    } else if j == index {
                        assert(caches0[i].slabs().contains_key(page));
                        if !caches0[j].slabs().contains_key(page) {
                            assert(caches0[i].wf(mem0, old(provider)));
                        }
                    } else {
                        assert(caches0[i].slabs().contains_key(page));
                    }
                }
            }
            assert forall|page: u64| #[trigger] self.large_pages().contains(page) implies !provider.holds(
                page,
            ) && page % 4096 == 0 && page != 0 && page <= u64::MAX - 4096 && (forall|i: int|
                0 <= i < SIZE_CLASSES ==> !(#[trigger] caches1[i]).slabs().contains_key(page)) by {
                assert(old(self).large_pages().contains(page));
                assert(!old(provider).holds(page));
                assert forall|i: int| 0 <= i < SIZE_CLASSES implies !(
                #[trigger] caches1[i]).slabs().contains_key(page) by {
                    assert(!caches0[i].slabs().contains_key(page));
                    if i != index {
                        assert(caches1[i] == caches0[i]);
                    }
                }
            }
        }
        object
    }

    /// Frees the `size` bytes at `ptr`, which an allocation of that size
    /// returned. A block larger than 2048 bytes is a whole page and goes
    /// back to the provider; anything else goes back to the cache of its
    /// size class.
    #[verifier::rlimit(50)]
    pub fn dealloc<P: PageProvider, M: WordMemory>(
        &mut self,
        mem: &mut M,
        provider: &mut P,
        ptr: u64,
        size: usize,
    )
        requires
            old(self).wf(old(mem)@, old(provider)),
            provider_ok(old(provider), old(mem)@),
            size > 2048 ==> old(self).large_pages().contains(ptr),
            size <= 2048 ==> old(self).caches()[class_index(size as int)].is_allocated(ptr),
        ensures
            final(self).wf(final(mem)@, final(provider)),
            provider_ok(final(provider), final(mem)@),
            forall|q: u64|
                #[trigger] final(provider).holds(q) ==> old(provider).holds(q) || q == page_base(ptr),
            size > 2048 ==> final(self).caches() == old(self).caches() && final(self).large_pages()
                == old(self).large_pages().remove(ptr),
            size <= 2048 ==> {
                let index = class_index(size as int);
                &&& final(self).large_pages() == old(self).large_pages()
                &&& forall|i: int|
                    0 <= i < SIZE_CLASSES && i != index ==> #[trigger] final(self).caches()[i] == old(self).caches()[i]
                &&& !final(self).caches()[index].is_allocated(ptr)
                &&& release_effect(
                    old(self).caches()[index],
                    old(provider),
                    ptr,
                    final(self).caches()[index],
                    final(provider),
                )
            },
    {
        let ghost mem0 = mem@;
        let ghost caches0 = self.caches();
        if size > LARGEST_CLASS {
            proof {
                assert(old(self).large_pages().contains(ptr));
                lemma_page_of(ptr, ptr);
            }
            provider.free_page(mem, ptr);
            proof {
                self.large = Ghost(self.large@.remove(ptr));
                assert forall|i: int| 0 <= i < SIZE_CLASSES implies (#[trigger] caches0[i]).wf(
                    mem@,
                    provider,
                ) by {
                    assert(caches0[i].wf(mem0, old(provider)));
                    assert(!caches0[i].slabs().contains_key(ptr));
                    assert forall|a: u64| caches0[i].slabs().contains_key(page_base(a)) implies #[trigger] mem@[a]
                        == mem0[a] by {}
                    caches0[i].lemma_wf_kept(mem0, old(provider), mem@, provider);
                }
                assert forall|q: u64| #[trigger] self.large_pages().contains(q) implies !provider.holds(
                    q,
                ) && q % 4096 == 0 && q != 0 && q <= u64::MAX - 4096 && (forall|i: int|
                    0 <= i < SIZE_CLASSES ==> !(#[trigger] caches0[i]).slabs().contains_key(q)) by {
                    assert(old(self).large_pages().contains(q));
                }
            }
            return ;
        }
        let index = bucket(size);
        let ghost page = page_base(ptr);
        proof {
            assert(caches0[index as int].wf(mem0, old(provider)));
            assert(caches0[index as int].slabs().contains_key(page));
        }
        self.caches[index].dealloc(mem, ptr, provider);
        proof {
            let caches1 = self.caches();
            assert forall|i: int| 0 <= i < SIZE_CLASSES implies (#[trigger] caches1[i]).object_size()
                == class_size(i) by {
                assert(caches0[i].object_size() == class_size(i));
                if i != index {
                    assert(caches1[i] == caches0[i]);
                }
            }
            assert forall|p: u64| #[trigger]
                caches1[index as int].slabs().contains_key(p) implies caches0[index as int].slabs().contains_key(
                p,
            ) by {}
            assert forall|i: int| 0 <= i < SIZE_CLASSES && i != index implies (#[trigger] caches1[i]).wf(
                mem@,
                provider,
            ) by {
                assert(caches1[i] == caches0[i]);
                assert(caches0[i].wf(mem0, old(provider)));
                assert(!caches0[i].slabs().contains_key(page));
                assert forall|a: u64| caches0[i].slabs().contains_key(page_base(a)) implies #[trigger] mem@[a]
                    == mem0[a] by {
                    assert(!caches0[index as int].slabs().contains_key(page_base(a)));
                }
                caches0[i].lemma_wf_kept(mem0, old(provider), mem@, provider);
            }
            assert forall|i: int, j: int, p: u64|
                0 <= i < SIZE_CLASSES && 0 <= j < SIZE_CLASSES && i != j
                    && #[trigger] caches1[i].slabs().contains_key(
                    p,
                ) implies !#[trigger] caches1[j].slabs().contains_key(p) by {
                if caches1[j].slabs().contains_key(p) {
                    if i != index {
                        assert(caches1[i] == caches0[i]);
                    }
                    if j != index {
                        assert(caches1[j] == caches0[j]);
                    }
                    assert(caches0[i].slabs().contains_key(p));
                    assert(caches0[j].slabs().contains_key(p));
                }
            }
            assert forall|q: u64| #[trigger] self.large_pages().contains(q) implies !provider.holds(
                q,
            ) && q % 4096 == 0 && q != 0 && q <= u64::MAX - 4096 && (forall|i: int|
                0 <= i < SIZE_CLASSES ==> !(#[trigger] caches1[i]).slabs().contains_key(q)) by {
                assert(old(self).large_pages().contains(q));
                assert(!caches0[index as int].slabs().contains_key(q));
                assert forall|i: int| 0 <= i < SIZE_CLASSES implies !(
                #[trigger] caches1[i]).slabs().contains_key(q) by {
                    assert(!caches0[i].slabs().contains_key(q));
                    if i != index {
                        assert(caches1[i] == caches0[i]);
                    }
                }
            }
        }
    }

    /// The caches stay consistent over a step of the provider.
    proof fn lemma_caches_kept<P: PageProvider>(
        &self,
        caches: Seq<SCache>,
        mem: Map<u64, u64>,
        provider: &P,
        after: Map<u64, u64>,
        provider_after: &P,
    )
        requires
            caches.len() == SIZE_CLASSES,
            forall|i: int| 0 <= i < SIZE_CLASSES ==> (#[trigger] caches[i]).wf(mem, provider),
            forall|addr: u64|
                !provider.holds(page_base(addr)) ==> #[trigger] after[addr] == mem[addr],
            forall|q: u64| #[trigger] provider_after.holds(q) ==> provider.holds(q),
        ensures
            forall|i: int| 0 <= i < SIZE_CLASSES ==> (#[trigger] caches[i]).wf(after, provider_after),
    {
        assert forall|i: int| 0 <= i < SIZE_CLASSES implies (#[trigger] caches[i]).wf(
            after,
            provider_after,
        ) by {
            caches[i].lemma_wf_kept(mem, provider, after, provider_after);
        }
    }
}

} // verus!
