//! Size buckets of the heap's earlier layout: nine buckets, from 8 to 2048
//! bytes, each with the cache of its size.

use crate::mm::slub::{allocation_effect, provider_ok, release_effect, PageProvider, SCache};
use crate::mm::window::{page_base, WordMemory};
use vstd::prelude::*;

verus! {

/// Number of buckets.
pub const BUCKETS: usize = 9;

/// The cache of one bucket.
pub struct KmemCache {
    pub object_size: u64,
    pub cache: SCache,
}

impl KmemCache {
    /// A cache for objects of `size` bytes, without slabs.
    pub fn new(size: u64) -> (cache: Self)
        ensures
            cache.object_size == size,
            cache.cache.object_size() == size,
            cache.cache.partial_slabs() == Seq::<u64>::empty(),
            cache.cache.slabs() == Map::<u64, Seq<int>>::empty(),
            cache.cache.head() == 0,
    {
        KmemCache { object_size: size, cache: SCache::new(size) }
    }

    /// The bucket's cache is consistent with memory and with the provider,
    /// and serves objects of the bucket's size.
    pub open spec fn wf<P: PageProvider>(&self, mem: Map<u64, u64>, provider: &P) -> bool {
        &&& self.cache.wf(mem, provider)
        &&& self.cache.object_size() == self.object_size
    }

    /// Allocates an object from the bucket's cache: the first free object
    /// of the first slab that has one, or else the first object of a page
    /// that the provider hands out. Returns `None`, and changes nothing, if
    /// a page is needed and the provider has none.
    pub fn allocate<P: PageProvider, M: WordMemory>(&mut self, mem: &mut M, provider: &mut P) -> (object:
        Option<u64>)
        requires
            old(self).wf(old(mem)@, old(provider)),
            provider_ok(old(provider), old(mem)@),
        ensures
            final(self).wf(final(mem)@, final(provider)),
            provider_ok(final(provider), final(mem)@),
            final(self).object_size == old(self).object_size,
            allocation_effect(
                old(self).cache,
                old(provider),
                object,
                final(self).cache,
                final(provider),
            ),
            forall|q: u64| #[trigger] final(provider).holds(q) ==> old(provider).holds(q),
            forall|other: u64|
                old(self).cache.is_allocated(other) ==> #[trigger] final(self).cache.is_allocated(
                    other,
                ),
            object matches Some(obj) ==> !old(self).cache.is_allocated(obj)
                && final(self).cache.is_allocated(obj),
            forall|a: u64|
                !old(provider).holds(page_base(a)) && !old(self).cache.slabs().contains_key(
                    page_base(a),
                ) ==> #[trigger] final(mem)@[a] == old(mem)@[a],
    {
        self.cache.allocate(mem, provider)
    }

    /// Returns the object at `obj` to the bucket's cache. A slab whose last
    /// object comes back goes to the provider.
    pub fn dealloc<P: PageProvider, M: WordMemory>(&mut self, mem: &mut M, obj: u64, provider: &mut P)
        requires
            old(self).wf(old(mem)@, old(provider)),
            provider_ok(old(provider), old(mem)@),
            old(self).cache.is_allocated(obj),
        ensures
            final(self).wf(final(mem)@, final(provider)),
            provider_ok(final(provider), final(mem)@),
            final(self).object_size == old(self).object_size,
            release_effect(old(self).cache, old(provider), obj, final(self).cache, final(provider)),
            !final(self).cache.is_allocated(obj),
            forall|other: u64| #[trigger]
                final(self).cache.is_allocated(other) ==> old(self).cache.is_allocated(other),
            forall|q: u64|
                #[trigger] final(provider).holds(q) ==> old(provider).holds(q) || q == page_base(
                    obj,
                ),
            forall|a: u64|
                !old(provider).holds(page_base(a)) && !old(self).cache.slabs().contains_key(
                    page_base(a),
                ) ==> #[trigger] final(mem)@[a] == old(mem)@[a],
    {
        self.cache.dealloc(mem, obj, provider);
    }
}

/// The bucket that serves `size` bytes: the first of 8, 16, 32, 64, 128,
/// 256, 512, 1024 and 2048 that is not smaller; none above 2048.
pub open spec fn bucket_of(size: int) -> Option<int> {
    if size <= 8 {
        Some(0)
    } else if size <= 16 {
        Some(1)
    } else if size <= 32 {
        Some(2)
    } else if size <= 64 {
        Some(3)
    } else if size <= 128 {
        Some(4)
    } else if size <= 256 {
        Some(5)
    } else if size <= 512 {
        Some(6)
    } else if size <= 1024 {
        Some(7)
    } else if size <= 2048 {
        Some(8)
    } else {
        None
    }
}

/// The object size of a bucket.
pub open spec fn bucket_size(index: int) -> int {
    if index == 0 {
        8
    } else if index == 1 {
        16
    } else if index == 2 {
        32
    } else if index == 3 {
        64
    } else if index == 4 {
        128
    } else if index == 5 {
        256
    } else if index == 6 {
        512
    } else if index == 7 {
        1024
    } else {
        2048
    }
}

/// The heap's buckets.
pub struct SlubAllocator {
    buckets: Vec<KmemCache>,
}

impl SlubAllocator {
    /// The buckets, smallest first.
    pub closed spec fn buckets(&self) -> Seq<KmemCache> {
        self.buckets@
    }

    /// The nine buckets, each with an empty cache of its size.
    pub fn new() -> (heap: Self)
        ensures
            heap.buckets().len() == BUCKETS,
            forall|i: int|
                0 <= i < BUCKETS ==> {
                    let bucket = #[trigger] heap.buckets()[i];
                    &&& bucket.object_size == bucket_size(i)
                    &&& bucket.cache.object_size() == bucket_size(i)
                    &&& bucket.cache.partial_slabs() == Seq::<u64>::empty()
                    &&& bucket.cache.slabs() == Map::<u64, Seq<int>>::empty()
                    &&& bucket.cache.head() == 0
                },
    {
        let mut buckets: Vec<KmemCache> = Vec::new();
        buckets.push(KmemCache::new(8));
        buckets.push(KmemCache::new(16));
        buckets.push(KmemCache::new(32));
        buckets.push(KmemCache::new(64));
        buckets.push(KmemCache::new(128));
        buckets.push(KmemCache::new(256));
        buckets.push(KmemCache::new(512));
        buckets.push(KmemCache::new(1024));
        buckets.push(KmemCache::new(2048));
        SlubAllocator { buckets }
    }

    /// The index of the bucket that serves `size` bytes, or `None` above
    /// 2048.
    pub fn get_bucket(&self, size: usize) -> (index: Option<usize>)
        ensures
            match index {
                Some(i) => bucket_of(size as int) == Some(i as int) && size <= bucket_size(i as int)
                    && (i > 0 ==> size > bucket_size(i - 1)),
                None => bucket_of(size as int) is None && size > 2048,
            },
    {
        if size <= 8 {
            Some(0)
        } else if size <= 16 {
            Some(1)
        } else if size <= 32 {
            Some(2)
        } else if size <= 64 {
            Some(3)
        } else if size <= 128 {
            Some(4)
        } else if size <= 256 {
            Some(5)
        } else if size <= 512 {
            Some(6)
        } else if size <= 1024 {
            Some(7)
        } else if size <= 2048 {
            Some(8)
        } else {
            None
        }
    }
}

} // verus!
