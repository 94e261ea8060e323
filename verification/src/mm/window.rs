//! The kernel's direct window onto physical memory, seen as 64-bit words.
//!
//! Allocator records and page tables live inside the memory they manage. The
//! verified code never dereferences an address itself: it reads and writes
//! eight-byte words through the [`WordMemory`] trait, and every contract is
//! stated over the trait's view, a map from address to word.

use std::collections::HashMap;
use vstd::prelude::*;

verus! {

/// Size of a page in bytes.
pub const PAGE_SIZE: u64 = 4096;

/// Number of 64-bit words in a page.
pub const WORDS_PER_PAGE: u64 = 512;

/// The first address of the page that contains `addr`.
pub open spec fn page_base(addr: u64) -> u64 {
    (addr - addr % 4096) as u64
}

/// Whether `addr` is the address of an eight-byte word.
pub open spec fn word_aligned(addr: u64) -> bool {
    addr % 8 == 0
}

/// Word-granular access to memory.
///
/// The view maps an address to the word stored there. Everything proved about
/// code that is generic over this trait holds for implementations that meet
/// the two contracts below; [`SparseMemory`] is one that is verified here.
/// An implementation outside verified code, such as one over the real
/// window, need not define the view: it is what its reads return.
pub trait WordMemory {
    /// The contents: the word stored at each address.
    open spec fn view(&self) -> Map<u64, u64> {
        arbitrary()
    }

    /// Reads the word at `addr`.
    fn read(&self, addr: u64) -> (value: u64)
        requires
            word_aligned(addr),
        ensures
            value == self@[addr],
    ;

    /// Stores `value` at `addr` and leaves every other word as it was.
    fn write(&mut self, addr: u64, value: u64)
        requires
            word_aligned(addr),
        ensures
            final(self)@ == old(self)@.insert(addr, value),
    ;
}

/// A memory that stores only the words written so far; every other word
/// reads as zero.
pub struct SparseMemory {
    words: HashMap<u64, u64>,
}

impl SparseMemory {
    /// The word that a read of `addr` returns.
    pub closed spec fn word_at(&self, addr: u64) -> u64 {
        if self.words@.contains_key(addr) {
            self.words@[addr]
        } else {
            0
        }
    }

    /// A memory in which every word is zero.
    pub fn new() -> (mem: Self)
        ensures
            forall|addr: u64| #[trigger] mem@[addr] == 0,
    {
        SparseMemory { words: HashMap::new() }
    }
}

impl WordMemory for SparseMemory {
    closed spec fn view(&self) -> Map<u64, u64> {
        Map::total(|addr: u64| self.word_at(addr))
    }

    fn read(&self, addr: u64) -> (value: u64) {
        broadcast use vstd::std_specs::hash::group_hash_axioms;
        match self.words.get(&addr) {
            Some(v) => *v,
            None => 0,
        }
    }

    fn write(&mut self, addr: u64, value: u64) {
        broadcast use vstd::std_specs::hash::group_hash_axioms;
        self.words.insert(addr, value);
        assert(self@ =~= old(self)@.insert(addr, value));
    }
}

} // verus!
