//! The buddy allocator: blocks of 2^order pages inside a window of the
//! direct map, kept in one doubly linked free list per order.
//!
//! A free block carries its list links in its own first two words: the
//! address of the next block of the list, then that of the previous one,
//! zero where there is none. One bit per pair of buddies and order records
//! whether exactly one of the two is free at that order, so that freeing a
//! block can tell, without a search, whether its buddy is free too.

use crate::mm::window::WordMemory;
use vstd::prelude::*;

verus! {

/// The highest order: blocks have 2^0 to 2^12 pages.
pub const MAX_ORDER: usize = 12;

/// Number of orders, and of free lists.
pub const ORDERS: usize = 13;

/// Size of a page in bytes.
pub const PAGE_SIZE: u64 = 4096;

/// Number of pages in the window: 1 GiB worth.
pub const MAX_PAGES: u64 = 262_144;

/// Size of the window in bytes.
pub const WINDOW_SIZE: u64 = 0x4000_0000;

/// Size of the pair bitmap in bytes.
pub const BITMAP_SIZE: usize = 32_768;

/// Number of pages of a block of order `order`.
pub open spec fn order_pages(order: int) -> int
    decreases order,
{
    if order <= 0 {
        1
    } else {
        2 * order_pages(order - 1)
    }
}

/// Size in bytes of a block of order `order`.
pub open spec fn order_size(order: int) -> int {
    4096 * order_pages(order)
}

/// Where the bits of order `order` start in the bitmap: after one bit for
/// each pair of every lower order.
pub open spec fn bit_base(order: int) -> int
    decreases order,
{
    if order <= 0 {
        0
    } else {
        bit_base(order - 1) + ((MAX_PAGES as int) / (2 * order_pages(order - 1)))
    }
}

/// Index of the bit of the pair that page `page` belongs to at `order`.
pub open spec fn bit_index(page: int, order: int) -> int {
    bit_base(order) + page / (2 * order_pages(order))
}

/// Whether bit `index` of the bitmap is set.
pub open spec fn bit_at(bitmap: Seq<u8>, index: int) -> bool {
    (bitmap[index / 8] >> ((index % 8) as u8)) & 1u8 == 1u8
}

/// The numbers of pages of the orders, and where their bits start.
pub proof fn lemma_orders()
    ensures
        order_pages(0) == 1,
        order_pages(1) == 2,
        order_pages(2) == 4,
        order_pages(3) == 8,
        order_pages(4) == 16,
        order_pages(5) == 32,
        order_pages(6) == 64,
        order_pages(7) == 128,
        order_pages(8) == 256,
        order_pages(9) == 512,
        order_pages(10) == 1024,
        order_pages(11) == 2048,
        order_pages(12) == 4096,
        order_pages(13) == 8192,
        bit_base(0) == 0,
        bit_base(1) == 131072,
        bit_base(2) == 196608,
        bit_base(3) == 229376,
        bit_base(4) == 245760,
        bit_base(5) == 253952,
        bit_base(6) == 258048,
        bit_base(7) == 260096,
        bit_base(8) == 261120,
        bit_base(9) == 261632,
        bit_base(10) == 261888,
        bit_base(11) == 262016,
        bit_base(12) == 262080,
{
    reveal_with_fuel(order_pages, 15);
    assert(bit_base(0) == 0);
    assert(bit_base(1) == bit_base(0) + 262144int / 2);
    assert(bit_base(2) == bit_base(1) + 262144int / 4);
    assert(bit_base(3) == bit_base(2) + 262144int / 8);
    assert(bit_base(4) == bit_base(3) + 262144int / 16);
    assert(bit_base(5) == bit_base(4) + 262144int / 32);
    assert(bit_base(6) == bit_base(5) + 262144int / 64);
    assert(bit_base(7) == bit_base(6) + 262144int / 128);
    assert(bit_base(8) == bit_base(7) + 262144int / 256);
    assert(bit_base(9) == bit_base(8) + 262144int / 512);
    assert(bit_base(10) == bit_base(9) + 262144int / 1024);
    assert(bit_base(11) == bit_base(10) + 262144int / 2048);
    assert(bit_base(12) == bit_base(11) + 262144int / 4096);
}

/// The number of pages of an order, as a case analysis can use it.
pub proof fn lemma_order_pages(order: int)
    requires
        0 <= order <= 12,
    ensures
        order_pages(order) == 1 || order_pages(order) == 2 || order_pages(order) == 4
            || order_pages(order) == 8 || order_pages(order) == 16 || order_pages(order) == 32
            || order_pages(order) == 64 || order_pages(order) == 128 || order_pages(order) == 256
            || order_pages(order) == 512 || order_pages(order) == 1024 || order_pages(order)
            == 2048 || order_pages(order) == 4096,
        order_pages(order + 1) == 2 * order_pages(order),
        1 <= order_pages(order) <= 4096,
        order_size(order) == 4096 * order_pages(order),
        0 <= bit_base(order) <= 262080,
        order <= 11 ==> bit_base(order + 1) == bit_base(order) + 262144int / (2 * order_pages(order)),
{
    lemma_orders();
}

/// Shifting the page size left by an order gives the size of the order.
proof fn lemma_shift_is_size(order: u64)
    by (bit_vector)
    requires
        order <= 12,
    ensures
        order == 0 ==> 4096u64 << order == 4096,
        order == 1 ==> 4096u64 << order == 8192,
        order == 2 ==> 4096u64 << order == 16384,
        order == 3 ==> 4096u64 << order == 32768,
        order == 4 ==> 4096u64 << order == 65536,
        order == 5 ==> 4096u64 << order == 131072,
        order == 6 ==> 4096u64 << order == 262144,
        order == 7 ==> 4096u64 << order == 524288,
        order == 8 ==> 4096u64 << order == 1048576,
        order == 9 ==> 4096u64 << order == 2097152,
        order == 10 ==> 4096u64 << order == 4194304,
        order == 11 ==> 4096u64 << order == 8388608,
        order == 12 ==> 4096u64 << order == 16777216,
{
}

/// Flipping the size bit of the offset of an aligned block moves it up or
/// down by one block, to its buddy.
proof fn lemma_xor_is_buddy(rel: u64, size: u64)
    by (bit_vector)
    requires
        rel < 0x4000_0000,
    ensures
        size == 4096 && rel % 4096 == 0 && (rel / 4096) % 2 == 0 ==> rel ^ size == rel + 4096,
        size == 4096 && rel % 4096 == 0 && (rel / 4096) % 2 == 1 ==> rel ^ size == rel - 4096,
        size == 8192 && rel % 8192 == 0 && (rel / 8192) % 2 == 0 ==> rel ^ size == rel + 8192,
        size == 8192 && rel % 8192 == 0 && (rel / 8192) % 2 == 1 ==> rel ^ size == rel - 8192,
        size == 16384 && rel % 16384 == 0 && (rel / 16384) % 2 == 0 ==> rel ^ size == rel + 16384,
        size == 16384 && rel % 16384 == 0 && (rel / 16384) % 2 == 1 ==> rel ^ size == rel - 16384,
        size == 32768 && rel % 32768 == 0 && (rel / 32768) % 2 == 0 ==> rel ^ size == rel + 32768,
        size == 32768 && rel % 32768 == 0 && (rel / 32768) % 2 == 1 ==> rel ^ size == rel - 32768,
        size == 65536 && rel % 65536 == 0 && (rel / 65536) % 2 == 0 ==> rel ^ size == rel + 65536,
        size == 65536 && rel % 65536 == 0 && (rel / 65536) % 2 == 1 ==> rel ^ size == rel - 65536,
        size == 131072 && rel % 131072 == 0 && (rel / 131072) % 2 == 0 ==> rel ^ size == rel + 131072,
        size == 131072 && rel % 131072 == 0 && (rel / 131072) % 2 == 1 ==> rel ^ size == rel - 131072,
        size == 262144 && rel % 262144 == 0 && (rel / 262144) % 2 == 0 ==> rel ^ size == rel + 262144,
        size == 262144 && rel % 262144 == 0 && (rel / 262144) % 2 == 1 ==> rel ^ size == rel - 262144,
        size == 524288 && rel % 524288 == 0 && (rel / 524288) % 2 == 0 ==> rel ^ size == rel + 524288,
        size == 524288 && rel % 524288 == 0 && (rel / 524288) % 2 == 1 ==> rel ^ size == rel - 524288,
        size == 1048576 && rel % 1048576 == 0 && (rel / 1048576) % 2 == 0 ==> rel ^ size == rel + 1048576,
        size == 1048576 && rel % 1048576 == 0 && (rel / 1048576) % 2 == 1 ==> rel ^ size == rel - 1048576,
        size == 2097152 && rel % 2097152 == 0 && (rel / 2097152) % 2 == 0 ==> rel ^ size == rel + 2097152,
        size == 2097152 && rel % 2097152 == 0 && (rel / 2097152) % 2 == 1 ==> rel ^ size == rel - 2097152,
        size == 4194304 && rel % 4194304 == 0 && (rel / 4194304) % 2 == 0 ==> rel ^ size == rel + 4194304,
        size == 4194304 && rel % 4194304 == 0 && (rel / 4194304) % 2 == 1 ==> rel ^ size == rel - 4194304,
        size == 8388608 && rel % 8388608 == 0 && (rel / 8388608) % 2 == 0 ==> rel ^ size == rel + 8388608,
        size == 8388608 && rel % 8388608 == 0 && (rel / 8388608) % 2 == 1 ==> rel ^ size == rel - 8388608,
{
}

/// Shifting a page index right by order plus one divides it by the number
/// of pages of a pair.
proof fn lemma_shift_is_pair(page: u64, order: u64)
    by (bit_vector)
    requires
        order <= 11,
        page < 262144,
    ensures
        order == 0 ==> page >> (order + 1) == page / 2,
        order == 1 ==> page >> (order + 1) == page / 4,
        order == 2 ==> page >> (order + 1) == page / 8,
        order == 3 ==> page >> (order + 1) == page / 16,
        order == 4 ==> page >> (order + 1) == page / 32,
        order == 5 ==> page >> (order + 1) == page / 64,
        order == 6 ==> page >> (order + 1) == page / 128,
        order == 7 ==> page >> (order + 1) == page / 256,
        order == 8 ==> page >> (order + 1) == page / 512,
        order == 9 ==> page >> (order + 1) == page / 1024,
        order == 10 ==> page >> (order + 1) == page / 2048,
        order == 11 ==> page >> (order + 1) == page / 4096,
{
}

/// Shifting the page count right by an order plus one halves it that often.
proof fn lemma_shift_is_base_step(i: u64)
    by (bit_vector)
    requires
        i <= 10,
    ensures
        i == 0 ==> 262144u64 >> (i + 1) == 131072,
        i == 1 ==> 262144u64 >> (i + 1) == 65536,
        i == 2 ==> 262144u64 >> (i + 1) == 32768,
        i == 3 ==> 262144u64 >> (i + 1) == 16384,
        i == 4 ==> 262144u64 >> (i + 1) == 8192,
        i == 5 ==> 262144u64 >> (i + 1) == 4096,
        i == 6 ==> 262144u64 >> (i + 1) == 2048,
        i == 7 ==> 262144u64 >> (i + 1) == 1024,
        i == 8 ==> 262144u64 >> (i + 1) == 512,
        i == 9 ==> 262144u64 >> (i + 1) == 256,
        i == 10 ==> 262144u64 >> (i + 1) == 128,
{
}

/// Flipping one bit of a byte changes that bit and no other.
proof fn lemma_flip_bit(byte: u8, bit: u8, other: u8)
    by (bit_vector)
    requires
        bit < 8,
        other < 8,
    ensures
        ((byte ^ (1u8 << bit)) >> bit) & 1u8 == 1u8 <==> !((byte >> bit) & 1u8 == 1u8),
        other != bit ==> (((byte ^ (1u8 << bit)) >> other) & 1u8 == 1u8 <==> (byte >> other) & 1u8
            == 1u8),
        ((byte ^ (1u8 << bit)) & (1u8 << bit) != 0) <==> ((byte ^ (1u8 << bit)) >> bit) & 1u8
            == 1u8,
{
}

/// Halving an aligned block: the offsets of the halves.
proof fn lemma_offsets_split(rel: u64)
    by (bit_vector)
    requires
        rel < 0x4000_0000,
    ensures
        rel % 8192 == 0 ==> rel % 4096 == 0 && (rel / 4096) % 2 == 0 && ((rel + 4096) as u64) % 4096 == 0,
        rel % 16384 == 0 ==> rel % 8192 == 0 && (rel / 8192) % 2 == 0 && ((rel + 8192) as u64) % 8192 == 0,
        rel % 32768 == 0 ==> rel % 16384 == 0 && (rel / 16384) % 2 == 0 && ((rel + 16384) as u64) % 16384 == 0,
        rel % 65536 == 0 ==> rel % 32768 == 0 && (rel / 32768) % 2 == 0 && ((rel + 32768) as u64) % 32768 == 0,
        rel % 131072 == 0 ==> rel % 65536 == 0 && (rel / 65536) % 2 == 0 && ((rel + 65536) as u64) % 65536 == 0,
        rel % 262144 == 0 ==> rel % 131072 == 0 && (rel / 131072) % 2 == 0 && ((rel + 131072) as u64) % 131072 == 0,
        rel % 524288 == 0 ==> rel % 262144 == 0 && (rel / 262144) % 2 == 0 && ((rel + 262144) as u64) % 262144 == 0,
        rel % 1048576 == 0 ==> rel % 524288 == 0 && (rel / 524288) % 2 == 0 && ((rel + 524288) as u64) % 524288 == 0,
        rel % 2097152 == 0 ==> rel % 1048576 == 0 && (rel / 1048576) % 2 == 0 && ((rel + 1048576) as u64) % 1048576 == 0,
        rel % 4194304 == 0 ==> rel % 2097152 == 0 && (rel / 2097152) % 2 == 0 && ((rel + 2097152) as u64) % 2097152 == 0,
        rel % 8388608 == 0 ==> rel % 4194304 == 0 && (rel / 4194304) % 2 == 0 && ((rel + 4194304) as u64) % 4194304 == 0,
        rel % 16777216 == 0 ==> rel % 8388608 == 0 && (rel / 8388608) % 2 == 0 && ((rel + 8388608) as u64) % 8388608 == 0,
{
}

/// The offset of a block and that of its buddy.
proof fn lemma_offsets_buddy(rel: u64)
    by (bit_vector)
    requires
        rel < 0x4000_0000,
    ensures
        rel % 4096 == 0 && (rel / 4096) % 2 == 0 ==> rel % 8192 == 0 && ((rel + 4096) as u64) % 4096 == 0 && (((rel + 4096) as u64) / 4096) % 2 == 1 && (((rel + 4096) as u64) / 4096) / 2 == (rel / 4096) / 2,
        rel % 4096 == 0 && (rel / 4096) % 2 == 1 ==> rel >= 4096 && ((rel - 4096) as u64) % 8192 == 0 && ((rel - 4096) as u64) % 4096 == 0 && (((rel - 4096) as u64) / 4096) % 2 == 0 && (((rel - 4096) as u64) / 4096) / 2 == (rel / 4096) / 2,
        rel % 4096 == 0 ==> rel % 4096 == 0 && (rel / 4096) / 2 < 131072 && ((rel / 4096) % 2 == 0 || (rel / 4096) % 2 == 1),
        rel % 8192 == 0 && (rel / 8192) % 2 == 0 ==> rel % 16384 == 0 && ((rel + 8192) as u64) % 8192 == 0 && (((rel + 8192) as u64) / 8192) % 2 == 1 && (((rel + 8192) as u64) / 4096) / 4 == (rel / 4096) / 4,
        rel % 8192 == 0 && (rel / 8192) % 2 == 1 ==> rel >= 8192 && ((rel - 8192) as u64) % 16384 == 0 && ((rel - 8192) as u64) % 8192 == 0 && (((rel - 8192) as u64) / 8192) % 2 == 0 && (((rel - 8192) as u64) / 4096) / 4 == (rel / 4096) / 4,
        rel % 8192 == 0 ==> rel % 4096 == 0 && (rel / 4096) / 4 < 65536 && ((rel / 8192) % 2 == 0 || (rel / 8192) % 2 == 1),
        rel % 16384 == 0 && (rel / 16384) % 2 == 0 ==> rel % 32768 == 0 && ((rel + 16384) as u64) % 16384 == 0 && (((rel + 16384) as u64) / 16384) % 2 == 1 && (((rel + 16384) as u64) / 4096) / 8 == (rel / 4096) / 8,
        rel % 16384 == 0 && (rel / 16384) % 2 == 1 ==> rel >= 16384 && ((rel - 16384) as u64) % 32768 == 0 && ((rel - 16384) as u64) % 16384 == 0 && (((rel - 16384) as u64) / 16384) % 2 == 0 && (((rel - 16384) as u64) / 4096) / 8 == (rel / 4096) / 8,
        rel % 16384 == 0 ==> rel % 4096 == 0 && (rel / 4096) / 8 < 32768 && ((rel / 16384) % 2 == 0 || (rel / 16384) % 2 == 1),
        rel % 32768 == 0 && (rel / 32768) % 2 == 0 ==> rel % 65536 == 0 && ((rel + 32768) as u64) % 32768 == 0 && (((rel + 32768) as u64) / 32768) % 2 == 1 && (((rel + 32768) as u64) / 4096) / 16 == (rel / 4096) / 16,
        rel % 32768 == 0 && (rel / 32768) % 2 == 1 ==> rel >= 32768 && ((rel - 32768) as u64) % 65536 == 0 && ((rel - 32768) as u64) % 32768 == 0 && (((rel - 32768) as u64) / 32768) % 2 == 0 && (((rel - 32768) as u64) / 4096) / 16 == (rel / 4096) / 16,
        rel % 32768 == 0 ==> rel % 4096 == 0 && (rel / 4096) / 16 < 16384 && ((rel / 32768) % 2 == 0 || (rel / 32768) % 2 == 1),
        rel % 65536 == 0 && (rel / 65536) % 2 == 0 ==> rel % 131072 == 0 && ((rel + 65536) as u64) % 65536 == 0 && (((rel + 65536) as u64) / 65536) % 2 == 1 && (((rel + 65536) as u64) / 4096) / 32 == (rel / 4096) / 32,
        rel % 65536 == 0 && (rel / 65536) % 2 == 1 ==> rel >= 65536 && ((rel - 65536) as u64) % 131072 == 0 && ((rel - 65536) as u64) % 65536 == 0 && (((rel - 65536) as u64) / 65536) % 2 == 0 && (((rel - 65536) as u64) / 4096) / 32 == (rel / 4096) / 32,
        rel % 65536 == 0 ==> rel % 4096 == 0 && (rel / 4096) / 32 < 8192 && ((rel / 65536) % 2 == 0 || (rel / 65536) % 2 == 1),
        rel % 131072 == 0 && (rel / 131072) % 2 == 0 ==> rel % 262144 == 0 && ((rel + 131072) as u64) % 131072 == 0 && (((rel + 131072) as u64) / 131072) % 2 == 1 && (((rel + 131072) as u64) / 4096) / 64 == (rel / 4096) / 64,
        rel % 131072 == 0 && (rel / 131072) % 2 == 1 ==> rel >= 131072 && ((rel - 131072) as u64) % 262144 == 0 && ((rel - 131072) as u64) % 131072 == 0 && (((rel - 131072) as u64) / 131072) % 2 == 0 && (((rel - 131072) as u64) / 4096) / 64 == (rel / 4096) / 64,
        rel % 131072 == 0 ==> rel % 4096 == 0 && (rel / 4096) / 64 < 4096 && ((rel / 131072) % 2 == 0 || (rel / 131072) % 2 == 1),
        rel % 262144 == 0 && (rel / 262144) % 2 == 0 ==> rel % 524288 == 0 && ((rel + 262144) as u64) % 262144 == 0 && (((rel + 262144) as u64) / 262144) % 2 == 1 && (((rel + 262144) as u64) / 4096) / 128 == (rel / 4096) / 128,
        rel % 262144 == 0 && (rel / 262144) % 2 == 1 ==> rel >= 262144 && ((rel - 262144) as u64) % 524288 == 0 && ((rel - 262144) as u64) % 262144 == 0 && (((rel - 262144) as u64) / 262144) % 2 == 0 && (((rel - 262144) as u64) / 4096) / 128 == (rel / 4096) / 128,
        rel % 262144 == 0 ==> rel % 4096 == 0 && (rel / 4096) / 128 < 2048 && ((rel / 262144) % 2 == 0 || (rel / 262144) % 2 == 1),
        rel % 524288 == 0 && (rel / 524288) % 2 == 0 ==> rel % 1048576 == 0 && ((rel + 524288) as u64) % 524288 == 0 && (((rel + 524288) as u64) / 524288) % 2 == 1 && (((rel + 524288) as u64) / 4096) / 256 == (rel / 4096) / 256,
        rel % 524288 == 0 && (rel / 524288) % 2 == 1 ==> rel >= 524288 && ((rel - 524288) as u64) % 1048576 == 0 && ((rel - 524288) as u64) % 524288 == 0 && (((rel - 524288) as u64) / 524288) % 2 == 0 && (((rel - 524288) as u64) / 4096) / 256 == (rel / 4096) / 256,
        rel % 524288 == 0 ==> rel % 4096 == 0 && (rel / 4096) / 256 < 1024 && ((rel / 524288) % 2 == 0 || (rel / 524288) % 2 == 1),
        rel % 1048576 == 0 && (rel / 1048576) % 2 == 0 ==> rel % 2097152 == 0 && ((rel + 1048576) as u64) % 1048576 == 0 && (((rel + 1048576) as u64) / 1048576) % 2 == 1 && (((rel + 1048576) as u64) / 4096) / 512 == (rel / 4096) / 512,
        rel % 1048576 == 0 && (rel / 1048576) % 2 == 1 ==> rel >= 1048576 && ((rel - 1048576) as u64) % 2097152 == 0 && ((rel - 1048576) as u64) % 1048576 == 0 && (((rel - 1048576) as u64) / 1048576) % 2 == 0 && (((rel - 1048576) as u64) / 4096) / 512 == (rel / 4096) / 512,
        rel % 1048576 == 0 ==> rel % 4096 == 0 && (rel / 4096) / 512 < 512 && ((rel / 1048576) % 2 == 0 || (rel / 1048576) % 2 == 1),
        rel % 2097152 == 0 && (rel / 2097152) % 2 == 0 ==> rel % 4194304 == 0 && ((rel + 2097152) as u64) % 2097152 == 0 && (((rel + 2097152) as u64) / 2097152) % 2 == 1 && (((rel + 2097152) as u64) / 4096) / 1024 == (rel / 4096) / 1024,
        rel % 2097152 == 0 && (rel / 2097152) % 2 == 1 ==> rel >= 2097152 && ((rel - 2097152) as u64) % 4194304 == 0 && ((rel - 2097152) as u64) % 2097152 == 0 && (((rel - 2097152) as u64) / 2097152) % 2 == 0 && (((rel - 2097152) as u64) / 4096) / 1024 == (rel / 4096) / 1024,
        rel % 2097152 == 0 ==> rel % 4096 == 0 && (rel / 4096) / 1024 < 256 && ((rel / 2097152) % 2 == 0 || (rel / 2097152) % 2 == 1),
        rel % 4194304 == 0 && (rel / 4194304) % 2 == 0 ==> rel % 8388608 == 0 && ((rel + 4194304) as u64) % 4194304 == 0 && (((rel + 4194304) as u64) / 4194304) % 2 == 1 && (((rel + 4194304) as u64) / 4096) / 2048 == (rel / 4096) / 2048,
        rel % 4194304 == 0 && (rel / 4194304) % 2 == 1 ==> rel >= 4194304 && ((rel - 4194304) as u64) % 8388608 == 0 && ((rel - 4194304) as u64) % 4194304 == 0 && (((rel - 4194304) as u64) / 4194304) % 2 == 0 && (((rel - 4194304) as u64) / 4096) / 2048 == (rel / 4096) / 2048,
        rel % 4194304 == 0 ==> rel % 4096 == 0 && (rel / 4096) / 2048 < 128 && ((rel / 4194304) % 2 == 0 || (rel / 4194304) % 2 == 1),
        rel % 8388608 == 0 && (rel / 8388608) % 2 == 0 ==> rel % 16777216 == 0 && ((rel + 8388608) as u64) % 8388608 == 0 && (((rel + 8388608) as u64) / 8388608) % 2 == 1 && (((rel + 8388608) as u64) / 4096) / 4096 == (rel / 4096) / 4096,
        rel % 8388608 == 0 && (rel / 8388608) % 2 == 1 ==> rel >= 8388608 && ((rel - 8388608) as u64) % 16777216 == 0 && ((rel - 8388608) as u64) % 8388608 == 0 && (((rel - 8388608) as u64) / 8388608) % 2 == 0 && (((rel - 8388608) as u64) / 4096) / 4096 == (rel / 4096) / 4096,
        rel % 8388608 == 0 ==> rel % 4096 == 0 && (rel / 4096) / 4096 < 64 && ((rel / 8388608) % 2 == 0 || (rel / 8388608) % 2 == 1),
{
}

/// Offsets of blocks of one pair.
proof fn lemma_offsets_pair(ra: u64, rb: u64)
    by (bit_vector)
    requires
        ra < 0x4000_0000,
        rb < 0x4000_0000,
    ensures
        ra % 4096 == 0 && rb % 4096 == 0 && (ra / 4096) / 2 == (rb / 4096) / 2 ==> rb == ra || ((ra / 4096) % 2 == 0 && rb == (ra + 4096) as u64) || ((ra / 4096) % 2 == 1 && (rb + 4096) as u64 == ra),
        ra % 8192 == 0 && rb % 8192 == 0 && (ra / 4096) / 4 == (rb / 4096) / 4 ==> rb == ra || ((ra / 8192) % 2 == 0 && rb == (ra + 8192) as u64) || ((ra / 8192) % 2 == 1 && (rb + 8192) as u64 == ra),
        ra % 16384 == 0 && rb % 16384 == 0 && (ra / 4096) / 8 == (rb / 4096) / 8 ==> rb == ra || ((ra / 16384) % 2 == 0 && rb == (ra + 16384) as u64) || ((ra / 16384) % 2 == 1 && (rb + 16384) as u64 == ra),
        ra % 32768 == 0 && rb % 32768 == 0 && (ra / 4096) / 16 == (rb / 4096) / 16 ==> rb == ra || ((ra / 32768) % 2 == 0 && rb == (ra + 32768) as u64) || ((ra / 32768) % 2 == 1 && (rb + 32768) as u64 == ra),
        ra % 65536 == 0 && rb % 65536 == 0 && (ra / 4096) / 32 == (rb / 4096) / 32 ==> rb == ra || ((ra / 65536) % 2 == 0 && rb == (ra + 65536) as u64) || ((ra / 65536) % 2 == 1 && (rb + 65536) as u64 == ra),
        ra % 131072 == 0 && rb % 131072 == 0 && (ra / 4096) / 64 == (rb / 4096) / 64 ==> rb == ra || ((ra / 131072) % 2 == 0 && rb == (ra + 131072) as u64) || ((ra / 131072) % 2 == 1 && (rb + 131072) as u64 == ra),
        ra % 262144 == 0 && rb % 262144 == 0 && (ra / 4096) / 128 == (rb / 4096) / 128 ==> rb == ra || ((ra / 262144) % 2 == 0 && rb == (ra + 262144) as u64) || ((ra / 262144) % 2 == 1 && (rb + 262144) as u64 == ra),
        ra % 524288 == 0 && rb % 524288 == 0 && (ra / 4096) / 256 == (rb / 4096) / 256 ==> rb == ra || ((ra / 524288) % 2 == 0 && rb == (ra + 524288) as u64) || ((ra / 524288) % 2 == 1 && (rb + 524288) as u64 == ra),
        ra % 1048576 == 0 && rb % 1048576 == 0 && (ra / 4096) / 512 == (rb / 4096) / 512 ==> rb == ra || ((ra / 1048576) % 2 == 0 && rb == (ra + 1048576) as u64) || ((ra / 1048576) % 2 == 1 && (rb + 1048576) as u64 == ra),
        ra % 2097152 == 0 && rb % 2097152 == 0 && (ra / 4096) / 1024 == (rb / 4096) / 1024 ==> rb == ra || ((ra / 2097152) % 2 == 0 && rb == (ra + 2097152) as u64) || ((ra / 2097152) % 2 == 1 && (rb + 2097152) as u64 == ra),
        ra % 4194304 == 0 && rb % 4194304 == 0 && (ra / 4096) / 2048 == (rb / 4096) / 2048 ==> rb == ra || ((ra / 4194304) % 2 == 0 && rb == (ra + 4194304) as u64) || ((ra / 4194304) % 2 == 1 && (rb + 4194304) as u64 == ra),
        ra % 8388608 == 0 && rb % 8388608 == 0 && (ra / 4096) / 4096 == (rb / 4096) / 4096 ==> rb == ra || ((ra / 8388608) % 2 == 0 && rb == (ra + 8388608) as u64) || ((ra / 8388608) % 2 == 1 && (rb + 8388608) as u64 == ra),
{
}

/// A block of `order` at `addr` lies in the window that starts at `offset`
/// and is aligned, relative to the window, to its own size. The null
/// address is no block.
pub open spec fn block_ok(offset: u64, addr: u64, order: int) -> bool {
    &&& addr != 0
    &&& addr >= offset
    &&& (addr - offset) % order_size(order) == 0
    &&& addr - offset + order_size(order) <= WINDOW_SIZE
}

/// Whether byte address `a` lies in the block of `order` at `addr`.
pub open spec fn in_block(addr: u64, order: int, a: int) -> bool {
    addr <= a < addr + order_size(order)
}

/// Two blocks have no byte in common.
pub open spec fn blocks_apart(a: u64, order_a: int, b: u64, order_b: int) -> bool {
    a + order_size(order_a) <= b || b + order_size(order_b) <= a
}

/// The buddy of the block of `order` at `addr`: the block whose offset in
/// the window differs in the bit of the block size.
pub open spec fn buddy_addr(offset: u64, addr: u64, order: int) -> u64 {
    if ((addr - offset) / order_size(order)) % 2 == 0 {
        (addr + order_size(order)) as u64
    } else {
        (addr - order_size(order)) as u64
    }
}

/// Index of the bit of the pair of the block of `order` at `addr`.
pub open spec fn pair_bit(offset: u64, addr: u64, order: int) -> int {
    bit_index((addr - offset) / 4096, order)
}

/// The first block of a list, or zero for an empty list.
pub open spec fn head_of(list: Seq<u64>) -> u64 {
    if list.len() > 0 {
        list[0]
    } else {
        0
    }
}

/// The block after position `i` of a list, or zero at the end.
pub open spec fn next_of(list: Seq<u64>, i: int) -> u64 {
    if i + 1 < list.len() {
        list[i + 1]
    } else {
        0
    }
}

/// The block before position `i` of a list, or zero at the start.
pub open spec fn prev_of(list: Seq<u64>, i: int) -> u64 {
    if i > 0 {
        list[i - 1]
    } else {
        0
    }
}

/// The free lists describe blocks of the window: one list for each order, each block
/// well placed for the order of its list, no two blocks overlapping, and
/// below the top order never both buddies of a pair in a list.
pub open spec fn lists_ok(lists: Seq<Seq<u64>>, offset: u64) -> bool {
    &&& lists.len() == ORDERS
    &&& offset % 4096 == 0
    &&& offset <= u64::MAX - WINDOW_SIZE
    &&& forall|k: int, i: int|
        0 <= k < ORDERS && 0 <= i < lists[k].len() ==> block_ok(offset, #[trigger] lists[k][i], k)
    &&& all_apart(lists)
    &&& forall|k: int, i: int|
        0 <= k < MAX_ORDER && 0 <= i < lists[k].len() ==> !lists[k].contains(
            buddy_addr(offset, #[trigger] lists[k][i], k),
        )
}

/// The block at place `i` of list `k` holds the address of the next block
/// in its first word and that of the previous block in its second.
pub open spec fn link_ok(mem: Map<u64, u64>, lists: Seq<Seq<u64>>, k: int, i: int) -> bool {
    mem[lists[k][i]] == next_of(lists[k], i) && mem[(lists[k][i] + 8) as u64] == prev_of(
        lists[k],
        i,
    )
}

/// The links in memory spell out the lists: each head is the first block
/// of its list, and each block holds the addresses of its neighbours.
#[verifier::opaque]
pub open spec fn links_ok(mem: Map<u64, u64>, lists: Seq<Seq<u64>>, heads: Seq<u64>) -> bool {
    &&& heads.len() == ORDERS
    &&& forall|k: int| 0 <= k < ORDERS ==> #[trigger] heads[k] == head_of(lists[k])
    &&& forall|k: int, i: int|
        0 <= k < ORDERS && 0 <= i < lists[k].len() ==> #[trigger] link_ok(mem, lists, k, i)
}

/// Each pair bit below the top order says whether exactly one block of the
/// pair is in the list of its order.
#[verifier::opaque]
pub open spec fn bits_ok(bitmap: Seq<u8>, lists: Seq<Seq<u64>>, offset: u64) -> bool {
    &&& bitmap.len() == BITMAP_SIZE
    &&& forall|k: int, addr: u64|
        0 <= k < MAX_ORDER && #[trigger] block_ok(offset, addr, k) ==> bit_at(
            bitmap,
            pair_bit(offset, addr, k),
        ) == (lists[k].contains(addr) != lists[k].contains(buddy_addr(offset, addr, k)))
}

/// Whether byte address `a` lies in a free block.
pub open spec fn covered(lists: Seq<Seq<u64>>, a: int) -> bool {
    exists|k: int, i: int|
        0 <= k < ORDERS && 0 <= i < lists[k].len() && in_block(#[trigger] lists[k][i], k, a)
}

/// Facts about a block below the top order and its buddy: the buddy is a
/// block of the same order and pair, next to the block; the lower of the
/// two is a block of the next order, made of exactly the two.
#[verifier::rlimit(100)]
#[verifier::spinoff_prover]
pub proof fn lemma_buddy(offset: u64, addr: u64, order: int)
    requires
        0 <= order < MAX_ORDER,
        offset % 4096 == 0,
        offset <= u64::MAX - WINDOW_SIZE,
        block_ok(offset, addr, order),
    ensures
        ({
            let buddy = buddy_addr(offset, addr, order);
            let low = if addr < buddy {
                addr
            } else {
                buddy
            };
            let high = if addr < buddy {
                buddy
            } else {
                addr
            };
            &&& block_ok(offset, buddy, order) || buddy == 0
            &&& buddy != addr
            &&& buddy >= offset
            &&& (buddy - offset) % order_size(order) == 0
            &&& buddy - offset + order_size(order) <= WINDOW_SIZE
            &&& buddy_addr(offset, buddy, order) == addr
            &&& high == low + order_size(order)
            &&& (low - offset) % order_size(order + 1) == 0
            &&& low - offset + order_size(order + 1) <= WINDOW_SIZE
            &&& order_size(order + 1) == 2 * order_size(order)
            &&& pair_bit(offset, buddy, order) == pair_bit(offset, addr, order)
            &&& bit_base(order) <= pair_bit(offset, addr, order) < bit_base(order + 1)
            &&& bit_base(order + 1) <= 262144
            &&& (addr - offset) / 4096 < 262144
            &&& (addr - offset) % 4096 == 0
        }),
{
    lemma_orders();
    lemma_order_pages(order);
    lemma_offsets_buddy((addr - offset) as u64);
}

/// Two blocks of one order whose pair bits are the same are the same block
/// or buddies.
pub proof fn lemma_same_pair(offset: u64, a: u64, b: u64, order: int)
    requires
        0 <= order < MAX_ORDER,
        offset % 4096 == 0,
        offset <= u64::MAX - WINDOW_SIZE,
        block_ok(offset, a, order),
        block_ok(offset, b, order),
        pair_bit(offset, a, order) == pair_bit(offset, b, order),
    ensures
        b == a || b == buddy_addr(offset, a, order),
{
    lemma_orders();
    lemma_order_pages(order);
    lemma_offsets_pair((a - offset) as u64, (b - offset) as u64);
    lemma_offsets_buddy((a - offset) as u64);
}

/// The pair bits of different orders are different bits.
pub proof fn lemma_pair_bits_of_orders(offset: u64, a: u64, order_a: int, b: u64, order_b: int)
    requires
        0 <= order_a < order_b < MAX_ORDER,
        offset % 4096 == 0,
        offset <= u64::MAX - WINDOW_SIZE,
        block_ok(offset, a, order_a),
        block_ok(offset, b, order_b),
    ensures
        pair_bit(offset, a, order_a) < pair_bit(offset, b, order_b),
{
    lemma_orders();
    lemma_buddy(offset, a, order_a);
    lemma_buddy(offset, b, order_b);
}

/// A block of an order above zero splits into two blocks of the order
/// below: itself and its buddy there, which follows it.
pub proof fn lemma_split(offset: u64, addr: u64, order: int)
    requires
        0 <= order < MAX_ORDER,
        offset % 4096 == 0,
        offset <= u64::MAX - WINDOW_SIZE,
        block_ok(offset, addr, order + 1),
    ensures
        block_ok(offset, addr, order),
        buddy_addr(offset, addr, order) == addr + order_size(order),
        block_ok(offset, (addr + order_size(order)) as u64, order),
        order_size(order + 1) == 2 * order_size(order),
{
    lemma_orders();
    lemma_order_pages(order);
    lemma_offsets_split((addr - offset) as u64);
    lemma_offsets_buddy((addr - offset) as u64);
}

/// A list node can stand at `addr`: a page of the window, not the null
/// address.
pub open spec fn node_ok(offset: u64, addr: u64) -> bool {
    &&& addr != 0
    &&& addr >= offset
    &&& (addr - offset) % 4096 == 0
    &&& addr - offset < WINDOW_SIZE
}

/// The lists hold list nodes, each only once.
#[verifier::opaque]
pub open spec fn nodes_ok(lists: Seq<Seq<u64>>, offset: u64) -> bool {
    &&& lists.len() == ORDERS
    &&& offset % 4096 == 0
    &&& offset <= u64::MAX - WINDOW_SIZE
    &&& forall|k: int, i: int|
        0 <= k < ORDERS && 0 <= i < lists[k].len() ==> node_ok(offset, #[trigger] lists[k][i])
    &&& all_distinct(lists)
}

/// Whether `addr` stands in one of the lists.
#[verifier::opaque]
pub open spec fn is_listed(lists: Seq<Seq<u64>>, addr: u64) -> bool {
    exists|k: int, i: int| 0 <= k < ORDERS && 0 <= i < lists[k].len() && lists[k][i] == addr
}

/// No address stands twice in the lists.
#[verifier::opaque]
pub open spec fn all_distinct(lists: Seq<Seq<u64>>) -> bool {
    forall|k: int, i: int, k2: int, i2: int|
        0 <= k < ORDERS && 0 <= i < lists[k].len() && 0 <= k2 < ORDERS && 0 <= i2
            < lists[k2].len() && (k != k2 || i != i2) ==> #[trigger] lists[k][i]
            != #[trigger] lists[k2][i2]
}

/// Two different places of the lists hold different addresses.
pub proof fn lemma_distinct(lists: Seq<Seq<u64>>, k: int, i: int, k2: int, i2: int)
    requires
        all_distinct(lists),
        0 <= k < ORDERS,
        0 <= i < lists[k].len(),
        0 <= k2 < ORDERS,
        0 <= i2 < lists[k2].len(),
        k != k2 || i != i2,
    ensures
        lists[k][i] != lists[k2][i2],
{
    reveal(all_distinct);
}

/// No two blocks of the lists overlap.
#[verifier::opaque]
pub open spec fn all_apart(lists: Seq<Seq<u64>>) -> bool {
    forall|k: int, i: int, k2: int, i2: int|
        0 <= k < ORDERS && 0 <= i < lists[k].len() && 0 <= k2 < ORDERS && 0 <= i2
            < lists[k2].len() && (k != k2 || i != i2) ==> blocks_apart(
            #[trigger] lists[k][i],
            k,
            #[trigger] lists[k2][i2],
            k2,
        )
}

/// Two different places of the lists hold blocks that do not overlap.
pub proof fn lemma_apart(lists: Seq<Seq<u64>>, k: int, i: int, k2: int, i2: int)
    requires
        all_apart(lists),
        0 <= k < ORDERS,
        0 <= i < lists[k].len(),
        0 <= k2 < ORDERS,
        0 <= i2 < lists[k2].len(),
        k != k2 || i != i2,
    ensures
        blocks_apart(lists[k][i], k, lists[k2][i2], k2),
{
    reveal(all_apart);
}

/// Well-placed, non-overlapping blocks are list nodes, each only once.
pub proof fn lemma_lists_are_nodes(lists: Seq<Seq<u64>>, offset: u64)
    requires
        lists_ok(lists, offset),
    ensures
        nodes_ok(lists, offset),
{
    lemma_orders();
    reveal(nodes_ok);
    reveal(links_ok);
    assert forall|k: int, i: int| 0 <= k < ORDERS && 0 <= i < lists[k].len() implies node_ok(
        offset,
        #[trigger] lists[k][i],
    ) by {
        lemma_block_is_node(offset, lists[k][i], k);
    }
    assert forall|k: int, i: int, k2: int, i2: int|
        0 <= k < ORDERS && 0 <= i < lists[k].len() && 0 <= k2 < ORDERS && 0 <= i2
            < lists[k2].len() && (k != k2 || i != i2) implies #[trigger] lists[k][i]
        != #[trigger] lists[k2][i2] by {
        lemma_order_pages(k);
        lemma_order_pages(k2);
        lemma_apart(lists, k, i, k2, i2);
    }
    reveal(all_distinct);
}

/// A block starts at a list node.
pub proof fn lemma_block_is_node(offset: u64, addr: u64, order: int)
    requires
        0 <= order < ORDERS,
        offset % 4096 == 0,
        offset <= u64::MAX - WINDOW_SIZE,
        block_ok(offset, addr, order),
    ensures
        node_ok(offset, addr),
        addr % 8 == 0,
        4096 <= order_size(order) <= 16777216,
{
    lemma_orders();
    lemma_order_pages(order);
    if order < 12 {
        lemma_buddy(offset, addr, order);
    } else {
        lemma_offsets_split((addr - offset) as u64);
        assert(order_size(12) == 16777216);
        lemma_top_block((addr - offset) as u64);
    }
    lemma_node_is_word(offset, addr);
}

/// A block of the top order starts at a page.
proof fn lemma_top_block(rel: u64)
    by (bit_vector)
    requires
        rel % 16777216 == 0,
    ensures
        rel % 4096 == 0,
{
}

/// A list node is word aligned.
proof fn lemma_node_is_word(offset: u64, addr: u64)
    requires
        offset % 4096 == 0,
        addr >= offset,
        (addr - offset) % 4096 == 0,
    ensures
        addr % 8 == 0,
        addr % 4096 == 0,
{
    lemma_page_is_word(offset);
    lemma_page_is_word((addr - offset) as u64);
}

/// A multiple of the page size is a multiple of the word size.
proof fn lemma_page_is_word(x: u64)
    by (bit_vector)
    requires
        x % 4096 == 0,
    ensures
        x % 8 == 0,
{
}

/// The buddy allocator.
pub struct BuddyAllocator {
    free_lists: [u64; 13],
    bitmap: Vec<u8>,
    offset: u64,
    lists: Ghost<Seq<Seq<u64>>>,
}

impl BuddyAllocator {
    /// The free blocks of each order, in list order, by address.
    pub closed spec fn free_lists(&self) -> Seq<Seq<u64>> {
        self.lists@
    }

    /// Where the window starts.
    pub closed spec fn offset(&self) -> u64 {
        self.offset
    }

    /// The heads of the free lists.
    pub closed spec fn heads(&self) -> Seq<u64> {
        self.free_lists@
    }

    /// The pair bitmap.
    pub closed spec fn bitmap(&self) -> Seq<u8> {
        self.bitmap@
    }

    /// The allocator is consistent with itself and with the links that the
    /// free blocks hold in memory.
    pub open spec fn wf(&self, mem: Map<u64, u64>) -> bool {
        &&& lists_ok(self.free_lists(), self.offset())
        &&& links_ok(mem, self.free_lists(), self.heads())
        &&& bits_ok(self.bitmap(), self.free_lists(), self.offset())
    }

    /// Nothing is free and no pair bit is set.
    pub open spec fn pristine(&self) -> bool {
        &&& self.free_lists() == Seq::new(ORDERS as nat, |k: int| Seq::<u64>::empty())
        &&& self.heads() == Seq::new(ORDERS as nat, |k: int| 0u64)
        &&& self.bitmap().len() == BITMAP_SIZE
        &&& forall|i: int| 0 <= i < BITMAP_SIZE ==> #[trigger] self.bitmap()[i] == 0
    }

    /// An allocator with nothing free, whose window starts at address zero.
    pub fn new() -> (allocator: Self)
        ensures
            allocator.pristine(),
            allocator.offset() == 0,
    {
        let bitmap: Vec<u8> = vec![0u8; BITMAP_SIZE];
        let allocator = BuddyAllocator {
            free_lists: [0u64; 13],
            bitmap,
            offset: 0,
            lists: Ghost(Seq::new(ORDERS as nat, |k: int| Seq::<u64>::empty())),
        };
        assert(allocator.heads() =~= Seq::new(ORDERS as nat, |k: int| 0u64));
        assert forall|i: int| 0 <= i < BITMAP_SIZE implies #[trigger] allocator.bitmap()[i] == 0 by {
            assert(cloned(0u8, allocator.bitmap()[i]));
        }
        allocator
    }

    /// Sets where the window starts, before any block is added.
    pub fn set_offset(&mut self, offset: u64)
        requires
            old(self).pristine(),
        ensures
            final(self).pristine(),
            final(self).offset() == offset,
    {
        self.offset = offset;
    }

    /// A pristine allocator whose window is page aligned and fits the
    /// address space is consistent with any memory.
    pub proof fn lemma_pristine_is_wf(&self, mem: Map<u64, u64>)
        requires
            self.pristine(),
            self.offset() % 4096 == 0,
            self.offset() <= u64::MAX - WINDOW_SIZE,
        ensures
            self.wf(mem),
    {
        let lists = self.free_lists();
        let offset = self.offset();
        reveal(all_apart);
        reveal(links_ok);
        reveal(bits_ok);
        assert forall|k: int, addr: u64|
            0 <= k < MAX_ORDER && #[trigger] block_ok(offset, addr, k) implies bit_at(
            self.bitmap(),
            pair_bit(offset, addr, k),
        ) == (lists[k].contains(addr) != lists[k].contains(buddy_addr(offset, addr, k))) by {
            lemma_buddy(offset, addr, k);
            lemma_orders();
            let index = pair_bit(offset, addr, k);
            assert(0 <= index < 262144);
            assert(0 <= index / 8 < BITMAP_SIZE);
            lemma_zero_byte((index % 8) as u8);
        }
    }
}

impl BuddyAllocator {
    /// Index of the pair bit of the block of `order` that holds page
    /// `page_idx`: the bits of the lower orders come first, one for each
    /// pair, then the pairs of this order in address order.
    fn get_bit_index(&self, page_idx: u64, order: usize) -> (index: usize)
        requires
            order < MAX_ORDER,
            page_idx < MAX_PAGES,
        ensures
            index == bit_index(page_idx as int, order as int),
            bit_base(order as int) <= index < bit_base(order + 1),
            index < 262144,
    {
        proof {
            lemma_orders();
        }
        let mut offset: u64 = 0;
        let mut i: usize = 0;
        while i < order
            invariant
                i <= order,
                order < MAX_ORDER,
                offset == bit_base(i as int),
            decreases order - i,
        {
            proof {
                lemma_shift_is_base_step(i as u64);
                lemma_order_pages(i as int);
                lemma_orders();
            }
            offset += MAX_PAGES >> (i as u64 + 1);
            i += 1;
        }
        proof {
            lemma_shift_is_pair(page_idx, order as u64);
            lemma_order_pages(order as int);
            lemma_orders();
        }
        (offset + (page_idx >> (order as u64 + 1))) as usize
    }

    /// Flips the pair bit for page `page_idx` at `order` and returns its
    /// new value.
    fn toggle_bit(&mut self, page_idx: u64, order: usize) -> (now: bool)
        requires
            order < MAX_ORDER,
            page_idx < MAX_PAGES,
            old(self).bitmap().len() == BITMAP_SIZE,
        ensures
            final(self).bitmap().len() == BITMAP_SIZE,
            final(self).free_lists() == old(self).free_lists(),
            final(self).heads() == old(self).heads(),
            final(self).offset() == old(self).offset(),
            now == bit_at(final(self).bitmap(), bit_index(page_idx as int, order as int)),
            now == !bit_at(old(self).bitmap(), bit_index(page_idx as int, order as int)),
            forall|other: int|
                0 <= other < 262144 && other != bit_index(page_idx as int, order as int) ==> bit_at(
                    final(self).bitmap(),
                    other,
                ) == bit_at(old(self).bitmap(), other),
    {
        let bit_idx = self.get_bit_index(page_idx, order);
        let byte_idx = bit_idx / 8;
        let bit_offset = (bit_idx % 8) as u8;
        let before = self.bitmap[byte_idx];
        let after = before ^ (1u8 << bit_offset);
        self.bitmap.set(byte_idx, after);
        proof {
            lemma_flip_bit(before, bit_offset, bit_offset);
            assert forall|other: int| 0 <= other < 262144 && other != bit_idx implies bit_at(
                self.bitmap(),
                other,
            ) == bit_at(old(self).bitmap(), other) by {
                if other / 8 == byte_idx {
                    lemma_flip_bit(before, bit_offset, (other % 8) as u8);
                }
            }
        }
        (after & (1u8 << bit_offset)) != 0
    }

    /// The address of the buddy of the block of `order` at `ptr`: the
    /// offset of the block in the window with the bit of the block size
    /// flipped.
    fn calculate_buddy_address(&self, ptr: u64, order: usize) -> (buddy: u64)
        requires
            order < MAX_ORDER,
            self.offset() % 4096 == 0,
            self.offset() <= u64::MAX - WINDOW_SIZE,
            block_ok(self.offset(), ptr, order as int),
        ensures
            buddy == buddy_addr(self.offset(), ptr, order as int),
    {
        proof {
            lemma_shift_is_size(order as u64);
            lemma_orders();
            lemma_order_pages(order as int);
            lemma_buddy(self.offset, ptr, order as int);
            lemma_xor_is_buddy((ptr - self.offset) as u64, (4096u64 << (order as u64)));
            lemma_offsets_buddy((ptr - self.offset) as u64);
        }
        let block_size: u64 = PAGE_SIZE << (order as u64);
        let relative_addr = ptr - self.offset;
        let buddy_relative_addr = relative_addr ^ block_size;
        buddy_relative_addr + self.offset
    }

    /// Puts the block at `ptr` at the head of the free list of `order`.
    #[verifier::rlimit(100)]
    #[verifier::spinoff_prover]
    fn push_free<M: WordMemory>(&mut self, mem: &mut M, ptr: u64, order: usize)
        requires
            order < ORDERS,
            nodes_ok(old(self).free_lists(), old(self).offset()),
            links_ok(old(mem)@, old(self).free_lists(), old(self).heads()),
            node_ok(old(self).offset(), ptr),
            !is_listed(old(self).free_lists(), ptr),
        ensures
            final(self).offset() == old(self).offset(),
            final(self).bitmap() == old(self).bitmap(),
            final(self).free_lists() == old(self).free_lists().update(
                order as int,
                seq![ptr] + old(self).free_lists()[order as int],
            ),
            nodes_ok(final(self).free_lists(), final(self).offset()),
            links_ok(final(mem)@, final(self).free_lists(), final(self).heads()),
            final(mem)@ == memory_after_push(
                old(mem)@,
                ptr,
                head_of(old(self).free_lists()[order as int]),
            ),
    {
        let ghost lists = self.lists@;
        let ghost offset = self.offset;
        let ghost heads = self.heads();
        let head = self.free_lists[order];
        proof {
            lemma_head(old(mem)@, lists, heads, offset, order as int);
            lemma_node_is_word(offset, ptr);
        }
        mem.write(ptr + 8, 0);
        mem.write(ptr, head);
        if head != 0 {
            mem.write(head + 8, ptr);
        }
        self.free_lists[order] = ptr;
        proof {
            self.lists = Ghost(lists.update(order as int, seq![ptr] + lists[order as int]));
            lemma_links_after_push(old(mem)@, lists, heads, offset, ptr, order as int);
            assert(self.heads() =~= heads.update(order as int, ptr));
        }
    }

    /// Takes the block at position `index` of the free list of `order` out
    /// of the list and clears its links.
    #[verifier::rlimit(100)]
    #[verifier::spinoff_prover]
    fn remove_frame<M: WordMemory>(
        &mut self,
        mem: &mut M,
        ptr: u64,
        order: usize,
        Ghost(index): Ghost<int>,
    )
        requires
            order < ORDERS,
            nodes_ok(old(self).free_lists(), old(self).offset()),
            links_ok(old(mem)@, old(self).free_lists(), old(self).heads()),
            0 <= index < old(self).free_lists()[order as int].len(),
            old(self).free_lists()[order as int][index] == ptr,
        ensures
            final(self).offset() == old(self).offset(),
            final(self).bitmap() == old(self).bitmap(),
            final(self).free_lists() == old(self).free_lists().update(
                order as int,
                old(self).free_lists()[order as int].remove(index),
            ),
            nodes_ok(final(self).free_lists(), final(self).offset()),
            links_ok(final(mem)@, final(self).free_lists(), final(self).heads()),
            final(mem)@ == memory_after_remove(
                old(mem)@,
                ptr,
                prev_of(old(self).free_lists()[order as int], index),
                next_of(old(self).free_lists()[order as int], index),
            ),
    {
        let ghost lists = self.lists@;
        let ghost offset = self.offset;
        let ghost heads = self.heads();
        let ghost list = lists[order as int];
        proof {
            lemma_node_links(old(mem)@, lists, heads, offset, order as int, index);
            lemma_head(old(mem)@, lists, heads, offset, order as int);
        }
        let next = mem.read(ptr);
        let prev = mem.read(ptr + 8);
        if prev != 0 {
            mem.write(prev, next);
        } else {
            self.free_lists[order] = next;
        }
        if next != 0 {
            mem.write(next + 8, prev);
        }
        mem.write(ptr, 0);
        mem.write(ptr + 8, 0);
        proof {
            self.lists = Ghost(lists.update(order as int, list.remove(index)));
            lemma_links_after_remove(old(mem)@, lists, heads, offset, order as int, index);
            assert(self.heads() =~= (if index == 0 {
                heads.update(order as int, next)
            } else {
                heads
            }));
        }
    }
}

/// The head of a list is its first block, a word-aligned node, or zero.
proof fn lemma_head(
    mem: Map<u64, u64>,
    lists: Seq<Seq<u64>>,
    heads: Seq<u64>,
    offset: u64,
    order: int,
)
    requires
        0 <= order < ORDERS,
        nodes_ok(lists, offset),
        links_ok(mem, lists, heads),
    ensures
        heads.len() == ORDERS,
        heads[order] == head_of(lists[order]),
        lists[order].len() > 0 ==> heads[order] != 0 && heads[order] % 8 == 0 && heads[order]
            <= u64::MAX - 16 && node_ok(offset, heads[order]),
        lists[order].len() == 0 ==> heads[order] == 0,
        offset % 4096 == 0,
        offset <= u64::MAX - WINDOW_SIZE,
{
    reveal(nodes_ok);
    reveal(links_ok);
    if lists[order].len() > 0 {
        assert(node_ok(offset, lists[order][0]));
        lemma_node_is_word(offset, lists[order][0]);
    }
}

/// The block at a place of a list holds the addresses of its neighbours,
/// which are word-aligned nodes.
proof fn lemma_node_links(
    mem: Map<u64, u64>,
    lists: Seq<Seq<u64>>,
    heads: Seq<u64>,
    offset: u64,
    order: int,
    index: int,
)
    requires
        0 <= order < ORDERS,
        nodes_ok(lists, offset),
        links_ok(mem, lists, heads),
        0 <= index < lists[order].len(),
    ensures
        ({
            let ptr = lists[order][index];
            let next = next_of(lists[order], index);
            let prev = prev_of(lists[order], index);
            &&& mem[ptr] == next
            &&& mem[(ptr + 8) as u64] == prev
            &&& node_ok(offset, ptr)
            &&& ptr % 8 == 0
            &&& ptr <= u64::MAX - 16
            &&& next % 8 == 0
            &&& prev % 8 == 0
            &&& next <= u64::MAX - 16
            &&& prev <= u64::MAX - 16
            &&& (index == 0 <==> prev == 0)
            &&& (index + 1 == lists[order].len() <==> next == 0)
        }),
{
    reveal(nodes_ok);
    reveal(links_ok);
    let ptr = lists[order][index];
    assert(link_ok(mem, lists, order, index));
    assert(node_ok(offset, lists[order][index]));
    lemma_node_is_word(offset, ptr);
    if index > 0 {
        assert(node_ok(offset, lists[order][index - 1]));
        lemma_node_is_word(offset, lists[order][index - 1]);
    }
    if index + 1 < lists[order].len() {
        assert(node_ok(offset, lists[order][index + 1]));
        lemma_node_is_word(offset, lists[order][index + 1]);
    }
}

/// The memory after a block has been put in front of a list whose head was
/// `head`.
pub open spec fn memory_after_push(mem: Map<u64, u64>, ptr: u64, head: u64) -> Map<u64, u64> {
    let linked = mem.insert((ptr + 8) as u64, 0).insert(ptr, head);
    if head != 0 {
        linked.insert((head + 8) as u64, ptr)
    } else {
        linked
    }
}

/// The memory after the block at `ptr`, between `prev` and `next` (zero
/// where there is none), has been taken out of its list.
pub open spec fn memory_after_remove(mem: Map<u64, u64>, ptr: u64, prev: u64, next: u64) -> Map<
    u64,
    u64,
> {
    let m1 = if prev != 0 {
        mem.insert(prev, next)
    } else {
        mem
    };
    let m2 = if next != 0 {
        m1.insert((next + 8) as u64, prev)
    } else {
        m1
    };
    m2.insert(ptr, 0).insert((ptr + 8) as u64, 0)
}

/// Two list nodes share no word unless they are the same node.
proof fn lemma_nodes_apart(offset: u64, a: u64, b: u64)
    requires
        offset % 4096 == 0,
        offset <= u64::MAX - WINDOW_SIZE,
        node_ok(offset, a),
        node_ok(offset, b),
        a != b,
    ensures
        a + 8 != b,
        b + 8 != a,
        a + 8 != b + 8,
        a + 8 <= u64::MAX,
{
}

/// After a push the links spell out the new lists.
#[verifier::rlimit(50)]
proof fn lemma_links_after_push(
    mem: Map<u64, u64>,
    lists: Seq<Seq<u64>>,
    heads: Seq<u64>,
    offset: u64,
    ptr: u64,
    order: int,
)
    requires
        0 <= order < ORDERS,
        nodes_ok(lists, offset),
        links_ok(mem, lists, heads),
        node_ok(offset, ptr),
        !is_listed(lists, ptr),
    ensures
        nodes_ok(lists.update(order, seq![ptr] + lists[order]), offset),
        links_ok(
            memory_after_push(mem, ptr, head_of(lists[order])),
            lists.update(order, seq![ptr] + lists[order]),
            heads.update(order, ptr),
        ),
{
    let after = lists.update(order, seq![ptr] + lists[order]);
    reveal(nodes_ok);
    reveal(links_ok);
    let head = head_of(lists[order]);
    let mem2 = memory_after_push(mem, ptr, head);
    let heads2 = heads.update(order, ptr);
    assert forall|k: int, i: int| 0 <= k < ORDERS && 0 <= i < after[k].len() implies node_ok(
        offset,
        #[trigger] after[k][i],
    ) by {
        if k == order && i > 0 {
            assert(node_ok(offset, lists[k][i - 1]));
        } else if k != order {
            assert(node_ok(offset, lists[k][i]));
        }
    }
    assert(all_distinct(after)) by {
        assert forall|k: int, i: int, k2: int, i2: int|
            0 <= k < ORDERS && 0 <= i < after[k].len() && 0 <= k2 < ORDERS && 0 <= i2
                < after[k2].len() && (k != k2 || i != i2) implies #[trigger] after[k][i]
            != #[trigger] after[k2][i2] by {
            let j = if k == order {
                i - 1
            } else {
                i
            };
            let j2 = if k2 == order {
                i2 - 1
            } else {
                i2
            };
            if j >= 0 && j2 >= 0 {
                lemma_distinct(lists, k, j, k2, j2);
            } else if j >= 0 {
                assert(lists[k][j] != ptr) by {
                    reveal(is_listed);
                }
            } else if j2 >= 0 {
                assert(lists[k2][j2] != ptr) by {
                    reveal(is_listed);
                }
            }
        }
        reveal(all_distinct);
    }
    assert forall|k: int| 0 <= k < ORDERS implies #[trigger] heads2[k] == head_of(after[k]) by {
        if k != order {
            assert(heads[k] == head_of(lists[k]));
        }
    }
    assert forall|k: int, i: int|
        0 <= k < ORDERS && 0 <= i < after[k].len() implies #[trigger] link_ok(mem2, after, k, i) by {
        if lists[order].len() > 0 {
            assert(node_ok(offset, lists[order][0]));
            assert(lists[order][0] != ptr) by {
                reveal(is_listed);
            }
            lemma_nodes_apart(offset, ptr, head);
        }
        if k == order && i == 0 {
        } else {
            let j = if k == order {
                i - 1
            } else {
                i
            };
            let node = lists[k][j];
            assert(after[k][i] == node);
            assert(node_ok(offset, node));
            assert(node != ptr) by {
                reveal(is_listed);
            }
            lemma_nodes_apart(offset, node, ptr);
            assert(link_ok(mem, lists, k, j));
            if lists[order].len() > 0 {
                if k != order || j != 0 {
                    lemma_distinct(lists, k, j, order, 0);
                    lemma_nodes_apart(offset, node, head);
                }
            }
        }
    }
}

/// After a removal the links spell out the new lists.
#[verifier::rlimit(50)]
proof fn lemma_links_after_remove(
    mem: Map<u64, u64>,
    lists: Seq<Seq<u64>>,
    heads: Seq<u64>,
    offset: u64,
    order: int,
    index: int,
)
    requires
        0 <= order < ORDERS,
        nodes_ok(lists, offset),
        links_ok(mem, lists, heads),
        0 <= index < lists[order].len(),
    ensures
        nodes_ok(lists.update(order, lists[order].remove(index)), offset),
        links_ok(
            memory_after_remove(
                mem,
                lists[order][index],
                prev_of(lists[order], index),
                next_of(lists[order], index),
            ),
            lists.update(order, lists[order].remove(index)),
            if index == 0 {
                heads.update(order, next_of(lists[order], index))
            } else {
                heads
            },
        ),
{
    let list = lists[order];
    reveal(nodes_ok);
    reveal(links_ok);
    let ptr = list[index];
    let prev = prev_of(list, index);
    let next = next_of(list, index);
    let after = lists.update(order, list.remove(index));
    let mem2 = memory_after_remove(mem, ptr, prev, next);
    let heads2 = if index == 0 {
        heads.update(order, next)
    } else {
        heads
    };
    assert(node_ok(offset, lists[order][index]));
    if index > 0 {
        assert(node_ok(offset, lists[order][index - 1]));
        lemma_distinct(lists, order, index - 1, order, index);
        lemma_nodes_apart(offset, prev, ptr);
    }
    if index + 1 < list.len() {
        assert(node_ok(offset, lists[order][index + 1]));
        lemma_distinct(lists, order, index + 1, order, index);
        lemma_nodes_apart(offset, next, ptr);
    }
    if index > 0 && index + 1 < list.len() {
        lemma_distinct(lists, order, index + 1, order, index - 1);
        lemma_nodes_apart(offset, next, prev);
    }
    assert forall|k: int, i: int| 0 <= k < ORDERS && 0 <= i < after[k].len() implies node_ok(
        offset,
        #[trigger] after[k][i],
    ) by {
        if k == order && i >= index {
            assert(node_ok(offset, lists[k][i + 1]));
        } else {
            assert(node_ok(offset, lists[k][i]));
        }
    }
    assert(all_distinct(after)) by {
        assert forall|k: int, i: int, k2: int, i2: int|
            0 <= k < ORDERS && 0 <= i < after[k].len() && 0 <= k2 < ORDERS && 0 <= i2
                < after[k2].len() && (k != k2 || i != i2) implies #[trigger] after[k][i]
            != #[trigger] after[k2][i2] by {
            let j = if k == order && i >= index {
                i + 1
            } else {
                i
            };
            let j2 = if k2 == order && i2 >= index {
                i2 + 1
            } else {
                i2
            };
            lemma_distinct(lists, k, j, k2, j2);
        }
        reveal(all_distinct);
    }
    assert forall|k: int| 0 <= k < ORDERS implies #[trigger] heads2[k] == head_of(after[k]) by {
        assert(heads[k] == head_of(lists[k]));
        if k == order && index == 0 && list.len() > 1 {
            assert(after[k][0] == lists[k][1]);
        }
    }
    assert forall|k: int, i: int|
        0 <= k < ORDERS && 0 <= i < after[k].len() implies #[trigger] link_ok(mem2, after, k, i) by {
        lemma_link_after_remove(mem, lists, heads, offset, order, index, k, i);
    }
}

/// After a removal the block at place `i` of list `k` holds the links of
/// its place.
#[verifier::rlimit(50)]
proof fn lemma_link_after_remove(
    mem: Map<u64, u64>,
    lists: Seq<Seq<u64>>,
    heads: Seq<u64>,
    offset: u64,
    order: int,
    index: int,
    k: int,
    i: int,
)
    requires
        0 <= order < ORDERS,
        nodes_ok(lists, offset),
        links_ok(mem, lists, heads),
        0 <= index < lists[order].len(),
        0 <= k < ORDERS,
        0 <= i < lists.update(order, lists[order].remove(index))[k].len(),
    ensures
        ({
            let after = lists.update(order, lists[order].remove(index));
            let mem2 = memory_after_remove(
                mem,
                lists[order][index],
                prev_of(lists[order], index),
                next_of(lists[order], index),
            );
            mem2[after[k][i]] == next_of(after[k], i) && mem2[(after[k][i] + 8) as u64] == prev_of(
                after[k],
                i,
            )
        }),
{
    let list = lists[order];
    reveal(nodes_ok);
    reveal(links_ok);
    let ptr = list[index];
    let prev = prev_of(list, index);
    let next = next_of(list, index);
    let j = if k == order && i >= index {
        i + 1
    } else {
        i
    };
    let node = lists[k][j];
    assert(node_ok(offset, node));
    assert(node_ok(offset, lists[order][index]));
    assert(link_ok(mem, lists, k, j));
    lemma_distinct(lists, k, j, order, index);
    if index > 0 {
        assert(node_ok(offset, lists[order][index - 1]));
        lemma_distinct(lists, order, index - 1, order, index);
        if k != order || j != index - 1 {
            lemma_distinct(lists, k, j, order, index - 1);
        }
    }
    if index + 1 < list.len() {
        assert(node_ok(offset, lists[order][index + 1]));
        lemma_distinct(lists, order, index + 1, order, index);
        if k != order || j != index + 1 {
            lemma_distinct(lists, k, j, order, index + 1);
        }
    }
    if index > 0 && index + 1 < list.len() {
        lemma_distinct(lists, order, index + 1, order, index - 1);
    }
    lemma_node_after_remove(
        mem,
        offset,
        ptr,
        prev,
        next,
        node,
        next_of(lists[k], j),
        prev_of(lists[k], j),
    );
    if k == order {
        lemma_neighbours_after_remove(list, index, i);
    }
}

/// What a node other than the removed one holds after a removal: its old
/// links, but for the removed block's neighbours, which now point to each
/// other.
proof fn lemma_node_after_remove(
    mem: Map<u64, u64>,
    offset: u64,
    ptr: u64,
    prev: u64,
    next: u64,
    node: u64,
    old_next: u64,
    old_prev: u64,
)
    requires
        offset % 4096 == 0,
        offset <= u64::MAX - WINDOW_SIZE,
        node_ok(offset, ptr),
        node_ok(offset, node),
        node != ptr,
        prev != 0 ==> node_ok(offset, prev) && prev != ptr,
        next != 0 ==> node_ok(offset, next) && next != ptr,
        prev != 0 && next != 0 ==> prev != next,
        mem[node] == old_next,
        mem[(node + 8) as u64] == old_prev,
    ensures
        memory_after_remove(mem, ptr, prev, next)[node] == (if node == prev {
            next
        } else {
            old_next
        }),
        memory_after_remove(mem, ptr, prev, next)[(node + 8) as u64] == (if node == next {
            prev
        } else {
            old_prev
        }),
{
    lemma_nodes_apart(offset, node, ptr);
    if prev != 0 && node != prev {
        lemma_nodes_apart(offset, node, prev);
    }
    if next != 0 && node != next {
        lemma_nodes_apart(offset, node, next);
    }
}

/// The neighbours of a place of a list after the block at `index` has been
/// removed.
proof fn lemma_neighbours_after_remove(list: Seq<u64>, index: int, i: int)
    requires
        0 <= index < list.len(),
        0 <= i < list.len() - 1,
    ensures
        ({
            let j = if i >= index {
                i + 1
            } else {
                i
            };
            &&& list.remove(index)[i] == list[j]
            &&& next_of(list.remove(index), i) == (if j + 1 == index {
                next_of(list, index)
            } else {
                next_of(list, j)
            })
            &&& prev_of(list.remove(index), i) == (if j - 1 == index {
                prev_of(list, index)
            } else {
                prev_of(list, j)
            })
        }),
{
}

/// The block of `order` at `addr` overlaps no block of the lists.
pub open spec fn block_free_of(lists: Seq<Seq<u64>>, addr: u64, order: int) -> bool {
    forall|k: int, i: int|
        0 <= k < ORDERS && 0 <= i < lists[k].len() ==> blocks_apart(
            #[trigger] lists[k][i],
            k,
            addr,
            order,
        )
}

/// The lists with `addr` put in front of the list of `order`.
pub open spec fn pushed(lists: Seq<Seq<u64>>, order: int, addr: u64) -> Seq<Seq<u64>> {
    lists.update(order, seq![addr] + lists[order])
}

/// The lists without the block at place `index` of the list of `order`.
pub open spec fn removed(lists: Seq<Seq<u64>>, order: int, index: int) -> Seq<Seq<u64>> {
    lists.update(order, lists[order].remove(index))
}

/// What an allocation of a block of `order` returns, and the lists after
/// it: the head of the list of `order` if there is one; else the block that
/// an allocation of the next order returns, whose upper half goes to the
/// list of `order`.
pub open spec fn alloc_result(lists: Seq<Seq<u64>>, offset: u64, order: int) -> Option<
    (u64, Seq<Seq<u64>>),
>
    decreases ORDERS - order,
{
    if order < 0 || order >= ORDERS {
        None
    } else if lists[order].len() > 0 {
        Some((lists[order][0], removed(lists, order, 0)))
    } else {
        match alloc_result(lists, offset, order + 1) {
            None => None,
            Some((addr, rest)) => Some((addr, pushed(rest, order, buddy_addr(offset, addr, order)))),
        }
    }
}

/// The lists after the block of `order` at `addr` has been freed: at the
/// top order, or if its buddy is not in the list of `order`, the block
/// goes in front of that list; else the buddy leaves the list and the two,
/// as one block of the next order, are freed there.
pub open spec fn dealloc_result(lists: Seq<Seq<u64>>, offset: u64, addr: u64, order: int) -> Seq<
    Seq<u64>,
>
    decreases ORDERS - order,
{
    if order < 0 || order >= MAX_ORDER {
        pushed(lists, order, addr)
    } else {
        let buddy = buddy_addr(offset, addr, order);
        if lists[order].contains(buddy) {
            let merged = if addr < buddy {
                addr
            } else {
                buddy
            };
            dealloc_result(
                removed(lists, order, lists[order].index_of(buddy)),
                offset,
                merged,
                order + 1,
            )
        } else {
            pushed(lists, order, addr)
        }
    }
}

/// Taking a block out of the lists leaves them in order; they cover what
/// they covered outside that block, which then overlaps none of them.
#[verifier::rlimit(50)]
pub proof fn lemma_lists_after_remove(lists: Seq<Seq<u64>>, offset: u64, order: int, index: int)
    requires
        lists_ok(lists, offset),
        0 <= order < ORDERS,
        0 <= index < lists[order].len(),
    ensures
        lists_ok(removed(lists, order, index), offset),
        block_free_of(removed(lists, order, index), lists[order][index], order),
        forall|addr: u64|
            removed(lists, order, index)[order].contains(addr) == (lists[order].contains(addr)
                && addr != lists[order][index]),
        forall|a: int|
            covered(removed(lists, order, index), a) <==> covered(lists, a) && !in_block(
                lists[order][index],
                order,
                a,
            ),
{
    let after = removed(lists, order, index);
    let gone = lists[order][index];
    lemma_lists_are_nodes(lists, offset);
    reveal(nodes_ok);
    assert forall|k: int, i: int| 0 <= k < ORDERS && 0 <= i < after[k].len() implies (
    #[trigger] after[k][i]) == lists[k][if k == order && i >= index {
        i + 1
    } else {
        i
    }] by {}
    assert forall|k: int, i: int| 0 <= k < ORDERS && 0 <= i < after[k].len() implies block_ok(
        offset,
        #[trigger] after[k][i],
        k,
    ) by {
        let j = if k == order && i >= index {
            i + 1
        } else {
            i
        };
        assert(block_ok(offset, lists[k][j], k));
    }
    assert forall|k: int, i: int| 0 <= k < ORDERS && 0 <= i < after[k].len() implies blocks_apart(
        #[trigger] after[k][i],
        k,
        gone,
        order,
    ) by {
        let j = if k == order && i >= index {
            i + 1
        } else {
            i
        };
        lemma_apart(lists, k, j, order, index);
    }
    assert(all_apart(after)) by {
        assert forall|k: int, i: int, k2: int, i2: int|
            0 <= k < ORDERS && 0 <= i < after[k].len() && 0 <= k2 < ORDERS && 0 <= i2
                < after[k2].len() && (k != k2 || i != i2) implies blocks_apart(
            #[trigger] after[k][i],
            k,
            #[trigger] after[k2][i2],
            k2,
        ) by {
            let j = if k == order && i >= index {
                i + 1
            } else {
                i
            };
            let j2 = if k2 == order && i2 >= index {
                i2 + 1
            } else {
                i2
            };
            lemma_apart(lists, k, j, k2, j2);
        }
        reveal(all_apart);
    }
    assert forall|addr: u64|
        after[order].contains(addr) == (lists[order].contains(addr) && addr != gone) by {
        if after[order].contains(addr) {
            let i = choose|i: int| 0 <= i < after[order].len() && after[order][i] == addr;
            let j = if i >= index {
                i + 1
            } else {
                i
            };
            assert(lists[order][j] == addr);
            lemma_distinct(lists, order, j, order, index);
        }
        if lists[order].contains(addr) && addr != gone {
            let j = choose|j: int| 0 <= j < lists[order].len() && lists[order][j] == addr;
            let i = if j > index {
                j - 1
            } else {
                j
            };
            assert(after[order][i] == addr);
        }
    }
    assert forall|k: int, i: int| 0 <= k < MAX_ORDER && 0 <= i < after[k].len() implies !after[k].contains(
        buddy_addr(offset, #[trigger] after[k][i], k),
    ) by {
        let j = if k == order && i >= index {
            i + 1
        } else {
            i
        };
        assert(!lists[k].contains(buddy_addr(offset, lists[k][j], k)));
    }
    assert forall|a: int| covered(after, a) <==> covered(lists, a) && !in_block(gone, order, a) by {
        if covered(after, a) {
            let (k, i) = choose|k: int, i: int|
                0 <= k < ORDERS && 0 <= i < after[k].len() && in_block(
                    #[trigger] after[k][i],
                    k,
                    a,
                );
            let j = if k == order && i >= index {
                i + 1
            } else {
                i
            };
            assert(in_block(lists[k][j], k, a));
            lemma_apart(lists, k, j, order, index);
        }
        if covered(lists, a) && !in_block(gone, order, a) {
            let (k, j) = choose|k: int, j: int|
                0 <= k < ORDERS && 0 <= j < lists[k].len() && in_block(
                    #[trigger] lists[k][j],
                    k,
                    a,
                );
            let i = if k == order && j > index {
                j - 1
            } else {
                j
            };
            assert(in_block(after[k][i], k, a));
        }
    }
}

/// Putting a well-placed block that overlaps none of the lists, and whose
/// buddy is not in the list of its order, in front of that list leaves the
/// lists in order; they cover what they covered and the block.
#[verifier::rlimit(50)]
pub proof fn lemma_lists_after_push(lists: Seq<Seq<u64>>, offset: u64, order: int, addr: u64)
    requires
        lists_ok(lists, offset),
        0 <= order < ORDERS,
        block_ok(offset, addr, order),
        block_free_of(lists, addr, order),
        order < MAX_ORDER ==> !lists[order].contains(buddy_addr(offset, addr, order)),
    ensures
        lists_ok(pushed(lists, order, addr), offset),
        forall|other: u64|
            pushed(lists, order, addr)[order].contains(other) == (lists[order].contains(other)
                || other == addr),
        forall|a: int|
            covered(pushed(lists, order, addr), a) <==> covered(lists, a) || in_block(
                addr,
                order,
                a,
            ),
        !is_listed(lists, addr),
{
    let after = pushed(lists, order, addr);
    lemma_block_is_node(offset, addr, order);
    assert forall|k: int, i: int| 0 <= k < ORDERS && 0 <= i < lists[k].len() implies #[trigger] lists[k][i]
        != addr by {
        assert(blocks_apart(lists[k][i], k, addr, order));
        lemma_block_is_node(offset, lists[k][i], k);
    }
    assert(!is_listed(lists, addr)) by {
        reveal(is_listed);
    }
    assert forall|k: int, i: int| 0 <= k < ORDERS && 0 <= i < after[k].len() implies (
    #[trigger] after[k][i]) == (if k == order && i == 0 {
        addr
    } else {
        lists[k][if k == order {
            i - 1
        } else {
            i
        }]
    }) by {}
    assert forall|k: int, i: int| 0 <= k < ORDERS && 0 <= i < after[k].len() implies block_ok(
        offset,
        #[trigger] after[k][i],
        k,
    ) by {
        if !(k == order && i == 0) {
            let j = if k == order {
                i - 1
            } else {
                i
            };
            assert(block_ok(offset, lists[k][j], k));
        }
    }
    assert(all_apart(after)) by {
        assert forall|k: int, i: int, k2: int, i2: int|
            0 <= k < ORDERS && 0 <= i < after[k].len() && 0 <= k2 < ORDERS && 0 <= i2
                < after[k2].len() && (k != k2 || i != i2) implies blocks_apart(
            #[trigger] after[k][i],
            k,
            #[trigger] after[k2][i2],
            k2,
        ) by {
            let j = if k == order {
                i - 1
            } else {
                i
            };
            let j2 = if k2 == order {
                i2 - 1
            } else {
                i2
            };
            if j >= 0 && j2 >= 0 {
                lemma_apart(lists, k, j, k2, j2);
            } else if j >= 0 {
                assert(blocks_apart(lists[k][j], k, addr, order));
            } else if j2 >= 0 {
                assert(blocks_apart(lists[k2][j2], k2, addr, order));
            }
        }
        reveal(all_apart);
    }
    assert forall|other: u64|
        after[order].contains(other) == (lists[order].contains(other) || other == addr) by {
        if after[order].contains(other) {
            let i = choose|i: int| 0 <= i < after[order].len() && after[order][i] == other;
            if i > 0 {
                assert(lists[order][i - 1] == other);
            }
        }
        if lists[order].contains(other) {
            let j = choose|j: int| 0 <= j < lists[order].len() && lists[order][j] == other;
            assert(after[order][j + 1] == other);
        }
        if other == addr {
            assert(after[order][0] == other);
        }
    }
    assert forall|k: int, i: int| 0 <= k < MAX_ORDER && 0 <= i < after[k].len() implies !after[k].contains(
        buddy_addr(offset, #[trigger] after[k][i], k),
    ) by {
        if k == order {
            if i == 0 {
                lemma_buddy(offset, addr, order);
            } else {
                let node = lists[k][i - 1];
                assert(block_ok(offset, node, k));
                assert(!lists[k].contains(buddy_addr(offset, node, k)));
                lemma_buddy(offset, node, k);
                if buddy_addr(offset, node, k) == addr {
                    lemma_buddy(offset, addr, order);
                    assert(lists[k].contains(node));
                }
            }
        } else {
            assert(!lists[k].contains(buddy_addr(offset, lists[k][i], k)));
        }
    }
    assert forall|a: int| covered(after, a) <==> covered(lists, a) || in_block(addr, order, a) by {
        if covered(after, a) {
            let (k, i) = choose|k: int, i: int|
                0 <= k < ORDERS && 0 <= i < after[k].len() && in_block(
                    #[trigger] after[k][i],
                    k,
                    a,
                );
            if !(k == order && i == 0) {
                let j = if k == order {
                    i - 1
                } else {
                    i
                };
                assert(in_block(lists[k][j], k, a));
            }
        }
        if covered(lists, a) {
            let (k, j) = choose|k: int, j: int|
                0 <= k < ORDERS && 0 <= j < lists[k].len() && in_block(
                    #[trigger] lists[k][j],
                    k,
                    a,
                );
            let i = if k == order {
                j + 1
            } else {
                j
            };
            assert(in_block(after[k][i], k, a));
        }
        if in_block(addr, order, a) {
            assert(in_block(after[order][0], order, a));
        }
    }
}

/// When a block enters or leaves the list of its order and the pair bit of
/// the block is flipped, the pair bits still describe the lists.
#[verifier::rlimit(50)]
pub proof fn lemma_bits_after_flip(
    bitmap: Seq<u8>,
    bitmap_after: Seq<u8>,
    lists: Seq<Seq<u64>>,
    lists_after: Seq<Seq<u64>>,
    offset: u64,
    order: int,
    addr: u64,
)
    requires
        bits_ok(bitmap, lists, offset),
        offset % 4096 == 0,
        offset <= u64::MAX - WINDOW_SIZE,
        0 <= order < MAX_ORDER,
        block_ok(offset, addr, order),
        bitmap_after.len() == BITMAP_SIZE,
        forall|k: int| 0 <= k < ORDERS && k != order ==> #[trigger] lists_after[k] == lists[k],
        forall|other: u64|
            #[trigger] lists_after[order].contains(other) == (lists[order].contains(other) != (
            other == addr)),
        bit_at(bitmap_after, pair_bit(offset, addr, order)) == !bit_at(
            bitmap,
            pair_bit(offset, addr, order),
        ),
        forall|index: int|
            0 <= index < 262144 && index != pair_bit(offset, addr, order) ==> bit_at(
                bitmap_after,
                index,
            ) == bit_at(bitmap, index),
    ensures
        bits_ok(bitmap_after, lists_after, offset),
{
    reveal(bits_ok);
    assert forall|k: int, other: u64|
        0 <= k < MAX_ORDER && #[trigger] block_ok(offset, other, k) implies bit_at(
        bitmap_after,
        pair_bit(offset, other, k),
    ) == (lists_after[k].contains(other) != lists_after[k].contains(
        buddy_addr(offset, other, k),
    )) by {
        lemma_buddy(offset, other, k);
        lemma_buddy(offset, addr, order);
        lemma_orders();
        let buddy = buddy_addr(offset, other, k);
        assert(bit_at(bitmap, pair_bit(offset, other, k)) == (lists[k].contains(other)
            != lists[k].contains(buddy)));
        if k == order {
            assert(lists_after[order].contains(other) == (lists[order].contains(other) != (other
                == addr)));
            assert(lists_after[order].contains(buddy) == (lists[order].contains(buddy) != (buddy
                == addr)));
            if pair_bit(offset, other, k) == pair_bit(offset, addr, order) {
                lemma_same_pair(offset, addr, other, order);
            } else {
                if buddy == addr {
                    assert(pair_bit(offset, buddy, k) == pair_bit(offset, other, k));
                }
            }
        } else {
            if k < order {
                lemma_pair_bits_of_orders(offset, other, k, addr, order);
            } else {
                lemma_pair_bits_of_orders(offset, addr, order, other, k);
            }
        }
    }
}

/// A change of the list of the top order leaves the pair bits in order.
pub proof fn lemma_bits_top_order(
    bitmap: Seq<u8>,
    lists: Seq<Seq<u64>>,
    lists_after: Seq<Seq<u64>>,
    offset: u64,
)
    requires
        bits_ok(bitmap, lists, offset),
        forall|k: int| 0 <= k < MAX_ORDER ==> #[trigger] lists_after[k] == lists[k],
    ensures
        bits_ok(bitmap, lists_after, offset),
{
    reveal(bits_ok);
    assert forall|k: int, other: u64|
        0 <= k < MAX_ORDER && #[trigger] block_ok(offset, other, k) implies bit_at(
        bitmap,
        pair_bit(offset, other, k),
    ) == (lists_after[k].contains(other) != lists_after[k].contains(
        buddy_addr(offset, other, k),
    )) by {
        assert(lists_after[k] == lists[k]);
    }
}

/// Taking a block out of a list changes only words of free blocks.
proof fn lemma_changes_after_remove(
    mem: Map<u64, u64>,
    lists: Seq<Seq<u64>>,
    offset: u64,
    order: int,
    index: int,
)
    requires
        lists_ok(lists, offset),
        0 <= order < ORDERS,
        0 <= index < lists[order].len(),
    ensures
        forall|a: u64|
            !covered(lists, a as int) ==> #[trigger] memory_after_remove(
                mem,
                lists[order][index],
                prev_of(lists[order], index),
                next_of(lists[order], index),
            )[a] == mem[a],
{
    let ptr = lists[order][index];
    let prev = prev_of(lists[order], index);
    let next = next_of(lists[order], index);
    lemma_block_is_node(offset, lists[order][index], order);
    assert(in_block(lists[order][index], order, ptr as int));
    assert(in_block(lists[order][index], order, ptr + 8));
    if index > 0 {
        lemma_block_is_node(offset, lists[order][index - 1], order);
        assert(in_block(lists[order][index - 1], order, prev as int));
    }
    if index + 1 < lists[order].len() {
        lemma_block_is_node(offset, lists[order][index + 1], order);
        assert(in_block(lists[order][index + 1], order, next + 8));
    }
}

/// Putting a block in front of a list changes only words of that block and
/// of free blocks.
proof fn lemma_changes_after_push(
    mem: Map<u64, u64>,
    lists: Seq<Seq<u64>>,
    offset: u64,
    order: int,
    ptr: u64,
)
    requires
        lists_ok(lists, offset),
        0 <= order < ORDERS,
        block_ok(offset, ptr, order),
    ensures
        forall|a: u64|
            !covered(lists, a as int) && !in_block(ptr, order, a as int)
                ==> #[trigger] memory_after_push(mem, ptr, head_of(lists[order]))[a] == mem[a],
{
    lemma_block_is_node(offset, ptr, order);
    if lists[order].len() > 0 {
        lemma_block_is_node(offset, lists[order][0], order);
        assert(in_block(lists[order][0], order, lists[order][0] + 8));
    }
}

/// The pair bit of a block says whether exactly one of the block and its
/// buddy is in the list of their order.
proof fn lemma_bit_of_block(
    bitmap: Seq<u8>,
    lists: Seq<Seq<u64>>,
    offset: u64,
    order: int,
    addr: u64,
)
    requires
        bits_ok(bitmap, lists, offset),
        0 <= order < MAX_ORDER,
        block_ok(offset, addr, order),
    ensures
        bitmap.len() == BITMAP_SIZE,
        bit_at(bitmap, pair_bit(offset, addr, order)) == (lists[order].contains(addr)
            != lists[order].contains(buddy_addr(offset, addr, order))),
{
    reveal(bits_ok);
}

/// A block that overlaps none of the lists is in none of them.
proof fn lemma_free_block_not_listed(lists: Seq<Seq<u64>>, offset: u64, addr: u64, order: int)
    requires
        lists_ok(lists, offset),
        0 <= order < ORDERS,
        block_ok(offset, addr, order),
        block_free_of(lists, addr, order),
    ensures
        forall|k: int| 0 <= k < ORDERS ==> !(#[trigger] lists[k]).contains(addr),
{
    lemma_block_is_node(offset, addr, order);
    assert forall|k: int| 0 <= k < ORDERS implies !(#[trigger] lists[k]).contains(addr) by {
        if lists[k].contains(addr) {
            let i = choose|i: int| 0 <= i < lists[k].len() && lists[k][i] == addr;
            assert(blocks_apart(lists[k][i], k, addr, order));
            lemma_block_is_node(offset, lists[k][i], k);
        }
    }
}

impl BuddyAllocator {
    /// Allocates a block of 2^`order` pages and returns its address.
    ///
    /// The head of the free list of `order` is taken if there is one.
    /// Otherwise a block of the next order is allocated and split: its lower
    /// half is returned and its upper half, the buddy, goes to the free list
    /// of `order`. `None` is returned, and nothing changes, if `order` is
    /// above `MAX_ORDER` or no block of `order` or above is free.
    #[verifier::rlimit(50)]
    pub fn allocate<M: WordMemory>(&mut self, mem: &mut M, order: usize) -> (block: Option<u64>)
        requires
            old(self).wf(old(mem)@),
        ensures
            final(self).wf(final(mem)@),
            final(self).offset() == old(self).offset(),
            match alloc_result(old(self).free_lists(), old(self).offset(), order as int) {
                None => block is None && final(self).free_lists() == old(self).free_lists()
                    && final(mem)@ == old(mem)@ && final(self).bitmap() == old(self).bitmap(),
                Some((addr, lists)) => block == Some(addr) && final(self).free_lists() == lists,
            },
            match block {
                Some(addr) => {
                    &&& order < ORDERS
                    &&& block_ok(old(self).offset(), addr, order as int)
                    &&& block_free_of(final(self).free_lists(), addr, order as int)
                    &&& forall|a: int|
                        in_block(addr, order as int, a) ==> covered(old(self).free_lists(), a)
                    &&& forall|a: int|
                        #[trigger] covered(final(self).free_lists(), a) <==> covered(
                            old(self).free_lists(),
                            a,
                        ) && !in_block(addr, order as int, a)
                },
                None => true,
            },
            forall|a: u64|
                !covered(old(self).free_lists(), a as int) ==> #[trigger] final(mem)@[a] == old(
                    mem,
                )@[a],
        decreases ORDERS - order,
    {
        if order >= ORDERS {
            return None;
        }
        let ghost lists0 = self.free_lists();
        let ghost offset = self.offset;
        let ghost mem0 = mem@;
        let ghost bitmap0 = self.bitmap();
        proof {
            lemma_lists_are_nodes(lists0, offset);
            lemma_head(mem0, lists0, self.heads(), offset, order as int);
        }
        let head = self.free_lists[order];
        if head != 0 {
            proof {
                lemma_lists_after_remove(lists0, offset, order as int, 0);
                lemma_changes_after_remove(mem0, lists0, offset, order as int, 0);
                lemma_block_is_node(offset, head, order as int);
                assert(block_ok(offset, lists0[order as int][0], order as int));
                assert forall|a: int| in_block(head, order as int, a) implies covered(lists0, a) by {
                    assert(in_block(lists0[order as int][0], order as int, a));
                }
            }
            self.remove_frame(mem, head, order, Ghost(0));
            if order < MAX_ORDER {
                let page_idx = (head - self.offset) / PAGE_SIZE;
                proof {
                    lemma_bit_of_block(bitmap0, lists0, offset, order as int, head);
                }
                self.toggle_bit(page_idx, order);
                proof {
                    lemma_bits_after_flip(
                        bitmap0,
                        self.bitmap(),
                        lists0,
                        self.free_lists(),
                        offset,
                        order as int,
                        head,
                    );
                }
            } else {
                proof {
                    lemma_bits_top_order(bitmap0, lists0, self.free_lists(), offset);
                }
            }
            return Some(head);
        }
        match self.allocate(mem, order + 1) {
            Some(ptr) => {
                let ghost lists2 = self.free_lists();
                let ghost mem2 = mem@;
                let ghost bitmap2 = self.bitmap();
                proof {
                    lemma_split(offset, ptr, order as int);
                    lemma_lists_are_nodes(lists2, offset);
                }
                let buddy = self.calculate_buddy_address(ptr, order);
                proof {
                    lemma_block_is_node(offset, buddy, order as int);
                    lemma_block_is_node(offset, ptr, order as int);
                    assert forall|k: int, i: int|
                        0 <= k < ORDERS && 0 <= i < lists2[k].len() implies blocks_apart(
                        #[trigger] lists2[k][i],
                        k,
                        buddy,
                        order as int,
                    ) && blocks_apart(lists2[k][i], k, ptr, order as int) by {
                        assert(blocks_apart(lists2[k][i], k, ptr, order + 1));
                    }
                    lemma_free_block_not_listed(lists2, offset, ptr, order as int);
                    assert(!lists2[order as int].contains(ptr));
                    lemma_buddy(offset, ptr, order as int);
                    lemma_buddy(offset, buddy, order as int);
                    assert(buddy_addr(offset, buddy, order as int) == ptr);
                    lemma_lists_after_push(lists2, offset, order as int, buddy);
                    lemma_changes_after_push(mem2, lists2, offset, order as int, buddy);
                    lemma_bit_of_block(bitmap2, lists2, offset, order as int, ptr);
                    lemma_buddy(offset, ptr, order as int);
                }
                let page_idx = (ptr - self.offset) / PAGE_SIZE;
                self.toggle_bit(page_idx, order);
                let ghost bitmap3 = self.bitmap();
                self.push_free(mem, buddy, order);
                proof {
                    let lists3 = self.free_lists();
                    lemma_bits_after_flip(bitmap2, bitmap3, lists2, lists3, offset, order as int, buddy);
                    assert forall|k: int, i: int|
                        0 <= k < ORDERS && 0 <= i < lists3[k].len() implies blocks_apart(
                        #[trigger] lists3[k][i],
                        k,
                        ptr,
                        order as int,
                    ) by {
                        if k == order && i == 0 {
                        } else {
                            let j = if k == order {
                                i - 1
                            } else {
                                i
                            };
                            assert(lists3[k][i] == lists2[k][j]);
                            assert(blocks_apart(lists2[k][j], k, ptr, order as int));
                        }
                    }
                    assert forall|a: int| in_block(ptr, order as int, a) implies covered(
                        lists0,
                        a,
                    ) by {
                        assert(in_block(ptr, order + 1, a));
                    }
                    assert forall|a: int|
                        covered(lists3, a) <==> covered(lists0, a) && !in_block(
                            ptr,
                            order as int,
                            a,
                        ) by {
                        assert(covered(lists3, a) <==> covered(lists2, a) || in_block(
                            buddy,
                            order as int,
                            a,
                        ));
                        assert(covered(lists2, a) <==> covered(lists0, a) && !in_block(
                            ptr,
                            order + 1,
                            a,
                        ));
                        assert(in_block(ptr, order + 1, a) <==> in_block(ptr, order as int, a)
                            || in_block(buddy, order as int, a));
                        if in_block(ptr, order + 1, a) {
                            assert(covered(lists0, a));
                        }
                    }
                    assert forall|a: u64| !covered(lists0, a as int) implies #[trigger] mem@[a]
                        == mem0[a] by {
                        assert(mem2[a] == mem0[a]);
                        if in_block(buddy, order as int, a as int) {
                            assert(in_block(ptr, order + 1, a as int));
                        }
                    }
                }
                Some(ptr)
            },
            None => None,
        }
    }
}

/// Whether `addr` is an address of the window that starts at `offset`.
pub open spec fn in_window(offset: u64, addr: u64) -> bool {
    addr != 0 && offset <= addr && addr - offset < WINDOW_SIZE
}

impl BuddyAllocator {
    /// Frees the block of 2^`order` pages at `ptr`.
    ///
    /// An address outside the window is ignored. At the top order the block
    /// goes to the free list. Below it the pair bit is flipped: if it is
    /// then set, the buddy is in use and the block goes to the free list of
    /// `order`; if it is then clear, the buddy is free too, leaves its list,
    /// and the two are freed as one block of the next order.
    ///
    /// The block must be in nobody's use: well placed for its order and
    /// overlapping no free block.
    #[verifier::rlimit(50)]
    pub fn dealloc<M: WordMemory>(&mut self, mem: &mut M, ptr: u64, order: usize)
        requires
            old(self).wf(old(mem)@),
            order < ORDERS,
            in_window(old(self).offset(), ptr) ==> block_ok(old(self).offset(), ptr, order as int)
                && block_free_of(old(self).free_lists(), ptr, order as int),
        ensures
            final(self).wf(final(mem)@),
            final(self).offset() == old(self).offset(),
            !in_window(old(self).offset(), ptr) ==> final(self).free_lists() == old(
                self,
            ).free_lists() && final(mem)@ == old(mem)@ && final(self).bitmap() == old(
                self,
            ).bitmap(),
            in_window(old(self).offset(), ptr) ==> {
                &&& final(self).free_lists() == dealloc_result(
                    old(self).free_lists(),
                    old(self).offset(),
                    ptr,
                    order as int,
                )
                &&& forall|a: int|
                    #[trigger] covered(final(self).free_lists(), a) <==> covered(
                        old(self).free_lists(),
                        a,
                    ) || in_block(ptr, order as int, a)
            },
            forall|a: u64|
                !covered(old(self).free_lists(), a as int) && !in_block(ptr, order as int, a as int)
                    ==> #[trigger] final(mem)@[a] == old(mem)@[a],
        decreases ORDERS - order,
    {
        if ptr == 0 || ptr < self.offset || ptr - self.offset >= WINDOW_SIZE {
            return ;
        }
        let ghost lists0 = self.free_lists();
        let ghost offset = self.offset;
        let ghost mem0 = mem@;
        let ghost bitmap0 = self.bitmap();
        proof {
            lemma_lists_are_nodes(lists0, offset);
            lemma_block_is_node(offset, ptr, order as int);
            lemma_free_block_not_listed(lists0, offset, ptr, order as int);
            assert(!lists0[order as int].contains(ptr));
        }
        if order >= MAX_ORDER {
            proof {
                lemma_lists_after_push(lists0, offset, order as int, ptr);
                lemma_changes_after_push(mem0, lists0, offset, order as int, ptr);
            }
            self.push_free(mem, ptr, order);
            proof {
                lemma_bits_top_order(bitmap0, lists0, self.free_lists(), offset);
            }
            return ;
        }
        proof {
            lemma_bit_of_block(bitmap0, lists0, offset, order as int, ptr);
            lemma_buddy(offset, ptr, order as int);
        }
        let page_idx = (ptr - self.offset) / PAGE_SIZE;
        let is_now_one = self.toggle_bit(page_idx, order);
        let ghost bitmap1 = self.bitmap();
        let ghost buddy_spec = buddy_addr(offset, ptr, order as int);
        if is_now_one {
            proof {
                assert(!lists0[order as int].contains(buddy_spec));
                lemma_lists_after_push(lists0, offset, order as int, ptr);
                lemma_changes_after_push(mem0, lists0, offset, order as int, ptr);
            }
            self.push_free(mem, ptr, order);
            proof {
                lemma_bits_after_flip(
                    bitmap0,
                    bitmap1,
                    lists0,
                    self.free_lists(),
                    offset,
                    order as int,
                    ptr,
                );
            }
        } else {
            let buddy = self.calculate_buddy_address(ptr, order);
            let ghost index = lists0[order as int].index_of(buddy);
            proof {
                assert(lists0[order as int].contains(buddy));
                assert(0 <= index < lists0[order as int].len() && lists0[order as int][index]
                    == buddy);
                assert(block_ok(offset, lists0[order as int][index], order as int));
                lemma_buddy(offset, buddy, order as int);
                lemma_lists_after_remove(lists0, offset, order as int, index);
                lemma_changes_after_remove(mem0, lists0, offset, order as int, index);
            }
            self.remove_frame(mem, buddy, order, Ghost(index));
            let merged = if ptr < buddy {
                ptr
            } else {
                buddy
            };
            let ghost lists1 = self.free_lists();
            let ghost mem1 = mem@;
            proof {
                lemma_bits_after_flip(bitmap0, bitmap1, lists0, lists1, offset, order as int, buddy);
                lemma_order_pages(order as int);
                assert forall|k: int, i: int|
                    0 <= k < ORDERS && 0 <= i < lists1[k].len() implies blocks_apart(
                    #[trigger] lists1[k][i],
                    k,
                    merged,
                    order + 1,
                ) by {
                    lemma_order_pages(k);
                    assert(blocks_apart(lists1[k][i], k, buddy, order as int));
                    let j = if k == order && i >= index {
                        i + 1
                    } else {
                        i
                    };
                    assert(lists1[k][i] == lists0[k][j]);
                    assert(blocks_apart(lists0[k][j], k, ptr, order as int));
                }
                assert(forall|a: int|
                    in_block(merged, order + 1, a) <==> in_block(ptr, order as int, a) || in_block(
                        buddy,
                        order as int,
                        a,
                    ));
                assert forall|a: int| in_block(buddy, order as int, a) implies covered(lists0, a) by {
                    assert(in_block(lists0[order as int][index], order as int, a));
                }
            }
            assert(in_window(offset, merged));
            self.dealloc(mem, merged, order + 1);
            proof {
                let lists2 = self.free_lists();
                assert forall|a: int|
                    covered(lists2, a) <==> covered(lists0, a) || in_block(ptr, order as int, a) by {
                    assert(covered(lists2, a) <==> covered(lists1, a) || in_block(
                        merged,
                        order + 1,
                        a,
                    ));
                    assert(covered(lists1, a) <==> covered(lists0, a) && !in_block(
                        buddy,
                        order as int,
                        a,
                    ));
                    if in_block(buddy, order as int, a) {
                        assert(covered(lists0, a));
                    }
                }
                assert forall|a: u64|
                    !covered(lists0, a as int) && !in_block(ptr, order as int, a as int) implies #[trigger] mem@[a]
                    == mem0[a] by {
                    assert(mem1[a] == mem0[a]);
                    if in_block(buddy, order as int, a as int) {
                        assert(covered(lists0, a as int));
                    }
                    assert(!covered(lists1, a as int));
                    assert(!in_block(merged, order + 1, a as int));
                }
            }
        }
    }

    /// Adds one free page to the allocator, as the memory map is walked at
    /// startup. An address outside the window is ignored.
    pub fn add_frame<M: WordMemory>(&mut self, mem: &mut M, frame: u64)
        requires
            old(self).wf(old(mem)@),
            in_window(old(self).offset(), frame) ==> block_ok(old(self).offset(), frame, 0)
                && block_free_of(old(self).free_lists(), frame, 0),
        ensures
            final(self).wf(final(mem)@),
            final(self).offset() == old(self).offset(),
            !in_window(old(self).offset(), frame) ==> final(self).free_lists() == old(
                self,
            ).free_lists() && final(mem)@ == old(mem)@,
            in_window(old(self).offset(), frame) ==> {
                &&& final(self).free_lists() == dealloc_result(
                    old(self).free_lists(),
                    old(self).offset(),
                    frame,
                    0,
                )
                &&& forall|a: int|
                    #[trigger] covered(final(self).free_lists(), a) <==> covered(
                        old(self).free_lists(),
                        a,
                    ) || in_block(frame, 0, a)
            },
            forall|a: u64|
                !covered(old(self).free_lists(), a as int) && !in_block(frame, 0, a as int)
                    ==> #[trigger] final(mem)@[a] == old(mem)@[a],
    {
        if frame < self.offset || frame - self.offset >= WINDOW_SIZE {
            return ;
        }
        self.dealloc(mem, frame, 0);
    }

    /// Allocates one page and returns its physical address: its offset in
    /// the window.
    pub fn allocate_frame<M: WordMemory>(&mut self, mem: &mut M) -> (frame: Option<u64>)
        requires
            old(self).wf(old(mem)@),
        ensures
            final(self).wf(final(mem)@),
            final(self).offset() == old(self).offset(),
            match alloc_result(old(self).free_lists(), old(self).offset(), 0) {
                None => frame is None && final(self).free_lists() == old(self).free_lists()
                    && final(mem)@ == old(mem)@,
                Some((addr, lists)) => frame == Some((addr - old(self).offset()) as u64) && final(self).free_lists() == lists,
            },
            forall|a: u64|
                !covered(old(self).free_lists(), a as int) ==> #[trigger] final(mem)@[a] == old(
                    mem,
                )@[a],
    {
        match self.allocate(mem, 0) {
            Some(ptr) => Some(ptr - self.offset),
            None => None,
        }
    }
}

/// What an allocation returns is a well-placed block of its order, and the
/// lists of the orders below are as they were.
pub proof fn lemma_alloc_result(lists: Seq<Seq<u64>>, offset: u64, order: int)
    requires
        lists_ok(lists, offset),
        0 <= order,
    ensures
        match alloc_result(lists, offset, order) {
            Some((addr, after)) => {
                &&& order < ORDERS
                &&& block_ok(offset, addr, order)
                &&& after.len() == ORDERS
                &&& forall|k: int| 0 <= k < order ==> #[trigger] after[k] == lists[k]
            },
            None => true,
        },
    decreases ORDERS - order,
{
    if order < ORDERS {
        if lists[order].len() > 0 {
            assert(block_ok(offset, lists[order][0], order));
        } else {
            lemma_alloc_result(lists, offset, order + 1);
            match alloc_result(lists, offset, order + 1) {
                Some((addr, rest)) => {
                    lemma_split(offset, addr, order);
                },
                None => {},
            }
        }
    }
}

/// A block of a window that starts at a multiple of the block's size lies
/// at a multiple of its size: in such a window the address of a block of
/// `order` is aligned to 2^`order` pages.
pub proof fn lemma_block_is_aligned(offset: u64, addr: u64, order: int)
    requires
        0 <= order <= MAX_ORDER,
        block_ok(offset, addr, order),
        offset as int % order_size(order) == 0,
    ensures
        addr as int % order_size(order) == 0,
{
    lemma_order_pages(order);
    let size = order_size(order);
    vstd::arithmetic::div_mod::lemma_fundamental_div_mod(offset as int, size);
    vstd::arithmetic::div_mod::lemma_fundamental_div_mod(addr - offset, size);
    let a = offset as int / size;
    let b = (addr - offset) / size;
    assert(addr == size * (a + b)) by (nonlinear_arith)
        requires
            offset == size * a,
            addr - offset == size * b,
    ;
    vstd::arithmetic::div_mod::lemma_mod_multiples_basic(a + b, size);
    assert((a + b) * size == size * (a + b)) by (nonlinear_arith);
}

/// Allocating a block and freeing it again leaves every free list exactly as
/// it was: the halves that the allocation split off are merged back, order
/// by order.
#[verifier::rlimit(50)]
pub proof fn lemma_alloc_then_dealloc_restores(lists: Seq<Seq<u64>>, offset: u64, order: int)
    requires
        lists_ok(lists, offset),
        0 <= order,
        alloc_result(lists, offset, order) is Some,
    ensures
        dealloc_result(
            alloc_result(lists, offset, order)->Some_0.1,
            offset,
            alloc_result(lists, offset, order)->Some_0.0,
            order,
        ) == lists,
    decreases ORDERS - order,
{
    let (addr, after) = alloc_result(lists, offset, order)->Some_0;
    lemma_alloc_result(lists, offset, order);
    lemma_order_pages(order);
    if lists[order].len() > 0 {
        assert(addr == lists[order][0]);
        assert(after == removed(lists, order, 0));
        assert(seq![addr] + lists[order].remove(0) =~= lists[order]);
        assert(pushed(after, order, addr) =~= lists);
        if order < MAX_ORDER {
            let buddy = buddy_addr(offset, addr, order);
            assert(!lists[order].contains(buddy_addr(offset, lists[order][0], order)));
            if after[order].contains(buddy) {
                let i = choose|i: int| 0 <= i < after[order].len() && after[order][i] == buddy;
                assert(lists[order][i + 1] == buddy);
            }
            assert(!after[order].contains(buddy));
            assert(dealloc_result(after, offset, addr, order) == pushed(after, order, addr));
        } else {
            assert(dealloc_result(after, offset, addr, order) == pushed(after, order, addr));
        }
    } else {
        lemma_alloc_result(lists, offset, order + 1);
        let (inner, rest) = alloc_result(lists, offset, order + 1)->Some_0;
        assert(inner == addr);
        lemma_split(offset, addr, order);
        let buddy = buddy_addr(offset, addr, order);
        assert(rest[order] == lists[order]);
        assert(after == pushed(rest, order, buddy));
        assert(after[order] =~= seq![buddy]);
        assert(after[order][0] == buddy);
        assert(after[order].contains(buddy));
        let index = after[order].index_of(buddy);
        assert(index == 0);
        assert(after[order].remove(0) =~= rest[order]);
        assert(removed(after, order, index) =~= rest);
        assert(addr < buddy);
        assert(dealloc_result(after, offset, addr, order) == dealloc_result(
            removed(after, order, index),
            offset,
            addr,
            order + 1,
        ));
        lemma_alloc_then_dealloc_restores(lists, offset, order + 1);
    }
}

/// A byte of a free block lies in a page of which the first byte is in a
/// free block too.
pub proof fn lemma_covered_page(lists: Seq<Seq<u64>>, offset: u64, a: u64)
    requires
        lists_ok(lists, offset),
        covered(lists, a as int),
    ensures
        covered(lists, (a - a % 4096) as int),
        (a - a % 4096) % 4096 == 0,
{
    let (k, i) = choose|k: int, i: int|
        0 <= k < ORDERS && 0 <= i < lists[k].len() && in_block(#[trigger] lists[k][i], k, a as int);
    lemma_block_is_node(offset, lists[k][i], k);
    lemma_node_is_word(offset, lists[k][i]);
    lemma_page_floor(a, lists[k][i]);
    assert(in_block(lists[k][i], k, (a - a % 4096) as int));
}

/// Rounding an address down to a page does not pass a page address below
/// it.
proof fn lemma_page_floor(a: u64, page: u64)
    by (bit_vector)
    requires
        page % 4096 == 0,
        page <= a,
    ensures
        page <= (a - a % 4096) as u64,
        ((a - a % 4096) as u64) % 4096 == 0,
        (a - a % 4096) as u64 <= a,
        a % 4096 <= a,
{
}

/// A page offset inside the window leaves room for the page.
proof fn lemma_window_room(rel: u64)
    by (bit_vector)
    requires
        rel % 4096 == 0,
        rel < 0x4000_0000,
    ensures
        rel <= 0x4000_0000 - 4096,
{
}

/// Two page addresses are the same or a page apart.
proof fn lemma_pages_apart(a: u64, b: u64)
    by (bit_vector)
    requires
        a % 4096 == 0,
        b % 4096 == 0,
        a < b,
    ensures
        (b - a) as u64 >= 4096,
        ((b - a) as u64) % 4096 == 0,
{
}

/// A page of the window whose first byte is in no free block overlaps no
/// free block.
pub proof fn lemma_page_free_of(lists: Seq<Seq<u64>>, offset: u64, page: u64)
    requires
        lists_ok(lists, offset),
        page % 4096 == 0,
        page <= u64::MAX - 4096,
        !covered(lists, page as int),
    ensures
        block_free_of(lists, page, 0),
        in_window(offset, page) ==> block_ok(offset, page, 0),
{
    lemma_orders();
    if in_window(offset, page) {
        if offset < page {
            lemma_pages_apart(offset, page);
        }
        lemma_window_room((page - offset) as u64);
    }
    assert forall|k: int, i: int| 0 <= k < ORDERS && 0 <= i < lists[k].len() implies blocks_apart(
        #[trigger] lists[k][i],
        k,
        page,
        0,
    ) by {
        let block = lists[k][i];
        lemma_block_is_node(offset, block, k);
        lemma_node_is_word(offset, block);
        assert(!in_block(block, k, page as int));
        if page < block {
            lemma_pages_apart(page, block);
        }
    }
}

/// No bit of a zero byte is set.
proof fn lemma_zero_byte(bit: u8)
    by (bit_vector)
    ensures
        !((0u8 >> bit) & 1u8 == 1u8),
{
}

} // verus!
