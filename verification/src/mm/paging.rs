//! Page geometry of the managed heap, and the window of virtual addresses
//! that the heap is mapped to.

use vstd::prelude::*;

verus! {

/// Size of one page in bytes.
pub const PAGE_SIZE: usize = 4096;

/// log2 of `PAGE_SIZE`.
pub const PAGE_SHIFT: usize = 12;

/// First address of the kernel heap window.
pub const HEAP_START: u64 = 0x4444_4444_0000;

/// Size of the kernel heap window in bytes.
pub const HEAP_SIZE: usize = 1024 * 1024;

/// Number of pages in the heap window.
pub fn heap_page_count() -> (n: usize)
    ensures
        n * PAGE_SIZE == HEAP_SIZE,
{
    HEAP_SIZE / PAGE_SIZE
}

/// Address of page `index` of the heap window. The pages follow each other
/// from `HEAP_START` on and cover the window exactly.
pub fn heap_page_addr(index: usize) -> (va: u64)
    requires
        index * PAGE_SIZE < HEAP_SIZE,
    ensures
        va == HEAP_START + index * PAGE_SIZE,
        va % (PAGE_SIZE as u64) == 0,
        HEAP_START <= va,
        va + PAGE_SIZE <= HEAP_START + HEAP_SIZE,
{
    assert(HEAP_START % 4096 == 0);
    assert((HEAP_START + index * 4096) % 4096 == 0);
    HEAP_START + (index * PAGE_SIZE) as u64
}

} // verus!
