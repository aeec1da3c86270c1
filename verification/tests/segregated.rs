use kernel_heap::mm::segregated_allocator::{
    block_address, block_sizes, chunk_request, list_index, thread_chunk, SegregatedError, SegregatedStorageAllocator, Served,
    BLOCKS_PER_CLASS, BLOCK_CLASSES,
};
use linked_list_allocator::Heap;
use std::mem::MaybeUninit;

fn heap_of(bytes: usize) -> Heap {
    let mem: &'static mut [MaybeUninit<u8>] =
        Box::leak(vec![MaybeUninit::<u8>::uninit(); bytes].into_boxed_slice());
    Heap::from_slice(mem)
}

fn fresh() -> SegregatedStorageAllocator {
    let mut seg = SegregatedStorageAllocator::new();
    assert_eq!(seg.init(heap_of(1024 * 1024)), Ok(()));
    seg
}

fn counts(seg: &SegregatedStorageAllocator) -> Vec<usize> {
    (0..BLOCK_CLASSES).map(|i| seg.free_blocks(i)).collect()
}

#[test]
fn block_sizes_double() {
    assert_eq!(block_sizes(), [8, 16, 32, 64, 128, 256, 512, 1024, 2048]);
}

#[test]
fn list_index_picks_smallest_class() {
    assert_eq!(list_index(0, 1), Some(0));
    assert_eq!(list_index(1, 1), Some(0));
    assert_eq!(list_index(8, 8), Some(0));
    assert_eq!(list_index(9, 1), Some(1));
    assert_eq!(list_index(16, 4), Some(1));
    assert_eq!(list_index(17, 4), Some(2));
    assert_eq!(list_index(100, 4), Some(4));
    assert_eq!(list_index(1024, 8), Some(7));
    assert_eq!(list_index(1025, 8), Some(8));
    assert_eq!(list_index(2048, 8), Some(8));
    assert_eq!(list_index(2049, 8), None);
    assert_eq!(list_index(3000, 8), None);
}

#[test]
fn list_index_uses_the_larger_of_size_and_alignment() {
    assert_eq!(list_index(1, 64), Some(3));
    assert_eq!(list_index(64, 1), Some(3));
    assert_eq!(list_index(8, 2048), Some(8));
    assert_eq!(list_index(8, 4096), None);
}

#[test]
fn thread_chunk_stacks_ascending() {
    let nodes = thread_chunk(0x1000, 16);
    assert_eq!(nodes.len(), BLOCKS_PER_CLASS);
    assert_eq!(nodes[0], 0x1000);
    assert_eq!(nodes[1], 0x1010);
    assert_eq!(nodes[99], 0x1000 + 99 * 16);
}

#[test]
fn new_allocator_has_empty_stacks() {
    let seg = SegregatedStorageAllocator::new();
    assert_eq!(counts(&seg), vec![0; BLOCK_CLASSES]);
}

#[test]
fn empty_fallback_serves_nothing() {
    let mut seg = SegregatedStorageAllocator::new();
    assert_eq!(seg.allocate(8, 8), 0);
    assert_eq!(seg.allocate(3000, 8), 0);
    assert_eq!(seg.fallback_alloc(64, 64), 0);
}

#[test]
fn init_fills_every_class() {
    let seg = fresh();
    assert_eq!(counts(&seg), vec![BLOCKS_PER_CLASS; BLOCK_CLASSES]);
}

#[test]
fn init_fails_on_small_heap() {
    let mut seg = SegregatedStorageAllocator::new();
    // 800 + 1600 + ... + 25600 bytes fit into 64 KiB, the 51200 of the class of 512 do not
    let r = seg.init(heap_of(64 * 1024));
    assert_eq!(r, Err(SegregatedError::OutOfMemory(6)));
    assert_eq!(counts(&seg), vec![100, 100, 100, 100, 100, 100, 0, 0, 0]);
}

#[test]
fn install_chunk_without_chunk_fails() {
    let mut seg = SegregatedStorageAllocator::new();
    assert_eq!(seg.install_chunk(3, None), Err(SegregatedError::OutOfMemory(3)));
    assert_eq!(seg.install_chunk(3, Some(usize::MAX - 63)), Err(SegregatedError::OutOfMemory(3)));
    assert_eq!(seg.install_chunk(3, Some(0x4000)), Ok(()));
    assert_eq!(seg.free_blocks(3), 100);
    assert_eq!(seg.take_block(64, 8), Served::Block(0x4000 + 99 * 64));
    assert_eq!(seg.take_block(33, 8), Served::Block(0x4000 + 98 * 64));
}

#[test]
fn take_block_decides_where_a_request_goes() {
    let mut seg = SegregatedStorageAllocator::new();
    assert_eq!(seg.take_block(10, 2), Served::Fallback { size: 16, align: 16 });
    assert_eq!(seg.take_block(1, 64), Served::Fallback { size: 64, align: 64 });
    assert_eq!(seg.take_block(3000, 8), Served::Fallback { size: 3000, align: 8 });
    assert!(seg.deallocate(0x8000, 10, 2));
    assert_eq!(seg.take_block(16, 16), Served::Block(0x8000));
    assert_eq!(seg.take_block(16, 16), Served::Fallback { size: 16, align: 16 });
}

#[test]
fn blocks_are_aligned_to_their_class() {
    let mut seg = fresh();
    let sizes = block_sizes();
    for (i, c) in sizes.iter().enumerate() {
        let p = seg.allocate(*c, 1);
        assert_ne!(p, 0);
        assert_eq!(p % c, 0);
        assert_eq!(seg.free_blocks(i), BLOCKS_PER_CLASS - 1);
        assert!(seg.deallocate(p, *c, 1));
        assert_eq!(seg.free_blocks(i), BLOCKS_PER_CLASS);
    }
}

#[test]
fn alignment_above_size_picks_the_class_of_the_alignment() {
    let mut seg = fresh();
    let p = seg.allocate(1, 64);
    assert_eq!(p % 64, 0);
    assert_eq!(counts(&seg), vec![100, 100, 100, 99, 100, 100, 100, 100, 100]);
    assert!(seg.deallocate(p, 1, 64));
}

#[test]
fn last_freed_block_is_handed_out_first() {
    let mut seg = fresh();
    let a = seg.allocate(32, 8);
    let b = seg.allocate(32, 8);
    assert_eq!(b + 32, a);
    assert!(seg.deallocate(a, 32, 8));
    assert_eq!(seg.allocate(32, 8), a);
    assert!(seg.deallocate(a, 32, 8));
    assert!(seg.deallocate(b, 32, 8));
    assert_eq!(seg.allocate(20, 4), b);
}

#[test]
fn segregated_fallback() {
    let mut seg = fresh();
    let before = counts(&seg);
    let used = seg.fallback_mut().used();
    let p = seg.allocate(3000, 8);
    assert_ne!(p, 0);
    assert_eq!(p % 8, 0);
    assert_eq!(counts(&seg), before);
    assert_eq!(seg.fallback_mut().used(), used + 3000);
    // the block is not of any class: the caller has to hand it to the fallback heap
    assert!(!seg.deallocate(p, 3000, 8));
    assert_eq!(counts(&seg), before);
    assert_eq!(seg.fallback_mut().used(), used + 3000);
}

#[test]
fn empty_class_is_refilled_from_the_fallback() {
    let mut seg = fresh();
    let mut held = Vec::new();
    for _ in 0..BLOCKS_PER_CLASS {
        held.push(seg.allocate(2048, 8));
    }
    assert_eq!(seg.free_blocks(8), 0);
    let used = seg.fallback_mut().used();
    let extra = seg.allocate(2048, 8);
    assert_ne!(extra, 0);
    assert_eq!(extra % 2048, 0);
    assert!(!held.contains(&extra));
    assert_eq!(seg.fallback_mut().used(), used + 2048);
    // released, the block stays with its class
    assert!(seg.deallocate(extra, 2048, 8));
    assert_eq!(seg.free_blocks(8), 1);
    assert_eq!(seg.allocate(2000, 8), extra);
}

#[test]
fn simple_box() {
    let mut seg = fresh();
    let used = seg.fallback_mut().used();
    let a = seg.allocate(4, 4);
    let b = seg.allocate(4, 4);
    assert_ne!(a, 0);
    assert_ne!(b, 0);
    assert_ne!(a, b);
    assert_eq!(a % 8, 0);
    assert_eq!(b % 8, 0);
    assert!(seg.deallocate(a, 4, 4));
    assert!(seg.deallocate(b, 4, 4));
    assert_eq!(counts(&seg), vec![BLOCKS_PER_CLASS; BLOCK_CLASSES]);
    assert_eq!(seg.fallback_mut().used(), used);
}

#[test]
fn growing_buffer() {
    // a buffer of eight-byte integers that doubles until it holds 1000 of them
    let mut seg = fresh();
    let mut cap = 4usize;
    let mut buf = seg.allocate(cap * 8, 8);
    let mut sum = 0u64;
    let mut len = 0usize;
    for i in 0..1000u64 {
        if len == cap {
            let bigger = seg.allocate(2 * cap * 8, 8);
            assert_ne!(bigger, 0);
            assert_eq!(bigger % 8, 0);
            // up to 2048 bytes the buffer is a block of a class, beyond it is the fallback's
            assert_eq!(seg.deallocate(buf, cap * 8, 8), cap * 8 <= 2048);
            buf = bigger;
            cap *= 2;
        }
        len += 1;
        sum += i;
    }
    assert_eq!(sum, 999 * 1000 / 2);
    assert_eq!(cap, 1024);
    assert!(!seg.deallocate(buf, cap * 8, 8));
}

#[test]
fn churn_of_small_blocks() {
    let mut seg = fresh();
    let before = counts(&seg);
    let used = seg.fallback_mut().used();
    for _ in 0..1024 * 1024 {
        let p = seg.allocate(8, 8);
        assert_ne!(p, 0);
        assert!(seg.deallocate(p, 8, 8));
    }
    assert_eq!(counts(&seg), before);
    assert_eq!(seg.fallback_mut().used(), used);
}

#[test]
fn invalid_alignment_is_refused_by_the_fallback() {
    let mut seg = fresh();
    assert_eq!(seg.fallback_alloc(64, 3), 0);
    assert_eq!(seg.fallback_alloc(64, 0), 0);
    assert_eq!(seg.allocate(5000, 3), 0);
}

#[test]
fn free_blocks_are_recognised() {
    let mut seg = fresh();
    let a = seg.allocate(64, 8);
    assert!(!seg.is_free_block(3, a));
    assert!(seg.is_free_block(3, a - 64));
    assert!(seg.deallocate(a, 64, 8));
    assert!(seg.is_free_block(3, a));
    assert!(!seg.is_free_block(4, a));
}

#[test]
fn block_address_of_fallback_results() {
    assert_eq!(block_address(None), 0);
    assert_eq!(block_address(Some(0x4000)), 0x4000);
    assert_eq!(block_address(Some(1)), 1);
}

#[test]
fn fallback_refuses_what_is_no_layout() {
    let mut seg = fresh();
    let used = seg.fallback_mut().used();
    // not a power of two; and a size that no object can have
    assert_eq!(seg.fallback_alloc(64, 24), 0);
    assert_eq!(seg.fallback_alloc(usize::MAX - 5, 8), 0);
    assert_eq!(seg.fallback_mut().used(), used);
    let p = seg.fallback_alloc(64, 32);
    assert_ne!(p, 0);
    assert_eq!(p % 32, 0);
}

#[test]
fn fallback_mut_is_the_heap_that_serves() {
    let mut seg = fresh();
    let size = seg.fallback_mut().size();
    assert!(size > 0 && size <= 1024 * 1024);
    let used = seg.fallback_mut().used();
    assert_ne!(seg.fallback_alloc(4096, 8), 0);
    assert_eq!(seg.fallback_mut().used(), used + 4096);
    assert_eq!(seg.fallback_mut().size(), size);
    assert_eq!(SegregatedStorageAllocator::new().fallback_mut().size(), 0);
}

#[test]
fn chunk_request_asks_for_a_hundred_blocks() {
    assert_eq!(chunk_request(0), (800, 8));
    assert_eq!(chunk_request(1), (1600, 16));
    assert_eq!(chunk_request(5), (25600, 256));
    assert_eq!(chunk_request(8), (204800, 2048));
}

#[test]
fn init_asks_the_heap_for_the_chunks_only() {
    let mut seg = SegregatedStorageAllocator::new();
    let heap = heap_of(1024 * 1024);
    assert_eq!(heap.used(), 0);
    assert_eq!(seg.init(heap), Ok(()));
    // 100 * (8 + 16 + ... + 2048) bytes
    assert_eq!(seg.fallback_mut().used(), 100 * 4088);
}

#[test]
fn chunks_share_no_byte() {
    let mut seg = fresh();
    let sizes = block_sizes();
    // the top of each stack is the last block of its chunk
    let mut chunks = Vec::new();
    for (i, c) in sizes.iter().enumerate() {
        let top = seg.allocate(*c, 1);
        assert!(seg.deallocate(top, *c, 1));
        let base = top - 99 * c;
        assert_eq!(base % c, 0);
        assert!(seg.is_free_block(i, base));
        chunks.push((base, base + 100 * c));
    }
    for (i, a) in chunks.iter().enumerate() {
        for b in chunks.iter().skip(i + 1) {
            assert!(a.1 <= b.0 || b.1 <= a.0);
        }
    }
    // a block from the fallback lies in none of them
    let p = seg.allocate(3000, 8);
    for c in &chunks {
        assert!(p + 3000 <= c.0 || c.1 <= p);
    }
}

#[test]
fn class_blocks_leave_the_fallback_alone() {
    let mut seg = fresh();
    let used = seg.fallback_mut().used();
    let free = seg.fallback_mut().free();
    let a = seg.allocate(100, 4);
    assert_eq!(seg.take_block(100, 4), Served::Block(a - 128));
    assert!(seg.deallocate(a, 100, 4));
    assert!(seg.deallocate(a - 128, 100, 4));
    assert_eq!(seg.fallback_mut().used(), used);
    assert_eq!(seg.fallback_mut().free(), free);
}
