use kernel_heap::mm::paging::{HEAP_SIZE, HEAP_START, PAGE_SIZE};
use kernel_heap::mm::slab_allocator::{
    size_to_order, Slab, SlabAllocator, SlabHeader, DEFAULT_SLAB_SIZE, MAX_SLAB_ORDER,
    MIN_SLAB_ORDER,
};

const BASE: usize = HEAP_START as usize;

fn fresh() -> SlabAllocator {
    let mut slab = SlabAllocator::new();
    slab.init(BASE, HEAP_SIZE);
    slab
}

#[test]
fn slab_header_new_is_blank() {
    let h = SlabHeader::new();
    assert_eq!(h.free_list_head, None);
    assert_eq!(h.next_slab, None);
    assert_eq!(h.order, 0);
}

#[test]
fn slot_order_of_sizes() {
    assert_eq!(size_to_order(0), 5);
    assert_eq!(size_to_order(1), 5);
    assert_eq!(size_to_order(4), 5);
    assert_eq!(size_to_order(32), 5);
    assert_eq!(size_to_order(33), 6);
    assert_eq!(size_to_order(64), 6);
    assert_eq!(size_to_order(65), 7);
    assert_eq!(size_to_order(2048), 11);
    assert_eq!(size_to_order(2049), 12);
    assert_eq!(size_to_order(3000), 12);
    assert_eq!(size_to_order(4096), 12);
    assert_eq!(size_to_order(4097), 13);
}

#[test]
fn new_slab_threads_all_slots_but_the_first() {
    let mut slab = Slab::new(0x10000, 11);
    assert_eq!(slab.header().order, 11);
    assert_eq!(slab.header().next_slab, None);
    assert_eq!(slab.header().free_list_head, Some(0x10000 + 2048));
    assert_eq!(slab.free_count(), 3);
    assert_eq!(slab.take_slot(), Some(0x10000 + 2048));
    assert_eq!(slab.take_slot(), Some(0x10000 + 2 * 2048));
    assert_eq!(slab.take_slot(), Some(0x10000 + 3 * 2048));
    assert_eq!(slab.take_slot(), None);
    assert_eq!(slab.free_count(), 0);
    slab.put_slot(0x10000 + 2 * 2048);
    slab.put_slot(0x10000 + 2048);
    assert_eq!(slab.free_count(), 2);
    assert_eq!(slab.take_slot(), Some(0x10000 + 2048));
    assert_eq!(slab.take_slot(), Some(0x10000 + 2 * 2048));
}

#[test]
fn new_slab_of_smallest_slots() {
    let slab = Slab::new(0x20000, MIN_SLAB_ORDER as u32);
    assert_eq!(slab.free_count(), DEFAULT_SLAB_SIZE / 32 - 1);
    assert_eq!(slab.header().free_list_head, Some(0x20000 + 32));
}

#[test]
fn init_makes_one_slab_per_order() {
    let slab = fresh();
    assert_eq!(slab.slab_count(), MAX_SLAB_ORDER - MIN_SLAB_ORDER);
    for order in 0..MIN_SLAB_ORDER {
        assert_eq!(slab.chain_head(order), None);
    }
    for order in MIN_SLAB_ORDER..MAX_SLAB_ORDER {
        let id = slab.chain_head(order).unwrap();
        assert_eq!(id, order - MIN_SLAB_ORDER);
        assert_eq!(slab.header(id).order as usize, order);
        assert_eq!(slab.header(id).next_slab, None);
        assert_eq!(slab.free_slots(id), DEFAULT_SLAB_SIZE / (1 << order) - 1);
    }
    // seven runs of two pages were carved out of the 254 pages
    let buddy = slab.fallback();
    assert_eq!(buddy.page_count(), 254);
    let free: usize = buddy
        .checkout_free_memory()
        .iter()
        .enumerate()
        .map(|(order, n)| n << order)
        .sum();
    assert_eq!(free, 254 - 14);
}

#[test]
fn init_on_small_heap_leaves_chains_empty() {
    // two pages of arena: a single slab
    let mut slab = SlabAllocator::new();
    slab.init(BASE, 3 * PAGE_SIZE);
    assert_eq!(slab.fallback().page_count(), 2);
    assert_eq!(slab.slab_count(), 1);
    assert_eq!(slab.chain_head(5), Some(0));
    assert_eq!(slab.chain_head(6), None);
    assert_eq!(slab.allocate(64, 8), 0);
    assert_ne!(slab.allocate(32, 8), 0);
}

#[test]
fn slab_pages_are_tagged() {
    let slab = fresh();
    let buddy = slab.fallback();
    for id in 0..slab.slab_count() {
        let first = slab.header(id).free_list_head.unwrap();
        let page = buddy.virt_to_page(first);
        assert_eq!(buddy.page(page).slab, Some(id));
        assert_eq!(buddy.page(page + 1).slab, Some(id));
        assert!(buddy.page(page).allocated);
        assert_eq!(buddy.page(page).order, 1);
    }
}

#[test]
fn simple_allocation() {
    let mut slab = fresh();
    let a = slab.allocate(4, 4);
    let b = slab.allocate(4, 4);
    assert_ne!(a, 0);
    assert_ne!(b, 0);
    assert_ne!(a, b);
    assert_eq!(a % 32, 0);
    assert_eq!(b % 32, 0);
    assert_eq!(b, a + 32);
    slab.deallocate(a, 4, 4);
    slab.deallocate(b, 4, 4);
    assert_eq!(slab.free_slots(0), 255);
}

#[test]
fn many_boxes() {
    let mut slab = fresh();
    let before = slab.fallback().checkout_free_memory();
    for _ in 0..HEAP_SIZE {
        let x = slab.allocate(8, 8);
        assert_ne!(x, 0);
        slab.deallocate(x, 8, 8);
    }
    assert_eq!(slab.free_slots(0), 255);
    assert_eq!(slab.slab_count(), 7);
    assert_eq!(slab.fallback().checkout_free_memory(), before);
}

#[test]
fn large_vec() {
    // a buffer that doubles as it grows, as a vector of 1000 eight-byte integers does
    let mut slab = fresh();
    let mut cap = 4usize;
    let mut buf = slab.allocate(cap * 8, 8);
    assert_ne!(buf, 0);
    let mut sum = 0u64;
    let mut len = 0usize;
    for i in 0..1000u64 {
        if len == cap {
            let bigger = slab.allocate(2 * cap * 8, 8);
            assert_ne!(bigger, 0);
            slab.deallocate(buf, cap * 8, 8);
            buf = bigger;
            cap *= 2;
        }
        len += 1;
        sum += i;
    }
    assert_eq!(sum, 999 * 1000 / 2);
    assert_eq!(cap, 1024);
    // 8 KiB is beyond the slots: the buffer is a run of pages
    assert_eq!(buf % PAGE_SIZE, 0);
    slab.deallocate(buf, cap * 8, 8);
}

#[test]
fn slab_fill_and_drain() {
    let mut slab = fresh();
    let id_a = slab.chain_head(6).unwrap();
    let pages_before = slab.fallback().checkout_free_memory();
    let mut held = Vec::new();
    for _ in 0..127 {
        held.push(slab.allocate(64, 64));
    }
    assert_eq!(slab.slab_count(), 7);
    assert_eq!(slab.free_slots(id_a), 0);
    assert_eq!(slab.chain_head(6), Some(id_a));
    // the 128th object needs a new slab, which goes to the front of the chain
    held.push(slab.allocate(64, 64));
    assert_eq!(slab.slab_count(), 8);
    let id_b = slab.chain_head(6).unwrap();
    assert_eq!(id_b, 7);
    assert_eq!(slab.header(id_b).next_slab, Some(id_a));
    assert_eq!(slab.free_slots(id_b), 126);
    let pages_after = slab.fallback().checkout_free_memory();
    assert_ne!(pages_before, pages_after);
    let mut sorted = held.clone();
    sorted.sort();
    sorted.dedup();
    assert_eq!(sorted.len(), 128);
    for p in &held {
        assert_ne!(*p, 0);
        assert_eq!(*p % 64, 0);
    }
    for p in held {
        slab.deallocate(p, 64, 64);
    }
    // both free lists are full again, and no slab went back to the page allocator
    assert_eq!(slab.free_slots(id_a), 127);
    assert_eq!(slab.free_slots(id_b), 127);
    assert_eq!(slab.slab_count(), 8);
    assert_eq!(slab.chain_head(6), Some(id_b));
    assert_eq!(slab.fallback().checkout_free_memory(), pages_after);
}

#[test]
fn freed_slot_is_reused_first() {
    let mut slab = fresh();
    let a = slab.allocate(100, 8);
    let b = slab.allocate(100, 8);
    assert_eq!(a % 128, 0);
    slab.deallocate(a, 100, 8);
    assert_eq!(slab.allocate(128, 8), a);
    slab.deallocate(b, 100, 8);
    slab.deallocate(a, 128, 8);
}

#[test]
fn large_requests_go_to_pages() {
    let mut slab = fresh();
    let before = slab.fallback().checkout_free_memory();
    let p = slab.allocate(3000, 8);
    assert_ne!(p, 0);
    assert_eq!(p % PAGE_SIZE, 0);
    let page = slab.fallback().virt_to_page(p);
    assert_eq!(slab.fallback().page(page).slab, None);
    assert_eq!(slab.fallback().page(page).order, 0);
    let q = slab.allocate(5 * PAGE_SIZE, 8);
    assert_eq!(q % PAGE_SIZE, 0);
    let page_q = slab.fallback().virt_to_page(q);
    assert_eq!(slab.fallback().page(page_q).order, 3);
    slab.deallocate(p, 3000, 8);
    slab.deallocate(q, 5 * PAGE_SIZE, 8);
    assert_eq!(slab.fallback().checkout_free_memory(), before);
    assert_eq!(slab.allocate(HEAP_SIZE, 8), 0);
}

#[test]
fn free_goes_by_the_page_not_by_the_size() {
    let mut slab = fresh();
    let a = slab.allocate(40, 8);
    // the size handed in at release does not matter: the page says it is a slot
    slab.deallocate(a, 4000, 8);
    assert_eq!(slab.free_slots(1), 127);
    assert_eq!(slab.allocate(64, 8), a);
}

#[test]
fn live_addresses_are_recognised_by_the_slabs() {
    let mut slab = fresh();
    let a = slab.allocate(64, 8);
    assert!(slab.is_live_address(a));
    assert!(!slab.is_live_address(a + 8));
    assert!(!slab.is_live_address(a + 64));
    // the header's slot is never handed out
    assert!(!slab.is_live_address(a - 64));
    let big = slab.allocate(3 * PAGE_SIZE, 8);
    assert!(slab.is_live_address(big));
    assert!(!slab.is_live_address(big + PAGE_SIZE));
    slab.deallocate(a, 64, 8);
    assert!(!slab.is_live_address(a));
    slab.deallocate(big, 3 * PAGE_SIZE, 8);
    assert!(!slab.is_live_address(big));
    assert!(!slab.is_live_address(0));
}

#[test]
fn slots_of_one_slab_do_not_overlap() {
    let mut slab = fresh();
    let mut held = Vec::new();
    for _ in 0..3 {
        held.push(slab.allocate(2048, 8));
    }
    held.sort();
    assert_eq!(held[1] - held[0], 2048);
    assert_eq!(held[2] - held[1], 2048);
    // the slab is full: the next slot comes from a new slab
    let next = slab.allocate(2048, 8);
    assert!(next < held[0] - 2048 || next >= held[2] + 2048);
    assert_eq!(next % 2048, 0);
}

#[test]
fn new_slab_allocator_holds_a_new_page_allocator() {
    let slab = SlabAllocator::new();
    assert_eq!(slab.slab_count(), 0);
    for order in 0..MAX_SLAB_ORDER {
        assert_eq!(slab.chain_head(order), None);
    }
    let buddy = slab.fallback();
    assert_eq!(buddy.page_count(), 0);
    assert_eq!(buddy.heap_start(), 0);
    assert_eq!(buddy.heap_size(), 0);
    assert_eq!(buddy.start_addr(), 0);
    assert_eq!(buddy.checkout_free_memory(), vec![0; 8]);
}

#[test]
fn a_further_slab_can_be_made_after_init() {
    let mut slab = fresh();
    let pages_free: usize = slab
        .fallback()
        .checkout_free_memory()
        .iter()
        .enumerate()
        .map(|(order, n)| n << order)
        .sum();
    assert_eq!(pages_free, 240);
    assert_eq!(slab.init_slab_cache(5), Some(7));
    assert_eq!(slab.free_slots(7), 255);
}
