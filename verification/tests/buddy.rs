use kernel_heap::mm::buddy_allocator::{size_to_page_order, BuddyAllocator, MAX_BUDDY_ORDER};
use kernel_heap::mm::paging::{HEAP_SIZE, HEAP_START, PAGE_SIZE};

const BASE: usize = HEAP_START as usize;

/// A heap whose arena holds exactly 256 pages: 256 descriptors of 32 bytes
/// fill two pages in front of it.
const HEAP_256: usize = 258 * PAGE_SIZE;

fn fresh(heap_size: usize) -> BuddyAllocator {
    let mut buddy = BuddyAllocator::new();
    buddy.init(BASE, heap_size);
    buddy
}

#[test]
fn new_allocator_is_empty() {
    let buddy = BuddyAllocator::new();
    assert_eq!(buddy.page_count(), 0);
    assert_eq!(buddy.checkout_free_memory(), vec![0; MAX_BUDDY_ORDER]);
}

#[test]
fn page_order_of_sizes() {
    assert_eq!(size_to_page_order(0), 0);
    assert_eq!(size_to_page_order(1), 0);
    assert_eq!(size_to_page_order(PAGE_SIZE), 0);
    assert_eq!(size_to_page_order(PAGE_SIZE + 1), 1);
    assert_eq!(size_to_page_order(2 * PAGE_SIZE), 1);
    assert_eq!(size_to_page_order(2 * PAGE_SIZE + 1), 2);
    assert_eq!(size_to_page_order(3 * PAGE_SIZE), 2);
    assert_eq!(size_to_page_order(8 * 1024), 1);
    assert_eq!(size_to_page_order(128 * PAGE_SIZE), 7);
    assert_eq!(size_to_page_order(128 * PAGE_SIZE + 1), 8);
    assert_eq!(size_to_page_order(usize::MAX), 52);
}

#[test]
fn init_one_mib_heap_layout() {
    let buddy = fresh(HEAP_SIZE);
    // 1 MiB / (4096 + 32) = 254 pages, behind two pages of descriptors
    assert_eq!(buddy.page_count(), 254);
    assert_eq!(buddy.page_to_virt(0), BASE + 2 * PAGE_SIZE);
    assert_eq!(buddy.page_to_virt(253), BASE + 255 * PAGE_SIZE);
    // 254 = 128 + 64 + 32 + 16 + 8 + 4 + 2
    assert_eq!(buddy.checkout_free_memory(), vec![0, 1, 1, 1, 1, 1, 1, 1]);
}

#[test]
fn init_merges_to_top_order() {
    let buddy = fresh(HEAP_256);
    assert_eq!(buddy.page_count(), 256);
    assert_eq!(buddy.checkout_free_memory(), vec![0, 0, 0, 0, 0, 0, 0, 2]);
}

#[test]
fn buddy_ladder() {
    let mut buddy = fresh(HEAP_256);
    let first = buddy.get_free_pages(128 * PAGE_SIZE, PAGE_SIZE);
    let second = buddy.get_free_pages(128 * PAGE_SIZE, PAGE_SIZE);
    let third = buddy.get_free_pages(128 * PAGE_SIZE, PAGE_SIZE);
    assert_eq!(first, Some(128));
    assert_eq!(second, Some(0));
    assert_eq!(third, None);
    assert_eq!(buddy.page(128).order, 7);
    assert!(buddy.page(128).allocated);
    assert!(buddy.page(0).allocated);
}

#[test]
fn buddy_ladder_on_one_mib_heap() {
    // the descriptor array takes two of the 256 pages: one order-7 run is left
    let mut buddy = fresh(HEAP_SIZE);
    assert_eq!(buddy.get_free_pages(128 * PAGE_SIZE, PAGE_SIZE), Some(0));
    assert_eq!(buddy.get_free_pages(128 * PAGE_SIZE, PAGE_SIZE), None);
    assert_eq!(buddy.get_free_pages(64 * PAGE_SIZE, PAGE_SIZE), Some(128));
}

#[test]
fn split_puts_upper_halves_on_lists() {
    let mut buddy = fresh(HEAP_256);
    let p = buddy.get_free_pages(1, 1);
    assert_eq!(p, Some(128));
    // the run 128..256 was halved seven times
    assert_eq!(buddy.checkout_free_memory(), vec![1, 1, 1, 1, 1, 1, 1, 1]);
    assert_eq!(buddy.page(129).order, 0);
    assert!(!buddy.page(129).allocated);
    assert_eq!(buddy.page(130).order, 1);
    assert_eq!(buddy.page(192).order, 6);
    buddy.free_pages(128);
    assert_eq!(buddy.checkout_free_memory(), vec![0, 0, 0, 0, 0, 0, 0, 2]);
}

#[test]
fn free_unlinks_buddy_from_middle_of_list() {
    let mut buddy = fresh(HEAP_256);
    let a = buddy.get_free_pages(1, 1).unwrap();
    let b = buddy.get_free_pages(1, 1).unwrap();
    let c = buddy.get_free_pages(1, 1).unwrap();
    let d = buddy.get_free_pages(1, 1).unwrap();
    assert_eq!((a, b, c, d), (128, 129, 130, 131));
    // free list of order 0 becomes [130, 128]; freeing 129 takes 128 from its end
    buddy.free_pages(a);
    buddy.free_pages(c);
    assert_eq!(buddy.checkout_free_memory()[0], 2);
    buddy.free_pages(b);
    assert_eq!(buddy.checkout_free_memory()[0], 1);
    assert_eq!(buddy.checkout_free_memory()[1], 1);
    buddy.free_pages(d);
    assert_eq!(buddy.checkout_free_memory(), vec![0, 0, 0, 0, 0, 0, 0, 2]);
}

#[test]
fn address_round_trip() {
    let buddy = fresh(HEAP_SIZE);
    for d in [0usize, 1, 17, 253] {
        assert_eq!(buddy.virt_to_page(buddy.page_to_virt(d)), d);
    }
    let base = buddy.page_to_virt(0);
    for a in [base, base + 1, base + 4095, base + 4096, base + 254 * PAGE_SIZE - 1] {
        assert_eq!(buddy.page_to_virt(buddy.virt_to_page(a)), a - a % PAGE_SIZE);
    }
}

#[test]
fn find_buddy_of_runs() {
    let mut buddy = fresh(HEAP_SIZE);
    // 252..254 is an order-1 run whose buddy would start at page 254
    assert_eq!(buddy.page(252).order, 1);
    assert_eq!(buddy.find_buddy_chunk(252), None);
    assert_eq!(buddy.find_buddy_chunk(248), Some(252));
    assert_eq!(buddy.find_buddy_chunk(0), Some(128));
    let p = buddy.get_free_pages(PAGE_SIZE, PAGE_SIZE).unwrap();
    assert_eq!(p, 252);
    assert_eq!(buddy.find_buddy_chunk(252), Some(253));
    assert_eq!(buddy.find_buddy_chunk(253), Some(252));
}

#[test]
fn allocate_returns_page_addresses() {
    let mut buddy = fresh(HEAP_256);
    let base = buddy.page_to_virt(0);
    let p = buddy.allocate(3 * PAGE_SIZE, 8);
    assert_eq!(p, base + 128 * PAGE_SIZE);
    assert_eq!(p % PAGE_SIZE, 0);
    let q = buddy.allocate(PAGE_SIZE, 8);
    assert_eq!(q, base + 132 * PAGE_SIZE);
    buddy.deallocate(p, 3 * PAGE_SIZE, 8);
    buddy.deallocate(q, PAGE_SIZE, 8);
    assert_eq!(buddy.checkout_free_memory(), vec![0, 0, 0, 0, 0, 0, 0, 2]);
    assert_eq!(buddy.allocate(129 * PAGE_SIZE, 8), 0);
}

#[test]
fn churn_keeps_free_lists() {
    let mut buddy = fresh(HEAP_SIZE);
    let before = buddy.checkout_free_memory();
    for _ in 0..10_000 {
        let p = buddy.allocate(8, 8);
        assert_ne!(p, 0);
        buddy.deallocate(p, 8, 8);
    }
    assert_eq!(buddy.checkout_free_memory(), before);
}

#[test]
fn exhaustion_and_recovery() {
    let mut buddy = fresh(HEAP_SIZE);
    let mut held = Vec::new();
    loop {
        match buddy.get_free_pages(PAGE_SIZE, PAGE_SIZE) {
            Some(p) => held.push(p),
            None => break,
        }
    }
    assert_eq!(held.len(), 254);
    let mut sorted = held.clone();
    sorted.sort();
    sorted.dedup();
    assert_eq!(sorted.len(), 254);
    assert_eq!(buddy.checkout_free_memory(), vec![0; MAX_BUDDY_ORDER]);
    for p in held {
        buddy.free_pages(p);
    }
    assert_eq!(buddy.checkout_free_memory(), vec![0, 1, 1, 1, 1, 1, 1, 1]);
}

#[test]
fn set_slab_tags_page() {
    let mut buddy = fresh(HEAP_SIZE);
    assert_eq!(buddy.page(3).slab, None);
    buddy.set_slab(3, Some(0x1000));
    assert_eq!(buddy.page(3).slab, Some(0x1000));
    assert_eq!(buddy.page(2).slab, None);
}

#[test]
fn live_addresses_are_recognised() {
    let mut buddy = fresh(HEAP_SIZE);
    let base = buddy.page_to_virt(0);
    assert_eq!(buddy.heap_start(), BASE);
    assert_eq!(buddy.heap_size(), HEAP_SIZE);
    assert_eq!(buddy.start_addr(), base);
    assert!(!buddy.is_live_address(base));
    let p = buddy.allocate(2 * PAGE_SIZE, 8);
    assert!(buddy.is_live_address(p));
    assert!(buddy.is_live_address(p + 100));
    // the second page of the run is not where the run starts
    assert!(!buddy.is_live_address(p + PAGE_SIZE));
    assert!(!buddy.is_live_address(BASE));
    assert!(!buddy.is_live_address(base + 254 * PAGE_SIZE));
    assert!(!buddy.is_live_address(0));
    assert!(buddy.is_live_page(buddy.virt_to_page(p)));
    assert!(!buddy.is_live_page(254));
    buddy.deallocate(p, 2 * PAGE_SIZE, 8);
    assert!(!buddy.is_live_address(p));
}

#[test]
fn free_lists_after_init_fall_by_address() {
    // 3 * 128 + 2 pages: three runs of the top order and one of order 1
    let buddy = fresh((386 + 4) * PAGE_SIZE);
    assert_eq!(buddy.page_count(), 386);
    assert_eq!(buddy.checkout_free_memory(), vec![0, 1, 0, 0, 0, 0, 0, 3]);
    let mut b = buddy;
    assert_eq!(b.get_free_pages(128 * PAGE_SIZE, PAGE_SIZE), Some(256));
    assert_eq!(b.get_free_pages(128 * PAGE_SIZE, PAGE_SIZE), Some(128));
    assert_eq!(b.get_free_pages(128 * PAGE_SIZE, PAGE_SIZE), Some(0));
    assert_eq!(b.get_free_pages(2 * PAGE_SIZE, PAGE_SIZE), Some(384));
    assert_eq!(b.get_free_pages(1, 1), None);
}

#[test]
fn every_run_after_init_is_as_large_as_the_arena_allows() {
    let buddy = fresh(HEAP_SIZE);
    // 254 pages: 0..128, 128..192, 192..224, 224..240, 240..248, 248..252, 252..254
    let heads = [(0usize, 7u32), (128, 6), (192, 5), (224, 4), (240, 3), (248, 2), (252, 1)];
    for (head, order) in heads {
        assert_eq!(buddy.page(head).order, order);
        assert!(!buddy.page(head).allocated);
    }
}

#[test]
fn free_page_count_is_conserved() {
    let mut buddy = fresh(HEAP_SIZE);
    let free = |b: &BuddyAllocator| -> usize {
        b.checkout_free_memory().iter().enumerate().map(|(o, n)| n << o).sum()
    };
    assert_eq!(free(&buddy), 254);
    let a = buddy.get_free_pages(3 * PAGE_SIZE, 8).unwrap();
    assert_eq!(free(&buddy), 250);
    let b = buddy.get_free_pages(PAGE_SIZE, 8).unwrap();
    assert_eq!(free(&buddy), 249);
    buddy.free_pages(a);
    assert_eq!(free(&buddy), 253);
    buddy.free_pages(b);
    assert_eq!(free(&buddy), 254);
    assert_eq!(buddy.checkout_free_memory(), vec![0, 1, 1, 1, 1, 1, 1, 1]);
}

#[test]
fn list_heads_name_the_first_free_runs() {
    let mut buddy = fresh(HEAP_SIZE);
    assert_eq!(buddy.list_head(0), None);
    assert_eq!(buddy.list_head(1), Some(252));
    assert_eq!(buddy.list_head(7), Some(0));
    assert_eq!(buddy.page(0).next, None);
    assert_eq!(buddy.page(0).prev, None);
    let mut held = Vec::new();
    for _ in 0..6 {
        held.push(buddy.get_free_pages(1, 1).unwrap());
    }
    assert_eq!(held, vec![252, 253, 248, 249, 250, 251]);
    buddy.free_pages(252);
    buddy.free_pages(248);
    buddy.free_pages(250);
    // the list of order 0 is 250, 248, 252
    assert_eq!(buddy.list_head(0), Some(250));
    assert_eq!(buddy.page(250).prev, None);
    assert_eq!(buddy.page(250).next, Some(248));
    assert_eq!(buddy.page(248).prev, Some(250));
    assert_eq!(buddy.page(248).next, Some(252));
    assert_eq!(buddy.page(252).prev, Some(248));
    assert_eq!(buddy.page(252).next, None);
    // 249 merges with 248, which leaves the middle of the list
    buddy.free_pages(249);
    assert_eq!(buddy.list_head(0), Some(250));
    assert_eq!(buddy.page(250).next, Some(252));
    assert_eq!(buddy.page(252).prev, Some(250));
    assert_eq!(buddy.list_head(1), Some(248));
    assert_eq!(buddy.page(248).order, 1);
}
