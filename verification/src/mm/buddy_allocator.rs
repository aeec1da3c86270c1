//! Buddy page allocator.
//!
//! The heap is split into a dense array of page descriptors followed by a
//! page-aligned arena. The arena is managed in runs of `2^order` pages; a free
//! run sits on the free list of its order, threaded through the descriptor of
//! its first page. Descriptors are named by their index in the array.

use vstd::prelude::*;
use vstd::arithmetic::power2::pow2;
use super::paging::{PAGE_SHIFT, PAGE_SIZE};
use super::buddy_view::{
    all_free, block_closed, block_replaced, descending, handed_out, is_head, is_listed,
    law_fully_coalesced, law_handed_out_count, law_runs_disjoint, law_taken_back_count,
    lemma_bounded_distinct, lemma_buddy_is_head, lemma_count_bound, lemma_push_coalesced,
    lemma_push_lists_ok, lemma_released_slab, lemma_removed_thinned, lemma_replace_block_lists,
    lemma_replace_block_runs, lemma_run_block, lemma_thinned_twice, lemma_unlink_coalesced,
    lemma_unlink_lists_ok, lists_ok, maximal_run, runs_ok, same_occupancy, taken_back, thinned,
    BuddyView, RunInfo,
};
use super::pow2::{buddy_index, is_ceil_log2, is_power_of_two};

verus! {

/// Number of run orders; the largest run holds `2^(MAX_BUDDY_ORDER - 1)` pages.
pub const MAX_BUDDY_ORDER: usize = 8;

/// Bytes that one page descriptor occupies in the descriptor array.
pub const PAGE_DESC_SIZE: usize = 32;

/// Descriptor of one page of the arena.
#[allow(non_camel_case_types)]
pub struct page {
    /// Previous descriptor on the same free list.
    pub prev: Option<usize>,
    /// Next descriptor on the same free list.
    pub next: Option<usize>,
    /// Order of the run that starts at this page.
    pub order: u32,
    /// Whether the run that starts at this page is handed out.
    pub allocated: bool,
    /// The slab that this page belongs to, if any, by its index among the slabs.
    pub slab: Option<usize>,
}

/// The buddy allocator: page descriptors, free-list heads and heap geometry.
pub struct BuddyAllocator {
    pages: Vec<page>,
    list_heads: [Option<usize>; MAX_BUDDY_ORDER],
    page_num: u64,
    start_addr: usize,
    heap_start: usize,
    heap_size: usize,
    runs: Ghost<Seq<RunInfo>>,
    lists: Ghost<Seq<Seq<int>>>,
}

impl page {
    /// A descriptor of a free order-0 page on no list and in no slab.
    pub fn new() -> (r: Self)
        ensures
            r == (page { prev: None, next: None, order: 0, allocated: false, slab: None }),
    {
        page { prev: None, next: None, order: 0, allocated: false, slab: None }
    }
}

/// Number of pages that hold `size` bytes.
pub open spec fn pages_for(size: int) -> int {
    if size % (PAGE_SIZE as int) == 0 {
        size / (PAGE_SIZE as int)
    } else {
        size / (PAGE_SIZE as int) + 1
    }
}

/// The least order whose runs hold `size` bytes.
pub open spec fn spec_size_to_page_order(size: int) -> nat {
    choose|k: nat| is_ceil_log2(pages_for(size), k)
}

/// The least order whose runs hold `size` bytes: 0 up to one page, else the
/// binary logarithm, rounded up, of the number of pages needed.
pub fn size_to_page_order(size: usize) -> (order: u32)
    ensures
        order == spec_size_to_page_order(size as int),
        is_ceil_log2(pages_for(size as int), order as nat),
        size <= PAGE_SIZE ==> order == 0,
{
    let page_num: usize = if size % PAGE_SIZE == 0 {
        size / PAGE_SIZE
    } else {
        size / PAGE_SIZE + 1
    };
    let order: u32 = if size <= PAGE_SIZE {
        proof {
            vstd::arithmetic::power2::lemma2_to64();
            assert(is_ceil_log2(page_num as int, 0));
        }
        0
    } else {
        super::pow2::ceil_log2(page_num)
    };
    proof {
        let k = spec_size_to_page_order(size as int);
        assert(is_ceil_log2(pages_for(size as int), order as nat));
        super::pow2::lemma_ceil_log2_unique(pages_for(size as int), k, order as nat);
    }
    order
}

/// Flipping bit `s` of a multiple of `2^s` moves it by `2^s`, up if the bit was clear.
proof fn lemma_xor_bit(x: usize, s: usize)
    by (bit_vector)
    requires
        s < 20,
        x % (1usize << s) == 0,
    ensures
        (x ^ (1usize << s)) == (if (x / (1usize << s)) % 2 == 0 {
            x + (1usize << s)
        } else {
            x - (1usize << s)
        }),
{
}

/// The byte offset of the buddy of a run is the run's offset with the bit
/// of the run's size flipped.
proof fn lemma_buddy_offset(page: usize, order: usize, off: usize, shift: usize)
    requires
        order < MAX_BUDDY_ORDER,
        shift == order + PAGE_SHIFT,
        off == PAGE_SIZE * page,
        page as int % (pow2(order as nat) as int) == 0,
    ensures
        (off ^ (1usize << shift)) == PAGE_SIZE * buddy_index(page as int, order as nat),
{
    let d = pow2(order as nat) as int;
    vstd::arithmetic::power2::lemma2_to64();
    vstd::arithmetic::power2::lemma_pow2_adds(order as nat, 12);
    vstd::arithmetic::power2::lemma_pow2_strictly_increases(shift as nat, 20);
    let big = pow2(shift as nat) as int;
    assert(big == d * 4096);
    vstd::bits::lemma_usize_shl_is_mul(1usize, shift);
    assert((1usize << shift) == big);
    vstd::arithmetic::div_mod::lemma_fundamental_div_mod(page as int, d);
    let q = page as int / d;
    assert(off == big * q + 0) by (nonlinear_arith)
        requires
            off == 4096 * page,
            page == d * q,
            big == d * 4096,
    ;
    vstd::arithmetic::div_mod::lemma_fundamental_div_mod_converse(off as int, big, q, 0);
    lemma_xor_bit(off, shift);
}

/// `head`, if the list is not empty, is its first element.
pub open spec fn list_front(l: Seq<int>) -> Option<usize> {
    if l.len() == 0 {
        None
    } else {
        Some(l[0] as usize)
    }
}

/// The element after position `k` of the list, if any.
pub open spec fn list_next(l: Seq<int>, k: int) -> Option<usize> {
    if k + 1 < l.len() {
        Some(l[k + 1] as usize)
    } else {
        None
    }
}

/// The element before position `k` of the list, if any.
pub open spec fn list_prev(l: Seq<int>, k: int) -> Option<usize> {
    if k > 0 {
        Some(l[k - 1] as usize)
    } else {
        None
    }
}

impl BuddyAllocator {
    /// The abstract state.
    pub closed spec fn view(&self) -> BuddyView {
        BuddyView {
            runs: self.runs@,
            free: self.lists@,
            slab: Seq::new(self.pages@.len(), |j: int| self.pages@[j].slab),
        }
    }

    /// Address of the first page of the arena.
    pub closed spec fn arena_base(&self) -> int {
        self.start_addr as int
    }

    /// First address of the heap.
    pub closed spec fn heap_base(&self) -> int {
        self.heap_start as int
    }

    /// Size of the heap in bytes.
    pub closed spec fn heap_len(&self) -> int {
        self.heap_size as int
    }

    /// The head of the free list of order `o`.
    pub closed spec fn spec_list_head(&self, o: int) -> Option<usize> {
        self.list_heads@[o]
    }

    /// The descriptor array.
    pub closed spec fn descriptors(&self) -> Seq<page> {
        self.pages@
    }

    /// There is one descriptor per page; the arena is page-aligned and lies
    /// inside the heap, behind the descriptor array.
    pub closed spec fn laid_out(&self) -> bool {
        &&& self.pages@.len() == self.runs@.len()
        &&& self.pages@.len() == self.page_num
        &&& self.start_addr % PAGE_SIZE == 0
        &&& self.heap_start + self.pages@.len() * PAGE_DESC_SIZE <= self.start_addr
        &&& self.start_addr + self.pages@.len() * PAGE_SIZE <= self.heap_start + self.heap_size
        &&& self.heap_start + self.heap_size <= usize::MAX
    }

    /// The descriptors of run heads agree with the abstract state, and the
    /// free lists are threaded through them.
    pub closed spec fn links_ok(&self) -> bool {
        &&& self.pages@.len() == self.runs@.len()
        &&& self.lists@.len() == MAX_BUDDY_ORDER
        &&& forall|h: int|
            0 <= h < self.runs@.len() && (#[trigger] self.runs@[h]).head == h ==> {
                &&& self.pages@[h].order == self.runs@[h].order
                &&& self.pages@[h].allocated == self.runs@[h].allocated
            }
        &&& forall|o: int|
            0 <= o < MAX_BUDDY_ORDER ==> #[trigger] self.list_heads@[o] == list_front(
                self.lists@[o],
            )
        &&& forall|o: int, k: int|
            0 <= o < MAX_BUDDY_ORDER && 0 <= k < self.lists@[o].len() ==> {
                let h = #[trigger] self.lists@[o][k];
                &&& self.pages@[h].next == list_next(self.lists@[o], k)
                &&& self.pages@[h].prev == list_prev(self.lists@[o], k)
            }
    }

    /// Only the first page of a run that is handed out is marked as handed out.
    pub closed spec fn flags_ok(&self) -> bool {
        forall|j: int|
            0 <= j < self.pages@.len() && (#[trigger] self.pages@[j]).allocated ==> 0 <= j
                < self.runs@.len() && self.runs@[j].head == j
    }

    /// The allocator is consistent, but for the free runs in `detached`, which are on no list.
    #[verifier::opaque]
    pub open spec fn inv(&self, detached: Set<int>) -> bool {
        &&& self.laid_out()
        &&& self.links_ok()
        &&& self.flags_ok()
        &&& self@.wf_detached(detached)
    }

    /// The allocator is consistent.
    pub open spec fn wf(&self) -> bool {
        self.inv(Set::empty())
    }

    /// The allocator is consistent, but for the free run at `page`, which is on no list.
    pub open spec fn wf_detached(&self, page: int) -> bool {
        self.inv(set![page])
    }

    /// Both allocators manage the same heap with the same arena.
    pub open spec fn same_layout(&self, other: &Self) -> bool {
        &&& self.arena_base() == other.arena_base()
        &&& self.heap_base() == other.heap_base()
        &&& self.heap_len() == other.heap_len()
        &&& self@.page_count() == other@.page_count()
    }

    /// Address of the first byte of page `page`.
    pub open spec fn spec_page_to_virt(&self, page: int) -> int {
        self.arena_base() + PAGE_SIZE * page
    }

    /// Index of the page that holds the arena address `addr`.
    pub open spec fn spec_virt_to_page(&self, addr: int) -> int {
        (addr - self.arena_base()) / (PAGE_SIZE as int)
    }

    /// `addr` lies in the arena.
    pub open spec fn in_arena(&self, addr: int) -> bool {
        self.arena_base() <= addr < self.arena_base() + self@.page_count() * PAGE_SIZE
    }

    /// A run that is handed out starts at `page`.
    pub open spec fn owns_page(&self, page: int) -> bool {
        self@.is_live(page)
    }

    /// `ptr` lies in the arena, in the first page of a run that is handed out.
    pub open spec fn owns(&self, ptr: int) -> bool {
        self.in_arena(ptr) && self@.is_live(self.spec_virt_to_page(ptr))
    }

    /// Number of pages that a heap of `heap_size` bytes is split into: each
    /// takes a page of the arena and a descriptor.
    pub open spec fn spec_page_num(heap_size: int) -> int {
        heap_size / (PAGE_SIZE + PAGE_DESC_SIZE) as int
    }

    /// Address of the arena of the heap `[heap_start, heap_start + heap_size)`:
    /// the first page boundary behind the descriptor array.
    pub open spec fn spec_arena_base(heap_start: int, heap_size: int) -> int {
        super::spec_round_up(
            heap_start + Self::spec_page_num(heap_size) * PAGE_DESC_SIZE,
            PAGE_SIZE as int,
        )
    }
}

impl BuddyAllocator {
    /// What a consistent allocator is made of.
    pub proof fn lemma_inv(&self, detached: Set<int>)
        requires
            self.inv(detached),
        ensures
            self.laid_out(),
            self.links_ok(),
            self.flags_ok(),
            self@.wf_detached(detached),
    {
        reveal(BuddyAllocator::inv);
    }

    /// The abstract state has one entry per descriptor and the arena lies in
    /// the heap.
    pub proof fn lemma_layout(&self)
        requires
            self.laid_out(),
        ensures
            self.descriptors().len() == self@.page_count(),
            self@.slab.len() == self@.page_count(),
            self.arena_base() % (PAGE_SIZE as int) == 0,
            0 <= self.heap_base() <= self.arena_base(),
            0 <= self.heap_len(),
            self.arena_base() + self@.page_count() * PAGE_SIZE <= self.heap_base()
                + self.heap_len() <= usize::MAX,
            forall|j: int|
                0 <= j < self@.page_count() ==> self@.slab[j] == (
                #[trigger] self.descriptors()[j]).slab,
    {
    }

    /// There is one descriptor per page.
    proof fn lemma_layout_len(&self)
        requires
            self.laid_out(),
        ensures
            self.pages@.len() == self.runs@.len(),
    {
    }

    /// The descriptor of a run head records the run's order and occupancy;
    /// the run is an aligned block inside the arena.
    pub proof fn lemma_head(&self, detached: Set<int>, p: int)
        requires
            self.inv(detached),
            is_head(self@.runs, p),
        ensures
            self.laid_out(),
            0 <= p < self@.page_count(),
            self.descriptors().len() == self@.page_count(),
            self.descriptors()[p].order == self@.runs[p].order,
            self.descriptors()[p].allocated == self@.runs[p].allocated,
            self@.runs[p].order < MAX_BUDDY_ORDER,
            self@.runs[p].head == p,
            p % (pow2(self@.runs[p].order) as int) == 0,
            p + pow2(self@.runs[p].order) <= self@.page_count(),
    {
        reveal(BuddyAllocator::inv);
        assert(self@.runs[p].head == p);
    }

    /// A detached run is a free run.
    pub proof fn lemma_detached(&self, detached: Set<int>, p: int)
        requires
            self.inv(detached),
            detached.contains(p),
        ensures
            is_head(self@.runs, p),
            !self@.runs[p].allocated,
    {
        reveal(BuddyAllocator::inv);
    }

    /// Every page of a run carries the run's record.
    pub proof fn lemma_run_pages(&self, detached: Set<int>, p: int)
        requires
            self.inv(detached),
            is_head(self@.runs, p),
        ensures
            forall|j: int|
                p <= j < p + pow2(self@.runs[p].order) ==> (#[trigger] self@.runs[j])
                    == self@.runs[p],
            forall|j: int|
                0 <= j < self@.runs.len() && (#[trigger] self@.runs[j]).head == p
                    ==> self@.runs[j] == self@.runs[p] && p <= j < p + pow2(self@.runs[p].order),
    {
        reveal(BuddyAllocator::inv);
        lemma_run_block(self@.runs, p);
        assert forall|j: int|
            0 <= j < self@.runs.len() && (#[trigger] self@.runs[j]).head == p implies self@.runs[j]
            == self@.runs[p] by {
            assert(self@.runs[self@.runs[j].head] == self@.runs[j]);
        }
    }

    /// The buddy of a run, where it lies in the arena, starts a run of at
    /// most the same order.
    pub proof fn lemma_buddy_head(&self, detached: Set<int>, p: int)
        requires
            self.inv(detached),
            is_head(self@.runs, p),
            0 <= buddy_index(p, self@.runs[p].order) < self@.page_count(),
        ensures
            is_head(self@.runs, buddy_index(p, self@.runs[p].order)),
            buddy_index(p, self@.runs[p].order) != p,
            self@.runs[buddy_index(p, self@.runs[p].order)].order <= self@.runs[p].order,
    {
        reveal(BuddyAllocator::inv);
        lemma_buddy_is_head(self@.runs, p);
        assert(self@.runs[p].head == p);
        super::pow2::lemma_buddy(p, self@.runs[p].order);
    }

    /// The head of a free list is the first run on it, a listed free run of
    /// the list's order.
    pub proof fn lemma_list_head(&self, detached: Set<int>, o: int)
        requires
            self.inv(detached),
            0 <= o < MAX_BUDDY_ORDER,
        ensures
            self@.free.len() == MAX_BUDDY_ORDER,
            self.spec_list_head(o) == list_front(self@.free[o]),
            self@.free[o].len() > 0 ==> is_listed(self@.runs, detached, self@.free[o][0])
                && self@.runs[self@.free[o][0]].order == o && self@.free[o][0] as usize
                == self@.free[o][0],
    {
        reveal(BuddyAllocator::inv);
        if self@.free[o].len() > 0 {
            assert(is_listed(self@.runs, detached, self@.free[o][0]));
        }
    }

    /// A free list has no more entries than the arena has pages.
    pub proof fn lemma_list_len(&self, o: int)
        requires
            self.wf(),
            0 <= o < MAX_BUDDY_ORDER,
        ensures
            self@.free[o].len() <= self.descriptors().len() <= usize::MAX,
    {
        reveal(BuddyAllocator::inv);
        let l = self@.free[o];
        let n = self.pages@.len() as int;
        assert forall|k: int| 0 <= k < l.len() implies 0 <= #[trigger] l[k] < n by {
            assert(is_listed(self@.runs, Set::empty(), self@.free[o][k]));
        }
        lemma_bounded_distinct(l, n);
        assert(n >= 0);
    }

    /// The descriptor of the run at position `k` of a free list names the
    /// runs before and after it on the list.
    pub proof fn lemma_list_link(&self, o: int, k: int)
        requires
            self.wf(),
            0 <= o < MAX_BUDDY_ORDER,
            0 <= k < self@.free[o].len(),
        ensures
            0 <= self@.free[o][k] < self.descriptors().len() <= usize::MAX,
            self.descriptors()[self@.free[o][k]].next == list_next(self@.free[o], k),
            self.descriptors()[self@.free[o][k]].prev == list_prev(self@.free[o], k),
            k + 1 < self@.free[o].len() ==> 0 <= self@.free[o][k + 1] < self.descriptors().len(),
    {
        self.lemma_list_len(o);
        reveal(BuddyAllocator::inv);
        assert(is_listed(self@.runs, Set::empty(), self@.free[o][k]));
        if k + 1 < self@.free[o].len() {
            assert(is_listed(self@.runs, Set::empty(), self@.free[o][k + 1]));
        }
    }
}

impl BuddyAllocator {
    /// An allocator that manages no pages yet.
    pub fn new() -> (r: Self)
        ensures
            r.wf(),
            r@.page_count() == 0,
            r.heap_base() == 0,
            r.heap_len() == 0,
            r.arena_base() == 0,
            forall|o: int| 0 <= o < MAX_BUDDY_ORDER ==> (#[trigger] r@.free[o]).len() == 0,
    {
        let r = BuddyAllocator {
            list_heads: [None;MAX_BUDDY_ORDER],
            pages: Vec::new(),
            page_num: 0,
            start_addr: 0,
            heap_start: 0,
            heap_size: 0,
            runs: Ghost(Seq::empty()),
            lists: Ghost(Seq::new(MAX_BUDDY_ORDER as nat, |o: int| Seq::empty())),
        };
        proof {
            reveal(BuddyAllocator::inv);
        }
        r
    }

    /// The arena of a page-aligned heap fits between the descriptor array and
    /// the end of the heap.
    proof fn lemma_arena_fits(heap_start: int, heap_size: int)
        requires
            heap_start >= 0,
            heap_size >= 0,
            heap_start % (PAGE_SIZE as int) == 0,
            heap_size % (PAGE_SIZE as int) == 0,
        ensures
            Self::spec_page_num(heap_size) >= 0,
            super::spec_round_up(
                heap_start + Self::spec_page_num(heap_size) * PAGE_DESC_SIZE,
                PAGE_SIZE as int,
            ) + Self::spec_page_num(heap_size) * PAGE_SIZE <= heap_start + heap_size,
    {
        let n = heap_size / 4128;
        let a = heap_start + n * 32;
        let s = super::spec_round_up(a, 4096);
        let t = heap_start + heap_size - n * 4096;
        super::lemma_round_up(a, 4096);
        assert(t % 4096 == 0);
        assert(t >= a);
        if t < s {
            super::pow2::lemma_multiples_apart(t, s, 4096);
        }
    }

    /// Lays the allocator out over the heap `[heap_start, heap_start + heap_size)`:
    /// a descriptor per page, then the page-aligned arena, all of it free and
    /// merged as far as it goes.
    pub fn init(&mut self, heap_start: usize, heap_size: usize)
        requires
            heap_start % PAGE_SIZE == 0,
            heap_size % PAGE_SIZE == 0,
            heap_start + heap_size <= usize::MAX,
        ensures
            final(self).wf(),
            final(self).heap_base() == heap_start,
            final(self).heap_len() == heap_size,
            final(self)@.page_count() == Self::spec_page_num(heap_size as int),
            final(self).arena_base() == Self::spec_arena_base(heap_start as int, heap_size as int),
            forall|j: int|
                0 <= j < final(self)@.page_count() ==> !(#[trigger] final(self)@.runs[j]).allocated,
            forall|j: int|
                0 <= j < final(self)@.page_count() ==> (#[trigger] final(self)@.slab[j]) is None,
            final(self)@.free_pages() == final(self)@.page_count(),
            forall|j: int|
                0 <= j < final(self)@.page_count() ==> #[trigger] maximal_run(
                    final(self)@,
                    j,
                ),
            forall|o: int| 0 <= o < MAX_BUDDY_ORDER ==> descending(#[trigger] final(self)@.free[o]),
    {
        let page_num: usize = heap_size / (PAGE_SIZE + PAGE_DESC_SIZE);
        proof {
            Self::lemma_arena_fits(heap_start as int, heap_size as int);
        }
        self.page_num = page_num as u64;
        self.heap_start = heap_start;
        self.heap_size = heap_size;
        self.start_addr = super::round_up(heap_start + page_num * PAGE_DESC_SIZE, PAGE_SIZE);
        self.list_heads = [None;MAX_BUDDY_ORDER];
        self.pages = Vec::new();

        /* Init the page descriptors. */
        let mut index: usize = 0;
        while index < page_num
            invariant
                index <= page_num,
                self.pages@.len() == index,
                forall|j: int|
                    0 <= j < index ==> (#[trigger] self.pages@[j]) == (page {
                        prev: None,
                        next: None,
                        order: 0,
                        allocated: true,
                        slab: None,
                    }),
                self.page_num == page_num,
                self.heap_start == heap_start,
                self.heap_size == heap_size,
                self.start_addr == Self::spec_arena_base(heap_start as int, heap_size as int),
                self.list_heads@ == Seq::new(MAX_BUDDY_ORDER as nat, |o: int| None::<usize>),
            decreases page_num - index,
        {
            let curr_page = page { prev: None, next: None, order: 0, allocated: true, slab: None };
            self.pages.push(curr_page);
            index += 1;
        }
        self.runs = Ghost(
            Seq::new(page_num as nat, |j: int| RunInfo { head: j, order: 0, allocated: true }),
        );
        self.lists = Ghost(Seq::new(MAX_BUDDY_ORDER as nat, |o: int| Seq::empty()));
        proof {
            reveal(BuddyAllocator::inv);
            vstd::arithmetic::power2::lemma2_to64();
            assert(self.laid_out());
            assert(self.links_ok());
            assert(runs_ok(self@.runs));
            assert(self@.wf());
        }

        /* Put each page into the free lists. */
        let mut index: usize = 0;
        while index < page_num
            invariant
                index <= page_num,
                self.wf(),
                self@.runs.len() == page_num,
                self@.slab.len() == page_num,
                forall|j: int|
                    index <= j < page_num ==> (#[trigger] self@.runs[j]) == (RunInfo {
                        head: j,
                        order: 0,
                        allocated: true,
                    }),
                forall|j: int| 0 <= j < index ==> !(#[trigger] self@.runs[j]).allocated,
                forall|j: int| 0 <= j < page_num ==> (#[trigger] self@.slab[j]) is None,
                self@.free.len() == MAX_BUDDY_ORDER,
                forall|o: int| 0 <= o < MAX_BUDDY_ORDER ==> descending(#[trigger] self@.free[o]),
                self.heap_base() == heap_start,
                self.heap_len() == heap_size,
                self.arena_base() == Self::spec_arena_base(heap_start as int, heap_size as int),
            decreases page_num - index,
        {
            let ghost before = *self;
            self.free_pages(index);
            proof {
                assert forall|j: int| index + 1 <= j < page_num implies (#[trigger] self@.runs[j])
                    == (RunInfo { head: j, order: 0, allocated: true }) by {
                    assert(before@.runs[j].allocated);
                }
                assert forall|j: int| 0 <= j < index + 1 implies !(
                #[trigger] self@.runs[j]).allocated by {
                    assert(!before@.runs[j].allocated || before@.runs[j].head == index);
                }
                assert(self@.slab =~= before@.slab) by {
                    lemma_released_slab(before@, index as int);
                }
                Self::lemma_freed_descending(before, *self, index as int);
            }
            index += 1;
        }
        proof {
            lemma_count_bound(self@.runs, self@.runs.len());
            Self::lemma_init_maximal(*self);
        }
    }

    /// Giving back the highest run that is handed out, where all pages above
    /// it are handed out too, keeps the free lists in falling order.
    proof fn lemma_freed_descending(pre: Self, post: Self, page: int)
        requires
            pre.wf(),
            post.wf(),
            0 <= page < pre@.runs.len(),
            post@.runs.len() == pre@.runs.len(),
            forall|j: int| page <= j < pre@.runs.len() ==> (#[trigger] pre@.runs[j]).allocated,
            forall|o: int| 0 <= o < MAX_BUDDY_ORDER ==> descending(#[trigger] pre@.free[o]),
            ({
                let h = pre@.released_head(page);
                let o = pre@.released_order(page);
                &&& post@.is_free_run(h, o)
                &&& post@.runs[page].head == h
                &&& post@.free[o as int].len() > 0
                &&& post@.free[o as int][0] == h
                &&& thinned(pre@.free, post@.free.update(o as int, post@.free[o as int].drop_first()))
            }),
        ensures
            post@.free.len() == MAX_BUDDY_ORDER,
            forall|o: int| 0 <= o < MAX_BUDDY_ORDER ==> descending(#[trigger] post@.free[o]),
    {
        pre.lemma_inv(Set::empty());
        post.lemma_inv(Set::empty());
        let h = pre@.released_head(page);
        let f = pre@.released_order(page) as int;
        let rest = post@.free.update(f, post@.free[f].drop_first());
        let none = Set::<int>::empty();
        assert(post@.runs[h].order == f);
        assert(0 <= f < MAX_BUDDY_ORDER);
        assert forall|o: int| 0 <= o < MAX_BUDDY_ORDER implies descending(
            #[trigger] post@.free[o],
        ) by {
            assert(descending(rest[o]));
            if o == f {
                let l = post@.free[f];
                let t = l.drop_first();
                assert(rest[f] == t);
                assert forall|a: int, b: int| 0 <= a < b < l.len() implies l[a] > l[b] by {
                    if a == 0 {
                        // an entry behind the front was free before, so it lies below
                        // the page given back, and its run ends before the front's begins
                        let x = l[b];
                        assert(t[b - 1] == x);
                        assert(pre@.free[f].contains(rest[f][b - 1]));
                        let k = pre@.free[f].index_of(x);
                        assert(is_listed(pre@.runs, none, pre@.free[f][k]));
                        assert(x < page);
                        assert(is_listed(post@.runs, none, post@.free[f][b]));
                        assert(is_listed(post@.runs, none, post@.free[f][0]));
                        assert(post@.runs[page].head == h);
                        assert(post@.runs[post@.runs[page].head] == post@.runs[page]);
                        law_runs_disjoint(post@, x, h);
                    } else {
                        assert(t[a - 1] == l[a]);
                        assert(t[b - 1] == l[b]);
                    }
                }
            } else {
                assert(rest[o] == post@.free[o]);
            }
        }
    }

    /// Where every page is free, every run is as large as the arena allows.
    proof fn lemma_init_maximal(a: Self)
        requires
            a.wf(),
            all_free(a@),
        ensures
            forall|j: int| 0 <= j < a@.page_count() ==> #[trigger] maximal_run(a@, j),
    {
        a.lemma_inv(Set::empty());
        assert forall|j: int| 0 <= j < a@.page_count() implies #[trigger] maximal_run(
            a@,
            j,
        ) by {
            law_fully_coalesced(a@, j);
        }
    }
}

impl BuddyAllocator {
    /// Number of pages in the arena.
    pub fn page_count(&self) -> (n: u64)
        requires
            self.laid_out(),
        ensures
            n == self@.page_count(),
    {
        self.page_num
    }

    /// First address of the heap.
    pub fn heap_start(&self) -> (a: usize)
        ensures
            a == self.heap_base(),
    {
        self.heap_start
    }

    /// Size of the heap in bytes.
    pub fn heap_size(&self) -> (n: usize)
        ensures
            n == self.heap_len(),
    {
        self.heap_size
    }

    /// Address of the first page of the arena.
    pub fn start_addr(&self) -> (a: usize)
        ensures
            a == self.arena_base(),
    {
        self.start_addr
    }

    /// The head of the free list of order `order`: the first page of the
    /// free run that is handed out or halved next, if the list holds one.
    pub fn list_head(&self, order: usize) -> (head: Option<usize>)
        requires
            self.wf(),
            order < MAX_BUDDY_ORDER,
        ensures
            head == self.spec_list_head(order as int),
            head == list_front(self@.free[order as int]),
    {
        proof {
            self.lemma_list_head(Set::empty(), order as int);
        }
        self.list_heads[order]
    }

    /// The descriptor with index `page`.
    pub fn page(&self, page: usize) -> (d: &page)
        requires
            page < self.descriptors().len(),
        ensures
            *d == self.descriptors()[page as int],
    {
        &self.pages[page]
    }

    /// Address of the first byte of the page with descriptor `page`.
    pub fn page_to_virt(&self, page: usize) -> (va: usize)
        requires
            self.laid_out(),
            page < self@.page_count(),
        ensures
            va == self.spec_page_to_virt(page as int),
            self.in_arena(va as int),
            va % PAGE_SIZE == 0,
    {
        let index: usize = page;
        assert(PAGE_SIZE * index <= PAGE_SIZE * (self.pages@.len() - 1)) by (nonlinear_arith)
            requires
                index <= self.pages@.len() - 1,
        ;
        self.start_addr + PAGE_SIZE * index
    }

    /// Descriptor of the page that holds the arena address `virt_addr`.
    pub fn virt_to_page(&self, virt_addr: usize) -> (page: usize)
        requires
            self.laid_out(),
            self.in_arena(virt_addr as int),
        ensures
            page == self.spec_virt_to_page(virt_addr as int),
            page < self@.page_count(),
            self.spec_page_to_virt(page as int) <= virt_addr < self.spec_page_to_virt(page as int)
                + PAGE_SIZE,
    {
        let index: usize = (super::round_down(virt_addr, PAGE_SIZE) - self.start_addr) / PAGE_SIZE;
        proof {
            let n = self.pages@.len() as int;
            let off = virt_addr - self.start_addr;
            assert(off < n * 4096);
            assert(off / 4096 < n);
            assert(virt_addr as int % 4096 == off % 4096);
        }
        index
    }

    /// Descriptor of the buddy of the run that starts at `page`; `None` where
    /// the buddy would lie beyond the arena.
    pub fn find_buddy_chunk(&self, page: usize) -> (buddy: Option<usize>)
        requires
            self.laid_out(),
            page < self@.page_count(),
            self.descriptors()[page as int].order < MAX_BUDDY_ORDER,
            page as int % (pow2(self.descriptors()[page as int].order as nat) as int) == 0,
        ensures
            buddy_index(page as int, self.descriptors()[page as int].order as nat) >= 0,
            match buddy {
                Some(b) => b == buddy_index(
                    page as int,
                    self.descriptors()[page as int].order as nat,
                ) && b < self@.page_count(),
                None => buddy_index(page as int, self.descriptors()[page as int].order as nat)
                    >= self@.page_count(),
            },
    {
        let va: usize = self.page_to_virt(page);
        let order: usize = self.pages[page].order as usize;
        let shift: usize = order + PAGE_SHIFT;
        let off: usize = va - self.start_addr;
        proof {
            lemma_buddy_offset(page, order, off, shift);
            super::pow2::lemma_buddy(page as int, order as nat);
        }
        let buddy_off: usize = off ^ (1usize << shift);
        if buddy_off / PAGE_SIZE >= self.pages.len() {
            return None;
        }
        let buddy_chunk_addr: usize = buddy_off + self.start_addr;
        Some(self.virt_to_page(buddy_chunk_addr))
    }

    /// Tells whether a run that is handed out starts at `page`.
    pub fn is_live_page(&self, page: usize) -> (b: bool)
        requires
            self.wf(),
        ensures
            b == self.owns_page(page as int),
    {
        proof {
            reveal(BuddyAllocator::inv);
        }
        if page >= self.pages.len() {
            return false;
        }
        proof {
            let j = page as int;
            if self.pages@[j].allocated {
                assert(self.runs@[j].head == j);
            }
            if self@.is_live(j) {
                assert(self.runs@[j].head == j);
            }
        }
        self.pages[page].allocated
    }

    /// Tells whether `ptr` lies in the arena, in the first page of a run
    /// that is handed out.
    pub fn is_live_address(&self, ptr: usize) -> (b: bool)
        requires
            self.wf(),
        ensures
            b == self.owns(ptr as int),
    {
        proof {
            self.lemma_inv(Set::empty());
            self.lemma_layout();
        }
        if ptr < self.start_addr {
            return false;
        }
        if (ptr - self.start_addr) / PAGE_SIZE >= self.pages.len() {
            return false;
        }
        let page: usize = self.virt_to_page(ptr);
        self.is_live_page(page)
    }

    /// Number of free runs on the list of each order, found by walking the lists.
    pub fn checkout_free_memory(&self) -> (counts: Vec<usize>)
        requires
            self.wf(),
        ensures
            counts@.len() == MAX_BUDDY_ORDER,
            forall|o: int| 0 <= o < MAX_BUDDY_ORDER ==> (#[trigger] counts@[o]) == self@.free[o].len(),
    {
        let mut counts: Vec<usize> = Vec::new();
        let mut order: usize = 0;
        while order < MAX_BUDDY_ORDER
            invariant
                self.wf(),
                order <= MAX_BUDDY_ORDER,
                counts@.len() == order,
                forall|o: int| 0 <= o < order ==> (#[trigger] counts@[o]) == self@.free[o].len(),
            decreases MAX_BUDDY_ORDER - order,
        {
            let mut cnt: usize = 0;
            let mut cur: Option<usize> = self.list_heads[order];
            let ghost l = self@.free[order as int];
            proof {
                self.lemma_list_head(Set::empty(), order as int);
                self.lemma_list_len(order as int);
            }
            loop
                invariant
                    self.wf(),
                    order < MAX_BUDDY_ORDER,
                    l == self@.free[order as int],
                    l.len() <= usize::MAX,
                    cnt <= l.len(),
                    cur == (if cnt < l.len() {
                        Some(l[cnt as int] as usize)
                    } else {
                        None
                    }),
                ensures
                    cnt == l.len(),
                decreases l.len() - cnt,
            {
                match cur {
                    Some(p) => {
                        proof {
                            self.lemma_list_link(order as int, cnt as int);
                            assert(p as int == l[cnt as int]);
                            assert(self.pages@[p as int].next == list_next(l, cnt as int));
                        }
                        cur = self.pages[p].next;
                        cnt += 1;
                    },
                    None => {
                        break ;
                    },
                }
            }
            counts.push(cnt);
            order += 1;
        }
        counts
    }

    /// Records that the page with descriptor `page` belongs to `slab`.
    pub fn set_slab(&mut self, page: usize, slab: Option<usize>)
        requires
            old(self).wf(),
            page < old(self)@.page_count(),
        ensures
            final(self).wf(),
            final(self).same_layout(old(self)),
            final(self)@ == (BuddyView {
                slab: old(self)@.slab.update(page as int, slab),
                ..old(self)@
            }),
    {
        proof {
            reveal(BuddyAllocator::inv);
        }
        self.pages[page].slab = slab;
        proof {
            assert(self@.slab =~= old(self)@.slab.update(page as int, slab));
            assert(self.links_ok()) by {
                assert forall|o: int, k: int|
                    0 <= o < MAX_BUDDY_ORDER && 0 <= k < self.lists@[o].len() implies {
                    let x = #[trigger] self.lists@[o][k];
                    &&& self.pages@[x].next == list_next(self.lists@[o], k)
                    &&& self.pages@[x].prev == list_prev(self.lists@[o], k)
                } by {
                    assert(is_listed(old(self)@.runs, Set::empty(), old(self)@.free[o][k]));
                }
            }
        }
    }
}

impl BuddyAllocator {
    /// Puts the detached free run at `h` at the front of the free list of its order.
    fn push_front(&mut self, h: usize, Ghost(detached): Ghost<Set<int>>)
        requires
            old(self).inv(detached),
            detached.contains(h as int),
            old(self)@.runs[h as int].order + 1 < MAX_BUDDY_ORDER ==> {
                let b = buddy_index(h as int, old(self)@.runs[h as int].order);
                !(is_listed(old(self)@.runs, detached, b) && old(self)@.runs[b].order == old(
                    self,
                )@.runs[h as int].order)
            },
        ensures
            final(self).inv(detached.remove(h as int)),
            final(self)@ == old(self)@.with_pushed(old(self)@.runs[h as int].order as int, h as int),
            final(self).same_layout(old(self)),
    {
        proof {
            reveal(BuddyAllocator::inv);
        }
        let order: usize = self.pages[h].order as usize;
        let old_head: Option<usize> = self.list_heads[order];
        let ghost l = self.lists@[order as int];
        self.pages[h].next = old_head;
        self.pages[h].prev = None;
        match old_head {
            Some(n) => {
                assert(n == l[0]);
                self.pages[n].prev = Some(h);
            },
            None => {},
        }
        self.list_heads[order] = Some(h);
        self.lists = Ghost(self.lists@.update(order as int, seq![h as int] + l));
        proof {
            let v0 = old(self)@;
            assert(self@.slab =~= v0.slab);
            assert(self@ == v0.with_pushed(order as int, h as int));
            lemma_push_lists_ok(v0.runs, v0.free, detached, h as int);
            lemma_push_coalesced(v0.runs, detached, h as int);
            Self::lemma_push_links(*old(self), *self, detached, h as int);
        }
    }

    /// Threading `h` in front of its list keeps the lists threaded.
    proof fn lemma_push_links(pre: Self, post: Self, detached: Set<int>, h: int)
        requires
            pre.links_ok(),
            lists_ok(pre.runs@, pre.lists@, detached),
            detached.contains(h),
            post.runs@ == pre.runs@,
            post.pages@.len() == pre.pages@.len(),
            post.lists@ == pre.lists@.update(
                pre.runs@[h].order as int,
                seq![h] + pre.lists@[pre.runs@[h].order as int],
            ),
            post.list_heads@ == pre.list_heads@.update(
                pre.runs@[h].order as int,
                Some(h as usize),
            ),
            0 <= h < pre.pages@.len() <= usize::MAX,
            pre.runs@[h].order < MAX_BUDDY_ORDER,
            post.pages@[h] == (page {
                next: pre.list_heads@[pre.runs@[h].order as int],
                prev: None,
                ..pre.pages@[h]
            }),
            forall|i: int|
                0 <= i < pre.pages@.len() && i != h ==> (#[trigger] post.pages@[i]) == (page {
                    prev: if Some(i as usize) == pre.list_heads@[pre.runs@[h].order as int] {
                        Some(h as usize)
                    } else {
                        pre.pages@[i].prev
                    },
                    ..pre.pages@[i]
                }),
        ensures
            post.links_ok(),
    {
        let order = pre.runs@[h].order as int;
        let l = pre.lists@[order];
        let l1 = seq![h] + l;
        let runs = pre.runs@;
        let free = pre.lists@;
        assert(is_head(runs, h));
        assert forall|o: int|
            0 <= o < MAX_BUDDY_ORDER implies #[trigger] post.list_heads@[o] == list_front(
            post.lists@[o],
        ) by {
            if o == order {
                assert(l1[0] == h);
            }
        }
        assert forall|o: int, k: int|
            0 <= o < MAX_BUDDY_ORDER && 0 <= k < post.lists@[o].len() implies {
            let x = #[trigger] post.lists@[o][k];
            &&& post.pages@[x].next == list_next(post.lists@[o], k)
            &&& post.pages@[x].prev == list_prev(post.lists@[o], k)
        } by {
            let x = post.lists@[o][k];
            if o == order {
                if k > 0 {
                    assert(l1[k] == l[k - 1]);
                    assert(is_listed(runs, detached, free[order][k - 1]));
                    assert(x != h);
                    assert(pre.pages@[x].next == list_next(l, k - 1));
                    assert(pre.pages@[x].prev == list_prev(l, k - 1));
                    if k + 1 < l1.len() {
                        assert(l1[k + 1] == l[k]);
                    }
                    if k > 1 {
                        assert(l1[k - 1] == l[k - 2]);
                        assert(l[k - 1] != l[0]);
                    } else {
                        assert(l1[0] == h);
                    }
                } else {
                    if l.len() > 0 {
                        assert(l1[1] == l[0]);
                    }
                }
            } else {
                assert(x == free[o][k]);
                assert(is_listed(runs, detached, x) && runs[x].order == o);
                assert(x != h);
                if l.len() > 0 {
                    assert(runs[free[order][0]].order == order);
                    assert(x != l[0]);
                }
            }
        }
    }

    /// Takes the listed free run at `b` off the free list of its order.
    fn unlink(&mut self, b: usize, Ghost(detached): Ghost<Set<int>>)
        requires
            old(self).inv(detached),
            is_listed(old(self)@.runs, detached, b as int),
        ensures
            final(self).inv(detached.insert(b as int)),
            final(self)@ == old(self)@.with_removed(old(self)@.runs[b as int].order as int, b as int),
            final(self).same_layout(old(self)),
            thinned(old(self)@.free, final(self)@.free),
    {
        proof {
            reveal(BuddyAllocator::inv);
        }
        let order: usize = self.pages[b].order as usize;
        let ghost l = self.lists@[order as int];
        let ghost k = l.index_of(b as int);
        proof {
            assert(self@.runs[b as int].order == order);
            assert(l.contains(b as int));
            if k > 0 {
                assert(is_listed(self@.runs, detached, self@.free[order as int][k - 1]));
            }
            if k + 1 < l.len() {
                assert(is_listed(self@.runs, detached, self@.free[order as int][k + 1]));
            }
            assert(self.pages@[b as int].prev == list_prev(self.lists@[order as int], k));
            assert(self.pages@[b as int].next == list_next(self.lists@[order as int], k));
        }
        let prev: Option<usize> = self.pages[b].prev;
        let next: Option<usize> = self.pages[b].next;
        match prev {
            Some(pv) => {
                self.pages[pv].next = next;
            },
            None => {
                self.list_heads[order] = next;
            },
        }
        match next {
            Some(nx) => {
                self.pages[nx].prev = prev;
            },
            None => {},
        }
        self.pages[b].prev = None;
        self.pages[b].next = None;
        self.lists = Ghost(self.lists@.update(order as int, l.remove(k)));
        proof {
            let v0 = old(self)@;
            assert(self@.slab =~= v0.slab);
            assert(self@ == v0.with_removed(order as int, b as int));
            lemma_unlink_lists_ok(v0.runs, v0.free, detached, b as int);
            lemma_unlink_coalesced(v0.runs, detached, b as int);
            lemma_removed_thinned(v0.free, order as int, k);
            Self::lemma_unlink_links(*old(self), *self, detached, b as int);
        }
    }

    /// Cutting `b` out of its list keeps the lists threaded.
    #[verifier::rlimit(50)]
    proof fn lemma_unlink_links(pre: Self, post: Self, detached: Set<int>, b: int)
        requires
            pre.links_ok(),
            pre.runs@[b].order < MAX_BUDDY_ORDER,
            lists_ok(pre.runs@, pre.lists@, detached),
            is_listed(pre.runs@, detached, b),
            post.runs@ == pre.runs@,
            post.pages@.len() == pre.pages@.len() <= usize::MAX,
            post.lists@ == pre.lists@.update(
                pre.runs@[b].order as int,
                pre.lists@[pre.runs@[b].order as int].remove(
                    pre.lists@[pre.runs@[b].order as int].index_of(b),
                ),
            ),
            post.list_heads@ == (if pre.pages@[b].prev is None {
                pre.list_heads@.update(pre.runs@[b].order as int, pre.pages@[b].next)
            } else {
                pre.list_heads@
            }),
            post.pages@[b] == (page { next: None, prev: None, ..pre.pages@[b] }),
            forall|i: int|
                0 <= i < pre.pages@.len() && i != b ==> (#[trigger] post.pages@[i]) == (page {
                    next: if Some(i as usize) == pre.pages@[b].prev {
                        pre.pages@[b].next
                    } else {
                        pre.pages@[i].next
                    },
                    prev: if Some(i as usize) == pre.pages@[b].next {
                        pre.pages@[b].prev
                    } else {
                        pre.pages@[i].prev
                    },
                    ..pre.pages@[i]
                }),
        ensures
            post.links_ok(),
    {
        let runs = pre.runs@;
        let free = pre.lists@;
        let order = runs[b].order as int;
        let l = free[order];
        let k = l.index_of(b);
        let l1 = l.remove(k);
        assert(0 <= order < MAX_BUDDY_ORDER);
        assert(l.contains(b));
        assert(pre.pages@[b].next == list_next(free[order], k));
        assert(pre.pages@[b].prev == list_prev(free[order], k));
        assert forall|i: int| 0 <= i < l.len() implies 0 <= #[trigger] l[i] < runs.len() by {
            assert(is_listed(runs, detached, free[order][i]));
        }
        assert forall|o: int|
            0 <= o < MAX_BUDDY_ORDER implies #[trigger] post.list_heads@[o] == list_front(
            post.lists@[o],
        ) by {
            if o == order {
                if l1.len() > 0 {
                    if k == 0 {
                        assert(l1[0] == l[1]);
                    } else {
                        assert(l1[0] == l[0]);
                    }
                }
            }
        }
        assert forall|o: int, j: int|
            0 <= o < MAX_BUDDY_ORDER && 0 <= j < post.lists@[o].len() implies {
            let x = #[trigger] post.lists@[o][j];
            &&& post.pages@[x].next == list_next(post.lists@[o], j)
            &&& post.pages@[x].prev == list_prev(post.lists@[o], j)
        } by {
            let x = post.lists@[o][j];
            if o == order {
                let j0 = if j < k { j } else { j + 1 };
                assert(x == l[j0]);
                assert(x == free[order][j0]);
                assert(x != b);
                assert(pre.pages@[x].next == list_next(l, j0));
                assert(pre.pages@[x].prev == list_prev(l, j0));
                if j + 1 < l1.len() {
                    assert(l1[j + 1] == l[if j + 1 < k { j + 1 } else { j + 2 }]);
                }
                if j > 0 {
                    assert(l1[j - 1] == l[if j - 1 < k { j - 1 } else { j }]);
                }
                if k > 0 {
                    assert(Some(x as usize) == pre.pages@[b].prev <==> j0 == k - 1);
                }
                if k + 1 < l.len() {
                    assert(Some(x as usize) == pre.pages@[b].next <==> j0 == k + 1);
                }
            } else {
                assert(x == free[o][j]);
                assert(is_listed(runs, detached, x) && runs[x].order == o);
                if k > 0 {
                    assert(runs[free[order][k - 1]].order == order);
                }
                if k + 1 < l.len() {
                    assert(runs[free[order][k + 1]].order == order);
                }
            }
        }
    }
}

impl BuddyAllocator {
    /// `post` is `pre` but for the order and occupancy recorded in descriptors,
    /// and for the runs.
    spec fn refitted(pre: Self, post: Self) -> bool {
        &&& post.list_heads@ == pre.list_heads@
        &&& post.lists@ == pre.lists@
        &&& post.page_num == pre.page_num
        &&& post.start_addr == pre.start_addr
        &&& post.heap_start == pre.heap_start
        &&& post.heap_size == pre.heap_size
        &&& post.pages@.len() == pre.pages@.len()
        &&& forall|i: int|
            0 <= i < pre.pages@.len() ==> {
                &&& (#[trigger] post.pages@[i]).next == pre.pages@[i].next
                &&& post.pages@[i].prev == pre.pages@[i].prev
                &&& post.pages@[i].slab == pre.pages@[i].slab
            }
    }

    /// Changing order and occupancy of descriptors keeps the lists threaded,
    /// as long as run heads agree with the abstract state.
    proof fn lemma_links_refit(pre: Self, post: Self, d: Set<int>)
        requires
            pre.links_ok(),
            post.lists@ == pre.lists@,
            post.list_heads@ == pre.list_heads@,
            post.pages@.len() == pre.pages@.len(),
            post.runs@.len() == pre.runs@.len(),
            forall|i: int|
                0 <= i < pre.pages@.len() ==> (#[trigger] post.pages@[i]).next
                    == pre.pages@[i].next && post.pages@[i].prev == pre.pages@[i].prev,
            forall|h: int|
                0 <= h < post.runs@.len() && (#[trigger] post.runs@[h]).head == h ==> {
                    &&& post.pages@[h].order == post.runs@[h].order
                    &&& post.pages@[h].allocated == post.runs@[h].allocated
                },
            lists_ok(pre.runs@, pre.lists@, d),
        ensures
            post.links_ok(),
    {
        assert forall|o: int, k: int|
            0 <= o < MAX_BUDDY_ORDER && 0 <= k < post.lists@[o].len() implies {
            let x = #[trigger] post.lists@[o][k];
            &&& post.pages@[x].next == list_next(post.lists@[o], k)
            &&& post.pages@[x].prev == list_prev(post.lists@[o], k)
        } by {
            assert(is_listed(pre.runs@, d, pre.lists@[o][k]));
        }
    }

    /// Rearranging the runs inside a closed block that holds no listed run,
    /// before or after, keeps the allocator consistent.
    proof fn lemma_refit(
        pre: Self,
        post: Self,
        detached: Set<int>,
        detached1: Set<int>,
        h: int,
        size: int,
    )
        requires
            pre.inv(detached),
            Self::refitted(pre, post),
            block_closed(pre.runs@, h, size),
            block_replaced(pre.runs@, post.runs@, h, size),
            forall|x: int|
                0 <= x < post.runs@.len() && (#[trigger] post.runs@[x]).head == x ==> {
                    &&& post.pages@[x].order == post.runs@[x].order
                    &&& post.pages@[x].allocated == post.runs@[x].allocated
                },
            forall|x: int|
                0 <= x < post.pages@.len() && (#[trigger] post.pages@[x]).allocated
                    ==> post.runs@[x].head == x,
            forall|x: int| h <= x < h + size ==> !#[trigger] is_listed(pre.runs@, detached, x),
            forall|x: int| h <= x < h + size ==> !#[trigger] is_listed(post.runs@, detached1, x),
            forall|x: int|
                !(h <= x < h + size) ==> (detached1.contains(x) <==> detached.contains(x)),
            forall|x: int|
                h <= x < h + size && #[trigger] detached1.contains(x) ==> is_head(post.runs@, x)
                    && !post.runs@[x].allocated,
        ensures
            post.inv(detached1),
            post.same_layout(&pre),
            post@.free == pre@.free,
            post@.slab == pre@.slab,
    {
        reveal(BuddyAllocator::inv);
        lemma_replace_block_runs(pre.runs@, post.runs@, h, size);
        lemma_replace_block_lists(
            pre.runs@,
            post.runs@,
            pre.lists@,
            detached,
            detached1,
            h,
            size,
        );
        Self::lemma_links_refit(pre, post, detached);
        assert(post@.slab =~= pre@.slab);
    }

    /// One merge: two detached free buddies of one order become one detached
    /// free run of the next order.
    proof fn lemma_merge_step(mid: Self, post: Self, page: int, buddy: int)
        requires
            mid.inv(set![page].insert(buddy)),
            is_head(mid.runs@, page),
            is_head(mid.runs@, buddy),
            !mid.runs@[page].allocated,
            !mid.runs@[buddy].allocated,
            mid.runs@[buddy].order == mid.runs@[page].order,
            mid.runs@[page].order + 1 < MAX_BUDDY_ORDER,
            buddy == buddy_index(page, mid.runs@[page].order),
            Self::refitted(mid, post),
            post.runs@ == mid@.with_run(
                if buddy < page {
                    buddy
                } else {
                    page
                },
                mid.runs@[page].order + 1,
                false,
            ).runs,
            forall|i: int|
                0 <= i < mid.pages@.len() ==> {
                    &&& (#[trigger] post.pages@[i]).allocated == mid.pages@[i].allocated
                    &&& post.pages@[i].order == if i == page || i == buddy {
                        (mid.pages@[i].order + 1) as u32
                    } else {
                        mid.pages@[i].order
                    }
                },
        ensures
            post.inv(set![if buddy < page { buddy } else { page }]),
            post.same_layout(&mid),
            post@ == mid@.with_run(
                if buddy < page {
                    buddy
                } else {
                    page
                },
                mid.runs@[page].order + 1,
                false,
            ),
            same_occupancy(post@.runs, mid@.runs),
    {
        let runs = mid.runs@;
        let runs1 = post.runs@;
        let o = runs[page].order;
        let d = pow2(o) as int;
        let lower = if buddy < page { buddy } else { page };
        let det2 = set![page].insert(buddy);
        let det3 = set![lower];
        mid.lemma_inv(det2);
        super::pow2::lemma_pow2_double(o);
        super::pow2::lemma_buddy(page, o);
        lemma_run_block(runs, page);
        lemma_run_block(runs, buddy);
        assert(block_closed(runs, lower, 2 * d));
        assert(block_replaced(runs, runs1, lower, 2 * d));
        assert forall|x: int| lower <= x < lower + 2 * d implies !#[trigger] is_listed(
            runs,
            det2,
            x,
        ) by {}
        Self::lemma_refit(mid, post, det2, det3, lower, 2 * d);
        assert(post@ == mid@.with_run(lower, o + 1, false));
    }

    /// One split: a detached free run becomes two detached free runs of the
    /// order below.
    proof fn lemma_split_step(pre: Self, post: Self, page: int)
        requires
            pre.inv(set![page]),
            is_head(pre.runs@, page),
            !pre.runs@[page].allocated,
            pre.runs@[page].order >= 1,
            Self::refitted(pre, post),
            post.runs@ == pre@.with_run(page, (pre.runs@[page].order - 1) as nat, false).with_run(
                page + pow2((pre.runs@[page].order - 1) as nat),
                (pre.runs@[page].order - 1) as nat,
                false,
            ).runs,
            forall|i: int|
                0 <= i < pre.pages@.len() ==> {
                    &&& (#[trigger] post.pages@[i]).allocated == (if i == page + pow2(
                        (pre.runs@[page].order - 1) as nat,
                    ) {
                        false
                    } else {
                        pre.pages@[i].allocated
                    })
                    &&& post.pages@[i].order == if i == page || i == page + pow2(
                        (pre.runs@[page].order - 1) as nat,
                    ) {
                        (pre.runs@[page].order - 1) as u32
                    } else {
                        pre.pages@[i].order
                    }
                },
        ensures
            post.inv(set![page].insert(page + pow2((pre.runs@[page].order - 1) as nat))),
            post.same_layout(&pre),
            post@ == pre@.with_run(page, (pre.runs@[page].order - 1) as nat, false).with_run(
                page + pow2((pre.runs@[page].order - 1) as nat),
                (pre.runs@[page].order - 1) as nat,
                false,
            ),
            same_occupancy(post@.runs, pre@.runs),
            buddy_index(
                page + pow2((pre.runs@[page].order - 1) as nat),
                (pre.runs@[page].order - 1) as nat,
            ) == page,
    {
        let runs = pre.runs@;
        let runs1 = post.runs@;
        let m = runs[page].order;
        let o = (m - 1) as nat;
        let half = pow2(o) as int;
        let buddy = page + half;
        let det = set![page];
        let det2 = det.insert(buddy);
        pre.lemma_inv(det);
        super::pow2::lemma_pow2_double(o);
        assert(runs[page].head == page);
        super::pow2::lemma_aligned_weaken(page, m, o);
        super::pow2::lemma_buddy(page, o);
        super::pow2::lemma_buddy(buddy, o);
        lemma_run_block(runs, page);
        assert(block_closed(runs, page, 2 * half));
        assert(block_replaced(runs, runs1, page, 2 * half));
        Self::lemma_refit(pre, post, det, det2, page, 2 * half);
    }

    /// Handing out a detached free run, or taking back a run handed out,
    /// which then is detached.
    proof fn lemma_flag_step(
        pre: Self,
        post: Self,
        page: int,
        allocated: bool,
        detached: Set<int>,
        detached1: Set<int>,
    )
        requires
            pre.inv(detached),
            is_head(pre.runs@, page),
            pre.runs@[page].allocated != allocated,
            allocated ==> detached.contains(page) && detached1 == detached.remove(page),
            !allocated ==> detached1 == detached.insert(page),
            Self::refitted(pre, post),
            post.runs@ == pre@.with_run(page, pre.runs@[page].order, allocated).runs,
            forall|i: int|
                0 <= i < pre.pages@.len() ==> {
                    &&& (#[trigger] post.pages@[i]).allocated == (if i == page {
                        allocated
                    } else {
                        pre.pages@[i].allocated
                    })
                    &&& post.pages@[i].order == pre.pages@[i].order
                },
        ensures
            post.inv(detached1),
            post.same_layout(&pre),
            post@ == pre@.with_run(page, pre.runs@[page].order, allocated),
            forall|j: int|
                0 <= j < pre.runs@.len() ==> {
                    let r1 = #[trigger] post@.runs[j];
                    let r0 = pre@.runs[j];
                    r1 == if r0.head == page {
                        RunInfo { allocated, ..r0 }
                    } else {
                        r0
                    }
                },
    {
        let runs = pre.runs@;
        let runs1 = post.runs@;
        let o = runs[page].order;
        let size = pow2(o) as int;
        pre.lemma_inv(detached);
        lemma_run_block(runs, page);
        assert(block_replaced(runs, runs1, page, size));
        Self::lemma_refit(pre, post, detached, detached1, page, size);
    }

    /// Merges the detached free run at `page` with its buddy while the buddy
    /// is a free run of the same order, and returns the first page of the
    /// resulting run, which stays detached.
    pub fn merge_page(&mut self, page: usize) -> (merged: usize)
        requires
            old(self).wf_detached(page as int),
        ensures
            final(self).wf_detached(merged as int),
            final(self).same_layout(old(self)),
            merged == old(self)@.merged_head(page as int, old(self)@.runs[page as int].order),
            final(self)@ == old(self)@.merged(page as int, old(self)@.runs[page as int].order),
            final(self)@.runs[merged as int].order == old(self)@.merged_order(
                page as int,
                old(self)@.runs[page as int].order,
            ),
            !final(self)@.can_merge(merged as int, final(self)@.runs[merged as int].order),
            same_occupancy(final(self)@.runs, old(self)@.runs),
            thinned(old(self)@.free, final(self)@.free),
            forall|j: int|
                0 <= j < old(self)@.runs.len() && (#[trigger] old(self)@.runs[j]).head == page
                    ==> final(self)@.runs[j].head == merged,
        decreases MAX_BUDDY_ORDER - old(self)@.runs[page as int].order,
    {
        let ghost det = set![page as int];
        let ghost o = self@.runs[page as int].order;
        proof {
            assert(det.contains(page as int));
            self.lemma_detached(det, page as int);
            self.lemma_head(det, page as int);
        }
        if self.pages[page].order >= (MAX_BUDDY_ORDER - 1) as u32 {
            return page;
        }
        let buddy: usize = match self.find_buddy_chunk(page) {
            Some(b) => b,
            None => {
                return page;
            },
        };
        proof {
            self.lemma_buddy_head(det, page as int);
            self.lemma_head(det, buddy as int);
        }
        if self.pages[buddy].allocated == true {
            return page;
        }
        if self.pages[buddy].order != self.pages[page].order {
            return page;
        }
        assert(is_listed(self@.runs, det, buddy as int));
        self.unlink(buddy, Ghost(det));
        let ghost mid = *self;
        let ghost det2 = det.insert(buddy as int);
        proof {
            mid.lemma_head(det2, buddy as int);
            mid.lemma_head(det2, page as int);
            mid.lemma_layout_len();
        }
        self.pages[buddy].order += 1;
        self.pages[page].order += 1;
        let lower: usize = if page > buddy {
            buddy
        } else {
            page
        };
        self.runs = Ghost(mid@.with_run(lower as int, o + 1, false).runs);
        let ghost stepped = *self;
        proof {
            Self::lemma_merge_step(mid, *self, page as int, buddy as int);
            vstd::arithmetic::power2::lemma_pow2_pos(o + 1);
            assert(self@.runs[lower as int].order == o + 1);
            assert(old(self)@.can_merge(page as int, o));
            mid.lemma_run_pages(det2, page as int);
            assert forall|j: int|
                0 <= j < old(self)@.runs.len() && (#[trigger] old(self)@.runs[j]).head
                    == page implies stepped@.runs[j].head == lower by {
                assert(mid@.runs[j].head == page);
                super::pow2::lemma_buddy(page as int, o);
                super::pow2::lemma_pow2_double(o);
            }
        }
        let merged: usize = self.merge_page(lower);
        proof {
            lemma_thinned_twice(old(self)@.free, stepped@.free, self@.free);
        }
        merged
    }

    /// Halves the detached free run at `page` until it has order `order`; each
    /// upper half becomes a free run at the front of the list of its order.
    /// The lower part, at `page`, stays detached.
    pub fn split_page(&mut self, page: usize, order: usize) -> (r: usize)
        requires
            old(self).wf_detached(page as int),
            order <= old(self)@.runs[page as int].order,
        ensures
            final(self).wf_detached(page as int),
            final(self).same_layout(old(self)),
            r == page,
            final(self)@ == old(self)@.split(
                page as int,
                old(self)@.runs[page as int].order,
                order as nat,
            ),
            final(self)@.runs[page as int].order == order,
            same_occupancy(final(self)@.runs, old(self)@.runs),
        decreases old(self)@.runs[page as int].order,
    {
        proof {
            assert(set![page as int].contains(page as int));
            self.lemma_detached(set![page as int], page as int);
            self.lemma_head(set![page as int], page as int);
        }
        if self.pages[page].order == order as u32 {
            return page;
        }
        let ghost m = self@.runs[page as int].order;
        let ghost o = (m - 1) as nat;
        let ghost half = pow2(o) as int;
        let ghost pre = *self;
        proof {
            super::pow2::lemma_pow2_double(o);
            super::pow2::lemma_aligned_weaken(page as int, m, o);
            super::pow2::lemma_buddy(page as int, o);
        }
        self.pages[page].order -= 1;
        let curr_order: usize = self.pages[page].order as usize;
        let buddy: usize = match self.find_buddy_chunk(page) {
            Some(b) => b,
            None => {
                proof {
                    assert(false);
                }
                return page;
            },
        };
        self.pages[buddy].order = curr_order as u32;
        self.pages[buddy].allocated = false;
        self.runs = Ghost(
            pre@.with_run(page as int, o, false).with_run(buddy as int, o, false).runs,
        );
        let ghost det = set![page as int];
        let ghost det2 = det.insert(buddy as int);
        proof {
            Self::lemma_split_step(pre, *self, page as int);
            assert(det2.remove(buddy as int) =~= det);
        }
        self.push_front(buddy, Ghost(det2));
        self.split_page(page, order)
    }
}

impl BuddyAllocator {
    /// Gives back the run handed out at `page`: it merges with free buddies
    /// as long as it can, and the resulting run goes to the front of the free
    /// list of its order.
    pub fn free_pages(&mut self, page: usize)
        requires
            old(self).wf(),
            old(self)@.is_live(page as int),
        ensures
            final(self).wf(),
            final(self).same_layout(old(self)),
            final(self)@ == old(self)@.released(page as int),
            taken_back(old(self)@.runs, final(self)@.runs, page as int),
            final(self)@.free_pages() == old(self)@.free_pages() + pow2(
                old(self)@.runs[page as int].order,
            ),
            ({
                let h = old(self)@.released_head(page as int);
                let o = old(self)@.released_order(page as int);
                &&& final(self)@.is_free_run(h, o)
                &&& final(self)@.runs[page as int].head == h
                &&& final(self)@.free[o as int].len() > 0
                &&& final(self)@.free[o as int][0] == h
                &&& thinned(
                    old(self)@.free,
                    final(self)@.free.update(o as int, final(self)@.free[o as int].drop_first()),
                )
                &&& !final(self)@.can_merge(h, o)
            }),
    {
        let ghost pre = *self;
        let ghost o = self@.runs[page as int].order;
        let ghost size = pow2(o) as int;
        proof {
            self.lemma_head(Set::empty(), page as int);
        }
        self.pages[page].allocated = false;
        self.runs = Ghost(pre@.with_run(page as int, o, false).runs);
        let ghost det0 = Set::<int>::empty();
        let ghost det = set![page as int];
        proof {
            assert(det0.insert(page as int) =~= det);
            Self::lemma_flag_step(pre, *self, page as int, false, det0, det);
        }
        let ghost mid = *self;
        let final_page: usize = self.merge_page(page);
        let ghost det_final = set![final_page as int];
        proof {
            assert(det_final.contains(final_page as int));
            assert(det_final.remove(final_page as int) =~= det0);
            self.lemma_detached(det_final, final_page as int);
            self.lemma_head(det_final, final_page as int);
        }
        let ghost merged = *self;
        self.push_front(final_page, Ghost(det_final));
        proof {
            Self::lemma_taken_back_count(pre, *self, page as int);
            let h = final_page as int;
            let f = merged@.runs[h].order;
            assert(h == pre@.released_head(page as int));
            assert(f == pre@.released_order(page as int));
            assert(self@.runs == merged@.runs);
            merged.lemma_list_head(det_final, f as int);
            assert(self@.free[f as int] == seq![h] + merged@.free[f as int]);
            assert(self@.free[f as int][0] == h);
            assert(self@.can_merge(h, f) == merged@.can_merge(h, f));
            assert(self@.free[f as int].drop_first() =~= merged@.free[f as int]);
            assert(self@.free.update(f as int, self@.free[f as int].drop_first())
                =~= merged@.free);
            assert(mid@.runs[page as int].head == page);
        }
    }

    /// Taking back a run of order `k` adds `2^k` pages to the free pages.
    proof fn lemma_taken_back_count(pre: Self, post: Self, p: int)
        requires
            pre.wf(),
            taken_back(pre@.runs, post@.runs, p),
            pre@.is_live(p),
        ensures
            post@.free_pages() == pre@.free_pages() + pow2(pre@.runs[p].order),
    {
        pre.lemma_inv(Set::empty());
        law_taken_back_count(pre@, post@, p);
    }

    /// Hands out a run of the least order that holds `size` bytes: the first
    /// run on the first non-empty free list from that order on, halved down
    /// to the order needed. `None` where no free run is large enough.
    pub fn get_free_pages(&mut self, size: usize, align: usize) -> (r: Option<usize>)
        requires
            old(self).wf(),
        ensures
            final(self).wf(),
            final(self).same_layout(old(self)),
            match r {
                None => old(self)@.first_fit(spec_size_to_page_order(size as int)) is None
                    && final(self)@ == old(self)@,
                Some(p) => {
                    let k = spec_size_to_page_order(size as int);
                    &&& old(self)@.first_fit(k) is Some
                    &&& p == old(self)@.free[old(self)@.first_fit(k).unwrap() as int][0]
                    &&& final(self)@ == old(self)@.carved(old(self)@.first_fit(k).unwrap(), k)
                    &&& final(self)@.runs[p as int] == (RunInfo {
                        head: p as int,
                        order: k,
                        allocated: true,
                    })
                    &&& !old(self)@.runs[p as int].allocated
                    &&& p < old(self)@.runs.len()
                    &&& handed_out(old(self)@.runs, final(self)@.runs, p as int)
                    &&& final(self)@.free_pages() + pow2(k) == old(self)@.free_pages()
                },
            },
    {
        let needed: u32 = size_to_page_order(size);
        let mut order: u32 = needed;
        while order < MAX_BUDDY_ORDER as u32
            invariant
                *self == *old(self),
                self.wf(),
                needed <= order,
                needed as nat == spec_size_to_page_order(size as int),
                self@.first_fit(needed as nat) == self@.first_fit(order as nat),
            decreases MAX_BUDDY_ORDER - order,
        {
            match self.list_heads[order as usize] {
                Some(free_page) => {
                    let ghost pre = *self;
                    let ghost det0 = Set::<int>::empty();
                    let ghost det = set![free_page as int];
                    proof {
                        self.lemma_list_head(det0, order as int);
                        assert(self.list_heads@[order as int] == Some(free_page));
                        assert(self@.free[order as int].len() > 0);
                        assert(free_page == self@.free[order as int][0]);
                        assert(det0.insert(free_page as int) =~= det);
                        assert(self@.first_fit(order as nat) == Some(order as nat));
                    }
                    self.unlink(free_page, Ghost(det0));
                    let final_page: usize = self.split_page(free_page, needed as usize);
                    let ghost mid = *self;
                    let ghost k = needed as nat;
                    let ghost size_k = pow2(k) as int;
                    proof {
                        assert(det.contains(free_page as int));
                        mid.lemma_detached(det, free_page as int);
                        mid.lemma_head(det, free_page as int);
                        mid.lemma_layout_len();
                    }
                    self.pages[final_page].allocated = true;
                    self.runs = Ghost(mid@.with_run(final_page as int, k, true).runs);
                    proof {
                        let p = final_page as int;
                        assert(det.contains(p));
                        assert(det.remove(p) =~= det0);
                        Self::lemma_flag_step(mid, *self, p, true, det, det0);
                        mid.lemma_run_pages(det, p);
                        vstd::arithmetic::power2::lemma_pow2_pos(k);
                        Self::lemma_handed_out_count(pre, *self, p, k);
                    }
                    return Some(final_page);
                },
                None => {
                    proof {
                        self.lemma_list_head(Set::empty(), order as int);
                    }
                    order += 1;
                },
            }
        }
        None
    }

    /// Handing out a run of order `k` takes `2^k` pages from the free pages.
    proof fn lemma_handed_out_count(pre: Self, post: Self, p: int, k: nat)
        requires
            pre.wf(),
            post.wf(),
            handed_out(pre@.runs, post@.runs, p),
            0 <= p < pre@.runs.len(),
            !pre@.runs[p].allocated,
            post@.runs[p] == (RunInfo { head: p, order: k, allocated: true }),
        ensures
            post@.free_pages() + pow2(k) == pre@.free_pages(),
    {
        pre.lemma_inv(Set::empty());
        post.lemma_inv(Set::empty());
        law_handed_out_count(pre@, post@, p, k);
    }

    /// Serves a request for `size` bytes from the page allocator: the address
    /// of the run handed out, or 0 where no free run is large enough.
    pub fn allocate(&mut self, size: usize, align: usize) -> (ptr: usize)
        requires
            old(self).wf(),
        ensures
            final(self).wf(),
            final(self).same_layout(old(self)),
            match old(self)@.first_fit(spec_size_to_page_order(size as int)) {
                None => ptr == 0 && final(self)@ == old(self)@,
                Some(m) => {
                    let k = spec_size_to_page_order(size as int);
                    let p = old(self)@.free[m as int][0];
                    &&& ptr != 0
                    &&& ptr == old(self).spec_page_to_virt(p)
                    &&& ptr % PAGE_SIZE == 0
                    &&& final(self)@ == old(self)@.carved(m, k)
                    &&& final(self)@.runs[p] == (RunInfo { head: p, order: k, allocated: true })
                    &&& !old(self)@.runs[p].allocated
                    &&& 0 <= p < old(self)@.runs.len()
                    &&& handed_out(old(self)@.runs, final(self)@.runs, p)
                    &&& final(self)@.free_pages() + pow2(k) == old(self)@.free_pages()
                },
            },
            ptr != 0 ==> !old(self).owns(ptr as int) && final(self).owns(ptr as int),
            forall|a: int| old(self).owns(a) ==> final(self).owns(a),
            is_power_of_two(align as int) && align <= PAGE_SIZE ==> ptr as int % (align as int)
                == 0,
    {
        proof {
            if is_power_of_two(align as int) && align <= PAGE_SIZE {
                let e = choose|e: nat| align as int == pow2(e);
                vstd::arithmetic::power2::lemma_pow2_pos(e);
                vstd::arithmetic::div_mod::lemma_small_mod(0, align as nat);
            }
        }
        match self.get_free_pages(size, align) {
            Some(page) => {
                proof {
                    self.lemma_inv(Set::empty());
                    self.lemma_layout();
                    old(self).lemma_inv(Set::empty());
                    old(self).lemma_layout();
                    self.law_page_round_trip(page as int);
                    if is_power_of_two(align as int) && align <= PAGE_SIZE {
                        vstd::arithmetic::power2::lemma2_to64();
                        super::pow2::lemma_power_of_two_divides(
                            self.spec_page_to_virt(page as int),
                            12,
                            align as int,
                        );
                    }
                    assert forall|a: int| old(self).owns(a) implies self.owns(a) by {
                        old(self).law_address_round_trip(a);
                        let j = old(self).spec_virt_to_page(a);
                        assert(old(self)@.runs[j].allocated);
                    }
                }
                self.page_to_virt(page)
            },
            None => 0,
        }
    }

    /// Takes back the run that `ptr` lies in the first page of.
    pub fn deallocate(&mut self, ptr: usize, size: usize, align: usize)
        requires
            old(self).wf(),
            old(self).owns(ptr as int),
        ensures
            final(self).wf(),
            final(self).same_layout(old(self)),
            final(self)@ == old(self)@.released(old(self).spec_virt_to_page(ptr as int)),
            taken_back(
                old(self)@.runs,
                final(self)@.runs,
                old(self).spec_virt_to_page(ptr as int),
            ),
            final(self)@.free_pages() == old(self)@.free_pages() + pow2(
                old(self)@.runs[old(self).spec_virt_to_page(ptr as int)].order,
            ),
            !final(self).owns(ptr as int),
            forall|a: int|
                old(self).owns(a) && old(self).spec_virt_to_page(a) != old(self).spec_virt_to_page(
                    ptr as int,
                ) ==> final(self).owns(a),
    {
        proof {
            self.lemma_inv(Set::empty());
        }
        let page: usize = self.virt_to_page(ptr);
        self.free_pages(page);
        proof {
            old(self).lemma_layout();
            assert(old(self)@.runs[page as int].head == page);
            assert forall|a: int|
                old(self).owns(a) && old(self).spec_virt_to_page(a) != page implies self.owns(
                a,
            ) by {
                old(self).law_address_round_trip(a);
                let j = old(self).spec_virt_to_page(a);
                assert(old(self)@.runs[j].head == j);
                assert(self@.runs[j].allocated);
            }
        }
    }
}

impl BuddyAllocator {
    /// Descriptor and page address determine each other: the page of the
    /// address of a descriptor's page is that descriptor.
    pub proof fn law_page_round_trip(&self, d: int)
        requires
            self.laid_out(),
            0 <= d < self@.page_count(),
        ensures
            self.in_arena(self.spec_page_to_virt(d)),
            self.spec_virt_to_page(self.spec_page_to_virt(d)) == d,
    {
        assert(PAGE_SIZE * d <= PAGE_SIZE * (self@.page_count() - 1)) by (nonlinear_arith)
            requires
                d <= self@.page_count() - 1,
        ;
    }

    /// The address of the page of an arena address is that address rounded
    /// down to a page boundary.
    pub proof fn law_address_round_trip(&self, a: int)
        requires
            self.laid_out(),
            self.in_arena(a),
        ensures
            0 <= self.spec_virt_to_page(a) < self@.page_count(),
            self.spec_page_to_virt(self.spec_virt_to_page(a)) == super::spec_round_down(
                a,
                PAGE_SIZE as int,
            ),
    {
        let off = a - self.start_addr;
        let n = self.pages@.len() as int;
        assert(off < n * 4096);
        assert(a % 4096 == off % 4096);
    }

    /// Two runs share no byte: the memory of one ends before that of the
    /// other begins.
    pub proof fn law_run_memory_disjoint(&self, h1: int, h2: int)
        requires
            self.wf(),
            self@.is_head(h1),
            self@.is_head(h2),
            h1 != h2,
        ensures
            self.spec_page_to_virt(h1) + PAGE_SIZE * pow2(self@.runs[h1].order)
                <= self.spec_page_to_virt(h2) || self.spec_page_to_virt(h2) + PAGE_SIZE * pow2(
                self@.runs[h2].order,
            ) <= self.spec_page_to_virt(h1),
    {
        self.lemma_inv(Set::empty());
        law_runs_disjoint(self@, h1, h2);
        let len1 = pow2(self@.runs[h1].order) as int;
        let len2 = pow2(self@.runs[h2].order) as int;
        if h1 + len1 <= h2 {
            assert(PAGE_SIZE * h1 + PAGE_SIZE * len1 <= PAGE_SIZE * h2) by (nonlinear_arith)
                requires
                    h1 + len1 <= h2,
            ;
        } else {
            assert(PAGE_SIZE * h2 + PAGE_SIZE * len2 <= PAGE_SIZE * h1) by (nonlinear_arith)
                requires
                    h2 + len2 <= h1,
            ;
        }
    }

    /// The memory of a run lies in the arena, which lies in the heap behind
    /// the descriptor array.
    pub proof fn law_run_in_arena(&self, h: int)
        requires
            self.wf(),
            self@.is_head(h),
        ensures
            self.heap_base() + self@.page_count() * PAGE_DESC_SIZE <= self.arena_base(),
            self.arena_base() <= self.spec_page_to_virt(h),
            self.spec_page_to_virt(h) + PAGE_SIZE * pow2(self@.runs[h].order) <= self.arena_base()
                + self@.page_count() * PAGE_SIZE,
            self.arena_base() + self@.page_count() * PAGE_SIZE <= self.heap_base()
                + self.heap_len(),
    {
        self.lemma_head(Set::empty(), h);
        self.lemma_layout();
        let size = pow2(self@.runs[h].order) as int;
        let n = self@.page_count() as int;
        assert(PAGE_SIZE * h + PAGE_SIZE * size <= n * PAGE_SIZE && PAGE_SIZE * h >= 0)
            by (nonlinear_arith)
            requires
                0 <= h,
                h + size <= n,
        ;
    }

    /// A run of the order that a request of `size` bytes is served with
    /// holds `size` bytes.
    pub proof fn law_request_fits(size: int)
        requires
            size >= 0,
        ensures
            size <= PAGE_SIZE * pow2(spec_size_to_page_order(size)),
    {
        let pages = pages_for(size);
        let found = super::pow2::lemma_ceil_log2_exists(pages, 0);
        assert(is_ceil_log2(pages, found));
        let k = spec_size_to_page_order(size);
        assert(is_ceil_log2(pages, k));
        assert(size <= PAGE_SIZE * pages);
        assert(PAGE_SIZE * pages <= PAGE_SIZE * pow2(k)) by (nonlinear_arith)
            requires
                pages <= pow2(k),
        ;
    }

    /// A run of order `k` begins a multiple of its size behind the arena's
    /// first page, at a page boundary.
    pub proof fn law_run_aligned(&self, h: int)
        requires
            self.wf(),
            self@.is_head(h),
        ensures
            self.spec_page_to_virt(h) % (PAGE_SIZE as int) == 0,
            (self.spec_page_to_virt(h) - self.arena_base()) % (PAGE_SIZE * pow2(
                self@.runs[h].order,
            )) == 0,
    {
        self.lemma_head(Set::empty(), h);
        let k = self@.runs[h].order;
        let d = pow2(k) as int;
        vstd::arithmetic::power2::lemma_pow2_pos(k);
        vstd::arithmetic::div_mod::lemma_fundamental_div_mod(h, d);
        let q = h / d;
        assert(PAGE_SIZE * h == q * (PAGE_SIZE * d)) by (nonlinear_arith)
            requires
                h == d * q,
        ;
        assert(PAGE_SIZE * d > 0) by (nonlinear_arith)
            requires
                d > 0,
        ;
        vstd::arithmetic::div_mod::lemma_mod_multiples_basic(q, PAGE_SIZE * d);
        vstd::arithmetic::div_mod::lemma_mod_multiples_vanish(h, self.arena_base(), 4096);
    }
}

} // verus!
