//! Slab allocator.
//!
//! Small requests are served from slabs: runs of two pages from the buddy
//! allocator, cut into slots of one power-of-two size. Slot 0 of a slab is
//! taken by its header; the free slots form a list through the slab. The
//! slabs of one slot size form a chain. Every page of a slab is tagged with
//! the slab, so that the page of an address tells which slab the address
//! belongs to. Slabs are named by their index in the pool of slabs.

use vstd::prelude::*;
use vstd::arithmetic::power2::pow2;
use super::buddy_allocator::{
    list_front, list_next, pages_for, spec_size_to_page_order, BuddyAllocator, MAX_BUDDY_ORDER,
};
use super::buddy_view::{
    handed_out, is_head, is_listed, law_handed_out_count, law_room_for_two,
    lemma_bounded_distinct, lemma_first_fit, lemma_released_slab, lemma_split_slab, BuddyView,
    RunInfo,
};
use super::paging::PAGE_SIZE;
use super::pow2::{is_ceil_log2, is_power_of_two};

verus! {

/// Slot sizes are `2^order` bytes for orders below this one.
pub const MAX_SLAB_ORDER: usize = 12;

/// Order of the smallest slots.
pub const MIN_SLAB_ORDER: usize = 5;

/// Bytes in one slab.
pub const DEFAULT_SLAB_SIZE: usize = 8 * 1024;

/// Header of a slab.
pub struct SlabHeader {
    /// Address of the first free slot of the slab.
    pub free_list_head: Option<usize>,
    /// The next slab of the same slot size.
    pub next_slab: Option<usize>,
    /// log2 of the slot size.
    pub order: u32,
}

impl SlabHeader {
    /// A header of a slab without free slots, in no chain.
    pub fn new() -> (r: Self)
        ensures
            r == (SlabHeader { free_list_head: None, next_slab: None, order: 0 }),
    {
        SlabHeader { free_list_head: None, next_slab: None, order: 0 }
    }
}

/// The order of the slots that serve requests of `size` bytes.
pub open spec fn spec_size_to_order(size: int) -> nat {
    let k = choose|k: nat| is_ceil_log2(size, k);
    if k < MIN_SLAB_ORDER {
        MIN_SLAB_ORDER as nat
    } else {
        k
    }
}

/// The order of the slots that serve requests of `size` bytes: the binary
/// logarithm of `size`, rounded up, and at least `MIN_SLAB_ORDER`.
pub fn size_to_order(size: usize) -> (order: u32)
    ensures
        order == spec_size_to_order(size as int),
        order >= MIN_SLAB_ORDER,
        size <= pow2(order as nat),
        order > MIN_SLAB_ORDER ==> pow2((order - 1) as nat) < size,
{
    let mut order: u32 = super::pow2::ceil_log2(size);
    proof {
        let k = choose|k: nat| is_ceil_log2(size as int, k);
        super::pow2::lemma_ceil_log2_unique(size as int, k, order as nat);
        if order < MIN_SLAB_ORDER {
            super::pow2::lemma_pow2_increases(order as nat, MIN_SLAB_ORDER as nat);
        }
    }
    if order < MIN_SLAB_ORDER as u32 {
        order = MIN_SLAB_ORDER as u32;
    }
    order
}

/// Abstract state of a slab.
pub struct SlabView {
    /// Address of the slab, which is that of its header.
    pub base: int,
    /// log2 of the slot size.
    pub order: nat,
    /// Addresses of the free slots, in list order.
    pub free: Seq<int>,
    /// The next slab of the same slot size.
    pub next_slab: Option<usize>,
}

impl SlabView {
    /// Bytes in one slot.
    pub open spec fn slot_size(self) -> int {
        pow2(self.order) as int
    }

    /// `addr` is the address of a slot of the slab other than the header's.
    pub open spec fn is_slot(self, addr: int) -> bool {
        &&& self.base < addr < self.base + DEFAULT_SLAB_SIZE
        &&& (addr - self.base) % self.slot_size() == 0
    }

    /// `addr` is the address of a slot that is handed out.
    pub open spec fn is_live(self, addr: int) -> bool {
        self.is_slot(addr) && !self.free.contains(addr)
    }

    /// The slab is consistent.
    pub open spec fn wf(self) -> bool {
        &&& MIN_SLAB_ORDER <= self.order < MAX_SLAB_ORDER
        &&& 0 <= self.base
        &&& self.base + DEFAULT_SLAB_SIZE <= usize::MAX
        &&& self.free.no_duplicates()
        &&& forall|k: int| 0 <= k < self.free.len() ==> self.is_slot(#[trigger] self.free[k])
    }
}

/// A slab: its header, and the links of its free slots.
pub struct Slab {
    header: SlabHeader,
    base: usize,
    next_free: Vec<Option<usize>>,
    free: Ghost<Seq<int>>,
}

/// Number of the slot at `addr` in the slab at `base`.
pub open spec fn slot_index(base: int, order: nat, addr: int) -> int {
    (addr - base) / (pow2(order) as int)
}

/// Facts on slot sizes: a slot size divides the slab size, and slot numbers
/// and slot addresses determine each other.
pub proof fn lemma_slots(base: int, order: nat, i: int)
    requires
        MIN_SLAB_ORDER <= order < MAX_SLAB_ORDER,
    ensures
        32 <= pow2(order) <= 2048,
        pow2(order) * pow2((13 - order) as nat) == DEFAULT_SLAB_SIZE,
        DEFAULT_SLAB_SIZE as int / (pow2(order) as int) == pow2((13 - order) as nat),
        4 <= pow2((13 - order) as nat) <= 256,
        slot_index(base, order, base + i * pow2(order)) == i,
        (base + i * pow2(order) - base) % (pow2(order) as int) == 0,
        0 < i < pow2((13 - order) as nat) ==> base < base + i * pow2(order) < base
            + DEFAULT_SLAB_SIZE,
        (PAGE_SIZE as int) % (pow2(order) as int) == 0,
{
    let ss = pow2(order) as int;
    let n = pow2((13 - order) as nat) as int;
    vstd::arithmetic::power2::lemma2_to64();
    vstd::arithmetic::power2::lemma_pow2_adds(order, (13 - order) as nat);
    super::pow2::lemma_pow2_increases(5, order);
    super::pow2::lemma_pow2_increases(order, 11);
    super::pow2::lemma_pow2_increases(2, (13 - order) as nat);
    super::pow2::lemma_pow2_increases((13 - order) as nat, 8);
    assert(ss * n == 8192);
    assert(n * ss == 8192) by (nonlinear_arith)
        requires
            ss * n == 8192,
    ;
    vstd::arithmetic::div_mod::lemma_fundamental_div_mod_converse(8192, ss, n, 0);
    assert(i * ss == ss * i) by (nonlinear_arith);
    vstd::arithmetic::div_mod::lemma_fundamental_div_mod_converse(i * ss, ss, i, 0);
    if 0 < i < n {
        assert(0 < i * ss < n * ss) by (nonlinear_arith)
            requires
                0 < i < n,
                ss > 0,
        ;
    }
    vstd::arithmetic::power2::lemma_pow2_adds(order, (12 - order) as nat);
    let m = pow2((12 - order) as nat) as int;
    assert(ss * m == 4096);
    vstd::arithmetic::div_mod::lemma_fundamental_div_mod_converse(4096, ss, m, 0);
}

/// The address of a slot is the slab's address plus a multiple of the slot size.
pub proof fn lemma_slot_address(v: SlabView, addr: int)
    requires
        MIN_SLAB_ORDER <= v.order < MAX_SLAB_ORDER,
        v.is_slot(addr),
    ensures
        addr == v.base + slot_index(v.base, v.order, addr) * pow2(v.order),
        0 < slot_index(v.base, v.order, addr) < pow2((13 - v.order) as nat),
{
    let ss = pow2(v.order) as int;
    let n = pow2((13 - v.order) as nat) as int;
    let i = slot_index(v.base, v.order, addr);
    lemma_slots(v.base, v.order, 0);
    vstd::arithmetic::div_mod::lemma_fundamental_div_mod(addr - v.base, ss);
    assert(addr - v.base == ss * i);
    assert(ss * i == i * ss) by (nonlinear_arith);
    assert(0 < i < n) by (nonlinear_arith)
        requires
            0 < ss * i < 8192,
            ss * n == 8192,
            ss > 0,
    ;
}

impl Slab {
    /// The abstract state.
    pub closed spec fn view(&self) -> SlabView {
        SlabView {
            base: self.base as int,
            order: self.header.order as nat,
            free: self.free@,
            next_slab: self.header.next_slab,
        }
    }

    /// The free list is threaded through the slab as the abstract state says.
    pub closed spec fn links_ok(&self) -> bool {
        &&& self.next_free@.len() == pow2((13 - self.header.order) as nat)
        &&& self.header.free_list_head == list_front(self.free@)
        &&& forall|k: int|
            0 <= k < self.free@.len() ==> self.next_free@[slot_index(
                self.base as int,
                self.header.order as nat,
                #[trigger] self.free@[k],
            )] == list_next(self.free@, k)
    }

    /// The slab is consistent.
    pub open spec fn wf(&self) -> bool {
        self@.wf() && self.links_ok()
    }

    /// The addresses of the slots of a slab at `base` behind the header's, in
    /// ascending order.
    pub open spec fn all_slots(base: int, order: nat) -> Seq<int> {
        Seq::new(
            (pow2((13 - order) as nat) - 1) as nat,
            |k: int| base + (k + 1) * pow2(order),
        )
    }

    /// A slab at `base` with slots of `2^order` bytes, all of them free but
    /// the header's, in no chain.
    pub fn new(base: usize, order: u32) -> (r: Self)
        requires
            MIN_SLAB_ORDER <= order < MAX_SLAB_ORDER,
            base + DEFAULT_SLAB_SIZE <= usize::MAX,
        ensures
            r.wf(),
            r@ == (SlabView {
                base: base as int,
                order: order as nat,
                free: Self::all_slots(base as int, order as nat),
                next_slab: None,
            }),
    {
        proof {
            lemma_slots(base as int, order as nat, 0);
            vstd::bits::lemma_usize_shl_is_mul(1usize, order as usize);
        }
        let slot_size: usize = 1usize << order;
        let slot_count: usize = DEFAULT_SLAB_SIZE / slot_size;
        let slot_num: usize = slot_count - 1;
        let mut next_free: Vec<Option<usize>> = Vec::new();
        let mut filled: usize = 0;
        while filled < slot_count
            invariant
                filled <= slot_count,
                next_free@.len() == filled,
            decreases slot_count - filled,
        {
            next_free.push(None);
            filled += 1;
        }
        proof {
            lemma_slots(base as int, order as nat, slot_num as int);
        }
        let mut slot_addr: usize = base + slot_num * slot_size;
        let mut next_slot: Option<usize> = None;
        let ghost mut i: int = slot_num as int;
        let ghost mut list: Seq<int> = Seq::empty();
        while slot_addr > base
            invariant
                MIN_SLAB_ORDER <= order < MAX_SLAB_ORDER,
                base + DEFAULT_SLAB_SIZE <= usize::MAX,
                slot_size == pow2(order as nat),
                slot_count == pow2((13 - order) as nat),
                slot_num == slot_count - 1,
                next_free@.len() == slot_count,
                0 <= i <= slot_num,
                slot_addr == base + i * slot_size,
                list == Seq::new((slot_num - i) as nat, |k: int| base + (i + 1 + k) * slot_size),
                next_slot == list_front(list),
                forall|k: int|
                    0 <= k < list.len() ==> next_free@[i + 1 + k] == list_next(list, k),
            decreases i,
        {
            proof {
                lemma_slots(base as int, order as nat, i);
                lemma_slots(base as int, order as nat, i - 1);
                assert(i > 0) by (nonlinear_arith)
                    requires
                        i * slot_size > 0,
                        i >= 0,
                        slot_size > 0,
                ;
                assert((i - 1) * slot_size == i * slot_size - slot_size) by (nonlinear_arith);
            }
            let idx: usize = (slot_addr - base) / slot_size;
            next_free[idx] = next_slot;
            next_slot = Some(slot_addr);
            slot_addr -= slot_size;
            proof {
                let list1 = Seq::new(
                    (slot_num - (i - 1)) as nat,
                    |k: int| base + (i + k) * slot_size,
                );
                assert(list1 =~= seq![base + i * slot_size] + list) by {
                    assert forall|k: int| 0 <= k < list1.len() implies list1[k] == (seq![base + i
                        * slot_size] + list)[k] by {
                        if k > 0 {
                            assert(list[k - 1] == base + (i + 1 + (k - 1)) * slot_size);
                        }
                    }
                }
                assert forall|k: int| 0 <= k < list1.len() implies next_free@[i + k] == list_next(
                    list1,
                    k,
                ) by {
                    if k > 0 {
                        assert(list_next(list, k - 1) == list_next(list1, k)) by {
                            if k + 1 < list1.len() {
                                assert(list1[k + 1] == list[k]);
                            }
                        }
                    } else {
                        if list.len() > 0 {
                            assert(list1[1] == list[0]);
                        }
                    }
                }
                list = list1;
                i = i - 1;
            }
        }
        let r = Slab {
            header: SlabHeader { free_list_head: next_slot, next_slab: None, order },
            base,
            next_free,
            free: Ghost(list),
        };
        proof {
            assert(i == 0) by (nonlinear_arith)
                requires
                    i * slot_size <= 0,
                    i >= 0,
                    slot_size > 0,
            ;
            assert(list =~= Self::all_slots(base as int, order as nat));
            assert forall|k: int| 0 <= k < list.len() implies r@.is_slot(#[trigger] list[k]) by {
                lemma_slots(base as int, order as nat, k + 1);
            }
            assert(list.no_duplicates()) by {
                assert forall|a: int, b: int|
                    0 <= a < list.len() && 0 <= b < list.len() && a != b implies list[a]
                    != list[b] by {
                    lemma_slots(base as int, order as nat, a + 1);
                    lemma_slots(base as int, order as nat, b + 1);
                }
            }
            assert forall|k: int| 0 <= k < list.len() implies r.next_free@[slot_index(
                base as int,
                order as nat,
                #[trigger] list[k],
            )] == list_next(list, k) by {
                lemma_slots(base as int, order as nat, k + 1);
            }
        }
        r
    }

    /// Takes the first free slot off the free list.
    pub fn take_slot(&mut self) -> (r: Option<usize>)
        requires
            old(self).wf(),
        ensures
            final(self).wf(),
            old(self)@.free.len() == 0 ==> r is None && final(self)@ == old(self)@,
            old(self)@.free.len() > 0 ==> r == Some(old(self)@.free[0] as usize) && old(
                self,
            )@.free[0] == r.unwrap() && final(self)@ == (SlabView {
                free: old(self)@.free.drop_first(),
                ..old(self)@
            }),
    {
        match self.header.free_list_head {
            Some(free_slot) => {
                let ghost l = self.free@;
                proof {
                    assert(self@.is_slot(l[0]));
                    lemma_slot_address(self@, l[0]);
                    lemma_slots(self.base as int, self.header.order as nat, 0);
                    vstd::bits::lemma_usize_shl_is_mul(1usize, self.header.order as usize);
                }
                let slot_size: usize = 1usize << self.header.order;
                let idx: usize = (free_slot - self.base) / slot_size;
                self.header.free_list_head = self.next_free[idx];
                self.next_free[idx] = None;
                self.free = Ghost(l.drop_first());
                proof {
                    let l1 = l.drop_first();
                    assert forall|k: int| 0 <= k < l1.len() implies self@.is_slot(
                        #[trigger] l1[k],
                    ) by {
                        assert(l1[k] == l[k + 1]);
                    }
                    assert(l1.no_duplicates()) by {
                        assert forall|a: int, b: int|
                            0 <= a < l1.len() && 0 <= b < l1.len() && a != b implies l1[a]
                            != l1[b] by {
                            assert(l1[a] == l[a + 1] && l1[b] == l[b + 1]);
                        }
                    }
                    if l1.len() > 0 {
                        assert(l1[0] == l[1]);
                    }
                    assert forall|k: int| 0 <= k < l1.len() implies self.next_free@[slot_index(
                        self.base as int,
                        self.header.order as nat,
                        #[trigger] l1[k],
                    )] == list_next(l1, k) by {
                        assert(l1[k] == l[k + 1]);
                        assert(old(self)@.is_slot(l[k + 1]));
                        lemma_slot_address(old(self)@, l[k + 1]);
                        assert(l[k + 1] != l[0]);
                        if k + 1 < l1.len() {
                            assert(l1[k + 1] == l[k + 2]);
                        }
                    }
                }
                Some(free_slot)
            },
            None => None,
        }
    }

    /// Puts the slot at `addr`, which is handed out, at the front of the free list.
    pub fn put_slot(&mut self, addr: usize)
        requires
            old(self).wf(),
            old(self)@.is_live(addr as int),
        ensures
            final(self).wf(),
            final(self)@ == (SlabView {
                free: seq![addr as int] + old(self)@.free,
                ..old(self)@
            }),
    {
        let ghost l = self.free@;
        proof {
            lemma_slot_address(self@, addr as int);
            lemma_slots(self.base as int, self.header.order as nat, 0);
            vstd::bits::lemma_usize_shl_is_mul(1usize, self.header.order as usize);
        }
        let slot_size: usize = 1usize << self.header.order;
        let idx: usize = (addr - self.base) / slot_size;
        self.next_free[idx] = self.header.free_list_head;
        self.header.free_list_head = Some(addr);
        self.free = Ghost(seq![addr as int] + l);
        proof {
            let l1 = seq![addr as int] + l;
            assert forall|k: int| 0 <= k < l1.len() implies self@.is_slot(#[trigger] l1[k]) by {
                if k > 0 {
                    assert(l1[k] == l[k - 1]);
                }
            }
            assert(l1.no_duplicates());
            assert forall|k: int| 0 <= k < l1.len() implies self.next_free@[slot_index(
                self.base as int,
                self.header.order as nat,
                #[trigger] l1[k],
            )] == list_next(l1, k) by {
                if k > 0 {
                    assert(l1[k] == l[k - 1]);
                    assert(old(self)@.is_slot(l[k - 1]));
                    lemma_slot_address(old(self)@, l[k - 1]);
                    assert(l[k - 1] != addr);
                    if k + 1 < l1.len() {
                        assert(l1[k + 1] == l[k]);
                    }
                } else {
                    if l.len() > 0 {
                        assert(l1[1] == l[0]);
                    }
                }
            }
        }
    }

    /// A slab has fewer free slots than slots.
    pub proof fn lemma_free_len(&self)
        requires
            self.wf(),
        ensures
            self@.free.len() < pow2((13 - self@.order) as nat) <= 256,
    {
        let v = self@;
        let n = pow2((13 - v.order) as nat) as int;
        lemma_slots(v.base, v.order, 0);
        let idx = Seq::new(v.free.len(), |k: int| slot_index(v.base, v.order, v.free[k]) - 1);
        assert forall|k: int| 0 <= k < idx.len() implies 0 <= #[trigger] idx[k] < n - 1 by {
            assert(v.is_slot(v.free[k]));
            lemma_slot_address(v, v.free[k]);
        }
        assert forall|a: int, b: int| 0 <= a < idx.len() && 0 <= b < idx.len() && a != b implies idx[a]
            != idx[b] by {
            assert(v.is_slot(v.free[a]) && v.is_slot(v.free[b]));
            lemma_slot_address(v, v.free[a]);
            lemma_slot_address(v, v.free[b]);
        }
        lemma_bounded_distinct(idx, n - 1);
    }

    /// Number of free slots, found by walking the free list.
    pub fn free_count(&self) -> (n: usize)
        requires
            self.wf(),
        ensures
            n == self@.free.len(),
    {
        proof {
            self.lemma_free_len();
            lemma_slots(self.base as int, self.header.order as nat, 0);
            vstd::bits::lemma_usize_shl_is_mul(1usize, self.header.order as usize);
        }
        let slot_size: usize = 1usize << self.header.order;
        let ghost l = self.free@;
        let mut cnt: usize = 0;
        let mut cur: Option<usize> = self.header.free_list_head;
        loop
            invariant
                self.wf(),
                l == self@.free,
                l.len() < 256,
                slot_size == pow2(self@.order),
                cnt <= l.len(),
                cur == list_next(l, cnt - 1),
            ensures
                cnt == l.len(),
            decreases l.len() - cnt,
        {
            match cur {
                Some(slot) => {
                    proof {
                        assert(self@.is_slot(l[cnt as int]));
                        lemma_slot_address(self@, l[cnt as int]);
                    }
                    let idx: usize = (slot - self.base) / slot_size;
                    cur = self.next_free[idx];
                    cnt += 1;
                },
                None => {
                    break ;
                },
            }
        }
        cnt
    }

    /// Tells whether `addr` is the address of a slot that is handed out:
    /// a slot of the slab that the free list does not hold.
    pub fn is_live_slot(&self, addr: usize) -> (b: bool)
        requires
            self.wf(),
        ensures
            b == self@.is_live(addr as int),
    {
        proof {
            self.lemma_free_len();
            lemma_slots(self.base as int, self.header.order as nat, 0);
            vstd::bits::lemma_usize_shl_is_mul(1usize, self.header.order as usize);
        }
        let slot_size: usize = 1usize << self.header.order;
        if addr <= self.base || addr - self.base >= DEFAULT_SLAB_SIZE {
            return false;
        }
        if (addr - self.base) % slot_size != 0 {
            return false;
        }
        let ghost l = self.free@;
        let ghost mut k: int = 0;
        let mut cur: Option<usize> = self.header.free_list_head;
        loop
            invariant
                self.wf(),
                l == self@.free,
                self@.is_slot(addr as int),
                slot_size == pow2(self@.order),
                0 <= k <= l.len(),
                cur == list_next(l, k - 1),
                forall|j: int| 0 <= j < k ==> l[j] != addr,
            ensures
                !l.contains(addr as int),
            decreases l.len() - k,
        {
            match cur {
                Some(slot) => {
                    if slot == addr {
                        proof {
                            assert(l[k] == addr);
                        }
                        return false;
                    }
                    proof {
                        assert(self@.is_slot(l[k]));
                        lemma_slot_address(self@, l[k]);
                    }
                    let idx: usize = (slot - self.base) / slot_size;
                    cur = self.next_free[idx];
                    proof {
                        k = k + 1;
                    }
                },
                None => {
                    break ;
                },
            }
        }
        true
    }

    /// Sets the next slab of the chain.
    pub fn set_next(&mut self, next: Option<usize>)
        requires
            old(self).wf(),
        ensures
            final(self).wf(),
            final(self)@ == (SlabView { next_slab: next, ..old(self)@ }),
    {
        self.header.next_slab = next;
    }

    /// The slab's header.
    pub closed spec fn spec_header(&self) -> SlabHeader {
        self.header
    }

    /// The slab's header.
    pub fn header(&self) -> (h: &SlabHeader)
        ensures
            *h == self.spec_header(),
    {
        &self.header
    }

    /// The header agrees with the abstract state.
    pub proof fn lemma_header(&self)
        requires
            self.wf(),
        ensures
            self.spec_header().order == self@.order,
            self.spec_header().next_slab == self@.next_slab,
            self.spec_header().free_list_head == list_front(self@.free),
    {
    }
}

/// The slots of a slab at a page boundary are aligned to their size, and
/// each lies inside the slab.
pub proof fn lemma_page_slot_aligned(v: SlabView, addr: int)
    requires
        v.wf(),
        v.base % (PAGE_SIZE as int) == 0,
        v.is_slot(addr),
    ensures
        addr % v.slot_size() == 0,
        addr + v.slot_size() <= v.base + DEFAULT_SLAB_SIZE,
{
    let ss = v.slot_size();
    let i = slot_index(v.base, v.order, addr);
    let n = pow2((13 - v.order) as nat) as int;
    lemma_slots(v.base, v.order, i);
    lemma_slot_address(v, addr);
    // the slab's address is a multiple of the page size, which the slot size divides
    vstd::arithmetic::div_mod::lemma_fundamental_div_mod(v.base, 4096);
    vstd::arithmetic::div_mod::lemma_fundamental_div_mod(4096, ss);
    let q = v.base / 4096;
    let m = 4096int / ss;
    assert(addr == (q * m + i) * ss) by (nonlinear_arith)
        requires
            addr == v.base + i * ss,
            v.base == 4096 * q,
            4096 == ss * m,
    ;
    vstd::arithmetic::div_mod::lemma_mod_multiples_basic(q * m + i, ss);
    assert(i * ss + ss <= n * ss) by (nonlinear_arith)
        requires
            i + 1 <= n,
            ss > 0,
    ;
}

/// Abstract state of the slabs of a slab allocator.
pub struct SlabsView {
    /// The slabs, in the order they were made.
    pub slabs: Seq<SlabView>,
    /// For each slot order, the chain of slabs with slots of that order.
    pub chains: Seq<Seq<int>>,
}

/// The slab allocator: the chains of slabs, and the page allocator under them.
pub struct SlabAllocator {
    slabs: [Option<usize>; MAX_SLAB_ORDER],
    pool: Vec<Slab>,
    fallback_allocator: BuddyAllocator,
    chains: Ghost<Seq<Seq<int>>>,
}

/// The pages of the slab `id` with state `v` are a run of two pages that
/// the page allocator `b` has handed out, both tagged with `id`.
pub open spec fn slab_placed(b: BuddyAllocator, v: SlabView, id: int) -> bool {
    let h = b.spec_virt_to_page(v.base);
    &&& b.in_arena(v.base)
    &&& b.spec_page_to_virt(h) == v.base
    &&& b@.is_live(h)
    &&& b@.runs[h].order == 1
    &&& b@.slab[h] == Some(id as usize)
    &&& b@.slab[h + 1] == Some(id as usize)
}

/// The slabs are consistent with each other and with the page allocator `b`.
pub open spec fn slabs_ok(b: BuddyAllocator, v: SlabsView) -> bool {
    &&& v.chains.len() == MAX_SLAB_ORDER
    &&& v.slabs.len() <= usize::MAX
    &&& forall|id: int|
        0 <= id < v.slabs.len() ==> (#[trigger] v.slabs[id]).wf() && slab_placed(b, v.slabs[id], id)
    &&& forall|o: int, k: int|
        0 <= o < MAX_SLAB_ORDER && 0 <= k < v.chains[o].len() ==> {
            let id = #[trigger] v.chains[o][k];
            &&& 0 <= id < v.slabs.len()
            &&& v.slabs[id].order == o
            &&& v.slabs[id].next_slab == list_next(v.chains[o], k)
        }
    &&& forall|j: int|
        0 <= j < b@.page_count() && (#[trigger] b@.slab[j]) is Some ==> {
            let id = b@.slab[j].unwrap() as int;
            &&& id < v.slabs.len()
            &&& (j == b.spec_virt_to_page(v.slabs[id].base) || j == b.spec_virt_to_page(
                v.slabs[id].base,
            ) + 1)
        }
}

/// The page allocator's state `v` with the two pages from `p` on tagged with slab `id`.
pub open spec fn tagged(v: BuddyView, p: int, id: usize) -> BuddyView {
    BuddyView { slab: v.slab.update(p, Some(id)).update(p + 1, Some(id)), ..v }
}

/// Position in `chain`, from `from` on, of the first slab that has a free slot.
pub open spec fn first_with_free(slabs: Seq<SlabView>, chain: Seq<int>, from: int) -> Option<int>
    decreases chain.len() - from,
{
    if from < 0 || from >= chain.len() {
        None
    } else if slabs[chain[from]].free.len() > 0 {
        Some(from)
    } else {
        first_with_free(slabs, chain, from + 1)
    }
}

/// Changing the free list of one slab keeps the slabs consistent.
pub proof fn lemma_slab_update(b: BuddyAllocator, v0: SlabsView, v1: SlabsView, id: int)
    requires
        slabs_ok(b, v0),
        0 <= id < v0.slabs.len(),
        v1.chains == v0.chains,
        v1.slabs == v0.slabs.update(id, v1.slabs[id]),
        v1.slabs[id].wf(),
        v1.slabs[id].base == v0.slabs[id].base,
        v1.slabs[id].order == v0.slabs[id].order,
        v1.slabs[id].next_slab == v0.slabs[id].next_slab,
    ensures
        slabs_ok(b, v1),
{
    assert forall|i: int| 0 <= i < v1.slabs.len() implies (#[trigger] v1.slabs[i]).wf()
        && slab_placed(b, v1.slabs[i], i) by {
        assert(v0.slabs[i].wf() && slab_placed(b, v0.slabs[i], i));
    }
    assert forall|o: int, k: int| 0 <= o < MAX_SLAB_ORDER && 0 <= k < v1.chains[o].len() implies {
        let i = #[trigger] v1.chains[o][k];
        &&& 0 <= i < v1.slabs.len()
        &&& v1.slabs[i].order == o
        &&& v1.slabs[i].next_slab == list_next(v1.chains[o], k)
    } by {
        let i = v0.chains[o][k];
        assert(0 <= i < v0.slabs.len());
    }
    assert forall|j: int| 0 <= j < b@.page_count() && (#[trigger] b@.slab[j]) is Some implies {
        let i = b@.slab[j].unwrap() as int;
        &&& i < v1.slabs.len()
        &&& (j == b.spec_virt_to_page(v1.slabs[i].base) || j == b.spec_virt_to_page(
            v1.slabs[i].base,
        ) + 1)
    } by {
        let i = b@.slab[j].unwrap() as int;
        assert(i < v0.slabs.len());
    }
}

/// Putting a slab that is in no chain at the front of the chain of its
/// order keeps the slabs consistent.
pub proof fn lemma_chain_push(b: BuddyAllocator, v0: SlabsView, v1: SlabsView, id: int, o: int)
    requires
        slabs_ok(b, v0),
        0 <= id < v0.slabs.len(),
        0 <= o < MAX_SLAB_ORDER,
        v0.slabs[id].order == o,
        forall|o1: int, k: int|
            0 <= o1 < MAX_SLAB_ORDER && 0 <= k < v0.chains[o1].len() ==> #[trigger] v0.chains[o1][k]
                != id,
        v1.chains == v0.chains.update(o, seq![id] + v0.chains[o]),
        v1.slabs == v0.slabs.update(
            id,
            SlabView { next_slab: list_front(v0.chains[o]), ..v0.slabs[id] },
        ),
    ensures
        slabs_ok(b, v1),
{
    let c0 = v0.chains[o];
    let c1 = seq![id] + c0;
    assert forall|i: int| 0 <= i < v1.slabs.len() implies (#[trigger] v1.slabs[i]).wf()
        && slab_placed(b, v1.slabs[i], i) by {
        assert(v0.slabs[i].wf() && slab_placed(b, v0.slabs[i], i));
    }
    assert forall|o1: int, k: int|
        0 <= o1 < MAX_SLAB_ORDER && 0 <= k < v1.chains[o1].len() implies {
        let i = #[trigger] v1.chains[o1][k];
        &&& 0 <= i < v1.slabs.len()
        &&& v1.slabs[i].order == o1
        &&& v1.slabs[i].next_slab == list_next(v1.chains[o1], k)
    } by {
        if o1 == o {
            if k > 0 {
                assert(c1[k] == c0[k - 1]);
                let i = v0.chains[o][k - 1];
                assert(0 <= i < v0.slabs.len());
                if k + 1 < c1.len() {
                    assert(c1[k + 1] == c0[k]);
                }
            } else {
                if c0.len() > 0 {
                    assert(c1[1] == c0[0]);
                    let i = v0.chains[o][0];
                    assert(0 <= i < v0.slabs.len() <= usize::MAX);
                }
            }
        } else {
            let i = v0.chains[o1][k];
            assert(0 <= i < v0.slabs.len());
        }
    }
    assert forall|j: int| 0 <= j < b@.page_count() && (#[trigger] b@.slab[j]) is Some implies {
        let i = b@.slab[j].unwrap() as int;
        &&& i < v1.slabs.len()
        &&& (j == b.spec_virt_to_page(v1.slabs[i].base) || j == b.spec_virt_to_page(
            v1.slabs[i].base,
        ) + 1)
    } by {
        let i = b@.slab[j].unwrap() as int;
        assert(i < v0.slabs.len());
    }
}

/// A step of the page allocator that leaves the tags and the runs of the
/// tagged pages as they are keeps the slabs consistent.
pub proof fn lemma_buddy_frame(b0: BuddyAllocator, b1: BuddyAllocator, v: SlabsView)
    requires
        slabs_ok(b0, v),
        b0.wf(),
        b1.same_layout(&b0),
        b1@.slab == b0@.slab,
        b1@.runs.len() == b0@.runs.len(),
        forall|j: int|
            0 <= j < b0@.runs.len() && b0@.slab[j] is Some && (#[trigger] b0@.runs[j]).allocated
                ==> b1@.runs[j] == b0@.runs[j],
    ensures
        slabs_ok(b1, v),
{
    b0.lemma_inv(Set::empty());
    b0.lemma_layout();
    assert forall|i: int| 0 <= i < v.slabs.len() implies (#[trigger] v.slabs[i]).wf()
        && slab_placed(b1, v.slabs[i], i) by {
        assert(v.slabs[i].wf() && slab_placed(b0, v.slabs[i], i));
        let h = b0.spec_virt_to_page(v.slabs[i].base);
        assert(b0@.runs[h].allocated);
    }
    assert forall|j: int| 0 <= j < b1@.page_count() && (#[trigger] b1@.slab[j]) is Some implies {
        let i = b1@.slab[j].unwrap() as int;
        &&& i < v.slabs.len()
        &&& (j == b1.spec_virt_to_page(v.slabs[i].base) || j == b1.spec_virt_to_page(
            v.slabs[i].base,
        ) + 1)
    } by {
        assert(b0@.slab[j] is Some);
    }
}

/// A request for a slab's worth of bytes takes a run of two pages.
pub proof fn lemma_slab_page_order()
    ensures
        spec_size_to_page_order(DEFAULT_SLAB_SIZE as int) == 1,
{
    vstd::arithmetic::power2::lemma2_to64();
    assert(pages_for(DEFAULT_SLAB_SIZE as int) == 2);
    assert(is_ceil_log2(2, 1));
    let k = spec_size_to_page_order(DEFAULT_SLAB_SIZE as int);
    assert(is_ceil_log2(pages_for(DEFAULT_SLAB_SIZE as int), k));
    super::pow2::lemma_ceil_log2_unique(2, k, 1);
}

impl SlabAllocator {
    /// The page allocator under the slabs.
    pub closed spec fn buddy(&self) -> BuddyAllocator {
        self.fallback_allocator
    }

    /// The abstract state of the slabs.
    pub closed spec fn view(&self) -> SlabsView {
        SlabsView { slabs: Seq::new(self.pool@.len(), |id: int| self.pool@[id]@), chains: self.chains@ }
    }

    /// The pool and the chain heads agree with the abstract state.
    pub closed spec fn links_ok(&self) -> bool {
        &&& forall|id: int| 0 <= id < self.pool@.len() ==> (#[trigger] self.pool@[id]).wf()
        &&& forall|o: int|
            0 <= o < MAX_SLAB_ORDER ==> #[trigger] self.slabs@[o] == list_front(self.chains@[o])
    }

    /// The allocator is consistent.
    #[verifier::opaque]
    pub open spec fn wf(&self) -> bool {
        &&& self.buddy().wf()
        &&& self.links_ok()
        &&& slabs_ok(self.buddy(), self@)
    }

    /// An allocator without slabs, over a page allocator without pages.
    pub fn new() -> (r: Self)
        ensures
            r.wf(),
            r@.slabs.len() == 0,
            r@.chains.len() == MAX_SLAB_ORDER,
            forall|o: int| 0 <= o < MAX_SLAB_ORDER ==> (#[trigger] r@.chains[o]).len() == 0,
            r.buddy().wf(),
            r.buddy()@.page_count() == 0,
            r.buddy().heap_base() == 0,
            r.buddy().heap_len() == 0,
            r.buddy().arena_base() == 0,
            forall|o: int|
                0 <= o < MAX_BUDDY_ORDER ==> (#[trigger] r.buddy()@.free[o]).len() == 0,
    {
        let r = SlabAllocator {
            slabs: [None;MAX_SLAB_ORDER],
            pool: Vec::new(),
            fallback_allocator: BuddyAllocator::new(),
            chains: Ghost(Seq::new(MAX_SLAB_ORDER as nat, |o: int| Seq::empty())),
        };
        proof {
            reveal(SlabAllocator::wf);
        }
        r
    }

    /// The page allocator under the slabs.
    pub fn fallback(&self) -> (b: &BuddyAllocator)
        ensures
            *b == self.buddy(),
    {
        &self.fallback_allocator
    }

    /// The header of the slab `id`.
    pub fn header(&self, id: usize) -> (h: &SlabHeader)
        requires
            self.wf(),
            id < self@.slabs.len(),
        ensures
            h.order == self@.slabs[id as int].order,
            h.next_slab == self@.slabs[id as int].next_slab,
            h.free_list_head == list_front(self@.slabs[id as int].free),
    {
        proof {
            reveal(SlabAllocator::wf);
            self.pool@[id as int].lemma_header();
        }
        self.pool[id].header()
    }

    /// Number of slabs made so far.
    pub fn slab_count(&self) -> (n: usize)
        ensures
            n == self@.slabs.len(),
    {
        self.pool.len()
    }

    /// Number of free slots of the slab `id`.
    pub fn free_slots(&self, id: usize) -> (n: usize)
        requires
            self.wf(),
            id < self@.slabs.len(),
        ensures
            n == self@.slabs[id as int].free.len(),
    {
        proof {
            reveal(SlabAllocator::wf);
        }
        self.pool[id].free_count()
    }

    /// The head of the chain of slabs with slots of order `order`.
    pub fn chain_head(&self, order: usize) -> (r: Option<usize>)
        requires
            self.wf(),
            order < MAX_SLAB_ORDER,
        ensures
            r == list_front(self@.chains[order as int]),
    {
        proof {
            reveal(SlabAllocator::wf);
        }
        self.slabs[order]
    }

    /// From `pre` to `post` the page allocator handed out the two free pages
    /// from `p` on as one run, and left all runs handed out before as they were.
    pub open spec fn run_taken(pre: BuddyView, post: BuddyView, p: int) -> bool {
        &&& 0 <= p
        &&& p + 2 <= pre.runs.len()
        &&& !pre.runs[p].allocated
        &&& pre.runs[p].head == p
        &&& pre.runs[p].order >= 1
        &&& post.runs[p] == (RunInfo { head: p, order: 1, allocated: true })
        &&& handed_out(pre.runs, post.runs, p)
    }

    /// Makes a slab with slots of `2^order` bytes out of a run of two pages
    /// from the page allocator, and tags the pages with it. The slab is in
    /// no chain. `None` where the page allocator has no run left.
    pub fn init_slab_cache(&mut self, order: u32) -> (r: Option<usize>)
        requires
            old(self).wf(),
            MIN_SLAB_ORDER <= order < MAX_SLAB_ORDER,
        ensures
            final(self).wf(),
            final(self).buddy().same_layout(&old(self).buddy()),
            final(self)@.chains == old(self)@.chains,
            match old(self).buddy()@.first_fit(1) {
                None => r is None && final(self)@ == old(self)@ && final(self).buddy()@ == old(
                    self,
                ).buddy()@,
                Some(m) => {
                    let p = old(self).buddy()@.free[m as int][0];
                    let base = old(self).buddy().spec_page_to_virt(p);
                    &&& r == Some(old(self)@.slabs.len() as usize)
                    &&& final(self)@.slabs == old(self)@.slabs.push(
                        SlabView {
                            base,
                            order: order as nat,
                            free: Slab::all_slots(base, order as nat),
                            next_slab: None,
                        },
                    )
                    &&& final(self).buddy()@ == tagged(
                        old(self).buddy()@.carved(m, 1),
                        p,
                        old(self)@.slabs.len() as usize,
                    )
                    &&& Self::run_taken(old(self).buddy()@, final(self).buddy()@, p)
                },
            },
    {
        proof {
            reveal(SlabAllocator::wf);
            lemma_slab_page_order();
        }
        let ghost b0 = self.fallback_allocator;
        let page: usize = match self.fallback_allocator.get_free_pages(
            DEFAULT_SLAB_SIZE,
            DEFAULT_SLAB_SIZE,
        ) {
            Some(page) => page,
            None => {
                return None;
            },
        };
        let ghost b1 = self.fallback_allocator;
        let ghost m = b0@.first_fit(1).unwrap();
        proof {
            b1.lemma_inv(Set::empty());
            b1.lemma_layout();
            b1.lemma_head(Set::empty(), page as int);
            b1.lemma_run_pages(Set::empty(), page as int);
            vstd::arithmetic::power2::lemma2_to64();
        }
        let slab_start_addr: usize = self.fallback_allocator.page_to_virt(page);
        let slab = Slab::new(slab_start_addr, order);
        let id: usize = self.pool.len();
        let page_num: usize = DEFAULT_SLAB_SIZE / PAGE_SIZE;
        let mut i: usize = 0;
        while i < page_num
            invariant
                i <= page_num == 2,
                self.fallback_allocator.wf(),
                self.fallback_allocator.same_layout(&b1),
                self.fallback_allocator.laid_out(),
                page + 2 <= b1@.page_count(),
                slab_start_addr == b1.spec_page_to_virt(page as int),
                b1.arena_base() + b1@.page_count() * PAGE_SIZE <= usize::MAX,
                self.fallback_allocator@.runs == b1@.runs,
                self.fallback_allocator@.free == b1@.free,
                self.fallback_allocator@.slab == (if i == 0 {
                    b1@.slab
                } else if i == 1 {
                    b1@.slab.update(page as int, Some(id))
                } else {
                    b1@.slab.update(page as int, Some(id)).update(page + 1, Some(id))
                }),
                self.pool == old(self).pool,
                self.slabs == old(self).slabs,
                self.chains == old(self).chains,
            decreases page_num - i,
        {
            let slab_page: usize = self.fallback_allocator.virt_to_page(
                slab_start_addr + i * PAGE_SIZE,
            );
            self.fallback_allocator.set_slab(slab_page, Some(id));
            proof {
                self.fallback_allocator.lemma_inv(Set::empty());
            }
            i += 1;
        }
        self.pool.push(slab);
        proof {
            let b2 = self.fallback_allocator;
            let v0 = old(self)@;
            let v1 = self@;
            assert(self.pool.len() == self.pool@.len());
            lemma_split_slab(b0@.with_removed(m as int, page as int), page as int, m, 1);
            assert(b0@.carved(m, 1).slab == b0@.slab);
            assert(b2@ == tagged(b0@.carved(m, 1), page as int, id));
            assert(v1.slabs =~= v0.slabs.push(slab@));
            Self::lemma_grow(b0, b2, v0, v1, page as int, slab@);
            b0.lemma_inv(Set::empty());
            lemma_first_fit(b0@, 1);
            assert(is_listed(
                b0@.runs,
                Set::empty(),
                b0@.free[m as int][0],
            ));
        }
        Some(id)
    }

    /// The state after a slot of order `order` was asked for: the first free
    /// slot of the first slab in the chain that has one; else the first slot
    /// of a new slab, which goes to the front of the chain; else nothing,
    /// where the page allocator has no run left for a slab.
    pub open spec fn slot_served(pre: &Self, post: &Self, order: int, r: Option<usize>) -> bool {
        let chain = pre@.chains[order];
        match first_with_free(pre@.slabs, chain, 0) {
            Some(k) => {
                let id = chain[k];
                let s = pre@.slabs[id];
                &&& r == Some(s.free[0] as usize)
                &&& s.free[0] == r.unwrap()
                &&& post.buddy()@ == pre.buddy()@
                &&& post@.chains == pre@.chains
                &&& post@.slabs == pre@.slabs.update(
                    id,
                    SlabView { free: s.free.drop_first(), ..s },
                )
            },
            None => match pre.buddy()@.first_fit(1) {
                None => r is None && post@ == pre@ && post.buddy()@ == pre.buddy()@,
                Some(m) => {
                    let p = pre.buddy()@.free[m as int][0];
                    let base = pre.buddy().spec_page_to_virt(p);
                    let id = pre@.slabs.len();
                    &&& r == Some((base + pow2(order as nat)) as usize)
                    &&& base + pow2(order as nat) == r.unwrap()
                    &&& post.buddy()@ == tagged(pre.buddy()@.carved(m, 1), p, id as usize)
                    &&& Self::run_taken(pre.buddy()@, post.buddy()@, p)
                    &&& post@.chains == pre@.chains.update(order, seq![id as int] + chain)
                    &&& post@.slabs == pre@.slabs.push(
                        SlabView {
                            base,
                            order: order as nat,
                            free: Slab::all_slots(base, order as nat).drop_first(),
                            next_slab: list_front(chain),
                        },
                    )
                },
            },
        }
    }

    /// Hands out a slot of `2^order` bytes.
    pub fn find_free_slot(&mut self, order: u32) -> (r: Option<usize>)
        requires
            old(self).wf(),
            MIN_SLAB_ORDER <= order < MAX_SLAB_ORDER,
        ensures
            final(self).wf(),
            final(self).buddy().same_layout(&old(self).buddy()),
            Self::slot_served(old(self), final(self), order as int, r),
    {
        proof {
            reveal(SlabAllocator::wf);
        }
        let ghost chain = self@.chains[order as int];
        let ghost slabs = self@.slabs;
        let ghost mut k: int = 0;
        let mut cur: Option<usize> = self.slabs[order as usize];
        loop
            invariant
                *self == *old(self),
                self.wf(),
                MIN_SLAB_ORDER <= order < MAX_SLAB_ORDER,
                chain == self@.chains[order as int],
                slabs == self@.slabs,
                0 <= k <= chain.len(),
                cur == list_next(chain, k - 1),
                first_with_free(slabs, chain, 0) == first_with_free(slabs, chain, k),
            ensures
                *self == *old(self),
                self.wf(),
                first_with_free(slabs, chain, 0) is None,
            decreases chain.len() - k,
        {
            proof {
                reveal(SlabAllocator::wf);
            }
            match cur {
                Some(id) => {
                    proof {
                        let i = self@.chains[order as int][k];
                        assert(0 <= i < self@.slabs.len());
                        assert(id == i);
                        self.pool@[id as int].lemma_header();
                    }
                    if self.pool[id].header().free_list_head.is_some() {
                        let ghost v0 = self@;
                        let slot: Option<usize> = self.pool[id].take_slot();
                        proof {
                            let v1 = self@;
                            assert(v1.slabs =~= v0.slabs.update(id as int, v1.slabs[id as int]));
                            lemma_slab_update(self.buddy(), v0, v1, id as int);
                            assert(first_with_free(slabs, chain, k) == Some(k));
                            assert(v1.slabs =~= v0.slabs.update(
                                id as int,
                                SlabView {
                                    free: v0.slabs[id as int].free.drop_first(),
                                    ..v0.slabs[id as int]
                                },
                            ));
                        }
                        return slot;
                    }
                    cur = self.pool[id].header().next_slab;
                    proof {
                        k = k + 1;
                    }
                },
                None => {
                    break ;
                },
            }
        }
        // No free slot in the chain: get a new slab from the page allocator.
        let ghost b0 = self.fallback_allocator;
        let ghost v0 = self@;
        let id: usize = match self.init_slab_cache(order) {
            Some(id) => id,
            None => {
                return None;
            },
        };
        let ghost b1 = self.fallback_allocator;
        let ghost v1 = self@;
        proof {
            reveal(SlabAllocator::wf);
            lemma_slots(v1.slabs[id as int].base, order as nat, 1);
            vstd::arithmetic::power2::lemma2_to64();
            assert(Slab::all_slots(v1.slabs[id as int].base, order as nat)[0]
                == v1.slabs[id as int].base + (0 + 1) * pow2(order as nat));
        }
        let slot: Option<usize> = self.pool[id].take_slot();
        let head: Option<usize> = self.slabs[order as usize];
        self.pool[id].set_next(head);
        self.slabs[order as usize] = Some(id);
        self.chains = Ghost(self.chains@.update(order as int, seq![id as int] + chain));
        proof {
            let v2 = SlabsView {
                slabs: v1.slabs.update(
                    id as int,
                    SlabView {
                        free: v1.slabs[id as int].free.drop_first(),
                        ..v1.slabs[id as int]
                    },
                ),
                chains: v1.chains,
            };
            lemma_slab_update(b1, v1, v2, id as int);
            let v3 = self@;
            assert(v3.slabs =~= v2.slabs.update(
                id as int,
                SlabView { next_slab: list_front(v2.chains[order as int]), ..v2.slabs[id as int] },
            ));
            assert forall|o1: int, j: int|
                0 <= o1 < MAX_SLAB_ORDER && 0 <= j < v2.chains[o1].len() implies #[trigger] v2.chains[o1][j]
                != id by {
                let i = v0.chains[o1][j];
                assert(0 <= i < v0.slabs.len());
            }
            lemma_chain_push(b1, v2, v3, id as int, order as int);
            assert(v3.slabs =~= v0.slabs.push(
                SlabView {
                    base: v1.slabs[id as int].base,
                    order: order as nat,
                    free: Slab::all_slots(v1.slabs[id as int].base, order as nat).drop_first(),
                    next_slab: list_front(chain),
                },
            ));
            assert forall|o1: int| 0 <= o1 < MAX_SLAB_ORDER implies #[trigger] self.slabs@[o1]
                == list_front(self.chains@[o1]) by {
                if o1 == order {
                    assert((seq![id as int] + chain)[0] == id);
                }
            }
        }
        slot
    }

    /// Number of slabs that `init` makes in an arena of `n` pages: one for
    /// each slot order, as long as two pages are left.
    pub open spec fn initial_slabs(n: int) -> int {
        if n / 2 < MAX_SLAB_ORDER - MIN_SLAB_ORDER {
            n / 2
        } else {
            MAX_SLAB_ORDER - MIN_SLAB_ORDER
        }
    }

    /// The chain of the slot order `o` after `init` in an arena of `n`
    /// pages: the one slab of that order, if there is one.
    pub open spec fn initial_chain(o: int, n: int) -> Seq<int> {
        if MIN_SLAB_ORDER <= o < MAX_SLAB_ORDER && o - MIN_SLAB_ORDER < Self::initial_slabs(n) {
            seq![o - MIN_SLAB_ORDER]
        } else {
            Seq::empty()
        }
    }

    /// Every run that the page allocator has handed out has two pages.
    pub open spec fn only_slab_runs(b: BuddyView) -> bool {
        forall|h: int| b.is_live(h) ==> b.runs[h].order == 1
    }

    /// Lays the page allocator out over the heap, then makes one slab for
    /// each slot order, from the smallest slots on, as long as the page
    /// allocator has two pages left.
    pub fn init(&mut self, heap_start: usize, heap_size: usize)
        requires
            heap_start % PAGE_SIZE == 0,
            heap_size % PAGE_SIZE == 0,
            heap_start + heap_size <= usize::MAX,
        ensures
            final(self).wf(),
            final(self).buddy().heap_base() == heap_start,
            final(self).buddy().heap_len() == heap_size,
            final(self).buddy()@.page_count() == BuddyAllocator::spec_page_num(heap_size as int),
            final(self).buddy().arena_base() == BuddyAllocator::spec_arena_base(
                heap_start as int,
                heap_size as int,
            ),
            final(self)@.slabs.len() == Self::initial_slabs(
                BuddyAllocator::spec_page_num(heap_size as int),
            ),
            final(self).buddy()@.free_pages() + 2 * final(self)@.slabs.len()
                == BuddyAllocator::spec_page_num(heap_size as int),
            final(self)@.chains.len() == MAX_SLAB_ORDER,
            forall|o: int|
                0 <= o < MAX_SLAB_ORDER ==> #[trigger] final(self)@.chains[o]
                    == Self::initial_chain(o, BuddyAllocator::spec_page_num(heap_size as int)),
            forall|k: int|
                0 <= k < final(self)@.slabs.len() ==> {
                    let s = #[trigger] final(self)@.slabs[k];
                    &&& s.order == k + MIN_SLAB_ORDER
                    &&& s.free == Slab::all_slots(s.base, s.order)
                    &&& s.next_slab is None
                },
            Self::only_slab_runs(final(self).buddy()@),
    {
        /* The page allocator is laid out first. */
        self.fallback_allocator.init(heap_start, heap_size);
        self.pool = Vec::new();
        self.slabs = [None;MAX_SLAB_ORDER];
        self.chains = Ghost(Seq::new(MAX_SLAB_ORDER as nat, |o: int| Seq::empty()));
        let ghost n = BuddyAllocator::spec_page_num(heap_size as int);
        proof {
            reveal(SlabAllocator::wf);
            assert(slabs_ok(self.buddy(), self@));
            assert(Self::only_slab_runs(self.buddy()@)) by {
                assert forall|h: int| self.buddy()@.is_live(h) implies self.buddy()@.runs[h].order
                    == 1 by {
                    assert(!self.buddy()@.runs[h].allocated);
                }
            }
        }
        let ghost b0 = self.fallback_allocator;
        let mut order: usize = MIN_SLAB_ORDER;
        while order < MAX_SLAB_ORDER
            invariant
                MIN_SLAB_ORDER <= order <= MAX_SLAB_ORDER,
                self.wf(),
                self.buddy().same_layout(&b0),
                n == b0@.page_count(),
                n >= 0,
                self@.chains.len() == MAX_SLAB_ORDER,
                Self::only_slab_runs(self.buddy()@),
                self@.slabs.len() == (if 2 * (order - MIN_SLAB_ORDER) <= n {
                    order - MIN_SLAB_ORDER
                } else {
                    n / 2
                }),
                self.buddy()@.free_pages() + 2 * self@.slabs.len() == n,
                forall|o: int|
                    0 <= o < order ==> #[trigger] self@.chains[o] == Self::initial_chain(o, n),
                forall|o: int| order <= o < MAX_SLAB_ORDER ==> (#[trigger] self@.chains[o]).len() == 0,
                forall|k: int|
                    0 <= k < self@.slabs.len() ==> {
                        let s = #[trigger] self@.slabs[k];
                        &&& s.order == k + MIN_SLAB_ORDER
                        &&& s.free == Slab::all_slots(s.base, s.order)
                        &&& s.next_slab is None
                    },
            decreases MAX_SLAB_ORDER - order,
        {
            let ghost v0 = self@;
            let ghost bv0 = self.buddy()@;
            proof {
                reveal(SlabAllocator::wf);
                self.buddy().lemma_inv(Set::empty());
                law_room_for_two(bv0);
            }
            let made: Option<usize> = self.init_slab_cache(order as u32);
            let ghost b1 = self.fallback_allocator;
            let ghost v1 = self@;
            self.slabs[order] = made;
            proof {
                reveal(SlabAllocator::wf);
            }
            match made {
                Some(id) => {
                    self.chains = Ghost(self.chains@.update(order as int, seq![id as int]));
                    proof {
                        let v2 = self@;
                        assert(seq![id as int] + v1.chains[order as int] =~= seq![id as int]);
                        assert(v2.slabs =~= v1.slabs.update(
                            id as int,
                            SlabView {
                                next_slab: list_front(v1.chains[order as int]),
                                ..v1.slabs[id as int]
                            },
                        ));
                        assert forall|o1: int, j: int|
                            0 <= o1 < MAX_SLAB_ORDER && 0 <= j < v1.chains[o1].len() implies #[trigger] v1.chains[o1][j]
                            != id by {
                            let i = v0.chains[o1][j];
                            assert(0 <= i < v0.slabs.len());
                        }
                        lemma_chain_push(b1, v1, v2, id as int, order as int);
                        assert forall|o1: int| 0 <= o1 < MAX_SLAB_ORDER implies #[trigger] self.slabs@[o1]
                            == list_front(self.chains@[o1]) by {
                            if o1 == order {
                                assert(seq![id as int][0] == id);
                            }
                        }
                        let m = bv0.first_fit(1).unwrap();
                        let p = bv0.free[m as int][0];
                        b1.lemma_inv(Set::empty());
                        Self::lemma_run_taken(bv0, b1@, p);
                        assert(v2.chains[order as int] == Self::initial_chain(order as int, n));
                        assert forall|k: int| 0 <= k < v2.slabs.len() implies {
                            let s = #[trigger] v2.slabs[k];
                            &&& s.order == k + MIN_SLAB_ORDER
                            &&& s.free == Slab::all_slots(s.base, s.order)
                            &&& s.next_slab is None
                        } by {
                            if k < v0.slabs.len() {
                                assert(v2.slabs[k] == v0.slabs[k]);
                            }
                        }
                    }
                },
                None => {
                    proof {
                        assert(self@.chains[order as int] == Self::initial_chain(order as int, n));
                    }
                },
            }
            order += 1;
        }
    }

    /// Handing out a run of two pages takes two pages from the free pages
    /// and leaves runs of two pages the only ones handed out.
    proof fn lemma_run_taken(pre: BuddyView, post: BuddyView, p: int)
        requires
            pre.wf(),
            post.wf(),
            Self::only_slab_runs(pre),
            Self::run_taken(pre, post, p),
        ensures
            Self::only_slab_runs(post),
            post.free_pages() + 2 == pre.free_pages(),
    {
        vstd::arithmetic::power2::lemma2_to64();
        law_handed_out_count(pre, post, p, 1);
        assert forall|h: int| post.is_live(h) implies post.runs[h].order == 1 by {
            if pre.runs[h].allocated {
                assert(post.runs[h] == pre.runs[h]);
                assert(pre.is_live(h));
            }
        }
    }

    /// An address that the allocator has handed out and not taken back: a
    /// slot of the slab that its page is tagged with, or the first page of a
    /// run of untagged pages handed out by the page allocator.
    pub open spec fn owns(&self, addr: int) -> bool {
        let b = self.buddy();
        let page = b.spec_virt_to_page(addr);
        &&& b.in_arena(addr)
        &&& match b@.slab[page] {
            Some(id) => self@.slabs[id as int].is_live(addr),
            None => b@.is_live(page),
        }
    }

    /// Tells whether the allocator has handed out `ptr` and not taken it back.
    pub fn is_live_address(&self, ptr: usize) -> (b: bool)
        requires
            self.wf(),
        ensures
            b == self.owns(ptr as int),
    {
        proof {
            reveal(SlabAllocator::wf);
            self.buddy().lemma_inv(Set::empty());
            self.buddy().lemma_layout();
        }
        let buddy = &self.fallback_allocator;
        if ptr < buddy.start_addr() {
            return false;
        }
        if (ptr - buddy.start_addr()) / PAGE_SIZE >= buddy.page_count() as usize {
            return false;
        }
        let page: usize = buddy.virt_to_page(ptr);
        match buddy.page(page).slab {
            Some(id) => {
                proof {
                    assert(buddy@.slab[page as int] == Some(id));
                    assert((id as int) < self@.slabs.len());
                }
                self.pool[id].is_live_slot(ptr)
            },
            None => buddy.is_live_page(page),
        }
    }

    /// The addresses `a` and `b` lie in the same allocation: they are the
    /// same slot, or they lie in the same page of a run of pages.
    pub open spec fn same_allocation(&self, a: int, b: int) -> bool {
        let page = self.buddy().spec_virt_to_page(a);
        if self.buddy()@.slab[page] is Some {
            a == b
        } else {
            page == self.buddy().spec_virt_to_page(b)
        }
    }

    /// Serves a request for `size` bytes: a slot of the least order that
    /// holds them, or a run of pages where no slot is large enough. Returns
    /// the address, or 0 where the memory has run out.
    pub fn allocate(&mut self, size: usize, align: usize) -> (ptr: usize)
        requires
            old(self).wf(),
        ensures
            final(self).wf(),
            final(self).buddy().same_layout(&old(self).buddy()),
            spec_size_to_order(size as int) < MAX_SLAB_ORDER ==> {
                let r = if ptr == 0 {
                    None
                } else {
                    Some(ptr)
                };
                Self::slot_served(old(self), final(self), spec_size_to_order(size as int) as int, r)
            },
            ptr != 0 ==> !old(self).owns(ptr as int) && final(self).owns(ptr as int),
            forall|a: int| old(self).owns(a) ==> final(self).owns(a),
            spec_size_to_order(size as int) < MAX_SLAB_ORDER ==> ptr as int % (pow2(
                spec_size_to_order(size as int),
            ) as int) == 0,
            spec_size_to_order(size as int) >= MAX_SLAB_ORDER ==> ptr % PAGE_SIZE == 0,
            is_power_of_two(align as int) && align <= PAGE_SIZE && align <= pow2(
                spec_size_to_order(size as int),
            ) ==> ptr as int % (align as int) == 0,
            spec_size_to_order(size as int) >= MAX_SLAB_ORDER ==> final(self)@ == old(self)@
                && match old(self).buddy()@.first_fit(spec_size_to_page_order(size as int)) {
                None => ptr == 0 && final(self).buddy()@ == old(self).buddy()@,
                Some(m) => {
                    let k = spec_size_to_page_order(size as int);
                    let p = old(self).buddy()@.free[m as int][0];
                    &&& ptr != 0
                    &&& ptr == old(self).buddy().spec_page_to_virt(p)
                    &&& final(self).buddy()@ == old(self).buddy()@.carved(m, k)
                },
            },
    {
        let order: u32 = size_to_order(size);
        proof {
            reveal(SlabAllocator::wf);
        }
        let ptr: usize = if order >= MAX_SLAB_ORDER as u32 {
            let ghost b0 = self.fallback_allocator;
            let ghost v0 = self@;
            let ptr: usize = self.fallback_allocator.allocate(size, align);
            proof {
                let b1 = self.fallback_allocator;
                if ptr != 0 {
                    let m = b0@.first_fit(spec_size_to_page_order(size as int)).unwrap();
                    let k = spec_size_to_page_order(size as int);
                    let p = b0@.free[m as int][0];
                    lemma_split_slab(b0@.with_removed(m as int, p), p, m, k);
                }
                assert(self@.slabs =~= v0.slabs);
                lemma_buddy_frame(b0, b1, v0);
                if ptr != 0 {
                    let p = b0.spec_virt_to_page(ptr as int);
                    b0.lemma_inv(Set::empty());
                    b0.lemma_layout();
                    Self::lemma_free_untagged(old(self), p);
                }
                assert(self@ == v0);
                assert forall|a: int| old(self).owns(a) implies self.owns(a) by {
                    assert(b0.owns(a) ==> b1.owns(a));
                    b0.lemma_inv(Set::empty());
                    b0.lemma_layout();
                    b0.law_address_round_trip(a);
                    let j = b0.spec_virt_to_page(a);
                    if b0@.slab[j] is Some {
                    } else {
                        assert(b0@.is_live(j));
                    }
                }
            }
            ptr
        } else {
            match self.find_free_slot(order) {
                Some(slot) => {
                    proof {
                        Self::lemma_slot_served(old(self), self, order as int, slot);
                        Self::lemma_slot_fresh(old(self), self, order as int, slot);
                    }
                    slot
                },
                None => {
                    proof {
                        vstd::arithmetic::power2::lemma_pow2_pos(order as nat);
                        vstd::arithmetic::div_mod::lemma_small_mod(0, pow2(order as nat));
                        Self::lemma_unserved(old(self), self, order as int);
                    }
                    0
                },
            }
        };
        proof {
            if is_power_of_two(align as int) && align <= PAGE_SIZE && align <= pow2(order as nat) {
                vstd::arithmetic::power2::lemma2_to64();
                if order >= MAX_SLAB_ORDER {
                    super::pow2::lemma_power_of_two_divides(ptr as int, 12, align as int);
                } else {
                    super::pow2::lemma_power_of_two_divides(ptr as int, order as nat, align as int);
                }
            }
        }
        ptr
    }

    /// A slot that was handed out does not lie at address 0, and is aligned
    /// to the slot size.
    proof fn lemma_slot_served(pre: &Self, post: &Self, order: int, slot: usize)
        requires
            pre.wf(),
            MIN_SLAB_ORDER <= order < MAX_SLAB_ORDER,
            Self::slot_served(pre, post, order, Some(slot)),
        ensures
            slot != 0,
            slot as int % (pow2(order as nat) as int) == 0,
    {
        reveal(SlabAllocator::wf);
        let chain = pre@.chains[order];
        match first_with_free(pre@.slabs, chain, 0) {
            Some(k) => {
                Self::lemma_first_with_free(pre@.slabs, chain, 0);
                let id = pre@.chains[order][k];
                assert(0 <= id < pre@.slabs.len());
                assert(pre@.slabs[id].wf());
                assert(pre@.slabs[id].is_slot(pre@.slabs[id].free[0]));
                pre.law_slot_aligned(id, slot as int);
            },
            None => {
                vstd::arithmetic::power2::lemma_pow2_pos(order as nat);
                let m = pre.buddy()@.first_fit(1).unwrap();
                let p = pre.buddy()@.free[m as int][0];
                let base = pre.buddy().spec_page_to_virt(p);
                pre.buddy().lemma_inv(Set::empty());
                pre.buddy().lemma_layout();
                lemma_first_fit(pre.buddy()@, 1);
                assert(is_listed(
                    pre.buddy()@.runs,
                    Set::empty(),
                    pre.buddy()@.free[m as int][0],
                ));
                assert(p >= 0);
                assert(base >= 0) by (nonlinear_arith)
                    requires
                        p >= 0,
                        pre.buddy().arena_base() >= 0,
                        base == pre.buddy().arena_base() + PAGE_SIZE * p,
                ;
                vstd::arithmetic::div_mod::lemma_mod_multiples_vanish(
                    p,
                    pre.buddy().arena_base(),
                    4096,
                );
                let v = SlabView {
                    base,
                    order: order as nat,
                    free: Seq::empty(),
                    next_slab: None,
                };
                lemma_slots(base, order as nat, 1);
                assert(v.is_slot(slot as int));
                assert(v.wf()) by {
                    pre.buddy().lemma_head(Set::empty(), p);
                    assert(PAGE_SIZE * p + PAGE_SIZE * pow2(m) <= PAGE_SIZE
                        * pre.buddy()@.page_count()) by (nonlinear_arith)
                        requires
                            p + pow2(m) <= pre.buddy()@.page_count(),
                    ;
                    vstd::arithmetic::power2::lemma2_to64();
                    super::pow2::lemma_pow2_increases(1, m);
                }
                lemma_page_slot_aligned(v, slot as int);
            },
        }
    }

    /// A slot that was handed out was not handed out before, is handed out
    /// now, and whatever was handed out before still is.
    proof fn lemma_slot_fresh(pre: &Self, post: &Self, order: int, slot: usize)
        requires
            pre.wf(),
            post.wf(),
            post.buddy().same_layout(&pre.buddy()),
            MIN_SLAB_ORDER <= order < MAX_SLAB_ORDER,
            Self::slot_served(pre, post, order, Some(slot)),
        ensures
            !pre.owns(slot as int),
            post.owns(slot as int),
            forall|a: int| pre.owns(a) ==> post.owns(a),
    {
        reveal(SlabAllocator::wf);
        let b0 = pre.buddy();
        let b1 = post.buddy();
        b0.lemma_inv(Set::empty());
        b0.lemma_layout();
        b1.lemma_inv(Set::empty());
        b1.lemma_layout();
        let chain = pre@.chains[order];
        match first_with_free(pre@.slabs, chain, 0) {
            Some(k) => {
                Self::lemma_first_with_free(pre@.slabs, chain, 0);
                let id = pre@.chains[order][k];
                assert(0 <= id < pre@.slabs.len());
                let slab_before = pre@.slabs[id];
                let slab_after = post@.slabs[id];
                assert(slab_before.wf());
                assert(slab_before.is_slot(slab_before.free[0]));
                pre.law_back_pointer(id, slot as int);
                assert(slab_before.free.contains(slot as int));
                assert(!slab_after.free.contains(slot as int)) by {
                    if slab_after.free.contains(slot as int) {
                        let i = slab_after.free.index_of(slot as int);
                        assert(slab_before.free[i + 1] == slot);
                    }
                }
                assert forall|a: int| pre.owns(a) implies post.owns(a) by {
                    let page = b0.spec_virt_to_page(a);
                    match b0@.slab[page] {
                        Some(id1) => {
                            if id1 == id {
                                if slab_after.free.contains(a) {
                                    let i = slab_after.free.index_of(a);
                                    assert(slab_before.free[i + 1] == a);
                                }
                            }
                        },
                        None => {},
                    }
                }
            },
            None => {
                let m = b0@.first_fit(1).unwrap();
                let p = b0@.free[m as int][0];
                let base = b0.spec_page_to_virt(p);
                let id = pre@.slabs.len() as int;
                let ss = pow2(order as nat) as int;
                lemma_slots(base, order as nat, 1);
                vstd::arithmetic::power2::lemma2_to64();
                assert(slot == base + ss);
                // the slot lies in page p, which was free and untagged
                assert(b0.spec_virt_to_page(slot as int) == p);
                b0.lemma_run_pages(Set::empty(), p);
                assert(b0@.runs[p + 1] == b0@.runs[p]) by {
                    super::pow2::lemma_pow2_increases(1, b0@.runs[p].order);
                }
                Self::lemma_free_untagged(pre, p);
                Self::lemma_free_untagged(pre, p + 1);
                assert(b0@.slab[p] is None);
                assert(!b0@.is_live(p));
                // in the new slab the first slot is not on the free list
                let slab_after = post@.slabs[id];
                assert(slab_after.is_slot(slot as int));
                assert(!slab_after.free.contains(slot as int)) by {
                    if slab_after.free.contains(slot as int) {
                        let i = slab_after.free.index_of(slot as int);
                        assert(slab_after.free[i] == Slab::all_slots(base, order as nat)[i + 1]);
                        lemma_slots(base, order as nat, i + 2);
                        assert((i + 2) * ss == 2 * ss + i * ss) by (nonlinear_arith);
                        assert(i * ss >= 0) by (nonlinear_arith)
                            requires
                                i >= 0,
                                ss > 0,
                        ;
                    }
                }
                assert(b1@.slab[p] == Some(id as usize));
                assert forall|a: int| pre.owns(a) implies post.owns(a) by {
                    let page = b0.spec_virt_to_page(a);
                    b0.law_address_round_trip(a);
                    match b0@.slab[page] {
                        Some(id1) => {
                            assert(page != p && page != p + 1);
                            assert(post@.slabs[id1 as int] == pre@.slabs[id1 as int]);
                        },
                        None => {
                            assert(b0@.runs[page].allocated);
                            assert(b0@.runs[page].head == page);
                            assert(page != p && page != p + 1);
                            assert(b1@.runs[page] == b0@.runs[page]);
                        },
                    }
                }
            },
        }
    }

    /// Where no slot could be handed out, nothing has changed.
    proof fn lemma_unserved(pre: &Self, post: &Self, order: int)
        requires
            pre.wf(),
            post.buddy().same_layout(&pre.buddy()),
            MIN_SLAB_ORDER <= order < MAX_SLAB_ORDER,
            Self::slot_served(pre, post, order, None),
        ensures
            post@ == pre@,
            post.buddy()@ == pre.buddy()@,
            forall|a: int| pre.owns(a) ==> post.owns(a),
    {
        let chain = pre@.chains[order];
        match first_with_free(pre@.slabs, chain, 0) {
            Some(k) => {},
            None => {
                if pre.buddy()@.first_fit(1) is Some {
                    assert(false);
                }
            },
        }
    }

    /// A page of a free run carries no tag.
    proof fn lemma_free_untagged(a: &Self, j: int)
        requires
            a.wf(),
            0 <= j < a.buddy()@.page_count(),
            !a.buddy()@.runs[j].allocated,
        ensures
            a.buddy()@.slab[j] is None,
    {
        reveal(SlabAllocator::wf);
        let b = a.buddy();
        b.lemma_inv(Set::empty());
        if b@.slab[j] is Some {
            let id = b@.slab[j].unwrap() as int;
            let h = b.spec_virt_to_page(a@.slabs[id].base);
            assert(slab_placed(b, a@.slabs[id], id));
            b.lemma_run_pages(Set::empty(), h);
            vstd::arithmetic::power2::lemma2_to64();
            assert(b@.runs[j] == b@.runs[h]);
        }
    }

    /// The position found by `first_with_free` is one of the chain, from
    /// `from` on, and the slab there has a free slot.
    pub proof fn lemma_first_with_free(slabs: Seq<SlabView>, chain: Seq<int>, from: int)
        requires
            first_with_free(slabs, chain, from) is Some,
        ensures
            from <= first_with_free(slabs, chain, from).unwrap() < chain.len(),
            slabs[chain[first_with_free(slabs, chain, from).unwrap()]].free.len() > 0,
        decreases chain.len() - from,
    {
        if from < 0 || from >= chain.len() {
        } else if slabs[chain[from]].free.len() > 0 {
        } else {
            Self::lemma_first_with_free(slabs, chain, from + 1);
        }
    }

    /// Takes back the slot or the run of pages at `ptr`.
    pub fn deallocate(&mut self, ptr: usize, size: usize, align: usize)
        requires
            old(self).wf(),
            old(self).owns(ptr as int),
        ensures
            final(self).wf(),
            final(self).buddy().same_layout(&old(self).buddy()),
            final(self)@.chains == old(self)@.chains,
            !final(self).owns(ptr as int),
            forall|a: int|
                old(self).owns(a) && !old(self).same_allocation(a, ptr as int)
                    ==> final(self).owns(a),
            match old(self).buddy()@.slab[old(self).buddy().spec_virt_to_page(ptr as int)] {
                Some(id) => {
                    let s = old(self)@.slabs[id as int];
                    &&& final(self).buddy()@ == old(self).buddy()@
                    &&& final(self)@.slabs == old(self)@.slabs.update(
                        id as int,
                        SlabView { free: seq![ptr as int] + s.free, ..s },
                    )
                },
                None => {
                    &&& final(self)@ == old(self)@
                    &&& final(self).buddy()@ == old(self).buddy()@.released(
                        old(self).buddy().spec_virt_to_page(ptr as int),
                    )
                },
            },
    {
        proof {
            reveal(SlabAllocator::wf);
            self.buddy().lemma_inv(Set::empty());
            self.buddy().lemma_layout();
        }
        let page_addr: usize = super::round_down(ptr, PAGE_SIZE);
        let page: usize = self.fallback_allocator.virt_to_page(page_addr);
        let ghost b0 = self.fallback_allocator;
        let ghost v0 = self@;
        assert(page == b0.spec_virt_to_page(ptr as int));
        match self.fallback_allocator.page(page).slab {
            Some(id) => {
                proof {
                    assert(b0@.slab[page as int] == Some(id));
                    assert((id as int) < v0.slabs.len());
                }
                /* Free this slot in the corresponding slab */
                self.pool[id].put_slot(ptr);
                proof {
                    let v1 = self@;
                    assert(v1.slabs =~= v0.slabs.update(id as int, v1.slabs[id as int]));
                    lemma_slab_update(b0, v0, v1, id as int);
                    let slab_before = v0.slabs[id as int];
                    let slab_after = v1.slabs[id as int];
                    assert(slab_after.free[0] == ptr);
                    assert forall|a: int|
                        old(self).owns(a) && !old(self).same_allocation(
                            a,
                            ptr as int,
                        ) implies self.owns(a) by {
                        if b0@.slab[b0.spec_virt_to_page(a)] is None {
                            assert(b0.spec_virt_to_page(a) != page);
                        } else {
                        let id1 = b0@.slab[b0.spec_virt_to_page(a)].unwrap();
                        if id1 == id {
                            if slab_after.free.contains(a) {
                                let i = slab_after.free.index_of(a);
                                assert(slab_before.free[i - 1] == a);
                            }
                        } else {
                            assert(v1.slabs[id1 as int] == v0.slabs[id1 as int]);
                        }
                        }
                    }
                }
            },
            None => {
                /* Free the pages in the page allocator */
                self.fallback_allocator.free_pages(page);
                proof {
                    let b1 = self.fallback_allocator;
                    lemma_released_slab(b0@, page as int);
                    assert(self@.slabs =~= v0.slabs);
                    assert forall|j: int|
                        0 <= j < b0@.runs.len() && b0@.slab[j] is Some && (
                        #[trigger] b0@.runs[j]).allocated implies b1@.runs[j] == b0@.runs[j] by {
                        // a tagged page lies in a slab's run, whose first page is tagged
                        let i = b0@.slab[j].unwrap() as int;
                        let h = b0.spec_virt_to_page(v0.slabs[i].base);
                        assert(slab_placed(b0, v0.slabs[i], i));
                        b0.lemma_run_pages(Set::empty(), h);
                        vstd::arithmetic::power2::lemma2_to64();
                        assert(b0@.runs[j].head == h);
                        assert(h != page);
                    }
                    lemma_buddy_frame(b0, b1, v0);
                    assert(b0@.runs[page as int].head == page);
                    assert forall|a: int|
                        old(self).owns(a) && !old(self).same_allocation(
                            a,
                            ptr as int,
                        ) implies self.owns(a) by {
                        b0.law_address_round_trip(a);
                        let j = b0.spec_virt_to_page(a);
                        match b0@.slab[j] {
                            Some(id1) => {
                                assert(self@.slabs[id1 as int] == v0.slabs[id1 as int]);
                            },
                            None => {
                                assert(b0@.runs[j].head == j);
                                assert(b1@.runs[j].allocated);
                            },
                        }
                    }
                }
            },
        }
    }

    /// The tag of the page of any address in a slab names that slab.
    pub proof fn law_back_pointer(&self, id: int, addr: int)
        requires
            self.wf(),
            0 <= id < self@.slabs.len(),
            self@.slabs[id].base <= addr < self@.slabs[id].base + DEFAULT_SLAB_SIZE,
        ensures
            self.buddy().in_arena(addr),
            self.buddy()@.slab[self.buddy().spec_virt_to_page(addr)] == Some(id as usize),
    {
        reveal(SlabAllocator::wf);
        let b = self.buddy();
        let v = self@.slabs[id];
        let h = b.spec_virt_to_page(v.base);
        assert(v.wf() && slab_placed(b, v, id));
        b.lemma_head(Set::empty(), h);
        b.lemma_layout();
        vstd::arithmetic::power2::lemma2_to64();
        assert(h + 2 <= b@.page_count());
        let off = addr - b.arena_base();
        assert(PAGE_SIZE * h <= off < PAGE_SIZE * h + 2 * PAGE_SIZE);
        assert(off / (PAGE_SIZE as int) == h || off / (PAGE_SIZE as int) == h + 1);
    }

    /// A slab lies at a page boundary in the arena, so its slots are aligned
    /// to their size; a slot lies in its slab, behind the slot of the header.
    pub proof fn law_slot_aligned(&self, id: int, addr: int)
        requires
            self.wf(),
            0 <= id < self@.slabs.len(),
            self@.slabs[id].is_slot(addr),
        ensures
            self@.slabs[id].base % (PAGE_SIZE as int) == 0,
            addr % self@.slabs[id].slot_size() == 0,
            self@.slabs[id].base + self@.slabs[id].slot_size() <= addr,
            addr + self@.slabs[id].slot_size() <= self@.slabs[id].base + DEFAULT_SLAB_SIZE,
            self.buddy().arena_base() <= self@.slabs[id].base,
            self@.slabs[id].base + DEFAULT_SLAB_SIZE <= self.buddy().arena_base()
                + self.buddy()@.page_count() * PAGE_SIZE,
    {
        reveal(SlabAllocator::wf);
        let b = self.buddy();
        let v = self@.slabs[id];
        let h = b.spec_virt_to_page(v.base);
        assert(v.wf() && slab_placed(b, v, id));
        b.law_run_aligned(h);
        b.law_run_in_arena(h);
        vstd::arithmetic::power2::lemma2_to64();
        lemma_page_slot_aligned(v, addr);
        lemma_slot_address(v, addr);
        let i = slot_index(v.base, v.order, addr);
        assert(i * v.slot_size() >= v.slot_size()) by (nonlinear_arith)
            requires
                i >= 1,
                v.slot_size() > 0,
        ;
    }

    /// Two slots share no byte.
    pub proof fn law_slots_disjoint(&self, id1: int, addr1: int, id2: int, addr2: int)
        requires
            self.wf(),
            0 <= id1 < self@.slabs.len(),
            0 <= id2 < self@.slabs.len(),
            self@.slabs[id1].is_slot(addr1),
            self@.slabs[id2].is_slot(addr2),
            id1 != id2 || addr1 != addr2,
        ensures
            addr1 + self@.slabs[id1].slot_size() <= addr2 || addr2 + self@.slabs[id2].slot_size()
                <= addr1,
    {
        self.law_slot_aligned(id1, addr1);
        self.law_slot_aligned(id2, addr2);
        reveal(SlabAllocator::wf);
        let b = self.buddy();
        let v1 = self@.slabs[id1];
        let v2 = self@.slabs[id2];
        assert(v1.wf() && slab_placed(b, v1, id1));
        assert(v2.wf() && slab_placed(b, v2, id2));
        if id1 == id2 {
            let ss = v1.slot_size();
            lemma_slots(v1.base, v1.order, 0);
            if addr1 < addr2 {
                super::pow2::lemma_multiples_apart(addr1, addr2, ss);
            } else {
                super::pow2::lemma_multiples_apart(addr2, addr1, ss);
            }
        } else {
            let h1 = b.spec_virt_to_page(v1.base);
            let h2 = b.spec_virt_to_page(v2.base);
            assert(h1 != h2);
            b.law_run_memory_disjoint(h1, h2);
            vstd::arithmetic::power2::lemma2_to64();
        }
    }

    /// A new slab on a run that the page allocator has just handed out keeps
    /// the slabs consistent.
    proof fn lemma_grow(
        b0: BuddyAllocator,
        b2: BuddyAllocator,
        v0: SlabsView,
        v1: SlabsView,
        p: int,
        slab: SlabView,
    )
        requires
            b0.wf(),
            b2.wf(),
            slabs_ok(b0, v0),
            b2.same_layout(&b0),
            v0.slabs.len() < usize::MAX,
            v1.chains == v0.chains,
            v1.slabs == v0.slabs.push(slab),
            slab.wf(),
            slab.base == b0.spec_page_to_virt(p),
            0 <= p,
            p + 2 <= b0@.page_count(),
            !b0@.runs[p].allocated,
            b2@.runs.len() == b0@.runs.len(),
            b2@.runs[p] == (RunInfo { head: p, order: 1, allocated: true }),
            forall|j: int|
                0 <= j < b0@.runs.len() && (#[trigger] b0@.runs[j]).allocated ==> b2@.runs[j]
                    == b0@.runs[j],
            b2@.slab == b0@.slab.update(p, Some(v0.slabs.len() as usize)).update(
                p + 1,
                Some(v0.slabs.len() as usize),
            ),
        ensures
            slabs_ok(b2, v1),
    {
        let id1 = v0.slabs.len() as int;
        b0.lemma_inv(Set::empty());
        b0.lemma_layout();
        b2.lemma_inv(Set::empty());
        b2.lemma_layout();
        assert(b2.spec_virt_to_page(slab.base) == p);
        assert forall|id: int| 0 <= id < v1.slabs.len() implies (#[trigger] v1.slabs[id]).wf()
            && slab_placed(b2, v1.slabs[id], id) by {
            if id < id1 {
                let v = v0.slabs[id];
                assert(v.wf() && slab_placed(b0, v, id));
                let h = b0.spec_virt_to_page(v.base);
                vstd::arithmetic::power2::lemma2_to64();
                // the run of an older slab is handed out, p was free
                b0.lemma_run_pages(Set::empty(), h);
                assert(b0@.runs[h + 1] == b0@.runs[h]);
                assert(h != p && h + 1 != p);
                // in the new state p + 1 lies in the run at p
                b2.lemma_run_pages(Set::empty(), p);
                assert(b2@.runs[p + 1] == b2@.runs[p]);
                assert(b2@.runs[h] == b0@.runs[h]);
                assert(h != p + 1);
            } else {
                assert(v1.slabs[id] == slab);
                assert(is_head(b2@.runs, p));
            }
        }
        assert forall|o: int, k: int|
            0 <= o < MAX_SLAB_ORDER && 0 <= k < v1.chains[o].len() implies {
            let id = #[trigger] v1.chains[o][k];
            &&& 0 <= id < v1.slabs.len()
            &&& v1.slabs[id].order == o
            &&& v1.slabs[id].next_slab == list_next(v1.chains[o], k)
        } by {
            let id = v0.chains[o][k];
            assert(0 <= id < v0.slabs.len());
        }
        assert forall|j: int|
            0 <= j < b2@.page_count() && (#[trigger] b2@.slab[j]) is Some implies {
            let id = b2@.slab[j].unwrap() as int;
            &&& id < v1.slabs.len()
            &&& (j == b2.spec_virt_to_page(v1.slabs[id].base) || j == b2.spec_virt_to_page(
                v1.slabs[id].base,
            ) + 1)
        } by {
            if j != p && j != p + 1 {
                assert(b0@.slab[j] is Some);
            }
        }
    }
}

} // verus!
