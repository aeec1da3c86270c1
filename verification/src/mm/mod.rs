//! Address arithmetic shared by the allocators.

use vstd::prelude::*;

pub mod buddy_allocator;
pub mod buddy_view;
pub mod paging;
pub mod pow2;
pub mod segregated_allocator;
pub mod slab_allocator;

verus! {

/// The smallest multiple of `align` that is not below `addr`.
pub open spec fn spec_round_up(addr: int, align: int) -> int {
    if addr % align == 0 {
        addr
    } else {
        addr - addr % align + align
    }
}

/// The largest multiple of `align` that is not above `addr`.
pub open spec fn spec_round_down(addr: int, align: int) -> int {
    addr - addr % align
}

/// Rounds `addr` up to the next multiple of `align`.
pub fn round_up(addr: usize, align: usize) -> (r: usize)
    requires
        align > 0,
        spec_round_up(addr as int, align as int) <= usize::MAX,
    ensures
        r == spec_round_up(addr as int, align as int),
        r % align == 0,
        addr <= r < addr + align,
{
    let remainder: usize = addr % align;
    proof {
        lemma_round_up(addr as int, align as int);
        assert(remainder as int == (addr as int) % (align as int));
    }
    if remainder == 0 {
        addr
    } else {
        assert(addr - remainder + align == spec_round_up(addr as int, align as int));
        addr - remainder + align
    }
}

/// Rounds `addr` down to the previous multiple of `align`.
pub fn round_down(addr: usize, align: usize) -> (r: usize)
    requires
        align > 0,
    ensures
        r == spec_round_down(addr as int, align as int),
        r % align == 0,
        r <= addr < r + align,
{
    let remainder: usize = addr % align;
    proof {
        lemma_round_down(addr as int, align as int);
    }
    if remainder == 0 {
        addr
    } else {
        addr - remainder
    }
}

/// `spec_round_up` yields a multiple of `align` in `[addr, addr + align)`.
pub proof fn lemma_round_up(addr: int, align: int)
    requires
        align > 0,
        addr >= 0,
    ensures
        spec_round_up(addr, align) % align == 0,
        addr <= spec_round_up(addr, align) < addr + align,
        0 <= addr % align <= addr,
{
    let r = spec_round_up(addr, align);
    vstd::arithmetic::div_mod::lemma_mod_decreases(addr as nat, align as nat);
    vstd::arithmetic::div_mod::lemma_fundamental_div_mod(addr, align);
    vstd::arithmetic::div_mod::lemma_mod_pos_bound(addr, align);
    if addr % align != 0 {
        let q = addr / align;
        assert(addr - addr % align == align * q);
        assert(r == (q + 1) * align) by (nonlinear_arith)
            requires
                r == align * q + align,
        ;
        vstd::arithmetic::div_mod::lemma_mod_multiples_basic(q + 1, align);
    }
}

/// `spec_round_down` yields the greatest multiple of `align` at or below `addr`.
pub proof fn lemma_round_down(addr: int, align: int)
    requires
        align > 0,
        addr >= 0,
    ensures
        spec_round_down(addr, align) % align == 0,
        spec_round_down(addr, align) <= addr < spec_round_down(addr, align) + align,
        spec_round_down(addr, align) == (addr / align) * align,
        0 <= addr % align <= addr,
{
    vstd::arithmetic::div_mod::lemma_mod_decreases(addr as nat, align as nat);
    vstd::arithmetic::div_mod::lemma_fundamental_div_mod(addr, align);
    vstd::arithmetic::div_mod::lemma_mod_pos_bound(addr, align);
    let q = addr / align;
    assert(spec_round_down(addr, align) == align * q);
    assert(align * q == q * align) by (nonlinear_arith);
    vstd::arithmetic::div_mod::lemma_mod_multiples_basic(q, align);
}

} // verus!
