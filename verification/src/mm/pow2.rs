//! Powers of two: binary logarithms and facts about aligned blocks.

use vstd::prelude::*;
use vstd::arithmetic::power2::{pow2, lemma_pow2_pos, lemma_pow2_unfold, lemma_pow2_strictly_increases};

verus! {

/// `k` is the binary logarithm of `n`, rounded up: the least exponent whose
/// power of two is not below `n`.
pub open spec fn is_ceil_log2(n: int, k: nat) -> bool {
    &&& n <= pow2(k)
    &&& k > 0 ==> pow2((k - 1) as nat) < n
}

/// At most one exponent is the rounded-up binary logarithm of `n`.
pub proof fn lemma_ceil_log2_unique(n: int, k1: nat, k2: nat)
    requires
        is_ceil_log2(n, k1),
        is_ceil_log2(n, k2),
    ensures
        k1 == k2,
{
    if k1 < k2 {
        lemma_pow2_increases(k1, (k2 - 1) as nat);
    }
    if k2 < k1 {
        lemma_pow2_increases(k2, (k1 - 1) as nat);
    }
}

/// Every number has a rounded-up binary logarithm: the first exponent
/// from `from` on whose power of two is not below `n`, where the powers
/// below `from` are below `n`.
pub proof fn lemma_ceil_log2_exists(n: int, from: nat) -> (k: nat)
    requires
        from > 0 ==> pow2((from - 1) as nat) < n,
    ensures
        is_ceil_log2(n, k),
    decreases
            (if n > pow2(from) {
                n - pow2(from)
            } else {
                0
            }),
{
    if n <= pow2(from) {
        from
    } else {
        lemma_pow2_double(from);
        assert(pow2((from + 1) as nat) == 2 * pow2(from) > pow2(from));
        lemma_ceil_log2_exists(n, (from + 1) as nat)
    }
}

/// `pow2` is monotonic.
pub proof fn lemma_pow2_increases(a: nat, b: nat)
    requires
        a <= b,
    ensures
        pow2(a) <= pow2(b),
{
    if a < b {
        lemma_pow2_strictly_increases(a, b);
    }
}

/// `pow2(e + 1)` is twice `pow2(e)`, and both are positive.
pub proof fn lemma_pow2_double(e: nat)
    ensures
        pow2(e + 1) == 2 * pow2(e),
        pow2(e) > 0,
{
    lemma_pow2_pos(e);
    lemma_pow2_unfold(e + 1);
}

/// The binary logarithm of `n`, rounded up; 0 for `n <= 1`.
pub fn ceil_log2(n: usize) -> (k: u32)
    ensures
        is_ceil_log2(n as int, k as nat),
        k <= usize::BITS,
{
    let mut order: u32 = 0;
    let mut tmp: usize = n;
    proof {
        vstd::arithmetic::power2::lemma2_to64();
    }
    if n <= 1 {
        return 0;
    }
    while tmp > 1
        invariant
            tmp >= 1,
            n > 1,
            pow2(order as nat) * tmp <= n,
            n < pow2(order as nat) * (tmp + 1),
            order < usize::BITS,
        decreases tmp,
    {
        let ghost p = pow2(order as nat) as int;
        let ghost t = tmp as int;
        proof {
            lemma_pow2_double(order as nat);
            assert(tmp >> 1 == tmp / 2) by (bit_vector);
            let h = t / 2;
            assert((2 * p) * h <= p * t && p * (t + 1) <= (2 * p) * (h + 1)) by (nonlinear_arith)
                requires
                    p > 0,
                    2 * h <= t,
                    t + 1 <= 2 * h + 2,
            ;
            // the doubled power still fits the word: it is at most n
            assert((2 * p) * h >= 2 * p) by (nonlinear_arith)
                requires
                    p > 0,
                    h >= 1,
            ;
            if order + 1 >= usize::BITS {
                lemma_pow2_increases(usize::BITS as nat, (order + 1) as nat);
                vstd::arithmetic::power2::lemma2_to64();
                vstd::arithmetic::power2::lemma2_to64_rest();
                assert(false);
            }
        }
        tmp >>= 1;
        order += 1;
    }
    proof {
        let p = pow2(order as nat) as int;
        assert(tmp == 1);
        assert(p * 1 == p && p * 2 == 2 * p) by (nonlinear_arith);
        lemma_pow2_double(order as nat);
        vstd::bits::lemma_usize_shl_is_mul(1usize, order as usize);
        assert((1usize << order) == p);
        if order > 0 {
            lemma_pow2_strictly_increases((order - 1) as nat, order as nat);
        }
    }
    if n > (1usize << order) {
        order += 1;
    }
    order
}

/// Start of the buddy of the block of `pow2(o)` units that starts at `h`:
/// the other half of the enclosing block of twice the size.
pub open spec fn buddy_index(h: int, o: nat) -> int {
    if (h / (pow2(o) as int)) % 2 == 0 {
        h + pow2(o)
    } else {
        h - pow2(o)
    }
}

/// Start of the block of `pow2(o)` units that contains `j`.
pub open spec fn block_start(j: int, o: nat) -> int {
    j - j % (pow2(o) as int)
}

/// Two distinct multiples of `m` lie at least `m` apart.
pub proof fn lemma_multiples_apart(a: int, b: int, m: int)
    requires
        m > 0,
        a % m == 0,
        b % m == 0,
        a < b,
    ensures
        a + m <= b,
{
    vstd::arithmetic::div_mod::lemma_fundamental_div_mod(a, m);
    vstd::arithmetic::div_mod::lemma_fundamental_div_mod(b, m);
    let qa = a / m;
    let qb = b / m;
    assert(qa < qb) by (nonlinear_arith)
        requires
            m * qa < m * qb,
            m > 0,
    ;
    assert(m * qa + m <= m * qb) by (nonlinear_arith)
        requires
            qa + 1 <= qb,
            m > 0,
    ;
}

/// A multiple of a power of two is a multiple of every smaller power of two.
pub proof fn lemma_aligned_weaken(x: int, big: nat, small: nat)
    requires
        small <= big,
        x % (pow2(big) as int) == 0,
    ensures
        x % (pow2(small) as int) == 0,
{
    let db = pow2(big) as int;
    let ds = pow2(small) as int;
    let dk = pow2((big - small) as nat) as int;
    lemma_pow2_pos(big);
    lemma_pow2_pos(small);
    vstd::arithmetic::power2::lemma_pow2_adds(small, (big - small) as nat);
    assert(db == ds * dk);
    vstd::arithmetic::div_mod::lemma_fundamental_div_mod(x, db);
    let q = x / db;
    assert(x == (q * dk) * ds) by (nonlinear_arith)
        requires
            x == db * q,
            db == ds * dk,
    ;
    vstd::arithmetic::div_mod::lemma_mod_multiples_basic(q * dk, ds);
}

/// Shifting a multiple of `m` by `m` keeps it a multiple and moves its quotient by one.
pub proof fn lemma_multiple_step(x: int, m: int)
    requires
        m > 0,
        x % m == 0,
    ensures
        (x + m) % m == 0,
        (x - m) % m == 0,
        (x + m) / m == x / m + 1,
        (x - m) / m == x / m - 1,
{
    vstd::arithmetic::div_mod::lemma_fundamental_div_mod(x, m);
    let q = x / m;
    assert(x + m == m * (q + 1) + 0 && x - m == m * (q - 1) + 0) by (nonlinear_arith)
        requires
            x == m * q,
    ;
    vstd::arithmetic::div_mod::lemma_fundamental_div_mod_converse(x + m, m, q + 1, 0);
    vstd::arithmetic::div_mod::lemma_fundamental_div_mod_converse(x - m, m, q - 1, 0);
}

/// The buddy of an aligned block is aligned too, is the block's own buddy's
/// buddy, and the two together form one aligned block of the next order.
pub proof fn lemma_buddy(h: int, o: nat)
    requires
        h >= 0,
        h % (pow2(o) as int) == 0,
    ensures
        buddy_index(h, o) >= 0,
        buddy_index(h, o) != h,
        buddy_index(h, o) % (pow2(o) as int) == 0,
        buddy_index(buddy_index(h, o), o) == h,
        buddy_index(h, o) == h + pow2(o) || buddy_index(h, o) == h - pow2(o),
        buddy_index(h, o) == h + pow2(o) <==> h % (pow2(o + 1) as int) == 0,
        buddy_index(h, o) == h - pow2(o) <==> buddy_index(h, o) % (pow2(o + 1) as int) == 0,
{
    let d = pow2(o) as int;
    let b = buddy_index(h, o);
    lemma_pow2_double(o);
    lemma_multiple_step(h, d);
    vstd::arithmetic::div_mod::lemma_fundamental_div_mod(h, d);
    let q = h / d;
    assert(q >= 0) by (nonlinear_arith)
        requires
            h == d * q,
            h >= 0,
            d > 0,
    ;
    lemma_half_aligned(h, o);
    lemma_half_aligned(b, o);
    if q % 2 == 0 {
        assert(b == h + d);
        assert((b / d) % 2 == 1);
    } else {
        assert(b == h - d);
        assert(q >= 1);
        assert(b >= 0) by (nonlinear_arith)
            requires
                b == d * q - d,
                q >= 1,
                d > 0,
        ;
        assert((b / d) % 2 == 0);
    }
}

/// An aligned block is aligned to the next order exactly when its quotient is even.
pub proof fn lemma_half_aligned(h: int, o: nat)
    requires
        h % (pow2(o) as int) == 0,
    ensures
        h % (pow2(o + 1) as int) == 0 <==> (h / (pow2(o) as int)) % 2 == 0,
{
    let d = pow2(o) as int;
    lemma_pow2_double(o);
    vstd::arithmetic::div_mod::lemma_fundamental_div_mod(h, d);
    let q = h / d;
    if q % 2 == 0 {
        let r = q / 2;
        assert(h == r * (2 * d)) by (nonlinear_arith)
            requires
                h == d * q,
                q == 2 * r,
        ;
        vstd::arithmetic::div_mod::lemma_mod_multiples_basic(r, 2 * d);
    }
    if h % (2 * d) == 0 {
        vstd::arithmetic::div_mod::lemma_fundamental_div_mod(h, 2 * d);
        let r = h / (2 * d);
        assert(h == d * (2 * r) + 0) by (nonlinear_arith)
            requires
                h == (2 * d) * r,
        ;
        vstd::arithmetic::div_mod::lemma_fundamental_div_mod_converse(h, d, 2 * r, 0);
    }
}

/// A number in the block of `pow2(o)` units that starts at the multiple `h`
/// of `pow2(o)` has `h` as the start of its block.
pub proof fn lemma_block_start(j: int, h: int, o: nat)
    requires
        h % (pow2(o) as int) == 0,
        h <= j < h + pow2(o),
    ensures
        block_start(j, o) == h,
{
    let d = pow2(o) as int;
    lemma_pow2_pos(o);
    vstd::arithmetic::div_mod::lemma_fundamental_div_mod(h, d);
    let q = h / d;
    assert(j == q * d + (j - h)) by (nonlinear_arith)
        requires
            h == d * q,
    ;
    vstd::arithmetic::div_mod::lemma_fundamental_div_mod_converse(j, d, q, j - h);
}

/// A block and its buddy make up the block of the next order that holds them.
pub proof fn lemma_block_start_buddy(h: int, o: nat)
    requires
        h >= 0,
        h % (pow2(o) as int) == 0,
    ensures
        block_start(h, o + 1) == (if buddy_index(h, o) < h {
            buddy_index(h, o)
        } else {
            h
        }),
        block_start(buddy_index(h, o), o + 1) == block_start(h, o + 1),
        block_start(h, o + 1) % (pow2(o + 1) as int) == 0,
{
    let b = buddy_index(h, o);
    let lo = if b < h { b } else { h };
    lemma_buddy(h, o);
    lemma_pow2_double(o);
    lemma_block_start(h, lo, o + 1);
    lemma_block_start(b, lo, o + 1);
}

/// The blocks around a number grow with the order: the larger one starts
/// no later and ends no earlier.
pub proof fn lemma_block_nested(j: int, small: nat, big: nat)
    requires
        j >= 0,
        small <= big,
    ensures
        block_start(j, big) <= block_start(j, small),
        block_start(j, small) + pow2(small) <= block_start(j, big) + pow2(big),
{
    let ds = pow2(small) as int;
    let db = pow2(big) as int;
    lemma_pow2_pos(small);
    lemma_pow2_pos(big);
    let s = block_start(j, small);
    let b = block_start(j, big);
    vstd::arithmetic::div_mod::lemma_fundamental_div_mod(j, ds);
    vstd::arithmetic::div_mod::lemma_fundamental_div_mod(j, db);
    vstd::arithmetic::div_mod::lemma_mod_pos_bound(j, ds);
    vstd::arithmetic::div_mod::lemma_mod_pos_bound(j, db);
    vstd::arithmetic::div_mod::lemma_mod_multiples_basic(j / db, db);
    vstd::arithmetic::div_mod::lemma_mod_multiples_basic(j / ds, ds);
    assert(b == (j / db) * db) by (nonlinear_arith)
        requires
            b == db * (j / db),
    ;
    assert(s == (j / ds) * ds) by (nonlinear_arith)
        requires
            s == ds * (j / ds),
    ;
    // both ends of the large block are multiples of the small size
    lemma_aligned_weaken(b, big, small);
    vstd::arithmetic::div_mod::lemma_mod_self_0(db);
    lemma_aligned_weaken(db, big, small);
    vstd::arithmetic::div_mod::lemma_mod_adds(b, db, ds);
    if s < b {
        lemma_multiples_apart(s, b, ds);
    }
    if s < b + db {
        lemma_multiples_apart(s, b + db, ds);
    }
}

/// `n` is a power of two.
pub open spec fn is_power_of_two(n: int) -> bool {
    exists|e: nat| n == pow2(e)
}

/// A multiple of a power of two is a multiple of every power of two that
/// is not larger.
pub proof fn lemma_power_of_two_divides(x: int, big: nat, n: int)
    requires
        x % (pow2(big) as int) == 0,
        is_power_of_two(n),
        n <= pow2(big),
    ensures
        x % n == 0,
{
    let e = choose|e: nat| n == pow2(e);
    if e > big {
        lemma_pow2_strictly_increases(big, e);
    }
    lemma_aligned_weaken(x, big, e);
}

} // verus!
