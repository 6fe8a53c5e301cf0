//! Prefix masks over 32-bit addresses, stated arithmetically: a prefix of
//! length `p` leaves `32 - p` host bits, so its block holds `2^(32-p)` addresses.
use vstd::prelude::*;
use vstd::arithmetic::power2::{pow2, lemma_pow2_pos, lemma_pow2_unfold, lemma2_to64};
use vstd::bits::{low_bits_mask, lemma_u32_low_bits_mask_is_mod, lemma_u32_shl_is_mul, lemma_u32_pow2_no_overflow};

verus! {

/// Number of host bits left by a prefix of length `prefix`.
pub open spec fn host_bits(prefix: nat) -> nat {
    (32 - prefix) as nat
}

/// The mask with the top `prefix` bits set, as an integer.
pub open spec fn mask_value(prefix: nat) -> int {
    pow2(32) - pow2(host_bits(prefix))
}

/// The first address of the block of `2^h` addresses that holds `addr`.
pub open spec fn block_start(addr: int, h: nat) -> int {
    addr - addr % (pow2(h) as int)
}

/// Whether `addr` is the first address of a block of `2^h` addresses.
pub open spec fn aligned(addr: int, h: nat) -> bool {
    addr % (pow2(h) as int) == 0
}

/// The mask with the top `prefix` bits set and the others clear.
pub fn make_mask(prefix: u8) -> (r: u32)
    requires
        prefix <= 32,
    ensures
        r as int == mask_value(prefix as nat),
{
    proof {
        lemma2_to64();
    }
    if prefix == 0 {
        return 0;
    }
    let mask: u32 = 0xffffffff;
    if prefix < 32 {
        let n: u32 = (32 - prefix) as u32;
        let r = (mask >> n) << n;
        proof {
            lemma_mask_is_complement_of_low(n);
        }
        return r;
    }
    mask
}

/// `ip` with its host bits cleared: the first address of its subnet.
pub fn mask_ipaddr(ip: u32, prefix: u8) -> (r: u32)
    requires
        prefix <= 32,
    ensures
        r as int == block_start(ip as int, host_bits(prefix as nat)),
{
    let m = make_mask(prefix);
    proof {
        lemma_mask_bounds(ip, prefix, m);
    }
    ip & m
}

/// `(0xffffffff >> n) << n` is `2^32 - 2^n`.
proof fn lemma_mask_is_complement_of_low(n: u32)
    requires
        0 < n < 32,
    ensures
        ((0xffffffffu32 >> n) << n) as int == pow2(32) - pow2(n as nat),
{
    lemma2_to64();
    lemma_u32_pow2_no_overflow(n as nat);
    lemma_u32_shl_is_mul(1, n);
    assert(((0xffffffffu32 >> n) << n) + ((1u32 << n) - 1) == 0xffffffff) by (bit_vector)
        requires
            0 < n < 32,
    ;
}

/// Masking an address keeps the first address of its block, and setting the
/// host bits of that gives the last one.
pub proof fn lemma_mask_bounds(x: u32, prefix: u8, m: u32)
    requires
        prefix <= 32,
        m as int == mask_value(prefix as nat),
    ensures
        (x & m) as int == block_start(x as int, host_bits(prefix as nat)),
        ((x & m) | !m) as int == (x & m) as int + pow2(host_bits(prefix as nat)) - 1,
{
    lemma2_to64();
    let h = host_bits(prefix as nat);
    if prefix == 0 {
        assert(m == 0);
        assert(x & 0 == 0 && (0u32 | !0u32) == 0xffffffff) by (bit_vector);
        assert(x as int % 0x1_0000_0000 == x as int);
    } else if prefix == 32 {
        assert(m == 0xffffffff);
        assert(x & 0xffffffff == x && (x | !0xffffffffu32) == x) by (bit_vector);
    } else {
        let n: u32 = (32 - prefix) as u32;
        lemma_u32_pow2_no_overflow(n as nat);
        lemma_u32_shl_is_mul(1, n);
        let low: u32 = ((1u32 << n) - 1) as u32;
        assert(low as nat == low_bits_mask(n as nat));
        lemma_u32_low_bits_mask_is_mod(x, n as nat);
        assert(!low + low == 0xffffffff) by (bit_vector);
        assert(m == !low);
        assert((x & !low) + (x & low) == x && (x & !low) | !!low == (x & !low) + low)
            by (bit_vector);
    }
}

/// The number of trailing zero bits of `ip`, capped at 32: the largest `i <= 32`
/// such that `ip` is a multiple of `2^i`.
pub fn count_suffix_zero_bits(ip: u64) -> (r: u8)
    ensures
        r <= 32,
        aligned(ip as int, r as nat),
        r < 32 ==> !aligned(ip as int, (r + 1) as nat),
{
    let mut i: u8 = 0;
    let mut v: u64 = ip;
    proof {
        lemma2_to64();
    }
    while i < 32 && (v & 0x1) == 0x0
        invariant
            i <= 32,
            ip as int == v as int * pow2(i as nat),
        decreases 32 - i,
    {
        proof {
            assert((v & 1 == 0) == (v % 2 == 0) && v >> 1 == v / 2) by (bit_vector);
            lemma_pow2_unfold((i + 1) as nat);
            assert(v as int == (v / 2) as int * 2);
            vstd::arithmetic::mul::lemma_mul_is_associative((v / 2) as int, 2, pow2(i as nat) as int);
        }
        i = i + 1;
        v = v >> 1;
    }
    proof {
        lemma_pow2_pos(i as nat);
        vstd::arithmetic::div_mod::lemma_mod_multiples_basic(v as int, pow2(i as nat) as int);
        if i < 32 {
            assert((v & 1 == 0) == (v % 2 == 0)) by (bit_vector);
            lemma_odd_times_pow2(v as int, i as nat);
        }
    }
    i
}

/// The first address of a block is aligned to the block's size.
pub proof fn lemma_block_start_aligned(x: int, h: nat)
    requires
        x >= 0,
    ensures
        aligned(block_start(x, h), h),
        0 <= x - block_start(x, h) < pow2(h),
{
    lemma_pow2_pos(h);
    let m = pow2(h) as int;
    vstd::arithmetic::div_mod::lemma_fundamental_div_mod(x, m);
    vstd::arithmetic::div_mod::lemma_mod_multiples_basic(x / m, m);
    vstd::arithmetic::mul::lemma_mul_is_commutative(m, x / m);
}

/// Alignment to `2^h` gives alignment to every smaller power of two.
pub proof fn lemma_aligned_smaller(x: int, g: nat, h: nat)
    requires
        aligned(x, h),
        g <= h,
    ensures
        aligned(x, g),
    decreases h - g,
{
    if g < h {
        lemma_pow2_unfold(h);
        lemma_pow2_pos((h - 1) as nat);
        let p = pow2((h - 1) as nat) as int;
        vstd::arithmetic::div_mod::lemma_fundamental_div_mod(x, 2 * p);
        let k = x / (2 * p);
        assert(x == p * (2 * k)) by (nonlinear_arith)
            requires
                x == (2 * p) * k + 0,
        ;
        vstd::arithmetic::div_mod::lemma_mod_multiples_basic(2 * k, p);
        vstd::arithmetic::mul::lemma_mul_is_commutative(p, 2 * k);
        lemma_aligned_smaller(x, g, (h - 1) as nat);
    }
}

/// An odd multiple of `2^i` is not a multiple of `2^(i+1)`.
proof fn lemma_odd_times_pow2(v: int, i: nat)
    requires
        v % 2 == 1,
        v >= 0,
    ensures
        !aligned(v * pow2(i), i + 1),
{
    lemma_pow2_unfold(i + 1);
    lemma_pow2_pos(i);
    let p = pow2(i) as int;
    if (v * p) % (2 * p) == 0 {
        let k = (v * p) / (2 * p);
        vstd::arithmetic::div_mod::lemma_fundamental_div_mod(v * p, 2 * p);
        assert(p * v == p * (2 * k)) by (nonlinear_arith)
            requires
                v * p == (2 * p) * k,
        ;
        vstd::arithmetic::mul::lemma_mul_equality_converse(p, v, 2 * k);
        assert(v == 2 * k);
    }
}

} // verus!
