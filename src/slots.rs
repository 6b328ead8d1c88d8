//! Low bits of a hash: which directory entry, and which bucket signature,
//! a hash falls under.
use vstd::arithmetic::div_mod::{lemma_mod_mod, lemma_mod_pos_bound, lemma_mod_sub_multiples_vanish, lemma_small_mod};
use vstd::arithmetic::power2::{lemma_pow2_adds, lemma_pow2_pos, lemma_pow2_unfold, pow2};
use vstd::bits::{lemma_u64_pow2_no_overflow, lemma_u64_shl_is_mul};
use vstd::prelude::*;

verus! {

/// The low `l` bits of `x`.
pub open spec fn low_bits(x: int, l: nat) -> int {
    x % (pow2(l) as int)
}

/// Low bits of low bits are the low bits of the narrower width.
pub proof fn lemma_low_bits_nest(x: int, l: nat, g: nat)
    requires
        0 <= x,
        l <= g,
    ensures
        low_bits(low_bits(x, g), l) == low_bits(x, l),
{
    let d = (g - l) as nat;
    lemma_pow2_adds(l, d);
    assert(l + d == g);
    lemma_pow2_pos(l);
    lemma_pow2_pos(d);
    lemma_mod_mod(x, pow2(l) as int, pow2(d) as int);
}

/// One more bit either leaves the low bits as they were or adds `2^l`.
pub proof fn lemma_low_bits_step(x: int, l: nat)
    requires
        0 <= x,
    ensures
        0 <= low_bits(x, l) < pow2(l),
        0 <= low_bits(x, l + 1) < pow2(l + 1),
        pow2(l + 1) == 2 * pow2(l),
        low_bits(x, l + 1) == low_bits(x, l) || low_bits(x, l + 1) == low_bits(x, l) + pow2(l),
{
    let p = pow2(l) as int;
    lemma_pow2_pos(l);
    lemma_pow2_unfold(l + 1);
    assert((l + 1 - 1) as nat == l);
    lemma_low_bits_nest(x, l, l + 1);
    let q = low_bits(x, l + 1);
    lemma_mod_pos_bound(x, 2 * p);
    lemma_mod_pos_bound(x, p);
    if q < p {
        lemma_small_mod(q as nat, p as nat);
    } else {
        lemma_small_mod((q - p) as nat, p as nat);
        lemma_mod_sub_multiples_vanish(q, p);
    }
}

/// A value below `2^l` is its own low `l` bits.
pub proof fn lemma_low_bits_small(x: int, l: nat)
    requires
        0 <= x < pow2(l),
    ensures
        low_bits(x, l) == x,
{
    lemma_pow2_pos(l);
    lemma_small_mod(x as nat, pow2(l));
}

/// `2^l` as a 64-bit integer.
pub fn pow2_u64(l: u8) -> (r: u64)
    requires
        l < 64,
    ensures
        r == pow2(l as nat),
{
    proof {
        lemma_u64_pow2_no_overflow(l as nat);
        lemma_u64_shl_is_mul(1, l as u64);
    }
    1u64 << (l as u64)
}

/// The low `l` bits of `h`.
pub fn low_bits_u64(h: u64, l: u8) -> (r: u64)
    requires
        l < 64,
    ensures
        r == low_bits(h as int, l as nat),
        r < pow2(l as nat),
{
    let p = pow2_u64(l);
    proof {
        lemma_pow2_pos(l as nat);
        lemma_mod_pos_bound(h as int, p as int);
    }
    h % p
}

} // verus!
