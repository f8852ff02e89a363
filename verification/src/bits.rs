//! Word-level bit arithmetic: masks, truncation, field extraction, and the
//! rounding helper that sizes the word storage.

use vstd::prelude::*;

verus! {

use vstd::arithmetic::div_mod::lemma_basic_div;
use vstd::arithmetic::div_mod::lemma_div_is_ordered_by_denominator;
use vstd::arithmetic::div_mod::lemma_fundamental_div_mod;
use vstd::arithmetic::div_mod::lemma_fundamental_div_mod_converse;
use vstd::arithmetic::div_mod::lemma_small_mod;
use vstd::arithmetic::mul::lemma_mul_is_commutative;
use vstd::arithmetic::mul::lemma_mul_is_distributive_add;
use vstd::arithmetic::mul::lemma_mul_is_distributive_sub;
use vstd::arithmetic::power2::lemma2_to64;
use vstd::arithmetic::power2::lemma_pow2_adds;
use vstd::arithmetic::power2::lemma_pow2_pos;
use vstd::arithmetic::power2::pow2;
use vstd::bits::lemma_low_bits_mask_values;
use vstd::bits::lemma_u32_low_bits_mask_is_mod;
use vstd::bits::lemma_u32_pow2_no_overflow;
use vstd::bits::lemma_u32_shr_is_div;
use vstd::bits::low_bits_mask;

/// Number of bits in one storage word.
pub const WORD_BITS: usize = 32;

/// The `l`-bit mask `2^l - 1`, as a storage word.
pub open spec fn mask(l: nat) -> u32
    recommends
        l <= 32,
{
    low_bits_mask(l) as u32
}

/// The low `l` bits of `x`: the value `x mod 2^l`. This is what a write
/// stores when handed a value wider than the element width.
pub open spec fn trunc(x: u32, l: nat) -> u32
    recommends
        1 <= l <= 32,
{
    (x as nat % pow2(l)) as u32
}

/// The `l`-bit field of word `w` that starts at bit `off` (a field that lies
/// entirely within one word).
pub open spec fn extract1(w: u32, off: u32, m: u32) -> u32 {
    (w >> off) & m
}

/// The `l`-bit field whose low `32 - off` bits are the top bits of word `wa`
/// (starting at bit `off`) and whose remaining bits are the bottom bits of
/// the next word `wb`; `so == 32 - off`.
pub open spec fn extract2(wa: u32, wb: u32, off: u32, so: u32, m: u32) -> u32 {
    ((wa >> off) | (wb << so)) & m
}

/// The mask of the low `l` bits equals all-ones shifted right by `32 - l`.
pub proof fn lemma_mask_shifted(l: u32, sl: u32)
    requires
        1 <= l <= 32,
        l + sl == 32,
    ensures
        mask(l as nat) == !0u32 >> sl,
        mask(l as nat) == low_bits_mask(l as nat),
        low_bits_mask(l as nat) < pow2(l as nat),
{
    lemma_pow2_pos(l as nat);
    lemma_pow2_pos(sl as nat);
    lemma_pow2_adds(l as nat, sl as nat);
    lemma2_to64();
    if l == 32 {
        lemma_low_bits_mask_values();
        assert(!0u32 >> 0u32 == 0xffffffffu32) by (bit_vector);
        assert(!0u32 >> sl == 0xffffffffu32);
    } else {
        assert(!0u32 == 0xffffffffu32) by (bit_vector);
        lemma_u32_pow2_no_overflow(l as nat);
        lemma_u32_shr_is_div(0xffffffffu32, sl);
        // 2^32 - 1 == (2^l - 1) * 2^sl + (2^sl - 1), so the quotient by 2^sl
        // is exactly the mask.
        lemma_mul_is_distributive_sub(pow2(sl as nat) as int, pow2(l as nat) as int, 1);
        lemma_mul_is_commutative(pow2(sl as nat) as int, (pow2(l as nat) - 1) as int);
        lemma_mul_is_commutative(pow2(sl as nat) as int, pow2(l as nat) as int);
        lemma_fundamental_div_mod_converse(
            0xffffffff as int,
            pow2(sl as nat) as int,
            (pow2(l as nat) - 1) as int,
            (pow2(sl as nat) - 1) as int,
        );
    }
}

/// Masking with the low `l` bits is reduction modulo `2^l`.
pub proof fn lemma_trunc_mask(x: u32, l: u32)
    requires
        1 <= l <= 32,
    ensures
        x & mask(l as nat) == trunc(x, l as nat),
        trunc(x, l as nat) <= mask(l as nat),
        (trunc(x, l as nat) as nat) < pow2(l as nat),
        x <= mask(l as nat) ==> trunc(x, l as nat) == x,
    decreases l,
{
    lemma_pow2_pos(l as nat);
    lemma2_to64();
    if l == 32 {
        lemma_low_bits_mask_values();
        assert(x & 0xffffffffu32 == x) by (bit_vector);
        lemma_small_mod(x as nat, pow2(32));
    } else {
        lemma_u32_pow2_no_overflow(l as nat);
        lemma_u32_low_bits_mask_is_mod(x, l as nat);
        if x <= mask(l as nat) {
            lemma_small_mod(x as nat, pow2(l as nat));
        }
    }
}

/// Computes the mask of the low `l` bits of a word.
pub fn low_mask(l: usize) -> (m: u32)
    requires
        1 <= l <= 32,
    ensures
        m == mask(l as nat),
{
    let sl: u32 = (WORD_BITS - l) as u32;
    proof {
        lemma_mask_shifted(l as u32, sl);
    }
    !0u32 >> sl
}

/// `x / y` rounded towards the next whole number: `0` for `x == 0`, else
/// `ceil(x / y)`, computed as `1 + (x - 1) / y` to avoid any intermediate
/// overflow. The divisor must be nonzero; the callers in this crate always
/// pass the fixed word width.
pub fn div_round_up(x: usize, y: usize) -> (r: usize)
    requires
        1 <= y,
    ensures
        r == (x + y - 1) as int / y as int,
        y * r >= x,
        y * r < x + y,
        x == 0 ==> r == 0,
{
    if x > 0 {
        let q: usize = (x - 1) / y;
        proof {
            lemma_div_is_ordered_by_denominator(x - 1, 1, y as int);
            lemma_fundamental_div_mod(x - 1, y as int);
            // (x + y - 1) == (q + 1) * y + (x - 1) % y
            lemma_mul_is_distributive_add(y as int, q as int, 1);
            lemma_mul_is_commutative(y as int, q as int + 1);
            lemma_fundamental_div_mod_converse(
                x + y - 1,
                y as int,
                q as int + 1,
                (x - 1) as int % y as int,
            );
        }
        1 + q
    } else {
        proof {
            lemma_basic_div(y - 1, y as int);
        }
        0
    }
}

} // verus!
