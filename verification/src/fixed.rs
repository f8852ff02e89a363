//! The packed array itself: bit addressing, construction, indexed reads and
//! writes, and iteration.

use vstd::prelude::*;

verus! {

use crate::bits::div_round_up;
use crate::bits::extract1;
use crate::bits::extract2;
use crate::bits::lemma_mask_shifted;
use crate::bits::lemma_trunc_mask;
use crate::bits::low_mask;
use crate::bits::mask;
use crate::bits::trunc;
use crate::bits::WORD_BITS;

use vstd::arithmetic::power2::pow2;

use vstd::arithmetic::div_mod::lemma_div_is_ordered;
use vstd::arithmetic::div_mod::lemma_fundamental_div_mod;
use vstd::arithmetic::div_mod::lemma_fundamental_div_mod_converse;
use vstd::arithmetic::mul::lemma_mul_is_commutative;
use vstd::arithmetic::mul::lemma_mul_is_distributive_add;
use vstd::arithmetic::mul::lemma_mul_inequality;

/// Absolute position of the first bit of element `i`, for elements of `l`
/// bits: bit 0 is the least-significant bit of word 0, bit 32 the
/// least-significant bit of word 1, and so on.
pub open spec fn first_bit(i: nat, l: nat) -> int {
    (i * l) as int
}

/// Absolute position of the last bit of element `i`.
pub open spec fn last_bit(i: nat, l: nat) -> int {
    i * l + l - 1
}

/// Index of the word holding the first bit of element `i`.
pub open spec fn first_word(i: nat, l: nat) -> int {
    first_bit(i, l) / 32
}

/// Index of the word holding the last bit of element `i`; equal to
/// `first_word` or one past it.
pub open spec fn last_word(i: nat, l: nat) -> int {
    last_bit(i, l) / 32
}

/// Offset of the first bit of element `i` within its word.
pub open spec fn bit_off(i: nat, l: nat) -> int {
    first_bit(i, l) % 32
}

/// The value of element `i` as stored in the word sequence: its `l`-bit
/// field, read from one word or assembled from two adjacent ones.
pub open spec fn elem_of(words: Seq<u32>, l: nat, i: nat) -> u32
    recommends
        1 <= l <= 32,
        last_bit(i, l) < 32 * words.len(),
{
    let off: u32 = bit_off(i, l) as u32;
    if first_word(i, l) == last_word(i, l) {
        extract1(words[first_word(i, l)], off, mask(l))
    } else {
        extract2(
            words[first_word(i, l)],
            words[last_word(i, l)],
            off,
            (32 - bit_off(i, l)) as u32,
            mask(l),
        )
    }
}

/// How element `i`'s bit range sits in the word sequence: the element lies
/// in one word exactly when its offset leaves room for all `l` bits, and
/// otherwise straddles into the next word.
pub proof fn lemma_addressing(i: nat, l: nat)
    requires
        1 <= l <= 32,
    ensures
        32 * first_word(i, l) + bit_off(i, l) == first_bit(i, l),
        0 <= bit_off(i, l) < 32,
        last_bit(i, l) == first_bit(i, l) + l - 1,
        bit_off(i, l) + l <= 32 ==> last_word(i, l) == first_word(i, l) && last_bit(i, l) % 32
            == bit_off(i, l) + l - 1,
        bit_off(i, l) + l > 32 ==> last_word(i, l) == first_word(i, l) + 1 && last_bit(i, l) % 32
            == bit_off(i, l) + l - 33 && 1 <= bit_off(i, l),
{
    lemma_fundamental_div_mod(first_bit(i, l), 32);
    if bit_off(i, l) + l <= 32 {
        lemma_fundamental_div_mod_converse(
            last_bit(i, l),
            32,
            first_word(i, l),
            bit_off(i, l) + l - 1,
        );
    } else {
        lemma_fundamental_div_mod_converse(
            last_bit(i, l),
            32,
            first_word(i, l) + 1,
            bit_off(i, l) + l - 33,
        );
    }
}

/// An element whose bit range fits under the total bit count lies in words
/// below `nwords`.
pub proof fn lemma_word_index_bound(i: nat, l: nat, nwords: nat)
    requires
        1 <= l <= 32,
        (i + 1) * l <= 32 * nwords,
    ensures
        last_bit(i, l) < 32 * nwords,
        0 <= first_word(i, l) <= last_word(i, l) < nwords,
{
    lemma_mul_succ(i, l);
    lemma_div_is_ordered(last_bit(i, l), 32 * nwords - 1, 32);
    lemma_fundamental_div_mod_converse(32 * nwords - 1, 32, nwords as int - 1, 31);
    lemma_div_is_ordered(first_bit(i, l), last_bit(i, l), 32);
    vstd::arithmetic::div_mod::lemma_div_pos_is_pos(first_bit(i, l), 32);
}

// The bit-vector lemmas below justify one write step of the packing
// algorithm. `m` is always the element mask (`l` low bits set), `sl` its
// complementary shift (`l + sl == 32`). A write either rewrites the field
// at `off` within a single word, or splits the value between the top
// `32 - off` bits of one word and the low bits of the next. Each lemma says
// what one such updated word contributes to the field of the written
// element itself, or to a field that occupies a disjoint bit range.

/// Writing the field at `off` within one word stores exactly `x & m` there.
proof fn lemma_bv_single_self(w: u32, x: u32, m: u32, off: u32, l: u32, sl: u32)
    by (bit_vector)
    requires
        l + sl == 32,
        1 <= l,
        m == !0u32 >> sl,
        off + l <= 32,
    ensures
        extract1((w & !(m << off)) | ((x & m) << off), off, m) == x & m,
{
}

/// Writing the field at `off` within one word leaves a disjoint field of the
/// same word unchanged.
proof fn lemma_bv_single_other_single(w: u32, x: u32, m: u32, off: u32, l: u32, sl: u32, off2: u32)
    by (bit_vector)
    requires
        l + sl == 32,
        1 <= l,
        m == !0u32 >> sl,
        off + l <= 32,
        off2 + l <= 32,
        off2 + l <= off || off + l <= off2,
    ensures
        extract1((w & !(m << off)) | ((x & m) << off), off2, m) == extract1(w, off2, m),
{
}

/// Writing the field at `off` within one word leaves unchanged a straddling
/// field that ends in this word, in the bits below `off`.
proof fn lemma_bv_single_other_straddle_high(
    wa: u32,
    w: u32,
    x: u32,
    m: u32,
    off: u32,
    l: u32,
    sl: u32,
    off2: u32,
    so2: u32,
)
    by (bit_vector)
    requires
        l + sl == 32,
        1 <= l,
        m == !0u32 >> sl,
        off + l <= 32,
        off2 + so2 == 32,
        1 <= off2 <= 31,
        32 < off2 + l,
        off2 + l <= 32 + off,
    ensures
        extract2(wa, (w & !(m << off)) | ((x & m) << off), off2, so2, m) == extract2(
            wa,
            w,
            off2,
            so2,
            m,
        ),
{
}

/// Writing the field at `off` within one word leaves unchanged a straddling
/// field that starts in this word, in the bits at and above `off + l`.
proof fn lemma_bv_single_other_straddle_low(
    w: u32,
    wb: u32,
    x: u32,
    m: u32,
    off: u32,
    l: u32,
    sl: u32,
    off2: u32,
    so2: u32,
)
    by (bit_vector)
    requires
        l + sl == 32,
        1 <= l,
        m == !0u32 >> sl,
        off + l <= 32,
        off2 + so2 == 32,
        off2 <= 31,
        off + l <= off2,
    ensures
        extract2((w & !(m << off)) | ((x & m) << off), wb, off2, so2, m) == extract2(
            w,
            wb,
            off2,
            so2,
            m,
        ),
{
}

/// A straddling write stores exactly `x & m`: its low `32 - off` bits in the
/// top of the first word, the remaining `hb` bits at the bottom of the next.
proof fn lemma_bv_straddle_self(
    wa: u32,
    wb: u32,
    x: u32,
    m: u32,
    off: u32,
    so: u32,
    l: u32,
    sl: u32,
    hb: u32,
    sh: u32,
)
    by (bit_vector)
    requires
        l + sl == 32,
        l <= 32,
        m == !0u32 >> sl,
        off + so == 32,
        1 <= off <= 31,
        hb + sh == 32,
        1 <= hb,
        off + l == 32 + hb,
    ensures
        extract2(
            (wa & (!0u32 >> so)) | ((x & m) << off),
            (wb & !(!0u32 >> sh)) | ((x & m) >> so),
            off,
            so,
            m,
        ) == x & m,
{
}

/// The first half of a straddling write (which only touches bits at and
/// above `off`) leaves a field below `off` in the same word unchanged.
proof fn lemma_bv_straddle_low_other_single(
    w: u32,
    x: u32,
    m: u32,
    off: u32,
    so: u32,
    l: u32,
    sl: u32,
    off2: u32,
)
    by (bit_vector)
    requires
        l + sl == 32,
        1 <= l,
        m == !0u32 >> sl,
        off + so == 32,
        off <= 31,
        off2 + l <= off,
    ensures
        extract1((w & (!0u32 >> so)) | ((x & m) << off), off2, m) == extract1(w, off2, m),
{
}

/// The first half of a straddling write leaves unchanged a straddling field
/// that ends in this word, in the bits below `off`.
proof fn lemma_bv_straddle_low_other_straddle(
    wa: u32,
    w: u32,
    x: u32,
    m: u32,
    off: u32,
    so: u32,
    l: u32,
    sl: u32,
    off2: u32,
    so2: u32,
)
    by (bit_vector)
    requires
        l + sl == 32,
        1 <= l,
        l <= 32,
        m == !0u32 >> sl,
        off + so == 32,
        off <= 31,
        off2 + so2 == 32,
        1 <= off2 <= 31,
        32 < off2 + l,
        off2 + l <= 32 + off,
    ensures
        extract2(wa, (w & (!0u32 >> so)) | ((x & m) << off), off2, so2, m) == extract2(
            wa,
            w,
            off2,
            so2,
            m,
        ),
{
}

/// The second half of a straddling write (which only touches the low `hb`
/// bits) leaves a field at and above `hb` in the same word unchanged.
proof fn lemma_bv_straddle_high_other_single(
    w: u32,
    x: u32,
    m: u32,
    so: u32,
    l: u32,
    sl: u32,
    hb: u32,
    sh: u32,
    off2: u32,
)
    by (bit_vector)
    requires
        l + sl == 32,
        1 <= l,
        m == !0u32 >> sl,
        hb + sh == 32,
        1 <= so <= 31,
        so + hb == l,
        hb <= off2,
        off2 + l <= 32,
    ensures
        extract1((w & !(!0u32 >> sh)) | ((x & m) >> so), off2, m) == extract1(w, off2, m),
{
}

/// The second half of a straddling write leaves unchanged a straddling field
/// that starts in this word, at and above `hb`.
proof fn lemma_bv_straddle_high_other_straddle(
    w: u32,
    wc: u32,
    x: u32,
    m: u32,
    so: u32,
    l: u32,
    sl: u32,
    hb: u32,
    sh: u32,
    off2: u32,
    so2: u32,
)
    by (bit_vector)
    requires
        l + sl == 32,
        1 <= l,
        m == !0u32 >> sl,
        hb + sh == 32,
        1 <= so <= 31,
        so + hb == l,
        hb <= off2,
        off2 <= 31,
        off2 + so2 == 32,
    ensures
        extract2((w & !(!0u32 >> sh)) | ((x & m) >> so), wc, off2, so2, m) == extract2(
            w,
            wc,
            off2,
            so2,
            m,
        ),
{
}

/// Any extracted field is bounded by the mask.
proof fn lemma_bv_and_le(y: u32, m: u32)
    by (bit_vector)
    ensures
        y & m <= m,
{
}

/// `(a + 1) * b == a * b + b`.
pub proof fn lemma_mul_succ(a: nat, b: nat)
    ensures
        (a + 1) * b == a * b + b,
{
    lemma_mul_is_commutative(a as int + 1, b as int);
    lemma_mul_is_distributive_add(b as int, a as int, 1);
    lemma_mul_is_commutative(a as int, b as int);
}

/// Writes `x`, reduced to its low `l` bits, into the bit range of element
/// `i` of the word sequence, leaving the bit range of every other element
/// untouched.
#[verifier::rlimit(60)]
fn set_bits(words: &mut Vec<u32>, l: usize, i: usize, x: u32)
    requires
        1 <= l <= 32,
        (i + 1) * l <= 32 * old(words)@.len(),
        (i + 1) * l <= usize::MAX,
    ensures
        final(words)@.len() == old(words)@.len(),
        elem_of(final(words)@, l as nat, i as nat) == trunc(x, l as nat),
        forall|q: nat|
            q != i as nat && (q + 1) * (l as nat) <= 32 * final(words)@.len()
                ==> #[trigger] elem_of(final(words)@, l as nat, q) == elem_of(
                old(words)@,
                l as nat,
                q,
            ),
{
    proof {
        lemma_mul_succ(i as nat, l as nat);
        lemma_addressing(i as nat, l as nat);
        lemma_word_index_bound(i as nat, l as nat, old(words)@.len() as nat);
    }
    let j: usize = i * l;
    let k: usize = j + l - 1;
    let fw: usize = j / 32;
    let lw: usize = k / 32;
    let off: u32 = (j % 32) as u32;
    let m: u32 = low_mask(l);
    let t: u32 = x & m;
    let ghost sl: u32 = (32 - l) as u32;
    proof {
        lemma_trunc_mask(x, l as u32);
        lemma_mask_shifted(l as u32, sl);
        assert(j == first_bit(i as nat, l as nat));
        assert(k == last_bit(i as nat, l as nat));
        assert(fw as int == first_word(i as nat, l as nat));
        assert(lw as int == last_word(i as nat, l as nat));
        assert(off as int == bit_off(i as nat, l as nat));
    }
    if fw == lw {
        let w0: u32 = words[fw];
        let nw0: u32 = (w0 & !(m << off)) | (t << off);
        words[fw] = nw0;
        proof {
            lemma_bv_single_self(w0, x, m, off, l as u32, sl);
            assert forall|q: nat|
                q != i as nat && (q + 1) * (l as nat) <= 32 * words@.len() implies #[trigger] elem_of(
                words@,
                l as nat,
                q,
            ) == elem_of(old(words)@, l as nat, q) by {
                lemma_mul_succ(q, l as nat);
                lemma_addressing(q, l as nat);
                lemma_word_index_bound(q, l as nat, words@.len() as nat);
                let fwq: int = first_word(q, l as nat);
                let lwq: int = last_word(q, l as nat);
                let offq: u32 = bit_off(q, l as nat) as u32;
                let soq: u32 = (32 - bit_off(q, l as nat)) as u32;
                if q < i as nat {
                    lemma_mul_inequality(q as int + 1, i as int, l as int);
                    if off >= 1 {
                        lemma_fundamental_div_mod_converse(
                            32 * fw + off - 1,
                            32,
                            fw as int,
                            off - 1,
                        );
                    } else {
                        lemma_fundamental_div_mod_converse(32 * fw - 1, 32, fw as int - 1, 31);
                    }
                    lemma_div_is_ordered(last_bit(q, l as nat), 32 * fw + off - 1, 32);
                    if lwq == fw as int {
                        if fwq == lwq {
                            lemma_bv_single_other_single(w0, x, m, off, l as u32, sl, offq);
                        } else {
                            lemma_bv_single_other_straddle_high(
                                old(words)@[fwq],
                                w0,
                                x,
                                m,
                                off,
                                l as u32,
                                sl,
                                offq,
                                soq,
                            );
                        }
                    }
                } else {
                    lemma_mul_inequality(i as int + 1, q as int, l as int);
                    lemma_fundamental_div_mod_converse(32 * fw, 32, fw as int, 0);
                    lemma_div_is_ordered(32 * fw, first_bit(q, l as nat), 32);
                    if fwq == fw as int {
                        if fwq == lwq {
                            lemma_bv_single_other_single(w0, x, m, off, l as u32, sl, offq);
                        } else {
                            lemma_bv_single_other_straddle_low(
                                w0,
                                old(words)@[lwq],
                                x,
                                m,
                                off,
                                l as u32,
                                sl,
                                offq,
                                soq,
                            );
                        }
                    }
                }
            };
        }
    } else {
        let so: u32 = 32 - off;
        let hb: u32 = (l as u32) - so;
        let sh: u32 = 32 - hb;
        let w0: u32 = words[fw];
        let nw0: u32 = (w0 & (!0u32 >> so)) | (t << off);
        words[fw] = nw0;
        let w1: u32 = words[lw];
        let nw1: u32 = (w1 & !(!0u32 >> sh)) | (t >> so);
        words[lw] = nw1;
        proof {
            lemma_bv_straddle_self(w0, w1, x, m, off, so, l as u32, sl, hb, sh);
            assert forall|q: nat|
                q != i as nat && (q + 1) * (l as nat) <= 32 * words@.len() implies #[trigger] elem_of(
                words@,
                l as nat,
                q,
            ) == elem_of(old(words)@, l as nat, q) by {
                lemma_mul_succ(q, l as nat);
                lemma_addressing(q, l as nat);
                lemma_word_index_bound(q, l as nat, words@.len() as nat);
                let fwq: int = first_word(q, l as nat);
                let lwq: int = last_word(q, l as nat);
                let offq: u32 = bit_off(q, l as nat) as u32;
                let soq: u32 = (32 - bit_off(q, l as nat)) as u32;
                if q < i as nat {
                    lemma_mul_inequality(q as int + 1, i as int, l as int);
                    lemma_fundamental_div_mod_converse(32 * fw + off - 1, 32, fw as int, off - 1);
                    lemma_div_is_ordered(last_bit(q, l as nat), 32 * fw + off - 1, 32);
                    if lwq == fw as int {
                        if fwq == lwq {
                            lemma_bv_straddle_low_other_single(
                                w0,
                                x,
                                m,
                                off,
                                so,
                                l as u32,
                                sl,
                                offq,
                            );
                        } else {
                            lemma_bv_straddle_low_other_straddle(
                                old(words)@[fwq],
                                w0,
                                x,
                                m,
                                off,
                                so,
                                l as u32,
                                sl,
                                offq,
                                soq,
                            );
                        }
                    }
                } else {
                    lemma_mul_inequality(i as int + 1, q as int, l as int);
                    lemma_fundamental_div_mod_converse(32 * lw, 32, lw as int, 0);
                    lemma_div_is_ordered(32 * lw, first_bit(q, l as nat), 32);
                    if fwq == lw as int {
                        if fwq == lwq {
                            lemma_bv_straddle_high_other_single(
                                w1,
                                x,
                                m,
                                so,
                                l as u32,
                                sl,
                                hb,
                                sh,
                                offq,
                            );
                        } else {
                            lemma_bv_straddle_high_other_straddle(
                                w1,
                                old(words)@[lwq],
                                x,
                                m,
                                so,
                                l as u32,
                                sl,
                                hb,
                                sh,
                                offq,
                                soq,
                            );
                        }
                    }
                }
            };
        }
    }
}

/// The word storage sized by rounding up to whole words covers every bit of
/// the packed elements.
proof fn lemma_words_cover(bits: nat)
    ensures
        32 * ((bits + 31) / 32) >= bits,
{
    lemma_fundamental_div_mod(bits as int + 31, 32);
}

/// The failure that `get` and `set` report when the index is not below the
/// array's length.
#[derive(Clone, Copy, Debug, PartialEq, Eq, Structural)]
pub struct IndexOutOfBounds;

/// A bit-packed array: `len` unsigned elements of exactly `elem_bits` bits
/// each, packed back to back, little-endian, into a flat vector of 32-bit
/// words. The width is fixed at construction; the storage holds exactly
/// enough words for `len * elem_bits` bits.
#[derive(Debug)]
pub struct Array {
    storage: Vec<u32>,
    len: usize,
    elem_bits: usize,
}

impl View for Array {
    type V = Seq<u32>;

    /// The logical contents: the decoded element at every index.
    closed spec fn view(&self) -> Seq<u32> {
        Seq::new(
            self.len as nat,
            |q: int| elem_of(self.storage@, self.elem_bits as nat, q as nat),
        )
    }
}

impl Array {
    /// Bits per element.
    pub closed spec fn width(&self) -> usize {
        self.elem_bits
    }

    /// Well-formedness: the element width is a valid bit count, the total
    /// bit count fits the machine, and the storage holds exactly the words
    /// needed for `len` elements of `width` bits.
    pub closed spec fn wf(&self) -> bool {
        &&& 1 <= self.elem_bits <= 32
        &&& self.len * self.elem_bits <= usize::MAX
        &&& self.storage@.len() == (self.len * self.elem_bits + 31) / 32
    }

    /// A well-formed array has a width between 1 and the word width.
    pub proof fn lemma_wf_width(&self)
        requires
            self.wf(),
        ensures
            1 <= self.width() <= 32,
            self@.len() * self.width() <= usize::MAX,
    {
    }

    /// Builds a packed array holding the values of `values`, each reduced
    /// to its low `elem_bits` bits, in order. Allocates exactly enough
    /// words to hold `values.len() * elem_bits` bits, so an empty input
    /// allocates no words at all.
    pub fn from_vec(elem_bits: usize, values: &Vec<u32>) -> (a: Array)
        requires
            1 <= elem_bits <= 32,
            values@.len() * elem_bits <= usize::MAX,
        ensures
            a.wf(),
            a.width() == elem_bits,
            a@.len() == values@.len(),
            forall|q: int|
                0 <= q < values@.len() ==> a@[q] == trunc(values@[q], elem_bits as nat),
    {
        let n: usize = values.len();
        let total_bits: usize = n * elem_bits;
        let cap: usize = div_round_up(total_bits, WORD_BITS);
        let mut storage: Vec<u32> = Vec::new();
        while storage.len() < cap
            invariant
                storage@.len() <= cap,
            decreases cap - storage@.len(),
        {
            storage.push(0u32);
        }
        let mut idx: usize = 0;
        while idx < n
            invariant
                idx <= n,
                n == values@.len(),
                1 <= elem_bits <= 32,
                total_bits == n * elem_bits,
                total_bits <= usize::MAX,
                storage@.len() == cap,
                cap == (total_bits + 31) / 32,
                forall|q: nat|
                    q < idx as nat ==> #[trigger] elem_of(storage@, elem_bits as nat, q) == trunc(
                        values@[q as int],
                        elem_bits as nat,
                    ),
            decreases n - idx,
        {
            proof {
                lemma_mul_succ(idx as nat, elem_bits as nat);
                lemma_mul_inequality(idx as int + 1, n as int, elem_bits as int);
                lemma_words_cover(total_bits as nat);
            }
            set_bits(&mut storage, elem_bits, idx, values[idx]);
            proof {
                assert forall|q: nat| q < idx as nat + 1 implies #[trigger] elem_of(
                    storage@,
                    elem_bits as nat,
                    q,
                ) == trunc(values@[q as int], elem_bits as nat) by {
                    if q < idx as nat {
                        lemma_mul_succ(q, elem_bits as nat);
                        lemma_mul_inequality(q as int + 1, n as int, elem_bits as int);
                    }
                };
            }
            idx += 1;
        }
        Array { storage, len: n, elem_bits }
    }

    /// Number of elements.
    pub fn len(&self) -> (n: usize)
        ensures
            n == self@.len(),
    {
        self.len
    }

    /// Reads element `i`: the value stored in its bit range, widened to a
    /// word. Fails if and only if `i` is out of bounds.
    pub fn get(&self, i: usize) -> (r: Result<u32, IndexOutOfBounds>)
        requires
            self.wf(),
        ensures
            i < self@.len() ==> r == Ok::<u32, IndexOutOfBounds>(self@[i as int]),
            i >= self@.len() ==> r == Err::<u32, IndexOutOfBounds>(IndexOutOfBounds),
    {
        if i >= self.len {
            return Err(IndexOutOfBounds);
        }
        let l: usize = self.elem_bits;
        proof {
            lemma_mul_succ(i as nat, l as nat);
            lemma_mul_inequality(i as int + 1, self.len as int, l as int);
            lemma_words_cover((self.len * l) as nat);
            lemma_addressing(i as nat, l as nat);
            lemma_word_index_bound(i as nat, l as nat, self.storage@.len() as nat);
        }
        let j: usize = i * l;
        let k: usize = j + l - 1;
        let fw: usize = j / 32;
        let lw: usize = k / 32;
        let off: u32 = (j % 32) as u32;
        let m: u32 = low_mask(l);
        let r: u32 = if fw == lw {
            (self.storage[fw] >> off) & m
        } else {
            let so: u32 = 32 - off;
            ((self.storage[fw] >> off) | (self.storage[lw] << so)) & m
        };
        Ok(r)
    }

    /// Writes value `x` at index `i`, keeping only its low `width` bits;
    /// every other element keeps its value exactly. Fails if and only if
    /// `i` is out of bounds, in which case nothing is changed.
    pub fn set(&mut self, i: usize, x: u32) -> (r: Result<(), IndexOutOfBounds>)
        requires
            old(self).wf(),
        ensures
            final(self).wf(),
            final(self).width() == old(self).width(),
            i < old(self)@.len() ==> r == Ok::<(), IndexOutOfBounds>(())
                && final(self)@ == old(self)@.update(i as int, trunc(x, old(self).width() as nat)),
            i >= old(self)@.len() ==> r == Err::<(), IndexOutOfBounds>(IndexOutOfBounds)
                && *final(self) == *old(self),
    {
        if i >= self.len {
            return Err(IndexOutOfBounds);
        }
        let l: usize = self.elem_bits;
        proof {
            lemma_mul_succ(i as nat, l as nat);
            lemma_mul_inequality(i as int + 1, self.len as int, l as int);
            lemma_words_cover((self.len * l) as nat);
        }
        set_bits(&mut self.storage, l, i, x);
        proof {
            assert forall|q: int| 0 <= q < self.len implies self@[q] == old(self)@.update(
                i as int,
                trunc(x, l as nat),
            )[q] by {
                if q != i {
                    lemma_mul_succ(q as nat, l as nat);
                    lemma_mul_inequality(q + 1, self.len as int, l as int);
                }
            };
            assert(self@ =~= old(self)@.update(i as int, trunc(x, l as nat)));
        }
        Ok(())
    }

    /// Starts a fresh iteration over all elements, in index order.
    pub fn iter(&self) -> (it: Iter<'_>)
        requires
            self.wf(),
        ensures
            it.wf(),
            it.elements() == self@,
            it.pos() == 0,
    {
        Iter { array: self, index: 0 }
    }
}

/// A forward iterator over the decoded elements of an `Array`. It borrows
/// the array read-only; a fresh call of `iter` restarts from index 0 and
/// yields the same sequence again.
pub struct Iter<'a> {
    array: &'a Array,
    index: usize,
}

impl<'a> Iter<'a> {
    /// The elements the iteration walks over.
    pub closed spec fn elements(&self) -> Seq<u32> {
        self.array@
    }

    /// Position of the next element to yield.
    pub closed spec fn pos(&self) -> usize {
        self.index
    }

    /// Well-formedness: the borrowed array is well-formed and the position
    /// never runs past the end.
    pub closed spec fn wf(&self) -> bool {
        self.array.wf() && self.index as int <= self.array@.len()
    }

    /// Yields the element at the current position and advances past it, or
    /// returns `None`, without moving, once all elements have been yielded:
    /// the exhausted state is stable.
    pub fn next(&mut self) -> (r: Option<u32>)
        requires
            old(self).wf(),
        ensures
            final(self).wf(),
            final(self).elements() == old(self).elements(),
            old(self).pos() < old(self).elements().len() ==> r == Some(
                old(self).elements()[old(self).pos() as int],
            ) && final(self).pos() == old(self).pos() + 1,
            old(self).pos() >= old(self).elements().len() ==> r == None::<u32> && final(self).pos()
                == old(self).pos(),
    {
        if self.index == self.array.len() {
            None
        } else {
            let i: usize = self.index;
            self.index = i + 1;
            match self.array.get(i) {
                Ok(v) => Some(v),
                Err(_) => None,
            }
        }
    }
}

/// Round-trip law for construction: an array built from `values` holds, as
/// `from_vec` ensures, the input values reduced modulo 2^width, index for
/// index — so a read at any index, which `get` promises to return from the
/// array's contents, yields exactly the reduced input value.
pub proof fn lemma_construction_round_trip(a: Array, values: Seq<u32>, q: int)
    requires
        a.wf(),
        a@.len() == values.len(),
        forall|r: int| 0 <= r < values.len() ==> a@[r] == trunc(values[r], a.width() as nat),
        0 <= q < values.len(),
    ensures
        a@[q] == trunc(values[q], a.width() as nat),
{
}

/// Round-trip law: a write of `v` at a valid index `i` stores `v` reduced
/// modulo 2^width, as `set`'s contract states, and a read of index `i`
/// afterwards yields exactly that stored value.
pub proof fn lemma_set_get_round_trip(a0: Array, a1: Array, i: int, v: u32)
    requires
        a0.wf(),
        0 <= i < a0@.len(),
        a1@ == a0@.update(i, trunc(v, a0.width() as nat)),
    ensures
        a1@[i] == trunc(v, a0.width() as nat),
{
}

/// Write isolation law: a write at index `i` leaves the value read at every
/// other index unchanged.
pub proof fn lemma_write_isolation(a0: Array, a1: Array, i: int, j: int, v: u32)
    requires
        a0.wf(),
        0 <= i < a0@.len(),
        0 <= j < a0@.len(),
        i != j,
        a1@ == a0@.update(i, trunc(v, a0.width() as nat)),
    ensures
        a1@[j] == a0@[j],
{
}

/// Truncation law: what a write stores is the written value reduced modulo
/// 2^width; a value already in range is stored unchanged.
pub proof fn lemma_trunc_mod(x: u32, l: nat)
    requires
        1 <= l <= 32,
    ensures
        trunc(x, l) as nat == x as nat % pow2(l),
        (x as nat) < pow2(l) ==> trunc(x, l) == x,
        (trunc(x, l) as nat) < pow2(l),
{
    lemma_trunc_mask(x, l as u32);
    lemma_mask_shifted(l as u32, (32 - l) as u32);
}

/// Every element of a well-formed array fits in its width: reads never
/// return a value at or above 2^width.
pub proof fn lemma_elements_bounded(a: Array, q: int)
    requires
        a.wf(),
        0 <= q < a@.len(),
    ensures
        (a@[q] as nat) < pow2(a.width() as nat),
{
    let l: nat = a.width() as nat;
    lemma_addressing(q as nat, l);
    lemma_mask_shifted(l as u32, (32 - l) as u32);
    if first_word(q as nat, l) == last_word(q as nat, l) {
        lemma_bv_and_le(
            a.storage@[first_word(q as nat, l)] >> (bit_off(q as nat, l) as u32),
            mask(l),
        );
    } else {
        lemma_bv_and_le(
            (a.storage@[first_word(q as nat, l)] >> (bit_off(q as nat, l) as u32)) | (
            a.storage@[last_word(q as nat, l)] << ((32 - bit_off(q as nat, l)) as u32)),
            mask(l),
        );
    }
}

} // verus!
