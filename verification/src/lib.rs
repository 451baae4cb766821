//! Exact arithmetic in binary extension fields GF(2^m).
//!
//! Elements are polynomials over GF(2) held as fixed-length limb arrays.
//! `widening_clmul` multiplies two words carrylessly; `ExtField2` is the
//! multi-limb polynomial with XOR addition and schoolbook widening
//! multiplication; `wide` adds the double-width polynomial with Euclidean
//! division and modular inversion; `gf2` composes concrete fields.
use vstd::prelude::*;

pub mod model;
pub mod gf2;
pub mod wide;

verus! {

use crate::model::{
    coeff, conv_term, is_pone, is_pzero, limbs_poly, pair_poly, pmul, pmul_coeff, pxor,
    school_row, school_rows, wide_word_poly, word_bit, word_poly, xorsum,
};

/// The base limb unit: 16 GF(2) coefficients per word.
pub type Word = u16;

// ---------------------------------------------------------------------------
// Word-level bit facts (proved by bit blasting)
// ---------------------------------------------------------------------------

pub proof fn lemma_word_xor_bits(x: u16, y: u16)
    by (bit_vector)
    ensures
        forall|i: u16|
            i < 16 ==> #[trigger] word_bit(x ^ y, i) == (word_bit(x, i) != word_bit(y, i)),
{
}

pub proof fn lemma_word_not_bits(x: u16)
    by (bit_vector)
    ensures
        forall|i: u16| i < 16 ==> #[trigger] word_bit(!x, i) == !word_bit(x, i),
{
}

pub proof fn lemma_word_zero_bits()
    by (bit_vector)
    ensures
        forall|i: u16| !#[trigger] word_bit(0u16, i),
{
}

pub proof fn lemma_word_one_bits()
    by (bit_vector)
    ensures
        forall|i: u16| #[trigger] word_bit(1u16, i) == (i == 0),
{
}

pub proof fn lemma_word_test_bit(b: u16, i: u16)
    by (bit_vector)
    requires
        i < 16,
    ensures
        (((1u16 << i) & b) != 0) == word_bit(b, i),
{
}

pub proof fn lemma_word_nonzero_bit(x: u16)
    requires
        x != 0,
    ensures
        exists|i: u16| i < 16 && #[trigger] word_bit(x, i),
{
    assert(word_bit(x, 0u16) || word_bit(x, 1u16) || word_bit(x, 2u16) || word_bit(x, 3u16)
        || word_bit(x, 4u16) || word_bit(x, 5u16) || word_bit(x, 6u16) || word_bit(x, 7u16)
        || word_bit(x, 8u16) || word_bit(x, 9u16) || word_bit(x, 10u16) || word_bit(x, 11u16)
        || word_bit(x, 12u16) || word_bit(x, 13u16) || word_bit(x, 14u16) || word_bit(
        x,
        15u16,
    )) by (bit_vector)
        requires x != 0,
    ;
}

/// Bits of `a << i`: the bits of `a`, moved up by `i`.
pub proof fn lemma_shl_bits(a: u16, i: u16, lo: u16)
    by (bit_vector)
    requires
        i < 16,
        lo == a << i,
    ensures
        forall|k: u16|
            k < 16 ==> #[trigger] word_bit(lo, k) == (k >= i && word_bit(a, (k - i) as u16)),
{
}

/// Bits of the overflowed part `a >> (16 - i)`: the bits of `a` that a left
/// shift by `i` pushes past the word width.
pub proof fn lemma_shr_high_bits(a: u16, i: u16, hi: u16)
    by (bit_vector)
    requires
        0 < i < 16,
        hi == a >> ((16 - i) as u16),
    ensures
        forall|k: u16|
            k < 16 ==> #[trigger] word_bit(hi, k) == (k < i && word_bit(a, (k + 16 - i) as u16)),
{
}

// ---------------------------------------------------------------------------
// Carryless multiplication of words
// ---------------------------------------------------------------------------

/// Carryless multiplication of words: the double-width product `(high, low)`
/// is the GF(2) polynomial product of the operands' bit polynomials.  Not
/// constant time: it branches on each bit of `b`.
pub fn widening_clmul(a: Word, b: Word) -> (r: (Word, Word))
    ensures
        wide_word_poly(r.0, r.1) == pmul(word_poly(a), word_poly(b)),
{
    let mut high: Word = 0;
    let mut low: Word = 0;
    proof {
        lemma_word_zero_bits();
        assert forall|k: int| 0 <= k < 32 implies #[trigger] coeff(wide_word_poly(high, low), k)
            == xorsum(conv_term(word_poly(a), word_poly(b), k), 0) by {
            if k < 16 {
                assert(!word_bit(0u16, k as u16));
            } else {
                assert(!word_bit(0u16, (k - 16) as u16));
            }
        }
    }
    let mut i: u16 = 0;
    while i < 16
        invariant
            i <= 16,
            forall|k: int|
                0 <= k < 32 ==> #[trigger] coeff(wide_word_poly(high, low), k) == xorsum(
                    conv_term(word_poly(a), word_poly(b), k),
                    i as nat,
                ),
        decreases 16 - i,
    {
        let ghost old_high = high;
        let ghost old_low = low;
        proof {
            lemma_word_test_bit(b, i);
        }
        if ((1u16 << i) & b) != 0 {
            let hi_shift: Word = if i == 0 {
                0
            } else {
                a >> (16 - i)
            };
            let lo_shift: Word = a << i;
            proof {
                if i == 0 {
                    lemma_word_zero_bits();
                } else {
                    lemma_shr_high_bits(a, i, hi_shift);
                }
                lemma_shl_bits(a, i, lo_shift);
                lemma_word_xor_bits(old_high, hi_shift);
                lemma_word_xor_bits(old_low, lo_shift);
            }
            high = high ^ hi_shift;
            low = low ^ lo_shift;
            proof {
                assert forall|k: int| 0 <= k < 32 implies #[trigger] coeff(
                    wide_word_poly(high, low),
                    k,
                ) == xorsum(conv_term(word_poly(a), word_poly(b), k), (i + 1) as nat) by {
                    let f = conv_term(word_poly(a), word_poly(b), k);
                    assert(coeff(wide_word_poly(old_high, old_low), k) == xorsum(f, i as nat));
                    assert(xorsum(f, (i + 1) as nat) == (xorsum(f, i as nat) != f(i as int)));
                    assert(f(i as int) == (coeff(word_poly(b), i as int) && coeff(
                        word_poly(a),
                        k - i,
                    )));
                    if k < 16 {
                        assert(coeff(wide_word_poly(high, low), k) == word_bit(low, k as u16));
                        assert(coeff(wide_word_poly(old_high, old_low), k) == word_bit(
                            old_low,
                            k as u16,
                        ));
                        assert(word_bit(low, k as u16) == (word_bit(old_low, k as u16)
                            != word_bit(lo_shift, k as u16)));
                        assert(word_bit(lo_shift, k as u16) == (k as u16 >= i && word_bit(
                            a,
                            ((k as u16) - i) as u16,
                        )));
                    } else {
                        let kk = (k - 16) as u16;
                        assert(coeff(wide_word_poly(high, low), k) == word_bit(high, kk));
                        assert(coeff(wide_word_poly(old_high, old_low), k) == word_bit(
                            old_high,
                            kk,
                        ));
                        assert(word_bit(high, kk) == (word_bit(old_high, kk) != word_bit(
                            hi_shift,
                            kk,
                        )));
                        assert(word_bit(hi_shift, kk) == (kk < i && word_bit(
                            a,
                            (kk + 16 - i) as u16,
                        )));
                    }
                }
            }
        } else {
            proof {
                assert forall|k: int| 0 <= k < 32 implies #[trigger] coeff(
                    wide_word_poly(high, low),
                    k,
                ) == xorsum(conv_term(word_poly(a), word_poly(b), k), (i + 1) as nat) by {
                    let f = conv_term(word_poly(a), word_poly(b), k);
                    assert(xorsum(f, (i + 1) as nat) == (xorsum(f, i as nat) != f(i as int)));
                    assert(!word_bit(b, i));
                    assert(!f(i as int));
                }
            }
        }
        i = i + 1;
    }
    proof {
        assert(word_poly(b).len() == 16);
        assert forall|k: int| 0 <= k < 32 implies coeff(wide_word_poly(high, low), k)
            == #[trigger] pmul_coeff(word_poly(a), word_poly(b), k) by {
            assert(coeff(wide_word_poly(high, low), k) == xorsum(
                conv_term(word_poly(a), word_poly(b), k),
                16,
            ));
        }
        assert(wide_word_poly(high, low) =~= pmul(word_poly(a), word_poly(b)));
    }
    (high, low)
}

// ---------------------------------------------------------------------------
// Fixed-length polynomials over GF(2)
// ---------------------------------------------------------------------------

/// A polynomial over GF(2) of degree below `16 * L`, stored as `L` words in
/// big-endian limb order: the limb at index 0 holds the highest-power
/// coefficients.
#[derive(Debug, Copy, Clone, Eq, PartialEq)]
pub struct ExtField2<const L: usize> {
    pub limbs: [Word; L],
}

impl<const L: usize> View for ExtField2<L> {
    type V = Seq<bool>;

    open spec fn view(&self) -> Seq<bool> {
        limbs_poly(self.limbs@)
    }
}

impl<const L: usize> ExtField2<L> {
    pub fn as_limbs(&self) -> (r: &[Word])
        ensures
            r@ == self.limbs@,
    {
        self.limbs.as_slice()
    }

    pub fn from_limbs(limbs: [Word; L]) -> (r: Self)
        ensures
            r.limbs@ == limbs@,
            r@ == limbs_poly(limbs@),
    {
        Self { limbs }
    }

    /// The zero polynomial: the additive identity.
    pub fn zero() -> (r: Self)
        ensures
            is_pzero(r@),
            r@.len() == 16 * L,
            forall|p: int| 0 <= p < L ==> r.limbs@[p] == 0u16,
    {
        let r = Self { limbs: [0; L] };
        proof {
            lemma_word_zero_bits();
            assert forall|k: int| 0 <= k < r@.len() implies !r@[k] by {
                crate::model::lemma_limbs_index(r.limbs@, k);
            }
        }
        r
    }

    /// The constant one: only the lowest-order coefficient set; the
    /// multiplicative identity.
    pub fn one() -> (r: Self)
        requires
            L >= 1,
        ensures
            is_pone(r@),
            r@.len() == 16 * L,
            r.limbs@[L - 1] == 1u16,
            forall|p: int| 0 <= p < L - 1 ==> r.limbs@[p] == 0u16,
    {
        let mut limbs: [Word; L] = [0; L];
        limbs[L - 1] = 1;
        let r = Self { limbs };
        proof {
            lemma_word_zero_bits();
            lemma_word_one_bits();
            crate::model::lemma_limbs_coeff(r.limbs@, 0, 0);
            assert forall|k: int| 1 <= k < r@.len() implies !r@[k] by {
                crate::model::lemma_limbs_index(r.limbs@, k);
                if k / 16 == 0 {
                    assert(16 * (k / 16) == 0);
                }
            }
            assert(coeff(r@, 0));
        }
        r
    }

    /// Flip every stored coefficient, as the bitwise `!` operator would.
    pub fn not(&self) -> (r: Self)
        ensures
            r@.len() == self@.len(),
            forall|k: int| 0 <= k < self@.len() ==> r@[k] == !self@[k],
    {
        let mut limbs: [Word; L] = [0; L];
        let mut i: usize = 0;
        while i < L
            invariant
                i <= L,
                forall|p: int| 0 <= p < i ==> limbs@[p] == !self.limbs@[p],
            decreases L - i,
        {
            limbs[i] = !self.limbs[i];
            i = i + 1;
        }
        let r = Self { limbs };
        proof {
            assert forall|k: int| 0 <= k < self@.len() implies r@[k] == !self@[k] by {
                crate::model::lemma_limbs_index(r.limbs@, k);
                crate::model::lemma_limbs_index(self.limbs@, k);
                lemma_word_not_bits(self.limbs@[L - 1 - k / 16]);
            }
        }
        r
    }

    /// Addition in GF(2^m): coefficientwise XOR.  Never overflows.
    pub fn gf_add(&self, other: &Self) -> (r: Self)
        ensures
            r@ == pxor(self@, other@),
    {
        let mut limbs: [Word; L] = [0; L];
        let mut i: usize = 0;
        while i < L
            invariant
                i <= L,
                forall|p: int| 0 <= p < i ==> limbs@[p] == (self.limbs@[p] ^ other.limbs@[p]),
            decreases L - i,
        {
            limbs[i] = self.limbs[i] ^ other.limbs[i];
            i = i + 1;
        }
        let r = Self { limbs };
        proof {
            assert forall|k: int| 0 <= k < 16 * L implies r@[k] == (self@[k] != other@[k]) by {
                crate::model::lemma_limbs_index(r.limbs@, k);
                crate::model::lemma_limbs_index(self.limbs@, k);
                lemma_word_xor_bits(self.limbs@[L - 1 - k / 16], other.limbs@[L - 1 - k / 16]);
            }
            assert(r@ =~= pxor(self@, other@));
        }
        r
    }

    /// Subtraction equals addition in GF(2^m): every element is its own
    /// additive inverse.
    pub fn gf_sub(&self, other: &Self) -> (r: Self)
        ensures
            r@ == pxor(self@, other@),
    {
        self.gf_add(other)
    }

    /// Schoolbook widening multiplication: the returned `(high, low)` pair
    /// holds the exact product polynomial, split into two `L`-limb halves.
    pub fn widening_gf_mul(&self, other: &Self) -> (r: (Self, Self))
        requires
            2 * L < usize::MAX,
        ensures
            pair_poly(r.0.limbs@, r.1.limbs@) == pmul(self@, other@),
    {
        let ghost av = self.limbs@;
        let ghost bv = other.limbs@;
        let mut hi: [Word; L] = [0; L];
        let mut lo: [Word; L] = [0; L];
        proof {
            lemma_word_zero_bits();
            assert forall|k: int| 0 <= k < 32 * L implies #[trigger] pair_poly(hi@, lo@)[k]
                == xorsum(school_rows(av, bv, k), 0) by {
                crate::model::lemma_limbs_index(hi@ + lo@, k);
            }
        }
        let mut i: usize = 0;
        while i < L
            invariant
                i <= L,
                2 * L < usize::MAX,
                av == self.limbs@,
                bv == other.limbs@,
                forall|k: int|
                    0 <= k < 32 * L ==> #[trigger] pair_poly(hi@, lo@)[k] == xorsum(
                        school_rows(av, bv, k),
                        i as nat,
                    ),
            decreases L - i,
        {
            let mut j: usize = 0;
            while j < L
                invariant
                    i < L,
                    j <= L,
                    2 * L < usize::MAX,
                    av == self.limbs@,
                    bv == other.limbs@,
                    forall|k: int|
                        0 <= k < 32 * L ==> #[trigger] pair_poly(hi@, lo@)[k] == (xorsum(
                            school_rows(av, bv, k),
                            i as nat,
                        ) != xorsum(school_row(av, bv, k, i as int), j as nat)),
                decreases L - j,
            {
                let ghost hi0 = hi@;
                let ghost lo0 = lo@;
                let ghost s_old = hi@ + lo@;
                let (hl, ll) = widening_clmul(self.limbs[L - i - 1], other.limbs[L - j - 1]);
                let p0 = i + j;
                let p1 = i + j + 1;
                let ghost c0 = 2 * L - 1 - p0;
                let ghost c1 = 2 * L - 1 - p1;
                if p0 < L {
                    lo[L - p0 - 1] = lo[L - p0 - 1] ^ ll;
                } else {
                    hi[2 * L - p0 - 1] = hi[2 * L - p0 - 1] ^ ll;
                }
                proof {
                    assert(hi@ + lo@ =~= s_old.update(c0 as int, s_old[c0 as int] ^ ll));
                    crate::model::lemma_limbs_poly_xor_limb(s_old, c0 as int, ll);
                }
                let ghost s_mid = hi@ + lo@;
                if p1 < L {
                    lo[L - p1 - 1] = lo[L - p1 - 1] ^ hl;
                } else {
                    hi[2 * L - p1 - 1] = hi[2 * L - p1 - 1] ^ hl;
                }
                proof {
                    assert(hi@ + lo@ =~= s_mid.update(c1 as int, s_mid[c1 as int] ^ hl));
                    crate::model::lemma_limbs_poly_xor_limb(s_mid, c1 as int, hl);
                    let wa = word_poly(av[L - 1 - i]);
                    let wb = word_poly(bv[L - 1 - j]);
                    assert forall|k: int| 0 <= k < 32 * L implies #[trigger] pair_poly(
                        hi@,
                        lo@,
                    )[k] == (xorsum(school_rows(av, bv, k), i as nat) != xorsum(
                        school_row(av, bv, k, i as int),
                        (j + 1) as nat,
                    )) by {
                        let row = school_row(av, bv, k, i as int);
                        assert(pair_poly(hi0, lo0)[k] == (xorsum(school_rows(av, bv, k), i as nat)
                            != xorsum(row, j as nat)));
                        assert(limbs_poly(s_old)[k] == pair_poly(hi0, lo0)[k]);
                        assert(xorsum(row, (j + 1) as nat) == (xorsum(row, j as nat) != row(
                            j as int,
                        )));
                        assert(row(j as int) == pmul_coeff(wa, wb, k - 16 * (i + j)));
                        let kp = k - 16 * (i + j);
                        let d0 = (16 * p0 <= k < 16 * p0 + 16 && word_bit(
                            ll,
                            (k - 16 * p0) as u16,
                        ));
                        let d1 = (16 * p1 <= k < 16 * p1 + 16 && word_bit(
                            hl,
                            (k - 16 * p1) as u16,
                        ));
                        assert(limbs_poly(s_mid)[k] == (limbs_poly(s_old)[k] != d0));
                        assert(limbs_poly(hi@ + lo@)[k] == (limbs_poly(s_mid)[k] != d1));
                        if 0 <= kp < 32 {
                            assert(pmul_coeff(wa, wb, kp) == pmul(wa, wb)[kp]);
                            assert(pmul(wa, wb)[kp] == wide_word_poly(hl, ll)[kp]);
                            if kp < 16 {
                                assert(wide_word_poly(hl, ll)[kp] == word_bit(ll, kp as u16));
                                assert(d0 == word_bit(ll, kp as u16));
                                assert(!d1);
                            } else {
                                assert(wide_word_poly(hl, ll)[kp] == word_bit(
                                    hl,
                                    (kp - 16) as u16,
                                ));
                                assert(d1 == word_bit(hl, (kp - 16) as u16));
                                assert(!d0);
                            }
                        } else {
                            crate::model::lemma_pmul_coeff_range(wa, wb, kp);
                            assert(!d0);
                            assert(!d1);
                        }
                    }
                }
                j = j + 1;
            }
            proof {
                assert forall|k: int| 0 <= k < 32 * L implies #[trigger] pair_poly(hi@, lo@)[k]
                    == xorsum(school_rows(av, bv, k), (i + 1) as nat) by {
                    assert(xorsum(school_rows(av, bv, k), (i + 1) as nat) == (xorsum(
                        school_rows(av, bv, k),
                        i as nat,
                    ) != school_rows(av, bv, k)(i as int)));
                    assert(school_rows(av, bv, k)(i as int) == xorsum(
                        school_row(av, bv, k, i as int),
                        bv.len(),
                    ));
                }
            }
            i = i + 1;
        }
        let r = (Self { limbs: hi }, Self { limbs: lo });
        proof {
            assert forall|k: int| 0 <= k < 32 * L implies pair_poly(hi@, lo@)[k]
                == #[trigger] pmul_coeff(self@, other@, k) by {
                crate::model::lemma_school_decomposition(av, bv, k);
            }
            assert(pair_poly(r.0.limbs@, r.1.limbs@) =~= pmul(self@, other@));
        }
        r
    }

    /// Whether this is the zero polynomial.
    pub fn is_zero(&self) -> (r: bool)
        ensures
            r == is_pzero(self@),
    {
        let mut i: usize = 0;
        while i < L
            invariant
                i <= L,
                forall|p: int| 0 <= p < i ==> self.limbs@[p] == 0u16,
            decreases L - i,
        {
            if self.limbs[i] != 0 {
                proof {
                    lemma_word_nonzero_bit(self.limbs@[i as int]);
                    let t = choose|t: u16| t < 16 && word_bit(self.limbs@[i as int], t);
                    crate::model::lemma_limbs_coeff(self.limbs@, L - 1 - i, t as int);
                }
                return false;
            }
            i = i + 1;
        }
        proof {
            lemma_word_zero_bits();
            assert forall|k: int| 0 <= k < self@.len() implies !self@[k] by {
                crate::model::lemma_limbs_index(self.limbs@, k);
            }
        }
        true
    }

    /// Whether this is the constant one.
    pub fn is_one(&self) -> (r: bool)
        requires
            L >= 1,
        ensures
            r == is_pone(self@),
    {
        if self.limbs[L - 1] != 1 {
            proof {
                crate::model::lemma_limbs_coeff(self.limbs@, 0, 0);
                lemma_low_word_not_one(self.limbs@[L - 1]);
                if exists|t: u16| 0 < t < 16 && #[trigger] word_bit(self.limbs@[L - 1], t) {
                    let t = choose|t: u16|
                        0 < t < 16 && #[trigger] word_bit(self.limbs@[L - 1], t);
                    crate::model::lemma_limbs_coeff(self.limbs@, 0, t as int);
                }
            }
            return false;
        }
        let mut i: usize = 0;
        while i < L - 1
            invariant
                L >= 1,
                i <= L - 1,
                self.limbs@[L - 1] == 1u16,
                forall|p: int| 0 <= p < i ==> self.limbs@[p] == 0u16,
            decreases L - i,
        {
            if self.limbs[i] != 0 {
                proof {
                    lemma_word_nonzero_bit(self.limbs@[i as int]);
                    let t = choose|t: u16| t < 16 && word_bit(self.limbs@[i as int], t);
                    crate::model::lemma_limbs_coeff(self.limbs@, L - 1 - i, t as int);
                }
                return false;
            }
            i = i + 1;
        }
        proof {
            lemma_word_zero_bits();
            lemma_word_one_bits();
            crate::model::lemma_limbs_coeff(self.limbs@, 0, 0);
            assert forall|k: int| 1 <= k < self@.len() implies !self@[k] by {
                crate::model::lemma_limbs_index(self.limbs@, k);
                if k / 16 == 0 {
                    assert(16 * (k / 16) == 0);
                }
            }
        }
        true
    }
}

#[allow(non_camel_case_types)]
pub type GF_2_16 = ExtField2<1>;

#[allow(non_camel_case_types)]
pub type GF_2_128 = ExtField2<8>;

/// A word whose lowest bit pattern is not exactly 1 either has bit 0 clear or
/// some higher bit set.
proof fn lemma_low_word_not_one(x: u16)
    requires
        x != 1,
    ensures
        !word_bit(x, 0) || exists|t: u16| 0 < t < 16 && #[trigger] word_bit(x, t),
{
    if word_bit(x, 0) {
        assert(word_bit(x, 1u16) || word_bit(x, 2u16) || word_bit(x, 3u16) || word_bit(x, 4u16)
            || word_bit(x, 5u16) || word_bit(x, 6u16) || word_bit(x, 7u16) || word_bit(x, 8u16)
            || word_bit(x, 9u16) || word_bit(x, 10u16) || word_bit(x, 11u16) || word_bit(x, 12u16)
            || word_bit(x, 13u16) || word_bit(x, 14u16) || word_bit(x, 15u16)) by (bit_vector)
            requires x != 1, (x >> 0u16) & 1u16 == 1u16,
        ;
    }
}

} // verus!
