//! Double-width polynomials over GF(2): products of two `L`-limb
//! polynomials, and the field's modulus, live here.  Supports Euclidean
//! division with remainder and, through it, modular inversion.
use vstd::prelude::*;

verus! {

use crate::model::{
    coeff, conv_term, is_pone, is_product, is_pzero, limbs_poly, mul_mod, mul_mod_with, pair_poly,
    pdeg, pdivides, pirreducible, pmul, pmul_coeff, pone, pxor, word_bit, xorsum,
};
use crate::{ExtField2, Word};

/// One limb of a left-shift by one: its own bits moved up, plus the top bit
/// of the next less significant limb.
pub open spec fn shl1_word(s: Seq<u16>, c: int) -> u16 {
    (s[c] << 1u16) ^ ((if c + 1 < s.len() {
        s[c + 1]
    } else {
        0u16
    }) >> 15u16)
}

proof fn lemma_shl1_word_bits(x: u16, y: u16, r: u16)
    by (bit_vector)
    requires
        r == (x << 1u16) ^ (y >> 15u16),
    ensures
        forall|t: u16|
            t < 16 ==> #[trigger] word_bit(r, t) == (if t == 0 {
                word_bit(y, 15u16)
            } else {
                word_bit(x, (t - 1) as u16)
            }),
{
}

proof fn lemma_one_shl_bits(t: u16)
    by (bit_vector)
    requires
        t < 16,
    ensures
        forall|u: u16| u < 16 ==> #[trigger] word_bit(1u16 << t, u) == (u == t),
{
}

/// A polynomial over GF(2) of degree below `32 * L`, stored as a (high, low)
/// pair of `L`-limb halves.
#[derive(Debug, Copy, Clone, Eq, PartialEq)]
pub struct WideExtField2<const L: usize> {
    pub high: ExtField2<L>,
    pub low: ExtField2<L>,
}

impl<const L: usize> View for WideExtField2<L> {
    type V = Seq<bool>;

    open spec fn view(&self) -> Seq<bool> {
        pair_poly(self.high.limbs@, self.low.limbs@)
    }
}

impl<const L: usize> WideExtField2<L> {
    /// Join two `L`-limb halves into one double-width polynomial.
    pub fn from_f2x(high: ExtField2<L>, low: ExtField2<L>) -> (r: Self)
        ensures
            r.high == high,
            r.low == low,
            r@.len() == 32 * L,
            forall|k: int| 0 <= k < 16 * L ==> #[trigger] r@[k] == low@[k],
            forall|k: int| 16 * L <= k < 32 * L ==> #[trigger] r@[k] == high@[k - 16 * L],
    {
        let r = Self { high, low };
        proof {
            crate::model::lemma_pair_poly_halves(high.limbs@, low.limbs@);
        }
        r
    }

    /// The zero polynomial.
    pub fn zero() -> (r: Self)
        ensures
            is_pzero(r@),
            r@.len() == 32 * L,
    {
        let r = Self::from_f2x(ExtField2::zero(), ExtField2::zero());
        proof {
            assert forall|k: int| 0 <= k < r@.len() implies !r@[k] by {
                if k < 16 * L {
                    assert(r@[k] == r.low@[k]);
                } else {
                    assert(r@[k] == r.high@[k - 16 * L]);
                }
            }
        }
        r
    }

    /// The constant one.
    pub fn one() -> (r: Self)
        requires
            L >= 1,
        ensures
            is_pone(r@),
            r@.len() == 32 * L,
    {
        let r = Self::from_f2x(ExtField2::zero(), ExtField2::one());
        proof {
            assert(r@[0] == r.low@[0]);
            assert forall|k: int| 1 <= k < r@.len() implies !r@[k] by {
                if k < 16 * L {
                    assert(r@[k] == r.low@[k]);
                } else {
                    assert(r@[k] == r.high@[k - 16 * L]);
                }
            }
        }
        r
    }

    /// The limb at position `c` of the combined big-endian limb sequence.
    fn get_limb(&self, c: usize) -> (w: Word)
        requires
            c < 2 * L,
        ensures
            w == (self.high.limbs@ + self.low.limbs@)[c as int],
    {
        if c < L {
            self.high.limbs[c]
        } else {
            self.low.limbs[c - L]
        }
    }

    /// Keep only the low half: sound whenever the degree is below `16 * L`.
    pub fn truncate(&self) -> (r: ExtField2<L>)
        ensures
            r == self.low,
            forall|k: int| #[trigger] coeff(r@, k) == (k < 16 * L && coeff(self@, k)),
    {
        proof {
            crate::model::lemma_pair_poly_halves(self.high.limbs@, self.low.limbs@);
        }
        self.low
    }

    /// Coefficientwise XOR: addition of double-width polynomials.
    pub fn xor(&self, other: &Self) -> (r: Self)
        ensures
            r@ == pxor(self@, other@),
    {
        let r = Self::from_f2x(
            self.high.gf_add(&other.high),
            self.low.gf_add(&other.low),
        );
        proof {
            crate::model::lemma_pair_poly_halves(self.high.limbs@, self.low.limbs@);
            crate::model::lemma_pair_poly_halves(other.high.limbs@, other.low.limbs@);
            assert forall|k: int| 0 <= k < 32 * L implies r@[k] == (self@[k] != other@[k]) by {
                if k < 16 * L {
                    assert(r@[k] == r.low@[k]);
                } else {
                    assert(r@[k] == r.high@[k - 16 * L]);
                }
            }
            assert(r@ =~= pxor(self@, other@));
        }
        r
    }

    /// Shift every coefficient up by one position.  The topmost stored
    /// coefficient leaves the representation.
    pub fn shl1(&self) -> (r: Self)
        requires
            32 * L <= usize::MAX,
        ensures
            r@.len() == 32 * L,
            forall|k: int| 0 <= k < 32 * L ==> #[trigger] r@[k] == coeff(self@, k - 1),
    {
        let ghost s = self.high.limbs@ + self.low.limbs@;
        let mut nh: [Word; L] = [0; L];
        let mut nl: [Word; L] = [0; L];
        let mut c: usize = 0;
        while c < 2 * L
            invariant
                32 * L <= usize::MAX,
                c <= 2 * L,
                s == self.high.limbs@ + self.low.limbs@,
                forall|cc: int| 0 <= cc < c ==> (nh@ + nl@)[cc] == shl1_word(s, cc),
            decreases 2 * L - c,
        {
            let w = self.get_limb(c);
            let lower: Word = if c + 1 < 2 * L {
                self.get_limb(c + 1)
            } else {
                0
            };
            let nw = (w << 1u16) ^ (lower >> 15u16);
            if c < L {
                nh[c] = nw;
            } else {
                nl[c - L] = nw;
            }
            proof {
                assert((nh@ + nl@)[c as int] == nw);
                assert(nw == shl1_word(s, c as int));
            }
            c = c + 1;
        }
        let r = Self::from_f2x(ExtField2::from_limbs(nh), ExtField2::from_limbs(nl));
        proof {
            crate::lemma_word_zero_bits();
            assert forall|k: int| 0 <= k < 32 * L implies #[trigger] r@[k] == coeff(
                self@,
                k - 1,
            ) by {
                crate::model::lemma_limbs_index(nh@ + nl@, k);
                crate::model::lemma_limbs_index(s, k);
                let p = k / 16;
                let t = k % 16;
                let c2 = 2 * L - 1 - p;
                let lower2: Word = if c2 + 1 < 2 * L {
                    s[c2 + 1]
                } else {
                    0
                };
                lemma_shl1_word_bits(s[c2], lower2, shl1_word(s, c2));
                if t > 0 {
                    crate::model::lemma_limbs_coeff(s, p, t - 1);
                } else {
                    if c2 + 1 < 2 * L {
                        crate::model::lemma_limbs_coeff(s, p - 1, 15);
                    }
                }
            }
        }
        r
    }

    /// Shift every coefficient up by `rhs` positions.
    pub fn shl(&self, rhs: usize) -> (r: Self)
        requires
            32 * L <= usize::MAX,
        ensures
            r@.len() == 32 * L,
            forall|k: int| 0 <= k < 32 * L ==> #[trigger] r@[k] == coeff(self@, k - rhs),
    {
        let mut cur = *self;
        let mut i: usize = 0;
        while i < rhs
            invariant
                i <= rhs,
                32 * L <= usize::MAX,
                cur@.len() == 32 * L,
                self@.len() == 32 * L,
                forall|k: int| 0 <= k < 32 * L ==> #[trigger] cur@[k] == coeff(self@, k - i),
            decreases rhs - i,
        {
            let prev = cur;
            cur = cur.shl1();
            proof {
                assert forall|k: int| 0 <= k < 32 * L implies #[trigger] cur@[k] == coeff(
                    self@,
                    k - (i + 1),
                ) by {
                    assert(cur@[k] == coeff(prev@, k - 1));
                }
            }
            i = i + 1;
        }
        cur
    }

    /// Flip the coefficient at `pos`.
    pub fn flip_bit(&self, pos: usize) -> (r: Self)
        requires
            32 * L <= usize::MAX,
            pos < 32 * L,
        ensures
            r@.len() == 32 * L,
            forall|k: int|
                0 <= k < 32 * L ==> #[trigger] r@[k] == (if k == pos {
                    !self@[k]
                } else {
                    self@[k]
                }),
    {
        let ghost s = self.high.limbs@ + self.low.limbs@;
        let p = pos / 16;
        let t = (pos % 16) as u16;
        let c = 2 * L - 1 - p;
        let w = if c < L {
            self.high.limbs[c]
        } else {
            self.low.limbs[c - L]
        };
        let nw = w ^ (1u16 << t);
        let mut nh = self.high.limbs;
        let mut nl = self.low.limbs;
        if c < L {
            nh[c] = nw;
        } else {
            nl[c - L] = nw;
        }
        let r = Self::from_f2x(ExtField2::from_limbs(nh), ExtField2::from_limbs(nl));
        proof {
            assert(nh@ + nl@ =~= s.update(c as int, s[c as int] ^ (1u16 << t)));
            crate::model::lemma_limbs_poly_xor_limb(s, c as int, 1u16 << t);
            lemma_one_shl_bits(t);
            assert forall|k: int| 0 <= k < 32 * L implies #[trigger] r@[k] == (if k == pos {
                !self@[k]
            } else {
                self@[k]
            }) by {
                assert(limbs_poly(nh@ + nl@)[k] == (limbs_poly(s)[k] != (16 * p <= k < 16 * p + 16
                    && word_bit(1u16 << t, (k - 16 * p) as u16))));
            }
        }
        r
    }

    /// The degree of the stored polynomial: the index of its highest set
    /// coefficient, or `None` for the zero polynomial.
    pub fn degree(&self) -> (r: Option<usize>)
        requires
            32 * L <= usize::MAX,
        ensures
            match r {
                Option::Some(d) => pdeg(self@) == d && d < 32 * L,
                Option::None => is_pzero(self@),
            },
    {
        let ghost s = self.high.limbs@ + self.low.limbs@;
        let mut c: usize = 0;
        while c < 2 * L
            invariant
                32 * L <= usize::MAX,
                c <= 2 * L,
                s == self.high.limbs@ + self.low.limbs@,
                forall|cc: int| 0 <= cc < c ==> s[cc] == 0u16,
            decreases 2 * L - c,
        {
            let w = self.get_limb(c);
            if w != 0 {
                let mut t: u16 = 15;
                while (w >> t) & 1u16 != 1u16
                    invariant
                        32 * L <= usize::MAX,
                        c < 2 * L,
                        t <= 15,
                        w == s[c as int],
                        w != 0,
                        forall|u: u16| t < u < 16 ==> !#[trigger] word_bit(w, u),
                    decreases t,
                {
                    proof {
                        if t == 0 {
                            crate::lemma_word_nonzero_bit(w);
                            let u = choose|u: u16| u < 16 && word_bit(w, u);
                            assert(false);
                        }
                    }
                    t = t - 1;
                }
                let d = 16 * (2 * L - 1 - c) + (t as usize);
                proof {
                    crate::lemma_word_zero_bits();
                    let p = 2 * L - 1 - c;
                    crate::model::lemma_limbs_coeff(s, p as int, t as int);
                    assert(coeff(self@, d as int));
                    assert forall|k: int| k > d implies !#[trigger] coeff(self@, k) by {
                        if 0 <= k < 32 * L {
                            crate::model::lemma_limbs_index(s, k);
                            let cc = 2 * L - 1 - k / 16;
                            if k / 16 > p {
                                assert(cc < c);
                                assert(s[cc] == 0u16);
                            } else if k / 16 == p {
                                assert(k % 16 > t);
                            } else {
                                assert(k <= 16 * (k / 16) + 15);
                                assert(false);
                            }
                        }
                    }
                    crate::model::lemma_pdeg_le(self@, d as int);
                    if pdeg(self@) < d {
                        crate::model::lemma_coeff_above_pdeg(self@, d as int);
                    }
                }
                return Option::Some(d);
            }
            c = c + 1;
        }
        proof {
            crate::lemma_word_zero_bits();
            assert forall|k: int| 0 <= k < self@.len() implies !self@[k] by {
                crate::model::lemma_limbs_index(s, k);
            }
        }
        Option::None
    }

    /// The coefficient at `pos`.
    pub fn get_bit(&self, pos: usize) -> (r: bool)
        requires
            32 * L <= usize::MAX,
            pos < 32 * L,
        ensures
            r == coeff(self@, pos as int),
    {
        let ghost s = self.high.limbs@ + self.low.limbs@;
        proof {
            crate::model::lemma_limbs_index(s, pos as int);
        }
        let p = pos / 16;
        let t = (pos % 16) as u16;
        let w = self.get_limb(2 * L - 1 - p);
        (w >> t) & 1u16 == 1u16
    }

    /// Euclidean division with remainder against a non-zero divisor:
    /// `self == quotient * divisor + remainder`, coefficient by coefficient,
    /// with the remainder's degree strictly below the divisor's.
    pub fn div_rem(&self, divisor: &Self) -> (r: (Self, Self))
        requires
            32 * L <= usize::MAX,
            pdeg(divisor@) >= 0,
        ensures
            ({
                let (q, rem) = r;
                &&& forall|k: int|
                    #[trigger] coeff(self@, k) == (pmul_coeff(q@, divisor@, k) != coeff(rem@, k))
                &&& pdeg(rem@) < pdeg(divisor@)
                &&& pdeg(q@) <= (if pdeg(self@) >= pdeg(divisor@) {
                    pdeg(self@) - pdeg(divisor@)
                } else {
                    -1
                })
                &&& q@.len() == 32 * L
                &&& rem@.len() == 32 * L
            }),
    {
        let mut q = Self::zero();
        let mut rem = *self;
        let dd: usize = match divisor.degree() {
            Option::Some(d) => d,
            Option::None => {
                proof {
                    crate::model::lemma_pdeg_zero(divisor@);
                    assert(false);
                }
                0
            },
        };
        proof {
            assert forall|k: int| #[trigger] coeff(self@, k) == (pmul_coeff(q@, divisor@, k)
                != coeff(rem@, k)) by {
                crate::model::lemma_pmul_coeff_zero(q@, divisor@, k);
            }
            crate::model::lemma_pdeg_zero(q@);
            crate::model::lemma_pdeg_bound(self@);
        }
        loop
            invariant
                32 * L <= usize::MAX,
                rem@.len() == 32 * L,
                q@.len() == 32 * L,
                self@.len() == 32 * L,
                divisor@.len() == 32 * L,
                dd == pdeg(divisor@),
                forall|k: int|
                    #[trigger] coeff(self@, k) == (pmul_coeff(q@, divisor@, k) != coeff(rem@, k)),
                pdeg(rem@) <= pdeg(self@),
                pdeg(q@) <= (if pdeg(self@) >= dd {
                    pdeg(self@) - dd
                } else {
                    -1
                }),
                forall|x: int| #[trigger] coeff(q@, x) ==> x > pdeg(rem@) - dd,
            ensures
                pdeg(rem@) < dd,
            decreases pdeg(rem@) + 1,
        {
            let rd_opt = rem.degree();
            if rd_opt.is_none() {
                proof {
                    crate::model::lemma_pdeg_zero(rem@);
                }
                break ;
            }
            let rd = rd_opt.unwrap();
            if rd < dd {
                break ;
            }
            let s = rd - dd;
            let sh = divisor.shl(s);
            let ghost old_rem = rem@;
            let ghost old_q = q@;
            rem = rem.xor(&sh);
            q = q.flip_bit(s);
            proof {
                crate::model::lemma_pdeg_coeff(old_rem);
                crate::model::lemma_pdeg_coeff(divisor@);
                // the leading coefficients cancel, so the degree drops
                assert forall|k: int| k > rd - 1 implies !#[trigger] coeff(rem@, k) by {
                    if 0 <= k < 32 * L {
                        assert(rem@[k] == (old_rem[k] != sh@[k]));
                        assert(sh@[k] == coeff(divisor@, k - s));
                        if k == rd {
                            assert(k - s == dd);
                        } else {
                            crate::model::lemma_coeff_above_pdeg(old_rem, k);
                            crate::model::lemma_coeff_above_pdeg(divisor@, k - s);
                        }
                    }
                }
                crate::model::lemma_pdeg_le(rem@, rd - 1);
                // the new quotient's coefficients stay at or below the bound
                assert forall|x: int| x > pdeg(self@) - dd implies !#[trigger] coeff(q@, x) by {
                    if 0 <= x < 32 * L {
                        assert(x != s);
                        assert(q@[x] == old_q[x]);
                        crate::model::lemma_coeff_above_pdeg(old_q, x);
                    }
                }
                crate::model::lemma_pdeg_le(q@, pdeg(self@) - dd);
                // the division relation is preserved
                assert forall|k: int| #[trigger] coeff(self@, k) == (pmul_coeff(q@, divisor@, k)
                    != coeff(rem@, k)) by {
                    assert(coeff(self@, k) == (pmul_coeff(old_q, divisor@, k) != coeff(
                        old_rem,
                        k,
                    )));
                    crate::model::lemma_pmul_coeff_flip(old_q, q@, divisor@, s as int, k);
                    if 0 <= k < 32 * L {
                        assert(coeff(rem@, k) == rem@[k]);
                        assert(rem@[k] == (old_rem[k] != sh@[k]));
                        assert(sh@[k] == coeff(divisor@, k - s));
                    } else {
                        assert(!coeff(rem@, k));
                        assert(!coeff(old_rem, k));
                        if k < 0 {
                            crate::model::lemma_pmul_coeff_neg(q@, divisor@, k);
                            crate::model::lemma_pmul_coeff_neg(old_q, divisor@, k);
                        } else {
                            crate::model::lemma_pdeg_bound(divisor@);
                            crate::model::lemma_pdeg_bound(self@);
                            crate::model::lemma_pmul_coeff_above(q@, divisor@, k);
                            crate::model::lemma_pmul_coeff_above(old_q, divisor@, k);
                        }
                    }
                }
                // the quotient's set coefficients sit above the new threshold
                assert forall|x: int| #[trigger] coeff(q@, x) implies x > pdeg(rem@) - dd by {
                    if x != s {
                        assert(q@[x] == old_q[x]);
                        assert(coeff(old_q, x));
                    }
                }
                crate::model::lemma_pdeg_bound(rem@);
            }
        }
        (q, rem)
    }

    /// Product of two double-width polynomials, kept to the stored width:
    /// every coefficient below `32 * L` is exact; any higher coefficient of
    /// the true product leaves the representation.
    fn wide_mul(&self, other: &Self) -> (r: Self)
        requires
            32 * L <= usize::MAX,
        ensures
            r@.len() == 32 * L,
            forall|k: int|
                0 <= k < 32 * L ==> #[trigger] coeff(r@, k) == pmul_coeff(other@, self@, k),
    {
        let mut acc = Self::zero();
        let mut sh = *other;
        let mut s: usize = 0;
        while s < 32 * L
            invariant
                32 * L <= usize::MAX,
                acc@.len() == 32 * L,
                sh@.len() == 32 * L,
                s <= 32 * L,
                forall|k: int|
                    0 <= k < 32 * L ==> #[trigger] coeff(sh@, k) == coeff(other@, k - s),
                forall|k: int|
                    0 <= k < 32 * L ==> #[trigger] coeff(acc@, k) == xorsum(
                        conv_term(other@, self@, k),
                        s as nat,
                    ),
            decreases 32 * L - s,
        {
            let bit = self.get_bit(s);
            let ghost old_acc = acc@;
            if bit {
                acc = acc.xor(&sh);
            }
            proof {
                assert forall|k: int| 0 <= k < 32 * L implies #[trigger] coeff(acc@, k) == xorsum(
                    conv_term(other@, self@, k),
                    (s + 1) as nat,
                ) by {
                    let f = conv_term(other@, self@, k);
                    assert(coeff(old_acc, k) == xorsum(f, s as nat));
                    assert(xorsum(f, (s + 1) as nat) == (xorsum(f, s as nat) != f(s as int)));
                    assert(f(s as int) == (coeff(self@, s as int) && coeff(other@, k - s)));
                    if bit {
                        assert(acc@[k] == (old_acc[k] != sh@[k]));
                        assert(coeff(sh@, k) == coeff(other@, k - s));
                    }
                }
            }
            let ghost old_sh = sh@;
            sh = sh.shl1();
            proof {
                assert forall|k: int| 0 <= k < 32 * L implies #[trigger] coeff(sh@, k) == coeff(
                    other@,
                    k - (s + 1),
                ) by {
                    assert(sh@[k] == coeff(old_sh, k - 1));
                    if k >= 1 {
                        assert(coeff(old_sh, k - 1) == coeff(other@, k - 1 - s));
                    }
                }
            }
            s = s + 1;
        }
        proof {
            assert forall|k: int| 0 <= k < 32 * L implies #[trigger] coeff(acc@, k) == pmul_coeff(
                other@,
                self@,
                k,
            ) by {
                assert(self@.len() == 32 * L);
                assert(coeff(acc@, k) == xorsum(conv_term(other@, self@, k), self@.len()));
            }
        }
        acc
    }

    /// Whether this is the zero polynomial.
    pub fn is_zero(&self) -> (r: bool)
        ensures
            r == is_pzero(self@),
    {
        let hz = self.high.is_zero();
        let lz = self.low.is_zero();
        proof {
            crate::model::lemma_pair_poly_halves(self.high.limbs@, self.low.limbs@);
            if hz && lz {
                assert forall|k: int| 0 <= k < self@.len() implies !self@[k] by {
                    if k < 16 * L {
                        assert(self@[k] == self.low@[k]);
                    } else {
                        assert(self@[k] == self.high@[k - 16 * L]);
                    }
                }
            } else if !lz {
                let k = choose|k: int| 0 <= k < self.low@.len() && self.low@[k];
                assert(self@[k] == self.low@[k]);
            } else {
                let k = choose|k: int| 0 <= k < self.high@.len() && self.high@[k];
                assert(self@[k + 16 * L] == self.high@[k]);
            }
        }
        hz && lz
    }
}

impl<const L: usize> ExtField2<L> {
    /// Multiply two reduced polynomials and reduce the product modulo the
    /// field's modulus: the returned remainder is congruent to the product
    /// and has degree below `16 * L`.
    pub fn gf_mul_mod(&self, rhs: &Self, modulus: &WideExtField2<L>) -> (r: Self)
        requires
            32 * L <= usize::MAX,
            pdeg(modulus@) == 16 * L,
        ensures
            mul_mod(self@, rhs@, modulus@, r@),
            pdeg(r@) < 16 * L,
    {
        let (high, low) = self.widening_gf_mul(rhs);
        let prod = WideExtField2::from_f2x(high, low);
        let (q, rem) = prod.div_rem(modulus);
        let r = rem.truncate();
        proof {
            assert(prod@ == pmul(self@, rhs@));
            crate::model::lemma_pdeg_bound(rem@);
            assert forall|k: int| pmul_coeff(self@, rhs@, k) == ((#[trigger] pmul_coeff(
                q@,
                modulus@,
                k,
            )) != coeff(r@, k)) by {
                assert(coeff(prod@, k) == (pmul_coeff(q@, modulus@, k) != coeff(rem@, k)));
                if 0 <= k < 32 * L {
                    assert(coeff(prod@, k) == pmul_coeff(self@, rhs@, k));
                } else if k < 0 {
                    crate::model::lemma_pmul_coeff_neg(self@, rhs@, k);
                } else {
                    crate::model::lemma_pmul_coeff_range(self@, rhs@, k);
                }
                if coeff(r@, k) != coeff(rem@, k) {
                    crate::model::lemma_coeff_above_pdeg(rem@, k);
                }
            }
            assert(mul_mod_with(self@, rhs@, modulus@, r@, q@));
            assert forall|k: int| k > pdeg(rem@) implies !#[trigger] coeff(r@, k) by {
                crate::model::lemma_coeff_above_pdeg(rem@, k);
            }
            crate::model::lemma_pdeg_le(r@, pdeg(rem@));
        }
        r
    }

    /// The multiplicative inverse modulo the field's modulus, found by the
    /// extended Euclidean algorithm over GF(2)[x]; `None` for the zero
    /// polynomial, which has no inverse.  A returned value is always a true
    /// inverse, and whenever the modulus is irreducible every non-zero
    /// element's inverse is returned.
    pub fn modinv(&self, modulus: &WideExtField2<L>) -> (r: Option<Self>)
        requires
            L >= 1,
            32 * L <= usize::MAX,
            pdeg(modulus@) == 16 * L,
        ensures
            is_pzero(self@) ==> r is None,
            r matches Option::Some(b) ==> mul_mod(self@, b@, modulus@, pone((16 * L) as nat))
                && pdeg(b@) < 16 * L && !is_pzero(self@),
            pirreducible(modulus@) && !is_pzero(self@) ==> r is Some,
    {
        if self.is_zero() {
            return Option::None;
        }
        let mut r0 = *modulus;
        let mut r1 = WideExtField2::from_f2x(ExtField2::zero(), *self);
        let mut t0 = WideExtField2::<L>::zero();
        let mut t1 = WideExtField2::<L>::one();
        let ghost mv = modulus@;
        let ghost av = r1@;
        let ghost mut u0: Seq<bool> = pone(1);
        let ghost mut u1: Seq<bool> = Seq::<bool>::empty();
        proof {
            assert forall|x: int| #[trigger] coeff(av, x) == coeff(self@, x) by {
                if 0 <= x < 16 * L {
                    assert(av[x] == r1.low@[x]);
                } else if 16 * L <= x < 32 * L {
                    assert(av[x] == r1.high@[x - 16 * L]);
                }
            }
            assert forall|x: int| x > 16 * L - 1 implies !#[trigger] coeff(av, x) by {
                if x < 32 * L {
                    assert(av[x] == r1.high@[x - 16 * L]);
                }
            }
            crate::model::lemma_pdeg_le(av, 16 * L - 1);
            // degree of the wide one is zero
            assert forall|x: int| x > 0 implies !#[trigger] coeff(t1@, x) by {}
            crate::model::lemma_pdeg_le(t1@, 0);
            if pdeg(t1@) < 0 {
                crate::model::lemma_coeff_above_pdeg(t1@, 0);
            }
            crate::model::lemma_pdeg_zero(t0@);
            // the Bezout identities at the start: M == 0*a + 1*M, a == 1*a + 0*M
            assert forall|k: int| #[trigger] coeff(r0@, k) == (pmul_coeff(t0@, av, k)
                != pmul_coeff(u0, mv, k)) by {
                crate::model::lemma_pmul_coeff_zero(t0@, av, k);
                crate::model::lemma_pmul_by_one(1, mv, k);
            }
            assert forall|k: int| #[trigger] coeff(r1@, k) == (pmul_coeff(t1@, av, k)
                != pmul_coeff(u1, mv, k)) by {
                assert forall|x: int| #[trigger] coeff(t1@, x) == coeff(pone(1), x) by {
                    if x > 0 {
                        crate::model::lemma_coeff_above_pdeg(t1@, x);
                    }
                }
                crate::model::lemma_pmul_congr_left(t1@, pone(1), av, k);
                crate::model::lemma_pmul_by_one(1, av, k);
                crate::model::lemma_pmul_coeff_zero(u1, mv, k);
            }
        }
        loop
            invariant
                L >= 1,
                32 * L <= usize::MAX,
                mv == modulus@,
                pdeg(mv) == 16 * L,
                r0@.len() == 32 * L,
                r1@.len() == 32 * L,
                t0@.len() == 32 * L,
                t1@.len() == 32 * L,
                pdeg(av) < 16 * L,
                forall|x: int| #[trigger] coeff(av, x) == coeff(self@, x),
                pdeg(r1@) < pdeg(r0@),
                0 <= pdeg(r0@) <= 16 * L,
                pdeg(t1@) + pdeg(r0@) <= 16 * L,
                pdeg(t0@) + pdeg(r1@) <= 16 * L,
                forall|k: int| #[trigger] coeff(r0@, k) == (pmul_coeff(t0@, av, k)
                    != pmul_coeff(u0, mv, k)),
                forall|k: int| #[trigger] coeff(r1@, k) == (pmul_coeff(t1@, av, k)
                    != pmul_coeff(u1, mv, k)),
                forall|d: Seq<bool>| (#[trigger] pdivides(d, r0@)) && pdivides(d, r1@)
                    ==> pdivides(d, mv) && pdivides(d, av),
            ensures
                is_pzero(r1@),
            decreases pdeg(r1@) + 1,
        {
            if r1.is_zero() {
                break ;
            }
            proof {
                crate::model::lemma_pdeg_zero(r1@);
                crate::model::lemma_pdeg_bound(r1@);
            }
            let ghost or0 = r0@;
            let ghost or1 = r1@;
            let ghost ot0 = t0@;
            let ghost ot1 = t1@;
            let ghost ou0 = u0;
            let ghost ou1 = u1;
            let (quot, r2) = r0.div_rem(&r1);
            let prod_t = quot.wide_mul(&t1);
            let t2 = t0.xor(&prod_t);
            let ghost qv = quot@;
            let ghost qu1 = crate::model::pmul(qv, ou1);
            let ghost nu: nat = if u0.len() >= qu1.len() {
                u0.len()
            } else {
                qu1.len()
            };
            let ghost u2 = Seq::new(nu, |x: int| coeff(ou0, x) != coeff(qu1, x));
            proof {
                crate::model::lemma_pdeg_bound(ot0);
                crate::model::lemma_pdeg_bound(ot1);
                crate::model::lemma_pdeg_bound(qv);
                // the quotient's degree keeps the product inside the width
                assert(pdeg(qv) + pdeg(ot1) <= 16 * L - pdeg(or1));
                // t2 holds exactly t0 + quot * t1
                assert forall|x: int| #[trigger] coeff(t2@, x) == (coeff(ot0, x) != coeff(
                    crate::model::pmul(qv, ot1),
                    x,
                )) by {
                    crate::model::lemma_coeff_pmul(qv, ot1, x);
                    if 0 <= x < 32 * L {
                        assert(t2@[x] == (ot0[x] != prod_t@[x]));
                        assert(coeff(prod_t@, x) == pmul_coeff(ot1, qv, x));
                        crate::model::lemma_pmul_coeff_comm(ot1, qv, x);
                    } else if x < 0 {
                        crate::model::lemma_pmul_coeff_neg(qv, ot1, x);
                    } else {
                        crate::model::lemma_pmul_coeff_above(qv, ot1, x);
                    }
                }
                // its degree stays within the Euclid bound
                let bq = pdeg(qv) + pdeg(ot1);
                let bmax = if pdeg(ot0) >= bq {
                    pdeg(ot0)
                } else {
                    bq
                };
                assert forall|x: int| x > bmax implies !#[trigger] coeff(t2@, x) by {
                    crate::model::lemma_coeff_above_pdeg(ot0, x);
                    crate::model::lemma_coeff_pmul(qv, ot1, x);
                    if x < 0 {
                        crate::model::lemma_pmul_coeff_neg(qv, ot1, x);
                    } else {
                        crate::model::lemma_pmul_coeff_above(qv, ot1, x);
                    }
                }
                crate::model::lemma_pdeg_le(t2@, bmax);
                // the new Bezout identity for (r2, t2, u2)
                assert forall|x: int| #[trigger] coeff(or1, x) == (coeff(
                    crate::model::pmul(ot1, av),
                    x,
                ) != coeff(crate::model::pmul(ou1, mv), x)) by {
                    crate::model::lemma_coeff_pmul(ot1, av, x);
                    crate::model::lemma_coeff_pmul(ou1, mv, x);
                    assert(coeff(or1, x) == (pmul_coeff(ot1, av, x) != pmul_coeff(ou1, mv, x)));
                }
                assert forall|x: int| #[trigger] coeff(u2, x) == (coeff(ou0, x) != coeff(
                    qu1,
                    x,
                )) by {}
                assert forall|k: int| #[trigger] coeff(r2@, k) == (pmul_coeff(t2@, av, k)
                    != pmul_coeff(u2, mv, k)) by {
                    assert(coeff(or0, k) == (pmul_coeff(qv, or1, k) != coeff(r2@, k)));
                    assert(coeff(or0, k) == (pmul_coeff(ot0, av, k) != pmul_coeff(ou0, mv, k)));
                    crate::model::lemma_pmul_xor_right(
                        qv,
                        or1,
                        crate::model::pmul(ot1, av),
                        crate::model::pmul(ou1, mv),
                        k,
                    );
                    crate::model::lemma_pmul_assoc(qv, ot1, av, k);
                    crate::model::lemma_pmul_assoc(qv, ou1, mv, k);
                    crate::model::lemma_pmul_xor_left(
                        t2@,
                        ot0,
                        crate::model::pmul(qv, ot1),
                        av,
                        k,
                    );
                    crate::model::lemma_pmul_xor_left(u2, ou0, qu1, mv, k);
                }
                // a common divisor of the new pair divides the old pair
                assert forall|d: Seq<bool>| (#[trigger] pdivides(d, or1)) && pdivides(
                    d,
                    r2@,
                ) implies pdivides(d, mv) && pdivides(d, av) by {
                    crate::model::lemma_pdivides_step(d, or0, or1, r2@, qv);
                }
                crate::model::lemma_pdeg_bound(r2@);
            }
            r0 = r1;
            r1 = r2;
            t0 = t1;
            t1 = t2;
            proof {
                u0 = ou1;
                u1 = u2;
            }
        }
        let reduced = t0.div_rem(modulus);
        let cand = reduced.1.truncate();
        let prod = self.gf_mul_mod(&cand, modulus);
        let one_check = prod.is_one();
        proof {
            let tr = reduced.1;
            crate::model::lemma_pdeg_bound(tr@);
            assert forall|k: int| k > pdeg(tr@) implies !#[trigger] coeff(cand@, k) by {
                crate::model::lemma_coeff_above_pdeg(tr@, k);
            }
            crate::model::lemma_pdeg_le(cand@, pdeg(tr@));
            // for an irreducible modulus and a non-zero element, the Euclid
            // loop's last non-zero remainder is the constant one, so the
            // Bezout coefficient is a true inverse and the check succeeds
            if pirreducible(mv) && !is_pzero(self@) {
                crate::model::lemma_pdivides_refl(r0@);
                crate::model::lemma_pdivides_zero(r0@, r1@);
                assert(pdivides(r0@, mv) && pdivides(r0@, av));
                let cm = choose|c: Seq<bool>| #[trigger] is_product(mv, c, r0@);
                assert(pdeg(cm) <= 0 || pdeg(r0@) <= 0);
                if pdeg(r0@) > 0 {
                    crate::model::lemma_pdeg_bound(cm);
                    crate::model::lemma_pdeg_coeff(mv);
                    if pdeg(cm) <= -1 {
                        crate::model::lemma_pdeg_zero(cm);
                        crate::model::lemma_pmul_coeff_zero(cm, r0@, 16 * L);
                        assert(pmul_coeff(cm, r0@, 16 * L) == coeff(mv, 16 * L));
                        assert(false);
                    } else {
                        // the cofactor is the constant one, so r0 matches M
                        crate::model::lemma_pdeg_coeff(cm);
                        assert forall|x: int| #[trigger] coeff(cm, x) == coeff(pone(1), x) by {
                            if x > 0 {
                                crate::model::lemma_coeff_above_pdeg(cm, x);
                            }
                        }
                        assert forall|k: int| #[trigger] coeff(r0@, k) == coeff(mv, k) by {
                            crate::model::lemma_pmul_congr_left(cm, pone(1), r0@, k);
                            crate::model::lemma_pmul_by_one(1, r0@, k);
                            assert(pmul_coeff(cm, r0@, k) == coeff(mv, k));
                        }
                        // but then r0 divides the element, whose degree is
                        // too small for a degree-16L divisor
                        let ca = choose|c: Seq<bool>| #[trigger] is_product(av, c, r0@);
                        if is_pzero(ca) {
                            assert forall|k: int| 0 <= k < av.len() implies !av[k] by {
                                crate::model::lemma_pmul_coeff_zero(ca, r0@, k);
                                assert(pmul_coeff(ca, r0@, k) == coeff(av, k));
                            }
                            assert forall|k: int| 0 <= k < self@.len() implies !self@[k] by {
                                assert(coeff(av, k) == coeff(self@, k));
                            }
                            assert(false);
                        } else {
                            crate::model::lemma_pdeg_zero(ca);
                            crate::model::lemma_pdeg_bound(ca);
                            assert(coeff(r0@, 16 * L));
                            if pdeg(r0@) < 16 * L {
                                crate::model::lemma_coeff_above_pdeg(r0@, 16 * L);
                            }
                            crate::model::lemma_pmul_coeff_at_deg_sum(ca, r0@);
                            assert(pmul_coeff(ca, r0@, pdeg(ca) + pdeg(r0@)) == coeff(
                                av,
                                pdeg(ca) + pdeg(r0@),
                            ));
                            crate::model::lemma_coeff_above_pdeg(av, pdeg(ca) + pdeg(r0@));
                            assert(false);
                        }
                    }
                }
                assert(pdeg(r0@) == 0);
                crate::model::lemma_pdeg_coeff(r0@);
                assert forall|k: int| #[trigger] coeff(r0@, k) == coeff(
                    pone((16 * L) as nat),
                    k,
                ) by {
                    if k > 0 {
                        crate::model::lemma_coeff_above_pdeg(r0@, k);
                    }
                }
                // substitute the final reduction t0 == q2*M + tr into the
                // Bezout identity and regroup around M
                let q2v = reduced.0@;
                let qa = crate::model::pmul(q2v, av);
                let nu2: nat = if qa.len() >= u0.len() {
                    qa.len()
                } else {
                    u0.len()
                };
                let uf = Seq::new(nu2, |x: int| coeff(qa, x) != coeff(u0, x));
                assert forall|x: int| #[trigger] coeff(t0@, x) == (coeff(
                    crate::model::pmul(q2v, mv),
                    x,
                ) != coeff(tr@, x)) by {
                    crate::model::lemma_coeff_pmul(q2v, mv, x);
                    assert(coeff(t0@, x) == (pmul_coeff(q2v, mv, x) != coeff(tr@, x)));
                }
                assert forall|x: int| #[trigger] coeff(uf, x) == (coeff(qa, x) != coeff(
                    u0,
                    x,
                )) by {}
                assert forall|x: int| #[trigger] coeff(cand@, x) == coeff(tr@, x) by {
                    if x >= 16 * L {
                        crate::model::lemma_coeff_above_pdeg(tr@, x);
                    }
                }
                assert forall|x: int| #[trigger] coeff(crate::model::pmul(mv, av), x) == coeff(
                    crate::model::pmul(av, mv),
                    x,
                ) by {
                    crate::model::lemma_coeff_pmul(mv, av, x);
                    crate::model::lemma_coeff_pmul(av, mv, x);
                    crate::model::lemma_pmul_coeff_comm(mv, av, x);
                }
                assert forall|k: int| pmul_coeff(self@, cand@, k) == ((#[trigger] pmul_coeff(
                    uf,
                    mv,
                    k,
                )) != coeff(pone((16 * L) as nat), k)) by {
                    assert(coeff(r0@, k) == (pmul_coeff(t0@, av, k) != pmul_coeff(u0, mv, k)));
                    crate::model::lemma_pmul_xor_left(
                        t0@,
                        crate::model::pmul(q2v, mv),
                        tr@,
                        av,
                        k,
                    );
                    crate::model::lemma_pmul_assoc(q2v, mv, av, k);
                    crate::model::lemma_pmul_congr_right(
                        q2v,
                        crate::model::pmul(mv, av),
                        crate::model::pmul(av, mv),
                        k,
                    );
                    crate::model::lemma_pmul_assoc(q2v, av, mv, k);
                    crate::model::lemma_pmul_xor_left(uf, qa, u0, mv, k);
                    crate::model::lemma_pmul_congr_left(cand@, tr@, av, k);
                    crate::model::lemma_pmul_congr_right(cand@, av, self@, k);
                    crate::model::lemma_pmul_coeff_comm(cand@, self@, k);
                }
                assert(mul_mod_with(self@, cand@, mv, pone((16 * L) as nat), uf));
                assert(mul_mod(self@, cand@, mv, pone((16 * L) as nat)));
                // the checked product agrees with the constant one, since
                // both are reduced remainders of the same product
                let onep = pone((16 * L) as nat);
                assert forall|x: int| x > 0 implies !#[trigger] coeff(onep, x) by {}
                crate::model::lemma_pdeg_le(onep, 0);
                if pdeg(onep) < 0 {
                    crate::model::lemma_coeff_above_pdeg(onep, 0);
                }
                crate::model::lemma_mul_mod_unique(self@, cand@, mv, prod@, onep);
                assert(coeff(prod@, 0) == coeff(onep, 0));
                assert forall|k: int| 1 <= k < prod@.len() implies !prod@[k] by {
                    assert(coeff(prod@, k) == coeff(onep, k));
                }
                assert(is_pone(prod@));
            }
        }
        if one_check {
            proof {
                assert(prod@ =~= pone((16 * L) as nat));
            }
            Option::Some(cand)
        } else {
            Option::None
        }
    }
}

} // verus!
