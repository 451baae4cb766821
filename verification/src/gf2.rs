//! Concrete binary extension fields GF(2^m) for m = 128, 192, 256.
//!
//! Each field fixes a compile-time irreducible modulus polynomial of degree
//! exactly m and exposes the `FieldArithmetic` capability set over elements
//! of degree below m.  The moduli are caller-established irreducible
//! polynomials; nothing checks irreducibility at runtime, and the clauses
//! that depend on it carry it as an explicit hypothesis.
use vstd::prelude::*;

verus! {

use crate::model::{is_pone, is_pzero, limbs_poly, mul_mod, pair_poly, pdeg, pirreducible, pone, pxor};
use crate::wide::WideExtField2;
use crate::{ExtField2, Word};

/// Relies on rand::random: draws a fresh word from the thread-local
/// generator.  Nothing is promised of the value drawn.
#[verifier::external_body]
fn random_word() -> (r: Word) {
    rand::random::<u16>()
}

/// An algebraic field: zero, one, addition, and multiplication, with a
/// multiplicative inverse for the elements where one exists.
pub trait FieldArithmetic: Sized + Clone {
    /// The element as a GF(2) coefficient sequence.
    spec fn poly_view(&self) -> Seq<bool>;

    /// The field's modulus polynomial.
    spec fn modulus_view() -> Seq<bool>;

    /// The number of stored coefficients per element.
    spec fn nbits() -> nat;

    fn is_zero(&self) -> (r: bool)
        ensures
            r == is_pzero(self.poly_view()),
    ;

    fn is_one(&self) -> (r: bool)
        ensures
            r == is_pone(self.poly_view()),
    ;

    fn zero() -> (r: Self)
        ensures
            is_pzero(r.poly_view()),
            r.poly_view().len() == Self::nbits(),
    ;

    fn one() -> (r: Self)
        ensures
            is_pone(r.poly_view()),
            r.poly_view().len() == Self::nbits(),
    ;

    fn random() -> (r: Self)
        ensures
            r.poly_view().len() == Self::nbits(),
    ;

    fn modadd(&self, rhs: &Self) -> (r: Self)
        ensures
            r.poly_view() == pxor(self.poly_view(), rhs.poly_view()),
    ;

    fn modsub(&self, rhs: &Self) -> (r: Self)
        ensures
            r.poly_view() == pxor(self.poly_view(), rhs.poly_view()),
    ;

    fn modmul(&self, rhs: &Self) -> (r: Self)
        ensures
            mul_mod(self.poly_view(), rhs.poly_view(), Self::modulus_view(), r.poly_view()),
            pdeg(r.poly_view()) < pdeg(Self::modulus_view()),
    ;

    fn modinv(&self) -> (r: Option<Self>)
        ensures
            is_pzero(self.poly_view()) ==> r is None,
            r matches Option::Some(b) ==> mul_mod(
                self.poly_view(),
                b.poly_view(),
                Self::modulus_view(),
                pone(Self::nbits()),
            ) && !is_pzero(self.poly_view()),
            pirreducible(Self::modulus_view()) && !is_pzero(self.poly_view()) ==> r is Some,
    ;
}

/// Sample `L` fresh words from the external randomness source and use them
/// directly as limbs: every bit pattern is a valid, already-reduced element.
fn random_limbs<const L: usize>() -> (r: ExtField2<L>)
    ensures
        r@.len() == 16 * L,
{
    let mut limbs: [Word; L] = [0; L];
    let mut i: usize = 0;
    while i < L
        decreases L - i,
    {
        limbs[i] = random_word();
        i = i + 1;
    }
    ExtField2::from_limbs(limbs)
}

/// A degree-`16 * L` monic modulus from its low coefficients: the high half
/// is the single leading term.
fn make_modulus<const L: usize>(low: ExtField2<L>) -> (m: WideExtField2<L>)
    requires
        L >= 1,
    ensures
        m@.len() == 32 * L,
        pdeg(m@) == 16 * L,
        m@[16 * L],
        forall|k: int| 16 * L < k < 32 * L ==> !m@[k],
        forall|k: int| 0 <= k < 16 * L ==> m@[k] == low@[k],
{
    let m = WideExtField2::from_f2x(ExtField2::one(), low);
    proof {
        crate::model::lemma_monic_pair_shape(m.high.limbs@, m.low.limbs@);
    }
    m
}

/// The modulus of GF(2^128): x^128 + x^77 + x^35 + x^11 + 1.
pub open spec fn gf128_modulus() -> Seq<bool> {
    pair_poly(
        seq![0u16, 0u16, 0u16, 0u16, 0u16, 0u16, 0u16, 1u16],
        seq![0u16, 0u16, 0u16, 0x2000u16, 0u16, 0x0008u16, 0u16, 0x0801u16],
    )
}

/// An element of the binary extension field GF(2^128).
#[derive(Debug, Copy, Clone, Eq, PartialEq)]
pub struct GF2p128 {
    pub poly: ExtField2<8>,
}

impl GF2p128 {
    /// The field's irreducible modulus, fixed at definition time.
    pub fn modulus() -> (m: WideExtField2<8>)
        ensures
            m@ == gf128_modulus(),
            pdeg(m@) == 128,
    {
        let mut limbs: [Word; 8] = [0; 8];
        limbs[3] = 0x2000;
        limbs[5] = 0x0008;
        limbs[7] = 0x0801;
        let low = ExtField2::from_limbs(limbs);
        let m = make_modulus(low);
        proof {
            let hs = seq![0u16, 0u16, 0u16, 0u16, 0u16, 0u16, 0u16, 1u16];
            let ls = seq![0u16, 0u16, 0u16, 0x2000u16, 0u16, 0x0008u16, 0u16, 0x0801u16];
            assert(ls =~= low.limbs@);
            crate::model::lemma_monic_pair_shape(hs, ls);
            assert(m@ =~= gf128_modulus());
        }
        m
    }

    pub fn from_poly(poly: ExtField2<8>) -> (r: Self)
        ensures
            r.poly == poly,
    {
        Self { poly }
    }

    /// Sample a random element: every 128-bit pattern is a valid element.
    pub fn random() -> (r: Self)
        ensures
            r.poly@.len() == 128,
    {
        Self::from_poly(random_limbs())
    }

    pub fn zero() -> (r: Self)
        ensures
            is_pzero(r.poly@),
            r.poly@.len() == 128,
    {
        Self::from_poly(ExtField2::zero())
    }

    pub fn one() -> (r: Self)
        ensures
            is_pone(r.poly@),
            r.poly@.len() == 128,
    {
        Self::from_poly(ExtField2::one())
    }

    /// Field addition: coefficientwise XOR.
    pub fn add(&self, rhs: &Self) -> (r: Self)
        ensures
            r.poly@ == pxor(self.poly@, rhs.poly@),
    {
        Self::from_poly(self.poly.gf_add(&rhs.poly))
    }

    /// Field subtraction coincides with addition: the characteristic is 2.
    pub fn sub(&self, rhs: &Self) -> (r: Self)
        ensures
            r.poly@ == pxor(self.poly@, rhs.poly@),
    {
        self.add(rhs)
    }

    /// Field multiplication: the full product reduced modulo the modulus.
    pub fn mul(&self, rhs: &Self) -> (r: Self)
        ensures
            mul_mod(self.poly@, rhs.poly@, gf128_modulus(), r.poly@),
            pdeg(r.poly@) < 128,
    {
        let m = Self::modulus();
        Self::from_poly(self.poly.gf_mul_mod(&rhs.poly, &m))
    }

    /// The multiplicative inverse: `None` for the zero element, which has
    /// none; since the modulus is irreducible, every non-zero element's
    /// inverse is found and returned.
    pub fn inv(&self) -> (r: Option<Self>)
        ensures
            is_pzero(self.poly@) ==> r is None,
            r matches Option::Some(b) ==> mul_mod(self.poly@, b.poly@, gf128_modulus(), pone(128))
                && pdeg(b.poly@) < 128 && !is_pzero(self.poly@),
            pirreducible(gf128_modulus()) && !is_pzero(self.poly@) ==> r is Some,
    {
        let m = Self::modulus();
        match self.poly.modinv(&m) {
            Option::Some(p) => Option::Some(Self::from_poly(p)),
            Option::None => Option::None,
        }
    }

    pub fn is_zero(&self) -> (r: bool)
        ensures
            r == is_pzero(self.poly@),
    {
        self.poly.is_zero()
    }

    pub fn is_one(&self) -> (r: bool)
        ensures
            r == is_pone(self.poly@),
    {
        self.poly.is_one()
    }
}

impl FieldArithmetic for GF2p128 {
    open spec fn poly_view(&self) -> Seq<bool> {
        self.poly@
    }

    open spec fn modulus_view() -> Seq<bool> {
        gf128_modulus()
    }

    open spec fn nbits() -> nat {
        128
    }

    fn is_zero(&self) -> (r: bool) {
        GF2p128::is_zero(self)
    }

    fn is_one(&self) -> (r: bool) {
        GF2p128::is_one(self)
    }

    fn zero() -> (r: Self) {
        GF2p128::zero()
    }

    fn one() -> (r: Self) {
        GF2p128::one()
    }

    fn random() -> (r: Self) {
        GF2p128::random()
    }

    fn modadd(&self, rhs: &Self) -> (r: Self) {
        self.add(rhs)
    }

    fn modsub(&self, rhs: &Self) -> (r: Self) {
        self.sub(rhs)
    }

    fn modmul(&self, rhs: &Self) -> (r: Self) {
        proof {
            lemma_gf128_modulus_pdeg();
        }
        self.mul(rhs)
    }

    fn modinv(&self) -> (r: Option<Self>) {
        self.inv()
    }
}

/// The stated modulus has degree exactly 128.
pub proof fn lemma_gf128_modulus_pdeg()
    ensures
        pdeg(gf128_modulus()) == 128,
{
    crate::model::lemma_monic_pair_shape(
        seq![0u16, 0u16, 0u16, 0u16, 0u16, 0u16, 0u16, 1u16],
        seq![0u16, 0u16, 0u16, 0x2000u16, 0u16, 0x0008u16, 0u16, 0x0801u16],
    );
}

/// The modulus of GF(2^192): x^192 + x^142 + x^103 + x^17 + 1.
pub open spec fn gf192_modulus() -> Seq<bool> {
    pair_poly(
        seq![0u16, 0u16, 0u16, 0u16, 0u16, 0u16, 0u16, 0u16, 0u16, 0u16, 0u16, 1u16],
        seq![0u16, 0u16, 0u16, 0x4000u16, 0u16, 0x0080u16, 0u16, 0u16, 0u16, 0u16, 0x0002u16, 0x0001u16],
    )
}

/// An element of the binary extension field GF(2^192).
#[derive(Debug, Copy, Clone, Eq, PartialEq)]
pub struct GF2p192 {
    pub poly: ExtField2<12>,
}

impl GF2p192 {
    /// The field's irreducible modulus, fixed at definition time.
    pub fn modulus() -> (m: WideExtField2<12>)
        ensures
            m@ == gf192_modulus(),
            pdeg(m@) == 192,
    {
        let mut limbs: [Word; 12] = [0; 12];
        limbs[3] = 0x4000;
        limbs[5] = 0x0080;
        limbs[10] = 0x0002;
        limbs[11] = 0x0001;
        let low = ExtField2::from_limbs(limbs);
        let m = make_modulus(low);
        proof {
            let hs = seq![0u16, 0u16, 0u16, 0u16, 0u16, 0u16, 0u16, 0u16, 0u16, 0u16, 0u16, 1u16];
            let ls = seq![0u16, 0u16, 0u16, 0x4000u16, 0u16, 0x0080u16, 0u16, 0u16, 0u16, 0u16, 0x0002u16, 0x0001u16];
            assert(ls =~= low.limbs@);
            crate::model::lemma_monic_pair_shape(hs, ls);
            assert(m@ =~= gf192_modulus());
        }
        m
    }

    pub fn from_poly(poly: ExtField2<12>) -> (r: Self)
        ensures
            r.poly == poly,
    {
        Self { poly }
    }

    /// Sample a random element: every 192-bit pattern is a valid element.
    pub fn random() -> (r: Self)
        ensures
            r.poly@.len() == 192,
    {
        Self::from_poly(random_limbs())
    }

    pub fn zero() -> (r: Self)
        ensures
            is_pzero(r.poly@),
            r.poly@.len() == 192,
    {
        Self::from_poly(ExtField2::zero())
    }

    pub fn one() -> (r: Self)
        ensures
            is_pone(r.poly@),
            r.poly@.len() == 192,
    {
        Self::from_poly(ExtField2::one())
    }

    /// Field addition: coefficientwise XOR.
    pub fn add(&self, rhs: &Self) -> (r: Self)
        ensures
            r.poly@ == pxor(self.poly@, rhs.poly@),
    {
        Self::from_poly(self.poly.gf_add(&rhs.poly))
    }

    /// Field subtraction coincides with addition: the characteristic is 2.
    pub fn sub(&self, rhs: &Self) -> (r: Self)
        ensures
            r.poly@ == pxor(self.poly@, rhs.poly@),
    {
        self.add(rhs)
    }

    /// Field multiplication: the full product reduced modulo the modulus.
    pub fn mul(&self, rhs: &Self) -> (r: Self)
        ensures
            mul_mod(self.poly@, rhs.poly@, gf192_modulus(), r.poly@),
            pdeg(r.poly@) < 192,
    {
        let m = Self::modulus();
        Self::from_poly(self.poly.gf_mul_mod(&rhs.poly, &m))
    }

    /// The multiplicative inverse: `None` for the zero element, which has
    /// none; since the modulus is irreducible, every non-zero element's
    /// inverse is found and returned.
    pub fn inv(&self) -> (r: Option<Self>)
        ensures
            is_pzero(self.poly@) ==> r is None,
            r matches Option::Some(b) ==> mul_mod(self.poly@, b.poly@, gf192_modulus(), pone(192))
                && pdeg(b.poly@) < 192 && !is_pzero(self.poly@),
            pirreducible(gf192_modulus()) && !is_pzero(self.poly@) ==> r is Some,
    {
        let m = Self::modulus();
        match self.poly.modinv(&m) {
            Option::Some(p) => Option::Some(Self::from_poly(p)),
            Option::None => Option::None,
        }
    }

    pub fn is_zero(&self) -> (r: bool)
        ensures
            r == is_pzero(self.poly@),
    {
        self.poly.is_zero()
    }

    pub fn is_one(&self) -> (r: bool)
        ensures
            r == is_pone(self.poly@),
    {
        self.poly.is_one()
    }
}

impl FieldArithmetic for GF2p192 {
    open spec fn poly_view(&self) -> Seq<bool> {
        self.poly@
    }

    open spec fn modulus_view() -> Seq<bool> {
        gf192_modulus()
    }

    open spec fn nbits() -> nat {
        192
    }

    fn is_zero(&self) -> (r: bool) {
        GF2p192::is_zero(self)
    }

    fn is_one(&self) -> (r: bool) {
        GF2p192::is_one(self)
    }

    fn zero() -> (r: Self) {
        GF2p192::zero()
    }

    fn one() -> (r: Self) {
        GF2p192::one()
    }

    fn random() -> (r: Self) {
        GF2p192::random()
    }

    fn modadd(&self, rhs: &Self) -> (r: Self) {
        self.add(rhs)
    }

    fn modsub(&self, rhs: &Self) -> (r: Self) {
        self.sub(rhs)
    }

    fn modmul(&self, rhs: &Self) -> (r: Self) {
        proof {
            lemma_gf192_modulus_pdeg();
        }
        self.mul(rhs)
    }

    fn modinv(&self) -> (r: Option<Self>) {
        self.inv()
    }
}

/// The stated modulus has degree exactly 192.
pub proof fn lemma_gf192_modulus_pdeg()
    ensures
        pdeg(gf192_modulus()) == 192,
{
    crate::model::lemma_monic_pair_shape(
        seq![0u16, 0u16, 0u16, 0u16, 0u16, 0u16, 0u16, 0u16, 0u16, 0u16, 0u16, 1u16],
        seq![0u16, 0u16, 0u16, 0x4000u16, 0u16, 0x0080u16, 0u16, 0u16, 0u16, 0u16, 0x0002u16, 0x0001u16],
    );
}


/// The modulus of GF(2^256): x^256 + x^241 + x^178 + x^121 + 1.
pub open spec fn gf256_modulus() -> Seq<bool> {
    pair_poly(
        seq![0u16, 0u16, 0u16, 0u16, 0u16, 0u16, 0u16, 0u16, 0u16, 0u16, 0u16, 0u16, 0u16, 0u16, 0u16, 1u16],
        seq![0x0002u16, 0u16, 0u16, 0u16, 0x0004u16, 0u16, 0u16, 0u16, 0x0200u16, 0u16, 0u16, 0u16, 0u16, 0u16, 0u16, 0x0001u16],
    )
}

/// An element of the binary extension field GF(2^256).
#[derive(Debug, Copy, Clone, Eq, PartialEq)]
pub struct GF2p256 {
    pub poly: ExtField2<16>,
}

impl GF2p256 {
    /// The field's irreducible modulus, fixed at definition time.
    pub fn modulus() -> (m: WideExtField2<16>)
        ensures
            m@ == gf256_modulus(),
            pdeg(m@) == 256,
    {
        let mut limbs: [Word; 16] = [0; 16];
        limbs[0] = 0x0002;
        limbs[4] = 0x0004;
        limbs[8] = 0x0200;
        limbs[15] = 0x0001;
        let low = ExtField2::from_limbs(limbs);
        let m = make_modulus(low);
        proof {
            let hs = seq![0u16, 0u16, 0u16, 0u16, 0u16, 0u16, 0u16, 0u16, 0u16, 0u16, 0u16, 0u16, 0u16, 0u16, 0u16, 1u16];
            let ls = seq![0x0002u16, 0u16, 0u16, 0u16, 0x0004u16, 0u16, 0u16, 0u16, 0x0200u16, 0u16, 0u16, 0u16, 0u16, 0u16, 0u16, 0x0001u16];
            assert(ls =~= low.limbs@);
            crate::model::lemma_monic_pair_shape(hs, ls);
            assert(m@ =~= gf256_modulus());
        }
        m
    }

    pub fn from_poly(poly: ExtField2<16>) -> (r: Self)
        ensures
            r.poly == poly,
    {
        Self { poly }
    }

    /// Sample a random element: every 256-bit pattern is a valid element.
    pub fn random() -> (r: Self)
        ensures
            r.poly@.len() == 256,
    {
        Self::from_poly(random_limbs())
    }

    pub fn zero() -> (r: Self)
        ensures
            is_pzero(r.poly@),
            r.poly@.len() == 256,
    {
        Self::from_poly(ExtField2::zero())
    }

    pub fn one() -> (r: Self)
        ensures
            is_pone(r.poly@),
            r.poly@.len() == 256,
    {
        Self::from_poly(ExtField2::one())
    }

    /// Field addition: coefficientwise XOR.
    pub fn add(&self, rhs: &Self) -> (r: Self)
        ensures
            r.poly@ == pxor(self.poly@, rhs.poly@),
    {
        Self::from_poly(self.poly.gf_add(&rhs.poly))
    }

    /// Field subtraction coincides with addition: the characteristic is 2.
    pub fn sub(&self, rhs: &Self) -> (r: Self)
        ensures
            r.poly@ == pxor(self.poly@, rhs.poly@),
    {
        self.add(rhs)
    }

    /// Field multiplication: the full product reduced modulo the modulus.
    pub fn mul(&self, rhs: &Self) -> (r: Self)
        ensures
            mul_mod(self.poly@, rhs.poly@, gf256_modulus(), r.poly@),
            pdeg(r.poly@) < 256,
    {
        let m = Self::modulus();
        Self::from_poly(self.poly.gf_mul_mod(&rhs.poly, &m))
    }

    /// The multiplicative inverse: `None` for the zero element, which has
    /// none; since the modulus is irreducible, every non-zero element's
    /// inverse is found and returned.
    pub fn inv(&self) -> (r: Option<Self>)
        ensures
            is_pzero(self.poly@) ==> r is None,
            r matches Option::Some(b) ==> mul_mod(self.poly@, b.poly@, gf256_modulus(), pone(256))
                && pdeg(b.poly@) < 256 && !is_pzero(self.poly@),
            pirreducible(gf256_modulus()) && !is_pzero(self.poly@) ==> r is Some,
    {
        let m = Self::modulus();
        match self.poly.modinv(&m) {
            Option::Some(p) => Option::Some(Self::from_poly(p)),
            Option::None => Option::None,
        }
    }

    pub fn is_zero(&self) -> (r: bool)
        ensures
            r == is_pzero(self.poly@),
    {
        self.poly.is_zero()
    }

    pub fn is_one(&self) -> (r: bool)
        ensures
            r == is_pone(self.poly@),
    {
        self.poly.is_one()
    }
}

impl FieldArithmetic for GF2p256 {
    open spec fn poly_view(&self) -> Seq<bool> {
        self.poly@
    }

    open spec fn modulus_view() -> Seq<bool> {
        gf256_modulus()
    }

    open spec fn nbits() -> nat {
        256
    }

    fn is_zero(&self) -> (r: bool) {
        GF2p256::is_zero(self)
    }

    fn is_one(&self) -> (r: bool) {
        GF2p256::is_one(self)
    }

    fn zero() -> (r: Self) {
        GF2p256::zero()
    }

    fn one() -> (r: Self) {
        GF2p256::one()
    }

    fn random() -> (r: Self) {
        GF2p256::random()
    }

    fn modadd(&self, rhs: &Self) -> (r: Self) {
        self.add(rhs)
    }

    fn modsub(&self, rhs: &Self) -> (r: Self) {
        self.sub(rhs)
    }

    fn modmul(&self, rhs: &Self) -> (r: Self) {
        proof {
            lemma_gf256_modulus_pdeg();
        }
        self.mul(rhs)
    }

    fn modinv(&self) -> (r: Option<Self>) {
        self.inv()
    }
}

/// The stated modulus has degree exactly 256.
pub proof fn lemma_gf256_modulus_pdeg()
    ensures
        pdeg(gf256_modulus()) == 256,
{
    crate::model::lemma_monic_pair_shape(
        seq![0u16, 0u16, 0u16, 0u16, 0u16, 0u16, 0u16, 0u16, 0u16, 0u16, 0u16, 0u16, 0u16, 0u16, 0u16, 1u16],
        seq![0x0002u16, 0u16, 0u16, 0u16, 0x0004u16, 0u16, 0u16, 0u16, 0x0200u16, 0u16, 0u16, 0u16, 0u16, 0u16, 0u16, 0x0001u16],
    );
}


} // verus!
