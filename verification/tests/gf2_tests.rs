//! The concrete fields: known-answer multiplication vectors, field laws on
//! sample values, division round trips, and randomized inversion.
use gf2x::gf2::{FieldArithmetic, GF2p128, GF2p192, GF2p256};
use gf2x::wide::WideExtField2;
use gf2x::ExtField2;

const NTESTS: usize = 10;

#[test]
fn test_gf2_128_mul() {
    let lhs = GF2p128::from_poly(ExtField2::<8>::from_limbs([
        0x1254, 0x4198, 0x8DA7, 0x29BD, 0xECF1, 0x64DE, 0xFBA7, 0xB692,
    ]));
    let rhs = GF2p128::from_poly(ExtField2::<8>::from_limbs([
        0x7D89, 0xD76A, 0x644E, 0x3A1C, 0x047C, 0xB60A, 0x1B98, 0x30F0,
    ]));
    let rem = GF2p128::from_poly(ExtField2::<8>::from_limbs([
        0x38B8, 0xB93F, 0xE30A, 0xE55E, 0xFC24, 0x2F4D, 0x5A16, 0xBD14,
    ]));
    assert_eq!(lhs.mul(&rhs), rem);

    let lhs = GF2p128::from_poly(ExtField2::<8>::from_limbs([
        0x5E17, 0xA183, 0x0FB7, 0xC7A9, 0xD3D3, 0xD1A4, 0x8962, 0xC3F5,
    ]));
    let rhs = GF2p128::from_poly(ExtField2::<8>::from_limbs([
        0x6ECC, 0x895B, 0x76CC, 0x855E, 0x9C14, 0xEF6F, 0x587A, 0x4A04,
    ]));
    let rem = GF2p128::from_poly(ExtField2::<8>::from_limbs([
        0xC42C, 0xBD01, 0xE0B0, 0x693D, 0x5E49, 0x6D28, 0xA69F, 0x701A,
    ]));
    assert_eq!(lhs.mul(&rhs), rem);

    let lhs = GF2p128::from_poly(ExtField2::<8>::from_limbs([
        0x6C70, 0x49B5, 0x97A4, 0x65D1, 0x2370, 0x8DBE, 0x127F, 0x5EFB,
    ]));
    let rhs = GF2p128::from_poly(ExtField2::<8>::from_limbs([
        0x3387, 0xF3D0, 0xBD53, 0xADF3, 0x2994, 0x3B7A, 0xB2A8, 0x974A,
    ]));
    let rem = GF2p128::from_poly(ExtField2::<8>::from_limbs([
        0x4402, 0xF342, 0x347A, 0xA630, 0x0B5D, 0x31BB, 0xBED8, 0x76A2,
    ]));
    assert_eq!(lhs.mul(&rhs), rem);

    let lhs = GF2p128::from_poly(ExtField2::<8>::from_limbs([
        0x98AA, 0xD35C, 0x02F5, 0x612C, 0x67A1, 0x9B5C, 0xF1FE, 0x98C7,
    ]));
    let rhs = GF2p128::from_poly(ExtField2::<8>::from_limbs([
        0x4F13, 0x9428, 0x6D75, 0x61C6, 0x2CE7, 0xA102, 0xB546, 0xC183,
    ]));
    let rem = GF2p128::from_poly(ExtField2::<8>::from_limbs([
        0x09D9, 0x9D26, 0x5665, 0x2DAE, 0x2A22, 0x9928, 0xC29C, 0xD153,
    ]));
    assert_eq!(lhs.mul(&rhs), rem);

    let lhs = GF2p128::from_poly(ExtField2::<8>::from_limbs([
        0x1EA8, 0xE4CA, 0x33E9, 0x7C78, 0xD1E4, 0x903F, 0x6F70, 0x20F8,
    ]));
    let rhs = GF2p128::from_poly(ExtField2::<8>::from_limbs([
        0xEA22, 0x6D4C, 0xC5D4, 0x0C82, 0xF584, 0x3185, 0x36F4, 0x12B2,
    ]));
    let rem = GF2p128::from_poly(ExtField2::<8>::from_limbs([
        0x8AF2, 0x5D11, 0xB56A, 0x68C0, 0xC3DD, 0xD9A1, 0xAC6E, 0x930B,
    ]));
    assert_eq!(lhs.mul(&rhs), rem);
}

#[test]
fn random_gf2_128_inv() {
    for _ in 0..NTESTS {
        let elem = GF2p128::random();
        if elem.poly.is_zero() {
            assert!(elem.inv().is_none());
        } else {
            let inv = elem.inv().unwrap();
            assert_eq!(elem.mul(&inv), GF2p128::one());
        }
    }
}

#[test]
fn random_gf2p192_inv() {
    for _ in 0..NTESTS {
        let elem = GF2p192::random();
        if elem.poly.is_zero() {
            assert!(elem.inv().is_none());
        } else {
            let inv = elem.inv().unwrap();
            assert_eq!(elem.mul(&inv), GF2p192::one());
        }
    }
}

#[test]
fn random_gf2p256_inv() {
    for _ in 0..NTESTS {
        let elem = GF2p256::random();
        if elem.poly.is_zero() {
            assert!(elem.inv().is_none());
        } else {
            let inv = elem.inv().unwrap();
            assert_eq!(elem.mul(&inv), GF2p256::one());
        }
    }
}

#[test]
fn addition_laws_on_samples() {
    let a = GF2p128::from_poly(ExtField2::<8>::from_limbs([
        0x1254, 0x4198, 0x8DA7, 0x29BD, 0xECF1, 0x64DE, 0xFBA7, 0xB692,
    ]));
    let b = GF2p128::from_poly(ExtField2::<8>::from_limbs([
        0x7D89, 0xD76A, 0x644E, 0x3A1C, 0x047C, 0xB60A, 0x1B98, 0x30F0,
    ]));
    let c = GF2p128::from_poly(ExtField2::<8>::from_limbs([
        0x0001, 0x8000, 0x00FF, 0xFF00, 0x1111, 0x2222, 0x3333, 0x4444,
    ]));
    assert_eq!(a.add(&b), b.add(&a));
    assert_eq!(a.add(&b).add(&c), a.add(&b.add(&c)));
    assert_eq!(a.add(&a), GF2p128::zero());
    assert_eq!(a.add(&GF2p128::zero()), a);
    assert_eq!(a.sub(&b), a.add(&b));
    // one exact expected value for the XOR formula
    let expect = GF2p128::from_poly(ExtField2::<8>::from_limbs([
        0x1254 ^ 0x7D89,
        0x4198 ^ 0xD76A,
        0x8DA7 ^ 0x644E,
        0x29BD ^ 0x3A1C,
        0xECF1 ^ 0x047C,
        0x64DE ^ 0xB60A,
        0xFBA7 ^ 0x1B98,
        0xB692 ^ 0x30F0,
    ]));
    assert_eq!(a.add(&b), expect);
}

#[test]
fn multiplication_laws_on_samples() {
    let a = GF2p128::from_poly(ExtField2::<8>::from_limbs([
        0x6C70, 0x49B5, 0x97A4, 0x65D1, 0x2370, 0x8DBE, 0x127F, 0x5EFB,
    ]));
    let b = GF2p128::from_poly(ExtField2::<8>::from_limbs([
        0x3387, 0xF3D0, 0xBD53, 0xADF3, 0x2994, 0x3B7A, 0xB2A8, 0x974A,
    ]));
    let c = GF2p128::from_poly(ExtField2::<8>::from_limbs([
        0x0123, 0x4567, 0x89AB, 0xCDEF, 0xFEDC, 0xBA98, 0x7654, 0x3210,
    ]));
    // commutativity
    assert_eq!(a.mul(&b), b.mul(&a));
    // distributivity over addition
    assert_eq!(a.mul(&b.add(&c)), a.mul(&b).add(&a.mul(&c)));
    // one is the multiplicative identity
    assert_eq!(a.mul(&GF2p128::one()), a);
    // zero annihilates
    assert_eq!(a.mul(&GF2p128::zero()), GF2p128::zero());
    // inverse round trip on a fixed element
    let inv = a.inv().unwrap();
    assert_eq!(a.mul(&inv), GF2p128::one());
    assert_eq!(inv.mul(&a), GF2p128::one());
}

#[test]
fn inv_of_zero_is_none() {
    assert!(GF2p128::zero().inv().is_none());
    assert!(GF2p192::zero().inv().is_none());
    assert!(GF2p256::zero().inv().is_none());
    assert!(GF2p128::one().inv().is_some());
}

#[test]
fn trait_methods_match_inherent_ones() {
    let a = GF2p192::random();
    let b = GF2p192::random();
    assert_eq!(a.modadd(&b), a.add(&b));
    assert_eq!(a.modsub(&b), a.sub(&b));
    assert_eq!(a.modmul(&b), a.mul(&b));
    assert_eq!(a.modinv(), a.inv());
    assert_eq!(<GF2p192 as FieldArithmetic>::zero(), GF2p192::zero());
    assert_eq!(<GF2p192 as FieldArithmetic>::one(), GF2p192::one());
    assert!(<GF2p192 as FieldArithmetic>::zero().is_zero());
    assert!(<GF2p192 as FieldArithmetic>::one().is_one());
}

#[test]
fn division_reconstructs_the_dividend() {
    // dividend = a * b, of degree below 2m; divide by the field modulus and
    // rebuild it as quotient * modulus + remainder with the widening ops.
    let a = ExtField2::<8>::from_limbs([
        0x1254, 0x4198, 0x8DA7, 0x29BD, 0xECF1, 0x64DE, 0xFBA7, 0xB692,
    ]);
    let b = ExtField2::<8>::from_limbs([
        0x7D89, 0xD76A, 0x644E, 0x3A1C, 0x047C, 0xB60A, 0x1B98, 0x30F0,
    ]);
    let m = GF2p128::modulus();
    let (ph, pl) = a.widening_gf_mul(&b);
    let d = WideExtField2::from_f2x(ph, pl);
    let (q, r) = d.div_rem(&m);
    // remainder degree is below 128
    match r.degree() {
        Some(rd) => assert!(rd < 128),
        None => {}
    }
    // quotient fits in the low half, since deg(d) < 256 and deg(m) == 128
    let q_low = q.truncate();
    assert_eq!(WideExtField2::from_f2x(ExtField2::zero(), q_low), q);
    // q * m == q * x^128 + q * (low part of m)
    let (qmh, qml) = q_low.widening_gf_mul(&m.low);
    let q_shift = WideExtField2::from_f2x(q_low, ExtField2::zero());
    let qm = q_shift.xor(&WideExtField2::from_f2x(qmh, qml));
    assert_eq!(qm.xor(&r), d);
}

fn field_laws_hold_generically<F>()
where
    F: FieldArithmetic + PartialEq + std::fmt::Debug,
{
    let a = F::random();
    let b = F::random();
    assert_eq!(a.modadd(&b), b.modadd(&a));
    assert_eq!(a.modadd(&a), F::zero());
    assert_eq!(a.modadd(&F::zero()), a);
    assert_eq!(a.modmul(&b), b.modmul(&a));
    assert_eq!(a.modmul(&F::one()), a);
    assert!(F::zero().modinv().is_none());
    if !a.is_zero() {
        let inv = a.modinv().unwrap();
        assert_eq!(a.modmul(&inv), F::one());
    }
}

#[test]
fn generic_algorithms_run_on_every_field() {
    for _ in 0..NTESTS {
        field_laws_hold_generically::<GF2p128>();
        field_laws_hold_generically::<GF2p192>();
        field_laws_hold_generically::<GF2p256>();
    }
}

#[test]
fn random_roundtrip_gf2_128() {
    for _ in 0..1000 {
        let elem = GF2p128::random();
        if !elem.is_zero() {
            let inv = elem.inv().unwrap();
            assert_eq!(elem.mul(&inv), GF2p128::one());
        }
    }
}

#[test]
fn random_roundtrip_gf2p192() {
    for _ in 0..1000 {
        let elem = GF2p192::random();
        if !elem.is_zero() {
            let inv = elem.inv().unwrap();
            assert_eq!(elem.mul(&inv), GF2p192::one());
        }
    }
}

#[test]
fn random_roundtrip_gf2p256() {
    for _ in 0..1000 {
        let elem = GF2p256::random();
        if !elem.is_zero() {
            let inv = elem.inv().unwrap();
            assert_eq!(elem.mul(&inv), GF2p256::one());
        }
    }
}
