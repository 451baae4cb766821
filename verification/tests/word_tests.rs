//! Word-level carryless multiplication and the fixed-width polynomial type.
use gf2x::{widening_clmul, ExtField2, GF_2_128, GF_2_16};

#[test]
fn test_widening_clmul() {
    assert_eq!(widening_clmul(15, 15), (0, 0b1010101));
    assert_eq!(widening_clmul(0xFFFF, 0xFFFF), (0x5555, 0x5555));
    assert_eq!(widening_clmul(0xE223, 0x672F), (0x267B, 0xB291));
    assert_eq!(widening_clmul(0, 0), (0, 0));
    assert_eq!(widening_clmul(0, 1), (0, 0));
    assert_eq!(widening_clmul(1, 0), (0, 0));
}

#[test]
fn clmul_zero_annihilates() {
    let mut x: u16 = 1;
    while x != 0 {
        assert_eq!(widening_clmul(0, x), (0, 0));
        assert_eq!(widening_clmul(x, 0), (0, 0));
        x = x.wrapping_mul(3).wrapping_add(41);
        if x == 1 {
            break;
        }
    }
    assert_eq!(widening_clmul(0, 0xFFFF), (0, 0));
}

#[test]
fn clmul_one_is_identity() {
    assert_eq!(widening_clmul(1, 0xABCD), (0, 0xABCD));
    assert_eq!(widening_clmul(0xABCD, 1), (0, 0xABCD));
}

#[test]
fn clmul_matches_bit_convolution() {
    let cases: [(u16, u16); 4] = [(0xE223, 0x672F), (0x8001, 0x8001), (15, 15), (0x1234, 0x00FF)];
    let mut ci: usize = 0;
    while ci < cases.len() {
        let (a, b) = cases[ci];
        let (high, low) = widening_clmul(a, b);
        let mut k: u32 = 0;
        while k < 32 {
            let mut expect = false;
            let mut i: u32 = 0;
            while i < 16 {
                if i <= k && k - i < 16 {
                    let ai = (a >> i) & 1 == 1;
                    let bj = (b >> (k - i)) & 1 == 1;
                    if ai && bj {
                        expect = !expect;
                    }
                }
                i += 1;
            }
            let got = if k < 16 {
                (low >> k) & 1 == 1
            } else {
                (high >> (k - 16)) & 1 == 1
            };
            assert_eq!(got, expect);
            k += 1;
        }
        ci += 1;
    }
}

#[test]
fn test_extfield_widening_mul() {
    assert_eq!(
        GF_2_128::zero().not().widening_gf_mul(&GF_2_128::zero()),
        (GF_2_128::zero(), GF_2_128::zero())
    );
    // 0xFFFF * 0xFFFF = 0x5555,0x5555
    let fives = GF_2_128::from_limbs([0x5555; 8]);
    assert_eq!(
        GF_2_128::zero().not().widening_gf_mul(&GF_2_128::zero().not()),
        (fives, fives)
    );

    let lhs = GF_2_128::from_limbs([
        0x3DCC, 0x5CE2, 0x8A9D, 0x3FE3, 0x5309, 0x07F3, 0xC9FD, 0x43B6,
    ]);
    let rhs = GF_2_128::from_limbs([
        0x8370, 0x7DA9, 0x108D, 0xF5B7, 0x30C9, 0xAEB8, 0x719A, 0xEDB5,
    ]);
    let prod = (
        GF_2_128::from_limbs([
            0x1EAB, 0x66E7, 0x4160, 0x869E, 0xA3A7, 0x038E, 0x03AB, 0x25BF,
        ]),
        GF_2_128::from_limbs([
            0x77C9, 0xE332, 0x2107, 0x2707, 0x8AFD, 0x8E14, 0xE779, 0x45CE,
        ]),
    );
    assert_eq!(lhs.widening_gf_mul(&rhs), prod);

    let lhs = GF_2_128::from_limbs([
        0x102D, 0x2BD4, 0x66AC, 0xBCB1, 0xF7C7, 0x5FE9, 0xBBC2, 0x335D,
    ]);
    let rhs = GF_2_128::from_limbs([
        0xEB90, 0xC40B, 0xFD14, 0xE019, 0xDFC5, 0xE087, 0x23EF, 0xA19F,
    ]);
    let prod = (
        GF_2_128::from_limbs([
            0x0EA0, 0x7C5D, 0xFBA7, 0x0792, 0x1B33, 0x323D, 0xE533, 0x6BF7,
        ]),
        GF_2_128::from_limbs([
            0x19B6, 0xA88E, 0x62E5, 0xBB2E, 0x06AF, 0xAB14, 0x6A88, 0xE42B,
        ]),
    );
    assert_eq!(lhs.widening_gf_mul(&rhs), prod);

    let lhs = GF_2_128::from_limbs([
        0xA95D, 0x01B0, 0xD0A6, 0x81A9, 0x92A5, 0xA216, 0xC971, 0x961A,
    ]);
    let rhs = GF_2_128::from_limbs([
        0x0817, 0x2EE5, 0xB309, 0x150F, 0x2BF1, 0x5A62, 0x2197, 0xB1C8,
    ]);
    let prod = (
        GF_2_128::from_limbs([
            0x0543, 0x30B1, 0x8B03, 0x4A8E, 0x43F7, 0x29DB, 0x10A6, 0xBCB3,
        ]),
        GF_2_128::from_limbs([
            0x7D9B, 0x512D, 0x94F5, 0x12B3, 0x8D64, 0xE68F, 0xEAFD, 0xC150,
        ]),
    );
    assert_eq!(lhs.widening_gf_mul(&rhs), prod);
}

#[test]
fn extfield_limbs_round_trip() {
    let limbs: [u16; 8] = [1, 2, 3, 4, 5, 6, 7, 8];
    let v = ExtField2::<8>::from_limbs(limbs);
    assert_eq!(v.as_limbs(), &limbs[..]);
}

#[test]
fn extfield_zero_one_shapes() {
    let z = ExtField2::<8>::zero();
    assert_eq!(z.as_limbs(), &[0u16; 8][..]);
    assert!(z.is_zero());
    assert!(!z.is_one());
    let o = ExtField2::<8>::one();
    assert_eq!(o.as_limbs(), &[0, 0, 0, 0, 0, 0, 0, 1][..]);
    assert!(o.is_one());
    assert!(!o.is_zero());
}

#[test]
fn extfield_not_flips_every_limb() {
    let v = ExtField2::<8>::from_limbs([0x0000, 0xFFFF, 0x1234, 0x8001, 0, 0, 0xAAAA, 0x5555]);
    let n = v.not();
    assert_eq!(
        n.as_limbs(),
        &[0xFFFF, 0x0000, 0xEDCB, 0x7FFE, 0xFFFF, 0xFFFF, 0x5555, 0xAAAA][..]
    );
}

#[test]
fn extfield_add_is_limbwise_xor() {
    let a = ExtField2::<8>::from_limbs([0x00FF, 0x0F0F, 1, 2, 3, 4, 5, 6]);
    let b = ExtField2::<8>::from_limbs([0xFF00, 0x00FF, 1, 1, 1, 1, 1, 1]);
    let expect = ExtField2::<8>::from_limbs([0xFFFF, 0x0FF0, 0, 3, 2, 5, 4, 7]);
    assert_eq!(a.gf_add(&b), expect);
    assert_eq!(b.gf_add(&a), expect);
    assert_eq!(a.gf_sub(&b), expect);
    // adding an element to itself gives zero
    assert!(a.gf_add(&a).is_zero());
    // zero is the identity
    assert_eq!(a.gf_add(&ExtField2::<8>::zero()), a);
}

#[test]
fn extfield_add_associates() {
    let a = ExtField2::<8>::from_limbs([1, 2, 3, 4, 5, 6, 7, 8]);
    let b = ExtField2::<8>::from_limbs([0x8000, 0x4000, 0x2000, 0x1000, 9, 10, 11, 12]);
    let c = ExtField2::<8>::from_limbs([0xFFFF, 0, 0xFFFF, 0, 0xFFFF, 0, 0xFFFF, 0]);
    assert_eq!(a.gf_add(&b).gf_add(&c), a.gf_add(&b.gf_add(&c)));
}

#[test]
fn extfield_16_bit_instance_works() {
    let a = GF_2_16::from_limbs([0xE223]);
    let b = GF_2_16::from_limbs([0x672F]);
    let (high, low) = a.widening_gf_mul(&b);
    assert_eq!(high.as_limbs(), &[0x267B][..]);
    assert_eq!(low.as_limbs(), &[0xB291][..]);
}
