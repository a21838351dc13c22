use bn256_group::fq::Fq;
use bn256_group::fr::Fr;
use bn256_group::g1::{G1, G1Affine, G1Compressed};
use bn256_group::g2::{G2, G2Affine, G2Compressed};

fn le_bytes_32(limbs: [u64; 4]) -> [u8; 32] {
    let mut out = [0u8; 32];
    for j in 0..4 {
        for k in 0..8 {
            out[8 * j + k] = ((limbs[j] >> (8 * k)) & 0xff) as u8;
        }
    }
    out
}

// The little-endian bytes of the base-field modulus.
const P_LIMBS: [u64; 4] = [
    0x3c208c16d87cfd47,
    0x97816a916871ca8d,
    0xb85045b68181585d,
    0x30644e72e131a029,
];

fn g1_aff_eq(a: &G1Affine, b: &G1Affine) -> bool {
    if a.infinity || b.infinity {
        a.infinity == b.infinity
    } else {
        a.x.equals(&b.x) && a.y.equals(&b.y)
    }
}

fn g2_aff_eq(a: &G2Affine, b: &G2Affine) -> bool {
    if a.infinity || b.infinity {
        a.infinity == b.infinity
    } else {
        a.x.equals(&b.x) && a.y.equals(&b.y)
    }
}

#[test]
fn g1_identity_encodes_to_zero_bytes() {
    let enc = G1Affine::identity().to_bytes();
    assert_eq!(enc.as_bytes(), &[0u8; 32]);
    let enc_jac = G1::identity().to_bytes();
    assert_eq!(enc_jac.as_bytes(), &[0u8; 32]);
}

#[test]
fn g2_identity_encodes_to_zero_bytes() {
    let enc = G2Affine::identity().to_bytes();
    assert_eq!(enc.as_bytes(), &[0u8; 64]);
    let enc_jac = G2::identity().to_bytes();
    assert_eq!(enc_jac.as_bytes(), &[0u8; 64]);
}

#[test]
fn g1_zero_bytes_decode_to_identity() {
    let dec = G1Affine::from_bytes(&G1Compressed::default()).unwrap();
    assert!(dec.is_identity());
    let dec_jac = G1::from_bytes(&G1Compressed([0u8; 32])).unwrap();
    assert!(dec_jac.is_identity());
}

#[test]
fn g2_zero_bytes_decode_to_identity() {
    let dec = G2Affine::from_bytes(&G2Compressed::default()).unwrap();
    assert!(dec.is_identity());
    let dec_jac = G2::from_bytes(&G2Compressed([0u8; 64])).unwrap();
    assert!(dec_jac.is_identity());
}

#[test]
fn g1_roundtrip_small_multiples() {
    let g = G1::generator();
    let mut p = g;
    for _ in 0..8 {
        let aff = p.to_affine();
        let dec = G1Affine::from_bytes(&aff.to_bytes()).unwrap();
        assert!(g1_aff_eq(&dec, &aff));
        p = p.add(&g);
    }
}

#[test]
fn g2_roundtrip_small_multiples() {
    let g = G2::generator();
    let mut p = g;
    for _ in 0..6 {
        let aff = p.to_affine();
        let dec = G2Affine::from_bytes(&aff.to_bytes()).unwrap();
        assert!(g2_aff_eq(&dec, &aff));
        p = p.add(&g);
    }
}

#[test]
fn g1_roundtrip_identity() {
    let id = G1Affine::identity();
    let dec = id.codec_roundtrip().unwrap();
    assert!(g1_aff_eq(&dec, &id));
}

#[test]
fn g2_roundtrip_identity() {
    let id = G2Affine::identity();
    let dec = id.codec_roundtrip().unwrap();
    assert!(g2_aff_eq(&dec, &id));
}

#[test]
fn g1_concrete_generator_scenario() {
    // The generator is (1, 2) and satisfies 2^2 = 1^3 + 3.
    let g = G1Affine::generator();
    assert!(g.x.equals(&Fq::one()));
    assert!(g.y.equals(&Fq::from_u64(2)));
    let y2 = bn256_group::fq::fq_mul(&g.y, &g.y);
    let x3 = bn256_group::fq::fq_mul(&bn256_group::fq::fq_mul(&g.x, &g.x), &g.x);
    let rhs = bn256_group::fq::fq_add(&x3, &G1Affine::curve_constant_b());
    assert!(y2.equals(&rhs));
    assert!(y2.equals(&Fq::from_u64(4)));

    // Its encoding is little-endian x = 1 with the sign bit clear (2 is even).
    let enc = g.to_bytes();
    let bytes = enc.as_bytes();
    assert_eq!(bytes[0], 1);
    for i in 1..32 {
        assert_eq!(bytes[i], 0);
    }
    assert_eq!(bytes[31] >> 7, 0);

    // Decoding the encoding reproduces (1, 2).
    let dec = G1Affine::from_bytes(&enc).unwrap();
    assert!(dec.x.equals(&Fq::one()));
    assert!(dec.y.equals(&Fq::from_u64(2)));
    assert!(!dec.infinity);
}

#[test]
fn g1_rejects_noncanonical_field_value() {
    // The modulus itself is not a canonical residue.
    let enc = G1Compressed(le_bytes_32(P_LIMBS));
    assert!(G1Affine::from_bytes(&enc).is_none());
    // One above the modulus is rejected as well.
    let mut above = P_LIMBS;
    above[0] += 1;
    let enc2 = G1Compressed(le_bytes_32(above));
    assert!(G1Affine::from_bytes(&enc2).is_none());
}

#[test]
fn g1_rejects_off_curve_x() {
    // x = 4 gives x^3 + 3 = 67, which has no square root in the base field.
    let enc = G1Compressed(le_bytes_32([4, 0, 0, 0]));
    assert!(G1Affine::from_bytes(&enc).is_none());
}

#[test]
fn g1_rejects_zero_x_with_sign_bit() {
    // A zero x with the sign bit set falls through to the generic path,
    // where it is rejected because 3 has no square root.
    let mut bytes = [0u8; 32];
    bytes[31] = 0x80;
    assert!(G1Affine::from_bytes(&G1Compressed(bytes)).is_none());
}

#[test]
fn g2_rejects_noncanonical_field_value() {
    // The modulus in either half of the x-coordinate is rejected.
    let p_bytes = le_bytes_32(P_LIMBS);
    let mut low = [0u8; 64];
    low[..32].copy_from_slice(&p_bytes);
    assert!(G2Affine::from_bytes(&G2Compressed(low)).is_none());
    let mut high = [0u8; 64];
    high[32..].copy_from_slice(&p_bytes);
    assert!(G2Affine::from_bytes(&G2Compressed(high)).is_none());
}

#[test]
fn g2_rejects_zero_x_with_sign_bit() {
    let mut bytes = [0u8; 64];
    bytes[63] = 0x80;
    assert!(G2Affine::from_bytes(&G2Compressed(bytes)).is_none());
}

#[test]
fn g1_jacobian_bytes_roundtrip() {
    let g = G1::generator();
    for n in 1u64..6 {
        let p = g.scalar_mul(&Fr::from_u64(n));
        let dec = G1::from_bytes(&p.to_bytes()).unwrap();
        assert!(dec.equals(&p));
        assert!(dec.is_on_curve());
    }
}

#[test]
fn g2_jacobian_bytes_roundtrip() {
    let g = G2::generator();
    for n in 1u64..5 {
        let p = g.scalar_mul(&Fr::from_u64(n));
        let dec = G2::from_bytes(&p.to_bytes()).unwrap();
        assert!(dec.equals(&p));
        assert!(dec.is_on_curve());
    }
}

#[test]
fn g1_compressed_default_is_zero() {
    assert_eq!(G1Compressed::default().as_bytes(), &[0u8; 32]);
    assert_eq!(G2Compressed::default().as_bytes(), &[0u8; 64]);
}
