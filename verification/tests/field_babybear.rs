use avx512_butterfly::field::babybear::canonical::CanonicalBabyBear;
use avx512_butterfly::field::babybear::constants::{
    BABYBEAR_NEG_INV, BABYBEAR_P, BABYBEAR_R_INV_MOD_P,
};
use avx512_butterfly::field::babybear::montgomery::{
    MontgomeryBackend, ScalarBackend, BABYBEAR_MONTY, BABYBEAR_SCALAR,
};
use avx512_butterfly::field::babybear::reference::{
    babybear_mul_reference, from_montgomery_reference, montgomery_mul_reference,
    to_montgomery_reference,
};

#[test]
fn canonical_new_reduces() {
    assert_eq!(CanonicalBabyBear::new(BABYBEAR_P).0, 0);
    assert_eq!(CanonicalBabyBear::new(BABYBEAR_P + 1).0, 1);
    assert_eq!(CanonicalBabyBear::new(0).0, 0);
}

#[test]
fn canonical_roundtrip_boundary() {
    for x in [0u32, 1, 2, BABYBEAR_P - 1, BABYBEAR_P / 2, 42, 0x3FFF_FFFF] {
        let canonical = CanonicalBabyBear::new_unchecked(x % BABYBEAR_P);
        let recovered = canonical.to_montgomery().to_canonical();
        assert_eq!(recovered, canonical, "roundtrip failed for x={}", x);
    }
}

#[test]
fn mul_equivalence_boundary() {
    let pairs: &[(u32, u32)] = &[
        (0, 0),
        (1, 1),
        (0, 1),
        (1, 0),
        (BABYBEAR_P - 1, BABYBEAR_P - 1),
        (BABYBEAR_P - 1, 1),
        (42, 57),
        (BABYBEAR_P / 2, BABYBEAR_P / 2),
    ];
    for &(a, b) in pairs {
        let ma = CanonicalBabyBear::new(a).to_montgomery();
        let mb = CanonicalBabyBear::new(b).to_montgomery();
        let product_canonical = (ma * mb).to_canonical();
        let expected = ((a as u64 * b as u64) % BABYBEAR_P as u64) as u32;
        let oracle = montgomery_mul_reference(ma.0, mb.0, BABYBEAR_P, BABYBEAR_R_INV_MOD_P);
        let oracle_canonical = ScalarBackend::mul_raw(oracle, 1, BABYBEAR_MONTY());
        assert_eq!(
            product_canonical.0, oracle_canonical,
            "mul equivalence failed for a={} b={}",
            a, b
        );
        assert_eq!(
            product_canonical.0, expected,
            "plain product check failed for a={} b={}",
            a, b
        );
    }
}

#[test]
fn constants_valid() {
    let c = BABYBEAR_MONTY();
    assert_eq!(c.modulus.wrapping_mul(c.neg_inv).wrapping_add(1), 0);
}

#[test]
fn montgomery_zero_annihilation() {
    assert_eq!(BABYBEAR_SCALAR().mul(0, 12345), 0);
    assert_eq!(BABYBEAR_SCALAR().mul(12345, 0), 0);
}

#[test]
fn reduce_equals_mul() {
    for a in [0u32, 1, 2, BABYBEAR_P - 1, 42, BABYBEAR_P / 2] {
        for b in [0u32, 1, 2, BABYBEAR_P - 1, 42, BABYBEAR_P / 2] {
            let via_mul = BABYBEAR_SCALAR().mul(a, b);
            let via_reduce = BABYBEAR_SCALAR().reduce((a as u64) * (b as u64));
            assert_eq!(
                via_mul, via_reduce,
                "reduce != mul for ({}, {}): mul={} reduce={}",
                a, b, via_mul, via_reduce
            );
        }
    }
}

#[test]
fn output_in_range() {
    for a in [0u32, 1, 2, BABYBEAR_P - 1, 42, BABYBEAR_P / 2] {
        for b in [0u32, 1, 2, BABYBEAR_P - 1, 42, BABYBEAR_P / 2] {
            assert!(BABYBEAR_SCALAR().mul(a, b) < BABYBEAR_P);
        }
    }
}

#[test]
fn r_times_r_inv_is_one() {
    let p = BABYBEAR_P as u128;
    let r = (1u128 << 32) % p;
    let inv = BABYBEAR_R_INV_MOD_P as u128;
    assert_eq!((r * inv) % p, 1, "R * R_INV must be 1 mod p");
}

#[test]
fn neg_inv_invariant() {
    let check = BABYBEAR_P.wrapping_mul(BABYBEAR_NEG_INV).wrapping_add(1);
    assert_eq!(check, 0, "p * neg_inv + 1 must be 0 mod 2^32");
}

#[test]
fn roundtrip() {
    for x in [0u32, 1, 2, BABYBEAR_P - 1, 42, 0x1234_5678 % BABYBEAR_P] {
        let enc = to_montgomery_reference(x);
        let dec = from_montgomery_reference(enc);
        assert_eq!(dec, x, "round-trip failed for x={x}");
    }
}

#[test]
fn commutativity() {
    for (a, b) in [(3u32, 7u32), (0, 1), (1, 0), (BABYBEAR_P - 1, 2)] {
        assert_eq!(
            babybear_mul_reference(a, b),
            babybear_mul_reference(b, a),
            "oracle must commute for ({a},{b})"
        );
    }
}

#[test]
fn montgomery_one_and_exact_products() {
    // R mod p is the Montgomery encoding of one.
    assert_eq!(to_montgomery_reference(1), 0x0FFF_FFFE);
    // 2 * 3 = 6 through the Montgomery domain.
    let m2 = CanonicalBabyBear::new(2).to_montgomery();
    let m3 = CanonicalBabyBear::new(3).to_montgomery();
    assert_eq!(m2.montgomery_mul(m3).to_canonical().inner(), 6);
    // (p - 1)^2 = 1 mod p.
    let mm = CanonicalBabyBear::new(BABYBEAR_P - 1).to_montgomery();
    assert_eq!(mm.montgomery_mul(mm).to_canonical().inner(), 1);
}
