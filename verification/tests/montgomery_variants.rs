use avx512_butterfly::field::babybear::constants::{BABYBEAR_P, BABYBEAR_R_INV_MOD_P};
use avx512_butterfly::field::babybear::montgomery::{MontgomeryBackend, ScalarBackend, BABYBEAR_MONTY};
use avx512_butterfly::field::babybear::reference::montgomery_mul_reference;

const P: u32 = 0x78000001;
const P_INV_NEG: u32 = 0x77FFFFFF;

fn reduce_u64_r32(prod: u64) -> u32 {
    let lo = prod & 0xFFFF_FFFF;
    let m  = ((lo as u32).wrapping_mul(P_INV_NEG)) as u64;
    let mp = (m & 0xFFFF_FFFF) * (P as u64);
    let t  = (prod + mp) >> 32;
    if t >= P as u64 { (t - P as u64) as u32 } else { t as u32 }
}

fn mul_u32_r32(a: u32, b: u32) -> u32 {
    let prod = (a as u64) * (b as u64);
    let low  = prod as u32;
    let m    = low.wrapping_mul(P_INV_NEG);
    let t    = (prod + (m as u64) * (P as u64)) >> 32;
    if t >= P as u64 { (t - P as u64) as u32 } else { t as u32 }
}

fn reduce_u64_r64(prod: u64) -> u32 {
    let lo1 = prod & 0xFFFF_FFFF;
    let m1  = (lo1 as u32).wrapping_mul(P_INV_NEG) as u64;
    let mp1 = (m1 & 0xFFFF_FFFF) * (P as u64);
    let u1  = (prod + mp1) >> 32;
    let lo2 = u1 & 0xFFFF_FFFF;
    let m2  = (lo2 as u32).wrapping_mul(P_INV_NEG) as u64;
    let mp2 = (m2 & 0xFFFF_FFFF) * (P as u64);
    let u2  = (u1 + mp2) >> 32;
    if u2 >= P as u64 { (u2 - P as u64) as u32 } else { u2 as u32 }
}

fn new_mul(a: u32, b: u32) -> u32 {
    ScalarBackend::new(BABYBEAR_MONTY()).mul(a, b)
}

const BOUNDARY: &[(u32, u32)] = &[
    (0, 0), (0, 1), (1, 0), (1, 1), (2, 2),
    (P - 1, 0), (P - 1, 1), (P - 1, P - 1),
    (P / 2, P / 2), (P / 2, P - 1),
    (42, 57), (1_000_000 % P, 999_999 % P),
    (0x1000_0000 % P, 0x0800_0000 % P),
];

#[test]
fn avx512_path_matches_new_backend_boundary() {
    for &(a, b) in BOUNDARY {
        let inline = mul_u32_r32(a, b);
        let new    = new_mul(a, b);
        assert_eq!(inline, new,
            "Case A violated: scalar_montgomery_mul_32({a},{b}) inline={inline} new={new}. \
            ");
    }
}

#[test]
fn lib_reduce_scalar_matches_new_backend_boundary() {
    for &(a, b) in BOUNDARY {
        let inline = reduce_u64_r32((a as u64) * (b as u64));
        let new    = new_mul(a, b);
        assert_eq!(inline, new,
            "Case A violated: mont_reduce_scalar({a}*{b}) inline={inline} new={new}. \
            ");
    }
}

#[test]
fn two_legacy_paths_agree_boundary() {
    for &(a, b) in BOUNDARY {
        let via_mul    = mul_u32_r32(a, b);
        let via_reduce = reduce_u64_r32((a as u64) * (b as u64));
        assert_eq!(via_mul, via_reduce,
            "Legacy paths diverge for ({a},{b}): mul={via_mul} reduce={via_reduce}. \
             This indicates a representation mismatch — classify before proceeding.");
    }
}

#[test]
fn all_paths_agree_with_oracle_boundary() {
    for &(a, b) in BOUNDARY {
        let oracle  = montgomery_mul_reference(a, b, BABYBEAR_P, BABYBEAR_R_INV_MOD_P);
        let inline  = mul_u32_r32(a, b);
        let new     = new_mul(a, b);
        assert_eq!(inline, oracle,
            "inline vs oracle: mul({a},{b}) inline={inline} oracle={oracle}");
        assert_eq!(new, oracle,
            "new vs oracle: mul({a},{b}) new={new} oracle={oracle}");
    }
}

#[test]
fn exhaustive_small_domain() {
    let limit = 512u32.min(P);
    let mut failures: Vec<String> = Vec::new();
    for a in 0..limit {
        for b in 0..limit {
            let inline = mul_u32_r32(a, b);
            let new    = new_mul(a, b);
            if inline != new {
                failures.push(format!("({a},{b}): inline={inline} new={new}"));
                if failures.len() >= 5 { break; }
            }
        }
        if failures.len() >= 5 { break; }
    }
    assert!(failures.is_empty(),
        "Case A violated — mismatches found. Mismatches:\n{}",
        failures.join("\n"));
}

#[test]
fn r64_reduction_internal_consistency() {
    let r64_r2 = {
        let r = (1u128 << 64) % (P as u128);
        ((r * r) % (P as u128)) as u64
    };

    let mut failures = 0usize;
    for a in 1u64..100 {
        for b in 1u64..100 {
            let a_mont    = reduce_u64_r64(a * r64_r2);
            let b_mont    = reduce_u64_r64(b * r64_r2);
            let prod_mont = reduce_u64_r64(a_mont as u64 * b_mont as u64);
            let result    = reduce_u64_r64(prod_mont as u64);
            let expected  = (a * b) % (P as u64);
            if result as u64 != expected {
                failures += 1;
            }
        }
    }
    assert_eq!(failures, 0,
        "mont_reduce_r64 roundtrip broken: {failures} failures. \
        ");
}
