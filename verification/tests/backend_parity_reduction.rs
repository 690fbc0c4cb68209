use avx512_butterfly::field::babybear::constants::{BABYBEAR_NEG_INV, BABYBEAR_P, BABYBEAR_R_MOD_P};
use avx512_butterfly::field::babybear::reference::to_montgomery_reference;

const P: u32 = BABYBEAR_P;

const BOUNDARY_VALUES: &[u32] = &[
    0, 1, 2, P / 2, P / 3, P / 4, P - 3, P - 2, P - 1, BABYBEAR_R_MOD_P,
];

const BUTTERFLY_CASES: &[(u32, u32, u32)] = &[
    (0, 0, BABYBEAR_R_MOD_P),
    (0, 0, P - 1),
    (1, 0, BABYBEAR_R_MOD_P),
    (0, 1, BABYBEAR_R_MOD_P),
    (1, 1, BABYBEAR_R_MOD_P),
    (1, 1, P - 1),
    (P - 1, P - 1, P - 1),
    (P - 1, 1, BABYBEAR_R_MOD_P),
    (1, P - 1, BABYBEAR_R_MOD_P),
    (P - 1, P - 1, BABYBEAR_R_MOD_P),
    (P - 2, P - 1, P - 1),
    (P / 2, P / 2, BABYBEAR_R_MOD_P),
    (P / 2, P / 3, P / 5),
    (P / 2, P - 1, P - 1),
    (P - 1, 2, P - 1),
    (P / 2, 2, BABYBEAR_R_MOD_P),
    (P - 1, P / 2, P - 1),
];

const MUL_PAIRS: &[(u32, u32)] = &[
    (0, 0), (0, P - 1), (1, 1), (1, P - 1), (2, P - 1), (P - 1, 2),
    (P - 1, P - 1), (P - 2, P - 1), (P / 2, P / 2), (P / 2, P - 1), (P / 3, P - 1),
    (BABYBEAR_R_MOD_P, BABYBEAR_R_MOD_P),
];

const CORPUS_SEED: u64 = 0x1544_BEEF_CAFE_4242;

fn reduction_intermediate(a: u32, b: u32) -> u32 {
    let t: u64 = (a as u64) * (b as u64);
    let m: u32 = (t as u32).wrapping_mul(BABYBEAR_NEG_INV);
    ((t + (m as u64) * (P as u64)) >> 32) as u32
}

fn near_boundary_reduction_cases(max_val: u32, threshold: u32, max_results: usize) -> Vec<(u32, u32, u32)> {
    let scan_limit = max_val.min(P);
    let mut results: Vec<(u32, u32, u32)> = Vec::new();
    let dist = |u: u32| if u >= P { u - P } else { P - u };
    for a in 0..scan_limit {
        for b in a..scan_limit {
            let u = reduction_intermediate(a, b);
            if u >= P.saturating_sub(threshold) && u <= P.saturating_add(threshold) {
                results.push((a, b, u));
                if results.len() >= max_results {
                    results.sort_by_key(|&(_, _, u)| dist(u));
                    return results;
                }
            }
        }
    }
    results.sort_by_key(|&(_, _, u)| dist(u));
    results
}

struct Lcg {
    state: u64,
}

impl Lcg {
    fn new(seed: u64) -> Self {
        Self { state: seed }
    }

    fn next_canonical(&mut self) -> u32 {
        self.state = self.state
            .wrapping_mul(6364136223846793005)
            .wrapping_add(1442695040888963407);
        ((self.state >> 33) as u32) % P
    }

    fn next_montgomery(&mut self) -> u32 {
        to_montgomery_reference(self.next_canonical())
    }
}

fn report_mul(seed: u64, a: u32, b: u32, backend: &str, expected: u32, actual: u32) {
    println!(
        "BACKEND_PARITY_FAILURE {{\"seed\":\"0x{:016X}\",\"input\":\"({}, {})\",\"backend\":\"{}\",\"operation\":\"montgomery_mul\",\"expected\":\"{}\",\"actual\":\"{}\"}}",
        seed, a, b, backend, expected, actual
    );
}

fn report_butterfly(seed: u64, a: u32, b: u32, w: u32, backend: &str, expected: (u32, u32), actual: (u32, u32)) {
    println!(
        "BACKEND_PARITY_FAILURE {{\"seed\":\"0x{:016X}\",\"input\":\"({}, {}, {})\",\"backend\":\"{}\",\"operation\":\"butterfly\",\"expected\":\"({}, {})\",\"actual\":\"({}, {})\"}}",
        seed, a, b, w, backend, expected.0, expected.1, actual.0, actual.1
    );
}

use avx512_butterfly::field::babybear::reference::{babybear_mul_reference, butterfly_reference};
use avx512_butterfly::field::babybear::canonical::MontgomeryBabyBear;
use avx512_butterfly::avx512_butterfly_32bit::{avx512_radix2_butterfly_32, butterfly, is_avx512_supported};
use avx512_butterfly::field::babybear::montgomery::{ScalarBackend, BABYBEAR_MONTY, MontgomeryBackend};

#[test]
fn reduction_stress_oracle_vs_scalar() {
    let mut failures = 0;

    for &(a, b) in MUL_PAIRS {
        let oracle = babybear_mul_reference(a, b);
        let scalar = ScalarBackend::mul_raw(a, b, BABYBEAR_MONTY());

        if oracle != scalar {
            report_mul(CORPUS_SEED, a, b, "scalar_cios", oracle, scalar);
            failures += 1;
        }

        let u = reduction_intermediate(a, b);
        let near_boundary = u >= P.saturating_sub(3) && u <= P + 3;
        if near_boundary {
            println!("reduction_boundary: a={} b={} u={} (near P={})", a, b, u, P);
        }

        assert!(oracle < P, "oracle returned {} >= P for ({}, {})", oracle, a, b);
        assert!(scalar < P, "scalar returned {} >= P for ({}, {})", scalar, a, b);
    }

    assert_eq!(failures, 0, "{} reduction stress mismatches", failures);
    println!("reduction_stress_oracle_vs_scalar: {} pairs, 0 failures", MUL_PAIRS.len());
}

#[test]
fn near_boundary_scan() {
    let cases = near_boundary_reduction_cases(256, 2, 50);

    if cases.is_empty() {
        println!("near_boundary_scan: no cases found in range [0, 256) — increase scan range");
        return;
    }

    println!("near_boundary_scan: found {} cases with u near P", cases.len());

    let mut failures = 0;
    for &(a, b, u) in &cases {
        let oracle = babybear_mul_reference(a, b);
        let scalar = ScalarBackend::mul_raw(a, b, BABYBEAR_MONTY());

        if oracle != scalar {
            report_mul(CORPUS_SEED, a, b, "scalar_cios", oracle, scalar);
            failures += 1;
        }

        println!("  a={} b={} u={} P={} dist={} oracle={} scalar={}",
            a, b, u, P,
            if u >= P { u - P } else { P - u },
            oracle, scalar);
    }

    assert_eq!(failures, 0, "{} near-boundary mismatches", failures);
    println!("near_boundary_scan: {} cases, 0 failures", cases.len());
}

#[test]
fn random_mul_parity_oracle_vs_scalar() {
    let mut rng = Lcg::new(CORPUS_SEED);
    let n = 10_000;
    let mut failures = 0;

    for _ in 0..n {
        let a = rng.next_montgomery();
        let b = rng.next_montgomery();

        let oracle = babybear_mul_reference(a, b);
        let scalar = ScalarBackend::mul_raw(a, b, BABYBEAR_MONTY());

        if oracle != scalar {
            report_mul(CORPUS_SEED, a, b, "scalar_cios", oracle, scalar);
            failures += 1;
            if failures > 10 {
                println!("too many failures, stopping");
                break;
            }
        }
    }

    assert_eq!(failures, 0, "{} mul mismatches out of {} random pairs", failures, n);
    println!("random_mul_parity_oracle_vs_scalar: {} pairs, 0 failures", n);
}

#[test]
fn butterfly_reduction_stress_oracle_vs_scalar() {

    let mut rng = Lcg::new(CORPUS_SEED + 1);
    let n = 5_000;
    let mut failures = 0;

    for _ in 0..n {
        let a = rng.next_montgomery();
        let b = rng.next_montgomery();
        let w = rng.next_montgomery();

        let (oracle_x, oracle_y) = butterfly_reference(a, b, w);
        let (scalar_x, scalar_y) = butterfly(
            MontgomeryBabyBear::new(a),
            MontgomeryBabyBear::new(b),
            MontgomeryBabyBear::new(w),
        );

        let scalar_x = scalar_x.inner();
        let scalar_y = scalar_y.inner();

        if (oracle_x, oracle_y) != (scalar_x, scalar_y) {
            report_butterfly(CORPUS_SEED + 1, a, b, w, "typed_scalar",
                (oracle_x, oracle_y), (scalar_x, scalar_y));
            failures += 1;
            if failures > 10 {
                println!("too many failures, stopping");
                break;
            }
        }
    }

    assert_eq!(failures, 0, "{} butterfly mismatches out of {} random cases", failures, n);
    println!("butterfly_reduction_stress_oracle_vs_scalar: {} cases, 0 failures", n);
}

#[test]
fn butterfly_reduction_stress_oracle_vs_avx512() {

    assert!(is_avx512_supported(true, true));

    let mut rng = Lcg::new(CORPUS_SEED + 2);
    let num_batches = 500; // 500 × 16 = 8000 butterfly operations

    let mut failures = 0;

    for batch in 0..num_batches {
        let mut a_lanes = [0u32; 16];
        let mut b_lanes = [0u32; 16];
        let mut w_lanes = [0u32; 16];
        for i in 0..16 {
            a_lanes[i] = rng.next_montgomery();
            b_lanes[i] = rng.next_montgomery();
            w_lanes[i] = rng.next_montgomery();
        }

        let mut oracle_x = [0u32; 16];
        let mut oracle_y = [0u32; 16];
        for i in 0..16 {
            let (x, y) = butterfly_reference(a_lanes[i], b_lanes[i], w_lanes[i]);
            oracle_x[i] = x;
            oracle_y[i] = y;
        }

        let (avx_x, avx_y) = avx512_radix2_butterfly_32(a_lanes, b_lanes, w_lanes);

        for i in 0..16 {
            if (oracle_x[i], oracle_y[i]) != (avx_x[i], avx_y[i]) {
                report_butterfly(CORPUS_SEED + 2, a_lanes[i], b_lanes[i], w_lanes[i],
                    "avx512", (oracle_x[i], oracle_y[i]), (avx_x[i], avx_y[i]));
                failures += 1;
            }
        }
    }

    assert_eq!(failures, 0, "{} AVX-512 butterfly mismatches out of {} batches ({} ops)",
        failures, num_batches, num_batches * 16);
    println!("butterfly_reduction_stress_oracle_vs_avx512: {} batches ({} ops), 0 failures",
        num_batches, num_batches * 16);
}
