use avx512_butterfly::field::babybear::constants::{BABYBEAR_P, BABYBEAR_R_MOD_P};
use avx512_butterfly::field::babybear::reference::{
    babybear_mul_reference, to_montgomery_reference, from_montgomery_reference,
};
use avx512_butterfly::ntt;
use avx512_butterfly::ntt::{ntt_avx512_stage, ntt_reference_stage, ntt_scalar_stage};
use avx512_butterfly::avx512_butterfly_32bit::is_avx512_supported;

fn mod_pow(mut base: u64, mut exp: u64, modulus: u64) -> u64 {
    let mut result = 1u64;
    base %= modulus;
    while exp > 0 {
        if exp & 1 == 1 {
            result = result * base % modulus;
        }
        exp >>= 1;
        base = base * base % modulus;
    }
    result
}

fn find_primitive_root() -> u64 {
    let p = BABYBEAR_P as u64;
    let factors: [u64; 3] = [2, 3, 5];
    for g in 2..p {
        let mut is_primitive = true;
        for &q in &factors {
            if mod_pow(g, (p - 1) / q, p) == 1 {
                is_primitive = false;
                break;
            }
        }
        if is_primitive {
            return g;
        }
    }
    panic!("no primitive root found for p={}", p);
}

fn two_adic_generator(log_n: usize) -> u32 {
    let p = BABYBEAR_P as u64;
    let g = find_primitive_root();
    let n = 1u64 << log_n;
    let omega = mod_pow(g, (p - 1) / n, p);

    assert_eq!(mod_pow(omega, n, p), 1, "omega^n != 1 for log_n={}", log_n);
    assert_ne!(mod_pow(omega, n / 2, p), 1, "omega^(n/2) == 1 — not primitive");

    omega as u32
}

fn to_mont(x: u32) -> u32 {
    to_montgomery_reference(x)
}

fn from_mont(x: u32) -> u32 {
    from_montgomery_reference(x)
}

fn compute_twiddles_mont(log_n: usize) -> Vec<Vec<u32>> {
    let n = 1usize << log_n;
    let omega_canonical = two_adic_generator(log_n);
    let omega_mont = to_mont(omega_canonical);

    let mut stages = Vec::with_capacity(log_n);
    let mut w_m_mont = omega_mont; // ω^(2^0) = ω

    for s in 0..log_n {
        let m2 = n >> (s + 1); // half-size for this stage
        let mut twiddles = Vec::with_capacity(m2);
        let mut w = BABYBEAR_R_MOD_P; // 1 in Montgomery domain
        for _ in 0..m2 {
            twiddles.push(w);
            w = babybear_mul_reference(w, w_m_mont);
        }
        stages.push(twiddles);
        w_m_mont = babybear_mul_reference(w_m_mont, w_m_mont); // square: ω^(2^(s+1))
    }

    stages
}

fn naive_dft_canonical(input: &[u32], omega_u32: u32) -> Vec<u32> {
    let n = input.len();
    let p = BABYBEAR_P as u64;
    let omega = omega_u32 as u64;

    let mut out = vec![0u32; n];
    for k in 0..n {
        let mut acc = 0u64;
        let omega_k = mod_pow(omega, k as u64, p); // ω^k
        let mut w = 1u64; // ω^(0*k) = 1
        for j in 0..n {
            acc = (acc + (input[j] as u64) * w) % p;
            w = w * omega_k % p; // ω^((j+1)*k)
        }
        out[k] = acc as u32;
    }
    out
}

fn naive_inv_dft_canonical(input: &[u32], omega_u32: u32) -> Vec<u32> {
    let n = input.len();
    let p = BABYBEAR_P as u64;
    let omega_inv = mod_pow(omega_u32 as u64, p - 2, p) as u32; // ω^{-1}
    let mut out = naive_dft_canonical(input, omega_inv);
    let n_inv = mod_pow(n as u64, p - 2, p) as u32;
    for x in out.iter_mut() {
        *x = (*x as u64 * n_inv as u64 % p) as u32;
    }
    out
}

struct Lcg {
    state: u64,
}

impl Lcg {
    fn new(seed: u64) -> Self {
        Self { state: seed }
    }
    fn next_u32(&mut self) -> u32 {
        self.state = self.state
            .wrapping_mul(6364136223846793005)
            .wrapping_add(1442695040888963407);
        ((self.state >> 33) as u32) % BABYBEAR_P
    }
}

fn first_mismatch(a: &[u32], b: &[u32]) -> Option<usize> {
    a.iter().zip(b.iter()).position(|(x, y)| x != y)
}

#[test]
fn ntt_reference_correctness() {
    let seed: u64 = 0xC0FFEE_BABE_1234;

    for log_n in 4..=8 {
        let n = 1usize << log_n;
        let omega_canonical = two_adic_generator(log_n);

        let mut lcg = Lcg::new(seed);
        let input_canonical: Vec<u32> = (0..n).map(|_| lcg.next_u32()).collect();

        let input_mont: Vec<u32> = input_canonical.iter().map(|&x| to_mont(x)).collect();

        let twiddles = compute_twiddles_mont(log_n);
        let mut ntt_output = input_mont.clone();
        ntt::ntt_reference(&mut ntt_output, &twiddles);

        ntt::bit_reverse(&mut ntt_output);

        let ntt_canonical: Vec<u32> = ntt_output.iter().map(|&x| from_mont(x)).collect();

        let dft_output = naive_dft_canonical(&input_canonical, omega_canonical);

        assert_eq!(
            ntt_canonical, dft_output,
            "NTT vs DFT mismatch at log_n={}", log_n
        );
        println!("ntt_reference_correctness log_n={} (n={}) PASS", log_n, n);
    }
}

#[test]
fn staged_cross_backend_equivalence() {
    let has_avx512 = is_avx512_supported(true, true);
    let seed: u64 = 0xDEAD_BEEF_CAFE_1234;

    for log_n in 5..=10 {
        let n = 1usize << log_n;
        let twiddles = compute_twiddles_mont(log_n);

        let mut lcg = Lcg::new(seed);
        let input_mont: Vec<u32> = (0..n).map(|_| to_mont(lcg.next_u32())).collect();

        let mut data_ref = input_mont.clone();
        let mut data_scalar = input_mont.clone();
        let mut data_avx = input_mont.clone();

        for s in 0..log_n {
            let h = n >> (s + 1);
            let butterfly_count = (1usize << s) * h;

            ntt_reference_stage(&mut data_ref, &twiddles[s], s);
            ntt_scalar_stage(&mut data_scalar, &twiddles[s], s);

            assert_eq!(
                data_ref, data_scalar,
                "stage {} ref vs scalar mismatch at log_n={} (n={}), \
                 butterflies={}, first diff at index {:?}",
                s, log_n, n, butterfly_count,
                first_mismatch(&data_ref, &data_scalar),
            );

            if has_avx512 {
                ntt_avx512_stage(&mut data_avx, &twiddles[s], s);

                assert_eq!(
                    data_ref, data_avx,
                    "stage {} ref vs avx512 mismatch at log_n={} (n={}), \
                     butterflies={}, first diff at index {:?}",
                    s, log_n, n, butterfly_count,
                    first_mismatch(&data_ref, &data_avx),
                );
            }

            println!(
                "staged_cross_backend_equivalence log_n={} n={} stage {} \
                 (h={} butterflies={}) ref==scalar{} PASS",
                log_n, n, s, h, butterfly_count,
                if has_avx512 { "==avx512" } else { "" },
            );
        }
    }

    println!(
        "{{\"test\":\"ntt_cross_backend_equivalence\",\"field\":\"BabyBear\",\
         \"backend_a\":\"reference\",\"backend_b\":\"avx512\",\
         \"comparison\":\"stagewise\",\"status\":\"pass\"}}"
    );
}

#[test]
fn ntt_round_trip() {
    let seed: u64 = 0xFEED_FACE_1234_5678;

    for log_n in 4..=8 {
        let n = 1usize << log_n;
        let omega_canonical = two_adic_generator(log_n);
        let twiddles = compute_twiddles_mont(log_n);

        let mut lcg = Lcg::new(seed);
        let input_canonical: Vec<u32> = (0..n).map(|_| lcg.next_u32()).collect();
        let input_mont: Vec<u32> = input_canonical.iter().map(|&x| to_mont(x)).collect();

        let mut data = input_mont.clone();
        ntt::ntt_reference(&mut data, &twiddles);

        ntt::bit_reverse(&mut data);

        let ntt_canonical: Vec<u32> = data.iter().map(|&x| from_mont(x)).collect();

        let recovered = naive_inv_dft_canonical(&ntt_canonical, omega_canonical);

        assert_eq!(
            recovered, input_canonical,
            "round-trip mismatch at log_n={}", log_n,
        );
        println!("ntt_round_trip log_n={} (n={}) PASS", log_n, n);
    }
}

#[test]
fn twiddle_sanity() {
    for log_n in 2..=12 {
        let omega = two_adic_generator(log_n);
        let p = BABYBEAR_P as u64;
        let n = 1u64 << log_n;

        assert_eq!(mod_pow(omega as u64, n, p), 1,
            "omega^{} != 1 for log_n={}", n, log_n);

        assert_ne!(mod_pow(omega as u64, n / 2, p), 1,
            "omega^{} == 1 for log_n={} — not primitive", n / 2, log_n);

        let twiddles = compute_twiddles_mont(log_n);
        let stage0: Vec<u32> = twiddles[0].iter().map(|&w| from_mont(w)).collect();
        let unique: std::collections::HashSet<u32> = stage0.iter().copied().collect();
        assert_eq!(unique.len(), stage0.len(),
            "stage 0 twiddles not distinct for log_n={}", log_n);
    }
    println!("twiddle_sanity PASS (log_n 2..=12)");
}

#[test]
fn all_three_ntt_backends_agree_with_the_dft() {
    for log_n in 1..=9usize {
        let n = 1usize << log_n;
        let omega = two_adic_generator(log_n);
        let twiddles = compute_twiddles_mont(log_n);
        let mut lcg = Lcg::new(0x5EED_0000 + log_n as u64);
        let input: Vec<u32> = (0..n).map(|_| lcg.next_u32()).collect();
        let mont: Vec<u32> = input.iter().map(|&x| to_mont(x)).collect();
        let expected = naive_dft_canonical(&input, omega);
        let mut a = mont.clone();
        let mut b = mont.clone();
        let mut c = mont.clone();
        ntt::ntt_reference(&mut a, &twiddles);
        ntt::ntt_scalar(&mut b, &twiddles);
        ntt::ntt_avx512(&mut c, &twiddles);
        assert_eq!(a, b);
        assert_eq!(a, c);
        ntt::bit_reverse(&mut a);
        let got: Vec<u32> = a.iter().map(|&x| from_mont(x)).collect();
        assert_eq!(got, expected, "log_n={}", log_n);
    }
}

#[test]
fn bit_reverse_small_cases() {
    let mut v = vec![0u32, 1, 2, 3, 4, 5, 6, 7];
    ntt::bit_reverse(&mut v);
    assert_eq!(v, vec![0, 4, 2, 6, 1, 5, 3, 7]);
    let mut one = vec![9u32];
    ntt::bit_reverse(&mut one);
    assert_eq!(one, vec![9]);
    let mut six = vec![0u32, 1, 2, 3, 4, 5];
    ntt::bit_reverse(&mut six);
    assert_eq!(six, vec![0, 1, 2, 3, 4, 5]);
    let mut twelve: Vec<u32> = (0..12).collect();
    ntt::bit_reverse(&mut twelve);
    assert_eq!(twelve, vec![0, 2, 1, 3, 4, 5, 6, 7, 8, 9, 10, 11]);
}
