use avx512_butterfly::avx512_butterfly_32bit::{is_avx512_supported, avx512_butterfly_pass_32};
use avx512_butterfly::avx512_butterfly_opt::avx512_butterfly_pass_32_opt;
use avx512_butterfly::avx512_butterfly_opt::avx512_butterfly_pass_32_unroll;
use avx512_butterfly::field::babybear::constants::BABYBEAR_P;

struct Rng64 {
    state: u64,
}

impl Rng64 {
    fn gen_u32(&mut self) -> u32 {
        self.state = self.state.wrapping_mul(6364136223846793005).wrapping_add(1442695040888963407);
        (self.state >> 32) as u32
    }
    fn gen_usize(&mut self) -> usize {
        self.gen_u32() as usize
    }
}

fn run_pass_over(data: &mut [u32], twiddles: &[u32], use_opt: u8) {
    let n = data.len();
    assert_eq!(twiddles.len(), n / 2);
    match use_opt {
        0 => avx512_butterfly_pass_32(data, 0, twiddles, n),
        1 => avx512_butterfly_pass_32_opt(data, 0, twiddles, n),
        _ => avx512_butterfly_pass_32_unroll(data, 0, twiddles, n),
    }
}

#[test]
fn optimized_kernel_bit_exact_vs_original() {
    assert!(is_avx512_supported(true, true));

    let mut rng = Rng64 { state: 0x0DDB_A11_5EED };

    for log_n in 8..=20u32 {
        let n = 1usize << log_n;
        let data_init: Vec<u32> = (0..n).map(|_| rng.gen_u32() % BABYBEAR_P).collect();
        let twiddles: Vec<u32> = (0..n / 2).map(|_| rng.gen_u32() % BABYBEAR_P).collect();

        let mut d_orig = data_init.clone();
        let mut d_opt = data_init.clone();
        run_pass_over(&mut d_orig, &twiddles, 0);
        run_pass_over(&mut d_opt, &twiddles, 1);
        let mut d_unr = data_init.clone();
        run_pass_over(&mut d_unr, &twiddles, 2);
        assert_eq!(d_orig, d_opt, "bit-exact failure at n=2^{}", log_n);
        assert_eq!(d_orig, d_unr, "unroll bit-exact failure at n=2^{}", log_n);
    }

    for &n in &[34usize, 40, 100, 1000, 2050, 4096 + 22] {
        let data_init: Vec<u32> = (0..n).map(|_| rng.gen_u32() % BABYBEAR_P).collect();
        let twiddles: Vec<u32> = (0..n / 2).map(|_| rng.gen_u32() % BABYBEAR_P).collect();

        let mut d_orig = data_init.clone();
        let mut d_opt = data_init.clone();
        run_pass_over(&mut d_orig, &twiddles, 0);
        run_pass_over(&mut d_opt, &twiddles, 1);
        assert_eq!(d_orig, d_opt, "bit-exact failure at n={}", n);
        let mut d_unr = data_init.clone();
        run_pass_over(&mut d_unr, &twiddles, 2);
        assert_eq!(d_orig, d_unr, "unroll bit-exact failure at n={}", n);
    }

    for &n in &[32usize, 64, 96] {
        let mut data_init: Vec<u32> = vec![0; n];
        for (i, v) in data_init.iter_mut().enumerate() {
            *v = match i % 4 {
                0 => 0,
                1 => 1,
                2 => BABYBEAR_P - 1,
                _ => BABYBEAR_P - 2,
            };
        }
        let mut twiddles: Vec<u32> = vec![0; n / 2];
        for (i, w) in twiddles.iter_mut().enumerate() {
            *w = match i % 3 {
                0 => 0,
                1 => 1,
                _ => BABYBEAR_P - 1,
            };
        }
        let mut d_orig = data_init.clone();
        let mut d_opt = data_init.clone();
        run_pass_over(&mut d_orig, &twiddles, 0);
        run_pass_over(&mut d_opt, &twiddles, 1);
        assert_eq!(d_orig, d_opt, "bit-exact failure at boundary n={}", n);
        let mut d_unr = data_init.clone();
        run_pass_over(&mut d_unr, &twiddles, 2);
        assert_eq!(d_orig, d_unr, "unroll bit-exact failure at boundary n={}", n);
    }

    for round in 0..20 {
        let n = 256 + rng.gen_usize() % 2048;
        let data_init: Vec<u32> = (0..n).map(|_| rng.gen_u32() % BABYBEAR_P).collect();
        let twiddles: Vec<u32> = (0..n / 2).map(|_| rng.gen_u32() % BABYBEAR_P).collect();
        let mut d_orig = data_init.clone();
        let mut d_opt = data_init.clone();
        run_pass_over(&mut d_orig, &twiddles, 0);
        run_pass_over(&mut d_opt, &twiddles, 1);
        assert_eq!(d_orig, d_opt, "bit-exact failure at random round {}", round);
        let mut d_unr = data_init.clone();
        run_pass_over(&mut d_unr, &twiddles, 2);
        assert_eq!(d_orig, d_unr, "unroll bit-exact failure at random round {}", round);
    }

    println!("kernel opt admission gate: PASS (bit-exact on all sizes, tails, boundaries, random rounds)");
}
