use avx512_butterfly::avx512_butterfly_32bit::avx512_butterfly_pass_32;
use avx512_butterfly::field::babybear::canonical::MontgomeryBabyBear;
use avx512_butterfly::field::babybear::constants::BABYBEAR_P;
use avx512_butterfly::field::babybear::reference::butterfly_reference;
use avx512_butterfly::scalar_radix2_butterfly;

const P: u32 = BABYBEAR_P;

struct Lcg(u64);

impl Lcg {
    fn next_u32(&mut self) -> u32 {
        self.0 = self.0.wrapping_mul(6364136223846793005).wrapping_add(1442695040888963407);
        (self.0 >> 32) as u32
    }
}

#[test]
fn test_scalar_runs() {
    let mut rng = Lcg(0x5eed_0001);
    let p = P;
    let len = 256;
    let mut src: Vec<MontgomeryBabyBear> = (0..len)
        .map(|_| MontgomeryBabyBear::new(rng.next_u32() % p))
        .collect();
    let twiddles: Vec<MontgomeryBabyBear> = (0..len / 2)
        .map(|_| MontgomeryBabyBear::new(rng.next_u32() % p))
        .collect();
    let before = src.clone();
    scalar_radix2_butterfly(&mut src, &twiddles);
    for i in 0..len / 2 {
        let (a, b) = butterfly_reference(before[i].inner(), before[i + len / 2].inner(), twiddles[i].inner());
        assert_eq!(src[i].inner(), a);
        assert_eq!(src[i + len / 2].inner(), b);
    }
}

#[test]
fn test_avx512_vs_scalar_half_half_layout() {
    let mut rng = Lcg(0x5eed_0002);
    for log_n in 5..=10 {
        let n2 = 1usize << log_n;
        let n = n2 * 2;

        let data_init: Vec<u32> = (0..n).map(|_| rng.next_u32() % P).collect();
        let twiddles: Vec<u32> = (0..n2).map(|_| rng.next_u32() % P).collect();

        let mut data_scalar = data_init.clone();
        let mut data_avx = data_init.clone();

        for i in 0..n2 {
            let a = data_scalar[i];
            let b = data_scalar[i + n2];
            let w = twiddles[i];
            let (a_new, b_new) = butterfly_reference(a, b, w);
            data_scalar[i] = a_new;
            data_scalar[i + n2] = b_new;
        }

        avx512_butterfly_pass_32(&mut data_avx, 0, &twiddles, n);

        assert_eq!(data_scalar, data_avx, "mismatch for n2=2^{}", log_n);
        println!("n2=2^{} (n={}) PASS", log_n, n);
    }
}
