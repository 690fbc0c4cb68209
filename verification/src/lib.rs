//! Verified BabyBear field arithmetic, DIF radix-2 NTT and the evidence /
//! promotion gate that decides which NTT backend may be trusted.
//!
//! - `field::babybear`: constants, Montgomery backend, reference oracle and
//!   domain-typed field elements.
//! - `avx512_butterfly_32bit` / `avx512_butterfly_opt`: 16-lane butterfly
//!   kernels and butterfly passes.
//! - `ntt`: DIF NTT stages and the bit-reversal permutation.
pub mod avx512_butterfly_32bit;
pub mod avx512_butterfly_opt;
pub mod avx512_impl;
pub mod dft;
pub mod dft_inverse;
pub mod evidence_core;
pub mod field;
pub mod instrument;
pub mod keyed;
pub mod ntt;
pub mod plonky3_adapter;
pub mod text;

use crate::avx512_butterfly_32bit::{all_residues, butterfly, butterfly_pass_spec};
use crate::field::babybear::canonical::MontgomeryBabyBear;
use crate::field::babybear::constants::{lemma_constants_consistent, mont_radix, p_nat, BABYBEAR_P};
use vstd::prelude::*;

verus! {

/// The BabyBear prime: 2^31 - 2^27 + 1 = 0x78000001.
pub const P: u32 = 0x7800_0001u32;

/// Montgomery R constant: R = 2^32 mod p.
pub const R: u32 = 0x0FFF_FFFEu32;

/// -p^{-1} mod 2^32 (the Montgomery magic constant).
pub const P_INV_NEG: u32 = 0x77FF_FFFFu32;

/// The crate-level constants are the field's: `P` is the prime, `R` is
/// `2^32 mod p` and `P_INV_NEG` satisfies `p * P_INV_NEG + 1 = 0 mod 2^32`.
pub proof fn lemma_crate_constants()
    ensures
        P == BABYBEAR_P,
        R as nat == mont_radix() % p_nat(),
        (P as nat * P_INV_NEG as nat + 1) % mont_radix() == 0,
{
    lemma_constants_consistent();
}

/// The raw Montgomery values of a sequence of typed field elements.
pub open spec fn mont_values(s: Seq<MontgomeryBabyBear>) -> Seq<u32> {
    s.map_values(|x: MontgomeryBabyBear| x.0)
}

/// Scalar radix-2 DIF butterfly over a whole vector (reference
/// implementation): for `i < n/2`, `src[i] = a + b` and
/// `src[i + n/2] = (a - b) * w_i`.
pub fn scalar_radix2_butterfly(src: &mut [MontgomeryBabyBear], twiddles: &[MontgomeryBabyBear])
    requires
        twiddles@.len() == old(src)@.len() / 2,
        all_residues(mont_values(old(src)@)),
        all_residues(mont_values(twiddles@)),
    ensures
        mont_values(final(src)@) == butterfly_pass_spec(
            mont_values(old(src)@),
            0,
            mont_values(twiddles@),
            old(src)@.len(),
        ),
{
    let n = src.len();
    let n2 = n / 2;
    let ghost d0 = mont_values(src@);
    let ghost tw = mont_values(twiddles@);
    let ghost spec = butterfly_pass_spec(d0, 0, tw, n as nat);
    for i in 0..n2
        invariant
            n == src@.len(),
            n2 == n / 2,
            twiddles@.len() == n2,
            d0.len() == n,
            tw == mont_values(twiddles@),
            spec == butterfly_pass_spec(d0, 0, tw, n as nat),
            all_residues(d0),
            all_residues(tw),
            forall|k: int|
                0 <= k < n ==> #[trigger] src@[k].0 == if k < i || n2 <= k < n2 + i {
                    spec[k]
                } else {
                    d0[k]
                },
    {
        let a = src[i];
        let b = src[i + n2];
        let w = twiddles[i];
        assert(a.0 == d0[i as int] && b.0 == d0[(i + n2) as int] && w.0 == tw[i as int]);
        let (x, y) = butterfly(a, b, w);
        src[i] = x;
        src[i + n2] = y;
    }
    assert(mont_values(src@) =~= spec);
}

} // verus!
