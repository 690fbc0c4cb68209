//! Compatibility entry point of the vector backend: delegates to the scalar
//! butterfly over the whole vector.
use crate::avx512_butterfly_32bit::{all_residues, butterfly_pass_spec};
use crate::field::babybear::canonical::MontgomeryBabyBear;
use crate::{mont_values, scalar_radix2_butterfly};
use vstd::prelude::*;

verus! {

/// Same effect as [`scalar_radix2_butterfly`].
pub fn scalar_compat_radix2_butterfly(src: &mut [MontgomeryBabyBear], twiddles: &[MontgomeryBabyBear])
    requires
        twiddles@.len() == old(src)@.len() / 2,
        all_residues(mont_values(old(src)@)),
        all_residues(mont_values(twiddles@)),
    ensures
        mont_values(final(src)@) == butterfly_pass_spec(
            mont_values(old(src)@),
            0,
            mont_values(twiddles@),
            old(src)@.len(),
        ),
{
    scalar_radix2_butterfly(src, twiddles);
}

} // verus!
