//! Numeric constants of the BabyBear prime field and its Montgomery
//! representation (radix R = 2^32).
use vstd::prelude::*;

verus! {

/// BabyBear prime: p = 2^31 - 2^27 + 1 = 0x7800_0001.
pub const BABYBEAR_P: u32 = 0x7800_0001u32;

/// R mod p, where R = 2^32 is the Montgomery radix.
pub const BABYBEAR_R_MOD_P: u32 = 0x0FFF_FFFEu32;

/// R^2 mod p, used to move a canonical value into the Montgomery domain.
pub const BABYBEAR_R2_MOD_P: u32 = 0x45DD_DDE3u32;

/// R^{-1} mod p, used by the reference oracle.
pub const BABYBEAR_R_INV_MOD_P: u32 = 0x3840_0000u32;

/// -p^{-1} mod 2^32, the Montgomery reduction multiplier.
pub const BABYBEAR_NEG_INV: u32 = 0x77FF_FFFFu32;

/// The Montgomery radix R = 2^32 as a mathematical integer.
pub open spec fn mont_radix() -> nat {
    0x1_0000_0000nat
}

/// The BabyBear prime as a mathematical integer.
pub open spec fn p_nat() -> nat {
    BABYBEAR_P as nat
}

/// The relations between the constants: each one is what its name says.
///
/// - `p * neg_inv + 1 == 0 (mod 2^32)`
/// - `R mod p`, `R^2 mod p` and `R^{-1} mod p` are the residues they claim to be.
pub proof fn lemma_constants_consistent()
    ensures
        (BABYBEAR_P as nat * BABYBEAR_NEG_INV as nat + 1) % mont_radix() == 0,
        mont_radix() % p_nat() == BABYBEAR_R_MOD_P as nat,
        (mont_radix() * mont_radix()) % p_nat() == BABYBEAR_R2_MOD_P as nat,
        (mont_radix() * BABYBEAR_R_INV_MOD_P as nat) % p_nat() == 1,
        (BABYBEAR_R_MOD_P as nat * BABYBEAR_R_INV_MOD_P as nat) % p_nat() == 1,
        BABYBEAR_R_MOD_P < BABYBEAR_P,
        BABYBEAR_R2_MOD_P < BABYBEAR_P,
        BABYBEAR_R_INV_MOD_P < BABYBEAR_P,
{
    assert((0x7800_0001nat * 0x77FF_FFFFnat + 1) % 0x1_0000_0000nat == 0) by (nonlinear_arith);
    assert(0x1_0000_0000nat % 0x7800_0001nat == 0x0FFF_FFFEnat) by (nonlinear_arith);
    assert((0x1_0000_0000nat * 0x1_0000_0000nat) % 0x7800_0001nat == 0x45DD_DDE3nat)
        by (nonlinear_arith);
    assert((0x1_0000_0000nat * 0x3840_0000nat) % 0x7800_0001nat == 1) by (nonlinear_arith);
    assert((0x0FFF_FFFEnat * 0x3840_0000nat) % 0x7800_0001nat == 1) by (nonlinear_arith);
}

} // verus!
