//! Reference (oracle) arithmetic for BabyBear, written with wide integers
//! and no shared code with the optimized paths, together with the
//! mathematical model every implementation is held to.
use crate::field::babybear::constants::{
    lemma_constants_consistent, mont_radix, p_nat, BABYBEAR_P, BABYBEAR_R_INV_MOD_P,
    BABYBEAR_R_MOD_P,
};
use crate::field::babybear::montgomery::mont_mul_spec;
use vstd::arithmetic::div_mod::*;
use vstd::arithmetic::mul::*;
use vstd::prelude::*;

verus! {

/// Montgomery encoding of a value: `x * R mod p`.
pub open spec fn to_mont_spec(x: nat) -> nat {
    (x * mont_radix()) % p_nat()
}

/// Montgomery decoding of a value: `x * R^{-1} mod p`.
pub open spec fn from_mont_spec(x: nat) -> nat {
    (x * BABYBEAR_R_INV_MOD_P as nat) % p_nat()
}

/// Field addition of residues.
pub open spec fn add_mod_spec(a: nat, b: nat) -> nat {
    (a + b) % p_nat()
}

/// Field subtraction of residues (Euclidean remainder, always in `[0, p)`).
pub open spec fn sub_mod_spec(a: nat, b: nat) -> nat {
    ((a as int - b as int) % (p_nat() as int)) as nat
}

/// The DIF butterfly on Montgomery-encoded residues:
/// `(a + b mod p, (a - b) * w * R^{-1} mod p)`.
pub open spec fn butterfly_spec(a: nat, b: nat, w: nat) -> (nat, nat) {
    (add_mod_spec(a, b), mont_mul_spec(sub_mod_spec(a, b), w))
}

/// Montgomery multiplication oracle: `a * b * r_inv mod modulus`.
#[must_use]
pub fn montgomery_mul_reference(a: u32, b: u32, modulus: u32, r_inv: u32) -> (r: u32)
    requires
        a < modulus,
        b < modulus,
    ensures
        r as nat == (a as nat * b as nat * r_inv as nat) % (modulus as nat),
        r < modulus,
{
    let p = modulus as u128;
    proof {
        lemma_mul_upper_bound(a as int, u32::MAX as int, b as int, u32::MAX as int);
        lemma_mul_upper_bound(
            a as int * b as int,
            u64::MAX as int,
            r_inv as int,
            u32::MAX as int,
        );
        assert(u64::MAX as int * u32::MAX as int <= u128::MAX) by (nonlinear_arith);
    }
    let prod = (a as u128) * (b as u128) * (r_inv as u128);
    let result = prod % p;
    proof {
        lemma_mod_bound(prod as int, p as int);
    }
    result as u32
}

/// Oracle Montgomery multiplication with the BabyBear constants.
#[must_use]
pub fn babybear_mul_reference(a: u32, b: u32) -> (r: u32)
    requires
        a < BABYBEAR_P,
        b < BABYBEAR_P,
    ensures
        r as nat == mont_mul_spec(a as nat, b as nat),
        r < BABYBEAR_P,
{
    montgomery_mul_reference(a, b, BABYBEAR_P, BABYBEAR_R_INV_MOD_P)
}

/// Canonical `x` to Montgomery domain: `x * R mod p`.
#[must_use]
pub fn to_montgomery_reference(x: u32) -> (r: u32)
    requires
        x < BABYBEAR_P,
    ensures
        r as nat == to_mont_spec(x as nat),
        r < BABYBEAR_P,
{
    proof {
        lemma_constants_consistent();
        lemma_mul_mod_noop_right(x as int, mont_radix() as int, p_nat() as int);
        lemma_mod_bound(x as int * BABYBEAR_R_MOD_P as int, p_nat() as int);
        lemma_mul_upper_bound(x as int, u32::MAX as int, BABYBEAR_R_MOD_P as int, u32::MAX as int);
    }
    ((x as u64 * BABYBEAR_R_MOD_P as u64) % BABYBEAR_P as u64) as u32
}

/// Montgomery-domain `x` to canonical: `x * R^{-1} mod p`.
#[must_use]
pub fn from_montgomery_reference(x: u32) -> (r: u32)
    requires
        x < BABYBEAR_P,
    ensures
        r as nat == from_mont_spec(x as nat),
        r < BABYBEAR_P,
{
    proof {
        lemma_constants_consistent();
    }
    montgomery_mul_reference(x, 1, BABYBEAR_P, BABYBEAR_R_INV_MOD_P)
}

/// Reference addition mod p.
#[must_use]
pub fn babybear_add_reference(a: u32, b: u32) -> (r: u32)
    requires
        a < BABYBEAR_P,
        b < BABYBEAR_P,
    ensures
        r as nat == add_mod_spec(a as nat, b as nat),
        r < BABYBEAR_P,
{
    let s = a + b;
    proof {
        if s >= BABYBEAR_P {
            lemma_mod_subtraction_once(s as nat);
        } else {
            lemma_small_mod(s as nat, p_nat());
        }
    }
    if s >= BABYBEAR_P {
        s - BABYBEAR_P
    } else {
        s
    }
}

/// Reference subtraction mod p.
#[must_use]
pub fn babybear_sub_reference(a: u32, b: u32) -> (r: u32)
    requires
        a < BABYBEAR_P,
        b < BABYBEAR_P,
    ensures
        r as nat == sub_mod_spec(a as nat, b as nat),
        r < BABYBEAR_P,
{
    proof {
        lemma_sub_mod_cases(a as nat, b as nat);
    }
    if a >= b {
        a - b
    } else {
        a + BABYBEAR_P - b
    }
}

/// Reference radix-2 DIF butterfly: `(a + b, (a - b) * w)` on
/// Montgomery-encoded residues.
#[must_use]
pub fn butterfly_reference(a: u32, b: u32, w: u32) -> (r: (u32, u32))
    requires
        a < BABYBEAR_P,
        b < BABYBEAR_P,
        w < BABYBEAR_P,
    ensures
        (r.0 as nat, r.1 as nat) == butterfly_spec(a as nat, b as nat, w as nat),
        r.0 < BABYBEAR_P,
        r.1 < BABYBEAR_P,
{
    let x = babybear_add_reference(a, b);
    let d = babybear_sub_reference(a, b);
    let y = babybear_mul_reference(d, w);
    (x, y)
}

/// `s - p` is `s mod p` when `p <= s < 2p`.
pub proof fn lemma_mod_subtraction_once(s: nat)
    requires
        p_nat() <= s < 2 * p_nat(),
    ensures
        s % p_nat() == s - p_nat(),
{
    lemma_fundamental_div_mod_converse(s as int, p_nat() as int, 1, s - p_nat());
}

/// The two branches of modular subtraction of residues.
pub proof fn lemma_sub_mod_cases(a: nat, b: nat)
    requires
        a < p_nat(),
        b < p_nat(),
    ensures
        a >= b ==> sub_mod_spec(a, b) == a - b,
        a < b ==> sub_mod_spec(a, b) == a + p_nat() - b,
        sub_mod_spec(a, b) < p_nat(),
{
    let p = p_nat() as int;
    if a >= b {
        lemma_small_mod((a - b) as nat, p_nat());
    } else {
        lemma_fundamental_div_mod_converse(a as int - b as int, p, -1, a as int + p - b as int);
    }
    lemma_mod_bound(a as int - b as int, p);
}

} // verus!
