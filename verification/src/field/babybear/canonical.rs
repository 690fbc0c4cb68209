//! Domain-typed BabyBear field elements.
//!
//! - [`CanonicalBabyBear`]: a value `x` in `[0, p)`, stored as `x`.
//! - [`MontgomeryBabyBear`]: a value `x` stored as `x * R mod p`.
//!
//! Conversions between the domains go through [`ScalarBackend::mul_raw`]
//! with `R^2 mod p` (enter) or `1` (exit).
use crate::field::babybear::constants::{
    lemma_constants_consistent, mont_radix, p_nat, BABYBEAR_P, BABYBEAR_R2_MOD_P,
    BABYBEAR_R_INV_MOD_P,
};
use crate::field::babybear::montgomery::{
    babybear_monty_spec, lemma_redc_babybear, mont_mul_spec, redc, redc_fits, MontgomeryBackend,
    ScalarBackend, BABYBEAR_MONTY, BABYBEAR_SCALAR,
};
use crate::field::babybear::reference::{from_mont_spec, to_mont_spec};
use vstd::arithmetic::div_mod::*;
use vstd::arithmetic::mul::*;
use vstd::prelude::*;

verus! {

/// A BabyBear field element in canonical representation (`self.0 < p` when
/// built by [`CanonicalBabyBear::new`]).
#[derive(Clone, Copy, Debug, PartialEq, Eq, Structural)]
pub struct CanonicalBabyBear(pub u32);

/// A BabyBear field element in Montgomery representation (`x * R mod p`).
#[derive(Clone, Copy, Debug, PartialEq, Eq, Structural)]
pub struct MontgomeryBabyBear(pub u32);

impl CanonicalBabyBear {
    /// Construct from an arbitrary `u32`, reducing mod p.
    #[inline]
    pub fn new(x: u32) -> (r: Self)
        ensures
            r.0 as nat == x as nat % p_nat(),
            r.0 < BABYBEAR_P,
    {
        Self(x % BABYBEAR_P)
    }

    /// Construct without reduction; the caller guarantees `x < p`.
    #[inline]
    pub fn new_unchecked(x: u32) -> (r: Self)
        ensures
            r.0 == x,
    {
        Self(x)
    }

    /// Convert to Montgomery representation: `self.0 * R mod p`.
    #[inline]
    pub fn to_montgomery(self) -> (r: MontgomeryBabyBear)
        ensures
            r.0 as nat == to_mont_spec(self.0 as nat),
            r.0 < BABYBEAR_P,
    {
        proof {
            lemma_to_montgomery_via_r2(self.0 as nat);
        }
        let mont = ScalarBackend::mul_raw(self.0, BABYBEAR_R2_MOD_P, BABYBEAR_MONTY());
        MontgomeryBabyBear(mont)
    }

    /// Raw inner value.
    #[inline(always)]
    pub fn inner(self) -> (r: u32)
        ensures
            r == self.0,
    {
        self.0
    }
}

impl MontgomeryBabyBear {
    /// Checked constructor: the value must already be a residue `< p`.
    #[inline]
    pub fn new(x: u32) -> (r: Self)
        requires
            x < BABYBEAR_P,
        ensures
            r.0 == x,
    {
        Self(x)
    }

    /// Enter the Montgomery domain from a canonical value.
    #[inline]
    pub fn from_canonical(x: CanonicalBabyBear) -> (r: Self)
        ensures
            r.0 as nat == to_mont_spec(x.0 as nat),
            r.0 < BABYBEAR_P,
    {
        x.to_montgomery()
    }

    /// Exit the Montgomery domain: recovers `x` from `x * R`.
    #[inline]
    pub fn to_canonical(self) -> (r: CanonicalBabyBear)
        ensures
            r.0 as nat == from_mont_spec(self.0 as nat),
            r.0 < BABYBEAR_P,
    {
        proof {
            lemma_constants_consistent();
            assert(self.0 as nat * 1 == self.0 as nat);
            assert(self.0 as nat * 1 < p_nat() * mont_radix());
            lemma_redc_babybear(self.0 as nat * 1);
        }
        let canonical = ScalarBackend::mul_raw(self.0, 1, BABYBEAR_MONTY());
        CanonicalBabyBear(canonical)
    }

    /// Montgomery multiplication: `(aR) * (bR) -> (abR)`.
    ///
    /// Both operands are residues (`< p`); the result is
    /// `self.0 * rhs.0 * R^{-1} mod p`.
    #[inline]
    pub fn montgomery_mul(self, rhs: MontgomeryBabyBear) -> (r: MontgomeryBabyBear)
        requires
            self.0 < BABYBEAR_P,
            rhs.0 < BABYBEAR_P,
        ensures
            r.0 as nat == mont_mul_spec(self.0 as nat, rhs.0 as nat),
            r.0 < BABYBEAR_P,
    {
        proof {
            law_scalar_mul_matches_oracle(self.0 as nat, rhs.0 as nat);
        }
        MontgomeryBabyBear(BABYBEAR_SCALAR().mul(self.0, rhs.0))
    }

    /// Raw inner value (the Montgomery-domain representation).
    #[inline(always)]
    pub fn inner(self) -> (r: u32)
        ensures
            r == self.0,
    {
        self.0
    }
}

impl core::ops::Mul for MontgomeryBabyBear {
    type Output = MontgomeryBabyBear;

    #[inline]
    fn mul(self, rhs: MontgomeryBabyBear) -> (r: MontgomeryBabyBear) {
        self.montgomery_mul(rhs)
    }
}

impl vstd::std_specs::ops::MulSpecImpl for MontgomeryBabyBear {
    open spec fn obeys_mul_spec() -> bool {
        true
    }

    open spec fn mul_req(self, rhs: MontgomeryBabyBear) -> bool {
        self.0 < BABYBEAR_P && rhs.0 < BABYBEAR_P
    }

    open spec fn mul_spec(self, rhs: MontgomeryBabyBear) -> MontgomeryBabyBear {
        MontgomeryBabyBear(mont_mul_spec(self.0 as nat, rhs.0 as nat) as u32)
    }
}

/// Two residues multiply to less than `p * R`.
pub proof fn lemma_residue_product_bound(a: nat, b: nat)
    requires
        a < p_nat(),
        b < p_nat(),
    ensures
        a * b < p_nat() * mont_radix(),
{
    assert(a * b < p_nat() * mont_radix()) by (nonlinear_arith)
        requires
            a < p_nat(),
            b < p_nat(),
            p_nat() < mont_radix(),
    ;
}

/// Entering the Montgomery domain through `R^2`: `REDC(x * R^2) == x * R mod p`.
proof fn lemma_to_montgomery_via_r2(x: nat)
    requires
        x <= u32::MAX,
    ensures
        redc_fits(x * BABYBEAR_R2_MOD_P as nat, babybear_monty_spec()),
        redc(x * BABYBEAR_R2_MOD_P as nat, babybear_monty_spec()) == to_mont_spec(x),
        to_mont_spec(x) < BABYBEAR_P,
{
    lemma_constants_consistent();
    let p = p_nat() as int;
    let r = mont_radix() as int;
    let r2 = BABYBEAR_R2_MOD_P as int;
    let ri = BABYBEAR_R_INV_MOD_P as int;
    assert(x * (BABYBEAR_R2_MOD_P as nat) < p_nat() * mont_radix()) by (nonlinear_arith)
        requires
            x <= u32::MAX,
            BABYBEAR_R2_MOD_P < BABYBEAR_P,
            mont_radix() == u32::MAX + 1,
    ;
    lemma_redc_babybear(x * BABYBEAR_R2_MOD_P as nat);
    // x * r2 * ri == x * (r2 * ri) == x * r  (mod p)
    assert((r2 * ri) % p == r % p) by {
        // r2 == r*r mod p, and r*ri == 1 mod p
        lemma_mul_mod_noop_left(r * r, ri, p);
        assert((r * r) % p == r2);
        assert(r * r * ri == r * (r * ri)) by (nonlinear_arith);
        lemma_mul_mod_noop_right(r, r * ri, p);
    }
    assert(x as int * r2 * ri == x as int * (r2 * ri)) by (nonlinear_arith);
    lemma_mul_mod_noop_right(x as int, r2 * ri, p);
    lemma_mul_mod_noop_right(x as int, r, p);
    lemma_mod_bound(x as int * r, p);
}

// ---------------------------------------------------------------------------
// Laws of the Montgomery representation
// ---------------------------------------------------------------------------

/// Round trip: decoding the Montgomery encoding of a residue gives it back.
pub proof fn law_montgomery_roundtrip(x: nat)
    requires
        x < p_nat(),
    ensures
        from_mont_spec(to_mont_spec(x)) == x,
{
    lemma_constants_consistent();
    let p = p_nat() as int;
    let r = mont_radix() as int;
    let ri = BABYBEAR_R_INV_MOD_P as int;
    lemma_mul_mod_noop_left(x as int * r, ri, p);
    assert(x as int * r * ri == x as int * (r * ri)) by (nonlinear_arith);
    lemma_mul_mod_noop_right(x as int, r * ri, p);
    lemma_small_mod(x, p_nat());
}

/// Multiplication semantics: the Montgomery product of the encodings of
/// `a` and `b` decodes to `a * b mod p`.
pub proof fn law_montgomery_mul_semantics(a: nat, b: nat)
    ensures
        from_mont_spec(mont_mul_spec(to_mont_spec(a), to_mont_spec(b))) == (a * b) % p_nat(),
{
    lemma_constants_consistent();
    let p = p_nat() as int;
    let r = mont_radix() as int;
    let ri = BABYBEAR_R_INV_MOD_P as int;
    let ai = a as int;
    let bi = b as int;
    let ma = (ai * r) % p;
    let mb = (bi * r) % p;
    let m = (ma * mb * ri) % p;
    let big = ai * r * (bi * r) * ri;
    assert(m == big % p) by {
        lemma_mul_mod_noop_left(ai * r, mb, p);
        lemma_mul_mod_noop_right(ai * r, bi * r, p);
        assert((ma * mb) % p == (ai * r * (bi * r)) % p);
        lemma_mul_mod_noop_left(ma * mb, ri, p);
        lemma_mul_mod_noop_left(ai * r * (bi * r), ri, p);
    }
    assert((m * ri) % p == (big * ri) % p) by {
        lemma_mul_mod_noop_left(big, ri, p);
    }
    let one2 = (r * ri) * (r * ri);
    assert(big * ri == (ai * bi) * one2) by (nonlinear_arith)
        requires
            big == ai * r * (bi * r) * ri,
            one2 == (r * ri) * (r * ri),
    ;
    assert(one2 % p == 1) by {
        lemma_mul_mod_noop(r * ri, r * ri, p);
    }
    assert(((ai * bi) * one2) % p == (ai * bi) % p) by {
        lemma_mul_mod_noop_right(ai * bi, one2, p);
    }
}

/// Zero annihilates: the Montgomery product with zero is zero.
pub proof fn law_montgomery_mul_zero(x: nat)
    ensures
        mont_mul_spec(0, x) == 0,
        mont_mul_spec(x, 0) == 0,
{
    assert(0 * x * BABYBEAR_R_INV_MOD_P as nat == 0) by (nonlinear_arith);
    assert(x * 0 * BABYBEAR_R_INV_MOD_P as nat == 0) by (nonlinear_arith);
    lemma_small_mod(0, p_nat());
}

/// The Montgomery product is commutative.
pub proof fn law_montgomery_mul_commutative(a: nat, b: nat)
    ensures
        mont_mul_spec(a, b) == mont_mul_spec(b, a),
{
    lemma_mul_is_commutative(a as int, b as int);
}

/// The Montgomery product is associative.
pub proof fn law_montgomery_mul_associative(a: nat, b: nat, c: nat)
    ensures
        mont_mul_spec(mont_mul_spec(a, b), c) == mont_mul_spec(a, mont_mul_spec(b, c)),
{
    let p = p_nat() as int;
    let ri = BABYBEAR_R_INV_MOD_P as int;
    let ab = (a as int * b as int * ri) % p;
    let bc = (b as int * c as int * ri) % p;
    lemma_mul_mod_noop_left(a as int * b as int * ri, c as int, p);
    lemma_mul_mod_noop_left(ab * c as int, ri, p);
    lemma_mul_mod_noop_left(a as int * b as int * ri * c as int, ri, p);
    lemma_mul_mod_noop_right(a as int, b as int * c as int * ri, p);
    lemma_mul_mod_noop_left(a as int * bc, ri, p);
    lemma_mul_mod_noop_left(a as int * (b as int * c as int * ri), ri, p);
    assert(a as int * b as int * ri * c as int * ri == a as int * (b as int * c as int * ri) * ri)
        by (nonlinear_arith);
}

/// The scalar backend agrees with the reference oracle on all residues:
/// `REDC(a * b) == a * b * R^{-1} mod p`.
pub proof fn law_scalar_mul_matches_oracle(a: nat, b: nat)
    requires
        a < p_nat(),
        b < p_nat(),
    ensures
        redc_fits(a * b, babybear_monty_spec()),
        redc(a * b, babybear_monty_spec()) == mont_mul_spec(a, b),
        mont_mul_spec(a, b) < p_nat(),
{
    lemma_residue_product_bound(a, b);
    lemma_redc_babybear(a * b);
}

} // verus!
