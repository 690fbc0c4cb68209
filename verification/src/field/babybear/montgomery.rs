//! Montgomery multiplication for BabyBear — scalar (CIOS) backend.
//!
//! `MontgomeryBackend` is the shared contract of every multiplication
//! backend; `ScalarBackend` is the reference-checked scalar implementation.
use crate::field::babybear::constants::{
    lemma_constants_consistent, mont_radix, p_nat, BABYBEAR_NEG_INV, BABYBEAR_P, BABYBEAR_R_INV_MOD_P,
};
use vstd::arithmetic::div_mod::*;
use vstd::arithmetic::mul::*;
use vstd::prelude::*;

verus! {

/// Parameters of a Montgomery reduction with radix R = 2^32.
#[derive(Clone, Copy, Debug, PartialEq, Eq, Structural)]
pub struct MontgomeryConstants {
    pub modulus: u32,
    /// `-modulus^{-1} mod 2^32`.
    pub neg_inv: u32,
}

impl MontgomeryConstants {
    /// The reduction invariant: `modulus * neg_inv + 1 == 0 (mod 2^32)`.
    pub open spec fn wf(self) -> bool {
        (self.modulus as nat * self.neg_inv as nat + 1) % mont_radix() == 0
    }

    /// Bundles the modulus with its negated inverse; the pair must satisfy
    /// the reduction invariant.
    #[must_use]
    pub fn new(modulus: u32, neg_inv: u32) -> (r: Self)
        requires
            (modulus as nat * neg_inv as nat + 1) % mont_radix() == 0,
        ensures
            r.modulus == modulus,
            r.neg_inv == neg_inv,
            r.wf(),
    {
        Self { modulus, neg_inv }
    }
}

/// The BabyBear parameters: `(p, -p^{-1} mod 2^32)`.
pub open spec fn babybear_monty_spec() -> MontgomeryConstants {
    MontgomeryConstants { modulus: BABYBEAR_P, neg_inv: BABYBEAR_NEG_INV }
}

/// The BabyBear parameters: `(p, -p^{-1} mod 2^32)`.
#[allow(non_snake_case)]
#[verifier::when_used_as_spec(babybear_monty_spec)]
pub fn BABYBEAR_MONTY() -> (c: MontgomeryConstants)
    ensures
        c == babybear_monty_spec(),
        c.wf(),
{
    proof {
        lemma_constants_consistent();
    }
    MontgomeryConstants { modulus: BABYBEAR_P, neg_inv: BABYBEAR_NEG_INV }
}

// ---------------------------------------------------------------------------
// Mathematical model of Montgomery reduction (REDC)
// ---------------------------------------------------------------------------

/// The REDC multiplier `m = (t mod R) * neg_inv mod R`.
pub open spec fn redc_multiplier(t: nat, c: MontgomeryConstants) -> nat {
    ((t % mont_radix()) * c.neg_inv as nat) % mont_radix()
}

/// The value `t + m * modulus` whose high word REDC keeps.
pub open spec fn redc_sum(t: nat, c: MontgomeryConstants) -> nat {
    t + redc_multiplier(t, c) * c.modulus as nat
}

/// `t + m * modulus` fits in 64 bits, so the reduction does not overflow.
pub open spec fn redc_fits(t: nat, c: MontgomeryConstants) -> bool {
    redc_sum(t, c) <= u64::MAX as nat
}

/// REDC of `t`: the high 32-bit word of `t + m * modulus`, reduced by one
/// conditional subtraction of the modulus.
pub open spec fn redc(t: nat, c: MontgomeryConstants) -> nat {
    let u = (redc_sum(t, c) / mont_radix()) % mont_radix();
    if u < c.modulus as nat {
        u
    } else {
        (u - c.modulus as nat) as nat
    }
}

/// Montgomery product of BabyBear residues: `a * b * R^{-1} mod p`.
pub open spec fn mont_mul_spec(a: nat, b: nat) -> nat {
    (a * b * BABYBEAR_R_INV_MOD_P as nat) % p_nat()
}

/// `t + m * modulus` is a multiple of R whenever the constants are valid.
proof fn lemma_redc_sum_divisible(t: nat, c: MontgomeryConstants)
    requires
        c.wf(),
    ensures
        redc_sum(t, c) % mont_radix() == 0,
{
    let r = mont_radix() as int;
    let md = c.modulus as int;
    let ni = c.neg_inv as int;
    let s = (t as int) % r;
    let hi = (t as int) / r;
    let sn = s * ni;
    let fl = sn / r;
    let q = sn % r;
    let k = (md * ni + 1) / r;
    lemma_fundamental_div_mod(t as int, r);
    lemma_fundamental_div_mod(sn, r);
    lemma_fundamental_div_mod(md * ni + 1, r);
    assert(md * ni + 1 == r * k);
    assert(t as int == r * hi + s);
    assert(sn == r * fl + q);
    assert(q == redc_multiplier(t, c));
    // t + q*md = r * (hi + s*k - fl*md)
    assert((t as int) + q * md == r * (hi + s * k - fl * md)) by (nonlinear_arith)
        requires
            md * ni + 1 == r * k,
            t as int == r * hi + s,
            s * ni == r * fl + q,
    ;
    lemma_mod_multiples_basic(hi + s * k - fl * md, r);
    lemma_mul_is_commutative(r, hi + s * k - fl * md);
}

/// Correctness of REDC: for valid constants with `modulus <= 2^31` and
/// `t < modulus * R`, the reduction does not overflow, lands in
/// `[0, modulus)` and satisfies `result * R == t (mod modulus)`.
pub proof fn lemma_redc_correct(t: nat, c: MontgomeryConstants)
    requires
        c.wf(),
        0 < c.modulus <= 0x8000_0000u32,
        t < c.modulus as nat * mont_radix(),
    ensures
        redc_fits(t, c),
        redc(t, c) < c.modulus,
        (redc(t, c) * mont_radix()) % (c.modulus as nat) == t % (c.modulus as nat),
{
    let r = mont_radix();
    let md = c.modulus as nat;
    let m = redc_multiplier(t, c);
    let sum = redc_sum(t, c);
    lemma_redc_sum_divisible(t, c);
    assert(m < r) by {
        lemma_mod_bound(((t % r) * c.neg_inv as nat) as int, r as int);
    }
    assert(m * md <= (r - 1) * md) by (nonlinear_arith)
        requires
            m < r,
    ;
    assert(sum < 2 * md * r) by (nonlinear_arith)
        requires
            sum == t + m * md,
            t < md * r,
            m * md <= (r - 1) * md,
    ;
    assert(2 * md * r <= 0x1_0000_0000_0000_0000nat) by (nonlinear_arith)
        requires
            md <= 0x8000_0000nat,
            r == 0x1_0000_0000nat,
    ;
    let up = sum / r;
    lemma_fundamental_div_mod(sum as int, r as int);
    assert(sum == r * up);
    assert(up < 2 * md) by (nonlinear_arith)
        requires
            sum == r * up,
            sum < 2 * md * r,
            r > 0,
    ;
    assert(up < r);
    lemma_small_mod(up, r);
    let res = redc(t, c);
    // res * r == up * r or up * r - md * r
    assert((up * r) % md == t % md) by {
        lemma_mul_is_commutative(r as int, up as int);
        lemma_mod_multiples_vanish(m as int, t as int, md as int);
        assert(t + m * md == md * m + t) by (nonlinear_arith);
    }
    if up < md {
        assert(res == up);
    } else {
        assert(res == up - md);
        assert(res * r == up * r - md * r) by (nonlinear_arith)
            requires
                res == up - md,
        ;
        lemma_mod_sub_multiples_vanish((up * r) as int, md as int);
        assert(((up * r - md * r) as int) % (md as int) == ((up * r) as int) % (md as int)) by {
            lemma_mod_multiples_vanish(-(r as int), (up * r) as int, md as int);
            assert(md * (-(r as int)) + (up * r) as int == (up * r - md * r) as int)
                by (nonlinear_arith);
        }
    }
}

/// Montgomery reduction with the BabyBear constants equals the oracle
/// formula `t * R^{-1} mod p`.
pub proof fn lemma_redc_babybear(t: nat)
    requires
        t < p_nat() * mont_radix(),
    ensures
        redc_fits(t, babybear_monty_spec()),
        redc(t, babybear_monty_spec()) < BABYBEAR_P,
        redc(t, babybear_monty_spec()) == (t * BABYBEAR_R_INV_MOD_P as nat) % p_nat(),
{
    lemma_constants_consistent();
    let c = babybear_monty_spec();
    lemma_redc_correct(t, c);
    let res = redc(t, c);
    let p = p_nat() as int;
    let r = mont_radix() as int;
    let ri = BABYBEAR_R_INV_MOD_P as int;
    // res == res * (r * ri) == (res * r) * ri == t * ri  (mod p)
    assert((res as int * r) % p == (t as int) % p);
    lemma_mul_mod_noop_left(res as int * r, ri, p);
    lemma_mul_mod_noop_left(t as int, ri, p);
    assert((res as int * r * ri) % p == (t as int * ri) % p);
    assert(res as int * r * ri == res as int * (r * ri)) by (nonlinear_arith);
    lemma_mul_mod_noop_right(res as int, r * ri, p);
    assert((res as int * ((r * ri) % p)) % p == (res as int) % p);
    lemma_small_mod(res, p as nat);
}

/// Shared contract for all Montgomery multiplication backends.
///
/// `mul(a, b)` returns the REDC of `a * b` for the backend's constants
/// (`a * b * R^{-1} mod p` for valid constants); `reduce(prod)` returns the
/// REDC of a precomputed product.
pub trait MontgomeryBackend: Copy {
    /// The field modulus p.
    const MODULUS: u32;

    /// The constants the backend reduces with.
    spec fn backend_constants(&self) -> MontgomeryConstants;

    fn constants(&self) -> (c: MontgomeryConstants)
        ensures
            c == self.backend_constants(),
    ;

    /// Compute `a * b * R^{-1} mod p` (REDC of the full product).
    fn mul(&self, a: u32, b: u32) -> (r: u32)
        requires
            a < self.backend_constants().modulus,
            b < self.backend_constants().modulus,
            redc_fits(a as nat * b as nat, self.backend_constants()),
        ensures
            r as nat == redc(a as nat * b as nat, self.backend_constants()),
    ;

    /// Reduce a precomputed product; equals `mul` of its factors.
    fn reduce(&self, prod: u64) -> (r: u32)
        requires
            redc_fits(prod as nat, self.backend_constants()),
        ensures
            r as nat == redc(prod as nat, self.backend_constants()),
    ;
}

/// Scalar backend: CIOS reduction on u32 lanes.
#[derive(Clone, Copy, Debug)]
pub struct ScalarBackend {
    pub consts: MontgomeryConstants,
}

impl ScalarBackend {
    #[must_use]
    pub fn new(consts: MontgomeryConstants) -> (r: Self)
        ensures
            r.consts == consts,
    {
        Self { consts }
    }

    /// Raw CIOS Montgomery multiplication: the REDC of `a * b`.
    ///
    /// With the BabyBear constants and `a, b < p` this is
    /// `a * b * R^{-1} mod p` (see `lemma_redc_babybear`).
    #[inline(always)]
    pub fn mul_raw(a: u32, b: u32, c: MontgomeryConstants) -> (r: u32)
        requires
            redc_fits(a as nat * b as nat, c),
        ensures
            r as nat == redc(a as nat * b as nat, c),
    {
        let t: u64 = (a as u64) * (b as u64);
        proof {
            lemma_mul_upper_bound(a as int, u32::MAX as int, b as int, u32::MAX as int);
        }
        Self::reduce_raw(t, c)
    }

    /// Raw Montgomery reduction of a precomputed product.
    #[inline(always)]
    pub fn reduce_raw(prod: u64, c: MontgomeryConstants) -> (r: u32)
        requires
            redc_fits(prod as nat, c),
        ensures
            r as nat == redc(prod as nat, c),
    {
        let lo: u32 = #[verifier::truncate] (prod as u32);
        assert(lo == prod as nat % mont_radix()) by (bit_vector)
            requires
                lo == prod as u32,
        ;
        let m: u32 = lo.wrapping_mul(c.neg_inv);
        assert(m as nat == redc_multiplier(prod as nat, c));
        let mm: u64 = (m as u64) * (c.modulus as u64);
        let sum: u64 = prod + mm;
        let hi: u64 = sum >> 32u64;
        assert(hi == sum / 0x1_0000_0000u64) by (bit_vector)
            requires
                hi == sum >> 32u64,
        ;
        let u: u32 = #[verifier::truncate] (hi as u32);
        assert(u == hi % 0x1_0000_0000u64) by (bit_vector)
            requires
                u == hi as u32,
        ;
        if u < c.modulus {
            u
        } else {
            u - c.modulus
        }
    }
}

impl MontgomeryBackend for ScalarBackend {
    const MODULUS: u32 = BABYBEAR_P;

    open spec fn backend_constants(&self) -> MontgomeryConstants {
        self.consts
    }

    #[inline(always)]
    fn constants(&self) -> (c: MontgomeryConstants) {
        self.consts
    }

    #[inline(always)]
    fn mul(&self, a: u32, b: u32) -> (r: u32) {
        Self::mul_raw(a, b, self.consts)
    }

    #[inline(always)]
    fn reduce(&self, prod: u64) -> (r: u32) {
        Self::reduce_raw(prod, self.consts)
    }
}

/// The scalar backend instantiated with the BabyBear constants.
pub open spec fn babybear_scalar_spec() -> ScalarBackend {
    ScalarBackend { consts: babybear_monty_spec() }
}

/// The scalar backend instantiated with the BabyBear constants.
#[allow(non_snake_case)]
#[verifier::when_used_as_spec(babybear_scalar_spec)]
pub fn BABYBEAR_SCALAR() -> (b: ScalarBackend)
    ensures
        b == babybear_scalar_spec(),
{
    ScalarBackend { consts: BABYBEAR_MONTY() }
}

} // verus!
