//! The DIF NTT against the discrete Fourier transform.
//!
//! With stage twiddles that are powers of a root `w` of order `n = 2^L`
//! (`w^(n/2) = -1 mod p`), the `L` DIF stages followed by the bit-reversal
//! permutation compute, in the decoded domain,
//! `X[k] = sum_j x[j] * w^(j*k) mod p`.
use crate::field::babybear::constants::{
    lemma_constants_consistent, mont_radix, p_nat, BABYBEAR_R_INV_MOD_P,
};
use crate::field::babybear::montgomery::mont_mul_spec;
use crate::field::babybear::reference::{
    add_mod_spec, butterfly_spec, from_mont_spec, sub_mod_spec, to_mont_spec,
};
use crate::ntt::{
    bit_rev, bit_reverse_spec, dif_stage_spec, lemma_bit_rev_bound, lemma_bit_rev_involution,
    ntt_stages_spec, stage_half, trailing_zeros_spec, twiddles_fit,
};
use vstd::arithmetic::div_mod::*;
use vstd::arithmetic::mul::*;
use vstd::arithmetic::power::*;
use vstd::arithmetic::power2::*;
use vstd::prelude::*;

verus! {

/// `a mod p` (Euclidean remainder, in `[0, p)`).
pub open spec fn modp(a: int) -> int {
    a % (p_nat() as int)
}

/// Montgomery values decoded to the residues they stand for.
pub open spec fn decode(v: Seq<u32>) -> Seq<int> {
    v.map_values(|a: u32| from_mont_spec(a as nat) as int)
}

/// `sum_{j < m} x[j] * w^(j*k)`, without reduction.
pub open spec fn dft_sum(x: Seq<int>, w: int, k: nat, m: nat) -> int
    decreases m,
{
    if m == 0 {
        0
    } else {
        dft_sum(x, w, k, (m - 1) as nat) + x[m - 1] * pow(w, ((m - 1) as nat * k) as nat)
    }
}

/// Output `k` of the discrete Fourier transform of `x` at the root `w`:
/// `sum_j x[j] * w^(j*k) mod p`.
pub open spec fn dft_spec(x: Seq<int>, w: int, k: nat) -> int {
    modp(dft_sum(x, w, k, x.len()))
}

pub proof fn lemma_cong_add(a: int, b: int, c: int, d: int)
    requires
        modp(a) == modp(c),
        modp(b) == modp(d),
    ensures
        modp(a + b) == modp(c + d),
{
    let p = p_nat() as int;
    lemma_add_mod_noop(a, b, p);
    lemma_add_mod_noop(c, d, p);
}

pub proof fn lemma_cong_sub(a: int, b: int, c: int, d: int)
    requires
        modp(a) == modp(c),
        modp(b) == modp(d),
    ensures
        modp(a - b) == modp(c - d),
{
    let p = p_nat() as int;
    lemma_sub_mod_noop(a, b, p);
    lemma_sub_mod_noop(c, d, p);
}

pub proof fn lemma_cong_mul(a: int, b: int, c: int, d: int)
    requires
        modp(a) == modp(c),
        modp(b) == modp(d),
    ensures
        modp(a * b) == modp(c * d),
{
    let p = p_nat() as int;
    lemma_mul_mod_noop(a, b, p);
    lemma_mul_mod_noop(c, d, p);
}

pub proof fn lemma_modp_idem(a: int)
    ensures
        modp(modp(a)) == modp(a),
        0 <= modp(a) < p_nat(),
{
    let p = p_nat() as int;
    lemma_mod_twice(a, p);
    lemma_mod_bound(a, p);
}

/// The butterfly on Montgomery values is, decoded, `(a + b, (a - b) * w)`.
proof fn lemma_decode_butterfly(a: nat, b: nat, w: nat)
    ensures
        from_mont_spec(butterfly_spec(a, b, w).0) as int == modp(
            from_mont_spec(a) as int + from_mont_spec(b) as int,
        ),
        from_mont_spec(butterfly_spec(a, b, w).1) as int == modp(
            (from_mont_spec(a) as int - from_mont_spec(b) as int) * from_mont_spec(w) as int,
        ),
{
    let p = p_nat() as int;
    let ri = BABYBEAR_R_INV_MOD_P as int;
    let ai = a as int;
    let bi = b as int;
    let wi = w as int;
    // Decoding is multiplication by ri, modulo p.
    assert(from_mont_spec(a) as int == modp(ai * ri));
    assert(from_mont_spec(b) as int == modp(bi * ri));
    assert(from_mont_spec(w) as int == modp(wi * ri));
    // First output: ((a + b) mod p) * ri == a*ri + b*ri.
    let s = modp(ai + bi);
    assert(butterfly_spec(a, b, w).0 as int == s);
    lemma_modp_idem(ai + bi);
    lemma_cong_mul(s, ri, ai + bi, ri);
    assert((ai + bi) * ri == ai * ri + bi * ri) by (nonlinear_arith);
    lemma_modp_idem(ai * ri);
    lemma_modp_idem(bi * ri);
    lemma_cong_add(ai * ri, bi * ri, modp(ai * ri), modp(bi * ri));
    assert(from_mont_spec(butterfly_spec(a, b, w).0) as int == modp(s * ri));
    // Second output: (((a - b) mod p) * w * ri mod p) * ri == (a*ri - b*ri) * (w*ri).
    let d = modp(ai - bi);
    assert(butterfly_spec(a, b, w).1 as int == modp(d * wi * BABYBEAR_R_INV_MOD_P as int));
    let m = modp(d * wi * ri);
    lemma_modp_idem(ai - bi);
    lemma_modp_idem(d * wi * ri);
    lemma_cong_mul(d, wi * ri, ai - bi, wi * ri);
    assert(d * wi * ri == d * (wi * ri)) by (nonlinear_arith);
    assert(modp(d * wi * ri) == modp((ai - bi) * (wi * ri)));
    lemma_cong_mul(m, ri, (ai - bi) * (wi * ri), ri);
    assert((ai - bi) * (wi * ri) * ri == (ai * ri - bi * ri) * (wi * ri)) by (nonlinear_arith);
    lemma_cong_sub(ai * ri, bi * ri, modp(ai * ri), modp(bi * ri));
    lemma_modp_idem(wi * ri);
    lemma_cong_mul(ai * ri - bi * ri, wi * ri, modp(ai * ri) - modp(bi * ri), modp(wi * ri));
    assert(from_mont_spec(butterfly_spec(a, b, w).1) as int == modp(m * ri));
}


/// A Montgomery product decodes to the product of the decoded factors.
pub proof fn lemma_decode_mont_mul(a: nat, b: nat)
    ensures
        from_mont_spec(mont_mul_spec(a, b)) as int == modp(
            from_mont_spec(a) as int * from_mont_spec(b) as int,
        ),
{
    let ri = BABYBEAR_R_INV_MOD_P as int;
    let ai = a as int;
    let bi = b as int;
    let m = modp(ai * bi * ri);
    assert(mont_mul_spec(a, b) as int == m);
    lemma_modp_idem(ai * bi * ri);
    lemma_modp_idem(ai * ri);
    lemma_modp_idem(bi * ri);
    lemma_cong_mul(m, ri, ai * bi * ri, ri);
    lemma_cong_mul(modp(ai * ri), modp(bi * ri), ai * ri, bi * ri);
    assert(ai * bi * ri * ri == (ai * ri) * (bi * ri)) by (nonlinear_arith);
    assert(from_mont_spec(mont_mul_spec(a, b)) as int == modp(m * ri));
}

/// `sum_{t < T} x[r + t*m] * w^(t*m*c)`: what position `r` of a block of
/// `m` values holds, up to the factor `w^(r*c)`, once the first `T` terms
/// of the residue class `c` have been folded into it.
pub open spec fn block_sum(x: Seq<int>, w: int, m: nat, c: nat, r: nat, t: nat) -> int
    decreases t,
{
    if t == 0 {
        0
    } else {
        let u = (t - 1) as nat;
        block_sum(x, w, m, c, r, u) + x[(r + u * m) as int] * pow(w, u * m * c)
    }
}

/// Splitting a block sum over `2T` terms of stride `h` into its even terms
/// and its odd terms, both of stride `2h`.
proof fn lemma_block_split(x: Seq<int>, w: int, h: nat, c: nat, r: nat, t: nat)
    ensures
        block_sum(x, w, h, c, r, 2 * t) == block_sum(x, w, 2 * h, c, r, t) + pow(w, h * c)
            * block_sum(x, w, 2 * h, c, r + h, t),
    decreases t,
{
    if t > 0 {
        let u = (t - 1) as nat;
        lemma_block_split(x, w, h, c, r, u);
        let e0 = (2 * u) as nat;
        let e1 = (2 * u + 1) as nat;
        assert(block_sum(x, w, h, c, r, 2 * t) == block_sum(x, w, h, c, r, e1) + x[(r + e1 * h) as int]
            * pow(w, e1 * h * c));
        assert(block_sum(x, w, h, c, r, e1) == block_sum(x, w, h, c, r, e0) + x[(r + e0 * h) as int]
            * pow(w, e0 * h * c));
        assert(e0 * h == u * (2 * h)) by (nonlinear_arith)
            requires
                e0 == 2 * u,
        ;
        assert(e1 * h == h + u * (2 * h)) by (nonlinear_arith)
            requires
                e1 == 2 * u + 1,
        ;
        assert(e0 * h * c == u * (2 * h) * c) by (nonlinear_arith)
            requires
                e0 * h == u * (2 * h),
        ;
        assert(e1 * h * c == h * c + u * (2 * h) * c) by (nonlinear_arith)
            requires
                e1 * h == h + u * (2 * h),
        ;
        lemma_pow_adds(w, h * c, u * (2 * h) * c);
        let a = block_sum(x, w, 2 * h, c, r, u);
        let b = block_sum(x, w, 2 * h, c, r + h, u);
        let ph = pow(w, h * c);
        let pu = pow(w, u * (2 * h) * c);
        let xa = x[(r + u * (2 * h)) as int];
        let xb = x[(r + h + u * (2 * h)) as int];
        assert(block_sum(x, w, 2 * h, c, r, t) == a + xa * pu);
        assert(block_sum(x, w, 2 * h, c, r + h, t) == b + xb * pu);
        assert(ph * (b + xb * pu) == ph * b + xb * (ph * pu)) by (nonlinear_arith);
    }
}

/// Raising the residue class by `q` does not change a block sum modulo `p`
/// when `w^(m*q) = 1 mod p`.
proof fn lemma_block_class_shift(x: Seq<int>, w: int, m: nat, c: nat, q: nat, r: nat, t: nat)
    requires
        modp(pow(w, m * q)) == 1,
    ensures
        modp(block_sum(x, w, m, (c + q) as nat, r, t)) == modp(block_sum(x, w, m, c, r, t)),
    decreases t,
{
    if t > 0 {
        let u = (t - 1) as nat;
        lemma_block_class_shift(x, w, m, c, q, r, u);
        let xi = x[(r + u * m) as int];
        assert(u * m * (c + q) == u * m * c + (m * q) * u) by (nonlinear_arith);
        lemma_pow_adds(w, u * m * c, (m * q) * u);
        lemma_pow_multiplies(w, m * q, u);
        let one = pow(pow(w, m * q), u);
        let p = p_nat() as int;
        lemma_pow_mod_noop(pow(w, m * q), u, p);
        lemma1_pow(u);
        assert(modp(one) == 1) by {
            lemma_small_mod(1, p_nat());
        }
        let base = pow(w, u * m * c);
        assert(xi * pow(w, u * m * (c + q) as nat) == (xi * base) * one) by (nonlinear_arith)
            requires
                pow(w, u * m * (c + q) as nat) == base * one,
        ;
        lemma_modp_idem(xi * base);
        lemma_cong_mul(xi * base, one, xi * base, 1);
        lemma_cong_add(
            block_sum(x, w, m, (c + q) as nat, r, u),
            xi * pow(w, u * m * (c + q) as nat),
            block_sum(x, w, m, c, r, u),
            xi * base,
        );
    }
}


/// Value at offset `r` of block `g` when the data is cut into blocks of `m`.
pub open spec fn cell(d: Seq<u32>, m: nat, g: nat, r: nat) -> u32 {
    d[(g * m + r) as int]
}

/// The data after `s` DIF stages on `n` values: block `g` of size
/// `m = n / 2^s` holds, at offset `r`, `w^(r*c) * block_sum(.., c, r, 2^s)`
/// decoded, with `c = rev_s(g)` the residue class the block transforms.
pub open spec fn stage_state(d: Seq<u32>, x: Seq<int>, w: int, n: nat, s: nat) -> bool {
    let m = n / pow2(s);
    forall|g: nat, r: nat|
        g < pow2(s) && r < m ==> #[trigger] from_mont_spec(cell(d, m, g, r) as nat) as int == modp(
            pow(w, r * bit_rev(g, s)) * block_sum(x, w, m, bit_rev(g, s), r, pow2(s)),
        )
}

/// The stage twiddles are powers of `w`: the Montgomery value at position
/// `i` of stage `s` decodes to `w^(i * 2^s) mod p`.
pub open spec fn twiddles_are_powers(tw: Seq<Vec<u32>>, w: int, n: nat) -> bool {
    forall|s: int, i: int|
        0 <= s < tw.len() && 0 <= i < stage_half(n, s as nat) ==> #[trigger] from_mont_spec(
            tw[s]@[i] as nat,
        ) as int == modp(pow(w, (i * pow2(s as nat)) as nat))
}

/// The sizes of stage `s` of `L` on `n = 2^L` values.
proof fn lemma_geometry(n: nat, big_l: nat, s: nat)
    requires
        n == pow2(big_l),
        s < big_l,
    ensures
        pow2(s + 1) == 2 * pow2(s),
        stage_half(n, s) >= 1,
        n / pow2(s) == 2 * stage_half(n, s),
        n / pow2(s + 1) == stage_half(n, s),
        pow2(s) * (2 * stage_half(n, s)) == n,
        stage_half(n, s) * pow2(s) * 2 == n,
        n / 2 == stage_half(n, s) * pow2(s),
{
    let t = pow2(s);
    let h = pow2((big_l - s - 1) as nat);
    lemma_pow2_unfold(s + 1);
    lemma_pow2_pos(s);
    lemma_pow2_pos((big_l - s - 1) as nat);
    lemma_pow2_adds((big_l - s - 1) as nat, s + 1);
    assert((big_l - s - 1) as nat + (s + 1) == big_l);
    assert(n == h * pow2(s + 1));
    lemma_div_multiples_vanish(h as int, pow2(s + 1) as int);
    assert(pow2(s + 1) * h == h * pow2(s + 1)) by (nonlinear_arith);
    assert(stage_half(n, s) == h);
    assert(n == (2 * h) * t) by (nonlinear_arith)
        requires
            n == h * pow2(s + 1),
            pow2(s + 1) == 2 * t,
    ;
    assert(t * (2 * h) == (2 * h) * t) by (nonlinear_arith);
    lemma_div_multiples_vanish((2 * h) as int, t as int);
    assert(h * t * 2 == n) by (nonlinear_arith)
        requires
            n == (2 * h) * t,
    ;
    lemma_fundamental_div_mod_converse(n as int, 2, (h * t) as int, 0);
}

/// A position of stage `s + 1`: block `G` of size `h` at offset `r` is
/// block `G / 2` of size `2h` at offset `(G % 2) * h + r`.
proof fn lemma_position(big_g: nat, h: nat, r: nat, t: nat)
    requires
        h >= 1,
        r < h,
        big_g < 2 * t,
    ensures
        big_g * h + r == (big_g / 2) * (2 * h) + (big_g % 2) * h + r,
        ((big_g * h + r) as int) % ((2 * h) as int) == (big_g % 2) * h + r,
        big_g * h + r < t * (2 * h),
        big_g / 2 < t,
{
    let g = big_g / 2;
    let e = big_g % 2;
    lemma_fundamental_div_mod(big_g as int, 2);
    assert(big_g * h + r == g * (2 * h) + e * h + r) by (nonlinear_arith)
        requires
            big_g == 2 * g + e,
    ;
    assert(e * h + r < 2 * h) by (nonlinear_arith)
        requires
            e < 2,
            r < h,
    ;
    lemma_fundamental_div_mod_converse((big_g * h + r) as int, (2 * h) as int, g as int, (e * h + r) as int);
    assert(big_g * h + r < t * (2 * h)) by (nonlinear_arith)
        requires
            big_g < 2 * t,
            r < h,
    ;
}

/// Before any stage, every value is its own block sum.
proof fn lemma_stage_state_initial(data: Seq<u32>, w: int)
    ensures
        stage_state(data, decode(data), w, data.len(), 0),
{
    let n = data.len();
    let x = decode(data);
    lemma_pow2_pos(0);
    assert(pow2(0) == 1) by {
        lemma2_to64();
    }
    assert forall|g: nat, r: nat| g < pow2(0) && r < n / pow2(0) implies #[trigger] from_mont_spec(
        cell(data, n / pow2(0), g, r) as nat,
    ) as int == modp(
        pow(w, r * bit_rev(g, 0)) * block_sum(x, w, n / pow2(0), bit_rev(g, 0), r, pow2(0)),
    ) by {
        assert(g == 0);
        assert(n / pow2(0) == n);
        assert(bit_rev(0, 0) == 0);
        assert(r * 0 == 0);
        lemma_pow0(w);
        assert(0 * n == 0);
        assert(0 * n * 0 == 0);
        assert(block_sum(x, w, n, 0, r, 1) == block_sum(x, w, n, 0, r, 0) + x[(r + 0 * n) as int]
            * pow(w, 0 * n * 0));
        assert(block_sum(x, w, n, 0, r, 1) == x[r as int] * 1);
        let v = from_mont_spec(data[r as int] as nat);
        assert(x[r as int] == v as int);
        assert(v < p_nat());
        lemma_small_mod(v, p_nat());
        assert(cell(data, n, 0, r) == data[r as int]);
    }
}

/// A block sum with stride 1 from offset 0 is the DFT sum.
proof fn lemma_block_is_dft(x: Seq<int>, w: int, c: nat, t: nat)
    ensures
        block_sum(x, w, 1, c, 0, t) == dft_sum(x, w, c, t),
    decreases t,
{
    if t > 0 {
        let u = (t - 1) as nat;
        lemma_block_is_dft(x, w, c, u);
        assert(u * 1 * c == u * c) by (nonlinear_arith);
        assert(0 + u * 1 == u);
    }
}


/// `w^(n/2) = -1` gives `w^n = 1`.
proof fn lemma_root_full_order(w: int, n: nat)
    requires
        n % 2 == 0,
        modp(pow(w, n / 2)) == p_nat() - 1,
    ensures
        modp(pow(w, n)) == 1,
{
    let half = n / 2;
    let pw = pow(w, half);
    let p = p_nat() as int;
    assert(half + half == n);
    lemma_pow_adds(w, half, half);
    lemma_modp_idem(p - 1);
    lemma_small_mod((p - 1) as nat, p_nat());
    lemma_cong_mul(pw, pw, p - 1, p - 1);
    assert((p - 1) * (p - 1) == (p - 2) * p + 1) by (nonlinear_arith);
    lemma_fundamental_div_mod_converse((p - 1) * (p - 1), p, p - 2, 1);
}

/// `-1 mod p` is `p - 1`.
pub proof fn lemma_minus_one()
    ensures
        modp(-1) == p_nat() - 1,
{
    let p = p_nat() as int;
    lemma_fundamental_div_mod_converse(-1, p, -1, p - 1);
}

/// Offset `r` of the upper child block `2g` after stage `s`.
proof fn lemma_cell_upper(
    d: Seq<u32>,
    tw: Seq<u32>,
    x: Seq<int>,
    w: int,
    big_l: nat,
    s: nat,
    g: nat,
    r: nat,
)
    requires
        d.len() == pow2(big_l),
        s < big_l,
        stage_state(d, x, w, d.len(), s),
        g < pow2(s),
        r < stage_half(d.len(), s),
    ensures
        from_mont_spec(cell(dif_stage_spec(d, tw, s), stage_half(d.len(), s), 2 * g, r) as nat) as int
            == modp(
            pow(w, r * bit_rev(2 * g, s + 1)) * block_sum(
                x,
                w,
                stage_half(d.len(), s),
                bit_rev(2 * g, s + 1),
                r,
                pow2(s + 1),
            ),
        ),
{
    let n = d.len();
    let t = pow2(s);
    let h = stage_half(n, s);
    lemma_geometry(n, big_l, s);
    let d2 = dif_stage_spec(d, tw, s);
    lemma_position(2 * g, h, r, t);
    assert((2 * g) / 2 == g && (2 * g) % 2 == 0) by {
        lemma_fundamental_div_mod_converse((2 * g) as int, 2, g as int, 0);
    }
    let k = (2 * g) * h + r;
    assert(k == g * (2 * h) + r) by (nonlinear_arith)
        requires
            k == (2 * g) * h + r,
    ;
    assert(k % (2 * h) == r);
    let c = bit_rev(g, s);
    assert(bit_rev(2 * g, s + 1) == c);
    // The new value is the sum of the pair.
    let a = d[k as int];
    let b = d[(k + h) as int];
    assert(d2[k as int] == butterfly_spec(a as nat, b as nat, tw[r as int] as nat).0 as u32);
    lemma_decode_butterfly(a as nat, b as nat, tw[r as int] as nat);
    lemma_modp_idem(a as int + b as int);
    assert(cell(d2, h, 2 * g, r) == d2[k as int]);
    // The pair as cells of the blocks of stage s.
    assert(n / t == 2 * h);
    assert(cell(d, 2 * h, g, r) == a);
    assert(cell(d, 2 * h, g, r + h) == b) by {
        assert(g * (2 * h) + (r + h) == k + h);
    }
    let b0 = block_sum(x, w, 2 * h, c, r, t);
    let b1 = block_sum(x, w, 2 * h, c, r + h, t);
    let pr = pow(w, r * c);
    let ph = pow(w, h * c);
    assert(from_mont_spec(a as nat) as int == modp(pr * b0));
    assert(from_mont_spec(b as nat) as int == modp(pow(w, (r + h) * c) * b1));
    assert((r + h) * c == r * c + h * c) by (nonlinear_arith);
    lemma_pow_adds(w, r * c, h * c);
    lemma_modp_idem(pr * b0);
    lemma_modp_idem(pr * ph * b1);
    lemma_cong_add(modp(pr * b0), modp(pr * ph * b1), pr * b0, pr * ph * b1);
    // The target: the block sum of stride h splits into the two halves.
    lemma_block_split(x, w, h, c, r, t);
    assert(pr * (b0 + ph * b1) == pr * b0 + pr * ph * b1) by (nonlinear_arith);
}

/// Offset `r` of the lower child block `2g + 1` after stage `s`.
proof fn lemma_cell_lower(
    d: Seq<u32>,
    tw: Seq<u32>,
    x: Seq<int>,
    w: int,
    big_l: nat,
    s: nat,
    g: nat,
    r: nat,
)
    requires
        d.len() == pow2(big_l),
        s < big_l,
        stage_state(d, x, w, d.len(), s),
        g < pow2(s),
        r < stage_half(d.len(), s),
        from_mont_spec(tw[r as int] as nat) as int == modp(pow(w, (r * pow2(s)) as nat)),
        modp(pow(w, d.len() / 2)) == p_nat() - 1,
    ensures
        from_mont_spec(cell(dif_stage_spec(d, tw, s), stage_half(d.len(), s), 2 * g + 1, r) as nat)
            as int == modp(
            pow(w, r * bit_rev(2 * g + 1, s + 1)) * block_sum(
                x,
                w,
                stage_half(d.len(), s),
                bit_rev(2 * g + 1, s + 1),
                r,
                pow2(s + 1),
            ),
        ),
{
    let n = d.len();
    let t = pow2(s);
    let h = stage_half(n, s);
    lemma_geometry(n, big_l, s);
    let d2 = dif_stage_spec(d, tw, s);
    lemma_position(2 * g + 1, h, r, t);
    assert((2 * g + 1) / 2 == g && (2 * g + 1) % 2 == 1) by {
        lemma_fundamental_div_mod_converse((2 * g + 1) as int, 2, g as int, 1);
    }
    let k = (2 * g + 1) * h + r;
    assert(k == g * (2 * h) + h + r) by (nonlinear_arith)
        requires
            k == (2 * g + 1) * h + r,
    ;
    assert(k % (2 * h) == h + r);
    let c = bit_rev(g, s);
    let c2 = bit_rev(2 * g + 1, s + 1);
    assert(c2 == t + c);
    // The new value is the twiddled difference of the pair.
    let a = d[(k - h) as int];
    let b = d[k as int];
    let tr = tw[r as int];
    assert(d2[k as int] == butterfly_spec(a as nat, b as nat, tr as nat).1 as u32);
    lemma_decode_butterfly(a as nat, b as nat, tr as nat);
    assert(cell(d2, h, 2 * g + 1, r) == d2[k as int]);
    assert(n / t == 2 * h);
    assert(cell(d, 2 * h, g, r) == a);
    assert(cell(d, 2 * h, g, r + h) == b) by {
        assert(g * (2 * h) + (r + h) == k);
    }
    let b0 = block_sum(x, w, 2 * h, c, r, t);
    let b1 = block_sum(x, w, 2 * h, c, r + h, t);
    let pr = pow(w, r * c);
    let ph = pow(w, h * c);
    let z = pow(w, r * t);
    let neg = pow(w, h * t);
    assert(from_mont_spec(a as nat) as int == modp(pr * b0));
    assert(from_mont_spec(b as nat) as int == modp(pow(w, (r + h) * c) * b1));
    assert(from_mont_spec(tr as nat) as int == modp(z));
    assert((r + h) * c == r * c + h * c) by (nonlinear_arith);
    lemma_pow_adds(w, r * c, h * c);
    // Value: ((pr*b0) - (pr*ph*b1)) * z, modulo p.
    lemma_modp_idem(pr * b0);
    lemma_modp_idem(pr * ph * b1);
    lemma_modp_idem(z);
    lemma_cong_sub(modp(pr * b0), modp(pr * ph * b1), pr * b0, pr * ph * b1);
    lemma_modp_idem(modp(pr * b0) - modp(pr * ph * b1));
    lemma_cong_mul(modp(pr * b0) - modp(pr * ph * b1), modp(z), pr * b0 - pr * ph * b1, z);
    // Target: split, then move the class c + t back to c.
    lemma_root_full_order(w, n);
    assert(n % 2 == 0) by {
        lemma_fundamental_div_mod_converse(n as int, 2, (h * t) as int, 0);
    }
    assert((2 * h) * t == n) by (nonlinear_arith)
        requires
            h * t * 2 == n,
    ;
    assert(h * t == n / 2);
    lemma_block_split(x, w, h, c2, r, t);
    assert(c2 == (c + t) as nat);
    lemma_block_class_shift(x, w, 2 * h, c, t, r, t);
    lemma_block_class_shift(x, w, 2 * h, c, t, r + h, t);
    let b0s = block_sum(x, w, 2 * h, c2, r, t);
    let b1s = block_sum(x, w, 2 * h, c2, r + h, t);
    assert(r * c2 == r * c + r * t) by (nonlinear_arith)
        requires
            c2 == t + c,
    ;
    assert(h * c2 == h * c + h * t) by (nonlinear_arith)
        requires
            c2 == t + c,
    ;
    lemma_pow_adds(w, r * c, r * t);
    lemma_pow_adds(w, h * c, h * t);
    lemma_minus_one();
    // ph * neg * b1s == ph * (-1) * b1 (mod p)
    lemma_cong_mul(ph, neg, ph, -1);
    lemma_cong_mul(ph * neg, b1s, ph * (-1), b1);
    lemma_cong_add(b0s, ph * neg * b1s, b0, ph * (-1) * b1);
    lemma_cong_mul(pr * z, b0s + ph * neg * b1s, pr * z, b0 + ph * (-1) * b1);
    assert(pow(w, r * c2) * (b0s + pow(w, h * c2) * b1s) == pr * z * (b0s + ph * neg * b1s))
        by (nonlinear_arith)
        requires
            pow(w, r * c2) == pr * z,
            pow(w, h * c2) == ph * neg,
    ;
    assert(pr * z * (b0 + ph * (-1) * b1) == (pr * b0 - pr * ph * b1) * z) by (nonlinear_arith);
}


/// One DIF stage moves the state from `s` stages to `s + 1`.
proof fn lemma_stage_step(d: Seq<u32>, tw: Seq<u32>, x: Seq<int>, w: int, big_l: nat, s: nat)
    requires
        d.len() == pow2(big_l),
        s < big_l,
        stage_state(d, x, w, d.len(), s),
        forall|i: int|
            0 <= i < stage_half(d.len(), s) ==> #[trigger] from_mont_spec(tw[i] as nat) as int
                == modp(pow(w, (i * pow2(s)) as nat)),
        modp(pow(w, d.len() / 2)) == p_nat() - 1,
    ensures
        stage_state(dif_stage_spec(d, tw, s), x, w, d.len(), s + 1),
{
    let n = d.len();
    let h = stage_half(n, s);
    lemma_geometry(n, big_l, s);
    let d2 = dif_stage_spec(d, tw, s);
    assert forall|big_g: nat, r: nat| big_g < pow2(s + 1) && r < n / pow2(s + 1) implies
        #[trigger] from_mont_spec(cell(d2, n / pow2(s + 1), big_g, r) as nat) as int == modp(
        pow(w, r * bit_rev(big_g, s + 1)) * block_sum(
            x,
            w,
            n / pow2(s + 1),
            bit_rev(big_g, s + 1),
            r,
            pow2(s + 1),
        ),
    ) by {
        let g = big_g / 2;
        lemma_fundamental_div_mod(big_g as int, 2);
        lemma_position(big_g, h, r, pow2(s));
        if big_g % 2 == 0 {
            assert(big_g == 2 * g);
            lemma_cell_upper(d, tw, x, w, big_l, s, g, r);
        } else {
            assert(big_g == 2 * g + 1);
            assert(from_mont_spec(tw[r as int] as nat) as int == modp(pow(w, (r * pow2(s)) as nat)));
            lemma_cell_lower(d, tw, x, w, big_l, s, g, r);
        }
    }
}

/// The state after the first `s` stages of the NTT.
proof fn lemma_stages_state(data: Seq<u32>, tw: Seq<Vec<u32>>, w: int, s: nat)
    requires
        data.len() == pow2(tw.len() as nat),
        s <= tw.len(),
        twiddles_are_powers(tw, w, data.len()),
        tw.len() >= 1 ==> modp(pow(w, data.len() / 2)) == p_nat() - 1,
    ensures
        ntt_stages_spec(data, tw, s).len() == data.len(),
        stage_state(ntt_stages_spec(data, tw, s), decode(data), w, data.len(), s),
    decreases s,
{
    if s == 0 {
        lemma_stage_state_initial(data, w);
    } else {
        let u = (s - 1) as nat;
        lemma_stages_state(data, tw, w, u);
        let d = ntt_stages_spec(data, tw, u);
        let stw = tw[u as int]@;
        assert forall|i: int| 0 <= i < stage_half(d.len(), u) implies #[trigger] from_mont_spec(
            stw[i] as nat,
        ) as int == modp(pow(w, (i * pow2(u)) as nat)) by {
            assert(from_mont_spec(tw[u as int]@[i] as nat) as int == modp(
                pow(w, (i * pow2(u)) as nat),
            ));
        }
        lemma_stage_step(d, stw, decode(data), w, tw.len() as nat, u);
    }
}

/// `2^L` has `L` trailing zero bits.
proof fn lemma_trailing_zeros_pow2(big_l: nat)
    ensures
        trailing_zeros_spec(pow2(big_l)) == big_l,
    decreases big_l,
{
    if big_l == 0 {
        lemma2_to64();
    } else {
        let u = (big_l - 1) as nat;
        lemma_pow2_unfold(big_l);
        lemma_pow2_pos(u);
        lemma_trailing_zeros_pow2(u);
        lemma_fundamental_div_mod_converse(pow2(big_l) as int, 2, pow2(u) as int, 0);
    }
}

/// **The NTT is the discrete Fourier transform.** For `n = 2^L` values and
/// `L` stage twiddle tables whose entry `i` of stage `s` is (in the
/// Montgomery domain) `w^(i * 2^s)`, with `w` a root of order `n`
/// (`w^(n/2) = -1 mod p`), the `L` DIF stages followed by the bit-reversal
/// permutation give, decoded, output `k` equal to
/// `sum_j x[j] * w^(j*k) mod p`, where `x` is the decoded input.
pub proof fn law_ntt_is_dft(data: Seq<u32>, tw: Seq<Vec<u32>>, w: int)
    requires
        data.len() == pow2(tw.len() as nat),
        twiddles_are_powers(tw, w, data.len()),
        tw.len() >= 1 ==> modp(pow(w, data.len() / 2)) == p_nat() - 1,
    ensures
        forall|k: int|
            0 <= k < data.len() ==> #[trigger] from_mont_spec(
                bit_reverse_spec(
                    ntt_stages_spec(data, tw, tw.len() as nat),
                    trailing_zeros_spec(data.len()),
                )[k] as nat,
            ) as int == dft_spec(decode(data), w, k as nat),
{
    let n = data.len();
    let big_l = tw.len() as nat;
    let x = decode(data);
    lemma_stages_state(data, tw, w, big_l);
    lemma_trailing_zeros_pow2(big_l);
    let d = ntt_stages_spec(data, tw, big_l);
    lemma_pow2_pos(big_l);
    lemma_div_basics(n as int);
    assert(n / pow2(big_l) == 1);
    assert forall|k: int| 0 <= k < n implies #[trigger] from_mont_spec(
        bit_reverse_spec(d, trailing_zeros_spec(n))[k] as nat,
    ) as int == dft_spec(x, w, k as nat) by {
        let j = bit_rev(k as nat, big_l);
        lemma_bit_rev_bound(k as nat, big_l);
        lemma_bit_rev_involution(k as nat, big_l);
        assert(bit_reverse_spec(d, big_l)[k] == d[j as int]);
        assert(cell(d, 1, j, 0) == d[j as int]);
        assert(from_mont_spec(cell(d, 1, j, 0) as nat) as int == modp(
            pow(w, 0 * bit_rev(j, big_l)) * block_sum(x, w, 1, bit_rev(j, big_l), 0, pow2(big_l)),
        ));
        assert(0 * bit_rev(j, big_l) == 0);
        lemma_pow0(w);
        lemma_block_is_dft(x, w, k as nat, n);
        assert(x.len() == n);
    }
}


/// Sums and differences of residues decode to sums and differences.
proof fn lemma_decode_add_sub(a: nat, b: nat)
    ensures
        from_mont_spec(add_mod_spec(a, b)) as int == modp(
            from_mont_spec(a) as int + from_mont_spec(b) as int,
        ),
        from_mont_spec(sub_mod_spec(a, b)) as int == modp(
            from_mont_spec(a) as int - from_mont_spec(b) as int,
        ),
{
    let ri = BABYBEAR_R_INV_MOD_P as int;
    let ai = a as int;
    let bi = b as int;
    lemma_modp_idem(ai * ri);
    lemma_modp_idem(bi * ri);
    lemma_modp_idem(ai + bi);
    lemma_modp_idem(ai - bi);
    lemma_cong_mul(modp(ai + bi), ri, ai + bi, ri);
    lemma_cong_mul(modp(ai - bi), ri, ai - bi, ri);
    assert((ai + bi) * ri == ai * ri + bi * ri) by (nonlinear_arith);
    assert((ai - bi) * ri == ai * ri - bi * ri) by (nonlinear_arith);
    lemma_cong_add(ai * ri, bi * ri, modp(ai * ri), modp(bi * ri));
    lemma_cong_sub(ai * ri, bi * ri, modp(ai * ri), modp(bi * ri));
    assert(add_mod_spec(a, b) as int == modp(ai + bi));
    assert(sub_mod_spec(a, b) as int == modp(ai - bi));
}

/// Encoding a decoded residue gives it back.
proof fn lemma_encode_decode(x: nat)
    requires
        x < p_nat(),
    ensures
        to_mont_spec(from_mont_spec(x)) == x,
{
    lemma_constants_consistent();
    let r = mont_radix() as int;
    let ri = BABYBEAR_R_INV_MOD_P as int;
    let xi = x as int;
    lemma_modp_idem(xi * ri);
    lemma_cong_mul(modp(xi * ri), r, xi * ri, r);
    assert(xi * ri * r == xi * (r * ri)) by (nonlinear_arith);
    lemma_modp_idem(r * ri);
    lemma_cong_mul(xi, r * ri, xi, 1);
    lemma_small_mod(x, p_nat());
}

/// The Montgomery encoding of `1/2 mod p`, which is `(p + 1) / 2`.
pub open spec fn half_mont_spec() -> nat {
    to_mont_spec(((p_nat() + 1) / 2) as nat)
}

/// **The butterfly is invertible.** For residues `a`, `b` and a twiddle `w`
/// with a known inverse `winv` (`w * winv = 1` in the field), the outputs
/// `(s, d)` of the DIF butterfly give the inputs back:
/// `a = (s + d * winv) / 2` and `b = (s - d * winv) / 2`.
pub proof fn law_butterfly_inverse(a: nat, b: nat, w: nat, winv: nat)
    requires
        a < p_nat(),
        b < p_nat(),
        mont_mul_spec(w, winv) == to_mont_spec(1),
    ensures
        ({
            let (s, d) = butterfly_spec(a, b, w);
            let e = mont_mul_spec(d, winv);
            mont_mul_spec(add_mod_spec(s, e), half_mont_spec()) == a && mont_mul_spec(
                sub_mod_spec(s, e),
                half_mont_spec(),
            ) == b
        }),
{
    let p = p_nat() as int;
    let (s, d) = butterfly_spec(a, b, w);
    let e = mont_mul_spec(d, winv);
    let da = from_mont_spec(a) as int;
    let db = from_mont_spec(b) as int;
    let dw = from_mont_spec(w) as int;
    let dwi = from_mont_spec(winv) as int;
    let h = ((p_nat() + 1) / 2) as nat;
    // w * winv decodes to 1.
    lemma_decode_mont_mul(w, winv);
    lemma_decode_encode_one();
    assert(modp(dw * dwi) == 1);
    // s = a + b, e = (a - b) * w * winv = a - b.
    lemma_decode_butterfly(a, b, w);
    lemma_decode_mont_mul(d, winv);
    lemma_modp_idem((da - db) * dw);
    lemma_cong_mul(modp((da - db) * dw), dwi, (da - db) * dw, dwi);
    assert((da - db) * dw * dwi == (da - db) * (dw * dwi)) by (nonlinear_arith);
    lemma_modp_idem(dw * dwi);
    lemma_cong_mul(da - db, dw * dwi, da - db, 1);
    assert(from_mont_spec(e) as int == modp(da - db));
    // The half decodes to h, and 2 * h = 1 (mod p).
    lemma_decode_encode(h);
    lemma_small_mod(h, p_nat());
    assert(from_mont_spec(half_mont_spec()) as int == h as int);
    assert(2 * (h as int) == p + 1);
    // Sum: (s + e) / 2 decodes to a.
    lemma_decode_add_sub(s, e);
    lemma_decode_mont_mul(add_mod_spec(s, e), half_mont_spec());
    lemma_decode_mont_mul(sub_mod_spec(s, e), half_mont_spec());
    lemma_modp_idem(da + db);
    lemma_modp_idem(da - db);
    lemma_cong_add(modp(da + db), modp(da - db), da + db, da - db);
    lemma_cong_sub(modp(da + db), modp(da - db), da + db, da - db);
    lemma_modp_idem(modp(da + db) + modp(da - db));
    lemma_modp_idem(modp(da + db) - modp(da - db));
    lemma_cong_mul(modp(modp(da + db) + modp(da - db)), h as int, 2 * da, h as int);
    lemma_cong_mul(modp(modp(da + db) - modp(da - db)), h as int, 2 * db, h as int);
    assert(2 * da * (h as int) == da * p + da) by (nonlinear_arith)
        requires
            2 * (h as int) == p + 1,
    ;
    assert(2 * db * (h as int) == db * p + db) by (nonlinear_arith)
        requires
            2 * (h as int) == p + 1,
    ;
    lemma_mod_multiples_vanish(da, da, p);
    lemma_mod_multiples_vanish(db, db, p);
    assert(da * p + da == p * da + da) by (nonlinear_arith);
    assert(db * p + db == p * db + db) by (nonlinear_arith);
    lemma_decode_residue(a);
    lemma_decode_residue(b);
    // Decoding is one-to-one on residues.
    let ra = mont_mul_spec(add_mod_spec(s, e), half_mont_spec());
    let rb = mont_mul_spec(sub_mod_spec(s, e), half_mont_spec());
    lemma_mont_mul_residue(add_mod_spec(s, e), half_mont_spec());
    lemma_mont_mul_residue(sub_mod_spec(s, e), half_mont_spec());
    lemma_encode_decode(ra);
    lemma_encode_decode(rb);
    lemma_encode_decode(a);
    lemma_encode_decode(b);
}

/// `1` encodes and decodes to `1`.
proof fn lemma_decode_encode_one()
    ensures
        from_mont_spec(to_mont_spec(1)) == 1,
{
    lemma_decode_encode(1);
    lemma_small_mod(1, p_nat());
}

/// A decoded value is a residue.
proof fn lemma_decode_residue(x: nat)
    ensures
        from_mont_spec(x) < p_nat(),
        modp(from_mont_spec(x) as int) == from_mont_spec(x) as int,
{
    lemma_modp_idem((x * BABYBEAR_R_INV_MOD_P as nat) as int);
}

/// A Montgomery product is a residue.
proof fn lemma_mont_mul_residue(a: nat, b: nat)
    ensures
        mont_mul_spec(a, b) < p_nat(),
{
    lemma_modp_idem((a * b * BABYBEAR_R_INV_MOD_P as nat) as int);
}

/// A Montgomery encoding decodes to the value modulo `p`.
pub proof fn lemma_decode_encode(x: nat)
    ensures
        from_mont_spec(to_mont_spec(x)) as int == modp(x as int),
{
    lemma_constants_consistent();
    let r = mont_radix() as int;
    let ri = BABYBEAR_R_INV_MOD_P as int;
    let xi = x as int;
    lemma_modp_idem(xi * r);
    lemma_cong_mul(modp(xi * r), ri, xi * r, ri);
    assert(xi * r * ri == xi * (r * ri)) by (nonlinear_arith);
    lemma_modp_idem(r * ri);
    lemma_cong_mul(xi, r * ri, xi, 1);
}

} // verus!
