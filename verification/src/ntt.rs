//! DIF radix-2 NTT for BabyBear Montgomery arithmetic.
//!
//! Stage `s`: `h = n / 2^(s+1)`, `groups = 2^s`. Within each group, element
//! `i` is paired with element `i + h` using `twiddles[i]`. After all `log_n`
//! stages the output is in bit-reversed order; [`bit_reverse`] restores the
//! natural order.
use crate::avx512_butterfly_32bit::{
    all_residues, avx512_butterfly_pass_32, butterfly, butterfly_pass_spec,
};
use crate::field::babybear::canonical::MontgomeryBabyBear;
use crate::field::babybear::constants::BABYBEAR_P;
use crate::field::babybear::reference::{butterfly_reference, butterfly_spec};
use vstd::arithmetic::div_mod::*;
use vstd::arithmetic::mul::*;
use vstd::arithmetic::power2::*;
use vstd::bits::*;
use vstd::prelude::*;

verus! {

/// Half-size of stage `s` on `n` values: `n / 2^(s+1)`.
pub open spec fn stage_half(n: nat, s: nat) -> nat {
    n / pow2(s + 1)
}

/// One DIF stage: within each of the `2^s` groups of `2h` values, position
/// `i < h` becomes `a + b` and position `i + h` becomes `(a - b) * w_i`.
/// Values past the last full group are unchanged.
pub open spec fn dif_stage_spec(data: Seq<u32>, twiddles: Seq<u32>, s: nat) -> Seq<u32> {
    let h = stage_half(data.len(), s);
    Seq::new(
        data.len(),
        |k: int|
            if k < pow2(s) * (2 * h) {
                let r = k % (2 * h) as int;
                if r < h {
                    butterfly_spec(data[k] as nat, data[k + h] as nat, twiddles[r] as nat).0 as u32
                } else {
                    butterfly_spec(
                        data[k - h] as nat,
                        data[k] as nat,
                        twiddles[r - h] as nat,
                    ).1 as u32
                }
            } else {
                data[k]
            },
    )
}

/// The first `k` stages of the DIF NTT applied in order.
pub open spec fn ntt_stages_spec(data: Seq<u32>, twiddles: Seq<Vec<u32>>, k: nat) -> Seq<u32>
    decreases k,
{
    if k == 0 {
        data
    } else {
        dif_stage_spec(
            ntt_stages_spec(data, twiddles, (k - 1) as nat),
            twiddles[k - 1]@,
            (k - 1) as nat,
        )
    }
}

/// The stage twiddle tables fit the data: stage `s` has at least
/// `n / 2^(s+1)` residues.
pub open spec fn twiddles_fit(n: nat, twiddles: Seq<Vec<u32>>) -> bool {
    forall|s: int|
        0 <= s < twiddles.len() ==> #[trigger] twiddles[s]@.len() >= stage_half(n, s as nat)
            && all_residues(twiddles[s]@)
}

/// The groups of a stage cover at most `n` values.
proof fn lemma_stage_span(n: nat, s: nat)
    ensures
        pow2(s) * (2 * stage_half(n, s)) <= n,
        pow2(s + 1) == 2 * pow2(s),
{
    lemma_pow2_unfold(s + 1);
    lemma_pow2_pos(s);
    let d = pow2(s + 1);
    lemma_fundamental_div_mod(n as int, d as int);
    assert(pow2(s) * (2 * stage_half(n, s)) == d * (n / d)) by (nonlinear_arith)
        requires
            d == 2 * pow2(s),
            stage_half(n, s) == n / d,
    ;
}

/// Position `g * 2h + j` of a stage lies in group `g` at offset `j`.
proof fn lemma_block_position(g: nat, h: nat, j: nat)
    requires
        h > 0,
        j < 2 * h,
    ensures
        ((g * (2 * h) + j) as int) % ((2 * h) as int) == j,
{
    lemma_fundamental_div_mod_converse((g * (2 * h) + j) as int, (2 * h) as int, g as int, j as int);
}

/// The machine values of the stage geometry: `h` and the group count.
proof fn lemma_stage_geometry(n: usize, s: usize)
    requires
        s + 1 < usize::BITS,
    ensures
        n >> ((s + 1) as usize) == stage_half(n as nat, s as nat),
        (1usize << s) == pow2(s as nat),
{
    lemma_usize_shr_is_div(n, (s + 1) as usize);
    lemma_usize_pow2_no_overflow(s as nat);
    lemma_usize_shl_is_mul(1, s);
}

/// After all groups are processed the data is the stage result, and the
/// stage result consists of residues.
proof fn lemma_stage_complete(
    data: Seq<u32>,
    d0: Seq<u32>,
    twiddles: Seq<u32>,
    s: nat,
    groups: nat,
    h: nat,
)
    requires
        data.len() == d0.len(),
        h == stage_half(d0.len(), s),
        groups == pow2(s),
        groups * (2 * h) <= d0.len(),
        all_residues(d0),
        all_residues(twiddles),
        twiddles.len() >= h,
        forall|k: int|
            0 <= k < d0.len() ==> #[trigger] data[k] == if k < groups * (2 * h) {
                dif_stage_spec(d0, twiddles, s)[k]
            } else {
                d0[k]
            },
    ensures
        data == dif_stage_spec(d0, twiddles, s),
        all_residues(data),
{
    let n = d0.len();
    let spec = dif_stage_spec(d0, twiddles, s);
    assert forall|k: int| 0 <= k < n implies #[trigger] data[k] == spec[k] by {
        if k >= groups * (2 * h) {
            assert(data[k] == d0[k]);
        }
    }
    assert(data =~= spec);
    assert forall|k: int| 0 <= k < n implies #[trigger] data[k] < BABYBEAR_P by {
        if k < groups * (2 * h) {
            assert(h > 0) by (nonlinear_arith)
                requires
                    k < groups * (2 * h),
                    0 <= k,
            ;
            let r = k % (2 * h) as int;
            lemma_mod_bound(k, (2 * h) as int);
            lemma_fundamental_div_mod(k, (2 * h) as int);
            let q = k / (2 * h) as int;
            assert(k == (2 * h) * q + r);
            assert(q < groups) by (nonlinear_arith)
                requires
                    k == (2 * h) * q + r,
                    0 <= r,
                    k < groups * (2 * h),
                    h > 0,
            ;
            assert(k + h < n || r >= h) by (nonlinear_arith)
                requires
                    k == (2 * h) * q + r,
                    0 <= r < 2 * h,
                    q < groups,
                    groups * (2 * h) <= n,
                    0 <= q,
            ;
            if r < h {
                assert(d0[k] < BABYBEAR_P);
                assert(d0[k + h] < BABYBEAR_P);
            } else {
                assert(d0[k - h] < BABYBEAR_P);
                assert(d0[k] < BABYBEAR_P);
                assert(twiddles[r - h] < BABYBEAR_P);
            }
        }
    }
}

/// One stage of the DIF NTT using the independent reference butterfly.
///
/// `data` and `twiddles` are Montgomery-encoded residues; the result is
/// [`dif_stage_spec`] of the input.
pub fn ntt_reference_stage(data: &mut [u32], twiddles: &[u32], s: usize)
    requires
        s + 1 < usize::BITS,
        all_residues(old(data)@),
        all_residues(twiddles@),
        twiddles@.len() >= stage_half(old(data)@.len(), s as nat),
    ensures
        final(data)@ == dif_stage_spec(old(data)@, twiddles@, s as nat),
        all_residues(final(data)@),
{
    let n = data.len();
    let h = n >> (s + 1);
    let groups = 1usize << s;
    let ghost d0 = data@;
    let ghost spec = dif_stage_spec(d0, twiddles@, s as nat);
    proof {
        lemma_stage_geometry(n, s);
        lemma_stage_span(n as nat, s as nat);
    }
    let mut g: usize = 0;
    while g < groups
        invariant
            data@.len() == n,
            d0.len() == n,
            h == stage_half(n as nat, s as nat),
            groups == pow2(s as nat),
            groups * (2 * h) <= n,
            g <= groups,
            all_residues(d0),
            all_residues(twiddles@),
            twiddles@.len() >= h,
            spec == dif_stage_spec(d0, twiddles@, s as nat),
            forall|k: int|
                0 <= k < n ==> #[trigger] data@[k] == if k < g * (2 * h) {
                    spec[k]
                } else {
                    d0[k]
                },
        decreases groups - g,
    {
        proof {
            lemma_pow2_pos(s as nat);
            lemma_mul_inequality(g as int, (groups - 1) as int, (2 * h) as int);
            assert((groups - 1) * (2 * h) + 2 * h == groups * (2 * h)) by (nonlinear_arith);
        }
        assert(2 * h <= n) by (nonlinear_arith)
            requires
                groups * (2 * h) <= n,
                groups >= 1,
        ;
        let offset = g * (2 * h);
        let mut i: usize = 0;
        while i < h
            invariant
                data@.len() == n,
                d0.len() == n,
                h == stage_half(n as nat, s as nat),
                groups == pow2(s as nat),
                g < groups,
                offset == g * (2 * h),
                offset + 2 * h <= groups * (2 * h),
                groups * (2 * h) <= n,
                i <= h,
                all_residues(d0),
                all_residues(twiddles@),
                twiddles@.len() >= h,
                spec == dif_stage_spec(d0, twiddles@, s as nat),
                forall|k: int|
                    0 <= k < n ==> #[trigger] data@[k] == if k < offset || (offset <= k < offset
                        + i) || (offset + h <= k < offset + h + i) {
                        spec[k]
                    } else {
                        d0[k]
                    },
            decreases h - i,
        {
            let a = data[offset + i];
            let b = data[offset + i + h];
            let w = twiddles[i];
            let (x, y) = butterfly_reference(a, b, w);
            proof {
                lemma_block_position(g as nat, h as nat, i as nat);
                lemma_block_position(g as nat, h as nat, (h + i) as nat);
                assert(offset + i < pow2(s as nat) * (2 * h));
                assert(offset + h + i < pow2(s as nat) * (2 * h));
                assert(spec[offset + i] == x);
                assert(spec[offset + h + i] == y);
            }
            data[offset + i] = x;
            data[offset + i + h] = y;
            i = i + 1;
        }
        assert((g + 1) * (2 * h) == offset + 2 * h) by (nonlinear_arith)
            requires
                offset == g * (2 * h),
        ;
        g = g + 1;
    }
    proof {
        lemma_stage_complete(data@, d0, twiddles@, s as nat, groups as nat, h as nat);
    }
}

/// One stage of the DIF NTT using the typed [`butterfly`] wrapper; same
/// result as [`ntt_reference_stage`].
///
/// `data` and `twiddles` are Montgomery-encoded residues; the result is
/// [`dif_stage_spec`] of the input.
pub fn ntt_scalar_stage(data: &mut [u32], twiddles: &[u32], s: usize)
    requires
        s + 1 < usize::BITS,
        all_residues(old(data)@),
        all_residues(twiddles@),
        twiddles@.len() >= stage_half(old(data)@.len(), s as nat),
    ensures
        final(data)@ == dif_stage_spec(old(data)@, twiddles@, s as nat),
        all_residues(final(data)@),
{
    let n = data.len();
    let h = n >> (s + 1);
    let groups = 1usize << s;
    let ghost d0 = data@;
    let ghost spec = dif_stage_spec(d0, twiddles@, s as nat);
    proof {
        lemma_stage_geometry(n, s);
        lemma_stage_span(n as nat, s as nat);
    }
    let mut g: usize = 0;
    while g < groups
        invariant
            data@.len() == n,
            d0.len() == n,
            h == stage_half(n as nat, s as nat),
            groups == pow2(s as nat),
            groups * (2 * h) <= n,
            g <= groups,
            all_residues(d0),
            all_residues(twiddles@),
            twiddles@.len() >= h,
            spec == dif_stage_spec(d0, twiddles@, s as nat),
            forall|k: int|
                0 <= k < n ==> #[trigger] data@[k] == if k < g * (2 * h) {
                    spec[k]
                } else {
                    d0[k]
                },
        decreases groups - g,
    {
        proof {
            lemma_pow2_pos(s as nat);
            lemma_mul_inequality(g as int, (groups - 1) as int, (2 * h) as int);
            assert((groups - 1) * (2 * h) + 2 * h == groups * (2 * h)) by (nonlinear_arith);
        }
        assert(2 * h <= n) by (nonlinear_arith)
            requires
                groups * (2 * h) <= n,
                groups >= 1,
        ;
        let offset = g * (2 * h);
        let mut i: usize = 0;
        while i < h
            invariant
                data@.len() == n,
                d0.len() == n,
                h == stage_half(n as nat, s as nat),
                groups == pow2(s as nat),
                g < groups,
                offset == g * (2 * h),
                offset + 2 * h <= groups * (2 * h),
                groups * (2 * h) <= n,
                i <= h,
                all_residues(d0),
                all_residues(twiddles@),
                twiddles@.len() >= h,
                spec == dif_stage_spec(d0, twiddles@, s as nat),
                forall|k: int|
                    0 <= k < n ==> #[trigger] data@[k] == if k < offset || (offset <= k < offset
                        + i) || (offset + h <= k < offset + h + i) {
                        spec[k]
                    } else {
                        d0[k]
                    },
            decreases h - i,
        {
            let a = data[offset + i];
            let b = data[offset + i + h];
            let w = twiddles[i];
            let (rx, ry) = butterfly(MontgomeryBabyBear(a), MontgomeryBabyBear(b), MontgomeryBabyBear(w));
            let x = rx.inner();
            let y = ry.inner();
            proof {
                lemma_block_position(g as nat, h as nat, i as nat);
                lemma_block_position(g as nat, h as nat, (h + i) as nat);
                assert(offset + i < pow2(s as nat) * (2 * h));
                assert(offset + h + i < pow2(s as nat) * (2 * h));
                assert(spec[offset + i] == x);
                assert(spec[offset + h + i] == y);
            }
            data[offset + i] = x;
            data[offset + i + h] = y;
            i = i + 1;
        }
        assert((g + 1) * (2 * h) == offset + 2 * h) by (nonlinear_arith)
            requires
                offset == g * (2 * h),
        ;
        g = g + 1;
    }
    proof {
        lemma_stage_complete(data@, d0, twiddles@, s as nat, groups as nat, h as nat);
    }
}

/// Full DIF NTT with the reference butterfly: stages `0 .. len` in order.
/// Output is Montgomery-encoded, in bit-reversed order.
pub fn ntt_reference(data: &mut [u32], twiddles_per_stage: &[Vec<u32>])
    requires
        twiddles_per_stage@.len() < usize::BITS,
        all_residues(old(data)@),
        twiddles_fit(old(data)@.len(), twiddles_per_stage@),
    ensures
        final(data)@ == ntt_stages_spec(old(data)@, twiddles_per_stage@, twiddles_per_stage@.len()),
        all_residues(final(data)@),
{
    let ghost d0 = data@;
    let stages = twiddles_per_stage.len();
    for s in 0..stages
        invariant
            stages == twiddles_per_stage@.len(),
            stages < usize::BITS,
            data@.len() == d0.len(),
            all_residues(data@),
            twiddles_fit(d0.len(), twiddles_per_stage@),
            data@ == ntt_stages_spec(d0, twiddles_per_stage@, s as nat),
    {
        assert(twiddles_per_stage@[s as int]@.len() >= stage_half(d0.len(), s as nat));
        ntt_reference_stage(data, &twiddles_per_stage[s], s);
    }
}

/// Full DIF NTT using the typed butterfly; same result as [`ntt_reference`].
pub fn ntt_scalar(data: &mut [u32], twiddles_per_stage: &[Vec<u32>])
    requires
        twiddles_per_stage@.len() < usize::BITS,
        all_residues(old(data)@),
        twiddles_fit(old(data)@.len(), twiddles_per_stage@),
    ensures
        final(data)@ == ntt_stages_spec(old(data)@, twiddles_per_stage@, twiddles_per_stage@.len()),
        all_residues(final(data)@),
{
    let ghost d0 = data@;
    let stages = twiddles_per_stage.len();
    for s in 0..stages
        invariant
            stages == twiddles_per_stage@.len(),
            stages < usize::BITS,
            data@.len() == d0.len(),
            all_residues(data@),
            twiddles_fit(d0.len(), twiddles_per_stage@),
            data@ == ntt_stages_spec(d0, twiddles_per_stage@, s as nat),
    {
        assert(twiddles_per_stage@[s as int]@.len() >= stage_half(d0.len(), s as nat));
        ntt_scalar_stage(data, &twiddles_per_stage[s], s);
    }
}

/// One stage of the DIF NTT as a sequence of 16-lane butterfly passes, one
/// per group; same result as [`ntt_reference_stage`].
pub fn ntt_avx512_stage(data: &mut [u32], twiddles: &[u32], s: usize)
    requires
        s + 1 < usize::BITS,
        all_residues(old(data)@),
        all_residues(twiddles@),
        twiddles@.len() >= stage_half(old(data)@.len(), s as nat),
    ensures
        final(data)@ == dif_stage_spec(old(data)@, twiddles@, s as nat),
        all_residues(final(data)@),
{
    let n = data.len();
    let h = n >> (s + 1);
    let groups = 1usize << s;
    let ghost d0 = data@;
    let ghost spec = dif_stage_spec(d0, twiddles@, s as nat);
    proof {
        lemma_stage_geometry(n, s);
        lemma_stage_span(n as nat, s as nat);
    }
    let mut g: usize = 0;
    while g < groups
        invariant
            data@.len() == n,
            d0.len() == n,
            h == stage_half(n as nat, s as nat),
            groups == pow2(s as nat),
            groups * (2 * h) <= n,
            g <= groups,
            all_residues(d0),
            all_residues(twiddles@),
            twiddles@.len() >= h,
            spec == dif_stage_spec(d0, twiddles@, s as nat),
            forall|k: int|
                0 <= k < n ==> #[trigger] data@[k] == if k < g * (2 * h) {
                    spec[k]
                } else {
                    d0[k]
                },
        decreases groups - g,
    {
        proof {
            lemma_pow2_pos(s as nat);
            lemma_mul_inequality(g as int, (groups - 1) as int, (2 * h) as int);
            assert((groups - 1) * (2 * h) + 2 * h == groups * (2 * h)) by (nonlinear_arith);
        }
        assert(2 * h <= n) by (nonlinear_arith)
            requires
                groups * (2 * h) <= n,
                groups >= 1,
        ;
        let offset = g * (2 * h);
        let ghost before = data@;
        assert((2 * h) / 2 == h);
        assert forall|k: int| offset <= k < offset + 2 * h implies #[trigger] before[k]
            < BABYBEAR_P by {
            assert(before[k] == d0[k]);
        }
        avx512_butterfly_pass_32(data, offset, twiddles, 2 * h);
        proof {
            assert forall|k: int|
                0 <= k < n implies #[trigger] data@[k] == if k < (g + 1) * (2 * h) {
                spec[k]
            } else {
                d0[k]
            } by {
                assert((g + 1) * (2 * h) == offset + 2 * h) by (nonlinear_arith)
                    requires
                        offset == g * (2 * h),
                ;
                if offset <= k < offset + h {
                    lemma_block_position(g as nat, h as nat, (k - offset) as nat);
                    assert(k < pow2(s as nat) * (2 * h));
                } else if offset + h <= k < offset + 2 * h {
                    lemma_block_position(g as nat, h as nat, (k - offset) as nat);
                    assert(k < pow2(s as nat) * (2 * h));
                }
            }
        }
        g = g + 1;
    }
    proof {
        lemma_stage_complete(data@, d0, twiddles@, s as nat, groups as nat, h as nat);
    }
}

/// Full DIF NTT through the 16-lane butterfly passes; same result as
/// [`ntt_reference`].
pub fn ntt_avx512(data: &mut [u32], twiddles_per_stage: &[Vec<u32>])
    requires
        twiddles_per_stage@.len() < usize::BITS,
        all_residues(old(data)@),
        twiddles_fit(old(data)@.len(), twiddles_per_stage@),
    ensures
        final(data)@ == ntt_stages_spec(old(data)@, twiddles_per_stage@, twiddles_per_stage@.len()),
        all_residues(final(data)@),
{
    let ghost d0 = data@;
    let stages = twiddles_per_stage.len();
    for s in 0..stages
        invariant
            stages == twiddles_per_stage@.len(),
            stages < usize::BITS,
            data@.len() == d0.len(),
            all_residues(data@),
            twiddles_fit(d0.len(), twiddles_per_stage@),
            data@ == ntt_stages_spec(d0, twiddles_per_stage@, s as nat),
    {
        assert(twiddles_per_stage@[s as int]@.len() >= stage_half(d0.len(), s as nat));
        ntt_avx512_stage(data, &twiddles_per_stage[s], s);
    }
}

/// Number of trailing zero bits of `n` (zero for odd `n` and for `0`).
pub open spec fn trailing_zeros_spec(n: nat) -> nat
    decreases n,
{
    if n == 0 || n % 2 == 1 {
        0
    } else {
        1 + trailing_zeros_spec(n / 2)
    }
}

/// The lowest `b` bits of `k`, reversed.
pub open spec fn bit_rev(k: nat, b: nat) -> nat
    decreases b,
{
    if b == 0 {
        0
    } else {
        (k % 2) * pow2((b - 1) as nat) + bit_rev(k / 2, (b - 1) as nat)
    }
}

/// The bit-reversal permutation on the first `2^b` positions; positions
/// from `2^b` on are unchanged.
pub open spec fn bit_reverse_spec(data: Seq<u32>, b: nat) -> Seq<u32> {
    Seq::new(
        data.len(),
        |k: int|
            if k < pow2(b) {
                data[bit_rev(k as nat, b) as int]
            } else {
                data[k]
            },
    )
}

/// `bit_reverse` accepts `data`: it is empty, a single value, or its length
/// has between 1 and 32 trailing zero bits.
pub open spec fn bit_reverse_accepts(n: nat) -> bool {
    n <= 1 || (1 <= trailing_zeros_spec(n) <= 32)
}

/// The reversal of `b` bits is below `2^b`.
pub proof fn lemma_bit_rev_bound(k: nat, b: nat)
    ensures
        bit_rev(k, b) < pow2(b),
    decreases b,
{
    lemma_pow2_pos(b);
    if b > 0 {
        lemma_bit_rev_bound(k / 2, (b - 1) as nat);
        lemma_pow2_unfold(b);
        assert((k % 2) * pow2((b - 1) as nat) <= pow2((b - 1) as nat)) by (nonlinear_arith)
            requires
                k % 2 <= 1,
        ;
    }
}

/// Reversal through the high bit: for `k < 2^b`,
/// `rev(k, b) == 2 * rev(k mod 2^(b-1), b-1) + k / 2^(b-1)`.
proof fn lemma_bit_rev_high(k: nat, b: nat)
    requires
        b >= 1,
        k < pow2(b),
    ensures
        bit_rev(k, b) == 2 * bit_rev(k % pow2((b - 1) as nat), (b - 1) as nat) + k / pow2(
            (b - 1) as nat,
        ),
    decreases b,
{
    lemma_pow2_unfold(b);
    lemma_pow2_pos((b - 1) as nat);
    if b == 1 {
        assert(pow2(0) == 1) by {
            lemma2_to64();
        }
        assert(k < 2);
        assert(bit_rev(k / 2, 0) == 0);
        assert(k / 1 == k);
        assert(k % 2 == k);
        assert(bit_rev(k, 1) == (k % 2) * pow2(0) + bit_rev(k / 2, 0));
    } else {
        let b1 = (b - 1) as nat;
        let b2 = (b - 2) as nat;
        lemma_pow2_unfold(b1);
        lemma_pow2_pos(b2);
        let p1 = pow2(b1);
        let p2 = pow2(b2);
        assert(p1 == 2 * p2);
        // k / 2 < 2^(b-1)
        assert(k / 2 < p1) by {
            lemma_div_by_multiple_is_strongly_ordered(k as int, pow2(b) as int, p1 as int, 2);
            assert(pow2(b) == p1 * 2);
            lemma_div_by_multiple(p1 as int, 2);
        }
        lemma_bit_rev_high(k / 2, b1);
        // (k % p1) % 2 == k % 2 and (k % p1) / 2 == (k / 2) % p2
        lemma_mod_mod(k as int, 2, p2 as int);
        assert((k % p1) % 2 == k % 2) by {
            lemma_mul_is_commutative(2, p2 as int);
        }
        assert((k % p1) / 2 == (k / 2) % p2) by {
            lemma_fundamental_div_mod(k as int, p1 as int);
            lemma_fundamental_div_mod(k as int, 2);
            lemma_fundamental_div_mod((k / 2) as int, p2 as int);
            let q = k / p1;
            let m = k % p1;
            lemma_mod_bound(k as int, p1 as int);
            // k = p1*q + m = 2*(p2*q + m/2) + m%2, so k/2 = p2*q + m/2
            lemma_fundamental_div_mod(m as int, 2);
            assert(k == (p2 * q + m / 2) * 2 + m % 2) by (nonlinear_arith)
                requires
                    k == p1 * q + m,
                    p1 == 2 * p2,
                    m == 2 * (m / 2) + m % 2,
            ;
            lemma_mod_bound(m as int, 2);
            lemma_fundamental_div_mod_converse(k as int, 2, (p2 * q + m / 2) as int, (m % 2) as int);
            assert(k / 2 == q * p2 + m / 2) by (nonlinear_arith)
                requires
                    k / 2 == p2 * q + m / 2,
            ;
            assert(m / 2 < p2) by {
                lemma_div_by_multiple_is_strongly_ordered(m as int, p1 as int, p2 as int, 2);
                lemma_div_by_multiple(p2 as int, 2);
            }
            lemma_fundamental_div_mod_converse((k / 2) as int, p2 as int, q as int, (m / 2) as int);
        }
        assert((k / 2) / p2 == k / p1) by {
            lemma_div_denominator(k as int, 2, p2 as int);
        }
        assert(bit_rev(k % p1, b1) == ((k % p1) % 2) * p2 + bit_rev((k % p1) / 2, b2));
        assert(bit_rev(k, b) == (k % 2) * p1 + bit_rev(k / 2, b1));
        let br = bit_rev((k / 2) % p2, b2);
        assert(bit_rev(k / 2, b1) == 2 * br + (k / 2) / p2);
        assert(2 * ((k % 2) * p2 + br) + k / p1 == (k % 2) * p1 + (2 * br + k / p1))
            by (nonlinear_arith)
            requires
                p1 == 2 * p2,
        ;
    }
}

/// Bit reversal is an involution on `[0, 2^b)`.
pub proof fn lemma_bit_rev_involution(k: nat, b: nat)
    requires
        k < pow2(b),
    ensures
        bit_rev(bit_rev(k, b), b) == k,
    decreases b,
{
    if b > 0 {
        let b1 = (b - 1) as nat;
        lemma_pow2_unfold(b);
        lemma_pow2_pos(b1);
        let r = bit_rev(k, b);
        let inner = bit_rev(k / 2, b1);
        lemma_bit_rev_bound(k, b);
        lemma_bit_rev_bound(k / 2, b1);
        lemma_bit_rev_high(r, b);
        // r = (k%2) * 2^(b-1) + inner with inner < 2^(b-1)
        lemma_fundamental_div_mod_converse(r as int, pow2(b1) as int, (k % 2) as int, inner as int);
        assert(k / 2 < pow2(b1)) by {
            lemma_div_by_multiple_is_strongly_ordered(k as int, pow2(b) as int, pow2(b1) as int, 2);
            lemma_div_by_multiple(pow2(b1) as int, 2);
        }
        lemma_bit_rev_involution(k / 2, b1);
        lemma_fundamental_div_mod(k as int, 2);
    } else {
        assert(pow2(0) == 1) by {
            lemma2_to64();
        }
    }
}

/// Trailing zero count of a non-zero `n`: `2^tz` divides `n`.
proof fn lemma_trailing_zeros_divides(n: nat)
    requires
        n > 0,
    ensures
        n % pow2(trailing_zeros_spec(n)) == 0,
        pow2(trailing_zeros_spec(n)) <= n,
    decreases n,
{
    let t = trailing_zeros_spec(n);
    if n % 2 == 1 {
        assert(pow2(0) == 1) by {
            lemma2_to64();
        }
    } else {
        lemma_trailing_zeros_divides(n / 2);
        let t1 = trailing_zeros_spec(n / 2);
        lemma_pow2_unfold(t);
        lemma_pow2_pos(t1);
        lemma_fundamental_div_mod(n as int, 2);
        lemma_fundamental_div_mod((n / 2) as int, pow2(t1) as int);
        let q = (n / 2) / pow2(t1);
        assert(n == pow2(t) * q) by (nonlinear_arith)
            requires
                n == 2 * (n / 2),
                n / 2 == pow2(t1) * q,
                pow2(t) == 2 * pow2(t1),
        ;
        lemma_mod_multiples_basic(q as int, pow2(t) as int);
        lemma_mul_is_commutative(q as int, pow2(t) as int);
        assert(q >= 1) by (nonlinear_arith)
            requires
                n == pow2(t) * q,
                n > 0,
        ;
        assert(pow2(t) <= n) by (nonlinear_arith)
            requires
                n == pow2(t) * q,
                q >= 1,
        ;
    }
}

/// Count the trailing zero bits of `n >= 2`.
pub(crate) fn trailing_zeros_of(n: usize) -> (r: usize)
    requires
        n >= 1,
    ensures
        r == trailing_zeros_spec(n as nat),
{
    let mut m = n;
    let mut bits: usize = 0;
    while m % 2 == 0
        invariant
            m >= 1,
            m <= n,
            bits <= n,
            trailing_zeros_spec(n as nat) == bits + trailing_zeros_spec(m as nat),
            bits + m <= n,
        decreases m,
    {
        m = m / 2;
        bits = bits + 1;
    }
    bits
}

/// Reverse the lowest `b` bits of `i` (`2^b <= bound`).
fn reverse_low_bits(i: usize, b: usize, bound: usize) -> (r: usize)
    requires
        pow2(b as nat) <= bound,
    ensures
        r == bit_rev(i as nat, b as nat),
{
    let mut j: usize = 0;
    let mut x: usize = i;
    let mut t: usize = 0;
    proof {
        assert(pow2(0) == 1) by {
            lemma2_to64();
        }
    }
    while t < b
        invariant
            t <= b,
            pow2(b as nat) <= bound,
            j < pow2(t as nat),
            bit_rev(i as nat, b as nat) == j * pow2((b - t) as nat) + bit_rev(
                x as nat,
                (b - t) as nat,
            ),
        decreases b - t,
    {
        proof {
            let rest = (b - t - 1) as nat;
            lemma_pow2_unfold((b - t) as nat);
            lemma_pow2_unfold((t + 1) as nat);
            lemma_pow2_pos(rest);
            assert(j * pow2((b - t) as nat) + (x as nat % 2) * pow2(rest) == (2 * j + x as nat % 2)
                * pow2(rest)) by (nonlinear_arith)
                requires
                    pow2((b - t) as nat) == 2 * pow2(rest),
            ;
            if t + 1 < b {
                lemma_pow2_strictly_increases((t + 1) as nat, b as nat);
            }
            assert(2 * j + x % 2 < pow2((t + 1) as nat));
        }
        j = j * 2 + x % 2;
        x = x / 2;
        t = t + 1;
    }
    proof {
        assert(pow2(0) == 1) by {
            lemma2_to64();
        }
        assert(b - t == 0);
        assert(bit_rev(x as nat, 0) == 0);
        assert(j * pow2(0) == j);
    }
    j
}

/// **Bit reversal undoes itself.** On the lengths `bit_reverse` accepts,
/// applying the permutation twice gives the data back.
pub proof fn law_bit_reverse_twice(d: Seq<u32>)
    requires
        bit_reverse_accepts(d.len()),
        d.len() > 1,
    ensures
        bit_reverse_spec(
            bit_reverse_spec(d, trailing_zeros_spec(d.len())),
            trailing_zeros_spec(d.len()),
        ) == d,
{
    let b = trailing_zeros_spec(d.len());
    lemma_trailing_zeros_divides(d.len());
    let once = bit_reverse_spec(d, b);
    let twice = bit_reverse_spec(once, b);
    assert forall|k: int| 0 <= k < d.len() implies #[trigger] twice[k] == d[k] by {
        if k < pow2(b) {
            lemma_bit_rev_bound(k as nat, b);
            lemma_bit_rev_involution(k as nat, b);
            let j = bit_rev(k as nat, b);
            assert(twice[k] == once[j as int]);
            assert(once[j as int] == d[bit_rev(j, b) as int]);
        }
    }
    assert(twice =~= d);
}

/// Bit-reverse permutation in place: position `k < 2^b` (with `b` the
/// trailing zero count of the length) receives the value at `rev_b(k)`.
/// For a power-of-two length this is the full bit-reversal permutation.
pub fn bit_reverse(data: &mut [u32])
    requires
        bit_reverse_accepts(old(data)@.len()),
    ensures
        old(data)@.len() <= 1 ==> final(data)@ == old(data)@,
        old(data)@.len() > 1 ==> final(data)@ == bit_reverse_spec(
            old(data)@,
            trailing_zeros_spec(old(data)@.len()),
        ),
{
    let n = data.len();
    if n <= 1 {
        return;
    }
    let bits = trailing_zeros_of(n);
    let ghost d0 = data@;
    let ghost top = pow2(bits as nat);
    proof {
        lemma_trailing_zeros_divides(n as nat);
    }
    let mut i: usize = 0;
    while i < n
        invariant
            n == data@.len(),
            n == d0.len(),
            n > 1,
            top == pow2(bits as nat),
            top <= n,
            i <= n,
            forall|k: int|
                0 <= k < n ==> #[trigger] data@[k] == if k < top && (k < i || bit_rev(
                    k as nat,
                    bits as nat,
                ) < i) {
                    d0[bit_rev(k as nat, bits as nat) as int]
                } else {
                    d0[k]
                },
        decreases n - i,
    {
        let j = reverse_low_bits(i, bits, n);
        proof {
            lemma_bit_rev_bound(i as nat, bits as nat);
        }
        if j > i {
            proof {
                lemma_bit_rev_involution(i as nat, bits as nat);
            }
            let tmp = data[i];
            let other = data[j];
            data[i] = other;
            data[j] = tmp;
            proof {
                assert forall|k: int|
                    0 <= k < n implies #[trigger] data@[k] == if k < top && (k < i + 1 || bit_rev(
                    k as nat,
                    bits as nat,
                ) < i + 1) {
                    d0[bit_rev(k as nat, bits as nat) as int]
                } else {
                    d0[k]
                } by {
                    if k < top && k != i && k != j {
                        lemma_bit_rev_involution(k as nat, bits as nat);
                    }
                }
            }
        } else {
            proof {
                assert forall|k: int|
                    0 <= k < n implies #[trigger] data@[k] == if k < top && (k < i + 1 || bit_rev(
                    k as nat,
                    bits as nat,
                ) < i + 1) {
                    d0[bit_rev(k as nat, bits as nat) as int]
                } else {
                    d0[k]
                } by {
                    if k < top {
                        lemma_bit_rev_involution(k as nat, bits as nat);
                        lemma_bit_rev_bound(k as nat, bits as nat);
                    }
                    if k == i && k < top {
                        lemma_bit_rev_involution(i as nat, bits as nat);
                    }
                }
            }
        }
        i = i + 1;
    }
    proof {
        assert forall|k: int| 0 <= k < n implies #[trigger] data@[k] == bit_reverse_spec(
            d0,
            bits as nat,
        )[k] by {
            if k < top {
                lemma_bit_rev_bound(k as nat, bits as nat);
            }
        }
        assert(data@ =~= bit_reverse_spec(d0, bits as nat));
    }
}

} // verus!
