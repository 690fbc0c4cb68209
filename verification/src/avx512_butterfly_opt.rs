//! Optimized 16-lane butterfly pass: same arithmetic as
//! `avx512_butterfly_32bit::avx512_butterfly_pass_32`, with the vector
//! constants materialized once per pass and the even/odd reduction results
//! recombined by a single lane permutation instead of an unpack / permute /
//! shuffle chain. An unrolled-by-two variant keeps the baseline chain.
use crate::avx512_butterfly_32bit::{
    all_residues, butterfly_pass_spec, interleave_chain, mont_reduce_lane, split_products,
};
use crate::field::babybear::canonical::law_scalar_mul_matches_oracle;
use crate::field::babybear::constants::{p_nat, mont_radix, BABYBEAR_NEG_INV, BABYBEAR_P};
use crate::field::babybear::montgomery::{
    babybear_monty_spec, mont_mul_spec, redc, MontgomeryBackend, BABYBEAR_SCALAR,
};
use crate::field::babybear::reference::{
    butterfly_spec, lemma_mod_subtraction_once, lemma_sub_mod_cases, sub_mod_spec,
};
use vstd::arithmetic::div_mod::*;
use vstd::prelude::*;

verus! {

/// Vector constants of a pass, created once and used in the hot loop.
#[derive(Clone, Copy)]
pub struct AvxConsts {
    /// p in each of 16 u32 lanes.
    vp32: [u32; 16],
    /// p in each of 8 u64 lanes.
    vp64: [u64; 8],
    /// -p^{-1} mod 2^32 in each of 8 u64 lanes.
    vinv64: [u64; 8],
    /// 0xFFFF_FFFF in each of 8 u64 lanes.
    mask32_64: [u64; 8],
    /// Lane map from [even results, odd results] to natural order.
    interleave: [usize; 16],
}

impl AvxConsts {
    /// The constants hold the values their names state.
    pub closed spec fn wf(&self) -> bool {
        &&& forall|i: int| 0 <= i < 16 ==> #[trigger] self.vp32[i] == BABYBEAR_P
        &&& forall|i: int| 0 <= i < 8 ==> #[trigger] self.vp64[i] == BABYBEAR_P as u64
        &&& forall|i: int| 0 <= i < 8 ==> #[trigger] self.vinv64[i] == BABYBEAR_NEG_INV as u64
        &&& forall|i: int| 0 <= i < 8 ==> #[trigger] self.mask32_64[i] == 0xFFFF_FFFFu64
        &&& forall|i: int|
            0 <= i < 16 ==> #[trigger] self.interleave[i] == if i % 2 == 0 {
                i / 2
            } else {
                8 + i / 2
            }
    }
}

/// Build the pass constants. The lane map sends output lane `i` to source
/// lane `i / 2` (even `i`) or `8 + i / 2` (odd `i`).
fn make_consts() -> (c: AvxConsts)
    ensures
        c.wf(),
{
    let c = AvxConsts {
        vp32: [BABYBEAR_P; 16],
        vp64: [BABYBEAR_P as u64; 8],
        vinv64: [BABYBEAR_NEG_INV as u64; 8],
        mask32_64: [0xFFFF_FFFFu64; 8],
        interleave: [0, 8, 1, 9, 2, 10, 3, 11, 4, 12, 5, 13, 6, 14, 7, 15],
    };
    assert(c.wf()) by {
        assert forall|i: int| 0 <= i < 16 implies #[trigger] c.interleave[i] == if i % 2 == 0 {
            i / 2
        } else {
            8 + i / 2
        } by {
            assert(c.interleave@ == seq![0usize, 8, 1, 9, 2, 10, 3, 11, 4, 12, 5, 13, 6, 14, 7, 15]);
        }
    }
    c
}

/// SIMD Montgomery reduction of 8 u64 lane products to 8 u32 lanes.
fn mont_reduce_epu64_h(prod: [u64; 8], c: &AvxConsts) -> (r: [u32; 8])
    requires
        c.wf(),
        forall|j: int| 0 <= j < 8 ==> #[trigger] prod[j] < p_nat() * mont_radix(),
    ensures
        forall|j: int|
            0 <= j < 8 ==> #[trigger] r[j] as nat == redc(prod[j] as nat, babybear_monty_spec())
                && r[j] < BABYBEAR_P,
{
    let mut out = [0u32; 8];
    let mut j: usize = 0;
    while j < 8
        invariant
            0 <= j <= 8,
            c.wf(),
            forall|q: int| 0 <= q < 8 ==> #[trigger] prod[q] < p_nat() * mont_radix(),
            forall|q: int|
                0 <= q < j ==> #[trigger] out[q] as nat == redc(
                    prod[q] as nat,
                    babybear_monty_spec(),
                ) && out[q] < BABYBEAR_P,
        decreases 8 - j,
    {
        out[j] = mont_reduce_lane(prod[j], c.vp64[j], c.vinv64[j], c.mask32_64[j]);
        j = j + 1;
    }
    out
}

/// 16-lane Montgomery multiplication with the single-permutation
/// recombination: `[red_even | red_odd]` gathered through the lane map.
fn mont_mul_16_h(vb: [u32; 16], vw: [u32; 16], c: &AvxConsts) -> (r: [u32; 16])
    requires
        c.wf(),
        all_residues(vb@),
        all_residues(vw@),
    ensures
        forall|i: int| 0 <= i < 16 ==> #[trigger] r[i] as nat == mont_mul_spec(
            vb[i] as nat,
            vw[i] as nat,
        ),
        all_residues(r@),
{
    let (prod_even, prod_odd) = split_products(vb, vw);
    let red_even = mont_reduce_epu64_h(prod_even, c);
    let red_odd = mont_reduce_epu64_h(prod_odd, c);
    // Merge: lanes 0..8 hold the even results, lanes 8..16 the odd ones.
    let mut combined = [0u32; 16];
    let mut j: usize = 0;
    while j < 8
        invariant
            0 <= j <= 8,
            forall|q: int| 0 <= q < j ==> #[trigger] combined[q] == red_even[q],
            forall|q: int| 0 <= q < j ==> #[trigger] combined[8 + q] == red_odd[q],
        decreases 8 - j,
    {
        combined[j] = red_even[j];
        combined[8 + j] = red_odd[j];
        j = j + 1;
    }
    // Lane permutation through the map.
    let mut out = [0u32; 16];
    let mut i: usize = 0;
    while i < 16
        invariant
            0 <= i <= 16,
            c.wf(),
            forall|q: int| 0 <= q < 8 ==> #[trigger] combined[q] == red_even[q],
            forall|q: int| 0 <= q < 8 ==> #[trigger] combined[8 + q] == red_odd[q],
            forall|q: int| 0 <= q < i ==> #[trigger] out[q] == combined[c.interleave[q] as int],
        decreases 16 - i,
    {
        let src = c.interleave[i];
        out[i] = combined[src];
        i = i + 1;
    }
    proof {
        assert forall|k: int| 0 <= k < 16 implies #[trigger] out[k] as nat == mont_mul_spec(
            vb[k] as nat,
            vw[k] as nat,
        ) && out[k] < BABYBEAR_P by {
            let q = k / 2;
            if k % 2 == 0 {
                assert(k == 2 * q);
                assert(out[k] == red_even[q]);
                law_scalar_mul_matches_oracle(vb[k] as nat, vw[k] as nat);
            } else {
                assert(k == 2 * q + 1);
                assert(out[k] == combined[8 + q]);
                assert(out[k] == red_odd[q]);
                law_scalar_mul_matches_oracle(vb[k] as nat, vw[k] as nat);
            }
        }
    }
    out
}

/// Montgomery reduction of the unrolled kernel: the same lane arithmetic as
/// `mont_reduce_epu64_h`, kept as its own routine.
fn mont_reduce_epu64_orig(prod: [u64; 8], c: &AvxConsts) -> (r: [u32; 8])
    requires
        c.wf(),
        forall|j: int| 0 <= j < 8 ==> #[trigger] prod[j] < p_nat() * mont_radix(),
    ensures
        forall|j: int|
            0 <= j < 8 ==> #[trigger] r[j] as nat == redc(prod[j] as nat, babybear_monty_spec())
                && r[j] < BABYBEAR_P,
{
    let mut out = [0u32; 8];
    let mut j: usize = 0;
    while j < 8
        invariant
            0 <= j <= 8,
            c.wf(),
            forall|q: int| 0 <= q < 8 ==> #[trigger] prod[q] < p_nat() * mont_radix(),
            forall|q: int|
                0 <= q < j ==> #[trigger] out[q] as nat == redc(
                    prod[q] as nat,
                    babybear_monty_spec(),
                ) && out[q] < BABYBEAR_P,
        decreases 8 - j,
    {
        out[j] = mont_reduce_lane(prod[j], c.vp64[j], c.vinv64[j], c.mask32_64[j]);
        j = j + 1;
    }
    out
}

/// 16-lane Montgomery multiplication recombined through the baseline
/// unpack / permute / shuffle chain.
fn mont_mul_16_orig(vb: [u32; 16], vw: [u32; 16], c: &AvxConsts) -> (r: [u32; 16])
    requires
        c.wf(),
        all_residues(vb@),
        all_residues(vw@),
    ensures
        forall|i: int| 0 <= i < 16 ==> #[trigger] r[i] as nat == mont_mul_spec(
            vb[i] as nat,
            vw[i] as nat,
        ),
        all_residues(r@),
{
    let (prod_even, prod_odd) = split_products(vb, vw);
    let red_even = mont_reduce_epu64_orig(prod_even, c);
    let red_odd = mont_reduce_epu64_orig(prod_odd, c);
    let out = interleave_chain(red_even, red_odd);
    proof {
        assert forall|k: int| 0 <= k < 16 implies #[trigger] out[k] as nat == mont_mul_spec(
            vb[k] as nat,
            vw[k] as nat,
        ) && out[k] < BABYBEAR_P by {
            let q = k / 2;
            if k % 2 == 0 {
                assert(k == 2 * q);
                assert(out[2 * q] == red_even[q]);
            } else {
                assert(k == 2 * q + 1);
                assert(out[2 * q + 1] == red_odd[q]);
            }
            law_scalar_mul_matches_oracle(vb[k] as nat, vw[k] as nat);
        }
    }
    out
}

/// Lane-wise `a + b mod p` and `a - b mod p` with the vector constants.
fn add_sub_16(va: [u32; 16], vb: [u32; 16], c: &AvxConsts) -> (r: ([u32; 16], [u32; 16]))
    requires
        c.wf(),
        all_residues(va@),
        all_residues(vb@),
    ensures
        forall|i: int|
            0 <= i < 16 ==> #[trigger] r.0[i] as nat == butterfly_spec(
                va[i] as nat,
                vb[i] as nat,
                0,
            ).0,
        forall|i: int|
            0 <= i < 16 ==> #[trigger] r.1[i] as nat == sub_mod_spec(va[i] as nat, vb[i] as nat),
        all_residues(r.0@),
        all_residues(r.1@),
{
    let mut a_new = [0u32; 16];
    let mut diff = [0u32; 16];
    let mut i: usize = 0;
    while i < 16
        invariant
            0 <= i <= 16,
            c.wf(),
            all_residues(va@),
            all_residues(vb@),
            forall|k: int|
                0 <= k < i ==> #[trigger] a_new[k] as nat == butterfly_spec(
                    va[k] as nat,
                    vb[k] as nat,
                    0,
                ).0 && a_new[k] < BABYBEAR_P,
            forall|k: int|
                0 <= k < i ==> #[trigger] diff[k] as nat == sub_mod_spec(
                    va[k] as nat,
                    vb[k] as nat,
                ) && diff[k] < BABYBEAR_P,
        decreases 16 - i,
    {
        let a = va[i];
        let b = vb[i];
        let p = c.vp32[i];
        assert(a < BABYBEAR_P && b < BABYBEAR_P);
        let sum = a + b;
        proof {
            if a + b >= BABYBEAR_P {
                lemma_mod_subtraction_once((a + b) as nat);
            } else {
                lemma_small_mod((a + b) as nat, p_nat());
            }
            lemma_sub_mod_cases(a as nat, b as nat);
        }
        a_new[i] = if sum >= p {
            sum - p
        } else {
            sum
        };
        diff[i] = if a >= b {
            a - b
        } else {
            a + p - b
        };
        i = i + 1;
    }
    (a_new, diff)
}

/// 16-lane butterfly with the single-permutation multiplication.
fn butterfly_16_h(va: [u32; 16], vb: [u32; 16], vw: [u32; 16], c: &AvxConsts) -> (r: (
    [u32; 16],
    [u32; 16],
))
    requires
        c.wf(),
        all_residues(va@),
        all_residues(vb@),
        all_residues(vw@),
    ensures
        forall|i: int|
            0 <= i < 16 ==> (#[trigger] r.0[i] as nat, r.1[i] as nat) == butterfly_spec(
                va[i] as nat,
                vb[i] as nat,
                vw[i] as nat,
            ),
{
    let (a_new, diff) = add_sub_16(va, vb, c);
    let b_new = mont_mul_16_h(diff, vw, c);
    (a_new, b_new)
}

/// 16-lane butterfly with the baseline recombination chain.
fn butterfly_16_orig(va: [u32; 16], vb: [u32; 16], vw: [u32; 16], c: &AvxConsts) -> (r: (
    [u32; 16],
    [u32; 16],
))
    requires
        c.wf(),
        all_residues(va@),
        all_residues(vb@),
        all_residues(vw@),
    ensures
        forall|i: int|
            0 <= i < 16 ==> (#[trigger] r.0[i] as nat, r.1[i] as nat) == butterfly_spec(
                va[i] as nat,
                vb[i] as nat,
                vw[i] as nat,
            ),
{
    let (a_new, diff) = add_sub_16(va, vb, c);
    let b_new = mont_mul_16_orig(diff, vw, c);
    (a_new, b_new)
}

/// The butterfly pass over `data[offset .. offset + n]` has been applied to
/// the first `done` pairs; every other value is unchanged.
pub open spec fn pass_progress(
    data: Seq<u32>,
    d0: Seq<u32>,
    offset: nat,
    twiddles: Seq<u32>,
    n: nat,
    done: nat,
) -> bool {
    let n2 = n / 2;
    &&& data.len() == d0.len()
    &&& forall|k: int|
        0 <= k < data.len() ==> #[trigger] data[k] == if offset <= k < offset + done || offset
            + n2 <= k < offset + n2 + done {
            butterfly_pass_spec(d0, offset as nat, twiddles, n as nat)[k]
        } else {
            d0[k]
        }
}

/// The precondition of a pass over `data[offset .. offset + n]`.
pub open spec fn pass_inputs(data: Seq<u32>, offset: nat, twiddles: Seq<u32>, n: nat) -> bool {
    &&& offset + n <= data.len()
    &&& twiddles.len() >= n / 2
    &&& forall|k: int| offset <= k < offset + n ==> #[trigger] data[k] < BABYBEAR_P
    &&& forall|k: int| 0 <= k < n / 2 ==> #[trigger] twiddles[k] < BABYBEAR_P
}

/// Process one block of 16 pairs starting at pair `i`, through the
/// single-permutation butterfly (`orig == false`) or the baseline chain.
fn pass_block(
    data: &mut [u32],
    offset: usize,
    twiddles: &[u32],
    n: usize,
    i: usize,
    c: &AvxConsts,
    orig: bool,
)
    requires
        c.wf(),
        i + 16 <= n / 2,
        pass_inputs(old(data)@, offset as nat, twiddles@, n as nat),
        old(data)@.len() <= usize::MAX,
    ensures
        final(data)@.len() == old(data)@.len(),
        forall|k: int|
            0 <= k < old(data)@.len() ==> #[trigger] final(data)@[k] == if offset + i <= k
                < offset + i + 16 || offset + n / 2 + i <= k < offset + n / 2 + i + 16 {
                butterfly_pass_spec(old(data)@, offset as nat, twiddles@, n as nat)[k]
            } else {
                old(data)@[k]
            },
{
    let n2 = n / 2;
    let ghost d0 = data@;
    let mut va = [0u32; 16];
    let mut vb = [0u32; 16];
    let mut vw = [0u32; 16];
    let mut l: usize = 0;
    while l < 16
        invariant
            0 <= l <= 16,
            i + 16 <= n2,
            n2 == n / 2,
            data@ == d0,
            d0.len() <= usize::MAX,
            pass_inputs(d0, offset as nat, twiddles@, n as nat),
            forall|k: int| 0 <= k < l ==> #[trigger] va[k] == d0[offset + i + k],
            forall|k: int| 0 <= k < l ==> #[trigger] vb[k] == d0[offset + i + n2 + k],
            forall|k: int| 0 <= k < l ==> #[trigger] vw[k] == twiddles@[i + k],
        decreases 16 - l,
    {
        va[l] = data[offset + i + l];
        vb[l] = data[offset + i + n2 + l];
        vw[l] = twiddles[i + l];
        l = l + 1;
    }
    assert(all_residues(va@)) by {
        assert forall|k: int| 0 <= k < 16 implies #[trigger] va@[k] < BABYBEAR_P by {
            assert(d0[offset + i + k] < BABYBEAR_P);
        }
    }
    assert(all_residues(vb@)) by {
        assert forall|k: int| 0 <= k < 16 implies #[trigger] vb@[k] < BABYBEAR_P by {
            assert(d0[offset + i + n2 + k] < BABYBEAR_P);
        }
    }
    assert(all_residues(vw@)) by {
        assert forall|k: int| 0 <= k < 16 implies #[trigger] vw@[k] < BABYBEAR_P by {
            assert(twiddles@[i + k] < BABYBEAR_P);
        }
    }
    let (ra, rb) = if orig {
        butterfly_16_orig(va, vb, vw, c)
    } else {
        butterfly_16_h(va, vb, vw, c)
    };
    let mut l2: usize = 0;
    while l2 < 16
        invariant
            0 <= l2 <= 16,
            i + 16 <= n2,
            n2 == n / 2,
            offset + n <= d0.len(),
            data@.len() == d0.len(),
            d0.len() <= usize::MAX,
            forall|k: int|
                0 <= k < data@.len() ==> #[trigger] data@[k] == if offset + i <= k < offset + i
                    + l2 {
                    ra[k - offset - i]
                } else if offset + n2 + i <= k < offset + n2 + i + l2 {
                    rb[k - offset - n2 - i]
                } else {
                    d0[k]
                },
        decreases 16 - l2,
    {
        data[offset + i + l2] = ra[l2];
        data[offset + i + n2 + l2] = rb[l2];
        l2 = l2 + 1;
    }
    assert forall|k: int| 0 <= k < d0.len() implies #[trigger] data@[k] == if offset + i <= k
        < offset + i + 16 || offset + n2 + i <= k < offset + n2 + i + 16 {
        butterfly_pass_spec(d0, offset as nat, twiddles@, n as nat)[k]
    } else {
        d0[k]
    } by {
        if offset + i <= k < offset + i + 16 {
            let q = k - offset - i;
            assert((ra[q] as nat, rb[q] as nat) == butterfly_spec(
                va[q] as nat,
                vb[q] as nat,
                vw[q] as nat,
            ));
        } else if offset + n2 + i <= k < offset + n2 + i + 16 {
            let q = k - offset - n2 - i;
            assert((ra[q] as nat, rb[q] as nat) == butterfly_spec(
                va[q] as nat,
                vb[q] as nat,
                vw[q] as nat,
            ));
        }
    }
}

/// The scalar tail of a pass: pairs `i .. n/2` one at a time.
fn pass_tail(data: &mut [u32], offset: usize, twiddles: &[u32], n: usize, start: usize)
    requires
        start <= n / 2,
        pass_inputs(old(data)@, offset as nat, twiddles@, n as nat),
    ensures
        final(data)@.len() == old(data)@.len(),
        forall|k: int|
            0 <= k < old(data)@.len() ==> #[trigger] final(data)@[k] == if offset + start <= k
                < offset + n / 2 || offset + n / 2 + start <= k < offset + 2 * (n / 2) {
                butterfly_pass_spec(old(data)@, offset as nat, twiddles@, n as nat)[k]
            } else {
                old(data)@[k]
            },
{
    let n2 = n / 2;
    let len = data.len();
    let ghost d0 = data@;
    let mut i = start;
    while i < n2
        invariant
            start <= i <= n2,
            n2 == n / 2,
            d0.len() == len,
            data@.len() == len,
            pass_inputs(d0, offset as nat, twiddles@, n as nat),
            forall|k: int|
                0 <= k < len ==> #[trigger] data@[k] == if offset + start <= k < offset + i
                    || offset + n2 + start <= k < offset + n2 + i {
                    butterfly_pass_spec(d0, offset as nat, twiddles@, n as nat)[k]
                } else {
                    d0[k]
                },
        decreases n2 - i,
    {
        let a = data[offset + i];
        let b = data[offset + i + n2];
        let w = twiddles[i];
        assert(a == d0[offset + i] && b == d0[offset + i + n2]);
        assert(d0[offset + i] < BABYBEAR_P && d0[offset + i + n2] < BABYBEAR_P);
        assert(w < BABYBEAR_P);
        let sum = a + b;
        proof {
            if a + b >= BABYBEAR_P {
                lemma_mod_subtraction_once((a + b) as nat);
            } else {
                lemma_small_mod((a + b) as nat, p_nat());
            }
            lemma_sub_mod_cases(a as nat, b as nat);
        }
        let a_new = if sum >= BABYBEAR_P {
            sum - BABYBEAR_P
        } else {
            sum
        };
        let diff = if a >= b {
            a - b
        } else {
            a + BABYBEAR_P - b
        };
        proof {
            law_scalar_mul_matches_oracle(diff as nat, w as nat);
        }
        let b_new = BABYBEAR_SCALAR().mul(diff, w);
        data[offset + i] = a_new;
        data[offset + i + n2] = b_new;
        i = i + 1;
    }
}

/// Optimized full butterfly pass over `data[offset .. offset + n]` in
/// half/half layout; same result as `avx512_butterfly_pass_32`.
pub fn avx512_butterfly_pass_32_opt(data: &mut [u32], offset: usize, twiddles: &[u32], n: usize)
    requires
        pass_inputs(old(data)@, offset as nat, twiddles@, n as nat),
    ensures
        final(data)@ == butterfly_pass_spec(old(data)@, offset as nat, twiddles@, n as nat),
{
    let n2 = n / 2;
    let len = data.len();
    let c = make_consts();
    let ghost d0 = data@;
    let mut i: usize = 0;
    while i + 16 <= n2
        invariant
            i <= n2,
            n2 == n / 2,
            len == d0.len(),
            c.wf(),
            pass_inputs(d0, offset as nat, twiddles@, n as nat),
            pass_progress(data@, d0, offset as nat, twiddles@, n as nat, i as nat),
        decreases n2 - i,
    {
        proof {
            lemma_progress_inputs(data@, d0, offset as nat, twiddles@, n as nat, i as nat);
        }
        let ghost before = data@;
        pass_block(data, offset, twiddles, n, i, &c, false);
        proof {
            lemma_progress_block(before, data@, d0, offset as nat, twiddles@, n as nat, i as nat, 16);
        }
        i = i + 16;
    }
    proof {
        lemma_progress_inputs(data@, d0, offset as nat, twiddles@, n as nat, i as nat);
    }
    let ghost before = data@;
    pass_tail(data, offset, twiddles, n, i);
    proof {
        lemma_progress_block(before, data@, d0, offset as nat, twiddles@, n as nat, i as nat, (n2 - i) as nat);
        lemma_progress_complete(data@, d0, offset as nat, twiddles@, n as nat);
    }
}

/// Unrolled-by-two full butterfly pass (two 16-lane groups in flight, the
/// baseline recombination chain); same result as `avx512_butterfly_pass_32`.
pub fn avx512_butterfly_pass_32_unroll(data: &mut [u32], offset: usize, twiddles: &[u32], n: usize)
    requires
        pass_inputs(old(data)@, offset as nat, twiddles@, n as nat),
    ensures
        final(data)@ == butterfly_pass_spec(old(data)@, offset as nat, twiddles@, n as nat),
{
    let n2 = n / 2;
    let len = data.len();
    let c = make_consts();
    let ghost d0 = data@;
    let mut i: usize = 0;
    while i + 32 <= n2
        invariant
            i <= n2,
            n2 == n / 2,
            len == d0.len(),
            c.wf(),
            pass_inputs(d0, offset as nat, twiddles@, n as nat),
            pass_progress(data@, d0, offset as nat, twiddles@, n as nat, i as nat),
        decreases n2 - i,
    {
        proof {
            lemma_progress_inputs(data@, d0, offset as nat, twiddles@, n as nat, i as nat);
        }
        let ghost before = data@;
        pass_block(data, offset, twiddles, n, i, &c, true);
        proof {
            lemma_progress_block(before, data@, d0, offset as nat, twiddles@, n as nat, i as nat, 16);
            lemma_progress_inputs(data@, d0, offset as nat, twiddles@, n as nat, (i + 16) as nat);
        }
        let ghost mid = data@;
        pass_block(data, offset, twiddles, n, i + 16, &c, true);
        proof {
            lemma_progress_block(mid, data@, d0, offset as nat, twiddles@, n as nat, (i + 16) as nat, 16);
        }
        i = i + 32;
    }
    if i + 16 <= n2 {
        proof {
            lemma_progress_inputs(data@, d0, offset as nat, twiddles@, n as nat, i as nat);
        }
        let ghost before = data@;
        pass_block(data, offset, twiddles, n, i, &c, true);
        proof {
            lemma_progress_block(before, data@, d0, offset as nat, twiddles@, n as nat, i as nat, 16);
        }
        i = i + 16;
    }
    proof {
        lemma_progress_inputs(data@, d0, offset as nat, twiddles@, n as nat, i as nat);
    }
    let ghost before = data@;
    pass_tail(data, offset, twiddles, n, i);
    proof {
        lemma_progress_block(before, data@, d0, offset as nat, twiddles@, n as nat, i as nat, (n2 - i) as nat);
        lemma_progress_complete(data@, d0, offset as nat, twiddles@, n as nat);
    }
}

/// Values not yet reached by a pass still satisfy the pass precondition,
/// and the pairs still to be processed hold their values from before the pass.
proof fn lemma_progress_inputs(
    data: Seq<u32>,
    d0: Seq<u32>,
    offset: nat,
    twiddles: Seq<u32>,
    n: nat,
    done: nat,
)
    requires
        done <= n / 2,
        pass_inputs(d0, offset, twiddles, n),
        pass_progress(data, d0, offset, twiddles, n, done),
    ensures
        pass_inputs(data, offset, twiddles, n),
{
    let n2 = n / 2;
    assert forall|k: int| offset <= k < offset + n implies #[trigger] data[k] < BABYBEAR_P by {
        if offset <= k < offset + done {
            assert(d0[k] < BABYBEAR_P && d0[k + n2] < BABYBEAR_P && twiddles[k - offset]
                < BABYBEAR_P);
            crate::field::babybear::reference::lemma_sub_mod_cases(
                d0[k] as nat,
                d0[k + n2] as nat,
            );
            assert(butterfly_spec(d0[k] as nat, d0[k + n2] as nat, twiddles[k - offset] as nat).0
                < BABYBEAR_P) by {
                lemma_mod_bound((d0[k] + d0[k + n2]) as int, p_nat() as int);
            }
        } else if offset + n2 <= k < offset + n2 + done {
            assert(d0[k] < BABYBEAR_P && d0[k - n2] < BABYBEAR_P && twiddles[k - offset - n2]
                < BABYBEAR_P);
            lemma_mod_bound(
                (sub_mod_spec(d0[k - n2] as nat, d0[k] as nat) * twiddles[k - offset - n2] as nat
                    * crate::field::babybear::constants::BABYBEAR_R_INV_MOD_P as nat) as int,
                p_nat() as int,
            );
        }
    }
}

/// Processing `count` further pairs extends the progress of a pass.
proof fn lemma_progress_block(
    before: Seq<u32>,
    after: Seq<u32>,
    d0: Seq<u32>,
    offset: nat,
    twiddles: Seq<u32>,
    n: nat,
    done: nat,
    count: nat,
)
    requires
        done + count <= n / 2,
        pass_inputs(d0, offset, twiddles, n),
        pass_progress(before, d0, offset, twiddles, n, done),
        after.len() == before.len(),
        forall|k: int|
            0 <= k < before.len() ==> #[trigger] after[k] == if offset + done <= k < offset + done
                + count || offset + n / 2 + done <= k < offset + n / 2 + done + count {
                butterfly_pass_spec(before, offset, twiddles, n)[k]
            } else {
                before[k]
            },
    ensures
        pass_progress(after, d0, offset, twiddles, n, done + count),
{
    let n2 = n / 2;
    assert forall|k: int| 0 <= k < after.len() implies #[trigger] after[k] == if offset <= k
        < offset + done + count || offset + n2 <= k < offset + n2 + done + count {
        butterfly_pass_spec(d0, offset, twiddles, n)[k]
    } else {
        d0[k]
    } by {
        if offset + done <= k < offset + done + count {
            assert(before[k] == d0[k]);
            assert(before[k + n2] == d0[k + n2]);
        } else if offset + n2 + done <= k < offset + n2 + done + count {
            assert(before[k] == d0[k]);
            assert(before[k - n2] == d0[k - n2]);
        }
    }
}

/// A pass whose progress covers all `n / 2` pairs has its full effect.
proof fn lemma_progress_complete(data: Seq<u32>, d0: Seq<u32>, offset: nat, twiddles: Seq<u32>, n: nat)
    requires
        pass_progress(data, d0, offset, twiddles, n, n / 2),
    ensures
        data == butterfly_pass_spec(d0, offset, twiddles, n),
{
    assert(data =~= butterfly_pass_spec(d0, offset, twiddles, n));
}

} // verus!
