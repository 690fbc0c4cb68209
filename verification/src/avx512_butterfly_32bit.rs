//! Radix-2 DIF butterfly on Montgomery-encoded BabyBear values: the typed
//! scalar butterfly, a 16-lane block butterfly (even/odd product split and
//! lane interleave) and a full half/half butterfly pass.
use crate::field::babybear::canonical::MontgomeryBabyBear;
use crate::field::babybear::canonical::law_scalar_mul_matches_oracle;
use crate::field::babybear::constants::{p_nat, mont_radix, BABYBEAR_NEG_INV, BABYBEAR_P};
use crate::field::babybear::montgomery::{
    babybear_monty_spec, lemma_redc_babybear, mont_mul_spec, redc, redc_multiplier, redc_sum,
    MontgomeryBackend, BABYBEAR_SCALAR,
};
use crate::field::babybear::reference::{
    butterfly_spec, lemma_mod_subtraction_once, lemma_sub_mod_cases,
};
use vstd::arithmetic::div_mod::*;
use vstd::arithmetic::mul::*;
use vstd::prelude::*;

verus! {

/// Every value of the sequence is a BabyBear residue (`< p`).
pub open spec fn all_residues(s: Seq<u32>) -> bool {
    forall|i: int| 0 <= i < s.len() ==> #[trigger] s[i] < BABYBEAR_P
}

/// Scalar DIF butterfly on raw Montgomery values:
/// `(a + b mod p, (a - b) * w mod p)`.
#[inline(always)]
fn scalar_butterfly_32(a: u32, b: u32, w: u32) -> (r: (u32, u32))
    requires
        a < BABYBEAR_P,
        b < BABYBEAR_P,
        w < BABYBEAR_P,
    ensures
        (r.0 as nat, r.1 as nat) == butterfly_spec(a as nat, b as nat, w as nat),
        r.0 < BABYBEAR_P,
        r.1 < BABYBEAR_P,
{
    let sum = a.wrapping_add(b);
    proof {
        assert(a + b < u32::MAX);
        if a + b >= BABYBEAR_P {
            lemma_mod_subtraction_once((a + b) as nat);
        } else {
            lemma_small_mod((a + b) as nat, p_nat());
        }
        lemma_sub_mod_cases(a as nat, b as nat);
    }
    let a_new = if sum >= BABYBEAR_P {
        sum - BABYBEAR_P
    } else {
        sum
    };
    let diff = if a >= b {
        a - b
    } else {
        a + BABYBEAR_P - b
    };
    proof {
        law_scalar_mul_matches_oracle(diff as nat, w as nat);
    }
    let b_new = BABYBEAR_SCALAR().mul(diff, w);
    (a_new, b_new)
}

/// Radix-2 DIF butterfly on typed Montgomery values.
///
/// Returns `(a + b, (a - b) * w)` in the Montgomery domain; both outputs
/// are residues.
#[inline(always)]
pub fn butterfly(a: MontgomeryBabyBear, b: MontgomeryBabyBear, w: MontgomeryBabyBear) -> (r: (
    MontgomeryBabyBear,
    MontgomeryBabyBear,
))
    requires
        a.0 < BABYBEAR_P,
        b.0 < BABYBEAR_P,
        w.0 < BABYBEAR_P,
    ensures
        (r.0.0 as nat, r.1.0 as nat) == butterfly_spec(a.0 as nat, b.0 as nat, w.0 as nat),
        r.0.0 < BABYBEAR_P,
        r.1.0 < BABYBEAR_P,
{
    let (ra, rb) = scalar_butterfly_32(a.inner(), b.inner(), w.inner());
    (MontgomeryBabyBear(ra), MontgomeryBabyBear(rb))
}

/// One lane of the vector Montgomery reduction: mask, multiply, add, shift,
/// conditional subtract, narrow.
pub(crate) fn mont_reduce_lane(prod: u64, vp: u64, vinv: u64, mask: u64) -> (r: u32)
    requires
        vp == BABYBEAR_P as u64,
        vinv == BABYBEAR_NEG_INV as u64,
        mask == 0xFFFF_FFFFu64,
        prod < p_nat() * mont_radix(),
    ensures
        r as nat == redc(prod as nat, babybear_monty_spec()),
        r < BABYBEAR_P,
{
    proof {
        lemma_redc_babybear(prod as nat);
    }
    let ghost c = babybear_monty_spec();
    let lo = prod & mask;
    assert(lo == prod % 0x1_0000_0000u64) by (bit_vector)
        requires
            lo == prod & mask,
            mask == 0xFFFF_FFFFu64,
    ;
    // _mm512_mul_epu32 multiplies the low 32 bits of each 64-bit lane.
    let lo32 = lo & mask;
    let inv32 = vinv & mask;
    assert(lo32 == lo && inv32 == vinv) by (bit_vector)
        requires
            lo32 == lo & mask,
            inv32 == vinv & mask,
            lo < 0x1_0000_0000u64,
            vinv == 0x77FF_FFFFu64,
            mask == 0xFFFF_FFFFu64,
    ;
    proof {
        lemma_mul_upper_bound(lo32 as int, 0xFFFF_FFFF, inv32 as int, 0xFFFF_FFFF);
        assert(0xFFFF_FFFFint * 0xFFFF_FFFF <= u64::MAX) by (nonlinear_arith);
    }
    let full = lo32 * inv32;
    let m = full & mask;
    assert(m == full % 0x1_0000_0000u64) by (bit_vector)
        requires
            m == full & mask,
            mask == 0xFFFF_FFFFu64,
    ;
    assert(m as nat == redc_multiplier(prod as nat, c));
    let m32 = m & mask;
    let vp32 = vp & mask;
    assert(m32 == m && vp32 == vp) by (bit_vector)
        requires
            m32 == m & mask,
            vp32 == vp & mask,
            m < 0x1_0000_0000u64,
            vp == 0x7800_0001u64,
            mask == 0xFFFF_FFFFu64,
    ;
    proof {
        lemma_mul_upper_bound(m32 as int, 0xFFFF_FFFF, vp32 as int, 0xFFFF_FFFF);
        assert(0xFFFF_FFFFint * 0xFFFF_FFFF <= u64::MAX) by (nonlinear_arith);
    }
    let mp = m32 * vp32;
    assert(redc_sum(prod as nat, c) == prod + mp);
    let sum = prod + mp;
    let t = sum >> 32u64;
    assert(t == sum / 0x1_0000_0000u64) by (bit_vector)
        requires
            t == sum >> 32u64,
    ;
    assert(t < 0x1_0000_0000u64);
    proof {
        lemma_small_mod(t as nat, mont_radix());
    }
    let t2 = if t >= vp {
        t - vp
    } else {
        t
    };
    #[verifier::truncate]
    (t2 as u32)
}

/// SIMD Montgomery reduction of 8 u64 lane products to 8 u32 lanes:
/// each lane becomes `prod * R^{-1} mod p`, with the lane constants
/// materialized here.
fn mont_reduce_epu64(prod: [u64; 8]) -> (r: [u32; 8])
    requires
        forall|j: int| 0 <= j < 8 ==> #[trigger] prod[j] < p_nat() * mont_radix(),
    ensures
        forall|j: int|
            0 <= j < 8 ==> #[trigger] r[j] as nat == redc(prod[j] as nat, babybear_monty_spec())
                && r[j] < BABYBEAR_P,
{
    let mask32: u64 = 0xFFFF_FFFF;
    let vp: u64 = BABYBEAR_P as u64;
    let vinv: u64 = BABYBEAR_NEG_INV as u64;
    let mut out = [0u32; 8];
    let mut j: usize = 0;
    while j < 8
        invariant
            0 <= j <= 8,
            mask32 == 0xFFFF_FFFFu64,
            vp == BABYBEAR_P as u64,
            vinv == BABYBEAR_NEG_INV as u64,
            forall|q: int| 0 <= q < 8 ==> #[trigger] prod[q] < p_nat() * mont_radix(),
            forall|q: int|
                0 <= q < j ==> #[trigger] out[q] as nat == redc(
                    prod[q] as nat,
                    babybear_monty_spec(),
                ) && out[q] < BABYBEAR_P,
        decreases 8 - j,
    {
        out[j] = mont_reduce_lane(prod[j], vp, vinv, mask32);
        j = j + 1;
    }
    out
}

/// Even-lane and odd-lane 64-bit products of two 16-lane vectors of
/// residues (lane `2j` and lane `2j + 1` of the inputs).
pub(crate) fn split_products(vb: [u32; 16], vw: [u32; 16]) -> (r: ([u64; 8], [u64; 8]))
    requires
        all_residues(vb@),
        all_residues(vw@),
    ensures
        forall|j: int|
            0 <= j < 8 ==> #[trigger] r.0[j] == vb[2 * j] as nat * vw[2 * j] as nat && r.0[j]
                < p_nat() * mont_radix(),
        forall|j: int|
            0 <= j < 8 ==> #[trigger] r.1[j] == vb[2 * j + 1] as nat * vw[2 * j + 1] as nat
                && r.1[j] < p_nat() * mont_radix(),
{
    let mut even = [0u64; 8];
    let mut odd = [0u64; 8];
    let mut j: usize = 0;
    while j < 8
        invariant
            0 <= j <= 8,
            all_residues(vb@),
            all_residues(vw@),
            forall|q: int|
                0 <= q < j ==> #[trigger] even[q] == vb[2 * q] as nat * vw[2 * q] as nat
                    && even[q] < p_nat() * mont_radix(),
            forall|q: int|
                0 <= q < j ==> #[trigger] odd[q] == vb[2 * q + 1] as nat * vw[2 * q + 1] as nat
                    && odd[q] < p_nat() * mont_radix(),
        decreases 8 - j,
    {
        assert(vb[2 * j as int] < BABYBEAR_P && vw[2 * j as int] < BABYBEAR_P);
        assert(vb[2 * j as int + 1] < BABYBEAR_P && vw[2 * j as int + 1] < BABYBEAR_P);
        proof {
            law_scalar_mul_matches_oracle(vb[2 * j as int] as nat, vw[2 * j as int] as nat);
            law_scalar_mul_matches_oracle(vb[2 * j as int + 1] as nat, vw[2 * j as int + 1] as nat);
            crate::field::babybear::canonical::lemma_residue_product_bound(
                vb[2 * j as int] as nat,
                vw[2 * j as int] as nat,
            );
            crate::field::babybear::canonical::lemma_residue_product_bound(
                vb[2 * j as int + 1] as nat,
                vw[2 * j as int + 1] as nat,
            );
        }
        even[j] = (vb[2 * j] as u64) * (vw[2 * j] as u64);
        odd[j] = (vb[2 * j + 1] as u64) * (vw[2 * j + 1] as u64);
        j = j + 1;
    }
    (even, odd)
}

/// The even/odd reduction results recombined by the unpack / cross-lane
/// permute / block shuffle chain of the baseline kernel.
pub(crate) fn interleave_chain(red_even: [u32; 8], red_odd: [u32; 8]) -> (r: [u32; 16])
    ensures
        forall|j: int| 0 <= j < 8 ==> #[trigger] r[2 * j] == red_even[j],
        forall|j: int| 0 <= j < 8 ==> #[trigger] r[2 * j + 1] == red_odd[j],
{
    // unpacklo/unpackhi interleave within each 128-bit half.
    let lo: [u32; 8] = [
        red_even[0],
        red_odd[0],
        red_even[1],
        red_odd[1],
        red_even[4],
        red_odd[4],
        red_even[5],
        red_odd[5],
    ];
    let hi: [u32; 8] = [
        red_even[2],
        red_odd[2],
        red_even[3],
        red_odd[3],
        red_even[6],
        red_odd[6],
        red_even[7],
        red_odd[7],
    ];
    // permute2x128 0x20: low halves of lo and hi; 0x31: high halves.
    let lower: [u32; 8] = [lo[0], lo[1], lo[2], lo[3], hi[0], hi[1], hi[2], hi[3]];
    let upper: [u32; 8] = [lo[4], lo[5], lo[6], lo[7], hi[4], hi[5], hi[6], hi[7]];
    // shuffle_i32x4 0x44: blocks 0,1 of the first operand then 0,1 of the second.
    let out: [u32; 16] = [
        lower[0],
        lower[1],
        lower[2],
        lower[3],
        lower[4],
        lower[5],
        lower[6],
        lower[7],
        upper[0],
        upper[1],
        upper[2],
        upper[3],
        upper[4],
        upper[5],
        upper[6],
        upper[7],
    ];
    assert(forall|j: int| 0 <= j < 8 ==> #[trigger] out[2 * j] == red_even[j]) by {
        assert forall|j: int| 0 <= j < 8 implies #[trigger] out[2 * j] == red_even[j] by {
            if j == 0 {} else if j == 1 {} else if j == 2 {} else if j == 3 {} else if j == 4 {} else if j == 5 {} else if j == 6 {} else {}
        }
    }
    assert(forall|j: int| 0 <= j < 8 ==> #[trigger] out[2 * j + 1] == red_odd[j]) by {
        assert forall|j: int| 0 <= j < 8 implies #[trigger] out[2 * j + 1] == red_odd[j] by {
            if j == 0 {} else if j == 1 {} else if j == 2 {} else if j == 3 {} else if j == 4 {} else if j == 5 {} else if j == 6 {} else {}
        }
    }
    out
}

/// 16-lane Montgomery multiplication `b * w` (all in the Montgomery domain).
///
/// Even lanes and odd lanes are multiplied into 64-bit products and reduced
/// as two groups of 8, then interleaved back into natural lane order.
fn mont_mul_16(vb: [u32; 16], vw: [u32; 16]) -> (r: [u32; 16])
    requires
        all_residues(vb@),
        all_residues(vw@),
    ensures
        forall|i: int| 0 <= i < 16 ==> #[trigger] r[i] as nat == mont_mul_spec(
            vb[i] as nat,
            vw[i] as nat,
        ),
        all_residues(r@),
{
    let (prod_even, prod_odd) = split_products(vb, vw);
    let red_even = mont_reduce_epu64(prod_even);
    let red_odd = mont_reduce_epu64(prod_odd);
    let out = interleave_chain(red_even, red_odd);
    proof {
        assert forall|k: int| 0 <= k < 16 implies #[trigger] out[k] as nat == mont_mul_spec(
            vb[k] as nat,
            vw[k] as nat,
        ) && out[k] < BABYBEAR_P by {
            let q = k / 2;
            if k % 2 == 0 {
                assert(k == 2 * q);
                assert(out[2 * q] == red_even[q]);
            } else {
                assert(k == 2 * q + 1);
                assert(out[2 * q + 1] == red_odd[q]);
            }
            law_scalar_mul_matches_oracle(vb[k] as nat, vw[k] as nat);
        }
    }
    out
}

/// 16-lane radix-2 DIF butterfly: lane `i` of the result is
/// `butterfly(va[i], vb[i], vw[i])`.
pub fn avx512_radix2_butterfly_32(va: [u32; 16], vb: [u32; 16], vw: [u32; 16]) -> (r: (
    [u32; 16],
    [u32; 16],
))
    requires
        all_residues(va@),
        all_residues(vb@),
        all_residues(vw@),
    ensures
        forall|i: int|
            0 <= i < 16 ==> (#[trigger] r.0[i] as nat, r.1[i] as nat) == butterfly_spec(
                va[i] as nat,
                vb[i] as nat,
                vw[i] as nat,
            ),
        all_residues(r.0@),
        all_residues(r.1@),
{
    let mut a_new = [0u32; 16];
    let mut diff = [0u32; 16];
    let mut i: usize = 0;
    while i < 16
        invariant
            0 <= i <= 16,
            all_residues(va@),
            all_residues(vb@),
            forall|k: int|
                0 <= k < i ==> #[trigger] a_new[k] as nat == butterfly_spec(
                    va[k] as nat,
                    vb[k] as nat,
                    0,
                ).0 && a_new[k] < BABYBEAR_P,
            forall|k: int|
                0 <= k < i ==> #[trigger] diff[k] as nat == crate::field::babybear::reference::sub_mod_spec(
                    va[k] as nat,
                    vb[k] as nat,
                ) && diff[k] < BABYBEAR_P,
        decreases 16 - i,
    {
        let a = va[i];
        let b = vb[i];
        assert(a < BABYBEAR_P && b < BABYBEAR_P);
        let sum = a + b;
        proof {
            if a + b >= BABYBEAR_P {
                lemma_mod_subtraction_once((a + b) as nat);
            } else {
                lemma_small_mod((a + b) as nat, p_nat());
            }
            lemma_sub_mod_cases(a as nat, b as nat);
        }
        a_new[i] = if sum >= BABYBEAR_P {
            sum - BABYBEAR_P
        } else {
            sum
        };
        diff[i] = if a >= b {
            a - b
        } else {
            a + BABYBEAR_P - b
        };
        i = i + 1;
    }
    assert(all_residues(diff@));
    let b_new = mont_mul_16(diff, vw);
    (a_new, b_new)
}

/// The effect of a half/half butterfly pass over `n` values starting at
/// `offset`: pair `offset + i` with `offset + i + n/2` using `twiddles[i]`.
pub open spec fn butterfly_pass_spec(data: Seq<u32>, offset: nat, twiddles: Seq<u32>, n: nat) -> Seq<
    u32,
> {
    let n2 = n / 2;
    Seq::new(
        data.len(),
        |k: int|
            if offset <= k < offset + n2 {
                butterfly_spec(
                    data[k] as nat,
                    data[k + n2] as nat,
                    twiddles[k - offset] as nat,
                ).0 as u32
            } else if offset + n2 <= k < offset + 2 * n2 {
                butterfly_spec(
                    data[k - n2] as nat,
                    data[k] as nat,
                    twiddles[k - offset - n2] as nat,
                ).1 as u32
            } else {
                data[k]
            },
    )
}

/// Full butterfly pass over `data[offset .. offset + n]` in half/half
/// layout: blocks of 16 lanes go through the 16-lane butterfly, the tail
/// through the scalar butterfly.
pub fn avx512_butterfly_pass_32(data: &mut [u32], offset: usize, twiddles: &[u32], n: usize)
    requires
        offset + n <= old(data)@.len(),
        twiddles@.len() >= n / 2,
        forall|k: int| offset <= k < offset + n ==> #[trigger] old(data)@[k] < BABYBEAR_P,
        forall|k: int| 0 <= k < n / 2 ==> #[trigger] twiddles@[k] < BABYBEAR_P,
    ensures
        final(data)@ == butterfly_pass_spec(old(data)@, offset as nat, twiddles@, n as nat),
{
    let n2 = n / 2;
    let len = data.len();
    let ghost d0 = data@;
    let mut i: usize = 0;
    while i + 16 <= n2
        invariant
            data@.len() == d0.len(),
            d0.len() == len,
            offset + n <= d0.len(),
            n2 == n / 2,
            i <= n2,
            twiddles@.len() >= n2,
            forall|k: int| offset <= k < offset + n ==> #[trigger] d0[k] < BABYBEAR_P,
            forall|k: int| 0 <= k < n2 ==> #[trigger] twiddles@[k] < BABYBEAR_P,
            forall|k: int|
                0 <= k < data@.len() ==> #[trigger] data@[k] == if offset <= k < offset + i
                    || offset + n2 <= k < offset + n2 + i {
                    butterfly_pass_spec(d0, offset as nat, twiddles@, n as nat)[k]
                } else {
                    d0[k]
                },
        decreases n2 - i,
    {
        let mut va = [0u32; 16];
        let mut vb = [0u32; 16];
        let mut vw = [0u32; 16];
        let mut l: usize = 0;
        while l < 16
            invariant
                0 <= l <= 16,
                i + 16 <= n2,
                n2 == n / 2,
                offset + n <= d0.len(),
                d0.len() == len,
                data@.len() == d0.len(),
                twiddles@.len() >= n2,
                forall|k: int| 0 <= k < l ==> #[trigger] va[k] == data@[offset + i + k],
                forall|k: int| 0 <= k < l ==> #[trigger] vb[k] == data@[offset + i + n2 + k],
                forall|k: int| 0 <= k < l ==> #[trigger] vw[k] == twiddles@[i + k],
            decreases 16 - l,
        {
            va[l] = data[offset + i + l];
            vb[l] = data[offset + i + n2 + l];
            vw[l] = twiddles[i + l];
            l = l + 1;
        }
        assert forall|k: int| 0 <= k < 16 implies va[k] == d0[offset + i + k] && vb[k] == d0[
            offset + i + n2 + k] by {
            assert(data@[offset + i + k] == d0[offset + i + k]);
            assert(data@[offset + i + n2 + k] == d0[offset + i + n2 + k]);
        }
        assert(all_residues(va@)) by {
            assert forall|k: int| 0 <= k < 16 implies #[trigger] va@[k] < BABYBEAR_P by {
                assert(d0[offset + i + k] < BABYBEAR_P);
            }
        }
        assert(all_residues(vb@)) by {
            assert forall|k: int| 0 <= k < 16 implies #[trigger] vb@[k] < BABYBEAR_P by {
                assert(d0[offset + i + n2 + k] < BABYBEAR_P);
            }
        }
        assert(all_residues(vw@)) by {
            assert forall|k: int| 0 <= k < 16 implies #[trigger] vw@[k] < BABYBEAR_P by {
                assert(twiddles@[i + k] < BABYBEAR_P);
            }
        }
        let (ra, rb) = avx512_radix2_butterfly_32(va, vb, vw);
        let ghost dmid = data@;
        let mut l2: usize = 0;
        while l2 < 16
            invariant
                0 <= l2 <= 16,
                i + 16 <= n2,
                n2 == n / 2,
                offset + n <= d0.len(),
                d0.len() == len,
                data@.len() == d0.len(),
                forall|k: int|
                    0 <= k < data@.len() ==> #[trigger] data@[k] == if offset + i <= k < offset
                        + i + l2 {
                        ra[k - offset - i]
                    } else if offset + n2 + i <= k < offset + n2 + i + l2 {
                        rb[k - offset - n2 - i]
                    } else {
                        dmid[k]
                    },
            decreases 16 - l2,
        {
            data[offset + i + l2] = ra[l2];
            data[offset + i + n2 + l2] = rb[l2];
            l2 = l2 + 1;
        }
        assert forall|k: int| 0 <= k < data@.len() implies #[trigger] data@[k] == if offset <= k
            < offset + (i + 16) || offset + n2 <= k < offset + n2 + (i + 16) {
            butterfly_pass_spec(d0, offset as nat, twiddles@, n as nat)[k]
        } else {
            d0[k]
        } by {
            if offset + i <= k < offset + i + 16 {
                let q = k - offset - i;
                assert((ra[q] as nat, rb[q] as nat) == butterfly_spec(
                    va[q] as nat,
                    vb[q] as nat,
                    vw[q] as nat,
                ));
            } else if offset + n2 + i <= k < offset + n2 + i + 16 {
                let q = k - offset - n2 - i;
                assert((ra[q] as nat, rb[q] as nat) == butterfly_spec(
                    va[q] as nat,
                    vb[q] as nat,
                    vw[q] as nat,
                ));
            }
        }
        i = i + 16;
    }
    while i < n2
        invariant
            data@.len() == d0.len(),
            d0.len() == len,
            offset + n <= d0.len(),
            n2 == n / 2,
            i <= n2,
            twiddles@.len() >= n2,
            forall|k: int| offset <= k < offset + n ==> #[trigger] d0[k] < BABYBEAR_P,
            forall|k: int| 0 <= k < n2 ==> #[trigger] twiddles@[k] < BABYBEAR_P,
            forall|k: int|
                0 <= k < data@.len() ==> #[trigger] data@[k] == if offset <= k < offset + i
                    || offset + n2 <= k < offset + n2 + i {
                    butterfly_pass_spec(d0, offset as nat, twiddles@, n as nat)[k]
                } else {
                    d0[k]
                },
        decreases n2 - i,
    {
        let a = data[offset + i];
        let b = data[offset + i + n2];
        let w = twiddles[i];
        assert(a == d0[offset + i]);
        assert(b == d0[offset + i + n2]);
        assert(d0[offset + i] < BABYBEAR_P);
        assert(d0[offset + i + n2] < BABYBEAR_P);
        let (a_new, b_new) = scalar_butterfly_32(a, b, w);
        data[offset + i] = a_new;
        data[offset + i + n2] = b_new;
        i = i + 1;
    }
    assert(data@ =~= butterfly_pass_spec(d0, offset as nat, twiddles@, n as nat));
}

/// The 16-lane kernels need both AVX-512F and AVX-512DQ: supported exactly
/// when the CPU reports both.
pub fn is_avx512_supported(avx512f: bool, avx512dq: bool) -> (r: bool)
    ensures
        r == (avx512f && avx512dq),
{
    avx512f && avx512dq
}

} // verus!
