//! The DFT adapter: routes a two-adic subgroup DFT over BabyBear through the
//! DIF radix-2 NTT on raw Montgomery values, with a choice of three
//! backends and a tracker that records which backend actually ran.
use crate::avx512_butterfly_32bit::all_residues;
use crate::field::babybear::canonical::{CanonicalBabyBear, MontgomeryBabyBear};
use crate::field::babybear::constants::{
    lemma_constants_consistent, mont_radix, p_nat, BABYBEAR_P, BABYBEAR_R_MOD_P,
};
use crate::dft::{
    decode, dft_spec, lemma_cong_mul, lemma_decode_encode, lemma_decode_mont_mul, lemma_modp_idem,
    law_ntt_is_dft, modp, twiddles_are_powers,
};
use crate::field::babybear::canonical::law_montgomery_roundtrip;
use crate::field::babybear::montgomery::mont_mul_spec;
use crate::field::babybear::reference::{from_mont_spec, to_mont_spec};
use crate::ntt::{
    bit_reverse, bit_reverse_spec, lemma_bit_rev_bound, ntt_avx512, ntt_reference, ntt_scalar, ntt_stages_spec,
    stage_half, trailing_zeros_of, trailing_zeros_spec, twiddles_fit,
};
use crate::text::{contains_spec, str_contains};
use p3_field::{PrimeField32, TwoAdicField};
use vstd::arithmetic::div_mod::*;
use vstd::arithmetic::mul::*;
use vstd::arithmetic::power::*;
use vstd::arithmetic::power2::*;
use vstd::bits::*;
use vstd::prelude::*;

verus! {

/// The canonical value of the two-adic generator of order `2^bits`.
pub uninterp spec fn two_adic_generator_spec(bits: usize) -> u32;

/// `BabyBear::two_adic_generator(bits)`, read back with
/// `as_canonical_u32`: a canonical residue (below `p`). The crate asserts
/// `bits <= 27` and documents the result as a generator of the subgroup of
/// order `2^bits`, so for `bits >= 1` its `2^(bits-1)`-th power is the
/// element of order two, `-1 = p - 1`. Which generator it returns is named,
/// not stated.
#[verifier::external_body]
fn two_adic_generator_canonical(bits: usize) -> (r: u32)
    requires
        bits <= 27,
    ensures
        r == two_adic_generator_spec(bits),
        r < BABYBEAR_P,
        bits >= 1 ==> modp(pow(r as int, pow2((bits - 1) as nat))) == p_nat() - 1,
{
    p3_baby_bear::BabyBear::two_adic_generator(bits).as_canonical_u32()
}

/// `base` to the `e`-th power in the Montgomery domain, starting from the
/// encoding of one and multiplying by `base` `e` times.
pub open spec fn mont_pow_spec(base: nat, e: nat) -> nat
    decreases e,
{
    if e == 0 {
        to_mont_spec(1)
    } else {
        mont_mul_spec(mont_pow_spec(base, (e - 1) as nat), base)
    }
}

/// The root used by stage `s`: `g` squared `s` times (Montgomery domain).
pub open spec fn stage_root_spec(g: nat, s: nat) -> nat
    decreases s,
{
    if s == 0 {
        g
    } else {
        let r = stage_root_spec(g, (s - 1) as nat);
        mont_mul_spec(r, r)
    }
}

/// The Montgomery encoding of the generator of order `2^log_n`.
pub open spec fn generator_mont_spec(log_n: usize) -> nat {
    to_mont_spec(two_adic_generator_spec(log_n) as nat)
}

/// The twiddle tables of a `2^log_n`-point DIF NTT: stage `s` holds
/// `2^log_n / 2^(s+1)` values, the `i`-th being the stage root to the `i`.
pub open spec fn twiddle_tables_spec(log_n: usize, t: Seq<Vec<u32>>) -> bool {
    &&& t.len() == log_n
    &&& forall|s: int|
        0 <= s < log_n ==> (#[trigger] t[s]@).len() == pow2(log_n as nat) / pow2((s + 1) as nat)
    &&& forall|s: int, i: int|
        0 <= s < log_n && 0 <= i < t[s]@.len() ==> #[trigger] t[s]@[i] as nat == mont_pow_spec(
            stage_root_spec(generator_mont_spec(log_n), s as nat),
            i as nat,
        )
}

proof fn lemma_mont_one()
    ensures
        to_mont_spec(1) == BABYBEAR_R_MOD_P as nat,
        to_mont_spec(1) < p_nat(),
{
    lemma_constants_consistent();
    assert(1 * mont_radix() == mont_radix());
}

/// Computes the twiddle tables of a `2^log_n`-point DIF NTT from the
/// field's two-adic generator.
pub fn compute_twiddles(log_n: usize) -> (r: Vec<Vec<u32>>)
    requires
        log_n <= 27,
    ensures
        twiddle_tables_spec(log_n, r@),
        twiddles_are_powers(r@, two_adic_generator_spec(log_n) as int, pow2(log_n as nat)),
        log_n >= 1 ==> modp(pow(two_adic_generator_spec(log_n) as int, pow2(log_n as nat) / 2))
            == p_nat() - 1,
{
    proof {
        lemma2_to64();
        lemma_pow2_strictly_increases(log_n as nat, 32);
        lemma_usize_shl_is_mul(1, log_n);
        lemma_mont_one();
    }
    let n: usize = 1usize << log_n;
    let gen = CanonicalBabyBear::new_unchecked(two_adic_generator_canonical(log_n));
    let g = gen.to_montgomery();
    let ghost gm = generator_mont_spec(log_n);
    assert(g.0 as nat == gm);
    let mut out: Vec<Vec<u32>> = Vec::new();
    let mut s: usize = 0;
    while s < log_n
        invariant
            s <= log_n,
            log_n <= 27,
            n == pow2(log_n as nat),
            g.0 as nat == gm,
            g.0 < BABYBEAR_P,
            gm == generator_mont_spec(log_n),
            out@.len() == s,
            forall|t: int|
                0 <= t < s ==> (#[trigger] out@[t]@).len() == pow2(log_n as nat) / pow2(
                    (t + 1) as nat,
                ),
            forall|t: int, i: int|
                0 <= t < s && 0 <= i < out@[t]@.len() ==> #[trigger] out@[t]@[i] as nat
                    == mont_pow_spec(stage_root_spec(gm, t as nat), i as nat),
        decreases log_n - s,
    {
        proof {
            lemma_usize_shr_is_div(n, (s + 1) as usize);
        }
        let half_len = n >> (s + 1);
        let mut g_s = g;
        let mut k: usize = 0;
        while k < s
            invariant
                k <= s,
                g_s.0 as nat == stage_root_spec(gm, k as nat),
                g_s.0 < BABYBEAR_P,
            decreases s - k,
        {
            g_s = g_s.montgomery_mul(g_s);
            k += 1;
        }
        let mut stage: Vec<u32> = Vec::new();
        let mut tw = MontgomeryBabyBear::new(BABYBEAR_R_MOD_P);
        let mut i: usize = 0;
        while i < half_len
            invariant
                i <= half_len,
                g_s.0 as nat == stage_root_spec(gm, s as nat),
                g_s.0 < BABYBEAR_P,
                tw.0 < BABYBEAR_P,
                tw.0 as nat == mont_pow_spec(g_s.0 as nat, i as nat),
                stage@.len() == i,
                forall|j: int|
                    0 <= j < i ==> #[trigger] stage@[j] as nat == mont_pow_spec(
                        g_s.0 as nat,
                        j as nat,
                    ),
            decreases half_len - i,
        {
            stage.push(tw.0);
            tw = tw.montgomery_mul(g_s);
            i += 1;
        }
        let ghost before = out@;
        out.push(stage);
        assert forall|t: int, j: int|
            0 <= t < s + 1 && 0 <= j < out@[t]@.len() implies #[trigger] out@[t]@[j] as nat
            == mont_pow_spec(stage_root_spec(gm, t as nat), j as nat) by {
            if t < s {
                assert(out@[t] == before[t]);
            }
        }
        assert forall|t: int|
            0 <= t < s + 1 implies (#[trigger] out@[t]@).len() == pow2(log_n as nat) / pow2(
                (t + 1) as nat,
            ) by {
            if t < s {
                assert(out@[t] == before[t]);
            }
        }
        s += 1;
    }
    proof {
        lemma_tables_are_powers(log_n, out@);
        if log_n >= 1 {
            lemma_pow2_unfold(log_n as nat);
            lemma_div_multiples_vanish(pow2((log_n - 1) as nat) as int, 2);
        }
    }
    out
}

/// The Montgomery power decodes to the power of the decoded base.
proof fn lemma_decode_mont_pow(base: nat, e: nat)
    ensures
        from_mont_spec(mont_pow_spec(base, e)) as int == modp(pow(from_mont_spec(base) as int, e)),
    decreases e,
{
    let db = from_mont_spec(base) as int;
    if e == 0 {
        law_montgomery_roundtrip(1);
        lemma_pow0(db);
        lemma_small_mod(1, p_nat());
    } else {
        let u = (e - 1) as nat;
        lemma_decode_mont_pow(base, u);
        let mp = mont_pow_spec(base, u);
        lemma_decode_mont_mul(mp, base);
        lemma_modp_idem(pow(db, u));
        lemma_modp_idem(db);
        lemma_mod_bound(((base * 0x3840_0000nat) as int), p_nat() as int);
        lemma_small_mod(db as nat, p_nat());
        lemma_cong_mul(modp(pow(db, u)), db, pow(db, u), db);
        lemma_pow_adds(db, u, 1);
        lemma_pow1(db);
    }
}

/// The stage root decodes to the decoded generator raised to `2^s`.
proof fn lemma_decode_stage_root(gm: nat, s: nat)
    ensures
        from_mont_spec(stage_root_spec(gm, s)) as int == modp(pow(from_mont_spec(gm) as int, pow2(s))),
    decreases s,
{
    let dg = from_mont_spec(gm) as int;
    if s == 0 {
        lemma2_to64();
        lemma_pow1(dg);
        lemma_mod_bound(((gm * 0x3840_0000nat) as int), p_nat() as int);
        lemma_small_mod(dg as nat, p_nat());
    } else {
        let u = (s - 1) as nat;
        lemma_decode_stage_root(gm, u);
        let r = stage_root_spec(gm, u);
        lemma_decode_mont_mul(r, r);
        let q = pow(dg, pow2(u));
        lemma_modp_idem(q);
        lemma_cong_mul(modp(q), modp(q), q, q);
        lemma_pow_adds(dg, pow2(u), pow2(u));
        lemma_pow2_unfold(s);
    }
}

/// Twiddle tables built from the generator hold its powers: entry `i` of
/// stage `s` decodes to `g^(i * 2^s) mod p`.
proof fn lemma_tables_are_powers(log_n: usize, t: Seq<Vec<u32>>)
    requires
        twiddle_tables_spec(log_n, t),
    ensures
        twiddles_are_powers(t, two_adic_generator_spec(log_n) as int, pow2(log_n as nat)),
{
    let g = two_adic_generator_spec(log_n) as int;
    let gm = generator_mont_spec(log_n);
    let n = pow2(log_n as nat);
    let p = p_nat() as int;
    assert forall|s: int, i: int|
        0 <= s < t.len() && 0 <= i < stage_half(n, s as nat) implies #[trigger] from_mont_spec(
        t[s]@[i] as nat,
    ) as int == modp(pow(g, (i * pow2(s as nat)) as nat)) by {
        let root = stage_root_spec(gm, s as nat);
        assert(t[s]@.len() == stage_half(n, s as nat));
        assert(t[s]@[i] as nat == mont_pow_spec(root, i as nat));
        lemma_decode_mont_pow(root, i as nat);
        lemma_decode_stage_root(gm, s as nat);
        lemma_decode_encode(g as nat);
        let dg = from_mont_spec(gm) as int;
        assert(dg == modp(g));
        let q = pow(dg, pow2(s as nat));
        lemma_pow_mod_noop(q, i as nat, p);
        lemma_pow_multiplies(dg, pow2(s as nat), i as nat);
        lemma_pow_mod_noop(g, pow2(s as nat) * (i as nat), p);
        assert(pow2(s as nat) * (i as nat) == (i * pow2(s as nat)) as nat) by (nonlinear_arith)
            requires
                i >= 0,
        ;
    }
}

proof fn lemma_mont_pow_residue(base: nat, e: nat)
    ensures
        mont_pow_spec(base, e) < p_nat(),
    decreases e,
{
    lemma_mont_one();
    lemma_constants_consistent();
    if e > 0 {
        lemma_mod_bound((mont_pow_spec(base, (e - 1) as nat) * base * 0x3840_0000nat) as int, p_nat() as int);
    }
}

/// Tables that meet the twiddle spec fit a `2^log_n`-point transform.
proof fn lemma_tables_fit(log_n: usize, t: Seq<Vec<u32>>)
    requires
        twiddle_tables_spec(log_n, t),
    ensures
        twiddles_fit(pow2(log_n as nat), t),
{
    assert forall|s: int| 0 <= s < t.len() implies #[trigger] t[s]@.len() >= stage_half(
        pow2(log_n as nat),
        s as nat,
    ) && all_residues(t[s]@) by {
        assert(t[s]@.len() == pow2(log_n as nat) / pow2((s + 1) as nat));
        assert forall|i: int| 0 <= i < t[s]@.len() implies #[trigger] t[s]@[i] < BABYBEAR_P by {
            lemma_mont_pow_residue(stage_root_spec(generator_mont_spec(log_n), s as nat), i as nat);
            lemma_constants_consistent();
        }
    }
}

/// The NTT stages only read the tables' values.
proof fn lemma_stages_same_tables(data: Seq<u32>, a: Seq<Vec<u32>>, b: Seq<Vec<u32>>, k: nat)
    requires
        k <= a.len(),
        a.len() == b.len(),
        forall|s: int| 0 <= s < a.len() ==> (#[trigger] a[s])@ == b[s]@,
    ensures
        ntt_stages_spec(data, a, k) == ntt_stages_spec(data, b, k),
    decreases k,
{
    if k > 0 {
        lemma_stages_same_tables(data, a, b, (k - 1) as nat);
        assert(a[k - 1]@ == b[k - 1]@);
    }
}

/// Two tables that both meet the twiddle spec hold the same values.
proof fn lemma_tables_unique(log_n: usize, a: Seq<Vec<u32>>, b: Seq<Vec<u32>>)
    requires
        twiddle_tables_spec(log_n, a),
        twiddle_tables_spec(log_n, b),
    ensures
        forall|s: int| 0 <= s < a.len() ==> (#[trigger] a[s])@ == b[s]@,
{
    assert forall|s: int| 0 <= s < a.len() implies (#[trigger] a[s])@ == b[s]@ by {
        assert(a[s]@.len() == b[s]@.len());
        assert forall|i: int| 0 <= i < a[s]@.len() implies a[s]@[i] == b[s]@[i] by {
            assert(a[s]@[i] as nat == b[s]@[i] as nat);
        }
        assert(a[s]@ =~= b[s]@);
    }
}

/// Which NTT backend to run.
#[derive(Clone, Copy, Debug, Default, PartialEq, Eq, Structural)]
pub enum NttBackend {
    #[default]
    Reference,
    Scalar,
    Avx512,
}

/// How many times each backend actually ran, and whether the 16-lane
/// backend was available.
#[derive(Clone, Copy, Debug, Default, PartialEq, Eq, Structural)]
pub struct BackendCallTracker {
    pub reference_calls: u64,
    pub scalar_calls: u64,
    pub avx512_calls: u64,
    pub avx512_available: bool,
}

/// The DFT adapter: a backend choice and its call tracker.
#[derive(Clone, Copy, Debug, Default)]
pub struct ZkshaDifAdapter {
    pub backend: NttBackend,
    pub tracker: BackendCallTracker,
}

/// The counters can take `calls` more calls of any backend.
pub open spec fn tracker_has_room(t: BackendCallTracker, calls: nat) -> bool {
    t.reference_calls + calls <= u64::MAX && t.scalar_calls + calls <= u64::MAX && t.avx512_calls
        + calls <= u64::MAX
}

/// The tracker after `calls` runs with `backend`: off x86-64 every backend
/// runs (and counts as) the reference NTT; on x86-64 the 16-lane backend
/// falls back to the scalar one when it is not available.
pub open spec fn tracked_spec(
    t: BackendCallTracker,
    backend: NttBackend,
    on_x86_64: bool,
    avx512_available: bool,
    calls: nat,
) -> BackendCallTracker {
    if !on_x86_64 || backend == NttBackend::Reference {
        BackendCallTracker { reference_calls: (t.reference_calls + calls) as u64, ..t }
    } else {
        match backend {
        NttBackend::Reference => t,
        NttBackend::Scalar => BackendCallTracker { scalar_calls: (t.scalar_calls + calls) as u64, ..t },
        NttBackend::Avx512 => if avx512_available {
            BackendCallTracker { avx512_calls: (t.avx512_calls + calls) as u64, ..t }
        } else {
            BackendCallTracker { scalar_calls: (t.scalar_calls + calls) as u64, ..t }
        },
        }
    }
}

/// Column `c` of a row-major matrix of width `w`.
pub open spec fn column_spec(values: Seq<u32>, w: nat, c: nat) -> Seq<u32> {
    Seq::new(values.len() / w, |r: int| values[r * w + c])
}

/// A DFT height the adapter accepts: a power of two up to `2^27`.
pub open spec fn dft_height_ok(h: nat) -> bool {
    1 <= h <= pow2(27) && h == pow2(trailing_zeros_spec(h))
}

/// The DFT of one column: the DIF NTT with the generator's twiddles,
/// followed by the bit-reversal permutation.
pub open spec fn column_dft_spec(col: Seq<u32>, log_h: usize, t: Seq<Vec<u32>>) -> Seq<u32> {
    bit_reverse_spec(ntt_stages_spec(col, t, log_h as nat), log_h as nat)
}

impl ZkshaDifAdapter {
    pub fn reference() -> (r: Self)
        ensures
            r.backend == NttBackend::Reference,
            r.tracker == (BackendCallTracker {
                reference_calls: 0,
                scalar_calls: 0,
                avx512_calls: 0,
                avx512_available: false,
            }),
    {
        ZkshaDifAdapter {
            backend: NttBackend::Reference,
            tracker: BackendCallTracker {
                reference_calls: 0,
                scalar_calls: 0,
                avx512_calls: 0,
                avx512_available: false,
            },
        }
    }

    pub fn scalar() -> (r: Self)
        ensures
            r.backend == NttBackend::Scalar,
            r.tracker == (BackendCallTracker {
                reference_calls: 0,
                scalar_calls: 0,
                avx512_calls: 0,
                avx512_available: false,
            }),
    {
        ZkshaDifAdapter {
            backend: NttBackend::Scalar,
            tracker: BackendCallTracker {
                reference_calls: 0,
                scalar_calls: 0,
                avx512_calls: 0,
                avx512_available: false,
            },
        }
    }

    /// The 16-lane adapter; `avx512_available` records whether the CPU
    /// supports it.
    pub fn avx512(avx512_available: bool) -> (r: Self)
        ensures
            r.backend == NttBackend::Avx512,
            r.tracker == (BackendCallTracker {
                reference_calls: 0,
                scalar_calls: 0,
                avx512_calls: 0,
                avx512_available,
            }),
    {
        ZkshaDifAdapter {
            backend: NttBackend::Avx512,
            tracker: BackendCallTracker {
                reference_calls: 0,
                scalar_calls: 0,
                avx512_calls: 0,
                avx512_available,
            },
        }
    }

    /// Runs the NTT with the selected backend and counts the call. Off
    /// x86-64 (`on_x86_64` false) every backend runs the reference NTT; on
    /// x86-64 the 16-lane backend falls back to the scalar one when
    /// `avx512_available` is false.
    pub fn run_ntt(
        &mut self,
        data: &mut [u32],
        twiddles: &[Vec<u32>],
        on_x86_64: bool,
        avx512_available: bool,
    )
        requires
            twiddles@.len() < usize::BITS,
            all_residues(old(data)@),
            twiddles_fit(old(data)@.len(), twiddles@),
            tracker_has_room(old(self).tracker, 1),
        ensures
            final(data)@ == ntt_stages_spec(old(data)@, twiddles@, twiddles@.len()),
            all_residues(final(data)@),
            final(self).backend == old(self).backend,
            final(self).tracker == tracked_spec(
                old(self).tracker,
                old(self).backend,
                on_x86_64,
                avx512_available,
                1,
            ),
    {
        if !on_x86_64 {
            ntt_reference(data, twiddles);
            self.tracker.reference_calls = self.tracker.reference_calls + 1;
            return;
        }
        match self.backend {
            NttBackend::Reference => {
                ntt_reference(data, twiddles);
                self.tracker.reference_calls = self.tracker.reference_calls + 1;
            },
            NttBackend::Scalar => {
                ntt_scalar(data, twiddles);
                self.tracker.scalar_calls = self.tracker.scalar_calls + 1;
            },
            NttBackend::Avx512 => {
                if avx512_available {
                    ntt_avx512(data, twiddles);
                    self.tracker.avx512_calls = self.tracker.avx512_calls + 1;
                } else {
                    ntt_scalar(data, twiddles);
                    self.tracker.scalar_calls = self.tracker.scalar_calls + 1;
                }
            },
        }
    }
}

proof fn lemma_cell(r: int, c: int, w: int, h: int)
    requires
        0 <= r < h,
        0 <= c < w,
    ensures
        0 <= r * w + c < h * w,
        (r * w + c) / w == r,
        (r * w + c) % w == c,
{
    lemma_fundamental_div_mod_converse(r * w + c, w, r, c);
    assert(r * w + c < h * w) by (nonlinear_arith)
        requires
            0 <= r < h,
            0 <= c < w,
    ;
    assert(0 <= r * w) by (nonlinear_arith)
        requires
            0 <= r,
            0 <= w,
    ;
}

proof fn lemma_stages_len(data: Seq<u32>, t: Seq<Vec<u32>>, k: nat)
    ensures
        ntt_stages_spec(data, t, k).len() == data.len(),
    decreases k,
{
    if k > 0 {
        lemma_stages_len(data, t, (k - 1) as nat);
    }
}

proof fn lemma_bit_reverse_residues(data: Seq<u32>, b: nat)
    requires
        all_residues(data),
        pow2(b) <= data.len(),
    ensures
        all_residues(bit_reverse_spec(data, b)),
{
    let out = bit_reverse_spec(data, b);
    assert forall|k: int| 0 <= k < out.len() implies #[trigger] out[k] < BABYBEAR_P by {
        if k < pow2(b) {
            lemma_bit_rev_bound(k as nat, b);
        }
    }
}

impl ZkshaDifAdapter {
    /// Transforms every column of a row-major matrix with `width` columns:
    /// the DIF NTT with the generator's twiddles for the column height,
    /// then the bit-reversal permutation, one backend call per column.
    pub fn dft_batch(
        &mut self,
        values: &mut Vec<u32>,
        width: usize,
        on_x86_64: bool,
        avx512_available: bool,
    )
        requires
            width > 0,
            old(values)@.len() % (width as nat) == 0,
            dft_height_ok(old(values)@.len() / (width as nat)),
            all_residues(old(values)@),
            tracker_has_room(old(self).tracker, width as nat),
        ensures
            final(values)@.len() == old(values)@.len(),
            all_residues(final(values)@),
            final(self).backend == old(self).backend,
            final(self).tracker == tracked_spec(
                old(self).tracker,
                old(self).backend,
                on_x86_64,
                avx512_available,
                width as nat,
            ),
            forall|c: int, t: Seq<Vec<u32>>|
                #![trigger column_spec(final(values)@, width as nat, c as nat), twiddle_tables_spec(trailing_zeros_spec(old(values)@.len() / (width as nat)) as usize, t)]
                0 <= c < width && twiddle_tables_spec(
                    trailing_zeros_spec(old(values)@.len() / (width as nat)) as usize,
                    t,
                ) ==> column_spec(final(values)@, width as nat, c as nat) == column_dft_spec(
                    column_spec(old(values)@, width as nat, c as nat),
                    trailing_zeros_spec(old(values)@.len() / (width as nat)) as usize,
                    t,
                ),
            forall|c: int, k: int|
                0 <= c < width && 0 <= k < old(values)@.len() / (width as nat) ==> #[trigger]
                from_mont_spec(column_spec(final(values)@, width as nat, c as nat)[k] as nat) as int
                    == dft_spec(
                    decode(column_spec(old(values)@, width as nat, c as nat)),
                    two_adic_generator_spec(
                        trailing_zeros_spec(old(values)@.len() / (width as nat)) as usize,
                    ) as int,
                    k as nat,
                ),
    {
        let ghost v0 = values@;
        let ghost t0 = self.tracker;
        let n = values.len();
        let h = n / width;
        let log_h = trailing_zeros_of(h);
        proof {
            lemma_fundamental_div_mod(n as int, width as int);
            if log_h > 27 {
                lemma_pow2_strictly_increases(27, log_h as nat);
                assert(pow2(27) < pow2(log_h as nat));
            }
            assert(h * width == n);
        }
        let twiddles = compute_twiddles(log_h);
        proof {
            lemma_tables_fit(log_h, twiddles@);
            lemma2_to64();
        }
        let mut c: usize = 0;
        while c < width
            invariant
                0 < width,
                n == values@.len(),
                n == v0.len(),
                h == n / width,
                h * width == n,
                h == pow2(log_h as nat),
                log_h <= 27,
                log_h as nat == trailing_zeros_spec(h as nat),
                twiddle_tables_spec(log_h, twiddles@),
                twiddles_fit(h as nat, twiddles@),
                c <= width,
                all_residues(values@),
                self.backend == old(self).backend,
                self.tracker == tracked_spec(t0, self.backend, on_x86_64, avx512_available, c as nat),
                t0 == old(self).tracker,
                tracker_has_room(t0, width as nat),
                forall|cc: int|
                    0 <= cc < c ==> #[trigger] column_spec(values@, width as nat, cc as nat)
                        == column_dft_spec(column_spec(v0, width as nat, cc as nat), log_h, twiddles@),
                forall|cc: int|
                    c <= cc < width ==> #[trigger] column_spec(values@, width as nat, cc as nat)
                        == column_spec(v0, width as nat, cc as nat),
            decreases width - c,
        {
            let ghost before = values@;
            let mut col: Vec<u32> = Vec::new();
            let mut r: usize = 0;
            while r < h
                invariant
                    0 < width,
                    c < width,
                    n == values@.len(),
                    h * width == n,
                    h == n / width,
                    r <= h,
                    col@ == column_spec(values@, width as nat, c as nat).subrange(0, r as int),
                decreases h - r,
            {
                proof {
                    lemma_cell(r as int, c as int, width as int, h as int);
                }
                col.push(values[r * width + c]);
                assert(col@ =~= column_spec(values@, width as nat, c as nat).subrange(0, r + 1));
                r += 1;
            }
            let ghost col0 = col@;
            assert(col0 =~= column_spec(values@, width as nat, c as nat));
            assert(all_residues(col0)) by {
                assert forall|k: int| 0 <= k < col0.len() implies #[trigger] col0[k] < BABYBEAR_P by {
                    lemma_cell(k, c as int, width as int, h as int);
                    assert(col0[k] == values@[k * width + c]);
                }
            }
            self.run_ntt(col.as_mut_slice(), twiddles.as_slice(), on_x86_64, avx512_available);
            let ghost mid = col@;
            proof {
                lemma_stages_len(col0, twiddles@, log_h as nat);
                assert(mid.len() == h);
                if log_h == 0 {
                    assert(h == 1) by {
                        lemma2_to64();
                    }
                }
                assert(crate::ntt::bit_reverse_accepts(mid.len()));
            }
            bit_reverse(col.as_mut_slice());
            proof {
                lemma_bit_reverse_residues(mid, log_h as nat);
            }
            let ghost col1 = col@;
            assert(col1 == column_dft_spec(col0, log_h, twiddles@));
            let mut r: usize = 0;
            while r < h
                invariant
                    0 < width,
                    c < width,
                    n == values@.len(),
                    n == before.len(),
                    h * width == n,
                    h == n / width,
                    r <= h,
                    col@ == col1,
                    col1.len() == h,
                    forall|k: int|
                        0 <= k < n ==> #[trigger] values@[k] == if k % (width as int) == c && k
                            / (width as int) < r {
                            col1[k / (width as int)]
                        } else {
                            before[k]
                        },
                decreases h - r,
            {
                proof {
                    lemma_cell(r as int, c as int, width as int, h as int);
                }
                let idx = r * width + c;
                let x = col[r];
                values.set(idx, x);
                assert forall|k: int| 0 <= k < n implies #[trigger] values@[k] == if k % (
                width as int) == c && k / (width as int) < r + 1 {
                    col1[k / (width as int)]
                } else {
                    before[k]
                } by {
                    if k == idx {
                    } else if k % (width as int) == c && k / (width as int) == r {
                        lemma_fundamental_div_mod(k, width as int);
                        lemma_mul_is_commutative(width as int, r as int);
                        assert(k == idx);
                    }
                }
                r += 1;
            }
            proof {
                assert forall|cc: int| 0 <= cc < width implies #[trigger] column_spec(
                    values@,
                    width as nat,
                    cc as nat,
                ) == if cc == c {
                    col1
                } else {
                    column_spec(before, width as nat, cc as nat)
                } by {
                    let lhs = column_spec(values@, width as nat, cc as nat);
                    assert forall|k: int| 0 <= k < h implies lhs[k] == (if cc == c {
                        col1
                    } else {
                        column_spec(before, width as nat, cc as nat)
                    })[k] by {
                        lemma_cell(k, cc, width as int, h as int);
                    }
                    if cc == c {
                        assert(lhs =~= col1);
                    } else {
                        assert(lhs =~= column_spec(before, width as nat, cc as nat));
                    }
                }
                assert forall|k: int| 0 <= k < n implies #[trigger] values@[k] < BABYBEAR_P by {
                    if k % (width as int) == c && k / (width as int) < h {
                        lemma_fundamental_div_mod(k, width as int);
                    }
                }
            }
            c += 1;
        }
        proof {
            assert forall|cc: int, t: Seq<Vec<u32>>|
                #![trigger column_spec(values@, width as nat, cc as nat), twiddle_tables_spec(log_h, t)]
                0 <= cc < width && twiddle_tables_spec(log_h, t) implies column_spec(
                values@,
                width as nat,
                cc as nat,
            ) == column_dft_spec(column_spec(v0, width as nat, cc as nat), log_h, t) by {
                lemma_tables_unique(log_h, twiddles@, t);
                lemma_stages_same_tables(
                    column_spec(v0, width as nat, cc as nat),
                    twiddles@,
                    t,
                    log_h as nat,
                );
            }
        }
        proof {
            let g = two_adic_generator_spec(log_h) as int;
            assert forall|cc: int, k: int| 0 <= cc < width && 0 <= k < h implies #[trigger]
                from_mont_spec(column_spec(values@, width as nat, cc as nat)[k] as nat) as int
                == dft_spec(decode(column_spec(v0, width as nat, cc as nat)), g, k as nat) by {
                let col0 = column_spec(v0, width as nat, cc as nat);
                assert(col0.len() == h);
                law_ntt_is_dft(col0, twiddles@, g);
                assert(column_spec(values@, width as nat, cc as nat) == column_dft_spec(
                    col0,
                    log_h,
                    twiddles@,
                ));
            }
        }
    }
}

/// Whether `/proc/cpuinfo`-style text (absent when it could not be read)
/// lists both `avx512f` and `avx512dq`.
pub fn is_avx512_supported(cpuinfo: Option<&str>) -> (r: bool)
    ensures
        r == match cpuinfo {
            Some(text) => contains_spec(text@, "avx512f"@) && contains_spec(text@, "avx512dq"@),
            None => false,
        },
{
    match cpuinfo {
        Some(text) => str_contains(text, "avx512f") && str_contains(text, "avx512dq"),
        None => false,
    }
}

} // verus!
