# avx512-butterfly

A radix-2 DIF number-theoretic transform over the BabyBear field
(p = 2^31 - 2^27 + 1) in Montgomery form, with three interchangeable
backends (reference oracle, typed scalar, 16-lane block kernel), together with
the evidence and promotion machinery that decides whether a new backend may
replace a trusted one. Every function in `src/` is verified with Verus except
four small trusted wrappers around outside calls (SHA-256, std's `Debug`
rendering of a string, `String::push` and Plonky3's two-adic generator), whose
contracts say what they claim of those calls.

## Layout

- `src/field/babybear/` — constants, Montgomery reduction (REDC) and its
  correctness, the reference oracle, and the typed canonical / Montgomery
  values.
- `src/avx512_butterfly_32bit.rs`, `src/avx512_butterfly_opt.rs` — the
  16-lane butterfly kernels (even/odd product split, lane reduction,
  interleave) and full half/half butterfly passes.
- `src/ntt.rs` — DIF stages for each backend, the full NTT and the
  bit-reversal permutation.
- `src/dft.rs` — the proof that the stages followed by bit reversal compute
  the discrete Fourier transform, and that the butterfly is invertible.
- `src/dft_inverse.rs` — orthogonality of the roots of unity and the
  inversion of the transform (the NTT round trip).
- `src/plonky3_adapter.rs` — twiddle tables from the field's two-adic
  generator and the column-wise DFT with backend tracking.
- `src/evidence_core/` — SHA-256 identities, canonical encoding, environment
  contracts, predicates and evidence admission.
- `src/instrument/` — evidence graphs, promotion policy, the promotion
  decision tree, the predicate gate, coverage maps and the evidence
  contract.
- `src/text.rs`, `src/keyed.rs` — decimal/hex rendering, byte order and
  ordered text-keyed entries shared by the encoders.
- `app/` — CPU feature detection, clock and platform capture, and the
  Plonky3 `TwoAdicSubgroupDft` implementation over the library's adapter.
- `tests/` — behavioural tests, run against the real outside crates.
