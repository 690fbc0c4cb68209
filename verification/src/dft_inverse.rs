//! Inverting the transform: the DFT at `w^(n-1)` of the DFT at `w` is `n`
//! times the input, so the NTT output determines its input. The key fact is
//! the orthogonality of the powers of a root of order `n = 2^L`:
//! `sum_{k<n} w^(k*m)` is `n` when `n` divides `m` and `0` otherwise.
use crate::dft::{
    decode, dft_spec, dft_sum, lemma_cong_add, lemma_cong_mul, lemma_modp_idem, law_ntt_is_dft,
    modp, twiddles_are_powers,
};
use crate::field::babybear::constants::p_nat;
use crate::ntt::{bit_reverse_spec, ntt_stages_spec, trailing_zeros_spec};
use vstd::arithmetic::div_mod::*;
use vstd::arithmetic::power::*;
use vstd::arithmetic::power2::*;
use vstd::prelude::*;

verus! {

/// `sum_{k < m} f(k)`.
pub open spec fn sum_to(m: nat, f: spec_fn(nat) -> int) -> int
    decreases m,
{
    if m == 0 {
        0
    } else {
        sum_to((m - 1) as nat, f) + f((m - 1) as nat)
    }
}

/// Sums of congruent terms are congruent.
proof fn lemma_sum_cong(m: nat, f: spec_fn(nat) -> int, g: spec_fn(nat) -> int)
    requires
        forall|k: nat| k < m ==> #[trigger] modp(f(k)) == modp(g(k)),
    ensures
        modp(sum_to(m, f)) == modp(sum_to(m, g)),
    decreases m,
{
    if m > 0 {
        let u = (m - 1) as nat;
        lemma_sum_cong(u, f, g);
        assert(modp(f(u)) == modp(g(u)));
        lemma_cong_add(sum_to(u, f), f(u), sum_to(u, g), g(u));
    }
}

/// Sums of equal terms are equal.
proof fn lemma_sum_ext(m: nat, f: spec_fn(nat) -> int, g: spec_fn(nat) -> int)
    requires
        forall|k: nat| k < m ==> #[trigger] f(k) == g(k),
    ensures
        sum_to(m, f) == sum_to(m, g),
    decreases m,
{
    if m > 0 {
        lemma_sum_ext((m - 1) as nat, f, g);
        assert(f((m - 1) as nat) == g((m - 1) as nat));
    }
}

/// The sum of a termwise sum is the sum of the sums.
proof fn lemma_sum_add(m: nat, f: spec_fn(nat) -> int, g: spec_fn(nat) -> int)
    ensures
        sum_to(m, |k: nat| f(k) + g(k)) == sum_to(m, f) + sum_to(m, g),
    decreases m,
{
    if m > 0 {
        lemma_sum_add((m - 1) as nat, f, g);
    }
}

/// A constant factor comes out of a sum.
proof fn lemma_sum_scale(m: nat, c: int, f: spec_fn(nat) -> int)
    ensures
        sum_to(m, |k: nat| c * f(k)) == c * sum_to(m, f),
    decreases m,
{
    if m > 0 {
        let u = (m - 1) as nat;
        lemma_sum_scale(u, c, f);
        assert(c * sum_to(u, f) + c * f(u) == c * (sum_to(u, f) + f(u))) by (nonlinear_arith);
    }
}

/// A sum of zeros is zero.
proof fn lemma_sum_zero(m: nat, f: spec_fn(nat) -> int)
    requires
        forall|k: nat| k < m ==> #[trigger] f(k) == 0,
    ensures
        sum_to(m, f) == 0,
    decreases m,
{
    if m > 0 {
        lemma_sum_zero((m - 1) as nat, f);
        assert(f((m - 1) as nat) == 0);
    }
}

/// A sum whose terms vanish but one is that term.
proof fn lemma_sum_single(m: nat, f: spec_fn(nat) -> int, j: nat)
    requires
        j < m,
        forall|k: nat| k < m && k != j ==> #[trigger] f(k) == 0,
    ensures
        sum_to(m, f) == f(j),
    decreases m,
{
    let u = (m - 1) as nat;
    if j == u {
        lemma_sum_zero(u, f);
    } else {
        lemma_sum_single(u, f, j);
        assert(f(u) == 0);
    }
}

/// Splitting a sum after its first `a` terms.
proof fn lemma_sum_shift(a: nat, b: nat, f: spec_fn(nat) -> int)
    ensures
        sum_to(a + b, f) == sum_to(a, f) + sum_to(b, |k: nat| f(k + a)),
    decreases b,
{
    if b > 0 {
        let u = (b - 1) as nat;
        lemma_sum_shift(a, u, f);
        assert((a + b - 1) as nat == a + u);
        assert((u + a) as nat == a + u);
    }
}

/// A sum over `2h` terms pairs term `k` with term `k + h`.
proof fn lemma_sum_pairs(h: nat, f: spec_fn(nat) -> int)
    ensures
        sum_to(2 * h, f) == sum_to(h, |k: nat| f(k) + f(k + h)),
{
    lemma_sum_shift(h, h, f);
    assert(h + h == 2 * h);
    lemma_sum_add(h, f, |k: nat| f(k + h));
    lemma_sum_ext(
        h,
        |k: nat| f(k) + f(k + h),
        |k: nat| f(k) + (|k: nat| f(k + h))(k),
    );
}

/// The order of a double sum does not matter.
proof fn lemma_sum_exchange(m1: nat, m2: nat, f: spec_fn(nat, nat) -> int)
    ensures
        sum_to(m1, |k: nat| sum_to(m2, |i: nat| f(i, k))) == sum_to(
            m2,
            |i: nat| sum_to(m1, |k: nat| f(i, k)),
        ),
    decreases m1,
{
    if m1 == 0 {
        lemma_sum_zero(m2, |i: nat| sum_to(0, |k: nat| f(i, k)));
    } else {
        let u = (m1 - 1) as nat;
        lemma_sum_exchange(u, m2, f);
        let a = |i: nat| sum_to(u, |k: nat| f(i, k));
        let b = |i: nat| f(i, u);
        lemma_sum_add(m2, a, b);
        lemma_sum_ext(
            m2,
            |i: nat| sum_to(m1, |k: nat| f(i, k)),
            |i: nat| a(i) + b(i),
        );
    }
}


/// `(-1)^m` is `1` for even `m` and `-1` for odd `m`.
proof fn lemma_pow_minus_one(m: nat)
    ensures
        pow(-1, m) == if m % 2 == 0 {
            1int
        } else {
            -1int
        },
    decreases m,
{
    if m == 0 {
        lemma_pow0(-1);
    } else {
        let u = (m - 1) as nat;
        lemma_pow_minus_one(u);
        lemma_pow_adds(-1, u, 1);
        lemma_pow1(-1);
    }
}

/// `m` is a multiple of `2h` exactly when it is even and its half is a
/// multiple of `h`.
proof fn lemma_even_multiple(m: nat, h: nat)
    requires
        h > 0,
    ensures
        m % (2 * h) == 0 <==> (m % 2 == 0 && (m / 2) % h == 0),
{
    lemma_fundamental_div_mod(m as int, 2);
    lemma_fundamental_div_mod(m as int, (2 * h) as int);
    lemma_fundamental_div_mod((m / 2) as int, h as int);
    if m % (2 * h) == 0 {
        let q = m / (2 * h);
        assert(m == 2 * (h * q)) by (nonlinear_arith)
            requires
                m == (2 * h) * q,
        ;
        lemma_fundamental_div_mod_converse(m as int, 2, (h * q) as int, 0);
        lemma_fundamental_div_mod_converse((m / 2) as int, h as int, q as int, 0);
    }
    if m % 2 == 0 && (m / 2) % h == 0 {
        let q = (m / 2) / h;
        assert(m == (2 * h) * q) by (nonlinear_arith)
            requires
                m == 2 * (m / 2),
                m / 2 == h * q,
        ;
        lemma_fundamental_div_mod_converse(m as int, (2 * h) as int, q as int, 0);
    }
}

/// Orthogonality of the powers of a root `u` of order `2^L`:
/// `sum_{k < 2^L} u^(k*m)` is `2^L` when `2^L` divides `m` and `0`
/// otherwise (modulo `p`).
pub proof fn lemma_roots_sum(u: int, big_l: nat, m: nat)
    requires
        big_l >= 1,
        modp(pow(u, pow2((big_l - 1) as nat))) == p_nat() - 1,
    ensures
        modp(sum_to(pow2(big_l), |k: nat| pow(u, k * m))) == if m % pow2(big_l) == 0 {
            modp(pow2(big_l) as int)
        } else {
            0
        },
    decreases big_l,
{
    let p = p_nat() as int;
    let n = pow2(big_l);
    let h = pow2((big_l - 1) as nat);
    lemma_pow2_unfold(big_l);
    lemma_pow2_pos((big_l - 1) as nat);
    let f = |k: nat| pow(u, k * m);
    lemma_sum_pairs(h, f);
    let pair = |k: nat| f(k) + f(k + h);
    // u^(h*m) = (-1)^m (mod p).
    let uh = pow(u, h);
    lemma_pow_multiplies(u, h, m);
    lemma_pow_mod_noop(uh, m, p);
    lemma_pow_mod_noop(-1, m, p);
    crate::dft::lemma_minus_one();
    assert(uh % p == (-1) % p);
    let sign = pow(-1, m);
    assert(modp(pow(u, h * m)) == modp(sign));
    lemma_pow_minus_one(m);
    lemma_even_multiple(m, h);
    if m % 2 == 1 {
        assert forall|k: nat| k < h implies #[trigger] modp(pair(k)) == modp(0) by {
            assert((k + h) * m == k * m + h * m) by (nonlinear_arith);
            lemma_pow_adds(u, k * m, h * m);
            lemma_modp_idem(f(k));
            lemma_cong_mul(f(k), pow(u, h * m), f(k), -1);
            lemma_cong_add(f(k), f(k) * pow(u, h * m), f(k), f(k) * -1);
            assert(f(k) + f(k) * -1 == 0);
        }
        lemma_sum_cong(h, pair, |k: nat| 0int);
        lemma_sum_zero(h, |k: nat| 0int);
        lemma_small_mod(0, p_nat());
    } else {
        let m2 = m / 2;
        let u2 = pow(u, 2);
        let g = |k: nat| pow(u2, k * m2);
        lemma_fundamental_div_mod(m as int, 2);
        assert forall|k: nat| k < h implies #[trigger] modp(pair(k)) == modp(2 * g(k)) by {
            assert((k + h) * m == k * m + h * m) by (nonlinear_arith);
            lemma_pow_adds(u, k * m, h * m);
            lemma_modp_idem(f(k));
            lemma_cong_mul(f(k), pow(u, h * m), f(k), 1);
            lemma_cong_add(f(k), f(k) * pow(u, h * m), f(k), f(k) * 1);
            assert(k * m == 2 * (k * m2)) by (nonlinear_arith)
                requires
                    m == 2 * m2,
            ;
            lemma_pow_multiplies(u, 2, k * m2);
            assert(f(k) == g(k));
        }
        lemma_sum_cong(h, pair, |k: nat| 2 * g(k));
        lemma_sum_scale(h, 2, g);
        lemma_sum_ext(h, |k: nat| 2 * g(k), |k: nat| 2 * g(k));
        if big_l == 1 {
            lemma2_to64();
            assert(h == 1);
            assert(sum_to(0, g) == 0);
            assert(sum_to(1, g) == g(0));
            lemma_pow0(u2);
            assert(0 * m2 == 0);
            assert(n == 2);
        } else {
            let l1 = (big_l - 1) as nat;
            lemma_pow2_unfold(l1);
            lemma_pow_multiplies(u, 2, pow2((l1 - 1) as nat));
            assert(2 * pow2((l1 - 1) as nat) == h);
            lemma_roots_sum(u2, l1, m2);
            let inner = sum_to(h, g);
            lemma_modp_idem(inner);
            lemma_cong_mul(2, inner, 2, modp(inner));
            if m2 % h == 0 {
                lemma_modp_idem(h as int);
                lemma_cong_mul(2, modp(h as int), 2, h as int);
            } else {
                lemma_small_mod(0, p_nat());
            }
        }
    }
}


/// The DFT sum as a sum over positions.
proof fn lemma_dft_sum_is_sum(x: Seq<int>, w: int, k: nat, m: nat)
    ensures
        dft_sum(x, w, k, m) == sum_to(m, |i: nat| x[i as int] * pow(w, i * k)),
    decreases m,
{
    if m > 0 {
        lemma_dft_sum_is_sum(x, w, k, (m - 1) as nat);
    }
}

/// `i + (n - 1) * j` is a multiple of `n` exactly when `i == j` (for
/// positions below `n`).
proof fn lemma_exponent_multiple(n: nat, i: nat, j: nat)
    requires
        i < n,
        j < n,
    ensures
        (i + (n - 1) * j) as nat % n == 0 <==> i == j,
{
    let e = i + (n - 1) * j;
    assert(e == n * j + i - j) by (nonlinear_arith)
        requires
            e == i + (n - 1) * j,
    ;
    if i >= j {
        lemma_fundamental_div_mod_converse(e, n as int, j as int, i - j);
    } else {
        assert(e == n * (j - 1) + (n + i - j)) by (nonlinear_arith)
            requires
                e == n * j + i - j,
        ;
        lemma_fundamental_div_mod_converse(e, n as int, j - 1, n + i - j);
    }
}

/// **The transform is inverted by the transform at `w^(n-1)`.** For
/// `n = 2^L` values and a root `w` of order `n` (`w^(n/2) = -1 mod p`),
/// the DFT at `w^(n-1)` of the DFT at `w` of `x` is `n * x` (mod p).
pub proof fn law_dft_inverse(x: Seq<int>, w: int, big_l: nat, j: nat)
    requires
        x.len() == pow2(big_l),
        big_l >= 1,
        modp(pow(w, pow2((big_l - 1) as nat))) == p_nat() - 1,
        j < x.len(),
    ensures
        dft_spec(
            Seq::new(x.len(), |k: int| dft_spec(x, w, k as nat)),
            pow(w, (x.len() - 1) as nat),
            j,
        ) == modp(x.len() * x[j as int]),
{
    let n = x.len();
    let big_x = Seq::new(n, |k: int| dft_spec(x, w, k as nat));
    let v = pow(w, (n - 1) as nat);
    let c = (n - 1) as nat;
    // The outer sum, term by term.
    lemma_dft_sum_is_sum(big_x, v, j, n);
    let t1 = |k: nat| big_x[k as int] * pow(v, k * j);
    let f = |i: nat, k: nat| x[i as int] * pow(w, k * (i + c * j) as nat);
    let t2 = |k: nat| sum_to(n, |i: nat| f(i, k));
    assert forall|k: nat| k < n implies #[trigger] modp(t1(k)) == modp(t2(k)) by {
        let g = |i: nat| x[i as int] * pow(w, i * k);
        let ck = pow(v, k * j);
        let sg = |i: nat| ck * g(i);
        let fk = |i: nat| f(i, k);
        lemma_dft_sum_is_sum(x, w, k, n);
        lemma_sum_ext(n, |i: nat| x[i as int] * pow(w, i * k), g);
        let sk = sum_to(n, g);
        assert(dft_sum(x, w, k, n) == sk);
        assert(big_x[k as int] == modp(sk));
        assert(t1(k) == modp(sk) * ck);
        lemma_modp_idem(sk);
        lemma_cong_mul(modp(sk), ck, sk, ck);
        assert(modp(t1(k)) == modp(sk * ck));
        lemma_sum_scale(n, ck, g);
        lemma_sum_ext(n, |k2: nat| ck * g(k2), sg);
        assert(sum_to(n, sg) == ck * sk);
        lemma_pow_multiplies(w, c, k * j);
        assert forall|i: nat| i < n implies #[trigger] fk(i) == sg(i) by {
            assert(i * k + c * (k * j) == k * (i + c * j)) by (nonlinear_arith);
            lemma_pow_adds(w, i * k, c * (k * j));
            assert(ck * (x[i as int] * pow(w, i * k)) == x[i as int] * (pow(w, i * k) * ck))
                by (nonlinear_arith);
        }
        lemma_sum_ext(n, fk, sg);
        lemma_sum_ext(n, |i: nat| f(i, k), fk);
        assert(t2(k) == ck * sk);
        assert(sk * ck == ck * sk) by (nonlinear_arith);
    }
    lemma_sum_cong(n, t1, t2);
    // Exchange the sums.
    lemma_sum_exchange(n, n, f);
    let h = |i: nat| sum_to(n, |k: nat| f(i, k));
    let e = |i: nat| if i == j {
        x[j as int] * n
    } else {
        0int
    };
    assert forall|i: nat| i < n implies #[trigger] modp(h(i)) == modp(e(i)) by {
        let mi = (i + c * j) as nat;
        let q = |k: nat| pow(w, k * mi);
        let xq = |k: nat| x[i as int] * q(k);
        lemma_sum_scale(n, x[i as int], q);
        lemma_sum_ext(n, |k: nat| x[i as int] * q(k), xq);
        lemma_sum_ext(n, |k: nat| f(i, k), xq);
        let o = sum_to(n, q);
        assert(h(i) == x[i as int] * o);
        lemma_roots_sum(w, big_l, mi);
        lemma_sum_ext(n, |k: nat| pow(w, k * mi), q);
        lemma_exponent_multiple(n, i, j);
        if i == j {
            assert(modp(o) == modp(n as int));
            lemma_cong_mul(x[i as int], o, x[i as int], n as int);
            assert(x[j as int] * n == x[i as int] * (n as int));
        } else {
            assert(modp(o) == 0);
            lemma_small_mod(0, p_nat());
            assert(modp(0) == 0);
            lemma_cong_mul(x[i as int], o, x[i as int], 0);
        }
    }
    lemma_sum_cong(n, h, e);
    lemma_sum_single(n, e, j);
    assert(x[j as int] * n == n * x[j as int]) by (nonlinear_arith);
}


/// The stages keep the length.
proof fn lemma_stages_len(data: Seq<u32>, tw: Seq<Vec<u32>>, s: nat)
    ensures
        ntt_stages_spec(data, tw, s).len() == data.len(),
    decreases s,
{
    if s > 0 {
        lemma_stages_len(data, tw, (s - 1) as nat);
    }
}

/// **The NTT round trip.** With stage twiddles that are powers of a root
/// `w` of order `n = 2^L` (`L >= 1`), the DFT at `w^(n-1)` of the decoded
/// NTT output (after the bit-reversal permutation) is `n` times the decoded
/// input: the inverse transform, up to the factor `n`, gives the input back.
pub proof fn law_ntt_round_trip(data: Seq<u32>, tw: Seq<Vec<u32>>, w: int)
    requires
        data.len() == pow2(tw.len() as nat),
        tw.len() >= 1,
        twiddles_are_powers(tw, w, data.len()),
        modp(pow(w, data.len() / 2)) == p_nat() - 1,
    ensures
        forall|j: int|
            0 <= j < data.len() ==> #[trigger] dft_spec(
                decode(
                    bit_reverse_spec(
                        ntt_stages_spec(data, tw, tw.len() as nat),
                        trailing_zeros_spec(data.len()),
                    ),
                ),
                pow(w, (data.len() - 1) as nat),
                j as nat,
            ) == modp(data.len() * decode(data)[j]),
{
    let n = data.len();
    let big_l = tw.len() as nat;
    let x = decode(data);
    let out = bit_reverse_spec(ntt_stages_spec(data, tw, big_l), trailing_zeros_spec(n));
    law_ntt_is_dft(data, tw, w);
    lemma_stages_len(data, tw, big_l);
    let big_x = Seq::new(n, |k: int| dft_spec(x, w, k as nat));
    assert(decode(out) =~= big_x);
    lemma_pow2_unfold(big_l);
    lemma_div_multiples_vanish(pow2((big_l - 1) as nat) as int, 2);
    assert(pow2((big_l - 1) as nat) == n / 2);
    assert forall|j: int| 0 <= j < n implies #[trigger] dft_spec(
        decode(out),
        pow(w, (n - 1) as nat),
        j as nat,
    ) == modp(n * x[j]) by {
        law_dft_inverse(x, w, big_l, j as nat);
    }
}

} // verus!
