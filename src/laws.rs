//! What holds across the scheme's operations: decryption inverts encryption
//! under both private-key forms, the two forms agree, and the homomorphic
//! operators act on plaintexts as addition and multiplication modulo `n`.
//!
//! Correctness is stated for randomness whose blinding factor the private
//! exponents cancel (`blinding_cancels`): `r^(n·λ) ≡ 1 (mod n²)` and
//! `r^(n·(p-1)) ≡ 1 (mod p²)`, `r^(n·(q-1)) ≡ 1 (mod q²)`.
use crate::scheme::{
    blinded, crt_decryption, crt_ell, crt_half, ell, encryption_of, garner, reduces_to_one,
    standard_decryption,
};
use crate::arith::gcd;
use crate::number_theory::{
    is_prime, lemma_bezout, lemma_common_divisor, lemma_distinct_primes, lemma_euclid, lemma_fermat,
    lemma_fermat_weak, lemma_gcd_divides, lemma_prime_square_power, lemma_prime_squares_divide,
};
use crate::scheme::lcm;
use vstd::arithmetic::div_mod::*;
use vstd::arithmetic::mul::*;
use vstd::arithmetic::power::*;
use vstd::prelude::*;

verus! {

/// The private exponents cancel the blinding factor `rⁿ`, modulo `n²` and modulo
/// each factor's square.
pub open spec fn blinding_cancels(p: int, q: int, lambda: int, r: int) -> bool {
    let n = p * q;
    &&& pow(r, (n * lambda) as nat) % (n * n) == 1
    &&& pow(r, (n * (p - 1)) as nat) % (p * p) == 1
    &&& pow(r, (n * (q - 1)) as nat) % (q * q) == 1
}

/// `(1 + k·n)^j ≡ 1 + j·k·n (mod n²)`.
pub proof fn lemma_linear_power(n: int, k: int, j: nat)
    requires
        n > 0,
    ensures
        pow(1 + k * n, j) % (n * n) == (1 + j * k * n) % (n * n),
    decreases j,
{
    let nn = n * n;
    assert(nn > 0) by (nonlinear_arith)
        requires n > 0, nn == n * n;
    reveal(pow);
    if j == 0 {
        assert(j * k * n == 0) by (nonlinear_arith)
            requires j == 0;
    } else {
        let j1 = (j - 1) as nat;
        lemma_linear_power(n, k, j1);
        let prev = pow(1 + k * n, j1);
        assert(pow(1 + k * n, j) == (1 + k * n) * prev);
        lemma_mul_mod_noop_right(1 + k * n, prev, nn);
        lemma_mul_mod_noop_right(1 + k * n, 1 + j1 * k * n, nn);
        assert((1 + k * n) * (1 + j1 * k * n) == nn * (j1 * k * k) + (1 + j * k * n)) by (nonlinear_arith)
            requires nn == n * n, j1 == j - 1;
        lemma_mod_multiples_vanish(j1 * k * k, 1 + j * k * n, nn);
    }
}

/// `(1 + x·n) mod n²` is `1` modulo `n`, and `L` of it is `x mod n`.
pub proof fn lemma_ell_linear(n: int, x: int)
    requires
        n > 1,
        x >= 0,
    ensures
        ((1 + x * n) % (n * n)) % n == 1,
        ell((1 + x * n) % (n * n), n) == x % n,
{
    let nn = n * n;
    let t = x % n;
    let d = x / n;
    lemma_fundamental_div_mod(x, n);
    assert(0 <= t < n);
    assert(1 + x * n == nn * d + (1 + t * n)) by (nonlinear_arith)
        requires x == n * d + t, nn == n * n;
    assert(0 <= 1 + t * n < nn) by (nonlinear_arith)
        requires 0 <= t < n, nn == n * n, n > 1;
    lemma_mod_multiples_vanish(d, 1 + t * n, nn);
    lemma_small_mod((1 + t * n) as nat, nn as nat);
    assert((1 + t * n) % nn == 1 + t * n);
    lemma_mod_multiples_vanish(t, 1, n);
    lemma_small_mod(1, n as nat);
    assert((1 + t * n) % n == 1) by {
        lemma_mul_is_commutative(t, n);
    }
    assert((1 + t * n - 1) / n == t) by {
        lemma_div_multiples_vanish(t, n);
        lemma_mul_is_commutative(t, n);
    }
}

/// `(a·b mod M)^e mod M == (a^e mod M)·(b^e mod M) mod M`.
pub proof fn lemma_power_of_product(a: int, b: int, e: nat, modulus: int)
    requires
        modulus > 0,
    ensures
        pow((a * b) % modulus, e) % modulus == ((pow(a, e) % modulus) * (pow(b, e) % modulus)) % modulus,
{
    lemma_pow_mod_noop(a * b, e, modulus);
    lemma_pow_distributes(a, b, e);
    lemma_mul_mod_noop(pow(a, e), pow(b, e), modulus);
}

/// Standard decryption inverts encryption: for `m ∈ [0, n)`, where λ
/// cancels the blinding factor and `μ` inverts `L((n+1)^λ mod n²)` modulo `n`.
pub proof fn lemma_round_trip_standard(n: int, lambda: int, mu: int, m: int, r: int)
    requires
        n > 1,
        lambda >= 0,
        0 <= m < n,
        (ell(pow(n + 1, lambda as nat) % (n * n), n) * mu) % n == 1,
        pow(r, (n * lambda) as nat) % (n * n) == 1,
    ensures
        reduces_to_one(encryption_of(n, m, r), lambda, n),
        standard_decryption(n, lambda, mu, encryption_of(n, m, r)) == m,
{
    let nn = n * n;
    assert(nn > 1) by (nonlinear_arith)
        requires n > 1, nn == n * n;
    assert(n * lambda >= 0) by (nonlinear_arith)
        requires n > 1, lambda >= 0;
    let l = lambda as nat;
    let c = encryption_of(n, m, r);
    // c^λ ≡ (1 + m·n)^λ · r^(n·λ) ≡ 1 + λ·m·n (mod n²)
    lemma_power_of_product(1 + m * n, pow(r, n as nat), l, nn);
    lemma_pow_multiplies(r, n as nat, l);
    lemma_linear_power(n, m, l);
    lemma_small_mod(1, nn as nat);
    let u = (1 + l * m * n) % nn;
    lemma_mod_twice(1 + l * m * n, nn);
    assert(pow(c, l) % nn == u) by {
        lemma_mul_mod_noop_right(u, 1, nn);
    }
    assert(l * m >= 0) by (nonlinear_arith)
        requires m >= 0;
    assert(l * m * n == (l * m) * n);
    lemma_ell_linear(n, l * m);
    // L((n+1)^λ mod n²) == λ mod n
    lemma_linear_power(n, 1, l);
    assert(n + 1 == 1 + 1 * n);
    assert(l * 1 * n == l * n);
    lemma_ell_linear(n, l as int);
    // (λ·m mod n)·μ ≡ m·((λ mod n)·μ) ≡ m (mod n)
    lemma_mul_mod_noop_left(l * m, mu, n);
    lemma_mul_mod_noop_left(l as int, mu, n);
    assert((l * m) * mu == m * (l * mu)) by (nonlinear_arith);
    lemma_mul_mod_noop_right(m, l * mu, n);
    lemma_mul_mod_noop_left(l as int, mu, n);
    lemma_small_mod(m as nat, n as nat);
}

/// One half of CRT decryption recovers `m mod p` from an encryption of `m`,
/// where `h` inverts `L_p((n+1)^(p-1) mod p²)` modulo `p`.
pub proof fn lemma_crt_half_inverts(p: int, q: int, h: int, m: int, r: int)
    requires
        p > 1,
        q > 1,
        m >= 0,
        (crt_ell(p * q, p) * h) % p == 1,
        pow(r, (p * q * (p - 1)) as nat) % (p * p) == 1,
    ensures
        reduces_to_one(encryption_of(p * q, m, r), p - 1, p),
        crt_half(encryption_of(p * q, m, r), p, h) == m % p,
{
    let n = p * q;
    let nn = n * n;
    let pp = p * p;
    let qq = q * q;
    let e = (p - 1) as nat;
    assert(pp > 1 && qq > 1 && nn == pp * qq && n > 1) by (nonlinear_arith)
        requires p > 1, q > 1, n == p * q, nn == n * n, pp == p * p, qq == q * q;
    assert(n * e >= 0 && m * q >= 0) by (nonlinear_arith)
        requires n > 1, e >= 0, m >= 0, q > 1;
    let a = 1 + m * n;
    let b = pow(r, n as nat);
    let c = encryption_of(n, m, r);
    // c ≡ a·rⁿ (mod p²)
    lemma_mod_mod(a * b, pp, qq);
    lemma_pow_mod_noop(c, e, pp);
    assert(c % pp == (a * b) % pp);
    lemma_power_of_product(a, b, e, pp);
    lemma_pow_multiplies(r, n as nat, e);
    // a = 1 + (m·q)·p, so a^(p-1) ≡ 1 + (p-1)·m·q·p (mod p²)
    assert(a == 1 + (m * q) * p) by (nonlinear_arith)
        requires a == 1 + m * n, n == p * q;
    lemma_linear_power(p, m * q, e);
    assert(e * (m * q) * p == (e * (m * q)) * p);
    assert(e * (m * q) >= 0) by (nonlinear_arith)
        requires m * q >= 0;
    let u = (1 + (e * (m * q)) * p) % pp;
    lemma_small_mod(1, pp as nat);
    lemma_mod_twice(1 + (e * (m * q)) * p, pp);
    lemma_mul_mod_noop_right(u, 1, pp);
    assert(pow(c, e) % pp == u);
    lemma_ell_linear(p, e * (m * q));
    // L_p((n+1)^(p-1) mod p²) == (p-1)·q mod p
    assert(n + 1 == 1 + q * p) by (nonlinear_arith)
        requires n == p * q;
    lemma_linear_power(p, q, e);
    assert(e * q * p == (e * q) * p);
    assert(e * q >= 0) by (nonlinear_arith)
        requires q > 1;
    lemma_ell_linear(p, e * q);
    assert(crt_ell(n, p) == (e * q) % p);
    // ((p-1)·m·q mod p)·h ≡ m·(((p-1)·q mod p)·h) ≡ m (mod p)
    lemma_mul_mod_noop_left(e * (m * q), h, p);
    assert((e * (m * q)) * h == m * ((e * q) * h)) by (nonlinear_arith);
    lemma_mul_mod_noop_right(m, (e * q) * h, p);
    lemma_mul_mod_noop_left(e * q, h, p);
    assert(((e * q) * h) % p == 1);
    assert(ell(pow(c, e) % pp, p) == (e * (m * q)) % p);
    assert(((e * (m * q)) * h) % p == (m * 1) % p);
    assert(crt_half(c, p, h) == (((e * (m * q)) % p) * h) % p);
}

/// Garner's recombination of `m mod p` and `m mod q` gives back `m ∈ [0, p·q)`.
pub proof fn lemma_garner(p: int, q: int, qinv: int, m: int)
    requires
        p > 1,
        q > 1,
        0 <= m < p * q,
        (q * qinv) % p == 1,
    ensures
        garner(m % p, m % q, p, q, qinv) == m,
{
    let a = m / q;
    let b = m % q;
    lemma_fundamental_div_mod(m, q);
    assert(0 <= a < p) by (nonlinear_arith)
        requires m == q * a + b, 0 <= b < q, 0 <= m < p * q, q > 1;
    // (m mod p - b) ≡ m - b == q·a (mod p)
    lemma_sub_mod_noop_right(m % p, b, p);
    lemma_mod_twice(m, p);
    lemma_sub_mod_noop(m, b, p);
    assert((m % p - b) % p == (q * a) % p) by {
        lemma_sub_mod_noop(m % p, b, p);
        lemma_mod_twice(m, p);
    }
    lemma_mul_mod_noop_left(m % p - b, qinv, p);
    lemma_mul_mod_noop_left(q * a, qinv, p);
    assert((q * a) * qinv == a * (q * qinv)) by (nonlinear_arith);
    lemma_mul_mod_noop_right(a, q * qinv, p);
    lemma_small_mod(a as nat, p as nat);
    assert(((m % p - b) * qinv) % p == a);
    assert(b + q * a == m);
    lemma_small_mod(m as nat, (p * q) as nat);
}

/// CRT decryption inverts encryption: for `m ∈ [0, n)`, where the per-factor
/// exponents cancel the blinding factor and `h_p`, `h_q`, `q⁻¹` are as the CRT
/// key holds them.
pub proof fn lemma_round_trip_crt(p: int, q: int, hp: int, hq: int, qinv: int, m: int, r: int)
    requires
        p > 1,
        q > 1,
        0 <= m < p * q,
        (crt_ell(p * q, p) * hp) % p == 1,
        (crt_ell(p * q, q) * hq) % q == 1,
        (q * qinv) % p == 1,
        pow(r, (p * q * (p - 1)) as nat) % (p * p) == 1,
        pow(r, (p * q * (q - 1)) as nat) % (q * q) == 1,
    ensures
        reduces_to_one(encryption_of(p * q, m, r), p - 1, p),
        reduces_to_one(encryption_of(p * q, m, r), q - 1, q),
        crt_decryption(p, q, hp, hq, qinv, encryption_of(p * q, m, r)) == m,
{
    assert(q * p == p * q) by (nonlinear_arith);
    lemma_crt_half_inverts(p, q, hp, m, r);
    lemma_crt_half_inverts(q, p, hq, m, r);
    lemma_garner(p, q, qinv, m);
}

/// A product of randomness whose blinding cancels has blinding that cancels.
pub proof fn lemma_blinding_product(p: int, q: int, lambda: int, r1: int, r2: int)
    requires
        p > 1,
        q > 1,
        lambda >= 0,
        blinding_cancels(p, q, lambda, r1),
        blinding_cancels(p, q, lambda, r2),
    ensures
        blinding_cancels(p, q, lambda, r1 * r2),
{
    let n = p * q;
    assert(n * n > 0 && p * p > 0 && q * q > 0) by (nonlinear_arith)
        requires p > 1, q > 1, n == p * q;
    assert(n * lambda >= 0 && n * (p - 1) >= 0 && n * (q - 1) >= 0) by (nonlinear_arith)
        requires p > 1, q > 1, n == p * q, lambda >= 0;
    lemma_product_one(r1, r2, (n * lambda) as nat, n * n);
    lemma_product_one(r1, r2, (n * (p - 1)) as nat, p * p);
    lemma_product_one(r1, r2, (n * (q - 1)) as nat, q * q);
}

/// Where `a^e` and `b^e` are `1` modulo `M`, so is `(a·b)^e`.
proof fn lemma_product_one(a: int, b: int, e: nat, modulus: int)
    requires
        modulus > 0,
        pow(a, e) % modulus == 1,
        pow(b, e) % modulus == 1,
    ensures
        pow(a * b, e) % modulus == 1,
{
    lemma_mod_bound(pow(a, e), modulus);
    lemma_small_mod(1, modulus as nat);
    lemma_mod_bound(pow(a, e), modulus);
    lemma_small_mod(1, modulus as nat);
    lemma_pow_distributes(a, b, e);
    lemma_mul_mod_noop(pow(a, e), pow(b, e), modulus);
}

/// A power of randomness whose blinding cancels has blinding that cancels.
pub proof fn lemma_blinding_power(p: int, q: int, lambda: int, r: int, k: nat)
    requires
        p > 1,
        q > 1,
        lambda >= 0,
        blinding_cancels(p, q, lambda, r),
    ensures
        blinding_cancels(p, q, lambda, pow(r, k)),
{
    let n = p * q;
    assert(n * n > 0 && p * p > 0 && q * q > 0) by (nonlinear_arith)
        requires p > 1, q > 1, n == p * q;
    assert(n * lambda >= 0 && n * (p - 1) >= 0 && n * (q - 1) >= 0) by (nonlinear_arith)
        requires p > 1, q > 1, n == p * q, lambda >= 0;
    let es = seq![(n * lambda) as nat, (n * (p - 1)) as nat, (n * (q - 1)) as nat];
    let ms = seq![n * n, p * p, q * q];
    assert forall|i: int| 0 <= i < 3 implies #[trigger] (pow(pow(r, k), es[i]) % ms[i]) == 1 by {
        lemma_pow_multiplies(r, k, es[i]);
        lemma_pow_multiplies(r, es[i], k);
        assert(k * es[i] == es[i] * k) by (nonlinear_arith);
        lemma_pow_mod_noop(pow(r, es[i]), k, ms[i]);
        crate::scheme::lemma_pow1_any(k);
        lemma_small_mod(1, ms[i] as nat);
    }
    assert(pow(pow(r, k), es[0]) % ms[0] == 1);
    assert(pow(pow(r, k), es[1]) % ms[1] == 1);
    assert(pow(pow(r, k), es[2]) % ms[2] == 1);
}

/// Where `a ≡ 1 + x·n (mod n²)`, `a·sⁿ mod n²` is the encryption of `x mod n` with randomness `s`.
pub proof fn lemma_encryption_form(n: int, a: int, x: int, s: int)
    requires
        n > 1,
        x >= 0,
        a % (n * n) == (1 + x * n) % (n * n),
    ensures
        (a * pow(s, n as nat)) % (n * n) == encryption_of(n, x % n, s),
{
    let nn = n * n;
    assert(nn > 0) by (nonlinear_arith)
        requires n > 1, nn == n * n;
    let t = x % n;
    let d = x / n;
    lemma_fundamental_div_mod(x, n);
    assert(1 + x * n == nn * d + (1 + t * n)) by (nonlinear_arith)
        requires x == n * d + t, nn == n * n;
    lemma_mod_multiples_vanish(d, 1 + t * n, nn);
    lemma_mul_mod_noop_left(a, pow(s, n as nat), nn);
    lemma_mul_mod_noop_left(1 + t * n, pow(s, n as nat), nn);
}

/// Homomorphic addition: the product of encryptions of `m1` and `m2` modulo
/// `n²` decrypts to `(m1 + m2) mod n`.
pub proof fn lemma_homomorphic_addition(
    p: int,
    q: int,
    lambda: int,
    mu: int,
    m1: int,
    m2: int,
    r1: int,
    r2: int,
)
    requires
        p > 1,
        q > 1,
        lambda >= 0,
        0 <= m1 < p * q,
        0 <= m2 < p * q,
        (ell(pow(p * q + 1, lambda as nat) % (p * q * (p * q)), p * q) * mu) % (p * q) == 1,
        blinding_cancels(p, q, lambda, r1),
        blinding_cancels(p, q, lambda, r2),
    ensures
        standard_decryption(
            p * q,
            lambda,
            mu,
            (encryption_of(p * q, m1, r1) * encryption_of(p * q, m2, r2)) % (p * q * (p * q)),
        ) == (m1 + m2) % (p * q),
{
    let n = p * q;
    let nn = n * n;
    assert(n > 1 && nn > 0) by (nonlinear_arith)
        requires p > 1, q > 1, n == p * q, nn == n * n;
    let a1 = 1 + m1 * n;
    let a2 = 1 + m2 * n;
    let s1 = pow(r1, n as nat);
    let s2 = pow(r2, n as nat);
    lemma_mul_mod_noop(a1 * s1, a2 * s2, nn);
    lemma_pow_distributes(r1, r2, n as nat);
    assert((a1 * s1) * (a2 * s2) == (a1 * a2) * (s1 * s2)) by (nonlinear_arith);
    assert(a1 * a2 == nn * (m1 * m2) + (1 + (m1 + m2) * n)) by (nonlinear_arith)
        requires a1 == 1 + m1 * n, a2 == 1 + m2 * n, nn == n * n;
    lemma_mod_multiples_vanish(m1 * m2, 1 + (m1 + m2) * n, nn);
    lemma_encryption_form(n, a1 * a2, m1 + m2, r1 * r2);
    lemma_blinding_product(p, q, lambda, r1, r2);
    lemma_mod_bound(m1 + m2, n);
    lemma_round_trip_standard(n, lambda, mu, (m1 + m2) % n, r1 * r2);
}

/// Homomorphic multiplication by a scalar: an encryption of `m` raised to `k`
/// modulo `n²` decrypts to `m·k mod n`.
pub proof fn lemma_homomorphic_scalar(p: int, q: int, lambda: int, mu: int, m: int, k: nat, r: int)
    requires
        p > 1,
        q > 1,
        lambda >= 0,
        0 <= m < p * q,
        (ell(pow(p * q + 1, lambda as nat) % (p * q * (p * q)), p * q) * mu) % (p * q) == 1,
        blinding_cancels(p, q, lambda, r),
    ensures
        standard_decryption(p * q, lambda, mu, pow(encryption_of(p * q, m, r), k) % (p * q * (p * q)))
            == (m * k) % (p * q),
{
    let n = p * q;
    let nn = n * n;
    assert(n > 1 && nn > 0) by (nonlinear_arith)
        requires p > 1, q > 1, n == p * q, nn == n * n;
    let a = 1 + m * n;
    let s = pow(r, n as nat);
    lemma_power_of_product(a, s, k, nn);
    lemma_pow_multiplies(r, n as nat, k);
    lemma_pow_multiplies(r, k, n as nat);
    assert((n as nat) * k == k * (n as nat)) by (nonlinear_arith);
    lemma_linear_power(n, m, k);
    assert(k * m * n == (m * k) * n) by (nonlinear_arith);
    assert(m * k >= 0) by (nonlinear_arith)
        requires m >= 0;
    lemma_mul_mod_noop(pow(a, k), pow(pow(r, k), n as nat), nn);
    lemma_mul_mod_noop(1 + (m * k) * n, pow(pow(r, k), n as nat), nn);
    lemma_mod_twice(1 + (m * k) * n, nn);
    lemma_mod_twice(pow(a, k), nn);
    lemma_encryption_form(n, pow(a, k) % nn, m * k, pow(r, k));
    lemma_mul_mod_noop_left(pow(a, k), pow(pow(r, k), n as nat), nn);
    lemma_blinding_power(p, q, lambda, r, k);
    lemma_mod_bound(m * k, n);
    lemma_round_trip_standard(n, lambda, mu, (m * k) % n, pow(r, k));
}

/// Rerandomization keeps the plaintext: an encryption of `m` blinded by `r'ⁿ`
/// decrypts to `m`.
pub proof fn lemma_rerandomization(p: int, q: int, lambda: int, mu: int, m: int, r: int, r2: int)
    requires
        p > 1,
        q > 1,
        lambda >= 0,
        0 <= m < p * q,
        (ell(pow(p * q + 1, lambda as nat) % (p * q * (p * q)), p * q) * mu) % (p * q) == 1,
        blinding_cancels(p, q, lambda, r),
        blinding_cancels(p, q, lambda, r2),
    ensures
        standard_decryption(p * q, lambda, mu, blinded(p * q, encryption_of(p * q, m, r), r2)) == m,
{
    let n = p * q;
    let nn = n * n;
    assert(n > 1 && nn > 0) by (nonlinear_arith)
        requires p > 1, q > 1, n == p * q, nn == n * n;
    let a = 1 + m * n;
    lemma_mul_mod_noop_left(a * pow(r, n as nat), pow(r2, n as nat), nn);
    lemma_pow_distributes(r, r2, n as nat);
    assert((a * pow(r, n as nat)) * pow(r2, n as nat) == a * (pow(r, n as nat) * pow(r2, n as nat)))
        by (nonlinear_arith);
    lemma_encryption_form(n, a, m, r * r2);
    lemma_small_mod(m as nat, n as nat);
    lemma_blinding_product(p, q, lambda, r, r2);
    lemma_round_trip_standard(n, lambda, mu, m, r * r2);
}

/// The factors of a key pair: two different primes.
pub open spec fn valid_factors(p: int, q: int) -> bool {
    is_prime(p) && is_prime(q) && p != q
}

/// `λ = lcm(p-1, q-1)`.
pub open spec fn carmichael(p: int, q: int) -> int {
    lcm((p - 1) as nat, (q - 1) as nat) as int
}

/// `μ` inverts `L((n+1)^λ mod n²)` modulo `n`, as the standard private key holds it.
pub open spec fn standard_key(p: int, q: int, mu: int) -> bool {
    let n = p * q;
    (ell(pow(n + 1, carmichael(p, q) as nat) % (n * n), n) * mu) % n == 1
}

/// `h_p`, `h_q` and `q⁻¹ mod p` are as the CRT private key holds them.
pub open spec fn crt_key(p: int, q: int, hp: int, hq: int, qinv: int) -> bool {
    &&& (crt_ell(p * q, p) * hp) % p == 1
    &&& (crt_ell(p * q, q) * hq) % q == 1
    &&& (q * qinv) % p == 1
}

/// Randomness usable for encryption: coprime to `n`.
pub open spec fn unit_randomness(p: int, q: int, r: int) -> bool {
    r >= 0 && gcd(r as nat, (p * q) as nat) == 1
}

/// A prime that divides `n` does not divide randomness coprime to `n`.
proof fn lemma_unit_not_divisible(r: nat, n: nat, p: int)
    requires
        is_prime(p),
        (n as int) % p == 0,
        gcd(r, n) == 1,
    ensures
        (r as int) % p != 0,
{
    if (r as int) % p == 0 {
        lemma_common_divisor(r, n, p);
        lemma_small_mod(1, p as nat);
    }
}

/// For two different primes and randomness coprime to `n = p·q`, the exponents
/// `n·λ`, `n·(p-1)` and `n·(q-1)` cancel the blinding factor (Carmichael's theorem
/// for `n²`, and Euler's for `p²` and `q²`).
pub proof fn lemma_units_blinding_cancels(p: int, q: int, r: int)
    requires
        valid_factors(p, q),
        unit_randomness(p, q, r),
    ensures
        blinding_cancels(p, q, carmichael(p, q), r),
{
    let n = p * q;
    let rn = r as nat;
    assert(n > 1 && n % p == 0 && n % q == 0) by {
        lemma_mod_multiples_basic(q, p);
        lemma_mod_multiples_basic(p, q);
        lemma_mul_is_commutative(p, q);
        assert(n > 1) by (nonlinear_arith)
            requires n == p * q, p > 1, q > 1;
    }
    lemma_unit_not_divisible(rn, n as nat, p);
    lemma_unit_not_divisible(rn, n as nat, q);
    // λ is a multiple of p-1 and of q-1.
    let a = (p - 1) as nat;
    let b = (q - 1) as nat;
    crate::scheme::lemma_gcd_positive(a, b);
    let g = gcd(a, b);
    lemma_gcd_divides(a, b);
    let tp = b / g;
    let tq = a / g;
    lemma_fundamental_div_mod(b as int, g as int);
    lemma_fundamental_div_mod(a as int, g as int);
    assert(a * b == g * (a * tp)) by (nonlinear_arith)
        requires b == g * tp + 0;
    assert(a * b == g * (b * tq)) by (nonlinear_arith)
        requires a == g * tq + 0;
    lemma_div_multiples_vanish((a * tp) as int, g as int);
    lemma_div_multiples_vanish((b * tq) as int, g as int);
    let lambda = carmichael(p, q);
    assert(lambda == a * tp && lambda == b * tq);
    // Each exponent is a multiple of p·(p-1) and, where needed, of q·(q-1).
    lemma_prime_square_power(p, rn, q as nat);
    lemma_prime_square_power(q, rn, p as nat);
    lemma_prime_square_power(p, rn, (q * tp) as nat);
    lemma_prime_square_power(q, rn, (p * tq) as nat);
    assert(n * (p - 1) == p * (p - 1) * q && n * (q - 1) == q * (q - 1) * p) by (nonlinear_arith)
        requires n == p * q;
    assert(n * lambda == p * (p - 1) * (q * tp) && n * lambda == q * (q - 1) * (p * tq))
        by (nonlinear_arith)
        requires n == p * q, lambda == a * tp, lambda == b * tq, a == p - 1, b == q - 1;
    assert(q * tp >= 0 && p * tq >= 0) by (nonlinear_arith)
        requires p > 1, q > 1, tp >= 0, tq >= 0;
    // r^(n·λ) - 1 is divisible by p² and by q², hence by n².
    let x = pow(r, (n * lambda) as nat);
    assert(r > 0) by {
        if r == 0 {
            lemma_small_mod(0, p as nat);
        }
    }
    lemma_pow_positive(r, (n * lambda) as nat);
    let pp = p * p;
    let qq = q * q;
    assert(pp > 1 && qq > 1 && n * n == pp * qq && n * n > 1) by (nonlinear_arith)
        requires p > 1, q > 1, n == p * q, pp == p * p, qq == q * q;
    lemma_small_mod(1, pp as nat);
    lemma_small_mod(1, qq as nat);
    lemma_sub_mod_noop(x, 1, pp);
    lemma_sub_mod_noop(x, 1, qq);
    lemma_small_mod(0, pp as nat);
    lemma_small_mod(0, qq as nat);
    lemma_prime_squares_divide(p, q, x - 1);
    lemma_small_mod(1, (n * n) as nat);
    lemma_add_mod_noop(x - 1, 1, n * n);
    lemma_small_mod(0, (n * n) as nat);
}

/// Decryption inverts encryption, in both private-key forms: for a key pair of
/// two different primes, every plaintext `m ∈ [0, n)` and randomness coprime to `n`.
pub proof fn lemma_decryption_inverts_encryption(
    p: int,
    q: int,
    mu: int,
    hp: int,
    hq: int,
    qinv: int,
    m: int,
    r: int,
)
    requires
        valid_factors(p, q),
        standard_key(p, q, mu),
        crt_key(p, q, hp, hq, qinv),
        0 <= m < p * q,
        unit_randomness(p, q, r),
    ensures
        reduces_to_one(encryption_of(p * q, m, r), carmichael(p, q), p * q),
        standard_decryption(p * q, carmichael(p, q), mu, encryption_of(p * q, m, r)) == m,
        reduces_to_one(encryption_of(p * q, m, r), p - 1, p),
        reduces_to_one(encryption_of(p * q, m, r), q - 1, q),
        crt_decryption(p, q, hp, hq, qinv, encryption_of(p * q, m, r)) == m,
{
    lemma_units_blinding_cancels(p, q, r);
    assert(p * q > 1) by (nonlinear_arith)
        requires p > 1, q > 1;
    lemma_round_trip_standard(p * q, carmichael(p, q), mu, m, r);
    lemma_round_trip_crt(p, q, hp, hq, qinv, m, r);
}

/// CRT decryption and standard decryption agree on every ciphertext of the key:
/// every encryption of an `m ∈ [0, n)` with randomness coprime to `n`.
pub proof fn lemma_crt_agrees_with_standard(
    p: int,
    q: int,
    mu: int,
    hp: int,
    hq: int,
    qinv: int,
    m: int,
    r: int,
)
    requires
        valid_factors(p, q),
        standard_key(p, q, mu),
        crt_key(p, q, hp, hq, qinv),
        0 <= m < p * q,
        unit_randomness(p, q, r),
    ensures
        crt_decryption(p, q, hp, hq, qinv, encryption_of(p * q, m, r)) == standard_decryption(
            p * q,
            carmichael(p, q),
            mu,
            encryption_of(p * q, m, r),
        ),
{
    lemma_decryption_inverts_encryption(p, q, mu, hp, hq, qinv, m, r);
}

/// Adding ciphertexts adds plaintexts: the product modulo `n²` of encryptions of
/// `m1` and `m2` decrypts to `(m1 + m2) mod n`.
pub proof fn lemma_decrypt_sum(p: int, q: int, mu: int, m1: int, m2: int, r1: int, r2: int)
    requires
        valid_factors(p, q),
        standard_key(p, q, mu),
        0 <= m1 < p * q,
        0 <= m2 < p * q,
        unit_randomness(p, q, r1),
        unit_randomness(p, q, r2),
    ensures
        standard_decryption(
            p * q,
            carmichael(p, q),
            mu,
            (encryption_of(p * q, m1, r1) * encryption_of(p * q, m2, r2)) % (p * q * (p * q)),
        ) == (m1 + m2) % (p * q),
{
    lemma_units_blinding_cancels(p, q, r1);
    lemma_units_blinding_cancels(p, q, r2);
    lemma_homomorphic_addition(p, q, carmichael(p, q), mu, m1, m2, r1, r2);
}

/// Raising a ciphertext to `k` multiplies its plaintext: an encryption of `m`
/// to the power `k` modulo `n²` decrypts to `m·k mod n`.
pub proof fn lemma_decrypt_scaled(p: int, q: int, mu: int, m: int, k: nat, r: int)
    requires
        valid_factors(p, q),
        standard_key(p, q, mu),
        0 <= m < p * q,
        unit_randomness(p, q, r),
    ensures
        standard_decryption(p * q, carmichael(p, q), mu, pow(encryption_of(p * q, m, r), k) % (p * q * (
        p * q))) == (m * k) % (p * q),
{
    lemma_units_blinding_cancels(p, q, r);
    lemma_homomorphic_scalar(p, q, carmichael(p, q), mu, m, k, r);
}

/// Rerandomizing keeps the plaintext: an encryption of `m` blinded by `r2ⁿ`
/// decrypts to `m`.
pub proof fn lemma_decrypt_rerandomized(p: int, q: int, mu: int, m: int, r: int, r2: int)
    requires
        valid_factors(p, q),
        standard_key(p, q, mu),
        0 <= m < p * q,
        unit_randomness(p, q, r),
        unit_randomness(p, q, r2),
    ensures
        standard_decryption(p * q, carmichael(p, q), mu, blinded(p * q, encryption_of(p * q, m, r), r2))
            == m,
{
    lemma_units_blinding_cancels(p, q, r);
    lemma_units_blinding_cancels(p, q, r2);
    lemma_rerandomization(p, q, carmichael(p, q), mu, m, r, r2);
}

/// Where `q` is a prime with `gcd(q, p-1) == 1` and `r^(p·q) ≡ 1 (mod p)`, `r ≡ 1 (mod p)`.
proof fn lemma_unit_root_is_one(p: int, q: int, r: int)
    requires
        is_prime(p),
        is_prime(q),
        gcd(q as nat, (p - 1) as nat) == 1,
        r >= 1,
        pow(r, (p * q) as nat) % p == 1,
    ensures
        r % p == 1,
{
    let pn = p as nat;
    let qn = q as nat;
    lemma_small_mod(1, pn);
    lemma_small_mod(0, pn);
    // r^(p·q) == (r^p)^q ≡ r^q (mod p)
    assert(p * q >= 0) by (nonlinear_arith)
        requires p > 1, q > 1;
    lemma_pow_multiplies(r, pn, qn);
    assert(pn * qn == (p * q) as nat);
    lemma_fermat_weak(r as nat, p);
    lemma_pow_mod_noop(pow(r, pn), qn, p);
    lemma_pow_mod_noop(r, qn, p);
    assert(pow(r, qn) % p == 1);
    // p does not divide r
    assert(r % p != 0) by {
        if r % p == 0 {
            lemma_pow_mod_noop(r, qn, p);
            crate::scheme::lemma_pow1_any(0);
            assert(pow(0, qn) == 0) by {
                reveal(pow);
                assert(pow(0, qn) == 0 * pow(0, (qn - 1) as nat));
            }
        }
    }
    lemma_fermat(r as nat, p);
    // x·q ≡ 1 (mod p-1) for some x >= 1
    let m = p - 1;
    let (x, y) = lemma_bezout(qn, (p - 1) as nat);
    let x1 = x % m + m;
    lemma_fundamental_div_mod(x, m);
    lemma_mod_bound(x, m);
    let k = (x / m) - 1;
    assert(q * x1 == 1 + (p - 1) * (q * (-k) - y)) by (nonlinear_arith)
        requires q * x + (p - 1) * y == 1, x == m * (x / m) + x % m, x1 == x % m + m, m == p - 1, k == x / m - 1;
    let t = q * (-k) - y;
    assert(q * x1 >= 2 && x1 >= 1) by (nonlinear_arith)
        requires x1 == x % m + m, x % m >= 0, m >= 1, q > 1;
    assert(t >= 0) by (nonlinear_arith)
        requires q * x1 == 1 + (p - 1) * t, q * x1 >= 2, p - 1 >= 1;
    // r^(q·x1) == (r^q)^x1 ≡ 1, and r^(q·x1) == r·(r^(p-1))^t ≡ r (mod p)
    let e = (q * x1) as nat;
    lemma_pow_multiplies(r, qn, x1 as nat);
    assert(qn * (x1 as nat) == e);
    lemma_pow_mod_noop(pow(r, qn), x1 as nat, p);
    crate::scheme::lemma_pow1_any(x1 as nat);
    assert(pow(r, e) % p == 1);
    let pm = (p - 1) as nat;
    lemma_pow_multiplies(r, pm, t as nat);
    assert(e == 1 + pm * (t as nat));
    lemma_pow_adds(r, 1, pm * (t as nat));
    lemma_pow1(r);
    lemma_pow_mod_noop(pow(r, pm), t as nat, p);
    crate::scheme::lemma_pow1_any(t as nat);
    lemma_mul_mod_noop_right(r, pow(pow(r, pm), t as nat), p);
    lemma_mul_mod_noop_right(r, 1, p);
}

/// For a key pair from the key generator, `gcd(q, p-1) == 1`.
proof fn lemma_factor_coprime_to_other(p: int, q: int)
    requires
        valid_factors(p, q),
        gcd((p * q) as nat, ((p - 1) * (q - 1)) as nat) == 1,
    ensures
        gcd(q as nat, (p - 1) as nat) == 1,
{
    let qn = q as nat;
    let pm = (p - 1) as nat;
    crate::scheme::lemma_gcd_positive(qn, pm);
    lemma_gcd_divides(qn, pm);
    let g = gcd(qn, pm);
    assert(g <= q) by {
        if g > q {
            lemma_small_mod(qn, g);
        }
    }
    if g != 1 {
        if g < q {
            assert((q % (g as int)) != 0);
        }
        assert(g == q);
        // q divides both n and (p-1)(q-1)
        lemma_mod_multiples_basic(p, q);
        lemma_mul_is_commutative(p, q);
        let s = (p - 1) / q;
        lemma_fundamental_div_mod(p - 1, q);
        assert((p - 1) * (q - 1) == q * (s * (q - 1))) by (nonlinear_arith)
            requires p - 1 == q * s + 0;
        lemma_mod_multiples_basic(s * (q - 1), q);
        lemma_mul_is_commutative(s * (q - 1), q);
        lemma_common_divisor((p * q) as nat, ((p - 1) * (q - 1)) as nat, q);
        lemma_small_mod(1, qn);
    }
}

/// Rerandomizing changes a ciphertext: for a key pair from the key generator,
/// a ciphertext coprime to `n` and randomness `r ∈ [1, n)`, `c·rⁿ mod n²` equals
/// `c mod n²` only for `r == 1`.
pub proof fn lemma_rerandomized_differs(p: int, q: int, c: int, r: int)
    requires
        valid_factors(p, q),
        gcd((p * q) as nat, ((p - 1) * (q - 1)) as nat) == 1,
        c >= 0,
        gcd(c as nat, (p * q) as nat) == 1,
        1 <= r < p * q,
        blinded(p * q, c, r) == c % (p * q * (p * q)),
    ensures
        r == 1,
{
    let n = p * q;
    let nn = n * n;
    assert(n > 1 && nn > 0 && n >= 0) by (nonlinear_arith)
        requires p > 1, q > 1, n == p * q, nn == n * n;
    let x = pow(r, n as nat);
    lemma_pow_positive(r, n as nat);
    assert(n % p == 0 && n % q == 0) by {
        lemma_mod_multiples_basic(q, p);
        lemma_mod_multiples_basic(p, q);
        lemma_mul_is_commutative(p, q);
    }
    lemma_unit_not_divisible(c as nat, n as nat, p);
    lemma_unit_not_divisible(c as nat, n as nat, q);
    // c·x ≡ c (mod p) and (mod q): p and q divide c·(x - 1)
    assert forall|f: int| f == p || f == q implies (#[trigger] (x % f)) == 1 by {
        lemma_fundamental_div_mod(n, f);
        assert(nn == f * (n * (n / f))) by {
            assert(nn == f * (n * (n / f))) by (nonlinear_arith)
                requires n == f * (n / f) + 0, nn == n * n;
        }
        assert(n * (n / f) > 0) by (nonlinear_arith)
            requires n > 1, n == f * (n / f) + 0, f > 1;
        lemma_mod_mod(c * x, f, n * (n / f));
        lemma_mod_mod(c, f, n * (n / f));
        assert((c * x) % f == c % f);
        lemma_sub_mod_noop(c * x, c, f);
        lemma_small_mod(0, f as nat);
        assert(c * x - c == c * (x - 1)) by (nonlinear_arith);
        lemma_euclid(f, c, x - 1);
        lemma_add_mod_noop(x - 1, 1, f);
        lemma_small_mod(1, f as nat);
    }
    assert(x % p == 1);
    assert(x % q == 1);
    lemma_factor_coprime_to_other(p, q);
    assert(gcd(((q * p) as nat), ((q - 1) * (p - 1)) as nat) == 1) by {
        assert(q * p == p * q) by (nonlinear_arith);
        assert((q - 1) * (p - 1) == (p - 1) * (q - 1)) by (nonlinear_arith);
    }
    lemma_factor_coprime_to_other(q, p);
    lemma_unit_root_is_one(p, q, r);
    assert(pow(r, (q * p) as nat) % q == 1) by {
        assert(q * p == p * q) by (nonlinear_arith);
    }
    lemma_unit_root_is_one(q, p, r);
    // p and q divide r - 1 < n, so r - 1 == 0
    lemma_sub_mod_noop(r, 1, p);
    lemma_sub_mod_noop(r, 1, q);
    lemma_small_mod(1, p as nat);
    lemma_small_mod(1, q as nat);
    lemma_small_mod(0, p as nat);
    lemma_small_mod(0, q as nat);
    let s = (r - 1) / p;
    lemma_fundamental_div_mod(r - 1, p);
    lemma_div_pos_is_pos(r - 1, p);
    lemma_distinct_primes(p, q);
    assert((p * s) % q == 0) by {
        assert(r - 1 == p * s);
    }
    lemma_euclid(q, p, s);
    let s1 = s / q;
    lemma_fundamental_div_mod(s, q);
    assert(r - 1 == n * s1) by (nonlinear_arith)
        requires r - 1 == p * s + 0, s == q * s1 + 0, n == p * q;
    assert(s1 >= 0) by {
        lemma_div_pos_is_pos(s, q);
    }
    assert(s1 == 0) by (nonlinear_arith)
        requires r - 1 == n * s1, 0 <= r - 1 < n, s1 >= 0, n > 1;
    assert(r - 1 == 0) by (nonlinear_arith)
        requires r - 1 == n * s1, s1 == 0;
}

} // verus!
