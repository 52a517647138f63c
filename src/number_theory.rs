//! Elementary number theory behind decryption: Bezout and Euclid's lemma,
//! Fermat's little theorem by the binomial theorem, its lift to prime
//! squares, and the recombination of congruences modulo two prime squares.
use crate::arith::gcd;
use vstd::arithmetic::div_mod::*;
use vstd::arithmetic::mul::*;
use vstd::arithmetic::power::*;
use vstd::prelude::*;

verus! {

/// `p` is prime.
pub open spec fn is_prime(p: int) -> bool {
    p > 1 && forall|d: int| 1 < d < p ==> #[trigger] (p % d) != 0
}

/// The binomial coefficient, by Pascal's rule.
pub open spec fn binom(n: nat, k: nat) -> nat
    decreases n,
{
    if k == 0 {
        1
    } else if n == 0 {
        0
    } else {
        binom((n - 1) as nat, (k - 1) as nat) + binom((n - 1) as nat, k)
    }
}

/// `Σ_{k < j} binom(n, k)·x^k`.
pub open spec fn binom_sum(x: int, n: nat, j: nat) -> int
    decreases j,
{
    if j == 0 {
        0
    } else {
        binom_sum(x, n, (j - 1) as nat) + binom(n, (j - 1) as nat) * pow(x, (j - 1) as nat)
    }
}

proof fn lemma_binom_sum_one(x: int, n: nat)
    ensures
        binom_sum(x, n, 1) == 1,
{
    assert(binom_sum(x, n, 0) == 0);
    lemma_pow0(x);
}

proof fn lemma_binom_above(n: nat, k: nat)
    requires
        k > n,
    ensures
        binom(n, k) == 0,
    decreases n,
{
    if n > 0 {
        lemma_binom_above((n - 1) as nat, (k - 1) as nat);
        lemma_binom_above((n - 1) as nat, k);
    }
}

proof fn lemma_binom_self(n: nat)
    ensures
        binom(n, n) == 1,
    decreases n,
{
    if n > 0 {
        lemma_binom_self((n - 1) as nat);
        lemma_binom_above((n - 1) as nat, n);
    }
}

proof fn lemma_pascal_sum(x: int, n: nat, j: nat)
    ensures
        binom_sum(x, n + 1, j + 1) == binom_sum(x, n, j + 1) + x * binom_sum(x, n, j),
    decreases j,
{
    reveal(pow);
    if j == 0 {
        lemma_binom_sum_one(x, n + 1);
        lemma_binom_sum_one(x, n);
        assert(binom_sum(x, n, 0) == 0);
    } else {
        let j1 = (j - 1) as nat;
        lemma_pascal_sum(x, n, j1);
        assert(binom(n + 1, j) == binom(n, j1) + binom(n, j));
        assert(pow(x, j) == x * pow(x, j1));
        assert(binom_sum(x, n + 1, j + 1) == binom_sum(x, n + 1, j) + binom(n + 1, j) * pow(x, j));
        assert(binom_sum(x, n, j + 1) == binom_sum(x, n, j) + binom(n, j) * pow(x, j));
        assert(binom_sum(x, n, j) == binom_sum(x, n, j1) + binom(n, j1) * pow(x, j1));
        assert((binom(n, j1) + binom(n, j)) * (x * pow(x, j1)) == binom(n, j) * pow(x, j) + x * (binom(n,
            j1) * pow(x, j1))) by (nonlinear_arith)
            requires pow(x, j) == x * pow(x, j1);
        assert(x * binom_sum(x, n, j) == x * binom_sum(x, n, j1) + x * (binom(n, j1) * pow(x, j1)))
            by (nonlinear_arith)
            requires binom_sum(x, n, j) == binom_sum(x, n, j1) + binom(n, j1) * pow(x, j1);
    }
}

/// The binomial theorem: `(x + 1)^n == Σ_{k ≤ n} binom(n, k)·x^k`.
pub proof fn lemma_binomial(x: int, n: nat)
    ensures
        pow(x + 1, n) == binom_sum(x, n, n + 1),
    decreases n,
{
    reveal(pow);
    if n == 0 {
        lemma_binom_sum_one(x, 0);
    } else {
        let n1 = (n - 1) as nat;
        lemma_binomial(x, n1);
        lemma_pascal_sum(x, n1, n);
        lemma_binom_above(n1, n);
        assert(binom_sum(x, n1, n + 1) == binom_sum(x, n1, n) + binom(n1, n) * pow(x, n));
        assert(pow(x + 1, n) == (x + 1) * pow(x + 1, n1));
        assert((x + 1) * binom_sum(x, n1, n) == binom_sum(x, n1, n) + x * binom_sum(x, n1, n))
            by (nonlinear_arith);
    }
}

/// `k·binom(n, k) == n·binom(n-1, k-1)`.
proof fn lemma_absorption(n: nat, k: nat)
    requires
        n >= 1,
        k >= 1,
    ensures
        k * binom(n, k) == n * binom((n - 1) as nat, (k - 1) as nat),
    decreases n,
{
    let n1 = (n - 1) as nat;
    let k1 = (k - 1) as nat;
    if n == 1 {
        if k > 1 {
            lemma_binom_above(0, k1);
            lemma_binom_above(0, k);
            assert(binom(1, k) == binom(0, k1) + binom(0, k));
            assert(k * binom(n, k) == n * binom(n1, k1)) by (nonlinear_arith)
                requires binom(n, k) == 0, binom(n1, k1) == 0;
        } else {
            assert(binom(0, 1) == 0);
            assert(binom(1, 1) == binom(0, 0) + binom(0, 1));
            assert(k * binom(n, k) == n * binom(n1, k1)) by (nonlinear_arith)
                requires k == 1, n == 1, n1 == 0, k1 == 0, binom(1, 1) == 1, binom(0, 0) == 1;
        }
    } else {
        let n2 = (n - 2) as nat;
        // k·binom(n-1, k) == (n-1)·binom(n-2, k-1)
        lemma_absorption(n1, k);
        if k == 1 {
            assert(binom(n, 1) == binom(n1, 0) + binom(n1, 1));
            assert(binom(n1, 0) == 1);
            assert(binom(n2, 0) == 1);
            assert(1 * binom(n1, 1) == n1 * binom(n2, 0));
            assert(binom(n1, 1) == n1) by (nonlinear_arith)
                requires 1 * binom(n1, 1) == n1 * binom(n2, 0), binom(n2, 0) == 1;
            assert(binom(n, 1) == n);
            assert(k * binom(n, k) == n * binom(n1, k1)) by (nonlinear_arith)
                requires k == 1, k1 == 0, binom(n, 1) == n, binom(n1, 0) == 1;
        } else {
            let k2 = (k - 2) as nat;
            // (k-1)·binom(n-1, k-1) == (n-1)·binom(n-2, k-2)
            lemma_absorption(n1, k1);
            assert(binom(n1, k1) == binom(n2, k2) + binom(n2, k1));
            assert(k * binom(n, k) == n * binom(n1, k1)) by (nonlinear_arith)
                requires
                    binom(n, k) == binom(n1, k1) + binom(n1, k),
                    k * binom(n1, k) == n1 * binom(n2, k1),
                    k1 * binom(n1, k1) == n1 * binom(n2, k2),
                    binom(n1, k1) == binom(n2, k2) + binom(n2, k1),
                    k1 == k - 1,
                    n1 == n - 1;
        }
    }
}

/// Where `d` divides `u` and `v`, it divides `k·u + v`.
proof fn lemma_divides_combination(u: int, v: int, k: int, d: int)
    requires
        d > 0,
        u % d == 0,
        v % d == 0,
    ensures
        (k * u + v) % d == 0,
{
    lemma_fundamental_div_mod(u, d);
    lemma_fundamental_div_mod(v, d);
    assert(k * u + v == d * (k * (u / d) + v / d)) by (nonlinear_arith)
        requires u == d * (u / d) + 0, v == d * (v / d) + 0;
    lemma_mod_multiples_basic(k * (u / d) + v / d, d);
    lemma_mul_is_commutative(d, k * (u / d) + v / d);
}

/// `gcd(a, b)` divides `a` and `b`.
pub proof fn lemma_gcd_divides(a: nat, b: nat)
    requires
        gcd(a, b) > 0,
    ensures
        a % gcd(a, b) == 0,
        b % gcd(a, b) == 0,
    decreases b,
{
    let g = gcd(a, b);
    if b == 0 {
        lemma_mod_self_0(a as int);
        lemma_small_mod(0, a);
    } else {
        lemma_gcd_divides(b, a % b);
        lemma_fundamental_div_mod(a as int, b as int);
        lemma_divides_combination(b as int, (a % b) as int, (a / b) as int, g as int);
        lemma_mul_is_commutative(b as int, (a / b) as int);
    }
}

/// A common divisor of `a` and `b` divides `gcd(a, b)`.
pub proof fn lemma_common_divisor(a: nat, b: nat, d: int)
    requires
        d > 0,
        (a as int) % d == 0,
        (b as int) % d == 0,
    ensures
        (gcd(a, b) as int) % d == 0,
    decreases b,
{
    if b > 0 {
        let (ai, bi) = (a as int, b as int);
        let qt = ai / bi;
        let rm = ai % bi;
        lemma_fundamental_div_mod(ai, bi);
        lemma_divides_combination(bi, ai, -qt, d);
        assert(rm == -qt * bi + ai) by (nonlinear_arith)
            requires ai == bi * qt + rm;
        lemma_common_divisor(b, a % b, d);
    }
}

/// Bezout's identity: `a·x + b·y == gcd(a, b)` for some integers `x`, `y`.
pub proof fn lemma_bezout(a: nat, b: nat) -> (r: (int, int))
    ensures
        a * r.0 + b * r.1 == gcd(a, b),
    decreases b,
{
    if b == 0 {
        (1, 0)
    } else {
        let (x, y) = lemma_bezout(b, a % b);
        let (ai, bi) = (a as int, b as int);
        let qt = ai / bi;
        let rm = ai % bi;
        lemma_fundamental_div_mod(ai, bi);
        assert(ai * y + bi * (x - qt * y) == bi * x + rm * y) by (nonlinear_arith)
            requires ai == bi * qt + rm;
        (y, x - qt * y)
    }
}

/// A prime that divides neither of two naturals does not divide their product
/// (Euclid's lemma).
pub proof fn lemma_euclid(p: int, a: int, b: int)
    requires
        is_prime(p),
        a >= 0,
        b >= 0,
        (a * b) % p == 0,
    ensures
        a % p == 0 || b % p == 0,
{
    if a % p != 0 {
        let g = gcd(p as nat, a as nat);
        crate::scheme::lemma_gcd_positive(p as nat, a as nat);
        lemma_gcd_divides(p as nat, a as nat);
        // g divides p, so g is 1 or p; it divides a, so it is not p.
        assert(g <= p) by {
            if g > p {
                lemma_small_mod(p as nat, g);
            }
        }
        assert(g == 1) by {
            if g != 1 && g != p {
                assert(1 < g < p);
                assert(p % (g as int) != 0);
            }
        }
        let (x, y) = lemma_bezout(p as nat, a as nat);
        // b == p·(x·b) + (a·b)·y
        assert(b == (x * b) * p + y * (a * b)) by (nonlinear_arith)
            requires p * x + a * y == 1;
        lemma_mod_multiples_basic(x * b, p);
        lemma_mul_is_commutative(x * b, p);
        lemma_divides_combination(a * b, 0, y, p);
        lemma_small_mod(0, p as nat);
        lemma_divides_combination(p * (x * b), y * (a * b), 1, p);
        lemma_mul_is_commutative(y, a * b);
    }
}

/// A prime divides `binom(p, k)` for `0 < k < p`.
proof fn lemma_prime_divides_binom(p: int, k: nat)
    requires
        is_prime(p),
        0 < k < p,
    ensures
        (binom(p as nat, k) as int) % p == 0,
{
    lemma_absorption(p as nat, k);
    lemma_mod_multiples_basic(binom((p - 1) as nat, (k - 1) as nat) as int, p);
    lemma_mul_is_commutative(binom((p - 1) as nat, (k - 1) as nat) as int, p);
    lemma_euclid(p, k as int, binom(p as nat, k) as int);
    lemma_small_mod(k, p as nat);
}

proof fn lemma_inner_terms(x: int, p: int, j: nat)
    requires
        is_prime(p),
        1 <= j <= p,
    ensures
        binom_sum(x, p as nat, j) % p == 1,
    decreases j,
{
    reveal(pow);
    lemma_small_mod(1, p as nat);
    if j == 1 {
        lemma_binom_sum_one(x, p as nat);
    } else {
        let j1 = (j - 1) as nat;
        lemma_inner_terms(x, p, j1);
        lemma_prime_divides_binom(p, j1);
        let t = binom(p as nat, j1) * pow(x, j1);
        lemma_mul_mod_noop_left(binom(p as nat, j1) as int, pow(x, j1), p);
        lemma_small_mod(0, p as nat);
        lemma_add_mod_noop(binom_sum(x, p as nat, j1), t, p);
    }
}

/// `(x + 1)^p ≡ x^p + 1 (mod p)` for a prime `p`.
proof fn lemma_freshman(x: int, p: int)
    requires
        is_prime(p),
    ensures
        pow(x + 1, p as nat) % p == (pow(x, p as nat) + 1) % p,
{
    let pn = p as nat;
    lemma_binomial(x, pn);
    lemma_binom_self(pn);
    assert(binom_sum(x, pn, pn + 1) == binom_sum(x, pn, pn) + pow(x, pn));
    lemma_inner_terms(x, p, pn);
    lemma_add_mod_noop(binom_sum(x, pn, pn), pow(x, pn), p);
    lemma_add_mod_noop(1, pow(x, pn), p);
    lemma_small_mod(1, pn);
}

/// `a^p ≡ a (mod p)` for a prime `p`.
pub proof fn lemma_fermat_weak(a: nat, p: int)
    requires
        is_prime(p),
    ensures
        pow(a as int, p as nat) % p == (a as int) % p,
    decreases a,
{
    if a == 0 {
        lemma_pow0(0);
        reveal(pow);
        assert(pow(0, p as nat) == 0 * pow(0, (p - 1) as nat));
    } else {
        let a1 = (a - 1) as nat;
        lemma_fermat_weak(a1, p);
        lemma_freshman(a1 as int, p);
        lemma_add_mod_noop(pow(a1 as int, p as nat), 1, p);
        lemma_add_mod_noop(a1 as int, 1, p);
    }
}

/// Fermat's little theorem: `a^(p-1) ≡ 1 (mod p)` for a prime `p` not dividing `a`.
pub proof fn lemma_fermat(a: nat, p: int)
    requires
        is_prime(p),
        (a as int) % p != 0,
    ensures
        pow(a as int, (p - 1) as nat) % p == 1,
{
    let e = (p - 1) as nat;
    let b = pow(a as int, e);
    assert(a > 0) by {
        if a == 0 {
            lemma_small_mod(0, p as nat);
        }
    }
    lemma_pow_positive(a as int, e);
    reveal(pow);
    assert(pow(a as int, p as nat) == a * b);
    lemma_fermat_weak(a, p);
    // p divides a·b - a == a·(b - 1)
    lemma_sub_mod_noop(a * b, a as int, p);
    lemma_small_mod(0, p as nat);
    assert(a * b - a == a * (b - 1)) by (nonlinear_arith);
    lemma_euclid(p, a as int, b - 1);
    lemma_add_mod_noop(b - 1, 1, p);
    lemma_small_mod(1, p as nat);
}

/// Where `x ≡ 1 (mod p)`, `x^p ≡ 1 (mod p²)`.
proof fn lemma_lift(x: int, p: int)
    requires
        p > 1,
        x >= 0,
        x % p == 1,
    ensures
        pow(x, p as nat) % (p * p) == 1,
{
    let k = x / p;
    lemma_fundamental_div_mod(x, p);
    assert(k >= 0) by {
        lemma_div_pos_is_pos(x, p);
    }
    assert(x == 1 + k * p) by {
        lemma_mul_is_commutative(p, k);
    }
    crate::laws::lemma_linear_power(p, k, p as nat);
    assert(p * k * p == (p * p) * k) by (nonlinear_arith);
    assert(p * p > 1) by (nonlinear_arith)
        requires p > 1;
    lemma_mod_multiples_vanish(k, 1, p * p);
    lemma_small_mod(1, (p * p) as nat);
}

/// `r^(p·(p-1)·t) ≡ 1 (mod p²)` for a prime `p` not dividing `r`.
pub proof fn lemma_prime_square_power(p: int, r: nat, t: nat)
    requires
        is_prime(p),
        (r as int) % p != 0,
    ensures
        pow(r as int, (p * (p - 1) * t) as nat) % (p * p) == 1,
{
    let e = (p - 1) as nat;
    lemma_fermat(r, p);
    assert(r > 0) by {
        if r == 0 {
            lemma_small_mod(0, p as nat);
        }
    }
    lemma_pow_positive(r as int, e);
    lemma_lift(pow(r as int, e), p);
    lemma_pow_multiplies(r as int, e, p as nat);
    lemma_pow_multiplies(r as int, e * (p as nat), t);
    assert((e * (p as nat)) * t == (p * (p - 1) * t) as nat) by (nonlinear_arith)
        requires e == p - 1, p > 1;
    assert(p * p > 1) by (nonlinear_arith)
        requires p > 1;
    lemma_pow_mod_noop(pow(r as int, e * (p as nat)), t, p * p);
    crate::scheme::lemma_pow1_any(t);
    lemma_small_mod(1, (p * p) as nat);
}

/// A prime does not divide a different prime.
pub proof fn lemma_distinct_primes(p: int, q: int)
    requires
        is_prime(p),
        is_prime(q),
        p != q,
    ensures
        p % q != 0,
{
    if q > p {
        lemma_small_mod(p as nat, q as nat);
    }
}

/// What the squares of two different primes both divide, their product divides.
pub proof fn lemma_prime_squares_divide(p: int, q: int, y: int)
    requires
        is_prime(p),
        is_prime(q),
        p != q,
        y >= 0,
        y % (p * p) == 0,
        y % (q * q) == 0,
    ensures
        y % (p * p * (q * q)) == 0,
{
    let pp = p * p;
    let qq = q * q;
    assert(pp > 0 && qq > 0) by (nonlinear_arith)
        requires p > 1, q > 1, pp == p * p, qq == q * q;
    let s = y / pp;
    lemma_fundamental_div_mod(y, pp);
    lemma_div_pos_is_pos(y, pp);
    // q divides p·(p·s), and not p: so it divides s.
    lemma_mod_mod(y, q, q);
    assert(y == p * (p * s)) by (nonlinear_arith)
        requires y == pp * s + 0, pp == p * p;
    lemma_distinct_primes(p, q);
    assert(p * s >= 0 && q >= 0) by (nonlinear_arith)
        requires p > 1, s >= 0, q > 1;
    lemma_euclid(q, p, p * s);
    lemma_euclid(q, p, s);
    let s1 = s / q;
    lemma_fundamental_div_mod(s, q);
    lemma_div_pos_is_pos(s, q);
    // y == q·(p²·s1), and q² divides it: so q divides p²·s1, hence s1.
    assert(y == q * (pp * s1)) by (nonlinear_arith)
        requires y == pp * s, s == q * s1 + 0;
    assert(y / q == pp * s1) by {
        lemma_div_multiples_vanish(pp * s1, q);
    }
    assert((y / q) % q == 0) by {
        lemma_div_denominator(y, q, q);
        lemma_fundamental_div_mod(y, qq);
        assert(y == qq * (y / qq)) by {
            lemma_mul_is_commutative(qq, y / qq);
        }
        assert(y == q * (q * (y / qq))) by (nonlinear_arith)
            requires y == qq * (y / qq), qq == q * q;
        lemma_div_multiples_vanish(q * (y / qq), q);
        lemma_mod_multiples_basic(y / qq, q);
        lemma_mul_is_commutative(y / qq, q);
    }
    assert(pp * s1 >= 0 && pp >= 0) by (nonlinear_arith)
        requires pp > 0, s1 >= 0;
    assert(pp * s1 == p * (p * s1)) by (nonlinear_arith)
        requires pp == p * p;
    assert((p * (p * s1)) % q == 0);
    lemma_euclid(q, p, p * s1);
    assert(p * s1 >= 0) by (nonlinear_arith)
        requires p > 1, s1 >= 0;
    lemma_euclid(q, p, s1);
    let s2 = s1 / q;
    lemma_fundamental_div_mod(s1, q);
    assert(y == (pp * qq) * s2) by (nonlinear_arith)
        requires y == pp * s, s == q * s1 + 0, s1 == q * s2 + 0, qq == q * q;
    assert(pp * qq > 0) by (nonlinear_arith)
        requires pp > 0, qq > 0;
    lemma_mod_multiples_basic(s2, pp * qq);
    lemma_mul_is_commutative(s2, pp * qq);
}

} // verus!
