//! Probable-prime testing and key-pair generation.
use crate::arith::{gcd, with_bit, BigInteger};
use crate::arith;
use crate::number_theory::{is_prime, lemma_euclid, lemma_fermat};
use crate::scheme::{Error, Keypair};
use vstd::arithmetic::div_mod::*;
use vstd::arithmetic::power::*;
use vstd::arithmetic::power2::*;
use vstd::prelude::*;

verus! {

/// Trial division covers the divisors below this bound.
pub const TRIAL_DIVISION_BOUND: u64 = 1000;

/// Miller-Rabin rounds with random bases after trial division.
pub const MILLER_RABIN_ROUNDS: u64 = 20;

/// Attempts at drawing one prime before key generation gives up.
pub const PRIME_ATTEMPTS: u64 = 100000;

/// Attempts at drawing a suitable pair of primes before key generation gives up.
pub const PAIR_ATTEMPTS: u64 = 100;

/// `m` with every factor two removed (`0` stays `0`).
pub open spec fn odd_part(m: nat) -> nat
    decreases m,
{
    if m == 0 || m % 2 == 1 {
        m
    } else {
        odd_part(m / 2)
    }
}

/// `n` is a strong probable prime to base `a`: with `n - 1 = d·2^s`, `d` odd,
/// either `a^d ≡ 1` or `a^(d·2^i) ≡ -1 (mod n)` for some `d·2^i < n - 1`.
pub open spec fn strong_probable_prime(n: nat, a: nat) -> bool {
    let d = odd_part((n - 1) as nat);
    ||| pow(a as int, d) % (n as int) == 1
    ||| exists|i: nat| #![trigger pow2(i)]
        d * pow2(i) < n - 1 && pow(a as int, d * pow2(i)) % (n as int) == n - 1
}

/// No divisor of `n` in `[2, bound)` other than `n` itself.
pub open spec fn no_small_factor(n: nat, bound: nat) -> bool {
    forall|d: nat| #![trigger n % d] 2 <= d < bound && d < n ==> n % d != 0
}

/// One round of the Miller-Rabin test of `n` with base `a`.
pub fn miller_rabin_round(n: &BigInteger, a: &BigInteger) -> (r: bool)
    requires
        n@ > 2,
    ensures
        r == strong_probable_prime(n@, a@),
{
    let one = BigInteger::from_u64(1);
    let nm1 = arith::sub(n, &one);
    let mut d = arith::copy(&nm1);
    while arith::is_even(&d)
        invariant
            d@ > 0,
            odd_part(d@) == odd_part(nm1@),
        decreases d@,
    {
        d = arith::shr(&d, 1);
        proof {
            lemma2_to64();
        }
    }
    let ghost dv = d@;
    assert(dv == odd_part(nm1@));
    let mut x = arith::modpow(a, &d, n);
    if arith::eq(&x, &one) {
        proof {
            lemma_small_mod(1, n@);
        }
        return true;
    }
    proof {
        lemma_small_mod(1, n@);
        lemma2_to64();
    }
    let mut e = d;
    let ghost mut i: nat = 0;
    while arith::lt(&e, &nm1)
        invariant
            n@ > 2,
            nm1@ == n@ - 1,
            dv == odd_part(nm1@),
            dv > 0,
            e@ == dv * pow2(i),
            x@ == pow(a@ as int, e@) % (n@ as int),
            pow(a@ as int, dv) % (n@ as int) != 1,
            forall|j: nat| #![trigger pow2(j)] j < i ==> pow(a@ as int, dv * pow2(j)) % (n@ as int) != n@ - 1,
        decreases if e@ < nm1@ { nm1@ - e@ } else { 0 },
    {
        if arith::eq(&x, &nm1) {
            return true;
        }
        let xx = arith::mul(&x, &x);
        x = arith::rem(&xx, n);
        let ee = arith::add(&e, &e);
        proof {
            lemma_mul_mod_noop(pow(a@ as int, e@), pow(a@ as int, e@), n@ as int);
            lemma_pow_adds(a@ as int, e@, e@);
            lemma_pow2_unfold(i + 1);
            lemma_pow2_pos(i);
            assert(ee@ == dv * pow2(i + 1)) by (nonlinear_arith)
                requires ee@ == e@ + e@, e@ == dv * pow2(i), pow2(i + 1) == 2 * pow2(i);
            assert(e@ > 0) by (nonlinear_arith)
                requires e@ == dv * pow2(i), dv > 0, pow2(i) > 0;
            i = i + 1;
        }
        assert(ee@ > e@);
        e = ee;
    }
    proof {
        assert forall|j: nat| #![trigger pow2(j)]
            dv * pow2(j) < n@ - 1 implies pow(a@ as int, dv * pow2(j)) % (n@ as int) != n@ - 1 by {
            if j >= i {
                if j > i {
                    lemma_pow2_strictly_increases(i, j);
                }
                assert(dv * pow2(j) >= dv * pow2(i)) by (nonlinear_arith)
                    requires pow2(j) >= pow2(i), dv > 0;
            }
        }
    }
    false
}

/// `2` and `3` are prime.
proof fn lemma_small_primes()
    ensures
        is_prime(2),
        is_prime(3),
{
    assert forall|d: int| 1 < d < 3 implies #[trigger] (3int % d) != 0 by {
        assert(d == 2);
    }
}

/// `m > 0` is its odd part times a power of two.
proof fn lemma_odd_part_split(m: nat) -> (s: nat)
    requires
        m > 0,
    ensures
        m == odd_part(m) * pow2(s),
        odd_part(m) > 0,
    decreases m,
{
    if m % 2 == 1 {
        lemma2_to64();
        0
    } else {
        let s1 = lemma_odd_part_split(m / 2);
        lemma_pow2_unfold(s1 + 1);
        assert(m == odd_part(m) * pow2(s1 + 1)) by (nonlinear_arith)
            requires
                m / 2 == odd_part(m / 2) * pow2(s1),
                odd_part(m) == odd_part(m / 2),
                pow2(s1 + 1) == 2 * pow2(s1),
                m % 2 == 0,
                m == 2 * (m / 2) + m % 2;
        s1 + 1
    }
}

/// Modulo a prime, the square roots of one are `1` and `-1`.
proof fn lemma_square_root_of_one(p: int, x: int)
    requires
        is_prime(p),
        x >= 0,
        (x * x) % p == 1,
    ensures
        x % p == 1 || x % p == p - 1,
{
    let y = x % p;
    lemma_mul_mod_noop(x, x, p);
    assert(y >= 1) by {
        if y == 0 {
            assert(y * y == 0) by (nonlinear_arith)
                requires y == 0;
            lemma_small_mod(0, p as nat);
        }
    }
    lemma_small_mod(1, p as nat);
    lemma_sub_mod_noop(y * y, 1, p);
    lemma_small_mod(0, p as nat);
    assert((y - 1) * (y + 1) == y * y - 1) by (nonlinear_arith);
    lemma_euclid(p, y - 1, y + 1);
    if (y - 1) % p == 0 {
        lemma_small_mod((y - 1) as nat, p as nat);
    } else {
        if y + 1 < p {
            lemma_small_mod((y + 1) as nat, p as nat);
        }
    }
}

/// Where `a^(d·2^j) ≡ 1 (mod n)` for a prime `n`, either `a^d ≡ 1` or some
/// `a^(d·2^i) ≡ -1` with `i < j`.
proof fn lemma_square_chain(n: int, a: int, d: nat, j: nat)
    requires
        is_prime(n),
        a > 0,
        pow(a, d * pow2(j)) % n == 1,
    ensures
        pow(a, d) % n == 1 || exists|i: nat| #![trigger pow2(i)] i < j && pow(a, d * pow2(i)) % n == n - 1,
    decreases j,
{
    if j == 0 {
        lemma2_to64();
    } else {
        let j1 = (j - 1) as nat;
        let e = d * pow2(j1);
        lemma_pow2_unfold(j);
        assert(d * pow2(j) == e + e) by (nonlinear_arith)
            requires pow2(j) == 2 * pow2(j1), e == d * pow2(j1);
        lemma_pow_adds(a, e, e);
        lemma_pow_positive(a, e);
        lemma_square_root_of_one(n, pow(a, e));
        if pow(a, e) % n == 1 {
            lemma_square_chain(n, a, d, j1);
        } else {
            assert(pow(a, d * pow2(j1)) % n == n - 1);
        }
    }
}

/// A prime passes every Miller-Rabin round with a base in `(0, n)`.
proof fn lemma_prime_passes(n: nat, a: nat)
    requires
        is_prime(n as int),
        n > 2,
        0 < a < n,
    ensures
        strong_probable_prime(n, a),
{
    let m = (n - 1) as nat;
    let s = lemma_odd_part_split(m);
    let d = odd_part(m);
    lemma_small_mod(a, n);
    lemma_fermat(a, n as int);
    lemma_square_chain(n as int, a as int, d, s);
    if !(pow(a as int, d) % (n as int) == 1) {
        let i = choose|i: nat| #![trigger pow2(i)] i < s && pow(a as int, d * pow2(i)) % (n as int) == n - 1;
        lemma_pow2_strictly_increases(i, s);
        assert(d * pow2(i) < d * pow2(s)) by (nonlinear_arith)
            requires pow2(i) < pow2(s), d > 0;
    }
}

/// A probable-prime test: trial division by every number below
/// `TRIAL_DIVISION_BOUND`, then Miller-Rabin rounds with random bases.
pub fn is_probable_prime(n: &BigInteger) -> (r: bool)
    ensures
        r ==> n@ > 1 && no_small_factor(n@, TRIAL_DIVISION_BOUND as nat),
        is_prime(n@ as int) ==> r,
        2 <= n@ <= 3 ==> r,
{
    proof {
        lemma_small_primes();
        assert(2 <= n@ <= 3 ==> is_prime(n@ as int)) by {
            if n@ == 2 {
                assert(n@ as int == 2);
            } else if n@ == 3 {
                assert(n@ as int == 3);
            }
        }
    }
    let two = BigInteger::from_u64(2);
    if arith::lt(n, &two) {
        return false;
    }
    let mut k: u64 = 2;
    while k < TRIAL_DIVISION_BOUND
        invariant
            2 <= k <= TRIAL_DIVISION_BOUND,
            n@ > 1,
            2 <= n@ <= 3 ==> is_prime(n@ as int),
            no_small_factor(n@, k as nat),
        decreases TRIAL_DIVISION_BOUND - k,
    {
        let dk = BigInteger::from_u64(k);
        if arith::lt(&dk, n) {
            let rm = arith::rem(n, &dk);
            if arith::is_zero(&rm) {
                proof {
                    assert((n@ as int) % (k as int) == 0);
                }
                return false;
            }
        }
        k = k + 1;
    }
    let four = BigInteger::from_u64(4);
    if arith::lt(n, &four) {
        return true;
    }
    let one = BigInteger::from_u64(1);
    let nm1 = arith::sub(n, &one);
    let mut round: u64 = 0;
    while round < MILLER_RABIN_ROUNDS
        invariant
            n@ > 3,
            nm1@ == n@ - 1,
            two@ == 2,
            no_small_factor(n@, TRIAL_DIVISION_BOUND as nat),
        decreases MILLER_RABIN_ROUNDS - round,
    {
        let a = arith::sample_range(&two, &nm1);
        if !miller_rabin_round(n, &a) {
            proof {
                if is_prime(n@ as int) {
                    lemma_prime_passes(n@, a@);
                }
            }
            return false;
        }
        round = round + 1;
    }
    true
}

/// Setting bit `k` of a number below `2^(k+1)` leaves it in `[2^k, 2^(k+1))`.
proof fn lemma_set_top_bit(a: nat, k: nat)
    requires
        a < pow2(k + 1),
    ensures
        pow2(k) <= with_bit(a, k, true) < pow2(k + 1),
{
    lemma_pow2_unfold(k + 1);
    lemma_pow2_pos(k);
    lemma_fundamental_div_mod(a as int, pow2(k) as int);
    let d = a / pow2(k);
    let rm = a % pow2(k);
    let pk = pow2(k);
    assert(d < 2) by (nonlinear_arith)
        requires a == pk * d + rm, a < 2 * pk, rm >= 0, pk > 0;
    lemma_small_mod(d, 2);
    if d == 1 {
        assert(a >= pk) by (nonlinear_arith)
            requires a == pk * d + rm, d == 1, rm >= 0;
    } else {
        assert(d == 0);
        assert(a < pk) by (nonlinear_arith)
            requires a == pk * d + rm, d == 0, rm < pk;
    }
}

/// Setting bit `0` makes a number odd and keeps it in `[lo, hi)` for an even `hi`.
proof fn lemma_set_low_bit(a: nat, lo: nat, hi: nat)
    requires
        lo <= a < hi,
        hi % 2 == 0,
    ensures
        lo <= with_bit(a, 0, true) < hi,
        with_bit(a, 0, true) % 2 == 1,
{
    lemma2_to64();
    lemma_div_basics(a as int);
}

/// A random odd probable prime of exactly `bits` bits.
pub fn sample_prime(bits: u64) -> (r: Result<BigInteger, Error>)
    requires
        2 <= bits < u64::MAX,
    ensures
        r is Ok ==> r->Ok_0@ > 1 && no_small_factor(r->Ok_0@, TRIAL_DIVISION_BOUND as nat),
        r is Ok ==> pow2((bits - 1) as nat) <= r->Ok_0@ < pow2(bits as nat) && r->Ok_0@ % 2 == 1,
        r is Err ==> r->Err_0 == Error::KeyGenerationFailed,
{
    let mut attempt: u64 = 0;
    while attempt < PRIME_ATTEMPTS
        invariant
            2 <= bits < u64::MAX,
        decreases PRIME_ATTEMPTS - attempt,
    {
        let mut candidate = arith::sample_bits(bits);
        proof {
            assert(((bits - 1) as nat) + 1 == bits as nat);
            lemma_set_top_bit(candidate@, (bits - 1) as nat);
        }
        arith::set_bit(&mut candidate, bits - 1, true);
        proof {
            lemma_pow2_unfold(bits as nat);
            lemma_set_low_bit(candidate@, pow2((bits - 1) as nat), pow2(bits as nat));
        }
        arith::set_bit(&mut candidate, 0, true);
        if is_probable_prime(&candidate) {
            return Ok(candidate);
        }
        attempt = attempt + 1;
    }
    Err(Error::KeyGenerationFailed)
}

/// The key pair of two factors where they differ and `n = p·q` is coprime to
/// `(p-1)·(q-1)`; `None` otherwise.
pub fn keypair_from_primes(p: BigInteger, q: BigInteger) -> (r: Option<Keypair>)
    requires
        p@ > 1,
        q@ > 1,
    ensures
        r is Some <==> p@ != q@ && gcd(p@ * q@, ((p@ - 1) * (q@ - 1)) as nat) == 1,
        r is Some ==> r->0.p@ == p@ && r->0.q@ == q@,
{
    if arith::eq(&p, &q) {
        return None;
    }
    let one = BigInteger::from_u64(1);
    let n = arith::mul(&p, &q);
    let pm = arith::sub(&p, &one);
    let qm = arith::sub(&q, &one);
    let phi = arith::mul(&pm, &qm);
    let g = arith::big_gcd(&n, &phi);
    if arith::eq(&g, &one) {
        Some(Keypair { p, q })
    } else {
        None
    }
}

/// A key pair of two distinct odd probable primes of `bit_length / 2` bits each,
/// with `n = p·q` coprime to `(p-1)·(q-1)`. Pairs that fail are drawn again, a
/// bounded number of times.
pub fn generate_keypair(bit_length: u64) -> (r: Result<Keypair, Error>)
    requires
        bit_length >= 4,
    ensures
        r is Ok ==> {
            let kp = r->Ok_0;
            let half = (bit_length / 2) as nat;
            &&& pow2((half - 1) as nat) <= kp.p@ < pow2(half) && kp.p@ % 2 == 1
            &&& pow2((half - 1) as nat) <= kp.q@ < pow2(half) && kp.q@ % 2 == 1
            &&& kp.wf()
            &&& kp.p@ != kp.q@
            &&& gcd(kp.p@ * kp.q@, ((kp.p@ - 1) * (kp.q@ - 1)) as nat) == 1
            &&& no_small_factor(kp.p@, TRIAL_DIVISION_BOUND as nat)
            &&& no_small_factor(kp.q@, TRIAL_DIVISION_BOUND as nat)
        },
        r is Err ==> r->Err_0 == Error::KeyGenerationFailed,
{
    let half = bit_length / 2;
    let mut attempt: u64 = 0;
    while attempt < PAIR_ATTEMPTS
        invariant
            half >= 2,
            half == bit_length / 2,
        decreases PAIR_ATTEMPTS - attempt,
    {
        attempt = attempt + 1;
        let p = match sample_prime(half) {
            Ok(v) => v,
            Err(e) => {
                return Err(e);
            },
        };
        let q = match sample_prime(half) {
            Ok(v) => v,
            Err(e) => {
                return Err(e);
            },
        };
        if let Some(kp) = keypair_from_primes(p, q) {
            return Ok(kp);
        }
    }
    Err(Error::KeyGenerationFailed)
}

} // verus!
