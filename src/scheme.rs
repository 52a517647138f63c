//! Keys, encryption, the two decryption algorithms and the homomorphic
//! operators of the Paillier scheme.
use crate::arith::{gcd, BigInteger};
use crate::Paillier;
use crate::arith;
use vstd::arithmetic::div_mod::*;
use vstd::arithmetic::power::*;
use vstd::prelude::*;

verus! {

/// What can go wrong in the scheme and in the encoding layer.
#[derive(Debug, Clone, Copy, PartialEq, Eq, Structural)]
pub enum Error {
    /// A plaintext at or above the modulus `n`.
    PlaintextOutOfRange,
    /// A ciphertext at or above `n²`.
    CiphertextOutOfRange,
    /// A ciphertext whose power under the private exponent is not `1` modulo `n`.
    MalformedCiphertext,
    /// Key material from which no private key can be derived.
    InvalidKey,
    /// No suitable primes were found within the allowed attempts.
    KeyGenerationFailed,
    /// A vector element that does not fit its lane.
    LaneOverflow,
    /// An encoded value that does not fit the plaintext space.
    EncodingOverflow,
}

/// `L(u) = (u - 1) / n`.
pub open spec fn ell(u: int, n: int) -> int {
    (u - 1) / n
}

/// Least common multiple.
pub open spec fn lcm(a: nat, b: nat) -> nat {
    if gcd(a, b) == 0 {
        0
    } else {
        a * b / gcd(a, b)
    }
}

/// The ciphertext of `m` under modulus `n` with randomness `r`: `(1 + m·n)·rⁿ mod n²`.
pub open spec fn encryption_of(n: int, m: int, r: int) -> int {
    ((1 + m * n) * pow(r, n as nat)) % (n * n)
}

/// Standard decryption: `L(c^λ mod n²)·μ mod n`.
pub open spec fn standard_decryption(n: int, lambda: int, mu: int, c: int) -> int {
    (ell(pow(c, lambda as nat) % (n * n), n) * mu) % n
}

/// Whether `c^e mod m²` is `1` modulo `m`, so that `L` divides exactly.
pub open spec fn reduces_to_one(c: int, e: int, m: int) -> bool {
    (pow(c, e as nat) % (m * m)) % m == 1
}

/// One half of CRT decryption: `L_p(c^{p-1} mod p²)·h_p mod p`.
pub open spec fn crt_half(c: int, p: int, h: int) -> int {
    (ell(pow(c, (p - 1) as nat) % (p * p), p) * h) % p
}

/// Garner recombination of `mp mod p` and `mq mod q`: `mq + q·((mp - mq)·q⁻¹ mod p)`.
pub open spec fn garner(mp: int, mq: int, p: int, q: int, qinv: int) -> int {
    (mq + q * (((mp - mq) * qinv) % p)) % (p * q)
}

/// CRT decryption, as a function of the key's numbers.
pub open spec fn crt_decryption(p: int, q: int, hp: int, hq: int, qinv: int, c: int) -> int {
    garner(crt_half(c, p, hp), crt_half(c, q, hq), p, q, qinv)
}

/// Whether `a` has an inverse modulo `m`.
pub open spec fn has_inverse(a: int, m: int) -> bool {
    exists|x: nat| #![trigger (a * x) % m] (a * x) % m == 1
}

/// `L_p((n+1)^{p-1} mod p²)`, the value that `h_p` inverts modulo `p`.
pub open spec fn crt_ell(n: int, p: int) -> int {
    ell(pow(n + 1, (p - 1) as nat) % (p * p), p)
}

/// The ciphertext `c` blinded by `rⁿ`: `c·rⁿ mod n²`.
pub open spec fn blinded(n: int, c: int, r: int) -> int {
    (c * pow(r, n as nat)) % (n * n)
}

/// Two factors, the secret from which both kinds of key are derived.
pub struct Keypair {
    pub p: BigInteger,
    pub q: BigInteger,
}

impl Keypair {
    pub open spec fn wf(&self) -> bool {
        self.p@ > 1 && self.q@ > 1
    }

    /// A key pair from two factors, both above one.
    pub fn new(p: BigInteger, q: BigInteger) -> (r: Result<Keypair, Error>)
        ensures
            r is Ok <==> p@ > 1 && q@ > 1,
            r is Ok ==> r->Ok_0.p@ == p@ && r->Ok_0.q@ == q@ && r->Ok_0.wf(),
            r is Err ==> r->Err_0 == Error::InvalidKey,
    {
        let one = BigInteger::from_u64(1);
        if arith::lt(&one, &p) && arith::lt(&one, &q) {
            Ok(Keypair { p, q })
        } else {
            Err(Error::InvalidKey)
        }
    }
}

/// The public key: the modulus `n` and its square.
pub struct EncryptionKey {
    pub n: BigInteger,
    pub nn: BigInteger,
}

impl EncryptionKey {
    pub open spec fn wf(&self) -> bool {
        self.n@ > 1 && self.nn@ == self.n@ * self.n@
    }

    /// The public key of a key pair: `n = p·q`.
    pub fn from_keypair(kp: &Keypair) -> (ek: EncryptionKey)
        requires
            kp.wf(),
        ensures
            ek.wf(),
            ek.n@ == kp.p@ * kp.q@,
    {
        let n = arith::mul(&kp.p, &kp.q);
        proof {
            assert(n@ > 1) by (nonlinear_arith)
                requires n@ == kp.p@ * kp.q@, kp.p@ > 1, kp.q@ > 1;
        }
        let nn = arith::mul(&n, &n);
        EncryptionKey { n, nn }
    }
}

/// The private key in standard form: `n`, `n²`, `λ = lcm(p-1, q-1)` and `μ`.
pub struct DecryptionKey {
    pub n: BigInteger,
    pub nn: BigInteger,
    pub lambda: BigInteger,
    pub mu: BigInteger,
}

impl DecryptionKey {
    pub open spec fn wf(&self) -> bool {
        self.n@ > 1 && self.nn@ == self.n@ * self.n@
    }

    /// The standard private key of a key pair. `μ` is the inverse of
    /// `L((n+1)^λ mod n²)` modulo `n`; where that has no inverse the key pair is refused.
    pub fn from_keypair(kp: &Keypair) -> (r: Result<DecryptionKey, Error>)
        requires
            kp.wf(),
        ensures
            ({
                let n = (kp.p@ * kp.q@) as int;
                let lambda = lcm((kp.p@ - 1) as nat, (kp.q@ - 1) as nat);
                let l = ell(pow(n + 1, lambda) % (n * n), n);
                &&& r is Err <==> !has_inverse(l, n)
                &&& r is Err ==> r->Err_0 == Error::InvalidKey
                &&& r is Ok ==> {
                    let dk = r->Ok_0;
                    &&& dk.wf()
                    &&& dk.n@ == n
                    &&& dk.lambda@ == lambda
                    &&& dk.mu@ < n
                    &&& (l * dk.mu@) % n == 1
                    &&& crate::laws::standard_key(kp.p@ as int, kp.q@ as int, dk.mu@ as int)
                }
            }),
    {
        let one = BigInteger::from_u64(1);
        let n = arith::mul(&kp.p, &kp.q);
        proof {
            assert(n@ > 1) by (nonlinear_arith)
                requires n@ == kp.p@ * kp.q@, kp.p@ > 1, kp.q@ > 1;
        }
        let nn = arith::mul(&n, &n);
        proof {
            lemma_square_facts(n@ as int);
        }
        let pm = arith::sub(&kp.p, &one);
        let qm = arith::sub(&kp.q, &one);
        let g = arith::big_gcd(&pm, &qm);
        let prod = arith::mul(&pm, &qm);
        proof {
            lemma_gcd_positive(pm@, qm@);
        }
        let lambda = arith::div(&prod, &g);
        let gen = arith::add(&n, &one);
        let u = arith::modpow(&gen, &lambda, &nn);
        proof {
            lemma_one_mod_power(n@ as int + 1, lambda@ as int, n@ as int, nn@ as int);
            assert(u@ >= 1) by {
                if u@ == 0 {
                    lemma_small_mod(0, n@);
                }
            }
        }
        let um = arith::sub(&u, &one);
        let l = arith::div(&um, &n);
        match arith::modinv(&l, &n) {
            Some(mu) => {
                proof {
                    lemma_small_mod(1, n@);
                    assert(l@ == ell(u@ as int, n@ as int));
                    assert((l@ as int * mu@) % (n@ as int) == 1);
                    assert(lambda@ == lcm((kp.p@ - 1) as nat, (kp.q@ - 1) as nat));
                    assert(u@ == pow(n@ as int + 1, lambda@) % (n@ * n@) as int);
                    assert(n@ as int == (kp.p@ * kp.q@) as int);
                }
                Ok(DecryptionKey { n, nn, lambda, mu })
            },
            None => {
                proof {
                    lemma_small_mod(1, n@);
                    assert(l@ == ell(u@ as int, n@ as int));
                    assert forall|x: nat| #![trigger (l@ as int * x) % (n@ as int)]
                        (l@ as int * x) % (n@ as int) != 1 by {
                        assert((l@ * x) % n@ != 1nat % n@);
                    }
                    assert(!has_inverse(l@ as int, n@ as int));
                }
                Err(Error::InvalidKey)
            },
        }
    }
}

/// The private key in CRT form: the factors, their squares and the
/// per-factor constants `h_p`, `h_q`, and `q⁻¹ mod p` for the recombination.
pub struct CrtDecryptionKey {
    pub p: BigInteger,
    pub pp: BigInteger,
    pub pminusone: BigInteger,
    pub q: BigInteger,
    pub qq: BigInteger,
    pub qminusone: BigInteger,
    pub hp: BigInteger,
    pub hq: BigInteger,
    pub qinv: BigInteger,
    pub n: BigInteger,
    pub nn: BigInteger,
}

impl CrtDecryptionKey {
    pub open spec fn wf(&self) -> bool {
        &&& self.p@ > 1
        &&& self.q@ > 1
        &&& self.pp@ == self.p@ * self.p@
        &&& self.qq@ == self.q@ * self.q@
        &&& self.pminusone@ == self.p@ - 1
        &&& self.qminusone@ == self.q@ - 1
        &&& self.n@ == self.p@ * self.q@
        &&& self.nn@ == self.n@ * self.n@
    }

    /// The CRT private key of a key pair; refused where `h_p`, `h_q` or `q⁻¹ mod p`
    /// does not exist.
    pub fn from_keypair(kp: &Keypair) -> (r: Result<CrtDecryptionKey, Error>)
        requires
            kp.wf(),
        ensures
            ({
                let p = kp.p@ as int;
                let q = kp.q@ as int;
                let n = p * q;
                &&& r is Err <==> !(has_inverse(crt_ell(n, p), p) && has_inverse(crt_ell(n, q), q)
                    && has_inverse(q, p))
                &&& r is Err ==> r->Err_0 == Error::InvalidKey
                &&& r is Ok ==> {
                    let dk = r->Ok_0;
                    &&& dk.wf()
                    &&& dk.p@ == p
                    &&& dk.q@ == q
                    &&& dk.hp@ < p && (crt_ell(n, p) * dk.hp@) % p == 1
                    &&& dk.hq@ < q && (crt_ell(n, q) * dk.hq@) % q == 1
                    &&& dk.qinv@ < p && (q * dk.qinv@) % p == 1
                    &&& crate::laws::crt_key(p, q, dk.hp@ as int, dk.hq@ as int, dk.qinv@ as int)
                }
            }),
    {
        let one = BigInteger::from_u64(1);
        let p = arith::copy(&kp.p);
        let q = arith::copy(&kp.q);
        let n = arith::mul(&p, &q);
        proof {
            assert(n@ > 1) by (nonlinear_arith)
                requires n@ == p@ * q@, p@ > 1, q@ > 1;
            lemma_square_facts(p@ as int);
            lemma_square_facts(q@ as int);
            lemma_mod_multiples_vanish(q@ as int, 1, p@ as int);
            lemma_mod_multiples_vanish(p@ as int, 1, q@ as int);
            assert(q@ * p@ == p@ * q@) by (nonlinear_arith);
        }
        let nn = arith::mul(&n, &n);
        let pp = arith::mul(&p, &p);
        let qq = arith::mul(&q, &q);
        let pminusone = arith::sub(&p, &one);
        let qminusone = arith::sub(&q, &one);
        let gen = arith::add(&n, &one);
        let lp = Self::factor_ell(&gen, &p, &pminusone, &pp);
        let lq = Self::factor_ell(&gen, &q, &qminusone, &qq);
        proof {
            lemma_small_mod(1, p@);
            lemma_small_mod(1, q@);
        }
        let hp = match arith::modinv(&lp, &p) {
            Some(h) => h,
            None => {
                proof {
                    lemma_no_inverse(lp@, p@);
                }
                return Err(Error::InvalidKey);
            },
        };
        let hq = match arith::modinv(&lq, &q) {
            Some(h) => h,
            None => {
                proof {
                    lemma_no_inverse(lq@, q@);
                }
                return Err(Error::InvalidKey);
            },
        };
        let qinv = match arith::modinv(&q, &p) {
            Some(h) => h,
            None => {
                proof {
                    lemma_no_inverse(q@, p@);
                }
                return Err(Error::InvalidKey);
            },
        };
        proof {
            assert((lp@ as int * hp@) % (p@ as int) == 1);
            assert((lq@ as int * hq@) % (q@ as int) == 1);
            assert((q@ as int * qinv@) % (p@ as int) == 1);
        }
        Ok(CrtDecryptionKey { p, pp, pminusone, q, qq, qminusone, hp, hq, qinv, n, nn })
    }

    /// `L_p(g^{p-1} mod p²)` for a generator `g` that is `1` modulo `p`.
    fn factor_ell(gen: &BigInteger, p: &BigInteger, pminusone: &BigInteger, pp: &BigInteger) -> (r: BigInteger)
        requires
            p@ > 1,
            pp@ == p@ * p@,
            pminusone@ == p@ - 1,
            gen@ % p@ == 1,
        ensures
            r@ == ell(pow(gen@ as int, pminusone@) % (pp@ as int), p@ as int),
    {
        let one = BigInteger::from_u64(1);
        proof {
            lemma_square_facts(p@ as int);
        }
        let u = arith::modpow(gen, pminusone, pp);
        proof {
            lemma_one_mod_power(gen@ as int, pminusone@ as int, p@ as int, pp@ as int);
            assert(u@ >= 1) by {
                if u@ == 0 {
                    lemma_small_mod(0, p@);
                }
            }
        }
        let um = arith::sub(&u, &one);
        arith::div(&um, p)
    }
}

/// Where the inverse finder found none, none exists.
proof fn lemma_no_inverse(a: nat, m: nat)
    requires
        m > 1,
        forall|x: nat| #![trigger (a * x) % m] (a * x) % m != 1nat % m,
    ensures
        !has_inverse(a as int, m as int),
{
    lemma_small_mod(1, m);
    assert forall|x: nat| #![trigger (a as int * x) % (m as int)] (a as int * x) % (m as int) != 1 by {
        assert((a * x) % m != 1nat % m);
    }
}

/// `L_p(c^{p-1} mod p²)·h mod p`, or `None` where `c^{p-1} mod p²` is not `1` modulo `p`.
fn decrypt_half(c: &BigInteger, p: &BigInteger, pminusone: &BigInteger, pp: &BigInteger, h: &BigInteger) -> (res: Option<BigInteger>)
    requires
        p@ > 1,
        pp@ == p@ * p@,
        pminusone@ == p@ - 1,
    ensures
        res is Some <==> reduces_to_one(c@ as int, pminusone@ as int, p@ as int),
        res is Some ==> res->0@ == crt_half(c@ as int, p@ as int, h@ as int),
{
    proof {
        lemma_square_facts(p@ as int);
    }
    let one = BigInteger::from_u64(1);
    let u = arith::modpow(c, pminusone, pp);
    let low = arith::rem(&u, p);
    if !arith::eq(&low, &one) {
        return None;
    }
    proof {
        assert(u@ >= 1) by {
            if u@ == 0 {
                lemma_small_mod(0, p@);
            }
        }
    }
    let um = arith::sub(&u, &one);
    let l = arith::div(&um, p);
    let lh = arith::mul(&l, h);
    Some(arith::rem(&lh, p))
}

impl Paillier {
    /// Encryption of `m` with the given randomness `r`: `(1 + m·n)·rⁿ mod n²`.
    pub fn encrypt_with_randomness(ek: &EncryptionKey, m: &BigInteger, r: &BigInteger) -> (c: BigInteger)
        requires
            ek.wf(),
        ensures
            c@ == encryption_of(ek.n@ as int, m@ as int, r@ as int),
            c@ < ek.nn@,
    {
        let one = BigInteger::from_u64(1);
        let mn = arith::mul(m, &ek.n);
        let gm = arith::add(&mn, &one);
        proof {
            lemma_square_facts(ek.n@ as int);
        }
        let gm_r = arith::rem(&gm, &ek.nn);
        let rn = arith::modpow(r, &ek.n, &ek.nn);
        let prod = arith::mul(&gm_r, &rn);
        let c = arith::rem(&prod, &ek.nn);
        proof {
            lemma_mul_mod_noop(gm@ as int, pow(r@ as int, ek.n@), ek.nn@ as int);
            assert(gm@ == 1 + m@ * ek.n@);
        }
        c
    }

    /// Encryption of a plaintext in `[0, n)` with fresh randomness `r` drawn from `[1, n)`.
    pub fn encrypt(ek: &EncryptionKey, m: &BigInteger) -> (res: Result<BigInteger, Error>)
        requires
            ek.wf(),
        ensures
            res is Ok <==> m@ < ek.n@,
            res is Err ==> res->Err_0 == Error::PlaintextOutOfRange,
            res is Ok ==> exists|r: int| #![trigger encryption_of(ek.n@ as int, m@ as int, r)]
                1 <= r < ek.n@ && res->Ok_0@ == encryption_of(ek.n@ as int, m@ as int, r),
            res is Ok ==> res->Ok_0@ < ek.nn@,
    {
        if !arith::lt(m, &ek.n) {
            return Err(Error::PlaintextOutOfRange);
        }
        let one = BigInteger::from_u64(1);
        let r = arith::sample_range(&one, &ek.n);
        let c = Self::encrypt_with_randomness(ek, m, &r);
        Ok(c)
    }

    /// Rerandomization with the given randomness `r`: `c·rⁿ mod n²`.
    pub fn rerandomize_with_randomness(ek: &EncryptionKey, c: &BigInteger, r: &BigInteger) -> (res: BigInteger)
        requires
            ek.wf(),
        ensures
            res@ == blinded(ek.n@ as int, c@ as int, r@ as int),
            res@ < ek.nn@,
    {
        proof {
            lemma_square_facts(ek.n@ as int);
        }
        let rn = arith::modpow(r, &ek.n, &ek.nn);
        let prod = arith::mul(c, &rn);
        proof {
            lemma_mul_mod_noop_right(c@ as int, pow(r@ as int, ek.n@), ek.nn@ as int);
        }
        arith::rem(&prod, &ek.nn)
    }

    /// Rerandomization with fresh randomness `r` drawn from `[1, n)`.
    pub fn rerandomize(ek: &EncryptionKey, c: &BigInteger) -> (res: BigInteger)
        requires
            ek.wf(),
        ensures
            exists|r: int| #![trigger blinded(ek.n@ as int, c@ as int, r)]
                1 <= r < ek.n@ && res@ == blinded(ek.n@ as int, c@ as int, r),
            res@ < ek.nn@,
    {
        let one = BigInteger::from_u64(1);
        let r = arith::sample_range(&one, &ek.n);
        Self::rerandomize_with_randomness(ek, c, &r)
    }

    /// Homomorphic addition: `c1·c2 mod n²`.
    pub fn add(ek: &EncryptionKey, c1: &BigInteger, c2: &BigInteger) -> (res: BigInteger)
        requires
            ek.wf(),
        ensures
            res@ == (c1@ * c2@) % ek.nn@,
            res@ < ek.nn@,
    {
        proof {
            lemma_square_facts(ek.n@ as int);
        }
        let prod = arith::mul(c1, c2);
        arith::rem(&prod, &ek.nn)
    }

    /// Homomorphic multiplication by a plaintext scalar: `c^k mod n²`.
    pub fn mul(ek: &EncryptionKey, c: &BigInteger, k: &BigInteger) -> (res: BigInteger)
        requires
            ek.wf(),
        ensures
            res@ == pow(c@ as int, k@) % (ek.nn@ as int),
            res@ < ek.nn@,
    {
        proof {
            lemma_square_facts(ek.n@ as int);
        }
        arith::modpow(c, k, &ek.nn)
    }

    /// Standard decryption: `L(c^λ mod n²)·μ mod n`.
    pub fn decrypt(dk: &DecryptionKey, c: &BigInteger) -> (res: Result<BigInteger, Error>)
        requires
            dk.wf(),
        ensures
            res == Err::<BigInteger, Error>(Error::CiphertextOutOfRange) <==> c@ >= dk.nn@,
            res == Err::<BigInteger, Error>(Error::MalformedCiphertext) <==> c@ < dk.nn@
                && !reduces_to_one(c@ as int, dk.lambda@ as int, dk.n@ as int),
            res is Ok <==> c@ < dk.nn@ && reduces_to_one(c@ as int, dk.lambda@ as int, dk.n@ as int),
            res is Ok ==> res->Ok_0@ == standard_decryption(dk.n@ as int, dk.lambda@ as int, dk.mu@ as int, c@ as int),
    {
        if !arith::lt(c, &dk.nn) {
            return Err(Error::CiphertextOutOfRange);
        }
        proof {
            lemma_square_facts(dk.n@ as int);
        }
        let one = BigInteger::from_u64(1);
        let u = arith::modpow(c, &dk.lambda, &dk.nn);
        let low = arith::rem(&u, &dk.n);
        if !arith::eq(&low, &one) {
            return Err(Error::MalformedCiphertext);
        }
        proof {
            assert(u@ >= 1) by {
                if u@ == 0 {
                    lemma_small_mod(0, dk.n@);
                }
            }
        }
        let um = arith::sub(&u, &one);
        let l = arith::div(&um, &dk.n);
        let lm = arith::mul(&l, &dk.mu);
        Ok(arith::rem(&lm, &dk.n))
    }

    /// CRT decryption: each factor's half, recombined by Garner's formula.
    pub fn decrypt_crt(dk: &CrtDecryptionKey, c: &BigInteger) -> (res: Result<BigInteger, Error>)
        requires
            dk.wf(),
        ensures
            res == Err::<BigInteger, Error>(Error::CiphertextOutOfRange) <==> c@ >= dk.nn@,
            res == Err::<BigInteger, Error>(Error::MalformedCiphertext) <==> c@ < dk.nn@
                && !(reduces_to_one(c@ as int, dk.p@ - 1, dk.p@ as int)
                    && reduces_to_one(c@ as int, dk.q@ - 1, dk.q@ as int)),
            res is Ok <==> c@ < dk.nn@ && reduces_to_one(c@ as int, dk.p@ - 1, dk.p@ as int)
                && reduces_to_one(c@ as int, dk.q@ - 1, dk.q@ as int),
            res is Ok ==> res->Ok_0@ == crt_decryption(dk.p@ as int, dk.q@ as int, dk.hp@ as int,
                dk.hq@ as int, dk.qinv@ as int, c@ as int),
    {
        if !arith::lt(c, &dk.nn) {
            return Err(Error::CiphertextOutOfRange);
        }
        let mp = match decrypt_half(c, &dk.p, &dk.pminusone, &dk.pp, &dk.hp) {
            Some(v) => v,
            None => {
                return Err(Error::MalformedCiphertext);
            },
        };
        let mq = match decrypt_half(c, &dk.q, &dk.qminusone, &dk.qq, &dk.hq) {
            Some(v) => v,
            None => {
                return Err(Error::MalformedCiphertext);
            },
        };
        let mq_p = arith::rem(&mq, &dk.p);
        let shifted = arith::add(&mp, &dk.p);
        let d = arith::sub(&shifted, &mq_p);
        let diff = arith::rem(&d, &dk.p);
        let dq = arith::mul(&diff, &dk.qinv);
        let t = arith::rem(&dq, &dk.p);
        let qt = arith::mul(&dk.q, &t);
        let s = arith::add(&mq, &qt);
        proof {
            let (p, mpv, mqv) = (dk.p@ as int, mp@ as int, mq@ as int);
            lemma_mod_add_multiples_vanish(mpv - mqv % p, p);
            lemma_sub_mod_noop_right(mpv, mqv, p);
            assert(diff@ == (mpv - mqv) % p);
            lemma_mul_mod_noop_left(mpv - mqv, dk.qinv@ as int, p);
            assert(dk.n@ > 0) by (nonlinear_arith)
                requires dk.n@ == dk.p@ * dk.q@, dk.p@ > 1, dk.q@ > 1;
        }
        Ok(arith::rem(&s, &dk.n))
    }
}

/// `gcd(a, b) > 0` when `a > 0`.
pub proof fn lemma_gcd_positive(a: nat, b: nat)
    requires
        a > 0,
    ensures
        gcd(a, b) > 0,
    decreases b,
{
    if b > 0 {
        lemma_gcd_positive(b, a % b);
    }
}

/// Where `x` is `1` modulo `m` and `m` divides `mm`, `x^e mod mm` is `1` modulo `m`.
pub proof fn lemma_one_mod_power(x: int, e: int, m: int, mm: int)
    requires
        m > 1,
        mm > 0,
        mm % m == 0,
        e >= 0,
        x % m == 1,
    ensures
        (pow(x, e as nat) % mm) % m == 1,
{
    let k = mm / m;
    assert(mm == m * k) by {
        lemma_fundamental_div_mod(mm, m);
    }
    assert(k > 0) by (nonlinear_arith)
        requires mm == m * k, mm > 0, m > 1;
    lemma_mod_mod(pow(x, e as nat), m, k);
    lemma_pow_mod_noop(x, e as nat, m);
    lemma_pow1_any(e as nat);
    lemma_small_mod(1, m as nat);
}

/// Facts on `n` and `n²` used throughout.
pub proof fn lemma_square_facts(n: int)
    requires
        n > 1,
    ensures
        n * n > 1,
        (n * n) % n == 0,
        (n + 1) % n == 1,
        1int % n == 1,
{
    assert(n * n > 1) by (nonlinear_arith)
        requires n > 1;
    lemma_mod_multiples_basic(n, n);
    lemma_mod_add_multiples_vanish(1, n);
    lemma_small_mod(1, n as nat);
}

/// `1^e == 1`.
pub proof fn lemma_pow1_any(e: nat)
    ensures
        pow(1, e) == 1,
    decreases e,
{
    reveal(pow);
    if e > 0 {
        lemma_pow1_any((e - 1) as nat);
    }
}

} // verus!
