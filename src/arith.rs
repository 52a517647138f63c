//! Arbitrary-precision natural numbers.
//!
//! `BigInteger` holds its value as little-endian base-2^32 digits; the
//! arithmetic itself is done by `num-bigint`, reached through the small
//! trusted functions below, each stated over the value `x@` of its operands.
use num::bigint::RandBigInt;
use num::Integer;
use num::ToPrimitive;
use num::Zero;
use vstd::arithmetic::power::pow;
use vstd::arithmetic::power2::pow2;
use vstd::prelude::*;

verus! {

/// The value of little-endian base-2^32 digits.
pub open spec fn digits_value(d: Seq<u32>) -> nat
    decreases d.len(),
{
    if d.len() == 0 {
        0
    } else {
        d[0] as nat + 4294967296 * digits_value(d.subrange(1, d.len() as int))
    }
}

/// Greatest common divisor, by Euclid's recursion (`gcd(a, 0) == a`).
pub open spec fn gcd(a: nat, b: nat) -> nat
    decreases b,
{
    if b == 0 {
        a
    } else {
        gcd(b, a % b)
    }
}

/// `a` with bit `k` set to `value`: every other bit stays.
pub open spec fn with_bit(a: nat, k: nat, value: bool) -> nat {
    let set = (a / pow2(k)) % 2 == 1;
    if set == value {
        a
    } else if value {
        a + pow2(k)
    } else {
        (a - pow2(k)) as nat
    }
}

/// A natural number of any size.
#[derive(Debug)]
pub struct BigInteger {
    digits: Vec<u32>,
}

impl View for BigInteger {
    type V = nat;

    closed spec fn view(&self) -> nat {
        digits_value(self.digits@)
    }
}

impl BigInteger {
    /// The number whose little-endian base-2^32 digits are `digits`.
    pub fn from_digits(digits: Vec<u32>) -> (r: BigInteger)
        ensures
            r@ == digits_value(digits@),
    {
        BigInteger { digits }
    }

    /// Little-endian base-2^32 digits of the number.
    pub fn to_digits(&self) -> (r: Vec<u32>)
        ensures
            digits_value(r@) == self@,
    {
        let mut r: Vec<u32> = Vec::new();
        let mut i: usize = 0;
        while i < self.digits.len()
            invariant
                i <= self.digits.len(),
                r@ == self.digits@.subrange(0, i as int),
            decreases self.digits.len() - i,
        {
            r.push(self.digits[i]);
            i = i + 1;
            assert(r@ =~= self.digits@.subrange(0, i as int));
        }
        assert(r@ =~= self.digits@);
        r
    }

    /// The number as a `u64`, where it fits.
    pub fn to_u64(&self) -> (r: Option<u64>)
        ensures
            r is Some <==> self@ <= u64::MAX,
            r is Some ==> r->0 as nat == self@,
    {
        to_u64(self)
    }

    /// The number `x`.
    pub fn from_u64(x: u64) -> (r: BigInteger)
        ensures
            r@ == x as nat,
    {
        let lo = (x & 0xffff_ffff) as u32;
        let hi = (x >> 32u64) as u32;
        proof {
            assert(x & 0xffff_ffff == x % 4294967296) by (bit_vector);
            assert(x >> 32u64 == x / 4294967296) by (bit_vector);
            vstd::arithmetic::div_mod::lemma_fundamental_div_mod(x as int, 4294967296);
        }
        let digits = vec![lo, hi];
        proof {
            let d = digits@;
            assert(d.subrange(1, 2).subrange(1, 1).len() == 0);
            assert(digits_value(d.subrange(1, 2)) == hi as nat + 4294967296 * digits_value(
                d.subrange(1, 2).subrange(1, 1),
            ));
            assert(d.subrange(1, 2)[0] == hi);
        }
        BigInteger { digits }
    }
}

impl PartialEq for BigInteger {
    fn eq(&self, other: &BigInteger) -> (r: bool) {
        eq(self, other)
    }
}

impl vstd::std_specs::cmp::PartialEqSpecImpl for BigInteger {
    open spec fn obeys_eq_spec() -> bool {
        true
    }

    open spec fn eq_spec(&self, other: &BigInteger) -> bool {
        self@ == other@
    }
}

/// Relies on `ToPrimitive::to_u64` of `BigUint`: `Some` exactly when the value fits.
#[verifier::external_body]
pub(crate) fn to_u64(a: &BigInteger) -> (r: Option<u64>)
    ensures
        r is Some <==> a@ <= u64::MAX,
        r is Some ==> r->0 as nat == a@,
{
    num::BigUint::new(a.digits.clone()).to_u64()
}

/// A second number with the same value.
pub(crate) fn copy(a: &BigInteger) -> (r: BigInteger)
    ensures
        r@ == a@,
{
    BigInteger::from_digits(a.to_digits())
}

/// Relies on `&BigUint + &BigUint`: the sum.
#[verifier::external_body]
pub(crate) fn add(a: &BigInteger, b: &BigInteger) -> (r: BigInteger)
    ensures
        r@ == a@ + b@,
{
    let s = num::BigUint::new(a.digits.clone()) + num::BigUint::new(b.digits.clone());
    BigInteger { digits: s.to_u32_digits() }
}

/// Relies on `&BigUint - &BigUint`, which panics when the result would be negative.
#[verifier::external_body]
pub(crate) fn sub(a: &BigInteger, b: &BigInteger) -> (r: BigInteger)
    requires
        b@ <= a@,
    ensures
        r@ == a@ - b@,
{
    let s = num::BigUint::new(a.digits.clone()) - num::BigUint::new(b.digits.clone());
    BigInteger { digits: s.to_u32_digits() }
}

/// Relies on `&BigUint * &BigUint`: the product.
#[verifier::external_body]
pub(crate) fn mul(a: &BigInteger, b: &BigInteger) -> (r: BigInteger)
    ensures
        r@ == a@ * b@,
{
    let s = num::BigUint::new(a.digits.clone()) * num::BigUint::new(b.digits.clone());
    BigInteger { digits: s.to_u32_digits() }
}

/// Relies on `&BigUint / &BigUint`: the truncated quotient; panics on a zero divisor.
#[verifier::external_body]
pub(crate) fn div(a: &BigInteger, b: &BigInteger) -> (r: BigInteger)
    requires
        b@ > 0,
    ensures
        r@ == a@ / b@,
{
    let s = num::BigUint::new(a.digits.clone()) / num::BigUint::new(b.digits.clone());
    BigInteger { digits: s.to_u32_digits() }
}

/// Relies on `&BigUint % &BigUint`: the remainder; panics on a zero divisor.
#[verifier::external_body]
pub(crate) fn rem(a: &BigInteger, b: &BigInteger) -> (r: BigInteger)
    requires
        b@ > 0,
    ensures
        r@ == a@ % b@,
{
    let s = num::BigUint::new(a.digits.clone()) % num::BigUint::new(b.digits.clone());
    BigInteger { digits: s.to_u32_digits() }
}

/// Relies on `&BigUint << usize`: multiplication by a power of two.
#[verifier::external_body]
pub(crate) fn shl(a: &BigInteger, k: usize) -> (r: BigInteger)
    ensures
        r@ == a@ * pow2(k as nat),
{
    let s = num::BigUint::new(a.digits.clone()) << k;
    BigInteger { digits: s.to_u32_digits() }
}

/// Relies on `&BigUint >> usize`: division by a power of two, rounding down.
#[verifier::external_body]
pub(crate) fn shr(a: &BigInteger, k: usize) -> (r: BigInteger)
    ensures
        r@ == a@ / pow2(k as nat),
{
    let s = num::BigUint::new(a.digits.clone()) >> k;
    BigInteger { digits: s.to_u32_digits() }
}

/// Relies on `BigUint::modpow`, which panics on a zero modulus.
#[verifier::external_body]
pub(crate) fn modpow(base: &BigInteger, exponent: &BigInteger, modulus: &BigInteger) -> (r: BigInteger)
    requires
        modulus@ > 0,
    ensures
        r@ == pow(base@ as int, exponent@) % (modulus@ as int),
{
    let b = num::BigUint::new(base.digits.clone());
    let s = b.modpow(&num::BigUint::new(exponent.digits.clone()), &num::BigUint::new(modulus.digits.clone()));
    BigInteger { digits: s.to_u32_digits() }
}

/// Relies on `BigUint::modinv`: the inverse in `[0, modulus)` when one exists, else `None`;
/// panics on a zero modulus.
#[verifier::external_body]
pub(crate) fn modinv(a: &BigInteger, modulus: &BigInteger) -> (r: Option<BigInteger>)
    requires
        modulus@ > 0,
    ensures
        r is Some ==> r->0@ < modulus@ && (a@ * r->0@) % modulus@ == 1nat % modulus@,
        r is None ==> forall|x: nat| #![trigger (a@ * x) % modulus@] (a@ * x) % modulus@ != 1nat % modulus@,
{
    let s = num::BigUint::new(a.digits.clone()).modinv(&num::BigUint::new(modulus.digits.clone()));
    s.map(|v| BigInteger { digits: v.to_u32_digits() })
}

/// Relies on `Integer::gcd` of `BigUint` (with `gcd(a, 0) == a`).
#[verifier::external_body]
pub(crate) fn big_gcd(a: &BigInteger, b: &BigInteger) -> (r: BigInteger)
    ensures
        r@ == gcd(a@, b@),
{
    let s = num::BigUint::new(a.digits.clone()).gcd(&num::BigUint::new(b.digits.clone()));
    BigInteger { digits: s.to_u32_digits() }
}

/// Relies on `PartialOrd::lt` of `BigUint`.
#[verifier::external_body]
pub(crate) fn lt(a: &BigInteger, b: &BigInteger) -> (r: bool)
    ensures
        r == (a@ < b@),
{
    num::BigUint::new(a.digits.clone()) < num::BigUint::new(b.digits.clone())
}

/// Relies on `PartialEq::eq` of `BigUint`, which compares values.
#[verifier::external_body]
pub(crate) fn eq(a: &BigInteger, b: &BigInteger) -> (r: bool)
    ensures
        r == (a@ == b@),
{
    num::BigUint::new(a.digits.clone()) == num::BigUint::new(b.digits.clone())
}

/// Relies on `Zero::is_zero` of `BigUint`.
#[verifier::external_body]
pub(crate) fn is_zero(a: &BigInteger) -> (r: bool)
    ensures
        r == (a@ == 0),
{
    Zero::is_zero(&num::BigUint::new(a.digits.clone()))
}

/// Relies on `Integer::is_even` of `BigUint`.
#[verifier::external_body]
pub(crate) fn is_even(a: &BigInteger) -> (r: bool)
    ensures
        r == (a@ % 2 == 0),
{
    Integer::is_even(&num::BigUint::new(a.digits.clone()))
}

/// Relies on `BigUint::set_bit`: bit `bit` becomes `value`, the others stay.
#[verifier::external_body]
pub(crate) fn set_bit(a: &mut BigInteger, bit: u64, value: bool)
    ensures
        final(a)@ == with_bit(old(a)@, bit as nat, value),
{
    let mut s = num::BigUint::new(a.digits.clone());
    s.set_bit(bit, value);
    a.digits = s.to_u32_digits();
}

/// Relies on `RandBigInt::gen_biguint_below` over the operating system's generator:
/// uniform in `[0, bound)`; panics on a zero bound.
#[verifier::external_body]
pub(crate) fn sample_below(bound: &BigInteger) -> (r: BigInteger)
    requires
        bound@ > 0,
    ensures
        r@ < bound@,
{
    let s = rand::rngs::OsRng.gen_biguint_below(&num::BigUint::new(bound.digits.clone()));
    BigInteger { digits: s.to_u32_digits() }
}

/// Relies on `RandBigInt::gen_biguint_range` over the operating system's generator:
/// uniform in `[lower, upper)`; panics unless `lower < upper`.
#[verifier::external_body]
pub(crate) fn sample_range(lower: &BigInteger, upper: &BigInteger) -> (r: BigInteger)
    requires
        lower@ < upper@,
    ensures
        lower@ <= r@ < upper@,
{
    let l = num::BigUint::new(lower.digits.clone());
    let s = rand::rngs::OsRng.gen_biguint_range(&l, &num::BigUint::new(upper.digits.clone()));
    BigInteger { digits: s.to_u32_digits() }
}

/// Relies on `RandBigInt::gen_biguint` over the operating system's generator:
/// uniform below `2^bits`.
#[verifier::external_body]
pub(crate) fn sample_bits(bits: u64) -> (r: BigInteger)
    ensures
        r@ < pow2(bits as nat),
{
    let s = rand::rngs::OsRng.gen_biguint(bits);
    BigInteger { digits: s.to_u32_digits() }
}

} // verus!
