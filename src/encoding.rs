//! Mapping application values into the plaintext space `[0, n)` and back:
//! signed integers, split at `n/2`, and vectors packed into fixed-width lanes.
use crate::arith::BigInteger;
use crate::arith;
use crate::scheme::{encryption_of, standard_decryption, reduces_to_one, DecryptionKey, EncryptionKey, Error};
use crate::Paillier;
use vstd::arithmetic::div_mod::*;
use vstd::arithmetic::mul::*;
use vstd::arithmetic::power2::*;
use vstd::prelude::*;

verus! {

/// The plaintext that stands for the signed integer `x`: `x` itself when
/// non-negative, `n + x` when negative.
pub open spec fn signed_encoding(n: int, x: int) -> int {
    if x >= 0 {
        x
    } else {
        n + x
    }
}

/// The signed integer that the plaintext `v` stands for: `v` up to `n/2`, `v - n` above.
pub open spec fn signed_decoding(n: int, v: int) -> int {
    if v <= n / 2 {
        v
    } else {
        v - n
    }
}

/// The signed integers that the plaintext space `[0, n)` can hold:
/// `(n/2 - n, n/2]`, which is `[-k, k]` for `n = 2k + 1`.
pub open spec fn signed_representable(n: int, x: int) -> bool {
    n / 2 - n < x <= n / 2
}

/// Encodes a signed integer as a plaintext modulo `n`.
pub fn encode_signed(n: &BigInteger, x: i64) -> (r: Result<BigInteger, Error>)
    requires
        n@ > 1,
    ensures
        r is Ok <==> signed_representable(n@ as int, x as int),
        r is Ok ==> r->Ok_0@ == signed_encoding(n@ as int, x as int) && r->Ok_0@ < n@,
        r is Err ==> r->Err_0 == Error::EncodingOverflow,
{
    let half = arith::shr(n, 1);
    proof {
        lemma2_to64();
    }
    if x >= 0 {
        let v = BigInteger::from_u64(x as u64);
        if arith::lt(&half, &v) {
            Err(Error::EncodingOverflow)
        } else {
            Ok(v)
        }
    } else {
        let mag = BigInteger::from_u64((-(x as i128)) as u64);
        let upper = arith::sub(n, &half);
        if arith::lt(&mag, &upper) {
            Ok(arith::sub(n, &mag))
        } else {
            Err(Error::EncodingOverflow)
        }
    }
}

/// Decodes a plaintext modulo `n` as a signed integer; fails on a value at or
/// above `n`, and on one whose signed reading does not fit an `i64`.
pub fn decode_signed(n: &BigInteger, v: &BigInteger) -> (r: Result<i64, Error>)
    requires
        n@ > 1,
    ensures
        r == Err::<i64, Error>(Error::PlaintextOutOfRange) <==> v@ >= n@,
        r is Ok <==> v@ < n@ && i64::MIN <= signed_decoding(n@ as int, v@ as int) <= i64::MAX,
        r is Ok ==> r->Ok_0 as int == signed_decoding(n@ as int, v@ as int),
        r is Err ==> r->Err_0 == Error::PlaintextOutOfRange || r->Err_0 == Error::EncodingOverflow,
{
    if !arith::lt(v, n) {
        return Err(Error::PlaintextOutOfRange);
    }
    let half = arith::shr(n, 1);
    proof {
        lemma2_to64();
    }
    if !arith::lt(&half, v) {
        match arith::to_u64(v) {
            Some(k) => {
                if k <= 0x7fff_ffff_ffff_ffff {
                    Ok(k as i64)
                } else {
                    Err(Error::EncodingOverflow)
                }
            },
            None => Err(Error::EncodingOverflow),
        }
    } else {
        let mag = arith::sub(n, v);
        match arith::to_u64(&mag) {
            Some(k) => {
                if k <= 0x8000_0000_0000_0000 {
                    Ok((-(k as i128)) as i64)
                } else {
                    Err(Error::EncodingOverflow)
                }
            },
            None => Err(Error::EncodingOverflow),
        }
    }
}

/// Signed decoding undoes signed encoding on every representable integer.
pub proof fn lemma_signed_round_trip(n: int, x: int)
    requires
        n > 1,
        signed_representable(n, x),
    ensures
        0 <= signed_encoding(n, x) < n,
        signed_decoding(n, signed_encoding(n, x)) == x,
{
}

/// The packing configuration: `component_count` lanes of `component_size` bits each.
pub struct Code {
    pub component_count: usize,
    pub component_size: usize,
}

impl Code {
    pub open spec fn wf(&self) -> bool {
        1 <= self.component_size <= 64
    }

    /// A packing configuration; lanes are between 1 and 64 bits wide.
    pub fn new(component_count: usize, component_size: usize) -> (r: Result<Code, Error>)
        ensures
            r is Ok <==> 1 <= component_size <= 64,
            r is Ok ==> r->Ok_0.wf() && r->Ok_0.component_count == component_count
                && r->Ok_0.component_size == component_size,
            r is Err ==> r->Err_0 == Error::LaneOverflow,
    {
        if 1 <= component_size && component_size <= 64 {
            Ok(Code { component_count, component_size })
        } else {
            Err(Error::LaneOverflow)
        }
    }
}

/// The integer whose `w`-bit lanes, lowest first, hold `vs`.
pub open spec fn packed(vs: Seq<u64>, w: nat) -> nat
    decreases vs.len(),
{
    if vs.len() == 0 {
        0
    } else {
        vs[0] as nat + pow2(w) * packed(vs.drop_first(), w)
    }
}

/// Lane `i` of `v`: bits `[i·w, (i+1)·w)`.
pub open spec fn lane(v: nat, w: nat, i: nat) -> nat {
    (v / pow2(i * w)) % pow2(w)
}

/// Every element of `vs` fits in `w` bits.
pub open spec fn lanes_fit(vs: Seq<u64>, w: nat) -> bool {
    forall|i: int| 0 <= i < vs.len() ==> #[trigger] vs[i] < pow2(w)
}

/// Packs `values`, lowest lane first, into one plaintext below `n`. Fails with
/// `LaneOverflow` where an element does not fit its lane, and with
/// `EncodingOverflow` where the count differs from the code's or the packed
/// value reaches `n`.
pub fn encode_vector(n: &BigInteger, code: &Code, values: &Vec<u64>) -> (r: Result<BigInteger, Error>)
    requires
        code.wf(),
    ensures
        r == Err::<BigInteger, Error>(Error::LaneOverflow) <==> !lanes_fit(values@, code.component_size as nat),
        r is Ok <==> lanes_fit(values@, code.component_size as nat) && values.len() == code.component_count
            && packed(values@, code.component_size as nat) < n@,
        r is Ok ==> r->Ok_0@ == packed(values@, code.component_size as nat),
        r is Err ==> r->Err_0 == Error::LaneOverflow || r->Err_0 == Error::EncodingOverflow,
{
    let w = code.component_size;
    let ghost wn = w as nat;
    let one = BigInteger::from_u64(1);
    let bound = arith::shl(&one, w);
    let mut i: usize = 0;
    while i < values.len()
        invariant
            0 <= i <= values.len(),
            w == code.component_size,
            wn == w as nat,
            bound@ == pow2(wn),
            forall|j: int| 0 <= j < i ==> #[trigger] values@[j] < pow2(wn),
        decreases values.len() - i,
    {
        let v = BigInteger::from_u64(values[i]);
        if !arith::lt(&v, &bound) {
            proof {
                assert(!(values@[i as int] < pow2(wn)));
            }
            return Err(Error::LaneOverflow);
        }
        i = i + 1;
    }
    if values.len() != code.component_count {
        return Err(Error::EncodingOverflow);
    }
    let mut acc = BigInteger::from_u64(0);
    let mut k: usize = values.len();
    proof {
        assert(values@.subrange(k as int, values.len() as int).len() == 0);
    }
    while k > 0
        invariant
            0 <= k <= values.len(),
            w == code.component_size,
            wn == w as nat,
            lanes_fit(values@, wn),
            acc@ == packed(values@.subrange(k as int, values.len() as int), wn),
        decreases k,
    {
        let shifted = arith::shl(&acc, w);
        let v = BigInteger::from_u64(values[k - 1]);
        let ghost prev = acc@;
        acc = arith::add(&v, &shifted);
        proof {
            let tail = values@.subrange(k as int, values.len() as int);
            let longer = values@.subrange(k - 1, values.len() as int);
            assert(longer.drop_first() =~= tail);
            assert(longer[0] == values@[k - 1]);
            lemma_mul_is_commutative(prev as int, pow2(wn) as int);
            assert(packed(longer, wn) == longer[0] as nat + pow2(wn) * packed(longer.drop_first(), wn));
        }
        k = k - 1;
    }
    proof {
        assert(values@.subrange(0, values.len() as int) =~= values@);
    }
    if arith::lt(&acc, n) {
        Ok(acc)
    } else {
        Err(Error::EncodingOverflow)
    }
}

/// Reads the code's `component_count` lanes of `v`, lowest first, each modulo `2^w`.
pub fn decode_vector(code: &Code, v: &BigInteger) -> (r: Vec<u64>)
    requires
        code.wf(),
    ensures
        r.len() == code.component_count,
        forall|i: int| 0 <= i < r.len() ==> #[trigger] r[i] as nat == lane(v@, code.component_size as nat, i as nat),
{
    let w = code.component_size;
    let ghost wn = w as nat;
    let one = BigInteger::from_u64(1);
    let bound = arith::shl(&one, w);
    let mut rest = arith::copy(v);
    let mut out: Vec<u64> = Vec::new();
    let mut i: usize = 0;
    proof {
        lemma_pow2_pos(wn);
        assert(pow2(0) == 1) by {
            lemma2_to64();
        }
        lemma_div_basics(v@ as int);
    }
    while i < code.component_count
        invariant
            code.wf(),
            w == code.component_size,
            wn == w as nat,
            i <= code.component_count,
            out.len() == i,
            bound@ == pow2(wn),
            pow2(wn) > 0,
            rest@ == v@ / pow2(i as nat * wn),
            forall|j: int| 0 <= j < i ==> #[trigger] out[j] as nat == lane(v@, wn, j as nat),
        decreases code.component_count - i,
    {
        let l = arith::rem(&rest, &bound);
        proof {
            lemma2_to64();
            if wn < 64 {
                lemma_pow2_strictly_increases(wn, 64);
            }
        }
        let lv = match arith::to_u64(&l) {
            Some(x) => x,
            None => 0,
        };
        out.push(lv);
        let next = arith::shr(&rest, w);
        proof {
            lemma_pow2_pos(i as nat * wn);
            lemma_div_denominator(v@ as int, pow2(i as nat * wn) as int, pow2(wn) as int);
            lemma_pow2_adds(i as nat * wn, wn);
            assert((i + 1) as nat * wn == i as nat * wn + wn) by (nonlinear_arith);
        }
        rest = next;
        i = i + 1;
    }
    out
}

/// Unpacking undoes packing: lane `i` of a packed vector whose elements fit
/// their lanes is element `i`.
pub proof fn lemma_packed_round_trip(vs: Seq<u64>, w: nat, i: nat)
    requires
        lanes_fit(vs, w),
        i < vs.len(),
    ensures
        lane(packed(vs, w), w, i) == vs[i as int],
    decreases i,
{
    let rest = packed(vs.drop_first(), w);
    lemma_pow2_pos(w);
    assert(vs[0] < pow2(w));
    if i == 0 {
        assert(pow2(0) == 1) by {
            lemma2_to64();
        }
        assert(0 * w == 0);
        lemma_div_basics(packed(vs, w) as int);
        assert(packed(vs, w) == pow2(w) * rest + vs[0]);
        lemma_mod_multiples_vanish(rest as int, vs[0] as int, pow2(w) as int);
        lemma_small_mod(vs[0] as nat, pow2(w));
    } else {
        let tail = vs.drop_first();
        assert(lanes_fit(tail, w)) by {
            assert forall|j: int| 0 <= j < tail.len() implies #[trigger] tail[j] < pow2(w) by {
                assert(tail[j] == vs[j + 1]);
            }
        }
        lemma_packed_round_trip(tail, w, (i - 1) as nat);
        let k = (i - 1) as nat;
        assert(i * w == w + k * w) by (nonlinear_arith)
            requires k == i - 1;
        lemma_pow2_adds(w, k * w);
        lemma_pow2_pos(k * w);
        lemma_div_denominator(packed(vs, w) as int, pow2(w) as int, pow2(k * w) as int);
        lemma_div_multiples_vanish_fancy(rest as int, vs[0] as int, pow2(w) as int);
        assert(packed(vs, w) == pow2(w) * rest + vs[0]);
        assert(packed(vs, w) / pow2(w) == rest);
        assert(pow2(i * w) == pow2(w) * pow2(k * w));
        assert(packed(vs, w) / pow2(i * w) == rest / pow2(k * w));
        assert(tail[k as int] == vs[i as int]);
    }
}

/// The `w`-bit lane that holds the signed integer `x`, in two's complement.
pub open spec fn signed_lane(x: int, w: nat) -> int {
    if x >= 0 {
        x
    } else {
        pow2(w) + x
    }
}

/// The signed integer that a `w`-bit lane holds: split at `2^(w-1)`.
pub open spec fn signed_from_lane(l: int, w: nat) -> int {
    if l < pow2((w - 1) as nat) {
        l
    } else {
        l - pow2(w)
    }
}

/// Every element of `vs` lies in `[-2^(w-1), 2^(w-1))`.
pub open spec fn signed_lanes_fit(vs: Seq<i64>, w: nat) -> bool {
    forall|i: int|
        0 <= i < vs.len() ==> -pow2((w - 1) as nat) <= #[trigger] vs[i] < pow2((w - 1) as nat)
}

/// The lanes that hold the elements of `vs`.
pub open spec fn signed_lanes(vs: Seq<i64>, w: nat) -> Seq<u64> {
    Seq::new(vs.len(), |i: int| signed_lane(vs[i] as int, w) as u64)
}

/// `2^w` and `2^(w-1)` for a lane width `w` in `[1, 64]`.
fn lane_bounds(w: usize) -> (r: (u128, u128))
    requires
        1 <= w <= 64,
    ensures
        r.0 == pow2(w as nat),
        r.1 == pow2((w - 1) as nat),
        r.0 == 2 * r.1,
        r.0 <= 0x1_0000_0000_0000_0000,
{
    let mut pw: u128 = 1;
    let mut j: usize = 0;
    proof {
        lemma2_to64();
    }
    while j < w
        invariant
            j <= w <= 64,
            pw == pow2(j as nat),
        decreases w - j,
    {
        proof {
            lemma_pow2_unfold((j + 1) as nat);
            lemma2_to64();
            if j + 1 < 64 {
                lemma_pow2_strictly_increases((j + 1) as nat, 64);
            }
        }
        pw = pw * 2;
        j = j + 1;
    }
    proof {
        lemma_pow2_unfold(w as nat);
        lemma2_to64();
        if w < 64 {
            lemma_pow2_strictly_increases(w as nat, 64);
        }
    }
    (pw, pw / 2)
}

/// Packs signed integers, each in two's complement in its lane, lowest lane
/// first. Fails with `LaneOverflow` where an element lies outside
/// `[-2^(w-1), 2^(w-1))`, and with `EncodingOverflow` where the count differs
/// from the code's or the packed value reaches `n`.
pub fn encode_signed_vector(n: &BigInteger, code: &Code, values: &Vec<i64>) -> (r: Result<BigInteger, Error>)
    requires
        code.wf(),
    ensures
        r == Err::<BigInteger, Error>(Error::LaneOverflow) <==> !signed_lanes_fit(values@, code.component_size as nat),
        r is Ok <==> signed_lanes_fit(values@, code.component_size as nat) && values.len() == code.component_count
            && packed(signed_lanes(values@, code.component_size as nat), code.component_size as nat) < n@,
        r is Ok ==> r->Ok_0@ == packed(signed_lanes(values@, code.component_size as nat), code.component_size as nat),
        r is Err ==> r->Err_0 == Error::LaneOverflow || r->Err_0 == Error::EncodingOverflow,
{
    let w = code.component_size;
    let ghost wn = w as nat;
    let (pw, half) = lane_bounds(w);
    let mut lanes: Vec<u64> = Vec::new();
    let mut i: usize = 0;
    while i < values.len()
        invariant
            i <= values.len(),
            w == code.component_size,
            wn == w as nat,
            1 <= w <= 64,
            pw == pow2(wn),
            half == pow2((wn - 1) as nat),
            pw == 2 * half,
            pw <= 0x1_0000_0000_0000_0000,
            lanes.len() == i,
            forall|j: int| 0 <= j < i ==> -pow2((wn - 1) as nat) <= #[trigger] values@[j] < pow2((wn - 1) as nat),
            forall|j: int| 0 <= j < i ==> #[trigger] lanes@[j] == signed_lane(values@[j] as int, wn) as u64,
            forall|j: int| 0 <= j < i ==> #[trigger] lanes@[j] < pow2(wn),
        decreases values.len() - i,
    {
        let v = values[i] as i128;
        if v < -(half as i128) || v >= half as i128 {
            proof {
                assert(!(-pow2((wn - 1) as nat) <= values@[i as int] < pow2((wn - 1) as nat)));
            }
            return Err(Error::LaneOverflow);
        }
        let l: u64 = if v >= 0 {
            v as u64
        } else {
            (v + pw as i128) as u64
        };
        lanes.push(l);
        i = i + 1;
    }
    proof {
        assert(lanes@ =~= signed_lanes(values@, wn));
        assert(lanes_fit(lanes@, wn));
    }
    encode_vector(n, code, &lanes)
}

/// Reads the code's `component_count` lanes of `v`, lowest first, each as a
/// signed integer in two's complement.
pub fn decode_signed_vector(code: &Code, v: &BigInteger) -> (r: Vec<i64>)
    requires
        code.wf(),
    ensures
        r.len() == code.component_count,
        forall|i: int| 0 <= i < r.len() ==> #[trigger] r[i] as int == signed_from_lane(
            lane(v@, code.component_size as nat, i as nat) as int,
            code.component_size as nat,
        ),
{
    let w = code.component_size;
    let ghost wn = w as nat;
    let (pw, half) = lane_bounds(w);
    let raw = decode_vector(code, v);
    let mut out: Vec<i64> = Vec::new();
    let mut i: usize = 0;
    while i < raw.len()
        invariant
            i <= raw.len(),
            raw.len() == code.component_count,
            w == code.component_size,
            wn == w as nat,
            1 <= w <= 64,
            pw == pow2(wn),
            half == pow2((wn - 1) as nat),
            pw == 2 * half,
            pw <= 0x1_0000_0000_0000_0000,
            out.len() == i,
            forall|j: int| 0 <= j < raw.len() ==> #[trigger] raw[j] as nat == lane(v@, wn, j as nat),
            forall|j: int| 0 <= j < i ==> #[trigger] out[j] as int == signed_from_lane(lane(v@, wn, j as nat) as int, wn),
        decreases raw.len() - i,
    {
        let x = raw[i];
        proof {
            lemma_pow2_pos(wn);
            lemma_mod_bound((v@ / pow2(i as nat * wn)) as int, pow2(wn) as int);
        }
        let s: i64 = if (x as u128) < half {
            x as i64
        } else {
            (x as i128 - pw as i128) as i64
        };
        out.push(s);
        i = i + 1;
    }
    out
}

/// Unpacking undoes packing for signed vectors: lane `i` of a packed vector
/// whose elements fit their lanes reads back as element `i`.
pub proof fn lemma_signed_packed_round_trip(vs: Seq<i64>, w: nat, i: nat)
    requires
        1 <= w <= 64,
        signed_lanes_fit(vs, w),
        i < vs.len(),
    ensures
        signed_from_lane(lane(packed(signed_lanes(vs, w), w), w, i) as int, w) == vs[i as int],
{
    let lanes = signed_lanes(vs, w);
    lemma_pow2_unfold(w);
    lemma2_to64();
    if w < 64 {
        lemma_pow2_strictly_increases(w, 64);
    }
    assert(lanes_fit(lanes, w)) by {
        assert forall|j: int| 0 <= j < lanes.len() implies #[trigger] lanes[j] < pow2(w) by {
            assert(-pow2((w - 1) as nat) <= vs[j] < pow2((w - 1) as nat));
        }
    }
    lemma_packed_round_trip(lanes, w, i);
    assert(-pow2((w - 1) as nat) <= vs[i as int] < pow2((w - 1) as nat));
}

/// Encodes a signed integer and encrypts it.
pub fn encrypt_signed(ek: &EncryptionKey, x: i64) -> (res: Result<BigInteger, Error>)
    requires
        ek.wf(),
    ensures
        res is Ok <==> signed_representable(ek.n@ as int, x as int),
        res is Err ==> res->Err_0 == Error::EncodingOverflow,
        res is Ok ==> exists|r: int| #![trigger encryption_of(ek.n@ as int, signed_encoding(ek.n@ as int, x as int), r)]
            1 <= r < ek.n@ && res->Ok_0@ == encryption_of(ek.n@ as int, signed_encoding(ek.n@ as int, x as int), r),
{
    let m = encode_signed(&ek.n, x)?;
    Paillier::encrypt(ek, &m)
}

/// Decrypts a ciphertext with the standard key and decodes it as a signed integer.
pub fn decrypt_signed(dk: &DecryptionKey, c: &BigInteger) -> (res: Result<i64, Error>)
    requires
        dk.wf(),
    ensures
        res is Ok <==> c@ < dk.nn@ && reduces_to_one(c@ as int, dk.lambda@ as int, dk.n@ as int)
            && i64::MIN <= signed_decoding(dk.n@ as int,
                standard_decryption(dk.n@ as int, dk.lambda@ as int, dk.mu@ as int, c@ as int)) <= i64::MAX,
        res is Ok ==> res->Ok_0 as int == signed_decoding(dk.n@ as int,
            standard_decryption(dk.n@ as int, dk.lambda@ as int, dk.mu@ as int, c@ as int)),
{
    let m = Paillier::decrypt(dk, c)?;
    proof {
        lemma_mod_bound(m@ as int, dk.n@ as int);
    }
    decode_signed(&dk.n, &m)
}

/// Packs a vector under `code` and encrypts it.
pub fn encrypt_vector(ek: &EncryptionKey, code: &Code, values: &Vec<u64>) -> (res: Result<BigInteger, Error>)
    requires
        ek.wf(),
        code.wf(),
    ensures
        res == Err::<BigInteger, Error>(Error::LaneOverflow) <==> !lanes_fit(values@, code.component_size as nat),
        res is Ok <==> lanes_fit(values@, code.component_size as nat) && values.len() == code.component_count
            && packed(values@, code.component_size as nat) < ek.n@,
        res is Ok ==> exists|r: int| #![trigger encryption_of(ek.n@ as int, packed(values@, code.component_size as nat) as int, r)]
            1 <= r < ek.n@ && res->Ok_0@ == encryption_of(ek.n@ as int, packed(values@, code.component_size as nat) as int, r),
{
    let m = encode_vector(&ek.n, code, values)?;
    Paillier::encrypt(ek, &m)
}

/// Decrypts a ciphertext with the standard key and unpacks its lanes under `code`.
pub fn decrypt_vector(dk: &DecryptionKey, code: &Code, c: &BigInteger) -> (res: Result<Vec<u64>, Error>)
    requires
        dk.wf(),
        code.wf(),
    ensures
        res is Ok <==> c@ < dk.nn@ && reduces_to_one(c@ as int, dk.lambda@ as int, dk.n@ as int),
        res is Ok ==> res->Ok_0.len() == code.component_count,
        res is Ok ==> forall|i: int| 0 <= i < res->Ok_0.len() ==> #[trigger] res->Ok_0[i] as nat == lane(
            standard_decryption(dk.n@ as int, dk.lambda@ as int, dk.mu@ as int, c@ as int) as nat,
            code.component_size as nat,
            i as nat,
        ),
{
    let m = Paillier::decrypt(dk, c)?;
    Ok(decode_vector(code, &m))
}

} // verus!
