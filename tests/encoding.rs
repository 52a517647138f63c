use paillier::arith::BigInteger;
use paillier::encoding::{
    decode_signed, decode_vector, decrypt_signed, decrypt_vector, encode_signed, encode_vector,
    decode_signed_vector, encode_signed_vector, encrypt_signed, encrypt_vector, Code,
};
use paillier::scheme::{DecryptionKey, EncryptionKey, Error, Keypair};
use paillier::Paillier;

const P: &str = "86844066927987146567678238756515930889976686356430574282322157471364287287227";
const Q: &str = "86844066927987146567678238756521614507241006577937333980175111308156131331581";

fn big(decimal: &str) -> BigInteger {
    let v = num::BigUint::parse_bytes(decimal.as_bytes(), 10).unwrap();
    BigInteger::from_digits(v.to_u32_digits())
}

fn small(x: u64) -> BigInteger {
    BigInteger::from_u64(x)
}

#[test]
fn test_signed_round_trip_negative_five() {
    let n = small(101);
    let v = encode_signed(&n, -5).unwrap();
    assert_eq!(v, small(96));
    assert_eq!(decode_signed(&n, &v), Ok(-5));
}

#[test]
fn test_signed_round_trip_edges() {
    let n = small(101);
    // n = 101 = 2 * 50 + 1: representable range is [-50, 50].
    assert_eq!(encode_signed(&n, 50), Ok(small(50)));
    assert_eq!(encode_signed(&n, -50), Ok(small(51)));
    assert_eq!(decode_signed(&n, &encode_signed(&n, 50).unwrap()), Ok(50));
    assert_eq!(decode_signed(&n, &encode_signed(&n, -50).unwrap()), Ok(-50));
    assert_eq!(decode_signed(&n, &encode_signed(&n, 0).unwrap()), Ok(0));
    assert_eq!(encode_signed(&n, 51), Err(Error::EncodingOverflow));
    assert_eq!(encode_signed(&n, -51), Err(Error::EncodingOverflow));
    assert_eq!(decode_signed(&n, &small(101)), Err(Error::PlaintextOutOfRange));
}

#[test]
fn test_signed_extremes_on_large_modulus() {
    let n = big(P);
    for x in [i64::MIN, -1, 0, 1, i64::MAX] {
        assert_eq!(decode_signed(&n, &encode_signed(&n, x).unwrap()), Ok(x));
    }
    // A plaintext just below n/2 does not fit an i64.
    let half = BigInteger::from_digits(
        (num::BigUint::parse_bytes(P.as_bytes(), 10).unwrap() / 2u32 - 1u32).to_u32_digits(),
    );
    assert_eq!(decode_signed(&n, &half), Err(Error::EncodingOverflow));
}

#[test]
fn test_signed_encrypted_sum() {
    let kp = Keypair::new(big(P), big(Q)).unwrap();
    let ek = EncryptionKey::from_keypair(&kp);
    let dk = DecryptionKey::from_keypair(&kp).unwrap();
    let c1 = Paillier::encrypt(&ek, &encode_signed(&ek.n, -5).unwrap()).unwrap();
    let c2 = Paillier::encrypt(&ek, &encode_signed(&ek.n, 3).unwrap()).unwrap();
    let m = Paillier::decrypt(&dk, &Paillier::add(&ek, &c1, &c2)).unwrap();
    assert_eq!(decode_signed(&dk.n, &m), Ok(-2));
}

#[test]
fn test_packed_round_trip() {
    let n = big(P);
    let code = Code::new(3, 16).unwrap();
    let v = encode_vector(&n, &code, &vec![3, 7, 1]).unwrap();
    // 3 + 7 * 2^16 + 1 * 2^32
    assert_eq!(v, small(3 + 7 * 65536 + 4294967296));
    assert_eq!(decode_vector(&code, &v), vec![3, 7, 1]);
}

#[test]
fn test_packed_lane_overflow() {
    let n = big(P);
    let code = Code::new(3, 16).unwrap();
    assert_eq!(encode_vector(&n, &code, &vec![3, 65536, 1]), Err(Error::LaneOverflow));
    assert!(encode_vector(&n, &code, &vec![3, 65535, 1]).is_ok());
}

#[test]
fn test_packed_encoding_overflow() {
    let code = Code::new(3, 16).unwrap();
    assert_eq!(encode_vector(&small(1000), &code, &vec![3, 7, 1]), Err(Error::EncodingOverflow));
    assert_eq!(encode_vector(&big(P), &code, &vec![3, 7]), Err(Error::EncodingOverflow));
}

#[test]
fn test_code_width_bounds() {
    assert_eq!(Code::new(2, 0).err(), Some(Error::LaneOverflow));
    assert_eq!(Code::new(2, 65).err(), Some(Error::LaneOverflow));
    let code = Code::new(2, 64).unwrap();
    let v = encode_vector(&big(P), &code, &vec![u64::MAX, 5]).unwrap();
    assert_eq!(decode_vector(&code, &v), vec![u64::MAX, 5]);
}

#[test]
fn test_packed_homomorphic_lane_sums() {
    let kp = Keypair::new(big(P), big(Q)).unwrap();
    let ek = EncryptionKey::from_keypair(&kp);
    let dk = DecryptionKey::from_keypair(&kp).unwrap();
    let code = Code::new(3, 16).unwrap();
    let a = encode_vector(&ek.n, &code, &vec![3, 7, 1]).unwrap();
    let b = encode_vector(&ek.n, &code, &vec![10, 20, 30]).unwrap();
    let c = Paillier::add(&ek, &Paillier::encrypt(&ek, &a).unwrap(), &Paillier::encrypt(&ek, &b).unwrap());
    let m = Paillier::decrypt(&dk, &c).unwrap();
    assert_eq!(decode_vector(&code, &m), vec![13, 27, 31]);
    let d = Paillier::mul(&ek, &Paillier::encrypt(&ek, &a).unwrap(), &small(2));
    let m2 = Paillier::decrypt(&dk, &d).unwrap();
    assert_eq!(decode_vector(&code, &m2), vec![6, 14, 2]);
}

#[test]
fn test_encrypt_decrypt_signed() {
    let kp = Keypair::new(big(P), big(Q)).unwrap();
    let ek = EncryptionKey::from_keypair(&kp);
    let dk = DecryptionKey::from_keypair(&kp).unwrap();
    let c = encrypt_signed(&ek, -5).unwrap();
    assert_eq!(decrypt_signed(&dk, &c), Ok(-5));
    let c2 = Paillier::mul(&ek, &c, &small(3));
    assert_eq!(decrypt_signed(&dk, &c2), Ok(-15));
}

#[test]
fn test_encrypt_decrypt_vector() {
    let kp = Keypair::new(big(P), big(Q)).unwrap();
    let ek = EncryptionKey::from_keypair(&kp);
    let dk = DecryptionKey::from_keypair(&kp).unwrap();
    let code = Code::new(3, 16).unwrap();
    let c = encrypt_vector(&ek, &code, &vec![3, 7, 1]).unwrap();
    assert_eq!(decrypt_vector(&dk, &code, &c), Ok(vec![3, 7, 1]));
    assert_eq!(encrypt_vector(&ek, &code, &vec![3, 70000, 1]), Err(Error::LaneOverflow));
    assert_eq!(decrypt_vector(&dk, &code, &small(0)), Err(Error::MalformedCiphertext));
}

#[test]
fn test_signed_even_modulus_split() {
    let n = small(100);
    // n = 100: non-negative side [0, 50], negative side [51, 99] reads [-49, -1].
    assert_eq!(decode_signed(&n, &small(50)), Ok(50));
    assert_eq!(decode_signed(&n, &small(51)), Ok(-49));
    assert_eq!(encode_signed(&n, -50), Err(Error::EncodingOverflow));
}

#[test]
fn test_signed_vector_round_trip() {
    let n = big(P);
    let code = Code::new(4, 16).unwrap();
    let values = vec![3, -7, -32768, 32767];
    let v = encode_signed_vector(&n, &code, &values).unwrap();
    // lanes: 3, 65529, 32768, 32767
    let expected = num::BigUint::from(3u64)
        + (num::BigUint::from(65529u64) << 16)
        + (num::BigUint::from(32768u64) << 32)
        + (num::BigUint::from(32767u64) << 48);
    assert_eq!(num::BigUint::new(v.to_digits()), expected);
    assert_eq!(decode_signed_vector(&code, &v), values);
}

#[test]
fn test_signed_vector_lane_overflow() {
    let n = big(P);
    let code = Code::new(2, 16).unwrap();
    assert_eq!(encode_signed_vector(&n, &code, &vec![32768, 0]), Err(Error::LaneOverflow));
    assert_eq!(encode_signed_vector(&n, &code, &vec![0, -32769]), Err(Error::LaneOverflow));
    assert_eq!(encode_signed_vector(&small(1000), &code, &vec![1, 1]), Err(Error::EncodingOverflow));
}

#[test]
fn test_signed_vector_full_width_lanes() {
    let code = Code::new(2, 64).unwrap();
    let values = vec![i64::MIN, i64::MAX];
    let v = encode_signed_vector(&big(P), &code, &values).unwrap();
    assert_eq!(decode_signed_vector(&code, &v), values);
}

#[test]
fn test_signed_vector_encrypted_sum() {
    let kp = Keypair::new(big(P), big(Q)).unwrap();
    let ek = EncryptionKey::from_keypair(&kp);
    let dk = DecryptionKey::from_keypair(&kp).unwrap();
    let code = Code::new(3, 16).unwrap();
    let a = encode_signed_vector(&ek.n, &code, &vec![5, -3, 100]).unwrap();
    let b = encode_signed_vector(&ek.n, &code, &vec![-2, -4, 0]).unwrap();
    let c = Paillier::add(&ek, &Paillier::encrypt(&ek, &a).unwrap(), &Paillier::encrypt(&ek, &b).unwrap());
    let m = Paillier::decrypt(&dk, &c).unwrap();
    // Lane sums carry across lanes where a negative lane is added: lane 0 gives
    // 5 + 65534 = 65539, which carries one into lane 1: the caller bounds such sums.
    let lanes = decode_signed_vector(&code, &m);
    assert_eq!(lanes[0], 3);
    assert_eq!(lanes[1], -6);
    assert_eq!(lanes[2], 101);
}

#[test]
fn test_to_u64() {
    assert_eq!(small(12345).to_u64(), Some(12345));
    assert_eq!(small(u64::MAX).to_u64(), Some(u64::MAX));
    assert_eq!(big(P).to_u64(), None);
}
