use paillier::arith::BigInteger;
use paillier::scheme::{CrtDecryptionKey, DecryptionKey, EncryptionKey, Error, Keypair};
use paillier::Paillier;

const P: &str = "86844066927987146567678238756515930889976686356430574282322157471364287287227";
const Q: &str = "86844066927987146567678238756521614507241006577937333980175111308156131331581";

fn big(decimal: &str) -> BigInteger {
    let v = num::BigUint::parse_bytes(decimal.as_bytes(), 10).unwrap();
    BigInteger::from_digits(v.to_u32_digits())
}

fn to_biguint(x: &BigInteger) -> num::BigUint {
    num::BigUint::new(x.to_digits())
}

fn small(x: u64) -> BigInteger {
    BigInteger::from_u64(x)
}

fn test_keypair() -> Keypair {
    Keypair::new(big(P), big(Q)).unwrap()
}

fn keys() -> (EncryptionKey, DecryptionKey, CrtDecryptionKey) {
    let kp = test_keypair();
    let ek = EncryptionKey::from_keypair(&kp);
    let dk = DecryptionKey::from_keypair(&kp).unwrap();
    let crt = CrtDecryptionKey::from_keypair(&kp).unwrap();
    (ek, dk, crt)
}

#[test]
fn test_addition_scenario() {
    let (ek, dk, crt) = keys();
    let c1 = Paillier::encrypt(&ek, &small(10)).unwrap();
    let c2 = Paillier::encrypt(&ek, &small(20)).unwrap();
    let c = Paillier::add(&ek, &c1, &c2);
    assert_eq!(Paillier::decrypt(&dk, &c).unwrap(), small(30));
    assert_eq!(Paillier::decrypt_crt(&crt, &c).unwrap(), small(30));
}

#[test]
fn test_multiplication_scenario() {
    let (ek, dk, crt) = keys();
    let c = Paillier::encrypt(&ek, &small(10)).unwrap();
    let d = Paillier::mul(&ek, &c, &small(20));
    assert_eq!(Paillier::decrypt(&dk, &d).unwrap(), small(200));
    assert_eq!(Paillier::decrypt_crt(&crt, &d).unwrap(), small(200));
}

#[test]
fn test_round_trip_both_forms() {
    let (ek, dk, crt) = keys();
    let n = to_biguint(&ek.n);
    let values = vec![
        num::BigUint::from(0u32),
        num::BigUint::from(1u32),
        num::BigUint::from(10u32),
        &n / 3u32,
        &n - 1u32,
    ];
    for v in values {
        let m = BigInteger::from_digits(v.to_u32_digits());
        let c = Paillier::encrypt(&ek, &m).unwrap();
        assert_eq!(to_biguint(&Paillier::decrypt(&dk, &c).unwrap()), v);
        assert_eq!(to_biguint(&Paillier::decrypt_crt(&crt, &c).unwrap()), v);
    }
}

#[test]
fn test_crt_matches_standard() {
    let (ek, dk, crt) = keys();
    for m in [0u64, 7, 123456789, u64::MAX] {
        let c = Paillier::encrypt(&ek, &small(m)).unwrap();
        let a = Paillier::decrypt(&dk, &c).unwrap();
        let b = Paillier::decrypt_crt(&crt, &c).unwrap();
        assert_eq!(a, b);
        assert_eq!(a, small(m));
    }
}

#[test]
fn test_homomorphic_addition_wraps_modulo_n() {
    let (ek, dk, _) = keys();
    let n = to_biguint(&ek.n);
    let big_m = BigInteger::from_digits((&n - 5u32).to_u32_digits());
    let c1 = Paillier::encrypt(&ek, &big_m).unwrap();
    let c2 = Paillier::encrypt(&ek, &small(8)).unwrap();
    let c = Paillier::add(&ek, &c1, &c2);
    assert_eq!(Paillier::decrypt(&dk, &c).unwrap(), small(3));
}

#[test]
fn test_rerandomization() {
    let (ek, dk, crt) = keys();
    let c = Paillier::encrypt(&ek, &small(42)).unwrap();
    let c2 = Paillier::rerandomize(&ek, &c);
    assert!(c2 != c);
    assert_eq!(Paillier::decrypt(&dk, &c2).unwrap(), small(42));
    assert_eq!(Paillier::decrypt_crt(&crt, &c2).unwrap(), small(42));
}

#[test]
fn test_encryption_is_probabilistic() {
    let (ek, dk, _) = keys();
    let c1 = Paillier::encrypt(&ek, &small(5)).unwrap();
    let c2 = Paillier::encrypt(&ek, &small(5)).unwrap();
    assert!(c1 != c2);
    assert_eq!(Paillier::decrypt(&dk, &c1).unwrap(), Paillier::decrypt(&dk, &c2).unwrap());
}

#[test]
fn test_encrypt_with_randomness_exact() {
    let kp = Keypair::new(small(5), small(7)).unwrap();
    let ek = EncryptionKey::from_keypair(&kp);
    assert_eq!(ek.n, small(35));
    assert_eq!(ek.nn, small(1225));
    let c = Paillier::encrypt_with_randomness(&ek, &small(3), &small(2));
    assert_eq!(c, small(683));
    let dk = DecryptionKey::from_keypair(&kp).unwrap();
    assert_eq!(dk.lambda, small(12));
    assert_eq!(Paillier::decrypt(&dk, &c).unwrap(), small(3));
    let crt = CrtDecryptionKey::from_keypair(&kp).unwrap();
    assert_eq!(Paillier::decrypt_crt(&crt, &c).unwrap(), small(3));
}

#[test]
fn test_rerandomize_with_randomness_exact() {
    let kp = Keypair::new(small(5), small(7)).unwrap();
    let ek = EncryptionKey::from_keypair(&kp);
    // 683 * 3^35 mod 1225
    let c = Paillier::rerandomize_with_randomness(&ek, &small(683), &small(3));
    let expected = (num::BigUint::from(683u32) * num::BigUint::from(3u32).pow(35)) % 1225u32;
    assert_eq!(to_biguint(&c), expected);
}

#[test]
fn test_plaintext_out_of_range() {
    let (ek, _, _) = keys();
    let n = BigInteger::from_digits(ek.n.to_digits());
    assert_eq!(Paillier::encrypt(&ek, &n), Err(Error::PlaintextOutOfRange));
}

#[test]
fn test_ciphertext_out_of_range() {
    let (ek, dk, crt) = keys();
    let nn = BigInteger::from_digits(ek.nn.to_digits());
    assert_eq!(Paillier::decrypt(&dk, &nn), Err(Error::CiphertextOutOfRange));
    assert_eq!(Paillier::decrypt_crt(&crt, &nn), Err(Error::CiphertextOutOfRange));
}

#[test]
fn test_malformed_ciphertext() {
    let (_, dk, crt) = keys();
    assert_eq!(Paillier::decrypt(&dk, &small(0)), Err(Error::MalformedCiphertext));
    assert_eq!(Paillier::decrypt_crt(&crt, &small(0)), Err(Error::MalformedCiphertext));
}

#[test]
fn test_invalid_keypair() {
    assert!(Keypair::new(small(1), small(7)).is_err());
    assert!(Keypair::new(small(7), small(0)).is_err());
}

#[test]
fn test_key_without_inverse_is_refused() {
    // p = q = 3: n = 9, lambda = 2, L((n+1)^2 mod 81) = 2, which is invertible mod 9,
    // but q has no inverse modulo p.
    let kp = Keypair::new(small(3), small(3)).unwrap();
    assert_eq!(CrtDecryptionKey::from_keypair(&kp).err(), Some(Error::InvalidKey));
    // p = 2, q = 3: n = 6, lambda = 2, L(7^2 mod 36) = L(13) = 2, not invertible mod 6.
    let kp = Keypair::new(small(2), small(3)).unwrap();
    assert_eq!(DecryptionKey::from_keypair(&kp).err(), Some(Error::InvalidKey));
}

#[test]
fn test_rerandomize_only_trivial_randomness_keeps_ciphertext() {
    // p = 5, q = 7: n = 35 is coprime to (p-1)(q-1) = 24.
    let kp = Keypair::new(small(5), small(7)).unwrap();
    let ek = EncryptionKey::from_keypair(&kp);
    let dk = DecryptionKey::from_keypair(&kp).unwrap();
    let c = Paillier::encrypt_with_randomness(&ek, &small(3), &small(2));
    assert_eq!(Paillier::rerandomize_with_randomness(&ek, &c, &small(1)), c);
    for r in 2..35u64 {
        if r % 5 == 0 || r % 7 == 0 {
            continue;
        }
        let c2 = Paillier::rerandomize_with_randomness(&ek, &c, &small(r));
        assert!(c2 != c);
        assert_eq!(Paillier::decrypt(&dk, &c2).unwrap(), small(3));
    }
}
