use paillier::arith::BigInteger;
use paillier::primes::{
    generate_keypair, is_probable_prime, keypair_from_primes, miller_rabin_round, sample_prime,
};
use paillier::scheme::{CrtDecryptionKey, DecryptionKey, EncryptionKey};
use paillier::Paillier;

fn small(x: u64) -> BigInteger {
    BigInteger::from_u64(x)
}

#[test]
fn test_miller_rabin_round() {
    assert!(miller_rabin_round(&small(97), &small(5)));
    assert!(miller_rabin_round(&small(1_000_000_007), &small(2)));
    // 561 = 3 * 11 * 17, a Carmichael number: base 2 is a witness.
    assert!(!miller_rabin_round(&small(561), &small(2)));
    // 2047 = 23 * 89 is a strong pseudoprime to base 2, but not to base 3.
    assert!(miller_rabin_round(&small(2047), &small(2)));
    assert!(!miller_rabin_round(&small(2047), &small(3)));
}

#[test]
fn test_is_probable_prime() {
    assert!(!is_probable_prime(&small(0)));
    assert!(!is_probable_prime(&small(1)));
    assert!(is_probable_prime(&small(2)));
    assert!(is_probable_prime(&small(3)));
    assert!(!is_probable_prime(&small(4)));
    assert!(is_probable_prime(&small(997)));
    assert!(!is_probable_prime(&small(561)));
    assert!(is_probable_prime(&small(1_000_000_007)));
    assert!(!is_probable_prime(&small(1_000_003 * 1_000_033)));
    assert!(is_probable_prime(&small(18446744073709551557)));
}

#[test]
fn test_sample_prime() {
    let p = sample_prime(64).unwrap();
    assert!(is_probable_prime(&p));
    let digits = p.to_digits();
    assert_eq!(digits.len(), 2);
    assert!(digits[1] >= 0x8000_0000);
    assert_eq!(digits[0] % 2, 1);
}

#[test]
fn test_generated_keypair_round_trip() {
    let kp = generate_keypair(256).unwrap();
    assert!(kp.p != kp.q);
    for f in [&kp.p, &kp.q] {
        let d = f.to_digits();
        assert_eq!(d.len(), 4);
        assert!(d[3] >= 0x8000_0000);
        assert_eq!(d[0] % 2, 1);
    }
    let ek = EncryptionKey::from_keypair(&kp);
    let dk = DecryptionKey::from_keypair(&kp).unwrap();
    let crt = CrtDecryptionKey::from_keypair(&kp).unwrap();
    let c = Paillier::encrypt(&ek, &small(1234)).unwrap();
    assert_eq!(Paillier::decrypt(&dk, &c).unwrap(), small(1234));
    assert_eq!(Paillier::decrypt_crt(&crt, &c).unwrap(), small(1234));
}

#[test]
fn test_keypair_from_primes() {
    let kp = keypair_from_primes(small(11), small(17)).unwrap();
    assert_eq!(kp.p, small(11));
    assert_eq!(kp.q, small(17));
    assert!(keypair_from_primes(small(11), small(11)).is_none());
    // n = 3 * 7 = 21 and (p-1)(q-1) = 12 share the factor 3.
    assert!(keypair_from_primes(small(3), small(7)).is_none());
}
