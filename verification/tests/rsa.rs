use cryptosystems::asymmetric::number_theory::{euclidean_gcd, extended_gcd, modular_inverse};
use cryptosystems::asymmetric::primality::{generate_prime, is_prime};
use cryptosystems::asymmetric::rsa::{
    decrypt, encrypt, generate_key_pair, key_recovers_all_bytes, KeyPair, RsaError,
};

/// Draw key pairs until one demonstrably round-trips every byte value:
/// the generator does not force the two primes apart, and a pair built
/// on a repeated prime does not decrypt correctly.
fn usable_key_pair(low: u128, high: u128) -> KeyPair {
    for _ in 0..100 {
        let kp = generate_key_pair(low, high).unwrap();
        if key_recovers_all_bytes(kp.public_exponent, kp.private_exponent, kp.modulus) {
            return kp;
        }
    }
    panic!("no usable key pair in 100 draws");
}

#[test]
fn test_euclidean_gcd() {
    assert_eq!(euclidean_gcd(24, 9), 3);
}

#[test]
fn test_extended_gcd() {
    assert_eq!(extended_gcd(15, 56), (1, 15, -4));
    assert_eq!(15 * 15 + 56 * (-4), 1);
}

#[test]
fn test_modular_inverse() {
    assert_eq!(modular_inverse(9, 31), Ok(7));
    assert_eq!((9 * 7) % 31, 1);
}

#[test]
fn test_modular_inverse_normalizes() {
    // The raw Bezout coefficient of 3 modulo 7 is negative; the inverse
    // must come back in range.
    let d = modular_inverse(3, 7).unwrap();
    assert!(d < 7);
    assert_eq!((3 * d) % 7, 1);
    assert_eq!(d, 5);
}

#[test]
fn test_modular_inverse_undefined() {
    assert_eq!(modular_inverse(4, 8), Err(RsaError::InverseUndefined));
    assert_eq!(modular_inverse(0, 5), Err(RsaError::InverseUndefined));
}

#[test]
fn test_is_prime() {
    assert!(!is_prime(1));
    assert!(is_prime(2));
    assert!(!is_prime(8));
    assert!(is_prime(11));
}

#[test]
fn test_generate_prime_in_singleton_range() {
    assert_eq!(generate_prime(113, 113), Ok(113));
}

#[test]
fn test_generate_prime_primeless_range() {
    // 24 through 28 are all composite.
    assert_eq!(generate_prime(24, 28), Err(RsaError::NonTerminatingSearch));
}

#[test]
fn test_generating_rsa_keys() {
    let kp = usable_key_pair(100, 1000);

    let message = "Hello World";
    let cipher = encrypt(kp.public_key(), message.as_bytes()).unwrap();
    assert_eq!(cipher.len(), message.len());

    let plain_text = decrypt(kp.private_key(), &cipher).unwrap();
    assert_eq!(plain_text.as_slice(), message.as_bytes());
}

#[test]
fn test_key_pair_exponent_coprime_to_totient() {
    let kp = generate_key_pair(100, 1000).unwrap();
    // Recover the primes of the (small) modulus by trial division.
    let mut p: u128 = 2;
    while kp.modulus % p != 0 {
        p += 1;
    }
    let q = kp.modulus / p;
    let phi = (p - 1) * (q - 1);
    assert_eq!(euclidean_gcd(kp.public_exponent, phi), 1);
    assert_eq!(
        (kp.public_exponent * kp.private_exponent) % phi,
        1 % phi
    );
}

#[test]
fn test_encrypt_known_blocks() {
    // n = 391 = 17 * 23, e = 3: 5^3 = 125 and 7^3 = 343 = 87 + 1 * 256.
    let cipher = encrypt((3, 391), &[5, 7]).unwrap();
    assert_eq!(cipher, vec![vec![125u8], vec![87u8, 1u8]]);
}

#[test]
fn test_encrypt_zero_byte_block() {
    // 0^3 mod 391 == 0, encoded as the single byte 0.
    let cipher = encrypt((3, 391), &[0]).unwrap();
    assert_eq!(cipher, vec![vec![0u8]]);
}

#[test]
fn test_decrypt_known_blocks() {
    // 235 inverts 3 modulo phi(391) = 352: 3 * 235 = 705 = 2 * 352 + 1.
    let plain = decrypt((235, 391), &vec![vec![125u8], vec![87u8, 1u8]]).unwrap();
    assert_eq!(plain, vec![5u8, 7u8]);
}

#[test]
fn test_encrypt_rejects_byte_at_or_above_modulus() {
    // The byte 'z' is 122, which does not fit below a modulus of 5.
    assert_eq!(encrypt((3, 5), b"z"), Err(RsaError::InvalidModulus));
}

#[test]
fn test_decrypt_rejects_value_above_byte_range() {
    // 1337^1 mod 100000 = 1337, which does not fit in one byte.
    let blocks = vec![vec![0x39u8, 0x05u8]];
    assert_eq!(decrypt((1, 100_000), &blocks), Err(RsaError::InvalidModulus));
}

#[test]
fn test_key_recovers_all_bytes_detects_bad_exponent() {
    // 3 is not its own inverse modulo phi(391) = 352.
    assert!(!key_recovers_all_bytes(3, 3, 391));
    assert!(key_recovers_all_bytes(3, 235, 391));
}

#[test]
fn test_round_trip_fixed_range() {
    let kp = usable_key_pair(257, 1000);
    let message = "Hello World";
    let cipher = encrypt(kp.public_key(), message.as_bytes()).unwrap();
    assert_eq!(cipher.len(), 11);
    let plain_text = decrypt(kp.private_key(), &cipher).unwrap();
    assert_eq!(plain_text.as_slice(), message.as_bytes());
}
