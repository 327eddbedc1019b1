use cryptosystems::symmetric::one_time_pad::{decrypt, encrypt, random_sequence};

#[test]
fn encrypt_decrypt_data() {
    let message = "Hello World";
    let secret = vec![8, 0, 0, 2, 3, 8, 7, 8, 1, 1, 4];

    let encrypted = encrypt(message, &secret);
    assert_eq!(encrypted, "PELNRHCWSMH");

    let decrypted = decrypt(&encrypted, &secret);
    assert_eq!(decrypted, "HELLO WORLD");

    let secret = random_sequence(message.len());
    let encrypted = encrypt(message, &secret);
    let decrypted = decrypt(&encrypted, &secret);
    assert_eq!(decrypted, "HELLO WORLD");
}

#[test]
fn random_sequence_stays_in_alphabet() {
    let pad = random_sequence(500);
    assert_eq!(pad.len(), 500);
    assert!(pad.iter().all(|&v| v < 27));
}
