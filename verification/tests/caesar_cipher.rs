use cryptosystems::symmetric::caesar_cipher::{
    brute_force_attack, decrypt, encrypt, frequencies, frequency_analysis,
};

#[test]
fn caesar_cipher_encrypt_decrypt_message() {
    let message = "Hello World";
    let secret = 3;
    let result = encrypt(&message, secret);
    assert_eq!(result, "KHOORCZRUOG");
    let decrypted = decrypt(&result, secret);
    assert_eq!(decrypted, "HELLO WORLD");

    // Test overflow case
    let secret = 80;
    let result = encrypt(message, secret);
    assert_eq!(result, "GDKKNZVNQKC");
    let decrypted = decrypt(&result, secret);
    assert_eq!(decrypted, "HELLO WORLD");

    let secret = 200;
    let result = encrypt(message, secret);
    assert_eq!(result, "SPWWZKGZBWO");
    let decrypted = decrypt(&result, secret);
    assert_eq!(decrypted, "HELLO WORLD");
}

#[test]
fn caesar_cipher_negative_secret() {
    // A negative secret shifts by its magnitude.
    assert_eq!(encrypt("Hello World", -3), encrypt("Hello World", 3));
}

#[test]
fn brute_force_attack_encrypted_message() {
    let message = "KHOORCZRUOG";
    let decrypted = brute_force_attack(message);

    for i in 0..27 {
        match i {
            3 => {
                assert_eq!(decrypted[i], "HELLO WORLD");
            }
            _ => {
                assert_ne!(decrypted[i], "HELLO WORLD");
            }
        }
    }
}

#[test]
fn frequency_analysis_attack() {
    let cipher_text = "KHOORCZRUOG";
    let result = frequency_analysis(cipher_text);
    for i in 0..12 {
        if i == 10 {
            assert_eq!(decrypt(cipher_text, result[i] as i32), "HELLO WORLD");
        } else {
            assert_ne!(decrypt(cipher_text, result[i] as i32), "HELLO WORLD");
        }
    }

    assert_eq!(frequency_analysis(""), Vec::<u8>::new());
}

#[test]
fn frequencies_counts_uppercased_non_spaces() {
    let freq = frequencies("Hello World");
    assert_eq!(
        freq,
        vec![
            ('H', 1),
            ('E', 1),
            ('L', 3),
            ('O', 2),
            ('W', 1),
            ('R', 1),
            ('D', 1),
        ]
    );
}

#[test]
fn frequency_analysis_guess_values() {
    // The most frequent character of "KHOORCZRUOG" is 'O' (79): the
    // guesses are its saturated byte distances to "ETAOINSHRDLU".
    let result = frequency_analysis("KHOORCZRUOG");
    assert_eq!(result, vec![10, 0, 14, 0, 6, 1, 0, 7, 0, 11, 3, 0]);
}
