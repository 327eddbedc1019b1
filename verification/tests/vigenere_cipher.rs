use cryptosystems::symmetric::vigenere_cipher::{decrypt, encrypt, map_secret};

#[test]
fn vigenere_cipher_encrypt_decrypt_message() {
    let message = "Hello World";
    let secret = "secret";
    let result = encrypt(message, secret);
    assert_eq!(result, " JOCTTOTUCI");

    let decrypted = decrypt(&result, secret);
    assert_eq!(decrypted, "HELLO WORLD");
}

#[test]
fn map_secret_positions() {
    assert_eq!(map_secret("secret"), vec![19, 5, 3, 18, 5, 20]);
    assert_eq!(map_secret(""), Vec::<usize>::new());
}

#[test]
fn vigenere_cipher_empty_message() {
    assert_eq!(encrypt("", ""), "");
}
