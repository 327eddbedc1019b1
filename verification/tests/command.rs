use cryptosystems::command::{run_decrypt, run_encrypt, Decrypt, Encrypt};
use cryptosystems::symmetric::advanced_encryption_standard::AesError;

#[test]
fn command_caesar_round_trip() {
    let encrypted = run_encrypt(Encrypt::CaesarCipher {
        data: "Hello World".to_string(),
        secret: 3,
    })
    .unwrap();
    assert_eq!(encrypted, "KHOORCZRUOG");
    let decrypted = run_decrypt(Decrypt::CaesarCipher {
        data: encrypted,
        secret: 3,
    })
    .unwrap();
    assert_eq!(decrypted, "HELLO WORLD");
}

#[test]
fn command_vigenere_round_trip() {
    let encrypted = run_encrypt(Encrypt::VigenereCipher {
        data: "Hello World".to_string(),
        secret: "secret".to_string(),
    })
    .unwrap();
    assert_eq!(encrypted, " JOCTTOTUCI");
    let decrypted = run_decrypt(Decrypt::VigenereCipher {
        data: encrypted,
        secret: "secret".to_string(),
    })
    .unwrap();
    assert_eq!(decrypted, "HELLO WORLD");
}

#[test]
fn command_aes_round_trip() {
    let encrypted = run_encrypt(Encrypt::Aes {
        data: "Hello World".to_string(),
        secret: "mysecretpasswordmysecretpassword".to_string(),
    })
    .unwrap();
    assert_eq!(encrypted, "9ed5a2c1484805d74255b86d8ef652b3");
    let decrypted = run_decrypt(Decrypt::Aes {
        data: encrypted,
        secret: "mysecretpasswordmysecretpassword".to_string(),
    })
    .unwrap();
    assert_eq!(decrypted, "Hello World");
}

#[test]
fn command_aes_rejects_short_secret() {
    let result = run_encrypt(Encrypt::Aes {
        data: "Hello World".to_string(),
        secret: "short".to_string(),
    });
    assert_eq!(result, Err(AesError::InvalidSecretLength));
}
