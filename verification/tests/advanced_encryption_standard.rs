use cryptosystems::symmetric::advanced_encryption_standard::{decrypt, encrypt, AesError};

#[test]
fn advanced_encryption_standard_encrypt_decrypt_message() {
    let message = "Hello World";
    let key = b"mysecretpasswordmysecretpassword";
    let iv = b"0000000000000000";

    let encrypted_data = encrypt(message.as_bytes(), key, iv).unwrap();
    assert_eq!(encrypted_data, "9ed5a2c1484805d74255b86d8ef652b3");
    let hex = "9ed5a2c1484805d74255b86d8ef652b3".to_uppercase();
    let decrypted_data = decrypt(&hex, key, iv).unwrap();
    assert_eq!(message, decrypted_data);
}

#[test]
fn encrypt_rejects_short_secret() {
    let iv = b"0000000000000000";
    assert_eq!(
        encrypt(b"Hello World", b"tooshort", iv),
        Err(AesError::InvalidSecretLength)
    );
}

#[test]
fn decrypt_rejects_non_hex_data() {
    let key = b"mysecretpasswordmysecretpassword";
    let iv = b"0000000000000000";
    assert_eq!(
        decrypt("not hex at all", key, iv),
        Err(AesError::InvalidHexEncryptedData)
    );
    assert_eq!(
        decrypt("abc", key, iv),
        Err(AesError::InvalidHexEncryptedData)
    );
}

#[test]
fn decrypt_rejects_bad_padding() {
    let key = b"mysecretpasswordmysecretpassword";
    let iv = b"0000000000000000";
    // A zero block decrypts under this key to bytes whose final byte is
    // not a valid PKCS pad length.
    assert_eq!(
        decrypt("00000000000000000000000000000000", key, iv),
        Err(AesError::InvalidPadding)
    );
}

#[test]
fn decrypt_rejects_partial_block() {
    let key = b"mysecretpasswordmysecretpassword";
    let iv = b"0000000000000000";
    // Two hex digits decode to one byte: no whole cipher block. The
    // cipher library reports that as a length fault.
    assert_eq!(decrypt("ab", key, iv), Err(AesError::InvalidSecretLength));
}

#[test]
fn decrypt_rejects_non_utf8_plaintext() {
    let key = b"mysecretpasswordmysecretpassword";
    let iv = b"0000000000000000";
    let encrypted = encrypt(&[0xff, 0xfe], key, iv).unwrap();
    assert_eq!(
        decrypt(&encrypted, key, iv),
        Err(AesError::InvalidDecodedValue)
    );
}

#[test]
fn encrypt_pads_to_whole_blocks() {
    let key = b"mysecretpasswordmysecretpassword";
    let iv = b"0000000000000000";
    // 11 bytes pad to one 16-byte block: 32 hex digits.
    let encrypted = encrypt(b"Hello World", key, iv).unwrap();
    assert_eq!(encrypted.len(), 32);
    // 16 bytes pad to two blocks: 64 hex digits.
    let encrypted = encrypt(b"0123456789abcdef", key, iv).unwrap();
    assert_eq!(encrypted.len(), 64);
}
