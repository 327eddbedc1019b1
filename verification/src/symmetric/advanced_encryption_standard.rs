//! AES-256 in CBC mode with PKCS padding, as a pass-through to an
//! external block-cipher library. Ciphertext travels hex-encoded;
//! decrypted bytes must form valid UTF-8 text.

use crypto::buffer::{ReadBuffer, WriteBuffer};
use crypto::symmetriccipher::SymmetricCipherError;
use vstd::prelude::*;
use vstd::utf8::{decode_utf8, valid_utf8};

verus! {

/// Failures of the AES pass-through.
#[derive(Clone, Copy, Debug, PartialEq, Eq, Structural)]
pub enum AesError {
    /// The secret is not the 32 bytes AES-256 requires, or the cipher
    /// library reported a length fault.
    InvalidSecretLength,
    /// The cipher library rejected the padding of the final block.
    InvalidPadding,
    /// The ciphertext is not a hex-encoded byte string.
    InvalidHexEncryptedData,
    /// The decrypted bytes are not valid UTF-8 text.
    InvalidDecodedValue,
}

#[verifier::external_type_specification]
#[verifier::external_body]
pub struct ExSymmetricCipherError(SymmetricCipherError);

/// What AES-256-CBC encryption with PKCS padding produces from a
/// plaintext, a 32-byte key and a 16-byte initialization vector; `None`
/// where the cipher library reports an error instead.
pub uninterp spec fn aes256_cbc_encrypted_bytes(data: Seq<u8>, key: Seq<u8>, iv: Seq<u8>) -> Option<
    Seq<u8>,
>;

/// What AES-256-CBC decryption with PKCS padding produces from a
/// ciphertext, a 32-byte key and a 16-byte initialization vector; `None`
/// where the padding or length is rejected.
pub uninterp spec fn aes256_cbc_decrypted_bytes(data: Seq<u8>, key: Seq<u8>, iv: Seq<u8>) -> Option<
    Seq<u8>,
>;

/// Relies on crypto's `aes::cbc_encryptor` driven to completion over
/// buffers: AES-256-CBC encryption with PKCS padding, a pure function of
/// plaintext, key and initialization vector.
#[verifier::external_body]
fn aes256_cbc_encrypt(data: &[u8], key: &[u8], iv: &[u8]) -> (r: Result<
    Vec<u8>,
    SymmetricCipherError,
>)
    requires
        key@.len() == 32,
        iv@.len() == 16,
    ensures
        r is Ok <==> aes256_cbc_encrypted_bytes(data@, key@, iv@) is Some,
        r matches Ok(v) ==> aes256_cbc_encrypted_bytes(data@, key@, iv@) == Some(v@),
{
    let mut enc = crypto::aes::cbc_encryptor(
        crypto::aes::KeySize::KeySize256, key, iv, crypto::blockmodes::PkcsPadding);
    let mut out = Vec::<u8>::new();
    let mut read_buffer = crypto::buffer::RefReadBuffer::new(data);
    let mut buffer = [0u8; 4096];
    let mut write_buffer = crypto::buffer::RefWriteBuffer::new(&mut buffer);
    loop {
        let result = enc.encrypt(&mut read_buffer, &mut write_buffer, true)?;
        out.extend(write_buffer.take_read_buffer().take_remaining().iter().map(|&b| b));
        if let crypto::buffer::BufferResult::BufferUnderflow = result {
            return Ok(out);
        }
    }
}

/// Relies on crypto's `aes::cbc_decryptor` driven to completion over
/// buffers: AES-256-CBC decryption with PKCS padding, a pure function of
/// ciphertext, key and initialization vector.
#[verifier::external_body]
fn aes256_cbc_decrypt(data: &[u8], key: &[u8], iv: &[u8]) -> (r: Result<
    Vec<u8>,
    SymmetricCipherError,
>)
    requires
        key@.len() == 32,
        iv@.len() == 16,
    ensures
        r is Ok <==> aes256_cbc_decrypted_bytes(data@, key@, iv@) is Some,
        r matches Ok(v) ==> aes256_cbc_decrypted_bytes(data@, key@, iv@) == Some(v@),
{
    let mut dec = crypto::aes::cbc_decryptor(
        crypto::aes::KeySize::KeySize256, key, iv, crypto::blockmodes::PkcsPadding);
    let mut out = Vec::<u8>::new();
    let mut read_buffer = crypto::buffer::RefReadBuffer::new(data);
    let mut buffer = [0u8; 4096];
    let mut write_buffer = crypto::buffer::RefWriteBuffer::new(&mut buffer);
    loop {
        let result = dec.decrypt(&mut read_buffer, &mut write_buffer, true)?;
        out.extend(write_buffer.take_read_buffer().take_remaining().iter().map(|&b| b));
        if let crypto::buffer::BufferResult::BufferUnderflow = result {
            return Ok(out);
        }
    }
}

/// Relies on the two variants of crypto's `SymmetricCipherError`, mapped
/// one arm each onto this library's error type.
#[verifier::external_body]
fn cipher_error_to_aes(err: SymmetricCipherError) -> (r: AesError)
    ensures
        r == AesError::InvalidSecretLength || r == AesError::InvalidPadding,
{
    match err {
        SymmetricCipherError::InvalidLength => AesError::InvalidSecretLength,
        SymmetricCipherError::InvalidPadding => AesError::InvalidPadding,
    }
}

/// The lowercase hex digit for a value below 16.
pub open spec fn hex_digit_char(v: int) -> char {
    if v < 10 {
        ((48 + v) as u8) as char
    } else {
        ((87 + v) as u8) as char
    }
}

/// The lowercase hex encoding of a byte string: two digits per byte,
/// high nibble first.
pub open spec fn hex_of(bytes: Seq<u8>) -> Seq<char> {
    Seq::new(
        bytes.len() * 2,
        |i: int|
            if i % 2 == 0 {
                hex_digit_char(bytes[i / 2] as int / 16)
            } else {
                hex_digit_char(bytes[i / 2] as int % 16)
            },
    )
}

/// A hex digit of either case.
pub open spec fn is_hex_digit(c: char) -> bool {
    ('0' <= c && c <= '9') || ('a' <= c && c <= 'f') || ('A' <= c && c <= 'F')
}

/// The value of a hex digit of either case.
pub open spec fn hex_val(c: char) -> int {
    if '0' <= c && c <= '9' {
        c as int - 48
    } else if 'a' <= c && c <= 'f' {
        c as int - 87
    } else {
        c as int - 55
    }
}

/// A decodable hex string: even length, hex digits throughout.
pub open spec fn valid_hex(s: Seq<char>) -> bool {
    s.len() % 2 == 0 && forall|i: int| 0 <= i < s.len() ==> is_hex_digit(#[trigger] s[i])
}

/// The bytes a valid hex string denotes.
pub open spec fn hex_decoded(s: Seq<char>) -> Seq<u8> {
    Seq::new(s.len() / 2, |i: int| (16 * hex_val(s[2 * i]) + hex_val(s[2 * i + 1])) as u8)
}

/// Relies on `hex::encode`: the lowercase hex encoding, two digits per
/// byte, high nibble first.
#[verifier::external_body]
fn hex_encode(bytes: &[u8]) -> (r: String)
    ensures
        r@ == hex_of(bytes@),
{
    hex::encode(bytes)
}

/// Relies on `hex::decode`: succeeds exactly on even-length strings of
/// hex digits of either case, pairing digits into bytes high nibble
/// first.
#[verifier::external_body]
fn hex_decode(s: &str) -> (r: Option<Vec<u8>>)
    ensures
        r is Some <==> valid_hex(s@),
        r matches Some(v) ==> v@ == hex_decoded(s@),
{
    hex::decode(s).ok()
}

/// Relies on `String::from_utf8`: succeeds exactly on valid UTF-8,
/// decoding the bytes to their text.
#[verifier::external_body]
fn bytes_to_utf8_string(bytes: Vec<u8>) -> (r: Result<String, AesError>)
    ensures
        r is Ok <==> valid_utf8(bytes@),
        r matches Ok(s) ==> s@ == decode_utf8(bytes@),
        r matches Err(e) ==> e == AesError::InvalidDecodedValue,
{
    match String::from_utf8(bytes) {
        Ok(s) => Ok(s),
        Err(_) => Err(AesError::InvalidDecodedValue),
    }
}

/// Encrypt a buffer with AES-256-CBC under a 32-byte key and a 16-byte
/// initialization vector, returning the ciphertext hex-encoded.
///
/// A key of any other length is rejected with `InvalidSecretLength`
/// before the cipher is touched.
pub fn encrypt(data: &[u8], key: &[u8], iv: &[u8]) -> (r: Result<String, AesError>)
    requires
        iv@.len() == 16,
    ensures
        key@.len() != 32 ==> r == Err::<String, AesError>(AesError::InvalidSecretLength),
        key@.len() == 32 ==> ((r is Ok) <==> aes256_cbc_encrypted_bytes(data@, key@, iv@)
            is Some),
        r matches Ok(s) ==> aes256_cbc_encrypted_bytes(data@, key@, iv@) matches Some(ct)
            && s@ == hex_of(ct),
        r matches Err(e) ==> e == AesError::InvalidSecretLength || e == AesError::InvalidPadding,
{
    if key.len() != 32 {
        return Err(AesError::InvalidSecretLength);
    }
    match aes256_cbc_encrypt(data, key, iv) {
        Ok(ct) => Ok(hex_encode(ct.as_slice())),
        Err(e) => Err(cipher_error_to_aes(e)),
    }
}

/// Decrypt a hex-encoded AES-256-CBC ciphertext under a 32-byte key and
/// a 16-byte initialization vector, returning the plaintext as text.
///
/// Ciphertext that is not hex fails with `InvalidHexEncryptedData`;
/// decrypted bytes that are not UTF-8 fail with `InvalidDecodedValue`.
pub fn decrypt(encrypted_data: &str, key: &[u8], iv: &[u8]) -> (r: Result<String, AesError>)
    requires
        key@.len() == 32,
        iv@.len() == 16,
    ensures
        (r == Err::<String, AesError>(AesError::InvalidHexEncryptedData)) <==> !valid_hex(
            encrypted_data@,
        ),
        r matches Ok(s) ==> aes256_cbc_decrypted_bytes(
            hex_decoded(encrypted_data@),
            key@,
            iv@,
        ) matches Some(pt) && valid_utf8(pt) && s@ == decode_utf8(pt),
        valid_hex(encrypted_data@) && aes256_cbc_decrypted_bytes(
            hex_decoded(encrypted_data@),
            key@,
            iv@,
        ) is None ==> (r matches Err(e) && (e == AesError::InvalidSecretLength || e
            == AesError::InvalidPadding)),
        valid_hex(encrypted_data@) && (aes256_cbc_decrypted_bytes(
            hex_decoded(encrypted_data@),
            key@,
            iv@,
        ) matches Some(pt) && valid_utf8(pt)) ==> r is Ok,
        valid_hex(encrypted_data@) && (aes256_cbc_decrypted_bytes(
            hex_decoded(encrypted_data@),
            key@,
            iv@,
        ) matches Some(pt) && !valid_utf8(pt)) ==> r == Err::<String, AesError>(
            AesError::InvalidDecodedValue,
        ),
{
    let decoded = match hex_decode(encrypted_data) {
        Some(bytes) => bytes,
        None => { return Err(AesError::InvalidHexEncryptedData) },
    };
    match aes256_cbc_decrypt(decoded.as_slice(), key, iv) {
        Ok(pt) => bytes_to_utf8_string(pt),
        Err(e) => Err(cipher_error_to_aes(e)),
    }
}

} // verus!
