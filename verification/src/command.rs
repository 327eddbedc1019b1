//! The cipher-selection commands the command-line surface dispatches on,
//! and the dispatch itself: from a command to the text it produces.

use crate::symmetric::advanced_encryption_standard::{
    aes256_cbc_decrypted_bytes, aes256_cbc_encrypted_bytes, hex_decoded, hex_of, valid_hex,
    AesError,
};
use crate::symmetric::caesar_cipher::{caesar_decrypt_spec, caesar_encrypt_spec};
use crate::symmetric::vigenere_cipher::{vigenere_decrypt_spec, vigenere_encrypt_spec};
use crate::symmetric::{advanced_encryption_standard, caesar_cipher, vigenere_cipher};
use vstd::prelude::*;
use vstd::utf8::{decode_utf8, valid_utf8};

verus! {

/// The all-zero initialization vector the command surface fixes.
pub open spec fn fixed_iv() -> Seq<u8> {
    Seq::new(16, |i: int| 48u8)
}

/// An encryption request: which cipher, the data, and its secret.
#[allow(inconsistent_fields)]
pub enum Encrypt {
    /// Caesar cipher: shift by a secret number.
    CaesarCipher { data: String, secret: i32 },
    /// Vigenere cipher: shift by a secret word.
    VigenereCipher { data: String, secret: String },
    /// AES-256-CBC under a 32-byte secret.
    Aes { data: String, secret: String },
}

/// A decryption request: which cipher, the data, and its secret.
#[allow(inconsistent_fields)]
pub enum Decrypt {
    /// Caesar cipher: shift back by a secret number.
    CaesarCipher { data: String, secret: i32 },
    /// Vigenere cipher: shift back by a secret word.
    VigenereCipher { data: String, secret: String },
    /// AES-256-CBC under a 32-byte secret.
    Aes { data: String, secret: String },
}

fn fixed_iv_bytes() -> (r: [u8; 16])
    ensures
        r@ == fixed_iv(),
{
    let r = [48u8; 16];
    proof {
        assert(r@ =~= fixed_iv());
    }
    r
}

/// Run one encryption command and hand back the text it produces.
pub fn run_encrypt(command: Encrypt) -> (r: Result<String, AesError>)
    requires
        command matches Encrypt::CaesarCipher { data, secret } ==> secret != i32::MIN,
        command matches Encrypt::VigenereCipher { data, secret } ==> (data@.len() > 0
            ==> secret@.len() > 0),
    ensures
        command matches Encrypt::CaesarCipher { data, secret } ==> (r matches Ok(s) && s@
            == caesar_encrypt_spec(data@, secret)),
        command matches Encrypt::VigenereCipher { data, secret } ==> (r matches Ok(s) && s@
            == vigenere_encrypt_spec(data@, secret@)),
        command matches Encrypt::Aes { data, secret } ==> (r matches Ok(s)
            ==> aes256_cbc_encrypted_bytes(
            vstd::utf8::encode_utf8(data@),
            vstd::utf8::encode_utf8(secret@),
            fixed_iv(),
        ) matches Some(ct) && s@ == hex_of(ct)),
{
    match command {
        Encrypt::CaesarCipher { data, secret } => Ok(
            caesar_cipher::encrypt(data.as_str(), secret),
        ),
        Encrypt::VigenereCipher { data, secret } => Ok(
            vigenere_cipher::encrypt(data.as_str(), secret.as_str()),
        ),
        Encrypt::Aes { data, secret } => {
            let iv = fixed_iv_bytes();
            advanced_encryption_standard::encrypt(
                data.as_str().as_bytes(),
                secret.as_str().as_bytes(),
                iv.as_slice(),
            )
        },
    }
}

/// Run one decryption command and hand back the text it produces.
pub fn run_decrypt(command: Decrypt) -> (r: Result<String, AesError>)
    requires
        command matches Decrypt::CaesarCipher { data, secret } ==> secret != i32::MIN,
        command matches Decrypt::VigenereCipher { data, secret } ==> (data@.len() > 0
            ==> secret@.len() > 0),
        command matches Decrypt::Aes { data, secret } ==> vstd::utf8::encode_utf8(
            secret@,
        ).len() == 32,
    ensures
        command matches Decrypt::CaesarCipher { data, secret } ==> (r matches Ok(s) && s@
            == caesar_decrypt_spec(data@, secret)),
        command matches Decrypt::VigenereCipher { data, secret } ==> (r matches Ok(s) && s@
            == vigenere_decrypt_spec(data@, secret@)),
        command matches Decrypt::Aes { data, secret } ==> (r matches Ok(s) ==> valid_hex(data@)
            && (aes256_cbc_decrypted_bytes(
            hex_decoded(data@),
            vstd::utf8::encode_utf8(secret@),
            fixed_iv(),
        ) matches Some(pt) && valid_utf8(pt) && s@ == decode_utf8(pt))),
{
    match command {
        Decrypt::CaesarCipher { data, secret } => Ok(
            caesar_cipher::decrypt(data.as_str(), secret),
        ),
        Decrypt::VigenereCipher { data, secret } => Ok(
            vigenere_cipher::decrypt(data.as_str(), secret.as_str()),
        ),
        Decrypt::Aes { data, secret } => {
            let iv = fixed_iv_bytes();
            advanced_encryption_standard::decrypt(
                data.as_str(),
                secret.as_str().as_bytes(),
                iv.as_slice(),
            )
        },
    }
}

} // verus!
