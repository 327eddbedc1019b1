//! The Vigenere cipher: a secret word supplies one shift per plaintext
//! position, cycling through the word.

use crate::symmetric::{
    alphabet_char, char_at_index, char_index, in_alphabet, index_of_char,
    lemma_alphabet_char_of_index, lemma_index_of_alphabet_char, lemma_unshift, push_char,
    to_upper, to_upper_char, to_upper_seq,
};
use vstd::prelude::*;

verus! {

/// The shift sequence a secret word denotes: the alphabet position of
/// each of its uppercased characters.
pub open spec fn secret_shifts(secret: Seq<char>) -> Seq<int> {
    Seq::new(secret.len(), |i: int| char_index(to_upper_char(secret[i])))
}

/// The ciphertext: position `i` of the uppercased plaintext is shifted
/// forward by shift `i % len` of the secret word.
pub open spec fn vigenere_encrypt_spec(plain_text: Seq<char>, secret: Seq<char>) -> Seq<char> {
    Seq::new(
        plain_text.len(),
        |i: int|
            char_at_index(
                (char_index(to_upper_char(plain_text[i])) + secret_shifts(secret)[i % (
                secret.len() as int)]) % 27,
            ),
    )
}

/// The plaintext: position `i` of the uppercased ciphertext is shifted
/// backward by shift `i % len` of the secret word.
pub open spec fn vigenere_decrypt_spec(cipher_text: Seq<char>, secret: Seq<char>) -> Seq<char> {
    Seq::new(
        cipher_text.len(),
        |i: int|
            char_at_index(
                (27 + char_index(to_upper_char(cipher_text[i])) - secret_shifts(secret)[i % (
                secret.len() as int)]) % 27,
            ),
    )
}

/// The round-trip law: decrypting with the secret word the message was
/// encrypted with restores the uppercased message, whenever every
/// uppercased character lies in the alphabet.
pub proof fn lemma_vigenere_round_trip(plain_text: Seq<char>, secret: Seq<char>)
    requires
        secret.len() > 0,
        forall|i: int|
            0 <= i < plain_text.len() ==> in_alphabet(#[trigger] to_upper_char(plain_text[i])),
    ensures
        vigenere_decrypt_spec(vigenere_encrypt_spec(plain_text, secret), secret)
            == to_upper_seq(plain_text),
{
    let encrypted = vigenere_encrypt_spec(plain_text, secret);
    assert forall|i: int| 0 <= i < plain_text.len() implies vigenere_decrypt_spec(
        encrypted,
        secret,
    )[i] == to_upper_seq(plain_text)[i] by {
        let u = to_upper_char(plain_text[i]);
        let idx = char_index(u);
        let sh = secret_shifts(secret)[i % (secret.len() as int)];
        let enc = char_at_index((idx + sh) % 27);
        lemma_index_of_alphabet_char((idx + sh) % 27);
        // Ciphertext characters are alphabet characters, which
        // uppercasing leaves alone.
        assert(to_upper_char(enc) == enc);
        lemma_unshift(idx, sh);
        lemma_alphabet_char_of_index(u);
    }
    assert(vigenere_decrypt_spec(encrypted, secret) =~= to_upper_seq(plain_text));
}

/// The alphabet position of every character of the uppercased secret.
pub fn map_secret(secret: &str) -> (r: Vec<usize>)
    ensures
        r@.len() == secret@.len(),
        forall|i: int| 0 <= i < r@.len() ==> r@[i] == secret_shifts(secret@)[i] && r@[i] < 27,
{
    let mut result: Vec<usize> = Vec::new();
    let len = secret.unicode_len();
    let mut i: usize = 0;
    while i < len
        invariant
            len == secret@.len(),
            i <= len,
            result@.len() == i,
            forall|j: int| 0 <= j < i ==> result@[j] == secret_shifts(secret@)[j] && result@[j] < 27,
        decreases len - i,
    {
        result.push(index_of_char(to_upper(secret.get_char(i))));
        i += 1;
    }
    result
}

/// Encrypt under a secret word. A nonempty plaintext needs a nonempty
/// secret: there is no shift sequence to cycle otherwise.
pub fn encrypt(plain_text: &str, secret: &str) -> (r: String)
    requires
        plain_text@.len() > 0 ==> secret@.len() > 0,
    ensures
        r@ == vigenere_encrypt_spec(plain_text@, secret@),
{
    let mut result = String::new();
    let shifts = map_secret(secret);
    let len = plain_text.unicode_len();
    let mut i: usize = 0;
    while i < len
        invariant
            len == plain_text@.len(),
            i <= len,
            len > 0 ==> shifts@.len() > 0,
            shifts@.len() == secret@.len(),
            forall|j: int|
                0 <= j < shifts@.len() ==> shifts@[j] == secret_shifts(secret@)[j] && shifts@[j]
                    < 27,
            result@.len() == i,
            forall|j: int|
                0 <= j < i ==> result@[j] == vigenere_encrypt_spec(plain_text@, secret@)[j],
        decreases len - i,
    {
        let secret_value = shifts[i % shifts.len()];
        let char_pos = index_of_char(to_upper(plain_text.get_char(i)));
        let index = (char_pos + secret_value) % 27;
        push_char(&mut result, alphabet_char(index));
        i += 1;
    }
    proof {
        assert(result@ =~= vigenere_encrypt_spec(plain_text@, secret@));
    }
    result
}

/// Decrypt under a secret word. A nonempty ciphertext needs a nonempty
/// secret.
pub fn decrypt(cipher_text: &str, secret: &str) -> (r: String)
    requires
        cipher_text@.len() > 0 ==> secret@.len() > 0,
    ensures
        r@ == vigenere_decrypt_spec(cipher_text@, secret@),
{
    let mut result = String::new();
    let shifts = map_secret(secret);
    let len = cipher_text.unicode_len();
    let mut i: usize = 0;
    while i < len
        invariant
            len == cipher_text@.len(),
            i <= len,
            len > 0 ==> shifts@.len() > 0,
            shifts@.len() == secret@.len(),
            forall|j: int|
                0 <= j < shifts@.len() ==> shifts@[j] == secret_shifts(secret@)[j] && shifts@[j]
                    < 27,
            result@.len() == i,
            forall|j: int|
                0 <= j < i ==> result@[j] == vigenere_decrypt_spec(cipher_text@, secret@)[j],
        decreases len - i,
    {
        let secret_value = shifts[i % shifts.len()];
        let char_pos = index_of_char(to_upper(cipher_text.get_char(i)));
        let index = (27 + char_pos - secret_value) % 27;
        push_char(&mut result, alphabet_char(index));
        i += 1;
    }
    proof {
        assert(result@ =~= vigenere_decrypt_spec(cipher_text@, secret@));
    }
    result
}

} // verus!
