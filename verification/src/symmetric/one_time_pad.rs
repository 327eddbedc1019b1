//! The one-time pad: a secret as long as the plaintext, one independent
//! random shift per character. With truly random shifts the ciphertext
//! leaks nothing.

use crate::random::random_in_range;
use crate::symmetric::{
    alphabet_char, char_at_index, char_index, in_alphabet, index_of_char,
    lemma_alphabet_char_of_index, lemma_index_of_alphabet_char, lemma_unshift, push_char,
    to_upper, to_upper_char, to_upper_seq,
};
use vstd::prelude::*;

verus! {

/// A fresh pad: `len` independent draws from the alphabet's positions.
pub fn random_sequence(len: usize) -> (r: Vec<usize>)
    ensures
        r@.len() == len,
        forall|i: int| 0 <= i < len ==> r@[i] < 27,
{
    let mut result: Vec<usize> = Vec::new();
    let mut i: usize = 0;
    while i < len
        invariant
            i <= len,
            result@.len() == i,
            forall|j: int| 0 <= j < i ==> result@[j] < 27,
        decreases len - i,
    {
        result.push(random_in_range(0, 26) as usize);
        i += 1;
    }
    result
}

/// The ciphertext: position `i` of the uppercased plaintext is shifted
/// forward by pad entry `i`.
pub open spec fn one_time_pad_encrypt_spec(plain_text: Seq<char>, secret: Seq<usize>) -> Seq<
    char,
> {
    Seq::new(
        plain_text.len(),
        |i: int| char_at_index((char_index(to_upper_char(plain_text[i])) + secret[i]) % 27),
    )
}

/// The plaintext: position `i` of the uppercased ciphertext is shifted
/// backward by pad entry `i`.
pub open spec fn one_time_pad_decrypt_spec(cipher_text: Seq<char>, secret: Seq<usize>) -> Seq<
    char,
> {
    Seq::new(
        cipher_text.len(),
        |i: int|
            char_at_index((27 + char_index(to_upper_char(cipher_text[i])) - secret[i]) % 27),
    )
}

/// The round-trip law: decrypting with the pad the message was
/// encrypted with restores the uppercased message, whenever every
/// uppercased character lies in the alphabet and no pad entry exceeds
/// one alphabet turn — as the entries `random_sequence` draws never do.
pub proof fn lemma_one_time_pad_round_trip(plain_text: Seq<char>, secret: Seq<usize>)
    requires
        secret.len() >= plain_text.len(),
        forall|i: int| 0 <= i < plain_text.len() ==> #[trigger] secret[i] <= 27,
        forall|i: int|
            0 <= i < plain_text.len() ==> in_alphabet(#[trigger] to_upper_char(plain_text[i])),
    ensures
        one_time_pad_decrypt_spec(one_time_pad_encrypt_spec(plain_text, secret), secret)
            == to_upper_seq(plain_text),
{
    let encrypted = one_time_pad_encrypt_spec(plain_text, secret);
    assert forall|i: int| 0 <= i < plain_text.len() implies one_time_pad_decrypt_spec(
        encrypted,
        secret,
    )[i] == to_upper_seq(plain_text)[i] by {
        let u = to_upper_char(plain_text[i]);
        let idx = char_index(u);
        let sh = secret[i] as int;
        let enc = char_at_index((idx + sh) % 27);
        lemma_index_of_alphabet_char((idx + sh) % 27);
        assert(to_upper_char(enc) == enc);
        lemma_unshift(idx, sh);
        lemma_alphabet_char_of_index(u);
    }
    assert(one_time_pad_decrypt_spec(encrypted, secret) =~= to_upper_seq(plain_text));
}

/// Encrypt under a pad at least as long as the plaintext.
pub fn encrypt(plain_text: &str, secret: &[usize]) -> (r: String)
    requires
        secret@.len() >= plain_text@.len(),
        forall|i: int| 0 <= i < plain_text@.len() ==> secret@[i] <= usize::MAX - 26,
    ensures
        r@ == one_time_pad_encrypt_spec(plain_text@, secret@),
{
    let mut result = String::new();
    let len = plain_text.unicode_len();
    let mut i: usize = 0;
    while i < len
        invariant
            len == plain_text@.len(),
            i <= len,
            secret@.len() >= len,
            forall|j: int| 0 <= j < len ==> secret@[j] <= usize::MAX - 26,
            result@.len() == i,
            forall|j: int|
                0 <= j < i ==> result@[j] == one_time_pad_encrypt_spec(plain_text@, secret@)[j],
        decreases len - i,
    {
        let char_pos = index_of_char(to_upper(plain_text.get_char(i)));
        let index = (char_pos + secret[i]) % 27;
        push_char(&mut result, alphabet_char(index));
        i += 1;
    }
    proof {
        assert(result@ =~= one_time_pad_encrypt_spec(plain_text@, secret@));
    }
    result
}

/// Decrypt under the pad the message was encrypted with. Each pad entry
/// must stay within one alphabet turn of its character's position, as
/// the original's subtraction demanded.
pub fn decrypt(cipher_text: &str, secret: &[usize]) -> (r: String)
    requires
        secret@.len() >= cipher_text@.len(),
        forall|i: int|
            0 <= i < cipher_text@.len() ==> secret@[i] <= 27 + char_index(
                to_upper_char(cipher_text@[i]),
            ),
    ensures
        r@ == one_time_pad_decrypt_spec(cipher_text@, secret@),
{
    let mut result = String::new();
    let len = cipher_text.unicode_len();
    let mut i: usize = 0;
    while i < len
        invariant
            len == cipher_text@.len(),
            i <= len,
            secret@.len() >= len,
            forall|j: int|
                0 <= j < len ==> secret@[j] <= 27 + char_index(to_upper_char(cipher_text@[j])),
            result@.len() == i,
            forall|j: int|
                0 <= j < i ==> result@[j] == one_time_pad_decrypt_spec(cipher_text@, secret@)[j],
        decreases len - i,
    {
        let char_pos = index_of_char(to_upper(cipher_text.get_char(i)));
        let index = (27 + char_pos - secret[i]) % 27;
        push_char(&mut result, alphabet_char(index));
        i += 1;
    }
    proof {
        assert(result@ =~= one_time_pad_decrypt_spec(cipher_text@, secret@));
    }
    result
}

} // verus!
