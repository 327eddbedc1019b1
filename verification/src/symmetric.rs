//! Symmetric ciphers over a 27-letter alphabet: the space character at
//! index 0, followed by the uppercase letters `A` through `Z` at indices
//! 1 through 26. Characters outside the alphabet are treated as index 0,
//! as the original lookup's fallback did.

use vstd::prelude::*;
use vstd::arithmetic::div_mod::{lemma_mod_sub_multiples_vanish, lemma_small_mod};

pub mod advanced_encryption_standard;
pub mod caesar_cipher;
pub mod one_time_pad;
pub mod vigenere_cipher;

verus! {

/// ASCII uppercasing of one character; everything but `a`-`z` is kept.
pub open spec fn to_upper_char(c: char) -> char {
    if 'a' <= c && c <= 'z' {
        (c as u8 - 32) as char
    } else {
        c
    }
}

/// A whole sequence, uppercased character by character.
pub open spec fn to_upper_seq(s: Seq<char>) -> Seq<char> {
    Seq::new(s.len(), |i: int| to_upper_char(s[i]))
}

/// The alphabet position of a character: 0 for the space (and for any
/// character outside the alphabet), 1 through 26 for `A` through `Z`.
pub open spec fn char_index(c: char) -> int {
    if 'A' <= c && c <= 'Z' {
        c as int - 64
    } else {
        0
    }
}

/// The character at an alphabet position; positions outside `[0, 27)`
/// do not arise.
pub open spec fn char_at_index(i: int) -> char {
    if 1 <= i <= 26 {
        ((i + 64) as u8) as char
    } else {
        ' '
    }
}

/// ASCII uppercasing of one character.
pub fn to_upper(c: char) -> (r: char)
    ensures
        r == to_upper_char(c),
{
    if 'a' <= c && c <= 'z' {
        (c as u8 - 32) as char
    } else {
        c
    }
}

/// The alphabet position of a character.
pub fn index_of_char(c: char) -> (r: usize)
    ensures
        r == char_index(c),
        r < 27,
{
    if 'A' <= c && c <= 'Z' {
        (c as u8 - 64) as usize
    } else {
        0
    }
}

/// The character at an alphabet position.
pub fn alphabet_char(i: usize) -> (r: char)
    requires
        i < 27,
    ensures
        r == char_at_index(i as int),
{
    if i == 0 {
        ' '
    } else {
        ((i as u8) + 64) as char
    }
}

/// A character of the cipher alphabet: the space or an uppercase letter.
pub open spec fn in_alphabet(c: char) -> bool {
    c == ' ' || ('A' <= c && c <= 'Z')
}

/// Every alphabet position names a character at that position.
pub proof fn lemma_index_of_alphabet_char(j: int)
    requires
        0 <= j < 27,
    ensures
        char_index(char_at_index(j)) == j,
        in_alphabet(char_at_index(j)),
{
}

/// Every alphabet character sits at the position assigned to it.
pub proof fn lemma_alphabet_char_of_index(c: char)
    requires
        in_alphabet(c),
    ensures
        char_at_index(char_index(c)) == c,
{
}

/// Shifting an alphabet position forward and then backward by the same
/// amount, wrapping either way, lands back on the position.
pub proof fn lemma_unshift(idx: int, sh: int)
    requires
        0 <= idx < 27,
        0 <= sh <= 27,
    ensures
        (27 + (idx + sh) % 27 - sh) % 27 == idx,
{
    if idx + sh < 27 {
        lemma_small_mod((idx + sh) as nat, 27);
        lemma_mod_sub_multiples_vanish(27 + idx, 27);
        lemma_small_mod(idx as nat, 27);
    } else {
        lemma_mod_sub_multiples_vanish(idx + sh, 27);
        lemma_small_mod((idx + sh - 27) as nat, 27);
        lemma_small_mod(idx as nat, 27);
    }
}

/// Relies on `String::push`: appends exactly one character.
#[verifier::external_body]
pub(crate) fn push_char(s: &mut String, c: char)
    ensures
        final(s)@ == old(s)@ + seq![c],
{
    s.push(c);
}

} // verus!
