//! The Caesar cipher: every character of the uppercased plaintext is
//! shifted a fixed number of positions through the 27-letter alphabet.
//! Includes the two classic attacks: brute force over every shift, and
//! frequency analysis against English letter frequencies.

use crate::symmetric::{
    alphabet_char, char_at_index, char_index, in_alphabet, index_of_char,
    lemma_alphabet_char_of_index, lemma_index_of_alphabet_char, lemma_unshift, push_char,
    to_upper, to_upper_char, to_upper_seq,
};
use vstd::prelude::*;
use vstd::math::abs;

verus! {

/// The effective shift a secret key produces: its magnitude, wrapped
/// into the alphabet.
pub open spec fn caesar_shift(secret_key: i32) -> int {
    abs(secret_key as int) as int % 27
}

/// The ciphertext the Caesar cipher produces: each plaintext character is
/// uppercased, then moved forward by the shift.
pub open spec fn caesar_encrypt_spec(plain_text: Seq<char>, secret_key: i32) -> Seq<char> {
    Seq::new(
        plain_text.len(),
        |i: int|
            char_at_index(
                (char_index(to_upper_char(plain_text[i])) + caesar_shift(secret_key)) % 27,
            ),
    )
}

/// The plaintext Caesar decryption produces: each ciphertext character is
/// moved backward by the shift. Decryption does not uppercase its input.
pub open spec fn caesar_decrypt_spec(cipher_text: Seq<char>, secret_key: i32) -> Seq<char> {
    Seq::new(
        cipher_text.len(),
        |i: int|
            char_at_index((27 + char_index(cipher_text[i]) - caesar_shift(secret_key)) % 27),
    )
}

/// Encrypt by shifting every uppercased character forward.
///
/// The smallest `i32` is excluded: its magnitude has no `i32`
/// representation to wrap.
pub fn encrypt(plain_text: &str, secret_key: i32) -> (r: String)
    requires
        secret_key != i32::MIN,
    ensures
        r@ == caesar_encrypt_spec(plain_text@, secret_key),
{
    let mut cipher_text = String::new();
    let magnitude: i32 = if secret_key < 0 {
        -secret_key
    } else {
        secret_key
    };
    let secret: usize = (magnitude as usize) % 27;
    let len = plain_text.unicode_len();
    let mut i: usize = 0;
    while i < len
        invariant
            len == plain_text@.len(),
            i <= len,
            secret == caesar_shift(secret_key),
            cipher_text@.len() == i,
            forall|j: int|
                0 <= j < i ==> cipher_text@[j] == caesar_encrypt_spec(plain_text@, secret_key)[j],
        decreases len - i,
    {
        let c = to_upper(plain_text.get_char(i));
        let index = (index_of_char(c) + secret) % 27;
        push_char(&mut cipher_text, alphabet_char(index));
        i += 1;
    }
    proof {
        assert(cipher_text@ =~= caesar_encrypt_spec(plain_text@, secret_key));
    }
    cipher_text
}

/// Decrypt by shifting every character backward.
pub fn decrypt(cipher_text: &str, secret_key: i32) -> (r: String)
    requires
        secret_key != i32::MIN,
    ensures
        r@ == caesar_decrypt_spec(cipher_text@, secret_key),
{
    let mut plain_text = String::new();
    let magnitude: i32 = if secret_key < 0 {
        -secret_key
    } else {
        secret_key
    };
    let secret: usize = (magnitude as usize) % 27;
    let len = cipher_text.unicode_len();
    let mut i: usize = 0;
    while i < len
        invariant
            len == cipher_text@.len(),
            i <= len,
            secret == caesar_shift(secret_key),
            plain_text@.len() == i,
            forall|j: int|
                0 <= j < i ==> plain_text@[j] == caesar_decrypt_spec(cipher_text@, secret_key)[j],
        decreases len - i,
    {
        let c = cipher_text.get_char(i);
        let index = (27 + index_of_char(c) - secret) % 27;
        push_char(&mut plain_text, alphabet_char(index));
        i += 1;
    }
    proof {
        assert(plain_text@ =~= caesar_decrypt_spec(cipher_text@, secret_key));
    }
    plain_text
}

/// Try every possible shift: the decryption under each of the 27 keys,
/// in key order. One of them is the plaintext.
pub fn brute_force_attack(cipher_text: &str) -> (r: Vec<String>)
    ensures
        r@.len() == 27,
        forall|k: int| 0 <= k < 27 ==> r@[k]@ == caesar_decrypt_spec(cipher_text@, k as i32),
{
    let mut result: Vec<String> = Vec::new();
    let mut k: usize = 0;
    while k < 27
        invariant
            k <= 27,
            result@.len() == k,
            forall|j: int| 0 <= j < k ==> result@[j]@ == caesar_decrypt_spec(cipher_text@, j as i32),
        decreases 27 - k,
    {
        result.push(decrypt(cipher_text, k as i32));
        k += 1;
    }
    result
}

/// The round-trip law: decrypting with the secret the message was
/// encrypted with restores the uppercased message, whenever every
/// uppercased character lies in the alphabet. (A character outside the
/// alphabet is flattened to the space's position by encryption and
/// cannot come back.)
pub proof fn lemma_caesar_round_trip(plain_text: Seq<char>, secret_key: i32)
    requires
        forall|i: int|
            0 <= i < plain_text.len() ==> in_alphabet(#[trigger] to_upper_char(plain_text[i])),
    ensures
        caesar_decrypt_spec(caesar_encrypt_spec(plain_text, secret_key), secret_key)
            == to_upper_seq(plain_text),
{
    let encrypted = caesar_encrypt_spec(plain_text, secret_key);
    let sh = caesar_shift(secret_key);
    assert forall|i: int| 0 <= i < plain_text.len() implies caesar_decrypt_spec(
        encrypted,
        secret_key,
    )[i] == to_upper_seq(plain_text)[i] by {
        let u = to_upper_char(plain_text[i]);
        let idx = char_index(u);
        lemma_index_of_alphabet_char((idx + sh) % 27);
        lemma_unshift(idx, sh);
        lemma_alphabet_char_of_index(u);
    }
    assert(caesar_decrypt_spec(encrypted, secret_key) =~= to_upper_seq(plain_text));
}

/// How many times `c` occurs in `s`.
pub open spec fn count_char(s: Seq<char>, c: char) -> nat
    decreases s.len(),
{
    if s.len() == 0 {
        0
    } else {
        count_char(s.drop_last(), c) + (if s.last() == c {
            1nat
        } else {
            0nat
        })
    }
}

/// A character occurs in `s` exactly when its count is positive.
proof fn lemma_count_pos(s: Seq<char>, c: char)
    ensures
        count_char(s, c) > 0 <==> exists|j: int| 0 <= j < s.len() && s[j] == c,
    decreases s.len(),
{
    if s.len() > 0 {
        lemma_count_pos(s.drop_last(), c);
        if s.last() == c {
            assert(s[s.len() - 1] == c);
        } else if count_char(s.drop_last(), c) > 0 {
            let j = choose|j: int| 0 <= j < s.drop_last().len() && s.drop_last()[j] == c;
            assert(s[j] == c);
        } else if exists|j: int| 0 <= j < s.len() && s[j] == c {
            let j = choose|j: int| 0 <= j < s.len() && s[j] == c;
            assert(s.drop_last()[j] == c);
        }
    }
}

/// The uppercased characters of a string, as a vector.
fn to_upper_vec(text: &str) -> (r: Vec<char>)
    ensures
        r@ == to_upper_seq(text@),
{
    let mut upper: Vec<char> = Vec::new();
    let len = text.unicode_len();
    let mut i: usize = 0;
    while i < len
        invariant
            len == text@.len(),
            i <= len,
            upper@.len() == i,
            forall|j: int| 0 <= j < i ==> upper@[j] == to_upper_seq(text@)[j],
        decreases len - i,
    {
        upper.push(to_upper(text.get_char(i)));
        i += 1;
    }
    proof {
        assert(upper@ =~= to_upper_seq(text@));
    }
    upper
}

/// How many times `c` occurs in `chars`.
fn count_occurrences(chars: &Vec<char>, c: char) -> (n: usize)
    ensures
        n == count_char(chars@, c),
        n <= chars@.len(),
{
    let mut n: usize = 0;
    let mut i: usize = 0;
    while i < chars.len()
        invariant
            i <= chars@.len(),
            n == count_char(chars@.take(i as int), c),
            n <= i,
        decreases chars@.len() - i,
    {
        proof {
            assert(chars@.take(i + 1).drop_last() =~= chars@.take(i as int));
            assert(chars@.take(i + 1).last() == chars@[i as int]);
        }
        if chars[i] == c {
            n += 1;
        }
        i += 1;
    }
    proof {
        assert(chars@.take(chars@.len() as int) =~= chars@);
    }
    n
}

/// Whether `c` occurs among the first `limit` entries of `chars`.
fn appears_before(chars: &Vec<char>, c: char, limit: usize) -> (b: bool)
    requires
        limit <= chars@.len(),
    ensures
        b <==> exists|j: int| 0 <= j < limit && chars@[j] == c,
{
    let mut i: usize = 0;
    while i < limit
        invariant
            i <= limit <= chars@.len(),
            forall|j: int| 0 <= j < i ==> chars@[j] != c,
        decreases limit - i,
    {
        if chars[i] == c {
            return true;
        }
        i += 1;
    }
    false
}

/// Tally how often each character other than the space occurs in the
/// uppercased text: one entry per distinct character, keyed in order of
/// first appearance, each with its exact count.
pub fn frequencies(text: &str) -> (r: Vec<(char, i32)>)
    requires
        text@.len() <= 0x7fff_ffff,
    ensures
        forall|k: int|
            0 <= k < r@.len() ==> (#[trigger] r@[k]).0 != ' ' && r@[k].1 == count_char(
                to_upper_seq(text@),
                r@[k].0,
            ) && r@[k].1 > 0,
        forall|k1: int, k2: int|
            0 <= k1 < k2 < r@.len() ==> (#[trigger] r@[k1]).0 != (#[trigger] r@[k2]).0,
        forall|c: char|
            c != ' ' && count_char(to_upper_seq(text@), c) > 0 ==> exists|k: int|
                0 <= k < r@.len() && (#[trigger] r@[k]).0 == c,
{
    let upper = to_upper_vec(text);
    let mut result: Vec<(char, i32)> = Vec::new();
    let mut i: usize = 0;
    while i < upper.len()
        invariant
            upper@ == to_upper_seq(text@),
            upper@.len() <= 0x7fff_ffff,
            i <= upper@.len(),
            forall|k: int|
                0 <= k < result@.len() ==> (#[trigger] result@[k]).0 != ' ' && result@[k].1
                    == count_char(upper@, result@[k].0) && result@[k].1 > 0,
            forall|k: int|
                0 <= k < result@.len() ==> exists|j: int|
                    0 <= j < i && upper@[j] == (#[trigger] result@[k]).0,
            forall|k1: int, k2: int|
                0 <= k1 < k2 < result@.len() ==> (#[trigger] result@[k1]).0 != (
                #[trigger] result@[k2]).0,
            forall|j: int|
                0 <= j < i && upper@[j] != ' ' ==> exists|k: int|
                    0 <= k < result@.len() && (#[trigger] result@[k]).0 == #[trigger] upper@[j],
        decreases upper@.len() - i,
    {
        let c = upper[i];
        if c != ' ' {
            if !appears_before(&upper, c, i) {
                let n = count_occurrences(&upper, c);
                proof {
                    lemma_count_pos(upper@, c);
                    assert(upper@[i as int] == c);
                    // The new key differs from every key already present,
                    // which occurs somewhere before position `i`.
                    assert forall|k: int| 0 <= k < result@.len() implies (
                    #[trigger] result@[k]).0 != c by {
                        let jw = choose|jw: int|
                            0 <= jw < i && upper@[jw] == result@[k].0;
                        assert(upper@[jw] != c);
                    }
                }
                let ghost prev = result@;
                result.push((c, n as i32));
                proof {
                    assert(result@[result@.len() - 1].0 == c);
                    assert forall|j: int| 0 <= j < i + 1 && upper@[j] != ' ' implies exists|
                        k: int,
                    | 0 <= k < result@.len() && (#[trigger] result@[k]).0 == #[trigger] upper@[j] by {
                        if j < i {
                            let kw = choose|kw: int|
                                0 <= kw < prev.len() && (#[trigger] prev[kw]).0 == upper@[j];
                            assert(result@[kw] == prev[kw]);
                        } else {
                            assert(result@[result@.len() - 1].0 == upper@[j]);
                        }
                    }
                }
            } else {
                proof {
                    let jp = choose|jp: int| 0 <= jp < i && upper@[jp] == c;
                    assert(upper@[jp] != ' ');
                }
            }
        }
        i += 1;
    }
    proof {
        assert forall|c: char| c != ' ' && count_char(to_upper_seq(text@), c) > 0 implies exists|
            k: int,
        | 0 <= k < result@.len() && (#[trigger] result@[k]).0 == c by {
            lemma_count_pos(upper@, c);
        }
    }
    result
}

/// The most common letters of English text, most common first.
pub open spec fn english_frequent_letter_spec(i: int) -> char {
    if i == 0 {
        'E'
    } else if i == 1 {
        'T'
    } else if i == 2 {
        'A'
    } else if i == 3 {
        'O'
    } else if i == 4 {
        'I'
    } else if i == 5 {
        'N'
    } else if i == 6 {
        'S'
    } else if i == 7 {
        'H'
    } else if i == 8 {
        'R'
    } else if i == 9 {
        'D'
    } else if i == 10 {
        'L'
    } else {
        'U'
    }
}

/// The most common letters of English text, most common first.
fn english_frequent_letter(i: usize) -> (r: char)
    requires
        i < 12,
    ensures
        r == english_frequent_letter_spec(i as int),
{
    match i {
        0 => 'E',
        1 => 'T',
        2 => 'A',
        3 => 'O',
        4 => 'I',
        5 => 'N',
        6 => 'S',
        7 => 'H',
        8 => 'R',
        9 => 'D',
        10 => 'L',
        _ => 'U',
    }
}

/// The shift guessed from pairing the ciphertext's most frequent
/// character with one of the frequent English letters: the truncated
/// byte distance between them, saturated at zero and wrapped at 255,
/// exactly as the original's byte arithmetic produced it.
pub open spec fn shift_guess(most_frequent: char, letter: char) -> u8 {
    let m = most_frequent as u8;
    let l = letter as u8;
    let diff: int = if m >= l {
        m - l
    } else {
        0
    };
    (diff % 255) as u8
}

/// A character that occurs in the uppercased text, is not the space, and
/// is at least as frequent there as every other character.
pub open spec fn most_frequent_candidate(s: Seq<char>, mf: char) -> bool {
    &&& mf != ' '
    &&& count_char(to_upper_seq(s), mf) > 0
    &&& forall|c: char|
        c != ' ' ==> count_char(to_upper_seq(s), c) <= count_char(to_upper_seq(s), mf)
}

/// Guess candidate Caesar shifts by frequency analysis: pair the most
/// frequent ciphertext character against each of the twelve most common
/// English letters. Ties between equally frequent characters may fall
/// either way; every guess list is built from some maximally frequent
/// character. A text with no character besides spaces yields no guesses.
pub fn frequency_analysis(cipher_text: &str) -> (r: Vec<u8>)
    requires
        cipher_text@.len() <= 0x7fff_ffff,
    ensures
        r@.len() == 12 <==> (exists|j: int|
            0 <= j < cipher_text@.len() && #[trigger] to_upper_char(cipher_text@[j]) != ' '),
        r@.len() == 0 || r@.len() == 12,
        r@.len() == 12 ==> exists|mf: char|
            #[trigger] most_frequent_candidate(cipher_text@, mf) && (forall|k: int|
                0 <= k < 12 ==> r@[k] == shift_guess(mf, english_frequent_letter_spec(k))),
{
    let freq = frequencies(cipher_text);
    if freq.len() == 0 {
        proof {
            if exists|j: int|
                0 <= j < cipher_text@.len() && #[trigger] to_upper_char(cipher_text@[j]) != ' ' {
                let j = choose|j: int|
                    0 <= j < cipher_text@.len() && to_upper_char(cipher_text@[j]) != ' ';
                let c = to_upper_seq(cipher_text@)[j];
                lemma_count_pos(to_upper_seq(cipher_text@), c);
            }
        }
        return Vec::new();
    }
    let mut best: usize = 0;
    let mut k: usize = 1;
    while k < freq.len()
        invariant
            freq@.len() > 0,
            best < k <= freq@.len(),
            forall|j: int| 0 <= j < k ==> (#[trigger] freq@[j]).1 <= freq@[best as int].1,
        decreases freq@.len() - k,
    {
        if freq[k].1 > freq[best].1 {
            best = k;
        }
        k += 1;
    }
    let most_frequent = freq[best].0;
    proof {
        let u = to_upper_seq(cipher_text@);
        assert(u[choose|j: int| 0 <= j < u.len() && u[j] == most_frequent] != ' ') by {
            lemma_count_pos(u, most_frequent);
        }
        assert forall|c: char| c != ' ' implies count_char(u, c) <= count_char(
            u,
            most_frequent,
        ) by {
            if count_char(u, c) > 0 {
                let kk = choose|kk: int| 0 <= kk < freq@.len() && (#[trigger] freq@[kk]).0 == c;
                assert(freq@[kk].1 <= freq@[best as int].1);
            }
        }
        assert(most_frequent_candidate(cipher_text@, most_frequent));
        lemma_count_pos(to_upper_seq(cipher_text@), most_frequent);
        let j = choose|j: int|
            0 <= j < to_upper_seq(cipher_text@).len() && to_upper_seq(cipher_text@)[j]
                == most_frequent;
        assert(to_upper_char(cipher_text@[j]) != ' ');
    }
    let mut result: Vec<u8> = Vec::new();
    let mut i: usize = 0;
    while i < 12
        invariant
            i <= 12,
            result@.len() == i,
            forall|j: int|
                0 <= j < i ==> result@[j] == shift_guess(
                    most_frequent,
                    english_frequent_letter_spec(j),
                ),
        decreases 12 - i,
    {
        let m = most_frequent as u8;
        let l = english_frequent_letter(i) as u8;
        let diff: u8 = if m >= l {
            m - l
        } else {
            0
        };
        result.push(diff % 255);
        i += 1;
    }
    result
}

} // verus!
