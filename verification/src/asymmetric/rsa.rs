//! The RSA key-generation and cipher engine.
//!
//! A key pair is derived from two primes drawn from a caller-supplied
//! range: the shared modulus is their product, the public exponent is a
//! random value coprime to the totient, and the private exponent is its
//! modular inverse. The cipher transform encrypts one plaintext byte per
//! block by modular exponentiation over arbitrary-precision integers.

use crate::asymmetric::number_theory::{euclidean_gcd, gcd, modular_inverse};
use crate::asymmetric::primality::{generate_prime, is_prime_spec};
use crate::random::random_in_range;
use num_traits::ToPrimitive;
use vstd::prelude::*;
use vstd::arithmetic::div_mod::lemma_fundamental_div_mod;
use vstd::arithmetic::power::pow;

verus! {

/// Failures of key generation and of the byte-wise cipher transform.
#[derive(Clone, Copy, Debug, PartialEq, Eq, Structural)]
pub enum RsaError {
    /// A plaintext byte or a decrypted value does not fit within the range
    /// the modulus implies.
    InvalidModulus,
    /// A bounded rejection-sampling search ran out of attempts.
    NonTerminatingSearch,
    /// `modular_inverse` was asked for an inverse that does not exist:
    /// its arguments are not coprime.
    InverseUndefined,
}

/// The unsigned value a little-endian byte sequence denotes.
pub open spec fn le_val(b: Seq<u8>) -> nat
    decreases b.len(),
{
    if b.len() == 0 {
        0
    } else {
        b[0] as nat + 256 * le_val(b.drop_first())
    }
}

/// The little-endian digits of `v`, with no trailing zero byte; empty
/// for zero.
pub open spec fn le_digits(v: nat) -> Seq<u8>
    decreases v,
{
    if v == 0 {
        Seq::empty()
    } else {
        seq![(v % 256) as u8] + le_digits(v / 256)
    }
}

/// The minimal little-endian encoding of `v`, as the big-integer library
/// produces it: zero encodes as the single byte 0.
pub open spec fn le_bytes_of(v: nat) -> Seq<u8> {
    if v == 0 {
        seq![0u8]
    } else {
        le_digits(v)
    }
}

proof fn lemma_le_val_unfold(x: u8, s: Seq<u8>)
    ensures
        le_val(seq![x] + s) == x as nat + 256 * le_val(s),
{
    let whole = seq![x] + s;
    assert(whole[0] == x);
    assert(whole.drop_first() =~= s);
}

proof fn lemma_le_digits_val(v: nat)
    ensures
        le_val(le_digits(v)) == v,
    decreases v,
{
    if v != 0 {
        lemma_le_digits_val(v / 256);
        lemma_le_val_unfold((v % 256) as u8, le_digits(v / 256));
        lemma_fundamental_div_mod(v as int, 256);
    }
}

/// Decoding inverts encoding: the little-endian bytes of `v` denote `v`.
pub proof fn lemma_le_round_trip(v: nat)
    ensures
        le_val(le_bytes_of(v)) == v,
{
    if v == 0 {
        let s = seq![0u8];
        assert(s.drop_first() =~= Seq::<u8>::empty());
        assert(le_val(s.drop_first()) == 0);
        assert(le_val(s) == s[0] as nat + 256 * le_val(s.drop_first()));
    } else {
        lemma_le_digits_val(v);
    }
}

/// Relies on `BigUint::modpow`, which returns `(self ^ exponent) % modulus`
/// and panics only on a zero modulus, and on `ToPrimitive::to_u128`, which
/// is `Some` for every value below the modulus here.
#[verifier::external_body]
fn modpow_u128(base: u128, exponent: u128, modulus: u128) -> (r: u128)
    requires
        modulus >= 2,
    ensures
        r as int == pow(base as int, exponent as nat) % (modulus as int),
{
    num_bigint::BigUint::from(base)
        .modpow(&num_bigint::BigUint::from(exponent), &num_bigint::BigUint::from(modulus))
        .to_u128()
        .unwrap()
}

/// Relies on `BigUint::from_bytes_le`, which reads a little-endian byte
/// slice (empty means zero), and on `BigUint::modpow` as above.
#[verifier::external_body]
fn modpow_bytes_le(block: &[u8], exponent: u128, modulus: u128) -> (r: u128)
    requires
        modulus >= 2,
    ensures
        r as int == pow(le_val(block@) as int, exponent as nat) % (modulus as int),
{
    num_bigint::BigUint::from_bytes_le(block)
        .modpow(&num_bigint::BigUint::from(exponent), &num_bigint::BigUint::from(modulus))
        .to_u128()
        .unwrap()
}

/// Relies on `BigUint::to_bytes_le`: the minimal little-endian byte
/// representation, with zero represented as the single byte 0.
#[verifier::external_body]
fn u128_to_bytes_le(v: u128) -> (r: Vec<u8>)
    ensures
        r@ == le_bytes_of(v as nat),
{
    num_bigint::BigUint::from(v).to_bytes_le()
}

/// An RSA key pair. Both keys share the modulus; the primes it was built
/// from are retained only as ghosts, to state what the exponents satisfy.
pub struct KeyPair {
    /// The private exponent `d`.
    pub private_exponent: u128,
    /// The public exponent `e`.
    pub public_exponent: u128,
    /// The shared modulus `n == p * q`.
    pub modulus: u128,
    /// The first generated prime.
    pub p: Ghost<u128>,
    /// The second generated prime.
    pub q: Ghost<u128>,
}

impl KeyPair {
    /// Euler's totient of the modulus: `(p - 1) * (q - 1)`.
    pub open spec fn phi(self) -> int {
        (self.p@ - 1) * (self.q@ - 1)
    }

    /// What key generation establishes: the primes are genuine, the
    /// modulus is their product, the public exponent is coprime to the
    /// totient, and the private exponent is its inverse modulo the totient.
    pub open spec fn wf(self) -> bool {
        &&& is_prime_spec(self.p@ as int)
        &&& is_prime_spec(self.q@ as int)
        &&& self.p@ >= 3
        &&& self.q@ >= 3
        &&& self.modulus == self.p@ * self.q@
        &&& 1 <= self.public_exponent <= self.phi()
        &&& gcd(self.public_exponent as nat, self.phi() as nat) == 1
        &&& self.private_exponent < self.phi()
        &&& (self.public_exponent as int * self.private_exponent as int) % self.phi() == 1
    }

    /// The public half `(e, n)`, as the cipher transform consumes it.
    pub fn public_key(&self) -> (r: (u128, u128))
        ensures
            r == (self.public_exponent, self.modulus),
    {
        (self.public_exponent, self.modulus)
    }

    /// The private half `(d, n)`, as the cipher transform consumes it.
    pub fn private_key(&self) -> (r: (u128, u128))
        ensures
            r == (self.private_exponent, self.modulus),
    {
        (self.private_exponent, self.modulus)
    }
}

/// Generate an RSA key pair from primes drawn uniformly from
/// `[low, high]`.
///
/// The range must start at 3 so the totient admits an inverse, and stay
/// within 2^63 so every product fits the arithmetic. The two primes are
/// drawn independently and are not forced apart. Each rejection-sampling
/// search is bounded, and exhaustion reports `NonTerminatingSearch`.
pub fn generate_key_pair(low: u128, high: u128) -> (r: Result<KeyPair, RsaError>)
    requires
        3 <= low <= high,
        high <= 0x8000_0000_0000_0000,
    ensures
        r matches Ok(kp) ==> kp.wf() && low <= kp.p@ <= high && low <= kp.q@ <= high,
        r matches Err(e) ==> e == RsaError::NonTerminatingSearch,
{
    let p = match generate_prime(low, high) {
        Ok(p) => p,
        Err(e) => { return Err(e) },
    };
    let q = match generate_prime(low, high) {
        Ok(q) => q,
        Err(e) => { return Err(e) },
    };
    proof {
        assert(p * q <= 0x4000_0000_0000_0000_0000_0000_0000_0000 && (p - 1) * (q - 1) >= 4
            && (p - 1) * (q - 1) <= 0x3fff_ffff_ffff_ffff_ffff_ffff_ffff_ffff) by (nonlinear_arith)
            requires
                3 <= p <= 0x8000_0000_0000_0000,
                3 <= q <= 0x8000_0000_0000_0000,
        ;
    }
    // The trapdoor: multiplying the primes is cheap, recovering them from
    // the product is not.
    let n = p * q;
    // Euler's totient of `n`.
    let phi = (p - 1) * (q - 1);
    let mut attempts: u32 = 0;
    while attempts < 10_000
        invariant
            is_prime_spec(p as int),
            is_prime_spec(q as int),
            low <= p <= high,
            low <= q <= high,
            3 <= p,
            3 <= q,
            n == p * q,
            phi == (p - 1) * (q - 1),
            4 <= phi <= 0x3fff_ffff_ffff_ffff_ffff_ffff_ffff_ffff,
        decreases 10_000 - attempts,
    {
        // A public exponent must be coprime to the totient, or no private
        // exponent can undo it.
        let e = random_in_range(1, phi);
        if euclidean_gcd(e, phi) == 1 {
            let d = match modular_inverse(e, phi) {
                Ok(d) => d,
                Err(_) => {
                    // Unreachable: the inverse exists whenever the gcd is 1.
                    assert(false);
                    return Err(RsaError::NonTerminatingSearch);
                },
            };
            return Ok(
                KeyPair {
                    private_exponent: d,
                    public_exponent: e,
                    modulus: n,
                    p: Ghost(p),
                    q: Ghost(q),
                },
            );
        }
        attempts += 1;
    }
    Err(RsaError::NonTerminatingSearch)
}

/// The encrypted block a single plaintext byte produces under `(e, n)`:
/// the minimal little-endian encoding of `byte ^ e mod n`.
pub open spec fn cipher_block_of(byte: u8, e: u128, n: u128) -> Seq<u8> {
    le_bytes_of((pow(byte as int, e as nat) % (n as int)) as nat)
}

/// Encrypt a message under the public key `(e, n)`, one block per byte.
///
/// Every plaintext byte must lie below the modulus, or the byte could not
/// be recovered; a message that violates that fails whole, with
/// `InvalidModulus`.
pub fn encrypt(public_key: (u128, u128), message: &[u8]) -> (r: Result<
    Vec<Vec<u8>>,
    RsaError,
>)
    requires
        public_key.1 >= 2,
    ensures
        r is Ok <==> (forall|i: int|
            0 <= i < message@.len() ==> (message@[i] as u128) < public_key.1),
        r matches Ok(blocks) ==> blocks@.len() == message@.len() && (forall|i: int|
            0 <= i < message@.len() ==> blocks@[i]@ == cipher_block_of(
                message@[i],
                public_key.0,
                public_key.1,
            )),
        r matches Err(e) ==> e == RsaError::InvalidModulus,
{
    let (e, n) = public_key;
    let mut result: Vec<Vec<u8>> = Vec::new();
    let mut idx: usize = 0;
    while idx < message.len()
        invariant
            n >= 2,
            idx <= message@.len(),
            result@.len() == idx,
            e == public_key.0,
            n == public_key.1,
            forall|i: int| 0 <= i < idx ==> (message@[i] as u128) < n,
            forall|i: int|
                0 <= i < idx ==> result@[i]@ == cipher_block_of(message@[i], e, n),
        decreases message@.len() - idx,
    {
        let byte = message[idx];
        if byte as u128 >= n {
            return Err(RsaError::InvalidModulus);
        }
        let block = u128_to_bytes_le(modpow_u128(byte as u128, e, n));
        result.push(block);
        idx += 1;
    }
    Ok(result)
}

/// The value a received block decrypts to under the private key `(d, n)`:
/// `value ^ d mod n` of the value the block's bytes denote.
pub open spec fn decrypted_value_of(block: Seq<u8>, d: u128, n: u128) -> int {
    pow(le_val(block) as int, d as nat) % (n as int)
}

/// Decrypt a sequence of blocks under the private key `(d, n)`, one
/// plaintext byte per block.
///
/// A block whose decrypted value does not fit in a byte means the modulus
/// was too small for the plaintext; the whole operation fails with
/// `InvalidModulus` rather than dropping the byte.
pub fn decrypt(private_key: (u128, u128), message: &Vec<Vec<u8>>) -> (r: Result<
    Vec<u8>,
    RsaError,
>)
    requires
        private_key.1 >= 2,
    ensures
        r is Ok <==> (forall|i: int|
            0 <= i < message@.len() ==> decrypted_value_of(
                message@[i]@,
                private_key.0,
                private_key.1,
            ) < 256),
        r matches Ok(out) ==> out@.len() == message@.len() && (forall|i: int|
            0 <= i < message@.len() ==> out@[i] == decrypted_value_of(
                message@[i]@,
                private_key.0,
                private_key.1,
            )),
        r matches Err(e) ==> e == RsaError::InvalidModulus,
{
    let (d, n) = private_key;
    let mut result: Vec<u8> = Vec::new();
    let mut idx: usize = 0;
    while idx < message.len()
        invariant
            n >= 2,
            idx <= message@.len(),
            result@.len() == idx,
            d == private_key.0,
            n == private_key.1,
            forall|i: int|
                0 <= i < idx ==> decrypted_value_of(message@[i]@, d, n) < 256,
            forall|i: int|
                0 <= i < idx ==> result@[i] == decrypted_value_of(message@[i]@, d, n),
        decreases message@.len() - idx,
    {
        let value = modpow_bytes_le(message[idx].as_slice(), d, n);
        if value >= 256 {
            return Err(RsaError::InvalidModulus);
        }
        result.push(value as u8);
        idx += 1;
    }
    Ok(result)
}

/// One byte survives the full transform under `(e, d, n)`: raising it to
/// `e`, reducing, raising to `d` and reducing yields the byte again.
pub open spec fn recovers_byte(e: u128, d: u128, n: u128, byte: u8) -> bool {
    pow(pow(byte as int, e as nat) % (n as int), d as nat) % (n as int) == byte as int
}

/// Check that every byte value below the modulus survives the transform
/// under this key pair. Key generation draws its primes at random, so
/// this is the runtime witness that a particular pair round-trips.
pub fn key_recovers_all_bytes(e: u128, d: u128, n: u128) -> (b: bool)
    requires
        n >= 2,
    ensures
        b <==> (forall|m: u8| (m as u128) < n ==> recovers_byte(e, d, n, m)),
{
    let mut m: u32 = 0;
    while m < 256
        invariant
            n >= 2,
            m <= 256,
            forall|mb: u8|
                (mb as u32) < m ==> ((mb as u128) < n ==> recovers_byte(e, d, n, mb)),
        decreases 256 - m,
    {
        if (m as u128) < n {
            let c = modpow_u128(m as u128, e, n);
            let r = modpow_u128(c, d, n);
            if r != m as u128 {
                assert(!recovers_byte(e, d, n, m as u8));
                return false;
            }
            assert(recovers_byte(e, d, n, m as u8));
        }
        m += 1;
    }
    true
}

/// A key pair built on two distinct primes recovers every byte value
/// below its modulus: Fermat's little theorem and the Chinese remainder
/// combination, applied to the facts key generation establishes. A pair
/// whose two primes coincide has no such guarantee — the generator does
/// not force them apart — which is what `key_recovers_all_bytes` checks
/// at runtime.
pub proof fn lemma_distinct_primes_recover_bytes(kp: KeyPair)
    requires
        kp.wf(),
        kp.p@ != kp.q@,
    ensures
        forall|m: u8|
            (m as u128) < kp.modulus ==> recovers_byte(
                kp.public_exponent,
                kp.private_exponent,
                kp.modulus,
                m,
            ),
{
    assert forall|m: u8| (m as u128) < kp.modulus implies recovers_byte(
        kp.public_exponent,
        kp.private_exponent,
        kp.modulus,
        m,
    ) by {
        crate::asymmetric::fermat::lemma_rsa_recovers(
            kp.p@ as nat,
            kp.q@ as nat,
            kp.public_exponent as nat,
            kp.private_exponent as nat,
            m as nat,
        );
    }
}

/// The round-trip law for a key pair built on two distinct primes:
/// decrypting an encrypted message recovers the message, byte for byte,
/// for every message whose bytes lie below the modulus.
pub proof fn lemma_key_pair_round_trip(kp: KeyPair, message: Seq<u8>)
    requires
        kp.wf(),
        kp.p@ != kp.q@,
        forall|i: int| 0 <= i < message.len() ==> (message[i] as u128) < kp.modulus,
    ensures
        forall|i: int|
            0 <= i < message.len() ==> decrypted_value_of(
                cipher_block_of(message[i], kp.public_exponent, kp.modulus),
                kp.private_exponent,
                kp.modulus,
            ) == message[i] as int,
{
    assert(kp.modulus >= 9) by (nonlinear_arith)
        requires
            kp.modulus == kp.p@ * kp.q@,
            kp.p@ >= 3,
            kp.q@ >= 3,
    ;
    lemma_distinct_primes_recover_bytes(kp);
    lemma_round_trip(kp.public_exponent, kp.private_exponent, kp.modulus, message);
}

/// The round-trip law in its general form: whenever every byte value
/// below the modulus survives the transform under `(e, d, n)` — which
/// `key_recovers_all_bytes` decides for any pair, distinct primes or
/// not — decrypting an encrypted message recovers the message, byte for
/// byte, for every message whose bytes lie below the modulus.
pub proof fn lemma_round_trip(e: u128, d: u128, n: u128, message: Seq<u8>)
    requires
        n >= 2,
        forall|m: u8| (m as u128) < n ==> recovers_byte(e, d, n, m),
        forall|i: int| 0 <= i < message.len() ==> (message[i] as u128) < n,
    ensures
        forall|i: int|
            0 <= i < message.len() ==> decrypted_value_of(
                cipher_block_of(message[i], e, n),
                d,
                n,
            ) == message[i] as int,
{
    assert forall|i: int| 0 <= i < message.len() implies decrypted_value_of(
        cipher_block_of(message[i], e, n),
        d,
        n,
    ) == message[i] as int by {
        let byte = message[i];
        let c = (pow(byte as int, e as nat) % (n as int)) as nat;
        lemma_le_round_trip(c);
        assert(le_val(cipher_block_of(byte, e, n)) == c);
        assert(recovers_byte(e, d, n, byte));
    }
}

} // verus!
