//! A small educational cryptography library.
//!
//! The asymmetric half is a toy RSA engine: prime search over a bounded
//! range, Euler totient and modular-inverse key derivation, and a byte-wise
//! modular-exponentiation transform. The symmetric half holds the classic
//! substitution ciphers (Caesar, Vigenere, one-time pad) over a 27-letter
//! alphabet, and an AES-256-CBC pass-through over an external block-cipher
//! library.

pub mod asymmetric;
pub mod command;
pub mod random;
pub mod symmetric;
