//! Number-theory primitives for the RSA engine: greatest common divisor,
//! the extended Euclidean algorithm, and modular inverses.

use crate::asymmetric::rsa::RsaError;
use vstd::prelude::*;
use vstd::arithmetic::div_mod::{
    lemma_div_nonincreasing, lemma_div_pos_is_pos, lemma_fundamental_div_mod,
    lemma_mod_multiples_vanish, lemma_mul_mod_noop_right, lemma_small_mod,
};

verus! {

/// The largest argument `extended_gcd` accepts: one less than `i128::MAX`,
/// so that every Bezout coefficient and every intermediate product fits in
/// an `i128`.
pub const EXTENDED_GCD_BOUND: u128 = 0x7fff_ffff_ffff_ffff_ffff_ffff_ffff_fffe;

/// Mathematical greatest common divisor, by the Euclidean recursion.
/// `gcd(a, 0) == a`, so in particular `gcd(0, 0) == 0`.
pub open spec fn gcd(a: nat, b: nat) -> nat
    decreases b,
{
    if b == 0 {
        a
    } else {
        gcd(b, a % b)
    }
}

/// Greatest common divisor of `a` and `b` by the Euclidean algorithm.
/// The divisor `b` must be nonzero: the first step divides by it.
pub fn euclidean_gcd(a: u128, b: u128) -> (r: u128)
    requires
        b > 0,
    ensures
        r == gcd(a as nat, b as nat),
    decreases b,
{
    if a % b == 0 {
        proof {
            assert(gcd(a as nat, b as nat) == gcd(b as nat, 0));
        }
        return b;
    }
    euclidean_gcd(b, a % b)
}

/// Extended Euclidean algorithm. Returns `(g, x, y)` with
/// `g == gcd(a, b)` and `a*x + b*y == g`, together with the classic bounds
/// on the Bezout coefficients that keep the arithmetic inside `i128`.
pub fn extended_gcd(a: u128, b: u128) -> (r: (u128, i128, i128))
    requires
        a <= EXTENDED_GCD_BOUND,
        b <= EXTENDED_GCD_BOUND,
    ensures
        r.0 == gcd(a as nat, b as nat),
        a as int * r.1 + b as int * r.2 == r.0 as int,
        b == 0 ==> r.1 == 1 && r.2 == 0,
        -(if b == 0 { 1 as int } else { b as int }) <= r.1 <= (
        if b == 0 {
            1 as int
        } else {
            b as int
        }),
        -(if a == 0 { 1 as int } else { a as int }) <= r.2 <= (
        if a == 0 {
            1 as int
        } else {
            a as int
        }),
    decreases b,
{
    if b == 0 {
        (a, 1, 0)
    } else {
        let rem = a % b;
        let (g, x, y) = extended_gcd(b, rem);
        let q = (a / b) as i128;
        proof {
            lemma_fundamental_div_mod(a as int, b as int);
            lemma_div_pos_is_pos(a as int, b as int);
            lemma_div_nonincreasing(a as int, b as int);
            assert(q == a as int / b as int);
            // The quotient-coefficient product stays within the magnitude
            // of `a`, so the new coefficient fits in an `i128`.
            assert(-(a as int) <= q as int * y <= a as int && (rem == 0 ==> q as int * y == 0))
                by (nonlinear_arith)
                requires
                    a as int == b as int * q + rem as int,
                    0 <= rem as int && (rem as int) < b as int,
                    -(b as int) <= y <= b as int,
                    rem == 0 ==> y == 0,
                    0 <= q,
            ;
            // Bound the new coefficient before the subtraction is executed,
            // so the machine arithmetic is known to stay in range.
            assert(-(if a == 0 { 1 as int } else { a as int }) <= x as int - q as int * y <= (
            if a == 0 {
                1 as int
            } else {
                a as int
            })) by (nonlinear_arith)
                requires
                    a as int == b as int * q + rem as int,
                    0 <= rem as int && (rem as int) < b as int,
                    0 < b as int,
                    0 <= q,
                    -(if rem == 0 { 1 as int } else { rem as int }) <= x <= (
                    if rem == 0 {
                        1 as int
                    } else {
                        rem as int
                    }),
                    -(b as int) <= y <= b as int,
                    rem == 0 ==> (x == 1 && y == 0),
                    -(a as int) <= q as int * y <= a as int,
                    rem == 0 ==> q as int * y == 0,
            ;
        }
        let ny = x - q * y;
        proof {
            // Substituting `a % b == a - b*(a/b)` into the recursive Bezout
            // identity yields the identity for `(a, b)`.
            assert(a as int * y + b as int * ny == g as int) by (nonlinear_arith)
                requires
                    ny == x - q as int * y,
                    b as int * x + rem as int * y == g as int,
                    a as int == b as int * q + rem as int,
            ;
        }
        (g, y, ny)
    }
}

/// The largest modulus `modular_inverse` accepts: picked so that the
/// normalization `(x % m) + m` cannot overflow an `i128`.
pub const MODULAR_INVERSE_BOUND: u128 = 0x3fff_ffff_ffff_ffff_ffff_ffff_ffff_ffff;

/// Modular inverse of `a` modulo `m`, computed through the extended
/// Euclidean algorithm and normalized into `[0, m)`.
///
/// The inverse exists exactly when `gcd(a, m) == 1`; otherwise the call
/// fails with `InverseUndefined`.
pub fn modular_inverse(a: u128, m: u128) -> (r: Result<u128, RsaError>)
    requires
        m >= 2,
        a <= EXTENDED_GCD_BOUND,
        m <= MODULAR_INVERSE_BOUND,
    ensures
        r is Ok <==> gcd(a as nat, m as nat) == 1,
        r matches Ok(d) ==> d < m && (a as int * d as int) % (m as int) == 1,
        r matches Err(e) ==> e == RsaError::InverseUndefined,
{
    let (g, x, y) = extended_gcd(a, m);
    if g != 1 {
        return Err(RsaError::InverseUndefined);
    }
    // The Bezout coefficient of `a` lies in `[-m, m]`; shift a negative one
    // up by `m` once, then reduce, to land in `[0, m)`.
    let d: u128 = if x >= 0 {
        (x as u128) % m
    } else {
        ((x + m as i128) as u128) % m
    };
    proof {
        // `d` is `x` reduced modulo `m`; multiplying by `a` keeps the
        // residue, and the Bezout identity makes that residue 1.
        if x < 0 {
            lemma_mod_multiples_vanish(1, x as int, m as int);
        }
        assert(d == (x as int) % (m as int));
        lemma_mul_mod_noop_right(a as int, x as int, m as int);
        assert(m as int * (-(y as int)) + 1 == a as int * x) by (nonlinear_arith)
            requires
                a as int * x + m as int * y == 1,
        ;
        lemma_mod_multiples_vanish(-(y as int), 1, m as int);
        lemma_small_mod(1, m as nat);
    }
    Ok(d)
}

} // verus!
