//! Deterministic trial-division primality testing and rejection-sampling
//! prime generation over a bounded range.

use crate::asymmetric::rsa::RsaError;
use crate::random::random_in_range;
use vstd::prelude::*;
use vstd::arithmetic::div_mod::{
    lemma_fundamental_div_mod, lemma_mod_multiples_basic,
};

verus! {

/// Mathematical primality: at least 2, with no divisor strictly between
/// 1 and itself.
pub open spec fn is_prime_spec(n: int) -> bool {
    n >= 2 && forall|d: int| 2 <= d < n ==> #[trigger] (n % d) != 0
}

/// If `d` divides `n` and 2 divides `d`, then 2 divides `n`.
proof fn lemma_divisor_of_even_divisor(n: int, d: int)
    requires
        n >= 2,
        2 <= d,
        n % d == 0,
        d % 2 == 0,
    ensures
        n % 2 == 0,
{
    lemma_fundamental_div_mod(n, d);
    lemma_fundamental_div_mod(d, 2);
    assert(n == 2 * ((d / 2) * (n / d))) by (nonlinear_arith)
        requires
            n == d * (n / d) + 0,
            d == 2 * (d / 2) + 0,
    ;
    lemma_mod_multiples_basic((d / 2) * (n / d), 2);
}

/// A composite with no small divisor has a cofactor that is a small
/// divisor: if `d` divides `n` and `d * d > n`, then `n / d` divides `n`
/// and `(n / d) * (n / d) <= n`.
proof fn lemma_cofactor_is_small(n: int, d: int)
    requires
        2 <= d < n,
        n % d == 0,
        d * d > n,
    ensures
        2 <= n / d < n,
        (n / d) * (n / d) <= n,
        n % (n / d) == 0,
{
    lemma_fundamental_div_mod(n, d);
    let c = n / d;
    assert(2 <= c && c < n && c * c <= n && n == c * (n / c) + 0 && n / c == d)
        by (nonlinear_arith)
        requires
            n == d * c,
            2 <= d < n,
            d * d > n,
    ;
    lemma_mod_multiples_basic(d, c);
}

/// Trial-division primality test: exact for every `i128`, intended for
/// the small magnitudes this toy system targets.
///
/// Values below 2 are composite by definition; even values other than 2
/// are composite; otherwise odd divisors are tried up to the square root.
pub fn is_prime(num: i128) -> (r: bool)
    ensures
        r == is_prime_spec(num as int),
{
    if num < 2 {
        return false;
    }
    if num == 2 {
        return true;
    }
    if num % 2 == 0 {
        assert(num % 2 == 0 && 2 < num);
        return false;
    }
    let mut i: i128 = 3;
    while i <= num / i
        invariant
            num >= 3,
            num % 2 != 0,
            3 <= i,
            i % 2 != 0,
            i <= num,
            forall|d: int| 2 <= d < i ==> #[trigger] (num as int % d) != 0,
        decreases num - i,
    {
        if num % i == 0 {
            proof {
                lemma_fundamental_div_mod(num as int, i as int);
                assert(i < num) by (nonlinear_arith)
                    requires
                        num as int == i as int * (num as int / i as int),
                        3 <= i <= num as int / i as int,
                        num >= 3,
                ;
            }
            return false;
        }
        proof {
            // The skipped even candidate `i + 1` cannot divide an odd number.
            if num as int % (i as int + 1) == 0 {
                lemma_divisor_of_even_divisor(num as int, i as int + 1);
            }
            // While the loop runs, `i * i <= num`, so stepping by 2 stays
            // below `num`.
            lemma_fundamental_div_mod(num as int, i as int);
            assert(num as int >= i as int + 2) by (nonlinear_arith)
                requires
                    num as int == i as int * (num as int / i as int) + (num as int % i as int),
                    0 <= num as int % i as int,
                    i <= num as int / i as int,
                    3 <= i,
            ;
        }
        i += 2;
    }
    proof {
        // Beyond the loop, any divisor `d` in `[i, num)` would leave a
        // cofactor below `i`, which the loop has already ruled out.
        lemma_fundamental_div_mod(num as int, i as int);
        assert(i as int * i as int > num) by (nonlinear_arith)
            requires
                num as int == i as int * (num as int / i as int) + (num as int % i as int),
                0 <= num as int % i as int && (num as int % i as int) < i as int,
                (num as int / i as int) < i,
                3 <= i,
        ;
        assert forall|d: int| 2 <= d < num implies #[trigger] (num as int % d) != 0 by {
            if num as int % d == 0 && d >= i {
                assert(d * d > num) by (nonlinear_arith)
                    requires
                        d >= i as int,
                        i as int * i as int > num,
                        3 <= i,
                ;
                lemma_cofactor_is_small(num as int, d);
                let c = num as int / d;
                assert(c < i) by (nonlinear_arith)
                    requires
                        c * c <= num as int,
                        i as int * i as int > num as int,
                        c >= 2,
                        i >= 3,
                ;
            }
        }
    }
    true
}

/// Rejection-sampling prime search: draw uniformly from `[low, high]`
/// until the draw is prime, giving up after a bounded number of attempts
/// so a range without primes yields a failure instead of a hang.
pub fn generate_prime(low: u128, high: u128) -> (r: Result<u128, RsaError>)
    requires
        low <= high,
        high <= 0x7fff_ffff_ffff_ffff_ffff_ffff_ffff_ffff,
    ensures
        r matches Ok(p) ==> low <= p <= high && is_prime_spec(p as int),
        r matches Err(e) ==> e == RsaError::NonTerminatingSearch,
{
    let mut attempts: u32 = 0;
    while attempts < 10_000
        invariant
            low <= high,
            high <= 0x7fff_ffff_ffff_ffff_ffff_ffff_ffff_ffff,
        decreases 10_000 - attempts,
    {
        let candidate = random_in_range(low, high);
        if is_prime(candidate as i128) {
            return Ok(candidate);
        }
        attempts += 1;
    }
    Err(RsaError::NonTerminatingSearch)
}

} // verus!
