//! Fermat's little theorem and the Chinese-remainder combination step,
//! building up to the fact the RSA key pair invariant promises: a key
//! pair derived from two distinct primes recovers every value below its
//! modulus.

use crate::asymmetric::number_theory::gcd;
use crate::asymmetric::primality::is_prime_spec;
use vstd::prelude::*;
use vstd::arithmetic::div_mod::{
    lemma_add_mod_noop, lemma_fundamental_div_mod, lemma_fundamental_div_mod_converse_mod,
    lemma_mod_multiples_vanish, lemma_mod_twice, lemma_mul_mod_noop, lemma_small_mod,
};
use vstd::arithmetic::power::{
    lemma0_pow, lemma_pow0, lemma_pow1, lemma_pow_adds, lemma_pow_increases,
    lemma_pow_mod_noop, lemma_pow_multiplies, lemma_pow_positive, pow,
};

verus! {

/// `d` divides `n`.
pub open spec fn divides(d: int, n: int) -> bool {
    exists|k: int| n == #[trigger] (d * k)
}

/// Divisibility by a positive divisor is a zero remainder.
proof fn lemma_divides_iff_mod_zero(d: int, n: int)
    requires
        d > 0,
    ensures
        divides(d, n) <==> n % d == 0,
{
    if divides(d, n) {
        let k = choose|k: int| n == #[trigger] (d * k);
        assert(n == k * d + 0) by (nonlinear_arith)
            requires
                n == d * k,
        ;
        lemma_fundamental_div_mod_converse_mod(n, d, k, 0);
    }
    if n % d == 0 {
        lemma_fundamental_div_mod(n, d);
        assert(n == d * (n / d));
    }
}

/// Bezout coefficients: `a * x + b * y == gcd(a, b)` for some `x`, `y`.
proof fn lemma_bezout(a: nat, b: nat) -> (r: (int, int))
    ensures
        a * r.0 + b * r.1 == gcd(a, b),
    decreases b,
{
    if b == 0 {
        let r = (1int, 0int);
        assert(a * 1int + b * 0int == a) by (nonlinear_arith)
            requires
                b == 0,
        ;
        r
    } else {
        let (x, y) = lemma_bezout(b, a % b);
        let q = a as int / b as int;
        lemma_fundamental_div_mod(a as int, b as int);
        let r = (y, x - q * y);
        assert(a as int * y + b as int * (x - q * y) == gcd(b, a % b)) by (nonlinear_arith)
            requires
                b as int * x + (a % b) as int * y == gcd(b, a % b),
                a as int == b as int * q + (a % b) as int,
        ;
        r
    }
}

/// The gcd divides both of its arguments.
proof fn lemma_gcd_divides(a: nat, b: nat)
    ensures
        divides(gcd(a, b) as int, a as int),
        divides(gcd(a, b) as int, b as int),
    decreases b,
{
    if b == 0 {
        assert(a as int == gcd(a, b) as int * 1);
        assert(b as int == gcd(a, b) as int * 0);
    } else {
        lemma_gcd_divides(b, a % b);
        let g = gcd(b, a % b);
        let k1 = choose|k: int| b as int == #[trigger] (g as int * k);
        let k2 = choose|k: int| (a % b) as int == #[trigger] (g as int * k);
        lemma_fundamental_div_mod(a as int, b as int);
        assert(a as int == g as int * (k1 * (a as int / b as int) + k2)) by (nonlinear_arith)
            requires
                a as int == b as int * (a as int / b as int) + (a % b) as int,
                b as int == g as int * k1,
                (a % b) as int == g as int * k2,
        ;
    }
}

/// Euclid's lemma, Bezout form: a divisor coprime to one factor of a
/// product divides the other factor.
proof fn lemma_coprime_divides(d: nat, a: nat, b: nat)
    requires
        gcd(d, a) == 1,
        divides(d as int, a as int * b as int),
    ensures
        divides(d as int, b as int),
{
    let (u, v) = lemma_bezout(d, a);
    let k = choose|k: int| a as int * b as int == #[trigger] (d as int * k);
    assert(b as int == d as int * (b * u + k * v)) by (nonlinear_arith)
        requires
            d as int * u + a as int * v == 1,
            a as int * b as int == d as int * k,
    ;
}

/// A prime is coprime to everything strictly between 0 and itself.
proof fn lemma_prime_coprime_below(p: nat, k: nat)
    requires
        is_prime_spec(p as int),
        1 <= k < p,
    ensures
        gcd(p, k) == 1,
{
    let g = gcd(p, k);
    lemma_gcd_divides(p, k);
    if g == 0 {
        let w = choose|w: int| k as int == #[trigger] (0int * w);
        assert(false);
    }
    if g != 1 {
        // `g` divides `k`, so `g <= k < p`; a positive divisor of the
        // prime `p` other than 1 in that range contradicts primality.
        let wk = choose|w: int| k as int == #[trigger] (g as int * w);
        assert(g <= k) by (nonlinear_arith)
            requires
                k as int == g as int * wk,
                g >= 1,
                k >= 1,
        ;
        lemma_divides_iff_mod_zero(g as int, p as int);
        assert(p as int % g as int != 0);
        assert(false);
    }
}

/// Two distinct primes are coprime.
proof fn lemma_distinct_primes_coprime(p: nat, q: nat)
    requires
        is_prime_spec(p as int),
        is_prime_spec(q as int),
        p != q,
    ensures
        gcd(p, q) == 1,
{
    if p < q {
        lemma_prime_coprime_below(q, p);
        lemma_gcd_symmetric_below(q, p);
    } else {
        lemma_prime_coprime_below(p, q);
    }
}

/// For `b < a`, the gcd is symmetric: one unfolding swaps the order.
proof fn lemma_gcd_symmetric_below(a: nat, b: nat)
    requires
        0 < b < a,
    ensures
        gcd(a, b) == gcd(b, a),
{
    vstd::arithmetic::div_mod::lemma_small_mod(b, a);
    assert(gcd(b, a) == gcd(a, b % a));
    assert(b % a == b);
}

/// Binomial coefficients, by Pascal's recurrence.
pub open spec fn binom(n: nat, k: nat) -> nat
    decreases n, k,
{
    if k == 0 {
        1
    } else if n == 0 {
        0
    } else {
        binom((n - 1) as nat, (k - 1) as nat) + binom((n - 1) as nat, k)
    }
}

/// Above the diagonal every coefficient vanishes.
proof fn lemma_binom_above(n: nat, k: nat)
    requires
        k > n,
    ensures
        binom(n, k) == 0,
    decreases n,
{
    if n > 0 {
        lemma_binom_above((n - 1) as nat, (k - 1) as nat);
        lemma_binom_above((n - 1) as nat, k);
    }
}

/// On the diagonal every coefficient is 1.
proof fn lemma_binom_diag(n: nat)
    ensures
        binom(n, n) == 1,
    decreases n,
{
    if n > 0 {
        lemma_binom_diag((n - 1) as nat);
        lemma_binom_above((n - 1) as nat, n);
    }
}

/// Choosing one out of `n` can be done `n` ways.
proof fn lemma_binom_one(n: nat)
    ensures
        binom(n, 1) == n,
    decreases n,
{
    if n > 0 {
        lemma_binom_one((n - 1) as nat);
        assert(binom((n - 1) as nat, 0) == 1);
        assert(binom(n, 1) == binom((n - 1) as nat, 0) + binom((n - 1) as nat, 1));
    }
}

/// The absorption identity: `k * binom(n, k) == n * binom(n-1, k-1)`.
proof fn lemma_binom_absorb(n: nat, k: nat)
    requires
        1 <= k <= n,
    ensures
        k * binom(n, k) == n * binom((n - 1) as nat, (k - 1) as nat),
    decreases n,
{
    if k == n {
        lemma_binom_diag(n);
        lemma_binom_diag((n - 1) as nat);
        assert(k * binom(n, k) == n * binom((n - 1) as nat, (k - 1) as nat)) by (nonlinear_arith)
            requires
                k == n,
                binom(n, k) == 1,
                binom((n - 1) as nat, (k - 1) as nat) == 1,
        ;
    } else if k == 1 {
        lemma_binom_one(n);
        assert(binom((n - 1) as nat, 0) == 1);
        assert(k * binom(n, k) == n * binom((n - 1) as nat, (k - 1) as nat)) by (nonlinear_arith)
            requires
                k == 1,
                binom(n, k) == n,
                binom((n - 1) as nat, (k - 1) as nat) == 1,
        ;
    } else {
        // Here `2 <= k <= n - 1`, so both absorption instances below are
        // in range.
        lemma_binom_absorb((n - 1) as nat, (k - 1) as nat);
        lemma_binom_absorb((n - 1) as nat, k);
        let b1 = binom((n - 2) as nat, (k - 2) as nat);
        let b2 = binom((n - 2) as nat, (k - 1) as nat);
        let c1 = binom((n - 1) as nat, (k - 1) as nat);
        let c2 = binom((n - 1) as nat, k);
        assert(c1 == b1 + b2);
        assert(binom(n, k) == c1 + c2);
        assert(k * (c1 + c2) == n * c1) by (nonlinear_arith)
            requires
                (k - 1) * c1 == (n - 1) * b1,
                k * c2 == (n - 1) * b2,
                c1 == b1 + b2,
        ;
    }
}

/// A prime divides every interior coefficient of its row.
proof fn lemma_prime_divides_binom(p: nat, k: nat)
    requires
        is_prime_spec(p as int),
        1 <= k < p,
    ensures
        binom(p, k) as int % p as int == 0,
{
    lemma_binom_absorb(p, k);
    // `p` divides `k * binom(p, k)` and is coprime to `k`, so it
    // divides `binom(p, k)`.
    assert(k as int * binom(p, k) as int == p as int * binom(
        (p - 1) as nat,
        (k - 1) as nat,
    ) as int);
    lemma_prime_coprime_below(p, k);
    lemma_coprime_divides(p, k, binom(p, k));
    lemma_divides_iff_mod_zero(p as int, binom(p, k) as int);
}

/// The first `i` terms of the binomial expansion of `(a + 1)^n`:
/// the sum of `binom(n, k) * a^k` over `k < i`.
spec fn binom_sum(a: int, n: nat, i: nat) -> int
    decreases i,
{
    if i == 0 {
        0
    } else {
        binom_sum(a, n, (i - 1) as nat) + binom(n, (i - 1) as nat) * pow(a, (i - 1) as nat)
    }
}

/// The same terms shifted one power up: the sum of
/// `binom(n, k - 1) * a^k` over `1 <= k <= i`.
spec fn binom_sum_shifted(a: int, n: nat, i: nat) -> int
    decreases i,
{
    if i == 0 {
        0
    } else {
        binom_sum_shifted(a, n, (i - 1) as nat) + binom(n, (i - 1) as nat) * pow(a, i)
    }
}

/// Multiplying the partial expansion by `a` shifts every power up.
proof fn lemma_binom_sum_shift(a: int, n: nat, i: nat)
    ensures
        a * binom_sum(a, n, i) == binom_sum_shifted(a, n, i),
    decreases i,
{
    if i > 0 {
        lemma_binom_sum_shift(a, n, (i - 1) as nat);
        let s = binom_sum(a, n, (i - 1) as nat);
        let c = binom(n, (i - 1) as nat) as int;
        assert(pow(a, i) == a * pow(a, (i - 1) as nat)) by {
            reveal(pow);
        }
        assert(a * (s + c * pow(a, (i - 1) as nat)) == a * s + c * (a * pow(a, (i - 1) as nat)))
            by (nonlinear_arith)
        ;
    }
}

/// Pascal's recurrence, summed: each partial expansion for `n + 1`
/// splits into the matching sums for `n`.
proof fn lemma_binom_sum_pascal(a: int, n: nat, i: nat)
    requires
        i >= 1,
    ensures
        binom_sum(a, (n + 1) as nat, i) == binom_sum(a, n, i) + binom_sum_shifted(
            a,
            n,
            (i - 1) as nat,
        ),
    decreases i,
{
    if i == 1 {
        assert(binom_sum(a, (n + 1) as nat, 0) == 0);
        assert(binom_sum(a, n, 0) == 0);
        assert(binom_sum(a, (n + 1) as nat, 1) == binom((n + 1) as nat, 0) * pow(a, 0));
        assert(binom_sum(a, n, 1) == binom(n, 0) * pow(a, 0));
    } else {
        lemma_binom_sum_pascal(a, n, (i - 1) as nat);
        let c1 = binom(n, (i - 2) as nat) as int;
        let c2 = binom(n, (i - 1) as nat) as int;
        // Pascal: the leading coefficient for `n + 1` splits in two.
        assert(binom((n + 1) as nat, (i - 1) as nat) == c1 + c2);
        assert((c1 + c2) * pow(a, (i - 1) as nat) == c1 * pow(a, (i - 1) as nat) + c2 * pow(
            a,
            (i - 1) as nat,
        )) by (nonlinear_arith);
        assert(binom_sum_shifted(a, n, (i - 1) as nat) == binom_sum_shifted(a, n, (i - 2) as nat)
            + c1 * pow(a, (i - 1) as nat));
    }
}

/// The binomial theorem for `(a + 1)^n`.
proof fn lemma_binomial_theorem(a: int, n: nat)
    ensures
        pow(a + 1, n) == binom_sum(a, n, (n + 1) as nat),
    decreases n,
{
    if n == 0 {
        reveal(pow);
        assert(binom_sum(a, 0, 0) == 0);
        assert(binom_sum(a, 0, 1) == binom(0, 0) * pow(a, 0));
    } else {
        let m = (n - 1) as nat;
        lemma_binomial_theorem(a, m);
        lemma_binom_sum_shift(a, m, (m + 1) as nat);
        lemma_binom_sum_pascal(a, m, (m + 2) as nat);
        lemma_binom_above(m, (m + 1) as nat);
        // The top term of the one-longer sum for `m` vanishes.
        assert(binom_sum(a, m, (m + 2) as nat) == binom_sum(a, m, (m + 1) as nat) + binom(
            m,
            (m + 1) as nat,
        ) * pow(a, (m + 1) as nat));
        assert(binom(m, (m + 1) as nat) as int * pow(a, (m + 1) as nat) == 0) by (nonlinear_arith)
            requires
                binom(m, (m + 1) as nat) == 0,
        ;
        assert(pow(a + 1, n) == (a + 1) * pow(a + 1, m)) by {
            reveal(pow);
        }
        let s = binom_sum(a, m, (m + 1) as nat);
        assert((a + 1) * s == a * s + s) by (nonlinear_arith);
    }
}

/// Every partial expansion of `(a + 1)^p` that stops at or before the
/// top term is congruent to its constant term 1 modulo the prime `p`:
/// the prime divides every interior coefficient.
proof fn lemma_binom_sum_interior_mod(a: int, p: nat, i: nat)
    requires
        is_prime_spec(p as int),
        1 <= i <= p,
    ensures
        binom_sum(a, p, i) % (p as int) == 1int % (p as int),
    decreases i,
{
    if i == 1 {
        assert(binom_sum(a, p, 0) == 0);
        lemma_pow0(a);
        assert(binom_sum(a, p, 1) == 1);
    } else {
        lemma_binom_sum_interior_mod(a, p, (i - 1) as nat);
        lemma_prime_divides_binom(p, (i - 1) as nat);
        lemma_divides_iff_mod_zero(p as int, binom(p, (i - 1) as nat) as int);
        let w = choose|k: int| binom(p, (i - 1) as nat) as int == #[trigger] (p as int * k);
        let s = binom_sum(a, p, (i - 1) as nat);
        let t = pow(a, (i - 1) as nat);
        assert(binom_sum(a, p, i) == s + p as int * (w * t)) by (nonlinear_arith)
            requires
                binom_sum(a, p, i) == s + binom(p, (i - 1) as nat) as int * t,
                binom(p, (i - 1) as nat) as int == p as int * w,
        ;
        lemma_mod_multiples_vanish(w * t, s, p as int);
    }
}

/// Frobenius step: `a^p == a` modulo the prime `p`, by induction on `a`
/// through the binomial theorem.
proof fn lemma_pow_p_mod(a: nat, p: nat)
    requires
        is_prime_spec(p as int),
    ensures
        pow(a as int, p) % (p as int) == a as int % (p as int),
    decreases a,
{
    if a == 0 {
        lemma0_pow(p);
    } else {
        let b = (a - 1) as nat;
        lemma_pow_p_mod(b, p);
        lemma_binomial_theorem(b as int, p);
        lemma_binom_diag(p);
        lemma_binom_sum_interior_mod(b as int, p, p);
        let s = binom_sum(b as int, p, p);
        let t = pow(b as int, p);
        assert(binom_sum(b as int, p, (p + 1) as nat) == s + binom(p, p) as int * t);
        assert(binom(p, p) as int * t == t) by (nonlinear_arith)
            requires
                binom(p, p) == 1,
        ;
        assert(pow(a as int, p) == s + t);
        lemma_add_mod_noop(s, t, p as int);
        lemma_add_mod_noop(1, b as int, p as int);
        assert((1int % (p as int) + b as int % (p as int)) % (p as int) == (1 + b as int) % (
        p as int));
    }
}

/// A value not divisible by the prime `p` is coprime to it.
proof fn lemma_prime_coprime_of_nonresidue(p: nat, a: nat)
    requires
        is_prime_spec(p as int),
        a % p != 0,
    ensures
        gcd(p, a) == 1,
{
    let g = gcd(p, a);
    lemma_gcd_divides(p, a);
    if g == 0 {
        let w = choose|k: int| p as int == #[trigger] (0int * k);
        assert(false);
    }
    if g != 1 {
        let wp = choose|k: int| p as int == #[trigger] (g as int * k);
        assert(g <= p) by (nonlinear_arith)
            requires
                p as int == g as int * wp,
                g >= 1,
                p >= 2,
        ;
        if g == p {
            lemma_divides_iff_mod_zero(p as int, a as int);
            assert(false);
        } else {
            lemma_divides_iff_mod_zero(g as int, p as int);
            assert(p as int % g as int != 0);
            assert(false);
        }
    }
}

/// Congruent values differ by a multiple of the modulus.
proof fn lemma_mod_eq_divides(x: int, y: int, m: int)
    requires
        m > 0,
        x % m == y % m,
    ensures
        divides(m, x - y),
{
    lemma_fundamental_div_mod(x, m);
    lemma_fundamental_div_mod(y, m);
    assert(x - y == m * (x / m - y / m)) by (nonlinear_arith)
        requires
            x == m * (x / m) + x % m,
            y == m * (y / m) + y % m,
            x % m == y % m,
    ;
}

/// Fermat's little theorem: `a^(p-1) == 1` modulo the prime `p`, for
/// `a` not divisible by `p`.
proof fn lemma_fermat_little(a: nat, p: nat)
    requires
        is_prime_spec(p as int),
        a % p != 0,
    ensures
        pow(a as int, (p - 1) as nat) % (p as int) == 1int % (p as int),
{
    lemma_pow_p_mod(a, p);
    assert(a >= 1) by {
        if a == 0 {
            lemma_small_mod(0nat, p);
        }
    }
    let t = pow(a as int, (p - 1) as nat);
    assert(pow(a as int, p) == a as int * t) by {
        reveal(pow);
    }
    lemma_pow_positive(a as int, (p - 1) as nat);
    lemma_mod_eq_divides(a as int * t, a as int, p as int);
    let k0 = choose|k: int| a as int * t - a as int == #[trigger] (p as int * k);
    let tm1: nat = (t - 1) as nat;
    assert(a as int * (tm1 as int) == p as int * k0) by (nonlinear_arith)
        requires
            a as int * t - a as int == p as int * k0,
            tm1 as int == t - 1,
    ;
    assert(divides(p as int, a as int * tm1 as int));
    lemma_prime_coprime_of_nonresidue(p, a);
    lemma_coprime_divides(p, a, tm1);
    let w = choose|k: int| tm1 as int == #[trigger] (p as int * k);
    assert(t == p as int * w + 1);
    lemma_mod_multiples_vanish(w, 1, p as int);
}

/// Exponent reduction: raising any `a` to `1 + j * (p - 1)` leaves its
/// residue modulo the prime `p` unchanged.
proof fn lemma_pow_exponent_reduction(a: nat, p: nat, j: nat)
    requires
        is_prime_spec(p as int),
    ensures
        pow(a as int, (1 + j * ((p - 1) as nat)) as nat) % (p as int) == a as int % (p as int),
    decreases j,
{
    let e: nat = (1 + j * ((p - 1) as nat)) as nat;
    if a % p == 0 {
        lemma_pow_mod_noop(a as int, e, p as int);
        lemma0_pow(e);
        lemma_small_mod(0nat, p);
        assert(pow(a as int % (p as int), e) == 0);
        assert(pow(a as int, e) % (p as int) == 0int % (p as int));
    } else if j == 0 {
        lemma_pow1(a as int);
        assert(j * ((p - 1) as nat) == 0) by (nonlinear_arith)
            requires
                j == 0,
        ;
        assert(e == 1);
    } else {
        let e1: nat = (1 + (j - 1) as nat * ((p - 1) as nat)) as nat;
        lemma_pow_exponent_reduction(a, p, (j - 1) as nat);
        lemma_fermat_little(a, p);
        assert(e == e1 + (p - 1) as nat) by (nonlinear_arith)
            requires
                e == 1 + j * ((p - 1) as nat),
                e1 == 1 + (j - 1) as nat * ((p - 1) as nat),
                j >= 1,
        ;
        lemma_pow_adds(a as int, e1, (p - 1) as nat);
        let x = pow(a as int, e1);
        let y = pow(a as int, (p - 1) as nat);
        assert(pow(a as int, e) == x * y);
        lemma_mul_mod_noop(x, y, p as int);
        lemma_small_mod(1, p as nat);
        assert(y % (p as int) == 1);
        assert(x % (p as int) == a as int % (p as int));
        lemma_mod_twice(a as int, p as int);
        assert((a as int % (p as int)) * 1 == a as int % (p as int));
        assert((x % (p as int)) * (y % (p as int)) % (p as int) == (x * y) % (p as int));
        assert(pow(a as int, e) % (p as int) == a as int % (p as int));
    }
}

/// Chinese remainder combination: congruence modulo each of two
/// distinct primes is congruence modulo their product.
proof fn lemma_crt_combine(p: nat, q: nat, x: nat, y: nat)
    requires
        is_prime_spec(p as int),
        is_prime_spec(q as int),
        p != q,
        x % p == y % p,
        x % q == y % q,
        y <= x,
    ensures
        x as int % (p as int * q as int) == y as int % (p as int * q as int),
{
    lemma_mod_eq_divides(x as int, y as int, p as int);
    let k = choose|k: int| x as int - y as int == #[trigger] (p as int * k);
    assert(k >= 0) by (nonlinear_arith)
        requires
            x as int - y as int == p as int * k,
            y <= x,
            p >= 2,
    ;
    lemma_mod_eq_divides(x as int, y as int, q as int);
    let kq = choose|k0: int| x as int - y as int == #[trigger] (q as int * k0);
    assert(p as int * ((k as nat) as int) == q as int * kq);
    assert(divides(q as int, p as int * (k as nat) as int));
    lemma_distinct_primes_coprime(q, p);
    lemma_coprime_divides(q, p, k as nat);
    let t = choose|t: int| (k as nat) as int == #[trigger] (q as int * t);
    assert(x as int == (p as int * q as int) * t + y as int) by (nonlinear_arith)
        requires
            x as int - y as int == p as int * k,
            k == q as int * t,
    ;
    assert(p as int * q as int >= 4) by (nonlinear_arith)
        requires
            p >= 2,
            q >= 2,
    ;
    lemma_mod_multiples_vanish(t, y as int, p as int * q as int);
}

/// The heart of RSA: a key pair built on two distinct primes recovers
/// every value below its modulus. Raising `m` to the public exponent,
/// reducing, raising to the private exponent and reducing yields `m`
/// back, whenever the exponents are inverse to each other modulo the
/// totient `(p - 1) * (q - 1)`.
pub proof fn lemma_rsa_recovers(p: nat, q: nat, e: nat, d: nat, m: nat)
    requires
        is_prime_spec(p as int),
        is_prime_spec(q as int),
        p != q,
        (e * d) % (((p - 1) as nat) * ((q - 1) as nat)) == 1,
        m < p * q,
    ensures
        pow(pow(m as int, e) % (p as int * q as int), d) % (p as int * q as int) == m as int,
{
    let n: int = p as int * q as int;
    let phi: nat = ((p - 1) as nat) * ((q - 1) as nat);
    assert(n >= 4 && phi >= 1) by (nonlinear_arith)
        requires
            p >= 2,
            q >= 2,
            n == p as int * q as int,
            phi == ((p - 1) as nat) * ((q - 1) as nat),
    ;
    lemma_pow_mod_noop(pow(m as int, e), d, n);
    lemma_pow_multiplies(m as int, e, d);
    let ed: nat = e * d;
    lemma_fundamental_div_mod(ed as int, phi as int);
    let k: int = ed as int / phi as int;
    vstd::arithmetic::div_mod::lemma_div_pos_is_pos(ed as int, phi as int);
    assert(ed as int == phi as int * k + 1);
    let j1: nat = (k * ((q - 1) as int)) as nat;
    assert(ed == 1 + j1 * ((p - 1) as nat)) by (nonlinear_arith)
        requires
            ed as int == phi as int * k + 1,
            phi == ((p - 1) as nat) * ((q - 1) as nat),
            j1 as int == k * ((q - 1) as int),
            k >= 0,
            q >= 2,
    ;
    lemma_pow_exponent_reduction(m, p, j1);
    let j2: nat = (k * ((p - 1) as int)) as nat;
    assert(ed == 1 + j2 * ((q - 1) as nat)) by (nonlinear_arith)
        requires
            ed as int == phi as int * k + 1,
            phi == ((p - 1) as nat) * ((q - 1) as nat),
            j2 as int == k * ((p - 1) as int),
            k >= 0,
            p >= 2,
    ;
    lemma_pow_exponent_reduction(m, q, j2);
    let x = pow(m as int, ed);
    assert(ed >= 1) by (nonlinear_arith)
        requires
            ed as int == phi as int * k + 1,
            phi >= 1,
            k >= 0,
    ;
    if m == 0 {
        lemma0_pow(ed);
    } else {
        lemma_pow1(m as int);
        lemma_pow_increases(m, 1, ed);
    }
    assert(0 <= x && m as int <= x);
    lemma_crt_combine(p, q, x as nat, m);
    lemma_small_mod(m, (p * q) as nat);
    assert((x as nat) as int == x);
    assert(x % n == m as int);
}

} // verus!
