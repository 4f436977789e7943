//! The mathematical core: what it means for an integer to be prime, the
//! smallest-factor function, and the lemmas about divisors that the trial
//! division routines rest on.
use vstd::arithmetic::div_mod::{
    lemma_fundamental_div_mod, lemma_mod_multiples_basic, lemma_mod_self_0,
};
use vstd::prelude::*;

verus! {

/// `x` is prime: greater than 1 and with no divisor strictly between 1 and `x`.
pub open spec fn is_prime_spec(x: int) -> bool {
    x > 1 && forall|d: int| 1 < d < x ==> #[trigger] (x % d) != 0
}

/// The smallest divisor of `x` that is at least `c`; `x` itself when no
/// divisor lies in `[c, x)`.
pub open spec fn smallest_fac_from(x: int, c: int) -> int
    decreases x - c,
{
    if c >= x || c < 2 {
        x
    } else if x % c == 0 {
        c
    } else {
        smallest_fac_from(x, c + 1)
    }
}

/// The smallest factor of `x` that is greater than 1. For prime `x` this is
/// `x` itself.
pub open spec fn smallest_factor(x: int) -> int {
    smallest_fac_from(x, 2)
}

proof fn lemma_smallest_fac_from_props(x: int, c: int)
    requires
        2 <= c <= x,
    ensures
        c <= smallest_fac_from(x, c) <= x,
        x % smallest_fac_from(x, c) == 0,
        forall|e: int| c <= e < smallest_fac_from(x, c) ==> #[trigger] (x % e) != 0,
    decreases x - c,
{
    if c >= x {
        lemma_mod_self_0(x);
    } else if x % c == 0 {
    } else {
        lemma_smallest_fac_from_props(x, c + 1);
    }
}

/// The smallest factor divides `x`, lies in `[2, x]`, and nothing smaller
/// than it (and greater than 1) divides `x`.
pub proof fn lemma_smallest_factor_props(x: int)
    requires
        x >= 2,
    ensures
        2 <= smallest_factor(x) <= x,
        x % smallest_factor(x) == 0,
        forall|e: int| 1 < e < smallest_factor(x) ==> #[trigger] (x % e) != 0,
{
    lemma_smallest_fac_from_props(x, 2);
}

proof fn lemma_smallest_fac_from_is(x: int, c: int, d: int)
    requires
        2 <= c <= d <= x,
        x % d == 0,
        forall|e: int| c <= e < d ==> #[trigger] (x % e) != 0,
    ensures
        smallest_fac_from(x, c) == d,
    decreases d - c,
{
    if c == d {
    } else {
        lemma_smallest_fac_from_is(x, c + 1, d);
    }
}

/// A divisor of `x` below which nothing divides `x` is the smallest factor.
pub proof fn lemma_smallest_factor_is(x: int, d: int)
    requires
        2 <= d <= x,
        x % d == 0,
        forall|e: int| 1 < e < d ==> #[trigger] (x % e) != 0,
    ensures
        smallest_factor(x) == d,
{
    lemma_smallest_fac_from_is(x, 2, d);
}

/// Divisibility is transitive: if `a` divides `b` and `b` divides `c`,
/// then `a` divides `c`.
pub proof fn lemma_divides_trans(a: int, b: int, c: int)
    requires
        0 < a,
        0 < b,
        0 < c,
        b % a == 0,
        c % b == 0,
    ensures
        c % a == 0,
{
    let k = b / a;
    let m = c / b;
    lemma_fundamental_div_mod(b, a);
    lemma_fundamental_div_mod(c, b);
    assert(c == (k * m) * a) by (nonlinear_arith)
        requires
            b == a * k,
            c == b * m,
    ;
    lemma_mod_multiples_basic(k * m, a);
}

/// The smallest factor of any integer above 1 is prime.
pub proof fn lemma_smallest_factor_prime(x: int)
    requires
        x >= 2,
    ensures
        is_prime_spec(smallest_factor(x)),
{
    let r = smallest_factor(x);
    lemma_smallest_factor_props(x);
    assert forall|e: int| 1 < e < r implies #[trigger] (r % e) != 0 by {
        if r % e == 0 {
            lemma_divides_trans(e, r, x);
        }
    }
}

/// A prime is its own smallest factor.
pub proof fn lemma_prime_smallest_factor(x: int)
    requires
        is_prime_spec(x),
    ensures
        smallest_factor(x) == x,
{
    lemma_mod_self_0(x);
    lemma_smallest_factor_is(x, x);
}

/// A composite has a divisor no greater than 1 strictly below itself,
/// so its smallest factor is strictly smaller than it.
pub proof fn lemma_composite_smallest_factor_lt(x: int)
    requires
        x >= 2,
        !is_prime_spec(x),
    ensures
        smallest_factor(x) < x,
{
    let d = choose|d: int| 1 < d < x && #[trigger] (x % d) == 0;
    lemma_smallest_factor_props(x);
    assert(smallest_factor(x) <= d);
}

/// Every composite `x` has a prime divisor whose square is at most `x`.
pub proof fn lemma_composite_small_prime_factor(x: int)
    requires
        x >= 2,
        !is_prime_spec(x),
    ensures
        exists|q: int|
            is_prime_spec(q) && q * q <= x && #[trigger] (x % q) == 0,
{
    let r = smallest_factor(x);
    lemma_smallest_factor_props(x);
    lemma_smallest_factor_prime(x);
    lemma_composite_smallest_factor_lt(x);
    let m = x / r;
    lemma_fundamental_div_mod(x, r);
    assert(x == r * m);
    assert(1 < m) by (nonlinear_arith)
        requires
            x == r * m,
            2 <= r,
            r < x,
    ;
    lemma_mod_multiples_basic(r, m);
    assert(x % m == 0) by {
        assert(r * m == x);
    }
    assert(m < x) by (nonlinear_arith)
        requires
            x == r * m,
            2 <= r,
            1 < m,
    ;
    assert(r <= m);
    assert(r * r <= x) by (nonlinear_arith)
        requires
            x == r * m,
            2 <= r <= m,
    ;
    assert(is_prime_spec(r) && r * r <= x && x % r == 0);
}

/// 2 is prime.
pub proof fn lemma_two_prime()
    ensures
        is_prime_spec(2),
{
}

/// 3 is prime.
pub proof fn lemma_three_prime()
    ensures
        is_prime_spec(3),
{
    assert forall|d: int| 1 < d < 3 implies #[trigger] (3int % d) != 0 by {
        assert(d == 2);
        assert(3int % 2 == 1);
    }
}

/// Every prime other than 2 is odd.
pub proof fn lemma_prime_odd(x: int)
    requires
        is_prime_spec(x),
        x != 2,
    ensures
        x % 2 == 1,
{
    assert(x > 2);
    assert(x % 2 != 0);
}

/// An even number above 2 is composite.
pub proof fn lemma_even_composite(x: int)
    requires
        x > 2,
        x % 2 == 0,
    ensures
        !is_prime_spec(x),
{
    assert(1 < 2 < x && x % 2 == 0);
}

/// An odd number has no even divisor.
pub proof fn lemma_odd_no_even_divisor(x: int, e: int)
    requires
        0 < x,
        x % 2 == 1,
        0 < e,
        e % 2 == 0,
    ensures
        x % e != 0,
{
    if x % e == 0 {
        lemma_divides_trans(2, e, x);
    }
}

} // verus!
