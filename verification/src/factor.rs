//! Stateless factorization: the first-factor search, prime factorization
//! with and without multiplicity, and a primality test, all independent of
//! any prime cache.
use crate::primality::{
    is_prime_spec, lemma_composite_small_prime_factor, lemma_divides_trans,
    lemma_even_composite, lemma_odd_no_even_divisor, lemma_prime_smallest_factor,
    lemma_smallest_factor_is, lemma_smallest_factor_prime, lemma_smallest_factor_props,
    lemma_two_prime, smallest_factor,
};
use vstd::arithmetic::div_mod::{
    lemma_div_decreases, lemma_div_pos_is_pos, lemma_fundamental_div_mod,
    lemma_mod_multiples_basic, lemma_small_mod,
};
use vstd::prelude::*;

verus! {

/// A sequence of machine words read as mathematical integers.
pub open spec fn to_ints(s: Seq<u64>) -> Seq<int> {
    s.map_values(|v: u64| v as int)
}

/// The prime factorization of `x` with multiplicity, in non-decreasing
/// order; empty when `x` has no prime factors (that is, for `x <= 1`).
pub open spec fn spec_factors(x: int) -> Seq<int>
    decreases x,
{
    if x <= 1 {
        Seq::empty()
    } else {
        proof {
            lemma_smallest_factor_props(x);
            lemma_div_decreases(x, smallest_factor(x));
            lemma_div_pos_is_pos(x, smallest_factor(x));
        }
        seq![smallest_factor(x)] + spec_factors(x / smallest_factor(x))
    }
}

/// `s` with runs of consecutive equal elements collapsed to one element.
pub open spec fn dedup(s: Seq<int>) -> Seq<int>
    decreases s.len(),
{
    if s.len() <= 1 {
        s
    } else if s[0] == s[1] {
        dedup(s.drop_first())
    } else {
        seq![s[0]] + dedup(s.drop_first())
    }
}

/// `x` with every factor of `d` divided out.
pub open spec fn strip(x: int, d: int) -> int
    decreases x,
{
    if 2 <= d && 2 <= x && x % d == 0 {
        proof {
            lemma_div_decreases(x, d);
            lemma_div_pos_is_pos(x, d);
        }
        strip(x / d, d)
    } else {
        x
    }
}

/// The product of a sequence of integers; 1 for the empty sequence.
pub open spec fn prod(s: Seq<int>) -> int
    decreases s.len(),
{
    if s.len() == 0 {
        1
    } else {
        s[0] * prod(s.drop_first())
    }
}

/// Does `d * d` exceed `x`? Computed in 128-bit arithmetic, which cannot
/// overflow for 64-bit inputs.
pub(crate) fn square_exceeds(d: u64, x: u64) -> (r: bool)
    ensures
        r == ((d as int) * (d as int) > x as int),
{
    proof {
        assert((d as int) * (d as int) < 0x100000000000000000000000000000000int)
            by (nonlinear_arith)
            requires
                (d as int) < 0x10000000000000000int,
        ;
    }
    (d as u128) * (d as u128) > (x as u128)
}

/// Find the first factor (other than 1) of a number. Returns the number
/// itself exactly when it is prime.
pub fn firstfac(x: u64) -> (r: u64)
    requires
        x >= 2,
    ensures
        r as int == smallest_factor(x as int),
        1 < r <= x,
        (x as int) % (r as int) == 0,
        is_prime_spec(r as int),
        (r == x) <==> is_prime_spec(x as int),
{
    if x % 2 == 0 {
        proof {
            lemma_smallest_factor_is(x as int, 2);
            lemma_smallest_factor_prime(x as int);
            if x > 2 {
                lemma_even_composite(x as int);
            } else {
                lemma_two_prime();
            }
        }
        return 2;
    }
    let mut d: u64 = 3;
    while !square_exceeds(d, x)
        invariant
            3 <= x,
            x % 2 != 0,
            3 <= d <= x + 2,
            d % 2 == 1,
            forall|e: int| 1 < e < d ==> #[trigger] ((x as int) % e) != 0,
        decreases x + 2 - d,
    {
        if x % d == 0 {
            proof {
                assert(d <= x) by (nonlinear_arith)
                    requires
                        (d as int) * (d as int) <= x as int,
                        3 <= d,
                ;
                lemma_smallest_factor_is(x as int, d as int);
                lemma_smallest_factor_prime(x as int);
                assert(d < x) by (nonlinear_arith)
                    requires
                        (d as int) * (d as int) <= x as int,
                        3 <= d,
                ;
            }
            return d;
        }
        proof {
            lemma_odd_no_even_divisor(x as int, d as int + 1);
            assert(d + 2 <= x) by (nonlinear_arith)
                requires
                    (d as int) * (d as int) <= x as int,
                    3 <= d,
                ;
        }
        d = d + 2;
    }
    proof {
        if !is_prime_spec(x as int) {
            lemma_composite_small_prime_factor(x as int);
            let q = choose|q: int|
                is_prime_spec(q) && q * q <= x as int && #[trigger] ((x as int) % q) == 0;
            assert(q < d) by (nonlinear_arith)
                requires
                    q * q <= x as int,
                    (x as int) < (d as int) * (d as int),
                    q >= 2,
                    d >= 3,
                ;
            assert((x as int) % q != 0);
        }
        lemma_prime_smallest_factor(x as int);
    }
    x
}

proof fn lemma_to_ints_push(s: Seq<u64>, v: u64)
    ensures
        to_ints(s.push(v)) == to_ints(s).push(v as int),
{
    assert(to_ints(s.push(v)) =~= to_ints(s).push(v as int));
}

/// A proper divisor leaves a quotient of at least 2.
proof fn lemma_quotient_ge_two(x: int, d: int)
    requires
        2 <= d < x,
        x % d == 0,
    ensures
        2 <= x / d < x,
        x == d * (x / d),
{
    lemma_fundamental_div_mod(x, d);
    lemma_div_pos_is_pos(x, d);
    lemma_div_decreases(x, d);
    assert(x / d >= 2) by (nonlinear_arith)
        requires
            x == d * (x / d),
            2 <= d < x,
            x / d >= 0,
    ;
}

/// Find all prime factors of a number, with multiplicity, in non-decreasing
/// order. Returns the empty vector for inputs 0 and 1.
pub fn factors(x: u64) -> (r: Vec<u64>)
    ensures
        to_ints(r@) == spec_factors(x as int),
{
    let mut lst: Vec<u64> = Vec::new();
    if x <= 1 {
        proof {
            assert(to_ints(lst@) =~= Seq::<int>::empty());
        }
        return lst;
    }
    let mut cur: u64 = x;
    loop
        invariant_except_break
            2 <= cur <= x,
            spec_factors(x as int) == to_ints(lst@) + spec_factors(cur as int),
        ensures
            to_ints(lst@) == spec_factors(x as int),
        decreases cur,
    {
        let d = firstfac(cur);
        proof {
            lemma_to_ints_push(lst@, d);
        }
        let ghost prev = to_ints(lst@);
        lst.push(d);
        if d == cur {
            proof {
                vstd::arithmetic::div_mod::lemma_div_by_self(cur as int);
                assert(spec_factors(cur as int) =~= seq![cur as int]);
                assert(to_ints(lst@) =~= prev + spec_factors(cur as int));
            }
            break;
        }
        proof {
            lemma_quotient_ge_two(cur as int, d as int);
            assert(spec_factors(cur as int).drop_first() =~= spec_factors(
                cur as int / (d as int),
            ));
            assert(to_ints(lst@) + spec_factors(cur as int / (d as int)) =~= prev
                + spec_factors(cur as int));
        }
        cur = cur / d;
    }
    lst
}

/// Collapsing consecutive duplicates in the factorization of `y` is the same
/// as taking the smallest factor once and then factorizing `y` with that
/// factor fully divided out.
proof fn lemma_dedup_strip(y: int)
    requires
        y >= 2,
    ensures
        dedup(spec_factors(y)) == seq![smallest_factor(y)] + dedup(
            spec_factors(strip(y, smallest_factor(y))),
        ),
    decreases y,
{
    let d = smallest_factor(y);
    lemma_smallest_factor_props(y);
    let m = y / d;
    lemma_fundamental_div_mod(y, d);
    lemma_div_pos_is_pos(y, d);
    lemma_div_decreases(y, d);
    assert(m >= 1) by (nonlinear_arith)
        requires
            y == d * m,
            y >= 2,
            d >= 2,
            m >= 0,
    ;
    let s = spec_factors(y);
    assert(s == seq![d] + spec_factors(m));
    assert(s[0] == d);
    assert(s.drop_first() =~= spec_factors(m));
    assert(strip(y, d) == strip(m, d));
    if m == 1 {
        assert(s =~= seq![d]);
        assert(dedup(s) == s);
        assert(strip(1, d) == 1);
        assert(dedup(spec_factors(1)) =~= Seq::<int>::empty());
        assert(seq![d] + Seq::<int>::empty() =~= seq![d]);
    } else {
        lemma_smallest_factor_props(m);
        lemma_mod_multiples_basic(d, m);
        assert(y % m == 0);
        if m % d == 0 {
            assert forall|e: int| 1 < e < d implies #[trigger] (m % e) != 0 by {
                if m % e == 0 {
                    lemma_divides_trans(e, m, y);
                }
            }
            if d > m {
                lemma_small_mod(m as nat, d as nat);
            }
            lemma_smallest_factor_is(m, d);
            lemma_quotient_ge_two(y, d);
            assert(spec_factors(m) == seq![d] + spec_factors(m / d));
            assert(spec_factors(m)[0] == d);
            assert(s[1] == d);
            assert(dedup(s) == dedup(s.drop_first()));
            lemma_dedup_strip(m);
        } else {
            let dm = smallest_factor(m);
            assert(spec_factors(m) == seq![dm] + spec_factors(m / dm));
            assert(s[1] == dm);
            assert(m % dm == 0);
            assert(dm != d);
            assert(dedup(s) == seq![s[0]] + dedup(s.drop_first()));
            assert(strip(m, d) == m);
        }
    }
}

/// Find all unique prime factors of a number, each exactly once, in
/// increasing order. Returns the empty vector for inputs 0 and 1.
pub fn factors_unique(x: u64) -> (r: Vec<u64>)
    ensures
        to_ints(r@) == dedup(spec_factors(x as int)),
{
    let mut lst: Vec<u64> = Vec::new();
    if x <= 1 {
        proof {
            assert(to_ints(lst@) =~= Seq::<int>::empty());
        }
        return lst;
    }
    let mut cur: u64 = x;
    loop
        invariant_except_break
            2 <= cur <= x,
            dedup(spec_factors(x as int)) == to_ints(lst@) + dedup(spec_factors(cur as int)),
        ensures
            to_ints(lst@) == dedup(spec_factors(x as int)),
        decreases cur,
    {
        let d = firstfac(cur);
        proof {
            lemma_to_ints_push(lst@, d);
            lemma_dedup_strip(cur as int);
        }
        let ghost prev = to_ints(lst@);
        let ghost target = strip(cur as int, d as int);
        lst.push(d);
        proof {
            assert(to_ints(lst@) + dedup(spec_factors(target)) =~= prev + dedup(
                spec_factors(cur as int),
            ));
        }
        if d == cur {
            proof {
                vstd::arithmetic::div_mod::lemma_div_by_self(cur as int);
                assert(strip(1, d as int) == 1);
                assert(target == 1);
                assert(dedup(spec_factors(1)) =~= Seq::<int>::empty());
                assert(to_ints(lst@) =~= to_ints(lst@) + Seq::<int>::empty());
            }
            break;
        }
        let ghost entry = cur as int;
        proof {
            lemma_quotient_ge_two(cur as int, d as int);
            assert(strip(cur as int, d as int) == strip(cur as int / (d as int), d as int));
        }
        cur = cur / d;
        while cur % d == 0
            invariant
                1 <= cur < entry,
                entry <= x,
                2 <= d,
                strip(cur as int, d as int) == target,
            decreases cur,
        {
            proof {
                lemma_small_mod(1nat, d as nat);
                assert(cur >= 2);
                if cur < d {
                    lemma_small_mod(cur as nat, d as nat);
                }
                vstd::arithmetic::div_mod::lemma_div_non_zero(cur as int, d as int);
                lemma_div_decreases(cur as int, d as int);
                assert(strip(cur as int, d as int) == strip(
                    cur as int / (d as int),
                    d as int,
                ));
            }
            cur = cur / d;
        }
        proof {
            assert(strip(cur as int, d as int) == cur as int);
            assert(target == cur as int);
        }
        if cur == 1 {
            proof {
                assert(dedup(spec_factors(1)) =~= Seq::<int>::empty());
                assert(to_ints(lst@) =~= to_ints(lst@) + Seq::<int>::empty());
            }
            break;
        }
    }
    lst
}

/// The factors of `x` multiply back to `x`: the product of the prime
/// factorization of any positive integer is that integer.
pub proof fn lemma_factors_product(x: int)
    requires
        x >= 1,
    ensures
        prod(spec_factors(x)) == x,
    decreases x,
{
    if x == 1 {
    } else {
        let d = smallest_factor(x);
        lemma_smallest_factor_props(x);
        let m = x / d;
        lemma_fundamental_div_mod(x, d);
        lemma_div_pos_is_pos(x, d);
        lemma_div_decreases(x, d);
        assert(m >= 1) by (nonlinear_arith)
            requires
                x == d * m,
                x >= 2,
                d >= 2,
                m >= 0,
        ;
        lemma_factors_product(m);
        let s = spec_factors(x);
        assert(s == seq![d] + spec_factors(m));
        assert(s.len() > 0);
        assert(s[0] == d);
        assert(s.drop_first() =~= spec_factors(m));
        assert(prod(s) == d * prod(spec_factors(m)));
    }
}

/// Every entry of the factorization is prime, divides `x`, and the entries
/// come in non-decreasing order.
pub proof fn lemma_spec_factors_properties(x: int)
    requires
        x >= 1,
    ensures
        forall|i: int|
            0 <= i < spec_factors(x).len() ==> is_prime_spec(#[trigger] spec_factors(x)[i]),
        forall|i: int|
            0 <= i < spec_factors(x).len() ==> x % (#[trigger] spec_factors(x)[i]) == 0,
        forall|i: int, j: int|
            0 <= i <= j < spec_factors(x).len() ==> spec_factors(x)[i] <= spec_factors(x)[j],
    decreases x,
{
    if x == 1 {
    } else {
        let d = smallest_factor(x);
        lemma_smallest_factor_props(x);
        lemma_smallest_factor_prime(x);
        let m = x / d;
        lemma_fundamental_div_mod(x, d);
        lemma_div_pos_is_pos(x, d);
        lemma_div_decreases(x, d);
        assert(m >= 1) by (nonlinear_arith)
            requires
                x == d * m,
                x >= 2,
                d >= 2,
                m >= 0,
        ;
        lemma_spec_factors_properties(m);
        lemma_mod_multiples_basic(d, m);
        assert(x % m == 0);
        let s = spec_factors(x);
        assert(s == seq![d] + spec_factors(m));
        assert(s[0] == d);
        assert(forall|i: int| 1 <= i < s.len() ==> s[i] == spec_factors(m)[i - 1]);
        assert forall|i: int| 0 <= i < s.len() implies x % (#[trigger] s[i]) == 0 by {
            if i >= 1 {
                lemma_divides_trans(s[i], m, x);
            }
        }
        assert forall|i: int| 0 <= i < s.len() implies is_prime_spec(#[trigger] s[i]) by {}
        assert forall|i: int, j: int| 0 <= i <= j < s.len() implies s[i] <= s[j] by {
            if i == 0 && j >= 1 {
                assert(x % s[j] == 0);
                assert(s[j] > 1);
            }
        }
    }
}

/// Tests whether a number is prime. Checks every odd number up to `sqrt(n)`.
pub fn is_prime(n: u64) -> (r: bool)
    ensures
        r == is_prime_spec(n as int),
{
    if n <= 1 {
        false
    } else {
        let f = firstfac(n);
        f == n
    }
}

} // verus!
