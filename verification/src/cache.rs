//! The prime cache and its expander: a growable, strictly increasing list of
//! every prime found so far, extended one prime at a time by trial division
//! against the primes already cached.
use crate::factor::square_exceeds;
use crate::primality::{
    is_prime_spec, lemma_composite_small_prime_factor, lemma_even_composite, lemma_prime_odd,
    lemma_three_prime, lemma_two_prime,
};
use vstd::prelude::*;

verus! {

/// A well-formed prime cache: seeded with 2 and 3, strictly increasing,
/// every entry prime, and no prime missing between adjacent entries — so the
/// cache is exactly the initial run of the prime sequence.
pub open spec fn prime_cache_ok(s: Seq<u64>) -> bool {
    &&& s.len() >= 2
    &&& s[0] == 2
    &&& s[1] == 3
    &&& forall|i: int| 0 <= i < s.len() ==> is_prime_spec(#[trigger] (s[i] as int))
    &&& forall|i: int, j: int| 0 <= i < j < s.len() ==> s[i] < s[j]
    &&& forall|i: int, q: int|
        #![trigger s[i], is_prime_spec(q)]
        0 <= i < s.len() - 1 && (s[i] as int) < q < (s[i + 1] as int) ==> !is_prime_spec(q)
}

/// `q` is the smallest prime at or above `n`.
pub open spec fn next_prime_from(n: int, q: int) -> bool {
    &&& is_prime_spec(q)
    &&& n <= q
    &&& forall|m: int| n <= m < q ==> !is_prime_spec(m)
}

/// At least `k` primes are representable in 64 bits: some well-formed cache
/// holds `k` of them.
#[verifier::opaque]
pub open spec fn enough_primes(k: int) -> bool {
    exists|t: Seq<u64>| prime_cache_ok(t) && t.len() >= k
}

/// Any two well-formed caches agree wherever both are defined: the prime
/// sequence is unique.
pub proof fn lemma_cache_agree(s: Seq<u64>, t: Seq<u64>, i: int)
    requires
        prime_cache_ok(s),
        prime_cache_ok(t),
        0 <= i < s.len(),
        i < t.len(),
    ensures
        s[i] == t[i],
    decreases i,
{
    if i <= 1 {
    } else {
        lemma_cache_agree(s, t, i - 1);
        if s[i] < t[i] {
            assert((t[i - 1] as int) < (s[i] as int) < (t[i] as int));
            assert(!is_prime_spec(s[i] as int));
        }
        if t[i] < s[i] {
            assert((s[i - 1] as int) < (t[i] as int) < (s[i] as int));
            assert(!is_prime_spec(t[i] as int));
        }
    }
}

/// A well-formed cache contains every prime up to its largest entry.
#[verifier::rlimit(100)]
pub proof fn lemma_cache_contains_all(s: Seq<u64>, q: int)
    requires
        prime_cache_ok(s),
        is_prime_spec(q),
        q <= s.last() as int,
    ensures
        exists|i: int| 0 <= i < s.len() && s[i] as int == q,
    decreases s.len(),
{
    let n = s.len() as int;
    if q == s.last() as int {
        assert(s[n - 1] as int == q);
    } else if q > s[n - 2] as int {
        assert((s[n - 2] as int) < q < (s[n - 1] as int));
        assert(false);
    } else if n == 2 {
        assert(q <= 3);
        assert(q >= 2);
        if q == 2 {
            assert(s[0] as int == q);
        } else {
            assert(s[1] as int == q);
        }
    } else {
        let s2 = s.drop_last();
        assert(s2.len() == n - 1);
        assert(forall|i: int| 0 <= i < n - 1 ==> s2[i] == s[i]);
        assert(prime_cache_ok(s2));
        lemma_cache_contains_all(s2, q);
        let w = choose|i: int| 0 <= i < s2.len() && s2[i] as int == q;
        assert(s[w] as int == q);
    }
}

/// Appending the next prime keeps a cache well-formed.
proof fn lemma_cache_push(s: Seq<u64>, c: u64)
    requires
        prime_cache_ok(s),
        s.last() < c,
        is_prime_spec(c as int),
        forall|m: int| (s.last() as int) < m < c as int ==> !is_prime_spec(m),
    ensures
        prime_cache_ok(s.push(c)),
{
    let s1 = s.push(c);
    let n = s.len() as int;
    assert(forall|i: int| 0 <= i < n ==> s1[i] == s[i]);
    assert(s1[n] == c);
    assert forall|i: int| 0 <= i < s1.len() implies is_prime_spec(#[trigger] (s1[i] as int)) by {
        if i < n {
            assert(is_prime_spec(s[i] as int));
        }
    }
    assert forall|i: int, j: int| 0 <= i < j < s1.len() implies s1[i] < s1[j] by {
        if j < n {
            assert(s[i] < s[j]);
        } else {
            if i < n - 1 {
                assert(s[i] < s[n - 1]);
            }
        }
    }
    assert forall|i: int, q: int|
        #![trigger s1[i], is_prime_spec(q)]
        0 <= i < s1.len() - 1 && (s1[i] as int) < q < (s1[i + 1] as int) implies !is_prime_spec(
        q,
    ) by {
        if i < n - 1 {
            assert((s[i] as int) < q < (s[i + 1] as int));
        } else {
            assert((s.last() as int) < q < (c as int));
        }
    }
}

/// No prime lies strictly between `n` and the first cached entry at or
/// above `n`.
pub proof fn lemma_first_ge_is_next_prime(s: Seq<u64>, i: int, n: int)
    requires
        prime_cache_ok(s),
        0 <= i < s.len(),
        n <= s[i] as int,
        forall|j: int| 0 <= j < i ==> (s[j] as int) < n,
    ensures
        next_prime_from(n, s[i] as int),
{
    assert forall|m: int| n <= m < (s[i] as int) implies !is_prime_spec(m) by {
        if i == 0 {
            assert(m < 2);
        } else {
            assert((s[i - 1] as int) < n);
            assert((s[i - 1] as int) < m < (s[i] as int));
        }
    }
}

/// A prefix of one well-formed cache inside another, element by element.
pub proof fn lemma_cache_prefix(s: Seq<u64>, t: Seq<u64>)
    requires
        prime_cache_ok(s),
        prime_cache_ok(t),
        s.len() <= t.len(),
    ensures
        s.is_prefix_of(t),
{
    assert forall|i: int| 0 <= i < s.len() implies s[i] == t[i] by {
        lemma_cache_agree(s, t, i);
    }
    assert(s =~= t.take(s.len() as int));
}

/// If the cache were extended past an index, the cached entries would not
/// change: so a longer well-formed cache witnesses a prime larger than the
/// last entry of a shorter one.
proof fn lemma_can_expand(s: Seq<u64>, k: int)
    requires
        prime_cache_ok(s),
        enough_primes(k),
        s.len() < k,
    ensures
        exists|q: int| (s.last() as int) < q <= u64::MAX as int && is_prime_spec(q),
{
    reveal(enough_primes);
    let t = choose|t: Seq<u64>| prime_cache_ok(t) && t.len() >= k;
    let n = s.len() as int;
    lemma_cache_agree(s, t, n - 1);
    assert(t[n - 1] < t[n]);
    assert(is_prime_spec(t[n] as int));
    assert((s.last() as int) < (t[n] as int) <= u64::MAX as int);
}

/// The completeness argument behind the expander: a candidate above the
/// whole cache, with no prime skipped below it, that no cached prime with a
/// small enough square divides, is itself prime.
proof fn lemma_trial_division_complete(s: Seq<u64>, c: int)
    requires
        prime_cache_ok(s),
        (s.last() as int) < c,
        forall|m: int| (s.last() as int) < m < c ==> !is_prime_spec(m),
        forall|j: int|
            0 <= j < s.len() && (s[j] as int) * (s[j] as int) <= c ==> c % (s[j] as int) != 0,
    ensures
        is_prime_spec(c),
{
    if !is_prime_spec(c) {
        assert(c >= 4);
        lemma_composite_small_prime_factor(c);
        let q = choose|q: int| is_prime_spec(q) && q * q <= c && #[trigger] (c % q) == 0;
        assert(q < c) by (nonlinear_arith)
            requires
                q >= 2,
                q * q <= c,
        ;
        assert(q <= s.last() as int);
        lemma_cache_contains_all(s, q);
        let w = choose|i: int| 0 <= i < s.len() && s[i] as int == q;
        assert((s[w] as int) * (s[w] as int) <= c);
        assert(c % (s[w] as int) != 0);
        assert(false);
    }
}

/**
A prime generator, using the Trial Division method.

Create with `let mut pset = TrialDivision::new()`, and then walk its primes
with the cursors from `iter()`, `generator()` or `iter_vec()`.
**/
#[derive(Clone)]
pub struct TrialDivision {
    lst: Vec<u64>,
}

pub trait PrimeSetBasics: Sized {
    /// The cached primes, as a mathematical sequence.
    spec fn primes_seq(&self) -> Seq<u64>;

    /// Finds one more prime, and adds it to the list.
    fn expand(&mut self)
        requires
            prime_cache_ok(old(self).primes_seq()),
            exists|q: int|
                (old(self).primes_seq().last() as int) < q <= u64::MAX as int && is_prime_spec(q),
        ensures
            prime_cache_ok(final(self).primes_seq()),
            final(self).primes_seq() == old(self).primes_seq().push(
                final(self).primes_seq().last(),
            ),
            next_prime_from(
                old(self).primes_seq().last() as int + 1,
                final(self).primes_seq().last() as int,
            ),
    ;

    /// Returns all primes found so far as a slice.
    fn list(&self) -> (r: &[u64])
        ensures
            r@ == self.primes_seq(),
    ;
}

impl TrialDivision {
    /// A new prime generator, primed with 2 and 3.
    pub fn new() -> (r: TrialDivision)
        ensures
            r.primes_seq() == seq![2u64, 3u64],
            prime_cache_ok(r.primes_seq()),
    {
        let mut lst: Vec<u64> = Vec::new();
        lst.push(2);
        lst.push(3);
        proof {
            assert(lst@ =~= seq![2u64, 3u64]);
            lemma_two_prime();
            lemma_three_prime();
            assert forall|i: int| 0 <= i < lst@.len() implies is_prime_spec(
                #[trigger] (lst@[i] as int),
            ) by {
                if i == 0 {
                } else {
                    assert(i == 1);
                }
            }
        }
        TrialDivision { lst }
    }
}

impl Default for TrialDivision {
    /// A fresh generator, identical to `TrialDivision::new()`.
    fn default() -> (r: TrialDivision)
        ensures
            r.primes_seq() == seq![2u64, 3u64],
            prime_cache_ok(r.primes_seq()),
    {
        TrialDivision::new()
    }
}

impl PrimeSetBasics for TrialDivision {
    closed spec fn primes_seq(&self) -> Seq<u64> {
        self.lst@
    }

    /// Finds one more prime and adds it to the list.
    fn expand(&mut self) {
        let ghost s0 = self.lst@;
        let ghost q = choose|q: int|
            (s0.last() as int) < q <= u64::MAX as int && is_prime_spec(q);
        let l0 = self.lst[self.lst.len() - 1];
        proof {
            assert(l0 == s0.last());
            assert(s0[1] <= s0[s0.len() - 1]);
            lemma_prime_odd(l0 as int);
            lemma_prime_odd(q);
            assert(q != l0 as int + 1);
            assert(q >= l0 as int + 2);
            lemma_even_composite(l0 as int + 1);
            assert forall|m: int| (l0 as int) < m < (l0 as int + 2) implies !is_prime_spec(m) by {
                assert(m == l0 as int + 1);
            }
        }
        let mut cand: u64 = l0 + 2;
        loop
            invariant_except_break
                self.lst@ == s0,
                prime_cache_ok(s0),
                (s0.last() as int) < q <= u64::MAX as int,
                is_prime_spec(q),
                l0 == s0.last(),
                l0 as int + 2 <= cand as int <= q,
                cand % 2 == 1,
                forall|m: int| (l0 as int) < m < (cand as int) ==> !is_prime_spec(m),
            ensures
                prime_cache_ok(self.lst@),
                self.lst@ == s0.push(self.lst@.last()),
                next_prime_from(s0.last() as int + 1, self.lst@.last() as int),
            decreases q - cand,
        {
            let mut i: usize = 0;
            let mut composite = false;
            while i < self.lst.len()
                invariant_except_break
                    self.lst@ == s0,
                    prime_cache_ok(s0),
                    l0 == s0.last(),
                    (l0 as int) < cand as int,
                    i <= s0.len(),
                    composite == false,
                    forall|j: int| 0 <= j < i ==> (cand as int) % (s0[j] as int) != 0,
                ensures
                    self.lst@ == s0,
                    composite ==> !is_prime_spec(cand as int),
                    !composite ==> forall|j: int|
                        0 <= j < s0.len() && (s0[j] as int) * (s0[j] as int) <= cand as int
                            ==> (cand as int) % (s0[j] as int) != 0,
                decreases s0.len() - i,
            {
                let p = vstd::slice::slice_index_get(self.lst.as_slice(), i);
                proof {
                    assert(is_prime_spec(s0[i as int] as int));
                    if i < self.lst.len() - 1 {
                        assert(s0[i as int] < s0[s0.len() - 1]);
                    }
                    assert(*p <= l0);
                }
                if cand % *p == 0 {
                    composite = true;
                    proof {
                        assert(1 < (*p as int) < (cand as int));
                        assert((cand as int) % (*p as int) == 0);
                        assert(!is_prime_spec(cand as int));
                    }
                    break;
                }
                if square_exceeds(*p, cand) {
                    proof {
                        assert forall|j: int|
                            0 <= j < s0.len() && (s0[j] as int) * (s0[j] as int) <= cand as int
                                implies (cand as int) % (s0[j] as int) != 0 by {
                            if j >= i {
                                assert(s0[i as int] <= s0[j]);
                                assert((s0[j] as int) * (s0[j] as int) >= (s0[i as int] as int) * (
                                s0[i as int] as int)) by (nonlinear_arith)
                                    requires
                                        0 <= (s0[i as int] as int) <= (s0[j] as int),
                                ;
                                assert(false);
                            }
                        }
                    }
                    break;
                }
                i += 1;
            }
            if composite {
                proof {
                    lemma_even_composite(cand as int + 1);
                    assert(q >= cand as int + 2);
                }
                cand = cand + 2;
            } else {
                proof {
                    lemma_trial_division_complete(s0, cand as int);
                }
                self.lst.push(cand);
                proof {
                    lemma_cache_push(s0, cand);
                    assert(self.lst@ == s0.push(cand));
                    assert(self.lst@.last() == cand);
                }
                break;
            }
        }
    }

    /// Returns all primes found so far as a slice.
    fn list(&self) -> (r: &[u64]) {
        self.lst.as_slice()
    }
}

/// A cursor over the primes of a generator. It holds only a position and an
/// expansion policy; the generator itself is passed to each `next` call, so
/// the borrow rules stay simple under verification.
pub struct PrimeSetIter {
    n: usize,
    expand: bool,
}

impl PrimeSetIter {
    /// The position of the cursor: how many primes it has already yielded.
    pub closed spec fn pos(&self) -> int {
        self.n as int
    }

    /// Whether the cursor may trigger further expansion of the cache.
    pub closed spec fn expanding(&self) -> bool {
        self.expand
    }

    /// The next prime under the cursor. With expansion on, this always
    /// yields the prime at the cursor's position, growing the cache as
    /// needed; with expansion off, it yields `None` once the cached primes
    /// are exhausted.
    #[verifier::rlimit(100)]
    pub fn next<P: PrimeSetBasics>(&mut self, pset: &mut P) -> (r: Option<u64>)
        requires
            prime_cache_ok(old(pset).primes_seq()),
            old(self).expanding() ==> enough_primes(old(self).pos() + 1),
        ensures
            prime_cache_ok(final(pset).primes_seq()),
            old(pset).primes_seq().is_prefix_of(final(pset).primes_seq()),
            final(self).expanding() == old(self).expanding(),
            old(self).expanding() ==> {
                &&& final(pset).primes_seq().len() == (if old(self).pos() < old(
                    pset,
                ).primes_seq().len() {
                    old(pset).primes_seq().len() as int
                } else {
                    old(self).pos() + 1
                })
                &&& r == Some(final(pset).primes_seq()[old(self).pos()])
                &&& final(self).pos() == old(self).pos() + 1
            },
            !old(self).expanding() ==> {
                &&& final(pset).primes_seq() == old(pset).primes_seq()
                &&& if old(self).pos() < old(pset).primes_seq().len() {
                    r == Some(old(pset).primes_seq()[old(self).pos()]) && final(self).pos() == old(
                        self,
                    ).pos() + 1
                } else {
                    r == None::<u64> && final(self).pos() == old(self).pos()
                }
            },
    {
        if self.expand {
            ensure_past_index(pset, self.n);
            let l = pset.list();
            let m = l.len();
            let v = *vstd::slice::slice_index_get(l, self.n);
            self.n = self.n + 1;
            Some(v)
        } else {
            let l = pset.list();
            if self.n < l.len() {
                let v = *vstd::slice::slice_index_get(l, self.n);
                self.n = self.n + 1;
                Some(v)
            } else {
                None
            }
        }
    }
}

/// Grow the cache until it holds an entry at position `k`: one expansion per
/// missing entry, none when position `k` is already cached.
#[verifier::rlimit(100)]
fn ensure_past_index<P: PrimeSetBasics>(pset: &mut P, k: usize)
    requires
        prime_cache_ok(old(pset).primes_seq()),
        enough_primes(k as int + 1),
    ensures
        prime_cache_ok(final(pset).primes_seq()),
        old(pset).primes_seq().is_prefix_of(final(pset).primes_seq()),
        final(pset).primes_seq().len() == (if old(pset).primes_seq().len() > k as int {
            old(pset).primes_seq().len() as int
        } else {
            k as int + 1
        }),
        old(pset).primes_seq().len() > k as int ==> final(pset).primes_seq() == old(
            pset,
        ).primes_seq(),
{
    loop
        invariant_except_break
            prime_cache_ok(pset.primes_seq()),
            old(pset).primes_seq().is_prefix_of(pset.primes_seq()),
            enough_primes(k as int + 1),
            old(pset).primes_seq().len() <= k as int ==> pset.primes_seq().len() <= k as int + 1,
            old(pset).primes_seq().len() > k as int ==> pset.primes_seq() == old(
                pset,
            ).primes_seq(),
        ensures
            prime_cache_ok(pset.primes_seq()),
            old(pset).primes_seq().is_prefix_of(pset.primes_seq()),
            pset.primes_seq().len() > k as int,
            old(pset).primes_seq().len() <= k as int ==> pset.primes_seq().len() <= k as int + 1,
            old(pset).primes_seq().len() > k as int ==> pset.primes_seq() == old(
                pset,
            ).primes_seq(),
        decreases k as int + 1 - pset.primes_seq().len(),
    {
        let l = pset.list();
        if l.len() > k {
            break;
        }
        proof {
            lemma_can_expand(pset.primes_seq(), k as int + 1);
            let ghost mid = pset.primes_seq();
            assert(mid.is_prefix_of(mid.push(mid.last())));
        }
        let ghost before = pset.primes_seq();
        pset.expand();
        proof {
            lemma_prefix_trans(old(pset).primes_seq(), before, pset.primes_seq());
        }
    }
}

/// Grow the cache until its last entry is at least `n`; when growth was
/// needed, that entry is the smallest prime at or above `n`.
#[verifier::rlimit(100)]
fn expand_to_cover<P: PrimeSetBasics>(pset: &mut P, n: u64)
    requires
        prime_cache_ok(old(pset).primes_seq()),
        exists|q: int| n as int <= q <= u64::MAX as int && is_prime_spec(q),
    ensures
        prime_cache_ok(final(pset).primes_seq()),
        old(pset).primes_seq().is_prefix_of(final(pset).primes_seq()),
        n <= final(pset).primes_seq().last(),
        n <= old(pset).primes_seq().last() ==> final(pset).primes_seq() == old(pset).primes_seq(),
        n > old(pset).primes_seq().last() ==> next_prime_from(
            n as int,
            final(pset).primes_seq().last() as int,
        ),
{
    let ghost q = choose|q: int| n as int <= q <= u64::MAX as int && is_prime_spec(q);
    loop
        invariant_except_break
            prime_cache_ok(pset.primes_seq()),
            old(pset).primes_seq().is_prefix_of(pset.primes_seq()),
            n as int <= q <= u64::MAX as int,
            is_prime_spec(q),
            n <= old(pset).primes_seq().last() ==> pset.primes_seq() == old(pset).primes_seq(),
            n > old(pset).primes_seq().last() ==> ((pset.primes_seq().last() as int) < n as int
                || next_prime_from(n as int, pset.primes_seq().last() as int)),
        ensures
            prime_cache_ok(pset.primes_seq()),
            old(pset).primes_seq().is_prefix_of(pset.primes_seq()),
            n <= pset.primes_seq().last(),
            n <= old(pset).primes_seq().last() ==> pset.primes_seq() == old(pset).primes_seq(),
            n > old(pset).primes_seq().last() ==> next_prime_from(
                n as int,
                pset.primes_seq().last() as int,
            ),
        decreases q - pset.primes_seq().last(),
    {
        let l = pset.list();
        let last = *vstd::slice::slice_index_get(l, l.len() - 1);
        if n <= last {
            break;
        }
        proof {
            let ghost mid = pset.primes_seq();
            assert(mid.is_prefix_of(mid.push(mid.last())));
        }
        let ghost before = pset.primes_seq();
        pset.expand();
        proof {
            lemma_prefix_trans(old(pset).primes_seq(), before, pset.primes_seq());
        }
    }
}

proof fn lemma_prefix_trans(a: Seq<u64>, b: Seq<u64>, c: Seq<u64>)
    requires
        a.is_prefix_of(b),
        b.is_prefix_of(c),
    ensures
        a.is_prefix_of(c),
{
    assert(a =~= c.take(a.len() as int));
}

pub trait PrimeSet: PrimeSetBasics {
    /// Number of primes found so far.
    fn len(&self) -> (r: usize)
        ensures
            r == self.primes_seq().len(),
    {
        self.list().len()
    }

    fn is_empty(&self) -> (r: bool)
        ensures
            r == (self.primes_seq().len() == 0),
    {
        self.list().is_empty()
    }

    /// Cursor over all primes not yet found.
    fn generator(&self) -> (it: PrimeSetIter)
        ensures
            it.pos() == self.primes_seq().len(),
            it.expanding(),
    {
        let n = self.list().len();
        PrimeSetIter { n, expand: true }
    }

    /// Cursor over all primes, starting with 2. If you don't care about the
    /// "state" of the generator, this is what you want!
    fn iter(&self) -> (it: PrimeSetIter)
        ensures
            it.pos() == 0,
            it.expanding(),
    {
        PrimeSetIter { n: 0, expand: true }
    }

    /// Cursor over just the primes found so far: a frozen view that never
    /// expands the cache.
    fn iter_vec(&self) -> (it: PrimeSetIter)
        ensures
            it.pos() == 0,
            !it.expanding(),
    {
        PrimeSetIter { n: 0, expand: false }
    }

    /// Find the next largest prime from a number.
    ///
    /// Returns `(idx, prime)`.
    ///
    /// Note that if `n` is prime, then the output will be `(idx, n)`.
    #[verifier::rlimit(100)]
    fn find(&mut self, n: u64) -> (r: (usize, u64))
        requires
            prime_cache_ok(old(self).primes_seq()),
            exists|q: int| n as int <= q <= u64::MAX as int && is_prime_spec(q),
        ensures
            prime_cache_ok(final(self).primes_seq()),
            old(self).primes_seq().is_prefix_of(final(self).primes_seq()),
            n <= final(self).primes_seq().last(),
            r.0 < final(self).primes_seq().len(),
            r.1 == final(self).primes_seq()[r.0 as int],
            forall|j: int| 0 <= j < r.0 ==> (final(self).primes_seq()[j] as int) < n as int,
            next_prime_from(n as int, r.1 as int),
            n <= old(self).primes_seq().last() ==> final(self).primes_seq() == old(
                self,
            ).primes_seq(),
            n > old(self).primes_seq().last() ==> {
                &&& r.1 == final(self).primes_seq().last()
                &&& r.0 == final(self).primes_seq().len() - 1
            },
    {
        expand_to_cover(self, n);
        let r = self.find_vec(n);
        match r {
            Some(p) => {
                proof {
                    if n > old(self).primes_seq().last() {
                        let s = self.primes_seq();
                        assert(p.1 == s.last());
                        if (p.0 as int) < s.len() - 1 {
                            assert(s[p.0 as int] < s[s.len() - 1]);
                        }
                    }
                }
                p
            },
            None => {
                proof {
                    assert(false);
                }
                (0, 0)
            },
        }
    }

    /// Find the next largest prime from a number, if it is within the
    /// already-found list.
    ///
    /// Returns `(idx, prime)`.
    ///
    /// Note that if `n` is prime, then the output will be `(idx, n)`.
    fn find_vec(&self, n: u64) -> (r: Option<(usize, u64)>)
        requires
            prime_cache_ok(self.primes_seq()),
        ensures
            r is Some <==> n as int <= self.primes_seq().last() as int,
            match r {
                Some(p) => {
                    &&& p.0 < self.primes_seq().len()
                    &&& p.1 == self.primes_seq()[p.0 as int]
                    &&& forall|j: int| 0 <= j < p.0 ==> (self.primes_seq()[j] as int) < n as int
                    &&& next_prime_from(n as int, p.1 as int)
                },
                None => true,
            },
    {
        let l = self.list();
        let m = l.len();
        let last = *vstd::slice::slice_index_get(l, m - 1);
        if n > last {
            return None;
        }
        let mut lo: usize = 0;
        let mut hi: usize = m - 1;
        while lo != hi
            invariant
                prime_cache_ok(self.primes_seq()),
                l@ == self.primes_seq(),
                lo <= hi < l@.len(),
                n as int <= l@[hi as int] as int,
                forall|j: int| 0 <= j < lo ==> (l@[j] as int) < n as int,
            decreases hi - lo,
        {
            let mid = lo + (hi - lo) / 2;
            let v = *vstd::slice::slice_index_get(l, mid);
            if v < n {
                proof {
                    assert forall|j: int| 0 <= j < mid + 1 implies (l@[j] as int) < n as int by {
                        if j < mid {
                            assert(l@[j] < l@[mid as int]);
                        }
                    }
                }
                lo = mid + 1;
            } else {
                hi = mid;
            }
        }
        proof {
            lemma_first_ge_is_next_prime(self.primes_seq(), lo as int, n as int);
        }
        Some((lo, *vstd::slice::slice_index_get(l, lo)))
    }

    /// Get the nth prime, even if we haven't found it yet.
    #[verifier::rlimit(100)]
    fn get(&mut self, index: usize) -> (r: u64)
        requires
            prime_cache_ok(old(self).primes_seq()),
            enough_primes(index as int + 1),
        ensures
            prime_cache_ok(final(self).primes_seq()),
            old(self).primes_seq().is_prefix_of(final(self).primes_seq()),
            final(self).primes_seq().len() == (if (index as int) < old(self).primes_seq().len() {
                old(self).primes_seq().len() as int
            } else {
                index as int + 1
            }),
            r == final(self).primes_seq()[index as int],
            is_prime_spec(r as int),
            (index as int) < old(self).primes_seq().len() ==> final(self).primes_seq() == old(
                self,
            ).primes_seq(),
    {
        ensure_past_index(self, index);
        *vstd::slice::slice_index_get(self.list(), index)
    }
}

// Every type with the basic expand/list operations gets the whole query
// layer: binary search, indexing and cursors are derived behaviour.
impl<P: PrimeSetBasics> PrimeSet for P {}

/// A number appears in a well-formed cache exactly when it is a prime no
/// larger than the cache's last entry: the cache is precisely an initial
/// run of the primes.
pub proof fn lemma_cache_membership(s: Seq<u64>, p: u64)
    requires
        prime_cache_ok(s),
    ensures
        s.contains(p) <==> (is_prime_spec(p as int) && p <= s.last()),
{
    if s.contains(p) {
        let i = choose|i: int| 0 <= i < s.len() && s[i] == p;
        assert(is_prime_spec(s[i] as int));
        if i < s.len() - 1 {
            assert(s[i] < s[s.len() - 1]);
        }
    }
    if is_prime_spec(p as int) && p <= s.last() {
        lemma_cache_contains_all(s, p as int);
        let i = choose|i: int| 0 <= i < s.len() && s[i] as int == p as int;
        assert(s[i] == p);
    }
}

} // verus!
