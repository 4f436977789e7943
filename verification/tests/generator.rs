use primes::is_prime;
use primes::PrimeSet;
use primes::PrimeSetBasics;
use primes::TrialDivision;

#[test]
fn expand_appends_one_larger_prime() {
    let mut pset = TrialDivision::new();
    for _ in 0..50 {
        let before: Vec<u64> = pset.list().to_vec();
        pset.expand();
        let after = pset.list();
        assert_eq!(after.len(), before.len() + 1);
        let newest = after[after.len() - 1];
        assert!(newest > before[before.len() - 1]);
        assert!(is_prime(newest));
        assert_eq!(&after[..before.len()], &before[..]);
    }
}

#[test]
fn fresh_generator_is_seeded() {
    let pset = TrialDivision::new();
    assert_eq!(pset.list(), &[2u64, 3][..]);
    assert_eq!(pset.len(), 2);
    assert!(!pset.is_empty());
    let dflt = TrialDivision::default();
    assert_eq!(dflt.list(), &[2u64, 3][..]);
}

#[test]
fn get_returns_the_nth_prime() {
    let mut pset = TrialDivision::new();
    assert_eq!(pset.get(0), 2);
    assert_eq!(pset.get(5), 13);
    assert_eq!(pset.get(1), 3);
    assert_eq!(pset.get(9), 29);
    assert_eq!(pset.get(168), 1009);
}

#[test]
fn generator_continues_from_current_state() {
    let mut pset = TrialDivision::new();
    pset.find(10);
    assert_eq!(pset.list(), &[2u64, 3, 5, 7, 11][..]);
    let mut it = pset.generator();
    assert_eq!(it.next(&mut pset), Some(13));
    assert_eq!(it.next(&mut pset), Some(17));
    assert_eq!(it.next(&mut pset), Some(19));
}

#[test]
fn iter_vec_is_a_frozen_view() {
    let mut pset = TrialDivision::new();
    let mut it = pset.iter_vec();
    assert_eq!(it.next(&mut pset), Some(2));
    assert_eq!(it.next(&mut pset), Some(3));
    assert_eq!(it.next(&mut pset), None);
    assert_eq!(it.next(&mut pset), None);
    assert_eq!(pset.len(), 2);
}

#[test]
fn list_is_stable_between_mutations() {
    let mut pset = TrialDivision::new();
    pset.find(100);
    let first: Vec<u64> = pset.list().to_vec();
    let second: Vec<u64> = pset.list().to_vec();
    assert_eq!(first, second);
    assert_eq!(pset.list(), &first[..]);
}

#[test]
fn find_vec_never_expands() {
    let pset = TrialDivision::new();
    assert_eq!(pset.find_vec(2), Some((0, 2)));
    assert_eq!(pset.find_vec(3), Some((1, 3)));
    assert_eq!(pset.find_vec(4), None);
    assert_eq!(pset.len(), 2);
}

#[test]
fn find_returns_smallest_prime_at_or_above() {
    let mut pset = TrialDivision::new();
    assert_eq!(pset.find(14), (6, 17));
    assert_eq!(pset.find(17), (6, 17));
    assert_eq!(pset.find(2), (0, 2));
    assert_eq!(pset.find(0), (0, 2));
}

#[test]
fn cloned_generator_is_independent() {
    let mut pset = TrialDivision::new();
    pset.find(10);
    let mut other = pset.clone();
    assert_eq!(other.list(), pset.list());
    other.expand();
    assert_eq!(pset.len() + 1, other.len());
}

#[test]
fn is_prime_matches_the_lazy_sequence() {
    let mut pset = TrialDivision::new();
    let mut seen: Vec<u64> = Vec::new();
    let mut it = pset.iter();
    loop {
        let p = it.next(&mut pset).unwrap();
        if p > 200 {
            break;
        }
        seen.push(p);
    }
    for n in 0u64..=200 {
        assert_eq!(is_prime(n), seen.contains(&n));
    }
}

#[test]
fn get_expands_exactly_as_needed() {
    let mut pset = TrialDivision::new();
    pset.get(5);
    assert_eq!(pset.len(), 6);
    pset.get(1);
    assert_eq!(pset.len(), 6);
    pset.get(9);
    assert_eq!(pset.len(), 10);
    let mut it = pset.iter();
    for _ in 0..12 {
        it.next(&mut pset);
    }
    assert_eq!(pset.len(), 12);
}
