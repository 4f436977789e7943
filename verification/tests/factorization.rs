use primes::factors;
use primes::factors_unique;
use primes::firstfac;
use primes::is_prime;

#[test]
fn factors_of_small_numbers() {
    assert_eq!(factors(12), vec![2, 2, 3]);
    assert_eq!(factors(121), vec![11, 11]);
    assert_eq!(factors(144), vec![2, 2, 2, 2, 3, 3]);
}

#[test]
fn factors_of_ten_million() {
    assert_eq!(factors(10_000_000), vec![2, 2, 2, 2, 2, 2, 2, 5, 5, 5, 5, 5, 5, 5]);
}

#[test]
fn factors_of_zero_and_one_are_empty() {
    assert_eq!(factors(0), Vec::<u64>::new());
    assert_eq!(factors(1), Vec::<u64>::new());
    assert_eq!(factors_unique(0), Vec::<u64>::new());
    assert_eq!(factors_unique(1), Vec::<u64>::new());
}

#[test]
fn factors_of_primes_are_singletons() {
    assert_eq!(factors(2), vec![2]);
    assert_eq!(factors(3), vec![3]);
    assert_eq!(factors(1009), vec![1009]);
    assert_eq!(factors_unique(1009), vec![1009]);
}

#[test]
fn unique_factors_of_small_numbers() {
    assert_eq!(factors_unique(12), vec![2, 3]);
    assert_eq!(factors_unique(121), vec![11]);
    assert_eq!(factors_unique(144), vec![2, 3]);
    assert_eq!(factors_unique(10_000_000), vec![2, 5]);
}

#[test]
fn factors_multiply_back_to_input() {
    for x in 2u64..500 {
        let fs = factors(x);
        let mut p: u64 = 1;
        for &f in fs.iter() {
            p *= f;
        }
        assert_eq!(p, x);
    }
}

#[test]
fn unique_factors_are_factors_without_consecutive_duplicates() {
    for x in 0u64..500 {
        let fs = factors(x);
        let mut deduped: Vec<u64> = Vec::new();
        for &f in fs.iter() {
            if deduped.last() != Some(&f) {
                deduped.push(f);
            }
        }
        assert_eq!(factors_unique(x), deduped);
    }
}

#[test]
fn firstfac_finds_the_smallest_factor() {
    assert_eq!(firstfac(2), 2);
    assert_eq!(firstfac(9), 3);
    assert_eq!(firstfac(15), 3);
    assert_eq!(firstfac(49), 7);
    assert_eq!(firstfac(221), 13);
    assert_eq!(firstfac(1009), 1009);
}

#[test]
fn is_prime_on_small_numbers() {
    assert!(!is_prime(0));
    assert!(!is_prime(1));
    assert!(is_prime(2));
    assert!(is_prime(3));
    assert!(!is_prime(4));
    assert!(is_prime(5));
    assert!(!is_prime(9));
    assert!(is_prime(97));
    assert!(!is_prime(100));
    assert!(is_prime(1009));
    assert!(!is_prime(1007));
}
