use prime_trees::primes::Primes;

#[test]
fn nth() {
    assert_eq!(
        *Primes::aproximatly_to_nth(1000 - 1)
            .iter()
            .nth(1000 - 1)
            .unwrap(),
        7919
    );
}

#[test]
fn less_than() {
    assert_eq!(Primes::all_less_than(1000).len(), 168);
}

#[test]
fn factorize() {
    let primes = Primes::with_bound(1000);

    let num: usize = 100;
    let factors = primes.factorize(num).unwrap();
    let num_back: usize = factors
        .iter()
        .map(|(p, e)| primes.prime_at(*p).pow(*e as u32))
        .product();
    assert_eq!(num_back, num);
}

#[test]
fn small_primes_exact() {
    assert_eq!(
        Primes::all_less_than(30),
        vec![2, 3, 5, 7, 11, 13, 17, 19, 23, 29]
    );
}

#[test]
fn factorize_products_match() {
    let primes = Primes::with_bound(1000);
    for num in 2..500usize {
        let factors = primes.factorize(num).unwrap();
        let num_back: usize = factors
            .iter()
            .map(|(p, e)| primes.prime_at(*p).pow(*e as u32))
            .product();
        assert_eq!(num_back, num, "factorization product for {num}");
        // positions ascend and exponents are positive
        for w in factors.windows(2) {
            assert!(w[0].0 < w[1].0);
        }
        for (_, e) in &factors {
            assert!(*e >= 1);
        }
    }
}

#[test]
fn factorize_exact_pairs() {
    let primes = Primes::with_bound(1000);
    // 360 = 2^3 * 3^2 * 5, at prime positions 0, 1, 2
    assert_eq!(primes.factorize(360).unwrap(), vec![(0, 3), (1, 2), (2, 1)]);
    // 0 and 1 factorize to nothing
    assert_eq!(primes.factorize(0).unwrap(), vec![]);
    assert_eq!(primes.factorize(1).unwrap(), vec![]);
}

#[test]
fn factorize_insufficient_bound() {
    let small = Primes::from_cached_list(vec![2, 3, 5, 7]).unwrap();
    // 11 * 13: the remainder 143 has no prime factor in the table
    let err = small.factorize(143).unwrap_err();
    assert_eq!(err.remainder, 143);
    // a prime beyond the table is reported as itself
    let err = small.factorize(11).unwrap_err();
    assert_eq!(err.remainder, 11);
}

#[test]
fn cached_list_validation() {
    assert!(Primes::from_cached_list(vec![2, 3, 5, 7, 11]).is_some());
    // incomplete: 7 is missing below 11
    assert!(Primes::from_cached_list(vec![2, 3, 5, 11]).is_none());
    // not prime
    assert!(Primes::from_cached_list(vec![2, 3, 4, 5]).is_none());
    // not ascending
    assert!(Primes::from_cached_list(vec![3, 2]).is_none());
    // empty
    assert!(Primes::from_cached_list(vec![]).is_none());
}

#[test]
fn extent_and_prime_at() {
    let table = Primes::from_cached_list(vec![2, 3, 5, 7, 11, 13]).unwrap();
    assert_eq!(table.extent(), 6);
    assert_eq!(table.prime_at(0), 2);
    assert_eq!(table.prime_at(5), 13);
    assert_eq!(table.as_list(), &vec![2, 3, 5, 7, 11, 13]);
}

#[test]
fn factorize_beyond_largest_prime() {
    let primes = Primes::with_bound(1000);
    // 2^8 * 5^7 is far beyond the largest held prime but fully covered
    let factors = primes.factorize(20_000_000).unwrap();
    assert_eq!(factors, vec![(0, 8), (2, 7)]);
}
