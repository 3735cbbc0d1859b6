use euler_library::primes;

#[test]
fn prime_factors_examples() {
    assert_eq!(primes::prime_factors(342), [2, 3, 3, 19]);
    assert_eq!(primes::prime_factors(123), [3, 41]);
    assert_eq!(primes::prime_factors(84), [2, 2, 3, 7]);
    assert_eq!(primes::prime_factors(1), Vec::<usize>::new());
    assert_eq!(primes::prime_factors(0), Vec::<usize>::new());
    assert_eq!(primes::prime_factors(97), [97]);
}

#[test]
fn prime_factors_unique_examples() {
    assert_eq!(primes::prime_factors_unique(342), [2, 3, 19]);
    assert_eq!(primes::prime_factors_unique(123), [3, 41]);
    assert_eq!(primes::prime_factors_unique(84), [2, 3, 7]);
}

#[test]
fn sopf_examples() {
    assert_eq!(primes::sopf(342), 24);
    assert_eq!(primes::sopf(123), 44);
    assert_eq!(primes::sopf(1), 0);
}

#[test]
fn prime_factor_cnt_examples() {
    assert_eq!(primes::prime_factor_cnt(10), [0, 0, 1, 1, 1, 1, 2, 1, 1, 1]);
    let prime_factor_cnt_90_to_99 = primes::prime_factor_cnt(100)
        .into_iter()
        .skip(90)
        .take(10)
        .collect::<Vec<_>>();
    assert_eq!(prime_factor_cnt_90_to_99, [3, 2, 2, 2, 2, 2, 2, 1, 2, 2]);
}
