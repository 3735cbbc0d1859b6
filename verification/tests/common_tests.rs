use euler_library::common::{self, ParseError};

#[test]
fn divisor_sum_examples() {
    assert_eq!(common::divisor_sum(10), 8);
    assert_eq!(common::divisor_sum(0), 0);
    assert_eq!(common::divisor_sum(1), 0);
    assert_eq!(common::divisor_sum(28), 28);
}

#[test]
fn divisor_sum_list_examples() {
    assert_eq!(common::divisor_sum_list(10), [0, 0, 1, 1, 3, 1, 6, 1, 7, 4, 8]);
    assert_eq!(*common::divisor_sum_list(10).last().unwrap(), common::divisor_sum(10));
}

#[test]
fn divisor_sum_list_agrees_with_divisor_sum_everywhere() {
    let limit = 200;
    let xs = common::divisor_sum_list(limit);
    for n in 0..=limit {
        assert_eq!(xs[n], common::divisor_sum(n));
    }
}

#[test]
fn pandigital_examples() {
    assert!(common::is_pandigital("456123".to_string(), 1));
    assert!(common::is_pandigital("4560123".to_string(), 0));
    assert!(!common::is_pandigital("4561123".to_string(), 1));
    assert!(!common::is_pandigital("12".to_string(), 3));
}

#[test]
fn sum_of_digits_example() {
    assert_eq!(common::sum_of_digits("123".to_string()), 6);
    assert_eq!(common::sum_of_digits("0".to_string()), 0);
}

#[test]
fn byte_conversions() {
    assert_eq!(common::to_bytes(123), [49, 50, 51]);
    assert_eq!(common::to_bytes(0), [48]);
    assert_eq!(common::from_bytes(&[51, 50, 49]), Ok(321));
    let bytes = common::to_bytes(123);
    assert_eq!(common::from_bytes(&bytes), Ok(123));
}

#[test]
fn from_bytes_error_cases() {
    assert_eq!(common::from_bytes(b"12a"), Err(ParseError::Invalid));
    assert_eq!(common::from_bytes(b""), Err(ParseError::Invalid));
    assert_eq!(common::from_bytes(b"+"), Err(ParseError::Invalid));
    assert_eq!(common::from_bytes(b"+12"), Ok(12));
    assert_eq!(
        common::from_bytes(b"99999999999999999999999"),
        Err(ParseError::Overflow)
    );
}

#[test]
fn digit_conversions() {
    assert_eq!(common::to_digits(123), [1, 2, 3]);
    assert_eq!(common::to_digits(0), Vec::<usize>::new());
    assert_eq!(common::from_digits(&[1, 2, 3]), 123);
    assert_eq!(common::from_digits(&[]), 0);
}

#[test]
fn palindrome_examples() {
    assert!(common::is_palindrome(12321));
    assert!(common::is_palindrome(7));
    assert!(!common::is_palindrome(12));
}

#[test]
fn factorial_fits_machine_word() {
    assert_eq!(common::factorial(15), 1307674368000);
    assert_eq!(common::factorial(0), 1);
    assert_eq!(common::factorial(20), 2432902008176640000);
}

#[test]
fn perms_with_reps_examples() {
    assert_eq!(
        common::perms_with_reps(2, &[1, 2]),
        [[1, 1], [1, 2], [2, 1], [2, 2]]
    );
    let res = [
        [1, 1], [1, 2], [1, 3], [2, 1], [2, 2], [2, 3], [3, 1], [3, 2], [3, 3],
    ];
    assert_eq!(common::perms_with_reps(2, &[1, 2, 3]), res);
}

#[test]
fn replicate_example() {
    assert_eq!(common::replicate(3, 7), [7, 7, 7]);
    assert_eq!(common::replicate(0, 7), Vec::<usize>::new());
}

#[test]
fn cartesian_product_example() {
    let xss = vec![vec![1, 2], vec![3, 4]];
    assert_eq!(
        common::cartesian_product(&xss),
        [[1, 3], [1, 4], [2, 3], [2, 4]]
    );
    assert_eq!(
        common::cartesian_product(&[]),
        Vec::<Vec<usize>>::new()
    );
}

#[test]
fn perms_without_reps_example() {
    assert_eq!(common::perms_without_reps_recur(2, &[1, 2]), [[1, 2], [2, 1]]);
    assert_eq!(
        common::perms_without_reps_recur(2, &[1, 2, 3]),
        [[1, 2], [1, 3], [2, 1], [2, 3], [3, 1], [3, 2]]
    );
}

#[test]
fn k_nested_example() {
    let res = [
        [1, 1, 1], [1, 1, 2], [1, 2, 1], [1, 2, 2],
        [2, 1, 1], [2, 1, 2], [2, 2, 1], [2, 2, 2],
    ];
    assert_eq!(common::k_nested_recur(3, &[1, 2]), res);
}

#[test]
fn sqrt_terms_examples() {
    assert_eq!(common::sqrt_terms(13), Some((3, vec![1, 1, 1, 1, 6])));
    assert_eq!(common::sqrt_terms(25), None);
    assert_eq!(common::sqrt_terms(23), Some((4, vec![1, 3, 1, 8])));
}

#[test]
fn continued_fraction_of_thirteen() {
    let (a0, ts) = common::sqrt_terms(13).unwrap();
    let ts = ts.into_iter().cycle().take(15).collect::<Vec<usize>>();
    assert_eq!(ts, [1, 1, 1, 1, 6, 1, 1, 1, 1, 6, 1, 1, 1, 1, 6]);
    assert_eq!(common::continued_fraction(a0, ts), (154451, 42837));
}

#[test]
fn continued_fraction_converges_to_root_thirteen() {
    // Convergents of the continued fraction of the square root of thirteen
    // approach it: the relative error of n/d against 13 d^2 shrinks as more
    // terms are used.
    let (a0, period) = common::sqrt_terms(13).unwrap();
    let err = |len: usize| -> (u128, u128) {
        let ts = period
            .clone()
            .into_iter()
            .cycle()
            .take(len)
            .collect::<Vec<usize>>();
        let (n, d) = common::continued_fraction(a0, ts);
        let n = n as u128;
        let d = d as u128;
        let nn = n * n;
        let dd = 13 * d * d;
        let e = if nn > dd { nn - dd } else { dd - nn };
        (e, d * d)
    };
    let (e1, s1) = err(4);
    let (e2, s2) = err(9);
    let (e3, s3) = err(14);
    // Compare relative errors by cross-multiplying.
    assert!(e1 * s2 > e2 * s1);
    assert!(e2 * s3 > e3 * s2);
}

#[test]
fn is_perm_examples() {
    assert!(common::is_perm(123, 231));
    assert!(!common::is_perm(12, 13));
    assert!(!common::is_perm(100, 1));
    assert!(common::is_perm(120, 201));
}

#[test]
fn phis_matches_known_totients() {
    let phi_90_to_100 = common::phis(100).into_iter().skip(90).collect::<Vec<_>>();
    assert_eq!(phi_90_to_100, [24, 72, 44, 60, 46, 72, 32, 96, 42, 60, 40]);
    assert_eq!(common::phis(10), [0, 1, 1, 2, 2, 4, 2, 6, 4, 6, 4]);
}

#[test]
fn accumulate_examples() {
    assert_eq!(common::accumulate(&[1, 2, 3, 4]), [1, 3, 6, 10]);
    assert_eq!(common::accumulate(&[1, 1, 1, 1, 1]), [1, 2, 3, 4, 5]);
    assert_eq!(common::accumulate(&[]), Vec::<usize>::new());
}

#[test]
fn int_sqrt_examples() {
    assert_eq!(common::int_sqrt(0), 0);
    assert_eq!(common::int_sqrt(15), 3);
    assert_eq!(common::int_sqrt(16), 4);
    assert_eq!(common::int_sqrt(usize::MAX), 4294967295);
}

#[test]
fn from_digits_carries_oversized_digits() {
    // Positional evaluation carries entries of ten or more, as a fold of
    // `acc * 10 + d` does.
    assert_eq!(common::from_digits(&[12, 3]), 123);
}

#[test]
fn divisor_sums_of_amicable_pair() {
    assert_eq!(common::divisor_sum(220), 284);
    assert_eq!(common::divisor_sum(284), 220);
}

#[test]
fn perms_with_reps_of_length_zero() {
    assert_eq!(common::perms_with_reps(0, &[1, 2]), Vec::<Vec<usize>>::new());
}

#[test]
fn single_pick_enumerations_keep_input_order() {
    // One-element tuples come back in the order of `xs`, unsorted.
    assert_eq!(common::k_nested_recur(1, &[2, 1]), [[2], [1]]);
    assert_eq!(common::perms_without_reps_recur(1, &[2, 1]), [[2], [1]]);
}

#[test]
fn zero_pick_enumerations_give_the_empty_tuple() {
    assert_eq!(common::k_nested_recur(0, &[2, 1]), [Vec::<usize>::new()]);
    assert_eq!(common::perms_without_reps_recur(0, &[2, 1]), [Vec::<usize>::new()]);
}
