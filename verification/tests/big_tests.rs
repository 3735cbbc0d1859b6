use euler_library::big;

#[test]
fn factorial_small_values() {
    assert_eq!(big::factorial(0).to_string(), "1");
    assert_eq!(big::factorial(1).to_string(), "1");
    assert_eq!(big::factorial(5).to_string(), "120");
}

#[test]
fn factorial_31_matches_known_value() {
    assert_eq!(
        big::factorial(31).to_string(),
        "8222838654177922817725562880000000"
    );
}

#[test]
fn factorial_recurrence_holds_concretely() {
    let f30 = big::factorial(30);
    let f31 = big::factorial(31);
    assert_eq!(f31, f30 * num::BigUint::from(31usize));
}

#[test]
fn precision_sqrt_of_two_to_forty_digits() {
    assert_eq!(
        big::precision_sqrt(2, 40).to_string(),
        "1414213562373095048801688724209698078569"
    );
}

#[test]
fn precision_sqrt_small_cases() {
    assert_eq!(big::precision_sqrt(2, 2).to_string(), "14");
    assert_eq!(big::precision_sqrt(99, 1).to_string(), "9");
}

#[test]
fn precision_sqrt_degenerate_when_input_too_wide() {
    // 100 >= 100^1, so the digit loop stops before refining.
    assert_eq!(big::precision_sqrt(100, 1).to_string(), "1");
}

#[test]
fn continued_fraction_of_twenty_three() {
    // periodic continued fraction for 23 = (4, [1, 3, 1, 8])
    let (a0, ts) = (4, vec![1, 3, 1, 8]);
    let ts = ts.into_iter().cycle().take(64).collect::<Vec<usize>>();
    let (numerator, denominator) = big::continued_fraction(a0, ts);
    assert_eq!(numerator.to_string(), "3468077590434524694871282564");
    assert_eq!(denominator.to_string(), "723144166673926627543073281");
}

#[test]
fn continued_fraction_with_no_terms() {
    let (n, d) = big::continued_fraction(7, Vec::new());
    assert_eq!(n.to_string(), "7");
    assert_eq!(d.to_string(), "1");
}

#[test]
fn integer_partitions_known_values() {
    let ps = big::integer_partitions(1000)
        .iter()
        .map(|x| x.to_string())
        .collect::<Vec<_>>();
    assert_eq!(&ps[0], "1");
    assert_eq!(&ps[23..26], ["1255", "1575", "1958"]);
    assert_eq!(&ps[1000..], ["24061467864032622473692149727991"]);
}

#[test]
fn integer_partitions_of_zero() {
    let ps = big::integer_partitions(0);
    assert_eq!(ps.len(), 1);
    assert_eq!(ps[0].to_string(), "1");
}

#[test]
fn precision_sqrt_of_a_perfect_square() {
    assert_eq!(big::precision_sqrt(16, 3).to_string(), "400");
}

#[test]
fn integer_partitions_of_one_and_two() {
    let p1 = big::integer_partitions(1)
        .iter()
        .map(|x| x.to_string())
        .collect::<Vec<_>>();
    assert_eq!(p1, ["1", "1"]);
    let p2 = big::integer_partitions(2)
        .iter()
        .map(|x| x.to_string())
        .collect::<Vec<_>>();
    assert_eq!(p2, ["1", "1", "2"]);
}
