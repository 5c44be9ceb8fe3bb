use deck_analyzer::combinations::{combination_n, factorial_u128, factorial_u64, permutation_n};

#[test]
fn test_p() {
    assert_eq!(permutation_n(40, 5), Some(78960960));
}

#[test]
fn test_c() {
    assert_eq!(combination_n(40, 5), Some(658008));
    assert_eq!(combination_n(40, 35), Some(658008));
}

#[test]
fn permutation_of_nothing_is_one() {
    assert_eq!(permutation_n(0, 0), Some(1));
    assert_eq!(permutation_n(7, 0), Some(1));
    assert_eq!(permutation_n(7, 1), Some(7));
    assert_eq!(permutation_n(5, 3), Some(60));
    assert_eq!(permutation_n(5, 5), Some(120));
}

#[test]
fn permutation_fails_beyond_n() {
    assert_eq!(permutation_n(3, 4), None);
    assert_eq!(permutation_n(0, 1), None);
}

#[test]
fn permutation_fails_on_overflow() {
    assert_eq!(permutation_n(20, 20), Some(2432902008176640000));
    assert_eq!(permutation_n(21, 21), None);
    assert_eq!(permutation_n(u64::MAX, 1), Some(u64::MAX));
    assert_eq!(permutation_n(u64::MAX, 2), None);
}

#[test]
fn combination_fails_beyond_n() {
    assert_eq!(combination_n(3, 4), None);
    assert_eq!(combination_n(0, 1), None);
    assert_eq!(combination_n(39, 40), None);
}

#[test]
fn combination_is_symmetric() {
    for n in 0..30u64 {
        for k in 0..=n {
            assert_eq!(combination_n(n, k), combination_n(n, n - k));
        }
    }
}

#[test]
fn combination_small_values() {
    assert_eq!(combination_n(0, 0), Some(1));
    assert_eq!(combination_n(5, 0), Some(1));
    assert_eq!(combination_n(5, 5), Some(1));
    assert_eq!(combination_n(5, 2), Some(10));
    assert_eq!(combination_n(5, 3), Some(10));
    assert_eq!(combination_n(10, 3), Some(120));
    assert_eq!(combination_n(37, 5), Some(435897));
    assert_eq!(combination_n(60, 6), Some(50063860));
}

#[test]
fn combination_follows_pascal() {
    for n in 1..30u64 {
        for k in 1..=n {
            let left = combination_n(n - 1, k - 1).unwrap();
            let right = if k <= n - 1 { combination_n(n - 1, k).unwrap() } else { 0 };
            assert_eq!(combination_n(n, k), Some(left + right));
        }
    }
}

#[test]
fn combination_fails_on_overflow_of_the_product() {
    // 62 choose 31 fits in 64 bits, the product of its 31 largest factors does not.
    assert_eq!(combination_n(62, 31), None);
    assert_eq!(combination_n(29, 14), Some(77558760));
    assert_eq!(combination_n(30, 15), None);
    assert_eq!(combination_n(u64::MAX, 1), Some(u64::MAX));
    assert_eq!(combination_n(u64::MAX, u64::MAX - 1), Some(u64::MAX));
    assert_eq!(combination_n(u64::MAX, 2), None);
}

#[test]
fn factorials() {
    assert_eq!(factorial_u64(0), Some(1));
    assert_eq!(factorial_u64(1), Some(1));
    assert_eq!(factorial_u64(5), Some(120));
    assert_eq!(factorial_u64(20), Some(2432902008176640000));
    assert_eq!(factorial_u64(21), None);
    assert_eq!(factorial_u64(u64::MAX), None);
    assert_eq!(factorial_u128(0), Some(1));
    assert_eq!(factorial_u128(21), Some(51090942171709440000));
    assert_eq!(
        factorial_u128(34),
        Some(295232799039604140847618609643520000000)
    );
    assert_eq!(factorial_u128(35), None);
}
