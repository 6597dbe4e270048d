use prime_buckets::{integer_sqrt, is_prime, last_digit};

fn has_proper_divisor(n: u64) -> bool {
    (2..n).any(|d| n % d == 0)
}

#[test]
fn last_digit_test() {
    assert_eq!(last_digit(29), 9);
    assert_eq!(last_digit(654676), 6);
    assert_eq!(last_digit(20), 0);
    assert_eq!(last_digit(3), 3);
}

#[test]
fn is_prime_test() {
    assert_eq!(is_prime(13), true);
    assert_eq!(is_prime(10), false);
    assert_eq!(is_prime(222), false);
    assert_eq!(is_prime(1), true);
    assert_eq!(is_prime(3), true);
    assert_eq!(is_prime(5), true);
    assert_eq!(is_prime(7), true);
    assert_eq!(is_prime(9), true);
}

#[test]
fn last_digit_is_remainder_by_ten() {
    for n in 0..1000u64 {
        assert_eq!(last_digit(n), n % 10);
    }
    assert_eq!(last_digit(0), 0);
    assert_eq!(last_digit(u64::MAX), 5);
}

#[test]
fn zero_and_one_pass() {
    assert!(is_prime(0));
    assert!(is_prime(1));
}

#[test]
fn everything_below_nine_passes() {
    for n in 0..9u64 {
        assert!(is_prime(n), "{}", n);
    }
}

#[test]
fn composites_with_the_root_as_smallest_factor_pass() {
    for n in [4u64, 6, 8, 9, 15, 25, 35, 49, 121, 143, 169, 323] {
        assert!(is_prime(n), "{}", n);
    }
}

#[test]
fn other_composites_fail() {
    for n in [10u64, 12, 14, 16, 18, 20, 21, 27, 33, 100, 221, 1000, 1_000_000] {
        assert!(!is_prime(n), "{}", n);
    }
}

#[test]
fn is_prime_is_trial_division_below_the_root() {
    for n in 0..=2000u64 {
        let root = integer_sqrt(n);
        let expected = !(2..root).any(|i| n % i == 0);
        assert_eq!(is_prime(n), expected, "{}", n);
    }
}

#[test]
fn primes_always_pass() {
    for n in 2..=2000u64 {
        if !has_proper_divisor(n) {
            assert!(is_prime(n), "{}", n);
        }
    }
}

#[test]
fn passing_means_prime_unless_the_root_divides() {
    for n in 2..=2000u64 {
        let root = integer_sqrt(n);
        if is_prime(n) && (root < 2 || n % root != 0) {
            assert!(!has_proper_divisor(n), "{}", n);
        }
    }
}

#[test]
fn is_prime_on_large_inputs() {
    assert!(is_prime(1_000_000_007));
    assert!(!is_prime(1_000_000_007 * 3));
    assert!(is_prime(999_983 * 999_983));
    assert!(!is_prime(999_983 * 1_000_003));
}

#[test]
fn integer_sqrt_exact_values() {
    assert_eq!(integer_sqrt(0), 0);
    assert_eq!(integer_sqrt(1), 1);
    assert_eq!(integer_sqrt(2), 1);
    assert_eq!(integer_sqrt(3), 1);
    assert_eq!(integer_sqrt(4), 2);
    assert_eq!(integer_sqrt(8), 2);
    assert_eq!(integer_sqrt(9), 3);
    assert_eq!(integer_sqrt(15), 3);
    assert_eq!(integer_sqrt(16), 4);
    assert_eq!(integer_sqrt(99), 9);
    assert_eq!(integer_sqrt(100), 10);
    assert_eq!(integer_sqrt(1_000_000), 1000);
    assert_eq!(integer_sqrt(u64::MAX), 4_294_967_295);
    assert_eq!(integer_sqrt(4_294_967_295 * 4_294_967_295), 4_294_967_295);
    assert_eq!(integer_sqrt(4_294_967_295 * 4_294_967_295 - 1), 4_294_967_294);
    assert_eq!(integer_sqrt(9_007_199_254_740_993), 94_906_265);
}

#[test]
fn integer_sqrt_brackets_its_argument() {
    for n in 0..5000u64 {
        let r = integer_sqrt(n);
        assert!(r * r <= n && n < (r + 1) * (r + 1), "{}", n);
    }
}
