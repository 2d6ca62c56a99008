use prime_sieve::isqrt::sqrt;

fn floor_root_by_float(n: u64) -> u64 {
    let mut r: u64 = (n as f64).sqrt() as u64;
    while r * r > n {
        r -= 1;
    }
    while (r + 1) * (r + 1) <= n {
        r += 1;
    }
    r
}

#[test]
fn sqrt_of_zero_is_zero() {
    assert_eq!(sqrt(0), 0);
}

#[test]
fn sqrt_of_one_is_one() {
    assert_eq!(sqrt(1), 1);
}

#[test]
fn sqrt_just_below_a_square() {
    assert_eq!(sqrt(24), 4);
}

#[test]
fn sqrt_of_a_square() {
    assert_eq!(sqrt(25), 5);
}

#[test]
fn sqrt_just_above_a_square() {
    assert_eq!(sqrt(26), 5);
}

#[test]
fn sqrt_of_small_numbers() {
    let expected: [u64; 17] = [0, 1, 1, 1, 2, 2, 2, 2, 2, 3, 3, 3, 3, 3, 3, 3, 4];
    let mut n: u64 = 0;
    while n < 17 {
        assert_eq!(sqrt(n), expected[n as usize]);
        n += 1;
    }
}

#[test]
fn sqrt_matches_float_reference_over_a_range() {
    let mut n: u64 = 0;
    while n <= 200_000 {
        assert_eq!(sqrt(n), floor_root_by_float(n));
        n += 1;
    }
}

#[test]
fn sqrt_matches_float_reference_on_scattered_large_numbers() {
    let mut n: u64 = 1;
    while n < (1u64 << 52) {
        assert_eq!(sqrt(n), floor_root_by_float(n));
        assert_eq!(sqrt(n + 1), floor_root_by_float(n + 1));
        n = n * 3 + 7;
    }
}

#[test]
fn sqrt_around_every_square_up_to_a_limit() {
    let mut r: u64 = 1;
    while r <= 5_000 {
        assert_eq!(sqrt(r * r - 1), r - 1);
        assert_eq!(sqrt(r * r), r);
        assert_eq!(sqrt(r * r + 1), r);
        r += 1;
    }
}

#[test]
fn sqrt_is_the_exact_floor() {
    let mut n: u64 = 0;
    while n <= 50_000 {
        let r: u64 = sqrt(n);
        assert!(r * r <= n);
        assert!(n < (r + 1) * (r + 1));
        n += 1;
    }
}

#[test]
fn sqrt_around_large_squares() {
    let r: u64 = 3_037_000_499;
    assert_eq!(sqrt(r * r), r);
    assert_eq!(sqrt(r * r - 1), r - 1);
    assert_eq!(sqrt(r * r + 1), r);
    let top: u64 = 4_294_967_295;
    assert_eq!(sqrt(top * top), top);
    assert_eq!(sqrt(top * top - 1), top - 1);
}

#[test]
fn sqrt_of_the_largest_number() {
    assert_eq!(sqrt(u64::MAX), 4_294_967_295);
    assert_eq!(sqrt(u64::MAX - 1), 4_294_967_295);
}

#[test]
fn sqrt_of_two_and_three() {
    assert_eq!(sqrt(2), 1);
    assert_eq!(sqrt(3), 1);
    assert_eq!(sqrt(4), 2);
}
