use modinv::{euclids_gcd, modular_multiplicative_inverse};

/// Reference gcd on magnitudes, for cross-checking the first component.
fn gcd_ref(a: i128, b: i128) -> i128 {
    let mut x = a.abs();
    let mut y = b.abs();
    while x != 0 {
        let t = y % x;
        y = x;
        x = t;
    }
    y
}

#[test]
fn mmi_of_11_mod_26() {
    assert_eq!(modular_multiplicative_inverse(11, 26), Some(19));
}

#[test]
fn mmi_none_when_not_coprime() {
    assert_eq!(modular_multiplicative_inverse(4, 8), None);
}

#[test]
fn egcd_of_35_and_15() {
    assert_eq!(euclids_gcd(35, 15), (5, 1, -2));
}

#[test]
fn mmi_of_one_mod_7() {
    assert_eq!(modular_multiplicative_inverse(1, 7), Some(1));
}

#[test]
fn mmi_of_minus_one_mod_7() {
    assert_eq!(modular_multiplicative_inverse(-1, 7), Some(6));
}

#[test]
fn mmi_of_3_mod_7() {
    assert_eq!(modular_multiplicative_inverse(3, 7), Some(5));
}

#[test]
fn mmi_zero_modulus_is_rejected() {
    assert_eq!(modular_multiplicative_inverse(1, 0), None);
    assert_eq!(modular_multiplicative_inverse(7, 0), None);
    assert_eq!(modular_multiplicative_inverse(0, 0), None);
}

#[test]
fn mmi_negative_modulus_is_rejected() {
    assert_eq!(modular_multiplicative_inverse(3, -7), None);
    assert_eq!(modular_multiplicative_inverse(-3, -7), None);
}

#[test]
fn mmi_modulus_one_gives_zero() {
    assert_eq!(modular_multiplicative_inverse(0, 1), Some(0));
    assert_eq!(modular_multiplicative_inverse(1, 1), Some(0));
    assert_eq!(modular_multiplicative_inverse(5, 1), Some(0));
    assert_eq!(modular_multiplicative_inverse(-5, 1), Some(0));
}

#[test]
fn mmi_zero_has_no_inverse_for_larger_moduli() {
    assert_eq!(modular_multiplicative_inverse(0, 2), None);
    assert_eq!(modular_multiplicative_inverse(0, 26), None);
}

#[test]
fn mmi_large_prime_modulus() {
    let m: isize = 1_000_000_007;
    assert_eq!(modular_multiplicative_inverse(2, m), Some(500_000_004));
    let r = modular_multiplicative_inverse(123_456_789, m).unwrap();
    assert_eq!((123_456_789i128 * r as i128).rem_euclid(m as i128), 1);
}

#[test]
fn mmi_extreme_operands() {
    assert_eq!(modular_multiplicative_inverse(isize::MAX, isize::MAX), None);
    let r = modular_multiplicative_inverse(isize::MAX - 1, isize::MAX).unwrap();
    assert_eq!(r, isize::MAX - 1);
    // isize::MIN is congruent to -1 modulo isize::MAX, so its inverse is MAX - 1
    assert_eq!(
        modular_multiplicative_inverse(isize::MIN, isize::MAX),
        Some(isize::MAX - 1)
    );
}

#[test]
fn egcd_base_cases() {
    assert_eq!(euclids_gcd(0, 0), (0, 0, 1));
    assert_eq!(euclids_gcd(0, 9), (9, 0, 1));
    assert_eq!(euclids_gcd(0, -9), (-9, 0, 1));
    assert_eq!(euclids_gcd(9, 0), (9, 1, 0));
}

#[test]
fn egcd_sign_follows_the_remainder_chain() {
    assert_eq!(euclids_gcd(-35, 15), (-5, 1, 2));
    assert_eq!(euclids_gcd(-1, 7), (-1, 1, 0));
}

#[test]
fn egcd_extreme_operands_do_not_overflow() {
    assert_eq!(euclids_gcd(isize::MIN, -1), (-1, 0, 1));
    assert_eq!(euclids_gcd(-1, isize::MIN), (-1, 1, 0));
    assert_eq!(euclids_gcd(isize::MIN, 0), (isize::MIN, 1, 0));
    assert_eq!(euclids_gcd(0, isize::MIN), (isize::MIN, 0, 1));
    assert_eq!(euclids_gcd(isize::MIN, isize::MIN), (isize::MIN, 1, 0));
    let (g, x, y) = euclids_gcd(isize::MIN, isize::MAX);
    assert_eq!(
        x as i128 * isize::MIN as i128 + y as i128 * isize::MAX as i128,
        g as i128
    );
    assert_eq!(g.abs(), 1);
}

#[test]
fn egcd_bezout_identity_holds_on_a_grid() {
    for a in -24isize..=24 {
        for b in -24isize..=24 {
            let (g, x, y) = euclids_gcd(a, b);
            assert_eq!(
                x as i128 * a as i128 + y as i128 * b as i128,
                g as i128,
                "bezout failed for ({a}, {b})"
            );
            assert_eq!((g as i128).abs(), gcd_ref(a as i128, b as i128));
        }
    }
}

#[test]
fn mmi_congruence_holds_on_a_grid() {
    for a in -50isize..=50 {
        for m in 1isize..=50 {
            match modular_multiplicative_inverse(a, m) {
                Some(r) => {
                    assert!(0 <= r && r < m, "out of range for ({a}, {m})");
                    assert_eq!(
                        (a as i128 * r as i128).rem_euclid(m as i128),
                        1i128.rem_euclid(m as i128),
                        "congruence failed for ({a}, {m})"
                    );
                    assert_eq!(gcd_ref(a as i128, m as i128), 1);
                }
                None => {
                    assert_ne!(gcd_ref(a as i128, m as i128), 1, "missing inverse for ({a}, {m})");
                }
            }
        }
    }
}

#[test]
fn repeated_calls_return_identical_results() {
    for (a, b) in [(11, 26), (-35, 15), (4, 8), (isize::MIN, -1), (0, 0)] {
        assert_eq!(euclids_gcd(a, b), euclids_gcd(a, b));
        assert_eq!(
            modular_multiplicative_inverse(a, b),
            modular_multiplicative_inverse(a, b)
        );
    }
}
