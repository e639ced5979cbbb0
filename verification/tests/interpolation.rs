use quantile::{linear_interpol, midpoint_interpol, Ratio};

#[test]
fn midpoint_of_equal_values_is_the_value() {
    assert_eq!(midpoint_interpol(7, 7), Ratio { numer: 7, denom: 1 });
    assert_eq!(midpoint_interpol(-2, -2), Ratio { numer: -2, denom: 1 });
}

#[test]
fn midpoint_is_half_the_sum() {
    assert_eq!(midpoint_interpol(1, 4), Ratio { numer: 5, denom: 2 });
    assert_eq!(midpoint_interpol(-3, 4), Ratio { numer: 1, denom: 2 });
    assert_eq!(midpoint_interpol(2, 4), Ratio { numer: 6, denom: 2 });
}

#[test]
fn midpoint_of_extremes_does_not_overflow() {
    assert_eq!(midpoint_interpol(i64::MIN, i64::MAX), Ratio { numer: -1, denom: 2 });
    assert_eq!(
        midpoint_interpol(i64::MAX - 1, i64::MAX),
        Ratio { numer: 2 * (i64::MAX as i128) - 1, denom: 2 }
    );
    assert_eq!(
        midpoint_interpol(i64::MIN, i64::MIN + 1),
        Ratio { numer: 2 * (i64::MIN as i128) + 1, denom: 2 }
    );
}

#[test]
fn linear_of_equal_values_is_the_value() {
    let position = Ratio { numer: 7, denom: 4 };
    assert_eq!(linear_interpol(5, 5, 1, position), Ratio { numer: 5, denom: 1 });
}

#[test]
fn linear_weighs_by_the_fractional_part() {
    let r = linear_interpol(1, 2, 0, Ratio { numer: 3, denom: 4 });
    assert_eq!(r, Ratio { numer: 7, denom: 4 });
    assert_eq!(r.numer as f64 / r.denom as f64, 1.75);
    let r = linear_interpol(10, 20, 3, Ratio { numer: 37, denom: 10 });
    assert_eq!(r, Ratio { numer: 170, denom: 10 });
    let r = linear_interpol(-5, 5, 2, Ratio { numer: 9, denom: 4 });
    assert_eq!(r, Ratio { numer: -10, denom: 4 });
}

#[test]
fn linear_at_the_ends_of_the_span() {
    assert_eq!(linear_interpol(1, 9, 2, Ratio { numer: 6, denom: 3 }), Ratio { numer: 3, denom: 3 });
    assert_eq!(linear_interpol(1, 9, 2, Ratio { numer: 9, denom: 3 }), Ratio { numer: 27, denom: 3 });
}

#[test]
fn linear_of_extremes_does_not_overflow() {
    let den = i64::MAX;
    let position = Ratio { numer: den as i128 - 1, denom: den };
    let r = linear_interpol(i64::MIN, i64::MAX, 0, position);
    let expected = (i64::MIN as i128) * (den as i128)
        + (den as i128 - 1) * (i64::MAX as i128 - i64::MIN as i128);
    assert_eq!(r, Ratio { numer: expected, denom: den });
    let r = linear_interpol(i64::MAX, i64::MIN, 0, position);
    let expected = (i64::MAX as i128) * (den as i128)
        + (den as i128 - 1) * (i64::MIN as i128 - i64::MAX as i128);
    assert_eq!(r, Ratio { numer: expected, denom: den });
}

#[test]
fn ratio_of_integer_has_denominator_one() {
    assert_eq!(Ratio::from_int(-9), Ratio { numer: -9, denom: 1 });
    assert_eq!(Ratio::new(3, 4), Ratio { numer: 3, denom: 4 });
}

#[test]
fn unit_interval_is_recognised() {
    assert!(Ratio::new(0, 1).in_unit_interval());
    assert!(Ratio::new(1, 1).in_unit_interval());
    assert!(Ratio::new(1, 2).in_unit_interval());
    assert!(Ratio::new(i64::MAX as i128, i64::MAX).in_unit_interval());
    assert!(!Ratio::new(-1, 10).in_unit_interval());
    assert!(!Ratio::new(11, 10).in_unit_interval());
    assert!(!Ratio::new(0, 0).in_unit_interval());
    assert!(!Ratio::new(1, -2).in_unit_interval());
    assert!(!Ratio::new(-1, -2).in_unit_interval());
    assert!(!Ratio::new(i128::MAX, i64::MAX).in_unit_interval());
}
