use polars_compute::rolling::QuantileMethod;
use quantile::{quantile_slice, QuantileError, Ratio};

fn ratio(numer: i128, denom: i64) -> Ratio {
    Ratio { numer, denom }
}

fn all_methods() -> [QuantileMethod; 6] {
    [
        QuantileMethod::Nearest,
        QuantileMethod::Lower,
        QuantileMethod::Higher,
        QuantileMethod::Midpoint,
        QuantileMethod::Linear,
        QuantileMethod::Equiprobable,
    ]
}

#[test]
fn linear_quarter_of_one_to_four() {
    let mut vals = vec![1, 2, 3, 4];
    let r = quantile_slice(&mut vals, ratio(1, 4), QuantileMethod::Linear);
    assert_eq!(r, Ok(Some(ratio(7, 4))));
    let q = r.unwrap().unwrap();
    assert_eq!(q.numer as f64 / q.denom as f64, 1.75);
}

#[test]
fn nearest_half_of_one_to_four() {
    let mut vals = vec![1, 2, 3, 4];
    let r = quantile_slice(&mut vals, ratio(1, 2), QuantileMethod::Nearest);
    assert_eq!(r, Ok(Some(ratio(3, 1))));
}

#[test]
fn equiprobable_half_of_one_to_four() {
    let mut vals = vec![1, 2, 3, 4];
    let r = quantile_slice(&mut vals, ratio(1, 2), QuantileMethod::Equiprobable);
    assert_eq!(r, Ok(Some(ratio(2, 1))));
}

#[test]
fn fraction_below_zero_or_above_one_is_invalid() {
    let mut vals = vec![1, 2, 3, 4];
    assert_eq!(
        quantile_slice(&mut vals, ratio(-1, 10), QuantileMethod::Linear),
        Err(QuantileError::InvalidQuantile)
    );
    assert_eq!(
        quantile_slice(&mut vals, ratio(11, 10), QuantileMethod::Linear),
        Err(QuantileError::InvalidQuantile)
    );
    assert_eq!(vals, vec![1, 2, 3, 4]);
}

#[test]
fn fraction_without_positive_denominator_is_invalid() {
    for method in all_methods() {
        let mut vals = vec![3, 1, 2];
        assert_eq!(
            quantile_slice(&mut vals, ratio(0, 0), method),
            Err(QuantileError::InvalidQuantile)
        );
        assert_eq!(
            quantile_slice(&mut vals, ratio(-1, -2), method),
            Err(QuantileError::InvalidQuantile)
        );
        assert_eq!(vals, vec![3, 1, 2]);
    }
}

#[test]
fn invalid_fraction_is_refused_before_the_empty_buffer() {
    let mut vals: Vec<i64> = vec![];
    assert_eq!(
        quantile_slice(&mut vals, ratio(3, 2), QuantileMethod::Nearest),
        Err(QuantileError::InvalidQuantile)
    );
}

#[test]
fn empty_buffer_has_no_quantile() {
    for method in all_methods() {
        let mut vals: Vec<i64> = vec![];
        assert_eq!(quantile_slice(&mut vals, ratio(1, 2), method), Ok(None));
    }
}

#[test]
fn single_value_is_every_quantile() {
    for method in all_methods() {
        for numer in 0..=5 {
            let mut vals = vec![-17];
            assert_eq!(
                quantile_slice(&mut vals, ratio(numer, 5), method),
                Ok(Some(ratio(-17, 1)))
            );
        }
    }
}

#[test]
fn every_method_on_unsorted_ten() {
    let data = vec![7, 1, 10, 4, 2, 9, 3, 8, 6, 5];
    let q = ratio(3, 10);
    let expected = [
        (QuantileMethod::Lower, ratio(3, 1)),
        (QuantileMethod::Higher, ratio(4, 1)),
        (QuantileMethod::Nearest, ratio(4, 1)),
        (QuantileMethod::Midpoint, ratio(7, 2)),
        (QuantileMethod::Linear, ratio(37, 10)),
        (QuantileMethod::Equiprobable, ratio(3, 1)),
    ];
    for (method, want) in expected {
        let mut vals = data.clone();
        assert_eq!(quantile_slice(&mut vals, q, method), Ok(Some(want)));
    }
}

#[test]
fn selection_finds_order_statistics_of_reversed_data() {
    let data: Vec<i64> = (0..101).rev().collect();
    for k in 0..=100 {
        let mut vals = data.clone();
        assert_eq!(
            quantile_slice(&mut vals, ratio(k, 100), QuantileMethod::Lower),
            Ok(Some(ratio(k, 1)))
        );
    }
}

#[test]
fn buffer_keeps_its_values() {
    let data = vec![5, -3, 9, 9, 0, 12, -3, 7];
    for method in all_methods() {
        for numer in 0..=8 {
            let mut vals = data.clone();
            let r = quantile_slice(&mut vals, ratio(numer, 8), method);
            assert!(matches!(r, Ok(Some(_))));
            let mut after = vals.clone();
            after.sort();
            let mut before = data.clone();
            before.sort();
            assert_eq!(after, before);
        }
    }
}

#[test]
fn upper_neighbour_is_least_of_the_rest() {
    let mut vals = vec![50, 40, 10, 30, 20];
    let r = quantile_slice(&mut vals, ratio(3, 8), QuantileMethod::Midpoint);
    assert_eq!(r, Ok(Some(ratio(50, 2))));
    let mut vals = vec![50, 40, 10, 30, 20];
    let r = quantile_slice(&mut vals, ratio(3, 8), QuantileMethod::Linear);
    assert_eq!(r, Ok(Some(ratio(200, 8))));
}

#[test]
fn equal_neighbours_are_not_blended() {
    let mut vals = vec![4, 4, 4, 4];
    assert_eq!(
        quantile_slice(&mut vals, ratio(1, 2), QuantileMethod::Midpoint),
        Ok(Some(ratio(4, 1)))
    );
    let mut vals = vec![4, 4, 4, 4];
    assert_eq!(
        quantile_slice(&mut vals, ratio(1, 2), QuantileMethod::Linear),
        Ok(Some(ratio(4, 1)))
    );
}

#[test]
fn lower_between_two_positions_takes_the_lower_value() {
    let mut vals = vec![20, 10];
    assert_eq!(
        quantile_slice(&mut vals, ratio(1, 2), QuantileMethod::Lower),
        Ok(Some(ratio(10, 1)))
    );
    let mut vals = vec![20, 10];
    assert_eq!(
        quantile_slice(&mut vals, ratio(1, 2), QuantileMethod::Higher),
        Ok(Some(ratio(20, 1)))
    );
}

#[test]
fn zero_and_one_are_least_and_greatest() {
    let data = vec![3, -8, 12, 0, 5];
    for method in all_methods() {
        let mut vals = data.clone();
        assert_eq!(quantile_slice(&mut vals, ratio(0, 1), method), Ok(Some(ratio(-8, 1))));
        let mut vals = data.clone();
        assert_eq!(quantile_slice(&mut vals, ratio(1, 1), method), Ok(Some(ratio(12, 1))));
    }
}

#[test]
fn extreme_values_blend_without_overflow() {
    let mut vals = vec![i64::MAX, i64::MIN];
    assert_eq!(
        quantile_slice(&mut vals, ratio(1, 2), QuantileMethod::Linear),
        Ok(Some(ratio(-1, 2)))
    );
    let mut vals = vec![i64::MAX, i64::MIN];
    assert_eq!(
        quantile_slice(&mut vals, ratio(1, 2), QuantileMethod::Midpoint),
        Ok(Some(ratio(-1, 2)))
    );
}
