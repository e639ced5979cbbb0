use polars_compute::rolling::QuantileMethod;
use quantile::{generic_quantile, quantile_slice, ChunkedArray, Ratio};

fn ratio(numer: i128, denom: i64) -> Ratio {
    Ratio { numer, denom }
}

fn all_methods() -> [QuantileMethod; 6] {
    [
        QuantileMethod::Nearest,
        QuantileMethod::Lower,
        QuantileMethod::Higher,
        QuantileMethod::Midpoint,
        QuantileMethod::Linear,
        QuantileMethod::Equiprobable,
    ]
}

fn fractions() -> Vec<Ratio> {
    let mut out = Vec::new();
    for denom in [1i64, 2, 3, 4, 7, 10, 100] {
        for numer in 0..=denom {
            out.push(ratio(numer as i128, denom));
        }
    }
    out
}

#[test]
fn sorted_values_give_first_at_zero_and_last_at_one() {
    let sorted = vec![-9, -9, 0, 3, 3, 4, 11];
    for method in all_methods() {
        for denom in [1i64, 3, 1000] {
            let array = ChunkedArray::from_vec(sorted.clone()).with_sorted_flag(true);
            assert_eq!(array.quantile(ratio(0, denom), method), Ok(Some(ratio(-9, 1))));
            assert_eq!(
                array.quantile(ratio(denom as i128, denom), method),
                Ok(Some(ratio(11, 1)))
            );
            let unflagged = ChunkedArray::from_vec(sorted.clone());
            assert_eq!(unflagged.quantile(ratio(0, denom), method), Ok(Some(ratio(-9, 1))));
            assert_eq!(
                unflagged.quantile(ratio(denom as i128, denom), method),
                Ok(Some(ratio(11, 1)))
            );
        }
    }
}

#[test]
fn selecting_and_sorting_agree() {
    let data = vec![12, -7, 3, 3, 40, 0, -7, 25, 8, 1, 19];
    for method in all_methods() {
        for q in fractions() {
            let mut buffer = data.clone();
            let selected = quantile_slice(&mut buffer, q, method);
            let array = ChunkedArray::from_vec(data.clone());
            assert_eq!(generic_quantile(array.clone(), q, method), selected);
            assert_eq!(array.quantile(q, method), selected);
            assert_eq!(array.quantile_faster(q, method), selected);
            let flagged = ChunkedArray::from_vec(data.clone()).with_sorted_flag(true);
            assert_eq!(flagged.quantile(q, method), selected);
            assert_eq!(flagged.quantile_faster(q, method), selected);
            let chunked = ChunkedArray::from_vec(data[..4].to_vec())
                .with_chunk(data[4..].iter().map(|v| Some(*v)).collect())
                .unwrap();
            assert_eq!(chunked.quantile(q, method), selected);
            assert_eq!(chunked.quantile_faster(q, method), selected);
        }
    }
}

#[test]
fn nulls_do_not_change_the_quantile() {
    let data = vec![12, -7, 3, 3, 40, 0, -7, 25, 8, 1, 19];
    let mut slots: Vec<Option<i64>> = Vec::new();
    for v in &data {
        slots.push(None);
        slots.push(Some(*v));
    }
    slots.push(None);
    for method in all_methods() {
        for q in fractions() {
            let plain = ChunkedArray::from_vec(data.clone());
            let holed = ChunkedArray::from_slots(slots.clone());
            let with = holed.quantile(q, method).unwrap().unwrap();
            let without = plain.quantile(q, method).unwrap().unwrap();
            assert_eq!(with.denom, without.denom);
            if with.numer != without.numer {
                assert_eq!(q.denom as i128 * 12, with.numer - without.numer);
            }
        }
    }
}

#[test]
fn blend_lies_between_its_neighbours() {
    let data = vec![12, -7, 3, 3, 40, 0, -7, 25, 8, 1, 19];
    for q in fractions() {
        let array = ChunkedArray::from_vec(data.clone());
        let lower = array.quantile(q, QuantileMethod::Lower).unwrap().unwrap();
        let higher = array.quantile(q, QuantileMethod::Higher).unwrap().unwrap();
        assert_eq!((lower.denom, higher.denom), (1, 1));
        for method in [QuantileMethod::Linear, QuantileMethod::Midpoint] {
            let blend = array.quantile(q, method).unwrap().unwrap();
            assert!(blend.denom > 0);
            assert!(lower.numer * blend.denom as i128 <= blend.numer);
            assert!(blend.numer <= higher.numer * blend.denom as i128);
        }
        let mid = array.quantile(q, QuantileMethod::Midpoint).unwrap().unwrap();
        assert_eq!(mid.numer * 2, (lower.numer + higher.numer) * mid.denom as i128);
    }
}

fn direct(slots: &[Option<i64>], q: Ratio, method: QuantileMethod) -> Option<Ratio> {
    let mut vals: Vec<i64> = slots.iter().flatten().copied().collect();
    vals.sort();
    if vals.is_empty() {
        return None;
    }
    let count = vals.len() as i128;
    let den = q.denom as i128;
    let scaled = (count - 1) * q.numer;
    let floor = (scaled / den) as usize;
    let rest = scaled % den;
    let ceil = if rest > 0 { floor + 1 } else { floor };
    let whole = |v: i64| Some(ratio(v as i128, 1));
    match method {
        QuantileMethod::Lower => whole(vals[floor]),
        QuantileMethod::Higher => whole(vals[ceil]),
        QuantileMethod::Nearest => {
            whole(vals[if 2 * rest >= den { floor + 1 } else { floor }])
        }
        QuantileMethod::Equiprobable => {
            let rank = (count * q.numer + den - 1) / den - 1;
            whole(vals[rank.max(0) as usize])
        }
        QuantileMethod::Midpoint => {
            if vals[floor] == vals[ceil] {
                whole(vals[floor])
            } else {
                Some(ratio(vals[floor] as i128 + vals[ceil] as i128, 2))
            }
        }
        QuantileMethod::Linear => {
            if vals[floor] == vals[ceil] {
                whole(vals[floor])
            } else {
                let rise = vals[ceil] as i128 - vals[floor] as i128;
                Some(ratio(vals[floor] as i128 * den + rest * rise, q.denom))
            }
        }
    }
}

fn next(state: &mut u64, below: u64) -> u64 {
    *state = state
        .wrapping_mul(6364136223846793005)
        .wrapping_add(1442695040888963407);
    (*state >> 33) % below
}

#[test]
fn arrays_of_every_shape_match_the_direct_computation() {
    let mut state: u64 = 0x9E37_79B9_7F4A_7C15;
    for _ in 0..400 {
        let length = next(&mut state, 13) as usize;
        let spread = 1 + next(&mut state, 40);
        let mut slots: Vec<Option<i64>> = Vec::new();
        for _ in 0..length {
            if next(&mut state, 4) == 0 {
                slots.push(None);
            } else {
                slots.push(Some(next(&mut state, spread) as i64 - 20));
            }
        }
        let denom = 1 + next(&mut state, 12) as i64;
        let q = ratio(next(&mut state, denom as u64 + 1) as i128, denom);
        let cut = next(&mut state, length as u64 + 1) as usize;
        let flag = next(&mut state, 2) == 1;
        for method in all_methods() {
            let want = direct(&slots, q, method);
            let whole = ChunkedArray::from_slots(slots.clone()).with_sorted_flag(flag);
            assert_eq!(whole.quantile(q, method), Ok(want));
            assert_eq!(generic_quantile(whole.clone(), q, method), Ok(want));
            assert_eq!(whole.quantile_faster(q, method), Ok(want));
            let split = ChunkedArray::from_slots(slots[..cut].to_vec())
                .with_chunk(slots[cut..].to_vec())
                .unwrap();
            assert_eq!(split.quantile(q, method), Ok(want));
            assert_eq!(split.quantile_faster(q, method), Ok(want));
            if slots.iter().all(|slot| slot.is_some()) {
                let mut buffer: Vec<i64> = slots.iter().flatten().copied().collect();
                assert_eq!(quantile_slice(&mut buffer, q, method), Ok(want));
            }
        }
    }
}
