use select_nth::float_bits::{
    from_order_key, is_nan_bits, order_key, select_nth_unstable_bits, SelectError,
};

fn run(values: &[f64], index: usize) -> (Result<(), SelectError>, Vec<f64>) {
    let mut bits: Vec<u64> = values.iter().map(|x| x.to_bits()).collect();
    let r = select_nth_unstable_bits(&mut bits, index);
    (r, bits.into_iter().map(f64::from_bits).collect())
}

fn sorted(values: &[f64]) -> Vec<f64> {
    let mut v = values.to_vec();
    v.sort_by(|a, b| a.partial_cmp(b).unwrap());
    v
}

#[test]
fn six_values_rank_two() {
    let input = [5.0, 3.0, 8.0, 1.0, 9.0, 2.0];
    let (r, out) = run(&input, 2);
    assert_eq!(r, Ok(()));
    assert_eq!(out[2], 3.0);
    assert_eq!(sorted(&out[..2]), vec![1.0, 2.0]);
    assert_eq!(sorted(&out[3..]), vec![5.0, 8.0, 9.0]);
}

#[test]
fn all_equal_values_unchanged() {
    let input = [4.0, 4.0, 4.0];
    let (r, out) = run(&input, 1);
    assert_eq!(r, Ok(()));
    assert_eq!(out[1], 4.0);
    assert_eq!(out, vec![4.0, 4.0, 4.0]);
}

#[test]
fn two_values_rank_zero() {
    let (r, out) = run(&[2.0, 1.0], 0);
    assert_eq!(r, Ok(()));
    assert_eq!(out, vec![1.0, 2.0]);
}

#[test]
fn single_float_unchanged() {
    let (r, out) = run(&[-7.5], 0);
    assert_eq!(r, Ok(()));
    assert_eq!(out, vec![-7.5]);
}

#[test]
fn negative_values_and_infinities_in_every_rank() {
    let input = [
        3.5,
        -1.0,
        f64::INFINITY,
        -0.5,
        0.0,
        -1e300,
        f64::NEG_INFINITY,
        2.0,
        -1.0,
        1e-300,
    ];
    let expected = sorted(&input);
    for index in 0..input.len() {
        let (r, out) = run(&input, index);
        assert_eq!(r, Ok(()));
        assert_eq!(out[index], expected[index]);
        assert_eq!(sorted(&out), expected);
        for j in 0..index {
            assert!(out[j] <= out[index]);
        }
        for j in index + 1..out.len() {
            assert!(out[index] <= out[j]);
        }
    }
}

#[test]
fn minimum_and_maximum_at_the_ends() {
    let input = [0.25, -3.0, 12.0, 7.0, -0.125];
    let (_, low) = run(&input, 0);
    assert_eq!(low[0], -3.0);
    let (_, high) = run(&input, 4);
    assert_eq!(high[4], 12.0);
}

#[test]
fn float_selection_twice_is_stable() {
    let input: [f64; 8] = [0.5, 9.0, -2.0, 4.0, 4.0, 1.0, -8.0, 3.0];
    let mut bits: Vec<u64> = input.iter().map(|x| x.to_bits()).collect();
    assert_eq!(select_nth_unstable_bits(&mut bits, 5), Ok(()));
    let once = bits.clone();
    assert_eq!(select_nth_unstable_bits(&mut bits, 5), Ok(()));
    assert_eq!(bits, once);
}

#[test]
fn index_out_of_range_is_refused() {
    let input = [1.0, 2.0];
    let (r, out) = run(&input, 2);
    assert_eq!(r, Err(SelectError::InvalidIndex));
    assert_eq!(out, vec![1.0, 2.0]);
    let (r, _) = run(&[], 0);
    assert_eq!(r, Err(SelectError::InvalidIndex));
}

#[test]
fn not_a_number_is_refused() {
    let mut bits = vec![3.0f64.to_bits(), f64::NAN.to_bits(), 1.0f64.to_bits()];
    let before = bits.clone();
    assert_eq!(select_nth_unstable_bits(&mut bits, 0), Err(SelectError::IncomparableValue));
    assert_eq!(bits, before);
}

#[test]
fn nan_patterns() {
    assert!(is_nan_bits(f64::NAN.to_bits()));
    assert!(is_nan_bits((-f64::NAN).to_bits()));
    assert!(is_nan_bits(0x7ff0_0000_0000_0001));
    assert!(!is_nan_bits(f64::INFINITY.to_bits()));
    assert!(!is_nan_bits(f64::NEG_INFINITY.to_bits()));
    assert!(!is_nan_bits(0.0f64.to_bits()));
    assert!(!is_nan_bits(f64::MAX.to_bits()));
}

#[test]
fn order_keys_follow_value_order() {
    assert_eq!(order_key(0.0f64.to_bits()), 0x8000_0000_0000_0000);
    assert_eq!(order_key((-0.0f64).to_bits()), 0x7fff_ffff_ffff_ffff);
    assert_eq!(order_key(1.0f64.to_bits()), 0xbff0_0000_0000_0000);
    assert_eq!(order_key((-1.0f64).to_bits()), 0x400f_ffff_ffff_ffff);
    let ascending = [f64::NEG_INFINITY, -2.0, -1.0, -1e-300, -0.0, 0.0, 1e-300, 1.0, 2.0, f64::INFINITY];
    for pair in ascending.windows(2) {
        assert!(order_key(pair[0].to_bits()) < order_key(pair[1].to_bits()));
    }
    for x in ascending {
        assert_eq!(from_order_key(order_key(x.to_bits())), x.to_bits());
    }
    assert_eq!(from_order_key(0x8000_0000_0000_0000), 0);
}
