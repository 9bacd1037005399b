use select_nth::select::{is_partitioned_at, select_nth_unstable};

fn pseudo_random(seed: u64, len: usize, modulus: u64) -> Vec<u64> {
    let mut state = seed;
    let mut out = Vec::new();
    for _ in 0..len {
        state = state.wrapping_mul(6364136223846793005).wrapping_add(1442695040888963407);
        out.push((state >> 33) % modulus);
    }
    out
}

fn check_selection(before: &[u64], after: &[u64], index: usize) {
    let mut sorted_before = before.to_vec();
    sorted_before.sort();
    let mut sorted_after = after.to_vec();
    sorted_after.sort();
    assert_eq!(sorted_before, sorted_after);
    assert_eq!(after[index], sorted_before[index]);
    for j in 0..index {
        assert!(after[j] <= after[index]);
    }
    for j in index + 1..after.len() {
        assert!(after[index] <= after[j]);
    }
}

#[test]
fn every_rank_of_several_inputs() {
    let inputs: Vec<Vec<u64>> = vec![
        vec![5, 3, 8, 1, 9, 2],
        vec![1, 2, 3, 4, 5, 6, 7],
        vec![7, 6, 5, 4, 3, 2, 1],
        vec![2, 2, 1, 1, 3, 3, 2, 2],
        vec![u64::MAX, 0, u64::MAX, 0, 1],
        pseudo_random(1, 50, 10),
        pseudo_random(2, 101, 1000),
    ];
    for input in inputs {
        for index in 0..input.len() {
            let mut v = input.clone();
            select_nth_unstable(&mut v, index);
            check_selection(&input, &v, index);
        }
    }
}

#[test]
fn large_input_with_many_duplicates() {
    let input = pseudo_random(7, 5000, 3);
    for index in [0usize, 1, 2499, 4998, 4999] {
        let mut v = input.clone();
        select_nth_unstable(&mut v, index);
        check_selection(&input, &v, index);
    }
}

#[test]
fn selecting_twice_changes_nothing_the_second_time() {
    let input = pseudo_random(3, 64, 20);
    for index in [0usize, 17, 63] {
        let mut v = input.clone();
        select_nth_unstable(&mut v, index);
        let once = v.clone();
        select_nth_unstable(&mut v, index);
        assert_eq!(v, once);
    }
}

#[test]
fn first_rank_is_minimum_and_last_rank_is_maximum() {
    let input = vec![40, 10, 70, 20, 60, 30, 50];
    let mut v = input.clone();
    select_nth_unstable(&mut v, 0);
    assert_eq!(v[0], 10);
    let mut w = input.clone();
    select_nth_unstable(&mut w, 6);
    assert_eq!(w[6], 70);
}

#[test]
fn single_value_is_left_alone() {
    let mut v = vec![42u64];
    select_nth_unstable(&mut v, 0);
    assert_eq!(v, vec![42]);
}

#[test]
fn split_input_is_left_alone() {
    let mut v = vec![3u64, 1, 2, 4, 9, 7, 8];
    assert!(is_partitioned_at(&v, 3));
    select_nth_unstable(&mut v, 3);
    assert_eq!(v, vec![3, 1, 2, 4, 9, 7, 8]);
}

#[test]
fn partition_check() {
    let v = vec![3u64, 1, 2, 4, 9, 7, 8];
    assert!(is_partitioned_at(&v, 3));
    assert!(!is_partitioned_at(&v, 0));
    assert!(!is_partitioned_at(&v, 6));
    assert!(!is_partitioned_at(&v, 7));
    assert!(!is_partitioned_at(&Vec::new(), 0));
}
