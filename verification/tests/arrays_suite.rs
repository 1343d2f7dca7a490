use dsa_practice::arrays::{
    max_area, max_sliding_window, max_subarray_sum, move_zeroes, trap_rain_water, two_sum,
};

#[test]
fn test_two_sum() {
    let nums = vec![2, 7, 11, 15];
    assert_eq!(two_sum(&nums, 9), Some((0, 1)));
    assert_eq!(two_sum(&nums, 26), Some((2, 3)));
    assert_eq!(two_sum(&nums, 10), None);
}

#[test]
fn test_two_sum_latest_partner() {
    // the scan pairs the earliest completing index with its most
    // recent partner
    let nums = vec![3, 3, 3];
    assert_eq!(two_sum(&nums, 6), Some((0, 1)));
    let nums = vec![1, 4, 4, 3];
    assert_eq!(two_sum(&nums, 7), Some((2, 3)));
}

#[test]
fn test_max_subarray_sum() {
    assert_eq!(max_subarray_sum(&[-2, 1, -3, 4, -1, 2, 1, -5, 4]), 6);
    assert_eq!(max_subarray_sum(&[1]), 1);
    assert_eq!(max_subarray_sum(&[5, 4, -1, 7, 8]), 23);
}

#[test]
fn test_max_subarray_sum_all_negative() {
    assert_eq!(max_subarray_sum(&[-5, -2, -8]), -2);
    assert_eq!(max_subarray_sum(&[]), 0);
}

#[test]
fn test_move_zeroes() {
    let mut nums = vec![0, 1, 0, 3, 12];
    move_zeroes(&mut nums);
    assert_eq!(nums, vec![1, 3, 12, 0, 0]);
}

#[test]
fn test_move_zeroes_edges() {
    let mut nums: Vec<i32> = vec![];
    move_zeroes(&mut nums);
    assert_eq!(nums, Vec::<i32>::new());
    let mut nums = vec![0, 0, 0];
    move_zeroes(&mut nums);
    assert_eq!(nums, vec![0, 0, 0]);
    let mut nums = vec![4, 5];
    move_zeroes(&mut nums);
    assert_eq!(nums, vec![4, 5]);
}

#[test]
fn test_max_area() {
    let height = vec![1, 8, 6, 2, 5, 4, 8, 3, 7];
    assert_eq!(max_area(&height), 49);
}

#[test]
fn test_max_area_two_bars() {
    assert_eq!(max_area(&[1, 1]), 1);
    assert_eq!(max_area(&[5]), 0);
}

#[test]
fn test_trap_rain_water() {
    let height = vec![0, 1, 0, 2, 1, 0, 1, 3, 2, 1, 2, 1];
    assert_eq!(trap_rain_water(&height), 6);
}

#[test]
fn test_trap_rain_water_edges() {
    assert_eq!(trap_rain_water(&[]), 0);
    assert_eq!(trap_rain_water(&[4, 2]), 0);
    assert_eq!(trap_rain_water(&[3, 0, 3]), 3);
}

#[test]
fn test_max_sliding_window() {
    let nums = vec![1, 3, -1, -3, 5, 3, 6, 7];
    assert_eq!(max_sliding_window(&nums, 3), vec![3, 3, 5, 5, 6, 7]);
}

#[test]
fn test_max_sliding_window_edges() {
    assert_eq!(max_sliding_window(&[], 3), Vec::<i32>::new());
    assert_eq!(max_sliding_window(&[1, 2], 0), Vec::<i32>::new());
    assert_eq!(max_sliding_window(&[1, 2], 5), Vec::<i32>::new());
    assert_eq!(max_sliding_window(&[4, 4, 4], 1), vec![4, 4, 4]);
    assert_eq!(max_sliding_window(&[9, 9], 2), vec![9]);
}

fn brute_force_windows(nums: &[i32], k: usize) -> Vec<i32> {
    if k == 0 || nums.len() < k {
        return vec![];
    }
    let mut out = Vec::new();
    for start in 0..=nums.len() - k {
        let mut m = nums[start];
        for j in start..start + k {
            if nums[j] > m {
                m = nums[j];
            }
        }
        out.push(m);
    }
    out
}

#[test]
fn test_max_sliding_window_matches_brute_force() {
    let nums = vec![7, -3, 4, 4, 0, -9, 12, 5, 5, -1, 2, 8, 8, -4, 3];
    for k in 1..=nums.len() {
        assert_eq!(max_sliding_window(&nums, k), brute_force_windows(&nums, k));
    }
}

#[test]
fn test_max_sliding_window_append_keeps_prefix() {
    // windows that were already complete keep their maxima when a
    // value is appended past their reach
    let mut nums = vec![2, 7, 1, 5, 3];
    let before = max_sliding_window(&nums, 2);
    nums.push(0);
    let after = max_sliding_window(&nums, 2);
    assert_eq!(&after[..before.len()], &before[..]);
}
