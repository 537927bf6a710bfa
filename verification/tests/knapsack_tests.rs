use num_bigint::BigUint;
use std::sync::atomic::AtomicBool;
use zpp::bignum::BigNum;
use zpp::gray::{gray_pairs, prefix_sums};
use zpp::knapsack::{
    lower_bound, mask_to_vec_u128, partition_bounds, partition_count, picked_big, ss_partition_u128,
    subset_sums_u128, SearchEnd,
};
use zpp::sort::{sort_indexed_desc, sort_pairs, sort_u128};

fn value(b: &BigNum) -> BigUint {
    BigUint::new(b.to_u32_digits())
}

#[test]
fn subset_sums_of_two_elements() {
    let r = subset_sums_u128(&[3, 5], 10);
    assert_eq!(r, vec![(0, 0), (3, 1), (5, 2), (8, 3)]);
}

#[test]
fn subset_sums_drop_sums_above_target() {
    let r = subset_sums_u128(&[3, 5], 6);
    assert_eq!(r, vec![(0, 0), (3, 1), (5, 2)]);
}

#[test]
fn subset_sums_sorted_with_ties_by_mask() {
    let r = subset_sums_u128(&[2, 2, 1], 100);
    assert_eq!(r, vec![(0, 0), (1, 4), (2, 1), (2, 2), (3, 5), (3, 6), (4, 3), (5, 7)]);
}

#[test]
fn subset_sums_refuse_more_than_twenty_elements() {
    let elems: Vec<u128> = (1..=21).collect();
    assert!(subset_sums_u128(&elems, 1000).is_empty());
    let twenty: Vec<u128> = (1..=20).collect();
    assert_eq!(subset_sums_u128(&twenty, 0), vec![(0, 0)]);
}

#[test]
fn mask_to_vec_picks_lowest_bit_first() {
    assert_eq!(mask_to_vec_u128(&[10, 20, 30, 40], 0b1010), vec![20, 40]);
    assert_eq!(mask_to_vec_u128(&[10, 20, 30, 40], 0), Vec::<u128>::new());
    assert_eq!(mask_to_vec_u128(&[7, 8, 9], 0b111), vec![7, 8, 9]);
}

#[test]
fn picked_big_matches_mask() {
    let v = picked_big(&[10, 20, 30], 0b101);
    let vals: Vec<BigUint> = v.iter().map(value).collect();
    assert_eq!(vals, vec![BigUint::from(10u32), BigUint::from(30u32)]);
}

#[test]
fn lower_bound_finds_first_at_least() {
    let v = vec![(1u128, 0u64), (3, 1), (3, 2), (7, 3)];
    assert_eq!(lower_bound(&v, 0), 0);
    assert_eq!(lower_bound(&v, 3), 1);
    assert_eq!(lower_bound(&v, 4), 3);
    assert_eq!(lower_bound(&v, 8), 4);
}

#[test]
fn partition_count_follows_sizes_and_cores() {
    assert_eq!(partition_count(10, 16), 1);
    assert_eq!(partition_count(1024, 16), 4);
    assert_eq!(partition_count(1024, 2), 2);
    assert_eq!(partition_count(100_000, 64), 8);
}

#[test]
fn partition_bounds_split_the_target() {
    assert_eq!(partition_bounds(100, 0, 4), Some((0, 25, 75, 100)));
    assert_eq!(partition_bounds(100, 3, 4), Some((75, 100, 0, 25)));
    assert_eq!(partition_bounds(2, 0, 4), None);
}

#[test]
fn ss_partition_finds_a_four_quarter_answer() {
    let qa = vec![3u128, 9];
    let qb = vec![4u128, 11];
    let qc = vec![6u128, 1];
    let qd = vec![20u128, 2];
    let target: u128 = 9 + 4 + 1 + 2;
    let a = subset_sums_u128(&qa, target);
    let b = subset_sums_u128(&qb, target);
    let c = subset_sums_u128(&qc, target);
    let d = subset_sums_u128(&qd, target);
    let stop = AtomicBool::new(false);
    let bounds = partition_bounds(target, 0, 1).unwrap();
    match ss_partition_u128(&a, &b, &c, &d, &qa, &qb, &qc, &qd, target, bounds, &stop) {
        SearchEnd::Found(sol) => assert_eq!(sol.iter().sum::<u128>(), target),
        _ => panic!("the partition holds an answer"),
    }
}

#[test]
fn ss_partition_stops_when_asked() {
    let qa = vec![3u128];
    let qb = vec![4u128];
    let qc = vec![6u128];
    let qd = vec![2u128];
    let target: u128 = 15;
    let a = subset_sums_u128(&qa, target);
    let b = subset_sums_u128(&qb, target);
    let c = subset_sums_u128(&qc, target);
    let d = subset_sums_u128(&qd, target);
    let stop = AtomicBool::new(true);
    let bounds = partition_bounds(target, 0, 1).unwrap();
    assert!(matches!(
        ss_partition_u128(&a, &b, &c, &d, &qa, &qb, &qc, &qd, target, bounds, &stop),
        SearchEnd::Stopped
    ));
}

#[test]
fn ss_partition_reports_none_without_answer() {
    let qa = vec![2u128];
    let qb = vec![4u128];
    let qc = vec![6u128];
    let qd = vec![8u128];
    let target: u128 = 7;
    let a = subset_sums_u128(&qa, target);
    let b = subset_sums_u128(&qb, target);
    let c = subset_sums_u128(&qc, target);
    let d = subset_sums_u128(&qd, target);
    let stop = AtomicBool::new(false);
    let bounds = partition_bounds(target, 0, 1).unwrap();
    assert!(matches!(
        ss_partition_u128(&a, &b, &c, &d, &qa, &qb, &qc, &qd, target, bounds, &stop),
        SearchEnd::Exhausted
    ));
}

/// Whether some selection of `nums` sums to `target`.
fn brute(nums: &[u128], target: u128) -> bool {
    (0u64..(1 << nums.len())).any(|m| {
        (0..nums.len()).filter(|i| m >> i & 1 == 1).map(|i| nums[i]).sum::<u128>() == target
    })
}

#[test]
fn partitions_together_find_every_reachable_target() {
    let qa = vec![3u128, 17, 40];
    let qb = vec![5u128, 9];
    let qc = vec![11u128, 2, 30];
    let qd = vec![7u128, 23];
    let all: Vec<u128> = qa.iter().chain(&qb).chain(&qc).chain(&qd).copied().collect();
    let stop = AtomicBool::new(false);
    for target in 1u128..=150 {
        let a = subset_sums_u128(&qa, target);
        let b = subset_sums_u128(&qb, target);
        let c = subset_sums_u128(&qc, target);
        let d = subset_sums_u128(&qd, target);
        let parts = 3;
        let mut found = false;
        for pid in 0..parts {
            if let Some(bounds) = partition_bounds(target, pid, parts) {
                match ss_partition_u128(&a, &b, &c, &d, &qa, &qb, &qc, &qd, target, bounds, &stop) {
                    SearchEnd::Found(sol) => {
                        assert_eq!(sol.iter().sum::<u128>(), target);
                        found = true;
                    },
                    SearchEnd::Exhausted => {},
                    SearchEnd::Stopped => panic!("not stopped"),
                }
            }
        }
        assert_eq!(found, brute(&all, target), "target {}", target);
    }
}

#[test]
fn sort_pairs_is_lexicographic() {
    let r = sort_pairs(vec![(5, 1), (2, 9), (5, 0), (1, 3)]);
    assert_eq!(r, vec![(1, 3), (2, 9), (5, 0), (5, 1)]);
}

#[test]
fn sort_u128_both_directions() {
    assert_eq!(sort_u128(&[4, 1, 3, 1], false), vec![1, 1, 3, 4]);
    assert_eq!(sort_u128(&[4, 1, 3, 1], true), vec![4, 3, 1, 1]);
}

#[test]
fn sort_indexed_desc_keeps_first_of_ties_first() {
    assert_eq!(sort_indexed_desc(&[5, 9, 5, 1]), vec![(1, 9), (0, 5), (2, 5), (3, 1)]);
}

#[test]
fn prefix_sums_accumulate() {
    assert_eq!(prefix_sums(&[1, 2, 3]), vec![0, 1, 3, 6]);
}

#[test]
fn gray_pairs_lists_masks_in_order() {
    assert_eq!(gray_pairs(&[3, 5], 10), vec![(0, 0), (3, 1), (5, 2), (8, 3)]);
    assert_eq!(gray_pairs(&[3, 5], 4), vec![(0, 0), (3, 1)]);
}

#[test]
fn partitions_cover_the_target_range() {
    let parts = 3;
    let bounds: Vec<(u128, u128, u128, u128)> =
        (0..parts).map(|pid| partition_bounds(100, pid, parts).unwrap()).collect();
    assert_eq!(bounds[0].0, 0);
    assert_eq!(bounds[2].1, 100);
    for pid in 0..parts - 1 {
        assert_eq!(bounds[pid].1, bounds[pid + 1].0);
    }
    assert_eq!(bounds, vec![(0, 33, 67, 100), (33, 66, 34, 67), (66, 100, 0, 34)]);
}

#[test]
fn ss_partition_with_an_empty_band_is_exhausted_even_when_stopped() {
    let qa = vec![3u128];
    let qb = vec![4u128];
    let qc = vec![6u128];
    let qd = vec![2u128];
    let target: u128 = 15;
    let a = subset_sums_u128(&qa, target);
    let b: Vec<(u128, u64)> = Vec::new();
    let c = subset_sums_u128(&qc, target);
    let d = subset_sums_u128(&qd, target);
    let stop = AtomicBool::new(true);
    let bounds = partition_bounds(target, 0, 1).unwrap();
    assert!(matches!(
        ss_partition_u128(&a, &b, &c, &d, &qa, &qb, &qc, &qd, target, bounds, &stop),
        SearchEnd::Exhausted
    ));
}
