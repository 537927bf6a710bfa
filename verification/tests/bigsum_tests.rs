use num_bigint::BigUint;
use std::sync::atomic::AtomicBool;
use zpp::bigheap::BigHeap;
use zpp::bignum::{copy_all, sort_big_desc, BigNum};
use zpp::knapsack::SearchEnd;
use zpp::bigsum::{
    lower_bound_big, mask_to_vec_big, partition_bounds_big, sort_big_pairs, ss_partition_big, subset_sums_big,
};

fn big(x: &BigUint) -> BigNum {
    BigNum::from_u32_digits(x.to_u32_digits())
}

fn small(x: u64) -> BigNum {
    big(&BigUint::from(x))
}

fn value(b: &BigNum) -> BigUint {
    BigUint::new(b.to_u32_digits())
}

fn pairs(v: &[(BigNum, u64)]) -> Vec<(BigUint, u64)> {
    v.iter().map(|(b, m)| (value(b), *m)).collect()
}

#[test]
fn big_subset_sums_of_two_elements() {
    let r = subset_sums_big(&[small(3), small(5)], &small(10));
    let expect: Vec<(BigUint, u64)> =
        vec![(0u32.into(), 0), (3u32.into(), 1), (5u32.into(), 2), (8u32.into(), 3)];
    assert_eq!(pairs(&r), expect);
}

#[test]
fn big_subset_sums_keep_only_reachable_targets() {
    let r = subset_sums_big(&[small(3), small(5)], &small(4));
    let expect: Vec<(BigUint, u64)> = vec![(0u32.into(), 0), (3u32.into(), 1)];
    assert_eq!(pairs(&r), expect);
    let many: Vec<BigNum> = (1..=21).map(small).collect();
    assert!(subset_sums_big(&many, &small(1000)).is_empty());
}

#[test]
fn big_subset_sums_beyond_128_bits() {
    let huge = BigUint::from(1u32) << 200u32;
    let r = subset_sums_big(&[big(&huge), small(1)], &big(&(huge.clone() + 1u32)));
    let expect: Vec<(BigUint, u64)> =
        vec![(0u32.into(), 0), (1u32.into(), 2), (huge.clone(), 1), (huge + 1u32, 3)];
    assert_eq!(pairs(&r), expect);
}

#[test]
fn big_mask_to_vec_picks_lowest_first() {
    let nums = vec![small(10), small(20), small(30)];
    let v: Vec<BigUint> = mask_to_vec_big(&nums, 0b110).iter().map(value).collect();
    assert_eq!(v, vec![BigUint::from(20u32), BigUint::from(30u32)]);
}

#[test]
fn big_sort_pairs_is_lexicographic() {
    let v = vec![(small(5), 1), (small(2), 9), (small(5), 0)];
    let r = sort_big_pairs(&v);
    let expect: Vec<(BigUint, u64)> = vec![(2u32.into(), 9), (5u32.into(), 0), (5u32.into(), 1)];
    assert_eq!(pairs(&r), expect);
}

#[test]
fn big_lower_bound_finds_first_at_least() {
    let v = vec![(small(1), 0), (small(4), 1), (small(4), 2), (small(9), 3)];
    assert_eq!(lower_bound_big(&v, &small(4)), 1);
    assert_eq!(lower_bound_big(&v, &small(10)), 4);
}

#[test]
fn big_partition_bounds_split_the_target() {
    let (a, b, c, d) = partition_bounds_big(&small(100), 1, 4).unwrap();
    assert_eq!(
        (value(&a), value(&b), value(&c), value(&d)),
        (25u32.into(), 50u32.into(), 50u32.into(), 75u32.into())
    );
    assert!(partition_bounds_big(&small(2), 0, 4).is_none());
}

#[test]
fn big_partition_finds_answer_with_huge_values() {
    let h = BigUint::from(1u32) << 150u32;
    let qa = vec![big(&h), small(3)];
    let qb = vec![small(4), small(11)];
    let qc = vec![small(6), small(1)];
    let qd = vec![small(20), small(2)];
    let t = h.clone() + 4u32 + 1u32 + 2u32;
    let target = big(&t);
    let a = subset_sums_big(&qa, &target);
    let b = subset_sums_big(&qb, &target);
    let c = subset_sums_big(&qc, &target);
    let d = subset_sums_big(&qd, &target);
    let bounds = partition_bounds_big(&target, 0, 1).unwrap();
    let stop = AtomicBool::new(false);
    match ss_partition_big(&a, &b, &c, &d, &qa, &qb, &qc, &qd, &target, &bounds, &stop) {
        SearchEnd::Found(sol) => {
            let total: BigUint = sol.iter().map(value).sum();
            assert_eq!(total, t);
        },
        _ => panic!("the partition holds an answer"),
    }
}

#[test]
fn big_partition_without_answer() {
    let qa = vec![small(2)];
    let qb = vec![small(4)];
    let qc = vec![small(6)];
    let qd = vec![small(8)];
    let target = small(7);
    let a = subset_sums_big(&qa, &target);
    let b = subset_sums_big(&qb, &target);
    let c = subset_sums_big(&qc, &target);
    let d = subset_sums_big(&qd, &target);
    let bounds = partition_bounds_big(&target, 0, 1).unwrap();
    let stop = AtomicBool::new(false);
    assert!(matches!(
        ss_partition_big(&a, &b, &c, &d, &qa, &qb, &qc, &qd, &target, &bounds, &stop),
        SearchEnd::Exhausted
    ));
}

#[test]
fn big_heap_orders_min_and_max() {
    let mut h = BigHeap::new(4, false);
    h.push((small(7), 0, 1));
    h.push((small(3), 2, 0));
    h.push((small(3), 1, 5));
    assert_eq!(h.len(), 3);
    let top = h.peek().unwrap();
    assert_eq!((value(&top.0), top.1, top.2), (3u32.into(), 1, 5));
    let order: Vec<(BigUint, u32, u32)> = (0..3).map(|_| {
        let e = h.pop().unwrap();
        (value(&e.0), e.1, e.2)
    }).collect();
    assert_eq!(order, vec![(3u32.into(), 1, 5), (3u32.into(), 2, 0), (7u32.into(), 0, 1)]);
    assert!(h.pop().is_none());
    let mut m = BigHeap::new(0, true);
    m.push((small(1), 0, 0));
    m.push((small(9), 0, 0));
    let e = m.pop().unwrap();
    assert_eq!(value(&e.0), BigUint::from(9u32));
}

#[test]
fn copies_and_descending_sort_of_big_numbers() {
    let v = vec![small(4), small(10), small(4), small(1)];
    let c: Vec<BigUint> = copy_all(&v).iter().map(value).collect();
    assert_eq!(c, vec![4u32.into(), 10u32.into(), 4u32.into(), 1u32.into()]);
    let s: Vec<BigUint> = sort_big_desc(&v).iter().map(value).collect();
    assert_eq!(s, vec![10u32.into(), 4u32.into(), 4u32.into(), 1u32.into()]);
}

#[test]
fn big_partitions_together_find_every_reachable_target() {
    let raw: [Vec<u64>; 4] = [vec![3, 17, 40], vec![5, 9], vec![11, 2, 30], vec![7, 23]];
    let qs: Vec<Vec<BigNum>> = raw.iter().map(|q| q.iter().map(|x| small(*x)).collect()).collect();
    let all: Vec<u64> = raw.iter().flatten().copied().collect();
    let stop = AtomicBool::new(false);
    for t in 1u64..=150 {
        let target = small(t);
        let lists: Vec<Vec<(BigNum, u64)>> = qs.iter().map(|q| subset_sums_big(q, &target)).collect();
        let reachable = (0u64..(1 << all.len())).any(|m| {
            (0..all.len()).filter(|i| m >> i & 1 == 1).map(|i| all[i]).sum::<u64>() == t
        });
        let mut found = false;
        for pid in 0..2u64 {
            if let Some(bounds) = partition_bounds_big(&target, pid, 2) {
                match ss_partition_big(
                    &lists[0], &lists[1], &lists[2], &lists[3], &qs[0], &qs[1], &qs[2], &qs[3], &target, &bounds, &stop,
                ) {
                    SearchEnd::Found(sol) => {
                        assert_eq!(sol.iter().map(value).sum::<BigUint>(), BigUint::from(t));
                        found = true;
                    },
                    SearchEnd::Exhausted => {},
                    SearchEnd::Stopped => panic!("not stopped"),
                }
            }
        }
        assert_eq!(found, reachable, "target {}", t);
    }
}

#[test]
fn big_partition_with_an_empty_band_is_exhausted_even_when_stopped() {
    let qa = vec![small(2)];
    let qb = vec![small(4)];
    let qc = vec![small(6)];
    let qd = vec![small(8)];
    let target = small(7);
    let a = subset_sums_big(&qa, &target);
    let b = subset_sums_big(&qb, &target);
    let c = subset_sums_big(&qc, &target);
    let d: Vec<(BigNum, u64)> = Vec::new();
    let bounds = partition_bounds_big(&target, 0, 1).unwrap();
    let stop = AtomicBool::new(true);
    assert!(matches!(
        ss_partition_big(&a, &b, &c, &d, &qa, &qb, &qc, &qd, &target, &bounds, &stop),
        SearchEnd::Exhausted
    ));
}
