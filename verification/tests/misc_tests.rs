use num_bigint::BigUint;
use zpp::bignum::BigNum;
use zpp::bitset::Bitset;
use zpp::engines::genetic::{compute_sum, report_solution, XorShift};
use zpp::heap::{MaxHeap, MinHeap};
use zpp::profile::Profile;
use zpp::select::{report_bits, report_selection};
use zpp::signed::{
    signed_buckets_mod, signed_buckets_mod_bcj, signed_mask_neg_count, signed_mask_negative_only,
    signed_mask_positive_only,
};

fn small(x: u64) -> BigNum {
    BigNum::from_u32_digits(BigUint::from(x).to_u32_digits())
}

fn value(b: &BigNum) -> BigUint {
    BigUint::new(b.to_u32_digits())
}

fn entry(m: &std::collections::HashMap<u128, zpp::signed::SignedEntry>, k: u128) -> (i128, u64) {
    let e = m.get(&k).unwrap();
    (e.sum, e.mask)
}

#[test]
fn signed_buckets_keep_sum_nearest_zero() {
    let m = signed_buckets_mod(&[3, 5], 4, 4);
    assert_eq!(m.len(), 4);
    assert_eq!(entry(&m, 0), (0, 0));
    assert_eq!(entry(&m, 1), (-3, 2));
    assert_eq!(entry(&m, 2), (2, 6));
    assert_eq!(entry(&m, 3), (3, 1));
}

#[test]
fn signed_buckets_bcj_prefer_fewer_negatives() {
    let m = signed_buckets_mod_bcj(&[3, 5], 4, 4);
    assert_eq!(m.len(), 4);
    assert_eq!(entry(&m, 0), (0, 0));
    assert_eq!(entry(&m, 1), (5, 4));
    assert_eq!(entry(&m, 2), (2, 6));
    assert_eq!(entry(&m, 3), (3, 1));
}

#[test]
fn signed_buckets_edge_sizes() {
    let e = signed_buckets_mod(&[], 4, 4);
    assert_eq!(e.len(), 1);
    assert_eq!(entry(&e, 0), (0, 0));
    let many: Vec<u128> = (1..=17).collect();
    assert!(signed_buckets_mod(&many, 4, 4).is_empty());
    assert!(signed_buckets_mod_bcj(&many, 4, 4).is_empty());
}

#[test]
fn signed_buckets_drop_sums_beyond_bound() {
    let m = signed_buckets_mod(&[100], 1, 8);
    assert_eq!(m.len(), 1);
    assert_eq!(entry(&m, 0), (0, 0));
}

#[test]
fn signed_masks_split_by_sign() {
    let nums = [10u128, 20, 30, 40];
    let mask: u64 = 0b10_00_01_10;
    assert_eq!(signed_mask_positive_only(mask, &nums), vec![20]);
    assert_eq!(signed_mask_negative_only(mask, &nums), vec![10, 40]);
    assert_eq!(signed_mask_neg_count(mask), 2);
    assert_eq!(signed_mask_neg_count(0), 0);
    assert_eq!(signed_mask_neg_count(0b11), 0);
}

#[test]
fn min_heap_pops_in_order() {
    let mut h = MinHeap::new(4);
    for e in [(5u128, 0u32, 0u32), (1, 1, 1), (3, 2, 2), (1, 0, 9)] {
        h.push(e);
    }
    assert_eq!(h.len(), 4);
    let firsts: Vec<u128> = (0..4).map(|_| h.pop().unwrap().0).collect();
    assert_eq!(firsts, vec![1, 1, 3, 5]);
    assert!(h.pop().is_none());
}

#[test]
fn triple_heaps_order_whole_triples() {
    let mut h = MinHeap::by_triples(4);
    for e in [(1u128, 2u32, 0u32), (1, 0, 9), (1, 0, 3)] {
        h.push(e);
    }
    assert_eq!(h.pop(), Some((1, 0, 3)));
    assert_eq!(h.peek(), Some((1, 0, 9)));
    let mut m = MaxHeap::by_triples(4);
    for e in [(7u128, 1u32, 0u32), (7, 3, 0), (2, 9, 9)] {
        m.push(e);
    }
    assert_eq!(m.pop(), Some((7, 3, 0)));
    m.replace((1, 0, 0));
    assert_eq!(m.pop(), Some((2, 9, 9)));
    assert_eq!(m.pop(), Some((1, 0, 0)));
}

#[test]
fn xorshift_steps() {
    let mut g = XorShift::from_seed(0);
    assert_eq!(g.next(), 0xdc1b_77ae_0bf3_4dad);
    let mut h = XorShift::from_seed(0);
    assert_eq!(h.gen_range(3, 13), 3 + 9);
}

#[test]
fn genetic_sums_and_answers() {
    let nums = [4u128, 7, 9, 11];
    assert_eq!(compute_sum(0b1011, &nums, 4), 4 + 7 + 11);
    assert_eq!(compute_sum(0b1011, &nums, 2), 4 + 7);
    let sol: Vec<BigUint> = report_solution(&nums, 4, 0b0110).iter().map(value).collect();
    assert_eq!(sol, vec![BigUint::from(7u32), BigUint::from(9u32)]);
}

#[test]
fn selections_become_answers() {
    let nums = [4u128, 7, 9];
    let a: Vec<BigUint> = report_selection(&nums, &[true, false, true]).iter().map(value).collect();
    assert_eq!(a, vec![BigUint::from(4u32), BigUint::from(9u32)]);
    let b: Vec<BigUint> = report_bits(&nums, 0b110).iter().map(value).collect();
    assert_eq!(b, vec![BigUint::from(7u32), BigUint::from(9u32)]);
}

#[test]
fn bitset_shift_or() {
    let mut b = Bitset::new(10);
    b.set(0);
    b.set(2);
    b.shift_or_inplace(3);
    let on: Vec<usize> = (0..10).filter(|i| b.get(*i)).collect();
    assert_eq!(on, vec![0, 2, 3, 5]);
    let c = b.copy();
    assert!(c.get(5) && !c.get(4));
}

#[test]
fn profile_facts() {
    let p = Profile::new(vec![small(1), small(2), small(4), small(8)], small(5), false);
    assert_eq!(p.n(), 4);
    assert_eq!(value(p.total_sum()), BigUint::from(15u32));
    assert!(p.is_super_increasing());
    assert!(p.u128_safe());
    assert!(!p.looks_sat_encoded());
    assert_eq!(p.target_u128(), 5);
    assert_eq!(p.numbers_u128(), vec![1, 2, 4, 8]);
    let q = Profile::new(vec![small(3), small(2)], small(1), true);
    assert!(!q.is_super_increasing());
    assert!(q.looks_sat_encoded());
    let huge = BigUint::from(1u32) << 127u32;
    let r = Profile::new(vec![BigNum::from_u32_digits(huge.to_u32_digits())], small(1), false);
    assert!(!r.u128_safe());
}

#[test]
fn signed_entries_decode_to_their_sums() {
    let nums = [3u128, 5, 11, 20];
    for m in [signed_buckets_mod(&nums, 20, 8), signed_buckets_mod_bcj(&nums, 20, 8)] {
        assert!(!m.is_empty());
        for e in m.values() {
            let pos: i128 = signed_mask_positive_only(e.mask, &nums).iter().map(|x| *x as i128).sum();
            let neg: i128 = signed_mask_negative_only(e.mask, &nums).iter().map(|x| *x as i128).sum();
            assert_eq!(pos - neg, e.sum);
        }
    }
}

#[test]
fn bcj_buckets_have_the_plain_keys() {
    let nums = [7u128, 11, 2, 9, 4];
    let plain = signed_buckets_mod(&nums, 13, 8);
    let bcj = signed_buckets_mod_bcj(&nums, 13, 8);
    let mut a: Vec<u128> = plain.keys().copied().collect();
    let mut b: Vec<u128> = bcj.keys().copied().collect();
    a.sort();
    b.sort();
    assert_eq!(a, b);
    for (k, e) in bcj.iter() {
        let p = &plain[k];
        assert!(signed_mask_neg_count(e.mask) <= signed_mask_neg_count(p.mask));
    }
}

#[test]
fn genetic_sum_wraps_past_the_top() {
    let nums = [u128::MAX, 2u128, 5];
    assert_eq!(compute_sum(0b011, &nums, 3), 1);
    assert_eq!(compute_sum(0b110, &nums, 3), 7);
}
