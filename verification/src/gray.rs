//! Enumeration of all subset sums of a short list in mask order, each sum
//! obtained from the previous one in constant time.
//!
//! Going from mask `m - 1` to `m` sets the lowest set bit `t` of `m` and
//! clears every bit below it, so the sum gains `e[t]` and loses the sum of
//! the first `t` elements.
use crate::bits::{
    bit, lemma_clear_lowest, lemma_zero_no_bits, lemma_lt_pow_fits, lemma_mask_sum_increment, lemma_picked_gap,
    lemma_picked_step, mask_sum, picked, prefix_sum,
};
use crate::knapsack::mask_pairs;
use crate::spec::{ints, lemma_sum_of_push, sum_of};
use vstd::prelude::*;

verus! {

/// With nonnegative elements, the picked sum stays below the prefix sum.
pub proof fn lemma_picked_le_prefix(e: Seq<int>, m: u64, k: int)
    requires
        0 <= k <= e.len(),
        forall|i: int| 0 <= i < e.len() ==> e[i] >= 0,
    ensures
        0 <= sum_of(picked(e, m, k)) <= prefix_sum(e, k),
    decreases k,
{
    if k > 0 {
        lemma_picked_le_prefix(e, m, k - 1);
        lemma_picked_step(e, m, k);
        assert(e.take(k) =~= e.take(k - 1).push(e[k - 1]));
        lemma_sum_of_push(e.take(k - 1), e[k - 1]);
    } else {
        assert(picked(e, m, 0) =~= Seq::<int>::empty());
        assert(e.take(0) =~= Seq::<int>::empty());
    }
}

/// With nonnegative elements, prefix sums grow with the prefix.
pub proof fn lemma_prefix_mono(e: Seq<int>, k1: int, k2: int)
    requires
        0 <= k1 <= k2 <= e.len(),
        forall|i: int| 0 <= i < e.len() ==> e[i] >= 0,
    ensures
        0 <= prefix_sum(e, k1) <= prefix_sum(e, k2),
    decreases k2 - k1,
{
    if k2 > k1 {
        lemma_prefix_mono(e, k1, k2 - 1);
        assert(e.take(k2) =~= e.take(k2 - 1).push(e[k2 - 1]));
        lemma_sum_of_push(e.take(k2 - 1), e[k2 - 1]);
    } else {
        lemma_picked_le_prefix(e, 0, k1);
    }
}

/// The prefix sums of `elems`: entry `i` is the sum of the first `i`.
pub fn prefix_sums(elems: &[u128]) -> (pref: Vec<u128>)
    requires
        sum_of(ints(elems@)) <= u128::MAX,
    ensures
        pref@.len() == elems@.len() + 1,
        forall|i: int| 0 <= i <= elems@.len() ==> #[trigger] pref@[i] == prefix_sum(ints(elems@), i),
{
    let ghost e = ints(elems@);
    let mut pref: Vec<u128> = Vec::new();
    pref.push(0);
    proof {
        assert(e.take(0) =~= Seq::<int>::empty());
    }
    let mut i: usize = 0;
    while i < elems.len()
        invariant
            e == ints(elems@),
            sum_of(e) <= u128::MAX,
            i <= elems@.len(),
            pref@.len() == i + 1,
            forall|j: int| 0 <= j <= i ==> #[trigger] pref@[j] == prefix_sum(e, j),
        decreases elems@.len() - i,
    {
        proof {
            assert(e.take(i + 1) =~= e.take(i as int).push(e[i as int]));
            lemma_sum_of_push(e.take(i as int), e[i as int]);
            lemma_prefix_mono(e, i + 1, e.len() as int);
            assert(e.take(e.len() as int) =~= e);
        }
        let next = pref[i] + elems[i];
        pref.push(next);
        i = i + 1;
    }
    pref
}

/// The `(sum, mask)` pairs of all masks below `2^n` in mask order, keeping
/// the sums that do not exceed `target`.
pub fn gray_pairs(elems: &[u128], target: u128) -> (r: Vec<(u128, u64)>)
    requires
        elems@.len() < 64,
        sum_of(ints(elems@)) <= u128::MAX,
    ensures
        r@ == mask_pairs(ints(elems@), target as int, (1u64 << elems@.len()) as int),
{
    let ghost e = ints(elems@);
    let n = elems.len();
    let total: u64 = 1u64 << (n as u64);
    let pref = prefix_sums(elems);
    let mut sums: Vec<(u128, u64)> = Vec::new();
    let mut s: u128 = 0;
    let mut mask: u64 = 0;
    proof {
        assert(forall|i: int| 0 <= i < e.len() ==> e[i] >= 0);
        assert(e.take(e.len() as int) =~= e);
    }
    while mask < total
        invariant
            e == ints(elems@),
            n == elems@.len(),
            n < 64,
            total == 1u64 << (n as u64),
            mask <= total,
            sum_of(e) <= u128::MAX,
            prefix_sum(e, n as int) == sum_of(e),
            forall|i: int| 0 <= i < e.len() ==> e[i] >= 0,
            pref@.len() == n + 1,
            forall|i: int| 0 <= i <= n ==> #[trigger] pref@[i] == prefix_sum(e, i),
            sums@ == mask_pairs(e, target as int, mask as int),
            mask > 0 ==> s == mask_sum(e, (mask - 1) as u64),
            mask == 0 ==> s == 0,
        decreases total - mask,
    {
        proof {
            lemma_lt_pow_fits(mask, n as u64);
            lemma_picked_le_prefix(e, mask, n as int);
        }
        if mask > 0 {
            proof {
                lemma_clear_lowest(mask);
                lemma_mask_sum_increment(e, mask, n as int);
            }
            let k = mask.trailing_zeros() as usize;
            proof {
                assert(bit(mask, k as int));
                assert(k < n);
                assert(e[k as int] == elems@[k as int] as int);
                assert(mask_sum(e, mask) == mask_sum(e, (mask - 1) as u64) + e[k as int] - prefix_sum(e, k as int));
            }
            let a = s.wrapping_add(elems[k]);
            s = a.wrapping_sub(pref[k]);
            proof {
                let v = mask_sum(e, mask);
                assert(0 <= v <= sum_of(e));
                assert(pref@[k as int] == prefix_sum(e, k as int));
                assert(s == v);
            }
        } else {
            proof {
                lemma_zero_no_bits(mask);
                lemma_picked_gap(e, mask, 0, n as int);
                assert(picked(e, mask, 0) =~= Seq::<int>::empty());
                assert(mask_sum(e, mask) == 0);
            }
        }
        assert(s == mask_sum(e, mask));
        proof {
            assert(((mask + 1 - 1) as u64) == mask);
        }
        if s <= target {
            sums.push((s, mask));
        }
        mask = mask + 1;
    }
    sums
}

} // verus!
