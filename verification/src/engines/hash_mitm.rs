//! HashMITM: meet in the middle with hash tables.
//!
//! Below 36 elements, a table of the left half's subset sums is probed with
//! every subset sum of the right half. From 36 to 39 elements the sorted
//! elements are cut into quarters; a table of A+B sums is probed with every
//! C+D sum. From 40 to 64 elements a min-heap walks A+B upwards while a
//! max-heap walks C+D downwards until they meet at the target.
use crate::bignum::BigNum;
use crate::bits::{bit, fits, lemma_clear_lowest, lemma_lt_pow_fits, lemma_picked_in, mask_sum, picked};
use crate::controller::{checked, verdict_ok, Engine, Shared, Verdict};
use crate::gray::{gray_pairs, prefix_sums};
use crate::bits::prefix_sum;
use crate::heap::{Entry, MaxHeap, MinHeap};
use crate::knapsack::{
    lemma_mask_pairs_ok, lemma_pairs_ok_perm, mask_pairs, mask_to_vec_u128, max_covers, meets, min_covers, pair_ok,
    picked_big, picked_both, wide,
};
use crate::profile::big_values;
use crate::sort::{sort_pairs, sort_u128, sorted_pairs};
use crate::spec::{
    ints, is_sub_multiset, lemma_ints_perm, lemma_sel_sum_split, lemma_sub_multiset_concat, lemma_sub_multiset_perm,
    lemma_sum_perm, lemma_sum_subrange_le, reach, sel_sum, solvable, sum_of,
};
use std::collections::HashMap;
use vstd::prelude::*;

verus! {

broadcast use vstd::std_specs::hash::group_hash_axioms, vstd::multiset::group_multiset_axioms,
    vstd::seq_lib::group_to_multiset_ensures;

pub struct HashMitmEngine;

/// Every pair of `s` is a subset sum of `e` with a fitting mask, at most `t`.
pub open spec fn all_ok(s: Seq<(u128, u64)>, e: Seq<int>, t: int) -> bool {
    forall|i: int| 0 <= i < s.len() ==> pair_ok(#[trigger] s[i], e) && s[i].0 <= t
}

/// A slice of nonnegative values sums to at most the whole.
pub proof fn lemma_part_sum(s: Seq<u128>, lo: int, hi: int)
    requires
        0 <= lo <= hi <= s.len(),
    ensures
        sum_of(ints(s.subrange(lo, hi))) <= sum_of(ints(s)),
{
    assert(ints(s.subrange(lo, hi)) =~= ints(s).subrange(lo, hi));
    lemma_sum_subrange_le(ints(s), lo, hi);
}

/// The subset sums of `elems` not above `target`, with their masks, in
/// lexicographic order of `(sum, mask)`.
fn build_sums_vec(elems: &[u128], target: u128) -> (r: Vec<(u128, u64)>)
    requires
        elems@.len() < 64,
        sum_of(ints(elems@)) <= u128::MAX,
    ensures
        sorted_pairs(r@),
        r@.to_multiset() == mask_pairs(ints(elems@), target as int, (1u64 << elems@.len()) as int).to_multiset(),
        all_ok(r@, ints(elems@), target as int),
        r@.len() <= (1u64 << elems@.len()),
{
    let v = gray_pairs(elems, target);
    proof {
        lemma_mask_pairs_ok(ints(elems@), target as int, (1u64 << elems@.len()) as int);
        crate::knapsack::lemma_mask_pairs_len(ints(elems@), target as int, (1u64 << elems@.len()) as int);
    }
    let r = sort_pairs(v);
    proof {
        lemma_pairs_ok_perm(r@, v@, ints(elems@), target as int);
        assert(r@.len() == r@.to_multiset().len());
        assert(v@.len() == v@.to_multiset().len());
    }
    r
}

/// The table that inserting the pairs of `s` in order builds: each sum
/// maps to the mask of its last pair.
pub open spec fn last_masks(s: Seq<(u128, u64)>) -> Map<u128, u64>
    decreases s.len(),
{
    if s.len() == 0 {
        Map::empty()
    } else {
        last_masks(s.drop_last()).insert(s.last().0, s.last().1)
    }
}

proof fn lemma_last_masks_ok(s: Seq<(u128, u64)>, e: Seq<int>, t: int)
    requires
        all_ok(s, e, t),
    ensures
        forall|k: u128| #[trigger] last_masks(s).contains_key(k) ==> pair_ok((k, last_masks(s)[k]), e) && k <= t,
    decreases s.len(),
{
    if s.len() > 0 {
        let p = s.drop_last();
        assert forall|i: int| 0 <= i < p.len() implies pair_ok(#[trigger] p[i], e) && p[i].0 <= t by {
            assert(p[i] == s[i]);
        }
        lemma_last_masks_ok(p, e, t);
        let x = s[s.len() - 1];
        assert(pair_ok(x, e) && x.0 <= t);
        assert forall|k: u128| #[trigger] last_masks(s).contains_key(k) implies pair_ok((k, last_masks(s)[k]), e)
            && k <= t by {
            if k == x.0 {
                assert(last_masks(s)[k] == x.1);
                assert((k, last_masks(s)[k]) == x);
            } else {
                assert(last_masks(p).contains_key(k));
                assert(last_masks(s)[k] == last_masks(p)[k]);
            }
        }
    }
}

/// A table from each subset sum of `elems` not above `target` to a mask
/// giving it (the largest such mask).
fn build_fasthash(elems: &[u128], target: u128) -> (m: HashMap<u128, u64>)
    requires
        elems@.len() < 64,
        sum_of(ints(elems@)) <= u128::MAX,
    ensures
        m@ == last_masks(mask_pairs(ints(elems@), target as int, (1u64 << elems@.len()) as int)),
        forall|k: u128| #[trigger] m@.contains_key(k) ==> pair_ok((k, m@[k]), ints(elems@)) && k <= target,
{
    let pairs = gray_pairs(elems, target);
    proof {
        lemma_mask_pairs_ok(ints(elems@), target as int, (1u64 << elems@.len()) as int);
        lemma_last_masks_ok(pairs@, ints(elems@), target as int);
    }
    let mut map: HashMap<u128, u64> = HashMap::new();
    let mut i: usize = 0;
    while i < pairs.len()
        invariant
            i <= pairs@.len(),
            map@ == last_masks(pairs@.take(i as int)),
        decreases pairs@.len() - i,
    {
        let (s, mask) = pairs[i];
        proof {
            assert(pairs@.take(i + 1).drop_last() =~= pairs@.take(i as int));
        }
        map.insert(s, mask);
        i = i + 1;
    }
    proof {
        assert(pairs@.take(pairs@.len() as int) =~= pairs@);
    }
    map
}

/// Append to `sol` the elements of `quarter` at the set bits of `mask`,
/// lowest position first.
pub(crate) fn push_selected(quarter: &[u128], mask: u64, sol: &mut Vec<BigNum>)
    requires
        fits(mask, quarter@.len() as int),
    ensures
        big_values(final(sol)@) == big_values(old(sol)@) + picked(ints(quarter@), mask, quarter@.len() as int),
{
    let v = mask_to_vec_u128(quarter, mask);
    let ghost start = sol@;
    let mut i: usize = 0;
    while i < v.len()
        invariant
            i <= v@.len(),
            ints(v@) == picked(ints(quarter@), mask, quarter@.len() as int),
            big_values(sol@) == big_values(start) + ints(v@).take(i as int),
        decreases v@.len() - i,
    {
        let ghost before = sol@;
        sol.push(BigNum::from_u128(v[i]));
        proof {
            assert(big_values(sol@) =~= big_values(before).push(v@[i as int] as int));
            assert(ints(v@).take(i + 1) =~= ints(v@).take(i as int).push(v@[i as int] as int));
        }
        i = i + 1;
    }
    proof {
        assert(ints(v@).take(v@.len() as int) =~= ints(v@));
    }
}

/// The elements that four masks pick from the four consecutive quarters of
/// `sorted` (the last quarter runs to the end).
fn report_from_masks(
    sorted: &[u128],
    qa: usize,
    qb: usize,
    qc: usize,
    ma: u64,
    mb: u64,
    mc: u64,
    md: u64,
) -> (sol: Vec<BigNum>)
    requires
        qa + qb + qc <= sorted@.len(),
        fits(ma, qa as int),
        fits(mb, qb as int),
        fits(mc, qc as int),
        fits(md, sorted@.len() - qa - qb - qc),
    ensures
        big_values(sol@) == picked(ints(sorted@.subrange(0, qa as int)), ma, qa as int) + picked(
            ints(sorted@.subrange(qa as int, qa + qb)),
            mb,
            qb as int,
        ) + picked(ints(sorted@.subrange(qa + qb, qa + qb + qc)), mc, qc as int) + picked(
            ints(sorted@.subrange(qa + qb + qc, sorted@.len() as int)),
            md,
            sorted@.len() - qa - qb - qc,
        ),
        is_sub_multiset(big_values(sol@), ints(sorted@)),
{
    let n = sorted.len();
    let q0 = &sorted[0..qa];
    let q1 = &sorted[qa..qa + qb];
    let q2 = &sorted[qa + qb..qa + qb + qc];
    let q3 = &sorted[qa + qb + qc..n];
    let mut sol: Vec<BigNum> = Vec::new();
    push_selected(q0, ma, &mut sol);
    push_selected(q1, mb, &mut sol);
    push_selected(q2, mc, &mut sol);
    push_selected(q3, md, &mut sol);
    proof {
        let p0 = picked(ints(q0@), ma, q0@.len() as int);
        let p1 = picked(ints(q1@), mb, q1@.len() as int);
        let p2 = picked(ints(q2@), mc, q2@.len() as int);
        let p3 = picked(ints(q3@), md, q3@.len() as int);
        lemma_picked_in(ints(q0@), ma);
        lemma_picked_in(ints(q1@), mb);
        lemma_picked_in(ints(q2@), mc);
        lemma_picked_in(ints(q3@), md);
        assert(big_values(Seq::<BigNum>::empty()) =~= Seq::<int>::empty());
        assert(big_values(sol@) =~= p0 + p1 + p2 + p3);
        lemma_sub_multiset_concat(p0, p1, ints(q0@), ints(q1@));
        lemma_sub_multiset_concat(p0 + p1, p2, ints(q0@) + ints(q1@), ints(q2@));
        lemma_sub_multiset_concat(p0 + p1 + p2, p3, ints(q0@) + ints(q1@) + ints(q2@), ints(q3@));
        assert(ints(sorted@) =~= ints(q0@) + ints(q1@) + ints(q2@) + ints(q3@));
    }
    sol
}

/// The elements of `nums` at the set bits of `mask`; always drawn from `nums`.
fn decode(nums: &[u128], mask: u64) -> (sol: Vec<BigNum>)
    ensures
        big_values(sol@) == picked(ints(nums@), mask, nums@.len() as int),
        is_sub_multiset(big_values(sol@), ints(nums@)),
{
    let sol = picked_big(nums, mask);
    proof {
        lemma_picked_in(ints(nums@), mask);
    }
    sol
}

impl HashMitmEngine {
    /// Two halves: a table of the left half's subset sums, probed with each
    /// subset sum of the right half in Gray order.
    fn run_2way(sh: &Shared, nums: &[u128], target: u128, half: usize) -> (r: (Option<Vec<BigNum>>, bool))
        requires
            half <= nums@.len(),
            half < 64,
            sum_of(ints(nums@)) <= u128::MAX,
        ensures
            r.0 matches Some(sol) ==> is_sub_multiset(big_values(sol@), ints(nums@)) && sum_of(big_values(sol@))
                == target,
            r.1 ==> r.0 is None,
            !r.1 && r.0 is None && 2 <= half && nums@.len() - half <= 33 ==> !solvable(ints(nums@), target as int),
    {
        if half < 2 {
            return (None, false);
        }
        if sh.stopped() {
            return (None, true);
        }
        proof {
            lemma_part_sum(nums@, 0, half as int);
        }
        let left = &nums[0..half];
        let left_map = build_fasthash(left, target);
        let ghost lv = ints(left@);
        let ghost rv = ints(nums@.subrange(half as int, nums@.len() as int));
        let ghost t = target as int;
        let ghost lp = mask_pairs(lv, t, (1u64 << half) as int);
        proof {
            assert(ints(nums@) =~= lv + rv);
            assert forall|i: int| 0 <= i < lv.len() implies lv[i] >= 0 by {}
            assert forall|i: int| 0 <= i < rv.len() implies rv[i] >= 0 by {}
        }
        if left_map.len() == 0 {
            proof {
                lemma_two_halves(lv, rv, t, lp);
                if solvable(ints(nums@), t) {
                    let x = choose|x: int| 0 <= x < lp.len() && #[trigger] reach(rv, rv.len() as int, t - lp[x].0);
                    lemma_last_masks_has(lp, x);
                    assert(left_map@.dom().contains(lp[x].0));
                    vstd::map::axiom_map_insert_domain(left_map@, lp[x].0, left_map@[lp[x].0]);
                    assert(left_map@.insert(lp[x].0, left_map@[lp[x].0]) =~= left_map@);
                    lemma_last_masks_finite(lp);
                    vstd::set::axiom_set_contains_len(left_map@.dom(), lp[x].0);
                }
            }
            return (None, false);
        }
        let rn = nums.len() - half;
        if rn > 33 {
            return (None, false);
        }
        let right = &nums[half..nums.len()];
        proof {
            lemma_part_sum(nums@, half as int, nums@.len() as int);
            assert(ints(right@) =~= rv);
            assert(rv.take(rv.len() as int) =~= rv);
        }
        let total: u64 = 1u64 << (rn as u64);
        let pref = prefix_sums(right);
        let mut s: u128 = 0;
        let mut stop_check: u64 = 0;
        let mut mask: u64 = 0;
        while mask < total
            invariant
                rn == right@.len(),
                rn <= 33,
                half < 64,
                2 <= half,
                rv == ints(right@),
                lv == ints(left@),
                t == target as int,
                left@ == nums@.subrange(0, half as int),
                right@ == nums@.subrange(half as int, nums@.len() as int),
                ints(nums@) == lv + rv,
                sum_of(rv) <= u128::MAX,
                prefix_sum(rv, rn as int) == sum_of(rv),
                forall|i: int| 0 <= i < rv.len() ==> rv[i] >= 0,
                total == 1u64 << (rn as u64),
                mask <= total,
                stop_check <= mask,
                pref@.len() == rn + 1,
                forall|i: int| 0 <= i <= rn ==> #[trigger] pref@[i] == prefix_sum(rv, i),
                mask > 0 ==> s == mask_sum(rv, (mask - 1) as u64),
                mask == 0 ==> s == 0,
                left_map@ == last_masks(lp),
                lp == mask_pairs(lv, t, (1u64 << half) as int),
                forall|k: u128| #[trigger] left_map@.contains_key(k) ==> pair_ok((k, left_map@[k]), lv) && k <= target,
                forall|m: u64|
                    m < mask && mask_sum(rv, m) <= t ==> !left_map@.contains_key((t - #[trigger] mask_sum(rv, m)) as u128),
            decreases total - mask,
        {
            proof {
                lemma_lt_pow_fits(mask, rn as u64);
                crate::gray::lemma_picked_le_prefix(rv, mask, rn as int);
            }
            if mask > 0 {
                proof {
                    lemma_clear_lowest(mask);
                    crate::bits::lemma_mask_sum_increment(rv, mask, rn as int);
                }
                let k = mask.trailing_zeros() as usize;
                proof {
                    assert(bit(mask, k as int));
                    assert(k < rn);
                    assert(rv[k as int] == right@[k as int] as int);
                }
                s = s.wrapping_add(right[k]).wrapping_sub(pref[k]);
                proof {
                    assert(pref@[k as int] == prefix_sum(rv, k as int));
                }
            } else {
                proof {
                    crate::bits::lemma_zero_no_bits(mask);
                    crate::bits::lemma_picked_gap(rv, mask, 0, rn as int);
                    assert(picked(rv, mask, 0) =~= Seq::<int>::empty());
                }
            }
            assert(s == mask_sum(rv, mask));
            if s <= target {
                stop_check = stop_check + 1;
                if stop_check & 0x1FF == 0 && sh.stopped() {
                    return (None, true);
                }
                match left_map.get(&(target - s)) {
                    Some(lm) => {
                        let sol = picked_both(left, *lm, right, mask);
                        proof {
                            assert(left_map@.contains_key((target - s) as u128));
                            assert(pair_ok(((target - s) as u128, *lm), lv));
                            lemma_picked_in(lv, *lm);
                            lemma_picked_in(rv, mask);
                            lemma_sub_multiset_concat(
                                picked(lv, *lm, lv.len() as int),
                                picked(rv, mask, rv.len() as int),
                                lv,
                                rv,
                            );
                            crate::spec::lemma_sum_of_concat(
                                picked(lv, *lm, lv.len() as int),
                                picked(rv, mask, rv.len() as int),
                            );
                        }
                        return (Some(sol), false);
                    },
                    None => {
                        assert(!left_map@.contains_key((t - mask_sum(rv, mask)) as u128));
                    },
                }
            }
            proof {
                assert(((mask + 1 - 1) as u64) == mask);
            }
            mask = mask + 1;
        }
        proof {
            lemma_two_halves(lv, rv, t, lp);
            if solvable(ints(nums@), t) {
                let x = choose|x: int| 0 <= x < lp.len() && #[trigger] reach(rv, rv.len() as int, t - lp[x].0);
                lemma_last_masks_has(lp, x);
                let sel = choose|sel: Seq<bool>| sel.len() == rv.len() && #[trigger] sel_sum(rv, sel) == t - lp[x].0;
                crate::knapsack::lemma_sel_mask(rv, sel, rv.len() as int);
                assert(sel.take(rv.len() as int) =~= sel);
                let m = choose|m: u64| fits(m, rv.len() as int) && #[trigger] mask_sum(rv, m) == sel_sum(
                    rv,
                    sel.take(rv.len() as int),
                );
                crate::bits::lemma_fits_lt_pow(m, rn as u64);
                crate::spec::lemma_sel_sum_nonneg(rv, sel);
                assert((t - mask_sum(rv, m)) as u128 == lp[x].0);
            }
        }
        (None, false)
    }
}

/// Every key of `last_masks(s)` is a sum listed in `s`, and every listed
/// sum is a key.
proof fn lemma_last_masks_has(s: Seq<(u128, u64)>, i: int)
    requires
        0 <= i < s.len(),
    ensures
        last_masks(s).contains_key(s[i].0),
    decreases s.len(),
{
    if i < s.len() - 1 {
        lemma_last_masks_has(s.drop_last(), i);
        assert(s.drop_last()[i] == s[i]);
    }
}

/// The table built from a list has finitely many keys.
proof fn lemma_last_masks_finite(s: Seq<(u128, u64)>)
    ensures
        last_masks(s).dom().finite(),
    decreases s.len(),
{
    if s.len() > 0 {
        lemma_last_masks_finite(s.drop_last());
    }
}

/// When the halves together reach `t`, some listed left sum leaves a
/// remainder that the right half reaches.
proof fn lemma_two_halves(lv: Seq<int>, rv: Seq<int>, t: int, lp: Seq<(u128, u64)>)
    requires
        lv.len() < 64,
        0 <= t <= u128::MAX,
        forall|i: int| 0 <= i < lv.len() ==> lv[i] >= 0,
        forall|i: int| 0 <= i < rv.len() ==> rv[i] >= 0,
        lp == mask_pairs(lv, t, (1u64 << lv.len() as u64) as int),
    ensures
        solvable(lv + rv, t) ==> exists|x: int| 0 <= x < lp.len() && #[trigger] reach(rv, rv.len() as int, t - lp[x].0),
{
    if solvable(lv + rv, t) {
        let v = lv + rv;
        let sel = choose|sel: Seq<bool>| sel.len() == v.len() && #[trigger] sel_sum(v, sel) == t;
        lemma_sel_sum_split(v, sel, lv.len() as int);
        assert(v.take(lv.len() as int) =~= lv);
        assert(v.skip(lv.len() as int) =~= rv);
        let sl = sel.take(lv.len() as int);
        let sr = sel.skip(lv.len() as int);
        crate::spec::lemma_sel_sum_nonneg(lv, sl);
        crate::spec::lemma_sel_sum_nonneg(rv, sr);
        lemma_quarter_listed(lp, lv, sl, t, lv.len() as u64);
        let x = choose|x: int| 0 <= x < lp.len() && #[trigger] lp[x].0 == sel_sum(lv, sl);
        assert(reach(rv, rv.len() as int, t - lp[x].0));
    }
}

/// The quarters of `sorted`: three of `q` elements and the rest.
fn quarter_sums(sorted: &[u128], q: usize, target: u128) -> (r: (
    Vec<(u128, u64)>,
    Vec<(u128, u64)>,
    Vec<(u128, u64)>,
    Vec<(u128, u64)>,
))
    requires
        3 * q <= sorted@.len(),
        sorted@.len() - 3 * q < 64,
        q < 64,
        sum_of(ints(sorted@)) <= u128::MAX,
    ensures
        all_ok(r.0@, ints(sorted@.subrange(0, q as int)), target as int),
        all_ok(r.1@, ints(sorted@.subrange(q as int, 2 * q)), target as int),
        all_ok(r.2@, ints(sorted@.subrange(2 * q, 3 * q)), target as int),
        all_ok(r.3@, ints(sorted@.subrange(3 * q, sorted@.len() as int)), target as int),
        sorted_pairs(r.0@),
        sorted_pairs(r.1@),
        sorted_pairs(r.2@),
        sorted_pairs(r.3@),
        r.0@.len() <= (1u64 << q),
        r.1@.len() <= (1u64 << q),
        r.2@.len() <= (1u64 << q),
        r.3@.len() <= (1u64 << (sorted@.len() - 3 * q)),
        r.0@.to_multiset() == mask_pairs(ints(sorted@.subrange(0, q as int)), target as int, (1u64 << q) as int).to_multiset(),
        r.1@.to_multiset() == mask_pairs(ints(sorted@.subrange(q as int, 2 * q)), target as int, (1u64 << q) as int).to_multiset(),
        r.2@.to_multiset() == mask_pairs(ints(sorted@.subrange(2 * q, 3 * q)), target as int, (1u64 << q) as int).to_multiset(),
        r.3@.to_multiset() == mask_pairs(
            ints(sorted@.subrange(3 * q, sorted@.len() as int)),
            target as int,
            (1u64 << (sorted@.len() - 3 * q)) as int,
        ).to_multiset(),
{
    let n = sorted.len();
    proof {
        lemma_part_sum(sorted@, 0, q as int);
        lemma_part_sum(sorted@, q as int, 2 * q);
        lemma_part_sum(sorted@, 2 * q, 3 * q);
        lemma_part_sum(sorted@, 3 * q, n as int);
    }
    let a = build_sums_vec(&sorted[0..q], target);
    let b = build_sums_vec(&sorted[q..2 * q], target);
    let c = build_sums_vec(&sorted[2 * q..3 * q], target);
    let d = build_sums_vec(&sorted[3 * q..n], target);
    (a, b, c, d)
}

/// Four quarters: a table of A+B sums, probed with each C+D sum.
fn run_4way_hash(sh: &Shared, nums: &[u128], target: u128, n: usize) -> (r: (Option<Vec<BigNum>>, bool))
    requires
        n == nums@.len(),
        n < 64,
        sum_of(ints(nums@)) <= u128::MAX,
    ensures
        r.0 matches Some(sol) ==> is_sub_multiset(big_values(sol@), ints(nums@)) && sum_of(big_values(sol@))
            == target,
        r.1 ==> r.0 is None,
        !r.1 && r.0 is None ==> !solvable(ints(nums@), target as int),
{
    let sorted = sort_u128(nums, true);
    proof {
        lemma_ints_perm(sorted@, nums@);
        lemma_sum_perm(ints(sorted@), ints(nums@));
        if solvable(ints(nums@), target as int) {
            crate::spec::lemma_solvable_perm(ints(nums@), ints(sorted@), target as int);
        }
    }
    let qsz = n / 4;
    let (a, b, c, d) = quarter_sums(sorted.as_slice(), qsz, target);
    let ghost t = target as int;
    let ghost sv = ints(sorted@);
    let ghost q = qsz as int;
    let ghost va = ints(sorted@.subrange(0, q));
    let ghost vb = ints(sorted@.subrange(q, 2 * q));
    let ghost vc = ints(sorted@.subrange(2 * q, 3 * q));
    let ghost vd = ints(sorted@.subrange(3 * q, n as int));
    proof {
        assert(sv =~= va + vb + vc + vd);
        crate::spec::lemma_sum_of_concat(va, vb);
        crate::spec::lemma_sum_of_concat(va + vb, vc);
        crate::spec::lemma_sum_of_concat(va + vb + vc, vd);
        lemma_quarter_total(va);
        lemma_quarter_total(vb);
        lemma_quarter_total(vc);
        lemma_quarter_total(vd);
        if solvable(sv, t) {
            lemma_quarters_meet(sorted@, qsz, t, a@, b@, c@, d@);
        }
    }
    if a.len() == 0 || b.len() == 0 || c.len() == 0 || d.len() == 0 {
        return (None, false);
    }
    if sh.stopped() {
        return (None, true);
    }
    let mut ab: HashMap<u128, u64> = HashMap::new();
    for i in 0..a.len()
        invariant
            qsz <= 16,
            q == qsz,
            t == target as int,
            all_ok(a@, va, t),
            all_ok(b@, vb, t),
            va.len() == q,
            vb.len() == q,
            sum_of(va) + sum_of(vb) <= u128::MAX,
            forall|m: u64| 0 <= #[trigger] mask_sum(va, m) <= sum_of(va),
            forall|m: u64| 0 <= #[trigger] mask_sum(vb, m) <= sum_of(vb),
            forall|k: u128| #[trigger] ab@.contains_key(k) ==> pair_ok((k, ab@[k]), va + vb) && k <= target,
            forall|x: int, y: int|
                0 <= x < i && 0 <= y < b@.len() && #[trigger] a@[x].0 + #[trigger] b@[y].0 <= t ==> ab@.contains_key(
                    (a@[x].0 + b@[y].0) as u128,
                ),
    {
        let (sa, ma) = a[i];
        for j in 0..b.len()
            invariant
                qsz <= 16,
                q == qsz,
                t == target as int,
                0 <= i < a@.len(),
                (sa, ma) == a@[i as int],
                all_ok(a@, va, t),
                all_ok(b@, vb, t),
                va.len() == q,
                vb.len() == q,
                sum_of(va) + sum_of(vb) <= u128::MAX,
                forall|m: u64| 0 <= #[trigger] mask_sum(va, m) <= sum_of(va),
                forall|m: u64| 0 <= #[trigger] mask_sum(vb, m) <= sum_of(vb),
                forall|k: u128| #[trigger] ab@.contains_key(k) ==> pair_ok((k, ab@[k]), va + vb) && k <= target,
                forall|x: int, y: int|
                    0 <= x < i && 0 <= y < b@.len() && #[trigger] a@[x].0 + #[trigger] b@[y].0 <= t
                        ==> ab@.contains_key((a@[x].0 + b@[y].0) as u128),
                forall|y: int| 0 <= y < j && sa + #[trigger] b@[y].0 <= t ==> ab@.contains_key((sa + b@[y].0) as u128),
        {
            let (sb, mb) = b[j];
            proof {
                assert(pair_ok(a@[i as int], va));
                assert(pair_ok(b@[j as int], vb));
                assert(mask_sum(va, ma) <= sum_of(va));
                assert(mask_sum(vb, mb) <= sum_of(vb));
            }
            let s = sa.wrapping_add(sb);
            if s <= target {
                proof {
                    assert(pair_ok(a@[i as int], va));
                    assert(pair_ok(b@[j as int], vb));
                    crate::bits::lemma_join_masks(va, ma, vb, mb);
                }
                ab.insert(s, ma | (mb << (qsz as u64)));
            }
        }
    }
    let shift_c = (2 * qsz) as u64;
    let shift_d = (3 * qsz) as u64;
    for i in 0..c.len()
        invariant
            shift_c == 2 * q,
            shift_d == 3 * q,
            q == qsz,
            qsz <= 16,
            n == nums@.len(),
            n < 64,
            t == target as int,
            sorted@.to_multiset() == nums@.to_multiset(),
            sv == ints(sorted@),
            sv == va + vb + vc + vd,
            va.len() == q,
            vb.len() == q,
            vc.len() == q,
            vd.len() == n - 3 * q,
            all_ok(c@, vc, t),
            all_ok(d@, vd, t),
            sum_of(vc) + sum_of(vd) <= u128::MAX,
            forall|m: u64| 0 <= #[trigger] mask_sum(vc, m) <= sum_of(vc),
            forall|m: u64| 0 <= #[trigger] mask_sum(vd, m) <= sum_of(vd),
            forall|k: u128| #[trigger] ab@.contains_key(k) ==> pair_ok((k, ab@[k]), va + vb) && k <= target,
            forall|x: int, y: int|
                0 <= x < i && 0 <= y < d@.len() && #[trigger] c@[x].0 + #[trigger] d@[y].0 <= t ==> !ab@.contains_key(
                    (t - (c@[x].0 + d@[y].0)) as u128,
                ),
    {
        if sh.stopped() {
            return (None, true);
        }
        let (sc, mc) = c[i];
        for j in 0..d.len()
            invariant
                shift_c == 2 * q,
                shift_d == 3 * q,
                q == qsz,
                qsz <= 16,
                n == nums@.len(),
                n < 64,
                t == target as int,
                0 <= i < c@.len(),
                (sc, mc) == c@[i as int],
                sorted@.to_multiset() == nums@.to_multiset(),
                sv == ints(sorted@),
                sv == va + vb + vc + vd,
                va.len() == q,
                vb.len() == q,
                vc.len() == q,
                vd.len() == n - 3 * q,
                all_ok(c@, vc, t),
                all_ok(d@, vd, t),
                sum_of(vc) + sum_of(vd) <= u128::MAX,
                forall|m: u64| 0 <= #[trigger] mask_sum(vc, m) <= sum_of(vc),
                forall|m: u64| 0 <= #[trigger] mask_sum(vd, m) <= sum_of(vd),
                forall|k: u128| #[trigger] ab@.contains_key(k) ==> pair_ok((k, ab@[k]), va + vb) && k <= target,
                forall|x: int, y: int|
                    0 <= x < i && 0 <= y < d@.len() && #[trigger] c@[x].0 + #[trigger] d@[y].0 <= t
                        ==> !ab@.contains_key((t - (c@[x].0 + d@[y].0)) as u128),
                forall|y: int|
                    0 <= y < j && sc + #[trigger] d@[y].0 <= t ==> !ab@.contains_key((t - (sc + d@[y].0)) as u128),
        {
            let (sd, md) = d[j];
            proof {
                assert(pair_ok(c@[i as int], vc));
                assert(pair_ok(d@[j as int], vd));
                assert(mask_sum(vc, mc) <= sum_of(vc));
                assert(mask_sum(vd, md) <= sum_of(vd));
            }
            let sum = sc.wrapping_add(sd);
            if sum <= target {
                match ab.get(&(target - sum)) {
                    Some(abm) => {
                        let mask = *abm | (mc << shift_c) | (md << shift_d);
                        proof {
                            let key = (target - sum) as u128;
                            assert(ab@.contains_key(key) && ab@[key] == *abm);
                            assert(pair_ok((key, *abm), va + vb));
                            assert(pair_ok(c@[i as int], vc));
                            assert(pair_ok(d@[j as int], vd));
                            crate::bits::lemma_join_masks(va + vb, *abm, vc, mc);
                            crate::bits::lemma_join_masks(va + vb + vc, *abm | (mc << shift_c), vd, md);
                        }
                        let sol = decode(sorted.as_slice(), mask);
                        proof {
                            lemma_ints_perm(sorted@, nums@);
                            lemma_sub_multiset_perm(big_values(sol@), ints(sorted@), ints(nums@));
                        }
                        return (Some(sol), false);
                    },
                    None => {
                        assert(!ab@.contains_key((t - (sc + d@[j as int].0)) as u128));
                    },
                }
            }
        }
    }
    proof {
        if solvable(sv, t) {
            let (i, j, k, l) = choose|i: int, j: int, k: int, l: int|
                #[trigger] meets(wide(a@), wide(b@), wide(c@), wide(d@), 0, t, 0, t, t, i, j, k, l);
            assert(wide(a@)[i].0 == a@[i].0);
            assert(wide(b@)[j].0 == b@[j].0);
            assert(wide(c@)[k].0 == c@[k].0);
            assert(wide(d@)[l].0 == d@[l].0);
            assert(ab@.contains_key((a@[i].0 + b@[j].0) as u128));
            assert((t - (c@[k].0 + d@[l].0)) as u128 == (a@[i].0 + b@[j].0) as u128);
        }
    }
    (None, false)
}

/// Every mask of a quarter of nonnegative values picks a sum between zero
/// and the quarter's total.
proof fn lemma_quarter_total(v: Seq<int>)
    requires
        forall|i: int| 0 <= i < v.len() ==> v[i] >= 0,
    ensures
        forall|m: u64| 0 <= #[trigger] mask_sum(v, m) <= sum_of(v),
{
    assert forall|m: u64| 0 <= #[trigger] mask_sum(v, m) <= sum_of(v) by {
        crate::gray::lemma_picked_le_prefix(v, m, v.len() as int);
        assert(v.take(v.len() as int) =~= v);
    }
}

/// The masks of `s` pick from the first `n` positions.
pub open spec fn masks_fit(s: Seq<(u128, u64)>, n: int) -> bool {
    forall|i: int| 0 <= i < s.len() ==> fits(#[trigger] s[i].1, n)
}

/// The sums of `s` are at most `t`.
pub open spec fn sums_at_most(s: Seq<(u128, u64)>, t: int) -> bool {
    forall|i: int| 0 <= i < s.len() ==> (#[trigger] s[i]).0 <= t
}

/// Work left for an A+B entry: the A positions it may still advance over.
pub open spec fn left_work(a_end: int) -> spec_fn(Entry) -> nat {
    |e: Entry| if e.1 < a_end {
        (a_end - e.1) as nat
    } else {
        0
    }
}

/// Work left for a C+D entry: the C positions it may still retreat over.
pub open spec fn right_work() -> spec_fn(Entry) -> nat {
    |e: Entry| (e.1 + 1) as nat
}

/// A selection of a quarter shows up, by its sum, in a list holding that
/// quarter's listed subset sums.
pub(crate) proof fn lemma_quarter_listed(l: Seq<(u128, u64)>, qv: Seq<int>, sel: Seq<bool>, t: int, n: u64)
    requires
        n == qv.len(),
        n < 64,
        sel.len() == qv.len(),
        forall|i: int| 0 <= i < qv.len() ==> qv[i] >= 0,
        l.to_multiset() == mask_pairs(qv, t, (1u64 << n) as int).to_multiset(),
        sel_sum(qv, sel) <= t,
        t <= u128::MAX,
    ensures
        exists|x: int| 0 <= x < l.len() && #[trigger] l[x].0 == sel_sum(qv, sel),
{
    crate::knapsack::lemma_sel_mask(qv, sel, qv.len() as int);
    assert(sel.take(qv.len() as int) =~= sel);
    let m = choose|m: u64| fits(m, qv.len() as int) && #[trigger] mask_sum(qv, m) == sel_sum(qv, sel.take(qv.len() as int));
    crate::bits::lemma_fits_lt_pow(m, n);
    crate::spec::lemma_sel_sum_nonneg(qv, sel);
    crate::knapsack::lemma_mask_pairs_has(qv, t, (1u64 << n) as int, m);
    let pair = (mask_sum(qv, m) as u128, m);
    vstd::seq_lib::to_multiset_contains(mask_pairs(qv, t, (1u64 << n) as int), pair);
    vstd::seq_lib::to_multiset_contains(l, pair);
    let x = choose|x: int| 0 <= x < l.len() && l[x] == pair;
    assert(l[x].0 == sel_sum(qv, sel));
}

/// When the sorted elements can reach `t`, the four quarter lists hold
/// entries that meet at `t`.
proof fn lemma_quarters_meet(
    sorted: Seq<u128>,
    q: usize,
    t: int,
    a: Seq<(u128, u64)>,
    b: Seq<(u128, u64)>,
    c: Seq<(u128, u64)>,
    d: Seq<(u128, u64)>,
)
    requires
        3 * q <= sorted.len(),
        sorted.len() - 3 * q < 64,
        q < 64,
        0 <= t <= u128::MAX,
        solvable(ints(sorted), t),
        a.to_multiset() == mask_pairs(ints(sorted.subrange(0, q as int)), t, (1u64 << q) as int).to_multiset(),
        b.to_multiset() == mask_pairs(ints(sorted.subrange(q as int, 2 * q)), t, (1u64 << q) as int).to_multiset(),
        c.to_multiset() == mask_pairs(ints(sorted.subrange(2 * q, 3 * q)), t, (1u64 << q) as int).to_multiset(),
        d.to_multiset() == mask_pairs(
            ints(sorted.subrange(3 * q, sorted.len() as int)),
            t,
            (1u64 << (sorted.len() - 3 * q)) as int,
        ).to_multiset(),
    ensures
        exists|i: int, j: int, k: int, l: int|
            #[trigger] meets(wide(a), wide(b), wide(c), wide(d), 0, t, 0, t, t, i, j, k, l),
{
    let v = ints(sorted);
    let n = sorted.len() as int;
    let qi = q as int;
    let sel = choose|sel: Seq<bool>| sel.len() == v.len() && #[trigger] sel_sum(v, sel) == t;
    let v0 = ints(sorted.subrange(0, qi));
    let v1 = ints(sorted.subrange(qi, 2 * qi));
    let v2 = ints(sorted.subrange(2 * qi, 3 * qi));
    let v3 = ints(sorted.subrange(3 * qi, n));
    lemma_sel_sum_split(v, sel, qi);
    let r1 = v.skip(qi);
    let t1 = sel.skip(qi);
    lemma_sel_sum_split(r1, t1, qi);
    let r2 = r1.skip(qi);
    let t2 = t1.skip(qi);
    lemma_sel_sum_split(r2, t2, qi);
    assert(v.take(qi) =~= v0);
    assert(r1.take(qi) =~= v1);
    assert(r2.take(qi) =~= v2);
    assert(r2.skip(qi) =~= v3);
    let s0 = sel.take(qi);
    let s1 = t1.take(qi);
    let s2 = t2.take(qi);
    let s3 = t2.skip(qi);
    assert forall|i: int| 0 <= i < v.len() implies v[i] >= 0 by {}
    assert forall|i: int| 0 <= i < v0.len() implies v0[i] >= 0 by {}
    assert forall|i: int| 0 <= i < v1.len() implies v1[i] >= 0 by {}
    assert forall|i: int| 0 <= i < v2.len() implies v2[i] >= 0 by {}
    assert forall|i: int| 0 <= i < v3.len() implies v3[i] >= 0 by {}
    crate::spec::lemma_sel_sum_nonneg(v0, s0);
    crate::spec::lemma_sel_sum_nonneg(v1, s1);
    crate::spec::lemma_sel_sum_nonneg(v2, s2);
    crate::spec::lemma_sel_sum_nonneg(v3, s3);
    lemma_quarter_listed(a, v0, s0, t, q as u64);
    lemma_quarter_listed(b, v1, s1, t, q as u64);
    lemma_quarter_listed(c, v2, s2, t, q as u64);
    lemma_quarter_listed(d, v3, s3, t, (n - 3 * qi) as u64);
    let ia = choose|x: int| 0 <= x < a.len() && #[trigger] a[x].0 == sel_sum(v0, s0);
    let ib = choose|x: int| 0 <= x < b.len() && #[trigger] b[x].0 == sel_sum(v1, s1);
    let ic = choose|x: int| 0 <= x < c.len() && #[trigger] c[x].0 == sel_sum(v2, s2);
    let id = choose|x: int| 0 <= x < d.len() && #[trigger] d[x].0 == sel_sum(v3, s3);
    assert(meets(wide(a), wide(b), wide(c), wide(d), 0, t, 0, t, t, ia, ib, ic, id));
}

/// Walk A (the chunk starting at position `a_start`) + B upwards with a
/// min-heap and C + D downwards with a max-heap until the two meet at
/// `target`; the answer is decoded from the quarters of `sorted`. The second
/// result tells whether the stop flag cut the walk short; when it did not
/// and no answer came, no entries of the four lists add up to `target`.
fn two_pointer_range(
    a_chunk: &[(u128, u64)],
    a_start: u32,
    b: &[(u128, u64)],
    c: &[(u128, u64)],
    d: &[(u128, u64)],
    sorted: &[u128],
    target: u128,
    qa: usize,
    qb: usize,
    qc: usize,
    sh: &Shared,
) -> (r: (Option<Vec<BigNum>>, bool))
    requires
        qa + qb + qc <= sorted@.len(),
        masks_fit(a_chunk@, qa as int),
        masks_fit(b@, qb as int),
        masks_fit(c@, qc as int),
        masks_fit(d@, sorted@.len() - qa - qb - qc),
        sums_at_most(a_chunk@, target as int),
        sums_at_most(b@, target as int),
        sums_at_most(c@, target as int),
        sums_at_most(d@, target as int),
        crate::sort::sorted_by_sum(a_chunk@),
        crate::sort::sorted_by_sum(c@),
        all_ok(a_chunk@, ints(sorted@.subrange(0, qa as int)), target as int),
        all_ok(b@, ints(sorted@.subrange(qa as int, qa + qb)), target as int),
        all_ok(c@, ints(sorted@.subrange(qa + qb, qa + qb + qc)), target as int),
        all_ok(d@, ints(sorted@.subrange(qa + qb + qc, sorted@.len() as int)), target as int),
        2 * target <= u128::MAX,
        a_start + a_chunk@.len() <= u32::MAX,
        b@.len() <= u32::MAX,
        c@.len() <= u32::MAX,
        d@.len() <= u32::MAX,
    ensures
        r.0 matches Some(sol) ==> is_sub_multiset(big_values(sol@), ints(sorted@)) && sum_of(big_values(sol@))
            == target,
        r.0 matches Some(sol) ==> exists|i: int, j: int, k: int, l: int|
            0 <= i < a_chunk@.len() && 0 <= j < b@.len() && 0 <= k < c@.len() && 0 <= l < d@.len() && #[trigger] a_chunk@[i].0
                + #[trigger] b@[j].0 + #[trigger] c@[k].0 + #[trigger] d@[l].0 == target && big_values(sol@)
                == picked(ints(sorted@.subrange(0, qa as int)), a_chunk@[i].1, qa as int) + picked(
                ints(sorted@.subrange(qa as int, qa + qb)),
                b@[j].1,
                qb as int,
            ) + picked(ints(sorted@.subrange(qa + qb, qa + qb + qc)), c@[k].1, qc as int) + picked(
                ints(sorted@.subrange(qa + qb + qc, sorted@.len() as int)),
                d@[l].1,
                sorted@.len() - qa - qb - qc,
            ),
        r.1 ==> r.0 is None,
        !r.1 && r.0 is None && target < 0x4000_0000_0000_0000_0000_0000_0000_0000 ==> forall|i: int, j: int, k: int, l: int|
            !#[trigger] meets(
                wide(a_chunk@),
                wide(b@),
                wide(c@),
                wide(d@),
                0,
                target as int,
                0,
                target as int,
                target as int,
                i,
                j,
                k,
                l,
            ),
{
    let ghost av = wide(a_chunk@);
    let ghost bv = wide(b@);
    let ghost cv = wide(c@);
    let ghost dv = wide(d@);
    let ghost t = target as int;
    if a_chunk.len() == 0 || c.len() == 0 {
        return (None, false);
    }
    if sh.stopped() {
        return (None, true);
    }
    let chunk_len = a_chunk.len();
    let b_len = b.len();
    let d_len = d.len();
    let last_c = (c.len() - 1) as u32;
    let a_end: u32 = a_start + chunk_len as u32;
    let ghost wl = left_work(a_end as int);
    let ghost wr = right_work();
    let mut minq = MinHeap::new(b_len);
    let a0 = a_chunk[0].0;
    for j in 0..b_len
        invariant
            b_len == b@.len(),
            b_len <= u32::MAX,
            a_start < a_end,
            a_end == a_start + chunk_len,
            chunk_len == a_chunk@.len(),
            a0 == a_chunk@[0].0,
            wl == left_work(a_end as int),
            !minq.by_tuple(),
            av == wide(a_chunk@),
            bv == wide(b@),
            cv == wide(c@),
            dv == wide(d@),
            t == target,
            sums_at_most(a_chunk@, target as int),
            sums_at_most(b@, target as int),
            crate::sort::sorted_by_sum(a_chunk@),
            2 * target <= u128::MAX,
            forall|e: Entry| #[trigger] minq.items().contains(e) ==> a_start <= e.1 < a_end && e.2 < b_len
                && e.0 == a_chunk@[e.1 - a_start].0 + b@[e.2 as int].0,
            forall|i: int, jj: int, k: int, l: int|
                jj < j && #[trigger] meets(av, bv, cv, dv, 0, t, 0, t, t, i, jj, k, l) ==> min_covers(
                    minq.items(),
                    a_start + i,
                    jj,
                ),
    {
        let s = a0.wrapping_add(b[j].0);
        let ghost before = minq.items();
        if s <= target {
            minq.push((s, a_start, j as u32));
            proof {
                assert forall|e: Entry| #[trigger] minq.items().contains(e) implies a_start <= e.1 < a_end
                    && e.2 < b_len && e.0 == a_chunk@[e.1 - a_start].0 + b@[e.2 as int].0 by {
                    if e != (s, a_start, j as u32) {
                        assert(before.contains(e));
                    }
                }
            }
        }
        proof {
            assert forall|i: int, jj: int, k: int, l: int|
                jj < j + 1 && #[trigger] meets(av, bv, cv, dv, 0, t, 0, t, t, i, jj, k, l) implies min_covers(
                minq.items(),
                a_start + i,
                jj,
            ) by {
                if jj < j {
                    let e = choose|e: Entry| #[trigger] before.contains(e) && e.2 == jj && e.1 <= a_start + i;
                    assert(minq.items().contains(e));
                } else {
                    assert(av[i].0 == a_chunk@[i].0 && bv[jj].0 == b@[jj].0);
                    if i > 0 {
                        assert(a_chunk@[0].0 <= a_chunk@[i].0);
                    }
                    assert(minq.items().contains((s, a_start, j as u32)));
                }
            }
        }
    }
    let mut maxq = MaxHeap::new(d_len);
    let clast = c[last_c as usize].0;
    for j in 0..d_len
        invariant
            d_len == d@.len(),
            d_len <= u32::MAX,
            last_c + 1 == c@.len(),
            sums_at_most(d@, target as int),
            clast == c@[last_c as int].0,
            clast <= target,
            !maxq.by_tuple(),
            cv == wide(c@),
            crate::sort::sorted_by_sum(c@),
            2 * target <= u128::MAX,
            forall|e: Entry| #[trigger] maxq.items().contains(e) ==> e.1 < c@.len() && e.2 < d_len
                && e.0 == c@[e.1 as int].0 + d@[e.2 as int].0,
            forall|i: int, jj: int, k: int, l: int|
                l < j && #[trigger] meets(av, bv, cv, dv, 0, t, 0, t, t, i, jj, k, l) ==> max_covers(
                    maxq.items(),
                    cv,
                    k,
                    l,
                ),
    {
        let ghost before = maxq.items();
        let v = (clast + d[j].0, last_c, j as u32);
        maxq.push(v);
        proof {
            assert forall|e: Entry| #[trigger] maxq.items().contains(e) implies e.1 < c@.len() && e.2 < d_len
                && e.0 == c@[e.1 as int].0 + d@[e.2 as int].0 by {
                if e != v {
                    assert(before.contains(e));
                }
            }
            assert forall|i: int, jj: int, k: int, l: int|
                l < j + 1 && #[trigger] meets(av, bv, cv, dv, 0, t, 0, t, t, i, jj, k, l) implies max_covers(
                maxq.items(),
                cv,
                k,
                l,
            ) by {
                if l < j {
                    let e = choose|e: Entry| #[trigger] before.contains(e) && e.2 == l && e.1 < cv.len()
                        && cv[e.1 as int].0 >= cv[k].0;
                    assert(maxq.items().contains(e));
                } else {
                    if k < last_c {
                        assert(c@[k].0 <= c@[last_c as int].0);
                    }
                    assert(cv[k].0 == c@[k].0 && cv[last_c as int].0 == c@[last_c as int].0);
                    assert(maxq.items().contains(v));
                }
            }
        }
    }
    let mut ops: u64 = 0;
    loop
        invariant
            qa + qb + qc <= sorted@.len(),
            masks_fit(a_chunk@, qa as int),
            masks_fit(b@, qb as int),
            masks_fit(c@, qc as int),
            masks_fit(d@, sorted@.len() - qa - qb - qc),
            chunk_len == a_chunk@.len(),
            a_end == a_start + chunk_len,
            b_len == b@.len(),
            d_len == d@.len(),
            wl == left_work(a_end as int),
            wr == right_work(),
            !minq.by_tuple(),
            !maxq.by_tuple(),
            av == wide(a_chunk@),
            bv == wide(b@),
            cv == wide(c@),
            dv == wide(d@),
            t == target,
            sums_at_most(a_chunk@, target as int),
            sums_at_most(b@, target as int),
            sums_at_most(c@, target as int),
            sums_at_most(d@, target as int),
            crate::sort::sorted_by_sum(a_chunk@),
            crate::sort::sorted_by_sum(c@),
            all_ok(a_chunk@, ints(sorted@.subrange(0, qa as int)), target as int),
            all_ok(b@, ints(sorted@.subrange(qa as int, qa + qb)), target as int),
            all_ok(c@, ints(sorted@.subrange(qa + qb, qa + qb + qc)), target as int),
            all_ok(d@, ints(sorted@.subrange(qa + qb + qc, sorted@.len() as int)), target as int),
            2 * target <= u128::MAX,
            forall|e: Entry| #[trigger] minq.items().contains(e) ==> a_start <= e.1 < a_end && e.2 < b_len
                && e.0 == a_chunk@[e.1 - a_start].0 + b@[e.2 as int].0,
            forall|e: Entry| #[trigger] maxq.items().contains(e) ==> e.1 < c@.len() && e.2 < d_len
                && e.0 == c@[e.1 as int].0 + d@[e.2 as int].0,
            target < 0x4000_0000_0000_0000_0000_0000_0000_0000 ==> forall|i: int, j: int, k: int, l: int|
                #[trigger] meets(av, bv, cv, dv, 0, t, 0, t, t, i, j, k, l) ==> min_covers(
                    minq.items(),
                    a_start + i,
                    j,
                ) && max_covers(maxq.items(), cv, k, l),
        ensures
            target < 0x4000_0000_0000_0000_0000_0000_0000_0000 ==> forall|i: int, j: int, k: int, l: int|
                !#[trigger] meets(av, bv, cv, dv, 0, t, 0, t, t, i, j, k, l),
        decreases minq.weight(wl) + maxq.weight(wr),
    {
        let (ab, ai, bi) = match minq.peek() {
            Some(t) => t,
            None => {
                proof {
                    assert forall|i: int, j: int, k: int, l: int| target < 0x4000_0000_0000_0000_0000_0000_0000_0000 implies !#[trigger] meets(
                        av,
                        bv,
                        cv,
                        dv,
                        0,
                        t,
                        0,
                        t,
                        t,
                        i,
                        j,
                        k,
                        l,
                    ) by {
                        if meets(av, bv, cv, dv, 0, t, 0, t, t, i, j, k, l) {
                            let e = choose|e: Entry| #[trigger] minq.items().contains(e) && e.2 == j && e.1 <= a_start + i;
                            assert(minq.items().count(e) > 0);
                        }
                    }
                }
                break;
            },
        };
        let (cd, ci, di) = match maxq.peek() {
            Some(t) => t,
            None => {
                proof {
                    assert forall|i: int, j: int, k: int, l: int| target < 0x4000_0000_0000_0000_0000_0000_0000_0000 implies !#[trigger] meets(
                        av,
                        bv,
                        cv,
                        dv,
                        0,
                        t,
                        0,
                        t,
                        t,
                        i,
                        j,
                        k,
                        l,
                    ) by {
                        if meets(av, bv, cv, dv, 0, t, 0, t, t, i, j, k, l) {
                            let e = choose|e: Entry| #[trigger] maxq.items().contains(e) && e.2 == l && e.1
                                < cv.len() && cv[e.1 as int].0 >= cv[k].0;
                            assert(maxq.items().count(e) > 0);
                        }
                    }
                }
                break;
            },
        };
        ops = ops.wrapping_add(1);
        if ops & 0x7FFF == 0 && sh.stopped() {
            return (None, true);
        }
        let ghost top_ab = (ab, ai, bi);
        let ghost top_cd = (cd, ci, di);
        let ghost min_before = minq.items();
        let ghost max_before = maxq.items();
        let total = match ab.checked_add(cd) {
            Some(x) => x,
            None => {
                let ghost w0 = maxq.weight(wr);
                maxq.pop();
                proof {
                    assert(maxq.weight(wr) + wr((cd, ci, di)) == w0);
                    assert(ab + cd > u128::MAX);
                    assert forall|e: Entry| #[trigger] maxq.items().contains(e) implies e.1 < c@.len() && e.2
                        < d_len && e.0 == c@[e.1 as int].0 + d@[e.2 as int].0 by {
                        assert(max_before.contains(e));
                    }
                    if target < 0x4000_0000_0000_0000_0000_0000_0000_0000 {
                        assert(min_before.contains(top_ab));
                        assert(max_before.contains(top_cd));
                        assert(a_chunk@[ai - a_start].0 <= target && b@[bi as int].0 <= target);
                        assert(c@[ci as int].0 <= target && d@[di as int].0 <= target);
                    }
                }
                continue;
            },
        };
        if total == target {
            let sol = report_from_masks(
                sorted,
                qa,
                qb,
                qc,
                a_chunk[(ai - a_start) as usize].1,
                b[bi as usize].1,
                c[ci as usize].1,
                d[di as usize].1,
            );
            proof {
                let ia = ai - a_start;
                assert(minq.items().contains(top_ab));
                assert(maxq.items().contains(top_cd));
                assert(pair_ok(a_chunk@[ia], ints(sorted@.subrange(0, qa as int))));
                assert(pair_ok(b@[bi as int], ints(sorted@.subrange(qa as int, qa + qb))));
                assert(pair_ok(c@[ci as int], ints(sorted@.subrange(qa + qb, qa + qb + qc))));
                assert(pair_ok(d@[di as int], ints(sorted@.subrange(qa + qb + qc, sorted@.len() as int))));
                let p0 = picked(ints(sorted@.subrange(0, qa as int)), a_chunk@[ia].1, qa as int);
                let p1 = picked(ints(sorted@.subrange(qa as int, qa + qb)), b@[bi as int].1, qb as int);
                let p2 = picked(ints(sorted@.subrange(qa + qb, qa + qb + qc)), c@[ci as int].1, qc as int);
                let p3 = picked(
                    ints(sorted@.subrange(qa + qb + qc, sorted@.len() as int)),
                    d@[di as int].1,
                    sorted@.len() - qa - qb - qc,
                );
                crate::spec::lemma_sum_of_concat(p0, p1);
                crate::spec::lemma_sum_of_concat(p0 + p1, p2);
                crate::spec::lemma_sum_of_concat(p0 + p1 + p2, p3);
                assert(a_chunk@[ia].0 + b@[bi as int].0 + c@[ci as int].0 + d@[di as int].0 == target);
            }
            return (Some(sol), false);
        } else if total < target {
            let nai = ai + 1;
            let ghost w0 = minq.weight(wl);
            let mut pushed = false;
            if nai < a_end {
                let ns = a_chunk[(nai - a_start) as usize].0.wrapping_add(b[bi as usize].0);
                minq.replace((ns, nai, bi));
                pushed = true;
                proof {
                    assert(minq.weight(wl) + wl((ab, ai, bi)) == w0 + wl((ns, nai, bi)));
                }
            } else {
                minq.pop();
                proof {
                    assert(minq.weight(wl) + wl((ab, ai, bi)) == w0);
                }
            }
            proof {
                assert forall|e: Entry| #[trigger] minq.items().contains(e) implies a_start <= e.1 < a_end && e.2
                    < b_len && e.0 == a_chunk@[e.1 - a_start].0 + b@[e.2 as int].0 by {
                    if !min_before.contains(e) {
                        assert(e.2 == bi && e.1 == ai + 1);
                    }
                }
                assert forall|i: int, j: int, k: int, l: int|
                    target < 0x4000_0000_0000_0000_0000_0000_0000_0000 && #[trigger] meets(av, bv, cv, dv, 0, t, 0, t, t, i, j, k, l) implies min_covers(
                    minq.items(),
                    a_start + i,
                    j,
                ) && max_covers(maxq.items(), cv, k, l) by {
                    assert(av[i].0 == a_chunk@[i].0 && bv[j].0 == b@[j].0 && cv[k].0 == c@[k].0 && dv[l].0
                        == d@[l].0);
                    let e = choose|e: Entry| #[trigger] min_before.contains(e) && e.2 == j && e.1 <= a_start + i;
                    let f = choose|f: Entry| #[trigger] max_before.contains(f) && f.2 == l && f.1 < cv.len()
                        && cv[f.1 as int].0 >= cv[k].0;
                    assert(maxq.items().contains(f));
                    if e == top_ab {
                        assert(crate::heap::no_later(f, top_cd, false));
                        assert(cv[f.1 as int].0 == c@[f.1 as int].0);
                        if i <= ai - a_start {
                            if i < ai - a_start {
                                assert(a_chunk@[i].0 <= a_chunk@[ai - a_start].0);
                            }
                        }
                        assert(i > ai - a_start);
                        if i > ai + 1 - a_start {
                            assert(a_chunk@[ai + 1 - a_start].0 <= a_chunk@[i].0);
                        }
                        assert(pushed);
                        let g = ((a_chunk@[ai + 1 - a_start].0 + b@[j].0) as u128, (ai + 1) as u32, bi);
                        assert(minq.items().contains(g));
                    } else {
                        assert(minq.items().contains(e));
                    }
                }
            }
        } else {
            let ghost w0 = maxq.weight(wr);
            let mut pushed = false;
            if ci > 0 {
                let ns = c[(ci - 1) as usize].0.saturating_add(d[di as usize].0);
                maxq.replace((ns, ci - 1, di));
                pushed = true;
                proof {
                    assert(maxq.weight(wr) + wr((cd, ci, di)) == w0 + wr((ns, (ci - 1) as u32, di)));
                }
            } else {
                maxq.pop();
                proof {
                    assert(maxq.weight(wr) + wr((cd, ci, di)) == w0);
                }
            }
            proof {
                assert forall|e: Entry| #[trigger] maxq.items().contains(e) implies e.1 < c@.len() && e.2 < d_len
                    && e.0 == c@[e.1 as int].0 + d@[e.2 as int].0 by {
                    if !max_before.contains(e) {
                        assert(e.2 == di && e.1 + 1 == ci);
                    }
                }
                assert forall|i: int, j: int, k: int, l: int|
                    target < 0x4000_0000_0000_0000_0000_0000_0000_0000 && #[trigger] meets(av, bv, cv, dv, 0, t, 0, t, t, i, j, k, l) implies min_covers(
                    minq.items(),
                    a_start + i,
                    j,
                ) && max_covers(maxq.items(), cv, k, l) by {
                    assert(av[i].0 == a_chunk@[i].0 && bv[j].0 == b@[j].0 && cv[k].0 == c@[k].0 && dv[l].0
                        == d@[l].0);
                    let e = choose|e: Entry| #[trigger] min_before.contains(e) && e.2 == j && e.1 <= a_start + i;
                    let f = choose|f: Entry| #[trigger] max_before.contains(f) && f.2 == l && f.1 < cv.len()
                        && cv[f.1 as int].0 >= cv[k].0;
                    assert(minq.items().contains(e));
                    if f == top_cd {
                        assert(crate::heap::no_later(top_ab, e, false));
                        if e.1 - a_start < i {
                            assert(a_chunk@[e.1 - a_start].0 <= a_chunk@[i].0);
                        }
                        if k >= ci {
                            if k > ci {
                                assert(c@[ci as int].0 <= c@[k].0);
                            }
                        }
                        assert(k < ci);
                        if k < ci - 1 {
                            assert(c@[k].0 <= c@[ci - 1].0);
                        }
                        assert(pushed);
                        let g = ((c@[ci - 1].0 + d@[l].0) as u128, (ci - 1) as u32, di);
                        assert(maxq.items().contains(g));
                        assert(cv[ci - 1].0 == c@[ci - 1].0);
                    } else {
                        assert(maxq.items().contains(f));
                    }
                }
            }
        }
    }
    (None, false)
}

/// Four quarters of the elements sorted downwards, merged by the heap walk.
/// The second result tells whether the stop flag cut the search short; when
/// it did not, an answer comes whenever some selection of the elements sums
/// to `target`.
fn run_4way_ss_heap(sh: &Shared, nums: &[u128], target: u128, n: usize) -> (r: (Option<Vec<BigNum>>, bool))
    requires
        n == nums@.len(),
        n <= 64,
        sum_of(ints(nums@)) <= u128::MAX,
        target < 0x4000_0000_0000_0000_0000_0000_0000_0000,
    ensures
        r.0 matches Some(sol) ==> is_sub_multiset(big_values(sol@), ints(nums@)) && sum_of(big_values(sol@))
            == target,
        r.1 ==> r.0 is None,
        !r.1 && r.0 is None ==> !solvable(ints(nums@), target as int),
{
    let sorted = sort_u128(nums, true);
    proof {
        lemma_ints_perm(sorted@, nums@);
        lemma_sum_perm(ints(sorted@), ints(nums@));
    }
    let q = n / 4;
    let (a, b, c, d) = quarter_sums(sorted.as_slice(), q, target);
    proof {
        if solvable(ints(nums@), target as int) {
            crate::spec::lemma_solvable_perm(ints(nums@), ints(sorted@), target as int);
            lemma_quarters_meet(sorted@, q, target as int, a@, b@, c@, d@);
        }
    }
    if a.len() == 0 || b.len() == 0 || c.len() == 0 || d.len() == 0 {
        return (None, false);
    }
    if sh.stopped() {
        return (None, true);
    }
    proof {
        assert(sorted@.subrange(3 * q, n as int).len() == n - 3 * q);
        let qq: u64 = q as u64;
        let rr: u64 = (n - 3 * q) as u64;
        assert((1u64 << qq) <= 0x1_0000 && (1u64 << rr) <= 0x8_0000) by (bit_vector)
            requires
                qq <= 16,
                rr <= 19,
        ;
    }
    let (found, cut) = two_pointer_range(
        a.as_slice(),
        0,
        b.as_slice(),
        c.as_slice(),
        d.as_slice(),
        sorted.as_slice(),
        target,
        q,
        q,
        q,
        sh,
    );
    match found {
        Some(sol) => {
            proof {
                lemma_sub_multiset_perm(big_values(sol@), ints(sorted@), ints(nums@));
            }
            (Some(sol), false)
        },
        None => (None, cut),
    }
}

impl HashMitmEngine {
    /// Search for an answer among 20 to 64 elements that fit 128 bits.
    pub fn solve(sh: &Shared) -> (v: Verdict)
        ensures
            verdict_ok(v, sh.profile.values(), sh.profile.target_value()),
            sh.profile.values().len() < 20 || sh.profile.values().len() > 64 || !sh.profile.safe() ==> v is Unknown,
            !(v is Impossible),
    {
        Self::decide(sh).0
    }

    /// The search behind `solve`, with whether the stop flag cut it short.
    /// Unless it did, an instance of 20 to 64 elements gets an answer
    /// exactly when one exists.
    pub fn decide(sh: &Shared) -> (r: (Verdict, bool))
        ensures
            verdict_ok(r.0, sh.profile.values(), sh.profile.target_value()),
            sh.profile.values().len() < 20 || sh.profile.values().len() > 64 || !sh.profile.safe() ==> r.0 is Unknown,
            !(r.0 is Impossible),
            r.1 ==> r.0 is Unknown,
            !r.1 && 20 <= sh.profile.values().len() < 40 && sh.profile.safe() && solvable(
                sh.profile.values(),
                sh.profile.target_value(),
            ) ==> r.0 is Found,
            !r.1 && 40 <= sh.profile.values().len() <= 64 && sh.profile.safe() && solvable(
                sh.profile.values(),
                sh.profile.target_value(),
            ) ==> r.0 is Found,
    {
        let p = &sh.profile;
        let n = p.n();
        if n < 20 || n > 64 || !p.u128_safe() {
            return (Verdict::Unknown, false);
        }
        let target = p.target_u128();
        let nums = p.numbers_u128();
        if n >= 40 {
            let (found, cut) = run_4way_ss_heap(sh, nums.as_slice(), target, n);
            proof {
                if !cut && found is None && solvable(p.values(), p.target_value()) {
                    assert(ints(nums@) == p.values());
                }
            }
            return match found {
                Some(sol) => (checked(sol, p), false),
                None => (Verdict::Unknown, cut),
            };
        }
        if n >= 36 {
            let (found, cut) = run_4way_hash(sh, nums.as_slice(), target, n);
            return match found {
                Some(sol) => (checked(sol, p), false),
                None => (Verdict::Unknown, cut),
            };
        }
        let half = if n / 2 < 28 {
            n / 2
        } else {
            28
        };
        let (found, cut) = Self::run_2way(sh, nums.as_slice(), target, half);
        match found {
            Some(sol) => (checked(sol, p), false),
            None => (Verdict::Unknown, cut),
        }
    }
}

impl Engine for HashMitmEngine {
    fn name(&self) -> (r: &'static str)
        ensures
            r == crate::scheduler::EngineId::HashMitm.label(),
    {
        "HashMITM"
    }

    fn run(&self, sh: &Shared) {
        let v = Self::solve(sh);
        sh.apply(v, "HashMITM");
    }
}

} // verus!
