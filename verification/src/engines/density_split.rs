//! DensitySplit: cut the sorted elements at a density boundary, list the
//! subset sums of each side (at most the first 15 elements of each), and
//! look up each dense-side sum's complement among the sparse-side sums.
//!
//! Where to cut is decided from ratios of consecutive values, in floating
//! point, outside this module; `solve_split` takes the cut.

use crate::controller::{checked, verdict_ok, Shared, Verdict};
use crate::engines::hash_mitm::lemma_part_sum;
use crate::gray::gray_pairs;
use crate::bits::picked;
use crate::knapsack::{mask_pairs, pair_ok, picked_both};
use crate::profile::big_values;
use crate::sort::sort_u128;
use crate::spec::{ascending, ints, is_sub_multiset, lemma_ints_perm, lemma_sub_multiset_perm, lemma_sum_perm, reach, sel_sum, sum_of};
use std::collections::HashMap;
use vstd::prelude::*;

verus! {

broadcast use vstd::std_specs::hash::group_hash_axioms;

pub struct DensitySplitEngine;

/// The subset sums not above `target` of the first (at most 15) elements,
/// with their masks, in mask order.
fn build_sums(elems: &[u128], target: u128) -> (r: Vec<(u128, u64)>)
    requires
        sum_of(ints(elems@)) <= u128::MAX,
    ensures
        r@ == mask_pairs(
            ints(elems@.take(if elems@.len() < 15 { elems@.len() as int } else { 15 })),
            target as int,
            (1u64 << (if elems@.len() < 15 { elems@.len() } else { 15 })) as int,
        ),
{
    let n = if elems.len() < 15 {
        elems.len()
    } else {
        15
    };
    proof {
        lemma_part_sum(elems@, 0, n as int);
        assert(elems@.subrange(0, n as int) =~= elems@.take(n as int));
    }
    gray_pairs(&elems[0..n], target)
}

/// At most 15: how many elements of a side are enumerated.
pub open spec fn side_len(len: int) -> int {
    if len < 15 {
        len
    } else {
        15
    }
}

/// A subset sum of the enumerated sparse elements (the first ones of `s`,
/// before `split`) and one of the enumerated dense elements (the first ones
/// from `split` on) add up to `t`.
pub open spec fn sides_meet(s: Seq<int>, split: int, t: int) -> bool {
    let a = s.take(side_len(split));
    let b = s.subrange(split, split + side_len(s.len() - split));
    exists|x: int| #[trigger] reach(a, a.len() as int, x) && reach(b, b.len() as int, t - x)
}

impl DensitySplitEngine {
    /// The search with the sorted elements cut after the first `split_at`:
    /// the smaller values form the sparse side, the rest the dense side.
    pub fn solve_split(sh: &Shared, split_at: usize) -> (v: Verdict)
        ensures
            verdict_ok(v, sh.profile.values(), sh.profile.target_value()),
            sh.profile.values().len() < 24 || !sh.profile.safe() || split_at > sh.profile.values().len() ==> v is Unknown,
            split_at < 4 || sh.profile.values().len() < split_at + 4 ==> v is Unknown,
            !(v is Impossible),
    {
        Self::decide_split(sh, split_at).0
    }

    /// `solve_split`, with whether the stop flag cut the search short. Unless
    /// it was, and when each side has at least 4 elements, the answer is
    /// found whenever a subset sum of the enumerated sparse elements and one
    /// of the enumerated dense elements add up to the target.
    pub fn decide_split(sh: &Shared, split_at: usize) -> (r: (Verdict, bool))
        ensures
            verdict_ok(r.0, sh.profile.values(), sh.profile.target_value()),
            sh.profile.values().len() < 24 || !sh.profile.safe() || split_at > sh.profile.values().len() ==> r.0 is Unknown
                && !r.1,
            split_at < 4 || sh.profile.values().len() < split_at + 4 ==> r.0 is Unknown && !r.1,
            !(r.0 is Impossible),
            r.1 ==> r.0 is Unknown,
            !r.1 && r.0 is Unknown && sh.profile.values().len() >= 24 && sh.profile.safe() && 4 <= split_at
                && split_at + 4 <= sh.profile.values().len() ==> forall|s: Seq<int>|
                ascending(s) && s.to_multiset() == sh.profile.values().to_multiset() ==> !sides_meet(
                    s,
                    split_at as int,
                    sh.profile.target_value(),
                ),
    {
        let p = &sh.profile;
        let n = p.n();
        if n < 24 || !p.u128_safe() || split_at > n {
            return (Verdict::Unknown, false);
        }
        let target = p.target_u128();
        let nums = p.numbers_u128();
        let sorted = sort_u128(nums.as_slice(), false);
        proof {
            lemma_ints_perm(sorted@, nums@);
            lemma_sum_perm(ints(sorted@), ints(nums@));
        }
        let sparse = &sorted.as_slice()[0..split_at];
        let dense = &sorted.as_slice()[split_at..n];
        if sparse.len() < 4 || dense.len() < 4 {
            return (Verdict::Unknown, false);
        }
        if sh.stopped() {
            return (Verdict::Unknown, true);
        }
        proof {
            lemma_part_sum(sorted@, 0, split_at as int);
            lemma_part_sum(sorted@, split_at as int, n as int);
        }
        let k1: usize = if split_at < 15 {
            split_at
        } else {
            15
        };
        let k2: usize = if n - split_at < 15 {
            n - split_at
        } else {
            15
        };
        let ghost sv = ints(sorted@);
        let ghost t = target as int;
        let ghost av = sv.take(k1 as int);
        let ghost bv = sv.subrange(split_at as int, split_at + k2);
        proof {
            assert(ints(sparse@.take(k1 as int)) =~= av);
            assert(ints(dense@.take(k2 as int)) =~= bv);
            assert forall|i: int| 0 <= i < av.len() implies av[i] >= 0 by {}
            assert forall|i: int| 0 <= i < bv.len() implies bv[i] >= 0 by {}
            crate::knapsack::lemma_mask_pairs_ok(av, t, (1u64 << k1) as int);
            crate::knapsack::lemma_mask_pairs_ok(bv, t, (1u64 << k2) as int);
            assert(ascending(sv));
            lemma_ints_perm(sorted@, nums@);
        }
        let sparse_sums = build_sums(sparse, target);
        let ghost meet = sides_meet(sv, split_at as int, t);
        if sparse_sums.len() == 0 {
            proof {
                lemma_sides_listed(sv, split_at as int, t, sparse_sums@, mask_pairs(bv, t, (1u64 << k2) as int));
                lemma_meet_sorted(sv, p.values(), split_at as int, t);
            }
            return (Verdict::Unknown, false);
        }
        if sh.stopped() {
            return (Verdict::Unknown, true);
        }
        let mut sparse_map: HashMap<u128, u64> = HashMap::new();
        for i in 0..sparse_sums.len()
            invariant
                sparse_sums@ == mask_pairs(av, t, (1u64 << k1) as int),
                forall|k: u128| #[trigger] sparse_map@.contains_key(k) ==> pair_ok((k, sparse_map@[k]), av),
                forall|x: int| 0 <= x < i ==> sparse_map@.contains_key(#[trigger] sparse_sums@[x].0),
                forall|x: int| 0 <= x < sparse_sums@.len() ==> pair_ok(#[trigger] sparse_sums@[x], av),
        {
            let (s, m) = sparse_sums[i];
            sparse_map.insert(s, m);
        }
        let dense_sums = build_sums(dense, target);
        if dense_sums.len() == 0 {
            proof {
                lemma_sides_listed(sv, split_at as int, t, sparse_sums@, dense_sums@);
                lemma_meet_sorted(sv, p.values(), split_at as int, t);
            }
            return (Verdict::Unknown, false);
        }
        let mut j: usize = 0;
        while j < dense_sums.len()
            invariant
                sh.profile == *p,
                ints(nums@) == p.values(),
                p.values().len() >= 24 && p.safe(),
                t == p.target_value(),
                t == target as int,
                sorted@.to_multiset() == nums@.to_multiset(),
                sv == ints(sorted@),
                n == sorted@.len(),
                n == p.values().len(),
                sparse@ == sorted@.subrange(0, split_at as int),
                dense@ == sorted@.subrange(split_at as int, n as int),
                ascending(sv),
                sv.to_multiset() == p.values().to_multiset(),
                4 <= split_at <= n - 4,
                k1 == side_len(split_at as int),
                k2 == side_len(n - split_at),
                av == sv.take(k1 as int),
                bv == sv.subrange(split_at as int, split_at + k2),
                j <= dense_sums@.len(),
                sparse_sums@ == mask_pairs(av, t, (1u64 << k1) as int),
                dense_sums@ == mask_pairs(bv, t, (1u64 << k2) as int),
                forall|k: u128| #[trigger] sparse_map@.contains_key(k) ==> pair_ok((k, sparse_map@[k]), av),
                forall|x: int| 0 <= x < sparse_sums@.len() ==> sparse_map@.contains_key(#[trigger] sparse_sums@[x].0),
                forall|x: int| 0 <= x < dense_sums@.len() ==> pair_ok(#[trigger] dense_sums@[x], bv),
                forall|x: int| 0 <= x < dense_sums@.len() ==> (#[trigger] dense_sums@[x]).0 <= t,
                forall|x: int| 0 <= x < j ==> !sparse_map@.contains_key((t - (#[trigger] dense_sums@[x]).0) as u128),
            decreases dense_sums@.len() - j,
        {
            let (ds, dm) = dense_sums[j];
            if ds <= target {
                if sh.stopped() {
                    return (Verdict::Unknown, true);
                }
                let need = target - ds;
                match sparse_map.get(&need) {
                    Some(sm) => {
                        let sol = picked_both(&sparse[0..k1], *sm, &dense[0..k2], dm);
                        proof {
                            assert(sparse@.subrange(0, k1 as int) =~= sorted@.take(k1 as int));
                            assert(ints(sorted@.take(k1 as int)) =~= av);
                            assert(dense@.subrange(0, k2 as int) =~= sorted@.subrange(split_at as int, split_at + k2));
                            assert(ints(sorted@.subrange(split_at as int, split_at + k2)) =~= bv);
                            crate::bits::lemma_picked_in(av, *sm);
                            crate::bits::lemma_picked_in(bv, dm);
                            assert(sparse_map@.contains_key(need) && sparse_map@[need] == *sm);
                            assert(pair_ok((need, sparse_map@[need]), av));
                            assert(pair_ok(dense_sums@[j as int], bv));
                            lemma_sides_in(sv, k1 as int, split_at as int, k2 as int);
                            crate::spec::lemma_sub_multiset_concat(
                                picked(av, *sm, av.len() as int),
                                picked(bv, dm, bv.len() as int),
                                av,
                                bv,
                            );
                            crate::spec::lemma_sub_multiset_trans(big_values(sol@), av + bv, sv);
                            lemma_sub_multiset_perm(big_values(sol@), sv, ints(nums@));
                            crate::spec::lemma_sum_of_concat(
                                picked(av, *sm, av.len() as int),
                                picked(bv, dm, bv.len() as int),
                            );
                        }
                        assert(sum_of(big_values(sol@)) == t);
                        return (checked(sol, p), false);
                    },
                    None => {
                        assert(!sparse_map@.contains_key(need));
                        assert((t - dense_sums@[j as int].0) as u128 == need);
                    },
                }
            }
            j = j + 1;
        }
        proof {
            lemma_sides_listed(sv, split_at as int, t, sparse_sums@, dense_sums@);
            if sides_meet(sv, split_at as int, t) {
                let (x, y) = choose|x: int, y: int|
                    0 <= x < sparse_sums@.len() && 0 <= y < dense_sums@.len() && #[trigger] sparse_sums@[x].0
                        + #[trigger] dense_sums@[y].0 == t;
                assert(sparse_map@.contains_key(sparse_sums@[x].0));
                assert((t - dense_sums@[y].0) as u128 == sparse_sums@[x].0);
            }
            lemma_meet_sorted(sv, p.values(), split_at as int, t);
        }
        (Verdict::Unknown, false)
    }
}

/// Whether the sides meet does not depend on which ascending arrangement of
/// the values is cut.
proof fn lemma_meet_sorted(sv: Seq<int>, vals: Seq<int>, split: int, t: int)
    requires
        ascending(sv),
        sv.to_multiset() == vals.to_multiset(),
        !sides_meet(sv, split, t),
    ensures
        forall|s: Seq<int>| ascending(s) && s.to_multiset() == vals.to_multiset() ==> !sides_meet(s, split, t),
{
    assert forall|s: Seq<int>| ascending(s) && s.to_multiset() == vals.to_multiset() implies !sides_meet(
        s,
        split,
        t,
    ) by {
        vstd::seq_lib::lemma_sorted_unique(s, sv, |a: int, b: int| a <= b);
    }
}

/// The enumerated sparse elements followed by the enumerated dense ones are
/// drawn from `s`.
proof fn lemma_sides_in(s: Seq<int>, k1: int, split: int, k2: int)
    requires
        0 <= k1 <= split,
        0 <= k2,
        split + k2 <= s.len(),
    ensures
        is_sub_multiset(s.take(k1) + s.subrange(split, split + k2), s),
{
    broadcast use vstd::multiset::group_multiset_axioms;

    let a = s.take(k1);
    let m = s.subrange(k1, split);
    let b = s.subrange(split, split + k2);
    let z = s.subrange(split + k2, s.len() as int);
    assert(s =~= ((a + m) + b) + z);
    vstd::seq_lib::lemma_multiset_commutative((a + m) + b, z);
    vstd::seq_lib::lemma_multiset_commutative(a + m, b);
    vstd::seq_lib::lemma_multiset_commutative(a, m);
    vstd::seq_lib::lemma_multiset_commutative(a, b);
}

/// When the two sides meet, each side's list holds its part of the meeting
/// sum.
proof fn lemma_sides_listed(s: Seq<int>, split: int, t: int, l: Seq<(u128, u64)>, d: Seq<(u128, u64)>)
    requires
        4 <= split <= s.len() - 4,
        0 <= t <= u128::MAX,
        forall|i: int| 0 <= i < s.len() ==> s[i] >= 0,
        l == mask_pairs(s.take(side_len(split)), t, (1u64 << side_len(split) as u64) as int),
        d == mask_pairs(
            s.subrange(split, split + side_len(s.len() - split)),
            t,
            (1u64 << side_len(s.len() - split) as u64) as int,
        ),
    ensures
        sides_meet(s, split, t) ==> exists|x: int, y: int|
            0 <= x < l.len() && 0 <= y < d.len() && #[trigger] l[x].0 + #[trigger] d[y].0 == t,
{
    let a = s.take(side_len(split));
    let b = s.subrange(split, split + side_len(s.len() - split));
    if sides_meet(s, split, t) {
        let x = choose|x: int| #[trigger] reach(a, a.len() as int, x) && reach(b, b.len() as int, t - x);
        let sa = choose|sel: Seq<bool>| sel.len() == a.len() && #[trigger] sel_sum(a, sel) == x;
        let sb = choose|sel: Seq<bool>| sel.len() == b.len() && #[trigger] sel_sum(b, sel) == t - x;
        crate::spec::lemma_sel_sum_nonneg(a, sa);
        crate::spec::lemma_sel_sum_nonneg(b, sb);
        crate::engines::hash_mitm::lemma_quarter_listed(l, a, sa, t, side_len(split) as u64);
        crate::engines::hash_mitm::lemma_quarter_listed(d, b, sb, t, side_len(s.len() - split) as u64);
        let i = choose|i: int| 0 <= i < l.len() && #[trigger] l[i].0 == sel_sum(a, sa);
        let j = choose|j: int| 0 <= j < d.len() && #[trigger] d[j].0 == sel_sum(b, sb);
        assert(l[i].0 + d[j].0 == t);
    }
}

} // verus!
