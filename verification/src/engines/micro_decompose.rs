//! MicroDecompose: groups of two elements merged one group at a time.
//!
//! The sorted elements are paired up; each pair has at most four subset
//! sums. The partial sums are extended group by group, dropping those above
//! the target and those too small to reach it with everything that is left.
use crate::bignum::BigNum;
use crate::controller::{checked, verdict_ok, Engine, Shared, Verdict};
use crate::engines::group_decompose::dedup_by_sum;
use crate::bits::{bit, lemma_join_masks, mask_sum};
use crate::engines::hash_mitm::{all_ok, lemma_part_sum, lemma_quarter_listed};
use crate::gray::gray_pairs;
use crate::knapsack::{lemma_mask_pairs_ok, lemma_pairs_ok_perm, mask_pairs, pair_ok, picked_big};
use crate::profile::big_values;
use crate::sort::{lemma_sorted_pairs_by_sum, sort_pairs, sort_u128, sorted_by_sum};
use crate::spec::{
    ascending, ints, is_sub_multiset, lemma_ints_perm, lemma_sub_multiset_perm, lemma_sum_perm, lemma_tail_end, lemma_tail_nonneg,
    lemma_tail_step, lemma_tail_prepend, lemma_reach_step, lemma_reach_zero, lemma_reach_nonneg, lemma_sel_sum_split,
    lemma_sel_sum_prefix, reach, sel_sum, solvable, sum_of, tail_reach,
};
use vstd::prelude::*;

verus! {

pub struct MicroDecomposeEngine;

/// The subset sums of `elems` not above `target`, with their masks, sorted
/// by sum.
fn build_pair_sums(elems: &[u128], target: u128) -> (r: Vec<(u128, u64)>)
    requires
        elems@.len() < 64,
        sum_of(ints(elems@)) <= u128::MAX,
    ensures
        r@.to_multiset() == mask_pairs(ints(elems@), target as int, (1u64 << elems@.len()) as int).to_multiset(),
        sorted_by_sum(r@),
        all_ok(r@, ints(elems@), target as int),
{
    let v = gray_pairs(elems, target);
    proof {
        lemma_mask_pairs_ok(ints(elems@), target as int, (1u64 << elems@.len()) as int);
    }
    let r = sort_pairs(v);
    proof {
        lemma_pairs_ok_perm(r@, v@, ints(elems@), target as int);
        lemma_sorted_pairs_by_sum(r@);
    }
    r
}

/// Where group `h` of `n` elements, taken two at a time, ends.
pub open spec fn pair_end(n: int, h: int) -> int {
    if 2 * h + 2 < n {
        2 * h + 2
    } else {
        n
    }
}

/// Where the groups from `h` on begin among `n` elements in `g` groups.
pub open spec fn pair_start(n: int, g: int, h: int) -> int {
    if h < g {
        2 * h
    } else {
        n
    }
}

/// The total of `gm[h..]`.
pub open spec fn tail_total(gm: Seq<u128>, h: int) -> int {
    sum_of(ints(gm).subrange(h, gm.len() as int))
}

/// A group's list: every subset sum of `gv` not above `t`, each with its
/// mask, none above `gmax`.
pub open spec fn group_ok(l: Seq<(u128, u64)>, gv: Seq<int>, t: int, gmax: u128) -> bool {
    &&& l.to_multiset() == mask_pairs(gv, t, (1u64 << gv.len() as u64) as int).to_multiset()
    &&& all_ok(l, gv, t)
    &&& forall|i: int| 0 <= i < l.len() ==> (#[trigger] l[i]).0 <= gmax
}

/// The groups `gs` cover `sv` two elements at a time, each list as
/// `group_ok` says.
pub open spec fn groups_ok(sv: Seq<int>, gs: Seq<Vec<(u128, u64)>>, gm: Seq<u128>, t: int, from: int) -> bool {
    &&& gs.len() == gm.len()
    &&& 2 * gm.len() >= sv.len()
    &&& 2 * (gm.len() - 1) < sv.len()
    &&& forall|k: int|
        from <= k < gm.len() ==> group_ok(
            (#[trigger] gs[k])@,
            sv.subrange(2 * k, pair_end(sv.len() as int, k)),
            t,
            gm[k],
        )
}

/// The total of `gm[h..]` is `gm[h]` and the total after it.
proof fn lemma_tail_total_step(gm: Seq<u128>, h: int)
    requires
        0 <= h < gm.len(),
    ensures
        tail_total(gm, h) == gm[h] + tail_total(gm, h + 1),
{
    let a = ints(gm).subrange(h, gm.len() as int);
    let b = ints(gm).subrange(h + 1, gm.len() as int);
    assert(a =~= seq![gm[h] as int] + b);
    crate::spec::lemma_sum_of_concat(seq![gm[h] as int], b);
    reveal_with_fuel(sum_of, 2);
}

/// A selection of the groups from `h` on that sums to at most `t` sums to
/// at most the groups' largest listed sums together.
proof fn lemma_tail_within(sv: Seq<int>, gs: Seq<Vec<(u128, u64)>>, gm: Seq<u128>, h: int, x: int, t: int)
    requires
        sv.len() < 64,
        0 <= h <= gm.len(),
        groups_ok(sv, gs, gm, t, h),
        forall|i: int| 0 <= i < sv.len() ==> sv[i] >= 0,
        tail_reach(sv, pair_start(sv.len() as int, gm.len() as int, h), x),
        x <= t,
        t <= u128::MAX,
    ensures
        x <= tail_total(gm, h),
    decreases gm.len() - h,
{
    let n = sv.len() as int;
    let g = gm.len() as int;
    if h == g {
        lemma_tail_end(sv, x);
        assert(ints(gm).subrange(h, g) =~= Seq::<int>::empty());
    } else {
        let s0 = 2 * h;
        let e = pair_end(n, h);
        let gv = sv.subrange(s0, e);
        lemma_tail_step(sv, s0, x);
        let b0: bool = !tail_reach(sv, s0 + 1, x);
        let x1 = if b0 {
            x - sv[s0]
        } else {
            x
        };
        let (sel, z) = if e == s0 + 2 {
            lemma_tail_step(sv, s0 + 1, x1);
            let b1: bool = !tail_reach(sv, s0 + 2, x1);
            let z = if b1 {
                x1 - sv[s0 + 1]
            } else {
                x1
            };
            (seq![b0, b1], z)
        } else {
            (seq![b0], x1)
        };
        assert(tail_reach(sv, e, z));
        lemma_tail_nonneg(sv, e, z);
        assert(sel_sum(gv, sel) == x - z) by {
            reveal_with_fuel(sel_sum, 3);
            assert(sel.drop_last().len() < 2);
            if sel.len() == 2 {
                assert(sel.drop_last() =~= seq![b0]);
                assert(sel.drop_last().drop_last() =~= Seq::<bool>::empty());
            } else {
                assert(sel.drop_last() =~= Seq::<bool>::empty());
            }
        }
        crate::spec::lemma_sel_sum_nonneg(gv, sel);
        assert(group_ok(gs[h]@, gv, t, gm[h]));
        lemma_quarter_listed(gs[h]@, gv, sel, t, (e - s0) as u64);
        let i = choose|i: int| 0 <= i < gs[h]@.len() && #[trigger] gs[h]@[i].0 == sel_sum(gv, sel);
        assert(gs[h]@[i].0 <= gm[h]);
        assert(pair_start(n, g, h + 1) == e);
        lemma_tail_within(sv, gs, gm, h + 1, z, t);
        lemma_tail_total_step(gm, h);
    }
}

/// `v` when it is at most `t`, else 0.
pub open spec fn fit(v: int, t: int) -> int {
    if v <= t {
        v
    } else {
        0
    }
}

/// The largest subset sum, at most `t`, of a group of one or two elements.
pub open spec fn pair_best(gv: Seq<int>, t: int) -> int {
    if gv.len() == 1 {
        fit(gv[0], t)
    } else {
        let a = fit(gv[0], t);
        let b = fit(gv[1], t);
        let c = fit(gv[0] + gv[1], t);
        if a >= b && a >= c {
            a
        } else if b >= c {
            b
        } else {
            c
        }
    }
}

/// The largest subset sums, at most `t`, of the groups of `s` (two
/// elements at a time) from group `h` on, added up.
pub open spec fn rest_best(s: Seq<int>, h: int, t: int) -> int
    decreases s.len() + 1 - 2 * h,
{
    if h < 0 || 2 * h >= s.len() {
        0
    } else {
        pair_best(s.subrange(2 * h, pair_end(s.len() as int, h)), t) + rest_best(s, h + 1, t)
    }
}

/// The distinct subset sums of the first `g` groups of `s` that are at
/// most `t` and that the later groups' largest sums can still bring up to
/// `t`: the sums the merge keeps after group `g - 1`.
pub open spec fn kept_sums(s: Seq<int>, g: int, t: int) -> Set<nat> {
    Set::new(|x: nat| x <= t && reach(s, 2 * g, x as int) && x + rest_best(s, g, t) >= t)
}

/// Whatever ascending arrangement of `vals` is split into groups, after some
/// group the merge keeps more than 50,000 distinct sums.
pub open spec fn merge_crowded(vals: Seq<int>, t: int) -> bool {
    forall|s: Seq<int>|
        ascending(s) && s.to_multiset() == vals.to_multiset() ==> exists|g: int| #[trigger] crowded(s, g, t)
}

/// More than 50,000 distinct kept sums, each reached by the first `g`
/// groups and not too small, make the merge crowded.
proof fn lemma_crowded(sv: Seq<int>, vals: Seq<int>, cur: Seq<(u128, u64)>, g: int, t: int)
    requires
        crate::engines::group_decompose::strictly_increasing(cur),
        cur.len() > 50_000,
        1 <= g,
        2 * g < sv.len(),
        0 <= t,
        forall|x: int| 0 <= x < cur.len() ==> crate::knapsack::pair_ok(#[trigger] cur[x], sv.take(2 * g)) && cur[x].0 <= t,
        forall|x: int| 0 <= x < cur.len() ==> (#[trigger] cur[x]).0 + rest_best(sv, g, t) >= t,
        ascending(sv),
        sv.to_multiset() == vals.to_multiset(),
    ensures
        merge_crowded(vals, t),
{
    let ss = cur.map_values(|p: (u128, u64)| p.0 as nat);
    assert(ss.no_duplicates()) by {
        assert forall|i: int, j: int| 0 <= i < ss.len() && 0 <= j < ss.len() && i != j implies ss[i] != ss[j] by {
            if i < j {
                assert(cur[i].0 < cur[j].0);
            } else {
                assert(cur[j].0 < cur[i].0);
            }
        }
    }
    ss.unique_seq_to_set();
    let kept = kept_sums(sv, g, t);
    assert forall|x: nat| ss.to_set().contains(x) implies kept.contains(x) by {
        let i = choose|i: int| 0 <= i < ss.len() && ss[i] == x;
        lemma_pair_reach(sv, 2 * g, cur[i]);
    }
    crate::spec::lemma_upto_finite(t as nat);
    assert(kept.subset_of(Set::new(|x: nat| x <= t as nat)));
    vstd::set_lib::lemma_set_subset_finite(Set::new(|x: nat| x <= t as nat), kept);
    vstd::set_lib::lemma_len_subset(ss.to_set(), kept);
    assert(crowded(sv, g, t));
    assert forall|s: Seq<int>| ascending(s) && s.to_multiset() == vals.to_multiset() implies exists|h: int|
        #[trigger] crowded(s, h, t) by {
        vstd::seq_lib::lemma_sorted_unique(s, sv, |a: int, b: int| a <= b);
        assert(crowded(s, g, t));
    }
}

/// After group `g - 1` the merge keeps more than 50,000 distinct sums.
pub open spec fn crowded(s: Seq<int>, g: int, t: int) -> bool {
    1 <= g && 2 * g < s.len() && kept_sums(s, g, t).len() > 50_000
}

/// The sum of a group's list with the largest sum is the group's best sum.
proof fn lemma_pair_best(l: Seq<(u128, u64)>, gv: Seq<int>, t: int)
    requires
        1 <= gv.len() <= 2,
        forall|i: int| 0 <= i < gv.len() ==> gv[i] >= 0,
        0 <= t <= u128::MAX,
        l.to_multiset() == mask_pairs(gv, t, (1u64 << gv.len() as u64) as int).to_multiset(),
        all_ok(l, gv, t),
        sorted_by_sum(l),
    ensures
        l.len() > 0,
        l[l.len() - 1].0 == pair_best(gv, t),
{
    let k = gv.len() as u64;
    let x = gv[0];
    let y = if gv.len() == 2 {
        gv[1]
    } else {
        0
    };
    let best = pair_best(gv, t);
    // the best sum is the sum of some selection within `t`
    let sel: Seq<bool> = if gv.len() == 1 {
        if x <= t {
            seq![true]
        } else {
            seq![false]
        }
    } else {
        let a = fit(x, t);
        let b = fit(y, t);
        let c = fit(x + y, t);
        if a >= b && a >= c {
            if x <= t {
                seq![true, false]
            } else {
                seq![false, false]
            }
        } else if b >= c {
            if y <= t {
                seq![false, true]
            } else {
                seq![false, false]
            }
        } else {
            if x + y <= t {
                seq![true, true]
            } else {
                seq![false, false]
            }
        }
    };
    assert(sel_sum(gv, sel) == best) by {
        reveal_with_fuel(sel_sum, 3);
        if sel.len() == 2 {
            assert(sel.drop_last() =~= seq![sel[0]]);
            assert(sel.drop_last().drop_last() =~= Seq::<bool>::empty());
        } else {
            assert(sel.drop_last() =~= Seq::<bool>::empty());
        }
    }
    lemma_quarter_listed(l, gv, sel, t, k);
    let i = choose|i: int| 0 <= i < l.len() && #[trigger] l[i].0 == sel_sum(gv, sel);
    let last = l.len() - 1;
    if i < last {
        assert(l[i].0 <= l[last].0);
    }
    // and the largest listed sum is the sum of a selection within `t`
    let m = l[last].1;
    assert(crate::knapsack::pair_ok(l[last], gv) && l[last].0 <= t);
    assert(l[last].0 == mask_sum(gv, m));
    assert(mask_sum(gv, m) == (if bit(m, 0) {
        x
    } else {
        0
    }) + (if gv.len() == 2 && bit(m, 1) {
        y
    } else {
        0
    })) by {
        reveal_with_fuel(crate::bits::picked, 3);
        reveal_with_fuel(sum_of, 3);
        let p1 = crate::bits::picked(gv, m, 1);
        assert(crate::bits::picked(gv, m, 0) =~= Seq::<int>::empty());
        if gv.len() == 2 {
            let p2 = crate::bits::picked(gv, m, 2);
            if bit(m, 1) {
                assert(p2 =~= p1.push(y));
                crate::spec::lemma_sum_of_push(p1, y);
            }
        }
    }
}

/// The group maxima from `h` on add up to the best sums from `h` on.
proof fn lemma_tail_rest(sv: Seq<int>, gm: Seq<u128>, h: int, t: int)
    requires
        2 * gm.len() >= sv.len(),
        2 * (gm.len() - 1) < sv.len(),
        0 <= h <= gm.len(),
        forall|k: int| h <= k < gm.len() ==> #[trigger] gm[k] == pair_best(sv.subrange(2 * k, pair_end(sv.len() as int, k)), t),
    ensures
        tail_total(gm, h) == rest_best(sv, h, t),
    decreases gm.len() - h,
{
    if h == gm.len() {
        assert(ints(gm).subrange(h, gm.len() as int) =~= Seq::<int>::empty());
    } else {
        lemma_tail_rest(sv, gm, h + 1, t);
        lemma_tail_total_step(gm, h);
    }
}

/// What a fitting mask sums to within the first `k` elements is reached
/// by a selection of them.
proof fn lemma_pair_reach(sv: Seq<int>, k: int, p: (u128, u64))
    requires
        0 <= k <= sv.len(),
        crate::knapsack::pair_ok(p, sv.take(k)),
    ensures
        reach(sv, k, p.0 as int),
{
    let e = sv.take(k);
    crate::bits::lemma_picked_in(e, p.1);
    crate::spec::lemma_sub_multiset_reach(crate::bits::picked(e, p.1, e.len() as int), e);
    let sel = choose|sel: Seq<bool>| sel.len() == k && #[trigger] sel_sum(e, sel) == p.0 as int;
    lemma_sel_sum_prefix(e, sv, sel);
    assert(sel_sum(sv, sel) == p.0 as int);
}

/// `s` is a subset sum of the first `e` elements that the rest can
/// complete to `t`.
pub open spec fn viable(sv: Seq<int>, e: int, s: int, t: int) -> bool {
    reach(sv, e, s) && tail_reach(sv, e, t - s)
}

/// Some sum of the first `r` entries is `x`.
pub open spec fn listed(r: Seq<(u128, u64)>, x: int) -> bool {
    exists|k: int| 0 <= k < r.len() && (#[trigger] r[k]).0 == x
}

/// An answer splits at every position into a viable prefix sum.
proof fn lemma_viable_split(sv: Seq<int>, t: int, e: int)
    requires
        solvable(sv, t),
        0 <= e <= sv.len(),
    ensures
        exists|s: int| #[trigger] viable(sv, e, s, t),
{
    let sel = choose|sel: Seq<bool>| sel.len() == sv.len() && #[trigger] sel_sum(sv, sel) == t;
    lemma_sel_sum_split(sv, sel, e);
    let s = sel_sum(sv.take(e), sel.take(e));
    lemma_sel_sum_prefix(sv, sv.take(e), sel.take(e));
    assert(sel_sum(sv, sel.take(e)) == s);
    assert(reach(sv, e, s));
    assert(sv.skip(e) =~= sv.subrange(e, sv.len() as int));
    assert(sel_sum(sv.subrange(e, sv.len() as int), sel.skip(e)) == t - s);
    assert(tail_reach(sv, e, t - s));
    assert(viable(sv, e, s, t));
}

/// A viable sum at the end of group `g` is a viable sum at its start plus a
/// sum listed for the group.
proof fn lemma_viable_back(sv: Seq<int>, l: Seq<(u128, u64)>, g: int, s2: int, t: int)
    requires
        sv.len() < 64,
        0 <= 2 * g < sv.len(),
        forall|i: int| 0 <= i < sv.len() ==> sv[i] >= 0,
        l.to_multiset() == mask_pairs(
            sv.subrange(2 * g, pair_end(sv.len() as int, g)),
            t,
            (1u64 << (pair_end(sv.len() as int, g) - 2 * g) as u64) as int,
        ).to_multiset(),
        viable(sv, pair_end(sv.len() as int, g), s2, t),
        0 <= t <= u128::MAX,
    ensures
        exists|s: int, k: int| 0 <= k < l.len() && #[trigger] viable(sv, 2 * g, s, t) && s + (#[trigger] l[k]).0 == s2,
{
    let n = sv.len() as int;
    let s0 = 2 * g;
    let e = pair_end(n, g);
    let gv = sv.subrange(s0, e);
    // one element back
    lemma_reach_step(sv, e - 1, s2);
    let b1: bool = !reach(sv, e - 1, s2);
    let s1 = if b1 {
        s2 - sv[e - 1]
    } else {
        s2
    };
    lemma_tail_prepend(sv, e - 1, t - s2, b1);
    assert(viable(sv, e - 1, s1, t));
    let (sel, s) = if e == s0 + 2 {
        lemma_reach_step(sv, s0, s1);
        let b0: bool = !reach(sv, s0, s1);
        let s = if b0 {
            s1 - sv[s0]
        } else {
            s1
        };
        lemma_tail_prepend(sv, s0, t - s1, b0);
        assert(viable(sv, s0, s, t));
        (seq![b0, b1], s)
    } else {
        (seq![b1], s1)
    };
    assert(viable(sv, s0, s, t));
    assert(sel_sum(gv, sel) == s2 - s) by {
        reveal_with_fuel(sel_sum, 3);
        if sel.len() == 2 {
            assert(sel.drop_last() =~= seq![sel[0]]);
            assert(sel.drop_last().drop_last() =~= Seq::<bool>::empty());
        } else {
            assert(sel.drop_last() =~= Seq::<bool>::empty());
        }
    }
    lemma_reach_nonneg(sv, s0, s);
    lemma_tail_nonneg(sv, e, t - s2);
    assert forall|i: int| 0 <= i < gv.len() implies gv[i] >= 0 by {}
    crate::spec::lemma_sel_sum_nonneg(gv, sel);
    lemma_quarter_listed(l, gv, sel, t, (e - s0) as u64);
    let k = choose|k: int| 0 <= k < l.len() && #[trigger] l[k].0 == sel_sum(gv, sel);
    assert(viable(sv, 2 * g, s, t) && s + l[k].0 == s2);
}

/// A copy of `v`.
fn copy_pairs(v: &Vec<(u128, u64)>) -> (r: Vec<(u128, u64)>)
    ensures
        r@ == v@,
{
    let mut r: Vec<(u128, u64)> = Vec::new();
    for i in 0..v.len()
        invariant
            r@ == v@.take(i as int),
    {
        r.push(v[i]);
        proof {
            assert(v@.take(i + 1) =~= v@.take(i as int).push(v@[i as int]));
        }
    }
    proof {
        assert(v@.take(v@.len() as int) =~= v@);
    }
    r
}

impl MicroDecomposeEngine {
    /// Merge the pair groups one at a time and look for the target among the
    /// final sums; the answer's mask is read against the sorted elements.
    /// The second result tells whether the stop flag cut the search short,
    /// the third whether a merged list outgrew 200,000 entries and was cut
    /// there, which needs more than 50,000 distinct kept sums after some
    /// group. Unless one of them holds, an answer comes whenever one exists.
    #[verifier::rlimit(60)]
    fn search(sh: &Shared, nums: &[u128], target: u128) -> (r: (Option<Vec<BigNum>>, bool, bool))
        requires
            20 <= nums@.len() <= 50,
            sum_of(ints(nums@)) < 0x4000_0000_0000_0000_0000_0000_0000_0000,
            target < 0x4000_0000_0000_0000_0000_0000_0000_0000,
        ensures
            r.0 matches Some(sol) ==> is_sub_multiset(big_values(sol@), ints(nums@)) && sum_of(big_values(sol@))
                == target,
            r.1 ==> r.0 is None,
            !r.1 && !r.2 && r.0 is None ==> !solvable(ints(nums@), target as int),
            target < 50_000 ==> !r.2,
            r.2 ==> merge_crowded(ints(nums@), target as int),
    {
        let n = nums.len();
        let sorted = sort_u128(nums, false);
        let ghost sv = ints(sorted@);
        let ghost t = target as int;
        proof {
            lemma_ints_perm(sorted@, nums@);
            lemma_sum_perm(ints(sorted@), ints(nums@));
            assert forall|i: int| 0 <= i < sv.len() implies sv[i] >= 0 by {}
            if solvable(ints(nums@), t) {
                crate::spec::lemma_solvable_perm(ints(nums@), sv, t);
            }
            assert(ascending(sv));
        }
        let mut groups: Vec<Vec<(u128, u64)>> = Vec::new();
        let mut group_max: Vec<u128> = Vec::new();
        let mut i: usize = 0;
        while i < n
            invariant
                n == sorted@.len(),
                sv == ints(sorted@),
                t == target as int,
                20 <= n <= 50,
                i <= n,
                groups@.len() == group_max@.len(),
                i == (if 2 * groups@.len() < n { (2 * groups@.len()) as int } else { n as int }),
                2 * groups@.len() <= n + 1,
                sum_of(sv) < 0x4000_0000_0000_0000_0000_0000_0000_0000,
                forall|i: int| 0 <= i < sv.len() ==> sv[i] >= 0,
                forall|k: int|
                    0 <= k < groups@.len() ==> group_ok(
                        (#[trigger] groups@[k])@,
                        sv.subrange(2 * k, pair_end(n as int, k)),
                        t,
                        group_max@[k],
                    ),
                forall|k: int|
                    0 <= k < group_max@.len() ==> #[trigger] group_max@[k] == pair_best(
                        sv.subrange(2 * k, pair_end(n as int, k)),
                        t,
                    ),
            decreases n - i,
        {
            let end = if i + 2 < n {
                i + 2
            } else {
                n
            };
            proof {
                lemma_part_sum(sorted@, i as int, end as int);
                assert(end == pair_end(n as int, groups@.len() as int));
            }
            let sums = build_pair_sums(&sorted.as_slice()[i..end], target);
            let gmax = if sums.len() > 0 {
                sums[sums.len() - 1].0
            } else {
                0
            };
            proof {
                assert(ints(sorted@.subrange(i as int, end as int)) =~= sv.subrange(i as int, end as int));
                assert(forall|x: int| 0 <= x < sums@.len() ==> (#[trigger] sums@[x]).0 <= gmax);
                let gv = sv.subrange(i as int, end as int);
                assert forall|x: int| 0 <= x < gv.len() implies gv[x] >= 0 by {}
                lemma_pair_best(sums@, gv, t);
            }
            let ghost before = groups@;
            let ghost before_max = group_max@;
            group_max.push(gmax);
            if sh.stopped() {
                return (None, true, false);
            }
            groups.push(sums);
            proof {
                assert forall|k: int| 0 <= k < groups@.len() implies group_ok(
                    (#[trigger] groups@[k])@,
                    sv.subrange(2 * k, pair_end(n as int, k)),
                    t,
                    group_max@[k],
                ) by {
                    if k < before.len() {
                        assert(groups@[k] == before[k]);
                    }
                }
                assert forall|k: int| 0 <= k < group_max@.len() implies #[trigger] group_max@[k] == pair_best(
                    sv.subrange(2 * k, pair_end(n as int, k)),
                    t,
                ) by {
                    if k < before_max.len() {
                        assert(group_max@[k] == before_max[k]);
                    }
                }
            }
            i = end;
        }
        let num_groups = groups.len();
        assert(num_groups <= 25 && num_groups >= 10);
        proof {
            assert(groups_ok(sv, groups@, group_max@, t, 0));
        }
        let mut suffix_max: Vec<u128> = Vec::new();
        let mut k: usize = 0;
        while k <= num_groups
            invariant
                num_groups <= 25,
                k <= num_groups + 1,
                suffix_max@.len() == k,
                forall|j: int| 0 <= j < k ==> suffix_max@[j] == 0,
            decreases num_groups + 1 - k,
        {
            suffix_max.push(0);
            k = k + 1;
        }
        proof {
            assert(ints(group_max@).subrange(num_groups as int, num_groups as int) =~= Seq::<int>::empty());
        }
        let mut g = num_groups;
        while g > 0
            invariant
                g <= num_groups,
                num_groups <= 25,
                suffix_max@.len() == num_groups + 1,
                group_max@.len() == num_groups,
                forall|j: int|
                    g <= j <= num_groups ==> #[trigger] suffix_max@[j] == if tail_total(group_max@, j) < u128::MAX {
                        tail_total(group_max@, j)
                    } else {
                        u128::MAX as int
                    },
            decreases g,
        {
            g = g - 1;
            proof {
                lemma_tail_total_step(group_max@, g as int);
                lemma_tail_total_nonneg(group_max@, g + 1);
            }
            let v = suffix_max[g + 1].saturating_add(group_max[g]);
            suffix_max.set(g, v);
        }
        proof {
            assert forall|j: int| 0 <= j <= num_groups implies #[trigger] tail_total(group_max@, j) == rest_best(
                sv,
                j,
                t,
            ) by {
                lemma_tail_rest(sv, group_max@, j, t);
            }
        }
        let mut current = copy_pairs(&groups[0]);
        let mut capped = false;
        proof {
            assert(group_ok(groups@[0]@, sv.subrange(0, 2), t, group_max@[0]));
            lemma_group_len(groups@[0]@, sv.subrange(0, 2), t, group_max@[0]);
            assert(sv.take(2) =~= sv.subrange(0, 2));
            assert forall|s: int| viable(sv, 2, s, t) implies listed(current@, s) by {
                lemma_viable_back(sv, groups@[0]@, 0, s, t);
                let (s0, k) = choose|s0: int, k: int|
                    0 <= k < groups@[0]@.len() && #[trigger] viable(sv, 0, s0, t) && s0 + (
                    #[trigger] groups@[0]@[k]).0 == s;
                lemma_reach_zero(sv, s0);
            }
        }
        let mut g: usize = 1;
        while g < num_groups
            invariant
                1 <= g <= num_groups,
                num_groups == groups@.len(),
                10 <= num_groups <= 25,
                n == sorted@.len(),
                20 <= n <= 50,
                sv == ints(sorted@),
                t == target as int,
                target < 0x4000_0000_0000_0000_0000_0000_0000_0000,
                forall|i: int| 0 <= i < sv.len() ==> sv[i] >= 0,
                groups_ok(sv, groups@, group_max@, t, 0),
                solvable(ints(nums@), t) ==> solvable(sv, t),
                suffix_max@.len() == num_groups + 1,
                forall|j: int|
                    0 <= j <= num_groups ==> #[trigger] suffix_max@[j] == if tail_total(group_max@, j) < u128::MAX {
                        tail_total(group_max@, j)
                    } else {
                        u128::MAX as int
                    },
                forall|x: int|
                    0 <= x < current@.len() ==> pair_ok(
                        #[trigger] current@[x],
                        sv.take(pair_start(n as int, num_groups as int, g as int)),
                    ) && current@[x].0 <= target,
                !capped ==> forall|s: int|
                    #[trigger] viable(sv, pair_start(n as int, num_groups as int, g as int), s, t) ==> listed(
                        current@,
                        s,
                    ),
                target < 50_000 ==> !capped && current@.len() <= 50_000,
                forall|j: int| 0 <= j <= num_groups ==> #[trigger] tail_total(group_max@, j) == rest_best(sv, j, t),
                g == 1 ==> current@.len() <= 4,
                current@.len() <= 50_000 || crate::engines::group_decompose::strictly_increasing(current@),
                g >= 2 ==> forall|x: int|
                    0 <= x < current@.len() ==> (#[trigger] current@[x]).0 + tail_total(group_max@, g as int) >= t,
                ascending(sv),
                sv.to_multiset() == ints(nums@).to_multiset(),
                capped ==> merge_crowded(ints(nums@), t),
            decreases num_groups - g,
        {
            if current.len() == 0 {
                proof {
                    if !capped && solvable(sv, t) {
                        lemma_viable_split(sv, t, 2 * g);
                        let s = choose|s: int| #[trigger] viable(sv, 2 * g as int, s, t);
                        assert(pair_start(n as int, num_groups as int, g as int) == 2 * g);
                        assert(viable(sv, pair_start(n as int, num_groups as int, g as int), s, t));
                        assert(listed(current@, s));
                    }
                }
                return (None, false, capped);
            }
            if sh.stopped() {
                return (None, true, capped);
            }
            let next = &groups[g];
            let max_future = suffix_max[g + 1];
            let lower = target.saturating_sub(max_future);
            let shift = (g * 2) as u64;
            let ghost e0 = 2 * g as int;
            let ghost e1 = pair_end(n as int, g as int);
            let ghost gv = sv.subrange(e0, e1);
            proof {
                assert(group_ok(next@, gv, t, group_max@[g as int]));
                assert(pair_start(n as int, num_groups as int, g as int) == e0);
                assert(sv.take(e0) + gv =~= sv.take(e1));
                lemma_group_len(next@, gv, t, group_max@[g as int]);
            }
            let mut merged: Vec<(u128, u64)> = Vec::new();
            let mut iter_ops: u64 = 0;
            let mut ci: usize = 0;
            let ghost cap_now = capped;
            while ci < current.len()
                invariant_except_break
                    merged@.len() <= ci * next@.len(),
                invariant
                    ci <= current@.len(),
                    shift == e0,
                    e0 == 2 * g,
                    0 <= e0 < e1 <= e0 + 2,
                    e1 <= n,
                    n == sv.len(),
                    n <= 50,
                    t == target as int,
                    target < 0x4000_0000_0000_0000_0000_0000_0000_0000,
                    gv == sv.subrange(e0, e1),
                    sv.take(e0) + gv == sv.take(e1),
                    all_ok(next@, gv, t),
                    forall|x: int|
                        0 <= x < current@.len() ==> pair_ok(#[trigger] current@[x], sv.take(e0))
                            && current@[x].0 <= target,
                    forall|x: int| 0 <= x < merged@.len() ==> pair_ok(#[trigger] merged@[x], sv.take(e1)) && merged@[x].0 <= target,
                    !capped ==> forall|a: int, b: int|
                        0 <= a < ci && 0 <= b < next@.len() && lower <= #[trigger] current@[a].0 + #[trigger] next@[b].0 <= t
                            ==> listed(merged@, current@[a].0 + next@[b].0),
                    cap_now ==> capped,
                    next@.len() <= 4,
                    target < 50_000 ==> !capped && current@.len() <= 50_000,
                    1 <= g < num_groups,
                    2 * g < n,
                    forall|j: int| 0 <= j <= num_groups ==> #[trigger] tail_total(group_max@, j) == rest_best(sv, j, t),
                    g == 1 ==> current@.len() <= 4,
                    current@.len() <= 50_000 || crate::engines::group_decompose::strictly_increasing(current@),
                    g >= 2 ==> forall|x: int|
                        0 <= x < current@.len() ==> (#[trigger] current@[x]).0 + tail_total(group_max@, g as int) >= t,
                    ascending(sv),
                    sv.to_multiset() == ints(nums@).to_multiset(),
                    capped ==> merge_crowded(ints(nums@), t),
                    forall|x: int| 0 <= x < merged@.len() ==> (#[trigger] merged@[x]).0 >= lower,
                ensures
                    capped ==> merge_crowded(ints(nums@), t),
                    forall|x: int| 0 <= x < merged@.len() ==> (#[trigger] merged@[x]).0 >= lower,
                    target < 50_000 ==> !capped,
                    forall|x: int| 0 <= x < merged@.len() ==> pair_ok(#[trigger] merged@[x], sv.take(e1)) && merged@[x].0 <= target,
                    !capped ==> forall|a: int, b: int|
                        0 <= a < current@.len() && 0 <= b < next@.len() && lower <= #[trigger] current@[a].0
                            + #[trigger] next@[b].0 <= t ==> listed(merged@, current@[a].0 + next@[b].0),
                    cap_now ==> capped,
                decreases current@.len() - ci,
            {
                let (sv_c, sm) = current[ci];
                if sv_c <= target {
                    let mut ni: usize = 0;
                    while ni < next.len()
                        invariant
                            ni <= next@.len(),
                            ci < current@.len(),
                            (sv_c, sm) == current@[ci as int],
                            sv_c <= target,
                            shift == e0,
                            e0 == 2 * g,
                            0 <= e0 < e1 <= e0 + 2,
                            e1 <= n,
                            n == sv.len(),
                            n <= 50,
                            t == target as int,
                            target < 0x4000_0000_0000_0000_0000_0000_0000_0000,
                            gv == sv.subrange(e0, e1),
                            sv.take(e0) + gv == sv.take(e1),
                            all_ok(next@, gv, t),
                            pair_ok(current@[ci as int], sv.take(e0)),
                            forall|x: int| 0 <= x < merged@.len() ==> pair_ok(#[trigger] merged@[x], sv.take(e1)) && merged@[x].0 <= target,
                            !capped ==> forall|a: int, b: int|
                                0 <= a < ci && 0 <= b < next@.len() && lower <= #[trigger] current@[a].0
                                    + #[trigger] next@[b].0 <= t ==> listed(merged@, current@[a].0 + next@[b].0),
                            !capped ==> forall|b: int|
                                0 <= b < ni && lower <= sv_c + #[trigger] next@[b].0 <= t ==> listed(
                                    merged@,
                                    sv_c + next@[b].0,
                                ),
                            cap_now ==> capped,
                            next@.len() <= 4,
                            merged@.len() <= ci * next@.len() + ni,
                            target < 50_000 ==> !capped && current@.len() <= 50_000,
                            capped ==> merge_crowded(ints(nums@), t),
                            forall|x: int| 0 <= x < merged@.len() ==> (#[trigger] merged@[x]).0 >= lower,
                        decreases next@.len() - ni,
                    {
                        let (nv, nm) = next[ni];
                        iter_ops = iter_ops.wrapping_add(1);
                        if iter_ops & 0xFFFF == 0 && sh.stopped() {
                            return (None, true, capped);
                        }
                        let total = sv_c.wrapping_add(nv);
                        let ghost before = merged@;
                        if total >= lower && total <= target {
                            proof {
                                assert(pair_ok(next@[ni as int], gv));
                                lemma_join_masks(sv.take(e0), sm, gv, nm);
                            }
                            merged.push((total, sm | (nm << shift)));
                            proof {
                                assert(merged@[before.len() as int] == (total, sm | (nm << shift)));
                                assert(listed(merged@, total as int));
                            }
                        }
                        proof {
                            assert forall|x: int| 0 <= x < before.len() implies merged@[x] == before[x] by {}
                            assert forall|x: int| #[trigger] listed(before, x) implies listed(merged@, x) by {
                                let k = choose|k: int| 0 <= k < before.len() && (#[trigger] before[k]).0 == x;
                                assert(merged@[k] == before[k]);
                            }
                        }
                        ni = ni + 1;
                    }
                    proof {
                        assert(merged@.len() <= ci * next@.len() + next@.len()) by (nonlinear_arith)
                            requires
                                merged@.len() <= ci * next@.len() + next@.len(),
                        ;
                        if target < 50_000 {
                            assert(ci * next@.len() + next@.len() <= 50_000 * 4) by (nonlinear_arith)
                                requires
                                    ci < 50_000,
                                    next@.len() <= 4,
                            ;
                        }
                    }
                    if merged.len() > 200_000 {
                        proof {
                            let nl = next@.len();
                            assert(ci + 1 > 50_000) by (nonlinear_arith)
                                requires
                                    merged@.len() > 200_000,
                                    merged@.len() <= ci * nl + nl,
                                    nl <= 4,
                            ;
                            assert(current@.len() > 50_000);
                            assert(g >= 2);
                            assert(pair_start(n as int, num_groups as int, g as int) == 2 * g);
                            lemma_crowded(sv, ints(nums@), current@, g as int, t);
                        }
                        capped = true;
                        break;
                    }
                } else {
                    proof {
                        assert(ci * next@.len() + 0 <= (ci + 1) * next@.len()) by (nonlinear_arith)
                            requires
                                next@.len() >= 0,
                        ;
                    }
                }
                proof {
                    assert(ci * next@.len() + next@.len() == (ci + 1) * next@.len()) by (nonlinear_arith);
                }
                ci = ci + 1;
            }
            if merged.len() > 50_000 {
                let ghost unsorted = merged@;
                let s = sort_pairs(merged);
                proof {
                    lemma_sorted_pairs_by_sum(s@);
                }
                let d = dedup_by_sum(s);
                proof {
                    assert forall|x: int| 0 <= x < d@.len() implies pair_ok(#[trigger] d@[x], sv.take(e1))
                        && d@[x].0 <= target && d@[x].0 >= lower by {
                        let y = d@[x];
                        assert(s@.contains(y));
                        vstd::seq_lib::to_multiset_contains(s@, y);
                        vstd::seq_lib::to_multiset_contains(unsorted, y);
                        let k = choose|k: int| 0 <= k < unsorted.len() && unsorted[k] == y;
                    }
                    assert forall|x: int| #[trigger] listed(unsorted, x) implies listed(d@, x) by {
                        let k = choose|k: int| 0 <= k < unsorted.len() && (#[trigger] unsorted[k]).0 == x;
                        vstd::seq_lib::to_multiset_contains(unsorted, unsorted[k]);
                        vstd::seq_lib::to_multiset_contains(s@, unsorted[k]);
                        let j = choose|j: int| 0 <= j < s@.len() && s@[j] == unsorted[k];
                        assert(crate::engines::group_decompose::has_sum(d@, s@[j].0));
                    }
                }
                proof {
                    if target < 50_000 {
                        lemma_increasing_below(d@, target);
                    }
                }
                merged = d;
            }
            proof {
                assert(pair_start(n as int, num_groups as int, g + 1) == e1);
                assert forall|x: int| 0 <= x < merged@.len() implies (#[trigger] merged@[x]).0 + tail_total(
                    group_max@,
                    g + 1,
                ) >= t by {
                    lemma_tail_total_nonneg(group_max@, g + 1);
                    assert(merged@[x].0 >= lower);
                }
                if !capped {
                    assert forall|s2: int| #[trigger] viable(sv, e1, s2, t) implies listed(merged@, s2) by {
                        lemma_viable_back(sv, next@, g as int, s2, t);
                        let (s, k) = choose|s: int, k: int|
                            0 <= k < next@.len() && #[trigger] viable(sv, e0, s, t) && s + (#[trigger] next@[k]).0 == s2;
                        assert(listed(current@, s));
                        let a = choose|a: int| 0 <= a < current@.len() && (#[trigger] current@[a]).0 == s;
                        lemma_tail_nonneg(sv, e1, t - s2);
                        assert(pair_start(n as int, num_groups as int, g + 1) == e1);
                        lemma_tail_within(sv, groups@, group_max@, g + 1, t - s2, t);
                        assert(lower <= current@[a].0 + next@[k].0);
                    }
                }
            }
            current = merged;
            g = g + 1;
        }
        proof {
            assert(pair_start(n as int, num_groups as int, num_groups as int) == n);
            assert(sv.take(n as int) =~= sv);
        }
        let mut t_ix: usize = 0;
        while t_ix < current.len()
            invariant
                t_ix <= current@.len(),
                sorted@.to_multiset() == nums@.to_multiset(),
                sv == ints(sorted@),
                t == target as int,
                n == sv.len(),
                sv.take(n as int) == sv,
                forall|x: int| 0 <= x < current@.len() ==> pair_ok(#[trigger] current@[x], sv.take(n as int)),
                forall|x: int| 0 <= x < t_ix ==> (#[trigger] current@[x]).0 != target,
                capped ==> merge_crowded(ints(nums@), t),
                target < 50_000 ==> !capped,
            decreases current@.len() - t_ix,
        {
            let (sum, mask) = current[t_ix];
            if sum == target {
                let sol = picked_big(sorted.as_slice(), mask);
                proof {
                    assert(pair_ok(current@[t_ix as int], sv));
                    crate::bits::lemma_picked_in(ints(sorted@), mask);
                    lemma_ints_perm(sorted@, nums@);
                    lemma_sub_multiset_perm(big_values(sol@), ints(sorted@), ints(nums@));
                }
                return (Some(sol), false, capped);
            }
            t_ix = t_ix + 1;
        }
        proof {
            if !capped && solvable(ints(nums@), t) {
                crate::spec::lemma_solvable_perm(ints(nums@), sv, t);
                lemma_reach_zero(sv.subrange(n as int, n as int), 0);
                assert(viable(sv, n as int, t, t));
                let k = choose|k: int| 0 <= k < current@.len() && (#[trigger] current@[k]).0 == t;
            }
        }
        (None, false, capped)
    }

    /// Search for an answer among 20 to 50 elements that fit 128 bits.
    pub fn solve(sh: &Shared) -> (v: Verdict)
        ensures
            verdict_ok(v, sh.profile.values(), sh.profile.target_value()),
            sh.profile.values().len() < 20 || sh.profile.values().len() > 50 || !sh.profile.safe() ==> v is Unknown,
            !(v is Impossible),
    {
        Self::decide(sh).0
    }

    /// The search behind `solve`, with whether the stop flag cut it short
    /// and whether a merged list outgrew its bound of 200,000 entries. The
    /// bound is only reached when, after some group, the merge keeps more
    /// than 50,000 distinct sums (`merge_crowded`), which a target below
    /// 50,000 never allows. Unless one of them holds, an answer comes exactly
    /// when one exists.
    pub fn decide(sh: &Shared) -> (r: (Verdict, bool, bool))
        ensures
            verdict_ok(r.0, sh.profile.values(), sh.profile.target_value()),
            sh.profile.values().len() < 20 || sh.profile.values().len() > 50 || !sh.profile.safe() ==> r.0 is Unknown
                && !r.1 && !r.2,
            !(r.0 is Impossible),
            r.1 ==> r.0 is Unknown,
            sh.profile.target_value() < 50_000 ==> !r.2,
            r.2 ==> merge_crowded(sh.profile.values(), sh.profile.target_value()),
            !r.1 && !r.2 && 20 <= sh.profile.values().len() <= 50 && sh.profile.safe() && solvable(
                sh.profile.values(),
                sh.profile.target_value(),
            ) ==> r.0 is Found,
    {
        let p = &sh.profile;
        let n = p.n();
        if n < 20 || n > 50 || !p.u128_safe() {
            return (Verdict::Unknown, false, false);
        }
        let target = p.target_u128();
        let nums = p.numbers_u128();
        let (found, cut, capped) = Self::search(sh, nums.as_slice(), target);
        match found {
            Some(sol) => (checked(sol, p), false, capped),
            None => (Verdict::Unknown, cut, capped),
        }
    }
}

/// A group of at most two elements lists at most four sums.
proof fn lemma_group_len(l: Seq<(u128, u64)>, gv: Seq<int>, t: int, gmax: u128)
    requires
        group_ok(l, gv, t, gmax),
        gv.len() <= 2,
    ensures
        l.len() <= 4,
{
    let k = (1u64 << gv.len() as u64) as int;
    assert(k <= 4) by {
        if gv.len() == 0 {
            assert(1u64 << 0u64 == 1) by (bit_vector);
        } else if gv.len() == 1 {
            assert(1u64 << 1u64 == 2) by (bit_vector);
        } else {
            assert(1u64 << 2u64 == 4) by (bit_vector);
        }
    }
    crate::knapsack::lemma_mask_pairs_len(gv, t, k);
    broadcast use vstd::seq_lib::group_to_multiset_ensures;

    assert(l.len() == l.to_multiset().len());
    assert(mask_pairs(gv, t, k).len() == mask_pairs(gv, t, k).to_multiset().len());
}

/// Strictly increasing sums none above `t` number at most `t + 1`.
proof fn lemma_increasing_below(d: Seq<(u128, u64)>, t: u128)
    requires
        crate::engines::group_decompose::strictly_increasing(d),
        forall|x: int| 0 <= x < d.len() ==> (#[trigger] d[x]).0 <= t,
    ensures
        d.len() <= t + 1,
{
    if d.len() > 0 {
        assert forall|i: int| 0 <= i < d.len() implies (#[trigger] d[i]).0 >= i by {
            lemma_increasing_from(d, i);
        }
        assert(d[d.len() - 1].0 >= d.len() - 1);
    }
}

proof fn lemma_increasing_from(d: Seq<(u128, u64)>, i: int)
    requires
        crate::engines::group_decompose::strictly_increasing(d),
        0 <= i < d.len(),
    ensures
        d[i].0 >= i,
    decreases i,
{
    if i > 0 {
        lemma_increasing_from(d, i - 1);
        assert(d[i - 1].0 < d[i].0);
    }
}

/// The total of a tail of `gm` is not negative.
proof fn lemma_tail_total_nonneg(gm: Seq<u128>, h: int)
    requires
        0 <= h <= gm.len(),
    ensures
        tail_total(gm, h) >= 0,
{
    let v = ints(gm).subrange(h, gm.len() as int);
    assert forall|i: int| 0 <= i < v.len() implies v[i] >= 0 by {}
    crate::spec::lemma_sum_nonneg(v);
}

impl Engine for MicroDecomposeEngine {
    fn name(&self) -> (r: &'static str)
        ensures
            r == crate::scheduler::EngineId::MicroDecompose.label(),
    {
        "MicroDecompose"
    }

    fn run(&self, sh: &Shared) {
        let v = Self::solve(sh);
        sh.apply(v, "MicroDecompose");
    }
}

} // verus!
