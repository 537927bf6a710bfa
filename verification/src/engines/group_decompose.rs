//! GroupDecompose: Schroeppel-Shamir style search over four groups.
//!
//! The sorted elements are cut into four groups (the last one larger when
//! there are many big elements). Subset sums of each group are listed; a
//! min-heap walks A+B upwards and a max-heap walks C+D downwards until the
//! two meet at the target. A six-group variant merges pairs of groups into
//! capped sorted lists first.
use crate::bignum::BigNum;
use crate::controller::{checked, verdict_ok, Engine, Shared, Verdict};
use crate::bits::{fits, lemma_picked_in, picked};
use crate::engines::hash_mitm::{all_ok, lemma_part_sum, push_selected, sums_at_most};
use crate::gray::gray_pairs;
use crate::heap::{Entry, MaxHeap, MinHeap};
use crate::knapsack::{
    max_covers, meets, min_covers, lemma_mask_pairs_ok, lemma_pairs_ok_perm, mask_pairs, pair_ok, picked_big, wide,
};
use crate::profile::big_values;
use crate::sort::{sort_pairs, sort_u128, sorted_by_sum, lemma_sorted_pairs_by_sum};
use crate::spec::{
    ints, is_sub_multiset, lemma_ints_perm, lemma_sel_sum_split, lemma_sub_multiset_concat, lemma_sub_multiset_perm,
    lemma_sum_of_concat, lemma_sum_perm, sel_sum, solvable, sum_of,
};
use vstd::prelude::*;

verus! {

broadcast use vstd::multiset::group_multiset_axioms, vstd::seq_lib::group_to_multiset_ensures;

pub struct GroupDecomposeEngine;

/// The subset sums of `elems` not above `target`, with their masks, sorted
/// by sum; more than 15 elements give no sums.
fn build_sums_u128(elems: &[u128], target: u128) -> (r: Vec<(u128, u64)>)
    requires
        sum_of(ints(elems@)) <= u128::MAX,
    ensures
        elems@.len() > 15 ==> r@.len() == 0,
        elems@.len() <= 15 ==> r@.to_multiset() == mask_pairs(
            ints(elems@),
            target as int,
            (1u64 << elems@.len()) as int,
        ).to_multiset(),
        sorted_by_sum(r@),
        all_ok(r@, ints(elems@), target as int),
        r@.len() <= 0x8000,
{
    if elems.len() > 15 {
        return Vec::new();
    }
    let v = gray_pairs(elems, target);
    proof {
        lemma_mask_pairs_ok(ints(elems@), target as int, (1u64 << elems@.len()) as int);
        crate::knapsack::lemma_mask_pairs_len(ints(elems@), target as int, (1u64 << elems@.len()) as int);
        let nn: u64 = elems@.len() as u64;
        assert((1u64 << nn) <= 0x8000) by (bit_vector)
            requires
                nn <= 15,
        ;
        assert((1u64 << elems@.len()) == (1u64 << nn));
    }
    let r = sort_pairs(v);
    proof {
        lemma_pairs_ok_perm(r@, v@, ints(elems@), target as int);
        lemma_sorted_pairs_by_sum(r@);
        assert(r@.len() == r@.to_multiset().len());
        assert(v@.len() == v@.to_multiset().len());
    }
    r
}

/// The elements of `arr` at the set bits of `mask`; drawn from `arr`.
fn decode(arr: &[u128], mask: u64) -> (sol: Vec<BigNum>)
    ensures
        big_values(sol@) == crate::bits::picked(ints(arr@), mask, arr@.len() as int),
        is_sub_multiset(big_values(sol@), ints(arr@)),
{
    let sol = picked_big(arr, mask);
    proof {
        crate::bits::lemma_picked_in(ints(arr@), mask);
    }
    sol
}

/// The elements four masks pick from four groups, group by group, each in
/// position order.
fn report_groups(qa: &[u128], qb: &[u128], qc: &[u128], qd: &[u128], ma: u64, mb: u64, mc: u64, md: u64) -> (sol:
    Vec<BigNum>)
    requires
        fits(ma, qa@.len() as int),
        fits(mb, qb@.len() as int),
        fits(mc, qc@.len() as int),
        fits(md, qd@.len() as int),
    ensures
        big_values(sol@) == picked(ints(qa@), ma, qa@.len() as int) + picked(ints(qb@), mb, qb@.len() as int)
            + picked(ints(qc@), mc, qc@.len() as int) + picked(ints(qd@), md, qd@.len() as int),
        is_sub_multiset(big_values(sol@), ints(qa@) + ints(qb@) + ints(qc@) + ints(qd@)),
{
    let mut sol: Vec<BigNum> = Vec::new();
    push_selected(qa, ma, &mut sol);
    push_selected(qb, mb, &mut sol);
    push_selected(qc, mc, &mut sol);
    push_selected(qd, md, &mut sol);
    proof {
        let p0 = picked(ints(qa@), ma, qa@.len() as int);
        let p1 = picked(ints(qb@), mb, qb@.len() as int);
        let p2 = picked(ints(qc@), mc, qc@.len() as int);
        let p3 = picked(ints(qd@), md, qd@.len() as int);
        lemma_picked_in(ints(qa@), ma);
        lemma_picked_in(ints(qb@), mb);
        lemma_picked_in(ints(qc@), mc);
        lemma_picked_in(ints(qd@), md);
        assert(big_values(Seq::<BigNum>::empty()) =~= Seq::<int>::empty());
        assert(big_values(sol@) =~= p0 + p1 + p2 + p3);
        lemma_sub_multiset_concat(p0, p1, ints(qa@), ints(qb@));
        lemma_sub_multiset_concat(p0 + p1, p2, ints(qa@) + ints(qb@), ints(qc@));
        lemma_sub_multiset_concat(p0 + p1 + p2, p3, ints(qa@) + ints(qb@) + ints(qc@), ints(qd@));
    }
    sol
}

/// The listed subset sums of a group: every mask below `2^len`, in mask
/// order, whose selection sums to at most `t`.
pub open spec fn group_sums(q: Seq<int>, t: int) -> Seq<(u128, u64)> {
    mask_pairs(q, t, (1u64 << q.len()) as int)
}

/// Four listed sums, one from each list, add up to `t`.
pub open spec fn four_sums_meet(
    pa: Seq<(u128, u64)>,
    pb: Seq<(u128, u64)>,
    pc: Seq<(u128, u64)>,
    pd: Seq<(u128, u64)>,
    t: int,
) -> bool {
    exists|i: int, j: int, k: int, l: int|
        0 <= i < pa.len() && 0 <= j < pb.len() && 0 <= k < pc.len() && 0 <= l < pd.len() && #[trigger] pa[i].0
            + #[trigger] pb[j].0 + #[trigger] pc[k].0 + #[trigger] pd[l].0 == t
}

/// When the sorted elements can reach `t`, the listed sums of the four
/// consecutive groups cut at `x`, `y` and `z` (each of at most 15) meet at `t`.
proof fn lemma_groups_meet(sorted: Seq<u128>, x: int, y: int, z: int, t: int)
    requires
        0 <= x <= y <= z <= sorted.len(),
        x <= 15,
        y - x <= 15,
        z - y <= 15,
        sorted.len() - z <= 15,
        0 <= t <= u128::MAX,
        solvable(ints(sorted), t),
    ensures
        four_sums_meet(
            group_sums(ints(sorted.subrange(0, x)), t),
            group_sums(ints(sorted.subrange(x, y)), t),
            group_sums(ints(sorted.subrange(y, z)), t),
            group_sums(ints(sorted.subrange(z, sorted.len() as int)), t),
            t,
        ),
{
    let v = ints(sorted);
    let n = sorted.len() as int;
    let sel = choose|sel: Seq<bool>| sel.len() == v.len() && #[trigger] sel_sum(v, sel) == t;
    let v0 = ints(sorted.subrange(0, x));
    let v1 = ints(sorted.subrange(x, y));
    let v2 = ints(sorted.subrange(y, z));
    let v3 = ints(sorted.subrange(z, n));
    lemma_sel_sum_split(v, sel, x);
    let r1 = v.skip(x);
    let t1 = sel.skip(x);
    lemma_sel_sum_split(r1, t1, y - x);
    let r2 = r1.skip(y - x);
    let t2 = t1.skip(y - x);
    lemma_sel_sum_split(r2, t2, z - y);
    assert(v.take(x) =~= v0);
    assert(r1.take(y - x) =~= v1);
    assert(r2.take(z - y) =~= v2);
    assert(r2.skip(z - y) =~= v3);
    let s0 = sel.take(x);
    let s1 = t1.take(y - x);
    let s2 = t2.take(z - y);
    let s3 = t2.skip(z - y);
    assert forall|i: int| 0 <= i < v0.len() implies v0[i] >= 0 by {}
    assert forall|i: int| 0 <= i < v1.len() implies v1[i] >= 0 by {}
    assert forall|i: int| 0 <= i < v2.len() implies v2[i] >= 0 by {}
    assert forall|i: int| 0 <= i < v3.len() implies v3[i] >= 0 by {}
    crate::spec::lemma_sel_sum_nonneg(v0, s0);
    crate::spec::lemma_sel_sum_nonneg(v1, s1);
    crate::spec::lemma_sel_sum_nonneg(v2, s2);
    crate::spec::lemma_sel_sum_nonneg(v3, s3);
    let g0 = group_sums(v0, t);
    let g1 = group_sums(v1, t);
    let g2 = group_sums(v2, t);
    let g3 = group_sums(v3, t);
    crate::engines::hash_mitm::lemma_quarter_listed(g0, v0, s0, t, x as u64);
    crate::engines::hash_mitm::lemma_quarter_listed(g1, v1, s1, t, (y - x) as u64);
    crate::engines::hash_mitm::lemma_quarter_listed(g2, v2, s2, t, (z - y) as u64);
    crate::engines::hash_mitm::lemma_quarter_listed(g3, v3, s3, t, (n - z) as u64);
    let i0 = choose|i: int| 0 <= i < g0.len() && #[trigger] g0[i].0 == sel_sum(v0, s0);
    let i1 = choose|i: int| 0 <= i < g1.len() && #[trigger] g1[i].0 == sel_sum(v1, s1);
    let i2 = choose|i: int| 0 <= i < g2.len() && #[trigger] g2[i].0 == sel_sum(v2, s2);
    let i3 = choose|i: int| 0 <= i < g3.len() && #[trigger] g3[i].0 == sel_sum(v3, s3);
    assert(g0[i0].0 + g1[i1].0 + g2[i2].0 + g3[i3].0 == t);
}

/// Lists holding the same pairs as the groups' listed sums meet exactly
/// when those do.
proof fn lemma_meet_lists(
    a: Seq<(u128, u64)>,
    b: Seq<(u128, u64)>,
    c: Seq<(u128, u64)>,
    d: Seq<(u128, u64)>,
    qa: Seq<int>,
    qb: Seq<int>,
    qc: Seq<int>,
    qd: Seq<int>,
    t: int,
)
    requires
        a.to_multiset() == group_sums(qa, t).to_multiset(),
        b.to_multiset() == group_sums(qb, t).to_multiset(),
        c.to_multiset() == group_sums(qc, t).to_multiset(),
        d.to_multiset() == group_sums(qd, t).to_multiset(),
    ensures
        four_sums_meet(group_sums(qa, t), group_sums(qb, t), group_sums(qc, t), group_sums(qd, t), t) ==> exists|
            i: int,
            j: int,
            k: int,
            l: int,
        | #[trigger] meets(wide(a), wide(b), wide(c), wide(d), 0, t, 0, t, t, i, j, k, l),
{
    let (ga, gb, gc, gd) = (group_sums(qa, t), group_sums(qb, t), group_sums(qc, t), group_sums(qd, t));
    if four_sums_meet(ga, gb, gc, gd, t) {
        let (i, j, k, l) = choose|i: int, j: int, k: int, l: int|
            0 <= i < ga.len() && 0 <= j < gb.len() && 0 <= k < gc.len() && 0 <= l < gd.len() && #[trigger] ga[i].0
                + #[trigger] gb[j].0 + #[trigger] gc[k].0 + #[trigger] gd[l].0 == t;
        vstd::seq_lib::to_multiset_contains(ga, ga[i]);
        vstd::seq_lib::to_multiset_contains(a, ga[i]);
        vstd::seq_lib::to_multiset_contains(gb, gb[j]);
        vstd::seq_lib::to_multiset_contains(b, gb[j]);
        vstd::seq_lib::to_multiset_contains(gc, gc[k]);
        vstd::seq_lib::to_multiset_contains(c, gc[k]);
        vstd::seq_lib::to_multiset_contains(gd, gd[l]);
        vstd::seq_lib::to_multiset_contains(d, gd[l]);
        assert(ga.contains(ga[i]));
        assert(gb.contains(gb[j]));
        assert(gc.contains(gc[k]));
        assert(gd.contains(gd[l]));
        let ia = choose|x: int| 0 <= x < a.len() && a[x] == ga[i];
        let ib = choose|x: int| 0 <= x < b.len() && b[x] == gb[j];
        let ic = choose|x: int| 0 <= x < c.len() && c[x] == gc[k];
        let id = choose|x: int| 0 <= x < d.len() && d[x] == gd[l];
        assert(meets(wide(a), wide(b), wide(c), wide(d), 0, t, 0, t, t, ia, ib, ic, id));
    }
}

/// Work left for an A+B entry: the A positions it may still advance over.
pub open spec fn forward_work(len: int) -> spec_fn(Entry) -> nat {
    |e: Entry| if e.1 < len {
        (len - e.1) as nat
    } else {
        0
    }
}

/// Work left for a C+D entry: the C positions it may still retreat over.
pub open spec fn backward_work() -> spec_fn(Entry) -> nat {
    |e: Entry| (e.1 + 1) as nat
}

/// How many of `e` exceed `t`.
pub open spec fn count_above(e: Seq<int>, t: int) -> nat
    decreases e.len(),
{
    if e.len() == 0 {
        0
    } else {
        count_above(e.drop_last(), t) + if e.last() > t {
            1nat
        } else {
            0nat
        }
    }
}

/// The size of each of the first three groups of `n` elements, `big` of
/// which exceed a quarter of the target: a quarter of them, less a third of
/// the big elements beyond what the last group holds (at most six, and
/// leaving each group two elements).
pub open spec fn first_group_size(n: int, big: int) -> int {
    let q = n / 4;
    let rem = n - 3 * q;
    let over = if big > q + rem {
        big - (q + rem)
    } else {
        0
    };
    let cap = if q >= 2 {
        q - 2
    } else {
        0
    };
    let extra = if over < 6 {
        over
    } else {
        6
    };
    let extra = if extra < cap {
        extra
    } else {
        cap
    };
    q - extra / 3
}

/// The four groups that `e` is split into for `target` have at most 15
/// elements each.
pub open spec fn groups_fit(e: Seq<int>, target: int) -> bool {
    let g = first_group_size(e.len() as int, count_above(e, target / 4) as int);
    &&& g <= 15
    &&& e.len() - 3 * g <= 15
}

impl GroupDecomposeEngine {
    /// Four groups of the sorted elements, merged by the heap walk.
    #[verifier::rlimit(40)]
    fn run_4way(sh: &Shared, nums: &[u128], target: u128, n: usize) -> (r: (Option<Vec<BigNum>>, bool))
        requires
            n == nums@.len(),
            n >= 10,
            sum_of(ints(nums@)) < 0x4000_0000_0000_0000_0000_0000_0000_0000,
            target < 0x4000_0000_0000_0000_0000_0000_0000_0000,
        ensures
            r.0 matches Some(sol) ==> is_sub_multiset(big_values(sol@), ints(nums@)) && sum_of(big_values(sol@))
                == target,
            nums@.contains(target) ==> (r.0 matches Some(sol) && big_values(sol@) == seq![target as int]),
            !nums@.contains(target) && sum_of(ints(nums@)) < target ==> r.0 is None,
            r.1 ==> r.0 is None,
            !r.1 && r.0 is None && 0 < target && groups_fit(ints(nums@), target as int) ==> !solvable(
                ints(nums@),
                target as int,
            ),
    {
        let sorted = sort_u128(nums, false);
        proof {
            lemma_ints_perm(sorted@, nums@);
            lemma_sum_perm(ints(sorted@), ints(nums@));
        }
        let mut k: usize = 0;
        while k < n
            invariant
                n == sorted@.len(),
                k <= n,
                sorted@.to_multiset() == nums@.to_multiset(),
                forall|j: int| 0 <= j < k ==> sorted@[j] != target,
            decreases n - k,
        {
            if sorted[k] == target {
                let mut sol: Vec<BigNum> = Vec::new();
                sol.push(BigNum::from_u128(target));
                proof {
                    assert(big_values(sol@) =~= seq![target as int]);
                    assert(ints(sorted@)[k as int] == target as int);
                    crate::engines::bitset_dp::lemma_subrange_in(ints(sorted@), k as int, k + 1);
                    assert(ints(sorted@).subrange(k as int, k + 1) =~= seq![target as int]);
                    lemma_ints_perm(sorted@, nums@);
                    lemma_sub_multiset_perm(big_values(sol@), ints(sorted@), ints(nums@));
                    assert(sorted@[k as int] == target);
                    vstd::seq_lib::to_multiset_contains(sorted@, target);
                    vstd::seq_lib::to_multiset_contains(nums@, target);
                    reveal_with_fuel(sum_of, 2);
                }
                return (Some(sol), false);
            }
            k = k + 1;
        }
        proof {
            vstd::seq_lib::to_multiset_contains(sorted@, target);
            vstd::seq_lib::to_multiset_contains(nums@, target);
        }
        let mut total: u128 = 0;
        let mut i: usize = 0;
        while i < n
            invariant
                n == sorted@.len(),
                i <= n,
                total == sum_of(ints(sorted@).take(i as int)),
                sum_of(ints(sorted@)) < 0x4000_0000_0000_0000_0000_0000_0000_0000,
            decreases n - i,
        {
            proof {
                assert(ints(sorted@).take(i + 1) =~= ints(sorted@).take(i as int).push(sorted@[i as int] as int));
                crate::spec::lemma_sum_of_push(ints(sorted@).take(i as int), sorted@[i as int] as int);
                lemma_part_sum(sorted@, 0, i + 1);
                assert(ints(sorted@.subrange(0, i + 1)) =~= ints(sorted@).take(i + 1));
            }
            total = total + sorted[i];
            i = i + 1;
        }
        proof {
            assert(ints(sorted@).take(n as int) =~= ints(sorted@));
        }
        proof {
            assert forall|x: int| 0 <= x < ints(sorted@).len() implies ints(sorted@)[x] >= 0 by {}
            if solvable(ints(nums@), target as int) {
                crate::spec::lemma_solvable_perm(ints(nums@), ints(sorted@), target as int);
            }
        }
        if total < target {
            proof {
                if solvable(ints(sorted@), target as int) {
                    let sel = choose|sel: Seq<bool>| sel.len() == ints(sorted@).len() && #[trigger] sel_sum(
                        ints(sorted@),
                        sel,
                    ) == target;
                    crate::select::lemma_sel_sum_bounds(ints(sorted@), sel);
                }
            }
            return (None, false);
        }
        if sorted[0] > target {
            proof {
                if solvable(ints(sorted@), target as int) && 0 < target {
                    let sel = choose|sel: Seq<bool>| sel.len() == ints(sorted@).len() && #[trigger] sel_sum(
                        ints(sorted@),
                        sel,
                    ) == target;
                    crate::spec::lemma_sel_small_elem(ints(sorted@), sel);
                    let x = choose|x: int| 0 <= x < sel.len() && #[trigger] ints(sorted@)[x] <= sel_sum(ints(sorted@), sel);
                    if x > 0 {
                        assert(sorted@[0] <= sorted@[x]);
                    }
                }
            }
            return (None, false);
        }
        let q = n / 4;
        let rem = n - 3 * q;
        let big_threshold = target / 4;
        let mut big_count: usize = 0;
        let mut j: usize = 0;
        while j < n
            invariant
                j <= n,
                n == nums@.len(),
                big_count <= j,
                big_count == count_above(ints(nums@).take(j as int), big_threshold as int),
            decreases n - j,
        {
            proof {
                assert(ints(nums@).take(j + 1).drop_last() =~= ints(nums@).take(j as int));
            }
            if nums[j] > big_threshold {
                big_count = big_count + 1;
            }
            j = j + 1;
        }
        proof {
            assert(ints(nums@).take(n as int) =~= ints(nums@));
        }
        let over = if big_count > q + rem {
            big_count - (q + rem)
        } else {
            0
        };
        let cap = if q >= 2 {
            q - 2
        } else {
            0
        };
        let extra_q4 = if over < 6 {
            over
        } else {
            6
        };
        let extra_q4 = if extra_q4 < cap {
            extra_q4
        } else {
            cap
        };
        let qa_sz = q - extra_q4 / 3;
        let qb_sz = q - extra_q4 / 3;
        let qc_sz = q - extra_q4 / 3;
        let s = sorted.as_slice();
        proof {
            lemma_part_sum(sorted@, 0, qa_sz as int);
            lemma_part_sum(sorted@, qa_sz as int, (qa_sz + qb_sz) as int);
            lemma_part_sum(sorted@, (qa_sz + qb_sz) as int, (qa_sz + qb_sz + qc_sz) as int);
            lemma_part_sum(sorted@, (qa_sz + qb_sz + qc_sz) as int, n as int);
        }
        let qa = &s[0..qa_sz];
        let qb = &s[qa_sz..qa_sz + qb_sz];
        let qc = &s[qa_sz + qb_sz..qa_sz + qb_sz + qc_sz];
        let qd = &s[qa_sz + qb_sz + qc_sz..n];
        proof {
            assert(ints(qa@) + ints(qb@) + ints(qc@) + ints(qd@) =~= ints(sorted@));
        }
        let (found, cut) = Self::mono_heap_walk(sh, target, qa, qb, qc, qd);
        proof {
            if !cut && found is None && 0 < target && groups_fit(ints(nums@), target as int) && solvable(
                ints(sorted@),
                target as int,
            ) {
                assert(qa_sz as int == first_group_size(n as int, big_count as int));
                assert(qa@ == sorted@.subrange(0, qa_sz as int));
                assert(qb@ == sorted@.subrange(qa_sz as int, (qa_sz + qb_sz) as int));
                assert(qc@ == sorted@.subrange((qa_sz + qb_sz) as int, (qa_sz + qb_sz + qc_sz) as int));
                assert(qd@ == sorted@.subrange((qa_sz + qb_sz + qc_sz) as int, n as int));
                lemma_groups_meet(
                    sorted@,
                    qa_sz as int,
                    (qa_sz + qb_sz) as int,
                    (qa_sz + qb_sz + qc_sz) as int,
                    target as int,
                );
            }
        }
        match found {
            Some(sol) => {
                proof {
                    lemma_ints_perm(sorted@, nums@);
                    lemma_sub_multiset_perm(big_values(sol@), ints(sorted@), ints(nums@));
                }
                (Some(sol), false)
            },
            None => (None, cut),
        }
    }

    /// The heap walk over four groups; the answer is each group's selection,
    /// in position order, the groups in order. The second result tells
    /// whether the stop flag cut the walk short; when it did not and the
    /// groups have at most 15 elements each, the walk finds an answer
    /// whenever four listed subset sums, one per group, add up to `target`.
    fn mono_heap_walk(
        sh: &Shared,
        target: u128,
        qa: &[u128],
        qb: &[u128],
        qc: &[u128],
        qd: &[u128],
    ) -> (r: (Option<Vec<BigNum>>, bool))
        requires
            sum_of(ints(qa@)) <= u128::MAX,
            sum_of(ints(qb@)) <= u128::MAX,
            sum_of(ints(qc@)) <= u128::MAX,
            sum_of(ints(qd@)) <= u128::MAX,
            target < 0x4000_0000_0000_0000_0000_0000_0000_0000,
        ensures
            r.0 matches Some(sol) ==> is_sub_multiset(
                big_values(sol@),
                ints(qa@) + ints(qb@) + ints(qc@) + ints(qd@),
            ) && sum_of(big_values(sol@)) == target,
            r.1 ==> r.0 is None,
            !r.1 && r.0 is None && qa@.len() <= 15 && qb@.len() <= 15 && qc@.len() <= 15 && qd@.len() <= 15
                ==> !four_sums_meet(
                group_sums(ints(qa@), target as int),
                group_sums(ints(qb@), target as int),
                group_sums(ints(qc@), target as int),
                group_sums(ints(qd@), target as int),
                target as int,
            ),
    {
        let a = build_sums_u128(qa, target);
        let b = build_sums_u128(qb, target);
        let c = build_sums_u128(qc, target);
        let d = build_sums_u128(qd, target);
        let ghost av = wide(a@);
        let ghost bv = wide(b@);
        let ghost cv = wide(c@);
        let ghost dv = wide(d@);
        let ghost t = target as int;
        proof {
            if qa@.len() <= 15 && qb@.len() <= 15 && qc@.len() <= 15 && qd@.len() <= 15 {
                lemma_meet_lists(a@, b@, c@, d@, ints(qa@), ints(qb@), ints(qc@), ints(qd@), target as int);
            }
        }
        if a.len() == 0 || b.len() == 0 || c.len() == 0 || d.len() == 0 {
            return (None, false);
        }
        if sh.stopped() {
            return (None, true);
        }
        let qa_sz = qa.len();
        let qb_sz = qb.len();
        let qc_sz = qc.len();
        if qa_sz + qb_sz + qc_sz >= 64 {
            return (None, false);
        }
        let a_len = a.len();
        let ghost wl = forward_work(a_len as int);
        let ghost wr = backward_work();
        let mut min_heap = MinHeap::by_triples(b.len());
        for j in 0..b.len()
            invariant
                b@.len() <= u32::MAX,
                a_len == a@.len(),
                a_len > 0,
                all_ok(a@, ints(qa@), target as int),
                all_ok(b@, ints(qb@), target as int),
                sorted_by_sum(a@),
                av == wide(a@),
                bv == wide(b@),
                cv == wide(c@),
                dv == wide(d@),
                t == target,
                min_heap.by_tuple(),
                target < 0x4000_0000_0000_0000_0000_0000_0000_0000,
                forall|e: Entry| #[trigger] min_heap.items().contains(e) ==> e.1 < a_len && e.2 < b@.len()
                    && e.0 == a@[e.1 as int].0 + b@[e.2 as int].0,
                forall|i: int, jj: int, k: int, l: int|
                    jj < j && #[trigger] meets(av, bv, cv, dv, 0, t, 0, t, t, i, jj, k, l) ==> min_covers(
                        min_heap.items(),
                        i,
                        jj,
                    ),
        {
            let s = a[0].0.wrapping_add(b[j].0);
            let ghost before = min_heap.items();
            if s <= target {
                let v = (s, 0u32, j as u32);
                min_heap.push(v);
                proof {
                    assert forall|e: Entry| #[trigger] min_heap.items().contains(e) implies e.1 < a_len && e.2
                        < b@.len() && e.0 == a@[e.1 as int].0 + b@[e.2 as int].0 by {
                        if e != v {
                            assert(before.contains(e));
                        }
                    }
                }
            }
            proof {
                assert forall|i: int, jj: int, k: int, l: int|
                    jj < j + 1 && #[trigger] meets(av, bv, cv, dv, 0, t, 0, t, t, i, jj, k, l) implies min_covers(
                    min_heap.items(),
                    i,
                    jj,
                ) by {
                    if jj < j {
                        let e = choose|e: Entry| #[trigger] before.contains(e) && e.2 == jj && e.1 <= i;
                        assert(min_heap.items().contains(e));
                    } else {
                        crate::knapsack::lemma_ascending_u128(a@, 0, i);
                        assert(av[i].0 == a@[i].0 && bv[jj].0 == b@[jj].0);
                        let e = (s, 0u32, j as u32);
                        assert(min_heap.items().contains(e));
                    }
                }
            }
        }
        let last_c = c.len() - 1;
        let mut max_heap = MaxHeap::by_triples(d.len());
        for j in 0..d.len()
            invariant
                d@.len() <= u32::MAX,
                last_c + 1 == c@.len(),
                c@.len() <= u32::MAX,
                all_ok(c@, ints(qc@), target as int),
                all_ok(d@, ints(qd@), target as int),
                sorted_by_sum(c@),
                cv == wide(c@),
                max_heap.by_tuple(),
                target < 0x4000_0000_0000_0000_0000_0000_0000_0000,
                forall|e: Entry| #[trigger] max_heap.items().contains(e) ==> e.1 < c@.len() && e.2 < d@.len()
                    && e.0 == c@[e.1 as int].0 + d@[e.2 as int].0,
                forall|i: int, jj: int, k: int, l: int|
                    l < j && #[trigger] meets(av, bv, cv, dv, 0, t, 0, t, t, i, jj, k, l) ==> max_covers(
                        max_heap.items(),
                        cv,
                        k,
                        l,
                    ),
        {
            let s = c[last_c].0.wrapping_add(d[j].0);
            let ghost before = max_heap.items();
            let v = (s, last_c as u32, j as u32);
            max_heap.push(v);
            proof {
                assert forall|e: Entry| #[trigger] max_heap.items().contains(e) implies e.1 < c@.len() && e.2
                    < d@.len() && e.0 == c@[e.1 as int].0 + d@[e.2 as int].0 by {
                    if e != v {
                        assert(before.contains(e));
                    }
                }
                assert forall|i: int, jj: int, k: int, l: int|
                    l < j + 1 && #[trigger] meets(av, bv, cv, dv, 0, t, 0, t, t, i, jj, k, l) implies max_covers(
                    max_heap.items(),
                    cv,
                    k,
                    l,
                ) by {
                    if l < j {
                        let e = choose|e: Entry| #[trigger] before.contains(e) && e.2 == l && e.1 < cv.len()
                            && cv[e.1 as int].0 >= cv[k].0;
                        assert(max_heap.items().contains(e));
                    } else {
                        crate::knapsack::lemma_ascending_u128(c@, k, last_c as int);
                        assert(cv[k].0 == c@[k].0 && cv[last_c as int].0 == c@[last_c as int].0);
                        assert(max_heap.items().contains(v));
                    }
                }
            }
        }
        let mut ops: u64 = 0;
        loop
            invariant
                a_len == a@.len(),
                a_len <= u32::MAX,
                wl == forward_work(a_len as int),
                wr == backward_work(),
                qa_sz + qb_sz + qc_sz < 64,
                all_ok(a@, ints(qa@), target as int),
                all_ok(b@, ints(qb@), target as int),
                all_ok(c@, ints(qc@), target as int),
                all_ok(d@, ints(qd@), target as int),
                sorted_by_sum(a@),
                sorted_by_sum(c@),
                av == wide(a@),
                bv == wide(b@),
                cv == wide(c@),
                dv == wide(d@),
                t == target,
                min_heap.by_tuple(),
                max_heap.by_tuple(),
                target < 0x4000_0000_0000_0000_0000_0000_0000_0000,
                forall|e: Entry| #[trigger] min_heap.items().contains(e) ==> e.1 < a_len && e.2 < b@.len()
                    && e.0 == a@[e.1 as int].0 + b@[e.2 as int].0,
                forall|e: Entry| #[trigger] max_heap.items().contains(e) ==> e.1 < c@.len() && e.2 < d@.len()
                    && e.0 == c@[e.1 as int].0 + d@[e.2 as int].0,
                forall|i: int, j: int, k: int, l: int|
                    #[trigger] meets(av, bv, cv, dv, 0, t, 0, t, t, i, j, k, l) ==> min_covers(min_heap.items(), i, j)
                        && max_covers(max_heap.items(), cv, k, l),
            ensures
                forall|i: int, j: int, k: int, l: int| !#[trigger] meets(av, bv, cv, dv, 0, t, 0, t, t, i, j, k, l),
            decreases min_heap.weight(wl) + max_heap.weight(wr),
        {
            ops = ops.wrapping_add(1);
            if ops & 0x1FF == 0 && sh.stopped() {
                return (None, true);
            }
            let (ab, ai, bi) = match min_heap.peek() {
                Some(t) => t,
                None => {
                    proof {
                        assert forall|i: int, j: int, k: int, l: int| !#[trigger] meets(av, bv, cv, dv, 0, t, 0, t, t, i, j, k, l) by {
                            if meets(av, bv, cv, dv, 0, t, 0, t, t, i, j, k, l) {
                                let e = choose|e: Entry| #[trigger] min_heap.items().contains(e) && e.2 == j && e.1 <= i;
                                assert(min_heap.items().count(e) > 0);
                            }
                        }
                    }
                    break;
                },
            };
            let (cd, ci, di) = match max_heap.peek() {
                Some(t) => t,
                None => {
                    proof {
                        assert forall|i: int, j: int, k: int, l: int| !#[trigger] meets(av, bv, cv, dv, 0, t, 0, t, t, i, j, k, l) by {
                            if meets(av, bv, cv, dv, 0, t, 0, t, t, i, j, k, l) {
                                let e = choose|e: Entry| #[trigger] max_heap.items().contains(e) && e.2 == l && e.1
                                    < cv.len() && cv[e.1 as int].0 >= cv[k].0;
                                assert(max_heap.items().count(e) > 0);
                            }
                        }
                    }
                    break;
                },
            };
            let ghost top_ab = (ab, ai, bi);
            let ghost top_cd = (cd, ci, di);
            let ghost min_before = min_heap.items();
            let ghost max_before = max_heap.items();
            let ghost w0 = min_heap.weight(wl);
            let ghost w1 = max_heap.weight(wr);
            let sum = ab.checked_add(cd);
            if sum.is_some() && ab + cd == target {
                let ghost ia = ai as int;
                let ghost ib = bi as int;
                let ghost ic = ci as int;
                let ghost id = di as int;
                proof {
                    assert(pair_ok(a@[ia], ints(qa@)));
                    assert(pair_ok(b@[ib], ints(qb@)));
                    assert(pair_ok(c@[ic], ints(qc@)));
                    assert(pair_ok(d@[id], ints(qd@)));
                }
                let sol = report_groups(
                    qa,
                    qb,
                    qc,
                    qd,
                    a[ai as usize].1,
                    b[bi as usize].1,
                    c[ci as usize].1,
                    d[di as usize].1,
                );
                proof {
                    let p0 = picked(ints(qa@), a@[ia].1, qa@.len() as int);
                    let p1 = picked(ints(qb@), b@[ib].1, qb@.len() as int);
                    let p2 = picked(ints(qc@), c@[ic].1, qc@.len() as int);
                    let p3 = picked(ints(qd@), d@[id].1, qd@.len() as int);
                    lemma_sum_of_concat(p0, p1);
                    lemma_sum_of_concat(p0 + p1, p2);
                    lemma_sum_of_concat(p0 + p1 + p2, p3);
                }
                return (Some(sol), false);
            } else if sum.is_some() && ab + cd < target {
                min_heap.pop();
                proof {
                    assert(min_heap.weight(wl) + wl(top_ab) == w0);
                }
                let ghost after_pop = min_heap.items();
                let nai = ai as usize + 1;
                let mut pushed = false;
                if nai < a.len() {
                    assert((nai as u32) == ai + 1);
                    let ns = a[nai].0.wrapping_add(b[bi as usize].0);
                    if ns <= target {
                        let ghost w2 = min_heap.weight(wl);
                        min_heap.push((ns, nai as u32, bi));
                        pushed = true;
                        proof {
                            assert(min_heap.weight(wl) == w2 + wl((ns, nai as u32, bi)));
                        }
                    }
                }
                proof {
                    assert forall|e: Entry| #[trigger] min_heap.items().contains(e) implies e.1 < a_len && e.2 < b@.len()
                        && e.0 == a@[e.1 as int].0 + b@[e.2 as int].0 by {
                        if !min_before.contains(e) {
                            assert(e.2 == bi && e.1 == ai + 1);
                        }
                    }
                    assert forall|i: int, j: int, k: int, l: int|
                        #[trigger] meets(av, bv, cv, dv, 0, t, 0, t, t, i, j, k, l) implies min_covers(
                        min_heap.items(),
                        i,
                        j,
                    ) && max_covers(max_heap.items(), cv, k, l) by {
                        assert(av[i].0 == a@[i].0 && bv[j].0 == b@[j].0 && cv[k].0 == c@[k].0 && dv[l].0 == d@[l].0);
                        let e = choose|e: Entry| #[trigger] min_before.contains(e) && e.2 == j && e.1 <= i;
                        if e == top_ab {
                            let f = choose|f: Entry| #[trigger] max_before.contains(f) && f.2 == l && f.1 < cv.len()
                                && cv[f.1 as int].0 >= cv[k].0;
                            assert(crate::heap::no_later(f, top_cd, true));
                            assert(cv[f.1 as int].0 == c@[f.1 as int].0);
                            if i <= ai {
                                crate::knapsack::lemma_ascending_u128(a@, i, ai as int);
                            }
                            assert(i > ai);
                            crate::knapsack::lemma_ascending_u128(a@, ai + 1, i);
                            assert(pushed);
                            let g = ((a@[ai + 1].0 + b@[j].0) as u128, (ai + 1) as u32, bi);
                            assert(min_heap.items().contains(g));
                        } else {
                            assert(after_pop.contains(e));
                            assert(min_heap.items().contains(e));
                        }
                    }
                }
            } else {
                max_heap.pop();
                proof {
                    assert(max_heap.weight(wr) + wr(top_cd) == w1);
                }
                let ghost after_pop = max_heap.items();
                let mut pushed = false;
                if ci > 0 {
                    let ns = c[ci as usize - 1].0.wrapping_add(d[di as usize].0);
                    let ghost w2 = max_heap.weight(wr);
                    max_heap.push((ns, ci - 1, di));
                    pushed = true;
                    proof {
                        assert(max_heap.weight(wr) == w2 + wr((ns, (ci - 1) as u32, di)));
                    }
                }
                proof {
                    assert forall|e: Entry| #[trigger] max_heap.items().contains(e) implies e.1 < c@.len() && e.2
                        < d@.len() && e.0 == c@[e.1 as int].0 + d@[e.2 as int].0 by {
                        if !max_before.contains(e) {
                            assert(e.2 == di && e.1 + 1 == ci);
                        }
                    }
                    assert forall|i: int, j: int, k: int, l: int|
                        #[trigger] meets(av, bv, cv, dv, 0, t, 0, t, t, i, j, k, l) implies min_covers(
                        min_heap.items(),
                        i,
                        j,
                    ) && max_covers(max_heap.items(), cv, k, l) by {
                        assert(av[i].0 == a@[i].0 && bv[j].0 == b@[j].0 && cv[k].0 == c@[k].0 && dv[l].0 == d@[l].0);
                        let f = choose|f: Entry| #[trigger] max_before.contains(f) && f.2 == l && f.1 < cv.len()
                            && cv[f.1 as int].0 >= cv[k].0;
                        if f == top_cd {
                            let e = choose|e: Entry| #[trigger] min_before.contains(e) && e.2 == j && e.1 <= i;
                            assert(crate::heap::no_later(top_ab, e, true));
                            crate::knapsack::lemma_ascending_u128(a@, e.1 as int, i);
                            if k >= ci {
                                crate::knapsack::lemma_ascending_u128(c@, ci as int, k);
                            }
                            assert(k < ci);
                            crate::knapsack::lemma_ascending_u128(c@, k, ci - 1);
                            assert(pushed);
                            let g = ((c@[ci - 1].0 + d@[l].0) as u128, (ci - 1) as u32, di);
                            assert(max_heap.items().contains(g));
                            assert(cv[ci - 1].0 == c@[ci - 1].0);
                        } else {
                            assert(after_pop.contains(f));
                            assert(max_heap.items().contains(f));
                        }
                    }
                }
            }
        }
        (None, false)
    }

    /// Search for an answer among 10 to 70 elements that fit 128 bits.
    pub fn solve(sh: &Shared) -> (v: Verdict)
        ensures
            verdict_ok(v, sh.profile.values(), sh.profile.target_value()),
            sh.profile.values().len() < 10 || sh.profile.values().len() > 70 || !sh.profile.safe() ==> v is Unknown,
            !(v is Impossible),
            10 <= sh.profile.values().len() <= 70 && sh.profile.safe() && sh.profile.values().contains(
                sh.profile.target_value(),
            ) ==> v is Found,
    {
        Self::decide(sh).0
    }

    /// The search behind `solve`, with whether the stop flag cut it short.
    /// Unless it was cut short, an instance of 10 to 70 elements with a
    /// positive target, whose four groups have at most 15 elements each, gets
    /// an answer exactly when one exists.
    pub fn decide(sh: &Shared) -> (r: (Verdict, bool))
        ensures
            verdict_ok(r.0, sh.profile.values(), sh.profile.target_value()),
            sh.profile.values().len() < 10 || sh.profile.values().len() > 70 || !sh.profile.safe() ==> r.0 is Unknown,
            !(r.0 is Impossible),
            10 <= sh.profile.values().len() <= 70 && sh.profile.safe() && sh.profile.values().contains(
                sh.profile.target_value(),
            ) ==> r.0 is Found,
            r.1 ==> r.0 is Unknown,
            !r.1 && 10 <= sh.profile.values().len() <= 70 && sh.profile.safe() && 0 < sh.profile.target_value()
                && groups_fit(sh.profile.values(), sh.profile.target_value()) && solvable(
                sh.profile.values(),
                sh.profile.target_value(),
            ) ==> r.0 is Found,
    {
        let p = &sh.profile;
        let n = p.n();
        if n < 10 || n > 70 || !p.u128_safe() {
            return (Verdict::Unknown, false);
        }
        let target = p.target_u128();
        let nums = p.numbers_u128();
        proof {
            if p.values().contains(p.target_value()) {
                let i = choose|i: int| 0 <= i < p.values().len() && p.values()[i] == p.target_value();
                assert(ints(nums@)[i] == nums@[i] as int);
                assert(nums@[i] == target);
            }
        }
        let (found, cut) = Self::run_4way(sh, nums.as_slice(), target, n);
        match found {
            Some(sol) => (checked(sol, p), false),
            None => (Verdict::Unknown, cut),
        }
    }
}

impl Engine for GroupDecomposeEngine {
    fn name(&self) -> (r: &'static str)
        ensures
            r == crate::scheduler::EngineId::GroupDecompose.label(),
    {
        "GroupDecompose"
    }

    fn run(&self, sh: &Shared) {
        let v = Self::solve(sh);
        sh.apply(v, "GroupDecompose");
    }
}

/// `r` is the sum of an entry of `a` and an entry of `b`, with the mask of
/// the `b` entry shifted up by `shift`.
pub open spec fn pair_sum_of(r: (u128, u64), a: Seq<(u128, u64)>, b: Seq<(u128, u64)>, shift: u64) -> bool {
    exists|i: int, j: int|
        0 <= i < a.len() && 0 <= j < b.len() && r.0 == a[i].0 + b[j].0 && r.1 == (a[i].1 | (b[j].1 << shift))
}

/// The sums of `s` strictly increase.
pub open spec fn strictly_increasing(s: Seq<(u128, u64)>) -> bool {
    forall|i: int, j: int| 0 <= i < j < s.len() ==> #[trigger] s[i].0 < #[trigger] s[j].0
}

/// Entry `i` of `a` and entry `j` of `b` sum to at most `target`.
pub open spec fn pair_fits(a: Seq<(u128, u64)>, b: Seq<(u128, u64)>, i: int, j: int, target: int) -> bool {
    0 <= i < a.len() && 0 <= j < b.len() && a[i].0 + b[j].0 <= target
}

/// `r` is entry `id.0` of `a` and entry `id.1` of `b` joined: their sums
/// added, their masks put side by side.
pub open spec fn pair_at(r: (u128, u64), id: (int, int), a: Seq<(u128, u64)>, b: Seq<(u128, u64)>, shift: u64) -> bool {
    &&& 0 <= id.0 < a.len()
    &&& 0 <= id.1 < b.len()
    &&& r.0 == a[id.0].0 + b[id.1].0
    &&& r.1 == (a[id.0].1 | (b[id.1].1 << shift))
}

/// `out` joins the distinct position pairs `ids`, entry by entry; every
/// pair whose sum fits `target` is among them, unless `out` holds `cap`
/// entries none above that pair's sum.
pub open spec fn smallest_pairs(
    out: Seq<(u128, u64)>,
    ids: Seq<(int, int)>,
    a: Seq<(u128, u64)>,
    b: Seq<(u128, u64)>,
    shift: u64,
    target: int,
    cap: int,
) -> bool {
    &&& ids.len() == out.len()
    &&& ids.no_duplicates()
    &&& forall|k: int| 0 <= k < ids.len() ==> #[trigger] pair_at(out[k], ids[k], a, b, shift)
    &&& forall|i: int, j: int|
        #[trigger] pair_fits(a, b, i, j, target) ==> ids.contains((i, j)) || (out.len() == cap && (cap == 0
            || out.last().0 <= a[i].0 + b[j].0))
}

/// Every sum of an entry of `a` and an entry of `b` fits 128 bits.
pub open spec fn pair_sums_fit(a: Seq<(u128, u64)>, b: Seq<(u128, u64)>) -> bool {
    forall|i: int, j: int| 0 <= i < a.len() && 0 <= j < b.len() ==> #[trigger] a[i].0 + #[trigger] b[j].0 <= u128::MAX
}

/// The smallest sums of an entry of `a` and an entry of `b` (at most `cap`
/// of them, none above `target`), in ascending order, produced on demand by
/// a min-heap.
fn merge_pair_heap(
    a: &[(u128, u64)],
    b: &[(u128, u64)],
    target: u128,
    a_shift: usize,
    b_len: usize,
    cap: usize,
) -> (out: Vec<(u128, u64)>)
    requires
        sorted_by_sum(a@),
        pair_sums_fit(a@, b@),
        a@.len() <= u32::MAX,
        b@.len() <= u32::MAX,
        b_len < 64,
    ensures
        out@.len() <= cap,
        sorted_by_sum(out@),
        sums_at_most(out@, target as int),
        exists|ids: Seq<(int, int)>| #[trigger] smallest_pairs(out@, ids, a@, b@, b_len as u64, target as int, cap as int),
{
    if a.len() == 0 || b.len() == 0 {
        proof {
            assert(smallest_pairs(Seq::empty(), Seq::empty(), a@, b@, b_len as u64, target as int, cap as int));
        }
        return Vec::new();
    }
    let a_len = a.len();
    let ghost wl = forward_work(a_len as int);
    let mut min_heap = MinHeap::by_triples(b.len());
    for j in 0..b.len()
        invariant
            a_len == a@.len(),
            a_len > 0,
            b@.len() <= u32::MAX,
            pair_sums_fit(a@, b@),
            forall|e: Entry| #[trigger] min_heap.items().contains(e) ==> e.1 < a_len && e.2 < b@.len() && e.0
                == a@[e.1 as int].0 + b@[e.2 as int].0 && e.0 <= target,
            forall|e: Entry| #[trigger] min_heap.items().contains(e) ==> e.1 == 0 && e.2 < j && min_heap.items().count(e) == 1,
            min_heap.by_tuple(),
            sorted_by_sum(a@),
            forall|i: int, jj: int|
                jj < j && #[trigger] pair_fits(a@, b@, i, jj, target as int) ==> min_covers(
                    min_heap.items(),
                    i,
                    jj,
                ),
    {
        let ghost before0 = min_heap.items();
        let s = a[0].0.wrapping_add(b[j].0);
        proof {
            assert(s == a@[0].0 + b@[j as int].0);
        }
        if s <= target {
            let ghost before = min_heap.items();
            let v = (s, 0u32, j as u32);
            min_heap.push(v);
            proof {
                if before.count(v) > 0 {
                    assert(before.contains(v));
                }
                assert forall|e: Entry| #[trigger] min_heap.items().contains(e) implies e.1 < a_len && e.2 < b@.len()
                    && e.0 == a@[e.1 as int].0 + b@[e.2 as int].0 && e.0 <= target by {
                    if e != v {
                        assert(before.contains(e));
                    }
                }
                assert forall|e: Entry| #[trigger] min_heap.items().contains(e) implies e.1 == 0 && e.2 < j + 1
                    && min_heap.items().count(e) == 1 by {
                    if e != v {
                        assert(before.contains(e));
                    }
                }
            }
        }
        proof {
            assert forall|i: int, jj: int|
                jj < j + 1 && #[trigger] pair_fits(a@, b@, i, jj, target as int) implies min_covers(
                min_heap.items(),
                i,
                jj,
            ) by {
                if jj < j {
                    let e = choose|e: Entry| #[trigger] before0.contains(e) && e.2 == jj && e.1 <= i;
                    assert(min_heap.items().contains(e));
                } else {
                    assert(a@[0].0 <= a@[i].0);
                    let e = (s, 0u32, j as u32);
                    assert(min_heap.items().contains(e));
                }
            }
        }
    }
    let mut out: Vec<(u128, u64)> = Vec::new();
    let ghost mut ids: Seq<(int, int)> = Seq::empty();
    let ghost mut next: Seq<int> = Seq::new(b@.len(), |j: int| 0int);
    loop
        invariant_except_break
            forall|i: int, j: int|
                #[trigger] pair_fits(a@, b@, i, j, target as int) ==> ids.contains((i, j)) || min_covers(
                    min_heap.items(),
                    i,
                    j,
                ),
        invariant
            ids.len() == out@.len(),
            ids.no_duplicates(),
            forall|k: int| 0 <= k < ids.len() ==> #[trigger] pair_at(out@[k], ids[k], a@, b@, b_len as u64),
            next.len() == b@.len(),
            forall|p: (int, int)| #[trigger] ids.contains(p) <==> 0 <= p.1 < b@.len() && 0 <= p.0 < next[p.1],
            forall|e: Entry| #[trigger] min_heap.items().contains(e) ==> e.1 == next[e.2 as int] && min_heap.items().count(
                e,
            ) == 1,
            a_len == a@.len(),
            a_len <= u32::MAX,
            wl == forward_work(a_len as int),
            b_len < 64,
            sorted_by_sum(a@),
            pair_sums_fit(a@, b@),
            forall|e: Entry| #[trigger] min_heap.items().contains(e) ==> e.1 < a_len && e.2 < b@.len() && e.0
                == a@[e.1 as int].0 + b@[e.2 as int].0 && e.0 <= target,
            forall|e: Entry| #[trigger] min_heap.items().contains(e) && out@.len() > 0 ==> out@.last().0 <= e.0,
            out@.len() <= cap,
            sorted_by_sum(out@),
            sums_at_most(out@, target as int),
            min_heap.by_tuple(),
        ensures
            out@.len() <= cap,
            sorted_by_sum(out@),
            sums_at_most(out@, target as int),
            smallest_pairs(out@, ids, a@, b@, b_len as u64, target as int, cap as int),
        decreases min_heap.weight(wl),
    {
        let ghost before = min_heap.items();
        let ghost w0 = min_heap.weight(wl);
        let (ab, ai, bi) = match min_heap.pop() {
            Some(t) => t,
            None => {
                proof {
                    assert forall|i: int, j: int|
                    #[trigger] pair_fits(a@, b@, i, j, target as int) implies ids.contains((i, j)) by {
                        if !ids.contains((i, j)) {
                            let e = choose|e: Entry| #[trigger] before.contains(e) && e.2 == j && e.1 <= i;
                            assert(before.count(e) > 0);
                        }
                    }
                }
                break;
            },
        };
        proof {
            assert(min_heap.weight(wl) + wl((ab, ai, bi)) == w0);
            assert(before.contains((ab, ai, bi)));
            assert forall|e: Entry| #[trigger] min_heap.items().contains(e) implies before.contains(e) && ab <= e.0 by {
                assert(before.contains(e));
                assert(crate::heap::no_later((ab, ai, bi), e, true));
            }
        }
        if out.len() >= cap {
            proof {
                assert forall|i: int, j: int|
                    #[trigger] pair_fits(a@, b@, i, j, target as int) && !ids.contains((i, j)) implies out@.len() == cap
                        && (cap == 0 || out@.last().0 <= a@[i].0 + b@[j].0) by {
                    let e = choose|e: Entry| #[trigger] before.contains(e) && e.2 == j && e.1 <= i;
                    assert(a@[e.1 as int].0 <= a@[i].0);
                }
            }
            break;
        }
        let mask = a[ai as usize].1 | (b[bi as usize].1 << (b_len as u64));
        let ghost old_out = out@;
        let ghost after_pop = min_heap.items();
        out.push((ab, mask));
        let ghost old_ids = ids;
        let ghost old_next = next;
        proof {
            assert(ai as int == next[bi as int]);
            assert(!ids.contains((ai as int, bi as int)));
            ids = ids.push((ai as int, bi as int));
            next = next.update(bi as int, ai + 1);
            assert(out@[old_out.len() as int].0 == ab);
            assert forall|k: int| 0 <= k < ids.len() implies #[trigger] pair_at(out@[k], ids[k], a@, b@, b_len as u64) by {
                if k < old_out.len() {
                    assert(out@[k] == old_out[k]);
                    assert(ids[k] == old_ids[k]);
                }
            }
            assert forall|p: (int, int)| #[trigger] ids.contains(p) <==> 0 <= p.1 < b@.len() && 0 <= p.0 < next[p.1] by {
                if ids.contains(p) {
                    if p != (ai as int, bi as int) {
                        assert(old_ids.contains(p));
                    }
                }
                if 0 <= p.1 < b@.len() && 0 <= p.0 < next[p.1] && p != (ai as int, bi as int) {
                    assert(old_ids.contains(p));
                    let k = choose|k: int| 0 <= k < old_ids.len() && old_ids[k] == p;
                    assert(ids[k] == p);
                }
                if p == (ai as int, bi as int) {
                    assert(ids[ids.len() - 1] == p);
                }
            }
            assert forall|e: Entry| #[trigger] min_heap.items().contains(e) implies e.1 == next[e.2 as int]
                && min_heap.items().count(e) == 1 by {
                assert(before.contains(e));
                if e.2 == bi {
                    assert(e == (ab, ai, bi));
                    assert(before.count(e) == 1);
                }
            }
        }
        let nai = ai as usize + 1;
        if nai < a.len() {
            let ns = a[nai].0.wrapping_add(b[bi as usize].0);
            if ns <= target {
                let ghost mid = min_heap.items();
                let ghost w2 = min_heap.weight(wl);
                let v = (ns, nai as u32, bi);
                proof {
                    if mid.contains(v) {
                        assert(v.1 == next[bi as int]);
                    }
                }
                min_heap.push(v);
                proof {
                    assert(min_heap.weight(wl) == w2 + wl(v));
                    assert forall|e: Entry| #[trigger] min_heap.items().contains(e) implies e.1 == next[e.2 as int]
                        && min_heap.items().count(e) == 1 by {
                        if e != v {
                            assert(mid.contains(e));
                        }
                    }
                    assert(a@[ai as int].0 <= a@[nai as int].0);
                    assert forall|e: Entry| #[trigger] min_heap.items().contains(e) implies e.1 < a_len && e.2
                        < b@.len() && e.0 == a@[e.1 as int].0 + b@[e.2 as int].0 && e.0 <= target && ab <= e.0 by {
                        if e != v {
                            assert(mid.contains(e));
                        }
                    }
                }
            }
        }
        proof {
            assert forall|i: int, j: int|
                    #[trigger] pair_fits(a@, b@, i, j, target as int) && !ids.contains((i, j)) implies min_covers(
                    min_heap.items(),
                    i,
                    j,
                ) by {
                assert(!old_ids.contains((i, j)));
                let e = choose|e: Entry| #[trigger] before.contains(e) && e.2 == j && e.1 <= i;
                if after_pop.contains(e) {
                    assert(min_heap.items().contains(e));
                } else {
                    assert(e == (ab, ai, bi));
                    if i == ai as int {
                        assert(ids.contains((i, j)));
                    } else {
                        assert(a@[ai + 1].0 <= a@[i].0);
                        let g = ((a@[ai + 1].0 + b@[j].0) as u128, (ai + 1) as u32, bi);
                        assert(min_heap.items().contains(g));
                    }
                }
            }
        }
    }
    proof {
        assert(smallest_pairs(out@, ids, a@, b@, b_len as u64, target as int, cap as int));
    }
    out
}

/// Some entry of `r` has sum `x`.
pub open spec fn has_sum(r: Seq<(u128, u64)>, x: u128) -> bool {
    exists|k: int| 0 <= k < r.len() && r[k].0 == x
}

/// The sums of `v` (sorted by sum) without repeats: the first entry of each
/// run of equal sums.
pub(crate) fn dedup_by_sum(v: Vec<(u128, u64)>) -> (r: Vec<(u128, u64)>)
    requires
        sorted_by_sum(v@),
    ensures
        strictly_increasing(r@),
        forall|k: int| 0 <= k < r@.len() ==> v@.contains(#[trigger] r@[k]),
        forall|i: int| 0 <= i < v@.len() ==> has_sum(r@, #[trigger] v@[i].0),
{
    let mut r: Vec<(u128, u64)> = Vec::new();
    for i in 0..v.len()
        invariant
            sorted_by_sum(v@),
            strictly_increasing(r@),
            forall|k: int| 0 <= k < r@.len() ==> v@.contains(#[trigger] r@[k]),
            forall|j: int| 0 <= j < i ==> has_sum(r@, #[trigger] v@[j].0),
            i > 0 ==> r@.len() > 0 && r@.last().0 == v@[i - 1].0,
            i == 0 ==> r@.len() == 0,
    {
        let x = v[i];
        if r.len() == 0 || r[r.len() - 1].0 != x.0 {
            let ghost old_r = r@;
            r.push(x);
            proof {
                assert(v@[i as int] == x);
                assert forall|k: int| 0 <= k < r@.len() implies v@.contains(#[trigger] r@[k]) by {
                    if k < old_r.len() {
                        assert(r@[k] == old_r[k]);
                    }
                }
                assert forall|p: int, q: int| 0 <= p < q < r@.len() implies #[trigger] r@[p].0 < #[trigger] r@[q].0 by {
                    if q == r@.len() - 1 && i > 0 {
                        assert(old_r.last().0 == v@[i - 1].0);
                        assert(v@[i - 1].0 <= v@[i as int].0);
                        assert(r@[p] == old_r[p]);
                        if p < old_r.len() - 1 {
                            assert(old_r[p].0 < old_r[old_r.len() - 1].0);
                        }
                    } else if q < r@.len() - 1 {
                        assert(r@[p] == old_r[p]);
                        assert(r@[q] == old_r[q]);
                    }
                }
                assert forall|j: int| 0 <= j < i + 1 implies has_sum(r@, #[trigger] v@[j].0) by {
                    if j < i {
                        assert(has_sum(old_r, v@[j].0));
                        let k = choose|k: int| 0 <= k < old_r.len() && old_r[k].0 == v@[j].0;
                        assert(r@[k] == old_r[k]);
                    } else {
                        assert(r@[r@.len() - 1].0 == v@[j].0);
                    }
                }
            }
        } else {
            proof {
                assert forall|j: int| 0 <= j < i + 1 implies has_sum(r@, #[trigger] v@[j].0) by {
                    if j == i {
                        assert(r@[r@.len() - 1].0 == v@[j].0);
                    }
                }
            }
        }
    }
    r
}

/// The scan of `merge_sorted` reaches entry `i` of `a` and entry `j` of
/// `b`: no entry of `a` up to `i` is above `target`, and no sum of `a[i]`
/// with an entry of `b` up to `j` is.
pub open spec fn scanned(a: Seq<(u128, u64)>, b: Seq<(u128, u64)>, i: int, j: int, target: int) -> bool {
    &&& 0 <= i < a.len()
    &&& 0 <= j < b.len()
    &&& forall|x: int| 0 <= x <= i ==> #[trigger] a[x].0 <= target
    &&& forall|y: int| 0 <= y <= j ==> a[i].0 + #[trigger] b[y].0 <= target
}

/// All sums of an entry of `a` and an entry of `b` not above `target`
/// (each sum once), in ascending order; the scan of `a` stops at its first
/// entry above `target`, and the scan of `b` for each `a` entry at the
/// first sum above `target`.
fn merge_sorted(a: &[(u128, u64)], b: &[(u128, u64)], target: u128) -> (out: Vec<(u128, u64)>)
    requires
        sums_at_most(b@, target as int),
        target < 0x4000_0000_0000_0000_0000_0000_0000_0000,
    ensures
        strictly_increasing(out@),
        forall|k: int| 0 <= k < out@.len() ==> pair_sum_of(#[trigger] out@[k], a@, b@, 0) && out@[k].0 <= target,
        forall|i: int, j: int| #[trigger] scanned(a@, b@, i, j, target as int) ==> has_sum(out@, (a@[i].0 + b@[j].0) as u128),
{
    let mut out: Vec<(u128, u64)> = Vec::new();
    let mut i: usize = 0;
    while i < a.len()
        invariant
            i <= a@.len(),
            sums_at_most(b@, target as int),
            target < 0x4000_0000_0000_0000_0000_0000_0000_0000,
            forall|k: int| 0 <= k < out@.len() ==> pair_sum_of(#[trigger] out@[k], a@, b@, 0) && out@[k].0 <= target,
            forall|i2: int, j2: int|
                i2 < i && #[trigger] scanned(a@, b@, i2, j2, target as int) ==> has_sum(
                    out@,
                    (a@[i2].0 + b@[j2].0) as u128,
                ),
            forall|i2: int, j2: int|
                i2 >= i && #[trigger] scanned(a@, b@, i2, j2, target as int) ==> a@[i as int].0 <= target,
        ensures
            forall|k: int| 0 <= k < out@.len() ==> pair_sum_of(#[trigger] out@[k], a@, b@, 0) && out@[k].0 <= target,
            forall|i2: int, j2: int|
                #[trigger] scanned(a@, b@, i2, j2, target as int) ==> has_sum(out@, (a@[i2].0 + b@[j2].0) as u128),
        decreases a@.len() - i,
    {
        let (av, am) = a[i];
        if av > target {
            break;
        }
        let mut j: usize = 0;
        while j < b.len() && av + b[j].0 <= target
            invariant
                i < a@.len(),
                a@[i as int] == (av, am),
                av <= target,
                j <= b@.len(),
                sums_at_most(b@, target as int),
                target < 0x4000_0000_0000_0000_0000_0000_0000_0000,
                forall|k: int| 0 <= k < out@.len() ==> pair_sum_of(#[trigger] out@[k], a@, b@, 0) && out@[k].0
                    <= target,
                forall|i2: int, j2: int|
                    i2 < i && #[trigger] scanned(a@, b@, i2, j2, target as int) ==> has_sum(
                        out@,
                        (a@[i2].0 + b@[j2].0) as u128,
                    ),
                forall|j2: int|
                    0 <= j2 < j && #[trigger] scanned(a@, b@, i as int, j2, target as int) ==> has_sum(
                        out@,
                        (a@[i as int].0 + b@[j2].0) as u128,
                    ),
                forall|j2: int| 0 <= j2 < j ==> a@[i as int].0 + #[trigger] b@[j2].0 <= target,
            decreases b@.len() - j,
        {
            let (bv, bm) = b[j];
            let total = av + bv;
            if total <= target {
                let ghost old_out = out@;
                out.push((total, am | bm));
                proof {
                    assert(bm << 0u64 == bm) by (bit_vector);
                    assert(b@[j as int] == (bv, bm));
                    let last = out@[out@.len() - 1];
                    assert(0 <= i < a@.len() && 0 <= j < b@.len() && last.0 == a@[i as int].0 + b@[j as int].0
                        && last.1 == (a@[i as int].1 | (b@[j as int].1 << 0u64)));
                    assert(pair_sum_of(last, a@, b@, 0));
                    assert forall|k: int| 0 <= k < out@.len() implies pair_sum_of(#[trigger] out@[k], a@, b@, 0)
                        && out@[k].0 <= target by {
                        if k < old_out.len() {
                            assert(out@[k] == old_out[k]);
                        }
                    }
                    assert forall|x: u128| has_sum(old_out, x) implies has_sum(out@, x) by {
                        let k = choose|k: int| 0 <= k < old_out.len() && old_out[k].0 == x;
                        assert(out@[k] == old_out[k]);
                    }
                    assert(out@[old_out.len() as int].0 == total);
                    assert(has_sum(out@, total));
                }
            }
            j = j + 1;
        }
        proof {
            assert forall|j2: int| #[trigger] scanned(a@, b@, i as int, j2, target as int) implies has_sum(
                out@,
                (a@[i as int].0 + b@[j2].0) as u128,
            ) by {
                if j2 >= j {
                    assert(a@[i as int].0 + b@[j as int].0 <= target);
                }
            }
        }
        i = i + 1;
    }
    let sorted = sort_pairs(out);
    proof {
        lemma_sorted_pairs_by_sum(sorted@);
        assert forall|k: int| 0 <= k < sorted@.len() implies pair_sum_of(#[trigger] sorted@[k], a@, b@, 0)
            && sorted@[k].0 <= target by {
            assert(sorted@.to_multiset().count(sorted@[k]) > 0);
            assert(out@.to_multiset().count(sorted@[k]) > 0);
            let j = choose|j: int| 0 <= j < out@.len() && out@[j] == sorted@[k];
        }
    }
    let r = dedup_by_sum(sorted);
    proof {
        assert forall|k: int| 0 <= k < r@.len() implies pair_sum_of(#[trigger] r@[k], a@, b@, 0) && r@[k].0
            <= target by {
            assert(sorted@.contains(r@[k]));
            let j = choose|j: int| 0 <= j < sorted@.len() && sorted@[j] == r@[k];
        }
        assert forall|i2: int, j2: int| #[trigger] scanned(a@, b@, i2, j2, target as int) implies has_sum(
            r@,
            (a@[i2].0 + b@[j2].0) as u128,
        ) by {
            let x = (a@[i2].0 + b@[j2].0) as u128;
            assert(has_sum(out@, x));
            let k = choose|k: int| 0 <= k < out@.len() && out@[k].0 == x;
            assert(out@.to_multiset().count(out@[k]) > 0);
            assert(sorted@.to_multiset().count(out@[k]) > 0);
            let m = choose|m: int| 0 <= m < sorted@.len() && sorted@[m] == out@[k];
            assert(has_sum(r@, sorted@[m].0));
        }
    }
    r
}

/// Position of an entry of `v` (sorted by sum) with sum `key`, by binary search.
fn find_sum(v: &[(u128, u64)], key: u128) -> (r: Option<usize>)
    requires
        sorted_by_sum(v@),
    ensures
        r matches Some(i) ==> i < v@.len() && v@[i as int].0 == key,
        r is None ==> forall|i: int| 0 <= i < v@.len() ==> (#[trigger] v@[i]).0 != key,
{
    let mut lo: usize = 0;
    let mut hi: usize = v.len();
    while lo < hi
        invariant
            lo <= hi <= v@.len(),
            sorted_by_sum(v@),
            forall|i: int| 0 <= i < lo ==> (#[trigger] v@[i]).0 < key,
            forall|i: int| hi <= i < v@.len() ==> (#[trigger] v@[i]).0 > key,
        decreases hi - lo,
    {
        let mid = lo + (hi - lo) / 2;
        let s = v[mid].0;
        if s < key {
            lo = mid + 1;
        } else if s > key {
            hi = mid;
        } else {
            return Some(mid);
        }
    }
    None
}

/// Strictly increasing sums are sorted.
proof fn lemma_strict_sorted(s: Seq<(u128, u64)>)
    requires
        strictly_increasing(s),
    ensures
        sorted_by_sum(s),
{
    assert forall|i: int, j: int| 0 <= i < j < s.len() implies #[trigger] s[i].0 <= #[trigger] s[j].0 by {
        assert(s[i].0 < s[j].0);
    }
}

impl GroupDecomposeEngine {
    /// Six groups of the sorted elements: pairs of groups merged into
    /// capped sorted lists, the last two lists combined, then each A+B sum
    /// looked up among the combined sums.
    fn run_6way(sh: &Shared, nums: &[u128], target: u128, n: usize) -> (r: Option<Vec<BigNum>>)
        requires
            n == nums@.len(),
            n / 6 < 64,
            sum_of(ints(nums@)) < 0x4000_0000_0000_0000_0000_0000_0000_0000,
            target < 0x4000_0000_0000_0000_0000_0000_0000_0000,
        ensures
            r matches Some(sol) ==> is_sub_multiset(big_values(sol@), ints(nums@)),
    {
        let sorted = sort_u128(nums, false);
        proof {
            lemma_ints_perm(sorted@, nums@);
            lemma_sum_perm(ints(sorted@), ints(nums@));
        }
        let gs = n / 6;
        let s = sorted.as_slice();
        proof {
            lemma_part_sum(sorted@, 0, gs as int);
            lemma_part_sum(sorted@, gs as int, 2 * gs as int);
            lemma_part_sum(sorted@, 2 * gs as int, 3 * gs as int);
            lemma_part_sum(sorted@, 3 * gs as int, 4 * gs as int);
            lemma_part_sum(sorted@, 4 * gs as int, 5 * gs as int);
            lemma_part_sum(sorted@, 5 * gs as int, n as int);
        }
        let s0 = build_sums_u128(&s[0..gs], target);
        let s1 = build_sums_u128(&s[gs..2 * gs], target);
        let s2 = build_sums_u128(&s[2 * gs..3 * gs], target);
        let s3 = build_sums_u128(&s[3 * gs..4 * gs], target);
        let s4 = build_sums_u128(&s[4 * gs..5 * gs], target);
        let s5 = build_sums_u128(&s[5 * gs..n], target);
        if s0.len() == 0 || s1.len() == 0 || s2.len() == 0 || s3.len() == 0 || s4.len() == 0 || s5.len() == 0
            || sh.stopped() {
            return None;
        }
        let ab = merge_pair_heap(s0.as_slice(), s1.as_slice(), target, 0, gs, 200_000);
        let cd = merge_pair_heap(s2.as_slice(), s3.as_slice(), target, 2 * gs, gs, 200_000);
        let ef = merge_pair_heap(s4.as_slice(), s5.as_slice(), target, 4 * gs, gs, 200_000);
        if ab.len() == 0 || cd.len() == 0 || ef.len() == 0 || sh.stopped() {
            return None;
        }
        let cdef = merge_sorted(cd.as_slice(), ef.as_slice(), target);
        proof {
            lemma_strict_sorted(cdef@);
        }
        let mut i: usize = 0;
        while i < ab.len()
            invariant
                i <= ab@.len(),
                sorted_by_sum(cdef@),
                sorted@.to_multiset() == nums@.to_multiset(),
            decreases ab@.len() - i,
        {
            let (ab_sum, ab_mask) = ab[i];
            if ab_sum > target {
                break;
            }
            let need = target - ab_sum;
            match find_sum(cdef.as_slice(), need) {
                Some(idx) => {
                    let full_mask = ab_mask | cdef[idx].1;
                    let sol = decode(sorted.as_slice(), full_mask);
                    proof {
                        lemma_ints_perm(sorted@, nums@);
                        lemma_sub_multiset_perm(big_values(sol@), ints(sorted@), ints(nums@));
                    }
                    return Some(sol);
                },
                None => {},
            }
            i = i + 1;
        }
        None
    }
}

} // verus!
