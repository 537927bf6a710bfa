//! Bitset DP engine: exact subset sum over a bitset of reachable sums, for
//! targets below 2^30. It proves impossibility when no subset reaches the
//! target. A second pass with history rebuilds a solution.
use crate::bignum::BigNum;
use crate::bitset::Bitset;
use crate::controller::{verdict_ok, Engine, Shared, Verdict};
use crate::profile::big_values;
use crate::spec::{
    is_sub_multiset, lemma_reach_nonneg, lemma_reach_step, lemma_reach_zero, lemma_sum_of_push, reach, solves, sum_of,
};
use vstd::multiset::Multiset;
use crate::spec::subseq_of;
use vstd::prelude::*;

verus! {

pub struct BitsetDpEngine;

/// `usize` values as integers.
pub open spec fn uvals(s: Seq<usize>) -> Seq<int> {
    s.map_values(|x: usize| x as int)
}

/// `dp` holds exactly the sums up to `target` reachable by the first `k` elements.
pub open spec fn dp_exact(dp: Seq<bool>, vals: Seq<int>, k: int, target: int) -> bool {
    &&& dp.len() == target + 1
    &&& forall|s: int| 0 <= s <= target ==> #[trigger] dp[s] == reach(vals, k, s)
}

/// The DP step: adding element `k` to the sums of the first `k` elements.
proof fn lemma_dp_step(before: Seq<bool>, after: Seq<bool>, vals: Seq<int>, k: int, target: int)
    requires
        0 <= k < vals.len(),
        forall|i: int| 0 <= i < vals.len() ==> vals[i] >= 0,
        dp_exact(before, vals, k, target),
        after.len() == before.len(),
        forall|i: int| 0 <= i < before.len() ==> #[trigger] after[i] == (before[i] || (i >= vals[k] && before[i - vals[k]])),
    ensures
        dp_exact(after, vals, k + 1, target),
{
    assert forall|s: int| 0 <= s <= target implies #[trigger] after[s] == reach(vals, k + 1, s) by {
        lemma_reach_step(vals, k, s);
        if s < vals[k] && reach(vals, k, s - vals[k]) {
            lemma_reach_nonneg(vals, k, s - vals[k]);
        }
    }
}

/// Rebuild the DP over the first `sol_ix + 1` elements, keeping every
/// intermediate bitset, then walk back to a subset summing to `target`.
fn reconstruct_to(nums: &Vec<usize>, sol_ix: usize, target: usize) -> (r: Option<Vec<usize>>)
    requires
        sol_ix < nums@.len(),
        target < usize::MAX - 64,
        reach(uvals(nums@), sol_ix + 1, target as int),
    ensures
        r is Some,
        r matches Some(sol) ==> solves(uvals(sol@), uvals(nums@), target as int),
        r matches Some(sol) ==> subseq_of(uvals(sol@), uvals(nums@).take(sol_ix + 1).reverse()),
{
    let ghost vals = uvals(nums@);
    let mut dp = Bitset::new(target + 1);
    dp.set(0);
    proof {
        assert forall|s: int| 0 <= s <= target implies #[trigger] dp@[s] == reach(vals, 0, s) by {
            lemma_reach_zero(vals, s);
        }
    }
    let mut history: Vec<Bitset> = Vec::new();
    history.push(dp.copy());
    let mut i: usize = 0;
    let n = nums.len();
    while i <= sol_ix
        invariant
            sol_ix < n,
            n == nums@.len(),
            vals == uvals(nums@),
            target < usize::MAX - 64,
            i <= sol_ix + 1,
            dp.wf(),
            dp_exact(dp@, vals, i as int, target as int),
            history@.len() == i + 1,
            forall|j: int| 0 <= j <= i ==> (#[trigger] history@[j]).wf() && dp_exact(
                history@[j]@,
                vals,
                j,
                target as int,
            ),
        decreases sol_ix + 1 - i,
    {
        let ghost before = dp@;
        dp.shift_or_inplace(nums[i]);
        proof {
            lemma_dp_step(before, dp@, vals, i as int, target as int);
        }
        history.push(dp.copy());
        i = i + 1;
    }
    let mut cur = target;
    let mut sol: Vec<usize> = Vec::new();
    let mut i = sol_ix + 1;
    proof {
        assert(vals.subrange(sol_ix + 1, sol_ix + 1) =~= Seq::<int>::empty());
        assert(uvals(sol@) =~= Seq::<int>::empty());
        crate::spec::lemma_empty_sub_multiset(vals.subrange(sol_ix + 1, sol_ix + 1));
        crate::spec::lemma_subseq_empty(vals.subrange(sol_ix + 1, sol_ix + 1).reverse());
    }
    while i > 0 && cur != 0
        invariant
            sol_ix < nums@.len(),
            vals == uvals(nums@),
            i <= sol_ix + 1,
            history@.len() == sol_ix + 2,
            forall|j: int| 0 <= j <= sol_ix + 1 ==> (#[trigger] history@[j]).wf() && dp_exact(
                history@[j]@,
                vals,
                j,
                target as int,
            ),
            cur <= target,
            reach(vals, i as int, cur as int),
            sum_of(uvals(sol@)) + cur == target,
            is_sub_multiset(uvals(sol@), vals.subrange(i as int, sol_ix + 1)),
            subseq_of(uvals(sol@), vals.subrange(i as int, sol_ix + 1).reverse()),
        decreases i,
    {
        let v = nums[i - 1];
        proof {
            lemma_reach_step(vals, i - 1, cur as int);
            assert(vals.subrange(i - 1, sol_ix + 1).reverse() =~= vals.subrange(i as int, sol_ix + 1).reverse().push(
                vals[i - 1],
            ));
            crate::spec::lemma_subseq_push(uvals(sol@), vals.subrange(i as int, sol_ix + 1).reverse(), vals[i - 1]);
        }
        if cur >= v && history[i - 1].get(cur - v) {
            let ghost old_sol = uvals(sol@);
            sol.push(v);
            proof {
                assert(uvals(sol@) =~= old_sol.push(v as int));
                assert(vals[i - 1] == v as int);
                lemma_sum_of_push(old_sol, v as int);
                lemma_take_prev(old_sol, vals, i - 1, sol_ix + 1);
            }
            cur = cur - v;
        } else {
            proof {
                if cur < v && reach(vals, i - 1, cur - v) {
                    lemma_reach_nonneg(vals, i - 1, cur - v);
                }
                lemma_extend_left(uvals(sol@), vals, i - 1, sol_ix + 1);
            }
        }
        i = i - 1;
    }
    proof {
        if cur != 0 {
            lemma_reach_zero(vals, cur as int);
        }
        assert(cur == 0);
        lemma_subrange_in(vals, i as int, sol_ix + 1);
        crate::spec::lemma_sub_multiset_trans(
            uvals(sol@),
            vals.subrange(i as int, sol_ix + 1),
            vals,
        );
        crate::spec::lemma_subseq_rev_lift(uvals(sol@), vals, 0, i as int, sol_ix + 1);
        assert(vals.subrange(0, sol_ix + 1) =~= vals.take(sol_ix + 1));
    }
    Some(sol)
}

/// `vals[lo..hi]` is `vals[lo]` followed by `vals[lo+1..hi]`, as multisets.
pub proof fn lemma_prepend_multiset(vals: Seq<int>, lo: int, hi: int)
    requires
        0 <= lo < hi <= vals.len(),
    ensures
        vals.subrange(lo, hi).to_multiset() == vals.subrange(lo + 1, hi).to_multiset().insert(
            vals[lo],
        ),
{
    broadcast use vstd::multiset::group_multiset_axioms;

    assert(vals.subrange(lo, hi) =~= seq![vals[lo]] + vals.subrange(lo + 1, hi));
    vstd::seq_lib::lemma_multiset_commutative(seq![vals[lo]], vals.subrange(lo + 1, hi));
    assert(seq![vals[lo]].to_multiset() =~= Multiset::<int>::empty().insert(vals[lo])) by {
        broadcast use vstd::seq_lib::group_to_multiset_ensures;

        assert(seq![vals[lo]] =~= Seq::<int>::empty().push(vals[lo]));
    }
}

/// Taking `vals[lo]` on top of a sub-multiset of `vals[lo+1..hi]`.
pub proof fn lemma_take_prev(sol: Seq<int>, vals: Seq<int>, lo: int, hi: int)
    requires
        0 <= lo < hi <= vals.len(),
        is_sub_multiset(sol, vals.subrange(lo + 1, hi)),
    ensures
        is_sub_multiset(sol.push(vals[lo]), vals.subrange(lo, hi)),
{
    broadcast use vstd::multiset::group_multiset_axioms;
    broadcast use vstd::seq_lib::group_to_multiset_ensures;

    lemma_prepend_multiset(vals, lo, hi);
    vstd::seq_lib::to_multiset_build(sol, vals[lo]);
}

/// A contiguous part of a sequence is a sub-multiset of it.
pub proof fn lemma_subrange_in(vals: Seq<int>, lo: int, hi: int)
    requires
        0 <= lo <= hi <= vals.len(),
    ensures
        is_sub_multiset(vals.subrange(lo, hi), vals),
{
    broadcast use vstd::multiset::group_multiset_axioms;

    let a = vals.subrange(0, lo);
    let b = vals.subrange(lo, hi);
    let c = vals.subrange(hi, vals.len() as int);
    assert(vals =~= a + b + c);
    vstd::seq_lib::lemma_multiset_commutative(a + b, c);
    vstd::seq_lib::lemma_multiset_commutative(a, b);
}

/// A sub-multiset of `vals[lo+1..hi]` is one of `vals[lo..hi]`.
proof fn lemma_extend_left(sol: Seq<int>, vals: Seq<int>, lo: int, hi: int)
    requires
        0 <= lo < hi <= vals.len(),
        is_sub_multiset(sol, vals.subrange(lo + 1, hi)),
    ensures
        is_sub_multiset(sol, vals.subrange(lo, hi)),
{
    broadcast use vstd::multiset::group_multiset_axioms;

    lemma_prepend_multiset(vals, lo, hi);
}

impl BitsetDpEngine {
    /// Decide the instance when the target is below 2^30: a solution, or a
    /// proof that none exists, or nothing when stopped or out of range.
    pub fn solve(sh: &Shared) -> (v: Verdict)
        ensures
            verdict_ok(v, sh.profile.values(), sh.profile.target_value()),
            sh.profile.target_value() >= 0x4000_0000 ==> v is Unknown,
            sh.profile.values().len() == 0 && 0 < sh.profile.target_value() < 0x4000_0000 ==> v is Impossible,
    {
        Self::decide(sh).0
    }

    /// The search behind `solve`, with whether the stop flag cut it short.
    /// Unless it was cut short, an instance whose target is below 2^30 and
    /// whose elements fit a machine word is decided: an answer when one
    /// exists, `Impossible` when none does (the one exception: no elements
    /// and target 0, left unknown).
    pub fn decide(sh: &Shared) -> (r: (Verdict, bool))
        ensures
            verdict_ok(r.0, sh.profile.values(), sh.profile.target_value()),
            sh.profile.target_value() >= 0x4000_0000 ==> r.0 is Unknown,
            sh.profile.values().len() == 0 && 0 < sh.profile.target_value() < 0x4000_0000 ==> r.0 is Impossible,
            r.1 ==> r.0 is Unknown,
            !r.1 && sh.profile.target_value() < 0x4000_0000 && (forall|i: int|
                0 <= i < sh.profile.values().len() ==> #[trigger] sh.profile.values()[i] <= usize::MAX) && !(
            sh.profile.values().len() == 0 && sh.profile.target_value() == 0) ==> !(r.0 is Unknown),
            !r.1 && sh.profile.target_value() < 0x4000_0000 && (forall|i: int|
                0 <= i < sh.profile.values().len() ==> #[trigger] sh.profile.values()[i] <= usize::MAX) ==> (r.0 is Impossible
                <==> !crate::spec::solvable(sh.profile.values(), sh.profile.target_value())),
    {
        let p = &sh.profile;
        let nums = p.numbers();
        let tgt = p.target();
        let nbits = tgt.bits();
        if nbits > 30 {
            proof {
                if tgt@ > 0 {
                    vstd::arithmetic::power2::lemma2_to64();
                    if nbits - 1 > 30 {
                        vstd::arithmetic::power2::lemma_pow2_strictly_increases(30, (nbits - 1) as nat);
                    }
                }
            }
            return (Verdict::Unknown, false);
        }
        let target = match tgt.to_usize() {
            Some(t) => t,
            None => return (Verdict::Unknown, false),
        };
        if target >= 0x4000_0000 {
            return (Verdict::Unknown, false);
        }
        let mut elems: Vec<usize> = Vec::new();
        let mut j: usize = 0;
        while j < nums.len()
            invariant
                j <= nums@.len(),
                big_values(nums@) == p.values(),
                sh.profile.values() == p.values(),
                nums@.len() == sh.profile.values().len(),
                uvals(elems@) == p.values().take(j as int),
            decreases nums@.len() - j,
        {
            match nums[j].to_usize() {
                Some(u) => {
                    let ghost old_e = elems@;
                    elems.push(u);
                    proof {
                        assert(uvals(elems@) =~= uvals(old_e).push(u as int));
                        assert(p.values().take(j + 1) =~= p.values().take(j as int).push(
                            p.values()[j as int],
                        ));
                    }
                },
                None => {
                    proof {
                        assert(big_values(nums@)[j as int] == nums@[j as int]@);
                        assert(sh.profile.values()[j as int] > usize::MAX);
                    }
                    return (Verdict::Unknown, false);
                },
            }
            j = j + 1;
        }
        let ghost vals = uvals(elems@);
        proof {
            assert(p.values().take(nums@.len() as int) =~= p.values());
            assert(vals == p.values());
        }
        let mut dp = Bitset::new(target + 1);
        dp.set(0);
        proof {
            assert forall|s: int| 0 <= s <= target implies #[trigger] dp@[s] == reach(vals, 0, s) by {
                lemma_reach_zero(vals, s);
            }
        }
        let mut found: Option<usize> = None;
        let mut i: usize = 0;
        while i < elems.len() && found.is_none()
            invariant
                vals == uvals(elems@),
                elems@.len() == sh.profile.values().len(),
                target < 0x4000_0000,
                i <= elems@.len(),
                dp.wf(),
                dp_exact(dp@, vals, i as int, target as int),
                found matches Some(ix) ==> ix < elems@.len() && ix + 1 == i && reach(
                    vals,
                    ix + 1,
                    target as int,
                ),
                found is None && i > 0 ==> !dp@[target as int],
            decreases elems@.len() - i, (if found is None { 1int } else { 0int }),
        {
            if sh.stopped() {
                return (Verdict::Unknown, true);
            }
            let ghost before = dp@;
            dp.shift_or_inplace(elems[i]);
            proof {
                lemma_dp_step(before, dp@, vals, i as int, target as int);
            }
            if dp.get(target) {
                found = Some(i);
            }
            i = i + 1;
        }
        match found {
            Some(sol_ix) => {
                if sh.stopped() {
                    return (Verdict::Unknown, true);
                }
                match reconstruct_to(&elems, sol_ix, target) {
                    Some(sol) => {
                        let big = to_bignums(&sol);
                        proof {
                            crate::engines::mitm::lemma_reach_extend(vals, sol_ix + 1, vals.len() as int, target as int);
                            crate::spec::lemma_solvable_reach(vals, target as int);
                        }
                        (Verdict::Found(big), false)
                    },
                    None => (Verdict::Unknown, false),
                }
            },
            None => {
                if !dp.get(target) {
                    proof {
                        assert(i == elems@.len());
                        crate::spec::lemma_solvable_reach(vals, target as int);
                    }
                    (Verdict::Impossible, false)
                } else {
                    proof {
                        assert(i == elems@.len());
                        if elems@.len() == 0 {
                            lemma_reach_zero(vals, target as int);
                            crate::spec::lemma_solvable_reach(vals, target as int);
                        }
                    }
                    (Verdict::Unknown, false)
                }
            },
        }
    }
}

/// The same values as big numbers.
pub fn to_bignums(v: &Vec<usize>) -> (r: Vec<BigNum>)
    ensures
        big_values(r@) == uvals(v@),
{
    let mut r: Vec<BigNum> = Vec::new();
    let mut i: usize = 0;
    while i < v.len()
        invariant
            i <= v@.len(),
            big_values(r@) == uvals(v@).take(i as int),
        decreases v@.len() - i,
    {
        let b = BigNum::from_u128(v[i] as u128);
        let ghost old_r = r@;
        r.push(b);
        proof {
            assert(big_values(r@) =~= big_values(old_r).push(v@[i as int] as int));
            assert(uvals(v@).take(i + 1) =~= uvals(v@).take(i as int).push(v@[i as int] as int));
        }
        i = i + 1;
    }
    proof {
        assert(uvals(v@).take(v@.len() as int) =~= uvals(v@));
    }
    r
}

impl Engine for BitsetDpEngine {
    fn name(&self) -> (r: &'static str)
        ensures
            r == crate::scheduler::EngineId::BitsetDp.label(),
    {
        "BitsetDP"
    }

    fn run(&self, sh: &Shared) {
        let v = Self::solve(sh);
        sh.apply(v, "BitsetDP");
    }
}

} // verus!
