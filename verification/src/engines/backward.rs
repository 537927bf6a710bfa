//! Backward (complement) engine: when the target is close to the total, find
//! what to leave out. The excess (total minus target) is matched by a
//! depth-first search over the elements, largest first, pruned by suffix
//! sums; the answer is everything else.
use crate::bignum::{copy_all, sort_big_desc, BigNum};
use crate::controller::{checked, verdict_ok, Engine, Shared, Verdict};
use crate::engines::bitset_dp::{lemma_subrange_in, lemma_take_prev};
use crate::profile::big_values;
use crate::spec::{
    is_sub_multiset, lemma_empty_sub_multiset, lemma_sub_multiset_trans, lemma_sum_of_concat,
    lemma_sum_of_push, sum_of, tail_reach, lemma_tail_step, lemma_tail_end, lemma_tail_nonneg, lemma_tail_bound,
    lemma_tail_one, lemma_tail_extend, subseq_of, lemma_subseq_empty, lemma_subseq_lift, lemma_subseq_cons,
};
use vstd::prelude::*;

verus! {

broadcast use vstd::seq_lib::group_to_multiset_ensures, vstd::multiset::group_multiset_axioms;

pub struct BackwardEngine;

/// `suf[i]` is the sum of `vals[i..]`, for every `i` up to the length.
pub open spec fn suffix_sums(suf: Seq<BigNum>, vals: Seq<int>) -> bool {
    &&& suf.len() == vals.len() + 1
    &&& forall|i: int| 0 <= i <= vals.len() ==> (#[trigger] suf[i])@ == sum_of(vals.subrange(i, vals.len() as int))
}

/// Look for elements of `nums[start..n]` that sum to `target`, trying
/// larger elements first; on success they are appended to `path`. The
/// second result tells whether the stop flag cut the search short; when it
/// did not, the search succeeds exactly when some selection of
/// `nums[start..n]` sums to `target`.
fn subtract(
    nums: &[BigNum],
    suf: &[BigNum],
    target: &BigNum,
    start: usize,
    n: usize,
    path: &mut Vec<BigNum>,
    sh: &Shared,
) -> (r: (bool, bool))
    requires
        n == nums@.len(),
        start <= n,
        suffix_sums(suf@, big_values(nums@)),
    ensures
        r.0 ==> big_values(final(path)@).take(old(path)@.len() as int) == big_values(old(path)@),
        r.0 ==> final(path)@.len() >= old(path)@.len(),
        r.0 ==> is_sub_multiset(
            big_values(final(path)@).skip(old(path)@.len() as int),
            big_values(nums@).subrange(start as int, n as int),
        ),
        r.0 ==> sum_of(big_values(final(path)@).skip(old(path)@.len() as int)) == target@,
        r.0 ==> subseq_of(
            big_values(final(path)@).skip(old(path)@.len() as int),
            big_values(nums@).subrange(start as int, n as int),
        ),
        !r.0 ==> big_values(final(path)@) == big_values(old(path)@),
        target@ == 0 ==> r.0,
        target@ != 0 && (start >= n || sum_of(big_values(nums@).subrange(start as int, n as int)) < target@)
            ==> !r.0 && !r.1,
        r.1 ==> !r.0,
        !r.1 ==> (r.0 <==> tail_reach(big_values(nums@), start as int, target@ as int)),
    decreases n - start,
{
    let ghost vals = big_values(nums@);
    let ghost p0 = big_values(path@);
    if target.is_zero() {
        proof {
            assert(big_values(path@).take(path@.len() as int) =~= big_values(path@));
            assert(big_values(path@).skip(path@.len() as int) =~= Seq::<int>::empty());
            lemma_empty_sub_multiset(vals.subrange(start as int, n as int));
            crate::spec::lemma_reach_zero(vals.subrange(n as int, n as int), 0);
            crate::spec::lemma_tail_lift(vals, start as int, n as int, 0);
            lemma_subseq_empty(vals.subrange(start as int, n as int));
        }
        return (true, false);
    }
    if start >= n || suf[start].less_than(target) {
        proof {
            if start < n && tail_reach(vals, start as int, target@ as int) {
                lemma_tail_bound(vals, start as int, target@ as int);
            }
            if start >= n && tail_reach(vals, start as int, target@ as int) {
                lemma_tail_end(vals, target@ as int);
            }
        }
        return (false, false);
    }
    let ghost rest = sum_of(vals.subrange(start as int, n as int));
    proof {
        assert(suf@[start as int]@ == rest);
    }
    if sh.stopped() {
        return (false, true);
    }
    proof {
        assert forall|j: int| 0 <= j < vals.len() implies vals[j] >= 0 by {}
    }
    let mut cut = false;
    let mut i = start;
    while i < n
        invariant
            n == nums@.len(),
            start <= i <= n,
            vals == big_values(nums@),
            suffix_sums(suf@, vals),
            big_values(path@) == p0,
            p0 == big_values(old(path)@),
            path@.len() == old(path)@.len(),
            start < n,
            rest == sum_of(vals.subrange(start as int, n as int)),
            rest >= target@,
            target@ != 0,
            forall|j: int| 0 <= j < vals.len() ==> vals[j] >= 0,
            !cut && tail_reach(vals, start as int, target@ as int) ==> tail_reach(vals, i as int, target@ as int),
        decreases n - i,
    {
        let v = &nums[i];
        proof {
            if tail_reach(vals, i as int, target@ as int) {
                lemma_tail_step(vals, i as int, target@ as int);
            }
        }
        if target.less_than(v) {
            proof {
                if !tail_reach(vals, i + 1, target@ as int) && tail_reach(vals, i + 1, target@ - vals[i as int]) {
                    lemma_tail_nonneg(vals, i + 1, target@ - vals[i as int]);
                }
            }
            i = i + 1;
            continue;
        }
        if v.equals(target) {
            let ghost before = path@;
            path.push(v.copy());
            proof {
                assert(big_values(path@) =~= big_values(before).push(vals[i as int]));
                assert(big_values(path@).take(before.len() as int) =~= p0);
                let x = big_values(path@).skip(before.len() as int);
                assert(x =~= Seq::<int>::empty().push(vals[i as int]));
                lemma_empty_sub_multiset(vals.subrange(i + 1, n as int));
                lemma_take_prev(Seq::<int>::empty(), vals, i as int, n as int);
                lemma_subrange_in(vals.subrange(start as int, n as int), i - start, n - start);
                assert(vals.subrange(start as int, n as int).subrange(i - start, n - start) =~= vals.subrange(
                    i as int,
                    n as int,
                ));
                lemma_sub_multiset_trans(x, vals.subrange(i as int, n as int), vals.subrange(start as int, n as int));
                lemma_sum_of_push(Seq::<int>::empty(), vals[i as int]);
                lemma_tail_one(vals, start as int, i as int);
                lemma_subseq_empty(vals.subrange(i + 1, n as int));
                assert(x =~= seq![vals[i as int]] + Seq::<int>::empty());
                lemma_subseq_cons(Seq::<int>::empty(), vals, i as int);
                lemma_subseq_lift(x, vals, start as int, i as int);
            }
            return (true, false);
        }
        let new_target = target.minus(v);
        proof {
            if suf[i + 1]@ < new_target@ && tail_reach(vals, i + 1, new_target@ as int) {
                if i + 1 < n {
                    lemma_tail_bound(vals, i + 1, new_target@ as int);
                } else {
                    lemma_tail_end(vals, new_target@ as int);
                }
            }
        }
        if !suf[i + 1].less_than(&new_target) {
            let ghost before = path@;
            path.push(v.copy());
            let ghost mid = path@;
            let (sub_found, sub_cut) = subtract(nums, suf, &new_target, i + 1, n, path, sh);
            if sub_found {
                proof {
                    let fin = big_values(path@);
                    assert(big_values(mid) =~= big_values(before).push(vals[i as int]));
                    let xs = fin.skip(mid.len() as int);
                    let x = fin.skip(before.len() as int);
                    assert(fin.take(mid.len() as int) == big_values(mid));
                    assert(fin.take(before.len() as int) =~= big_values(mid).take(before.len() as int));
                    assert(fin.take(before.len() as int) =~= p0);
                    assert(fin.take(mid.len() as int)[before.len() as int] == big_values(mid)[before.len() as int]);
                    assert(fin[before.len() as int] == vals[i as int]);
                    assert(x =~= seq![vals[i as int]] + xs);
                    lemma_take_prev(xs, vals, i as int, n as int);
                    vstd::seq_lib::lemma_multiset_commutative(seq![vals[i as int]], xs);
                    vstd::seq_lib::lemma_multiset_commutative(xs, seq![vals[i as int]]);
                    assert(xs.push(vals[i as int]) =~= xs + seq![vals[i as int]]);
                    assert(x.to_multiset() == xs.push(vals[i as int]).to_multiset());
                    lemma_subrange_in(vals.subrange(start as int, n as int), i - start, n - start);
                    assert(vals.subrange(start as int, n as int).subrange(i - start, n - start) =~= vals.subrange(
                        i as int,
                        n as int,
                    ));
                    lemma_sub_multiset_trans(x, vals.subrange(i as int, n as int), vals.subrange(start as int, n as int));
                    lemma_sum_of_concat(seq![vals[i as int]], xs);
                    assert(sum_of(seq![vals[i as int]]) == vals[i as int]) by {
                        lemma_sum_of_push(Seq::<int>::empty(), vals[i as int]);
                        assert(Seq::<int>::empty().push(vals[i as int]) =~= seq![vals[i as int]]);
                    }
                    lemma_tail_extend(vals, start as int, i as int, new_target@ as int);
                    lemma_subseq_cons(xs, vals, i as int);
                    lemma_subseq_lift(x, vals, start as int, i as int);
                }
                return (true, false);
            }
            if sub_cut {
                cut = true;
            }
            path.pop();
            proof {
                assert(big_values(path@) =~= big_values(mid).drop_last());
                assert(big_values(mid) =~= big_values(before).push(vals[i as int]));
                assert(big_values(path@) =~= p0);
            }
        }
        i = i + 1;
    }
    proof {
        if !cut && tail_reach(vals, start as int, target@ as int) {
            lemma_tail_end(vals, target@ as int);
        }
    }
    (false, cut)
}

/// The first position of `pool` holding the value of `x`.
fn position_of(pool: &Vec<BigNum>, x: &BigNum) -> (r: Option<usize>)
    ensures
        r matches Some(q) ==> q < pool@.len() && pool@[q as int]@ == x@,
        r is None ==> forall|q: int| 0 <= q < pool@.len() ==> (#[trigger] pool@[q])@ != x@,
{
    let mut pos: usize = 0;
    while pos < pool.len()
        invariant
            pos <= pool@.len(),
            forall|q: int| 0 <= q < pos ==> (#[trigger] pool@[q])@ != x@,
        decreases pool@.len() - pos,
    {
        if pool[pos].equals(x) {
            return Some(pos);
        }
        pos = pos + 1;
    }
    None
}

impl BackwardEngine {
    /// Leave out elements summing to the excess; up to 28 elements.
    pub fn solve(sh: &Shared) -> (v: Verdict)
        ensures
            verdict_ok(v, sh.profile.values(), sh.profile.target_value()),
            crate::spec::sum_of(sh.profile.values()) < sh.profile.target_value() ==> v is Unknown,
            sh.profile.values().len() > 28 ==> v is Unknown,
            !(v is Impossible),
            crate::spec::sum_of(sh.profile.values()) == sh.profile.target_value() && sh.profile.values().len() <= 28
                ==> v is Found,
    {
        Self::decide(sh).0
    }

    /// The search behind `solve`, with whether the stop flag cut it short.
    /// Unless it was cut short, an instance of at most 28 elements whose
    /// total reaches the target gets an answer exactly when one exists.
    pub fn decide(sh: &Shared) -> (r: (Verdict, bool))
        ensures
            verdict_ok(r.0, sh.profile.values(), sh.profile.target_value()),
            crate::spec::sum_of(sh.profile.values()) < sh.profile.target_value() ==> r.0 is Unknown,
            sh.profile.values().len() > 28 ==> r.0 is Unknown,
            !(r.0 is Impossible),
            crate::spec::sum_of(sh.profile.values()) == sh.profile.target_value() && sh.profile.values().len() <= 28
                ==> r.0 is Found,
            r.1 ==> r.0 is Unknown,
            !r.1 && sh.profile.target_value() <= crate::spec::sum_of(sh.profile.values()) && sh.profile.values().len()
                <= 28 && crate::spec::solvable(sh.profile.values(), sh.profile.target_value()) ==> r.0 is Found,
    {
        let p = &sh.profile;
        let total = p.total_sum();
        let target = p.target();
        if total.less_than(target) {
            return (Verdict::Unknown, false);
        }
        let n = p.n();
        if n > 28 {
            return (Verdict::Unknown, false);
        }
        let numbers = p.numbers();
        let excess = total.minus(target);
        if excess.is_zero() {
            let all = copy_all(numbers.as_slice());
            proof {
                assert(big_values(all@) =~= big_values(numbers@));
                assert(big_values(all@).to_multiset().subset_of(big_values(numbers@).to_multiset()));
            }
            return (checked(all, p), false);
        }
        let desc = sort_big_desc(numbers.as_slice());
        let ghost vals = big_values(desc@);
        let mut suf: Vec<BigNum> = Vec::new();
        let mut k: usize = 0;
        while k <= n
            invariant
                n <= 28,
                k <= n + 1,
                suf@.len() == k,
                forall|j: int| 0 <= j < k ==> (#[trigger] suf@[j])@ == 0,
            decreases n + 1 - k,
        {
            suf.push(BigNum::zero());
            k = k + 1;
        }
        proof {
            assert(vals.subrange(n as int, n as int) =~= Seq::<int>::empty());
        }
        let mut i = n;
        while i > 0
            invariant
                n == desc@.len(),
                vals == big_values(desc@),
                i <= n,
                suf@.len() == n + 1,
                forall|j: int| i <= j <= n ==> (#[trigger] suf@[j])@ == sum_of(vals.subrange(j, n as int)),
            decreases i,
        {
            i = i - 1;
            let s = suf[i + 1].plus(&desc[i]);
            proof {
                assert(vals.subrange(i as int, n as int) =~= seq![vals[i as int]] + vals.subrange(i + 1, n as int));
                lemma_sum_of_concat(seq![vals[i as int]], vals.subrange(i + 1, n as int));
                assert(sum_of(seq![vals[i as int]]) == vals[i as int]) by {
                    lemma_sum_of_push(Seq::<int>::empty(), vals[i as int]);
                    assert(Seq::<int>::empty().push(vals[i as int]) =~= seq![vals[i as int]]);
                }
            }
            suf.set(i, s);
        }
        let mut to_remove: Vec<BigNum> = Vec::new();
        let (found, cut) = subtract(desc.as_slice(), suf.as_slice(), &excess, 0, n, &mut to_remove, sh);
        let ghost values = p.values();
        proof {
            assert(vals.to_multiset() == values.to_multiset());
            assert(vals.subrange(0, n as int) =~= vals);
        }
        if found {
            let ghost tv = big_values(to_remove@);
            proof {
                assert(tv.skip(0) =~= tv);
                assert(tv.take(0) =~= Seq::<int>::empty());
            }
            let mut pool = copy_all(numbers.as_slice());
            proof {
                assert(big_values(pool@) =~= big_values(numbers@));
            }
            let mut r: usize = 0;
            while r < to_remove.len()
                invariant
                    r <= to_remove@.len(),
                    tv == big_values(to_remove@),
                    values == big_values(numbers@),
                    is_sub_multiset(big_values(pool@), values),
                    big_values(pool@).to_multiset().add(tv.take(r as int).to_multiset()) == values.to_multiset(),
                    tv.skip(r as int).to_multiset().subset_of(big_values(pool@).to_multiset()),
                decreases to_remove@.len() - r,
            {
                let ghost x = tv[r as int];
                proof {
                    assert(tv.skip(r as int) =~= seq![x] + tv.skip(r + 1));
                    vstd::seq_lib::lemma_multiset_commutative(seq![x], tv.skip(r + 1));
                    assert(seq![x] =~= Seq::<int>::empty().push(x));
                    assert(tv.skip(r as int).to_multiset().count(x) > 0);
                    vstd::seq_lib::to_multiset_contains(big_values(pool@), x);
                    assert(tv.take(r + 1) =~= tv.take(r as int).push(x));
                }
                match position_of(&pool, &to_remove[r]) {
                    Some(pos) => {
                        let ghost before = pool@;
                        pool.remove(pos);
                        proof {
                            let bv = big_values(before);
                            assert(big_values(pool@) =~= bv.remove(pos as int));
                            vstd::seq_lib::to_multiset_remove(bv, pos as int);
                            assert(big_values(pool@).to_multiset().subset_of(bv.to_multiset()));
                            assert(bv[pos as int] == x);
                            assert(big_values(pool@).to_multiset().add(tv.take(r + 1).to_multiset()) =~= values.to_multiset());
                            assert(tv.skip(r + 1).to_multiset().subset_of(big_values(pool@).to_multiset()));
                        }
                    },
                    None => {
                        proof {
                            let j = choose|j: int| 0 <= j < big_values(pool@).len() && big_values(pool@)[j] == x;
                            assert(pool@[j]@ == x);
                        }
                    },
                }
                r = r + 1;
            }
            proof {
                assert(tv.take(tv.len() as int) =~= tv);
                assert((big_values(pool@) + tv).to_multiset() =~= values.to_multiset()) by {
                    vstd::seq_lib::lemma_multiset_commutative(big_values(pool@), tv);
                }
                crate::spec::lemma_sum_perm(big_values(pool@) + tv, values);
                lemma_sum_of_concat(big_values(pool@), tv);
            }
            return (checked(pool, p), false);
        }
        proof {
            if !cut && crate::spec::solvable(values, target@ as int) {
                let sel = choose|sel: Seq<bool>| sel.len() == values.len() && #[trigger] crate::spec::sel_sum(values, sel)
                    == target@;
                crate::spec::lemma_sel_sum_complement(values, sel);
                let c = Seq::new(sel.len(), |i: int| !sel[i]);
                assert(crate::spec::solvable(values, excess@ as int));
                crate::spec::lemma_solvable_perm(values, vals, excess@ as int);
                crate::spec::lemma_solvable_reach(vals, excess@ as int);
                assert(tail_reach(vals, 0, excess@ as int));
            }
        }
        (Verdict::Unknown, cut)
    }
}

impl Engine for BackwardEngine {
    fn name(&self) -> (r: &'static str)
        ensures
            r == crate::scheduler::EngineId::Backward.label(),
    {
        "Backward"
    }

    fn run(&self, sh: &Shared) {
        let v = Self::solve(sh);
        sh.apply(v, "Backward");
    }
}

} // verus!
