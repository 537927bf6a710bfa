//! Mathematical vocabulary shared by the solvers: sums of sequences,
//! selections of elements, and what it means to solve an instance.
use vstd::multiset::Multiset;
use vstd::prelude::*;

verus! {

/// Sum of a sequence of integers.
pub open spec fn sum_of(s: Seq<int>) -> int
    decreases s.len(),
{
    if s.len() == 0 {
        0
    } else {
        sum_of(s.drop_last()) + s.last()
    }
}

/// A sequence of `u128` seen as mathematical integers.
pub open spec fn ints(s: Seq<u128>) -> Seq<int> {
    s.map_values(|x: u128| x as int)
}

/// Sum of the elements of `nums` that `sel` selects (position by position).
pub open spec fn sel_sum(nums: Seq<int>, sel: Seq<bool>) -> int
    decreases sel.len(),
{
    if sel.len() == 0 {
        0
    } else {
        sel_sum(nums, sel.drop_last()) + if sel.last() {
            nums[sel.len() - 1]
        } else {
            0
        }
    }
}

/// Some subset of the positions of `nums` has elements summing to `target`.
pub open spec fn solvable(nums: Seq<int>, target: int) -> bool {
    exists|sel: Seq<bool>| sel.len() == nums.len() && #[trigger] sel_sum(nums, sel) == target
}

/// `sol` takes each value at most as often as `nums` holds it.
pub open spec fn is_sub_multiset(sol: Seq<int>, nums: Seq<int>) -> bool {
    sol.to_multiset().subset_of(nums.to_multiset())
}

/// `sol` is an answer to the instance: drawn from `nums` and summing to `target`.
pub open spec fn solves(sol: Seq<int>, nums: Seq<int>, target: int) -> bool {
    is_sub_multiset(sol, nums) && sum_of(sol) == target
}

pub proof fn lemma_sum_of_push(s: Seq<int>, x: int)
    ensures
        sum_of(s.push(x)) == sum_of(s) + x,
{
    assert(s.push(x).drop_last() =~= s);
}

pub proof fn lemma_sum_of_concat(a: Seq<int>, b: Seq<int>)
    ensures
        sum_of(a + b) == sum_of(a) + sum_of(b),
    decreases b.len(),
{
    if b.len() == 0 {
        assert(a + b =~= a);
    } else {
        lemma_sum_of_concat(a, b.drop_last());
        assert((a + b).drop_last() =~= a + b.drop_last());
    }
}

pub proof fn lemma_ints_push(s: Seq<u128>, x: u128)
    ensures
        ints(s.push(x)) =~= ints(s).push(x as int),
{
}

/// A sub-multiset relation survives adding the same value on both sides.
pub proof fn lemma_sub_multiset_push(sol: Seq<int>, nums: Seq<int>, x: int)
    requires
        is_sub_multiset(sol, nums),
    ensures
        is_sub_multiset(sol.push(x), nums.push(x)),
{
    broadcast use vstd::seq_lib::group_to_multiset_ensures;
    broadcast use vstd::multiset::group_multiset_axioms;

    assert(sol.push(x).to_multiset() =~= sol.to_multiset().insert(x));
    assert(nums.push(x).to_multiset() =~= nums.to_multiset().insert(x));
}

/// A sub-multiset relation survives adding a value on the larger side only.
pub proof fn lemma_sub_multiset_extend(sol: Seq<int>, nums: Seq<int>, x: int)
    requires
        is_sub_multiset(sol, nums),
    ensures
        is_sub_multiset(sol, nums.push(x)),
{
    broadcast use vstd::seq_lib::group_to_multiset_ensures;
    broadcast use vstd::multiset::group_multiset_axioms;

    assert(nums.push(x).to_multiset() =~= nums.to_multiset().insert(x));
}

pub proof fn lemma_sub_multiset_trans(a: Seq<int>, b: Seq<int>, c: Seq<int>)
    requires
        is_sub_multiset(a, b),
        is_sub_multiset(b, c),
    ensures
        is_sub_multiset(a, c),
{
}

/// Concatenating sub-multisets of two disjoint parts gives a sub-multiset of the whole.
pub proof fn lemma_sub_multiset_concat(a: Seq<int>, b: Seq<int>, x: Seq<int>, y: Seq<int>)
    requires
        is_sub_multiset(a, x),
        is_sub_multiset(b, y),
    ensures
        is_sub_multiset(a + b, x + y),
{
    broadcast use vstd::multiset::group_multiset_axioms;

    vstd::seq_lib::lemma_multiset_commutative(a, b);
    vstd::seq_lib::lemma_multiset_commutative(x, y);
    assert forall|v: int| (a + b).to_multiset().count(v) <= (x + y).to_multiset().count(v) by {
        assert(a.to_multiset().count(v) <= x.to_multiset().count(v));
        assert(b.to_multiset().count(v) <= y.to_multiset().count(v));
    }
}

pub proof fn lemma_empty_sub_multiset(nums: Seq<int>)
    ensures
        is_sub_multiset(Seq::<int>::empty(), nums),
{
    broadcast use vstd::multiset::group_multiset_axioms;
    broadcast use vstd::seq_lib::group_to_multiset_ensures;

    assert(Seq::<int>::empty().to_multiset().len() == 0);
    assert(Seq::<int>::empty().to_multiset() =~= Multiset::empty());
}

/// Two sequences with the same multiset have the same sub-multisets.
pub proof fn lemma_sub_multiset_perm(sol: Seq<int>, a: Seq<int>, b: Seq<int>)
    requires
        is_sub_multiset(sol, a),
        a.to_multiset() == b.to_multiset(),
    ensures
        is_sub_multiset(sol, b),
{
}

/// Mapping a permutation of `u128` values keeps the multisets of their integer views equal.
pub proof fn lemma_ints_perm(a: Seq<u128>, b: Seq<u128>)
    requires
        a.to_multiset() == b.to_multiset(),
    ensures
        ints(a).to_multiset() == ints(b).to_multiset(),
{
    broadcast use vstd::multiset::group_multiset_axioms;

    assert forall|v: int| ints(a).to_multiset().count(v) == ints(b).to_multiset().count(v) by {
        lemma_ints_count(a, v);
        lemma_ints_count(b, v);
        if 0 <= v <= u128::MAX {
            assert(a.to_multiset().count(v as u128) == b.to_multiset().count(v as u128));
        }
    }
    assert(ints(a).to_multiset() =~= ints(b).to_multiset());
}

/// Count of an integer in the integer view equals the count of the corresponding `u128`.
pub proof fn lemma_ints_count(a: Seq<u128>, v: int)
    ensures
        ints(a).to_multiset().count(v) == if 0 <= v <= u128::MAX {
            a.to_multiset().count(v as u128)
        } else {
            0
        },
    decreases a.len(),
{
    broadcast use vstd::seq_lib::group_to_multiset_ensures;
    broadcast use vstd::multiset::group_multiset_axioms;

    if a.len() == 0 {
        assert(ints(a) =~= Seq::<int>::empty());
    } else {
        let p = a.drop_last();
        lemma_ints_count(p, v);
        assert(a =~= p.push(a.last()));
        assert(ints(a) =~= ints(p).push(a.last() as int));
    }
}


/// Some subset of the first `k` elements sums to `s`.
pub open spec fn reach(nums: Seq<int>, k: int, s: int) -> bool {
    exists|sel: Seq<bool>| sel.len() == k && #[trigger] sel_sum(nums, sel) == s
}

/// Subsets of the first `k + 1` elements: those without element `k` and
/// those with it.
pub proof fn lemma_reach_step(nums: Seq<int>, k: int, s: int)
    requires
        0 <= k < nums.len(),
    ensures
        reach(nums, k + 1, s) <==> (reach(nums, k, s) || reach(nums, k, s - nums[k])),
{
    if reach(nums, k + 1, s) {
        let sel = choose|sel: Seq<bool>| sel.len() == k + 1 && #[trigger] sel_sum(nums, sel) == s;
        let p = sel.drop_last();
        assert(sel_sum(nums, p) + if sel.last() {
            nums[k]
        } else {
            0
        } == s);
        if sel.last() {
            assert(sel_sum(nums, p) == s - nums[k]);
        } else {
            assert(sel_sum(nums, p) == s);
        }
    }
    if reach(nums, k, s) {
        let sel = choose|sel: Seq<bool>| sel.len() == k && #[trigger] sel_sum(nums, sel) == s;
        let q = sel.push(false);
        assert(q.drop_last() =~= sel);
        assert(sel_sum(nums, q) == s);
    }
    if reach(nums, k, s - nums[k]) {
        let sel = choose|sel: Seq<bool>|
            sel.len() == k && #[trigger] sel_sum(nums, sel) == s - nums[k];
        let q = sel.push(true);
        assert(q.drop_last() =~= sel);
        assert(sel_sum(nums, q) == s);
    }
}

/// The empty prefix reaches exactly zero.
pub proof fn lemma_reach_zero(nums: Seq<int>, s: int)
    ensures
        reach(nums, 0, s) <==> s == 0,
{
    if s == 0 {
        let sel = Seq::<bool>::empty();
        assert(sel_sum(nums, sel) == 0);
    }
}

/// Solvability is reachability over all elements.
pub proof fn lemma_solvable_reach(nums: Seq<int>, t: int)
    ensures
        solvable(nums, t) == reach(nums, nums.len() as int, t),
{
}

/// With nonnegative elements no subset sums below zero.
pub proof fn lemma_reach_nonneg(nums: Seq<int>, k: int, s: int)
    requires
        0 <= k <= nums.len(),
        forall|i: int| 0 <= i < nums.len() ==> nums[i] >= 0,
        reach(nums, k, s),
    ensures
        s >= 0,
{
    let sel = choose|sel: Seq<bool>| sel.len() == k && #[trigger] sel_sum(nums, sel) == s;
    lemma_sel_sum_nonneg(nums, sel);
}

pub proof fn lemma_sel_sum_nonneg(nums: Seq<int>, sel: Seq<bool>)
    requires
        sel.len() <= nums.len(),
        forall|i: int| 0 <= i < nums.len() ==> nums[i] >= 0,
    ensures
        sel_sum(nums, sel) >= 0,
    decreases sel.len(),
{
    if sel.len() > 0 {
        lemma_sel_sum_nonneg(nums, sel.drop_last());
    }
}
/// A sum of nonnegative integers is nonnegative.
pub proof fn lemma_sum_nonneg(s: Seq<int>)
    requires
        forall|i: int| 0 <= i < s.len() ==> s[i] >= 0,
    ensures
        sum_of(s) >= 0,
    decreases s.len(),
{
    if s.len() > 0 {
        lemma_sum_nonneg(s.drop_last());
    }
}

/// Removing one element takes it off the sum.
pub proof fn lemma_sum_remove(s: Seq<int>, j: int)
    requires
        0 <= j < s.len(),
    ensures
        sum_of(s) == sum_of(s.remove(j)) + s[j],
{
    let a = s.subrange(0, j);
    let b = s.subrange(j + 1, s.len() as int);
    assert(s =~= a.push(s[j]) + b);
    assert(s.remove(j) =~= a + b);
    lemma_sum_of_concat(a.push(s[j]), b);
    lemma_sum_of_concat(a, b);
    lemma_sum_of_push(a, s[j]);
}

/// Sequences with the same multiset have the same sum.
pub proof fn lemma_sum_perm(a: Seq<int>, b: Seq<int>)
    requires
        a.to_multiset() == b.to_multiset(),
    ensures
        sum_of(a) == sum_of(b),
    decreases a.len(),
{
    broadcast use vstd::seq_lib::group_to_multiset_ensures;
    broadcast use vstd::multiset::group_multiset_axioms;

    if a.len() == 0 {
        assert(b.to_multiset().len() == 0);
        assert(b.len() == 0);
    } else {
        let x = a.last();
        assert(a.to_multiset().count(x) > 0);
        assert(b.to_multiset().count(x) > 0);
        let j = choose|j: int| 0 <= j < b.len() && b[j] == x;
        let a2 = a.drop_last();
        let b2 = b.remove(j);
        assert(a =~= a2.push(x));
        vstd::seq_lib::to_multiset_build(a2, x);
        vstd::seq_lib::to_multiset_remove(b, j);
        assert(a2.to_multiset() =~= b2.to_multiset());
        lemma_sum_perm(a2, b2);
        lemma_sum_remove(b, j);
    }
}

/// With nonnegative elements a slice sums to at most the whole.
pub proof fn lemma_sum_subrange_le(s: Seq<int>, lo: int, hi: int)
    requires
        0 <= lo <= hi <= s.len(),
        forall|i: int| 0 <= i < s.len() ==> s[i] >= 0,
    ensures
        0 <= sum_of(s.subrange(lo, hi)) <= sum_of(s),
{
    let a = s.subrange(0, lo);
    let b = s.subrange(lo, hi);
    let c = s.subrange(hi, s.len() as int);
    assert(s =~= (a + b) + c);
    lemma_sum_of_concat(a + b, c);
    lemma_sum_of_concat(a, b);
    lemma_sum_nonneg(a);
    lemma_sum_nonneg(b);
    lemma_sum_nonneg(c);
}

/// A selection's sum only reads the positions it covers.
pub proof fn lemma_sel_sum_prefix(v: Seq<int>, w: Seq<int>, sel: Seq<bool>)
    requires
        sel.len() <= v.len(),
        sel.len() <= w.len(),
        forall|i: int| 0 <= i < sel.len() ==> v[i] == w[i],
    ensures
        sel_sum(v, sel) == sel_sum(w, sel),
    decreases sel.len(),
{
    if sel.len() > 0 {
        lemma_sel_sum_prefix(v, w, sel.drop_last());
    }
}

/// A selection's sum is the sum of what it selects before `mid` and from `mid` on.
pub proof fn lemma_sel_sum_split(v: Seq<int>, sel: Seq<bool>, mid: int)
    requires
        sel.len() == v.len(),
        0 <= mid <= v.len(),
    ensures
        sel_sum(v, sel) == sel_sum(v.take(mid), sel.take(mid)) + sel_sum(v.skip(mid), sel.skip(mid)),
    decreases sel.len(),
{
    if sel.len() == mid {
        assert(sel.take(mid) =~= sel);
        assert(sel.skip(mid).len() == 0);
        lemma_sel_sum_prefix(v, v.take(mid), sel);
    } else {
        let s2 = sel.drop_last();
        let v2 = v.drop_last();
        lemma_sel_sum_split(v2, s2, mid);
        lemma_sel_sum_prefix(v, v2, s2);
        assert(v2.take(mid) =~= v.take(mid));
        assert(s2.take(mid) =~= sel.take(mid));
        assert(sel.skip(mid).drop_last() =~= s2.skip(mid));
        lemma_sel_sum_prefix(v.skip(mid), v2.skip(mid), s2.skip(mid));
        assert(v.skip(mid)[sel.skip(mid).len() - 1] == v[sel.len() - 1]);
    }
}

/// With nonnegative elements a sub-multiset sums to at most the whole.
pub proof fn lemma_sub_multiset_sum(a: Seq<int>, b: Seq<int>)
    requires
        is_sub_multiset(a, b),
        forall|i: int| 0 <= i < b.len() ==> b[i] >= 0,
    ensures
        sum_of(a) <= sum_of(b),
    decreases a.len(),
{
    broadcast use vstd::seq_lib::group_to_multiset_ensures;
    broadcast use vstd::multiset::group_multiset_axioms;

    if a.len() == 0 {
        lemma_sum_nonneg(b);
    } else {
        let x = a.last();
        let a2 = a.drop_last();
        assert(a =~= a2.push(x));
        vstd::seq_lib::to_multiset_build(a2, x);
        assert(a.to_multiset().count(x) > 0);
        assert(b.to_multiset().count(x) > 0);
        let j = choose|j: int| 0 <= j < b.len() && b[j] == x;
        let b2 = b.remove(j);
        vstd::seq_lib::to_multiset_remove(b, j);
        assert forall|v: int| a2.to_multiset().count(v) <= b2.to_multiset().count(v) by {
            assert(a.to_multiset().count(v) <= b.to_multiset().count(v));
        }
        assert(a2.to_multiset().subset_of(b2.to_multiset()));
        assert forall|i: int| 0 <= i < b2.len() implies b2[i] >= 0 by {
            if i < j {
                assert(b2[i] == b[i]);
            } else {
                assert(b2[i] == b[i + 1]);
            }
        }
        lemma_sub_multiset_sum(a2, b2);
        lemma_sum_remove(b, j);
        lemma_sum_of_push(a2, x);
    }
}

/// Some selection of `vals[start..]` sums to `x`.
pub open spec fn tail_reach(vals: Seq<int>, start: int, x: int) -> bool {
    reach(vals.subrange(start, vals.len() as int), vals.len() - start, x)
}

/// A selection of `vals[start..]` leaves out `vals[start]` or takes it.
pub proof fn lemma_tail_step(vals: Seq<int>, start: int, x: int)
    requires
        0 <= start < vals.len(),
        tail_reach(vals, start, x),
    ensures
        tail_reach(vals, start + 1, x) || tail_reach(vals, start + 1, x - vals[start]),
{
    let v = vals.subrange(start, vals.len() as int);
    let sel = choose|sel: Seq<bool>| sel.len() == v.len() && #[trigger] sel_sum(v, sel) == x;
    lemma_sel_sum_split(v, sel, 1);
    let w = vals.subrange(start + 1, vals.len() as int);
    assert(v.skip(1) =~= w);
    let r = sel.skip(1);
    let h = sel_sum(v.take(1), sel.take(1));
    assert(sel.take(1).drop_last() =~= Seq::<bool>::empty());
    assert(v.take(1)[0] == vals[start]);
    reveal_with_fuel(sel_sum, 2);
    assert(h == if sel[0] {
        vals[start]
    } else {
        0
    });
    assert(sel_sum(w, r) == x - h);
}

/// Nothing but the empty selection is left past the end.
pub proof fn lemma_tail_end(vals: Seq<int>, x: int)
    requires
        tail_reach(vals, vals.len() as int, x),
    ensures
        x == 0,
{
    lemma_reach_zero(vals.subrange(vals.len() as int, vals.len() as int), x);
}

/// With nonnegative values no selection of a tail sums below zero.
pub proof fn lemma_tail_nonneg(vals: Seq<int>, start: int, x: int)
    requires
        0 <= start <= vals.len(),
        forall|i: int| 0 <= i < vals.len() ==> vals[i] >= 0,
        tail_reach(vals, start, x),
    ensures
        x >= 0,
{
    lemma_reach_nonneg(vals.subrange(start, vals.len() as int), vals.len() - start, x);
}

/// A selection of `vals[start + 1..]` grows into one of `vals[start..]`,
/// leaving out `vals[start]` or taking it.
pub proof fn lemma_tail_prepend(vals: Seq<int>, start: int, y: int, take: bool)
    requires
        0 <= start < vals.len(),
        tail_reach(vals, start + 1, y),
    ensures
        tail_reach(vals, start, y + if take {
            vals[start]
        } else {
            0
        }),
{
    let w = vals.subrange(start + 1, vals.len() as int);
    let r = choose|sel: Seq<bool>| sel.len() == w.len() && #[trigger] sel_sum(w, sel) == y;
    let v = vals.subrange(start, vals.len() as int);
    let sel = seq![take] + r;
    lemma_sel_sum_split(v, sel, 1);
    assert(v.skip(1) =~= w);
    assert(sel.skip(1) =~= r);
    assert(sel.take(1).drop_last() =~= Seq::<bool>::empty());
    assert(v.take(1)[0] == vals[start]);
    reveal_with_fuel(sel_sum, 2);
    assert(sel_sum(v, sel) == y + if take {
        vals[start]
    } else {
        0
    });
}

/// A selection of a later tail is one of an earlier tail.
pub proof fn lemma_tail_lift(vals: Seq<int>, a: int, b: int, y: int)
    requires
        0 <= a <= b <= vals.len(),
        tail_reach(vals, b, y),
    ensures
        tail_reach(vals, a, y),
    decreases b - a,
{
    if a < b {
        lemma_tail_prepend(vals, b - 1, y, false);
        lemma_tail_lift(vals, a, b - 1, y);
    }
}

/// Element `i` alone is a selection of `vals[start..]`.
pub proof fn lemma_tail_one(vals: Seq<int>, start: int, i: int)
    requires
        0 <= start <= i < vals.len(),
    ensures
        tail_reach(vals, start, vals[i]),
{
    lemma_reach_zero(vals.subrange(vals.len() as int, vals.len() as int), 0);
    lemma_tail_lift(vals, i + 1, vals.len() as int, 0);
    lemma_tail_prepend(vals, i, 0, true);
    lemma_tail_lift(vals, start, i, vals[i]);
}

/// Element `i` with a selection of `vals[i + 1..]` is a selection of
/// `vals[start..]`.
pub proof fn lemma_tail_extend(vals: Seq<int>, start: int, i: int, y: int)
    requires
        0 <= start <= i < vals.len(),
        tail_reach(vals, i + 1, y),
    ensures
        tail_reach(vals, start, vals[i] + y),
{
    lemma_tail_prepend(vals, i, y, true);
    lemma_tail_lift(vals, start, i, y + vals[i]);
}

/// With nonnegative values a selection of a tail sums to at most the tail.
pub proof fn lemma_tail_bound(vals: Seq<int>, start: int, x: int)
    requires
        0 <= start <= vals.len(),
        forall|i: int| 0 <= i < vals.len() ==> vals[i] >= 0,
        tail_reach(vals, start, x),
    ensures
        x <= sum_of(vals.subrange(start, vals.len() as int)),
{
    let v = vals.subrange(start, vals.len() as int);
    let sel = choose|sel: Seq<bool>| sel.len() == v.len() && #[trigger] sel_sum(v, sel) == x;
    crate::select::lemma_sel_sum_bounds(v, sel);
}

/// `xs` is drawn from `e` in order: some positions of `e`, increasing,
/// hold `xs`.
pub open spec fn subseq_of(xs: Seq<int>, e: Seq<int>) -> bool
    decreases e.len(),
{
    if e.len() == 0 {
        xs.len() == 0
    } else {
        subseq_of(xs, e.drop_first()) || (xs.len() > 0 && xs[0] == e[0] && subseq_of(
            xs.drop_first(),
            e.drop_first(),
        ))
    }
}

/// Nothing is drawn in order from anything.
pub proof fn lemma_subseq_empty(e: Seq<int>)
    ensures
        subseq_of(Seq::<int>::empty(), e),
    decreases e.len(),
{
    if e.len() > 0 {
        lemma_subseq_empty(e.drop_first());
    }
}

/// What is drawn in order from a later tail is drawn in order from an
/// earlier one.
pub proof fn lemma_subseq_lift(xs: Seq<int>, vals: Seq<int>, a: int, b: int)
    requires
        0 <= a <= b <= vals.len(),
        subseq_of(xs, vals.subrange(b, vals.len() as int)),
    ensures
        subseq_of(xs, vals.subrange(a, vals.len() as int)),
    decreases b - a,
{
    if a < b {
        assert(vals.subrange(b - 1, vals.len() as int).drop_first() =~= vals.subrange(b, vals.len() as int));
        lemma_subseq_lift(xs, vals, a, b - 1);
    }
}

/// `x` followed by what is drawn in order from `vals[i + 1..]` is drawn in
/// order from `vals[i..]` when `x` is `vals[i]`.
pub proof fn lemma_subseq_cons(xs: Seq<int>, vals: Seq<int>, i: int)
    requires
        0 <= i < vals.len(),
        subseq_of(xs, vals.subrange(i + 1, vals.len() as int)),
    ensures
        subseq_of(seq![vals[i]] + xs, vals.subrange(i, vals.len() as int)),
{
    let e = vals.subrange(i, vals.len() as int);
    assert(e.drop_first() =~= vals.subrange(i + 1, vals.len() as int));
    assert((seq![vals[i]] + xs).drop_first() =~= xs);
}

/// Drawing in order survives one more value at the end of the source, and
/// taking that value at the end of both.
pub proof fn lemma_subseq_push(xs: Seq<int>, e: Seq<int>, x: int)
    requires
        subseq_of(xs, e),
    ensures
        subseq_of(xs, e.push(x)),
        subseq_of(xs.push(x), e.push(x)),
    decreases e.len(),
{
    if e.len() == 0 {
        assert(e.push(x).drop_first() =~= e);
        assert(xs.push(x).drop_first() =~= xs);
        lemma_subseq_empty(e);
    } else {
        assert(e.push(x).drop_first() =~= e.drop_first().push(x));
        if subseq_of(xs, e.drop_first()) {
            lemma_subseq_push(xs, e.drop_first(), x);
        }
        if xs.len() > 0 && xs[0] == e[0] && subseq_of(xs.drop_first(), e.drop_first()) {
            lemma_subseq_push(xs.drop_first(), e.drop_first(), x);
            assert(xs.push(x).drop_first() =~= xs.drop_first().push(x));
        }
    }
}

/// What is drawn in order from `v[b..end]` read backwards is drawn in order
/// from `v[a..end]` read backwards.
pub proof fn lemma_subseq_rev_lift(xs: Seq<int>, v: Seq<int>, a: int, b: int, end: int)
    requires
        0 <= a <= b <= end <= v.len(),
        subseq_of(xs, v.subrange(b, end).reverse()),
    ensures
        subseq_of(xs, v.subrange(a, end).reverse()),
    decreases b - a,
{
    if a < b {
        assert(v.subrange(b - 1, end).reverse() =~= v.subrange(b, end).reverse().push(v[b - 1]));
        lemma_subseq_push(xs, v.subrange(b, end).reverse(), v[b - 1]);
        lemma_subseq_rev_lift(xs, v, a, b - 1, end);
    }
}

/// Whatever a sub-multiset sums to, some selection of the whole sums to.
pub proof fn lemma_sub_multiset_reach(sol: Seq<int>, vals: Seq<int>)
    requires
        is_sub_multiset(sol, vals),
    ensures
        reach(vals, vals.len() as int, sum_of(sol)),
    decreases vals.len(),
{
    broadcast use vstd::seq_lib::group_to_multiset_ensures;
    broadcast use vstd::multiset::group_multiset_axioms;

    if vals.len() == 0 {
        if sol.len() > 0 {
            vstd::seq_lib::to_multiset_contains(sol, sol[0]);
            vstd::seq_lib::to_multiset_contains(vals, sol[0]);
            assert(sol.contains(sol[0]));
        }
        assert(sol =~= Seq::<int>::empty());
        lemma_reach_zero(vals, 0);
    } else {
        let x = vals.last();
        let v2 = vals.drop_last();
        let k = v2.len() as int;
        assert(vals =~= v2.push(x));
        vstd::seq_lib::to_multiset_build(v2, x);
        if sol.to_multiset().count(x) > 0 {
            let j = choose|j: int| 0 <= j < sol.len() && sol[j] == x;
            let s2 = sol.remove(j);
            vstd::seq_lib::to_multiset_remove(sol, j);
            assert(s2.to_multiset().subset_of(v2.to_multiset()));
            lemma_sub_multiset_reach(s2, v2);
            lemma_sum_remove(sol, j);
            let sel = choose|sel: Seq<bool>| sel.len() == k && #[trigger] sel_sum(v2, sel) == sum_of(s2);
            lemma_sel_sum_prefix(v2, vals, sel);
            assert(reach(vals, k, sum_of(s2)));
            lemma_reach_step(vals, k, sum_of(sol));
        } else {
            assert(sol.to_multiset().subset_of(v2.to_multiset()));
            lemma_sub_multiset_reach(sol, v2);
            let sel = choose|sel: Seq<bool>| sel.len() == k && #[trigger] sel_sum(v2, sel) == sum_of(sol);
            lemma_sel_sum_prefix(v2, vals, sel);
            assert(reach(vals, k, sum_of(sol)));
            lemma_reach_step(vals, k, sum_of(sol));
        }
    }
}

/// A selection and its complement together take everything.
pub proof fn lemma_sel_sum_complement(v: Seq<int>, sel: Seq<bool>)
    requires
        sel.len() == v.len(),
    ensures
        sel_sum(v, sel) + sel_sum(v, Seq::new(sel.len(), |i: int| !sel[i])) == sum_of(v),
    decreases sel.len(),
{
    if sel.len() > 0 {
        let v2 = v.drop_last();
        let s2 = sel.drop_last();
        let c = Seq::new(sel.len(), |i: int| !sel[i]);
        let c2 = Seq::new(s2.len(), |i: int| !s2[i]);
        assert(c.drop_last() =~= c2);
        lemma_sel_sum_complement(v2, s2);
        lemma_sel_sum_prefix(v, v2, s2);
        lemma_sel_sum_prefix(v, v2, c2);
    }
}

/// Solvability depends only on the multiset of the elements.
pub proof fn lemma_solvable_perm(a: Seq<int>, b: Seq<int>, t: int)
    requires
        a.to_multiset() == b.to_multiset(),
        solvable(a, t),
    ensures
        solvable(b, t),
{
    let sel = choose|sel: Seq<bool>| sel.len() == a.len() && #[trigger] sel_sum(a, sel) == t;
    crate::select::lemma_chosen(a, sel);
    assert(a.take(a.len() as int) =~= a);
    lemma_sub_multiset_reach(crate::select::chosen(a, sel), b);
    lemma_solvable_reach(b, t);
}

/// A selection with a positive sum takes some element no larger than the sum.
pub proof fn lemma_sel_small_elem(v: Seq<int>, sel: Seq<bool>)
    requires
        sel.len() <= v.len(),
        forall|i: int| 0 <= i < v.len() ==> v[i] >= 0,
        sel_sum(v, sel) > 0,
    ensures
        exists|i: int| 0 <= i < sel.len() && #[trigger] v[i] <= sel_sum(v, sel),
    decreases sel.len(),
{
    let k = sel.len() as int;
    let s2 = sel.drop_last();
    lemma_sel_sum_nonneg(v, s2);
    if sel.last() {
        assert(v[k - 1] <= sel_sum(v, sel));
    } else {
        lemma_sel_small_elem(v, s2);
        let i = choose|i: int| 0 <= i < s2.len() && #[trigger] v[i] <= sel_sum(v, s2);
        assert(v[i] <= sel_sum(v, sel));
    }
}


/// A selection of `a + b` is a selection of `a` and one of `b`.
pub proof fn lemma_solvable_split(a: Seq<int>, b: Seq<int>, x: int)
    requires
        solvable(a + b, x),
    ensures
        exists|y: int| #[trigger] solvable(a, y) && solvable(b, x - y),
{
    let v = a + b;
    let sel = choose|sel: Seq<bool>| sel.len() == v.len() && #[trigger] sel_sum(v, sel) == x;
    lemma_sel_sum_split(v, sel, a.len() as int);
    assert(v.take(a.len() as int) =~= a);
    assert(v.skip(a.len() as int) =~= b);
    let y = sel_sum(a, sel.take(a.len() as int));
    assert(sel_sum(b, sel.skip(a.len() as int)) == x - y);
    assert(solvable(a, y));
    assert(solvable(b, x - y));
}

/// What is drawn in order from a prefix is drawn in order from a longer one.
pub proof fn lemma_subseq_take_lift(xs: Seq<int>, e: Seq<int>, a: int, b: int)
    requires
        0 <= a <= b <= e.len(),
        subseq_of(xs, e.take(a)),
    ensures
        subseq_of(xs, e.take(b)),
    decreases b - a,
{
    if a < b {
        assert(e.take(a + 1) =~= e.take(a).push(e[a]));
        lemma_subseq_push(xs, e.take(a), e[a]);
        lemma_subseq_take_lift(xs, e, a + 1, b);
    }
}

/// `s` is in ascending order.
pub open spec fn ascending(s: Seq<int>) -> bool {
    forall|i: int, j: int| 0 <= i < j < s.len() ==> s[i] <= s[j]
}

/// The naturals up to `b` are finitely many.
pub proof fn lemma_upto_finite(b: nat)
    ensures
        Set::new(|s: nat| s <= b).finite(),
    decreases b,
{
    if b == 0 {
        assert(Set::new(|s: nat| s <= b) =~= Set::empty().insert(0nat));
    } else {
        lemma_upto_finite((b - 1) as nat);
        assert(Set::new(|s: nat| s <= b) =~= Set::new(|s: nat| s <= (b - 1) as nat).insert(b));
    }
}

} // verus!
