//! Subsets given position by position (a flag per element), their sums and
//! the answers they make.
use crate::bignum::BigNum;
use crate::profile::big_values;
use crate::spec::{
    ints, is_sub_multiset, lemma_empty_sub_multiset, lemma_sub_multiset_extend, lemma_sub_multiset_push,
    lemma_sum_of_push, sel_sum, sum_of,
};
use vstd::prelude::*;

verus! {

/// The elements of `e` whose flag in `sel` is set, in position order.
pub open spec fn chosen(e: Seq<int>, sel: Seq<bool>) -> Seq<int>
    decreases sel.len(),
{
    if sel.len() == 0 {
        Seq::empty()
    } else if sel.last() {
        chosen(e, sel.drop_last()).push(e[sel.len() - 1])
    } else {
        chosen(e, sel.drop_last())
    }
}

/// The chosen elements are drawn from `e` and add up to the selection's sum.
pub proof fn lemma_chosen(e: Seq<int>, sel: Seq<bool>)
    requires
        sel.len() <= e.len(),
    ensures
        is_sub_multiset(chosen(e, sel), e.take(sel.len() as int)),
        sum_of(chosen(e, sel)) == sel_sum(e, sel),
    decreases sel.len(),
{
    let k = sel.len() as int;
    if k == 0 {
        assert(e.take(0) =~= Seq::<int>::empty());
        lemma_empty_sub_multiset(e.take(0));
    } else {
        lemma_chosen(e, sel.drop_last());
        assert(e.take(k) =~= e.take(k - 1).push(e[k - 1]));
        if sel.last() {
            lemma_sub_multiset_push(chosen(e, sel.drop_last()), e.take(k - 1), e[k - 1]);
            lemma_sum_of_push(chosen(e, sel.drop_last()), e[k - 1]);
        } else {
            lemma_sub_multiset_extend(chosen(e, sel.drop_last()), e.take(k - 1), e[k - 1]);
        }
    }
}

/// Changing one flag changes the selection's sum by that element.
pub proof fn lemma_sel_sum_update(e: Seq<int>, sel: Seq<bool>, i: int, b: bool)
    requires
        0 <= i < sel.len(),
    ensures
        sel_sum(e, sel.update(i, b)) == sel_sum(e, sel) - (if sel[i] {
            e[i]
        } else {
            0
        }) + (if b {
            e[i]
        } else {
            0
        }),
    decreases sel.len(),
{
    let s2 = sel.update(i, b);
    if i < sel.len() - 1 {
        lemma_sel_sum_update(e, sel.drop_last(), i, b);
        assert(s2.drop_last() =~= sel.drop_last().update(i, b));
    } else {
        assert(s2.drop_last() =~= sel.drop_last());
    }
}

/// With nonnegative elements a selection sums to at most everything.
pub proof fn lemma_sel_sum_bounds(e: Seq<int>, sel: Seq<bool>)
    requires
        sel.len() == e.len(),
        forall|i: int| 0 <= i < e.len() ==> e[i] >= 0,
    ensures
        0 <= sel_sum(e, sel) <= sum_of(e),
{
    lemma_chosen(e, sel);
    assert(e.take(e.len() as int) =~= e);
    crate::spec::lemma_sel_sum_nonneg(e, sel);
    crate::spec::lemma_sub_multiset_sum(chosen(e, sel), e);
}

/// Selecting everything sums to everything.
pub proof fn lemma_sel_sum_all(e: Seq<int>, k: int)
    requires
        0 <= k <= e.len(),
    ensures
        sel_sum(e, Seq::new(k as nat, |i: int| true)) == sum_of(e.take(k)),
    decreases k,
{
    if k > 0 {
        lemma_sel_sum_all(e, k - 1);
        assert(Seq::new(k as nat, |i: int| true).drop_last() =~= Seq::new((k - 1) as nat, |i: int| true));
        assert(e.take(k) =~= e.take(k - 1).push(e[k - 1]));
        lemma_sum_of_push(e.take(k - 1), e[k - 1]);
    } else {
        assert(e.take(0) =~= Seq::<int>::empty());
    }
}

/// The elements of `nums` whose flag in `used` is set, as big numbers.
pub fn report_selection(nums: &[u128], used: &[bool]) -> (sol: Vec<BigNum>)
    requires
        used@.len() == nums@.len(),
    ensures
        big_values(sol@) == chosen(ints(nums@), used@),
        is_sub_multiset(big_values(sol@), ints(nums@)),
{
    let ghost e = ints(nums@);
    let mut sol: Vec<BigNum> = Vec::new();
    let mut i: usize = 0;
    while i < nums.len()
        invariant
            e == ints(nums@),
            used@.len() == nums@.len(),
            i <= nums@.len(),
            big_values(sol@) == chosen(e, used@.take(i as int)),
        decreases nums@.len() - i,
    {
        proof {
            assert(used@.take(i + 1).drop_last() =~= used@.take(i as int));
        }
        if used[i] {
            let ghost before = sol@;
            sol.push(BigNum::from_u128(nums[i]));
            proof {
                assert(big_values(sol@) =~= big_values(before).push(e[i as int]));
            }
        }
        i = i + 1;
    }
    proof {
        assert(used@.take(nums@.len() as int) =~= used@);
        lemma_chosen(e, used@);
        assert(e.take(e.len() as int) =~= e);
    }
    sol
}

/// The flags of the low `k` bits of `bits`.
pub open spec fn bit_flags(bits: u128, k: nat) -> Seq<bool> {
    Seq::new(k, |i: int| i < 128 && (bits >> (i as u128)) & 1 == 1)
}

/// Choosing every one of the first `k` elements keeps them all, in order.
pub proof fn lemma_chosen_all(e: Seq<int>, k: int)
    requires
        0 <= k <= e.len(),
    ensures
        chosen(e, Seq::new(k as nat, |i: int| true)) == e.take(k),
    decreases k,
{
    if k > 0 {
        let s = Seq::new(k as nat, |i: int| true);
        assert(s.drop_last() =~= Seq::new((k - 1) as nat, |i: int| true));
        lemma_chosen_all(e, k - 1);
        assert(e.take(k) =~= e.take(k - 1).push(e[k - 1]));
    }
}

/// The mask `2^k - 1` has exactly its first `k` bits set.
pub proof fn lemma_low_mask(k: u32)
    requires
        k < 128,
    ensures
        bit_flags(1u128.wrapping_shl(k).wrapping_sub(1), k as nat) == Seq::new(k as nat, |i: int| true),
{
    let x: u128 = 1u128 << (k % 128u32);
    assert(x >= 1) by (bit_vector)
        requires
            x == 1u128 << (k % 128u32),
    ;
    let all = 1u128.wrapping_shl(k).wrapping_sub(1);
    assert(all == (x - 1) as u128);
    assert forall|i: int| 0 <= i < k implies #[trigger] bit_flags(all, k as nat)[i] by {
        let iu = i as u128;
        assert((((x - 1) as u128) >> iu) & 1 == 1) by (bit_vector)
            requires
                x == 1u128 << (k % 128u32),
                iu < k,
                k < 128,
        ;
    }
    assert(bit_flags(all, k as nat) =~= Seq::new(k as nat, |i: int| true));
}

/// The elements of `nums` at the set bits of `bits`, as big numbers.
pub fn report_bits(nums: &[u128], bits: u128) -> (sol: Vec<BigNum>)
    ensures
        big_values(sol@) == chosen(ints(nums@), bit_flags(bits, nums@.len())),
        is_sub_multiset(big_values(sol@), ints(nums@)),
{
    let mut used: Vec<bool> = Vec::new();
    let mut i: usize = 0;
    while i < nums.len()
        invariant
            i <= nums@.len(),
            used@ == bit_flags(bits, i as nat),
        decreases nums@.len() - i,
    {
        let f = i < 128 && (bits >> (i as u128)) & 1 == 1;
        used.push(f);
        assert(used@ =~= bit_flags(bits, (i + 1) as nat));
        i = i + 1;
    }
    report_selection(nums, used.as_slice())
}

} // verus!
