//! Subsets encoded as bit masks: which positions a mask selects, what the
//! selected elements sum to, and the bit facts the enumerators rely on.
use crate::spec::{is_sub_multiset, lemma_empty_sub_multiset, lemma_sub_multiset_extend, lemma_sub_multiset_push, lemma_sum_of_push, sum_of};
use vstd::std_specs::bits::{axiom_u64_trailing_zeros, u64_trailing_zeros};
use vstd::prelude::*;

verus! {

/// Bit `i` of `m` is set.
pub open spec fn bit(m: u64, i: int) -> bool {
    0 <= i < 64 && ((m >> (i as u64)) & 1u64) == 1u64
}

/// No bit at position `n` or above is set.
pub open spec fn fits(m: u64, n: int) -> bool {
    forall|i: int| n <= i < 64 ==> !#[trigger] bit(m, i)
}

/// The elements of `e` at the set bits of `m` below position `k`, in position order.
pub open spec fn picked(e: Seq<int>, m: u64, k: int) -> Seq<int>
    decreases k,
{
    if k <= 0 {
        Seq::empty()
    } else if bit(m, k - 1) && k - 1 < e.len() {
        picked(e, m, k - 1).push(e[k - 1])
    } else {
        picked(e, m, k - 1)
    }
}

/// Sum of the elements that `m` selects from `e`.
pub open spec fn mask_sum(e: Seq<int>, m: u64) -> int {
    sum_of(picked(e, m, e.len() as int))
}

/// Sum of the first `k` elements of `e`.
pub open spec fn prefix_sum(e: Seq<int>, k: int) -> int {
    sum_of(e.take(k))
}

pub proof fn lemma_picked_step(e: Seq<int>, m: u64, k: int)
    requires
        k > 0,
    ensures
        sum_of(picked(e, m, k)) == sum_of(picked(e, m, k - 1)) + if bit(m, k - 1) && k - 1
            < e.len() {
            e[k - 1]
        } else {
            0
        },
{
    if bit(m, k - 1) && k - 1 < e.len() {
        lemma_sum_of_push(picked(e, m, k - 1), e[k - 1]);
    }
}

/// Positions with no selected bit leave the picked sequence unchanged.
pub proof fn lemma_picked_gap(e: Seq<int>, m: u64, lo: int, hi: int)
    requires
        0 <= lo <= hi,
        forall|i: int| lo <= i < hi ==> !#[trigger] bit(m, i),
    ensures
        picked(e, m, hi) == picked(e, m, lo),
    decreases hi - lo,
{
    if hi > lo {
        lemma_picked_gap(e, m, lo, hi - 1);
        assert(!bit(m, hi - 1));
    }
}

/// Beyond the end of `e` nothing more is picked.
pub proof fn lemma_picked_beyond(e: Seq<int>, m: u64, k: int)
    requires
        k >= e.len(),
    ensures
        picked(e, m, k) == picked(e, m, e.len() as int),
    decreases k - e.len(),
{
    if k > e.len() {
        lemma_picked_beyond(e, m, k - 1);
    }
}

/// What a mask picks from the first `k` positions is drawn from those positions.
pub proof fn lemma_picked_sub_multiset(e: Seq<int>, m: u64, k: int)
    requires
        0 <= k <= e.len(),
    ensures
        is_sub_multiset(picked(e, m, k), e.take(k)),
    decreases k,
{
    if k == 0 {
        assert(picked(e, m, 0) =~= Seq::<int>::empty());
        lemma_empty_sub_multiset(e.take(0));
    } else {
        lemma_picked_sub_multiset(e, m, k - 1);
        assert(e.take(k) =~= e.take(k - 1).push(e[k - 1]));
        if bit(m, k - 1) {
            lemma_sub_multiset_push(picked(e, m, k - 1), e.take(k - 1), e[k - 1]);
        } else {
            lemma_sub_multiset_extend(picked(e, m, k - 1), e.take(k - 1), e[k - 1]);
        }
    }
}

/// What a mask picks from `e` is a sub-multiset of `e`.
pub proof fn lemma_picked_in(e: Seq<int>, m: u64)
    ensures
        is_sub_multiset(picked(e, m, e.len() as int), e),
{
    lemma_picked_sub_multiset(e, m, e.len() as int);
    assert(e.take(e.len() as int) =~= e);
}

/// Two masks that differ only at bit `t`, set in `a` and clear in `b`.
pub proof fn lemma_mask_sum_one_bit(e: Seq<int>, a: u64, b: u64, t: int, k: int)
    requires
        0 <= t < 64,
        bit(a, t),
        !bit(b, t),
        forall|i: int| 0 <= i < 64 && i != t ==> bit(a, i) == bit(b, i),
        0 <= k,
    ensures
        sum_of(picked(e, a, k)) == sum_of(picked(e, b, k)) + if t < k && t < e.len() {
            e[t]
        } else {
            0
        },
    decreases k,
{
    if k > 0 {
        lemma_mask_sum_one_bit(e, a, b, t, k - 1);
        lemma_picked_step(e, a, k);
        lemma_picked_step(e, b, k);
        if k - 1 != t && k - 1 < 64 {
            assert(bit(a, k - 1) == bit(b, k - 1));
        }
    }
}

/// Clearing the lowest set bit (`m & (m - 1)`) clears exactly bit `trailing_zeros(m)`.
pub proof fn lemma_clear_lowest(m: u64)
    requires
        m != 0,
    ensures
        u64_trailing_zeros(m) < 64,
        bit(m, u64_trailing_zeros(m) as int),
        !bit(m & ((m - 1) as u64), u64_trailing_zeros(m) as int),
        forall|i: int| 0 <= i < 64 && i != u64_trailing_zeros(m) ==> #[trigger] bit(m & ((m - 1) as u64), i) == bit(m, i),
        forall|i: int| 0 <= i < u64_trailing_zeros(m) ==> !#[trigger] bit(m, i),
{
    axiom_u64_trailing_zeros(m);
    let t = u64_trailing_zeros(m) as u64;
    assert forall|i: int| 0 <= i < 64 && i != t implies #[trigger] bit(m & ((m - 1) as u64), i) == bit(m, i) by {
        let j = i as u64;
        assert((((m & ((m - 1) as u64)) >> j) & 1u64) == ((m >> j) & 1u64)) by (bit_vector)
            requires
                m != 0,
                t < 64,
                j < 64,
                j != t,
                (m >> t) & 1u64 == 1u64,
                m << ((64 - t) as u64) == 0,
        ;
    }
    assert((((m & ((m - 1) as u64)) >> t) & 1u64) == 0u64) by (bit_vector)
        requires
            m != 0,
            t < 64,
            (m >> t) & 1u64 == 1u64,
            m << ((64 - t) as u64) == 0,
    ;
    assert forall|i: int| 0 <= i < t implies !#[trigger] bit(m, i) by {
        assert((m >> (i as u64)) & 1u64 == 0u64);
    }
}

/// Bits of `m - 1` for nonzero `m` with lowest set bit `t`: all ones below `t`,
/// zero at `t`, unchanged above.
pub proof fn lemma_decrement_bits(m: u64)
    requires
        m != 0,
    ensures
        u64_trailing_zeros(m) < 64,
        bit(m, u64_trailing_zeros(m) as int),
        !bit(((m - 1) as u64), u64_trailing_zeros(m) as int),
        forall|i: int| 0 <= i < u64_trailing_zeros(m) ==> #[trigger] bit(((m - 1) as u64), i) && !bit(m, i),
        forall|i: int| u64_trailing_zeros(m) < i < 64 ==> #[trigger] bit(((m - 1) as u64), i) == bit(m, i),
{
    axiom_u64_trailing_zeros(m);
    let t = u64_trailing_zeros(m) as u64;
    assert forall|i: int| 0 <= i < t implies #[trigger] bit(((m - 1) as u64), i) && !bit(m, i) by {
        let j = i as u64;
        assert(((((m - 1) as u64) >> j) & 1u64) == 1u64) by (bit_vector)
            requires
                m != 0,
                t < 64,
                j < t,
                (m >> t) & 1u64 == 1u64,
                m << ((64 - t) as u64) == 0,
        ;
        assert((m >> j) & 1u64 == 0u64);
    }
    assert forall|i: int| t < i < 64 implies #[trigger] bit(((m - 1) as u64), i) == bit(m, i) by {
        let j = i as u64;
        assert(((((m - 1) as u64) >> j) & 1u64) == ((m >> j) & 1u64)) by (bit_vector)
            requires
                m != 0,
                t < 64,
                t < j,
                j < 64,
                (m >> t) & 1u64 == 1u64,
                m << ((64 - t) as u64) == 0,
        ;
    }
    assert(((((m - 1) as u64) >> t) & 1u64) == 0u64) by (bit_vector)
        requires
            m != 0,
            t < 64,
            (m >> t) & 1u64 == 1u64,
            m << ((64 - t) as u64) == 0,
    ;
}

/// Step of the Gray-style enumeration: the sum selected by `m` from the sum
/// selected by `m - 1`, where `t` is the lowest set bit of `m`.
pub proof fn lemma_mask_sum_increment(e: Seq<int>, m: u64, k: int)
    requires
        m != 0,
        0 <= k <= e.len(),
    ensures
        u64_trailing_zeros(m) < 64,
        sum_of(picked(e, m, k)) == sum_of(picked(e, ((m - 1) as u64), k)) + (if u64_trailing_zeros(m)
            < k {
            e[u64_trailing_zeros(m) as int]
        } else {
            0
        }) - prefix_sum(e, if u64_trailing_zeros(m) < k {
            u64_trailing_zeros(m) as int
        } else {
            k
        }),
    decreases k,
{
    lemma_decrement_bits(m);
    let t = u64_trailing_zeros(m) as int;
    if k > 0 {
        lemma_mask_sum_increment(e, m, k - 1);
        lemma_picked_step(e, m, k);
        lemma_picked_step(e, ((m - 1) as u64), k);
        let j = k - 1;
        if j < t {
            assert(e.take(k) =~= e.take(j).push(e[j]));
            lemma_sum_of_push(e.take(j), e[j]);
        }
    } else {
        assert(e.take(0) =~= Seq::<int>::empty());
    }
}

/// With nonnegative elements, picking from more positions never lowers the sum.
pub proof fn lemma_picked_mono(e: Seq<int>, m: u64, k1: int, k2: int)
    requires
        0 <= k1 <= k2,
        forall|i: int| 0 <= i < e.len() ==> e[i] >= 0,
    ensures
        sum_of(picked(e, m, k1)) <= sum_of(picked(e, m, k2)),
    decreases k2 - k1,
{
    if k2 > k1 {
        lemma_picked_mono(e, m, k1, k2 - 1);
        lemma_picked_step(e, m, k2);
    }
}

/// Clearing the lowest set bit makes a nonzero mask smaller.
pub proof fn lemma_clear_lowest_smaller(m: u64)
    requires
        m != 0,
    ensures
        (m & ((m - 1) as u64)) < m,
{
    assert((m & ((m - 1) as u64)) < m) by (bit_vector)
        requires
            m != 0,
    ;
}

/// The zero mask selects nothing.
pub proof fn lemma_zero_no_bits(m: u64)
    requires
        m == 0,
    ensures
        forall|i: int| !#[trigger] bit(m, i),
{
    assert forall|i: int| !#[trigger] bit(m, i) by {
        if 0 <= i < 64 {
            let j = i as u64;
            assert((0u64 >> j) & 1u64 == 0u64) by (bit_vector);
        }
    }
}

/// A mask below `2^n` has no bit at or above `n`.
pub proof fn lemma_lt_pow_fits(m: u64, n: u64)
    requires
        n < 64,
        m < (1u64 << n),
    ensures
        fits(m, n as int),
{
    assert forall|i: int| n <= i < 64 implies !#[trigger] bit(m, i) by {
        let j = i as u64;
        assert((m >> j) & 1u64 == 0u64) by (bit_vector)
            requires
                n < 64,
                n <= j,
                j < 64,
                m < (1u64 << n),
        ;
    }
}

/// Setting bit `k` changes bit `k` only.
pub proof fn lemma_set_bit(m: u64, k: u64)
    requires
        k < 64,
    ensures
        bit(m | (1u64 << k), k as int),
        forall|i: int| 0 <= i < 64 && i != k ==> #[trigger] bit(m | (1u64 << k), i) == bit(m, i),
{
    assert(((m | (1u64 << k)) >> k) & 1u64 == 1u64) by (bit_vector)
        requires
            k < 64,
    ;
    assert forall|i: int| 0 <= i < 64 && i != k implies #[trigger] bit(m | (1u64 << k), i) == bit(m, i) by {
        let j = i as u64;
        assert(((m | (1u64 << k)) >> j) & 1u64 == (m >> j) & 1u64) by (bit_vector)
            requires
                k < 64,
                j < 64,
                j != k,
        ;
    }
}

/// A mask with no bit at or above `n` is below `2^n`.
pub proof fn lemma_fits_lt_pow(m: u64, n: u64)
    requires
        n < 64,
        fits(m, n as int),
    ensures
        m < (1u64 << n),
{
    lemma_fits_above(m, n);
    assert(m < (1u64 << n)) by (bit_vector)
        requires
            n < 64,
            (m >> n) == 0,
    ;
}

/// With no bit at or above `n`, shifting right by `n` leaves nothing.
proof fn lemma_fits_above(m: u64, n: u64)
    requires
        n < 64,
        fits(m, n as int),
    ensures
        (m >> n) == 0,
    decreases 64 - n,
{
    if n == 63 {
        assert(!bit(m, 63));
        assert((m >> 63u64) == 0) by (bit_vector)
            requires
                ((m >> 63u64) & 1u64) != 1u64,
        ;
    } else {
        lemma_fits_above(m, (n + 1) as u64);
        assert(!bit(m, n as int));
        assert((m >> n) == 0) by (bit_vector)
            requires
                n < 63,
                (m >> ((n + 1) as u64)) == 0,
                ((m >> n) & 1u64) != 1u64,
        ;
    }
}

/// Bits of `sm | (nm << a)`: below `a` those of `sm`, from `a` on those of
/// `nm`.
proof fn lemma_or_shift_bit(sm: u64, nm: u64, a: u64, i: u64)
    requires
        a < 64,
        i < 64,
        sm < (1u64 << a),
    ensures
        i < a ==> ((sm | (nm << a)) >> i) & 1 == (sm >> i) & 1,
        a <= i ==> ((sm | (nm << a)) >> i) & 1 == (nm >> ((i - a) as u64)) & 1,
{
    assert(i < a ==> ((sm | (nm << a)) >> i) & 1 == (sm >> i) & 1) by (bit_vector)
        requires
            a < 64,
            i < 64,
    ;
    assert(a <= i ==> ((sm | (nm << a)) >> i) & 1 == (nm >> ((i - a) as u64)) & 1) by (bit_vector)
        requires
            a < 64,
            i < 64,
            sm < (1u64 << a),
    ;
}

/// What masks agreeing below `k` pick from sequences agreeing below `k`.
proof fn lemma_picked_agree(e1: Seq<int>, m1: u64, e2: Seq<int>, m2: u64, k: int)
    requires
        0 <= k <= e1.len(),
        k <= e2.len(),
        forall|i: int| 0 <= i < k ==> bit(m1, i) == bit(m2, i) && e1[i] == e2[i],
    ensures
        picked(e1, m1, k) == picked(e2, m2, k),
    decreases k,
{
    if k > 0 {
        lemma_picked_agree(e1, m1, e2, m2, k - 1);
    }
}

/// Joining a mask of the first `a` elements with one of the next group,
/// shifted past them, adds the two sums.
pub proof fn lemma_join_masks(p: Seq<int>, sm: u64, gv: Seq<int>, nm: u64)
    requires
        p.len() + gv.len() < 64,
        fits(sm, p.len() as int),
        fits(nm, gv.len() as int),
    ensures
        mask_sum(p + gv, sm | (nm << (p.len() as u64))) == mask_sum(p, sm) + mask_sum(gv, nm),
        fits(sm | (nm << (p.len() as u64)), (p.len() + gv.len()) as int),
{
    let a = p.len() as int;
    let c = sm | (nm << (a as u64));
    let e = p + gv;
    lemma_fits_lt_pow(sm, a as u64);
    assert forall|i: int| 0 <= i < 64 implies #[trigger] bit(c, i) == if i < a {
        bit(sm, i)
    } else {
        bit(nm, i - a)
    } by {
        lemma_or_shift_bit(sm, nm, a as u64, i as u64);
    }
    lemma_picked_agree(e, c, p, sm, a);
    assert forall|k: int| a <= k <= a + gv.len() implies #[trigger] sum_of(picked(e, c, k)) == sum_of(
        picked(p, sm, a),
    ) + sum_of(picked(gv, nm, k - a)) by {
        lemma_join_step(e, c, p, sm, gv, nm, k);
    }
    assert forall|i: int| a + gv.len() <= i < 64 implies !#[trigger] bit(c, i) by {
        assert(bit(c, i) == bit(nm, i - a));
    }
}

proof fn lemma_join_step(e: Seq<int>, c: u64, p: Seq<int>, sm: u64, gv: Seq<int>, nm: u64, k: int)
    requires
        e == p + gv,
        p.len() <= k <= e.len(),
        e.len() < 64,
        picked(e, c, p.len() as int) == picked(p, sm, p.len() as int),
        forall|i: int| p.len() <= i < 64 ==> #[trigger] bit(c, i) == bit(nm, i - p.len()),
    ensures
        sum_of(picked(e, c, k)) == sum_of(picked(p, sm, p.len() as int)) + sum_of(picked(gv, nm, k - p.len())),
    decreases k,
{
    let a = p.len() as int;
    if k == a {
        assert(picked(gv, nm, 0) =~= Seq::<int>::empty());
    } else {
        lemma_join_step(e, c, p, sm, gv, nm, k - 1);
        assert(bit(c, k - 1) == bit(nm, k - 1 - a));
        assert(e[k - 1] == gv[k - 1 - a]);
        if bit(c, k - 1) {
            lemma_sum_of_push(picked(e, c, k - 1), e[k - 1]);
            lemma_sum_of_push(picked(gv, nm, k - 1 - a), gv[k - 1 - a]);
        }
    }
}

} // verus!
