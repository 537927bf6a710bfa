//! Shared subset-sum primitives: enumeration of subset sums, extraction of
//! the elements a mask selects, and signed (`-1/0/+1`) bucket enumeration.
use crate::bits::{
    bit, fits, lemma_clear_lowest, lemma_clear_lowest_smaller, lemma_zero_no_bits, lemma_lt_pow_fits,
    lemma_picked_beyond, lemma_picked_gap, lemma_picked_mono, lemma_picked_step, mask_sum, picked,
};
use crate::sort::{lemma_sorted_pairs_by_sum, sort_pairs, sorted_by_sum};
use crate::spec::{ints, is_sub_multiset, reach, sel_sum, sum_of};
use vstd::multiset::Multiset;
use vstd::prelude::*;


verus! {

broadcast use vstd::multiset::group_multiset_axioms;

/// The `(sum, mask)` pairs, in mask order, of the masks below `k` whose
/// selected elements sum to at most `target`.
pub open spec fn mask_pairs(e: Seq<int>, target: int, k: int) -> Seq<(u128, u64)>
    decreases k,
{
    if k <= 0 {
        Seq::empty()
    } else {
        let p = mask_pairs(e, target, k - 1);
        let m = (k - 1) as u64;
        if mask_sum(e, m) <= target {
            p.push((mask_sum(e, m) as u128, m))
        } else {
            p
        }
    }
}

/// Sum of the elements `mask` selects, or `None` once it exceeds `target`.
fn bounded_mask_sum(elems: &[u128], mask: u64, target: u128) -> (r: Option<u128>)
    requires
        fits(mask, elems@.len() as int),
        elems@.len() <= 64,
    ensures
        match r {
            Some(s) => s == mask_sum(ints(elems@), mask) && s <= target,
            None => mask_sum(ints(elems@), mask) > target,
        },
{
    let ghost e = ints(elems@);
    let ghost n = elems@.len() as int;
    let mut s: u128 = 0;
    let mut m = mask;
    let mut exceeded = false;
    let ghost mut lo: int = 0;
    while m != 0 && !exceeded
        invariant
            0 <= lo <= n,
            e == ints(elems@),
            n == elems@.len(),
            n <= 64,
            fits(mask, n),
            forall|i: int| 0 <= i < 64 ==> (#[trigger] bit(m, i) <==> bit(mask, i) && i >= lo),
            !exceeded ==> s as int == sum_of(picked(e, mask, lo)) && s <= target,
            exceeded ==> mask_sum(e, mask) > target,
        decreases m, (if exceeded { 0int } else { 1int }),
    {
        proof {
            lemma_clear_lowest(m);
            lemma_clear_lowest_smaller(m);
        }
        let t = m.trailing_zeros() as usize;
        proof {
            assert(bit(mask, t as int) && t >= lo);
            assert(t < n);
            assert forall|i: int| lo <= i < t implies !#[trigger] bit(mask, i) by {
                if bit(mask, i) {
                    assert(bit(m, i));
                }
            }
            lemma_picked_gap(e, mask, lo, t as int);
            lemma_picked_step(e, mask, t + 1);
            assert forall|i: int| 0 <= i < e.len() implies e[i] >= 0 by {}
            lemma_picked_mono(e, mask, t + 1, n);
        }
        match s.checked_add(elems[t]) {
            None => {
                exceeded = true;
            },
            Some(ns) => {
                if ns > target {
                    exceeded = true;
                } else {
                    s = ns;
                    let ghost old_m = m;
                    m = m & (m - 1);
                    proof {
                        lo = t + 1;
                        assert forall|i: int| 0 <= i < 64 implies (#[trigger] bit(m, i) <==> bit(mask, i) && i >= lo) by {
                            if i != t {
                                assert(bit(m, i) == bit(old_m, i));
                            }
                        }
                    }
                }
            },
        }
    }
    if exceeded {
        None
    } else {
        proof {
            lemma_zero_no_bits(m);
            assert forall|i: int| lo <= i < 64 implies !#[trigger] bit(mask, i) by {
                if bit(mask, i) {
                    assert(bit(m, i));
                }
            }
            lemma_picked_gap(e, mask, lo, 64);
            lemma_picked_beyond(e, mask, 64);
        }
        Some(s)
    }
}

/// Unsigned subset sums of `elems`, sorted ascending by sum, keeping only the
/// sums that do not exceed `target`. Each kept subset appears once, with the
/// mask of the positions it selects. More than 20 elements give no sums.
pub fn subset_sums_u128(elems: &[u128], target: u128) -> (r: Vec<(u128, u64)>)
    requires
        target < u128::MAX || elems@.len() > 20 || sum_of(ints(elems@)) <= u128::MAX,
    ensures
        elems@.len() > 20 ==> r@.len() == 0,
        elems@.len() <= 20 ==> r@.to_multiset() == mask_pairs(
            ints(elems@),
            target as int,
            (1u64 << elems@.len()) as int,
        ).to_multiset(),
        sorted_by_sum(r@),
        pairs_ok(r@, ints(elems@)),
{
    let n = elems.len();
    if n > 20 {
        return Vec::new();
    }
    let total: u64 = 1u64 << (n as u64);
    let ghost e = ints(elems@);
    let mut sums: Vec<(u128, u64)> = Vec::new();
    let mut mask: u64 = 0;
    while mask < total
        invariant
            n == elems@.len(),
            n <= 20,
            total == 1u64 << (n as u64),
            mask <= total,
            e == ints(elems@),
            sums@ == mask_pairs(e, target as int, mask as int),
        decreases total - mask,
    {
        proof {
            lemma_lt_pow_fits(mask, n as u64);
        }
        match bounded_mask_sum(elems, mask, target) {
            Some(s) => {
                sums.push((s, mask));
            },
            None => {},
        }
        mask = mask + 1;
    }
    let r = sort_pairs(sums);
    proof {
        lemma_sorted_pairs_by_sum(r@);
        lemma_mask_pairs_ok(ints(elems@), target as int, total as int);
        lemma_pairs_ok_perm(r@, sums@, ints(elems@), target as int);
    }
    r
}

/// The elements of `nums` at the set bits of `mask`, lowest bit first.
pub fn mask_to_vec_u128(nums: &[u128], mask: u64) -> (v: Vec<u128>)
    requires
        fits(mask, nums@.len() as int),
    ensures
        ints(v@) == picked(ints(nums@), mask, nums@.len() as int),
{
    let ghost e = ints(nums@);
    let ghost n = nums@.len() as int;
    let mut v: Vec<u128> = Vec::new();
    let mut m = mask;
    let ghost mut lo: int = 0;
    while m != 0
        invariant
            0 <= lo <= 64,
            e == ints(nums@),
            n == nums@.len(),
            fits(mask, n),
            forall|i: int| 0 <= i < 64 ==> (#[trigger] bit(m, i) <==> bit(mask, i) && i >= lo),
            ints(v@) == picked(e, mask, lo),
        decreases m,
    {
        proof {
            lemma_clear_lowest(m);
            lemma_clear_lowest_smaller(m);
        }
        let t = m.trailing_zeros() as usize;
        proof {
            assert(bit(mask, t as int) && t >= lo);
            assert(t < n);
            assert forall|i: int| lo <= i < t implies !#[trigger] bit(mask, i) by {
                if bit(mask, i) {
                    assert(bit(m, i));
                }
            }
            lemma_picked_gap(e, mask, lo, t as int);
        }
        let ghost old_v = v@;
        v.push(nums[t]);
        let ghost old_m = m;
        m = m & (m - 1);
        proof {
            assert(v@ =~= old_v.push(nums@[t as int]));
            assert(ints(v@) =~= ints(old_v).push(nums@[t as int] as int));
            lo = t + 1;
            assert forall|i: int| 0 <= i < 64 implies (#[trigger] bit(m, i) <==> bit(mask, i) && i >= lo) by {
                if i != t {
                    assert(bit(m, i) == bit(old_m, i));
                }
            }
        }
    }
    proof {
        lemma_zero_no_bits(m);
        assert forall|i: int| lo <= i < 64 implies !#[trigger] bit(mask, i) by {
            if bit(mask, i) {
                assert(bit(m, i));
            }
        }
        lemma_picked_gap(e, mask, lo, 64);
        if n <= 64 {
            lemma_picked_beyond(e, mask, 64);
        } else {
            lemma_picked_gap(e, mask, 64, n);
        }
    }
    v
}

/// `p` is a pair of a subset sum of `e` and the mask of that subset.
pub open spec fn pair_ok(p: (u128, u64), e: Seq<int>) -> bool {
    p.0 == mask_sum(e, p.1) && fits(p.1, e.len() as int)
}

/// Every pair that `mask_pairs` lists is a subset sum with a fitting mask.
pub proof fn lemma_mask_pairs_ok(e: Seq<int>, target: int, k: int)
    requires
        e.len() < 64,
        k <= (1u64 << e.len()),
        0 <= target <= u128::MAX,
        forall|i: int| 0 <= i < e.len() ==> e[i] >= 0,
    ensures
        forall|i: int| 0 <= i < mask_pairs(e, target, k).len() ==> pair_ok(#[trigger] mask_pairs(e, target, k)[i], e),
        forall|i: int| 0 <= i < mask_pairs(e, target, k).len() ==> (#[trigger] mask_pairs(e, target, k)[i]).0 <= target,
    decreases k,
{
    if k > 0 {
        lemma_mask_pairs_ok(e, target, k - 1);
        let m = (k - 1) as u64;
        lemma_lt_pow_fits(m, e.len() as u64);
        crate::gray::lemma_picked_le_prefix(e, m, e.len() as int);
        let p = mask_pairs(e, target, k - 1);
        if mask_sum(e, m) <= target {
            assert(mask_pairs(e, target, k) == p.push((mask_sum(e, m) as u128, m)));
        } else {
            assert(mask_pairs(e, target, k) == p);
        }
    }
}

/// Pairs with the same multiset as a list of good pairs are good.
pub proof fn lemma_pairs_ok_perm(r: Seq<(u128, u64)>, s: Seq<(u128, u64)>, e: Seq<int>, target: int)
    requires
        r.to_multiset() == s.to_multiset(),
        forall|i: int| 0 <= i < s.len() ==> pair_ok(#[trigger] s[i], e) && s[i].0 <= target,
    ensures
        forall|i: int| 0 <= i < r.len() ==> pair_ok(#[trigger] r[i], e) && r[i].0 <= target,
{
    broadcast use vstd::seq_lib::group_to_multiset_ensures;

    assert forall|i: int| 0 <= i < r.len() implies pair_ok(#[trigger] r[i], e) && r[i].0 <= target by {
        assert(r.to_multiset().count(r[i]) > 0);
        assert(s.to_multiset().count(r[i]) > 0);
        let j = choose|j: int| 0 <= j < s.len() && s[j] == r[i];
    }
}

/// The elements of `a` picked by `ma`, followed by those of `b` picked by `mb`.
pub(crate) fn picked_both(a: &[u128], ma: u64, b: &[u128], mb: u64) -> (sol: Vec<crate::bignum::BigNum>)
    ensures
        crate::profile::big_values(sol@) == picked(ints(a@), ma, a@.len() as int) + picked(ints(b@), mb, b@.len() as int),
{
    let mut sol = picked_big(a, ma);
    let mut rest = picked_big(b, mb);
    let ghost first = sol@;
    let ghost second = rest@;
    sol.append(&mut rest);
    proof {
        assert(crate::profile::big_values(sol@) =~= crate::profile::big_values(first) + crate::profile::big_values(second));
    }
    sol
}

/// The elements of `elems` at the set bits of `mask` below its length,
/// lowest position first, as big numbers.
pub fn picked_big(elems: &[u128], mask: u64) -> (sol: Vec<crate::bignum::BigNum>)
    ensures
        crate::profile::big_values(sol@) == picked(ints(elems@), mask, elems@.len() as int),
{
    let ghost e = ints(elems@);
    let mut sol: Vec<crate::bignum::BigNum> = Vec::new();
    let mut i: usize = 0;
    while i < elems.len()
        invariant
            e == ints(elems@),
            i <= elems@.len(),
            crate::profile::big_values(sol@) == picked(e, mask, i as int),
        decreases elems@.len() - i,
    {
        if i < 64 && (mask >> (i as u64)) & 1 == 1 {
            let ghost old_sol = sol@;
            sol.push(crate::bignum::BigNum::from_u128(elems[i]));
            proof {
                assert(bit(mask, i as int));
                assert(crate::profile::big_values(sol@) =~= crate::profile::big_values(old_sol).push(
                    e[i as int],
                ));
            }
        } else {
            proof {
                assert(!bit(mask, i as int));
            }
        }
        i = i + 1;
    }
    sol
}

/// `mask_pairs` lists at most one pair per mask.
pub proof fn lemma_mask_pairs_len(e: Seq<int>, target: int, k: int)
    ensures
        mask_pairs(e, target, k).len() <= if k > 0 {
            k
        } else {
            0
        },
    decreases k,
{
    if k > 0 {
        lemma_mask_pairs_len(e, target, k - 1);
    }
}

/// First position of `v` (sorted by sum) whose sum is at least `key`.
pub fn lower_bound(v: &[(u128, u64)], key: u128) -> (r: usize)
    requires
        sorted_by_sum(v@),
    ensures
        r <= v@.len(),
        forall|i: int| 0 <= i < r ==> (#[trigger] v@[i]).0 < key,
        forall|i: int| r <= i < v@.len() ==> (#[trigger] v@[i]).0 >= key,
{
    let mut lo: usize = 0;
    let mut hi: usize = v.len();
    while lo < hi
        invariant
            lo <= hi <= v@.len(),
            sorted_by_sum(v@),
            forall|i: int| 0 <= i < lo ==> (#[trigger] v@[i]).0 < key,
            forall|i: int| hi <= i < v@.len() ==> (#[trigger] v@[i]).0 >= key,
        decreases hi - lo,
    {
        let mid = lo + (hi - lo) / 2;
        if v[mid].0 < key {
            lo = mid + 1;
        } else {
            hi = mid;
        }
    }
    lo
}

/// How many partitions the Schroeppel–Shamir search uses: one per 256
/// entries of the longest quarter list, at least one, at most one per core
/// and at most 8.
pub fn partition_count(longest: usize, cpu_cores: usize) -> (r: usize)
    ensures
        r == vstd::math::min(vstd::math::min(vstd::math::max((longest / 256) as int, 1), cpu_cores as int), 8),
{
    let by_size = if longest / 256 > 1 {
        longest / 256
    } else {
        1
    };
    let capped = if by_size < cpu_cores {
        by_size
    } else {
        cpu_cores
    };
    if capped < 8 {
        capped
    } else {
        8
    }
}

/// Where partition `pid` of `parts` starts in `[0, t]`: `t * pid / parts`
/// rounded down.
pub open spec fn part_edge(t: int, pid: int, parts: int) -> int {
    t * pid / parts
}

proof fn lemma_cover_from(t: int, parts: int, s: int, k: int)
    requires
        parts > 0,
        t > 0,
        0 <= s <= t,
        0 <= k < parts,
        part_edge(t, k, parts) <= s,
    ensures
        exists|pid: int|
            0 <= pid < parts && #[trigger] part_edge(t, pid, parts) <= s <= part_edge(t, pid + 1, parts) && part_edge(
                t,
                pid,
                parts,
            ) < part_edge(t, pid + 1, parts),
    decreases parts - k,
{
    let lo = part_edge(t, k, parts);
    let hi = part_edge(t, k + 1, parts);
    assert(t * k <= t * (k + 1)) by (nonlinear_arith)
        requires
            t > 0,
            k >= 0,
    ;
    assert(lo <= hi) by (nonlinear_arith)
        requires
            t * k <= t * (k + 1),
            parts > 0,
            lo == t * k / parts,
            hi == t * (k + 1) / parts,
    ;
    if s <= hi && lo < hi {
        assert(0 <= k < parts && part_edge(t, k, parts) <= s <= part_edge(t, k + 1, parts) && part_edge(t, k, parts)
            < part_edge(t, k + 1, parts));
    } else {
        if k + 1 == parts {
            assert(hi == t) by (nonlinear_arith)
                requires
                    k + 1 == parts,
                    parts > 0,
                    hi == t * (k + 1) / parts,
            ;
            assert(t * k < t * parts) by (nonlinear_arith)
                requires
                    t > 0,
                    k < parts,
            ;
            assert(lo < t) by (nonlinear_arith)
                requires
                    t * k < t * parts,
                    parts > 0,
                    lo == t * k / parts,
            ;
        }
        lemma_cover_from(t, parts, s, k + 1);
    }
}

/// The partitions split `[0, t]` into consecutive ranges: the first starts
/// at 0, the last ends at `t`, each ends where the next starts, and every
/// sum in `[0, t]` lies in a partition whose range is not empty.
pub proof fn law_partitions_cover(t: int, parts: int, s: int)
    requires
        parts > 0,
        t > 0,
        0 <= s <= t,
    ensures
        part_edge(t, 0, parts) == 0,
        part_edge(t, parts, parts) == t,
        exists|pid: int|
            0 <= pid < parts && #[trigger] part_edge(t, pid, parts) <= s <= part_edge(t, pid + 1, parts) && part_edge(
                t,
                pid,
                parts,
            ) < part_edge(t, pid + 1, parts),
{
    assert(part_edge(t, parts, parts) == t) by (nonlinear_arith)
        requires
            parts > 0,
    ;
    assert(part_edge(t, 0, parts) == 0) by (nonlinear_arith)
        requires
            parts > 0,
    ;
    lemma_cover_from(t, parts, s, 0);
}

/// The sum ranges of partition `pid` of `parts`: A+B sums in
/// `[ab_low, ab_high]` and C+D sums in `[cd_low, cd_high]`, or `None` when
/// the A+B range is empty.
pub fn partition_bounds(target: u128, pid: usize, parts: usize) -> (r: Option<(u128, u128, u128, u128)>)
    requires
        pid < parts,
        target * (pid + 1) <= u128::MAX,
    ensures
        match r {
            Some((ab_low, ab_high, cd_low, cd_high)) => {
                &&& ab_low == part_edge(target as int, pid as int, parts as int)
                &&& ab_high == part_edge(target as int, pid + 1, parts as int)
                &&& ab_low < ab_high
                &&& cd_high == target - ab_low
                &&& cd_low == if ab_high <= target {
                    target - ab_high
                } else {
                    0
                }
            },
            None => part_edge(target as int, pid as int, parts as int) >= part_edge(target as int, pid + 1, parts as int),
        },
{
    proof {
        assert(target * pid <= target * (pid + 1)) by (nonlinear_arith);
        assert(target * (pid + 1) / (parts as int) <= target) by (nonlinear_arith)
            requires
                pid < parts,
        ;
    }
    let ntu = parts as u128;
    let ab_low = target * (pid as u128) / ntu;
    let ab_high = target * ((pid + 1) as u128) / ntu;
    if ab_low >= ab_high {
        return None;
    }
    let cd_high = target - ab_low;
    let cd_low = target.saturating_sub(ab_high);
    Some((ab_low, ab_high, cd_low, cd_high))
}

/// `x` capped at the largest `u128`.
pub open spec fn sat(x: int) -> int {
    if x > u128::MAX {
        u128::MAX as int
    } else {
        x
    }
}

/// Work left for an A+B entry: the A positions it may still advance over.
pub open spec fn ahead(len: int) -> spec_fn(crate::heap::Entry) -> nat {
    |e: crate::heap::Entry| if e.1 < len {
        (len - e.1) as nat
    } else {
        0
    }
}

/// Work left for a C+D entry: the C positions it may still retreat over.
pub open spec fn behind() -> spec_fn(crate::heap::Entry) -> nat {
    |e: crate::heap::Entry| (e.1 + 1) as nat
}

/// Every pair of `s` is a subset sum of `e` with a fitting mask.
pub open spec fn pairs_ok(s: Seq<(u128, u64)>, e: Seq<int>) -> bool {
    forall|i: int| 0 <= i < s.len() ==> pair_ok(#[trigger] s[i], e)
}

/// The answer made of what four masks pick from four quarters; it sums to
/// the four subset sums together.
fn four_quarters(qa: &[u128], qb: &[u128], qc: &[u128], qd: &[u128], ma: u64, mb: u64, mc: u64, md: u64) -> (sol: Vec<u128>)
    requires
        fits(ma, qa@.len() as int),
        fits(mb, qb@.len() as int),
        fits(mc, qc@.len() as int),
        fits(md, qd@.len() as int),
    ensures
        is_sub_multiset(ints(sol@), ints(qa@) + ints(qb@) + ints(qc@) + ints(qd@)),
        sum_of(ints(sol@)) == mask_sum(ints(qa@), ma) + mask_sum(ints(qb@), mb) + mask_sum(ints(qc@), mc)
            + mask_sum(ints(qd@), md),
        ints(sol@) == quarter_picks(ints(qa@), ints(qb@), ints(qc@), ints(qd@), ma, mb, mc, md),
{
    let mut sol = mask_to_vec_u128(qa, ma);
    let mut x = mask_to_vec_u128(qb, mb);
    let mut y = mask_to_vec_u128(qc, mc);
    let mut z = mask_to_vec_u128(qd, md);
    let ghost p0 = ints(sol@);
    let ghost p1 = ints(x@);
    let ghost p2 = ints(y@);
    let ghost p3 = ints(z@);
    sol.append(&mut x);
    sol.append(&mut y);
    sol.append(&mut z);
    proof {
        assert(ints(sol@) =~= p0 + p1 + p2 + p3);
        crate::bits::lemma_picked_in(ints(qa@), ma);
        crate::bits::lemma_picked_in(ints(qb@), mb);
        crate::bits::lemma_picked_in(ints(qc@), mc);
        crate::bits::lemma_picked_in(ints(qd@), md);
        crate::spec::lemma_sub_multiset_concat(p0, p1, ints(qa@), ints(qb@));
        crate::spec::lemma_sub_multiset_concat(p0 + p1, p2, ints(qa@) + ints(qb@), ints(qc@));
        crate::spec::lemma_sub_multiset_concat(p0 + p1 + p2, p3, ints(qa@) + ints(qb@) + ints(qc@), ints(qd@));
        crate::spec::lemma_sum_of_concat(p0, p1);
        crate::spec::lemma_sum_of_concat(p0 + p1, p2);
        crate::spec::lemma_sum_of_concat(p0 + p1 + p2, p3);
    }
    sol
}

/// What four masks pick from four quarters: each quarter's picks in
/// position order, the quarters in order.
pub open spec fn quarter_picks(
    qa: Seq<int>,
    qb: Seq<int>,
    qc: Seq<int>,
    qd: Seq<int>,
    ma: u64,
    mb: u64,
    mc: u64,
    md: u64,
) -> Seq<int> {
    picked(qa, ma, qa.len() as int) + picked(qb, mb, qb.len() as int) + picked(qc, mc, qc.len() as int) + picked(
        qd,
        md,
        qd.len() as int,
    )
}

/// `sol` is what some four masks, each within its quarter, pick from the
/// four quarters.
pub open spec fn is_quarter_pick(sol: Seq<int>, qa: Seq<int>, qb: Seq<int>, qc: Seq<int>, qd: Seq<int>) -> bool {
    exists|ma: u64, mb: u64, mc: u64, md: u64|
        fits(ma, qa.len() as int) && fits(mb, qb.len() as int) && fits(mc, qc.len() as int) && fits(
            md,
            qd.len() as int,
        ) && #[trigger] quarter_picks(qa, qb, qc, qd, ma, mb, mc, md) == sol
}

/// How a partition search ended.
pub enum SearchEnd<T> {
    /// An answer.
    Found(Vec<T>),
    /// The whole range was searched without an answer.
    Exhausted,
    /// The stop flag ended the search.
    Stopped,
}

/// Positions `i`, `j`, `k`, `l` of the four lists give an answer inside the
/// partition: A+B in `[lo1, hi1]`, C+D in `[lo2, hi2]`, all four summing to `t`.
pub open spec fn meets(
    av: Seq<(nat, u64)>,
    bv: Seq<(nat, u64)>,
    cv: Seq<(nat, u64)>,
    dv: Seq<(nat, u64)>,
    lo1: int,
    hi1: int,
    lo2: int,
    hi2: int,
    t: int,
    i: int,
    j: int,
    k: int,
    l: int,
) -> bool {
    &&& 0 <= i < av.len()
    &&& 0 <= j < bv.len()
    &&& 0 <= k < cv.len()
    &&& 0 <= l < dv.len()
    &&& lo1 <= av[i].0 + bv[j].0 <= hi1
    &&& lo2 <= cv[k].0 + dv[l].0 <= hi2
    &&& av[i].0 + bv[j].0 + cv[k].0 + dv[l].0 == t
}

/// The A+B heap still holds an entry for B position `j` at or before A
/// position `i`.
pub open spec fn min_covers<V>(h: Multiset<(V, u32, u32)>, i: int, j: int) -> bool {
    exists|e: (V, u32, u32)| #[trigger] h.contains(e) && e.2 == j && e.1 <= i
}

/// The C+D heap still holds an entry for D position `l` whose C value is at
/// least that of C position `k`.
pub open spec fn max_covers<V>(h: Multiset<(V, u32, u32)>, cv: Seq<(nat, u64)>, k: int, l: int) -> bool {
    exists|e: (V, u32, u32)| #[trigger] h.contains(e) && e.2 == l && e.1 < cv.len() && cv[e.1 as int].0 >= cv[k].0
}

/// The `(sum, mask)` pairs with their sums as integers.
pub open spec fn wide(s: Seq<(u128, u64)>) -> Seq<(nat, u64)> {
    s.map_values(|p: (u128, u64)| (p.0 as nat, p.1))
}

/// Some entry of `x` plus some entry of `y` lies in `lo..=hi`.
pub open spec fn in_band(x: Seq<(nat, u64)>, y: Seq<(nat, u64)>, lo: int, hi: int) -> bool {
    exists|i: int, j: int| 0 <= i < x.len() && 0 <= j < y.len() && lo <= #[trigger] x[i].0 + #[trigger] y[j].0 <= hi
}

/// A nonempty heap whose entries are (saturated) pair sums inside a band
/// below `u128::MAX` shows that some pair lies in the band.
proof fn lemma_band_witness_u128(
    h: Multiset<crate::heap::Entry>,
    x: Seq<(u128, u64)>,
    y: Seq<(u128, u64)>,
    lo: int,
    hi: int,
)
    requires
        h.len() > 0,
        hi < u128::MAX,
        forall|e: crate::heap::Entry| #[trigger] h.contains(e) ==> e.1 < x.len() && e.2 < y.len() && lo <= e.0 <= hi
            && e.0 == sat(x[e.1 as int].0 + y[e.2 as int].0),
    ensures
        in_band(wide(x), wide(y), lo, hi),
{
    let e = h.choose();
    assert(h.count(e) > 0);
    assert(h.contains(e));
    assert(wide(x)[e.1 as int].0 == x[e.1 as int].0);
    assert(wide(y)[e.2 as int].0 == y[e.2 as int].0);
}

pub proof fn lemma_ascending_u128(v: Seq<(u128, u64)>, i: int, j: int)
    requires
        sorted_by_sum(v),
        0 <= i <= j < v.len(),
    ensures
        v[i].0 <= v[j].0,
{
}

/// One partition of the Schroeppel–Shamir search. A min-heap walks the A+B
/// sums upwards from `ab_low` (for each B entry, starting at the first A
/// entry that can reach `ab_low`); a max-heap walks the C+D sums downwards
/// from `cd_high`. The smaller side advances until the two meet at `target`
/// or a side leaves its range. `a`, `b`, `c`, `d` are the subset sums of
/// the quarters `qa`, `qb`, `qc`, `qd`; `bounds` is
/// `(ab_low, ab_high, cd_low, cd_high)`; `stop` ends the search early. The
/// search misses no answer: it ends exhausted only when no positions of the
/// four lists meet inside the partition.
pub fn ss_partition_u128(
    a: &[(u128, u64)],
    b: &[(u128, u64)],
    c: &[(u128, u64)],
    d: &[(u128, u64)],
    qa: &[u128],
    qb: &[u128],
    qc: &[u128],
    qd: &[u128],
    target: u128,
    bounds: (u128, u128, u128, u128),
    stop: &std::sync::atomic::AtomicBool,
) -> (r: SearchEnd<u128>)
    requires
        target < u128::MAX,
        bounds.1 <= target,
        bounds.3 <= target,
        sorted_by_sum(a@),
        sorted_by_sum(c@),
        pairs_ok(a@, ints(qa@)),
        pairs_ok(b@, ints(qb@)),
        pairs_ok(c@, ints(qc@)),
        pairs_ok(d@, ints(qd@)),
        a@.len() <= u32::MAX,
        b@.len() <= u32::MAX,
        c@.len() <= u32::MAX,
        d@.len() <= u32::MAX,
    ensures
        r matches SearchEnd::Found(sol) ==> is_sub_multiset(ints(sol@), ints(qa@) + ints(qb@) + ints(qc@) + ints(qd@))
            && sum_of(ints(sol@)) == target,
        r matches SearchEnd::Found(sol) ==> is_quarter_pick(ints(sol@), ints(qa@), ints(qb@), ints(qc@), ints(qd@)),
        r is Exhausted ==> forall|i: int, j: int, k: int, l: int|
            !#[trigger] meets(
                wide(a@),
                wide(b@),
                wide(c@),
                wide(d@),
                bounds.0 as int,
                bounds.1 as int,
                bounds.2 as int,
                bounds.3 as int,
                target as int,
                i,
                j,
                k,
                l,
            ),
        !in_band(wide(a@), wide(b@), bounds.0 as int, bounds.1 as int) || !in_band(
            wide(c@),
            wide(d@),
            bounds.2 as int,
            bounds.3 as int,
        ) ==> r is Exhausted,
{
    let (ab_low, ab_high, cd_low, cd_high) = bounds;
    let ghost av = wide(a@);
    let ghost bv = wide(b@);
    let ghost cv = wide(c@);
    let ghost dv = wide(d@);
    let ghost lo1 = ab_low as int;
    let ghost hi1 = ab_high as int;
    let ghost lo2 = cd_low as int;
    let ghost hi2 = cd_high as int;
    let ghost t = target as int;
    let a_len = a.len();
    let ghost wl = ahead(a_len as int);
    let ghost wr = behind();
    let mut min_heap = crate::heap::MinHeap::by_triples(b.len());
    for j in 0..b.len()
        invariant
            a_len == a@.len(),
            av == wide(a@),
            bv == wide(b@),
            b@.len() <= u32::MAX,
            a@.len() <= u32::MAX,
            ab_high <= target < u128::MAX,
            sorted_by_sum(a@),
            lo1 == ab_low,
            hi1 == ab_high,
            min_heap.by_tuple(),
            forall|e: crate::heap::Entry| #[trigger] min_heap.items().contains(e) ==> e.1 < a_len && e.2 < b@.len()
                && e.0 == a@[e.1 as int].0 + b@[e.2 as int].0,
            forall|e: crate::heap::Entry| #[trigger] min_heap.items().contains(e) ==> lo1 <= e.0 <= hi1,
            forall|i: int, jj: int, k: int, l: int|
                jj < j && #[trigger] meets(av, bv, cv, dv, lo1, hi1, lo2, hi2, t, i, jj, k, l) ==> min_covers(
                    min_heap.items(),
                    i,
                    jj,
                ),
    {
        let need = ab_low.saturating_sub(b[j].0);
        let i = lower_bound(a, need);
        let ghost before = min_heap.items();
        let mut pushed = false;
        if i < a.len() {
            let sv = a[i].0.saturating_add(b[j].0);
            if sv >= ab_low && sv <= ab_high {
                let v = (sv, i as u32, j as u32);
                min_heap.push(v);
                pushed = true;
                proof {
                    assert forall|e: crate::heap::Entry| #[trigger] min_heap.items().contains(e) implies lo1 <= e.0
                        <= hi1 by {
                        if e != v {
                            assert(before.contains(e));
                        }
                    }
                    assert forall|e: crate::heap::Entry| #[trigger] min_heap.items().contains(e) implies e.1 < a_len
                        && e.2 < b@.len() && e.0 == a@[e.1 as int].0 + b@[e.2 as int].0 by {
                        if e != v {
                            assert(before.contains(e));
                        }
                    }
                }
            }
        }
        proof {
            assert forall|ii: int, jj: int, k: int, l: int|
                jj < j + 1 && #[trigger] meets(av, bv, cv, dv, lo1, hi1, lo2, hi2, t, ii, jj, k, l) implies min_covers(
                min_heap.items(),
                ii,
                jj,
            ) by {
                if jj < j {
                    let e = choose|e: crate::heap::Entry| #[trigger] before.contains(e) && e.2 == jj && e.1 <= ii;
                    assert(min_heap.items().contains(e));
                } else {
                    assert(av[ii].0 == a@[ii].0 && bv[jj].0 == b@[jj].0);
                    assert(a@[ii].0 >= need);
                    assert(ii >= i);
                    lemma_ascending_u128(a@, i as int, ii);
                    assert(pushed);
                    let e = ((a@[i as int].0 + b@[jj].0) as u128, i as u32, j as u32);
                    assert(min_heap.items().contains(e));
                }
            }
        }
    }
    if min_heap.len() == 0 {
        proof {
            assert forall|i: int, j: int, k: int, l: int| !#[trigger] meets(av, bv, cv, dv, lo1, hi1, lo2, hi2, t, i, j, k, l) by {
                if meets(av, bv, cv, dv, lo1, hi1, lo2, hi2, t, i, j, k, l) {
                    let e = choose|e: crate::heap::Entry| #[trigger] min_heap.items().contains(e) && e.2 == j && e.1 <= i;
                    assert(min_heap.items().count(e) > 0);
                }
            }
        }
        return SearchEnd::Exhausted;
    }
    proof {
        assert forall|e: crate::heap::Entry| #[trigger] min_heap.items().contains(e) implies e.1 < a@.len() && e.2
            < b@.len() && lo1 <= e.0 <= hi1 && e.0 == sat(a@[e.1 as int].0 + b@[e.2 as int].0) by {}
        lemma_band_witness_u128(min_heap.items(), a@, b@, lo1, hi1);
    }
    let mut max_heap = crate::heap::MaxHeap::by_triples(d.len());
    for l in 0..d.len()
        invariant
            cv == wide(c@),
            dv == wide(d@),
            d@.len() <= u32::MAX,
            c@.len() <= u32::MAX,
            cd_high <= target < u128::MAX,
            sorted_by_sum(c@),
            lo2 == cd_low,
            hi2 == cd_high,
            max_heap.by_tuple(),
            forall|e: crate::heap::Entry| #[trigger] max_heap.items().contains(e) ==> e.1 < c@.len() && e.2
                < d@.len() && e.0 == sat(c@[e.1 as int].0 + d@[e.2 as int].0),
            forall|e: crate::heap::Entry| #[trigger] max_heap.items().contains(e) ==> lo2 <= e.0 <= hi2,
            forall|i: int, j: int, k: int, ll: int|
                ll < l && #[trigger] meets(av, bv, cv, dv, lo1, hi1, lo2, hi2, t, i, j, k, ll) ==> max_covers(
                    max_heap.items(),
                    cv,
                    k,
                    ll,
                ),
    {
        let need = cd_high.saturating_sub(d[l].0);
        let lb = lower_bound(c, need);
        let found = lb < c.len() && c[lb].0 == need;
        let ghost before = max_heap.items();
        let mut pushed = false;
        let mut pick: usize = 0;
        if found || lb > 0 {
            let i = if found {
                lb
            } else {
                lb - 1
            };
            pick = i;
            let sv = c[i].0.saturating_add(d[l].0);
            if sv >= cd_low && sv <= cd_high {
                let v = (sv, i as u32, l as u32);
                max_heap.push(v);
                pushed = true;
                proof {
                    assert forall|e: crate::heap::Entry| #[trigger] max_heap.items().contains(e) implies lo2 <= e.0
                        <= hi2 by {
                        if e != v {
                            assert(before.contains(e));
                        }
                    }
                    assert forall|e: crate::heap::Entry| #[trigger] max_heap.items().contains(e) implies e.1 < c@.len()
                        && e.2 < d@.len() && e.0 == sat(c@[e.1 as int].0 + d@[e.2 as int].0) by {
                        if e != v {
                            assert(before.contains(e));
                        }
                    }
                }
            }
        }
        proof {
            assert forall|i: int, j: int, k: int, ll: int|
                ll < l + 1 && #[trigger] meets(av, bv, cv, dv, lo1, hi1, lo2, hi2, t, i, j, k, ll) implies max_covers(
                max_heap.items(),
                cv,
                k,
                ll,
            ) by {
                if ll < l {
                    let e = choose|e: crate::heap::Entry| #[trigger] before.contains(e) && e.2 == ll && e.1 < cv.len()
                        && cv[e.1 as int].0 >= cv[k].0;
                    assert(max_heap.items().contains(e));
                } else {
                    assert(cv[k].0 == c@[k].0 && dv[ll].0 == d@[ll].0);
                    assert(c@[k].0 <= need);
                    if found {
                        assert(pick == lb);
                    } else {
                        if c@[k].0 == need {
                            assert(k >= lb);
                            lemma_ascending_u128(c@, lb as int, k);
                        }
                        assert(k < lb);
                        assert(pick == lb - 1);
                        lemma_ascending_u128(c@, k, pick as int);
                    }
                    assert(c@[pick as int].0 >= c@[k].0);
                    assert(pushed);
                    let e = (sat(c@[pick as int].0 + d@[ll].0) as u128, pick as u32, l as u32);
                    assert(max_heap.items().contains(e));
                    assert(cv[pick as int].0 == c@[pick as int].0);
                }
            }
        }
    }
    if max_heap.len() == 0 {
        proof {
            assert forall|i: int, j: int, k: int, l: int| !#[trigger] meets(av, bv, cv, dv, lo1, hi1, lo2, hi2, t, i, j, k, l) by {
                if meets(av, bv, cv, dv, lo1, hi1, lo2, hi2, t, i, j, k, l) {
                    let e = choose|e: crate::heap::Entry| #[trigger] max_heap.items().contains(e) && e.2 == l && e.1
                        < cv.len() && cv[e.1 as int].0 >= cv[k].0;
                    assert(max_heap.items().count(e) > 0);
                }
            }
        }
        return SearchEnd::Exhausted;
    }
    proof {
        lemma_band_witness_u128(max_heap.items(), c@, d@, lo2, hi2);
    }
    loop
        invariant
            in_band(av, bv, lo1, hi1),
            in_band(cv, dv, lo2, hi2),
            a_len == a@.len(),
            a_len <= u32::MAX,
            av == wide(a@),
            bv == wide(b@),
            cv == wide(c@),
            dv == wide(d@),
            sorted_by_sum(a@),
            sorted_by_sum(c@),
            lo1 == ab_low,
            hi1 == ab_high,
            lo2 == cd_low,
            hi2 == cd_high,
            lo1 == bounds.0,
            hi1 == bounds.1,
            lo2 == bounds.2,
            hi2 == bounds.3,
            t == target,
            wl == ahead(a_len as int),
            wr == behind(),
            target < u128::MAX,
            ab_high <= target,
            pairs_ok(a@, ints(qa@)),
            pairs_ok(b@, ints(qb@)),
            pairs_ok(c@, ints(qc@)),
            pairs_ok(d@, ints(qd@)),
            min_heap.by_tuple(),
            max_heap.by_tuple(),
            forall|e: crate::heap::Entry| #[trigger] min_heap.items().contains(e) ==> e.1 < a_len && e.2 < b@.len()
                && e.0 == a@[e.1 as int].0 + b@[e.2 as int].0,
            forall|e: crate::heap::Entry| #[trigger] max_heap.items().contains(e) ==> e.1 < c@.len() && e.2
                < d@.len() && e.0 == sat(c@[e.1 as int].0 + d@[e.2 as int].0),
            forall|i: int, j: int, k: int, l: int|
                #[trigger] meets(av, bv, cv, dv, lo1, hi1, lo2, hi2, t, i, j, k, l) ==> min_covers(min_heap.items(), i, j)
                    && max_covers(max_heap.items(), cv, k, l),
        decreases min_heap.weight(wl) + max_heap.weight(wr),
    {
        if crate::controller::flag_set(stop) {
            return SearchEnd::Stopped;
        }
        let (ab, ai, bi) = match min_heap.peek() {
            Some(e) => e,
            None => {
                proof {
                    assert forall|i: int, j: int, k: int, l: int| !#[trigger] meets(av, bv, cv, dv, lo1, hi1, lo2, hi2, t, i, j, k, l) by {
                        if meets(av, bv, cv, dv, lo1, hi1, lo2, hi2, t, i, j, k, l) {
                            let e = choose|e: crate::heap::Entry| #[trigger] min_heap.items().contains(e) && e.2 == j && e.1 <= i;
                            assert(min_heap.items().count(e) > 0);
                        }
                    }
                }
                return SearchEnd::Exhausted;
            },
        };
        let ghost top_ab = (ab, ai, bi);
        if ab > ab_high || ai as usize >= a.len() {
            proof {
                assert forall|i: int, j: int, k: int, l: int| !#[trigger] meets(av, bv, cv, dv, lo1, hi1, lo2, hi2, t, i, j, k, l) by {
                    if meets(av, bv, cv, dv, lo1, hi1, lo2, hi2, t, i, j, k, l) {
                        let e = choose|e: crate::heap::Entry| #[trigger] min_heap.items().contains(e) && e.2 == j && e.1 <= i;
                        assert(crate::heap::no_later(top_ab, e, true));
                        lemma_ascending_u128(a@, e.1 as int, i);
                        assert(av[i].0 == a@[i].0 && bv[j].0 == b@[j].0);
                    }
                }
            }
            return SearchEnd::Exhausted;
        }
        let (cd, ci, di) = match max_heap.peek() {
            Some(e) => e,
            None => {
                proof {
                    assert forall|i: int, j: int, k: int, l: int| !#[trigger] meets(av, bv, cv, dv, lo1, hi1, lo2, hi2, t, i, j, k, l) by {
                        if meets(av, bv, cv, dv, lo1, hi1, lo2, hi2, t, i, j, k, l) {
                            let e = choose|e: crate::heap::Entry| #[trigger] max_heap.items().contains(e) && e.2 == l && e.1
                                < cv.len() && cv[e.1 as int].0 >= cv[k].0;
                            assert(max_heap.items().count(e) > 0);
                        }
                    }
                }
                return SearchEnd::Exhausted;
            },
        };
        let ghost top_cd = (cd, ci, di);
        if cd < cd_low {
            proof {
                assert forall|i: int, j: int, k: int, l: int| !#[trigger] meets(av, bv, cv, dv, lo1, hi1, lo2, hi2, t, i, j, k, l) by {
                    if meets(av, bv, cv, dv, lo1, hi1, lo2, hi2, t, i, j, k, l) {
                        let e = choose|e: crate::heap::Entry| #[trigger] max_heap.items().contains(e) && e.2 == l && e.1
                            < cv.len() && cv[e.1 as int].0 >= cv[k].0;
                        assert(crate::heap::no_later(e, top_cd, true));
                        assert(cv[k].0 == c@[k].0 && dv[l].0 == d@[l].0 && cv[e.1 as int].0 == c@[e.1 as int].0);
                    }
                }
            }
            return SearchEnd::Exhausted;
        }
        let ghost min_before = min_heap.items();
        let ghost max_before = max_heap.items();
        let ghost w0 = min_heap.weight(wl);
        let ghost w1 = max_heap.weight(wr);
        let overflow = ab.checked_add(cd).is_none();
        let total = ab.saturating_add(cd);
        if !overflow && total == target {
            let sol = four_quarters(
                qa,
                qb,
                qc,
                qd,
                a[ai as usize].1,
                b[bi as usize].1,
                c[ci as usize].1,
                d[di as usize].1,
            );
            proof {
                assert(quarter_picks(ints(qa@), ints(qb@), ints(qc@), ints(qd@), a@[ai as int].1, b@[bi as int].1, c@[ci as int].1, d@[di as int].1) == ints(sol@));
            }
            return SearchEnd::Found(sol);
        } else if !overflow && total < target {
            min_heap.pop();
            proof {
                assert(min_heap.weight(wl) + wl(top_ab) == w0);
            }
            let ghost after_pop = min_heap.items();
            let nai = ai as usize + 1;
            let mut pushed = false;
            if nai < a.len() {
                let ns = a[nai].0.saturating_add(b[bi as usize].0);
                if ns <= ab_high {
                    assert((nai as u32) == ai + 1);
                    let ghost w2 = min_heap.weight(wl);
                    min_heap.push((ns, nai as u32, bi));
                    pushed = true;
                    proof {
                        assert(min_heap.weight(wl) == w2 + wl((ns, nai as u32, bi)));
                    }
                }
            }
            proof {
                assert forall|e: crate::heap::Entry| #[trigger] min_heap.items().contains(e) implies e.1 < a_len && e.2
                    < b@.len() && e.0 == a@[e.1 as int].0 + b@[e.2 as int].0 by {
                    if !min_before.contains(e) {
                        assert(e.2 == bi && e.1 == ai + 1);
                    }
                }
                assert forall|i: int, j: int, k: int, l: int|
                    #[trigger] meets(av, bv, cv, dv, lo1, hi1, lo2, hi2, t, i, j, k, l) implies min_covers(
                    min_heap.items(),
                    i,
                    j,
                ) && max_covers(max_heap.items(), cv, k, l) by {
                    assert(av[i].0 == a@[i].0 && bv[j].0 == b@[j].0 && cv[k].0 == c@[k].0 && dv[l].0 == d@[l].0);
                    let e = choose|e: crate::heap::Entry| #[trigger] min_before.contains(e) && e.2 == j && e.1 <= i;
                    if e == top_ab {
                        let f = choose|f: crate::heap::Entry| #[trigger] max_before.contains(f) && f.2 == l && f.1
                            < cv.len() && cv[f.1 as int].0 >= cv[k].0;
                        assert(crate::heap::no_later(f, top_cd, true));
                        assert(cv[f.1 as int].0 == c@[f.1 as int].0);
                        if i <= ai {
                            lemma_ascending_u128(a@, i, ai as int);
                        }
                        assert(i > ai);
                        lemma_ascending_u128(a@, ai + 1, i);
                        assert(pushed);
                        let g = ((a@[ai + 1].0 + b@[j].0) as u128, (ai + 1) as u32, bi);
                        assert(min_heap.items().contains(g));
                    } else {
                        assert(after_pop.contains(e));
                        assert(min_heap.items().contains(e));
                    }
                }
            }
        } else {
            max_heap.pop();
            proof {
                assert(max_heap.weight(wr) + wr(top_cd) == w1);
            }
            let ghost after_pop = max_heap.items();
            let mut pushed = false;
            if ci > 0 {
                let ns = c[ci as usize - 1].0.saturating_add(d[di as usize].0);
                if ns >= cd_low {
                    let ghost w2 = max_heap.weight(wr);
                    max_heap.push((ns, ci - 1, di));
                    pushed = true;
                    proof {
                        assert(max_heap.weight(wr) == w2 + wr((ns, (ci - 1) as u32, di)));
                    }
                }
            }
            proof {
                assert forall|e: crate::heap::Entry| #[trigger] max_heap.items().contains(e) implies e.1 < c@.len() && e.2
                    < d@.len() && e.0 == sat(c@[e.1 as int].0 + d@[e.2 as int].0) by {
                    if !max_before.contains(e) {
                        assert(e.2 == di && e.1 + 1 == ci);
                    }
                }
                assert forall|i: int, j: int, k: int, l: int|
                    #[trigger] meets(av, bv, cv, dv, lo1, hi1, lo2, hi2, t, i, j, k, l) implies min_covers(
                    min_heap.items(),
                    i,
                    j,
                ) && max_covers(max_heap.items(), cv, k, l) by {
                    assert(av[i].0 == a@[i].0 && bv[j].0 == b@[j].0 && cv[k].0 == c@[k].0 && dv[l].0 == d@[l].0);
                    let f = choose|f: crate::heap::Entry| #[trigger] max_before.contains(f) && f.2 == l && f.1 < cv.len()
                        && cv[f.1 as int].0 >= cv[k].0;
                    if f == top_cd {
                        let e = choose|e: crate::heap::Entry| #[trigger] min_before.contains(e) && e.2 == j && e.1 <= i;
                        assert(crate::heap::no_later(top_ab, e, true));
                        lemma_ascending_u128(a@, e.1 as int, i);
                        if k >= ci {
                            lemma_ascending_u128(c@, ci as int, k);
                        }
                        assert(k < ci);
                        lemma_ascending_u128(c@, k, ci - 1);
                        assert(pushed);
                        let g = (sat(c@[ci - 1].0 + d@[l].0) as u128, (ci - 1) as u32, di);
                        assert(max_heap.items().contains(g));
                        assert(cv[ci - 1].0 == c@[ci - 1].0);
                    } else {
                        assert(after_pop.contains(f));
                        assert(max_heap.items().contains(f));
                    }
                }
            }
        }
    }
}

/// Every selection of the first `k` values has a mask (within the first
/// `k` positions) with the same sum.
pub proof fn lemma_sel_mask(e: Seq<int>, sel: Seq<bool>, k: int)
    requires
        sel.len() == e.len(),
        e.len() < 64,
        0 <= k <= e.len(),
        forall|i: int| 0 <= i < e.len() ==> e[i] >= 0,
    ensures
        exists|m: u64| fits(m, k) && #[trigger] mask_sum(e, m) == sel_sum(e, sel.take(k)),
    decreases k,
{
    if k == 0 {
        lemma_zero_no_bits(0u64);
        lemma_picked_gap(e, 0u64, 0, e.len() as int);
        assert(picked(e, 0u64, 0) =~= Seq::<int>::empty());
        assert(sel.take(0) =~= Seq::<bool>::empty());
        assert(fits(0u64, 0));
        assert(mask_sum(e, 0u64) == sel_sum(e, sel.take(0)));
    } else {
        lemma_sel_mask(e, sel, k - 1);
        let m = choose|m: u64| fits(m, k - 1) && #[trigger] mask_sum(e, m) == sel_sum(e, sel.take(k - 1));
        assert(sel.take(k).drop_last() =~= sel.take(k - 1));
        let s = sel_sum(e, sel.take(k - 1));
        if sel[k - 1] {
            assert(reach(e, k - 1, s));
            crate::engines::mitm::lemma_new_entry(e, k - 1, s, m);
            let m2 = m | (1u64 << ((k - 1) as u64));
            assert(mask_sum(e, m2) == sel_sum(e, sel.take(k)));
        } else {
            assert(fits(m, k));
            assert(mask_sum(e, m) == sel_sum(e, sel.take(k)));
        }
    }
}

/// A mask below `k` whose sum stays within `target` is listed by `mask_pairs`.
pub proof fn lemma_mask_pairs_has(e: Seq<int>, target: int, k: int, m: u64)
    requires
        0 <= m < k,
        0 <= mask_sum(e, m) <= target,
    ensures
        mask_pairs(e, target, k).contains((mask_sum(e, m) as u128, m)),
    decreases k,
{
    let p = mask_pairs(e, target, k - 1);
    if m == k - 1 {
        assert(mask_pairs(e, target, k) == p.push((mask_sum(e, m) as u128, m)));
        assert(mask_pairs(e, target, k)[p.len() as int] == (mask_sum(e, m) as u128, m));
    } else {
        lemma_mask_pairs_has(e, target, k - 1, m);
        let i = choose|i: int| 0 <= i < p.len() && p[i] == (mask_sum(e, m) as u128, m);
        let mk = (k - 1) as u64;
        if mask_sum(e, mk) <= target {
            assert(mask_pairs(e, target, k)[i] == p[i]);
        }
    }
}

} // verus!
