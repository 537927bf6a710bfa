//! Subset sums and the Schroeppel–Shamir partition search over big numbers,
//! for instances whose values do not fit in 128 bits.
use crate::bigheap::{over, value_of, BigHeap, EntryValue};
use crate::bignum::BigNum;
use vstd::multiset::Multiset;
use crate::bits::{
    bit, fits, lemma_clear_lowest, lemma_clear_lowest_smaller, lemma_lt_pow_fits, lemma_picked_beyond,
    lemma_picked_gap, lemma_picked_mono, lemma_picked_step, lemma_zero_no_bits, mask_sum, picked,
};
use crate::knapsack::{in_band, is_quarter_pick, max_covers, meets, min_covers, part_edge, quarter_picks, SearchEnd};
use crate::profile::big_values;
use crate::spec::{is_sub_multiset, sum_of};
use vstd::prelude::*;

verus! {

broadcast use vstd::multiset::group_multiset_axioms;

/// The values of `(sum, mask)` pairs.
pub open spec fn pair_values(s: Seq<(BigNum, u64)>) -> Seq<(nat, u64)> {
    s.map_values(|p: (BigNum, u64)| (p.0@, p.1))
}

/// The `(sum, mask)` pairs, in mask order, of the masks below `k` whose
/// selected elements sum to at most `target`.
pub open spec fn big_mask_pairs(e: Seq<int>, target: int, k: int) -> Seq<(nat, u64)>
    decreases k,
{
    if k <= 0 {
        Seq::empty()
    } else {
        let p = big_mask_pairs(e, target, k - 1);
        let m = (k - 1) as u64;
        if mask_sum(e, m) <= target {
            p.push((mask_sum(e, m) as nat, m))
        } else {
            p
        }
    }
}

/// Lexicographic order on `(sum, mask)` values.
pub open spec fn value_pair_le(a: (nat, u64), b: (nat, u64)) -> bool {
    a.0 < b.0 || (a.0 == b.0 && a.1 <= b.1)
}

/// The pairs are in lexicographic order.
pub open spec fn sorted_values(s: Seq<(nat, u64)>) -> bool {
    forall|i: int, j: int| 0 <= i < j < s.len() ==> value_pair_le(#[trigger] s[i], #[trigger] s[j])
}

/// `p` is a subset sum of `e` with the mask of that subset.
pub open spec fn big_pair_ok(p: (nat, u64), e: Seq<int>) -> bool {
    p.0 == mask_sum(e, p.1) && fits(p.1, e.len() as int)
}

/// Every pair of `s` is a subset sum of `e` with a fitting mask.
pub open spec fn big_pairs_ok(s: Seq<(nat, u64)>, e: Seq<int>) -> bool {
    forall|i: int| 0 <= i < s.len() ==> big_pair_ok(#[trigger] s[i], e)
}

proof fn lemma_pair_values_push(s: Seq<(BigNum, u64)>, x: (BigNum, u64))
    ensures
        pair_values(s.push(x)) == pair_values(s).push((x.0@, x.1)),
{
    assert(pair_values(s.push(x)) =~= pair_values(s).push((x.0@, x.1)));
}

proof fn lemma_big_values_push(s: Seq<BigNum>, x: BigNum)
    ensures
        big_values(s.push(x)) == big_values(s).push(x@ as int),
{
    assert(big_values(s.push(x)) =~= big_values(s).push(x@ as int));
}

fn value_pair_leq(a: &(BigNum, u64), b: &(BigNum, u64)) -> (r: bool)
    ensures
        r == value_pair_le((a.0@, a.1), (b.0@, b.1)),
{
    if a.0.less_than(&b.0) {
        true
    } else {
        a.0.equals(&b.0) && a.1 <= b.1
    }
}

/// Merge two sorted runs into one sorted run holding (copies of) both.
fn merge_big(a: &Vec<(BigNum, u64)>, b: &Vec<(BigNum, u64)>) -> (r: Vec<(BigNum, u64)>)
    requires
        sorted_values(pair_values(a@)),
        sorted_values(pair_values(b@)),
    ensures
        sorted_values(pair_values(r@)),
        pair_values(r@).to_multiset() == pair_values(a@).to_multiset().add(pair_values(b@).to_multiset()),
{
    broadcast use vstd::seq_lib::group_to_multiset_ensures;

    let ghost av = pair_values(a@);
    let ghost bv = pair_values(b@);
    let mut r: Vec<(BigNum, u64)> = Vec::new();
    let mut i: usize = 0;
    let mut j: usize = 0;
    assert(av.take(0) =~= Seq::<(nat, u64)>::empty());
    assert(bv.take(0) =~= Seq::<(nat, u64)>::empty());
    assert(pair_values(r@) =~= Seq::<(nat, u64)>::empty());
    while i < a.len() || j < b.len()
        invariant
            av == pair_values(a@),
            bv == pair_values(b@),
            i <= a.len(),
            j <= b.len(),
            sorted_values(av),
            sorted_values(bv),
            sorted_values(pair_values(r@)),
            r@.len() == i + j,
            pair_values(r@).to_multiset() == av.take(i as int).to_multiset().add(bv.take(j as int).to_multiset()),
            r@.len() > 0 && i < a.len() ==> value_pair_le(pair_values(r@).last(), av[i as int]),
            r@.len() > 0 && j < b.len() ==> value_pair_le(pair_values(r@).last(), bv[j as int]),
        decreases a.len() + b.len() - i - j,
    {
        let take_a = if i < a.len() && j < b.len() {
            value_pair_leq(&a[i], &b[j])
        } else {
            i < a.len()
        };
        let ghost old_r = pair_values(r@);
        let ghost old_s = r@;
        if take_a {
            let x = (a[i].0.copy(), a[i].1);
            r.push(x);
            proof {
                lemma_pair_values_push(old_s, x);
                assert((x.0@, x.1) == av[i as int]);
                assert(av.take(i + 1) =~= av.take(i as int).push(av[i as int]));
                vstd::seq_lib::to_multiset_build(old_r, av[i as int]);
                vstd::seq_lib::to_multiset_build(av.take(i as int), av[i as int]);
                assert(pair_values(r@).to_multiset() =~= av.take(i + 1).to_multiset().add(bv.take(j as int).to_multiset()));
            }
            i = i + 1;
        } else {
            let x = (b[j].0.copy(), b[j].1);
            r.push(x);
            proof {
                lemma_pair_values_push(old_s, x);
                assert((x.0@, x.1) == bv[j as int]);
                assert(bv.take(j + 1) =~= bv.take(j as int).push(bv[j as int]));
                vstd::seq_lib::to_multiset_build(old_r, bv[j as int]);
                vstd::seq_lib::to_multiset_build(bv.take(j as int), bv[j as int]);
                assert(pair_values(r@).to_multiset() =~= av.take(i as int).to_multiset().add(bv.take(j + 1).to_multiset()));
            }
            j = j + 1;
        }
        proof {
            let rv = pair_values(r@);
            assert(rv =~= old_r.push(rv.last()));
            assert forall|p: int, q: int| 0 <= p < q < rv.len() implies value_pair_le(#[trigger] rv[p], #[trigger] rv[q]) by {
                if q == rv.len() - 1 && p < q {
                    assert(value_pair_le(old_r[p], old_r.last()) || p == old_r.len() - 1);
                }
            }
        }
    }
    assert(av.take(a.len() as int) =~= av);
    assert(bv.take(b.len() as int) =~= bv);
    r
}

/// Sorted copy of `v[lo..hi]`.
fn sort_big_range(v: &Vec<(BigNum, u64)>, lo: usize, hi: usize) -> (r: Vec<(BigNum, u64)>)
    requires
        lo <= hi <= v.len(),
    ensures
        sorted_values(pair_values(r@)),
        pair_values(r@).to_multiset() == pair_values(v@).subrange(lo as int, hi as int).to_multiset(),
    decreases hi - lo,
{
    broadcast use vstd::seq_lib::group_to_multiset_ensures;

    let ghost vv = pair_values(v@);
    if hi - lo <= 1 {
        let mut r: Vec<(BigNum, u64)> = Vec::new();
        if hi - lo == 1 {
            let x = (v[lo].0.copy(), v[lo].1);
            r.push(x);
            assert(pair_values(r@) =~= vv.subrange(lo as int, hi as int));
        } else {
            assert(pair_values(r@) =~= vv.subrange(lo as int, hi as int));
        }
        r
    } else {
        let mid = lo + (hi - lo) / 2;
        let a = sort_big_range(v, lo, mid);
        let b = sort_big_range(v, mid, hi);
        let r = merge_big(&a, &b);
        assert(vv.subrange(lo as int, hi as int) =~= vv.subrange(lo as int, mid as int) + vv.subrange(
            mid as int,
            hi as int,
        ));
        proof {
            vstd::seq_lib::lemma_multiset_commutative(vv.subrange(lo as int, mid as int), vv.subrange(mid as int, hi as int));
        }
        r
    }
}

/// Copies of the pairs of `v` in lexicographic order of their values.
pub fn sort_big_pairs(v: &Vec<(BigNum, u64)>) -> (r: Vec<(BigNum, u64)>)
    ensures
        sorted_values(pair_values(r@)),
        pair_values(r@).to_multiset() == pair_values(v@).to_multiset(),
{
    let r = sort_big_range(v, 0, v.len());
    assert(pair_values(v@).subrange(0, v@.len() as int) =~= pair_values(v@));
    r
}

/// Sum of the elements `mask` selects, or `None` once it exceeds `target`.
fn bounded_mask_sum_big(elems: &[BigNum], mask: u64, target: &BigNum) -> (r: Option<BigNum>)
    requires
        fits(mask, elems@.len() as int),
        elems@.len() <= 64,
    ensures
        match r {
            Some(s) => s@ == mask_sum(big_values(elems@), mask) && s@ <= target@,
            None => mask_sum(big_values(elems@), mask) > target@,
        },
{
    let ghost e = big_values(elems@);
    let ghost n = elems@.len() as int;
    let mut s = BigNum::zero();
    let mut m = mask;
    let mut exceeded = false;
    let ghost mut lo: int = 0;
    while m != 0 && !exceeded
        invariant
            0 <= lo <= n,
            e == big_values(elems@),
            n == elems@.len(),
            n <= 64,
            fits(mask, n),
            forall|i: int| 0 <= i < 64 ==> (#[trigger] bit(m, i) <==> bit(mask, i) && i >= lo),
            !exceeded ==> s@ == sum_of(picked(e, mask, lo)) && s@ <= target@,
            exceeded ==> mask_sum(e, mask) > target@,
        decreases m, (if exceeded { 0int } else { 1int }),
    {
        proof {
            lemma_clear_lowest(m);
            lemma_clear_lowest_smaller(m);
        }
        let t = m.trailing_zeros() as usize;
        proof {
            assert(bit(mask, t as int) && t >= lo);
            assert(t < n);
            assert forall|i: int| lo <= i < t implies !#[trigger] bit(mask, i) by {
                if bit(mask, i) {
                    assert(bit(m, i));
                }
            }
            lemma_picked_gap(e, mask, lo, t as int);
            lemma_picked_step(e, mask, t + 1);
            assert forall|i: int| 0 <= i < e.len() implies e[i] >= 0 by {}
            lemma_picked_mono(e, mask, t + 1, n);
            assert(e[t as int] == elems@[t as int]@);
        }
        let ns = s.plus(&elems[t]);
        if target.less_than(&ns) {
            exceeded = true;
        } else {
            s = ns;
            let ghost old_m = m;
            m = m & (m - 1);
            proof {
                lo = t + 1;
                assert forall|i: int| 0 <= i < 64 implies (#[trigger] bit(m, i) <==> bit(mask, i) && i >= lo) by {
                    if i != t {
                        assert(bit(m, i) == bit(old_m, i));
                    }
                }
            }
        }
    }
    if exceeded {
        None
    } else {
        proof {
            lemma_zero_no_bits(m);
            assert forall|i: int| lo <= i < 64 implies !#[trigger] bit(mask, i) by {
                if bit(mask, i) {
                    assert(bit(m, i));
                }
            }
            lemma_picked_gap(e, mask, lo, 64);
            lemma_picked_beyond(e, mask, 64);
        }
        Some(s)
    }
}

/// Every pair that `big_mask_pairs` lists is a subset sum with a fitting mask.
pub proof fn lemma_big_mask_pairs_ok(e: Seq<int>, target: int, k: int)
    requires
        e.len() < 64,
        k <= (1u64 << e.len()),
        forall|i: int| 0 <= i < e.len() ==> e[i] >= 0,
    ensures
        big_pairs_ok(big_mask_pairs(e, target, k), e),
    decreases k,
{
    if k > 0 {
        lemma_big_mask_pairs_ok(e, target, k - 1);
        let m = (k - 1) as u64;
        lemma_lt_pow_fits(m, e.len() as u64);
        crate::gray::lemma_picked_le_prefix(e, m, e.len() as int);
        lemma_picked_mono(e, m, 0, e.len() as int);
        let p = big_mask_pairs(e, target, k - 1);
        if mask_sum(e, m) <= target {
            assert(big_mask_pairs(e, target, k) == p.push((mask_sum(e, m) as nat, m)));
        } else {
            assert(big_mask_pairs(e, target, k) == p);
        }
    }
}

/// Pairs with the same multiset as a list of good pairs are good.
proof fn lemma_big_pairs_ok_perm(r: Seq<(nat, u64)>, s: Seq<(nat, u64)>, e: Seq<int>)
    requires
        r.to_multiset() == s.to_multiset(),
        big_pairs_ok(s, e),
    ensures
        big_pairs_ok(r, e),
{
    broadcast use vstd::seq_lib::group_to_multiset_ensures;

    assert forall|i: int| 0 <= i < r.len() implies big_pair_ok(#[trigger] r[i], e) by {
        assert(r.to_multiset().count(r[i]) > 0);
        assert(s.to_multiset().count(r[i]) > 0);
        let j = choose|j: int| 0 <= j < s.len() && s[j] == r[i];
    }
}

/// Subset sums of `elems`, in lexicographic order of `(sum, mask)`, keeping
/// only the sums that do not exceed `target`. Each kept subset appears once,
/// with the mask of the positions it selects. More than 20 elements give no
/// sums.
pub fn subset_sums_big(elems: &[BigNum], target: &BigNum) -> (r: Vec<(BigNum, u64)>)
    ensures
        elems@.len() > 20 ==> r@.len() == 0,
        elems@.len() <= 20 ==> pair_values(r@).to_multiset() == big_mask_pairs(
            big_values(elems@),
            target@ as int,
            (1u64 << elems@.len()) as int,
        ).to_multiset(),
        sorted_values(pair_values(r@)),
        big_pairs_ok(pair_values(r@), big_values(elems@)),
{
    let n = elems.len();
    if n > 20 {
        let r: Vec<(BigNum, u64)> = Vec::new();
        assert(pair_values(r@) =~= Seq::<(nat, u64)>::empty());
        return r;
    }
    let total: u64 = 1u64 << (n as u64);
    let ghost e = big_values(elems@);
    let mut sums: Vec<(BigNum, u64)> = Vec::new();
    let mut mask: u64 = 0;
    assert(pair_values(sums@) =~= Seq::<(nat, u64)>::empty());
    while mask < total
        invariant
            n == elems@.len(),
            n <= 20,
            total == 1u64 << (n as u64),
            mask <= total,
            e == big_values(elems@),
            pair_values(sums@) == big_mask_pairs(e, target@ as int, mask as int),
        decreases total - mask,
    {
        proof {
            lemma_lt_pow_fits(mask, n as u64);
        }
        match bounded_mask_sum_big(elems, mask, target) {
            Some(s) => {
                let ghost before = sums@;
                let x = (s, mask);
                sums.push(x);
                proof {
                    lemma_pair_values_push(before, x);
                }
            },
            None => {},
        }
        mask = mask + 1;
    }
    let r = sort_big_pairs(&sums);
    proof {
        assert(n < 64);
        assert forall|i: int| 0 <= i < e.len() implies e[i] >= 0 by {}
        lemma_big_mask_pairs_ok(e, target@ as int, total as int);
        lemma_big_pairs_ok_perm(pair_values(r@), pair_values(sums@), e);
    }
    r
}

/// The elements of `nums` at the set bits of `mask`, lowest bit first.
pub fn mask_to_vec_big(nums: &[BigNum], mask: u64) -> (v: Vec<BigNum>)
    requires
        fits(mask, nums@.len() as int),
    ensures
        big_values(v@) == picked(big_values(nums@), mask, nums@.len() as int),
{
    let ghost e = big_values(nums@);
    let ghost n = nums@.len() as int;
    let mut v: Vec<BigNum> = Vec::new();
    let mut m = mask;
    let ghost mut lo: int = 0;
    assert(big_values(v@) =~= Seq::<int>::empty());
    while m != 0
        invariant
            0 <= lo <= 64,
            e == big_values(nums@),
            n == nums@.len(),
            fits(mask, n),
            forall|i: int| 0 <= i < 64 ==> (#[trigger] bit(m, i) <==> bit(mask, i) && i >= lo),
            big_values(v@) == picked(e, mask, lo),
        decreases m,
    {
        proof {
            lemma_clear_lowest(m);
            lemma_clear_lowest_smaller(m);
        }
        let t = m.trailing_zeros() as usize;
        proof {
            assert(bit(mask, t as int) && t >= lo);
            assert(t < n);
            assert forall|i: int| lo <= i < t implies !#[trigger] bit(mask, i) by {
                if bit(mask, i) {
                    assert(bit(m, i));
                }
            }
            lemma_picked_gap(e, mask, lo, t as int);
        }
        let ghost old_v = v@;
        let x = nums[t].copy();
        v.push(x);
        let ghost old_m = m;
        m = m & (m - 1);
        proof {
            lemma_big_values_push(old_v, x);
            assert(e[t as int] == nums@[t as int]@);
            lo = t + 1;
            assert forall|i: int| 0 <= i < 64 implies (#[trigger] bit(m, i) <==> bit(mask, i) && i >= lo) by {
                if i != t {
                    assert(bit(m, i) == bit(old_m, i));
                }
            }
        }
    }
    proof {
        lemma_zero_no_bits(m);
        assert forall|i: int| lo <= i < 64 implies !#[trigger] bit(mask, i) by {
            if bit(mask, i) {
                assert(bit(m, i));
            }
        }
        lemma_picked_gap(e, mask, lo, 64);
        if n <= 64 {
            lemma_picked_beyond(e, mask, 64);
        } else {
            lemma_picked_gap(e, mask, 64, n);
        }
    }
    v
}

/// The sum ranges of partition `pid` of `parts`: A+B sums in
/// `[ab_low, ab_high]` and C+D sums in `[cd_low, cd_high]`, or `None` when
/// the A+B range is empty.
pub fn partition_bounds_big(target: &BigNum, pid: u64, parts: u64) -> (r: Option<(BigNum, BigNum, BigNum, BigNum)>)
    requires
        pid < parts,
    ensures
        match r {
            Some((ab_low, ab_high, cd_low, cd_high)) => {
                &&& ab_low@ == part_edge(target@ as int, pid as int, parts as int)
                &&& ab_high@ == part_edge(target@ as int, pid + 1, parts as int)
                &&& ab_low@ < ab_high@
                &&& cd_high@ == target@ - ab_low@
                &&& cd_low@ == if ab_high@ <= target@ {
                    target@ - ab_high@
                } else {
                    0
                }
            },
            None => part_edge(target@ as int, pid as int, parts as int) >= part_edge(target@ as int, pid + 1, parts as int),
        },
{
    let n_big = BigNum::from_u128(parts as u128);
    let pid_big = BigNum::from_u128(pid as u128);
    let next_big = BigNum::from_u128((pid + 1) as u128);
    let ab_low = target.times(&pid_big).divided_by(&n_big);
    let ab_high = target.times(&next_big).divided_by(&n_big);
    if !ab_low.less_than(&ab_high) {
        return None;
    }
    proof {
        let t = target@ as int;
        assert(t * pid <= t * parts) by (nonlinear_arith)
            requires
                pid < parts,
                t >= 0,
        ;
        assert(t * pid / (parts as int) <= t * parts / (parts as int)) by (nonlinear_arith)
            requires
                t * pid <= t * parts,
                parts > 0,
        ;
        assert(t * parts / (parts as int) == t) by (nonlinear_arith)
            requires
                parts > 0,
        ;
    }
    let cd_high = target.minus(&ab_low);
    let cd_low = if ab_high.less_than(target) || ab_high.equals(target) {
        target.minus(&ab_high)
    } else {
        BigNum::zero()
    };
    Some((ab_low, ab_high, cd_low, cd_high))
}

/// First position of `v` (sorted by value) whose sum is at least `key`.
pub fn lower_bound_big(v: &[(BigNum, u64)], key: &BigNum) -> (r: usize)
    requires
        sorted_values(pair_values(v@)),
    ensures
        r <= v@.len(),
        forall|i: int| 0 <= i < r ==> (#[trigger] pair_values(v@)[i]).0 < key@,
        forall|i: int| r <= i < v@.len() ==> (#[trigger] pair_values(v@)[i]).0 >= key@,
{
    let ghost pv = pair_values(v@);
    let mut lo: usize = 0;
    let mut hi: usize = v.len();
    while lo < hi
        invariant
            pv == pair_values(v@),
            lo <= hi <= v@.len(),
            sorted_values(pv),
            forall|i: int| 0 <= i < lo ==> (#[trigger] pv[i]).0 < key@,
            forall|i: int| hi <= i < v@.len() ==> (#[trigger] pv[i]).0 >= key@,
        decreases hi - lo,
    {
        let mid = lo + (hi - lo) / 2;
        proof {
            assert(pv[mid as int].0 == v@[mid as int].0@);
            assert forall|i: int| 0 <= i < mid implies #[trigger] pv[i].0 <= pv[mid as int].0 by {
                assert(value_pair_le(pv[i], pv[mid as int]));
            }
            assert forall|i: int| mid < i < v@.len() implies #[trigger] pv[i].0 >= pv[mid as int].0 by {
                assert(value_pair_le(pv[mid as int], pv[i]));
            }
        }
        if v[mid].0.less_than(key) {
            lo = mid + 1;
        } else {
            hi = mid;
        }
    }
    lo
}

/// The answer made of what four masks pick from four quarters; it sums to
/// the four subset sums together.
fn four_quarters_big(
    qa: &[BigNum],
    qb: &[BigNum],
    qc: &[BigNum],
    qd: &[BigNum],
    ma: u64,
    mb: u64,
    mc: u64,
    md: u64,
) -> (sol: Vec<BigNum>)
    requires
        fits(ma, qa@.len() as int),
        fits(mb, qb@.len() as int),
        fits(mc, qc@.len() as int),
        fits(md, qd@.len() as int),
    ensures
        is_sub_multiset(
            big_values(sol@),
            big_values(qa@) + big_values(qb@) + big_values(qc@) + big_values(qd@),
        ),
        sum_of(big_values(sol@)) == mask_sum(big_values(qa@), ma) + mask_sum(big_values(qb@), mb) + mask_sum(
            big_values(qc@),
            mc,
        ) + mask_sum(big_values(qd@), md),
        big_values(sol@) == quarter_picks(
            big_values(qa@),
            big_values(qb@),
            big_values(qc@),
            big_values(qd@),
            ma,
            mb,
            mc,
            md,
        ),
{
    let mut sol = mask_to_vec_big(qa, ma);
    let mut x = mask_to_vec_big(qb, mb);
    let mut y = mask_to_vec_big(qc, mc);
    let mut z = mask_to_vec_big(qd, md);
    let ghost p0 = big_values(sol@);
    let ghost p1 = big_values(x@);
    let ghost p2 = big_values(y@);
    let ghost p3 = big_values(z@);
    let ghost (s0, s1, s2, s3) = (sol@, x@, y@, z@);
    sol.append(&mut x);
    sol.append(&mut y);
    sol.append(&mut z);
    proof {
        assert(sol@ =~= s0 + s1 + s2 + s3);
        assert(big_values(sol@) =~= p0 + p1 + p2 + p3);
        crate::bits::lemma_picked_in(big_values(qa@), ma);
        crate::bits::lemma_picked_in(big_values(qb@), mb);
        crate::bits::lemma_picked_in(big_values(qc@), mc);
        crate::bits::lemma_picked_in(big_values(qd@), md);
        crate::spec::lemma_sub_multiset_concat(p0, p1, big_values(qa@), big_values(qb@));
        crate::spec::lemma_sub_multiset_concat(p0 + p1, p2, big_values(qa@) + big_values(qb@), big_values(qc@));
        crate::spec::lemma_sub_multiset_concat(
            p0 + p1 + p2,
            p3,
            big_values(qa@) + big_values(qb@) + big_values(qc@),
            big_values(qd@),
        );
        crate::spec::lemma_sum_of_concat(p0, p1);
        crate::spec::lemma_sum_of_concat(p0 + p1, p2);
        crate::spec::lemma_sum_of_concat(p0 + p1 + p2, p3);
    }
    sol
}

/// Work left for an A+B entry: the A positions it may still advance over.
pub open spec fn ahead_big(len: int) -> spec_fn(EntryValue) -> nat {
    |e: EntryValue| if e.1 < len {
        (len - e.1) as nat
    } else {
        0
    }
}

/// Work left for a C+D entry: the C positions it may still retreat over.
pub open spec fn behind_big() -> spec_fn(EntryValue) -> nat {
    |e: EntryValue| (e.1 + 1) as nat
}

/// Every entry of `h` is the sum of the `e.1`-th pair of `x` and the `e.2`-th
/// pair of `y`.
pub open spec fn entries_from(h: Multiset<EntryValue>, x: Seq<(nat, u64)>, y: Seq<(nat, u64)>) -> bool {
    forall|e: EntryValue| #[trigger] h.contains(e) ==> e.1 < x.len() && e.2 < y.len() && e.0 == x[e.1 as int].0
        + y[e.2 as int].0
}

/// Every entry of `h` lies in `lo..=hi`.
pub open spec fn heap_in_band(h: Multiset<EntryValue>, lo: int, hi: int) -> bool {
    forall|e: EntryValue| #[trigger] h.contains(e) ==> lo <= e.0 <= hi
}

/// A nonempty heap of pair sums that all lie in the band shows that some
/// pair lies in it.
proof fn lemma_band_witness(h: Multiset<EntryValue>, x: Seq<(nat, u64)>, y: Seq<(nat, u64)>, lo: int, hi: int)
    requires
        h.len() > 0,
        entries_from(h, x, y),
        heap_in_band(h, lo, hi),
    ensures
        in_band(x, y, lo, hi),
{
    let e = h.choose();
    assert(h.count(e) > 0);
    assert(h.contains(e));
    assert(lo <= x[e.1 as int].0 + y[e.2 as int].0 <= hi);
}

proof fn lemma_ascending(v: Seq<(nat, u64)>, i: int, j: int)
    requires
        sorted_values(v),
        0 <= i <= j < v.len(),
    ensures
        v[i].0 <= v[j].0,
{
    if i < j {
        assert(value_pair_le(v[i], v[j]));
    }
}

/// One partition of the Schroeppel–Shamir search over big numbers. A
/// min-heap walks the A+B sums upwards from `ab_low` (for each B entry,
/// starting at the first A entry that can reach `ab_low`); a max-heap walks
/// the C+D sums downwards from `cd_high`. The smaller side advances until the
/// two meet at `target` or a side leaves its range. `a`, `b`, `c`, `d` are the
/// subset sums of the quarters `qa`, `qb`, `qc`, `qd`; `bounds` is
/// `(ab_low, ab_high, cd_low, cd_high)`; `stop` ends the search early. The
/// search misses no answer: it ends exhausted only when no positions of the
/// four lists meet inside the partition.
pub fn ss_partition_big(
    a: &[(BigNum, u64)],
    b: &[(BigNum, u64)],
    c: &[(BigNum, u64)],
    d: &[(BigNum, u64)],
    qa: &[BigNum],
    qb: &[BigNum],
    qc: &[BigNum],
    qd: &[BigNum],
    target: &BigNum,
    bounds: &(BigNum, BigNum, BigNum, BigNum),
    stop: &std::sync::atomic::AtomicBool,
) -> (r: SearchEnd<BigNum>)
    requires
        sorted_values(pair_values(a@)),
        sorted_values(pair_values(c@)),
        big_pairs_ok(pair_values(a@), big_values(qa@)),
        big_pairs_ok(pair_values(b@), big_values(qb@)),
        big_pairs_ok(pair_values(c@), big_values(qc@)),
        big_pairs_ok(pair_values(d@), big_values(qd@)),
        a@.len() <= u32::MAX,
        b@.len() <= u32::MAX,
        c@.len() <= u32::MAX,
        d@.len() <= u32::MAX,
    ensures
        r matches SearchEnd::Found(sol) ==> is_sub_multiset(
            big_values(sol@),
            big_values(qa@) + big_values(qb@) + big_values(qc@) + big_values(qd@),
        ) && sum_of(big_values(sol@)) == target@,
        r matches SearchEnd::Found(sol) ==> is_quarter_pick(
            big_values(sol@),
            big_values(qa@),
            big_values(qb@),
            big_values(qc@),
            big_values(qd@),
        ),
        r is Exhausted ==> forall|i: int, j: int, k: int, l: int|
            !#[trigger] meets(
                pair_values(a@),
                pair_values(b@),
                pair_values(c@),
                pair_values(d@),
                bounds.0@ as int,
                bounds.1@ as int,
                bounds.2@ as int,
                bounds.3@ as int,
                target@ as int,
                i,
                j,
                k,
                l,
            ),
        !in_band(pair_values(a@), pair_values(b@), bounds.0@ as int, bounds.1@ as int) || !in_band(
            pair_values(c@),
            pair_values(d@),
            bounds.2@ as int,
            bounds.3@ as int,
        ) ==> r is Exhausted,
{
    let ab_low = &bounds.0;
    let ab_high = &bounds.1;
    let cd_low = &bounds.2;
    let cd_high = &bounds.3;
    let ghost av = pair_values(a@);
    let ghost bv = pair_values(b@);
    let ghost cv = pair_values(c@);
    let ghost dv = pair_values(d@);
    let ghost lo1 = bounds.0@ as int;
    let ghost hi1 = bounds.1@ as int;
    let ghost lo2 = bounds.2@ as int;
    let ghost hi2 = bounds.3@ as int;
    let ghost t = target@ as int;
    let a_len = a.len();
    let ghost wl = ahead_big(a_len as int);
    let ghost wr = behind_big();
    let mut min_heap = BigHeap::new(b.len(), false);
    for j in 0..b.len()
        invariant
            a_len == a@.len(),
            av == pair_values(a@),
            bv == pair_values(b@),
            b@.len() <= u32::MAX,
            a@.len() <= u32::MAX,
            sorted_values(av),
            lo1 == ab_low@,
            hi1 == ab_high@,
            !min_heap.is_max(),
            entries_from(min_heap.items(), av, bv),
            heap_in_band(min_heap.items(), lo1, hi1),
            forall|i: int, jj: int, k: int, l: int|
                jj < j && #[trigger] meets(av, bv, cv, dv, lo1, hi1, lo2, hi2, t, i, jj, k, l) ==> min_covers(
                    min_heap.items(),
                    i,
                    jj,
                ),
    {
        let need = if ab_low.less_than(&b[j].0) {
            BigNum::zero()
        } else {
            ab_low.minus(&b[j].0)
        };
        let i = lower_bound_big(a, &need);
        let ghost before = min_heap.items();
        let mut pushed = false;
        if i < a.len() {
            let sv = a[i].0.plus(&b[j].0);
            if !sv.less_than(ab_low) && !ab_high.less_than(&sv) {
                let v = (sv, i as u32, j as u32);
                proof {
                    assert(av[i as int].0 == a@[i as int].0@);
                    assert(bv[j as int].0 == b@[j as int].0@);
                }
                let ghost vv = value_of(v);
                min_heap.push(v);
                pushed = true;
                proof {
                    assert forall|e: EntryValue| #[trigger] min_heap.items().contains(e) implies lo1 <= e.0 <= hi1 by {
                        if e != vv {
                            assert(before.contains(e));
                        }
                    }
                    assert forall|e: EntryValue| #[trigger] min_heap.items().contains(e) implies e.1 < av.len()
                        && e.2 < bv.len() && e.0 == av[e.1 as int].0 + bv[e.2 as int].0 by {
                        if e != vv {
                            assert(before.contains(e));
                        }
                    }
                }
            }
        }
        proof {
            assert(bv[j as int].0 == b@[j as int].0@);
            assert forall|ii: int, jj: int, k: int, l: int|
                jj < j + 1 && #[trigger] meets(av, bv, cv, dv, lo1, hi1, lo2, hi2, t, ii, jj, k, l) implies min_covers(
                min_heap.items(),
                ii,
                jj,
            ) by {
                if jj < j {
                    let e = choose|e: EntryValue| #[trigger] before.contains(e) && e.2 == jj && e.1 <= ii;
                    assert(min_heap.items().contains(e));
                } else {
                    assert(av[ii].0 >= need@);
                    assert(ii >= i);
                    lemma_ascending(av, i as int, ii);
                    assert(pushed);
                    let e = (av[i as int].0 + bv[jj].0, i as u32, j as u32);
                    assert(min_heap.items().contains(e));
                }
            }
        }
    }
    if min_heap.len() == 0 {
        proof {
            assert forall|i: int, j: int, k: int, l: int| !#[trigger] meets(av, bv, cv, dv, lo1, hi1, lo2, hi2, t, i, j, k, l) by {
                if meets(av, bv, cv, dv, lo1, hi1, lo2, hi2, t, i, j, k, l) {
                    let e = choose|e: EntryValue| #[trigger] min_heap.items().contains(e) && e.2 == j && e.1 <= i;
                    assert(min_heap.items().count(e) > 0);
                }
            }
        }
        return SearchEnd::Exhausted;
    }
    proof {
        lemma_band_witness(min_heap.items(), av, bv, lo1, hi1);
    }
    let mut max_heap = BigHeap::new(d.len(), true);
    for l in 0..d.len()
        invariant
            cv == pair_values(c@),
            dv == pair_values(d@),
            d@.len() <= u32::MAX,
            c@.len() <= u32::MAX,
            sorted_values(cv),
            lo2 == cd_low@,
            hi2 == cd_high@,
            max_heap.is_max(),
            entries_from(max_heap.items(), cv, dv),
            heap_in_band(max_heap.items(), lo2, hi2),
            forall|i: int, j: int, k: int, ll: int|
                ll < l && #[trigger] meets(av, bv, cv, dv, lo1, hi1, lo2, hi2, t, i, j, k, ll) ==> max_covers(
                    max_heap.items(),
                    cv,
                    k,
                    ll,
                ),
    {
        let need = if d[l].0.less_than(cd_high) {
            cd_high.minus(&d[l].0)
        } else {
            BigNum::zero()
        };
        let lb = lower_bound_big(c, &need);
        let found = lb < c.len() && c[lb].0.equals(&need);
        let ghost before = max_heap.items();
        let mut pushed = false;
        let mut pick: usize = 0;
        if found || lb > 0 {
            let i = if found {
                lb
            } else {
                lb - 1
            };
            pick = i;
            let sv = c[i].0.plus(&d[l].0);
            if !sv.less_than(cd_low) && !cd_high.less_than(&sv) {
                let v = (sv, i as u32, l as u32);
                proof {
                    assert(cv[i as int].0 == c@[i as int].0@);
                    assert(dv[l as int].0 == d@[l as int].0@);
                }
                let ghost vv = value_of(v);
                max_heap.push(v);
                pushed = true;
                proof {
                    assert forall|e: EntryValue| #[trigger] max_heap.items().contains(e) implies lo2 <= e.0 <= hi2 by {
                        if e != vv {
                            assert(before.contains(e));
                        }
                    }
                    assert forall|e: EntryValue| #[trigger] max_heap.items().contains(e) implies e.1 < cv.len()
                        && e.2 < dv.len() && e.0 == cv[e.1 as int].0 + dv[e.2 as int].0 by {
                        if e != vv {
                            assert(before.contains(e));
                        }
                    }
                }
            }
        }
        proof {
            assert(dv[l as int].0 == d@[l as int].0@);
            if lb < c.len() {
                assert(cv[lb as int].0 == c@[lb as int].0@);
            }
            assert forall|i: int, j: int, k: int, ll: int|
                ll < l + 1 && #[trigger] meets(av, bv, cv, dv, lo1, hi1, lo2, hi2, t, i, j, k, ll) implies max_covers(
                max_heap.items(),
                cv,
                k,
                ll,
            ) by {
                if ll < l {
                    let e = choose|e: EntryValue| #[trigger] before.contains(e) && e.2 == ll && e.1 < cv.len() && cv[e.1 as int].0
                        >= cv[k].0;
                    assert(max_heap.items().contains(e));
                } else {
                    assert(cv[k].0 <= need@);
                    if found {
                        assert(pick == lb);
                    } else {
                        if cv[k].0 == need@ {
                            assert(k >= lb);
                            lemma_ascending(cv, lb as int, k);
                        }
                        assert(k < lb);
                        assert(pick == lb - 1);
                        lemma_ascending(cv, k, pick as int);
                    }
                    assert(cv[pick as int].0 >= cv[k].0);
                    assert(pushed);
                    let e = (cv[pick as int].0 + dv[ll].0, pick as u32, l as u32);
                    assert(max_heap.items().contains(e));
                }
            }
        }
    }
    if max_heap.len() == 0 {
        proof {
            assert forall|i: int, j: int, k: int, l: int| !#[trigger] meets(av, bv, cv, dv, lo1, hi1, lo2, hi2, t, i, j, k, l) by {
                if meets(av, bv, cv, dv, lo1, hi1, lo2, hi2, t, i, j, k, l) {
                    let e = choose|e: EntryValue| #[trigger] max_heap.items().contains(e) && e.2 == l && e.1 < cv.len()
                        && cv[e.1 as int].0 >= cv[k].0;
                    assert(max_heap.items().count(e) > 0);
                }
            }
        }
        return SearchEnd::Exhausted;
    }
    proof {
        lemma_band_witness(max_heap.items(), cv, dv, lo2, hi2);
    }
    loop
        invariant
            in_band(av, bv, lo1, hi1),
            in_band(cv, dv, lo2, hi2),
            a_len == a@.len(),
            a_len <= u32::MAX,
            av == pair_values(a@),
            bv == pair_values(b@),
            cv == pair_values(c@),
            dv == pair_values(d@),
            sorted_values(av),
            sorted_values(cv),
            lo1 == ab_low@,
            hi1 == ab_high@,
            lo2 == cd_low@,
            hi2 == cd_high@,
            lo1 == bounds.0@,
            hi1 == bounds.1@,
            lo2 == bounds.2@,
            hi2 == bounds.3@,
            t == target@,
            wl == ahead_big(a_len as int),
            wr == behind_big(),
            big_pairs_ok(av, big_values(qa@)),
            big_pairs_ok(bv, big_values(qb@)),
            big_pairs_ok(cv, big_values(qc@)),
            big_pairs_ok(dv, big_values(qd@)),
            !min_heap.is_max(),
            max_heap.is_max(),
            entries_from(min_heap.items(), av, bv),
            entries_from(max_heap.items(), cv, dv),
            forall|i: int, j: int, k: int, l: int|
                #[trigger] meets(av, bv, cv, dv, lo1, hi1, lo2, hi2, t, i, j, k, l) ==> min_covers(min_heap.items(), i, j)
                    && max_covers(max_heap.items(), cv, k, l),
        decreases min_heap.weight(wl) + max_heap.weight(wr),
    {
        if crate::controller::flag_set(stop) {
            return SearchEnd::Stopped;
        }
        let (ab, ai, bi) = match min_heap.peek() {
            Some(t) => t,
            None => {
                proof {
                    assert forall|i: int, j: int, k: int, l: int| !#[trigger] meets(av, bv, cv, dv, lo1, hi1, lo2, hi2, t, i, j, k, l) by {
                        if meets(av, bv, cv, dv, lo1, hi1, lo2, hi2, t, i, j, k, l) {
                            let e = choose|e: EntryValue| #[trigger] min_heap.items().contains(e) && e.2 == j && e.1 <= i;
                            assert(min_heap.items().count(e) > 0);
                        }
                    }
                }
                return SearchEnd::Exhausted;
            },
        };
        let ghost top_ab = (ab@, ai, bi);
        if ab_high.less_than(&ab) || ai as usize >= a.len() {
            proof {
                assert(min_heap.items().contains(top_ab));
                assert forall|i: int, j: int, k: int, l: int| !#[trigger] meets(av, bv, cv, dv, lo1, hi1, lo2, hi2, t, i, j, k, l) by {
                    if meets(av, bv, cv, dv, lo1, hi1, lo2, hi2, t, i, j, k, l) {
                        let e = choose|e: EntryValue| #[trigger] min_heap.items().contains(e) && e.2 == j && e.1 <= i;
                        assert(over(top_ab, e, false));
                        lemma_ascending(av, e.1 as int, i);
                    }
                }
            }
            return SearchEnd::Exhausted;
        }
        let (cd, ci, di) = match max_heap.peek() {
            Some(t) => t,
            None => {
                proof {
                    assert forall|i: int, j: int, k: int, l: int| !#[trigger] meets(av, bv, cv, dv, lo1, hi1, lo2, hi2, t, i, j, k, l) by {
                        if meets(av, bv, cv, dv, lo1, hi1, lo2, hi2, t, i, j, k, l) {
                            let e = choose|e: EntryValue| #[trigger] max_heap.items().contains(e) && e.2 == l && e.1 < cv.len()
                                && cv[e.1 as int].0 >= cv[k].0;
                            assert(max_heap.items().count(e) > 0);
                        }
                    }
                }
                return SearchEnd::Exhausted;
            },
        };
        let ghost top_cd = (cd@, ci, di);
        if cd.less_than(cd_low) {
            proof {
                assert(max_heap.items().contains(top_cd));
                assert forall|i: int, j: int, k: int, l: int| !#[trigger] meets(av, bv, cv, dv, lo1, hi1, lo2, hi2, t, i, j, k, l) by {
                    if meets(av, bv, cv, dv, lo1, hi1, lo2, hi2, t, i, j, k, l) {
                        let e = choose|e: EntryValue| #[trigger] max_heap.items().contains(e) && e.2 == l && e.1 < cv.len()
                            && cv[e.1 as int].0 >= cv[k].0;
                        assert(over(top_cd, e, true));
                    }
                }
            }
            return SearchEnd::Exhausted;
        }
        let ghost min_before = min_heap.items();
        let ghost max_before = max_heap.items();
        let ghost w0 = min_heap.weight(wl);
        let ghost w1 = max_heap.weight(wr);
        proof {
            assert(min_before.contains(top_ab));
            assert(max_before.contains(top_cd));
        }
        let total = ab.plus(&cd);
        if total.equals(target) {
            proof {
                let (x, y, z, w) = (av[ai as int], bv[bi as int], cv[ci as int], dv[di as int]);
                assert(big_pair_ok(x, big_values(qa@)));
                assert(big_pair_ok(y, big_values(qb@)));
                assert(big_pair_ok(z, big_values(qc@)));
                assert(big_pair_ok(w, big_values(qd@)));
                assert(x.1 == a@[ai as int].1 && y.1 == b@[bi as int].1);
                assert(z.1 == c@[ci as int].1 && w.1 == d@[di as int].1);
            }
            let sol = four_quarters_big(
                qa,
                qb,
                qc,
                qd,
                a[ai as usize].1,
                b[bi as usize].1,
                c[ci as usize].1,
                d[di as usize].1,
            );
            proof {
                assert(quarter_picks(big_values(qa@), big_values(qb@), big_values(qc@), big_values(qd@), a@[ai as int].1, b@[bi as int].1, c@[ci as int].1, d@[di as int].1) == big_values(sol@));
            }
            return SearchEnd::Found(sol);
        } else if total.less_than(target) {
            min_heap.pop();
            proof {
                assert(min_heap.weight(wl) + wl(top_ab) == w0);
                assert forall|e: EntryValue| #[trigger] min_heap.items().contains(e) implies e.1 < av.len() && e.2
                    < bv.len() && e.0 == av[e.1 as int].0 + bv[e.2 as int].0 by {
                    assert(min_before.contains(e));
                }
            }
            let ghost after_pop = min_heap.items();
            let nai = ai as usize + 1;
            let mut pushed = false;
            if nai < a.len() {
                let ns = a[nai].0.plus(&b[bi as usize].0);
                if !ab_high.less_than(&ns) {
                    assert((nai as u32) == ai + 1);
                    let ghost w2 = min_heap.weight(wl);
                    let v = (ns, nai as u32, bi);
                    let ghost vv = value_of(v);
                    proof {
                        assert(av[nai as int].0 == a@[nai as int].0@);
                        assert(bv[bi as int].0 == b@[bi as int].0@);
                    }
                    min_heap.push(v);
                    pushed = true;
                    proof {
                        assert(min_heap.weight(wl) == w2 + wl(vv));
                        assert forall|e: EntryValue| #[trigger] min_heap.items().contains(e) implies e.1 < av.len()
                            && e.2 < bv.len() && e.0 == av[e.1 as int].0 + bv[e.2 as int].0 by {
                            if e != vv {
                                assert(after_pop.contains(e));
                            }
                        }
                    }
                }
            }
            proof {
                assert(bv[bi as int].0 == b@[bi as int].0@);
                assert forall|i: int, j: int, k: int, l: int|
                    #[trigger] meets(av, bv, cv, dv, lo1, hi1, lo2, hi2, t, i, j, k, l) implies min_covers(
                    min_heap.items(),
                    i,
                    j,
                ) && max_covers(max_heap.items(), cv, k, l) by {
                    let e = choose|e: EntryValue| #[trigger] min_before.contains(e) && e.2 == j && e.1 <= i;
                    if e == top_ab {
                        let f = choose|f: EntryValue| #[trigger] max_before.contains(f) && f.2 == l && f.1 < cv.len()
                            && cv[f.1 as int].0 >= cv[k].0;
                        assert(over(top_cd, f, true));
                        if i <= ai {
                            lemma_ascending(av, i, ai as int);
                        }
                        assert(i > ai);
                        lemma_ascending(av, ai + 1, i);
                        assert(pushed);
                        let g = (av[ai + 1].0 + bv[j].0, (ai + 1) as u32, bi);
                        assert(min_heap.items().contains(g));
                    } else {
                        assert(after_pop.contains(e));
                        assert(min_heap.items().contains(e));
                    }
                }
            }
        } else {
            max_heap.pop();
            proof {
                assert(max_heap.weight(wr) + wr(top_cd) == w1);
                assert forall|e: EntryValue| #[trigger] max_heap.items().contains(e) implies e.1 < cv.len() && e.2
                    < dv.len() && e.0 == cv[e.1 as int].0 + dv[e.2 as int].0 by {
                    assert(max_before.contains(e));
                }
            }
            let ghost after_pop = max_heap.items();
            let mut pushed = false;
            if ci > 0 {
                let ns = c[ci as usize - 1].0.plus(&d[di as usize].0);
                if !ns.less_than(cd_low) {
                    let ghost w2 = max_heap.weight(wr);
                    let v = (ns, ci - 1, di);
                    let ghost vv = value_of(v);
                    proof {
                        assert(cv[ci - 1].0 == c@[ci - 1].0@);
                        assert(dv[di as int].0 == d@[di as int].0@);
                    }
                    max_heap.push(v);
                    pushed = true;
                    proof {
                        assert(max_heap.weight(wr) == w2 + wr(vv));
                        assert forall|e: EntryValue| #[trigger] max_heap.items().contains(e) implies e.1 < cv.len()
                            && e.2 < dv.len() && e.0 == cv[e.1 as int].0 + dv[e.2 as int].0 by {
                            if e != vv {
                                assert(after_pop.contains(e));
                            }
                        }
                    }
                }
            }
            proof {
                assert(dv[di as int].0 == d@[di as int].0@);
                assert forall|i: int, j: int, k: int, l: int|
                    #[trigger] meets(av, bv, cv, dv, lo1, hi1, lo2, hi2, t, i, j, k, l) implies min_covers(
                    min_heap.items(),
                    i,
                    j,
                ) && max_covers(max_heap.items(), cv, k, l) by {
                    let f = choose|f: EntryValue| #[trigger] max_before.contains(f) && f.2 == l && f.1 < cv.len()
                        && cv[f.1 as int].0 >= cv[k].0;
                    if f == top_cd {
                        let e = choose|e: EntryValue| #[trigger] min_before.contains(e) && e.2 == j && e.1 <= i;
                        assert(over(top_ab, e, false));
                        lemma_ascending(av, e.1 as int, i);
                        if k >= ci {
                            lemma_ascending(cv, ci as int, k);
                        }
                        assert(k < ci);
                        lemma_ascending(cv, k, ci - 1);
                        assert(pushed);
                        let g = (cv[ci - 1].0 + dv[l].0, (ci - 1) as u32, di);
                        assert(max_heap.items().contains(g));
                    } else {
                        assert(after_pop.contains(f));
                        assert(max_heap.items().contains(f));
                    }
                }
            }
        }
    }
}

/// The partitions together miss no answer: positions of the four lists
/// whose sums add up to `t` meet inside some partition whose A+B range is
/// not empty, with the C+D range that `partition_bounds_big` gives it.
pub proof fn law_partitions_miss_nothing(
    av: Seq<(nat, u64)>,
    bv: Seq<(nat, u64)>,
    cv: Seq<(nat, u64)>,
    dv: Seq<(nat, u64)>,
    t: int,
    parts: int,
    i: int,
    j: int,
    k: int,
    l: int,
)
    requires
        parts > 0,
        t > 0,
        0 <= i < av.len(),
        0 <= j < bv.len(),
        0 <= k < cv.len(),
        0 <= l < dv.len(),
        av[i].0 + bv[j].0 + cv[k].0 + dv[l].0 == t,
    ensures
        exists|pid: int|
            0 <= pid < parts && #[trigger] part_edge(t, pid, parts) < part_edge(t, pid + 1, parts) && meets(
                av,
                bv,
                cv,
                dv,
                part_edge(t, pid, parts),
                part_edge(t, pid + 1, parts),
                t - part_edge(t, pid + 1, parts),
                t - part_edge(t, pid, parts),
                t,
                i,
                j,
                k,
                l,
            ),
{
    let s: int = (av[i].0 + bv[j].0) as int;
    crate::knapsack::law_partitions_cover(t, parts, s);
    let pid = choose|pid: int|
        0 <= pid < parts && #[trigger] part_edge(t, pid, parts) <= s <= part_edge(t, pid + 1, parts) && part_edge(
            t,
            pid,
            parts,
        ) < part_edge(t, pid + 1, parts);
    assert(meets(
        av,
        bv,
        cv,
        dv,
        part_edge(t, pid, parts),
        part_edge(t, pid + 1, parts),
        t - part_edge(t, pid + 1, parts),
        t - part_edge(t, pid, parts),
        t,
        i,
        j,
        k,
        l,
    ));
}

} // verus!
