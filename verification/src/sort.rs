//! Merge sort of `(sum, mask)` pairs in lexicographic order.
use vstd::prelude::*;

verus! {

/// Lexicographic order on `(sum, mask)` pairs.
pub open spec fn pair_le(a: (u128, u64), b: (u128, u64)) -> bool {
    a.0 < b.0 || (a.0 == b.0 && a.1 <= b.1)
}

/// The pairs are in lexicographic order.
pub open spec fn sorted_pairs(s: Seq<(u128, u64)>) -> bool {
    forall|i: int, j: int| 0 <= i < j < s.len() ==> pair_le(#[trigger] s[i], #[trigger] s[j])
}

/// The pairs are in order of their sums.
pub open spec fn sorted_by_sum(s: Seq<(u128, u64)>) -> bool {
    forall|i: int, j: int| 0 <= i < j < s.len() ==> #[trigger] s[i].0 <= #[trigger] s[j].0
}

pub proof fn lemma_sorted_pairs_by_sum(s: Seq<(u128, u64)>)
    requires
        sorted_pairs(s),
    ensures
        sorted_by_sum(s),
{
    assert forall|i: int, j: int| 0 <= i < j < s.len() implies #[trigger] s[i].0 <= #[trigger] s[j].0 by {
        assert(pair_le(s[i], s[j]));
    }
}

fn pair_leq(a: (u128, u64), b: (u128, u64)) -> (r: bool)
    ensures
        r == pair_le(a, b),
{
    a.0 < b.0 || (a.0 == b.0 && a.1 <= b.1)
}

/// Merge two sorted runs into one sorted run holding both.
fn merge(a: Vec<(u128, u64)>, b: Vec<(u128, u64)>) -> (r: Vec<(u128, u64)>)
    requires
        sorted_pairs(a@),
        sorted_pairs(b@),
    ensures
        sorted_pairs(r@),
        r@.to_multiset() == a@.to_multiset().add(b@.to_multiset()),
{
    broadcast use vstd::seq_lib::group_to_multiset_ensures;
    broadcast use vstd::multiset::group_multiset_axioms;

    let mut r: Vec<(u128, u64)> = Vec::new();
    let mut i: usize = 0;
    let mut j: usize = 0;
    assert(a@.take(0) =~= Seq::<(u128, u64)>::empty());
    assert(b@.take(0) =~= Seq::<(u128, u64)>::empty());
    while i < a.len() || j < b.len()
        invariant
            i <= a.len(),
            j <= b.len(),
            sorted_pairs(a@),
            sorted_pairs(b@),
            sorted_pairs(r@),
            r@.len() == i + j,
            r@.to_multiset() == a@.take(i as int).to_multiset().add(
                b@.take(j as int).to_multiset(),
            ),
            r@.len() > 0 && i < a.len() ==> pair_le(r@.last(), a@[i as int]),
            r@.len() > 0 && j < b.len() ==> pair_le(r@.last(), b@[j as int]),
        decreases a.len() + b.len() - i - j,
    {
        let take_a = if i < a.len() && j < b.len() {
            pair_leq(a[i], b[j])
        } else {
            i < a.len()
        };
        let ghost old_r = r@;
        if take_a {
            let x = a[i];
            r.push(x);
            assert(a@.take(i + 1) =~= a@.take(i as int).push(x));
            assert(r@ =~= old_r.push(x));
            proof { vstd::seq_lib::to_multiset_build(old_r, x); }
            proof { vstd::seq_lib::to_multiset_build(a@.take(i as int), x); }
            assert(r@.to_multiset() =~= a@.take(i + 1).to_multiset().add(
                b@.take(j as int).to_multiset(),
            ));
            i = i + 1;
        } else {
            let x = b[j];
            r.push(x);
            assert(b@.take(j + 1) =~= b@.take(j as int).push(x));
            assert(r@ =~= old_r.push(x));
            proof { vstd::seq_lib::to_multiset_build(old_r, x); }
            proof { vstd::seq_lib::to_multiset_build(b@.take(j as int), x); }
            assert(r@.to_multiset() =~= a@.take(i as int).to_multiset().add(
                b@.take(j + 1).to_multiset(),
            ));
            j = j + 1;
        }
        assert(r@ =~= old_r.push(r@.last()));
        assert forall|p: int, q: int| 0 <= p < q < r@.len() implies pair_le(#[trigger] r@[p], #[trigger] r@[q]) by {
            if q == r@.len() - 1 && p < q {
                assert(pair_le(old_r[p], old_r.last()) || p == old_r.len() - 1);
            }
        }
    }
    assert(a@.take(a.len() as int) =~= a@);
    assert(b@.take(b.len() as int) =~= b@);
    r
}

/// Sorted copy of `v[lo..hi]`.
fn sort_range(v: &Vec<(u128, u64)>, lo: usize, hi: usize) -> (r: Vec<(u128, u64)>)
    requires
        lo <= hi <= v.len(),
    ensures
        sorted_pairs(r@),
        r@.to_multiset() == v@.subrange(lo as int, hi as int).to_multiset(),
    decreases hi - lo,
{
    broadcast use vstd::seq_lib::group_to_multiset_ensures;
    broadcast use vstd::multiset::group_multiset_axioms;

    if hi - lo <= 1 {
        let mut r: Vec<(u128, u64)> = Vec::new();
        if hi - lo == 1 {
            r.push(v[lo]);
            assert(r@ =~= v@.subrange(lo as int, hi as int));
        } else {
            assert(r@ =~= v@.subrange(lo as int, hi as int));
        }
        r
    } else {
        let mid = lo + (hi - lo) / 2;
        let a = sort_range(v, lo, mid);
        let b = sort_range(v, mid, hi);
        let r = merge(a, b);
        assert(v@.subrange(lo as int, hi as int) =~= v@.subrange(lo as int, mid as int)
            + v@.subrange(mid as int, hi as int));
        proof {
            vstd::seq_lib::lemma_multiset_commutative(
                v@.subrange(lo as int, mid as int),
                v@.subrange(mid as int, hi as int),
            );
        }
        r
    }
}

/// The pairs of `v` in lexicographic order.
pub fn sort_pairs(v: Vec<(u128, u64)>) -> (r: Vec<(u128, u64)>)
    ensures
        sorted_pairs(r@),
        r@.to_multiset() == v@.to_multiset(),
{
    let r = sort_range(&v, 0, v.len());
    assert(v@.subrange(0, v@.len() as int) =~= v@);
    r
}

/// `s` is in ascending order, or descending when `desc`.
pub open spec fn ordered(s: Seq<u128>, desc: bool) -> bool {
    forall|i: int, j: int|
        0 <= i < j < s.len() ==> if desc {
            #[trigger] s[i] >= #[trigger] s[j]
        } else {
            s[i] <= s[j]
        }
}

fn before_or_tied(a: u128, b: u128, desc: bool) -> (r: bool)
    ensures
        r == if desc {
            a >= b
        } else {
            a <= b
        },
{
    if desc {
        a >= b
    } else {
        a <= b
    }
}

/// The values of `v` in ascending order, or descending when `desc`.
pub fn sort_u128(v: &[u128], desc: bool) -> (r: Vec<u128>)
    ensures
        ordered(r@, desc),
        r@.to_multiset() == v@.to_multiset(),
        r@.len() == v@.len(),
{
    broadcast use vstd::seq_lib::group_to_multiset_ensures;
    broadcast use vstd::multiset::group_multiset_axioms;

    let mut r: Vec<u128> = Vec::new();
    assert(v@.take(0) =~= Seq::<u128>::empty());
    for k in 0..v.len()
        invariant
            ordered(r@, desc),
            r@.to_multiset() == v@.take(k as int).to_multiset(),
    {
        let x = v[k];
        let mut p: usize = 0;
        while p < r.len() && before_or_tied(r[p], x, desc)
            invariant
                p <= r@.len(),
                forall|i: int| 0 <= i < p ==> if desc {
                    #[trigger] r@[i] >= x
                } else {
                    r@[i] <= x
                },
            decreases r@.len() - p,
        {
            p = p + 1;
        }
        let ghost old_r = r@;
        r.insert(p, x);
        proof {
            vstd::seq_lib::to_multiset_insert(old_r, p as int, x);
            assert(v@.take(k + 1) =~= v@.take(k as int).push(x));
            vstd::seq_lib::to_multiset_build(v@.take(k as int), x);
            assert(r@.to_multiset() == v@.take(k + 1).to_multiset());
            old_r.insert_ensures(p as int, x);
            assert forall|i: int, j: int| 0 <= i < j < r@.len() implies if desc {
                #[trigger] r@[i] >= #[trigger] r@[j]
            } else {
                r@[i] <= r@[j]
            } by {
                if j < p {
                } else if j == p {
                } else if i < p {
                    assert(r@[j] == old_r[j - 1]);
                    if desc {
                        assert(old_r[p as int] < x);
                        assert(old_r[p as int] >= old_r[j - 1] || p == j - 1);
                    } else {
                        assert(old_r[p as int] > x);
                        assert(old_r[p as int] <= old_r[j - 1] || p == j - 1);
                    }
                } else if i == p {
                    assert(r@[j] == old_r[j - 1]);
                    if desc {
                        assert(old_r[p as int] < x);
                        assert(old_r[p as int] >= old_r[j - 1] || p == j - 1);
                    } else {
                        assert(old_r[p as int] > x);
                        assert(old_r[p as int] <= old_r[j - 1] || p == j - 1);
                    }
                } else {
                    assert(r@[i] == old_r[i - 1]);
                    assert(r@[j] == old_r[j - 1]);
                }
            }
        }
    }
    assert(v@.take(v@.len() as int) =~= v@);
    assert(r@.len() == r@.to_multiset().len());
    r
}

/// `a` comes before `b`: a larger value, or the same value at a lower position.
pub open spec fn idx_before(a: (usize, u128), b: (usize, u128)) -> bool {
    a.1 > b.1 || (a.1 == b.1 && a.0 < b.0)
}

/// The first position from `p` on whose value is below `val`, or the length.
pub open spec fn first_below(r: Seq<(usize, u128)>, val: u128, p: int) -> int
    decreases r.len() - p,
{
    if p >= r.len() || r[p].1 < val {
        p
    } else {
        first_below(r, val, p + 1)
    }
}

/// The positions and values of `v`, largest value first, equal values in
/// position order: each value goes in before the first smaller one.
pub open spec fn desc_order(v: Seq<u128>) -> Seq<(usize, u128)>
    decreases v.len(),
{
    if v.len() == 0 {
        Seq::empty()
    } else {
        let r = desc_order(v.drop_last());
        r.insert(first_below(r, v.last(), 0), ((v.len() - 1) as usize, v.last()))
    }
}

proof fn lemma_first_below(r: Seq<(usize, u128)>, val: u128, p: int, j: int)
    requires
        0 <= j <= p <= r.len(),
        forall|i: int| 0 <= i < p ==> r[i].1 >= val,
        p == r.len() || r[p].1 < val,
    ensures
        first_below(r, val, j) == p,
    decreases p - j,
{
    if j < p {
        lemma_first_below(r, val, p, j + 1);
    }
}

/// The positions and values of `v`, largest value first; equal values keep
/// their order (a stable sort).
pub fn sort_indexed_desc(v: &[u128]) -> (r: Vec<(usize, u128)>)
    ensures
        r@ == desc_order(v@),
        r@.len() == v@.len(),
        forall|k: int| 0 <= k < r@.len() ==> (#[trigger] r@[k]).0 < v@.len() && r@[k].1 == v@[r@[k].0 as int],
        forall|p: int, q: int| 0 <= p < q < r@.len() ==> idx_before(#[trigger] r@[p], #[trigger] r@[q]),
{
    let mut r: Vec<(usize, u128)> = Vec::new();
    proof {
        assert(v@.take(0) =~= Seq::<u128>::empty());
    }
    for k in 0..v.len()
        invariant
            r@ == desc_order(v@.take(k as int)),
            r@.len() == k,
            forall|j: int| 0 <= j < r@.len() ==> (#[trigger] r@[j]).0 < k && r@[j].1 == v@[r@[j].0 as int],
            forall|p: int, q: int| 0 <= p < q < r@.len() ==> idx_before(#[trigger] r@[p], #[trigger] r@[q]),
    {
        let x = (k, v[k]);
        let mut p: usize = 0;
        while p < r.len() && r[p].1 >= x.1
            invariant
                p <= r@.len(),
                forall|i: int| 0 <= i < p ==> (#[trigger] r@[i]).1 >= x.1,
            decreases r@.len() - p,
        {
            p = p + 1;
        }
        let ghost old_r = r@;
        r.insert(p, x);
        proof {
            old_r.insert_ensures(p as int, x);
            lemma_first_below(old_r, x.1, p as int, 0);
            assert(v@.take(k + 1).drop_last() =~= v@.take(k as int));
            assert(v@.take(k + 1).last() == v@[k as int]);
            assert forall|j: int| 0 <= j < r@.len() implies (#[trigger] r@[j]).0 < k + 1 && r@[j].1 == v@[r@[j].0 as int] by {
                if j < p {
                    assert(r@[j] == old_r[j]);
                } else if j > p {
                    assert(r@[j] == old_r[j - 1]);
                }
            }
            assert forall|a: int, b: int| 0 <= a < b < r@.len() implies idx_before(#[trigger] r@[a], #[trigger] r@[b]) by {
                if b < p {
                    assert(r@[a] == old_r[a]);
                    assert(r@[b] == old_r[b]);
                } else if b == p {
                    assert(r@[a] == old_r[a]);
                    assert(old_r[a].1 >= x.1);
                    assert(old_r[a].0 < k);
                } else if a < p {
                    assert(r@[a] == old_r[a]);
                    assert(r@[b] == old_r[b - 1]);
                } else if a == p {
                    assert(r@[b] == old_r[b - 1]);
                    assert(old_r[p as int].1 < x.1);
                    if b - 1 > p {
                        assert(idx_before(old_r[p as int], old_r[b - 1]));
                    }
                } else {
                    assert(r@[a] == old_r[a - 1]);
                    assert(r@[b] == old_r[b - 1]);
                }
            }
        }
    }
    proof {
        assert(v@.take(v@.len() as int) =~= v@);
    }
    r
}

} // verus!
