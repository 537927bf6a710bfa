//! Meet in the middle over big numbers.
//!
//! The elements are split in two halves. Every subset sum of the left half
//! that does not exceed the target goes into a table (with the mask of one
//! subset giving it); then the subset sums of the right half are generated
//! and each is looked up against the table. The search is exhaustive: when
//! no pair of sums meets the target, no subset does.
use crate::bignum::BigNum;
use crate::bits::{bit, fits, lemma_mask_sum_one_bit, lemma_picked_in, lemma_set_bit, mask_sum, picked};
use crate::controller::{checked, verdict_ok, Engine, Shared, Verdict};
use crate::profile::big_values;
use crate::spec::{
    is_sub_multiset, lemma_reach_nonneg, lemma_reach_step, lemma_reach_zero, lemma_sel_sum_nonneg,
    lemma_sel_sum_split, lemma_sub_multiset_concat, reach, sel_sum, solvable,
};
use num_bigint::BigUint;
use std::collections::HashMap;
use vstd::prelude::*;

verus! {

pub struct MitmEngine;

/// A table from subset sums (big numbers) to the mask of a subset giving
/// each, held in a `HashMap<BigUint, u64>`.
#[verifier::external_body]
pub struct SumTable {
    map: HashMap<BigUint, u64>,
}

/// What a table holds: each sum, as a number, with its mask.
pub uninterp spec fn table_contents(t: SumTable) -> Map<nat, u64>;

/// The table with no entries.
pub open spec fn no_sums() -> Map<nat, u64> {
    Map::empty()
}

impl SumTable {
    /// An empty table, by `HashMap::new`.
    #[verifier::external_body]
    fn empty() -> (t: SumTable)
        ensures
            table_contents(t) == no_sums(),
    {
        SumTable { map: HashMap::new() }
    }

    /// Store `m` for `key`, replacing what was there, by `HashMap::insert`.
    #[verifier::external_body]
    fn put(&mut self, key: &BigNum, m: u64)
        ensures
            table_contents(*final(self)) == table_contents(*old(self)).insert(key@, m),
    {
        self.map.insert(BigUint::new(key.to_u32_digits()), m);
    }

    /// A table holding only the empty subset (sum zero, mask zero).
    fn with_zero() -> (t: SumTable)
        ensures
            table_contents(t) == map![0nat => 0u64],
    {
        let mut t = SumTable::empty();
        t.put(&BigNum::zero(), 0);
        proof {
            assert(table_contents(t) =~= map![0nat => 0u64]);
        }
        t
    }

    /// Whether `key` has an entry, by `HashMap::contains_key`.
    #[verifier::external_body]
    fn contains(&self, key: &BigNum) -> (r: bool)
        ensures
            r == table_contents(*self).contains_key(key@),
    {
        self.map.contains_key(&BigUint::new(key.to_u32_digits()))
    }

    /// The mask stored for `key`, by `HashMap::get`.
    #[verifier::external_body]
    fn get(&self, key: &BigNum) -> (r: Option<u64>)
        ensures
            r is Some <==> table_contents(*self).contains_key(key@),
            r matches Some(m) ==> m == table_contents(*self)[key@],
    {
        self.map.get(&BigUint::new(key.to_u32_digits())).copied()
    }

    /// Store `m` for `key` unless `key` has an entry already.
    fn insert_absent(&mut self, key: BigNum, m: u64)
        ensures
            table_contents(*final(self)) == if table_contents(*old(self)).contains_key(key@) {
                table_contents(*old(self))
            } else {
                table_contents(*old(self)).insert(key@, m)
            },
    {
        if !self.contains(&key) {
            self.put(&key, m);
        }
    }

    /// Every entry, once each, in the map's iteration order (which depends
    /// on the hasher's random seed), by `HashMap::iter`.
    #[verifier::external_body]
    fn entries(&self) -> (r: Vec<(BigNum, u64)>)
        ensures
            forall|i: int|
                0 <= i < r@.len() ==> table_contents(*self).contains_key((#[trigger] r@[i]).0@)
                    && table_contents(*self)[r@[i].0@] == r@[i].1,
            forall|s: nat|
                #[trigger] table_contents(*self).contains_key(s) ==> exists|i: int|
                    0 <= i < r@.len() && (#[trigger] r@[i]).0@ == s,
    {
        self.map.iter().map(|(k, m)| (BigNum::from_u32_digits(k.to_u32_digits()), *m)).collect()
    }
}

/// The keys of `t` are exactly the subset sums of the first `k` values that
/// do not exceed `target`, each stored with a mask (within the first `k`
/// positions) of a subset giving it.
pub open spec fn table_exact(t: Map<nat, u64>, vals: Seq<int>, k: int, target: int) -> bool {
    &&& forall|s: nat|
        #![trigger t.contains_key(s)]
        #![trigger reach(vals, k, s as int)]
        t.contains_key(s) <==> (s <= target && reach(vals, k, s as int))
    &&& forall|s: nat| #[trigger] t.contains_key(s) ==> fits(t[s], k) && mask_sum(vals, t[s]) == s
}

/// The table after element `k`: the old keys, and each old key plus
/// `vals[k]` that stays within the target.
proof fn lemma_table_step(t: Map<nat, u64>, c: Map<nat, u64>, vals: Seq<int>, k: int, target: int)
    requires
        0 <= k < vals.len(),
        forall|i: int| 0 <= i < vals.len() ==> vals[i] >= 0,
        table_exact(t, vals, k, target),
        forall|s: nat| #[trigger] t.contains_key(s) ==> c.contains_key(s),
        forall|s: nat| #[trigger] t.contains_key(s) && s + vals[k] <= target ==> c.contains_key((s + vals[k]) as nat),
        forall|s: nat|
            #[trigger] c.contains_key(s) ==> s <= target && reach(vals, k + 1, s as int) && fits(c[s], k + 1)
                && mask_sum(vals, c[s]) == s,
    ensures
        table_exact(c, vals, k + 1, target),
{
    assert forall|s: nat| (s <= target && #[trigger] reach(vals, k + 1, s as int)) implies c.contains_key(s) by {
        lemma_reach_step(vals, k, s as int);
        if reach(vals, k, s as int) {
            assert(t.contains_key(s));
        } else {
            lemma_reach_nonneg(vals, k, s - vals[k]);
            let p = (s - vals[k]) as nat;
            assert(t.contains_key(p));
        }
    }
}

/// The new entry for subset sum `s` (mask `m`, within the first `k`
/// positions) plus element `k`.
pub proof fn lemma_new_entry(vals: Seq<int>, k: int, s: int, m: u64)
    requires
        0 <= k < vals.len(),
        vals.len() < 64,
        fits(m, k),
        mask_sum(vals, m) == s,
        reach(vals, k, s),
    ensures
        fits(m | (1u64 << (k as u64)), k + 1),
        mask_sum(vals, m | (1u64 << (k as u64))) == s + vals[k],
        reach(vals, k + 1, s + vals[k]),
{
    let nm = m | (1u64 << (k as u64));
    lemma_set_bit(m, k as u64);
    assert(!bit(m, k));
    lemma_mask_sum_one_bit(vals, nm, m, k, vals.len() as int);
    lemma_reach_step(vals, k, s + vals[k]);
}

/// Add element `k` (the big number `e`, which is `vals[k]`) to a table of the
/// subset sums of the first `k` values.
fn grow(table: &mut SumTable, e: &BigNum, k: usize, target: &BigNum, Ghost(vals): Ghost<Seq<int>>)
    requires
        k < vals.len(),
        vals.len() < 64,
        e@ == vals[k as int],
        forall|i: int| 0 <= i < vals.len() ==> vals[i] >= 0,
        table_exact(table_contents(*old(table)), vals, k as int, target@ as int),
    ensures
        table_exact(table_contents(*final(table)), vals, k + 1, target@ as int),
{
    let ghost t = table_contents(*table);
    let snapshot = table.entries();
    let mut new_pairs: Vec<(BigNum, u64)> = Vec::new();
    let mut i: usize = 0;
    while i < snapshot.len()
        invariant
            k < vals.len(),
            vals.len() < 64,
            e@ == vals[k as int],
            t == table_contents(*table),
            table_exact(t, vals, k as int, target@ as int),
            i <= snapshot@.len(),
            forall|j: int|
                0 <= j < snapshot@.len() ==> t.contains_key((#[trigger] snapshot@[j]).0@) && t[snapshot@[j].0@]
                    == snapshot@[j].1,
            forall|q: int|
                0 <= q < new_pairs@.len() ==> {
                    let np = #[trigger] new_pairs@[q];
                    &&& np.0@ <= target@
                    &&& reach(vals, k + 1, np.0@ as int)
                    &&& fits(np.1, k + 1)
                    &&& mask_sum(vals, np.1) == np.0@
                },
            forall|j: int|
                0 <= j < i && (#[trigger] snapshot@[j]).0@ + vals[k as int] <= target@ ==> t.contains_key(
                    (snapshot@[j].0@ + vals[k as int]) as nat,
                ) || exists|q: int|
                    0 <= q < new_pairs@.len() && new_pairs@[q].0@ == snapshot@[j].0@ + vals[k as int],
        decreases snapshot@.len() - i,
    {
        let s = &snapshot[i].0;
        let m = snapshot[i].1;
        let ns = s.plus(e);
        if !target.less_than(&ns) && !table.contains(&ns) {
            let nm = m | (1u64 << (k as u64));
            proof {
                lemma_new_entry(vals, k as int, s@ as int, m);
            }
            let ghost before = new_pairs@;
            new_pairs.push((ns, nm));
            proof {
                assert(new_pairs@[new_pairs@.len() - 1].0@ == snapshot@[i as int].0@ + vals[k as int]);
                assert forall|j: int|
                    0 <= j < i + 1 && (#[trigger] snapshot@[j]).0@ + vals[k as int] <= target@ implies t.contains_key(
                    (snapshot@[j].0@ + vals[k as int]) as nat,
                ) || exists|q: int|
                    0 <= q < new_pairs@.len() && new_pairs@[q].0@ == snapshot@[j].0@ + vals[k as int] by {
                    if j < i && !t.contains_key((snapshot@[j].0@ + vals[k as int]) as nat) {
                        let q = choose|q: int|
                            0 <= q < before.len() && before[q].0@ == snapshot@[j].0@ + vals[k as int];
                        assert(new_pairs@[q] == before[q]);
                    }
                }
            }
        }
        i = i + 1;
    }
    proof {
        assert forall|s: nat| #[trigger] t.contains_key(s) && s + vals[k as int] <= target@ implies t.contains_key(
            (s + vals[k as int]) as nat,
        ) || exists|q: int| 0 <= q < new_pairs@.len() && new_pairs@[q].0@ == s + vals[k as int] by {
            let j = choose|j: int| 0 <= j < snapshot@.len() && (#[trigger] snapshot@[j]).0@ == s;
        }
        assert forall|s: nat| #[trigger] t.contains_key(s) implies s <= target@ && reach(vals, k + 1, s as int)
            && fits(t[s], k + 1) && mask_sum(vals, t[s]) == s by {
            lemma_reach_step(vals, k as int, s as int);
        }
    }
    let mut p: usize = 0;
    while p < new_pairs.len()
        invariant
            k < vals.len(),
            p <= new_pairs@.len(),
            table_exact(t, vals, k as int, target@ as int),
            forall|s: nat| #[trigger] t.contains_key(s) ==> table_contents(*table).contains_key(s),
            forall|s: nat|
                #[trigger] table_contents(*table).contains_key(s) ==> s <= target@ && reach(vals, k + 1, s as int)
                    && fits(table_contents(*table)[s], k + 1) && mask_sum(vals, table_contents(*table)[s]) == s,
            forall|q: int|
                0 <= q < new_pairs@.len() ==> {
                    let np = #[trigger] new_pairs@[q];
                    &&& np.0@ <= target@
                    &&& reach(vals, k + 1, np.0@ as int)
                    &&& fits(np.1, k + 1)
                    &&& mask_sum(vals, np.1) == np.0@
                },
            forall|q: int| 0 <= q < p ==> table_contents(*table).contains_key((#[trigger] new_pairs@[q]).0@),
            forall|s: nat|
                #[trigger] t.contains_key(s) && s + vals[k as int] <= target@ ==> t.contains_key(
                    (s + vals[k as int]) as nat,
                ) || exists|q: int| 0 <= q < new_pairs@.len() && new_pairs@[q].0@ == s + vals[k as int],
        decreases new_pairs@.len() - p,
    {
        let key = new_pairs[p].0.copy();
        let m = new_pairs[p].1;
        let ghost before = table_contents(*table);
        table.insert_absent(key, m);
        proof {
            assert forall|s: nat| #[trigger] table_contents(*table).contains_key(s) implies s <= target@ && reach(
                vals,
                k + 1,
                s as int,
            ) && fits(table_contents(*table)[s], k + 1) && mask_sum(vals, table_contents(*table)[s]) == s by {
                if !before.contains_key(s) {
                    assert(s == new_pairs@[p as int].0@);
                } else {
                    assert(table_contents(*table)[s] == before[s]);
                }
            }
        }
        p = p + 1;
    }
    proof {
        let c = table_contents(*table);
        assert forall|s: nat| #[trigger] t.contains_key(s) && s + vals[k as int] <= target@ implies c.contains_key(
            (s + vals[k as int]) as nat,
        ) by {
            if !t.contains_key((s + vals[k as int]) as nat) {
                let q = choose|q: int| 0 <= q < new_pairs@.len() && new_pairs@[q].0@ == s + vals[k as int];
                assert(c.contains_key(new_pairs@[q].0@));
            }
        }
        assert forall|s: nat| #[trigger] t.contains_key(s) implies fits(t[s], k as int) by {}
        lemma_table_step(t, c, vals, k as int, target@ as int);
    }
}

/// Add element `k` (the big number `e`, which is `vals[k]`) to a table of the
/// subset sums of the first `k` values, looking up the complement of each new
/// sum in `left`; a hit gives the two masks.
fn grow_probe(
    table: &mut SumTable,
    e: &BigNum,
    k: usize,
    target: &BigNum,
    left: &SumTable,
    Ghost(vals): Ghost<Seq<int>>,
) -> (hit: Option<(u64, u64)>)
    requires
        k < vals.len(),
        vals.len() < 64,
        e@ == vals[k as int],
        forall|i: int| 0 <= i < vals.len() ==> vals[i] >= 0,
        table_exact(table_contents(*old(table)), vals, k as int, target@ as int),
    ensures
        hit is None ==> table_exact(table_contents(*final(table)), vals, k + 1, target@ as int),
        hit matches Some((lm, rm)) ==> {
            &&& fits(rm, k + 1)
            &&& reach(vals, k + 1, mask_sum(vals, rm))
            &&& mask_sum(vals, rm) <= target@
            &&& table_contents(*left).contains_key((target@ - mask_sum(vals, rm)) as nat)
            &&& table_contents(*left)[(target@ - mask_sum(vals, rm)) as nat] == lm
        },
{
    let ghost t = table_contents(*table);
    let snapshot = table.entries();
    let mut new_pairs: Vec<(BigNum, u64)> = Vec::new();
    let mut i: usize = 0;
    while i < snapshot.len()
        invariant
            k < vals.len(),
            vals.len() < 64,
            e@ == vals[k as int],
            t == table_contents(*table),
            table_exact(t, vals, k as int, target@ as int),
            i <= snapshot@.len(),
            forall|j: int|
                0 <= j < snapshot@.len() ==> t.contains_key((#[trigger] snapshot@[j]).0@) && t[snapshot@[j].0@]
                    == snapshot@[j].1,
            forall|q: int|
                0 <= q < new_pairs@.len() ==> {
                    let np = #[trigger] new_pairs@[q];
                    &&& np.0@ <= target@
                    &&& reach(vals, k + 1, np.0@ as int)
                    &&& fits(np.1, k + 1)
                    &&& mask_sum(vals, np.1) == np.0@
                },
            forall|j: int|
                0 <= j < i && (#[trigger] snapshot@[j]).0@ + vals[k as int] <= target@ ==> t.contains_key(
                    (snapshot@[j].0@ + vals[k as int]) as nat,
                ) || exists|q: int|
                    0 <= q < new_pairs@.len() && new_pairs@[q].0@ == snapshot@[j].0@ + vals[k as int],
        decreases snapshot@.len() - i,
    {
        let s = &snapshot[i].0;
        let m = snapshot[i].1;
        let ns = s.plus(e);
        let nm = m | (1u64 << (k as u64));
        let fits_target = !target.less_than(&ns);
        let comp = if fits_target {
            target.minus(&ns)
        } else {
            BigNum::zero()
        };
        if fits_target && !table.contains(&ns) {
            proof {
                lemma_new_entry(vals, k as int, s@ as int, m);
            }
            let ghost before = new_pairs@;
            new_pairs.push((ns, nm));
            proof {
                assert(new_pairs@[new_pairs@.len() - 1].0@ == snapshot@[i as int].0@ + vals[k as int]);
                assert forall|j: int|
                    0 <= j < i + 1 && (#[trigger] snapshot@[j]).0@ + vals[k as int] <= target@ implies t.contains_key(
                    (snapshot@[j].0@ + vals[k as int]) as nat,
                ) || exists|q: int|
                    0 <= q < new_pairs@.len() && new_pairs@[q].0@ == snapshot@[j].0@ + vals[k as int] by {
                    if j < i && !t.contains_key((snapshot@[j].0@ + vals[k as int]) as nat) {
                        let q = choose|q: int|
                            0 <= q < before.len() && before[q].0@ == snapshot@[j].0@ + vals[k as int];
                        assert(new_pairs@[q] == before[q]);
                    }
                }
            }
        }
        if fits_target {
            proof {
                assert(t.contains_key(s@) && t[s@] == m);
                lemma_new_entry(vals, k as int, s@ as int, m);
            }
            match left.get(&comp) {
                Some(lm) => {
                    return Some((lm, nm));
                },
                None => {},
            }
        }
        i = i + 1;
    }
    proof {
        assert forall|s: nat| #[trigger] t.contains_key(s) && s + vals[k as int] <= target@ implies t.contains_key(
            (s + vals[k as int]) as nat,
        ) || exists|q: int| 0 <= q < new_pairs@.len() && new_pairs@[q].0@ == s + vals[k as int] by {
            let j = choose|j: int| 0 <= j < snapshot@.len() && (#[trigger] snapshot@[j]).0@ == s;
        }
        assert forall|s: nat| #[trigger] t.contains_key(s) implies s <= target@ && reach(vals, k + 1, s as int)
            && fits(t[s], k + 1) && mask_sum(vals, t[s]) == s by {
            lemma_reach_step(vals, k as int, s as int);
        }
    }
    let mut p: usize = 0;
    while p < new_pairs.len()
        invariant
            k < vals.len(),
            p <= new_pairs@.len(),
            table_exact(t, vals, k as int, target@ as int),
            forall|s: nat| #[trigger] t.contains_key(s) ==> table_contents(*table).contains_key(s),
            forall|s: nat|
                #[trigger] table_contents(*table).contains_key(s) ==> s <= target@ && reach(vals, k + 1, s as int)
                    && fits(table_contents(*table)[s], k + 1) && mask_sum(vals, table_contents(*table)[s]) == s,
            forall|q: int|
                0 <= q < new_pairs@.len() ==> {
                    let np = #[trigger] new_pairs@[q];
                    &&& np.0@ <= target@
                    &&& reach(vals, k + 1, np.0@ as int)
                    &&& fits(np.1, k + 1)
                    &&& mask_sum(vals, np.1) == np.0@
                },
            forall|q: int| 0 <= q < p ==> table_contents(*table).contains_key((#[trigger] new_pairs@[q]).0@),
            forall|s: nat|
                #[trigger] t.contains_key(s) && s + vals[k as int] <= target@ ==> t.contains_key(
                    (s + vals[k as int]) as nat,
                ) || exists|q: int| 0 <= q < new_pairs@.len() && new_pairs@[q].0@ == s + vals[k as int],
        decreases new_pairs@.len() - p,
    {
        let key = new_pairs[p].0.copy();
        let m = new_pairs[p].1;
        let ghost before = table_contents(*table);
        table.insert_absent(key, m);
        proof {
            assert forall|s: nat| #[trigger] table_contents(*table).contains_key(s) implies s <= target@ && reach(
                vals,
                k + 1,
                s as int,
            ) && fits(table_contents(*table)[s], k + 1) && mask_sum(vals, table_contents(*table)[s]) == s by {
                if !before.contains_key(s) {
                    assert(s == new_pairs@[p as int].0@);
                } else {
                    assert(table_contents(*table)[s] == before[s]);
                }
            }
        }
        p = p + 1;
    }
    proof {
        let c = table_contents(*table);
        assert forall|s: nat| #[trigger] t.contains_key(s) && s + vals[k as int] <= target@ implies c.contains_key(
            (s + vals[k as int]) as nat,
        ) by {
            if !t.contains_key((s + vals[k as int]) as nat) {
                let q = choose|q: int| 0 <= q < new_pairs@.len() && new_pairs@[q].0@ == s + vals[k as int];
                assert(c.contains_key(new_pairs@[q].0@));
            }
        }
        assert forall|s: nat| #[trigger] t.contains_key(s) implies fits(t[s], k as int) by {}
        lemma_table_step(t, c, vals, k as int, target@ as int);
    }
    None
}

/// Copies of the big numbers of `v` at the set bits of `mask`, lowest
/// position first.
fn pick_big_nums(v: &[BigNum], mask: u64) -> (r: Vec<BigNum>)
    ensures
        big_values(r@) == picked(big_values(v@), mask, v@.len() as int),
{
    let ghost e = big_values(v@);
    let mut r: Vec<BigNum> = Vec::new();
    let mut i: usize = 0;
    while i < v.len()
        invariant
            e == big_values(v@),
            i <= v@.len(),
            big_values(r@) == picked(e, mask, i as int),
        decreases v@.len() - i,
    {
        if i < 64 && (mask >> (i as u64)) & 1 == 1 {
            let ghost before = r@;
            r.push(v[i].copy());
            proof {
                assert(bit(mask, i as int));
                assert(big_values(r@) =~= big_values(before).push(e[i as int]));
            }
        } else {
            proof {
                assert(!bit(mask, i as int));
            }
        }
        i = i + 1;
    }
    r
}

/// The answer made of the left elements at the bits of `lm` and the right
/// elements at the bits of `rm`; it is drawn from the elements.
fn join(left: &[BigNum], right: &[BigNum], lm: u64, rm: u64) -> (sol: Vec<BigNum>)
    ensures
        is_sub_multiset(big_values(sol@), big_values(left@) + big_values(right@)),
        big_values(sol@) == picked(big_values(left@), lm, left@.len() as int) + picked(
            big_values(right@),
            rm,
            right@.len() as int,
        ),
{
    let mut sol = pick_big_nums(left, lm);
    let r = pick_big_nums(right, rm);
    let ghost a = big_values(sol@);
    let mut i: usize = 0;
    while i < r.len()
        invariant
            i <= r@.len(),
            big_values(sol@) == a + big_values(r@).take(i as int),
        decreases r@.len() - i,
    {
        let ghost before = sol@;
        sol.push(r[i].copy());
        proof {
            assert(big_values(sol@) =~= big_values(before).push(r@[i as int]@ as int));
            assert(big_values(r@).take(i + 1) =~= big_values(r@).take(i as int).push(r@[i as int]@ as int));
        }
        i = i + 1;
    }
    proof {
        assert(big_values(r@).take(r@.len() as int) =~= big_values(r@));
        lemma_picked_in(big_values(left@), lm);
        lemma_picked_in(big_values(right@), rm);
        lemma_sub_multiset_concat(a, big_values(r@), big_values(left@), big_values(right@));
    }
    sol
}

/// A sum reachable with the first `k` values is reachable with the first `j`.
pub proof fn lemma_reach_extend(vals: Seq<int>, k: int, j: int, s: int)
    requires
        0 <= k <= j <= vals.len(),
        reach(vals, k, s),
    ensures
        reach(vals, j, s),
    decreases j - k,
{
    if k < j {
        lemma_reach_step(vals, k, s);
        lemma_reach_extend(vals, k + 1, j, s);
    }
}

/// A sum reachable in the left half plus one reachable in the right half is
/// reachable in the whole.
proof fn lemma_join_solvable(lv: Seq<int>, rv: Seq<int>, l: int, r: int)
    requires
        reach(lv, lv.len() as int, l),
        reach(rv, rv.len() as int, r),
    ensures
        solvable(lv + rv, l + r),
{
    let sl = choose|sel: Seq<bool>| sel.len() == lv.len() && #[trigger] sel_sum(lv, sel) == l;
    let sr = choose|sel: Seq<bool>| sel.len() == rv.len() && #[trigger] sel_sum(rv, sel) == r;
    let v = lv + rv;
    let sel = sl + sr;
    lemma_sel_sum_split(v, sel, lv.len() as int);
    assert(v.take(lv.len() as int) =~= lv);
    assert(v.skip(lv.len() as int) =~= rv);
    assert(sel.take(lv.len() as int) =~= sl);
    assert(sel.skip(lv.len() as int) =~= sr);
    assert(sel_sum(v, sel) == l + r);
}

impl MitmEngine {
    /// Decide instances of up to 50 elements: an answer, or a proof that
    /// there is none, or nothing when stopped.
    pub fn solve(sh: &Shared) -> (v: Verdict)
        ensures
            verdict_ok(v, sh.profile.values(), sh.profile.target_value()),
            sh.profile.values().len() > 50 ==> v is Unknown,
            sh.profile.values().len() <= 1 && sh.profile.target_value() == 0 ==> v is Found,
    {
        Self::decide(sh).0
    }

    /// The search behind `solve`, with whether the stop flag cut it short.
    /// Unless it was cut short, an instance of up to 50 elements is decided:
    /// an answer when one exists, `Impossible` when none does.
    pub fn decide(sh: &Shared) -> (r: (Verdict, bool))
        ensures
            verdict_ok(r.0, sh.profile.values(), sh.profile.target_value()),
            sh.profile.values().len() > 50 ==> r.0 is Unknown && !r.1,
            sh.profile.values().len() <= 1 && sh.profile.target_value() == 0 ==> r.0 is Found,
            r.1 ==> r.0 is Unknown,
            sh.profile.values().len() <= 50 && !r.1 ==> !(r.0 is Unknown),
            sh.profile.values().len() <= 50 && !r.1 && solvable(sh.profile.values(), sh.profile.target_value())
                ==> r.0 is Found,
            sh.profile.values().len() <= 50 && !r.1 && !solvable(sh.profile.values(), sh.profile.target_value())
                ==> r.0 is Impossible,
    {
        let p = &sh.profile;
        let n = p.n();
        if n > 50 {
            return (Verdict::Unknown, false);
        }
        let mid = n / 2;
        let nums = p.numbers();
        let target = p.target();
        let ghost vals = p.values();
        let left_nums = &nums.as_slice()[0..mid];
        let right_nums = &nums.as_slice()[mid..n];
        let ghost lv = big_values(left_nums@);
        let ghost rv = big_values(right_nums@);
        proof {
            assert(lv =~= vals.take(mid as int));
            assert(rv =~= vals.skip(mid as int));
            assert(vals =~= lv + rv);
        }
        let mut left = SumTable::with_zero();
        proof {
            assert forall|s: nat| #[trigger] table_contents(left).contains_key(s) <==> (s <= target@ && reach(
                lv,
                0,
                s as int,
            )) by {
                lemma_reach_zero(lv, s as int);
            }
            assert(picked(lv, 0, lv.len() as int) =~= Seq::<int>::empty()) by {
                crate::bits::lemma_zero_no_bits(0u64);
                crate::bits::lemma_picked_gap(lv, 0u64, 0, lv.len() as int);
            }
            assert(fits(0u64, 0)) by {
                crate::bits::lemma_zero_no_bits(0u64);
            }
        }
        let mut b: usize = 0;
        while b < mid
            invariant
                sh.profile.values().len() <= 50,
                b <= mid,
                mid == left_nums@.len(),
                mid <= 25,
                sh.profile.values().len() <= 1 ==> mid == 0,
                lv == big_values(left_nums@),
                table_exact(table_contents(left), lv, b as int, target@ as int),
            decreases mid - b,
        {
            if sh.stopped() {
                return (Verdict::Unknown, true);
            }
            grow(&mut left, &left_nums[b], b, target, Ghost(lv));
            b = b + 1;
        }
        proof {
            if mid == 0 {
                lemma_reach_zero(lv, 0);
            }
        }
        match left.get(target) {
            Some(m) => {
                let sol = pick_big_nums(left_nums, m);
                proof {
                    assert(crate::spec::sum_of(big_values(sol@)) == target@);
                    assert(table_contents(left).contains_key(target@));
                    lemma_reach_zero(rv, 0);
                    lemma_reach_extend(rv, 0, rv.len() as int, 0);
                    lemma_join_solvable(lv, rv, target@ as int, 0);
                    lemma_picked_in(lv, m);
                    crate::engines::bitset_dp::lemma_subrange_in(vals, 0, mid as int);
                    assert(vals.subrange(0, mid as int) =~= lv);
                    crate::spec::lemma_sub_multiset_trans(big_values(sol@), lv, vals);
                }
                return (checked(sol, p), false);
            },
            None => {
                assert(sh.profile.values().len() <= 1 ==> sh.profile.target_value() != 0);
            },
        }
        let rn = n - mid;
        let mut right = SumTable::with_zero();
        proof {
            assert forall|s: nat| #[trigger] table_contents(right).contains_key(s) <==> (s <= target@ && reach(
                rv,
                0,
                s as int,
            )) by {
                lemma_reach_zero(rv, s as int);
            }
            assert(picked(rv, 0, rv.len() as int) =~= Seq::<int>::empty()) by {
                crate::bits::lemma_zero_no_bits(0u64);
                crate::bits::lemma_picked_gap(rv, 0u64, 0, rv.len() as int);
            }
            assert(fits(0u64, 0)) by {
                crate::bits::lemma_zero_no_bits(0u64);
            }
        }
        let mut b: usize = 0;
        while b < rn
            invariant
                sh.profile.values().len() <= 50,
                b <= rn,
                rn == right_nums@.len(),
                rn <= 25,
                rv == big_values(right_nums@),
                lv == big_values(left_nums@),
                vals == p.values(),
                sh.profile == *p,
                vals == lv + rv,
                sh.profile.values().len() <= 1 ==> sh.profile.target_value() != 0,
                table_exact(table_contents(right), rv, b as int, target@ as int),
                table_exact(table_contents(left), lv, mid as int, target@ as int),
                mid == left_nums@.len(),
                target@ == sh.profile.target_value(),
            decreases rn - b,
        {
            if sh.stopped() {
                return (Verdict::Unknown, true);
            }
            match grow_probe(&mut right, &right_nums[b], b, target, &left, Ghost(rv)) {
                Some((lm, rm)) => {
                    let sol = join(left_nums, right_nums, lm, rm);
                    proof {
                        assert(table_contents(left).contains_key((target@ - mask_sum(rv, rm)) as nat));
                        lemma_reach_extend(rv, b + 1, rv.len() as int, mask_sum(rv, rm));
                        lemma_join_solvable(lv, rv, target@ - mask_sum(rv, rm), mask_sum(rv, rm));
                        crate::spec::lemma_sum_of_concat(picked(lv, lm, lv.len() as int), picked(rv, rm, rv.len() as int));
                    }
                    return (checked(sol, p), false);
                },
                None => {},
            }
            b = b + 1;
        }
        let all = right.entries();
        let mut i: usize = 0;
        while i < all.len()
            invariant
                sh.profile.values().len() <= 50,
                i <= all@.len(),
                rv == big_values(right_nums@),
                lv == big_values(left_nums@),
                vals == p.values(),
                sh.profile == *p,
                vals == lv + rv,
                sh.profile.values().len() <= 1 ==> sh.profile.target_value() != 0,
                target@ == sh.profile.target_value(),
                rn == right_nums@.len(),
                mid == left_nums@.len(),
                table_exact(table_contents(left), lv, mid as int, target@ as int),
                forall|j: int|
                    0 <= j < all@.len() ==> table_contents(right).contains_key((#[trigger] all@[j]).0@)
                        && table_contents(right)[all@[j].0@] == all@[j].1,
                table_exact(table_contents(right), rv, rn as int, target@ as int),
                forall|j: int|
                    0 <= j < i ==> !table_contents(left).contains_key((target@ - (#[trigger] all@[j]).0@) as nat),
            decreases all@.len() - i,
        {
            if sh.stopped() {
                return (Verdict::Unknown, true);
            }
            let comp = target.minus(&all[i].0);
            match left.get(&comp) {
                Some(lm) => {
                    let sol = join(left_nums, right_nums, lm, all[i].1);
                    proof {
                        assert(table_contents(right).contains_key(all@[i as int].0@));
                        assert(table_contents(left).contains_key(comp@));
                        assert(mask_sum(lv, lm) == comp@);
                        assert(mask_sum(rv, all@[i as int].1) == all@[i as int].0@);
                        lemma_join_solvable(lv, rv, comp@ as int, all@[i as int].0@ as int);
                        crate::spec::lemma_sum_of_concat(
                            picked(lv, lm, lv.len() as int),
                            picked(rv, all@[i as int].1, rv.len() as int),
                        );
                    }
                    return (checked(sol, p), false);
                },
                None => {},
            }
            i = i + 1;
        }
        proof {
            if solvable(vals, target@ as int) {
                let sel = choose|sel: Seq<bool>| sel.len() == vals.len() && #[trigger] sel_sum(vals, sel) == target@;
                lemma_sel_sum_split(vals, sel, mid as int);
                assert(vals.take(mid as int) =~= lv);
                assert(vals.skip(mid as int) =~= rv);
                let l = sel_sum(lv, sel.take(mid as int));
                let r = sel_sum(rv, sel.skip(mid as int));
                lemma_sel_sum_nonneg(lv, sel.take(mid as int));
                lemma_sel_sum_nonneg(rv, sel.skip(mid as int));
                assert(reach(lv, mid as int, l));
                assert(reach(rv, rn as int, r));
                assert(table_contents(right).contains_key(r as nat));
                let j = choose|j: int| 0 <= j < all@.len() && (#[trigger] all@[j]).0@ == r as nat;
                assert(table_contents(left).contains_key(l as nat));
                assert(false);
            }
        }
        (Verdict::Impossible, false)
    }
}

impl Engine for MitmEngine {
    fn name(&self) -> (r: &'static str)
        ensures
            r == crate::scheduler::EngineId::Mitm.label(),
    {
        "MITM"
    }

    fn run(&self, sh: &Shared) {
        let v = Self::solve(sh);
        sh.apply(v, "MITM");
    }
}

} // verus!
