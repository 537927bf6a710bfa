//! MD-MITM: a magnitude hierarchy searched level by level.
//!
//! The elements, largest first, are cut into levels where the ratio of
//! consecutive values exceeds 4 (and into chunks of at most 28). For each
//! level a depth-first search lists the reachable sums up to the target
//! (each with the elements giving it); levels are combined by backtracking
//! until the sums meet the target.
use crate::bignum::{copy_all, sort_big_desc, BigNum};
use crate::controller::{checked, verdict_ok, Engine, Shared, Verdict};
use crate::engines::bitset_dp::lemma_subrange_in;
use crate::profile::big_values;
use crate::spec::{
    is_sub_multiset, lemma_empty_sub_multiset, lemma_sub_multiset_concat, lemma_sub_multiset_push,
    lemma_sub_multiset_trans, lemma_sum_of_concat, lemma_sum_of_push, sum_of, reach, lemma_reach_zero, tail_reach,
    lemma_tail_step, lemma_tail_end, lemma_tail_nonneg, solvable, subseq_of, lemma_subseq_take_lift,
};
use num_bigint::BigUint;
use std::collections::HashMap;
use vstd::prelude::*;

verus! {

broadcast use vstd::seq_lib::group_to_multiset_ensures, vstd::multiset::group_multiset_axioms;

pub struct MdMitmEngine;

/// Largest number of elements in one level.
pub const MAX_ELEMS_PER_LEVEL: usize = 28;

/// Modulus of the trailing-digit compatibility test.
pub const COMPAT_MODULUS: u32 = 10_000;

/// One level of the hierarchy.
pub struct Level {
    pub elements: Vec<BigNum>,
}

/// The values of all levels, level after level.
pub open spec fn flat(levels: Seq<Level>) -> Seq<int>
    decreases levels.len(),
{
    if levels.len() == 0 {
        Seq::empty()
    } else {
        big_values(levels[0].elements@) + flat(levels.drop_first())
    }
}

proof fn lemma_flat_push(levels: Seq<Level>, l: Level)
    ensures
        flat(levels.push(l)) == flat(levels) + big_values(l.elements@),
    decreases levels.len(),
{
    let p = levels.push(l);
    if levels.len() == 0 {
        assert(p.drop_first() =~= Seq::<Level>::empty());
        assert(p[0] == l);
        assert(flat(p.drop_first()) == Seq::<int>::empty());
        assert(flat(p) == big_values(l.elements@) + Seq::<int>::empty());
        assert(big_values(l.elements@) + Seq::<int>::empty() =~= big_values(l.elements@));
        assert(flat(levels) == Seq::<int>::empty());
        assert(Seq::<int>::empty() + big_values(l.elements@) =~= big_values(l.elements@));
    } else {
        assert(p.drop_first() =~= levels.drop_first().push(l));
        lemma_flat_push(levels.drop_first(), l);
        assert(p[0] == levels[0]);
        assert(flat(p) == big_values(levels[0].elements@) + flat(p.drop_first()));
        assert(flat(levels) == big_values(levels[0].elements@) + flat(levels.drop_first()));
        assert(flat(p) =~= flat(levels) + big_values(l.elements@));
    }
}

proof fn lemma_flat_skip(levels: Seq<Level>, idx: int)
    requires
        0 <= idx < levels.len(),
    ensures
        flat(levels.skip(idx)) == big_values(levels[idx].elements@) + flat(levels.skip(idx + 1)),
{
    assert(levels.skip(idx).drop_first() =~= levels.skip(idx + 1));
    assert(levels.skip(idx)[0] == levels[idx]);
}

/// A table from reachable sums (big numbers) to the elements giving each,
/// held in a `HashMap<BigUint, Vec<BigUint>>`.
#[verifier::external_body]
pub struct PathTable {
    map: HashMap<BigUint, Vec<BigUint>>,
}

/// What a table holds: each sum, as a number, with the values of its elements.
pub uninterp spec fn path_table_contents(t: PathTable) -> Map<nat, Seq<int>>;

/// The table with no entries.
pub open spec fn no_paths() -> Map<nat, Seq<int>> {
    Map::empty()
}

impl PathTable {
    /// An empty table, by `HashMap::new`.
    #[verifier::external_body]
    fn empty() -> (t: PathTable)
        ensures
            path_table_contents(t) == no_paths(),
    {
        PathTable { map: HashMap::new() }
    }

    /// A table holding only the empty sum with no elements.
    fn with_empty() -> (t: PathTable)
        ensures
            path_table_contents(t) == map![0nat => Seq::<int>::empty()],
    {
        let mut t = PathTable::empty();
        let none: Vec<BigNum> = Vec::new();
        t.put(&BigNum::zero(), &none);
        proof {
            assert(big_values(none@) =~= Seq::<int>::empty());
            assert(path_table_contents(t) =~= map![0nat => Seq::<int>::empty()]);
        }
        t
    }

    /// The number of entries, by `HashMap::len`.
    #[verifier::external_body]
    fn len(&self) -> (r: usize)
        ensures
            r == path_table_contents(*self).dom().len(),
    {
        self.map.len()
    }

    /// Store `path` for `key` unless `key` has an entry.
    fn insert_absent(&mut self, key: &BigNum, path: &Vec<BigNum>)
        ensures
            path_table_contents(*final(self)) == if path_table_contents(*old(self)).contains_key(key@) {
                path_table_contents(*old(self))
            } else {
                path_table_contents(*old(self)).insert(key@, big_values(path@))
            },
    {
        if self.stored_len(key).is_none() {
            self.put(key, path);
        }
    }

    /// The length of the element list stored for `key`, if `key` has an
    /// entry, by `HashMap::get`.
    #[verifier::external_body]
    fn stored_len(&self, key: &BigNum) -> (r: Option<usize>)
        ensures
            r is Some <==> path_table_contents(*self).contains_key(key@),
            r matches Some(l) ==> l == path_table_contents(*self)[key@].len(),
    {
        self.map.get(&BigUint::new(key.to_u32_digits())).map(|v| v.len())
    }

    /// Store `path` for `key`, replacing what was there, by `HashMap::insert`.
    #[verifier::external_body]
    fn put(&mut self, key: &BigNum, path: &Vec<BigNum>)
        ensures
            path_table_contents(*final(self)) == path_table_contents(*old(self)).insert(key@, big_values(path@)),
    {
        self.map.insert(
            BigUint::new(key.to_u32_digits()),
            path.iter().map(|b| BigUint::new(b.to_u32_digits())).collect(),
        );
    }

    /// Every entry, once each, in the map's iteration order (which depends
    /// on the hasher's random seed), by `HashMap::iter`.
    #[verifier::external_body]
    fn entries(&self) -> (r: Vec<(BigNum, Vec<BigNum>)>)
        ensures
            forall|i: int|
                0 <= i < r@.len() ==> path_table_contents(*self).contains_key((#[trigger] r@[i]).0@)
                    && path_table_contents(*self)[r@[i].0@] == big_values(r@[i].1@),
            forall|s: nat|
                #[trigger] path_table_contents(*self).contains_key(s) ==> exists|i: int|
                    0 <= i < r@.len() && (#[trigger] r@[i]).0@ == s,
    {
        self.map.iter().map(
            |(k, p)|
                (
                    BigNum::from_u32_digits(k.to_u32_digits()),
                    p.iter().map(|b| BigNum::from_u32_digits(b.to_u32_digits())).collect(),
                ),
        ).collect()
    }
}

/// Every entry of the table is a sum of elements of `vals` (drawn as a
/// sub-multiset) with the values that give it.
pub open spec fn table_ok(t: Map<nat, Seq<int>>, vals: Seq<int>) -> bool {
    forall|k: nat| #[trigger] t.contains_key(k) ==> is_sub_multiset(t[k], vals) && sum_of(t[k]) == k
}

/// Every key of `t` is at most `target`.
pub open spec fn keys_at_most(t: Map<nat, Seq<int>>, target: int) -> bool {
    forall|k: nat| #[trigger] t.contains_key(k) ==> k <= target
}

/// The table has finitely many keys, holds the empty path for 0, and every
/// path is drawn from `vals` in order.
pub open spec fn table_shape(t: Map<nat, Seq<int>>, vals: Seq<int>) -> bool {
    &&& t.dom().finite()
    &&& t.contains_key(0) && t[0] == Seq::<int>::empty()
    &&& forall|k: nat| #[trigger] t.contains_key(k) ==> subseq_of(t[k], vals)
}

/// Keys only added: a table keeps at least as many keys as an earlier one
/// whose keys it holds.
proof fn lemma_keys_grow(a: Map<nat, Seq<int>>, b: Map<nat, Seq<int>>)
    requires
        b.dom().finite(),
        forall|k: nat| #[trigger] a.contains_key(k) ==> b.contains_key(k),
    ensures
        a.dom().len() <= b.dom().len(),
{
    assert(a.dom().subset_of(b.dom()));
    vstd::set_lib::lemma_len_subset(a.dom(), b.dom());
}

/// The depth-first search of one level: from position `start`, with `path`
/// (summing to `current`) taken so far. Keys are only added. The results
/// are whether the search went through (`complete`) and whether the stop
/// flag cut it short (`cut`); when it went through, every sum of `current`
/// and a selection of the elements from `start` on that stays within
/// `target` is a key afterwards, and it fails to go through without the stop
/// flag only when the table has reached `max_sums` keys.
fn dfs(
    elements: &[BigNum],
    target: &BigNum,
    start: usize,
    current: &BigNum,
    path: &Vec<BigNum>,
    result: &mut PathTable,
    max_sums: usize,
    sh: &Shared,
) -> (r: (bool, bool))
    requires
        start <= elements@.len(),
        current@ <= target@,
        target@ > 0,
        table_shape(path_table_contents(*old(result)), big_values(elements@)),
        subseq_of(big_values(path@), big_values(elements@).take(start as int)),
        table_ok(path_table_contents(*old(result)), big_values(elements@)),
        keys_at_most(path_table_contents(*old(result)), target@ as int),
        is_sub_multiset(big_values(path@), big_values(elements@).take(start as int)),
        sum_of(big_values(path@)) == current@,
    ensures
        table_ok(path_table_contents(*final(result)), big_values(elements@)),
        keys_at_most(path_table_contents(*final(result)), target@ as int),
        forall|k: nat| #[trigger]
            path_table_contents(*old(result)).contains_key(k) ==> path_table_contents(*final(result)).contains_key(k),
        table_shape(path_table_contents(*final(result)), big_values(elements@)),
        r.0 ==> forall|x: int|
            #[trigger] tail_reach(big_values(elements@), start as int, x) && current@ + x <= target@
                ==> path_table_contents(*final(result)).contains_key((current@ + x) as nat),
        r.1 ==> !r.0,
        !r.0 && !r.1 ==> path_table_contents(*final(result)).dom().len() >= max_sums,
    decreases elements@.len() - start,
{
    let ghost vals = big_values(elements@);
    let ghost t0 = path_table_contents(*result);
    proof {
        lemma_subrange_in(vals, 0, start as int);
        assert(vals.take(start as int) =~= vals.subrange(0, start as int));
        lemma_sub_multiset_trans(big_values(path@), vals.take(start as int), vals);
        assert forall|i: int| 0 <= i < vals.len() implies vals[i] >= 0 by {}
        lemma_subseq_take_lift(big_values(path@), vals, start as int, vals.len() as int);
        assert(vals.take(vals.len() as int) =~= vals);
    }
    if sh.stopped() {
        return (false, true);
    }
    if result.len() >= max_sums {
        return (false, false);
    }
    if !target.is_zero() && current.equals(target) {
        let filled = match result.stored_len(current) {
            Some(l) => l > 0,
            None => false,
        };
        if !filled {
            result.put(current, path);
        }
        proof {
            assert forall|x: int|
                #[trigger] tail_reach(vals, start as int, x) && current@ + x <= target@ implies path_table_contents(
                *result,
            ).contains_key((current@ + x) as nat) by {
                lemma_tail_nonneg(vals, start as int, x);
            }
        }
        return (true, false);
    }
    if start >= elements.len() {
        result.insert_absent(current, path);
        proof {
            assert forall|x: int|
                #[trigger] tail_reach(vals, start as int, x) && current@ + x <= target@ implies path_table_contents(
                *result,
            ).contains_key((current@ + x) as nat) by {
                lemma_tail_end(vals, x);
            }
        }
        return (true, false);
    }
    let mut complete = true;
    let mut cut = false;
    let mut i = start;
    while i < elements.len()
        invariant
            start <= i <= elements@.len(),
            vals == big_values(elements@),
            forall|j: int| 0 <= j < vals.len() ==> vals[j] >= 0,
            current@ <= target@,
            table_ok(path_table_contents(*result), vals),
            keys_at_most(path_table_contents(*result), target@ as int),
            t0 == path_table_contents(*old(result)),
            forall|k: nat| #[trigger] t0.contains_key(k) ==> path_table_contents(*result).contains_key(k),
            is_sub_multiset(big_values(path@), vals.take(start as int)),
            sum_of(big_values(path@)) == current@,
            target@ > 0,
            table_shape(path_table_contents(*result), vals),
            subseq_of(big_values(path@), vals.take(start as int)),
            cut ==> !complete,
            !complete && !cut ==> path_table_contents(*result).dom().len() >= max_sums,
            complete ==> forall|x: int|
                #[trigger] tail_reach(vals, start as int, x) && current@ + x <= target@ ==> path_table_contents(
                    *result,
                ).contains_key((current@ + x) as nat) || tail_reach(vals, i as int, x),
        decreases elements@.len() - i,
    {
        if sh.stopped() {
            return (false, true);
        }
        if result.len() >= max_sums {
            return (false, false);
        }
        let ghost before = path_table_contents(*result);
        let v = &elements[i];
        let new_sum = current.plus(v);
        if target.less_than(&new_sum) {
            proof {
                if complete {
                    assert forall|x: int|
                        #[trigger] tail_reach(vals, start as int, x) && current@ + x <= target@ implies path_table_contents(
                        *result,
                    ).contains_key((current@ + x) as nat) || tail_reach(vals, i + 1, x) by {
                        if !path_table_contents(*result).contains_key((current@ + x) as nat) {
                            assert(tail_reach(vals, i as int, x));
                            lemma_tail_step(vals, i as int, x);
                            if !tail_reach(vals, i + 1, x) {
                                lemma_tail_nonneg(vals, i + 1, x - vals[i as int]);
                            }
                        }
                    }
                }
            }
            i = i + 1;
            continue;
        }
        let mut new_path = copy_all(path.as_slice());
        new_path.push(v.copy());
        proof {
            assert(big_values(new_path@) =~= big_values(path@).push(vals[i as int]));
            lemma_subrange_in(vals.take(i as int), 0, start as int);
            assert(vals.take(i as int).subrange(0, start as int) =~= vals.take(start as int));
            lemma_sub_multiset_trans(big_values(path@), vals.take(start as int), vals.take(i as int));
            lemma_sub_multiset_push(big_values(path@), vals.take(i as int), vals[i as int]);
            assert(vals.take(i as int).push(vals[i as int]) =~= vals.take(i + 1));
            lemma_sum_of_push(big_values(path@), vals[i as int]);
            lemma_subseq_take_lift(big_values(path@), vals, start as int, i as int);
            crate::spec::lemma_subseq_push(big_values(path@), vals.take(i as int), vals[i as int]);
        }
        let (c, c_cut) = dfs(elements, target, i + 1, &new_sum, &new_path, result, max_sums, sh);
        proof {
            lemma_keys_grow(before, path_table_contents(*result));
            if complete && c {
                assert forall|x: int|
                    #[trigger] tail_reach(vals, start as int, x) && current@ + x <= target@ implies path_table_contents(
                    *result,
                ).contains_key((current@ + x) as nat) || tail_reach(vals, i + 1, x) by {
                    if before.contains_key((current@ + x) as nat) {
                    } else {
                        assert(tail_reach(vals, i as int, x));
                        lemma_tail_step(vals, i as int, x);
                        if !tail_reach(vals, i + 1, x) {
                            let y = x - vals[i as int];
                            assert(tail_reach(vals, i + 1, y));
                            assert(new_sum@ + y == current@ + x);
                        }
                    }
                }
            }
        }
        if !c {
            complete = false;
        }
        if c_cut {
            cut = true;
        }
        i = i + 1;
    }
    proof {
        lemma_subrange_in(vals, 0, start as int);
    }
    let ghost before_last = path_table_contents(*result);
    result.insert_absent(current, path);
    proof {
        lemma_keys_grow(before_last, path_table_contents(*result));
        if complete {
            assert forall|x: int|
                #[trigger] tail_reach(vals, start as int, x) && current@ + x <= target@ implies path_table_contents(
                *result,
            ).contains_key((current@ + x) as nat) by {
                if tail_reach(vals, elements@.len() as int, x) {
                    lemma_tail_end(vals, x);
                }
            }
        }
    }
    (complete, cut)
}

/// The reachable sums of a level, none above `target`, each with elements
/// giving it (drawn from the level in order; nothing for 0); whether the
/// list is whole; and whether the stop flag cut the search short. The list
/// falls short of the reachable sums only when the stop flag cut it short
/// or it has reached `max_sums` entries.
fn enumerate_sums(elements: &[BigNum], target: &BigNum, max_sums: usize, sh: &Shared) -> (r: (PathTable, bool, bool))
    ensures
        table_ok(path_table_contents(r.0), big_values(elements@)),
        keys_at_most(path_table_contents(r.0), target@ as int),
        table_shape(path_table_contents(r.0), big_values(elements@)),
        elements@.len() == 0 || target@ == 0 ==> path_table_contents(r.0) == map![0nat => Seq::<int>::empty()] && r.1,
        r.2 ==> !r.1,
        !r.2 && path_table_contents(r.0).dom().len() < max_sums ==> r.1,
        r.1 ==> forall|s: int|
            0 <= s <= target@ && #[trigger] reach(big_values(elements@), elements@.len() as int, s)
                ==> path_table_contents(r.0).contains_key(s as nat),
{
    let ghost vals = big_values(elements@);
    let mut result = PathTable::with_empty();
    proof {
        lemma_empty_sub_multiset(vals);
        assert(sum_of(Seq::<int>::empty()) == 0);
    }
    if elements.len() == 0 || target.is_zero() {
        proof {
            assert forall|s: int|
                0 <= s <= target@ && #[trigger] reach(vals, elements@.len() as int, s) implies path_table_contents(
                result,
            ).contains_key(s as nat) by {
                if elements@.len() == 0 {
                    lemma_reach_zero(vals, s);
                }
            }
            crate::spec::lemma_subseq_empty(vals);
            assert(path_table_contents(result).dom() =~= set![0nat]);
        }
        return (result, true, false);
    }
    let zero = BigNum::zero();
    let empty: Vec<BigNum> = Vec::new();
    proof {
        assert(big_values(empty@) =~= Seq::<int>::empty());
        lemma_empty_sub_multiset(vals.take(0));
    }
    let ghost t0 = path_table_contents(result);
    proof {
        crate::spec::lemma_subseq_empty(vals);
        crate::spec::lemma_subseq_empty(vals.take(0));
        assert(t0.dom() =~= set![0nat]);
    }
    let (complete, cut) = dfs(elements, target, 0, &zero, &empty, &mut result, max_sums, sh);
    proof {
        assert(t0.contains_key(0));
        assert(vals.subrange(0, vals.len() as int) =~= vals);
        if complete {
            assert forall|s: int|
                0 <= s <= target@ && #[trigger] reach(vals, elements@.len() as int, s) implies path_table_contents(
                result,
            ).contains_key(s as nat) by {
                assert(tail_reach(vals, 0, s));
            }
        }
    }
    (result, complete, cut)
}

/// Whether the last four decimal digits of `s1` and `s2` add up to those of
/// `target`.
pub fn digit_compatible(s1: &BigNum, s2: &BigNum, target: &BigNum) -> (r: bool)
    ensures
        r == ((s1@ % 10000 + s2@ % 10000) % 10000 == target@ % 10000),
{
    let s1_mod = s1.rem_u32(COMPAT_MODULUS);
    let s2_mod = s2.rem_u32(COMPAT_MODULUS);
    let t_mod = target.rem_u32(COMPAT_MODULUS);
    let sum_mod = s1_mod.plus(&s2_mod).rem_u32(COMPAT_MODULUS);
    sum_mod.equals(&t_mod)
}

/// The values of levels are never negative.
proof fn lemma_flat_nonneg(levels: Seq<Level>)
    ensures
        forall|i: int| 0 <= i < flat(levels).len() ==> flat(levels)[i] >= 0,
    decreases levels.len(),
{
    if levels.len() > 0 {
        lemma_flat_nonneg(levels.drop_first());
        let h = big_values(levels[0].elements@);
        assert forall|i: int| 0 <= i < flat(levels).len() implies flat(levels)[i] >= 0 by {
            if i < h.len() {
                assert(flat(levels)[i] == h[i]);
            } else {
                assert(flat(levels)[i] == flat(levels.drop_first())[i - h.len()]);
            }
        }
    }
}

/// The distinct subset sums of `vals` from 0 to `b`.
pub open spec fn sums_upto(vals: Seq<int>, b: int) -> Set<nat> {
    Set::new(|s: nat| s <= b && solvable(vals, s as int))
}

/// `vals` has more distinct subset sums up to `b` than a table indexed by
/// `usize` can hold.
pub open spec fn too_many_sums(vals: Seq<int>, b: int) -> bool {
    sums_upto(vals, b).len() >= usize::MAX
}

/// A subset sum of a sub-multiset is a subset sum of the whole.
proof fn lemma_solvable_sub(a: Seq<int>, b: Seq<int>, s: int)
    requires
        is_sub_multiset(a, b),
        solvable(a, s),
    ensures
        solvable(b, s),
{
    let sel = choose|sel: Seq<bool>| sel.len() == a.len() && #[trigger] crate::spec::sel_sum(a, sel) == s;
    crate::select::lemma_chosen(a, sel);
    assert(a.take(a.len() as int) =~= a);
    crate::spec::lemma_sub_multiset_trans(crate::select::chosen(a, sel), a, b);
    crate::spec::lemma_sub_multiset_reach(crate::select::chosen(a, sel), b);
    crate::spec::lemma_solvable_reach(b, s);
}

/// Fewer values and a lower bound leave no more distinct sums.
proof fn lemma_sums_upto_mono(a: Seq<int>, ba: int, b: Seq<int>, bb: int)
    requires
        is_sub_multiset(a, b),
        ba <= bb,
    ensures
        sums_upto(a, ba).subset_of(sums_upto(b, bb)),
        bb >= 0 ==> sums_upto(b, bb).finite(),
        bb >= 0 ==> sums_upto(a, ba).len() <= sums_upto(b, bb).len(),
{
    assert forall|s: nat| sums_upto(a, ba).contains(s) implies sums_upto(b, bb).contains(s) by {
        lemma_solvable_sub(a, b, s as int);
    }
    if bb >= 0 {
        crate::spec::lemma_upto_finite(bb as nat);
        vstd::set_lib::lemma_len_subset(sums_upto(b, bb), Set::new(|s: nat| s <= bb as nat));
        assert(sums_upto(b, bb).subset_of(Set::new(|s: nat| s <= bb as nat)));
        vstd::set_lib::lemma_set_subset_finite(Set::new(|s: nat| s <= bb as nat), sums_upto(b, bb));
        vstd::set_lib::lemma_len_subset(sums_upto(a, ba), sums_upto(b, bb));
    }
}

/// Backtracking over the levels from `level_idx`: on success `current_solution`
/// gains elements of those levels that add `target - current_sum`. The
/// second result tells whether the stop flag cut the search short, the third
/// whether a level's table of sums filled up (which takes more distinct sums
/// than `usize` counts); when neither happened, it succeeds whenever some
/// selection of those levels' elements adds `target - current_sum`.
fn combine_levels(
    levels: &Vec<Level>,
    level_idx: usize,
    current_sum: &BigNum,
    target: &BigNum,
    current_solution: &mut Vec<BigNum>,
    sh: &Shared,
) -> (r: (bool, bool, bool))
    requires
        level_idx <= levels@.len(),
        current_sum@ <= target@,
    ensures
        r.0 ==> final(current_solution)@.len() >= old(current_solution)@.len(),
        r.0 ==> big_values(final(current_solution)@).take(old(current_solution)@.len() as int) == big_values(
            old(current_solution)@,
        ),
        r.0 ==> is_sub_multiset(
            big_values(final(current_solution)@).skip(old(current_solution)@.len() as int),
            flat(levels@.skip(level_idx as int)),
        ),
        r.0 ==> sum_of(big_values(final(current_solution)@).skip(old(current_solution)@.len() as int))
            == target@ - current_sum@,
        !r.0 ==> final(current_solution)@ == old(current_solution)@,
        r.1 ==> !r.0,
        r.2 ==> !r.0,
        r.2 ==> too_many_sums(flat(levels@.skip(level_idx as int)), target@ - current_sum@),
        !r.1 && !r.2 && solvable(flat(levels@.skip(level_idx as int)), target@ - current_sum@) ==> r.0,
    decreases levels@.len() - level_idx,
{
    let ghost start = current_solution@;
    let ghost fl = flat(levels@.skip(level_idx as int));
    if sh.stopped() {
        return (false, true, false);
    }
    if level_idx >= levels.len() {
        proof {
            assert(levels@.skip(level_idx as int) =~= Seq::<Level>::empty());
            assert(fl =~= Seq::<int>::empty());
            crate::spec::lemma_solvable_reach(fl, target@ - current_sum@);
            lemma_reach_zero(fl, target@ - current_sum@);
        }
        if current_sum.equals(target) {
            proof {
                assert(big_values(current_solution@).take(start.len() as int) =~= big_values(start));
                assert(big_values(current_solution@).skip(start.len() as int) =~= Seq::<int>::empty());
                lemma_empty_sub_multiset(flat(levels@.skip(level_idx as int)));
            }
            return (true, false, false);
        }
        return (false, false, false);
    }
    let mut max_remaining = BigNum::zero();
    let mut l = level_idx;
    proof {
        assert(levels@.subrange(level_idx as int, level_idx as int) =~= Seq::<Level>::empty());
    }
    while l < levels.len()
        invariant
            level_idx <= l <= levels@.len(),
            max_remaining@ == sum_of(flat(levels@.subrange(level_idx as int, l as int))),
        decreases levels@.len() - l,
    {
        let els = &levels[l].elements;
        let ghost base = flat(levels@.subrange(level_idx as int, l as int));
        let ghost ev = big_values(els@);
        let mut e: usize = 0;
        proof {
            assert(ev.take(0) =~= Seq::<int>::empty());
            assert(base + ev.take(0) =~= base);
        }
        while e < els.len()
            invariant
                e <= els@.len(),
                ev == big_values(els@),
                max_remaining@ == sum_of(base + ev.take(e as int)),
            decreases els@.len() - e,
        {
            proof {
                assert(base + ev.take(e + 1) =~= (base + ev.take(e as int)).push(ev[e as int]));
                lemma_sum_of_push(base + ev.take(e as int), ev[e as int]);
            }
            max_remaining = max_remaining.plus(&els[e]);
            e = e + 1;
        }
        proof {
            assert(ev.take(els@.len() as int) =~= ev);
            assert(levels@.subrange(level_idx as int, l + 1) =~= levels@.subrange(level_idx as int, l as int).push(
                levels@[l as int],
            ));
            lemma_flat_push(levels@.subrange(level_idx as int, l as int), levels@[l as int]);
        }
        l = l + 1;
    }
    proof {
        assert(levels@.subrange(level_idx as int, levels@.len() as int) =~= levels@.skip(level_idx as int));
        lemma_flat_nonneg(levels@.skip(level_idx as int));
    }
    if current_sum.plus(&max_remaining).less_than(target) {
        proof {
            if solvable(fl, target@ - current_sum@) {
                let sel = choose|sel: Seq<bool>| sel.len() == fl.len() && #[trigger] crate::spec::sel_sum(fl, sel)
                    == target@ - current_sum@;
                crate::select::lemma_sel_sum_bounds(fl, sel);
            }
        }
        return (false, false, false);
    }
    let level_target = target.minus(current_sum);
    let (sums, whole, level_cut) = enumerate_sums(levels[level_idx].elements.as_slice(), &level_target, usize::MAX, sh);
    let mut cut = level_cut;
    let mut full = !whole && !level_cut;
    let all = sums.entries();
    let ghost lvl = big_values(levels@[level_idx as int].elements@);
    let next_idx = level_idx + 1;
    proof {
        lemma_flat_skip(levels@, level_idx as int);
        if full {
            let tab = path_table_contents(sums);
            assert(tab.dom().len() >= usize::MAX);
            assert forall|k: nat| tab.dom().contains(k) implies sums_upto(lvl, level_target@ as int).contains(k) by {
                assert(tab.contains_key(k));
                crate::spec::lemma_sub_multiset_reach(tab[k], lvl);
                crate::spec::lemma_solvable_reach(lvl, k as int);
            }
            let rest = flat(levels@.skip(level_idx + 1));
            crate::spec::lemma_empty_sub_multiset(rest);
            crate::spec::lemma_sub_multiset_concat(lvl, Seq::<int>::empty(), lvl, rest);
            assert(lvl + Seq::<int>::empty() =~= lvl);
            crate::spec::lemma_sub_multiset_trans(lvl, lvl, lvl + rest);
            lemma_sums_upto_mono(lvl, level_target@ as int, fl, level_target@ as int);
            vstd::set_lib::lemma_len_subset(tab.dom(), sums_upto(lvl, level_target@ as int));
        }
    }
    let mut j: usize = 0;
    while j < all.len()
        invariant
            level_idx < levels@.len(),
            next_idx == level_idx + 1,
            j <= all@.len(),
            current_sum@ <= target@,
            lvl == big_values(levels@[level_idx as int].elements@),
            flat(levels@.skip(level_idx as int)) == lvl + flat(levels@.skip(level_idx + 1)),
            table_ok(path_table_contents(sums), lvl),
            forall|q: int|
                0 <= q < all@.len() ==> path_table_contents(sums).contains_key((#[trigger] all@[q]).0@)
                    && path_table_contents(sums)[all@[q].0@] == big_values(all@[q].1@),
            current_solution@ == start,
            start == old(current_solution)@,
            !cut && !full ==> whole,
            full ==> too_many_sums(fl, level_target@ as int),
            fl == flat(levels@.skip(level_idx as int)),
            whole ==> forall|s: int|
                0 <= s <= level_target@ && #[trigger] reach(lvl, lvl.len() as int, s) ==> path_table_contents(
                    sums,
                ).contains_key(s as nat),
            level_target@ == target@ - current_sum@,
            forall|s: nat|
                #[trigger] path_table_contents(sums).contains_key(s) ==> exists|q: int|
                    0 <= q < all@.len() && (#[trigger] all@[q]).0@ == s,
            !cut && !full ==> forall|q: int|
                0 <= q < j ==> !solvable(
                    flat(levels@.skip(level_idx + 1)),
                    target@ - current_sum@ - (#[trigger] all@[q]).0@,
                ),
        decreases all@.len() - j,
    {
        if sh.stopped() {
            return (false, true, false);
        }
        let sum = &all[j].0;
        let elements = &all[j].1;
        let ghost ev = big_values(elements@);
        proof {
            assert(path_table_contents(sums).contains_key(sum@));
            assert(is_sub_multiset(ev, lvl) && sum_of(ev) == sum@);
            crate::spec::lemma_empty_sub_multiset(flat(levels@.skip(level_idx + 1)));
            assert(ev + Seq::<int>::empty() =~= ev);
            lemma_sub_multiset_concat(ev, Seq::<int>::empty(), lvl, flat(levels@.skip(level_idx + 1)));
        }
        let new_sum = current_sum.plus(sum);
        if target.less_than(&new_sum) {
            proof {
                let rest = flat(levels@.skip(level_idx + 1));
                lemma_flat_nonneg(levels@.skip(level_idx + 1));
                if solvable(rest, target@ - current_sum@ - sum@) {
                    let sel = choose|sel: Seq<bool>| sel.len() == rest.len() && #[trigger] crate::spec::sel_sum(rest, sel)
                        == target@ - current_sum@ - sum@;
                    crate::spec::lemma_sel_sum_nonneg(rest, sel);
                }
            }
            j = j + 1;
            continue;
        }
        if new_sum.equals(target) {
            let copies = copy_all(elements.as_slice());
            let mut c: usize = 0;
            while c < copies.len()
                invariant
                    c <= copies@.len(),
                    copies@.len() == elements@.len(),
                    forall|q: int| 0 <= q < copies@.len() ==> (#[trigger] copies@[q])@ == elements@[q]@,
                    big_values(current_solution@) == big_values(start) + big_values(elements@).take(c as int),
                    current_solution@.len() == start.len() + c,
                decreases copies@.len() - c,
            {
                let ghost before = current_solution@;
                current_solution.push(copies[c].copy());
                proof {
                    assert(big_values(current_solution@) =~= big_values(before).push(elements@[c as int]@ as int));
                    assert(big_values(elements@).take(c + 1) =~= big_values(elements@).take(c as int).push(
                        elements@[c as int]@ as int,
                    ));
                }
                c = c + 1;
            }
            proof {
                assert(big_values(elements@).take(elements@.len() as int) =~= ev);
                assert(big_values(current_solution@).take(start.len() as int) =~= big_values(start));
                assert(big_values(current_solution@).skip(start.len() as int) =~= ev);
            }
            return (true, false, false);
        }
        let mut sub_solution: Vec<BigNum> = Vec::new();
        let (found, sub_cut, sub_full) = combine_levels(levels, next_idx, &new_sum, target, &mut sub_solution, sh);
        if found {
            let ghost sv = big_values(sub_solution@);
            proof {
                assert(big_values(Seq::<BigNum>::empty()) =~= Seq::<int>::empty());
                assert(sv.take(0) =~= Seq::<int>::empty());
                assert(sv.skip(0) =~= sv);
            }
            let mut all_new = copy_all(elements.as_slice());
            let mut c: usize = 0;
            while c < sub_solution.len()
                invariant
                    c <= sub_solution@.len(),
                    big_values(all_new@) == ev + big_values(sub_solution@).take(c as int),
                decreases sub_solution@.len() - c,
            {
                let ghost before = all_new@;
                all_new.push(sub_solution[c].copy());
                proof {
                    assert(big_values(all_new@) =~= big_values(before).push(sub_solution@[c as int]@ as int));
                    assert(big_values(sub_solution@).take(c + 1) =~= big_values(sub_solution@).take(c as int).push(
                        sub_solution@[c as int]@ as int,
                    ));
                }
                c = c + 1;
            }
            proof {
                assert(big_values(sub_solution@).take(sub_solution@.len() as int) =~= sv);
            }
            let mut c: usize = 0;
            while c < all_new.len()
                invariant
                    c <= all_new@.len(),
                    big_values(current_solution@) == big_values(start) + big_values(all_new@).take(c as int),
                    current_solution@.len() == start.len() + c,
                decreases all_new@.len() - c,
            {
                let ghost before = current_solution@;
                current_solution.push(all_new[c].copy());
                proof {
                    assert(big_values(current_solution@) =~= big_values(before).push(all_new@[c as int]@ as int));
                    assert(big_values(all_new@).take(c + 1) =~= big_values(all_new@).take(c as int).push(
                        all_new@[c as int]@ as int,
                    ));
                }
                c = c + 1;
            }
            proof {
                let x = big_values(current_solution@).skip(start.len() as int);
                assert(big_values(all_new@).take(all_new@.len() as int) =~= ev + sv);
                assert(x =~= ev + sv);
                assert(big_values(current_solution@).take(start.len() as int) =~= big_values(start));
                lemma_sub_multiset_concat(ev, sv, lvl, flat(levels@.skip(level_idx + 1)));
                lemma_sum_of_concat(ev, sv);
            }
            return (true, false, false);
        }
        if sub_cut {
            cut = true;
        }
        if sub_full {
            proof {
                let rest = flat(levels@.skip(level_idx + 1));
                crate::spec::lemma_empty_sub_multiset(lvl);
                crate::spec::lemma_sub_multiset_concat(Seq::<int>::empty(), rest, lvl, rest);
                assert(Seq::<int>::empty() + rest =~= rest);
                lemma_sums_upto_mono(rest, target@ - new_sum@, fl, level_target@ as int);
            }
            full = true;
        }
        j = j + 1;
    }
    proof {
        if !cut && !full && solvable(fl, target@ - current_sum@) {
            let rest = flat(levels@.skip(level_idx + 1));
            lemma_flat_nonneg(levels@.skip(level_idx + 1));
            crate::spec::lemma_solvable_split(lvl, rest, target@ - current_sum@);
            let y = choose|y: int| #[trigger] solvable(lvl, y) && solvable(rest, target@ - current_sum@ - y);
            let sl = choose|sel: Seq<bool>| sel.len() == lvl.len() && #[trigger] crate::spec::sel_sum(lvl, sel) == y;
            assert forall|i: int| 0 <= i < lvl.len() implies lvl[i] >= 0 by {}
            crate::spec::lemma_sel_sum_nonneg(lvl, sl);
            let sr = choose|sel: Seq<bool>| sel.len() == rest.len() && #[trigger] crate::spec::sel_sum(rest, sel)
                == target@ - current_sum@ - y;
            crate::spec::lemma_sel_sum_nonneg(rest, sr);
            crate::spec::lemma_solvable_reach(lvl, y);
            assert(path_table_contents(sums).contains_key(y as nat));
            let q = choose|q: int| 0 <= q < all@.len() && (#[trigger] all@[q]).0@ == y as nat;
            assert(!solvable(rest, target@ - current_sum@ - all@[q].0@));
        }
    }
    (false, cut, full)
}

/// A level holding copies of `s`.
fn level_of(s: &[BigNum]) -> (l: Level)
    ensures
        big_values(l.elements@) == big_values(s@),
{
    let elements = copy_all(s);
    assert(big_values(elements@) =~= big_values(s@));
    Level { elements }
}

/// Levels cut from `sorted` at the boundaries (empty pieces left out), or,
/// without boundaries, chunks of `MAX_ELEMS_PER_LEVEL`.
fn build_levels_from_boundaries(sorted: &[BigNum], boundaries: &[usize]) -> (levels: Vec<Level>)
    requires
        forall|k: int| 0 <= k < boundaries@.len() ==> #[trigger] boundaries@[k] <= sorted@.len(),
        forall|k: int, m: int| 0 <= k < m < boundaries@.len() ==> #[trigger] boundaries@[k] <= #[trigger] boundaries@[m],
    ensures
        flat(levels@) == big_values(sorted@),
{
    let ghost vals = big_values(sorted@);
    let n = sorted.len();
    let mut levels: Vec<Level> = Vec::new();
    let mut start: usize = 0;
    proof {
        assert(vals.take(0) =~= Seq::<int>::empty());
    }
    if boundaries.len() == 0 {
        while start < n
            invariant
                n == sorted@.len(),
                vals == big_values(sorted@),
                start <= n,
                flat(levels@) == vals.take(start as int),
            decreases n - start,
        {
            let end = if n - start > MAX_ELEMS_PER_LEVEL {
                start + MAX_ELEMS_PER_LEVEL
            } else {
                n
            };
            let l = level_of(&sorted[start..end]);
            proof {
                lemma_flat_push(levels@, l);
                assert(big_values(sorted@.subrange(start as int, end as int)) =~= vals.subrange(start as int, end as int));
                assert(vals.take(start as int) + vals.subrange(start as int, end as int) =~= vals.take(end as int));
            }
            levels.push(l);
            start = end;
        }
        proof {
            assert(vals.take(n as int) =~= vals);
        }
        return levels;
    }
    let mut k: usize = 0;
    while k < boundaries.len()
        invariant
            n == sorted@.len(),
            vals == big_values(sorted@),
            k <= boundaries@.len(),
            forall|q: int| 0 <= q < boundaries@.len() ==> #[trigger] boundaries@[q] <= sorted@.len(),
            forall|q: int, m: int| 0 <= q < m < boundaries@.len() ==> #[trigger] boundaries@[q] <= #[trigger] boundaries@[m],
            k > 0 ==> start == boundaries@[k - 1],
            k == 0 ==> start == 0,
            start <= n,
            flat(levels@) == vals.take(start as int),
        decreases boundaries@.len() - k,
    {
        let b = boundaries[k];
        proof {
            if k > 0 {
                assert(boundaries@[k - 1] <= boundaries@[k as int]);
            }
        }
        if b > start {
            let l = level_of(&sorted[start..b]);
            proof {
                lemma_flat_push(levels@, l);
                assert(big_values(sorted@.subrange(start as int, b as int)) =~= vals.subrange(start as int, b as int));
                assert(vals.take(start as int) + vals.subrange(start as int, b as int) =~= vals.take(b as int));
            }
            levels.push(l);
        }
        start = b;
        k = k + 1;
    }
    if start < n {
        let l = level_of(&sorted[start..n]);
        proof {
            lemma_flat_push(levels@, l);
            assert(big_values(sorted@.subrange(start as int, n as int)) =~= vals.subrange(start as int, n as int));
            assert(vals.take(start as int) + vals.subrange(start as int, n as int) =~= vals);
        }
        levels.push(l);
    } else {
        proof {
            assert(vals.take(start as int) =~= vals);
        }
    }
    levels
}

/// The magnitude hierarchy: the elements largest first, cut where a value
/// is more than 4 times the next (and after the first zero), each piece in
/// chunks of at most `MAX_ELEMS_PER_LEVEL`. The levels hold exactly the
/// elements.
fn build_hierarchy(nums: &[BigNum], target: &BigNum) -> (levels: Vec<Level>)
    ensures
        flat(levels@).to_multiset() == big_values(nums@).to_multiset(),
        forall|i: int, j: int| 0 <= i < j < flat(levels@).len() ==> flat(levels@)[i] >= flat(levels@)[j],
        forall|q: int| 0 <= q < levels@.len() ==> 0 < (#[trigger] levels@[q]).elements@.len() <= MAX_ELEMS_PER_LEVEL,
        levels@.len() == 0 <==> nums@.len() == 0,
{
    let n = nums.len();
    if n == 0 {
        let levels: Vec<Level> = Vec::new();
        proof {
            assert(big_values(nums@) =~= Seq::<int>::empty());
        }
        return levels;
    }
    let sorted = sort_big_desc(nums);
    let mut boundaries: Vec<usize> = Vec::new();
    let four = BigNum::from_u128(4);
    let mut i: usize = 1;
    while i < n
        invariant
            n == sorted@.len(),
            1 <= i <= n,
            four@ == 4,
            forall|q: int| 0 <= q < boundaries@.len() ==> 1 <= #[trigger] boundaries@[q] < i,
            forall|q: int, m: int| 0 <= q < m < boundaries@.len() ==> #[trigger] boundaries@[q] < #[trigger] boundaries@[m],
        decreases n - i,
    {
        if sorted[i].is_zero() {
            if i < n - 1 {
                boundaries.push(i);
            }
        } else {
            let ratio = sorted[i - 1].divided_by(&sorted[i]);
            if four.less_than(&ratio) {
                boundaries.push(i);
            }
        }
        i = i + 1;
    }
    let from = build_levels_from_boundaries(sorted.as_slice(), boundaries.as_slice());
    let mut levels: Vec<Level> = Vec::new();
    let mut k: usize = 0;
    proof {
        assert(from@.take(0) =~= Seq::<Level>::empty());
    }
    while k < from.len()
        invariant
            k <= from@.len(),
            flat(levels@) == flat(from@.take(k as int)),
            forall|q: int| 0 <= q < levels@.len() ==> 0 < (#[trigger] levels@[q]).elements@.len() <= MAX_ELEMS_PER_LEVEL,
        decreases from@.len() - k,
    {
        let els = &from[k].elements;
        proof {
            assert(from@.take(k + 1) =~= from@.take(k as int).push(from@[k as int]));
            lemma_flat_push(from@.take(k as int), from@[k as int]);
        }
        let ghost ev = big_values(els@);
        let ghost base = flat(levels@);
        let m = els.len();
        let mut s: usize = 0;
        proof {
            assert(ev.take(0) =~= Seq::<int>::empty());
            assert(base + ev.take(0) =~= base);
        }
        while s < m
            invariant
                m == els@.len(),
                ev == big_values(els@),
                s <= m,
                flat(levels@) == base + ev.take(s as int),
                forall|q: int| 0 <= q < levels@.len() ==> 0 < (#[trigger] levels@[q]).elements@.len() <= MAX_ELEMS_PER_LEVEL,
            decreases m - s,
        {
            let e = if m - s > MAX_ELEMS_PER_LEVEL {
                s + MAX_ELEMS_PER_LEVEL
            } else {
                m
            };
            let l = level_of(&els.as_slice()[s..e]);
            proof {
                lemma_flat_push(levels@, l);
                assert(big_values(els@.subrange(s as int, e as int)) =~= ev.subrange(s as int, e as int));
                assert(base + ev.take(s as int) + ev.subrange(s as int, e as int) =~= base + ev.take(e as int));
            }
            let ghost lb = levels@;
            levels.push(l);
            proof {
                assert(big_values(l.elements@).len() == e - s);
                assert forall|q: int| 0 <= q < levels@.len() implies 0 < (#[trigger] levels@[q]).elements@.len()
                    <= MAX_ELEMS_PER_LEVEL by {
                    if q < lb.len() {
                        assert(levels@[q] == lb[q]);
                    }
                }
            }
            s = e;
        }
        proof {
            assert(ev.take(m as int) =~= ev);
        }
        k = k + 1;
    }
    proof {
        assert(from@.take(from@.len() as int) =~= from@);
        assert(flat(levels@) == big_values(sorted@));
        assert(big_values(sorted@).len() == n);
        if levels@.len() == 0 {
            assert(flat(levels@) =~= Seq::<int>::empty());
        }
    }
    levels
}

impl MdMitmEngine {
    /// Search instances of 60 or more elements level by level.
    pub fn solve(sh: &Shared) -> (v: Verdict)
        ensures
            verdict_ok(v, sh.profile.values(), sh.profile.target_value()),
            sh.profile.values().len() < 60 ==> v is Unknown,
            !(v is Impossible),
            sh.profile.values().len() >= 60 && sh.profile.target_value() == 0 ==> v is Found,
    {
        Self::decide(sh).0
    }

    /// The search behind `solve`, with whether the stop flag cut it short
    /// and whether a level's table of sums filled up, which needs more
    /// distinct subset sums up to the target than `usize` counts. Unless one
    /// of them happened, an instance of 60 or more elements gets an answer
    /// exactly when one exists.
    pub fn decide(sh: &Shared) -> (r: (Verdict, bool, bool))
        ensures
            verdict_ok(r.0, sh.profile.values(), sh.profile.target_value()),
            sh.profile.values().len() < 60 ==> r.0 is Unknown,
            !(r.0 is Impossible),
            sh.profile.values().len() >= 60 && sh.profile.target_value() == 0 ==> r.0 is Found,
            r.1 ==> r.0 is Unknown,
            r.2 ==> r.0 is Unknown && too_many_sums(sh.profile.values(), sh.profile.target_value()),
            !r.1 && !r.2 && sh.profile.values().len() >= 60 && solvable(
                sh.profile.values(),
                sh.profile.target_value(),
            ) ==> r.0 is Found,
    {
        let p = &sh.profile;
        let n = p.n();
        if n == 0 || n < 60 {
            return (Verdict::Unknown, false, false);
        }
        let target = p.target();
        if target.is_zero() {
            let sol: Vec<BigNum> = Vec::new();
            proof {
                assert(big_values(sol@) =~= Seq::<int>::empty());
                lemma_empty_sub_multiset(p.values());
            }
            return (checked(sol, p), false, false);
        }
        let levels = build_hierarchy(p.numbers().as_slice(), target);
        if levels.len() == 0 {
            return (Verdict::Unknown, false, false);
        }
        let mut solution: Vec<BigNum> = Vec::new();
        let zero = BigNum::zero();
        let (found, cut, full) = combine_levels(&levels, 0, &zero, target, &mut solution, sh);
        proof {
            assert(levels@.skip(0) =~= levels@);
            if solvable(p.values(), p.target_value()) {
                crate::spec::lemma_solvable_perm(p.values(), flat(levels@), p.target_value());
            }
            if full {
                assert forall|x: nat| #[trigger] sums_upto(flat(levels@), p.target_value()).contains(x) <==> sums_upto(
                    p.values(),
                    p.target_value(),
                ).contains(x) by {
                    if solvable(flat(levels@), x as int) {
                        crate::spec::lemma_solvable_perm(flat(levels@), p.values(), x as int);
                    }
                    if solvable(p.values(), x as int) {
                        crate::spec::lemma_solvable_perm(p.values(), flat(levels@), x as int);
                    }
                }
                assert(sums_upto(flat(levels@), p.target_value()) =~= sums_upto(p.values(), p.target_value()));
            }
        }
        if found && !sh.stopped() {
            proof {
                assert(levels@.skip(0) =~= levels@);
                assert(big_values(solution@).skip(0) =~= big_values(solution@));
                assert(is_sub_multiset(big_values(solution@), flat(levels@)));
                crate::spec::lemma_sub_multiset_perm(big_values(solution@), flat(levels@), p.values());
            }
            return (checked(solution, p), false, false);
        }
        (Verdict::Unknown, cut || found, full)
    }
}

impl Engine for MdMitmEngine {
    fn name(&self) -> (r: &'static str)
        ensures
            r == crate::scheduler::EngineId::MdMitm.label(),
    {
        "MD-MITM"
    }

    fn run(&self, sh: &Shared) {
        let v = Self::solve(sh);
        sh.apply(v, "MD-MITM");
    }
}

} // verus!
