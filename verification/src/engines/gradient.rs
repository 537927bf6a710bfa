//! GradientSolver: start from all elements and remove to reach the target.
//!
//! A greedy pass drops the largest elements that keep the sum at or above
//! the target; a local search then toggles pseudo-randomly chosen elements,
//! keeping the best selection seen, with a short memory of visited
//! selections.
use crate::bignum::BigNum;
use crate::controller::{checked, clock_seed, verdict_ok, Engine, Shared, Verdict};
use crate::profile::big_values;
use crate::select::{lemma_sel_sum_all, lemma_sel_sum_bounds, lemma_sel_sum_update, report_bits, report_selection};
use crate::sort::sort_indexed_desc;
use crate::spec::{ints, is_sub_multiset, sel_sum, sum_of};
use std::collections::HashSet;
use vstd::prelude::*;

verus! {

broadcast use vstd::std_specs::hash::group_hash_axioms;

pub struct GradientSolver;

/// The distance between two sums.
fn gap_of(a: u128, b: u128) -> (r: u128)
    ensures
        r == if a > b {
            a - b
        } else {
            b - a
        },
{
    if a > b {
        a - b
    } else {
        b - a
    }
}

/// The flags as the bits of a word, the last flag in the lowest bit.
pub open spec fn packed(s: Seq<bool>) -> u64
    decreases s.len(),
{
    if s.len() == 0 {
        0
    } else {
        ((packed(s.drop_last()) << 1u64) | (if s.last() {
            1u64
        } else {
            0u64
        })) as u64
    }
}

/// The flags packed into a word, first flag highest (earlier flags shift
/// out past 64).
fn pack_flags(used: &Vec<bool>) -> (r: u64)
    ensures
        r == packed(used@),
{
    let mut h: u64 = 0;
    for i in 0..used.len()
        invariant
            h == packed(used@.take(i as int)),
    {
        proof {
            assert(used@.take(i + 1).drop_last() =~= used@.take(i as int));
        }
        h = (h << 1u64) | (if used[i] {
            1u64
        } else {
            0u64
        });
    }
    proof {
        assert(used@.take(used@.len() as int) =~= used@);
    }
    h
}

/// One step of the greedy descent: once the sum is the target nothing
/// changes; otherwise the element is dropped when the sum stays at or above
/// the target without it.
pub open spec fn greedy_step(st: (int, Seq<bool>), item: (usize, u128), target: int) -> (int, Seq<bool>) {
    if st.0 == target {
        st
    } else if st.0 >= target + item.1 {
        (st.0 - item.1, st.1.update(item.0 as int, false))
    } else {
        st
    }
}

/// The sum and the kept elements after the first `k` steps of the greedy
/// descent along `order`, starting from all `n` elements (summing to `total`).
pub open spec fn greedy_upto(order: Seq<(usize, u128)>, target: int, total: int, n: nat, k: int) -> (int, Seq<bool>)
    decreases k,
{
    if k <= 0 {
        (total, Seq::new(n, |i: int| true))
    } else {
        greedy_step(greedy_upto(order, target, total, n, k - 1), order[k - 1], target)
    }
}

/// The greedy descent over `nums`: from all elements, largest value first,
/// drop each element whose removal keeps the sum at or above `target`.
pub open spec fn greedy_descent(nums: Seq<u128>, target: int) -> (int, Seq<bool>) {
    greedy_upto(crate::sort::desc_order(nums), target, sum_of(ints(nums)), nums.len(), nums.len() as int)
}

/// Once the descent has reached the target it stays there.
proof fn lemma_greedy_done(order: Seq<(usize, u128)>, target: int, total: int, n: nat, k: int, j: int)
    requires
        k <= j,
        greedy_upto(order, target, total, n, k).0 == target,
    ensures
        greedy_upto(order, target, total, n, j) == greedy_upto(order, target, total, n, k),
    decreases j - k,
{
    if k < j {
        lemma_greedy_done(order, target, total, n, k, j - 1);
    }
}

/// Where the local search stands: the selection and its sum, the best gap
/// to the target seen and the selection that gave it, and the packed
/// selections it remembers.
pub struct WalkState {
    pub used: Seq<bool>,
    pub current: int,
    pub best_gap: int,
    pub best_used: Seq<bool>,
    pub tabu: Set<u64>,
}

/// The distance between two sums.
pub open spec fn gap(a: int, b: int) -> int {
    if a > b {
        a - b
    } else {
        b - a
    }
}

/// The local search before its first round.
pub open spec fn walk_start(used: Seq<bool>, current: int, t: int) -> WalkState {
    WalkState { used, current, best_gap: gap(current, t), best_used: used, tabu: Set::empty() }
}

/// The element that round `k` toggles among `n`.
pub open spec fn walk_index(seed: u64, k: nat, n: nat) -> int {
    ((vstd::wrapping::u64_specs::wrapping_mul(seed, (k + 1) as u64) ^ ((k as u64) << 7u64)) % (n as u64)) as int
}

/// `s` after toggling element `idx` to `take`, at sum `ns`, keeping it as
/// the best when it comes closer.
pub open spec fn walk_move(s: WalkState, tabu: Set<u64>, idx: int, take: bool, ns: int, t: int) -> WalkState {
    let closer = gap(ns, t) < s.best_gap;
    WalkState {
        used: s.used.update(idx, take),
        current: ns,
        best_gap: if closer {
            gap(ns, t)
        } else {
            s.best_gap
        },
        best_used: if closer {
            s.used.update(idx, take)
        } else {
            s.best_used
        },
        tabu,
    }
}

/// Round `k` of the local search: a remembered selection is skipped;
/// otherwise it is remembered (the memory emptied past 200), and the chosen
/// element is dropped when the sum stays at or above the target, or added
/// when the sum stays within the target or comes closer than the best.
pub open spec fn walk_step(e: Seq<int>, t: int, seed: u64, k: nat, s: WalkState) -> WalkState {
    let idx = walk_index(seed, k, e.len());
    let h = packed(s.used);
    if s.tabu.contains(h) {
        s
    } else {
        let grown = s.tabu.insert(h);
        let tabu = if grown.len() > 200 {
            Set::empty()
        } else {
            grown
        };
        let kept = WalkState { tabu, ..s };
        if s.used[idx] {
            if s.current >= t + e[idx] {
                walk_move(s, tabu, idx, false, s.current - e[idx], t)
            } else {
                kept
            }
        } else {
            let ns = s.current + e[idx];
            if ns <= t || ns - t < s.best_gap {
                walk_move(s, tabu, idx, true, ns, t)
            } else {
                kept
            }
        }
    }
}

/// The local search after `k` rounds; it ends once the target is reached.
pub open spec fn walk(e: Seq<int>, t: int, seed: u64, s0: WalkState, k: nat) -> WalkState
    decreases k,
{
    if k == 0 {
        s0
    } else {
        let p = walk(e, t, seed, s0, (k - 1) as nat);
        if p.best_gap == 0 {
            p
        } else {
            walk_step(e, t, seed, (k - 1) as nat, p)
        }
    }
}

/// `r` is what the local search in state `s` answers: the best selection
/// when it reached the target, nothing otherwise.
pub open spec fn walk_answer(r: Option<Vec<BigNum>>, s: WalkState, e: Seq<int>) -> bool {
    if s.best_gap == 0 {
        r matches Some(sol) && big_values(sol@) == crate::select::chosen(e, s.best_used)
    } else {
        r is None
    }
}

/// Once the target is reached the search stays put for good.
proof fn lemma_walk_stays(e: Seq<int>, t: int, seed: u64, s0: WalkState, k: nat, m: nat)
    requires
        k <= m,
        walk(e, t, seed, s0, k).best_gap == 0,
    ensures
        walk(e, t, seed, s0, m) == walk(e, t, seed, s0, k),
    decreases m - k,
{
    if k < m {
        lemma_walk_stays(e, t, seed, s0, k, (m - 1) as nat);
    }
}

/// Once the target is reached the search stays put.
proof fn lemma_walk_gap(e: Seq<int>, t: int, seed: u64, s0: WalkState, k: nat)
    ensures
        walk(e, t, seed, s0, k).best_gap == 0 ==> walk(e, t, seed, s0, k + 1) == walk(e, t, seed, s0, k),
{
}

impl GradientSolver {
    /// The answer the search ends with, if any; it is drawn from `nums`.
    fn search(sh: &Shared, nums: &[u128], target: u128) -> (r: Option<Vec<BigNum>>)
        requires
            5 <= nums@.len() <= 60,
            sum_of(ints(nums@)) < 0x4000_0000_0000_0000_0000_0000_0000_0000,
            target < 0x4000_0000_0000_0000_0000_0000_0000_0000,
        ensures
            r matches Some(sol) ==> is_sub_multiset(big_values(sol@), ints(nums@)),
            sum_of(ints(nums@)) < target ==> r is None,
            sum_of(ints(nums@)) == target ==> (r matches Some(sol) && big_values(sol@) == ints(nums@)),
            sum_of(ints(nums@)) >= target && greedy_descent(nums@, target as int).0 == target ==> (r matches Some(
                sol,
            ) && big_values(sol@) == crate::select::chosen(ints(nums@), greedy_descent(nums@, target as int).1)
                && sum_of(big_values(sol@)) == target),
    {
        let n = nums.len();
        let ghost e = ints(nums@);
        proof {
            assert forall|i: int| 0 <= i < e.len() implies e[i] >= 0 by {}
        }
        let mut total: u128 = 0;
        let mut i: usize = 0;
        while i < n
            invariant
                n == nums@.len(),
                e == ints(nums@),
                i <= n,
                total == sum_of(e.take(i as int)),
                sum_of(e) < 0x4000_0000_0000_0000_0000_0000_0000_0000,
            decreases n - i,
        {
            proof {
                assert(e.take(i + 1) =~= e.take(i as int).push(e[i as int]));
                crate::spec::lemma_sum_of_push(e.take(i as int), e[i as int]);
                crate::engines::hash_mitm::lemma_part_sum(nums@, 0, i + 1);
                assert(ints(nums@.subrange(0, i + 1)) =~= e.take(i + 1));
            }
            total = total + nums[i];
            i = i + 1;
        }
        proof {
            assert(e.take(n as int) =~= e);
        }
        if total < target {
            return None;
        }
        if total == target {
            let all = 1u128.wrapping_shl(n as u32).wrapping_sub(1);
            proof {
                crate::select::lemma_low_mask(n as u32);
                crate::select::lemma_chosen_all(e, n as int);
                lemma_greedy_done(crate::sort::desc_order(nums@), target as int, total as int, n as nat, 0, n as int);
                assert(e.take(n as int) =~= e);
            }
            return Some(report_bits(nums, all));
        }
        let indexed = sort_indexed_desc(nums);
        proof {
            assert(greedy_descent(nums@, target as int) == greedy_upto(
                indexed@,
                target as int,
                total as int,
                n as nat,
                n as int,
            ));
        }
        let mut current = total;
        let mut used: Vec<bool> = Vec::new();
        for j in 0..n
            invariant
                used@ == Seq::new(j as nat, |k: int| true),
        {
            used.push(true);
            assert(used@ =~= Seq::new((j + 1) as nat, |k: int| true));
        }
        proof {
            lemma_sel_sum_all(e, n as int);
        }
        let mut k: usize = 0;
        proof {
            assert(used@ =~= Seq::new(n as nat, |i: int| true));
        }
        while k < n
            invariant_except_break
                forall|q: int| k <= q < n ==> used@[(#[trigger] indexed@[q]).0 as int],
                (current as int, used@) == greedy_upto(indexed@, target as int, total as int, n as nat, k as int),
                current != target,
            invariant
                total == sum_of(e),
                total > target,
                n == nums@.len(),
                e == ints(nums@),
                indexed@.len() == n,
                forall|q: int| 0 <= q < n ==> (#[trigger] indexed@[q]).0 < n && indexed@[q].1 == nums@[indexed@[q].0 as int],
                used@.len() == n,
                current == sel_sum(e, used@),
                target < 0x4000_0000_0000_0000_0000_0000_0000_0000,
                forall|q: int| 0 <= q < e.len() ==> e[q] >= 0,
                forall|p: int, q: int| 0 <= p < q < indexed@.len() ==> crate::sort::idx_before(
                    #[trigger] indexed@[p],
                    #[trigger] indexed@[q],
                ),
                k <= n,
                sum_of(e) < 0x4000_0000_0000_0000_0000_0000_0000_0000,
            ensures
                (current as int, used@) == greedy_upto(indexed@, target as int, total as int, n as nat, n as int),
            decreases n - k,
        {
            let (idx, val) = indexed[k];
            proof {
                lemma_sel_sum_bounds(e, used@);
                assert(e[idx as int] == val);
                crate::profile::lemma_parts_below_total(e);
            }
            if current >= target + val {
                proof {
                    assert(used@[idx as int]);
                    lemma_sel_sum_update(e, used@, idx as int, false);
                }
                current = current - val;
                used.set(idx, false);
                proof {
                    assert forall|q: int| k < q < n implies used@[(#[trigger] indexed@[q]).0 as int] by {
                        assert(crate::sort::idx_before(indexed@[k as int], indexed@[q]));
                    }
                }
            }
            proof {
                assert(indexed@[k as int] == (idx, val));
            }
            if current == target {
                proof {
                    lemma_greedy_done(indexed@, target as int, total as int, n as nat, k + 1, n as int);
                }
                break;
            }
            k = k + 1;
        }
        if current == target {
            proof {
                crate::select::lemma_chosen(e, used@);
            }
            return Some(report_selection(nums, used.as_slice()));
        }
        let seed = clock_seed();
        Self::restart_phase(sh, nums, target, used, current, seed).0
    }

    /// The local search after the greedy descent, driven by `seed`: round by
    /// round it toggles the element that the seed picks, as `walk` says,
    /// keeping the best selection, and answers with that selection once its
    /// sum is the target. The second result tells whether the stop flag ended
    /// it; unless it did, the answer is the one `walk` gives after 5000
    /// rounds.
    pub fn restart_phase(
        sh: &Shared,
        nums: &[u128],
        target: u128,
        used: Vec<bool>,
        current: u128,
        seed: u64,
    ) -> (r: (Option<Vec<BigNum>>, bool))
        requires
            5 <= nums@.len() <= 60,
            used@.len() == nums@.len(),
            current == sel_sum(ints(nums@), used@),
            current != target,
            sum_of(ints(nums@)) < 0x4000_0000_0000_0000_0000_0000_0000_0000,
            target < 0x4000_0000_0000_0000_0000_0000_0000_0000,
        ensures
            r.0 matches Some(sol) ==> is_sub_multiset(big_values(sol@), ints(nums@)) && sum_of(big_values(sol@))
                == target,
            exists|k: nat|
                k <= 5000 && (!r.1 ==> k == 5000) && #[trigger] walk_answer(
                    r.0,
                    walk(ints(nums@), target as int, seed, walk_start(used@, current as int, target as int), k),
                    ints(nums@),
                ),
    {
        let n = nums.len();
        let ghost e = ints(nums@);
        let ghost t = target as int;
        let ghost s0 = walk_start(used@, current as int, t);
        proof {
            assert forall|i: int| 0 <= i < e.len() implies e[i] >= 0 by {}
        }
        let mut used = used;
        let mut current = current;
        let mut best_gap = gap_of(current, target);
        let mut best_used = used.clone();
        proof {
            assert(best_used@ =~= used@);
        }
        let mut tabu: HashSet<u64> = HashSet::new();
        let mut iter: u64 = 0;
        let mut cut = false;
        let ghost mut done: nat = 0;
        while iter < 5000
            invariant_except_break
                walk(e, t, seed, s0, iter as nat) == (WalkState {
                    used: used@,
                    current: current as int,
                    best_gap: best_gap as int,
                    best_used: best_used@,
                    tabu: tabu@,
                }),
                best_gap != 0,
                !cut,
                done == iter as nat,
            invariant
                n == nums@.len(),
                5 <= n <= 60,
                e == ints(nums@),
                t == target as int,
                iter <= 5000,
                used@.len() == n,
                best_used@.len() == n,
                current == sel_sum(e, used@),
                sum_of(e) < 0x4000_0000_0000_0000_0000_0000_0000_0000,
                target < 0x4000_0000_0000_0000_0000_0000_0000_0000,
                forall|q: int| 0 <= q < e.len() ==> e[q] >= 0,
            ensures
                done <= 5000,
                !cut ==> done == 5000,
                walk(e, t, seed, s0, done).best_gap == best_gap,
                walk(e, t, seed, s0, done).best_used == best_used@,
                best_used@.len() == n,
                best_gap == 0 ==> sel_sum(e, best_used@) == t,
            decreases 5000 - iter,
        {
            if sh.stopped() {
                cut = true;
                proof {
                    done = iter as nat;
                    lemma_walk_gap(e, t, seed, s0, done);
                }
                break;
            }
            let ghost k = iter as nat;
            let ghost before = walk(e, t, seed, s0, k);
            proof {
                lemma_walk_gap(e, t, seed, s0, k);
                assert(walk(e, t, seed, s0, k + 1) == walk_step(e, t, seed, k, before));
            }
            let idx = ((seed.wrapping_mul(iter + 1) ^ (iter << 7u64)) % (n as u64)) as usize;
            proof {
                assert(idx as int == walk_index(seed, k, n as nat));
            }
            let hash = pack_flags(&used);
            if tabu.contains(&hash) {
                iter = iter + 1;
                proof {
                    done = iter as nat;
                }
                continue;
            }
            tabu.insert(hash);
            if tabu.len() > 200 {
                tabu.clear();
            }
            let val = nums[idx];
            proof {
                lemma_sel_sum_bounds(e, used@);
                assert(e[idx as int] == val);
                crate::profile::lemma_parts_below_total(e);
            }
            if used[idx] {
                if current >= target + val {
                    proof {
                        lemma_sel_sum_update(e, used@, idx as int, false);
                    }
                    let new_sum = current - val;
                    let gap = gap_of(new_sum, target);
                    if gap < best_gap {
                        let ghost u0 = used@;
                        best_gap = gap;
                        used.set(idx, false);
                        best_used = used.clone();
                        proof {
                            assert(best_used@ =~= used@);
                        }
                        used.set(idx, true);
                        assert(used@ =~= u0);
                        if gap == 0 {
                            proof {
                                lemma_walk_gap(e, t, seed, s0, k);
                                lemma_walk_stays(e, t, seed, s0, k + 1, 5000);
                                done = 5000;
                            }
                            break;
                        }
                    }
                    current = new_sum;
                    used.set(idx, false);
                }
            } else {
                let new_sum = current + val;
                if new_sum <= target || new_sum - target < best_gap {
                    proof {
                        lemma_sel_sum_update(e, used@, idx as int, true);
                    }
                    let gap = gap_of(new_sum, target);
                    if gap < best_gap {
                        let ghost u0 = used@;
                        best_gap = gap;
                        used.set(idx, true);
                        best_used = used.clone();
                        proof {
                            assert(best_used@ =~= used@);
                        }
                        used.set(idx, false);
                        assert(used@ =~= u0);
                        if gap == 0 {
                            proof {
                                lemma_walk_gap(e, t, seed, s0, k);
                                lemma_walk_stays(e, t, seed, s0, k + 1, 5000);
                                done = 5000;
                            }
                            break;
                        }
                    }
                    current = new_sum;
                    used.set(idx, true);
                }
            }
            if best_gap == 0 {
                proof {
                    lemma_walk_stays(e, t, seed, s0, k + 1, 5000);
                    done = 5000;
                }
                break;
            }
            iter = iter + 1;
            proof {
                done = iter as nat;
            }
        }
        if best_gap == 0 {
            let sol = report_selection(nums, best_used.as_slice());
            proof {
                crate::select::lemma_chosen(e, best_used@);
                assert(e.take(n as int) =~= e);
                assert(walk_answer(Some(sol), walk(e, t, seed, s0, done), e));
            }
            return (Some(sol), cut);
        }
        proof {
            assert(walk_answer(None, walk(e, t, seed, s0, done), e));
        }
        (None, cut)
    }

    /// Search heuristically among 5 to 60 elements that fit 128 bits.
    pub fn solve(sh: &Shared) -> (v: Verdict)
        ensures
            verdict_ok(v, sh.profile.values(), sh.profile.target_value()),
            sh.profile.values().len() < 5 || sh.profile.values().len() > 60 || !sh.profile.safe() ==> v is Unknown,
            5 <= sh.profile.values().len() <= 60 && sh.profile.safe() && sum_of(sh.profile.values())
                == sh.profile.target_value() ==> (v matches Verdict::Found(sol) && big_values(sol@)
                == sh.profile.values()),
            !(v is Impossible),
            sum_of(sh.profile.values()) < sh.profile.target_value() ==> v is Unknown,
            forall|ns: Seq<u128>|
                5 <= sh.profile.values().len() <= 60 && sh.profile.safe() && ints(ns) == sh.profile.values()
                    && sh.profile.target_value() <= sum_of(sh.profile.values()) && #[trigger] greedy_descent(
                    ns,
                    sh.profile.target_value(),
                ).0 == sh.profile.target_value() ==> (v matches Verdict::Found(sol) && big_values(sol@)
                    == crate::select::chosen(sh.profile.values(), greedy_descent(ns, sh.profile.target_value()).1)),
    {
        let p = &sh.profile;
        let n = p.n();
        if n < 5 || n > 60 || !p.u128_safe() {
            return Verdict::Unknown;
        }
        let target = p.target_u128();
        let nums = p.numbers_u128();
        proof {
            assert forall|ns: Seq<u128>| ints(ns) == sh.profile.values() implies ns == nums@ by {
                assert forall|i: int| 0 <= i < ns.len() implies ns[i] == nums@[i] by {
                    assert(ints(ns)[i] == ints(nums@)[i]);
                }
                assert(ns =~= nums@);
            }
        }
        match Self::search(sh, nums.as_slice(), target) {
            Some(sol) => checked(sol, p),
            None => Verdict::Unknown,
        }
    }
}

impl Engine for GradientSolver {
    fn name(&self) -> (r: &'static str)
        ensures
            r == crate::scheduler::EngineId::GradientSolver.label(),
    {
        "GradientSolver"
    }

    fn run(&self, sh: &Shared) {
        let v = Self::solve(sh);
        sh.apply(v, "GradientSolver");
    }
}

} // verus!
