//! Digit filter: cheap necessary conditions on the last two decimal digits
//! and on the leading digit and magnitude of the target. When either fails,
//! no subset can sum to the target.
use crate::bignum::{decimal, BigNum};
use crate::controller::{verdict_ok, Engine, Shared, Verdict};
use crate::profile::big_values;
use crate::spec::{sel_sum, solvable, sum_of};
use vstd::arithmetic::div_mod::{lemma_add_mod_noop, lemma_div_denominator, lemma_div_is_ordered};
use vstd::prelude::*;

verus! {

pub struct DigitFilterEngine;

/// Some subset of the first `k` elements has a sum congruent to `j` modulo 100.
pub open spec fn reach_mod(vals: Seq<int>, k: int, j: int) -> bool {
    exists|sel: Seq<bool>| sel.len() == k && #[trigger] sel_sum(vals, sel) % 100 == j
}

/// The last-two-digits test on a remaining amount `rem`: zero, or some
/// subset of the (nonempty) elements has a sum with `rem`'s last two digits.
pub open spec fn last2_ok(vals: Seq<int>, rem: int) -> bool {
    rem == 0 || (vals.len() >= 1 && reach_mod(vals, vals.len() as int, rem % 100))
}

/// What remains of `target` once `current` is taken: `target` when nothing is taken.
pub open spec fn remaining(target: int, current: int) -> int {
    if current == 0 {
        target
    } else {
        target - current
    }
}

pub open spec fn pow10(k: nat) -> nat
    decreases k,
{
    if k == 0 {
        1
    } else {
        10 * pow10((k - 1) as nat)
    }
}

/// Number of decimal digits of `v`.
pub open spec fn dlen(v: nat) -> nat {
    decimal(v).len()
}

/// Leading decimal digit of `v`.
pub open spec fn lead(v: nat) -> int {
    decimal(v)[0] - 48
}

/// `total` falls short of `t` in its leading digit: it has fewer decimal
/// digits, or as many and a smaller first digit.
pub open spec fn short_lead(total: nat, t: nat) -> bool {
    dlen(total) < dlen(t) || (dlen(total) == dlen(t) && lead(total) < lead(t))
}

/// A total that falls short of the target in its leading digit is below the
/// target, so no subset reaches it.
pub proof fn law_short_lead_is_below(total: nat, t: nat)
    requires
        short_lead(total, t),
    ensures
        total < t,
{
    lemma_dec_order(total, t);
}

proof fn lemma_pow10_pos(i: nat)
    ensures
        1 <= pow10(i),
    decreases i,
{
    if i > 0 {
        lemma_pow10_pos((i - 1) as nat);
    }
}

proof fn lemma_pow10_mono(i: nat, j: nat)
    requires
        i <= j,
    ensures
        1 <= pow10(i) <= pow10(j),
    decreases j,
{
    lemma_pow10_pos(i);
    if j > i {
        lemma_pow10_mono(i, (j - 1) as nat);
    }
}

/// Length, bounds and leading digit of a decimal rendering.
proof fn lemma_decimal_shape(v: nat)
    ensures
        dlen(v) >= 1,
        v < pow10(dlen(v)),
        v > 0 ==> pow10((dlen(v) - 1) as nat) <= v,
        v < 10 ==> dlen(v) == 1,
        lead(v) == v / pow10((dlen(v) - 1) as nat),
    decreases v,
{
    if v >= 10 {
        let w = v / 10;
        lemma_decimal_shape(w);
        let l = dlen(w);
        let p = pow10((l - 1) as nat);
        assert(decimal(v) == decimal(w).push((48 + v % 10) as u8));
        assert(dlen(v) == l + 1);
        assert(decimal(v)[0] == decimal(w)[0]);
        lemma_pow10_mono(0, (l - 1) as nat);
        assert(pow10(l) == 10 * p);
        assert(pow10(l + 1) == 10 * pow10(l));
        assert(v == 10 * w + v % 10);
        assert(w + 1 <= pow10(l));
        assert(v < pow10(dlen(v)));
        lemma_div_denominator(v as int, 10, p as int);
        assert(10 * p == p * 10);
        assert(pow10((dlen(v) - 1) as nat) == 10 * p);
    } else {
        assert(decimal(v) =~= seq![(48 + v) as u8]);
        assert(pow10(1) == 10 * pow10(0));
        assert(pow10(0) == 1);
        assert(v / 1 == v);
    }
}

/// Fewer digits, or as many digits and a smaller leading digit, means smaller.
proof fn lemma_dec_order(a: nat, b: nat)
    requires
        dlen(a) < dlen(b) || (dlen(a) == dlen(b) && lead(a) < lead(b)),
    ensures
        a < b,
{
    lemma_decimal_shape(a);
    lemma_decimal_shape(b);
    if dlen(a) < dlen(b) {
        if b < 10 {
            assert(dlen(b) == 1);
        }
        lemma_pow10_mono(dlen(a), (dlen(b) - 1) as nat);
    } else {
        let p = pow10((dlen(a) - 1) as nat);
        if b <= a {
            lemma_div_is_ordered(b as int, a as int, p as int);
        }
    }
}

/// The sums modulo 100 of subsets of the first `k + 1` elements.
proof fn lemma_reach_mod_step(vals: Seq<int>, k: int, j: int)
    requires
        0 <= k < vals.len(),
    ensures
        reach_mod(vals, k + 1, j) <==> (reach_mod(vals, k, j) || exists|i: int|
            0 <= i < 100 && #[trigger] reach_mod(vals, k, i) && (i + vals[k] % 100) % 100 == j),
{
    let v = vals[k];
    if reach_mod(vals, k + 1, j) {
        let sel = choose|sel: Seq<bool>| sel.len() == k + 1 && #[trigger] sel_sum(vals, sel) % 100 == j;
        let p = sel.drop_last();
        let s = sel_sum(vals, p);
        if sel.last() {
            assert(sel_sum(vals, sel) == s + v);
            lemma_add_mod_noop(s, v, 100);
            let i = s % 100;
            assert(sel_sum(vals, p) % 100 == i);
            assert(reach_mod(vals, k, i));
            assert(0 <= i < 100);
        } else {
            assert(sel_sum(vals, p) % 100 == j);
        }
    }
    if reach_mod(vals, k, j) {
        let sel = choose|sel: Seq<bool>| sel.len() == k && #[trigger] sel_sum(vals, sel) % 100 == j;
        let q = sel.push(false);
        assert(q.drop_last() =~= sel);
        assert(sel_sum(vals, q) % 100 == j);
    }
    if exists|i: int| 0 <= i < 100 && #[trigger] reach_mod(vals, k, i) && (i + v % 100) % 100 == j {
        let i = choose|i: int| 0 <= i < 100 && #[trigger] reach_mod(vals, k, i) && (i + v % 100) % 100 == j;
        let sel = choose|sel: Seq<bool>| sel.len() == k && #[trigger] sel_sum(vals, sel) % 100 == i;
        let q = sel.push(true);
        assert(q.drop_last() =~= sel);
        let s = sel_sum(vals, sel);
        assert(sel_sum(vals, q) == s + v);
        lemma_add_mod_noop(s, v, 100);
        assert((i % 100 + v % 100) % 100 == (s + v) % 100);
        assert(sel_sum(vals, q) % 100 == j);
    }
}

proof fn lemma_reach_mod_zero(vals: Seq<int>, j: int)
    ensures
        reach_mod(vals, 0, j) <==> j == 0,
{
    if j == 0 {
        let sel = Seq::<bool>::empty();
        assert(sel_sum(vals, sel) % 100 == 0);
    }
}

/// A subset summing to `rem` has a sum with `rem`'s last two digits.
proof fn lemma_solvable_last2(vals: Seq<int>, rem: int)
    requires
        solvable(vals, rem),
    ensures
        last2_ok(vals, rem) || vals.len() == 0,
{
    let sel = choose|sel: Seq<bool>| sel.len() == vals.len() && #[trigger] sel_sum(vals, sel) == rem;
    assert(sel_sum(vals, sel) % 100 == rem % 100);
}

proof fn lemma_sel_sum_le_total(vals: Seq<int>, sel: Seq<bool>)
    requires
        sel.len() <= vals.len(),
        forall|i: int| 0 <= i < vals.len() ==> vals[i] >= 0,
    ensures
        sel_sum(vals, sel) <= sum_of(vals.take(sel.len() as int)),
    decreases sel.len(),
{
    if sel.len() > 0 {
        let p = sel.drop_last();
        lemma_sel_sum_le_total(vals, p);
        let k = sel.len() - 1;
        assert(vals.take(k + 1).drop_last() =~= vals.take(k));
    }
}

/// With nonnegative elements, a target above the total is unreachable.
proof fn lemma_above_total(vals: Seq<int>, rem: int)
    requires
        forall|i: int| 0 <= i < vals.len() ==> vals[i] >= 0,
        sum_of(vals) < rem,
    ensures
        !solvable(vals, rem),
{
    if solvable(vals, rem) {
        let sel = choose|sel: Seq<bool>| sel.len() == vals.len() && #[trigger] sel_sum(vals, sel) == rem;
        lemma_sel_sum_le_total(vals, sel);
        assert(vals.take(vals.len() as int) =~= vals);
    }
}

impl DigitFilterEngine {
    /// Whether the remaining amount (`target - current`, or `target` when
    /// `current` is zero) can match the last two decimal digits of some
    /// subset sum of `nums`. False when `current` is nonzero and at least `target`.
    pub fn last_2_digits_reachable(nums: &[BigNum], target: &BigNum, current: &BigNum) -> (r:
        bool)
        ensures
            r == if current@ == 0 {
                last2_ok(big_values(nums@), target@ as int)
            } else if current@ >= target@ {
                false
            } else {
                last2_ok(big_values(nums@), target@ - current@)
            },
    {
        let ghost vals = big_values(nums@);
        let remaining = if current.is_zero() {
            target.copy()
        } else {
            if !current.less_than(target) {
                return false;
            }
            target.minus(current)
        };
        let ghost rem = remaining@ as int;
        if remaining.is_zero() {
            return true;
        }
        let target_idx: usize = match remaining.rem_u32(100).to_u32() {
            Some(x) => x as usize,
            None => 0,
        };
        let mut reachable: Vec<bool> = Vec::new();
        let mut i: usize = 0;
        while i < 100
            invariant
                i <= 100,
                reachable@.len() == i,
                forall|j: int| 0 <= j < i ==> #[trigger] reachable@[j] == (j == 0),
            decreases 100 - i,
        {
            reachable.push(i == 0);
            i = i + 1;
        }
        proof {
            assert forall|j: int| 0 <= j < 100 implies #[trigger] reachable@[j] == reach_mod(vals, 0, j) by {
                lemma_reach_mod_zero(vals, j);
            }
        }
        let mut k: usize = 0;
        while k < nums.len()
            invariant
                vals == big_values(nums@),
                k <= nums@.len(),
                rem > 0,
                rem == if current@ == 0 {
                    target@ as int
                } else {
                    target@ - current@
                },
                current@ != 0 ==> current@ < target@,
                target_idx == rem % 100,
                reachable@.len() == 100,
                forall|j: int| 0 <= j < 100 ==> #[trigger] reachable@[j] == reach_mod(vals, k as int, j),
                k >= 1 ==> !reach_mod(vals, k as int, rem % 100),
            decreases nums@.len() - k,
        {
            let r: usize = match nums[k].rem_u32(100).to_u32() {
                Some(x) => x as usize,
                None => 0,
            };
            proof {
                assert(vals[k as int] == nums@[k as int]@);
            }
            let mut next: Vec<bool> = Vec::new();
            let mut j: usize = 0;
            while j < 100
                invariant
                    j <= 100,
                    next@.len() == j,
                    forall|t: int| 0 <= t < j ==> !#[trigger] next@[t],
                decreases 100 - j,
            {
                next.push(false);
                j = j + 1;
            }
            let mut i: usize = 0;
            while i < 100
                invariant
                    i <= 100,
                    r < 100,
                    reachable@.len() == 100,
                    next@.len() == 100,
                    forall|t: int| 0 <= t < 100 ==> #[trigger] next@[t] == exists|i2: int|
                        0 <= i2 < i && #[trigger] reachable@[i2] && (t == i2 || t == (i2 + r) % 100),
                decreases 100 - i,
            {
                if reachable[i] {
                    let ghost before = next@;
                    next.set((i + r) % 100, true);
                    next.set(i, true);
                    proof {
                        assert forall|t: int| 0 <= t < 100 implies #[trigger] next@[t] == exists|i2: int|
                            0 <= i2 < i + 1 && #[trigger] reachable@[i2] && (t == i2 || t == (i2
                                + r) % 100) by {
                            if t == i || t == (i + r) % 100 {
                                assert(reachable@[i as int]);
                            } else {
                                assert(next@[t] == before[t]);
                            }
                        }
                    }
                } else {
                    proof {
                        assert forall|t: int| 0 <= t < 100 implies #[trigger] next@[t] == exists|i2: int|
                            0 <= i2 < i + 1 && #[trigger] reachable@[i2] && (t == i2 || t == (i2
                                + r) % 100) by {
                            if exists|i2: int|
                                0 <= i2 < i + 1 && #[trigger] reachable@[i2] && (t == i2 || t == (i2
                                    + r) % 100) {
                                let i2 = choose|i2: int|
                                    0 <= i2 < i + 1 && #[trigger] reachable@[i2] && (t == i2 || t
                                        == (i2 + r) % 100);
                                assert(i2 != i);
                            }
                        }
                    }
                }
                i = i + 1;
            }
            proof {
                assert forall|t: int| 0 <= t < 100 implies #[trigger] next@[t] == reach_mod(
                    vals,
                    k + 1,
                    t,
                ) by {
                    lemma_reach_mod_step(vals, k as int, t);
                    if reach_mod(vals, k as int, t) {
                        assert(reachable@[t]);
                    }
                    if exists|i2: int|
                        0 <= i2 < 100 && #[trigger] reach_mod(vals, k as int, i2) && (i2 + vals[k as int]
                            % 100) % 100 == t {
                        let i2 = choose|i2: int|
                            0 <= i2 < 100 && #[trigger] reach_mod(vals, k as int, i2) && (i2
                                + vals[k as int] % 100) % 100 == t;
                        assert(reachable@[i2]);
                    }
                    if next@[t] {
                        let i2 = choose|i2: int|
                            0 <= i2 < 100 && #[trigger] reachable@[i2] && (t == i2 || t == (i2 + r)
                                % 100);
                        assert(reach_mod(vals, k as int, i2));
                    }
                }
            }
            reachable = next;
            if reachable[target_idx] {
                proof {
                    lemma_reach_mod_mono(vals, k + 1, nums@.len() as int, rem % 100);
                    assert(vals.len() == nums@.len());
                    assert(last2_ok(vals, rem));
                }
                return true;
            }
            k = k + 1;
        }
        false
    }

    /// Decimal magnitude: number of decimal digits minus one (0 for zero).
    fn magnitude(n: &BigNum) -> (r: usize)
        ensures
            r == dlen(n@) - 1,
    {
        proof {
            lemma_decimal_shape(n@);
        }
        if n.is_zero() {
            return 0;
        }
        let s = n.to_decimal();
        s.len() - 1
    }

    /// Leading decimal digit (0 for zero).
    fn first_digit(n: &BigNum) -> (r: u32)
        ensures
            r == lead(n@),
    {
        proof {
            lemma_decimal_shape(n@);
        }
        if n.is_zero() {
            return 0;
        }
        let s = n.to_decimal();
        proof {
            assert(decimal(n@).len() >= 1);
            lemma_decimal_digits(n@);
        }
        (s[0] - 48) as u32
    }

    /// Whether the remaining amount is compatible with the magnitude and
    /// leading digit of the total: false only when no subset can reach it.
    fn first_digit_feasible(nums: &[BigNum], target: &BigNum, current: &BigNum) -> (r: bool)
        ensures
            nums@.len() == 0 ==> r == (target@ == current@),
            nums@.len() > 0 && !r ==> (current@ != 0 && current@ >= target@) || !solvable(
                big_values(nums@),
                remaining(target@ as int, current@ as int),
            ),
            nums@.len() > 0 && current@ == 0 && target@ != 0 ==> (r <==> !short_lead(
                sum_of(big_values(nums@)) as nat,
                target@,
            )),
    {
        let ghost vals = big_values(nums@);
        if nums.len() == 0 {
            return target.equals(current);
        }
        let remaining = if current.is_zero() {
            target.copy()
        } else {
            if !current.less_than(target) {
                return false;
            }
            target.minus(current)
        };
        if remaining.is_zero() {
            return true;
        }
        let t_fd = Self::first_digit(&remaining);
        let t_mag = Self::magnitude(&remaining);
        let mut min_possible = BigNum::zero();
        let mut max_possible = BigNum::zero();
        let mut i: usize = 0;
        while i < nums.len()
            invariant
                vals == big_values(nums@),
                i <= nums@.len(),
                min_possible@ == 0 || min_possible@ <= remaining@,
                max_possible@ == sum_of(vals.take(i as int)),
            decreases nums@.len() - i,
        {
            if !remaining.less_than(&nums[i]) {
                min_possible = nums[i].copy();
            }
            max_possible = max_possible.plus(&nums[i]);
            proof {
                assert(vals.take(i + 1) =~= vals.take(i as int).push(vals[i as int]));
                crate::spec::lemma_sum_of_push(vals.take(i as int), vals[i as int]);
            }
            i = i + 1;
        }
        proof {
            assert(vals.take(nums@.len() as int) =~= vals);
        }
        if !min_possible.is_zero() {
            let min_fd = Self::first_digit(&min_possible);
            let min_mag = Self::magnitude(&min_possible);
            if min_mag > t_mag || (min_mag == t_mag && min_fd > t_fd) {
                proof {
                    lemma_dec_order(remaining@, min_possible@);
                    lemma_above_total(vals, remaining@ as int);
                }
                return false;
            }
        }
        let max_fd = Self::first_digit(&max_possible);
        let max_mag = Self::magnitude(&max_possible);
        if max_mag < t_mag || (max_mag == t_mag && max_fd < t_fd) {
            proof {
                lemma_dec_order(max_possible@, remaining@);
                lemma_above_total(vals, remaining@ as int);
            }
            return false;
        }
        true
    }

    /// Impossible when either digit test fails, unknown otherwise.
    pub fn solve(sh: &Shared) -> (v: Verdict)
        ensures
            verdict_ok(v, sh.profile.values(), sh.profile.target_value()),
            !(v is Found),
            sh.profile.values().len() == 0 || sh.profile.target_value() == 0 ==> v is Unknown,
            sh.profile.values().len() > 0 && sh.profile.target_value() != 0 && !last2_ok(
                sh.profile.values(),
                sh.profile.target_value(),
            ) ==> v is Impossible,
            sh.profile.values().len() > 0 && sh.profile.target_value() != 0 && short_lead(
                sum_of(sh.profile.values()) as nat,
                sh.profile.target_value() as nat,
            ) ==> v is Impossible,
            sh.profile.values().len() > 0 && sh.profile.target_value() != 0 && last2_ok(
                sh.profile.values(),
                sh.profile.target_value(),
            ) && !short_lead(sum_of(sh.profile.values()) as nat, sh.profile.target_value() as nat) ==> v is Unknown,
    {
        let p = &sh.profile;
        let nums = p.numbers();
        let target = p.target();
        if p.n() == 0 || target.is_zero() {
            return Verdict::Unknown;
        }
        let zero = BigNum::zero();
        if !Self::last_2_digits_reachable(nums.as_slice(), target, &zero) {
            proof {
                if solvable(big_values(nums@), target@ as int) {
                    lemma_solvable_last2(big_values(nums@), target@ as int);
                }
            }
            return Verdict::Impossible;
        }
        if !Self::first_digit_feasible(nums.as_slice(), target, &zero) {
            return Verdict::Impossible;
        }
        Verdict::Unknown
    }
}

/// Each character of a decimal rendering is a digit.
proof fn lemma_decimal_digits(v: nat)
    ensures
        forall|i: int| 0 <= i < decimal(v).len() ==> 48 <= #[trigger] decimal(v)[i] <= 57,
    decreases v,
{
    if v >= 10 {
        lemma_decimal_digits(v / 10);
        let d = decimal(v / 10);
        assert(decimal(v) == d.push((48 + v % 10) as u8));
        assert forall|i: int| 0 <= i < decimal(v).len() implies 48 <= #[trigger] decimal(v)[i] <= 57 by {
            if i < d.len() {
                assert(decimal(v)[i] == d[i]);
            }
        }
    }
}

/// Reachability modulo 100 only grows as elements are added.
proof fn lemma_reach_mod_mono(vals: Seq<int>, k1: int, k2: int, j: int)
    requires
        0 <= k1 <= k2 <= vals.len(),
        reach_mod(vals, k1, j),
    ensures
        reach_mod(vals, k2, j),
    decreases k2 - k1,
{
    if k2 > k1 {
        lemma_reach_mod_mono(vals, k1, k2 - 1, j);
        lemma_reach_mod_step(vals, k2 - 1, j);
    }
}

impl Engine for DigitFilterEngine {
    fn name(&self) -> (r: &'static str)
        ensures
            r == crate::scheduler::EngineId::DigitFilter.label(),
    {
        "DigitFilter"
    }

    fn run(&self, sh: &Shared) {
        let v = Self::solve(sh);
        sh.apply(v, "DigitFilter");
    }
}

} // verus!
