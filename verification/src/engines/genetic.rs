//! Pieces of the genetic search: its pseudo-random generator, the sum of
//! the elements a bit string selects, and the answer a bit string gives.
//! The search itself ranks candidates by floating-point fitness.
use crate::bignum::BigNum;
use crate::controller::clock_seed;
use crate::profile::big_values;
use crate::select::{bit_flags, chosen, lemma_chosen};
use crate::spec::{ints, is_sub_multiset, sel_sum, sum_of};
use vstd::prelude::*;

verus! {

pub struct GeneticEngine;

/// One xorshift step (shifts 13, 7, 17).
pub open spec fn xorshift(x: u64) -> u64 {
    let a = x ^ (x << 13u64);
    let b = a ^ (a >> 7u64);
    b ^ (b << 17u64)
}

/// A xorshift pseudo-random generator.
pub struct XorShift(u64);

impl XorShift {
    /// The generator's state.
    pub closed spec fn state(&self) -> u64 {
        self.0
    }

    /// A generator whose state is a fixed constant mixed with `seed`.
    pub fn from_seed(seed: u64) -> (r: XorShift)
        ensures
            r.state() == 0x9E37_79B9_7F4A_7C15u64 ^ seed,
    {
        XorShift(0x9E37_79B9_7F4A_7C15u64 ^ seed)
    }

    /// A generator seeded from the clock.
    pub fn new() -> XorShift {
        Self::from_seed(clock_seed())
    }

    /// Advance one step and return the new state.
    pub fn next(&mut self) -> (r: u64)
        ensures
            final(self).state() == xorshift(old(self).state()),
            r == final(self).state(),
    {
        let mut x = self.0;
        x = x ^ (x << 13u64);
        x = x ^ (x >> 7u64);
        x = x ^ (x << 17u64);
        self.0 = x;
        x
    }

    /// A number in `lo..hi` from the next state.
    pub fn gen_range(&mut self, lo: usize, hi: usize) -> (r: usize)
        requires
            lo < hi,
        ensures
            final(self).state() == xorshift(old(self).state()),
            r == lo + (xorshift(old(self).state()) as usize) % ((hi - lo) as usize),
            lo <= r < hi,
    {
        let x = self.next();
        lo + (x as usize) % (hi - lo)
    }
}

/// Bit `i` of `bits` is set (and `i` is below 128).
fn bit_at(bits: u128, i: usize) -> (r: bool)
    ensures
        r == (i < 128 && (bits >> (i as u128)) & 1 == 1),
{
    i < 128 && (bits >> (i as u128)) & 1 == 1
}

/// A selection sums to at most the elements it ranges over.
proof fn lemma_sel_sum_le_prefix(e: Seq<int>, sel: Seq<bool>)
    requires
        sel.len() <= e.len(),
        forall|i: int| 0 <= i < e.len() ==> e[i] >= 0,
    ensures
        sel_sum(e, sel) <= sum_of(e),
{
    lemma_chosen(e, sel);
    crate::spec::lemma_sub_multiset_sum(chosen(e, sel), e.take(sel.len() as int));
    crate::spec::lemma_sum_subrange_le(e, 0, sel.len() as int);
    assert(e.take(sel.len() as int) =~= e.subrange(0, sel.len() as int));
}

/// Sum, wrapping at 2^128, of the elements among the first `n` whose bit is
/// set in `bits`.
pub fn compute_sum(bits: u128, nums: &[u128], n: usize) -> (r: u128)
    requires
        n <= nums@.len(),
    ensures
        r as int == sel_sum(ints(nums@), bit_flags(bits, n as nat)) % (u128::MAX as int + 1),
        sel_sum(ints(nums@), bit_flags(bits, n as nat)) <= u128::MAX ==> r == sel_sum(
            ints(nums@),
            bit_flags(bits, n as nat),
        ),
{
    let ghost e = ints(nums@);
    let ghost m: int = u128::MAX as int + 1;
    let mut sum: u128 = 0;
    let mut i: usize = 0;
    while i < n
        invariant
            e == ints(nums@),
            m == u128::MAX as int + 1,
            n <= nums@.len(),
            i <= n,
            sum as int == sel_sum(e, bit_flags(bits, i as nat)) % m,
        decreases n - i,
    {
        let ghost flags = bit_flags(bits, (i + 1) as nat);
        let ghost before = sel_sum(e, bit_flags(bits, i as nat));
        proof {
            assert(flags.drop_last() =~= bit_flags(bits, i as nat));
        }
        if bit_at(bits, i) {
            let old_sum = sum;
            sum = sum.wrapping_add(nums[i]);
            proof {
                assert(sel_sum(e, flags) == before + e[i as int]);
                vstd::arithmetic::div_mod::lemma_add_mod_noop(before, e[i as int], m);
                vstd::arithmetic::div_mod::lemma_small_mod(e[i as int] as nat, m as nat);
                vstd::arithmetic::div_mod::lemma_small_mod(old_sum as nat, m as nat);
                let x = old_sum as int + nums[i as int] as int;
                if x >= m {
                    vstd::arithmetic::div_mod::lemma_mod_multiples_vanish(1, x - m, m);
                    vstd::arithmetic::div_mod::lemma_small_mod((x - m) as nat, m as nat);
                } else {
                    vstd::arithmetic::div_mod::lemma_small_mod(x as nat, m as nat);
                }
            }
        } else {
            proof {
                assert(sel_sum(e, flags) == before);
            }
        }
        i = i + 1;
    }
    proof {
        let total = sel_sum(e, bit_flags(bits, n as nat));
        if total <= u128::MAX {
            crate::spec::lemma_sel_sum_nonneg(e, bit_flags(bits, n as nat));
            vstd::arithmetic::div_mod::lemma_small_mod(total as nat, m as nat);
        }
    }
    sum
}

/// The elements among the first `n` whose bit is set in `bits`, as big
/// numbers; drawn from `nums`.
pub fn report_solution(nums: &[u128], n: usize, bits: u128) -> (sol: Vec<BigNum>)
    requires
        n <= nums@.len(),
    ensures
        big_values(sol@) == chosen(ints(nums@), bit_flags(bits, n as nat)),
        is_sub_multiset(big_values(sol@), ints(nums@)),
{
    let ghost e = ints(nums@);
    let mut sol: Vec<BigNum> = Vec::new();
    let mut i: usize = 0;
    while i < n
        invariant
            e == ints(nums@),
            n <= nums@.len(),
            i <= n,
            big_values(sol@) == chosen(e, bit_flags(bits, i as nat)),
        decreases n - i,
    {
        let ghost flags = bit_flags(bits, (i + 1) as nat);
        proof {
            assert(flags.drop_last() =~= bit_flags(bits, i as nat));
        }
        if bit_at(bits, i) {
            let ghost before = sol@;
            sol.push(BigNum::from_u128(nums[i]));
            proof {
                assert(big_values(sol@) =~= big_values(before).push(e[i as int]));
            }
        }
        i = i + 1;
    }
    proof {
        lemma_chosen(e, bit_flags(bits, n as nat));
        crate::engines::bitset_dp::lemma_subrange_in(e, 0, n as int);
        assert(e.take(n as int) =~= e.subrange(0, n as int));
        crate::spec::lemma_sub_multiset_trans(big_values(sol@), e.take(n as int), e);
    }
    sol
}

} // verus!
