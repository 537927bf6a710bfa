//! A subset-sum instance and the facts about it that the engines and the
//! scheduler read.
use crate::bignum::BigNum;
use crate::spec::{ints, lemma_sum_of_push, sum_of};
use vstd::prelude::*;

verus! {

/// Values at or above this bound make an instance too large for the
/// 128-bit engines (`2^126`: sums of two such values still fit a `u128`).
pub open spec fn safe_limit() -> int {
    0x4000_0000_0000_0000_0000_0000_0000_0000
}

/// The values of a sequence of big numbers.
pub open spec fn big_values(s: Seq<BigNum>) -> Seq<int> {
    s.map_values(|b: BigNum| b@ as int)
}

/// Every element exceeds the sum of the elements before it.
pub open spec fn super_increasing(s: Seq<int>) -> bool {
    forall|i: int| 0 <= i < s.len() ==> #[trigger] s[i] > sum_of(s.take(i))
}

/// A subset-sum instance: the elements, the target, and derived facts.
pub struct Profile {
    numbers: Vec<BigNum>,
    target: BigNum,
    n: usize,
    total_sum: BigNum,
    is_super_increasing: bool,
    sat_encoded: bool,
}

impl Profile {
    /// The elements as integers.
    pub closed spec fn values(&self) -> Seq<int> {
        big_values(self.numbers@)
    }

    /// The target as an integer.
    pub closed spec fn target_value(&self) -> int {
        self.target@ as int
    }

    /// Whether the instance was marked as coming from a SAT encoding.
    pub closed spec fn sat_flag(&self) -> bool {
        self.sat_encoded
    }

    /// The derived facts agree with the elements.
    #[verifier::type_invariant]
    closed spec fn wf(&self) -> bool {
        &&& self.n == self.numbers@.len()
        &&& self.total_sum@ == sum_of(self.values())
        &&& self.is_super_increasing == super_increasing(self.values())
    }

    /// The instance fits the 128-bit engines.
    pub open spec fn safe(&self) -> bool {
        sum_of(self.values()) < safe_limit() && self.target_value() < safe_limit()
    }

    /// The elements.
    pub fn numbers(&self) -> (r: &Vec<BigNum>)
        ensures
            big_values(r@) == self.values(),
    {
        &self.numbers
    }

    /// The target.
    pub fn target(&self) -> (r: &BigNum)
        ensures
            r@ == self.target_value(),
    {
        &self.target
    }

    /// Number of elements.
    pub fn n(&self) -> (r: usize)
        ensures
            r == self.values().len(),
    {
        proof {
            use_type_invariant(self);
        }
        self.n
    }

    /// Sum of all elements.
    pub fn total_sum(&self) -> (r: &BigNum)
        ensures
            r@ == sum_of(self.values()),
    {
        proof {
            use_type_invariant(self);
        }
        &self.total_sum
    }

    /// Whether every element exceeds the sum of the elements before it.
    pub fn is_super_increasing(&self) -> (r: bool)
        ensures
            r == super_increasing(self.values()),
    {
        proof {
            use_type_invariant(self);
        }
        self.is_super_increasing
    }

    /// Build the profile of an instance; `sat_encoded` tells whether the
    /// instance comes from a SAT encoding.
    pub fn new(numbers: Vec<BigNum>, target: BigNum, sat_encoded: bool) -> (p: Profile)
        ensures
            p.values() == big_values(numbers@),
            p.target_value() == target@,
            p.sat_flag() == sat_encoded,
    {
        let mut total = BigNum::zero();
        let mut inc = true;
        let mut i: usize = 0;
        let ghost vals = big_values(numbers@);
        while i < numbers.len()
            invariant
                i <= numbers@.len(),
                vals == big_values(numbers@),
                total@ == sum_of(vals.take(i as int)),
                inc == forall|j: int| 0 <= j < i ==> #[trigger] vals[j] > sum_of(vals.take(j)),
            decreases numbers@.len() - i,
        {
            if !total.less_than(&numbers[i]) {
                inc = false;
            }
            let ghost old_total = total@;
            total = total.plus(&numbers[i]);
            proof {
                assert(vals.take(i + 1) =~= vals.take(i as int).push(vals[i as int]));
                lemma_sum_of_push(vals.take(i as int), vals[i as int]);
            }
            i = i + 1;
        }
        proof {
            assert(vals.take(numbers@.len() as int) =~= vals);
        }
        let n = numbers.len();
        Profile { numbers, target, n, total_sum: total, is_super_increasing: inc, sat_encoded }
    }

    /// Whether the instance fits the 128-bit engines.
    pub fn u128_safe(&self) -> (r: bool)
        ensures
            r == self.safe(),
    {
        proof {
            use_type_invariant(self);
        }
        let limit = BigNum::from_u128(0x4000_0000_0000_0000_0000_0000_0000_0000u128);
        self.total_sum.less_than(&limit) && self.target.less_than(&limit)
    }

    /// Whether the instance comes from a SAT encoding.
    pub fn looks_sat_encoded(&self) -> (r: bool)
        ensures
            r == self.sat_flag(),
    {
        self.sat_encoded
    }

    /// The target as a `u128`.
    pub fn target_u128(&self) -> (r: u128)
        requires
            self.safe(),
        ensures
            r == self.target_value(),
    {
        match self.target.to_u128() {
            Some(t) => t,
            None => 0,
        }
    }

    /// The elements as `u128` values.
    pub fn numbers_u128(&self) -> (r: Vec<u128>)
        requires
            self.safe(),
        ensures
            ints(r@) == self.values(),
            sum_of(ints(r@)) < safe_limit(),
    {
        let mut r: Vec<u128> = Vec::new();
        let mut i: usize = 0;
        proof {
            lemma_parts_below_total(self.values());
        }
        while i < self.numbers.len()
            invariant
                self.safe(),
                i <= self.numbers@.len(),
                ints(r@) == self.values().take(i as int),
                forall|j: int| 0 <= j < self.values().len() ==> #[trigger] self.values()[j] <= sum_of(
                    self.values(),
                ),
            decreases self.numbers@.len() - i,
        {
            let x = match self.numbers[i].to_u128() {
                Some(x) => x,
                None => 0,
            };
            proof {
                assert(self.values()[i as int] == self.numbers@[i as int]@);
            }
            let ghost old_r = r@;
            r.push(x);
            proof {
                assert(ints(r@) =~= ints(old_r).push(x as int));
                assert(self.values().take(i + 1) =~= self.values().take(i as int).push(
                    self.values()[i as int],
                ));
            }
            i = i + 1;
        }
        proof {
            assert(self.values().take(self.numbers@.len() as int) =~= self.values());
        }
        r
    }
}

/// Each element of a sequence of naturals is at most its sum.
pub proof fn lemma_parts_below_total(s: Seq<int>)
    requires
        forall|i: int| 0 <= i < s.len() ==> s[i] >= 0,
    ensures
        forall|i: int| 0 <= i < s.len() ==> #[trigger] s[i] <= sum_of(s),
        sum_of(s) >= 0,
    decreases s.len(),
{
    if s.len() > 0 {
        lemma_parts_below_total(s.drop_last());
        assert forall|i: int| 0 <= i < s.len() implies #[trigger] s[i] <= sum_of(s) by {
            if i < s.len() - 1 {
                assert(s[i] == s.drop_last()[i]);
            }
        }
    }
}

} // verus!
