//! Arbitrary-precision naturals for instances beyond 128 bits.
//!
//! A `BigNum` holds its base-2^32 digits, least significant first; its view
//! is the natural number they denote. The arithmetic itself is done by
//! `num_bigint::BigUint`: each operation below converts the digits to a
//! `BigUint`, makes one call, and converts back.
use num_bigint::BigUint;
use num_traits::{ToPrimitive, Zero};
use vstd::prelude::*;

verus! {

/// Value of base-2^32 digits, least significant first.
pub open spec fn digits_value(d: Seq<u32>) -> nat
    decreases d.len(),
{
    if d.len() == 0 {
        0
    } else {
        d[0] as nat + 4294967296 * digits_value(d.drop_first())
    }
}

/// An arbitrary-precision natural number.
pub struct BigNum {
    digits: Vec<u32>,
}

impl View for BigNum {
    type V = nat;

    closed spec fn view(&self) -> nat {
        digits_value(self.digits@)
    }
}

/// ASCII decimal digits of `v`, most significant first, without leading
/// zeros ("0" for zero).
pub open spec fn decimal(v: nat) -> Seq<u8>
    decreases v,
{
    if v < 10 {
        seq![(48 + v) as u8]
    } else {
        decimal(v / 10).push((48 + v % 10) as u8)
    }
}

/// Value of the decimal digits in `s`, skipping `_` separators.
pub open spec fn decimal_value(s: Seq<u8>) -> nat
    decreases s.len(),
{
    if s.len() == 0 {
        0
    } else if s.last() == 95u8 {
        decimal_value(s.drop_last())
    } else {
        decimal_value(s.drop_last()) * 10 + (s.last() - 48) as nat
    }
}

/// `s` is what `BigUint::parse_bytes(s, 10)` accepts after an optional single
/// leading `+`: nonempty, not starting with `_`, only ASCII digits and `_`.
pub open spec fn decimal_body_ok(s: Seq<u8>) -> bool {
    &&& s.len() > 0
    &&& s[0] != 95u8
    &&& forall|i: int| 0 <= i < s.len() ==> (48u8 <= #[trigger] s[i] <= 57u8 || s[i] == 95u8)
}

/// The digits that `BigUint::parse_bytes(s, 10)` reads: `s` without a single
/// leading `+` that is not followed by another `+`.
pub open spec fn decimal_body(s: Seq<u8>) -> Seq<u8> {
    if s.len() > 0 && s[0] == 43u8 && !(s.len() > 1 && s[1] == 43u8) {
        s.drop_first()
    } else {
        s
    }
}

impl BigNum {
    /// Zero.
    pub fn zero() -> (r: BigNum)
        ensures
            r@ == 0,
    {
        BigNum { digits: Vec::new() }
    }

    /// A copy with the same value.
    pub fn copy(&self) -> (r: BigNum)
        ensures
            r@ == self@,
    {
        BigNum { digits: self.digits.clone() }
    }

    /// The value of a `u128`.
    ///
    /// Calls `BigUint::from(u128)`, which the crate documents as the same value.
    #[verifier::external_body]
    pub(crate) fn from_u128(x: u128) -> (r: BigNum)
        ensures
            r@ == x as nat,
    {
        BigNum { digits: BigUint::from(x).to_u32_digits() }
    }

    /// The value as a `u128`, or `None` when it does not fit.
    ///
    /// Calls `num_traits::ToPrimitive::to_u128` on the `BigUint`, which returns
    /// `Some` exactly when the value fits.
    #[verifier::external_body]
    pub(crate) fn to_u128(&self) -> (r: Option<u128>)
        ensures
            self@ <= u128::MAX ==> r == Some(self@ as u128),
            self@ > u128::MAX ==> r is None,
    {
        BigUint::new(self.digits.clone()).to_u128()
    }

    /// The value as a `u32`, or `None` when it does not fit.
    ///
    /// Calls `num_traits::ToPrimitive::to_u32` on the `BigUint`.
    #[verifier::external_body]
    pub(crate) fn to_u32(&self) -> (r: Option<u32>)
        ensures
            self@ <= u32::MAX ==> r == Some(self@ as u32),
            self@ > u32::MAX ==> r is None,
    {
        BigUint::new(self.digits.clone()).to_u32()
    }

    /// The value as a `usize`, or `None` when it does not fit.
    ///
    /// Calls `num_traits::ToPrimitive::to_usize` on the `BigUint`.
    #[verifier::external_body]
    pub(crate) fn to_usize(&self) -> (r: Option<usize>)
        ensures
            self@ <= usize::MAX ==> r == Some(self@ as usize),
            self@ > usize::MAX ==> r is None,
    {
        BigUint::new(self.digits.clone()).to_usize()
    }

    /// `self + other`, by `BigUint` addition.
    #[verifier::external_body]
    pub(crate) fn plus(&self, other: &BigNum) -> (r: BigNum)
        ensures
            r@ == self@ + other@,
    {
        BigNum {
            digits: (BigUint::new(self.digits.clone()) + BigUint::new(other.digits.clone())).to_u32_digits(),
        }
    }

    /// `self - other`, by `BigUint` subtraction, which panics when
    /// `other > self`; that input is excluded.
    #[verifier::external_body]
    pub(crate) fn minus(&self, other: &BigNum) -> (r: BigNum)
        requires
            other@ <= self@,
        ensures
            r@ == self@ - other@,
    {
        BigNum {
            digits: (BigUint::new(self.digits.clone()) - BigUint::new(other.digits.clone())).to_u32_digits(),
        }
    }

    /// `self * other`, by `BigUint` multiplication.
    #[verifier::external_body]
    pub(crate) fn times(&self, other: &BigNum) -> (r: BigNum)
        ensures
            r@ == self@ * other@,
    {
        BigNum {
            digits: (BigUint::new(self.digits.clone()) * BigUint::new(other.digits.clone())).to_u32_digits(),
        }
    }

    /// `self / other` rounded down, by `BigUint` division, which panics on a
    /// zero divisor; that input is excluded.
    #[verifier::external_body]
    pub(crate) fn divided_by(&self, other: &BigNum) -> (r: BigNum)
        requires
            other@ > 0,
        ensures
            r@ == self@ / other@,
    {
        BigNum {
            digits: (BigUint::new(self.digits.clone()) / BigUint::new(other.digits.clone())).to_u32_digits(),
        }
    }

    /// `self % m`, by `BigUint` remainder by a `u32`, which panics when `m` is
    /// zero; that input is excluded.
    #[verifier::external_body]
    pub(crate) fn rem_u32(&self, m: u32) -> (r: BigNum)
        requires
            m > 0,
        ensures
            r@ == self@ % (m as nat),
    {
        BigNum { digits: (BigUint::new(self.digits.clone()) % m).to_u32_digits() }
    }

    /// `self < other`, by `BigUint`'s order, which is the order of the values.
    #[verifier::external_body]
    pub(crate) fn less_than(&self, other: &BigNum) -> (r: bool)
        ensures
            r == (self@ < other@),
    {
        BigUint::new(self.digits.clone()) < BigUint::new(other.digits.clone())
    }

    /// `self == other`, by `BigUint` equality, which is equality of the values.
    #[verifier::external_body]
    pub(crate) fn equals(&self, other: &BigNum) -> (r: bool)
        ensures
            r == (self@ == other@),
    {
        BigUint::new(self.digits.clone()) == BigUint::new(other.digits.clone())
    }

    /// Whether the value is zero, by `num_traits::Zero::is_zero`.
    #[verifier::external_body]
    pub(crate) fn is_zero(&self) -> (r: bool)
        ensures
            r == (self@ == 0),
    {
        BigUint::new(self.digits.clone()).is_zero()
    }

    /// The fewest bits that express the value, by `BigUint::bits`: 0 for
    /// zero, else the `b` with `2^(b-1) <= value < 2^b`.
    #[verifier::external_body]
    pub(crate) fn bits(&self) -> (r: u64)
        ensures
            self@ == 0 ==> r == 0,
            self@ > 0 ==> r > 0 && vstd::arithmetic::power2::pow2((r - 1) as nat) <= self@
                < vstd::arithmetic::power2::pow2(r as nat),
    {
        BigUint::new(self.digits.clone()).bits()
    }

    /// The value in decimal ASCII digits, by `BigUint::to_str_radix(10)`.
    #[verifier::external_body]
    pub(crate) fn to_decimal(&self) -> (r: Vec<u8>)
        ensures
            r@ == decimal(self@),
    {
        BigUint::new(self.digits.clone()).to_str_radix(10).into_bytes()
    }

    /// `BigUint::parse_bytes(s, 10)`: the decimal number that `s` spells, with
    /// an optional leading `+` and `_` separators, or `None`.
    #[verifier::external_body]
    pub(crate) fn parse_decimal(s: &[u8]) -> (r: Option<BigNum>)
        ensures
            r is Some <==> decimal_body_ok(decimal_body(s@)),
            r matches Some(v) ==> v@ == decimal_value(decimal_body(s@)),
    {
        match BigUint::parse_bytes(s, 10) {
            Some(v) => Some(BigNum { digits: v.to_u32_digits() }),
            None => None,
        }
    }

    /// The digits, least significant first, as `num_bigint` takes them.
    pub fn to_u32_digits(&self) -> (r: Vec<u32>)
        ensures
            digits_value(r@) == self@,
    {
        self.digits.clone()
    }

    /// The number that base-2^32 digits denote, least significant first.
    pub fn from_u32_digits(digits: Vec<u32>) -> (r: BigNum)
        ensures
            r@ == digits_value(digits@),
    {
        BigNum { digits }
    }
}

/// Copies of the numbers of `v`, in order.
pub fn copy_all(v: &[BigNum]) -> (r: Vec<BigNum>)
    ensures
        r@.len() == v@.len(),
        forall|i: int| 0 <= i < v@.len() ==> (#[trigger] r@[i])@ == v@[i]@,
{
    let mut r: Vec<BigNum> = Vec::new();
    for i in 0..v.len()
        invariant
            r@.len() == i,
            forall|j: int| 0 <= j < i ==> (#[trigger] r@[j])@ == v@[j]@,
    {
        r.push(v[i].copy());
    }
    r
}

/// The numbers of `v`, largest first.
pub fn sort_big_desc(v: &[BigNum]) -> (r: Vec<BigNum>)
    ensures
        crate::profile::big_values(r@).to_multiset() == crate::profile::big_values(v@).to_multiset(),
        forall|i: int, j: int| 0 <= i < j < r@.len() ==> (#[trigger] r@[i])@ >= (#[trigger] r@[j])@,
        r@.len() == v@.len(),
{
    broadcast use vstd::seq_lib::group_to_multiset_ensures;
    broadcast use vstd::multiset::group_multiset_axioms;

    let mut r: Vec<BigNum> = Vec::new();
    assert(crate::profile::big_values(v@.take(0)) =~= Seq::<int>::empty());
    for k in 0..v.len()
        invariant
            crate::profile::big_values(r@).to_multiset() == crate::profile::big_values(v@.take(k as int)).to_multiset(),
            r@.len() == k,
            forall|i: int, j: int| 0 <= i < j < r@.len() ==> (#[trigger] r@[i])@ >= (#[trigger] r@[j])@,
    {
        let x = v[k].copy();
        let mut p: usize = 0;
        while p < r.len() && !r[p].less_than(&x)
            invariant
                p <= r@.len(),
                forall|i: int| 0 <= i < p ==> (#[trigger] r@[i])@ >= x@,
            decreases r@.len() - p,
        {
            p = p + 1;
        }
        let ghost old_r = r@;
        let ghost xv = x@ as int;
        r.insert(p, x);
        proof {
            old_r.insert_ensures(p as int, r@[p as int]);
            let m_old = crate::profile::big_values(old_r);
            let m_new = crate::profile::big_values(r@);
            assert(m_new =~= m_old.insert(p as int, xv));
            vstd::seq_lib::to_multiset_insert(m_old, p as int, xv);
            let t = crate::profile::big_values(v@.take(k as int));
            assert(crate::profile::big_values(v@.take(k + 1)) =~= t.push(xv));
            vstd::seq_lib::to_multiset_build(t, xv);
            assert forall|i: int, j: int| 0 <= i < j < r@.len() implies (#[trigger] r@[i])@ >= (#[trigger] r@[j])@ by {
                if j < p {
                    assert(r@[i] == old_r[i] && r@[j] == old_r[j]);
                } else if j == p {
                    assert(r@[i] == old_r[i]);
                } else if i < p {
                    assert(r@[i] == old_r[i] && r@[j] == old_r[j - 1]);
                } else if i == p {
                    assert(r@[j] == old_r[j - 1]);
                    assert(old_r[p as int]@ < xv);
                    if j - 1 > p {
                        assert(old_r[p as int]@ >= old_r[j - 1]@);
                    }
                } else {
                    assert(r@[i] == old_r[i - 1] && r@[j] == old_r[j - 1]);
                }
            }
        }
    }
    assert(v@.take(v@.len() as int) =~= v@);
    r
}

} // verus!
