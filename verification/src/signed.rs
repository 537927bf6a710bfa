//! Signed `{-1, 0, +1}` combinations of a few elements, bucketed by residue.
//!
//! A combination is numbered by a `code` whose base-3 digits give, element by
//! element, 0 (skip), 1 (add) or 2 (subtract). Its mask stores the same digit
//! in the two bits `2i..2i+2` of element `i`.
use crate::bits::bit;
use std::collections::HashMap;
use vstd::arithmetic::div_mod::lemma_div_denominator;
use vstd::prelude::*;

verus! {

/// One signed combination: its running sum and its two-bits-per-element mask.
#[derive(Clone, Copy)]
pub struct SignedEntry {
    pub sum: i128,
    pub mask: u64,
}

pub open spec fn pow3(i: nat) -> nat
    decreases i,
{
    if i == 0 {
        1
    } else {
        3 * pow3((i - 1) as nat)
    }
}

/// Base-3 digit `i` of `code`.
pub open spec fn digit3(code: nat, i: nat) -> nat {
    (code / pow3(i)) % 3
}

pub open spec fn clamp_i128(x: int) -> int {
    if x > i128::MAX {
        i128::MAX as int
    } else if x < i128::MIN {
        i128::MIN as int
    } else {
        x
    }
}

pub open spec fn abs(x: int) -> int {
    if x < 0 {
        -x
    } else {
        x
    }
}

/// Running sum after the first `k` elements, each added or subtracted (as a
/// signed 128-bit value) with saturation at the `i128` range.
pub open spec fn signed_run(nums: Seq<u128>, code: nat, k: nat) -> int
    decreases k,
{
    if k == 0 {
        0
    } else {
        let p = signed_run(nums, code, (k - 1) as nat);
        let v = (nums[k - 1] as i128) as int;
        let d = digit3(code, (k - 1) as nat);
        if d == 1 {
            clamp_i128(p + v)
        } else if d == 2 {
            clamp_i128(p - v)
        } else {
            p
        }
    }
}

/// Every running sum over the first `k` elements stays within `bound` in absolute value.
pub open spec fn within(nums: Seq<u128>, code: nat, bound: int, k: nat) -> bool
    decreases k,
{
    k == 0 || (within(nums, code, bound, (k - 1) as nat) && abs(signed_run(nums, code, k))
        <= bound)
}

/// Number of subtracted elements among the first `k`.
pub open spec fn neg_digits(code: nat, k: nat) -> nat
    decreases k,
{
    if k == 0 {
        0
    } else {
        neg_digits(code, (k - 1) as nat) + if digit3(code, (k - 1) as nat) == 2 {
            1nat
        } else {
            0nat
        }
    }
}

/// The two bits of element `i` in a signed mask.
pub open spec fn field(mask: u64, i: int) -> u64 {
    (mask >> ((2 * i) as u64)) & 3u64
}

/// `mask` stores the first `q` digits of `code` and nothing above them.
pub open spec fn encodes(mask: u64, code: nat, q: nat) -> bool {
    &&& forall|i: int| 2 * q <= i < 64 ==> !#[trigger] bit(mask, i)
    &&& forall|i: int| 0 <= i < q ==> #[trigger] field(mask, i) == digit3(code, i as nat)
}

/// The bound on running sums: `2|target| + 1`, saturated at `i128::MAX`.
pub open spec fn sum_bound(target: i128) -> int {
    let a = if target == i128::MIN {
        i128::MAX as int
    } else {
        abs(target as int)
    };
    if 2 * a + 1 > i128::MAX {
        i128::MAX as int
    } else {
        2 * a + 1
    }
}

/// Bucket of a sum: its Euclidean residue modulo `modulus` (read as `i128`),
/// masked with `modulus - 1`.
pub open spec fn bucket_key(s: int, modulus: u128) -> u128 {
    ((s % ((modulus as i128) as int)) as u128) & ((modulus - 1) as u128)
}

/// Combination `c1` is strictly preferred to `c2`: fewer subtracted elements
/// first when `fewer_negs`, then a running sum closer to zero.
pub open spec fn prefer(nums: Seq<u128>, c1: nat, c2: nat, fewer_negs: bool) -> bool {
    let q = nums.len();
    let s1 = abs(signed_run(nums, c1, q));
    let s2 = abs(signed_run(nums, c2, q));
    if fewer_negs {
        neg_digits(c1, q) < neg_digits(c2, q) || (neg_digits(c1, q) == neg_digits(c2, q) && s1
            < s2)
    } else {
        s1 < s2
    }
}

/// Combination `c` is kept and falls in bucket `key`.
pub open spec fn in_bucket(nums: Seq<u128>, bound: int, modulus: u128, c: nat, key: u128) -> bool {
    &&& within(nums, c, bound, nums.len())
    &&& bucket_key(signed_run(nums, c, nums.len()), modulus) == key
}

/// Among the kept combinations numbered below `limit` in bucket `key`, `c` is
/// the first one that no other is preferred to.
pub open spec fn winner(
    nums: Seq<u128>,
    bound: int,
    modulus: u128,
    limit: nat,
    c: nat,
    key: u128,
    fewer_negs: bool,
) -> bool {
    &&& c < limit
    &&& in_bucket(nums, bound, modulus, c, key)
    &&& forall|c2: nat|
        c2 < limit && #[trigger] in_bucket(nums, bound, modulus, c2, key) ==> !prefer(
            nums,
            c2,
            c,
            fewer_negs,
        )
    &&& forall|c2: nat|
        c2 < c && #[trigger] in_bucket(nums, bound, modulus, c2, key) ==> prefer(
            nums,
            c,
            c2,
            fewer_negs,
        )
}

/// `e` is the entry of combination `c`.
pub open spec fn entry_of(nums: Seq<u128>, e: SignedEntry, c: nat) -> bool {
    e.sum == signed_run(nums, c, nums.len()) && encodes(e.mask, c, nums.len())
}

/// The bucket map holds, for each bucket reached by a kept combination below
/// `limit`, the entry of that bucket's winner, and nothing else.
pub open spec fn buckets_ok(
    m: Map<u128, SignedEntry>,
    nums: Seq<u128>,
    bound: int,
    modulus: u128,
    limit: nat,
    fewer_negs: bool,
) -> bool {
    &&& forall|c: nat, key: u128|
        c < limit && #[trigger] in_bucket(nums, bound, modulus, c, key) ==> m.contains_key(key)
    &&& forall|key: u128|
        #[trigger] m.contains_key(key) ==> exists|c: nat|
            winner(nums, bound, modulus, limit, c, key, fewer_negs) && entry_of(nums, m[key], c)
}

proof fn lemma_pow3_pos(i: nat)
    ensures
        pow3(i) >= 1,
    decreases i,
{
    if i > 0 {
        lemma_pow3_pos((i - 1) as nat);
    }
}

proof fn lemma_pow3_16()
    ensures
        pow3(16) == 43046721,
{
    reveal_with_fuel(pow3, 17);
}

proof fn lemma_pow3_mono(i: nat, j: nat)
    requires
        i <= j,
    ensures
        pow3(i) <= pow3(j),
    decreases j - i,
{
    if j > i {
        lemma_pow3_mono(i, (j - 1) as nat);
        lemma_pow3_pos((j - 1) as nat);
    }
}

fn sat_add(a: i128, b: i128) -> (r: i128)
    ensures
        r == clamp_i128(a + b),
{
    match a.checked_add(b) {
        Some(x) => x,
        None => if b > 0 {
            i128::MAX
        } else {
            i128::MIN
        },
    }
}

fn sat_sub(a: i128, b: i128) -> (r: i128)
    ensures
        r == clamp_i128(a - b),
{
    match a.checked_sub(b) {
        Some(x) => x,
        None => if b < 0 {
            i128::MAX
        } else {
            i128::MIN
        },
    }
}

fn abs_u128(a: i128) -> (r: u128)
    ensures
        r == abs(a as int),
{
    if a < 0 {
        ((-(a + 1)) as u128) + 1
    } else {
        a as u128
    }
}

fn bound_for(target: i128) -> (b: i128)
    ensures
        b == sum_bound(target),
        b >= 1,
{
    let a: i128 = if target == i128::MIN {
        i128::MAX
    } else if target < 0 {
        -target
    } else {
        target
    };
    if a > (i128::MAX - 1) / 2 {
        i128::MAX
    } else {
        2 * a + 1
    }
}

fn pow3_u64(q: usize) -> (r: u64)
    requires
        q <= 16,
    ensures
        r == pow3(q as nat),
{
    let mut r: u64 = 1;
    let mut i: usize = 0;
    while i < q
        invariant
            i <= q <= 16,
            r == pow3(i as nat),
        decreases q - i,
    {
        proof {
            lemma_pow3_mono((i + 1) as nat, 16);
            lemma_pow3_16();
        }
        r = r * 3;
        i = i + 1;
    }
    r
}

/// Setting the field of element `i` in a mask whose fields from `i` on are empty.
proof fn lemma_field_set(mask: u64, d: u64, i: int)
    requires
        0 <= i < 16,
        d < 3,
        mask < (1u64 << ((2 * i) as u64)),
    ensures
        (mask | (d << ((2 * i) as u64))) < (1u64 << ((2 * i + 2) as u64)),
        field(mask | (d << ((2 * i) as u64)), i) == d,
        forall|j: int| 0 <= j < i ==> #[trigger] field(mask | (d << ((2 * i) as u64)), j) == field(mask, j),
{
    let s = (2 * i) as u64;
    assert((mask | (d << s)) < (1u64 << ((s + 2) as u64))) by (bit_vector)
        requires
            s < 32,
            d < 3,
            mask < (1u64 << s),
    ;
    assert(((mask | (d << s)) >> s) & 3u64 == d) by (bit_vector)
        requires
            s < 32,
            d < 3,
            mask < (1u64 << s),
    ;
    assert forall|j: int| 0 <= j < i implies #[trigger] field(mask | (d << s), j) == field(mask, j) by {
        let t = (2 * j) as u64;
        assert(((mask | (d << s)) >> t) & 3u64 == (mask >> t) & 3u64) by (bit_vector)
            requires
                s < 32,
                t + 2 <= s,
                d < 3,
                mask < (1u64 << s),
        ;
    }
}

/// A mask below `2^(2q)` has no bit at or above `2q`.
proof fn lemma_mask_small_bits(mask: u64, q: int)
    requires
        0 <= q <= 16,
        mask < (1u64 << ((2 * q) as u64)),
    ensures
        forall|i: int| 2 * q <= i < 64 ==> !#[trigger] bit(mask, i),
{
    let s = (2 * q) as u64;
    assert forall|i: int| 2 * q <= i < 64 implies !#[trigger] bit(mask, i) by {
        let j = i as u64;
        assert((mask >> j) & 1u64 == 0u64) by (bit_vector)
            requires
                s <= 32,
                s <= j,
                j < 64,
                mask < (1u64 << s),
        ;
    }
}

/// Evaluate combination `code`: whether its running sums stay within
/// `bound`, and if so its final sum, mask and number of subtracted elements.
fn eval_code(nums: &[u128], code: u64, bound: i128) -> (r: (bool, i128, u64, u32))
    requires
        nums@.len() <= 16,
        bound >= 0,
    ensures
        r.0 == within(nums@, code as nat, bound as int, nums@.len()),
        r.0 ==> r.1 == signed_run(nums@, code as nat, nums@.len()),
        r.0 ==> encodes(r.2, code as nat, nums@.len()),
        r.0 ==> r.3 == neg_digits(code as nat, nums@.len()),
{
    let q = nums.len();
    let mut s: i128 = 0;
    let mut mask: u64 = 0;
    let mut t: u64 = code;
    let mut ok = true;
    let mut neg: u32 = 0;
    let mut i: usize = 0;
    proof {
        assert((0u64 < (1u64 << 0u64))) by (bit_vector);
        assert(pow3(0) == 1);
        assert(code as nat / 1 == code as nat);
    }
    while i < q && ok
        invariant
            q == nums@.len() <= 16,
            i <= q,
            bound >= 0,
            ok == within(nums@, code as nat, bound as int, i as nat),
            ok ==> s == signed_run(nums@, code as nat, i as nat),
            ok ==> t as nat == code as nat / pow3(i as nat),
            ok ==> mask < (1u64 << ((2 * i) as u64)),
            ok ==> forall|j: int| 0 <= j < i ==> #[trigger] field(mask, j) == digit3(code as nat, j as nat),
            ok ==> neg == neg_digits(code as nat, i as nat),
            neg <= i,
            !ok ==> !within(nums@, code as nat, bound as int, q as nat),
        decreases q - i, (if ok { 1int } else { 0int }),
    {
        let v: i128 = #[verifier::truncate] (nums[i] as i128);
        let digit = t % 3;
        let shift = (i * 2) as u64;
        proof {
            lemma_pow3_pos(i as nat);
            lemma_div_denominator(code as int, pow3(i as nat) as int, 3);
            assert(pow3((i + 1) as nat) == pow3(i as nat) * 3);
            lemma_field_set(mask, digit, i as int);
        }
        let ghost old_mask = mask;
        if digit == 1 {
            s = sat_add(s, v);
            mask = mask | (1u64 << shift);
        } else if digit == 2 {
            s = sat_sub(s, v);
            mask = mask | (2u64 << shift);
            neg = neg + 1;
        } else {
            proof {
                assert(old_mask | (0u64 << shift) == old_mask) by (bit_vector);
            }
        }
        t = t / 3;
        proof {
            assert(mask == old_mask | (digit << shift));
        }
        if abs_u128(s) > bound as u128 {
            ok = false;
            proof {
                lemma_within_fails(nums@, code as nat, bound as int, (i + 1) as nat, q as nat);
            }
        }
        i = i + 1;
    }
    proof {
        if ok {
            lemma_mask_small_bits(mask, q as int);
        }
    }
    (ok, s, mask, neg)
}

/// Once a running sum leaves the bound, the whole combination is rejected.
proof fn lemma_within_fails(nums: Seq<u128>, code: nat, bound: int, k: nat, q: nat)
    requires
        k <= q,
        !within(nums, code, bound, k),
    ensures
        !within(nums, code, bound, q),
    decreases q - k,
{
    if k < q {
        lemma_within_fails(nums, code, bound, k, (q - 1) as nat);
    }
}


/// A bucket has at most one winner.
proof fn lemma_winner_unique(
    nums: Seq<u128>,
    bound: int,
    modulus: u128,
    limit: nat,
    w1: nat,
    w2: nat,
    key: u128,
    fewer_negs: bool,
)
    requires
        winner(nums, bound, modulus, limit, w1, key, fewer_negs),
        winner(nums, bound, modulus, limit, w2, key, fewer_negs),
    ensures
        w1 == w2,
{
    if w1 < w2 {
        assert(in_bucket(nums, bound, modulus, w1, key));
    } else if w2 < w1 {
        assert(in_bucket(nums, bound, modulus, w2, key));
    }
}

/// A rejected combination leaves the buckets as they were.
proof fn lemma_step_skip(
    m: Map<u128, SignedEntry>,
    nums: Seq<u128>,
    bound: int,
    modulus: u128,
    limit: nat,
    fewer_negs: bool,
)
    requires
        buckets_ok(m, nums, bound, modulus, limit, fewer_negs),
        !within(nums, limit, bound, nums.len()),
    ensures
        buckets_ok(m, nums, bound, modulus, limit + 1, fewer_negs),
        forall|w: nat, key: u128|
            winner(nums, bound, modulus, limit + 1, w, key, fewer_negs) ==> winner(
                nums,
                bound,
                modulus,
                limit,
                w,
                key,
                fewer_negs,
            ),
{
    assert forall|key: u128| #[trigger] m.contains_key(key) implies exists|c: nat|
        winner(nums, bound, modulus, limit + 1, c, key, fewer_negs) && entry_of(nums, m[key], c) by {
        let w = choose|c: nat|
            winner(nums, bound, modulus, limit, c, key, fewer_negs) && entry_of(nums, m[key], c);
        assert(winner(nums, bound, modulus, limit + 1, w, key, fewer_negs));
    }
    assert forall|w: nat, key: u128|
        winner(nums, bound, modulus, limit + 1, w, key, fewer_negs) implies winner(
            nums,
            bound,
            modulus,
            limit,
            w,
            key,
            fewer_negs,
        ) by {
        assert(w != limit);
    }
}

/// A kept combination in a bucket not seen before opens that bucket.
proof fn lemma_step_new(
    m: Map<u128, SignedEntry>,
    nums: Seq<u128>,
    bound: int,
    modulus: u128,
    limit: nat,
    key: u128,
    e: SignedEntry,
    fewer_negs: bool,
)
    requires
        buckets_ok(m, nums, bound, modulus, limit, fewer_negs),
        in_bucket(nums, bound, modulus, limit, key),
        !m.contains_key(key),
        entry_of(nums, e, limit),
    ensures
        buckets_ok(m.insert(key, e), nums, bound, modulus, limit + 1, fewer_negs),
        winner(nums, bound, modulus, limit + 1, limit, key, fewer_negs),
        forall|w: nat, k2: u128|
            k2 != key && winner(nums, bound, modulus, limit + 1, w, k2, fewer_negs) ==> winner(
                nums,
                bound,
                modulus,
                limit,
                w,
                k2,
                fewer_negs,
            ),
{
    let m2 = m.insert(key, e);
    assert(winner(nums, bound, modulus, limit + 1, limit, key, fewer_negs));
    assert forall|k2: u128| #[trigger] m2.contains_key(k2) implies exists|c: nat|
        winner(nums, bound, modulus, limit + 1, c, k2, fewer_negs) && entry_of(nums, m2[k2], c) by {
        if k2 == key {
            assert(winner(nums, bound, modulus, limit + 1, limit, k2, fewer_negs) && entry_of(
                nums,
                m2[k2],
                limit,
            ));
        } else {
            let w = choose|c: nat|
                winner(nums, bound, modulus, limit, c, k2, fewer_negs) && entry_of(nums, m[k2], c);
            assert(!in_bucket(nums, bound, modulus, limit, k2));
            assert(winner(nums, bound, modulus, limit + 1, w, k2, fewer_negs));
            assert(m2[k2] == m[k2]);
        }
    }
    assert forall|w: nat, k2: u128|
        k2 != key && winner(nums, bound, modulus, limit + 1, w, k2, fewer_negs) implies winner(
            nums,
            bound,
            modulus,
            limit,
            w,
            k2,
            fewer_negs,
        ) by {
        assert(w != limit);
    }
}

/// A kept combination preferred to its bucket's winner takes its place.
proof fn lemma_step_replace(
    m: Map<u128, SignedEntry>,
    nums: Seq<u128>,
    bound: int,
    modulus: u128,
    limit: nat,
    key: u128,
    w: nat,
    e: SignedEntry,
    fewer_negs: bool,
)
    requires
        buckets_ok(m, nums, bound, modulus, limit, fewer_negs),
        in_bucket(nums, bound, modulus, limit, key),
        winner(nums, bound, modulus, limit, w, key, fewer_negs),
        prefer(nums, limit, w, fewer_negs),
        entry_of(nums, e, limit),
    ensures
        buckets_ok(m.insert(key, e), nums, bound, modulus, limit + 1, fewer_negs),
        winner(nums, bound, modulus, limit + 1, limit, key, fewer_negs),
        forall|w2: nat, k2: u128|
            k2 != key && winner(nums, bound, modulus, limit + 1, w2, k2, fewer_negs) ==> winner(
                nums,
                bound,
                modulus,
                limit,
                w2,
                k2,
                fewer_negs,
            ),
{
    let m2 = m.insert(key, e);
    assert forall|c2: nat|
        c2 < limit + 1 && #[trigger] in_bucket(nums, bound, modulus, c2, key) implies !prefer(
            nums,
            c2,
            limit,
            fewer_negs,
        ) by {
        if c2 < limit {
            assert(!prefer(nums, c2, w, fewer_negs));
        }
    }
    assert forall|c2: nat|
        c2 < limit && #[trigger] in_bucket(nums, bound, modulus, c2, key) implies prefer(
            nums,
            limit,
            c2,
            fewer_negs,
        ) by {
        assert(!prefer(nums, c2, w, fewer_negs));
    }
    assert(winner(nums, bound, modulus, limit + 1, limit, key, fewer_negs));
    assert forall|k2: u128| #[trigger] m2.contains_key(k2) implies exists|c: nat|
        winner(nums, bound, modulus, limit + 1, c, k2, fewer_negs) && entry_of(nums, m2[k2], c) by {
        if k2 == key {
            assert(winner(nums, bound, modulus, limit + 1, limit, k2, fewer_negs) && entry_of(
                nums,
                m2[k2],
                limit,
            ));
        } else {
            let w2 = choose|c: nat|
                winner(nums, bound, modulus, limit, c, k2, fewer_negs) && entry_of(nums, m[k2], c);
            assert(!in_bucket(nums, bound, modulus, limit, k2));
            assert(winner(nums, bound, modulus, limit + 1, w2, k2, fewer_negs));
            assert(m2[k2] == m[k2]);
        }
    }
    assert forall|w2: nat, k2: u128|
        k2 != key && winner(nums, bound, modulus, limit + 1, w2, k2, fewer_negs) implies winner(
            nums,
            bound,
            modulus,
            limit,
            w2,
            k2,
            fewer_negs,
        ) by {
        assert(w2 != limit);
    }
}

/// A kept combination not preferred to its bucket's winner changes nothing.
proof fn lemma_step_keep(
    m: Map<u128, SignedEntry>,
    nums: Seq<u128>,
    bound: int,
    modulus: u128,
    limit: nat,
    key: u128,
    w: nat,
    fewer_negs: bool,
)
    requires
        buckets_ok(m, nums, bound, modulus, limit, fewer_negs),
        in_bucket(nums, bound, modulus, limit, key),
        winner(nums, bound, modulus, limit, w, key, fewer_negs),
        !prefer(nums, limit, w, fewer_negs),
    ensures
        buckets_ok(m, nums, bound, modulus, limit + 1, fewer_negs),
        winner(nums, bound, modulus, limit + 1, w, key, fewer_negs),
        forall|w2: nat, k2: u128|
            k2 != key && winner(nums, bound, modulus, limit + 1, w2, k2, fewer_negs) ==> winner(
                nums,
                bound,
                modulus,
                limit,
                w2,
                k2,
                fewer_negs,
            ),
{
    assert(winner(nums, bound, modulus, limit + 1, w, key, fewer_negs));
    assert forall|k2: u128| #[trigger] m.contains_key(k2) implies exists|c: nat|
        winner(nums, bound, modulus, limit + 1, c, k2, fewer_negs) && entry_of(nums, m[k2], c) by {
        let w2 = choose|c: nat|
            winner(nums, bound, modulus, limit, c, k2, fewer_negs) && entry_of(nums, m[k2], c);
        if k2 == key {
            lemma_winner_unique(nums, bound, modulus, limit, w, w2, key, fewer_negs);
        } else {
            assert(!in_bucket(nums, bound, modulus, limit, k2));
        }
        assert(winner(nums, bound, modulus, limit + 1, w2, k2, fewer_negs));
    }
    assert forall|w2: nat, k2: u128|
        k2 != key && winner(nums, bound, modulus, limit + 1, w2, k2, fewer_negs) implies winner(
            nums,
            bound,
            modulus,
            limit,
            w2,
            k2,
            fewer_negs,
        ) by {
        assert(w2 != limit);
    }
}

/// Bucket of `s`: the Euclidean residue of `s` modulo `modulus` read as `i128`,
/// masked with `modulus - 1`.
fn key_of(s: i128, modulus: u128) -> (k: u128)
    requires
        modulus > 0,
        s != i128::MIN,
    ensures
        k == bucket_key(s as int, modulus),
{
    let mi: i128 = #[verifier::truncate] (modulus as i128);
    proof {
        assert(mi != 0) by (bit_vector)
            requires
                modulus > 0,
                mi == modulus as i128,
        ;
    }
    match s.checked_rem_euclid(mi) {
        Some(r) => (r as u128) & (modulus - 1),
        None => 0,
    }
}

proof fn lemma_bounded_not_min(s: i128, bound: int)
    requires
        abs(s as int) <= bound,
        bound <= i128::MAX,
    ensures
        s != i128::MIN,
{
}

/// Mod-bucketed signed enumeration: for each residue class of the running sum
/// (as `bucket_key` computes it), the first combination with the running sum
/// closest to zero, among the combinations whose running sums all stay within
/// `2|target| + 1`. No elements give the single empty combination; more than
/// 16 give no buckets.
pub fn signed_buckets_mod(nums: &[u128], target: i128, modulus: u128) -> (m: HashMap<
    u128,
    SignedEntry,
>)
    requires
        nums@.len() == 0 || nums@.len() > 16 || modulus > 0,
    ensures
        nums@.len() == 0 ==> m@ == map![0u128 => (SignedEntry { sum: 0, mask: 0 })],
        nums@.len() > 16 ==> m@ == Map::<u128, SignedEntry>::empty(),
        1 <= nums@.len() <= 16 ==> buckets_ok(
            m@,
            nums@,
            sum_bound(target),
            modulus,
            pow3(nums@.len()),
            false,
        ),
{
    broadcast use vstd::std_specs::hash::group_hash_axioms;

    let q = nums.len();
    let mut buckets: HashMap<u128, SignedEntry> = HashMap::new();
    if q == 0 {
        buckets.insert(0, SignedEntry { sum: 0, mask: 0 });
        assert(buckets@ =~= map![0u128 => (SignedEntry { sum: 0, mask: 0 })]);
        return buckets;
    }
    if q > 16 {
        assert(buckets@ =~= Map::<u128, SignedEntry>::empty());
        return buckets;
    }
    let bound = bound_for(target);
    let total = pow3_u64(q);
    let mut code: u64 = 0;
    proof {
        assert(buckets@ =~= Map::<u128, SignedEntry>::empty());
    }
    while code < total
        invariant
            1 <= q <= 16,
            q == nums@.len(),
            modulus > 0,
            bound == sum_bound(target),
            total == pow3(q as nat),
            code <= total,
            buckets_ok(buckets@, nums@, bound as int, modulus, code as nat, false),
        decreases total - code,
    {
        let (ok, s, mask, _neg) = eval_code(nums, code, bound);
        let ghost m0 = buckets@;
        if !ok {
            proof {
                lemma_step_skip(m0, nums@, bound as int, modulus, code as nat, false);
            }
        } else {
            proof {
                lemma_bounded_not_min(s, bound as int);
            }
            let key = key_of(s, modulus);
            let e = SignedEntry { sum: s, mask };
            proof {
                assert(in_bucket(nums@, bound as int, modulus, code as nat, key));
                assert(entry_of(nums@, e, code as nat));
            }
            match buckets.get(&key) {
                None => {
                    proof {
                        lemma_step_new(m0, nums@, bound as int, modulus, code as nat, key, e, false);
                    }
                    buckets.insert(key, e);
                },
                Some(cur) => {
                    let ghost w = choose|c: nat|
                        winner(nums@, bound as int, modulus, code as nat, c, key, false)
                            && entry_of(nums@, m0[key], c);
                    if abs_u128(s) < abs_u128(cur.sum) {
                        proof {
                            lemma_step_replace(
                                m0,
                                nums@,
                                bound as int,
                                modulus,
                                code as nat,
                                key,
                                w,
                                e,
                                false,
                            );
                        }
                        buckets.insert(key, e);
                    } else {
                        proof {
                            lemma_step_keep(m0, nums@, bound as int, modulus, code as nat, key, w, false);
                        }
                    }
                },
            }
        }
        code = code + 1;
    }
    buckets
}

/// Each bucket's recorded count of subtracted elements is its winner's.
pub open spec fn negs_ok(
    negs: Map<u128, u32>,
    m: Map<u128, SignedEntry>,
    nums: Seq<u128>,
    bound: int,
    modulus: u128,
    limit: nat,
) -> bool {
    forall|key: u128|
        #[trigger] m.contains_key(key) ==> negs.contains_key(key) && forall|c: nat|
            winner(nums, bound, modulus, limit, c, key, true) ==> negs[key] == neg_digits(
                c,
                nums.len(),
            )
}

/// BCJ variant of `signed_buckets_mod`: within each residue class it prefers
/// the first combination with the fewest subtracted elements, and among those
/// the running sum closest to zero.
pub fn signed_buckets_mod_bcj(nums: &[u128], target: i128, modulus: u128) -> (m: HashMap<
    u128,
    SignedEntry,
>)
    requires
        nums@.len() == 0 || nums@.len() > 16 || modulus > 0,
    ensures
        nums@.len() == 0 ==> m@ == map![0u128 => (SignedEntry { sum: 0, mask: 0 })],
        nums@.len() > 16 ==> m@ == Map::<u128, SignedEntry>::empty(),
        1 <= nums@.len() <= 16 ==> buckets_ok(
            m@,
            nums@,
            sum_bound(target),
            modulus,
            pow3(nums@.len()),
            true,
        ),
{
    broadcast use vstd::std_specs::hash::group_hash_axioms;

    let q = nums.len();
    let mut buckets: HashMap<u128, SignedEntry> = HashMap::new();
    if q == 0 {
        buckets.insert(0, SignedEntry { sum: 0, mask: 0 });
        assert(buckets@ =~= map![0u128 => (SignedEntry { sum: 0, mask: 0 })]);
        return buckets;
    }
    if q > 16 {
        assert(buckets@ =~= Map::<u128, SignedEntry>::empty());
        return buckets;
    }
    let bound = bound_for(target);
    let total = pow3_u64(q);
    let mut neg_counts: HashMap<u128, u32> = HashMap::new();
    let mut code: u64 = 0;
    proof {
        assert(buckets@ =~= Map::<u128, SignedEntry>::empty());
    }
    while code < total
        invariant
            1 <= q <= 16,
            q == nums@.len(),
            modulus > 0,
            bound == sum_bound(target),
            total == pow3(q as nat),
            code <= total,
            buckets_ok(buckets@, nums@, bound as int, modulus, code as nat, true),
            negs_ok(neg_counts@, buckets@, nums@, bound as int, modulus, code as nat),
        decreases total - code,
    {
        let (ok, s, mask, neg_cnt) = eval_code(nums, code, bound);
        let ghost m0 = buckets@;
        let ghost n0 = neg_counts@;
        let ghost lim = code as nat;
        if !ok {
            proof {
                lemma_step_skip(m0, nums@, bound as int, modulus, lim, true);
            }
        } else {
            proof {
                lemma_bounded_not_min(s, bound as int);
            }
            let key = key_of(s, modulus);
            let e = SignedEntry { sum: s, mask };
            proof {
                assert(in_bucket(nums@, bound as int, modulus, lim, key));
                assert(entry_of(nums@, e, lim));
            }
            match buckets.get(&key) {
                None => {
                    proof {
                        lemma_step_new(m0, nums@, bound as int, modulus, lim, key, e, true);
                    }
                    buckets.insert(key, e);
                    neg_counts.insert(key, neg_cnt);
                    proof {
                        assert forall|k2: u128| #[trigger] buckets@.contains_key(k2) implies neg_counts@.contains_key(k2)
                            && forall|c: nat|
                            winner(nums@, bound as int, modulus, lim + 1, c, k2, true)
                                ==> neg_counts@[k2] == neg_digits(c, nums@.len()) by {
                            assert forall|c: nat|
                                winner(nums@, bound as int, modulus, lim + 1, c, k2, true) implies neg_counts@[k2]
                                == neg_digits(c, nums@.len()) by {
                                if k2 == key {
                                    lemma_winner_unique(
                                        nums@,
                                        bound as int,
                                        modulus,
                                        lim + 1,
                                        c,
                                        lim,
                                        key,
                                        true,
                                    );
                                } else {
                                    assert(m0.contains_key(k2));
                                }
                            }
                        }
                    }
                },
                Some(cur) => {
                    let ghost w = choose|c: nat|
                        winner(nums@, bound as int, modulus, lim, c, key, true) && entry_of(
                            nums@,
                            m0[key],
                            c,
                        );
                    let cur_sum = cur.sum;
                    let cur_neg = match neg_counts.get(&key) {
                        Some(x) => *x,
                        None => u32::MAX,
                    };
                    if neg_cnt < cur_neg || (neg_cnt == cur_neg && abs_u128(s) < abs_u128(
                        cur_sum,
                    )) {
                        proof {
                            lemma_step_replace(
                                m0,
                                nums@,
                                bound as int,
                                modulus,
                                lim,
                                key,
                                w,
                                e,
                                true,
                            );
                        }
                        buckets.insert(key, e);
                        neg_counts.insert(key, neg_cnt);
                        proof {
                            assert forall|k2: u128| #[trigger] buckets@.contains_key(k2) implies neg_counts@.contains_key(k2)
                                && forall|c: nat|
                                winner(nums@, bound as int, modulus, lim + 1, c, k2, true)
                                    ==> neg_counts@[k2] == neg_digits(c, nums@.len()) by {
                                assert forall|c: nat|
                                    winner(nums@, bound as int, modulus, lim + 1, c, k2, true) implies neg_counts@[k2]
                                    == neg_digits(c, nums@.len()) by {
                                    if k2 == key {
                                        lemma_winner_unique(
                                            nums@,
                                            bound as int,
                                            modulus,
                                            lim + 1,
                                            c,
                                            lim,
                                            key,
                                            true,
                                        );
                                    } else {
                                        assert(m0.contains_key(k2));
                                    }
                                }
                            }
                        }
                    } else {
                        proof {
                            lemma_step_keep(m0, nums@, bound as int, modulus, lim, key, w, true);
                            assert forall|k2: u128| #[trigger] buckets@.contains_key(k2) implies neg_counts@.contains_key(k2)
                                && forall|c: nat|
                                winner(nums@, bound as int, modulus, lim + 1, c, k2, true)
                                    ==> neg_counts@[k2] == neg_digits(c, nums@.len()) by {
                                assert forall|c: nat|
                                    winner(nums@, bound as int, modulus, lim + 1, c, k2, true) implies neg_counts@[k2]
                                    == neg_digits(c, nums@.len()) by {
                                    if k2 == key {
                                        lemma_winner_unique(
                                            nums@,
                                            bound as int,
                                            modulus,
                                            lim + 1,
                                            c,
                                            w,
                                            key,
                                            true,
                                        );
                                    }
                                }
                            }
                        }
                    }
                },
            }
        }
        code = code + 1;
    }
    buckets
}

/// The elements of `nums` among the first `k` whose field in `mask` equals `want`.
pub open spec fn field_picked(nums: Seq<u128>, mask: u64, want: u64, k: int) -> Seq<u128>
    decreases k,
{
    if k <= 0 {
        Seq::empty()
    } else if field(mask, k - 1) == want {
        field_picked(nums, mask, want, k - 1).push(nums[k - 1])
    } else {
        field_picked(nums, mask, want, k - 1)
    }
}

/// How many of the first `k` fields of `mask` equal `want`.
pub open spec fn count_fields(mask: u64, want: u64, k: int) -> nat
    decreases k,
{
    if k <= 0 {
        0
    } else {
        count_fields(mask, want, k - 1) + if field(mask, k - 1) == want {
            1nat
        } else {
            0nat
        }
    }
}

fn field_of(mask: u64, i: usize) -> (r: u64)
    requires
        i < 32,
    ensures
        r == field(mask, i as int),
{
    (mask >> ((i * 2) as u32)) & 3
}

/// The elements a signed mask adds (field 1), in element order.
pub fn signed_mask_positive_only(mask: u64, nums: &[u128]) -> (v: Vec<u128>)
    requires
        nums@.len() <= 32,
    ensures
        v@ == field_picked(nums@, mask, 1, nums@.len() as int),
{
    let mut v: Vec<u128> = Vec::new();
    let mut i: usize = 0;
    while i < nums.len()
        invariant
            i <= nums@.len() <= 32,
            v@ == field_picked(nums@, mask, 1, i as int),
        decreases nums@.len() - i,
    {
        if field_of(mask, i) == 1 {
            v.push(nums[i]);
        }
        i = i + 1;
    }
    v
}

/// The elements a signed mask subtracts (field 2), in element order.
pub fn signed_mask_negative_only(mask: u64, nums: &[u128]) -> (v: Vec<u128>)
    requires
        nums@.len() <= 32,
    ensures
        v@ == field_picked(nums@, mask, 2, nums@.len() as int),
{
    let mut v: Vec<u128> = Vec::new();
    let mut i: usize = 0;
    while i < nums.len()
        invariant
            i <= nums@.len() <= 32,
            v@ == field_picked(nums@, mask, 2, i as int),
        decreases nums@.len() - i,
    {
        if field_of(mask, i) == 2 {
            v.push(nums[i]);
        }
        i = i + 1;
    }
    v
}

proof fn lemma_field_shift(m: u64)
    ensures
        m & 3u64 == field(m, 0),
        forall|i: int| 0 <= i < 31 ==> #[trigger] field(m >> 2u64, i) == field(m, i + 1),
        m != 0 ==> (m >> 2u64) < m,
{
    assert(m & 3u64 == (m >> 0u64) & 3u64) by (bit_vector);
    assert(m != 0 ==> (m >> 2u64) < m) by (bit_vector);
    assert forall|i: int| 0 <= i < 31 implies #[trigger] field(m >> 2u64, i) == field(m, i + 1) by {
        let s = (2 * i) as u64;
        assert(((m >> 2u64) >> s) & 3u64 == (m >> ((s + 2) as u64)) & 3u64) by (bit_vector)
            requires
                s < 62,
        ;
    }
}

proof fn lemma_zero_fields(m: u64)
    requires
        m == 0,
    ensures
        forall|i: int| 0 <= i < 32 ==> #[trigger] field(m, i) == 0,
{
    assert forall|i: int| 0 <= i < 32 implies #[trigger] field(m, i) == 0 by {
        let s = (2 * i) as u64;
        assert((0u64 >> s) & 3u64 == 0u64) by (bit_vector);
    }
}

proof fn lemma_count_fields_tail(mask: u64, want: u64, j: int, k: int)
    requires
        0 <= j <= k,
        want != 0,
        forall|i: int| j <= i < k ==> #[trigger] field(mask, i) == 0,
    ensures
        count_fields(mask, want, k) == count_fields(mask, want, j),
    decreases k - j,
{
    if k > j {
        lemma_count_fields_tail(mask, want, j, k - 1);
    }
}

/// Number of subtracted elements (fields equal to 2) in a signed mask.
pub fn signed_mask_neg_count(mask: u64) -> (cnt: u32)
    ensures
        cnt == count_fields(mask, 2, 32),
{
    let mut cnt: u32 = 0;
    let mut m = mask;
    let ghost mut j: int = 0;
    proof {
        assert(m <= (u64::MAX >> 0u64)) by (bit_vector);
    }
    while m != 0
        invariant
            0 <= j <= 32,
            m <= (u64::MAX >> ((2 * j) as u64)),
            forall|i: int| j <= i < 32 ==> #[trigger] field(mask, i) == field(m, i - j),
            cnt == count_fields(mask, 2, j),
            cnt <= j,
        decreases m,
    {
        proof {
            lemma_field_shift(m);
            let s = (2 * j) as u64;
            if j == 32 {
                assert(u64::MAX >> 64u64 == 0u64) by (bit_vector);
            }
            assert(m <= (u64::MAX >> s) && s < 64 ==> (m >> 2u64) <= (u64::MAX >> ((s + 2) as u64))) by (bit_vector);
        }
        if (m & 3) == 2 {
            cnt = cnt + 1;
        }
        let ghost old_m = m;
        m = m >> 2;
        proof {
            j = j + 1;
            assert forall|i: int| j <= i < 32 implies #[trigger] field(mask, i) == field(m, i - j) by {
                assert(field(mask, i) == field(old_m, i - (j - 1)));
                assert(field(m, i - j) == field(old_m, i - j + 1));
            }
        }
    }
    proof {
        lemma_zero_fields(m);
        assert forall|i: int| j <= i < 32 implies #[trigger] field(mask, i) == 0 by {
            assert(field(mask, i) == field(m, i - j));
        }
        lemma_count_fields_tail(mask, 2, j, 32);
    }
    cnt
}
/// Without saturation, the running sum over the first `k` elements is what
/// the added elements minus the subtracted ones come to.
proof fn lemma_run_decodes(nums: Seq<u128>, c: nat, mask: u64, bound: int, k: nat)
    requires
        k <= nums.len(),
        within(nums, c, bound, k),
        bound < i128::MAX,
        forall|i: int| 0 <= i < k ==> #[trigger] field(mask, i) == digit3(c, i as nat),
        forall|i: int| 0 <= i < nums.len() ==> #[trigger] nums[i] <= i128::MAX as u128,
    ensures
        signed_run(nums, c, k) == crate::spec::sum_of(crate::spec::ints(field_picked(nums, mask, 1, k as int)))
            - crate::spec::sum_of(crate::spec::ints(field_picked(nums, mask, 2, k as int))),
    decreases k,
{
    if k > 0 {
        let j = (k - 1) as nat;
        lemma_run_decodes(nums, c, mask, bound, j);
        let v = nums[j as int];
        assert((v as i128) as int == v as int);
        let a = field_picked(nums, mask, 1, j as int);
        let b = field_picked(nums, mask, 2, j as int);
        crate::spec::lemma_ints_push(a, v);
        crate::spec::lemma_ints_push(b, v);
        crate::spec::lemma_sum_of_push(crate::spec::ints(a), v as int);
        crate::spec::lemma_sum_of_push(crate::spec::ints(b), v as int);
        assert(field(mask, j as int) == digit3(c, j));
    }
}

/// Decoding a bucket's entry recovers its sum: the elements its mask adds
/// (`signed_mask_positive_only`) minus those it subtracts
/// (`signed_mask_negative_only`) come to the entry's sum, whenever the
/// elements fit in `i128` and the bound keeps running sums below `i128::MAX`.
pub proof fn law_signed_entry_decodes(
    m: Map<u128, SignedEntry>,
    nums: Seq<u128>,
    bound: int,
    modulus: u128,
    limit: nat,
    fewer_negs: bool,
    key: u128,
)
    requires
        buckets_ok(m, nums, bound, modulus, limit, fewer_negs),
        m.contains_key(key),
        bound < i128::MAX,
        forall|i: int| 0 <= i < nums.len() ==> #[trigger] nums[i] <= i128::MAX as u128,
    ensures
        crate::spec::sum_of(crate::spec::ints(field_picked(nums, m[key].mask, 1, nums.len() as int)))
            - crate::spec::sum_of(crate::spec::ints(field_picked(nums, m[key].mask, 2, nums.len() as int)))
            == m[key].sum,
{
    let c = choose|c: nat| winner(nums, bound, modulus, limit, c, key, fewer_negs) && entry_of(nums, m[key], c);
    lemma_run_decodes(nums, c, m[key].mask, bound, nums.len());
}

/// The BCJ buckets and the plain buckets of the same elements, bound and
/// modulus have the same keys: the residues that some kept combination
/// reaches.
pub proof fn law_bcj_same_keys(
    plain: Map<u128, SignedEntry>,
    bcj: Map<u128, SignedEntry>,
    nums: Seq<u128>,
    bound: int,
    modulus: u128,
    limit: nat,
)
    requires
        buckets_ok(plain, nums, bound, modulus, limit, false),
        buckets_ok(bcj, nums, bound, modulus, limit, true),
    ensures
        plain.dom() == bcj.dom(),
{
    assert forall|key: u128| plain.contains_key(key) implies bcj.contains_key(key) by {
        let c = choose|c: nat| winner(nums, bound, modulus, limit, c, key, false) && entry_of(nums, plain[key], c);
        assert(in_bucket(nums, bound, modulus, c, key));
    }
    assert forall|key: u128| bcj.contains_key(key) implies plain.contains_key(key) by {
        let c = choose|c: nat| winner(nums, bound, modulus, limit, c, key, true) && entry_of(nums, bcj[key], c);
        assert(in_bucket(nums, bound, modulus, c, key));
    }
    assert(plain.dom() =~= bcj.dom());
}

/// The stored mask of a combination counts its negative signs: the fields
/// holding 2 are exactly the first `q` digits that are 2.
pub proof fn law_mask_neg_count(mask: u64, c: nat, q: nat)
    requires
        q <= 32,
        encodes(mask, c, q),
    ensures
        count_fields(mask, 2, 32) == neg_digits(c, q),
{
    lemma_count_fields_prefix(mask, c, q, q as int);
    lemma_count_fields_rest(mask, q, 32);
}

proof fn lemma_count_fields_prefix(mask: u64, c: nat, q: nat, k: int)
    requires
        0 <= k <= q,
        encodes(mask, c, q),
    ensures
        count_fields(mask, 2, k) == neg_digits(c, k as nat),
    decreases k,
{
    if k > 0 {
        lemma_count_fields_prefix(mask, c, q, k - 1);
        assert(field(mask, k - 1) == digit3(c, (k - 1) as nat));
    }
}

proof fn lemma_count_fields_rest(mask: u64, q: nat, k: int)
    requires
        q <= k <= 32,
        forall|i: int| 2 * q <= i < 64 ==> !#[trigger] bit(mask, i),
    ensures
        count_fields(mask, 2, k) == count_fields(mask, 2, q as int),
    decreases k - q,
{
    if k > q {
        lemma_count_fields_rest(mask, q, k - 1);
        let s = (2 * (k - 1)) as u64;
        assert(!bit(mask, 2 * (k - 1)));
        assert(!bit(mask, 2 * (k - 1) + 1));
        assert(((mask >> s) & 1u64) != 1u64);
        assert(((mask >> ((s + 1) as u64)) & 1u64) != 1u64);
        assert((mask >> s) & 3u64 == 0u64) by (bit_vector)
            requires
                s < 63,
                ((mask >> s) & 1u64) != 1u64,
                ((mask >> ((s + 1) as u64)) & 1u64) != 1u64,
        ;
        assert(field(mask, k - 1) == 0);
    }
}

/// Each BCJ bucket holds a combination of the bucket that is lexicographically
/// least by (number of subtracted elements, distance of the sum from zero):
/// no kept combination of the bucket has fewer subtractions, or as many and a
/// sum closer to zero. The subtractions of the stored entry are counted on
/// its stored mask, as `signed_mask_neg_count` counts them.
pub proof fn law_bcj_lexicographic_least(
    bcj: Map<u128, SignedEntry>,
    nums: Seq<u128>,
    bound: int,
    modulus: u128,
    limit: nat,
    key: u128,
)
    requires
        buckets_ok(bcj, nums, bound, modulus, limit, true),
        bcj.contains_key(key),
    ensures
        exists|c: nat|
            #[trigger] entry_of(nums, bcj[key], c) && in_bucket(nums, bound, modulus, c, key) && forall|c2: nat|
                c2 < limit && #[trigger] in_bucket(nums, bound, modulus, c2, key) ==> !(neg_digits(c2, nums.len())
                    < neg_digits(c, nums.len()) || (neg_digits(c2, nums.len()) == neg_digits(c, nums.len())
                    && abs(signed_run(nums, c2, nums.len())) < abs(bcj[key].sum as int))),
        nums.len() <= 32 ==> forall|c2: nat|
            c2 < limit && #[trigger] in_bucket(nums, bound, modulus, c2, key) ==> !(neg_digits(c2, nums.len())
                < count_fields(bcj[key].mask, 2, 32) || (neg_digits(c2, nums.len()) == count_fields(
                bcj[key].mask,
                2,
                32,
            ) && abs(signed_run(nums, c2, nums.len())) < abs(bcj[key].sum as int))),
{
    let c = choose|c: nat| winner(nums, bound, modulus, limit, c, key, true) && entry_of(nums, bcj[key], c);
    assert(entry_of(nums, bcj[key], c));
    assert forall|c2: nat|
        c2 < limit && #[trigger] in_bucket(nums, bound, modulus, c2, key) implies !(neg_digits(c2, nums.len())
        < neg_digits(c, nums.len()) || (neg_digits(c2, nums.len()) == neg_digits(c, nums.len()) && abs(
        signed_run(nums, c2, nums.len()),
    ) < abs(bcj[key].sum as int))) by {
        assert(!prefer(nums, c2, c, true));
    }
    if nums.len() <= 32 {
        law_mask_neg_count(bcj[key].mask, c, nums.len());
    }
}

} // verus!
