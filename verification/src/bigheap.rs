//! Binary heaps of `(sum, i, j)` triples whose sums are big numbers, ordered
//! lexicographically by the triple's value `(sum, i, j)`.
//!
//! The view of a heap is the multiset of the values of its entries; `peek`
//! shows, and `pop` removes, an entry that no other entry precedes.
use crate::bignum::BigNum;
use vstd::multiset::Multiset;
use vstd::prelude::*;

verus! {

broadcast use vstd::seq_lib::group_to_multiset_ensures, vstd::multiset::group_multiset_axioms;

/// A big sum and the indices of the two entries it was made from.
pub type BigEntry = (BigNum, u32, u32);

/// The value of an entry: the sum's value and the two indices.
pub type EntryValue = (nat, u32, u32);

pub open spec fn value_of(e: BigEntry) -> EntryValue {
    (e.0@, e.1, e.2)
}

/// Lexicographic order on entry values.
pub open spec fn value_le(a: EntryValue, b: EntryValue) -> bool {
    a.0 < b.0 || (a.0 == b.0 && (a.1 < b.1 || (a.1 == b.1 && a.2 <= b.2)))
}

/// `a` may sit above `b`: no greater in a min-heap, no smaller in a max-heap.
pub open spec fn over(a: EntryValue, b: EntryValue, max: bool) -> bool {
    if max {
        value_le(b, a)
    } else {
        value_le(a, b)
    }
}

pub open spec fn up(i: int) -> int {
    (i - 1) / 2
}

/// Sum of the weights of the entry values.
pub open spec fn total_weight(s: Seq<EntryValue>, w: spec_fn(EntryValue) -> nat) -> nat
    decreases s.len(),
{
    if s.len() == 0 {
        0
    } else {
        total_weight(s.drop_last(), w) + w(s.last())
    }
}

proof fn lemma_total_update(s: Seq<EntryValue>, i: int, x: EntryValue, w: spec_fn(EntryValue) -> nat)
    requires
        0 <= i < s.len(),
    ensures
        total_weight(s.update(i, x), w) + w(s[i]) == total_weight(s, w) + w(x),
    decreases s.len(),
{
    let t = s.update(i, x);
    if i < s.len() - 1 {
        lemma_total_update(s.drop_last(), i, x, w);
        assert(t.drop_last() =~= s.drop_last().update(i, x));
    } else {
        assert(t.drop_last() =~= s.drop_last());
    }
}

proof fn lemma_total_push(s: Seq<EntryValue>, x: EntryValue, w: spec_fn(EntryValue) -> nat)
    ensures
        total_weight(s.push(x), w) == total_weight(s, w) + w(x),
{
    assert(s.push(x).drop_last() =~= s);
}

/// The heap property of an array of entry values.
pub open spec fn ordered_heap(d: Seq<EntryValue>, max: bool) -> bool {
    forall|k: int| 0 < k < d.len() ==> over(#[trigger] d[up(k)], d[k], max)
}

fn over_exec(a: &BigEntry, b: &BigEntry, max: bool) -> (r: bool)
    ensures
        r == over(value_of(*a), value_of(*b), max),
{
    let (x, y) = if max {
        (b, a)
    } else {
        (a, b)
    };
    if x.0.less_than(&y.0) {
        true
    } else if x.0.equals(&y.0) {
        x.1 < y.1 || (x.1 == y.1 && x.2 <= y.2)
    } else {
        false
    }
}

/// The entry values of an array.
pub open spec fn values(s: Seq<BigEntry>) -> Seq<EntryValue> {
    s.map_values(|e: BigEntry| value_of(e))
}

proof fn lemma_values_update(s: Seq<BigEntry>, i: int, x: BigEntry)
    requires
        0 <= i < s.len(),
    ensures
        values(s.update(i, x)) == values(s).update(i, value_of(x)),
{
    assert(values(s.update(i, x)) =~= values(s).update(i, value_of(x)));
}

fn exchange(v: &mut Vec<BigEntry>, i: usize, j: usize)
    requires
        i < old(v)@.len(),
        j < old(v)@.len(),
    ensures
        final(v)@.len() == old(v)@.len(),
        values(final(v)@) == values(old(v)@).update(i as int, values(old(v)@)[j as int]).update(
            j as int,
            values(old(v)@)[i as int],
        ),
        values(final(v)@).to_multiset() == values(old(v)@).to_multiset(),
        forall|w: spec_fn(EntryValue) -> nat| #[trigger] total_weight(values(final(v)@), w) == total_weight(values(old(v)@), w),
{
    let ghost s0 = v@;
    let ghost d0 = values(s0);
    if i == j {
        proof {
            assert(d0.update(i as int, d0[j as int]).update(j as int, d0[i as int]) =~= d0);
        }
        return;
    }
    let mut hold: BigEntry = (BigNum::zero(), 0, 0);
    v.set_and_swap(i, &mut hold);
    let ghost s1 = v@;
    v.set_and_swap(j, &mut hold);
    let ghost s2 = v@;
    v.set_and_swap(i, &mut hold);
    proof {
        assert(v@ =~= s0.update(i as int, s0[j as int]).update(j as int, s0[i as int]));
        let s = s0.update(i as int, s0[j as int]);
        lemma_values_update(s0, i as int, s0[j as int]);
        lemma_values_update(s, j as int, s0[i as int]);
        let a = d0[i as int];
        let b = d0[j as int];
        let e1 = d0.update(i as int, b);
        vstd::seq_lib::to_multiset_update(d0, i as int, b);
        vstd::seq_lib::to_multiset_update(e1, j as int, a);
        assert(d0.to_multiset().count(a) > 0);
        assert(d0.to_multiset().count(b) > 0);
        assert(e1[j as int] == b);
        assert(values(v@).to_multiset() =~= d0.to_multiset());
        assert forall|w: spec_fn(EntryValue) -> nat| #[trigger] total_weight(values(v@), w) == total_weight(d0, w) by {
            lemma_total_update(d0, i as int, b, w);
            lemma_total_update(e1, j as int, a, w);
        }
    }
}

/// The root of a heap is above every entry.
proof fn lemma_root_over(d: Seq<EntryValue>, max: bool, i: int)
    requires
        ordered_heap(d, max),
        0 <= i < d.len(),
    ensures
        over(d[0], d[i], max),
    decreases i,
{
    if i > 0 {
        lemma_root_over(d, max, up(i));
        assert(over(d[up(i)], d[i], max));
    }
}

/// An array heap of big entries; `max` chooses a max-heap.
pub struct BigHeap {
    data: Vec<BigEntry>,
    max: bool,
}

impl BigHeap {
    /// The values of the entries.
    pub closed spec fn items(&self) -> Multiset<EntryValue> {
        values(self.data@).to_multiset()
    }

    /// Sum of `w` over the entry values (a measure of the work left).
    pub closed spec fn weight(&self, w: spec_fn(EntryValue) -> nat) -> nat {
        total_weight(values(self.data@), w)
    }

    /// Whether this is a max-heap.
    pub closed spec fn is_max(&self) -> bool {
        self.max
    }

    /// The value of the entry at the top, when there is one.
    pub closed spec fn top(&self) -> EntryValue {
        values(self.data@)[0]
    }

    #[verifier::type_invariant]
    closed spec fn inv(&self) -> bool {
        ordered_heap(values(self.data@), self.max)
    }

    /// An empty heap; a max-heap when `max`.
    pub fn new(cap: usize, max: bool) -> (r: BigHeap)
        ensures
            r.items() =~= Multiset::empty(),
            r.is_max() == max,
            forall|w: spec_fn(EntryValue) -> nat| #[trigger] r.weight(w) == 0,
    {
        let r = BigHeap { data: Vec::with_capacity(cap), max };
        assert(values(r.data@) =~= Seq::empty());
        r
    }

    /// The number of entries.
    pub fn len(&self) -> (r: usize)
        ensures
            r == self.items().len(),
    {
        self.data.len()
    }

    /// A copy of the top entry, which no entry precedes.
    pub fn peek(&self) -> (r: Option<BigEntry>)
        ensures
            r is None <==> self.items().len() == 0,
            r matches Some(e) ==> {
                &&& value_of(e) == self.top()
                &&& self.items().contains(value_of(e))
                &&& forall|x: EntryValue| self.items().contains(x) ==> #[trigger] over(value_of(e), x, self.is_max())
            },
    {
        proof {
            use_type_invariant(self);
        }
        if self.data.len() == 0 {
            None
        } else {
            let ghost d = values(self.data@);
            proof {
                assert forall|x: EntryValue| self.items().contains(x) implies #[trigger] over(d[0], x, self.max) by {
                    let i = choose|i: int| 0 <= i < d.len() && d[i] == x;
                    lemma_root_over(d, self.max, i);
                }
                assert(d.contains(d[0]));
            }
            let e = &self.data[0];
            Some((e.0.copy(), e.1, e.2))
        }
    }

    /// Add an entry.
    pub fn push(&mut self, v: BigEntry)
        ensures
            final(self).items() == old(self).items().insert(value_of(v)),
            final(self).is_max() == old(self).is_max(),
            forall|w: spec_fn(EntryValue) -> nat| #[trigger] final(self).weight(w) == old(self).weight(w) + w(value_of(v)),
    {
        proof {
            use_type_invariant(&*self);
        }
        let max = self.max;
        let mut data: Vec<BigEntry> = Vec::new();
        std::mem::swap(&mut data, &mut self.data);
        let ghost d0 = values(data@);
        let ghost x = value_of(v);
        let mut i = data.len();
        data.push(v);
        proof {
            assert(values(data@) =~= d0.push(x));
            assert forall|w: spec_fn(EntryValue) -> nat| #[trigger] total_weight(values(data@), w) == total_weight(d0, w) + w(x) by {
                lemma_total_push(d0, x, w);
            }
        }
        let ghost goal = d0.to_multiset().insert(x);
        while i > 0
            invariant
                i < data@.len(),
                values(data@).to_multiset() == goal,
                forall|w: spec_fn(EntryValue) -> nat| #[trigger] total_weight(values(data@), w) == total_weight(d0, w) + w(x),
                forall|k: int|
                    0 < k < data@.len() && k != i ==> over(
                        #[trigger] values(data@)[up(k)],
                        values(data@)[k],
                        max,
                    ),
                forall|k: int|
                    0 < k < data@.len() && up(k) == i && i > 0 ==> over(
                        values(data@)[up(i as int)],
                        #[trigger] values(data@)[k],
                        max,
                    ),
            ensures
                ordered_heap(values(data@), max),
                values(data@).to_multiset() == goal,
                forall|w: spec_fn(EntryValue) -> nat| #[trigger] total_weight(values(data@), w) == total_weight(d0, w) + w(x),
            decreases i,
        {
            let p = (i - 1) / 2;
            if over_exec(&data[p], &data[i], max) {
                break;
            }
            let ghost d = values(data@);
            exchange(&mut data, i, p);
            proof {
                let e = values(data@);
                assert forall|k: int| 0 < k < e.len() && k != p implies over(#[trigger] e[up(k)], e[k], max) by {
                    if k == i as int {
                    } else if up(k) == i as int {
                        assert(over(d[up(i as int)], d[k], max));
                    } else if up(k) == p as int {
                        assert(over(d[p as int], d[k], max));
                    } else if k == p as int {
                    } else {
                        assert(over(d[up(k)], d[k], max));
                    }
                }
                assert forall|k: int| 0 < k < e.len() && up(k) == p && p > 0 implies over(
                    e[up(p as int)],
                    #[trigger] e[k],
                    max,
                ) by {
                    assert(over(d[up(p as int)], d[p as int], max));
                    if k != i as int {
                        assert(over(d[p as int], d[k], max));
                    }
                }
            }
            i = p;
        }
        self.data = data;
    }

    /// Restore the heap property below the root after the root changed.
    fn sift_down(data: &mut Vec<BigEntry>, max: bool)
        requires
            old(data)@.len() > 0,
            forall|k: int|
                0 < k < old(data)@.len() && up(k) != 0 ==> over(
                    #[trigger] values(old(data)@)[up(k)],
                    values(old(data)@)[k],
                    max,
                ),
        ensures
            ordered_heap(values(final(data)@), max),
            values(final(data)@).to_multiset() == values(old(data)@).to_multiset(),
            forall|w: spec_fn(EntryValue) -> nat| #[trigger] total_weight(values(final(data)@), w) == total_weight(values(old(data)@), w),
    {
        let end = data.len();
        let mut i: usize = 0;
        loop
            invariant
                end == data@.len(),
                i < end,
                values(data@).to_multiset() == values(old(data)@).to_multiset(),
                forall|w: spec_fn(EntryValue) -> nat| #[trigger] total_weight(values(data@), w) == total_weight(values(old(data)@), w),
                forall|k: int|
                    0 < k < end && up(k) != i ==> over(#[trigger] values(data@)[up(k)], values(data@)[k], max),
                forall|k: int|
                    0 < k < end && up(k) == i && i > 0 ==> over(
                        values(data@)[up(i as int)],
                        #[trigger] values(data@)[k],
                        max,
                    ),
            ensures
                ordered_heap(values(data@), max),
                values(data@).to_multiset() == values(old(data)@).to_multiset(),
                forall|w: spec_fn(EntryValue) -> nat| #[trigger] total_weight(values(data@), w) == total_weight(values(old(data)@), w),
            decreases end - i,
        {
            if end - 1 - i <= i {
                proof {
                    assert forall|k: int| 0 < k < end implies over(#[trigger] values(data@)[up(k)], values(data@)[k], max) by {
                        if up(k) == i as int {
                            assert(k >= 2 * i + 1);
                        }
                    }
                }
                break;
            }
            let l = i * 2 + 1;
            let r = l + 1;
            let c = if r < end && over_exec(&data[r], &data[l], max) && !over_exec(&data[l], &data[r], max) {
                r
            } else {
                l
            };
            if over_exec(&data[i], &data[c], max) {
                proof {
                    assert forall|k: int| 0 < k < end implies over(#[trigger] values(data@)[up(k)], values(data@)[k], max) by {
                        if up(k) == i as int {
                            assert(k == l || k == r);
                        }
                    }
                }
                break;
            }
            let ghost d = values(data@);
            exchange(data, i, c);
            proof {
                let e = values(data@);
                assert forall|k: int| 0 < k < end && up(k) != c implies over(#[trigger] e[up(k)], e[k], max) by {
                    if k == c as int {
                    } else if up(k) == i as int {
                        assert(k == l || k == r);
                    } else if k == i as int {
                        assert(over(d[up(i as int)], d[c as int], max));
                    } else {
                        assert(over(d[up(k)], d[k], max));
                    }
                }
                assert forall|k: int| 0 < k < end && up(k) == c && c > 0 implies over(
                    e[up(c as int)],
                    #[trigger] e[k],
                    max,
                ) by {
                    assert(over(d[c as int], d[k], max));
                }
            }
            i = c;
        }
    }

    /// Remove and return the top entry, which no entry precedes.
    pub fn pop(&mut self) -> (r: Option<BigEntry>)
        ensures
            final(self).is_max() == old(self).is_max(),
            r is None <==> old(self).items().len() == 0,
            r is None ==> final(self).items() == old(self).items(),
            r is None ==> forall|w: spec_fn(EntryValue) -> nat| #[trigger] final(self).weight(w) == old(self).weight(w),
            r matches Some(e) ==> forall|w: spec_fn(EntryValue) -> nat| #[trigger] final(self).weight(w) + w(value_of(e)) == old(self).weight(w),
            r matches Some(e) ==> {
                &&& value_of(e) == old(self).top()
                &&& old(self).items().contains(value_of(e))
                &&& forall|x: EntryValue| old(self).items().contains(x) ==> #[trigger] over(value_of(e), x, old(self).is_max())
                &&& final(self).items() == old(self).items().remove(value_of(e))
            },
    {
        proof {
            use_type_invariant(&*self);
        }
        let max = self.max;
        let len = self.data.len();
        if len == 0 {
            return None;
        }
        let ghost d0 = values(self.data@);
        proof {
            assert forall|x: EntryValue| self.items().contains(x) implies #[trigger] over(d0[0], x, max) by {
                let i = choose|i: int| 0 <= i < d0.len() && d0[i] == x;
                lemma_root_over(d0, max, i);
            }
            assert(d0.contains(d0[0]));
        }
        let mut data: Vec<BigEntry> = Vec::new();
        std::mem::swap(&mut data, &mut self.data);
        exchange(&mut data, 0, len - 1);
        let ghost s = data@;
        let ghost d = values(s);
        let last = data.pop();
        proof {
            assert(s =~= data@.push(s[len - 1]));
            assert(d =~= values(data@).push(d[len - 1]));
            assert(d.to_multiset() =~= values(data@).to_multiset().insert(d[len - 1]));
            assert(d[len - 1] == d0[0]);
            assert(values(data@).to_multiset() =~= d0.to_multiset().remove(d0[0]));
            assert(d.drop_last() =~= values(data@));
            assert forall|w: spec_fn(EntryValue) -> nat| #[trigger] total_weight(values(data@), w) + w(d0[0]) == total_weight(d0, w) by {
                assert(total_weight(d, w) == total_weight(d.drop_last(), w) + w(d.last()));
            }
        }
        if data.len() > 0 {
            proof {
                let e = values(data@);
                assert forall|k: int| 0 < k < e.len() && up(k) != 0 implies over(#[trigger] e[up(k)], e[k], max) by {
                    assert(over(d0[up(k)], d0[k], max));
                }
            }
            Self::sift_down(&mut data, max);
        }
        self.data = data;
        last
    }
}

} // verus!
