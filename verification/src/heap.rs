//! Binary heaps of `(sum, i, j)` triples, the on-demand merge of two sorted
//! lists of subset sums.
//!
//! A heap orders its entries either by the sum alone or by the whole triple
//! (lexicographically). The view of a heap is the multiset of its entries;
//! `peek` shows, and `pop` removes, an entry that no other entry precedes.
use vstd::multiset::Multiset;
use vstd::prelude::*;

verus! {

broadcast use vstd::seq_lib::group_to_multiset_ensures, vstd::multiset::group_multiset_axioms;

/// A sum and the indices of the two entries it was made from.
pub type Entry = (u128, u32, u32);

/// Lexicographic order on triples.
pub open spec fn tuple_le(a: Entry, b: Entry) -> bool {
    a.0 < b.0 || (a.0 == b.0 && (a.1 < b.1 || (a.1 == b.1 && a.2 <= b.2)))
}

/// `a` is no greater than `b`: by the sum alone, or by the whole triple.
pub open spec fn no_later(a: Entry, b: Entry, by_tuple: bool) -> bool {
    if by_tuple {
        tuple_le(a, b)
    } else {
        a.0 <= b.0
    }
}

/// `a` may sit above `b`: no greater in a min-heap, no smaller in a max-heap.
pub open spec fn above(a: Entry, b: Entry, max: bool, by_tuple: bool) -> bool {
    if max {
        no_later(b, a, by_tuple)
    } else {
        no_later(a, b, by_tuple)
    }
}

pub open spec fn parent(i: int) -> int {
    (i - 1) / 2
}

/// Sum of the weights of the entries.
pub open spec fn weight_sum(s: Seq<Entry>, w: spec_fn(Entry) -> nat) -> nat
    decreases s.len(),
{
    if s.len() == 0 {
        0
    } else {
        weight_sum(s.drop_last(), w) + w(s.last())
    }
}

proof fn lemma_weight_update(s: Seq<Entry>, i: int, x: Entry, w: spec_fn(Entry) -> nat)
    requires
        0 <= i < s.len(),
    ensures
        weight_sum(s.update(i, x), w) + w(s[i]) == weight_sum(s, w) + w(x),
    decreases s.len(),
{
    let t = s.update(i, x);
    if i < s.len() - 1 {
        lemma_weight_update(s.drop_last(), i, x, w);
        assert(t.drop_last() =~= s.drop_last().update(i, x));
    } else {
        assert(t.drop_last() =~= s.drop_last());
    }
}

proof fn lemma_weight_push(s: Seq<Entry>, x: Entry, w: spec_fn(Entry) -> nat)
    ensures
        weight_sum(s.push(x), w) == weight_sum(s, w) + w(x),
{
    assert(s.push(x).drop_last() =~= s);
}

/// The heap property of an array.
pub open spec fn heap_ok(d: Seq<Entry>, max: bool, by_tuple: bool) -> bool {
    forall|k: int| 0 < k < d.len() ==> above(#[trigger] d[parent(k)], d[k], max, by_tuple)
}

fn above_exec(a: Entry, b: Entry, max: bool, by_tuple: bool) -> (r: bool)
    ensures
        r == above(a, b, max, by_tuple),
{
    let (x, y) = if max {
        (b, a)
    } else {
        (a, b)
    };
    if by_tuple {
        x.0 < y.0 || (x.0 == y.0 && (x.1 < y.1 || (x.1 == y.1 && x.2 <= y.2)))
    } else {
        x.0 <= y.0
    }
}

fn swap(v: &mut Vec<Entry>, i: usize, j: usize)
    requires
        i < old(v)@.len(),
        j < old(v)@.len(),
    ensures
        final(v)@ == old(v)@.update(i as int, old(v)@[j as int]).update(j as int, old(v)@[i as int]),
        final(v)@.to_multiset() == old(v)@.to_multiset(),
        forall|w: spec_fn(Entry) -> nat| #[trigger] weight_sum(final(v)@, w) == weight_sum(old(v)@, w),
{
    let a = v[i];
    let b = v[j];
    let ghost s0 = v@;
    v.set(i, b);
    let ghost s1 = v@;
    v.set(j, a);
    proof {
        vstd::seq_lib::to_multiset_update(s0, i as int, b);
        vstd::seq_lib::to_multiset_update(s1, j as int, a);
        assert(s0.to_multiset().count(a) > 0);
        assert(s0.to_multiset().count(b) > 0);
        assert(v@.to_multiset() =~= s0.to_multiset());
        assert forall|w: spec_fn(Entry) -> nat| #[trigger] weight_sum(v@, w) == weight_sum(s0, w) by {
            lemma_weight_update(s0, i as int, b, w);
            lemma_weight_update(s1, j as int, a, w);
        }
    }
}

/// The root of a heap is above every entry.
proof fn lemma_root_best(d: Seq<Entry>, max: bool, by_tuple: bool, i: int)
    requires
        heap_ok(d, max, by_tuple),
        0 <= i < d.len(),
    ensures
        above(d[0], d[i], max, by_tuple),
    decreases i,
{
    if i > 0 {
        lemma_root_best(d, max, by_tuple, parent(i));
        assert(above(d[parent(i)], d[i], max, by_tuple));
    }
}

/// An array heap; `max` chooses a max-heap, `by_tuple` the order on whole
/// triples.
struct Heap {
    data: Vec<Entry>,
    max: bool,
    by_tuple: bool,
}

impl Heap {
    spec fn items(&self) -> Multiset<Entry> {
        self.data@.to_multiset()
    }

    spec fn wf(&self) -> bool {
        heap_ok(self.data@, self.max, self.by_tuple)
    }

    fn new(cap: usize, max: bool, by_tuple: bool) -> (h: Heap)
        ensures
            h.wf(),
            h.items() =~= Multiset::empty(),
            h.data@.len() == 0,
            h.max == max,
            h.by_tuple == by_tuple,
    {
        Heap { data: Vec::with_capacity(cap), max, by_tuple }
    }

    fn peek(&self) -> (r: Option<Entry>)
        requires
            self.wf(),
        ensures
            r is None <==> self.items().len() == 0,
            r matches Some(e) ==> e == self.data@[0],
            r matches Some(e) ==> self.items().contains(e) && forall|x: Entry|
                self.items().contains(x) ==> above(e, x, self.max, self.by_tuple),
    {
        if self.data.len() == 0 {
            None
        } else {
            proof {
                assert forall|x: Entry| self.items().contains(x) implies above(
                    self.data@[0],
                    x,
                    self.max,
                    self.by_tuple,
                ) by {
                    let i = choose|i: int| 0 <= i < self.data@.len() && self.data@[i] == x;
                    lemma_root_best(self.data@, self.max, self.by_tuple, i);
                }
                assert(self.data@.contains(self.data@[0]));
            }
            Some(self.data[0])
        }
    }

    fn push(&mut self, v: Entry)
        requires
            old(self).wf(),
        ensures
            final(self).wf(),
            final(self).items() == old(self).items().insert(v),
            final(self).max == old(self).max,
            final(self).by_tuple == old(self).by_tuple,
            forall|w: spec_fn(Entry) -> nat| #[trigger] weight_sum(final(self).data@, w) == weight_sum(old(self).data@, w) + w(v),
    {
        let max = self.max;
        let bt = self.by_tuple;
        let mut i = self.data.len();
        self.data.push(v);
        proof {
            assert forall|w: spec_fn(Entry) -> nat| #[trigger] weight_sum(self.data@, w) == weight_sum(old(self).data@, w) + w(v) by {
                lemma_weight_push(old(self).data@, v, w);
            }
        }
        let ghost goal = old(self).items().insert(v);
        while i > 0
            invariant
                max == self.max,
                bt == self.by_tuple,
                self.max == old(self).max,
                self.by_tuple == old(self).by_tuple,
                i < self.data@.len(),
                self.data@.to_multiset() == goal,
                forall|w: spec_fn(Entry) -> nat| #[trigger] weight_sum(self.data@, w) == weight_sum(old(self).data@, w) + w(v),
                forall|k: int|
                    0 < k < self.data@.len() && k != i ==> above(
                        #[trigger] self.data@[parent(k)],
                        self.data@[k],
                        max,
                        bt,
                    ),
                forall|k: int|
                    0 < k < self.data@.len() && parent(k) == i && i > 0 ==> above(
                        self.data@[parent(i as int)],
                        #[trigger] self.data@[k],
                        max,
                        bt,
                    ),
            ensures
                heap_ok(self.data@, max, bt),
                self.data@.to_multiset() == goal,
                forall|w: spec_fn(Entry) -> nat| #[trigger] weight_sum(self.data@, w) == weight_sum(old(self).data@, w) + w(v),
                self.max == old(self).max,
                self.by_tuple == old(self).by_tuple,
            decreases i,
        {
            let p = (i - 1) / 2;
            if above_exec(self.data[p], self.data[i], max, bt) {
                break;
            }
            let ghost d = self.data@;
            swap(&mut self.data, i, p);
            proof {
                let e = self.data@;
                assert forall|k: int|
                    0 < k < e.len() && k != p implies above(#[trigger] e[parent(k)], e[k], max, bt) by {
                    if k == i as int {
                    } else if parent(k) == i as int {
                        assert(above(d[parent(i as int)], d[k], max, bt));
                    } else if parent(k) == p as int {
                        assert(above(d[p as int], d[k], max, bt));
                    } else if k == p as int {
                    } else {
                        assert(above(d[parent(k)], d[k], max, bt));
                    }
                }
                assert forall|k: int|
                    0 < k < e.len() && parent(k) == p && p > 0 implies above(
                        e[parent(p as int)],
                        #[trigger] e[k],
                        max,
                        bt,
                    ) by {
                    assert(above(d[parent(p as int)], d[p as int], max, bt));
                    if k != i as int {
                        assert(above(d[p as int], d[k], max, bt));
                    }
                }
            }
            i = p;
        }
    }

    /// Restore the heap property below `i` after its entry changed.
    fn sift_down(&mut self, start: usize)
        requires
            start == 0,
            old(self).data@.len() > 0,
            forall|k: int|
                0 < k < old(self).data@.len() && parent(k) != start ==> above(
                    #[trigger] old(self).data@[parent(k)],
                    old(self).data@[k],
                    old(self).max,
                    old(self).by_tuple,
                ),
        ensures
            final(self).wf(),
            final(self).items() == old(self).items(),
            final(self).max == old(self).max,
            final(self).by_tuple == old(self).by_tuple,
            forall|w: spec_fn(Entry) -> nat| #[trigger] weight_sum(final(self).data@, w) == weight_sum(old(self).data@, w),
    {
        let max = self.max;
        let bt = self.by_tuple;
        let end = self.data.len();
        let mut i = start;
        loop
            invariant
                max == self.max,
                bt == self.by_tuple,
                self.max == old(self).max,
                self.by_tuple == old(self).by_tuple,
                end == self.data@.len(),
                i < end,
                self.data@.to_multiset() == old(self).data@.to_multiset(),
                forall|w: spec_fn(Entry) -> nat| #[trigger] weight_sum(self.data@, w) == weight_sum(old(self).data@, w),
                forall|k: int|
                    0 < k < end && parent(k) != i ==> above(
                        #[trigger] self.data@[parent(k)],
                        self.data@[k],
                        max,
                        bt,
                    ),
                forall|k: int|
                    0 < k < end && parent(k) == i && i > 0 ==> above(
                        self.data@[parent(i as int)],
                        #[trigger] self.data@[k],
                        max,
                        bt,
                    ),
            ensures
                heap_ok(self.data@, max, bt),
                self.data@.to_multiset() == old(self).data@.to_multiset(),
                forall|w: spec_fn(Entry) -> nat| #[trigger] weight_sum(self.data@, w) == weight_sum(old(self).data@, w),
                self.max == old(self).max,
                self.by_tuple == old(self).by_tuple,
            decreases end - i,
        {
            if end - 1 - i <= i {
                proof {
                    assert forall|k: int| 0 < k < end implies above(
                        #[trigger] self.data@[parent(k)],
                        self.data@[k],
                        max,
                        bt,
                    ) by {
                        if parent(k) == i as int {
                            assert(k >= 2 * i + 1);
                        }
                    }
                }
                break;
            }
            let l = i * 2 + 1;
            let r = l + 1;
            let c = if r < end && above_exec(self.data[r], self.data[l], max, bt) && !above_exec(
                self.data[l],
                self.data[r],
                max,
                bt,
            ) {
                r
            } else {
                l
            };
            if above_exec(self.data[i], self.data[c], max, bt) {
                proof {
                    assert forall|k: int| 0 < k < end implies above(
                        #[trigger] self.data@[parent(k)],
                        self.data@[k],
                        max,
                        bt,
                    ) by {
                        if parent(k) == i as int {
                            assert(k == l || k == r);
                        }
                    }
                }
                break;
            }
            let ghost d = self.data@;
            swap(&mut self.data, i, c);
            proof {
                let e = self.data@;
                assert forall|k: int|
                    0 < k < end && parent(k) != c implies above(#[trigger] e[parent(k)], e[k], max, bt) by {
                    if k == c as int {
                    } else if parent(k) == i as int {
                        assert(k == l || k == r);
                    } else if k == i as int {
                        assert(above(d[parent(i as int)], d[c as int], max, bt));
                    } else {
                        assert(above(d[parent(k)], d[k], max, bt));
                    }
                }
                assert forall|k: int|
                    0 < k < end && parent(k) == c && c > 0 implies above(
                        e[parent(c as int)],
                        #[trigger] e[k],
                        max,
                        bt,
                    ) by {
                    assert(above(d[c as int], d[k], max, bt));
                }
            }
            i = c;
        }
    }

    fn pop(&mut self) -> (r: Option<Entry>)
        requires
            old(self).wf(),
        ensures
            final(self).wf(),
            final(self).max == old(self).max,
            final(self).by_tuple == old(self).by_tuple,
            r is None <==> old(self).items().len() == 0,
            r is None ==> final(self).items() == old(self).items(),
            r is None ==> forall|w: spec_fn(Entry) -> nat| #[trigger] weight_sum(final(self).data@, w) == weight_sum(old(self).data@, w),
            r matches Some(e) ==> forall|w: spec_fn(Entry) -> nat| #[trigger] weight_sum(final(self).data@, w) + w(e) == weight_sum(old(self).data@, w),
            r matches Some(e) ==> {
                &&& e == old(self).data@[0]
                &&& old(self).items().contains(e)
                &&& forall|x: Entry| old(self).items().contains(x) ==> above(e, x, old(self).max, old(self).by_tuple)
                &&& final(self).items() == old(self).items().remove(e)
            },
    {
        let len = self.data.len();
        if len == 0 {
            return None;
        }
        proof {
            assert forall|x: Entry| old(self).items().contains(x) implies above(
                old(self).data@[0],
                x,
                self.max,
                self.by_tuple,
            ) by {
                let i = choose|i: int| 0 <= i < old(self).data@.len() && old(self).data@[i] == x;
                lemma_root_best(old(self).data@, self.max, self.by_tuple, i);
            }
            assert(old(self).data@.contains(old(self).data@[0]));
        }
        swap(&mut self.data, 0, len - 1);
        let ghost d = self.data@;
        let result = self.data.pop();
        proof {
            assert(d =~= self.data@.push(d[len - 1]));
            assert(d.to_multiset() =~= self.data@.to_multiset().insert(d[len - 1]));
            assert(d[len - 1] == old(self).data@[0]);
            assert(self.data@.to_multiset() =~= old(self).items().remove(old(self).data@[0]));
            assert(d.drop_last() =~= self.data@);
            assert forall|w: spec_fn(Entry) -> nat| #[trigger] weight_sum(self.data@, w) + w(old(self).data@[0]) == weight_sum(old(self).data@, w) by {
                assert(weight_sum(d, w) == weight_sum(d.drop_last(), w) + w(d.last()));
            }
        }
        if self.data.len() > 0 {
            proof {
                let e = self.data@;
                assert forall|k: int|
                    0 < k < e.len() && parent(k) != 0 implies above(
                        #[trigger] e[parent(k)],
                        e[k],
                        self.max,
                        self.by_tuple,
                    ) by {
                    assert(above(old(self).data@[parent(k)], old(self).data@[k], self.max, self.by_tuple));
                }
            }
            self.sift_down(0);
        }
        result
    }

    /// Put `v` in place of the root and restore the heap.
    fn replace(&mut self, v: Entry)
        requires
            old(self).wf(),
            old(self).data@.len() > 0,
        ensures
            final(self).wf(),
            final(self).max == old(self).max,
            final(self).by_tuple == old(self).by_tuple,
            final(self).items() == old(self).items().remove(old(self).data@[0]).insert(v),
            forall|w: spec_fn(Entry) -> nat| #[trigger] weight_sum(final(self).data@, w) + w(old(self).data@[0]) == weight_sum(old(self).data@, w) + w(v),
    {
        let ghost d = self.data@;
        self.data.set(0, v);
        proof {
            assert forall|w: spec_fn(Entry) -> nat| #[trigger] weight_sum(self.data@, w) + w(d[0]) == weight_sum(d, w) + w(v) by {
                lemma_weight_update(d, 0, v, w);
            }
            vstd::seq_lib::to_multiset_update(d, 0, v);
            assert(d.to_multiset().count(d[0]) > 0);
            assert(self.data@.to_multiset() =~= d.to_multiset().remove(d[0]).insert(v));
            let e = self.data@;
            assert forall|k: int|
                0 < k < e.len() && parent(k) != 0 implies above(
                    #[trigger] e[parent(k)],
                    e[k],
                    self.max,
                    self.by_tuple,
                ) by {
                assert(above(d[parent(k)], d[k], self.max, self.by_tuple));
            }
        }
        self.sift_down(0);
    }
}

/// A min-heap of triples.
pub struct MinHeap {
    h: Heap,
}

impl MinHeap {
    /// The entries.
    pub closed spec fn items(&self) -> Multiset<Entry> {
        self.h.items()
    }

    /// Sum of `w` over the entries (a measure of the work left).
    pub closed spec fn weight(&self, w: spec_fn(Entry) -> nat) -> nat {
        weight_sum(self.h.data@, w)
    }

    /// Whether entries are ordered by the whole triple rather than the sum.
    pub closed spec fn by_tuple(&self) -> bool {
        self.h.by_tuple
    }

    /// The entry at the top, when there is one.
    pub closed spec fn top(&self) -> Entry {
        self.h.data@[0]
    }

    #[verifier::type_invariant]
    closed spec fn inv(&self) -> bool {
        self.h.wf() && self.h.max == false
    }

    /// An empty heap ordered by the sums.
    pub fn new(cap: usize) -> (r: MinHeap)
        ensures
            r.items() =~= Multiset::empty(),
            !r.by_tuple(),
            forall|w: spec_fn(Entry) -> nat| #[trigger] r.weight(w) == 0,
    {
        MinHeap { h: Heap::new(cap, false, false) }
    }

    /// An empty heap ordered by whole triples.
    pub fn by_triples(cap: usize) -> (r: MinHeap)
        ensures
            r.items() =~= Multiset::empty(),
            r.by_tuple(),
            forall|w: spec_fn(Entry) -> nat| #[trigger] r.weight(w) == 0,
    {
        MinHeap { h: Heap::new(cap, false, true) }
    }

    /// The number of entries.
    pub fn len(&self) -> (r: usize)
        ensures
            r == self.items().len(),
    {
        self.h.data.len()
    }

    /// The top entry, which no entry precedes.
    pub fn peek(&self) -> (r: Option<Entry>)
        ensures
            r is None <==> self.items().len() == 0,
            r matches Some(e) ==> {
                &&& e == self.top()
                &&& self.items().contains(e)
                &&& forall|x: Entry| self.items().contains(x) ==> #[trigger] no_later(e, x, self.by_tuple())
            },
    {
        proof {
            use_type_invariant(self);
        }
        let r = self.h.peek();
        proof {
            if self.h.data@.len() > 0 {
                assert(self.h.data@[0] == self.top());
            }
        }
        match r {
            Some(_) => Some(self.h.data[0]),
            None => None,
        }
    }

    /// Add an entry.
    pub fn push(&mut self, v: Entry)
        ensures
            final(self).items() == old(self).items().insert(v),
            final(self).by_tuple() == old(self).by_tuple(),
            forall|w: spec_fn(Entry) -> nat| #[trigger] final(self).weight(w) == old(self).weight(w) + w(v),
    {
        proof {
            use_type_invariant(&*self);
        }
        let mut h = Heap::new(0, self.h.max, false);
        std::mem::swap(&mut h, &mut self.h);
        h.push(v);
        std::mem::swap(&mut h, &mut self.h);
    }

    /// Remove and return the top entry, which no entry precedes.
    pub fn pop(&mut self) -> (r: Option<Entry>)
        ensures
            final(self).by_tuple() == old(self).by_tuple(),
            r is None <==> old(self).items().len() == 0,
            r is None ==> final(self).items() == old(self).items(),
            r is None ==> forall|w: spec_fn(Entry) -> nat| #[trigger] final(self).weight(w) == old(self).weight(w),
            r matches Some(e) ==> forall|w: spec_fn(Entry) -> nat| #[trigger] final(self).weight(w) + w(e) == old(self).weight(w),
            r matches Some(e) ==> {
                &&& e == old(self).top()
                &&& old(self).items().contains(e)
                &&& forall|x: Entry| old(self).items().contains(x) ==> #[trigger] no_later(e, x, old(self).by_tuple())
                &&& final(self).items() == old(self).items().remove(e)
            },
    {
        proof {
            use_type_invariant(&*self);
        }
        let ghost t = self.h.data@;
        let mut h = Heap::new(0, self.h.max, false);
        std::mem::swap(&mut h, &mut self.h);
        let r = h.pop();
        std::mem::swap(&mut h, &mut self.h);
        r
    }

    /// Put `v` in place of the top entry.
    pub fn replace(&mut self, v: Entry)
        requires
            old(self).items().len() > 0,
        ensures
            final(self).items() == old(self).items().remove(old(self).top()).insert(v),
            final(self).by_tuple() == old(self).by_tuple(),
            forall|w: spec_fn(Entry) -> nat| #[trigger] final(self).weight(w) + w(old(self).top()) == old(self).weight(w) + w(v),
    {
        proof {
            use_type_invariant(&*self);
        }
        let mut h = Heap::new(0, self.h.max, false);
        std::mem::swap(&mut h, &mut self.h);
        h.replace(v);
        std::mem::swap(&mut h, &mut self.h);
    }
}

/// A max-heap of triples.
pub struct MaxHeap {
    h: Heap,
}

impl MaxHeap {
    /// The entries.
    pub closed spec fn items(&self) -> Multiset<Entry> {
        self.h.items()
    }

    /// Sum of `w` over the entries (a measure of the work left).
    pub closed spec fn weight(&self, w: spec_fn(Entry) -> nat) -> nat {
        weight_sum(self.h.data@, w)
    }

    /// Whether entries are ordered by the whole triple rather than the sum.
    pub closed spec fn by_tuple(&self) -> bool {
        self.h.by_tuple
    }

    /// The entry at the top, when there is one.
    pub closed spec fn top(&self) -> Entry {
        self.h.data@[0]
    }

    #[verifier::type_invariant]
    closed spec fn inv(&self) -> bool {
        self.h.wf() && self.h.max == true
    }

    /// An empty heap ordered by the sums.
    pub fn new(cap: usize) -> (r: MaxHeap)
        ensures
            r.items() =~= Multiset::empty(),
            !r.by_tuple(),
            forall|w: spec_fn(Entry) -> nat| #[trigger] r.weight(w) == 0,
    {
        MaxHeap { h: Heap::new(cap, true, false) }
    }

    /// An empty heap ordered by whole triples.
    pub fn by_triples(cap: usize) -> (r: MaxHeap)
        ensures
            r.items() =~= Multiset::empty(),
            r.by_tuple(),
            forall|w: spec_fn(Entry) -> nat| #[trigger] r.weight(w) == 0,
    {
        MaxHeap { h: Heap::new(cap, true, true) }
    }

    /// The number of entries.
    pub fn len(&self) -> (r: usize)
        ensures
            r == self.items().len(),
    {
        self.h.data.len()
    }

    /// The top entry, which no entry follows.
    pub fn peek(&self) -> (r: Option<Entry>)
        ensures
            r is None <==> self.items().len() == 0,
            r matches Some(e) ==> {
                &&& e == self.top()
                &&& self.items().contains(e)
                &&& forall|x: Entry| self.items().contains(x) ==> #[trigger] no_later(x, e, self.by_tuple())
            },
    {
        proof {
            use_type_invariant(self);
        }
        let r = self.h.peek();
        proof {
            if self.h.data@.len() > 0 {
                assert(self.h.data@[0] == self.top());
            }
        }
        match r {
            Some(_) => Some(self.h.data[0]),
            None => None,
        }
    }

    /// Add an entry.
    pub fn push(&mut self, v: Entry)
        ensures
            final(self).items() == old(self).items().insert(v),
            final(self).by_tuple() == old(self).by_tuple(),
            forall|w: spec_fn(Entry) -> nat| #[trigger] final(self).weight(w) == old(self).weight(w) + w(v),
    {
        proof {
            use_type_invariant(&*self);
        }
        let mut h = Heap::new(0, self.h.max, false);
        std::mem::swap(&mut h, &mut self.h);
        h.push(v);
        std::mem::swap(&mut h, &mut self.h);
    }

    /// Remove and return the top entry, which no entry follows.
    pub fn pop(&mut self) -> (r: Option<Entry>)
        ensures
            final(self).by_tuple() == old(self).by_tuple(),
            r is None <==> old(self).items().len() == 0,
            r is None ==> final(self).items() == old(self).items(),
            r is None ==> forall|w: spec_fn(Entry) -> nat| #[trigger] final(self).weight(w) == old(self).weight(w),
            r matches Some(e) ==> forall|w: spec_fn(Entry) -> nat| #[trigger] final(self).weight(w) + w(e) == old(self).weight(w),
            r matches Some(e) ==> {
                &&& e == old(self).top()
                &&& old(self).items().contains(e)
                &&& forall|x: Entry| old(self).items().contains(x) ==> #[trigger] no_later(x, e, old(self).by_tuple())
                &&& final(self).items() == old(self).items().remove(e)
            },
    {
        proof {
            use_type_invariant(&*self);
        }
        let ghost t = self.h.data@;
        let mut h = Heap::new(0, self.h.max, false);
        std::mem::swap(&mut h, &mut self.h);
        let r = h.pop();
        std::mem::swap(&mut h, &mut self.h);
        r
    }

    /// Put `v` in place of the top entry.
    pub fn replace(&mut self, v: Entry)
        requires
            old(self).items().len() > 0,
        ensures
            final(self).items() == old(self).items().remove(old(self).top()).insert(v),
            final(self).by_tuple() == old(self).by_tuple(),
            forall|w: spec_fn(Entry) -> nat| #[trigger] final(self).weight(w) + w(old(self).top()) == old(self).weight(w) + w(v),
    {
        proof {
            use_type_invariant(&*self);
        }
        let mut h = Heap::new(0, self.h.max, false);
        std::mem::swap(&mut h, &mut self.h);
        h.replace(v);
        std::mem::swap(&mut h, &mut self.h);
    }
}

} // verus!
