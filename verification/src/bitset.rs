//! A fixed-size set of bit positions packed into 64-bit words.
use vstd::prelude::*;

verus! {

/// Bit `b` of word `w`.
pub open spec fn wbit(w: u64, b: int) -> bool {
    ((w >> (b as u64)) & 1u64) == 1u64
}

/// A fixed-size bit set; its view is the sequence of its bits.
pub struct Bitset {
    words: Vec<u64>,
    size: usize,
}

impl View for Bitset {
    type V = Seq<bool>;

    closed spec fn view(&self) -> Seq<bool> {
        Seq::new(self.size as nat, |i: int| wbit(self.words@[i / 64], i % 64))
    }
}

proof fn lemma_set_word(w: u64, b: u64)
    requires
        b < 64,
    ensures
        wbit(w | (1u64 << b), b as int),
        forall|c: int| 0 <= c < 64 && c != b ==> #[trigger] wbit(w | (1u64 << b), c) == wbit(w, c),
{
    assert(((w | (1u64 << b)) >> b) & 1u64 == 1u64) by (bit_vector)
        requires
            b < 64,
    ;
    assert forall|c: int| 0 <= c < 64 && c != b implies #[trigger] wbit(w | (1u64 << b), c) == wbit(w, c) by {
        let cc = c as u64;
        assert(((w | (1u64 << b)) >> cc) & 1u64 == (w >> cc) & 1u64) by (bit_vector)
            requires
                b < 64,
                cc < 64,
                cc != b,
        ;
    }
}

proof fn lemma_zero_word(b: int)
    requires
        0 <= b < 64,
    ensures
        !wbit(0u64, b),
{
    let bb = b as u64;
    assert((0u64 >> bb) & 1u64 == 0u64) by (bit_vector);
}

impl Bitset {
    /// The words hold every position.
    pub closed spec fn wf(&self) -> bool {
        self.words@.len() * 64 >= self.size
    }

    pub closed spec fn len(&self) -> nat {
        self.size as nat
    }

    /// An empty set of `size` positions.
    pub fn new(size: usize) -> (r: Bitset)
        requires
            size <= usize::MAX - 64,
        ensures
            r.wf(),
            r@ == Seq::new(size as nat, |i: int| false),
    {
        let nw = size / 64 + 1;
        let mut words: Vec<u64> = Vec::new();
        let mut i: usize = 0;
        while i < nw
            invariant
                i <= nw,
                words@.len() == i,
                forall|j: int| 0 <= j < i ==> words@[j] == 0u64,
            decreases nw - i,
        {
            words.push(0);
            i = i + 1;
        }
        let r = Bitset { words, size };
        assert forall|i: int| 0 <= i < size implies !#[trigger] r@[i] by {
            lemma_zero_word(i % 64);
        }
        assert(r@ =~= Seq::new(size as nat, |i: int| false));
        r
    }

    /// Whether position `i` is in the set.
    pub fn get(&self, i: usize) -> (r: bool)
        requires
            self.wf(),
            i < self@.len(),
        ensures
            r == self@[i as int],
    {
        ((self.words[i / 64] >> ((i % 64) as u64)) & 1) == 1
    }

    /// Add position `i`.
    pub fn set(&mut self, i: usize)
        requires
            old(self).wf(),
            i < old(self)@.len(),
        ensures
            final(self).wf(),
            final(self)@ == old(self)@.update(i as int, true),
    {
        let w = i / 64;
        let b = (i % 64) as u64;
        let old_word = self.words[w];
        proof {
            lemma_set_word(old_word, b);
        }
        let ghost before = self@;
        self.words.set(w, old_word | (1u64 << b));
        assert forall|j: int| 0 <= j < self.size implies #[trigger] self@[j] == before.update(i as int, true)[j] by {
            if j / 64 == w as int && j != i {
                assert(j % 64 != b as int);
            }
        }
        assert(self@ =~= before.update(i as int, true));
    }

    /// Add `i + k` for every position `i` in the set (within the size).
    pub fn shift_or_inplace(&mut self, k: usize)
        requires
            old(self).wf(),
        ensures
            final(self).wf(),
            final(self)@.len() == old(self)@.len(),
            forall|i: int| 0 <= i < old(self)@.len() ==> #[trigger] final(self)@[i] == (old(self)@[i] || (i >= k && old(self)@[i - k])),
    {
        let ghost before = self@;
        let size = self.size;
        let mut i = size;
        while i > k
            invariant
                self.wf(),
                self@.len() == before.len() == size,
                i <= size,
                k <= i || i == size,
                forall|j: int| 0 <= j < i ==> #[trigger] self@[j] == before[j],
                forall|j: int| i <= j < size ==> #[trigger] self@[j] == (before[j] || (j >= k && before[j - k])),
            decreases i,
        {
            i = i - 1;
            if self.get(i - k) {
                self.set(i);
            }
        }
    }

    /// A copy with the same bits.
    pub fn copy(&self) -> (r: Bitset)
        requires
            self.wf(),
        ensures
            r.wf(),
            r@ == self@,
    {
        let r = Bitset { words: self.words.clone(), size: self.size };
        assert(r.words@ =~= self.words@);
        r
    }
}

} // verus!
