//! Growable sets of small numbers, one bit to a number.

use vstd::prelude::*;

verus! {

/// Whether bit `bit` of `word` is set.
pub open spec fn bit_at(word: u64, bit: u64) -> bool {
    (word >> bit) & 1 == 1
}

proof fn lemma_set_bit(word: u64, bit: u64, other: u64)
    requires
        bit < 64,
        other < 64,
    ensures
        bit_at(word | (1u64 << bit), other) == (bit == other || bit_at(word, other)),
{
    assert((((word | (1u64 << bit)) >> other) & 1 == 1) == (bit == other || (word >> other) & 1
        == 1)) by (bit_vector)
        requires
            bit < 64,
            other < 64,
    ;
}

proof fn lemma_or(left: u64, right: u64, bit: u64)
    requires
        bit < 64,
    ensures
        bit_at(left | right, bit) == (bit_at(left, bit) || bit_at(right, bit)),
{
    assert((((left | right) >> bit) & 1 == 1) == ((left >> bit) & 1 == 1 || (right >> bit) & 1
        == 1)) by (bit_vector)
        requires
            bit < 64,
    ;
}

proof fn lemma_zero(bit: u64)
    requires
        bit < 64,
    ensures
        !bit_at(0, bit),
{
    assert((0u64 >> bit) & 1 == 0) by (bit_vector)
        requires
            bit < 64,
    ;
}

/// A set of `usize` numbers.  It takes space in proportion to its largest member.
#[derive(Debug)]
pub struct Bitset {
    words: Vec<u64>,
}

impl View for Bitset {
    type V = Set<usize>;

    closed spec fn view(&self) -> Set<usize> {
        Set::new(
            |i: usize|
                i / 64 < self.words@.len() && bit_at(self.words@[i as int / 64], (i % 64) as u64),
        )
    }
}

impl Bitset {
    /// The empty set.
    pub fn new() -> (set: Bitset)
        ensures
            set@ == Set::<usize>::empty(),
    {
        let set = Bitset { words: Vec::new() };
        assert(set@ =~= Set::<usize>::empty());
        set
    }

    /// Puts `bit` into the set.
    pub fn set_bit(&mut self, bit: usize)
        ensures
            final(self)@ == old(self)@.insert(bit),
    {
        let index: usize = bit / 64;
        let offset: u64 = (bit % 64) as u64;
        let ghost before = self.words@;
        while self.words.len() <= index
            invariant
                before.len() <= self.words@.len(),
                self.words@.take(before.len() as int) == before,
                forall|i: int| before.len() <= i < self.words@.len() ==> self.words@[i] == 0,
            decreases index + 1 - self.words@.len(),
        {
            let ghost prior = self.words@;
            self.words.push(0);
            assert(self.words@.take(before.len() as int) == prior.take(before.len() as int));
        }
        let ghost grown = self.words@;
        self.words[index] = self.words[index] | (1u64 << offset);
        proof {
            assert forall|i: usize| self@.contains(i) == old(self)@.insert(bit).contains(i) by {
                let at = i as int / 64;
                let off = (i % 64) as u64;
                lemma_zero(off);
                if at < before.len() {
                    assert(grown.take(before.len() as int)[at] == grown[at]);
                }
                if at == index {
                    lemma_set_bit(grown[at], offset, off);
                    assert((off == offset) == (i == bit));
                }
            }
            assert(self@ =~= old(self)@.insert(bit));
        }
    }

    /// Whether `bit` is in the set.
    pub fn has_bit(&self, bit: usize) -> (found: bool)
        ensures
            found == self@.contains(bit),
    {
        let index: usize = bit / 64;
        if index >= self.words.len() {
            return false;
        }
        let offset: u64 = (bit % 64) as u64;
        (self.words[index] >> offset) & 1 == 1
    }

    /// Adds all members of `other` to the set.
    pub fn union_with(&mut self, other: &Bitset)
        ensures
            final(self)@ == old(self)@.union(other@),
    {
        let ghost before = self.words@;
        let mut i: usize = 0;
        while i < other.words.len()
            invariant
                i <= other.words@.len(),
                before.len() <= self.words@.len(),
                i <= self.words@.len(),
                self.words@.len() == (if i <= before.len() { before.len() } else { i as nat }),
                forall|j: int|
                    0 <= j < self.words@.len() ==> #[trigger] self.words@[j] == (if j < i {
                        if j < before.len() {
                            before[j] | other.words@[j]
                        } else {
                            other.words@[j]
                        }
                    } else {
                        before[j]
                    }),
            decreases other.words@.len() - i,
        {
            if i < self.words.len() {
                self.words[i] = self.words[i] | other.words[i];
            } else {
                self.words.push(other.words[i]);
            }
            i += 1;
        }
        proof {
            assert forall|b: usize| self@.contains(b) == old(self)@.union(other@).contains(b) by {
                let at = b as int / 64;
                if at < before.len() && at < other.words@.len() {
                    lemma_or(before[at], other.words@[at], (b % 64) as u64);
                }
            }
            assert(self@ =~= old(self)@.union(other@));
        }
    }

    /// The members of the set, in ascending order.
    pub fn members(&self) -> (list: Vec<usize>)
        ensures
            list@.to_set() == self@,
            forall|i: int, j: int| 0 <= i < j < list@.len() ==> list@[i] < list@[j],
    {
        let mut list: Vec<usize> = Vec::new();
        let mut bit: usize = 0;
        let mut more: bool = self.words.len() > 0;
        while more
            invariant
                forall|i: int| 0 <= i < list@.len() ==> self@.contains(#[trigger] list@[i]),
                forall|i: int, j: int| 0 <= i < j < list@.len() ==> list@[i] < list@[j],
                more ==> bit / 64 < self.words@.len(),
                more ==> forall|i: int| 0 <= i < list@.len() ==> #[trigger] list@[i] < bit,
                forall|b: usize|
                    (more ==> b < bit) && self@.contains(b) ==> #[trigger] list@.contains(b),
            decreases
                    more as int,
                    self.words@.len() * 64 - bit,
        {
            let ghost prior = list@;
            if self.has_bit(bit) {
                list.push(bit);
                assert(list@[list@.len() - 1] == bit);
            }
            assert forall|b: usize| b <= bit && self@.contains(b) implies #[trigger] list@.contains(
                b,
            ) by {
                if b < bit {
                    assert(prior.contains(b));
                    let k = choose|k: int| 0 <= k < prior.len() && prior[k] == b;
                    assert(list@[k] == b);
                }
            }
            if bit == usize::MAX || (bit + 1) / 64 >= self.words.len() {
                more = false;
            } else {
                bit += 1;
            }
        }
        assert(list@.to_set() =~= self@) by {
            assert forall|b: usize| list@.to_set().contains(b) == self@.contains(b) by {
                if list@.contains(b) {
                    let k = choose|k: int| 0 <= k < list@.len() && list@[k] == b;
                    assert(self@.contains(list@[k]));
                }
            }
        }
        list
    }
}

impl Clone for Bitset {
    fn clone(&self) -> (copy: Bitset)
        ensures
            copy@ == self@,
    {
        let copy = Bitset { words: self.words.clone() };
        assert(copy.words@ =~= self.words@);
        copy
    }
}

} // verus!
