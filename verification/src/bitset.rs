//! A growable set of small non-negative integers.

use vstd::prelude::*;

verus! {

/// A set of indices, held as one flag per index up to the largest one inserted.
pub struct BitSet {
    bits: Vec<bool>,
}

impl View for BitSet {
    type V = Set<nat>;

    closed spec fn view(&self) -> Set<nat> {
        Set::new(|i: nat| i < self.bits@.len() && self.bits@[i as int])
    }
}

impl BitSet {
    /// The membership flags of the indices below `capacity`, in order.
    pub open spec fn flags(&self, capacity: nat) -> Seq<bool> {
        Seq::new(capacity, |i: int| self@.contains(i as nat))
    }

    /// An empty set.
    pub fn new() -> (set: Self)
        ensures
            set@ == Set::<nat>::empty(),
    {
        let set = BitSet { bits: Vec::new() };
        assert(set@ =~= Set::<nat>::empty());
        set
    }

    /// An empty set with room for the indices below `capacity`.
    pub fn with_capacity(capacity: usize) -> (set: Self)
        ensures
            set@ == Set::<nat>::empty(),
    {
        let set = BitSet { bits: Vec::with_capacity(capacity) };
        assert(set@ =~= Set::<nat>::empty());
        set
    }

    /// Adds `index` to the set. Returns whether it was absent before.
    pub fn insert(&mut self, index: usize) -> (added: bool)
        ensures
            final(self)@ == old(self)@.insert(index as nat),
            added == !old(self)@.contains(index as nat),
    {
        while self.bits.len() <= index
            invariant
                self@ == old(self)@,
            decreases index + 1 - self.bits.len(),
        {
            let ghost before = self.bits@;
            self.bits.push(false);
            assert(self@ =~= old(self)@) by {
                assert forall|i: nat| self@.contains(i) == old(self)@.contains(i) by {
                    if i < before.len() {
                        assert(self.bits@[i as int] == before[i as int]);
                    }
                }
            }
        }
        let present = self.bits[index];
        let ghost before = self.bits@;
        self.bits.set(index, true);
        assert(self@ =~= old(self)@.insert(index as nat)) by {
            assert forall|i: nat| self@.contains(i) == old(self)@.insert(index as nat).contains(
                i,
            ) by {
                if i < before.len() && i != index {
                    assert(self.bits@[i as int] == before[i as int]);
                }
            }
        }
        !present
    }

    /// Whether `index` is in the set.
    pub fn contains(&self, index: usize) -> (present: bool)
        ensures
            present == self@.contains(index as nat),
    {
        index < self.bits.len() && self.bits[index]
    }
}

} // verus!
