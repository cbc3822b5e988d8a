//! A heap that holds each generation number at most once.

use vstd::prelude::*;

use crate::types::Generation;

verus! {

/// A max-heap of generation numbers without repetitions.
pub struct UniqueHeap {
    /// The numbers of the heap in ascending order.
    sorted: Vec<Generation>,
}

impl View for UniqueHeap {
    type V = Set<Generation>;

    closed spec fn view(&self) -> Set<Generation> {
        self.sorted@.to_set()
    }
}

impl UniqueHeap {
    /// The numbers are stored strictly ascending.
    pub closed spec fn wf(&self) -> bool {
        forall|i: int, j: int| 0 <= i < j < self.sorted@.len() ==> self.sorted@[i] < self.sorted@[j]
    }

    /// An empty heap.
    pub fn new() -> (heap: Self)
        ensures
            heap.wf(),
            heap@ == Set::<Generation>::empty(),
    {
        let heap = UniqueHeap { sorted: Vec::new() };
        assert(heap@ =~= Set::<Generation>::empty());
        heap
    }

    /// Adds `value` unless the heap holds it already.
    pub fn push(&mut self, value: Generation)
        requires
            old(self).wf(),
        ensures
            final(self).wf(),
            final(self)@ == old(self)@.insert(value),
    {
        let mut low: usize = 0;
        let mut high: usize = self.sorted.len();
        while low < high
            invariant
                self.wf(),
                *self == *old(self),
                low <= high <= self.sorted@.len(),
                forall|i: int| 0 <= i < low ==> self.sorted@[i] < value,
                forall|i: int| high <= i < self.sorted@.len() ==> self.sorted@[i] >= value,
            decreases high - low,
        {
            let mid: usize = low + (high - low) / 2;
            if self.sorted[mid] < value {
                low = mid + 1;
            } else {
                high = mid;
            }
        }
        if low < self.sorted.len() && self.sorted[low] == value {
            assert(self@.contains(self.sorted@[low as int]));
            assert(self@ =~= old(self)@.insert(value));
        } else {
            self.sorted.insert(low, value);
            proof {
                let before = old(self).sorted@;
                let after = self.sorted@;
                assert(after == before.insert(low as int, value));
                assert forall|x: Generation| after.to_set().contains(x) == before.to_set().insert(
                    value,
                ).contains(x) by {
                    if before.contains(x) {
                        let i = before.index_of(x);
                        assert(after[if i < low { i } else { i + 1 }] == x);
                    }
                    if after.contains(x) && x != value {
                        let i = after.index_of(x);
                        assert(before[if i < low { i } else { i - 1 }] == x);
                    }
                    assert(after[low as int] == value);
                }
                assert(self@ =~= old(self)@.insert(value));
            }
        }
    }

    /// Takes the greatest number out of the heap.
    pub fn pop(&mut self) -> (value: Option<Generation>)
        requires
            old(self).wf(),
        ensures
            final(self).wf(),
            match value {
                Some(v) => {
                    &&& old(self)@.contains(v)
                    &&& forall|g: Generation| #[trigger] old(self)@.contains(g) ==> g <= v
                    &&& final(self)@ == old(self)@.remove(v)
                },
                None => old(self)@.is_empty() && final(self)@ == old(self)@,
            },
    {
        let value = self.sorted.pop();
        proof {
            let before = old(self).sorted@;
            if before.len() > 0 {
                let v = before.last();
                let after = self.sorted@;
                assert(after == before.drop_last());
                assert(before.contains(v));
                assert forall|x: Generation| after.to_set().contains(x)
                    == before.to_set().remove(v).contains(x) by {
                    if before.contains(x) && x != v {
                        let i = before.index_of(x);
                        assert(after[i] == x);
                    }
                    if after.contains(x) {
                        let i = after.index_of(x);
                        assert(before[i] == x);
                    }
                }
                assert(self@ =~= old(self)@.remove(v));
            } else {
                assert(self@ =~= old(self)@);
                assert(old(self)@ =~= Set::<Generation>::empty());
            }
        }
        value
    }

    /// The greatest number of the heap.
    pub fn peek(&self) -> (value: Option<Generation>)
        requires
            self.wf(),
        ensures
            match value {
                Some(v) => {
                    &&& self@.contains(v)
                    &&& forall|g: Generation| #[trigger] self@.contains(g) ==> g <= v
                },
                None => self@.is_empty(),
            },
    {
        if self.sorted.len() == 0 {
            assert(self@ =~= Set::<Generation>::empty());
            None
        } else {
            let v = self.sorted[self.sorted.len() - 1];
            assert(self.sorted@.contains(v));
            Some(v)
        }
    }
}

} // verus!
