use vstd::prelude::*;

verus! {

/// Fills a whole sequence of elements with one value.
pub trait SetRange<T>: View<V = Seq<T>> {
    /// Sets every element to `v`.
    fn set(&mut self, v: T)
        ensures
            final(self)@.len() == old(self)@.len(),
            forall|i: int| 0 <= i < final(self)@.len() ==> #[trigger] final(self)@[i] == v,
    ;
}

impl<T: Copy> SetRange<T> for [T] {
    fn set(&mut self, v: T) {
        let n = self.len();
        let mut i: usize = 0;
        while i < n
            invariant
                n == self@.len(),
                n == old(self)@.len(),
                i <= n,
                forall|j: int| 0 <= j < i ==> #[trigger] self@[j] == v,
            decreases n - i,
        {
            self[i] = v;
            i = i + 1;
        }
    }
}

} // verus!
