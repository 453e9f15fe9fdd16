//! Copies that are equal in contracts.

use vstd::prelude::*;

verus! {

/// Values of which an equal one can be made.
pub trait Duplicate: DeepView + Sized {
    /// An equal value.
    fn duplicate(&self) -> (copy: Self)
        ensures
            copy.deep_view() == self.deep_view(),
    ;
}

impl<T: Duplicate> Duplicate for Vec<T> {
    fn duplicate(&self) -> (copy: Self) {
        let mut copy: Vec<T> = Vec::new();
        let mut i: usize = 0;
        while i < self.len()
            invariant
                i <= self@.len(),
                copy.deep_view() == self.deep_view().take(i as int),
            decreases self@.len() - i,
        {
            let ghost before = copy.deep_view();
            copy.push(self[i].duplicate());
            assert(copy.deep_view() == before.push(self@[i as int].deep_view()));
            i += 1;
            assert(copy.deep_view() == self.deep_view().take(i as int));
        }
        assert(copy.deep_view() == self.deep_view());
        copy
    }
}

} // verus!
