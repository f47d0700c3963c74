//! How a parallel fold may divide its input.

use vstd::prelude::*;

verus! {

/// One way to fold a sequence in parallel: a run of items is folded in order by
/// one worker, and the results of two neighbouring splits are joined, the left
/// one first.
pub enum Split<T> {
    Run(Seq<T>),
    Join(Box<Split<T>>, Box<Split<T>>),
}

impl<T> Split<T> {
    /// The items that the split divides, in their order.
    pub open spec fn items(self) -> Seq<T>
        decreases self,
    {
        match self {
            Split::Run(items) => items,
            Split::Join(left, right) => left.items() + right.items(),
        }
    }
}

} // verus!
