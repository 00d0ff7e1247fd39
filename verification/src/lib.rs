//! An ordered map backed by a self-balancing binary search tree (an AA tree),
//! with a pluggable total order over the keys, ascending-key iteration,
//! bidirectional sub-range queries, and verified structural invariants.

use vstd::prelude::*;

pub mod map;
pub mod order;

pub use map::TreeMap;
pub use map::TreeNode;
pub use order::Comparator;
pub use order::Natural;
pub use order::Rev;

verus! {

/// An endpoint of a range of keys.
#[derive(Clone, Copy, Debug, Hash, PartialEq, Eq)]
pub enum Bound<T> {
    /// An inclusive bound.
    Included(T),
    /// An exclusive bound.
    Excluded(T),
    /// An infinite endpoint. Indicates that there is no bound in this direction.
    Unbounded,
}

} // verus!
