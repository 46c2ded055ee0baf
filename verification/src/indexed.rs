//! Things that stand for a position.

use vstd::prelude::*;

verus! {

/// A value that stands for a position in a sequence.
pub trait Indexed {
    /// The position.
    fn index(&self) -> usize;
}

} // verus!
