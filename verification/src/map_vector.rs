//! Names for the positions of axes.

use crate::indexed::Indexed;
use vstd::prelude::*;

verus! {

/// A name for the axis at a given position.
#[derive(Clone, Copy, Debug, PartialEq, Eq)]
pub struct PlaceHolder {
    index: usize,
}

impl PlaceHolder {
    /// The position of the axis that the placeholder names.
    pub closed spec fn position(&self) -> nat {
        self.index as nat
    }

    /// A placeholder for the axis at position `index`.
    pub fn new(index: usize) -> (result: Self)
        ensures
            result.position() == index,
    {
        Self { index }
    }
}

impl Indexed for PlaceHolder {
    fn index(&self) -> (index: usize)
        ensures
            index == self.position(),
    {
        self.index
    }
}

} // verus!
