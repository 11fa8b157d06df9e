//! Positions in the input.

use vstd::prelude::*;

verus! {

/// A byte offset into the input that a token or block starts at.
#[derive(Debug, Copy, Clone, PartialEq, Eq)]
pub struct SrcLoc {
    pos: usize,
}

impl SrcLoc {
    pub fn new(pos: usize) -> (r: Self)
        ensures
            r@ == pos,
    {
        return SrcLoc { pos };
    }

    /// The offset.
    pub fn pos(&self) -> (r: usize)
        ensures
            r == self@,
    {
        self.pos
    }
}

impl View for SrcLoc {
    type V = usize;

    closed spec fn view(&self) -> usize {
        self.pos
    }
}

} // verus!
