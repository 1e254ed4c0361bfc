//! One continuation of a two-word context, with the number of times it was seen.

use vstd::prelude::*;

verus! {

/// A finalized observation: after the words `w1 w2` the word `w3` was seen `count` times.
#[derive(Clone, Copy, Debug, PartialEq, Eq, Structural)]
pub struct Entry {
    pub w1: u32,
    pub w2: u32,
    pub w3: u32,
    pub count: u32,
}

impl Entry {
    /// The context of this entry: the pair of word ids that precede the continuation.
    pub open spec fn key(self) -> (u32, u32) {
        (self.w1, self.w2)
    }

    /// Whether this entry belongs to the context `(a, b)`.
    pub fn has_key(&self, a: u32, b: u32) -> (r: bool)
        ensures
            r == (self.key() == (a, b)),
    {
        self.w1 == a && self.w2 == b
    }
}

} // verus!
