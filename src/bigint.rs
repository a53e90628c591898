//! Signed integers of any size, held as a non-empty vector of 32-bit words.

use vstd::prelude::*;

verus! {

/// A signed integer held as 32-bit words, most significant first, in two's
/// complement.
#[derive(Debug, Clone)]
pub struct BigInt {
    /// The words; never empty.
    pub carrier: Vec<u32>,
}

impl BigInt {
    /// The carrier holds at least one word.
    pub open spec fn wf(&self) -> bool {
        self.carrier@.len() > 0
    }

    /// A one-word integer holding `n`.
    pub fn new(n: u32) -> (r: Self)
        ensures
            r.wf(),
            r.carrier@ == seq![n],
    {
        BigInt { carrier: vec![n] }
    }

    /// An integer with the given words; `carrier` must not be empty.
    pub fn new_large(carrier: Vec<u32>) -> (r: Self)
        requires
            carrier@.len() > 0,
        ensures
            r.wf(),
            r.carrier@ == carrier@,
    {
        BigInt { carrier }
    }
}

} // verus!
