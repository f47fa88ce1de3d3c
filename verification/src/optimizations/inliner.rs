//! Function inlining.

use vstd::prelude::*;

verus! {

pub struct Inliner;

impl Inliner {
    pub fn new() -> (r: Self)
        ensures
            r == Inliner,
    {
        Inliner
    }
}

impl Default for Inliner {
    fn default() -> (r: Self)
        ensures
            r == Inliner,
    {
        Self::new()
    }
}

} // verus!
