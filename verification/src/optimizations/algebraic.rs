//! Algebraic simplification. Rewrites such as `(x * 8) / 4 => x * 2` are
//! only sound with a range proof that the product does not overflow, which
//! this pass does not have, so it leaves every function as it is.

use super::Transform;
use crate::ir::MirFunction;
use vstd::prelude::*;

verus! {

pub struct AlgebraicSimplification;

impl Transform for AlgebraicSimplification {
    open spec fn accepts(&self, func: MirFunction) -> bool {
        true
    }

    /// Changes nothing and reports no change.
    fn run(&self, func: &mut MirFunction) -> (changed: bool)
        ensures
            !changed,
            *final(func) == *old(func),
    {
        false
    }
}

} // verus!
