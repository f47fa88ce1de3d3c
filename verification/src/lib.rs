//! Mid-level IR of the Olive compiler and the optimisation passes that run
//! over it, with each pass's effect stated as a contract.

pub mod ir;
pub mod liveness;
pub mod debug_hooks;
pub mod fx;
pub mod loop_utils;
pub mod optimizations;
