//! The constant block: a fixed scalar signal.
use vstd::prelude::*;

verus! {

/// A block that always outputs the same value; stepping it is a no-op
/// and it carries no runtime state worth carrying across a reload.
#[derive(Clone, Copy, PartialEq, Eq, Structural, Debug)]
pub struct ConstantBlock {
    /// The fixed output value, Q32.32.
    pub val: i64,
}

impl ConstantBlock {
    /// A constant block with the given Q32.32 value.
    pub fn new(val: i64) -> (r: ConstantBlock)
        ensures
            r.val == val,
    {
        ConstantBlock { val }
    }

    /// A silent constant block.
    pub fn zero() -> (r: ConstantBlock)
        ensures
            r.val == 0,
    {
        ConstantBlock { val: 0 }
    }
}

} // verus!
