use vstd::prelude::*;

verus! {

/// Shared capacity for the input view, the token queue, and the output
/// buffer. These sizes must all match, so every component takes its bound
/// from this one constant.
pub const BUF_SIZE: usize = 150;

} // verus!
