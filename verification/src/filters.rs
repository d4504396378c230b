use vstd::prelude::*;

verus! {

/// Configuration that a filter can ask for, such as how many chunks it wants to see
/// before and after the one it processes.
pub struct FilterConfig {
    pre_chunks: usize,
    pos_chunks: usize,
}

/// A filter that leaves every chunk as it is.
pub struct IdentityFilter {}

/// A filter that doubles every value of every data series in a chunk.
pub struct DoubleFilter {}

} // verus!
