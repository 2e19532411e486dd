//! What can stop an assembly.

use vstd::prelude::*;

verus! {

/// Why names could not be assembled. No collection and no remainder come
/// out of a call that ends with one of these.
#[derive(Debug, Clone, Copy, PartialEq, Eq)]
pub enum AssembleError {
    /// A pattern does not compile.
    InvalidPattern,
    /// A pattern has no group that holds the index.
    MissingIndexGroup,
    /// A match holds no index: the group took no part in it, or what it
    /// matched is no 32-bit number.
    InvalidIndex,
}

} // verus!
