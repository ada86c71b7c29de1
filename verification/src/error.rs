use vstd::prelude::*;

verus! {

/// Graph serialization error.
#[derive(Debug, Clone, Copy, PartialEq, Eq, Structural)]
pub enum GraphSerializationError {
    /// The input ended early; carries the number of bytes that were needed
    /// (saturated at `usize::MAX` when the declared counts ask for more).
    InsufficientData(usize),
    /// Reserved for inputs whose layout cannot be recognized.
    InvalidFormat,
    /// An edge record referenced a node weight that was absent from the
    /// node records; carries the unresolved weight.
    NodeNotFound(u64),
}

/// General errors.
#[derive(Debug, Clone, Copy, PartialEq, Eq, Structural)]
pub enum Error {
    /// The compressed input could not be decompressed.
    Io,
    /// A malformed serialized graph.
    GraphSerializationError(GraphSerializationError),
    /// A memory reservation could not be satisfied.
    MemoryAllocation,
}

} // verus!
