use vstd::prelude::*;

verus! {

/// The closed set of failures that reach the caller.
#[derive(Clone, Copy, Debug, PartialEq, Eq, Structural)]
pub enum HaystackError {
    /// An index at or past the length of a store.
    OutOfBounds,
    /// A vector whose number of components is not the namespace's.
    DimMismatch,
    /// Batched inputs of different lengths.
    LengthMismatch,
    /// Metadata that is not a list of key/value attributes, or that a
    /// byte image cannot hold.
    BadMetadata,
    /// A filter expression that is not well formed.
    BadFilter,
    /// A byte image whose framing or structure is broken.
    Corruption,
}

} // verus!
