use vstd::prelude::*;

verus! {

/// Number of components of a raw vector, one bit each after quantization.
pub const VECTOR_SIZE: usize = 1024;

/// Number of bytes of a quantized vector.
pub const QUANTIZED_VECTOR_SIZE: usize = 128;

/// Largest number of entries a node of the clustered tree holds.
pub const K: usize = 64;

/// Number of closest centroids examined at each level of the greedy descent.
pub const C: usize = 4;

/// Number of children expanded at the root during a search; halves per level.
pub const ALPHA: usize = 16;

} // verus!
