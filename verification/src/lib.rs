//! Approximate-string search over character n-grams.
//!
//! A corpus of keys is rasterized into a weighted bipartite graph between
//! keys and the n-grams occurring in them; the graph is stored succinctly
//! (Elias-Fano offsets, bit-packed adjacency, an instantaneous-code weight
//! bitstream) and queried with a top-k engine over the inverted index.

use vstd::prelude::*;

pub mod bitstream;
pub mod corpus;
pub mod ef;
pub mod graph;
pub mod grams;
pub mod packed;
pub mod search;
pub mod table;

verus! {

/// Errors surfaced while building a corpus or its weight bitstream.
#[derive(Debug, Clone, Copy, PartialEq, Eq, Structural)]
pub enum BuildError {
    /// No n-gram was extracted from any key, so nothing could be
    /// indexed.
    EmptyCorpus,
    /// The n-gram arity falls outside the supported band.
    ArityOutOfRange,
    /// An offset of the weight bitstream would not fit in a machine word.
    BuilderOverflow,
}

} // verus!
