//! Hyperdimensional computing with fixed-width binary hypervectors.
//!
//! Symbols are represented as very-high-dimensional binary vectors that are
//! combined with binding (XOR), permutation (cyclic bit rotation), bundling
//! (majority vote) and compared by Hamming distance.

use vstd::prelude::*;

pub mod accumulator;
pub mod bits;
pub mod classifier;
pub mod encoder;
pub mod hdv;
pub mod ops;
pub mod rng;
pub mod symbols;

pub use accumulator::bundle_streaming;
pub use accumulator::BitAccumulator;
pub use classifier::classify;
pub use classifier::classify_stream;
pub use classifier::example_mexican_dollar;
pub use encoder::encode_stream;
pub use encoder::RollingNGramEncoder;
pub use hdv::accumulate;
pub use hdv::bitarray2hdv;
pub use hdv::hdv2bitarray;
pub use hdv::vec_size;
pub use hdv::Hdv;
pub use ops::add;
pub use ops::add2;
pub use ops::bundle;
pub use ops::distance;
pub use ops::hamming_distance;
pub use ops::multiply;
pub use ops::permute;
pub use ops::pmultiply;
pub use rng::RandSource;
pub use symbols::SymbolTable;

verus! {

/// A recoverable failure of a hypervector operation.
#[derive(Clone, Copy, Debug, PartialEq, Eq, Structural)]
pub enum HdcError {
    /// Two vectors of different widths were combined or compared.
    DimensionMismatch,
    /// A majority vote over zero vectors was requested.
    EmptyInput,
    /// A symbol was looked up that was never assigned a vector.
    UnknownSymbol,
}

} // verus!
