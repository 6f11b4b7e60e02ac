//! Dense vector search: the rules that link a text corpus to its embedding
//! matrix, and the exact top-k ranking that answers a query.
//!
//! Every function here carries a contract that Verus proves. Floating-point
//! arithmetic (the similarity metric itself) is supplied by the caller; scores
//! enter the library as the IEEE-754 bit patterns of 32-bit floats, which the
//! ranking orders as the floats themselves are ordered.

pub mod primer;
pub mod score;
pub mod search;
pub mod heap;
pub mod index;
pub mod batching;
pub mod text_map;
pub mod corpus;
pub mod server;

use vstd::prelude::*;

verus! {

/// Everything that can go wrong between reading a corpus and answering a query.
#[derive(Clone, Copy, Debug, PartialEq, Eq, Structural)]
pub enum SearchError {
    /// The corpus source could not be opened or read as records.
    SourceUnreadable,
    /// A record has no field at the selected column.
    ColumnMissing,
    /// A stored artifact does not follow its binary layout.
    DecodeError,
    /// The embedding matrix and the text map disagree on the number of rows.
    IndexInconsistent,
    /// A vector does not have the dimension of the matrix.
    DimensionMismatch,
    /// A row id at or beyond the number of rows.
    OutOfRange,
    /// The embedding capability failed on a batch or a query.
    InferenceError,
}

} // verus!
