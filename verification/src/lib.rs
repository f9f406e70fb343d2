//! A tabular data query engine over headered, comma-delimited numeric
//! datasets: ingestion, one query operation (sort, filter, mean, median,
//! or a line-chart projection), uniform result post-processing, and the
//! shaping of every output form.
//!
//! Every numeric cell is carried as the bit pattern of an IEEE 754
//! binary32 value (`fbits`), so ordering, filtering and selection are
//! verified bit-level logic; the arithmetic, formatting and parsing that
//! genuinely need a floating-point implementation go through the trusted
//! wrappers of `num`.

use vstd::prelude::*;

pub mod chart;
pub mod decfmt;
pub mod fbits;
pub mod ingest;
pub mod num;
pub mod filtering;
pub mod postproc;
pub mod query;
pub mod render;
pub mod select;
pub mod sorting;
pub mod stats;
pub mod table;
pub mod text;

verus! {

/// The error conditions of the query pipeline. All are recoverable at the
/// top level; none leaves a table in a partial state.
#[derive(Debug, Clone, Copy, PartialEq, Eq, Structural)]
pub enum QueryError {
    /// Header count differs from a row's cell count at ingestion.
    ShapeMismatch,
    /// The input text holds no header line.
    MissingHeaders,
    /// A required single-category name resolves to no column.
    InvalidCategory,
    /// Every candidate of a multi-category selection was filtered out.
    NoValidCategories,
    /// An aggregate or chart operation was invoked on zero rows where the
    /// result is undefined.
    EmptyDataset,
    /// A cell failed to parse under the strict ingestion discipline.
    UnparsableCell,
}

} // verus!
