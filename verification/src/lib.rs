//! A command-line client's tabular data pipeline: heterogeneous JSON-like
//! values are paginated in, normalized into a uniformly shaped record set,
//! optionally projected, sorted and truncated, and rendered into one of
//! several deterministic text formats.

pub mod config;
pub mod docs;
pub mod paginate;
pub mod parse;
pub mod pipeline;
pub mod records;
pub mod render;
pub mod requests;
pub mod sort;
pub mod text;
pub mod value;

use vstd::prelude::*;

verus! {

/// The output formats the renderer dispatches over.
#[derive(Clone, Copy, Debug, PartialEq, Eq, Structural)]
pub enum OutputFormat {
    Json,
    Yaml,
    Csv,
    Psv,
    Table,
}

} // verus!
