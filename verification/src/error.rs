//! The failure channel of the pipeline. Every fatal condition aborts the
//! whole run and is surfaced as one of these values; diagnostic warnings are
//! collected separately and never block output.

use vstd::prelude::*;

use crate::specifier::ModuleSpecifier;

verus! {

/// A defect found while merging the text edits of one module.
#[derive(Debug)]
pub enum TextChangeError {
    /// An edit range does not lie inside the module's source text.
    OutOfBounds { start: usize, end: usize, text_len: usize },
    /// Two edits, adjacent once sorted, cover overlapping ranges.
    Overlap { first_start: usize, first_end: usize, second_start: usize, second_end: usize },
}

/// A fatal condition: the run is aborted and no output is produced.
#[derive(Debug)]
pub enum TransformError {
    /// No entry point was supplied.
    NoEntryPoints,
    /// A module's own declared type reference failed to resolve.
    TypesResolutionFailure { specifier: ModuleSpecifier, reference: String, error: String },
    /// Two distinct specifiers were assigned the same output path.
    OutputPathCollision { first: ModuleSpecifier, second: ModuleSpecifier },
    /// A rewriter pass produced defective text edits for one module.
    InvalidTextChanges { specifier: ModuleSpecifier, detail: TextChangeError },
}

} // verus!
