//! Errors of the layout engine.
use vstd::prelude::*;

verus! {

/// Why a query or a rebuild could not be answered. None of these is fatal:
/// the caller keeps the last good layout and waits for the next rebuild.
#[derive(Clone, Copy, Debug, PartialEq, Eq, Structural, Hash)]
pub enum LayoutError {
    /// A line, folded line or visual line index is outside the current range.
    NotFound,
    /// An offset range is inverted or does not fit the text.
    InvalidInterval,
    /// The text shaper gave no usable layout.
    ShaperFailure,
}

} // verus!
