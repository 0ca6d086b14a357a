//! Plain state shared with a presentation layer.
use vstd::prelude::*;

verus! {

/// Which cell of a table view an edit addresses.
#[derive(Debug, Copy, Clone, PartialEq, Eq, Structural)]
pub enum EditSource {
    /// A row label, by row.
    YHead(usize),
    /// A column label, by column.
    XHead(usize),
    /// A value, by its position in row-major order.
    Data(usize),
}

/// A message to show in place of a view that failed.
#[derive(Debug, Clone)]
pub struct ErrorView {
    pub text: String,
}

impl ErrorView {
    pub fn new(text: String) -> (r: ErrorView)
        ensures
            r.text == text,
    {
        ErrorView { text }
    }
}

} // verus!
