use vstd::prelude::*;

verus! {

/// A position in the rendered document: a row (`line`) and a terminal column (`col`).
#[derive(Clone, Copy, Debug, PartialEq, Eq, Structural)]
pub struct Caret {
    pub line: u16,
    pub col: u16,
}

impl Caret {
    /// Document order: first by line, then by column.
    pub open spec fn le(self, other: Caret) -> bool {
        self.line < other.line || (self.line == other.line && self.col <= other.col)
    }
}

} // verus!
