//! Comments anchored to source spans, and their rendered projection.
use vstd::prelude::*;
use crate::parser::SourceSpan;
use crate::util::Caret;

verus! {

/// A comment attached to a span of the markdown source.
#[derive(Debug)]
pub struct Comment {
    pub source: SourceSpan,
    pub text: String,
    pub selected_text: Option<String>,
}

/// A range of rendered cells, from `start` (inclusive) to `end` (exclusive).
#[derive(Clone, Copy, Debug, PartialEq, Eq, Structural)]
pub struct RenderedRange {
    pub start: Caret,
    pub end: Caret,
}

/// Where a comment's source span shows up in the rendered document.
#[derive(Debug)]
pub struct ProjectedCommentAnchor {
    pub source: SourceSpan,
    pub rendered: Vec<RenderedRange>,
}

/// Orders two carets so that the first comes first in document order
/// (by line, then by column).
pub fn normalize_range(a: Caret, b: Caret) -> (r: (Caret, Caret))
    ensures
        a.le(b) ==> r == (a, b),
        !a.le(b) ==> r == (b, a),
{
    if a.line < b.line || (a.line == b.line && a.col <= b.col) {
        (a, b)
    } else {
        (b, a)
    }
}

} // verus!
