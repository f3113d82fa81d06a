use vstd::prelude::*;
use crate::parser::SourceSpan;

verus! {

/// How a rendered word is displayed and what it stands for.
#[derive(Clone, Copy, Debug, PartialEq, Eq, Structural)]
pub enum WordType {
    Normal,
    Bold,
    Italic,
    BoldItalic,
    Strikethrough,
    Code,
    White,
    ListMarker,
    MetaInfo,
    LinkData,
    Link,
    Selected,
    Footnote,
    FootnoteData,
    FootnoteInline,
}

/// Word kinds that count as links when navigating the document.
pub open spec fn is_link_kind(k: WordType) -> bool {
    k == WordType::Link || k == WordType::Selected || k == WordType::FootnoteInline
}

/// Executable test for `is_link_kind`.
pub fn link_kind(k: WordType) -> (b: bool)
    ensures
        b == is_link_kind(k),
{
    match k {
        WordType::Link | WordType::Selected | WordType::FootnoteInline => true,
        _ => false,
    }
}

/// The abstract value of a word: its text, its kind, the kind it had before
/// its last change, and the source bytes it came from.
pub struct WordView {
    pub text: Seq<char>,
    pub kind: WordType,
    pub previous: WordType,
    pub source: Option<SourceSpan>,
}

/// `v` marked as selected: kind `Selected`, remembering its kind.
pub open spec fn mark_view(v: WordView) -> WordView {
    WordView { kind: WordType::Selected, previous: v.kind, ..v }
}

/// `v` with its kind set back to the one it had before its last change.
pub open spec fn unmark_view(v: WordView) -> WordView {
    WordView { kind: v.previous, ..v }
}

/// What deselecting does to a word: selected words go back to their previous kind.
pub open spec fn deselect_view(v: WordView) -> WordView {
    if v.kind == WordType::Selected {
        unmark_view(v)
    } else {
        v
    }
}

/// A run of rendered text with one display kind, and the source bytes it
/// came from (`None` for text that the renderer adds itself).
#[derive(Debug)]
pub struct Word {
    pub content: String,
    pub kind: WordType,
    pub previous_type: WordType,
    pub source: Option<SourceSpan>,
}

impl View for Word {
    type V = WordView;

    open spec fn view(&self) -> WordView {
        WordView {
            text: self.content@,
            kind: self.kind,
            previous: self.previous_type,
            source: self.source,
        }
    }
}

impl Word {
    pub fn new(content: String, kind: WordType) -> (w: Word)
        ensures
            w.content@ == content@,
            w.kind == kind,
            w.previous_type == kind,
            w.source is None,
    {
        Word { content, kind, previous_type: kind, source: None }
    }

    pub fn new_source(content: String, kind: WordType, span: SourceSpan) -> (w: Word)
        ensures
            w.content@ == content@,
            w.kind == kind,
            w.previous_type == kind,
            w.source == Some(span),
    {
        Word { content, kind, previous_type: kind, source: Some(span) }
    }

    pub fn content(&self) -> (s: &str)
        ensures
            s@ == self.content@,
    {
        self.content.as_str()
    }

    pub fn kind(&self) -> (k: WordType)
        ensures
            k == self.kind,
    {
        self.kind
    }

    pub fn previous_type(&self) -> (k: WordType)
        ensures
            k == self.previous_type,
    {
        self.previous_type
    }

    pub fn source_span(&self) -> (s: Option<SourceSpan>)
        ensures
            s == self.source,
    {
        self.source
    }

    /// Changes the kind, remembering the kind it had before.
    pub fn set_kind(&mut self, kind: WordType)
        ensures
            final(self)@ == (WordView { kind, previous: old(self)@.kind, ..old(self)@ }),
    {
        self.previous_type = self.kind;
        self.kind = kind;
    }

    /// Goes back to the kind the word had before its last `set_kind`.
    pub fn clear_kind(&mut self)
        ensures
            final(self)@ == unmark_view(old(self)@),
    {
        self.kind = self.previous_type;
    }
}

} // verus!
