//! Positions and spans in the markdown source.
use vstd::prelude::*;
use crate::metrics::{byte_len, lemma_byte_len_step, byte_length, char_utf8_len};

verus! {

broadcast use vstd::string::group_string_axioms;

/// A position in the source text: a byte offset (the canonical coordinate)
/// with the line and column (in chars) that it falls on.
#[derive(Clone, Copy, Debug, PartialEq, Eq, Structural)]
pub struct SourcePos {
    pub byte: usize,
    pub line: usize,
    pub column: usize,
}

/// A half-open range `start..end` of the source text.
#[derive(Clone, Copy, Debug, PartialEq, Eq, Structural)]
pub struct SourceSpan {
    pub start: SourcePos,
    pub end: SourcePos,
}

/// The number of chars of `s` that take up exactly `off` bytes, if `off`
/// falls on a char boundary of `s`.
pub open spec fn chars_before(s: Seq<char>, off: nat) -> Option<nat>
    decreases s.len(),
{
    if byte_len(s) == off {
        Some(s.len())
    } else if s.len() == 0 {
        None
    } else {
        chars_before(s.drop_last(), off)
    }
}

/// What `subspan` returns: the part of `span` that covers bytes
/// `start..end` of the word text `content` that `span` covers.
/// Both offsets must fall on char boundaries of `content` with `start <= end`;
/// the columns of the new ends advance by the chars that precede them.
pub open spec fn spec_subspan(span: SourceSpan, content: Seq<char>, start: nat, end: nat) -> Option<
    SourceSpan,
> {
    match (chars_before(content, start), chars_before(content, end)) {
        (Some(ks), Some(ke)) => {
            if start <= end && span.start.byte + end <= usize::MAX && span.start.column + ke
                <= usize::MAX {
                Some(
                    SourceSpan {
                        start: SourcePos {
                            byte: (span.start.byte + start) as usize,
                            line: span.start.line,
                            column: (span.start.column + ks) as usize,
                        },
                        end: SourcePos {
                            byte: (span.start.byte + end) as usize,
                            line: span.start.line,
                            column: (span.start.column + ke) as usize,
                        },
                    },
                )
            } else {
                None
            }
        },
        _ => None,
    }
}

proof fn lemma_byte_len_strict(s: Seq<char>, i: int, j: int)
    requires
        0 <= i < j <= s.len(),
    ensures
        byte_len(s.take(i)) < byte_len(s.take(j)),
    decreases j - i,
{
    lemma_byte_len_step(s, j - 1);
    if i < j - 1 {
        lemma_byte_len_strict(s, i, j - 1);
    }
}

proof fn lemma_chars_before_found(s: Seq<char>, off: nat, i: int, j: int)
    requires
        0 <= i <= j <= s.len(),
        byte_len(s.take(i)) == off,
    ensures
        chars_before(s.take(j), off) == Some(i as nat),
    decreases j,
{
    if i < j {
        lemma_byte_len_strict(s, i, j);
        assert(s.take(j).drop_last() =~= s.take(j - 1));
        lemma_chars_before_found(s, off, i, j - 1);
    }
}

proof fn lemma_chars_before_missing(s: Seq<char>, off: nat, j: int)
    requires
        0 <= j <= s.len(),
        forall|i: int| 0 <= i <= j ==> byte_len(#[trigger] s.take(i)) != off,
    ensures
        chars_before(s.take(j), off) is None,
    decreases j,
{
    assert(byte_len(s.take(j)) != off);
    if j > 0 {
        assert(s.take(j).drop_last() =~= s.take(j - 1));
        lemma_chars_before_missing(s, off, j - 1);
    }
}

/// Char index of byte offset `off` in `s`, if `off` is a char boundary.
fn char_index_of_byte(s: &str, off: usize) -> (r: Option<usize>)
    ensures
        r matches Some(k) ==> chars_before(s@, off as nat) == Some(k as nat),
        r is None ==> chars_before(s@, off as nat) is None,
{
    let ghost sv = s@;
    let total = byte_length(s);
    let mut pos: usize = 0;
    let mut idx: usize = 0;
    let mut found: Option<usize> = None;
    proof {
        lemma_byte_len_strict_or_eq(sv);
    }
    for c in it: s.chars()
        invariant
            it.seq() == sv,
            total == byte_len(sv),
            idx == it.index(),
            pos == byte_len(sv.take(idx as int)),
            idx <= pos,
            found matches Some(k) ==> k <= idx && byte_len(sv.take(k as int)) == off,
            found is None ==> forall|i: int| 0 <= i < idx ==> byte_len(#[trigger] sv.take(i)) != off,
            forall|i: int, j: int| 0 <= i < j <= sv.len() ==> byte_len(#[trigger] sv.take(i)) < byte_len(#[trigger] sv.take(j)),
    {
        if found.is_none() && pos == off {
            found = Some(idx);
        }
        proof {
            lemma_byte_len_step(sv, idx as int);
            assert(sv.take(sv.len() as int) =~= sv);
            if idx + 1 < sv.len() {
                lemma_byte_len_strict(sv, idx + 1, sv.len() as int);
            }
        }
        assert(idx < sv.len());
        pos = pos + char_utf8_len(c);
        idx = idx + 1;
    }
    assert(sv.take(sv.len() as int) =~= sv);
    if found.is_none() && pos == off {
        found = Some(idx);
    }
    proof {
        match found {
            Some(k) => {
                lemma_chars_before_found(sv, off as nat, k as int, sv.len() as int);
            },
            None => {
                lemma_chars_before_missing(sv, off as nat, sv.len() as int);
            },
        }
    }
    found
}

proof fn lemma_chars_before_some(s: Seq<char>, off: nat)
    requires
        chars_before(s, off) is Some,
    ensures
        chars_before(s, off)->0 <= s.len(),
        byte_len(s.take(chars_before(s, off)->0 as int)) == off,
    decreases s.len(),
{
    if byte_len(s) == off {
        assert(s.take(s.len() as int) =~= s);
    } else {
        lemma_chars_before_some(s.drop_last(), off);
        let k = chars_before(s, off)->0;
        assert(s.drop_last().take(k as int) =~= s.take(k as int));
    }
}

proof fn lemma_byte_len_strict_or_eq(s: Seq<char>)
    ensures
        forall|i: int, j: int| 0 <= i < j <= s.len() ==> byte_len(#[trigger] s.take(i)) < byte_len(#[trigger] s.take(j)),
{
    assert forall|i: int, j: int| 0 <= i < j <= s.len() implies byte_len(#[trigger] s.take(i)) < byte_len(#[trigger] s.take(j)) by {
        lemma_byte_len_strict(s, i, j);
    }
}

impl SourceSpan {
    pub fn new(start: SourcePos, end: SourcePos) -> (r: SourceSpan)
        ensures
            r == (SourceSpan { start, end }),
    {
        SourceSpan { start, end }
    }

    /// The part of this span that covers bytes `start..end` of `content`, the
    /// word text that this span covers; `None` unless both offsets are char
    /// boundaries of `content` with `start <= end` (and the new ends fit in `usize`).
    pub fn subspan(&self, content: &str, start: usize, end: usize) -> (r: Option<SourceSpan>)
        ensures
            r == spec_subspan(*self, content@, start as nat, end as nat),
    {
        let ks = char_index_of_byte(content, start);
        let ke = char_index_of_byte(content, end);
        match (ks, ke) {
            (Some(ks), Some(ke)) => {
                proof {
                    lemma_chars_before_some(content@, start as nat);
                    lemma_chars_before_some(content@, end as nat);
                    if ke < ks {
                        lemma_byte_len_strict(content@, ke as int, ks as int);
                    }
                }
                if start <= end && self.start.byte <= usize::MAX - end && self.start.column
                    <= usize::MAX - ke {
                    Some(
                        SourceSpan {
                            start: SourcePos {
                                byte: self.start.byte + start,
                                line: self.start.line,
                                column: self.start.column + ks,
                            },
                            end: SourcePos {
                                byte: self.start.byte + end,
                                line: self.start.line,
                                column: self.start.column + ke,
                            },
                        },
                    )
                } else {
                    None
                }
            },
            _ => None,
        }
    }
}

} // verus!
