//! Display columns and UTF-8 byte lengths of text.
use vstd::prelude::*;
use vstd::utf8::*;
use unicode_width::UnicodeWidthChar;

verus! {

broadcast use vstd::string::group_string_axioms;

/// The column count that `unicode_width::UnicodeWidthChar::width` gives a char
/// (`None` for control characters).
pub uninterp spec fn unicode_char_width(c: char) -> Option<usize>;

/// Calls `unicode_width::UnicodeWidthChar::width`.
///
/// Claimed of it: the result is the named `unicode_char_width(c)`; printable
/// ASCII (U+0020..U+007E) is one column wide, and the C0 and C1 control codes
/// (below U+0020, and U+007F..U+009F) have no width (`None`), as the crate's
/// `single_char_width` shows. Nothing is claimed of the width table for other chars.
#[verifier::external_body]
fn unicode_width_of(c: char) -> (w: Option<usize>)
    ensures
        w == unicode_char_width(c),
        0x20 <= (c as u32) < 0x7F ==> w == Some(1usize),
        (c as u32) < 0x20 || (0x7F <= (c as u32) < 0xA0) ==> w is None,
{
    UnicodeWidthChar::width(c)
}

/// Terminal columns taken by one char: its Unicode width, 0 for control chars.
pub open spec fn char_cols(c: char) -> nat {
    match unicode_char_width(c) {
        Some(w) => w as nat,
        None => 0,
    }
}

/// Terminal columns taken by a char sequence: the sum of its chars' columns.
pub open spec fn str_cols(s: Seq<char>) -> nat
    decreases s.len(),
{
    if s.len() == 0 {
        0
    } else {
        str_cols(s.drop_last()) + char_cols(s.last())
    }
}

/// Bytes of a char in UTF-8.
pub open spec fn utf8_len(c: char) -> nat {
    if (c as u32) < 0x80 {
        1
    } else if (c as u32) < 0x800 {
        2
    } else if (c as u32) < 0x10000 {
        3
    } else {
        4
    }
}

/// Bytes of a char sequence in UTF-8.
pub open spec fn byte_len(s: Seq<char>) -> nat
    decreases s.len(),
{
    if s.len() == 0 {
        0
    } else {
        byte_len(s.drop_last()) + utf8_len(s.last())
    }
}

/// The longest prefix (in chars) of `s` whose columns do not exceed `w`.
pub open spec fn fit_len(s: Seq<char>, w: nat) -> nat
    decreases s.len(),
{
    if s.len() == 0 || str_cols(s) <= w {
        s.len()
    } else {
        fit_len(s.drop_last(), w)
    }
}

pub proof fn lemma_str_cols_step(s: Seq<char>, i: int)
    requires
        0 <= i < s.len(),
    ensures
        str_cols(s.take(i + 1)) == str_cols(s.take(i)) + char_cols(s[i]),
{
    assert(s.take(i + 1).drop_last() =~= s.take(i));
}

pub proof fn lemma_byte_len_step(s: Seq<char>, i: int)
    requires
        0 <= i < s.len(),
    ensures
        byte_len(s.take(i + 1)) == byte_len(s.take(i)) + utf8_len(s[i]),
{
    assert(s.take(i + 1).drop_last() =~= s.take(i));
}

pub proof fn lemma_str_cols_mono(s: Seq<char>, i: int, j: int)
    requires
        0 <= i <= j <= s.len(),
    ensures
        str_cols(s.take(i)) <= str_cols(s.take(j)),
    decreases j - i,
{
    if i < j {
        lemma_str_cols_step(s, j - 1);
        lemma_str_cols_mono(s, i, j - 1);
    }
}

pub proof fn lemma_byte_len_mono(s: Seq<char>, i: int, j: int)
    requires
        0 <= i <= j <= s.len(),
    ensures
        byte_len(s.take(i)) <= byte_len(s.take(j)),
    decreases j - i,
{
    if i < j {
        lemma_byte_len_step(s, j - 1);
        lemma_byte_len_mono(s, i, j - 1);
    }
}

proof fn lemma_byte_len_first(s: Seq<char>)
    requires
        s.len() > 0,
    ensures
        byte_len(s) == utf8_len(s[0]) + byte_len(s.drop_first()),
    decreases s.len(),
{
    if s.len() > 1 {
        lemma_byte_len_first(s.drop_last());
        assert(s.drop_last().drop_first() =~= s.drop_first().drop_last());
        assert(s.drop_last()[0] == s[0]);
        assert(s.drop_first().last() == s.last());
        assert(byte_len(s) == byte_len(s.drop_last()) + utf8_len(s.last()));
        assert(byte_len(s.drop_first()) == byte_len(s.drop_first().drop_last()) + utf8_len(
            s.drop_first().last(),
        ));
    } else {
        assert(byte_len(s.drop_first()) == 0);
        assert(byte_len(s.drop_last()) == 0);
        assert(s.last() == s[0]);
    }
}

/// The UTF-8 encoding of a char sequence has `byte_len` bytes.
pub proof fn lemma_byte_len_encoding(s: Seq<char>)
    ensures
        byte_len(s) == encode_utf8(s).len(),
    decreases s.len(),
{
    if s.len() > 0 {
        lemma_byte_len_first(s);
        lemma_byte_len_encoding(s.drop_first());
        char_is_scalar(s[0]);
        let v = s[0] as u32;
        assert(encode_scalar(v).len() == utf8_len(s[0]));
    }
}

proof fn lemma_fit_len_at(s: Seq<char>, w: nat, i: int, j: int)
    requires
        0 <= i <= j <= s.len(),
        str_cols(s.take(i)) <= w,
        i < j ==> str_cols(s.take(i + 1)) > w,
    ensures
        fit_len(s.take(j), w) == i,
    decreases j,
{
    if i < j {
        lemma_str_cols_mono(s, i + 1, j);
        assert(s.take(j).drop_last() =~= s.take(j - 1));
        lemma_fit_len_at(s, w, i, j - 1);
    } else {
        assert(s.take(j).len() == j);
    }
}

/// Columns of one char: one for printable ASCII, none for control codes.
pub fn char_width(c: char) -> (w: usize)
    ensures
        w == char_cols(c),
        0x20 <= (c as u32) < 0x7F ==> w == 1,
        (c as u32) < 0x20 || (0x7F <= (c as u32) < 0xA0) ==> w == 0,
{
    match unicode_width_of(c) {
        Some(w) => w,
        None => 0,
    }
}

/// Bytes of one char in UTF-8.
pub fn char_utf8_len(c: char) -> (n: usize)
    ensures
        n == utf8_len(c),
{
    let v = c as u32;
    if v < 0x80 {
        1
    } else if v < 0x800 {
        2
    } else if v < 0x10000 {
        3
    } else {
        4
    }
}

/// Byte length of a string.
pub fn byte_length(s: &str) -> (n: usize)
    ensures
        n == byte_len(s@),
{
    proof {
        lemma_byte_len_encoding(s@);
    }
    s.as_bytes().len()
}

/// Display columns of a string: the sum of its chars' columns (saturating at `usize::MAX`).
pub fn display_width(s: &str) -> (w: usize)
    ensures
        w as nat == if str_cols(s@) <= usize::MAX { str_cols(s@) } else { usize::MAX as nat },
{
    let ghost sv = s@;
    let mut acc: usize = 0;
    for c in it: s.chars()
        invariant
            it.seq() == sv,
            acc as nat == if str_cols(sv.take(it.index())) <= usize::MAX {
                str_cols(sv.take(it.index()))
            } else {
                usize::MAX as nat
            },
    {
        proof {
            lemma_str_cols_step(sv, it.index());
        }
        let cw = char_width(c);
        if acc > usize::MAX - cw {
            acc = usize::MAX;
        } else {
            acc = acc + cw;
        }
    }
    assert(sv.take(sv.len() as int) =~= sv);
    acc
}

/// Byte offset into `s` of the end of its longest prefix that fits in `width` columns.
pub fn byte_offset_at_width(s: &str, width: usize) -> (off: usize)
    ensures
        off == byte_len(s@.take(fit_len(s@, width as nat) as int)),
{
    let ghost sv = s@;
    let total = byte_length(s);
    let mut cols: usize = 0;
    let mut off: usize = 0;
    let mut done = false;
    let ghost mut stop: int = 0;
    for c in it: s.chars()
        invariant
            it.seq() == sv,
            total == byte_len(sv),
            0 <= stop <= it.index(),
            !done ==> stop == it.index(),
            cols == str_cols(sv.take(stop)),
            cols <= width,
            off == byte_len(sv.take(stop)),
            done ==> stop < sv.len() && str_cols(sv.take(stop + 1)) > width,
    {
        if !done {
            proof {
                lemma_str_cols_step(sv, it.index());
                lemma_byte_len_step(sv, it.index());
                lemma_byte_len_mono(sv, it.index() + 1, sv.len() as int);
                assert(sv.take(sv.len() as int) =~= sv);
            }
            let cw = char_width(c);
            if cw > width - cols {
                done = true;
            } else {
                cols = cols + cw;
                off = off + char_utf8_len(c);
                proof {
                    stop = stop + 1;
                }
            }
        }
    }
    proof {
        assert(sv.take(sv.len() as int) =~= sv);
        lemma_fit_len_at(sv, width as nat, stop, sv.len() as int);
    }
    off
}

} // verus!
