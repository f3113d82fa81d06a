//! Where each rendered word sits on screen: its line, first column and width.
use vstd::prelude::*;
use crate::metrics::{str_cols, display_width};
use crate::nodes::root::Component;
use crate::nodes::textcomponent::{TextComponent, row_view, lemma_rows_view};
use crate::nodes::word::{Word, WordType, WordView};

verus! {

/// A word placed on screen: row `line`, columns `x .. x + w`.
pub struct Cell {
    pub line: int,
    pub x: int,
    pub w: int,
    pub word: WordView,
}

/// Columns by which a word moves the next word along its row: its display
/// width (as `display_width` gives it), cut to the 16 bits of a column.
pub open spec fn word_cols(v: WordView) -> nat {
    let d = if str_cols(v.text) <= usize::MAX {
        str_cols(v.text)
    } else {
        usize::MAX as nat
    };
    (d % 0x10000) as nat
}

/// Columns taken up by a row of words.
pub open spec fn row_cols(ws: Seq<WordView>) -> nat
    decreases ws.len(),
{
    if ws.len() == 0 {
        0
    } else {
        row_cols(ws.drop_last()) + word_cols(ws.last())
    }
}

/// The cells of a row on line `line`: each word starts where the previous one ends.
pub open spec fn row_cells(ws: Seq<WordView>, line: int) -> Seq<Cell> {
    Seq::new(
        ws.len(),
        |k: int| Cell { line, x: row_cols(ws.take(k)) as int, w: word_cols(ws[k]) as int, word: ws[k] },
    )
}

/// The cells of a block's rows, the first row being on line `y`: row `r` is
/// on line `y + r`, the row index cut to the 16 bits of a line.
pub open spec fn comp_cells(rows: Seq<Seq<WordView>>, y: u16) -> Seq<Cell>
    decreases rows.len(),
{
    if rows.len() == 0 {
        Seq::empty()
    } else {
        comp_cells(rows.drop_last(), y) + row_cells(rows.last(), row_line(y, rows.len() - 1))
    }
}

/// The line of row `r` of a block whose first row is on line `y`: `y + r`,
/// the row index cut to the 16 bits of a line.
pub open spec fn row_line(y: u16, r: int) -> int {
    y + (r as u16)
}

/// Whether a text block takes part: every block, or the visible ones only.
pub open spec fn takes_part(t: TextComponent, visible_only: bool) -> bool {
    !(visible_only && t.hidden)
}

/// The cells of the document's text blocks, in order.
pub open spec fn doc_cells(cs: Seq<Component>, visible_only: bool) -> Seq<Cell>
    decreases cs.len(),
{
    if cs.len() == 0 {
        Seq::empty()
    } else {
        doc_cells(cs.drop_last(), visible_only) + match cs.last() {
            Component::TextComponent(t) => if takes_part(t, visible_only) {
                comp_cells(t.rows(), t.y_offset)
            } else {
                Seq::empty()
            },
            Component::Image(_) => Seq::empty(),
        }
    }
}

/// The rows of a text block have lines and columns that fit in `u16`.
pub open spec fn coords_fit(t: TextComponent) -> bool {
    forall|r: int|
        #![trigger t.rows()[r]]
        #![trigger row_line(t.y_offset, r)]
        0 <= r < t.rows().len() ==> row_line(t.y_offset, r) <= u16::MAX && row_cols(t.rows()[r]) <= u16::MAX
}

/// Every taking-part text block has coordinates that fit in `u16`.
pub open spec fn doc_fits(cs: Seq<Component>, visible_only: bool) -> bool {
    forall|k: int|
        0 <= k < cs.len() ==> match #[trigger] cs[k] {
            Component::TextComponent(t) => takes_part(t, visible_only) ==> coords_fit(t),
            Component::Image(_) => true,
        }
}

/// The cells of a block's rows that lie on lines `lo ..= hi`.
pub open spec fn comp_cells_in(rows: Seq<Seq<WordView>>, y: u16, lo: int, hi: int) -> Seq<Cell>
    decreases rows.len(),
{
    if rows.len() == 0 {
        Seq::empty()
    } else {
        comp_cells_in(rows.drop_last(), y, lo, hi) + if lo <= row_line(y, rows.len() - 1) <= hi {
            row_cells(rows.last(), row_line(y, rows.len() - 1))
        } else {
            Seq::empty()
        }
    }
}

/// The cells of every text block (hidden ones too) that lie on lines `lo ..= hi`, in order.
pub open spec fn doc_cells_in(cs: Seq<Component>, lo: int, hi: int) -> Seq<Cell>
    decreases cs.len(),
{
    if cs.len() == 0 {
        Seq::empty()
    } else {
        doc_cells_in(cs.drop_last(), lo, hi) + match cs.last() {
            Component::TextComponent(t) => comp_cells_in(t.rows(), t.y_offset, lo, hi),
            Component::Image(_) => Seq::empty(),
        }
    }
}

/// Every row of a text block has its line within `u16`, and the rows on lines
/// `lo ..= hi` have their columns within `u16`.
pub open spec fn coords_fit_in(t: TextComponent, lo: int, hi: int) -> bool {
    forall|r: int|
        #![trigger t.rows()[r]]
        #![trigger row_line(t.y_offset, r)]
        0 <= r < t.rows().len() ==> row_line(t.y_offset, r) <= u16::MAX && (lo <= row_line(t.y_offset, r) <= hi
            ==> row_cols(t.rows()[r]) <= u16::MAX)
}

/// `coords_fit_in` holds of every text block (hidden ones too).
pub open spec fn doc_fits_in(cs: Seq<Component>, lo: int, hi: int) -> bool {
    forall|k: int|
        0 <= k < cs.len() ==> match #[trigger] cs[k] {
            Component::TextComponent(t) => coords_fit_in(t, lo, hi),
            Component::Image(_) => true,
        }
}

/// A word placed on screen, in executable form.
pub struct CellRef<'a> {
    pub line: u16,
    pub x: u16,
    pub w: u16,
    pub word: &'a Word,
}

/// Every placed word ends within the `u16` columns.
pub open spec fn ends_fit(cs: Seq<CellRef>) -> bool {
    forall|k: int| 0 <= k < cs.len() ==> #[trigger] cs[k].x + cs[k].w <= u16::MAX
}

/// The abstract value of a placed word.
pub open spec fn cell_of(c: CellRef) -> Cell {
    Cell { line: c.line as int, x: c.x as int, w: c.w as int, word: c.word@ }
}

/// The abstract values of placed words.
pub open spec fn cells_of(cs: Seq<CellRef>) -> Seq<Cell> {
    cs.map_values(|c: CellRef| cell_of(c))
}

pub proof fn lemma_row_cols_step(ws: Seq<WordView>, k: int)
    requires
        0 <= k < ws.len(),
    ensures
        row_cols(ws.take(k + 1)) == row_cols(ws.take(k)) + word_cols(ws[k]),
{
    assert(ws.take(k + 1).drop_last() =~= ws.take(k));
}

pub proof fn lemma_row_cols_mono(ws: Seq<WordView>, i: int, j: int)
    requires
        0 <= i <= j <= ws.len(),
    ensures
        row_cols(ws.take(i)) <= row_cols(ws.take(j)),
    decreases j - i,
{
    if i < j {
        lemma_row_cols_step(ws, j - 1);
        lemma_row_cols_mono(ws, i, j - 1);
    }
}

/// `display_width` of a word's text, cut to the 16 bits of a column.
pub(crate) fn column_width(s: &str) -> (w: u16)
    ensures
        w as nat == word_cols(WordView { text: s@, kind: WordType::Normal, previous: WordType::Normal, source: None }),
{
    let d = display_width(s);
    let w = d as u16;
    assert((d as u16) == d % 0x10000) by (bit_vector);
    w
}

/// Whether a row's words take up at most `u16::MAX` columns.
fn row_fits(row: &Vec<Word>) -> (b: bool)
    ensures
        b == (row_cols(row_view(*row)) <= u16::MAX),
{
    let ghost ws = row_view(*row);
    let mut acc: usize = 0;
    let mut c: usize = 0;
    while c < row.len()
        invariant
            ws == row_view(*row),
            c <= ws.len(),
            acc == row_cols(ws.take(c as int)),
            acc <= u16::MAX,
        decreases ws.len() - c,
    {
        proof {
            assert(ws[c as int] == row@[c as int]@);
            lemma_row_cols_step(ws, c as int);
            lemma_row_cols_mono(ws, c as int + 1, ws.len() as int);
            assert(ws.take(ws.len() as int) =~= ws);
        }
        let w = column_width(row[c].content.as_str());
        if w as usize > 65535 - acc {
            return false;
        }
        acc = acc + w as usize;
        c = c + 1;
    }
    proof {
        assert(ws.take(ws.len() as int) =~= ws);
    }
    true
}

/// Whether a text block's lines and columns fit in `u16`.
fn comp_fits(t: &TextComponent) -> (b: bool)
    ensures
        b == coords_fit(*t),
{
    let ghost rows = t.rows();
    proof {
        lemma_rows_view(t.content@);
    }
    let mut r: usize = 0;
    while r < t.content.len()
        invariant
            rows == t.rows(),
            rows.len() == t.content@.len(),
            forall|k: int| 0 <= k < rows.len() ==> #[trigger] rows[k] == row_view(t.content@[k]),
            r <= rows.len(),
            forall|k: int| 0 <= k < r ==> #[trigger] row_line(t.y_offset, k) <= u16::MAX,
            forall|k: int| 0 <= k < r ==> row_cols(#[trigger] rows[k]) <= u16::MAX,
        decreases rows.len() - r,
    {
        proof {
            assert(rows[r as int] == row_view(t.content@[r as int]));
        }
        let line = t.y_offset as usize + r as u16 as usize;
        assert(line == row_line(t.y_offset, r as int));
        if line > 65535 {
            return false;
        }
        if !row_fits(&t.content[r]) {
            assert(!(row_cols(rows[r as int]) <= u16::MAX));
            return false;
        }
        assert(row_line(t.y_offset, r as int) <= u16::MAX);
        r = r + 1;
    }
    true
}

/// Whether `doc_fits` holds: the taking-part text blocks have lines and
/// columns that fit in `u16`.
pub fn doc_fits_check(comps: &Vec<Component>, visible_only: bool) -> (b: bool)
    ensures
        b == doc_fits(comps@, visible_only),
{
    let mut i: usize = 0;
    while i < comps.len()
        invariant
            i <= comps@.len(),
            forall|k: int|
                0 <= k < i ==> match #[trigger] comps@[k] {
                    Component::TextComponent(t) => takes_part(t, visible_only) ==> coords_fit(t),
                    Component::Image(_) => true,
                },
        decreases comps@.len() - i,
    {
        match &comps[i] {
            Component::TextComponent(t) => {
                if !(visible_only && t.hidden) && !comp_fits(t) {
                    return false;
                }
            },
            Component::Image(_) => {},
        }
        i = i + 1;
    }
    true
}

/// Appends the cells of one row (on line `line`).
fn push_row_cells<'a>(row: &'a Vec<Word>, line: u16, out: &mut Vec<CellRef<'a>>)
    requires
        row_cols(row_view(*row)) <= u16::MAX,
        ends_fit(old(out)@),
    ensures
        cells_of(final(out)@) == cells_of(old(out)@) + row_cells(row_view(*row), line as int),
        ends_fit(final(out)@),
{
    let ghost ws = row_view(*row);
    let ghost base = cells_of(out@);
    let mut x: u16 = 0;
    let mut c: usize = 0;
    proof {
        assert(base + row_cells(ws, line as int).take(0) =~= base);
    }
    while c < row.len()
        invariant
            ws == row_view(*row),
            row_cols(ws) <= u16::MAX,
            c <= ws.len(),
            x == row_cols(ws.take(c as int)),
            cells_of(out@) == base + row_cells(ws, line as int).take(c as int),
            ends_fit(out@),
        decreases ws.len() - c,
    {
        proof {
            assert(ws[c as int] == row@[c as int]@);
            lemma_row_cols_step(ws, c as int);
            lemma_row_cols_mono(ws, c as int + 1, ws.len() as int);
            assert(ws.take(ws.len() as int) =~= ws);
        }
        let w = column_width(row[c].content.as_str());
        let ghost prev = out@;
        out.push(CellRef { line, x, w, word: &row[c] });
        proof {
            assert(cells_of(out@) =~= cells_of(prev).push(cell_of(out@.last())));
            assert(row_cells(ws, line as int).take(c as int + 1) =~= row_cells(ws, line as int).take(
                c as int,
            ).push(row_cells(ws, line as int)[c as int]));
        }
        x = x + w;
        c = c + 1;
    }
    proof {
        assert(row_cells(ws, line as int).take(ws.len() as int) =~= row_cells(ws, line as int));
    }
}

/// Appends the cells of a text block.
fn push_comp_cells<'a>(t: &'a TextComponent, out: &mut Vec<CellRef<'a>>)
    requires
        coords_fit(*t),
        ends_fit(old(out)@),
    ensures
        cells_of(final(out)@) == cells_of(old(out)@) + comp_cells(t.rows(), t.y_offset),
        ends_fit(final(out)@),
{
    let ghost rows = t.rows();
    let ghost base = cells_of(out@);
    let y = t.y_offset;
    let mut r: usize = 0;
    proof {
        assert(base + comp_cells(rows.take(0), y) =~= base);
    }
    while r < t.content.len()
        invariant
            rows == t.rows(),
            coords_fit(*t),
            y == t.y_offset,
            r <= rows.len(),
            cells_of(out@) == base + comp_cells(rows.take(r as int), y),
            ends_fit(out@),
        decreases rows.len() - r,
    {
        proof {
            lemma_rows_view(t.content@);
            assert(rows.take(r as int + 1).drop_last() =~= rows.take(r as int));
            assert(row_view(t.content@[r as int]) == rows[r as int]);
            assert(row_cols(rows[r as int]) <= u16::MAX);
            assert(row_line(y, r as int) <= u16::MAX);
        }
        let line = y + r as u16;
        assert(line == row_line(y, r as int));
        push_row_cells(&t.content[r], line, out);
        proof {
            assert(cells_of(out@) =~= base + comp_cells(rows.take(r as int + 1), y));
        }
        r = r + 1;
    }
    proof {
        assert(rows.take(rows.len() as int) =~= rows);
    }
}

/// The placed words of the text blocks of `comps` (of the visible ones only
/// when `visible_only`), in document order.
pub fn doc_cell_refs<'a>(comps: &'a Vec<Component>, visible_only: bool) -> (out: Vec<CellRef<'a>>)
    requires
        doc_fits(comps@, visible_only),
    ensures
        cells_of(out@) == doc_cells(comps@, visible_only),
        ends_fit(out@),
{
    let ghost cs = comps@;
    let mut out: Vec<CellRef<'a>> = Vec::new();
    let mut i: usize = 0;
    proof {
        assert(cells_of(out@) =~= doc_cells(cs.take(0), visible_only));
    }
    while i < comps.len()
        invariant
            cs == comps@,
            doc_fits(cs, visible_only),
            i <= cs.len(),
            cells_of(out@) == doc_cells(cs.take(i as int), visible_only),
            ends_fit(out@),
        decreases cs.len() - i,
    {
        proof {
            assert(cs.take(i as int + 1).drop_last() =~= cs.take(i as int));
        }
        match &comps[i] {
            Component::TextComponent(t) => {
                if !(visible_only && t.hidden) {
                    push_comp_cells(t, &mut out);
                } else {
                    proof {
                        assert(doc_cells(cs.take(i as int + 1), visible_only) =~= doc_cells(cs.take(i as int), visible_only));
                    }
                }
            },
            Component::Image(_) => {
                proof {
                    assert(doc_cells(cs.take(i as int + 1), visible_only) =~= doc_cells(cs.take(i as int), visible_only));
                }
            },
        }
        i = i + 1;
    }
    proof {
        assert(cs.take(cs.len() as int) =~= cs);
    }
    out
}


/// Whether `coords_fit_in` holds of a text block.
fn comp_fits_in(t: &TextComponent, lo: u16, hi: u16) -> (b: bool)
    ensures
        b == coords_fit_in(*t, lo as int, hi as int),
{
    let ghost rows = t.rows();
    proof {
        lemma_rows_view(t.content@);
    }
    let mut r: usize = 0;
    while r < t.content.len()
        invariant
            rows == t.rows(),
            rows.len() == t.content@.len(),
            forall|k: int| 0 <= k < rows.len() ==> #[trigger] rows[k] == row_view(t.content@[k]),
            r <= rows.len(),
            forall|k: int| 0 <= k < r ==> #[trigger] row_line(t.y_offset, k) <= u16::MAX,
            forall|k: int|
                0 <= k < r ==> (lo <= row_line(t.y_offset, k) <= hi ==> row_cols(#[trigger] rows[k]) <= u16::MAX),
        decreases rows.len() - r,
    {
        proof {
            assert(rows[r as int] == row_view(t.content@[r as int]));
        }
        let line = t.y_offset as usize + r as u16 as usize;
        assert(line == row_line(t.y_offset, r as int));
        if line > 65535 {
            return false;
        }
        if lo as usize <= line && line <= hi as usize && !row_fits(&t.content[r]) {
            assert(!(row_cols(rows[r as int]) <= u16::MAX));
            return false;
        }
        assert(row_line(t.y_offset, r as int) <= u16::MAX);
        r = r + 1;
    }
    true
}

/// Whether `doc_fits_in` holds.
pub fn doc_fits_in_check(comps: &Vec<Component>, lo: u16, hi: u16) -> (b: bool)
    ensures
        b == doc_fits_in(comps@, lo as int, hi as int),
{
    let mut i: usize = 0;
    while i < comps.len()
        invariant
            i <= comps@.len(),
            forall|k: int|
                0 <= k < i ==> match #[trigger] comps@[k] {
                    Component::TextComponent(t) => coords_fit_in(t, lo as int, hi as int),
                    Component::Image(_) => true,
                },
        decreases comps@.len() - i,
    {
        match &comps[i] {
            Component::TextComponent(t) => {
                if !comp_fits_in(t, lo, hi) {
                    return false;
                }
            },
            Component::Image(_) => {},
        }
        i = i + 1;
    }
    true
}

/// Appends the cells of a text block's rows on lines `lo ..= hi`.
fn push_comp_cells_in<'a>(t: &'a TextComponent, lo: u16, hi: u16, out: &mut Vec<CellRef<'a>>)
    requires
        coords_fit_in(*t, lo as int, hi as int),
        ends_fit(old(out)@),
    ensures
        cells_of(final(out)@) == cells_of(old(out)@) + comp_cells_in(t.rows(), t.y_offset, lo as int, hi as int),
        ends_fit(final(out)@),
{
    let ghost rows = t.rows();
    let ghost base = cells_of(out@);
    let y = t.y_offset;
    let mut r: usize = 0;
    proof {
        assert(base + comp_cells_in(rows.take(0), y, lo as int, hi as int) =~= base);
    }
    while r < t.content.len()
        invariant
            rows == t.rows(),
            coords_fit_in(*t, lo as int, hi as int),
            y == t.y_offset,
            r <= rows.len(),
            cells_of(out@) == base + comp_cells_in(rows.take(r as int), y, lo as int, hi as int),
            ends_fit(out@),
        decreases rows.len() - r,
    {
        proof {
            lemma_rows_view(t.content@);
            assert(rows.take(r as int + 1).drop_last() =~= rows.take(r as int));
            assert(row_view(t.content@[r as int]) == rows[r as int]);
            assert(row_line(y, r as int) <= u16::MAX);
        }
        let line = y + r as u16;
        assert(line == row_line(y, r as int));
        if lo <= line && line <= hi {
            proof {
                assert(row_cols(rows[r as int]) <= u16::MAX);
            }
            push_row_cells(&t.content[r], line, out);
            proof {
                assert(cells_of(out@) =~= base + comp_cells_in(rows.take(r as int + 1), y, lo as int, hi as int));
            }
        } else {
            proof {
                assert(comp_cells_in(rows.take(r as int + 1), y, lo as int, hi as int) =~= comp_cells_in(
                    rows.take(r as int),
                    y,
                    lo as int,
                    hi as int,
                ));
            }
        }
        r = r + 1;
    }
    proof {
        assert(rows.take(rows.len() as int) =~= rows);
    }
}

/// The placed words of every text block (hidden ones too) on lines `lo ..= hi`,
/// in document order.
pub fn doc_cell_refs_in<'a>(comps: &'a Vec<Component>, lo: u16, hi: u16) -> (out: Vec<CellRef<'a>>)
    requires
        doc_fits_in(comps@, lo as int, hi as int),
    ensures
        cells_of(out@) == doc_cells_in(comps@, lo as int, hi as int),
        ends_fit(out@),
{
    let ghost cs = comps@;
    let mut out: Vec<CellRef<'a>> = Vec::new();
    let mut i: usize = 0;
    proof {
        assert(cells_of(out@) =~= doc_cells_in(cs.take(0), lo as int, hi as int));
    }
    while i < comps.len()
        invariant
            cs == comps@,
            doc_fits_in(cs, lo as int, hi as int),
            i <= cs.len(),
            cells_of(out@) == doc_cells_in(cs.take(i as int), lo as int, hi as int),
            ends_fit(out@),
        decreases cs.len() - i,
    {
        proof {
            assert(cs.take(i as int + 1).drop_last() =~= cs.take(i as int));
        }
        match &comps[i] {
            Component::TextComponent(t) => {
                push_comp_cells_in(t, lo, hi, &mut out);
            },
            Component::Image(_) => {
                proof {
                    assert(doc_cells_in(cs.take(i as int + 1), lo as int, hi as int) =~= doc_cells_in(
                        cs.take(i as int),
                        lo as int,
                        hi as int,
                    ));
                }
            },
        }
        i = i + 1;
    }
    proof {
        assert(cs.take(cs.len() as int) =~= cs);
    }
    out
}

} // verus!
