//! Links under the caret, and the two-way mapping between rendered cells and
//! source spans that comments are anchored by.
use vstd::prelude::*;
use crate::nodes::layout::{
    Cell, CellRef, cell_of, cells_of, doc_cells, doc_fits, doc_cell_refs, ends_fit, row_cells, comp_cells,
    takes_part, coords_fit, row_line, doc_cells_in, doc_fits_in, doc_cell_refs_in, word_cols, row_cols,
    column_width, lemma_row_cols_step,
};
use crate::nodes::root::{Component, link_ys, row_link_ys, links_sum};
use crate::nodes::textcomponent::{count_links, flat, row_view, lemma_rows_view, lemma_count_links_concat};
use crate::nodes::word::{WordView, is_link_kind, link_kind};
use crate::util::Caret;
use crate::comments::{Comment, RenderedRange};
use crate::parser::{SourcePos, SourceSpan, spec_subspan};
use crate::metrics::{byte_len, fit_len, byte_offset_at_width, byte_length};

verus! {

/// The link cells among `cells`, in order.
pub open spec fn link_cells(cells: Seq<Cell>) -> Seq<Cell>
    decreases cells.len(),
{
    if cells.len() == 0 {
        Seq::empty()
    } else {
        link_cells(cells.drop_last()) + if is_link_kind(cells.last().word.kind) {
            seq![cells.last()]
        } else {
            Seq::empty()
        }
    }
}

/// Index of the first cell of `ls` that satisfies `p`.
pub open spec fn first_index(ls: Seq<Cell>, p: spec_fn(Cell) -> bool) -> Option<nat>
    decreases ls.len(),
{
    if ls.len() == 0 {
        None
    } else {
        match first_index(ls.drop_last(), p) {
            Some(k) => Some(k),
            None => if p(ls.last()) {
                Some((ls.len() - 1) as nat)
            } else {
                None
            },
        }
    }
}

/// The cell is on the caret's line and its columns contain the caret's column.
pub open spec fn covers(c: Cell, caret: Caret) -> bool {
    c.line == caret.line && c.x <= caret.col < c.x + c.w
}

/// The link ordinal under `caret` among the visible blocks of `cs`: the first
/// link whose cells contain the caret, else the first link on the caret's line.
pub open spec fn link_at_caret(cs: Seq<Component>, caret: Caret) -> Option<nat> {
    let ls = link_cells(doc_cells(cs, true));
    match first_index(ls, |c: Cell| covers(c, caret)) {
        Some(k) => Some(k),
        None => first_index(ls, |c: Cell| c.line == caret.line),
    }
}

pub proof fn lemma_link_cells_concat(a: Seq<Cell>, b: Seq<Cell>)
    ensures
        link_cells(a + b) == link_cells(a) + link_cells(b),
    decreases b.len(),
{
    if b.len() == 0 {
        assert(a + b =~= a);
        assert(link_cells(a) + link_cells(b) =~= link_cells(a));
    } else {
        assert((a + b).drop_last() =~= a + b.drop_last());
        lemma_link_cells_concat(a, b.drop_last());
        assert(link_cells(a + b) =~= link_cells(a) + link_cells(b));
    }
}

pub proof fn lemma_first_index_concat(a: Seq<Cell>, b: Seq<Cell>, p: spec_fn(Cell) -> bool)
    requires
        first_index(a, p) is Some,
    ensures
        first_index(a + b, p) == first_index(a, p),
    decreases b.len(),
{
    if b.len() == 0 {
        assert(a + b =~= a);
    } else {
        assert((a + b).drop_last() =~= a + b.drop_last());
        lemma_first_index_concat(a, b.drop_last(), p);
    }
}

pub proof fn lemma_first_index_bound(ls: Seq<Cell>, p: spec_fn(Cell) -> bool)
    ensures
        first_index(ls, p) matches Some(k) ==> k < ls.len() && p(ls[k as int]),
    decreases ls.len(),
{
    if ls.len() > 0 {
        lemma_first_index_bound(ls.drop_last(), p);
    }
}

/// A link whose cells contain the caret.
pub open spec fn covering_link(c: Cell, caret: Caret) -> bool {
    is_link_kind(c.word.kind) && covers(c, caret)
}

/// Position, among the cells of the visible blocks, of the first link under the caret.
pub open spec fn hit_at(cs: Seq<Component>, caret: Caret) -> Option<nat> {
    first_index(doc_cells(cs, true), |c: Cell| covering_link(c, caret))
}

/// The cell at position `g` comes no later than the first link under the caret.
pub open spec fn before_hit(cs: Seq<Component>, caret: Caret, g: int) -> bool {
    match hit_at(cs, caret) {
        Some(h) => g <= h,
        None => true,
    }
}

/// Row `r` of block `i`, where a search from the top for the link under
/// `caret` reaches it, has its line within `u16`, and each of its words that
/// the search reaches ends within the `u16` columns.
pub open spec fn row_scan_fits(cs: Seq<Component>, caret: Caret, i: int, r: int) -> bool {
    match cs[i] {
        Component::TextComponent(t) => (!t.hidden && 0 <= r < t.rows().len()) ==> {
            let g0 = (doc_cells(cs.take(i), true).len() + comp_cells(t.rows().take(r), t.y_offset).len()) as int;
            let ws = t.rows()[r];
            &&& before_hit(cs, caret, g0) ==> row_line(t.y_offset, r) <= u16::MAX
            &&& forall|c: int|
                0 <= c < ws.len() && before_hit(cs, caret, g0 + c) ==> row_cols(ws.take(c)) + word_cols(
                    #[trigger] ws[c],
                ) <= u16::MAX
        },
        Component::Image(_) => true,
    }
}

/// Every row and word that a search from the top for the link under `caret`
/// reaches has its line and columns within `u16`.
pub open spec fn caret_scan_fits(cs: Seq<Component>, caret: Caret) -> bool {
    forall|i: int, r: int| 0 <= i < cs.len() ==> #[trigger] row_scan_fits(cs, caret, i, r)
}

proof fn lemma_first_index_after(a: Seq<Cell>, b: Seq<Cell>, p: spec_fn(Cell) -> bool)
    requires
        first_index(a, p) is None,
    ensures
        first_index(a + b, p) matches Some(h) ==> h >= a.len(),
    decreases b.len(),
{
    if b.len() == 0 {
        assert(a + b =~= a);
    } else {
        assert((a + b).drop_last() =~= a + b.drop_last());
        lemma_first_index_after(a, b.drop_last(), p);
    }
}

proof fn lemma_doc_cells_prefix(cs: Seq<Component>, i: int, v: bool)
    requires
        0 <= i <= cs.len(),
    ensures
        doc_cells(cs.take(i), v).len() <= doc_cells(cs, v).len(),
        doc_cells(cs, v).take(doc_cells(cs.take(i), v).len() as int) == doc_cells(cs.take(i), v),
    decreases cs.len() - i,
{
    if i < cs.len() {
        lemma_doc_cells_prefix(cs, i + 1, v);
        assert(cs.take(i + 1).drop_last() =~= cs.take(i));
        let a = doc_cells(cs.take(i), v);
        let b = doc_cells(cs.take(i + 1), v);
        assert(b.take(a.len() as int) =~= a);
        assert(doc_cells(cs, v).take(a.len() as int) =~= b.take(a.len() as int));
    } else {
        assert(cs.take(i) =~= cs);
        assert(doc_cells(cs, v).take(doc_cells(cs, v).len() as int) =~= doc_cells(cs, v));
    }
}

proof fn lemma_comp_cells_prefix(rows: Seq<Seq<WordView>>, y: u16, r: int)
    requires
        0 <= r <= rows.len(),
    ensures
        comp_cells(rows.take(r), y).len() <= comp_cells(rows, y).len(),
        comp_cells(rows, y).take(comp_cells(rows.take(r), y).len() as int) == comp_cells(rows.take(r), y),
    decreases rows.len() - r,
{
    if r < rows.len() {
        lemma_comp_cells_prefix(rows, y, r + 1);
        assert(rows.take(r + 1).drop_last() =~= rows.take(r));
        let a = comp_cells(rows.take(r), y);
        let b = comp_cells(rows.take(r + 1), y);
        assert(b.take(a.len() as int) =~= a);
        assert(comp_cells(rows, y).take(a.len() as int) =~= b.take(a.len() as int));
    } else {
        assert(rows.take(r) =~= rows);
        assert(comp_cells(rows, y).take(comp_cells(rows, y).len() as int) =~= comp_cells(rows, y));
    }
}

/// The cells seen by the search at row `r`, word `c` of visible text block `i`
/// are the first cells of the document.
proof fn lemma_seen_prefix(cs: Seq<Component>, i: int, r: int, c: int)
    requires
        0 <= i < cs.len(),
        cs[i] matches Component::TextComponent(t) && !t.hidden && 0 <= r < t.rows().len() && 0 <= c
            <= t.rows()[r].len(),
    ensures
        ({
            let t = cs[i]->TextComponent_0;
            let seen = doc_cells(cs.take(i), true) + comp_cells(t.rows().take(r), t.y_offset) + row_cells(
                t.rows()[r],
                row_line(t.y_offset, r),
            ).take(c);
            &&& seen.len() <= doc_cells(cs, true).len()
            &&& doc_cells(cs, true).take(seen.len() as int) == seen
        }),
{
    let t = cs[i]->TextComponent_0;
    let rows = t.rows();
    let y = t.y_offset;
    let d = doc_cells(cs.take(i), true);
    let rc = row_cells(rows[r], row_line(y, r));
    let seen = d + comp_cells(rows.take(r), y) + rc.take(c);
    lemma_doc_cells_prefix(cs, i + 1, true);
    assert(cs.take(i + 1).drop_last() =~= cs.take(i));
    assert(cs.take(i + 1).last() == cs[i]);
    assert(doc_cells(cs.take(i + 1), true) == d + comp_cells(rows, y));
    lemma_comp_cells_prefix(rows, y, r + 1);
    assert(rows.take(r + 1).drop_last() =~= rows.take(r));
    assert(rows.take(r + 1).last() == rows[r]);
    assert(comp_cells(rows.take(r + 1), y) == comp_cells(rows.take(r), y) + rc);
    let full = doc_cells(cs, true);
    let c1 = comp_cells(rows.take(r + 1), y);
    let big = d + comp_cells(rows, y);
    assert(d + c1 =~= big.take((d.len() + c1.len()) as int));
    assert(seen =~= (d + c1).take(seen.len() as int));
    assert(full.take(big.len() as int) == big);
    assert(full.take(seen.len() as int) =~= big.take(seen.len() as int));
}

proof fn lemma_comp_link_cells_len(rows: Seq<Seq<WordView>>, y: u16)
    ensures
        link_cells(comp_cells(rows, y)).len() == count_links(flat(rows)),
    decreases rows.len(),
{
    if rows.len() > 0 {
        lemma_comp_link_cells_len(rows.drop_last(), y);
        lemma_link_cells_concat(comp_cells(rows.drop_last(), y), row_cells(rows.last(), row_line(y, rows.len() - 1)));
        lemma_row_link_cells(rows.last(), row_line(y, rows.len() - 1));
        lemma_count_links_concat(flat(rows.drop_last()), rows.last());
    }
}

/// The visible blocks have as many link cells as `num_links` counts.
pub proof fn lemma_doc_link_cells_len(cs: Seq<Component>)
    ensures
        link_cells(doc_cells(cs, true)).len() == links_sum(cs),
    decreases cs.len(),
{
    if cs.len() > 0 {
        lemma_doc_link_cells_len(cs.drop_last());
        match cs.last() {
            Component::TextComponent(t) => {
                if !t.hidden {
                    lemma_link_cells_concat(doc_cells(cs.drop_last(), true), comp_cells(t.rows(), t.y_offset));
                    lemma_comp_link_cells_len(t.rows(), t.y_offset);
                } else {
                    assert(doc_cells(cs, true) =~= doc_cells(cs.drop_last(), true));
                }
            },
            Component::Image(_) => {
                assert(doc_cells(cs, true) =~= doc_cells(cs.drop_last(), true));
            },
        }
    }
}

/// Where every visible row fits in `u16`, so does every row that the search
/// for the link under a caret reaches, and the links of the visible blocks
/// are no more than their cells.
pub proof fn lemma_doc_fits_scan(cs: Seq<Component>, caret: Caret)
    requires
        doc_fits(cs, true),
    ensures
        caret_scan_fits(cs, caret),
        links_sum(cs) <= doc_cells(cs, true).len(),
{
    assert forall|i: int, r: int| 0 <= i < cs.len() implies #[trigger] row_scan_fits(cs, caret, i, r) by {
        match cs[i] {
            Component::TextComponent(t) => {
                if !t.hidden && 0 <= r < t.rows().len() {
                    assert(coords_fit(t));
                    let ws = t.rows()[r];
                    assert(row_cols(ws) <= u16::MAX);
                    assert forall|c: int| 0 <= c < ws.len() implies row_cols(ws.take(c)) + word_cols(#[trigger] ws[c])
                        <= u16::MAX by {
                        lemma_row_cols_step(ws, c);
                        crate::nodes::layout::lemma_row_cols_mono(ws, c + 1, ws.len() as int);
                        assert(ws.take(ws.len() as int) =~= ws);
                    }
                }
            },
            Component::Image(_) => {},
        }
    }
    lemma_doc_link_cells_len(cs);
    lemma_link_cells_len(doc_cells(cs, true));
}

/// Link ordinal under `caret` among the visible blocks (see `link_at_caret`),
/// searching from the top and stopping at the first link under the caret.
#[verifier::rlimit(100)]
pub(crate) fn link_index_at(comps: &Vec<Component>, caret: Caret) -> (r: Option<usize>)
    requires
        caret_scan_fits(comps@, caret),
        links_sum(comps@) <= usize::MAX,
    ensures
        r matches Some(k) ==> link_at_caret(comps@, caret) == Some(k as nat),
        r is None ==> link_at_caret(comps@, caret) is None,
{
    let ghost cs = comps@;
    let ghost all = doc_cells(cs, true);
    let ghost cov = |c: Cell| covers(c, caret);
    let ghost online = |c: Cell| c.line == caret.line;
    let ghost covlink = |c: Cell| covering_link(c, caret);
    proof {
        lemma_doc_link_cells_len(cs);
        assert(cs.take(0) =~= Seq::<Component>::empty());
    }
    let mut count: usize = 0;
    let mut first_on_line: Option<usize> = None;
    let mut i: usize = 0;
    let ghost mut seen: Seq<Cell> = Seq::empty();
    while i < comps.len()
        invariant
            cs == comps@,
            all == doc_cells(cs, true),
            caret_scan_fits(cs, caret),
            link_cells(all).len() <= usize::MAX,
            i <= cs.len(),
            seen == doc_cells(cs.take(i as int), true),
            seen.len() <= all.len(),
            all.take(seen.len() as int) == seen,
            count == link_cells(seen).len(),
            first_index(link_cells(seen), cov) is None,
            first_index(seen, covlink) is None,
            first_on_line matches Some(k) ==> first_index(link_cells(seen), online) == Some(k as nat),
            first_on_line is None ==> first_index(link_cells(seen), online) is None,
            cov == (|c: Cell| covers(c, caret)),
            online == (|c: Cell| c.line == caret.line),
            covlink == (|c: Cell| covering_link(c, caret)),
        decreases cs.len() - i,
    {
        proof {
            assert(cs.take(i as int + 1).drop_last() =~= cs.take(i as int));
            assert(cs.take(i as int + 1).last() == cs[i as int]);
        }
        match &comps[i] {
            Component::TextComponent(t) => {
                if !t.hidden {
                    let ghost rows = t.rows();
                    let y = t.y_offset;
                    let ghost d = seen;
                    let mut r: usize = 0;
                    proof {
                        lemma_rows_view(t.content@);
                        assert(rows.take(0) =~= Seq::<Seq<WordView>>::empty());
                        assert(d + comp_cells(rows.take(0), y) =~= d);
                    }
                    while r < t.content.len()
                        invariant
                            cs == comps@,
                            all == doc_cells(cs, true),
                            caret_scan_fits(cs, caret),
                            link_cells(all).len() <= usize::MAX,
                            i < cs.len(),
                            cs[i as int] == Component::TextComponent(*t),
                            !t.hidden,
                            rows == t.rows(),
                            rows.len() == t.content@.len(),
                            forall|k: int| 0 <= k < rows.len() ==> #[trigger] rows[k] == row_view(t.content@[k]),
                            y == t.y_offset,
                            d == doc_cells(cs.take(i as int), true),
                            r <= rows.len(),
                            seen == d + comp_cells(rows.take(r as int), y),
                            seen.len() <= all.len(),
                            all.take(seen.len() as int) == seen,
                            count == link_cells(seen).len(),
                            first_index(link_cells(seen), cov) is None,
                            first_index(seen, covlink) is None,
                            first_on_line matches Some(k) ==> first_index(link_cells(seen), online) == Some(k as nat),
                            first_on_line is None ==> first_index(link_cells(seen), online) is None,
                            cov == (|c: Cell| covers(c, caret)),
                            online == (|c: Cell| c.line == caret.line),
                            covlink == (|c: Cell| covering_link(c, caret)),
                        decreases rows.len() - r,
                    {
                        let ghost ws = rows[r as int];
                        let ghost base = seen;
                        proof {
                            assert(all =~= seen + all.skip(seen.len() as int));
                            lemma_first_index_after(seen, all.skip(seen.len() as int), covlink);
                            assert(row_scan_fits(cs, caret, i as int, r as int));
                            assert(before_hit(cs, caret, seen.len() as int));
                            assert(row_line(y, r as int) <= u16::MAX);
                        }
                        let line = y + r as u16;
                        assert(line == row_line(y, r as int));
                        let row = &t.content[r];
                        let mut x: u16 = 0;
                        let mut c: usize = 0;
                        proof {
                            assert(row_cells(ws, line as int).take(0) =~= Seq::<Cell>::empty());
                            assert(base + row_cells(ws, line as int).take(0) =~= base);
                            assert(ws.take(0) =~= Seq::<WordView>::empty());
                        }
                        while c < row.len()
                            invariant
                                cs == comps@,
                                all == doc_cells(cs, true),
                                caret_scan_fits(cs, caret),
                                link_cells(all).len() <= usize::MAX,
                                i < cs.len(),
                                cs[i as int] == Component::TextComponent(*t),
                                !t.hidden,
                                rows == t.rows(),
                                r < rows.len(),
                                ws == rows[r as int],
                                ws == row_view(*row),
                                y == t.y_offset,
                                line == row_line(y, r as int),
                                base == doc_cells(cs.take(i as int), true) + comp_cells(rows.take(r as int), y),
                                c <= ws.len(),
                                x == row_cols(ws.take(c as int)),
                                seen == base + row_cells(ws, line as int).take(c as int),
                                seen.len() <= all.len(),
                                all.take(seen.len() as int) == seen,
                                count == link_cells(seen).len(),
                                first_index(link_cells(seen), cov) is None,
                                first_index(seen, covlink) is None,
                                first_on_line matches Some(k) ==> first_index(link_cells(seen), online) == Some(
                                    k as nat,
                                ),
                                first_on_line is None ==> first_index(link_cells(seen), online) is None,
                                cov == (|c: Cell| covers(c, caret)),
                                online == (|c: Cell| c.line == caret.line),
                                covlink == (|c: Cell| covering_link(c, caret)),
                            decreases ws.len() - c,
                        {
                            proof {
                                assert(all =~= seen + all.skip(seen.len() as int));
                                lemma_first_index_after(seen, all.skip(seen.len() as int), covlink);
                                assert(seen.len() == base.len() + c);
                                assert(row_scan_fits(cs, caret, i as int, r as int));
                                assert(before_hit(cs, caret, base.len() + c));
                                assert(ws[c as int] == row@[c as int]@);
                                lemma_row_cols_step(ws, c as int);
                            }
                            let w = column_width(row[c].content.as_str());
                            let ghost cell = Cell { line: line as int, x: x as int, w: w as int, word: ws[c as int] };
                            let ghost next = seen.push(cell);
                            proof {
                                assert(row_cells(ws, line as int)[c as int] == cell);
                                assert(row_cells(ws, line as int).take(c as int + 1) =~= row_cells(ws, line as int).take(
                                    c as int,
                                ).push(cell));
                                assert(next =~= base + row_cells(ws, line as int).take(c as int + 1));
                                lemma_seen_prefix(cs, i as int, r as int, c as int + 1);
                                assert(next.drop_last() =~= seen);
                                assert(link_cells(all).len() == link_cells(next).len() + link_cells(all.skip(next.len() as int)).len()) by {
                                    assert(all =~= next + all.skip(next.len() as int));
                                    lemma_link_cells_concat(next, all.skip(next.len() as int));
                                }
                            }
                            if link_kind(row[c].kind) {
                                let ghost pre = link_cells(seen);
                                let ghost now = pre.push(cell);
                                proof {
                                    assert(link_cells(next) =~= now);
                                    assert(now.drop_last() =~= pre);
                                }
                                if line == caret.line {
                                    if first_on_line.is_none() {
                                        first_on_line = Some(count);
                                    }
                                    if caret.col >= x && caret.col < x + w {
                                        proof {
                                            assert(first_index(now, cov) == Some(count as nat));
                                            assert(all =~= next + all.skip(next.len() as int));
                                            lemma_link_cells_concat(next, all.skip(next.len() as int));
                                            lemma_first_index_concat(now, link_cells(all.skip(next.len() as int)), cov);
                                        }
                                        return Some(count);
                                    }
                                }
                                count = count + 1;
                            } else {
                                proof {
                                    assert(link_cells(next) =~= link_cells(seen));
                                }
                            }
                            x = x + w;
                            c = c + 1;
                            proof {
                                seen = next;
                            }
                        }
                        proof {
                            assert(ws.take(ws.len() as int) =~= ws);
                            assert(row_cells(ws, line as int).take(ws.len() as int) =~= row_cells(ws, line as int));
                            assert(rows.take(r as int + 1).drop_last() =~= rows.take(r as int));
                            assert(rows.take(r as int + 1).last() == rows[r as int]);
                            assert(seen =~= d + comp_cells(rows.take(r as int + 1), y));
                        }
                        r = r + 1;
                    }
                    proof {
                        assert(rows.take(rows.len() as int) =~= rows);
                        assert(seen =~= doc_cells(cs.take(i as int + 1), true));
                    }
                } else {
                    proof {
                        assert(doc_cells(cs.take(i as int + 1), true) =~= seen);
                    }
                }
            },
            Component::Image(_) => {
                proof {
                    assert(doc_cells(cs.take(i as int + 1), true) =~= seen);
                }
            },
        }
        i = i + 1;
    }
    proof {
        assert(cs.take(cs.len() as int) =~= cs);
    }
    first_on_line
}

/// The source spans `a` and `b` share at least one byte.
pub open spec fn overlaps(a: SourceSpan, b: SourceSpan) -> bool {
    a.start.byte < b.end.byte && b.start.byte < a.end.byte
}

/// The rendered range of one cell.
pub open spec fn cell_range(c: Cell) -> RenderedRange {
    RenderedRange {
        start: Caret { line: c.line as u16, col: c.x as u16 },
        end: Caret { line: c.line as u16, col: (c.x + c.w) as u16 },
    }
}

/// One step of projecting the source span `src`: a cell whose word's span
/// overlaps `src` adds its range, merged into the previous range when that
/// one ends exactly where this one starts.
pub open spec fn project_step(acc: Seq<RenderedRange>, c: Cell, src: SourceSpan) -> Seq<RenderedRange> {
    match c.word.source {
        Some(span) => if overlaps(span, src) {
            let r = cell_range(c);
            if acc.len() > 0 && acc.last().end == r.start {
                acc.update(acc.len() - 1, RenderedRange { start: acc.last().start, end: r.end })
            } else {
                acc.push(r)
            }
        } else {
            acc
        },
        None => acc,
    }
}

/// The rendered ranges that the source span `src` projects to over `cells`.
pub open spec fn projected(cells: Seq<Cell>, src: SourceSpan) -> Seq<RenderedRange>
    decreases cells.len(),
{
    if cells.len() == 0 {
        Seq::empty()
    } else {
        project_step(projected(cells.drop_last(), src), cells.last(), src)
    }
}

/// Each range lies on one line, left to right, and no range ends where the
/// next one starts (adjacent ranges are always merged).
pub open spec fn coalesced(rs: Seq<RenderedRange>) -> bool {
    &&& forall|i: int|
        0 <= i < rs.len() ==> (#[trigger] rs[i]).start.line == rs[i].end.line && rs[i].start.col
            <= rs[i].end.col
    &&& forall|i: int, j: int| 0 <= i && j == i + 1 && j < rs.len() ==> #[trigger] rs[i].end != #[trigger] rs[j].start
}

/// Adds the range of one cell to the projection of `comment`.
fn project_comment_on_word(c: &CellRef, comment: &Comment, rendered_ranges: &mut Vec<RenderedRange>)
    requires
        c.x + c.w <= u16::MAX,
        coalesced(old(rendered_ranges)@),
    ensures
        final(rendered_ranges)@ == project_step(old(rendered_ranges)@, cell_of(*c), comment.source),
        coalesced(final(rendered_ranges)@),
{
    let word_span = match c.word.source {
        Some(span) => span,
        None => return,
    };
    if word_span.start.byte < comment.source.end.byte && comment.source.start.byte < word_span.end.byte {
        let end_col = c.x + c.w;
        let range = RenderedRange {
            start: Caret { line: c.line, col: c.x },
            end: Caret { line: c.line, col: end_col },
        };
        let n = rendered_ranges.len();
        if n > 0 && rendered_ranges[n - 1].end.line == range.start.line && rendered_ranges[n - 1].end.col
            == range.start.col {
            let last = rendered_ranges[n - 1];
            let ghost before = rendered_ranges@;
            rendered_ranges.set(n - 1, RenderedRange { start: last.start, end: range.end });
            proof {
                let rs = rendered_ranges@;
                assert forall|i: int, j: int| 0 <= i && j == i + 1 && j < rs.len() implies #[trigger] rs[i].end
                    != #[trigger] rs[j].start by {
                    assert(before[i].end != before[j].start);
                }
            }
            return;
        }
        let ghost before = rendered_ranges@;
        rendered_ranges.push(range);
        proof {
            let rs = rendered_ranges@;
            assert forall|i: int, j: int| 0 <= i && j == i + 1 && j < rs.len() implies #[trigger] rs[i].end
                != #[trigger] rs[j].start by {
                if j < before.len() {
                    assert(before[i].end != before[j].start);
                }
            }
        }
    }
}

/// The rendered ranges that `comment`'s source span projects to, over every
/// text block (hidden ones too).
pub(crate) fn project_comment(comps: &Vec<Component>, comment: &Comment) -> (out: Vec<RenderedRange>)
    requires
        doc_fits(comps@, false),
    ensures
        out@ == projected(doc_cells(comps@, false), comment.source),
        coalesced(out@),
{
    let cells = doc_cell_refs(comps, false);
    let ghost all = cells_of(cells@);
    let mut out: Vec<RenderedRange> = Vec::new();
    let mut i: usize = 0;
    while i < cells.len()
        invariant
            all == cells_of(cells@),
            all == doc_cells(comps@, false),
            all.len() == cells@.len(),
            ends_fit(cells@),
            i <= cells@.len(),
            out@ == projected(all.take(i as int), comment.source),
            coalesced(out@),
        decreases cells@.len() - i,
    {
        proof {
            assert(all.take(i as int + 1).drop_last() =~= all.take(i as int));
            assert(all[i as int] == cell_of(cells@[i as int]));
        }
        project_comment_on_word(&cells[i], comment, &mut out);
        i = i + 1;
    }
    proof {
        assert(all.take(all.len() as int) =~= all);
    }
    out
}

/// Whether a word at columns `x .. x_end` of line `line` is touched by the
/// selection `s ..= e` (`s` not after `e`). An empty selection touches the
/// words whose columns reach the caret.
pub open spec fn overlaps_selection(x: int, x_end: int, line: int, s: Caret, e: Caret) -> bool {
    if line == s.line && line == e.line {
        if s.col == e.col {
            x <= s.col && x_end >= s.col
        } else {
            x < e.col && x_end > s.col
        }
    } else if line == s.line {
        x_end > s.col
    } else if line == e.line {
        x < e.col
    } else {
        true
    }
}

/// `a - b`, or 0 where `b` is larger.
pub open spec fn sat_sub(a: u16, b: int) -> nat {
    if a >= b {
        (a - b) as nat
    } else {
        0
    }
}

/// Bytes of the longest prefix of `text` that fits in `w` columns.
pub open spec fn prefix_bytes(text: Seq<char>, w: nat) -> nat {
    byte_len(text.take(fit_len(text, w) as int))
}

/// The cell is on a selected line and its columns are touched by the selection.
pub open spec fn selects(c: Cell, s: Caret, e: Caret) -> bool {
    s.line <= c.line <= e.line && overlaps_selection(c.x, c.x + c.w, c.line, s, e)
}

/// The part of a cell's source span that the selection covers: from the
/// selection's start column on its first line, to its end column on its last line.
pub open spec fn word_piece(c: Cell, s: Caret, e: Caret) -> Option<SourceSpan> {
    match c.word.source {
        Some(span) => {
            let t = c.word.text;
            let so = if c.line == s.line {
                prefix_bytes(t, sat_sub(s.col, c.x))
            } else {
                0
            };
            let eo = if c.line == e.line {
                prefix_bytes(t, sat_sub(e.col, c.x))
            } else {
                byte_len(t)
            };
            spec_subspan(span, t, so, eo)
        },
        None => None,
    }
}

/// Widens the envelope `acc` (least start, greatest end) by the span `p`.
pub open spec fn widen(acc: (Option<SourcePos>, Option<SourcePos>), p: SourceSpan) -> (
    Option<SourcePos>,
    Option<SourcePos>,
) {
    (
        match acc.0 {
            Some(f) => if p.start.byte < f.byte {
                Some(p.start)
            } else {
                acc.0
            },
            None => Some(p.start),
        },
        match acc.1 {
            Some(l) => if p.end.byte > l.byte {
                Some(p.end)
            } else {
                acc.1
            },
            None => Some(p.end),
        },
    )
}

/// One step of resolving a selection: a selected cell's piece widens the envelope.
pub open spec fn resolve_step(acc: (Option<SourcePos>, Option<SourcePos>), c: Cell, s: Caret, e: Caret) -> (
    Option<SourcePos>,
    Option<SourcePos>,
) {
    if selects(c, s, e) {
        match word_piece(c, s, e) {
            Some(p) => widen(acc, p),
            None => acc,
        }
    } else {
        acc
    }
}

/// The envelope of the source pieces that the selection `s ..= e` covers in `cells`.
pub open spec fn resolved(cells: Seq<Cell>, s: Caret, e: Caret) -> (Option<SourcePos>, Option<SourcePos>)
    decreases cells.len(),
{
    if cells.len() == 0 {
        (None, None)
    } else {
        resolve_step(resolved(cells.drop_last(), s, e), cells.last(), s, e)
    }
}

/// The envelope is empty, or it is a start and an end with the start not after the end.
pub open spec fn envelope_ok(acc: (Option<SourcePos>, Option<SourcePos>)) -> bool {
    match acc {
        (Some(f), Some(l)) => f.byte <= l.byte,
        (None, None) => true,
        _ => false,
    }
}

/// The rows that a selection between carets `a` and `b` (in either order)
/// reaches have their lines, and those on the selected lines their columns,
/// within `u16`.
pub open spec fn selection_fits(cs: Seq<Component>, a: Caret, b: Caret) -> bool {
    let s = if a.le(b) { a } else { b };
    let e = if a.le(b) { b } else { a };
    doc_fits_in(cs, s.line as int, e.line as int)
}

/// The source span that the selection between carets `a` and `b` (in either
/// order) covers, from the cells on the selected lines: from the least start to the greatest end of the pieces of the
/// touched source-backed words; `None` when it touches none.
pub open spec fn selection_span(cs: Seq<Component>, a: Caret, b: Caret) -> Option<SourceSpan> {
    let s = if a.le(b) { a } else { b };
    let e = if a.le(b) { b } else { a };
    match resolved(doc_cells_in(cs, s.line as int, e.line as int), s, e) {
        (Some(f), Some(l)) => Some(SourceSpan { start: f, end: l }),
        _ => None,
    }
}

/// Whether the word at `word_start_x .. word_end_x` on `line_y` is touched by the selection.
fn word_overlaps_selection(word_start_x: u16, word_end_x: u16, line_y: u16, start: Caret, end: Caret) -> (b: bool)
    ensures
        b == overlaps_selection(word_start_x as int, word_end_x as int, line_y as int, start, end),
{
    if line_y == start.line && line_y == end.line {
        if start.col == end.col {
            word_start_x <= start.col && word_end_x >= start.col
        } else {
            word_start_x < end.col && word_end_x > start.col
        }
    } else if line_y == start.line {
        word_end_x > start.col
    } else if line_y == end.line {
        word_start_x < end.col
    } else {
        true
    }
}

/// Widens the envelope by the piece of one selected cell's source span.
fn resolve_selection_on_word(
    c: &CellRef,
    start: Caret,
    end: Caret,
    first_pos: &mut Option<SourcePos>,
    last_pos: &mut Option<SourcePos>,
)
    ensures
        (*final(first_pos), *final(last_pos)) == (match word_piece(cell_of(*c), start, end) {
            Some(p) => widen((*old(first_pos), *old(last_pos)), p),
            None => (*old(first_pos), *old(last_pos)),
        }),
        envelope_ok((*old(first_pos), *old(last_pos))) ==> envelope_ok((*final(first_pos), *final(last_pos))),
{
    let word_span = match c.word.source {
        Some(span) => span,
        None => return,
    };
    let word_content = c.word.content.as_str();
    let start_offset = if c.line == start.line {
        let w: u16 = if start.col >= c.x { start.col - c.x } else { 0 };
        byte_offset_at_width(word_content, w as usize)
    } else {
        0
    };
    let end_offset = if c.line == end.line {
        let w: u16 = if end.col >= c.x { end.col - c.x } else { 0 };
        byte_offset_at_width(word_content, w as usize)
    } else {
        byte_length(word_content)
    };
    if let Some(precise_span) = word_span.subspan(word_content, start_offset, end_offset) {
        let widen_start = match *first_pos {
            Some(f) => precise_span.start.byte < f.byte,
            None => true,
        };
        if widen_start {
            *first_pos = Some(precise_span.start);
        }
        let widen_end = match *last_pos {
            Some(l) => precise_span.end.byte > l.byte,
            None => true,
        };
        if widen_end {
            *last_pos = Some(precise_span.end);
        }
    }
}

/// The envelope of the source pieces that the selection `start ..= end`
/// (`start` not after `end`) covers, over every text block (hidden ones too).
pub(crate) fn resolve_range(comps: &Vec<Component>, start: Caret, end: Caret) -> (r: (
    Option<SourcePos>,
    Option<SourcePos>,
))
    requires
        doc_fits_in(comps@, start.line as int, end.line as int),
    ensures
        r == resolved(doc_cells_in(comps@, start.line as int, end.line as int), start, end),
        envelope_ok(r),
{
    let cells = doc_cell_refs_in(comps, start.line, end.line);
    let ghost all = cells_of(cells@);
    let mut first_pos: Option<SourcePos> = None;
    let mut last_pos: Option<SourcePos> = None;
    let mut i: usize = 0;
    while i < cells.len()
        invariant
            all == cells_of(cells@),
            all == doc_cells_in(comps@, start.line as int, end.line as int),
            all.len() == cells@.len(),
            ends_fit(cells@),
            i <= cells@.len(),
            (first_pos, last_pos) == resolved(all.take(i as int), start, end),
            envelope_ok((first_pos, last_pos)),
        decreases cells@.len() - i,
    {
        proof {
            assert(all.take(i as int + 1).drop_last() =~= all.take(i as int));
            assert(all[i as int] == cell_of(cells@[i as int]));
        }
        let c = &cells[i];
        if start.line <= c.line && c.line <= end.line && word_overlaps_selection(c.x, c.x + c.w, c.line, start, end) {
            resolve_selection_on_word(c, start, end, &mut first_pos, &mut last_pos);
        }
        i = i + 1;
    }
    proof {
        assert(all.take(all.len() as int) =~= all);
    }
    (first_pos, last_pos)
}

proof fn lemma_row_link_cells(ws: Seq<WordView>, line: int)
    ensures
        link_cells(row_cells(ws, line)).len() == count_links(ws),
        forall|i: int| 0 <= i < count_links(ws) ==> (#[trigger] link_cells(row_cells(ws, line))[i]).line == line,
    decreases ws.len(),
{
    if ws.len() > 0 {
        let n = ws.len() - 1;
        assert(row_cells(ws, line).drop_last() =~= row_cells(ws.drop_last(), line)) by {
            assert forall|k: int| 0 <= k < n implies ws.drop_last().take(k) =~= ws.take(k) by {}
        }
        assert(row_cells(ws, line).last().word == ws.last());
        lemma_row_link_cells(ws.drop_last(), line);
    }
}

proof fn lemma_comp_link_cells(rows: Seq<Seq<WordView>>, y: u16)
    requires
        forall|r: int| 0 <= r < rows.len() ==> #[trigger] row_line(y, r) <= u16::MAX,
    ensures
        link_cells(comp_cells(rows, y)).len() == row_link_ys(rows, y).len(),
        forall|i: int|
            0 <= i < row_link_ys(rows, y).len() ==> (#[trigger] link_cells(comp_cells(rows, y))[i]).line
                == row_link_ys(rows, y)[i],
    decreases rows.len(),
{
    if rows.len() > 0 {
        let r = rows.len() - 1;
        lemma_comp_link_cells(rows.drop_last(), y);
        let line = row_line(y, r);
        lemma_link_cells_concat(comp_cells(rows.drop_last(), y), row_cells(rows.last(), line));
        lemma_row_link_cells(rows.last(), line);
        assert(line <= u16::MAX);
        assert((y + (r as u16)) as u16 == line);
    }
}

proof fn lemma_doc_link_cells(cs: Seq<Component>)
    requires
        doc_fits(cs, true),
    ensures
        link_cells(doc_cells(cs, true)).len() == link_ys(cs).len(),
        forall|i: int|
            0 <= i < link_ys(cs).len() ==> (#[trigger] link_cells(doc_cells(cs, true))[i]).line == link_ys(cs)[i],
    decreases cs.len(),
{
    if cs.len() > 0 {
        let last = cs.last();
        assert(doc_fits(cs.drop_last(), true)) by {
            assert forall|k: int| 0 <= k < cs.drop_last().len() implies match #[trigger] cs.drop_last()[k] {
                Component::TextComponent(t) => takes_part(t, true) ==> coords_fit(t),
                Component::Image(_) => true,
            } by {
                assert(cs.drop_last()[k] == cs[k]);
            }
        }
        lemma_doc_link_cells(cs.drop_last());
        assert(cs[cs.len() - 1] == last);
        match last {
            Component::TextComponent(t) => {
                if !t.hidden {
                    lemma_link_cells_concat(doc_cells(cs.drop_last(), true), comp_cells(t.rows(), t.y_offset));
                    lemma_comp_link_cells(t.rows(), t.y_offset);
                } else {
                    assert(doc_cells(cs, true) =~= doc_cells(cs.drop_last(), true));
                }
            },
            Component::Image(_) => {
                assert(doc_cells(cs, true) =~= doc_cells(cs.drop_last(), true));
            },
        }
    }
}

proof fn lemma_first_index_least(ls: Seq<Cell>, p: spec_fn(Cell) -> bool)
    ensures
        first_index(ls, p) is None <==> forall|j: int| 0 <= j < ls.len() ==> !p(#[trigger] ls[j]),
        first_index(ls, p) matches Some(k) ==> forall|j: int| 0 <= j < k ==> !p(#[trigger] ls[j]),
    decreases ls.len(),
{
    if ls.len() > 0 {
        lemma_first_index_least(ls.drop_last(), p);
        assert forall|j: int| 0 <= j < ls.len() - 1 implies ls.drop_last()[j] == ls[j] by {}
        assert(ls.last() == ls[ls.len() - 1]);
    }
}

/// The link under a caret, as `link_index_at_caret` finds it: there is none
/// exactly when no link of `link_index_and_height` is on the caret's line;
/// otherwise it is the least ordinal whose cells contain the caret, or, when no
/// link's cells do, the least ordinal on the caret's line.
pub proof fn caret_link_is_least(cs: Seq<Component>, caret: Caret)
    requires
        doc_fits(cs, true),
    ensures
        link_at_caret(cs, caret) is None <==> forall|j: int| 0 <= j < link_ys(cs).len() ==> #[trigger] link_ys(cs)[j]
            != caret.line,
        ({
            let ls = link_cells(doc_cells(cs, true));
            link_at_caret(cs, caret) matches Some(k) ==> {
                &&& k < ls.len()
                &&& link_ys(cs)[k as int] == caret.line
                &&& covers(ls[k as int], caret) ==> forall|j: int| 0 <= j < k ==> !covers(#[trigger] ls[j], caret)
                &&& (forall|j: int| 0 <= j < ls.len() ==> !covers(#[trigger] ls[j], caret)) ==> forall|j: int|
                    0 <= j < k ==> link_ys(cs)[j] != caret.line
            }
        }),
{
    let ls = link_cells(doc_cells(cs, true));
    let cov = |c: Cell| covers(c, caret);
    let online = |c: Cell| c.line == caret.line;
    lemma_doc_link_cells(cs);
    lemma_first_index_least(ls, cov);
    lemma_first_index_least(ls, online);
    lemma_first_index_bound(ls, cov);
    lemma_first_index_bound(ls, online);
    if link_at_caret(cs, caret) is None {
        assert forall|j: int| 0 <= j < link_ys(cs).len() implies #[trigger] link_ys(cs)[j] != caret.line by {
            assert(!online(ls[j]));
        }
    } else {
        let k = link_at_caret(cs, caret)->0;
        if first_index(ls, cov) is Some {
            assert forall|j: int| 0 <= j < k implies !covers(#[trigger] ls[j], caret) by {
                assert(!cov(ls[j]));
            }
        } else {
            assert forall|j: int| 0 <= j < k implies link_ys(cs)[j] != caret.line by {
                assert(!online(ls[j]));
            }
            assert forall|j: int| 0 <= j < k implies !covers(#[trigger] ls[j], caret) by {
                assert(!cov(ls[j]));
            }
        }
    }
    if forall|j: int| 0 <= j < link_ys(cs).len() ==> #[trigger] link_ys(cs)[j] != caret.line {
        if first_index(ls, online) is Some {
            let k = first_index(ls, online)->0;
            assert(link_ys(cs)[k as int] != caret.line);
        }
        if first_index(ls, cov) is Some {
            let k = first_index(ls, cov)->0;
            assert(link_ys(cs)[k as int] != caret.line);
        }
    }
}

/// The cell's word comes from source bytes that share at least one byte with `src`.
pub open spec fn shares_byte(c: Cell, src: SourceSpan) -> bool {
    c.word.source matches Some(sp) && sp.start.byte < src.end.byte && src.start.byte < sp.end.byte
}

/// Every cell lies on a `u16` line and within the `u16` columns.
pub open spec fn cells_fit(cells: Seq<Cell>) -> bool {
    forall|k: int|
        0 <= k < cells.len() ==> 0 <= (#[trigger] cells[k]).line <= u16::MAX && 0 <= cells[k].x && 0 <= cells[k].w
            && cells[k].x + cells[k].w <= u16::MAX
}

/// Where a cell starts on screen.
pub open spec fn cell_start(c: Cell) -> Caret {
    Caret { line: c.line as u16, col: c.x as u16 }
}

/// Where a cell ends on screen.
pub open spec fn cell_end(c: Cell) -> Caret {
    Caret { line: c.line as u16, col: (c.x + c.w) as u16 }
}

/// The last range extended to the end of cell `c`.
pub open spec fn merged_last(acc: Seq<RenderedRange>, c: Cell) -> Seq<RenderedRange> {
    acc.update(acc.len() - 1, RenderedRange { start: acc.last().start, end: cell_range(c).end })
}

/// The range lies on the cell's line and its columns hold the cell's columns.
pub open spec fn covers_cell(rr: RenderedRange, c: Cell) -> bool {
    rr.start.line == c.line && rr.start.col <= c.x && c.x + c.w <= rr.end.col
}

/// Some cell of `cells` whose word shares a byte with `src` starts where `rr` starts.
#[verifier::opaque]
pub open spec fn start_witnessed(cells: Seq<Cell>, src: SourceSpan, rr: RenderedRange) -> bool {
    exists|k: int| 0 <= k < cells.len() && shares_byte(#[trigger] cells[k], src) && rr.start == cell_start(cells[k])
}

/// Some cell of `cells` whose word shares a byte with `src` ends where `rr` ends.
#[verifier::opaque]
pub open spec fn end_witnessed(cells: Seq<Cell>, src: SourceSpan, rr: RenderedRange) -> bool {
    exists|k: int| 0 <= k < cells.len() && shares_byte(#[trigger] cells[k], src) && rr.end == cell_end(cells[k])
}

/// Some range of `rs` covers the cell `c`.
#[verifier::opaque]
pub open spec fn cell_covered(rs: Seq<RenderedRange>, c: Cell) -> bool {
    exists|i: int| 0 <= i < rs.len() && covers_cell(#[trigger] rs[i], c)
}

/// What a projection of `src` over `cells` must be: ranges on one line each;
/// each starting where a cell of a word sharing a byte with `src` starts and
/// ending where such a cell ends; and every such cell covered by a range.
pub open spec fn projection_ok(cells: Seq<Cell>, src: SourceSpan, rs: Seq<RenderedRange>) -> bool {
    &&& forall|i: int|
        0 <= i < rs.len() ==> (#[trigger] rs[i]).start.line == rs[i].end.line && rs[i].start.col <= rs[i].end.col
    &&& forall|i: int|
        0 <= i < rs.len() ==> start_witnessed(cells, src, #[trigger] rs[i]) && end_witnessed(cells, src, rs[i])
    &&& forall|k: int| 0 <= k < cells.len() && shares_byte(#[trigger] cells[k], src) ==> cell_covered(rs, cells[k])
}

proof fn lemma_witness_lift(cells: Seq<Cell>, src: SourceSpan, rr: RenderedRange)
    requires
        cells.len() > 0,
    ensures
        start_witnessed(cells.drop_last(), src, rr) ==> start_witnessed(cells, src, rr),
        end_witnessed(cells.drop_last(), src, rr) ==> end_witnessed(cells, src, rr),
{
    reveal(start_witnessed);
    reveal(end_witnessed);
    let d = cells.drop_last();
    if start_witnessed(d, src, rr) {
        let k = choose|k: int| 0 <= k < d.len() && shares_byte(#[trigger] d[k], src) && rr.start == cell_start(d[k]);
        assert(cells[k] == d[k]);
    }
    if end_witnessed(d, src, rr) {
        let k = choose|k: int| 0 <= k < d.len() && shares_byte(#[trigger] d[k], src) && rr.end == cell_end(d[k]);
        assert(cells[k] == d[k]);
    }
}

proof fn lemma_last_witnesses(cells: Seq<Cell>, src: SourceSpan, rr: RenderedRange)
    requires
        cells.len() > 0,
        shares_byte(cells.last(), src),
    ensures
        rr.start == cell_start(cells.last()) ==> start_witnessed(cells, src, rr),
        rr.end == cell_end(cells.last()) ==> end_witnessed(cells, src, rr),
{
    reveal(start_witnessed);
    reveal(end_witnessed);
    let n = cells.len() - 1;
    assert(cells[n] == cells.last());
}

proof fn lemma_covered_by(rs: Seq<RenderedRange>, c: Cell, i: int)
    requires
        0 <= i < rs.len(),
        covers_cell(rs[i], c),
    ensures
        cell_covered(rs, c),
{
    reveal(cell_covered);
}

proof fn lemma_projection_step(cells: Seq<Cell>, src: SourceSpan)
    requires
        cells.len() > 0,
        projection_ok(cells.drop_last(), src, projected(cells.drop_last(), src)),
        cells_fit(cells),
    ensures
        projection_ok(cells, src, projected(cells, src)),
{
    let d = cells.drop_last();
    let n = cells.len() - 1;
    let c = cells.last();
    assert(c == cells[n]);
    assert(0 <= c.line <= u16::MAX && 0 <= c.x && 0 <= c.w && c.x + c.w <= u16::MAX);
    assert(c.line as u16 == c.line && c.x as u16 == c.x && (c.x + c.w) as u16 == c.x + c.w);
    let acc = projected(d, src);
    assert(projected(cells, src) == project_step(acc, c, src));
    let rs = projected(cells, src);
    assert forall|i: int| 0 <= i < acc.len() implies start_witnessed(cells, src, #[trigger] acc[i]) && end_witnessed(
        cells,
        src,
        acc[i],
    ) by {
        lemma_witness_lift(cells, src, acc[i]);
    }
    if shares_byte(c, src) {
        assert(overlaps(c.word.source->0, src));
        if acc.len() > 0 && acc.last().end == cell_range(c).start {
            let j = acc.len() - 1;
            assert(acc.last() == acc[j]);
            assert(rs == merged_last(acc, c));
            assert forall|i: int| 0 <= i < rs.len() implies (#[trigger] rs[i]).start.line == rs[i].end.line
                && rs[i].start.col <= rs[i].end.col by {
                if i != j {
                    assert(rs[i] == acc[i]);
                } else {
                    assert(acc[j].start.line == acc[j].end.line && acc[j].start.col <= acc[j].end.col);
                }
            }
            assert forall|i: int| 0 <= i < rs.len() implies start_witnessed(cells, src, #[trigger] rs[i])
                && end_witnessed(cells, src, rs[i]) by {
                if i != j {
                    assert(rs[i] == acc[i]);
                } else {
                    reveal(start_witnessed);
                    assert(start_witnessed(cells, src, acc[j]));
                    assert(rs[j].start == acc[j].start);
                    lemma_last_witnesses(cells, src, rs[j]);
                }
            }
            assert(acc[j].start.line == acc[j].end.line && acc[j].start.col <= acc[j].end.col);
            assert forall|k: int| 0 <= k < cells.len() && shares_byte(#[trigger] cells[k], src) implies cell_covered(
                rs,
                cells[k],
            ) by {
                if k == n {
                    lemma_covered_by(rs, cells[k], j);
                } else {
                    assert(d[k] == cells[k]);
                    assert(cell_covered(acc, d[k]));
                    reveal(cell_covered);
                    let i = choose|i: int| 0 <= i < acc.len() && covers_cell(#[trigger] acc[i], cells[k]);
                    if i == j {
                        lemma_covered_by(rs, cells[k], j);
                    } else {
                        assert(rs[i] == acc[i]);
                        lemma_covered_by(rs, cells[k], i);
                    }
                }
            }
        } else {
            assert(rs == acc.push(cell_range(c)));
            assert forall|i: int| 0 <= i < rs.len() implies (#[trigger] rs[i]).start.line == rs[i].end.line
                && rs[i].start.col <= rs[i].end.col by {
                if i < acc.len() {
                    assert(rs[i] == acc[i]);
                }
            }
            assert forall|i: int| 0 <= i < rs.len() implies start_witnessed(cells, src, #[trigger] rs[i])
                && end_witnessed(cells, src, rs[i]) by {
                if i < acc.len() {
                    assert(rs[i] == acc[i]);
                } else {
                    lemma_last_witnesses(cells, src, rs[i]);
                }
            }
            assert forall|k: int| 0 <= k < cells.len() && shares_byte(#[trigger] cells[k], src) implies cell_covered(
                rs,
                cells[k],
            ) by {
                if k == n {
                    lemma_covered_by(rs, cells[k], acc.len() as int);
                } else {
                    assert(d[k] == cells[k]);
                    assert(cell_covered(acc, d[k]));
                    reveal(cell_covered);
                    let i = choose|i: int| 0 <= i < acc.len() && covers_cell(#[trigger] acc[i], cells[k]);
                    assert(rs[i] == acc[i]);
                    lemma_covered_by(rs, cells[k], i);
                }
            }
        }
    } else {
        assert(rs == acc);
        assert forall|k: int| 0 <= k < cells.len() && shares_byte(#[trigger] cells[k], src) implies cell_covered(
            rs,
            cells[k],
        ) by {
            assert(k != n);
            assert(d[k] == cells[k]);
        }
    }
}

/// `project_comments` highlights exactly the words that share a byte with the
/// comment's source span: each range lies on one line, starts and ends at
/// cells of such words, and every cell of such a word is inside a range. A
/// word whose span only touches the comment's span (ends where it starts, or
/// starts where it ends) never starts or ends a range.
pub proof fn projection_is_exactly_the_overlapping_words(cells: Seq<Cell>, src: SourceSpan)
    requires
        cells_fit(cells),
    ensures
        projection_ok(cells, src, projected(cells, src)),
    decreases cells.len(),
{
    if cells.len() > 0 {
        let d = cells.drop_last();
        assert(cells_fit(d)) by {
            assert forall|k: int| 0 <= k < d.len() implies 0 <= (#[trigger] d[k]).line <= u16::MAX && 0 <= d[k].x
                && 0 <= d[k].w && d[k].x + d[k].w <= u16::MAX by {
                assert(d[k] == cells[k]);
            }
        }
        projection_is_exactly_the_overlapping_words(d, src);
        lemma_projection_step(cells, src);
    }
}

/// Over a document whose text blocks fit their coordinates, the ranges that
/// `project_comments` gives for a comment's span lie on one line each, start
/// and end at cells of words that share a byte with the span, and cover every
/// cell of such a word; a word that only touches the span is never projected.
pub proof fn document_projection_is_exactly_the_overlapping_words(cs: Seq<Component>, src: SourceSpan)
    requires
        doc_fits(cs, false),
    ensures
        projection_ok(doc_cells(cs, false), src, projected(doc_cells(cs, false), src)),
{
    lemma_doc_cells_fit(cs, false);
    projection_is_exactly_the_overlapping_words(doc_cells(cs, false), src);
}

/// Under `doc_fits`, the cells of the document lie within the `u16` lines and columns.
pub proof fn lemma_doc_cells_fit(cs: Seq<Component>, v: bool)
    requires
        doc_fits(cs, v),
    ensures
        cells_fit(doc_cells(cs, v)),
    decreases cs.len(),
{
    if cs.len() > 0 {
        let d = cs.drop_last();
        assert(doc_fits(d, v)) by {
            assert forall|k: int| 0 <= k < d.len() implies match #[trigger] d[k] {
                Component::TextComponent(t) => takes_part(t, v) ==> coords_fit(t),
                Component::Image(_) => true,
            } by {
                assert(d[k] == cs[k]);
            }
        }
        lemma_doc_cells_fit(d, v);
        assert(cs.last() == cs[cs.len() - 1]);
        match cs.last() {
            Component::TextComponent(t) => {
                if takes_part(t, v) {
                    lemma_comp_cells_fit(t.rows(), t.y_offset, t);
                    let a = doc_cells(d, v);
                    let b = comp_cells(t.rows(), t.y_offset);
                    assert(doc_cells(cs, v) == a + b);
                    assert forall|k: int| 0 <= k < (a + b).len() implies 0 <= (#[trigger] (a + b)[k]).line <= u16::MAX
                        && 0 <= (a + b)[k].x && 0 <= (a + b)[k].w && (a + b)[k].x + (a + b)[k].w <= u16::MAX by {
                        if k < a.len() {
                            assert((a + b)[k] == a[k]);
                        } else {
                            assert((a + b)[k] == b[k - a.len()]);
                        }
                    }
                } else {
                    assert(doc_cells(cs, v) =~= doc_cells(d, v));
                }
            },
            Component::Image(_) => {
                assert(doc_cells(cs, v) =~= doc_cells(d, v));
            },
        }
    }
}

proof fn lemma_comp_cells_fit(rows: Seq<Seq<WordView>>, y: u16, t: crate::nodes::textcomponent::TextComponent)
    requires
        coords_fit(t),
        t.y_offset == y,
        rows.len() <= t.rows().len(),
        forall|r: int| 0 <= r < rows.len() ==> #[trigger] rows[r] == t.rows()[r],
    ensures
        cells_fit(comp_cells(rows, y)),
    decreases rows.len(),
{
    if rows.len() > 0 {
        let r = rows.len() - 1;
        let d = rows.drop_last();
        assert forall|q: int| 0 <= q < d.len() implies #[trigger] d[q] == t.rows()[q] by {
            assert(d[q] == rows[q]);
        }
        lemma_comp_cells_fit(d, y, t);
        let ws = rows.last();
        assert(ws == rows[r]);
        assert(ws == t.rows()[r]);
        assert(row_line(t.y_offset, r) <= u16::MAX && row_cols(t.rows()[r]) <= u16::MAX);
        let a = comp_cells(d, y);
        let line = row_line(y, r);
        let b = row_cells(ws, line);
        assert forall|k: int| 0 <= k < b.len() implies 0 <= (#[trigger] b[k]).line <= u16::MAX && 0 <= b[k].x
            && 0 <= b[k].w && b[k].x + b[k].w <= u16::MAX by {
            lemma_row_cols_step(ws, k);
            crate::nodes::layout::lemma_row_cols_mono(ws, k + 1, ws.len() as int);
            assert(ws.take(ws.len() as int) =~= ws);
        }
        assert forall|k: int| 0 <= k < (a + b).len() implies 0 <= (#[trigger] (a + b)[k]).line <= u16::MAX
            && 0 <= (a + b)[k].x && 0 <= (a + b)[k].w && (a + b)[k].x + (a + b)[k].w <= u16::MAX by {
            if k < a.len() {
                assert((a + b)[k] == a[k]);
            } else {
                assert((a + b)[k] == b[k - a.len()]);
            }
        }
    }
}

/// Whether the selection from `s` to `e` (`s` not after `e`) touches the cell:
/// on a line between them, any cell; on the start line, a cell that ends past
/// the start column; on the end line, a cell that starts before the end
/// column; on a one-line selection, a cell that meets the columns between
/// them (for an empty selection, a cell whose columns reach the caret).
pub open spec fn touches(c: Cell, s: Caret, e: Caret) -> bool {
    &&& s.line <= c.line <= e.line
    &&& (c.line == s.line && c.line == e.line ==> if s.col == e.col {
        c.x <= s.col && s.col <= c.x + c.w
    } else {
        c.x < e.col && s.col < c.x + c.w
    })
    &&& (c.line == s.line && c.line != e.line ==> s.col < c.x + c.w)
    &&& (c.line == e.line && c.line != s.line ==> c.x < e.col)
}

/// Some touched cell's piece starts at `f`.
#[verifier::opaque]
pub open spec fn start_from_piece(cells: Seq<Cell>, s: Caret, e: Caret, f: SourcePos) -> bool {
    exists|k: int|
        0 <= k < cells.len() && touches(#[trigger] cells[k], s, e) && (word_piece(cells[k], s, e) matches Some(p)
            && p.start == f)
}

/// Some touched cell's piece ends at `l`.
#[verifier::opaque]
pub open spec fn end_from_piece(cells: Seq<Cell>, s: Caret, e: Caret, l: SourcePos) -> bool {
    exists|k: int|
        0 <= k < cells.len() && touches(#[trigger] cells[k], s, e) && (word_piece(cells[k], s, e) matches Some(p)
            && p.end == l)
}

/// The resolved span is the envelope of the pieces of the touched cells: it
/// starts no later than any of them and ends no earlier, its start is the start
/// of one of them and its end the end of one of them, and it is empty only
/// when no touched cell has a piece.
pub open spec fn envelope_of_touched(cells: Seq<Cell>, s: Caret, e: Caret, r: (Option<SourcePos>, Option<SourcePos>)) -> bool {
    &&& forall|k: int|
        0 <= k < cells.len() && touches(#[trigger] cells[k], s, e) && word_piece(cells[k], s, e) is Some ==> {
            &&& r.0 matches Some(f) && f.byte <= word_piece(cells[k], s, e)->0.start.byte
            &&& r.1 matches Some(l) && l.byte >= word_piece(cells[k], s, e)->0.end.byte
        }
    &&& r.0 matches Some(f) ==> start_from_piece(cells, s, e, f)
    &&& r.1 matches Some(l) ==> end_from_piece(cells, s, e, l)
    &&& r.0 is Some <==> r.1 is Some
}

proof fn lemma_piece_lift(cells: Seq<Cell>, s: Caret, e: Caret, q: SourcePos)
    requires
        cells.len() > 0,
    ensures
        start_from_piece(cells.drop_last(), s, e, q) ==> start_from_piece(cells, s, e, q),
        end_from_piece(cells.drop_last(), s, e, q) ==> end_from_piece(cells, s, e, q),
{
    reveal(start_from_piece);
    reveal(end_from_piece);
    let d = cells.drop_last();
    if start_from_piece(d, s, e, q) {
        let k = choose|k: int|
            0 <= k < d.len() && touches(#[trigger] d[k], s, e) && (word_piece(d[k], s, e) matches Some(p) && p.start == q);
        assert(cells[k] == d[k]);
    }
    if end_from_piece(d, s, e, q) {
        let k = choose|k: int|
            0 <= k < d.len() && touches(#[trigger] d[k], s, e) && (word_piece(d[k], s, e) matches Some(p) && p.end == q);
        assert(cells[k] == d[k]);
    }
}

proof fn lemma_piece_last(cells: Seq<Cell>, s: Caret, e: Caret)
    requires
        cells.len() > 0,
        touches(cells.last(), s, e),
        word_piece(cells.last(), s, e) is Some,
    ensures
        start_from_piece(cells, s, e, word_piece(cells.last(), s, e)->0.start),
        end_from_piece(cells, s, e, word_piece(cells.last(), s, e)->0.end),
{
    reveal(start_from_piece);
    reveal(end_from_piece);
    assert(cells[cells.len() - 1] == cells.last());
}

proof fn lemma_envelope_step(cells: Seq<Cell>, s: Caret, e: Caret)
    requires
        cells.len() > 0,
        s.le(e),
        envelope_of_touched(cells.drop_last(), s, e, resolved(cells.drop_last(), s, e)),
    ensures
        envelope_of_touched(cells, s, e, resolved(cells, s, e)),
{
    let d = cells.drop_last();
    let n = cells.len() - 1;
    let c = cells.last();
    assert(c == cells[n]);
    let acc = resolved(d, s, e);
    let r = resolved(cells, s, e);
    assert(r == resolve_step(acc, c, s, e));
    assert(selects(c, s, e) <==> touches(c, s, e));
    if let Some(f) = acc.0 {
        lemma_piece_lift(cells, s, e, f);
    }
    if let Some(l) = acc.1 {
        lemma_piece_lift(cells, s, e, l);
    }
    if touches(c, s, e) && word_piece(c, s, e) is Some {
        let p = word_piece(c, s, e)->0;
        lemma_piece_last(cells, s, e);
        assert(p.start.byte <= p.end.byte);
        assert forall|k: int|
            0 <= k < cells.len() && touches(#[trigger] cells[k], s, e) && word_piece(cells[k], s, e) is Some implies {
            &&& r.0 matches Some(f) && f.byte <= word_piece(cells[k], s, e)->0.start.byte
            &&& r.1 matches Some(l) && l.byte >= word_piece(cells[k], s, e)->0.end.byte
        } by {
            if k < n {
                assert(d[k] == cells[k]);
            }
        }
    } else {
        assert(r == acc);
        assert forall|k: int|
            0 <= k < cells.len() && touches(#[trigger] cells[k], s, e) && word_piece(cells[k], s, e) is Some implies {
            &&& r.0 matches Some(f) && f.byte <= word_piece(cells[k], s, e)->0.start.byte
            &&& r.1 matches Some(l) && l.byte >= word_piece(cells[k], s, e)->0.end.byte
        } by {
            assert(k != n);
            assert(d[k] == cells[k]);
        }
    }
}

/// Resolving a selection gives the envelope of the source pieces of exactly
/// the cells that the selection touches (see `touches`): no touched word is
/// left out, and nothing comes from an untouched one.
pub proof fn resolved_is_envelope_of_touched_words(cells: Seq<Cell>, s: Caret, e: Caret)
    requires
        s.le(e),
    ensures
        envelope_of_touched(cells, s, e, resolved(cells, s, e)),
    decreases cells.len(),
{
    if cells.len() > 0 {
        resolved_is_envelope_of_touched_words(cells.drop_last(), s, e);
        lemma_envelope_step(cells, s, e);
    } else {
        reveal(start_from_piece);
        reveal(end_from_piece);
    }
}

/// The span that a selection resolves to (its carets in either order) starts
/// at or before, and ends at or after, the source piece of every word on the
/// selected lines that the selection touches; it starts where one of those
/// pieces starts and ends where one of them ends; and it is `None` only when no
/// touched word is source-backed.
pub proof fn selection_span_covers_touched_words(cs: Seq<Component>, a: Caret, b: Caret)
    ensures
        ({
            let s = if a.le(b) { a } else { b };
            let e = if a.le(b) { b } else { a };
            let cells = doc_cells_in(cs, s.line as int, e.line as int);
            &&& forall|k: int|
                0 <= k < cells.len() && touches(#[trigger] cells[k], s, e) && word_piece(cells[k], s, e) is Some
                    ==> (selection_span(cs, a, b) matches Some(sp) && sp.start.byte <= word_piece(
                    cells[k],
                    s,
                    e,
                )->0.start.byte && sp.end.byte >= word_piece(cells[k], s, e)->0.end.byte)
            &&& selection_span(cs, a, b) matches Some(sp) ==> start_from_piece(cells, s, e, sp.start)
                && end_from_piece(cells, s, e, sp.end)
        }),
{
    let s = if a.le(b) { a } else { b };
    let e = if a.le(b) { b } else { a };
    let cells = doc_cells_in(cs, s.line as int, e.line as int);
    resolved_is_envelope_of_touched_words(cells, s, e);
}

pub proof fn lemma_link_cells_len(cells: Seq<Cell>)
    ensures
        link_cells(cells).len() <= cells.len(),
    decreases cells.len(),
{
    if cells.len() > 0 {
        lemma_link_cells_len(cells.drop_last());
    }
}

} // verus!
