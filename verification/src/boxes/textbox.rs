//! A multi-line text box with strict character wrapping and an optional cursor.
use vstd::prelude::*;
use crate::metrics::{byte_len, utf8_len, byte_length, char_utf8_len, lemma_byte_len_step, lemma_byte_len_mono};
use crate::strings::string_push;
use vstd::arithmetic::div_mod::{
    lemma_fundamental_div_mod, lemma_fundamental_div_mod_converse, lemma_div_is_ordered, lemma_mod_pos_bound,
};
use ratatui::buffer::Buffer;
use ratatui::style::{Modifier, Style};

verus! {

broadcast use vstd::string::group_string_axioms;

#[verifier::external_type_specification]
#[verifier::external_body]
pub struct ExBuffer(Buffer);

#[verifier::external_type_specification]
#[verifier::external_body]
pub struct ExStyle(Style);

/// The symbol of each cell of a `ratatui` buffer that `Buffer::cell_mut`
/// reaches, keyed by its `(x, y)` position.
pub uninterp spec fn buffer_symbols(b: Buffer) -> Map<(u16, u16), Seq<char>>;

/// The positions of the cells of a `ratatui` buffer that `Buffer::cell_mut`
/// reaches and whose `style().add_modifier` holds `Modifier::REVERSED`.
pub uninterp spec fn buffer_reversed(b: Buffer) -> Set<(u16, u16)>;

/// Calls `Buffer::cell_mut((x, y))` and, where that yields a cell,
/// `Cell::set_symbol(symbol)`.
///
/// Claimed of them: the reachable positions stay the same; the cell at `(x, y)`,
/// where it is reachable, then has `symbol` as its symbol; no other cell
/// changes, and no cell's style changes.
#[verifier::external_body]
fn buffer_set_symbol(buf: &mut Buffer, x: u16, y: u16, symbol: &str)
    ensures
        buffer_symbols(*final(buf)) == if buffer_symbols(*old(buf)).dom().contains((x, y)) {
            buffer_symbols(*old(buf)).insert((x, y), symbol@)
        } else {
            buffer_symbols(*old(buf))
        },
        buffer_reversed(*final(buf)) == buffer_reversed(*old(buf)),
{
    if let Some(cell) = buf.cell_mut((x, y)) {
        cell.set_symbol(symbol);
    }
}

/// Whether `style.add_modifier` holds `Modifier::REVERSED`: `Cell::set_style(style)`
/// then turns reverse video on.
pub uninterp spec fn style_adds_reversed(style: Style) -> bool;

/// Whether `style.sub_modifier` holds `Modifier::REVERSED`: `Cell::set_style(style)`
/// then turns reverse video off.
pub uninterp spec fn style_removes_reversed(style: Style) -> bool;

/// Whether a cell has reverse video after `Cell::set_style(style)`, given
/// whether it had it before: `set_style` inserts the added modifiers, then
/// removes the removed ones.
pub open spec fn restyled(before: bool, style: Style) -> bool {
    if style_removes_reversed(style) {
        false
    } else if style_adds_reversed(style) {
        true
    } else {
        before
    }
}

/// The reverse-video cells after giving the cell at `p`, where `dom` holds
/// it, the style `style`.
pub open spec fn restyle_at(rev: Set<(u16, u16)>, dom: Set<(u16, u16)>, p: (u16, u16), style: Style) -> Set<
    (u16, u16),
> {
    if dom.contains(p) {
        if restyled(rev.contains(p), style) {
            rev.insert(p)
        } else {
            rev.remove(p)
        }
    } else {
        rev
    }
}

/// Calls `Buffer::cell_mut((x, y))` and, where that yields a cell,
/// `Cell::set_style(style)`.
///
/// Claimed of them: no symbol changes; the cell at `(x, y)`, where it is
/// reachable, has reverse video afterwards as `restyled` says; no other cell
/// changes its style. What the call does to colours and to the other
/// modifiers is not stated.
#[verifier::external_body]
fn buffer_set_style(buf: &mut Buffer, x: u16, y: u16, style: Style)
    ensures
        buffer_symbols(*final(buf)) == buffer_symbols(*old(buf)),
        buffer_reversed(*final(buf)) == restyle_at(
            buffer_reversed(*old(buf)),
            buffer_symbols(*old(buf)).dom(),
            (x, y),
            style,
        ),
{
    if let Some(cell) = buf.cell_mut((x, y)) {
        cell.set_style(style);
    }
}

/// Calls `Buffer::cell_mut((x, y))` and, where that yields a cell,
/// `Cell::set_style(Style::default().add_modifier(Modifier::REVERSED))`, which
/// adds reverse video and keeps the cell's colours.
///
/// Claimed of them: no symbol changes; the cell at `(x, y)`, where it is
/// reachable, then has reverse video; no other cell changes its style.
#[verifier::external_body]
fn buffer_set_reversed(buf: &mut Buffer, x: u16, y: u16)
    ensures
        buffer_symbols(*final(buf)) == buffer_symbols(*old(buf)),
        buffer_reversed(*final(buf)) == if buffer_symbols(*old(buf)).dom().contains((x, y)) {
            buffer_reversed(*old(buf)).insert((x, y))
        } else {
            buffer_reversed(*old(buf))
        },
{
    if let Some(cell) = buf.cell_mut((x, y)) {
        cell.set_style(Style::default().add_modifier(Modifier::REVERSED));
    }
}

/// Calls `Style::default`, the style with no colours and no modifiers: it
/// neither adds nor removes reverse video. Nothing else is stated of it.
#[verifier::external_body]
fn default_style() -> (s: Style)
    ensures
        !style_adds_reversed(s),
        !style_removes_reversed(s),
{
    Style::default()
}


/// The `'\n'`-separated paragraphs of `s`, in order (at least one, possibly empty).
pub open spec fn paragraphs(s: Seq<char>) -> Seq<Seq<char>>
    decreases s.len(),
{
    if s.len() == 0 {
        seq![Seq::<char>::empty()]
    } else {
        let p = paragraphs(s.drop_last());
        if s.last() == '\n' {
            p.push(Seq::empty())
        } else {
            p.update(p.len() - 1, p.last().push(s.last()))
        }
    }
}

/// Rows that `n` chars take when wrapped at `w` columns: `ceil(n / w)`, at least one.
pub open spec fn rows_for(n: nat, w: nat) -> nat {
    let r = ((n + w - 1) / (w as int)) as nat;
    if r < 1 {
        1
    } else {
        r
    }
}

/// Rows that the paragraphs `ps` take when wrapped at `w` columns.
pub open spec fn rows_sum(ps: Seq<Seq<char>>, w: nat) -> nat
    decreases ps.len(),
{
    if ps.len() == 0 {
        0
    } else {
        rows_sum(ps.drop_last(), w) + rows_for(ps.last().len(), w)
    }
}

/// Rows that `s` takes wrapped at `w` columns, the last paragraph holding one
/// more slot for the insertion point when there is a cursor.
pub open spec fn text_height(s: Seq<char>, w: nat, has_cursor: bool) -> nat {
    let ps = paragraphs(s);
    rows_sum(ps.drop_last(), w) + rows_for(ps.last().len() + if has_cursor { 1nat } else { 0nat }, w)
}

/// Rows of one paragraph as the height sum adds them: cut to 16 bits.
pub open spec fn rows_cut(n: nat, w: nat) -> nat {
    rows_for(n, w) % 0x10000
}

/// `rows_sum` with each paragraph's rows cut to 16 bits.
pub open spec fn cut_sum(ps: Seq<Seq<char>>, w: nat) -> nat
    decreases ps.len(),
{
    if ps.len() == 0 {
        0
    } else {
        cut_sum(ps.drop_last(), w) + rows_cut(ps.last().len(), w)
    }
}

/// `text_height` with each paragraph's rows cut to 16 bits, as `calculate_height`
/// adds them up.
pub open spec fn cut_height(s: Seq<char>, w: nat, has_cursor: bool) -> nat {
    let ps = paragraphs(s);
    cut_sum(ps.drop_last(), w) + rows_cut(ps.last().len() + if has_cursor { 1nat } else { 0nat }, w)
}

proof fn lemma_cut_sum_uncut(ps: Seq<Seq<char>>, w: nat)
    requires
        rows_sum(ps, w) < 0x10000,
    ensures
        cut_sum(ps, w) == rows_sum(ps, w),
    decreases ps.len(),
{
    if ps.len() > 0 {
        lemma_cut_sum_uncut(ps.drop_last(), w);
    }
}

pub proof fn lemma_paragraphs_len(s: Seq<char>)
    ensures
        paragraphs(s).len() >= 1,
    decreases s.len(),
{
    if s.len() > 0 {
        lemma_paragraphs_len(s.drop_last());
    }
}

proof fn lemma_len_le_byte_len(s: Seq<char>)
    ensures
        s.len() <= byte_len(s),
    decreases s.len(),
{
    if s.len() > 0 {
        lemma_len_le_byte_len(s.drop_last());
    }
}

proof fn lemma_rows_for_bound(n: nat, w: nat)
    requires
        w >= 1,
    ensures
        rows_for(n, w) <= n + 1,
        rows_for(n, w) >= 1,
{
    if n >= 1 {
        assert((n + w - 1) / (w as int) <= n) by (nonlinear_arith)
            requires
                n >= 1,
                w >= 1,
        ;
    } else {
        assert((n + w - 1) / (w as int) <= 1) by (nonlinear_arith)
            requires
                n == 0,
                w >= 1,
        ;
    }
}

/// `ceil(n / w)`, at least one, for `w >= 1`.
fn rows_for_exec(n: u128, w: u128) -> (r: u128)
    requires
        w >= 1,
        n + w <= u128::MAX,
    ensures
        r == rows_for(n as nat, w as nat),
{
    let r = (n + w - 1) / w;
    if r < 1 {
        1
    } else {
        r
    }
}

/// Row (within its paragraph) of the place after the first `n` chars of a
/// paragraph wrapped at `w` columns.
pub open spec fn para_row(n: nat, w: nat) -> nat {
    if n == 0 {
        0
    } else {
        ((n - 1) / (w as int)) as nat
    }
}

/// Column of the place after the first `n` chars of a paragraph wrapped at `w`
/// columns (`w` itself when the row is full).
pub open spec fn para_col(n: nat, w: nat) -> nat {
    if n == 0 {
        0
    } else {
        ((n - 1) % (w as int) + 1) as nat
    }
}

proof fn lemma_next_pos(m: int, w: int)
    requires
        m >= 0,
        w >= 1,
    ensures
        0 <= m % w < w,
        m % w == w - 1 ==> (m + 1) / w == m / w + 1 && (m + 1) % w == 0,
        m % w != w - 1 ==> (m + 1) / w == m / w && (m + 1) % w == m % w + 1,
        (m + w) / w == m / w + 1,
        m / w >= 0,
{
    lemma_fundamental_div_mod(m, w);
    lemma_mod_pos_bound(m, w);
    let q = m / w;
    let r = m % w;
    assert(m == q * w + r) by (nonlinear_arith)
        requires
            m == w * q + r,
    ;
    assert(m + w == (q + 1) * w + r) by (nonlinear_arith)
        requires
            m == q * w + r,
    ;
    lemma_fundamental_div_mod_converse(m + w, w, q + 1, r);
    if r == w - 1 {
        assert(m + 1 == (q + 1) * w + 0) by (nonlinear_arith)
            requires
                m == q * w + r,
                r == w - 1,
        ;
        lemma_fundamental_div_mod_converse(m + 1, w, q + 1, 0);
    } else {
        lemma_fundamental_div_mod_converse(m + 1, w, q, r + 1);
    }
    assert(q >= 0) by (nonlinear_arith)
        requires
            m == q * w + r,
            m >= 0,
            0 <= r < w,
            w >= 1,
    ;
}

proof fn lemma_rows_for_row(n: nat, w: nat)
    requires
        w >= 1,
    ensures
        rows_for(n, w) == para_row(n, w) + 1,
{
    if n >= 1 {
        lemma_next_pos(n - 1, w as int);
    } else {
        assert((w - 1) / (w as int) == 0) by (nonlinear_arith)
            requires
                w >= 1,
        ;
    }
}

proof fn lemma_rows_for_mono(n: nat, m: nat, w: nat)
    requires
        w >= 1,
        n <= m,
    ensures
        rows_for(n, w) <= rows_for(m, w),
{
    lemma_div_is_ordered(n + w - 1, m + w - 1, w as int);
}

proof fn lemma_text_height_step(t: Seq<char>, i: int, w: nat)
    requires
        0 <= i < t.len(),
        w >= 1,
    ensures
        text_height(t.take(i), w, false) <= text_height(t.take(i + 1), w, false),
{
    assert(t.take(i + 1).drop_last() =~= t.take(i));
    lemma_paragraphs_len(t.take(i));
    let p = paragraphs(t.take(i));
    if t[i] == '\n' {
        assert(paragraphs(t.take(i + 1)).drop_last() =~= p);
        assert(p =~= p.drop_last().push(p.last()));
    } else {
        assert(paragraphs(t.take(i + 1)).drop_last() =~= p.drop_last());
        lemma_rows_for_mono(p.last().len(), p.last().len() + 1, w);
    }
}

proof fn lemma_text_height_prefix(t: Seq<char>, i: int, w: nat)
    requires
        0 <= i <= t.len(),
        w >= 1,
    ensures
        text_height(t.take(i), w, false) <= text_height(t, w, true),
    decreases t.len() - i,
{
    if i < t.len() {
        lemma_text_height_step(t, i, w);
        lemma_text_height_prefix(t, i + 1, w);
    } else {
        assert(t.take(i) =~= t);
        lemma_paragraphs_len(t);
        let p = paragraphs(t);
        lemma_rows_for_mono(p.last().len(), p.last().len() + 1, w);
    }
}

/// The renderer over `t` is still drawing, on the row and column that the
/// paragraphs of `t` reach, and has not placed the cursor.
spec fn run_shape(t: Seq<char>, area: Area, cursor: Option<usize>) -> bool {
    let st = wrap_run(t, start_state(area), cursor);
    let p = paragraphs(t);
    &&& st.1
    &&& st.0.area == area
    &&& st.0.line == rows_sum(p.drop_last(), area.width as nat) + para_row(p.last().len(), area.width as nat)
    &&& st.0.col == para_col(p.last().len(), area.width as nat)
    &&& st.0.byte_idx == byte_len(t)
    &&& st.0.cursor_xy is None
}

/// The renderer over the first `i` chars of `t`, when the area has the rows
/// that `calculate_height` asks for with a cursor at the end of `t`: still
/// drawing, on the row and column that the paragraphs so far reach, and with
/// the cursor not yet placed.
#[verifier::rlimit(40)]
proof fn lemma_run_shape(t: Seq<char>, area: Area, cursor: Option<usize>, i: int)
    requires
        area.fits(),
        area.width > 0,
        text_height(t, area.width as nat, true) <= area.height,
        byte_len(t) <= usize::MAX,
        cursor == Some(byte_len(t) as usize),
        0 <= i <= t.len(),
    ensures
        run_shape(t.take(i), area, cursor),
    decreases i,
{
    let w = area.width as nat;
    if i == 0 {
        assert(t.take(0) =~= Seq::<char>::empty());
        assert(paragraphs(t.take(0)).drop_last() =~= Seq::<Seq<char>>::empty());
    } else {
        lemma_run_shape(t, area, cursor, i - 1);
        let ti = t.take(i);
        assert(ti.drop_last() =~= t.take(i - 1));
        assert(ti.last() == t[i - 1]);
        let prev = wrap_run(t.take(i - 1), start_state(area), cursor);
        let p = paragraphs(t.take(i - 1));
        lemma_paragraphs_len(t.take(i - 1));
        let n = p.last().len();
        let r = rows_sum(p.drop_last(), w);
        lemma_byte_len_step(t, i - 1);
        lemma_byte_len_mono(t, i, t.len() as int);
        assert(t.take(t.len() as int) =~= t);
        assert(checked(prev.0, cursor, t[i - 1]) == prev.0);
        lemma_text_height_prefix(t, i, w);
        let ch = t[i - 1];
        let step = char_rendered(prev.0, ch);
        assert(wrap_run(ti, start_state(area), cursor).0 == step.0);
        assert(wrap_run(ti, start_state(area), cursor).1 == step.1);
        if ch == '\n' {
            assert(paragraphs(ti).drop_last() =~= p);
            assert(p =~= p.drop_last().push(p.last()));
            lemma_rows_for_row(n, w);
            assert(paragraphs(ti).last() =~= Seq::<char>::empty());
            lemma_rows_for_row(0, w);
            assert(run_shape(ti, area, cursor));
        } else {
            assert(paragraphs(ti).drop_last() =~= p.drop_last());
            assert(paragraphs(ti).last().len() == n + 1);
            lemma_rows_for_row(n + 1, w);
            if n >= 1 {
                lemma_next_pos(n - 1, w as int);
            } else {
                lemma_next_pos(0, w as int);
            }
            assert(run_shape(ti, area, cursor));
        }
    }
}

/// `calculate_height` with a cursor counts exactly the rows that the renderer
/// uses for a cursor at the end of the text: in an area that many rows high,
/// the whole text is drawn and the cursor cell is on its last row.
pub proof fn trailing_cursor_on_last_counted_row(t: Seq<char>, area: Area)
    requires
        area.fits(),
        area.width > 0,
        text_height(t, area.width as nat, true) <= area.height,
        byte_len(t) <= usize::MAX,
    ensures
        ({
            let cursor = Some(byte_len(t) as usize);
            let st = wrap_run(t, start_state(area), cursor);
            &&& st.1
            &&& finalized(st.0, cursor).cursor_xy matches Some(xy)
                && xy.1 == area.y + text_height(t, area.width as nat, true) - 1
        }),
{
    let w = area.width as nat;
    let cursor = Some(byte_len(t) as usize);
    lemma_run_shape(t, area, cursor, t.len() as int);
    assert(t.take(t.len() as int) =~= t);
    assert(run_shape(t, area, cursor));
    lemma_paragraphs_len(t);
    let p = paragraphs(t);
    let n = p.last().len();
    lemma_rows_for_row(n + 1, w);
    if n >= 1 {
        lemma_next_pos(n - 1, w as int);
    }
    lemma_next_pos(n as int, w as int);
}

/// A rectangle of terminal cells: its top-left corner and its size.
#[derive(Clone, Copy, Debug, PartialEq, Eq, Structural)]
pub struct Area {
    pub x: u16,
    pub y: u16,
    pub width: u16,
    pub height: u16,
}

impl Area {
    /// The rectangle lies within the `u16` coordinates.
    pub open spec fn fits(self) -> bool {
        self.x + self.width <= u16::MAX && self.y + self.height <= u16::MAX
    }

    /// The position lies inside the rectangle.
    pub open spec fn holds(self, p: (u16, u16)) -> bool {
        self.x <= p.0 < self.x + self.width && self.y <= p.1 < self.y + self.height
    }
}

/// A cell drawn by the text box: its position and its char.
pub type Glyph = (u16, u16, char);

/// A multi-line text widget with strict character wrapping (no word wrap), so
/// that the cursor always stays in step with the rendered text: the text, the
/// byte offset of the cursor if any, and the style of its cells.
pub struct TextBox<'a> {
    pub text: &'a str,
    pub cursor: Option<usize>,
    pub style: Style,
}

/// Where the text box draws next: the row and column within its area, the
/// byte offset reached in the text, and the cursor cell once found.
pub struct WrapState {
    pub area: Area,
    pub line: u16,
    pub col: u16,
    pub byte_idx: usize,
    pub cursor_xy: Option<(u16, u16)>,
}

/// The drawing state of a text box, with the style it draws in.
struct WrappingRenderer {
    area: Area,
    style: Style,
    line: u16,
    col: u16,
    byte_idx: usize,
    cursor_xy: Option<(u16, u16)>,
}

impl View for WrappingRenderer {
    type V = WrapState;

    closed spec fn view(&self) -> WrapState {
        WrapState {
            area: self.area,
            line: self.line,
            col: self.col,
            byte_idx: self.byte_idx,
            cursor_xy: self.cursor_xy,
        }
    }
}

/// The renderer at the start of `area`.
pub open spec fn start_state(area: Area) -> WrapState {
    WrapState { area, line: 0, col: 0, byte_idx: 0, cursor_xy: None }
}

/// The renderer after looking for the cursor before the next char `ch`: when
/// the cursor's byte offset is reached, the cursor cell is where `ch` goes,
/// at the start of the next row when `ch` is drawn on a wrapped row (no cell
/// when no row is left for it), else the current position.
pub open spec fn checked(r: WrapState, cursor: Option<usize>, ch: char) -> WrapState {
    if cursor == Some(r.byte_idx) && r.cursor_xy is None {
        if ch != '\n' && r.col >= r.area.width {
            if r.line + 1 < r.area.height {
                WrapState { cursor_xy: Some((r.area.x, (r.area.y + r.line + 1) as u16)), ..r }
            } else {
                r
            }
        } else {
            WrapState { cursor_xy: Some(((r.area.x + r.col) as u16, (r.area.y + r.line) as u16)), ..r }
        }
    } else {
        r
    }
}
/// The renderer moved to the start of the next row.
pub open spec fn next_lined(r: WrapState) -> WrapState {
    WrapState { line: (r.line + 1) as u16, col: 0, ..r }
}

/// One char: the renderer after it, whether there is room for more, and the
/// glyph it draws. A newline moves to the next row; another char wraps first
/// when the row is full, and ends the drawing when no row is left.
pub open spec fn char_rendered(r: WrapState, ch: char) -> (WrapState, bool, Option<Glyph>) {
    if ch == '\n' {
        let n = next_lined(WrapState { byte_idx: (r.byte_idx + utf8_len(ch)) as usize, ..r });
        (n, n.line < n.area.height, None)
    } else {
        let r1 = if r.col >= r.area.width { next_lined(r) } else { r };
        if r1.line < r1.area.height {
            let g: Glyph = ((r1.area.x + r1.col) as u16, (r1.area.y + r1.line) as u16, ch);
            (
                WrapState { col: (r1.col + 1) as u16, byte_idx: (r1.byte_idx + utf8_len(ch)) as usize, ..r1 },
                true,
                Some(g),
            )
        } else {
            (r1, false, None)
        }
    }
}

/// The renderer after the chars of `text` (stopping when no row is left),
/// whether it is still drawing, and the glyphs drawn in order.
pub open spec fn wrap_run(text: Seq<char>, r0: WrapState, cursor: Option<usize>) -> (
    WrapState,
    bool,
    Seq<Glyph>,
)
    decreases text.len(),
{
    if text.len() == 0 {
        (r0, true, Seq::empty())
    } else {
        let prev = wrap_run(text.drop_last(), r0, cursor);
        if !prev.1 {
            prev
        } else {
            let step = char_rendered(checked(prev.0, cursor, text.last()), text.last());
            (
                step.0,
                step.1,
                match step.2 {
                    Some(g) => prev.2.push(g),
                    None => prev.2,
                },
            )
        }
    }
}

/// The renderer after placing a cursor that sits past the last char: on the
/// next row when the current one is full, and only where a row is left.
pub open spec fn finalized(r: WrapState, cursor: Option<usize>) -> WrapState {
    if cursor == Some(r.byte_idx) && r.cursor_xy is None {
        let r1 = if r.col >= r.area.width { next_lined(r) } else { r };
        if r1.line < r1.area.height {
            WrapState { cursor_xy: Some(((r1.area.x + r1.col) as u16, (r1.area.y + r1.line) as u16)), ..r1 }
        } else {
            r1
        }
    } else {
        r
    }
}

/// The symbols of a buffer after blanking the cells of `area`.
pub open spec fn filled(m: Map<(u16, u16), Seq<char>>, area: Area) -> Map<(u16, u16), Seq<char>> {
    Map::new(|p: (u16, u16)| m.dom().contains(p), |p: (u16, u16)| if area.holds(p) { seq![' '] } else { m[p] })
}

/// The symbols of a buffer after drawing `gs` in order, each where the buffer has a cell.
pub open spec fn painted(m: Map<(u16, u16), Seq<char>>, gs: Seq<Glyph>) -> Map<(u16, u16), Seq<char>>
    decreases gs.len(),
{
    if gs.len() == 0 {
        m
    } else {
        let m1 = painted(m, gs.drop_last());
        let g = gs.last();
        if m1.dom().contains((g.0, g.1)) {
            m1.insert((g.0, g.1), seq![g.2])
        } else {
            m1
        }
    }
}

/// The cursor stays in step with the text: where the cursor's byte offset is
/// reached before a char that gets drawn, the cursor cell is the cell that
/// char is drawn in (on the next row when the char wraps).
pub proof fn cursor_cell_is_drawn_cell(r: WrapState, cursor: Option<usize>, ch: char)
    requires
        sane(r),
        r.line < r.area.height,
        cursor == Some(r.byte_idx),
        r.cursor_xy is None,
        char_rendered(checked(r, cursor, ch), ch).2 is Some,
    ensures
        ({
            let g = char_rendered(checked(r, cursor, ch), ch).2->0;
            checked(r, cursor, ch).cursor_xy == Some((g.0, g.1))
        }),
{
}

proof fn lemma_painted_dom(m: Map<(u16, u16), Seq<char>>, gs: Seq<Glyph>)
    ensures
        painted(m, gs).dom() == m.dom(),
    decreases gs.len(),
{
    if gs.len() > 0 {
        lemma_painted_dom(m, gs.drop_last());
        let m1 = painted(m, gs.drop_last());
        let g = gs.last();
        if m1.dom().contains((g.0, g.1)) {
            assert(m1.insert((g.0, g.1), seq![g.2]).dom() =~= m1.dom());
        }
    }
}

/// The renderer is within its area: the column at most the width, the row at
/// most the height, and at the start of a row once past the last one.
pub open spec fn sane(r: WrapState) -> bool {
    &&& r.area.fits()
    &&& r.area.width > 0
    &&& r.col <= r.area.width
    &&& r.line <= r.area.height
    &&& r.line == r.area.height ==> r.col == 0
}

impl WrappingRenderer {
    fn new(area: Area, style: Style) -> (r: Self)
        ensures
            r@ == start_state(area),
            r.style == style,
    {
        WrappingRenderer { area, style, line: 0, col: 0, byte_idx: 0, cursor_xy: None }
    }

    /// Blanks every cell of the area, giving it the text box's style.
    fn pre_fill(&self, buf: &mut Buffer)
        requires
            self.area.fits(),
        ensures
            buffer_symbols(*final(buf)) == filled(buffer_symbols(*old(buf)), self.area),
            buffer_reversed(*final(buf)) == styled_area(
                buffer_reversed(*old(buf)),
                buffer_symbols(*old(buf)).dom(),
                self.area,
                self.style,
            ),
    {
        let ghost m0 = buffer_symbols(*buf);
        let ghost r0 = buffer_reversed(*buf);
        let ghost d0 = m0.dom();
        let a = self.area;
        proof {
            reveal_strlit(" ");
            assert(m0 =~= filled_upto(m0, a, a.y as int, a.x as int));
            assert(r0 =~= styled_upto(r0, d0, a, self.style, a.y as int, a.x as int));
        }
        let mut y = a.y;
        while y < a.y + a.height
            invariant
                a == self.area,
                a.fits(),
                a.y <= y <= a.y + a.height,
                buffer_symbols(*buf) == filled_upto(m0, a, y as int, a.x as int),
                buffer_reversed(*buf) == styled_upto(r0, d0, a, self.style, y as int, a.x as int),
                d0 == m0.dom(),
                " "@ == seq![' '],
            decreases a.y + a.height - y,
        {
            let mut x = a.x;
            while x < a.x + a.width
                invariant
                    a == self.area,
                    a.fits(),
                    a.y <= y < a.y + a.height,
                    a.x <= x <= a.x + a.width,
                    buffer_symbols(*buf) == filled_upto(m0, a, y as int, x as int),
                    buffer_reversed(*buf) == styled_upto(r0, d0, a, self.style, y as int, x as int),
                    d0 == m0.dom(),
                    " "@ == seq![' '],
                decreases a.x + a.width - x,
            {
                buffer_set_symbol(buf, x, y, " ");
                proof {
                    assert(filled_upto(m0, a, y as int, x as int).dom() =~= d0);
                }
                buffer_set_style(buf, x, y, self.style);
                proof {
                    assert(buffer_symbols(*buf) =~= filled_upto(m0, a, y as int, x + 1));
                    assert(buffer_reversed(*buf) =~= styled_upto(r0, d0, a, self.style, y as int, x + 1));
                }
                x = x + 1;
            }
            proof {
                assert(filled_upto(m0, a, y as int, (a.x + a.width) as int) =~= filled_upto(m0, a, y + 1, a.x as int));
                assert(styled_upto(r0, d0, a, self.style, y as int, (a.x + a.width) as int) =~= styled_upto(
                    r0,
                    d0,
                    a,
                    self.style,
                    y + 1,
                    a.x as int,
                ));
            }
            y = y + 1;
        }
        proof {
            assert(filled_upto(m0, a, (a.y + a.height) as int, a.x as int) =~= filled(m0, a));
            assert(styled_upto(r0, d0, a, self.style, (a.y + a.height) as int, a.x as int) =~= styled_area(
                r0,
                d0,
                a,
                self.style,
            ));
        }
    }

    /// Records the cursor cell when the cursor's byte offset is reached.
    fn check_cursor(&mut self, cursor: Option<usize>, ch: char)
        requires
            sane(old(self)@),
            old(self).line < old(self).area.height,
        ensures
            final(self)@ == checked(old(self)@, cursor, ch),
            final(self).style == old(self).style,
    {
        if cursor == Some(self.byte_idx) && self.cursor_xy.is_none() {
            if ch != '\n' && self.col >= self.area.width {
                if self.line + 1 < self.area.height {
                    self.cursor_xy = Some((self.area.x, self.area.y + self.line + 1));
                }
            } else {
                self.cursor_xy = Some((self.area.x + self.col, self.area.y + self.line));
            }
        }
    }

    /// Moves to the start of the next row; whether that row is inside the area.
    fn next_line(&mut self) -> (ok: bool)
        requires
            old(self).line < u16::MAX,
        ensures
            final(self)@ == next_lined(old(self)@),
            final(self).style == old(self).style,
            ok == (final(self).line < final(self).area.height),
    {
        self.line = self.line + 1;
        self.col = 0;
        self.line < self.area.height
    }

    /// Draws one char, wrapping when the row is full; `false` when no row is left.
    fn render_char(&mut self, buf: &mut Buffer, ch: char) -> (ok: bool)
        requires
            sane(old(self)@),
            old(self).line < old(self).area.height,
            old(self).byte_idx + utf8_len(ch) <= usize::MAX,
        ensures
            (final(self)@, ok) == (char_rendered(old(self)@, ch).0, char_rendered(old(self)@, ch).1),
            final(self).style == old(self).style,
            sane(final(self)@),
            buffer_symbols(*final(buf)) == match char_rendered(old(self)@, ch).2 {
                Some(g) => painted(buffer_symbols(*old(buf)), seq![g]),
                None => buffer_symbols(*old(buf)),
            },
            buffer_reversed(*final(buf)) == match char_rendered(old(self)@, ch).2 {
                Some(g) => restyle_at(
                    buffer_reversed(*old(buf)),
                    buffer_symbols(*old(buf)).dom(),
                    (g.0, g.1),
                    old(self).style,
                ),
                None => buffer_reversed(*old(buf)),
            },
            char_rendered(old(self)@, ch).2 matches Some(g) ==> old(self).area.holds((g.0, g.1)),
    {
        if ch == '\n' {
            self.byte_idx = self.byte_idx + char_utf8_len(ch);
            return self.next_line();
        }
        if self.col >= self.area.width && !self.next_line() {
            return false;
        }
        let x = self.area.x + self.col;
        let y = self.area.y + self.line;
        let mut symbol = String::new();
        string_push(&mut symbol, ch);
        proof {
            assert(symbol@ =~= seq![ch]);
            let gs: Seq<Glyph> = seq![(x, y, ch)];
            assert(gs.drop_last() =~= Seq::<Glyph>::empty());
            assert(gs.last() == (x, y, ch));
            assert(painted(buffer_symbols(*buf), gs.drop_last()) == buffer_symbols(*buf));
            assert(char_rendered(old(self)@, ch).2 == Some((x, y, ch)));
            assert(painted(buffer_symbols(*buf), seq![(x, y, ch)]) == (if buffer_symbols(*buf).dom().contains((x, y)) {
                buffer_symbols(*buf).insert((x, y), seq![ch])
            } else {
                buffer_symbols(*buf)
            }));
        }
        let ghost d = buffer_symbols(*buf).dom();
        buffer_set_symbol(buf, x, y, symbol.as_str());
        proof {
            if d.contains((x, y)) {
                assert(buffer_symbols(*buf).dom() =~= d);
            }
        }
        buffer_set_style(buf, x, y, self.style);
        self.col = self.col + 1;
        self.byte_idx = self.byte_idx + char_utf8_len(ch);
        true
    }

    /// Places a cursor that sits past the last char.
    fn finalize_cursor(&mut self, cursor: Option<usize>)
        requires
            sane(old(self)@),
        ensures
            final(self)@ == finalized(old(self)@, cursor),
            final(self).style == old(self).style,
    {
        if cursor == Some(self.byte_idx) && self.cursor_xy.is_none() {
            if self.col >= self.area.width {
                let _ = self.next_line();
            }
            if self.line < self.area.height {
                self.cursor_xy = Some((self.area.x + self.col, self.area.y + self.line));
            }
        }
    }
}

/// The reverse-video cells after giving every cell of `area` that `dom` holds
/// the style `style`.
pub open spec fn styled_area(rev: Set<(u16, u16)>, dom: Set<(u16, u16)>, area: Area, style: Style) -> Set<(u16, u16)> {
    Set::new(
        |p: (u16, u16)|
            if dom.contains(p) && area.holds(p) {
                restyled(rev.contains(p), style)
            } else {
                rev.contains(p)
            },
    )
}

/// The reverse-video cells after also giving the cursor cell `xy`, where
/// there is one and `dom` holds it, reverse video.
pub open spec fn with_cursor(rev: Set<(u16, u16)>, dom: Set<(u16, u16)>, xy: Option<(u16, u16)>) -> Set<(u16, u16)> {
    match xy {
        Some(p) => if dom.contains(p) {
            rev.insert(p)
        } else {
            rev
        },
        None => rev,
    }
}

/// In a style that neither adds nor removes reverse video, `render` leaves
/// reverse video as it was on every cell but the cursor cell, which gains it:
/// the cursor is the one cell that the text box itself shows in reverse video.
pub proof fn neutral_style_reverses_only_the_cursor(
    rev: Set<(u16, u16)>,
    dom: Set<(u16, u16)>,
    area: Area,
    style: Style,
    xy: Option<(u16, u16)>,
)
    requires
        !style_adds_reversed(style),
        !style_removes_reversed(style),
    ensures
        with_cursor(styled_area(rev, dom, area, style), dom, xy) == with_cursor(rev, dom, xy),
{
    assert(styled_area(rev, dom, area, style) =~= rev);
}

/// Styling a cell of the area again, in the same style, changes nothing.
proof fn lemma_restyle_in_area(rev: Set<(u16, u16)>, dom: Set<(u16, u16)>, area: Area, style: Style, p: (u16, u16))
    requires
        area.holds(p),
    ensures
        restyle_at(styled_area(rev, dom, area, style), dom, p, style) == styled_area(rev, dom, area, style),
{
    let sa = styled_area(rev, dom, area, style);
    if dom.contains(p) {
        if restyled(sa.contains(p), style) {
            assert(sa.insert(p) =~= sa);
        } else {
            assert(sa.remove(p) =~= sa);
        }
    }
}

/// `styled_area` over the rows of `area` above `y`, and row `y` left of `x`.
pub open spec fn styled_upto(
    rev: Set<(u16, u16)>,
    dom: Set<(u16, u16)>,
    area: Area,
    style: Style,
    y: int,
    x: int,
) -> Set<(u16, u16)> {
    Set::new(
        |p: (u16, u16)|
            if dom.contains(p) && area.holds(p) && (p.1 < y || (p.1 == y && p.0 < x)) {
                restyled(rev.contains(p), style)
            } else {
                rev.contains(p)
            },
    )
}

/// The symbols after blanking the rows of `area` above `y`, and row `y` left of `x`.
pub open spec fn filled_upto(m: Map<(u16, u16), Seq<char>>, area: Area, y: int, x: int) -> Map<
    (u16, u16),
    Seq<char>,
> {
    Map::new(
        |p: (u16, u16)| m.dom().contains(p),
        |p: (u16, u16)|
            if area.holds(p) && (p.1 < y || (p.1 == y && p.0 < x)) {
                seq![' ']
            } else {
                m[p]
            },
    )
}

impl<'a> TextBox<'a> {
    /// A text box for `text`, with no cursor and the default style.
    pub fn new(text: &'a str) -> (r: Self)
        ensures
            r.text == text,
            r.cursor is None,
            !style_adds_reversed(r.style),
            !style_removes_reversed(r.style),
    {
        TextBox { text, cursor: None, style: default_style() }
    }

    /// The same text box with its cursor at byte offset `cursor`.
    pub fn cursor(self, cursor: usize) -> (r: Self)
        ensures
            r.text == self.text,
            r.cursor == Some(cursor),
            r.style == self.style,
    {
        TextBox { cursor: Some(cursor), ..self }
    }

    /// The same text box drawn in `style`.
    pub fn style(self, style: Style) -> (r: Self)
        ensures
            r.text == self.text,
            r.cursor == self.cursor,
            r.style == style,
    {
        TextBox { style, ..self }
    }

    /// Draws the text box over `area` of `buf`: blanks the area in the box's
    /// style, draws the chars wrapped at the area's width (a newline starts a
    /// new row; drawing stops when no row is left), and gives the cursor cell
    /// reverse video. A zero-sized area draws nothing.
    pub fn render(self, area: Area, buf: &mut Buffer)
        requires
            area.fits(),
        ensures
            area.width == 0 || area.height == 0 ==> buffer_symbols(*final(buf)) == buffer_symbols(*old(buf)),
            area.width > 0 && area.height > 0 ==> buffer_symbols(*final(buf)) == painted(
                filled(buffer_symbols(*old(buf)), area),
                wrap_run(self.text@, start_state(area), self.cursor).2,
            ),
            area.width > 0 && area.height > 0 ==> buffer_reversed(*final(buf)) == with_cursor(
                styled_area(buffer_reversed(*old(buf)), buffer_symbols(*old(buf)).dom(), area, self.style),
                buffer_symbols(*old(buf)).dom(),
                finalized(wrap_run(self.text@, start_state(area), self.cursor).0, self.cursor).cursor_xy,
            ),
            area.width == 0 || area.height == 0 ==> buffer_reversed(*final(buf)) == buffer_reversed(*old(buf)),
    {
        if area.width == 0 || area.height == 0 {
            return;
        }
        let ghost r0 = buffer_reversed(*buf);
        let ghost d0 = buffer_symbols(*buf).dom();
        let mut renderer = WrappingRenderer::new(area, self.style);
        renderer.pre_fill(buf);
        let ghost m1 = buffer_symbols(*buf);
        let ghost rv = styled_area(r0, d0, area, self.style);
        proof {
            assert(m1.dom() =~= d0);
        }
        let ghost sv = self.text@;
        let ghost cursor = self.cursor;
        let total = byte_length(self.text);
        let mut going = true;
        proof {
            assert(sv.take(0) =~= Seq::<char>::empty());
        }
        for ch in it: self.text.chars()
            invariant
                it.seq() == sv,
                cursor == self.cursor,
                total == byte_len(sv),
                area.fits(),
                area.width > 0,
                renderer@ == wrap_run(sv.take(it.index()), start_state(area), cursor).0,
                going == wrap_run(sv.take(it.index()), start_state(area), cursor).1,
                buffer_symbols(*buf) == painted(m1, wrap_run(sv.take(it.index()), start_state(area), cursor).2),
                sane(renderer@),
                renderer@.area == area,
                going ==> renderer@.line < area.height,
                going ==> renderer@.byte_idx == byte_len(sv.take(it.index())),
                renderer.style == self.style,
                m1.dom() == d0,
                rv == styled_area(r0, d0, area, self.style),
                buffer_reversed(*buf) == rv,
        {
            let ghost i = it.index();
            let ghost prev = wrap_run(sv.take(i), start_state(area), cursor);
            proof {
                assert(sv.take(i + 1).drop_last() =~= sv.take(i));
                assert(sv.take(i + 1).last() == ch);
                lemma_byte_len_step(sv, i);
                lemma_byte_len_mono(sv, i + 1, sv.len() as int);
                assert(sv.take(sv.len() as int) =~= sv);
            }
            if going {
                let ghost before = buffer_symbols(*buf);
                renderer.check_cursor(self.cursor, ch);
                going = renderer.render_char(buf, ch);
                proof {
                    let step = char_rendered(checked(prev.0, cursor, ch), ch);
                    match step.2 {
                        Some(g) => {
                            assert(prev.2.push(g).drop_last() =~= prev.2);
                            let one: Seq<Glyph> = seq![g];
                            assert(one.drop_last() =~= Seq::<Glyph>::empty());
                            assert(one.last() == g);
                            assert(painted(before, one.drop_last()) == before);
                            assert(before == painted(m1, prev.2));
                            lemma_painted_dom(m1, prev.2);
                            lemma_restyle_in_area(r0, d0, area, self.style, (g.0, g.1));
                        },
                        None => {},
                    }
                }
            }
        }
        proof {
            assert(sv.take(sv.len() as int) =~= sv);
        }
        renderer.finalize_cursor(self.cursor);
        proof {
            lemma_painted_dom(m1, wrap_run(sv, start_state(area), cursor).2);
        }
        match renderer.cursor_xy {
            Some((cx, cy)) => {
                buffer_set_reversed(buf, cx, cy);
            },
            None => {},
        }
    }

    /// Rows needed to show `text` at `width` columns (one for a zero width):
    /// each `'\n'`-separated paragraph takes `ceil(chars / width)` rows, at
    /// least one; with a cursor the last paragraph counts one more char, the
    /// slot of the insertion point.
    pub fn calculate_height(text: &str, width: u16, has_cursor: bool) -> (r: u16)
        requires
            width > 0 ==> cut_height(text@, width as nat, has_cursor) <= u16::MAX,
        ensures
            width == 0 ==> r == 1,
            width > 0 ==> r == if cut_height(text@, width as nat, has_cursor) == 0 {
                1
            } else {
                cut_height(text@, width as nat, has_cursor)
            },
            width > 0 && text_height(text@, width as nat, has_cursor) <= u16::MAX ==> r == text_height(
                text@,
                width as nat,
                has_cursor,
            ),
    {
        if width == 0 {
            return 1;
        }
        let ghost sv = text@;
        let w = width as u128;
        let total_bytes = byte_length(text);
        proof {
            lemma_len_le_byte_len(sv);
        }
        let mut done: u128 = 0;
        let mut cur: usize = 0;
        for c in it: text.chars()
            invariant
                it.seq() == sv,
                sv.len() <= usize::MAX,
                w == width as u128,
                w >= 1,
                paragraphs(sv.take(it.index())).len() >= 1,
                done == cut_sum(paragraphs(sv.take(it.index())).drop_last(), w as nat),
                cur == paragraphs(sv.take(it.index())).last().len(),
                done + cur <= it.index(),
        {
            let ghost i = it.index();
            let ghost p = paragraphs(sv.take(i));
            proof {
                assert(sv.take(i + 1).drop_last() =~= sv.take(i));
                assert(sv.take(i + 1).last() == c);
                lemma_paragraphs_len(sv.take(i + 1));
                lemma_rows_for_bound(cur as nat, w as nat);
            }
            if c == '\n' {
                proof {
                    assert(paragraphs(sv.take(i + 1)).drop_last() =~= p);
                    assert(p =~= p.drop_last().push(p.last()));
                }
                done = done + rows_for_exec(cur as u128, w) % 0x10000;
                cur = 0;
            } else {
                proof {
                    assert(paragraphs(sv.take(i + 1)).drop_last() =~= p.drop_last());
                }
                cur = cur + 1;
            }
        }
        proof {
            assert(sv.take(sv.len() as int) =~= sv);
            lemma_rows_for_bound((cur as nat + if has_cursor { 1nat } else { 0nat }), w as nat);
            let ps = paragraphs(sv);
            if text_height(sv, w as nat, has_cursor) <= u16::MAX {
                lemma_cut_sum_uncut(ps.drop_last(), w as nat);
            }
        }
        let n: u128 = if has_cursor { cur as u128 + 1 } else { cur as u128 };
        let lines = done + rows_for_exec(n, w) % 0x10000;
        let lines = lines as u16;
        if lines < 1 {
            1
        } else {
            lines
        }
    }
}

} // verus!
