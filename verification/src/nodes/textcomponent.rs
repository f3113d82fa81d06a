use vstd::prelude::*;
use crate::nodes::word::{Word, WordType, WordView, is_link_kind, link_kind, mark_view, deselect_view};
use crate::strings::owned;
use vstd::string::StringExecFns;

verus! {

/// The kind of block that a component renders.
#[derive(Clone, Copy, Debug, PartialEq, Eq, Structural)]
pub enum TextNode {
    Image,
    Paragraph,
    LineBreak,
    Heading,
    Task,
    List,
    Footnote,
    Table,
    CodeBlock,
    Quote,
    HorizontalSeperator,
    /// The summary line of a `<details>` block; `folded` hides its body.
    DetailsSummary { id: u32, folded: bool },
}

/// A block of rendered text: rows of words, laid out from `y_offset` down.
#[derive(Debug)]
pub struct TextComponent {
    pub kind: TextNode,
    pub content: Vec<Vec<Word>>,
    pub meta_info: Vec<Word>,
    pub y_offset: u16,
    pub scroll_offset: u16,
    pub focused: bool,
    pub focused_index: usize,
    pub hidden: bool,
    pub owning_details_ids: Vec<u32>,
}

/// The abstract value of a row of words.
pub open spec fn row_view(row: Vec<Word>) -> Seq<WordView> {
    row@.map_values(|w: Word| w@)
}

/// The abstract value of rows of words.
pub open spec fn rows_view(rows: Seq<Vec<Word>>) -> Seq<Seq<WordView>> {
    rows.map_values(|row: Vec<Word>| row_view(row))
}

/// The words of all rows, in reading order.
pub open spec fn flat(rows: Seq<Seq<WordView>>) -> Seq<WordView>
    decreases rows.len(),
{
    if rows.len() == 0 {
        Seq::empty()
    } else {
        flat(rows.drop_last()) + rows.last()
    }
}

/// How many of the words are links.
pub open spec fn count_links(ws: Seq<WordView>) -> nat
    decreases ws.len(),
{
    if ws.len() == 0 {
        0
    } else {
        count_links(ws.drop_last()) + if is_link_kind(ws.last().kind) {
            1nat
        } else {
            0nat
        }
    }
}

/// The links in the rows before row `r`.
pub open spec fn links_before_row(rows: Seq<Seq<WordView>>, r: int) -> nat {
    count_links(flat(rows.take(r)))
}

/// The ordinal, among the links of `rows`, of the word at row `r`, column `c`
/// (the number of links before it in reading order).
pub open spec fn link_rank(rows: Seq<Seq<WordView>>, r: int, c: int) -> nat {
    links_before_row(rows, r) + count_links(rows[r].take(c))
}

/// Rows after deselecting: selected words go back to their previous kind.
pub open spec fn deselect_rows(rows: Seq<Seq<WordView>>) -> Seq<Seq<WordView>> {
    rows.map_values(|row: Seq<WordView>| row.map_values(|v: WordView| deselect_view(v)))
}

/// Rows after selecting the `j`-th link: that word is marked as selected.
pub open spec fn select_rows(rows: Seq<Seq<WordView>>, j: nat) -> Seq<Seq<WordView>> {
    Seq::new(
        rows.len(),
        |r: int|
            Seq::new(
                rows[r].len(),
                |c: int|
                    if is_link_kind(rows[r][c].kind) && link_rank(rows, r, c) == j {
                        mark_view(rows[r][c])
                    } else {
                        rows[r][c]
                    },
            ),
    )
}

/// Text of a row: the contents of its words, concatenated.
pub open spec fn words_text(ws: Seq<WordView>) -> Seq<char>
    decreases ws.len(),
{
    if ws.len() == 0 {
        Seq::empty()
    } else {
        words_text(ws.drop_last()) + ws.last().text
    }
}

/// The row holds a `Selected` word.
pub open spec fn row_has_selected(row: Seq<WordView>) -> bool {
    exists|c: int| 0 <= c < row.len() && (#[trigger] row[c]).kind == WordType::Selected
}

/// Indices of the rows that hold a `Selected` word, in order.
pub open spec fn selected_rows(rows: Seq<Seq<WordView>>) -> Seq<usize>
    decreases rows.len(),
{
    if rows.len() == 0 {
        Seq::empty()
    } else {
        selected_rows(rows.drop_last()) + if row_has_selected(rows.last()) {
            seq![(rows.len() - 1) as usize]
        } else {
            Seq::empty()
        }
    }
}

/// How the abstract rows relate to the words they are made of.
pub proof fn lemma_rows_view(rows: Seq<Vec<Word>>)
    ensures
        rows_view(rows).len() == rows.len(),
        forall|i: int| 0 <= i < rows.len() ==> #[trigger] rows_view(rows)[i] == row_view(rows[i]),
        forall|i: int| 0 <= i < rows.len() ==> (#[trigger] row_view(rows[i])).len() == rows[i]@.len(),
        forall|i: int, c: int|
            0 <= i < rows.len() && 0 <= c < rows[i]@.len() ==> #[trigger] row_view(rows[i])[c]
                == rows[i]@[c]@,
{
}

/// Two row sequences are equal when they agree word by word.
pub proof fn lemma_rows_ext(a: Seq<Seq<WordView>>, b: Seq<Seq<WordView>>)
    requires
        a.len() == b.len(),
        forall|r: int| 0 <= r < a.len() ==> (#[trigger] a[r]).len() == b[r].len(),
        forall|r: int, c: int| 0 <= r < a.len() && 0 <= c < a[r].len() ==> #[trigger] a[r][c] == b[r][c],
    ensures
        a == b,
{
    assert forall|r: int| 0 <= r < a.len() implies #[trigger] a[r] == b[r] by {
        assert(a[r] =~= b[r]);
    }
    assert(a =~= b);
}

pub proof fn lemma_count_links_concat(a: Seq<WordView>, b: Seq<WordView>)
    ensures
        count_links(a + b) == count_links(a) + count_links(b),
    decreases b.len(),
{
    if b.len() > 0 {
        lemma_count_links_concat(a, b.drop_last());
        assert((a + b).drop_last() =~= a + b.drop_last());
    } else {
        assert(a + b =~= a);
    }
}

pub proof fn lemma_count_links_step(ws: Seq<WordView>, c: int)
    requires
        0 <= c < ws.len(),
    ensures
        count_links(ws.take(c + 1)) == count_links(ws.take(c)) + if is_link_kind(ws[c].kind) {
            1nat
        } else {
            0nat
        },
{
    assert(ws.take(c + 1).drop_last() =~= ws.take(c));
}

pub proof fn lemma_count_links_take_mono(ws: Seq<WordView>, i: int, j: int)
    requires
        0 <= i <= j <= ws.len(),
    ensures
        count_links(ws.take(i)) <= count_links(ws.take(j)),
    decreases j - i,
{
    if i < j {
        lemma_count_links_step(ws, j - 1);
        lemma_count_links_take_mono(ws, i, j - 1);
    }
}

pub proof fn lemma_links_before_row_step(rows: Seq<Seq<WordView>>, r: int)
    requires
        0 <= r < rows.len(),
    ensures
        links_before_row(rows, r + 1) == links_before_row(rows, r) + count_links(rows[r]),
{
    assert(rows.take(r + 1).drop_last() =~= rows.take(r));
    lemma_count_links_concat(flat(rows.take(r)), rows[r]);
}

pub proof fn lemma_links_before_row_mono(rows: Seq<Seq<WordView>>, i: int, j: int)
    requires
        0 <= i <= j <= rows.len(),
    ensures
        links_before_row(rows, i) <= links_before_row(rows, j),
    decreases j - i,
{
    if i < j {
        lemma_links_before_row_step(rows, j - 1);
        lemma_links_before_row_mono(rows, i, j - 1);
    }
}

/// A link's rank is below the number of links.
pub proof fn lemma_link_rank_below_total(rows: Seq<Seq<WordView>>, r: int, c: int)
    requires
        0 <= r < rows.len(),
        0 <= c < rows[r].len(),
        is_link_kind(rows[r][c].kind),
    ensures
        link_rank(rows, r, c) < count_links(flat(rows)),
{
    lemma_count_links_step(rows[r], c);
    lemma_count_links_take_mono(rows[r], c + 1, rows[r].len() as int);
    assert(rows[r].take(rows[r].len() as int) =~= rows[r]);
    lemma_links_before_row_step(rows, r);
    lemma_links_before_row_mono(rows, r + 1, rows.len() as int);
    assert(rows.take(rows.len() as int) =~= rows);
}

/// Links have distinct ranks: a link that comes earlier has a smaller rank.
pub proof fn lemma_link_rank_strict(rows: Seq<Seq<WordView>>, r1: int, c1: int, r2: int, c2: int)
    requires
        0 <= r1 < rows.len(),
        0 <= c1 < rows[r1].len(),
        0 <= r2 < rows.len(),
        0 <= c2 < rows[r2].len(),
        is_link_kind(rows[r1][c1].kind),
        r1 < r2 || (r1 == r2 && c1 < c2),
    ensures
        link_rank(rows, r1, c1) < link_rank(rows, r2, c2),
{
    lemma_count_links_step(rows[r1], c1);
    if r1 == r2 {
        lemma_count_links_take_mono(rows[r1], c1 + 1, c2);
    } else {
        lemma_count_links_take_mono(rows[r1], c1 + 1, rows[r1].len() as int);
        assert(rows[r1].take(rows[r1].len() as int) =~= rows[r1]);
        lemma_links_before_row_step(rows, r1);
        lemma_links_before_row_mono(rows, r1 + 1, r2);
    }
}

/// Fewer links than words.
pub proof fn lemma_count_links_le_len(ws: Seq<WordView>)
    ensures
        count_links(ws) <= ws.len(),
    decreases ws.len(),
{
    if ws.len() > 0 {
        lemma_count_links_le_len(ws.drop_last());
    }
}

/// Deselecting keeps the number of words.
pub proof fn lemma_flat_deselect_len(rows: Seq<Seq<WordView>>)
    ensures
        flat(deselect_rows(rows)).len() == flat(rows).len(),
    decreases rows.len(),
{
    if rows.len() > 0 {
        lemma_flat_deselect_len(rows.drop_last());
        assert(deselect_rows(rows).drop_last() =~= deselect_rows(rows.drop_last()));
    }
}

pub proof fn lemma_words_text_step(ws: Seq<WordView>, c: int)
    requires
        0 <= c < ws.len(),
    ensures
        words_text(ws.take(c + 1)) == words_text(ws.take(c)) + ws[c].text,
{
    assert(ws.take(c + 1).drop_last() =~= ws.take(c));
}

pub proof fn lemma_words_text_concat(a: Seq<WordView>, b: Seq<WordView>)
    ensures
        words_text(a + b) == words_text(a) + words_text(b),
    decreases b.len(),
{
    if b.len() > 0 {
        lemma_words_text_concat(a, b.drop_last());
        assert((a + b).drop_last() =~= a + b.drop_last());
        assert(words_text(a + b) =~= words_text(a) + words_text(b));
    } else {
        assert(a + b =~= a);
        assert(words_text(a) + words_text(b) =~= words_text(a));
    }
}

impl TextComponent {
    /// The abstract value of the component's rows.
    pub open spec fn rows(&self) -> Seq<Seq<WordView>> {
        rows_view(self.content@)
    }

    /// Links this component offers for navigation: none while it is hidden.
    pub open spec fn link_count(&self) -> nat {
        if self.hidden {
            0
        } else {
            count_links(flat(self.rows()))
        }
    }

    /// Rows the component takes up: none while it is hidden.
    pub open spec fn rows_height(&self) -> nat {
        if self.hidden {
            0
        } else if self.content@.len() <= u16::MAX {
            self.content@.len()
        } else {
            u16::MAX as nat
        }
    }

    /// The component's fields other than its rows and focus are those of `old`.
    pub open spec fn same_but_rows(&self, old: TextComponent) -> bool {
        &&& self.kind == old.kind
        &&& self.meta_info@ == old.meta_info@
        &&& self.y_offset == old.y_offset
        &&& self.scroll_offset == old.scroll_offset
        &&& self.hidden == old.hidden
        &&& self.owning_details_ids@ == old.owning_details_ids@
    }

    /// A component whose words form a single row.
    pub fn new(kind: TextNode, words: Vec<Word>) -> (c: TextComponent)
        ensures
            c.kind == kind,
            c.content@.len() == 1,
            c.content@[0]@ == words@,
            c.meta_info@.len() == 0,
            c.y_offset == 0,
            c.scroll_offset == 0,
            !c.focused,
            c.focused_index == 0,
            !c.hidden,
            c.owning_details_ids@.len() == 0,
    {
        let mut content: Vec<Vec<Word>> = Vec::new();
        content.push(words);
        TextComponent {
            kind,
            content,
            meta_info: Vec::new(),
            y_offset: 0,
            scroll_offset: 0,
            focused: false,
            focused_index: 0,
            hidden: false,
            owning_details_ids: Vec::new(),
        }
    }

    /// A component whose rows are already laid out.
    pub fn new_formatted(kind: TextNode, rows: Vec<Vec<Word>>) -> (c: TextComponent)
        ensures
            c.kind == kind,
            c.content@ == rows@,
            c.meta_info@.len() == 0,
            c.y_offset == 0,
            c.scroll_offset == 0,
            !c.focused,
            c.focused_index == 0,
            !c.hidden,
            c.owning_details_ids@.len() == 0,
    {
        TextComponent {
            kind,
            content: rows,
            meta_info: Vec::new(),
            y_offset: 0,
            scroll_offset: 0,
            focused: false,
            focused_index: 0,
            hidden: false,
            owning_details_ids: Vec::new(),
        }
    }

    pub fn content(&self) -> (r: &Vec<Vec<Word>>)
        ensures
            r@ == self.content@,
    {
        &self.content
    }

    pub fn meta_info(&self) -> (r: &Vec<Word>)
        ensures
            r@ == self.meta_info@,
    {
        &self.meta_info
    }

    pub fn set_meta_info(&mut self, meta: Vec<Word>)
        ensures
            *final(self) == (TextComponent { meta_info: meta, ..*old(self) }),
    {
        self.meta_info = meta;
    }

    pub fn kind(&self) -> (k: TextNode)
        ensures
            k == self.kind,
    {
        self.kind
    }

    pub fn y_offset(&self) -> (y: u16)
        ensures
            y == self.y_offset,
    {
        self.y_offset
    }

    pub fn set_y_offset(&mut self, y_offset: u16)
        ensures
            *final(self) == (TextComponent { y_offset, ..*old(self) }),
    {
        self.y_offset = y_offset;
    }

    pub fn set_scroll_offset(&mut self, scroll: u16)
        ensures
            *final(self) == (TextComponent { scroll_offset: scroll, ..*old(self) }),
    {
        self.scroll_offset = scroll;
    }

    /// Rows taken up on screen (0 while hidden, capped at `u16::MAX`).
    pub fn height(&self) -> (h: u16)
        ensures
            h == self.rows_height(),
    {
        if self.hidden {
            0
        } else if self.content.len() <= 65535 {
            self.content.len() as u16
        } else {
            65535
        }
    }

    pub fn is_hidden(&self) -> (b: bool)
        ensures
            b == self.hidden,
    {
        self.hidden
    }

    pub fn set_hidden(&mut self, hidden: bool)
        ensures
            *final(self) == (TextComponent { hidden, ..*old(self) }),
    {
        self.hidden = hidden;
    }

    pub fn is_focused(&self) -> (b: bool)
        ensures
            b == self.focused,
    {
        self.focused
    }

    pub fn owning_details_ids(&self) -> (r: &Vec<u32>)
        ensures
            r@ == self.owning_details_ids@,
    {
        &self.owning_details_ids
    }

    pub fn set_owning_details_ids(&mut self, ids: Vec<u32>)
        ensures
            *final(self) == (TextComponent { owning_details_ids: ids, ..*old(self) }),
    {
        self.owning_details_ids = ids;
    }

    /// Sets the fold flag of a details summary; other kinds are left as they are.
    pub fn set_details_folded(&mut self, folded: bool)
        ensures
            *final(self) == (TextComponent {
                kind: match old(self).kind {
                    TextNode::DetailsSummary { id, .. } => TextNode::DetailsSummary { id, folded },
                    k => k,
                },
                ..*old(self)
            }),
    {
        match self.kind {
            TextNode::DetailsSummary { id, .. } => {
                self.kind = TextNode::DetailsSummary { id, folded };
            },
            _ => {},
        }
    }

    /// Focuses a details summary.
    pub fn visually_select_summary(&mut self)
        ensures
            *final(self) == (TextComponent { focused: true, ..*old(self) }),
    {
        self.focused = true;
    }

    /// Removes the focus from a details summary.
    pub fn deselect_summary(&mut self)
        ensures
            *final(self) == (TextComponent { focused: false, ..*old(self) }),
    {
        self.focused = false;
    }

    /// Marks the `index`-th link (in reading order) as selected and focuses the component.
    pub fn visually_select(&mut self, index: usize) -> (res: Result<(), String>)
        ensures
            index < old(self).link_count() ==> {
                &&& res is Ok
                &&& final(self).same_but_rows(*old(self))
                &&& final(self).focused
                &&& final(self).focused_index == index
                &&& final(self).rows() == select_rows(old(self).rows(), index as nat)
            },
            index >= old(self).link_count() ==> {
                &&& res matches Err(e)
                &&& e@ == "Link index out of bounds"@
                &&& *final(self) == *old(self)
            },
    {
        if self.hidden {
            return Err(owned("Link index out of bounds"));
        }
        let ghost rows = self.rows();
        let mut count: usize = 0;
        let mut r: usize = 0;
        while r < self.content.len()
            invariant
                rows == self.rows(),
                *self == *old(self),
                !self.hidden,
                r <= rows.len(),
                count == links_before_row(rows, r as int),
                count <= index,
            decreases rows.len() - r,
        {
            let mut c: usize = 0;
            proof {
                lemma_rows_view(self.content@);
            }
            let len = self.content[r].len();
            proof {
                lemma_links_before_row_step(rows, r as int);
            }
            while c < len
                invariant
                    rows == self.rows(),
                    *self == *old(self),
                    !self.hidden,
                    r < rows.len(),
                    len == rows[r as int].len(),
                    c <= len,
                    count == links_before_row(rows, r as int) + count_links(rows[r as int].take(c as int)),
                    count <= index,
                decreases len - c,
            {
                proof {
                    lemma_count_links_step(rows[r as int], c as int);
                    lemma_rows_view(self.content@);
                }
                if link_kind(self.content[r][c].kind) {
                    if count == index {
                        self.content[r][c].set_kind(WordType::Selected);
                        self.focused = true;
                        self.focused_index = index;
                        proof {
                            let target = select_rows(rows, index as nat);
                            let now = self.rows();
                            assert forall|i: int, k: int|
                                0 <= i < rows.len() && 0 <= k < rows[i].len() implies #[trigger] now[i][k]
                                == target[i][k] by {
                                if i == r && k == c {
                                } else {
                                    if is_link_kind(rows[i][k].kind) {
                                        if i < r || (i == r && k < c) {
                                            lemma_link_rank_strict(rows, i, k, r as int, c as int);
                                        } else {
                                            lemma_link_rank_strict(rows, r as int, c as int, i, k);
                                        }
                                    }
                                }
                            }
                            lemma_rows_ext(now, target);
                            lemma_link_rank_below_total(rows, r as int, c as int);
                        }
                        return Ok(());
                    }
                    count = count + 1;
                }
                c = c + 1;
            }
            proof {
                assert(rows[r as int].take(len as int) =~= rows[r as int]);
            }
            r = r + 1;
        }
        proof {
            assert(rows.take(rows.len() as int) =~= rows);
        }
        Err(owned("Link index out of bounds"))
    }

    /// Unfocuses the component and returns every `Selected` word to its previous kind.
    pub fn deselect(&mut self)
        ensures
            final(self).same_but_rows(*old(self)),
            !final(self).focused,
            final(self).focused_index == old(self).focused_index,
            final(self).rows() == deselect_rows(old(self).rows()),
    {
        self.focused = false;
        let ghost rows = self.rows();
        let mut r: usize = 0;
        while r < self.content.len()
            invariant
                self.same_but_rows(*old(self)),
                !self.focused,
                self.focused_index == old(self).focused_index,
                rows == old(self).rows(),
                r <= rows.len(),
                self.rows().len() == rows.len(),
                forall|i: int| 0 <= i < rows.len() ==> (#[trigger] self.rows()[i]).len() == rows[i].len(),
                forall|i: int, c: int|
                    #![trigger self.rows()[i][c]]
                    0 <= i < rows.len() && 0 <= c < rows[i].len() ==> self.rows()[i][c] == if i < r {
                        deselect_view(rows[i][c])
                    } else {
                        rows[i][c]
                    },
            decreases rows.len() - r,
        {
            proof {
                lemma_rows_view(self.content@);
                lemma_rows_view(old(self).content@);
                assert(self.rows()[r as int].len() == rows[r as int].len());
            }
            let len = self.content[r].len();
            let mut c: usize = 0;
            while c < len
                invariant
                    self.same_but_rows(*old(self)),
                    !self.focused,
                    self.focused_index == old(self).focused_index,
                    rows == old(self).rows(),
                    r < rows.len(),
                    len == rows[r as int].len(),
                    c <= len,
                    self.rows().len() == rows.len(),
                    forall|i: int| 0 <= i < rows.len() ==> (#[trigger] self.rows()[i]).len() == rows[i].len(),
                    forall|i: int, k: int|
                        #![trigger self.rows()[i][k]]
                        0 <= i < rows.len() && 0 <= k < rows[i].len() ==> self.rows()[i][k] == if i < r
                            || (i == r && k < c) {
                            deselect_view(rows[i][k])
                        } else {
                            rows[i][k]
                        },
                decreases len - c,
            {
                proof {
                    lemma_rows_view(self.content@);
                    assert(self.rows()[r as int].len() == rows[r as int].len());
                }
                let ghost pre = self.content@;
                proof {
                    lemma_rows_view(pre);
                    assert forall|i: int| 0 <= i < rows.len() implies pre[i]@.len() == rows[i].len() by {
                        assert(self.rows()[i].len() == rows[i].len());
                    }
                }
                if self.content[r][c].kind == WordType::Selected {
                    self.content[r][c].clear_kind();
                }
                proof {
                    lemma_rows_view(self.content@);
                    assert forall|i: int| 0 <= i < rows.len() implies (#[trigger] self.rows()[i]).len()
                        == rows[i].len() by {
                        assert(self.content@[i]@.len() == pre[i]@.len());
                    }
                }
                c = c + 1;
            }
            r = r + 1;
        }
        proof {
            let target = deselect_rows(rows);
            let now = self.rows();
            assert forall|i: int, k: int| 0 <= i < rows.len() && 0 <= k < rows[i].len() implies #[trigger] now[i][k]
                == target[i][k] by {}
            lemma_rows_ext(now, target);
        }
    }

    /// Number of links offered for navigation (0 while hidden).
    pub fn num_links(&self) -> (n: usize)
        requires
            self.link_count() <= usize::MAX,
        ensures
            n == self.link_count(),
    {
        if self.hidden {
            return 0;
        }
        let ghost rows = self.rows();
        let mut n: usize = 0;
        let mut r: usize = 0;
        while r < self.content.len()
            invariant
                rows == self.rows(),
                !self.hidden,
                count_links(flat(rows)) <= usize::MAX,
                r <= rows.len(),
                n == links_before_row(rows, r as int),
            decreases rows.len() - r,
        {
            proof {
                lemma_rows_view(self.content@);
            }
            let row = &self.content[r];
            let mut c: usize = 0;
            proof {
                lemma_links_before_row_step(rows, r as int);
                assert(rows.take(rows.len() as int) =~= rows);
                lemma_links_before_row_mono(rows, r as int + 1, rows.len() as int);
            }
            while c < row.len()
                invariant
                    rows == self.rows(),
                    row_view(*row) == rows[r as int],
                    r < rows.len(),
                    c <= rows[r as int].len(),
                    n == links_before_row(rows, r as int) + count_links(rows[r as int].take(c as int)),
                    links_before_row(rows, r as int) + count_links(rows[r as int]) <= usize::MAX,
                decreases rows[r as int].len() - c,
            {
                proof {
                    lemma_count_links_step(rows[r as int], c as int);
                    lemma_count_links_take_mono(rows[r as int], c as int + 1, rows[r as int].len() as int);
                    assert(rows[r as int].take(rows[r as int].len() as int) =~= rows[r as int]);
                }
                if link_kind(row[c].kind) {
                    n = n + 1;
                }
                c = c + 1;
            }
            proof {
                assert(rows[r as int].take(rows[r as int].len() as int) =~= rows[r as int]);
            }
            r = r + 1;
        }
        proof {
            assert(rows.take(rows.len() as int) =~= rows);
        }
        n
    }

    /// The anchor (link target) of the `index`-th link, from the component's meta words.
    pub fn link_anchor_at(&self, index: usize) -> (r: Option<&str>)
        ensures
            index < self.meta_info@.len() ==> (r matches Some(s) && s@ == self.meta_info@[index as int].content@),
            index >= self.meta_info@.len() ==> r is None,
    {
        if index < self.meta_info.len() {
            Some(self.meta_info[index].content.as_str())
        } else {
            None
        }
    }

    /// The anchor of the focused link.
    pub fn highlight_link(&self) -> (r: Result<&str, String>)
        ensures
            self.focused && self.focused_index < self.meta_info@.len() ==> (r matches Ok(s)
                && s@ == self.meta_info@[self.focused_index as int].content@),
            !(self.focused && self.focused_index < self.meta_info@.len()) ==> (r matches Err(e)
                && e@ == "No link is selected"@),
    {
        if self.focused && self.focused_index < self.meta_info.len() {
            Ok(self.meta_info[self.focused_index].content.as_str())
        } else {
            Err(owned("No link is selected"))
        }
    }

    /// Each row's text: the contents of its words, concatenated.
    pub fn content_as_lines(&self) -> (lines: Vec<String>)
        ensures
            lines@.len() == self.rows().len(),
            forall|r: int| 0 <= r < lines@.len() ==> (#[trigger] lines@[r])@ == words_text(self.rows()[r]),
    {
        let ghost rows = self.rows();
        let mut lines: Vec<String> = Vec::new();
        let mut r: usize = 0;
        while r < self.content.len()
            invariant
                rows == self.rows(),
                r <= rows.len(),
                lines@.len() == r,
                forall|k: int| 0 <= k < r ==> (#[trigger] lines@[k])@ == words_text(rows[k]),
            decreases rows.len() - r,
        {
            proof {
                lemma_rows_view(self.content@);
            }
            let row = &self.content[r];
            let mut line = String::new();
            let mut c: usize = 0;
            while c < row.len()
                invariant
                    rows == self.rows(),
                    r < rows.len(),
                    row_view(*row) == rows[r as int],
                    c <= rows[r as int].len(),
                    line@ == words_text(rows[r as int].take(c as int)),
                decreases rows[r as int].len() - c,
            {
                proof {
                    lemma_words_text_step(rows[r as int], c as int);
                }
                line.append(row[c].content.as_str());
                c = c + 1;
            }
            proof {
                assert(rows[r as int].take(rows[r as int].len() as int) =~= rows[r as int]);
            }
            lines.push(line);
            r = r + 1;
        }
        lines
    }

    /// Row indices of the rows that hold a `Selected` word.
    pub fn selected_heights(&self) -> (hs: Vec<usize>)
        ensures
            hs@ == selected_rows(self.rows()),
    {
        let ghost rows = self.rows();
        let mut hs: Vec<usize> = Vec::new();
        let mut r: usize = 0;
        while r < self.content.len()
            invariant
                rows == self.rows(),
                r <= rows.len(),
                hs@ == selected_rows(rows.take(r as int)),
            decreases rows.len() - r,
        {
            proof {
                lemma_rows_view(self.content@);
            }
            let row = &self.content[r];
            let mut found = false;
            let mut c: usize = 0;
            while c < row.len()
                invariant
                    rows == self.rows(),
                    r < rows.len(),
                    row_view(*row) == rows[r as int],
                    c <= rows[r as int].len(),
                    found <==> exists|k: int| 0 <= k < c && (#[trigger] rows[r as int][k]).kind
                        == WordType::Selected,
                decreases rows[r as int].len() - c,
            {
                assert(rows[r as int][c as int] == row@[c as int]@);
                if row[c].kind == WordType::Selected {
                    found = true;
                }
                c = c + 1;
            }
            proof {
                let t = rows.take(r as int + 1);
                assert(t.drop_last() =~= rows.take(r as int));
                assert(t.last() == rows[r as int]);
                assert(found == row_has_selected(rows[r as int]));
            }
            if found {
                hs.push(r);
            }
            r = r + 1;
        }
        proof {
            assert(rows.take(rows.len() as int) =~= rows);
        }
        hs
    }
}

} // verus!
