use vstd::prelude::*;
use crate::nodes::image::ImageComponent;
use crate::nodes::textcomponent::{
    TextComponent, TextNode, count_links, deselect_rows, flat, select_rows, lemma_count_links_le_len,
    lemma_flat_deselect_len,
};
use crate::nodes::word::{Word, WordType, WordView};
use crate::strings::{owned, push_decimal, decimal};
use vstd::string::StringExecFns;
use crate::nodes::anchors::{
    link_at_caret, link_index_at, project_comment, projected, coalesced, resolve_range, resolved,
    selection_span, selection_fits, caret_scan_fits, lemma_doc_fits_scan,
};
use crate::nodes::layout::{
    doc_cells, doc_cells_in, doc_fits, doc_fits_check, doc_fits_in_check, doc_cell_refs, cells_of,
};
use crate::comments::{Comment, ProjectedCommentAnchor, normalize_range};
use crate::parser::{SourcePos, SourceSpan};
use crate::util::Caret;

verus! {

/// What every block of the document offers to its root.
pub trait ComponentProps {
    fn height(&self) -> u16;

    fn set_y_offset(&mut self, y_offset: u16);

    fn set_scroll_offset(&mut self, scroll: u16);

    fn kind(&self) -> TextNode;
}

/// A block of the rendered document.
#[derive(Debug)]
pub enum Component {
    TextComponent(TextComponent),
    Image(ImageComponent),
}

impl From<TextComponent> for Component {
    fn from(comp: TextComponent) -> (r: Self) {
        Component::TextComponent(comp)
    }
}

impl vstd::std_specs::convert::FromSpecImpl<TextComponent> for Component {
    open spec fn obeys_from_spec() -> bool {
        true
    }

    open spec fn from_spec(v: TextComponent) -> Component {
        Component::TextComponent(v)
    }
}

impl Component {
    /// Rows the block takes up.
    pub open spec fn spec_height(self) -> nat {
        match self {
            Component::TextComponent(t) => t.rows_height(),
            Component::Image(i) => i.height as nat,
        }
    }

    /// The block's kind.
    pub open spec fn spec_kind(self) -> TextNode {
        match self {
            Component::TextComponent(t) => t.kind,
            Component::Image(_) => TextNode::Image,
        }
    }

    /// Links the block offers for navigation.
    pub open spec fn spec_links(self) -> nat {
        match self {
            Component::TextComponent(t) => t.link_count(),
            Component::Image(_) => 0,
        }
    }

    /// The block with its y offset set to `y`.
    pub open spec fn at_y(self, y: u16) -> Component {
        match self {
            Component::TextComponent(t) => Component::TextComponent(TextComponent { y_offset: y, ..t }),
            Component::Image(i) => Component::Image(ImageComponent { y_offset: y, ..i }),
        }
    }

    /// The block with its scroll offset set to `s`.
    pub open spec fn scrolled(self, s: u16) -> Component {
        match self {
            Component::TextComponent(t) => Component::TextComponent(TextComponent { scroll_offset: s, ..t }),
            Component::Image(i) => Component::Image(ImageComponent { scroll_offset: s, ..i }),
        }
    }
}

impl Component {
    /// Focuses a text block, returning its y offset.
    fn focus_text(&mut self) -> (y: u16)
        ensures
            *final(self) == focus(*old(self)),
            y == y_of(*old(self)),
    {
        match self {
            Component::TextComponent(comp) => {
                comp.visually_select_summary();
                comp.y_offset()
            },
            Component::Image(i) => i.y_offset,
        }
    }

    /// Flips the fold flag of a details summary.
    fn toggle_fold(&mut self)
        ensures
            *final(self) == toggled(*old(self)),
    {
        match self {
            Component::TextComponent(comp) => {
                match comp.kind() {
                    TextNode::DetailsSummary { folded, .. } => comp.set_details_folded(!folded),
                    _ => {},
                }
            },
            Component::Image(_) => {},
        }
    }

    /// Selects the `j`-th link of a text block, returning the block's y offset.
    fn select_link(&mut self, j: usize) -> (y: u16)
        requires
            match *old(self) {
                Component::TextComponent(t) => j < t.link_count(),
                Component::Image(_) => false,
            },
        ensures
            select_of(*old(self), *final(self), j as nat),
            y == y_of(*old(self)),
    {
        match self {
            Component::TextComponent(comp) => {
                let _ = comp.visually_select(j);
                comp.y_offset()
            },
            Component::Image(_) => 0,
        }
    }
}

impl ComponentProps for Component {
    fn height(&self) -> (h: u16)
        ensures
            h == self.spec_height(),
    {
        match self {
            Component::TextComponent(comp) => comp.height(),
            Component::Image(comp) => comp.height(),
        }
    }

    fn set_y_offset(&mut self, y_offset: u16)
        ensures
            *final(self) == old(self).at_y(y_offset),
    {
        match self {
            Component::TextComponent(comp) => comp.set_y_offset(y_offset),
            Component::Image(comp) => comp.set_y_offset(y_offset),
        }
    }

    fn set_scroll_offset(&mut self, scroll: u16)
        ensures
            *final(self) == old(self).scrolled(scroll),
    {
        match self {
            Component::TextComponent(comp) => comp.set_scroll_offset(scroll),
            Component::Image(comp) => comp.set_scroll_offset(scroll),
        }
    }

    fn kind(&self) -> (k: TextNode)
        ensures
            k == self.spec_kind(),
    {
        match self {
            Component::TextComponent(comp) => comp.kind(),
            Component::Image(comp) => comp.kind(),
        }
    }
}

/// Total rows of the blocks.
pub open spec fn heights_sum(cs: Seq<Component>) -> nat
    decreases cs.len(),
{
    if cs.len() == 0 {
        0
    } else {
        heights_sum(cs.drop_last()) + cs.last().spec_height()
    }
}

/// Total links of the blocks.
pub open spec fn links_sum(cs: Seq<Component>) -> nat
    decreases cs.len(),
{
    if cs.len() == 0 {
        0
    } else {
        links_sum(cs.drop_last()) + cs.last().spec_links()
    }
}

/// The text components among the blocks, in order.
pub open spec fn text_comps(cs: Seq<Component>) -> Seq<TextComponent>
    decreases cs.len(),
{
    if cs.len() == 0 {
        Seq::empty()
    } else {
        text_comps(cs.drop_last()) + match cs.last() {
            Component::TextComponent(t) => seq![t],
            Component::Image(_) => Seq::empty(),
        }
    }
}

/// The block that holds the link with document-wide ordinal `index`: the
/// first block `k` whose links, counted after those of the blocks before it,
/// reach past `index`.
pub open spec fn holds_link(cs: Seq<Component>, k: int, index: nat) -> bool {
    0 <= k < cs.len() && links_sum(cs.take(k)) <= index < links_sum(cs.take(k + 1))
}

/// What `select(index)` leaves: the document focused, and, after every text
/// block is deselected (`mid`), the block holding link `index` selects it and
/// `Ok` gives that block's y offset; past the last link, `Err` with the
/// document deselected.
pub open spec fn select_post(old: RootView, new: RootView, index: nat, res: Result<u16, String>) -> bool {
    &&& new.file_name == old.file_name
    &&& new.is_focused
    &&& new.components.len() == old.components.len()
    &&& exists|mid: Seq<Component>|
        {
            &&& mid.len() == old.components.len()
            &&& forall|i: int| 0 <= i < mid.len() ==> deselect_of(old.components[i], #[trigger] mid[i])
            &&& index < links_sum(mid) ==> exists|k: int|
                {
                    &&& holds_link(mid, k, index)
                    &&& res == Ok::<u16, String>(y_of(mid[k]))
                    &&& select_of(mid[k], new.components[k], (index - links_sum(mid.take(k))) as nat)
                    &&& forall|i: int| 0 <= i < mid.len() && i != k ==> #[trigger] new.components[i] == mid[i]
                }
            &&& index >= links_sum(mid) ==> {
                &&& res matches Err(e)
                &&& e@ == link_index_error(index, links_sum(mid))
                &&& new.components == mid
            }
        }
}

/// A text option as a char sequence.
pub open spec fn str_opt(r: Option<&str>) -> Option<Seq<char>> {
    match r {
        Some(s) => Some(s@),
        None => None,
    }
}

/// The anchor of link `index`: the meta info entry of its block at its
/// ordinal within the block, if there is one; `None` past the last link.
pub open spec fn anchor_is(cs: Seq<Component>, index: nat, a: Option<Seq<char>>) -> bool {
    &&& index >= links_sum(cs) ==> a is None
    &&& index < links_sum(cs) ==> exists|k: int|
        {
            &&& holds_link(cs, k, index)
            &&& cs[k] matches Component::TextComponent(t)
            &&& {
                let j = index - links_sum(cs.take(k));
                if j < t.meta_info@.len() {
                    a == Some(t.meta_info@[j].content@)
                } else {
                    a is None
                }
            }
        }
}

/// The anchor of the selected link: that of the first focused text block at
/// its focused index, if there is one.
pub open spec fn selected_is(cs: Seq<Component>, a: Option<Seq<char>>) -> bool {
    match first_focused(cs) {
        None => a is None,
        Some(k) => match cs[k] {
            Component::TextComponent(t) => if t.focused_index < t.meta_info@.len() {
                a == Some(t.meta_info@[t.focused_index as int].content@)
            } else {
                a is None
            },
            Component::Image(_) => false,
        },
    }
}

/// The blocks after deselecting every text block.
pub open spec fn deselected(c: Component) -> Component {
    match c {
        Component::TextComponent(t) => Component::TextComponent(
            TextComponent { focused: false, ..t },
        ),
        Component::Image(i) => Component::Image(i),
    }
}

/// `new` is block `old` after `TextComponent::deselect` (images stay as they are).
pub open spec fn deselect_of(old: Component, new: Component) -> bool {
    match (old, new) {
        (Component::TextComponent(t), Component::TextComponent(u)) => {
            &&& u.same_but_rows(t)
            &&& !u.focused
            &&& u.focused_index == t.focused_index
            &&& u.rows() == deselect_rows(t.rows())
        },
        (Component::Image(i), Component::Image(j)) => i == j,
        _ => false,
    }
}

/// `new` is text block `old` after `TextComponent::visually_select(j)` of a link it has.
pub open spec fn select_of(old: Component, new: Component, j: nat) -> bool {
    match (old, new) {
        (Component::TextComponent(t), Component::TextComponent(u)) => {
            &&& u.same_but_rows(t)
            &&& u.focused
            &&& u.focused_index == j
            &&& u.rows() == select_rows(t.rows(), j)
        },
        _ => false,
    }
}

/// Words of a block (none for images).
pub open spec fn word_count(c: Component) -> nat {
    match c {
        Component::TextComponent(t) => flat(t.rows()).len(),
        Component::Image(_) => 0,
    }
}

/// No block holds more words than a `usize` counts.
pub open spec fn words_fit(cs: Seq<Component>) -> bool {
    forall|k: int| 0 <= k < cs.len() ==> word_count(#[trigger] cs[k]) <= usize::MAX
}

/// The y offset of a block.
pub open spec fn y_of(c: Component) -> u16 {
    match c {
        Component::TextComponent(t) => t.y_offset,
        Component::Image(i) => i.y_offset,
    }
}

/// The message of a failed `select`.
pub open spec fn link_index_error(index: nat, count: nat) -> Seq<char> {
    "Index out of bounds: "@ + decimal(index) + " >= "@ + decimal(count)
}

/// Index of the first focused text block.
pub open spec fn first_focused(cs: Seq<Component>) -> Option<int>
    decreases cs.len(),
{
    if cs.len() == 0 {
        None
    } else {
        match first_focused(cs.drop_last()) {
            Some(k) => Some(k),
            None => match cs.last() {
                Component::TextComponent(t) => if t.focused {
                    Some(cs.len() - 1)
                } else {
                    None
                },
                Component::Image(_) => None,
            },
        }
    }
}

/// Index of the first `Selected` word.
pub open spec fn first_selected(ws: Seq<WordView>) -> Option<int>
    decreases ws.len(),
{
    if ws.len() == 0 {
        None
    } else {
        match first_selected(ws.drop_last()) {
            Some(k) => Some(k),
            None => if ws.last().kind == WordType::Selected {
                Some(ws.len() - 1)
            } else {
                None
            },
        }
    }
}


/// The block is a folded details summary with this id.
pub open spec fn folds(c: Component, id: u32) -> bool {
    match c {
        Component::TextComponent(t) => t.kind == (TextNode::DetailsSummary { id, folded: true }),
        Component::Image(_) => false,
    }
}

/// Some text block is a folded details summary with this id.
pub open spec fn is_folded_id(cs: Seq<Component>, id: u32) -> bool {
    exists|k: int| 0 <= k < cs.len() && folds(#[trigger] cs[k], id)
}

/// The ids of the folded details summaries, in order.
pub open spec fn folded_ids(cs: Seq<Component>) -> Seq<u32>
    decreases cs.len(),
{
    if cs.len() == 0 {
        Seq::empty()
    } else {
        folded_ids(cs.drop_last()) + match cs.last() {
            Component::TextComponent(t) => match t.kind {
                TextNode::DetailsSummary { id, folded } => if folded {
                    seq![id]
                } else {
                    Seq::empty()
                },
                _ => Seq::empty(),
            },
            Component::Image(_) => Seq::empty(),
        }
    }
}

pub proof fn lemma_folded_ids(cs: Seq<Component>, id: u32)
    ensures
        folded_ids(cs).contains(id) <==> is_folded_id(cs, id),
    decreases cs.len(),
{
    if cs.len() > 0 {
        let d = cs.drop_last();
        lemma_folded_ids(d, id);
        let tail = folded_ids(cs).subrange(folded_ids(d).len() as int, folded_ids(cs).len() as int);
        assert(folded_ids(cs) == folded_ids(d) + tail);
        if is_folded_id(cs, id) {
            let k = choose|k: int| 0 <= k < cs.len() && folds(#[trigger] cs[k], id);
            if k < cs.len() - 1 {
                assert(d[k] == cs[k]);
                assert(folded_ids(d).contains(id));
                let m = choose|m: int| 0 <= m < folded_ids(d).len() && folded_ids(d)[m] == id;
                assert(folded_ids(cs)[m] == id);
            } else {
                assert(folded_ids(cs)[folded_ids(cs).len() - 1] == id);
            }
        }
        if folded_ids(cs).contains(id) {
            let m = choose|m: int| 0 <= m < folded_ids(cs).len() && folded_ids(cs)[m] == id;
            if m < folded_ids(d).len() {
                assert(folded_ids(d)[m] == id);
                assert(folded_ids(d).contains(id));
                let k = choose|k: int| 0 <= k < d.len() && folds(#[trigger] d[k], id);
                assert(d[k] == cs[k]);
            } else {
                assert(folds(cs[cs.len() - 1], id));
            }
        }
    } else {
        assert(!folded_ids(cs).contains(id));
    }
}

/// Some of the ids is that of a folded details summary.
pub open spec fn hidden_by(cs: Seq<Component>, ids: Seq<u32>) -> bool {
    exists|j: int| 0 <= j < ids.len() && is_folded_id(cs, #[trigger] ids[j])
}

/// A block with its visibility worked out against the folded summaries of `cs`:
/// a text block is hidden iff one of its owning details ids is folded.
pub open spec fn with_visibility(cs: Seq<Component>, c: Component) -> Component {
    match c {
        Component::TextComponent(t) => Component::TextComponent(
            TextComponent { hidden: hidden_by(cs, t.owning_details_ids@), ..t },
        ),
        Component::Image(i) => Component::Image(i),
    }
}

/// The blocks with their visibility worked out.
pub open spec fn recomputed(cs: Seq<Component>) -> Seq<Component> {
    Seq::new(cs.len(), |k: int| with_visibility(cs, cs[k]))
}

/// A visible details summary.
pub open spec fn is_visible_summary(c: Component) -> bool {
    c matches Component::TextComponent(t) && !t.hidden && t.kind is DetailsSummary
}

/// Number of visible details summaries.
pub open spec fn summary_count(cs: Seq<Component>) -> nat
    decreases cs.len(),
{
    if cs.len() == 0 {
        0
    } else {
        summary_count(cs.drop_last()) + if is_visible_summary(cs.last()) {
            1nat
        } else {
            0nat
        }
    }
}

/// The y offsets of the visible details summaries, in order.
pub open spec fn summary_ys(cs: Seq<Component>) -> Seq<u16>
    decreases cs.len(),
{
    if cs.len() == 0 {
        Seq::empty()
    } else {
        summary_ys(cs.drop_last()) + if is_visible_summary(cs.last()) {
            seq![y_of(cs.last())]
        } else {
            Seq::empty()
        }
    }
}

/// A details summary (visible or not) loses its focus; other blocks stay.
pub open spec fn unfocus_summary(c: Component) -> Component {
    match c {
        Component::TextComponent(t) => if t.kind is DetailsSummary {
            Component::TextComponent(TextComponent { focused: false, ..t })
        } else {
            c
        },
        Component::Image(_) => c,
    }
}

/// A text block gains focus.
pub open spec fn focus(c: Component) -> Component {
    match c {
        Component::TextComponent(t) => Component::TextComponent(TextComponent { focused: true, ..t }),
        Component::Image(_) => c,
    }
}

/// A focused details summary.
pub open spec fn is_focused_summary(c: Component) -> bool {
    c matches Component::TextComponent(t) && t.focused && t.kind is DetailsSummary
}

/// Index of the first focused details summary.
pub open spec fn first_focused_summary(cs: Seq<Component>) -> Option<int>
    decreases cs.len(),
{
    if cs.len() == 0 {
        None
    } else {
        match first_focused_summary(cs.drop_last()) {
            Some(k) => Some(k),
            None => if is_focused_summary(cs.last()) {
                Some(cs.len() - 1)
            } else {
                None
            },
        }
    }
}

/// The summary with its fold flag flipped.
pub open spec fn toggled(c: Component) -> Component {
    match c {
        Component::TextComponent(t) => match t.kind {
            TextNode::DetailsSummary { id, folded } => Component::TextComponent(
                TextComponent { kind: TextNode::DetailsSummary { id, folded: !folded }, ..t },
            ),
            _ => c,
        },
        Component::Image(_) => c,
    }
}

/// The message of a failed `select_details`.
pub open spec fn details_index_error(index: nat, count: nat) -> Seq<char> {
    "Details index out of bounds: "@ + decimal(index) + " >= "@ + decimal(count)
}

pub proof fn lemma_summary_count_step(cs: Seq<Component>, k: int)
    requires
        0 <= k < cs.len(),
    ensures
        summary_count(cs.take(k + 1)) == summary_count(cs.take(k)) + if is_visible_summary(cs[k]) {
            1nat
        } else {
            0nat
        },
        summary_ys(cs.take(k + 1)) == summary_ys(cs.take(k)) + if is_visible_summary(cs[k]) {
            seq![y_of(cs[k])]
        } else {
            Seq::empty()
        },
{
    assert(cs.take(k + 1).drop_last() =~= cs.take(k));
}

pub proof fn lemma_summary_count_ys(cs: Seq<Component>)
    ensures
        summary_ys(cs).len() == summary_count(cs),
    decreases cs.len(),
{
    if cs.len() > 0 {
        lemma_summary_count_ys(cs.drop_last());
    }
}

pub proof fn lemma_summary_count_mono(cs: Seq<Component>, i: int, j: int)
    requires
        0 <= i <= j <= cs.len(),
    ensures
        summary_count(cs.take(i)) <= summary_count(cs.take(j)),
    decreases j - i,
{
    if i < j {
        lemma_summary_count_step(cs, j - 1);
        lemma_summary_count_mono(cs, i, j - 1);
    }
}

pub proof fn lemma_first_focused_summary_extend(cs: Seq<Component>, j: int, k: int)
    requires
        0 <= j <= cs.len(),
        first_focused_summary(cs.take(j)) == Some(k),
    ensures
        first_focused_summary(cs) == Some(k),
    decreases cs.len() - j,
{
    if j < cs.len() {
        assert(cs.take(j + 1).drop_last() =~= cs.take(j));
        lemma_first_focused_summary_extend(cs, j + 1, k);
    } else {
        assert(cs.take(j) =~= cs);
    }
}




/// The block is a line break.
pub open spec fn is_break(c: Component) -> bool {
    c.spec_kind() == TextNode::LineBreak
}

/// A line break goes between blocks `j` and `j + 1`: neither is one.
pub open spec fn needs_break(cs: Seq<Component>, j: int) -> bool {
    0 <= j && j + 1 < cs.len() && !is_break(cs[j]) && !is_break(cs[j + 1])
}

/// Line breaks that go between the blocks before block `i`.
pub open spec fn breaks_before(cs: Seq<Component>, i: int) -> nat
    decreases i,
{
    if i <= 0 {
        0
    } else {
        breaks_before(cs, i - 1) + if needs_break(cs, i - 1) {
            1nat
        } else {
            0nat
        }
    }
}

/// `out` is `cs` with a line break put between every two neighbouring blocks
/// of which neither is one: block `j` moves to `j + breaks_before(cs, j)`, and
/// the break after it is empty and owned by the longest common prefix of its
/// neighbours' owning details ids.
pub open spec fn breaks_added(cs: Seq<Component>, out: Seq<Component>) -> bool {
    &&& out.len() == cs.len() + breaks_before(cs, cs.len() as int)
    &&& forall|j: int| 0 <= j < cs.len() ==> out[j + breaks_before(cs, j)] == #[trigger] cs[j]
    &&& forall|j: int|
        #[trigger] needs_break(cs, j) ==> is_line_break_with(
            out[j + breaks_before(cs, j) + 1],
            owning_ids(cs[j]).take(lcp_len(owning_ids(cs[j]), owning_ids(cs[j + 1])) as int),
        )
}

/// The owning details ids of a block (none for images).
pub open spec fn owning_ids(c: Component) -> Seq<u32> {
    match c {
        Component::TextComponent(t) => t.owning_details_ids@,
        Component::Image(_) => Seq::empty(),
    }
}

/// Length of the longest common prefix.
pub open spec fn lcp_len(a: Seq<u32>, b: Seq<u32>) -> nat
    decreases a.len(),
{
    if a.len() == 0 || b.len() == 0 || a[0] != b[0] {
        0
    } else {
        1 + lcp_len(a.drop_first(), b.drop_first())
    }
}

/// The block is an empty line break owned by the details ids `ids`.
pub open spec fn is_line_break_with(c: Component, ids: Seq<u32>) -> bool {
    match c {
        Component::TextComponent(t) => {
            &&& t.kind == TextNode::LineBreak
            &&& t.rows() == seq![Seq::<WordView>::empty()]
            &&& t.meta_info@.len() == 0
            &&& t.y_offset == 0
            &&& t.scroll_offset == 0
            &&& !t.focused
            &&& t.focused_index == 0
            &&& !t.hidden
            &&& t.owning_details_ids@ == ids
        },
        Component::Image(_) => false,
    }
}

/// The block is a heading whose slug is `target`.
pub open spec fn is_heading_for(c: Component, target: Seq<char>) -> bool {
    match c {
        Component::TextComponent(t) => t.kind == TextNode::Heading && target == crate::search::heading_slug(
            crate::nodes::textcomponent::words_text(flat(t.rows())),
        ),
        Component::Image(_) => false,
    }
}

/// Index of the first heading with slug `target`.
pub open spec fn first_heading(cs: Seq<Component>, target: Seq<char>) -> Option<int>
    decreases cs.len(),
{
    if cs.len() == 0 {
        None
    } else {
        match first_heading(cs.drop_last(), target) {
            Some(k) => Some(k),
            None => if is_heading_for(cs.last(), target) {
                Some(cs.len() - 1)
            } else {
                None
            },
        }
    }
}

/// The document has a heading block.
pub open spec fn has_heading(cs: Seq<Component>) -> bool {
    exists|k: int| 0 <= k < cs.len() && (#[trigger] cs[k]).spec_kind() == TextNode::Heading
}

/// The text of the words of the given kind, in order.
pub open spec fn kind_text(ws: Seq<WordView>, k: WordType) -> Seq<char>
    decreases ws.len(),
{
    if ws.len() == 0 {
        Seq::empty()
    } else {
        kind_text(ws.drop_last(), k) + if ws.last().kind == k {
            ws.last().text
        } else {
            Seq::empty()
        }
    }
}

/// The block is a footnote whose reference (its first meta word) is `search`.
pub open spec fn is_footnote_for(c: Component, search: Seq<char>) -> bool {
    match c {
        Component::TextComponent(t) => t.kind == TextNode::Footnote && t.meta_info@.len() > 0
            && t.meta_info@[0].content@ == search,
        Component::Image(_) => false,
    }
}

/// The footnote text of the footnotes whose reference is `search`.
pub open spec fn footnote_text(cs: Seq<Component>, search: Seq<char>) -> Seq<char>
    decreases cs.len(),
{
    if cs.len() == 0 {
        Seq::empty()
    } else {
        footnote_text(cs.drop_last(), search) + match cs.last() {
            Component::TextComponent(t) => if is_footnote_for(cs.last(), search) {
                kind_text(flat(t.rows()), WordType::Footnote)
            } else {
                Seq::empty()
            },
            Component::Image(_) => Seq::empty(),
        }
    }
}

/// The words of all text blocks, in order.
pub open spec fn all_words(cs: Seq<Component>) -> Seq<WordView>
    decreases cs.len(),
{
    if cs.len() == 0 {
        Seq::empty()
    } else {
        all_words(cs.drop_last()) + match cs.last() {
            Component::TextComponent(t) => flat(t.rows()),
            Component::Image(_) => Seq::empty(),
        }
    }
}

/// The text of every row of every text block, in order.
pub open spec fn all_lines(cs: Seq<Component>) -> Seq<Seq<char>>
    decreases cs.len(),
{
    if cs.len() == 0 {
        Seq::empty()
    } else {
        all_lines(cs.drop_last()) + match cs.last() {
            Component::TextComponent(t) => t.rows().map_values(
                |row: Seq<WordView>| crate::nodes::textcomponent::words_text(row),
            ),
            Component::Image(_) => Seq::empty(),
        }
    }
}

/// The rows, offset by `y`, that hold search hits, block by block.
pub open spec fn hit_rows(cs: Seq<Component>) -> Seq<usize>
    decreases cs.len(),
{
    if cs.len() == 0 {
        Seq::empty()
    } else {
        hit_rows(cs.drop_last()) + match cs.last() {
            Component::TextComponent(t) => crate::nodes::textcomponent::selected_rows(t.rows()).map_values(
                |h: usize| (h + t.y_offset) as usize,
            ),
            Component::Image(_) => Seq::empty(),
        }
    }
}

/// Adding a text block's y offset to its hit rows stays within `usize`.
pub open spec fn hit_rows_fit(cs: Seq<Component>) -> bool {
    forall|k: int|
        0 <= k < cs.len() ==> match #[trigger] cs[k] {
            Component::TextComponent(t) => forall|h: int|
                0 <= h < crate::nodes::textcomponent::selected_rows(t.rows()).len() ==> #[trigger] crate::nodes::textcomponent::selected_rows(
                    t.rows(),
                )[h] + t.y_offset <= usize::MAX,
            Component::Image(_) => true,
        }
}

/// The line (`y + r`, in `u16`) of each link of the rows, in order.
pub open spec fn row_link_ys(rows: Seq<Seq<WordView>>, y: u16) -> Seq<u16>
    decreases rows.len(),
{
    if rows.len() == 0 {
        Seq::empty()
    } else {
        row_link_ys(rows.drop_last(), y) + Seq::new(
            count_links(rows.last()),
            |i: int| (y + ((rows.len() - 1) as u16)) as u16,
        )
    }
}

/// The lines of the links of the visible text blocks, in document order.
pub open spec fn link_ys(cs: Seq<Component>) -> Seq<u16>
    decreases cs.len(),
{
    if cs.len() == 0 {
        Seq::empty()
    } else {
        link_ys(cs.drop_last()) + match cs.last() {
            Component::TextComponent(t) => if t.hidden {
                Seq::empty()
            } else {
                row_link_ys(t.rows(), t.y_offset)
            },
            Component::Image(_) => Seq::empty(),
        }
    }
}

/// Every row of a visible text block that holds a link has its line within `u16`.
pub open spec fn link_rows_fit(cs: Seq<Component>) -> bool {
    forall|k: int|
        0 <= k < cs.len() ==> match #[trigger] cs[k] {
            Component::TextComponent(t) => !t.hidden ==> forall|r: int|
                0 <= r < t.rows().len() && count_links(#[trigger] t.rows()[r]) > 0 ==> t.y_offset + (r as u16)
                    <= u16::MAX,
            Component::Image(_) => true,
        }
}


pub proof fn lemma_kind_text_concat(a: Seq<WordView>, b: Seq<WordView>, k: WordType)
    ensures
        kind_text(a + b, k) == kind_text(a, k) + kind_text(b, k),
    decreases b.len(),
{
    if b.len() > 0 {
        lemma_kind_text_concat(a, b.drop_last(), k);
        assert((a + b).drop_last() =~= a + b.drop_last());
        assert(kind_text(a + b, k) =~= kind_text(a, k) + kind_text(b, k));
    } else {
        assert(a + b =~= a);
        assert(kind_text(a, k) + kind_text(b, k) =~= kind_text(a, k));
    }
}

pub proof fn lemma_row_link_ys_len(rows: Seq<Seq<WordView>>, y: u16)
    ensures
        row_link_ys(rows, y).len() == count_links(flat(rows)),
    decreases rows.len(),
{
    if rows.len() > 0 {
        lemma_row_link_ys_len(rows.drop_last(), y);
        crate::nodes::textcomponent::lemma_count_links_concat(flat(rows.drop_last()), rows.last());
    }
}

/// `link_index_and_height` lists as many links as `num_links` counts.
pub proof fn lemma_link_ys_len(cs: Seq<Component>)
    ensures
        link_ys(cs).len() == links_sum(cs),
    decreases cs.len(),
{
    if cs.len() > 0 {
        lemma_link_ys_len(cs.drop_last());
        match cs.last() {
            Component::TextComponent(t) => {
                lemma_row_link_ys_len(t.rows(), t.y_offset);
            },
            _ => {},
        }
    }
}

/// `new` is text block `old` after marking the hits of `search`.
pub open spec fn searched_of(old: Component, new: Component, search: Seq<char>) -> bool {
    match (old, new) {
        (Component::TextComponent(t), Component::TextComponent(u)) => {
            &&& u.same_but_rows(t)
            &&& u.focused == t.focused
            &&& u.focused_index == t.focused_index
            &&& u.rows() == crate::search::search_rows(t.rows(), search)
        },
        (Component::Image(i), Component::Image(j)) => i == j,
        _ => false,
    }
}

/// Each value paired with its position.
pub open spec fn numbered(ys: Seq<u16>) -> Seq<(usize, u16)> {
    Seq::new(ys.len(), |k: int| (k as usize, ys[k]))
}

/// Appends `(ordinal, line)` for each link of a row, the line being `y + r`.
fn push_row_links(row: &Vec<Word>, y: u16, r: usize, out: &mut Vec<(usize, u16)>, Ghost(ys): Ghost<Seq<u16>>)
    requires
        old(out)@ == numbered(ys),
        ys.len() + count_links(crate::nodes::textcomponent::row_view(*row)) <= usize::MAX,
        count_links(crate::nodes::textcomponent::row_view(*row)) > 0 ==> y + (r as u16) <= u16::MAX,
    ensures
        final(out)@ == numbered(ys + Seq::new(
            count_links(crate::nodes::textcomponent::row_view(*row)),
            |q: int| (y + (r as u16)) as u16,
        )),
{
    let ghost rv = crate::nodes::textcomponent::row_view(*row);
    let ghost line = (y + (r as u16)) as u16;
    let mut c: usize = 0;
    proof {
        assert(ys + Seq::new(count_links(rv.take(0)), |q: int| line) =~= ys);
    }
    while c < row.len()
        invariant
            rv == crate::nodes::textcomponent::row_view(*row),
            line == (y + (r as u16)) as u16,
            c <= rv.len(),
            ys.len() + count_links(rv) <= usize::MAX,
            count_links(rv) > 0 ==> y + (r as u16) <= u16::MAX,
            out@ == numbered(ys + Seq::new(count_links(rv.take(c as int)), |q: int| line)),
        decreases rv.len() - c,
    {
        proof {
            assert(rv[c as int] == row@[c as int]@);
            crate::nodes::textcomponent::lemma_count_links_step(rv, c as int);
            crate::nodes::textcomponent::lemma_count_links_take_mono(rv, c as int + 1, rv.len() as int);
            assert(rv.take(rv.len() as int) =~= rv);
        }
        if crate::nodes::word::link_kind(row[c].kind) {
            let n = out.len();
            let l = y + (r as u16);
            out.push((n, l));
            proof {
                assert(out@ =~= numbered(ys + Seq::new(count_links(rv.take(c as int + 1)), |q: int| line)));
            }
        } else {
            proof {
                assert(Seq::new(count_links(rv.take(c as int + 1)), |q: int| line) =~= Seq::new(
                    count_links(rv.take(c as int)),
                    |q: int| line,
                ));
            }
        }
        c = c + 1;
    }
    proof {
        assert(rv.take(rv.len() as int) =~= rv);
    }
}

/// Appends `(ordinal, line)` for each link of a visible text block.
fn push_comp_links(t: &TextComponent, out: &mut Vec<(usize, u16)>, Ghost(ys): Ghost<Seq<u16>>)
    requires
        !t.hidden,
        old(out)@ == numbered(ys),
        ys.len() + row_link_ys(t.rows(), t.y_offset).len() <= usize::MAX,
        forall|q: int|
            0 <= q < t.rows().len() && count_links(#[trigger] t.rows()[q]) > 0 ==> t.y_offset + (q as u16)
                <= u16::MAX,
    ensures
        final(out)@ == numbered(ys + row_link_ys(t.rows(), t.y_offset)),
{
    let ghost rows = t.rows();
    let y = t.y_offset();
    let mut r: usize = 0;
    proof {
        assert(ys + row_link_ys(rows.take(0), y) =~= ys);
        lemma_row_link_ys_len(rows, y);
    }
    while r < t.content.len()
        invariant
            rows == t.rows(),
            y == t.y_offset,
            r <= rows.len(),
            forall|q: int|
                0 <= q < rows.len() && count_links(#[trigger] rows[q]) > 0 ==> y + (q as u16) <= u16::MAX,
            ys.len() + row_link_ys(rows, y).len() <= usize::MAX,
            out@ == numbered(ys + row_link_ys(rows.take(r as int), y)),
        decreases rows.len() - r,
    {
        proof {
            crate::nodes::textcomponent::lemma_rows_view(t.content@);
            assert(rows.take(r as int + 1).drop_last() =~= rows.take(r as int));
            lemma_row_link_ys_len(rows.take(r as int + 1), y);
            lemma_row_link_ys_len(rows.take(r as int), y);
            lemma_row_link_ys_len(rows, y);
            crate::nodes::textcomponent::lemma_links_before_row_step(rows, r as int);
            crate::nodes::textcomponent::lemma_links_before_row_mono(rows, r as int + 1, rows.len() as int);
            assert(rows.take(rows.len() as int) =~= rows);
            assert(crate::nodes::textcomponent::row_view(t.content@[r as int]) == rows[r as int]);
        }
        push_row_links(&t.content[r], y, r, out, Ghost(ys + row_link_ys(rows.take(r as int), y)));
        proof {
            assert(ys + row_link_ys(rows.take(r as int + 1), y) =~= ys + row_link_ys(rows.take(r as int), y)
                + Seq::new(count_links(rows[r as int]), |q: int| (y + (r as u16)) as u16));
        }
        r = r + 1;
    }
    proof {
        assert(rows.take(rows.len() as int) =~= rows);
    }
}


pub proof fn lemma_first_heading_extend(cs: Seq<Component>, target: Seq<char>, j: int, k: int)
    requires
        0 <= j <= cs.len(),
        first_heading(cs.take(j), target) == Some(k),
    ensures
        first_heading(cs, target) == Some(k),
    decreases cs.len() - j,
{
    if j < cs.len() {
        assert(cs.take(j + 1).drop_last() =~= cs.take(j));
        lemma_first_heading_extend(cs, target, j + 1, k);
    } else {
        assert(cs.take(j) =~= cs);
    }
}

pub proof fn lemma_first_heading_after(cs: Seq<Component>, target: Seq<char>, j: int)
    requires
        0 <= j <= cs.len(),
        first_heading(cs.take(j), target) is None,
    ensures
        first_heading(cs, target) matches Some(k) ==> j <= k,
    decreases cs.len() - j,
{
    if j < cs.len() {
        assert(cs.take(j + 1).drop_last() =~= cs.take(j));
        if first_heading(cs.take(j + 1), target) is None {
            lemma_first_heading_after(cs, target, j + 1);
        } else {
            lemma_first_heading_extend(cs, target, j + 1, j);
        }
    } else {
        assert(cs.take(j) =~= cs);
    }
}

pub proof fn lemma_first_heading_some(cs: Seq<Component>, target: Seq<char>)
    requires
        first_heading(cs, target) is Some,
    ensures
        0 <= first_heading(cs, target)->0 < cs.len(),
    decreases cs.len(),
{
    if first_heading(cs.drop_last(), target) is Some {
        lemma_first_heading_some(cs.drop_last(), target);
    }
}

pub proof fn lemma_breaks_before_mono(cs: Seq<Component>, j: int, i: int)
    requires
        0 <= j <= i,
    ensures
        breaks_before(cs, j) <= breaks_before(cs, i),
    decreases i - j,
{
    if j < i {
        lemma_breaks_before_mono(cs, j, i - 1);
    }
}

/// The first `i` blocks of `cs`, with their line breaks, are laid out in `out`.
#[verifier::opaque]
pub open spec fn placed(cs: Seq<Component>, out: Seq<Component>, i: int) -> bool {
    &&& out.len() == i + breaks_before(cs, i)
    &&& forall|j: int| 0 <= j < i ==> out[j + breaks_before(cs, j)] == #[trigger] cs[j]
    &&& forall|j: int|
        0 <= j < i && #[trigger] needs_break(cs, j) ==> is_line_break_with(
            out[j + breaks_before(cs, j) + 1],
            owning_ids(cs[j]).take(lcp_len(owning_ids(cs[j]), owning_ids(cs[j + 1])) as int),
        )
}

proof fn lemma_placed_step(cs: Seq<Component>, prev: Seq<Component>, out: Seq<Component>, i: int)
    requires
        0 <= i < cs.len(),
        placed(cs, prev, i),
        out.len() == prev.len() + 1 + if needs_break(cs, i) {
            1int
        } else {
            0int
        },
        forall|j: int| 0 <= j < prev.len() ==> out[j] == prev[j],
        out[prev.len() as int] == cs[i],
        needs_break(cs, i) ==> is_line_break_with(
            out[prev.len() as int + 1],
            owning_ids(cs[i]).take(lcp_len(owning_ids(cs[i]), owning_ids(cs[i + 1])) as int),
        ),
    ensures
        placed(cs, out, i + 1),
{
    reveal(placed);
    assert forall|j: int| 0 <= j < i implies j + breaks_before(cs, j) + 1 < prev.len() || !needs_break(cs, j) by {
        lemma_breaks_before_mono(cs, j + 1, i);
    }
    assert forall|j: int| 0 <= j < i implies j + breaks_before(cs, j) < prev.len() by {
        lemma_breaks_before_mono(cs, j, i);
    }
}

pub proof fn lemma_lcp_len(a: Seq<u32>, b: Seq<u32>, i: int)
    requires
        0 <= i <= a.len(),
        i <= b.len(),
        forall|j: int| 0 <= j < i ==> a[j] == b[j],
        i == a.len() || i == b.len() || a[i] != b[i],
    ensures
        lcp_len(a, b) == i,
    decreases i,
{
    if i > 0 {
        lemma_lcp_len(a.drop_first(), b.drop_first(), i - 1);
    }
}

/// The longest common prefix of two id sequences.
fn common_prefix(a: &Vec<u32>, b: &Vec<u32>) -> (r: Vec<u32>)
    ensures
        r@ == a@.take(lcp_len(a@, b@) as int),
{
    let mut r: Vec<u32> = Vec::new();
    let mut i: usize = 0;
    while i < a.len() && i < b.len() && a[i] == b[i]
        invariant
            i <= a@.len(),
            i <= b@.len(),
            forall|j: int| 0 <= j < i ==> a@[j] == b@[j],
            r@ == a@.take(i as int),
        decreases a@.len() - i,
    {
        r.push(a[i]);
        proof {
            assert(r@ =~= a@.take(i as int + 1));
        }
        i = i + 1;
    }
    proof {
        lemma_lcp_len(a@, b@, i as int);
    }
    r
}

/// A copy of an id vector.
fn copy_ids(a: &Vec<u32>) -> (r: Vec<u32>)
    ensures
        r@ == a@,
{
    let mut r: Vec<u32> = Vec::new();
    let mut i: usize = 0;
    while i < a.len()
        invariant
            i <= a@.len(),
            r@ == a@.take(i as int),
        decreases a@.len() - i,
    {
        r.push(a[i]);
        proof {
            assert(r@ =~= a@.take(i as int + 1));
        }
        i = i + 1;
    }
    proof {
        assert(a@.take(a@.len() as int) =~= a@);
    }
    r
}

/// An empty line break owned by the details ids `ids`.
fn line_break_with(ids: Vec<u32>) -> (c: Component)
    ensures
        is_line_break_with(c, ids@),
{
    let mut lb = TextComponent::new(TextNode::LineBreak, Vec::new());
    lb.set_owning_details_ids(ids);
    proof {
        crate::nodes::textcomponent::lemma_rows_view(lb.content@);
        assert(lb.content@[0]@.len() == 0);
        assert(lb.rows()[0] =~= Seq::<WordView>::empty());
        assert(lb.rows() =~= seq![Seq::<WordView>::empty()]);
    }
    Component::TextComponent(lb)
}

/// Whether a kind is a details summary.
fn is_summary_kind(k: TextNode) -> (b: bool)
    ensures
        b == k is DetailsSummary,
{
    match k {
        TextNode::DetailsSummary { .. } => true,
        _ => false,
    }
}

/// Whether the vector holds the value.
fn vec_contains_u32(v: &Vec<u32>, x: u32) -> (b: bool)
    ensures
        b == v@.contains(x),
{
    let mut i: usize = 0;
    while i < v.len()
        invariant
            i <= v@.len(),
            forall|j: int| 0 <= j < i ==> v@[j] != x,
        decreases v@.len() - i,
    {
        if v[i] == x {
            return true;
        }
        i = i + 1;
    }
    false
}

/// The previous kind of the first `Selected` word of a text block.
fn first_selected_previous(comp: &TextComponent) -> (r: Option<WordType>)
    ensures
        match first_selected(flat(comp.rows())) {
            Some(w) => r == Some(flat(comp.rows())[w].previous),
            None => r is None,
        },
{
    let ghost rows = comp.rows();
    let mut r: usize = 0;
    while r < comp.content.len()
        invariant
            rows == comp.rows(),
            r <= rows.len(),
            first_selected(flat(rows.take(r as int))) is None,
        decreases rows.len() - r,
    {
        proof {
            crate::nodes::textcomponent::lemma_rows_view(comp.content@);
        }
        let row = &comp.content[r];
        let mut c: usize = 0;
        while c < row.len()
            invariant
                rows == comp.rows(),
                r < rows.len(),
                crate::nodes::textcomponent::row_view(*row) == rows[r as int],
                c <= rows[r as int].len(),
                first_selected(flat(rows.take(r as int)) + rows[r as int].take(c as int)) is None,
            decreases rows[r as int].len() - c,
        {
            let ghost pre = flat(rows.take(r as int));
            proof {
                assert((pre + rows[r as int].take(c as int + 1)).drop_last() =~= pre + rows[r as int].take(
                    c as int,
                ));
                assert(rows[r as int][c as int] == row@[c as int]@);
            }
            if row[c].kind == WordType::Selected {
                proof {
                    lemma_flat_prefix(rows, r as int, c as int + 1);
                    let k = pre.len() + c;
                    let ws = flat(rows);
                    assert(first_selected(pre + rows[r as int].take(c as int + 1)) == Some(k));
                    lemma_first_selected_extend(ws, k + 1, k);
                    assert(ws[k] == (pre + rows[r as int].take(c as int + 1))[k]);
                }
                return Some(row[c].previous_type);
            }
            c = c + 1;
        }
        proof {
            assert(rows[r as int].take(rows[r as int].len() as int) =~= rows[r as int]);
            assert(rows.take(r as int + 1).drop_last() =~= rows.take(r as int));
        }
        r = r + 1;
    }
    proof {
        assert(rows.take(rows.len() as int) =~= rows);
    }
    None
}

/// The abstract value of the document root.
pub struct RootView {
    pub file_name: Option<Seq<char>>,
    pub components: Seq<Component>,
    pub is_focused: bool,
}

/// The rendered document: its blocks from top to bottom.
#[derive(Debug)]
pub struct ComponentRoot {
    file_name: Option<String>,
    components: Vec<Component>,
    is_focused: bool,
}

impl View for ComponentRoot {
    type V = RootView;

    closed spec fn view(&self) -> RootView {
        RootView {
            file_name: match self.file_name {
                Some(s) => Some(s@),
                None => None,
            },
            components: self.components@,
            is_focused: self.is_focused,
        }
    }
}

pub proof fn lemma_links_sum_step(cs: Seq<Component>, k: int)
    requires
        0 <= k < cs.len(),
    ensures
        links_sum(cs.take(k + 1)) == links_sum(cs.take(k)) + cs[k].spec_links(),
{
    assert(cs.take(k + 1).drop_last() =~= cs.take(k));
}

pub proof fn lemma_links_sum_mono(cs: Seq<Component>, i: int, j: int)
    requires
        0 <= i <= j <= cs.len(),
    ensures
        links_sum(cs.take(i)) <= links_sum(cs.take(j)),
    decreases j - i,
{
    if i < j {
        lemma_links_sum_step(cs, j - 1);
        lemma_links_sum_mono(cs, i, j - 1);
    }
}

pub proof fn lemma_heights_sum_step(cs: Seq<Component>, k: int)
    requires
        0 <= k < cs.len(),
    ensures
        heights_sum(cs.take(k + 1)) == heights_sum(cs.take(k)) + cs[k].spec_height(),
{
    assert(cs.take(k + 1).drop_last() =~= cs.take(k));
}

pub proof fn lemma_heights_sum_mono(cs: Seq<Component>, i: int, j: int)
    requires
        0 <= i <= j <= cs.len(),
    ensures
        heights_sum(cs.take(i)) <= heights_sum(cs.take(j)),
    decreases j - i,
{
    if i < j {
        lemma_heights_sum_step(cs, j - 1);
        lemma_heights_sum_mono(cs, i, j - 1);
    }
}


pub proof fn lemma_first_focused_extend(cs: Seq<Component>, j: int, k: int)
    requires
        0 <= j <= cs.len(),
        first_focused(cs.take(j)) == Some(k),
    ensures
        first_focused(cs) == Some(k),
    decreases cs.len() - j,
{
    if j < cs.len() {
        assert(cs.take(j + 1).drop_last() =~= cs.take(j));
        lemma_first_focused_extend(cs, j + 1, k);
    } else {
        assert(cs.take(j) =~= cs);
    }
}

pub proof fn lemma_first_selected_extend(ws: Seq<WordView>, j: int, k: int)
    requires
        0 <= j <= ws.len(),
        first_selected(ws.take(j)) == Some(k),
    ensures
        first_selected(ws) == Some(k),
    decreases ws.len() - j,
{
    if j < ws.len() {
        assert(ws.take(j + 1).drop_last() =~= ws.take(j));
        lemma_first_selected_extend(ws, j + 1, k);
    } else {
        assert(ws.take(j) =~= ws);
    }
}



/// The words of the first rows followed by the first words of the next row
/// are a prefix of all the words.
pub proof fn lemma_flat_prefix(rows: Seq<Seq<WordView>>, r: int, c: int)
    requires
        0 <= r < rows.len(),
        0 <= c <= rows[r].len(),
    ensures
        flat(rows.take(r)) + rows[r].take(c) == flat(rows).take(flat(rows.take(r)).len() + c),
        flat(rows.take(r)).len() + c <= flat(rows).len(),
{
    lemma_flat_take_prefix(rows, r + 1);
    assert(rows.take(r + 1).drop_last() =~= rows.take(r));
    let a = flat(rows.take(r));
    let b = flat(rows.take(r + 1));
    assert(b == a + rows[r]);
    assert(a + rows[r].take(c) =~= flat(rows).take(a.len() + c));
}

/// The words of the first `j` rows are a prefix of all the words.
pub proof fn lemma_flat_take_prefix(rows: Seq<Seq<WordView>>, j: int)
    requires
        0 <= j <= rows.len(),
    ensures
        flat(rows.take(j)) == flat(rows).take(flat(rows.take(j)).len() as int),
        flat(rows.take(j)).len() <= flat(rows).len(),
    decreases rows.len() - j,
{
    if j < rows.len() {
        lemma_flat_take_prefix(rows, j + 1);
        assert(rows.take(j + 1).drop_last() =~= rows.take(j));
        let a = flat(rows.take(j));
        let b = flat(rows.take(j + 1));
        assert(b == a + rows[j]);
        assert(a =~= flat(rows).take(a.len() as int));
    } else {
        assert(rows.take(j) =~= rows);
        assert(flat(rows) =~= flat(rows).take(flat(rows).len() as int));
    }
}

pub proof fn lemma_text_comps_prefix(cs: Seq<Component>, j: int)
    requires
        0 <= j <= cs.len(),
    ensures
        text_comps(cs.take(j)) == text_comps(cs).take(text_comps(cs.take(j)).len() as int),
        text_comps(cs.take(j)).len() <= text_comps(cs).len(),
    decreases cs.len() - j,
{
    if j < cs.len() {
        lemma_text_comps_prefix(cs, j + 1);
        assert(cs.take(j + 1).drop_last() =~= cs.take(j));
        assert(text_comps(cs.take(j)) =~= text_comps(cs).take(text_comps(cs.take(j)).len() as int));
    } else {
        assert(cs.take(j) =~= cs);
        assert(text_comps(cs) =~= text_comps(cs).take(text_comps(cs).len() as int));
    }
}

impl ComponentRoot {
    #[must_use]
    pub fn new(file_name: Option<String>, components: Vec<Component>) -> (r: Self)
        ensures
            r@.file_name == (match file_name {
                Some(s) => Some(s@),
                None => None,
            }),
            r@.components == components@,
            !r@.is_focused,
    {
        ComponentRoot { file_name, components, is_focused: false }
    }

    /// The blocks, in order.
    #[must_use]
    pub fn children(&self) -> (r: Vec<&Component>)
        ensures
            r@.len() == self@.components.len(),
            forall|i: int| 0 <= i < r@.len() ==> *(#[trigger] r@[i]) == self@.components[i],
    {
        let mut out: Vec<&Component> = Vec::new();
        let mut i: usize = 0;
        while i < self.components.len()
            invariant
                i <= self.components@.len(),
                out@.len() == i,
                forall|k: int| 0 <= k < i ==> *(#[trigger] out@[k]) == self.components@[k],
            decreases self.components@.len() - i,
        {
            out.push(&self.components[i]);
            i = i + 1;
        }
        out
    }

    /// The blocks, for changing them in place.
    pub fn children_mut(&mut self) -> (r: &mut Vec<Component>)
        ensures
            r@ == old(self)@.components,
            final(self)@.components == final(r)@,
            final(self)@.file_name == old(self)@.file_name,
            final(self)@.is_focused == old(self)@.is_focused,
    {
        &mut self.components
    }

    /// The text blocks, in order.
    #[must_use]
    pub fn components(&self) -> (r: Vec<&TextComponent>)
        ensures
            r@.len() == text_comps(self@.components).len(),
            forall|i: int| 0 <= i < r@.len() ==> *(#[trigger] r@[i]) == text_comps(self@.components)[i],
    {
        let ghost cs = self.components@;
        let mut out: Vec<&TextComponent> = Vec::new();
        let mut i: usize = 0;
        while i < self.components.len()
            invariant
                cs == self.components@,
                i <= cs.len(),
                out@.len() == text_comps(cs.take(i as int)).len(),
                forall|k: int| 0 <= k < out@.len() ==> *(#[trigger] out@[k]) == text_comps(cs.take(i as int))[k],
            decreases cs.len() - i,
        {
            proof {
                assert(cs.take(i as int + 1).drop_last() =~= cs.take(i as int));
            }
            match &self.components[i] {
                Component::TextComponent(t) => {
                    out.push(t);
                },
                Component::Image(_) => {},
            }
            i = i + 1;
        }
        proof {
            assert(cs.take(cs.len() as int) =~= cs);
        }
        out
    }

    /// The `index`-th text block (images are skipped), for changing it in
    /// place; `None` when there are not that many text blocks.
    pub fn components_mut(&mut self, index: usize) -> (r: Option<&mut TextComponent>)
        ensures
            r is Some <==> index < text_comps(old(self)@.components).len(),
            final(self)@.file_name == old(self)@.file_name,
            final(self)@.is_focused == old(self)@.is_focused,
            r is None ==> final(self)@ == old(self)@,
            r matches Some(t) ==> *t == text_comps(old(self)@.components)[index as int],
            r matches Some(t) ==> exists|k: int|
                0 <= k < old(self)@.components.len() && #[trigger] old(self)@.components[k]
                    == Component::TextComponent(*t),
            r matches Some(t) ==> exists|k: int|
                0 <= k < old(self)@.components.len() && final(self)@.components == old(
                    self,
                )@.components.update(k, Component::TextComponent(*final(t))),
    {
        let ghost cs = self.components@;
        let mut count: usize = 0;
        let mut i: usize = 0;
        while i < self.components.len()
            invariant
                cs == self.components@,
                *self == *old(self),
                i <= cs.len(),
                count == text_comps(cs.take(i as int)).len(),
                count <= index,
            decreases cs.len() - i,
        {
            proof {
                assert(cs.take(i as int + 1).drop_last() =~= cs.take(i as int));
            }
            let is_text = match &self.components[i] {
                Component::TextComponent(_) => true,
                Component::Image(_) => false,
            };
            if is_text {
                if count == index {
                    proof {
                        lemma_text_comps_prefix(cs, i as int + 1);
                        let tc = text_comps(cs.take(i as int + 1));
                        assert(tc.len() == index + 1);
                        assert(cs[i as int] matches Component::TextComponent(tt) && tc[index as int] == tt);
                        assert(text_comps(cs)[index as int] == tc[index as int]);
                    }
                    match &mut self.components[i] {
                        Component::TextComponent(t) => {
                            proof {
                                assert(old(self)@.components[i as int] == Component::TextComponent(*t));
                            }
                            return Some(t);
                        },
                        Component::Image(_) => {
                            return None;
                        },
                    }
                }
                count = count + 1;
            }
            i = i + 1;
        }
        proof {
            assert(cs.take(cs.len() as int) =~= cs);
        }
        None
    }

    #[must_use]
    pub fn file_name(&self) -> (r: Option<&str>)
        ensures
            match (r, self@.file_name) {
                (Some(s), Some(n)) => s@ == n,
                (None, None) => true,
                _ => false,
            },
    {
        match &self.file_name {
            Some(s) => Some(s.as_str()),
            None => None,
        }
    }

    /// Empties the document.
    pub fn clear(&mut self)
        ensures
            final(self)@.file_name is None,
            final(self)@.components.len() == 0,
            final(self)@.is_focused == old(self)@.is_focused,
    {
        self.file_name = None;
        self.components.clear();
    }

    /// Total rows of the document.
    #[must_use]
    pub fn height(&self) -> (h: u16)
        requires
            heights_sum(self@.components) <= u16::MAX,
        ensures
            h == heights_sum(self@.components),
    {
        let ghost cs = self.components@;
        let mut h: u16 = 0;
        let mut i: usize = 0;
        while i < self.components.len()
            invariant
                cs == self.components@,
                heights_sum(cs) <= u16::MAX,
                i <= cs.len(),
                h == heights_sum(cs.take(i as int)),
            decreases cs.len() - i,
        {
            proof {
                lemma_heights_sum_step(cs, i as int);
                lemma_heights_sum_mono(cs, i as int + 1, cs.len() as int);
                assert(cs.take(cs.len() as int) =~= cs);
            }
            h = h + self.components[i].height();
            i = i + 1;
        }
        proof {
            assert(cs.take(cs.len() as int) =~= cs);
        }
        h
    }

    /// Total links of the document (hidden blocks offer none).
    #[must_use]
    pub fn num_links(&self) -> (n: usize)
        requires
            links_sum(self@.components) <= usize::MAX,
        ensures
            n == links_sum(self@.components),
    {
        let ghost cs = self.components@;
        let mut n: usize = 0;
        let mut i: usize = 0;
        while i < self.components.len()
            invariant
                cs == self.components@,
                links_sum(cs) <= usize::MAX,
                i <= cs.len(),
                n == links_sum(cs.take(i as int)),
            decreases cs.len() - i,
        {
            proof {
                lemma_links_sum_step(cs, i as int);
                lemma_links_sum_mono(cs, i as int + 1, cs.len() as int);
                assert(cs.take(cs.len() as int) =~= cs);
            }
            match &self.components[i] {
                Component::TextComponent(t) => {
                    n = n + t.num_links();
                },
                Component::Image(_) => {},
            }
            i = i + 1;
        }
        proof {
            assert(cs.take(cs.len() as int) =~= cs);
        }
        n
    }


    /// Unfocuses the document and every text block, returning selected words to their previous kind.
    pub fn deselect(&mut self)
        ensures
            final(self)@.file_name == old(self)@.file_name,
            !final(self)@.is_focused,
            final(self)@.components.len() == old(self)@.components.len(),
            forall|i: int|
                0 <= i < old(self)@.components.len() ==> deselect_of(
                    old(self)@.components[i],
                    #[trigger] final(self)@.components[i],
                ),
    {
        self.is_focused = false;
        let ghost cs = self.components@;
        let mut i: usize = 0;
        while i < self.components.len()
            invariant
                cs == old(self).components@,
                self.file_name == old(self).file_name,
                !self.is_focused,
                self.components@.len() == cs.len(),
                i <= cs.len(),
                forall|k: int|
                    0 <= k < cs.len() ==> if k < i {
                        deselect_of(cs[k], #[trigger] self.components@[k])
                    } else {
                        self.components@[k] == cs[k]
                    },
            decreases cs.len() - i,
        {
            match &mut self.components[i] {
                Component::TextComponent(comp) => comp.deselect(),
                Component::Image(_) => {},
            }
            i = i + 1;
        }
    }

    /// Focuses the document and selects the link with document-wide ordinal
    /// `index` (counted after deselecting), returning the y offset of its block.
    pub fn select(&mut self, index: usize) -> (res: Result<u16, String>)
        requires
            words_fit(old(self)@.components),
        ensures
            select_post(old(self)@, final(self)@, index as nat, res),
    {
        self.deselect();
        self.is_focused = true;
        let ghost mid = self.components@;
        proof {
            assert forall|k: int| 0 <= k < mid.len() implies (#[trigger] mid[k]).spec_links()
                <= usize::MAX by {
                assert(word_count(old(self).components@[k]) <= usize::MAX);
                match mid[k] {
                    Component::TextComponent(t) => {
                        lemma_count_links_le_len(flat(t.rows()));
                        match old(self).components@[k] {
                            Component::TextComponent(t0) => {
                                lemma_flat_deselect_len(t0.rows());
                            },
                            _ => {},
                        }
                    },
                    _ => {},
                }
            }
        }
        let mut count: usize = 0;
        let mut i: usize = 0;
        while i < self.components.len()
            invariant
                self.components@ == mid,
                mid.len() == old(self)@.components.len(),
                forall|k: int|
                    0 <= k < mid.len() ==> deselect_of(old(self)@.components[k], #[trigger] mid[k]),
                self@.file_name == old(self)@.file_name,
                self.is_focused,
                forall|k: int| 0 <= k < mid.len() ==> (#[trigger] mid[k]).spec_links() <= usize::MAX,
                i <= mid.len(),
                count == links_sum(mid.take(i as int)),
                count <= index,
            decreases mid.len() - i,
        {
            proof {
                lemma_links_sum_step(mid, i as int);
            }
            let n = match &self.components[i] {
                Component::TextComponent(comp) => comp.num_links(),
                Component::Image(_) => 0,
            };
            if index - count < n {
                let y = self.components[i].select_link(index - count);
                proof {
                    let k = i as int;
                    assert(holds_link(mid, k, index as nat));
                    lemma_links_sum_mono(mid, k + 1, mid.len() as int);
                    assert(mid.take(mid.len() as int) =~= mid);
                    assert(y == y_of(mid[k]));
                    assert(select_of(mid[k], self@.components[k], (index - links_sum(mid.take(k))) as nat));
                    assert(forall|j: int| 0 <= j < mid.len() && j != k ==> #[trigger] self@.components[j] == mid[j]);
                }
                return Ok(y);
            }
            count = count + n;
            i = i + 1;
        }
        proof {
            assert(mid.take(mid.len() as int) =~= mid);
        }
        let mut msg = owned("Index out of bounds: ");
        push_decimal(&mut msg, index);
        msg.append(" >= ");
        push_decimal(&mut msg, count);
        proof {
            assert(msg@ =~= link_index_error(index as nat, links_sum(mid)));
        }
        Err(msg)
    }

    /// The anchor of the link with document-wide ordinal `index`, without
    /// changing focus or highlighting; the ordinal is the one `select` takes.
    #[must_use]
    pub fn link_anchor_at(&self, index: usize) -> (r: Option<&str>)
        requires
            links_sum(self@.components) <= usize::MAX,
        ensures
            anchor_is(self@.components, index as nat, str_opt(r)),
    {
        let ghost cs = self.components@;
        let mut count: usize = 0;
        let mut i: usize = 0;
        while i < self.components.len()
            invariant
                cs == self.components@,
                links_sum(cs) <= usize::MAX,
                i <= cs.len(),
                count == links_sum(cs.take(i as int)),
                count <= index,
            decreases cs.len() - i,
        {
            proof {
                lemma_links_sum_step(cs, i as int);
                lemma_links_sum_mono(cs, i as int + 1, cs.len() as int);
                assert(cs.take(cs.len() as int) =~= cs);
            }
            match &self.components[i] {
                Component::TextComponent(comp) => {
                    let n = comp.num_links();
                    if index < count + n {
                        proof {
                            assert(holds_link(cs, i as int, index as nat));
                        }
                        return comp.link_anchor_at(index - count);
                    }
                    count = count + n;
                },
                Component::Image(_) => {},
            }
            i = i + 1;
        }
        proof {
            assert(cs.take(cs.len() as int) =~= cs);
        }
        None
    }

    /// The anchor of the selected link of the first focused text block.
    #[must_use]
    pub fn selected(&self) -> (r: Option<&str>)
        ensures
            selected_is(self@.components, str_opt(r)),
    {
        let ghost cs = self.components@;
        let mut i: usize = 0;
        while i < self.components.len()
            invariant
                cs == self.components@,
                i <= cs.len(),
                first_focused(cs.take(i as int)) is None,
            decreases cs.len() - i,
        {
            proof {
                assert(cs.take(i as int + 1).drop_last() =~= cs.take(i as int));
            }
            match &self.components[i] {
                Component::TextComponent(comp) => {
                    if comp.is_focused() {
                        proof {
                            lemma_first_focused_extend(cs, i as int + 1, i as int);
                        }
                        return match comp.highlight_link() {
                            Ok(s) => Some(s),
                            Err(_) => None,
                        };
                    }
                },
                Component::Image(_) => {},
            }
            i = i + 1;
        }
        proof {
            assert(cs.take(cs.len() as int) =~= cs);
        }
        None
    }

    /// The kind that the first `Selected` word of the first focused text block had before.
    #[must_use]
    pub fn selected_underlying_type(&self) -> (r: Option<WordType>)
        ensures
            match first_focused(self@.components) {
                None => r is None,
                Some(k) => match self@.components[k] {
                    Component::TextComponent(t) => match first_selected(flat(t.rows())) {
                        Some(w) => r == Some(flat(t.rows())[w].previous),
                        None => r is None,
                    },
                    Component::Image(_) => false,
                },
            },
    {
        let ghost cs = self.components@;
        let mut i: usize = 0;
        while i < self.components.len()
            invariant
                cs == self.components@,
                i <= cs.len(),
                first_focused(cs.take(i as int)) is None,
            decreases cs.len() - i,
        {
            proof {
                assert(cs.take(i as int + 1).drop_last() =~= cs.take(i as int));
            }
            match &self.components[i] {
                Component::TextComponent(comp) => {
                    if comp.is_focused() {
                        proof {
                            lemma_first_focused_extend(cs, i as int + 1, i as int);
                        }
                        return first_selected_previous(comp);
                    }
                },
                Component::Image(_) => {},
            }
            i = i + 1;
        }
        proof {
            assert(cs.take(cs.len() as int) =~= cs);
        }
        None
    }


    /// Sets every text block's `hidden` flag: a block is hidden iff one of its
    /// owning details ids belongs to a folded details summary.
    pub fn recompute_visibility(&mut self)
        ensures
            final(self)@.file_name == old(self)@.file_name,
            final(self)@.is_focused == old(self)@.is_focused,
            final(self)@.components == recomputed(old(self)@.components),
    {
        let ghost cs = self.components@;
        let mut folded: Vec<u32> = Vec::new();
        let mut i: usize = 0;
        while i < self.components.len()
            invariant
                cs == self.components@,
                i <= cs.len(),
                folded@ == folded_ids(cs.take(i as int)),
            decreases cs.len() - i,
        {
            proof {
                assert(cs.take(i as int + 1).drop_last() =~= cs.take(i as int));
            }
            match &self.components[i] {
                Component::TextComponent(tc) => {
                    match tc.kind() {
                        TextNode::DetailsSummary { id, folded: true } => {
                            folded.push(id);
                        },
                        _ => {},
                    }
                },
                Component::Image(_) => {},
            }
            proof {
                assert(folded@ =~= folded_ids(cs.take(i as int + 1)));
            }
            i = i + 1;
        }
        proof {
            assert(cs.take(cs.len() as int) =~= cs);
            assert forall|id: u32| folded@.contains(id) <==> is_folded_id(cs, id) by {
                lemma_folded_ids(cs, id);
            }
        }
        let mut i: usize = 0;
        while i < self.components.len()
            invariant
                self.components@.len() == cs.len(),
                cs == old(self).components@,
                self.file_name == old(self).file_name,
                self.is_focused == old(self).is_focused,
                i <= cs.len(),
                forall|id: u32| folded@.contains(id) <==> is_folded_id(cs, id),
                forall|k: int|
                    0 <= k < cs.len() ==> #[trigger] self.components@[k] == if k < i {
                        with_visibility(cs, cs[k])
                    } else {
                        cs[k]
                    },
            decreases cs.len() - i,
        {
            let hidden = match &self.components[i] {
                Component::TextComponent(tc) => {
                    let ids = tc.owning_details_ids();
                    let mut any = false;
                    let mut j: usize = 0;
                    while j < ids.len()
                        invariant
                            j <= ids@.len(),
                            forall|id: u32| folded@.contains(id) <==> is_folded_id(cs, id),
                            any <==> exists|m: int| 0 <= m < j && is_folded_id(cs, #[trigger] ids@[m]),
                        decreases ids@.len() - j,
                    {
                        if vec_contains_u32(&folded, ids[j]) {
                            any = true;
                        }
                        j = j + 1;
                    }
                    any
                },
                Component::Image(_) => false,
            };
            match &mut self.components[i] {
                Component::TextComponent(tc) => tc.set_hidden(hidden),
                Component::Image(_) => {},
            }
            i = i + 1;
        }
        proof {
            assert(self.components@ =~= recomputed(cs));
        }
    }

    /// Number of visible details summaries.
    #[must_use]
    pub fn num_details(&self) -> (n: usize)
        ensures
            n == summary_count(self@.components),
    {
        let ghost cs = self.components@;
        let mut n: usize = 0;
        let mut i: usize = 0;
        while i < self.components.len()
            invariant
                cs == self.components@,
                i <= cs.len(),
                n == summary_count(cs.take(i as int)),
                n <= i,
            decreases cs.len() - i,
        {
            proof {
                lemma_summary_count_step(cs, i as int);
            }
            match &self.components[i] {
                Component::TextComponent(comp) => {
                    if !comp.is_hidden() && is_summary_kind(comp.kind()) {
                        n = n + 1;
                    }
                },
                Component::Image(_) => {},
            }
            i = i + 1;
        }
        proof {
            assert(cs.take(cs.len() as int) =~= cs);
        }
        n
    }

    /// `(index, y_offset)` of each visible details summary, in document order.
    #[must_use]
    pub fn details_index_and_height(&self) -> (out: Vec<(usize, u16)>)
        ensures
            out@.len() == summary_ys(self@.components).len(),
            forall|k: int|
                0 <= k < out@.len() ==> #[trigger] out@[k] == (k as usize, summary_ys(self@.components)[k]),
    {
        let ghost cs = self.components@;
        let mut out: Vec<(usize, u16)> = Vec::new();
        let mut idx: usize = 0;
        let mut i: usize = 0;
        while i < self.components.len()
            invariant
                cs == self.components@,
                i <= cs.len(),
                idx == out@.len(),
                idx <= i,
                out@.len() == summary_ys(cs.take(i as int)).len(),
                forall|k: int|
                    0 <= k < out@.len() ==> #[trigger] out@[k] == (k as usize, summary_ys(cs.take(i as int))[k]),
            decreases cs.len() - i,
        {
            proof {
                lemma_summary_count_step(cs, i as int);
            }
            match &self.components[i] {
                Component::TextComponent(comp) => {
                    if !comp.is_hidden() && is_summary_kind(comp.kind()) {
                        out.push((idx, comp.y_offset()));
                        idx = idx + 1;
                    }
                },
                Component::Image(_) => {},
            }
            i = i + 1;
        }
        proof {
            assert(cs.take(cs.len() as int) =~= cs);
        }
        out
    }

    /// Takes the focus from every details summary.
    pub fn deselect_details(&mut self)
        ensures
            final(self)@.file_name == old(self)@.file_name,
            final(self)@.is_focused == old(self)@.is_focused,
            final(self)@.components == old(self)@.components.map_values(|c: Component| unfocus_summary(c)),
    {
        let ghost cs = self.components@;
        let mut i: usize = 0;
        while i < self.components.len()
            invariant
                cs == old(self).components@,
                self.file_name == old(self).file_name,
                self.is_focused == old(self).is_focused,
                self.components@.len() == cs.len(),
                i <= cs.len(),
                forall|k: int|
                    0 <= k < cs.len() ==> #[trigger] self.components@[k] == if k < i {
                        unfocus_summary(cs[k])
                    } else {
                        cs[k]
                    },
            decreases cs.len() - i,
        {
            match &mut self.components[i] {
                Component::TextComponent(comp) => {
                    if is_summary_kind(comp.kind()) {
                        comp.deselect_summary();
                    }
                },
                Component::Image(_) => {},
            }
            i = i + 1;
        }
        proof {
            assert(self.components@ =~= cs.map_values(|c: Component| unfocus_summary(c)));
        }
    }

    /// Focuses the `index`-th visible details summary (after taking the focus
    /// from all of them), returning its y offset.
    pub fn select_details(&mut self, index: usize) -> (res: Result<u16, String>)
        ensures
            final(self)@.file_name == old(self)@.file_name,
            final(self)@.is_focused == old(self)@.is_focused,
            final(self)@.components.len() == old(self)@.components.len(),
            index < summary_count(old(self)@.components) ==> exists|k: int|
                {
                    &&& 0 <= k < old(self)@.components.len()
                    &&& is_visible_summary(old(self)@.components[k])
                    &&& summary_count(old(self)@.components.take(k)) == index
                    &&& res == Ok::<u16, String>(y_of(old(self)@.components[k]))
                    &&& final(self)@.components[k] == focus(old(self)@.components[k])
                    &&& forall|j: int|
                        0 <= j < old(self)@.components.len() && j != k ==> #[trigger] final(self)@.components[j]
                            == unfocus_summary(old(self)@.components[j])
                },
            index >= summary_count(old(self)@.components) ==> {
                &&& res matches Err(e)
                &&& e@ == details_index_error(index as nat, summary_count(old(self)@.components))
                &&& final(self)@.components == old(self)@.components.map_values(
                    |c: Component| unfocus_summary(c),
                )
            },
    {
        let ghost cs = self.components@;
        self.deselect_details();
        let mut count: usize = 0;
        let mut i: usize = 0;
        while i < self.components.len()
            invariant
                cs == old(self)@.components,
                self@.file_name == old(self)@.file_name,
                self@.is_focused == old(self)@.is_focused,
                self.components@ == cs.map_values(|c: Component| unfocus_summary(c)),
                i <= cs.len(),
                count == summary_count(cs.take(i as int)),
                count <= index,
            decreases cs.len() - i,
        {
            proof {
                lemma_summary_count_step(cs, i as int);
            }
            let hit = match &self.components[i] {
                Component::TextComponent(comp) => !comp.is_hidden() && is_summary_kind(comp.kind()),
                Component::Image(_) => false,
            };
            if hit {
                if count == index {
                    let y = self.components[i].focus_text();
                    proof {
                        let k = i as int;
                        assert(is_visible_summary(cs[k]));
                        lemma_summary_count_mono(cs, k + 1, cs.len() as int);
                        assert(cs.take(cs.len() as int) =~= cs);
                        assert(forall|j: int| 0 <= j < cs.len() && j != k ==> #[trigger] self@.components[j] == unfocus_summary(cs[j]));
                    }
                    return Ok(y);
                }
                count = count + 1;
            }
            i = i + 1;
        }
        proof {
            assert(cs.take(cs.len() as int) =~= cs);
        }
        let mut msg = owned("Details index out of bounds: ");
        push_decimal(&mut msg, index);
        msg.append(" >= ");
        push_decimal(&mut msg, count);
        proof {
            assert(msg@ =~= details_index_error(index as nat, summary_count(cs)));
        }
        Err(msg)
    }

    /// Flips the fold flag of the first focused details summary and works out
    /// the visibility of all blocks again; `Err` when no summary is focused.
    pub fn toggle_selected_details(&mut self) -> (res: Result<(), String>)
        ensures
            final(self)@.file_name == old(self)@.file_name,
            final(self)@.is_focused == old(self)@.is_focused,
            match first_focused_summary(old(self)@.components) {
                Some(k) => res is Ok && final(self)@.components == recomputed(
                    old(self)@.components.update(k, toggled(old(self)@.components[k])),
                ),
                None => res matches Err(e) && e@ == "No details summary is focused"@
                    && final(self)@.components == old(self)@.components,
            },
    {
        let ghost cs = self.components@;
        let mut toggled_any = false;
        let mut i: usize = 0;
        while i < self.components.len() && !toggled_any
            invariant
                cs == old(self)@.components,
                self@.file_name == old(self)@.file_name,
                self@.is_focused == old(self)@.is_focused,
                i <= cs.len(),
                self.components@.len() == cs.len(),
                !toggled_any ==> self.components@ == cs && first_focused_summary(cs.take(i as int)) is None,
                toggled_any ==> first_focused_summary(cs) is Some && self.components@ == cs.update(
                    first_focused_summary(cs)->0,
                    toggled(cs[first_focused_summary(cs)->0]),
                ),
            decreases cs.len() - i,
        {
            proof {
                assert(cs.take(i as int + 1).drop_last() =~= cs.take(i as int));
            }
            let hit = match &self.components[i] {
                Component::TextComponent(comp) => comp.is_focused() && is_summary_kind(comp.kind()),
                Component::Image(_) => false,
            };
            if hit {
                self.components[i].toggle_fold();
                toggled_any = true;
                proof {
                    lemma_first_focused_summary_extend(cs, i as int + 1, i as int);
                }
            }
            i = i + 1;
        }
        proof {
            if !toggled_any {
                assert(cs.take(cs.len() as int) =~= cs);
            }
        }
        if !toggled_any {
            return Err(owned("No details summary is focused"));
        }
        self.recompute_visibility();
        Ok(())
    }


    /// The words of all text blocks, in order.
    #[must_use]
    pub fn words(&self) -> (r: Vec<&Word>)
        ensures
            r@.map_values(|w: &Word| w@) == all_words(self@.components),
    {
        let ghost cs = self.components@;
        let mut out: Vec<&Word> = Vec::new();
        let mut i: usize = 0;
        while i < self.components.len()
            invariant
                cs == self.components@,
                i <= cs.len(),
                out@.map_values(|w: &Word| w@) == all_words(cs.take(i as int)),
            decreases cs.len() - i,
        {
            proof {
                assert(cs.take(i as int + 1).drop_last() =~= cs.take(i as int));
            }
            match &self.components[i] {
                Component::TextComponent(t) => {
                    let ghost rows = t.rows();
                    let ghost base = all_words(cs.take(i as int));
                    let mut r: usize = 0;
                    proof {
                        assert(base + flat(rows.take(0)) =~= base);
                    }
                    while r < t.content.len()
                        invariant
                            rows == t.rows(),
                            r <= rows.len(),
                            out@.map_values(|w: &Word| w@) == base + flat(rows.take(r as int)),
                        decreases rows.len() - r,
                    {
                        proof {
                            crate::nodes::textcomponent::lemma_rows_view(t.content@);
                            assert(rows.take(r as int + 1).drop_last() =~= rows.take(r as int));
                        }
                        let row = &t.content[r];
                        let ghost before = base + flat(rows.take(r as int));
                        let mut c: usize = 0;
                        proof {
                            assert(before + rows[r as int].take(0) =~= before);
                        }
                        while c < row.len()
                            invariant
                                rows == t.rows(),
                                r < rows.len(),
                                crate::nodes::textcomponent::row_view(*row) == rows[r as int],
                                c <= rows[r as int].len(),
                                out@.map_values(|w: &Word| w@) == before + rows[r as int].take(c as int),
                            decreases rows[r as int].len() - c,
                        {
                            let ghost prev = out@;
                            out.push(&row[c]);
                            proof {
                                assert(rows[r as int][c as int] == row@[c as int]@);
                                assert(out@.map_values(|w: &Word| w@) =~= prev.map_values(|w: &Word| w@).push(
                                    row@[c as int]@,
                                ));
                                assert(rows[r as int].take(c as int + 1) =~= rows[r as int].take(c as int).push(
                                    rows[r as int][c as int],
                                ));
                                assert(out@.map_values(|w: &Word| w@) =~= before + rows[r as int].take(
                                    c as int + 1,
                                ));
                            }
                            c = c + 1;
                        }
                        proof {
                            assert(rows[r as int].take(rows[r as int].len() as int) =~= rows[r as int]);
                            assert(before + rows[r as int] =~= base + flat(rows.take(r as int + 1)));
                        }
                        r = r + 1;
                    }
                    proof {
                        assert(rows.take(rows.len() as int) =~= rows);
                    }
                },
                Component::Image(_) => {
                    proof {
                        assert(all_words(cs.take(i as int + 1)) =~= all_words(cs.take(i as int)));
                    }
                },
            }
            i = i + 1;
        }
        proof {
            assert(cs.take(cs.len() as int) =~= cs);
        }
        out
    }

    /// The text of every row of every text block, in order.
    #[must_use]
    pub fn content(&self) -> (r: Vec<String>)
        ensures
            r@.map_values(|s: String| s@) == all_lines(self@.components),
    {
        let ghost cs = self.components@;
        let mut out: Vec<String> = Vec::new();
        let mut i: usize = 0;
        while i < self.components.len()
            invariant
                cs == self.components@,
                i <= cs.len(),
                out@.map_values(|s: String| s@) == all_lines(cs.take(i as int)),
            decreases cs.len() - i,
        {
            proof {
                assert(cs.take(i as int + 1).drop_last() =~= cs.take(i as int));
            }
            match &self.components[i] {
                Component::TextComponent(t) => {
                    let mut lines = t.content_as_lines();
                    let ghost base = out@.map_values(|s: String| s@);
                    let ghost all = lines@;
                    let ghost prev = out@;
                    out.append(&mut lines);
                    proof {
                        assert(out@ == prev + all);
                        assert(out@.map_values(|s: String| s@) =~= base + all.map_values(|s: String| s@));
                    }
                    proof {
                        assert(all.map_values(|s: String| s@) =~= t.rows().map_values(
                            |row: Seq<WordView>| crate::nodes::textcomponent::words_text(row),
                        ));
                    }
                },
                Component::Image(_) => {
                    proof {
                        assert(all_lines(cs.take(i as int + 1)) =~= all_lines(cs.take(i as int)));
                    }
                },
            }
            i = i + 1;
        }
        proof {
            assert(cs.take(cs.len() as int) =~= cs);
        }
        out
    }


    /// The text of the `Footnote` words of the footnote blocks whose reference
    /// is `search`, or "Footnote not found" when there is none.
    #[must_use]
    pub fn find_footnote(&self, search: &str) -> (r: String)
        ensures
            r@ == if footnote_text(self@.components, search@).len() == 0 {
                "Footnote not found"@
            } else {
                footnote_text(self@.components, search@)
            },
    {
        let ghost cs = self.components@;
        let mut out = String::new();
        let mut i: usize = 0;
        while i < self.components.len()
            invariant
                cs == self.components@,
                i <= cs.len(),
                out@ == footnote_text(cs.take(i as int), search@),
            decreases cs.len() - i,
        {
            proof {
                assert(cs.take(i as int + 1).drop_last() =~= cs.take(i as int));
            }
            match &self.components[i] {
                Component::TextComponent(t) => {
                    let is_ref = t.kind() == TextNode::Footnote && t.meta_info.len() > 0
                        && crate::strings::str_eq(t.meta_info[0].content.as_str(), search);
                    if is_ref {
                        let ghost rows = t.rows();
                        let ghost base = out@;
                        let mut r: usize = 0;
                        proof {
                            assert(base + kind_text(flat(rows.take(0)), WordType::Footnote) =~= base);
                        }
                        while r < t.content.len()
                            invariant
                                rows == t.rows(),
                                r <= rows.len(),
                                out@ == base + kind_text(flat(rows.take(r as int)), WordType::Footnote),
                            decreases rows.len() - r,
                        {
                            proof {
                                crate::nodes::textcomponent::lemma_rows_view(t.content@);
                                assert(rows.take(r as int + 1).drop_last() =~= rows.take(r as int));
                            }
                            let row = &t.content[r];
                            let ghost before = out@;
                            let mut c: usize = 0;
                            proof {
                                assert(before + kind_text(rows[r as int].take(0), WordType::Footnote) =~= before);
                            }
                            while c < row.len()
                                invariant
                                    rows == t.rows(),
                                    r < rows.len(),
                                    crate::nodes::textcomponent::row_view(*row) == rows[r as int],
                                    c <= rows[r as int].len(),
                                    out@ == before + kind_text(rows[r as int].take(c as int), WordType::Footnote),
                                decreases rows[r as int].len() - c,
                            {
                                proof {
                                    assert(rows[r as int][c as int] == row@[c as int]@);
                                    assert(rows[r as int].take(c as int + 1).drop_last() =~= rows[r as int].take(
                                        c as int,
                                    ));
                                }
                                if row[c].kind == WordType::Footnote {
                                    out.append(row[c].content.as_str());
                                }
                                proof {
                                    assert(out@ =~= before + kind_text(rows[r as int].take(c as int + 1), WordType::Footnote));
                                }
                                c = c + 1;
                            }
                            proof {
                                assert(rows[r as int].take(rows[r as int].len() as int) =~= rows[r as int]);
                                lemma_kind_text_concat(flat(rows.take(r as int)), rows[r as int], WordType::Footnote);
                            }
                            r = r + 1;
                        }
                        proof {
                            assert(rows.take(rows.len() as int) =~= rows);
                        }
                    } else {
                        proof {
                            assert(footnote_text(cs.take(i as int + 1), search@) =~= footnote_text(cs.take(i as int), search@));
                        }
                    }
                },
                Component::Image(_) => {
                    proof {
                        assert(footnote_text(cs.take(i as int + 1), search@) =~= footnote_text(cs.take(i as int), search@));
                    }
                },
            }
            i = i + 1;
        }
        proof {
            assert(cs.take(cs.len() as int) =~= cs);
        }
        if out.as_str().is_empty() {
            owned("Footnote not found")
        } else {
            out
        }
    }

    /// Marks the words that hold `search` as `Selected`, in every text block.
    pub fn find_and_mark(&mut self, search: &str)
        ensures
            final(self)@.file_name == old(self)@.file_name,
            final(self)@.is_focused == old(self)@.is_focused,
            final(self)@.components.len() == old(self)@.components.len(),
            forall|k: int|
                0 <= k < old(self)@.components.len() ==> searched_of(
                    old(self)@.components[k],
                    #[trigger] final(self)@.components[k],
                    search@,
                ),
    {
        let ghost cs = self.components@;
        let mut i: usize = 0;
        while i < self.components.len()
            invariant
                cs == old(self).components@,
                self.file_name == old(self).file_name,
                self.is_focused == old(self).is_focused,
                self.components@.len() == cs.len(),
                i <= cs.len(),
                forall|k: int|
                    0 <= k < cs.len() ==> if k < i {
                        searched_of(cs[k], #[trigger] self.components@[k], search@)
                    } else {
                        self.components@[k] == cs[k]
                    },
            decreases cs.len() - i,
        {
            match &mut self.components[i] {
                Component::TextComponent(t) => crate::search::find_and_mark(search, &mut t.content),
                Component::Image(_) => {},
            }
            i = i + 1;
        }
    }

    /// The rows, counted from the top of the document, that hold search hits.
    #[must_use]
    pub fn search_results_heights(&self) -> (r: Vec<usize>)
        requires
            hit_rows_fit(self@.components),
        ensures
            r@ == hit_rows(self@.components),
    {
        let ghost cs = self.components@;
        let mut out: Vec<usize> = Vec::new();
        let mut i: usize = 0;
        while i < self.components.len()
            invariant
                cs == self.components@,
                hit_rows_fit(cs),
                i <= cs.len(),
                out@ == hit_rows(cs.take(i as int)),
            decreases cs.len() - i,
        {
            proof {
                assert(cs.take(i as int + 1).drop_last() =~= cs.take(i as int));
            }
            match &self.components[i] {
                Component::TextComponent(t) => {
                    let hs = t.selected_heights();
                    let y = t.y_offset();
                    let ghost base = out@;
                    let mut j: usize = 0;
                    proof {
                        assert(cs[i as int] matches Component::TextComponent(tt) && tt == *t);
                    }
                    while j < hs.len()
                        invariant
                            hs@ == crate::nodes::textcomponent::selected_rows(t.rows()),
                            y == t.y_offset,
                            forall|h: int| 0 <= h < hs@.len() ==> #[trigger] hs@[h] + y <= usize::MAX,
                            j <= hs@.len(),
                            out@ == base + hs@.take(j as int).map_values(|h: usize| (h + y) as usize),
                        decreases hs@.len() - j,
                    {
                        out.push(hs[j] + y as usize);
                        proof {
                            assert(hs@.take(j as int + 1).map_values(|h: usize| (h + y) as usize) =~= hs@.take(
                                j as int,
                            ).map_values(|h: usize| (h + y) as usize).push((hs@[j as int] + y) as usize));
                        }
                        j = j + 1;
                    }
                    proof {
                        assert(hs@.take(hs@.len() as int) =~= hs@);
                    }
                },
                Component::Image(_) => {
                    proof {
                        assert(hit_rows(cs.take(i as int + 1)) =~= hit_rows(cs.take(i as int)));
                    }
                },
            }
            i = i + 1;
        }
        proof {
            assert(cs.take(cs.len() as int) =~= cs);
        }
        out
    }

    /// `(ordinal, line)` of every link of the visible text blocks, in document order.
    #[must_use]
    pub fn link_index_and_height(&self) -> (r: Vec<(usize, u16)>)
        requires
            links_sum(self@.components) <= usize::MAX,
            link_rows_fit(self@.components),
        ensures
            r@ == numbered(link_ys(self@.components)),
    {
        let ghost cs = self.components@;
        proof {
            lemma_link_ys_len(cs);
        }
        let mut out: Vec<(usize, u16)> = Vec::new();
        let mut i: usize = 0;
        proof {
            assert(out@ =~= numbered(link_ys(cs.take(0))));
        }
        while i < self.components.len()
            invariant
                cs == self.components@,
                link_ys(cs).len() == links_sum(cs) <= usize::MAX,
                link_rows_fit(cs),
                i <= cs.len(),
                out@ == numbered(link_ys(cs.take(i as int))),
            decreases cs.len() - i,
        {
            proof {
                assert(cs.take(i as int + 1).drop_last() =~= cs.take(i as int));
                lemma_link_ys_len(cs.take(i as int + 1));
                lemma_links_sum_mono(cs, i as int + 1, cs.len() as int);
                assert(cs.take(cs.len() as int) =~= cs);
            }
            match &self.components[i] {
                Component::TextComponent(t) => {
                    if !t.is_hidden() {
                        proof {
                            assert(cs[i as int] matches Component::TextComponent(tt) && tt == *t);
                        }
                        push_comp_links(t, &mut out, Ghost(link_ys(cs.take(i as int))));
                    } else {
                        proof {
                            assert(link_ys(cs.take(i as int + 1)) =~= link_ys(cs.take(i as int)));
                        }
                    }
                },
                Component::Image(_) => {
                    proof {
                        assert(link_ys(cs.take(i as int + 1)) =~= link_ys(cs.take(i as int)));
                    }
                },
            }
            i = i + 1;
        }
        proof {
            assert(cs.take(cs.len() as int) =~= cs);
        }
        out
    }


    /// The link ordinal under `caret`, column-aware: the first link of the
    /// visible blocks whose rendered cells contain `caret.col` on `caret.line`,
    /// else the first link on that line, else `None`. Ordinals count the links
    /// of the visible blocks in document order, as `link_index_and_height` does.
    pub fn link_index_at_caret(&self, caret: Caret) -> (r: Option<usize>)
        requires
            caret_scan_fits(self@.components, caret),
            links_sum(self@.components) <= usize::MAX,
        ensures
            r matches Some(k) ==> link_at_caret(self@.components, caret) == Some(k as nat),
            r is None ==> link_at_caret(self@.components, caret) is None,
    {
        link_index_at(&self.components, caret)
    }

    /// `link_index_at_caret`, where the lines and columns of all the visible
    /// blocks fit in `u16`; `None` where they do not.
    pub fn link_index_at_caret_checked(&self, caret: Caret) -> (r: Option<Option<usize>>)
        ensures
            r is None <==> !doc_fits(self@.components, true),
            r matches Some(Some(k)) ==> link_at_caret(self@.components, caret) == Some(k as nat),
            r matches Some(None) ==> link_at_caret(self@.components, caret) is None,
    {
        if doc_fits_check(&self.components, true) {
            let cells = doc_cell_refs(&self.components, true);
            let n = cells.len();
            proof {
                lemma_doc_fits_scan(self@.components, caret);
                assert(cells_of(cells@).len() == cells@.len());
                assert(doc_cells(self@.components, true).len() == n);
            }
            Some(self.link_index_at_caret(caret))
        } else {
            None
        }
    }

    /// For each comment, in order, the rendered ranges that its source span
    /// projects to over every text block: the cells of the words whose source
    /// spans overlap it, adjacent cells on a line merged into one range.
    pub fn project_comments(&self, comments: &[Comment]) -> (r: Vec<ProjectedCommentAnchor>)
        requires
            doc_fits(self@.components, false),
        ensures
            r@.len() == comments@.len(),
            forall|i: int|
                0 <= i < r@.len() ==> (#[trigger] r@[i]).source == comments@[i].source && r@[i].rendered@
                    == projected(doc_cells(self@.components, false), comments@[i].source) && coalesced(
                    r@[i].rendered@,
                ),
    {
        let mut projections: Vec<ProjectedCommentAnchor> = Vec::new();
        let mut i: usize = 0;
        while i < comments.len()
            invariant
                doc_fits(self@.components, false),
                i <= comments@.len(),
                projections@.len() == i,
                forall|k: int|
                    0 <= k < i ==> (#[trigger] projections@[k]).source == comments@[k].source
                        && projections@[k].rendered@ == projected(
                        doc_cells(self@.components, false),
                        comments@[k].source,
                    ) && coalesced(projections@[k].rendered@),
            decreases comments@.len() - i,
        {
            proof {
                assert(self@.components == self.components@);
            }
            let rendered_ranges = project_comment(&self.components, &comments[i]);
            projections.push(ProjectedCommentAnchor { source: comments[i].source, rendered: rendered_ranges });
            i = i + 1;
        }
        projections
    }

    /// `project_comments`, where the lines and columns of the text blocks fit
    /// in `u16`; `None` where they do not.
    pub fn project_comments_checked(&self, comments: &[Comment]) -> (r: Option<Vec<ProjectedCommentAnchor>>)
        ensures
            r is None <==> !doc_fits(self@.components, false),
            r matches Some(v) ==> v@.len() == comments@.len() && forall|i: int|
                0 <= i < v@.len() ==> (#[trigger] v@[i]).source == comments@[i].source && v@[i].rendered@
                    == projected(doc_cells(self@.components, false), comments@[i].source),
    {
        if doc_fits_check(&self.components, false) {
            Some(self.project_comments(comments))
        } else {
            None
        }
    }

    /// The envelope of the source pieces under the selection between `start`
    /// and `end`, taken in document order.
    fn resolve_range_pos(&self, start: Caret, end: Caret) -> (r: (Option<SourcePos>, Option<SourcePos>))
        requires
            selection_fits(self@.components, start, end),
        ensures
            r == resolved(
                doc_cells_in(
                    self@.components,
                    (if start.le(end) { start } else { end }).line as int,
                    (if start.le(end) { end } else { start }).line as int,
                ),
                if start.le(end) { start } else { end },
                if start.le(end) { end } else { start },
            ),
            r.0 is Some <==> r.1 is Some,
            r matches (Some(f), Some(l)) ==> f.byte <= l.byte,
    {
        let (s, e) = normalize_range(start, end);
        resolve_range(&self.components, s, e)
    }

    /// The source span that the selection between carets `start` and `end`
    /// (in either order) covers; `None` when it touches no source-backed word.
    pub fn resolve_selection_to_source(&self, start: Caret, end: Caret) -> (r: Option<SourceSpan>)
        requires
            selection_fits(self@.components, start, end),
        ensures
            r == selection_span(self@.components, start, end),
            r matches Some(sp) ==> sp.start.byte <= sp.end.byte,
    {
        match self.resolve_range_pos(start, end) {
            (Some(s), Some(e)) => Some(SourceSpan::new(s, e)),
            _ => None,
        }
    }

    /// `resolve_selection_to_source`, where the rows that the selection reaches
    /// fit in `u16`; `None` where they do not.
    pub fn resolve_selection_to_source_checked(&self, start: Caret, end: Caret) -> (r: Option<Option<SourceSpan>>)
        ensures
            r is None <==> !selection_fits(self@.components, start, end),
            r matches Some(x) ==> x == selection_span(self@.components, start, end),
    {
        let (s, e) = normalize_range(start, end);
        if doc_fits_in_check(&self.components, s.line, e.line) {
            Some(self.resolve_selection_to_source(start, end))
        } else {
            None
        }
    }

    /// The y offset of the first heading whose slug is `heading` without its
    /// leading `#`, counting the heights of the blocks above it.
    pub fn heading_offset(&self, heading: &str) -> (r: Result<u16, String>)
        requires
            has_heading(self@.components) ==> heading@.len() >= 1 && (heading@[0] as u32) < 0x80,
            match first_heading(self@.components, heading@.drop_first()) {
                Some(k) => heights_sum(self@.components.take(k)) <= u16::MAX,
                None => heights_sum(self@.components) <= u16::MAX,
            },
        ensures
            match first_heading(self@.components, heading@.drop_first()) {
                Some(k) => r == Ok::<u16, String>(heights_sum(self@.components.take(k)) as u16),
                None => r matches Err(e) && e@ == "Heading not found: "@ + heading@,
            },
    {
        let ghost cs = self.components@;
        let all = crate::search::chars_of(heading);
        let mut target: Vec<char> = Vec::new();
        let mut k: usize = 1;
        while k < all.len()
            invariant
                1 <= k,
                all@ == heading@,
                k <= all@.len() || all@.len() == 0,
                all@.len() > 0 ==> target@ == all@.subrange(1, k as int),
                all@.len() == 0 ==> target@.len() == 0,
            decreases all@.len() - k,
        {
            target.push(all[k]);
            proof {
                assert(target@ =~= all@.subrange(1, k as int + 1));
            }
            k = k + 1;
        }
        let ghost t = heading@.drop_first();
        proof {
            if all@.len() > 0 {
                assert(target@ =~= t);
            }
        }
        let mut y: u16 = 0;
        let mut i: usize = 0;
        while i < self.components.len()
            invariant
                cs == self.components@,
                t == heading@.drop_first(),
                has_heading(cs) ==> heading@.len() >= 1,
                heading@.len() >= 1 ==> target@ == t,
                match first_heading(cs, t) {
                    Some(k) => heights_sum(cs.take(k)) <= u16::MAX,
                    None => heights_sum(cs) <= u16::MAX,
                },
                i <= cs.len(),
                first_heading(cs.take(i as int), t) is None,
                y == heights_sum(cs.take(i as int)),
            decreases cs.len() - i,
        {
            proof {
                assert(cs.take(i as int + 1).drop_last() =~= cs.take(i as int));
                lemma_heights_sum_step(cs, i as int);
            }
            let (found, h) = match &self.components[i] {
                Component::TextComponent(comp) => {
                    let is_heading = comp.kind() == TextNode::Heading;
                    let f = if is_heading {
                        proof {
                            assert(cs[i as int].spec_kind() == TextNode::Heading);
                            assert(has_heading(cs));
                        }
                        crate::search::compare_heading(&target, &comp.content)
                    } else {
                        false
                    };
                    (f, comp.height())
                },
                Component::Image(e) => (false, e.height()),
            };
            if found {
                proof {
                    assert(is_heading_for(cs[i as int], t));
                    lemma_first_heading_extend(cs, t, i as int + 1, i as int);
                }
                return Ok(y);
            }
            proof {
                assert(!is_heading_for(cs[i as int], t));
                lemma_first_heading_after(cs, t, i as int + 1);
                if first_heading(cs, t) is Some {
                    lemma_first_heading_some(cs, t);
                    lemma_heights_sum_mono(cs, i as int + 1, first_heading(cs, t)->0);
                } else {
                    lemma_heights_sum_mono(cs, i as int + 1, cs.len() as int);
                    assert(cs.take(cs.len() as int) =~= cs);
                }
            }
            y = y + h;
            i = i + 1;
        }
        proof {
            assert(cs.take(cs.len() as int) =~= cs);
        }
        let mut msg = owned("Heading not found: ");
        msg.append(heading);
        Err(msg)
    }

    /// Puts an empty line break between every two neighboring blocks of which
    /// neither is a line break. The inserted break is owned by the longest
    /// common prefix of its neighbors' owning details ids.
    #[must_use]
    #[verifier::rlimit(60)]
    pub fn add_missing_components(self) -> (r: Self)
        ensures
            r@.file_name == self@.file_name,
            r@.is_focused == self@.is_focused,
            breaks_added(self@.components, r@.components),
    {
        let ghost cs = self.components@;
        let ComponentRoot { file_name, components, is_focused } = self;
        let n = components.len();
        let mut brk: Vec<bool> = Vec::new();
        let mut ids: Vec<Vec<u32>> = Vec::new();
        let mut i: usize = 0;
        while i < n
            invariant
                cs == components@,
                n == cs.len(),
                i <= n,
                brk@.len() == i,
                ids@.len() == i,
                forall|j: int| 0 <= j < i ==> #[trigger] brk@[j] == is_break(cs[j]),
                forall|j: int| 0 <= j < i ==> (#[trigger] ids@[j])@ == owning_ids(cs[j]),
            decreases n - i,
        {
            match &components[i] {
                Component::TextComponent(tc) => {
                    brk.push(tc.kind() == TextNode::LineBreak);
                    ids.push(copy_ids(tc.owning_details_ids()));
                },
                Component::Image(_) => {
                    brk.push(false);
                    ids.push(Vec::new());
                },
            }
            i = i + 1;
        }
        let mut comps = components;
        let mut rev: Vec<Component> = Vec::new();
        while comps.len() > 0
            invariant
                comps@ == cs.take(comps@.len() as int),
                comps@.len() <= cs.len(),
                rev@ == cs.skip(comps@.len() as int).reverse(),
            decreases comps@.len(),
        {
            let c = comps.pop().unwrap();
            rev.push(c);
            proof {
                assert(comps@ =~= cs.take(comps@.len() as int));
                assert(rev@ =~= cs.skip(comps@.len() as int).reverse());
            }
        }
        let mut out: Vec<Component> = Vec::new();
        let mut i: usize = 0;
        proof {
            reveal(placed);
        }
        while i < n
            invariant
                n == cs.len(),
                i <= n,
                brk@.len() == n,
                ids@.len() == n,
                forall|j: int| 0 <= j < n ==> #[trigger] brk@[j] == is_break(cs[j]),
                forall|j: int| 0 <= j < n ==> (#[trigger] ids@[j])@ == owning_ids(cs[j]),
                rev@ == cs.skip(i as int).reverse(),
                placed(cs, out@, i as int),
            decreases n - i,
        {
            proof {
                assert(rev@.len() > 0);
                assert(rev@.last() == cs[i as int]);
            }
            let c = rev.pop().unwrap();
            proof {
                assert(c == cs[i as int]);
                assert(rev@ =~= cs.skip(i as int + 1).reverse());
            }
            let ghost prev = out@;
            out.push(c);
            let nb = i + 1 < n && !brk[i] && !brk[i + 1];
            if nb {
                let shared = common_prefix(&ids[i], &ids[i + 1]);
                let lb = line_break_with(shared);
                out.push(lb);
            }
            proof {
                assert(needs_break(cs, i as int) == nb);
                lemma_placed_step(cs, prev, out@, i as int);
            }
            i = i + 1;
        }
        proof {
            reveal(placed);
        }
        ComponentRoot { file_name, components: out, is_focused }
    }

    /// Lays the blocks out from the top: each block's y offset is the total
    /// height of the blocks above it, and every block gets scroll offset `scroll`.
    pub fn set_scroll(&mut self, scroll: u16)
        requires
            heights_sum(old(self)@.components) <= u16::MAX,
        ensures
            final(self)@.file_name == old(self)@.file_name,
            final(self)@.is_focused == old(self)@.is_focused,
            final(self)@.components.len() == old(self)@.components.len(),
            forall|i: int|
                0 <= i < old(self)@.components.len() ==> #[trigger] final(self)@.components[i]
                    == old(self)@.components[i].at_y(
                    heights_sum(old(self)@.components.take(i)) as u16,
                ).scrolled(scroll),
    {
        let ghost cs = self.components@;
        let mut y: u16 = 0;
        let mut i: usize = 0;
        while i < self.components.len()
            invariant
                cs == old(self).components@,
                self.file_name == old(self).file_name,
                self.is_focused == old(self).is_focused,
                heights_sum(cs) <= u16::MAX,
                self.components@.len() == cs.len(),
                i <= cs.len(),
                y == heights_sum(cs.take(i as int)),
                forall|k: int|
                    0 <= k < cs.len() ==> #[trigger] self.components@[k] == if k < i {
                        cs[k].at_y(heights_sum(cs.take(k)) as u16).scrolled(scroll)
                    } else {
                        cs[k]
                    },
            decreases cs.len() - i,
        {
            proof {
                lemma_heights_sum_step(cs, i as int);
                lemma_heights_sum_mono(cs, i as int + 1, cs.len() as int);
                assert(cs.take(cs.len() as int) =~= cs);
            }
            self.components[i].set_y_offset(y);
            self.components[i].set_scroll_offset(scroll);
            let h = self.components[i].height();
            proof {
                assert(self.components@[i as int].spec_height() == cs[i as int].spec_height());
            }
            y = y + h;
            i = i + 1;
        }
    }
}

} // verus!
