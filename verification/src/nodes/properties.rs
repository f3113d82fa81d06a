//! Properties that tie several operations of the document root together.
use vstd::prelude::*;
use crate::nodes::root::{
    Component, RootView, anchor_is, deselect_of, first_focused, holds_link, links_sum, select_of,
    select_post, selected_is, lemma_links_sum_mono, lemma_first_focused_extend, first_focused_summary,
    folds, hidden_by, is_focused_summary, is_folded_id, recomputed, toggled, with_visibility,
    is_visible_summary, summary_count, summary_ys, y_of, lemma_summary_count_ys, breaks_added,
    breaks_before, is_break, needs_break, is_line_break_with, owning_ids, lcp_len, first_heading,
    heights_sum, is_heading_for,
};
use crate::nodes::textcomponent::{count_links, deselect_rows, flat, lemma_count_links_concat};
use crate::nodes::word::{WordType, WordView, deselect_view, is_link_kind};

verus! {

/// Every selected word of the row remembers a link kind, as selecting a link leaves it.
pub open spec fn row_marks_links(ws: Seq<WordView>) -> bool {
    forall|c: int|
        0 <= c < ws.len() && (#[trigger] ws[c]).kind == WordType::Selected ==> is_link_kind(ws[c].previous)
}

/// Every selected word of every text block remembers a link kind.
pub open spec fn marks_links(cs: Seq<Component>) -> bool {
    forall|k: int|
        0 <= k < cs.len() ==> match #[trigger] cs[k] {
            Component::TextComponent(t) => forall|r: int|
                0 <= r < t.rows().len() ==> row_marks_links(#[trigger] t.rows()[r]),
            Component::Image(_) => true,
        }
}

proof fn lemma_row_deselect_links(ws: Seq<WordView>)
    requires
        row_marks_links(ws),
    ensures
        count_links(ws.map_values(|v: WordView| deselect_view(v))) == count_links(ws),
    decreases ws.len(),
{
    if ws.len() > 0 {
        let f = |v: WordView| deselect_view(v);
        assert(ws.map_values(f).drop_last() =~= ws.drop_last().map_values(f));
        assert(row_marks_links(ws.drop_last())) by {
            assert forall|c: int|
                0 <= c < ws.drop_last().len() && (#[trigger] ws.drop_last()[c]).kind == WordType::Selected implies is_link_kind(
                ws.drop_last()[c].previous,
            ) by {
                assert(ws.drop_last()[c] == ws[c]);
            }
        }
        lemma_row_deselect_links(ws.drop_last());
        assert(ws.last() == ws[ws.len() - 1]);
        assert(ws.map_values(f).last() == deselect_view(ws.last()));
    }
}

proof fn lemma_rows_deselect_links(rows: Seq<Seq<WordView>>)
    requires
        forall|r: int| 0 <= r < rows.len() ==> row_marks_links(#[trigger] rows[r]),
    ensures
        count_links(flat(deselect_rows(rows))) == count_links(flat(rows)),
    decreases rows.len(),
{
    if rows.len() > 0 {
        let f = |v: WordView| deselect_view(v);
        assert(deselect_rows(rows).drop_last() =~= deselect_rows(rows.drop_last()));
        assert forall|r: int| 0 <= r < rows.drop_last().len() implies row_marks_links(
            #[trigger] rows.drop_last()[r],
        ) by {
            assert(rows.drop_last()[r] == rows[r]);
        }
        lemma_rows_deselect_links(rows.drop_last());
        lemma_count_links_concat(flat(deselect_rows(rows.drop_last())), deselect_rows(rows).last());
        lemma_count_links_concat(flat(rows.drop_last()), rows.last());
        assert(rows.last() == rows[rows.len() - 1]);
        lemma_row_deselect_links(rows.last());
        assert(deselect_rows(rows).last() == rows.last().map_values(f));
    }
}

proof fn lemma_links_sum_same(a: Seq<Component>, b: Seq<Component>, x: int)
    requires
        a.len() == b.len(),
        0 <= x <= a.len(),
        forall|i: int| 0 <= i < a.len() ==> (#[trigger] a[i]).spec_links() == b[i].spec_links(),
    ensures
        links_sum(a.take(x)) == links_sum(b.take(x)),
    decreases x,
{
    if x > 0 {
        lemma_links_sum_same(a, b, x - 1);
        assert(a.take(x).drop_last() =~= a.take(x - 1));
        assert(b.take(x).drop_last() =~= b.take(x - 1));
        assert(a.take(x).last() == a[x - 1]);
        assert(b.take(x).last() == b[x - 1]);
    }
}

proof fn lemma_holds_link_unique(cs: Seq<Component>, k1: int, k2: int, index: nat)
    requires
        holds_link(cs, k1, index),
        holds_link(cs, k2, index),
    ensures
        k1 == k2,
{
    if k1 < k2 {
        lemma_links_sum_mono(cs, k1 + 1, k2);
    } else if k2 < k1 {
        lemma_links_sum_mono(cs, k2 + 1, k1);
    }
}

proof fn lemma_first_focused_none(cs: Seq<Component>, j: int)
    requires
        0 <= j <= cs.len(),
        forall|i: int|
            0 <= i < j ==> !(#[trigger] cs[i] matches Component::TextComponent(t) && t.focused),
    ensures
        first_focused(cs.take(j)) is None,
    decreases j,
{
    if j > 0 {
        assert(cs.take(j).drop_last() =~= cs.take(j - 1));
        lemma_first_focused_none(cs, j - 1);
        assert(cs.take(j).last() == cs[j - 1]);
    }
}

proof fn lemma_first_focused_at(cs: Seq<Component>, k: int)
    requires
        0 <= k < cs.len(),
        cs[k] matches Component::TextComponent(t) && t.focused,
        forall|i: int|
            0 <= i < k ==> !(#[trigger] cs[i] matches Component::TextComponent(t) && t.focused),
    ensures
        first_focused(cs) == Some(k),
{
    lemma_first_focused_none(cs, k);
    assert(cs.take(k + 1).drop_last() =~= cs.take(k));
    assert(cs.take(k + 1).last() == cs[k]);
    lemma_first_focused_extend(cs, k + 1, k);
}

/// Selecting link `index` and then asking for the selected link gives what
/// `link_anchor_at(index)` gives on the document before, which changes
/// nothing: both take the same ordinals. (Every selected word remembers a
/// link kind, as selecting a link leaves it.)
pub proof fn select_then_selected_is_anchor(
    v0: RootView,
    v1: RootView,
    index: nat,
    res: Result<u16, String>,
    a: Option<Seq<char>>,
)
    requires
        marks_links(v0.components),
        select_post(v0, v1, index, res),
        anchor_is(v0.components, index, a),
        index < links_sum(v0.components),
    ensures
        res is Ok,
        selected_is(v1.components, a),
{
    let old = v0.components;
    let new = v1.components;
    let mid = choose|mid: Seq<Component>|
        {
            &&& mid.len() == old.len()
            &&& forall|i: int| 0 <= i < mid.len() ==> deselect_of(old[i], #[trigger] mid[i])
            &&& index < links_sum(mid) ==> exists|k: int|
                {
                    &&& holds_link(mid, k, index)
                    &&& res == Ok::<u16, String>(crate::nodes::root::y_of(mid[k]))
                    &&& select_of(mid[k], new[k], (index - links_sum(mid.take(k))) as nat)
                    &&& forall|i: int| 0 <= i < mid.len() && i != k ==> #[trigger] new[i] == mid[i]
                }
            &&& index >= links_sum(mid) ==> {
                &&& res matches Err(e)
                &&& e@ == crate::nodes::root::link_index_error(index, links_sum(mid))
                &&& new == mid
            }
        };
    assert forall|i: int| 0 <= i < old.len() implies (#[trigger] old[i]).spec_links() == mid[i].spec_links() by {
        assert(deselect_of(old[i], mid[i]));
        match old[i] {
            Component::TextComponent(t) => {
                assert(forall|r: int| 0 <= r < t.rows().len() ==> row_marks_links(#[trigger] t.rows()[r]));
                lemma_rows_deselect_links(t.rows());
            },
            Component::Image(_) => {},
        }
    }
    assert forall|x: int| 0 <= x <= old.len() implies links_sum(#[trigger] old.take(x)) == links_sum(mid.take(x)) by {
        lemma_links_sum_same(old, mid, x);
    }
    assert(old.take(old.len() as int) =~= old);
    assert(mid.take(mid.len() as int) =~= mid);
    assert(links_sum(old.take(old.len() as int)) == links_sum(mid.take(mid.len() as int)));
    let k = choose|k: int|
        {
            &&& holds_link(mid, k, index)
            &&& res == Ok::<u16, String>(crate::nodes::root::y_of(mid[k]))
            &&& select_of(mid[k], new[k], (index - links_sum(mid.take(k))) as nat)
            &&& forall|i: int| 0 <= i < mid.len() && i != k ==> #[trigger] new[i] == mid[i]
        };
    assert(links_sum(old.take(k)) == links_sum(mid.take(k)));
    assert(links_sum(old.take(k + 1)) == links_sum(mid.take(k + 1)));
    assert(holds_link(old, k, index));
    let k2 = choose|k2: int|
        {
            &&& holds_link(old, k2, index)
            &&& old[k2] matches Component::TextComponent(t)
            &&& {
                let j = index - links_sum(old.take(k2));
                if j < t.meta_info@.len() {
                    a == Some(t.meta_info@[j].content@)
                } else {
                    a is None
                }
            }
        };
    lemma_holds_link_unique(old, k, k2, index);
    assert forall|i: int| 0 <= i < k implies !(#[trigger] new[i] matches Component::TextComponent(t) && t.focused) by {
        assert(new[i] == mid[i]);
        assert(deselect_of(old[i], mid[i]));
    }
    lemma_first_focused_at(new, k);
    assert(deselect_of(old[k], mid[k]));
}

/// What `toggle_selected_details` does to the blocks: flips the fold flag of the
/// first focused details summary and works out the visibility again; no
/// change when no summary is focused.
pub open spec fn details_toggled(cs: Seq<Component>) -> Seq<Component> {
    match first_focused_summary(cs) {
        Some(k) => recomputed(cs.update(k, toggled(cs[k]))),
        None => cs,
    }
}

proof fn lemma_first_focused_summary_same(a: Seq<Component>, b: Seq<Component>)
    requires
        a.len() == b.len(),
        forall|i: int| 0 <= i < a.len() ==> is_focused_summary(#[trigger] a[i]) == is_focused_summary(b[i]),
    ensures
        first_focused_summary(a) == first_focused_summary(b),
    decreases a.len(),
{
    if a.len() > 0 {
        assert forall|i: int| 0 <= i < a.drop_last().len() implies is_focused_summary(
            #[trigger] a.drop_last()[i],
        ) == is_focused_summary(b.drop_last()[i]) by {
            assert(a.drop_last()[i] == a[i]);
            assert(b.drop_last()[i] == b[i]);
        }
        lemma_first_focused_summary_same(a.drop_last(), b.drop_last());
        assert(a.last() == a[a.len() - 1]);
        assert(b.last() == b[b.len() - 1]);
    }
}

proof fn lemma_visibility_same(a: Seq<Component>, b: Seq<Component>, c: Component)
    requires
        a.len() == b.len(),
        forall|i: int, id: u32| 0 <= i < a.len() ==> #[trigger] folds(a[i], id) == folds(b[i], id),
    ensures
        with_visibility(a, c) == with_visibility(b, c),
{
    assert forall|id: u32| is_folded_id(a, id) == is_folded_id(b, id) by {
        if is_folded_id(a, id) {
            let k = choose|k: int| 0 <= k < a.len() && folds(#[trigger] a[k], id);
            assert(folds(b[k], id));
        }
        if is_folded_id(b, id) {
            let k = choose|k: int| 0 <= k < b.len() && folds(#[trigger] b[k], id);
            assert(folds(a[k], id));
        }
    }
    match c {
        Component::TextComponent(t) => {
            let ids = t.owning_details_ids@;
            if hidden_by(a, ids) {
                let j = choose|j: int| 0 <= j < ids.len() && is_folded_id(a, #[trigger] ids[j]);
                assert(is_folded_id(b, ids[j]));
            }
            if hidden_by(b, ids) {
                let j = choose|j: int| 0 <= j < ids.len() && is_folded_id(b, #[trigger] ids[j]);
                assert(is_folded_id(a, ids[j]));
            }
        },
        Component::Image(_) => {},
    }
}

/// Toggling the focused details summary twice gives the document back, when
/// its visibility was up to date: the second toggle undoes the first, and the
/// same summary stays focused in between.
pub proof fn toggle_twice_restores(cs: Seq<Component>)
    requires
        cs == recomputed(cs),
        first_focused_summary(cs) is Some,
    ensures
        first_focused_summary(details_toggled(cs)) == first_focused_summary(cs),
        details_toggled(details_toggled(cs)) == cs,
{
    let k = first_focused_summary(cs)->0;
    lemma_first_focused_summary_bound(cs);
    let x = cs.update(k, toggled(cs[k]));
    let cs1 = recomputed(x);
    assert(cs1 == details_toggled(cs));
    assert forall|i: int| 0 <= i < cs.len() implies is_focused_summary(#[trigger] cs1[i]) == is_focused_summary(cs[i]) by {
        assert(cs1[i] == with_visibility(x, x[i]));
    }
    lemma_first_focused_summary_same(cs1, cs);
    let y = cs1.update(k, toggled(cs1[k]));
    assert(details_toggled(cs1) == recomputed(y));
    assert forall|i: int, id: u32| 0 <= i < y.len() implies #[trigger] folds(y[i], id) == folds(cs[i], id) by {
        if i == k {
            assert(cs1[k] == with_visibility(x, x[k]));
        } else {
            assert(y[i] == with_visibility(x, x[i]));
            assert(x[i] == cs[i]);
        }
    }
    assert forall|i: int| 0 <= i < cs.len() implies #[trigger] recomputed(y)[i] == cs[i] by {
        lemma_visibility_same(y, cs, y[i]);
        assert(cs[i] == with_visibility(cs, cs[i]));
        if i == k {
            assert(cs1[k] == with_visibility(x, x[k]));
        } else {
            assert(y[i] == with_visibility(x, x[i]));
            assert(x[i] == cs[i]);
        }
    }
    assert(recomputed(y) =~= cs);
}

proof fn lemma_first_focused_summary_bound(cs: Seq<Component>)
    requires
        first_focused_summary(cs) is Some,
    ensures
        0 <= first_focused_summary(cs)->0 < cs.len(),
        is_focused_summary(cs[first_focused_summary(cs)->0]),
    decreases cs.len(),
{
    if first_focused_summary(cs.drop_last()) is Some {
        lemma_first_focused_summary_bound(cs.drop_last());
    }
}

/// `num_details` counts the entries of `details_index_and_height`, and the
/// visible summary that `select_details(i)` focuses (the one with `i` visible
/// summaries before it) is listed there at `i`, with the y offset that
/// `select_details` returns.
pub proof fn details_listing_matches(cs: Seq<Component>, k: int)
    requires
        0 <= k < cs.len(),
        is_visible_summary(cs[k]),
    ensures
        summary_ys(cs).len() == summary_count(cs),
        summary_count(cs.take(k)) < summary_count(cs),
        summary_ys(cs)[summary_count(cs.take(k)) as int] == y_of(cs[k]),
    decreases cs.len(),
{
    lemma_summary_count_ys(cs);
    let d = cs.drop_last();
    lemma_summary_count_ys(d);
    if k == cs.len() - 1 {
        assert(cs.take(k) =~= d);
    } else {
        assert(d.take(k) =~= cs.take(k));
        assert(d[k] == cs[k]);
        details_listing_matches(d, k);
    }
}

proof fn lemma_locate(cs: Seq<Component>, p: int, j: int) -> (k: int)
    requires
        0 <= j < cs.len(),
        j + breaks_before(cs, j) <= p < cs.len() + breaks_before(cs, cs.len() as int),
    ensures
        j <= k < cs.len(),
        p == k + breaks_before(cs, k) || (needs_break(cs, k) && p == k + breaks_before(cs, k) + 1),
    decreases cs.len() - j,
{
    if p == j + breaks_before(cs, j) || (needs_break(cs, j) && p == j + breaks_before(cs, j) + 1) {
        j
    } else {
        assert(breaks_before(cs, j + 1) == breaks_before(cs, j) + if needs_break(cs, j) { 1nat } else { 0nat });
        if j + 1 == cs.len() {
            assert(!needs_break(cs, j));
            assert(false);
        }
        lemma_locate(cs, p, j + 1)
    }
}

/// After `add_missing_components`, of any two neighbouring blocks at least
/// one is a line break.
pub proof fn no_neighbours_without_break(cs: Seq<Component>, out: Seq<Component>, p: int)
    requires
        breaks_added(cs, out),
        0 <= p,
        p + 1 < out.len(),
    ensures
        is_break(out[p]) || is_break(out[p + 1]),
{
    let k = lemma_locate(cs, p, 0);
    let f = k + breaks_before(cs, k);
    assert(out[f] == cs[k]);
    if needs_break(cs, k) {
        let ids = owning_ids(cs[k]).take(lcp_len(owning_ids(cs[k]), owning_ids(cs[k + 1])) as int);
        assert(is_line_break_with(out[f + 1], ids));
    } else {
        assert(breaks_before(cs, k + 1) == breaks_before(cs, k));
        if k + 1 < cs.len() {
            assert(out[k + 1 + breaks_before(cs, k + 1)] == cs[k + 1]);
        } else {
            assert(breaks_before(cs, cs.len() as int) == breaks_before(cs, k));
        }
    }
}

proof fn lemma_lcp_prefix(a: Seq<u32>, b: Seq<u32>)
    ensures
        lcp_len(a, b) <= a.len(),
        lcp_len(a, b) <= b.len(),
        forall|j: int| 0 <= j < lcp_len(a, b) ==> a[j] == b[j],
    decreases a.len(),
{
    if !(a.len() == 0 || b.len() == 0 || a[0] != b[0]) {
        lemma_lcp_prefix(a.drop_first(), b.drop_first());
        assert forall|j: int| 0 <= j < lcp_len(a, b) implies a[j] == b[j] by {
            if j > 0 {
                assert(a[j] == a.drop_first()[j - 1]);
                assert(b[j] == b.drop_first()[j - 1]);
            }
        }
    }
}

/// A line break that `add_missing_components` puts between two blocks is
/// hidden by folded details (of any document `doc`) only where both of those
/// blocks are: it is owned by the details ids that the two share.
pub proof fn inserted_break_hidden_only_between_hidden(
    cs: Seq<Component>,
    out: Seq<Component>,
    doc: Seq<Component>,
    j: int,
)
    requires
        breaks_added(cs, out),
        needs_break(cs, j),
    ensures
        hidden_by(doc, owning_ids(out[j + breaks_before(cs, j) + 1])) ==> hidden_by(doc, owning_ids(cs[j]))
            && hidden_by(doc, owning_ids(cs[j + 1])),
{
    let a = owning_ids(cs[j]);
    let b = owning_ids(cs[j + 1]);
    let ids = a.take(lcp_len(a, b) as int);
    lemma_lcp_prefix(a, b);
    assert(is_line_break_with(out[j + breaks_before(cs, j) + 1], ids));
    assert(owning_ids(out[j + breaks_before(cs, j) + 1]) == ids);
    if hidden_by(doc, ids) {
        let i = choose|i: int| 0 <= i < ids.len() && is_folded_id(doc, #[trigger] ids[i]);
        assert(a[i] == ids[i]);
        assert(b[i] == a[i]);
        assert(is_folded_id(doc, a[i]));
        assert(is_folded_id(doc, b[i]));
    }
}

proof fn lemma_first_heading_same(a: Seq<Component>, b: Seq<Component>, target: Seq<char>)
    requires
        a.len() == b.len(),
        forall|i: int| 0 <= i < a.len() ==> is_heading_for(#[trigger] a[i], target) == is_heading_for(b[i], target),
    ensures
        first_heading(a, target) == first_heading(b, target),
    decreases a.len(),
{
    if a.len() > 0 {
        assert forall|i: int| 0 <= i < a.drop_last().len() implies is_heading_for(
            #[trigger] a.drop_last()[i],
            target,
        ) == is_heading_for(b.drop_last()[i], target) by {
            assert(a.drop_last()[i] == a[i]);
            assert(b.drop_last()[i] == b[i]);
        }
        lemma_first_heading_same(a.drop_last(), b.drop_last(), target);
        assert(a.last() == a[a.len() - 1]);
        assert(b.last() == b[b.len() - 1]);
    }
}

proof fn lemma_heights_sum_same(a: Seq<Component>, b: Seq<Component>, x: int)
    requires
        a.len() == b.len(),
        0 <= x <= a.len(),
        forall|i: int| 0 <= i < a.len() ==> (#[trigger] a[i]).spec_height() == b[i].spec_height(),
    ensures
        heights_sum(a.take(x)) == heights_sum(b.take(x)),
    decreases x,
{
    if x > 0 {
        lemma_heights_sum_same(a, b, x - 1);
        assert(a.take(x).drop_last() =~= a.take(x - 1));
        assert(b.take(x).drop_last() =~= b.take(x - 1));
        assert(a.take(x).last() == a[x - 1]);
        assert(b.take(x).last() == b[x - 1]);
    }
}

/// After `set_scroll`, the offset that `heading_offset` gives for a heading is
/// the y offset that `set_scroll` gave the heading's block: laying out does
/// not move which heading is found, nor the heights above it.
pub proof fn heading_offset_is_laid_out_y(cs: Seq<Component>, new: Seq<Component>, scroll: u16, target: Seq<char>)
    requires
        heights_sum(cs) <= u16::MAX,
        new.len() == cs.len(),
        forall|i: int|
            0 <= i < cs.len() ==> #[trigger] new[i] == cs[i].at_y(heights_sum(cs.take(i)) as u16).scrolled(scroll),
        first_heading(cs, target) is Some,
    ensures
        first_heading(new, target) == first_heading(cs, target),
        ({
            let k = first_heading(cs, target)->0;
            &&& 0 <= k < new.len()
            &&& heights_sum(new.take(k)) == heights_sum(cs.take(k))
            &&& y_of(new[k]) == heights_sum(new.take(k)) as u16
        }),
{
    assert forall|i: int| 0 <= i < cs.len() implies is_heading_for(#[trigger] new[i], target) == is_heading_for(cs[i], target) by {
        assert(new[i] == cs[i].at_y(heights_sum(cs.take(i)) as u16).scrolled(scroll));
    }
    lemma_first_heading_same(new, cs, target);
    crate::nodes::root::lemma_first_heading_some(cs, target);
    let k = first_heading(cs, target)->0;
    assert forall|i: int| 0 <= i < cs.len() implies (#[trigger] new[i]).spec_height() == cs[i].spec_height() by {
        assert(new[i] == cs[i].at_y(heights_sum(cs.take(i)) as u16).scrolled(scroll));
    }
    lemma_heights_sum_same(new, cs, k);
    assert(new[k] == cs[k].at_y(heights_sum(cs.take(k)) as u16).scrolled(scroll));
}

/// A details summary counts for `num_details`, and is listed by
/// `details_index_and_height` (and so can be focused by `select_details`),
/// exactly when it is a text block of summary kind that is not hidden: a
/// hidden summary adds neither to the count nor to the list, a visible one
/// adds one to the count and its y offset to the list.
pub proof fn only_visible_summaries_count(cs: Seq<Component>, k: int)
    requires
        0 <= k < cs.len(),
    ensures
        is_visible_summary(cs[k]) <==> (cs[k] matches Component::TextComponent(t) && !t.hidden
            && t.kind is DetailsSummary),
        (cs[k] matches Component::TextComponent(t) && !t.hidden && t.kind is DetailsSummary) ==> {
            &&& summary_count(cs.take(k + 1)) == summary_count(cs.take(k)) + 1
            &&& summary_ys(cs.take(k + 1)) == summary_ys(cs.take(k)).push(y_of(cs[k]))
        },
        !(cs[k] matches Component::TextComponent(t) && !t.hidden && t.kind is DetailsSummary) ==> {
            &&& summary_count(cs.take(k + 1)) == summary_count(cs.take(k))
            &&& summary_ys(cs.take(k + 1)) == summary_ys(cs.take(k))
        },
{
    assert(cs.take(k + 1).drop_last() =~= cs.take(k));
    assert(cs.take(k + 1).last() == cs[k]);
    assert(summary_ys(cs.take(k)) + seq![y_of(cs[k])] =~= summary_ys(cs.take(k)).push(y_of(cs[k])));
    assert(summary_ys(cs.take(k)) + Seq::<u16>::empty() =~= summary_ys(cs.take(k)));
}

/// After `recompute_visibility`, a text block is hidden exactly when one of
/// its owning details ids, at any depth of nesting, is the id of a folded
/// details summary of the document; other fields and images stay as they were.
pub proof fn hidden_iff_some_owner_folded(cs: Seq<Component>, k: int)
    requires
        0 <= k < cs.len(),
    ensures
        cs[k] matches Component::TextComponent(t) ==> recomputed(cs)[k] matches Component::TextComponent(u) && {
            &&& u == (crate::nodes::textcomponent::TextComponent { hidden: u.hidden, ..t })
            &&& u.hidden <==> exists|j: int, m: int|
                0 <= j < t.owning_details_ids@.len() && 0 <= m < cs.len() && #[trigger] cs[m] == Component::TextComponent(
                    cs[m]->TextComponent_0,
                ) && cs[m]->TextComponent_0.kind == (crate::nodes::textcomponent::TextNode::DetailsSummary {
                    id: #[trigger] t.owning_details_ids@[j],
                    folded: true,
                })
        },
        cs[k] matches Component::Image(_) ==> recomputed(cs)[k] == cs[k],
{
    match cs[k] {
        Component::TextComponent(t) => {
            let ids = t.owning_details_ids@;
            let raw = exists|j: int, m: int|
                0 <= j < ids.len() && 0 <= m < cs.len() && #[trigger] cs[m] == Component::TextComponent(
                    cs[m]->TextComponent_0,
                ) && cs[m]->TextComponent_0.kind == (crate::nodes::textcomponent::TextNode::DetailsSummary {
                    id: #[trigger] ids[j],
                    folded: true,
                });
            if hidden_by(cs, ids) {
                let j = choose|j: int| 0 <= j < ids.len() && is_folded_id(cs, #[trigger] ids[j]);
                let m = choose|m: int| 0 <= m < cs.len() && folds(#[trigger] cs[m], ids[j]);
                assert(cs[m] == Component::TextComponent(cs[m]->TextComponent_0));
                assert(raw);
            }
            if raw {
                let (j, m) = choose|j: int, m: int|
                    0 <= j < ids.len() && 0 <= m < cs.len() && #[trigger] cs[m] == Component::TextComponent(
                        cs[m]->TextComponent_0,
                    ) && cs[m]->TextComponent_0.kind == (crate::nodes::textcomponent::TextNode::DetailsSummary {
                        id: #[trigger] ids[j],
                        folded: true,
                    });
                assert(folds(cs[m], ids[j]));
                assert(is_folded_id(cs, ids[j]));
                assert(hidden_by(cs, ids));
            }
        },
        Component::Image(_) => {},
    }
}

} // verus!
