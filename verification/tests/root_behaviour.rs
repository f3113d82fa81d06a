use md_tui::comments::Comment;
use md_tui::metrics::{byte_offset_at_width, display_width};
use md_tui::nodes::image::ImageComponent;
use md_tui::nodes::root::{Component, ComponentProps, ComponentRoot};
use md_tui::nodes::textcomponent::{TextComponent, TextNode};
use md_tui::nodes::word::{Word, WordType};
use md_tui::parser::{SourcePos, SourceSpan};
use md_tui::util::Caret;

fn text(kind: TextNode, words: &[(&str, WordType)]) -> TextComponent {
    TextComponent::new(
        kind,
        words
            .iter()
            .map(|(s, k)| Word::new((*s).to_owned(), *k))
            .collect(),
    )
}

fn linked_paragraph(anchors: &[&str]) -> TextComponent {
    let mut words = Vec::new();
    for (i, _) in anchors.iter().enumerate() {
        if i > 0 {
            words.push(Word::new(" ".to_owned(), WordType::Normal));
        }
        words.push(Word::new(format!("[{i}]"), WordType::Link));
    }
    let mut comp = TextComponent::new(TextNode::Paragraph, words);
    comp.set_meta_info(
        anchors
            .iter()
            .map(|a| Word::new((*a).to_owned(), WordType::LinkData))
            .collect(),
    );
    comp
}

fn summary(id: u32, folded: bool, owners: Vec<u32>) -> TextComponent {
    let mut comp = text(TextNode::DetailsSummary { id, folded }, &[("Details", WordType::Normal)]);
    comp.set_owning_details_ids(owners);
    comp
}

fn body(owners: Vec<u32>) -> TextComponent {
    let mut comp = text(TextNode::Paragraph, &[("body", WordType::Normal)]);
    comp.set_owning_details_ids(owners);
    comp
}

fn span(start: usize, end: usize) -> SourceSpan {
    SourceSpan {
        start: SourcePos { byte: start, line: 1, column: start + 1 },
        end: SourcePos { byte: end, line: 1, column: end + 1 },
    }
}

fn sourced(start: usize, content: &str) -> Word {
    Word::new_source(content.to_owned(), WordType::Normal, span(start, start + content.len()))
}

#[test]
fn heights_and_scroll_stack_the_blocks() {
    let mut root = ComponentRoot::new(
        Some("doc.md".to_owned()),
        vec![
            Component::TextComponent(text(TextNode::Paragraph, &[("a", WordType::Normal)])),
            Component::Image(ImageComponent::new(4)),
            Component::TextComponent(TextComponent::new_formatted(
                TextNode::Paragraph,
                vec![vec![Word::new("b".to_owned(), WordType::Normal)], vec![]],
            )),
        ],
    );
    assert_eq!(root.height(), 7);
    root.set_scroll(3);
    let ys: Vec<u16> = root
        .children()
        .iter()
        .map(|c| match c {
            Component::TextComponent(t) => t.y_offset(),
            Component::Image(_) => 99,
        })
        .collect();
    assert_eq!(ys, vec![0, 99, 5]);
    assert_eq!(root.file_name(), Some("doc.md"));
    root.clear();
    assert_eq!(root.file_name(), None);
    assert_eq!(root.children().len(), 0);
}

#[test]
fn select_then_selected_matches_link_anchor_at() {
    let mut root = ComponentRoot::new(
        None,
        vec![
            Component::TextComponent(linked_paragraph(&["https://a", "https://b"])),
            Component::TextComponent(linked_paragraph(&["#c"])),
        ],
    );
    assert_eq!(root.num_links(), 3);
    for i in 0..3 {
        let anchor = root.link_anchor_at(i).map(str::to_owned);
        assert!(root.select(i).is_ok());
        assert_eq!(root.selected().map(str::to_owned), anchor);
        assert_eq!(root.selected_underlying_type(), Some(WordType::Link));
    }
    assert_eq!(root.link_anchor_at(2), Some("#c"));
    assert_eq!(root.link_anchor_at(3), None);
}

#[test]
fn select_past_the_last_link_is_an_error() {
    let mut root = ComponentRoot::new(
        None,
        vec![Component::TextComponent(linked_paragraph(&["x", "y"]))],
    );
    assert_eq!(root.select(5), Err("Index out of bounds: 5 >= 2".to_owned()));
    assert_eq!(root.selected(), None);
    root.deselect();
    assert_eq!(root.selected(), None);
}

#[test]
fn caret_link_is_listed_on_the_caret_line() {
    let mut second = linked_paragraph(&["u", "v"]);
    second.set_y_offset(1);
    let mut first = linked_paragraph(&["t"]);
    first.set_y_offset(0);
    let root = ComponentRoot::new(
        None,
        vec![Component::TextComponent(first), Component::TextComponent(second)],
    );
    let listed = root.link_index_and_height();
    assert_eq!(listed, vec![(0, 0), (1, 1), (2, 1)]);
    let k = root.link_index_at_caret(Caret { line: 1, col: 5 }).unwrap();
    assert_eq!(k, 2);
    assert_eq!(listed[k], (k, 1));
    assert_eq!(root.link_index_at_caret_checked(Caret { line: 1, col: 0 }), Some(Some(1)));
}

#[test]
fn checked_variants_refuse_rows_wider_than_u16() {
    let wide = "a".repeat(40_000);
    let root = ComponentRoot::new(
        None,
        vec![Component::TextComponent(text(
            TextNode::Paragraph,
            &[(wide.as_str(), WordType::Link), (wide.as_str(), WordType::Link)],
        ))],
    );
    assert_eq!(root.link_index_at_caret_checked(Caret { line: 0, col: 0 }), None);
    assert!(root.resolve_selection_to_source_checked(Caret { line: 0, col: 0 }, Caret { line: 0, col: 1 }).is_none());
    assert!(root.project_comments_checked(&[]).is_none());
}

#[test]
fn hidden_blocks_offer_no_links_or_rows() {
    let mut hidden = linked_paragraph(&["h"]);
    hidden.set_owning_details_ids(vec![7]);
    let mut root = ComponentRoot::new(
        None,
        vec![
            Component::TextComponent(summary(7, true, vec![])),
            Component::TextComponent(hidden),
        ],
    );
    root.recompute_visibility();
    assert!(root.components()[1].is_hidden());
    assert_eq!(root.num_links(), 0);
    assert_eq!(root.height(), 1);
    assert!(root.link_index_and_height().is_empty());
}

#[test]
fn details_listing_matches_count_and_selection() {
    let mut root = ComponentRoot::new(
        None,
        vec![
            Component::TextComponent(summary(1, false, vec![])),
            Component::TextComponent(body(vec![1])),
            Component::TextComponent(summary(2, false, vec![])),
        ],
    );
    root.set_scroll(0);
    let listed = root.details_index_and_height();
    assert_eq!(root.num_details(), listed.len());
    assert_eq!(listed, vec![(0, 0), (1, 2)]);
    assert_eq!(root.select_details(1), Ok(listed[1].1));
    assert_eq!(root.select_details(2), Err("Details index out of bounds: 2 >= 2".to_owned()));
}

#[test]
fn toggling_a_summary_twice_restores_the_document() {
    let mut root = ComponentRoot::new(
        None,
        vec![
            Component::TextComponent(summary(1, false, vec![])),
            Component::TextComponent(body(vec![1])),
        ],
    );
    root.recompute_visibility();
    assert_eq!(root.toggle_selected_details(), Err("No details summary is focused".to_owned()));
    root.select_details(0).unwrap();
    root.toggle_selected_details().unwrap();
    assert!(root.components()[1].is_hidden());
    assert_eq!(root.components()[0].kind(), TextNode::DetailsSummary { id: 1, folded: true });
    root.toggle_selected_details().unwrap();
    assert!(!root.components()[1].is_hidden());
    assert_eq!(root.components()[0].kind(), TextNode::DetailsSummary { id: 1, folded: false });
    root.deselect_details();
    assert!(!root.components()[0].is_focused());
}

#[test]
fn missing_line_breaks_are_added_between_blocks() {
    let root = ComponentRoot::new(
        None,
        vec![
            Component::TextComponent(body(vec![4, 5])),
            Component::TextComponent(body(vec![4, 6])),
            Component::TextComponent(text(TextNode::LineBreak, &[])),
            Component::TextComponent(body(vec![])),
        ],
    )
    .add_missing_components();
    let kinds: Vec<TextNode> = root.children().iter().map(|c| c.kind()).collect();
    assert_eq!(
        kinds,
        vec![TextNode::Paragraph, TextNode::LineBreak, TextNode::Paragraph, TextNode::LineBreak, TextNode::Paragraph]
    );
    assert_eq!(root.components()[1].owning_details_ids(), &vec![4]);
    for pair in kinds.windows(2) {
        assert!(pair[0] == TextNode::LineBreak || pair[1] == TextNode::LineBreak);
    }
}

#[test]
fn inserted_break_is_hidden_only_inside_a_shared_folded_block() {
    let mut root = ComponentRoot::new(
        None,
        vec![
            Component::TextComponent(summary(4, true, vec![])),
            Component::TextComponent(text(TextNode::LineBreak, &[])),
            Component::TextComponent(body(vec![4])),
            Component::TextComponent(body(vec![4])),
            Component::TextComponent(body(vec![])),
        ],
    )
    .add_missing_components();
    root.recompute_visibility();
    let hidden: Vec<bool> = root.components().iter().map(|c| c.is_hidden()).collect();
    assert_eq!(hidden, vec![false, false, true, true, true, false, false]);
}

#[test]
fn search_marks_hits_and_reports_their_rows() {
    let mut comp = TextComponent::new_formatted(
        TextNode::Paragraph,
        vec![
            vec![Word::new("alpha".to_owned(), WordType::Normal)],
            vec![Word::new("beta".to_owned(), WordType::Bold)],
        ],
    );
    comp.set_y_offset(10);
    let mut root = ComponentRoot::new(None, vec![Component::TextComponent(comp)]);
    root.find_and_mark("et");
    let kinds: Vec<WordType> = root.words().iter().map(|w| w.kind()).collect();
    assert_eq!(kinds, vec![WordType::Normal, WordType::Selected]);
    assert_eq!(root.words()[1].previous_type(), WordType::Bold);
    assert_eq!(root.search_results_heights(), vec![11]);
    assert_eq!(root.content(), vec!["alpha".to_owned(), "beta".to_owned()]);
}

#[test]
fn footnotes_and_headings_are_found() {
    let mut foot = text(
        TextNode::Footnote,
        &[("see ", WordType::Footnote), ("x", WordType::Normal), ("here", WordType::Footnote)],
    );
    foot.set_meta_info(vec![Word::new("1".to_owned(), WordType::FootnoteData)]);
    let root = ComponentRoot::new(
        None,
        vec![
            Component::TextComponent(text(TextNode::Paragraph, &[("intro", WordType::Normal)])),
            Component::Image(ImageComponent::new(3)),
            Component::TextComponent(text(TextNode::Heading, &[("My Title", WordType::Normal)])),
            Component::TextComponent(foot),
        ],
    );
    assert_eq!(root.find_footnote("1"), "see here");
    assert_eq!(root.find_footnote("2"), "Footnote not found");
    assert_eq!(root.heading_offset("#my-title"), Ok(4));
    assert_eq!(root.heading_offset("#nope"), Err("Heading not found: #nope".to_owned()));
}

#[test]
fn projected_ranges_are_coalesced_per_line() {
    let root = ComponentRoot::new(
        None,
        vec![Component::TextComponent(TextComponent::new_formatted(
            TextNode::Paragraph,
            vec![
                vec![sourced(0, "ab"), sourced(2, "cd"), Word::new("-".to_owned(), WordType::Normal), sourced(4, "ef")],
                vec![sourced(7, "gh")],
            ],
        ))],
    );
    let comments = vec![
        Comment { source: span(1, 8), text: "c".to_owned(), selected_text: None },
        Comment { source: span(50, 60), text: "d".to_owned(), selected_text: None },
    ];
    let projections = root.project_comments(&comments);
    assert_eq!(projections.len(), 2);
    assert_eq!(projections[0].source, span(1, 8));
    let ranges = &projections[0].rendered;
    assert_eq!(ranges.len(), 3);
    assert_eq!((ranges[0].start, ranges[0].end), (Caret { line: 0, col: 0 }, Caret { line: 0, col: 4 }));
    assert_eq!((ranges[1].start, ranges[1].end), (Caret { line: 0, col: 5 }, Caret { line: 0, col: 7 }));
    assert_eq!((ranges[2].start, ranges[2].end), (Caret { line: 1, col: 0 }, Caret { line: 1, col: 2 }));
    for pair in ranges.windows(2) {
        assert_ne!(pair[0].end, pair[1].start);
    }
    assert!(projections[1].rendered.is_empty());
}

#[test]
fn resolve_selection_accepts_carets_in_either_order() {
    let root = ComponentRoot::new(
        None,
        vec![Component::TextComponent(TextComponent::new(
            TextNode::Paragraph,
            vec![sourced(0, "Hello"), sourced(5, " "), sourced(6, "World")],
        ))],
    );
    let forward = root.resolve_selection_to_source(Caret { line: 0, col: 2 }, Caret { line: 0, col: 9 });
    let backward = root.resolve_selection_to_source(Caret { line: 0, col: 9 }, Caret { line: 0, col: 2 });
    assert_eq!(forward, backward);
    let sp = forward.unwrap();
    assert!(sp.start.byte <= sp.end.byte);
    assert_eq!((sp.start.column, sp.end.column), (3, 10));
    // An empty selection touches the word whose columns reach the caret.
    let caret = root.resolve_selection_to_source(Caret { line: 0, col: 5 }, Caret { line: 0, col: 5 });
    assert_eq!(caret.map(|s| (s.start.byte, s.end.byte)), Some((5, 5)));
}

#[test]
fn display_metrics_follow_unicode_widths() {
    assert_eq!(display_width("中文"), 4);
    assert_eq!(display_width("café"), 4);
    assert_eq!(display_width("a\u{7}b"), 2);
    assert_eq!(byte_offset_at_width("中文", 3), 3);
    assert_eq!(byte_offset_at_width("中文", 4), 6);
    assert_eq!(byte_offset_at_width("abc", 0), 0);
}

#[test]
fn components_mut_reaches_the_text_blocks() {
    let mut root = ComponentRoot::new(
        None,
        vec![
            Component::Image(ImageComponent::new(2)),
            Component::TextComponent(text(TextNode::Paragraph, &[("a", WordType::Normal)])),
        ],
    );
    root.components_mut(0).unwrap().set_hidden(true);
    assert!(root.components()[0].is_hidden());
    assert!(root.components_mut(1).is_none());
    let from: Component = text(TextNode::Quote, &[]).into();
    assert_eq!(from.kind(), TextNode::Quote);
    assert_eq!(root.children_mut().len(), 2);
}

#[test]
fn heading_offset_is_the_laid_out_y_of_the_heading() {
    let mut root = ComponentRoot::new(
        None,
        vec![
            Component::TextComponent(TextComponent::new_formatted(
                TextNode::Paragraph,
                vec![vec![Word::new("a".to_owned(), WordType::Normal)], vec![], vec![]],
            )),
            Component::Image(ImageComponent::new(2)),
            Component::TextComponent(text(TextNode::Heading, &[("Next Part", WordType::Normal)])),
        ],
    );
    root.set_scroll(1);
    let y = root.components()[1].y_offset();
    assert_eq!(y, 5);
    assert_eq!(root.heading_offset("#next-part"), Ok(y));
}

#[test]
fn word_widths_are_cut_to_sixteen_bits_on_a_row() {
    // A word 70000 columns wide moves the next word along by 70000 - 65536.
    let wide = "a".repeat(70_000);
    let root = ComponentRoot::new(
        None,
        vec![Component::TextComponent(text(
            TextNode::Paragraph,
            &[(wide.as_str(), WordType::Link), ("[b]", WordType::Link)],
        ))],
    );
    assert_eq!(root.link_index_at_caret_checked(Caret { line: 0, col: 4465 }), Some(Some(1)));
    assert_eq!(root.link_index_at_caret(Caret { line: 0, col: 4463 }), Some(0));
}

#[test]
fn caret_search_stops_before_rows_it_never_reaches() {
    // The second row's words add up past the u16 columns, but the link under
    // the caret comes first, so the search never sums them.
    let wide = "a".repeat(40_000);
    let comp = TextComponent::new_formatted(
        TextNode::Paragraph,
        vec![
            vec![Word::new("[a]".to_owned(), WordType::Link)],
            vec![
                Word::new(wide.clone(), WordType::Normal),
                Word::new(wide.clone(), WordType::Normal),
            ],
        ],
    );
    let root = ComponentRoot::new(None, vec![Component::TextComponent(comp)]);
    assert_eq!(root.link_index_at_caret(Caret { line: 0, col: 1 }), Some(0));
    assert_eq!(root.link_index_at_caret_checked(Caret { line: 0, col: 1 }), None);
}

#[test]
fn selection_sums_columns_only_on_its_lines() {
    let wide = "a".repeat(40_000);
    let comp = TextComponent::new_formatted(
        TextNode::Paragraph,
        vec![
            vec![sourced(0, "Hello")],
            vec![
                Word::new(wide.clone(), WordType::Normal),
                Word::new(wide.clone(), WordType::Normal),
            ],
        ],
    );
    let root = ComponentRoot::new(None, vec![Component::TextComponent(comp)]);
    let sp = root.resolve_selection_to_source(Caret { line: 0, col: 1 }, Caret { line: 0, col: 4 });
    assert_eq!(sp.map(|s| (s.start.byte, s.end.byte)), Some((1, 4)));
    assert_eq!(
        root.resolve_selection_to_source_checked(Caret { line: 0, col: 1 }, Caret { line: 0, col: 4 }),
        Some(sp)
    );
    assert_eq!(
        root.resolve_selection_to_source_checked(Caret { line: 0, col: 1 }, Caret { line: 1, col: 4 }),
        None
    );
}

#[test]
fn caret_lookup_is_none_exactly_off_the_link_lines() {
    let mut comp = TextComponent::new_formatted(
        TextNode::Paragraph,
        vec![
            vec![Word::new("plain".to_owned(), WordType::Normal)],
            vec![Word::new("[x]".to_owned(), WordType::Link), Word::new("[y]".to_owned(), WordType::Link)],
        ],
    );
    comp.set_y_offset(2);
    let root = ComponentRoot::new(None, vec![Component::TextComponent(comp)]);
    let listed = root.link_index_and_height();
    for line in 0..6u16 {
        let found = root.link_index_at_caret(Caret { line, col: 99 });
        let least = listed.iter().find(|(_, y)| *y == line).map(|(k, _)| *k);
        assert_eq!(found, least);
    }
    assert_eq!(root.link_index_at_caret(Caret { line: 3, col: 4 }), Some(1));
}
