use md_tui::comments::Comment;
use md_tui::nodes::root::{Component, ComponentRoot};
use md_tui::nodes::textcomponent::{TextComponent, TextNode};
use md_tui::nodes::word::{Word, WordType};
use md_tui::parser::{SourcePos, SourceSpan};
use md_tui::util::Caret;

fn root_with_two_links_on_one_line() -> ComponentRoot {
    // Layout: "[a]" at cols 0..3, a space at col 3, "[b]" at cols 4..7.
    let words = vec![
        Word::new("[a]".to_owned(), WordType::Link),
        Word::new(" ".to_owned(), WordType::Normal),
        Word::new("[b]".to_owned(), WordType::Link),
    ];
    let mut comp = TextComponent::new(TextNode::Paragraph, words);
    comp.set_y_offset(0);
    ComponentRoot::new(None, vec![Component::TextComponent(comp)])
}

#[test]
fn link_index_at_caret_disambiguates_by_column() {
    let root = root_with_two_links_on_one_line();
    // Caret inside the first link.
    assert_eq!(root.link_index_at_caret(Caret { line: 0, col: 1 }), Some(0));
    // Caret inside the second link.
    assert_eq!(root.link_index_at_caret(Caret { line: 0, col: 5 }), Some(1));
}

#[test]
fn link_index_at_caret_falls_back_to_first_link_on_line() {
    let root = root_with_two_links_on_one_line();
    // Caret on the gap between links resolves to the first link on the line.
    assert_eq!(root.link_index_at_caret(Caret { line: 0, col: 3 }), Some(0));
}

#[test]
fn link_index_at_caret_none_when_line_has_no_link() {
    let root = root_with_two_links_on_one_line();
    assert_eq!(root.link_index_at_caret(Caret { line: 9, col: 0 }), None);
}

/// A word whose source span starts at `start_byte` and runs for
/// `content.len()` bytes, as the parser anchors a word.
fn word(start_byte: usize, content: &str) -> Word {
    let span = SourceSpan {
        start: SourcePos {
            byte: start_byte,
            line: 1,
            column: 1,
        },
        end: SourcePos {
            byte: start_byte + content.len(),
            line: 1,
            column: 1,
        },
    };
    Word::new_source(content.to_owned(), WordType::Normal, span)
}

fn paragraph(y: u16, words: Vec<Word>) -> ComponentRoot {
    let mut comp = TextComponent::new(TextNode::Paragraph, words);
    comp.set_y_offset(y);
    ComponentRoot::new(None, vec![Component::TextComponent(comp)])
}

fn multiline(y: u16, rows: Vec<Vec<Word>>) -> ComponentRoot {
    let mut comp = TextComponent::new_formatted(TextNode::Paragraph, rows);
    comp.set_y_offset(y);
    ComponentRoot::new(None, vec![Component::TextComponent(comp)])
}

fn comment(span: SourceSpan) -> Comment {
    Comment {
        source: span,
        text: String::new(),
        selected_text: None,
    }
}

fn span(start: usize, end: usize) -> SourceSpan {
    SourceSpan {
        start: SourcePos {
            byte: start,
            line: 1,
            column: 1,
        },
        end: SourcePos {
            byte: end,
            line: 1,
            column: 1,
        },
    }
}

#[test]
fn resolve_selection_maps_columns_to_byte_offsets() {
    // "Hello" at bytes 0..5, cols 0..5. Select cols 1..4 -> bytes 1..4.
    let root = paragraph(0, vec![word(0, "Hello")]);
    let span = root
        .resolve_selection_to_source(Caret { line: 0, col: 1 }, Caret { line: 0, col: 4 })
        .expect("selection overlaps a source-backed word");
    assert_eq!(span.start.byte, 1);
    assert_eq!(span.end.byte, 4);
}

#[test]
fn resolve_selection_handles_multibyte_chars() {
    // "café": c(1) a(1) f(1) é(2 bytes, width 1). Content is 5 bytes wide 4.
    let root = paragraph(0, vec![word(0, "café")]);
    let span = root
        .resolve_selection_to_source(Caret { line: 0, col: 0 }, Caret { line: 0, col: 4 })
        .expect("selection overlaps the word");
    assert_eq!(span.start.byte, 0);
    assert_eq!(span.end.byte, 5, "é is two bytes wide");
}

#[test]
fn resolve_selection_handles_wide_cjk_chars() {
    // "中文": each char is 3 bytes and 2 columns wide. Selecting cols 0..2
    // covers only "中" -> bytes 0..3.
    let root = paragraph(0, vec![word(0, "中文")]);
    let span = root
        .resolve_selection_to_source(Caret { line: 0, col: 0 }, Caret { line: 0, col: 2 })
        .expect("selection overlaps the word");
    assert_eq!(span.start.byte, 0);
    assert_eq!(span.end.byte, 3);
}

#[test]
fn resolve_selection_spans_multiple_lines() {
    // Raw "foo\nbar": foo=0..3, '\n'=3, bar=4..7.
    // Select from (line0,col0) to (line1,col2) == "foo\nba" -> bytes 0..6.
    let root = multiline(0, vec![vec![word(0, "foo")], vec![word(4, "bar")]]);
    let span = root
        .resolve_selection_to_source(Caret { line: 0, col: 0 }, Caret { line: 1, col: 2 })
        .expect("multi-line selection resolves");
    assert_eq!(span.start.byte, 0);
    assert_eq!(span.end.byte, 6);
}

#[test]
fn resolve_selection_envelope_is_tight_across_words() {
    // "Hello World": Hello=0..5, ' '=5..6, World=6..11.
    let root = paragraph(0, vec![word(0, "Hello"), word(5, " "), word(6, "World")]);
    let span = root
        .resolve_selection_to_source(Caret { line: 0, col: 2 }, Caret { line: 0, col: 9 })
        .expect("selection overlaps multiple words");
    assert_eq!(span.start.byte, 2); // inside "Hello"
    assert_eq!(span.end.byte, 9); // inside "World" (col 9 -> "Wor")
}

#[test]
fn resolve_selection_none_when_no_source_word_touched() {
    let root = paragraph(0, vec![Word::new("plain".to_owned(), WordType::Normal)]);
    assert!(
        root.resolve_selection_to_source(Caret { line: 0, col: 0 }, Caret { line: 0, col: 3 })
            .is_none()
    );
}

#[test]
fn project_comment_coalesces_adjacent_words_on_one_line() {
    let root = paragraph(0, vec![word(0, "Hello"), word(5, " "), word(6, "World")]);
    let projections = root.project_comments(&[comment(span(0, 11))]);
    assert_eq!(projections.len(), 1);
    let ranges = &projections[0].rendered;
    assert_eq!(ranges.len(), 1, "adjacent words must coalesce");
    assert_eq!(ranges[0].start, Caret { line: 0, col: 0 });
    assert_eq!(ranges[0].end, Caret { line: 0, col: 11 });
}

#[test]
fn project_comment_spans_multiple_lines_without_coalescing() {
    let root = multiline(0, vec![vec![word(0, "foo")], vec![word(4, "bar")]]);
    let projections = root.project_comments(&[comment(span(0, 7))]);
    let ranges = &projections[0].rendered;
    assert_eq!(ranges.len(), 2, "ranges on different lines stay separate");
    assert_eq!(ranges[0].start, Caret { line: 0, col: 0 });
    assert_eq!(ranges[0].end, Caret { line: 0, col: 3 });
    assert_eq!(ranges[1].start, Caret { line: 1, col: 0 });
    assert_eq!(ranges[1].end, Caret { line: 1, col: 3 });
}

#[test]
fn project_comment_orphaned_span_yields_no_ranges() {
    let root = paragraph(0, vec![word(0, "Hello")]);
    let projections = root.project_comments(&[comment(span(100, 110))]);
    assert_eq!(projections.len(), 1);
    assert!(projections[0].rendered.is_empty());
}

#[test]
fn resolve_then_project_round_trips() {
    let root = paragraph(0, vec![word(0, "Hello"), word(5, " "), word(6, "World")]);
    let span = root
        .resolve_selection_to_source(Caret { line: 0, col: 0 }, Caret { line: 0, col: 11 })
        .expect("resolves");
    let projections = root.project_comments(&[comment(span)]);
    let ranges = &projections[0].rendered;
    assert_eq!(ranges.first().unwrap().start, Caret { line: 0, col: 0 });
    assert_eq!(ranges.last().unwrap().end, Caret { line: 0, col: 11 });
}
