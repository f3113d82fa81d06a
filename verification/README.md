# md_tui

The document model of a terminal markdown viewer, verified with Verus.

- `nodes::root::ComponentRoot` holds the rendered blocks of a document:
  link and details navigation, folding, search hits, footnotes, headings,
  layout offsets, and the line breaks between blocks.
- `nodes::layout` places every rendered word on a line and a column range.
- `nodes::anchors` maps a caret to the link under it, projects the source
  span of a comment onto rendered ranges, and resolves a selection
  of rendered cells back to a source span.
- `nodes::properties` states and proves how these operations fit together.
- `boxes::textbox::TextBox` is a character-wrapping text box with a cursor
  that draws into a `ratatui` buffer.
- `metrics` gives display widths (from `unicode-width`) and UTF-8 lengths.

`app/` holds the `ratatui::widgets::Widget` impl of the text box.
