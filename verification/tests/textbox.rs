use md_tui::boxes::textbox::{Area, TextBox};
use ratatui::buffer::Buffer;
use ratatui::layout::Rect;
use ratatui::style::{Color, Modifier, Style};

#[test]
fn calculate_height_basics() {
    // Empty text always needs at least one row.
    assert_eq!(TextBox::calculate_height("", 10, false), 1);
    // A cursor on empty text still fits in one row.
    assert_eq!(TextBox::calculate_height("", 10, true), 1);
    // Short single line.
    assert_eq!(TextBox::calculate_height("hello", 10, false), 1);
    // Wrapping: 5 chars at width 3 -> 2 rows.
    assert_eq!(TextBox::calculate_height("hello", 3, false), 2);
    // Explicit newlines split into paragraphs.
    assert_eq!(TextBox::calculate_height("abc\ndef", 10, false), 2);
    // Width 0 degrades to a single row.
    assert_eq!(TextBox::calculate_height("hello", 0, false), 1);
}

#[test]
fn calculate_height_reserves_a_row_for_a_trailing_cursor() {
    // A full-width last line plus the insertion cursor needs an extra row,
    // matching where the renderer places the wrapped cursor.
    assert_eq!(TextBox::calculate_height("0123456789", 10, false), 1);
    assert_eq!(TextBox::calculate_height("0123456789", 10, true), 2);
}

/// Position of the reverse-video cursor cell after rendering, if any.
fn cursor_pos(text: &str, cursor: usize, w: u16, h: u16) -> Option<(u16, u16)> {
    let area = Rect::new(0, 0, w, h);
    let mut buf = Buffer::empty(area);
    TextBox::new(text).cursor(cursor).render(
        Area {
            x: area.x,
            y: area.y,
            width: area.width,
            height: area.height,
        },
        &mut buf,
    );
    for y in 0..h {
        for x in 0..w {
            if buf[(x, y)]
                .style()
                .add_modifier
                .contains(Modifier::REVERSED)
            {
                return Some((x, y));
            }
        }
    }
    None
}

#[test]
fn cursor_renders_at_end_and_mid_string() {
    // Cursor at the end sits just past the last char.
    assert_eq!(cursor_pos("ab", 2, 10, 2), Some((2, 0)));
    // Cursor in the middle lands on that char's cell.
    assert_eq!(cursor_pos("abc", 1, 10, 2), Some((1, 0)));
}

#[test]
fn cursor_wraps_to_next_line_past_a_full_width_line() {
    // 10 chars exactly fill row 0; the trailing cursor wraps to (0, 1).
    assert_eq!(cursor_pos("0123456789", 10, 10, 2), Some((0, 1)));
}

fn area_of(r: Rect) -> Area {
    Area {
        x: r.x,
        y: r.y,
        width: r.width,
        height: r.height,
    }
}

fn row_symbols(buf: &Buffer, y: u16, from: u16, to: u16) -> String {
    (from..to).map(|x| buf[(x, y)].symbol().to_owned()).collect()
}

#[test]
fn render_wraps_chars_and_blanks_the_rest_of_the_area() {
    let full = Rect::new(0, 0, 6, 4);
    let mut buf = Buffer::empty(full);
    for x in 0..6 {
        for y in 0..4 {
            buf[(x, y)].set_symbol("#");
        }
    }
    let area = Rect::new(1, 1, 3, 2);
    TextBox::new("abcd\nxyz").render(area_of(area), &mut buf);
    assert_eq!(row_symbols(&buf, 0, 0, 6), "######");
    assert_eq!(row_symbols(&buf, 1, 0, 6), "#abc##");
    // Drawing stops once no row is left: "xyz" never shows.
    assert_eq!(row_symbols(&buf, 2, 0, 6), "#d  ##");
    assert_eq!(row_symbols(&buf, 3, 0, 6), "######");
}

#[test]
fn render_gives_the_cells_the_box_style() {
    let area = Rect::new(0, 0, 4, 1);
    let mut buf = Buffer::empty(area);
    TextBox::new("hi")
        .style(Style::default().fg(Color::Red))
        .render(area_of(area), &mut buf);
    assert_eq!(buf[(0, 0)].fg, Color::Red);
    assert_eq!(buf[(3, 0)].fg, Color::Red);
    assert_eq!(row_symbols(&buf, 0, 0, 4), "hi  ");
    assert_eq!(TextBox::new("x").style, Style::default());
}

#[test]
fn zero_sized_area_draws_nothing() {
    let area = Rect::new(0, 0, 3, 1);
    let mut buf = Buffer::empty(area);
    buf[(0, 0)].set_symbol("q");
    TextBox::new("abc").cursor(0).render(
        Area {
            x: 0,
            y: 0,
            width: 0,
            height: 1,
        },
        &mut buf,
    );
    assert_eq!(row_symbols(&buf, 0, 0, 3), "q  ");
    assert_eq!(cursor_pos("abc", 0, 3, 1), Some((0, 0)));
}

#[test]
fn calculated_height_holds_the_trailing_cursor_on_its_last_row() {
    for (text, w) in [("0123456789", 10u16), ("ab\ncdefg", 3), ("", 4), ("abc\n", 2), ("héllo wörld", 4)] {
        let h = TextBox::calculate_height(text, w, true);
        assert_eq!(cursor_pos(text, text.len(), w, h).map(|(_, y)| y), Some(h - 1), "{text:?} at {w}");
    }
}

#[test]
fn calculate_height_counts_chars_not_bytes() {
    assert_eq!(TextBox::calculate_height("ééé", 3, false), 1);
    assert_eq!(TextBox::calculate_height("a\n\nb", 5, false), 3);
    assert_eq!(TextBox::calculate_height("abcdefg", 3, true), 3);
}

#[test]
fn calculate_height_cuts_each_paragraph_to_sixteen_bits() {
    let long = "a".repeat(65_536);
    assert_eq!(TextBox::calculate_height(&long, 1, false), 1);
    let longer = "a".repeat(65_539);
    assert_eq!(TextBox::calculate_height(&format!("{longer}\nb"), 1, false), 4);
}

#[test]
fn cursor_on_a_wrapped_char_sits_on_that_chars_cell() {
    // The char at byte 10 starts row 1; the cursor goes on it, not past row 0.
    assert_eq!(cursor_pos("0123456789a", 10, 10, 2), Some((0, 1)));
    let area = Rect::new(0, 0, 10, 2);
    let mut buf = Buffer::empty(area);
    TextBox::new("0123456789a").cursor(10).render(area_of(area), &mut buf);
    assert_eq!(buf[(0, 1)].symbol(), "a");
    // With no row left for the char, neither it nor the cursor is drawn.
    assert_eq!(cursor_pos("0123456789a", 10, 10, 1), None);
}

fn reversed_cells(buf: &Buffer, w: u16, h: u16) -> Vec<(u16, u16)> {
    let mut out = Vec::new();
    for y in 0..h {
        for x in 0..w {
            if buf[(x, y)].style().add_modifier.contains(Modifier::REVERSED) {
                out.push((x, y));
            }
        }
    }
    out
}

#[test]
fn only_the_cursor_cell_is_reversed_in_the_default_style() {
    let area = Rect::new(0, 0, 4, 2);
    let mut buf = Buffer::empty(area);
    TextBox::new("abcdef").cursor(5).render(area_of(area), &mut buf);
    assert_eq!(reversed_cells(&buf, 4, 2), vec![(1, 1)]);
}

#[test]
fn the_box_style_decides_reverse_video_of_the_area() {
    let full = Rect::new(0, 0, 3, 2);
    let mut buf = Buffer::empty(full);
    buf[(2, 1)].set_style(Style::default().add_modifier(Modifier::REVERSED));
    TextBox::new("ab")
        .style(Style::default().add_modifier(Modifier::REVERSED))
        .render(area_of(Rect::new(0, 0, 3, 1)), &mut buf);
    assert_eq!(reversed_cells(&buf, 3, 2), vec![(0, 0), (1, 0), (2, 0), (2, 1)]);
    let mut buf = Buffer::empty(full);
    buf[(1, 0)].set_style(Style::default().add_modifier(Modifier::REVERSED));
    TextBox::new("ab")
        .style(Style::default().remove_modifier(Modifier::REVERSED))
        .cursor(0)
        .render(area_of(Rect::new(0, 0, 3, 1)), &mut buf);
    assert_eq!(reversed_cells(&buf, 3, 2), vec![(0, 0)]);
}
