use paragraph::grapheme::styled_graphemes;
use paragraph::layout::{get_line_offset, Alignment};
use paragraph::reflow::{LineTruncator, WordWrapper};
use paragraph::style::{Style, Text};

fn units_of(s: &str) -> Vec<paragraph::grapheme::StyledGrapheme> {
    styled_graphemes(&vec![Text::Raw(s.to_string())], Style::default())
}

fn line_text(l: &paragraph::reflow::ComposedLine) -> String {
    let mut s = String::new();
    for u in l.units.iter() {
        s.push_str(&u.symbol);
    }
    s
}

#[test]
fn composed_line_width_is_sum_of_unit_widths() {
    let mut w = WordWrapper::new(units_of("hello world this is long\n"), 10);
    let mut t = LineTruncator::new(units_of("hello こんにちは world"), 12);
    loop {
        match w.next_line() {
            Some(l) => {
                let sum: usize = l.units.iter().map(|u| u.width).sum();
                assert_eq!(l.width, sum);
            },
            None => break,
        }
    }
    loop {
        match t.next_line() {
            Some(l) => {
                let sum: usize = l.units.iter().map(|u| u.width).sum();
                assert_eq!(l.width, sum);
            },
            None => break,
        }
    }
}

#[test]
fn grapheme_clusters_stay_single_units() {
    let units = units_of("a\u{310}e\u{301}o\u{308}\u{332}");
    assert_eq!(units.len(), 3);
    assert_eq!(units[0].symbol, "a\u{310}");
    assert_eq!(units[0].width, 1);
}

#[test]
fn wide_grapheme_has_display_width_two() {
    let units = units_of("こ");
    assert_eq!(units.len(), 1);
    assert_eq!(units[0].width, 2);
}

#[test]
fn stream_preserves_span_order_and_styles() {
    let red = Style { fg: 9, bg: 2, modifier: 4 };
    let units = styled_graphemes(
        &vec![
            Text::Raw("ab".to_string()),
            Text::Styled("cd".to_string(), red),
        ],
        Style::default(),
    );
    assert_eq!(units.len(), 4);
    assert_eq!(units[0].symbol, "a");
    assert_eq!(units[0].style, Style::default());
    assert_eq!(units[3].symbol, "d");
    assert_eq!(units[3].style, red);
}

#[test]
fn truncator_discards_rest_of_long_logical_line() {
    let mut t = LineTruncator::new(units_of("abcdef\ngh"), 3);
    let lines = t.collect_lines();
    assert_eq!(lines.len(), 2);
    assert_eq!(line_text(&lines[0]), "abc");
    assert_eq!(line_text(&lines[1]), "gh");
}

#[test]
fn newlines_make_empty_lines() {
    let mut t = LineTruncator::new(units_of("\n\n"), 5);
    let lines = t.collect_lines();
    assert_eq!(lines.len(), 2);
    assert_eq!(lines[0].units.len(), 0);
    assert_eq!(lines[0].width, 0);
    let mut w = WordWrapper::new(units_of("\n\n"), 5);
    let wlines = w.collect_lines();
    assert_eq!(wlines.len(), 2);
    assert_eq!(wlines[0].units.len(), 0);
}

#[test]
fn word_kept_when_it_exactly_fits_remaining_width() {
    let mut w = WordWrapper::new(units_of("world this is"), 10);
    let lines = w.collect_lines();
    assert_eq!(line_text(&lines[0]), "world this");
    assert_eq!(lines[0].width, 10);
}

#[test]
fn hard_split_chunks_are_full_width_except_last() {
    let mut w = WordWrapper::new(units_of("abcdefgh"), 3);
    let lines = w.collect_lines();
    assert_eq!(lines.len(), 3);
    assert_eq!(line_text(&lines[0]), "abc");
    assert_eq!(line_text(&lines[1]), "def");
    assert_eq!(line_text(&lines[2]), "gh");
    assert_eq!(lines[0].width, 3);
    assert_eq!(lines[1].width, 3);
    assert_eq!(lines[2].width, 2);
}

#[test]
fn zero_max_width_yields_no_lines() {
    let mut t = LineTruncator::new(units_of("abc"), 0);
    assert!(t.next_line().is_none());
    let mut w = WordWrapper::new(units_of("abc"), 0);
    assert!(w.next_line().is_none());
}

#[test]
fn end_of_stream_yields_pending_partial_line() {
    let mut t = LineTruncator::new(units_of("ab"), 5);
    let lines = t.collect_lines();
    assert_eq!(lines.len(), 1);
    assert_eq!(line_text(&lines[0]), "ab");
}

#[test]
fn line_offset_formulas() {
    assert_eq!(get_line_offset(4, 10, Alignment::Left), 0);
    assert_eq!(get_line_offset(4, 10, Alignment::Right), 6);
    assert_eq!(get_line_offset(4, 10, Alignment::Center), 3);
    // saturates when the line is wider than the area
    assert_eq!(get_line_offset(12, 10, Alignment::Right), 0);
    assert_eq!(get_line_offset(12, 10, Alignment::Center), 0);
}

#[test]
fn wrap_equals_truncate_on_fitting_input() {
    let mut t = LineTruncator::new(units_of("ab cd e\nfg h"), 10);
    let mut w = WordWrapper::new(units_of("ab cd e\nfg h"), 10);
    let tl = t.collect_lines();
    let wl = w.collect_lines();
    assert_eq!(tl.len(), wl.len());
    for (a, b) in tl.iter().zip(wl.iter()) {
        assert_eq!(line_text(a), line_text(b));
        assert_eq!(a.width, b.width);
    }
}
