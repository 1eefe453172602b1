use paragraph::buffer::Buffer;
use paragraph::layout::{Alignment, Rect, ScrollFrom};
use paragraph::paragraph::{Block, Paragraph};
use paragraph::style::{Style, Text};

fn raw(s: &str) -> Vec<Text> {
    vec![Text::Raw(s.to_string())]
}

fn rect(w: u16, h: u16) -> Rect {
    Rect { x: 0, y: 0, width: w, height: h }
}

fn row(buf: &Buffer, y: u16, w: u16) -> String {
    let mut s = String::new();
    for x in 0..w {
        s.push_str(&buf.get(x, y).symbol);
    }
    s
}

#[test]
fn truncator_single_line_example() {
    let mut buf = Buffer::new(10, 3);
    let p = Paragraph::new(raw("hello world this is long\n"));
    p.draw(rect(10, 3), &mut buf);
    assert_eq!(row(&buf, 0, 10), "hello worl");
    assert_eq!(row(&buf, 1, 10), "          ");
    assert_eq!(row(&buf, 2, 10), "          ");
}

#[test]
fn wrapper_three_lines_example() {
    let mut buf = Buffer::new(10, 3);
    let p = Paragraph::new(raw("hello world this is long\n")).wrap(true);
    p.draw(rect(10, 3), &mut buf);
    assert_eq!(row(&buf, 0, 10), "hello     ");
    assert_eq!(row(&buf, 1, 10), "world this");
    assert_eq!(row(&buf, 2, 10), "is long   ");
}

#[test]
fn bottom_anchor_shows_tail() {
    let mut buf = Buffer::new(4, 3);
    let p = Paragraph::new(raw("l1\nl2\nl3\nl4\nl5"))
        .scroll_from(ScrollFrom::Bottom);
    p.draw(rect(4, 3), &mut buf);
    assert_eq!(row(&buf, 0, 4), "l3  ");
    assert_eq!(row(&buf, 1, 4), "l4  ");
    assert_eq!(row(&buf, 2, 4), "l5  ");
}

#[test]
fn bottom_anchor_overflow_filler_rows() {
    let mut buf = Buffer::new(4, 4);
    let p = Paragraph::new(raw("l1\nl2"))
        .scroll_from(ScrollFrom::Bottom)
        .scroll_overflow_char(Some('~'))
        .scroll(2);
    p.draw(rect(4, 4), &mut buf);
    assert_eq!(row(&buf, 0, 4), "~   ");
    assert_eq!(row(&buf, 1, 4), "~   ");
    assert_eq!(row(&buf, 2, 4), "l1  ");
    assert_eq!(row(&buf, 3, 4), "l2  ");
}

#[test]
fn overflow_filler_rows_use_default_style() {
    let base = Style { fg: 3, bg: 7, modifier: 1 };
    let mut buf = Buffer::new(4, 3);
    let p = Paragraph::new(raw("l1"))
        .style(base)
        .scroll_from(ScrollFrom::Bottom)
        .scroll_overflow_char(Some('~'))
        .scroll(2);
    p.draw(rect(4, 3), &mut buf);
    assert_eq!(buf.get(0, 0).symbol, "~");
    assert_eq!(buf.get(0, 0).style, Style::default());
    assert_eq!(buf.get(0, 1).symbol, "~");
    assert_eq!(buf.get(0, 1).style, Style::default());
    // content and background rows keep the base background
    assert_eq!(row(&buf, 2, 4), "l1  ");
    assert_eq!(buf.get(1, 0).style.bg, 7);
    assert_eq!(buf.get(0, 2).style.bg, 7);
}

#[test]
fn bottom_anchor_short_content_never_scrolls_without_filler() {
    let mut buf = Buffer::new(4, 4);
    let p = Paragraph::new(raw("l1\nl2"))
        .scroll_from(ScrollFrom::Bottom)
        .scroll(7);
    p.draw(rect(4, 4), &mut buf);
    assert_eq!(row(&buf, 0, 4), "l1  ");
    assert_eq!(row(&buf, 1, 4), "l2  ");
    assert_eq!(row(&buf, 2, 4), "    ");
    assert_eq!(row(&buf, 3, 4), "    ");
}

#[test]
fn top_anchor_offset_zero_starts_at_first_line() {
    let mut buf = Buffer::new(4, 2);
    let p = Paragraph::new(raw("l1\nl2\nl3"));
    p.draw(rect(4, 2), &mut buf);
    assert_eq!(row(&buf, 0, 4), "l1  ");
    assert_eq!(row(&buf, 1, 4), "l2  ");
}

#[test]
fn top_anchor_offset_skips_lines() {
    let mut buf = Buffer::new(4, 2);
    let p = Paragraph::new(raw("l1\nl2\nl3")).scroll(1);
    p.draw(rect(4, 2), &mut buf);
    assert_eq!(row(&buf, 0, 4), "l2  ");
    assert_eq!(row(&buf, 1, 4), "l3  ");
}

#[test]
fn top_anchor_ignores_overflow_char() {
    let mut buf = Buffer::new(4, 3);
    let p = Paragraph::new(raw("l1\nl2"))
        .scroll_overflow_char(Some('~'))
        .scroll(5);
    p.draw(rect(4, 3), &mut buf);
    assert_eq!(row(&buf, 0, 4), "    ");
    assert_eq!(row(&buf, 1, 4), "    ");
    assert_eq!(row(&buf, 2, 4), "    ");
}

#[test]
fn wrap_and_truncate_agree_when_everything_fits() {
    let mut buf_t = Buffer::new(10, 3);
    let mut buf_w = Buffer::new(10, 3);
    Paragraph::new(raw("ab cd\nef")).draw(rect(10, 3), &mut buf_t);
    Paragraph::new(raw("ab cd\nef")).wrap(true).draw(rect(10, 3), &mut buf_w);
    for y in 0..3 {
        assert_eq!(row(&buf_t, y, 10), row(&buf_w, y, 10));
    }
}

#[test]
fn long_word_hard_split_into_full_chunks() {
    let mut buf = Buffer::new(3, 4);
    let p = Paragraph::new(raw("abcdefghij")).wrap(true);
    p.draw(rect(3, 4), &mut buf);
    assert_eq!(row(&buf, 0, 3), "abc");
    assert_eq!(row(&buf, 1, 3), "def");
    assert_eq!(row(&buf, 2, 3), "ghi");
    assert_eq!(row(&buf, 3, 3), "j  ");
}

#[test]
fn wide_characters_occupy_two_columns() {
    let mut buf = Buffer::new(4, 1);
    let p = Paragraph::new(raw("こんにちは"));
    p.draw(rect(4, 1), &mut buf);
    assert_eq!(buf.get(0, 0).symbol, "こ");
    assert_eq!(buf.get(1, 0).symbol, " ");
    assert_eq!(buf.get(2, 0).symbol, "ん");
    assert_eq!(buf.get(3, 0).symbol, " ");
}

#[test]
fn unit_wider_than_viewport_is_dropped() {
    let mut buf = Buffer::new(1, 1);
    let p = Paragraph::new(raw("こa"));
    p.draw(rect(1, 1), &mut buf);
    assert_eq!(buf.get(0, 0).symbol, "a");
}

#[test]
fn zero_height_viewport_is_a_no_op() {
    let mut buf = Buffer::new(4, 2);
    let p = Paragraph::new(raw("l1"));
    p.draw(rect(4, 0), &mut buf);
    for y in 0..2 {
        assert_eq!(row(&buf, y, 4), "    ");
    }
}

#[test]
fn zero_width_viewport_paints_no_columns() {
    let mut buf = Buffer::new(4, 2);
    let p = Paragraph::new(raw("l1"));
    p.draw(rect(0, 2), &mut buf);
    for y in 0..2 {
        assert_eq!(row(&buf, y, 4), "    ");
    }
}

#[test]
fn right_alignment_flushes_right() {
    let mut buf = Buffer::new(5, 1);
    let p = Paragraph::new(raw("hi")).alignment(Alignment::Right);
    p.draw(rect(5, 1), &mut buf);
    assert_eq!(row(&buf, 0, 5), "   hi");
}

#[test]
fn center_alignment_centers_by_halves() {
    let mut buf = Buffer::new(5, 1);
    let p = Paragraph::new(raw("hi")).alignment(Alignment::Center);
    p.draw(rect(5, 1), &mut buf);
    assert_eq!(row(&buf, 0, 5), " hi  ");
}

#[test]
fn styled_span_style_lands_in_cells() {
    let red = Style { fg: 1, bg: 0, modifier: 0 };
    let mut buf = Buffer::new(4, 1);
    let p = Paragraph::new(vec![
        Text::Raw("a".to_string()),
        Text::Styled("b".to_string(), red),
    ]);
    p.draw(rect(4, 1), &mut buf);
    assert_eq!(buf.get(0, 0).style, Style::default());
    assert_eq!(buf.get(1, 0).style, red);
}

#[test]
fn base_style_background_fills_text_area() {
    let base = Style { fg: 0, bg: 7, modifier: 0 };
    let mut buf = Buffer::new(3, 1);
    let p = Paragraph::new(raw("a")).style(base);
    p.draw(rect(3, 1), &mut buf);
    assert_eq!(buf.get(1, 0).style.bg, 7);
    assert_eq!(buf.get(2, 0).style.bg, 7);
}

#[test]
fn block_reserves_the_frame() {
    let mut buf = Buffer::new(6, 4);
    let p = Paragraph::new(raw("ab")).block(Block { borders: true });
    p.draw(rect(6, 4), &mut buf);
    assert_eq!(buf.get(1, 1).symbol, "a");
    assert_eq!(buf.get(2, 1).symbol, "b");
    assert_eq!(row(&buf, 0, 6), "      ");
}

#[test]
fn block_inner_shrinks_by_one_cell_per_side() {
    let b = Block { borders: true };
    let inner = b.inner(Rect { x: 0, y: 0, width: 10, height: 5 });
    assert_eq!(inner, Rect { x: 1, y: 1, width: 8, height: 3 });
    let none = Block { borders: false };
    let same = none.inner(Rect { x: 2, y: 3, width: 4, height: 5 });
    assert_eq!(same, Rect { x: 2, y: 3, width: 4, height: 5 });
}

#[test]
fn trailing_whitespace_trimmed_at_wrap_boundary() {
    let mut buf = Buffer::new(4, 2);
    let p = Paragraph::new(raw("aaa bb")).wrap(true);
    p.draw(rect(4, 2), &mut buf);
    assert_eq!(row(&buf, 0, 4), "aaa ");
    assert_eq!(row(&buf, 1, 4), "bb  ");
    // the trimmed space is background, not content
    let mut narrow = Buffer::new(3, 2);
    let q = Paragraph::new(raw("aa b")).wrap(true);
    q.draw(Rect { x: 0, y: 0, width: 3, height: 2 }, &mut narrow);
    assert_eq!(row(&narrow, 0, 3), "aa ");
    assert_eq!(row(&narrow, 1, 3), "b  ");
}

#[test]
fn scrolling_forward_moves_lines_up() {
    let text = "l1\nl2\nl3\nl4";
    let mut prev_row_of_l3: Option<u16> = None;
    for k in 0..4u16 {
        let mut buf = Buffer::new(4, 3);
        Paragraph::new(raw(text)).scroll(k).draw(rect(4, 3), &mut buf);
        let mut found: Option<u16> = None;
        for y in 0..3u16 {
            if row(&buf, y, 4) == "l3  " {
                found = Some(y);
            }
        }
        if let (Some(p), Some(f)) = (prev_row_of_l3, found) {
            assert_eq!(f, p - 1);
        }
        prev_row_of_l3 = found;
    }
}
