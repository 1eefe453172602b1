//! The paragraph widget: scroll-window selection and line painting.
//!
//! A draw call composes the spans into display lines, selects which
//! lines are visible for the configured anchor and scroll offset, and
//! paints each visible line into the buffer at its aligned column.
//! The whole effect of a draw on the buffer is pinned down by
//! [`Paragraph::draw_spec`].

use vstd::prelude::*;
use crate::buffer::{Buffer, CellModel, cell_index, with_bg};
use crate::grapheme::{models_of, styled_graphemes, units_of_spans, GraphemeModel, StyledGrapheme};
use crate::layout::{get_line_offset, spec_line_offset, Alignment, Rect, ScrollFrom};
use crate::reflow::{
    lines_of, truncate_lines, width_sum, wrap_lines, ComposedLine, LineTruncator, WordWrapper,
};
use crate::style::{Style, Text};

verus! {

/// Relies on `char`'s `ToString`: the string of a single character is
/// that character alone.
#[verifier::external_body]
fn char_to_string(c: char) -> (s: String)
    ensures
        s@ =~= seq![c],
{
    c.to_string()
}

/// A decoration frame around the paragraph. Drawing the frame itself
/// is the host toolkit's concern; the engine only asks it for the
/// inner rectangle that remains for text.
#[derive(Clone, Copy, PartialEq, Eq, Structural, Debug)]
pub struct Block {
    pub borders: bool,
}

impl Block {
    /// The rectangle left for text inside the frame: one cell smaller
    /// on each bordered side.
    pub open spec fn inner_spec(&self, area: Rect) -> Rect {
        if !self.borders {
            area
        } else {
            Rect {
                x: if area.width >= 2 {
                    (area.x + 1) as u16
                } else {
                    area.x
                },
                y: if area.height >= 2 {
                    (area.y + 1) as u16
                } else {
                    area.y
                },
                width: if area.width >= 2 {
                    (area.width - 2) as u16
                } else {
                    0
                },
                height: if area.height >= 2 {
                    (area.height - 2) as u16
                } else {
                    0
                },
            }
        }
    }

    /// Computes the inner rectangle.
    pub fn inner(&self, area: Rect) -> (r: Rect)
        requires
            area.x + area.width <= u16::MAX,
            area.y + area.height <= u16::MAX,
        ensures
            r == self.inner_spec(area),
            r.x + r.width <= area.x + area.width,
            r.y + r.height <= area.y + area.height,
    {
        if !self.borders {
            area
        } else {
            Rect {
                x: if area.width >= 2 {
                    area.x + 1
                } else {
                    area.x
                },
                y: if area.height >= 2 {
                    area.y + 1
                } else {
                    area.y
                },
                width: if area.width >= 2 {
                    area.width - 2
                } else {
                    0
                },
                height: if area.height >= 2 {
                    area.height - 2
                } else {
                    0
                },
            }
        }
    }
}

/// The 0-indexed content line shown at the top of the viewport. For a
/// top anchor it is the scroll offset itself. For a bottom anchor the
/// end of the content is aligned with the bottom of the viewport and
/// the offset scrolls back into history; without an overflow character
/// the start is clamped so the view never leaves the content, with one
/// it may go negative, the rows above the content showing the filler.
pub open spec fn start_line_index(
    anchor: ScrollFrom,
    has_overflow: bool,
    total: int,
    height: int,
    offset: int,
) -> int {
    match anchor {
        ScrollFrom::Top => offset,
        ScrollFrom::Bottom => if !has_overflow {
            if total <= height + offset {
                0
            } else {
                total - (height + offset)
            }
        } else {
            if total <= height {
                -offset
            } else {
                total - (height + offset)
            }
        },
    }
}

/// What a viewport row shows: the overflow filler, the content line at
/// a given index, or nothing.
pub ghost enum RowSource {
    Filler,
    Content(int),
    Blank,
}

/// The source of viewport row `y` when the topmost row shows line
/// `start`: negative line indices give filler rows, indices past the
/// content give blank rows.
pub open spec fn row_source(start: int, total: int, y: int) -> RowSource {
    if start + y < 0 {
        RowSource::Filler
    } else if start + y < total {
        RowSource::Content(start + y)
    } else {
        RowSource::Blank
    }
}

/// The cells after painting the units of `line` from position `j` at
/// viewport column `x` of viewport row `y`: each unit writes its
/// symbol and style at its column and advances the column by its
/// width, so a wide unit occupies two cells with only the first
/// written. A unit whose cells would reach past the viewport's right
/// edge is not written.
pub open spec fn paint_line_cells(
    cells: Seq<CellModel>,
    bw: int,
    area: Rect,
    y: int,
    line: Seq<GraphemeModel>,
    j: int,
    x: int,
) -> Seq<CellModel>
    decreases line.len() - j,
{
    if j < 0 || j >= line.len() {
        cells
    } else {
        let u = line[j];
        let c2 = if 0 <= x && x < area.width && x + u.width <= area.width {
            cells.update(
                cell_index(bw, area.x + x, area.y + y),
                CellModel { symbol: u.symbol, style: u.style },
            )
        } else {
            cells
        };
        paint_line_cells(c2, bw, area, y, line, j + 1, x + u.width)
    }
}

/// The cells of viewport row `y` after repainting the background
/// attribute from column `x` rightwards.
pub open spec fn fill_bg_row(
    cells: Seq<CellModel>,
    bw: int,
    area: Rect,
    y: int,
    x: int,
    bg: u8,
) -> Seq<CellModel>
    decreases area.width - x,
{
    if x < 0 || x >= area.width {
        cells
    } else {
        let idx = cell_index(bw, area.x + x, area.y + y);
        fill_bg_row(cells.update(idx, with_bg(cells[idx], bg)), bw, area, y, x + 1, bg)
    }
}

/// The cells after repainting the background attribute of every cell
/// of the viewport from row `y` downwards.
pub open spec fn fill_bg_rows(
    cells: Seq<CellModel>,
    bw: int,
    area: Rect,
    y: int,
    bg: u8,
) -> Seq<CellModel>
    decreases area.height - y,
{
    if y < 0 || y >= area.height {
        cells
    } else {
        fill_bg_rows(fill_bg_row(cells, bw, area, y, 0, bg), bw, area, y + 1, bg)
    }
}

/// The cells after painting viewport rows from `y` downwards: a filler
/// row gets the overflow symbol in its first column, in the default
/// style; a content row gets its line painted at the alignment's
/// offset; a blank row is left untouched.
pub open spec fn paint_rows(
    cells: Seq<CellModel>,
    bw: int,
    area: Rect,
    lines: Seq<Seq<GraphemeModel>>,
    start: int,
    osym: Seq<char>,
    align: Alignment,
    y: int,
) -> Seq<CellModel>
    decreases area.height - y,
{
    if y < 0 || y >= area.height {
        cells
    } else {
        let c2 = match row_source(start, lines.len() as int, y) {
            RowSource::Filler => {
                if area.width > 0 {
                    let idx = cell_index(bw, area.x as int, area.y + y);
                    cells.update(
                        idx,
                        CellModel { symbol: osym, style: Style { fg: 0, bg: 0, modifier: 0 } },
                    )
                } else {
                    cells
                }
            },
            RowSource::Content(li) => paint_line_cells(
                cells,
                bw,
                area,
                y,
                lines[li],
                0,
                spec_line_offset(width_sum(lines[li]), area.width as int, align),
            ),
            RowSource::Blank => cells,
        };
        paint_rows(c2, bw, area, lines, start, osym, align, y + 1)
    }
}

/// Repaints the background attribute of every cell of the viewport.
fn fill_background(buf: &mut Buffer, area: Rect, bg: u8)
    requires
        old(buf).wf(),
        area.x + area.width <= old(buf).spec_width(),
        area.y + area.height <= old(buf).spec_height(),
    ensures
        final(buf).wf(),
        final(buf).spec_width() == old(buf).spec_width(),
        final(buf).spec_height() == old(buf).spec_height(),
        final(buf)@ == fill_bg_rows(
            old(buf)@,
            old(buf).spec_width() as int,
            area,
            0,
            bg,
        ),
{
    let ghost bw = buf.spec_width() as int;
    let ghost orig = buf@;
    let mut y: u16 = 0;
    while y < area.height
        invariant
            buf.wf(),
            buf.spec_width() == old(buf).spec_width(),
            buf.spec_height() == old(buf).spec_height(),
            bw == old(buf).spec_width() as int,
            area.x + area.width <= buf.spec_width(),
            area.y + area.height <= buf.spec_height(),
            0 <= y <= area.height,
            fill_bg_rows(buf@, bw, area, y as int, bg) == fill_bg_rows(orig, bw, area, 0, bg),
        decreases area.height - y,
    {
        let ghost row_start = buf@;
        let mut x: u16 = 0;
        while x < area.width
            invariant
                buf.wf(),
                buf.spec_width() == old(buf).spec_width(),
                buf.spec_height() == old(buf).spec_height(),
                bw == old(buf).spec_width() as int,
                area.x + area.width <= buf.spec_width(),
                area.y + area.height <= buf.spec_height(),
                0 <= y < area.height,
                0 <= x <= area.width,
                fill_bg_row(buf@, bw, area, y as int, x as int, bg) == fill_bg_row(
                    row_start,
                    bw,
                    area,
                    y as int,
                    0,
                    bg,
                ),
            decreases area.width - x,
        {
            buf.set_bg(area.x + x, area.y + y, bg);
            x += 1;
        }
        proof {
            assert(fill_bg_row(buf@, bw, area, y as int, area.width as int, bg) == buf@);
        }
        y += 1;
    }
}

/// Paints one composed line into viewport row `y` at the column the
/// alignment assigns it.
fn paint_line(buf: &mut Buffer, line: &ComposedLine, area: Rect, y: u16, align: Alignment)
    requires
        old(buf).wf(),
        area.x + area.width <= old(buf).spec_width(),
        area.y + area.height <= old(buf).spec_height(),
        y < area.height,
        line.wf(),
        line.width <= area.width,
    ensures
        final(buf).wf(),
        final(buf).spec_width() == old(buf).spec_width(),
        final(buf).spec_height() == old(buf).spec_height(),
        final(buf)@ == paint_line_cells(
            old(buf)@,
            old(buf).spec_width() as int,
            area,
            y as int,
            line@,
            0,
            spec_line_offset(line.width as int, area.width as int, align),
        ),
{
    let ghost bw = buf.spec_width() as int;
    let ghost orig = buf@;
    let ghost m = line@;
    let off = get_line_offset(line.width as u16, area.width, align);
    let mut x: u16 = off;
    let mut j: usize = 0;
    proof {
        assert(m.take(0) =~= Seq::<GraphemeModel>::empty());
        assert(m.take(m.len() as int) =~= m);
        crate::reflow::lemma_width_sum_nonneg(m);
        assert(off as int + width_sum(m) <= area.width) by {
            crate::layout::lemma_line_offset_fits(line.width as int, area.width as int, align);
        }
    }
    while j < line.units.len()
        invariant
            buf.wf(),
            buf.spec_width() == old(buf).spec_width(),
            buf.spec_height() == old(buf).spec_height(),
            bw == old(buf).spec_width() as int,
            area.x + area.width <= buf.spec_width(),
            area.y + area.height <= buf.spec_height(),
            y < area.height,
            m == line@,
            0 <= j <= line.units@.len(),
            m.len() == line.units@.len(),
            x as int == off + width_sum(m.take(j as int)),
            x as int + width_sum(m.skip(j as int)) <= area.width,
            paint_line_cells(buf@, bw, area, y as int, m, j as int, x as int)
                == paint_line_cells(orig, bw, area, y as int, m, 0, off as int),
        decreases line.units@.len() - j,
    {
        let ghost ji = j as int;
        proof {
            assert(m[ji] == line.units@[ji]@);
            assert(m.skip(ji).drop_first() =~= m.skip(ji + 1));
            assert(m.skip(ji)[0] == m[ji]);
            // width_sum over first element of the suffix
            assert(m.skip(ji) =~= seq![m[ji]] + m.skip(ji + 1));
            crate::reflow::lemma_width_sum_concat(seq![m[ji]], m.skip(ji + 1));
            crate::reflow::lemma_width_sum_singleton(m[ji]);
            crate::reflow::lemma_width_sum_nonneg(m.skip(ji + 1));
            assert(m.take(ji + 1) =~= m.take(ji).push(m[ji]));
            crate::reflow::lemma_width_sum_push(m.take(ji), m[ji]);
        }
        proof {
            assert(width_sum(m.skip(ji)) == m[ji].width + width_sum(m.skip(ji + 1)));
            assert(m[ji].width <= area.width);
        }
        let u = &line.units[j];
        if x < area.width && u.width <= (area.width - x) as usize {
            buf.set_cell(area.x + x, area.y + y, u.symbol.as_str(), u.style);
        }
        x = x + (u.width as u16);
        j += 1;
    }
    proof {
        assert(paint_line_cells(buf@, bw, area, y as int, m, m.len() as int, x as int) == buf@);
    }
}

/// A widget that renders styled text spans into a viewport, with
/// optional wrapping, alignment, scrolling from either anchor, and an
/// optional overflow filler character.
pub struct Paragraph {
    /// A decoration frame to reserve space for, if any.
    pub block: Option<Block>,
    /// The base style; plain spans take it, and its background
    /// attribute is painted over the whole text area first.
    pub style: Style,
    /// Word-wrap the text rather than truncate it.
    pub wrapping: bool,
    /// The text to display.
    pub text: Vec<Text>,
    /// Whether embedded commands in the text should be left as they
    /// are; the engine itself never interprets them.
    pub raw: bool,
    /// Scroll offset, in lines.
    pub scroll: u16,
    /// The edge the scroll offset is measured from.
    pub scroll_from: ScrollFrom,
    /// The filler character for rows scrolled past the content when
    /// anchored at the bottom.
    pub scroll_overflow_char: Option<char>,
    /// Horizontal alignment of each line.
    pub alignment: Alignment,
}

impl Paragraph {
    /// A paragraph over the given text with every knob at its
    /// default: no frame, default style, truncation, top anchor, no
    /// scroll, no overflow filler, left alignment.
    pub fn new(text: Vec<Text>) -> (p: Paragraph)
        ensures
            p == (Paragraph {
                block: None,
                style: Style { fg: 0, bg: 0, modifier: 0 },
                wrapping: false,
                text,
                raw: false,
                scroll: 0,
                scroll_from: ScrollFrom::Top,
                scroll_overflow_char: None,
                alignment: Alignment::Left,
            }),
    {
        Paragraph {
            block: None,
            style: Style { fg: 0, bg: 0, modifier: 0 },
            wrapping: false,
            text,
            raw: false,
            scroll: 0,
            scroll_from: ScrollFrom::Top,
            scroll_overflow_char: None,
            alignment: Alignment::Left,
        }
    }

    /// Wraps the paragraph in a decoration frame.
    pub fn block(self, block: Block) -> (p: Paragraph)
        ensures
            p == (Paragraph { block: Some(block), ..self }),
    {
        Paragraph { block: Some(block), ..self }
    }

    /// Sets the base style.
    pub fn style(self, style: Style) -> (p: Paragraph)
        ensures
            p == (Paragraph { style, ..self }),
    {
        Paragraph { style, ..self }
    }

    /// Chooses word wrapping (`true`) or truncation (`false`).
    pub fn wrap(self, flag: bool) -> (p: Paragraph)
        ensures
            p == (Paragraph { wrapping: flag, ..self }),
    {
        Paragraph { wrapping: flag, ..self }
    }

    /// Sets whether embedded commands are left uninterpreted.
    pub fn raw(self, flag: bool) -> (p: Paragraph)
        ensures
            p == (Paragraph { raw: flag, ..self }),
    {
        Paragraph { raw: flag, ..self }
    }

    /// Sets the scroll offset, in lines.
    pub fn scroll(self, offset: u16) -> (p: Paragraph)
        ensures
            p == (Paragraph { scroll: offset, ..self }),
    {
        Paragraph { scroll: offset, ..self }
    }

    /// Chooses the anchor the scroll offset is measured from.
    pub fn scroll_from(self, scroll_from: ScrollFrom) -> (p: Paragraph)
        ensures
            p == (Paragraph { scroll_from, ..self }),
    {
        Paragraph { scroll_from, ..self }
    }

    /// Sets the filler character for rows scrolled past the content
    /// under a bottom anchor; a top anchor ignores it and leaves such
    /// rows blank.
    pub fn scroll_overflow_char(self, scroll_overflow_char: Option<char>) -> (p: Paragraph)
        ensures
            p == (Paragraph { scroll_overflow_char, ..self }),
    {
        Paragraph { scroll_overflow_char, ..self }
    }

    /// Sets the horizontal alignment.
    pub fn alignment(self, alignment: Alignment) -> (p: Paragraph)
        ensures
            p == (Paragraph { alignment, ..self }),
    {
        Paragraph { alignment, ..self }
    }

    /// The composed lines of the paragraph's text at a given maximum
    /// width, for the configured strategy.
    pub open spec fn spec_lines(&self, max: int) -> Seq<Seq<GraphemeModel>> {
        let units = units_of_spans(self.text@, self.style);
        if self.wrapping {
            wrap_lines(units, max)
        } else {
            truncate_lines(units, max)
        }
    }

    /// The overflow filler symbol, as the characters written into a
    /// filler cell.
    pub open spec fn spec_overflow_symbol(&self) -> Seq<char> {
        match self.scroll_overflow_char {
            Some(c) => seq![c],
            None => Seq::empty(),
        }
    }

    /// The whole effect of a draw call on a buffer of width `bw`:
    /// inside the text area (the viewport less the frame) the
    /// background attribute is repainted and the visible rows are
    /// painted from the composed lines; every other cell is untouched.
    pub open spec fn draw_spec(&self, area: Rect, cells: Seq<CellModel>, bw: int) -> Seq<
        CellModel,
    > {
        let ta = match self.block {
            Some(b) => b.inner_spec(area),
            None => area,
        };
        if ta.height < 1 {
            cells
        } else {
            let filled = fill_bg_rows(cells, bw, ta, 0, self.style.bg);
            let lines = self.spec_lines(ta.width as int);
            let start = start_line_index(
                self.scroll_from,
                self.scroll_overflow_char is Some,
                lines.len() as int,
                ta.height as int,
                self.scroll as int,
            );
            paint_rows(filled, bw, ta, lines, start, self.spec_overflow_symbol(), self.alignment, 0)
        }
    }

    /// Renders the paragraph into the viewport `area` of `buf`.
    pub fn draw(&self, area: Rect, buf: &mut Buffer)
        requires
            old(buf).wf(),
            area.x + area.width <= old(buf).spec_width(),
            area.y + area.height <= old(buf).spec_height(),
        ensures
            final(buf).wf(),
            final(buf).spec_width() == old(buf).spec_width(),
            final(buf).spec_height() == old(buf).spec_height(),
            final(buf)@ == self.draw_spec(area, old(buf)@, old(buf).spec_width() as int),
    {
        let ta = match &self.block {
            Some(b) => b.inner(area),
            None => area,
        };
        if ta.height < 1 {
            return;
        }
        fill_background(buf, ta, self.style.bg);
        let units = styled_graphemes(&self.text, self.style);
        match self.scroll_from {
            ScrollFrom::Top => {
                if self.wrapping {
                    self.draw_top_wrapped(ta, buf, units);
                } else {
                    self.draw_top_truncated(ta, buf, units);
                }
            },
            ScrollFrom::Bottom => {
                self.draw_bottom(ta, buf, units);
            },
        }
    }

    /// Paints the rows of a top-anchored, word-wrapped draw: skips the
    /// first `scroll` composed lines, then streams one line per row.
    #[verifier::rlimit(100)]
    #[verifier::spinoff_prover]
    fn draw_top_wrapped(&self, ta: Rect, buf: &mut Buffer, units: Vec<StyledGrapheme>)
        requires
            old(buf).wf(),
            ta.x + ta.width <= old(buf).spec_width(),
            ta.y + ta.height <= old(buf).spec_height(),
            self.wrapping,
            self.scroll_from == ScrollFrom::Top,
            models_of(units@) == units_of_spans(self.text@, self.style),
        ensures
            final(buf).wf(),
            final(buf).spec_width() == old(buf).spec_width(),
            final(buf).spec_height() == old(buf).spec_height(),
            final(buf)@ == paint_rows(
                old(buf)@,
                old(buf).spec_width() as int,
                ta,
                self.spec_lines(ta.width as int),
                start_line_index(
                    self.scroll_from,
                    self.scroll_overflow_char is Some,
                    self.spec_lines(ta.width as int).len() as int,
                    ta.height as int,
                    self.scroll as int,
                ),
                self.spec_overflow_symbol(),
                self.alignment,
                0,
            ),
    {
        let ghost bw = buf.spec_width() as int;
        let ghost filled = buf@;
        let ghost linesm = self.spec_lines(ta.width as int);
        let ghost start = start_line_index(
            self.scroll_from,
            self.scroll_overflow_char is Some,
            linesm.len() as int,
            ta.height as int,
            self.scroll as int,
        );
        let ghost osym = self.spec_overflow_symbol();
        let mut c = WordWrapper::new(units, ta.width);
        proof {
            assert(c.lines() == linesm);
        }
        let ghost total = linesm.len() as int;
        let mut skipped: u16 = 0;
        while skipped < self.scroll
            invariant
                c.wf(),
                c.spec_max_width() == ta.width,
                0 <= skipped <= self.scroll,
                c.lines() =~= linesm.skip(
                    if skipped as int <= total {
                        skipped as int
                    } else {
                        total
                    },
                ),
                skipped as int > total ==> c.lines().len() == 0,
            decreases self.scroll - skipped,
        {
            let ghost k = if skipped as int <= total {
                skipped as int
            } else {
                total
            };
            match c.next_line() {
                Some(_) => {
                    proof {
                        assert(linesm.skip(k).skip(1) =~= linesm.skip(k + 1));
                        assert(k + 1 <= total);
                    }
                },
                None => {
                    proof {
                        assert(linesm.skip(k).len() == 0);
                    }
                },
            }
            skipped += 1;
        }
        let mut y: u16 = 0;
        while y < ta.height
            invariant
                c.wf(),
                c.spec_max_width() == ta.width,
                buf.wf(),
                buf.spec_width() == old(buf).spec_width(),
                buf.spec_height() == old(buf).spec_height(),
                ta.x + ta.width <= buf.spec_width(),
                ta.y + ta.height <= buf.spec_height(),
                0 <= y <= ta.height,
                c.lines() =~= linesm.skip(
                    if self.scroll as int + y as int <= total {
                        self.scroll as int + y as int
                    } else {
                        total
                    },
                ),
                paint_rows(buf@, bw, ta, linesm, start, osym, self.alignment, y as int)
                    == paint_rows(filled, bw, ta, linesm, start, osym, self.alignment, 0),
            decreases ta.height - y,
        {
            let ghost k = if self.scroll as int + y as int <= total {
                self.scroll as int + y as int
            } else {
                total
            };
            match c.next_line() {
                Some(l) => {
                    proof {
                        assert(k < total);
                        assert(l@ == linesm.skip(k)[0]);
                        assert(l@ == linesm[k]);
                        assert(row_source(start, total, y as int) == RowSource::Content(k));
                        assert(linesm.skip(k).skip(1) =~= linesm.skip(k + 1));
                    }
                    paint_line(buf, &l, ta, y, self.alignment);
                },
                None => {
                    proof {
                        assert(linesm.skip(k).len() == 0);
                        assert(k == total);
                        assert(row_source(start, total, y as int) == RowSource::Blank);
                    }
                },
            }
            y += 1;
        }
        proof {
            assert(paint_rows(buf@, bw, ta, linesm, start, osym, self.alignment, ta.height as int)
                == buf@);
        }
    }

    /// Paints the rows of a top-anchored, truncating draw: skips the
    /// first `scroll` composed lines, then streams one line per row.
    #[verifier::rlimit(100)]
    #[verifier::spinoff_prover]
    fn draw_top_truncated(&self, ta: Rect, buf: &mut Buffer, units: Vec<StyledGrapheme>)
        requires
            old(buf).wf(),
            ta.x + ta.width <= old(buf).spec_width(),
            ta.y + ta.height <= old(buf).spec_height(),
            !self.wrapping,
            self.scroll_from == ScrollFrom::Top,
            models_of(units@) == units_of_spans(self.text@, self.style),
        ensures
            final(buf).wf(),
            final(buf).spec_width() == old(buf).spec_width(),
            final(buf).spec_height() == old(buf).spec_height(),
            final(buf)@ == paint_rows(
                old(buf)@,
                old(buf).spec_width() as int,
                ta,
                self.spec_lines(ta.width as int),
                start_line_index(
                    self.scroll_from,
                    self.scroll_overflow_char is Some,
                    self.spec_lines(ta.width as int).len() as int,
                    ta.height as int,
                    self.scroll as int,
                ),
                self.spec_overflow_symbol(),
                self.alignment,
                0,
            ),
    {
        let ghost bw = buf.spec_width() as int;
        let ghost filled = buf@;
        let ghost linesm = self.spec_lines(ta.width as int);
        let ghost start = start_line_index(
            self.scroll_from,
            self.scroll_overflow_char is Some,
            linesm.len() as int,
            ta.height as int,
            self.scroll as int,
        );
        let ghost osym = self.spec_overflow_symbol();
        let mut c = LineTruncator::new(units, ta.width);
        proof {
            assert(c.lines() == linesm);
        }
        let ghost total = linesm.len() as int;
        let mut skipped: u16 = 0;
        while skipped < self.scroll
            invariant
                c.wf(),
                c.spec_max_width() == ta.width,
                0 <= skipped <= self.scroll,
                c.lines() =~= linesm.skip(
                    if skipped as int <= total {
                        skipped as int
                    } else {
                        total
                    },
                ),
                skipped as int > total ==> c.lines().len() == 0,
            decreases self.scroll - skipped,
        {
            let ghost k = if skipped as int <= total {
                skipped as int
            } else {
                total
            };
            match c.next_line() {
                Some(_) => {
                    proof {
                        assert(linesm.skip(k).skip(1) =~= linesm.skip(k + 1));
                        assert(k + 1 <= total);
                    }
                },
                None => {
                    proof {
                        assert(linesm.skip(k).len() == 0);
                    }
                },
            }
            skipped += 1;
        }
        let mut y: u16 = 0;
        while y < ta.height
            invariant
                c.wf(),
                c.spec_max_width() == ta.width,
                buf.wf(),
                buf.spec_width() == old(buf).spec_width(),
                buf.spec_height() == old(buf).spec_height(),
                ta.x + ta.width <= buf.spec_width(),
                ta.y + ta.height <= buf.spec_height(),
                0 <= y <= ta.height,
                c.lines() =~= linesm.skip(
                    if self.scroll as int + y as int <= total {
                        self.scroll as int + y as int
                    } else {
                        total
                    },
                ),
                paint_rows(buf@, bw, ta, linesm, start, osym, self.alignment, y as int)
                    == paint_rows(filled, bw, ta, linesm, start, osym, self.alignment, 0),
            decreases ta.height - y,
        {
            let ghost k = if self.scroll as int + y as int <= total {
                self.scroll as int + y as int
            } else {
                total
            };
            match c.next_line() {
                Some(l) => {
                    proof {
                        assert(k < total);
                        assert(l@ == linesm.skip(k)[0]);
                        assert(l@ == linesm[k]);
                        assert(row_source(start, total, y as int) == RowSource::Content(k));
                        assert(linesm.skip(k).skip(1) =~= linesm.skip(k + 1));
                    }
                    paint_line(buf, &l, ta, y, self.alignment);
                },
                None => {
                    proof {
                        assert(linesm.skip(k).len() == 0);
                        assert(k == total);
                        assert(row_source(start, total, y as int) == RowSource::Blank);
                    }
                },
            }
            y += 1;
        }
        proof {
            assert(paint_rows(buf@, bw, ta, linesm, start, osym, self.alignment, ta.height as int)
                == buf@);
        }
    }

    /// Paints the rows of a bottom-anchored draw: materializes every
    /// composed line, places the end of the content against the bottom
    /// of the viewport, and paints filler rows (overflow character,
    /// default style) where the scroll position reaches past the
    /// content.
    #[verifier::rlimit(100)]
    #[verifier::spinoff_prover]
    fn draw_bottom(&self, ta: Rect, buf: &mut Buffer, units: Vec<StyledGrapheme>)
        requires
            old(buf).wf(),
            ta.x + ta.width <= old(buf).spec_width(),
            ta.y + ta.height <= old(buf).spec_height(),
            self.scroll_from == ScrollFrom::Bottom,
            models_of(units@) == units_of_spans(self.text@, self.style),
        ensures
            final(buf).wf(),
            final(buf).spec_width() == old(buf).spec_width(),
            final(buf).spec_height() == old(buf).spec_height(),
            final(buf)@ == paint_rows(
                old(buf)@,
                old(buf).spec_width() as int,
                ta,
                self.spec_lines(ta.width as int),
                start_line_index(
                    self.scroll_from,
                    self.scroll_overflow_char is Some,
                    self.spec_lines(ta.width as int).len() as int,
                    ta.height as int,
                    self.scroll as int,
                ),
                self.spec_overflow_symbol(),
                self.alignment,
                0,
            ),
    {
        let ghost bw = buf.spec_width() as int;
        let ghost filled = buf@;
        let ghost linesm = self.spec_lines(ta.width as int);
        let ghost start = start_line_index(
            self.scroll_from,
            self.scroll_overflow_char is Some,
            linesm.len() as int,
            ta.height as int,
            self.scroll as int,
        );
        let ghost osym = self.spec_overflow_symbol();
        let all: Vec<ComposedLine> = if self.wrapping {
            let mut c = WordWrapper::new(units, ta.width);
            c.collect_lines()
        } else {
            let mut c = LineTruncator::new(units, ta.width);
            c.collect_lines()
        };
        proof {
            assert(lines_of(all@) == linesm);
        }
        let total = all.len();
        // filler rows stand where the start index is negative
        let (fillers, start_u): (u16, usize) = match self.scroll_overflow_char {
            None => {
                if total <= ta.height as usize + self.scroll as usize {
                    (0, 0)
                } else {
                    (0, total - ta.height as usize - self.scroll as usize)
                }
            },
            Some(_) => {
                if total <= ta.height as usize {
                    let f: u16 = if self.scroll < ta.height {
                        self.scroll
                    } else {
                        ta.height
                    };
                    (f, 0)
                } else if total < ta.height as usize + self.scroll as usize {
                    let neg: usize = ta.height as usize + self.scroll as usize - total;
                    let f: u16 = if neg < ta.height as usize {
                        neg as u16
                    } else {
                        ta.height
                    };
                    (f, 0)
                } else {
                    (0, total - ta.height as usize - self.scroll as usize)
                }
            },
        };
        proof {
            assert(total as int == linesm.len());
            assert(fillers as int == if start < 0 {
                if -start < ta.height as int {
                    -start
                } else {
                    ta.height as int
                }
            } else {
                0
            });
            assert(start_u as int == if start < 0 {
                0
            } else {
                start
            });
        }
        let filler_sym: Option<String> = match self.scroll_overflow_char {
            Some(ch) => Some(char_to_string(ch)),
            None => None,
        };
        let mut y: u16 = 0;
        while y < ta.height
            invariant
                buf.wf(),
                buf.spec_width() == old(buf).spec_width(),
                buf.spec_height() == old(buf).spec_height(),
                ta.x + ta.width <= buf.spec_width(),
                ta.y + ta.height <= buf.spec_height(),
                0 <= y <= ta.height,
                total == all@.len(),
                lines_of(all@) == linesm,
                forall|k: int| 0 <= k < all@.len() ==> (#[trigger] all@[k]).wf()
                    && all@[k].width <= ta.width,
                fillers as int == if start < 0 {
                    if -start < ta.height as int {
                        -start
                    } else {
                        ta.height as int
                    }
                } else {
                    0
                },
                start_u as int == if start < 0 {
                    0
                } else {
                    start
                },
                fillers > 0 ==> filler_sym is Some,
                filler_sym matches Some(fs) ==> fs@ == osym,
                paint_rows(buf@, bw, ta, linesm, start, osym, self.alignment, y as int)
                    == paint_rows(filled, bw, ta, linesm, start, osym, self.alignment, 0),
            decreases ta.height - y,
        {
            if y < fillers {
                proof {
                    assert(row_source(start, linesm.len() as int, y as int)
                        == RowSource::Filler);
                }
                if ta.width > 0 {
                    match &filler_sym {
                        Some(s) => {
                            buf.set_cell(
                                ta.x,
                                ta.y + y,
                                s.as_str(),
                                Style { fg: 0, bg: 0, modifier: 0 },
                            );
                        },
                        None => {
                            proof {
                                assert(false);
                            }
                        },
                    }
                }
            } else {
                let li: usize = start_u + (y - fillers) as usize;
                proof {
                    assert(start + y as int == li as int);
                }
                if li < total {
                    proof {
                        assert(row_source(start, linesm.len() as int, y as int)
                            == RowSource::Content(li as int));
                        assert(all@[li as int]@ == linesm[li as int]);
                    }
                    paint_line(buf, &all[li], ta, y, self.alignment);
                } else {
                    proof {
                        assert(row_source(start, linesm.len() as int, y as int)
                            == RowSource::Blank);
                    }
                }
            }
            y += 1;
        }
        proof {
            assert(paint_rows(buf@, bw, ta, linesm, start, osym, self.alignment, ta.height as int)
                == buf@);
        }
    }
}

} // verus!
