//! Viewport geometry, alignment and scroll anchoring.

use vstd::prelude::*;

verus! {

/// The target rectangle of a draw: origin column/row plus width and
/// height, in cells. A height or width of zero is a valid no-op.
#[derive(Clone, Copy, PartialEq, Eq, Structural, Debug)]
pub struct Rect {
    pub x: u16,
    pub y: u16,
    pub width: u16,
    pub height: u16,
}

/// Horizontal placement of a composed line inside the viewport width.
#[derive(Clone, Copy, PartialEq, Eq, Structural, Debug)]
pub enum Alignment {
    Left,
    Center,
    Right,
}

/// The edge of the content from which the scroll offset is measured.
#[derive(Clone, Copy, PartialEq, Eq, Structural, Debug)]
pub enum ScrollFrom {
    Top,
    Bottom,
}

/// The start column of a line of width `line_width` inside a viewport of
/// width `text_area_width`: 0 for `Left`, flush right for `Right`, and
/// centered by halves for `Center`, saturating at 0 when the line is
/// wider than the viewport.
pub open spec fn spec_line_offset(line_width: int, text_area_width: int, alignment: Alignment) -> int {
    match alignment {
        Alignment::Left => 0,
        Alignment::Center => if text_area_width / 2 >= line_width / 2 {
            text_area_width / 2 - line_width / 2
        } else {
            0
        },
        Alignment::Right => if text_area_width >= line_width {
            text_area_width - line_width
        } else {
            0
        },
    }
}

/// A line no wider than the viewport, placed at its alignment offset,
/// ends at or before the viewport's right edge.
pub proof fn lemma_line_offset_fits(line_width: int, text_area_width: int, alignment: Alignment)
    requires
        0 <= line_width <= text_area_width,
    ensures
        0 <= spec_line_offset(line_width, text_area_width, alignment),
        spec_line_offset(line_width, text_area_width, alignment) + line_width <= text_area_width,
{
    match alignment {
        Alignment::Left => {
        },
        Alignment::Center => {
            assert(text_area_width / 2 - line_width / 2 + line_width <= text_area_width) by (nonlinear_arith)
                requires
                    0 <= line_width <= text_area_width,
            ;
        },
        Alignment::Right => {
        },
    }
}

/// Computes the column at which a line of the given width starts.
pub fn get_line_offset(line_width: u16, text_area_width: u16, alignment: Alignment) -> (r: u16)
    ensures
        r as int == spec_line_offset(line_width as int, text_area_width as int, alignment),
        r <= text_area_width,
{
    match alignment {
        Alignment::Left => 0,
        Alignment::Center => {
            let half_area: u16 = text_area_width / 2;
            let half_line: u16 = line_width / 2;
            if half_area >= half_line {
                half_area - half_line
            } else {
                0
            }
        },
        Alignment::Right => {
            if text_area_width >= line_width {
                text_area_width - line_width
            } else {
                0
            }
        },
    }
}

} // verus!
