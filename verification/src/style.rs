//! Styles and text spans.
//!
//! A `Style` is an opaque attribute bundle: the engine copies it from a
//! span to every grapheme the span contains and from there into grid
//! cells, but never interprets it beyond reading the background attribute
//! when filling the text area.

use vstd::prelude::*;

verus! {

/// An attribute bundle attached to text: foreground, background and
/// modifier attributes, each an opaque code chosen by the caller.
#[derive(Clone, Copy, PartialEq, Eq, Structural, Debug)]
pub struct Style {
    pub fg: u8,
    pub bg: u8,
    pub modifier: u16,
}

impl Default for Style {
    fn default() -> (s: Style)
        ensures
            s == (Style { fg: 0, bg: 0, modifier: 0 }),
    {
        Style { fg: 0, bg: 0, modifier: 0 }
    }
}

/// One unit of input text: either plain (painted with the paragraph's
/// base style) or carrying an explicit style of its own.
pub enum Text {
    Raw(String),
    Styled(String, Style),
}

impl Text {
    /// The characters of the span.
    pub open spec fn spec_content(&self) -> Seq<char> {
        match self {
            Text::Raw(s) => s@,
            Text::Styled(s, _) => s@,
        }
    }

    /// The style the span's graphemes carry, given the paragraph's base style.
    pub open spec fn spec_style(&self, default_style: Style) -> Style {
        match self {
            Text::Raw(_) => default_style,
            Text::Styled(_, st) => *st,
        }
    }
}

} // verus!
