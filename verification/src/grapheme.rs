//! The styled grapheme stream.
//!
//! Span text is segmented into extended grapheme clusters, and each
//! cluster is paired with its span's style and with its display width in
//! terminal columns. Everything downstream (composition, painting) works
//! on these plain units and never touches the segmentation or width
//! tables again.

use vstd::prelude::*;
use vstd::string::StrSliceExecFns;
use unicode_segmentation::UnicodeSegmentation;
use unicode_width::UnicodeWidthStr;
use crate::style::{Style, Text};

verus! {

/// The grapheme clusters of a string, in order. Segmentation is a
/// function of the characters alone.
pub uninterp spec fn graphemes_of(s: Seq<char>) -> Seq<Seq<char>>;

/// The display width, in terminal columns, of a string. A function of
/// the characters alone.
pub uninterp spec fn display_width_of(s: Seq<char>) -> nat;

/// Relies on unicode_segmentation's `UnicodeSegmentation::graphemes`
/// with extended cluster boundaries: splits a string into its grapheme
/// clusters; an empty string has none.
#[verifier::external_body]
fn split_graphemes(s: &str) -> (r: Vec<String>)
    ensures
        r.deep_view() == graphemes_of(s@),
        s@.len() == 0 ==> r.deep_view().len() == 0,
{
    UnicodeSegmentation::graphemes(s, true).map(|g| g.to_string()).collect()
}

/// Relies on unicode_width's `UnicodeWidthStr::width`: the displayed
/// column count of a string, a function of its characters alone; an
/// empty string has width 0.
#[verifier::external_body]
fn str_display_width(s: &str) -> (r: usize)
    ensures
        r as nat == display_width_of(s@),
        s@.len() == 0 ==> r == 0,
{
    UnicodeWidthStr::width(s)
}

/// The mathematical content of one styled grapheme unit.
pub ghost struct GraphemeModel {
    pub symbol: Seq<char>,
    pub width: nat,
    pub style: Style,
}

/// One user-perceived character paired with its display width and style.
/// Units are never split or merged once produced.
pub struct StyledGrapheme {
    pub symbol: String,
    pub width: usize,
    pub style: Style,
}

impl View for StyledGrapheme {
    type V = GraphemeModel;

    open spec fn view(&self) -> GraphemeModel {
        GraphemeModel { symbol: self.symbol@, width: self.width as nat, style: self.style }
    }
}

impl StyledGrapheme {
    /// A copy of the unit with the same symbol, width and style.
    pub fn duplicate(&self) -> (r: StyledGrapheme)
        ensures
            r@ == self@,
    {
        StyledGrapheme { symbol: self.symbol.clone(), width: self.width, style: self.style }
    }
}

/// The whitespace characters the word wrapper breaks words at.
pub open spec fn is_ws_char(c: char) -> bool {
    c == ' ' || c == '\t' || c == '\r' || c == '\n' || c == '\u{b}' || c == '\u{c}'
}

/// A unit that ends the logical line: exactly the single character `'\n'`.
pub open spec fn is_newline(g: GraphemeModel) -> bool {
    g.symbol =~= seq!['\n']
}

/// A non-empty unit made of whitespace characters only.
pub open spec fn is_white(g: GraphemeModel) -> bool {
    &&& g.symbol.len() > 0
    &&& forall|i: int| 0 <= i < g.symbol.len() ==> is_ws_char(#[trigger] g.symbol[i])
}

/// Decides whether a unit is the newline unit.
pub fn grapheme_is_newline(g: &StyledGrapheme) -> (b: bool)
    ensures
        b == is_newline(g@),
{
    let s: &str = g.symbol.as_str();
    if s.unicode_len() == 1 {
        let c = s.get_char(0);
        proof {
            if c == '\n' {
                assert(g@.symbol =~= seq!['\n']);
            } else {
                assert(g@.symbol[0] != '\n');
            }
        }
        c == '\n'
    } else {
        proof {
            assert(g@.symbol.len() != 1);
        }
        false
    }
}

/// Decides whether a unit consists of whitespace characters only.
pub fn grapheme_is_whitespace(g: &StyledGrapheme) -> (b: bool)
    ensures
        b == is_white(g@),
{
    let s: &str = g.symbol.as_str();
    let n = s.unicode_len();
    if n == 0 {
        return false;
    }
    let mut i: usize = 0;
    while i < n
        invariant
            n == s@.len(),
            s@ == g@.symbol,
            0 <= i <= n,
            forall|j: int| 0 <= j < i ==> is_ws_char(#[trigger] s@[j]),
        decreases n - i,
    {
        let c = s.get_char(i);
        if !(c == ' ' || c == '\t' || c == '\r' || c == '\n' || c == '\u{b}' || c == '\u{c}') {
            assert(!is_ws_char(g@.symbol[i as int]));
            return false;
        }
        i += 1;
    }
    true
}

/// The models of a sequence of units.
pub open spec fn models_of(s: Seq<StyledGrapheme>) -> Seq<GraphemeModel> {
    s.map_values(|g: StyledGrapheme| g@)
}

pub proof fn lemma_models_of_push(s: Seq<StyledGrapheme>, g: StyledGrapheme)
    ensures
        models_of(s.push(g)) =~= models_of(s).push(g@),
{
    assert forall|i: int| 0 <= i < s.len() + 1 implies models_of(s.push(g))[i] == models_of(
        s,
    ).push(g@)[i] by {
        if i < s.len() {
            assert(s.push(g)[i] == s[i]);
        } else {
            assert(s.push(g)[i] == g);
        }
    }
}

pub proof fn lemma_models_of_concat(a: Seq<StyledGrapheme>, b: Seq<StyledGrapheme>)
    ensures
        models_of(a + b) =~= models_of(a) + models_of(b),
{
    assert forall|i: int| 0 <= i < a.len() + b.len() implies models_of(a + b)[i] == (models_of(a)
        + models_of(b))[i] by {
        if i < a.len() {
            assert((a + b)[i] == a[i]);
        } else {
            assert((a + b)[i] == b[i - a.len()]);
        }
    }
}

/// The unit a grapheme cluster of a span contributes to the stream.
pub open spec fn unit_of(sym: Seq<char>, st: Style) -> GraphemeModel {
    GraphemeModel { symbol: sym, width: display_width_of(sym), style: st }
}

/// The units one span contributes: its grapheme clusters in order, each
/// with the span's style.
pub open spec fn units_of_span(t: Text, default_style: Style) -> Seq<GraphemeModel> {
    graphemes_of(t.spec_content()).map_values(
        |sym: Seq<char>| unit_of(sym, t.spec_style(default_style)),
    )
}

/// The units of a whole span sequence, in span order.
pub open spec fn units_of_spans(ts: Seq<Text>, default_style: Style) -> Seq<GraphemeModel>
    decreases ts.len(),
{
    if ts.len() == 0 {
        Seq::empty()
    } else {
        units_of_span(ts[0], default_style) + units_of_spans(ts.skip(1), default_style)
    }
}

proof fn lemma_units_of_spans_push(ts: Seq<Text>, t: Text, default_style: Style)
    ensures
        units_of_spans(ts.push(t), default_style) =~= units_of_spans(ts, default_style)
            + units_of_span(t, default_style),
    decreases ts.len(),
{
    let lhs = units_of_spans(ts.push(t), default_style);
    assert(ts.push(t).len() == ts.len() + 1);
    assert(lhs == units_of_span(ts.push(t)[0], default_style) + units_of_spans(
        ts.push(t).skip(1),
        default_style,
    ));
    if ts.len() == 0 {
        assert(ts.push(t)[0] == t);
        assert(ts.push(t).skip(1) =~= Seq::<Text>::empty());
        assert(units_of_spans(Seq::<Text>::empty(), default_style)
            == Seq::<GraphemeModel>::empty());
        assert(units_of_spans(ts, default_style) == Seq::<GraphemeModel>::empty());
    } else {
        assert(ts.push(t).skip(1) =~= ts.skip(1).push(t));
        lemma_units_of_spans_push(ts.skip(1), t, default_style);
        assert(ts.push(t)[0] == ts[0]);
        assert(lhs == units_of_span(ts[0], default_style) + (units_of_spans(
            ts.skip(1),
            default_style,
        ) + units_of_span(t, default_style)));
        assert(units_of_spans(ts, default_style) == units_of_span(ts[0], default_style)
            + units_of_spans(ts.skip(1), default_style));
    }
}

/// Converts spans into the linear stream of styled grapheme units, in
/// span order, each unit carrying its owning span's style (or the given
/// default for plain spans) and its display width.
pub fn styled_graphemes(texts: &Vec<Text>, default_style: Style) -> (r: Vec<StyledGrapheme>)
    ensures
        models_of(r@) == units_of_spans(texts@, default_style),
{
    let mut out: Vec<StyledGrapheme> = Vec::new();
    let mut ti: usize = 0;
    proof {
        assert(texts@.take(0) =~= Seq::<Text>::empty());
        assert(models_of(out@) =~= units_of_spans(texts@.take(0), default_style));
    }
    while ti < texts.len()
        invariant
            0 <= ti <= texts@.len(),
            models_of(out@) == units_of_spans(texts@.take(ti as int), default_style),
        decreases texts@.len() - ti,
    {
        let t = &texts[ti];
        let st = match t {
            Text::Raw(_) => default_style,
            Text::Styled(_, s2) => *s2,
        };
        let content: &String = match t {
            Text::Raw(s1) => s1,
            Text::Styled(s1, _) => s1,
        };
        let syms = split_graphemes(content.as_str());
        let ghost span_units = units_of_span(texts@[ti as int], default_style);
        proof {
            assert(span_units.len() == syms.deep_view().len());
            assert forall|k: int| 0 <= k < span_units.len() implies span_units[k] == unit_of(
                syms@[k]@,
                st,
            ) by {
                assert(graphemes_of(texts@[ti as int].spec_content())[k] == syms.deep_view()[k]);
            }
        }
        let mut span_vec: Vec<StyledGrapheme> = Vec::new();
        let mut gi: usize = 0;
        while gi < syms.len()
            invariant
                0 <= gi <= syms@.len(),
                span_units.len() == syms@.len(),
                forall|k: int| 0 <= k < syms@.len() ==> span_units[k] == unit_of(
                    syms@[k]@,
                    st,
                ),
                models_of(span_vec@) == span_units.take(gi as int),
            decreases syms@.len() - gi,
        {
            let sym = syms[gi].clone();
            let w = str_display_width(sym.as_str());
            let unit = StyledGrapheme { symbol: sym, width: w, style: st };
            proof {
                assert(unit@ == span_units[gi as int]);
            }
            let ghost prev = span_vec@;
            span_vec.push(unit);
            proof {
                lemma_models_of_push(prev, unit);
                assert(models_of(span_vec@) =~= span_units.take(gi + 1));
            }
            gi += 1;
        }
        proof {
            assert(span_units.take(span_units.len() as int) =~= span_units);
            lemma_models_of_concat(out@, span_vec@);
            lemma_units_of_spans_push(texts@.take(ti as int), texts@[ti as int], default_style);
            assert(texts@.take(ti + 1) =~= texts@.take(ti as int).push(texts@[ti as int]));
        }
        let mut span_vec = span_vec;
        out.append(&mut span_vec);
        ti += 1;
    }
    proof {
        assert(texts@.take(texts@.len() as int) =~= texts@);
    }
    out
}

} // verus!
