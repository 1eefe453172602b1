//! Line composition: turning the grapheme stream into display lines
//! bounded by a maximum width.
//!
//! Two strategies compose lines. `LineTruncator` breaks only at newline
//! units and discards everything that does not fit. `WordWrapper`
//! breaks at whitespace boundaries, trims trailing whitespace at a wrap
//! boundary, and hard-splits a word that alone exceeds the maximum
//! width. Both are forward-only: each `next_line` call consumes units
//! from an internal cursor and yields the next composed line.
//!
//! Units wider than the whole maximum width can never fit on any line;
//! both strategies discard them up front, and a maximum width of zero
//! yields no lines at all.

use vstd::prelude::*;
use crate::grapheme::{
    GraphemeModel, StyledGrapheme, is_newline, is_white, models_of, grapheme_is_newline,
    grapheme_is_whitespace, lemma_models_of_push,
};

verus! {

/// The total display width of a run of units.
pub open spec fn width_sum(units: Seq<GraphemeModel>) -> int
    decreases units.len(),
{
    if units.len() == 0 {
        0
    } else {
        width_sum(units.drop_last()) + units.last().width
    }
}

pub proof fn lemma_width_sum_push(s: Seq<GraphemeModel>, u: GraphemeModel)
    ensures
        width_sum(s.push(u)) == width_sum(s) + u.width,
{
    assert(s.push(u).drop_last() =~= s);
    assert(s.push(u).last() == u);
}

pub proof fn lemma_width_sum_nonneg(s: Seq<GraphemeModel>)
    ensures
        width_sum(s) >= 0,
    decreases s.len(),
{
    if s.len() > 0 {
        lemma_width_sum_nonneg(s.drop_last());
    }
}

pub proof fn lemma_width_sum_singleton(u: GraphemeModel)
    ensures
        width_sum(seq![u]) == u.width,
{
    let s = seq![u];
    assert(s.len() == 1);
    assert(s.last() == u);
    assert(width_sum(s) == width_sum(s.drop_last()) + u.width);
    assert(s.drop_last().len() == 0);
    assert(width_sum(s.drop_last()) == 0);
}

pub proof fn lemma_width_sum_concat(a: Seq<GraphemeModel>, b: Seq<GraphemeModel>)
    ensures
        width_sum(a + b) == width_sum(a) + width_sum(b),
    decreases b.len(),
{
    if b.len() == 0 {
        assert(a + b =~= a);
    } else {
        lemma_width_sum_concat(a, b.drop_last());
        assert((a + b).drop_last() =~= a + b.drop_last());
        assert((a + b).last() == b.last());
        assert(width_sum(a + b) == width_sum(a + b.drop_last()) + b.last().width);
    }
}

/// The stream with every unit wider than the whole line removed.
pub open spec fn drop_wide(units: Seq<GraphemeModel>, max: int) -> Seq<GraphemeModel>
    decreases units.len(),
{
    if units.len() == 0 {
        Seq::empty()
    } else {
        let rest = drop_wide(units.drop_last(), max);
        if units.last().width <= max {
            rest.push(units.last())
        } else {
            rest
        }
    }
}

pub proof fn lemma_drop_wide_widths(units: Seq<GraphemeModel>, max: int)
    ensures
        forall|j: int| 0 <= j < drop_wide(units, max).len() ==> #[trigger] drop_wide(
            units,
            max,
        )[j].width <= max,
    decreases units.len(),
{
    if units.len() > 0 {
        lemma_drop_wide_widths(units.drop_last(), max);
        let rest = drop_wide(units.drop_last(), max);
        let whole = drop_wide(units, max);
        assert forall|j: int| 0 <= j < whole.len() implies #[trigger] whole[j].width <= max by {
            if units.last().width <= max {
                assert(whole == rest.push(units.last()));
                if j < rest.len() {
                    assert(whole[j] == rest[j]);
                } else {
                    assert(whole[j] == units.last());
                }
            } else {
                assert(whole == rest);
            }
        }
    }
}

/// A line with its trailing whitespace removed, as happens at a wrap
/// boundary.
pub open spec fn trim_end(line: Seq<GraphemeModel>) -> Seq<GraphemeModel>
    decreases line.len(),
{
    if line.len() == 0 {
        line
    } else if is_white(line.last()) {
        trim_end(line.drop_last())
    } else {
        line
    }
}

/// The first position after the newline unit at or after `k`, or the
/// end of the stream if none remains.
pub open spec fn after_newline(units: Seq<GraphemeModel>, k: int) -> int
    decreases units.len() - k,
{
    if k < 0 || k >= units.len() {
        units.len() as int
    } else if is_newline(units[k]) {
        k + 1
    } else {
        after_newline(units, k + 1)
    }
}

pub proof fn lemma_after_newline_bounds(units: Seq<GraphemeModel>, k: int)
    requires
        0 <= k <= units.len(),
    ensures
        k <= after_newline(units, k) <= units.len(),
    decreases units.len() - k,
{
    if k < units.len() && !is_newline(units[k]) {
        lemma_after_newline_bounds(units, k + 1);
    }
}

/// The truncator's scan for one line, beginning at position `k` with
/// the partial line `cur` of width `cur_w` already accepted: consume
/// units until a newline ends the line, or until the next unit would
/// push the width past `max`, in which case the rest of the logical
/// line is discarded. Returns the composed line and the position where
/// the next scan resumes, or `None` when the stream is exhausted with
/// nothing pending.
pub open spec fn trunc_first_from(
    units: Seq<GraphemeModel>,
    max: int,
    k: int,
    cur: Seq<GraphemeModel>,
    cur_w: int,
) -> Option<(Seq<GraphemeModel>, int)>
    decreases units.len() - k,
{
    if k < 0 || k >= units.len() {
        if cur.len() > 0 {
            Some((cur, units.len() as int))
        } else {
            None
        }
    } else {
        let u = units[k];
        if is_newline(u) {
            Some((cur, k + 1))
        } else if cur_w + u.width > max {
            Some((cur, after_newline(units, k + 1)))
        } else {
            trunc_first_from(units, max, k + 1, cur.push(u), cur_w + u.width)
        }
    }
}

pub open spec fn trunc_first(units: Seq<GraphemeModel>, max: int) -> Option<
    (Seq<GraphemeModel>, int),
> {
    trunc_first_from(units, max, 0, Seq::empty(), 0)
}

pub proof fn lemma_trunc_first_consumed(
    units: Seq<GraphemeModel>,
    max: int,
    k: int,
    cur: Seq<GraphemeModel>,
    cur_w: int,
)
    requires
        0 <= k <= units.len(),
        cur.len() <= k,
    ensures
        match trunc_first_from(units, max, k, cur, cur_w) {
            Some((l, c)) => 1 <= c <= units.len(),
            None => true,
        },
    decreases units.len() - k,
{
    if k >= units.len() {
        if cur.len() > 0 {
            assert(units.len() >= cur.len() >= 1);
        }
    } else {
        let u = units[k];
        if is_newline(u) {
        } else if cur_w + u.width > max {
            lemma_after_newline_bounds(units, k + 1);
        } else {
            lemma_trunc_first_consumed(units, max, k + 1, cur.push(u), cur_w + u.width);
        }
    }
}

/// The lines the truncator composes from a (pre-filtered) stream.
pub open spec fn trunc_iter(units: Seq<GraphemeModel>, max: int) -> Seq<Seq<GraphemeModel>>
    decreases units.len(),
{
    match trunc_first(units, max) {
        None => Seq::empty(),
        Some((l, c)) => if 1 <= c <= units.len() {
            seq![l] + trunc_iter(units.skip(c), max)
        } else {
            seq![l]
        },
    }
}

proof fn lemma_trunc_iter_step(rem: Seq<GraphemeModel>, max: int, l: Seq<GraphemeModel>, c: int)
    requires
        trunc_first(rem, max) == Some((l, c)),
        1 <= c <= rem.len(),
    ensures
        trunc_iter(rem, max).len() > 0,
        trunc_iter(rem, max)[0] == l,
        trunc_iter(rem, max).skip(1) =~= trunc_iter(rem.skip(c), max),
{
    assert(trunc_iter(rem, max) == seq![l] + trunc_iter(rem.skip(c), max));
}

/// All lines the truncation strategy yields for a stream at a maximum
/// width: units wider than the whole line are discarded first, and a
/// zero maximum width yields nothing.
pub open spec fn truncate_lines(units: Seq<GraphemeModel>, max: int) -> Seq<Seq<GraphemeModel>> {
    if max <= 0 {
        Seq::empty()
    } else {
        trunc_iter(drop_wide(units, max), max)
    }
}

pub proof fn lemma_width_sum_split(s: Seq<GraphemeModel>, a: int, b: int, c: int)
    requires
        0 <= a <= b <= c <= s.len(),
    ensures
        width_sum(s.subrange(a, c)) == width_sum(s.subrange(a, b)) + width_sum(s.subrange(b, c)),
    decreases c - b,
{
    if c == b {
        assert(s.subrange(b, c) =~= Seq::<GraphemeModel>::empty());
        assert(s.subrange(a, c) =~= s.subrange(a, b));
    } else {
        lemma_width_sum_split(s, a, b, c - 1);
        assert(s.subrange(a, c).drop_last() =~= s.subrange(a, c - 1));
        assert(s.subrange(b, c).drop_last() =~= s.subrange(b, c - 1));
        assert(s.subrange(a, c).last() == s[c - 1]);
        assert(s.subrange(b, c).last() == s[c - 1]);
    }
}

/// The number of units of `word`, counted from position `j` with width
/// `w` already used, that still fit within `max`: the hard-split point
/// for a word that alone exceeds the line width.
pub open spec fn chunk_len_from(word: Seq<GraphemeModel>, max: int, j: int, w: int) -> int
    decreases word.len() - j,
{
    if j < 0 || j >= word.len() {
        if j < 0 {
            0
        } else {
            j
        }
    } else if w + word[j].width > max {
        j
    } else {
        chunk_len_from(word, max, j + 1, w + word[j].width)
    }
}

/// The widest prefix of a word that fits on one line of width `max`.
pub open spec fn chunk_of(word: Seq<GraphemeModel>, max: int) -> Seq<GraphemeModel> {
    word.take(chunk_len_from(word, max, 0, 0))
}

proof fn lemma_chunk_len_bounds(word: Seq<GraphemeModel>, max: int, j: int, w: int)
    requires
        0 <= j <= word.len(),
    ensures
        j <= chunk_len_from(word, max, j, w) <= word.len(),
    decreases word.len() - j,
{
    if j < word.len() && !(w + word[j].width > max) {
        lemma_chunk_len_bounds(word, max, j + 1, w + word[j].width);
    }
}

/// The word wrapper's scan for one line, beginning at position `i`.
/// `cur` (of width `cur_w`) holds the line content accepted so far and
/// `units[ws..i]` is the pending word. A whitespace unit flushes the
/// pending word onto the line if it fits (the whitespace itself is kept
/// only if it also fits); a newline flushes and force-ends the line; a
/// word that does not fit either ends the line at its current content
/// (trimming trailing whitespace, the scan resuming at the word's first
/// unit) or, when the line is empty, is hard-split at the width
/// boundary. The stream running out flushes and yields any pending
/// content as a final line.
pub open spec fn wrap_first_from(
    units: Seq<GraphemeModel>,
    max: int,
    i: int,
    cur: Seq<GraphemeModel>,
    cur_w: int,
    ws: int,
) -> Option<(Seq<GraphemeModel>, int)>
    decreases units.len() - i,
{
    let word = units.subrange(ws, i);
    let word_w = width_sum(word);
    if i < 0 || i >= units.len() {
        if cur_w + word_w <= max {
            if cur.len() + word.len() > 0 {
                Some((cur + word, units.len() as int))
            } else {
                None
            }
        } else if cur.len() > 0 {
            Some((trim_end(cur), ws))
        } else {
            Some((chunk_of(word, max), ws + chunk_len_from(word, max, 0, 0)))
        }
    } else {
        let u = units[i];
        if is_newline(u) {
            if cur_w + word_w <= max {
                Some((cur + word, i + 1))
            } else if cur.len() > 0 {
                Some((trim_end(cur), ws))
            } else {
                Some((chunk_of(word, max), ws + chunk_len_from(word, max, 0, 0)))
            }
        } else if is_white(u) {
            if cur_w + word_w <= max {
                if cur_w + word_w + u.width <= max {
                    wrap_first_from(
                        units,
                        max,
                        i + 1,
                        cur + word + seq![u],
                        cur_w + word_w + u.width,
                        i + 1,
                    )
                } else {
                    wrap_first_from(units, max, i + 1, cur + word, cur_w + word_w, i + 1)
                }
            } else if cur.len() > 0 {
                Some((trim_end(cur), ws))
            } else {
                Some((chunk_of(word, max), ws + chunk_len_from(word, max, 0, 0)))
            }
        } else {
            wrap_first_from(units, max, i + 1, cur, cur_w, ws)
        }
    }
}

pub open spec fn wrap_first(units: Seq<GraphemeModel>, max: int) -> Option<
    (Seq<GraphemeModel>, int),
> {
    wrap_first_from(units, max, 0, Seq::empty(), 0, 0)
}

/// The lines the word wrapper composes from a (pre-filtered) stream.
pub open spec fn wrap_iter(units: Seq<GraphemeModel>, max: int) -> Seq<Seq<GraphemeModel>>
    decreases units.len(),
{
    match wrap_first(units, max) {
        None => Seq::empty(),
        Some((l, c)) => if 1 <= c <= units.len() {
            seq![l] + wrap_iter(units.skip(c), max)
        } else {
            seq![l]
        },
    }
}

/// All lines the word-wrap strategy yields for a stream at a maximum
/// width: units wider than the whole line are discarded first, and a
/// zero maximum width yields nothing.
pub open spec fn wrap_lines(units: Seq<GraphemeModel>, max: int) -> Seq<Seq<GraphemeModel>> {
    if max <= 0 {
        Seq::empty()
    } else {
        wrap_iter(drop_wide(units, max), max)
    }
}

proof fn lemma_wrap_iter_step(rem: Seq<GraphemeModel>, max: int, l: Seq<GraphemeModel>, c: int)
    requires
        wrap_first(rem, max) == Some((l, c)),
        1 <= c <= rem.len(),
    ensures
        wrap_iter(rem, max).len() > 0,
        wrap_iter(rem, max)[0] == l,
        wrap_iter(rem, max).skip(1) =~= wrap_iter(rem.skip(c), max),
{
    assert(wrap_iter(rem, max) == seq![l] + wrap_iter(rem.skip(c), max));
}

/// A composed display line: an ordered run of grapheme units together
/// with its precomputed total display width.
pub struct ComposedLine {
    pub units: Vec<StyledGrapheme>,
    pub width: usize,
}

impl View for ComposedLine {
    type V = Seq<GraphemeModel>;

    open spec fn view(&self) -> Seq<GraphemeModel> {
        models_of(self.units@)
    }
}

impl ComposedLine {
    /// The stored width always equals the sum of the units' widths.
    pub open spec fn wf(&self) -> bool {
        self.width as int == width_sum(self@)
    }
}

/// The models of a sequence of composed lines.
pub open spec fn lines_of(s: Seq<ComposedLine>) -> Seq<Seq<GraphemeModel>> {
    s.map_values(|l: ComposedLine| l@)
}

pub proof fn lemma_lines_of_push(s: Seq<ComposedLine>, l: ComposedLine)
    ensures
        lines_of(s.push(l)) =~= lines_of(s).push(l@),
{
    assert forall|i: int| 0 <= i < s.len() + 1 implies lines_of(s.push(l))[i] == lines_of(s).push(
        l@,
    )[i] by {
        if i < s.len() {
            assert(s.push(l)[i] == s[i]);
        } else {
            assert(s.push(l)[i] == l);
        }
    }
}

/// Keeps only the units narrow enough to ever fit on a line.
fn filter_wide(units: Vec<StyledGrapheme>, max_width: u16) -> (r: Vec<StyledGrapheme>)
    ensures
        models_of(r@) == drop_wide(models_of(units@), max_width as int),
        forall|j: int| 0 <= j < r@.len() ==> (#[trigger] r@[j])@.width <= max_width,
{
    let mut out: Vec<StyledGrapheme> = Vec::new();
    let mut i: usize = 0;
    proof {
        assert(models_of(units@).take(0) =~= Seq::<GraphemeModel>::empty());
        assert(models_of(out@) =~= drop_wide(models_of(units@).take(0), max_width as int));
    }
    while i < units.len()
        invariant
            0 <= i <= units@.len(),
            models_of(out@) == drop_wide(models_of(units@).take(i as int), max_width as int),
            forall|j: int| 0 <= j < out@.len() ==> (#[trigger] out@[j])@.width <= max_width,
        decreases units@.len() - i,
    {
        let ghost prefix = models_of(units@).take(i as int);
        let ghost prefix1 = models_of(units@).take(i + 1);
        proof {
            assert(prefix1.drop_last() =~= prefix);
            assert(prefix1.last() == units@[i as int]@);
        }
        let u = &units[i];
        if u.width <= max_width as usize {
            let d = u.duplicate();
            let ghost prev = out@;
            out.push(d);
            proof {
                lemma_models_of_push(prev, d);
            }
        }
        i += 1;
    }
    proof {
        assert(models_of(units@).take(units@.len() as int) =~= models_of(units@));
    }
    out
}

/// The truncation strategy: hard line breaks at newline units only,
/// excess width discarded up to the next newline.
pub struct LineTruncator {
    units: Vec<StyledGrapheme>,
    pos: usize,
    max_width: u16,
}

impl LineTruncator {
    pub closed spec fn wf(&self) -> bool {
        &&& self.pos <= self.units@.len()
        &&& forall|j: int| 0 <= j < self.units@.len() ==> (#[trigger] self.units@[j])@.width
            <= self.max_width
    }

    /// The units not yet consumed.
    pub closed spec fn remaining(&self) -> Seq<GraphemeModel> {
        models_of(self.units@).skip(self.pos as int)
    }

    pub closed spec fn spec_max_width(&self) -> u16 {
        self.max_width
    }

    /// The lines still to be yielded.
    pub open spec fn lines(&self) -> Seq<Seq<GraphemeModel>> {
        if self.spec_max_width() == 0 {
            Seq::empty()
        } else {
            trunc_iter(self.remaining(), self.spec_max_width() as int)
        }
    }

    /// Builds a truncator over the given stream with a fixed maximum
    /// line width.
    pub fn new(units: Vec<StyledGrapheme>, max_width: u16) -> (s: LineTruncator)
        ensures
            s.wf(),
            s.lines() == truncate_lines(models_of(units@), max_width as int),
            s.spec_max_width() == max_width,
    {
        let filtered = filter_wide(units, max_width);
        let s = LineTruncator { units: filtered, pos: 0, max_width };
        proof {
            assert(s.remaining() =~= models_of(s.units@));
        }
        s
    }

    /// Composes the next line, or returns `None` when the stream is
    /// exhausted. The yielded line's stored width equals the sum of its
    /// units' widths and never exceeds the maximum width.
    pub fn next_line(&mut self) -> (r: Option<ComposedLine>)
        requires
            old(self).wf(),
        ensures
            final(self).wf(),
            final(self).spec_max_width() == old(self).spec_max_width(),
            old(self).pos_of() <= final(self).pos_of(),
            final(self).units_len() == old(self).units_len(),
            match r {
                None => old(self).lines().len() == 0 && *final(self) == *old(self),
                Some(l) => {
                    &&& old(self).lines().len() > 0
                    &&& l@ == old(self).lines()[0]
                    &&& l.wf()
                    &&& l.width <= old(self).spec_max_width()
                    &&& final(self).lines() == old(self).lines().skip(1)
                    &&& old(self).pos_of() < final(self).pos_of()
                },
            },
    {
        if self.max_width == 0 {
            return None;
        }
        let len = self.units.len();
        let ghost rem = self.remaining();
        let ghost max = self.max_width as int;
        let mut i = self.pos;
        let mut cur: Vec<StyledGrapheme> = Vec::new();
        let mut cur_w: usize = 0;
        proof {
            assert(models_of(cur@) =~= Seq::<GraphemeModel>::empty());
        }
        while i < len
            invariant
                *self == *old(self),
                self.wf(),
                self.max_width >= 1,
                max == self.max_width as int,
                len == self.units@.len(),
                rem == self.remaining(),
                self.pos <= i <= len,
                cur@.len() <= i - self.pos,
                cur_w as int == width_sum(models_of(cur@)),
                cur_w <= self.max_width as usize,
                trunc_first_from(
                    rem,
                    max,
                    i - self.pos,
                    models_of(cur@),
                    cur_w as int,
                ) == trunc_first(rem, max),
            decreases len - i,
        {
            let ghost k = i - self.pos;
            proof {
                assert(rem[k] == models_of(self.units@)[i as int]);
                assert(rem[k] == self.units@[i as int]@);
            }
            let u = &self.units[i];
            if grapheme_is_newline(u) {
                let c = ComposedLine { units: cur, width: cur_w };
                proof {
                    assert(trunc_first(rem, max) == Some((c@, k + 1)));
                    lemma_trunc_iter_step(rem, max, c@, k + 1);
                }
                self.advance_and_finish(i + 1);
                proof {
                    assert(self.lines() == trunc_iter(rem.skip(k + 1), max));
                }
                return Some(c);
            } else if cur_w + u.width > self.max_width as usize {
                // the rest of this logical line can never be shown:
                // discard up to and including the next newline unit
                let mut j = i + 1;
                while j < len
                    invariant
                        *self == *old(self),
                        self.wf(),
                        self.max_width >= 1,
                        max == self.max_width as int,
                        len == self.units@.len(),
                        rem == self.remaining(),
                        self.pos <= i < j <= len,
                        after_newline(rem, j - self.pos) == after_newline(rem, i + 1 - self.pos),
                        forall|m: int| i + 1 - self.pos <= m < j - self.pos ==> !is_newline(
                            rem[m],
                        ),
                    decreases len - j,
                {
                    proof {
                        assert(rem[j - self.pos] == self.units@[j as int]@);
                    }
                    if grapheme_is_newline(&self.units[j]) {
                        proof {
                            assert(after_newline(rem, j - self.pos) == j + 1 - self.pos);
                        }
                        let c = ComposedLine { units: cur, width: cur_w };
                        let ghost cc = j + 1 - self.pos;
                        proof {
                            assert(trunc_first(rem, max) == Some((c@, cc)));
                            lemma_trunc_iter_step(rem, max, c@, cc);
                        }
                        self.advance_and_finish(j + 1);
                        proof {
                            assert(self.lines() == trunc_iter(rem.skip(cc), max));
                        }
                        return Some(c);
                    }
                    j += 1;
                }
                proof {
                    assert(after_newline(rem, j - self.pos) == rem.len());
                }
                let c = ComposedLine { units: cur, width: cur_w };
                let ghost cc = rem.len() as int;
                proof {
                    assert(rem.len() == len - self.pos);
                    assert(trunc_first(rem, max) == Some((c@, cc)));
                    assert(cc >= 1);
                    lemma_trunc_iter_step(rem, max, c@, cc);
                }
                self.advance_and_finish(len);
                proof {
                    assert(self.lines() == trunc_iter(rem.skip(cc), max));
                }
                return Some(c);
            } else {
                let d = u.duplicate();
                let ghost prev = cur@;
                cur.push(d);
                cur_w = cur_w + u.width;
                proof {
                    lemma_models_of_push(prev, d);
                    lemma_width_sum_push(models_of(prev), d@);
                    assert(models_of(cur@) =~= models_of(prev).push(d@));
                }
                i += 1;
            }
        }
        // the stream ran out; pending partial content still yields one line
        if cur.len() > 0 {
            let c = ComposedLine { units: cur, width: cur_w };
            let ghost cc = rem.len() as int;
            proof {
                assert(models_of(c.units@).len() > 0);
                assert(rem.len() == len - self.pos);
                assert(trunc_first(rem, max) == Some((c@, cc)));
                assert(cc >= c.units@.len() >= 1);
                lemma_trunc_iter_step(rem, max, c@, cc);
            }
            self.advance_and_finish(len);
            proof {
                assert(self.lines() == trunc_iter(rem.skip(cc), max));
            }
            return Some(c);
        }
        proof {
            assert(models_of(cur@).len() == 0);
            assert(trunc_first(rem, max) is None);
        }
        None
    }

    pub closed spec fn pos_of(&self) -> int {
        self.pos as int
    }

    pub closed spec fn units_len(&self) -> int {
        self.units@.len() as int
    }

    /// Moves the cursor past the units just consumed and establishes
    /// that the rest of the stream yields exactly the remaining lines.
    fn advance_and_finish(&mut self, new_pos: usize)
        requires
            old(self).wf(),
            old(self).max_width >= 1,
            old(self).pos < new_pos <= old(self).units@.len(),
        ensures
            final(self).units == old(self).units,
            final(self).max_width == old(self).max_width,
            final(self).pos == new_pos,
            final(self).wf(),
            final(self).remaining() =~= old(self).remaining().skip(
                new_pos - old(self).pos,
            ),
    {
        proof {
            let ghost all = models_of(self.units@);
            assert(all.skip(new_pos as int) =~= all.skip(self.pos as int).skip(
                new_pos - self.pos,
            ));
        }
        self.pos = new_pos;
    }

    /// Drains the composer, materializing every remaining line in
    /// order.
    pub fn collect_lines(&mut self) -> (r: Vec<ComposedLine>)
        requires
            old(self).wf(),
        ensures
            final(self).wf(),
            lines_of(r@) == old(self).lines(),
            forall|k: int| 0 <= k < r@.len() ==> (#[trigger] r@[k]).wf() && r@[k].width <= old(
                self,
            ).spec_max_width(),
    {
        let mut out: Vec<ComposedLine> = Vec::new();
        let mut done = false;
        proof {
            assert(lines_of(out@) =~= Seq::<Seq<GraphemeModel>>::empty());
        }
        while !done
            invariant
                self.wf(),
                self.spec_max_width() == old(self).spec_max_width(),
                lines_of(out@) + self.lines() =~= old(self).lines(),
                forall|k: int| 0 <= k < out@.len() ==> (#[trigger] out@[k]).wf()
                    && out@[k].width <= old(self).spec_max_width(),
                done ==> self.lines().len() == 0,
            decreases self.units_len() - self.pos_of() + if done { 0int } else { 1int },
        {
            match self.next_line() {
                Some(l) => {
                    let ghost prev = out@;
                    out.push(l);
                    proof {
                        lemma_lines_of_push(prev, l);
                    }
                },
                None => {
                    done = true;
                },
            }
        }
        proof {
            assert(lines_of(out@) =~= lines_of(out@) + self.lines());
        }
        out
    }
}

proof fn lemma_models_of_drop_last(s: Seq<StyledGrapheme>)
    requires
        s.len() > 0,
    ensures
        models_of(s.drop_last()) =~= models_of(s).drop_last(),
{
    assert forall|i: int| 0 <= i < s.len() - 1 implies models_of(s.drop_last())[i] == models_of(
        s,
    ).drop_last()[i] by {
        assert(s.drop_last()[i] == s[i]);
    }
}

/// Appends copies of `units[from..to]` to `cur`, returning the new
/// total width.
fn append_units(
    cur: &mut Vec<StyledGrapheme>,
    cur_w: usize,
    units: &Vec<StyledGrapheme>,
    from: usize,
    to: usize,
) -> (nw: usize)
    requires
        from <= to <= units@.len(),
        cur_w as int == width_sum(models_of(old(cur)@)),
        cur_w as int + width_sum(models_of(units@).subrange(from as int, to as int))
            <= usize::MAX,
    ensures
        models_of(final(cur)@) =~= models_of(old(cur)@) + models_of(units@).subrange(
            from as int,
            to as int,
        ),
        nw as int == cur_w as int + width_sum(
            models_of(units@).subrange(from as int, to as int),
        ),
{
    let ghost all = models_of(units@);
    let ghost word = all.subrange(from as int, to as int);
    let mut k = from;
    let mut w = cur_w;
    proof {
        assert(all.subrange(from as int, from as int) =~= Seq::<GraphemeModel>::empty());
        assert(models_of(cur@) + all.subrange(from as int, from as int) =~= models_of(cur@));
        lemma_width_sum_nonneg(word);
    }
    while k < to
        invariant
            from <= k <= to,
            w as int == cur_w as int + width_sum(all.subrange(from as int, k as int)),
            models_of(cur@) =~= models_of(old(cur)@) + all.subrange(from as int, k as int),
            w as int + width_sum(all.subrange(k as int, to as int)) <= usize::MAX,
        decreases to - k,
    {
        proof {
            lemma_width_sum_split(all, from as int, k as int, k + 1);
            lemma_width_sum_split(all, k as int, k + 1, to as int);
            assert(all.subrange(k as int, k + 1) =~= seq![all[k as int]]);
            lemma_width_sum_singleton(all[k as int]);
            lemma_width_sum_nonneg(all.subrange(k + 1, to as int));
            assert(all[k as int] == units@[k as int]@);
        }
        let d = units[k].duplicate();
        let ghost prev = cur@;
        w = w + units[k].width;
        cur.push(d);
        proof {
            lemma_models_of_push(prev, d);
            assert(models_of(cur@) =~= models_of(old(cur)@) + all.subrange(from as int, k + 1));
        }
        k += 1;
    }
    w
}

/// Removes trailing whitespace from an already-composed run, producing
/// the line emitted at a wrap boundary.
fn trim_line(cur: Vec<StyledGrapheme>, cur_w: usize) -> (r: ComposedLine)
    requires
        cur_w as int == width_sum(models_of(cur@)),
    ensures
        r@ == trim_end(models_of(cur@)),
        r.wf(),
        r.width <= cur_w,
{
    let mut v = cur;
    let mut w = cur_w;
    while v.len() > 0 && grapheme_is_whitespace(&v[v.len() - 1])
        invariant
            w as int == width_sum(models_of(v@)),
            w <= cur_w,
            trim_end(models_of(v@)) == trim_end(models_of(cur@)),
        decreases v@.len(),
    {
        let ghost m = models_of(v@);
        proof {
            assert(m.last() == v@[v@.len() - 1]@);
            assert(is_white(m.last()));
            lemma_models_of_drop_last(v@);
            lemma_width_sum_nonneg(m.drop_last());
        }
        let last_w = v[v.len() - 1].width;
        v.pop();
        w = w - last_w;
        proof {
            assert(models_of(v@) =~= m.drop_last());
        }
    }
    proof {
        let m = models_of(v@);
        if m.len() > 0 {
            assert(m.last() == v@[v@.len() - 1]@);
            assert(!is_white(m.last()));
        }
        assert(trim_end(m) == m);
    }
    ComposedLine { units: v, width: w }
}

/// Takes the widest prefix of `units[from..to]` that fits within the
/// maximum width: the hard-split of an over-long word. Returns the
/// chunk and the position just past it.
fn chunk_line(units: &Vec<StyledGrapheme>, from: usize, to: usize, max_width: u16) -> (r: (
    ComposedLine,
    usize,
))
    requires
        from <= to <= units@.len(),
        forall|j: int| 0 <= j < units@.len() ==> (#[trigger] units@[j])@.width <= max_width,
    ensures
        ({
            let word = models_of(units@).subrange(from as int, to as int);
            let cl = chunk_len_from(word, max_width as int, 0, 0);
            &&& r.0@ == chunk_of(word, max_width as int)
            &&& r.0.wf()
            &&& r.0.width <= max_width
            &&& r.1 == from + cl
            &&& from <= r.1 <= to
        }),
{
    let ghost all = models_of(units@);
    let ghost word = all.subrange(from as int, to as int);
    let ghost max = max_width as int;
    let mut v: Vec<StyledGrapheme> = Vec::new();
    let mut w: usize = 0;
    let mut j = from;
    proof {
        lemma_chunk_len_bounds(word, max, 0, 0);
        assert(models_of(v@) =~= word.take(0));
    }
    while j < to && w + units[j].width <= max_width as usize
        invariant
            from <= j <= to,
            w <= max_width,
            w as int == width_sum(word.take(j - from)),
            models_of(v@) =~= word.take(j - from),
            chunk_len_from(word, max, j - from, w as int) == chunk_len_from(word, max, 0, 0),
        decreases to - j,
    {
        proof {
            assert(word[j - from] == all[j as int]);
            assert(all[j as int] == units@[j as int]@);
        }
        let d = units[j].duplicate();
        let ghost prev = v@;
        w = w + units[j].width;
        v.push(d);
        proof {
            lemma_models_of_push(prev, d);
            assert(word.take(j - from + 1).drop_last() =~= word.take(j - from));
            assert(word.take(j - from + 1).last() == word[j - from]);
            assert(models_of(v@) =~= word.take(j - from + 1));
        }
        j += 1;
    }
    proof {
        if j < to {
            assert(word[j - from] == units@[j as int]@);
            assert(w + word[j - from].width > max);
            assert(chunk_len_from(word, max, j - from, w as int) == j - from);
        } else {
            assert(j - from == word.len());
            assert(chunk_len_from(word, max, j - from, w as int) == j - from);
        }
        assert(chunk_of(word, max) =~= word.take(j - from));
    }
    (ComposedLine { units: v, width: w }, j)
}

/// The word-wrapping strategy: soft breaks at whitespace boundaries,
/// trailing whitespace trimmed at a wrap boundary, and hard breaks
/// when a single word exceeds the line width.
pub struct WordWrapper {
    units: Vec<StyledGrapheme>,
    pos: usize,
    max_width: u16,
}

impl WordWrapper {
    pub closed spec fn wf(&self) -> bool {
        &&& self.pos <= self.units@.len()
        &&& forall|j: int| 0 <= j < self.units@.len() ==> (#[trigger] self.units@[j])@.width
            <= self.max_width
    }

    /// The units not yet consumed.
    pub closed spec fn remaining(&self) -> Seq<GraphemeModel> {
        models_of(self.units@).skip(self.pos as int)
    }

    pub closed spec fn spec_max_width(&self) -> u16 {
        self.max_width
    }

    /// The lines still to be yielded.
    pub open spec fn lines(&self) -> Seq<Seq<GraphemeModel>> {
        if self.spec_max_width() == 0 {
            Seq::empty()
        } else {
            wrap_iter(self.remaining(), self.spec_max_width() as int)
        }
    }

    pub closed spec fn pos_of(&self) -> int {
        self.pos as int
    }

    pub closed spec fn units_len(&self) -> int {
        self.units@.len() as int
    }

    /// Builds a word wrapper over the given stream with a fixed
    /// maximum line width.
    pub fn new(units: Vec<StyledGrapheme>, max_width: u16) -> (s: WordWrapper)
        ensures
            s.wf(),
            s.lines() == wrap_lines(models_of(units@), max_width as int),
            s.spec_max_width() == max_width,
    {
        let filtered = filter_wide(units, max_width);
        let s = WordWrapper { units: filtered, pos: 0, max_width };
        proof {
            assert(s.remaining() =~= models_of(s.units@));
        }
        s
    }

    /// Moves the cursor past the units just consumed.
    fn advance(&mut self, new_pos: usize)
        requires
            old(self).wf(),
            old(self).max_width >= 1,
            old(self).pos < new_pos <= old(self).units@.len(),
        ensures
            final(self).units == old(self).units,
            final(self).max_width == old(self).max_width,
            final(self).pos == new_pos,
            final(self).wf(),
            final(self).remaining() =~= old(self).remaining().skip(
                new_pos - old(self).pos,
            ),
    {
        proof {
            let ghost all = models_of(self.units@);
            assert(all.skip(new_pos as int) =~= all.skip(self.pos as int).skip(
                new_pos - self.pos,
            ));
        }
        self.pos = new_pos;
    }

    /// Composes the next line, or returns `None` when the stream is
    /// exhausted. The yielded line's stored width equals the sum of its
    /// units' widths and never exceeds the maximum width.
    #[verifier::rlimit(100)]
    #[verifier::spinoff_prover]
    pub fn next_line(&mut self) -> (r: Option<ComposedLine>)
        requires
            old(self).wf(),
        ensures
            final(self).wf(),
            final(self).spec_max_width() == old(self).spec_max_width(),
            final(self).units_len() == old(self).units_len(),
            old(self).pos_of() <= final(self).pos_of(),
            match r {
                None => old(self).lines().len() == 0 && *final(self) == *old(self),
                Some(l) => {
                    &&& old(self).lines().len() > 0
                    &&& l@ == old(self).lines()[0]
                    &&& l.wf()
                    &&& l.width <= old(self).spec_max_width()
                    &&& final(self).lines() == old(self).lines().skip(1)
                    &&& old(self).pos_of() < final(self).pos_of()
                },
            },
    {
        if self.max_width == 0 {
            return None;
        }
        let len = self.units.len();
        let ghost rem = self.remaining();
        let ghost max = self.max_width as int;
        let ghost pos0 = self.pos as int;
        let mut i = self.pos;
        let mut ws = self.pos;
        let mut word_w: usize = 0;
        let mut cur: Vec<StyledGrapheme> = Vec::new();
        let mut cur_w: usize = 0;
        proof {
            assert(models_of(cur@) =~= Seq::<GraphemeModel>::empty());
            assert(rem.subrange(0, 0) =~= Seq::<GraphemeModel>::empty());
        }
        while i < len
            invariant
                *self == *old(self),
                self.wf(),
                self.max_width >= 1,
                max == self.max_width as int,
                pos0 == self.pos as int,
                len == self.units@.len(),
                rem == self.remaining(),
                pos0 <= ws <= i <= len,
                cur@.len() <= ws - pos0,
                cur_w as int == width_sum(models_of(cur@)),
                cur_w <= self.max_width as usize,
                word_w <= 2 * (self.max_width as usize),
                ({
                    let wsum = width_sum(rem.subrange(ws - pos0, i - pos0));
                    (word_w as int == wsum) || (word_w > self.max_width as usize && wsum > max)
                }),
                wrap_first_from(
                    rem,
                    max,
                    i - pos0,
                    models_of(cur@),
                    cur_w as int,
                    ws - pos0,
                ) == wrap_first(rem, max),
            decreases len - i,
        {
            let ghost k = i - pos0;
            let ghost wordg = rem.subrange(ws - pos0, k);
            proof {
                assert(rem[k] == self.units@[i as int]@);
                lemma_width_sum_nonneg(wordg);
            }
            let is_nl = grapheme_is_newline(&self.units[i]);
            let is_wh = if is_nl {
                false
            } else {
                grapheme_is_whitespace(&self.units[i])
            };
            let fits = cur_w + word_w <= self.max_width as usize;
            proof {
                assert(fits == (cur_w as int + width_sum(wordg) <= max));
            }
            if is_nl || is_wh {
                if fits {
                    let ghost curm = models_of(cur@);
                    proof {
                        assert(wordg =~= models_of(self.units@).subrange(ws as int, i as int));
                    }
                    let nw = append_units(&mut cur, cur_w, &self.units, ws, i);
                    cur_w = nw;
                    proof {
                        assert(models_of(cur@) =~= curm + wordg);
                        lemma_width_sum_concat(curm, wordg);
                    }
                    if is_nl {
                        // a newline force-ends the line, pending word flushed
                        let c = ComposedLine { units: cur, width: cur_w };
                        proof {
                            assert(wrap_first(rem, max) == Some((c@, k + 1)));
                            lemma_wrap_iter_step(rem, max, c@, k + 1);
                        }
                        self.advance(i + 1);
                        proof {
                            assert(self.lines() == wrap_iter(rem.skip(k + 1), max));
                        }
                        return Some(c);
                    }
                    // whitespace: keep it on the line only if it still fits
                    let uw = self.units[i].width;
                    if cur_w + uw <= self.max_width as usize {
                        let d = self.units[i].duplicate();
                        let ghost prev = cur@;
                        cur.push(d);
                        cur_w = cur_w + uw;
                        proof {
                            lemma_models_of_push(prev, d);
                            lemma_width_sum_push(models_of(prev), d@);
                            assert(models_of(cur@) =~= (curm + wordg).push(rem[k]));
                            assert(models_of(cur@) =~= curm + wordg + seq![rem[k]]);
                        }
                    }
                    ws = i + 1;
                    word_w = 0;
                    i += 1;
                    proof {
                        assert(rem.subrange(i - pos0, i - pos0)
                            =~= Seq::<GraphemeModel>::empty());
                        assert(width_sum(rem.subrange(i - pos0, i - pos0)) == 0);
                    }
                } else if cur.len() > 0 {
                    // the word cannot fit after the current content:
                    // emit the line, trimmed, and rescan the word
                    let c = trim_line(cur, cur_w);
                    proof {
                        assert(wrap_first(rem, max) == Some((c@, ws - pos0)));
                        assert(ws - pos0 >= 1);
                        lemma_wrap_iter_step(rem, max, c@, ws - pos0);
                    }
                    self.advance(ws);
                    proof {
                        assert(self.lines() == wrap_iter(rem.skip(ws - pos0), max));
                    }
                    return Some(c);
                } else {
                    // the word alone exceeds the width: hard-split it
                    proof {
                        assert(width_sum(wordg) > max);
                        assert(wordg.len() > 0);
                        assert(wordg =~= models_of(self.units@).subrange(ws as int, i as int));
                        assert(wordg[0] == self.units@[ws as int]@);
                        assert(chunk_len_from(wordg, max, 0, 0) >= 1) by {
                            assert(0 + wordg[0].width <= max);
                            lemma_chunk_len_bounds(wordg, max, 1, wordg[0].width as int);
                        }
                        lemma_chunk_len_bounds(wordg, max, 0, 0);
                    }
                    let (c, nj) = chunk_line(&self.units, ws, i, self.max_width);
                    proof {
                        let cl = chunk_len_from(wordg, max, 0, 0);
                        assert(wrap_first(rem, max) == Some((c@, ws - pos0 + cl)));
                        lemma_wrap_iter_step(rem, max, c@, ws - pos0 + cl);
                    }
                    self.advance(nj);
                    proof {
                        assert(self.lines() == wrap_iter(
                            rem.skip(nj as int - pos0),
                            max,
                        ));
                    }
                    return Some(c);
                }
            } else {
                // a regular unit extends the pending word
                proof {
                    lemma_width_sum_split(rem, ws - pos0, k, k + 1);
                    assert(rem.subrange(k, k + 1) =~= seq![rem[k]]);
                    lemma_width_sum_singleton(rem[k]);
                }
                let uw = self.units[i].width;
                if word_w <= self.max_width as usize {
                    word_w = word_w + uw;
                }
                i += 1;
            }
        }
        // the stream ran out: flush the pending word and any content
        let ghost k = i - pos0;
        let ghost wordg = rem.subrange(ws - pos0, k);
        proof {
            lemma_width_sum_nonneg(wordg);
        }
        let fits = cur_w + word_w <= self.max_width as usize;
        proof {
            assert(fits == (cur_w as int + width_sum(wordg) <= max));
        }
        if fits {
            if cur.len() > 0 || ws < len {
                let ghost curm = models_of(cur@);
                proof {
                    assert(wordg =~= models_of(self.units@).subrange(ws as int, i as int));
                }
                let nw = append_units(&mut cur, cur_w, &self.units, ws, i);
                let c = ComposedLine { units: cur, width: nw };
                let ghost cc = rem.len() as int;
                proof {
                    assert(models_of(c.units@) =~= curm + wordg);
                    lemma_width_sum_concat(curm, wordg);
                    assert(rem.len() == len - pos0);
                    assert(wrap_first(rem, max) == Some((c@, cc)));
                    assert(cc >= 1);
                    lemma_wrap_iter_step(rem, max, c@, cc);
                }
                self.advance(len);
                proof {
                    assert(self.lines() == wrap_iter(rem.skip(cc), max));
                }
                return Some(c);
            }
            proof {
                assert(models_of(cur@).len() == 0);
                assert(wordg.len() == 0);
                assert(wrap_first(rem, max) is None);
            }
            return None;
        }
        if cur.len() > 0 {
            let c = trim_line(cur, cur_w);
            proof {
                assert(wrap_first(rem, max) == Some((c@, ws - pos0)));
                assert(ws - pos0 >= 1);
                lemma_wrap_iter_step(rem, max, c@, ws - pos0);
            }
            self.advance(ws);
            proof {
                assert(self.lines() == wrap_iter(rem.skip(ws - pos0), max));
            }
            return Some(c);
        }
        proof {
            assert(width_sum(wordg) > max);
            assert(wordg.len() > 0);
            assert(wordg =~= models_of(self.units@).subrange(ws as int, i as int));
            assert(wordg[0] == self.units@[ws as int]@);
            assert(chunk_len_from(wordg, max, 0, 0) >= 1) by {
                assert(0 + wordg[0].width <= max);
                lemma_chunk_len_bounds(wordg, max, 1, wordg[0].width as int);
            }
            lemma_chunk_len_bounds(wordg, max, 0, 0);
        }
        let (c, nj) = chunk_line(&self.units, ws, len, self.max_width);
        proof {
            let cl = chunk_len_from(wordg, max, 0, 0);
            assert(wrap_first(rem, max) == Some((c@, ws - pos0 + cl)));
            lemma_wrap_iter_step(rem, max, c@, ws - pos0 + cl);
        }
        self.advance(nj);
        proof {
            assert(self.lines() == wrap_iter(rem.skip(nj as int - pos0), max));
        }
        return Some(c);
    }

    /// Drains the composer, materializing every remaining line in
    /// order.
    pub fn collect_lines(&mut self) -> (r: Vec<ComposedLine>)
        requires
            old(self).wf(),
        ensures
            final(self).wf(),
            lines_of(r@) == old(self).lines(),
            forall|k: int| 0 <= k < r@.len() ==> (#[trigger] r@[k]).wf() && r@[k].width <= old(
                self,
            ).spec_max_width(),
    {
        let mut out: Vec<ComposedLine> = Vec::new();
        let mut done = false;
        proof {
            assert(lines_of(out@) =~= Seq::<Seq<GraphemeModel>>::empty());
        }
        while !done
            invariant
                self.wf(),
                self.spec_max_width() == old(self).spec_max_width(),
                lines_of(out@) + self.lines() =~= old(self).lines(),
                forall|k: int| 0 <= k < out@.len() ==> (#[trigger] out@[k]).wf()
                    && out@[k].width <= old(self).spec_max_width(),
                done ==> self.lines().len() == 0,
            decreases self.units_len() - self.pos_of() + if done { 0int } else { 1int },
        {
            match self.next_line() {
                Some(l) => {
                    let ghost prev = out@;
                    out.push(l);
                    proof {
                        lemma_lines_of_push(prev, l);
                    }
                },
                None => {
                    done = true;
                },
            }
        }
        proof {
            assert(lines_of(out@) =~= lines_of(out@) + self.lines());
        }
        out
    }
}

} // verus!
