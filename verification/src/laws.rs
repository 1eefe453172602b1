//! Engine-wide laws: what the scroll-window selection guarantees, and
//! how the two composition strategies relate.

use vstd::prelude::*;
use crate::grapheme::{is_newline, is_white, GraphemeModel};
use crate::layout::ScrollFrom;
use crate::paragraph::{row_source, start_line_index, RowSource};
use crate::reflow::{
    chunk_len_from, chunk_of, drop_wide, lemma_trunc_first_consumed, lemma_width_sum_nonneg,
    lemma_width_sum_split, trunc_first, trunc_first_from, trunc_iter, truncate_lines, width_sum,
    wrap_first, wrap_first_from, wrap_iter, wrap_lines,
};

verus! {

/// The position of the newline unit that ends the logical line a scan
/// at position `i` is inside, or the end of the stream.
pub open spec fn line_end(units: Seq<GraphemeModel>, i: int) -> int
    decreases units.len() - i,
{
    if i < 0 || i >= units.len() {
        units.len() as int
    } else if is_newline(units[i]) {
        i
    } else {
        line_end(units, i + 1)
    }
}

/// No logical line of the stream is wider than `max`: from any
/// position, the units up to the end of their line fit.
pub open spec fn all_lines_fit(units: Seq<GraphemeModel>, max: int) -> bool {
    forall|i: int| 0 <= i <= units.len() ==> width_sum(
        units.subrange(i, #[trigger] line_end(units, i)),
    ) <= max
}

proof fn lemma_line_end_bounds(units: Seq<GraphemeModel>, i: int)
    requires
        0 <= i <= units.len(),
    ensures
        i <= line_end(units, i) <= units.len(),
    decreases units.len() - i,
{
    if i < units.len() && !is_newline(units[i]) {
        lemma_line_end_bounds(units, i + 1);
    }
}

proof fn lemma_first_agree(
    units: Seq<GraphemeModel>,
    max: int,
    i: int,
    cur: Seq<GraphemeModel>,
    cur_w: int,
    ws: int,
)
    requires
        max >= 1,
        0 <= ws <= i <= units.len(),
        cur_w == width_sum(cur),
        cur_w >= 0,
        forall|m: int| ws <= m < i ==> !is_newline(#[trigger] units[m]),
        cur_w + width_sum(units.subrange(ws, line_end(units, i))) <= max,
    ensures
        wrap_first_from(units, max, i, cur, cur_w, ws) == trunc_first_from(
            units,
            max,
            i,
            cur + units.subrange(ws, i),
            cur_w + width_sum(units.subrange(ws, i)),
        ),
    decreases units.len() - i,
{
    let word = units.subrange(ws, i);
    let word_w = width_sum(word);
    let le = line_end(units, i);
    let cur_t = cur + word;
    lemma_line_end_bounds(units, i);
    lemma_width_sum_split(units, ws, i, le);
    lemma_width_sum_nonneg(units.subrange(i, le));
    assert(cur_w + word_w <= max);
    crate::reflow::lemma_width_sum_concat(cur, word);
    if i >= units.len() {
        assert(cur_t.len() == cur.len() + word.len());
    } else {
        let u = units[i];
        if is_newline(u) {
        } else {
            // the unit at `i` is still inside the current line
            assert(le == line_end(units, i + 1));
            lemma_line_end_bounds(units, i + 1);
            lemma_width_sum_split(units, i, i + 1, le);
            assert(units.subrange(i, i + 1) =~= seq![u]);
            crate::reflow::lemma_width_sum_singleton(u);
            lemma_width_sum_nonneg(units.subrange(i + 1, le));
            assert(cur_w + word_w + u.width <= max);
            if is_white(u) {
                let cur2 = cur + word + seq![u];
                let cur2_w = cur_w + word_w + u.width;
                lemma_width_sum_nonneg(word);
                crate::reflow::lemma_width_sum_concat(cur + word, seq![u]);
                assert(units.subrange(i + 1, i + 1) =~= Seq::<GraphemeModel>::empty());
                lemma_first_agree(units, max, i + 1, cur2, cur2_w, i + 1);
                assert(cur2 + units.subrange(i + 1, i + 1) =~= cur2);
                assert(cur_t.push(u) =~= cur2);
            } else {
                lemma_first_agree(units, max, i + 1, cur, cur_w, ws);
                assert(units.subrange(ws, i + 1) =~= word.push(u));
                crate::reflow::lemma_width_sum_push(word, u);
                assert(cur + units.subrange(ws, i + 1) =~= cur_t.push(u));
            }
        }
    }
}

proof fn lemma_line_end_skip(units: Seq<GraphemeModel>, c: int, i: int)
    requires
        0 <= c <= units.len(),
        0 <= i,
        c + i <= units.len(),
    ensures
        line_end(units.skip(c), i) == line_end(units, c + i) - c,
    decreases units.len() - c - i,
{
    let rest = units.skip(c);
    if i < rest.len() {
        assert(rest[i] == units[c + i]);
        if !is_newline(units[c + i]) {
            lemma_line_end_skip(units, c, i + 1);
        }
    }
}

/// When no logical line is wider than the viewport (and no newline
/// unit is either), truncation and word wrapping compose exactly the
/// same lines: nothing ever needs to wrap, so the strategies cannot
/// diverge.
#[verifier::rlimit(100)]
#[verifier::spinoff_prover]
pub proof fn lemma_truncate_equals_wrap(units: Seq<GraphemeModel>, max: int)
    requires
        max >= 1,
        all_lines_fit(units, max),
        forall|j: int| 0 <= j < units.len() && is_newline(#[trigger] units[j]) ==> units[j].width
            <= max,
    ensures
        truncate_lines(units, max) == wrap_lines(units, max),
    decreases units.len(),
{
    let len = units.len() as int;
    assert forall|j: int| 0 <= j < len implies (#[trigger] units[j]).width <= max by {
        if !is_newline(units[j]) {
            lemma_line_end_bounds(units, j + 1);
            assert(line_end(units, j) == line_end(units, j + 1));
            lemma_width_sum_split(units, j, j + 1, line_end(units, j));
            assert(units.subrange(j, j + 1) =~= seq![units[j]]);
            crate::reflow::lemma_width_sum_singleton(units[j]);
            lemma_width_sum_nonneg(units.subrange(j + 1, line_end(units, j)));
            assert(width_sum(units.subrange(j, line_end(units, j))) <= max);
        }
    }
    lemma_drop_wide_identity(units, max);
    assert(units.subrange(0, 0) =~= Seq::<GraphemeModel>::empty());
    lemma_line_end_bounds(units, 0);
    lemma_width_sum_nonneg(units.subrange(0, line_end(units, 0)));
    lemma_first_agree(units, max, 0, Seq::empty(), 0, 0);
    assert(Seq::<GraphemeModel>::empty() + units.subrange(0, 0)
        =~= Seq::<GraphemeModel>::empty());
    assert(wrap_first(units, max) == trunc_first(units, max));
    lemma_trunc_first_consumed(units, max, 0, Seq::empty(), 0);
    match trunc_first(units, max) {
        None => {
            assert(trunc_iter(units, max) =~= Seq::<Seq<GraphemeModel>>::empty());
            assert(wrap_iter(units, max) =~= Seq::<Seq<GraphemeModel>>::empty());
        },
        Some((l, c)) => {
            assert(1 <= c <= len);
            let rest = units.skip(c);
            assert(trunc_iter(units, max) == seq![l] + trunc_iter(rest, max));
            assert(wrap_iter(units, max) == seq![l] + wrap_iter(rest, max));
            assert forall|j: int| 0 <= j < rest.len() implies rest[j] == units[c + j] by {}
            assert forall|i: int| 0 <= i <= rest.len() implies width_sum(
                rest.subrange(i, #[trigger] line_end(rest, i)),
            ) <= max by {
                lemma_line_end_skip(units, c, i);
                lemma_line_end_bounds(units, c + i);
                assert(rest.subrange(i, line_end(rest, i)) =~= units.subrange(
                    c + i,
                    line_end(units, c + i),
                ));
            }
            assert(forall|j: int| 0 <= j < rest.len() && is_newline(#[trigger] rest[j])
                ==> rest[j].width <= max);
            lemma_truncate_equals_wrap(rest, max);
            assert(forall|j: int| 0 <= j < rest.len() ==> (#[trigger] rest[j]).width <= max);
            lemma_drop_wide_identity(rest, max);
            assert(trunc_iter(rest, max) == truncate_lines(rest, max));
            assert(wrap_iter(rest, max) == wrap_lines(rest, max));
        },
    }
}

proof fn lemma_drop_wide_identity(units: Seq<GraphemeModel>, max: int)
    requires
        forall|j: int| 0 <= j < units.len() ==> (#[trigger] units[j]).width <= max,
    ensures
        drop_wide(units, max) =~= units,
    decreases units.len(),
{
    if units.len() > 0 {
        assert(forall|j: int| 0 <= j < units.drop_last().len() ==> (#[trigger] units.drop_last()[j]).width <= max);
        lemma_drop_wide_identity(units.drop_last(), max);
        assert(units.last().width <= max);
        assert(drop_wide(units, max) =~= units.drop_last().push(units.last()));
    }
}

proof fn lemma_width_sum_ones(s: Seq<GraphemeModel>)
    requires
        forall|j: int| 0 <= j < s.len() ==> (#[trigger] s[j]).width == 1,
    ensures
        width_sum(s) == s.len(),
    decreases s.len(),
{
    if s.len() > 0 {
        assert(forall|j: int| 0 <= j < s.drop_last().len() ==> (#[trigger] s.drop_last()[j]).width == 1);
        lemma_width_sum_ones(s.drop_last());
    }
}

proof fn lemma_chunk_ones(word: Seq<GraphemeModel>, max: int, j: int)
    requires
        max >= 1,
        forall|m: int| 0 <= m < word.len() ==> (#[trigger] word[m]).width == 1,
        0 <= j <= word.len(),
        j <= max,
    ensures
        chunk_len_from(word, max, j, j) == if word.len() <= max {
            word.len() as int
        } else {
            max
        },
    decreases word.len() - j,
{
    if j >= word.len() {
    } else {
        if j + 1 > max {
            assert(j == max);
        } else {
            lemma_chunk_ones(word, max, j + 1);
        }
    }
}

proof fn lemma_wrap_first_all_regular(units: Seq<GraphemeModel>, max: int, i: int)
    requires
        max >= 1,
        forall|j: int| 0 <= j < units.len() ==> !is_newline(#[trigger] units[j]) && !is_white(
            units[j],
        ) && units[j].width == 1,
        0 <= i <= units.len(),
    ensures
        wrap_first_from(units, max, i, Seq::empty(), 0, 0) == wrap_first_from(
            units,
            max,
            units.len() as int,
            Seq::empty(),
            0,
            0,
        ),
    decreases units.len() - i,
{
    if i < units.len() {
        lemma_wrap_first_all_regular(units, max, i + 1);
    }
}

proof fn lemma_wrap_first_all_regular_value(units: Seq<GraphemeModel>, max: int)
    requires
        max >= 1,
        forall|j: int| 0 <= j < units.len() ==> !is_newline(#[trigger] units[j]) && !is_white(
            units[j],
        ) && units[j].width == 1,
        units.len() >= 1,
    ensures
        wrap_first(units, max) == (if units.len() <= max {
            Some((units, units.len() as int))
        } else {
            Some((units.take(max), max))
        }),
{
    lemma_wrap_first_all_regular(units, max, 0);
    let len = units.len() as int;
    let word = units.subrange(0, len);
    assert(word =~= units);
    lemma_width_sum_ones(units);
    if len <= max {
        assert(Seq::<GraphemeModel>::empty() + word =~= units);
    } else {
        lemma_chunk_ones(units, max, 0);
        assert(chunk_of(word, max) == units.take(max));
    }
}

/// A single word longer than the maximum width is hard-split into
/// `(len + max - 1) / max` consecutive chunks: chunk `i` holds the
/// units from position `i * max` on, each chunk exactly `max` units
/// (here one column each) except possibly the last. Stated for a
/// stream that is one word of single-column units, as the law demands.
#[verifier::rlimit(100)]
#[verifier::spinoff_prover]
pub proof fn lemma_hard_split_chunks(units: Seq<GraphemeModel>, max: int)
    requires
        max >= 1,
        forall|j: int| 0 <= j < units.len() ==> !is_newline(#[trigger] units[j]) && !is_white(
            units[j],
        ) && units[j].width == 1,
        units.len() > max,
    ensures
        wrap_lines(units, max).len() == (units.len() + max - 1) / max,
        forall|i: int| 0 <= i < wrap_lines(units, max).len() ==> #[trigger] wrap_lines(
            units,
            max,
        )[i] =~= units.subrange(
            i * max,
            if (i + 1) * max <= units.len() {
                (i + 1) * max
            } else {
                units.len() as int
            },
        ),
    decreases units.len(),
{
    let len = units.len() as int;
    assert(forall|j: int| 0 <= j < units.len() ==> (#[trigger] units[j]).width <= max);
    lemma_drop_wide_identity(units, max);
    assert(wrap_lines(units, max) == wrap_iter(units, max));
    lemma_wrap_first_all_regular_value(units, max);
    let head = units.take(max);
    let rest = units.skip(max);
    assert(wrap_iter(units, max) == seq![head] + wrap_iter(rest, max));
    assert(forall|j: int| 0 <= j < rest.len() ==> rest[j] == units[max + j]);
    assert(forall|j: int| 0 <= j < rest.len() ==> !is_newline(#[trigger] rest[j]) && !is_white(
        rest[j],
    ) && rest[j].width == 1);
    let lines = wrap_lines(units, max);
    if rest.len() > max {
        lemma_hard_split_chunks(rest, max);
        assert(forall|j: int| 0 <= j < rest.len() ==> (#[trigger] rest[j]).width <= max);
        lemma_drop_wide_identity(rest, max);
        let rl = wrap_lines(rest, max);
        assert(wrap_iter(rest, max) == rl);
        assert(lines == seq![head] + rl);
        vstd::arithmetic::div_mod::lemma_div_plus_one(len - 1, max);
        assert(lines.len() == (len + max - 1) / max);
        assert forall|i: int| 0 <= i < lines.len() implies #[trigger] lines[i] =~= units.subrange(
            i * max,
            if (i + 1) * max <= len {
                (i + 1) * max
            } else {
                len
            },
        ) by {
            if i == 0 {
                assert(lines[0] == head);
                assert(head =~= units.subrange(0, max));
            } else {
                assert(lines[i] == rl[i - 1]);
                assert((i - 1) * max + max == i * max) by (nonlinear_arith);
                assert(i * max + max == (i + 1) * max) by (nonlinear_arith);
                assert(0 <= (i - 1) * max) by (nonlinear_arith)
                    requires
                        i >= 1,
                        max >= 1,
                ;
                assert((i - 1) * max <= i * max);
                let hi_r = if i * max <= rest.len() {
                    i * max
                } else {
                    rest.len() as int
                };
                assert(rl[i - 1] =~= rest.subrange((i - 1) * max, hi_r));
                assert((i - 1) * max <= hi_r <= rest.len()) by {
                    if i * max <= rest.len() {
                    } else {
                        let rlen = rest.len() as int;
                        let q = (rlen - 1) / max;
                        vstd::arithmetic::div_mod::lemma_div_plus_one(rlen - 1, max);
                        assert(rl.len() == 1 + q);
                        assert(q * max <= rlen - 1) by (nonlinear_arith)
                            requires
                                q == (rlen - 1) / max,
                                max >= 1,
                                rlen - 1 >= 0,
                        ;
                        assert((i - 1) * max <= q * max) by (nonlinear_arith)
                            requires
                                i - 1 <= q,
                                max >= 1,
                        ;
                    }
                }
                assert forall|m: int| 0 <= m < hi_r - (i - 1) * max implies #[trigger] rest.subrange(
                    (i - 1) * max,
                    hi_r,
                )[m] == units.subrange(max + (i - 1) * max, max + hi_r)[m] by {
                    assert(rest[(i - 1) * max + m] == units[max + (i - 1) * max + m]);
                }
                assert(rest.subrange((i - 1) * max, hi_r) =~= units.subrange(
                    max + (i - 1) * max,
                    max + hi_r,
                ));
            }
        }
    } else {
        assert(rest.len() >= 1);
        lemma_wrap_first_all_regular_value(rest, max);
        assert(wrap_first(rest, max) == Some((rest, rest.len() as int)));
        let empty_rest = rest.skip(rest.len() as int);
        assert(empty_rest =~= Seq::<GraphemeModel>::empty());
        assert(Seq::<GraphemeModel>::empty().subrange(0, 0) =~= Seq::<GraphemeModel>::empty());
        assert(wrap_first(Seq::<GraphemeModel>::empty(), max) is None);
        assert(wrap_iter(empty_rest, max) =~= Seq::<Seq<GraphemeModel>>::empty());
        assert(wrap_iter(rest, max) == seq![rest] + wrap_iter(empty_rest, max));
        assert(lines =~= seq![head, rest]);
        // two chunks: max < len <= 2 * max
        vstd::arithmetic::div_mod::lemma_div_plus_one(len - 1, max);
        assert(0 <= len - 1 - max < max);
        assert((len - 1 - max) / max == 0) by (nonlinear_arith)
            requires
                0 <= len - 1 - max < max,
        ;
        vstd::arithmetic::div_mod::lemma_div_plus_one(len - 1 - max, max);
        assert(lines.len() == 2 == (len + max - 1) / max);
        assert forall|i: int| 0 <= i < lines.len() implies #[trigger] lines[i] =~= units.subrange(
            i * max,
            if (i + 1) * max <= len {
                (i + 1) * max
            } else {
                len
            },
        ) by {
            if i == 0 {
                assert(head =~= units.subrange(0, max));
            } else {
                assert(i == 1);
                assert(rest =~= units.subrange(max, len));
                assert(2 * max >= len);
            }
        }
    }
}

/// A top anchor with offset 0 renders the content from its first
/// composed line at row 0: each viewport row `y` shows line `y` while
/// content lasts, and rows past the content stay blank.
pub proof fn lemma_top_anchor_offset_zero(
    has_overflow: bool,
    total: int,
    height: int,
    y: int,
)
    requires
        0 <= y < height,
        0 <= total,
    ensures
        start_line_index(ScrollFrom::Top, has_overflow, total, height, 0) == 0,
        row_source(start_line_index(ScrollFrom::Top, has_overflow, total, height, 0), total, y)
            == (if y < total {
            RowSource::Content(y)
        } else {
            RowSource::Blank
        }),
{
}

/// A top anchor with offset `k` skips exactly the first `k` lines: row
/// `y` shows what row `y` of an unscrolled view over the suffix
/// `lines.skip(k)` shows, and never a filler.
pub proof fn lemma_top_anchor_suffix(
    lines: Seq<Seq<GraphemeModel>>,
    has_overflow: bool,
    k: int,
    height: int,
    y: int,
)
    requires
        0 <= k <= lines.len(),
        0 <= y < height,
    ensures
        ({
            let shifted = row_source(
                start_line_index(ScrollFrom::Top, has_overflow, lines.len() as int, height, k),
                lines.len() as int,
                y,
            );
            let suffix = row_source(
                start_line_index(
                    ScrollFrom::Top,
                    has_overflow,
                    lines.skip(k).len() as int,
                    height,
                    0,
                ),
                lines.skip(k).len() as int,
                y,
            );
            match shifted {
                RowSource::Content(li) => suffix == RowSource::Content(li - k) && lines[li]
                    == lines.skip(k)[li - k],
                RowSource::Blank => suffix == RowSource::Blank,
                RowSource::Filler => false,
            }
        }),
{
    let start = start_line_index(ScrollFrom::Top, has_overflow, lines.len() as int, height, k);
    if start + y < lines.len() {
        assert(lines.skip(k)[k + y - k] == lines[k + y]);
    }
}

/// A bottom anchor without an overflow character never scrolls content
/// that already fits the viewport: the start index stays 0 whatever
/// the offset.
pub proof fn lemma_bottom_anchor_short_content_clamped(total: int, height: int, offset: int)
    requires
        0 <= total <= height,
        0 <= offset,
    ensures
        start_line_index(ScrollFrom::Bottom, false, total, height, offset) == 0,
{
}

/// A bottom anchor with an overflow character, content shorter than
/// the viewport and offset `k > 0`: exactly the `k` topmost rows (as
/// far as the viewport reaches) are filler rows, and the rows below
/// them show the content from line 0.
pub proof fn lemma_bottom_anchor_overflow_rows(total: int, height: int, k: int, y: int)
    requires
        0 <= total <= height,
        k > 0,
        0 <= y < height,
    ensures
        ({
            let start = start_line_index(ScrollFrom::Bottom, true, total, height, k);
            &&& (y < k ==> row_source(start, total, y) == RowSource::Filler)
            &&& (y >= k ==> row_source(start, total, y) == (if y - k < total {
                RowSource::Content(y - k)
            } else {
                RowSource::Blank
            }))
        }),
{
}

/// Scrolling a top anchor forward never re-shows a line at a lower
/// row: a line visible at row `y` with offset `k` can only reappear at
/// row `y - 1` when the offset grows to `k + 1`.
pub proof fn lemma_top_anchor_scroll_forward(
    has_overflow: bool,
    total: int,
    height: int,
    k: int,
    y: int,
    y2: int,
    li: int,
)
    requires
        0 <= y < height,
        0 <= y2 < height,
        0 <= k,
        row_source(start_line_index(ScrollFrom::Top, has_overflow, total, height, k), total, y)
            == RowSource::Content(li),
        row_source(
            start_line_index(ScrollFrom::Top, has_overflow, total, height, k + 1),
            total,
            y2,
        ) == RowSource::Content(li),
    ensures
        y2 == y - 1,
{
}

} // verus!
