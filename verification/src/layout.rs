//! How the rows of a line lie one behind the other.

use crate::glyph::{first_row_end, glyph_rows, lemma_first_row};
use crate::rows::{fit_end, lemma_fit_end, row_width};
use crate::segment::{grapheme_cuts, lemma_cut_range, well_cut};
use crate::text::{byte_len, is_range, lemma_between_concat, text_between};
use crate::word::{
    is_blank, is_left_open, kept_from, lemma_blank_concat, lemma_kept_from, lemma_last_own_row,
    over_wide_rows, word_rows,
};
use vstd::prelude::*;

verus! {

/// The part of a line that lies before row number `k` and behind the row before it, where the
/// rows show the line from `from` to `to`. Behind the last row it reaches to `to`.
pub open spec fn gap(rows: Seq<(int, int)>, from: int, to: int, k: int) -> (int, int) {
    (
        if k == 0 {
            from
        } else {
            rows[k - 1].1
        },
        if k == rows.len() {
            to
        } else {
            rows[k].0
        },
    )
}

/// Whether `row` shows something, in whole characters.
pub open spec fn is_row(line: Seq<char>, row: (int, int)) -> bool {
    is_range(line, row.0, row.1) && row.0 < row.1
}

/// Whether a part of `line` holds whole characters, all of them white space.
pub open spec fn is_blank_range(line: Seq<char>, range: (int, int)) -> bool {
    is_range(line, range.0, range.1) && is_blank(text_between(line, range.0, range.1))
}

/// Whether the rows show `line` from `from` to `to` in order, all but white space.
pub open spec fn lays_out(line: Seq<char>, rows: Seq<(int, int)>, from: int, to: int) -> bool {
    &&& forall|k: int| 0 <= k < rows.len() ==> is_row(line, #[trigger] rows[k])
    &&& forall|k: int|
        0 <= k <= rows.len() ==> is_blank_range(line, #[trigger] gap(rows, from, to, k))
}

/// Whether the rows show everything from `from` to `to`, each going on where the one before it
/// ends.
pub open spec fn is_gapless(rows: Seq<(int, int)>, from: int, to: int) -> bool {
    forall|k: int|
        0 <= k <= rows.len() ==> (#[trigger] gap(rows, from, to, k)).0 == gap(rows, from, to, k).1
}

/// Nothing is white space.
proof fn lemma_empty_range_is_blank(line: Seq<char>, at: int)
    requires
        is_range(line, at, at),
    ensures
        is_blank_range(line, (at, at)),
{
}

/// One row lays out what it shows, with white space behind it.
proof fn lemma_one_row(line: Seq<char>, start: int, end: int, to: int)
    requires
        is_row(line, (start, end)),
        is_blank_range(line, (end, to)),
    ensures
        lays_out(line, seq![(start, end)], start, to),
{
    lemma_empty_range_is_blank(line, start);
}

/// Rows that go on where others end lay out both parts.
proof fn lemma_lay_out_concat(
    line: Seq<char>,
    a: Seq<(int, int)>,
    b: Seq<(int, int)>,
    from: int,
    mid: int,
    to: int,
)
    requires
        lays_out(line, a, from, mid),
        lays_out(line, b, mid, to),
    ensures
        lays_out(line, a + b, from, to),
        is_gapless(a, from, mid) && is_gapless(b, mid, to) ==> is_gapless(a + b, from, to),
{
    let rows = a + b;
    assert forall|k: int| 0 <= k <= rows.len() implies {
        &&& is_blank_range(line, #[trigger] gap(rows, from, to, k))
        &&& is_gapless(a, from, mid) && is_gapless(b, mid, to) ==> gap(rows, from, to, k).0 == gap(
            rows,
            from,
            to,
            k,
        ).1
    } by {
        if k < a.len() {
            assert(gap(rows, from, to, k) == gap(a, from, mid, k));
        } else if k > a.len() {
            assert(gap(rows, from, to, k) == gap(b, mid, to, k - a.len()));
        } else {
            let before = gap(a, from, mid, k);
            let behind = gap(b, mid, to, 0);
            lemma_between_concat(line, before.0, mid, behind.1);
        }
    }
}

/// Rows that are broken between grapheme clusters show everything.
pub proof fn lemma_glyph_rows_lay_out(
    line: Seq<char>,
    start: int,
    end: int,
    width: nat,
    tab_len: u8,
)
    requires
        is_range(line, start, end),
    ensures
        lays_out(line, glyph_rows(line, start, end, width, tab_len), start, end),
        is_gapless(glyph_rows(line, start, end, width, tab_len), start, end),
        start < end ==> glyph_rows(line, start, end, width, tab_len).len() > 0 && glyph_rows(
            line,
            start,
            end,
            width,
            tab_len,
        )[0].0 == start,
    decreases end - start,
{
    if start < end {
        let rest = text_between(line, start, end);
        let stop = start + first_row_end(rest, grapheme_cuts(rest), width, tab_len);
        let later = glyph_rows(line, stop, end, width, tab_len);
        lemma_first_row(line, start, end, width, tab_len);
        lemma_glyph_rows_lay_out(line, stop, end, width, tab_len);
        lemma_lay_out_concat(line, seq![(start, stop)], later, start, stop, end);
    }
}

/// A piece that is wider than a row is shown as a whole.
pub proof fn lemma_over_wide_rows_lay_out(
    line: Seq<char>,
    start: int,
    end: int,
    width: nat,
    tab_len: u8,
    split: bool,
)
    requires
        is_row(line, (start, end)),
    ensures
        lays_out(line, over_wide_rows(line, start, end, width, tab_len, split), start, end),
        over_wide_rows(line, start, end, width, tab_len, split).len() > 0,
        over_wide_rows(line, start, end, width, tab_len, split)[0].0 == start,
{
    lemma_glyph_rows_lay_out(line, start, end, width, tab_len);
}

/// No row starts before the first of them may.
pub proof fn lemma_rows_follow_start(
    line: Seq<char>,
    rows: Seq<(int, int)>,
    from: int,
    to: int,
    k: int,
)
    requires
        lays_out(line, rows, from, to),
        0 <= k < rows.len(),
    ensures
        from <= rows[k].0,
    decreases k,
{
    assert(is_blank_range(line, gap(rows, from, to, k)));
    if k > 0 {
        lemma_rows_follow_start(line, rows, from, to, k - 1);
        assert(is_row(line, rows[k - 1]));
    }
}

/// A row and white space behind it lay out the start of a line whose end others lay out.
proof fn lemma_row_lays_out(
    line: Seq<char>,
    start: int,
    here: int,
    from: int,
    rest: Seq<(int, int)>,
    to: int,
)
    requires
        is_row(line, (start, here)),
        is_blank_range(line, (here, from)),
        lays_out(line, rest, from, to),
    ensures
        lays_out(line, seq![(start, here)] + rest, start, to),
{
    lemma_one_row(line, start, here, from);
    lemma_lay_out_concat(line, seq![(start, here)], rest, start, from, to);
}

/// The rows of a piece that is wider than a row lay out the start of a line, where others go on
/// behind them, or with the last of them if `shared` is set.
proof fn lemma_own_rows_lay_out(
    line: Seq<char>,
    start: int,
    end: int,
    width: nat,
    tab_len: u8,
    split: bool,
    shared: bool,
    rest: Seq<(int, int)>,
    to: int,
)
    requires
        is_row(line, (start, end)),
        end <= to,
        ({
            let own = over_wide_rows(line, start, end, width, tab_len, split);
            let from = if shared {
                own.last().0
            } else {
                end
            };
            &&& lays_out(line, rest, from, to)
            &&& from < to ==> rest.len() > 0 && rest[0].0 == from
        }),
    ensures
        ({
            let own = over_wide_rows(line, start, end, width, tab_len, split);
            let rows = if shared {
                own.drop_last() + rest
            } else {
                own + rest
            };
            &&& lays_out(line, rows, start, to)
            &&& rows.len() > 0
            &&& rows[0].0 == start
        }),
{
    let own = over_wide_rows(line, start, end, width, tab_len, split);
    lemma_over_wide_rows_lay_out(line, start, end, width, tab_len, split);
    if shared {
        let first = own.drop_last();
        let from = own.last().0;
        assert(is_row(line, own[own.len() - 1]));
        lemma_last_own_row(line, start, end, width, tab_len, split);
        assert forall|k: int| 0 <= k < first.len() implies is_row(line, #[trigger] first[k]) by {
            assert(first[k] == own[k]);
        }
        assert forall|k: int| 0 <= k <= first.len() implies is_blank_range(
            line,
            #[trigger] gap(first, start, from, k),
        ) by {
            assert(gap(first, start, from, k) == gap(own, start, end, k));
        }
        lemma_lay_out_concat(line, first, rest, start, from, to);
    } else {
        lemma_lay_out_concat(line, own, rest, start, end, to);
    }
}

/// Rows that are broken at word boundaries show all but white space, and the first of them
/// starts where the line starts.
pub proof fn lemma_word_rows_lay_out(
    line: Seq<char>,
    cuts: Seq<int>,
    start: int,
    i: int,
    width: nat,
    tab_len: u8,
    split: bool,
)
    requires
        well_cut(line, cuts),
        0 <= i < cuts.len(),
        is_range(line, start, cuts[i]),
    ensures
        lays_out(
            line,
            word_rows(line, cuts, start, i, width, tab_len, split),
            start,
            byte_len(line),
        ),
        start < byte_len(line) ==> word_rows(
            line,
            cuts,
            start,
            i,
            width,
            tab_len,
            split,
        ).len() > 0 && word_rows(line, cuts, start, i, width, tab_len, split)[0].0 == start,
    decreases cuts.len() - i, cuts[i] - start,
{
    let j = fit_end(line, cuts, start, i, width, tab_len);
    let to = byte_len(line);
    lemma_fit_end(line, cuts, start, i, width, tab_len);
    lemma_cut_range(line, cuts, i, j);
    lemma_cut_range(line, cuts, j, cuts.len() - 1);
    lemma_cut_range(line, cuts, j, j);
    let here = cuts[j];
    if j + 1 == cuts.len() {
        lemma_empty_range_is_blank(line, to);
        if start < here {
            lemma_one_row(line, start, here, to);
        }
    } else {
        let next = cuts[j + 1];
        lemma_cut_range(line, cuts, j, j + 1);
        lemma_cut_range(line, cuts, j + 1, cuts.len() - 1);
        if start < here {
            if is_blank(text_between(line, here, next)) {
                let used = row_width(line, start, here, tab_len);
                let kept = kept_from(line, here, next, used, width, tab_len);
                lemma_kept_from(line, here, next, used, width, tab_len);
                lemma_blank_concat(line, here, kept, next);
                if kept >= next || row_width(line, kept, next, tab_len) <= width {
                    let led = word_rows(line, cuts, kept, j + 1, width, tab_len, split);
                    lemma_word_rows_lay_out(line, cuts, kept, j + 1, width, tab_len, split);
                    lemma_row_lays_out(line, start, here, kept, led, to);
                } else {
                    let own = over_wide_rows(line, kept, next, width, tab_len, split);
                    let later = word_rows(line, cuts, next, j + 1, width, tab_len, split);
                    lemma_word_rows_lay_out(line, cuts, next, j + 1, width, tab_len, split);
                    lemma_own_rows_lay_out(
                        line,
                        kept,
                        next,
                        width,
                        tab_len,
                        split,
                        false,
                        later,
                        to,
                    );
                    lemma_row_lays_out(line, start, here, kept, own + later, to);
                }
            } else {
                let rest = word_rows(line, cuts, here, j, width, tab_len, split);
                lemma_word_rows_lay_out(line, cuts, here, j, width, tab_len, split);
                lemma_empty_range_is_blank(line, here);
                lemma_row_lays_out(line, start, here, here, rest, to);
            }
        } else {
            let own = over_wide_rows(line, here, next, width, tab_len, split);
            let shared = is_left_open(line, cuts, j, width, tab_len, split);
            let from = if shared {
                own.last().0
            } else {
                next
            };
            let later = word_rows(line, cuts, from, j + 1, width, tab_len, split);
            lemma_last_own_row(line, here, next, width, tab_len, split);
            lemma_word_rows_lay_out(line, cuts, from, j + 1, width, tab_len, split);
            lemma_own_rows_lay_out(line, here, next, width, tab_len, split, shared, later, to);
        }
    }
}

} // verus!
