//! What holds of wrapping as a whole.

use crate::glyph::{first_row_end, glyph_rows, lemma_first_row};
use crate::layout::{
    gap, is_blank_range, is_gapless, is_row, lays_out, lemma_glyph_rows_lay_out,
    lemma_over_wide_rows_lay_out,
};
use crate::rows::{
    fit_end, lemma_fit_end, lemma_row_width_at_cuts, lemma_row_width_empty,
    lemma_row_width_extend, lemma_row_width_of_part, row_width,
};
use crate::segment::{
    grapheme_cuts, lemma_cut_count, lemma_cut_range, lemma_grapheme_cuts, lemma_word_cuts,
    well_cut, word_cuts,
};
use crate::text::{
    byte_len, is_range, lemma_between_concat, lemma_between_empty, lemma_chars_at_most_bytes,
    lemma_encode_between, lemma_whole_text, text_between,
};
use crate::width::{advance, display_end, lemma_display_end_concat, lemma_display_end_ordered};
use crate::word::{
    blank_end, dropped_len, is_blank, is_left_open, kept_from, last_visible, lemma_blank_concat,
    lemma_blank_end, lemma_dropped_len, lemma_kept_from, lemma_last_own_row, lemma_last_visible,
    over_wide_rows, word_rows,
};
use crate::wrap::{
    all_fragments, lemma_line_rows, line_fragments, line_rows, usable_width, WrapMode,
};
use vstd::prelude::*;

verus! {

/// The text that the rows show, one after the other.
pub open spec fn shown_text(line: Seq<char>, rows: Seq<(int, int)>) -> Seq<char>
    decreases rows.len(),
{
    if rows.len() == 0 {
        Seq::empty()
    } else {
        shown_text(line, rows.drop_last()) + text_between(line, rows.last().0, rows.last().1)
    }
}

/// Whether `row` is the first grapheme cluster of a part of `line`.
pub open spec fn is_one_cluster(line: Seq<char>, row: (int, int)) -> bool {
    exists|end: int|
        {
            &&& #[trigger] is_range(line, row.0, end)
            &&& row.0 < end
            &&& row.1 - row.0 == grapheme_cuts(text_between(line, row.0, end))[1]
        }
}

/// Whether `row` lies inside piece number `k` and reaches to its end.
pub open spec fn ends_piece(cuts: Seq<int>, row: (int, int), k: int) -> bool {
    0 <= k && k + 1 < cuts.len() && cuts[k] <= row.0 && row.1 == cuts[k + 1]
}

/// A line has at least one row, and its first row starts where the line starts. The rows hold
/// whole characters of it and lie one behind the other, and only an empty line has an empty row.
pub proof fn law_rows_in_order(line: Seq<char>, mode: WrapMode, width: nat, tab_len: u8)
    ensures
        ({
            let rows = line_rows(line, mode, width, tab_len);
            &&& rows.len() > 0
            &&& rows[0].0 == 0
            &&& forall|k: int|
                0 <= k < rows.len() ==> is_range(line, (#[trigger] rows[k]).0, rows[k].1)
            &&& forall|k: int|
                0 <= k < rows.len() && line.len() > 0 ==> (#[trigger] rows[k]).0 < rows[k].1
            &&& forall|k: int, l: int| 0 <= k < l < rows.len() ==> rows[k].1 <= rows[l].0
        }),
{
    let rows = line_rows(line, mode, width, tab_len);
    lemma_line_rows(line, mode, width, tab_len);
    if line.len() > 0 {
        assert forall|k: int| 0 <= k < rows.len() implies (#[trigger] rows[k]).0 < rows[k].1 by {
            assert(is_row(line, rows[k]));
        }
        assert forall|k: int, l: int| 0 <= k < l < rows.len() implies rows[k].1 <= rows[l].0 by {
            lemma_rows_ordered(line, rows, 0, byte_len(line), k, l);
        }
    }
}

/// Rows that lie out a part of a line are ordered.
proof fn lemma_rows_ordered(
    line: Seq<char>,
    rows: Seq<(int, int)>,
    from: int,
    to: int,
    k: int,
    l: int,
)
    requires
        lays_out(line, rows, from, to),
        0 <= k < l < rows.len(),
    ensures
        rows[k].1 <= rows[l].0,
    decreases l - k,
{
    let before = gap(rows, from, to, l);
    assert(is_blank_range(line, before));
    if k + 1 < l {
        lemma_rows_ordered(line, rows, from, to, k, l - 1);
        assert(is_row(line, rows[l - 1]));
    }
}

/// Nothing but white space is left out: before the first row, between two rows and behind the
/// last row there is no other text.
pub proof fn law_only_white_space_is_left_out(
    line: Seq<char>,
    mode: WrapMode,
    width: nat,
    tab_len: u8,
)
    requires
        line.len() > 0,
    ensures
        lays_out(line, line_rows(line, mode, width, tab_len), 0, byte_len(line)),
{
    lemma_line_rows(line, mode, width, tab_len);
}

/// Without wrapping, and with wrapping at grapheme boundaries, nothing at all is left out: the
/// rows, put together again, are the line.
pub proof fn law_glyph_rows_show_everything(
    line: Seq<char>,
    mode: WrapMode,
    width: nat,
    tab_len: u8,
)
    requires
        mode == WrapMode::NoWrap || mode == WrapMode::Glyph,
    ensures
        is_gapless(line_rows(line, mode, width, tab_len), 0, byte_len(line)),
        shown_text(line, line_rows(line, mode, width, tab_len)) == line,
{
    let rows = line_rows(line, mode, width, tab_len);
    lemma_whole_text(line);
    lemma_chars_at_most_bytes(line);
    lemma_line_rows(line, mode, width, tab_len);
    if line.len() > 0 {
        lemma_glyph_rows_lay_out(line, 0, byte_len(line), usable_width(width), tab_len);
    }
    lemma_shown_text(line, rows, byte_len(line));
}

/// Rows without gaps show the text up to where the last of them ends.
proof fn lemma_shown_text(line: Seq<char>, rows: Seq<(int, int)>, to: int)
    requires
        is_range(line, 0, to),
        is_gapless(rows, 0, to),
        forall|k: int| 0 <= k < rows.len() ==> is_range(line, (#[trigger] rows[k]).0, rows[k].1),
    ensures
        shown_text(line, rows) == text_between(line, 0, to),
    decreases rows.len(),
{
    if rows.len() == 0 {
        assert(gap(rows, 0, to, 0) == (0int, to));
        lemma_between_empty(line, 0);
    } else {
        let first = rows.drop_last();
        let last = rows.last();
        assert(gap(rows, 0, to, rows.len() as int) == (last.1, to));
        assert forall|k: int| 0 <= k <= first.len() implies (#[trigger] gap(
            first,
            0,
            last.0,
            k,
        )).0 == gap(first, 0, last.0, k).1 by {
            assert(gap(first, 0, last.0, k) == gap(rows, 0, to, k));
        }
        assert forall|k: int| 0 <= k < first.len() implies is_range(
            line,
            (#[trigger] first[k]).0,
            first[k].1,
        ) by {
            assert(first[k] == rows[k]);
        }
        assert(rows[rows.len() - 1] == last);
        lemma_whole_text(line);
        lemma_shown_text(line, first, last.0);
        lemma_between_concat(line, 0, last.0, last.1);
    }
}

/// A width of zero counts as one.
pub proof fn law_zero_width_counts_as_one(line: Seq<char>, mode: WrapMode, tab_len: u8)
    ensures
        line_rows(line, mode, 0, tab_len) == line_rows(line, mode, 1, tab_len),
{
}

/// The column after a tab is a multiple of the tab length, and the first such column that lies
/// behind the tab.
pub proof fn law_tab_leads_to_next_stop(col: nat, tab_len: u8)
    requires
        tab_len > 0,
    ensures
        advance(col, '\t', tab_len) % (tab_len as nat) == 0,
        col < advance(col, '\t', tab_len) <= col + tab_len,
{
    let tab = tab_len as int;
    vstd::arithmetic::div_mod::lemma_fundamental_div_mod(col as int, tab);
    vstd::arithmetic::div_mod::lemma_mod_bound(col as int, tab);
    let stop = advance(col, '\t', tab_len) as int;
    assert(stop == tab * (col as int / tab + 1)) by (nonlinear_arith)
        requires
            stop == col - col % (tab as nat) + tab,
            col == tab * (col as int / tab) + col as int % tab,
            tab > 0,
    ;
    vstd::arithmetic::div_mod::lemma_mod_multiples_basic(col as int / tab + 1, tab);
    vstd::arithmetic::mul::lemma_mul_is_commutative(tab, col as int / tab + 1);
}

/// The columns of a text are those of its parts, one after the other.
pub proof fn law_columns_add_up(a: Seq<char>, b: Seq<char>, col: nat, tab_len: u8)
    ensures
        display_end(a + b, col, tab_len) == display_end(
            b,
            display_end(a, col, tab_len),
            tab_len,
        ),
{
    lemma_display_end_concat(a, b, col, tab_len);
}

/// A row is extended as far as it goes: up to the cut where it stops it takes no more columns
/// than allowed, and up to every cut behind that it would take more.
pub proof fn law_row_goes_as_far_as_it_fits(
    line: Seq<char>,
    cuts: Seq<int>,
    start: int,
    i: int,
    limit: nat,
    tab_len: u8,
    k: int,
)
    requires
        well_cut(line, cuts),
        0 <= i < cuts.len(),
        is_range(line, start, cuts[i]),
        i < k < cuts.len(),
    ensures
        k <= fit_end(line, cuts, start, i, limit, tab_len) <==> row_width(
            line,
            start,
            cuts[k],
            tab_len,
        ) <= limit,
{
    let stop = fit_end(line, cuts, start, i, limit, tab_len);
    lemma_fit_end(line, cuts, start, i, limit, tab_len);
    lemma_row_width_at_cuts(line, cuts, start, i, k, tab_len);
    lemma_row_width_at_cuts(line, cuts, start, i, stop, tab_len);
    if k <= stop {
        lemma_row_width_at_cuts(line, cuts, start, k, stop, tab_len);
    } else {
        lemma_row_width_at_cuts(line, cuts, start, i, stop + 1, tab_len);
        lemma_row_width_at_cuts(line, cuts, start, stop + 1, k, tab_len);
    }
}

/// Whether a row may start at `at`: at a cut, or inside a piece of white space.
pub open spec fn starts_at_cut(line: Seq<char>, cuts: Seq<int>, at: int) -> bool {
    exists|m: int|
        {
            &&& 0 <= m < cuts.len()
            &&& #[trigger] cuts[m] == at || (m + 1 < cuts.len() && cuts[m] < at < cuts[m + 1]
                && is_blank(text_between(line, cuts[m], cuts[m + 1])))
        }
}

/// Whether `row` fits in `width` columns or cannot be broken: where `split` is set it is a
/// single grapheme cluster, otherwise it belongs to a single piece.
pub open spec fn fits_or_is_alone(
    line: Seq<char>,
    cuts: Seq<int>,
    row: (int, int),
    width: nat,
    tab_len: u8,
    split: bool,
) -> bool {
    ||| row_width(line, row.0, row.1, tab_len) <= width
    ||| split && is_one_cluster(line, row)
    ||| !split && exists|k: int| #[trigger] ends_piece(cuts, row, k)
}

/// Whether `row` starts and ends where rows may be broken.
pub open spec fn keeps_to_cuts(line: Seq<char>, cuts: Seq<int>, row: (int, int)) -> bool {
    starts_at_cut(line, cuts, row.0) && cuts.contains(row.1)
}

/// Rows that are broken between grapheme clusters fit, or hold a single cluster.
proof fn lemma_glyph_rows_fit(line: Seq<char>, start: int, end: int, width: nat, tab_len: u8)
    requires
        is_range(line, start, end),
    ensures
        forall|k: int|
            0 <= k < glyph_rows(line, start, end, width, tab_len).len() ==> {
                let row = #[trigger] glyph_rows(line, start, end, width, tab_len)[k];
                row_width(line, row.0, row.1, tab_len) <= width || is_one_cluster(line, row)
            },
    decreases end - start,
{
    if start < end {
        let rest = text_between(line, start, end);
        let cuts = grapheme_cuts(rest);
        let k = fit_end(rest, cuts, 0, 1, width, tab_len);
        let stop = start + first_row_end(rest, cuts, width, tab_len);
        lemma_first_row(line, start, end, width, tab_len);
        lemma_encode_between(line, start, end);
        lemma_chars_at_most_bytes(rest);
        lemma_grapheme_cuts(rest);
        lemma_cut_count(rest, cuts);
        lemma_fit_end(rest, cuts, 0, 1, width, tab_len);
        lemma_cut_range(rest, cuts, 0, k);
        lemma_row_width_of_part(line, start, end, 0, cuts[k], tab_len);
        if k == 1 {
            let row = (start, stop);
            assert(is_range(line, row.0, end));
            assert(row.1 - row.0 == grapheme_cuts(text_between(line, row.0, end))[1]);
            assert(is_one_cluster(line, row));
        }
        lemma_glyph_rows_fit(line, stop, end, width, tab_len);
        let later = glyph_rows(line, stop, end, width, tab_len);
        let rows = glyph_rows(line, start, end, width, tab_len);
        assert forall|n: int| 0 <= n < rows.len() implies row_width(
            line,
            (#[trigger] rows[n]).0,
            rows[n].1,
            tab_len,
        ) <= width || is_one_cluster(line, rows[n]) by {
            if n > 0 {
                assert(rows[n] == later[n - 1]);
            }
        }
    }
}

/// Whether `row` is as a row of a line must be that is broken at `cuts`.
spec fn is_sound(
    line: Seq<char>,
    cuts: Seq<int>,
    row: (int, int),
    width: nat,
    tab_len: u8,
    split: bool,
) -> bool {
    &&& fits_or_is_alone(line, cuts, row, width, tab_len, split)
    &&& !split ==> keeps_to_cuts(line, cuts, row)
}

/// A piece that is wider than a row, or the end of one, is shown by sound rows.
proof fn lemma_over_wide_rows_sound(
    line: Seq<char>,
    cuts: Seq<int>,
    k: int,
    start: int,
    width: nat,
    tab_len: u8,
    split: bool,
)
    requires
        well_cut(line, cuts),
        0 <= k,
        k + 1 < cuts.len(),
        cuts[k] <= start < cuts[k + 1],
        is_range(line, start, cuts[k + 1]),
        start == cuts[k] || is_blank(text_between(line, cuts[k], cuts[k + 1])),
    ensures
        forall|n: int|
            0 <= n < over_wide_rows(line, start, cuts[k + 1], width, tab_len, split).len()
                ==> is_sound(
                line,
                cuts,
                #[trigger] over_wide_rows(line, start, cuts[k + 1], width, tab_len, split)[n],
                width,
                tab_len,
                split,
            ),
{
    lemma_glyph_rows_fit(line, start, cuts[k + 1], width, tab_len);
    assert(ends_piece(cuts, (start, cuts[k + 1]), k));
    assert(starts_at_cut(line, cuts, start)) by {
        assert(cuts[k] == start || cuts[k] < start);
    }
    assert(cuts.contains(cuts[k + 1]));
}

/// Rows one after the other are sound if all of them are.
proof fn lemma_sound_concat(
    line: Seq<char>,
    cuts: Seq<int>,
    a: Seq<(int, int)>,
    b: Seq<(int, int)>,
    width: nat,
    tab_len: u8,
    split: bool,
)
    requires
        forall|n: int|
            0 <= n < a.len() ==> is_sound(line, cuts, #[trigger] a[n], width, tab_len, split),
        forall|n: int|
            0 <= n < b.len() ==> is_sound(line, cuts, #[trigger] b[n], width, tab_len, split),
    ensures
        forall|n: int|
            0 <= n < (a + b).len() ==> is_sound(
                line,
                cuts,
                #[trigger] (a + b)[n],
                width,
                tab_len,
                split,
            ),
{
    assert forall|n: int| 0 <= n < (a + b).len() implies is_sound(
        line,
        cuts,
        #[trigger] (a + b)[n],
        width,
        tab_len,
        split,
    ) by {
        if n < a.len() {
            assert((a + b)[n] == a[n]);
        } else {
            assert((a + b)[n] == b[n - a.len()]);
        }
    }
}

/// Rows that are broken at word boundaries are sound.
proof fn lemma_word_rows_sound(
    line: Seq<char>,
    cuts: Seq<int>,
    start: int,
    i: int,
    width: nat,
    tab_len: u8,
    split: bool,
)
    requires
        well_cut(line, cuts),
        0 <= i < cuts.len(),
        is_range(line, start, cuts[i]),
        row_width(line, start, cuts[i], tab_len) <= width,
        !split ==> starts_at_cut(line, cuts, start),
    ensures
        forall|n: int|
            0 <= n < word_rows(line, cuts, start, i, width, tab_len, split).len() ==> is_sound(
                line,
                cuts,
                #[trigger] word_rows(line, cuts, start, i, width, tab_len, split)[n],
                width,
                tab_len,
                split,
            ),
    decreases cuts.len() - i, cuts[i] - start,
{
    let j = fit_end(line, cuts, start, i, width, tab_len);
    lemma_fit_end(line, cuts, start, i, width, tab_len);
    lemma_cut_range(line, cuts, i, j);
    let here = cuts[j];
    let row = seq![(start, here)];
    assert(cuts.contains(here));
    assert(is_sound(line, cuts, (start, here), width, tab_len, split));
    if j + 1 < cuts.len() {
        let next = cuts[j + 1];
        lemma_cut_range(line, cuts, j, j + 1);
        lemma_cut_range(line, cuts, j, j);
        lemma_cut_range(line, cuts, j + 1, j + 1);
        lemma_row_width_empty(line, here, tab_len);
        lemma_row_width_empty(line, next, tab_len);
        assert(starts_at_cut(line, cuts, here));
        assert(starts_at_cut(line, cuts, next));
        if start < here {
            if is_blank(text_between(line, here, next)) {
                let used = row_width(line, start, here, tab_len);
                let kept = kept_from(line, here, next, used, width, tab_len);
                lemma_kept_from(line, here, next, used, width, tab_len);
                if kept >= next {
                    let later = word_rows(line, cuts, next, j + 1, width, tab_len, split);
                    lemma_word_rows_sound(line, cuts, next, j + 1, width, tab_len, split);
                    lemma_sound_concat(line, cuts, row, later, width, tab_len, split);
                } else if row_width(line, kept, next, tab_len) <= width {
                    let led = word_rows(line, cuts, kept, j + 1, width, tab_len, split);
                    assert(starts_at_cut(line, cuts, kept)) by {
                        assert(cuts[j] == kept || cuts[j] < kept);
                    }
                    lemma_word_rows_sound(line, cuts, kept, j + 1, width, tab_len, split);
                    lemma_sound_concat(line, cuts, row, led, width, tab_len, split);
                } else {
                    let own = over_wide_rows(line, kept, next, width, tab_len, split);
                    let later = word_rows(line, cuts, next, j + 1, width, tab_len, split);
                    lemma_over_wide_rows_sound(line, cuts, j, kept, width, tab_len, split);
                    lemma_word_rows_sound(line, cuts, next, j + 1, width, tab_len, split);
                    lemma_sound_concat(line, cuts, own, later, width, tab_len, split);
                    lemma_sound_concat(line, cuts, row, own + later, width, tab_len, split);
                }
            } else {
                let rest = word_rows(line, cuts, here, j, width, tab_len, split);
                lemma_word_rows_sound(line, cuts, here, j, width, tab_len, split);
                lemma_sound_concat(line, cuts, row, rest, width, tab_len, split);
            }
        } else {
            let own = over_wide_rows(line, here, next, width, tab_len, split);
            lemma_over_wide_rows_sound(line, cuts, j, here, width, tab_len, split);
            if is_left_open(line, cuts, j, width, tab_len, split) {
                let from = own.last().0;
                let later = word_rows(line, cuts, from, j + 1, width, tab_len, split);
                lemma_last_own_row(line, here, next, width, tab_len, split);
                lemma_word_rows_sound(line, cuts, from, j + 1, width, tab_len, split);
                lemma_sound_concat(line, cuts, own.drop_last(), later, width, tab_len, split);
            } else {
                let later = word_rows(line, cuts, next, j + 1, width, tab_len, split);
                lemma_word_rows_sound(line, cuts, next, j + 1, width, tab_len, split);
                lemma_sound_concat(line, cuts, own, later, width, tab_len, split);
            }
        }
    }
}

/// Where words may be split, every row fits in the width, or is a single grapheme cluster that
/// is wider.
pub proof fn law_rows_fit_or_are_one_cluster(
    line: Seq<char>,
    mode: WrapMode,
    width: nat,
    tab_len: u8,
    k: int,
)
    requires
        mode == WrapMode::Glyph || mode == WrapMode::WordOrGlyph,
        0 <= k < line_rows(line, mode, width, tab_len).len(),
    ensures
        ({
            let row = line_rows(line, mode, width, tab_len)[k];
            ||| row_width(line, row.0, row.1, tab_len) <= usable_width(width)
            ||| is_one_cluster(line, row)
        }),
{
    let cuts = word_cuts(line);
    let w = usable_width(width);
    lemma_whole_text(line);
    lemma_glyph_rows_fit(line, 0, byte_len(line), w, tab_len);
    lemma_word_cuts(line);
    lemma_cut_range(line, cuts, 0, 0);
    lemma_row_width_empty(line, 0, tab_len);
    assert(starts_at_cut(line, cuts, 0));
    lemma_word_rows_sound(line, cuts, 0, 0, w, tab_len, true);
    let rows = word_rows(line, cuts, 0, 0, w, tab_len, true);
    if line.len() > 0 && mode == WrapMode::WordOrGlyph {
        assert(is_sound(line, cuts, rows[k], w, tab_len, true));
    }
}

/// With wrapping at word boundaries only, every row ends at a word boundary, and starts at one
/// or inside white space. It fits in the width, or belongs to a single piece between two word
/// boundaries.
pub proof fn law_words_are_not_broken_into(
    line: Seq<char>,
    width: nat,
    tab_len: u8,
    k: int,
)
    requires
        line.len() > 0,
        0 <= k < line_rows(line, WrapMode::Word, width, tab_len).len(),
    ensures
        ({
            let row = line_rows(line, WrapMode::Word, width, tab_len)[k];
            let cuts = word_cuts(line);
            &&& keeps_to_cuts(line, cuts, row)
            &&& fits_or_is_alone(line, cuts, row, usable_width(width), tab_len, false)
        }),
{
    let cuts = word_cuts(line);
    let w = usable_width(width);
    lemma_word_cuts(line);
    lemma_cut_range(line, cuts, 0, 0);
    lemma_row_width_empty(line, 0, tab_len);
    assert(starts_at_cut(line, cuts, 0));
    lemma_word_rows_sound(line, cuts, 0, 0, w, tab_len, false);
    let rows = word_rows(line, cuts, 0, 0, w, tab_len, false);
    assert(is_sound(line, cuts, rows[k], w, tab_len, false));
}

/// Every row that is broken between grapheme clusters is the first row of what is left.
pub proof fn lemma_glyph_row_is_first(
    line: Seq<char>,
    start: int,
    end: int,
    width: nat,
    tab_len: u8,
    k: int,
)
    requires
        is_range(line, start, end),
        0 <= k < glyph_rows(line, start, end, width, tab_len).len(),
    ensures
        ({
            let row = glyph_rows(line, start, end, width, tab_len)[k];
            let rest = text_between(line, row.0, end);
            &&& is_range(line, row.0, end)
            &&& row.0 < end
            &&& row.1 - row.0 == first_row_end(rest, grapheme_cuts(rest), width, tab_len)
        }),
    decreases end - start,
{
    let rest = text_between(line, start, end);
    let stop = start + first_row_end(rest, grapheme_cuts(rest), width, tab_len);
    lemma_first_row(line, start, end, width, tab_len);
    if k > 0 {
        let later = glyph_rows(line, stop, end, width, tab_len);
        assert(glyph_rows(line, start, end, width, tab_len)[k] == later[k - 1]);
        lemma_glyph_row_is_first(line, stop, end, width, tab_len, k - 1);
    }
}

/// With wrapping at grapheme boundaries, a row is broken between two grapheme clusters of what
/// is left of the line, and only where the next cluster no longer fits.
pub proof fn law_glyph_rows_are_broken_between_clusters(
    line: Seq<char>,
    width: nat,
    tab_len: u8,
    k: int,
)
    requires
        line.len() > 0,
        0 <= k < line_rows(line, WrapMode::Glyph, width, tab_len).len(),
    ensures
        ({
            let row = line_rows(line, WrapMode::Glyph, width, tab_len)[k];
            let rest = text_between(line, row.0, byte_len(line));
            let cuts = grapheme_cuts(rest);
            exists|m: int|
                {
                    &&& 0 < m < cuts.len()
                    &&& row.1 == row.0 + #[trigger] cuts[m]
                    &&& m + 1 < cuts.len() ==> row_width(
                        line,
                        row.0,
                        row.0 + cuts[m + 1],
                        tab_len,
                    ) > usable_width(width)
                }
        }),
{
    let w = usable_width(width);
    let end = byte_len(line);
    let row = line_rows(line, WrapMode::Glyph, width, tab_len)[k];
    let rest = text_between(line, row.0, end);
    let cuts = grapheme_cuts(rest);
    lemma_whole_text(line);
    lemma_glyph_row_is_first(line, 0, end, w, tab_len, k);
    lemma_encode_between(line, row.0, end);
    lemma_chars_at_most_bytes(rest);
    lemma_grapheme_cuts(rest);
    lemma_cut_count(rest, cuts);
    lemma_fit_end(rest, cuts, 0, 1, w, tab_len);
    let m = fit_end(rest, cuts, 0, 1, w, tab_len);
    if m + 1 < cuts.len() {
        lemma_cut_range(rest, cuts, 0, m + 1);
        lemma_row_width_of_part(line, row.0, end, 0, cuts[m + 1], tab_len);
    }
    assert(row.1 == row.0 + cuts[m]);
}

/// Whether some row shows everything from `start` to `end`.
pub open spec fn in_one_row(rows: Seq<(int, int)>, start: int, end: int) -> bool {
    exists|n: int| 0 <= n < rows.len() && (#[trigger] rows[n]).0 <= start && end <= rows[n].1
}

/// What one row shows, it shows also where other rows stand before and behind it.
proof fn lemma_in_one_row(
    before: Seq<(int, int)>,
    rows: Seq<(int, int)>,
    behind: Seq<(int, int)>,
    start: int,
    end: int,
)
    requires
        in_one_row(rows, start, end),
    ensures
        in_one_row(before + rows, start, end),
        in_one_row(rows + behind, start, end),
        in_one_row(before + (rows + behind), start, end),
        in_one_row(before + (behind + rows), start, end),
{
    let n = choose|n: int|
        0 <= n < rows.len() && (#[trigger] rows[n]).0 <= start && end <= rows[n].1;
    assert((before + rows)[before.len() + n] == rows[n]);
    assert((rows + behind)[n] == rows[n]);
    assert((before + (rows + behind))[before.len() + n] == rows[n]);
    assert((before + (behind + rows))[before.len() + behind.len() + n] == rows[n]);
}

/// A piece that is no white space stands in one row, unless it is split.
proof fn lemma_piece_in_one_row(
    line: Seq<char>,
    cuts: Seq<int>,
    start: int,
    i: int,
    width: nat,
    tab_len: u8,
    split: bool,
    k: int,
)
    requires
        well_cut(line, cuts),
        0 <= i <= k,
        k + 1 < cuts.len(),
        is_range(line, start, cuts[i]),
        !is_blank(text_between(line, cuts[k], cuts[k + 1])),
        split ==> row_width(line, cuts[k], cuts[k + 1], tab_len) <= width,
    ensures
        in_one_row(
            word_rows(line, cuts, start, i, width, tab_len, split),
            cuts[k],
            cuts[k + 1],
        ),
    decreases cuts.len() - i, cuts[i] - start,
{
    let rows = word_rows(line, cuts, start, i, width, tab_len, split);
    let j = fit_end(line, cuts, start, i, width, tab_len);
    lemma_fit_end(line, cuts, start, i, width, tab_len);
    lemma_cut_range(line, cuts, i, j);
    lemma_cut_range(line, cuts, i, k);
    lemma_cut_range(line, cuts, k, k + 1);
    let here = cuts[j];
    let row = seq![(start, here)];
    if k < j {
        lemma_cut_range(line, cuts, k + 1, j);
        assert(rows[0] == (start, here));
    } else {
        let next = cuts[j + 1];
        let none = Seq::<(int, int)>::empty();
        lemma_cut_range(line, cuts, j, j + 1);
        lemma_cut_range(line, cuts, j, j);
        lemma_cut_range(line, cuts, j + 1, j + 1);
        if start < here {
            if is_blank(text_between(line, here, next)) {
                let used = row_width(line, start, here, tab_len);
                let kept = kept_from(line, here, next, used, width, tab_len);
                lemma_kept_from(line, here, next, used, width, tab_len);
                if kept >= next || row_width(line, kept, next, tab_len) <= width {
                    let led = word_rows(line, cuts, kept, j + 1, width, tab_len, split);
                    lemma_piece_in_one_row(line, cuts, kept, j + 1, width, tab_len, split, k);
                    lemma_in_one_row(row, led, none, cuts[k], cuts[k + 1]);
                } else {
                    let own = over_wide_rows(line, kept, next, width, tab_len, split);
                    let later = word_rows(line, cuts, next, j + 1, width, tab_len, split);
                    lemma_piece_in_one_row(line, cuts, next, j + 1, width, tab_len, split, k);
                    lemma_in_one_row(row, later, own, cuts[k], cuts[k + 1]);
                }
            } else {
                let rest = word_rows(line, cuts, here, j, width, tab_len, split);
                lemma_piece_in_one_row(line, cuts, here, j, width, tab_len, split, k);
                lemma_in_one_row(row, rest, none, cuts[k], cuts[k + 1]);
            }
        } else {
            let own = over_wide_rows(line, here, next, width, tab_len, split);
            let shared = is_left_open(line, cuts, j, width, tab_len, split);
            let from = if shared {
                own.last().0
            } else {
                next
            };
            let later = word_rows(line, cuts, from, j + 1, width, tab_len, split);
            if k == j {
                assert(!split);
                assert(own[0] == (here, next));
                lemma_in_one_row(none, own, later, cuts[k], cuts[k + 1]);
            } else {
                lemma_last_own_row(line, here, next, width, tab_len, split);
                lemma_piece_in_one_row(line, cuts, from, j + 1, width, tab_len, split, k);
                lemma_in_one_row(own, later, none, cuts[k], cuts[k + 1]);
                lemma_in_one_row(own.drop_last(), later, none, cuts[k], cuts[k + 1]);
            }
        }
    }
}

/// A word stands in one row: with wrapping at word boundaries only, whatever its width; where
/// words may be split, if it is no wider than the rows.
pub proof fn law_word_stands_in_one_row(
    line: Seq<char>,
    mode: WrapMode,
    width: nat,
    tab_len: u8,
    k: int,
)
    requires
        mode == WrapMode::Word || mode == WrapMode::WordOrGlyph,
        0 <= k,
        k + 1 < word_cuts(line).len(),
        !is_blank(text_between(line, word_cuts(line)[k], word_cuts(line)[k + 1])),
        mode == WrapMode::WordOrGlyph ==> row_width(
            line,
            word_cuts(line)[k],
            word_cuts(line)[k + 1],
            tab_len,
        ) <= usable_width(width),
    ensures
        in_one_row(
            line_rows(line, mode, width, tab_len),
            word_cuts(line)[k],
            word_cuts(line)[k + 1],
        ),
{
    let cuts = word_cuts(line);
    let split = mode == WrapMode::WordOrGlyph;
    lemma_word_cuts(line);
    lemma_cut_count(line, cuts);
    lemma_cut_range(line, cuts, 0, 0);
    lemma_piece_in_one_row(line, cuts, 0, 0, usable_width(width), tab_len, split, k);
}

/// What is left of a piece takes no more columns than the piece.
pub proof fn lemma_end_of_piece_is_narrower(
    line: Seq<char>,
    start: int,
    mid: int,
    end: int,
    tab_len: u8,
)
    requires
        is_range(line, start, mid),
        is_range(line, mid, end),
    ensures
        row_width(line, mid, end, tab_len) <= row_width(line, start, end, tab_len),
{
    lemma_row_width_extend(line, start, mid, end, tab_len);
    lemma_display_end_ordered(
        text_between(line, mid, end),
        0,
        row_width(line, start, mid, tab_len),
        tab_len,
    );
}

/// Where the next piece fits in a row, one row is followed by the rows of what is left.
proof fn lemma_word_rows_go_on(
    line: Seq<char>,
    cuts: Seq<int>,
    start: int,
    i: int,
    width: nat,
    tab_len: u8,
    split: bool,
)
    requires
        well_cut(line, cuts),
        0 <= i < cuts.len(),
        is_range(line, start, cuts[i]),
        ({
            let j = fit_end(line, cuts, start, i, width, tab_len);
            &&& j + 1 < cuts.len()
            &&& row_width(line, cuts[j], cuts[j + 1], tab_len) <= width
        }),
    ensures
        ({
            let j = fit_end(line, cuts, start, i, width, tab_len);
            let here = cuts[j];
            let next = cuts[j + 1];
            let used = row_width(line, start, here, tab_len);
            let kept = kept_from(line, here, next, used, width, tab_len);
            &&& i <= j
            &&& start < here
            &&& is_range(line, here, here)
            &&& is_range(line, kept, next)
            &&& word_rows(line, cuts, start, i, width, tab_len, split) == seq![(start, here)]
                + if is_blank(text_between(line, here, next)) {
                word_rows(line, cuts, kept, j + 1, width, tab_len, split)
            } else {
                word_rows(line, cuts, here, j, width, tab_len, split)
            }
        }),
{
    let j = fit_end(line, cuts, start, i, width, tab_len);
    let here = cuts[j];
    let next = cuts[j + 1];
    let used = row_width(line, start, here, tab_len);
    let kept = kept_from(line, here, next, used, width, tab_len);
    lemma_fit_end(line, cuts, start, i, width, tab_len);
    lemma_cut_range(line, cuts, i, j);
    lemma_cut_range(line, cuts, j, j);
    lemma_cut_range(line, cuts, j, j + 1);
    lemma_kept_from(line, here, next, used, width, tab_len);
    lemma_end_of_piece_is_narrower(line, here, kept, next, tab_len);
    assert(start < here);
    assert(kept >= next ==> kept == next);
}

/// Where every piece fits, it makes no difference whether pieces may be split.
proof fn lemma_no_piece_is_split(
    line: Seq<char>,
    cuts: Seq<int>,
    start: int,
    i: int,
    width: nat,
    tab_len: u8,
)
    requires
        well_cut(line, cuts),
        0 <= i < cuts.len(),
        is_range(line, start, cuts[i]),
        forall|k: int|
            0 <= k && k + 1 < cuts.len() ==> row_width(
                line,
                #[trigger] cuts[k],
                cuts[k + 1],
                tab_len,
            ) <= width,
    ensures
        word_rows(line, cuts, start, i, width, tab_len, true) == word_rows(
            line,
            cuts,
            start,
            i,
            width,
            tab_len,
            false,
        ),
    decreases cuts.len() - i, cuts[i] - start,
{
    let j = fit_end(line, cuts, start, i, width, tab_len);
    lemma_fit_end(line, cuts, start, i, width, tab_len);
    if j + 1 < cuts.len() {
        let here = cuts[j];
        let next = cuts[j + 1];
        assert(row_width(line, here, next, tab_len) <= width);
        lemma_word_rows_go_on(line, cuts, start, i, width, tab_len, true);
        lemma_word_rows_go_on(line, cuts, start, i, width, tab_len, false);
        if is_blank(text_between(line, here, next)) {
            let used = row_width(line, start, here, tab_len);
            let kept = kept_from(line, here, next, used, width, tab_len);
            lemma_no_piece_is_split(line, cuts, kept, j + 1, width, tab_len);
        } else {
            lemma_no_piece_is_split(line, cuts, here, j, width, tab_len);
        }
    }
}

/// Grapheme wrapping is a fallback for long words: where every piece between two word boundaries
/// fits in the width, lines are wrapped as if at word boundaries only.
pub proof fn law_fallback_is_for_wide_pieces(line: Seq<char>, width: nat, tab_len: u8)
    requires
        forall|k: int|
            0 <= k && k + 1 < word_cuts(line).len() ==> row_width(
                line,
                #[trigger] word_cuts(line)[k],
                word_cuts(line)[k + 1],
                tab_len,
            ) <= usable_width(width),
    ensures
        line_rows(line, WrapMode::WordOrGlyph, width, tab_len) == line_rows(
            line,
            WrapMode::Word,
            width,
            tab_len,
        ),
{
    let cuts = word_cuts(line);
    lemma_word_cuts(line);
    lemma_cut_range(line, cuts, 0, 0);
    lemma_no_piece_is_split(line, cuts, 0, 0, usable_width(width), tab_len);
}

/// A line that fits in the width keeps one row, which shows all of it.
pub proof fn law_line_that_fits_keeps_one_row(
    line: Seq<char>,
    mode: WrapMode,
    width: nat,
    tab_len: u8,
)
    requires
        display_end(line, 0, tab_len) <= usable_width(width),
    ensures
        line_rows(line, mode, width, tab_len) == seq![(0int, byte_len(line))],
{
    let w = usable_width(width);
    let to = byte_len(line);
    lemma_whole_text(line);
    lemma_chars_at_most_bytes(line);
    if line.len() > 0 {
        let words = word_cuts(line);
        lemma_word_cuts(line);
        lemma_cut_count(line, words);
        lemma_cut_range(line, words, 0, 0);
        lemma_fit_end(line, words, 0, 0, w, tab_len);
        law_row_goes_as_far_as_it_fits(line, words, 0, 0, w, tab_len, words.len() - 1);
        let clusters = grapheme_cuts(line);
        lemma_grapheme_cuts(line);
        lemma_cut_count(line, clusters);
        lemma_cut_range(line, clusters, 0, 1);
        lemma_fit_end(line, clusters, 0, 1, w, tab_len);
        if clusters.len() > 2 {
            law_row_goes_as_far_as_it_fits(line, clusters, 0, 1, w, tab_len, clusters.len() - 1);
        }
        assert(first_row_end(line, clusters, w, tab_len) == to);
        assert(seq![(0int, to)] + glyph_rows(line, to, to, w, tab_len) =~= seq![(0int, to)]);
    }
}

/// What is dropped of leading white space are whole grapheme clusters of white space that take
/// no more than `cells` columns together, and no number of leading clusters of white space takes
/// more columns than they do and still fits.
pub proof fn law_dropped_cells(text: Seq<char>, cells: nat, tab_len: u8, m: int)
    requires
        0 <= m < grapheme_cuts(text).len(),
    ensures
        ({
            let cuts = grapheme_cuts(text);
            let dropped = dropped_len(text, cuts, cells, tab_len);
            &&& cuts.contains(dropped)
            &&& is_blank(text_between(text, 0, dropped))
            &&& row_width(text, 0, dropped, tab_len) <= cells
            &&& is_blank(text_between(text, 0, cuts[m])) && row_width(text, 0, cuts[m], tab_len)
                <= cells ==> row_width(text, 0, cuts[m], tab_len) <= row_width(
                text,
                0,
                dropped,
                tab_len,
            )
        }),
{
    let cuts = grapheme_cuts(text);
    let stop = blank_end(text, cuts, 0, cells, tab_len);
    lemma_grapheme_cuts(text);
    lemma_cut_range(text, cuts, 0, 0);
    lemma_between_empty(text, 0);
    lemma_row_width_empty(text, 0, tab_len);
    lemma_blank_end(text, cuts, 0, cells, tab_len);
    lemma_last_visible(text, cuts, stop, tab_len);
    lemma_dropped_len(text, cuts, cells, tab_len);
    assert(cuts.contains(cuts[last_visible(text, cuts, stop, tab_len)]));
    lemma_row_width_at_cuts(text, cuts, 0, 0, stop, tab_len);
    lemma_row_width_at_cuts(text, cuts, 0, 0, m, tab_len);
    if m <= stop {
        lemma_row_width_at_cuts(text, cuts, 0, m, stop, tab_len);
    } else {
        lemma_cut_range(text, cuts, 0, stop);
        lemma_cut_range(text, cuts, stop, stop + 1);
        lemma_cut_range(text, cuts, 0, stop + 1);
        lemma_cut_range(text, cuts, stop + 1, m);
        lemma_blank_concat(text, 0, cuts[stop + 1], cuts[m]);
        lemma_blank_concat(text, 0, cuts[stop], cuts[stop + 1]);
        lemma_row_width_at_cuts(text, cuts, 0, stop + 1, m, tab_len);
    }
}

/// Of white space behind a full row the first grapheme cluster is dropped, however wide it is,
/// and nothing else.
pub proof fn law_full_row_drops_first_cluster(
    line: Seq<char>,
    start: int,
    end: int,
    width: nat,
    tab_len: u8,
)
    requires
        is_range(line, start, end),
        start < end,
    ensures
        ({
            let kept = kept_from(line, start, end, width, width, tab_len);
            &&& kept == start + grapheme_cuts(text_between(line, start, end))[1]
            &&& start < kept <= end
            &&& is_one_cluster(line, (start, kept))
        }),
{
    let row = (start, kept_from(line, start, end, width, width, tab_len));
    lemma_kept_from(line, start, end, width, width, tab_len);
    assert(is_range(line, row.0, end));
    assert(row.1 - row.0 == grapheme_cuts(text_between(line, row.0, end))[1]);
}

/// A text of a single character is a single grapheme cluster.
proof fn lemma_one_char_is_one_cluster(text: Seq<char>)
    requires
        text.len() == 1,
    ensures
        grapheme_cuts(text).len() == 2,
{
    let cuts = grapheme_cuts(text);
    let to = byte_len(text);
    lemma_grapheme_cuts(text);
    lemma_cut_count(text, cuts);
    if cuts.len() > 2 {
        let a = text_between(text, 0, cuts[1]);
        let b = text_between(text, cuts[1], to);
        lemma_cut_range(text, cuts, 0, 1);
        lemma_cut_range(text, cuts, 1, cuts.len() - 1);
        lemma_encode_between(text, 0, cuts[1]);
        lemma_encode_between(text, cuts[1], to);
        lemma_chars_at_most_bytes(a);
        lemma_chars_at_most_bytes(b);
        lemma_whole_text(text);
        lemma_between_concat(text, 0, cuts[1], to);
    }
}

/// White space of one character or one grapheme cluster behind a full row, however wide it is,
/// does not get a row of its own, nor does it lead the next row: the next row starts behind it.
pub proof fn law_space_behind_full_row_is_dropped(
    line: Seq<char>,
    cuts: Seq<int>,
    start: int,
    i: int,
    width: nat,
    tab_len: u8,
    split: bool,
)
    requires
        well_cut(line, cuts),
        0 <= i < cuts.len(),
        is_range(line, start, cuts[i]),
        ({
            let j = fit_end(line, cuts, start, i, width, tab_len);
            let space = text_between(line, cuts[j], cuts[j + 1]);
            &&& j + 1 < cuts.len()
            &&& start < cuts[j]
            &&& row_width(line, start, cuts[j], tab_len) == width
            &&& is_blank(space)
            &&& space.len() == 1 || grapheme_cuts(space).len() == 2
        }),
    ensures
        ({
            let j = fit_end(line, cuts, start, i, width, tab_len);
            word_rows(line, cuts, start, i, width, tab_len, split) == seq![(start, cuts[j])]
                + word_rows(line, cuts, cuts[j + 1], j + 1, width, tab_len, split)
        }),
{
    let j = fit_end(line, cuts, start, i, width, tab_len);
    let here = cuts[j];
    let next = cuts[j + 1];
    let space = text_between(line, here, next);
    lemma_fit_end(line, cuts, start, i, width, tab_len);
    lemma_cut_range(line, cuts, j, j + 1);
    lemma_encode_between(line, here, next);
    lemma_grapheme_cuts(space);
    if space.len() == 1 {
        lemma_one_char_is_one_cluster(space);
    }
}

/// A word that is split shares its last row with the next row, if that ends with white space or
/// with the line and fits there as a whole: both are shown in one row.
pub proof fn law_split_word_shares_its_last_row(
    line: Seq<char>,
    cuts: Seq<int>,
    i: int,
    width: nat,
    tab_len: u8,
)
    requires
        well_cut(line, cuts),
        0 <= i,
        i + 2 < cuts.len(),
        row_width(line, cuts[i], cuts[i + 1], tab_len) > width,
        i == 0 || is_blank(text_between(line, cuts[i - 1], cuts[i])),
        !is_blank(text_between(line, cuts[i], cuts[i + 1])),
        is_blank(text_between(line, cuts[i + 1], cuts[i + 2])),
        ({
            let last = glyph_rows(line, cuts[i], cuts[i + 1], width, tab_len).last();
            let stop = fit_end(line, cuts, cuts[i + 1], i + 1, width, tab_len);
            &&& i + 1 < stop
            &&& row_width(line, last.0, cuts[stop], tab_len) <= width
            &&& stop + 1 == cuts.len() || is_blank(text_between(line, cuts[stop - 1], cuts[stop]))
        }),
    ensures
        ({
            let own = glyph_rows(line, cuts[i], cuts[i + 1], width, tab_len);
            let stop = fit_end(line, cuts, cuts[i + 1], i + 1, width, tab_len);
            let rows = word_rows(line, cuts, cuts[i], i, width, tab_len, true);
            &&& 0 < own.len() <= rows.len()
            &&& own.last().1 == cuts[i + 1]
            &&& rows.take(own.len() - 1) == own.drop_last()
            &&& rows[own.len() - 1] == (own.last().0, cuts[stop])
        }),
{
    let own = glyph_rows(line, cuts[i], cuts[i + 1], width, tab_len);
    let from = own.last().0;
    let stop = fit_end(line, cuts, cuts[i + 1], i + 1, width, tab_len);
    let end = fit_end(line, cuts, from, i + 1, width, tab_len);
    let later = word_rows(line, cuts, from, i + 1, width, tab_len, true);
    lemma_cut_range(line, cuts, i, i + 1);
    lemma_last_own_row(line, cuts[i], cuts[i + 1], width, tab_len, true);
    lemma_fit_end(line, cuts, cuts[i + 1], i + 1, width, tab_len);
    lemma_row_width_at_cuts(line, cuts, from, i + 1, stop, tab_len);
    assert(is_left_open(line, cuts, i, width, tab_len, true));
    lemma_fit_end(line, cuts, from, i + 1, width, tab_len);
    law_row_goes_as_far_as_it_fits(line, cuts, from, i + 1, width, tab_len, stop);
    if stop + 1 < cuts.len() {
        law_row_goes_as_far_as_it_fits(line, cuts, from, i + 1, width, tab_len, stop + 1);
        lemma_cut_range(line, cuts, i + 1, stop + 1);
        lemma_end_of_piece_is_narrower(line, from, cuts[i + 1], cuts[stop + 1], tab_len);
    }
    assert(end == stop);
    lemma_cut_range(line, cuts, i + 1, stop);
    assert(later.len() > 0 && later[0] == (from, cuts[stop]));
    assert((own.drop_last() + later).take(own.len() - 1) =~= own.drop_last());
}

/// White space of one character or one grapheme cluster behind a word that is split and whose
/// last row is full does not get a row to itself: the word's rows are followed by a row that
/// starts behind it.
pub proof fn law_space_behind_split_word_is_dropped(
    line: Seq<char>,
    cuts: Seq<int>,
    i: int,
    width: nat,
    tab_len: u8,
)
    requires
        well_cut(line, cuts),
        0 <= i,
        i + 2 < cuts.len(),
        row_width(line, cuts[i], cuts[i + 1], tab_len) > width,
        !is_blank(text_between(line, cuts[i], cuts[i + 1])),
        fit_end(line, cuts, cuts[i + 1], i + 1, width, tab_len) <= i + 2,
        ({
            let last = glyph_rows(line, cuts[i], cuts[i + 1], width, tab_len).last();
            let space = text_between(line, cuts[i + 1], cuts[i + 2]);
            &&& row_width(line, last.0, last.1, tab_len) == width
            &&& row_width(line, last.0, cuts[i + 2], tab_len) > width
            &&& is_blank(space)
            &&& space.len() == 1 || grapheme_cuts(space).len() == 2
        }),
    ensures
        word_rows(line, cuts, cuts[i], i, width, tab_len, true) == glyph_rows(
            line,
            cuts[i],
            cuts[i + 1],
            width,
            tab_len,
        ) + word_rows(line, cuts, cuts[i + 2], i + 2, width, tab_len, true),
{
    let own = glyph_rows(line, cuts[i], cuts[i + 1], width, tab_len);
    let later = word_rows(line, cuts, cuts[i + 2], i + 2, width, tab_len, true);
    let space = text_between(line, cuts[i + 1], cuts[i + 2]);
    lemma_cut_range(line, cuts, i, i + 1);
    lemma_cut_range(line, cuts, i + 1, i + 2);
    lemma_last_own_row(line, cuts[i], cuts[i + 1], width, tab_len, true);
    lemma_encode_between(line, cuts[i + 1], cuts[i + 2]);
    lemma_grapheme_cuts(space);
    if space.len() == 1 {
        lemma_one_char_is_one_cluster(space);
    }
    assert(is_left_open(line, cuts, i, width, tab_len, true));
    law_space_behind_full_row_is_dropped(
        line,
        cuts,
        own.last().0,
        i + 1,
        width,
        tab_len,
        true,
    );
    assert(own.drop_last() + (seq![own.last()] + later) =~= own + later);
}

/// White space that would have a row to itself behind a word that is split does not, if it fits
/// in the word's last row: it ends that row.
pub proof fn law_space_ends_row_of_split_word(
    line: Seq<char>,
    cuts: Seq<int>,
    i: int,
    width: nat,
    tab_len: u8,
)
    requires
        well_cut(line, cuts),
        0 <= i,
        i + 2 < cuts.len(),
        row_width(line, cuts[i], cuts[i + 1], tab_len) > width,
        !is_blank(text_between(line, cuts[i], cuts[i + 1])),
        is_blank(text_between(line, cuts[i + 1], cuts[i + 2])),
        fit_end(line, cuts, cuts[i + 1], i + 1, width, tab_len) <= i + 2,
        row_width(
            line,
            glyph_rows(line, cuts[i], cuts[i + 1], width, tab_len).last().0,
            cuts[i + 2],
            tab_len,
        ) <= width,
    ensures
        ({
            let own = glyph_rows(line, cuts[i], cuts[i + 1], width, tab_len);
            let rows = word_rows(line, cuts, cuts[i], i, width, tab_len, true);
            &&& 0 < own.len() <= rows.len()
            &&& rows.take(own.len() - 1) == own.drop_last()
            &&& rows[own.len() - 1] == (own.last().0, cuts[i + 2])
        }),
{
    let own = glyph_rows(line, cuts[i], cuts[i + 1], width, tab_len);
    let from = own.last().0;
    let later = word_rows(line, cuts, from, i + 1, width, tab_len, true);
    lemma_cut_range(line, cuts, i, i + 1);
    lemma_last_own_row(line, cuts[i], cuts[i + 1], width, tab_len, true);
    lemma_row_width_at_cuts(line, cuts, from, i + 1, i + 2, tab_len);
    assert(is_left_open(line, cuts, i, width, tab_len, true));
    lemma_fit_end(line, cuts, from, i + 1, width, tab_len);
    law_row_goes_as_far_as_it_fits(line, cuts, from, i + 1, width, tab_len, i + 2);
    lemma_cut_range(line, cuts, i + 1, i + 2);
    if i + 3 < cuts.len() {
        lemma_cut_range(line, cuts, i + 1, i + 1);
        lemma_cut_range(line, cuts, i + 1, i + 3);
        lemma_fit_end(line, cuts, cuts[i + 1], i + 1, width, tab_len);
        law_row_goes_as_far_as_it_fits(line, cuts, cuts[i + 1], i + 1, width, tab_len, i + 3);
        law_row_goes_as_far_as_it_fits(line, cuts, from, i + 1, width, tab_len, i + 3);
        lemma_end_of_piece_is_narrower(line, from, cuts[i + 1], cuts[i + 3], tab_len);
    }
    assert(later.len() > 0 && later[0] == (from, cuts[i + 2]));
    assert((own.drop_last() + later).take(own.len() - 1) =~= own.drop_last());
}

/// Whether what is left out behind `row`, up to `next`, is no more than may be: if the row takes
/// fewer columns than `width`, it fits in the rest of them; otherwise it is nothing, or a single
/// grapheme cluster.
pub open spec fn leaves_out_little(
    line: Seq<char>,
    row: (int, int),
    next: int,
    width: nat,
    tab_len: u8,
) -> bool {
    let used = row_width(line, row.0, row.1, tab_len);
    if used < width {
        used + row_width(line, row.1, next, tab_len) <= width
    } else {
        row.1 == next || is_one_cluster(line, (row.1, next))
    }
}

/// Whether little is left out behind every row, and nothing before the first.
spec fn has_small_gaps(
    line: Seq<char>,
    rows: Seq<(int, int)>,
    from: int,
    to: int,
    width: nat,
    tab_len: u8,
) -> bool {
    &&& gap(rows, from, to, 0).1 == from
    &&& forall|k: int|
        0 <= k < rows.len() ==> leaves_out_little(
            line,
            #[trigger] rows[k],
            gap(rows, from, to, k + 1).1,
            width,
            tab_len,
        )
}

/// Where little is left out of two parts of a line, little is left out of both together.
proof fn lemma_small_gaps_concat(
    line: Seq<char>,
    a: Seq<(int, int)>,
    b: Seq<(int, int)>,
    from: int,
    mid: int,
    to: int,
    width: nat,
    tab_len: u8,
)
    requires
        has_small_gaps(line, a, from, mid, width, tab_len),
        has_small_gaps(line, b, mid, to, width, tab_len),
    ensures
        has_small_gaps(line, a + b, from, to, width, tab_len),
{
    let rows = a + b;
    assert(gap(rows, from, to, 0).1 == from);
    assert forall|k: int| 0 <= k < rows.len() implies leaves_out_little(
        line,
        #[trigger] rows[k],
        gap(rows, from, to, k + 1).1,
        width,
        tab_len,
    ) by {
        if k < a.len() {
            assert(rows[k] == a[k]);
            assert(gap(rows, from, to, k + 1).1 == gap(a, from, mid, k + 1).1);
        } else {
            assert(rows[k] == b[k - a.len()]);
            assert(gap(rows, from, to, k + 1).1 == gap(b, mid, to, k + 1 - a.len()).1);
        }
    }
}

/// Of a piece that is wider than a row nothing is left out, up to its end or up to where its last
/// row starts.
proof fn lemma_own_rows_small_gaps(
    line: Seq<char>,
    start: int,
    end: int,
    width: nat,
    tab_len: u8,
    split: bool,
)
    requires
        is_range(line, start, end),
        start < end,
    ensures
        ({
            let own = over_wide_rows(line, start, end, width, tab_len, split);
            &&& has_small_gaps(line, own, start, end, width, tab_len)
            &&& has_small_gaps(line, own.drop_last(), start, own.last().0, width, tab_len)
        }),
{
    let own = over_wide_rows(line, start, end, width, tab_len, split);
    let first = own.drop_last();
    let from = own.last().0;
    lemma_over_wide_rows_lay_out(line, start, end, width, tab_len, split);
    lemma_glyph_rows_lay_out(line, start, end, width, tab_len);
    lemma_last_own_row(line, start, end, width, tab_len, split);
    assert(gap(first, start, from, 0).1 == start);
    assert forall|k: int| 0 <= k < own.len() implies own[k].1 == (#[trigger] gap(
        own,
        start,
        end,
        k + 1,
    )).1 by {
        if split {
            assert(gap(own, start, end, k + 1).0 == own[k].1);
        }
    }
    assert forall|k: int| 0 <= k < own.len() implies leaves_out_little(
        line,
        #[trigger] own[k],
        gap(own, start, end, k + 1).1,
        width,
        tab_len,
    ) by {
        assert(is_row(line, own[k]));
        lemma_row_width_empty(line, own[k].1, tab_len);
    }
    assert forall|k: int| 0 <= k < first.len() implies leaves_out_little(
        line,
        #[trigger] first[k],
        gap(first, start, from, k + 1).1,
        width,
        tab_len,
    ) by {
        assert(first[k] == own[k]);
        assert(gap(first, start, from, k + 1).1 == gap(own, start, end, k + 1).1);
    }
}

/// Behind a row that ends before white space that no longer fits, little of that is left out.
proof fn lemma_kept_leaves_out_little(
    line: Seq<char>,
    start: int,
    here: int,
    next: int,
    width: nat,
    tab_len: u8,
)
    requires
        is_range(line, start, here),
        is_range(line, here, next),
        here < next,
        row_width(line, start, here, tab_len) <= width,
    ensures
        leaves_out_little(
            line,
            (start, here),
            kept_from(line, here, next, row_width(line, start, here, tab_len), width, tab_len),
            width,
            tab_len,
        ),
{
    let used = row_width(line, start, here, tab_len);
    if used < width {
        let text = text_between(line, here, next);
        let cuts = grapheme_cuts(text);
        let cells = (width - used) as nat;
        lemma_grapheme_cuts(text);
        lemma_dropped_len(text, cuts, cells, tab_len);
        law_dropped_cells(text, cells, tab_len, 0);
        lemma_row_width_of_part(
            line,
            here,
            next,
            0,
            dropped_len(text, cuts, cells, tab_len),
            tab_len,
        );
    } else {
        law_full_row_drops_first_cluster(line, here, next, width, tab_len);
    }
}

/// One row leaves little out, if little lies behind it.
proof fn lemma_one_row_small_gaps(
    line: Seq<char>,
    row: (int, int),
    from: int,
    rest: Seq<(int, int)>,
    to: int,
    width: nat,
    tab_len: u8,
)
    requires
        leaves_out_little(line, row, from, width, tab_len),
        has_small_gaps(line, rest, from, to, width, tab_len),
    ensures
        has_small_gaps(line, seq![row] + rest, row.0, to, width, tab_len),
{
    assert(gap(seq![row], row.0, from, 1).1 == from);
    lemma_small_gaps_concat(line, seq![row], rest, row.0, from, to, width, tab_len);
}

/// Rows that are broken at word boundaries leave little out.
#[verifier::rlimit(40)]
proof fn lemma_word_rows_small_gaps(
    line: Seq<char>,
    cuts: Seq<int>,
    start: int,
    i: int,
    width: nat,
    tab_len: u8,
    split: bool,
)
    requires
        well_cut(line, cuts),
        0 <= i < cuts.len(),
        is_range(line, start, cuts[i]),
        row_width(line, start, cuts[i], tab_len) <= width,
    ensures
        has_small_gaps(
            line,
            word_rows(line, cuts, start, i, width, tab_len, split),
            start,
            byte_len(line),
            width,
            tab_len,
        ),
    decreases cuts.len() - i, cuts[i] - start,
{
    let j = fit_end(line, cuts, start, i, width, tab_len);
    let to = byte_len(line);
    let here = cuts[j];
    let row = (start, here);
    lemma_fit_end(line, cuts, start, i, width, tab_len);
    lemma_cut_range(line, cuts, i, j);
    lemma_cut_range(line, cuts, j, j);
    lemma_row_width_empty(line, here, tab_len);
    if j + 1 == cuts.len() {
        let none = Seq::<(int, int)>::empty();
        assert(has_small_gaps(line, none, to, to, width, tab_len));
        if start < here {
            assert(seq![row] + none =~= seq![row]);
            lemma_one_row_small_gaps(line, row, to, none, to, width, tab_len);
        }
    } else {
        let next = cuts[j + 1];
        lemma_cut_range(line, cuts, j, j + 1);
        lemma_cut_range(line, cuts, j + 1, j + 1);
        lemma_row_width_empty(line, next, tab_len);
        if start < here {
            if is_blank(text_between(line, here, next)) {
                let used = row_width(line, start, here, tab_len);
                let kept = kept_from(line, here, next, used, width, tab_len);
                lemma_kept_from(line, here, next, used, width, tab_len);
                lemma_kept_leaves_out_little(line, start, here, next, width, tab_len);
                if kept >= next || row_width(line, kept, next, tab_len) <= width {
                    let led = word_rows(line, cuts, kept, j + 1, width, tab_len, split);
                    lemma_word_rows_small_gaps(line, cuts, kept, j + 1, width, tab_len, split);
                    lemma_one_row_small_gaps(line, row, kept, led, to, width, tab_len);
                } else {
                    let own = over_wide_rows(line, kept, next, width, tab_len, split);
                    let later = word_rows(line, cuts, next, j + 1, width, tab_len, split);
                    lemma_own_rows_small_gaps(line, kept, next, width, tab_len, split);
                    lemma_word_rows_small_gaps(line, cuts, next, j + 1, width, tab_len, split);
                    lemma_small_gaps_concat(line, own, later, kept, next, to, width, tab_len);
                    lemma_one_row_small_gaps(line, row, kept, own + later, to, width, tab_len);
                }
            } else {
                let rest = word_rows(line, cuts, here, j, width, tab_len, split);
                lemma_word_rows_small_gaps(line, cuts, here, j, width, tab_len, split);
                lemma_one_row_small_gaps(line, row, here, rest, to, width, tab_len);
            }
        } else {
            let own = over_wide_rows(line, here, next, width, tab_len, split);
            lemma_own_rows_small_gaps(line, here, next, width, tab_len, split);
            lemma_last_own_row(line, here, next, width, tab_len, split);
            if is_left_open(line, cuts, j, width, tab_len, split) {
                let from = own.last().0;
                let first = own.drop_last();
                let later = word_rows(line, cuts, from, j + 1, width, tab_len, split);
                lemma_word_rows_small_gaps(line, cuts, from, j + 1, width, tab_len, split);
                lemma_small_gaps_concat(line, first, later, here, from, to, width, tab_len);
            } else {
                let later = word_rows(line, cuts, next, j + 1, width, tab_len, split);
                lemma_word_rows_small_gaps(line, cuts, next, j + 1, width, tab_len, split);
                lemma_small_gaps_concat(line, own, later, here, next, to, width, tab_len);
            }
        }
    }
}

/// With wrapping at word boundaries, little is left out behind a row, before the next row or the
/// end of the line: if the row is not full, it fits in the rest of the row; otherwise it is
/// nothing, or a single grapheme cluster.
pub proof fn law_little_is_left_out(
    line: Seq<char>,
    mode: WrapMode,
    width: nat,
    tab_len: u8,
    k: int,
)
    requires
        mode == WrapMode::Word || mode == WrapMode::WordOrGlyph,
        line.len() > 0,
        0 <= k < line_rows(line, mode, width, tab_len).len(),
    ensures
        ({
            let rows = line_rows(line, mode, width, tab_len);
            let next = if k + 1 < rows.len() {
                rows[k + 1].0
            } else {
                byte_len(line)
            };
            leaves_out_little(line, rows[k], next, usable_width(width), tab_len)
        }),
{
    let cuts = word_cuts(line);
    let w = usable_width(width);
    let split = mode == WrapMode::WordOrGlyph;
    let rows = line_rows(line, mode, width, tab_len);
    lemma_word_cuts(line);
    lemma_cut_range(line, cuts, 0, 0);
    lemma_row_width_empty(line, 0, tab_len);
    lemma_word_rows_small_gaps(line, cuts, 0, 0, w, tab_len, split);
    assert(leaves_out_little(
        line,
        rows[k],
        gap(rows, 0, byte_len(line), k + 1).1,
        w,
        tab_len,
    ));
}

/// Whether no piece that starts where `row` ends fits behind it.
spec fn is_filled(
    line: Seq<char>,
    cuts: Seq<int>,
    row: (int, int),
    width: nat,
    tab_len: u8,
) -> bool {
    forall|m: int|
        0 <= m && m + 1 < cuts.len() && #[trigger] cuts[m] == row.1 ==> row_width(
            line,
            row.0,
            cuts[m + 1],
            tab_len,
        ) > width
}

/// A row from which the next piece was kept away is filled.
proof fn lemma_is_filled(
    line: Seq<char>,
    cuts: Seq<int>,
    start: int,
    j: int,
    width: nat,
    tab_len: u8,
)
    requires
        well_cut(line, cuts),
        0 <= j < cuts.len(),
        is_range(line, start, cuts[j]),
        j + 1 < cuts.len() ==> row_width(line, start, cuts[j + 1], tab_len) > width,
    ensures
        is_filled(line, cuts, (start, cuts[j]), width, tab_len),
{
    assert forall|m: int| 0 <= m && m + 1 < cuts.len() && #[trigger] cuts[m] == cuts[j] implies
        row_width(line, start, cuts[m + 1], tab_len) > width by {
        assert(m == j) by {
            if m < j {
                lemma_cut_range(line, cuts, m, j);
            } else if j < m {
                lemma_cut_range(line, cuts, j, m);
            }
        }
    }
}

/// Rows that are broken at word boundaries only are filled.
proof fn lemma_word_rows_filled(
    line: Seq<char>,
    cuts: Seq<int>,
    start: int,
    i: int,
    width: nat,
    tab_len: u8,
    n: int,
)
    requires
        well_cut(line, cuts),
        0 <= i < cuts.len(),
        is_range(line, start, cuts[i]),
        0 <= n < word_rows(line, cuts, start, i, width, tab_len, false).len(),
    ensures
        is_filled(
            line,
            cuts,
            word_rows(line, cuts, start, i, width, tab_len, false)[n],
            width,
            tab_len,
        ),
    decreases cuts.len() - i, cuts[i] - start,
{
    let j = fit_end(line, cuts, start, i, width, tab_len);
    let here = cuts[j];
    lemma_fit_end(line, cuts, start, i, width, tab_len);
    lemma_row_width_at_cuts(line, cuts, start, i, j, tab_len);
    lemma_is_filled(line, cuts, start, j, width, tab_len);
    if j + 1 < cuts.len() {
        let next = cuts[j + 1];
        lemma_cut_range(line, cuts, j, j + 1);
        lemma_cut_range(line, cuts, j, j);
        lemma_cut_range(line, cuts, j + 1, j + 1);
        if start < here {
            if n > 0 {
                if is_blank(text_between(line, here, next)) {
                    let used = row_width(line, start, here, tab_len);
                    let kept = kept_from(line, here, next, used, width, tab_len);
                    lemma_kept_from(line, here, next, used, width, tab_len);
                    if kept >= next || row_width(line, kept, next, tab_len) <= width {
                        lemma_word_rows_filled(line, cuts, kept, j + 1, width, tab_len, n - 1);
                    } else if n > 1 {
                        lemma_word_rows_filled(line, cuts, next, j + 1, width, tab_len, n - 2);
                    } else {
                        lemma_wide_row_is_filled(line, cuts, kept, j + 1, width, tab_len);
                    }
                } else {
                    lemma_word_rows_filled(line, cuts, here, j, width, tab_len, n - 1);
                }
            }
        } else if n > 0 {
            lemma_word_rows_filled(line, cuts, next, j + 1, width, tab_len, n - 1);
        } else {
            lemma_wide_row_is_filled(line, cuts, here, j + 1, width, tab_len);
        }
    }
}

/// A row that is wider than allowed is filled.
proof fn lemma_wide_row_is_filled(
    line: Seq<char>,
    cuts: Seq<int>,
    start: int,
    j: int,
    width: nat,
    tab_len: u8,
)
    requires
        well_cut(line, cuts),
        0 <= j < cuts.len(),
        is_range(line, start, cuts[j]),
        row_width(line, start, cuts[j], tab_len) > width,
    ensures
        is_filled(line, cuts, (start, cuts[j]), width, tab_len),
{
    if j + 1 < cuts.len() {
        lemma_row_width_at_cuts(line, cuts, start, j, j + 1, tab_len);
    }
    lemma_is_filled(line, cuts, start, j, width, tab_len);
}

/// With wrapping at word boundaries only, the piece that starts where a row ends would not have
/// fitted behind that row.
pub proof fn law_next_piece_does_not_fit(
    line: Seq<char>,
    width: nat,
    tab_len: u8,
    k: int,
    m: int,
)
    requires
        line.len() > 0,
        0 <= k < line_rows(line, WrapMode::Word, width, tab_len).len(),
        0 <= m,
        m + 1 < word_cuts(line).len(),
        word_cuts(line)[m] == line_rows(line, WrapMode::Word, width, tab_len)[k].1,
    ensures
        row_width(
            line,
            line_rows(line, WrapMode::Word, width, tab_len)[k].0,
            word_cuts(line)[m + 1],
            tab_len,
        ) > usable_width(width),
{
    let cuts = word_cuts(line);
    lemma_word_cuts(line);
    lemma_cut_range(line, cuts, 0, 0);
    lemma_word_rows_filled(line, cuts, 0, 0, usable_width(width), tab_len, k);
}

/// The columns of a row count characters: a row spans as many of them as it shows characters,
/// starts no earlier than the row before it ends, and ends no later than the line.
pub proof fn law_columns_count_characters(
    row: int,
    line: Seq<char>,
    mode: WrapMode,
    width: nat,
    tab_len: u8,
    k: int,
)
    requires
        0 <= k < line_rows(line, mode, width, tab_len).len(),
    ensures
        ({
            let rows = line_fragments(row, line, line_rows(line, mode, width, tab_len));
            let shown = text_between(line, rows[k].start_byte, rows[k].end_byte);
            &&& rows[k].end_col - rows[k].start_col == shown.len()
            &&& 0 <= rows[k].start_col
            &&& rows[k].end_col <= line.len()
            &&& k + 1 < rows.len() ==> rows[k].end_col <= rows[k + 1].start_col
        }),
{
    let parts = line_rows(line, mode, width, tab_len);
    let part = parts[k];
    law_rows_in_order(line, mode, width, tab_len);
    lemma_whole_text(line);
    assert(is_range(line, part.0, part.1));
    lemma_between_concat(line, 0, part.0, part.1);
    lemma_between_concat(line, 0, part.1, byte_len(line));
    if k + 1 < parts.len() {
        let following = parts[k + 1];
        assert(is_range(line, following.0, following.1));
        lemma_between_concat(line, 0, part.1, following.0);
    }
}

/// The rows of all lines stand in the order of the lines, and those of one line in the order of
/// the text. Only the first row of a line is marked as the first, and only the last as the last.
pub proof fn law_fragments_in_order(
    lines: Seq<Seq<char>>,
    mode: WrapMode,
    width: nat,
    tab_len: u8,
)
    ensures
        ({
            let rows = all_fragments(lines, mode, width, tab_len);
            &&& forall|a: int| 0 <= a < rows.len() ==> 0 <= (#[trigger] rows[a]).row < lines.len()
            &&& forall|a: int, b: int|
                0 <= a < b < rows.len() ==> {
                    ||| (#[trigger] rows[a]).row < (#[trigger] rows[b]).row
                    ||| {
                        &&& rows[a].row == rows[b].row
                        &&& rows[a].end_byte <= rows[b].start_byte
                        &&& !rows[a].last_in_row
                        &&& !rows[b].first_in_row
                    }
                }
        }),
    decreases lines.len(),
{
    if lines.len() > 0 {
        let rows = all_fragments(lines, mode, width, tab_len);
        let before = all_fragments(lines.drop_last(), mode, width, tab_len);
        let parts = line_rows(lines.last(), mode, width, tab_len);
        let own = line_fragments(lines.len() - 1, lines.last(), parts);
        law_fragments_in_order(lines.drop_last(), mode, width, tab_len);
        law_rows_in_order(lines.last(), mode, width, tab_len);
        assert(rows == before + own);
        assert forall|a: int, b: int| 0 <= a < b < rows.len() implies {
            ||| (#[trigger] rows[a]).row < (#[trigger] rows[b]).row
            ||| {
                &&& rows[a].row == rows[b].row
                &&& rows[a].end_byte <= rows[b].start_byte
                &&& !rows[a].last_in_row
                &&& !rows[b].first_in_row
            }
        } by {
            if b < before.len() {
                assert(rows[a] == before[a] && rows[b] == before[b]);
            } else if a >= before.len() {
                let n = before.len() as int;
                assert(rows[a] == own[a - n] && rows[b] == own[b - n]);
                assert(parts[a - n].1 <= parts[b - n].0);
            }
        }
    }
}

/// Every line is shown: its rows stand together among the rows of all lines, with one at least,
/// of which the first is marked as the first and the last as the last.
pub proof fn law_every_line_is_shown(
    lines: Seq<Seq<char>>,
    mode: WrapMode,
    width: nat,
    tab_len: u8,
    row: int,
)
    requires
        0 <= row < lines.len(),
    ensures
        ({
            let rows = all_fragments(lines, mode, width, tab_len);
            let own = line_fragments(
                row,
                lines[row],
                line_rows(lines[row], mode, width, tab_len),
            );
            &&& own.len() > 0
            &&& own[0].first_in_row
            &&& own.last().last_in_row
            &&& exists|from: int|
                0 <= from <= rows.len() - own.len() && #[trigger] rows.subrange(
                    from,
                    from + own.len(),
                ) == own
        }),
    decreases lines.len(),
{
    let rows = all_fragments(lines, mode, width, tab_len);
    let before = all_fragments(lines.drop_last(), mode, width, tab_len);
    let own = line_fragments(row, lines[row], line_rows(lines[row], mode, width, tab_len));
    lemma_line_rows(lines[row], mode, width, tab_len);
    if row == lines.len() - 1 {
        let from = before.len() as int;
        assert(rows.subrange(from, from + own.len()) =~= own);
    } else {
        law_every_line_is_shown(lines.drop_last(), mode, width, tab_len, row);
        assert(lines.drop_last()[row] == lines[row]);
        let from = choose|from: int|
            0 <= from <= before.len() - own.len() && #[trigger] before.subrange(
                from,
                from + own.len(),
            ) == own;
        assert(rows.subrange(from, from + own.len()) =~= before.subrange(from, from + own.len()));
    }
}

} // verus!
