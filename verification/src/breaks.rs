//! What fixes where rows are broken, and what is left out between them.

use crate::glyph::{first_row_end, glyph_rows, lemma_first_row};
use crate::laws::{
    law_full_row_drops_first_cluster, law_row_goes_as_far_as_it_fits,
    lemma_end_of_piece_is_narrower, lemma_glyph_row_is_first,
};
use crate::layout::{
    gap, is_row, lemma_glyph_rows_lay_out, lemma_over_wide_rows_lay_out, lemma_rows_follow_start,
    lemma_word_rows_lay_out,
};
use crate::rows::{
    fit_end, lemma_fit_end, lemma_row_width_at_cuts, lemma_row_width_empty,
    lemma_row_width_of_part, row_width,
};
use crate::segment::{
    grapheme_cuts, lemma_cut_count, lemma_cut_range, lemma_grapheme_cuts, lemma_word_cuts,
    well_cut, word_cuts,
};
use crate::text::{
    byte_len, is_range, lemma_between_concat, lemma_between_empty, lemma_between_of_between,
    lemma_chars_at_most_bytes, lemma_encode_between, lemma_whole_text, text_between,
};
use crate::word::{
    blank_end, dropped_len, is_blank, is_left_open, kept_from, last_visible, lemma_blank_concat,
    lemma_blank_end, lemma_dropped_len, lemma_kept_from, lemma_last_own_row, lemma_last_visible,
    over_wide_rows, word_rows,
};
use crate::wrap::{line_rows, usable_width, WrapMode};
use vstd::prelude::*;

verus! {

/// Where the row behind row number `k` starts; behind the last row, `to`.
pub open spec fn next_start(rows: Seq<(int, int)>, to: int, k: int) -> int {
    if k + 1 < rows.len() {
        rows[k + 1].0
    } else {
        to
    }
}

/// Whether `row` holds as many grapheme clusters of the text from its start to `end` as fit in
/// `width` columns, and one at least.
pub open spec fn holds_what_fits(
    line: Seq<char>,
    row: (int, int),
    end: int,
    width: nat,
    tab_len: u8,
) -> bool {
    let cuts = grapheme_cuts(text_between(line, row.0, end));
    exists|m: int|
        {
            &&& 0 < m < cuts.len()
            &&& row.1 == row.0 + #[trigger] cuts[m]
            &&& m == 1 || row_width(line, row.0, row.1, tab_len) <= width
            &&& m + 1 < cuts.len() ==> row_width(line, row.0, row.0 + cuts[m + 1], tab_len) > width
        }
}

/// A row that is broken between grapheme clusters holds what fits.
proof fn lemma_glyph_row_holds_what_fits(
    line: Seq<char>,
    start: int,
    end: int,
    width: nat,
    tab_len: u8,
    k: int,
)
    requires
        is_range(line, start, end),
        0 <= k < glyph_rows(line, start, end, width, tab_len).len(),
    ensures
        holds_what_fits(
            line,
            glyph_rows(line, start, end, width, tab_len)[k],
            end,
            width,
            tab_len,
        ),
        glyph_rows(line, start, end, width, tab_len)[k].1 <= end,
{
    let row = glyph_rows(line, start, end, width, tab_len)[k];
    let rest = text_between(line, row.0, end);
    let cuts = grapheme_cuts(rest);
    lemma_glyph_row_is_first(line, start, end, width, tab_len, k);
    lemma_encode_between(line, row.0, end);
    lemma_chars_at_most_bytes(rest);
    lemma_grapheme_cuts(rest);
    lemma_cut_count(rest, cuts);
    lemma_fit_end(rest, cuts, 0, 1, width, tab_len);
    let m = fit_end(rest, cuts, 0, 1, width, tab_len);
    lemma_cut_range(rest, cuts, 0, m);
    lemma_cut_range(rest, cuts, m, cuts.len() - 1);
    lemma_row_width_of_part(line, row.0, end, 0, cuts[m], tab_len);
    if m + 1 < cuts.len() {
        lemma_cut_range(rest, cuts, 0, m + 1);
        lemma_row_width_of_part(line, row.0, end, 0, cuts[m + 1], tab_len);
    }
    assert(row.1 == row.0 + cuts[m]);
}

/// Rows that are broken between grapheme clusters hold what fits, and each starts where the one
/// before it ends, from `start` to `end`.
pub proof fn law_rows_of_clusters(
    line: Seq<char>,
    start: int,
    end: int,
    width: nat,
    tab_len: u8,
    k: int,
)
    requires
        is_range(line, start, end),
        0 <= k < glyph_rows(line, start, end, width, tab_len).len(),
    ensures
        ({
            let rows = glyph_rows(line, start, end, width, tab_len);
            &&& rows[0].0 == start
            &&& rows[k].1 == next_start(rows, end, k)
            &&& rows[k].0 < rows[k].1 <= end
            &&& holds_what_fits(line, rows[k], end, width, tab_len)
        }),
{
    let rows = glyph_rows(line, start, end, width, tab_len);
    lemma_glyph_rows_lay_out(line, start, end, width, tab_len);
    lemma_glyph_row_holds_what_fits(line, start, end, width, tab_len, k);
    assert(is_row(line, rows[k]));
    assert(gap(rows, start, end, k + 1) == (rows[k].1, next_start(rows, end, k)));
}

/// With wrapping at grapheme boundaries, rows hold what fits of what is left of the line, and
/// each starts where the one before it ends.
pub proof fn law_glyph_rows_hold_what_fits(line: Seq<char>, width: nat, tab_len: u8, k: int)
    requires
        line.len() > 0,
        0 <= k < line_rows(line, WrapMode::Glyph, width, tab_len).len(),
    ensures
        ({
            let rows = line_rows(line, WrapMode::Glyph, width, tab_len);
            let w: nat = if width == 0 {
                1
            } else {
                width
            };
            &&& rows[0].0 == 0
            &&& rows[k].1 == next_start(rows, byte_len(line), k)
            &&& holds_what_fits(line, rows[k], byte_len(line), w, tab_len)
        }),
{
    lemma_whole_text(line);
    law_rows_of_clusters(line, 0, byte_len(line), usable_width(width), tab_len, k);
}

/// Whether `len` bytes at the start of `text`, cut at `cuts`, are the leading white space to drop
/// for `cells` columns: whole pieces of white space that fit in the columns, as many as take most
/// columns, and none at their end that takes no column.
pub open spec fn drops_most(
    text: Seq<char>,
    cuts: Seq<int>,
    len: int,
    cells: nat,
    tab_len: u8,
) -> bool {
    &&& cuts.contains(len)
    &&& is_blank(text_between(text, 0, len))
    &&& row_width(text, 0, len, tab_len) <= cells
    &&& forall|q: int|
        0 <= q < cuts.len() && is_blank(text_between(text, 0, #[trigger] cuts[q])) && row_width(
            text,
            0,
            cuts[q],
            tab_len,
        ) <= cells ==> row_width(text, 0, cuts[q], tab_len) <= row_width(text, 0, len, tab_len)
    &&& forall|q: int|
        0 <= q < cuts.len() && #[trigger] cuts[q] < len ==> row_width(text, 0, cuts[q], tab_len)
            < row_width(text, 0, len, tab_len)
}

/// The piece before the last visible cut takes columns.
proof fn lemma_last_visible_takes_columns(text: Seq<char>, cuts: Seq<int>, k: int, tab_len: u8)
    requires
        0 <= k < cuts.len(),
    ensures
        ({
            let m = last_visible(text, cuts, k, tab_len);
            m > 0 ==> row_width(text, 0, cuts[m], tab_len) != row_width(
                text,
                0,
                cuts[m - 1],
                tab_len,
            )
        }),
    decreases k,
{
    if k > 0 && row_width(text, 0, cuts[k], tab_len) == row_width(text, 0, cuts[k - 1], tab_len) {
        lemma_last_visible_takes_columns(text, cuts, k - 1, tab_len);
    }
}

/// Of leading white space as many columns are dropped as may be, in whole pieces.
pub proof fn law_most_cells_are_dropped(
    text: Seq<char>,
    cuts: Seq<int>,
    cells: nat,
    tab_len: u8,
)
    requires
        well_cut(text, cuts),
    ensures
        drops_most(text, cuts, dropped_len(text, cuts, cells, tab_len), cells, tab_len),
{
    let stop = blank_end(text, cuts, 0, cells, tab_len);
    let m = last_visible(text, cuts, stop, tab_len);
    let len = dropped_len(text, cuts, cells, tab_len);
    lemma_cut_range(text, cuts, 0, 0);
    lemma_between_empty(text, 0);
    lemma_row_width_empty(text, 0, tab_len);
    lemma_blank_end(text, cuts, 0, cells, tab_len);
    lemma_last_visible(text, cuts, stop, tab_len);
    lemma_last_visible_takes_columns(text, cuts, stop, tab_len);
    lemma_dropped_len(text, cuts, cells, tab_len);
    lemma_row_width_at_cuts(text, cuts, 0, 0, stop, tab_len);
    assert(cuts.contains(cuts[m]));
    assert forall|q: int|
        0 <= q < cuts.len() && is_blank(text_between(text, 0, #[trigger] cuts[q])) && row_width(
            text,
            0,
            cuts[q],
            tab_len,
        ) <= cells implies row_width(text, 0, cuts[q], tab_len) <= row_width(
        text,
        0,
        len,
        tab_len,
    ) by {
        lemma_row_width_at_cuts(text, cuts, 0, 0, q, tab_len);
        if q <= stop {
            lemma_row_width_at_cuts(text, cuts, 0, q, stop, tab_len);
        } else {
            lemma_cut_range(text, cuts, 0, stop);
            lemma_cut_range(text, cuts, stop, stop + 1);
            lemma_cut_range(text, cuts, 0, stop + 1);
            lemma_cut_range(text, cuts, stop + 1, q);
            lemma_blank_concat(text, 0, cuts[stop + 1], cuts[q]);
            lemma_blank_concat(text, 0, cuts[stop], cuts[stop + 1]);
            lemma_row_width_at_cuts(text, cuts, 0, stop + 1, q, tab_len);
        }
    }
    assert forall|q: int| 0 <= q < cuts.len() && #[trigger] cuts[q] < len implies row_width(
        text,
        0,
        cuts[q],
        tab_len,
    ) < row_width(text, 0, len, tab_len) by {
        if q >= m {
            lemma_cut_range(text, cuts, m, q);
        }
        lemma_cut_range(text, cuts, 0, q);
        lemma_row_width_at_cuts(text, cuts, 0, q, m - 1, tab_len);
        lemma_cut_range(text, cuts, 0, m - 1);
        lemma_row_width_at_cuts(text, cuts, 0, m - 1, m, tab_len);
    }
}

/// Whether `next` is where a row must start behind one that ends at `here` and takes `used` of
/// `width` columns, where the piece from `here` to `end` does not fit behind it. Of white space
/// behind a row that is not full, what fills the rest of the row is dropped, in whole grapheme
/// clusters; behind a full row the first cluster is. Anything else starts the next row.
pub open spec fn breaks_at(
    line: Seq<char>,
    here: int,
    end: int,
    used: nat,
    next: int,
    width: nat,
    tab_len: u8,
) -> bool {
    let text = text_between(line, here, end);
    let clusters = grapheme_cuts(text);
    if used > width || !is_blank(text) {
        next == here
    } else if used == width {
        next == here + clusters[1]
    } else {
        drops_most(text, clusters, next - here, (width - used) as nat, tab_len)
    }
}

/// Whether row number `k` goes on inside a piece of the line that the row before it ends in, and
/// ends with that piece, at cut number `m`.
pub open spec fn ends_broken_piece(cuts: Seq<int>, rows: Seq<(int, int)>, k: int, m: int) -> bool {
    &&& 0 < k && 0 < m
    &&& rows[k - 1].1 == rows[k].0
    &&& cuts[m - 1] < rows[k].0 < cuts[m]
}

/// Whether row number `k` goes on inside white space, piece number `m`, that the row before it
/// ends in.
pub open spec fn goes_on_in_space(
    line: Seq<char>,
    cuts: Seq<int>,
    rows: Seq<(int, int)>,
    k: int,
    m: int,
) -> bool {
    &&& 0 < k && 0 <= m && m + 1 < cuts.len()
    &&& rows[k - 1].1 == rows[k].0
    &&& cuts[m] < rows[k].0 < cuts[m + 1]
    &&& is_blank(text_between(line, cuts[m], cuts[m + 1]))
}

/// Whether row number `k` is broken where it must be, and the next one starts where it must.
///
/// A row that ends inside a piece starts in it, holds as many of its clusters as fit, and the
/// next row goes on there. A row that ends with a piece behind which the next one would still fit
/// ends a piece that was broken. Behind any other row that ends with a piece, the next row starts
/// as `breaks_at` says. A row that goes on in white space that was broken shows nothing else, and
/// the next one starts where it ends.
pub open spec fn is_broken_right(
    line: Seq<char>,
    cuts: Seq<int>,
    rows: Seq<(int, int)>,
    to: int,
    width: nat,
    tab_len: u8,
    split: bool,
    k: int,
) -> bool {
    let row = rows[k];
    let next = next_start(rows, to, k);
    let used = row_width(line, row.0, row.1, tab_len);
    &&& forall|m: int|
        0 <= m && m + 1 < cuts.len() && (#[trigger] cuts[m]) < row.1 < cuts[m + 1] ==> {
            &&& split
            &&& cuts[m] <= row.0
            &&& holds_what_fits(line, row, cuts[m + 1], width, tab_len)
            &&& next == row.1
        }
    &&& forall|m: int|
        0 <= m && m + 1 < cuts.len() && #[trigger] cuts[m] == row.1 ==> {
            ||| split && ends_broken_piece(cuts, rows, k, m)
            ||| {
                &&& row_width(line, row.0, cuts[m + 1], tab_len) > width
                &&& breaks_at(line, row.1, cuts[m + 1], used, next, width, tab_len)
            }
        }
    &&& forall|m: int|
        #[trigger] goes_on_in_space(line, cuts, rows, k, m) ==> {
            &&& split
            &&& row.1 <= cuts[m + 1]
            &&& next == row.1
        }
}

/// Whether `at` does not lie inside white space between two cuts.
#[verifier::opaque]
spec fn is_not_in_space(line: Seq<char>, cuts: Seq<int>, at: int) -> bool {
    forall|m: int|
        #![trigger cuts[m]]
        0 <= m && m + 1 < cuts.len() && cuts[m] < at < cuts[m + 1] ==> !is_blank(
            text_between(line, cuts[m], cuts[m + 1]),
        )
}

/// Whether all rows are broken right.
#[verifier::opaque]
spec fn are_broken_right(
    line: Seq<char>,
    cuts: Seq<int>,
    rows: Seq<(int, int)>,
    to: int,
    width: nat,
    tab_len: u8,
    split: bool,
) -> bool {
    forall|k: int|
        0 <= k < rows.len() ==> #[trigger] is_broken_right(
            line,
            cuts,
            rows,
            to,
            width,
            tab_len,
            split,
            k,
        )
}

/// Rows that go on where others end are broken right if both are.
proof fn lemma_broken_right_concat(
    line: Seq<char>,
    cuts: Seq<int>,
    a: Seq<(int, int)>,
    b: Seq<(int, int)>,
    mid: int,
    to: int,
    width: nat,
    tab_len: u8,
    split: bool,
)
    requires
        are_broken_right(line, cuts, a, mid, width, tab_len, split),
        are_broken_right(line, cuts, b, to, width, tab_len, split),
        if b.len() > 0 {
            b[0].0 == mid
        } else {
            mid == to
        },
        a.len() > 0 && a.last().1 == mid ==> is_not_in_space(line, cuts, mid),
    ensures
        are_broken_right(line, cuts, a + b, to, width, tab_len, split),
{
    reveal(are_broken_right);
    reveal(is_not_in_space);
    let rows = a + b;
    let n = a.len() as int;
    assert forall|k: int| 0 <= k < rows.len() implies #[trigger] is_broken_right(
        line,
        cuts,
        rows,
        to,
        width,
        tab_len,
        split,
        k,
    ) by {
        if k < n {
            assert(is_broken_right(line, cuts, a, mid, width, tab_len, split, k));
            assert(rows[k] == a[k]);
            assert(next_start(rows, to, k) == next_start(a, mid, k));
            assert forall|m: int| ends_broken_piece(cuts, a, k, m) implies ends_broken_piece(
                cuts,
                rows,
                k,
                m,
            ) by {
                assert(rows[k - 1] == a[k - 1]);
            }
            assert forall|m: int| #[trigger] goes_on_in_space(
                line,
                cuts,
                rows,
                k,
                m,
            ) implies goes_on_in_space(line, cuts, a, k, m) by {
                assert(rows[k - 1] == a[k - 1]);
            }
        } else {
            assert(is_broken_right(line, cuts, b, to, width, tab_len, split, k - n));
            assert(rows[k] == b[k - n]);
            assert(next_start(rows, to, k) == next_start(b, to, k - n));
            assert forall|m: int| ends_broken_piece(
                cuts,
                b,
                k - n,
                m,
            ) implies ends_broken_piece(cuts, rows, k, m) by {
                assert(rows[k - 1] == b[k - n - 1]);
            }
            assert forall|m: int| #[trigger] goes_on_in_space(
                line,
                cuts,
                rows,
                k,
                m,
            ) implies goes_on_in_space(line, cuts, b, k - n, m) by {
                if k > n {
                    assert(rows[k - 1] == b[k - n - 1]);
                } else {
                    assert(rows[k - 1] == a.last());
                    assert(cuts[m] < mid);
                }
            }
        }
    }
}

/// Two pieces that share an offset inside them are the same piece, and no cut lies in a piece.
proof fn lemma_inside_one_piece(line: Seq<char>, cuts: Seq<int>, j: int, m: int, at: int)
    requires
        well_cut(line, cuts),
        0 <= j,
        j + 1 < cuts.len(),
        0 <= m < cuts.len(),
        cuts[j] < at < cuts[j + 1],
    ensures
        cuts[m] != at,
        m + 1 < cuts.len() && cuts[m] < at < cuts[m + 1] ==> m == j,
{
    if m < j {
        lemma_cut_range(line, cuts, m + 1, j);
        lemma_cut_range(line, cuts, m, j);
    } else if m > j {
        lemma_cut_range(line, cuts, j + 1, m);
    }
}

/// A cut has one number, and lies in no piece.
proof fn lemma_at_one_cut(line: Seq<char>, cuts: Seq<int>, j: int, m: int)
    requires
        well_cut(line, cuts),
        0 <= j < cuts.len(),
        0 <= m < cuts.len(),
    ensures
        cuts[m] == cuts[j] ==> m == j,
        m + 1 < cuts.len() ==> !(cuts[m] < cuts[j] < cuts[m + 1]),
{
    if m < j {
        lemma_cut_range(line, cuts, m, j);
        lemma_cut_range(line, cuts, m + 1, j);
    } else if j < m {
        lemma_cut_range(line, cuts, j, m);
    }
}

/// A cut does not lie inside white space between two cuts.
proof fn lemma_cut_is_not_in_space(line: Seq<char>, cuts: Seq<int>, j: int)
    requires
        well_cut(line, cuts),
        0 <= j < cuts.len(),
    ensures
        is_not_in_space(line, cuts, cuts[j]),
{
    reveal(is_not_in_space);
    assert forall|m: int| #![trigger cuts[m]] 0 <= m && m + 1 < cuts.len() implies !(cuts[m]
        < cuts[j] < cuts[m + 1]) by {
        lemma_at_one_cut(line, cuts, j, m);
    }
}

/// The rows of a piece that is wider than a row, or of the end of one, are broken right, with the
/// last of them or without it.
proof fn lemma_own_rows_broken_right(
    line: Seq<char>,
    cuts: Seq<int>,
    j: int,
    start: int,
    width: nat,
    tab_len: u8,
    split: bool,
)
    requires
        well_cut(line, cuts),
        0 <= j,
        j + 1 < cuts.len(),
        cuts[j] <= start < cuts[j + 1],
        is_range(line, start, cuts[j + 1]),
        row_width(line, start, cuts[j + 1], tab_len) > width,
    ensures
        ({
            let own = over_wide_rows(line, start, cuts[j + 1], width, tab_len, split);
            &&& are_broken_right(line, cuts, own, cuts[j + 1], width, tab_len, split)
            &&& split ==> are_broken_right(
                line,
                cuts,
                own.drop_last(),
                own.last().0,
                width,
                tab_len,
                split,
            )
        }),
{
    reveal(are_broken_right);
    let end = cuts[j + 1];
    let own = over_wide_rows(line, start, end, width, tab_len, split);
    let first = own.drop_last();
    lemma_last_own_row(line, start, end, width, tab_len, split);
    assert forall|k: int| 0 <= k < own.len() implies {
        &&& #[trigger] is_broken_right(line, cuts, own, end, width, tab_len, split, k)
        &&& split && k < first.len() ==> is_broken_right(
            line,
            cuts,
            first,
            own.last().0,
            width,
            tab_len,
            split,
            k,
        )
    } by {
        if split {
            law_rows_of_clusters(line, start, end, width, tab_len, k);
            lemma_glyph_rows_lay_out(line, start, end, width, tab_len);
            lemma_rows_follow_start(line, own, start, end, k);
        }
        assert forall|m: int| goes_on_in_space(line, cuts, own, k, m) || goes_on_in_space(
            line,
            cuts,
            first,
            k,
            m,
        ) && k < first.len() implies m == j && split && own[k].1 <= end && next_start(
            own,
            end,
            k,
        ) == own[k].1 by {
            if split {
                law_rows_of_clusters(line, start, end, width, tab_len, k - 1);
                lemma_rows_follow_start(line, own, start, end, k - 1);
                lemma_inside_one_piece(line, cuts, j, m, own[k].0);
            }
        }
        if k + 1 < own.len() {
            law_rows_of_clusters(line, start, end, width, tab_len, k + 1);
            assert(own[k].1 < end);
            assert(first[k] == own[k]);
            assert(next_start(first, own.last().0, k) == own[k].1);
            assert forall|m: int| 0 <= m < cuts.len() implies (#[trigger] cuts[m]) != own[k].1 && (
            m + 1 < cuts.len() && cuts[m] < own[k].1 < cuts[m + 1] ==> m == j) by {
                lemma_inside_one_piece(line, cuts, j, m, own[k].1);
            }
        } else {
            assert(own[k].1 == end);
            if k > 0 {
                law_rows_of_clusters(line, start, end, width, tab_len, k - 1);
                lemma_rows_follow_start(line, own, start, end, k - 1);
                assert(own[k - 1].1 == own[k].0);
                assert(ends_broken_piece(cuts, own, k, j + 1));
            } else {
                assert(own[k] == (start, end));
                if j + 2 < cuts.len() {
                    lemma_row_width_at_cuts(line, cuts, start, j + 1, j + 2, tab_len);
                }
            }
            assert forall|m: int| 0 <= m < cuts.len() implies ((#[trigger] cuts[m]) == end ==> m
                == j + 1) && (m + 1 < cuts.len() ==> !(cuts[m] < end < cuts[m + 1])) by {
                lemma_at_one_cut(line, cuts, j + 1, m);
            }
        }
    }
    if split {
        assert forall|k: int| 0 <= k < first.len() implies #[trigger] is_broken_right(
            line,
            cuts,
            first,
            own.last().0,
            width,
            tab_len,
            split,
            k,
        ) by {
            assert(is_broken_right(line, cuts, own, end, width, tab_len, split, k));
        }
    }
}

/// Behind a row that white space no longer fits behind, the next row starts where it must.
pub proof fn law_white_space_is_kept_from(
    line: Seq<char>,
    here: int,
    end: int,
    used: nat,
    width: nat,
    tab_len: u8,
)
    requires
        is_range(line, here, end),
        here < end,
        used <= width,
        is_blank(text_between(line, here, end)),
    ensures
        breaks_at(
            line,
            here,
            end,
            used,
            kept_from(line, here, end, used, width, tab_len),
            width,
            tab_len,
        ),
{
    let text = text_between(line, here, end);
    if used < width {
        lemma_grapheme_cuts(text);
        law_most_cells_are_dropped(text, grapheme_cuts(text), (width - used) as nat, tab_len);
    } else {
        law_full_row_drops_first_cluster(line, here, end, width, tab_len);
    }
}

/// The first row starts where the rows are to start; there is none if that is the end.
proof fn lemma_rows_start(
    line: Seq<char>,
    cuts: Seq<int>,
    start: int,
    i: int,
    width: nat,
    tab_len: u8,
    split: bool,
)
    requires
        well_cut(line, cuts),
        0 <= i < cuts.len(),
        is_range(line, start, cuts[i]),
    ensures
        ({
            let rows = word_rows(line, cuts, start, i, width, tab_len, split);
            if rows.len() > 0 {
                rows[0].0 == start
            } else {
                start == byte_len(line)
            }
        }),
{
    let rows = word_rows(line, cuts, start, i, width, tab_len, split);
    lemma_word_rows_lay_out(line, cuts, start, i, width, tab_len, split);
    lemma_cut_range(line, cuts, i, cuts.len() - 1);
    if rows.len() > 0 && start == byte_len(line) {
        assert(is_row(line, rows[0]));
        lemma_rows_follow_start(line, rows, start, byte_len(line), 0);
    }
}

/// One row that runs to the farthest cut is broken right.
proof fn lemma_one_row_broken_right(
    line: Seq<char>,
    cuts: Seq<int>,
    start: int,
    j: int,
    next: int,
    width: nat,
    tab_len: u8,
    split: bool,
)
    requires
        well_cut(line, cuts),
        0 <= j < cuts.len(),
        is_range(line, start, cuts[j]),
        j + 1 < cuts.len() ==> {
            &&& row_width(line, start, cuts[j + 1], tab_len) > width
            &&& breaks_at(
                line,
                cuts[j],
                cuts[j + 1],
                row_width(line, start, cuts[j], tab_len),
                next,
                width,
                tab_len,
            )
        },
    ensures
        are_broken_right(line, cuts, seq![(start, cuts[j])], next, width, tab_len, split),
{
    reveal(are_broken_right);
    let rows = seq![(start, cuts[j])];
    assert forall|k: int| 0 <= k < rows.len() implies #[trigger] is_broken_right(
        line,
        cuts,
        rows,
        next,
        width,
        tab_len,
        split,
        k,
    ) by {
        assert forall|m: int| 0 <= m < cuts.len() implies ((#[trigger] cuts[m]) == cuts[j] ==> m
            == j) && (m + 1 < cuts.len() ==> !(cuts[m] < cuts[j] < cuts[m + 1])) by {
            lemma_at_one_cut(line, cuts, j, m);
        }
    }
}

/// Rows that are broken at word boundaries are broken right.
#[verifier::rlimit(40)]
proof fn lemma_word_rows_broken_right(
    line: Seq<char>,
    cuts: Seq<int>,
    start: int,
    i: int,
    width: nat,
    tab_len: u8,
    split: bool,
)
    requires
        well_cut(line, cuts),
        0 <= i < cuts.len(),
        is_range(line, start, cuts[i]),
        row_width(line, start, cuts[i], tab_len) <= width,
    ensures
        are_broken_right(
            line,
            cuts,
            word_rows(line, cuts, start, i, width, tab_len, split),
            byte_len(line),
            width,
            tab_len,
            split,
        ),
    decreases cuts.len() - i, cuts[i] - start,
{
    let j = fit_end(line, cuts, start, i, width, tab_len);
    let to = byte_len(line);
    let here = cuts[j];
    let row = seq![(start, here)];
    lemma_fit_end(line, cuts, start, i, width, tab_len);
    lemma_cut_range(line, cuts, i, j);
    lemma_cut_range(line, cuts, j, j);
    lemma_row_width_empty(line, here, tab_len);
    if j + 1 == cuts.len() {
        lemma_one_row_broken_right(line, cuts, start, j, to, width, tab_len, split);
        if start >= here {
            reveal(are_broken_right);
        }
    } else {
        let next = cuts[j + 1];
        lemma_cut_range(line, cuts, j, j + 1);
        lemma_cut_range(line, cuts, j + 1, j + 1);
        lemma_row_width_empty(line, next, tab_len);
        let later = word_rows(line, cuts, next, j + 1, width, tab_len, split);
        lemma_rows_start(line, cuts, next, j + 1, width, tab_len, split);
        lemma_cut_is_not_in_space(line, cuts, j);
        lemma_cut_is_not_in_space(line, cuts, j + 1);
        if start < here {
            if is_blank(text_between(line, here, next)) {
                let used = row_width(line, start, here, tab_len);
                let kept = kept_from(line, here, next, used, width, tab_len);
                lemma_kept_from(line, here, next, used, width, tab_len);
                law_white_space_is_kept_from(line, here, next, used, width, tab_len);
                lemma_one_row_broken_right(line, cuts, start, j, kept, width, tab_len, split);
                if kept >= next || row_width(line, kept, next, tab_len) <= width {
                    let led = word_rows(line, cuts, kept, j + 1, width, tab_len, split);
                    lemma_word_rows_broken_right(line, cuts, kept, j + 1, width, tab_len, split);
                    lemma_rows_start(line, cuts, kept, j + 1, width, tab_len, split);
                    lemma_broken_right_concat(
                        line,
                        cuts,
                        row,
                        led,
                        kept,
                        to,
                        width,
                        tab_len,
                        split,
                    );
                } else {
                    let own = over_wide_rows(line, kept, next, width, tab_len, split);
                    lemma_word_rows_broken_right(line, cuts, next, j + 1, width, tab_len, split);
                    lemma_own_rows_broken_right(line, cuts, j, kept, width, tab_len, split);
                    lemma_over_wide_rows_lay_out(line, kept, next, width, tab_len, split);
                    lemma_broken_right_concat(
                        line,
                        cuts,
                        own,
                        later,
                        next,
                        to,
                        width,
                        tab_len,
                        split,
                    );
                    lemma_broken_right_concat(
                        line,
                        cuts,
                        row,
                        own + later,
                        kept,
                        to,
                        width,
                        tab_len,
                        split,
                    );
                }
            } else {
                let rest = word_rows(line, cuts, here, j, width, tab_len, split);
                lemma_one_row_broken_right(line, cuts, start, j, here, width, tab_len, split);
                lemma_word_rows_broken_right(line, cuts, here, j, width, tab_len, split);
                lemma_rows_start(line, cuts, here, j, width, tab_len, split);
                lemma_broken_right_concat(
                    line,
                    cuts,
                    row,
                    rest,
                    here,
                    to,
                    width,
                    tab_len,
                    split,
                );
            }
        } else {
            let own = over_wide_rows(line, here, next, width, tab_len, split);
            lemma_own_rows_broken_right(line, cuts, j, here, width, tab_len, split);
            lemma_last_own_row(line, here, next, width, tab_len, split);
            if is_left_open(line, cuts, j, width, tab_len, split) {
                let from = own.last().0;
                let first = own.drop_last();
                let shared = word_rows(line, cuts, from, j + 1, width, tab_len, split);
                assert(is_not_in_space(line, cuts, from)) by {
                    reveal(is_not_in_space);
                    assert forall|m: int|
                        #![trigger cuts[m]]
                        0 <= m && m + 1 < cuts.len() && cuts[m] < from < cuts[m + 1] implies
                        !is_blank(text_between(line, cuts[m], cuts[m + 1])) by {
                        if here < from {
                            lemma_inside_one_piece(line, cuts, j, m, from);
                        } else {
                            lemma_at_one_cut(line, cuts, j, m);
                        }
                    }
                }
                lemma_word_rows_broken_right(line, cuts, from, j + 1, width, tab_len, split);
                lemma_rows_start(line, cuts, from, j + 1, width, tab_len, split);
                lemma_broken_right_concat(
                    line,
                    cuts,
                    first,
                    shared,
                    from,
                    to,
                    width,
                    tab_len,
                    split,
                );
            } else {
                lemma_word_rows_broken_right(line, cuts, next, j + 1, width, tab_len, split);
                lemma_broken_right_concat(
                    line,
                    cuts,
                    own,
                    later,
                    next,
                    to,
                    width,
                    tab_len,
                    split,
                );
            }
        }
    }
}

/// Rows that are broken at the cuts of a line are broken where they must be, and each starts
/// where it must behind the one before it.
pub proof fn law_rows_are_broken_right(
    line: Seq<char>,
    cuts: Seq<int>,
    width: nat,
    tab_len: u8,
    split: bool,
    k: int,
)
    requires
        well_cut(line, cuts),
        0 <= k < word_rows(line, cuts, 0, 0, width, tab_len, split).len(),
    ensures
        is_broken_right(
            line,
            cuts,
            word_rows(line, cuts, 0, 0, width, tab_len, split),
            byte_len(line),
            width,
            tab_len,
            split,
            k,
        ),
{
    lemma_cut_range(line, cuts, 0, 0);
    lemma_row_width_empty(line, 0, tab_len);
    lemma_word_rows_broken_right(line, cuts, 0, 0, width, tab_len, split);
    reveal(are_broken_right);
}

/// With wrapping at word boundaries, with the fallback or without it, every row of a line is
/// broken where it must be, and the next one starts where it must. Without the fallback no row
/// ends inside a piece between two word boundaries.
pub proof fn law_lines_are_broken_right(
    line: Seq<char>,
    mode: WrapMode,
    width: nat,
    tab_len: u8,
    k: int,
)
    requires
        mode == WrapMode::Word || mode == WrapMode::WordOrGlyph,
        line.len() > 0,
        0 <= k < line_rows(line, mode, width, tab_len).len(),
    ensures
        is_broken_right(
            line,
            word_cuts(line),
            line_rows(line, mode, width, tab_len),
            byte_len(line),
            if width == 0 {
                1
            } else {
                width
            },
            tab_len,
            mode == WrapMode::WordOrGlyph,
            k,
        ),
{
    let split = mode == WrapMode::WordOrGlyph;
    lemma_word_cuts(line);
    law_rows_are_broken_right(line, word_cuts(line), usable_width(width), tab_len, split, k);
}

/// Whether the last row of a word that is split, piece number `j`, is `last`, and the row behind
/// it starts at `next`, as they must, where the rows of the word by itself end with one that
/// starts at `from`.
///
/// The row ends with the word, and the next one starts there, unless white space follows the word
/// and the row fits in the width. If that white space would have a row to itself, it ends the row
/// if it fits there, and is left out if behind the row nothing of it is kept. Otherwise the row
/// takes in the next one if they fit in one row, the word has nothing but white space before it,
/// and the next row ends with white space or with the line.
pub open spec fn ends_split_word(
    line: Seq<char>,
    cuts: Seq<int>,
    j: int,
    from: int,
    last: (int, int),
    next: int,
    width: nat,
    tab_len: u8,
) -> bool {
    let i = j + 1;
    let used = row_width(line, from, cuts[i], tab_len);
    let stop = fit_end(line, cuts, cuts[i], i, width, tab_len);
    &&& last.0 == from
    &&& if used > width || i + 1 == cuts.len() || !is_blank(
        text_between(line, cuts[i], cuts[i + 1]),
    ) {
        last.1 == cuts[i] && next == cuts[i]
    } else if stop <= i + 1 && row_width(line, from, cuts[i + 1], tab_len) <= width {
        last.1 == cuts[i + 1]
    } else if stop <= i + 1 && kept_from(line, cuts[i], cuts[i + 1], used, width, tab_len)
        >= cuts[i + 1] {
        last.1 == cuts[i] && next == cuts[i + 1]
    } else if i < stop && row_width(line, from, cuts[stop], tab_len) <= width && (j == 0
        || is_blank(text_between(line, cuts[j - 1], cuts[j]))) && (stop + 1 == cuts.len()
        || is_blank(text_between(line, cuts[stop - 1], cuts[stop]))) {
        last.1 == cuts[stop]
    } else {
        last.1 == cuts[i] && next == cuts[i]
    }
}

/// Whether the rows from number `n` on show a word that is split, piece number `j`: they are
/// `own`, but that the last of them ends as it must.
pub open spec fn shows_split_word(
    line: Seq<char>,
    cuts: Seq<int>,
    j: int,
    own: Seq<(int, int)>,
    rows: Seq<(int, int)>,
    n: int,
    width: nat,
    tab_len: u8,
) -> bool {
    let z = own.len() - 1;
    &&& 0 <= n
    &&& 0 <= z
    &&& n + z < rows.len()
    &&& forall|q: int| 0 <= q < z ==> rows[n + q] == #[trigger] own[q]
    &&& ends_split_word(
        line,
        cuts,
        j,
        own.last().0,
        rows[n + z],
        next_start(rows, byte_len(line), n + z),
        width,
        tab_len,
    )
}

/// Whether a word that is split is shown somewhere among the rows.
#[verifier::opaque]
spec fn has_split_word(
    line: Seq<char>,
    cuts: Seq<int>,
    j: int,
    own: Seq<(int, int)>,
    rows: Seq<(int, int)>,
    width: nat,
    tab_len: u8,
) -> bool {
    exists|n: int| #[trigger] shows_split_word(line, cuts, j, own, rows, n, width, tab_len)
}

/// Rows that stand before others do not change what those show.
proof fn lemma_split_word_behind(
    line: Seq<char>,
    cuts: Seq<int>,
    j: int,
    own: Seq<(int, int)>,
    before: Seq<(int, int)>,
    rows: Seq<(int, int)>,
    width: nat,
    tab_len: u8,
)
    requires
        has_split_word(line, cuts, j, own, rows, width, tab_len),
    ensures
        has_split_word(line, cuts, j, own, before + rows, width, tab_len),
{
    reveal(has_split_word);
    let n = choose|n: int| #[trigger] shows_split_word(line, cuts, j, own, rows, n, width, tab_len);
    let all = before + rows;
    let at = before.len() + n;
    let z = own.len() - 1;
    assert forall|q: int| 0 <= q < z implies all[at + q] == #[trigger] own[q] by {
        assert(all[at + q] == rows[n + q]);
    }
    assert(all[at + z] == rows[n + z]);
    assert(next_start(all, byte_len(line), at + z) == next_start(rows, byte_len(line), n + z));
    assert(shows_split_word(line, cuts, j, own, all, at, width, tab_len));
}

/// Where a word is split, its rows are followed by what must follow.
proof fn lemma_split_word_rows(
    line: Seq<char>,
    cuts: Seq<int>,
    j: int,
    width: nat,
    tab_len: u8,
)
    requires
        well_cut(line, cuts),
        0 <= j,
        j + 1 < cuts.len(),
        row_width(line, cuts[j], cuts[j + 1], tab_len) > width,
        !is_blank(text_between(line, cuts[j], cuts[j + 1])),
    ensures
        has_split_word(
            line,
            cuts,
            j,
            glyph_rows(line, cuts[j], cuts[j + 1], width, tab_len),
            word_rows(line, cuts, cuts[j], j, width, tab_len, true),
            width,
            tab_len,
        ),
{
    reveal(has_split_word);
    let i = j + 1;
    let here = cuts[j];
    let next = cuts[i];
    let own = glyph_rows(line, here, next, width, tab_len);
    let from = own.last().0;
    let rows = word_rows(line, cuts, here, j, width, tab_len, true);
    let to = byte_len(line);
    let z = own.len() - 1;
    lemma_cut_range(line, cuts, j, i);
    lemma_cut_range(line, cuts, i, i);
    lemma_last_own_row(line, here, next, width, tab_len, true);
    lemma_fit_end(line, cuts, here, j, width, tab_len);
    lemma_fit_end(line, cuts, next, i, width, tab_len);
    lemma_fit_end(line, cuts, from, i, width, tab_len);
    let stop = fit_end(line, cuts, next, i, width, tab_len);
    let end = fit_end(line, cuts, from, i, width, tab_len);
    if is_left_open(line, cuts, j, width, tab_len, true) {
        let shared = word_rows(line, cuts, from, i, width, tab_len, true);
        let used = row_width(line, from, next, tab_len);
        assert(rows == own.drop_last() + shared);
        lemma_cut_range(line, cuts, i, end);
        assert(shared[0] == (from, cuts[end]));
        assert(rows[z] == shared[0]);
        lemma_cut_range(line, cuts, i, i + 1);
        if i + 1 < cuts.len() {
            lemma_row_width_at_cuts(line, cuts, from, i, i + 1, tab_len);
        }
        if stop <= i + 1 && row_width(line, from, cuts[i + 1], tab_len) <= width {
            law_row_goes_as_far_as_it_fits(line, cuts, from, i, width, tab_len, i + 1);
            if i + 2 < cuts.len() {
                lemma_cut_range(line, cuts, i, i + 2);
                law_row_goes_as_far_as_it_fits(line, cuts, next, i, width, tab_len, i + 2);
                law_row_goes_as_far_as_it_fits(line, cuts, from, i, width, tab_len, i + 2);
                lemma_end_of_piece_is_narrower(line, from, next, cuts[i + 2], tab_len);
            }
            assert(end == i + 1);
        } else if stop <= i + 1 && kept_from(line, next, cuts[i + 1], used, width, tab_len)
            >= cuts[i + 1] {
            let kept = kept_from(line, next, cuts[i + 1], used, width, tab_len);
            law_row_goes_as_far_as_it_fits(line, cuts, from, i, width, tab_len, i + 1);
            assert(end == i);
            lemma_kept_from(line, next, cuts[i + 1], used, width, tab_len);
            lemma_cut_range(line, cuts, i + 1, i + 1);
            let later = word_rows(line, cuts, cuts[i + 1], i + 1, width, tab_len, true);
            lemma_rows_start(line, cuts, cuts[i + 1], i + 1, width, tab_len, true);
            assert(shared == seq![(from, next)] + later);
            assert(next_start(rows, to, z) == cuts[i + 1]);
        } else {
            lemma_row_width_at_cuts(line, cuts, from, i, stop, tab_len);
            law_row_goes_as_far_as_it_fits(line, cuts, from, i, width, tab_len, stop);
            if stop + 1 < cuts.len() {
                lemma_cut_range(line, cuts, i, stop + 1);
                law_row_goes_as_far_as_it_fits(line, cuts, from, i, width, tab_len, stop + 1);
                lemma_end_of_piece_is_narrower(line, from, next, cuts[stop + 1], tab_len);
            }
            assert(end == stop);
        }
        assert forall|q: int| 0 <= q < z implies rows[0 + q] == #[trigger] own[q] by {
            assert(rows[q] == own.drop_last()[q]);
        }
    } else {
        let later = word_rows(line, cuts, next, i, width, tab_len, true);
        assert(rows == own + later);
        lemma_rows_start(line, cuts, next, i, width, tab_len, true);
        assert(rows[z] == own[z]);
        assert(next_start(rows, to, z) == next);
        assert forall|q: int| 0 <= q < z implies rows[0 + q] == #[trigger] own[q] by {
            assert(rows[q] == own[q]);
        }
    }
    assert(shows_split_word(line, cuts, j, own, rows, 0, width, tab_len));
}

/// A word that is wider than a row is shown by rows of its own, whatever stands before it.
#[verifier::rlimit(40)]
proof fn lemma_word_is_split(
    line: Seq<char>,
    cuts: Seq<int>,
    start: int,
    i: int,
    width: nat,
    tab_len: u8,
    k: int,
)
    requires
        well_cut(line, cuts),
        0 <= i <= k,
        k + 1 < cuts.len(),
        is_range(line, start, cuts[i]),
        row_width(line, start, cuts[i], tab_len) <= width,
        row_width(line, cuts[k], cuts[k + 1], tab_len) > width,
        !is_blank(text_between(line, cuts[k], cuts[k + 1])),
    ensures
        has_split_word(
            line,
            cuts,
            k,
            glyph_rows(line, cuts[k], cuts[k + 1], width, tab_len),
            word_rows(line, cuts, start, i, width, tab_len, true),
            width,
            tab_len,
        ),
    decreases cuts.len() - i, cuts[i] - start,
{
    let j = fit_end(line, cuts, start, i, width, tab_len);
    let here = cuts[j];
    let word = glyph_rows(line, cuts[k], cuts[k + 1], width, tab_len);
    let row = seq![(start, here)];
    lemma_fit_end(line, cuts, start, i, width, tab_len);
    lemma_cut_range(line, cuts, i, j);
    lemma_cut_range(line, cuts, i, k);
    lemma_cut_range(line, cuts, k, k + 1);
    if k < j {
        lemma_row_width_at_cuts(line, cuts, start, i, k + 1, tab_len);
        lemma_row_width_at_cuts(line, cuts, start, k + 1, j, tab_len);
        lemma_between_concat(line, start, cuts[i], cuts[k]);
        lemma_end_of_piece_is_narrower(line, start, cuts[k], cuts[k + 1], tab_len);
        assert(false);
    }
    let next = cuts[j + 1];
    lemma_cut_range(line, cuts, j, j + 1);
    lemma_cut_range(line, cuts, j, j);
    lemma_cut_range(line, cuts, j + 1, j + 1);
    lemma_row_width_empty(line, here, tab_len);
    lemma_row_width_empty(line, next, tab_len);
    if start < here {
        if is_blank(text_between(line, here, next)) {
            let used = row_width(line, start, here, tab_len);
            let kept = kept_from(line, here, next, used, width, tab_len);
            lemma_kept_from(line, here, next, used, width, tab_len);
            if kept >= next || row_width(line, kept, next, tab_len) <= width {
                let led = word_rows(line, cuts, kept, j + 1, width, tab_len, true);
                lemma_word_is_split(line, cuts, kept, j + 1, width, tab_len, k);
                lemma_split_word_behind(line, cuts, k, word, row, led, width, tab_len);
            } else {
                let own = over_wide_rows(line, kept, next, width, tab_len, true);
                let later = word_rows(line, cuts, next, j + 1, width, tab_len, true);
                lemma_word_is_split(line, cuts, next, j + 1, width, tab_len, k);
                lemma_split_word_behind(line, cuts, k, word, own, later, width, tab_len);
                lemma_split_word_behind(line, cuts, k, word, row, own + later, width, tab_len);
            }
        } else {
            let rest = word_rows(line, cuts, here, j, width, tab_len, true);
            lemma_word_is_split(line, cuts, here, j, width, tab_len, k);
            lemma_split_word_behind(line, cuts, k, word, row, rest, width, tab_len);
        }
    } else {
        let own = over_wide_rows(line, here, next, width, tab_len, true);
        lemma_last_own_row(line, here, next, width, tab_len, true);
        if k == j {
            lemma_split_word_rows(line, cuts, k, width, tab_len);
            lemma_fit_end(line, cuts, cuts[k], k, width, tab_len);
            assert(word_rows(line, cuts, start, i, width, tab_len, true) == word_rows(
                line,
                cuts,
                cuts[k],
                k,
                width,
                tab_len,
                true,
            ));
        } else if is_left_open(line, cuts, j, width, tab_len, true) {
            let from = own.last().0;
            let shared = word_rows(line, cuts, from, j + 1, width, tab_len, true);
            lemma_word_is_split(line, cuts, from, j + 1, width, tab_len, k);
            lemma_split_word_behind(
                line,
                cuts,
                k,
                word,
                own.drop_last(),
                shared,
                width,
                tab_len,
            );
        } else {
            let later = word_rows(line, cuts, next, j + 1, width, tab_len, true);
            lemma_word_is_split(line, cuts, next, j + 1, width, tab_len, k);
            lemma_split_word_behind(line, cuts, k, word, own, later, width, tab_len);
        }
    }
}

/// The rows, each moved by `by` bytes.
pub open spec fn moved(rows: Seq<(int, int)>, by: int) -> Seq<(int, int)> {
    Seq::new(rows.len(), |q: int| (by + rows[q].0, by + rows[q].1))
}

/// The rows of a part of a line are those of the part by itself, moved by where it starts.
proof fn lemma_glyph_rows_of_part(
    line: Seq<char>,
    start: int,
    end: int,
    at: int,
    width: nat,
    tab_len: u8,
)
    requires
        is_range(line, start, end),
        is_range(text_between(line, start, end), at, end - start),
    ensures
        ({
            let part = glyph_rows(text_between(line, start, end), at, end - start, width, tab_len);
            let rows = glyph_rows(line, start + at, end, width, tab_len);
            &&& part.len() == rows.len()
            &&& forall|q: int|
                0 <= q < rows.len() ==> #[trigger] rows[q] == (start + part[q].0, start
                    + part[q].1)
        }),
    decreases end - start - at,
{
    let text = text_between(line, start, end);
    lemma_encode_between(line, start, end);
    lemma_between_of_between(line, start, end, at, end - start);
    if at < end - start {
        let rest = text_between(text, at, end - start);
        let stop = first_row_end(rest, grapheme_cuts(rest), width, tab_len);
        assert(rest == text_between(line, start + at, end));
        lemma_first_row(text, at, end - start, width, tab_len);
        lemma_first_row(line, start + at, end, width, tab_len);
        lemma_glyph_rows_of_part(line, start, end, at + stop, width, tab_len);
        let part = glyph_rows(text, at + stop, end - start, width, tab_len);
        let rows = glyph_rows(line, start + at + stop, end, width, tab_len);
        assert(glyph_rows(text, at, end - start, width, tab_len) == seq![(at, at + stop)] + part);
        assert(glyph_rows(line, start + at, end, width, tab_len) == seq![
            (start + at, start + at + stop),
        ] + rows);
    }
}

/// With the fallback, a word that is wider than a row is shown by the rows that wrapping at
/// grapheme boundaries gives for the word by itself, whatever stands before or behind it. Only
/// the last of them may go on behind the word, as it must.
pub proof fn law_split_word_is_wrapped_by_clusters(
    line: Seq<char>,
    width: nat,
    tab_len: u8,
    j: int,
)
    requires
        0 <= j,
        j + 1 < word_cuts(line).len(),
        row_width(line, word_cuts(line)[j], word_cuts(line)[j + 1], tab_len) > width,
        width > 0,
        !is_blank(text_between(line, word_cuts(line)[j], word_cuts(line)[j + 1])),
    ensures
        ({
            let cuts = word_cuts(line);
            let word = text_between(line, cuts[j], cuts[j + 1]);
            let alone = line_rows(word, WrapMode::Glyph, width, tab_len);
            let own = moved(alone, cuts[j]);
            exists|n: int|
                #[trigger] shows_split_word(
                    line,
                    cuts,
                    j,
                    own,
                    line_rows(line, WrapMode::WordOrGlyph, width, tab_len),
                    n,
                    width,
                    tab_len,
                )
        }),
{
    let cuts = word_cuts(line);
    let start = cuts[j];
    let end = cuts[j + 1];
    let word = text_between(line, start, end);
    let alone = line_rows(word, WrapMode::Glyph, width, tab_len);
    let own = moved(alone, start);
    lemma_word_cuts(line);
    lemma_cut_count(line, cuts);
    lemma_cut_range(line, cuts, 0, 0);
    lemma_cut_range(line, cuts, j, j + 1);
    lemma_row_width_empty(line, 0, tab_len);
    lemma_encode_between(line, start, end);
    lemma_chars_at_most_bytes(word);
    lemma_whole_text(word);
    lemma_glyph_rows_of_part(line, start, end, 0, width, tab_len);
    assert(own =~= glyph_rows(line, start, end, width, tab_len));
    lemma_word_is_split(line, cuts, 0, 0, width, tab_len, j);
    let rows = line_rows(line, WrapMode::WordOrGlyph, width, tab_len);
    assert(line.len() > 0);
    assert(rows == word_rows(line, cuts, 0, 0, width, tab_len, true));
    assert(has_split_word(line, cuts, j, own, rows, width, tab_len));
    reveal(has_split_word);
    let n = choose|n: int|
        #[trigger] shows_split_word(line, cuts, j, own, rows, n, width, tab_len);
    assert(shows_split_word(line, cuts, j, own, rows, n, width, tab_len));
}

/// A range has rows if it holds something, and none otherwise; the last of them ends with it.
pub proof fn law_rows_of_clusters_show_the_range(
    line: Seq<char>,
    start: int,
    end: int,
    width: nat,
    tab_len: u8,
)
    requires
        start < end ==> is_range(line, start, end),
    ensures
        ({
            let rows = glyph_rows(line, start, end, width, tab_len);
            &&& start >= end <==> rows.len() == 0
            &&& start < end ==> rows[0].0 == start && rows.last().1 == end
        }),
{
    if start < end {
        lemma_last_own_row(line, start, end, width, tab_len, true);
        lemma_glyph_rows_lay_out(line, start, end, width, tab_len);
    }
}

/// The first row of a text that is cut into pieces ends at a cut: behind as many pieces as fit,
/// and one at least.
pub proof fn law_first_row_holds_what_fits(
    text: Seq<char>,
    cuts: Seq<int>,
    width: nat,
    tab_len: u8,
)
    requires
        well_cut(text, cuts),
        text.len() > 0,
    ensures
        ({
            let end = first_row_end(text, cuts, width, tab_len);
            exists|m: int|
                {
                    &&& 0 < m < cuts.len()
                    &&& end == #[trigger] cuts[m]
                    &&& m == 1 || row_width(text, 0, end, tab_len) <= width
                    &&& m + 1 < cuts.len() ==> row_width(text, 0, cuts[m + 1], tab_len) > width
                }
        }),
{
    lemma_cut_count(text, cuts);
    lemma_fit_end(text, cuts, 0, 1, width, tab_len);
    let m = fit_end(text, cuts, 0, 1, width, tab_len);
    assert(first_row_end(text, cuts, width, tab_len) == cuts[m]);
}

} // verus!
