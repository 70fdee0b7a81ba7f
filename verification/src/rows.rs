//! Rows of a line: the columns they take and how far they reach.

use crate::segment::well_cut;
use crate::text::{is_range, lemma_between_concat, lemma_between_of_between, text_between};
use crate::width::{display_end, lemma_display_end_concat, lemma_display_end_grows};
use vstd::prelude::*;

verus! {

/// The byte ranges in `ranges`, as mathematical integers.
pub open spec fn as_rows(ranges: Seq<(usize, usize)>) -> Seq<(int, int)> {
    ranges.map_values(|range: (usize, usize)| (range.0 as int, range.1 as int))
}

/// The columns that a row takes which shows `line` from `start` to `end`.
pub open spec fn row_width(line: Seq<char>, start: int, end: int, tab_len: u8) -> nat {
    display_end(text_between(line, start, end), 0, tab_len)
}

/// The last cut, from cut number `i` on, to which a row that starts at `start` can be extended
/// piece by piece without taking more than `limit` columns.
pub open spec fn fit_end(
    line: Seq<char>,
    cuts: Seq<int>,
    start: int,
    i: int,
    limit: nat,
    tab_len: u8,
) -> int
    decreases cuts.len() - i,
{
    if i + 1 < cuts.len() && row_width(line, start, cuts[i + 1], tab_len) <= limit {
        fit_end(line, cuts, start, i + 1, limit, tab_len)
    } else {
        i
    }
}

/// Ranges that are pushed one by one are rows that are pushed one by one.
pub proof fn lemma_as_rows_push(ranges: Seq<(usize, usize)>, range: (usize, usize))
    ensures
        as_rows(ranges.push(range)) == as_rows(ranges).push((range.0 as int, range.1 as int)),
{
    assert(as_rows(ranges.push(range)) =~= as_rows(ranges).push(
        (range.0 as int, range.1 as int),
    ));
}

/// A row that is extended goes on at the column that it had reached.
pub proof fn lemma_row_width_extend(line: Seq<char>, start: int, mid: int, end: int, tab_len: u8)
    requires
        is_range(line, start, mid),
        is_range(line, mid, end),
    ensures
        row_width(line, start, end, tab_len) == display_end(
            text_between(line, mid, end),
            row_width(line, start, mid, tab_len),
            tab_len,
        ),
        row_width(line, start, mid, tab_len) <= row_width(line, start, end, tab_len),
{
    lemma_between_concat(line, start, mid, end);
    lemma_display_end_concat(
        text_between(line, start, mid),
        text_between(line, mid, end),
        0,
        tab_len,
    );
    lemma_display_end_grows(
        text_between(line, mid, end),
        row_width(line, start, mid, tab_len),
        tab_len,
    );
}

/// An empty row takes no columns.
pub proof fn lemma_row_width_empty(line: Seq<char>, at: int, tab_len: u8)
    requires
        is_range(line, at, at),
    ensures
        row_width(line, at, at, tab_len) == 0,
{
}

/// A row shown out of a part of a line takes the columns that it takes out of the line.
pub proof fn lemma_row_width_of_part(
    line: Seq<char>,
    start: int,
    end: int,
    from: int,
    to: int,
    tab_len: u8,
)
    requires
        is_range(line, start, end),
        is_range(text_between(line, start, end), from, to),
    ensures
        is_range(line, start + from, start + to),
        row_width(text_between(line, start, end), from, to, tab_len) == row_width(
            line,
            start + from,
            start + to,
            tab_len,
        ),
{
    lemma_between_of_between(line, start, end, from, to);
}

/// The row is extended to one of the cuts: it fits at every cut passed over, and where it stops
/// short of the end, the next piece no longer fits.
pub proof fn lemma_fit_end(
    line: Seq<char>,
    cuts: Seq<int>,
    start: int,
    i: int,
    limit: nat,
    tab_len: u8,
)
    requires
        0 <= i < cuts.len(),
    ensures
        ({
            let stop = fit_end(line, cuts, start, i, limit, tab_len);
            &&& i <= stop < cuts.len()
            &&& i < stop ==> row_width(line, start, cuts[stop], tab_len) <= limit
            &&& stop + 1 < cuts.len() ==> row_width(line, start, cuts[stop + 1], tab_len) > limit
        }),
    decreases cuts.len() - i,
{
    if i + 1 < cuts.len() && row_width(line, start, cuts[i + 1], tab_len) <= limit {
        lemma_fit_end(line, cuts, start, i + 1, limit, tab_len);
    }
}

/// A row widens from cut to cut.
pub proof fn lemma_row_width_at_cuts(
    line: Seq<char>,
    cuts: Seq<int>,
    start: int,
    i: int,
    j: int,
    tab_len: u8,
)
    requires
        well_cut(line, cuts),
        0 <= i <= j < cuts.len(),
        is_range(line, start, cuts[i]),
    ensures
        is_range(line, start, cuts[j]),
        row_width(line, start, cuts[i], tab_len) <= row_width(line, start, cuts[j], tab_len),
{
    lemma_row_width_extend(line, start, cuts[i], cuts[j], tab_len);
}

} // verus!
