//! Wrapping at word boundaries.

use crate::glyph::{glyph_rows, split_range_by_grapheme_width};
use crate::layout::{
    gap, is_row, lemma_glyph_rows_lay_out, lemma_over_wide_rows_lay_out, lemma_rows_follow_start,
};
use crate::rows::{
    as_rows, fit_end, lemma_as_rows_push, lemma_fit_end, lemma_row_width_empty,
    lemma_row_width_extend, row_width,
};
use crate::segment::{
    chunk_cuts, chunk_text, chunks_tile, grapheme_chunks, grapheme_cuts, lemma_cut_count,
    lemma_cut_range, lemma_grapheme_cuts, well_cut, word_chunks, word_cuts, Chunk,
};
use crate::text::{
    byte_len, is_range, lemma_between_concat, lemma_between_empty, lemma_between_of_between,
    lemma_chars_at_most_bytes, lemma_encode_between, slice, text_between,
};
use crate::width::{checked_display_width_from, checked_display_width_to};
use vstd::prelude::*;
use vstd::string::*;

verus! {

/// Whether `c` has the Unicode property `White_Space`.
pub open spec fn is_white_space(c: char) -> bool {
    ||| '\u{9}' <= c <= '\u{d}'
    ||| c == ' '
    ||| c == '\u{85}'
    ||| c == '\u{a0}'
    ||| c == '\u{1680}'
    ||| '\u{2000}' <= c <= '\u{200a}'
    ||| c == '\u{2028}'
    ||| c == '\u{2029}'
    ||| c == '\u{202f}'
    ||| c == '\u{205f}'
    ||| c == '\u{3000}'
}

/// `char::is_whitespace`. Trusted: it tells whether a character has the Unicode property
/// `White_Space`.
pub assume_specification[ char::is_whitespace ](c: char) -> (white: bool)
    ensures
        white == is_white_space(c),
;

/// Whether `text` holds nothing but white space.
pub open spec fn is_blank(text: Seq<char>) -> bool {
    forall|i: int| 0 <= i < text.len() ==> is_white_space(#[trigger] text[i])
}

/// Whether `text` separates words: it holds white space and nothing else.
pub fn is_separator(text: &str) -> (separates: bool)
    ensures
        separates <==> text@.len() > 0 && is_blank(text@),
{
    for c in it: text.chars()
        invariant
            it.seq() == text@,
            forall|i: int| 0 <= i < it.index() ==> is_white_space(#[trigger] text@[i]),
    {
        if !c.is_whitespace() {
            assert(c == text@[it.index() as int]);
            return false;
        }
    }
    !text.is_empty()
}

/// The last cut, counted back from cut number `k`, before which a piece takes columns.
pub open spec fn last_visible(text: Seq<char>, cuts: Seq<int>, k: int, tab_len: u8) -> int
    decreases k,
{
    if k > 0 && row_width(text, 0, cuts[k], tab_len) == row_width(text, 0, cuts[k - 1], tab_len) {
        last_visible(text, cuts, k - 1, tab_len)
    } else {
        k
    }
}

/// The last cut, from cut number `i` on, up to which all pieces are white space and `text` takes
/// no more than `cells` columns.
pub open spec fn blank_end(
    text: Seq<char>,
    cuts: Seq<int>,
    i: int,
    cells: nat,
    tab_len: u8,
) -> int
    decreases cuts.len() - i,
{
    if i + 1 < cuts.len() && is_blank(text_between(text, cuts[i], cuts[i + 1])) && row_width(
        text,
        0,
        cuts[i + 1],
        tab_len,
    ) <= cells {
        blank_end(text, cuts, i + 1, cells, tab_len)
    } else {
        i
    }
}

/// How many bytes of `text` are dropped where up to `cells` columns of leading white space are
/// to go: as many pieces of white space as fit in those columns, without those at the end that
/// take no column.
pub open spec fn dropped_len(text: Seq<char>, cuts: Seq<int>, cells: nat, tab_len: u8) -> int {
    cuts[last_visible(text, cuts, blank_end(text, cuts, 0, cells, tab_len), tab_len)]
}

/// White space behind white space is white space.
pub proof fn lemma_blank_concat(text: Seq<char>, start: int, mid: int, end: int)
    requires
        is_range(text, start, mid),
        is_range(text, mid, end),
    ensures
        is_blank(text_between(text, start, end)) <==> is_blank(text_between(text, start, mid))
            && is_blank(text_between(text, mid, end)),
{
    let a = text_between(text, start, mid);
    let b = text_between(text, mid, end);
    let whole = text_between(text, start, end);
    lemma_between_concat(text, start, mid, end);
    if is_blank(whole) {
        assert forall|i: int| 0 <= i < a.len() implies is_white_space(#[trigger] a[i]) by {
            assert(a[i] == whole[i]);
        }
        assert forall|i: int| 0 <= i < b.len() implies is_white_space(#[trigger] b[i]) by {
            assert(b[i] == whole[a.len() + i]);
        }
    }
}

/// The pieces that are passed over are white space and fit; the next one is not white space, or
/// no longer fits.
pub proof fn lemma_blank_end(text: Seq<char>, cuts: Seq<int>, i: int, cells: nat, tab_len: u8)
    requires
        well_cut(text, cuts),
        0 <= i < cuts.len(),
        is_blank(text_between(text, 0, cuts[i])),
    ensures
        ({
            let stop = blank_end(text, cuts, i, cells, tab_len);
            &&& i <= stop < cuts.len()
            &&& i < stop ==> row_width(text, 0, cuts[stop], tab_len) <= cells
            &&& is_blank(text_between(text, 0, cuts[stop]))
            &&& stop + 1 < cuts.len() ==> !is_blank(
                text_between(text, cuts[stop], cuts[stop + 1]),
            ) || row_width(text, 0, cuts[stop + 1], tab_len) > cells
        }),
    decreases cuts.len() - i,
{
    if i + 1 < cuts.len() && is_blank(text_between(text, cuts[i], cuts[i + 1])) && row_width(
        text,
        0,
        cuts[i + 1],
        tab_len,
    ) <= cells {
        lemma_cut_range(text, cuts, 0, i);
        lemma_cut_range(text, cuts, i, i + 1);
        lemma_blank_concat(text, 0, cuts[i], cuts[i + 1]);
        lemma_blank_end(text, cuts, i + 1, cells, tab_len);
    }
}

/// Pieces without columns are passed over back to the start at most.
pub proof fn lemma_last_visible(text: Seq<char>, cuts: Seq<int>, k: int, tab_len: u8)
    requires
        0 <= k < cuts.len(),
    ensures
        0 <= last_visible(text, cuts, k, tab_len) <= k,
        row_width(text, 0, cuts[last_visible(text, cuts, k, tab_len)], tab_len) == row_width(
            text,
            0,
            cuts[k],
            tab_len,
        ),
    decreases k,
{
    if k > 0 && row_width(text, 0, cuts[k], tab_len) == row_width(text, 0, cuts[k - 1], tab_len) {
        lemma_last_visible(text, cuts, k - 1, tab_len);
    }
}

/// What is dropped is white space at the start of the text, in whole characters.
pub proof fn lemma_dropped_len(text: Seq<char>, cuts: Seq<int>, cells: nat, tab_len: u8)
    requires
        well_cut(text, cuts),
    ensures
        is_range(text, 0, dropped_len(text, cuts, cells, tab_len)),
        is_range(text, dropped_len(text, cuts, cells, tab_len), byte_len(text)),
        is_blank(text_between(text, 0, dropped_len(text, cuts, cells, tab_len))),
{
    lemma_cut_range(text, cuts, 0, 0);
    lemma_between_empty(text, 0);
    let stop = blank_end(text, cuts, 0, cells, tab_len);
    lemma_blank_end(text, cuts, 0, cells, tab_len);
    lemma_last_visible(text, cuts, stop, tab_len);
    let k = last_visible(text, cuts, stop, tab_len);
    lemma_cut_range(text, cuts, 0, k);
    lemma_cut_range(text, cuts, k, stop);
    lemma_cut_range(text, cuts, k, cuts.len() - 1);
    lemma_blank_concat(text, 0, cuts[k], cuts[stop]);
}

/// The number of bytes at the start of `text` that hold up to `drop_cells` columns of white
/// space, where `graphemes` are the pieces of the text. Pieces at the end of them that take no
/// column are not counted.
pub fn leading_cells(
    text: &str,
    graphemes: &Vec<Chunk>,
    drop_cells: usize,
    tab_len: u8,
) -> (offset: usize)
    requires
        chunks_tile(text@, graphemes@),
    ensures
        offset == dropped_len(text@, chunk_cuts(graphemes@), drop_cells as nat, tab_len),
        is_blank(text_between(text@, 0, offset as int)),
{
    let ghost cuts = chunk_cuts(graphemes@);
    proof {
        lemma_cut_range(text@, cuts, 0, 0);
        lemma_row_width_empty(text@, 0, tab_len);
        lemma_dropped_len(text@, cuts, drop_cells as nat, tab_len);
    }
    let mut cells: usize = 0;
    let mut offset: usize = 0;
    let mut k: usize = 0;
    while k < graphemes.len()
        invariant
            chunks_tile(text@, graphemes@),
            cuts == chunk_cuts(graphemes@),
            k <= graphemes.len(),
            cells == row_width(text@, 0, cuts[k as int], tab_len),
            cells <= drop_cells,
            offset == cuts[last_visible(text@, cuts, k as int, tab_len)],
            blank_end(text@, cuts, 0, drop_cells as nat, tab_len) == blank_end(
                text@,
                cuts,
                k as int,
                drop_cells as nat,
                tab_len,
            ),
            is_blank(
                text_between(
                    text@,
                    0,
                    dropped_len(text@, cuts, drop_cells as nat, tab_len),
                ),
            ),
        decreases graphemes.len() - k,
    {
        proof {
            lemma_cut_range(text@, cuts, 0, k as int);
            lemma_cut_range(text@, cuts, k as int, k + 1);
            lemma_row_width_extend(text@, 0, cuts[k as int], cuts[k + 1], tab_len);
            lemma_piece_has_text(text@, cuts, k as int);
        }
        let grapheme = chunk_text(text, graphemes[k]);
        if !is_separator(grapheme) {
            return offset;
        }
        match checked_display_width_to(grapheme, cells, tab_len) {
            Some(end) => {
                if end > drop_cells {
                    return offset;
                }
                if end > cells {
                    cells = end;
                    offset = graphemes[k].end;
                }
            },
            None => {
                return offset;
            },
        }
        k += 1;
    }
    offset
}

/// The byte offset inside `chunk` after up to `drop_cells` columns of the white space at its
/// start are dropped, whole grapheme clusters only.
pub fn drop_leading_whitespace(
    line: &str,
    chunk: Chunk,
    drop_cells: usize,
    tab_len: u8,
) -> (kept_start: usize)
    requires
        is_range(line@, chunk.start as int, chunk.end as int),
    ensures
        ({
            let text = text_between(line@, chunk.start as int, chunk.end as int);
            kept_start == chunk.start + dropped_len(
                text,
                grapheme_cuts(text),
                drop_cells as nat,
                tab_len,
            )
        }),
        is_blank(text_between(line@, chunk.start as int, kept_start as int)),
{
    let text = chunk_text(line, chunk);
    let graphemes = grapheme_chunks(text);
    let ghost cuts = chunk_cuts(graphemes@);
    let ghost dropped = dropped_len(text@, cuts, drop_cells as nat, tab_len);
    proof {
        lemma_encode_between(line@, chunk.start as int, chunk.end as int);
        lemma_dropped_len(text@, cuts, drop_cells as nat, tab_len);
        lemma_between_of_between(line@, chunk.start as int, chunk.end as int, 0, dropped);
    }
    chunk.start + leading_cells(text, &graphemes, drop_cells, tab_len)
}

/// The rows that show a piece which is wider than a row: broken between grapheme clusters where
/// `split` is set, left whole otherwise.
pub open spec fn over_wide_rows(
    line: Seq<char>,
    start: int,
    end: int,
    width: nat,
    tab_len: u8,
    split: bool,
) -> Seq<(int, int)> {
    if split {
        glyph_rows(line, start, end, width, tab_len)
    } else {
        seq![(start, end)]
    }
}

/// Where the next row starts when white space from `start` to `end` does not fit behind a row
/// that takes `used` of `width` columns: if the row is full, the first grapheme cluster of it is
/// dropped, however wide; otherwise as many columns are dropped as the row has left.
pub open spec fn kept_from(
    line: Seq<char>,
    start: int,
    end: int,
    used: nat,
    width: nat,
    tab_len: u8,
) -> int {
    let text = text_between(line, start, end);
    let cuts = grapheme_cuts(text);
    if used == width {
        start + cuts[1]
    } else {
        start + dropped_len(text, cuts, (width - used) as nat, tab_len)
    }
}

/// Whether white space, piece number `i`, would have a row to itself, but leaves nothing over
/// behind a row that starts at `from`: it fits in that row, or is dropped as a whole.
pub open spec fn space_vanishes(
    line: Seq<char>,
    cuts: Seq<int>,
    from: int,
    i: int,
    width: nat,
    tab_len: u8,
) -> bool {
    let used = row_width(line, from, cuts[i], tab_len);
    &&& fit_end(line, cuts, cuts[i], i, width, tab_len) <= i + 1
    &&& row_width(line, from, cuts[i + 1], tab_len) <= width || kept_from(
        line,
        cuts[i],
        cuts[i + 1],
        used,
        width,
        tab_len,
    ) >= cuts[i + 1]
}

/// Whether the row that would start at cut number `i` fits as a whole in one that starts at
/// `from` and ends there, and the two are not a part of longer runs of text: the piece before the
/// cut is the first of the line or has white space before it, and the row would end with white
/// space or with the line.
pub open spec fn next_row_joins(
    line: Seq<char>,
    cuts: Seq<int>,
    from: int,
    i: int,
    width: nat,
    tab_len: u8,
) -> bool {
    let stop = fit_end(line, cuts, cuts[i], i, width, tab_len);
    &&& i == 1 || is_blank(text_between(line, cuts[i - 2], cuts[i - 1]))
    &&& i < stop
    &&& row_width(line, from, cuts[stop], tab_len) <= width
    &&& stop + 1 == cuts.len() || is_blank(text_between(line, cuts[stop - 1], cuts[stop]))
}

/// Whether a word that is wider than a row, piece number `j`, shares its last row with what
/// follows it: it is broken, its last row fits in the width, white space follows, and either that
/// leaves nothing over behind the row, or the next row joins it.
pub open spec fn is_left_open(
    line: Seq<char>,
    cuts: Seq<int>,
    j: int,
    width: nat,
    tab_len: u8,
    split: bool,
) -> bool {
    let from = over_wide_rows(line, cuts[j], cuts[j + 1], width, tab_len, split).last().0;
    &&& split
    &&& row_width(line, from, cuts[j + 1], tab_len) <= width
    &&& j + 2 < cuts.len()
    &&& !is_blank(text_between(line, cuts[j], cuts[j + 1]))
    &&& is_blank(text_between(line, cuts[j + 1], cuts[j + 2]))
    &&& space_vanishes(line, cuts, from, j + 1, width, tab_len) || next_row_joins(
        line,
        cuts,
        from,
        j + 1,
        width,
        tab_len,
    )
}

/// The rows that show `line` from `start` on, broken at its cuts, where cut number `i` is the
/// first at or behind `start` and the row fits up to there.
///
/// The row runs to the farthest cut up to which it fits. White space that no longer fits behind
/// it is dropped in part, and what is kept leads the next row; any other piece starts the next
/// row. A piece that is wider than a row by itself is shown by rows of its own, the last of which
/// may be shared with what follows.
pub open spec fn word_rows(
    line: Seq<char>,
    cuts: Seq<int>,
    start: int,
    i: int,
    width: nat,
    tab_len: u8,
    split: bool,
) -> Seq<(int, int)>
    decreases cuts.len() - i, cuts[i] - start,
    when 0 <= i < cuts.len()
{
    let j = fit_end(line, cuts, start, i, width, tab_len);
    proof {
        lemma_fit_end(line, cuts, start, i, width, tab_len);
    }
    let here = cuts[j];
    if j + 1 == cuts.len() {
        if start < here {
            seq![(start, here)]
        } else {
            Seq::empty()
        }
    } else {
        let next = cuts[j + 1];
        if start < here {
            seq![(start, here)] + if is_blank(text_between(line, here, next)) {
                let used = row_width(line, start, here, tab_len);
                let kept = kept_from(line, here, next, used, width, tab_len);
                if kept >= next {
                    word_rows(line, cuts, next, j + 1, width, tab_len, split)
                } else if row_width(line, kept, next, tab_len) <= width {
                    word_rows(line, cuts, kept, j + 1, width, tab_len, split)
                } else {
                    over_wide_rows(line, kept, next, width, tab_len, split) + word_rows(
                        line,
                        cuts,
                        next,
                        j + 1,
                        width,
                        tab_len,
                        split,
                    )
                }
            } else {
                word_rows(line, cuts, here, j, width, tab_len, split)
            }
        } else {
            let own = over_wide_rows(line, here, next, width, tab_len, split);
            if is_left_open(line, cuts, j, width, tab_len, split) {
                own.drop_last() + word_rows(
                    line,
                    cuts,
                    own.last().0,
                    j + 1,
                    width,
                    tab_len,
                    split,
                )
            } else {
                own + word_rows(line, cuts, next, j + 1, width, tab_len, split)
            }
        }
    }
}

/// Every piece holds some text.
proof fn lemma_piece_has_text(text: Seq<char>, cuts: Seq<int>, k: int)
    requires
        well_cut(text, cuts),
        0 <= k,
        k + 1 < cuts.len(),
    ensures
        text_between(text, cuts[k], cuts[k + 1]).len() > 0,
{
    lemma_cut_range(text, cuts, k, k + 1);
    lemma_encode_between(text, cuts[k], cuts[k + 1]);
    lemma_chars_at_most_bytes(text_between(text, cuts[k], cuts[k + 1]));
}

/// White space that is kept in part still ends where it ended.
pub proof fn lemma_kept_from(
    line: Seq<char>,
    start: int,
    end: int,
    used: nat,
    width: nat,
    tab_len: u8,
)
    requires
        is_range(line, start, end),
        start < end,
    ensures
        is_range(line, start, kept_from(line, start, end, used, width, tab_len)),
        is_range(line, kept_from(line, start, end, used, width, tab_len), end),
        used == width ==> start < kept_from(line, start, end, used, width, tab_len),
{
    let text = text_between(line, start, end);
    let cuts = grapheme_cuts(text);
    let kept = kept_from(line, start, end, used, width, tab_len);
    lemma_encode_between(line, start, end);
    lemma_grapheme_cuts(text);
    lemma_cut_count(text, cuts);
    lemma_chars_at_most_bytes(text);
    if used == width {
        lemma_cut_range(text, cuts, 0, 1);
        lemma_cut_range(text, cuts, 1, cuts.len() - 1);
    } else {
        lemma_dropped_len(text, cuts, (width - used) as nat, tab_len);
    }
    lemma_between_of_between(line, start, end, 0, kept - start);
    lemma_between_of_between(line, start, end, kept - start, byte_len(text));
}

/// The rows of a piece that is wider than a row end with the piece, and the last of them lies
/// inside it.
pub proof fn lemma_last_own_row(
    line: Seq<char>,
    start: int,
    end: int,
    width: nat,
    tab_len: u8,
    split: bool,
)
    requires
        is_range(line, start, end),
        start < end,
    ensures
        ({
            let own = over_wide_rows(line, start, end, width, tab_len, split);
            &&& own.len() > 0
            &&& own.last().1 == end
            &&& own.last().0 < end
            &&& is_range(line, start, own.last().0)
            &&& is_range(line, own.last().0, end)
        }),
{
    let own = over_wide_rows(line, start, end, width, tab_len, split);
    lemma_over_wide_rows_lay_out(line, start, end, width, tab_len, split);
    assert(is_row(line, own.last()));
    if split {
        lemma_glyph_rows_lay_out(line, start, end, width, tab_len);
        assert(gap(own, start, end, own.len() as int) == (own.last().1, end));
        lemma_rows_follow_start(line, own, start, end, own.len() - 1);
    }
}

/// Where the next row starts when the white space in `chunk` does not fit behind a row that
/// takes `used` of `width` columns.
fn kept_start(line: &str, chunk: Chunk, used: usize, width: usize, tab_len: u8) -> (kept: usize)
    requires
        is_range(line@, chunk.start as int, chunk.end as int),
        chunk.start < chunk.end,
        used <= width,
    ensures
        kept == kept_from(
            line@,
            chunk.start as int,
            chunk.end as int,
            used as nat,
            width as nat,
            tab_len,
        ),
{
    if used < width {
        return drop_leading_whitespace(line, chunk, width - used, tab_len);
    }
    let text = chunk_text(line, chunk);
    let graphemes = grapheme_chunks(text);
    proof {
        let cuts = chunk_cuts(graphemes@);
        lemma_encode_between(line@, chunk.start as int, chunk.end as int);
        lemma_chars_at_most_bytes(text@);
        lemma_cut_count(text@, cuts);
        lemma_cut_range(text@, cuts, 1, cuts.len() - 1);
    }
    chunk.start + graphemes[0].end
}

/// The number of the last chunk boundary to which a row can be extended that starts at boundary
/// number `i`.
fn next_row_end(
    line: &str,
    chunks: &Vec<Chunk>,
    i: usize,
    width: usize,
    tab_len: u8,
) -> (stop: usize)
    requires
        chunks_tile(line@, chunks@),
        i <= chunks.len(),
    ensures
        stop == fit_end(
            line@,
            chunk_cuts(chunks@),
            chunk_cuts(chunks@)[i as int],
            i as int,
            width as nat,
            tab_len,
        ),
{
    let ghost cuts = chunk_cuts(chunks@);
    let mut stop: usize = i;
    let mut taken: usize = 0;
    proof {
        lemma_cut_range(line@, cuts, i as int, i as int);
        lemma_row_width_empty(line@, cuts[i as int], tab_len);
    }
    while stop < chunks.len()
        invariant
            chunks_tile(line@, chunks@),
            cuts == chunk_cuts(chunks@),
            i <= stop <= chunks.len(),
            taken == row_width(line@, cuts[i as int], cuts[stop as int], tab_len),
            fit_end(line@, cuts, cuts[i as int], i as int, width as nat, tab_len) == fit_end(
                line@,
                cuts,
                cuts[i as int],
                stop as int,
                width as nat,
                tab_len,
            ),
        decreases chunks.len() - stop,
    {
        proof {
            lemma_cut_range(line@, cuts, i as int, stop as int);
            lemma_cut_range(line@, cuts, stop as int, stop + 1);
            lemma_row_width_extend(
                line@,
                cuts[i as int],
                cuts[stop as int],
                cuts[stop + 1],
                tab_len,
            );
        }
        match checked_display_width_to(chunk_text(line, chunks[stop]), taken, tab_len) {
            Some(end) => {
                if end > width {
                    return stop;
                }
                taken = end;
            },
            None => {
                return stop;
            },
        }
        stop += 1;
    }
    stop
}

/// Whether a row from `start` to `end` takes no more than `width` columns.
fn row_fits(line: &str, start: usize, end: usize, width: usize, tab_len: u8) -> (fits: bool)
    requires
        is_range(line@, start as int, end as int),
    ensures
        fits <==> row_width(line@, start as int, end as int, tab_len) <= width,
{
    match checked_display_width_to(slice(line, start, end), 0, tab_len) {
        Some(taken) => taken <= width,
        None => false,
    }
}

/// Whether the white space in chunk number `i` would have a row to itself, but leaves nothing
/// over behind a row that starts at `from` and takes `used` columns.
fn is_absorbed(
    line: &str,
    chunks: &Vec<Chunk>,
    from: usize,
    i: usize,
    used: usize,
    width: usize,
    tab_len: u8,
) -> (absorbed: bool)
    requires
        chunks_tile(line@, chunks@),
        i < chunks.len(),
        is_range(line@, from as int, chunk_cuts(chunks@)[i as int]),
        used == row_width(line@, from as int, chunk_cuts(chunks@)[i as int], tab_len),
        used <= width,
    ensures
        absorbed == space_vanishes(
            line@,
            chunk_cuts(chunks@),
            from as int,
            i as int,
            width as nat,
            tab_len,
        ),
{
    let ghost cuts = chunk_cuts(chunks@);
    let space = chunks[i];
    proof {
        lemma_cut_range(line@, cuts, i as int, i + 1);
        lemma_between_concat(line@, from as int, cuts[i as int], cuts[i + 1]);
    }
    next_row_end(line, chunks, i, width, tab_len) <= i + 1 && (row_fits(
        line,
        from,
        space.end,
        width,
        tab_len,
    ) || kept_start(line, space, used, width, tab_len) >= space.end)
}

/// Whether chunk number `k` holds nothing but white space.
fn is_blank_chunk(line: &str, chunks: &Vec<Chunk>, k: usize) -> (blank: bool)
    requires
        chunks_tile(line@, chunks@),
        k < chunks.len(),
    ensures
        blank == is_blank(
            text_between(line@, chunk_cuts(chunks@)[k as int], chunk_cuts(chunks@)[k + 1]),
        ),
{
    proof {
        lemma_cut_range(line@, chunk_cuts(chunks@), k as int, k + 1);
        lemma_piece_has_text(line@, chunk_cuts(chunks@), k as int);
    }
    is_separator(chunk_text(line, chunks[k]))
}

/// Whether the row that would start with chunk number `i` joins a row that starts at `from`.
#[verifier::rlimit(40)]
fn joins_row(
    line: &str,
    chunks: &Vec<Chunk>,
    from: usize,
    i: usize,
    width: usize,
    tab_len: u8,
) -> (joins: bool)
    requires
        chunks_tile(line@, chunks@),
        0 < i < chunks.len(),
        is_range(line@, from as int, chunk_cuts(chunks@)[i as int]),
    ensures
        joins == next_row_joins(
            line@,
            chunk_cuts(chunks@),
            from as int,
            i as int,
            width as nat,
            tab_len,
        ),
{
    let ghost cuts = chunk_cuts(chunks@);
    if i > 1 && !is_blank_chunk(line, chunks, i - 2) {
        return false;
    }
    let stop = next_row_end(line, chunks, i, width, tab_len);
    proof {
        lemma_fit_end(line@, cuts, cuts[i as int], i as int, width as nat, tab_len);
        lemma_cut_range(line@, cuts, i as int, stop as int);
        lemma_between_concat(line@, from as int, cuts[i as int], cuts[stop as int]);
    }
    if stop == i || !row_fits(line, from, chunks[stop - 1].end, width, tab_len) {
        return false;
    }
    stop == chunks.len() || is_blank_chunk(line, chunks, stop - 1)
}

/// Whether chunk number `j`, which is wider than a row and is broken between grapheme clusters,
/// shares its last row, which starts at `from` and takes `used` columns, with what follows it.
fn leaves_row_open(
    line: &str,
    chunks: &Vec<Chunk>,
    j: usize,
    from: usize,
    used: usize,
    width: usize,
    tab_len: u8,
) -> (open: bool)
    requires
        chunks_tile(line@, chunks@),
        j < chunks.len(),
        is_range(line@, from as int, chunk_cuts(chunks@)[j + 1]),
        used == row_width(line@, from as int, chunk_cuts(chunks@)[j + 1], tab_len),
        used <= width,
        from == over_wide_rows(
            line@,
            chunk_cuts(chunks@)[j as int],
            chunk_cuts(chunks@)[j + 1],
            width as nat,
            tab_len,
            true,
        ).last().0,
    ensures
        open == is_left_open(line@, chunk_cuts(chunks@), j as int, width as nat, tab_len, true),
{
    j + 1 < chunks.len() && !is_blank_chunk(line, chunks, j) && is_blank_chunk(
        line,
        chunks,
        j + 1,
    ) && (is_absorbed(line, chunks, from, j + 1, used, width, tab_len) || joins_row(
        line,
        chunks,
        from,
        j + 1,
        width,
        tab_len,
    ))
}

/// Appends to `out` the rows of a piece that is wider than a row.
fn push_over_wide(
    line: &str,
    start: usize,
    end: usize,
    width: usize,
    tab_len: u8,
    fallback_to_glyph: bool,
    out: &mut Vec<(usize, usize)>,
)
    requires
        is_range(line@, start as int, end as int),
        start < end,
    ensures
        as_rows(final(out)@) == as_rows(old(out)@) + over_wide_rows(
            line@,
            start as int,
            end as int,
            width as nat,
            tab_len,
            fallback_to_glyph,
        ),
{
    if fallback_to_glyph {
        split_range_by_grapheme_width(line, start, end, width, tab_len, out);
    } else {
        proof {
            lemma_as_rows_push(out@, (start, end));
            assert(as_rows(out@) + seq![(start as int, end as int)] =~= as_rows(out@).push(
                (start as int, end as int),
            ));
        }
        out.push((start, end));
    }
}

/// Appends to `out` the rows of chunk number `j`, which is wider than a row, without the one that
/// is shared with what follows. Returns where the row starts that goes on behind the chunk, and
/// the columns that it takes so far.
#[verifier::rlimit(40)]
fn push_wide_chunk(
    line: &str,
    chunks: &Vec<Chunk>,
    j: usize,
    width: usize,
    tab_len: u8,
    fallback_to_glyph: bool,
    out: &mut Vec<(usize, usize)>,
) -> (open: (usize, usize))
    requires
        chunks_tile(line@, chunks@),
        j < chunks.len(),
    ensures
        ({
            let cuts = chunk_cuts(chunks@);
            let own = over_wide_rows(
                line@,
                cuts[j as int],
                cuts[j + 1],
                width as nat,
                tab_len,
                fallback_to_glyph,
            );
            &&& if is_left_open(
                line@,
                cuts,
                j as int,
                width as nat,
                tab_len,
                fallback_to_glyph,
            ) {
                &&& as_rows(final(out)@) == as_rows(old(out)@) + own.drop_last()
                &&& open.0 == own.last().0
            } else {
                &&& as_rows(final(out)@) == as_rows(old(out)@) + own
                &&& open.0 == cuts[j + 1]
            }
            &&& open.1 == row_width(line@, open.0 as int, cuts[j + 1], tab_len)
            &&& open.1 <= width
            &&& is_range(line@, open.0 as int, cuts[j + 1])
        }),
{
    let ghost cuts = chunk_cuts(chunks@);
    let ghost done = as_rows(out@);
    let ghost own = over_wide_rows(
        line@,
        cuts[j as int],
        cuts[j + 1],
        width as nat,
        tab_len,
        fallback_to_glyph,
    );
    let chunk = chunks[j];
    proof {
        lemma_cut_range(line@, cuts, j as int, j + 1);
        lemma_cut_range(line@, cuts, j + 1, j + 1);
        lemma_row_width_empty(line@, cuts[j + 1], tab_len);
        lemma_last_own_row(
            line@,
            cuts[j as int],
            cuts[j + 1],
            width as nat,
            tab_len,
            fallback_to_glyph,
        );
    }
    push_over_wide(line, chunk.start, chunk.end, width, tab_len, fallback_to_glyph, out);
    if !fallback_to_glyph {
        return (chunk.end, 0);
    }
    assert(as_rows(out@).len() > 0);
    let (last, _) = out[out.len() - 1];
    assert(as_rows(out@).last() == own.last());
    if let Some(used) = checked_display_width_to(slice(line, last, chunk.end), 0, tab_len) {
        if used <= width && leaves_row_open(line, chunks, j, last, used, width, tab_len) {
            proof {
                assert(as_rows(out@.drop_last()) =~= as_rows(out@).drop_last());
                assert((done + own).drop_last() =~= done + own.drop_last());
            }
            out.pop();
            return (last, used);
        }
    }
    (chunk.end, 0)
}

/// Breaks `line` into rows at the boundaries of `chunks`, which make it up.
#[verifier::rlimit(40)]
pub fn wrap_chunks(
    line: &str,
    chunks: &Vec<Chunk>,
    width: usize,
    tab_len: u8,
    fallback_to_glyph: bool,
) -> (out: Vec<(usize, usize)>)
    requires
        chunks_tile(line@, chunks@),
    ensures
        as_rows(out@) == word_rows(
            line@,
            chunk_cuts(chunks@),
            0,
            0,
            width as nat,
            tab_len,
            fallback_to_glyph,
        ),
{
    let ghost cuts = chunk_cuts(chunks@);
    let ghost w = width as nat;
    let ghost all = word_rows(line@, cuts, 0, 0, w, tab_len, fallback_to_glyph);
    let mut out: Vec<(usize, usize)> = Vec::new();
    let mut i: usize = 0;
    let mut seg_start: usize = 0;
    let mut seg_end: usize = 0;
    let mut seg_width: usize = 0;
    proof {
        lemma_cut_range(line@, cuts, 0, 0);
        lemma_row_width_empty(line@, 0, tab_len);
        assert(as_rows(out@) + all =~= all);
    }
    while i < chunks.len()
        invariant
            chunks_tile(line@, chunks@),
            cuts == chunk_cuts(chunks@),
            w == width,
            i <= chunks.len(),
            seg_end == cuts[i as int],
            is_range(line@, seg_start as int, seg_end as int),
            seg_width == row_width(line@, seg_start as int, seg_end as int, tab_len),
            seg_width <= width,
            as_rows(out@) + word_rows(
                line@,
                cuts,
                seg_start as int,
                i as int,
                w,
                tab_len,
                fallback_to_glyph,
            ) == all,
        decreases chunks.len() - i, seg_end - seg_start,
    {
        let chunk = chunks[i];
        let ghost here = cuts[i as int];
        let ghost next = cuts[i + 1];
        let ghost done = as_rows(out@);
        proof {
            lemma_cut_range(line@, cuts, i as int, i + 1);
            lemma_row_width_extend(line@, seg_start as int, here, next, tab_len);
            lemma_row_width_empty(line@, here, tab_len);
            lemma_row_width_empty(line@, next, tab_len);
        }
        let text = chunk_text(line, chunk);
        if let Some(end) = checked_display_width_to(text, seg_width, tab_len) {
            if end <= width {
                seg_end = chunk.end;
                seg_width = end;
                i += 1;
                continue;
            }
        }
        if seg_end > seg_start {
            proof {
                lemma_as_rows_push(out@, (seg_start, seg_end));
            }
            out.push((seg_start, seg_end));
            let ghost row = (seg_start as int, here);
            if !is_separator(text) {
                proof {
                    let rest = word_rows(
                        line@,
                        cuts,
                        here,
                        i as int,
                        w,
                        tab_len,
                        fallback_to_glyph,
                    );
                    assert(done + (seq![row] + rest) =~= done.push(row) + rest);
                }
                seg_start = seg_end;
                seg_width = 0;
                continue;
            }
            proof {
                lemma_kept_from(line@, here, next, seg_width as nat, w, tab_len);
            }
            let kept = kept_start(line, chunk, seg_width, width, tab_len);
            proof {
                let rest = word_rows(
                    line@,
                    cuts,
                    kept as int,
                    i + 1,
                    w,
                    tab_len,
                    fallback_to_glyph,
                );
                assert(done + (seq![row] + rest) =~= done.push(row) + rest);
            }
            i += 1;
            seg_end = chunk.end;
            if let Some(kept_width) = checked_display_width_from(
                slice(line, kept, chunk.end),
                0,
                tab_len,
            ) {
                if kept_width <= width {
                    // What is left of the separator, if anything, leads the next row.
                    seg_start = kept;
                    seg_width = kept_width;
                    continue;
                }
            }
            // What is left of the separator is wider than a row.
            proof {
                let own = over_wide_rows(line@, kept as int, next, w, tab_len, fallback_to_glyph);
                let rest = word_rows(line@, cuts, next, i as int, w, tab_len, fallback_to_glyph);
                assert(done + (seq![row] + (own + rest)) =~= done.push(row) + own + rest);
            }
            push_over_wide(
                line,
                kept,
                chunk.end,
                width,
                tab_len,
                fallback_to_glyph,
                &mut out,
            );
            seg_start = chunk.end;
            seg_width = 0;
            continue;
        }
        proof {
            let own = over_wide_rows(line@, here, next, w, tab_len, fallback_to_glyph);
            let later = word_rows(line@, cuts, next, i + 1, w, tab_len, fallback_to_glyph);
            let shared = word_rows(
                line@,
                cuts,
                own.last().0,
                i + 1,
                w,
                tab_len,
                fallback_to_glyph,
            );
            assert(done + (own + later) =~= done + own + later);
            assert(done + (own.drop_last() + shared) =~= done + own.drop_last() + shared);
        }
        let (open, taken) = push_wide_chunk(
            line,
            chunks,
            i,
            width,
            tab_len,
            fallback_to_glyph,
            &mut out,
        );
        i += 1;
        seg_start = open;
        seg_end = chunk.end;
        seg_width = taken;
    }
    if seg_end > seg_start {
        proof {
            lemma_as_rows_push(out@, (seg_start, seg_end));
            assert(as_rows(out@) + seq![(seg_start as int, seg_end as int)] =~= as_rows(out@).push(
                (seg_start as int, seg_end as int),
            ));
        }
        out.push((seg_start, seg_end));
    } else {
        assert(as_rows(out@) + Seq::<(int, int)>::empty() =~= as_rows(out@));
    }
    out
}

/// Breaks `line` into rows at its word boundaries. A piece that is wider than a row is broken
/// between grapheme clusters where `fallback_to_glyph` is set, and left whole otherwise.
pub fn wrap_word_chunks(
    line: &str,
    width: usize,
    tab_len: u8,
    fallback_to_glyph: bool,
) -> (out: Vec<(usize, usize)>)
    ensures
        as_rows(out@) == if line@.len() == 0 {
            seq![(0int, 0int)]
        } else {
            word_rows(line@, word_cuts(line@), 0, 0, width as nat, tab_len, fallback_to_glyph)
        },
{
    let chunks = word_chunks(line);
    proof {
        lemma_cut_count(line@, chunk_cuts(chunks@));
    }
    if chunks.is_empty() {
        let out: Vec<(usize, usize)> = vec![(0, 0)];
        assert(as_rows(out@) =~= seq![(0int, 0int)]);
        return out;
    }
    wrap_chunks(line, &chunks, width, tab_len, fallback_to_glyph)
}

} // verus!
