//! Wrapping at grapheme boundaries.

use crate::rows::{as_rows, fit_end, lemma_fit_end, lemma_row_width_extend, row_width};
use crate::segment::{
    chunk_cuts, chunk_text, chunks_tile, grapheme_chunks, grapheme_cuts, lemma_grapheme_cuts, Chunk,
};
use crate::text::{is_range, lemma_between_of_between, lemma_encode_between, slice, text_between};
use crate::width::checked_display_width_to;
use vstd::prelude::*;

verus! {

/// Where the first row of `text` ends, as a byte offset: at the farthest cut up to which it fits
/// in `width` columns. The first piece always stays, however wide it is.
pub open spec fn first_row_end(
    text: Seq<char>,
    cuts: Seq<int>,
    width: nat,
    tab_len: u8,
) -> int {
    cuts[fit_end(text, cuts, 0, 1, width, tab_len)]
}

/// The rows that show `line` from `start` to `end`: each holds as many grapheme clusters as fit
/// in `width` columns, and one at least.
pub open spec fn glyph_rows(
    line: Seq<char>,
    start: int,
    end: int,
    width: nat,
    tab_len: u8,
) -> Seq<(int, int)>
    decreases end - start,
    when start >= end || is_range(line, start, end)
{
    if start >= end {
        Seq::empty()
    } else {
        let rest = text_between(line, start, end);
        let stop = start + first_row_end(rest, grapheme_cuts(rest), width, tab_len);
        proof {
            lemma_first_row(line, start, end, width, tab_len);
        }
        seq![(start, stop)] + glyph_rows(line, stop, end, width, tab_len)
    }
}

/// The first row holds something, and ends inside the range that is shown.
pub proof fn lemma_first_row(line: Seq<char>, start: int, end: int, width: nat, tab_len: u8)
    requires
        is_range(line, start, end),
        start < end,
    ensures
        ({
            let rest = text_between(line, start, end);
            let stop = start + first_row_end(rest, grapheme_cuts(rest), width, tab_len);
            &&& start < stop <= end
            &&& is_range(line, start, stop)
            &&& is_range(line, stop, end)
        }),
{
    let rest = text_between(line, start, end);
    let cuts = grapheme_cuts(rest);
    lemma_encode_between(line, start, end);
    lemma_grapheme_cuts(rest);
    lemma_fit_end(rest, cuts, 0, 1, width, tab_len);
    let k = fit_end(rest, cuts, 0, 1, width, tab_len);
    lemma_between_of_between(line, start, end, 0, cuts[k]);
}

/// The number of bytes of `text` that its first row holds, where `graphemes` are its pieces.
pub fn glyph_row_end(text: &str, graphemes: &Vec<Chunk>, width: usize, tab_len: u8) -> (end: usize)
    requires
        chunks_tile(text@, graphemes@),
        text@.len() > 0,
    ensures
        end == first_row_end(text@, chunk_cuts(graphemes@), width as nat, tab_len),
{
    let ghost cuts = chunk_cuts(graphemes@);
    let mut segment_end: usize = 0;
    let mut segment_width: usize = 0;
    let mut k: usize = 0;
    while k < graphemes.len()
        invariant
            chunks_tile(text@, graphemes@),
            cuts == chunk_cuts(graphemes@),
            cuts.len() > 1,
            k <= graphemes.len(),
            segment_end == cuts[k as int],
            segment_end == 0 <==> k == 0,
            segment_width == row_width(text@, 0, cuts[k as int], tab_len),
            k > 0 ==> fit_end(text@, cuts, 0, 1, width as nat, tab_len) == fit_end(
                text@,
                cuts,
                0,
                k as int,
                width as nat,
                tab_len,
            ),
        decreases graphemes.len() - k,
    {
        proof {
            lemma_row_width_extend(text@, 0, cuts[k as int], cuts[k + 1], tab_len);
            if k + 2 < cuts.len() {
                lemma_row_width_extend(text@, 0, cuts[k + 1], cuts[k + 2], tab_len);
            }
        }
        let grapheme = chunk_text(text, graphemes[k]);
        let next_width: usize = match checked_display_width_to(grapheme, segment_width, tab_len) {
            Some(next_width) => next_width,
            None => {
                return if segment_end == 0 { graphemes[k].end } else { segment_end };
            },
        };
        if segment_end != 0 && next_width > width {
            return segment_end;
        }
        segment_end = graphemes[k].end;
        segment_width = next_width;
        k += 1;
        if segment_width > width {
            return segment_end;
        }
    }
    segment_end
}

/// Appends to `out` the rows that show `line` from `start` to `end`, broken between grapheme
/// clusters. A cluster that is wider than a row gets a row of its own.
pub fn split_range_by_grapheme_width(
    line: &str,
    start: usize,
    end: usize,
    width: usize,
    tab_len: u8,
    out: &mut Vec<(usize, usize)>,
)
    requires
        start < end ==> is_range(line@, start as int, end as int),
    ensures
        as_rows(final(out)@) == as_rows(old(out)@) + glyph_rows(
            line@,
            start as int,
            end as int,
            width as nat,
            tab_len,
        ),
{
    let mut segment_start: usize = start;
    while segment_start < end
        invariant
            segment_start < end ==> is_range(line@, segment_start as int, end as int),
            as_rows(out@) + glyph_rows(
                line@,
                segment_start as int,
                end as int,
                width as nat,
                tab_len,
            ) == as_rows(old(out)@) + glyph_rows(
                line@,
                start as int,
                end as int,
                width as nat,
                tab_len,
            ),
        decreases end - segment_start,
    {
        let rest = slice(line, segment_start, end);
        let graphemes = grapheme_chunks(rest);
        proof {
            lemma_encode_between(line@, segment_start as int, end as int);
            lemma_first_row(line@, segment_start as int, end as int, width as nat, tab_len);
        }
        let segment_end = segment_start + glyph_row_end(rest, &graphemes, width, tab_len);
        proof {
            assert(as_rows(out@) + (seq![(segment_start as int, segment_end as int)] + glyph_rows(
                line@,
                segment_end as int,
                end as int,
                width as nat,
                tab_len,
            )) =~= as_rows(out@).push((segment_start as int, segment_end as int)) + glyph_rows(
                line@,
                segment_end as int,
                end as int,
                width as nat,
                tab_len,
            ));
        }
        out.push((segment_start, segment_end));
        segment_start = segment_end;
    }
}

} // verus!
