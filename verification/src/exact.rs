//! What fixes columns, pieces, rows and fragments, each by what it must satisfy.

use crate::laws::{law_every_line_is_shown, law_rows_in_order};
use crate::rows::{as_rows, row_width};
use crate::segment::{
    grapheme_cuts, grapheme_pieces, lemma_tiles_part, tiles, word_bound_pieces, word_cuts,
};
use crate::text::{
    byte_len, is_range, lemma_chars_at_most_bytes, lemma_encode_between, lemma_whole_text,
    text_between,
};
use crate::width::{display_end, lemma_display_end_concat, unicode_char_width};
use crate::word::{is_blank, is_white_space};
use crate::wrap::{
    all_fragments, fragments_view, line_fragments, line_rows, lines_view, text_columns,
    usable_width, WrapMode, WrappedLine,
};
use vstd::prelude::*;
use vstd::utf8::*;

verus! {

/// A character other than a tab takes the columns that `unicode-width` gives it, wherever it
/// stands: the printable ASCII characters one, and control characters none.
pub proof fn law_character_takes_its_width(c: char, col: nat, tab_len: u8)
    requires
        c != '\t',
    ensures
        display_end(seq![c], col, tab_len) - col == if c >= '\u{a0}' {
            match unicode_char_width(c) {
                Some(width) => width as int,
                None => 0,
            }
        } else if ' ' <= c <= '~' {
            1int
        } else {
            0
        },
{
    reveal_with_fuel(display_end, 2);
    assert(seq![c].drop_last() =~= Seq::empty());
}

/// A tab leads to the first column behind it that is a multiple of the tab length; with a tab
/// length of zero it takes no column.
pub proof fn law_tab_takes_columns_up_to_stop(col: nat, tab_len: u8, stop: nat)
    requires
        tab_len > 0 ==> col < stop && stop % (tab_len as nat) == 0,
    ensures
        tab_len == 0 ==> display_end(seq!['\t'], col, tab_len) == col,
        tab_len > 0 ==> {
            let end = display_end(seq!['\t'], col, tab_len);
            &&& col < end <= stop
            &&& end % (tab_len as nat) == 0
        },
{
    reveal_with_fuel(display_end, 2);
    assert(seq!['\t'].drop_last() =~= Seq::empty());
    if tab_len > 0 {
        let tab = tab_len as int;
        let end = col - col % (tab_len as nat) + tab_len;
        vstd::arithmetic::div_mod::lemma_fundamental_div_mod(col as int, tab);
        vstd::arithmetic::div_mod::lemma_fundamental_div_mod(stop as int, tab);
        vstd::arithmetic::div_mod::lemma_mod_bound(col as int, tab);
        assert(end == tab * (col as int / tab) + tab);
        assert(end == tab * (col as int / tab + 1)) by (nonlinear_arith)
            requires
                end == tab * (col as int / tab) + tab,
        ;
        vstd::arithmetic::div_mod::lemma_mod_multiples_basic(col as int / tab + 1, tab);
        assert((col as int / tab + 1) * tab == tab * (col as int / tab + 1)) by (nonlinear_arith);
        assert(col as int / tab < stop as int / tab) by (nonlinear_arith)
            requires
                tab > 0,
                col < stop,
                stop as int == tab * (stop as int / tab),
                col as int == tab * (col as int / tab) + col as int % tab,
                0 <= col as int % tab < tab,
        ;
        assert(tab * (col as int / tab + 1) <= tab * (stop as int / tab)) by (nonlinear_arith)
            requires
                tab > 0,
                col as int / tab + 1 <= stop as int / tab,
        ;
    }
}

/// Without text no column is taken, and each character goes on where the text before it ends.
pub proof fn law_columns_are_taken_one_by_one(text: Seq<char>, c: char, col: nat, tab_len: u8)
    ensures
        display_end(Seq::empty(), col, tab_len) == col,
        display_end(text.push(c), col, tab_len) == display_end(
            seq![c],
            display_end(text, col, tab_len),
            tab_len,
        ),
{
    assert(text.push(c) =~= text + seq![c]);
    lemma_display_end_concat(text, seq![c], col, tab_len);
}

/// A row takes the columns of the text that it shows, from the first column on, and that text is
/// what lies between its two ends.
pub proof fn law_row_shows_its_text(line: Seq<char>, start: int, end: int, tab_len: u8)
    requires
        is_range(line, start, end),
    ensures
        row_width(line, start, end, tab_len) == display_end(
            text_between(line, start, end),
            0,
            tab_len,
        ),
        encode_utf8(text_between(line, start, end)) == encode_utf8(line).subrange(start, end),
        byte_len(line) == encode_utf8(line).len(),
{
    lemma_encode_between(line, start, end);
}

/// The clusters of a text are cut where `unicode-segmentation` starts its extended grapheme
/// clusters, and its words where that starts the pieces between word boundaries; the last piece
/// reaches to the end.
pub proof fn law_cuts_are_where_pieces_start(text: Seq<char>, k: int)
    ensures
        tiles(text, grapheme_pieces(text, true)) ==> {
            let pieces = grapheme_pieces(text, true);
            &&& grapheme_cuts(text).len() == pieces.len() + 1
            &&& grapheme_cuts(text).last() == encode_utf8(text).len()
            &&& 0 <= k < pieces.len() ==> grapheme_cuts(text)[k] == pieces[k].0
        },
        tiles(text, word_bound_pieces(text)) ==> {
            let pieces = word_bound_pieces(text);
            &&& word_cuts(text).len() == pieces.len() + 1
            &&& word_cuts(text).last() == encode_utf8(text).len()
            &&& 0 <= k < pieces.len() ==> word_cuts(text)[k] == pieces[k].0
        },
{
    if tiles(text, grapheme_pieces(text, true)) {
        lemma_tiles_part(text, grapheme_pieces(text, true));
    }
    if tiles(text, word_bound_pieces(text)) {
        lemma_tiles_part(text, word_bound_pieces(text));
    }
}

/// Text is white space if every character of it is.
pub proof fn law_blank_text_is_white_space(a: Seq<char>, b: Seq<char>, c: char)
    ensures
        is_blank(Seq::empty()),
        is_blank(seq![c]) <==> is_white_space(c),
        is_blank(a + b) <==> is_blank(a) && is_blank(b),
{
    assert(seq![c][0] == c);
    if is_blank(a + b) {
        assert forall|i: int| 0 <= i < a.len() implies is_white_space(#[trigger] a[i]) by {
            assert(a[i] == (a + b)[i]);
        }
        assert forall|i: int| 0 <= i < b.len() implies is_white_space(#[trigger] b[i]) by {
            assert(b[i] == (a + b)[a.len() + i]);
        }
    }
}

/// The width is used as it is given, but for a width of zero.
pub proof fn law_width_is_used_as_given(width: nat)
    ensures
        width > 0 ==> usable_width(width) == width,
        usable_width(0) == 1,
{
}

/// Without wrapping there is one row, and it is the whole line, however long that is.
pub proof fn law_without_wrapping_one_row(line: Seq<char>, width: nat, tab_len: u8)
    ensures
        line_rows(line, WrapMode::NoWrap, width, tab_len) == seq![
            (0int, encode_utf8(line).len() as int),
        ],
{
    lemma_chars_at_most_bytes(line);
}

/// An empty line has one row, which is empty.
pub proof fn law_empty_line_has_one_row(mode: WrapMode, width: nat, tab_len: u8)
    ensures
        line_rows(Seq::empty(), mode, width, tab_len) == seq![(0int, 0int)],
{
}

/// What vectors hold is taken as it is, item by item.
pub proof fn law_items_are_taken_as_they_are(
    ranges: Seq<(usize, usize)>,
    lines: Seq<String>,
    fragments: Seq<WrappedLine>,
    k: int,
)
    ensures
        as_rows(ranges).len() == ranges.len(),
        0 <= k < ranges.len() ==> as_rows(ranges)[k] == (ranges[k].0 as int, ranges[k].1 as int),
        lines_view(lines).len() == lines.len(),
        0 <= k < lines.len() ==> lines_view(lines)[k] == lines[k]@,
        fragments_view(fragments).len() == fragments.len(),
        0 <= k < fragments.len() ==> {
            let view = fragments_view(fragments)[k];
            &&& view.row == fragments[k].row
            &&& view.start_byte == fragments[k].start_byte
            &&& view.end_byte == fragments[k].end_byte
            &&& view.start_col == fragments[k].start_col
            &&& view.end_col == fragments[k].end_col
            &&& view.first_in_row == fragments[k].first_in_row
            &&& view.last_in_row == fragments[k].last_in_row
        },
{
}

/// Every row of every line has its fragment: with the number of the line, the bytes of the row,
/// and as columns the numbers of characters before these in the line.
pub proof fn law_every_row_has_its_fragment(
    lines: Seq<Seq<char>>,
    mode: WrapMode,
    width: nat,
    tab_len: u8,
    row: int,
    k: int,
)
    requires
        0 <= row < lines.len(),
        0 <= k < line_rows(lines[row], mode, width, tab_len).len(),
    ensures
        ({
            let line = lines[row];
            let rows = line_rows(line, mode, width, tab_len);
            let fragments = all_fragments(lines, mode, width, tab_len);
            exists|a: int|
                {
                    &&& 0 <= a < fragments.len()
                    &&& (#[trigger] fragments[a]).row == row
                    &&& fragments[a].start_byte == rows[k].0
                    &&& fragments[a].end_byte == rows[k].1
                    &&& fragments[a].start_col == text_between(line, 0, rows[k].0).len()
                    &&& fragments[a].end_col == text_between(line, 0, rows[k].1).len()
                    &&& fragments[a].first_in_row == (k == 0)
                    &&& fragments[a].last_in_row == (k == rows.len() - 1)
                }
        }),
{
    let line = lines[row];
    let rows = line_rows(line, mode, width, tab_len);
    let fragments = all_fragments(lines, mode, width, tab_len);
    let own = line_fragments(row, line, rows);
    law_every_line_is_shown(lines, mode, width, tab_len, row);
    let from = choose|from: int|
        0 <= from <= fragments.len() - own.len() && #[trigger] fragments.subrange(
            from,
            from + own.len(),
        ) == own;
    assert(fragments.subrange(from, from + own.len())[k] == own[k]);
    assert(fragments[from + k] == own[k]);
}

/// Every fragment belongs to a row of its line: it has the bytes of that row, and as columns the
/// numbers of characters before these.
pub proof fn law_every_fragment_shows_a_row(
    lines: Seq<Seq<char>>,
    mode: WrapMode,
    width: nat,
    tab_len: u8,
    a: int,
)
    requires
        0 <= a < all_fragments(lines, mode, width, tab_len).len(),
    ensures
        ({
            let fragment = all_fragments(lines, mode, width, tab_len)[a];
            let line = lines[fragment.row];
            let rows = line_rows(line, mode, width, tab_len);
            &&& 0 <= fragment.row < lines.len()
            &&& rows.contains((fragment.start_byte, fragment.end_byte))
            &&& fragment.start_col == text_between(line, 0, fragment.start_byte).len()
            &&& fragment.end_col == text_between(line, 0, fragment.end_byte).len()
            &&& fragment.first_in_row == (fragment.start_byte == rows[0].0)
            &&& fragment.last_in_row == (fragment.end_byte == rows.last().1)
        }),
    decreases lines.len(),
{
    if lines.len() > 0 {
        let before = all_fragments(lines.drop_last(), mode, width, tab_len);
        let line = lines.last();
        let rows = line_rows(line, mode, width, tab_len);
        let own = line_fragments(lines.len() - 1, line, rows);
        assert(all_fragments(lines, mode, width, tab_len) == before + own);
        if a < before.len() {
            law_every_fragment_shows_a_row(lines.drop_last(), mode, width, tab_len, a);
        } else {
            let k = a - before.len();
            assert(own[k].start_byte == rows[k].0);
            assert(rows[k] == (own[k].start_byte, own[k].end_byte));
            law_rows_in_order(line, mode, width, tab_len);
            lemma_whole_text(line);
            assert(is_range(line, rows[k].0, rows[k].1));
            assert(is_range(line, rows[rows.len() - 1].0, rows[rows.len() - 1].1));
        }
    }
}

/// Beside line numbers the text loses their digits and two columns more, and without them none;
/// where nothing would be left, one column is.
pub proof fn law_line_numbers_take_their_columns(total_width: int, len: u8)
    ensures
        total_width > 0 ==> text_columns(total_width, None) == total_width,
        total_width <= 0 ==> text_columns(total_width, None) == 1,
        total_width > len + 2 ==> text_columns(total_width, Some(len)) + len + 2 == total_width,
        total_width <= len + 2 ==> text_columns(total_width, Some(len)) == 1,
{
}

} // verus!
