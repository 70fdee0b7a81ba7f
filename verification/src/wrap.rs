//! Soft wrapping of lines at render time.

use crate::glyph::{glyph_rows, split_range_by_grapheme_width};
use crate::layout::{is_row, lays_out, lemma_glyph_rows_lay_out, lemma_word_rows_lay_out};
use crate::rows::as_rows;
use crate::segment::word_cuts;
use crate::text::{
    byte_len, is_range, lemma_between_concat, lemma_chars_at_most_bytes, lemma_encode_between,
    lemma_whole_text, line_len, slice, text_between,
};
use crate::word::{word_rows, wrap_word_chunks};
use vstd::prelude::*;
use vstd::string::*;

verus! {

/// How logical lines are soft-wrapped at render time.
#[derive(Clone, Copy, Debug, PartialEq, Eq, Structural)]
pub enum WrapMode {
    /// No soft wrapping: a line keeps a single row, which is scrolled horizontally.
    NoWrap,
    /// Wrapping at word boundaries only. Words wider than the viewport are not split.
    Word,
    /// Wrapping at grapheme boundaries.
    Glyph,
    /// Wrapping at word boundaries, and at grapheme boundaries inside words that are too long.
    WordOrGlyph,
}

/// One row of a wrapped line.
#[derive(Clone, Copy, Debug)]
pub struct WrappedLine {
    /// The number of the line that the row shows a part of.
    pub row: usize,
    /// The byte offset of the part in its line.
    pub start_byte: usize,
    /// The byte offset behind the part.
    pub end_byte: usize,
    /// The number of the part's first character in its line.
    pub start_col: usize,
    /// The number behind that of the part's last character.
    pub end_col: usize,
    /// Whether the row is the first of its line.
    pub first_in_row: bool,
    /// Whether the row is the last of its line.
    pub last_in_row: bool,
}

/// What a `WrappedLine` holds, as mathematical integers.
pub struct WrappedLineView {
    pub row: int,
    pub start_byte: int,
    pub end_byte: int,
    pub start_col: int,
    pub end_col: int,
    pub first_in_row: bool,
    pub last_in_row: bool,
}

impl View for WrappedLine {
    type V = WrappedLineView;

    open spec fn view(&self) -> WrappedLineView {
        WrappedLineView {
            row: self.row as int,
            start_byte: self.start_byte as int,
            end_byte: self.end_byte as int,
            start_col: self.start_col as int,
            end_col: self.end_col as int,
            first_in_row: self.first_in_row,
            last_in_row: self.last_in_row,
        }
    }
}

/// The width that rows are broken at: a width of zero counts as one.
pub open spec fn usable_width(width: nat) -> nat {
    if width == 0 {
        1
    } else {
        width
    }
}

/// The rows that `line` is broken into, each as the bytes that it shows. An empty line has one
/// empty row.
pub open spec fn line_rows(line: Seq<char>, mode: WrapMode, width: nat, tab_len: u8) -> Seq<
    (int, int),
> {
    let width = usable_width(width);
    if line.len() == 0 {
        seq![(0int, 0int)]
    } else {
        match mode {
            WrapMode::NoWrap => seq![(0int, byte_len(line))],
            WrapMode::Glyph => glyph_rows(line, 0, byte_len(line), width, tab_len),
            WrapMode::Word => word_rows(line, word_cuts(line), 0, 0, width, tab_len, false),
            WrapMode::WordOrGlyph => word_rows(line, word_cuts(line), 0, 0, width, tab_len, true),
        }
    }
}

/// The rows of line number `row`, where `rows` says which bytes of it they show.
pub open spec fn line_fragments(row: int, line: Seq<char>, rows: Seq<(int, int)>) -> Seq<
    WrappedLineView,
> {
    Seq::new(
        rows.len(),
        |i: int|
            WrappedLineView {
                row,
                start_byte: rows[i].0,
                end_byte: rows[i].1,
                start_col: text_between(line, 0, rows[i].0).len() as int,
                end_col: text_between(line, 0, rows[i].1).len() as int,
                first_in_row: i == 0,
                last_in_row: i + 1 == rows.len(),
            },
    )
}

/// The rows of all lines, line after line.
pub open spec fn all_fragments(
    lines: Seq<Seq<char>>,
    mode: WrapMode,
    width: nat,
    tab_len: u8,
) -> Seq<WrappedLineView>
    decreases lines.len(),
{
    if lines.len() == 0 {
        Seq::empty()
    } else {
        all_fragments(lines.drop_last(), mode, width, tab_len) + line_fragments(
            lines.len() - 1,
            lines.last(),
            line_rows(lines.last(), mode, width, tab_len),
        )
    }
}

/// What a vector of rows holds.
pub open spec fn fragments_view(rows: Seq<WrappedLine>) -> Seq<WrappedLineView> {
    rows.map_values(|row: WrappedLine| row@)
}

/// What a vector of lines holds.
pub open spec fn lines_view(lines: Seq<String>) -> Seq<Seq<char>> {
    lines.map_values(|line: String| line@)
}

/// The rows of a line lie in it one behind the other; only an empty line has an empty row.
pub proof fn lemma_line_rows(line: Seq<char>, mode: WrapMode, width: nat, tab_len: u8)
    ensures
        line_rows(line, mode, width, tab_len).len() > 0,
        line_rows(line, mode, width, tab_len)[0].0 == 0,
        line.len() > 0 ==> lays_out(
            line,
            line_rows(line, mode, width, tab_len),
            0,
            byte_len(line),
        ),
        forall|k: int|
            0 <= k < line_rows(line, mode, width, tab_len).len() ==> {
                let row = #[trigger] line_rows(line, mode, width, tab_len)[k];
                is_range(line, row.0, row.1)
            },
{
    let w = usable_width(width);
    let to = byte_len(line);
    lemma_whole_text(line);
    if line.len() > 0 {
        match mode {
            WrapMode::NoWrap => {
            },
            WrapMode::Glyph => {
                lemma_glyph_rows_lay_out(line, 0, to, w, tab_len);
            },
            WrapMode::Word | WrapMode::WordOrGlyph => {
                let cuts = word_cuts(line);
                lemma_word_rows_lay_out(line, cuts, 0, 0, w, tab_len, false);
                lemma_word_rows_lay_out(line, cuts, 0, 0, w, tab_len, true);
            },
        }
        let rows = line_rows(line, mode, width, tab_len);
        assert forall|k: int| 0 <= k < rows.len() implies is_range(
            line,
            (#[trigger] rows[k]).0,
            rows[k].1,
        ) by {
            assert(is_row(line, rows[k]));
        }
    }
}

/// The columns that are left for text beside line numbers.
pub open spec fn text_columns(total_width: int, line_number_len: Option<u8>) -> int {
    let reserved: int = match line_number_len {
        Some(len) => len + 2,
        None => 0,
    };
    if total_width > reserved {
        total_width - reserved
    } else {
        1
    }
}

/// The columns that are left for text in a viewport of `total_width` columns, beside line
/// numbers of `line_number_len` digits with a column on either side. At least one is left.
pub fn effective_wrap_width(total_width: u16, line_number_len: Option<u8>) -> (width: usize)
    ensures
        width >= 1,
        ({
            let reserved: int = match line_number_len {
                Some(len) => len + 2,
                None => 0,
            };
            width == if total_width > reserved {
                total_width - reserved
            } else {
                1
            }
        }),
        width == text_columns(total_width as int, line_number_len),
{
    let total_width: usize = total_width as usize;
    let reserved: usize = match line_number_len {
        Some(len) => len as usize + 2,
        None => 0,
    };
    if total_width > reserved {
        total_width - reserved
    } else {
        1
    }
}

/// The rows that `line` is broken into, each as the byte offsets at which it starts and ends.
pub fn line_ranges(line: &str, mode: WrapMode, width: usize, tab_len: u8) -> (out: Vec<
    (usize, usize),
>)
    ensures
        as_rows(out@) == line_rows(line@, mode, width as nat, tab_len),
        out.len() == line_rows(line@, mode, width as nat, tab_len).len(),
        forall|k: int|
            0 <= k < out.len() ==> {
                let row = line_rows(line@, mode, width as nat, tab_len)[k];
                &&& (#[trigger] out@[k]).0 == row.0
                &&& out@[k].1 == row.1
            },
{
    proof {
        lemma_whole_text(line@);
        lemma_line_rows(line@, mode, width as nat, tab_len);
    }
    let len = line_len(line);
    if mode == WrapMode::NoWrap {
        let out: Vec<(usize, usize)> = vec![(0, len)];
        return out;
    }
    let width: usize = width.max(1);
    let mut out: Vec<(usize, usize)> = match mode {
        WrapMode::NoWrap => vec![(0, len)],
        WrapMode::Glyph => {
            let mut chunks: Vec<(usize, usize)> = Vec::new();
            split_range_by_grapheme_width(line, 0, len, width, tab_len, &mut chunks);
            chunks
        },
        WrapMode::Word => wrap_word_chunks(line, width, tab_len, false),
        WrapMode::WordOrGlyph => wrap_word_chunks(line, width, tab_len, true),
    };
    if out.is_empty() {
        out.push((0, 0));
    }
    out
}

/// The rows of all `lines`, from the first row of the first line to the last row of the last.
pub fn wrapped_rows(lines: &[String], mode: WrapMode, width: usize, tab_len: u8) -> (rows: Vec<
    WrappedLine,
>)
    ensures
        fragments_view(rows@) == all_fragments(lines_view(lines@), mode, width as nat, tab_len),
{
    let ghost texts = lines_view(lines@);
    let mut rows: Vec<WrappedLine> = Vec::new();
    for row in 0..lines.len()
        invariant
            texts == lines_view(lines@),
            fragments_view(rows@) == all_fragments(
                texts.take(row as int),
                mode,
                width as nat,
                tab_len,
            ),
    {
        let line = lines[row].as_str();
        let ranges = line_ranges(line, mode, width, tab_len);
        let ghost parts = as_rows(ranges@);
        let ghost all = line_fragments(row as int, line@, parts);
        let ghost done = fragments_view(rows@);
        proof {
            lemma_line_rows(line@, mode, width as nat, tab_len);
            lemma_whole_text(line@);
        }
        for i in 0..ranges.len()
            invariant
                parts == as_rows(ranges@),
                all == line_fragments(row as int, line@, parts),
                is_range(line@, 0, byte_len(line@)),
                forall|k: int|
                    0 <= k < parts.len() ==> {
                        let part = #[trigger] parts[k];
                        is_range(line@, part.0, part.1)
                    },
                fragments_view(rows@) == done + all.take(i as int),
        {
            let (start_byte, end_byte) = ranges[i];
            proof {
                assert(parts[i as int] == (start_byte as int, end_byte as int));
                lemma_between_concat(line@, 0, start_byte as int, end_byte as int);
                lemma_encode_between(line@, 0, end_byte as int);
                lemma_chars_at_most_bytes(text_between(line@, 0, end_byte as int));
            }
            let start_col = slice(line, 0, start_byte).unicode_len();
            let end_col = start_col + slice(line, start_byte, end_byte).unicode_len();
            let fragment = WrappedLine {
                row,
                start_byte,
                end_byte,
                start_col,
                end_col,
                first_in_row: i == 0,
                last_in_row: i + 1 == ranges.len(),
            };
            proof {
                assert(fragments_view(rows@.push(fragment)) =~= fragments_view(rows@).push(
                    fragment@,
                ));
            }
            rows.push(fragment);
        }
        proof {
            assert(texts.take(row + 1).drop_last() =~= texts.take(row as int));
        }
    }
    assert(texts.take(lines.len() as int) =~= texts);
    rows
}

} // verus!
