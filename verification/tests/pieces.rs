use soft_wrap::glyph::{glyph_row_end, split_range_by_grapheme_width};
use soft_wrap::segment::{grapheme_chunks, Chunk};
use soft_wrap::word::{
    drop_leading_whitespace, is_separator, leading_cells, wrap_chunks, wrap_word_chunks,
};

fn chunks(bounds: &[(usize, usize)]) -> Vec<Chunk> {
    bounds.iter().map(|&(start, end)| Chunk { start, end }).collect()
}

#[test]
fn first_row_of_given_pieces() {
    let letters = chunks(&[(0, 1), (1, 2), (2, 3), (3, 4), (4, 5)]);
    assert_eq!(glyph_row_end("hello", &letters, 4, 4), 4);
    assert_eq!(glyph_row_end("hello", &letters, 9, 4), 5);
    assert_eq!(glyph_row_end("hello", &letters, 0, 4), 1);
    let pairs = chunks(&[(0, 2), (2, 4), (4, 5)]);
    assert_eq!(glyph_row_end("hello", &pairs, 3, 4), 2);
    assert_eq!(glyph_row_end("hello", &pairs, 1, 4), 2);
}

#[test]
fn cluster_without_columns_joins_a_full_row() {
    let text = "ab\u{200b}c";
    assert_eq!(glyph_row_end(text, &grapheme_chunks(text), 2, 4), 5);
}

#[test]
fn split_appends_rows() {
    let mut out = vec![(7, 9)];
    split_range_by_grapheme_width("xhellox", 1, 6, 2, 4, &mut out);
    assert_eq!(out, vec![(7, 9), (1, 3), (3, 5), (5, 6)]);
    split_range_by_grapheme_width("xhellox", 3, 3, 2, 4, &mut out);
    split_range_by_grapheme_width("xhellox", 5, 3, 2, 4, &mut out);
    assert_eq!(out.len(), 4);
}

#[test]
fn cluster_wider_than_a_row_stands_alone() {
    let mut out = Vec::new();
    split_range_by_grapheme_width("a犬b", 0, 5, 1, 4, &mut out);
    assert_eq!(out, vec![(0, 1), (1, 4), (4, 5)]);
}

#[test]
fn white_space_is_known_by_its_property() {
    for code in 0u32..=0x10ffff {
        if let Some(c) = char::from_u32(code) {
            let white = matches!(
                c,
                '\u{9}'..='\u{d}'
                    | ' '
                    | '\u{85}'
                    | '\u{a0}'
                    | '\u{1680}'
                    | '\u{2000}'..='\u{200a}'
                    | '\u{2028}'
                    | '\u{2029}'
                    | '\u{202f}'
                    | '\u{205f}'
                    | '\u{3000}'
            );
            assert_eq!(is_separator(&c.to_string()), white, "{c:?}");
        }
    }
}

#[test]
fn separators() {
    assert!(is_separator(" \t\u{3000}"));
    assert!(!is_separator(" x "));
    assert!(!is_separator(""));
}

#[test]
fn cells_of_given_pieces() {
    let spaces = chunks(&[(0, 1), (1, 2), (2, 3)]);
    assert_eq!(leading_cells("   ", &spaces, 0, 4), 0);
    assert_eq!(leading_cells("   ", &spaces, 2, 4), 2);
    assert_eq!(leading_cells("   ", &spaces, 5, 4), 3);
    assert_eq!(leading_cells("   ", &chunks(&[(0, 2), (2, 3)]), 1, 4), 0);
    // Pieces without columns go only with a piece behind them that takes some.
    let text = " \u{85} ";
    let pieces = chunks(&[(0, 1), (1, 3), (3, 4)]);
    assert_eq!(leading_cells(text, &pieces, 1, 4), 1);
    assert_eq!(leading_cells(text, &pieces, 2, 4), 4);
}

#[test]
fn leading_white_space_is_dropped_cell_by_cell() {
    let line = "ab   cd";
    let chunk = Chunk { start: 2, end: 5 };
    assert_eq!(drop_leading_whitespace(line, chunk, 0, 4), 2);
    assert_eq!(drop_leading_whitespace(line, chunk, 1, 4), 3);
    assert_eq!(drop_leading_whitespace(line, chunk, 3, 4), 5);
    assert_eq!(drop_leading_whitespace(line, chunk, 9, 4), 5);
}

#[test]
fn nothing_but_white_space_is_dropped() {
    let chunk = Chunk { start: 0, end: 3 };
    assert_eq!(drop_leading_whitespace(" ab", chunk, 2, 4), 1);
    assert_eq!(drop_leading_whitespace("abc", chunk, 2, 4), 0);
    assert_eq!(drop_leading_whitespace("  a", chunk, 1, 4), 1);
    assert_eq!(drop_leading_whitespace(" \u{301}", chunk, 2, 4), 0);
    let letters = chunks(&[(0, 1), (1, 2), (2, 3)]);
    assert_eq!(leading_cells(" ab", &letters, 2, 4), 1);
}

#[test]
fn wide_white_space_is_not_dropped_in_part() {
    let line = "ab\u{3000}\tcd";
    let chunk = Chunk { start: 2, end: 6 };
    assert_eq!(drop_leading_whitespace(line, chunk, 1, 4), 2);
    assert_eq!(drop_leading_whitespace(line, chunk, 2, 4), 5);
    assert_eq!(drop_leading_whitespace(line, chunk, 3, 4), 5);
    assert_eq!(drop_leading_whitespace(line, chunk, 4, 4), 6);
}

#[test]
fn rows_of_given_chunks() {
    let parts = chunks(&[(0, 2), (2, 3), (3, 5)]);
    assert_eq!(wrap_chunks("ab cd", &parts, 2, 4, false), vec![(0, 2), (3, 5)]);
    assert_eq!(wrap_chunks("ab cd", &parts, 3, 4, false), vec![(0, 3), (3, 5)]);
    let parts = chunks(&[(0, 1), (1, 5)]);
    assert_eq!(wrap_chunks("ab cd", &parts, 3, 4, false), vec![(0, 1), (1, 5)]);
    assert_eq!(
        wrap_chunks("ab cd", &parts, 3, 4, true),
        vec![(0, 1), (1, 4), (4, 5)]
    );
    assert_eq!(wrap_chunks("", &chunks(&[]), 3, 4, true), vec![]);
}

#[test]
fn empty_line_has_one_empty_row() {
    assert_eq!(wrap_word_chunks("", 5, 4, false), vec![(0, 0)]);
    assert_eq!(wrap_word_chunks("", 5, 4, true), vec![(0, 0)]);
}
