use soft_wrap::segment::{grapheme_chunks, word_chunks};
use soft_wrap::width::display_width_to;
use soft_wrap::word::is_separator;
use soft_wrap::{effective_wrap_width, line_ranges, wrapped_rows, WrapMode, WrappedLine};

const MODES: [WrapMode; 4] = [
    WrapMode::NoWrap,
    WrapMode::Word,
    WrapMode::Glyph,
    WrapMode::WordOrGlyph,
];

const LINES: [&str; 12] = [
    "",
    " ",
    "helloworld",
    "abcde fghij",
    "abcde  fghij",
    "  padded  text  ",
    "ab          cd",
    "\tone\t\ttwo three",
    "第二行 mixed-width 内容 with English words.",
    "e\u{301}e\u{301}\u{200b} e\u{301}",
    "abcd\u{3000}efgh",
    "a\u{1f1f7}\u{1f1fa}\u{1f1f8}\u{1f1f9} flags",
];

fn rows(line: &str, mode: WrapMode, width: usize) -> Vec<&str> {
    line_ranges(line, mode, width, 4)
        .into_iter()
        .map(|(s, e)| &line[s..e])
        .collect()
}

fn for_all(check: impl Fn(&str, WrapMode, usize, &[(usize, usize)])) {
    for line in LINES {
        for mode in MODES {
            for width in 0..20 {
                check(line, mode, width, &line_ranges(line, mode, width, 4));
            }
        }
    }
}

#[test]
fn room_for_text() {
    assert_eq!(effective_wrap_width(80, None), 80);
    assert_eq!(effective_wrap_width(80, Some(3)), 75);
    assert_eq!(effective_wrap_width(6, Some(3)), 1);
    assert_eq!(effective_wrap_width(5, Some(3)), 1);
    assert_eq!(effective_wrap_width(4, Some(3)), 1);
    assert_eq!(effective_wrap_width(7, Some(3)), 2);
    assert_eq!(effective_wrap_width(0, None), 1);
    assert_eq!(effective_wrap_width(u16::MAX, Some(u8::MAX)), 65278);
}

#[test]
fn without_wrapping_a_line_keeps_one_row() {
    assert_eq!(line_ranges("hello world", WrapMode::NoWrap, 3, 4), vec![(0, 11)]);
    assert_eq!(line_ranges("", WrapMode::NoWrap, 3, 4), vec![(0, 0)]);
}

#[test]
fn empty_line_keeps_an_empty_row() {
    for mode in MODES {
        assert_eq!(line_ranges("", mode, 5, 4), vec![(0, 0)]);
    }
}

#[test]
fn unbounded_width() {
    for mode in MODES {
        assert_eq!(line_ranges("a b\tc", mode, usize::MAX, 255), vec![(0, 5)]);
    }
}

#[test]
fn separator_wider_than_a_row() {
    let line = "ab          cd";
    assert_eq!(rows(line, WrapMode::Word, 4), vec!["ab", "        ", "cd"]);
    assert_eq!(
        rows(line, WrapMode::WordOrGlyph, 4),
        vec!["ab", "    ", "    ", "cd"]
    );
}

#[test]
fn wide_space_behind_a_full_row_is_dropped() {
    for mode in [WrapMode::Word, WrapMode::WordOrGlyph] {
        assert_eq!(rows("abcd\u{3000}efgh", mode, 4), vec!["abcd", "efgh"]);
        assert_eq!(rows("abcd\tx", mode, 4), vec!["abcd", "x"]);
        // What follows the first of the clusters is kept.
        assert_eq!(
            rows("abcd\u{3000} efgh", mode, 4),
            vec!["abcd", " ", "efgh"]
        );
    }
    assert_eq!(
        rows("abcd\u{3000}efgh", WrapMode::Word, 6),
        vec!["abcd\u{3000}", "efgh"]
    );
}

#[test]
fn separator_at_the_start_is_kept() {
    assert_eq!(rows("   ab", WrapMode::Word, 3), vec!["   ", "ab"]);
    assert_eq!(rows("    ab", WrapMode::Word, 3), vec!["    ", "ab"]);
    assert_eq!(rows("    ab", WrapMode::WordOrGlyph, 3), vec!["   ", " ", "ab"]);
}

#[test]
fn split_word_shares_its_last_row() {
    let mode = WrapMode::WordOrGlyph;
    assert_eq!(rows("helloworld x", mode, 4), vec!["hell", "owor", "ld x"]);
    assert_eq!(rows("abcde f ghi", mode, 4), vec!["abcd", "e f ", "ghi"]);
    assert_eq!(rows("abcdefg ", mode, 4), vec!["abcd", "efg "]);
    assert_eq!(rows("abcde fghi", mode, 4), vec!["abcd", "e ", "fghi"]);
}

#[test]
fn split_word_keeps_its_last_row() {
    let mode = WrapMode::WordOrGlyph;
    // The next row does not fit in it.
    assert_eq!(rows("helloworld xyz", mode, 4), vec!["hell", "owor", "ld", " xyz"]);
    assert_eq!(rows("abcde f g", mode, 4), vec!["abcd", "e", " f g"]);
    assert_eq!(rows("abcdefgh xy", mode, 4), vec!["abcd", "efgh", " xy"]);
    // The next row would be broken inside a run of text.
    assert_eq!(rows("abcde f-ghi", mode, 4), vec!["abcd", "e", " f-", "ghi"]);
    assert_eq!(line_ranges("abcde f-ghi", mode, 4, 4), vec![(0, 4), (4, 5), (5, 8), (8, 11)]);
    // The word is a part of a longer run of text.
    assert_eq!(rows("a -bcde f", mode, 3), vec!["a -", "bcd", "e", " f"]);
    // What is split is white space.
    assert_eq!(rows("ab      c", mode, 3), vec!["ab", "   ", "  ", "c"]);
    assert_eq!(
        rows("abcd          ef", mode, 4),
        vec!["abcd", "    ", "    ", " ", "ef"]
    );
    // A word that is left whole, or a cluster that is wider than the rows.
    assert_eq!(rows("helloworld x", WrapMode::Word, 4), vec!["helloworld", " x"]);
    assert_eq!(rows("犬 a", mode, 1), vec!["犬", " ", "a"]);
}

#[test]
fn space_behind_a_full_split_word_is_dropped() {
    let mode = WrapMode::WordOrGlyph;
    assert_eq!(rows("abcdefgh ", mode, 4), vec!["abcd", "efgh"]);
    assert_eq!(rows("abcdefgh wxyz", mode, 4), vec!["abcd", "efgh", "wxyz"]);
    assert_eq!(rows("abcdefgh\txy", mode, 4), vec!["abcd", "efgh", "xy"]);
    // More than one cluster of it is not.
    assert_eq!(rows("abcdefgh  ", mode, 4), vec!["abcd", "efgh", "  "]);
}

#[test]
fn little_is_left_out() {
    for_all(|line, mode, width, ranges| {
        if (mode == WrapMode::Word || mode == WrapMode::WordOrGlyph) && !line.is_empty() {
            let width = width.max(1);
            for (k, &(start, end)) in ranges.iter().enumerate() {
                let next = ranges.get(k + 1).map_or(line.len(), |row| row.0);
                let left_out = &line[end..next];
                let used = display_width_to(&line[start..end], 0, 4);
                if used < width {
                    assert!(used + display_width_to(left_out, 0, 4) <= width);
                } else {
                    assert!(grapheme_chunks(left_out).len() <= 1);
                }
            }
        }
    });
}

#[test]
fn next_piece_does_not_fit() {
    for_all(|line, mode, width, ranges| {
        if mode == WrapMode::Word && !line.is_empty() {
            for &(start, end) in ranges {
                for word in word_chunks(line) {
                    if word.start == end {
                        let wider = &line[start..word.end];
                        assert!(display_width_to(wider, 0, 4) > width.max(1));
                    }
                }
            }
        }
    });
}

#[test]
fn tab_is_measured_from_the_row_it_stands_in() {
    assert_eq!(rows("ab\tcd", WrapMode::Word, 4), vec!["ab\t", "cd"]);
    assert_eq!(rows("ab\tcd", WrapMode::Glyph, 5), vec!["ab\tc", "d"]);
    assert_eq!(line_ranges("ab\tcd", WrapMode::Glyph, 4, 0), vec![(0, 5)]);
}

#[test]
fn zero_width_counts_as_one() {
    for line in LINES {
        for mode in MODES {
            assert_eq!(line_ranges(line, mode, 0, 4), line_ranges(line, mode, 1, 4));
        }
    }
}

#[test]
fn rows_lie_in_order() {
    for_all(|line, _, _, ranges| {
        assert_eq!(ranges[0].0, 0);
        for &(start, end) in ranges {
            assert!(line.is_char_boundary(start) && line.is_char_boundary(end));
            assert!(start < end || line.is_empty());
        }
        for pair in ranges.windows(2) {
            assert!(pair[0].1 <= pair[1].0);
        }
    });
}

#[test]
fn only_white_space_is_left_out() {
    for_all(|line, mode, _, ranges| {
        let mut at = 0;
        for &(start, end) in ranges.iter().chain(&[(line.len(), line.len())]) {
            let left_out = &line[at..start];
            assert!(left_out.is_empty() || is_separator(left_out));
            if mode == WrapMode::Glyph || mode == WrapMode::NoWrap {
                assert!(left_out.is_empty());
            }
            at = end;
        }
    });
}

#[test]
fn rows_fit_or_are_one_cluster() {
    for_all(|line, mode, width, ranges| {
        if mode == WrapMode::Glyph || mode == WrapMode::WordOrGlyph {
            for &(start, end) in ranges {
                let row = &line[start..end];
                let fits = display_width_to(row, 0, 4) <= width.max(1);
                assert!(fits || grapheme_chunks(row).len() == 1);
            }
        }
    });
}

#[test]
fn glyph_rows_go_as_far_as_they_fit() {
    for_all(|line, mode, width, ranges| {
        if mode == WrapMode::Glyph && !line.is_empty() {
            for &(start, end) in ranges {
                let clusters = grapheme_chunks(&line[start..]);
                let next = clusters.iter().find(|c| start + c.end > end);
                if let Some(next) = next {
                    assert_eq!(start + next.start, end);
                    let wider = &line[start..start + next.end];
                    assert!(display_width_to(wider, 0, 4) > width.max(1));
                }
            }
        }
    });
}

#[test]
fn words_stand_in_one_row() {
    for_all(|line, mode, width, ranges| {
        for word in word_chunks(line) {
            let text = &line[word.start..word.end];
            let fits = display_width_to(text, 0, 4) <= width.max(1);
            let whole = match mode {
                WrapMode::NoWrap | WrapMode::Word => true,
                WrapMode::Glyph => false,
                WrapMode::WordOrGlyph => fits,
            };
            if whole && !is_separator(text) {
                assert!(ranges.iter().any(|&(s, e)| s <= word.start && word.end <= e));
            }
        }
    });
}

#[test]
fn word_rows_end_at_word_boundaries() {
    for_all(|line, mode, _, ranges| {
        if mode == WrapMode::Word {
            let words = word_chunks(line);
            for &(_, end) in ranges {
                assert!(end == 0 || words.iter().any(|w| w.end == end));
            }
        }
    });
}

#[test]
fn fallback_is_for_wide_pieces() {
    for line in LINES {
        let widest = word_chunks(line)
            .iter()
            .map(|w| display_width_to(&line[w.start..w.end], 0, 4))
            .max()
            .unwrap_or(0);
        for width in widest.max(1)..widest + 20 {
            assert_eq!(
                line_ranges(line, WrapMode::WordOrGlyph, width, 4),
                line_ranges(line, WrapMode::Word, width, 4)
            );
        }
    }
    assert_ne!(
        line_ranges("helloworld", WrapMode::WordOrGlyph, 9, 4),
        line_ranges("helloworld", WrapMode::Word, 9, 4)
    );
}

#[test]
fn line_that_fits_keeps_one_row() {
    for_all(|line, _, width, ranges| {
        if display_width_to(line, 0, 4) <= width {
            assert_eq!(ranges, &[(0, line.len())]);
        }
    });
}

fn row(
    row: usize,
    bytes: (usize, usize),
    cols: (usize, usize),
    first_in_row: bool,
    last_in_row: bool,
) -> WrappedLine {
    WrappedLine {
        row,
        start_byte: bytes.0,
        end_byte: bytes.1,
        start_col: cols.0,
        end_col: cols.1,
        first_in_row,
        last_in_row,
    }
}

fn parts(line: &WrappedLine) -> (usize, usize, usize, usize, usize, bool, bool) {
    (
        line.row,
        line.start_byte,
        line.end_byte,
        line.start_col,
        line.end_col,
        line.first_in_row,
        line.last_in_row,
    )
}

fn buffer(lines: &[&str]) -> Vec<String> {
    lines.iter().map(|line| line.to_string()).collect()
}

#[test]
fn rows_of_a_buffer() {
    let lines = buffer(&["犬猫 ab cd", "", "x"]);
    let have = wrapped_rows(&lines, WrapMode::WordOrGlyph, 4, 4);
    let want = vec![
        row(0, (0, 6), (0, 2), true, false),
        row(0, (7, 10), (3, 6), false, false),
        row(0, (10, 12), (6, 8), false, true),
        row(1, (0, 0), (0, 0), true, true),
        row(2, (0, 1), (0, 1), true, true),
    ];
    let have: Vec<_> = have.iter().map(parts).collect();
    let want: Vec<_> = want.iter().map(parts).collect();
    assert_eq!(have, want);
}

#[test]
fn rows_of_an_empty_buffer() {
    assert!(wrapped_rows(&[], WrapMode::Word, 4, 4).is_empty());
}

#[test]
fn every_line_is_shown_in_order() {
    let lines = buffer(&LINES);
    for mode in MODES {
        for width in 0..20 {
            let have = wrapped_rows(&lines, mode, width, 4);
            let mut at = 0;
            for (number, line) in lines.iter().enumerate() {
                let ranges = line_ranges(line, mode, width, 4);
                for (i, &(start, end)) in ranges.iter().enumerate() {
                    let found = &have[at];
                    assert_eq!(found.row, number);
                    assert_eq!((found.start_byte, found.end_byte), (start, end));
                    assert_eq!(found.start_col, line[..start].chars().count());
                    assert_eq!(found.end_col, line[..end].chars().count());
                    assert_eq!(found.first_in_row, i == 0);
                    assert_eq!(found.last_in_row, i == ranges.len() - 1);
                    at += 1;
                }
            }
            assert_eq!(at, have.len());
        }
    }
}
