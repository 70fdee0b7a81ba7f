use ratatui::backend::TestBackend;
use ratatui::text::Text;
use ratatui::widgets::{Paragraph, Wrap};
use ratatui::Terminal;
use soft_wrap::{line_ranges, WrapMode};

fn segments(line: &str, mode: WrapMode, width: usize) -> Vec<&str> {
    line_ranges(line, mode, width, 4)
        .into_iter()
        .map(|(s, e)| &line[s..e])
        .collect()
}

#[test]
fn word_wrap_keeps_long_word() {
    let have = segments("helloworld", WrapMode::Word, 4);
    assert_eq!(have, vec!["helloworld"]);
}

#[test]
fn word_or_glyph_wrap_splits_long_word() {
    let have = segments("helloworld", WrapMode::WordOrGlyph, 4);
    assert_eq!(have, vec!["hell", "owor", "ld"]);
}

#[test]
fn glyph_wrap_handles_wide_chars() {
    let have = segments("ab犬猫", WrapMode::Glyph, 4);
    assert_eq!(have, vec!["ab犬", "猫"]);
}

#[test]
fn glyph_wrap_keeps_combining_grapheme_cluster() {
    let have = segments("e\u{301}x", WrapMode::Glyph, 1);
    assert_eq!(have, vec!["e\u{301}", "x"]);
}

#[test]
fn tab_width_is_accounted_for_in_wrap() {
    let have = segments("\tX", WrapMode::WordOrGlyph, 2);
    assert_eq!(have, vec!["\t", "X"]);
}

#[test]
fn separator_whitespace_dropped_when_line_exactly_full() {
    // One space after an exactly full word must not produce a phantom row.
    let have = segments("1234567890 ", WrapMode::WordOrGlyph, 10);
    assert_eq!(have, vec!["1234567890"]);
    let have = segments("abcde fghij", WrapMode::WordOrGlyph, 5);
    assert_eq!(have, vec!["abcde", "fghij"]);
    let have = segments("abcde fghij", WrapMode::Word, 5);
    assert_eq!(have, vec!["abcde", "fghij"]);
    let have = segments("abcde fghi", WrapMode::WordOrGlyph, 5);
    assert_eq!(have, vec!["abcde", "fghi"]);
}

#[test]
fn separator_whitespace_overflowing_remaining_space_is_dropped() {
    // "  " after a 4/5 segment: 1 cell fits the remaining space and is
    // kept (leading the next row), the second cell is dropped - no
    // phantom whitespace-only row.
    let have = segments("abcd  efgh", WrapMode::WordOrGlyph, 5);
    assert_eq!(have, vec!["abcd", " efgh"]);
    let have = segments("abcd  efgh", WrapMode::Word, 5);
    assert_eq!(have, vec!["abcd", " efgh"]);
}

#[test]
fn leftover_separator_whitespace_leads_next_row() {
    // After an exactly full word the first separator grapheme is dropped,
    // the rest stays visible at the start of the next row.
    let have = segments("1234567890  ", WrapMode::WordOrGlyph, 10);
    assert_eq!(have, vec!["1234567890", " "]);
    let have = segments("abcde  fghij", WrapMode::WordOrGlyph, 5);
    assert_eq!(have, vec!["abcde", " ", "fghij"]);
}

#[test]
fn wrap_matches_ratatui_row_counts() {
    // Row counts must match ratatui's WordWrapper (trim: false), the algorithm
    // that a TUI renders with. `ratatui_reference_rows` counts the rows in the
    // way of WordWrapper::process_input; `ratatui_buffer_rows` cross-checks it
    // against the real Paragraph renderer for inputs that do not end in a
    // whitespace-only row (those are indistinguishable from empty buffer space).
    let cases: &[(&str, usize)] = &[
        ("1234567890", 10),
        ("1234567890 ", 10),
        ("1234567890 x", 10),
        ("1234567890  ", 10),
        ("1234567890   ", 10),
        ("hello world", 10),
        ("hello worldx", 10),
        ("  padded  text  ", 8),
        ("abcde fghij", 5),
        ("abcde fghi", 5),
        ("abcde fgh", 5),
        ("abcde  fghij", 5),
        ("abcd  efgh", 5),
        ("abcd    efgh", 5),
        ("a b c d e f g h i j k l", 5),
        ("ab cd ef gh", 5),
        ("x y z", 2),
        ("word word word", 8),
        ("12345678901234567890", 10),
        ("123456789012345678901", 10),
        ("第二行 mixed-width 内容 with English words.", 18),
        ("ASCII and русский текст can share one buffer.", 18),
        (
            "Lorem ipsum dolor sit amet, consectetur adipiscing elit.",
            24,
        ),
    ];
    for (text, width) in cases {
        let ours = segments(text, WrapMode::WordOrGlyph, *width).len();
        let reference = ratatui_reference_rows(text, *width);
        assert_eq!(
            ours, reference,
            "row count mismatch for {text:?} at width {width}: ours={ours} \
             ratatui(reference)={reference}"
        );
        if !text.ends_with(|c: char| c.is_whitespace()) {
            // Buffer rendering cannot expose whitespace-only trailing rows.
            let buffer_rows = ratatui_buffer_rows(text, *width);
            assert_eq!(
                reference, buffer_rows,
                "reference diverges from real ratatui render for {text:?} at {width}"
            );
        }
    }
}

/// Counts wrapped lines in the way of ratatui's `WordWrapper::process_input` (trim: false).
fn ratatui_reference_rows(text: &str, width: usize) -> usize {
    let width = width as u16;
    let mut wrapped: Vec<Vec<String>> = Vec::new();
    let mut line: Vec<String> = Vec::new();
    let mut line_width = 0u16;
    let mut pending_word: Vec<String> = Vec::new();
    let mut word_width = 0u16;
    let mut pending_ws: Vec<String> = Vec::new();
    let mut ws_width = 0u16;
    let mut non_ws_prev = true;

    let symbols: Vec<(String, u16)> =
        unicode_segmentation::UnicodeSegmentation::graphemes(text, true)
            .map(|s| {
                (
                    s.to_string(),
                    unicode_width::UnicodeWidthStr::width(s) as u16,
                )
            })
            .collect();
    for (symbol, symbol_width) in symbols {
        let is_whitespace = symbol.trim().is_empty() && symbol_width > 0;
        if symbol_width > width {
            continue;
        }
        let word_found = non_ws_prev && is_whitespace;
        let trimmed_overflow = line.is_empty() && word_width + symbol_width > width;
        let whitespace_overflow = line.is_empty() && ws_width + symbol_width > width;
        let untrimmed_overflow =
            line.is_empty() && word_width + ws_width + symbol_width > width;
        if word_found || trimmed_overflow || whitespace_overflow || untrimmed_overflow {
            // With trim: false, ratatui always extends pending whitespace into the
            // line (`!line.is_empty() || !trim`).
            line.append(&mut pending_ws);
            line_width += ws_width;
            line.append(&mut pending_word);
            line_width += word_width;
            pending_ws.clear();
            ws_width = 0;
            word_width = 0;
        }
        let line_full = line_width >= width;
        let pending_word_overflow =
            symbol_width > 0 && line_width + ws_width + word_width >= width;
        if line_full || pending_word_overflow {
            let mut remaining = width.saturating_sub(line_width);
            if !line.is_empty() {
                wrapped.push(std::mem::take(&mut line));
            }
            line_width = 0;
            while let Some(first) = pending_ws.first() {
                let w = unicode_width::UnicodeWidthStr::width(first.as_str()) as u16;
                if w > remaining {
                    break;
                }
                ws_width -= w;
                remaining -= w;
                pending_ws.remove(0);
            }
            if is_whitespace && pending_ws.is_empty() {
                non_ws_prev = !is_whitespace;
                continue;
            }
        }
        if is_whitespace {
            ws_width += symbol_width;
            pending_ws.push(symbol);
        } else {
            word_width += symbol_width;
            pending_word.push(symbol);
        }
        non_ws_prev = !is_whitespace;
    }
    // End of input: ratatui appends pending whitespace (and the pending word)
    // to the line even when trim is false and the line is empty.
    line.append(&mut pending_ws);
    line.append(&mut pending_word);
    if !line.is_empty() {
        wrapped.push(line);
    }
    wrapped.len().max(1)
}

fn ratatui_buffer_rows(text: &str, width: usize) -> usize {
    let backend = TestBackend::new(width as u16, 100);
    let mut terminal = Terminal::new(backend).expect("terminal should initialize");
    terminal
        .draw(|f| {
            f.render_widget(
                Paragraph::new(Text::from(text.to_string())).wrap(Wrap { trim: false }),
                f.area(),
            );
        })
        .expect("draw should succeed");
    let buffer = terminal.backend().buffer().clone();
    let mut last_non_blank = None;
    for y in 0..buffer.area.height {
        let mut line = String::new();
        for x in 0..buffer.area.width {
            line.push_str(buffer[(x, y)].symbol());
        }
        if !line.trim().is_empty() {
            last_non_blank = Some(y);
        }
    }
    match last_non_blank {
        Some(y) => y as usize + 1,
        None => 1,
    }
}
