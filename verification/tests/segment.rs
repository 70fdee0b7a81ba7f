use soft_wrap::segment::{chunk_text, grapheme_chunks, word_chunks, Chunk};

fn bounds(chunks: Vec<Chunk>) -> Vec<(usize, usize)> {
    chunks.into_iter().map(|c| (c.start, c.end)).collect()
}

#[test]
fn grapheme_clusters_with_their_offsets() {
    assert_eq!(bounds(grapheme_chunks("e\u{301}x")), vec![(0, 3), (3, 4)]);
    assert_eq!(bounds(grapheme_chunks("a\r\nb")), vec![(0, 1), (1, 3), (3, 4)]);
    assert_eq!(bounds(grapheme_chunks("")), vec![]);
}

#[test]
fn grapheme_clusters_are_extended_ones() {
    // A spacing mark belongs to the cluster before it only in extended clusters.
    assert_eq!(bounds(grapheme_chunks("ह\u{93f}")), vec![(0, 6)]);
}

#[test]
fn pieces_between_word_boundaries() {
    assert_eq!(
        bounds(word_chunks("Brr, it's 29.3\u{b0}F!")),
        vec![
            (0, 3),
            (3, 4),
            (4, 5),
            (5, 9),
            (9, 10),
            (10, 14),
            (14, 16),
            (16, 17),
            (17, 18)
        ]
    );
    assert_eq!(bounds(word_chunks("ab  cd")), vec![(0, 2), (2, 4), (4, 6)]);
    assert_eq!(bounds(word_chunks("")), vec![]);
}

#[test]
fn text_of_a_chunk() {
    assert_eq!(chunk_text("ab犬猫", Chunk { start: 2, end: 5 }), "犬");
    assert_eq!(chunk_text("ab犬猫", Chunk { start: 5, end: 5 }), "");
}
