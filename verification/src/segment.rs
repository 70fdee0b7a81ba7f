//! Cutting text into grapheme clusters and into the pieces between word boundaries.
//!
//! Where the cuts fall is decided by the `unicode-segmentation` crate. What the rest of the
//! library needs of them is that they part the text into consecutive, non-empty pieces.

use crate::text::{
    byte_len, is_boundary, is_range, lemma_boundary_after, lemma_chars_at_most_bytes,
    lemma_whole_text, line_len, slice, text_between,
};
use unicode_segmentation::UnicodeSegmentation;
use vstd::prelude::*;
use vstd::utf8::*;

verus! {

/// A piece of a line, as the byte offsets at which it starts and ends.
#[derive(Clone, Copy, Debug)]
pub struct Chunk {
    pub start: usize,
    pub end: usize,
}

/// Whether `cuts` parts `text` into consecutive, non-empty pieces: it runs from the first byte
/// to the end of the text, always forward, and never through the middle of a character.
pub open spec fn well_cut(text: Seq<char>, cuts: Seq<int>) -> bool {
    &&& cuts.len() > 0
    &&& cuts[0] == 0
    &&& cuts.last() == byte_len(text)
    &&& forall|i: int, j: int| 0 <= i < j < cuts.len() ==> cuts[i] < cuts[j]
    &&& forall|i: int| 0 <= i < cuts.len() ==> is_boundary(text, #[trigger] cuts[i])
}

/// The byte offset at which piece `k` starts; past the last piece, the end of the text.
pub open spec fn piece_start(text: Seq<char>, pieces: Seq<(usize, Seq<char>)>, k: int) -> int {
    if k < pieces.len() {
        pieces[k].0 as int
    } else {
        byte_len(text)
    }
}

/// Whether the pieces, each with its byte offset, make up `text` in order: none is empty, the
/// first starts at the start, each starts where the one before it ends, the last ends at the
/// end, and each holds what `text` holds there.
pub open spec fn tiles(text: Seq<char>, pieces: Seq<(usize, Seq<char>)>) -> bool {
    &&& piece_start(text, pieces, 0) == 0
    &&& forall|k: int|
        0 <= k < pieces.len() ==> {
            let piece = (#[trigger] pieces[k]).1;
            &&& piece.len() > 0
            &&& piece_start(text, pieces, k + 1) == pieces[k].0 + byte_len(piece)
            &&& pieces[k].0 + byte_len(piece) <= byte_len(text)
            &&& encode_utf8(text).subrange(pieces[k].0 as int, pieces[k].0 + byte_len(piece))
                == encode_utf8(piece)
        }
}

/// The offsets at which the pieces start, and the end of the text.
pub open spec fn piece_cuts(text: Seq<char>, pieces: Seq<(usize, Seq<char>)>) -> Seq<int> {
    Seq::new(pieces.len() + 1, |k: int| piece_start(text, pieces, k))
}

/// What a vector of pieces holds.
pub open spec fn pieces_view(pieces: Seq<(usize, &str)>) -> Seq<(usize, Seq<char>)> {
    pieces.map_values(|piece: (usize, &str)| (piece.0, piece.1@))
}

/// The pieces that `UnicodeSegmentation::grapheme_indices` gives.
pub uninterp spec fn grapheme_pieces(text: Seq<char>, is_extended: bool) -> Seq<
    (usize, Seq<char>),
>;

/// The pieces that `UnicodeSegmentation::split_word_bound_indices` gives.
pub uninterp spec fn word_bound_pieces(text: Seq<char>) -> Seq<(usize, Seq<char>)>;

/// `UnicodeSegmentation::grapheme_indices`: the grapheme clusters of `text` with their byte
/// offsets, extended ones where `is_extended` is set. Trusted: the clusters depend on the two
/// arguments alone, and they make up the text in order, none of them empty.
#[verifier::external_body]
fn grapheme_indices(text: &str, is_extended: bool) -> (pieces: Vec<(usize, &str)>)
    ensures
        pieces_view(pieces@) == grapheme_pieces(text@, is_extended),
        tiles(text@, pieces_view(pieces@)),
{
    UnicodeSegmentation::grapheme_indices(text, is_extended).collect()
}

/// `UnicodeSegmentation::split_word_bound_indices`: the substrings of `text` between its word
/// boundaries, with their byte offsets. Trusted: the substrings depend on the text alone, and
/// they make it up in order, none of them empty.
#[verifier::external_body]
fn split_word_bound_indices(text: &str) -> (pieces: Vec<(usize, &str)>)
    ensures
        pieces_view(pieces@) == word_bound_pieces(text@),
        tiles(text@, pieces_view(pieces@)),
{
    UnicodeSegmentation::split_word_bound_indices(text).collect()
}

/// The offsets in `cuts`, if they part `text`; a single piece otherwise.
pub open spec fn parting(text: Seq<char>, cuts: Seq<int>) -> Seq<int> {
    if well_cut(text, cuts) {
        cuts
    } else if text.len() == 0 {
        seq![0int]
    } else {
        seq![0int, byte_len(text)]
    }
}

/// Where the extended grapheme clusters of `text` start, and the end of the text.
pub open spec fn grapheme_cuts(text: Seq<char>) -> Seq<int> {
    parting(text, piece_cuts(text, grapheme_pieces(text, true)))
}

/// Where the pieces of `text` between word boundaries start, and the end of the text.
pub open spec fn word_cuts(text: Seq<char>) -> Seq<int> {
    parting(text, piece_cuts(text, word_bound_pieces(text)))
}

/// The offsets at which the chunks start, and where the last of them ends.
pub open spec fn chunk_cuts(chunks: Seq<Chunk>) -> Seq<int> {
    Seq::new(
        chunks.len() + 1,
        |k: int|
            if k < chunks.len() {
                chunks[k].start as int
            } else if chunks.len() > 0 {
                chunks.last().end as int
            } else {
                0
            },
    )
}

/// Whether the chunks make up `text` in order, none of them empty.
pub open spec fn chunks_tile(text: Seq<char>, chunks: Seq<Chunk>) -> bool {
    &&& well_cut(text, chunk_cuts(chunks))
    &&& forall|k: int|
        0 <= k < chunks.len() ==> (#[trigger] chunks[k]).end == chunk_cuts(chunks)[k + 1]
}

/// A single piece parts a text.
proof fn lemma_parting(text: Seq<char>, cuts: Seq<int>)
    ensures
        well_cut(text, parting(text, cuts)),
{
    lemma_whole_text(text);
    lemma_chars_at_most_bytes(text);
}

/// Grapheme clusters part every text.
pub proof fn lemma_grapheme_cuts(text: Seq<char>)
    ensures
        well_cut(text, grapheme_cuts(text)),
{
    lemma_parting(text, piece_cuts(text, grapheme_pieces(text, true)));
}

/// Word boundaries part every text.
pub proof fn lemma_word_cuts(text: Seq<char>)
    ensures
        well_cut(text, word_cuts(text)),
{
    lemma_parting(text, piece_cuts(text, word_bound_pieces(text)));
}

/// Between two cuts lie whole characters.
pub proof fn lemma_cut_range(text: Seq<char>, cuts: Seq<int>, i: int, j: int)
    requires
        well_cut(text, cuts),
        0 <= i <= j < cuts.len(),
    ensures
        is_range(text, cuts[i], cuts[j]),
        i < j ==> cuts[i] < cuts[j],
{
    assert(cuts[0] <= cuts[i]);
    assert(cuts[j] <= cuts[cuts.len() - 1]);
}

/// An empty text is cut nowhere; a text that is not empty has a first piece.
pub proof fn lemma_cut_count(text: Seq<char>, cuts: Seq<int>)
    requires
        well_cut(text, cuts),
    ensures
        text.len() == 0 <==> cuts.len() == 1,
{
    lemma_chars_at_most_bytes(text);
    if cuts.len() > 1 {
        assert(cuts[0] < cuts[cuts.len() - 1]);
    }
}

/// Every piece ends at a boundary, no earlier than it starts.
proof fn lemma_piece_boundaries(text: Seq<char>, pieces: Seq<(usize, Seq<char>)>, k: int)
    requires
        tiles(text, pieces),
        0 <= k <= pieces.len(),
    ensures
        is_boundary(text, piece_start(text, pieces, k)),
        0 <= piece_start(text, pieces, k) <= byte_len(text),
        forall|i: int|
            0 <= i < k ==> #[trigger] piece_start(text, pieces, i) < piece_start(text, pieces, k),
    decreases k,
{
    lemma_whole_text(text);
    if k > 0 {
        let piece = pieces[k - 1].1;
        lemma_piece_boundaries(text, pieces, k - 1);
        lemma_chars_at_most_bytes(piece);
        encode_utf8_valid_utf8(piece);
        lemma_boundary_after(
            text,
            piece_start(text, pieces, k - 1),
            piece_start(text, pieces, k),
        );
    }
}

/// Pieces that make up a text part it where they start.
pub proof fn lemma_tiles_part(text: Seq<char>, pieces: Seq<(usize, Seq<char>)>)
    requires
        tiles(text, pieces),
    ensures
        well_cut(text, piece_cuts(text, pieces)),
{
    let cuts = piece_cuts(text, pieces);
    assert forall|i: int| 0 <= i < cuts.len() implies is_boundary(text, #[trigger] cuts[i]) by {
        lemma_piece_boundaries(text, pieces, i);
    }
    assert forall|i: int, j: int| 0 <= i < j < cuts.len() implies cuts[i] < cuts[j] by {
        lemma_piece_boundaries(text, pieces, j);
        assert(piece_start(text, pieces, i) < piece_start(text, pieces, j));
    }
}

/// The chunks that the pieces of a text occupy.
fn piece_chunks(pieces: &Vec<(usize, &str)>) -> (chunks: Vec<Chunk>)
    requires
        forall|k: int|
            0 <= k < pieces.len() ==> (#[trigger] pieces@[k]).0 + byte_len(pieces@[k].1@)
                <= usize::MAX,
    ensures
        chunks.len() == pieces.len(),
        forall|k: int|
            0 <= k < pieces.len() ==> {
                &&& (#[trigger] chunks@[k]).start == pieces@[k].0
                &&& chunks@[k].end == pieces@[k].0 + byte_len(pieces@[k].1@)
            },
{
    let mut chunks: Vec<Chunk> = Vec::new();
    for k in 0..pieces.len()
        invariant
            forall|i: int|
                0 <= i < pieces.len() ==> (#[trigger] pieces@[i]).0 + byte_len(pieces@[i].1@)
                    <= usize::MAX,
            chunks.len() == k,
            forall|i: int|
                0 <= i < k ==> {
                    &&& (#[trigger] chunks@[i]).start == pieces@[i].0
                    &&& chunks@[i].end == pieces@[i].0 + byte_len(pieces@[i].1@)
                },
    {
        let (start, piece) = pieces[k];
        chunks.push(Chunk { start, end: start + line_len(piece) });
    }
    chunks
}

/// Chunks laid over the pieces of a text make the text up.
proof fn lemma_piece_chunks_tile(
    text: Seq<char>,
    pieces: Seq<(usize, Seq<char>)>,
    chunks: Seq<Chunk>,
)
    requires
        tiles(text, pieces),
        chunks.len() == pieces.len(),
        forall|k: int|
            0 <= k < pieces.len() ==> {
                &&& (#[trigger] chunks[k]).start == pieces[k].0
                &&& chunks[k].end == pieces[k].0 + byte_len(pieces[k].1)
            },
    ensures
        chunk_cuts(chunks) == piece_cuts(text, pieces),
        chunks_tile(text, chunks),
{
    lemma_tiles_part(text, pieces);
    assert(chunk_cuts(chunks) =~= piece_cuts(text, pieces)) by {
        if pieces.len() > 0 {
            let last = pieces[pieces.len() - 1];
            assert(chunks[pieces.len() - 1].end == piece_start(text, pieces, pieces.len() as int));
        }
    }
    assert forall|k: int| 0 <= k < chunks.len() implies (#[trigger] chunks[k]).end == chunk_cuts(
        chunks,
    )[k + 1] by {
        assert(pieces[k].0 + byte_len(pieces[k].1) == piece_start(text, pieces, k + 1));
    }
}

/// The extended grapheme clusters of `text`.
pub fn grapheme_chunks(text: &str) -> (chunks: Vec<Chunk>)
    ensures
        chunks_tile(text@, chunks@),
        chunk_cuts(chunks@) == grapheme_cuts(text@),
        chunks.len() + 1 == grapheme_cuts(text@).len(),
        forall|k: int|
            0 <= k < chunks.len() ==> {
                &&& (#[trigger] chunks@[k]).start == grapheme_cuts(text@)[k]
                &&& chunks@[k].end == grapheme_cuts(text@)[k + 1]
            },
{
    let pieces = grapheme_indices(text, true);
    let len = line_len(text);
    assert forall|k: int| 0 <= k < pieces.len() implies (#[trigger] pieces@[k]).0 + byte_len(
        pieces@[k].1@,
    ) <= len by {
        assert(pieces_view(pieces@)[k].1 == pieces@[k].1@);
    }
    let chunks = piece_chunks(&pieces);
    proof {
        lemma_piece_chunks_tile(text@, pieces_view(pieces@), chunks@);
    }
    chunks
}

/// The pieces of `line` between its word boundaries.
pub fn word_chunks(line: &str) -> (chunks: Vec<Chunk>)
    ensures
        chunks_tile(line@, chunks@),
        chunk_cuts(chunks@) == word_cuts(line@),
        chunks.len() + 1 == word_cuts(line@).len(),
        forall|k: int|
            0 <= k < chunks.len() ==> {
                &&& (#[trigger] chunks@[k]).start == word_cuts(line@)[k]
                &&& chunks@[k].end == word_cuts(line@)[k + 1]
            },
{
    let pieces = split_word_bound_indices(line);
    let len = line_len(line);
    assert forall|k: int| 0 <= k < pieces.len() implies (#[trigger] pieces@[k]).0 + byte_len(
        pieces@[k].1@,
    ) <= len by {
        assert(pieces_view(pieces@)[k].1 == pieces@[k].1@);
    }
    let chunks = piece_chunks(&pieces);
    proof {
        lemma_piece_chunks_tile(line@, pieces_view(pieces@), chunks@);
    }
    chunks
}

/// The text of `chunk` in `line`.
pub fn chunk_text(line: &str, chunk: Chunk) -> (text: &str)
    requires
        is_range(line@, chunk.start as int, chunk.end as int),
    ensures
        text@ == text_between(line@, chunk.start as int, chunk.end as int),
{
    slice(line, chunk.start, chunk.end)
}

} // verus!
