//! Byte positions inside a line of text.
//!
//! A line is a sequence of characters; the positions of rows and chunks are offsets into its
//! UTF-8 encoding. This module says which offsets fall between two characters and which text
//! lies between two offsets.

use vstd::prelude::*;
use vstd::string::*;
use vstd::utf8::*;

verus! {

/// The number of bytes in the UTF-8 encoding of `text`.
pub open spec fn byte_len(text: Seq<char>) -> int {
    encode_utf8(text).len() as int
}

/// Whether the byte offset `at` falls between two characters of `text`, or at one of its ends.
pub open spec fn is_boundary(text: Seq<char>, at: int) -> bool {
    is_char_boundary(encode_utf8(text), at)
}

/// Whether `start` and `end` enclose whole characters of `text`.
pub open spec fn is_range(text: Seq<char>, start: int, end: int) -> bool {
    &&& 0 <= start <= end <= byte_len(text)
    &&& is_boundary(text, start)
    &&& is_boundary(text, end)
}

/// The characters of `text` from byte offset `start` up to byte offset `end`.
pub open spec fn text_between(text: Seq<char>, start: int, end: int) -> Seq<char> {
    decode_utf8(encode_utf8(text).subrange(start, end))
}

/// A prefix that is valid UTF-8 on its own ends between two characters.
proof fn lemma_valid_prefix_is_boundary(bytes: Seq<u8>, at: int)
    requires
        valid_utf8(bytes),
        0 <= at <= bytes.len(),
        valid_utf8(bytes.subrange(0, at)),
    ensures
        is_char_boundary(bytes, at),
    decreases bytes.len(),
{
    if at > 0 {
        let prefix = bytes.subrange(0, at);
        let rest = pop_first_scalar(bytes);
        let first = length_of_first_scalar(bytes);
        assert(pop_first_scalar(prefix) =~= rest.subrange(0, at - first));
        lemma_valid_prefix_is_boundary(rest, at - first);
    }
}

/// The bytes between two boundaries are valid UTF-8 on their own.
proof fn lemma_valid_between(bytes: Seq<u8>, start: int, end: int)
    requires
        valid_utf8(bytes),
        0 <= start <= end <= bytes.len(),
        is_char_boundary(bytes, start),
        is_char_boundary(bytes, end),
    ensures
        valid_utf8(bytes.subrange(start, end)),
{
    valid_utf8_split(bytes, start);
    valid_utf8_split(bytes, end);
    let prefix = bytes.subrange(0, end);
    assert(prefix.subrange(0, start) =~= bytes.subrange(0, start));
    lemma_valid_prefix_is_boundary(prefix, start);
    valid_utf8_split(prefix, start);
    assert(prefix.subrange(start, end) =~= bytes.subrange(start, end));
}

/// The text between two boundaries is encoded by the bytes between them.
pub proof fn lemma_encode_between(text: Seq<char>, start: int, end: int)
    requires
        is_range(text, start, end),
    ensures
        encode_utf8(text_between(text, start, end)) == encode_utf8(text).subrange(start, end),
        byte_len(text_between(text, start, end)) == end - start,
{
    encode_utf8_valid_utf8(text);
    lemma_valid_between(encode_utf8(text), start, end);
    decode_utf8_encode_utf8(encode_utf8(text).subrange(start, end));
}

/// A text is determined by its encoding.
pub proof fn lemma_encoding_is_injective(a: Seq<char>, b: Seq<char>)
    requires
        encode_utf8(a) == encode_utf8(b),
    ensures
        a == b,
{
    encode_utf8_decode_utf8(a);
    encode_utf8_decode_utf8(b);
}

/// Both ends of a text are boundaries, and everything lies between them.
pub proof fn lemma_whole_text(text: Seq<char>)
    ensures
        is_range(text, 0, byte_len(text)),
        text_between(text, 0, byte_len(text)) == text,
{
    encode_utf8_valid_utf8(text);
    is_char_boundary_start_end_of_seq(encode_utf8(text));
    encode_utf8_decode_utf8(text);
    assert(encode_utf8(text).subrange(0, byte_len(text)) =~= encode_utf8(text));
}

/// The bytes of a concatenation are the concatenation of the bytes.
pub proof fn lemma_encode_concat(a: Seq<char>, b: Seq<char>)
    ensures
        encode_utf8(a + b) == encode_utf8(a) + encode_utf8(b),
    decreases a.len(),
{
    if a.len() > 0 {
        lemma_encode_concat(a.drop_first(), b);
        assert((a + b).drop_first() =~= a.drop_first() + b);
    }
}

/// Text cut at a boundary falls into the text before and the text after it.
pub proof fn lemma_between_concat(text: Seq<char>, start: int, mid: int, end: int)
    requires
        is_range(text, start, mid),
        is_range(text, mid, end),
    ensures
        is_range(text, start, end),
        text_between(text, start, end) == text_between(text, start, mid) + text_between(
            text,
            mid,
            end,
        ),
{
    let joined = text_between(text, start, mid) + text_between(text, mid, end);
    lemma_encode_between(text, start, mid);
    lemma_encode_between(text, mid, end);
    lemma_encode_between(text, start, end);
    lemma_encode_concat(text_between(text, start, mid), text_between(text, mid, end));
    let bytes = encode_utf8(text);
    assert(bytes.subrange(start, mid) + bytes.subrange(mid, end) =~= bytes.subrange(start, end));
    lemma_encoding_is_injective(text_between(text, start, end), joined);
}

/// An offset that ends whole characters counted from a boundary is a boundary itself.
pub proof fn lemma_boundary_after(text: Seq<char>, start: int, end: int)
    requires
        is_boundary(text, start),
        0 <= start <= end <= byte_len(text),
        valid_utf8(encode_utf8(text).subrange(start, end)),
    ensures
        is_boundary(text, end),
{
    let bytes = encode_utf8(text);
    encode_utf8_valid_utf8(text);
    valid_utf8_split(bytes, start);
    valid_utf8_concat(bytes.subrange(0, start), bytes.subrange(start, end));
    assert(bytes.subrange(0, start) + bytes.subrange(start, end) =~= bytes.subrange(0, end));
    lemma_valid_prefix_is_boundary(bytes, end);
}

/// Positions inside a part of a text are positions of the text, moved by where the part starts.
pub proof fn lemma_between_of_between(text: Seq<char>, start: int, end: int, from: int, to: int)
    requires
        is_range(text, start, end),
        is_range(text_between(text, start, end), from, to),
    ensures
        is_range(text, start + from, start + to),
        text_between(text_between(text, start, end), from, to) == text_between(
            text,
            start + from,
            start + to,
        ),
{
    let part = text_between(text, start, end);
    let bytes = encode_utf8(text);
    lemma_encode_between(text, start, end);
    encode_utf8_valid_utf8(part);
    valid_utf8_split(encode_utf8(part), from);
    valid_utf8_split(encode_utf8(part), to);
    assert(encode_utf8(part).subrange(0, from) =~= bytes.subrange(start, start + from));
    assert(encode_utf8(part).subrange(0, to) =~= bytes.subrange(start, start + to));
    assert(encode_utf8(part).subrange(from, to) =~= bytes.subrange(start + from, start + to));
    lemma_boundary_after(text, start, start + from);
    lemma_boundary_after(text, start, start + to);
}

/// Every character takes at least one byte.
pub proof fn lemma_chars_at_most_bytes(text: Seq<char>)
    ensures
        text.len() <= byte_len(text),
        text.len() == 0 <==> byte_len(text) == 0,
    decreases text.len(),
{
    if text.len() > 0 {
        lemma_chars_at_most_bytes(text.drop_first());
    }
}

/// Between two equal offsets there is no text.
pub proof fn lemma_between_empty(text: Seq<char>, at: int)
    requires
        is_range(text, at, at),
    ensures
        text_between(text, at, at) == Seq::<char>::empty(),
{
}

/// The number of bytes in `line`.
pub fn line_len(line: &str) -> (len: usize)
    ensures
        len == byte_len(line@),
{
    line.as_bytes().len()
}

/// The part of `line` from byte offset `start` up to byte offset `end`.
pub fn slice(line: &str, start: usize, end: usize) -> (part: &str)
    requires
        is_range(line@, start as int, end as int),
    ensures
        part@ == text_between(line@, start as int, end as int),
{
    let (head, _) = line.split_at(end);
    proof {
        let bytes = encode_utf8(line@);
        encode_utf8_valid_utf8(line@);
        valid_utf8_split(bytes, end as int);
        valid_utf8_split(bytes, start as int);
        assert(head.spec_bytes().subrange(0, start as int) =~= bytes.subrange(0, start as int));
        lemma_valid_prefix_is_boundary(head.spec_bytes(), start as int);
    }
    let (_, part) = head.split_at(start);
    proof {
        assert(part.spec_bytes() =~= encode_utf8(line@).subrange(start as int, end as int));
        lemma_encode_between(line@, start as int, end as int);
        lemma_encoding_is_injective(part@, text_between(line@, start as int, end as int));
    }
    part
}

} // verus!
