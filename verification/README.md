# soft_wrap

Soft wrapping of text lines into screen rows, with proofs.

A line is broken into rows of a given width in terminal columns. Rows are broken between grapheme
clusters, between words, or between words with a fallback to clusters where a word is wider than a
row. Tabs lead to the next tab stop; every other character takes the columns that `unicode-width`
gives it. White space that no longer fits behind a row is dropped in part; what is kept of it
leads the next row. Behind a full row its first cluster is dropped. The last row of a word that
was split is shared with the next row where both fit in one, and with white space that would have
a row to itself.

- `src/text.rs`: byte offsets into text, and slicing at them
- `src/segment.rs`: cutting text into clusters and words, by `unicode-segmentation`
- `src/width.rs`: columns that text takes, by `unicode-width`
- `src/rows.rs`, `src/glyph.rs`, `src/word.rs`: rows, and breaking lines into them
- `src/layout.rs`, `src/laws.rs`: what holds of all rows
- `src/wrap.rs`: wrap modes, and the rows of a buffer
- `app/`: the wrap mode as a setting that can be stored

Trusted are the declarations that name functions of the two Unicode crates and
`char::is_whitespace`; everything else in `src/` is verified by Verus.
