//! How many screen columns text takes.

use unicode_width::UnicodeWidthChar;
use vstd::arithmetic::div_mod::{lemma_div_is_ordered, lemma_fundamental_div_mod};
use vstd::arithmetic::mul::lemma_mul_inequality;
use vstd::prelude::*;
use vstd::string::*;

verus! {

/// The width that `UnicodeWidthChar::width` gives.
pub uninterp spec fn unicode_char_width(c: char) -> Option<usize>;

/// `UnicodeWidthChar::width`: the columns that `c` takes, or `None` for a control character.
/// Trusted: the width depends on `c` alone, and below U+00A0 it is one column for the printable
/// ASCII characters and `None` for all others; from there on every character has a width.
#[verifier::external_body]
fn char_width(c: char) -> (width: Option<usize>)
    ensures
        width == unicode_char_width(c),
        ' ' <= c <= '~' ==> width == Some(1usize),
        c <= '\u{1f}' || '\u{7f}' <= c <= '\u{9f}' ==> width is None,
        c >= '\u{a0}' ==> width is Some,
{
    UnicodeWidthChar::width(c)
}

/// The columns that a character other than a tab takes; control characters take none.
pub open spec fn char_columns(c: char) -> nat {
    if c >= '\u{a0}' {
        match unicode_char_width(c) {
            Some(width) => width as nat,
            None => 0,
        }
    } else if ' ' <= c <= '~' {
        1
    } else {
        0
    }
}

/// The column after `c` where `c` stands at column `col`. A tab leads to the next tab stop; with
/// a tab length of zero it takes no column.
pub open spec fn advance(col: nat, c: char, tab_len: u8) -> nat {
    if c != '\t' {
        col + char_columns(c)
    } else if tab_len > 0 {
        (col - col % (tab_len as nat) + tab_len) as nat
    } else {
        col
    }
}

/// The column after `text` where `text` starts at column `col`.
pub open spec fn display_end(text: Seq<char>, col: nat, tab_len: u8) -> nat
    decreases text.len(),
{
    if text.len() == 0 {
        col
    } else {
        advance(display_end(text.drop_last(), col, tab_len), text.last(), tab_len)
    }
}

/// Text never leads back.
pub proof fn lemma_display_end_grows(text: Seq<char>, col: nat, tab_len: u8)
    ensures
        col <= display_end(text, col, tab_len),
    decreases text.len(),
{
    if text.len() > 0 {
        lemma_display_end_grows(text.drop_last(), col, tab_len);
    }
}

/// The column after two texts is found by going through the one and then through the other.
pub proof fn lemma_display_end_concat(a: Seq<char>, b: Seq<char>, col: nat, tab_len: u8)
    ensures
        display_end(a + b, col, tab_len) == display_end(
            b,
            display_end(a, col, tab_len),
            tab_len,
        ),
    decreases b.len(),
{
    if b.len() > 0 {
        lemma_display_end_concat(a, b.drop_last(), col, tab_len);
        assert((a + b).drop_last() =~= a + b.drop_last());
    }
}

/// Text that starts farther to the right does not end farther to the left.
pub proof fn lemma_display_end_ordered(text: Seq<char>, a: nat, b: nat, tab_len: u8)
    requires
        a <= b,
    ensures
        display_end(text, a, tab_len) <= display_end(text, b, tab_len),
    decreases text.len(),
{
    if text.len() > 0 {
        lemma_display_end_ordered(text.drop_last(), a, b, tab_len);
        let x = display_end(text.drop_last(), a, tab_len);
        let y = display_end(text.drop_last(), b, tab_len);
        if tab_len > 0 {
            let tab = tab_len as int;
            lemma_fundamental_div_mod(x as int, tab);
            lemma_fundamental_div_mod(y as int, tab);
            lemma_div_is_ordered(x as int, y as int, tab);
            lemma_mul_inequality(x as int / tab, y as int / tab, tab);
        }
    }
}

/// The columns up to some character are no more than those up to the end.
proof fn lemma_display_end_prefix(text: Seq<char>, n: int, col: nat, tab_len: u8)
    requires
        0 <= n <= text.len(),
    ensures
        display_end(text.take(n), col, tab_len) <= display_end(text, col, tab_len),
{
    lemma_display_end_concat(text.take(n), text.skip(n), col, tab_len);
    lemma_display_end_grows(text.skip(n), display_end(text.take(n), col, tab_len), tab_len);
    assert(text.take(n) + text.skip(n) =~= text);
}

/// The column after `text` where `text` starts at column `width`, or `None` where it cannot be
/// counted in a `usize`.
pub fn checked_display_width_to(text: &str, width: usize, tab_len: u8) -> (end: Option<usize>)
    ensures
        match end {
            Some(end) => end == display_end(text@, width as nat, tab_len),
            None => display_end(text@, width as nat, tab_len) > usize::MAX,
        },
{
    let mut end: usize = width;
    for c in it: text.chars()
        invariant
            it.seq() == text@,
            end == display_end(text@.take(it.index() as int), width as nat, tab_len),
    {
        let ghost i = it.index() as int;
        proof {
            lemma_display_end_prefix(text@, i + 1, width as nat, tab_len);
            assert(text@.take(i + 1).drop_last() =~= text@.take(i));
        }
        let columns: usize = if c != '\t' {
            char_width(c).unwrap_or(0)
        } else if tab_len > 0 {
            tab_len as usize - end % tab_len as usize
        } else {
            0
        };
        match end.checked_add(columns) {
            Some(next) => {
                end = next;
            },
            None => {
                return None;
            },
        }
    }
    assert(text@.take(text@.len() as int) =~= text@);
    Some(end)
}

/// The column after `text` where `text` starts at column `width`.
pub fn display_width_to(text: &str, width: usize, tab_len: u8) -> (end: usize)
    requires
        display_end(text@, width as nat, tab_len) <= usize::MAX,
    ensures
        end == display_end(text@, width as nat, tab_len),
{
    checked_display_width_to(text, width, tab_len).unwrap()
}

/// The columns that `text` takes where it starts at column `start_width`.
pub fn display_width_from(text: &str, start_width: usize, tab_len: u8) -> (width: usize)
    requires
        display_end(text@, start_width as nat, tab_len) <= usize::MAX,
    ensures
        start_width + width == display_end(text@, start_width as nat, tab_len),
{
    proof {
        lemma_display_end_grows(text@, start_width as nat, tab_len);
    }
    display_width_to(text, start_width, tab_len).saturating_sub(start_width)
}

/// The columns that `text` takes where it starts at column `start_width`, or `None` where the
/// column after it cannot be counted in a `usize`.
pub fn checked_display_width_from(text: &str, start_width: usize, tab_len: u8) -> (width: Option<
    usize,
>)
    ensures
        match width {
            Some(width) => start_width + width == display_end(
                text@,
                start_width as nat,
                tab_len,
            ),
            None => display_end(text@, start_width as nat, tab_len) > usize::MAX,
        },
{
    if checked_display_width_to(text, start_width, tab_len).is_some() {
        Some(display_width_from(text, start_width, tab_len))
    } else {
        None
    }
}

} // verus!
