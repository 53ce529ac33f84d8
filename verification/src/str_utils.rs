//! Stateless conversions between byte offsets, character offsets and
//! line-break offsets within one contiguous string chunk.
//!
//! These are linear scans over the chunk's bytes; the tree keeps chunks
//! small and bounded, which amortizes their cost.  Every function is a pure
//! computation specified exactly by the counting and position functions of
//! [`crate::text`].

use vstd::prelude::*;
use vstd::utf8::is_continuation_byte;
use vstd::string::StringSliceAdditionalSpecFns;
use crate::text::{
    breaks_upto,
    byte_of_char,
    byte_of_char_from,
    byte_of_line,
    byte_of_line_from,
    char_count,
    char_idx_at,
    chars_upto,
    is_line_break_at,
    lemma_char_idx_at_alt,
    lemma_chars_upto_bounds,
    CARRIAGE_RETURN,
    LINE_FEED,
};

verus! {

/// Counts the characters in `text`.
pub fn count_chars(text: &str) -> (r: usize)
    ensures
        r == char_count(text.spec_bytes()),
{
    let b = text.as_bytes();
    let ghost s = text.spec_bytes();
    let mut i: usize = 0;
    let mut seen: usize = 0;
    while i < b.len()
        invariant
            s == text.spec_bytes(),
            b@ == s,
            0 <= i <= s.len(),
            seen == chars_upto(s, i as int),
            seen <= i,
        decreases s.len() - i,
    {
        if b[i] < 0x80 || b[i] > 0xbf {
            seen = seen + 1;
        }
        i = i + 1;
    }
    seen
}

/// Counts the line breaks in `text`: line feeds, and carriage returns not
/// immediately followed by a line feed.
pub fn count_line_breaks(text: &str) -> (r: usize)
    ensures
        r == crate::text::break_count(text.spec_bytes()),
{
    let b = text.as_bytes();
    let ghost s = text.spec_bytes();
    let mut i: usize = 0;
    let mut seen: usize = 0;
    while i < b.len()
        invariant
            s == text.spec_bytes(),
            b@ == s,
            0 <= i <= s.len(),
            seen == breaks_upto(s, i as int),
            seen <= i,
        decreases s.len() - i,
    {
        let byte = b[i];
        if byte == LINE_FEED {
            seen = seen + 1;
        } else if byte == CARRIAGE_RETURN {
            if i + 1 == b.len() || b[i + 1] != LINE_FEED {
                seen = seen + 1;
            }
        }
        assert(breaks_upto(s, i + 1) == breaks_upto(s, i as int) + if is_line_break_at(s, i as int) {
            1int
        } else {
            0int
        });
        i = i + 1;
    }
    seen
}

/// Converts a byte offset within `text` to the index of the character the
/// byte belongs to.  A byte in the middle of a multi-byte character rounds
/// down to that character's index; the offset one past the end converts to
/// the character count.
pub fn byte_to_char_idx(text: &str, byte_idx: usize) -> (r: usize)
    requires
        byte_idx <= text.spec_bytes().len(),
    ensures
        r == char_idx_at(text.spec_bytes(), byte_idx as int),
{
    let b = text.as_bytes();
    let ghost s = text.spec_bytes();
    proof {
        vstd::utf8::encode_utf8_valid_utf8(text@);
        if s.len() > 0 {
            vstd::utf8::is_char_boundary_iff_not_is_continuation_byte(s, 0);
            assert(vstd::utf8::is_char_boundary(s, 0));
        }
        lemma_char_idx_at_alt(s, byte_idx as int);
    }
    let mut i: usize = 0;
    let mut seen: usize = 0;
    while i < byte_idx
        invariant
            s == text.spec_bytes(),
            b@ == s,
            0 <= i <= byte_idx <= s.len(),
            seen == chars_upto(s, i as int),
            seen <= i,
        decreases byte_idx - i,
    {
        if b[i] < 0x80 || b[i] > 0xbf {
            seen = seen + 1;
        }
        i = i + 1;
    }
    if byte_idx < b.len() && b[byte_idx] >= 0x80 && b[byte_idx] <= 0xbf {
        proof {
            assert(is_continuation_byte(s[byte_idx as int]));
            assert(byte_idx >= 1);
            assert(chars_upto(s, 0) == 0);
            assert(chars_upto(s, 1) == 1);
            crate::text::lemma_chars_upto_monotone(s, 1, byte_idx as int);
        }
        seen - 1
    } else {
        seen
    }
}

/// Converts a character index within `text` to the byte offset where that
/// character starts.  The character count itself converts to the byte
/// length.
pub fn char_to_byte_idx(text: &str, char_idx: usize) -> (r: usize)
    requires
        char_idx <= char_count(text.spec_bytes()),
    ensures
        r == byte_of_char(text.spec_bytes(), char_idx as int),
        r <= text.spec_bytes().len(),
{
    let b = text.as_bytes();
    let ghost s = text.spec_bytes();
    proof {
        lemma_chars_upto_bounds(s, s.len() as int);
    }
    let mut i: usize = 0;
    let mut seen: usize = 0;
    loop
        invariant
            s == text.spec_bytes(),
            b@ == s,
            0 <= i <= s.len(),
            seen == chars_upto(s, i as int),
            seen <= char_idx <= char_count(s),
            seen <= i,
            byte_of_char(s, char_idx as int) == byte_of_char_from(
                s,
                i as int,
                char_idx - seen,
            ),
        decreases s.len() - i,
    {
        if i >= b.len() {
            proof {
                assert(byte_of_char_from(s, i as int, char_idx - seen) == s.len());
            }
            return i;
        }
        let byte = b[i];
        if byte < 0x80 || byte > 0xbf {
            if seen == char_idx {
                proof {
                    assert(!is_continuation_byte(s[i as int]));
                    assert(byte_of_char_from(s, i as int, 0) == i);
                }
                return i;
            }
            seen = seen + 1;
        } else {
            proof {
                assert(byte_of_char_from(s, i as int, char_idx - seen) == byte_of_char_from(
                    s,
                    i + 1,
                    char_idx - seen,
                ));
            }
        }
        i = i + 1;
    }
}

/// Converts a byte offset within `text` to the index of the line that
/// contains it: the number of line breaks completed before the offset.
pub fn byte_to_line_idx(text: &str, byte_idx: usize) -> (r: usize)
    requires
        byte_idx <= text.spec_bytes().len(),
    ensures
        r == breaks_upto(text.spec_bytes(), byte_idx as int),
{
    let b = text.as_bytes();
    let ghost s = text.spec_bytes();
    let mut i: usize = 0;
    let mut seen: usize = 0;
    while i < byte_idx
        invariant
            s == text.spec_bytes(),
            b@ == s,
            0 <= i <= byte_idx <= s.len(),
            seen == breaks_upto(s, i as int),
            seen <= i,
        decreases s.len() - i,
    {
        let byte = b[i];
        if byte == LINE_FEED {
            seen = seen + 1;
        } else if byte == CARRIAGE_RETURN {
            if i + 1 == b.len() || b[i + 1] != LINE_FEED {
                seen = seen + 1;
            }
        }
        assert(breaks_upto(s, i + 1) == breaks_upto(s, i as int) + if is_line_break_at(s, i as int) {
            1int
        } else {
            0int
        });
        i = i + 1;
    }
    seen
}

/// Converts a line index within `text` to the byte offset where that line
/// starts: the position just past the line's preceding break, or the byte
/// length when the text has fewer breaks.
pub fn line_to_byte_idx(text: &str, line_idx: usize) -> (r: usize)
    ensures
        r == byte_of_line(text.spec_bytes(), line_idx as int),
        r <= text.spec_bytes().len(),
{
    let b = text.as_bytes();
    let ghost s = text.spec_bytes();
    let mut i: usize = 0;
    let mut remaining: usize = line_idx;
    loop
        invariant
            s == text.spec_bytes(),
            b@ == s,
            0 <= i <= s.len(),
            0 <= remaining <= line_idx,
            byte_of_line(s, line_idx as int) == byte_of_line_from(s, i as int, remaining as int),
        decreases s.len() - i, remaining,
    {
        if i >= b.len() {
            proof {
                assert(byte_of_line_from(s, i as int, remaining as int) == s.len());
            }
            return i;
        }
        if remaining == 0 {
            proof {
                assert(byte_of_line_from(s, i as int, 0) == i);
            }
            return i;
        }
        let byte = b[i];
        let is_break: bool = if byte == LINE_FEED {
            true
        } else if byte == CARRIAGE_RETURN {
            i + 1 == b.len() || b[i + 1] != LINE_FEED
        } else {
            false
        };
        if is_break {
            remaining = remaining - 1;
        }
        i = i + 1;
    }
}

/// Converts a character index within `text` to the index of the line that
/// contains it.
pub fn char_to_line_idx(text: &str, char_idx: usize) -> (r: usize)
    requires
        char_idx <= char_count(text.spec_bytes()),
    ensures
        r == breaks_upto(text.spec_bytes(), byte_of_char(text.spec_bytes(), char_idx as int)),
{
    let b = char_to_byte_idx(text, char_idx);
    byte_to_line_idx(text, b)
}

/// Converts a line index within `text` to the character index where that
/// line starts.
pub fn line_to_char_idx(text: &str, line_idx: usize) -> (r: usize)
    ensures
        r == char_idx_at(text.spec_bytes(), byte_of_line(text.spec_bytes(), line_idx as int)),
{
    let b = line_to_byte_idx(text, line_idx);
    byte_to_char_idx(text, b)
}

} // verus!
