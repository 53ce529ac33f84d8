//! The mathematical model of text used throughout the crate.
//!
//! A text is a sequence of UTF-8 bytes.  This module defines, over such
//! sequences, the counting functions (characters and line breaks), the
//! position-conversion functions (character index to byte index, line index
//! to byte index, and their inverses), and the notion of a *cut*: a byte
//! offset at which text may be divided without separating the bytes of one
//! code point and without separating a carriage return from a following line
//! feed.  Chunk boundaries in the tree are always cuts.
//!
//! A line break is a line feed, or a carriage return that is not immediately
//! followed by a line feed (so a CR-LF pair counts as a single break, at the
//! line feed).  Because classifying a trailing carriage return needs one byte
//! of lookahead, the line-break count of a concatenation equals the sum of
//! the parts' counts only when the junction does not separate a CR-LF pair;
//! that is exactly the situation the tree's seam invariant maintains.

use vstd::prelude::*;
use vstd::utf8::is_continuation_byte;

verus! {

/// The line feed byte.
pub const LINE_FEED: u8 = 0x0a;

/// The carriage return byte.
pub const CARRIAGE_RETURN: u8 = 0x0d;

/// True when position `j` of `s` carries a line break: a line feed, or a
/// carriage return not immediately followed by a line feed.
pub open spec fn is_line_break_at(s: Seq<u8>, j: int) -> bool {
    &&& 0 <= j < s.len()
    &&& (s[j] == LINE_FEED || (s[j] == CARRIAGE_RETURN && (j + 1 == s.len() || s[j + 1]
        != LINE_FEED)))
}

/// Number of character starts (non-continuation bytes) at positions below `i`.
pub open spec fn chars_upto(s: Seq<u8>, i: int) -> int
    decreases i,
{
    if i <= 0 {
        0
    } else {
        chars_upto(s, i - 1) + if i - 1 < s.len() && !is_continuation_byte(s[i - 1]) {
            1int
        } else {
            0int
        }
    }
}

/// Number of characters in `s`.
pub open spec fn char_count(s: Seq<u8>) -> int {
    chars_upto(s, s.len() as int)
}

/// Number of line breaks at positions below `i`.
pub open spec fn breaks_upto(s: Seq<u8>, i: int) -> int
    decreases i,
{
    if i <= 0 {
        0
    } else {
        breaks_upto(s, i - 1) + if is_line_break_at(s, i - 1) {
            1int
        } else {
            0int
        }
    }
}

/// Number of line breaks in `s`.
pub open spec fn break_count(s: Seq<u8>) -> int {
    breaks_upto(s, s.len() as int)
}

/// Scan of `byte_of_char`: from position `i`, the byte position of the
/// `c`-th character start at or after `i`, or the length of `s` if there is
/// no such character.
pub open spec fn byte_of_char_from(s: Seq<u8>, i: int, c: int) -> int
    decreases s.len() - i,
{
    if i < 0 || i >= s.len() {
        s.len() as int
    } else if !is_continuation_byte(s[i]) {
        if c <= 0 {
            i
        } else {
            byte_of_char_from(s, i + 1, c - 1)
        }
    } else {
        byte_of_char_from(s, i + 1, c)
    }
}

/// Byte position at which the `c`-th character of `s` starts, or the length
/// of `s` when `c` is the character count (or beyond).
pub open spec fn byte_of_char(s: Seq<u8>, c: int) -> int {
    byte_of_char_from(s, 0, c)
}

/// Scan of `byte_of_line`: from position `i`, the byte position just past
/// the `l`-th line break at or after `i`, or the length of `s`.
pub open spec fn byte_of_line_from(s: Seq<u8>, i: int, l: int) -> int
    decreases s.len() - i,
{
    if i < 0 || i >= s.len() {
        s.len() as int
    } else if l <= 0 {
        i
    } else if is_line_break_at(s, i) {
        byte_of_line_from(s, i + 1, l - 1)
    } else {
        byte_of_line_from(s, i + 1, l)
    }
}

/// Byte position at which line `l` of `s` starts: the position just past the
/// `l`-th line break, or the length of `s` when the text has no such break.
pub open spec fn byte_of_line(s: Seq<u8>, l: int) -> int {
    byte_of_line_from(s, 0, l)
}

/// The largest character start at or below `i` (clamped to the length of
/// `s`): a byte position in the middle of a multi-byte character rounds down
/// to the position where that character starts.
pub open spec fn char_floor(s: Seq<u8>, i: int) -> int
    decreases i,
{
    if i <= 0 {
        0
    } else if i >= s.len() {
        s.len() as int
    } else if !is_continuation_byte(s[i]) {
        i
    } else {
        char_floor(s, i - 1)
    }
}

/// Character index of the character that the byte at position `i` belongs to
/// (the character count itself when `i` is the length of `s`).
pub open spec fn char_idx_at(s: Seq<u8>, i: int) -> int {
    chars_upto(s, char_floor(s, i))
}

/// True when `i` is a position at which `s` may be divided: not inside a
/// multi-byte character and not between a carriage return and a line feed.
pub open spec fn cut_ok(s: Seq<u8>, i: int) -> bool {
    &&& 0 <= i <= s.len()
    &&& (i == s.len() || !is_continuation_byte(s[i]))
    &&& !(0 < i < s.len() && s[i - 1] == CARRIAGE_RETURN && s[i] == LINE_FEED)
}

/// True when the junction of adjacent texts `a` and `b` does not separate a
/// CR-LF pair.
pub open spec fn seam_ok(a: Seq<u8>, b: Seq<u8>) -> bool {
    a.len() == 0 || b.len() == 0 || !(a[a.len() - 1] == CARRIAGE_RETURN && b[0] == LINE_FEED)
}

/// Character counts add up over concatenation.
pub proof fn lemma_char_count_concat(a: Seq<u8>, b: Seq<u8>)
    ensures
        char_count(a + b) == char_count(a) + char_count(b),
{
    lemma_chars_upto_concat(a, b, (a.len() + b.len()) as int);
    assert((a + b).len() == a.len() + b.len());
}

/// Line-break counts add up over a seam-clean concatenation.
pub proof fn lemma_break_count_concat(a: Seq<u8>, b: Seq<u8>)
    requires
        seam_ok(a, b),
    ensures
        break_count(a + b) == break_count(a) + break_count(b),
{
    lemma_breaks_upto_concat(a, b, (a.len() + b.len()) as int);
    assert((a + b).len() == a.len() + b.len());
}

/// UTF-8 encoding distributes over concatenation of character sequences.
pub proof fn lemma_encode_concat(a: Seq<char>, b: Seq<char>)
    ensures
        vstd::utf8::encode_utf8(a + b) == vstd::utf8::encode_utf8(a) + vstd::utf8::encode_utf8(b),
    decreases a.len(),
{
    if a.len() == 0 {
        assert(a + b =~= b);
        assert(vstd::utf8::encode_utf8(a) =~= Seq::<u8>::empty());
        assert(vstd::utf8::encode_utf8(a) + vstd::utf8::encode_utf8(b) =~= vstd::utf8::encode_utf8(
            b,
        ));
    } else {
        lemma_encode_concat(a.drop_first(), b);
        assert((a + b).len() > 0);
        assert((a + b)[0] == a[0]);
        assert((a + b).drop_first() =~= a.drop_first() + b);
        assert(vstd::utf8::encode_utf8(a + b) == vstd::utf8::encode_scalar((a + b)[0] as u32)
            + vstd::utf8::encode_utf8((a + b).drop_first()));
        assert(vstd::utf8::encode_utf8(a) + vstd::utf8::encode_utf8(b)
            =~= vstd::utf8::encode_scalar(a[0] as u32) + (vstd::utf8::encode_utf8(a.drop_first())
            + vstd::utf8::encode_utf8(b)));
    }
}

/// `chars_upto` is bounded by the position and by the length of `s`.
pub proof fn lemma_chars_upto_bounds(s: Seq<u8>, i: int)
    ensures
        0 <= chars_upto(s, i),
        i >= 0 ==> chars_upto(s, i) <= i,
        chars_upto(s, i) <= s.len(),
        i >= s.len() ==> chars_upto(s, i) == char_count(s),
    decreases (if i <= 0 { 0int } else { i }),
{
    if i > 0 {
        lemma_chars_upto_bounds(s, i - 1);
        if i > s.len() && i - 1 >= s.len() {
            assert(chars_upto(s, i) == chars_upto(s, i - 1));
        }
    }
}

/// `chars_upto` is monotone in the position.
pub proof fn lemma_chars_upto_monotone(s: Seq<u8>, i: int, j: int)
    requires
        i <= j,
    ensures
        chars_upto(s, i) <= chars_upto(s, j),
        chars_upto(s, j) - chars_upto(s, i) <= j - i,
    decreases j - i,
{
    if i < j {
        lemma_chars_upto_monotone(s, i, j - 1);
    }
}

/// `breaks_upto` is bounded and monotone.
pub proof fn lemma_breaks_upto_bounds(s: Seq<u8>, i: int)
    ensures
        0 <= breaks_upto(s, i),
        i >= 0 ==> breaks_upto(s, i) <= i,
        breaks_upto(s, i) <= s.len(),
        i >= s.len() ==> breaks_upto(s, i) == break_count(s),
    decreases (if i <= 0 { 0int } else { i }),
{
    if i > 0 {
        lemma_breaks_upto_bounds(s, i - 1);
        if i > s.len() {
            assert(!is_line_break_at(s, i - 1));
            assert(breaks_upto(s, i) == breaks_upto(s, i - 1));
        } else {
            assert(breaks_upto(s, i - 1) <= i - 1);
            if is_line_break_at(s, i - 1) {
                assert(i - 1 < s.len());
            }
        }
    }
}

/// `breaks_upto` is monotone in the position.
pub proof fn lemma_breaks_upto_monotone(s: Seq<u8>, i: int, j: int)
    requires
        i <= j,
    ensures
        breaks_upto(s, i) <= breaks_upto(s, j),
        breaks_upto(s, j) - breaks_upto(s, i) <= j - i,
    decreases j - i,
{
    if i < j {
        lemma_breaks_upto_monotone(s, i, j - 1);
    }
}

/// Character counting distributes over concatenation.
pub proof fn lemma_chars_upto_concat(a: Seq<u8>, b: Seq<u8>, i: int)
    ensures
        i <= a.len() ==> chars_upto(a + b, i) == chars_upto(a, i),
        i >= a.len() ==> chars_upto(a + b, i) == char_count(a) + chars_upto(b, i - a.len()),
    decreases (if i <= 0 { 0int } else { i }),
{
    if i > 0 {
        lemma_chars_upto_concat(a, b, i - 1);
        lemma_chars_upto_bounds(a, i - 1);
        if i - 1 < a.len() {
            assert((a + b)[i - 1] == a[i - 1]);
        } else if i - 1 < a.len() + b.len() {
            assert((a + b)[i - 1] == b[i - 1 - a.len()]);
        }
        if i == a.len() {
            lemma_chars_upto_bounds(a, i);
        }
    } else {
        lemma_chars_upto_bounds(a, i);
    }
}

/// Line-break classification agrees between a part and the concatenation,
/// for every position of `a` and `b`, provided the junction is seam-clean.
proof fn lemma_break_at_concat(a: Seq<u8>, b: Seq<u8>, j: int)
    requires
        seam_ok(a, b),
    ensures
        0 <= j < a.len() ==> (is_line_break_at(a + b, j) == is_line_break_at(a, j)),
        a.len() <= j < a.len() + b.len() ==> (is_line_break_at(a + b, j) == is_line_break_at(
            b,
            j - a.len(),
        )),
{
    if 0 <= j < a.len() {
        assert((a + b)[j] == a[j]);
        if j + 1 < a.len() {
            assert((a + b)[j + 1] == a[j + 1]);
        } else if j + 1 < a.len() + b.len() {
            assert((a + b)[j + 1] == b[0]);
        }
    } else if a.len() <= j < a.len() + b.len() {
        assert((a + b)[j] == b[j - a.len()]);
        if j + 1 < a.len() + b.len() {
            assert((a + b)[j + 1] == b[j + 1 - a.len()]);
        }
    }
}

/// Characterization of the `byte_of_char` scan: starting from `i`, the scan
/// stops at a character start, having passed exactly `c` character starts,
/// or reaches the end of the text having passed at most `c`.
pub proof fn lemma_byte_of_char_from(s: Seq<u8>, i: int, c: int)
    requires
        0 <= i <= s.len(),
        c >= 0,
    ensures
        i <= byte_of_char_from(s, i, c) <= s.len(),
        byte_of_char_from(s, i, c) < s.len() ==> {
            &&& !is_continuation_byte(s[byte_of_char_from(s, i, c)])
            &&& chars_upto(s, byte_of_char_from(s, i, c)) - chars_upto(s, i) == c
        },
        byte_of_char_from(s, i, c) == s.len() ==> char_count(s) - chars_upto(s, i) <= c,
    decreases s.len() - i,
{
    lemma_chars_upto_bounds(s, s.len() as int);
    if i < s.len() {
        assert(chars_upto(s, i + 1) == chars_upto(s, i) + if !is_continuation_byte(s[i]) {
            1int
        } else {
            0int
        });
        if !is_continuation_byte(s[i]) {
            if c > 0 {
                lemma_byte_of_char_from(s, i + 1, c - 1);
            }
        } else {
            lemma_byte_of_char_from(s, i + 1, c);
        }
    }
}

/// Characterization of the `byte_of_line` scan: starting from `i`, the scan
/// stops having passed exactly `l` line breaks, or reaches the end of the
/// text having passed at most `l`.
pub proof fn lemma_byte_of_line_from(s: Seq<u8>, i: int, l: int)
    requires
        0 <= i <= s.len(),
        l >= 0,
    ensures
        i <= byte_of_line_from(s, i, l) <= s.len(),
        byte_of_line_from(s, i, l) < s.len() ==> breaks_upto(s, byte_of_line_from(s, i, l))
            - breaks_upto(s, i) == l,
        byte_of_line_from(s, i, l) == s.len() ==> break_count(s) - breaks_upto(s, i) <= l,
    decreases s.len() - i,
{
    lemma_breaks_upto_bounds(s, s.len() as int);
    if i < s.len() && l > 0 {
        assert(breaks_upto(s, i + 1) == breaks_upto(s, i) + if is_line_break_at(s, i) {
            1int
        } else {
            0int
        });
        if is_line_break_at(s, i) {
            lemma_byte_of_line_from(s, i + 1, l - 1);
        } else {
            lemma_byte_of_line_from(s, i + 1, l);
        }
    }
}

/// `char_floor` of a position that is already a character start is that
/// position itself.
pub proof fn lemma_char_floor_at_start(s: Seq<u8>, i: int)
    requires
        0 <= i <= s.len(),
        i == s.len() || !is_continuation_byte(s[i]),
    ensures
        char_floor(s, i) == i,
{
}

/// Converting a character index to its byte position and back returns the
/// original index.
pub proof fn lemma_char_byte_inverse(s: Seq<u8>, c: int)
    requires
        0 <= c <= char_count(s),
    ensures
        char_idx_at(s, byte_of_char(s, c)) == c,
{
    lemma_byte_of_char_from(s, 0, c);
    let r = byte_of_char(s, c);
    lemma_char_floor_at_start(s, r);
    lemma_chars_upto_bounds(s, s.len() as int);
}

/// Converting a line index to the byte position where the line starts and
/// back returns the original index.
pub proof fn lemma_line_byte_inverse(s: Seq<u8>, l: int)
    requires
        0 <= l <= break_count(s),
    ensures
        breaks_upto(s, byte_of_line(s, l)) == l,
{
    lemma_byte_of_line_from(s, 0, l);
}

/// The `char_floor` of any position within one character's bytes is the
/// character's start, so `char_idx_at` differs from `chars_upto` exactly by
/// one inside a multi-byte character.
pub proof fn lemma_char_idx_at_alt(s: Seq<u8>, i: int)
    requires
        0 <= i <= s.len(),
        s.len() > 0 ==> !is_continuation_byte(s[0]),
    ensures
        char_idx_at(s, i) == chars_upto(s, i) - if i < s.len() && is_continuation_byte(s[i]) {
            1int
        } else {
            0int
        },
    decreases i,
{
    if i > 0 && i < s.len() && is_continuation_byte(s[i]) {
        lemma_char_idx_at_alt(s, i - 1);
        assert(char_floor(s, i) == char_floor(s, i - 1));
        assert(chars_upto(s, i) == chars_upto(s, i - 1) + if !is_continuation_byte(s[i - 1]) {
            1int
        } else {
            0int
        });
        if !is_continuation_byte(s[i - 1]) {
            lemma_char_floor_at_start(s, i - 1);
        }
    } else if i > 0 {
        if i < s.len() {
            lemma_char_floor_at_start(s, i);
        }
    }
}

/// `byte_of_char` is monotone in the character index.
pub proof fn lemma_byte_of_char_monotone(s: Seq<u8>, c1: int, c2: int)
    requires
        0 <= c1 <= c2,
    ensures
        byte_of_char(s, c1) <= byte_of_char(s, c2),
{
    lemma_byte_of_char_from(s, 0, c1);
    lemma_byte_of_char_from(s, 0, c2);
    let r1 = byte_of_char(s, c1);
    let r2 = byte_of_char(s, c2);
    if r1 > r2 {
        assert(r2 < s.len());
        assert(chars_upto(s, r2) == c2);
        assert(chars_upto(s, r2 + 1) == c2 + 1);
        if r1 < s.len() {
            lemma_chars_upto_monotone(s, r2 + 1, r1);
            assert(chars_upto(s, r1) == c1);
        } else {
            lemma_chars_upto_monotone(s, r2 + 1, s.len() as int);
        }
    }
}

/// A character boundary is the byte position of the character it starts:
/// converting the count of characters before it back to a byte position
/// returns the boundary itself.
pub proof fn lemma_boundary_inverse(s: Seq<u8>, b: int)
    requires
        0 <= b <= s.len(),
        b == s.len() || !is_continuation_byte(s[b]),
    ensures
        byte_of_char(s, chars_upto(s, b)) == b,
{
    let c = chars_upto(s, b);
    lemma_chars_upto_bounds(s, b);
    lemma_byte_of_char_from(s, 0, c);
    let r = byte_of_char(s, c);
    if r < s.len() {
        assert(chars_upto(s, r) == c);
        if r < b {
            assert(chars_upto(s, r + 1) == c + 1);
            lemma_chars_upto_monotone(s, r + 1, b);
        } else if r > b {
            assert(b < s.len());
            assert(chars_upto(s, b + 1) == c + 1);
            lemma_chars_upto_monotone(s, b + 1, r);
        }
    } else {
        assert(char_count(s) <= c);
        if b < s.len() {
            assert(chars_upto(s, b + 1) == c + 1);
            lemma_chars_upto_monotone(s, b + 1, s.len() as int);
        }
    }
}

/// A character index at or beyond the character count positions at the end
/// of the text.
pub proof fn lemma_byte_of_char_at_end(s: Seq<u8>, c: int)
    requires
        c >= char_count(s),
        c >= 0,
    ensures
        byte_of_char(s, c) == s.len(),
{
    lemma_byte_of_char_from(s, 0, c);
    let r = byte_of_char(s, c);
    if r < s.len() {
        assert(chars_upto(s, r) == c);
        assert(chars_upto(s, r + 1) == c + 1);
        lemma_chars_upto_monotone(s, r + 1, s.len() as int);
    }
}

/// The byte position of a character inside the middle part of a three-way
/// concatenation, when the middle and trailing parts start cleanly.
pub proof fn lemma_byte_of_char_nested(pre: Seq<u8>, mid: Seq<u8>, post: Seq<u8>, rel: int)
    requires
        0 <= rel <= char_count(mid),
        mid.len() > 0,
        !is_continuation_byte(mid[0]),
        post.len() > 0 ==> !is_continuation_byte(post[0]),
    ensures
        byte_of_char(pre + (mid + post), char_count(pre) + rel) == pre.len() + byte_of_char(
            mid,
            rel,
        ),
{
    let c = char_count(pre) + rel;
    let rest = mid + post;
    lemma_chars_upto_bounds(pre, pre.len() as int);
    lemma_chars_upto_bounds(mid, mid.len() as int);
    lemma_byte_of_char_at_end(pre, c);
    assert(rest.len() == 0 || rest[0] == mid[0]);
    lemma_byte_of_char_concat(pre, rest, 0, c);
    assert(byte_of_char(pre + rest, c) == pre.len() + byte_of_char(rest, rel));
    let bb = byte_of_char(mid, rel);
    lemma_byte_of_char_from(mid, 0, rel);
    lemma_byte_of_char_concat(mid, post, 0, rel);
    if bb < mid.len() {
        assert(byte_of_char(rest, rel) == bb);
    } else {
        assert(char_count(mid) <= rel);
        assert(rel == char_count(mid));
        assert(byte_of_char(rest, rel) == mid.len() + byte_of_char(post, rel - char_count(mid)));
        assert(byte_of_char(post, 0) == 0);
    }
}

/// A non-empty text whose last byte is not a continuation byte has that
/// byte as its final, single-byte character.
pub proof fn lemma_last_char_byte(s: Seq<u8>)
    requires
        s.len() > 0,
        !is_continuation_byte(s[s.len() - 1]),
    ensures
        char_count(s) >= 1,
        byte_of_char(s, char_count(s) - 1) == s.len() - 1,
{
    assert(chars_upto(s, s.len() as int) == chars_upto(s, s.len() - 1) + 1);
    lemma_chars_upto_bounds(s, s.len() - 1);
    lemma_byte_of_char_from(s, 0, char_count(s) - 1);
    let r = byte_of_char(s, char_count(s) - 1);
    if r == s.len() {
        assert(char_count(s) <= char_count(s) - 1);
    } else if r < s.len() - 1 {
        assert(chars_upto(s, r) == char_count(s) - 1);
        assert(chars_upto(s, r + 1) == char_count(s));
        lemma_chars_upto_monotone(s, r + 1, s.len() - 1);
    }
}

/// In a text starting with a single-byte character, the second character
/// starts at byte position 1.
pub proof fn lemma_second_char_byte(s: Seq<u8>)
    requires
        s.len() > 0,
        !is_continuation_byte(s[0]),
        s.len() > 1 ==> !is_continuation_byte(s[1]),
    ensures
        byte_of_char(s, 1) == 1,
        char_count(s) >= 1,
{
    assert(byte_of_char(s, 1) == byte_of_char_from(s, 1, 0));
    if s.len() == 1 {
        assert(byte_of_char_from(s, 1, 0) == 1);
    } else {
        assert(byte_of_char_from(s, 1, 0) == 1);
    }
    assert(chars_upto(s, 0) == 0);
    assert(chars_upto(s, 1) == 1);
    lemma_chars_upto_monotone(s, 1, s.len() as int);
}

/// Shifting the `byte_of_char` scan across a concatenation: scanning the
/// concatenation from inside `b` is scanning `b`, displaced by the length of
/// `a`.
proof fn lemma_byte_of_char_shift(a: Seq<u8>, b: Seq<u8>, k: int, c: int)
    requires
        0 <= k <= b.len(),
    ensures
        byte_of_char_from(a + b, a.len() + k, c) == a.len() + byte_of_char_from(b, k, c),
    decreases b.len() - k,
{
    if k < b.len() {
        assert((a + b)[a.len() + k] == b[k]);
        if !is_continuation_byte(b[k]) {
            if c > 0 {
                lemma_byte_of_char_shift(a, b, k + 1, c - 1);
            }
        } else {
            lemma_byte_of_char_shift(a, b, k + 1, c);
        }
    }
}

/// `byte_of_char` localizes across a concatenation: a character index that
/// falls in `a` is positioned within `a`, and one that falls in `b` is
/// positioned within `b`, displaced by the length of `a`.  The second part
/// asks that `b` not begin in the middle of a character.
pub proof fn lemma_byte_of_char_concat(a: Seq<u8>, b: Seq<u8>, i: int, c: int)
    requires
        0 <= i <= a.len(),
        c >= 0,
        b.len() == 0 || !is_continuation_byte(b[0]),
    ensures
        byte_of_char_from(a, i, c) < a.len() ==> byte_of_char_from(a + b, i, c)
            == byte_of_char_from(a, i, c),
        byte_of_char_from(a, i, c) == a.len() ==> byte_of_char_from(a + b, i, c) == a.len()
            + byte_of_char(b, c - (char_count(a) - chars_upto(a, i))),
    decreases a.len() - i,
{
    lemma_byte_of_char_from(a, i, c);
    if i == a.len() {
        lemma_chars_upto_bounds(a, i);
        lemma_byte_of_char_shift(a, b, 0, c);
    } else {
        assert((a + b)[i] == a[i]);
        assert(chars_upto(a, i + 1) == chars_upto(a, i) + if !is_continuation_byte(a[i]) {
            1int
        } else {
            0int
        });
        if !is_continuation_byte(a[i]) {
            if c > 0 {
                lemma_byte_of_char_concat(a, b, i + 1, c - 1);
            }
        } else {
            lemma_byte_of_char_concat(a, b, i + 1, c);
        }
    }
}

/// A line index at or beyond the line-break count positions at the end of
/// the text.
pub proof fn lemma_byte_of_line_at_end(s: Seq<u8>, l: int)
    requires
        l > break_count(s),
    ensures
        byte_of_line(s, l) == s.len(),
{
    lemma_breaks_upto_bounds(s, s.len() as int);
    lemma_byte_of_line_from(s, 0, l);
    let r = byte_of_line(s, l);
    if r < s.len() {
        assert(breaks_upto(s, r) == l);
        lemma_breaks_upto_monotone(s, r, s.len() as int);
    }
}

/// The byte position where a line starts inside the middle part of a
/// three-way concatenation with seam-clean junctions.
pub proof fn lemma_byte_of_line_nested(pre: Seq<u8>, mid: Seq<u8>, post: Seq<u8>, rel: int)
    requires
        1 <= rel <= break_count(mid),
        seam_ok(pre, mid),
        seam_ok(mid, post),
        mid.len() > 0,
    ensures
        byte_of_line(pre + (mid + post), break_count(pre) + rel) == pre.len() + byte_of_line(
            mid,
            rel,
        ),
{
    let l = break_count(pre) + rel;
    let rest = mid + post;
    lemma_breaks_upto_bounds(pre, pre.len() as int);
    lemma_breaks_upto_bounds(mid, mid.len() as int);
    assert(rest.len() == 0 || rest[0] == mid[0]);
    assert(seam_ok(pre, rest));
    lemma_byte_of_line_from(pre, 0, l);
    assert(byte_of_line(pre, l) == pre.len()) by {
        let r = byte_of_line(pre, l);
        if r < pre.len() {
            assert(breaks_upto(pre, r) == l);
            lemma_breaks_upto_monotone(pre, r, pre.len() as int);
        }
    }
    lemma_byte_of_line_concat(pre, rest, 0, l);
    assert(byte_of_line(pre + rest, l) == pre.len() + byte_of_line(rest, rel));
    lemma_byte_of_line_from(mid, 0, rel);
    lemma_byte_of_line_concat(mid, post, 0, rel);
    let bb = byte_of_line(mid, rel);
    if bb < mid.len() {
        assert(byte_of_line(rest, rel) == bb);
    } else {
        assert(break_count(mid) <= rel);
        assert(rel == break_count(mid));
        assert(byte_of_line(rest, rel) == mid.len() + byte_of_line(post, 0));
        assert(byte_of_line(post, 0) == 0 || post.len() == 0);
        if post.len() == 0 {
            assert(byte_of_line(post, 0) == 0);
        }
    }
}

/// Shifting the `byte_of_line` scan across a concatenation.
proof fn lemma_byte_of_line_shift(a: Seq<u8>, b: Seq<u8>, k: int, l: int)
    requires
        0 <= k <= b.len(),
        seam_ok(a, b),
    ensures
        byte_of_line_from(a + b, a.len() + k, l) == a.len() + byte_of_line_from(b, k, l),
    decreases b.len() - k,
{
    if k < b.len() {
        lemma_break_at_concat(a, b, a.len() + k);
        if l > 0 {
            if is_line_break_at(b, k) {
                lemma_byte_of_line_shift(a, b, k + 1, l - 1);
            } else {
                lemma_byte_of_line_shift(a, b, k + 1, l);
            }
        }
    }
}

/// `byte_of_line` localizes across a seam-clean concatenation: a line that
/// starts in `a` is positioned within `a`, and one that starts in `b` is
/// positioned within `b`, displaced by the length of `a`.
pub proof fn lemma_byte_of_line_concat(a: Seq<u8>, b: Seq<u8>, i: int, l: int)
    requires
        0 <= i <= a.len(),
        l >= 0,
        seam_ok(a, b),
    ensures
        byte_of_line_from(a, i, l) < a.len() ==> byte_of_line_from(a + b, i, l)
            == byte_of_line_from(a, i, l),
        byte_of_line_from(a, i, l) == a.len() ==> byte_of_line_from(a + b, i, l) == a.len()
            + byte_of_line(b, l - (break_count(a) - breaks_upto(a, i))),
    decreases a.len() - i,
{
    lemma_byte_of_line_from(a, i, l);
    if i == a.len() {
        lemma_breaks_upto_bounds(a, i);
        lemma_byte_of_line_shift(a, b, 0, l);
    } else {
        lemma_break_at_concat(a, b, i);
        assert(breaks_upto(a, i + 1) == breaks_upto(a, i) + if is_line_break_at(a, i) {
            1int
        } else {
            0int
        });
        if l > 0 {
            if is_line_break_at(a, i) {
                lemma_byte_of_line_concat(a, b, i + 1, l - 1);
            } else {
                lemma_byte_of_line_concat(a, b, i + 1, l);
            }
        } else {
            lemma_byte_of_line_from(a + b, i, l);
        }
    }
}

/// Counting positions inside the middle part of a three-way concatenation:
/// character counts localize unconditionally, line-break counts localize
/// when the junctions are seam-clean.
pub proof fn lemma_counts_in_context(a: Seq<u8>, m: Seq<u8>, c: Seq<u8>, i: int)
    requires
        0 <= i <= m.len(),
    ensures
        chars_upto(a + (m + c), a.len() + i) == char_count(a) + chars_upto(m, i),
        seam_ok(a, m) && seam_ok(m, c) && m.len() > 0 ==> breaks_upto(a + (m + c), a.len() + i)
            == break_count(a) + breaks_upto(m, i),
{
    lemma_chars_upto_concat(a, m + c, a.len() + i);
    lemma_chars_upto_concat(m, c, i);
    if seam_ok(a, m) && seam_ok(m, c) && m.len() > 0 {
        assert((m + c).len() == 0 || (m + c)[0] == m[0]);
        lemma_breaks_upto_concat(a, m + c, a.len() + i);
        lemma_breaks_upto_concat(m, c, i);
    }
}

/// Character counting in a window: counts within the extracted window
/// equal the difference of the counts at its ends.
pub proof fn lemma_chars_window(s: Seq<u8>, a: int, b: int, q: int)
    requires
        0 <= a <= b <= s.len(),
        0 <= q <= b - a,
    ensures
        chars_upto(s.subrange(a, b), q) == chars_upto(s, a + q) - chars_upto(s, a),
    decreases q,
{
    if q > 0 {
        lemma_chars_window(s, a, b, q - 1);
        assert(s.subrange(a, b)[q - 1] == s[a + q - 1]);
    }
}

/// Line-break counting in a window: counts within the extracted window
/// equal the difference of the counts at its ends, as long as the counting
/// position does not reach a window end that separates a CR-LF pair.
pub proof fn lemma_breaks_window(s: Seq<u8>, a: int, b: int, q: int)
    requires
        0 <= a <= b <= s.len(),
        0 <= q <= b - a,
        q == b - a ==> (b == s.len() || b == a || !(s[b - 1] == CARRIAGE_RETURN && s[b]
            == LINE_FEED)),
    ensures
        breaks_upto(s.subrange(a, b), q) == breaks_upto(s, a + q) - breaks_upto(s, a),
    decreases q,
{
    if q > 0 {
        lemma_breaks_window(s, a, b, q - 1);
        let w = s.subrange(a, b);
        assert(w[q - 1] == s[a + q - 1]);
        if q < b - a {
            assert(w[q] == s[a + q]);
        }
        assert(is_line_break_at(w, q - 1) == is_line_break_at(s, a + q - 1));
    }
}

/// Line-break counting in a window whose end separates a CR-LF pair: the
/// window's own count exceeds the in-context difference by exactly one,
/// because the window's final carriage return stands alone.
pub proof fn lemma_breaks_window_split_end(s: Seq<u8>, a: int, b: int)
    requires
        0 <= a < b < s.len(),
        s[b - 1] == CARRIAGE_RETURN,
        s[b] == LINE_FEED,
    ensures
        break_count(s.subrange(a, b)) == breaks_upto(s, b) - breaks_upto(s, a) + 1,
{
    lemma_breaks_window(s, a, b, b - a - 1);
    let w = s.subrange(a, b);
    assert(w[b - a - 1] == s[b - 1]);
    assert(is_line_break_at(w, b - a - 1));
    assert(!is_line_break_at(s, b - 1));
    assert(breaks_upto(w, b - a) == breaks_upto(w, b - a - 1) + 1);
    assert(breaks_upto(s, b) == breaks_upto(s, b - 1));
}

/// A cut of the middle part of a three-way concatenation, with seam-clean
/// junctions and cleanly starting parts, is a cut of the whole.
pub proof fn lemma_cut_in_context(a: Seq<u8>, m: Seq<u8>, c: Seq<u8>, i: int)
    requires
        cut_ok(m, i),
        m.len() > 0,
        seam_ok(a, m),
        seam_ok(m, c),
        !is_continuation_byte(m[0]),
        c.len() > 0 ==> !is_continuation_byte(c[0]),
    ensures
        cut_ok(a + (m + c), a.len() + i),
{
    let w = a + (m + c);
    let p = a.len() + i;
    assert(w.len() == a.len() + m.len() + c.len());
    if i < m.len() {
        assert(w[p] == m[i]);
    } else if c.len() > 0 {
        assert(w[p] == c[0]);
    }
    if p > 0 && p < w.len() {
        if i == 0 {
            assert(w[p - 1] == a[a.len() - 1]);
            assert(w[p] == m[0]);
        } else if i < m.len() {
            assert(w[p - 1] == m[i - 1]);
        } else {
            assert(w[p - 1] == m[m.len() - 1]);
            assert(w[p] == c[0]);
        }
    }
}

/// `char_floor` of a position inside the middle part of a three-way
/// concatenation, when the middle and trailing parts start cleanly.
pub proof fn lemma_char_floor_in_context(a: Seq<u8>, m: Seq<u8>, c: Seq<u8>, i: int)
    requires
        0 <= i <= m.len(),
        m.len() > 0,
        !is_continuation_byte(m[0]),
        c.len() > 0 ==> !is_continuation_byte(c[0]),
    ensures
        char_floor(a + (m + c), a.len() + i) == a.len() + char_floor(m, i),
    decreases i,
{
    let w = a + (m + c);
    assert(w.len() == a.len() + m.len() + c.len());
    if i == m.len() {
        if c.len() == 0 {
            assert(a.len() + i >= w.len());
        } else {
            assert(w[a.len() + i] == c[0]);
            if a.len() + i == 0 {
            }
        }
    } else {
        assert(w[a.len() + i] == m[i]);
        if i == 0 {
        } else if is_continuation_byte(m[i]) {
            lemma_char_floor_in_context(a, m, c, i - 1);
        }
    }
}

/// `char_idx_at` of a position inside the middle part of a three-way
/// concatenation.
pub proof fn lemma_char_idx_in_context(a: Seq<u8>, m: Seq<u8>, c: Seq<u8>, i: int)
    requires
        0 <= i <= m.len(),
        m.len() > 0,
        !is_continuation_byte(m[0]),
        c.len() > 0 ==> !is_continuation_byte(c[0]),
    ensures
        char_idx_at(a + (m + c), a.len() + i) == char_count(a) + char_idx_at(m, i),
{
    lemma_char_floor_in_context(a, m, c, i);
    lemma_char_floor_bounds(m, i);
    lemma_counts_in_context(a, m, c, char_floor(m, i));
}

/// Every position between a byte's character start and the byte itself is
/// a continuation byte.
pub proof fn lemma_char_floor_cont(s: Seq<u8>, i: int)
    requires
        0 <= i < s.len(),
    ensures
        forall|j: int| char_floor(s, i) < j <= i ==> is_continuation_byte(s[j]),
    decreases i,
{
    if i > 0 && is_continuation_byte(s[i]) {
        lemma_char_floor_cont(s, i - 1);
    }
}

/// `char_floor` stays within `[0, min(i, len)]`.
pub proof fn lemma_char_floor_bounds(s: Seq<u8>, i: int)
    ensures
        0 <= char_floor(s, i),
        char_floor(s, i) <= s.len(),
        i >= 0 ==> char_floor(s, i) <= i,
    decreases (if i <= 0 { 0int } else { i }),
{
    if i > 0 && i < s.len() && is_continuation_byte(s[i]) {
        lemma_char_floor_bounds(s, i - 1);
    }
}

/// Line-break counting distributes over concatenation when the junction is
/// seam-clean.
pub proof fn lemma_breaks_upto_concat(a: Seq<u8>, b: Seq<u8>, i: int)
    requires
        seam_ok(a, b),
    ensures
        i <= a.len() ==> breaks_upto(a + b, i) == breaks_upto(a, i),
        i >= a.len() ==> breaks_upto(a + b, i) == break_count(a) + breaks_upto(b, i - a.len()),
    decreases (if i <= 0 { 0int } else { i }),
{
    if i > 0 {
        lemma_breaks_upto_concat(a, b, i - 1);
        lemma_break_at_concat(a, b, i - 1);
        lemma_breaks_upto_bounds(a, i - 1);
        if i == a.len() {
            lemma_breaks_upto_bounds(a, i);
        }
    } else {
        lemma_breaks_upto_bounds(a, i);
    }
}

} // verus!
