//! Pluggable grapheme-cluster segmentation.
//!
//! A [`GraphemeSegmenter`] decides, for a boundary between two pieces of
//! text, whether it is a segment break.  The tree consults a segmenter
//! whenever it must choose a chunk boundary, so that no boundary ever falls
//! inside what the segmenter considers one indivisible unit.  The crate
//! provides [`DefaultSegmenter`] (Unicode extended grapheme clusters),
//! [`NullSegmenter`] (every code point is its own segment), and
//! [`CrlfSegmenter`], which wraps any other segmenter and additionally
//! refuses to break between a carriage return and a line feed.
//!
//! Each segmenter is described by the spec function `seam_break_spec`; the
//! derived search utilities ([`prev_break`], [`next_break`],
//! [`nearest_internal_break`], [`find_good_split`]) are specified exactly
//! against it.

use vstd::prelude::*;
use vstd::string::StringSliceAdditionalSpecFns;
use vstd::utf8::is_continuation_byte;
use core::marker::PhantomData;
use unicode_segmentation::GraphemeCursor;
use crate::text::{cut_ok, CARRIAGE_RETURN, LINE_FEED};

verus! {

/// Whether byte offset `i` of the UTF-8 text `s` is an extended grapheme
/// cluster boundary, as unicode-segmentation's `GraphemeCursor` decides it.
/// The result depends on the bytes and the offset alone.
pub uninterp spec fn grapheme_break_at(s: Seq<u8>, i: int) -> bool;

/// Relies on `unicode_segmentation::GraphemeCursor::is_boundary`: with the
/// whole text supplied as one chunk it returns `Ok`, and says whether the
/// cursor's offset is an extended grapheme cluster boundary of the text.
#[verifier::external_body]
fn grapheme_is_boundary(text: &str, byte_idx: usize) -> (r: bool)
    requires
        byte_idx <= text.spec_bytes().len(),
        vstd::utf8::is_char_boundary(text.spec_bytes(), byte_idx as int),
    ensures
        r == grapheme_break_at(text.spec_bytes(), byte_idx as int),
{
    let mut cursor = GraphemeCursor::new(byte_idx, text.len(), true);
    cursor.is_boundary(text, 0).unwrap()
}

/// Relies on `unicode_segmentation::GraphemeCursor::is_boundary`, applied to
/// the concatenation of the two pieces with the cursor at their junction:
/// it says whether the junction is an extended grapheme cluster boundary of
/// the combined text.
#[verifier::external_body]
fn grapheme_seam_is_boundary(left: &str, right: &str) -> (r: bool)
    requires
        left.spec_bytes().len() > 0,
        right.spec_bytes().len() > 0,
    ensures
        r == grapheme_break_at(
            left.spec_bytes() + right.spec_bytes(),
            left.spec_bytes().len() as int,
        ),
{
    let mut joined = String::new();
    joined.push_str(left);
    joined.push_str(right);
    let mut cursor = GraphemeCursor::new(left.len(), joined.len(), true);
    cursor.is_boundary(&joined, 0).unwrap()
}

/// A grapheme segmentation strategy.
///
/// `seam_break_spec` is the mathematical content of the strategy: whether
/// the junction of two adjacent texts is a segment break.  `seam_is_break`
/// computes it; `is_break` computes it for an interior offset of a single
/// text, and its default body does so by splitting the text at the offset.
pub trait GraphemeSegmenter: Sized {
    /// Whether the junction between adjacent texts `left` and `right` is a
    /// segment break.
    spec fn seam_break_spec(left: Seq<u8>, right: Seq<u8>) -> bool;

    /// Returns whether the boundary between the two given non-empty texts
    /// is a segment break.
    fn seam_is_break(left: &str, right: &str) -> (r: bool)
        requires
            left.spec_bytes().len() > 0,
            right.spec_bytes().len() > 0,
        ensures
            r == Self::seam_break_spec(left.spec_bytes(), right.spec_bytes()),
    ;

    /// Returns whether the given byte offset, which must lie strictly
    /// inside `text` on a code point boundary, is a segment break.
    fn is_break(byte_idx: usize, text: &str) -> (r: bool)
        requires
            0 < byte_idx < text.spec_bytes().len(),
            !is_continuation_byte(text.spec_bytes()[byte_idx as int]),
        ensures
            r == Self::seam_break_spec(
                text.spec_bytes().subrange(0, byte_idx as int),
                text.spec_bytes().subrange(byte_idx as int, text.spec_bytes().len() as int),
            ),
    {
        proof {
            vstd::utf8::encode_utf8_valid_utf8(text@);
            vstd::utf8::is_char_boundary_iff_not_is_continuation_byte(
                text.spec_bytes(),
                byte_idx as int,
            );
        }
        let parts = text.split_at(byte_idx);
        proof {
            let s = text.spec_bytes();
            assert(s.subrange(0, byte_idx as int).len() > 0);
            assert(s.subrange(byte_idx as int, s.len() as int).len() > 0);
        }
        Self::seam_is_break(parts.0, parts.1)
    }
}

/// Whether offset `i` of `s` is a segment break for segmenter `S`: the seam
/// of the text split at `i`.
pub open spec fn seam_break_at<S: GraphemeSegmenter>(s: Seq<u8>, i: int) -> bool {
    S::seam_break_spec(s.subrange(0, i), s.subrange(i, s.len() as int))
}

/// The default grapheme segmenter: Unicode extended grapheme cluster rules,
/// as implemented by the unicode-segmentation crate.
#[derive(Debug, Copy, Clone)]
pub struct DefaultSegmenter {}

impl GraphemeSegmenter for DefaultSegmenter {
    open spec fn seam_break_spec(left: Seq<u8>, right: Seq<u8>) -> bool {
        grapheme_break_at(left + right, left.len() as int)
    }

    fn seam_is_break(left: &str, right: &str) -> (r: bool) {
        grapheme_seam_is_boundary(left, right)
    }

    fn is_break(byte_idx: usize, text: &str) -> (r: bool) {
        proof {
            vstd::utf8::encode_utf8_valid_utf8(text@);
            vstd::utf8::is_char_boundary_iff_not_is_continuation_byte(
                text.spec_bytes(),
                byte_idx as int,
            );
            let s = text.spec_bytes();
            assert(s.subrange(0, byte_idx as int) + s.subrange(byte_idx as int, s.len() as int)
                =~= s);
        }
        grapheme_is_boundary(text, byte_idx)
    }
}

/// A segmenter that ignores graphemes completely and treats each code point
/// as its own segment.
#[derive(Debug, Copy, Clone)]
pub struct NullSegmenter {}

impl GraphemeSegmenter for NullSegmenter {
    open spec fn seam_break_spec(left: Seq<u8>, right: Seq<u8>) -> bool {
        true
    }

    fn seam_is_break(left: &str, right: &str) -> (r: bool) {
        true
    }

    fn is_break(byte_idx: usize, text: &str) -> (r: bool) {
        true
    }
}

/// Layers one more rule on top of any segmenter: the boundary between a
/// carriage return and a line feed is never a break.  The tree always
/// consults its segmenter through this wrapper, so a CR-LF pair is never
/// divided between chunks, whatever segmenter is chosen.
#[derive(Debug)]
pub struct CrlfSegmenter<S: GraphemeSegmenter> {
    marker: PhantomData<S>,
}

impl<S: GraphemeSegmenter> GraphemeSegmenter for CrlfSegmenter<S> {
    open spec fn seam_break_spec(left: Seq<u8>, right: Seq<u8>) -> bool {
        &&& !(left.len() > 0 && right.len() > 0 && left[left.len() - 1] == CARRIAGE_RETURN
            && right[0] == LINE_FEED)
        &&& S::seam_break_spec(left, right)
    }

    fn seam_is_break(left: &str, right: &str) -> (r: bool) {
        let lb = left.as_bytes();
        let rb = right.as_bytes();
        let crlf_free = lb[lb.len() - 1] != CARRIAGE_RETURN || rb[0] != LINE_FEED;
        if crlf_free {
            S::seam_is_break(left, right)
        } else {
            false
        }
    }

    fn is_break(byte_idx: usize, text: &str) -> (r: bool) {
        let b = text.as_bytes();
        let crlf_free = b[byte_idx - 1] != CARRIAGE_RETURN || b[byte_idx] != LINE_FEED;
        proof {
            let s = text.spec_bytes();
            assert(s.subrange(0, byte_idx as int).len() > 0);
            assert(s.subrange(0, byte_idx as int)[byte_idx - 1] == s[byte_idx - 1]);
            assert(s.subrange(byte_idx as int, s.len() as int)[0] == s[byte_idx as int]);
        }
        if crlf_free {
            S::is_break(byte_idx, text)
        } else {
            false
        }
    }
}

/// Whether offset `i` of `s` is a break once the edges are handled: the
/// start and end of the text always are, an offset inside a code point (or
/// out of range) never is, and interior code point boundaries are decided
/// by the segmenter.
pub open spec fn checked_break_spec<S: GraphemeSegmenter>(s: Seq<u8>, i: int) -> bool {
    if i < 0 || i > s.len() {
        false
    } else if i == 0 || i == s.len() {
        true
    } else if is_continuation_byte(s[i]) {
        false
    } else {
        seam_break_at::<S>(s, i)
    }
}

/// Returns whether `byte_idx` is a break in `text`, with the edge cases
/// handled: offsets 0 and `text.len()` are always breaks, and an offset
/// inside a code point never is.
pub fn is_break_checked<S: GraphemeSegmenter>(byte_idx: usize, text: &str) -> (r: bool)
    ensures
        r == checked_break_spec::<S>(text.spec_bytes(), byte_idx as int),
{
    let n = text.as_bytes().len();
    proof {
        vstd::utf8::encode_utf8_valid_utf8(text@);
        let s = text.spec_bytes();
        vstd::utf8::is_char_boundary_start_end_of_seq(s);
        if 0 < byte_idx < s.len() {
            vstd::utf8::is_char_boundary_iff_not_is_continuation_byte(s, byte_idx as int);
        }
    }
    if !text.is_char_boundary(byte_idx) {
        false
    } else if byte_idx == 0 || byte_idx == n {
        true
    } else {
        S::is_break(byte_idx, text)
    }
}

/// Returns whether the boundary between the two given non-empty texts is a
/// segment break.
pub fn seam_is_break_checked<S: GraphemeSegmenter>(left: &str, right: &str) -> (r: bool)
    requires
        left.spec_bytes().len() > 0,
        right.spec_bytes().len() > 0,
    ensures
        r == S::seam_break_spec(left.spec_bytes(), right.spec_bytes()),
{
    S::seam_is_break(left, right)
}

/// The nearest break strictly before `i` (or 0, which is always a break).
pub open spec fn prev_break_spec<S: GraphemeSegmenter>(s: Seq<u8>, i: int) -> int
    decreases (if i <= 0 { 0int } else { i }),
{
    if i <= 0 {
        0
    } else if checked_break_spec::<S>(s, i - 1) {
        i - 1
    } else {
        prev_break_spec::<S>(s, i - 1)
    }
}

/// The nearest break strictly after `i` (or the length of `s`, which is
/// always a break).
pub open spec fn next_break_spec<S: GraphemeSegmenter>(s: Seq<u8>, i: int) -> int
    decreases s.len() - i,
{
    if i < 0 || i >= s.len() {
        s.len() as int
    } else if checked_break_spec::<S>(s, i + 1) {
        i + 1
    } else {
        next_break_spec::<S>(s, i + 1)
    }
}

/// `prev_break_spec` finds a break, at or after 0 and before `i`, with no
/// break between it and `i`.
pub proof fn lemma_prev_break_spec<S: GraphemeSegmenter>(s: Seq<u8>, i: int)
    requires
        0 <= i <= s.len(),
    ensures
        0 <= prev_break_spec::<S>(s, i) <= i,
        i > 0 ==> prev_break_spec::<S>(s, i) < i,
        checked_break_spec::<S>(s, prev_break_spec::<S>(s, i)),
        forall|j: int|
            prev_break_spec::<S>(s, i) < j < i ==> !checked_break_spec::<S>(s, j),
    decreases (if i <= 0 { 0int } else { i }),
{
    if i > 0 && !checked_break_spec::<S>(s, i - 1) {
        lemma_prev_break_spec::<S>(s, i - 1);
    }
}

/// `next_break_spec` finds a break, after `i` and at or before the length
/// of `s`, with no break between `i` and it.
pub proof fn lemma_next_break_spec<S: GraphemeSegmenter>(s: Seq<u8>, i: int)
    requires
        0 <= i <= s.len(),
    ensures
        i <= next_break_spec::<S>(s, i) <= s.len(),
        i < s.len() ==> i < next_break_spec::<S>(s, i),
        checked_break_spec::<S>(s, next_break_spec::<S>(s, i)),
        forall|j: int|
            i < j < next_break_spec::<S>(s, i) ==> !checked_break_spec::<S>(s, j),
    decreases s.len() - i,
{
    if i < s.len() && !checked_break_spec::<S>(s, i + 1) {
        lemma_next_break_spec::<S>(s, i + 1);
    }
}

/// Returns the break before (not including) `byte_idx`, or `byte_idx`
/// itself when it is 0.
pub fn prev_break<S: GraphemeSegmenter>(byte_idx: usize, text: &str) -> (r: usize)
    requires
        byte_idx <= text.spec_bytes().len(),
    ensures
        r == prev_break_spec::<S>(text.spec_bytes(), byte_idx as int),
{
    let ghost s = text.spec_bytes();
    let mut j: usize = byte_idx;
    loop
        invariant
            s == text.spec_bytes(),
            0 <= j <= byte_idx <= s.len(),
            prev_break_spec::<S>(s, byte_idx as int) == prev_break_spec::<S>(s, j as int),
        decreases j,
    {
        if j == 0 {
            return 0;
        }
        j = j - 1;
        if is_break_checked::<S>(j, text) {
            proof {
                assert(prev_break_spec::<S>(s, j + 1) == j);
            }
            return j;
        }
        proof {
            assert(prev_break_spec::<S>(s, j + 1) == prev_break_spec::<S>(s, j as int));
        }
    }
}

/// Returns the break after (not including) `byte_idx`, or `byte_idx`
/// itself when it is the end of the text.
pub fn next_break<S: GraphemeSegmenter>(byte_idx: usize, text: &str) -> (r: usize)
    requires
        byte_idx <= text.spec_bytes().len(),
    ensures
        r == next_break_spec::<S>(text.spec_bytes(), byte_idx as int),
{
    let ghost s = text.spec_bytes();
    let n = text.as_bytes().len();
    let mut j: usize = byte_idx;
    loop
        invariant
            s == text.spec_bytes(),
            n == s.len(),
            0 <= byte_idx <= j <= s.len(),
            next_break_spec::<S>(s, byte_idx as int) == next_break_spec::<S>(s, j as int),
        decreases s.len() - j,
    {
        if j >= n {
            return n;
        }
        if is_break_checked::<S>(j + 1, text) {
            proof {
                assert(next_break_spec::<S>(s, j as int) == j + 1);
            }
            return j + 1;
        }
        proof {
            assert(next_break_spec::<S>(s, j as int) == next_break_spec::<S>(s, j + 1));
        }
        j = j + 1;
    }
}

/// The break nearest `i_raw` that is not an edge of the text, by the
/// search rule of `nearest_internal_break`: the offset rounds down to a
/// code point boundary, the nearest breaks on either side of that boundary
/// are found, and of the two the one closer to the given offset that is
/// not an edge is taken (the right one on a tie).  Only when the whole
/// text is one unbroken segment is the right edge returned.
pub open spec fn nearest_internal_break_spec<S: GraphemeSegmenter>(s: Seq<u8>, i_raw: int) -> int {
    let i = crate::text::char_floor(s, i_raw);
    let left = if checked_break_spec::<S>(s, i) && i != s.len() {
        i
    } else {
        prev_break_spec::<S>(s, i)
    };
    let right = next_break_spec::<S>(s, i);
    if left == 0 || (right != s.len() && (i_raw - left) >= (right - i_raw)) {
        right
    } else {
        left
    }
}

/// Finds the segment break nearest to `byte_idx` that is not the left or
/// right edge of `text`.  Only when the entire text is a single unbroken
/// segment is the right edge returned.
pub fn nearest_internal_break<S: GraphemeSegmenter>(byte_idx: usize, text: &str) -> (r: usize)
    requires
        byte_idx <= text.spec_bytes().len(),
    ensures
        r == nearest_internal_break_spec::<S>(text.spec_bytes(), byte_idx as int),
        checked_break_spec::<S>(text.spec_bytes(), r as int),
        text.spec_bytes().len() > 0 ==> r > 0,
        r == text.spec_bytes().len() ==> forall|j: int|
            0 < j < text.spec_bytes().len() ==> !checked_break_spec::<S>(text.spec_bytes(), j),
{
    let ghost s = text.spec_bytes();
    proof {
        vstd::utf8::encode_utf8_valid_utf8(text@);
    }

    // Round down to a code point boundary.
    let mut i: usize = byte_idx;
    let mut at_start: bool = text.is_char_boundary(i);
    while !at_start
        invariant
            s == text.spec_bytes(),
            vstd::utf8::valid_utf8(s),
            0 <= i <= byte_idx <= s.len(),
            crate::text::char_floor(s, byte_idx as int) == crate::text::char_floor(s, i as int),
            at_start == vstd::utf8::is_char_boundary(s, i as int),
        decreases i,
    {
        proof {
            vstd::utf8::is_char_boundary_start_end_of_seq(s);
            assert(0 < i < s.len());
            vstd::utf8::is_char_boundary_iff_not_is_continuation_byte(s, i as int);
        }
        i = i - 1;
        at_start = text.is_char_boundary(i);
    }
    proof {
        if 0 < i < s.len() {
            vstd::utf8::is_char_boundary_iff_not_is_continuation_byte(s, i as int);
        }
        crate::text::lemma_char_floor_at_start(s, i as int);
    }
    let ghost ifl = i as int;

    // Find the two nearest segment boundaries.
    let n = text.as_bytes().len();
    let left: usize = if i != n && is_break_checked::<S>(i, text) {
        i
    } else {
        prev_break::<S>(i, text)
    };
    let right: usize = next_break::<S>(i, text);
    proof {
        lemma_prev_break_spec::<S>(s, ifl);
        lemma_next_break_spec::<S>(s, ifl);
        // the next break cannot sit inside the character containing the
        // raw offset, so measuring from the raw offset is safe
        if byte_idx < n {
            crate::text::lemma_char_floor_cont(s, byte_idx as int);
            if right <= byte_idx {
                assert(ifl < right as int);
                assert(vstd::utf8::is_continuation_byte(s[right as int]));
                assert(false);
            }
        } else {
            assert(ifl == s.len());
        }
    }

    // Return the closer of the two that is not an edge of the text, unless
    // the whole text is one unbroken segment.
    if left == 0 || (right != n && (byte_idx - left) >= (right - byte_idx)) {
        proof {
            if right == s.len() {
                assert forall|j: int| 0 < j < s.len() implies !checked_break_spec::<S>(s, j) by {
                    if j <= ifl {
                        assert(left == 0);
                        if checked_break_spec::<S>(s, j) {
                            assert(j == ifl || j < ifl);
                            assert(false);
                        }
                    }
                }
            }
        }
        right
    } else {
        left
    }
}

/// The break chosen by `find_good_split`: `i` itself when it is a break;
/// otherwise the nearest break on the biased side, unless that break is the
/// text's edge, in which case the nearest break on the other side.
pub open spec fn find_good_split_spec<S: GraphemeSegmenter>(
    s: Seq<u8>,
    i: int,
    bias_left: bool,
) -> int {
    if checked_break_spec::<S>(s, i) {
        i
    } else {
        let prev = prev_break_spec::<S>(s, i);
        let next = next_break_spec::<S>(s, i);
        if bias_left {
            if prev > 0 {
                prev
            } else {
                next
            }
        } else {
            if next < s.len() {
                next
            } else {
                prev
            }
        }
    }
}

/// Finds a good position to split `text` at, near `byte_idx`: `byte_idx`
/// itself when it is a break, else the nearest break in the biased
/// direction, falling back to the other direction when the biased one
/// reaches the text's edge.
pub fn find_good_split<S: GraphemeSegmenter>(byte_idx: usize, text: &str, bias_left: bool) -> (r:
    usize)
    requires
        byte_idx <= text.spec_bytes().len(),
    ensures
        r == find_good_split_spec::<S>(text.spec_bytes(), byte_idx as int, bias_left),
        checked_break_spec::<S>(text.spec_bytes(), r as int),
        r <= text.spec_bytes().len(),
{
    let ghost s = text.spec_bytes();
    if is_break_checked::<S>(byte_idx, text) {
        byte_idx
    } else {
        let prev = prev_break::<S>(byte_idx, text);
        let next = next_break::<S>(byte_idx, text);
        proof {
            lemma_prev_break_spec::<S>(s, byte_idx as int);
            lemma_next_break_spec::<S>(s, byte_idx as int);
        }
        if bias_left {
            if prev > 0 {
                prev
            } else {
                next
            }
        } else {
            if next < text.as_bytes().len() {
                next
            } else {
                prev
            }
        }
    }
}

/// For the CR-LF-aware segmenter, every break is a position at which text
/// may be divided: not inside a code point, and not between a carriage
/// return and a line feed.
pub proof fn lemma_checked_break_is_cut<S: GraphemeSegmenter>(s: Seq<u8>, i: int)
    requires
        checked_break_spec::<CrlfSegmenter<S>>(s, i),
        s.len() == 0 || !is_continuation_byte(s[0]),
    ensures
        cut_ok(s, i),
{
    if 0 < i < s.len() {
        assert(s.subrange(0, i)[i - 1] == s[i - 1]);
        assert(s.subrange(i, s.len() as int)[0] == s[i]);
    }
}

} // verus!
