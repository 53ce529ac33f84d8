//! An immutable view into part of a rope.
//!
//! A slice behaves as if the text in its range were the only text that
//! exists: all indexing is relative to the slice's start, and everything a
//! slice returns is clipped to its range.  A slice borrows the rope's tree;
//! it never copies text.  Small ranges that collapse into a single chunk
//! are represented as a direct borrow of that chunk's text.

use vstd::prelude::*;
use vstd::string::StringSliceAdditionalSpecFns;
use std::sync::Arc;
use core::marker::PhantomData;
use crate::segmentation::{DefaultSegmenter, GraphemeSegmenter};
use crate::text::{
    break_count,
    breaks_upto,
    byte_of_char,
    byte_of_line,
    char_count,
    char_idx_at,
    chars_upto,
    CARRIAGE_RETURN,
    LINE_FEED,
};
use crate::tree::{
    arc_node,
    chunk_result_ok,
    get_chunk_at_byte,
    get_chunk_at_char,
    get_chunk_at_line_break,
    is_leaf,
    node_info,
    node_text,
    node_wf,
    sub_str,
    Node,
};
use crate::rope::Rope;

verus! {

#[verifier::external_type_specification]
pub struct ExRangeTo<Idx>(core::ops::RangeTo<Idx>);

#[verifier::external_type_specification]
pub struct ExRangeFrom<Idx>(core::ops::RangeFrom<Idx>);

#[verifier::external_type_specification]
pub struct ExRangeFull(core::ops::RangeFull);

/// Generalizes over the range forms usable with `a..b` syntax when
/// expressing character ranges.
pub trait CharIdxRange: Sized {
    /// The range's lower bound, when it has one.
    spec fn start_spec(self) -> Option<usize>;

    /// The range's upper bound, when it has one.
    spec fn end_spec(self) -> Option<usize>;

    /// Returns the range's lower bound.
    fn start(&self) -> (r: Option<usize>)
        ensures
            r == self.start_spec(),
    ;

    /// Returns the range's upper bound.
    fn end(&self) -> (r: Option<usize>)
        ensures
            r == self.end_spec(),
    ;
}

impl CharIdxRange for core::ops::Range<usize> {
    open spec fn start_spec(self) -> Option<usize> {
        Option::Some(self.start)
    }

    open spec fn end_spec(self) -> Option<usize> {
        Option::Some(self.end)
    }

    fn start(&self) -> (r: Option<usize>) {
        Option::Some(self.start)
    }

    fn end(&self) -> (r: Option<usize>) {
        Option::Some(self.end)
    }
}

impl CharIdxRange for core::ops::RangeTo<usize> {
    open spec fn start_spec(self) -> Option<usize> {
        Option::None
    }

    open spec fn end_spec(self) -> Option<usize> {
        Option::Some(self.end)
    }

    fn start(&self) -> (r: Option<usize>) {
        Option::None
    }

    fn end(&self) -> (r: Option<usize>) {
        Option::Some(self.end)
    }
}

impl CharIdxRange for core::ops::RangeFrom<usize> {
    open spec fn start_spec(self) -> Option<usize> {
        Option::Some(self.start)
    }

    open spec fn end_spec(self) -> Option<usize> {
        Option::None
    }

    fn start(&self) -> (r: Option<usize>) {
        Option::Some(self.start)
    }

    fn end(&self) -> (r: Option<usize>) {
        Option::None
    }
}

impl CharIdxRange for core::ops::RangeFull {
    open spec fn start_spec(self) -> Option<usize> {
        Option::None
    }

    open spec fn end_spec(self) -> Option<usize> {
        Option::None
    }

    fn start(&self) -> (r: Option<usize>) {
        Option::None
    }

    fn end(&self) -> (r: Option<usize>) {
        Option::None
    }
}

/// The character position a range starts at: its lower bound, or 0.
pub open spec fn range_start_of<R: CharIdxRange>(r: R) -> int {
    match r.start_spec() {
        Option::Some(v) => v as int,
        Option::None => 0,
    }
}

/// The character position a range ends at: its upper bound, or the length
/// it is applied to.
pub open spec fn range_end_of<R: CharIdxRange>(r: R, len: int) -> int {
    match r.end_spec() {
        Option::Some(v) => v as int,
        Option::None => len,
    }
}

/// The two representations of a slice: a clipped range over a shared tree
/// node, or a direct borrow of one chunk's text.
enum SliceInner<'a> {
    Full {
        node: &'a Arc<Node>,
        start_byte: usize,
        end_byte: usize,
        start_char: usize,
        end_char: usize,
        start_line_break: usize,
        end_line_break: usize,
    },
    Light { text: &'a str, char_count: usize, line_break_count: usize },
}

/// An immutable view into part of a rope.
pub struct RopeSlice<'a, S: GraphemeSegmenter = DefaultSegmenter> {
    inner: SliceInner<'a>,
    marker: PhantomData<S>,
}

impl<'a, S: GraphemeSegmenter> View for RopeSlice<'a, S> {
    type V = Seq<u8>;

    closed spec fn view(&self) -> Seq<u8> {
        self.base().subrange(self.start_off(), self.end_off())
    }
}

impl<'a, S: GraphemeSegmenter> RopeSlice<'a, S> {
    /// The text the slice is carved from: the borrowed subtree's text, or
    /// the borrowed chunk itself.
    pub closed spec fn base(self) -> Seq<u8> {
        match self.inner {
            SliceInner::Full { node, .. } => node_text(*node),
            SliceInner::Light { text, .. } => text.spec_bytes(),
        }
    }

    /// Where the slice's range starts within its base text.
    pub closed spec fn start_off(self) -> int {
        match self.inner {
            SliceInner::Full { start_byte, .. } => start_byte as int,
            SliceInner::Light { .. } => 0,
        }
    }

    /// Where the slice's range ends within its base text.
    pub closed spec fn end_off(self) -> int {
        match self.inner {
            SliceInner::Full { end_byte, .. } => end_byte as int,
            SliceInner::Light { text, .. } => text.spec_bytes().len() as int,
        }
    }

    /// Whether the slice's content is held as one contiguous borrowed
    /// string, rather than as a range over a shared tree.
    pub closed spec fn is_contiguous(self) -> bool {
        self.inner is Light
    }

    /// Every slice satisfies its structural invariant.
    #[verifier::type_invariant]
    pub(crate) closed spec fn type_inv(self) -> bool {
        self.wf()
    }

    /// The slice's structural invariant: the stored offsets and counts
    /// describe its range of the base text exactly.
    pub closed spec fn wf(self) -> bool {
        match self.inner {
            SliceInner::Full {
                node,
                start_byte,
                end_byte,
                start_char,
                end_char,
                start_line_break,
                end_line_break,
            } => {
                let t = node_text(*node);
                &&& node_wf::<S>(*node)
                &&& !is_leaf(*node)
                &&& t.len() < usize::MAX
                &&& start_char <= end_char <= char_count(t)
                &&& start_byte == byte_of_char(t, start_char as int)
                &&& end_byte == byte_of_char(t, end_char as int)
                &&& start_byte <= end_byte <= t.len()
                &&& start_char == chars_upto(t, start_byte as int)
                &&& end_char == chars_upto(t, end_byte as int)
                &&& start_line_break == breaks_upto(t, start_byte as int)
                &&& end_line_break == start_line_break + break_count(
                    t.subrange(start_byte as int, end_byte as int),
                )
            },
            SliceInner::Light { text, char_count: cc, line_break_count: lbc } => {
                let tb = text.spec_bytes();
                &&& cc == char_count(tb)
                &&& tb.len() < usize::MAX
                &&& lbc == break_count(tb)
            },
        }
    }

    /// Creates a slice directly from a string slice.  The slice observes
    /// the string as its whole content.
    pub fn from_str(text: &'a str) -> (r: Self)
        requires
            text.spec_bytes().len() < usize::MAX,
        ensures
            r.wf(),
            r@ == text.spec_bytes(),
            r.is_contiguous(),
    {
        let cc = crate::str_utils::count_chars(text);
        let lbc = crate::str_utils::count_line_breaks(text);
        let r = RopeSlice {
            inner: SliceInner::Light { text, char_count: cc, line_break_count: lbc },
            marker: PhantomData,
        };
        proof {
            assert(r@ =~= text.spec_bytes());
        }
        r
    }

    /// Total number of bytes in the slice.
    pub fn len_bytes(&self) -> (r: usize)
        requires
            self.wf(),
        ensures
            r == self@.len(),
    {
        match &self.inner {
            SliceInner::Full { start_byte, end_byte, .. } => *end_byte - *start_byte,
            SliceInner::Light { text, .. } => text.as_bytes().len(),
        }
    }

    /// Total number of characters in the slice.
    pub fn len_chars(&self) -> (r: usize)
        requires
            self.wf(),
        ensures
            r == char_count(self@),
    {
        match &self.inner {
            SliceInner::Full { node, start_byte, end_byte, start_char, end_char, .. } => {
                proof {
                    let t = node_text(**node);
                    crate::text::lemma_chars_window(
                        t,
                        *start_byte as int,
                        *end_byte as int,
                        *end_byte - *start_byte,
                    );
                    assert(t.subrange(*start_byte as int, *end_byte as int) =~= self@);
                    assert(char_count(self@) == chars_upto(t, *end_byte as int) - chars_upto(
                        t,
                        *start_byte as int,
                    ));
                }
                *end_char - *start_char
            },
            SliceInner::Light { text, char_count: cc, .. } => {
                proof {
                    assert(self@ =~= text.spec_bytes());
                }
                *cc
            },
        }
    }

    /// Total number of lines in the slice: one more than the number of
    /// line breaks in its content, so that a slice always behaves like a
    /// standalone rope over the same text.
    pub fn len_lines(&self) -> (r: usize)
        requires
            self.wf(),
        ensures
            r == break_count(self@) + 1,
    {
        proof {
            crate::text::lemma_breaks_upto_bounds(self@, self@.len() as int);
        }
        match &self.inner {
            SliceInner::Full { node, start_byte, end_byte, start_line_break, end_line_break, .. } => {
                proof {
                    let t = node_text(**node);
                    assert(t.subrange(*start_byte as int, *end_byte as int) =~= self@);
                    crate::text::lemma_breaks_upto_bounds(t, *end_byte as int);
                }
                (*end_line_break - *start_line_break) + 1
            },
            SliceInner::Light { text, line_break_count, .. } => {
                proof {
                    assert(self@ =~= text.spec_bytes());
                }
                *line_break_count + 1
            },
        }
    }

    /// Returns the entire contents of the slice as a string slice: the
    /// whole content exactly when the slice is contiguous in memory, and
    /// nothing otherwise.
    pub fn as_str(&self) -> (r: Option<&'a str>)
        requires
            self.wf(),
        ensures
            r is Some <==> self.is_contiguous(),
            match r {
                Option::Some(s) => s.spec_bytes() == self@,
                Option::None => true,
            },
    {
        match &self.inner {
            SliceInner::Full { .. } => Option::None,
            SliceInner::Light { text, .. } => {
                proof {
                    assert(text.spec_bytes() =~= self@);
                }
                Option::Some(*text)
            },
        }
    }
}

/// The byte at a position of a node's text.
fn node_byte<S: GraphemeSegmenter>(node: &Arc<Node>, i: usize) -> (r: u8)
    requires
        is_leaf(*node) || node_wf::<S>(*node),
        i < node_text(*node).len(),
        node_text(*node).len() <= usize::MAX,
    ensures
        r == node_text(*node)[i as int],
{
    let ck = get_chunk_at_byte::<S>(node, i);
    let b = ck.0.as_bytes();
    proof {
        assert(ck.0.spec_bytes()[i - ck.1] == node_text(*node)[i as int]);
    }
    b[i - ck.1]
}

/// The byte offset and the line index at a character position of a node's
/// text.
#[verifier::rlimit(100)]
fn char_to_byte_line<S: GraphemeSegmenter>(node: &Arc<Node>, c: usize) -> (r: (usize, usize))
    requires
        is_leaf(*node) || node_wf::<S>(*node),
        c <= char_count(node_text(*node)),
        node_text(*node).len() <= usize::MAX,
    ensures
        r.0 == byte_of_char(node_text(*node), c as int),
        r.1 == breaks_upto(node_text(*node), r.0 as int),
{
    let ghost t = node_text(*node);
    let sub = get_chunk_at_char::<S>(node, c);
    let ghost cb = sub.1 as int;
    let ghost cl = sub.0.spec_bytes().len() as int;
    proof {
        crate::text::lemma_byte_of_char_from(t, 0, c as int);
        lemma_chunk_window_facts(t, sub.0.spec_bytes(), cb, sub.2 as int, sub.3 as int);
        assert(t.subrange(0, cb) + (sub.0.spec_bytes() + t.subrange(cb + cl, t.len() as int))
            =~= t);
        if cl > 0 {
            crate::text::lemma_byte_of_char_nested(
                t.subrange(0, cb),
                sub.0.spec_bytes(),
                t.subrange(cb + cl, t.len() as int),
                c - sub.2,
            );
        } else {
            assert(t.len() == 0);
            assert(byte_of_char(t, c as int) == 0);
        }
    }
    let b = sub.1 + crate::str_utils::char_to_byte_idx(sub.0, c - sub.2);
    let ghost rel = byte_of_char(sub.0.spec_bytes(), c - sub.2);
    proof {
        crate::text::lemma_counts_in_context(
            t.subrange(0, cb),
            sub.0.spec_bytes(),
            t.subrange(cb + cl, t.len() as int),
            rel,
        );
        crate::text::lemma_byte_of_char_from(sub.0.spec_bytes(), 0, c - sub.2);
        crate::text::lemma_breaks_upto_bounds(t, b as int);
        crate::text::lemma_breaks_upto_bounds(sub.0.spec_bytes(), rel);
        assert(sub.3 + breaks_upto(sub.0.spec_bytes(), rel) == breaks_upto(t, cb + rel));
    }
    let l = sub.3 + crate::str_utils::byte_to_line_idx(sub.0, b - sub.1);
    (b, l)
}

/// Facts about a chunk window inside a text: the window's own counts align
/// with the context counts, its parts are clean, and its junctions are
/// seam-clean.
proof fn lemma_chunk_window_facts(t: Seq<u8>, chunk: Seq<u8>, cb: int, cc: int, cl0: int)
    requires
        chunk_result_ok(t, chunk, cb, cc, cl0),
    ensures
        chunk.len() > 0 ==> !vstd::utf8::is_continuation_byte(chunk[0]),
        cb + chunk.len() < t.len() ==> !vstd::utf8::is_continuation_byte(
            t.subrange(cb + chunk.len(), t.len() as int)[0],
        ),
        crate::text::seam_ok(t.subrange(0, cb), chunk),
        crate::text::seam_ok(chunk, t.subrange(cb + chunk.len(), t.len() as int)),
        char_count(t.subrange(0, cb)) == cc,
        break_count(t.subrange(0, cb)) == cl0,
        char_count(chunk) == chars_upto(t, cb + chunk.len()) - cc,
        break_count(chunk) == breaks_upto(t, cb + chunk.len()) - cl0,
{
    let ce = cb + chunk.len();
    crate::text::lemma_chars_window(t, 0, cb, cb);
    crate::text::lemma_breaks_window(t, 0, cb, cb);
    assert(t.subrange(0, cb).subrange(0, cb) =~= t.subrange(0, cb));
    crate::text::lemma_chars_window(t, cb, ce, chunk.len() as int);
    crate::text::lemma_breaks_window(t, cb, ce, chunk.len() as int);
    if chunk.len() > 0 {
        assert(chunk[0] == t[cb]);
    }
    if ce < t.len() {
        assert(t.subrange(ce, t.len() as int)[0] == t[ce]);
    }
    if cb > 0 && chunk.len() > 0 {
        assert(t.subrange(0, cb)[cb - 1] == t[cb - 1]);
    }
    if ce < t.len() && chunk.len() > 0 {
        assert(chunk[chunk.len() - 1] == t[ce - 1]);
    }
}

impl<'a, S: GraphemeSegmenter> RopeSlice<'a, S> {
    /// Builds a slice over the character range `[start, end)` of a tree.
    /// The slice keeps a reference to the deepest node that still contains
    /// the whole range, so that repeated re-slicing stays cheap, and
    /// collapses to a direct text borrow when the range falls within one
    /// chunk.
    #[verifier::rlimit(100)]
    pub(crate) fn new_with_range(node: &'a Arc<Node>, start: usize, end: usize) -> (r: Self)
        requires
            is_leaf(*node) || node_wf::<S>(*node),
            node_text(*node).len() < usize::MAX,
            start <= end <= char_count(node_text(*node)),
        ensures
            r.wf(),
            r@ == node_text(*node).subrange(
                byte_of_char(node_text(*node), start as int),
                byte_of_char(node_text(*node), end as int),
            ),
    {
        let ghost t0 = node_text(*node);
        let mut n_start = start;
        let mut n_end = end;
        let mut cur: &'a Arc<Node> = node;
        let ghost mut pre: Seq<u8> = Seq::empty();
        let ghost mut post: Seq<u8> = Seq::empty();
        proof {
            assert(t0 =~= pre + (node_text(*cur) + post));
            if is_leaf(*node) {
                vstd::utf8::encode_utf8_valid_utf8(crate::tree::leaf_chars(*node));
                if t0.len() > 0 {
                    vstd::utf8::is_char_boundary_start_end_of_seq(t0);
                    vstd::utf8::is_char_boundary_iff_not_is_continuation_byte(t0, 0);
                }
            } else {
                crate::tree::lemma_node_text_valid::<S>(*node);
            }
            assert(byte_of_char(t0, 0) == 0);
        }
        loop
            invariant_except_break
                is_leaf(*cur) || node_wf::<S>(*cur),
                n_start <= n_end <= char_count(node_text(*cur)),
                t0 == pre + (node_text(*cur) + post),
                t0.len() < usize::MAX,
                crate::text::seam_ok(pre, node_text(*cur)),
                crate::text::seam_ok(node_text(*cur), post),
                node_text(*cur).len() > 0 ==> !vstd::utf8::is_continuation_byte(
                    node_text(*cur)[0],
                ),
                post.len() > 0 ==> !vstd::utf8::is_continuation_byte(post[0]),
                char_count(pre) == start - n_start,
                break_count(pre) == breaks_upto(t0, pre.len() as int),
                pre.len() == byte_of_char(t0, (start - n_start) as int),
                byte_of_char(t0, start as int) == pre.len() + byte_of_char(
                    node_text(*cur),
                    n_start as int,
                ),
                byte_of_char(t0, end as int) == pre.len() + byte_of_char(
                    node_text(*cur),
                    n_end as int,
                ),
            ensures
                is_leaf(*cur) || node_wf::<S>(*cur),
                n_start <= n_end <= char_count(node_text(*cur)),
                t0 == pre + (node_text(*cur) + post),
                byte_of_char(t0, start as int) == pre.len() + byte_of_char(
                    node_text(*cur),
                    n_start as int,
                ),
                byte_of_char(t0, end as int) == pre.len() + byte_of_char(
                    node_text(*cur),
                    n_end as int,
                ),
                crate::text::seam_ok(pre, node_text(*cur)),
                crate::text::seam_ok(node_text(*cur), post),
                node_text(*cur).len() > 0 ==> !vstd::utf8::is_continuation_byte(
                    node_text(*cur)[0],
                ),
                post.len() > 0 ==> !vstd::utf8::is_continuation_byte(post[0]),
                char_count(pre) == start - n_start,
                break_count(pre) == breaks_upto(t0, pre.len() as int),
            decreases node_text(*cur).len(),
        {
            let ghost tc = node_text(*cur);
            let mut descend: bool = false;
            let mut target: usize = 0;
            let mut acc_chars: usize = 0;
            let mut acc_bytes: usize = 0;
            match arc_node(cur) {
                Node::Leaf(_) => {
                    break ;
                },
                Node::Internal(b) => {
                    proof {
                        crate::tree::lemma_texts_from_is_between(crate::tree::kids(*cur), 0);
                        assert(crate::tree::texts_between(crate::tree::kids(*cur), 0, 0)
                            =~= Seq::<u8>::empty());
                    }
                    let ghost cs = crate::tree::kids(*cur);
                    let ghost info = crate::tree::kid_info(*cur);
                    let nch = b.children.len();
                    let mut k: usize = 0;
                    loop
                        invariant_except_break
                            k < nch,
                            node_wf::<S>(*cur),
                            cs == crate::tree::kids(*cur),
                            info == crate::tree::kid_info(*cur),
                            (*(*cur)) matches Node::Internal(bb) && bb.info@ == info
                                && bb.children@ == cs,
                            b.info@ == info,
                            b.children@ == cs,
                            tc == node_text(*cur),
                            tc == crate::tree::texts_from(cs, 0),
                            tc.len() < usize::MAX,
                            nch == cs.len(),
                            0 <= k <= cs.len(),
                            acc_bytes == crate::tree::texts_between(cs, 0, k as int).len(),
                            acc_chars == char_count(crate::tree::texts_between(cs, 0, k as int)),
                            !descend,
                            forall|q: int|
                                0 <= q < k ==> !range_in_child(cs, q, tc, n_start as int,
                                n_end as int),
                            n_start <= n_end <= char_count(tc),
                        ensures
                            descend ==> target < cs.len() && range_in_child(cs, target as int,
                            tc, n_start as int, n_end as int) && acc_bytes
                                == crate::tree::texts_between(cs, 0, target as int).len()
                                && acc_chars == char_count(crate::tree::texts_between(cs, 0,
                            target as int)),
                            !descend ==> forall|q: int|
                                0 <= q < cs.len() ==> !range_in_child(cs, q, tc, n_start as int,
                                n_end as int),
                            n_start <= n_end <= char_count(tc),
                            tc == node_text(*cur),
                            cs == crate::tree::kids(*cur),
                            info == crate::tree::kid_info(*cur),
                        decreases cs.len() - k,
                    {
                        proof {
                            crate::tree::lemma_child_context::<S>(cs, info, k as int);
                            crate::tree::lemma_children_ok_at::<S>(cs, info, k as int);
                            let p = crate::tree::texts_between(cs, 0, k as int);
                            let m = node_text(cs[k as int]);
                            crate::tree::lemma_texts_between_split(cs, 0, k as int, k + 1);
                            assert(crate::tree::texts_between(cs, k + 1, k + 1)
                                == Seq::<u8>::empty());
                            assert(crate::tree::texts_between(cs, k as int, k + 1) =~= m);
                            crate::text::lemma_char_count_concat(p, m);
                            crate::text::lemma_chars_upto_bounds(p, p.len() as int);
                            crate::text::lemma_chars_upto_bounds(m, m.len() as int);
                            crate::tree::lemma_texts_between_split(cs, 0, k + 1, cs.len() as int);
                        }
                        let ci = b.info[k];
                        if n_start >= acc_chars && acc_chars + ci.chars > n_end {
                            descend = true;
                            target = k;
                            proof {
                                assert(ci.chars == char_count(node_text(cs[k as int])));
                                assert(range_in_child(cs, k as int, tc, n_start as int,
                                n_end as int));
                            }
                            break ;
                        }
                        acc_bytes = acc_bytes + ci.bytes;
                        acc_chars = acc_chars + ci.chars;
                        k = k + 1;
                        if k >= nch {
                            break ;
                        }
                    }
                    if !descend {
                        break ;
                    }
                    proof {
                        lemma_descend_step::<S>(
                            t0,
                            pre,
                            post,
                            cs,
                            info,
                            target as int,
                            n_start as int,
                            n_end as int,
                            start as int,
                            end as int,
                        );
                        let p2 = crate::tree::texts_between(cs, 0, target as int);
                        let s2 = crate::tree::texts_between(
                            cs,
                            target + 1,
                            cs.len() as int,
                        );
                        pre = pre + p2;
                        post = s2 + post;
                    }
                    let next: &'a Arc<Node> = &b.children[target];
                    proof {
                        assert(*next == cs[target as int]);
                        crate::tree::lemma_children_ok_at::<S>(cs, info, target as int);
                        crate::tree::lemma_node_text_nonempty::<S>(cs[target as int]);
                        crate::tree::lemma_child_context::<S>(cs, info, target as int);
                        if target > 0 {
                            crate::tree::lemma_texts_between_edges_w::<S>(
                                cs,
                                info,
                                0,
                                target as int,
                            );
                        } else {
                            crate::tree::lemma_texts_between_edges_w::<S>(
                                cs,
                                info,
                                target + 1,
                                cs.len() as int,
                            );
                        }
                        assert(node_text(*next).len() < node_text(*cur).len());
                    }
                    cur = next;
                    n_start = n_start - acc_chars;
                    n_end = n_end - acc_chars;
                },
            }
        }
        // build the slice over `cur`
        let info = node_info::<S>(cur);
        let ghost tc = node_text(*cur);
        proof {
            crate::text::lemma_byte_of_char_from(tc, 0, n_start as int);
            crate::text::lemma_byte_of_char_from(tc, 0, n_end as int);
            crate::text::lemma_chars_upto_bounds(tc, tc.len() as int);
        }
        let r: RopeSlice<'a, S> = match arc_node(cur) {
            Node::Leaf(tx) => {
                let ts = tx.as_str();
                proof {
                    vstd::utf8::encode_utf8_valid_utf8(crate::tree::leaf_chars(*cur));
                    vstd::utf8::is_char_boundary_start_end_of_seq(tc);
                    if 0 < byte_of_char(tc, n_start as int) < tc.len() {
                        vstd::utf8::is_char_boundary_iff_not_is_continuation_byte(
                            tc,
                            byte_of_char(tc, n_start as int),
                        );
                    }
                    if 0 < byte_of_char(tc, n_end as int) < tc.len() {
                        vstd::utf8::is_char_boundary_iff_not_is_continuation_byte(
                            tc,
                            byte_of_char(tc, n_end as int),
                        );
                    }
                }
                let b1 = crate::str_utils::char_to_byte_idx(ts, n_start);
                let b2 = crate::str_utils::char_to_byte_idx(ts, n_end);
                proof {
                    crate::text::lemma_byte_of_char_monotone(tc, n_start as int, n_end as int);
                }
                let piece = sub_str(ts, b1, b2);
                let lbc = crate::str_utils::count_line_breaks(piece);
                proof {
                    crate::text::lemma_chars_window(tc, b1 as int, b2 as int, b2 - b1);
                    assert(chars_upto(tc, b1 as int) == n_start);
                    assert(chars_upto(tc, b2 as int) == n_end);
                    assert(char_count(piece.spec_bytes()) == n_end - n_start);
                    assert(piece.spec_bytes().len() <= tc.len());
                    assert(tc.len() <= t0.len());
                }
                RopeSlice {
                    inner: SliceInner::Light {
                        text: piece,
                        char_count: n_end - n_start,
                        line_break_count: lbc,
                    },
                    marker: PhantomData,
                }
            },
            Node::Internal(_) => {
                let p1 = char_to_byte_line::<S>(cur, n_start);
                let p2 = char_to_byte_line::<S>(cur, n_end);
                proof {
                    crate::text::lemma_byte_of_char_monotone(tc, n_start as int, n_end as int);
                    crate::text::lemma_char_byte_inverse(tc, n_start as int);
                    crate::text::lemma_char_byte_inverse(tc, n_end as int);
                    crate::text::lemma_char_floor_at_start(tc, p1.0 as int);
                    crate::text::lemma_char_floor_at_start(tc, p2.0 as int);
                    assert(chars_upto(tc, p1.0 as int) == n_start);
                    assert(chars_upto(tc, p2.0 as int) == n_end);
                    assert(tc.len() <= t0.len());
                    crate::text::lemma_breaks_upto_monotone(tc, p1.0 as int, p2.0 as int);
                    crate::text::lemma_breaks_upto_bounds(tc, p2.0 as int);
                }
                // a final carriage return cut off from its line feed is a
                // break of the content though not of the underlying text
                let split_end: bool = if p2.0 > p1.0 && p2.0 < info.bytes {
                    node_byte::<S>(cur, p2.0 - 1) == CARRIAGE_RETURN && node_byte::<S>(
                        cur,
                        p2.0,
                    ) == LINE_FEED
                } else {
                    false
                };
                let el = if split_end {
                    p2.1 + 1
                } else {
                    p2.1
                };
                proof {
                    let b1 = p1.0 as int;
                    let b2 = p2.0 as int;
                    if split_end {
                        crate::text::lemma_breaks_window_split_end(tc, b1, b2);
                    } else {
                        crate::text::lemma_breaks_window(tc, b1, b2, b2 - b1);
                    }
                }
                RopeSlice {
                    inner: SliceInner::Full {
                        node: cur,
                        start_byte: p1.0,
                        end_byte: p2.0,
                        start_char: n_start,
                        end_char: n_end,
                        start_line_break: p1.1,
                        end_line_break: el,
                    },
                    marker: PhantomData,
                }
            },
        };
        proof {
            // translate the slice's facts from `cur` back to the original tree
            let bs0 = byte_of_char(t0, start as int);
            let be0 = byte_of_char(t0, end as int);
            let bsc = byte_of_char(tc, n_start as int);
            let bec = byte_of_char(tc, n_end as int);
            crate::text::lemma_byte_of_char_from(tc, 0, n_start as int);
            crate::text::lemma_byte_of_char_from(tc, 0, n_end as int);
            assert(r@ =~= t0.subrange(bs0, be0));
            crate::text::lemma_counts_in_context(pre, tc, post, bsc);
            crate::text::lemma_counts_in_context(pre, tc, post, bec);
        }
        r
    }
}

/// Whether the character range `[a, b)` of the whole text falls strictly
/// inside child `q`: it starts at or after the child's first character and
/// ends before the child's last.
pub open spec fn range_in_child(
    cs: Seq<Arc<Node>>,
    q: int,
    t: Seq<u8>,
    a: int,
    b: int,
) -> bool {
    &&& a >= char_count(crate::tree::texts_between(cs, 0, q))
    &&& b < char_count(crate::tree::texts_between(cs, 0, q)) + char_count(node_text(cs[q]))
}

/// Facts carried across one step of the slice-construction descent: the
/// decomposition around the chosen child keeps the seams, the clean starts
/// and the position alignments.
#[verifier::rlimit(100)]
proof fn lemma_descend_step<S: GraphemeSegmenter>(
    t0: Seq<u8>,
    pre: Seq<u8>,
    post: Seq<u8>,
    cs: Seq<Arc<Node>>,
    info: Seq<crate::tree::TextInfo>,
    k: int,
    n_start: int,
    n_end: int,
    start: int,
    end: int,
)
    requires
        crate::tree::children_ok::<S>(cs, info, 0),
        0 <= k < cs.len(),
        t0 == pre + (crate::tree::texts_from(cs, 0) + post),
        crate::text::seam_ok(pre, crate::tree::texts_from(cs, 0)),
        crate::text::seam_ok(crate::tree::texts_from(cs, 0), post),
        post.len() > 0 ==> !vstd::utf8::is_continuation_byte(post[0]),
        char_count(pre) == start - n_start,
        break_count(pre) == breaks_upto(t0, pre.len() as int),
        pre.len() == byte_of_char(t0, (start - n_start) as int),
        byte_of_char(t0, start) == pre.len() + byte_of_char(
            crate::tree::texts_from(cs, 0),
            n_start,
        ),
        byte_of_char(t0, end) == pre.len() + byte_of_char(crate::tree::texts_from(cs, 0), n_end),
        range_in_child(cs, k, crate::tree::texts_from(cs, 0), n_start, n_end),
        0 <= n_start <= n_end,
    ensures
        ({
            let p2 = pre + crate::tree::texts_between(cs, 0, k);
            let s2 = crate::tree::texts_between(cs, k + 1, cs.len() as int) + post;
            let m = node_text(cs[k]);
            let a2 = n_start - char_count(crate::tree::texts_between(cs, 0, k));
            let b2 = n_end - char_count(crate::tree::texts_between(cs, 0, k));
            &&& t0 == p2 + (m + s2)
            &&& crate::text::seam_ok(p2, m)
            &&& crate::text::seam_ok(m, s2)
            &&& m.len() > 0 ==> !vstd::utf8::is_continuation_byte(m[0])
            &&& s2.len() > 0 ==> !vstd::utf8::is_continuation_byte(s2[0])
            &&& char_count(p2) == start - a2
            &&& break_count(p2) == breaks_upto(t0, p2.len() as int)
            &&& p2.len() == byte_of_char(t0, start - a2)
            &&& 0 <= a2 <= b2 <= char_count(m)
            &&& byte_of_char(t0, start) == p2.len() + byte_of_char(m, a2)
            &&& byte_of_char(t0, end) == p2.len() + byte_of_char(m, b2)
        }),
{
    let tc = crate::tree::texts_from(cs, 0);
    let w = crate::tree::texts_between(cs, 0, k);
    let m = node_text(cs[k]);
    let rest = crate::tree::texts_between(cs, k + 1, cs.len() as int);
    let p2 = pre + w;
    let s2 = rest + post;
    let a2 = n_start - char_count(w);
    let b2 = n_end - char_count(w);
    crate::tree::lemma_child_context::<S>(cs, info, k);
    crate::tree::lemma_children_ok_at::<S>(cs, info, k);
    crate::tree::lemma_node_text_nonempty::<S>(cs[k]);
    crate::tree::lemma_node_text_valid::<S>(cs[k]);
    crate::tree::lemma_texts_from_valid::<S>(cs, info, 0);
    crate::text::lemma_char_count_concat(w, m + rest);
    crate::text::lemma_char_count_concat(m, rest);
    crate::text::lemma_chars_upto_bounds(w, w.len() as int);
    crate::text::lemma_chars_upto_bounds(rest, rest.len() as int);
    assert(tc == w + (m + rest));
    assert(t0 =~= p2 + (m + s2));
    crate::text::lemma_char_count_concat(pre, w);
    crate::text::lemma_char_count_concat(w, m);
    crate::text::lemma_chars_upto_bounds(m, m.len() as int);
    // position alignment within the child
    crate::text::lemma_byte_of_char_nested(w, m, rest, a2);
    crate::text::lemma_byte_of_char_nested(w, m, rest, b2);
    assert(byte_of_char(tc, n_start) == w.len() + byte_of_char(m, a2)) by {
        assert(char_count(w) + a2 == n_start);
    }
    assert(byte_of_char(tc, n_end) == w.len() + byte_of_char(m, b2)) by {
        assert(char_count(w) + b2 == n_end);
    }
    // seams and clean starts around the child
    if w.len() > 0 {
        crate::tree::lemma_texts_between_edges_w::<S>(cs, info, 0, k);
        assert(p2[p2.len() - 1] == w[w.len() - 1]);
    }
    if rest.len() > 0 {
        crate::tree::lemma_texts_between_edges_w::<S>(cs, info, k + 1, cs.len() as int);
        assert(s2[0] == rest[0]);
    } else {
        assert(s2 =~= post);
    }
    // the prefix grows by the part of this node before the child
    crate::text::lemma_byte_of_char_nested(w, m, rest, 0);
    assert(byte_of_char(tc, char_count(w)) == w.len() + byte_of_char(m, 0)) by {
        assert(char_count(w) + 0 == char_count(w));
    }
    assert(byte_of_char(m, 0) == 0);
    crate::text::lemma_byte_of_char_nested(pre, tc, post, char_count(w));
    assert(p2.len() == byte_of_char(t0, start - a2)) by {
        assert(start - a2 == char_count(pre) + char_count(w));
    }
    crate::text::lemma_counts_in_context(pre, tc, post, w.len() as int);
    crate::text::lemma_break_count_concat(pre, w);
    crate::text::lemma_breaks_upto_concat(w, m + rest, w.len() as int);
    assert(breaks_upto(tc, w.len() as int) == break_count(w));
}


/// What a slice-level chunk lookup returns: the chunk is a window of the
/// slice's content beginning at `b`, the window's ends do not fall inside
/// characters, and its junctions with the rest of the content are
/// seam-clean.
pub open spec fn slice_chunk_ok(v: Seq<u8>, chunk: Seq<u8>, b: int) -> bool {
    &&& 0 <= b
    &&& b + chunk.len() <= v.len()
    &&& chunk == v.subrange(b, b + chunk.len())
    &&& (chunk.len() > 0 ==> !vstd::utf8::is_continuation_byte(chunk[0]))
    &&& (b + chunk.len() < v.len() ==> !vstd::utf8::is_continuation_byte(v[b + chunk.len()]))
    &&& crate::text::seam_ok(v.subrange(0, b), chunk)
    &&& crate::text::seam_ok(chunk, v.subrange(b + chunk.len(), v.len() as int))
}

/// Clips a chunk fetched from the underlying tree to the slice's range.
#[verifier::rlimit(100)]
fn full_clip<'a>(
    Ghost(t): Ghost<Seq<u8>>,
    sb: usize,
    eb: usize,
    sc: usize,
    sl: usize,
    chunk: &'a str,
    cb: usize,
    cc: usize,
    cl0: usize,
) -> (r: (&'a str, usize, usize, usize))
    requires
        chunk_result_ok(t, chunk.spec_bytes(), cb as int, cc as int, cl0 as int),
        sb <= eb <= t.len(),
        t.len() <= usize::MAX,
        sc == chars_upto(t, sb as int),
        sl == breaks_upto(t, sb as int),
        sb == t.len() || !vstd::utf8::is_continuation_byte(t[sb as int]),
        eb == t.len() || !vstd::utf8::is_continuation_byte(t[eb as int]),
        cb <= eb,
        sb <= cb + chunk.spec_bytes().len(),
    ensures
        ({
            let v = t.subrange(sb as int, eb as int);
            &&& slice_chunk_ok(v, r.0.spec_bytes(), r.1 as int)
            &&& r.2 == chars_upto(v, r.1 as int)
            &&& r.3 == break_count(v.subrange(0, r.1 as int))
            &&& r.1 as int == (if cb >= sb { cb - sb } else { 0 })
            &&& r.1 + r.0.spec_bytes().len() == (if cb + chunk.spec_bytes().len() <= eb {
                cb + chunk.spec_bytes().len() - sb
            } else {
                eb - sb as int
            })
        }),
{
    let ghost v = t.subrange(sb as int, eb as int);
    let n = chunk.as_bytes().len();
    let lo = if sb > cb {
        sb - cb
    } else {
        0
    };
    let hi = if cb + n < eb {
        n
    } else {
        eb - cb
    };
    proof {
        let ghost ch = chunk.spec_bytes();
        assert(ch == t.subrange(cb as int, cb + ch.len()));
        vstd::utf8::encode_utf8_valid_utf8(chunk@);
        vstd::utf8::is_char_boundary_start_end_of_seq(ch);
        if 0 < lo < ch.len() {
            assert(ch[lo as int] == t[sb as int]);
            vstd::utf8::is_char_boundary_iff_not_is_continuation_byte(ch, lo as int);
        }
        if 0 < hi < ch.len() {
            assert(ch[hi as int] == t[eb as int]);
            vstd::utf8::is_char_boundary_iff_not_is_continuation_byte(ch, hi as int);
        }
    }
    let clipped = sub_str(chunk, lo, hi);
    let b = if cb >= sb {
        cb - sb
    } else {
        0
    };
    let c2 = if cc >= sc {
        cc - sc
    } else {
        0
    };
    let l2 = if cl0 >= sl {
        cl0 - sl
    } else {
        0
    };
    proof {
        let ch = chunk.spec_bytes();
        let cl = ch.len() as int;
        let start_abs = if cb >= sb { cb as int } else { sb as int };
        let end_abs = if cb + cl <= eb { cb + cl } else { eb as int };
        assert(clipped.spec_bytes() =~= t.subrange(start_abs, end_abs));
        assert(clipped.spec_bytes() =~= v.subrange(b as int, b + (end_abs - start_abs)));
        // counts at the clipped start, in slice-relative terms
        crate::text::lemma_chars_window(t, sb as int, eb as int, start_abs - sb);
        crate::text::lemma_chars_upto_monotone(t, sb as int, start_abs);
        crate::text::lemma_chars_upto_monotone(t, cb as int, start_abs);
        crate::text::lemma_breaks_upto_monotone(t, sb as int, start_abs);
        crate::text::lemma_breaks_upto_monotone(t, cb as int, start_abs);
        if cb >= sb {
            assert(start_abs == cb);
            assert(chars_upto(v, b as int) == chars_upto(t, cb as int) - sc);
        } else {
            assert(start_abs == sb);
            assert(chars_upto(v, 0) == 0);
            assert(cc <= sc) by {
                crate::text::lemma_chars_upto_monotone(t, cb as int, sb as int);
            }
            assert(cl0 <= sl) by {
                crate::text::lemma_breaks_upto_monotone(t, cb as int, sb as int);
            }
        }
        // the start of the clipped window is a clean cut in context
        crate::text::lemma_breaks_window(t, sb as int, start_abs, start_abs - sb);
        assert(v.subrange(0, b as int) =~= t.subrange(sb as int, start_abs));
        // clean boundaries of the clipped chunk within the slice
        if end_abs - start_abs > 0 {
            assert(clipped.spec_bytes()[0] == t[start_abs]);
        }
        if b + (end_abs - start_abs) < v.len() {
            assert(v[b + (end_abs - start_abs)] == t[end_abs]);
        }
        if b > 0 {
            assert(v.subrange(0, b as int)[b - 1] == t[start_abs - 1]);
        }
        if b + (end_abs - start_abs) < v.len() && end_abs - start_abs > 0 {
            assert(clipped.spec_bytes()[end_abs - start_abs - 1] == t[end_abs - 1]);
        }
        assert(v.subrange(b + (end_abs - start_abs), v.len() as int)[0] == t[end_abs] || b + (
        end_abs - start_abs) >= v.len());
    }
    (clipped, b, c2, l2)
}


/// The character at character position `c` of the text `s`: the first
/// character decoded from the bytes at and after the character's start.
pub open spec fn char_at(s: Seq<u8>, c: int) -> char {
    vstd::utf8::decode_utf8(s.subrange(byte_of_char(s, c), s.len() as int))[0]
}

impl<'a, S: GraphemeSegmenter> RopeSlice<'a, S> {
    /// A well-formed slice's content is strictly smaller than the address
    /// space.
    pub proof fn lemma_wf_len(self)
        requires
            self.wf(),
        ensures
            self@.len() < usize::MAX,
            self.base().len() < usize::MAX,
    {
    }

    /// A well-formed slice's content is valid UTF-8.
    pub proof fn lemma_view_valid(self)
        requires
            self.wf(),
        ensures
            vstd::utf8::valid_utf8(self@),
            self@.len() > 0 ==> !vstd::utf8::is_continuation_byte(self@[0]),
    {
        match self.inner {
            SliceInner::Full { node, start_byte, end_byte, start_char, end_char, .. } => {
                let t = node_text(*node);
                crate::tree::lemma_node_text_valid::<S>(*node);
                crate::text::lemma_byte_of_char_from(t, 0, start_char as int);
                crate::text::lemma_byte_of_char_from(t, 0, end_char as int);
                vstd::utf8::is_char_boundary_start_end_of_seq(t);
                if 0 < start_byte < t.len() {
                    vstd::utf8::is_char_boundary_iff_not_is_continuation_byte(
                        t,
                        start_byte as int,
                    );
                }
                if 0 < end_byte < t.len() {
                    vstd::utf8::is_char_boundary_iff_not_is_continuation_byte(t, end_byte as int);
                }
                vstd::utf8::valid_utf8_split(t, end_byte as int);
                let front = t.subrange(0, end_byte as int);
                vstd::utf8::is_char_boundary_start_end_of_seq(front);
                if 0 < start_byte < front.len() {
                    assert(front[start_byte as int] == t[start_byte as int]);
                    vstd::utf8::is_char_boundary_iff_not_is_continuation_byte(
                        front,
                        start_byte as int,
                    );
                }
                vstd::utf8::valid_utf8_split(front, start_byte as int);
                assert(front.subrange(start_byte as int, front.len() as int) =~= self@);
                if self@.len() > 0 {
                    vstd::utf8::is_char_boundary_start_end_of_seq(self@);
                    vstd::utf8::is_char_boundary_iff_not_is_continuation_byte(self@, 0);
                }
            },
            SliceInner::Light { text, .. } => {
                vstd::utf8::encode_utf8_valid_utf8(text@);
                assert(self@ =~= text.spec_bytes());
                if self@.len() > 0 {
                    vstd::utf8::is_char_boundary_start_end_of_seq(self@);
                    vstd::utf8::is_char_boundary_iff_not_is_continuation_byte(self@, 0);
                }
            },
        }
    }

    /// Returns the chunk containing the given byte offset, with the
    /// chunk's starting byte offset, starting character index and starting
    /// line index within the slice.  A chunk straddling the slice's edge is
    /// truncated in the returned view, not in storage.
    #[verifier::rlimit(100)]
    pub fn chunk_at_byte(&self, byte_idx: usize) -> (r: (&'a str, usize, usize, usize))
        requires
            self.wf(),
            byte_idx <= self@.len(),
        ensures
            slice_chunk_ok(self@, r.0.spec_bytes(), r.1 as int),
            r.2 == chars_upto(self@, r.1 as int),
            r.3 == break_count(self@.subrange(0, r.1 as int)),
            r.1 <= byte_idx <= r.1 + r.0.spec_bytes().len(),
            byte_idx < r.1 + r.0.spec_bytes().len() || r.1 + r.0.spec_bytes().len()
                == self@.len(),
            r.0.spec_bytes().len() == 0 ==> r.1 == self@.len(),
    {
        match &self.inner {
            SliceInner::Full {
                node,
                start_byte,
                end_byte,
                start_char,
                end_char,
                start_line_break,
                ..
            } => {
                let ghost t = node_text(**node);
                proof {
                    assert(self@ =~= t.subrange(self.start_off(), self.end_off()));
                    assert(byte_idx + *start_byte <= *end_byte);
                    crate::text::lemma_byte_of_char_from(t, 0, *start_char as int);
                    crate::text::lemma_byte_of_char_from(t, 0, *end_char as int);
                }
                let sub = get_chunk_at_byte::<S>(node, byte_idx + *start_byte);
                proof {
                    assert(sub.1 <= byte_idx + *start_byte <= *end_byte);
                    assert(*start_byte <= byte_idx + *start_byte <= sub.1
                        + sub.0.spec_bytes().len());
                }
                let r = full_clip(
                    Ghost(t),
                    *start_byte,
                    *end_byte,
                    *start_char,
                    *start_line_break,
                    sub.0,
                    sub.1,
                    sub.2,
                    sub.3,
                );
                proof {
                    assert(self@ =~= t.subrange(self.start_off(), self.end_off()));
                    if r.0.spec_bytes().len() == 0 {
                        let cl = sub.0.spec_bytes().len() as int;
                        if sub.1 + cl < *end_byte {
                            assert(byte_idx + *start_byte == sub.1 + cl);
                            assert(sub.1 + cl == t.len());
                            assert(false);
                        }
                    }
                }
                r
            },
            SliceInner::Light { text, .. } => {
                proof {
                    vstd::utf8::encode_utf8_valid_utf8(text@);
                    let tb = text.spec_bytes();
                    if tb.len() > 0 {
                        vstd::utf8::is_char_boundary_start_end_of_seq(tb);
                        vstd::utf8::is_char_boundary_iff_not_is_continuation_byte(tb, 0);
                    }
                    assert(self@ =~= tb);
                    assert(tb.subrange(0, tb.len() as int) =~= tb);
                    assert(self@.subrange(0, 0) =~= Seq::<u8>::empty());
                }
                (*text, 0, 0, 0)
            },
        }
    }

    /// Returns the chunk containing the given character index, organized as
    /// `chunk_at_byte`'s result, together with bounds placing the character
    /// within the chunk.
    #[verifier::rlimit(100)]
    pub fn chunk_at_char(&self, char_idx: usize) -> (r: (&'a str, usize, usize, usize))
        requires
            self.wf(),
            char_idx <= char_count(self@),
        ensures
            slice_chunk_ok(self@, r.0.spec_bytes(), r.1 as int),
            r.2 == chars_upto(self@, r.1 as int),
            r.3 == break_count(self@.subrange(0, r.1 as int)),
            r.2 <= char_idx <= r.2 + char_count(r.0.spec_bytes()),
            r.0.spec_bytes().len() == 0 ==> r.1 == self@.len(),
            char_idx < r.2 + char_count(r.0.spec_bytes()) || r.1 + r.0.spec_bytes().len()
                == self@.len(),
    {
        match &self.inner {
            SliceInner::Full {
                node,
                start_byte,
                end_byte,
                start_char,
                end_char,
                start_line_break,
                ..
            } => {
                let ghost t = node_text(**node);
                proof {
                    crate::text::lemma_chars_window(
                        t,
                        *start_byte as int,
                        *end_byte as int,
                        *end_byte - *start_byte,
                    );
                    assert(self@ =~= t.subrange(self.start_off(), self.end_off()));
                }
                let sub = get_chunk_at_char::<S>(node, char_idx + *start_char);
                proof {
                    crate::text::lemma_byte_of_char_from(t, 0, *start_char as int);
                    crate::text::lemma_byte_of_char_from(t, 0, *end_char as int);
                    let cb = sub.1 as int;
                    let cl = sub.0.spec_bytes().len() as int;
                    let eb = *end_byte as int;
                    let sb = *start_byte as int;
                    let ec = *end_char as int;
                    let sc = *start_char as int;
                    let c_abs = char_idx + sc;
                    crate::text::lemma_byte_of_char_from(t, 0, ec);
                    if cb > eb {
                        assert(eb < t.len());
                        assert(!vstd::utf8::is_continuation_byte(t[eb]));
                        assert(chars_upto(t, eb + 1) == ec + 1);
                        crate::text::lemma_chars_upto_monotone(t, eb + 1, cb);
                        assert(false);
                    }
                    if cb + cl < sb {
                        lemma_chunk_window_facts(t, sub.0.spec_bytes(), cb, sub.2 as int,
                        sub.3 as int);
                        crate::text::lemma_chars_upto_monotone(t, cb + cl, sb);
                        assert(sub.2 + char_count(sub.0.spec_bytes()) <= sc);
                        assert(c_abs == sub.2 + char_count(sub.0.spec_bytes()));
                        assert(cb + cl == t.len());
                        assert(false);
                    }
                }
                let r = full_clip(
                    Ghost(t),
                    *start_byte,
                    *end_byte,
                    *start_char,
                    *start_line_break,
                    sub.0,
                    sub.1,
                    sub.2,
                    sub.3,
                );
                proof {
                    let v = self@;
                    let cb = sub.1 as int;
                    let cl = sub.0.spec_bytes().len() as int;
                    let sb = *start_byte as int;
                    let eb = *end_byte as int;
                    let sc = *start_char as int;
                    let c_abs = char_idx + sc;
                    let start_abs: int = if cb >= sb { cb } else { sb };
                    let end_abs: int = if cb + cl <= eb { cb + cl } else { eb };
                    lemma_chunk_window_facts(t, sub.0.spec_bytes(), cb, sub.2 as int,
                    sub.3 as int);
                    crate::text::lemma_chars_window(t, start_abs, end_abs, end_abs - start_abs);
                    assert(r.0.spec_bytes() =~= t.subrange(start_abs, end_abs));
                    assert(char_count(r.0.spec_bytes()) == chars_upto(t, end_abs) - chars_upto(
                        t,
                        start_abs,
                    ));
                    // the sought character lies at or before the clipped end
                    if cb + cl <= eb {
                        assert(c_abs <= sub.2 + char_count(sub.0.spec_bytes()));
                        assert(chars_upto(t, end_abs) == sub.2 + char_count(
                            sub.0.spec_bytes(),
                        ));
                    } else {
                        assert(chars_upto(t, end_abs) == *end_char as int);
                    }
                    // and at or after the clipped start
                    if cb >= sb {
                        assert(chars_upto(t, start_abs) == sub.2 as int);
                    } else {
                        crate::text::lemma_chars_upto_monotone(t, cb, sb);
                        assert(chars_upto(t, start_abs) == sc);
                    }
                    crate::text::lemma_chars_window(t, sb, eb, start_abs - sb);
                    assert(v =~= t.subrange(sb, eb));
                    assert(r.2 == chars_upto(t, start_abs) - sc);
                    if r.0.spec_bytes().len() == 0 {
                        if end_abs < eb {
                            assert(c_abs == sub.2 + char_count(sub.0.spec_bytes()));
                            assert(cb + cl == t.len());
                            assert(false);
                        }
                        assert(r.1 == v.len());
                    }
                    if c_abs == chars_upto(t, end_abs) {
                        // the sought character starts at the clipped end: the
                        // clip must reach the end of the content
                        if end_abs == cb + cl && cb + cl < eb {
                            assert(cb + cl == t.len());
                            assert(false);
                        }
                        assert(end_abs == eb);
                        assert(r.1 + r.0.spec_bytes().len() == v.len());
                    }
                }
                r
            },
            SliceInner::Light { text, char_count: cc, .. } => {
                proof {
                    vstd::utf8::encode_utf8_valid_utf8(text@);
                    let tb = text.spec_bytes();
                    if tb.len() > 0 {
                        vstd::utf8::is_char_boundary_start_end_of_seq(tb);
                        vstd::utf8::is_char_boundary_iff_not_is_continuation_byte(tb, 0);
                    }
                    assert(self@ =~= tb);
                    assert(tb.subrange(0, tb.len() as int) =~= tb);
                    assert(self@.subrange(0, 0) =~= Seq::<u8>::empty());
                }
                (*text, 0, 0, 0)
            },
        }
    }

    /// The byte at a position of the slice.
    pub(crate) fn byte_at(&self, byte_idx: usize) -> (r: u8)
        requires
            self.wf(),
            byte_idx < self@.len(),
        ensures
            r == self@[byte_idx as int],
    {
        let ck = self.chunk_at_byte(byte_idx);
        let b = ck.0.as_bytes();
        proof {
            assert(ck.0.spec_bytes()[byte_idx - ck.1] == self@[byte_idx as int]);
        }
        b[byte_idx - ck.1]
    }

    /// Returns the character index of the given byte: a byte in the middle
    /// of a multi-byte character rounds down to that character's index, and
    /// the offset one past the end converts to the character count.
    pub fn byte_to_char(&self, byte_idx: usize) -> (r: usize)
        requires
            self.wf(),
            byte_idx <= self@.len(),
        ensures
            r == char_idx_at(self@, byte_idx as int),
    {
        let ck = self.chunk_at_byte(byte_idx);
        proof {
            self.lemma_wf_len();
            lemma_chunk_parts(self@, ck.0.spec_bytes(), ck.1 as int);
            crate::text::lemma_chars_upto_bounds(self@, ck.1 as int);
            crate::text::lemma_char_floor_bounds(ck.0.spec_bytes(), byte_idx - ck.1);
            crate::text::lemma_chars_upto_bounds(ck.0.spec_bytes(), crate::text::char_floor(
                ck.0.spec_bytes(),
                byte_idx - ck.1,
            ));
            if ck.0.spec_bytes().len() > 0 {
                crate::text::lemma_char_idx_in_context(
                    self@.subrange(0, ck.1 as int),
                    ck.0.spec_bytes(),
                    self@.subrange(ck.1 + ck.0.spec_bytes().len(), self@.len() as int),
                    byte_idx - ck.1,
                );
            } else {
                assert(byte_idx == ck.1);
                crate::text::lemma_char_floor_at_start(self@, byte_idx as int);
            }
        }
        ck.2 + crate::str_utils::byte_to_char_idx(ck.0, byte_idx - ck.1)
    }

    /// Returns the line index of the given byte: the number of line breaks
    /// completed before it within the slice's content.
    pub fn byte_to_line(&self, byte_idx: usize) -> (r: usize)
        requires
            self.wf(),
            byte_idx <= self@.len(),
        ensures
            r == breaks_upto(self@, byte_idx as int),
    {
        let ck = self.chunk_at_byte(byte_idx);
        proof {
            lemma_chunk_parts(self@, ck.0.spec_bytes(), ck.1 as int);
            let v = self@;
            let pre = v.subrange(0, ck.1 as int);
            let chunk = ck.0.spec_bytes();
            let post = v.subrange(ck.1 + chunk.len(), v.len() as int);
            crate::text::lemma_breaks_upto_concat(pre, chunk + post, byte_idx as int);
            crate::text::lemma_breaks_upto_concat(chunk, post, byte_idx - ck.1);
            crate::text::lemma_breaks_upto_bounds(pre, pre.len() as int);
            self.lemma_wf_len();
            crate::text::lemma_breaks_upto_bounds(self@, byte_idx as int);
        }
        ck.3 + crate::str_utils::byte_to_line_idx(ck.0, byte_idx - ck.1)
    }

    /// Returns the byte position where the given character starts (the
    /// byte length, for the character count itself).
    pub fn char_to_byte(&self, char_idx: usize) -> (r: usize)
        requires
            self.wf(),
            char_idx <= char_count(self@),
        ensures
            r == byte_of_char(self@, char_idx as int),
            r <= self@.len(),
    {
        let ck = self.chunk_at_char(char_idx);
        proof {
            lemma_chunk_parts(self@, ck.0.spec_bytes(), ck.1 as int);
            crate::text::lemma_byte_of_char_from(self@, 0, char_idx as int);
            if ck.0.spec_bytes().len() > 0 {
                crate::text::lemma_byte_of_char_nested(
                    self@.subrange(0, ck.1 as int),
                    ck.0.spec_bytes(),
                    self@.subrange(ck.1 + ck.0.spec_bytes().len(), self@.len() as int),
                    char_idx - ck.2,
                );
            } else {
                assert(char_idx == ck.2);
                if (ck.1 as int) < self@.len() {
                    crate::text::lemma_boundary_inverse(self@, ck.1 as int);
                } else {
                    crate::text::lemma_boundary_inverse(self@, ck.1 as int);
                }
            }
            crate::text::lemma_chars_upto_bounds(ck.0.spec_bytes(), ck.0.spec_bytes().len() as int);
        }
        ck.1 + crate::str_utils::char_to_byte_idx(ck.0, char_idx - ck.2)
    }

    /// Returns the line index of the given character.
    pub fn char_to_line(&self, char_idx: usize) -> (r: usize)
        requires
            self.wf(),
            char_idx <= char_count(self@),
        ensures
            r == breaks_upto(self@, byte_of_char(self@, char_idx as int)),
    {
        let b = self.char_to_byte(char_idx);
        self.byte_to_line(b)
    }
}

/// The decomposition of a slice's content around a returned chunk.
proof fn lemma_chunk_parts(v: Seq<u8>, chunk: Seq<u8>, b: int)
    requires
        slice_chunk_ok(v, chunk, b),
        chunk.len() == 0 ==> b == v.len(),
    ensures
        v == v.subrange(0, b) + (chunk + v.subrange(b + chunk.len(), v.len() as int)),
        char_count(v.subrange(0, b)) == chars_upto(v, b),
        crate::text::seam_ok(v.subrange(0, b), chunk + v.subrange(b + chunk.len(), v.len() as int)),
        chunk.len() > 0 ==> !vstd::utf8::is_continuation_byte(chunk[0]),
        v.subrange(b + chunk.len(), v.len() as int).len() > 0
            ==> !vstd::utf8::is_continuation_byte(
            v.subrange(b + chunk.len(), v.len() as int)[0],
        ),
{
    let pre = v.subrange(0, b);
    let post = v.subrange(b + chunk.len(), v.len() as int);
    assert(v =~= pre + (chunk + post));
    crate::text::lemma_chars_window(v, 0, b, b);
    assert(v.subrange(0, b).subrange(0, b) =~= pre);
    if chunk.len() > 0 {
        assert((chunk + post)[0] == chunk[0]);
        assert(crate::text::seam_ok(pre, chunk + post));
    } else {
        assert(b == v.len());
        assert(post.len() == 0);
        assert((chunk + post).len() == 0);
    }
}


impl<'a, S: GraphemeSegmenter> RopeSlice<'a, S> {
    /// Returns the chunk containing the given line break of the content
    /// (for this purpose, the slice's start counts as break 0 and its end
    /// as one past the last), organized as `chunk_at_byte`'s result: index
    /// 0 returns the first chunk, and the one-past-the-end index returns
    /// the last.
    #[verifier::rlimit(100)]
    pub fn chunk_at_line_break(&self, line_break_idx: usize) -> (r: (&'a str, usize, usize, usize))
        requires
            self.wf(),
            line_break_idx <= break_count(self@) + 1,
        ensures
            slice_chunk_ok(self@, r.0.spec_bytes(), r.1 as int),
            r.2 == chars_upto(self@, r.1 as int),
            r.3 == break_count(self@.subrange(0, r.1 as int)),
            line_break_idx == 0 ==> r.1 == 0,
            line_break_idx > break_count(self@) ==> r.1 + r.0.spec_bytes().len() == self@.len(),
            1 <= line_break_idx <= break_count(self@) ==> r.3 < line_break_idx
                && line_break_idx - r.3 <= break_count(r.0.spec_bytes()),
            self@.len() == 0 ==> r.0.spec_bytes().len() == 0 && r.1 == 0,
    {
        match &self.inner {
            SliceInner::Full {
                node,
                start_byte,
                end_byte,
                start_char,
                end_char,
                start_line_break,
                end_line_break,
            } => {
                let ghost t = node_text(**node);
                let ghost sb = *start_byte as int;
                let ghost eb = *end_byte as int;
                let ghost sl = *start_line_break as int;
                let ghost cnt = break_count(self@);
                let total = node_info::<S>(node).bytes;
                proof {
                    assert(self@ =~= t.subrange(self.start_off(), self.end_off()));
                    crate::text::lemma_byte_of_char_from(t, 0, *start_char as int);
                    crate::text::lemma_byte_of_char_from(t, 0, *end_char as int);
                    crate::text::lemma_breaks_upto_bounds(t, t.len() as int);
                    crate::text::lemma_breaks_upto_monotone(t, eb, t.len() as int);
                    crate::text::lemma_breaks_upto_monotone(t, sb, eb);
                    crate::text::lemma_breaks_upto_bounds(t, sb);
                }
                // whether the content's final break is a carriage return cut
                // off from its line feed, which the underlying text does not
                // count
                let split_end: bool = if *end_byte > *start_byte && *end_byte < total {
                    node_byte::<S>(node, *end_byte - 1) == CARRIAGE_RETURN && node_byte::<S>(
                        node,
                        *end_byte,
                    ) == LINE_FEED
                } else {
                    false
                };
                proof {
                    if split_end {
                        crate::text::lemma_breaks_window_split_end(t, sb, eb);
                    } else {
                        crate::text::lemma_breaks_window(t, sb, eb, eb - sb);
                    }
                    // the stored counts and the in-context counts differ by
                    // exactly the split-end break
                    assert(cnt == breaks_upto(t, eb) - sl + (if split_end {
                        1int
                    } else {
                        0int
                    }));
                }
                let sub = if line_break_idx == 0 {
                    get_chunk_at_byte::<S>(node, *start_byte)
                } else if line_break_idx > *end_line_break - *start_line_break {
                    get_chunk_at_byte::<S>(node, *end_byte)
                } else if split_end && line_break_idx == *end_line_break - *start_line_break {
                    get_chunk_at_byte::<S>(node, *end_byte - 1)
                } else {
                    get_chunk_at_line_break::<S>(node, line_break_idx + *start_line_break)
                };
                proof {
                    let cb = sub.1 as int;
                    let cl = sub.0.spec_bytes().len() as int;
                    lemma_chunk_window_facts(t, sub.0.spec_bytes(), cb, sub.2 as int,
                    sub.3 as int);
                    if line_break_idx == 0 {
                        assert(sub.1 <= *start_byte <= sub.1 + cl);
                        assert(cb <= eb && sb <= cb + cl);
                    } else if line_break_idx > cnt {
                        assert(sub.1 <= *end_byte <= sub.1 + cl);
                        assert(cb <= eb && sb <= cb + cl);
                    } else if split_end && line_break_idx == cnt {
                        assert(sub.1 <= eb - 1 < sub.1 + cl || sub.1 + cl == t.len());
                        assert(cb <= eb - 1);
                        assert(cb + cl >= eb);
                        assert(sb <= cb + cl);
                    } else {
                        let lx = line_break_idx + sl;
                        assert(lx <= breaks_upto(t, eb));
                        assert(sub.3 < lx <= sub.3 + break_count(sub.0.spec_bytes()));
                        if cb > eb {
                            crate::text::lemma_breaks_upto_monotone(t, eb, cb);
                            assert(false);
                        }
                        if cb + cl < sb {
                            crate::text::lemma_breaks_upto_monotone(t, cb + cl, sb);
                            assert(false);
                        }
                    }
                }
                let r = full_clip(
                    Ghost(t),
                    *start_byte,
                    *end_byte,
                    *start_char,
                    *start_line_break,
                    sub.0,
                    sub.1,
                    sub.2,
                    sub.3,
                );
                proof {
                    let v = self@;
                    let cb = sub.1 as int;
                    let cl = sub.0.spec_bytes().len() as int;
                    let start_abs: int = if cb >= sb { cb } else { sb };
                    let end_abs: int = if cb + cl <= eb { cb + cl } else { eb };
                    assert(v =~= t.subrange(sb, eb));
                    if 1 <= line_break_idx <= cnt {
                        // the chunk's starting line index within the slice
                        assert(v.subrange(0, start_abs - sb) =~= t.subrange(sb, start_abs));
                        assert(r.3 == breaks_upto(t, start_abs) - sl) by {
                            if cb >= sb {
                                assert(crate::text::cut_ok(t, cb));
                            }
                            crate::text::lemma_breaks_window(t, sb, start_abs, start_abs - sb);
                            assert(v.subrange(0, start_abs - sb) =~= t.subrange(sb, start_abs));
                            if cb < sb {
                                crate::text::lemma_breaks_upto_monotone(t, cb, sb);
                            }
                        }
                        crate::text::lemma_breaks_upto_monotone(t, start_abs, eb);
                        assert(r.0.spec_bytes() =~= t.subrange(start_abs, end_abs));
                        if split_end && line_break_idx == cnt {
                            // the final carriage return is the sought break
                            assert(end_abs == eb);
                            crate::text::lemma_breaks_window_split_end(t, start_abs, eb);
                            assert(break_count(r.0.spec_bytes()) == breaks_upto(t, eb)
                                - breaks_upto(t, start_abs) + 1);
                            assert(r.3 < line_break_idx) by {
                                assert(breaks_upto(t, start_abs) <= breaks_upto(t, eb));
                            }
                        } else {
                            let lx = line_break_idx + sl;
                            assert(breaks_upto(t, start_abs) < lx);
                            assert(lx <= breaks_upto(t, end_abs)) by {
                                if cb + cl <= eb {
                                    assert(sub.3 + break_count(sub.0.spec_bytes())
                                        == breaks_upto(t, cb + cl));
                                }
                            }
                            lemma_content_breaks_ge(t, start_abs, end_abs);
                        }
                    }
                }
                r
            },
            SliceInner::Light { text, .. } => {
                proof {
                    vstd::utf8::encode_utf8_valid_utf8(text@);
                    let tb = text.spec_bytes();
                    if tb.len() > 0 {
                        vstd::utf8::is_char_boundary_start_end_of_seq(tb);
                        vstd::utf8::is_char_boundary_iff_not_is_continuation_byte(tb, 0);
                    }
                    assert(self@ =~= tb);
                    assert(tb.subrange(0, tb.len() as int) =~= tb);
                    assert(self@.subrange(0, 0) =~= Seq::<u8>::empty());
                    crate::text::lemma_breaks_upto_bounds(tb, tb.len() as int);
                }
                (*text, 0, 0, 0)
            },
        }
    }

    /// Returns the byte position where the given line starts.  The line
    /// count itself converts to the byte length.
    pub fn line_to_byte(&self, line_idx: usize) -> (r: usize)
        requires
            self.wf(),
            line_idx <= break_count(self@) + 1,
        ensures
            r == byte_of_line(self@, line_idx as int),
            r <= self@.len(),
    {
        let n = self.len_lines();
        let len = self.len_bytes();
        if line_idx == n {
            proof {
                crate::text::lemma_byte_of_line_at_end(self@, line_idx as int);
            }
            len
        } else if line_idx == 0 {
            proof {
                if self@.len() > 0 {
                } else {
                }
            }
            0
        } else {
            let ck = self.chunk_at_line_break(line_idx);
            proof {
                lemma_chunk_parts(self@, ck.0.spec_bytes(), ck.1 as int);
                crate::text::lemma_byte_of_line_nested(
                    self@.subrange(0, ck.1 as int),
                    ck.0.spec_bytes(),
                    self@.subrange(ck.1 + ck.0.spec_bytes().len(), self@.len() as int),
                    line_idx - ck.3,
                );
                crate::text::lemma_byte_of_line_from(
                    ck.0.spec_bytes(),
                    0,
                    line_idx - ck.3,
                );
            }
            ck.1 + crate::str_utils::line_to_byte_idx(ck.0, line_idx - ck.3)
        }
    }

    /// Returns the character index where the given line starts.  The line
    /// count itself converts to the character count.
    pub fn line_to_char(&self, line_idx: usize) -> (r: usize)
        requires
            self.wf(),
            line_idx <= break_count(self@) + 1,
        ensures
            r == char_idx_at(self@, byte_of_line(self@, line_idx as int)),
    {
        let b = self.line_to_byte(line_idx);
        self.byte_to_char(b)
    }
}

/// A window's own break count is at least the breaks the context sees in
/// it.
proof fn lemma_content_breaks_ge(t: Seq<u8>, a: int, b: int)
    requires
        0 <= a <= b <= t.len(),
    ensures
        break_count(t.subrange(a, b)) >= breaks_upto(t, b) - breaks_upto(t, a),
{
    if a == b || b == t.len() || !(t[b - 1] == CARRIAGE_RETURN && t[b] == LINE_FEED) {
        crate::text::lemma_breaks_window(t, a, b, b - a);
    } else {
        crate::text::lemma_breaks_window_split_end(t, a, b);
    }
}



impl<'a, S: GraphemeSegmenter> RopeSlice<'a, S> {
    /// Returns the character at the given character position.
    pub fn char(&self, char_idx: usize) -> (r: char)
        requires
            self.wf(),
            char_idx < char_count(self@),
        ensures
            r == char_at(self@, char_idx as int),
    {
        let ck = self.chunk_at_char(char_idx);
        proof {
            lemma_chunk_parts(self@, ck.0.spec_bytes(), ck.1 as int);
            crate::text::lemma_chars_upto_bounds(ck.0.spec_bytes(), ck.0.spec_bytes().len() as int);
            assert(ck.0.spec_bytes().len() > 0) by {
                if ck.0.spec_bytes().len() == 0 {
                    assert(ck.2 == char_count(self@));
                }
            }
            crate::text::lemma_byte_of_char_nested(
                self@.subrange(0, ck.1 as int),
                ck.0.spec_bytes(),
                self@.subrange(ck.1 + ck.0.spec_bytes().len(), self@.len() as int),
                char_idx - ck.2,
            );
        }
        let bb = crate::str_utils::char_to_byte_idx(ck.0, char_idx - ck.2);
        let cklen = ck.0.as_bytes().len();
        proof {
            let chunk = ck.0.spec_bytes();
            crate::text::lemma_byte_of_char_from(chunk, 0, char_idx - ck.2);
            crate::text::lemma_byte_of_char_from(self@, 0, char_idx as int);
            assert(bb < chunk.len()) by {
                if bb == chunk.len() {
                    assert(char_count(chunk) <= char_idx - ck.2);
                    assert(ck.1 + chunk.len() == self@.len());
                    assert(byte_of_char(self@, char_idx as int) == self@.len());
                    assert(char_count(self@) <= char_idx);
                }
            }
            vstd::utf8::encode_utf8_valid_utf8(ck.0@);
            vstd::utf8::is_char_boundary_start_end_of_seq(chunk);
            vstd::utf8::is_char_boundary_iff_not_is_continuation_byte(chunk, bb as int);
        }
        let tail = sub_str(ck.0, bb, cklen);
        proof {
            let v = self@;
            let chunk = ck.0.spec_bytes();
            let bc = byte_of_char(v, char_idx as int);
            assert(bc == ck.1 + bb);
            let suffix = v.subrange(bc, v.len() as int);
            let tb = tail.spec_bytes();
            assert(tb =~= suffix.subrange(0, tb.len() as int));
            self.lemma_view_valid();
            assert(bc < v.len());
            assert(!vstd::utf8::is_continuation_byte(v[bc]));
            vstd::utf8::is_char_boundary_iff_not_is_continuation_byte(v, bc);
            vstd::utf8::valid_utf8_split(v, bc);
            assert(vstd::utf8::valid_utf8(suffix));
            assert(suffix.len() > 0);
            if tb.len() < suffix.len() {
                assert(suffix[tb.len() as int] == v[ck.1 + chunk.len()]);
            }
            // decoding the chunk's tail gives the same first character as
            // decoding the whole remaining content
            lemma_first_char_of_prefix(suffix, tb.len() as int);
            vstd::utf8::encode_utf8_decode_utf8(tail@);
            assert(tail@.len() > 0) by {
                if tail@.len() == 0 {
                    assert(vstd::utf8::encode_utf8(tail@) =~= Seq::<u8>::empty());
                }
            }
            assert(tail@[0] == vstd::utf8::decode_utf8(tb)[0]);
        }
        vstd::string::StrSliceExecFns::get_char(tail, 0)
    }

    /// Returns a sub-slice over the given character range of this slice.
    pub fn slice<R: CharIdxRange>(&self, char_range: R) -> (r: RopeSlice<'a, S>)
        requires
            self.wf(),
            0 <= range_start_of(char_range) <= range_end_of(char_range, char_count(self@)),
            range_end_of(char_range, char_count(self@)) <= char_count(self@),
        ensures
            r.wf(),
            r@ == self@.subrange(
                byte_of_char(self@, range_start_of(char_range)),
                byte_of_char(self@, range_end_of(char_range, char_count(self@))),
            ),
    {
        let s = match char_range.start() {
            Option::Some(v) => v,
            Option::None => 0,
        };
        let e = match char_range.end() {
            Option::Some(v) => v,
            Option::None => self.len_chars(),
        };
        self.slice_chars(s, e)
    }

    /// Returns a sub-slice over the character range `[start, end)`.
    #[verifier::rlimit(100)]
    pub fn slice_chars(&self, start: usize, end: usize) -> (r: RopeSlice<'a, S>)
        requires
            self.wf(),
            start <= end <= char_count(self@),
        ensures
            r.wf(),
            r@ == self@.subrange(
                byte_of_char(self@, start as int),
                byte_of_char(self@, end as int),
            ),
    {
        proof {
            self.lemma_wf_len();
        }
        match &self.inner {
            SliceInner::Full { node, start_char, end_char, start_byte, end_byte, .. } => {
                let ghost t = node_text(**node);
                proof {
                    assert(self@ =~= t.subrange(self.start_off(), self.end_off()));
                    crate::text::lemma_chars_window(
                        t,
                        *start_byte as int,
                        *end_byte as int,
                        *end_byte - *start_byte,
                    );
                    crate::text::lemma_byte_of_char_from(t, 0, *start_char as int);
                    crate::text::lemma_byte_of_char_from(t, 0, *end_char as int);
                    crate::text::lemma_byte_of_char_from(self@, 0, start as int);
                    crate::text::lemma_byte_of_char_from(self@, 0, end as int);
                    crate::text::lemma_byte_of_char_from(t, 0, *start_char as int + start);
                    crate::text::lemma_byte_of_char_from(t, 0, *start_char as int + end);
                    crate::text::lemma_byte_of_char_monotone(self@, start as int, end as int);
                    if self@.len() > 0 {
                        self.lemma_view_valid();
                        assert(self@[0] == t[*start_byte as int]);
                        lemma_sub_positions(t, *start_byte as int, *end_byte as int, *start_char
                            as int, start as int);
                        lemma_sub_positions(t, *start_byte as int, *end_byte as int, *start_char
                            as int, end as int);
                    } else {
                        assert(byte_of_char(self@, start as int) == 0);
                        assert(byte_of_char(self@, end as int) == 0);
                        assert(char_count(self@) == 0);
                        assert(start == 0 && end == 0);
                    }
                }
                let r = RopeSlice::<'a, S>::new_with_range(
                    node,
                    *start_char + start,
                    *start_char + end,
                );
                proof {
                    if self@.len() > 0 {
                        assert(r@ =~= self@.subrange(
                            byte_of_char(self@, start as int),
                            byte_of_char(self@, end as int),
                        ));
                    } else {
                        assert(r@ =~= Seq::<u8>::empty());
                        assert(self@.subrange(
                            byte_of_char(self@, start as int),
                            byte_of_char(self@, end as int),
                        ) =~= Seq::<u8>::empty());
                    }
                }
                r
            },
            SliceInner::Light { text, .. } => {
                let ghost tb = text.spec_bytes();
                proof {
                    assert(self@ =~= tb);
                    vstd::utf8::encode_utf8_valid_utf8(text@);
                    vstd::utf8::is_char_boundary_start_end_of_seq(tb);
                }
                let b1 = crate::str_utils::char_to_byte_idx(text, start);
                let b2 = crate::str_utils::char_to_byte_idx(text, end);
                proof {
                    crate::text::lemma_byte_of_char_from(tb, 0, start as int);
                    crate::text::lemma_byte_of_char_from(tb, 0, end as int);
                    crate::text::lemma_byte_of_char_monotone(tb, start as int, end as int);
                    if 0 < b1 < tb.len() {
                        vstd::utf8::is_char_boundary_iff_not_is_continuation_byte(tb, b1 as int);
                    }
                    if 0 < b2 < tb.len() {
                        vstd::utf8::is_char_boundary_iff_not_is_continuation_byte(tb, b2 as int);
                    }
                }
                let piece = sub_str(text, b1, b2);
                let lbc = crate::str_utils::count_line_breaks(piece);
                proof {
                    crate::text::lemma_chars_window(tb, b1 as int, b2 as int, b2 - b1);
                    assert(chars_upto(tb, b1 as int) == start);
                    assert(chars_upto(tb, b2 as int) == end);
                    assert(char_count(piece.spec_bytes()) == end - start);
                }
                RopeSlice {
                    inner: SliceInner::Light {
                        text: piece,
                        char_count: end - start,
                        line_break_count: lbc,
                    },
                    marker: PhantomData,
                }
            },
        }
    }

    /// Returns the given line of the slice, including its terminating
    /// break, as a sub-slice.
    pub fn line(&self, line_idx: usize) -> (r: RopeSlice<'a, S>)
        requires
            self.wf(),
            line_idx <= break_count(self@),
        ensures
            r.wf(),
            r@ == self@.subrange(
                byte_of_char(self@, char_idx_at(self@, byte_of_line(self@, line_idx as int))),
                byte_of_char(
                    self@,
                    char_idx_at(self@, byte_of_line(self@, line_idx as int + 1)),
                ),
            ),
    {
        proof {
            self.lemma_wf_len();
            crate::text::lemma_breaks_upto_bounds(self@, self@.len() as int);
        }
        let ls = self.line_to_char(line_idx);
        let le = self.line_to_char(line_idx + 1);
        proof {
            crate::text::lemma_byte_of_line_from(self@, 0, line_idx as int);
            crate::text::lemma_byte_of_line_from(self@, 0, line_idx as int + 1);
            lemma_line_order(self@, line_idx as int);
            crate::text::lemma_char_floor_bounds(self@, crate::text::byte_of_line(
                self@,
                line_idx as int,
            ));
            crate::text::lemma_chars_upto_bounds(self@, crate::text::char_floor(
                self@,
                crate::text::byte_of_line(self@, line_idx as int),
            ));
            crate::text::lemma_chars_upto_bounds(self@, self@.len() as int);
        }
        self.slice_chars(ls, le)
    }

    /// Returns the entire contents of the slice as a newly allocated
    /// string.
    pub fn to_string(&self) -> (r: String)
        requires
            self.wf(),
        ensures
            vstd::utf8::encode_utf8(r@) == self@,
    {
        let ghost v = self@;
        let mut out = String::new();
        let len = self.len_bytes();
        let mut i: usize = 0;
        proof {
            assert(vstd::utf8::encode_utf8(Seq::<char>::empty()) =~= Seq::<u8>::empty());
            assert(v.subrange(0, 0) =~= Seq::<u8>::empty());
            self.lemma_view_valid();
        }
        while i < len
            invariant
                self.wf(),
                v == self@,
                len == v.len(),
                0 <= i <= len,
                vstd::utf8::encode_utf8(out@) == v.subrange(0, i as int),
                i == v.len() || !vstd::utf8::is_continuation_byte(v[i as int]),
            decreases len - i,
        {
            let ck = self.chunk_at_byte(i);
            proof {
                vstd::utf8::encode_utf8_valid_utf8(ck.0@);
                vstd::utf8::is_char_boundary_start_end_of_seq(ck.0.spec_bytes());
                if 0 < i - ck.1 < ck.0.spec_bytes().len() {
                    assert(ck.0.spec_bytes()[i - ck.1] == v[i as int]);
                    vstd::utf8::is_char_boundary_iff_not_is_continuation_byte(
                        ck.0.spec_bytes(),
                        i - ck.1,
                    );
                }
            }
            let cklen = ck.0.as_bytes().len();
            let piece = sub_str(ck.0, i - ck.1, cklen);
            let ghost before = out@;
            crate::tree::push_str_onto(&mut out, piece);
            proof {
                crate::text::lemma_encode_concat(before, piece@);
            }
            let ghost prev = i as int;
            i = ck.1 + cklen;
            proof {
                assert(piece.spec_bytes() =~= v.subrange(prev, i as int));
                assert(v.subrange(0, i as int) =~= v.subrange(0, prev) + v.subrange(
                    prev,
                    i as int,
                ));
            }
        }
        proof {
            assert(v.subrange(0, v.len() as int) =~= v);
        }
        out
    }

    /// Builds a new rope holding this slice's content, sharing storage
    /// with the underlying tree for everything but the trimmed edges.
    pub fn to_rope(&self) -> (r: Rope<S>)
        requires
            self.wf(),
        ensures
            r.wf(),
            r@ == self@,
    {
        match &self.inner {
            SliceInner::Full { node, start_char, end_char, start_byte, end_byte, .. } => {
                let ghost t = node_text(**node);
                proof {
                    crate::tree::lemma_node_text_valid::<S>(**node);
                }
                let mut whole: Rope<S> = Rope::<S>::from_root(crate::tree::arc_clone(node));
                let tail = whole.split_off(*end_char);
                proof {
                    crate::text::lemma_chars_window(t, 0, *end_byte as int, *end_byte as int);
                    assert(t.subrange(0, *end_byte as int).subrange(0, *end_byte as int)
                        =~= t.subrange(0, *end_byte as int));
                    crate::rope::lemma_prefix_byte_of_char(
                        t,
                        *end_byte as int,
                        *start_char as int,
                        *end_char as int,
                    );
                    crate::text::lemma_chars_upto_bounds(t, *end_byte as int);
                }
                let r = whole.split_off(*start_char);
                proof {
                    assert(r@ =~= self@);
                }
                r
            },
            SliceInner::Light { text, .. } => {
                let r = Rope::<S>::from_str(*text);
                proof {
                    assert(r@ =~= self@);
                }
                r
            },
        }
    }
}

/// Character positions inside a window translate by the window's start.
proof fn lemma_sub_positions(t: Seq<u8>, sb: int, eb: int, sc: int, c: int)
    requires
        0 <= sb < eb <= t.len(),
        sc == chars_upto(t, sb),
        !vstd::utf8::is_continuation_byte(t[sb]),
        eb == t.len() || !vstd::utf8::is_continuation_byte(t[eb]),
        0 <= c <= char_count(t.subrange(sb, eb)),
    ensures
        byte_of_char(t, sc + c) == sb + byte_of_char(t.subrange(sb, eb), c),
{
    let pre = t.subrange(0, sb);
    let v = t.subrange(sb, eb);
    let post = t.subrange(eb, t.len() as int);
    assert(t =~= pre + (v + post));
    crate::text::lemma_chars_window(t, 0, sb, sb);
    assert(pre.subrange(0, sb) =~= pre);
    assert(char_count(pre) == sc);
    assert(v[0] == t[sb]);
    if post.len() > 0 {
        assert(post[0] == t[eb]);
    }
    crate::text::lemma_byte_of_char_nested(pre, v, post, c);
}

/// The first character decoded from a prefix of a valid byte sequence,
/// when the prefix ends at a character boundary and is non-empty, is the
/// first character of the whole sequence.
proof fn lemma_first_char_of_prefix(s: Seq<u8>, k: int)
    requires
        vstd::utf8::valid_utf8(s),
        0 < k <= s.len(),
        k == s.len() || !vstd::utf8::is_continuation_byte(s[k]),
    ensures
        vstd::utf8::decode_utf8(s.subrange(0, k))[0] == vstd::utf8::decode_utf8(s)[0],
{
    if k < s.len() {
        vstd::utf8::is_char_boundary_iff_not_is_continuation_byte(s, k);
    }
    vstd::utf8::is_char_boundary_start_end_of_seq(s);
    vstd::utf8::decode_utf8_split(s, k);
    vstd::utf8::valid_utf8_split(s, k);
    let a = s.subrange(0, k);
    assert(vstd::utf8::decode_utf8(a).len() > 0) by {
        vstd::utf8::decode_utf8_encode_utf8(a);
        if vstd::utf8::decode_utf8(a).len() == 0 {
            assert(vstd::utf8::encode_utf8(vstd::utf8::decode_utf8(a)) =~= Seq::<u8>::empty());
        }
    }
    assert(vstd::utf8::decode_utf8(s) == vstd::utf8::decode_utf8(a) + vstd::utf8::decode_utf8(
        s.subrange(k, s.len() as int),
    ));
}

/// Line starts are ordered.
proof fn lemma_line_order(v: Seq<u8>, l: int)
    requires
        l >= 0,
    ensures
        byte_of_line(v, l) <= byte_of_line(v, l + 1),
        char_idx_at(v, byte_of_line(v, l)) <= char_idx_at(v, byte_of_line(v, l + 1)),
        char_idx_at(v, byte_of_line(v, l + 1)) <= char_count(v),
{
    lemma_line_scan_order(v, 0, l);
    let b1 = byte_of_line(v, l);
    let b2 = byte_of_line(v, l + 1);
    crate::text::lemma_char_floor_bounds(v, b1);
    crate::text::lemma_char_floor_bounds(v, b2);
    lemma_floor_monotone(v, b1, b2);
    crate::text::lemma_chars_upto_monotone(
        v,
        crate::text::char_floor(v, b1),
        crate::text::char_floor(v, b2),
    );
    crate::text::lemma_chars_upto_bounds(v, crate::text::char_floor(v, b2));
    crate::text::lemma_chars_upto_monotone(v, crate::text::char_floor(v, b2), v.len() as int);
    crate::text::lemma_chars_upto_bounds(v, v.len() as int);
}

/// The scan for a later line never stops earlier.
proof fn lemma_line_scan_order(v: Seq<u8>, i: int, l: int)
    requires
        l >= 0,
    ensures
        crate::text::byte_of_line_from(v, i, l) <= crate::text::byte_of_line_from(v, i, l + 1),
    decreases v.len() - i,
{
    if 0 <= i < v.len() {
        if l == 0 {
            crate::text::lemma_byte_of_line_from(v, i, 1);
        } else {
            if crate::text::is_line_break_at(v, i) {
                lemma_line_scan_order(v, i + 1, l - 1);
            } else {
                lemma_line_scan_order(v, i + 1, l);
            }
        }
    }
}

/// `char_floor` is monotone.
proof fn lemma_floor_monotone(v: Seq<u8>, i: int, j: int)
    requires
        i <= j,
    ensures
        crate::text::char_floor(v, i) <= crate::text::char_floor(v, j),
    decreases j - i,
{
    if i < j {
        lemma_floor_monotone(v, i, j - 1);
        crate::text::lemma_char_floor_bounds(v, j - 1);
        crate::text::lemma_char_floor_bounds(v, j);
        if 0 < j < v.len() && vstd::utf8::is_continuation_byte(v[j]) {
        }
    }
}


/// Compares the bytes of two slices position by position.
fn slices_equal<S: GraphemeSegmenter, T: GraphemeSegmenter>(
    a: &RopeSlice<S>,
    b: &RopeSlice<T>,
) -> (r: bool)
    requires
        a.wf(),
        b.wf(),
    ensures
        r == (a@ == b@),
{
    let la = a.len_bytes();
    let lb = b.len_bytes();
    if la != lb {
        proof {
            assert(a@ != b@);
        }
        return false;
    }
    let mut i: usize = 0;
    while i < la
        invariant
            a.wf(),
            b.wf(),
            la == a@.len(),
            la == b@.len(),
            0 <= i <= la,
            forall|j: int| 0 <= j < i ==> a@[j] == b@[j],
        decreases la - i,
    {
        if a.byte_at(i) != b.byte_at(i) {
            proof {
                assert(a@[i as int] != b@[i as int]);
            }
            return false;
        }
        i = i + 1;
    }
    proof {
        assert(a@ =~= b@);
    }
    true
}

/// Compares a slice's bytes with a string's.
fn slice_str_equal<S: GraphemeSegmenter>(a: &RopeSlice<S>, b: &str) -> (r: bool)
    requires
        a.wf(),
    ensures
        r == (a@ == b.spec_bytes()),
{
    let bb = b.as_bytes();
    let la = a.len_bytes();
    if la != bb.len() {
        proof {
            assert(a@ != b.spec_bytes());
        }
        return false;
    }
    let mut i: usize = 0;
    while i < la
        invariant
            a.wf(),
            la == a@.len(),
            bb@ == b.spec_bytes(),
            la == bb@.len(),
            0 <= i <= la,
            forall|j: int| 0 <= j < i ==> a@[j] == bb@[j],
        decreases la - i,
    {
        if a.byte_at(i) != bb[i] {
            proof {
                assert(a@[i as int] != b.spec_bytes()[i as int]);
            }
            return false;
        }
        i = i + 1;
    }
    proof {
        assert(a@ =~= b.spec_bytes());
    }
    true
}

impl<'a, 'b, S: GraphemeSegmenter> PartialEq<RopeSlice<'b, S>> for RopeSlice<'a, S> {
    /// Content equality: two slices are equal exactly when they hold the
    /// same text, regardless of how it is stored.
    fn eq(&self, other: &RopeSlice<'b, S>) -> (r: bool) {
        proof {
            use_type_invariant(self);
            use_type_invariant(other);
        }
        slices_equal(self, other)
    }
}

impl<'a, 'b, S: GraphemeSegmenter> vstd::std_specs::cmp::PartialEqSpecImpl<RopeSlice<'b, S>> for RopeSlice<'a, S> {
    open spec fn obeys_eq_spec() -> bool {
        true
    }

    open spec fn eq_spec(&self, other: &RopeSlice<'b, S>) -> bool {
        self@ == other@
    }
}

impl<'a, 'b, S: GraphemeSegmenter> PartialEq<&'b str> for RopeSlice<'a, S> {
    /// Content equality against a string slice.
    fn eq(&self, other: &&'b str) -> (r: bool) {
        proof {
            use_type_invariant(self);
        }
        slice_str_equal(self, *other)
    }
}

impl<'a, 'b, S: GraphemeSegmenter> vstd::std_specs::cmp::PartialEqSpecImpl<&'b str> for RopeSlice<'a, S> {
    open spec fn obeys_eq_spec() -> bool {
        true
    }

    open spec fn eq_spec(&self, other: &&'b str) -> bool {
        self@ == other.spec_bytes()
    }
}

impl<'a, 'b, S: GraphemeSegmenter> PartialEq<RopeSlice<'a, S>> for &'b str {
    /// Content equality against a string slice, in the other order.
    fn eq(&self, other: &RopeSlice<'a, S>) -> (r: bool) {
        proof {
            use_type_invariant(other);
        }
        slice_str_equal(other, *self)
    }
}

impl<'a, 'b, S: GraphemeSegmenter> vstd::std_specs::cmp::PartialEqSpecImpl<RopeSlice<'a, S>> for &'b str {
    open spec fn obeys_eq_spec() -> bool {
        true
    }

    open spec fn eq_spec(&self, other: &RopeSlice<'a, S>) -> bool {
        self.spec_bytes() == other@
    }
}

impl<'a, S: GraphemeSegmenter> PartialEq<String> for RopeSlice<'a, S> {
    /// Content equality against an owned string.
    fn eq(&self, other: &String) -> (r: bool) {
        proof {
            use_type_invariant(self);
        }
        slice_str_equal(self, other.as_str())
    }
}

impl<'a, S: GraphemeSegmenter> vstd::std_specs::cmp::PartialEqSpecImpl<String> for RopeSlice<'a, S> {
    open spec fn obeys_eq_spec() -> bool {
        true
    }

    open spec fn eq_spec(&self, other: &String) -> bool {
        self@ == vstd::utf8::encode_utf8(other@)
    }
}

impl<'a, S: GraphemeSegmenter> PartialEq<RopeSlice<'a, S>> for String {
    /// Content equality against an owned string, in the other order.
    fn eq(&self, other: &RopeSlice<'a, S>) -> (r: bool) {
        proof {
            use_type_invariant(other);
        }
        slice_str_equal(other, self.as_str())
    }
}

impl<'a, S: GraphemeSegmenter> vstd::std_specs::cmp::PartialEqSpecImpl<RopeSlice<'a, S>> for String {
    open spec fn obeys_eq_spec() -> bool {
        true
    }

    open spec fn eq_spec(&self, other: &RopeSlice<'a, S>) -> bool {
        vstd::utf8::encode_utf8(self@) == other@
    }
}

impl<S: GraphemeSegmenter> Rope<S> {
    /// Returns a read-only slice over the given character range.
    pub fn slice<R: CharIdxRange>(&self, char_range: R) -> (r: RopeSlice<S>)
        requires
            self.wf(),
            0 <= range_start_of(char_range) <= range_end_of(char_range, char_count(self@)),
            range_end_of(char_range, char_count(self@)) <= char_count(self@),
        ensures
            r.wf(),
            r@ == self@.subrange(
                byte_of_char(self@, range_start_of(char_range)),
                byte_of_char(self@, range_end_of(char_range, char_count(self@))),
            ),
    {
        let s = match char_range.start() {
            Option::Some(v) => v,
            Option::None => 0,
        };
        let e = match char_range.end() {
            Option::Some(v) => v,
            Option::None => self.len_chars(),
        };
        proof {
            self.lemma_root_facts();
        }
        RopeSlice::<S>::new_with_range(self.root_ref(), s, e)
    }

    /// Removes the characters in the given range.
    pub fn remove<R: CharIdxRange>(&mut self, char_range: R)
        requires
            old(self).wf(),
            0 <= range_start_of(char_range) <= range_end_of(
                char_range,
                char_count(old(self)@),
            ),
            range_end_of(char_range, char_count(old(self)@)) <= char_count(old(self)@),
        ensures
            final(self).wf(),
            final(self)@ == old(self)@.subrange(
                0,
                byte_of_char(old(self)@, range_start_of(char_range)),
            ) + old(self)@.subrange(
                byte_of_char(old(self)@, range_end_of(char_range, char_count(old(self)@))),
                old(self)@.len() as int,
            ),
    {
        let s = match char_range.start() {
            Option::Some(v) => v,
            Option::None => 0,
        };
        let e = match char_range.end() {
            Option::Some(v) => v,
            Option::None => self.len_chars(),
        };
        self.remove_range(s, e);
    }
}

impl<S: GraphemeSegmenter> Clone for Rope<S> {
    /// Cloning a rope only copies the handle to the shared tree; the clone
    /// holds the same text and edits to either never affect the other.
    fn clone(&self) -> (r: Self)
        ensures
            r@ == self@,
            self.wf() ==> r.wf(),
    {
        proof {
            use_type_invariant(self);
            self.lemma_inv_wf();
        }
        Rope::<S>::clone_parts(self)
    }
}

impl<S: GraphemeSegmenter> PartialEq for Rope<S> {
    /// Content equality: two ropes are equal exactly when they hold the
    /// same text, regardless of how their trees are shaped.
    fn eq(&self, other: &Rope<S>) -> (r: bool) {
        proof {
            use_type_invariant(self);
            use_type_invariant(other);
            self.lemma_inv_wf();
            other.lemma_inv_wf();
            self.lemma_view_valid();
            other.lemma_view_valid();
            crate::text::lemma_chars_upto_bounds(self@, self@.len() as int);
            crate::text::lemma_chars_upto_bounds(other@, other@.len() as int);
        }
        let a = self.slice(..);
        let b = other.slice(..);
        proof {
            lemma_full_range(self@);
            lemma_full_range(other@);
        }
        slices_equal(&a, &b)
    }
}

impl<S: GraphemeSegmenter> vstd::std_specs::cmp::PartialEqSpecImpl for Rope<S> {
    open spec fn obeys_eq_spec() -> bool {
        true
    }

    open spec fn eq_spec(&self, other: &Rope<S>) -> bool {
        self@ == other@
    }
}

impl<'a, S: GraphemeSegmenter> PartialEq<Rope<S>> for RopeSlice<'a, S> {
    /// Content equality between a slice and a rope.
    fn eq(&self, other: &Rope<S>) -> (r: bool) {
        proof {
            use_type_invariant(self);
            use_type_invariant(other);
            other.lemma_inv_wf();
            other.lemma_view_valid();
            crate::text::lemma_chars_upto_bounds(other@, other@.len() as int);
        }
        let b = other.slice(..);
        proof {
            lemma_full_range(other@);
        }
        slices_equal(self, &b)
    }
}

impl<'a, S: GraphemeSegmenter> vstd::std_specs::cmp::PartialEqSpecImpl<Rope<S>> for RopeSlice<'a, S> {
    open spec fn obeys_eq_spec() -> bool {
        true
    }

    open spec fn eq_spec(&self, other: &Rope<S>) -> bool {
        self@ == other@
    }
}

impl<'a, S: GraphemeSegmenter> PartialEq<RopeSlice<'a, S>> for Rope<S> {
    /// Content equality between a rope and a slice.
    fn eq(&self, other: &RopeSlice<'a, S>) -> (r: bool) {
        proof {
            use_type_invariant(self);
            use_type_invariant(other);
            self.lemma_inv_wf();
            self.lemma_view_valid();
            crate::text::lemma_chars_upto_bounds(self@, self@.len() as int);
        }
        let a = self.slice(..);
        proof {
            lemma_full_range(self@);
        }
        slices_equal(&a, other)
    }
}

impl<'a, S: GraphemeSegmenter> vstd::std_specs::cmp::PartialEqSpecImpl<RopeSlice<'a, S>> for Rope<S> {
    open spec fn obeys_eq_spec() -> bool {
        true
    }

    open spec fn eq_spec(&self, other: &RopeSlice<'a, S>) -> bool {
        self@ == other@
    }
}

/// The full character range of a text covers all its bytes.
proof fn lemma_full_range(t: Seq<u8>)
    requires
        t.len() == 0 || !vstd::utf8::is_continuation_byte(t[0]),
    ensures
        t.subrange(byte_of_char(t, 0), byte_of_char(t, char_count(t))) =~= t,
    decreases 0int,
{
    crate::text::lemma_chars_upto_bounds(t, t.len() as int);
    crate::text::lemma_byte_of_char_at_end(t, char_count(t));
    crate::text::lemma_byte_of_char_from(t, 0, 0);
    crate::text::lemma_chars_upto_bounds(t, byte_of_char(t, 0));
    assert(byte_of_char(t, 0) == 0) by {
        crate::text::lemma_byte_of_char_from(t, 0, 0);
        if byte_of_char(t, 0) > 0 {
            crate::text::lemma_chars_upto_monotone(t, 0, byte_of_char(t, 0));
        }
    }
}

} // verus!
