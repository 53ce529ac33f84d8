//! The persistent balanced multi-way tree of text chunks.
//!
//! A [`Node`] is either a leaf holding one chunk of text, or an internal
//! node holding reference-counted children together with one [`TextInfo`]
//! per child: the cached byte, character and line-break counts of that
//! child's subtree.  Nodes are immutable once built; every edit constructs
//! new nodes along the edited path and shares the rest, which is what makes
//! cloning a rope free and editing a clone safe.
//!
//! Well-formedness ([`node_wf`]) captures the structural invariants: chunk
//! sizes within bounds (a chunk may exceed the bound only when the
//! segmenter finds no break inside it at all), fan-out within bounds,
//! cached counts exact, children of equal height, and every junction
//! between adjacent chunks seam-clean, so that no chunk boundary ever
//! separates a CR-LF pair.

use vstd::prelude::*;
use vstd::string::StringSliceAdditionalSpecFns;
use std::sync::Arc;
use crate::text::{break_count, char_count, cut_ok, seam_ok, CARRIAGE_RETURN, LINE_FEED};
use crate::segmentation::{checked_break_spec, CrlfSegmenter, GraphemeSegmenter};

verus! {

/// Largest number of bytes a chunk normally holds.
pub const MAX_BYTES: usize = 512;

/// Smallest number of children of an internal node.
pub const MIN_CHILDREN: usize = 2;

/// Largest number of children of an internal node.
pub const MAX_CHILDREN: usize = 8;

/// Cached counts over one subtree: total bytes, total characters, total
/// line breaks.
#[derive(Debug, Clone, Copy)]
pub struct TextInfo {
    pub bytes: usize,
    pub chars: usize,
    pub line_breaks: usize,
}

/// A tree node: a leaf chunk of text, or an ordered run of shared children.
pub enum Node {
    Leaf(String),
    Internal(Branches),
}

/// The contents of an internal node: one cached [`TextInfo`] per child,
/// kept in step with `children`.
pub struct Branches {
    pub info: Vec<TextInfo>,
    pub children: Vec<Arc<Node>>,
}

/// The bytes of a chunk held in a leaf.
pub open spec fn chunk_bytes(t: String) -> Seq<u8> {
    vstd::utf8::encode_utf8(t@)
}

/// The text stored under a node: its leaf chunks, concatenated left to
/// right.
pub open spec fn node_text(n: Arc<Node>) -> Seq<u8>
    decreases n, 0int, 0int,
{
    match *n {
        Node::Leaf(t) => chunk_bytes(t),
        Node::Internal(b) => texts_from(b.children@, 0),
    }
}

/// The concatenated texts of the children from position `k` on.
pub open spec fn texts_from(cs: Seq<Arc<Node>>, k: int) -> Seq<u8>
    decreases cs, 1int, cs.len() - k,
{
    if k < 0 || k >= cs.len() {
        Seq::empty()
    } else {
        node_text(cs[k]) + texts_from(cs, k + 1)
    }
}

/// Height of a node: 0 for a leaf, one more than the tallest child for an
/// internal node.
pub open spec fn node_height(n: Arc<Node>) -> int
    decreases n, 0int, 0int,
{
    match *n {
        Node::Leaf(t) => 0,
        Node::Internal(b) => 1 + heights_max(b.children@, 0),
    }
}

/// The largest height among the children from position `k` on.
pub open spec fn heights_max(cs: Seq<Arc<Node>>, k: int) -> int
    decreases cs, 1int, cs.len() - k,
{
    if k < 0 || k >= cs.len() {
        0
    } else {
        let h = node_height(cs[k]);
        let rest = heights_max(cs, k + 1);
        if h >= rest {
            h
        } else {
            rest
        }
    }
}

/// Whether the cached counts describe the text `s` exactly.
pub open spec fn info_wf(i: TextInfo, s: Seq<u8>) -> bool {
    &&& i.bytes == s.len()
    &&& i.chars == char_count(s)
    &&& i.line_breaks == break_count(s)
}

/// Whether segmenter `S` (behind the CR-LF wrapper) finds no break strictly
/// inside `s`: the text is one indivisible segment.
pub open spec fn unbroken<S: GraphemeSegmenter>(s: Seq<u8>) -> bool {
    forall|j: int| 0 < j < s.len() ==> !checked_break_spec::<CrlfSegmenter<S>>(s, j)
}

/// Well-formedness of a leaf chunk: non-empty, and within the size bound
/// unless the segmenter finds no break inside it at all.
pub open spec fn leaf_wf<S: GraphemeSegmenter>(t: String) -> bool {
    &&& chunk_bytes(t).len() >= 1
    &&& (chunk_bytes(t).len() <= MAX_BYTES || unbroken::<S>(chunk_bytes(t)))
}

/// The per-child chain of an internal node, from position `k` on: each
/// child is well-formed, its cached counts are exact, all children have the
/// height of the first, and each junction between neighbours is seam-clean.
pub open spec fn children_ok<S: GraphemeSegmenter>(
    cs: Seq<Arc<Node>>,
    info: Seq<TextInfo>,
    k: int,
) -> bool
    decreases cs, 1int, cs.len() - k,
{
    if k < 0 || k >= cs.len() {
        true
    } else {
        &&& node_wf::<S>(cs[k])
        &&& info_wf(info[k], node_text(cs[k]))
        &&& node_height(cs[k]) == node_height(cs[0])
        &&& (k + 1 < cs.len() ==> seam_ok(node_text(cs[k]), node_text(cs[k + 1])))
        &&& children_ok::<S>(cs, info, k + 1)
    }
}

/// Well-formedness of a (non-root) node.
pub open spec fn node_wf<S: GraphemeSegmenter>(n: Arc<Node>) -> bool
    decreases n, 2int, 0int,
{
    match *n {
        Node::Leaf(t) => leaf_wf::<S>(t),
        Node::Internal(b) => {
            &&& MIN_CHILDREN <= b.children@.len() <= MAX_CHILDREN
            &&& b.info@.len() == b.children@.len()
            &&& texts_from(b.children@, 0).len() <= usize::MAX
            &&& children_ok::<S>(b.children@, b.info@, 0)
        },
    }
}

/// Well-formedness of a tree root: an internal root is an ordinary node,
/// while a leaf root may hold any amount of text up to the chunk bound,
/// including none at all.
pub open spec fn root_wf<S: GraphemeSegmenter>(n: Arc<Node>) -> bool {
    match *n {
        Node::Leaf(t) => chunk_bytes(t).len() == 0 || leaf_wf::<S>(t),
        Node::Internal(b) => node_wf::<S>(n),
    }
}

/// The concatenated texts of the children from position `i` up to (not
/// including) position `j`.
pub open spec fn texts_between(cs: Seq<Arc<Node>>, i: int, j: int) -> Seq<u8>
    decreases j - i,
{
    if i >= j || i < 0 || j > cs.len() {
        Seq::empty()
    } else {
        node_text(cs[i]) + texts_between(cs, i + 1, j)
    }
}

/// A whole-suffix concatenation is a between-concatenation up to the end.
pub proof fn lemma_texts_from_is_between(cs: Seq<Arc<Node>>, k: int)
    requires
        0 <= k <= cs.len(),
    ensures
        texts_from(cs, k) == texts_between(cs, k, cs.len() as int),
    decreases cs.len() - k,
{
    if k < cs.len() {
        lemma_texts_from_is_between(cs, k + 1);
    }
}

/// Between-concatenations split at any middle position.
pub proof fn lemma_texts_between_split(cs: Seq<Arc<Node>>, i: int, j: int, k: int)
    requires
        0 <= i <= j <= k <= cs.len(),
    ensures
        texts_between(cs, i, k) == texts_between(cs, i, j) + texts_between(cs, j, k),
    decreases j - i,
{
    if i == j {
        assert(texts_between(cs, i, j) =~= Seq::empty());
        assert(texts_between(cs, i, j) + texts_between(cs, j, k) =~= texts_between(cs, j, k));
    } else {
        lemma_texts_between_split(cs, i + 1, j, k);
        assert(node_text(cs[i]) + (texts_between(cs, i + 1, j) + texts_between(cs, j, k))
            =~= (node_text(cs[i]) + texts_between(cs, i + 1, j)) + texts_between(cs, j, k));
    }
}

/// A between-concatenation only looks at the positions between its bounds.
pub proof fn lemma_texts_between_eq(cs: Seq<Arc<Node>>, ds: Seq<Arc<Node>>, i: int, j: int, o: int)
    requires
        0 <= i <= j <= cs.len(),
        0 <= i + o,
        j + o <= ds.len(),
        forall|k: int| i <= k < j ==> cs[k] == ds[k + o],
    ensures
        texts_between(cs, i, j) == texts_between(ds, i + o, j + o),
    decreases j - i,
{
    if i < j {
        lemma_texts_between_eq(cs, ds, i + 1, j, o);
    }
}

/// A run of sibling nodes: each is well-formed, all have the height of the
/// first, and each junction between neighbours is seam-clean.
pub open spec fn run_ok<S: GraphemeSegmenter>(cs: Seq<Arc<Node>>) -> bool {
    forall|k: int|
        #![trigger cs[k]]
        0 <= k < cs.len() ==> {
            &&& node_wf::<S>(cs[k])
            &&& node_height(cs[k]) == node_height(cs[0])
            &&& (k + 1 < cs.len() ==> seam_ok(node_text(cs[k]), node_text(cs[k + 1])))
        }
}

/// The recursive per-child chain follows from the run form together with
/// exact cached counts.
pub proof fn lemma_run_to_children_ok<S: GraphemeSegmenter>(
    cs: Seq<Arc<Node>>,
    info: Seq<TextInfo>,
    k: int,
)
    requires
        run_ok::<S>(cs),
        forall|j: int| 0 <= j < cs.len() ==> info_wf(#[trigger] info[j], node_text(cs[j])),
        0 <= k <= cs.len(),
    ensures
        children_ok::<S>(cs, info, k),
    decreases cs.len() - k,
{
    if k < cs.len() {
        lemma_run_to_children_ok::<S>(cs, info, k + 1);
    }
}

/// The run form follows from the recursive per-child chain.
pub proof fn lemma_children_ok_to_run<S: GraphemeSegmenter>(cs: Seq<Arc<Node>>, info: Seq<TextInfo>)
    requires
        children_ok::<S>(cs, info, 0),
    ensures
        run_ok::<S>(cs),
{
    assert forall|k: int| 0 <= k < cs.len() implies {
        &&& node_wf::<S>(#[trigger] cs[k])
        &&& node_height(cs[k]) == node_height(cs[0])
        &&& (k + 1 < cs.len() ==> seam_ok(node_text(cs[k]), node_text(cs[k + 1])))
    } by {
        lemma_children_ok_at::<S>(cs, info, k);
    }
}

/// Everything `children_ok` says about the child at one position.
pub proof fn lemma_children_ok_at<S: GraphemeSegmenter>(
    cs: Seq<Arc<Node>>,
    info: Seq<TextInfo>,
    k: int,
)
    requires
        children_ok::<S>(cs, info, 0),
        0 <= k < cs.len(),
    ensures
        node_wf::<S>(cs[k]),
        info_wf(info[k], node_text(cs[k])),
        node_height(cs[k]) == node_height(cs[0]),
        k + 1 < cs.len() ==> seam_ok(node_text(cs[k]), node_text(cs[k + 1])),
        children_ok::<S>(cs, info, k),
{
    lemma_children_ok_from::<S>(cs, info, 0, k);
}

/// `children_ok` at a position carries to every later position.
pub proof fn lemma_children_ok_from<S: GraphemeSegmenter>(
    cs: Seq<Arc<Node>>,
    info: Seq<TextInfo>,
    i: int,
    k: int,
)
    requires
        children_ok::<S>(cs, info, i),
        0 <= i <= k <= cs.len(),
    ensures
        children_ok::<S>(cs, info, k),
    decreases k - i,
{
    if i < k {
        lemma_children_ok_from::<S>(cs, info, i + 1, k);
    }
}

/// The children of an internal node.
pub open spec fn kids(n: Arc<Node>) -> Seq<Arc<Node>> {
    (*n)->Internal_0.children@
}

/// The cached per-child counts of an internal node.
pub open spec fn kid_info(n: Arc<Node>) -> Seq<TextInfo> {
    (*n)->Internal_0.info@
}

/// Whether a node is a leaf.
pub open spec fn is_leaf(n: Arc<Node>) -> bool {
    (*n) matches Node::Leaf(_)
}

/// The chunk held by a leaf node.
pub open spec fn leaf_text(n: Arc<Node>) -> Seq<u8> {
    chunk_bytes((*n)->Leaf_0)
}

/// The characters of the chunk held by a leaf node.
pub open spec fn leaf_chars(n: Arc<Node>) -> Seq<char> {
    (*n)->Leaf_0@
}

/// A well-formed node holds at least one byte of text.
pub proof fn lemma_node_text_nonempty<S: GraphemeSegmenter>(n: Arc<Node>)
    requires
        node_wf::<S>(n),
    ensures
        node_text(n).len() >= 1,
    decreases n, 2int, 0int,
{
    if !is_leaf(n) {
        let cs = kids(n);
        lemma_children_ok_at::<S>(cs, kid_info(n), 0);
        lemma_node_text_nonempty::<S>(cs[0]);
        assert(node_text(n) == node_text(cs[0]) + texts_from(cs, 1));
    }
}

/// The text of a well-formed node is valid UTF-8 and does not begin in the
/// middle of a character.
pub proof fn lemma_node_text_valid<S: GraphemeSegmenter>(n: Arc<Node>)
    requires
        node_wf::<S>(n),
    ensures
        vstd::utf8::valid_utf8(node_text(n)),
        node_text(n).len() > 0 ==> !vstd::utf8::is_continuation_byte(node_text(n)[0]),
    decreases n, 2int, 0int,
{
    if is_leaf(n) {
        let t = leaf_text(n);
        vstd::utf8::encode_utf8_valid_utf8(leaf_chars(n));
        if t.len() > 0 {
            vstd::utf8::is_char_boundary_start_end_of_seq(t);
            vstd::utf8::is_char_boundary_iff_not_is_continuation_byte(t, 0);
        }
    } else {
        lemma_texts_from_valid::<S>(kids(n), kid_info(n), 0);
    }
}

/// The concatenated texts of a well-formed child run are valid UTF-8, start
/// cleanly, and make a seam-clean junction with each child along the run.
pub proof fn lemma_texts_from_valid<S: GraphemeSegmenter>(
    cs: Seq<Arc<Node>>,
    info: Seq<TextInfo>,
    k: int,
)
    requires
        children_ok::<S>(cs, info, k),
        0 <= k,
    ensures
        vstd::utf8::valid_utf8(texts_from(cs, k)),
        k < cs.len() ==> texts_from(cs, k).len() > 0 && texts_from(cs, k)[0] == node_text(
            cs[k],
        )[0] && !vstd::utf8::is_continuation_byte(texts_from(cs, k)[0]),
    decreases cs, 2int, cs.len() - k,
{
    if 0 <= k < cs.len() {
        lemma_node_text_valid::<S>(cs[k]);
        lemma_node_text_nonempty::<S>(cs[k]);
        lemma_texts_from_valid::<S>(cs, info, k + 1);
        vstd::utf8::valid_utf8_concat(node_text(cs[k]), texts_from(cs, k + 1));
        assert(texts_from(cs, k)[0] == node_text(cs[k])[0]);
    }
}

/// The junction between one child's text and the concatenated texts of the
/// children after it is seam-clean.
pub proof fn lemma_texts_from_seam<S: GraphemeSegmenter>(
    cs: Seq<Arc<Node>>,
    info: Seq<TextInfo>,
    k: int,
)
    requires
        children_ok::<S>(cs, info, 0),
        0 <= k < cs.len(),
    ensures
        seam_ok(node_text(cs[k]), texts_from(cs, k + 1)),
{
    if k + 1 < cs.len() {
        lemma_children_ok_at::<S>(cs, info, k);
        lemma_children_ok_at::<S>(cs, info, k + 1);
        lemma_children_ok_from::<S>(cs, info, 0, k + 1);
        lemma_texts_from_valid::<S>(cs, info, k + 1);
        lemma_node_text_nonempty::<S>(cs[k + 1]);
    }
}

/// Height is non-negative, and a well-formed node is no taller than its
/// text is long.
pub proof fn lemma_height_bounds<S: GraphemeSegmenter>(n: Arc<Node>)
    requires
        node_wf::<S>(n),
    ensures
        0 <= node_height(n) <= node_text(n).len(),
    decreases n, 2int, 0int,
{
    if !is_leaf(n) {
        let cs = kids(n);
        let info = kid_info(n);
        lemma_children_ok_at::<S>(cs, info, 0);
        lemma_children_ok_at::<S>(cs, info, 1);
        lemma_height_bounds::<S>(cs[0]);
        lemma_heights_max_uniform::<S>(cs, info, 1);
        lemma_node_text_nonempty::<S>(cs[1]);
        assert(texts_from(cs, 1) == node_text(cs[1]) + texts_from(cs, 2));
        assert(node_text(n) == node_text(cs[0]) + texts_from(cs, 1));
    }
}

/// When all children have the height of the first, the maximum over any
/// suffix is that height.
pub proof fn lemma_heights_max_uniform<S: GraphemeSegmenter>(
    cs: Seq<Arc<Node>>,
    info: Seq<TextInfo>,
    k: int,
)
    requires
        children_ok::<S>(cs, info, 0),
        cs.len() > 0,
        0 <= k,
    ensures
        k < cs.len() ==> heights_max(cs, k) == node_height(cs[0]),
        k >= cs.len() ==> heights_max(cs, k) == 0,
    decreases cs.len() - k,
{
    lemma_children_ok_at::<S>(cs, info, 0);
    lemma_height_nonneg::<S>(cs[0]);
    if k < cs.len() {
        lemma_children_ok_at::<S>(cs, info, k);
        lemma_heights_max_uniform::<S>(cs, info, k + 1);
    }
}

/// A well-formed node's height is non-negative.
pub proof fn lemma_height_nonneg<S: GraphemeSegmenter>(n: Arc<Node>)
    requires
        node_wf::<S>(n),
    ensures
        node_height(n) >= 0,
    decreases n, 2int, 0int,
{
    if !is_leaf(n) {
        let cs = kids(n);
        lemma_children_ok_at::<S>(cs, kid_info(n), 0);
        lemma_height_nonneg::<S>(cs[0]);
        lemma_heights_max_ge(cs, 0, 0);
    }
}

/// The maximum height over a suffix of children is at least each child's.
pub proof fn lemma_heights_max_ge(cs: Seq<Arc<Node>>, k: int, j: int)
    requires
        0 <= k <= j < cs.len(),
    ensures
        heights_max(cs, k) >= node_height(cs[j]),
    decreases cs.len() - k,
{
    if k < j {
        lemma_heights_max_ge(cs, k + 1, j);
    }
}


/// Relies on `Arc::clone`: the returned handle refers to the same node.
#[verifier::external_body]
pub fn arc_clone(a: &Arc<Node>) -> (r: Arc<Node>)
    ensures
        r == *a,
{
    Arc::clone(a)
}

/// Relies on `Arc::as_ref` (shared-reference access to the pointed-to
/// value): the reference is to the very node the handle holds.
#[verifier::external_body]
pub fn arc_node(a: &Arc<Node>) -> (r: &Node)
    ensures
        *r == **a,
{
    a.as_ref()
}

/// Relies on `String::push_str`: appends the characters of `s` onto `dst`.
#[verifier::external_body]
pub fn push_str_onto(dst: &mut String, s: &str)
    ensures
        final(dst)@ == old(dst)@ + s@,
{
    dst.push_str(s)
}

/// The byte range `[a, b)` of `text`, which must lie on character
/// boundaries of the (valid UTF-8) text.
pub fn sub_str<'a>(text: &'a str, a: usize, b: usize) -> (r: &'a str)
    requires
        a <= b <= text.spec_bytes().len(),
        crate::text::cut_ok(text.spec_bytes(), a as int)
            || vstd::utf8::is_char_boundary(text.spec_bytes(), a as int),
        crate::text::cut_ok(text.spec_bytes(), b as int)
            || vstd::utf8::is_char_boundary(text.spec_bytes(), b as int),
    ensures
        r.spec_bytes() == text.spec_bytes().subrange(a as int, b as int),
{
    let ghost s = text.spec_bytes();
    proof {
        vstd::utf8::encode_utf8_valid_utf8(text@);
        vstd::utf8::is_char_boundary_start_end_of_seq(s);
        if 0 < a < s.len() {
            vstd::utf8::is_char_boundary_iff_not_is_continuation_byte(s, a as int);
        }
        if 0 < b < s.len() {
            vstd::utf8::is_char_boundary_iff_not_is_continuation_byte(s, b as int);
        }
    }
    let front = text.split_at(b).0;
    proof {
        vstd::utf8::valid_utf8_split(s, b as int);
        assert(front.spec_bytes() =~= s.subrange(0, b as int));
        vstd::utf8::is_char_boundary_start_end_of_seq(front.spec_bytes());
        if 0 < a < b {
            assert(front.spec_bytes()[a as int] == s[a as int]);
            vstd::utf8::is_char_boundary_iff_not_is_continuation_byte(
                front.spec_bytes(),
                a as int,
            );
        }
    }
    let r = front.split_at(a).1;
    proof {
        assert(r.spec_bytes() =~= s.subrange(a as int, b as int));
    }
    r
}

/// The exact counts of a chunk of text.
pub fn str_info(text: &str) -> (r: TextInfo)
    ensures
        info_wf(r, text.spec_bytes()),
{
    let bytes = text.as_bytes().len();
    let chars = crate::str_utils::count_chars(text);
    let line_breaks = crate::str_utils::count_line_breaks(text);
    TextInfo { bytes, chars, line_breaks }
}

/// Character and break counts never exceed the byte count.
pub proof fn lemma_info_bounds(i: TextInfo, s: Seq<u8>)
    requires
        info_wf(i, s),
    ensures
        i.chars <= i.bytes,
        i.line_breaks <= i.bytes,
{
    crate::text::lemma_chars_upto_bounds(s, s.len() as int);
    crate::text::lemma_breaks_upto_bounds(s, s.len() as int);
}

/// The summed counts of a node's whole subtree, from its cached per-child
/// counts (or a fresh scan, for a leaf chunk).
pub fn node_info<S: GraphemeSegmenter>(n: &Arc<Node>) -> (r: TextInfo)
    requires
        is_leaf(*n) || node_wf::<S>(*n),
    ensures
        info_wf(r, node_text(*n)),
{
    match arc_node(n) {
        Node::Leaf(t) => str_info(t.as_str()),
        Node::Internal(b) => {
            let ghost cs = kids(*n);
            let ghost info = kid_info(*n);
            let mut bytes: usize = 0;
            let mut chars: usize = 0;
            let mut line_breaks: usize = 0;
            let mut k: usize = 0;
            proof {
                assert(texts_between(kids(*n), 0, 0) =~= Seq::empty());
            }
            while k < b.info.len()
                invariant
                    cs == kids(*n),
                    info == kid_info(*n),
                    (*(*n)) matches Node::Internal(bb) && bb.info@ == info && bb.children@ == cs,
                    b.info@ == info,
                    node_wf::<S>(*n),
                    0 <= k <= cs.len(),
                    info.len() == cs.len(),
                    bytes == texts_between(cs, 0, k as int).len(),
                    chars == char_count(texts_between(cs, 0, k as int)),
                    line_breaks == break_count(texts_between(cs, 0, k as int)),
                    chars <= bytes,
                    line_breaks <= bytes,
                    bytes <= texts_from(cs, 0).len(),
                decreases cs.len() - k,
            {
                let ghost pre = texts_between(cs, 0, k as int);
                let ghost cur = node_text(cs[k as int]);
                proof {
                    lemma_children_ok_at::<S>(cs, info, k as int);
                    lemma_info_bounds(info[k as int], cur);
                    lemma_texts_between_split(cs, 0, k as int, k + 1);
                    assert(texts_between(cs, k + 1, k + 1) == Seq::<u8>::empty());
                    assert(texts_between(cs, k as int, k + 1) =~= cur);
                    assert(texts_between(cs, 0, k + 1) == pre + cur);
                    crate::text::lemma_char_count_concat(pre, cur);
                    assert(seam_ok(pre, cur)) by {
                        if k > 0 && pre.len() > 0 && cur.len() > 0 {
                            lemma_children_ok_at::<S>(cs, info, k - 1);
                            lemma_texts_between_split(cs, 0, k - 1, k as int);
                            assert(texts_between(cs, k as int, k as int) == Seq::<u8>::empty());
                            assert(texts_between(cs, k - 1, k as int) =~= node_text(
                                cs[k - 1],
                            ));
                            lemma_node_text_nonempty::<S>(cs[k - 1]);
                            assert(pre == texts_between(cs, 0, k - 1) + node_text(cs[k - 1]));
                            assert(pre[pre.len() - 1] == node_text(cs[k - 1])[node_text(
                                cs[k - 1],
                            ).len() - 1]);
                        }
                    }
                    crate::text::lemma_break_count_concat(pre, cur);
                    lemma_texts_from_is_between(cs, 0);
                    lemma_texts_between_split(cs, 0, k + 1, cs.len() as int);
                }
                let ci = b.info[k];
                bytes = bytes + ci.bytes;
                chars = chars + ci.chars;
                line_breaks = line_breaks + ci.line_breaks;
                k = k + 1;
            }
            proof {
                lemma_texts_from_is_between(cs, 0);
            }
            TextInfo { bytes, chars, line_breaks }
        },
    }
}

/// The height of a node, measured along its leftmost spine; with uniform
/// child heights this is the height of the whole subtree.
pub fn height_of<S: GraphemeSegmenter>(n: &Arc<Node>) -> (h: usize)
    requires
        node_wf::<S>(*n),
    ensures
        h == node_height(*n),
    decreases node_text(*n).len(),
{
    proof {
        lemma_height_bounds::<S>(*n);
    }
    match arc_node(n) {
        Node::Leaf(_) => 0,
        Node::Internal(b) => {
            let ghost cs = kids(*n);
            let ghost info = kid_info(*n);
            proof {
                lemma_children_ok_at::<S>(cs, info, 0);
                lemma_children_ok_at::<S>(cs, info, 1);
                lemma_heights_max_uniform::<S>(cs, info, 0);
                lemma_height_bounds::<S>(cs[0]);
                lemma_node_text_nonempty::<S>(cs[1]);
                lemma_texts_from_is_between(cs, 0);
                lemma_texts_between_split(cs, 0, 1, cs.len() as int);
                lemma_texts_between_split(cs, 1, 2, cs.len() as int);
                assert(texts_between(cs, 0, 1) =~= node_text(cs[0]));
                assert(texts_between(cs, 1, 2) =~= node_text(cs[1]));
            }
            let sub = height_of::<S>(&b.children[0]);
            1 + sub
        },
    }
}

/// A leaf node holding the given non-empty chunk.
pub fn leaf_node(text: &str) -> (r: Arc<Node>)
    ensures
        node_text(r) == text.spec_bytes(),
        is_leaf(r),
        node_height(r) == 0,
        leaf_text(r) == text.spec_bytes(),
{
    Arc::new(Node::Leaf(text.to_owned()))
}


/// Edge bytes of a between-concatenation over a well-formed child run.
pub proof fn lemma_texts_between_edges_w<S: GraphemeSegmenter>(
    cs: Seq<Arc<Node>>,
    info: Seq<TextInfo>,
    i: int,
    j: int,
)
    requires
        children_ok::<S>(cs, info, 0),
        0 <= i < j <= cs.len(),
    ensures
        texts_between(cs, i, j).len() > 0,
        texts_between(cs, i, j)[0] == node_text(cs[i])[0],
        texts_between(cs, i, j)[texts_between(cs, i, j).len() - 1] == node_text(cs[j - 1])[
            node_text(cs[j - 1]).len() - 1],
{
    lemma_children_ok_at_all::<S>(cs, info);
    lemma_texts_between_edges::<S>(cs, i, j);
}

/// A non-empty between-concatenation of non-empty pieces starts with its
/// first piece's first byte and ends with its last piece's last byte.
pub proof fn lemma_texts_between_edges<S: GraphemeSegmenter>(cs: Seq<Arc<Node>>, i: int, j: int)
    requires
        0 <= i < j <= cs.len(),
        forall|k: int| i <= k < j ==> node_wf::<S>(#[trigger] cs[k]),
    ensures
        texts_between(cs, i, j).len() > 0,
        texts_between(cs, i, j)[0] == node_text(cs[i])[0],
        texts_between(cs, i, j)[texts_between(cs, i, j).len() - 1] == node_text(cs[j - 1])[
            node_text(cs[j - 1]).len() - 1],
    decreases j - i,
{
    lemma_node_text_nonempty::<S>(cs[i]);
    if i + 1 == j {
        assert(texts_between(cs, i + 1, j) == Seq::<u8>::empty());
        assert(texts_between(cs, i, j) =~= node_text(cs[i]));
    } else {
        lemma_texts_between_edges::<S>(cs, i + 1, j);
    }
}


/// Two adjacent leaf runs whose texts are the two halves of `s`, divided at
/// a valid cut, combine into one leaf run with text `s`.
proof fn lemma_combine_runs<S: GraphemeSegmenter>(
    o0: Seq<Arc<Node>>,
    o1: Seq<Arc<Node>>,
    o2: Seq<Arc<Node>>,
    s: Seq<u8>,
    split: int,
)
    requires
        o0.len() < o1.len() <= o2.len(),
        o1.subrange(0, o0.len() as int) == o0,
        o2.subrange(0, o1.len() as int) == o1,
        texts_between(o1, o0.len() as int, o1.len() as int) == s.subrange(0, split),
        texts_between(o2, o1.len() as int, o2.len() as int) == s.subrange(split, s.len() as int),
        forall|k: int|
            o0.len() <= k < o1.len() ==> is_leaf(#[trigger] o1[k]) && node_wf::<S>(o1[k]),
        forall|k: int|
            o1.len() <= k < o2.len() ==> is_leaf(#[trigger] o2[k]) && node_wf::<S>(o2[k]),
        forall|k: int|
            o0.len() <= k < o1.len() - 1 ==> seam_ok(
                node_text(#[trigger] o1[k]),
                node_text(o1[k + 1]),
            ),
        forall|k: int|
            o1.len() <= k < o2.len() - 1 ==> seam_ok(
                node_text(#[trigger] o2[k]),
                node_text(o2[k + 1]),
            ),
        cut_ok(s, split),
        0 < split < s.len(),
    ensures
        o2.len() > o0.len(),
        o2.subrange(0, o0.len() as int) == o0,
        texts_between(o2, o0.len() as int, o2.len() as int) == s,
        forall|k: int|
            o0.len() <= k < o2.len() ==> is_leaf(#[trigger] o2[k]) && node_wf::<S>(o2[k]),
        forall|k: int|
            o0.len() <= k < o2.len() - 1 ==> seam_ok(
                node_text(#[trigger] o2[k]),
                node_text(o2[k + 1]),
            ),
{
    let base = o0.len() as int;
    let mid = o1.len() as int;
    let fin = o2.len() as int;
    assert(o2.subrange(0, base) =~= o2.subrange(0, mid).subrange(0, base));
    assert forall|k: int| base <= k < mid implies o2[k] == o1[k] by {
        assert(o2.subrange(0, mid)[k] == o2[k]);
    }
    lemma_texts_between_eq(o1, o2, base, mid, 0);
    lemma_texts_between_split(o2, base, mid, fin);
    assert(s.subrange(0, split) + s.subrange(split, s.len() as int) =~= s);
    assert forall|k: int| base <= k < fin implies is_leaf(#[trigger] o2[k]) && node_wf::<S>(
        o2[k],
    ) by {
        if k < mid {
            assert(o2[k] == o1[k]);
        }
    }
    assert forall|k: int| base <= k < fin - 1 implies seam_ok(
        node_text(#[trigger] o2[k]),
        node_text(o2[k + 1]),
    ) by {
        if k + 1 < mid {
            assert(o2[k] == o1[k] && o2[k + 1] == o1[k + 1]);
        } else if k == mid - 1 {
            assert(o2[k] == o1[k]);
            lemma_texts_between_edges::<S>(o2, base, mid);
            lemma_texts_between_edges::<S>(o2, mid, fin);
            assert(node_text(o2[mid - 1])[node_text(o2[mid - 1]).len() - 1] == s[split - 1]);
            assert(node_text(o2[mid])[0] == s[split]);
        }
    }
}

/// Splits `text` into a run of well-formed leaf chunks appended to `out`:
/// their concatenation is exactly `text`, every junction between them is a
/// break the segmenter approved, and a chunk exceeds the size bound only
/// when the segmenter found no break inside it at all.
#[verifier::rlimit(100)]
pub fn chunks_into<S: GraphemeSegmenter>(text: &str, out: &mut Vec<Arc<Node>>)
    requires
        text.spec_bytes().len() >= 1,
    ensures
        final(out)@.len() > old(out)@.len(),
        final(out)@.subrange(0, old(out)@.len() as int) == old(out)@,
        texts_between(final(out)@, old(out)@.len() as int, final(out)@.len() as int)
            == text.spec_bytes(),
        forall|k: int|
            old(out)@.len() <= k < final(out)@.len() ==> is_leaf(#[trigger] final(out)@[k])
                && node_wf::<S>(final(out)@[k]),
        forall|k: int|
            old(out)@.len() <= k < final(out)@.len() - 1 ==> seam_ok(
                node_text(#[trigger] final(out)@[k]),
                node_text(final(out)@[k + 1]),
            ),
    decreases text.spec_bytes().len(),
{
    let ghost s = text.spec_bytes();
    let ghost base = out@.len() as int;
    let n = text.as_bytes().len();
    proof {
        vstd::utf8::encode_utf8_valid_utf8(text@);
    }
    if n <= MAX_BYTES {
        let leaf = leaf_node(text);
        out.push(leaf);
        proof {
            assert(out@.subrange(0, base) =~= old(out)@);
            assert(texts_between(out@, base + 1, base + 1) == Seq::<u8>::empty());
            assert(texts_between(out@, base, base + 1) =~= node_text(out@[base]));
        }
        return ;
    }
    let split = crate::segmentation::nearest_internal_break::<CrlfSegmenter<S>>(MAX_BYTES, text);
    if split == n {
        let leaf = leaf_node(text);
        out.push(leaf);
        proof {
            assert(out@.subrange(0, base) =~= old(out)@);
            assert(texts_between(out@, base + 1, base + 1) == Seq::<u8>::empty());
            assert(texts_between(out@, base, base + 1) =~= node_text(out@[base]));
            assert(unbroken::<S>(s));
        }
        return ;
    }
    proof {
        vstd::utf8::is_char_boundary_start_end_of_seq(s);
        vstd::utf8::is_char_boundary_iff_not_is_continuation_byte(s, 0);
        crate::segmentation::lemma_checked_break_is_cut::<S>(s, split as int);
    }
    let left = sub_str(text, 0, split);
    let right = sub_str(text, split, n);
    proof {
        assert(left.spec_bytes() == s.subrange(0, split as int));
        assert(right.spec_bytes() == s.subrange(split as int, s.len() as int));
        assert(left.spec_bytes().len() >= 1);
        assert(right.spec_bytes().len() >= 1);
    }
    let ghost o0 = out@;
    chunks_into::<S>(left, out);
    let ghost o1 = out@;
    chunks_into::<S>(right, out);
    proof {
        lemma_combine_runs::<S>(o0, o1, out@, s, split as int);
    }
}

/// Builds one internal node over the run `level[i .. i + take]`.
#[verifier::rlimit(80)]
fn make_internal<S: GraphemeSegmenter>(level: &Vec<Arc<Node>>, i: usize, take: usize) -> (r: Arc<
    Node,
>)
    requires
        run_ok::<S>(level@),
        i + take <= level@.len(),
        MIN_CHILDREN <= take <= MAX_CHILDREN,
        texts_from(level@, 0).len() <= usize::MAX,
    ensures
        node_wf::<S>(r),
        node_text(r) == texts_between(level@, i as int, i as int + take),
        node_height(r) == 1 + node_height(level@[i as int]),
{
    let ghost ls = level@;
    proof {
        assert(level@.len() == level.len());
    }
    let mut children: Vec<Arc<Node>> = Vec::new();
    let mut info: Vec<TextInfo> = Vec::new();
    let mut j: usize = 0;
    while j < take
        invariant
            run_ok::<S>(ls),
            ls == level@,
            ls.len() <= usize::MAX,
            i + take <= ls.len(),
            0 <= j <= take,
            children@.len() == j,
            info@.len() == j,
            forall|q: int| 0 <= q < j ==> children@[q] == ls[i + q],
            forall|q: int|
                0 <= q < j ==> info_wf(#[trigger] info@[q], node_text(children@[q])),
        decreases take - j,
    {
        let c = arc_clone(&level[i + j]);
        let ci = node_info::<S>(&c);
        children.push(c);
        info.push(ci);
        j = j + 1;
    }
    let ghost cs = children@;
    proof {
        assert forall|q: int| 0 <= q < cs.len() implies {
            &&& node_wf::<S>(#[trigger] cs[q])
            &&& node_height(cs[q]) == node_height(cs[0])
            &&& (q + 1 < cs.len() ==> seam_ok(node_text(cs[q]), node_text(cs[q + 1])))
        } by {
            assert(cs[q] == ls[i + q]);
            assert(cs[0] == ls[i as int]);
            assert(node_wf::<S>(ls[i + q]));
            assert(node_height(ls[i + q]) == node_height(ls[0]));
            assert(node_height(ls[i as int]) == node_height(ls[0]));
            if q + 1 < cs.len() {
                assert(cs[q + 1] == ls[i + q + 1]);
                assert(seam_ok(node_text(ls[i + q]), node_text(ls[i + q + 1])));
            }
        }
        assert(run_ok::<S>(cs));
        lemma_run_to_children_ok::<S>(cs, info@, 0);
        lemma_texts_from_is_between(cs, 0);
        lemma_texts_between_eq(cs, ls, 0, cs.len() as int, i as int);
        lemma_texts_from_is_between(ls, 0);
        lemma_texts_between_split(ls, 0, i as int, ls.len() as int);
        lemma_texts_between_split(ls, i as int, i as int + take, ls.len() as int);
        lemma_run_to_children_ok_h::<S>(cs, info@);
        assert(MIN_CHILDREN <= cs.len() <= MAX_CHILDREN);
        assert(info@.len() == cs.len());
        assert(texts_from(cs, 0) == texts_between(ls, i as int, i as int + take));
        assert(texts_from(ls, 0).len() <= usize::MAX);
        assert(texts_from(cs, 0).len() <= usize::MAX);
        assert(children_ok::<S>(cs, info@, 0));
    }
    let r = Arc::new(Node::Internal(Branches { info, children }));
    proof {
        assert(kids(r) == cs);
        assert(kid_info(r).len() == cs.len());
        assert(node_wf::<S>(r));
        assert(node_text(r) == texts_from(cs, 0));
        assert(node_height(r) == 1 + heights_max(cs, 0));
    }
    r
}

/// Helper giving the height of a freshly grouped internal node.
proof fn lemma_run_to_children_ok_h<S: GraphemeSegmenter>(cs: Seq<Arc<Node>>, info: Seq<TextInfo>)
    requires
        children_ok::<S>(cs, info, 0),
        cs.len() > 0,
    ensures
        heights_max(cs, 0) == node_height(cs[0]),
{
    lemma_heights_max_uniform::<S>(cs, info, 0);
}

/// Builds a tree over a non-empty run of sibling nodes, level by level.
#[verifier::rlimit(80)]
pub fn build_tree<S: GraphemeSegmenter>(nodes: Vec<Arc<Node>>) -> (r: Arc<Node>)
    requires
        nodes@.len() >= 1,
        run_ok::<S>(nodes@),
        texts_from(nodes@, 0).len() <= usize::MAX,
    ensures
        node_wf::<S>(r),
        node_text(r) == texts_from(nodes@, 0),
{
    let ghost whole = texts_from(nodes@, 0);
    let mut level = nodes;
    while level.len() > 1
        invariant
            level@.len() >= 1,
            run_ok::<S>(level@),
            texts_from(level@, 0) == whole,
            whole.len() <= usize::MAX,
        decreases level@.len(),
    {
        let ghost ls = level@;
        let mut next: Vec<Arc<Node>> = Vec::new();
        let mut i: usize = 0;
        let ghost mut last_start: int = 0;
        while i < level.len()
            invariant
                ls == level@,
                run_ok::<S>(ls),
                texts_from(ls, 0) == whole,
                whole.len() <= usize::MAX,
                ls.len() >= 2,
                0 <= i <= ls.len(),
                i == ls.len() || i + 2 <= ls.len(),
                2 * next@.len() <= i,
                (i == 0) == (next@.len() == 0),
                forall|q: int|
                    0 <= q < next@.len() ==> node_wf::<S>(#[trigger] next@[q]) && node_height(
                        next@[q],
                    ) == 1 + node_height(ls[0]),
                forall|q: int|
                    0 <= q < next@.len() - 1 ==> seam_ok(
                        node_text(#[trigger] next@[q]),
                        node_text(next@[q + 1]),
                    ),
                texts_between(next@, 0, next@.len() as int) == texts_between(ls, 0, i as int),
                next@.len() > 0 ==> 0 <= last_start < i && node_text(next@[next@.len() - 1])
                    == texts_between(ls, last_start, i as int),
            decreases ls.len() - i,
        {
            let rem = level.len() - i;
            let mut take: usize = if rem < MAX_CHILDREN {
                rem
            } else {
                MAX_CHILDREN
            };
            if rem - take == 1 {
                take = take - 1;
            }
            let ghost pre_next = next@;
            let node = make_internal::<S>(&level, i, take);
            next.push(node);
            proof {
                lemma_texts_between_split(ls, 0, i as int, i as int + take);
                assert(texts_between(next@, 0, pre_next.len() as int) == texts_between(
                    pre_next,
                    0,
                    pre_next.len() as int,
                )) by {
                    lemma_texts_between_eq(pre_next, next@, 0, pre_next.len() as int, 0);
                }
                lemma_texts_between_split(next@, 0, pre_next.len() as int, next@.len() as int);
                assert(texts_between(next@, next@.len() as int, next@.len() as int)
                    == Seq::<u8>::empty());
                assert(texts_between(next@, pre_next.len() as int, next@.len() as int)
                    =~= node_text(node));
                // seam between the previous group and this one
                assert forall|q: int| 0 <= q < next@.len() - 1 implies seam_ok(
                    node_text(#[trigger] next@[q]),
                    node_text(next@[q + 1]),
                ) by {
                    if q < pre_next.len() - 1 {
                        assert(next@[q] == pre_next[q]);
                        assert(next@[q + 1] == pre_next[q + 1]);
                    } else {
                        assert(q == pre_next.len() - 1);
                        assert(next@[q] == pre_next[q]);
                        assert(next@[q + 1] == node);
                        lemma_texts_between_edges::<S>(ls, i as int, i as int + take);
                        lemma_texts_between_edges::<S>(ls, last_start, i as int);
                        assert(node_text(ls[i - 1]).len() > 0) by {
                            lemma_node_text_nonempty::<S>(ls[i - 1]);
                        }
                        assert(node_text(ls[i as int]).len() > 0) by {
                            lemma_node_text_nonempty::<S>(ls[i as int]);
                        }
                        assert(seam_ok(node_text(ls[i - 1]), node_text(ls[i as int])));
                        assert(node_text(next@[q])[node_text(next@[q]).len() - 1] == node_text(
                            ls[i - 1],
                        )[node_text(ls[i - 1]).len() - 1]);
                        assert(node_text(node)[0] == node_text(ls[i as int])[0]);
                    }
                }
            }
            proof {
                last_start = i as int;
            }
            i = i + take;
        }
        proof {
            lemma_texts_from_is_between(ls, 0);
            lemma_texts_from_is_between(next@, 0);
            assert(next@.len() >= 1);
            assert(next@.len() < ls.len());
        }
        level = next;
    }
    let r = arc_clone(&level[0]);
    proof {
        assert(texts_from(level@, 0) =~= node_text(level@[0]) + texts_from(level@, 1));
        assert(texts_from(level@, 1) == Seq::<u8>::empty());
        assert(node_text(r) =~= texts_from(level@, 0));
    }
    r
}


/// What a chunk lookup returns: the chunk's bytes are a slice of the text
/// at offset `b`, the chunk's boundaries are valid cuts, and `c` and `l`
/// count the characters and line breaks before the chunk.
pub open spec fn chunk_result_ok(t: Seq<u8>, chunk: Seq<u8>, b: int, c: int, l: int) -> bool {
    &&& 0 <= b
    &&& b + chunk.len() <= t.len()
    &&& chunk == t.subrange(b, b + chunk.len())
    &&& c == crate::text::chars_upto(t, b)
    &&& l == crate::text::breaks_upto(t, b)
    &&& cut_ok(t, b)
    &&& cut_ok(t, b + chunk.len())
    &&& (t.len() > 0 ==> chunk.len() > 0)
}

/// The decomposition of an internal node's text around child `k`, with the
/// facts the descent needs about the three parts.
pub proof fn lemma_child_context<S: GraphemeSegmenter>(
    cs: Seq<Arc<Node>>,
    info: Seq<TextInfo>,
    k: int,
)
    requires
        children_ok::<S>(cs, info, 0),
        0 <= k < cs.len(),
    ensures
        texts_from(cs, 0) == texts_between(cs, 0, k) + (node_text(cs[k]) + texts_between(
            cs,
            k + 1,
            cs.len() as int,
        )),
        seam_ok(texts_between(cs, 0, k), node_text(cs[k])),
        seam_ok(node_text(cs[k]), texts_between(cs, k + 1, cs.len() as int)),
        node_text(cs[k]).len() > 0,
        !vstd::utf8::is_continuation_byte(node_text(cs[k])[0]),
        texts_between(cs, k + 1, cs.len() as int).len() > 0
            ==> !vstd::utf8::is_continuation_byte(
            texts_between(cs, k + 1, cs.len() as int)[0],
        ),
        k > 0 ==> texts_between(cs, 0, k).len() > 0,
        k + 1 < cs.len() ==> texts_between(cs, k + 1, cs.len() as int).len() > 0,
{
    let n = cs.len() as int;
    let pre = texts_between(cs, 0, k);
    let mid = node_text(cs[k]);
    let post = texts_between(cs, k + 1, n);
    lemma_children_ok_at::<S>(cs, info, k);
    lemma_node_text_nonempty::<S>(cs[k]);
    lemma_node_text_valid::<S>(cs[k]);
    lemma_texts_from_is_between(cs, 0);
    lemma_texts_between_split(cs, 0, k, n);
    lemma_texts_between_split(cs, k, k + 1, n);
    assert(texts_between(cs, k + 1, k + 1) == Seq::<u8>::empty());
    assert(texts_between(cs, k, k + 1) =~= mid);
    assert(texts_from(cs, 0) =~= pre + (mid + post));
    if k > 0 {
        lemma_children_ok_at_all::<S>(cs, info);
        lemma_texts_between_edges::<S>(cs, 0, k);
        lemma_children_ok_at::<S>(cs, info, k - 1);
        lemma_node_text_nonempty::<S>(cs[k - 1]);
    }
    if k + 1 < n {
        lemma_children_ok_at_all::<S>(cs, info);
        lemma_texts_between_edges::<S>(cs, k + 1, n);
        lemma_children_ok_at::<S>(cs, info, k + 1);
        lemma_node_text_nonempty::<S>(cs[k + 1]);
        lemma_node_text_valid::<S>(cs[k + 1]);
    }
}

/// `children_ok` instantiated at every position at once.
proof fn lemma_children_ok_at_all<S: GraphemeSegmenter>(cs: Seq<Arc<Node>>, info: Seq<TextInfo>)
    requires
        children_ok::<S>(cs, info, 0),
    ensures
        forall|q: int| 0 <= q < cs.len() ==> node_wf::<S>(#[trigger] cs[q]),
{
    assert forall|q: int| 0 <= q < cs.len() implies node_wf::<S>(#[trigger] cs[q]) by {
        lemma_children_ok_at::<S>(cs, info, q);
    }
}

/// Returns the chunk containing the given byte offset of the node's text,
/// with the chunk's starting byte offset, starting character index and
/// starting line index.  An offset equal to the text's length returns the
/// last chunk.
#[verifier::rlimit(100)]
pub fn get_chunk_at_byte<'a, S: GraphemeSegmenter>(node: &'a Arc<Node>, byte_idx: usize) -> (r: (
    &'a str,
    usize,
    usize,
    usize,
))
    requires
        is_leaf(*node) || node_wf::<S>(*node),
        byte_idx <= node_text(*node).len(),
    ensures
        chunk_result_ok(node_text(*node), r.0.spec_bytes(), r.1 as int, r.2 as int, r.3 as int),
        r.1 <= byte_idx <= r.1 + r.0.spec_bytes().len(),
        byte_idx < r.1 + r.0.spec_bytes().len() || r.1 + r.0.spec_bytes().len() == node_text(
            *node,
        ).len(),
    decreases node_text(*node).len(),
{
    let ghost whole = node_text(*node);
    match arc_node(node) {
        Node::Leaf(t) => {
            proof {
                vstd::utf8::encode_utf8_valid_utf8(leaf_chars(*node));
                if whole.len() > 0 {
                    vstd::utf8::is_char_boundary_start_end_of_seq(whole);
                    vstd::utf8::is_char_boundary_iff_not_is_continuation_byte(whole, 0);
                }
                assert(whole.subrange(0, whole.len() as int) =~= whole);
            }
            (t.as_str(), 0, 0, 0)
        },
        Node::Internal(b) => {
            let ghost cs = kids(*node);
            let ghost info = kid_info(*node);
            let nch = b.children.len();
            let mut k: usize = 0;
            let mut accb: usize = 0;
            let mut accc: usize = 0;
            let mut accl: usize = 0;
            proof {
                assert(texts_between(cs, 0, 0) =~= Seq::<u8>::empty());
                lemma_texts_from_is_between(cs, 0);
            }
            loop
                invariant_except_break
                    node_wf::<S>(*node),
                    cs == kids(*node),
                    info == kid_info(*node),
                    (*(*node)) matches Node::Internal(bb) && bb.info@ == info && bb.children@
                        == cs,
                    b.info@ == info,
                    b.children@ == cs,
                    whole == node_text(*node),
                    whole == texts_from(cs, 0),
                    whole.len() <= usize::MAX,
                    nch == cs.len(),
                    0 <= k < cs.len(),
                    accb == texts_between(cs, 0, k as int).len(),
                    accc == char_count(texts_between(cs, 0, k as int)),
                    accl == break_count(texts_between(cs, 0, k as int)),
                    accb <= byte_idx <= whole.len(),
                ensures
                    0 <= k < cs.len(),
                    accb == texts_between(cs, 0, k as int).len(),
                    accc == char_count(texts_between(cs, 0, k as int)),
                    accl == break_count(texts_between(cs, 0, k as int)),
                    accb <= byte_idx <= whole.len(),
                    byte_idx - accb <= node_text(cs[k as int]).len(),
                    byte_idx - accb < node_text(cs[k as int]).len() || accb + node_text(
                        cs[k as int],
                    ).len() == whole.len(),
                decreases cs.len() - k,
            {
                proof {
                    lemma_child_context::<S>(cs, info, k as int);
                    lemma_children_ok_at::<S>(cs, info, k as int);
                    let pre = texts_between(cs, 0, k as int);
                    let mid = node_text(cs[k as int]);
                    lemma_texts_between_split(cs, 0, k as int, k + 1);
                    assert(texts_between(cs, k + 1, k + 1) == Seq::<u8>::empty());
                    assert(texts_between(cs, k as int, k + 1) =~= mid);
                    crate::text::lemma_char_count_concat(pre, mid);
                    crate::text::lemma_break_count_concat(pre, mid);
                    crate::text::lemma_chars_upto_bounds(pre, pre.len() as int);
                    crate::text::lemma_breaks_upto_bounds(pre, pre.len() as int);
                    crate::text::lemma_chars_upto_bounds(mid, mid.len() as int);
                    crate::text::lemma_breaks_upto_bounds(mid, mid.len() as int);
                    lemma_texts_between_split(cs, 0, k + 1, cs.len() as int);
                    if k + 1 >= cs.len() {
                        assert(accb + node_text(cs[k as int]).len() == whole.len());
                    }
                }
                let ci = b.info[k];
                if k + 1 >= nch {
                    break ;
                }
                if byte_idx < accb + ci.bytes {
                    break ;
                }
                accb = accb + ci.bytes;
                accc = accc + ci.chars;
                accl = accl + ci.line_breaks;
                k = k + 1;
            }
            proof {
                lemma_child_context::<S>(cs, info, k as int);
                lemma_children_ok_at::<S>(cs, info, k as int);
                crate::text::lemma_chars_upto_bounds(
                    texts_between(cs, 0, k as int),
                    texts_between(cs, 0, k as int).len() as int,
                );
                crate::text::lemma_breaks_upto_bounds(
                    texts_between(cs, 0, k as int),
                    texts_between(cs, 0, k as int).len() as int,
                );
            }
            let rel = byte_idx - accb;
            let ghost pre = texts_between(cs, 0, k as int);
            let ghost mid = node_text(cs[k as int]);
            let ghost post = texts_between(cs, k + 1, cs.len() as int);
            let sub = get_chunk_at_byte::<S>(&b.children[k], rel);
            proof {
                let bb = sub.1 as int;
                let cl = sub.0.spec_bytes().len() as int;
                crate::text::lemma_counts_in_context(pre, mid, post, bb);
                crate::text::lemma_cut_in_context(pre, mid, post, bb);
                crate::text::lemma_cut_in_context(pre, mid, post, bb + cl);
                crate::text::lemma_chars_upto_bounds(mid, bb);
                crate::text::lemma_breaks_upto_bounds(mid, bb);
                assert(whole.subrange(accb + bb, accb + bb + cl) =~= mid.subrange(bb, bb + cl));
            }
            (sub.0, accb + sub.1, accc + sub.2, accl + sub.3)
        },
    }
}


/// Returns the chunk containing the given character index of the node's
/// text, with the chunk's starting byte offset, starting character index
/// and starting line index.  An index equal to the character count returns
/// the last chunk.
#[verifier::rlimit(100)]
pub fn get_chunk_at_char<'a, S: GraphemeSegmenter>(node: &'a Arc<Node>, char_idx: usize) -> (r: (
    &'a str,
    usize,
    usize,
    usize,
))
    requires
        is_leaf(*node) || node_wf::<S>(*node),
        char_idx <= char_count(node_text(*node)),
    ensures
        chunk_result_ok(node_text(*node), r.0.spec_bytes(), r.1 as int, r.2 as int, r.3 as int),
        r.2 <= char_idx <= r.2 + char_count(r.0.spec_bytes()),
        char_idx < r.2 + char_count(r.0.spec_bytes()) || r.1 + r.0.spec_bytes().len()
            == node_text(*node).len(),
    decreases node_text(*node).len(),
{
    let ghost whole = node_text(*node);
    match arc_node(node) {
        Node::Leaf(t) => {
            proof {
                vstd::utf8::encode_utf8_valid_utf8(leaf_chars(*node));
                if whole.len() > 0 {
                    vstd::utf8::is_char_boundary_start_end_of_seq(whole);
                    vstd::utf8::is_char_boundary_iff_not_is_continuation_byte(whole, 0);
                }
                assert(whole.subrange(0, whole.len() as int) =~= whole);
            }
            (t.as_str(), 0, 0, 0)
        },
        Node::Internal(b) => {
            let ghost cs = kids(*node);
            let ghost info = kid_info(*node);
            let nch = b.children.len();
            let mut k: usize = 0;
            let mut accb: usize = 0;
            let mut accc: usize = 0;
            let mut accl: usize = 0;
            proof {
                assert(texts_between(cs, 0, 0) =~= Seq::<u8>::empty());
                lemma_texts_from_is_between(cs, 0);
            }
            loop
                invariant_except_break
                    node_wf::<S>(*node),
                    cs == kids(*node),
                    info == kid_info(*node),
                    (*(*node)) matches Node::Internal(bb) && bb.info@ == info && bb.children@
                        == cs,
                    b.info@ == info,
                    b.children@ == cs,
                    whole == node_text(*node),
                    whole == texts_from(cs, 0),
                    whole.len() <= usize::MAX,
                    nch == cs.len(),
                    0 <= k < cs.len(),
                    accb == texts_between(cs, 0, k as int).len(),
                    accc == char_count(texts_between(cs, 0, k as int)),
                    accl == break_count(texts_between(cs, 0, k as int)),
                    accc <= char_idx <= char_count(whole),
                ensures
                    0 <= k < cs.len(),
                    accb == texts_between(cs, 0, k as int).len(),
                    accc == char_count(texts_between(cs, 0, k as int)),
                    accl == break_count(texts_between(cs, 0, k as int)),
                    accc <= char_idx,
                    char_idx - accc <= char_count(node_text(cs[k as int])),
                    char_idx - accc < char_count(node_text(cs[k as int])) || accb + node_text(
                        cs[k as int],
                    ).len() == whole.len(),
                decreases cs.len() - k,
            {
                proof {
                    lemma_child_context::<S>(cs, info, k as int);
                    lemma_children_ok_at::<S>(cs, info, k as int);
                    let pre = texts_between(cs, 0, k as int);
                    let mid = node_text(cs[k as int]);
                    let post = texts_between(cs, k + 1, cs.len() as int);
                    lemma_texts_between_split(cs, 0, k as int, k + 1);
                    assert(texts_between(cs, k + 1, k + 1) == Seq::<u8>::empty());
                    assert(texts_between(cs, k as int, k + 1) =~= mid);
                    crate::text::lemma_char_count_concat(pre, mid);
                    crate::text::lemma_break_count_concat(pre, mid);
                    crate::text::lemma_chars_upto_bounds(pre, pre.len() as int);
                    crate::text::lemma_breaks_upto_bounds(pre, pre.len() as int);
                    crate::text::lemma_chars_upto_bounds(mid, mid.len() as int);
                    crate::text::lemma_breaks_upto_bounds(mid, mid.len() as int);
                    lemma_texts_between_split(cs, 0, k + 1, cs.len() as int);
                    if k + 1 >= cs.len() {
                        crate::text::lemma_char_count_concat(pre, mid + post);
                        crate::text::lemma_char_count_concat(mid, post);
                        assert(post == Seq::<u8>::empty());
                        assert(char_count(post) == 0);
                        assert(accc + char_count(mid) == char_count(whole));
                    }
                }
                let ci = b.info[k];
                if k + 1 >= nch {
                    break ;
                }
                if char_idx < accc + ci.chars {
                    break ;
                }
                accb = accb + ci.bytes;
                accc = accc + ci.chars;
                accl = accl + ci.line_breaks;
                k = k + 1;
            }
            proof {
                lemma_child_context::<S>(cs, info, k as int);
                lemma_children_ok_at::<S>(cs, info, k as int);
                crate::text::lemma_chars_upto_bounds(
                    texts_between(cs, 0, k as int),
                    texts_between(cs, 0, k as int).len() as int,
                );
                crate::text::lemma_breaks_upto_bounds(
                    texts_between(cs, 0, k as int),
                    texts_between(cs, 0, k as int).len() as int,
                );
            }
            let rel = char_idx - accc;
            let ghost pre = texts_between(cs, 0, k as int);
            let ghost mid = node_text(cs[k as int]);
            let ghost post = texts_between(cs, k + 1, cs.len() as int);
            let sub = get_chunk_at_char::<S>(&b.children[k], rel);
            proof {
                let bb = sub.1 as int;
                let cl = sub.0.spec_bytes().len() as int;
                crate::text::lemma_counts_in_context(pre, mid, post, bb);
                crate::text::lemma_cut_in_context(pre, mid, post, bb);
                crate::text::lemma_cut_in_context(pre, mid, post, bb + cl);
                crate::text::lemma_chars_upto_bounds(mid, bb);
                crate::text::lemma_breaks_upto_bounds(mid, bb);
                assert(whole.subrange(accb + bb, accb + bb + cl) =~= mid.subrange(bb, bb + cl));
                // character counts of the chunk localize
                assert(sub.0.spec_bytes() == mid.subrange(bb, bb + cl));
                crate::text::lemma_chars_upto_concat(
                    mid.subrange(0, bb),
                    mid.subrange(bb, mid.len() as int),
                    bb + char_count(sub.0.spec_bytes()),
                );
                lemma_chunk_char_window(mid, bb, cl, sub.2 as int);
            }
            (sub.0, accb + sub.1, accc + sub.2, accl + sub.3)
        },
    }
}

/// Character counts over a chunk window localize: the characters of the
/// window counted from its start equal the difference of the counts at its
/// ends.
proof fn lemma_chunk_char_window(mid: Seq<u8>, bb: int, cl: int, cc: int)
    requires
        0 <= bb,
        0 <= cl,
        bb + cl <= mid.len(),
        cc == crate::text::chars_upto(mid, bb),
    ensures
        char_count(mid.subrange(bb, bb + cl)) == crate::text::chars_upto(mid, bb + cl) - cc,
{
    let a = mid.subrange(0, bb);
    let w = mid.subrange(bb, bb + cl);
    let c = mid.subrange(bb + cl, mid.len() as int);
    assert(mid =~= a + (w + c));
    crate::text::lemma_chars_upto_concat(a, w + c, bb);
    crate::text::lemma_chars_upto_concat(a, w + c, bb + cl);
    crate::text::lemma_chars_upto_concat(w, c, cl);
    crate::text::lemma_chars_upto_concat(w, c, 0);
}


/// Returns the chunk containing the `l`-th line break of the node's text
/// (breaks are numbered from 1), with the chunk's starting byte offset,
/// starting character index and starting line index.
#[verifier::rlimit(100)]
pub fn get_chunk_at_line_break<'a, S: GraphemeSegmenter>(node: &'a Arc<Node>, l: usize) -> (r: (
    &'a str,
    usize,
    usize,
    usize,
))
    requires
        is_leaf(*node) || node_wf::<S>(*node),
        1 <= l <= break_count(node_text(*node)),
    ensures
        chunk_result_ok(node_text(*node), r.0.spec_bytes(), r.1 as int, r.2 as int, r.3 as int),
        r.3 < l <= r.3 + break_count(r.0.spec_bytes()),
    decreases node_text(*node).len(),
{
    let ghost whole = node_text(*node);
    match arc_node(node) {
        Node::Leaf(t) => {
            proof {
                vstd::utf8::encode_utf8_valid_utf8(leaf_chars(*node));
                if whole.len() > 0 {
                    vstd::utf8::is_char_boundary_start_end_of_seq(whole);
                    vstd::utf8::is_char_boundary_iff_not_is_continuation_byte(whole, 0);
                }
                assert(whole.subrange(0, whole.len() as int) =~= whole);
                crate::text::lemma_breaks_upto_bounds(whole, whole.len() as int);
            }
            (t.as_str(), 0, 0, 0)
        },
        Node::Internal(b) => {
            let ghost cs = kids(*node);
            let ghost info = kid_info(*node);
            let nch = b.children.len();
            let mut k: usize = 0;
            let mut accb: usize = 0;
            let mut accc: usize = 0;
            let mut accl: usize = 0;
            proof {
                assert(texts_between(cs, 0, 0) =~= Seq::<u8>::empty());
                lemma_texts_from_is_between(cs, 0);
            }
            loop
                invariant_except_break
                    node_wf::<S>(*node),
                    cs == kids(*node),
                    info == kid_info(*node),
                    (*(*node)) matches Node::Internal(bb) && bb.info@ == info && bb.children@
                        == cs,
                    b.info@ == info,
                    b.children@ == cs,
                    whole == node_text(*node),
                    whole == texts_from(cs, 0),
                    whole.len() <= usize::MAX,
                    nch == cs.len(),
                    0 <= k < cs.len(),
                    accb == texts_between(cs, 0, k as int).len(),
                    accc == char_count(texts_between(cs, 0, k as int)),
                    accl == break_count(texts_between(cs, 0, k as int)),
                    accl < l <= break_count(whole),
                ensures
                    0 <= k < cs.len(),
                    accb == texts_between(cs, 0, k as int).len(),
                    accc == char_count(texts_between(cs, 0, k as int)),
                    accl == break_count(texts_between(cs, 0, k as int)),
                    accl < l,
                    l - accl <= break_count(node_text(cs[k as int])),
                decreases cs.len() - k,
            {
                proof {
                    lemma_child_context::<S>(cs, info, k as int);
                    lemma_children_ok_at::<S>(cs, info, k as int);
                    let pre = texts_between(cs, 0, k as int);
                    let mid = node_text(cs[k as int]);
                    let post = texts_between(cs, k + 1, cs.len() as int);
                    lemma_texts_between_split(cs, 0, k as int, k + 1);
                    assert(texts_between(cs, k + 1, k + 1) == Seq::<u8>::empty());
                    assert(texts_between(cs, k as int, k + 1) =~= mid);
                    crate::text::lemma_char_count_concat(pre, mid);
                    crate::text::lemma_break_count_concat(pre, mid);
                    crate::text::lemma_chars_upto_bounds(pre, pre.len() as int);
                    crate::text::lemma_breaks_upto_bounds(pre, pre.len() as int);
                    crate::text::lemma_chars_upto_bounds(mid, mid.len() as int);
                    crate::text::lemma_breaks_upto_bounds(mid, mid.len() as int);
                    lemma_texts_between_split(cs, 0, k + 1, cs.len() as int);
                    if k + 1 >= cs.len() {
                        crate::text::lemma_break_count_concat(pre, mid + post);
                        assert(post == Seq::<u8>::empty());
                        assert(mid + post =~= mid);
                        assert(accl + break_count(mid) == break_count(whole));
                    }
                }
                let ci = b.info[k];
                if k + 1 >= nch {
                    break ;
                }
                if l <= accl + ci.line_breaks {
                    break ;
                }
                accb = accb + ci.bytes;
                accc = accc + ci.chars;
                accl = accl + ci.line_breaks;
                k = k + 1;
            }
            proof {
                lemma_child_context::<S>(cs, info, k as int);
                lemma_children_ok_at::<S>(cs, info, k as int);
                crate::text::lemma_chars_upto_bounds(
                    texts_between(cs, 0, k as int),
                    texts_between(cs, 0, k as int).len() as int,
                );
                crate::text::lemma_breaks_upto_bounds(
                    texts_between(cs, 0, k as int),
                    texts_between(cs, 0, k as int).len() as int,
                );
            }
            let rel = l - accl;
            let ghost pre = texts_between(cs, 0, k as int);
            let ghost mid = node_text(cs[k as int]);
            let ghost post = texts_between(cs, k + 1, cs.len() as int);
            let sub = get_chunk_at_line_break::<S>(&b.children[k], rel);
            proof {
                let bb = sub.1 as int;
                let cl = sub.0.spec_bytes().len() as int;
                crate::text::lemma_counts_in_context(pre, mid, post, bb);
                crate::text::lemma_cut_in_context(pre, mid, post, bb);
                crate::text::lemma_cut_in_context(pre, mid, post, bb + cl);
                crate::text::lemma_chars_upto_bounds(mid, bb);
                crate::text::lemma_breaks_upto_bounds(mid, bb);
                assert(whole.subrange(accb + bb, accb + bb + cl) =~= mid.subrange(bb, bb + cl));
            }
            (sub.0, accb + sub.1, accc + sub.2, accl + sub.3)
        },
    }
}


/// Concatenating two runs of equal height with a seam-clean junction gives
/// a run whose text is the concatenation of the two texts.
proof fn lemma_run_concat<S: GraphemeSegmenter>(a: Seq<Arc<Node>>, b: Seq<Arc<Node>>)
    requires
        run_ok::<S>(a),
        run_ok::<S>(b),
        a.len() > 0,
        b.len() > 0,
        node_height(a[0]) == node_height(b[0]),
        seam_ok(node_text(a[a.len() - 1]), node_text(b[0])),
    ensures
        run_ok::<S>(a + b),
        texts_from(a + b, 0) == texts_from(a, 0) + texts_from(b, 0),
{
    let m = a + b;
    assert forall|k: int| 0 <= k < m.len() implies {
        &&& node_wf::<S>(#[trigger] m[k])
        &&& node_height(m[k]) == node_height(m[0])
        &&& (k + 1 < m.len() ==> seam_ok(node_text(m[k]), node_text(m[k + 1])))
    } by {
        if k < a.len() {
            assert(m[k] == a[k]);
            if k + 1 < a.len() {
                assert(m[k + 1] == a[k + 1]);
            } else if k + 1 < m.len() {
                assert(m[k + 1] == b[0]);
            }
        } else {
            assert(m[k] == b[k - a.len()]);
            assert(node_height(b[k - a.len()]) == node_height(b[0]));
            if k + 1 < m.len() {
                assert(m[k + 1] == b[k + 1 - a.len()]);
            }
        }
        assert(m[0] == a[0]);
    }
    lemma_texts_from_is_between(m, 0);
    lemma_texts_from_is_between(a, 0);
    lemma_texts_from_is_between(b, 0);
    lemma_texts_between_split(m, 0, a.len() as int, m.len() as int);
    lemma_texts_between_eq(a, m, 0, a.len() as int, 0);
    lemma_texts_between_eq(b, m, 0, b.len() as int, a.len() as int);
}

/// Appends clones of the nodes of `src` onto `dst`.
fn append_clones(dst: &mut Vec<Arc<Node>>, src: &Vec<Arc<Node>>)
    ensures
        final(dst)@ == old(dst)@ + src@,
{
    let ghost base = old(dst)@;
    let mut j: usize = 0;
    while j < src.len()
        invariant
            0 <= j <= src@.len(),
            dst@ == base + src@.subrange(0, j as int),
        decreases src@.len() - j,
    {
        let c = arc_clone(&src[j]);
        dst.push(c);
        proof {
            assert(base + src@.subrange(0, j + 1) =~= (base + src@.subrange(0, j as int)).push(
                src@[j as int],
            ));
        }
        j = j + 1;
    }
    proof {
        assert(src@.subrange(0, src@.len() as int) =~= src@);
    }
}

/// The children of a well-formed internal node are a run, their text is the
/// node's text, and their common height is one less than the node's.
proof fn lemma_node_children_run<S: GraphemeSegmenter>(n: Arc<Node>)
    requires
        node_wf::<S>(n),
        !is_leaf(n),
    ensures
        run_ok::<S>(kids(n)),
        texts_from(kids(n), 0) == node_text(n),
        kids(n).len() >= MIN_CHILDREN,
        kids(n).len() <= MAX_CHILDREN,
        node_height(kids(n)[0]) == node_height(n) - 1,
        node_text(kids(n)[0])[0] == node_text(n)[0],
        node_text(kids(n)[kids(n).len() - 1])[node_text(kids(n)[kids(n).len() - 1]).len() - 1]
            == node_text(n)[node_text(n).len() - 1],
{
    let cs = kids(n);
    let info = kid_info(n);
    lemma_children_ok_to_run::<S>(cs, info);
    lemma_children_ok_at::<S>(cs, info, 0);
    lemma_heights_max_uniform::<S>(cs, info, 0);
    lemma_children_ok_at_all::<S>(cs, info);
    lemma_texts_from_is_between(cs, 0);
    lemma_texts_between_edges::<S>(cs, 0, cs.len() as int);
}

/// Builds one node over a run, grouping it under a fresh parent pair when
/// it exceeds the fan-out bound.  The run must be short enough that two
/// groups always suffice.
fn node_over_run<S: GraphemeSegmenter>(merged: Vec<Arc<Node>>) -> (out: Arc<Node>)
    requires
        run_ok::<S>(merged@),
        MIN_CHILDREN <= merged@.len() <= 2 * MAX_CHILDREN,
        texts_from(merged@, 0).len() <= usize::MAX,
    ensures
        node_wf::<S>(out),
        node_text(out) == texts_from(merged@, 0),
        node_height(out) == 1 + node_height(merged@[0]) || node_height(out) == 2 + node_height(
            merged@[0],
        ),
    decreases 0int,
{
    let m = merged.len();
    proof {
        lemma_texts_from_is_between(merged@, 0);
    }
    if m <= MAX_CHILDREN {
        let r = make_internal::<S>(&merged, 0, m);
        proof {
            assert(texts_between(merged@, 0, m as int) == texts_from(merged@, 0));
        }
        r
    } else {
        let t1 = m / 2;
        let a = make_internal::<S>(&merged, 0, t1);
        let bnode = make_internal::<S>(&merged, t1, m - t1);
        let mut two: Vec<Arc<Node>> = Vec::new();
        two.push(a);
        two.push(bnode);
        proof {
            let ts = two@;
            lemma_children_ok_at_all_run::<S>(merged@);
            lemma_texts_between_edges::<S>(merged@, 0, t1 as int);
            lemma_texts_between_edges::<S>(merged@, t1 as int, m as int);
            lemma_node_text_nonempty::<S>(merged@[t1 - 1]);
            lemma_node_text_nonempty::<S>(merged@[t1 as int]);
            assert(seam_ok(node_text(merged@[t1 - 1]), node_text(merged@[t1 as int])));
            assert(seam_ok(node_text(ts[0]), node_text(ts[1])));
            assert(run_ok::<S>(ts)) by {
                assert(ts[0] == a && ts[1] == bnode);
            }
            lemma_texts_between_split(merged@, 0, t1 as int, m as int);
            assert(texts_between(ts, 2, 2) == Seq::<u8>::empty());
            assert(texts_between(ts, 1, 2) =~= node_text(bnode));
            assert(texts_between(ts, 0, 2) =~= node_text(a) + node_text(bnode));
            assert(texts_from(ts, 0) == texts_between(ts, 0, 2)) by {
                lemma_texts_from_is_between(ts, 0);
            }
        }
        let r = make_internal::<S>(&two, 0, 2);
        proof {
            assert(texts_between(two@, 0, 2) == texts_from(two@, 0));
        }
        r
    }
}

/// `run_ok` instantiated at every position at once.
proof fn lemma_children_ok_at_all_run<S: GraphemeSegmenter>(cs: Seq<Arc<Node>>)
    requires
        run_ok::<S>(cs),
    ensures
        forall|q: int| 0 <= q < cs.len() ==> node_wf::<S>(#[trigger] cs[q]),
{
}


/// A contiguous part of a run is a run.
proof fn lemma_run_sub<S: GraphemeSegmenter>(cs: Seq<Arc<Node>>, i: int, j: int)
    requires
        run_ok::<S>(cs),
        0 <= i <= j <= cs.len(),
    ensures
        run_ok::<S>(cs.subrange(i, j)),
{
    let sub = cs.subrange(i, j);
    assert forall|k: int| 0 <= k < sub.len() implies {
        &&& node_wf::<S>(#[trigger] sub[k])
        &&& node_height(sub[k]) == node_height(sub[0])
        &&& (k + 1 < sub.len() ==> seam_ok(node_text(sub[k]), node_text(sub[k + 1])))
    } by {
        assert(sub[k] == cs[i + k]);
        assert(sub[0] == cs[i]);
        assert(node_height(cs[i + k]) == node_height(cs[0]));
        assert(node_height(cs[i]) == node_height(cs[0]));
        if k + 1 < sub.len() {
            assert(sub[k + 1] == cs[i + k + 1]);
            assert(seam_ok(node_text(cs[i + k]), node_text(cs[i + k + 1])));
        }
    }
}

/// A well-formed internal node has positive height.
proof fn lemma_internal_height<S: GraphemeSegmenter>(n: Arc<Node>)
    requires
        node_wf::<S>(n),
        !is_leaf(n),
    ensures
        node_height(n) >= 1,
{
    lemma_children_ok_at::<S>(kids(n), kid_info(n), 0);
    lemma_height_nonneg::<S>(kids(n)[0]);
    lemma_heights_max_uniform::<S>(kids(n), kid_info(n), 0);
}

/// The chunk string of a leaf node.
fn leaf_str<'a>(n: &'a Arc<Node>) -> (r: &'a str)
    requires
        is_leaf(*n),
    ensures
        r.spec_bytes() == node_text(*n),
        r@ == leaf_chars(*n),
{
    match arc_node(n) {
        Node::Leaf(t) => t.as_str(),
        Node::Internal(_) => {
            proof {
                assert(false);
            }
            ""
        },
    }
}

/// Appends clones of the nodes of `src[from .. to]` onto `dst`.
fn append_clones_range(dst: &mut Vec<Arc<Node>>, src: &Vec<Arc<Node>>, from: usize, to: usize)
    requires
        from <= to <= src@.len(),
    ensures
        final(dst)@ == old(dst)@ + src@.subrange(from as int, to as int),
{
    let ghost base = old(dst)@;
    let mut j: usize = from;
    while j < to
        invariant
            from <= j <= to <= src@.len(),
            dst@ == base + src@.subrange(from as int, j as int),
        decreases to - j,
    {
        let c = arc_clone(&src[j]);
        dst.push(c);
        proof {
            assert(base + src@.subrange(from as int, j + 1) =~= (base + src@.subrange(
                from as int,
                j as int,
            )).push(src@[j as int]));
        }
        j = j + 1;
    }
}

/// Joins two well-formed trees into one whose text is the concatenation of
/// theirs.  The junction must be seam-clean; the result is no taller than
/// one above the taller of the two.
#[verifier::rlimit(100)]
pub fn join_nodes<S: GraphemeSegmenter>(l: Arc<Node>, r: Arc<Node>) -> (out: Arc<Node>)
    requires
        node_wf::<S>(l),
        node_wf::<S>(r),
        seam_ok(node_text(l), node_text(r)),
        node_text(l).len() + node_text(r).len() <= usize::MAX,
    ensures
        node_wf::<S>(out),
        node_text(out) == node_text(l) + node_text(r),
        node_height(l) >= node_height(r) ==> node_height(l) <= node_height(out) <= node_height(
            l,
        ) + 1,
        node_height(r) >= node_height(l) ==> node_height(r) <= node_height(out) <= node_height(
            r,
        ) + 1,
    decreases node_text(l).len() + node_text(r).len(),
{
    let ghost lt = node_text(l);
    let ghost rt = node_text(r);
    proof {
        lemma_node_text_nonempty::<S>(l);
        lemma_node_text_nonempty::<S>(r);
        lemma_height_nonneg::<S>(l);
        lemma_height_nonneg::<S>(r);
    }
    let hl = height_of::<S>(&l);
    let hr = height_of::<S>(&r);
    if hl == hr {
        join_equal::<S>(l, r)
    } else if hl > hr {
        proof {
            if is_leaf(l) {
                assert(node_height(l) == 0);
                assert(false);
            }
            lemma_node_children_run::<S>(l);
        }
        let ghost cs = kids(l);
        match arc_node(&l) {
            Node::Internal(b) => {
                let n = b.children.len();
                let last = arc_clone(&b.children[n - 1]);
                proof {
                    lemma_children_ok_at_all_run::<S>(cs);
                    lemma_node_text_nonempty::<S>(last);
                    lemma_texts_from_is_between(cs, 0);
                    lemma_texts_between_split(cs, 0, n - 1, n as int);
                    assert(texts_between(cs, n as int, n as int) == Seq::<u8>::empty());
                    assert(texts_between(cs, n - 1, n as int) =~= node_text(last));
                    // the seam moves down to the last child
                    assert(node_text(last)[node_text(last).len() - 1] == lt[lt.len() - 1]);
                    assert(seam_ok(node_text(last), rt));
                    lemma_heights_max_uniform::<S>(cs, kid_info(l), 0);
                    lemma_children_ok_at::<S>(cs, kid_info(l), n - 1);
                    lemma_texts_between_edges::<S>(cs, 0, n - 1);
                    assert(node_text(last).len() < lt.len());
                }
                let sub = join_nodes::<S>(last, r);
                let hs = height_of::<S>(&sub);
                let mut merged: Vec<Arc<Node>> = Vec::new();
                append_clones_range(&mut merged, &b.children, 0, n - 1);
                proof {
                    lemma_run_sub::<S>(cs, 0, n - 1);
                }
                if hs == hl - 1 {
                    let ghost pre = merged@;
                    merged.push(sub);
                    proof {
                        assert(merged@ =~= pre + seq![merged@[pre.len() as int]]);
                        let single = seq![merged@[pre.len() as int]];
                        assert(run_ok::<S>(single));
                        assert(seam_ok(node_text(pre[pre.len() - 1]), node_text(single[0])))
                            by {
                            assert(pre[pre.len() - 1] == cs[n - 2]);
                            assert(seam_ok(node_text(cs[n - 2]), node_text(cs[n - 1])));
                            assert(node_text(single[0]) == node_text(cs[n - 1]) + rt);
                            lemma_node_text_nonempty::<S>(cs[n - 2]);
                            lemma_node_text_nonempty::<S>(cs[n - 1]);
                        }
                        assert(node_height(pre[0]) == node_height(single[0])) by {
                            assert(pre[0] == cs[0]);
                        }
                        lemma_run_concat::<S>(pre, single);
                        assert(texts_from(single, 1) == Seq::<u8>::empty());
                        assert(texts_from(single, 0) =~= node_text(single[0]));
                        lemma_texts_between_eq(pre, cs, 0, pre.len() as int, 0);
                        lemma_texts_from_is_between(pre, 0);
                        assert(texts_from(merged@, 0) =~= lt + rt);
                    }
                    let out = node_over_run::<S>(merged);
                    out
                } else {
                    proof {
                        if is_leaf(sub) {
                            assert(node_height(sub) == 0);
                            assert(false);
                        }
                        lemma_node_children_run::<S>(sub);
                    }
                    let ghost pre = merged@;
                    let ghost subk = kids(sub);
                    match arc_node(&sub) {
                        Node::Internal(sb) => {
                            append_clones(&mut merged, &sb.children);
                            proof {
                                assert(merged@ == pre + subk);
                                assert(node_text(subk[0])[0] == node_text(sub)[0]);
                                assert(node_text(sub)[0] == node_text(cs[n - 1])[0]) by {
                                    lemma_node_text_nonempty::<S>(cs[n - 1]);
                                }
                                assert(seam_ok(
                                    node_text(pre[pre.len() - 1]),
                                    node_text(subk[0]),
                                )) by {
                                    assert(pre[pre.len() - 1] == cs[n - 2]);
                                    assert(seam_ok(
                                        node_text(cs[n - 2]),
                                        node_text(cs[n - 1]),
                                    ));
                                    lemma_node_text_nonempty::<S>(cs[n - 2]);
                                    lemma_node_text_nonempty::<S>(subk[0]);
                                }
                                assert(node_height(pre[0]) == node_height(subk[0])) by {
                                    assert(pre[0] == cs[0]);
                                }
                                lemma_run_concat::<S>(pre, subk);
                                lemma_texts_between_eq(pre, cs, 0, pre.len() as int, 0);
                                lemma_texts_from_is_between(pre, 0);
                                assert(texts_from(merged@, 0) =~= lt + rt);
                            }
                            let out = node_over_run::<S>(merged);
                            out
                        },
                        Node::Leaf(_) => {
                            proof {
                                assert(false);
                            }
                            sub
                        },
                    }
                }
            },
            Node::Leaf(_) => {
                proof {
                    assert(false);
                }
                l
            },
        }
    } else {
        proof {
            if is_leaf(r) {
                assert(node_height(r) == 0);
                assert(false);
            }
            lemma_node_children_run::<S>(r);
        }
        let ghost cs = kids(r);
        match arc_node(&r) {
            Node::Internal(b) => {
                let n = b.children.len();
                let first = arc_clone(&b.children[0]);
                proof {
                    lemma_children_ok_at_all_run::<S>(cs);
                    lemma_node_text_nonempty::<S>(first);
                    lemma_texts_from_is_between(cs, 0);
                    lemma_texts_between_split(cs, 0, 1, n as int);
                    assert(texts_between(cs, 1, 1) == Seq::<u8>::empty());
                    assert(texts_between(cs, 0, 1) =~= node_text(first));
                    assert(node_text(first)[0] == rt[0]);
                    assert(seam_ok(lt, node_text(first)));
                    lemma_heights_max_uniform::<S>(cs, kid_info(r), 0);
                    lemma_children_ok_at::<S>(cs, kid_info(r), 0);
                    lemma_texts_between_edges::<S>(cs, 1, n as int);
                    assert(node_text(first).len() < rt.len());
                }
                let sub = join_nodes::<S>(l, first);
                let hs = height_of::<S>(&sub);
                let ghost subtext = node_text(sub);
                if hs == hr - 1 {
                    let mut merged: Vec<Arc<Node>> = Vec::new();
                    merged.push(sub);
                    append_clones_range(&mut merged, &b.children, 1, n);
                    proof {
                        let single = seq![merged@[0]];
                        let tail = cs.subrange(1, n as int);
                        assert(merged@ =~= single + tail);
                        lemma_run_sub::<S>(cs, 1, n as int);
                        assert(run_ok::<S>(single));
                        assert(seam_ok(node_text(single[0]), node_text(tail[0]))) by {
                            assert(tail[0] == cs[1]);
                            assert(seam_ok(node_text(cs[0]), node_text(cs[1])));
                            assert(node_text(single[0]) == lt + node_text(cs[0]));
                            lemma_node_text_nonempty::<S>(cs[0]);
                            lemma_node_text_nonempty::<S>(cs[1]);
                            assert(node_text(single[0])[node_text(single[0]).len() - 1]
                                == node_text(cs[0])[node_text(cs[0]).len() - 1]);
                        }
                        assert(node_height(single[0]) == node_height(tail[0])) by {
                            assert(tail[0] == cs[1]);
                        }
                        lemma_run_concat::<S>(single, tail);
                        assert(texts_from(single, 1) == Seq::<u8>::empty());
                        assert(texts_from(single, 0) =~= node_text(single[0]));
                        lemma_texts_between_eq(tail, cs, 0, tail.len() as int, 1);
                        lemma_texts_from_is_between(tail, 0);
                        assert(texts_from(merged@, 0) =~= lt + rt);
                    }
                    let out = node_over_run::<S>(merged);
                    out
                } else {
                    proof {
                        if is_leaf(sub) {
                            assert(node_height(sub) == 0);
                            assert(false);
                        }
                        lemma_node_children_run::<S>(sub);
                    }
                    let ghost subk = kids(sub);
                    match arc_node(&sub) {
                        Node::Internal(sb) => {
                            let mut merged: Vec<Arc<Node>> = Vec::new();
                            append_clones(&mut merged, &sb.children);
                            let ghost pre = merged@;
                            append_clones_range(&mut merged, &b.children, 1, n);
                            proof {
                                let tail = cs.subrange(1, n as int);
                                assert(pre == subk);
                                assert(merged@ == pre + tail);
                                lemma_run_sub::<S>(cs, 1, n as int);
                                assert(seam_ok(
                                    node_text(pre[pre.len() - 1]),
                                    node_text(tail[0]),
                                )) by {
                                    assert(tail[0] == cs[1]);
                                    assert(seam_ok(node_text(cs[0]), node_text(cs[1])));
                                    lemma_node_text_nonempty::<S>(cs[0]);
                                    lemma_node_text_nonempty::<S>(cs[1]);
                                    assert(node_text(pre[pre.len() - 1])[node_text(
                                        pre[pre.len() - 1],
                                    ).len() - 1] == subtext[subtext.len() - 1]);
                                    assert(subtext[subtext.len() - 1] == node_text(cs[0])[
                                        node_text(cs[0]).len() - 1]);
                                }
                                assert(node_height(pre[0]) == node_height(tail[0])) by {
                                    assert(tail[0] == cs[1]);
                                }
                                lemma_run_concat::<S>(pre, tail);
                                lemma_texts_between_eq(tail, cs, 0, tail.len() as int, 1);
                                lemma_texts_from_is_between(tail, 0);
                                assert(texts_from(merged@, 0) =~= lt + rt);
                            }
                            let out = node_over_run::<S>(merged);
                            out
                        },
                        Node::Leaf(_) => {
                            proof {
                                assert(false);
                            }
                            sub
                        },
                    }
                }
            },
            Node::Leaf(_) => {
                proof {
                    assert(false);
                }
                r
            },
        }
    }
}

/// Joins two trees of equal height.
#[verifier::rlimit(100)]
fn join_equal<S: GraphemeSegmenter>(l: Arc<Node>, r: Arc<Node>) -> (out: Arc<Node>)
    requires
        node_wf::<S>(l),
        node_wf::<S>(r),
        seam_ok(node_text(l), node_text(r)),
        node_text(l).len() + node_text(r).len() <= usize::MAX,
        node_height(l) == node_height(r),
    ensures
        node_wf::<S>(out),
        node_text(out) == node_text(l) + node_text(r),
        node_height(l) <= node_height(out) <= node_height(l) + 1,
{
    let ghost lt = node_text(l);
    let ghost rt = node_text(r);
    proof {
        lemma_node_text_nonempty::<S>(l);
        lemma_node_text_nonempty::<S>(r);
        if is_leaf(l) != is_leaf(r) {
            if is_leaf(l) {
                lemma_internal_height::<S>(r);
            } else {
                lemma_internal_height::<S>(l);
            }
            assert(false);
        }
    }
    if is_leaf_node(&l) {
        let ls = leaf_str(&l);
        let rs = leaf_str(&r);
        if ls.as_bytes().len() + rs.as_bytes().len() <= MAX_BYTES {
            let mut t = String::new();
            push_str_onto(&mut t, ls);
            push_str_onto(&mut t, rs);
            proof {
                crate::text::lemma_encode_concat(Seq::<char>::empty(), leaf_chars(l));
                assert(Seq::<char>::empty() + leaf_chars(l) =~= leaf_chars(l));
                assert(vstd::utf8::encode_utf8(Seq::<char>::empty()) =~= Seq::<u8>::empty());
                assert(Seq::<u8>::empty() + vstd::utf8::encode_utf8(leaf_chars(l))
                    =~= vstd::utf8::encode_utf8(leaf_chars(l)));
                crate::text::lemma_encode_concat(leaf_chars(l), leaf_chars(r));
            }
            let out = Arc::new(Node::Leaf(t));
            out
        } else {
            pair_node::<S>(l, r)
        }
    } else {
        proof {
            lemma_node_children_run::<S>(l);
            lemma_node_children_run::<S>(r);
        }
        let ghost lcs = kids(l);
        let ghost rcs = kids(r);
        match (arc_node(&l), arc_node(&r)) {
            (Node::Internal(lb), Node::Internal(rb)) => {
                let mut merged: Vec<Arc<Node>> = Vec::new();
                append_clones(&mut merged, &lb.children);
                let ghost pre = merged@;
                append_clones(&mut merged, &rb.children);
                proof {
                    assert(pre == lcs);
                    assert(merged@ == lcs + rcs);
                    assert(seam_ok(
                        node_text(lcs[lcs.len() - 1]),
                        node_text(rcs[0]),
                    )) by {
                        lemma_node_text_nonempty::<S>(lcs[lcs.len() - 1]);
                        lemma_node_text_nonempty::<S>(rcs[0]);
                    }
                    lemma_run_concat::<S>(lcs, rcs);
                    assert(texts_from(merged@, 0) == lt + rt);
                }
                let out = node_over_run::<S>(merged);
                out
            },
            _ => {
                proof {
                    assert(false);
                }
                l
            },
        }
    }
}

/// Whether a node is a leaf, decided at run time.
fn is_leaf_node(n: &Arc<Node>) -> (r: bool)
    ensures
        r == is_leaf(*n),
{
    match arc_node(n) {
        Node::Leaf(_) => true,
        Node::Internal(_) => false,
    }
}

/// A fresh internal node over exactly the two given equal-height trees.
fn pair_node<S: GraphemeSegmenter>(l: Arc<Node>, r: Arc<Node>) -> (out: Arc<Node>)
    requires
        node_wf::<S>(l),
        node_wf::<S>(r),
        seam_ok(node_text(l), node_text(r)),
        node_text(l).len() + node_text(r).len() <= usize::MAX,
        node_height(l) == node_height(r),
    ensures
        node_wf::<S>(out),
        node_text(out) == node_text(l) + node_text(r),
        node_height(out) == node_height(l) + 1,
{
    let ghost lt = node_text(l);
    let ghost rt = node_text(r);
    let mut two: Vec<Arc<Node>> = Vec::new();
    two.push(l);
    two.push(r);
    proof {
        let ts = two@;
        assert(run_ok::<S>(ts)) by {
            assert(forall|k: int| 0 <= k < 2 ==> #[trigger] ts[k] == if k == 0 {
                ts[0]
            } else {
                ts[1]
            });
        }
        lemma_texts_from_is_between(ts, 0);
        assert(texts_between(ts, 2, 2) == Seq::<u8>::empty());
        assert(texts_between(ts, 1, 2) =~= node_text(ts[1]));
        assert(texts_between(ts, 0, 2) =~= lt + rt);
    }
    let out = make_internal::<S>(&two, 0, 2);
    proof {
        assert(texts_between(two@, 0, 2) == texts_from(two@, 0)) by {
            lemma_texts_from_is_between(two@, 0);
        }
    }
    out
}


/// The text under an optional tree; an absent tree holds no text.
pub open spec fn opt_text(o: Option<Arc<Node>>) -> Seq<u8> {
    match o {
        Option::None => Seq::empty(),
        Option::Some(n) => node_text(n),
    }
}

/// Whether an optional tree is well-formed.
pub open spec fn opt_wf<S: GraphemeSegmenter>(o: Option<Arc<Node>>) -> bool {
    match o {
        Option::None => true,
        Option::Some(n) => node_wf::<S>(n),
    }
}

/// Joins two optional trees.
pub fn join_opt<S: GraphemeSegmenter>(a: Option<Arc<Node>>, b: Option<Arc<Node>>) -> (out: Option<
    Arc<Node>,
>)
    requires
        opt_wf::<S>(a),
        opt_wf::<S>(b),
        seam_ok(opt_text(a), opt_text(b)),
        opt_text(a).len() + opt_text(b).len() <= usize::MAX,
    ensures
        opt_wf::<S>(out),
        opt_text(out) == opt_text(a) + opt_text(b),
{
    let ghost at = opt_text(a);
    let ghost bt = opt_text(b);
    match (a, b) {
        (Option::None, bb) => {
            proof {
                assert(at + bt =~= opt_text(bb));
            }
            bb
        },
        (aa, Option::None) => {
            proof {
                assert(opt_text(aa) + bt =~= opt_text(aa));
            }
            aa
        },
        (Option::Some(x), Option::Some(y)) => Option::Some(join_nodes::<S>(x, y)),
    }
}

/// A tree over the children `run[from .. to]` of a well-formed run, or
/// nothing when the range is empty.
fn run_segment_tree<S: GraphemeSegmenter>(children: &Vec<Arc<Node>>, from: usize, to: usize) -> (out:
    Option<Arc<Node>>)
    requires
        run_ok::<S>(children@),
        from <= to <= children@.len(),
        to - from <= MAX_CHILDREN,
        texts_from(children@, 0).len() <= usize::MAX,
    ensures
        opt_wf::<S>(out),
        opt_text(out) == texts_between(children@, from as int, to as int),
{
    if from == to {
        proof {
            assert(texts_between(children@, from as int, to as int) == Seq::<u8>::empty());
        }
        Option::None
    } else if to - from == 1 {
        let c = arc_clone(&children[from]);
        proof {
            assert(texts_between(children@, from + 1, to as int) == Seq::<u8>::empty());
            assert(texts_between(children@, from as int, to as int) =~= node_text(c));
        }
        Option::Some(c)
    } else {
        let t = make_internal::<S>(children, from, to - from);
        Option::Some(t)
    }
}

/// Splits a tree at a character position into the trees of the text before
/// and after that position.  Unaffected whole children are shared; only the
/// boundary chunk is copied, and its pieces are re-chunked.
#[verifier::rlimit(100)]
pub fn split_node<S: GraphemeSegmenter>(node: &Arc<Node>, char_idx: usize) -> (out: (
    Option<Arc<Node>>,
    Option<Arc<Node>>,
))
    requires
        is_leaf(*node) || node_wf::<S>(*node),
        char_idx <= char_count(node_text(*node)),
        node_text(*node).len() <= usize::MAX,
    ensures
        opt_wf::<S>(out.0),
        opt_wf::<S>(out.1),
        opt_text(out.0) == node_text(*node).subrange(
            0,
            crate::text::byte_of_char(node_text(*node), char_idx as int),
        ),
        opt_text(out.1) == node_text(*node).subrange(
            crate::text::byte_of_char(node_text(*node), char_idx as int),
            node_text(*node).len() as int,
        ),
    decreases node_text(*node).len(),
{
    let ghost whole = node_text(*node);
    proof {
        crate::text::lemma_byte_of_char_from(whole, 0, char_idx as int);
    }
    match arc_node(node) {
        Node::Leaf(t) => {
            let ts = t.as_str();
            proof {
                vstd::utf8::encode_utf8_valid_utf8(leaf_chars(*node));
                vstd::utf8::is_char_boundary_start_end_of_seq(whole);
            }
            let bc = crate::str_utils::char_to_byte_idx(ts, char_idx);
            proof {
                if 0 < bc < whole.len() {
                    vstd::utf8::is_char_boundary_iff_not_is_continuation_byte(whole, bc as int);
                }
            }
            let n = ts.as_bytes().len();
            let left = sub_str(ts, 0, bc);
            let right = sub_str(ts, bc, n);
            let lo = if left.as_bytes().len() == 0 {
                Option::None
            } else {
                let mut lv: Vec<Arc<Node>> = Vec::new();
                chunks_into::<S>(left, &mut lv);
                proof {
                    lemma_leaf_vec_run::<S>(lv@, left.spec_bytes());
                }
                Option::Some(build_tree::<S>(lv))
            };
            let ro = if right.as_bytes().len() == 0 {
                Option::None
            } else {
                let mut rv: Vec<Arc<Node>> = Vec::new();
                chunks_into::<S>(right, &mut rv);
                proof {
                    lemma_leaf_vec_run::<S>(rv@, right.spec_bytes());
                }
                Option::Some(build_tree::<S>(rv))
            };
            (lo, ro)
        },
        Node::Internal(b) => {
            let ghost cs = kids(*node);
            let ghost info = kid_info(*node);
            let nch = b.children.len();
            let mut k: usize = 0;
            let mut accb: usize = 0;
            let mut accc: usize = 0;
            proof {
                assert(texts_between(cs, 0, 0) =~= Seq::<u8>::empty());
                lemma_texts_from_is_between(cs, 0);
            }
            loop
                invariant_except_break
                    node_wf::<S>(*node),
                    cs == kids(*node),
                    info == kid_info(*node),
                    (*(*node)) matches Node::Internal(bb) && bb.info@ == info && bb.children@
                        == cs,
                    b.info@ == info,
                    b.children@ == cs,
                    whole == node_text(*node),
                    whole == texts_from(cs, 0),
                    whole.len() <= usize::MAX,
                    nch == cs.len(),
                    0 <= k < cs.len(),
                    accb == texts_between(cs, 0, k as int).len(),
                    accc == char_count(texts_between(cs, 0, k as int)),
                    accc <= char_idx <= char_count(whole),
                ensures
                    0 <= k < cs.len(),
                    accb == texts_between(cs, 0, k as int).len(),
                    accc == char_count(texts_between(cs, 0, k as int)),
                    accc <= char_idx,
                    char_idx - accc <= char_count(node_text(cs[k as int])),
                decreases cs.len() - k,
            {
                proof {
                    lemma_child_context::<S>(cs, info, k as int);
                    lemma_children_ok_at::<S>(cs, info, k as int);
                    let pre = texts_between(cs, 0, k as int);
                    let mid = node_text(cs[k as int]);
                    let post = texts_between(cs, k + 1, cs.len() as int);
                    lemma_texts_between_split(cs, 0, k as int, k + 1);
                    assert(texts_between(cs, k + 1, k + 1) == Seq::<u8>::empty());
                    assert(texts_between(cs, k as int, k + 1) =~= mid);
                    crate::text::lemma_char_count_concat(pre, mid);
                    crate::text::lemma_chars_upto_bounds(pre, pre.len() as int);
                    crate::text::lemma_chars_upto_bounds(mid, mid.len() as int);
                    lemma_texts_between_split(cs, 0, k + 1, cs.len() as int);
                    if k + 1 >= cs.len() {
                        crate::text::lemma_char_count_concat(pre, mid + post);
                        crate::text::lemma_char_count_concat(mid, post);
                        assert(post == Seq::<u8>::empty());
                        assert(char_count(post) == 0);
                        assert(accc + char_count(mid) == char_count(whole));
                    }
                }
                let ci = b.info[k];
                if k + 1 >= nch {
                    break ;
                }
                if char_idx < accc + ci.chars {
                    break ;
                }
                accb = accb + ci.bytes;
                accc = accc + ci.chars;
                k = k + 1;
            }
            let ghost pre = texts_between(cs, 0, k as int);
            let ghost mid = node_text(cs[k as int]);
            let ghost post = texts_between(cs, k + 1, cs.len() as int);
            proof {
                lemma_child_context::<S>(cs, info, k as int);
                lemma_children_ok_at::<S>(cs, info, k as int);
                lemma_children_ok_to_run::<S>(cs, info);
                crate::text::lemma_chars_upto_bounds(pre, pre.len() as int);
            }
            let rel = char_idx - accc;
            let sub = split_node::<S>(&b.children[k], rel);
            let ghost bb = crate::text::byte_of_char(mid, rel as int);
            proof {
                crate::text::lemma_byte_of_char_from(mid, 0, rel as int);
                // the split point localizes into child k
                crate::text::lemma_byte_of_char_nested(pre, mid, post, rel as int);
                assert(crate::text::byte_of_char(whole, char_idx as int) == pre.len() + bb);
            }
            let pre_tree = run_segment_tree::<S>(&b.children, 0, k);
            let suf_tree = run_segment_tree::<S>(&b.children, k + 1, nch);
            proof {
                // seams at the split pieces
                if opt_text(sub.0).len() > 0 && pre.len() > 0 {
                    assert(opt_text(sub.0)[0] == mid[0]);
                    lemma_node_text_nonempty::<S>(cs[k as int]);
                    assert(seam_ok(pre, opt_text(sub.0)));
                }
                if opt_text(sub.1).len() > 0 && post.len() > 0 {
                    assert(opt_text(sub.1)[opt_text(sub.1).len() - 1] == mid[mid.len() - 1]);
                    assert(seam_ok(opt_text(sub.1), post));
                }
                crate::text::lemma_chars_upto_bounds(mid, bb);
            }
            let lo = join_opt::<S>(pre_tree, sub.0);
            let ro = join_opt::<S>(sub.1, suf_tree);
            proof {
                assert(opt_text(lo) =~= whole.subrange(0, accb + bb));
                assert(opt_text(ro) =~= whole.subrange(accb + bb, whole.len() as int));
            }
            (lo, ro)
        },
    }
}

/// A freshly chunked vector of leaves is a run with the chunked text.
pub proof fn lemma_leaf_vec_run<S: GraphemeSegmenter>(lv: Seq<Arc<Node>>, t: Seq<u8>)
    requires
        lv.len() >= 1,
        texts_between(lv, 0, lv.len() as int) == t,
        forall|k: int| 0 <= k < lv.len() ==> is_leaf(#[trigger] lv[k]) && node_wf::<S>(lv[k]),
        forall|k: int|
            0 <= k < lv.len() - 1 ==> seam_ok(node_text(#[trigger] lv[k]), node_text(lv[k + 1])),
    ensures
        run_ok::<S>(lv),
        texts_from(lv, 0) == t,
        texts_from(lv, 0).len() <= t.len(),
{
    assert forall|k: int| 0 <= k < lv.len() implies {
        &&& node_wf::<S>(#[trigger] lv[k])
        &&& node_height(lv[k]) == node_height(lv[0])
        &&& (k + 1 < lv.len() ==> seam_ok(node_text(lv[k]), node_text(lv[k + 1])))
    } by {
        assert(is_leaf(lv[k]));
        assert(node_height(lv[k]) == 0);
        assert(is_leaf(lv[0]));
        assert(node_height(lv[0]) == 0);
    }
    lemma_texts_from_is_between(lv, 0);
}


/// The UTF-8 encoding of a carriage return followed by a line feed is the
/// two bytes themselves.
proof fn lemma_crlf_encoding()
    ensures
        vstd::utf8::encode_utf8(seq!['\r', '\n']) =~= seq![CARRIAGE_RETURN, LINE_FEED],
{
    let s = seq!['\r', '\n'];
    let lf = seq!['\n'];
    assert(s.drop_first() =~= lf);
    assert(lf.drop_first() =~= Seq::<char>::empty());
    assert('\r' as u32 == 13);
    assert('\n' as u32 == 10);
    assert(vstd::utf8::has_width_1_encoding(13));
    assert(vstd::utf8::has_width_1_encoding(10));
    assert(13u32 & 0x7f == 13 && 10u32 & 0x7f == 10) by (bit_vector);
    assert(vstd::utf8::encode_scalar(13) =~= seq![13u8]);
    assert(vstd::utf8::encode_scalar(10) =~= seq![10u8]);
    assert(vstd::utf8::encode_utf8(Seq::<char>::empty()) =~= Seq::<u8>::empty());
    assert(vstd::utf8::encode_utf8(lf) =~= seq![10u8]);
    assert(vstd::utf8::encode_utf8(s) =~= seq![13u8] + seq![10u8]);
}

/// Concatenates two trees.  When the junction would separate a carriage
/// return from a line feed, the pair is first moved into a chunk of its
/// own, so that no chunk boundary ever divides it.
#[verifier::rlimit(100)]
pub fn append_nodes<S: GraphemeSegmenter>(l: Arc<Node>, r: Arc<Node>) -> (out: Arc<Node>)
    requires
        node_wf::<S>(l),
        node_wf::<S>(r),
        node_text(l).len() + node_text(r).len() <= usize::MAX,
    ensures
        node_wf::<S>(out),
        node_text(out) == node_text(l) + node_text(r),
{
    let ghost lt = node_text(l);
    let ghost rt = node_text(r);
    proof {
        lemma_node_text_nonempty::<S>(l);
        lemma_node_text_nonempty::<S>(r);
        lemma_node_text_valid::<S>(l);
        lemma_node_text_valid::<S>(r);
    }
    let li = node_info::<S>(&l);
    let ri = node_info::<S>(&r);
    let lchunk = get_chunk_at_byte::<S>(&l, li.bytes);
    let rchunk = get_chunk_at_byte::<S>(&r, 0);
    let lb = lchunk.0.as_bytes();
    let rb = rchunk.0.as_bytes();
    let last_byte = lb[lb.len() - 1];
    let first_byte = rb[0];
    proof {
        assert(last_byte == lt[lt.len() - 1]);
        assert(first_byte == rt[0]);
    }
    if last_byte == CARRIAGE_RETURN && first_byte == LINE_FEED {
        proof {
            vstd::utf8::is_char_boundary_start_end_of_seq(lt);
            vstd::utf8::is_char_boundary_iff_not_is_continuation_byte(lt, lt.len() - 1);
            assert(vstd::utf8::is_char_boundary(lt, lt.len() - 1)) by {
                vstd::utf8::valid_utf8_last(lt);
                vstd::utf8::is_char_boundary_iff_not_is_continuation_byte(lt, lt.len() - 1);
            }
            crate::text::lemma_last_char_byte(lt);
            if rt.len() > 1 {
                assert(vstd::utf8::is_leading_byte_width_1(rt[0]));
                assert(vstd::utf8::length_of_first_scalar(rt) == 1);
                assert(vstd::utf8::is_char_boundary(rt, 1)) by {
                    reveal_with_fuel(vstd::utf8::is_char_boundary, 3);
                }
                vstd::utf8::is_char_boundary_iff_not_is_continuation_byte(rt, 1);
            }
            crate::text::lemma_second_char_byte(rt);
        }
        let lkeep = split_node::<S>(&l, li.chars - 1).0;
        let rkeep = split_node::<S>(&r, 1).1;
        proof {
            reveal_strlit("\r\n");
        }
        let pair = leaf_node("\r\n");
        proof {
            assert("\r\n"@ =~= seq!['\r', '\n']);
            lemma_crlf_encoding();
            assert(node_text(pair) =~= seq![CARRIAGE_RETURN, LINE_FEED]);
            assert(leaf_wf::<S>((*pair)->Leaf_0)) by {
                assert(leaf_text(pair).len() == 2);
            }
            assert(node_wf::<S>(pair));
            assert(seam_ok(opt_text(lkeep), node_text(pair))) by {
                assert(node_text(pair)[0] == CARRIAGE_RETURN);
            }
            assert(opt_text(lkeep).len() + node_text(pair).len() <= usize::MAX);
        }
        let j1 = join_opt::<S>(lkeep, Option::Some(pair));
        proof {
            assert(opt_text(j1) == lt.subrange(0, lt.len() - 1) + seq![
                CARRIAGE_RETURN,
                LINE_FEED,
            ]);
            assert(seam_ok(opt_text(j1), opt_text(rkeep))) by {
                assert(opt_text(j1)[opt_text(j1).len() - 1] == LINE_FEED);
            }
            assert(opt_text(j1).len() + opt_text(rkeep).len() <= usize::MAX);
        }
        let j2 = join_opt::<S>(j1, rkeep);
        proof {
            assert(opt_text(j2) =~= lt + rt);
            assert(opt_text(j2).len() > 0);
        }
        match j2 {
            Option::Some(x) => x,
            Option::None => {
                proof {
                    assert(false);
                }
                l
            },
        }
    } else {
        proof {
            assert(seam_ok(lt, rt));
        }
        join_nodes::<S>(l, r)
    }
}


/// Whether every chunk boundary inside the subtree of `n`, read at offset
/// `off` within the surrounding text `base`, falls on a valid cut of
/// `base`: never inside a multi-byte character and never between a
/// carriage return and a line feed.
pub open spec fn cuts_within(n: Arc<Node>, base: Seq<u8>, off: int) -> bool
    decreases n, 0int, 0int,
{
    match *n {
        Node::Leaf(t) => true,
        Node::Internal(b) => cuts_children(b.children@, base, off, 0),
    }
}

/// The boundary before each child (other than the first) is a valid cut,
/// and each child's own boundaries are valid cuts, walking the children
/// from position `k` at offset `off`.
pub open spec fn cuts_children(cs: Seq<Arc<Node>>, base: Seq<u8>, off: int, k: int) -> bool
    decreases cs, 1int, cs.len() - k,
{
    if k < 0 || k >= cs.len() {
        true
    } else {
        &&& (k > 0 ==> cut_ok(base, off))
        &&& cuts_within(cs[k], base, off)
        &&& cuts_children(cs, base, off + node_text(cs[k]).len(), k + 1)
    }
}

/// No chunk boundary of a well-formed tree falls inside a multi-byte
/// character or between a carriage return and a line feed: every boundary
/// between adjacent chunks produced by any sequence of edits is a valid
/// cut of the text that contains the tree's text.
pub proof fn lemma_chunk_boundaries_are_cuts<S: GraphemeSegmenter>(
    n: Arc<Node>,
    base: Seq<u8>,
    off: int,
)
    requires
        node_wf::<S>(n),
        0 <= off,
        off + node_text(n).len() <= base.len(),
        base.subrange(off, off + node_text(n).len()) == node_text(n),
    ensures
        cuts_within(n, base, off),
    decreases n, 2int, 0int,
{
    if !is_leaf(n) {
        lemma_cuts_children_walk::<S>(kids(n), kid_info(n), base, off, 0);
    }
}

/// The walk over an internal node's children that carries the cut facts.
proof fn lemma_cuts_children_walk<S: GraphemeSegmenter>(
    cs: Seq<Arc<Node>>,
    info: Seq<TextInfo>,
    base: Seq<u8>,
    off: int,
    k: int,
)
    requires
        children_ok::<S>(cs, info, 0),
        0 <= k <= cs.len(),
        0 <= off,
        off + texts_from(cs, k).len() <= base.len(),
        base.subrange(off, off + texts_from(cs, k).len()) == texts_from(cs, k),
        k > 0 ==> off >= 1 && base[off - 1] == node_text(cs[k - 1])[node_text(cs[k - 1]).len()
            - 1],
    ensures
        cuts_children(cs, base, off, k),
    decreases cs, 1int, cs.len() - k,
{
    if k < cs.len() {
        lemma_children_ok_at::<S>(cs, info, k);
        lemma_node_text_nonempty::<S>(cs[k]);
        lemma_node_text_valid::<S>(cs[k]);
        let m = node_text(cs[k]);
        let rest = texts_from(cs, k + 1);
        assert(texts_from(cs, k) == m + rest);
        assert(base.subrange(off, off + m.len()) =~= m);
        // the boundary before this child is a valid cut of the base
        if k > 0 {
            assert(base[off] == m[0]);
            assert(cut_ok(base, off)) by {
                lemma_children_ok_at::<S>(cs, info, k - 1);
                lemma_node_text_nonempty::<S>(cs[k - 1]);
                assert(seam_ok(node_text(cs[k - 1]), m));
            }
        }
        lemma_chunk_boundaries_are_cuts::<S>(cs[k], base, off);
        if k + 1 < cs.len() {
            lemma_texts_from_valid::<S>(cs, info, k + 1);
            assert(base.subrange(off, off + (m + rest).len()) == m + rest);
            assert forall|j: int| 0 <= j < rest.len() implies base[off + m.len() + j] == rest[j]
                by {
                assert((m + rest)[m.len() + j] == rest[j]);
                assert(base.subrange(off, off + (m + rest).len())[m.len() + j] == base[off
                    + m.len() + j]);
            }
            assert(base.subrange(off + m.len(), off + m.len() + rest.len()) =~= rest);
            assert(base[off + m.len() - 1] == m[m.len() - 1]) by {
                assert((m + rest)[m.len() - 1] == m[m.len() - 1]);
                assert(base.subrange(off, off + (m + rest).len())[m.len() - 1] == base[off
                    + m.len() - 1]);
            }
        } else {
            assert(rest == Seq::<u8>::empty());
            assert(base.subrange(off + m.len(), off + m.len()) =~= rest);
        }
        lemma_cuts_children_walk::<S>(cs, info, base, off + m.len(), k + 1);
    }
}

} // verus!
