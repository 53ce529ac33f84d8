//! The owning handle to a tree root: construction and the mutation-facing
//! surface.
//!
//! Every edit first divides the tree at the affected character positions
//! and then reassembles it, sharing all untouched subtrees.  Cloning a rope
//! only copies the handle; the first edit after a clone rebuilds just the
//! edited path, so the clone and the original remain fully independent.

use vstd::prelude::*;
use vstd::string::StringSliceAdditionalSpecFns;
use std::sync::Arc;
use core::marker::PhantomData;
use crate::segmentation::{DefaultSegmenter, GraphemeSegmenter};
use crate::text::{break_count, byte_of_char, char_count};
use crate::tree::{
    append_nodes,
    arc_clone,
    build_tree,
    chunks_into,
    is_leaf,
    leaf_node,
    node_info,
    node_text,
    node_wf,
    opt_text,
    opt_wf,
    root_wf,
    split_node,
    Node,
};

verus! {

/// A tree-structured, persistent text buffer with logarithmic edits and
/// free cloning.
pub struct Rope<S: GraphemeSegmenter = DefaultSegmenter> {
    pub(crate) root: Arc<Node>,
    pub(crate) marker: PhantomData<S>,
}

impl<S: GraphemeSegmenter> View for Rope<S> {
    type V = Seq<u8>;

    closed spec fn view(&self) -> Seq<u8> {
        node_text(self.root)
    }
}

/// Builds a tree over the chunks of a non-empty text.
pub(crate) fn tree_of_str<S: GraphemeSegmenter>(text: &str) -> (r: Arc<Node>)
    requires
        1 <= text.spec_bytes().len() <= usize::MAX,
    ensures
        node_wf::<S>(r),
        node_text(r) == text.spec_bytes(),
{
    let mut leaves: Vec<Arc<Node>> = Vec::new();
    chunks_into::<S>(text, &mut leaves);
    proof {
        crate::tree::lemma_leaf_vec_run::<S>(leaves@, text.spec_bytes());
    }
    build_tree::<S>(leaves)
}

/// An empty leaf, used as the root of an empty rope.
pub(crate) fn empty_root() -> (r: Arc<Node>)
    ensures
        node_text(r) == Seq::<u8>::empty(),
        is_leaf(r),
        crate::tree::leaf_text(r).len() == 0,
{
    proof {
        reveal_strlit("");
        assert(""@ =~= Seq::<char>::empty());
        assert(vstd::utf8::encode_utf8(Seq::<char>::empty()) =~= Seq::<u8>::empty());
    }
    leaf_node("")
}

/// A root for the tree of an edit's result: the tree itself, or an empty
/// leaf when nothing is left.
pub(crate) fn root_from_opt<S: GraphemeSegmenter>(o: Option<Arc<Node>>) -> (r: Arc<Node>)
    requires
        opt_wf::<S>(o),
    ensures
        root_wf::<S>(r),
        node_text(r) == opt_text(o),
{
    match o {
        Option::None => empty_root(),
        Option::Some(n) => n,
    }
}

impl<S: GraphemeSegmenter> Rope<S> {
    /// A rope over an existing well-formed tree.
    pub(crate) fn from_root(root: Arc<Node>) -> (r: Self)
        requires
            node_wf::<S>(root),
            node_text(root).len() < usize::MAX,
        ensures
            r.wf(),
            r@ == node_text(root),
    {
        Rope { root, marker: PhantomData }
    }

    /// The type invariant names the structural invariant.
    pub(crate) proof fn lemma_inv_wf(self)
        requires
            self.type_inv(),
        ensures
            self.wf(),
    {
    }

    /// A well-formed rope's content is valid UTF-8.
    pub proof fn lemma_view_valid(self)
        requires
            self.wf(),
        ensures
            vstd::utf8::valid_utf8(self@),
            self@.len() > 0 ==> !vstd::utf8::is_continuation_byte(self@[0]),
    {
        if is_leaf(self.root) {
            vstd::utf8::encode_utf8_valid_utf8(crate::tree::leaf_chars(self.root));
            if self@.len() > 0 {
                vstd::utf8::is_char_boundary_start_end_of_seq(self@);
                vstd::utf8::is_char_boundary_iff_not_is_continuation_byte(self@, 0);
            }
        } else {
            crate::tree::lemma_node_text_valid::<S>(self.root);
        }
    }

    /// A reference to the rope's root node.
    pub(crate) fn root_ref(&self) -> (r: &Arc<Node>)
        ensures
            *r == self.root,
            node_text(*r) == self@,
    {
        &self.root
    }

    /// The root of a well-formed rope is fit for slicing.
    pub(crate) proof fn lemma_root_facts(self)
        requires
            self.wf(),
        ensures
            is_leaf(self.root) || node_wf::<S>(self.root),
            node_text(self.root).len() < usize::MAX,
    {
    }

    /// The pieces of a clone: the same shared root.
    pub(crate) fn clone_parts(&self) -> (r: Self)
        requires
            self.wf(),
        ensures
            r@ == self@,
            r.wf(),
    {
        Rope { root: arc_clone(&self.root), marker: PhantomData }
    }

    /// Every rope satisfies its structural invariant.
    #[verifier::type_invariant]
    pub(crate) closed spec fn type_inv(self) -> bool {
        self.wf()
    }

    /// The structural invariant of a rope: a well-formed tree whose total
    /// size stays below the address-space limit.
    pub closed spec fn wf(self) -> bool {
        &&& root_wf::<S>(self.root)
        &&& node_text(self.root).len() < usize::MAX
    }

    /// Creates an empty rope.
    pub fn new() -> (r: Self)
        ensures
            r.wf(),
            r@ == Seq::<u8>::empty(),
    {
        Rope { root: empty_root(), marker: PhantomData }
    }

    /// Creates a rope from a string, building a balanced tree of bounded
    /// chunks whose boundaries the segmenter approves.
    pub fn from_str(text: &str) -> (r: Self)
        requires
            text.spec_bytes().len() < usize::MAX,
        ensures
            r.wf(),
            r@ == text.spec_bytes(),
    {
        if text.as_bytes().len() == 0 {
            let r = Rope { root: empty_root(), marker: PhantomData };
            proof {
                assert(r@ =~= text.spec_bytes());
            }
            r
        } else {
            Rope { root: tree_of_str::<S>(text), marker: PhantomData }
        }
    }

    /// Total number of bytes in the rope.
    pub fn len_bytes(&self) -> (r: usize)
        requires
            self.wf(),
        ensures
            r == self@.len(),
    {
        node_info::<S>(&self.root).bytes
    }

    /// Total number of characters in the rope.
    pub fn len_chars(&self) -> (r: usize)
        requires
            self.wf(),
        ensures
            r == char_count(self@),
    {
        node_info::<S>(&self.root).chars
    }

    /// Total number of lines in the rope: one more than the number of line
    /// breaks.
    pub fn len_lines(&self) -> (r: usize)
        requires
            self.wf(),
        ensures
            r == break_count(self@) + 1,
    {
        let info = node_info::<S>(&self.root);
        proof {
            crate::tree::lemma_info_bounds(info, self@);
        }
        info.line_breaks + 1
    }

    /// Inserts `text` at the given character position.  The characters
    /// before the position keep their places; the rest of the text moves
    /// past the insertion.
    pub fn insert(&mut self, char_idx: usize, text: &str)
        requires
            old(self).wf(),
            char_idx <= char_count(old(self)@),
            old(self)@.len() + text.spec_bytes().len() < usize::MAX,
        ensures
            final(self).wf(),
            final(self)@ == old(self)@.subrange(0, byte_of_char(old(self)@, char_idx as int))
                + text.spec_bytes() + old(self)@.subrange(
                byte_of_char(old(self)@, char_idx as int),
                old(self)@.len() as int,
            ),
    {
        let ghost t0 = self@;
        let ghost bc = byte_of_char(t0, char_idx as int);
        proof {
            crate::text::lemma_byte_of_char_from(t0, 0, char_idx as int);
        }
        if text.as_bytes().len() == 0 {
            proof {
                assert(t0.subrange(0, bc) + text.spec_bytes() =~= t0.subrange(0, bc));
                assert(t0.subrange(0, bc) + t0.subrange(bc, t0.len() as int) =~= t0);
            }
            return ;
        }
        let parts = split_node::<S>(&self.root, char_idx);
        let mid = tree_of_str::<S>(text);
        let left_joined = match parts.0 {
            Option::None => mid,
            Option::Some(x) => append_nodes::<S>(x, mid),
        };
        proof {
            assert(node_text(left_joined).len() <= bc + text.spec_bytes().len());
        }
        let root = match parts.1 {
            Option::None => left_joined,
            Option::Some(y) => append_nodes::<S>(left_joined, y),
        };
        self.root = root;
        proof {
            assert(opt_text(parts.0) =~= t0.subrange(0, bc));
            assert(final(self)@ =~= t0.subrange(0, bc) + text.spec_bytes() + t0.subrange(
                bc,
                t0.len() as int,
            ));
        }
    }

    /// Removes the characters in `[start, end)`.
    pub fn remove_range(&mut self, start: usize, end: usize)
        requires
            old(self).wf(),
            start <= end <= char_count(old(self)@),
        ensures
            final(self).wf(),
            final(self)@ == old(self)@.subrange(0, byte_of_char(old(self)@, start as int))
                + old(self)@.subrange(
                byte_of_char(old(self)@, end as int),
                old(self)@.len() as int,
            ),
    {
        let ghost t0 = self@;
        let ghost bs = byte_of_char(t0, start as int);
        let ghost be = byte_of_char(t0, end as int);
        proof {
            crate::text::lemma_byte_of_char_from(t0, 0, start as int);
            crate::text::lemma_byte_of_char_from(t0, 0, end as int);
        }
        let parts = split_node::<S>(&self.root, end);
        let ghost prefix = t0.subrange(0, be);
        let keep: Option<Arc<Node>> = match parts.0 {
            Option::None => Option::None,
            Option::Some(x) => {
                proof {
                    crate::text::lemma_chars_window(t0, 0, be, be);
                    assert(t0.subrange(0, be).subrange(0, be) =~= t0.subrange(0, be));
                    crate::text::lemma_chars_upto_bounds(t0, be);
                    assert(char_count(prefix) == crate::text::chars_upto(t0, be));
                    if be < t0.len() {
                        assert(crate::text::chars_upto(t0, be) == end);
                    } else {
                        crate::text::lemma_chars_upto_bounds(t0, t0.len() as int);
                        assert(crate::text::chars_upto(t0, be) == char_count(t0));
                    }
                    // the byte position of `start` is the same within the prefix
                    lemma_prefix_byte_of_char(t0, be, start as int, end as int);
                    crate::text::lemma_byte_of_char_monotone(t0, start as int, end as int);
                }
                let sub = split_node::<S>(&x, start);
                proof {
                    assert(opt_text(sub.0) =~= t0.subrange(0, bs));
                }
                sub.0
            },
        };
        proof {
            if parts.0 is None {
                assert(prefix.len() == 0);
                assert(bs <= be);
                assert(opt_text(keep) =~= t0.subrange(0, bs));
            }
        }
        proof {
            crate::text::lemma_byte_of_char_monotone(t0, start as int, end as int);
            assert(opt_text(keep).len() <= bs);
            assert(opt_text(parts.1).len() == t0.len() - be);
        }
        let root = match (keep, parts.1) {
            (Option::None, Option::None) => empty_root(),
            (Option::None, Option::Some(y)) => y,
            (Option::Some(x), Option::None) => x,
            (Option::Some(x), Option::Some(y)) => append_nodes::<S>(x, y),
        };
        self.root = root;
        proof {
            assert(final(self)@ =~= t0.subrange(0, bs) + t0.subrange(be, t0.len() as int));
        }
    }

    /// Splits the rope at the given character position: the rope keeps the
    /// text before the position, and the returned rope holds the rest.
    pub fn split_off(&mut self, char_idx: usize) -> (r: Self)
        requires
            old(self).wf(),
            char_idx <= char_count(old(self)@),
        ensures
            final(self).wf(),
            r.wf(),
            final(self)@ == old(self)@.subrange(
                0,
                byte_of_char(old(self)@, char_idx as int),
            ),
            r@ == old(self)@.subrange(
                byte_of_char(old(self)@, char_idx as int),
                old(self)@.len() as int,
            ),
    {
        let ghost t0 = self@;
        proof {
            crate::text::lemma_byte_of_char_from(t0, 0, char_idx as int);
        }
        let parts = split_node::<S>(&self.root, char_idx);
        proof {
            assert(opt_text(parts.0).len() <= t0.len());
            assert(opt_text(parts.1).len() <= t0.len());
        }
        self.root = root_from_opt::<S>(parts.0);
        Rope { root: root_from_opt::<S>(parts.1), marker: PhantomData }
    }

    /// Appends another rope's text after this rope's.
    pub fn append(&mut self, other: Rope<S>)
        requires
            old(self).wf(),
            other.wf(),
            old(self)@.len() + other@.len() < usize::MAX,
        ensures
            final(self).wf(),
            final(self)@ == old(self)@ + other@,
    {
        let my_len = self.len_bytes();
        let other_len = other.len_bytes();
        if my_len == 0 {
            self.root = other.root;
            proof {
                assert(old(self)@ + other@ =~= final(self)@);
            }
        } else if other_len == 0 {
            proof {
                assert(old(self)@ + other@ =~= old(self)@);
            }
        } else {
            proof {
                lemma_nonempty_root_wf::<S>(self.root);
                lemma_nonempty_root_wf::<S>(other.root);
            }
            let mine = arc_clone(&self.root);
            self.root = append_nodes::<S>(mine, other.root);
        }
    }
}

/// A non-empty well-formed root is a well-formed node.
proof fn lemma_nonempty_root_wf<S: GraphemeSegmenter>(n: Arc<Node>)
    requires
        root_wf::<S>(n),
        node_text(n).len() > 0,
    ensures
        node_wf::<S>(n),
{
}

/// Within a prefix cut at the byte position of character `end`, the byte
/// position of an earlier character is unchanged.
pub(crate) proof fn lemma_prefix_byte_of_char(t: Seq<u8>, be: int, start: int, end: int)
    requires
        0 <= start <= end,
        end <= char_count(t),
        be == byte_of_char(t, end),
        start <= char_count(t.subrange(0, be)),
    ensures
        byte_of_char(t.subrange(0, be), start) == byte_of_char(t, start),
    decreases 0int,
{
    let prefix = t.subrange(0, be);
    let suffix = t.subrange(be, t.len() as int);
    crate::text::lemma_byte_of_char_from(t, 0, end);
    crate::text::lemma_byte_of_char_from(t, 0, start);
    crate::text::lemma_byte_of_char_from(prefix, 0, start);
    assert(prefix + suffix =~= t);
    crate::text::lemma_byte_of_char_concat(prefix, suffix, 0, start);
    if byte_of_char(prefix, start) < prefix.len() {
    } else {
        crate::text::lemma_chars_window(t, 0, be, be);
        assert(prefix.subrange(0, be) =~= prefix);
        crate::text::lemma_byte_of_char_at_end(prefix, start);
        assert(char_count(prefix) <= start);
        assert(byte_of_char(t, start) == prefix.len() + byte_of_char(
            suffix,
            start - char_count(prefix),
        ));
        crate::text::lemma_byte_of_char_from(suffix, 0, start - char_count(prefix));
        if be < t.len() {
            crate::text::lemma_chars_upto_monotone(t, 0, be);
            assert(crate::text::chars_upto(t, be) == end);
            assert(char_count(prefix) == end);
            assert(start == end);
            assert(!vstd::utf8::is_continuation_byte(t[be]));
            assert(suffix[0] == t[be]);
            assert(byte_of_char(suffix, 0) == 0);
        } else {
            assert(suffix.len() == 0);
            assert(byte_of_char(suffix, start - char_count(prefix)) == 0);
        }
    }
}

} // verus!
