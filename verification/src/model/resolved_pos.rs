//! Resolved positions: a position in a document with the ancestors it
//! lies in.

use super::fragment::{Fragment, Index, IndexError};
use super::position::{
    entry_leads, entry_links, lemma_path_nests, lemma_path_within, lemma_resolve, path_leads,
    path_start, resolve, resolve_path, PathEntry, PosView,
};
use super::view::{content_size, find_index, lemma_find_index, node_size};
use crate::markdown::MarkdownNode;
use std::borrow::Cow;
use vstd::prelude::*;
use vstd::std_specs::cmp::PartialEqSpecImpl;

verus! {

/// Errors at `resolve`
#[derive(Debug, Copy, Clone, PartialEq, Eq, Structural)]
pub enum ResolveErr {
    /// Position {pos} out of range
    RangeError {
        /// The position that was out of range
        pos: usize,
    },
    /// Index error
    Index(IndexError),
}

/// A node in the resolution path
#[derive(Debug, Clone, Copy)]
pub struct ResolvedNode<'a> {
    /// Reference to the node
    pub node: &'a MarkdownNode,
    /// Index of the in the parent fragment
    pub index: usize,
    /// Offset immediately before the node
    pub before: usize,
}

impl<'a> ResolvedNode<'a> {
    /// An entry of a resolution path.
    pub fn new(node: &'a MarkdownNode, index: usize, before: usize) -> (r: Self)
        ensures
            r.node == node,
            r.index == index,
            r.before == before,
    {
        ResolvedNode { node, index, before }
    }
}

impl<'a> View for ResolvedNode<'a> {
    type V = PathEntry;

    open spec fn view(&self) -> PathEntry {
        PathEntry { node: self.node@, index: self.index as nat, before: self.before as nat }
    }
}

/// What the entries of a path hold, as plain values.
pub open spec fn path_view(path: Seq<ResolvedNode>) -> Seq<PathEntry> {
    Seq::new(path.len(), |i: int| path[i]@)
}

/// You can resolve a position to get more information about it. Objects of this class represent
/// such a resolved position, providing various pieces of context information, and some helper
/// methods.
#[derive(Debug)]
pub struct ResolvedPos<'a> {
    pos: usize,
    path: Vec<ResolvedNode<'a>>,
    parent_offset: usize,
    depth: usize,
}

impl<'a> View for ResolvedPos<'a> {
    type V = PosView;

    closed spec fn view(&self) -> PosView {
        PosView { pos: self.pos as nat, path: path_view(self.path@) }
    }
}

impl<'a> ResolvedPos<'a> {
    #[verifier::type_invariant]
    spec fn well_formed(self) -> bool {
        &&& self@.well_formed()
        &&& self.depth == self.path@.len() - 1
        &&& self.parent_offset == self@.parent_offset()
        &&& content_size(self@.node(0).content) + 2 <= usize::MAX
    }

    /// The number of ancestors that the position lies in, below the root.
    /// A resolved position is always one whose path leads to it.
    pub fn depth(&self) -> (r: usize)
        ensures
            r == self@.depth(),
            self@.well_formed(),
    {
        proof {
            use_type_invariant(self);
        }
        self.depth
    }

    /// The position that was resolved.
    pub fn pos(&self) -> (r: usize)
        ensures
            r == self@.pos,
    {
        self.pos
    }

    /// The offset of the position in its innermost parent.
    pub fn parent_offset(&self) -> (r: usize)
        ensures
            r == self@.parent_offset(),
    {
        proof {
            use_type_invariant(self);
        }
        self.parent_offset
    }

    /// A resolved position from its parts. The path has to lead from the
    /// root to the position, and the offset has to be that of the position
    /// in the innermost parent.
    pub fn new(pos: usize, path: Vec<ResolvedNode<'a>>, parent_offset: usize) -> (r: Self)
        requires
            path_leads(path_view(path@), 0, pos as nat),
            parent_offset == (PosView { pos: pos as nat, path: path_view(path@) }).parent_offset(),
        ensures
            r@ == (PosView { pos: pos as nat, path: path_view(path@) }),
    {
        let root_size: usize = path[0].node.content_size();
        Self { depth: path.len() - 1, pos, path, parent_offset }
    }

    /// The parent node that the position points into. Note that even if
    /// a position points into a text node, that node is not considered
    /// the parent: text nodes are flat in this model, and have no content.
    pub fn parent(&self) -> (r: &'a MarkdownNode)
        ensures
            r@ == self@.parent(),
    {
        proof {
            use_type_invariant(self);
        }
        self.node(self.depth)
    }

    /// The root node in which the position was resolved.
    pub fn doc(&self) -> (r: &'a MarkdownNode)
        ensures
            r@ == self@.node(0),
    {
        proof {
            use_type_invariant(self);
        }
        self.node(0)
    }

    /// The ancestor node at the given level. `p.node(p.depth)` is the same as `p.parent()`.
    pub fn node(&self, depth: usize) -> (r: &'a MarkdownNode)
        requires
            depth <= self@.depth(),
        ensures
            r@ == self@.node(depth as int),
    {
        proof {
            use_type_invariant(self);
        }
        self.path[depth].node
    }

    /// The index into the ancestor at the given level. If this points at the 3rd node in the
    /// 2nd paragraph on the top level, for example, `p.index(0)` is 1 and `p.index(1)` is 2.
    pub fn index(&self, depth: usize) -> (r: usize)
        requires
            depth <= self@.depth(),
        ensures
            r == self@.index(depth as int),
    {
        proof {
            use_type_invariant(self);
        }
        self.path[depth].index
    }

    /// The index pointing after this position into the ancestor at the given level.
    pub fn index_after(&self, depth: usize) -> (r: usize)
        requires
            depth <= self@.depth(),
        ensures
            r == self@.index_after(depth as int),
    {
        proof {
            use_type_invariant(self);
            assert(entry_leads(self@.path, 0, self@.pos, depth as int));
            if depth < self.depth {
                assert(entry_links(self@.path, self@.pos, depth as int));
            }
        }
        let index: usize = self.index(depth);
        let count: usize = self.node(depth).child_count();
        if depth == self.depth && self.text_offset() == 0 {
            index
        } else {
            index + 1
        }
    }

    /// The (absolute) position at the start of the node at the given level.
    pub fn start(&self, depth: usize) -> (r: usize)
        requires
            depth <= self@.depth(),
        ensures
            r == self@.start(depth as int),
    {
        proof {
            use_type_invariant(self);
            if depth > 0 {
                assert(entry_links(self@.path, self@.pos, depth - 1));
            }
        }
        if depth == 0 {
            0
        } else {
            self.path[depth - 1].before + 1
        }
    }

    /// The (absolute) position at the end of the node at the given level.
    pub fn end(&self, depth: usize) -> (r: usize)
        requires
            depth <= self@.depth(),
        ensures
            r == self@.end(depth as int),
    {
        proof {
            use_type_invariant(self);
            lemma_path_within(self@.path, 0, self@.pos, depth as int);
        }
        self.start(depth) + self.node(depth).content_size()
    }

    /// The (absolute) position directly before the wrapping node at the given level, or, when
    /// depth is `self.depth + 1`, the position itself.
    pub fn before(&self, depth: usize) -> (r: Option<usize>)
        requires
            depth <= self@.depth() + 1,
        ensures
            r == match self@.before(depth as int) {
                Some(p) => Some(p as usize),
                None => None,
            },
            r is Some ==> self@.before(depth as int).unwrap() <= usize::MAX,
    {
        proof {
            use_type_invariant(self);
        }
        if depth == 0 {
            None
        } else if depth == self.path.len() {
            Some(self.pos)
        } else {
            Some(self.path[depth - 1].before)
        }
    }

    /// The (absolute) position directly after the wrapping node at the given level, or the
    /// position itself when depth is `self.depth + 1`.
    pub fn after(&self, depth: usize) -> (r: Option<usize>)
        requires
            depth <= self@.depth() + 1,
        ensures
            r == match self@.after(depth as int) {
                Some(p) => Some(p as usize),
                None => None,
            },
            r is Some ==> self@.after(depth as int).unwrap() <= usize::MAX,
    {
        proof {
            use_type_invariant(self);
            if 0 < depth <= self.depth {
                lemma_path_nests(self@.path, 0, self@.pos, depth - 1);
                lemma_path_within(self@.path, 0, self@.pos, depth - 1);
            }
        }
        if depth == 0 {
            None
        } else if depth == self.path.len() {
            Some(self.pos)
        } else {
            Some(self.path[depth - 1].before + self.path[depth].node.node_size())
        }
    }

    /// When this position points into a text node, this returns the
    /// distance between the position and the start of the text node.
    /// Will be zero for positions that point between nodes.
    pub fn text_offset(&self) -> (r: usize)
        ensures
            r == self@.text_offset(),
    {
        proof {
            use_type_invariant(self);
            assert(entry_leads(self@.path, 0, self@.pos, self@.depth() as int));
        }
        self.pos - self.path[self.path.len() - 1].before
    }

    /// Get the node directly before the position, if any. If the position points into a text node,
    /// only the part of that node before the position is returned.
    pub fn node_before(&self) -> (r: Option<Cow<'a, MarkdownNode>>)
        ensures
            match self@.node_before() {
                Some(n) => r is Some && r.unwrap()@ == n,
                None => r is None,
            },
    {
        proof {
            use_type_invariant(self);
            assert(entry_leads(self@.path, 0, self@.pos, self@.depth() as int));
        }
        let index: usize = self.index(self.depth);
        let d_off: usize = self.text_offset();
        let parent = self.parent();
        if d_off > 0 {
            let child = parent.child(index).unwrap();
            let cut = child.cut(0..d_off);
            Some(cut)
        } else if index == 0 {
            None
        } else {
            Some(Cow::Borrowed(parent.child(index - 1).unwrap()))
        }
    }

    /// Get the node directly after the position, if any. If the position points into a text node,
    /// only the part of that node after the position is returned.
    pub fn node_after(&self) -> (r: Option<Cow<'a, MarkdownNode>>)
        ensures
            match self@.node_after() {
                Some(n) => r is Some && r.unwrap()@ == n,
                None => r is None,
            },
    {
        proof {
            use_type_invariant(self);
            assert(entry_leads(self@.path, 0, self@.pos, self@.depth() as int));
        }
        let parent = self.parent();
        let index: usize = self.index(self.depth);
        if index == parent.child_count() {
            return None;
        }
        let d_off: usize = self.text_offset();
        let child = parent.child(index).unwrap();
        if d_off > 0 {
            let end: usize = match child.text_node() {
                Some(t) => t.text.len_utf16(),
                None => child.content_size(),
            };
            Some(child.cut(d_off..end))
        } else {
            Some(Cow::Borrowed(child))
        }
    }

    /// The depth up to which this position and the given (non-resolved)
    /// position share the same parent nodes.
    pub fn shared_depth(&self, pos: usize) -> (r: usize)
        ensures
            r == self@.shared_depth(pos as nat),
            r <= self@.depth(),
    {
        proof {
            use_type_invariant(self);
        }
        let mut depth: usize = self.depth;
        while depth > 0
            invariant
                0 <= depth <= self@.depth(),
                self@.shared_depth(pos as nat) == self@.shared_from(pos as nat, depth as nat),
            decreases depth,
        {
            if self.start(depth) <= pos && self.end(depth) >= pos {
                return depth;
            }
            depth = depth - 1;
        }
        0
    }

    /// Resolves the position `pos` in the document `doc`. A position past
    /// the end of the document is out of range.
    pub fn resolve(doc: &'a MarkdownNode, pos: usize) -> (r: Result<Self, ResolveErr>)
        ensures
            pos > content_size(doc@.content) ==> r == Err::<Self, ResolveErr>(
                ResolveErr::RangeError { pos },
            ),
            pos <= content_size(doc@.content) ==> r is Ok && r.unwrap()@ == resolve(
                doc@,
                pos as nat,
            ),
    {
        let doc_size: usize = doc.content_size();
        if pos > doc_size {
            return Err(ResolveErr::RangeError { pos });
        }
        proof {
            lemma_resolve(doc@, pos as nat);
        }
        let mut path: Vec<ResolvedNode<'a>> = Vec::new();
        let mut start: usize = 0;
        let mut parent_offset: usize = pos;
        let mut node: &'a MarkdownNode = doc;
        let empty = Fragment::new();

        loop
            invariant_except_break
                resolve_path(doc@, pos as nat, 0) == path_view(path@) + resolve_path(
                    node@,
                    parent_offset as nat,
                    start as nat,
                ),
                parent_offset <= content_size(node@.content),
                start == path_start(path_view(path@), 0, path@.len() as int),
            invariant
                start + parent_offset == pos,
                empty@ == Seq::<super::view::NodeView>::empty(),
            ensures
                resolve_path(doc@, pos as nat, 0) == path_view(path@),
                path@.len() >= 1,
                start == path_start(path_view(path@), 0, path@.len() - 1),
            decreases parent_offset,
        {
            proof {
                lemma_find_index(node@.content, parent_offset as nat, false);
            }
            let found = match node.content() {
                Some(c) => c.find_index(parent_offset, false),
                None => empty.find_index(parent_offset, false),
            };
            let Index { index, offset } = match found {
                Ok(i) => i,
                Err(e) => {
                    return Err(ResolveErr::Index(e));
                },
            };
            assert(find_index(node@.content, parent_offset as nat, false) == Some(
                (index as nat, offset as nat),
            ));
            let rem: usize = parent_offset - offset;
            let ghost before_path = path_view(path@);
            let ghost rest_path = resolve_path(node@, parent_offset as nat, start as nat);
            let entry = ResolvedNode { node, index, before: start + offset };
            path.push(entry);
            proof {
                assert(path_view(path@) =~= before_path + seq![entry@]);
                assert(path_view(path@)[path@.len() - 1] == entry@);
            }
            if rem == 0 {
                proof {
                    assert(rest_path == seq![entry@]);
                }
                break ;
            }
            node = node.child(index).unwrap();
            if node.is_text() {
                proof {
                    assert(rest_path == seq![entry@]);
                }
                break ;
            }
            proof {
                let child = node@;
                let tail = resolve_path(child, (rem - 1) as nat, (start + offset + 1) as nat);
                assert(rest_path == seq![entry@] + tail);
                assert(before_path + (seq![entry@] + tail) =~= before_path + seq![entry@] + tail);
            }
            parent_offset = rem - 1;
            start = start + offset + 1;
        }
        proof {
            let g = Self { depth: (path.len() - 1) as usize, pos, path, parent_offset };
            assert(g@ == resolve(doc@, pos as nat));
            assert(g@.path[0].node == doc@);
        }
        Ok(Self { depth: path.len() - 1, pos, path, parent_offset })
    }

    /// True when both positions are the same position in equal documents.
    pub fn same(&self, other: &Self) -> (r: bool)
        ensures
            r == (self@ == other@),
    {
        proof {
            use_type_invariant(self);
            use_type_invariant(other);
        }
        if self.pos != other.pos || self.path.len() != other.path.len() {
            assert(self@.path.len() != other@.path.len() || self@.pos != other@.pos);
            return false;
        }
        let mut i: usize = 0;
        while i < self.path.len()
            invariant
                0 <= i <= self.path@.len(),
                self.path@.len() == other.path@.len(),
                self.pos == other.pos,
                forall|j: int| 0 <= j < i ==> self@.path[j] == other@.path[j],
            decreases self.path@.len() - i,
        {
            let a = &self.path[i];
            let b = &other.path[i];
            if !(a.node.same(b.node) && a.index == b.index && a.before == b.before) {
                assert(self@.path[i as int] != other@.path[i as int]);
                return false;
            }
            i = i + 1;
        }
        assert(self@.path =~= other@.path);
        true
    }
}

impl<'a> Clone for ResolvedPos<'a> {
    fn clone(&self) -> (r: Self)
        ensures
            r@ == self@,
    {
        proof {
            use_type_invariant(self);
        }
        let mut path: Vec<ResolvedNode<'a>> = Vec::new();
        let mut i: usize = 0;
        while i < self.path.len()
            invariant
                0 <= i <= self.path@.len(),
                path@.len() == i,
                forall|j: int| 0 <= j < i ==> path@[j] == self.path@[j],
            decreases self.path@.len() - i,
        {
            path.push(self.path[i]);
            i = i + 1;
        }
        proof {
            assert(path@ =~= self.path@);
        }
        Self { depth: self.depth, pos: self.pos, path, parent_offset: self.parent_offset }
    }
}

impl<'a> PartialEq for ResolvedPos<'a> {
    fn eq(&self, other: &Self) -> (r: bool) {
        self.same(other)
    }
}

impl<'a> PartialEqSpecImpl for ResolvedPos<'a> {
    open spec fn obeys_eq_spec() -> bool {
        true
    }

    open spec fn eq_spec(&self, other: &Self) -> bool {
        self@ == other@
    }
}

impl<'a> Eq for ResolvedPos<'a> {

}

} // verus!
