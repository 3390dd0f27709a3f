//! What a document node offers: cutting, slicing, replacing and resolving.

use super::content::ContentMatchError;
use super::cut::cut_node;
use super::view::NodeView;
use super::walk::text_content;
use crate::markdown::content::MarkdownContentMatch;
use super::fragment::Fragment;
use super::position::{
    entry_leads, lemma_resolve, lemma_resolve_shares, lemma_shared_from, resolve,
};
use super::joining::{lemma_depth_bound, replace_doc};
use super::replace::{node_result, replace, ReplaceError};
use super::resolved_pos::{ResolveErr, ResolvedPos};
use super::slice::{lemma_slice_of_well_formed, slice_of, Slice};
use super::schema::TextNode;
use super::text::Text;
use super::util::{self, lemma_utf16_index_take, split_within_utf16, utf16_index};
use super::view::content_size;
use crate::markdown::MarkdownNode;
use std::borrow::Cow;
use std::ops::Range;
use vstd::prelude::*;

verus! {

/// Error type raised by `slice` when given an invalid range.
#[derive(Debug, Clone, Copy, Eq, PartialEq, Structural)]
pub enum SliceError {
    /// The given span was invalid
    Resolve(ResolveErr),
    /// Unknown
    Unknown,
}

impl MarkdownNode {
    /// Resolve the given position in the document, returning a struct with information about its
    /// context. A position past the end of the document is out of range.
    pub fn resolve(&self, pos: usize) -> (r: Result<ResolvedPos<'_>, ResolveErr>)
        ensures
            pos > content_size(self@.content) ==> r == Err::<ResolvedPos<'_>, ResolveErr>(
                ResolveErr::RangeError { pos },
            ),
            pos <= content_size(self@.content) ==> r is Ok && r.unwrap()@ == resolve(
                self@,
                pos as nat,
            ),
    {
        ResolvedPos::resolve(self, pos)
    }

    /// Replace the part of the document between the given positions with the given slice. The
    /// slice must 'fit', meaning its open sides must be able to connect to the surrounding content,
    /// and its content nodes must be valid children for the node they are placed into. If any of
    /// this is violated, an error of type `ReplaceError` is returned.
    ///
    /// The range must not end before it starts, the document has to be a parent node, the
    /// slice has to have nodes of its open depths at its sides, and the document and the slice
    /// together must take no more than an eighth of the address space.
    pub fn replace(&self, range: Range<usize>, slice: &Slice) -> (r: Result<Self, ReplaceError>)
        requires
            range.start <= range.end,
            self@.kind.parent(),
            slice@.well_formed(),
            content_size(self@.content) + content_size(slice@.content) <= usize::MAX / 8,
        ensures
            node_result(r) == replace_doc(self@, range.start, range.end, slice@),
    {
        let from: usize = util::from(&range);
        let to: usize = util::to(&range, self.node_size());

        let rp_from = match self.resolve(from) {
            Ok(rp) => rp,
            Err(e) => {
                return Err(ReplaceError::Resolve(e));
            },
        };
        let rp_to = match self.resolve(to) {
            Ok(rp) => rp,
            Err(e) => {
                return Err(ReplaceError::Resolve(e));
            },
        };
        proof {
            lemma_resolve(self@, from as nat);
            lemma_resolve(self@, to as nat);
            lemma_depth_bound(rp_from@);
        }
        replace(&rp_from, &rp_to, slice)
    }

    /// Replaces the part of the document between the given positions with the given slice,
    /// if that may be asked of `replace`: there is no result where the range ends before it
    /// starts, the document is no parent node, the slice lacks a node of its open depths at
    /// a side, or the document and the slice together take more than an eighth of the
    /// address space.
    pub fn try_replace(&self, range: Range<usize>, slice: &Slice) -> (r: Option<
        Result<Self, ReplaceError>,
    >)
        ensures
            r is Some == (range.start <= range.end && self@.kind.parent() && slice@.well_formed()
                && content_size(self@.content) + content_size(slice@.content) <= usize::MAX / 8),
            r matches Some(done) ==> node_result(done) == replace_doc(
                self@,
                range.start,
                range.end,
                slice@,
            ),
    {
        let size: usize = self.content_size();
        let inner: usize = slice.content.size();
        if range.start <= range.end && !self.is_leaf() && slice.is_well_formed() && size
            <= usize::MAX / 8 && inner <= usize::MAX / 8 - size {
            Some(self.replace(range, slice))
        } else {
            None
        }
    }

    /// Concatenates all the text nodes found in this fragment and its children.
    pub fn text_content(&self) -> (r: String)
        ensures
            r@ == text_content(self@),
    {
        if let Some(node) = self.text_node() {
            node.text.as_str().to_owned()
        } else {
            let mut buf = String::new();
            if let Some(c) = self.content() {
                proof {
                    reveal_strlit("");
                    assert(""@ =~= Seq::<char>::empty());
                }
                c.text_between(&mut buf, true, 0, c.size(), Some(""), None);
            }
            buf
        }
    }

    /// The state of the content automaton of this node before its child at
    /// `index`. It is an error if the children before do not match.
    pub fn content_match_at(&self, index: usize) -> (r: Result<
        MarkdownContentMatch,
        ContentMatchError,
    >)
        requires
            index <= self@.content.len(),
        ensures
            match content_match_at(self@, index as int) {
                Some(m) => r == Ok::<MarkdownContentMatch, ContentMatchError>(m),
                None => r == Err::<MarkdownContentMatch, ContentMatchError>(
                    ContentMatchError::InvalidContent,
                ),
            },
    {
        let start = self.node_type().content_match();
        let found = match self.content() {
            Some(c) => start.match_fragment_range(c, 0..index),
            None => Some(start),
        };
        match found {
            Some(m) => Ok(m),
            None => Err(ContentMatchError::InvalidContent),
        }
    }

    /// Test whether replacing the children from index `from` up to index `to` by the given
    /// fragment would leave the node's content valid.
    pub fn can_replace(&self, from: usize, to: usize, replacement: &Fragment) -> (r: Result<
        bool,
        ContentMatchError,
    >)
        requires
            from <= to <= self@.content.len(),
        ensures
            r == can_replace(self@, from as int, to as int, replacement@),
    {
        let m = match self.content_match_at(from) {
            Ok(m) => m,
            Err(e) => {
                return Err(e);
            },
        };
        let one = match m.match_fragment(replacement) {
            Some(m) => m,
            None => {
                return Ok(false);
            },
        };
        let two = match self.content() {
            Some(c) => one.match_fragment_range(c, to..c.child_count()),
            None => Some(one),
        };
        match two {
            Some(m) => {
                if !m.valid_end() {
                    return Ok(false);
                }
            },
            None => {
                return Ok(false);
            },
        }
        let node_type = self.node_type();
        let count: usize = replacement.child_count();
        let mut all_fit = true;
        let mut i: usize = 0;
        while i < count
            invariant
                0 <= i <= count,
                count == replacement@.len(),
                node_type == self@.kind,
                all_fit == forall|j: int|
                    0 <= j < i ==> (#[trigger] replacement@[j]).marks.len() == 0
                        || self@.kind.marks_allowed(),
            decreases count - i,
        {
            let fits = match replacement.child(i).marks() {
                Some(m) => node_type.allow_marks(m),
                None => true,
            };
            proof {
                if !fits {
                    assert(!(replacement@[i as int].marks.len() == 0
                        || self@.kind.marks_allowed()));
                }
            }
            all_fit = all_fit && fits;
            i = i + 1;
        }
        Ok(all_fit)
    }

    /// Cut out the part of the document between the given positions, and return it as a `Slice`
    /// object. An empty range gives the empty slice. Of another range, both ends have to lie
    /// within the document: the first that does not is reported as out of range.
    pub fn slice(&self, range: Range<usize>, include_parents: bool) -> (r: Result<
        Slice,
        SliceError,
    >)
        ensures
            match slice_error(self@, range.start, range.end) {
                Some(e) => r == Err::<Slice, SliceError>(e),
                None => r is Ok && r.unwrap()@ == slice_of(
                    self@,
                    range.start as nat,
                    range.end as nat,
                    include_parents,
                ),
            },
            r is Ok && range.start <= range.end ==> r.unwrap()@.well_formed(),
    {
        let from: usize = util::from(&range);
        let to: usize = util::to(&range, self.node_size());

        if from == to {
            return Ok(Slice::default());
        }
        let rp_from = match self.resolve(from) {
            Ok(rp) => rp,
            Err(e) => {
                return Err(SliceError::Resolve(e));
            },
        };
        let rp_to = match self.resolve(to) {
            Ok(rp) => rp,
            Err(e) => {
                return Err(SliceError::Resolve(e));
            },
        };

        let depth: usize = if include_parents {
            0
        } else {
            rp_from.shared_depth(to)
        };
        proof {
            if from < to {
                lemma_slice_of_well_formed(self@, from as nat, to as nat, include_parents);
            }
            lemma_resolve(self@, from as nat);
            lemma_resolve(self@, to as nat);
            lemma_shared_from(rp_from@, to as nat, rp_from@.depth());
            lemma_resolve_shares(self@, from as nat, to as nat, depth as int);
            assert(entry_leads(rp_from@.path, 0, from as nat, depth as int));
        }
        let from_depth: usize = rp_from.depth();
        let to_depth: usize = rp_to.depth();
        let (start, node) = (rp_from.start(depth), rp_from.node(depth));
        let content = if let Some(c) = node.content() {
            c.cut(rp_from.pos() - start..rp_to.pos() - start)
        } else {
            Fragment::new()
        };
        Ok(Slice::new(content, from_depth - depth, to_depth - depth))
    }

    /// Create a copy of this node with only the content between the given positions: offsets
    /// in UTF-16 code units into a text node, and offsets into the content of another node.
    /// The full range gives the node itself. A range into the content of a parent that is
    /// not empty has to end within the content.
    pub fn cut(&self, range: Range<usize>) -> (r: Cow<Self>)
        requires
            !self@.is_text() && range.start < range.end ==> range.end <= content_size(
                self@.content,
            ),
        ensures
            r@ == cut_node(self@, range.start as nat, range.end as nat),
        decreases self,
    {
        let from: usize = util::from(&range);

        if let Some(TextNode { text, marks }) = self.text_node() {
            let len: usize = text.len_utf16();
            let to: usize = util::to(&range, len);

            if from == 0 && to == len {
                return Cow::Borrowed(self);
            }
            let (upto, _) = split_within_utf16(text.as_str(), to);
            let (_, rest) = split_within_utf16(upto, from);
            proof {
                let s = text@;
                let b = utf16_index(s, to as nat) as int;
                super::util::lemma_utf16_index_bounds(s, to as nat);
                lemma_utf16_index_take(s, b, from as nat);
                let a = utf16_index(s, from as nat) as int;
                if a <= b {
                    assert(s.take(b).skip(a) =~= s.subrange(a, b));
                } else {
                    assert(s.take(b).skip(b) =~= Seq::<char>::empty());
                }
            }
            Cow::Owned(
                Self::new_text_node(TextNode { text: Text::new(rest.to_owned()), marks: marks.clone() }),
            )
        } else {
            let content_size: usize = self.content_size();
            let to: usize = util::to(&range, content_size);

            if from == 0 && to == content_size {
                Cow::Borrowed(self)
            } else {
                match self.content() {
                    Some(c) => Cow::Owned(self.with_content(c.cut(from..to))),
                    None => Cow::Owned(self.clone()),
                }
            }
        }
    }
}

/// The state of the content automaton of a node before its child at
/// `index`, if the children before match.
pub open spec fn content_match_at(node: NodeView, index: int) -> Option<MarkdownContentMatch> {
    node.kind.start().after(node.content, 0, index)
}

/// Whether the children of `node` from index `from` up to index `to` may
/// be replaced by `replacement`: the children before, the replacement and
/// the children after match the content expression of the node up to a
/// valid end, and no node of the replacement carries marks unless the node
/// allows marks. Children before `from` that do not match are an error.
pub open spec fn can_replace(node: NodeView, from: int, to: int, replacement: Seq<NodeView>) -> Result<
    bool,
    ContentMatchError,
> {
    match content_match_at(node, from) {
        None => Err(ContentMatchError::InvalidContent),
        Some(m) => match m.after(replacement, 0, replacement.len() as int) {
            None => Ok(false),
            Some(one) => match one.after(node.content, to, node.content.len() as int) {
                None => Ok(false),
                Some(two) => Ok(
                    two.at_end() && forall|i: int|
                        0 <= i < replacement.len() ==> (#[trigger] replacement[i]).marks.len() == 0
                            || node.kind.marks_allowed(),
                ),
            },
        },
    }
}

/// What slicing a document reports, if it fails: for a range that is not
/// empty, the first of its two ends that lies past the end of the document.
pub open spec fn slice_error(doc: NodeView, from: usize, to: usize) -> Option<
    SliceError,
> {
    if from == to {
        None
    } else if from > content_size(doc.content) {
        Some(SliceError::Resolve(ResolveErr::RangeError { pos: from }))
    } else if to > content_size(doc.content) {
        Some(SliceError::Resolve(ResolveErr::RangeError { pos: to }))
    } else {
        None
    }
}

} // verus!
