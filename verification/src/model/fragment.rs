//! Fragments: the children of a node.

use super::cut::{cut_child, cut_content, cut_upto, lemma_cut_upto_rest, lemma_cut_upto_size};
use super::util;
use super::walk::{
    entered_at, gather_all, lemma_visits_by_prefix, lemma_visits_by_rest, lemma_visits_rest,
    text_between, visits, visits_by, Gathered, Visit,
};
use vstd::string::StringExecFns;
use std::borrow::Cow;
use std::ops::Range;
use super::view::{
    append_content, lemma_append_content_size, lemma_append_texts_merged, texts_merged, lemma_content_size_update, lemma_size_upto_prefix,
    content_size, find_index, lemma_find_index, lemma_scan_to, lemma_size_upto_mono, node_size,
    scan_to, size_upto, NodeView,
};
use vstd::std_specs::cmp::PartialEqSpecImpl;
use crate::markdown::{node_view, MarkdownNode};
use vstd::prelude::*;

verus! {

/// A fragment represents a node's collection of child nodes.
///
/// Like nodes, fragments are persistent data structures, and you should not mutate them or their
/// content. Rather, you create new instances whenever needed.
#[derive(Debug)]
pub struct Fragment {
    inner: Vec<MarkdownNode>,
    size: usize,
}

/// A child index with the offset before that child.
#[derive(Debug, Copy, Clone, PartialEq, Eq, PartialOrd, Ord, Structural)]
pub struct Index {
    /// The index of a child, or the number of children
    pub index: usize,
    /// The total size of the children before the index
    pub offset: usize,
}

impl Index {
    /// The index with its offset.
    pub fn new(index: usize, offset: usize) -> (r: Index)
        ensures
            r.index == index,
            r.offset == offset,
    {
        Index { index, offset }
    }
}

/// An offset lies after the end of a fragment.
#[derive(Debug, Copy, Clone, PartialEq, Eq, Structural)]
pub struct IndexError;

/// What the nodes of a fragment hold, as plain values.
pub open spec fn fragment_view(f: Fragment) -> Seq<NodeView>
    decreases f,
{
    let v = f.nodes();
    Seq::new(
        v.len(),
        |i: int|
            if 0 <= i < v.len() {
                node_view(v[i])
            } else {
                arbitrary()
            },
    )
}

/// What the nodes that a walk came by hold, as plain values.
pub open spec fn visits_view(walk: Seq<(&MarkdownNode, usize)>) -> Seq<Visit> {
    Seq::new(walk.len(), |i: int| Visit { node: walk[i].0@, pos: walk[i].1 as nat })
}

/// What the nodes of a list hold, as plain values.
pub open spec fn nodes_view(nodes: Seq<MarkdownNode>) -> Seq<NodeView> {
    Seq::new(nodes.len(), |i: int| nodes[i]@)
}

/// True when `entered` holds, for each node of the walk in its order, an
/// answer that the visitor gave for that node and the position before it.
pub open spec fn answered<F: Fn(&MarkdownNode, usize) -> bool>(
    walk: Seq<(&MarkdownNode, usize)>,
    entered: Seq<bool>,
    enter: &F,
) -> bool {
    &&& entered.len() == walk.len()
    &&& forall|i: int|
        0 <= i < walk.len() ==> call_ensures(*enter, (walk[i].0, walk[i].1), #[trigger] entered[i])
}

impl Fragment {
    /// The nodes of the fragment.
    pub closed spec fn nodes(&self) -> Seq<MarkdownNode> {
        self.inner@
    }

    /// Create a new empty fragment
    pub fn new() -> (r: Self)
        ensures
            r@ == Seq::<NodeView>::empty(),
    {
        let r = Fragment { inner: Vec::new(), size: 0 };
        assert(r@ =~= Seq::<NodeView>::empty());
        r
    }

    /// The fragment of the given nodes. Its size has to leave room for the
    /// two tokens of a node around it.
    pub fn from(src: Vec<MarkdownNode>) -> (r: Self)
        requires
            content_size(nodes_view(src@)) + 2 <= usize::MAX,
        ensures
            r@ == nodes_view(src@),
            r.nodes() == src@,
    {
        let ghost views = nodes_view(src@);
        let mut size: usize = 0;
        let mut i: usize = 0;
        while i < src.len()
            invariant
                0 <= i <= src@.len(),
                views == nodes_view(src@),
                size == size_upto(views, i as nat),
                content_size(views) + 2 <= usize::MAX,
            decreases src@.len() - i,
        {
            proof {
                lemma_size_upto_mono(views, (i + 1) as nat, views.len());
            }
            size = size + src[i].node_size();
            i = i + 1;
        }
        proof {
            let g = Fragment { inner: src, size };
            assert(g@ =~= views);
        }
        Fragment { inner: src, size }
    }

    /// The fragment of the given nodes, if its size leaves room for the two
    /// tokens of a node around it.
    pub fn try_from_nodes(src: Vec<MarkdownNode>) -> (r: Option<Self>)
        ensures
            match r {
                Some(f) => f@ == nodes_view(src@) && content_size(nodes_view(src@)) + 2
                    <= usize::MAX,
                None => content_size(nodes_view(src@)) + 2 > usize::MAX,
            },
    {
        let ghost views = nodes_view(src@);
        let mut size: usize = 0;
        let mut i: usize = 0;
        while i < src.len()
            invariant
                0 <= i <= src@.len(),
                views == nodes_view(src@),
                size == size_upto(views, i as nat),
                size + 2 <= usize::MAX,
            decreases src@.len() - i,
        {
            let next: usize = src[i].node_size();
            if next > usize::MAX - 2 - size {
                proof {
                    lemma_size_upto_mono(views, (i + 1) as nat, views.len());
                }
                return None;
            }
            size = size + next;
            i = i + 1;
        }
        proof {
            let g = Fragment { inner: src, size };
            assert(g@ =~= views);
        }
        Some(Fragment { inner: src, size })
    }

    /// The nodes of the fragment, in their order.
    pub fn into_nodes(self) -> (r: Vec<MarkdownNode>)
        ensures
            nodes_view(r@) == self@,
    {
        proof {
            assert(nodes_view(self.inner@) =~= self@);
        }
        self.inner
    }

    /// The size of the fragment, which is the total of the size of its content nodes.
    /// It leaves room for the two tokens of a node around the fragment.
    pub fn size(&self) -> (r: usize)
        ensures
            r == content_size(self@),
            r + 2 <= usize::MAX,
    {
        proof {
            use_type_invariant(self);
        }
        self.size
    }

    /// Get a slice to all child nodes
    pub fn children(&self) -> (r: &[MarkdownNode])
        ensures
            r@ == self.nodes(),
    {
        self.inner.as_slice()
    }

    /// The first child of the fragment wrapped in `Some`, or `None` if it is empty.
    pub fn first_child(&self) -> (r: Option<&MarkdownNode>)
        ensures
            self@.len() == 0 ==> r is None,
            self@.len() > 0 ==> r == Some(&self.nodes()[0]),
    {
        if self.inner.len() > 0 {
            Some(&self.inner[0])
        } else {
            None
        }
    }

    /// The last child of the fragment wrapped in `Some`, or `None` if it is empty.
    pub fn last_child(&self) -> (r: Option<&MarkdownNode>)
        ensures
            self@.len() == 0 ==> r is None,
            self@.len() > 0 ==> r == Some(&self.nodes()[self@.len() - 1]),
    {
        if self.inner.len() > 0 {
            Some(&self.inner[self.inner.len() - 1])
        } else {
            None
        }
    }

    /// The number of child nodes in this fragment.
    pub fn child_count(&self) -> (r: usize)
        ensures
            r == self@.len(),
            r == self.nodes().len(),
    {
        self.inner.len()
    }

    /// Get the child node at the given index. The index must be in range.
    pub fn child(&self, index: usize) -> (r: &MarkdownNode)
        requires
            index < self@.len(),
        ensures
            *r == self.nodes()[index as int],
            r@ == self@[index as int],
    {
        &self.inner[index]
    }

    /// Get the child node at the given index, if it exists.
    pub fn maybe_child(&self, index: usize) -> (r: Option<&MarkdownNode>)
        ensures
            index >= self@.len() ==> r is None,
            index < self@.len() ==> r == Some(&self.nodes()[index as int]),
    {
        if index < self.inner.len() {
            Some(&self.inner[index])
        } else {
            None
        }
    }

    /// The index of the child that the offset `pos` belongs to, with the
    /// offset before that child. With `round`, an offset inside a child
    /// belongs to the index after it.
    pub fn find_index(&self, pos: usize, round: bool) -> (r: Result<Index, IndexError>)
        ensures
            match r {
                Ok(i) => find_index(self@, pos as nat, round) == Some(
                    (i.index as nat, i.offset as nat),
                ) && i.index <= self@.len() && i.offset <= content_size(self@),
                Err(_) => find_index(self@, pos as nat, round) is None,
            },
            pos > content_size(self@) <==> r is Err,
    {
        proof {
            use_type_invariant(self);
            if pos <= self.size {
                lemma_find_index(self@, pos as nat, round);
                let found = find_index(self@, pos as nat, round).unwrap();
                lemma_size_upto_mono(self@, found.0, self@.len());
            }
        }
        let len: usize = self.inner.len();
        if pos == 0 {
            Ok(Index { index: 0, offset: pos })
        } else if pos == self.size {
            Ok(Index { index: len, offset: pos })
        } else if pos > self.size {
            Err(IndexError)
        } else {
            let mut cur_pos: usize = 0;
            let mut i: usize = 0;
            proof {
                lemma_scan_to(self@, pos as nat, 0);
            }
            loop
                invariant
                    0 <= i < len,
                    len == self@.len(),
                    len == self.inner@.len(),
                    forall|j: int| 0 <= j < len ==> self@[j] == (#[trigger] self.inner@[j])@,
                    cur_pos == size_upto(self@, i as nat),
                    cur_pos < pos < content_size(self@),
                    content_size(self@) + 2 <= usize::MAX,
                    scan_to(self@, pos as nat, 0) == scan_to(self@, pos as nat, i as nat),
                decreases len - i,
            {
                proof {
                    lemma_size_upto_mono(self@, (i + 1) as nat, self@.len());
                    lemma_scan_to(self@, pos as nat, (i + 1) as nat);
                }
                let end: usize = cur_pos + self.inner[i].node_size();
                if end >= pos {
                    if (end == pos) || round {
                        return Ok(Index { index: i + 1, offset: end });
                    } else {
                        return Ok(Index { index: i, offset: cur_pos });
                    }
                }
                cur_pos = end;
                i = i + 1;
            }
        }
    }

    /// Cut out the sub-fragment between the two given positions. A range
    /// that is not empty has to end within the fragment.
    pub fn cut(&self, range: Range<usize>) -> (r: Self)
        requires
            range.start < range.end ==> range.end <= content_size(self@),
        ensures
            r@ == cut_content(self@, range.start as nat, range.end as nat),
        decreases self,
    {
        proof {
            use_type_invariant(self);
        }
        let from: usize = util::from(&range);
        let to: usize = util::to(&range, self.size);

        if from == 0 && to == self.size {
            return self.clone();
        }
        let mut result: Vec<MarkdownNode> = Vec::new();
        let mut size: usize = 0;
        if to > from {
            let mut pos: usize = 0;
            let mut i: usize = 0;
            let count: usize = self.inner.len();
            while pos < to
                invariant
                    0 <= i <= self.inner@.len(),
                    count == self.inner@.len(),
                    self.inner@.len() == self@.len(),
                    forall|j: int| 0 <= j < self@.len() ==> self@[j] == (#[trigger] self.inner@[j])@,
                    pos == size_upto(self@, i as nat),
                    from < to <= content_size(self@),
                    content_size(self@) + 2 <= usize::MAX,
                    nodes_view(result@) == cut_upto(self@, from as nat, to as nat, i as nat),
                    size == content_size(nodes_view(result@)),
                decreases self.inner@.len() - i,
            {
                proof {
                    assert(i < self.inner@.len());
                    lemma_size_upto_mono(self@, (i + 1) as nat, self@.len());
                    lemma_cut_upto_size(self@, from as nat, to as nat, (i + 1) as nat);
                }
                let child = &self.inner[i];
                let end: usize = pos + child.node_size();
                if end > from {
                    let new_child = if pos < from || end > to {
                        let cut = if let Some(node) = child.text_node() {
                            let len: usize = node.text.len_utf16();
                            let start: usize = if from > pos {
                                from - pos
                            } else {
                                0
                            };
                            let end: usize = if len <= to - pos {
                                len
                            } else {
                                to - pos
                            };
                            child.cut(start..end)
                        } else {
                            let t: usize = pos + 1;
                            let start: usize = if from > t {
                                from - t
                            } else {
                                0
                            };
                            let inner_size: usize = child.content_size();
                            let end: usize = if inner_size <= to - t {
                                inner_size
                            } else {
                                to - t
                            };
                            child.cut(start..end)
                        };
                        match cut {
                            Cow::Borrowed(b) => b.clone(),
                            Cow::Owned(o) => o,
                        }
                    } else {
                        child.clone()
                    };
                    proof {
                        let before = nodes_view(result@);
                        let after = before.push(new_child@);
                        assert(child@ == self@[i as int]);
                        assert(new_child@ == cut_child(
                            self@[i as int],
                            pos as nat,
                            from as nat,
                            to as nat,
                        ));
                        assert(after == cut_upto(self@, from as nat, to as nat, (i + 1) as nat));
                        assert(nodes_view(result@.push(new_child)) =~= after);
                        assert(after.drop_last() =~= before);
                        lemma_size_upto_prefix(after, before, before.len());
                    }
                    size = size + new_child.node_size();
                    result.push(new_child);
                }
                pos = end;
                i = i + 1;
            }
            proof {
                lemma_cut_upto_rest(self@, from as nat, to as nat, i as nat, self@.len());
                lemma_cut_upto_size(self@, from as nat, to as nat, self@.len());
            }
        }
        proof {
            let g = Fragment { inner: result, size };
            assert(g@ =~= nodes_view(result@));
        }
        Fragment { inner: result, size }
    }

    /// Create a new fragment containing the combined content of this fragment and the other.
    /// Where they meet, two text nodes with the same marks become one. The combined size has
    /// to leave room for the two tokens of a node around it.
    pub fn append(self, other: Self) -> (r: Self)
        requires
            content_size(self@) + content_size(other@) + 2 <= usize::MAX,
        ensures
            r@ == append_content(self@, other@),
            content_size(r@) == content_size(self@) + content_size(other@),
            texts_merged(self@) && texts_merged(other@) ==> texts_merged(r@),
    {
        proof {
            use_type_invariant(&self);
            use_type_invariant(&other);
            lemma_append_content_size(self@, other@);
            if texts_merged(self@) && texts_merged(other@) {
                lemma_append_texts_merged(self@, other@);
            }
        }
        if other.inner.len() == 0 {
            return self;
        }
        if self.inner.len() == 0 {
            return other;
        }
        let ghost a = self@;
        let ghost b = other@;
        let size: usize = self.size + other.size;
        let mut inner = self.inner;
        let mut rest = other.inner;
        let join = match inner[inner.len() - 1].text_node() {
            Some(n1) => match rest[0].text_node() {
                Some(n2) => if n1.marks.same(&n2.marks) {
                    Some(n1.with_text(n1.text.join(&n2.text)))
                } else {
                    None
                },
                None => None,
            },
            None => None,
        };
        match join {
            Some(mid) => {
                inner.pop();
                rest.remove(0);
                inner.push(MarkdownNode::new_text_node(mid));
            },
            None => {},
        }
        inner.append(&mut rest);
        proof {
            let g = Fragment { inner, size };
            assert(g@ =~= append_content(a, b));
        }
        Fragment { inner, size }
    }

    /// Create a new fragment in which the node at the given index is replaced by the given node.
    /// The index has to be that of a child, and the new size has to leave room for the two
    /// tokens of a node around the fragment.
    pub fn replace_child(&self, index: usize, node: MarkdownNode) -> (r: Cow<Self>)
        requires
            index < self@.len(),
            content_size(self@) - node_size(self@[index as int]) + node_size(node@) + 2
                <= usize::MAX,
        ensures
            r@ == self@.update(index as int, node@),
            node@ == self@[index as int] ==> r == Cow::<Self>::Borrowed(self),
    {
        proof {
            use_type_invariant(self);
            lemma_content_size_update(self@, index as int, node@);
            lemma_size_upto_mono(self@, (index + 1) as nat, self@.len());
        }
        let current = &self.inner[index];
        if current.same(&node) {
            assert(self@.update(index as int, node@) =~= self@);
            Cow::Borrowed(self)
        } else {
            let size: usize = self.size - current.node_size() + node.node_size();
            let ghost target = self@.update(index as int, node@);
            let count: usize = self.inner.len();
            let mut copy: Vec<MarkdownNode> = Vec::new();
            let mut i: usize = 0;
            while i < index
                invariant
                    0 <= i <= index < self.inner@.len(),
                    count == self.inner@.len(),
                    self.inner@.len() == self@.len(),
                    forall|j: int| 0 <= j < self@.len() ==> self@[j] == (#[trigger] self.inner@[j])@,
                    copy@.len() == i,
                    forall|j: int| 0 <= j < i ==> (#[trigger] copy@[j])@ == self@[j],
                decreases index - i,
            {
                copy.push(self.inner[i].clone());
                i = i + 1;
            }
            copy.push(node);
            i = i + 1;
            while i < count
                invariant
                    index < i <= self.inner@.len(),
                    count == self.inner@.len(),
                    self.inner@.len() == self@.len(),
                    forall|j: int| 0 <= j < self@.len() ==> self@[j] == (#[trigger] self.inner@[j])@,
                    copy@.len() == i,
                    forall|j: int| 0 <= j < i ==> (#[trigger] copy@[j])@ == target[j],
                    target == self@.update(index as int, node@),
                decreases self.inner@.len() - i,
            {
                copy.push(self.inner[i].clone());
                i = i + 1;
            }
            proof {
                let g = Fragment { inner: copy, size };
                assert(g@ =~= target);
            }
            Cow::Owned(Fragment { inner: copy, size })
        }
    }

    /// The descendant nodes between the given two positions (relative to start of this
    /// fragment), each with the position before it: depth-first and from left to right.
    /// `node_start` is the position at which this fragment starts in the document.
    pub fn nodes_between(&self, from: usize, to: usize, node_start: usize) -> (r: Vec<
        (&MarkdownNode, usize),
    >)
        requires
            to <= content_size(self@),
            node_start + content_size(self@) <= usize::MAX,
        ensures
            visits_view(r@) == visits(self@, from as nat, to as nat, node_start as nat, self@.len()),
        decreases content_size(self@),
    {
        proof {
            use_type_invariant(self);
        }
        let mut out: Vec<(&MarkdownNode, usize)> = Vec::new();
        let count: usize = self.inner.len();
        let mut pos: usize = 0;
        let mut i: usize = 0;
        proof {
            assert(visits_view(out@) =~= Seq::<Visit>::empty());
        }
        while i < count && pos < to
            invariant
                0 <= i <= count,
                count == self.inner@.len(),
                count == self@.len(),
                forall|j: int| 0 <= j < self@.len() ==> self@[j] == (#[trigger] self.inner@[j])@,
                pos == size_upto(self@, i as nat),
                to <= content_size(self@),
                node_start + content_size(self@) <= usize::MAX,
                visits_view(out@) == visits(
                    self@,
                    from as nat,
                    to as nat,
                    node_start as nat,
                    i as nat,
                ),
            decreases count - i,
        {
            proof {
                lemma_size_upto_mono(self@, (i + 1) as nat, self@.len());
            }
            let child = &self.inner[i];
            let end: usize = pos + child.node_size();
            if end > from {
                let ghost before = visits_view(out@);
                out.push((child, node_start + pos));
                proof {
                    assert(visits_view(out@) =~= before + seq![
                        Visit { node: child@, pos: (node_start + pos) as nat },
                    ]);
                }
                if let Some(content) = child.content() {
                    let start: usize = pos + 1;
                    let inner_from: usize = if from > start {
                        from - start
                    } else {
                        0
                    };
                    let inner_to: usize = if content.size() <= to - start {
                        content.size()
                    } else {
                        to - start
                    };
                    let mut inner = content.nodes_between(inner_from, inner_to, node_start + start);
                    let ghost here = visits_view(out@);
                    let ghost more = visits_view(inner@);
                    out.append(&mut inner);
                    proof {
                        assert(visits_view(out@) =~= here + more);
                    }
                } else {
                    proof {
                        assert(visits_view(out@) =~= visits_view(out@) + Seq::<Visit>::empty());
                    }
                }
            }
            pos = end;
            i = i + 1;
        }
        proof {
            if i < count {
                lemma_visits_rest(
                    self@,
                    from as nat,
                    to as nat,
                    node_start as nat,
                    i as nat,
                    self@.len(),
                );
            }
        }
        out
    }

    /// The descendant nodes between the given two positions (relative to start of this
    /// fragment), each with the position before it: depth-first and from left to right,
    /// without the nodes below a node for which the visitor answers `false`. The visitor is
    /// asked once for each node that the walk comes by, with the node and the position
    /// before it. `node_start` is the position at which this fragment starts in the
    /// document.
    pub fn nodes_between_by<F: Fn(&MarkdownNode, usize) -> bool>(
        &self,
        from: usize,
        to: usize,
        node_start: usize,
        enter: &F,
    ) -> (r: Vec<(&MarkdownNode, usize)>)
        requires
            to <= content_size(self@),
            node_start + content_size(self@) <= usize::MAX,
            forall|n: &MarkdownNode, p: usize| call_requires(*enter, (n, p)),
        ensures
            exists|entered: Seq<bool>|
                answered(r@, entered, enter) && visits_view(r@) == #[trigger] visits_by(
                    self@,
                    from as nat,
                    to as nat,
                    node_start as nat,
                    self@.len(),
                    entered,
                ),
        decreases content_size(self@),
    {
        proof {
            use_type_invariant(self);
        }
        let mut out: Vec<(&MarkdownNode, usize)> = Vec::new();
        let ghost mut entered: Seq<bool> = Seq::empty();
        let count: usize = self.inner.len();
        let mut pos: usize = 0;
        let mut i: usize = 0;
        proof {
            assert(visits_view(out@) =~= Seq::<Visit>::empty());
        }
        while i < count && pos < to
            invariant
                0 <= i <= count,
                count == self.inner@.len(),
                count == self@.len(),
                forall|j: int| 0 <= j < self@.len() ==> self@[j] == (#[trigger] self.inner@[j])@,
                pos == size_upto(self@, i as nat),
                to <= content_size(self@),
                node_start + content_size(self@) <= usize::MAX,
                forall|n: &MarkdownNode, p: usize| call_requires(*enter, (n, p)),
                answered(out@, entered, enter),
                visits_view(out@) == visits_by(
                    self@,
                    from as nat,
                    to as nat,
                    node_start as nat,
                    i as nat,
                    entered,
                ),
            decreases count - i,
        {
            proof {
                lemma_size_upto_mono(self@, (i + 1) as nat, self@.len());
            }
            let child = &self.inner[i];
            let end: usize = pos + child.node_size();
            if end > from {
                let ghost before = visits_view(out@);
                let ghost asked = entered;
                let go = enter(child, node_start + pos);
                out.push((child, node_start + pos));
                let ghost mut below: Seq<bool> = Seq::empty();
                if go {
                    if let Some(content) = child.content() {
                        let start: usize = pos + 1;
                        let inner_from: usize = if from > start {
                            from - start
                        } else {
                            0
                        };
                        let inner_to: usize = if content.size() <= to - start {
                            content.size()
                        } else {
                            to - start
                        };
                        let mut inner = content.nodes_between_by(
                            inner_from,
                            inner_to,
                            node_start + start,
                            enter,
                        );
                        proof {
                            below = choose|e: Seq<bool>|
                                answered(inner@, e, enter) && visits_view(inner@)
                                    == #[trigger] visits_by(
                                    content@,
                                    inner_from as nat,
                                    inner_to as nat,
                                    (node_start + start) as nat,
                                    content@.len(),
                                    e,
                                );
                        }
                        let ghost here = out@;
                        let ghost more = inner@;
                        out.append(&mut inner);
                        proof {
                            assert(out@ =~= here + more);
                        }
                    }
                }
                proof {
                    let at = before.len() as int;
                    let all = asked.push(go) + below;
                    entered = all;
                    assert(all.skip(at + 1) =~= below);
                    assert(all[at] == go);
                    assert forall|j: int| 0 <= j < at implies #[trigger] entered_at(asked, j)
                        == entered_at(all, j) by {
                        assert(all[j] == asked[j]);
                    }
                    lemma_visits_by_prefix(
                        self@,
                        from as nat,
                        to as nat,
                        node_start as nat,
                        i as nat,
                        asked,
                        all,
                    );
                    assert(visits_view(out@) =~= visits_by(
                        self@,
                        from as nat,
                        to as nat,
                        node_start as nat,
                        (i + 1) as nat,
                        all,
                    ));
                }
            }
            pos = end;
            i = i + 1;
        }
        proof {
            if i < count {
                lemma_visits_by_rest(
                    self@,
                    from as nat,
                    to as nat,
                    node_start as nat,
                    i as nat,
                    self@.len(),
                    entered,
                );
            }
        }
        out
    }

    /// Get all text between positions from and to. When `block_separator` is given, it will be
    /// inserted whenever a new block node is started. When `leaf_text` is given, it'll be inserted
    /// for every non-text leaf node encountered. The range has to lie within the fragment.
    pub fn text_between(
        &self,
        text: &mut String,
        separated: bool,
        from: usize,
        to: usize,
        block_separator: Option<&str>,
        leaf_text: Option<&str>,
    )
        requires
            from <= to <= content_size(self@),
        ensures
            final(text)@ == text_between(
                self@,
                old(text)@,
                separated,
                from as nat,
                to as nat,
                match block_separator {
                    Some(s) => Some(s@),
                    None => None,
                },
                match leaf_text {
                    Some(s) => Some(s@),
                    None => None,
                },
            ),
    {
        let ghost sep = match block_separator {
            Some(s) => Some(s@),
            None => None,
        };
        let ghost leaf = match leaf_text {
            Some(s) => Some(s@),
            None => None,
        };
        let ghost start = Gathered { text: text@, separated };
        let total: usize = self.size();
        let walk = self.nodes_between(from, to, 0);
        let mut separated = separated;
        let mut k: usize = 0;
        while k < walk.len()
            invariant
                0 <= k <= walk@.len(),
                (Gathered { text: text@, separated }) == gather_all(
                    start,
                    visits_view(walk@),
                    k as nat,
                    from as nat,
                    to as nat,
                    sep,
                    leaf,
                ),
                sep == match block_separator {
                    Some(s) => Some(s@),
                    None => None,
                },
                leaf == match leaf_text {
                    Some(s) => Some(s@),
                    None => None,
                },
            decreases walk@.len() - k,
        {
            let node: &MarkdownNode = walk[k].0;
            let pos: usize = walk[k].1;
            proof {
                reveal_strlit("");
                assert(visits_view(walk@)[k as int] == Visit { node: node@, pos: pos as nat });
            }
            if let Some(txt_node) = node.text_node() {
                let skip: usize = if from > pos {
                    from - pos
                } else {
                    0
                };
                let end: usize = if to > pos {
                    to - pos
                } else {
                    0
                };
                let (upto, _) = util::split_within_utf16(txt_node.text.as_str(), end);
                let (_, slice) = util::split_within_utf16(upto, skip);
                proof {
                    let s = txt_node.text@;
                    let b = util::utf16_index(s, end as nat) as int;
                    util::lemma_utf16_index_bounds(s, end as nat);
                    util::lemma_utf16_index_take(s, b, skip as nat);
                    let a = util::utf16_index(s, skip as nat) as int;
                    if a <= b {
                        assert(s.take(b).skip(a) =~= s.subrange(a, b));
                    } else {
                        assert(s.take(b).skip(b) =~= Seq::<char>::empty());
                    }
                }
                text.append(slice);
                separated = block_separator.is_none();
            } else if node.is_leaf() {
                if let Some(leaf_text) = leaf_text {
                    text.append(leaf_text);
                } else {
                    proof {
                        assert(text@ + Seq::<char>::empty() =~= text@);
                    }
                }
                separated = block_separator.is_none();
            } else if !separated && node.is_block() {
                match block_separator {
                    Some(s) => text.append(s),
                    None => {
                        proof {
                            assert(text@ + Seq::<char>::empty() =~= text@);
                        }
                    },
                }
                separated = true
            }
            k = k + 1;
        }
    }

    /// True when both fragments hold the same nodes.
    pub fn same(&self, other: &Self) -> (r: bool)
        ensures
            r == (self@ == other@),
        decreases self,
    {
        if self.inner.len() != other.inner.len() {
            assert(self@.len() != other@.len());
            return false;
        }
        let mut i: usize = 0;
        while i < self.inner.len()
            invariant
                0 <= i <= self.inner@.len(),
                self.inner@.len() == other.inner@.len(),
                forall|j: int| 0 <= j < i ==> self@[j] == other@[j],
            decreases self.inner@.len() - i,
        {
            if !self.inner[i].same(&other.inner[i]) {
                assert(self@[i as int] != other@[i as int]);
                return false;
            }
            i = i + 1;
        }
        assert(self@ =~= other@);
        true
    }

    #[verifier::type_invariant]
    spec fn well_formed(self) -> bool {
        self.size == content_size(self@) && self.size + 2 <= usize::MAX
    }
}

impl Clone for Fragment {
    fn clone(&self) -> (r: Self)
        ensures
            r@ == self@,
        decreases self,
    {
        proof {
            use_type_invariant(self);
        }
        let mut inner: Vec<MarkdownNode> = Vec::new();
        let mut i: usize = 0;
        while i < self.inner.len()
            invariant
                0 <= i <= self.inner@.len(),
                inner@.len() == i,
                forall|j: int| 0 <= j < i ==> inner@[j]@ == self.inner@[j]@,
            decreases self.inner@.len() - i,
        {
            inner.push(self.inner[i].clone());
            i = i + 1;
        }
        proof {
            let g = Fragment { inner, size: self.size };
            assert(g@ =~= self@);
        }
        Fragment { inner, size: self.size }
    }
}

impl Default for Fragment {
    fn default() -> (r: Self)
        ensures
            r@ == Seq::<NodeView>::empty(),
    {
        Fragment::new()
    }
}

impl PartialEq for Fragment {
    fn eq(&self, other: &Self) -> (r: bool) {
        self.same(other)
    }
}

impl PartialEqSpecImpl for Fragment {
    open spec fn obeys_eq_spec() -> bool {
        true
    }

    open spec fn eq_spec(&self, other: &Self) -> bool {
        self@ == other@
    }
}

impl Eq for Fragment {

}

impl View for Fragment {
    type V = Seq<NodeView>;

    open spec fn view(&self) -> Seq<NodeView> {
        fragment_view(*self)
    }
}

} // verus!
