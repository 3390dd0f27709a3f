//! The mathematical model of a resolved position: the chain of ancestors
//! that a position in a document lies in.

use super::cut::cut_node;
use super::util::utf16_len;
use super::view::{
    content_size, find_index, lemma_find_index, lemma_size_upto_mono, node_size, size_upto,
    NodeView,
};
use vstd::prelude::*;

verus! {

/// One step on the way from the root to a position.
pub struct PathEntry {
    /// The ancestor at this depth
    pub node: NodeView,
    /// The index into the ancestor's children at which the way goes on
    pub index: nat,
    /// The position in the document before the child at that index
    pub before: nat,
}

/// A position in a document with the ancestors it lies in, from the root
/// to the innermost parent.
pub struct PosView {
    /// The position that was resolved
    pub pos: nat,
    /// The ancestors of the position, the root first
    pub path: Seq<PathEntry>,
}

/// The size of what a node holds: the length of a text in UTF-16 code units,
/// and the size of the content of another node.
pub open spec fn inner_size(n: NodeView) -> nat {
    if n.is_text() {
        utf16_len(n.text)
    } else {
        content_size(n.content)
    }
}

impl PosView {
    /// The number of ancestors below the root.
    pub open spec fn depth(self) -> nat {
        (self.path.len() - 1) as nat
    }

    /// The ancestor at the given depth.
    pub open spec fn node(self, d: int) -> NodeView {
        self.path[d].node
    }

    /// The innermost parent.
    pub open spec fn parent(self) -> NodeView {
        self.path.last().node
    }

    /// The index into the ancestor at the given depth.
    pub open spec fn index(self, d: int) -> nat {
        self.path[d].index
    }

    /// The position at the start of the content of the ancestor at the
    /// given depth.
    pub open spec fn start(self, d: int) -> nat {
        if d <= 0 {
            0
        } else {
            self.path[d - 1].before + 1
        }
    }

    /// The position at the end of the content of the ancestor at the given
    /// depth.
    pub open spec fn end(self, d: int) -> nat {
        self.start(d) + content_size(self.node(d).content)
    }

    /// The position before the ancestor at depth `d`; the position itself
    /// one level below the innermost parent; nothing for the root.
    pub open spec fn before(self, d: int) -> Option<nat> {
        if d <= 0 {
            None
        } else if d == self.depth() + 1 {
            Some(self.pos)
        } else {
            Some(self.path[d - 1].before)
        }
    }

    /// The position after the ancestor at depth `d`; the position itself
    /// one level below the innermost parent; nothing for the root.
    pub open spec fn after(self, d: int) -> Option<nat> {
        if d <= 0 {
            None
        } else if d == self.depth() + 1 {
            Some(self.pos)
        } else {
            Some(self.path[d - 1].before + node_size(self.path[d].node))
        }
    }

    /// The offset of the position in the innermost parent.
    pub open spec fn parent_offset(self) -> nat {
        (self.pos - self.start(self.depth() as int)) as nat
    }

    /// How far into a text node the position lies; zero between nodes.
    pub open spec fn text_offset(self) -> nat {
        (self.pos - self.path.last().before) as nat
    }

    /// The index after the position in the ancestor at the given depth.
    pub open spec fn index_after(self, d: int) -> nat {
        if d == self.depth() && self.text_offset() == 0 {
            self.index(d)
        } else {
            self.index(d) + 1
        }
    }

    /// The node before the position in the innermost parent, if any: of a
    /// text node that the position lies in, the part before the position.
    pub open spec fn node_before(self) -> Option<NodeView> {
        let index = self.index(self.depth() as int) as int;
        if self.text_offset() > 0 {
            Some(cut_node(self.parent().content[index], 0, self.text_offset()))
        } else if index == 0 {
            None
        } else {
            Some(self.parent().content[index - 1])
        }
    }

    /// The node after the position in the innermost parent, if any: of a
    /// text node that the position lies in, the part after the position.
    pub open spec fn node_after(self) -> Option<NodeView> {
        let index = self.index(self.depth() as int) as int;
        if index >= self.parent().content.len() {
            None
        } else if self.text_offset() > 0 {
            let child = self.parent().content[index];
            Some(cut_node(child, self.text_offset(), inner_size(child)))
        } else {
            Some(self.parent().content[index])
        }
    }

    /// The deepest of the depths from `d` down at which the content of the
    /// ancestor spans `pos`; the root spans every position.
    pub open spec fn shared_from(self, pos: nat, d: nat) -> nat
        decreases d,
    {
        if d == 0 {
            0
        } else if self.start(d as int) <= pos && self.end(d as int) >= pos {
            d
        } else {
            self.shared_from(pos, (d - 1) as nat)
        }
    }

    /// The depth up to which this position and the position `pos` share
    /// the same ancestors.
    pub open spec fn shared_depth(self, pos: nat) -> nat {
        self.shared_from(pos, self.depth())
    }

    /// True when the position splits no surrogate pair of a text node.
    pub open spec fn on_boundary(self) -> bool {
        path_on_boundary(self.path, self.pos)
    }

    /// True when the path leads from its first node down to the position:
    /// every entry gives an index into its node and the position before
    /// the child at that index; the next entry is for that child, which is
    /// a parent that the position lies inside of; and at the innermost
    /// parent the position is at the index, or inside the text node there.
    pub open spec fn well_formed(self) -> bool {
        path_leads(self.path, 0, self.pos)
    }
}

/// The position at which the content of entry `d` of a path starts, for a
/// path whose first node has its content start at `start`.
pub open spec fn path_start(p: Seq<PathEntry>, start: nat, d: int) -> nat {
    if d <= 0 {
        start
    } else {
        p[d - 1].before + 1
    }
}

/// True when entry `d` of a path gives an index into its node and the
/// position before the child at that index, and the position `pos` lies in
/// the content of its node at or after that child.
pub open spec fn entry_leads(p: Seq<PathEntry>, start: nat, pos: nat, d: int) -> bool {
    let e = p[d];
    &&& e.index <= e.node.content.len()
    &&& e.before == path_start(p, start, d) + size_upto(e.node.content, e.index)
    &&& e.before <= pos
    &&& pos <= path_start(p, start, d) + content_size(e.node.content)
}

/// True when entry `d + 1` of a path is for the child at the index of entry
/// `d`, a parent that the position `pos` lies inside of.
pub open spec fn entry_links(p: Seq<PathEntry>, pos: nat, d: int) -> bool {
    let e = p[d];
    &&& e.index < e.node.content.len()
    &&& p[d + 1].node == e.node.content[e.index as int]
    &&& p[d + 1].node.kind.parent()
    &&& e.before < pos
}

/// True when the path leads to position `pos` from a node whose content
/// starts at `start`: every entry gives an index into its node and the
/// position before the child at that index; the next entry is for that
/// child, which is a parent that the position lies inside of; and at the
/// innermost parent the position is at the index, or inside the text node
/// there.
pub open spec fn path_leads(p: Seq<PathEntry>, start: nat, pos: nat) -> bool {
    &&& p.len() >= 1
    &&& forall|d: int| 0 <= d < p.len() ==> #[trigger] entry_leads(p, start, pos, d)
    &&& forall|d: int| 0 <= d < p.len() - 1 ==> #[trigger] entry_links(p, pos, d)
    &&& {
        let e = p.last();
        pos == e.before || (e.index < e.node.content.len() && e.node.content[e.index as int].is_text()
            && pos < e.before + node_size(e.node.content[e.index as int]))
    }
}

/// A path that leads to a position from a child leads there from the
/// parent too, with the entry of the parent put before it.
pub proof fn lemma_path_leads_cons(entry: PathEntry, tail: Seq<PathEntry>, start: nat, pos: nat)
    requires
        path_leads(tail, entry.before + 1, pos),
        entry.index < entry.node.content.len(),
        entry.before == start + size_upto(entry.node.content, entry.index),
        entry.before < pos,
        pos <= start + content_size(entry.node.content),
        tail[0].node == entry.node.content[entry.index as int],
        tail[0].node.kind.parent(),
    ensures
        path_leads(seq![entry] + tail, start, pos),
{
    let p = seq![entry] + tail;
    assert forall|d: int| 0 <= d < p.len() implies #[trigger] entry_leads(p, start, pos, d) by {
        if d >= 1 {
            assert(entry_leads(tail, entry.before + 1, pos, d - 1));
            assert(p[d] == tail[d - 1]);
            if d >= 2 {
                assert(p[d - 1] == tail[d - 2]);
            }
        }
    }
    assert forall|d: int| 0 <= d < p.len() - 1 implies #[trigger] entry_links(p, pos, d) by {
        assert(p[d + 1] == tail[d]);
        if d >= 1 {
            assert(entry_links(tail, pos, d - 1));
            assert(p[d] == tail[d - 1]);
        }
    }
    assert(p.last() == tail.last());
}

/// The content of an ancestor lies inside the content of the ancestor
/// above it, after its opening token and before its closing token.
pub proof fn lemma_path_nests(p: Seq<PathEntry>, start: nat, pos: nat, d: int)
    requires
        path_leads(p, start, pos),
        0 <= d < p.len() - 1,
    ensures
        path_start(p, start, d) < path_start(p, start, d + 1),
        path_start(p, start, d + 1) + content_size(p[d + 1].node.content) < path_start(
            p,
            start,
            d,
        ) + content_size(p[d].node.content),
        p[d].before + node_size(p[d + 1].node) <= path_start(p, start, d) + content_size(
            p[d].node.content,
        ),
{
    assert(entry_leads(p, start, pos, d));
    assert(entry_links(p, pos, d));
    let e = p[d];
    assert(size_upto(e.node.content, e.index + 1) == size_upto(e.node.content, e.index)
        + node_size(e.node.content[e.index as int]));
    lemma_size_upto_mono(e.node.content, e.index + 1, e.node.content.len());
}

/// The content of every ancestor lies within the content of the root.
pub proof fn lemma_path_within(p: Seq<PathEntry>, start: nat, pos: nat, d: int)
    requires
        path_leads(p, start, pos),
        0 <= d < p.len(),
    ensures
        start + d <= path_start(p, start, d),
        path_start(p, start, d) + content_size(p[d].node.content) + d <= start + content_size(
            p[0].node.content,
        ),
    decreases d,
{
    if d > 0 {
        lemma_path_within(p, start, pos, d - 1);
        lemma_path_nests(p, start, pos, d - 1);
    }
}

/// The way from `node`, whose content starts at position `start`, to the
/// offset `offset` into its content: the index and the offset that the
/// offset stands for in the node, and then, while the offset lies inside a
/// child that is no text, the way on from that child.
pub open spec fn resolve_path(node: NodeView, offset: nat, start: nat) -> Seq<PathEntry>
    decreases node,
{
    let found = match find_index(node.content, offset, false) {
        Some(f) => f,
        None => (0nat, 0nat),
    };
    let index = found.0;
    let entry = PathEntry { node, index, before: start + found.1 };
    let rest = (offset - found.1) as nat;
    if rest == 0 || index >= node.content.len() || node.content[index as int].is_text() {
        seq![entry]
    } else {
        seq![entry] + resolve_path(node.content[index as int], (rest - 1) as nat, start + found.1 + 1)
    }
}

/// The position `pos` in the document `root`, resolved.
pub open spec fn resolve(root: NodeView, pos: nat) -> PosView {
    PosView { pos, path: resolve_path(root, pos, 0) }
}

/// True when the position that the path leads to splits no surrogate pair
/// of the text node that it lies in, if it lies in one.
pub open spec fn path_on_boundary(p: Seq<PathEntry>, pos: nat) -> bool {
    let e = p.last();
    pos > e.before ==> super::util::utf16_boundary(
        e.node.content[e.index as int].text,
        (pos - e.before) as nat,
    )
}

/// A way has at least one entry.
pub proof fn lemma_resolve_path_len(node: NodeView, offset: nat, start: nat)
    ensures
        resolve_path(node, offset, start).len() >= 1,
{
}

/// The way that `resolve_path` gives leads to the offset, from the node
/// that it starts at.
pub proof fn lemma_resolve_path(node: NodeView, offset: nat, start: nat)
    requires
        offset <= content_size(node.content),
    ensures
        path_leads(resolve_path(node, offset, start), start, start + offset),
        resolve_path(node, offset, start)[0].node == node,
    decreases node,
{
    lemma_find_index(node.content, offset, false);
    let found = find_index(node.content, offset, false).unwrap();
    let index = found.0;
    let entry = PathEntry { node, index, before: start + found.1 };
    let rest = (offset - found.1) as nat;
    let p = resolve_path(node, offset, start);
    let pos = start + offset;
    if rest == 0 || index >= node.content.len() || node.content[index as int].is_text() {
        assert(p == seq![entry]);
        assert(entry_leads(p, start, pos, 0));
    } else {
        let child = node.content[index as int];
        let tail = resolve_path(child, (rest - 1) as nat, start + found.1 + 1);
        assert(p == seq![entry] + tail);
        assert(size_upto(node.content, index + 1) == size_upto(node.content, index) + node_size(
            child,
        ));
        lemma_size_upto_mono(node.content, index + 1, node.content.len());
        lemma_resolve_path(child, (rest - 1) as nat, start + found.1 + 1);
        lemma_path_leads_cons(entry, tail, start, pos);
    }
}

/// The way to an offset that lies inside a child that is no text goes
/// through that child.
pub proof fn lemma_resolve_path_inside(node: NodeView, offset: nat, start: nat, i: nat)
    requires
        i < node.content.len(),
        !node.content[i as int].is_text(),
        size_upto(node.content, i) < offset < size_upto(node.content, i + 1),
    ensures
        resolve_path(node, offset, start) == seq![
            PathEntry { node, index: i, before: start + size_upto(node.content, i) },
        ] + resolve_path(
            node.content[i as int],
            (offset - size_upto(node.content, i) - 1) as nat,
            start + size_upto(node.content, i) + 1,
        ),
{
    super::view::lemma_find_index_inside(node.content, offset, i);
}

/// A position that lies in the content of the ancestor at depth `d` of the
/// way to another position has the same ancestors down to that depth, and
/// its way goes on from that ancestor.
pub proof fn lemma_resolve_shares(root: NodeView, from: nat, to: nat, d: int)
    requires
        from <= content_size(root.content),
        0 <= d <= resolve(root, from).depth(),
        resolve(root, from).start(d) <= to <= resolve(root, from).end(d),
    ensures
        resolve(root, to).path == resolve(root, from).path.take(d) + resolve_path(
            resolve(root, from).node(d),
            (to - resolve(root, from).start(d)) as nat,
            resolve(root, from).start(d),
        ),
        resolve(root, to).depth() >= d,
        resolve(root, to).node(d) == resolve(root, from).node(d),
        resolve(root, to).start(d) == resolve(root, from).start(d),
        to <= content_size(root.content),
    decreases d,
{
    let rf = resolve(root, from);
    lemma_resolve(root, from);
    lemma_path_within(rf.path, 0, from, d);
    if d == 0 {
        assert(rf.path.take(0) + resolve_path(root, to, 0) =~= resolve_path(root, to, 0));
    } else {
        lemma_path_nests(rf.path, 0, from, d - 1);
        lemma_resolve_shares(root, from, to, d - 1);
        assert(entry_leads(rf.path, 0, from, d - 1));
        assert(entry_links(rf.path, from, d - 1));
        let e = rf.path[d - 1];
        let s = rf.start(d - 1);
        assert(size_upto(e.node.content, e.index + 1) == size_upto(e.node.content, e.index)
            + node_size(e.node.content[e.index as int]));
        lemma_resolve_path_inside(e.node, (to - s) as nat, s, e.index);
        let tail = resolve_path(rf.node(d), (to - rf.start(d)) as nat, rf.start(d));
        assert(rf.path.take(d - 1) + (seq![e] + tail) =~= rf.path.take(d) + tail);
    }
    lemma_resolve_path(rf.node(d), (to - rf.start(d)) as nat, rf.start(d));
    let rt = resolve(root, to);
    let tail = resolve_path(rf.node(d), (to - rf.start(d)) as nat, rf.start(d));
    assert(rt.path[d] == tail[0]);
    if d > 0 {
        assert(rt.path[d - 1] == rf.path[d - 1]);
    }
}

/// The shared depth is a depth of the path, and unless it is the root, the
/// content of the ancestor at that depth spans the other position.
pub proof fn lemma_shared_from(rp: PosView, pos: nat, d: nat)
    ensures
        rp.shared_from(pos, d) <= d,
        rp.shared_from(pos, d) > 0 ==> rp.start(rp.shared_from(pos, d) as int) <= pos <= rp.end(
            rp.shared_from(pos, d) as int,
        ),
    decreases d,
{
    if d > 0 {
        lemma_shared_from(rp, pos, (d - 1) as nat);
    }
}

/// A resolved position lies within its document and its path leads to it
/// from the root.
pub proof fn lemma_resolve(root: NodeView, pos: nat)
    requires
        pos <= content_size(root.content),
    ensures
        resolve(root, pos).well_formed(),
        resolve(root, pos).node(0) == root,
        resolve(root, pos).pos == pos,
{
    lemma_resolve_path(root, pos, 0);
}

} // verus!
