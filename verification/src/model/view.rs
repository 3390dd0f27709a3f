//! The mathematical model of a document: trees of plain values, and the
//! integer position scheme over them.

use super::util::utf16_len;
use crate::markdown::attrs::AttrsView;
use crate::markdown::marks::MarkView;
use crate::markdown::schema::MarkdownNodeType;
use vstd::prelude::*;

verus! {

/// What a node holds, as plain values. A text node has `text` and `marks`,
/// a parent node has `content`, and a node with attributes has `attrs`; what
/// a node does not have is empty.
#[verifier::ext_equal]
pub struct NodeView {
    /// The type of the node
    pub kind: MarkdownNodeType,
    /// The attributes of the node
    pub attrs: AttrsView,
    /// The characters of a text node
    pub text: Seq<char>,
    /// The marks of a text node
    pub marks: Seq<MarkView>,
    /// The children of a parent node
    pub content: Seq<NodeView>,
}

impl NodeView {
    /// True for a text node.
    pub open spec fn is_text(self) -> bool {
        self.kind == MarkdownNodeType::Text
    }

    /// True for a node that holds no fragment: text, and the nodes that
    /// count as one token.
    pub open spec fn is_leaf(self) -> bool {
        !self.kind.parent()
    }

    /// True for a leaf that counts as one token: a node that is neither
    /// text nor a parent.
    pub open spec fn is_leaf_token(self) -> bool {
        !self.kind.parent() && !self.is_text()
    }

    /// The same node around other content. Nodes without content stay as
    /// they are.
    pub open spec fn with_content(self, content: Seq<NodeView>) -> NodeView {
        if self.kind.parent() {
            NodeView { content, ..self }
        } else {
            self
        }
    }

    /// The same node with other marks. Only text carries marks.
    pub open spec fn with_marks(self, marks: Seq<MarkView>) -> NodeView {
        if self.is_text() {
            NodeView { marks, ..self }
        } else {
            self
        }
    }

    /// A text node with the given characters and marks.
    pub open spec fn text_node(text: Seq<char>, marks: Seq<MarkView>) -> NodeView {
        NodeView {
            kind: MarkdownNodeType::Text,
            attrs: AttrsView::Empty,
            text,
            marks,
            content: Seq::empty(),
        }
    }
}

/// The size of a node in the integer position scheme: the UTF-16 length of
/// a text node, one for another leaf, and the size of the content plus the
/// opening and the closing token for a parent.
pub open spec fn node_size(n: NodeView) -> nat
    decreases n, 0nat,
{
    if n.kind == MarkdownNodeType::Text {
        utf16_len(n.text)
    } else if n.kind.parent() {
        size_upto(n.content, n.content.len()) + 2
    } else {
        1
    }
}

/// The total size of the first `k` nodes of `c`: the offset at which child
/// `k` starts.
pub open spec fn size_upto(c: Seq<NodeView>, k: nat) -> nat
    decreases c, k,
{
    if k == 0 || k > c.len() {
        0
    } else {
        size_upto(c, (k - 1) as nat) + node_size(c[k - 1])
    }
}

/// The size of a fragment: the sum of the sizes of its nodes.
pub open spec fn content_size(c: Seq<NodeView>) -> nat {
    size_upto(c, c.len())
}

/// The offset of a child depends on the children before it alone.
pub proof fn lemma_size_upto_prefix(a: Seq<NodeView>, b: Seq<NodeView>, k: nat)
    requires
        k <= a.len(),
        k <= b.len(),
        forall|i: int| 0 <= i < k ==> a[i] == b[i],
    ensures
        size_upto(a, k) == size_upto(b, k),
    decreases k,
{
    if k > 0 {
        lemma_size_upto_prefix(a, b, (k - 1) as nat);
    }
}

/// Offsets rise with the index.
pub proof fn lemma_size_upto_mono(c: Seq<NodeView>, i: nat, j: nat)
    requires
        i <= j <= c.len(),
    ensures
        size_upto(c, i) <= size_upto(c, j),
    decreases j,
{
    if i < j {
        lemma_size_upto_mono(c, i, (j - 1) as nat);
    }
}

/// The size of a concatenation is the sum of the sizes.
pub proof fn lemma_content_size_add(a: Seq<NodeView>, b: Seq<NodeView>)
    ensures
        content_size(a + b) == content_size(a) + content_size(b),
    decreases b.len(),
{
    if b.len() == 0 {
        assert(a + b =~= a);
    } else {
        let ab = a + b;
        let b0 = b.drop_last();
        lemma_content_size_add(a, b0);
        lemma_size_upto_prefix(ab, a + b0, (ab.len() - 1) as nat);
        lemma_size_upto_prefix(b, b0, b0.len());
    }
}

/// The size of a fragment of one node is the size of the node.
pub proof fn lemma_content_size_one(n: NodeView)
    ensures
        content_size(seq![n]) == node_size(n),
{
    assert(size_upto(seq![n], 0) == 0);
}

/// Putting another node in the place of a child changes the size of the
/// fragment by the difference of their sizes.
pub proof fn lemma_content_size_update(c: Seq<NodeView>, i: int, n: NodeView)
    requires
        0 <= i < c.len(),
    ensures
        content_size(c.update(i, n)) + node_size(c[i]) == content_size(c) + node_size(n),
{
    let u = c.update(i, n);
    assert(c =~= c.take(i) + seq![c[i]] + c.skip(i + 1));
    assert(u =~= c.take(i) + seq![n] + c.skip(i + 1));
    lemma_content_size_add(c.take(i) + seq![c[i]], c.skip(i + 1));
    lemma_content_size_add(c.take(i), seq![c[i]]);
    lemma_content_size_add(c.take(i) + seq![n], c.skip(i + 1));
    lemma_content_size_add(c.take(i), seq![n]);
    lemma_content_size_one(c[i]);
    lemma_content_size_one(n);
}

/// The size of a fragment with one more node at its end.
pub proof fn lemma_content_size_push(c: Seq<NodeView>, n: NodeView)
    ensures
        content_size(c.push(n)) == content_size(c) + node_size(n),
{
    assert(c.push(n) =~= c + seq![n]);
    lemma_content_size_add(c, seq![n]);
    lemma_content_size_one(n);
}

/// True when no two neighbours in the list are text nodes with the same
/// marks.
pub open spec fn texts_merged(c: Seq<NodeView>) -> bool {
    forall|i: int| 0 <= i < c.len() - 1 ==> !mergeable(#[trigger] c[i], c[i + 1])
}

/// Appending two fragments in which no two neighbours are text with the
/// same marks gives such a fragment.
pub proof fn lemma_append_texts_merged(a: Seq<NodeView>, b: Seq<NodeView>)
    requires
        texts_merged(a),
        texts_merged(b),
    ensures
        texts_merged(append_content(a, b)),
{
    let r = append_content(a, b);
    assert forall|i: int| 0 <= i < r.len() - 1 implies !mergeable(#[trigger] r[i], r[i + 1]) by {
        if b.len() == 0 || a.len() == 0 {
        } else if mergeable(a.last(), b[0]) {
            let k = a.len() - 1;
            if i < k - 1 {
                assert(!mergeable(a[i], a[i + 1]));
            } else if i == k - 1 {
                assert(!mergeable(a[i], a[i + 1]));
            } else if i == k {
                assert(!mergeable(b[0], b[1]));
            } else {
                assert(!mergeable(b[i - k], b[i - k + 1]));
            }
        } else {
            if i < a.len() - 1 {
                assert(!mergeable(a[i], a[i + 1]));
            } else if i >= a.len() {
                assert(!mergeable(b[i - a.len()], b[i - a.len() + 1]));
            }
        }
    }
}

/// Adding a node to a list in which no two neighbours are text with the
/// same marks gives such a list.
pub proof fn lemma_add_node_texts_merged(out: Seq<NodeView>, child: NodeView)
    requires
        texts_merged(out),
    ensures
        texts_merged(add_node(out, child)),
{
    let r = add_node(out, child);
    assert forall|i: int| 0 <= i < r.len() - 1 implies !mergeable(#[trigger] r[i], r[i + 1]) by {
        if out.len() > 0 && mergeable(out.last(), child) {
            assert(!mergeable(out[i], out[i + 1]));
        } else {
            if i < out.len() - 1 {
                assert(!mergeable(out[i], out[i + 1]));
            }
        }
    }
}

/// True when two nodes are text with the same marks, so that they merge
/// into one text node where they meet.
pub open spec fn mergeable(a: NodeView, b: NodeView) -> bool {
    a.is_text() && b.is_text() && a.marks == b.marks
}

/// The text node that two text nodes with the same marks merge into.
pub open spec fn merged(a: NodeView, b: NodeView) -> NodeView {
    NodeView::text_node(a.text + b.text, a.marks)
}

/// Two fragments one after the other. Where the last node of the first and
/// the first node of the second are text with the same marks, the two
/// become one text node.
pub open spec fn append_content(a: Seq<NodeView>, b: Seq<NodeView>) -> Seq<NodeView> {
    if b.len() == 0 {
        a
    } else if a.len() == 0 {
        b
    } else if mergeable(a.last(), b[0]) {
        a.drop_last().push(merged(a.last(), b[0])) + b.drop_first()
    } else {
        a + b
    }
}

/// A list of nodes with one more node at its end, which merges with the
/// last node of the list where both are text with the same marks.
pub open spec fn add_node(out: Seq<NodeView>, child: NodeView) -> Seq<NodeView> {
    if out.len() > 0 && mergeable(out.last(), child) {
        out.drop_last().push(merged(out.last(), child))
    } else {
        out.push(child)
    }
}

/// Appending keeps the first node of the first fragment where it is no
/// text, and the last node of the second fragment where it is no text.
pub proof fn lemma_append_content_ends(a: Seq<NodeView>, b: Seq<NodeView>)
    ensures
        a.len() > 0 && !a[0].is_text() ==> append_content(a, b).len() > 0 && append_content(
            a,
            b,
        )[0] == a[0],
        b.len() > 0 && !b.last().is_text() ==> append_content(a, b).len() > 0 && append_content(
            a,
            b,
        ).last() == b.last(),
        b.len() == 0 ==> append_content(a, b) == a,
        append_content(a, b).len() >= a.len(),
{
}

/// Merging two text nodes keeps their total size.
pub proof fn lemma_merged_size(a: NodeView, b: NodeView)
    requires
        mergeable(a, b),
    ensures
        node_size(merged(a, b)) == node_size(a) + node_size(b),
{
    super::util::lemma_utf16_len_add(a.text, b.text);
}

/// Appending keeps the total size.
pub proof fn lemma_append_content_size(a: Seq<NodeView>, b: Seq<NodeView>)
    ensures
        content_size(append_content(a, b)) == content_size(a) + content_size(b),
{
    if b.len() == 0 || a.len() == 0 {
        assert(content_size(Seq::<NodeView>::empty()) == 0);
    } else if mergeable(a.last(), b[0]) {
        lemma_merged_size(a.last(), b[0]);
        lemma_content_size_add(a.drop_last().push(merged(a.last(), b[0])), b.drop_first());
        lemma_content_size_push(a.drop_last(), merged(a.last(), b[0]));
        lemma_content_size_push(a.drop_last(), a.last());
        assert(a.drop_last().push(a.last()) =~= a);
        assert(b =~= seq![b[0]] + b.drop_first());
        lemma_content_size_add(seq![b[0]], b.drop_first());
        lemma_content_size_one(b[0]);
    } else {
        lemma_content_size_add(a, b);
    }
}

/// Adding a node adds its size.
pub proof fn lemma_add_node_size(out: Seq<NodeView>, child: NodeView)
    ensures
        content_size(add_node(out, child)) == content_size(out) + node_size(child),
{
    if out.len() > 0 && mergeable(out.last(), child) {
        lemma_merged_size(out.last(), child);
        lemma_content_size_push(out.drop_last(), merged(out.last(), child));
        lemma_content_size_push(out.drop_last(), out.last());
        assert(out.drop_last().push(out.last()) =~= out);
    } else {
        lemma_content_size_push(out, child);
    }
}

/// The first child at or after index `i` that ends at or after `pos`, or
/// the number of children if there is none.
pub open spec fn scan_to(c: Seq<NodeView>, pos: nat, i: nat) -> nat
    decreases c.len() - i,
{
    if i >= c.len() {
        c.len()
    } else if size_upto(c, i + 1) >= pos {
        i
    } else {
        scan_to(c, pos, i + 1)
    }
}

/// The child index and the offset before that child that an offset into a
/// fragment stands for, if the offset is within the fragment. Offset zero is
/// before the first child and the size of the fragment is after the last.
/// Another offset belongs to the first child that ends at or after it: to
/// the index after that child when the child ends there or `round` is set,
/// and else to the child itself.
pub open spec fn find_index(c: Seq<NodeView>, pos: nat, round: bool) -> Option<(nat, nat)> {
    if pos == 0 {
        Some((0, 0))
    } else if pos == content_size(c) {
        Some((c.len(), pos))
    } else if pos > content_size(c) {
        None
    } else {
        let i = scan_to(c, pos, 0);
        let end = size_upto(c, i + 1);
        if end == pos || round {
            Some((i + 1, end))
        } else {
            Some((i, size_upto(c, i)))
        }
    }
}

/// What `scan_to` finds: a child that ends at or after `pos`, before which
/// every child from `i` on ends before `pos`.
pub proof fn lemma_scan_to(c: Seq<NodeView>, pos: nat, i: nat)
    requires
        i <= c.len(),
        pos <= content_size(c),
    ensures
        i <= scan_to(c, pos, i) <= c.len(),
        scan_to(c, pos, i) < c.len() ==> size_upto(c, scan_to(c, pos, i) + 1) >= pos,
        forall|j: nat| i < j <= scan_to(c, pos, i) ==> #[trigger] size_upto(c, j) < pos,
        size_upto(c, i) < pos ==> scan_to(c, pos, i) < c.len(),
    decreases c.len() - i,
{
    if i < c.len() && size_upto(c, i + 1) < pos {
        lemma_scan_to(c, pos, i + 1);
    }
}

/// An offset that lies inside a child, after its start and before its end,
/// stands for the index of that child.
pub proof fn lemma_find_index_inside(c: Seq<NodeView>, pos: nat, i: nat)
    requires
        i < c.len(),
        size_upto(c, i) < pos < size_upto(c, i + 1),
    ensures
        find_index(c, pos, false) == Some((i, size_upto(c, i))),
{
    lemma_size_upto_mono(c, i + 1, c.len());
    lemma_scan_to(c, pos, 0);
    let k = scan_to(c, pos, 0);
    if k < i {
        lemma_size_upto_mono(c, k + 1, i);
    } else if k > i {
        assert(size_upto(c, i + 1) < pos);
    }
}

/// The index that an offset within a fragment stands for is the index of a
/// child or the end of the fragment, the offset that goes with it is the
/// total size of the children before that index, and without rounding the
/// offset given lies within the child at the index: at or after the start
/// of that child and, unless it is the start, before its end.
pub proof fn lemma_find_index(c: Seq<NodeView>, pos: nat, round: bool)
    requires
        pos <= content_size(c),
    ensures
        find_index(c, pos, round) matches Some((index, offset)) && index <= c.len() && offset
            == size_upto(c, index) && (!round ==> offset <= pos && (offset < pos ==> index
            < c.len() && !c[index as int].is_leaf_token() && pos < offset + node_size(
            c[index as int],
        ))),
{
    lemma_scan_to(c, pos, 0);
    if pos != 0 && pos != content_size(c) {
        let i = scan_to(c, pos, 0);
        assert(i < c.len());
        assert(size_upto(c, i) < pos) by {
            if i > 0 {
                assert(size_upto(c, i) < pos);
            }
        }
        assert(size_upto(c, i + 1) == size_upto(c, i) + node_size(c[i as int]));
    }
}

} // verus!
