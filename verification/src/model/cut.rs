//! What cutting a fragment or a node between two offsets gives.

use super::util::{cut_text, lemma_cut_text_len, utf16_len};
use super::view::{content_size, lemma_size_upto_mono, node_size, size_upto, NodeView};
use vstd::prelude::*;

verus! {

/// The smaller of two numbers.
pub open spec fn min_nat(a: nat, b: nat) -> nat {
    if a <= b {
        a
    } else {
        b
    }
}

/// The node with only what lies between two offsets into its text or its
/// content. The full range gives the node itself; another range of a
/// parent gives the parent around the cut of its content.
pub open spec fn cut_node(n: NodeView, from: nat, to: nat) -> NodeView
    decreases n, 0nat, 0nat,
{
    if n.is_text() {
        if from == 0 && to == utf16_len(n.text) {
            n
        } else {
            NodeView { text: cut_text(n.text, from, to), ..n }
        }
    } else if from == 0 && to == content_size(n.content) {
        n
    } else if n.kind.parent() {
        NodeView { content: cut_content(n.content, from, to), ..n }
    } else {
        n
    }
}

/// The part of a fragment between two offsets. The full range gives the
/// fragment itself and an empty range gives nothing. Of another range,
/// every child that reaches into it is kept: whole when it lies within the
/// range, and else cut to the part of it that does.
pub open spec fn cut_content(c: Seq<NodeView>, from: nat, to: nat) -> Seq<NodeView>
    decreases c, c.len() + 1, 0nat,
{
    if from == 0 && to == content_size(c) {
        c
    } else if to <= from {
        Seq::empty()
    } else {
        cut_upto(c, from, to, c.len())
    }
}

/// What the first `k` children of a fragment leave in a cut.
pub open spec fn cut_upto(c: Seq<NodeView>, from: nat, to: nat, k: nat) -> Seq<NodeView>
    decreases c, k, 0nat,
{
    if k == 0 || k > c.len() {
        Seq::empty()
    } else {
        let before = cut_upto(c, from, to, (k - 1) as nat);
        let pos = size_upto(c, (k - 1) as nat);
        let end = pos + node_size(c[k - 1]);
        if pos < to && end > from {
            before.push(cut_child(c[k - 1], pos, from, to))
        } else {
            before
        }
    }
}

/// What is left of a child that starts at `pos` in a cut that it reaches
/// into.
pub open spec fn cut_child(n: NodeView, pos: nat, from: nat, to: nat) -> NodeView
    decreases n, 0nat, 1nat,
{
    let end = pos + node_size(n);
    if pos < from || end > to {
        if n.is_text() {
            cut_node(
                n,
                if from > pos {
                    (from - pos) as nat
                } else {
                    0
                },
                min_nat(utf16_len(n.text), (to - pos) as nat),
            )
        } else {
            let t = pos + 1;
            cut_node(
                n,
                if from > t {
                    (from - t) as nat
                } else {
                    0
                },
                min_nat(content_size(n.content), (to - t) as nat),
            )
        }
    } else {
        n
    }
}

/// A cut of a node is no larger than the node.
pub proof fn lemma_cut_node_size(n: NodeView, from: nat, to: nat)
    ensures
        node_size(cut_node(n, from, to)) <= node_size(n),
        cut_node(n, from, to).kind == n.kind,
    decreases n, 0nat, 0nat,
{
    if n.is_text() {
        lemma_cut_text_len(n.text, from, to);
    } else if n.kind.parent() {
        lemma_cut_content_size(n.content, from, to);
    }
}

/// A cut of a fragment is no larger than the fragment.
pub proof fn lemma_cut_content_size(c: Seq<NodeView>, from: nat, to: nat)
    ensures
        content_size(cut_content(c, from, to)) <= content_size(c),
    decreases c, c.len() + 1, 0nat,
{
    if from == 0 && to == content_size(c) {
    } else if to <= from {
    } else {
        lemma_cut_upto_size(c, from, to, c.len());
    }
}

/// What the first `k` children leave in a cut is no larger than they are.
pub proof fn lemma_cut_upto_size(c: Seq<NodeView>, from: nat, to: nat, k: nat)
    requires
        k <= c.len(),
    ensures
        content_size(cut_upto(c, from, to, k)) <= size_upto(c, k),
        cut_upto(c, from, to, k).len() <= k,
    decreases c, k, 0nat,
{
    if k > 0 {
        lemma_cut_upto_size(c, from, to, (k - 1) as nat);
        let before = cut_upto(c, from, to, (k - 1) as nat);
        let pos = size_upto(c, (k - 1) as nat);
        let end = pos + node_size(c[k - 1]);
        if pos < to && end > from {
            lemma_cut_child_size(c[k - 1], pos, from, to);
            let child = cut_child(c[k - 1], pos, from, to);
            assert(before.push(child).drop_last() =~= before);
            super::view::lemma_size_upto_prefix(before.push(child), before, before.len());
        }
    }
}

/// Children that start at or after the end of the range leave nothing in a
/// cut.
pub proof fn lemma_cut_upto_rest(c: Seq<NodeView>, from: nat, to: nat, i: nat, k: nat)
    requires
        i <= k <= c.len(),
        size_upto(c, i) >= to,
    ensures
        cut_upto(c, from, to, k) == cut_upto(c, from, to, i),
    decreases k,
{
    if i < k {
        lemma_cut_upto_rest(c, from, to, i, (k - 1) as nat);
        lemma_size_upto_mono(c, i, (k - 1) as nat);
    }
}

/// Children that end at or before the start of the range leave nothing in
/// a cut.
pub proof fn lemma_cut_upto_skip(c: Seq<NodeView>, from: nat, to: nat, i: nat)
    requires
        i <= c.len(),
        size_upto(c, i) <= from,
    ensures
        cut_upto(c, from, to, i) == Seq::<NodeView>::empty(),
    decreases i,
{
    if i > 0 {
        lemma_size_upto_mono(c, (i - 1) as nat, i);
        lemma_cut_upto_skip(c, from, to, (i - 1) as nat);
    }
}

/// The first child that reaches into the range is the first node of the
/// cut.
pub proof fn lemma_cut_upto_first(c: Seq<NodeView>, from: nat, to: nat, i: nat, k: nat)
    requires
        i < k <= c.len(),
        size_upto(c, i) <= from,
        size_upto(c, i) < to,
        size_upto(c, i + 1) > from,
    ensures
        cut_upto(c, from, to, k).len() >= 1,
        cut_upto(c, from, to, k)[0] == cut_child(c[i as int], size_upto(c, i), from, to),
    decreases k,
{
    if k == i + 1 {
        lemma_cut_upto_skip(c, from, to, i);
    } else {
        lemma_cut_upto_first(c, from, to, i, (k - 1) as nat);
    }
}

/// The last child that reaches into the range is the last node of the cut.
pub proof fn lemma_cut_upto_last(c: Seq<NodeView>, from: nat, to: nat, i: nat)
    requires
        i < c.len(),
        size_upto(c, i) < to,
        size_upto(c, i + 1) > from,
        size_upto(c, i + 1) >= to,
    ensures
        cut_upto(c, from, to, c.len()).len() >= 1,
        cut_upto(c, from, to, c.len()).last() == cut_child(
            c[i as int],
            size_upto(c, i),
            from,
            to,
        ),
{
    lemma_cut_upto_rest(c, from, to, i + 1, c.len());
}

/// What is left of a child in a cut is no larger than the child.
pub proof fn lemma_cut_child_size(n: NodeView, pos: nat, from: nat, to: nat)
    ensures
        node_size(cut_child(n, pos, from, to)) <= node_size(n),
        cut_child(n, pos, from, to).kind == n.kind,
    decreases n, 0nat, 1nat,
{
    let end = pos + node_size(n);
    if pos < from || end > to {
        if n.is_text() {
            lemma_cut_node_size(
                n,
                if from > pos {
                    (from - pos) as nat
                } else {
                    0
                },
                min_nat(utf16_len(n.text), (to - pos) as nat),
            );
        } else {
            let t = pos + 1;
            lemma_cut_node_size(
                n,
                if from > t {
                    (from - t) as nat
                } else {
                    0
                },
                min_nat(content_size(n.content), (to - t) as nat),
            );
        }
    }
}

/// A cut of a text node between two offsets within the text that split no
/// surrogate pair has the size of the range.
pub proof fn lemma_cut_text_node_size(n: NodeView, from: nat, to: nat)
    requires
        n.is_text(),
        from <= to <= node_size(n),
        super::util::utf16_boundary(n.text, from),
        super::util::utf16_boundary(n.text, to),
    ensures
        node_size(cut_node(n, from, to)) == to - from,
{
    lemma_cut_text_len(n.text, from, to);
}

} // verus!
