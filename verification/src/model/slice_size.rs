//! The size of a cut and of a slice.

use super::cut::{cut_child, cut_content, cut_node, cut_upto, min_nat};
use super::position::{
    entry_leads, lemma_resolve, lemma_resolve_path_inside, lemma_resolve_shares,
    lemma_shared_from, path_on_boundary, resolve, resolve_path, PathEntry,
};
use super::slice::slice_of;
use super::util::{lemma_cut_text_len, utf16_boundary, utf16_len};
use super::view::{
    content_size, find_index, lemma_content_size_push, lemma_find_index,
    lemma_find_index_inside, lemma_size_upto_mono, node_size, size_upto, NodeView,
};
use vstd::prelude::*;

verus! {

/// `x - a`, or zero where `a` is larger.
pub open spec fn over(x: nat, a: nat) -> nat {
    if x > a {
        (x - a) as nat
    } else {
        0
    }
}

/// The number of nodes that the way to the offset `x` into the content of
/// `node` goes through below `node`.
pub open spec fn depth_at(node: NodeView, x: nat, start: nat) -> nat {
    (resolve_path(node, x, start).len() - 1) as nat
}

/// The left term of the size of a cut child: the nodes that the start of
/// the range lies in, the child and nodes in it.
pub open spec fn left_open(n: NodeView, pos: nat, a: nat, start: nat) -> nat {
    if pos < a && n.kind.parent() {
        resolve_path(n, (a - pos - 1) as nat, start).len()
    } else {
        0
    }
}

/// The right term of the size of a cut child: the nodes that the end of
/// the range lies in, the child and nodes in it.
pub open spec fn right_open(n: NodeView, pos: nat, b: nat, start: nat) -> nat {
    if b < pos + node_size(n) && n.kind.parent() {
        resolve_path(n, (b - pos - 1) as nat, start).len()
    } else {
        0
    }
}

/// The part of a child at `pos` that lies in the range from `a` to `b`.
pub open spec fn covered(n: NodeView, pos: nat, a: nat, b: nat) -> int {
    min_nat(b, pos + node_size(n)) - (if a > pos {
        a
    } else {
        pos
    })
}

/// True when the ends of the range, where they lie in the child at `pos`,
/// split no surrogate pair.
pub open spec fn child_on_boundary(n: NodeView, pos: nat, a: nat, b: nat, start: nat) -> bool {
    &&& pos < a && n.is_text() ==> utf16_boundary(n.text, (a - pos) as nat)
    &&& b < pos + node_size(n) && n.is_text() ==> utf16_boundary(n.text, (b - pos) as nat)
    &&& pos < a && n.kind.parent() ==> path_on_boundary(
        resolve_path(n, (a - pos - 1) as nat, start),
        start + (a - pos - 1) as nat,
    )
    &&& b < pos + node_size(n) && n.kind.parent() ==> path_on_boundary(
        resolve_path(n, (b - pos - 1) as nat, start),
        start + (b - pos - 1) as nat,
    )
}

/// What is left of a text child in a cut has the size of its part in the
/// range.
pub proof fn lemma_cut_text_exact(n: NodeView, pos: nat, a: nat, b: nat)
    requires
        n.is_text(),
        a < b,
        pos < b,
        pos + node_size(n) > a,
        pos < a ==> utf16_boundary(n.text, (a - pos) as nat),
        b < pos + node_size(n) ==> utf16_boundary(n.text, (b - pos) as nat),
    ensures
        node_size(cut_child(n, pos, a, b)) == covered(n, pos, a, b),
{
    let end = pos + node_size(n);
    if pos < a || end > b {
        let from = if a > pos {
            (a - pos) as nat
        } else {
            0
        };
        let to = min_nat(utf16_len(n.text), (b - pos) as nat);
        lemma_cut_text_len(n.text, from, to);
        assert(utf16_boundary(n.text, 0)) by {
            assert(n.text.take(0) =~= Seq::<char>::empty());
            super::util::lemma_utf16_index_bounds(n.text, 0);
        }
        assert(utf16_boundary(n.text, utf16_len(n.text)));
        assert(cut_child(n, pos, a, b) == cut_node(n, from, to));
    }
}

/// What is left of a parent child in a cut has the size of its part in
/// the range, and one token more for every node that an end of the range
/// lies in, the child or a node in it.
pub proof fn lemma_cut_parent_exact(n: NodeView, pos: nat, a: nat, b: nat, start: nat)
    requires
        n.kind.parent(),
        a < b,
        pos < b,
        pos + node_size(n) > a,
        child_on_boundary(n, pos, a, b, start),
    ensures
        node_size(cut_child(n, pos, a, b)) == covered(n, pos, a, b) + left_open(n, pos, a, start)
            + right_open(n, pos, b, start),
    decreases n, 2nat, 0nat,
{
    let end = pos + node_size(n);
    let t = pos + 1;
    let cs = content_size(n.content);
    lemma_depth_ends(n, start);
    if pos < a || end > b {
        let a1: nat = if a > t {
            (a - t) as nat
        } else {
            0
        };
        let b1 = min_nat(cs, (b - t) as nat);
        assert(cut_child(n, pos, a, b) == cut_node(n, a1, b1));
        if a1 == 0 && b1 == cs {
        } else if a1 < b1 {
            assert(cut_node(n, a1, b1).content == cut_content(n.content, a1, b1));
            lemma_cut_content_exact(n, a1, b1, start);
        } else {
            assert(cut_node(n, a1, b1).content == cut_content(n.content, a1, b1));
            assert(cut_content(n.content, a1, b1) == Seq::<NodeView>::empty());
            assert(content_size(Seq::<NodeView>::empty()) == 0);
        }
    }
}

/// The ways to the start and to the end of the content of a node go
/// through no node below it, and split no surrogate pair.
pub proof fn lemma_depth_ends(n: NodeView, start: nat)
    ensures
        resolve_path(n, 0, start).len() == 1,
        resolve_path(n, content_size(n.content), start).len() == 1,
        path_on_boundary(resolve_path(n, 0, start), start),
        path_on_boundary(
            resolve_path(n, content_size(n.content), start),
            start + content_size(n.content),
        ),
{
}

/// The way to an offset at which a child starts goes through no node below
/// the node.
pub proof fn lemma_depth_boundary(node: NodeView, start: nat, j: nat)
    requires
        j <= node.content.len(),
    ensures
        depth_at(node, size_upto(node.content, j), start) == 0,
{
    let c = node.content;
    let x = size_upto(c, j);
    lemma_size_upto_mono(c, j, c.len());
    lemma_find_index(c, x, false);
    let found = find_index(c, x, false).unwrap();
    if found.1 < x {
        let i = found.0;
        assert(size_upto(c, i + 1) == size_upto(c, i) + node_size(c[i as int]));
        if i >= j {
            lemma_size_upto_mono(c, j, i);
        } else {
            lemma_size_upto_mono(c, i + 1, j);
        }
    }
}

/// The part of the sum that the child at index `j` adds: to the part of
/// the range that the children cover, and to the nodes that the ends of the
/// range lie in.
pub open spec fn sum_upto(node: NodeView, a: nat, b: nat, start: nat, k: nat) -> nat {
    over(min_nat(b, size_upto(node.content, k)), a) + (if size_upto(node.content, k) > a {
        depth_at(node, a, start)
    } else {
        0
    }) + (if size_upto(node.content, k) > b {
        depth_at(node, b, start)
    } else {
        0
    })
}

/// How deep an end of a range lies below a node, seen from the child that
/// it lies in: as deep as it lies in that child, and one more; and in no
/// node where it lies in a text child.
pub proof fn lemma_depth_inside(node: NodeView, x: nat, start: nat, j: nat)
    requires
        j < node.content.len(),
        size_upto(node.content, j) < x < size_upto(node.content, j + 1),
        path_on_boundary(resolve_path(node, x, start), start + x),
    ensures
        ({
            let n = node.content[j as int];
            let pos = size_upto(node.content, j);
            &&& n.is_text() ==> depth_at(node, x, start) == 0 && utf16_boundary(
                n.text,
                (x - pos) as nat,
            )
            &&& n.kind.parent() ==> depth_at(node, x, start) == resolve_path(
                n,
                (x - pos - 1) as nat,
                start + pos + 1,
            ).len() && path_on_boundary(
                resolve_path(n, (x - pos - 1) as nat, start + pos + 1),
                start + pos + 1 + (x - pos - 1) as nat,
            )
            &&& n.is_text() || n.kind.parent()
        }),
{
    let c = node.content;
    let n = c[j as int];
    assert(size_upto(c, j + 1) == size_upto(c, j) + node_size(n));
    lemma_find_index_inside(c, x, j);
    if n.is_text() {
        let e = PathEntry { node, index: j, before: start + size_upto(c, j) };
        assert(resolve_path(node, x, start) == seq![e]);
    } else {
        lemma_resolve_path_tail(node, x, start, j);
    }
}

/// What the first `k` children of a node leave in a cut has the size of
/// the part of these children in the range, and one token more for every
/// node in them that an end of the range lies in.
pub proof fn lemma_cut_upto_exact(node: NodeView, a: nat, b: nat, start: nat, k: nat)
    requires
        a < b <= content_size(node.content),
        k <= node.content.len(),
        path_on_boundary(resolve_path(node, a, start), start + a),
        path_on_boundary(resolve_path(node, b, start), start + b),
    ensures
        content_size(cut_upto(node.content, a, b, k)) == sum_upto(node, a, b, start, k),
    decreases node, 0nat, k,
{
    let c = node.content;
    if k == 0 {
        assert(content_size(Seq::<NodeView>::empty()) == 0);
    } else {
        let j = (k - 1) as nat;
        lemma_cut_upto_exact(node, a, b, start, j);
        let n = c[j as int];
        let pos = size_upto(c, j);
        let end = pos + node_size(n);
        assert(size_upto(c, k) == end);
        lemma_size_upto_mono(c, k, c.len());
        lemma_depth_boundary(node, start, j);
        let inner = start + pos + 1;
        if pos < a && a < end {
            lemma_depth_inside(node, a, start, j);
        }
        if pos < b && b < end {
            lemma_depth_inside(node, b, start, j);
        }
        if pos < b && end > a {
            let before = cut_upto(c, a, b, j);
            let child = cut_child(n, pos, a, b);
            lemma_content_size_push(before, child);
            if n.is_text() {
                lemma_cut_text_exact(n, pos, a, b);
            } else if n.kind.parent() {
                lemma_cut_parent_exact(n, pos, a, b, inner);
            } else {
                assert(cut_child(n, pos, a, b) == n);
            }
        }
    }
}

/// The way to an offset inside a child that is no text ends as the way
/// from that child does.
pub proof fn lemma_resolve_path_tail(node: NodeView, x: nat, start: nat, i: nat)
    requires
        i < node.content.len(),
        !node.content[i as int].is_text(),
        size_upto(node.content, i) < x < size_upto(node.content, i + 1),
    ensures
        resolve_path(node, x, start).len() == 1 + resolve_path(
            node.content[i as int],
            (x - size_upto(node.content, i) - 1) as nat,
            start + size_upto(node.content, i) + 1,
        ).len(),
        path_on_boundary(resolve_path(node, x, start), start + x) == path_on_boundary(
            resolve_path(
                node.content[i as int],
                (x - size_upto(node.content, i) - 1) as nat,
                start + size_upto(node.content, i) + 1,
            ),
            start + x,
        ),
        node.content[i as int].kind.parent(),
{
    lemma_resolve_path_inside(node, x, start, i);
    let tail = resolve_path(
        node.content[i as int],
        (x - size_upto(node.content, i) - 1) as nat,
        start + size_upto(node.content, i) + 1,
    );
    let e = PathEntry { node, index: i, before: start + size_upto(node.content, i) };
    super::position::lemma_resolve_path_len(
        node.content[i as int],
        (x - size_upto(node.content, i) - 1) as nat,
        start + size_upto(node.content, i) + 1,
    );
    assert((seq![e] + tail).last() == tail.last());
    assert(size_upto(node.content, i + 1) == size_upto(node.content, i) + node_size(
        node.content[i as int],
    ));
}

/// The cut of the content of a node between two offsets that split no
/// surrogate pair has the size of the range, and one token more for every
/// node below that an end of the range lies in.
pub proof fn lemma_cut_content_exact(node: NodeView, a: nat, b: nat, start: nat)
    requires
        a < b <= content_size(node.content),
        path_on_boundary(resolve_path(node, a, start), start + a),
        path_on_boundary(resolve_path(node, b, start), start + b),
    ensures
        content_size(cut_content(node.content, a, b)) == b - a + depth_at(node, a, start)
            + depth_at(node, b, start),
    decreases node, 1nat, 0nat,
{
    let c = node.content;
    lemma_depth_ends(node, start);
    if a == 0 && b == content_size(c) {
    } else {
        lemma_cut_upto_exact(node, a, b, start, c.len());
    }
}

/// The content of the slice of a range of a document whose ends split no
/// surrogate pair has the size of the range and one token more for every
/// node that the slice is open through at its start and at its end.
pub proof fn lemma_slice_of_size_exact(doc: NodeView, from: nat, to: nat, include_parents: bool)
    requires
        from < to <= content_size(doc.content),
        resolve(doc, from).on_boundary(),
        resolve(doc, to).on_boundary(),
    ensures
        content_size(slice_of(doc, from, to, include_parents).content) == to - from + slice_of(
            doc,
            from,
            to,
            include_parents,
        ).open_start + slice_of(doc, from, to, include_parents).open_end,
{
    let rp_from = resolve(doc, from);
    let rp_to = resolve(doc, to);
    lemma_resolve(doc, from);
    lemma_resolve(doc, to);
    let depth: nat = if include_parents {
        0
    } else {
        rp_from.shared_depth(to)
    };
    lemma_shared_from(rp_from, to, rp_from.depth());
    let d = depth as int;
    assert(entry_leads(rp_from.path, 0, from, d));
    lemma_resolve_shares(doc, from, to, d);
    lemma_resolve_shares(doc, from, from, d);
    let node = rp_from.node(d);
    let start = rp_from.start(d);
    let ta = resolve_path(node, (from - start) as nat, start);
    let tb = resolve_path(node, (to - start) as nat, start);
    super::position::lemma_resolve_path_len(node, (from - start) as nat, start);
    super::position::lemma_resolve_path_len(node, (to - start) as nat, start);
    assert((rp_from.path.take(d) + ta).last() == ta.last());
    assert((rp_from.path.take(d) + tb).last() == tb.last());
    lemma_cut_content_exact(node, (from - start) as nat, (to - start) as nat, start);
}

} // verus!
