//! Replacing a range of a document by what is there already.

use super::cut::{cut_child, cut_content, cut_node, lemma_cut_node_size};
use super::cut_shape::{
    child_at, child_before, cut_list, lemma_child_at, lemma_child_at_unique,
    lemma_cut_child_whole, lemma_cut_content_list, sized,
};
use super::joining::{
    add_children, add_range, check_join, close, lemma_wrapped_size, prepared, replace_doc,
    replace_halves, replace_outer, replace_three_way, replace_two_way, wrapped,
};
use super::position::{
    entry_leads, entry_links, inner_size, lemma_path_nests, lemma_resolve,
    lemma_resolve_path_inside, lemma_resolve_shares, lemma_shared_from, resolve, resolve_path,
    PathEntry, PosView,
};
use super::replace::ReplaceError;
use super::slice::{
    lemma_opens_left_size, lemma_opens_right_size, lemma_slice_of_well_formed, opens_left,
    opens_right, slice_of, SliceView,
};
use super::slice_size::lemma_slice_of_size_exact;
use super::util::{
    cut_text, lemma_utf16_index_bounds, lemma_utf16_index_mono, lemma_utf16_len_bounds,
    utf16_boundary, utf16_index, utf16_len,
};
use super::view::{
    add_node, append_content, content_size, lemma_size_upto_mono, mergeable, merged, node_size,
    size_upto, texts_merged, NodeView,
};
use vstd::prelude::*;

verus! {

/// True when the children of a node are as replacing leaves them: no two
/// neighbours are text with the same marks, no child is empty text, and
/// every text child has text and marks alone.
pub open spec fn settled(c: Seq<NodeView>) -> bool {
    &&& texts_merged(c)
    &&& forall|i: int| 0 <= i < c.len() ==> node_size(#[trigger] c[i]) > 0
    &&& forall|i: int|
        0 <= i < c.len() && (#[trigger] c[i]).is_text() ==> c[i] == NodeView::text_node(
            c[i].text,
            c[i].marks,
        )
}

/// Adding children of settled content, one after the other, to a list
/// whose last node does not merge with the first of them, puts them at the
/// end of the list.
pub proof fn lemma_add_children_settled(out: Seq<NodeView>, c: Seq<NodeView>, i: int, j: int)
    requires
        texts_merged(c),
        0 <= i <= j <= c.len(),
        i < j && out.len() > 0 ==> !mergeable(out.last(), c[i]),
    ensures
        add_children(out, c, i, j) == out + c.subrange(i, j),
    decreases j - i,
{
    if i < j {
        lemma_add_children_settled(out, c, i, j - 1);
        let before = out + c.subrange(i, j - 1);
        if j - 1 > i {
            assert(before.last() == c[j - 2]);
            assert(!mergeable(c[j - 2], c[j - 2 + 1]));
        } else {
            assert(before =~= out);
        }
        assert(before.push(c[j - 1]) =~= out + c.subrange(i, j));
    } else {
        assert(out + c.subrange(i, j) =~= out);
    }
}

/// The two parts that a text node is cut into at an offset that splits no
/// surrogate pair merge into the text node.
pub proof fn lemma_text_rejoins(t: NodeView, offset: nat)
    requires
        t.is_text(),
        t == NodeView::text_node(t.text, t.marks),
        0 < offset < node_size(t),
        utf16_boundary(t.text, offset),
    ensures
        mergeable(cut_node(t, 0, offset), cut_node(t, offset, inner_size(t))),
        merged(cut_node(t, 0, offset), cut_node(t, offset, inner_size(t))) == t,
        cut_node(t, 0, offset).is_text(),
        cut_node(t, 0, offset).marks == t.marks,
        cut_node(t, offset, inner_size(t)).is_text(),
        cut_node(t, offset, inner_size(t)).marks == t.marks,
{
    let s = t.text;
    lemma_utf16_index_bounds(s, 0);
    lemma_utf16_index_bounds(s, offset);
    lemma_utf16_index_bounds(s, utf16_len(s));
    assert(s.take(0) =~= Seq::<char>::empty());
    let k = utf16_index(s, offset) as int;
    assert(utf16_index(s, 0) == 0) by {
        if utf16_index(s, 0) > 0 {
            lemma_utf16_len_bounds(s.take(utf16_index(s, 0) as int));
        }
    }
    assert(cut_text(s, 0, offset) + cut_text(s, offset, utf16_len(s)) =~= s);
}

/// The part of the ancestor at depth `d` of a position that lies after the
/// position.
pub open spec fn part_after(rp: PosView, d: int) -> NodeView {
    cut_node(rp.node(d), (rp.pos - rp.start(d)) as nat, content_size(rp.node(d).content))
}

/// The part of the ancestor at depth `d` of a position that lies before
/// the position.
pub open spec fn part_before(rp: PosView, d: int) -> NodeView {
    cut_node(rp.node(d), 0, (rp.pos - rp.start(d)) as nat)
}

/// The index of a position in an ancestor is that of the child that its
/// offset into the ancestor lies in, where the children take up room.
pub proof fn lemma_index_is_child_at(rp: PosView, d: int)
    requires
        rp.well_formed(),
        0 <= d <= rp.depth(),
        sized(rp.node(d).content),
    ensures
        rp.start(d) <= rp.pos <= rp.end(d),
        child_at(rp.node(d).content, (rp.pos - rp.start(d)) as nat) == rp.index(d),
        child_before(rp.node(d).content, (rp.pos - rp.start(d)) as nat) == if size_upto(
            rp.node(d).content,
            rp.index(d),
        ) < rp.pos - rp.start(d) {
            rp.index(d) as int + 1
        } else {
            rp.index(d) as int
        },
        rp.start(d) + size_upto(rp.node(d).content, rp.index(d)) <= rp.pos,
        d < rp.depth() ==> {
            &&& rp.index(d) < rp.node(d).content.len()
            &&& rp.node(d + 1) == rp.node(d).content[rp.index(d) as int]
            &&& rp.node(d + 1).kind.parent()
            &&& rp.start(d + 1) == rp.start(d) + size_upto(rp.node(d).content, rp.index(d)) + 1
            &&& rp.start(d + 1) <= rp.pos <= rp.end(d + 1)
        },
        d == rp.depth() ==> rp.text_offset() == rp.pos - rp.start(d) - size_upto(
            rp.node(d).content,
            rp.index(d),
        ),
        d == rp.depth() && rp.text_offset() > 0 ==> rp.index(d) < rp.node(d).content.len()
            && rp.node(d).content[rp.index(d) as int].is_text() && rp.text_offset() < node_size(
            rp.node(d).content[rp.index(d) as int],
        ),
{
    let c = rp.node(d).content;
    let x = (rp.pos - rp.start(d)) as nat;
    let i = rp.index(d) as int;
    assert(entry_leads(rp.path, 0, rp.pos, d));
    if i < c.len() {
        assert(size_upto(c, (i + 1) as nat) == size_upto(c, i as nat) + node_size(c[i]));
    }
    if d < rp.depth() {
        assert(entry_links(rp.path, rp.pos, d));
        assert(entry_leads(rp.path, 0, rp.pos, d + 1));
    }
    lemma_child_at_unique(c, x, i);
}

/// True when two nodes differ in their content at most.
pub open spec fn same_around(a: NodeView, b: NodeView) -> bool {
    a == (NodeView { content: a.content, ..b })
}

/// The fragment ends where its content ends.
pub proof fn lemma_child_at_end(c: Seq<NodeView>)
    requires
        sized(c),
    ensures
        child_at(c, content_size(c)) == c.len(),
        child_before(c, content_size(c)) == c.len(),
        child_at(c, 0) == 0,
        child_before(c, 0) == 0,
{
    lemma_child_at_unique(c, content_size(c), c.len() as int);
    if c.len() > 0 {
        assert(size_upto(c, 1) == size_upto(c, 0) + node_size(c[0]));
    }
    lemma_child_at_unique(c, 0, 0);
}

/// Every ancestor of a position in a document that is a parent is a
/// parent.
pub proof fn lemma_node_is_parent(rp: PosView, d: int)
    requires
        rp.well_formed(),
        rp.node(0).kind.parent(),
        0 <= d <= rp.depth(),
    ensures
        rp.node(d).kind.parent(),
        !rp.node(d).is_text(),
{
    if d > 0 {
        assert(entry_links(rp.path, rp.pos, d - 1));
    }
}

/// What is left of the next ancestor in a cut from the position to the end
/// of an ancestor is the part of the next ancestor after the position.
pub proof fn lemma_first_after(rp: PosView, d: int)
    requires
        rp.well_formed(),
        rp.node(0).kind.parent(),
        0 <= d < rp.depth(),
        sized(rp.node(d).content),
    ensures
        cut_child(
            rp.node(d + 1),
            size_upto(rp.node(d).content, rp.index(d)),
            (rp.pos - rp.start(d)) as nat,
            content_size(rp.node(d).content),
        ) == part_after(rp, d + 1),
{
    let c = rp.node(d).content;
    let idx = rp.index(d) as int;
    lemma_index_is_child_at(rp, d);
    lemma_node_is_parent(rp, d + 1);
    assert(size_upto(c, (idx + 1) as nat) == size_upto(c, idx as nat) + node_size(c[idx]));
    lemma_size_upto_mono(c, (idx + 1) as nat, c.len());
}

/// What is left of the next ancestor in a cut from the start of an
/// ancestor to the position is the part of the next ancestor before the
/// position.
pub proof fn lemma_last_before(rp: PosView, d: int)
    requires
        rp.well_formed(),
        rp.node(0).kind.parent(),
        0 <= d < rp.depth(),
        sized(rp.node(d).content),
    ensures
        cut_child(
            rp.node(d + 1),
            size_upto(rp.node(d).content, rp.index(d)),
            0,
            (rp.pos - rp.start(d)) as nat,
        ) == part_before(rp, d + 1),
{
    let c = rp.node(d).content;
    let idx = rp.index(d) as int;
    lemma_index_is_child_at(rp, d);
    lemma_node_is_parent(rp, d + 1);
    assert(size_upto(c, (idx + 1) as nat) == size_upto(c, idx as nat) + node_size(c[idx]));
    lemma_size_upto_mono(c, (idx + 1) as nat, c.len());
}

/// A child at or after the child at index `lo`, which ends after the start
/// of the range, stays whole in a cut that goes to the end of the fragment.
pub proof fn lemma_later_child_whole(c: Seq<NodeView>, x: nat, lo: int, k: int)
    requires
        0 <= lo <= k < c.len(),
        x <= size_upto(c, lo as nat),
    ensures
        cut_child(c[k], size_upto(c, k as nat), x, content_size(c)) == c[k],
{
    lemma_size_upto_mono(c, lo as nat, k as nat);
    assert(size_upto(c, (k + 1) as nat) == size_upto(c, k as nat) + node_size(c[k]));
    lemma_size_upto_mono(c, (k + 1) as nat, c.len());
}

/// A child before the child at index `hi`, which starts before the end of
/// the range, stays whole in a cut that starts at the start of the
/// fragment.
pub proof fn lemma_earlier_child_whole(c: Seq<NodeView>, x: nat, hi: int, k: int)
    requires
        0 <= k < hi <= c.len(),
        size_upto(c, hi as nat) <= x,
    ensures
        cut_child(c[k], size_upto(c, k as nat), 0, x) == c[k],
{
    assert(size_upto(c, (k + 1) as nat) == size_upto(c, k as nat) + node_size(c[k]));
    lemma_size_upto_mono(c, (k + 1) as nat, hi as nat);
}

/// The part of an ancestor after a position that lies deeper holds the
/// part of the next ancestor after the position, and the children after
/// that ancestor.
pub proof fn lemma_part_after_inner(rp: PosView, d: int)
    requires
        rp.well_formed(),
        rp.node(0).kind.parent(),
        0 <= d < rp.depth(),
        sized(rp.node(d).content),
    ensures
        same_around(part_after(rp, d), rp.node(d)),
        part_after(rp, d).content == seq![part_after(rp, d + 1)] + rp.node(d).content.subrange(
            rp.index(d) as int + 1,
            rp.node(d).content.len() as int,
        ),
{
    let node = rp.node(d);
    let c = node.content;
    let idx = rp.index(d) as int;
    let x = (rp.pos - rp.start(d)) as nat;
    let total = content_size(c);
    lemma_index_is_child_at(rp, d);
    lemma_node_is_parent(rp, d);
    assert(size_upto(c, (idx + 1) as nat) == size_upto(c, idx as nat) + node_size(c[idx]));
    lemma_size_upto_mono(c, (idx + 1) as nat, c.len());
    lemma_child_at_end(c);
    lemma_cut_content_list(c, x, total);
    let list = cut_list(c, x, total, idx, c.len() as int);
    let target = seq![part_after(rp, d + 1)] + c.subrange(idx + 1, c.len() as int);
    assert(part_after(rp, d).content == list);
    assert forall|j: int| 0 <= j < list.len() implies list[j] == target[j] by {
        if j > 0 {
            lemma_later_child_whole(c, x, idx + 1, idx + j);
        } else {
            lemma_first_after(rp, d);
        }
    }
    assert(list =~= target);
}

/// The part of the innermost parent after a position holds the part after
/// the position of the text node that the position lies in, if it lies in
/// one, and the children after the position.
pub proof fn lemma_part_after_last(rp: PosView)
    requires
        rp.well_formed(),
        rp.node(0).kind.parent(),
        sized(rp.parent().content),
    ensures
        same_around(part_after(rp, rp.depth() as int), rp.parent()),
        part_after(rp, rp.depth() as int).content == part_after_content(rp),
{
    let d = rp.depth() as int;
    let node = rp.node(d);
    let c = node.content;
    let idx = rp.index(d) as int;
    let x = (rp.pos - rp.start(d)) as nat;
    let total = content_size(c);
    lemma_index_is_child_at(rp, d);
    lemma_node_is_parent(rp, d);
    lemma_child_at_end(c);
    lemma_size_upto_mono(c, idx as nat, c.len());
    if x == 0 {
        assert(c.subrange(0, c.len() as int) =~= c);
    } else if x == total {
        assert(c.subrange(c.len() as int, c.len() as int) =~= Seq::<NodeView>::empty());
    } else {
        lemma_cut_content_list(c, x, total);
        let list = cut_list(c, x, total, idx, c.len() as int);
        let target = part_after_content(rp);
        assert(part_after(rp, d).content == list);
        assert(list.len() == target.len());
        assert forall|j: int| 0 <= j < list.len() implies list[j] == target[j] by {
            if j > 0 {
                assert(size_upto(c, (idx + 1) as nat) == size_upto(c, idx as nat) + node_size(
                    c[idx],
                ));
                lemma_later_child_whole(c, x, idx + 1, idx + j);
            } else if rp.text_offset() > 0 {
                lemma_text_child_after(c, idx, x);
            } else {
                lemma_later_child_whole(c, x, idx, idx);
            }
        }
        assert(list =~= target);
    }
}

/// What is left of a text child in a cut from an offset inside it to the
/// end of the fragment is its part after the offset.
pub proof fn lemma_text_child_after(c: Seq<NodeView>, idx: int, x: nat)
    requires
        0 <= idx < c.len(),
        c[idx].is_text(),
        size_upto(c, idx as nat) < x < size_upto(c, idx as nat) + node_size(c[idx]),
    ensures
        cut_child(c[idx], size_upto(c, idx as nat), x, content_size(c)) == cut_node(
            c[idx],
            (x - size_upto(c, idx as nat)) as nat,
            inner_size(c[idx]),
        ),
{
    assert(size_upto(c, (idx + 1) as nat) == size_upto(c, idx as nat) + node_size(c[idx]));
    lemma_size_upto_mono(c, (idx + 1) as nat, c.len());
}

/// What is left of a text child in a cut from the start of the fragment to
/// an offset inside it is its part before the offset.
pub proof fn lemma_text_child_before(c: Seq<NodeView>, idx: int, x: nat)
    requires
        0 <= idx < c.len(),
        c[idx].is_text(),
        size_upto(c, idx as nat) < x < size_upto(c, idx as nat) + node_size(c[idx]),
    ensures
        cut_child(c[idx], size_upto(c, idx as nat), 0, x) == cut_node(
            c[idx],
            0,
            (x - size_upto(c, idx as nat)) as nat,
        ),
{
}

/// What the part of the innermost parent after a position holds.
pub open spec fn part_after_content(rp: PosView) -> Seq<NodeView> {
    let c = rp.parent().content;
    let idx = rp.index(rp.depth() as int) as int;
    if rp.text_offset() > 0 {
        seq![cut_node(c[idx], rp.text_offset(), inner_size(c[idx]))] + c.subrange(
            idx + 1,
            c.len() as int,
        )
    } else {
        c.subrange(idx, c.len() as int)
    }
}

/// What the part of the innermost parent before a position holds.
pub open spec fn part_before_content(rp: PosView) -> Seq<NodeView> {
    let c = rp.parent().content;
    let idx = rp.index(rp.depth() as int) as int;
    if rp.text_offset() > 0 {
        c.subrange(0, idx).push(cut_node(c[idx], 0, rp.text_offset()))
    } else {
        c.subrange(0, idx)
    }
}

/// The part of an ancestor before a position that lies deeper holds the
/// children before the next ancestor, and the part of that ancestor before
/// the position.
pub proof fn lemma_part_before_inner(rp: PosView, d: int)
    requires
        rp.well_formed(),
        rp.node(0).kind.parent(),
        0 <= d < rp.depth(),
        sized(rp.node(d).content),
    ensures
        same_around(part_before(rp, d), rp.node(d)),
        part_before(rp, d).content == rp.node(d).content.subrange(0, rp.index(d) as int).push(
            part_before(rp, d + 1),
        ),
{
    let node = rp.node(d);
    let c = node.content;
    let idx = rp.index(d) as int;
    let x = (rp.pos - rp.start(d)) as nat;
    lemma_index_is_child_at(rp, d);
    lemma_node_is_parent(rp, d);
    assert(size_upto(c, (idx + 1) as nat) == size_upto(c, idx as nat) + node_size(c[idx]));
    lemma_size_upto_mono(c, (idx + 1) as nat, c.len());
    lemma_child_at_end(c);
    lemma_cut_content_list(c, 0, x);
    let list = cut_list(c, 0, x, 0, idx + 1);
    let target = c.subrange(0, idx).push(part_before(rp, d + 1));
    assert(part_before(rp, d).content == list);
    assert forall|j: int| 0 <= j < list.len() implies list[j] == target[j] by {
        if j < idx {
            lemma_earlier_child_whole(c, x, idx, j);
        } else {
            lemma_last_before(rp, d);
        }
    }
    assert(list =~= target);
}

/// The part of the innermost parent before a position holds the children
/// before the position and the part before the position of the text node
/// that the position lies in, if it lies in one.
pub proof fn lemma_part_before_last(rp: PosView)
    requires
        rp.well_formed(),
        rp.node(0).kind.parent(),
        sized(rp.parent().content),
    ensures
        same_around(part_before(rp, rp.depth() as int), rp.parent()),
        part_before(rp, rp.depth() as int).content == part_before_content(rp),
{
    let d = rp.depth() as int;
    let node = rp.node(d);
    let c = node.content;
    let idx = rp.index(d) as int;
    let x = (rp.pos - rp.start(d)) as nat;
    let total = content_size(c);
    lemma_index_is_child_at(rp, d);
    lemma_node_is_parent(rp, d);
    lemma_child_at_end(c);
    lemma_size_upto_mono(c, idx as nat, c.len());
    if x == 0 {
        assert(c.subrange(0, 0) =~= Seq::<NodeView>::empty());
        assert(content_size(Seq::<NodeView>::empty()) == 0);
    } else if x == total {
        assert(c.subrange(0, c.len() as int) =~= c);
    } else {
        lemma_cut_content_list(c, 0, x);
        let hi = child_before(c, x);
        let list = cut_list(c, 0, x, 0, hi);
        let target = part_before_content(rp);
        assert(part_before(rp, d).content == list);
        assert(list.len() == target.len());
        assert forall|j: int| 0 <= j < list.len() implies list[j] == target[j] by {
            if j < idx {
                lemma_earlier_child_whole(c, x, idx, j);
            } else {
                lemma_text_child_before(c, idx, x);
            }
        }
        assert(list =~= target);
    }
}

/// What is left in the innermost parent of a position when nothing goes is
/// the content of that parent, where the content is settled and the
/// position splits no surrogate pair.
pub proof fn lemma_two_way_same(rp: PosView)
    requires
        rp.well_formed(),
        rp.on_boundary(),
        settled(rp.parent().content),
    ensures
        replace_two_way(rp, rp, rp.depth() as int) == Ok::<Seq<NodeView>, ReplaceError>(
            rp.parent().content,
        ),
{
    let depth = rp.depth() as int;
    let c = rp.parent().content;
    let index = rp.index(depth) as int;
    assert(entry_leads(rp.path, 0, rp.pos, depth));
    let empty = Seq::<NodeView>::empty();
    lemma_add_children_settled(empty, c, 0, index);
    let head = c.subrange(0, index);
    assert(empty + head =~= head);
    if rp.text_offset() > 0 {
        let t = c[index];
        lemma_text_rejoins(t, rp.text_offset());
        let before = cut_node(t, 0, rp.text_offset());
        let after = cut_node(t, rp.text_offset(), inner_size(t));
        if index > 0 {
            assert(head.last() == c[index - 1]);
            assert(!mergeable(c[index - 1], c[index - 1 + 1]));
        }
        let left = head.push(before);
        assert(add_range(None, Some(rp), depth, empty) == left);
        assert(left.drop_last() =~= head);
        let joined = head.push(t);
        assert(add_node(left, after) == joined);
        if index + 1 < c.len() {
            assert(!mergeable(c[index], c[index + 1]));
        }
        lemma_add_children_settled(joined, c, index + 1, c.len() as int);
        assert(joined + c.subrange(index + 1, c.len() as int) =~= c);
    } else {
        assert(add_range(None, Some(rp), depth, empty) == head);
        if 0 < index < c.len() {
            assert(head.last() == c[index - 1]);
            assert(!mergeable(c[index - 1], c[index - 1 + 1]));
        }
        lemma_add_children_settled(head, c, index, c.len() as int);
        assert(head + c.subrange(index, c.len() as int) =~= c);
    }
}

/// Adding children goes by the children that are added alone.
pub proof fn lemma_add_children_same(
    out: Seq<NodeView>,
    a: Seq<NodeView>,
    i: int,
    b: Seq<NodeView>,
    k: int,
    n: int,
)
    requires
        0 <= n,
        0 <= i,
        i + n <= a.len(),
        0 <= k,
        k + n <= b.len(),
        a.subrange(i, i + n) == b.subrange(k, k + n),
    ensures
        add_children(out, a, i, i + n) == add_children(out, b, k, k + n),
    decreases n,
{
    if n > 0 {
        let x = a.subrange(i, i + n);
        let y = b.subrange(k, k + n);
        assert(a.subrange(i, i + n - 1) =~= x.take(n - 1));
        assert(b.subrange(k, k + n - 1) =~= y.take(n - 1));
        lemma_add_children_same(out, a, i, b, k, n - 1);
        assert(a[i + n - 1] == x[n - 1]);
        assert(b[k + n - 1] == y[n - 1]);
    }
}

/// Adding a run of children is adding its first part and then the rest.
pub proof fn lemma_add_children_split(out: Seq<NodeView>, c: Seq<NodeView>, i: int, m: int, j: int)
    requires
        i <= m <= j,
    ensures
        add_children(out, c, i, j) == add_children(add_children(out, c, i, m), c, m, j),
    decreases j - m,
{
    if m < j {
        lemma_add_children_split(out, c, i, m, j - 1);
    }
}

/// True when the position `q` stands at the start of the parts, after the
/// position `rp`, of the ancestors of `rp` from depth `lo` down.
pub open spec fn starts_after(q: PosView, rp: PosView, lo: int) -> bool {
    &&& q.depth() == rp.depth()
    &&& q.text_offset() == 0
    &&& forall|d: int|
        lo <= d <= rp.depth() ==> #[trigger] q.node(d) == part_after(rp, d) && q.index(d) == 0
}

/// True when the position `q` stands at the end of the parts, before the
/// position `rp`, of the ancestors of `rp` from depth `lo` down.
pub open spec fn ends_before(q: PosView, rp: PosView, lo: int) -> bool {
    &&& q.depth() == rp.depth()
    &&& q.text_offset() == 0
    &&& forall|d: int|
        lo <= d <= rp.depth() ==> #[trigger] q.node(d) == part_before(rp, d) && q.index(d) == if d
            < rp.depth() {
            part_before(rp, d).content.len() - 1
        } else {
            part_before(rp, d).content.len() as int
        }
}

/// True when the content of every ancestor of the position from depth `lo`
/// down is settled and accepted by the ancestor.
pub open spec fn spine_settled(rp: PosView, lo: int) -> bool {
    forall|d: int|
        lo <= d <= rp.depth() ==> settled((#[trigger] rp.node(d)).content) && rp.node(
            d,
        ).kind.accepts(rp.node(d).content)
}

/// What the content before a position adds to an empty list: the children
/// before the position, and the part before the position of the text node
/// that it lies in.
pub proof fn lemma_head_added(rp: PosView, d: int)
    requires
        rp.well_formed(),
        0 <= d <= rp.depth(),
        settled(rp.node(d).content),
    ensures
        add_range(None, Some(rp), d, Seq::empty()) == if d == rp.depth() {
            part_before_content(rp)
        } else {
            rp.node(d).content.subrange(0, rp.index(d) as int)
        },
        d == rp.depth() ==> texts_merged(part_before_content(rp)),
{
    let c = rp.node(d).content;
    let index = rp.index(d) as int;
    assert(entry_leads(rp.path, 0, rp.pos, d));
    let empty = Seq::<NodeView>::empty();
    lemma_add_children_settled(empty, c, 0, index);
    let head = c.subrange(0, index);
    assert(empty + head =~= head);
    assert(texts_merged(head)) by {
        assert forall|i: int| 0 <= i < head.len() - 1 implies !mergeable(
            #[trigger] head[i],
            head[i + 1],
        ) by {
            assert(!mergeable(c[i], c[i + 1]));
        }
    }
    if d == rp.depth() && rp.text_offset() > 0 {
        let t = c[index];
        if index > 0 {
            assert(head.last() == c[index - 1]);
            assert(!mergeable(c[index - 1], c[index - 1 + 1]));
        }
        let full = head.push(cut_node(t, 0, rp.text_offset()));
        assert forall|i: int| 0 <= i < full.len() - 1 implies !mergeable(
            #[trigger] full[i],
            full[i + 1],
        ) by {
            assert(!mergeable(c[i], c[i + 1]));
        }
    }
}

/// What the content after a position adds to the children up to the
/// position: the rest of the content of the ancestor. At the innermost
/// parent, the list ends with the part before the position of the text node
/// that the position lies in; above it, with the ancestor below.
pub proof fn lemma_tail_added(rp: PosView, d: int)
    requires
        rp.well_formed(),
        rp.on_boundary(),
        0 <= d <= rp.depth(),
        settled(rp.node(d).content),
    ensures
        add_range(
            Some(rp),
            None,
            d,
            if d == rp.depth() {
                part_before_content(rp)
            } else {
                rp.node(d).content.subrange(0, rp.index(d) as int + 1)
            },
        ) == rp.node(d).content,
{
    let c = rp.node(d).content;
    let index = rp.index(d) as int;
    assert(entry_leads(rp.path, 0, rp.pos, d));
    let head = c.subrange(0, index);
    if d < rp.depth() {
        assert(entry_links(rp.path, rp.pos, d));
        let out = c.subrange(0, index + 1);
        if index + 1 < c.len() {
            assert(out.last() == c[index]);
            assert(!mergeable(c[index], c[index + 1]));
        }
        lemma_add_children_settled(out, c, index + 1, c.len() as int);
        assert(out + c.subrange(index + 1, c.len() as int) =~= c);
    } else if rp.text_offset() > 0 {
        let t = c[index];
        lemma_text_rejoins(t, rp.text_offset());
        let left = head.push(cut_node(t, 0, rp.text_offset()));
        let after = cut_node(t, rp.text_offset(), inner_size(t));
        assert(left.drop_last() =~= head);
        let joined = head.push(t);
        assert(add_node(left, after) == joined);
        if index + 1 < c.len() {
            assert(!mergeable(c[index], c[index + 1]));
        }
        lemma_add_children_settled(joined, c, index + 1, c.len() as int);
        assert(joined + c.subrange(index + 1, c.len() as int) =~= c);
    } else {
        if 0 < index < c.len() {
            assert(head.last() == c[index - 1]);
            assert(!mergeable(c[index - 1], c[index - 1 + 1]));
        }
        lemma_add_children_settled(head, c, index, c.len() as int);
        assert(head + c.subrange(index, c.len() as int) =~= c);
    }
}

/// What the part of an ancestor after a deeper position adds to the
/// children of the ancestor up to the position: the rest of the content of
/// the ancestor.
pub proof fn lemma_after_added_inner(rf: PosView, q: PosView, d: int)
    requires
        rf.well_formed(),
        rf.node(0).kind.parent(),
        0 <= d < rf.depth(),
        q.depth() == rf.depth(),
        q.node(d) == part_after(rf, d),
        q.index(d) == 0,
        settled(rf.node(d).content),
    ensures
        add_range(
            Some(q),
            None,
            d,
            rf.node(d).content.subrange(0, rf.index(d) as int + 1),
        ) == rf.node(d).content,
{
    let c = rf.node(d).content;
    let idx = rf.index(d) as int;
    assert(entry_leads(rf.path, 0, rf.pos, d));
    assert(entry_links(rf.path, rf.pos, d));
    let grown = c.subrange(0, idx + 1);
    lemma_part_after_inner(rf, d);
    let pa = part_after(rf, d).content;
    assert(pa.subrange(1, pa.len() as int) =~= c.subrange(idx + 1, c.len() as int));
    lemma_add_children_same(grown, pa, 1, c, idx + 1, c.len() - idx - 1);
    if idx + 1 < c.len() {
        assert(grown.last() == c[idx]);
        assert(!mergeable(c[idx], c[idx + 1]));
    }
    lemma_add_children_settled(grown, c, idx + 1, c.len() as int);
    assert(grown + c.subrange(idx + 1, c.len() as int) =~= c);
}

/// Adding the part of a text node after an offset and the children after
/// the text node to the children before it with its part before the offset
/// gives all the children.
pub proof fn lemma_rejoin_children(c: Seq<NodeView>, idx: int, offset: nat, pac: Seq<NodeView>)
    requires
        settled(c),
        0 <= idx < c.len(),
        c[idx].is_text(),
        0 < offset < node_size(c[idx]),
        utf16_boundary(c[idx].text, offset),
        pac == seq![cut_node(c[idx], offset, inner_size(c[idx]))] + c.subrange(
            idx + 1,
            c.len() as int,
        ),
    ensures
        add_children(
            c.subrange(0, idx).push(cut_node(c[idx], 0, offset)),
            pac,
            0,
            pac.len() as int,
        ) == c,
{
    let t = c[idx];
    let head = c.subrange(0, idx);
    let left = head.push(cut_node(t, 0, offset));
    lemma_text_rejoins(t, offset);
    let joined = head.push(t);
    assert(left.drop_last() =~= head);
    assert(add_node(left, pac[0]) == joined);
    assert(add_children(left, pac, 0, 0) == left);
    assert(add_children(left, pac, 0, 1) == joined);
    lemma_add_children_split(left, pac, 0, 1, pac.len() as int);
    assert(pac.subrange(1, pac.len() as int) =~= c.subrange(idx + 1, c.len() as int));
    lemma_add_children_same(joined, pac, 1, c, idx + 1, c.len() - idx - 1);
    if idx + 1 < c.len() {
        assert(!mergeable(c[idx], c[idx + 1]));
    }
    lemma_add_children_settled(joined, c, idx + 1, c.len() as int);
    assert(joined + c.subrange(idx + 1, c.len() as int) =~= c);
}

/// Adding the children from an index on to the children before the index
/// gives all the children.
pub proof fn lemma_append_children(c: Seq<NodeView>, idx: int, pac: Seq<NodeView>)
    requires
        settled(c),
        0 <= idx <= c.len(),
        pac == c.subrange(idx, c.len() as int),
    ensures
        add_children(c.subrange(0, idx), pac, 0, pac.len() as int) == c,
{
    let head = c.subrange(0, idx);
    assert(pac.subrange(0, pac.len() as int) =~= c.subrange(idx, c.len() as int));
    lemma_add_children_same(head, pac, 0, c, idx, c.len() - idx);
    if 0 < idx < c.len() {
        assert(head.last() == c[idx - 1]);
        assert(!mergeable(c[idx - 1], c[idx - 1 + 1]));
    }
    lemma_add_children_settled(head, c, idx, c.len() as int);
    assert(head + c.subrange(idx, c.len() as int) =~= c);
}

/// What the part of the innermost parent after a position adds to the
/// content before the position: the rest of the content of the parent.
pub proof fn lemma_after_added_last(rf: PosView, q: PosView)
    requires
        rf.well_formed(),
        rf.on_boundary(),
        rf.node(0).kind.parent(),
        q.depth() == rf.depth(),
        q.text_offset() == 0,
        q.node(rf.depth() as int) == part_after(rf, rf.depth() as int),
        q.index(rf.depth() as int) == 0,
        settled(rf.parent().content),
    ensures
        add_range(Some(q), None, rf.depth() as int, part_before_content(rf)) == rf.parent().content,
{
    let d = rf.depth() as int;
    let c = rf.node(d).content;
    let idx = rf.index(d) as int;
    assert(entry_leads(rf.path, 0, rf.pos, d));
    lemma_part_after_last(rf);
    let pac = part_after_content(rf);
    if rf.text_offset() > 0 {
        lemma_rejoin_children(c, idx, rf.text_offset(), pac);
    } else {
        lemma_append_children(c, idx, pac);
    }
}

/// What is left in an ancestor of a position when the range from the
/// position to the start of the part of the ancestor after the position
/// goes: the content of the ancestor.
#[verifier::rlimit(60)]
pub proof fn lemma_two_way_left(rf: PosView, q: PosView, d: int)
    requires
        rf.well_formed(),
        rf.on_boundary(),
        rf.node(0).kind.parent(),
        0 <= d <= rf.depth(),
        starts_after(q, rf, d),
        spine_settled(rf, d),
    ensures
        replace_two_way(rf, q, d) == Ok::<Seq<NodeView>, ReplaceError>(rf.node(d).content),
    decreases rf.depth() - d,
{
    let c = rf.node(d).content;
    let idx = rf.index(d) as int;
    assert(settled(rf.node(d).content) && rf.node(d).kind.accepts(rf.node(d).content));
    assert(q.node(d) == part_after(rf, d) && q.index(d) == 0);
    lemma_head_added(rf, d);
    let left = add_range(None, Some(rf), d, Seq::empty());
    if rf.depth() > d {
        assert(entry_links(rf.path, rf.pos, d));
        let child = rf.node(d + 1);
        assert(settled(rf.node(d + 1).content) && rf.node(d + 1).kind.accepts(
            rf.node(d + 1).content,
        ));
        assert(q.node(d + 1) == part_after(rf, d + 1));
        if d + 1 < rf.depth() {
            lemma_part_after_inner(rf, d + 1);
        } else {
            lemma_part_after_last(rf);
        }
        assert(starts_after(q, rf, d + 1));
        assert(spine_settled(rf, d + 1));
        lemma_two_way_left(rf, q, d + 1);
        assert(close(child, child.content) == Ok::<NodeView, ReplaceError>(child));
        assert(add_node(left, child) =~= c.subrange(0, idx + 1));
        lemma_after_added_inner(rf, q, d);
    } else {
        lemma_after_added_last(rf, q);
    }
}

/// What is left in an ancestor of a position when the range from the end
/// of the part of the ancestor before the position to the position goes:
/// the content of the ancestor.
#[verifier::rlimit(60)]
pub proof fn lemma_two_way_right(q: PosView, rt: PosView, d: int)
    requires
        rt.well_formed(),
        rt.on_boundary(),
        rt.node(0).kind.parent(),
        0 <= d <= rt.depth(),
        ends_before(q, rt, d),
        spine_settled(rt, d),
    ensures
        replace_two_way(q, rt, d) == Ok::<Seq<NodeView>, ReplaceError>(rt.node(d).content),
    decreases rt.depth() - d,
{
    let c = rt.node(d).content;
    let idx = rt.index(d) as int;
    assert(settled(rt.node(d).content) && rt.node(d).kind.accepts(rt.node(d).content));
    assert(q.node(d) == part_before(rt, d));
    assert(entry_leads(rt.path, 0, rt.pos, d));
    lemma_head_added(rt, d);
    lemma_tail_added(rt, d);
    let empty = Seq::<NodeView>::empty();
    if rt.depth() > d {
        assert(entry_links(rt.path, rt.pos, d));
        let child = rt.node(d + 1);
        assert(settled(rt.node(d + 1).content) && rt.node(d + 1).kind.accepts(
            rt.node(d + 1).content,
        ));
        assert(q.node(d + 1) == part_before(rt, d + 1));
        if d + 1 < rt.depth() {
            lemma_part_before_inner(rt, d + 1);
        } else {
            lemma_part_before_last(rt);
        }
        assert(ends_before(q, rt, d + 1));
        assert(spine_settled(rt, d + 1));
        lemma_two_way_right(q, rt, d + 1);
        lemma_node_is_parent(rt, d + 1);
        assert(close(q.node(d + 1), child.content) == Ok::<NodeView, ReplaceError>(child));
        lemma_part_before_inner(rt, d);
        let pb = part_before(rt, d).content;
        assert(pb.subrange(0, idx) =~= c.subrange(0, idx));
        lemma_add_children_same(empty, pb, 0, c, 0, idx);
        lemma_add_children_settled(empty, c, 0, idx);
        let head = c.subrange(0, idx);
        assert(empty + head =~= head);
        assert(add_range(None, Some(q), d, empty) == head);
        assert(add_node(head, child) =~= c.subrange(0, idx + 1));
    } else {
        lemma_part_before_last(rt);
        let pbc = part_before_content(rt);
        lemma_add_children_settled(empty, pbc, 0, pbc.len() as int);
        assert(empty + pbc.subrange(0, pbc.len() as int) =~= pbc);
        assert(add_range(None, Some(q), d, empty) == pbc);
    }
}

/// The node `k` levels down the first children of a node.
pub open spec fn left_spine(node: NodeView, k: nat) -> NodeView
    decreases k,
{
    if k == 0 {
        node
    } else {
        left_spine(node.content[0], (k - 1) as nat)
    }
}

/// The node `k` levels down the last children of a node.
pub open spec fn right_spine(node: NodeView, k: nat) -> NodeView
    decreases k,
{
    if k == 0 {
        node
    } else {
        right_spine(node.content.last(), (k - 1) as nat)
    }
}

/// The way to the offset `d` into a node whose content has `d` nested
/// parent nodes at its start goes down the first children, and ends at the
/// start of the content of the last of them.
pub proof fn lemma_resolve_left_shape(node: NodeView, d: nat, start: nat)
    requires
        opens_left(node.content, d),
    ensures
        resolve_path(node, d, start).len() == d + 1,
        forall|k: int|
            0 <= k <= d ==> (#[trigger] resolve_path(node, d, start)[k]) == (PathEntry {
                node: left_spine(node, k as nat),
                index: 0,
                before: start + k as nat,
            }),
    decreases d,
{
    let c = node.content;
    let p = resolve_path(node, d, start);
    if d > 0 {
        lemma_opens_left_size(c[0].content, (d - 1) as nat);
        assert(size_upto(c, 1) == size_upto(c, 0) + node_size(c[0]));
        lemma_resolve_path_inside(node, d, start, 0);
        lemma_resolve_left_shape(c[0], (d - 1) as nat, start + 1);
        let tail = resolve_path(c[0], (d - 1) as nat, start + 1);
        assert forall|k: int| 0 <= k <= d implies (#[trigger] p[k]) == (PathEntry {
            node: left_spine(node, k as nat),
            index: 0,
            before: start + k as nat,
        }) by {
            if k > 0 {
                assert(p[k] == tail[k - 1]);
            }
        }
    } else {
        assert(p.len() == 1);
    }
}

/// The way to the offset `d` before the end of a node whose content has
/// `d` nested parent nodes at its end goes down the last children, and ends
/// at the end of the content of the last of them.
pub proof fn lemma_resolve_right_shape(node: NodeView, d: nat, start: nat)
    requires
        opens_right(node.content, d),
        content_size(right_spine(node, d).content) > 0 || right_spine(node, d).content.len() == 0,
    ensures
        content_size(node.content) >= d,
        resolve_path(node, (content_size(node.content) - d) as nat, start).len() == d + 1,
        forall|k: int|
            0 <= k <= d ==> (#[trigger] resolve_path(
                node,
                (content_size(node.content) - d) as nat,
                start,
            )[k]).node == right_spine(node, k as nat),
        forall|k: int|
            0 <= k < d ==> (#[trigger] resolve_path(
                node,
                (content_size(node.content) - d) as nat,
                start,
            )[k]).index == right_spine(node, k as nat).content.len() - 1,
        resolve_path(node, (content_size(node.content) - d) as nat, start).last().index
            == right_spine(node, d).content.len(),
        resolve_path(node, (content_size(node.content) - d) as nat, start).last().before == start
            + content_size(node.content) - d,
    decreases d,
{
    let c = node.content;
    lemma_opens_right_size(c, d);
    let offset = (content_size(c) - d) as nat;
    let p = resolve_path(node, offset, start);
    if d > 0 {
        let i = (c.len() - 1) as nat;
        lemma_opens_right_size(c.last().content, (d - 1) as nat);
        assert(size_upto(c, i + 1) == size_upto(c, i) + node_size(c[i as int]));
        lemma_resolve_path_inside(node, offset, start, i);
        lemma_resolve_right_shape(c.last(), (d - 1) as nat, start + size_upto(c, i) + 1);
        let tail = resolve_path(
            c.last(),
            (content_size(c.last().content) - (d - 1)) as nat,
            start + size_upto(c, i) + 1,
        );
        assert forall|k: int| 0 <= k <= d implies (#[trigger] p[k]).node == right_spine(
            node,
            k as nat,
        ) by {
            if k > 0 {
                assert(p[k] == tail[k - 1]);
            }
        }
        assert forall|k: int| 0 <= k < d implies (#[trigger] p[k]).index == right_spine(
            node,
            k as nat,
        ).content.len() - 1 by {
            if k > 0 {
                assert(p[k] == tail[k - 1]);
            }
        }
        assert(p.last() == tail.last());
    } else {
        assert(p.len() == 1);
    }
}

/// Going down the first children in two steps is going down in one.
pub proof fn lemma_left_spine_add(a: NodeView, m: nat, j: nat)
    ensures
        left_spine(a, m + j) == left_spine(left_spine(a, m), j),
    decreases m,
{
    if m > 0 {
        lemma_left_spine_add(a.content[0], (m - 1) as nat, j);
    }
}

/// Going down the last children in two steps is going down in one.
pub proof fn lemma_right_spine_add(a: NodeView, m: nat, j: nat)
    ensures
        right_spine(a, m + j) == right_spine(right_spine(a, m), j),
    decreases m,
{
    if m > 0 {
        lemma_right_spine_add(a.content.last(), (m - 1) as nat, j);
    }
}

/// Down the first children of the part of an ancestor after a position
/// come the parts of the ancestors below it.
pub proof fn lemma_spine_after(rp: PosView, d: int, m: nat)
    requires
        rp.well_formed(),
        rp.node(0).kind.parent(),
        0 <= d,
        d + m <= rp.depth(),
        forall|k: int| d <= k < d + m ==> sized((#[trigger] rp.node(k)).content),
    ensures
        left_spine(part_after(rp, d), m) == part_after(rp, d + m),
        opens_left(part_after(rp, d).content, m),
    decreases m,
{
    if m > 0 {
        assert(sized(rp.node(d).content));
        lemma_part_after_inner(rp, d);
        assert(part_after(rp, d).content[0] == part_after(rp, d + 1));
        assert forall|k: int| d + 1 <= k < d + 1 + (m - 1) implies sized(
            (#[trigger] rp.node(k)).content,
        ) by {}
        lemma_spine_after(rp, d + 1, (m - 1) as nat);
        lemma_part_after_kind(rp, d + 1);
    }
}

/// The parts of an ancestor before and after a position are of the type
/// of the ancestor.
pub proof fn lemma_part_after_kind(rp: PosView, d: int)
    requires
        rp.well_formed(),
        rp.node(0).kind.parent(),
        0 <= d <= rp.depth(),
    ensures
        part_after(rp, d).kind == rp.node(d).kind,
        part_before(rp, d).kind == rp.node(d).kind,
        part_after(rp, d).kind.parent(),
{
    lemma_node_is_parent(rp, d);
}

/// Down the last children of the part of an ancestor before a position
/// come the parts of the ancestors below it.
pub proof fn lemma_spine_before(rp: PosView, d: int, m: nat)
    requires
        rp.well_formed(),
        rp.node(0).kind.parent(),
        0 <= d,
        d + m <= rp.depth(),
        forall|k: int| d <= k < d + m ==> sized((#[trigger] rp.node(k)).content),
    ensures
        right_spine(part_before(rp, d), m) == part_before(rp, d + m),
        opens_right(part_before(rp, d).content, m),
        forall|j: int|
            0 <= j < m ==> (#[trigger] part_before(rp, d + j)).content.len() > 0 && part_before(
                rp,
                d + j,
            ).content.last() == part_before(rp, d + j + 1),
    decreases m,
{
    if m > 0 {
        assert(sized(rp.node(d).content));
        lemma_part_before_inner(rp, d);
        assert(part_before(rp, d).content.last() == part_before(rp, d + 1));
        assert forall|k: int| d + 1 <= k < d + 1 + (m - 1) implies sized(
            (#[trigger] rp.node(k)).content,
        ) by {}
        lemma_spine_before(rp, d + 1, (m - 1) as nat);
        lemma_part_after_kind(rp, d + 1);
        assert forall|j: int| 0 <= j < m implies (#[trigger] part_before(rp, d + j)).content.len()
            > 0 && part_before(rp, d + j).content.last() == part_before(rp, d + j + 1) by {
            if j > 0 {
                assert(part_before(rp, (d + 1) + (j - 1)).content.len() > 0);
            }
        }
    }
}

/// Down the copies of ancestors that a slice is prepared in comes the copy
/// of the innermost of them, which holds the content of the slice; every
/// copy above holds the next copy alone.
pub proof fn lemma_wrapped_spines(
    along: PosView,
    content: Seq<NodeView>,
    extra: int,
    i: int,
    open_start: nat,
    open_end: nat,
)
    requires
        0 <= i <= extra,
        forall|j: int| i <= j <= extra ==> (#[trigger] along.path[j]).node.kind.parent(),
        opens_left(content, open_start),
        opens_right(content, open_end),
    ensures
        left_spine(wrapped(along, content, extra, i), (extra - i) as nat) == along.node(
            extra,
        ).with_content(content),
        right_spine(wrapped(along, content, extra, i), (extra - i) as nat) == along.node(
            extra,
        ).with_content(content),
        along.node(extra).with_content(content).content == content,
        opens_left(wrapped(along, content, extra, i).content, (open_start + extra - i) as nat),
        opens_right(wrapped(along, content, extra, i).content, (open_end + extra - i) as nat),
        forall|j: int|
            0 <= j < extra - i ==> (#[trigger] right_spine(
                wrapped(along, content, extra, i),
                j as nat,
            )).content.len() == 1,
    decreases extra - i,
{
    let w = wrapped(along, content, extra, i);
    assert(along.path[i].node.kind.parent());
    assert(along.path[extra].node.kind.parent());
    if i < extra {
        let inner = wrapped(along, content, extra, i + 1);
        lemma_wrapped_spines(along, content, extra, i + 1, open_start, open_end);
        lemma_wrapped_size(along, content, extra, i + 1);
        assert(w.content == seq![inner]);
        assert(w.content[0] == inner);
        assert(w.content.last() == inner);
        assert forall|j: int| 0 <= j < extra - i implies (#[trigger] right_spine(
            w,
            j as nat,
        )).content.len() == 1 by {
            if j > 0 {
                assert(right_spine(w, j as nat) == right_spine(inner, (j - 1) as nat));
            }
        }
    }
}

/// In the document that a slice is prepared as, the start of the slice
/// lies as deep as the position that the slice is prepared along, at the
/// start of the parts, after that position, of the ancestors below the
/// depth at which the slice was taken.
pub proof fn lemma_prepared_start(rf: PosView, content: Seq<NodeView>, open_start: nat)
    requires
        rf.well_formed(),
        rf.node(0).kind.parent(),
        open_start <= rf.depth(),
        opens_left(content, open_start),
        open_start > 0 ==> content[0] == part_after(rf, rf.depth() - open_start + 1),
        forall|k: int|
            rf.depth() - open_start < k < rf.depth() ==> sized((#[trigger] rf.node(k)).content),
    ensures
        ({
            let d = rf.depth() - open_start;
            let n = wrapped(rf, content, d, 0);
            let rs = resolve(n, rf.depth());
            &&& rs.depth() == rf.depth()
            &&& rs.text_offset() == 0
            &&& rs.node(d) == rf.node(d).with_content(content)
            &&& rs.node(d).content == content
            &&& rs.index(d) == 0
            &&& starts_after(rs, rf, d + 1)
        }),
{
    let d = rf.depth() - open_start;
    let n = wrapped(rf, content, d, 0);
    let rs = resolve(n, rf.depth());
    assert forall|j: int| 0 <= j <= d implies (#[trigger] rf.path[j]).node.kind.parent() by {
        lemma_node_is_parent(rf, j);
    }
    lemma_wrapped_spines(rf, content, d, 0, open_start, 0);
    lemma_resolve_left_shape(n, rf.depth(), 0);
    let wrap = rf.node(d).with_content(content);
    assert(rs.path[d].node == left_spine(n, d as nat));
    assert(rs.path.last() == rs.path[rf.depth() as int]);
    assert forall|k: int| d + 1 <= k <= rf.depth() implies #[trigger] rs.node(k) == part_after(
        rf,
        k,
    ) && rs.index(k) == 0 by {
        assert(rs.path[k].node == left_spine(n, k as nat));
        let j = (k - d) as nat;
        lemma_left_spine_add(n, d as nat, j);
        assert(left_spine(wrap, j) == left_spine(content[0], (j - 1) as nat));
        assert forall|m: int| d + 1 <= m < d + 1 + (j - 1) implies sized(
            (#[trigger] rf.node(m)).content,
        ) by {}
        lemma_spine_after(rf, d + 1, (j - 1) as nat);
    }
}

/// In the document that a slice is prepared as, the end of the slice lies
/// as deep as the position that the range ends at, at the end of the
/// parts, before that position, of the ancestors below the depth at which
/// the slice was taken.
pub proof fn lemma_prepared_end(
    rf: PosView,
    rt: PosView,
    content: Seq<NodeView>,
    open_start: nat,
    open_end: nat,
)
    requires
        rf.well_formed(),
        rt.well_formed(),
        rf.node(0).kind.parent(),
        rt.node(0).kind.parent(),
        open_start <= rf.depth(),
        open_end <= rt.depth(),
        rf.depth() - open_start == rt.depth() - open_end,
        opens_right(content, open_end),
        open_end > 0 ==> content.len() > 0 && content.last() == part_before(
            rt,
            rt.depth() - open_end + 1,
        ),
        forall|k: int|
            rt.depth() - open_end < k < rt.depth() ==> sized((#[trigger] rt.node(k)).content),
        open_end == 0 ==> content_size(content) > 0,
        open_end > 0 ==> content_size(part_before(rt, rt.depth() as int).content) > 0
            || part_before(rt, rt.depth() as int).content.len() == 0,
    ensures
        ({
            let d = rf.depth() - open_start;
            let n = wrapped(rf, content, d, 0);
            let re = resolve(n, (content_size(n.content) - open_end - d) as nat);
            &&& content_size(n.content) >= open_end + d
            &&& re.depth() == rt.depth()
            &&& re.text_offset() == 0
            &&& re.node(d) == rf.node(d).with_content(content)
            &&& re.index(d) == if open_end > 0 {
                content.len() - 1
            } else {
                content.len() as int
            }
            &&& ends_before(re, rt, d + 1)
        }),
{
    let d = rf.depth() - open_start;
    let n = wrapped(rf, content, d, 0);
    assert forall|j: int| 0 <= j <= d implies (#[trigger] rf.path[j]).node.kind.parent() by {
        lemma_node_is_parent(rf, j);
    }
    lemma_wrapped_spines(rf, content, d, 0, 0, open_end);
    let wrap = rf.node(d).with_content(content);
    let depth = rt.depth();
    lemma_right_spine_add(n, d as nat, open_end);
    if open_end > 0 {
        assert(right_spine(wrap, open_end) == right_spine(content.last(), (open_end - 1) as nat));
        assert forall|m: int| d + 1 <= m < d + 1 + (open_end - 1) implies sized(
            (#[trigger] rt.node(m)).content,
        ) by {}
        lemma_spine_before(rt, d + 1, (open_end - 1) as nat);
    }
    lemma_resolve_right_shape(n, depth, 0);
    let re = resolve(n, (content_size(n.content) - open_end - d) as nat);
    assert(re.path[d].node == right_spine(n, d as nat));
    assert(re.path.last() == re.path[depth as int]);
    if open_end > 0 {
        assert(re.path[d].index == right_spine(n, d as nat).content.len() - 1);
    }
    assert forall|k: int| d + 1 <= k <= depth implies #[trigger] re.node(k) == part_before(rt, k)
        && re.index(k) == if k < rt.depth() {
        part_before(rt, k).content.len() - 1
    } else {
        part_before(rt, k).content.len() as int
    } by {
        assert(re.path[k].node == right_spine(n, k as nat));
        let j = (k - d) as nat;
        lemma_right_spine_add(n, d as nat, j);
        assert(right_spine(wrap, j) == right_spine(content.last(), (j - 1) as nat));
        assert forall|m: int| d + 1 <= m < d + 1 + (j - 1) implies sized(
            (#[trigger] rt.node(m)).content,
        ) by {}
        lemma_spine_before(rt, d + 1, (j - 1) as nat);
        if k < depth {
            assert(re.path[k].index == right_spine(n, k as nat).content.len() - 1);
        }
    }
}

/// The children that lie within the range stand whole in the list of the
/// children that a cut leaves.
pub proof fn lemma_cut_list_middle(
    c: Seq<NodeView>,
    x: nat,
    y: nat,
    lo: int,
    hi: int,
    p: int,
    m: int,
)
    requires
        0 <= lo,
        hi <= c.len(),
        0 <= p <= m <= hi - lo,
        p < m ==> x <= size_upto(c, (lo + p) as nat),
        p < m ==> size_upto(c, (lo + m) as nat) <= y,
    ensures
        cut_list(c, x, y, lo, hi).subrange(p, m) == c.subrange(lo + p, lo + m),
{
    let k = cut_list(c, x, y, lo, hi);
    assert forall|j: int| p <= j < m implies k[j] == c[lo + j] by {
        lemma_size_upto_mono(c, (lo + p) as nat, (lo + j) as nat);
        assert(size_upto(c, (lo + j + 1) as nat) == size_upto(c, (lo + j) as nat) + node_size(
            c[lo + j],
        ));
        lemma_size_upto_mono(c, (lo + j + 1) as nat, (lo + m) as nat);
        lemma_cut_child_whole(c[lo + j], size_upto(c, (lo + j) as nat), x, y);
    }
    assert(k.subrange(p, m) =~= c.subrange(lo + p, lo + m));
}

/// Adding the children that lie within the range, as a cut leaves them, to
/// the children before them gives the children up to the end of them.
pub proof fn lemma_add_middle(
    c: Seq<NodeView>,
    x: nat,
    y: nat,
    lo: int,
    hi: int,
    p: int,
    m: int,
)
    requires
        settled(c),
        0 <= lo,
        hi <= c.len(),
        0 <= p <= m <= hi - lo,
        p < m ==> x <= size_upto(c, (lo + p) as nat),
        p < m ==> size_upto(c, (lo + m) as nat) <= y,
    ensures
        add_children(c.subrange(0, lo + p), cut_list(c, x, y, lo, hi), p, m) == c.subrange(
            0,
            lo + m,
        ),
{
    let k = cut_list(c, x, y, lo, hi);
    let out = c.subrange(0, lo + p);
    lemma_cut_list_middle(c, x, y, lo, hi, p, m);
    lemma_add_children_same(out, k, p, c, lo + p, m - p);
    if p < m && lo + p > 0 {
        assert(out.last() == c[lo + p - 1]);
        assert(!mergeable(c[lo + p - 1], c[lo + p - 1 + 1]));
    }
    lemma_add_children_settled(out, c, lo + p, lo + m);
    assert(out + c.subrange(lo + p, lo + m) =~= c.subrange(0, lo + m));
}

/// The parts that a text node is cut into at two offsets that split no
/// surrogate pair merge as the text between the offsets lies.
pub proof fn lemma_text_parts(t: NodeView, a: nat, b: nat)
    requires
        t.is_text(),
        t == NodeView::text_node(t.text, t.marks),
        0 < a < b < node_size(t),
        utf16_boundary(t.text, a),
        utf16_boundary(t.text, b),
    ensures
        mergeable(cut_node(t, 0, a), cut_node(t, a, b)),
        merged(cut_node(t, 0, a), cut_node(t, a, b)) == cut_node(t, 0, b),
        cut_node(t, 0, b).is_text() && cut_node(t, 0, b).marks == t.marks,
        cut_node(t, 0, a).is_text() && cut_node(t, 0, a).marks == t.marks,
        cut_node(t, a, b).is_text() && cut_node(t, a, b).marks == t.marks,
{
    let s = t.text;
    lemma_utf16_index_bounds(s, 0);
    lemma_utf16_index_bounds(s, a);
    lemma_utf16_index_bounds(s, b);
    assert(s.take(0) =~= Seq::<char>::empty());
    assert(utf16_index(s, 0) == 0) by {
        if utf16_index(s, 0) > 0 {
            lemma_utf16_len_bounds(s.take(utf16_index(s, 0) as int));
        }
    }
    lemma_utf16_index_mono(s, a, b);
    assert(cut_text(s, 0, a) + cut_text(s, a, b) =~= cut_text(s, 0, b));
}

/// How an end of a range lies in the content of a node: inside a child that
/// is a parent, inside a text child at an offset, or between two children.
pub struct EndAt {
    /// The index of the child that the end lies in or before
    pub index: int,
    /// True when the end lies inside a child that is a parent
    pub deep: bool,
    /// The offset into the text child that the end lies in, or zero
    pub text: nat,
}

impl EndAt {
    /// True when the end at offset `z` lies in the content as described.
    pub open spec fn describes(self, c: Seq<NodeView>, z: nat) -> bool {
        &&& 0 <= self.index <= c.len()
        &&& z <= content_size(c)
        &&& self.index == child_at(c, z)
        &&& self.deep ==> self.text == 0 && self.index < c.len() && size_upto(
            c,
            self.index as nat,
        ) < z && !c[self.index].is_text()
        &&& !self.deep ==> z == size_upto(c, self.index as nat) + self.text
        &&& !self.deep && self.text > 0 ==> self.index < c.len() && c[self.index].is_text()
            && self.text < node_size(c[self.index]) && utf16_boundary(c[self.index].text, self.text)
    }

    /// The content up to the end: with the child that the end lies deep
    /// in, if `whole`, and else with the part, before the end, of the text
    /// child that it lies in.
    pub open spec fn before(self, c: Seq<NodeView>, whole: bool) -> Seq<NodeView> {
        if self.deep {
            if whole {
                c.subrange(0, self.index + 1)
            } else {
                c.subrange(0, self.index)
            }
        } else if self.text > 0 {
            c.subrange(0, self.index).push(cut_node(c[self.index], 0, self.text))
        } else {
            c.subrange(0, self.index)
        }
    }
}

/// What is left of a child in a cut is text with the marks of the child,
/// or no text as the child is none.
pub proof fn lemma_cut_child_marks(n: NodeView, pos: nat, from: nat, to: nat)
    ensures
        cut_child(n, pos, from, to).is_text() == n.is_text(),
        cut_child(n, pos, from, to).marks == n.marks,
{
}

/// No two neighbours in what a cut leaves of settled children are text
/// with the same marks.
pub proof fn lemma_cut_list_merged(c: Seq<NodeView>, x: nat, y: nat, lo: int, hi: int)
    requires
        texts_merged(c),
        0 <= lo <= hi <= c.len(),
    ensures
        texts_merged(cut_list(c, x, y, lo, hi)),
{
    let k = cut_list(c, x, y, lo, hi);
    assert forall|i: int| 0 <= i < k.len() - 1 implies !mergeable(#[trigger] k[i], k[i + 1]) by {
        lemma_cut_child_marks(c[lo + i], size_upto(c, (lo + i) as nat), x, y);
        lemma_cut_child_marks(c[lo + i + 1], size_upto(c, (lo + i + 1) as nat), x, y);
        assert(!mergeable(c[lo + i], c[lo + i + 1]));
    }
}

/// Adding what a cut between two ends in one child leaves to the content
/// up to the first end gives the content up to the second end.
pub proof fn lemma_slab_near(c: Seq<NodeView>, x: nat, y: nat, a: EndAt, b: EndAt)
    requires
        settled(c),
        x < y,
        a.describes(c, x),
        b.describes(c, y),
        !a.deep,
        a.index < c.len(),
        y < size_upto(c, (a.index + 1) as nat),
    ensures
        b.index == a.index,
        child_before(c, y) == a.index + 1,
        add_children(
            a.before(c, true),
            cut_list(c, x, y, a.index, a.index + 1),
            0,
            if b.deep {
                0
            } else {
                1
            },
        ) == b.before(c, false),
        b.deep ==> cut_list(c, x, y, a.index, a.index + 1)[0] == cut_node(
            c[a.index],
            0,
            (y - size_upto(c, a.index as nat) - 1) as nat,
        ),
{
    let ia = a.index;
    let k = cut_list(c, x, y, ia, ia + 1);
    let t = c[ia];
    let pos = size_upto(c, ia as nat);
    assert(size_upto(c, (ia + 1) as nat) == pos + node_size(t));
    lemma_child_at(c, x);
    lemma_child_at_unique(c, y, ia);
    let head = c.subrange(0, ia);
    assert(k[0] == cut_child(t, pos, x, y));
    if ia > 0 {
        assert(!mergeable(c[ia - 1], c[ia - 1 + 1]));
        assert(head.last() == c[ia - 1]);
    }
    if b.deep {
        assert(add_children(a.before(c, true), k, 0, 0) == a.before(c, true));
    } else {
        let out = a.before(c, true);
        assert(add_children(out, k, 0, 0) == out);
        assert(add_children(out, k, 0, 1) == add_node(out, k[0]));
        if a.text > 0 {
            lemma_text_parts(t, a.text, b.text);
            assert(k[0] == cut_node(t, a.text, b.text));
            assert(out.drop_last() =~= head);
        } else {
            assert(k[0] == cut_node(t, 0, b.text));
        }
    }
}

/// Adding the first of the children that a cut leaves to the content up to
/// the start of the range gives the children up to the end of that child,
/// where the range ends after the child.
pub proof fn lemma_slab_first(c: Seq<NodeView>, x: nat, y: nat, a: EndAt, hi: int)
    requires
        settled(c),
        x < y <= content_size(c),
        a.describes(c, x),
        a.index < hi <= c.len(),
        size_upto(c, (a.index + 1) as nat) <= y,
    ensures
        add_children(
            a.before(c, true),
            cut_list(c, x, y, a.index, hi),
            if a.deep {
                1
            } else {
                0
            },
            1,
        ) == c.subrange(0, a.index + 1),
{
    let ia = a.index;
    let k = cut_list(c, x, y, ia, hi);
    let t = c[ia];
    let pos = size_upto(c, ia as nat);
    assert(size_upto(c, (ia + 1) as nat) == pos + node_size(t));
    let head = c.subrange(0, ia);
    let out = a.before(c, true);
    assert(k[0] == cut_child(t, pos, x, y));
    if ia > 0 {
        assert(!mergeable(c[ia - 1], c[ia - 1 + 1]));
        assert(head.last() == c[ia - 1]);
    }
    if a.deep {
        assert(add_children(out, k, 1, 1) == out);
    } else {
        assert(add_children(out, k, 0, 0) == out);
        assert(add_children(out, k, 0, 1) == add_node(out, k[0]));
        if a.text > 0 {
            lemma_text_rejoins(t, a.text);
            assert(k[0] == cut_node(t, a.text, inner_size(t)));
            assert(out.drop_last() =~= head);
            assert(add_node(out, k[0]) == head.push(t));
        } else {
            lemma_cut_child_whole(t, pos, x, y);
        }
        assert(head.push(t) =~= c.subrange(0, ia + 1));
    }
}

/// True when adding the children that a cut between two ends leaves, but
/// those that an end lies deep in, to the content up to the first end gives
/// the content up to the second end.
pub open spec fn slab_added(c: Seq<NodeView>, x: nat, y: nat, a: EndAt, b: EndAt) -> bool {
    let k = cut_list(c, x, y, a.index, child_before(c, y));
    &&& a.index < child_before(c, y) <= c.len()
    &&& add_children(
        a.before(c, true),
        k,
        if a.deep {
            1
        } else {
            0
        },
        if b.deep {
            k.len() - 1
        } else {
            k.len() as int
        },
    ) == b.before(c, false)
    &&& a.deep && b.deep ==> k.len() >= 2
    &&& a.deep ==> k[0] == cut_node(
        c[a.index],
        (x - size_upto(c, a.index as nat) - 1) as nat,
        content_size(c[a.index].content),
    )
    &&& b.deep ==> k.last() == cut_node(
        c[b.index],
        0,
        (y - size_upto(c, b.index as nat) - 1) as nat,
    )
}

/// Adding the last of the children that a cut leaves, where the range ends
/// in a text child, to the children before it gives the content up to the
/// end of the range.
pub proof fn lemma_slab_last(c: Seq<NodeView>, x: nat, y: nat, lo: int, b: EndAt)
    requires
        settled(c),
        x < y,
        b.describes(c, y),
        !b.deep,
        b.text > 0,
        0 <= lo < b.index,
        x <= size_upto(c, b.index as nat),
    ensures
        add_children(
            c.subrange(0, b.index),
            cut_list(c, x, y, lo, b.index + 1),
            b.index - lo,
            b.index - lo + 1,
        ) == b.before(c, false),
{
    let ib = b.index;
    let m = ib - lo;
    let k = cut_list(c, x, y, lo, ib + 1);
    let head = c.subrange(0, ib);
    assert(size_upto(c, (ib + 1) as nat) == size_upto(c, ib as nat) + node_size(c[ib]));
    assert(k[m] == cut_child(c[ib], size_upto(c, ib as nat), x, y));
    assert(k[m] == cut_node(c[ib], 0, b.text));
    assert(add_children(head, k, m, m) == head);
    assert(add_children(head, k, m, m + 1) == add_node(head, k[m]));
    assert(head.last() == c[ib - 1]);
    assert(!mergeable(c[ib - 1], c[ib - 1 + 1]));
}

/// What a cut leaves of a child that the range starts deep in and ends
/// after.
pub proof fn lemma_slab_deep_first(c: Seq<NodeView>, x: nat, y: nat, a: EndAt)
    requires
        settled(c),
        a.describes(c, x),
        a.deep,
        size_upto(c, (a.index + 1) as nat) <= y,
    ensures
        cut_child(c[a.index], size_upto(c, a.index as nat), x, y) == cut_node(
            c[a.index],
            (x - size_upto(c, a.index as nat) - 1) as nat,
            content_size(c[a.index].content),
        ),
{
    let ia = a.index;
    lemma_child_at(c, x);
    assert(size_upto(c, (ia + 1) as nat) == size_upto(c, ia as nat) + node_size(c[ia]));
}

/// What a cut leaves of a child that the range ends deep in and starts
/// before.
pub proof fn lemma_slab_deep_last(c: Seq<NodeView>, x: nat, y: nat, b: EndAt)
    requires
        settled(c),
        b.describes(c, y),
        b.deep,
        x <= size_upto(c, b.index as nat),
    ensures
        cut_child(c[b.index], size_upto(c, b.index as nat), x, y) == cut_node(
            c[b.index],
            0,
            (y - size_upto(c, b.index as nat) - 1) as nat,
        ),
{
    let ib = b.index;
    lemma_child_at(c, y);
    assert(size_upto(c, (ib + 1) as nat) == size_upto(c, ib as nat) + node_size(c[ib]));
}

/// The content up to the second end comes of the content up to the first,
/// where the range ends after the child that it starts in.
#[verifier::rlimit(60)]
pub proof fn lemma_slab_far(c: Seq<NodeView>, x: nat, y: nat, a: EndAt, b: EndAt)
    requires
        settled(c),
        x < y,
        a.describes(c, x),
        b.describes(c, y),
        a.index < c.len(),
        size_upto(c, (a.index + 1) as nat) <= y,
        b.deep ==> x <= size_upto(c, b.index as nat),
    ensures
        slab_added(c, x, y, a, b),
{
    let ia = a.index;
    let ib = b.index;
    lemma_child_at(c, x);
    lemma_child_at(c, y);
    let hi = child_before(c, y);
    assert(ia < hi) by {
        if hi <= ia {
            lemma_size_upto_mono(c, hi as nat, ia as nat);
        }
    }
    let k = cut_list(c, x, y, ia, hi);
    let first: int = if a.deep {
        1
    } else {
        0
    };
    let out = a.before(c, true);
    assert(ib > ia) by {
        if ib <= ia {
            lemma_size_upto_mono(c, (ib + 1) as nat, (ia + 1) as nat);
        }
    }
    let m = ib - ia;
    lemma_slab_first(c, x, y, a, hi);
    lemma_add_middle(c, x, y, ia, hi, 1, m);
    lemma_add_children_split(out, k, first, 1, m);
    assert(add_children(out, k, first, m) == c.subrange(0, ib));
    if a.deep {
        assert(k[0] == cut_child(c[ia], size_upto(c, ia as nat), x, y));
        lemma_slab_deep_first(c, x, y, a);
    }
    if b.deep {
        assert(hi == ib + 1);
        assert(k.last() == cut_child(c[ib], size_upto(c, ib as nat), x, y));
        lemma_slab_deep_last(c, x, y, b);
    } else if b.text > 0 {
        assert(hi == ib + 1);
        lemma_add_children_split(out, k, first, m, m + 1);
        lemma_size_upto_mono(c, (ia + 1) as nat, ib as nat);
        lemma_slab_last(c, x, y, ia, b);
    } else {
        assert(hi == ib);
    }
}

/// Adding the children that a cut between two ends leaves, but those that
/// an end lies deep in, to the content up to the first end gives the
/// content up to the second end.
pub proof fn lemma_slab(c: Seq<NodeView>, x: nat, y: nat, a: EndAt, b: EndAt)
    requires
        settled(c),
        x < y,
        a.describes(c, x),
        b.describes(c, y),
        a.deep ==> size_upto(c, (a.index + 1) as nat) <= y,
        b.deep ==> x <= size_upto(c, b.index as nat),
    ensures
        slab_added(c, x, y, a, b),
{
    let ia = a.index;
    lemma_child_at(c, x);
    if y < size_upto(c, (ia + 1) as nat) {
        lemma_slab_near(c, x, y, a, b);
    } else {
        lemma_slab_far(c, x, y, a, b);
    }
}

/// How a position lies in the content of its ancestor at depth `d`.
pub open spec fn end_at(rp: PosView, d: int) -> EndAt {
    EndAt {
        index: rp.index(d) as int,
        deep: d < rp.depth(),
        text: if d < rp.depth() {
            0
        } else {
            rp.text_offset()
        },
    }
}

/// A position lies in the content of each of its ancestors as its path
/// says.
pub proof fn lemma_end_at(rp: PosView, d: int)
    requires
        rp.well_formed(),
        rp.on_boundary(),
        rp.node(0).kind.parent(),
        0 <= d <= rp.depth(),
        settled(rp.node(d).content),
    ensures
        rp.start(d) <= rp.pos,
        end_at(rp, d).describes(rp.node(d).content, (rp.pos - rp.start(d)) as nat),
        d == rp.depth() ==> end_at(rp, d).before(rp.node(d).content, true) == part_before_content(
            rp,
        ) && end_at(rp, d).before(rp.node(d).content, false) == part_before_content(rp),
{
    lemma_index_is_child_at(rp, d);
    assert(entry_leads(rp.path, 0, rp.pos, d));
    if d < rp.depth() {
        lemma_node_is_parent(rp, d + 1);
        assert(entry_links(rp.path, rp.pos, d));
    }
}

/// True when the two positions share their ancestors down to depth `d`,
/// the first lies before the second, no deeper ancestor of one spans the
/// other, and the content of their ancestors from that depth down is
/// settled and accepted.
pub open spec fn range_in(rf: PosView, rt: PosView, d: int) -> bool {
    &&& rf.well_formed() && rt.well_formed()
    &&& rf.on_boundary() && rt.on_boundary()
    &&& rf.node(0).kind.parent() && rt.node(0).kind.parent()
    &&& 0 <= d <= rf.depth() && d <= rt.depth()
    &&& rf.node(d) == rt.node(d)
    &&& rf.start(d) == rt.start(d)
    &&& rf.pos < rt.pos
    &&& rf.depth() > d ==> rf.end(d + 1) < rt.pos
    &&& rt.depth() > d ==> rf.pos < rt.start(d + 1)
    &&& spine_settled(rf, d) && spine_settled(rt, d)
}

/// The content between two positions in the deepest ancestor that they
/// share.
pub open spec fn between(rf: PosView, rt: PosView, d: int) -> Seq<NodeView> {
    cut_content(
        rf.node(d).content,
        (rf.pos - rf.start(d)) as nat,
        (rt.pos - rf.start(d)) as nat,
    )
}

/// The two ends of a range lie in the content of the deepest ancestor that
/// they share as their paths say, and neither lies in the child that the
/// other lies deep in.
pub proof fn lemma_range_ends(rf: PosView, rt: PosView, d: int)
    requires
        range_in(rf, rt, d),
    ensures
        ({
            let c = rf.node(d).content;
            let x = (rf.pos - rf.start(d)) as nat;
            let y = (rt.pos - rf.start(d)) as nat;
            let a = end_at(rf, d);
            let b = end_at(rt, d);
            &&& settled(c)
            &&& rf.start(d) <= rf.pos
            &&& x < y
            &&& a.describes(c, x)
            &&& b.describes(c, y)
            &&& a.deep ==> size_upto(c, (a.index + 1) as nat) <= y
            &&& b.deep ==> x <= size_upto(c, b.index as nat)
            &&& a.deep ==> c[a.index] == rf.node(d + 1) && rf.start(d + 1) == rf.start(d)
                + size_upto(c, a.index as nat) + 1
            &&& b.deep ==> c[b.index] == rt.node(d + 1) && rt.start(d + 1) == rf.start(d)
                + size_upto(c, b.index as nat) + 1
        }),
{
    let c = rf.node(d).content;
    assert(settled(rf.node(d).content));
    lemma_end_at(rf, d);
    lemma_end_at(rt, d);
    lemma_index_is_child_at(rf, d);
    lemma_index_is_child_at(rt, d);
    let a = end_at(rf, d);
    if a.deep {
        lemma_node_is_parent(rf, d + 1);
        assert(size_upto(c, (a.index + 1) as nat) == size_upto(c, a.index as nat) + node_size(
            c[a.index],
        ));
    }
}

/// The content up to the second position comes of the content up to the
/// first when the children between the two are added, and the content
/// between the two starts and ends with the parts of the next ancestors
/// that lie in the range.
pub proof fn lemma_range_slab(rf: PosView, rt: PosView, d: int)
    requires
        range_in(rf, rt, d),
    ensures
        ({
            let c = rf.node(d).content;
            let k = between(rf, rt, d);
            &&& k.len() > 0
            &&& add_children(
                end_at(rf, d).before(c, true),
                k,
                if rf.depth() > d {
                    1
                } else {
                    0
                },
                if rt.depth() > d {
                    k.len() - 1
                } else {
                    k.len() as int
                },
            ) == end_at(rt, d).before(c, false)
            &&& rf.depth() > d && rt.depth() > d ==> k.len() >= 2
            &&& rf.depth() > d ==> k[0] == part_after(rf, d + 1)
            &&& rt.depth() > d ==> k.last() == part_before(rt, d + 1)
            &&& texts_merged(k)
        }),
{
    let c = rf.node(d).content;
    let x = (rf.pos - rf.start(d)) as nat;
    let y = (rt.pos - rf.start(d)) as nat;
    let a = end_at(rf, d);
    let b = end_at(rt, d);
    lemma_range_ends(rf, rt, d);
    lemma_slab(c, x, y, a, b);
    lemma_cut_content_list(c, x, y);
    lemma_cut_list_merged(c, x, y, a.index, child_before(c, y));
}

/// The next ancestor of a position joins with the part of it after the
/// position into itself, and stands after the children before it.
pub proof fn lemma_left_half(rf: PosView, rs: PosView, d: int)
    requires
        rf.well_formed(),
        rf.on_boundary(),
        rf.node(0).kind.parent(),
        0 <= d < rf.depth(),
        starts_after(rs, rf, d + 1),
        spine_settled(rf, d),
    ensures
        check_join(rf.node(d + 1), rs.node(d + 1)) is None,
        replace_two_way(rf, rs, d + 1) == Ok::<Seq<NodeView>, ReplaceError>(
            rf.node(d + 1).content,
        ),
        close(rf.node(d + 1), rf.node(d + 1).content) == Ok::<NodeView, ReplaceError>(
            rf.node(d + 1),
        ),
        add_node(rf.node(d).content.subrange(0, rf.index(d) as int), rf.node(d + 1))
            == rf.node(d).content.subrange(0, rf.index(d) as int + 1),
{
    let c = rf.node(d).content;
    let idx = rf.index(d) as int;
    assert(settled(rf.node(d).content));
    assert(settled(rf.node(d + 1).content) && rf.node(d + 1).kind.accepts(
        rf.node(d + 1).content,
    ));
    assert(rs.node(d + 1) == part_after(rf, d + 1));
    lemma_part_after_kind(rf, d + 1);
    lemma_index_is_child_at(rf, d);
    assert(spine_settled(rf, d + 1));
    lemma_two_way_left(rf, rs, d + 1);
    let head = c.subrange(0, idx);
    if idx > 0 {
        assert(head.last() == c[idx - 1]);
        assert(!mergeable(c[idx - 1], c[idx - 1 + 1]));
    }
    assert(head.push(c[idx]) =~= c.subrange(0, idx + 1));
}

/// The part of the next ancestor of a position before the position joins
/// with that ancestor into it, and it stands after the children before it.
pub proof fn lemma_right_half(re: PosView, rt: PosView, d: int)
    requires
        rt.well_formed(),
        rt.on_boundary(),
        rt.node(0).kind.parent(),
        0 <= d < rt.depth(),
        ends_before(re, rt, d + 1),
        spine_settled(rt, d),
    ensures
        check_join(re.node(d + 1), rt.node(d + 1)) is None,
        replace_two_way(re, rt, d + 1) == Ok::<Seq<NodeView>, ReplaceError>(
            rt.node(d + 1).content,
        ),
        close(re.node(d + 1), rt.node(d + 1).content) == Ok::<NodeView, ReplaceError>(
            rt.node(d + 1),
        ),
        add_node(rt.node(d).content.subrange(0, rt.index(d) as int), rt.node(d + 1))
            == rt.node(d).content.subrange(0, rt.index(d) as int + 1),
{
    let c = rt.node(d).content;
    let idx = rt.index(d) as int;
    assert(settled(rt.node(d).content));
    assert(settled(rt.node(d + 1).content) && rt.node(d + 1).kind.accepts(
        rt.node(d + 1).content,
    ));
    assert(re.node(d + 1) == part_before(rt, d + 1));
    lemma_part_after_kind(rt, d + 1);
    lemma_index_is_child_at(rt, d);
    assert(spine_settled(rt, d + 1));
    lemma_two_way_right(re, rt, d + 1);
    if d + 1 < rt.depth() {
        lemma_part_before_inner(rt, d + 1);
    } else {
        lemma_part_before_last(rt);
    }
    let head = c.subrange(0, idx);
    if idx > 0 {
        assert(head.last() == c[idx - 1]);
        assert(!mergeable(c[idx - 1], c[idx - 1 + 1]));
    }
    assert(head.push(c[idx]) =~= c.subrange(0, idx + 1));
}

/// The content before a position in its innermost parent is empty or
/// takes up room.
pub proof fn lemma_part_before_sized(rp: PosView)
    requires
        rp.well_formed(),
        rp.on_boundary(),
        rp.node(0).kind.parent(),
        settled(rp.parent().content),
    ensures
        content_size(part_before_content(rp)) > 0 || part_before_content(rp).len() == 0,
{
    let d = rp.depth() as int;
    let c = rp.node(d).content;
    let pbc = part_before_content(rp);
    lemma_end_at(rp, d);
    if pbc.len() > 0 {
        assert(size_upto(pbc, 1) == size_upto(pbc, 0) + node_size(pbc[0]));
        lemma_size_upto_mono(pbc, 1, pbc.len());
        if rp.index(d) > 0 {
            assert(pbc[0] == c[0]);
        } else {
            lemma_text_rejoins(c[0], rp.text_offset());
            lemma_cut_node_size(c[0], 0, rp.text_offset());
        }
    }
}

/// True when the positions `rs` and `re` stand, in a node that holds the
/// content between `rf` and `rt`, at the start and at the end of that
/// content, as deep as `rf` and `rt` lie below depth `d`.
pub open spec fn stands_between(rf: PosView, rs: PosView, re: PosView, rt: PosView, d: int) -> bool {
    &&& starts_after(rs, rf, d + 1)
    &&& ends_before(re, rt, d + 1)
    &&& rs.node(d).content == between(rf, rt, d)
    &&& re.node(d) == rs.node(d)
    &&& rs.index(d) == 0
    &&& re.index(d) == if rt.depth() > d {
        between(rf, rt, d).len() - 1
    } else {
        between(rf, rt, d).len() as int
    }
}

/// The two halves of the join of a range with the content that it holds
/// give the content of the shared ancestor up to the end of the range.
pub proof fn lemma_halves_back(rf: PosView, rs: PosView, re: PosView, rt: PosView, d: int)
    requires
        range_in(rf, rt, d),
        stands_between(rf, rs, re, rt, d),
    ensures
        replace_halves(
            rf,
            rs,
            re,
            rt,
            d,
            add_range(None, Some(rf), d, Seq::empty()),
        ) == Ok::<Seq<NodeView>, ReplaceError>(end_at(rt, d).before(rf.node(d).content, true)),
        rf.depth() > d ==> check_join(rf.node(d + 1), rs.node(d + 1)) is None,
        rt.depth() > d ==> check_join(re.node(d + 1), rt.node(d + 1)) is None,
        !(rf.depth() > d && rt.depth() > d && rs.index(d) == re.index(d)),
{
    let c = rf.node(d).content;
    lemma_range_slab(rf, rt, d);
    assert(settled(rf.node(d).content));
    assert(settled(rt.node(d).content));
    lemma_head_added(rf, d);
    lemma_end_at(rf, d);
    lemma_end_at(rt, d);
    let left = add_range(None, Some(rf), d, Seq::empty());
    if rf.depth() > d {
        lemma_left_half(rf, rs, d);
    }
    if rt.depth() > d {
        lemma_right_half(re, rt, d);
    }
    let out1 = end_at(rf, d).before(c, true);
    let out2 = end_at(rt, d).before(c, false);
    assert(add_range(Some(rs), Some(re), d, out1) == out2);
}

/// Replacing the range between two positions by the content between them
/// in the deepest ancestor that they share, prepared along the first
/// position, leaves the content of that ancestor as it is.
pub proof fn lemma_three_way_back(rf: PosView, rt: PosView, d: int)
    requires
        range_in(rf, rt, d),
        opens_left(between(rf, rt, d), (rf.depth() - d) as nat),
        opens_right(between(rf, rt, d), (rt.depth() - d) as nat),
        content_size(between(rf, rt, d)) > 0,
    ensures
        ({
            let n = wrapped(rf, between(rf, rt, d), d, 0);
            &&& content_size(n.content) >= rt.depth()
            &&& replace_three_way(
                rf,
                resolve(n, rf.depth()),
                resolve(n, (content_size(n.content) - rt.depth()) as nat),
                rt,
                d,
            ) == Ok::<Seq<NodeView>, ReplaceError>(rf.node(d).content)
        }),
{
    let k = between(rf, rt, d);
    let os = (rf.depth() - d) as nat;
    let oe = (rt.depth() - d) as nat;
    lemma_range_slab(rf, rt, d);
    assert forall|j: int| d < j < rf.depth() implies sized((#[trigger] rf.node(j)).content) by {
        assert(settled(rf.node(j).content));
    }
    assert forall|j: int| d < j < rt.depth() implies sized((#[trigger] rt.node(j)).content) by {
        assert(settled(rt.node(j).content));
    }
    assert(settled(rt.node(d).content));
    assert(settled(rt.node(rt.depth() as int).content));
    lemma_prepared_start(rf, k, os);
    if oe > 0 {
        lemma_part_before_last(rt);
        lemma_part_before_sized(rt);
    }
    lemma_prepared_end(rf, rt, k, os, oe);
    let n = wrapped(rf, k, d, 0);
    let rs = resolve(n, rf.depth());
    let re = resolve(n, (content_size(n.content) - rt.depth()) as nat);
    assert(stands_between(rf, rs, re, rt, d));
    lemma_halves_back(rf, rs, re, rt, d);
    lemma_tail_added(rt, d);
}

/// Appending a fragment in which no two neighbours merge is adding its
/// nodes one after the other.
pub proof fn lemma_append_is_adding(a: Seq<NodeView>, b: Seq<NodeView>)
    requires
        texts_merged(b),
    ensures
        append_content(a, b) == add_children(a, b, 0, b.len() as int),
{
    if b.len() > 0 {
        let first = add_node(a, b[0]);
        assert(add_children(a, b, 0, 0) == a);
        assert(add_children(a, b, 0, 1) == first);
        lemma_add_children_split(a, b, 0, 1, b.len() as int);
        if b.len() > 1 {
            assert(!mergeable(b[0int], b[0int + 1]));
        }
        lemma_add_children_settled(first, b, 1, b.len() as int);
        let rest = b.subrange(1, b.len() as int);
        assert(rest =~= b.drop_first());
        if a.len() == 0 {
            assert(first + rest =~= b);
        } else if mergeable(a.last(), b[0]) {
        } else {
            assert(first + rest =~= a + b);
        }
    }
}

/// No two neighbours in the content after a position in its innermost
/// parent are text with the same marks.
pub proof fn lemma_part_after_merged(rp: PosView)
    requires
        rp.well_formed(),
        rp.on_boundary(),
        rp.node(0).kind.parent(),
        settled(rp.parent().content),
    ensures
        texts_merged(part_after_content(rp)),
{
    let d = rp.depth() as int;
    let c = rp.node(d).content;
    let idx = rp.index(d) as int;
    let pac = part_after_content(rp);
    lemma_end_at(rp, d);
    if rp.text_offset() > 0 {
        lemma_text_rejoins(c[idx], rp.text_offset());
    }
    assert forall|i: int| 0 <= i < pac.len() - 1 implies !mergeable(
        #[trigger] pac[i],
        pac[i + 1],
    ) by {
        assert(!mergeable(c[idx + i], c[idx + i + 1]));
    }
}

/// Putting the content between two positions in one parent back between
/// the content before the first and the content after the second gives the
/// content of the parent.
pub proof fn lemma_flat_back(rf: PosView, rt: PosView)
    requires
        range_in(rf, rt, rf.depth() as int),
        rt.depth() == rf.depth(),
    ensures
        ({
            let c = rf.parent().content;
            append_content(
                append_content(
                    cut_content(c, 0, rf.parent_offset()),
                    between(rf, rt, rf.depth() as int),
                ),
                cut_content(c, rt.parent_offset(), content_size(c)),
            ) == c
        }),
{
    let d = rf.depth() as int;
    let c = rf.node(d).content;
    let k = between(rf, rt, d);
    assert(settled(rf.node(d).content));
    assert(settled(rt.node(d).content));
    lemma_range_slab(rf, rt, d);
    lemma_end_at(rf, d);
    lemma_end_at(rt, d);
    lemma_part_before_last(rf);
    lemma_part_after_last(rt);
    lemma_node_is_parent(rf, d);
    let before = part_before_content(rf);
    let upto = part_before_content(rt);
    let after = part_after_content(rt);
    assert(cut_content(c, 0, rf.parent_offset()) == before);
    assert(cut_content(c, rt.parent_offset(), content_size(c)) == after);
    lemma_append_is_adding(before, k);
    lemma_part_after_merged(rt);
    lemma_append_is_adding(upto, after);
    if rt.text_offset() > 0 {
        lemma_rejoin_children(c, rt.index(d) as int, rt.text_offset(), after);
    } else {
        lemma_append_children(c, rt.index(d) as int, after);
    }
}

/// The content between two positions in the deepest ancestor that they
/// share, open as deep as the positions lie below that ancestor.
pub open spec fn slice_between(rf: PosView, rt: PosView, d: int) -> SliceView {
    SliceView {
        content: between(rf, rt, d),
        open_start: (rf.depth() - d) as nat,
        open_end: (rt.depth() - d) as nat,
    }
}

/// Replacing the range between two positions by the content between them
/// gives the deepest ancestor that the two share as it is.
pub proof fn lemma_replace_shared_back(rf: PosView, rt: PosView, d: int)
    requires
        range_in(rf, rt, d),
        slice_between(rf, rt, d).well_formed(),
        content_size(between(rf, rt, d)) > 0,
    ensures
        replace_outer(rf, rt, slice_between(rf, rt, d), d) == Ok::<NodeView, ReplaceError>(
            rf.node(d),
        ),
{
    let slice = slice_between(rf, rt, d);
    let node = rf.node(d);
    assert(settled(rf.node(d).content) && rf.node(d).kind.accepts(rf.node(d).content));
    assert(close(node, node.content) == Ok::<NodeView, ReplaceError>(node));
    if rf.depth() == d && rt.depth() == d {
        lemma_flat_back(rf, rt);
        assert(rf.parent() == node);
    } else {
        assert forall|j: int| 0 <= j <= d implies (#[trigger] rf.path[j]).node.kind.parent() by {
            lemma_node_is_parent(rf, j);
        }
        lemma_wrapped_size(rf, slice.content, d, 0);
        lemma_opens_left_size(slice.content, slice.open_start);
        lemma_three_way_back(rf, rt, d);
        let n = prepared(slice, rf);
        assert(n == wrapped(rf, between(rf, rt, d), d, 0));
    }
}

/// Replacing the range between two positions by the content between them
/// gives every ancestor that the two share as it is.
pub proof fn lemma_replace_outer_back(rf: PosView, rt: PosView, d: int, depth: int)
    requires
        range_in(rf, rt, d),
        slice_between(rf, rt, d).well_formed(),
        content_size(between(rf, rt, d)) > 0,
        0 <= depth <= d,
        forall|j: int| 0 <= j < d ==> #[trigger] rf.index(j) == rt.index(j),
    ensures
        replace_outer(rf, rt, slice_between(rf, rt, d), depth) == Ok::<NodeView, ReplaceError>(
            rf.node(depth),
        ),
    decreases d - depth,
{
    if depth < d {
        let node = rf.node(depth);
        assert(rf.index(depth) == rt.index(depth));
        assert(entry_links(rf.path, rf.pos, depth));
        lemma_replace_outer_back(rf, rt, d, depth + 1);
        assert(node.content.update(rf.index(depth) as int, rf.node(depth + 1)) =~= node.content);
    } else {
        lemma_replace_shared_back(rf, rt, d);
    }
}

/// No ancestor below the shared depth spans the other position.
pub proof fn lemma_shared_deepest(rp: PosView, pos: nat, d: nat, k: int)
    requires
        rp.shared_from(pos, d) < k <= d,
    ensures
        !(rp.start(k) <= pos <= rp.end(k)),
    decreases d,
{
    if d > 0 && k < d {
        lemma_shared_deepest(rp, pos, (d - 1) as nat, k);
    }
}

/// True when the ends of the range split no surrogate pair, and the content
/// of every ancestor of either end, from the deepest ancestor that the two
/// share down, is settled and accepted by the ancestor.
pub open spec fn settled_around(doc: NodeView, from: nat, to: nat) -> bool {
    let rf = resolve(doc, from);
    let rt = resolve(doc, to);
    let d = rf.shared_depth(to) as int;
    &&& rf.on_boundary()
    &&& rt.on_boundary()
    &&& spine_settled(rf, d)
    &&& spine_settled(rt, d)
}

/// The two ends of a range of a document share their ancestors down to
/// the shared depth, and no deeper ancestor of one spans the other.
pub proof fn lemma_range_in(doc: NodeView, from: nat, to: nat)
    requires
        doc.kind.parent(),
        from < to <= content_size(doc.content),
        settled_around(doc, from, to),
    ensures
        range_in(resolve(doc, from), resolve(doc, to), resolve(doc, from).shared_depth(to) as int),
        forall|j: int|
            0 <= j < resolve(doc, from).shared_depth(to) ==> #[trigger] resolve(doc, from).index(j)
                == resolve(doc, to).index(j),
{
    let rf = resolve(doc, from);
    let rt = resolve(doc, to);
    let d = rf.shared_depth(to) as int;
    lemma_resolve(doc, from);
    lemma_resolve(doc, to);
    lemma_shared_from(rf, to, rf.depth());
    lemma_resolve_shares(doc, from, to, d);
    assert forall|j: int| 0 <= j < d implies #[trigger] rf.index(j) == rt.index(j) by {
        assert(rt.path[j] == rf.path[j]);
    }
    if rf.depth() > d {
        lemma_shared_deepest(rf, to, rf.depth(), d + 1);
        assert(entry_leads(rf.path, 0, from, d + 1));
        lemma_path_nests(rf.path, 0, from, d);
    }
    if rt.depth() > d && from >= rt.start(d + 1) {
        assert(entry_leads(rt.path, 0, to, d + 1));
        lemma_path_nests(rt.path, 0, to, d);
        lemma_resolve_shares(doc, to, from, d + 1);
        lemma_shared_deepest(rf, to, rf.depth(), d + 1);
    }
}

/// Replacing goes down to the innermost parent of a position and gives
/// every ancestor on the way as it is, where nothing is replaced by
/// nothing, the content of the innermost parent is settled and valid, and
/// the position splits no surrogate pair.
pub proof fn lemma_replace_outer_same(rp: PosView, depth: int)
    requires
        rp.well_formed(),
        rp.on_boundary(),
        rp.node(0).kind.parent(),
        0 <= depth <= rp.depth(),
        settled(rp.parent().content),
        rp.parent().kind.accepts(rp.parent().content),
    ensures
        replace_outer(rp, rp, SliceView::empty(), depth) == Ok::<
            NodeView,
            ReplaceError,
        >(rp.node(depth)),
    decreases rp.depth() - depth,
{
    let node = rp.node(depth);
    assert(node.kind.parent()) by {
        if depth > 0 {
            assert(entry_links(rp.path, rp.pos, depth - 1));
        }
    }
    assert(content_size(Seq::<NodeView>::empty()) == 0);
    if depth < rp.depth() {
        assert(entry_links(rp.path, rp.pos, depth));
        lemma_replace_outer_same(rp, depth + 1);
        assert(node.content.update(rp.index(depth) as int, rp.node(depth + 1)) =~= node.content);
    } else {
        lemma_two_way_same(rp);
    }
}

/// Replacing an empty range of a document by the empty slice gives the
/// document, where the content around the position is settled and valid
/// and the position splits no surrogate pair.
pub proof fn lemma_replace_nothing(doc: NodeView, pos: usize)
    requires
        doc.kind.parent(),
        pos <= content_size(doc.content),
        resolve(doc, pos as nat).on_boundary(),
        settled(resolve(doc, pos as nat).parent().content),
        resolve(doc, pos as nat).parent().kind.accepts(resolve(doc, pos as nat).parent().content),
    ensures
        replace_doc(doc, pos, pos, SliceView::empty()) == Ok::<
            NodeView,
            ReplaceError,
        >(doc),
{
    lemma_resolve(doc, pos as nat);
    lemma_replace_outer_same(resolve(doc, pos as nat), 0);
}

/// Replacing a range of a document by the slice of that range gives the
/// document, where the ends of the range split no surrogate pair and the
/// content of the nodes around them is settled and valid.
pub proof fn lemma_replace_own_slice(doc: NodeView, from: usize, to: usize)
    requires
        doc.kind.parent(),
        from <= to <= content_size(doc.content),
        settled_around(doc, from as nat, to as nat),
    ensures
        replace_doc(doc, from, to, slice_of(doc, from as nat, to as nat, false)) == Ok::<
            NodeView,
            ReplaceError,
        >(doc),
{
    let rf = resolve(doc, from as nat);
    let rt = resolve(doc, to as nat);
    let d = rf.shared_depth(to as nat) as int;
    lemma_resolve(doc, from as nat);
    if from < to {
        lemma_range_in(doc, from as nat, to as nat);
        lemma_slice_of_well_formed(doc, from as nat, to as nat, false);
        lemma_slice_of_size_exact(doc, from as nat, to as nat, false);
        assert(slice_of(doc, from as nat, to as nat, false) == slice_between(rf, rt, d));
        lemma_replace_outer_back(rf, rt, d, 0);
    } else {
        let depth = rf.depth() as int;
        assert(entry_leads(rf.path, 0, from as nat, depth));
        assert(d == depth);
        assert(settled(rf.node(depth).content) && rf.node(depth).kind.accepts(
            rf.node(depth).content,
        ));
        lemma_replace_nothing(doc, from);
    }
}

/// True when the node and every node below it holds settled content that
/// its type accepts.
pub open spec fn kept(node: NodeView) -> bool
    decreases node,
{
    &&& settled(node.content)
    &&& node.kind.accepts(node.content)
    &&& forall|i: int|
        0 <= i < node.content.len() ==> kept(#[trigger] node.content[i])
}

/// Every ancestor of a position in a kept document is kept.
pub proof fn lemma_kept_ancestors(rp: PosView, d: int)
    requires
        rp.well_formed(),
        kept(rp.node(0)),
        0 <= d <= rp.depth(),
    ensures
        kept(rp.node(d)),
    decreases d,
{
    if d > 0 {
        lemma_kept_ancestors(rp, d - 1);
        assert(entry_leads(rp.path, 0, rp.pos, d - 1));
        assert(entry_links(rp.path, rp.pos, d - 1));
        assert(kept(rp.node(d - 1).content[rp.index(d - 1) as int]));
    }
}

/// Replacing a range of a kept document by the slice of that range gives
/// the document, where the ends of the range split no surrogate pair.
pub proof fn lemma_replace_own_slice_kept(doc: NodeView, from: usize, to: usize)
    requires
        doc.kind.parent(),
        kept(doc),
        from <= to <= content_size(doc.content),
        resolve(doc, from as nat).on_boundary(),
        resolve(doc, to as nat).on_boundary(),
    ensures
        replace_doc(doc, from, to, slice_of(doc, from as nat, to as nat, false)) == Ok::<
            NodeView,
            ReplaceError,
        >(doc),
{
    let rf = resolve(doc, from as nat);
    let rt = resolve(doc, to as nat);
    lemma_resolve(doc, from as nat);
    lemma_resolve(doc, to as nat);
    assert forall|d: int| 0 <= d <= rf.depth() implies settled((#[trigger] rf.node(d)).content)
        && rf.node(d).kind.accepts(rf.node(d).content) by {
        lemma_kept_ancestors(rf, d);
    }
    assert forall|d: int| 0 <= d <= rt.depth() implies settled((#[trigger] rt.node(d)).content)
        && rt.node(d).kind.accepts(rt.node(d).content) by {
        lemma_kept_ancestors(rt, d);
    }
    lemma_replace_own_slice(doc, from, to);
}

} // verus!
