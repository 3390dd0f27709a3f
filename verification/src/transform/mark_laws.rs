//! Laws of the steps that change the marks of all the content of a node.

use super::mark_step::{
    free_of_mark, lemma_add_remove_content, lemma_mark_accepts, lemma_mark_content,
    lemma_remove_frees, mark_content, mark_step, marks_in_order, marks_on_text, MarkChange,
};
use super::step::StepError;
use super::util::Span;
use crate::markdown::marks::MarkView;
use crate::model::cut::cut_content;
use crate::model::identity::lemma_node_is_parent;
use crate::model::joining::{replace_doc, replace_outer, replace_range};
use crate::model::position::{
    entry_leads, entry_links, lemma_path_within, lemma_resolve, lemma_resolve_path_inside,
    lemma_resolve_shares, resolve, resolve_path, PathEntry, PosView,
};
use crate::model::replace::ReplaceError;
use crate::model::slice::{slice_of, SliceView};
use crate::model::view::{
    append_content, content_size, lemma_content_size_update, node_size, size_upto, NodeView,
};
use vstd::prelude::*;

verus! {

/// The span of the content of the innermost parent of a position.
pub open spec fn parent_span(rp: PosView) -> Span {
    Span { from: rp.start(rp.depth() as int) as usize, to: rp.end(rp.depth() as int) as usize }
}

/// The ancestor at depth `k` of a position, with the node `inner` in the
/// place of the innermost parent of the position.
pub open spec fn rebuilt(rp: PosView, k: int, inner: NodeView) -> NodeView
    decreases rp.depth() - k,
{
    if k >= rp.depth() {
        inner
    } else {
        let n = rp.node(k);
        n.with_content(n.content.update(rp.index(k) as int, rebuilt(rp, k + 1, inner)))
    }
}

/// True when the position `from` stands at the start of the content of its
/// innermost parent in the document, and that parent has content, which it
/// accepts.
pub open spec fn at_parent_start(doc: NodeView, from: nat) -> bool {
    let rp = resolve(doc, from);
    &&& doc.kind.parent()
    &&& from <= content_size(doc.content) <= usize::MAX
    &&& from == rp.start(rp.depth() as int)
    &&& content_size(rp.parent().content) > 0
    &&& rp.parent().kind.accepts(rp.parent().content)
}

/// The end of the content of the innermost parent of a position lies in
/// that parent, after all its children, and in the same ancestors.
pub proof fn lemma_parent_end(doc: NodeView, from: nat)
    requires
        at_parent_start(doc, from),
    ensures
        ({
            let rf = resolve(doc, from);
            let d = rf.depth() as int;
            let to = rf.end(d);
            let rt = resolve(doc, to);
            &&& rf.well_formed()
            &&& rf.node(0) == doc
            &&& rf.node(d) == rf.parent()
            &&& from < to <= content_size(doc.content)
            &&& rt.depth() == d
            &&& rt.node(d) == rf.node(d)
            &&& rt.start(d) == rf.start(d)
            &&& rt.pos == to
            &&& rf.pos == from
            &&& rf.shared_depth(to) == d
            &&& forall|k: int| 0 <= k < d ==> #[trigger] rt.index(k) == rf.index(k)
        }),
{
    let rf = resolve(doc, from);
    let d = rf.depth() as int;
    let to = rf.end(d);
    let rt = resolve(doc, to);
    let n = rf.node(d);
    lemma_resolve(doc, from);
    lemma_path_within(rf.path, 0, from, d);
    lemma_resolve_shares(doc, from, to, d);
    let tail = resolve_path(n, content_size(n.content), rf.start(d));
    assert(tail =~= seq![
        PathEntry { node: n, index: n.content.len(), before: rf.start(d) + content_size(n.content) },
    ]);
    assert(rt.path.len() == d + 1);
    assert(rt.path[d] == tail[0]);
    assert forall|k: int| 0 <= k < d implies #[trigger] rt.index(k) == rf.index(k) by {
        assert(rt.path[k] == rf.path[k]);
    }
}

/// Replacing all the content of the innermost parent of a position by
/// content of the same size that the parent accepts gives, at every depth,
/// the ancestor with the parent around the new content.
pub proof fn lemma_replace_parent_content(
    rf: PosView,
    rt: PosView,
    content: Seq<NodeView>,
    k: int,
)
    requires
        rf.well_formed(),
        0 <= k <= rf.depth(),
        rt.depth() == rf.depth(),
        rt.node(rf.depth() as int) == rf.node(rf.depth() as int),
        rf.node(rf.depth() as int) == rf.parent(),
        rt.node(rf.depth() as int) == rt.parent(),
        rf.pos == rf.start(rf.depth() as int),
        rt.pos == rf.end(rf.depth() as int),
        rt.start(rf.depth() as int) == rf.start(rf.depth() as int),
        forall|j: int| 0 <= j < rf.depth() ==> #[trigger] rt.index(j) == rf.index(j),
        content_size(content) > 0,
        content_size(rf.parent().content) > 0,
        rf.parent().kind.accepts(content),
    ensures
        replace_outer(
            rf,
            rt,
            SliceView { content, open_start: 0, open_end: 0 },
            k,
        ) == Ok::<NodeView, ReplaceError>(rebuilt(rf, k, rf.parent().with_content(content))),
    decreases rf.depth() - k,
{
    let d = rf.depth() as int;
    let slice = SliceView { content, open_start: 0, open_end: 0 };
    if k < d {
        assert(rt.index(k) == rf.index(k));
        lemma_replace_parent_content(rf, rt, content, k + 1);
    } else {
        let c = rf.parent().content;
        let empty = Seq::<NodeView>::empty();
        assert(cut_content(c, 0, 0) == empty);
        assert(cut_content(c, content_size(c), content_size(c)) == empty);
        assert(append_content(empty, content) == content);
        assert(append_content(content, empty) == content);
        assert(rf.parent_offset() == 0);
        assert(rt.parent_offset() == content_size(c));
    }
}

/// A step that changes marks over all the content of the innermost parent
/// of a position gives the document with that parent around the content
/// with the change made.
pub proof fn lemma_mark_parent(doc: NodeView, from: nat, change: MarkChange)
    requires
        at_parent_start(doc, from),
    ensures
        mark_step(doc, parent_span(resolve(doc, from)), change) == Ok::<NodeView, StepError>(
            rebuilt(
                resolve(doc, from),
                0,
                resolve(doc, from).parent().with_content(
                    mark_content(
                        resolve(doc, from).parent().content,
                        resolve(doc, from).parent().kind,
                        change,
                    ),
                ),
            ),
        ),
{
    let rf = resolve(doc, from);
    let d = rf.depth() as int;
    let to = rf.end(d);
    let rt = resolve(doc, to);
    let n = rf.parent();
    let c = n.content;
    let marked = mark_content(c, n.kind, change);
    lemma_parent_end(doc, from);
    lemma_mark_content(c, n.kind, change, c.len());
    lemma_mark_accepts(c, n.kind, change);
    let slice = SliceView { content: marked, open_start: 0, open_end: 0 };
    assert(slice_of(doc, from, to, false) == (SliceView { content: c, open_start: 0, open_end: 0 }));
    lemma_replace_parent_content(rf, rt, marked, 0);
    assert(replace_range(rf, rt, slice) == replace_outer(rf, rt, slice, 0));
    assert(replace_doc(doc, from as usize, to as usize, slice) == replace_range(rf, rt, slice));
}

/// True when the node is a parent of the size of the innermost parent of
/// the position.
pub open spec fn stands_for_parent(rp: PosView, inner: NodeView) -> bool {
    inner.kind.parent() && !inner.is_text() && node_size(inner) == node_size(rp.parent())
}

/// Another node of the same size in the place of the innermost parent of a
/// position keeps the sizes of the ancestors of the position.
pub proof fn lemma_rebuilt_size(rp: PosView, k: int, inner: NodeView)
    requires
        rp.well_formed(),
        rp.node(0).kind.parent(),
        0 <= k <= rp.depth(),
        stands_for_parent(rp, inner),
    ensures
        node_size(rebuilt(rp, k, inner)) == node_size(rp.node(k)),
        rebuilt(rp, k, inner).kind.parent(),
        !rebuilt(rp, k, inner).is_text(),
        content_size(rebuilt(rp, k, inner).content) + 2 == node_size(rp.node(k)),
        k < rp.depth() ==> rebuilt(rp, k, inner).content == rp.node(k).content.update(
            rp.index(k) as int,
            rebuilt(rp, k + 1, inner),
        ),
    decreases rp.depth() - k,
{
    lemma_node_is_parent(rp, k);
    if k < rp.depth() {
        lemma_rebuilt_size(rp, k + 1, inner);
        assert(entry_leads(rp.path, 0, rp.pos, k));
        assert(entry_links(rp.path, rp.pos, k));
        lemma_content_size_update(
            rp.node(k).content,
            rp.index(k) as int,
            rebuilt(rp, k + 1, inner),
        );
    }
}

/// The way that leads to the start of the content of the innermost parent
/// of a position leads there too when another node of the same size stands
/// in the place of that parent: through the ancestors with that node in
/// them, by the same indices.
pub proof fn lemma_rebuilt_path(doc: NodeView, from: nat, k: int, inner: NodeView)
    requires
        at_parent_start(doc, from),
        0 <= k <= resolve(doc, from).depth(),
        stands_for_parent(resolve(doc, from), inner),
    ensures
        ({
            let rp = resolve(doc, from);
            resolve_path(rebuilt(rp, k, inner), (from - rp.start(k)) as nat, rp.start(k))
                == Seq::new(
                (rp.depth() - k + 1) as nat,
                |j: int|
                    PathEntry {
                        node: rebuilt(rp, k + j, inner),
                        index: rp.index(k + j),
                        before: rp.path[k + j].before,
                    },
            )
        }),
    decreases resolve(doc, from).depth() - k,
{
    let rp = resolve(doc, from);
    let d = rp.depth() as int;
    lemma_resolve(doc, from);
    let target = Seq::new(
        (d - k + 1) as nat,
        |j: int|
            PathEntry {
                node: rebuilt(rp, k + j, inner),
                index: rp.index(k + j),
                before: rp.path[k + j].before,
            },
    );
    assert(entry_leads(rp.path, 0, from, k));
    if k == d {
        lemma_resolve_shares(doc, from, from, d);
        let tail = resolve_path(rp.node(d), 0, rp.start(d));
        assert(tail =~= seq![PathEntry { node: rp.node(d), index: 0, before: rp.start(d) }]);
        assert(rp.path[d] == tail[0]);
        assert(resolve_path(inner, 0, rp.start(d)) =~= target);
    } else {
        let x = rebuilt(rp, k, inner);
        let y = rebuilt(rp, k + 1, inner);
        let ck = rp.node(k).content;
        let i = rp.index(k);
        let offset = (from - rp.start(k)) as nat;
        lemma_rebuilt_size(rp, k, inner);
        lemma_rebuilt_size(rp, k + 1, inner);
        assert(entry_links(rp.path, from, k));
        assert(entry_leads(rp.path, 0, from, k + 1));
        crate::model::view::lemma_size_upto_prefix(x.content, ck, i);
        assert(size_upto(x.content, i + 1) == size_upto(x.content, i) + node_size(x.content[i as int]));
        lemma_resolve_path_inside(x, offset, rp.start(k), i);
        lemma_rebuilt_path(doc, from, k + 1, inner);
        let tail = resolve_path(y, (from - rp.start(k + 1)) as nat, rp.start(k + 1));
        let head = seq![PathEntry { node: x, index: i, before: rp.path[k].before }];
        assert(head + tail =~= target);
    }
}

/// With the node that stood there before in the place of the innermost
/// parent of a position, every ancestor of the position is as it was.
pub proof fn lemma_rebuilt_same(rp: PosView, k: int)
    requires
        rp.well_formed(),
        rp.node(0).kind.parent(),
        0 <= k <= rp.depth(),
    ensures
        rebuilt(rp, k, rp.node(rp.depth() as int)) == rp.node(k),
    decreases rp.depth() - k,
{
    if k < rp.depth() {
        lemma_rebuilt_same(rp, k + 1);
        lemma_node_is_parent(rp, k);
        assert(entry_links(rp.path, rp.pos, k));
        let c = rp.node(k).content;
        assert(c.update(rp.index(k) as int, rp.node(k + 1)) =~= c);
    }
}

/// Putting a node in the place of the innermost parent goes by the
/// ancestors around that place alone: a position that leads through them
/// in a document where another node stands there gives the same.
pub proof fn lemma_rebuilt_again(rp: PosView, other: PosView, k: int, was: NodeView, inner: NodeView)
    requires
        rp.well_formed(),
        rp.node(0).kind.parent(),
        0 <= k <= rp.depth(),
        other.depth() == rp.depth(),
        stands_for_parent(rp, was),
        forall|j: int|
            0 <= j <= rp.depth() ==> #[trigger] other.node(j) == rebuilt(rp, j, was)
                && other.index(j) == rp.index(j),
    ensures
        rebuilt(other, k, inner) == rebuilt(rp, k, inner),
    decreases rp.depth() - k,
{
    if k < rp.depth() {
        lemma_rebuilt_again(rp, other, k + 1, was, inner);
        lemma_rebuilt_size(rp, k, was);
        lemma_node_is_parent(rp, k);
        assert(other.node(k) == rebuilt(rp, k, was) && other.index(k) == rp.index(k));
        let c = rp.node(k).content;
        let i = rp.index(k) as int;
        assert(entry_links(rp.path, rp.pos, k));
        assert(c.update(i, rebuilt(rp, k + 1, was)).update(i, rebuilt(rp, k + 1, inner))
            =~= c.update(i, rebuilt(rp, k + 1, inner)));
    }
}

/// Adding a mark over all the content of the innermost parent of a
/// position and removing it again over that content gives the document
/// with the mark removed from that content: the document itself, if no
/// node in the content carried a mark of that type.
pub proof fn lemma_add_remove_parent(doc: NodeView, from: nat, m: MarkView)
    requires
        at_parent_start(doc, from),
        marks_in_order(resolve(doc, from).parent().content),
    ensures
        ({
            let rp = resolve(doc, from);
            let n = rp.parent();
            let span = parent_span(rp);
            let added = rebuilt(
                rp,
                0,
                n.with_content(mark_content(n.content, n.kind, MarkChange::Add(m))),
            );
            let removed = rebuilt(
                rp,
                0,
                n.with_content(mark_content(n.content, n.kind, MarkChange::Remove(m))),
            );
            &&& mark_step(doc, span, MarkChange::Add(m)) == Ok::<NodeView, StepError>(added)
            &&& mark_step(added, span, MarkChange::Remove(m)) == Ok::<NodeView, StepError>(
                removed,
            )
            &&& free_of_mark(n.content, m.mark_type()) ==> removed == doc
            &&& marks_on_text(n.content) ==> free_of_mark(
                mark_content(n.content, n.kind, MarkChange::Remove(m)),
                m.mark_type(),
            )
        }),
{
    let rp = resolve(doc, from);
    let d = rp.depth() as int;
    let n = rp.parent();
    let c = n.content;
    let add = MarkChange::Add(m);
    let remove = MarkChange::Remove(m);
    let marked = mark_content(c, n.kind, add);
    let inner = n.with_content(marked);
    let added = rebuilt(rp, 0, inner);
    lemma_resolve(doc, from);
    lemma_node_is_parent(rp, d);
    lemma_mark_parent(doc, from, add);
    lemma_mark_content(c, n.kind, add, c.len());
    lemma_mark_accepts(c, n.kind, add);
    assert(stands_for_parent(rp, inner));
    lemma_rebuilt_size(rp, 0, inner);
    lemma_rebuilt_path(doc, from, 0, inner);
    let other = resolve(added, from);
    assert(other.depth() == d);
    assert forall|j: int| 0 <= j <= d implies #[trigger] other.node(j) == rebuilt(rp, j, inner)
        && other.index(j) == rp.index(j) && other.path[j].before == rp.path[j].before by {}
    assert(other.parent() == inner);
    assert(other.start(d) == rp.start(d));
    assert(at_parent_start(added, from));
    assert(parent_span(other) == parent_span(rp));
    lemma_mark_parent(added, from, remove);
    lemma_add_remove_content(c, n.kind, m);
    let back = n.with_content(mark_content(c, n.kind, remove));
    assert(inner.with_content(mark_content(marked, n.kind, remove)) == back);
    lemma_rebuilt_again(rp, other, 0, inner, back);
    if free_of_mark(c, m.mark_type()) {
        assert(back == n);
        lemma_rebuilt_same(rp, 0);
    }
    if marks_on_text(c) {
        lemma_remove_frees(c, n.kind, m);
    }
}

} // verus!
