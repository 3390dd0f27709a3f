//! The steps that add a mark to, or remove one from, a range of a document.

use super::step::{replaced, step_result, StepError, StepResult};
use super::util::Span;
use crate::markdown::marks::{MarkView, MarkdownMark, MarkdownMarkType};
use crate::markdown::schema::MarkdownNodeType;
use crate::markdown::MarkdownNode;
use crate::model::fragment::{nodes_view, Fragment};
use crate::model::joining::{lemma_slice_of_size, replace_doc};
use crate::model::marks::{
    lemma_marks_add_remove, lemma_marks_remove_sorted, marks_add, marks_has_type, marks_remove,
    marks_sorted, MarkSet,
};
use crate::model::node::slice_error;
use crate::markdown::content::MarkdownContentMatch;
use crate::model::position::resolve;
use crate::model::resolved_pos::ResolveErr;
use crate::model::slice::{opens_left, opens_right, slice_of, Slice, SliceView};
use crate::model::view::{content_size, lemma_size_upto_mono, node_size, size_upto, NodeView};
use std::borrow::Cow;
use vstd::prelude::*;
use vstd::std_specs::cmp::PartialEqSpecImpl;

verus! {

/// Adding a mark on some part of the document
#[derive(Debug)]
pub struct AddMarkStep {
    /// The affected part of the document
    pub span: Span,
    /// The mark to add
    pub mark: MarkdownMark,
}

/// Removing a mark on some part of the document
#[derive(Debug)]
pub struct RemoveMarkStep {
    /// The affected part of the document
    pub span: Span,
    /// The mark to remove
    pub mark: MarkdownMark,
}

/// What becomes of the marks of an inline node.
pub enum MarkChange {
    /// The mark is added where the kind of parent allows marks
    Add(MarkView),
    /// The mark of that type is removed
    Remove(MarkView),
}

impl MarkChange {
    /// The marks of an inline node in a parent of the given type after the
    /// change.
    pub open spec fn on(self, marks: Seq<MarkView>, parent: MarkdownNodeType) -> Seq<MarkView> {
        match self {
            MarkChange::Add(m) => if parent.marks_allowed() {
                marks_add(marks, m)
            } else {
                marks
            },
            MarkChange::Remove(m) => marks_remove(marks, m),
        }
    }
}

/// The node, a child of a node of type `parent`, with the change made to
/// the marks of every inline node in it and of the node itself, if it is
/// inline.
pub open spec fn mark_node(n: NodeView, parent: MarkdownNodeType, change: MarkChange) -> NodeView
    decreases n, 0nat,
{
    let inner = if n.kind.parent() {
        NodeView { content: mark_content(n.content, n.kind, change), ..n }
    } else {
        n
    };
    if inner.kind.inline() {
        inner.with_marks(change.on(inner.marks, parent))
    } else {
        inner
    }
}

/// The content of a node of type `parent` with the change made to the
/// marks of every inline node in it.
pub open spec fn mark_content(c: Seq<NodeView>, parent: MarkdownNodeType, change: MarkChange) -> Seq<
    NodeView,
>
    decreases c, 1nat,
{
    Seq::new(
        c.len(),
        |i: int|
            if 0 <= i < c.len() {
                mark_node(c[i], parent, change)
            } else {
                arbitrary()
            },
    )
}

/// A change of marks keeps the size and the type of a node.
pub proof fn lemma_mark_node(n: NodeView, parent: MarkdownNodeType, change: MarkChange)
    ensures
        node_size(mark_node(n, parent, change)) == node_size(n),
        mark_node(n, parent, change).kind == n.kind,
    decreases n, 0nat,
{
    if n.kind.parent() {
        lemma_mark_content(n.content, n.kind, change, n.content.len());
    }
}

/// A change of marks keeps the offsets of the children of a fragment.
pub proof fn lemma_mark_content(c: Seq<NodeView>, parent: MarkdownNodeType, change: MarkChange, k: nat)
    requires
        k <= c.len(),
    ensures
        size_upto(mark_content(c, parent, change), k) == size_upto(c, k),
        mark_content(c, parent, change).len() == c.len(),
    decreases c, k + 1,
{
    if k > 0 {
        lemma_mark_content(c, parent, change, (k - 1) as nat);
        lemma_mark_node(c[k - 1], parent, change);
    }
}

/// A change of marks keeps the nested parent nodes at the start of a
/// fragment.
pub proof fn lemma_mark_opens_left(c: Seq<NodeView>, parent: MarkdownNodeType, change: MarkChange, d: nat)
    requires
        opens_left(c, d),
    ensures
        opens_left(mark_content(c, parent, change), d),
    decreases d,
{
    if d > 0 {
        lemma_mark_opens_left(c[0].content, c[0].kind, change, (d - 1) as nat);
    }
}

/// A change of marks keeps the nested parent nodes at the end of a
/// fragment.
pub proof fn lemma_mark_opens_right(c: Seq<NodeView>, parent: MarkdownNodeType, change: MarkChange, d: nat)
    requires
        opens_right(c, d),
    ensures
        opens_right(mark_content(c, parent, change), d),
    decreases d,
{
    if d > 0 {
        lemma_mark_opens_right(c.last().content, c.last().kind, change, (d - 1) as nat);
    }
}

/// True when the marks of every node in the fragment stand in the order of
/// their types, as the marks of a mark set do.
pub open spec fn marks_in_order(c: Seq<NodeView>) -> bool
    decreases c,
{
    forall|i: int|
        0 <= i < c.len() ==> marks_sorted((#[trigger] c[i]).marks) && marks_in_order(c[i].content)
}

/// True when no node in the fragment carries a mark of the given type.
pub open spec fn free_of_mark(c: Seq<NodeView>, t: MarkdownMarkType) -> bool
    decreases c,
{
    forall|i: int|
        0 <= i < c.len() ==> !marks_has_type((#[trigger] c[i]).marks, t) && free_of_mark(
            c[i].content,
            t,
        )
}

/// Adding a mark to a node and removing it again gives the node with the
/// mark removed: the node itself, if no node in it carried a mark of that
/// type.
pub proof fn lemma_add_remove_node(n: NodeView, parent: MarkdownNodeType, m: MarkView)
    requires
        marks_sorted(n.marks),
        marks_in_order(n.content),
    ensures
        mark_node(mark_node(n, parent, MarkChange::Add(m)), parent, MarkChange::Remove(m))
            == mark_node(n, parent, MarkChange::Remove(m)),
        !marks_has_type(n.marks, m.mark_type()) && free_of_mark(n.content, m.mark_type())
            ==> mark_node(n, parent, MarkChange::Remove(m)) == n,
    decreases n, 0nat,
{
    lemma_marks_add_remove(n.marks, m);
    if n.kind.parent() {
        lemma_add_remove_content(n.content, n.kind, m);
    }
}

/// Adding a mark to the inline nodes of a fragment and removing it again
/// gives the fragment with the mark removed: the fragment itself, if no
/// node in it carried a mark of that type.
pub proof fn lemma_add_remove_content(c: Seq<NodeView>, parent: MarkdownNodeType, m: MarkView)
    requires
        marks_in_order(c),
    ensures
        mark_content(mark_content(c, parent, MarkChange::Add(m)), parent, MarkChange::Remove(m))
            == mark_content(c, parent, MarkChange::Remove(m)),
        free_of_mark(c, m.mark_type()) ==> mark_content(c, parent, MarkChange::Remove(m)) == c,
    decreases c, 1nat,
{
    let added = mark_content(c, parent, MarkChange::Add(m));
    let back = mark_content(added, parent, MarkChange::Remove(m));
    let removed = mark_content(c, parent, MarkChange::Remove(m));
    assert forall|i: int| 0 <= i < c.len() implies back[i] == removed[i] && (free_of_mark(
        c,
        m.mark_type(),
    ) ==> removed[i] == c[i]) by {
        assert(marks_sorted(c[i].marks) && marks_in_order(c[i].content));
        lemma_add_remove_node(c[i], parent, m);
        if free_of_mark(c, m.mark_type()) {
            assert(!marks_has_type(c[i].marks, m.mark_type()) && free_of_mark(
                c[i].content,
                m.mark_type(),
            ));
        }
    }
    assert(back =~= removed);
    if free_of_mark(c, m.mark_type()) {
        assert(removed =~= c);
    }
}

/// True when, in every node of the fragment, only a text node carries
/// marks and only a parent holds content.
pub open spec fn marks_on_text(c: Seq<NodeView>) -> bool
    decreases c,
{
    forall|i: int|
        0 <= i < c.len() ==> ((#[trigger] c[i]).is_text() || c[i].marks.len() == 0) && (
        c[i].kind.parent() || c[i].content.len() == 0) && marks_on_text(c[i].content)
}

/// Removing a mark from the text nodes of a fragment leaves no node in it
/// with a mark of that type.
pub proof fn lemma_remove_frees(c: Seq<NodeView>, parent: MarkdownNodeType, m: MarkView)
    requires
        marks_in_order(c),
        marks_on_text(c),
    ensures
        free_of_mark(mark_content(c, parent, MarkChange::Remove(m)), m.mark_type()),
    decreases c,
{
    let removed = mark_content(c, parent, MarkChange::Remove(m));
    assert forall|i: int| 0 <= i < removed.len() implies !marks_has_type(
        (#[trigger] removed[i]).marks,
        m.mark_type(),
    ) && free_of_mark(removed[i].content, m.mark_type()) by {
        let n = c[i];
        assert(marks_sorted(n.marks) && marks_in_order(n.content));
        assert((n.is_text() || n.marks.len() == 0) && (n.kind.parent() || n.content.len() == 0)
            && marks_on_text(n.content));
        assert(removed[i] == mark_node(n, parent, MarkChange::Remove(m)));
        lemma_marks_remove_sorted(n.marks, m);
        if n.kind.parent() {
            lemma_remove_frees(n.content, n.kind, m);
        } else {
            assert(free_of_mark(n.content, m.mark_type()));
        }
        if !n.is_text() {
            assert(marks_remove(n.marks, m) == n.marks);
        }
    }
}

/// What applying a step that changes marks gives: the range of the
/// document replaced by its own slice, with the change made to the marks of
/// the inline nodes in it. Whether marks may be added at the top of the
/// slice goes by the ancestor that holds the whole range.
pub open spec fn mark_step(doc: NodeView, span: Span, change: MarkChange) -> Result<
    NodeView,
    StepError,
> {
    match slice_error(doc, span.from, span.to) {
        Some(e) => Err(StepError::Slice(e)),
        None => if change is Add && span.from > content_size(doc.content) {
            Err(StepError::Resolve(ResolveErr::RangeError { pos: span.from }))
        } else {
            let old = slice_of(doc, span.from as nat, span.to as nat, false);
            let rp_from = resolve(doc, span.from as nat);
            let parent = rp_from.node(rp_from.shared_depth(span.to as nat) as int);
            replaced(
                replace_doc(
                    doc,
                    span.from,
                    span.to,
                    SliceView {
                        content: mark_content(old.content, parent.kind, change),
                        open_start: old.open_start,
                        open_end: old.open_end,
                    },
                ),
            )
        },
    }
}

/// A change of marks keeps the state that the children of a fragment lead
/// to.
pub proof fn lemma_mark_after(
    c: Seq<NodeView>,
    parent: MarkdownNodeType,
    change: MarkChange,
    state: MarkdownContentMatch,
    start: int,
    end: int,
)
    requires
        0 <= start <= end <= c.len(),
    ensures
        state.after(mark_content(c, parent, change), start, end) == state.after(c, start, end),
    decreases end - start,
{
    if start < end {
        lemma_mark_after(c, parent, change, state, start, end - 1);
        lemma_mark_node(c[end - 1], parent, change);
    }
}

/// A node that accepts its content accepts it after a change of marks.
pub proof fn lemma_mark_accepts(c: Seq<NodeView>, parent: MarkdownNodeType, change: MarkChange)
    requires
        parent.accepts(c),
    ensures
        parent.accepts(mark_content(c, parent, change)),
{
    let marked = mark_content(c, parent, change);
    lemma_mark_after(c, parent, change, parent.start(), 0, c.len() as int);
    assert forall|i: int| 0 <= i < marked.len() implies (#[trigger] marked[i]).marks.len() == 0
        || parent.marks_allowed() by {
        assert(c[i].marks.len() == 0 || parent.marks_allowed());
        assert(marked[i] == mark_node(c[i], parent, change));
    }
}

/// The fragment, the content of the node `parent`, with the mark added to
/// every inline node in it whose parent allows marks.
pub fn map_fragment_parent(fragment: &Fragment, mark: &MarkdownMark, parent: &MarkdownNode) -> (r:
    Fragment)
    ensures
        r@ == mark_content(fragment@, parent@.kind, MarkChange::Add(mark@)),
    decreases content_size(fragment@),
{
    let ghost change = MarkChange::Add(mark@);
    let ghost target = mark_content(fragment@, parent@.kind, change);
    let total: usize = fragment.size();
    let count: usize = fragment.child_count();
    let mut mapped: Vec<MarkdownNode> = Vec::new();
    let mut i: usize = 0;
    while i < count
        invariant
            0 <= i <= count,
            count == fragment@.len(),
            mapped@.len() == i,
            change == MarkChange::Add(mark@),
            target == mark_content(fragment@, parent@.kind, change),
            forall|j: int| 0 <= j < i ==> (#[trigger] mapped@[j])@ == target[j],
        decreases count - i,
    {
        let node = fragment.child(i);
        proof {
            let k = i as nat;
            assert(size_upto(fragment@, k + 1) == size_upto(fragment@, k) + node_size(node@));
            lemma_size_upto_mono(fragment@, k + 1, fragment@.len());
        }
        let mut child = match node.content() {
            Some(c) => node.with_content(map_fragment_parent(c, mark, node)),
            None => node.clone(),
        };
        if child.is_inline() {
            if parent.node_type().allows_mark_type(mark.mark_type()) {
                let empty = MarkSet::new();
                let new_marks = match child.marks() {
                    Some(m) => mark.add_to_set(Cow::Borrowed(m)),
                    None => mark.add_to_set(Cow::Owned(empty)),
                };
                let owned = match new_marks {
                    Cow::Borrowed(b) => b.clone(),
                    Cow::Owned(o) => o,
                };
                child = child.mark(owned);
            }
        }
        mapped.push(child);
        i = i + 1;
    }
    proof {
        assert(nodes_view(mapped@) =~= target);
        lemma_mark_content(fragment@, parent@.kind, change, fragment@.len());
    }
    Fragment::from(mapped)
}

/// The fragment with the mark of the type of `mark` removed from every
/// inline node in it.
pub fn map_fragment(fragment: &Fragment, mark: &MarkdownMark) -> (r: Fragment)
    ensures
        forall|parent: MarkdownNodeType|
            r@ == #[trigger] mark_content(fragment@, parent, MarkChange::Remove(mark@)),
    decreases content_size(fragment@),
{
    let ghost change = MarkChange::Remove(mark@);
    let ghost target = mark_content(fragment@, MarkdownNodeType::Doc, change);
    proof {
        lemma_unmark_any_parent(fragment@, mark@);
    }
    let total: usize = fragment.size();
    let count: usize = fragment.child_count();
    let mut mapped: Vec<MarkdownNode> = Vec::new();
    let mut i: usize = 0;
    while i < count
        invariant
            0 <= i <= count,
            count == fragment@.len(),
            mapped@.len() == i,
            change == MarkChange::Remove(mark@),
            target == mark_content(fragment@, MarkdownNodeType::Doc, change),
            forall|j: int| 0 <= j < i ==> (#[trigger] mapped@[j])@ == target[j],
        decreases count - i,
    {
        let node = fragment.child(i);
        proof {
            let k = i as nat;
            assert(size_upto(fragment@, k + 1) == size_upto(fragment@, k) + node_size(node@));
            lemma_size_upto_mono(fragment@, k + 1, fragment@.len());
        }
        let mut child = match node.content() {
            Some(c) => {
                let inner = map_fragment(c, mark);
                assert(inner@ == mark_content(c@, node@.kind, change));
                node.with_content(inner)
            },
            None => node.clone(),
        };
        if child.is_inline() {
            let empty = MarkSet::new();
            let new_marks = match child.marks() {
                Some(m) => mark.remove_from_set(Cow::Borrowed(m)),
                None => mark.remove_from_set(Cow::Owned(empty)),
            };
            let owned = match new_marks {
                Cow::Borrowed(b) => b.clone(),
                Cow::Owned(o) => o,
            };
            child = child.mark(owned);
        }
        assert(child@ == mark_node(node@, MarkdownNodeType::Doc, change));
        mapped.push(child);
        i = i + 1;
    }
    proof {
        assert(nodes_view(mapped@) =~= target);
        lemma_mark_content(fragment@, MarkdownNodeType::Doc, change, fragment@.len());
    }
    Fragment::from(mapped)
}

/// Removing a mark does not go by the type of the parent.
pub proof fn lemma_unmark_any_parent(c: Seq<NodeView>, m: MarkView)
    ensures
        forall|parent: MarkdownNodeType|
            #[trigger] mark_content(c, parent, MarkChange::Remove(m)) == mark_content(
                c,
                MarkdownNodeType::Doc,
                MarkChange::Remove(m),
            ),
{
    assert forall|parent: MarkdownNodeType|
        #[trigger] mark_content(c, parent, MarkChange::Remove(m)) == mark_content(
            c,
            MarkdownNodeType::Doc,
            MarkChange::Remove(m),
        ) by {
        assert(mark_content(c, parent, MarkChange::Remove(m)) =~= mark_content(
            c,
            MarkdownNodeType::Doc,
            MarkChange::Remove(m),
        ));
    }
}

impl AddMarkStep {
    /// Applies this step to the given document: the mark is added to every inline node
    /// between the two positions whose parent allows marks. The span must not end before
    /// it starts, the document has to be a parent node, and it must take no more than a
    /// sixteenth of the address space.
    pub fn apply(&self, doc: &MarkdownNode) -> (r: StepResult)
        requires
            self.span.from <= self.span.to,
            doc@.kind.parent(),
            content_size(doc@.content) <= usize::MAX / 16,
        ensures
            step_result(r) == mark_step(doc@, self.span, MarkChange::Add(self.mark@)),
    {
        let old_slice = match doc.slice(self.span.from..self.span.to, false) {
            Ok(s) => s,
            Err(e) => {
                return Err(StepError::Slice(e));
            },
        };
        let rp_from = match doc.resolve(self.span.from) {
            Ok(rp) => rp,
            Err(e) => {
                return Err(StepError::Resolve(e));
            },
        };
        let parent = rp_from.node(rp_from.shared_depth(self.span.to));

        let new_content = map_fragment_parent(&old_slice.content, &self.mark, parent);
        proof {
            let change = MarkChange::Add(self.mark@);
            lemma_slice_of_size(doc@, self.span.from as nat, self.span.to as nat, false);
            lemma_mark_content(
                old_slice@.content,
                parent@.kind,
                change,
                old_slice@.content.len(),
            );
            lemma_mark_opens_left(old_slice@.content, parent@.kind, change, old_slice@.open_start);
            lemma_mark_opens_right(old_slice@.content, parent@.kind, change, old_slice@.open_end);
        }

        let slice = Slice::new(new_content, old_slice.open_start, old_slice.open_end);
        match doc.replace(self.span.from..self.span.to, &slice) {
            Ok(node) => Ok(node),
            Err(e) => Err(StepError::Replace(e)),
        }
    }
}

impl RemoveMarkStep {
    /// Applies this step to the given document: the mark of the type of the step's mark is
    /// removed from every inline node between the two positions. The span must not end
    /// before it starts, the document has to be a parent node, and it must take no more
    /// than a sixteenth of the address space.
    pub fn apply(&self, doc: &MarkdownNode) -> (r: StepResult)
        requires
            self.span.from <= self.span.to,
            doc@.kind.parent(),
            content_size(doc@.content) <= usize::MAX / 16,
        ensures
            step_result(r) == mark_step(doc@, self.span, MarkChange::Remove(self.mark@)),
    {
        let old_slice = match doc.slice(self.span.from..self.span.to, false) {
            Ok(s) => s,
            Err(e) => {
                return Err(StepError::Slice(e));
            },
        };

        let new_content = map_fragment(&old_slice.content, &self.mark);
        proof {
            let change = MarkChange::Remove(self.mark@);
            let kind = resolve(doc@, self.span.from as nat).node(
                resolve(doc@, self.span.from as nat).shared_depth(self.span.to as nat) as int,
            ).kind;
            if self.span.from != self.span.to {
                lemma_slice_of_size(doc@, self.span.from as nat, self.span.to as nat, false);
            } else {
                assert(content_size(Seq::<NodeView>::empty()) == 0);
            }
            lemma_mark_content(old_slice@.content, kind, change, old_slice@.content.len());
            lemma_mark_opens_left(old_slice@.content, kind, change, old_slice@.open_start);
            lemma_mark_opens_right(old_slice@.content, kind, change, old_slice@.open_end);
        }

        let slice = Slice::new(new_content, old_slice.open_start, old_slice.open_end);
        match doc.replace(self.span.from..self.span.to, &slice) {
            Ok(node) => Ok(node),
            Err(e) => Err(StepError::Replace(e)),
        }
    }
}

impl PartialEq for AddMarkStep {
    fn eq(&self, other: &Self) -> (r: bool) {
        self.span == other.span && self.mark.same(&other.mark)
    }
}

impl PartialEqSpecImpl for AddMarkStep {
    open spec fn obeys_eq_spec() -> bool {
        true
    }

    open spec fn eq_spec(&self, other: &Self) -> bool {
        self.span == other.span && self.mark@ == other.mark@
    }
}

impl Eq for AddMarkStep {

}

impl PartialEq for RemoveMarkStep {
    fn eq(&self, other: &Self) -> (r: bool) {
        self.span == other.span && self.mark.same(&other.mark)
    }
}

impl PartialEqSpecImpl for RemoveMarkStep {
    open spec fn obeys_eq_spec() -> bool {
        true
    }

    open spec fn eq_spec(&self, other: &Self) -> bool {
        self.span == other.span && self.mark@ == other.mark@
    }
}

impl Eq for RemoveMarkStep {

}

} // verus!
