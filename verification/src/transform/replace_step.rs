//! The steps that replace a range of a document.

use super::step::{replaced, step_result, StepError, StepResult};
use super::util::Span;
use crate::markdown::MarkdownNode;
use crate::model::joining::{insert_at, replace_doc};
use crate::model::node::slice_error;
use crate::model::position::{resolve, PosView};
use crate::model::resolved_pos::ResolveErr;
use crate::model::slice::{slice_of, Slice};
use crate::model::view::{content_size, NodeView};
use vstd::prelude::*;
use vstd::std_specs::cmp::PartialEqSpecImpl;

verus! {

/// Replace some part of the document
#[derive(Debug)]
pub struct ReplaceStep {
    /// The affected span
    pub span: Span,
    /// The slice to replace the current content with
    pub slice: Slice,
    /// Whether this is a structural change
    pub structure: bool,
}

/// Replace the document structure while keeping some content
#[derive(Debug)]
pub struct ReplaceAroundStep {
    /// The affected part of the document
    pub span: Span,
    /// Start of the gap
    pub gap_from: usize,
    /// End of the gap
    pub gap_to: usize,
    /// The inner slice
    pub slice: Slice,
    /// The offset into the inner slice at which the gap is put in
    pub insert: usize,
    /// Whether this is a structural change
    pub structure: bool,
}

/// The distance and the depth that are left after leaving, from `depth`
/// upwards, every ancestor of the position that ends right after it: each
/// such ancestor takes one token of the distance.
pub open spec fn climb(rp: PosView, dist: nat, depth: nat) -> (nat, nat)
    decreases depth,
{
    if dist > 0 && depth > 0 && rp.index_after(depth as int) == rp.node(depth as int).content.len() {
        climb(rp, (dist - 1) as nat, (depth - 1) as nat)
    } else {
        (dist, depth)
    }
}

/// True when a leaf, or the end of a node, lies within `dist` tokens down
/// the first children from the node `next`.
pub open spec fn leaf_within(next: Option<NodeView>, dist: nat) -> bool
    decreases dist,
{
    if dist == 0 {
        false
    } else {
        match next {
            None => true,
            Some(c) => if c.is_leaf() {
                true
            } else {
                leaf_within(
                    if c.content.len() > 0 {
                        Some(c.content[0])
                    } else {
                        None
                    },
                    (dist - 1) as nat,
                )
            },
        }
    }
}

/// True when there is content between the two positions of the document:
/// when the tokens between them are not only closing tokens of the
/// ancestors of `from` followed by opening tokens of the nodes after it.
pub open spec fn has_content_between(doc: NodeView, from: nat, to: nat) -> bool {
    let rp = resolve(doc, from);
    let left = climb(rp, (to - from) as nat, rp.depth());
    let dist = left.0;
    let depth = left.1 as int;
    let after = rp.index_after(depth);
    dist > 0 && leaf_within(
        if after < rp.node(depth).content.len() {
            Some(rp.node(depth).content[after as int])
        } else {
            None
        },
        dist,
    )
}

/// What applying a replace step gives: a structural step must not
/// overwrite content, and then the range is replaced by the slice.
pub open spec fn replace_step(doc: NodeView, step: ReplaceStep) -> Result<NodeView, StepError> {
    if step.structure && step.span.from > content_size(doc.content) {
        Err(StepError::Resolve(ResolveErr::RangeError { pos: step.span.from }))
    } else if step.structure && has_content_between(
        doc,
        step.span.from as nat,
        step.span.to as nat,
    ) {
        Err(StepError::WouldOverwrite)
    } else {
        replaced(replace_doc(doc, step.span.from, step.span.to, step.slice@))
    }
}

/// What applying a replace-around step gives: a structural step must not
/// overwrite content on either side of the gap; the gap has to be a flat
/// range of the document; and the range is replaced by the slice of the
/// step with the content of the gap put in.
pub open spec fn replace_around_step(doc: NodeView, step: ReplaceAroundStep) -> Result<
    NodeView,
    StepError,
> {
    if step.structure && step.span.from > content_size(doc.content) {
        Err(StepError::Resolve(ResolveErr::RangeError { pos: step.span.from }))
    } else if step.structure && has_content_between(
        doc,
        step.span.from as nat,
        step.gap_from as nat,
    ) {
        Err(StepError::GapWouldOverwrite)
    } else if step.structure && step.gap_to > content_size(doc.content) {
        Err(StepError::Resolve(ResolveErr::RangeError { pos: step.gap_to }))
    } else if step.structure && has_content_between(doc, step.gap_to as nat, step.span.to as nat) {
        Err(StepError::GapWouldOverwrite)
    } else {
        match slice_error(doc, step.gap_from, step.gap_to) {
            Some(e) => Err(StepError::Slice(e)),
            None => {
                let gap = slice_of(doc, step.gap_from as nat, step.gap_to as nat, false);
                if gap.open_start != 0 || gap.open_end != 0 {
                    Err(StepError::GapNotFlat)
                } else {
                    match insert_at(step.slice@, step.insert as nat, gap.content) {
                        Err(e) => Err(StepError::Insert(e)),
                        Ok(None) => Err(StepError::GapNotFit),
                        Ok(Some(inserted)) => replaced(
                            replace_doc(doc, step.span.from, step.span.to, inserted),
                        ),
                    }
                }
            },
        }
    }
}

impl ReplaceStep {
    /// Applies this step to the given document. The span must not end before it
    /// starts, the document has to be a parent node, the slice has to have nodes of
    /// its open depths at its sides, and the document and the slice together must take
    /// no more than an eighth of the address space.
    pub fn apply(&self, doc: &MarkdownNode) -> (r: StepResult)
        requires
            self.span.from <= self.span.to,
            doc@.kind.parent(),
            self.slice@.well_formed(),
            content_size(doc@.content) + content_size(self.slice@.content) <= usize::MAX / 8,
        ensures
            step_result(r) == replace_step(doc@, *self),
    {
        let from: usize = self.span.from;
        let to: usize = self.span.to;
        if self.structure {
            match content_between(doc, from, to) {
                Ok(between) => {
                    if between {
                        return Err(StepError::WouldOverwrite);
                    }
                },
                Err(e) => {
                    return Err(StepError::Resolve(e));
                },
            }
        }
        match doc.replace(from..to, &self.slice) {
            Ok(node) => Ok(node),
            Err(e) => Err(StepError::Replace(e)),
        }
    }
}

impl ReplaceAroundStep {
    /// Applies this step to the given document. The gap must lie within the span, the
    /// document has to be a parent node, the slice has to have nodes of its open depths at
    /// its sides, and the document and the slice together must take no more than a
    /// sixteenth of the address space. The gap is put in between the open sides of the
    /// slice, or past the end of the slice, which is an error; it must not be put into the
    /// open end.
    pub fn apply(&self, doc: &MarkdownNode) -> (r: StepResult)
        requires
            self.span.from <= self.gap_from,
            self.gap_from <= self.gap_to,
            self.gap_to <= self.span.to,
            doc@.kind.parent(),
            self.slice@.well_formed(),
            self.insert + self.slice.open_start <= usize::MAX,
            self.insert + self.slice.open_start > content_size(self.slice@.content) || self.insert
                + self.slice.open_start + self.slice.open_end <= content_size(
                self.slice@.content,
            ),
            content_size(doc@.content) + content_size(self.slice@.content) <= usize::MAX / 16,
        ensures
            step_result(r) == replace_around_step(doc@, *self),
    {
        if self.structure {
            match content_between(doc, self.span.from, self.gap_from) {
                Ok(between) => {
                    if between {
                        return Err(StepError::GapWouldOverwrite);
                    }
                },
                Err(e) => {
                    return Err(StepError::Resolve(e));
                },
            }
            match content_between(doc, self.gap_to, self.span.to) {
                Ok(between) => {
                    if between {
                        return Err(StepError::GapWouldOverwrite);
                    }
                },
                Err(e) => {
                    return Err(StepError::Resolve(e));
                },
            }
        }
        let gap = match doc.slice(self.gap_from..self.gap_to, false) {
            Ok(s) => s,
            Err(e) => {
                return Err(StepError::Slice(e));
            },
        };
        if gap.open_start != 0 || gap.open_end != 0 {
            return Err(StepError::GapNotFlat);
        }
        proof {
            if self.gap_from == self.gap_to {
                assert(content_size(Seq::<NodeView>::empty()) == 0);
            } else {
                crate::model::joining::lemma_slice_of_size(
                    doc@,
                    self.gap_from as nat,
                    self.gap_to as nat,
                    false,
                );
            }
            crate::model::joining::lemma_insert_into_size(
                self.slice@.content,
                (self.insert + self.slice.open_start) as nat,
                gap@.content,
                None,
            );
            if self.insert + self.slice.open_start > content_size(self.slice@.content) {
                crate::model::joining::lemma_insert_at_past_end(
                    self.slice@,
                    self.insert as nat,
                    gap@.content,
                );
            } else {
                crate::model::joining::lemma_insert_at_well_formed(
                    self.slice@,
                    self.insert as nat,
                    gap@.content,
                );
            }
        }
        let inserted = match self.slice.insert_at(self.insert, gap.content) {
            Ok(s) => s,
            Err(e) => {
                return Err(StepError::Insert(e));
            },
        };
        let inserted = match inserted {
            Some(s) => s,
            None => {
                return Err(StepError::GapNotFit);
            },
        };
        match doc.replace(self.span.from..self.span.to, &inserted) {
            Ok(node) => Ok(node),
            Err(e) => Err(StepError::Replace(e)),
        }
    }
}

/// True when there is content between the two positions of the document.
/// The first position must not lie after the second.
#[verifier::loop_isolation(false)]
pub fn content_between(doc: &MarkdownNode, from: usize, to: usize) -> (r: Result<bool, ResolveErr>)
    requires
        from <= to,
    ensures
        from > content_size(doc@.content) ==> r == Err::<bool, ResolveErr>(
            ResolveErr::RangeError { pos: from },
        ),
        from <= content_size(doc@.content) ==> r == Ok::<bool, ResolveErr>(
            has_content_between(doc@, from as nat, to as nat),
        ),
{
    let rp_from = match doc.resolve(from) {
        Ok(rp) => rp,
        Err(e) => {
            return Err(e);
        },
    };
    let mut dist: usize = to - from;
    let mut depth: usize = rp_from.depth();
    while dist > 0 && depth > 0 && rp_from.index_after(depth) == rp_from.node(depth).child_count()
        invariant
            depth <= rp_from@.depth(),
            climb(rp_from@, (to - from) as nat, rp_from@.depth()) == climb(
                rp_from@,
                dist as nat,
                depth as nat,
            ),
        decreases depth,
    {
        depth = depth - 1;
        dist = dist - 1;
    }
    if dist > 0 {
        let mut next = rp_from.node(depth).maybe_child(rp_from.index_after(depth));
        let ghost start = match next {
            Some(c) => Some(c@),
            None => None,
        };
        let ghost total = dist as nat;
        while dist > 0
            invariant
                leaf_within(start, total) == leaf_within(
                    match next {
                        Some(c) => Some(c@),
                        None => None,
                    },
                    dist as nat,
                ),
            decreases dist,
        {
            match next {
                Some(c) => {
                    if c.is_leaf() {
                        return Ok(true);
                    } else {
                        next = c.first_child();
                        dist = dist - 1;
                    }
                },
                None => {
                    return Ok(true);
                },
            }
        }
    }
    Ok(false)
}

impl PartialEq for ReplaceStep {
    fn eq(&self, other: &Self) -> (r: bool) {
        self.span == other.span && self.structure == other.structure && self.slice.same(
            &other.slice,
        )
    }
}

impl PartialEqSpecImpl for ReplaceStep {
    open spec fn obeys_eq_spec() -> bool {
        true
    }

    open spec fn eq_spec(&self, other: &Self) -> bool {
        self.span == other.span && self.structure == other.structure && self.slice@
            == other.slice@
    }
}

impl Eq for ReplaceStep {

}

impl PartialEq for ReplaceAroundStep {
    fn eq(&self, other: &Self) -> (r: bool) {
        self.span == other.span && self.gap_from == other.gap_from && self.gap_to == other.gap_to
            && self.insert == other.insert && self.structure == other.structure
            && self.slice.same(&other.slice)
    }
}

impl PartialEqSpecImpl for ReplaceAroundStep {
    open spec fn obeys_eq_spec() -> bool {
        true
    }

    open spec fn eq_spec(&self, other: &Self) -> bool {
        self.span == other.span && self.gap_from == other.gap_from && self.gap_to == other.gap_to
            && self.insert == other.insert && self.structure == other.structure && self.slice@
            == other.slice@
    }
}

impl Eq for ReplaceAroundStep {

}

} // verus!
