//! Replacing a range of a document by a slice.

use super::cut::{cut_content, lemma_cut_content_size};
use super::fragment::{nodes_view, Fragment};
use super::joining::{
    self, add_children, growth, join_bound, lemma_join_bound_nests, lemma_node_beside_size,
    lemma_join_prepared_size, lemma_prepared, lemma_replace_outer_size, lemma_three_way_size, lemma_two_way_size,
    lemma_wrapped_size, prepared, replace_range, wrapped,
};
use super::position::{entry_leads, entry_links, lemma_path_nests, lemma_path_within, PosView};
use super::resolved_pos::{ResolveErr, ResolvedPos};
use super::slice::{lemma_opens_left_size, lemma_opens_right_size, Slice};
use super::view::{
    self, content_size, lemma_add_node_texts_merged, lemma_append_content_size,
    lemma_content_size_one, lemma_size_upto_mono, node_size, size_upto, texts_merged, NodeView,
};
use crate::markdown::schema::MarkdownNodeType;
use crate::markdown::MarkdownNode;
use crate::util::EitherOrBoth;
use std::borrow::Cow;
use vstd::prelude::*;

verus! {


/// An error that can occur when replacing a slice
#[derive(Debug, Clone, Copy, PartialEq, Eq, Structural)]
pub enum ReplaceError {
    /// Inserted content deeper than insertion position
    InsertTooDeep,
    /// Inconsistent open depths
    InconsistentOpenDepths {
        /// Depth at the start
        from_depth: usize,
        /// How many nodes are "open" at the start
        open_start: usize,
        /// Depth at the end
        to_depth: usize,
        /// How many nodes are "open" at the end
        open_end: usize,
    },
    /// Could not resolve an index
    Resolve(ResolveErr),
    /// Cannot join {0:?} onto {1:?}
    CannotJoin(MarkdownNodeType, MarkdownNodeType),
    /// Invalid content for node {0:?}
    InvalidContent(MarkdownNodeType),
}

/// A range of the children of an ancestor: from a position on (`Left`), up
/// to a position (`Right`), or between two positions (`Both`).
pub type Range<'b, 'a> = EitherOrBoth<&'b ResolvedPos<'a>, &'b ResolvedPos<'a>>;

/// The position that a range starts after, if it has one.
pub open spec fn range_left(range: Range<'_, '_>) -> Option<PosView> {
    match range {
        EitherOrBoth::Both(a, _) => Some(a@),
        EitherOrBoth::Left(a) => Some(a@),
        EitherOrBoth::Right(_) => None,
    }
}

/// The position that a range ends before, if it has one.
pub open spec fn range_right(range: Range<'_, '_>) -> Option<PosView> {
    match range {
        EitherOrBoth::Both(_, b) => Some(b@),
        EitherOrBoth::Left(_) => None,
        EitherOrBoth::Right(b) => Some(b@),
    }
}

/// What a result with a node holds, as plain values.
pub open spec fn node_result(r: Result<MarkdownNode, ReplaceError>) -> Result<
    NodeView,
    ReplaceError,
> {
    match r {
        Ok(n) => Ok(n@),
        Err(e) => Err(e),
    }
}

/// What a result with a fragment holds, as plain values.
pub open spec fn fragment_result(r: Result<Fragment, ReplaceError>) -> Result<
    Seq<NodeView>,
    ReplaceError,
> {
    match r {
        Ok(f) => Ok(f@),
        Err(e) => Err(e),
    }
}

/// Replaces the range between two resolved positions of one document by
/// the slice. The slice has to be well-formed, the document a parent node,
/// and the sizes must leave room for the result.
pub fn replace(rp_from: &ResolvedPos, rp_to: &ResolvedPos, slice: &Slice) -> (r: Result<
    MarkdownNode,
    ReplaceError,
>)
    requires
        slice@.well_formed(),
        rp_from@.node(0) == rp_to@.node(0),
        rp_from@.node(0).kind.parent(),
        rp_from@.pos <= rp_to@.pos,
        content_size(rp_from@.node(0).content) + growth(rp_from@, slice@) + 2 <= usize::MAX,
    ensures
        node_result(r) == replace_range(rp_from@, rp_to@, slice@),
{
    let from_depth: usize = rp_from.depth();
    let to_depth: usize = rp_to.depth();
    if slice.open_start > from_depth {
        Err(ReplaceError::InsertTooDeep)
    } else if slice.open_end > to_depth || from_depth - slice.open_start != to_depth
        - slice.open_end {
        Err(
            ReplaceError::InconsistentOpenDepths {
                from_depth,
                open_start: slice.open_start,
                to_depth,
                open_end: slice.open_end,
            },
        )
    } else {
        replace_outer(rp_from, rp_to, slice, 0)
    }
}

/// Replaces the range between two resolved positions by the slice in the
/// ancestor at `depth`, above which both positions have the same ancestors.
#[verifier::rlimit(60)]
pub fn replace_outer(rp_from: &ResolvedPos, rp_to: &ResolvedPos, slice: &Slice, depth: usize) -> (r:
    Result<MarkdownNode, ReplaceError>)
    requires
        slice@.well_formed(),
        rp_from@.node(0).kind.parent(),
        slice.open_start <= rp_from@.depth(),
        rp_from@.depth() - slice.open_start == rp_to@.depth() - slice.open_end,
        depth <= rp_from@.depth() - slice.open_start,
        rp_to@.node(depth as int) == rp_from@.node(depth as int),
        content_size(rp_from@.node(0).content) == content_size(rp_to@.node(0).content),
        content_size(rp_from@.node(0).content) + growth(rp_from@, slice@) + 2 <= usize::MAX,
    ensures
        node_result(r) == joining::replace_outer(rp_from@, rp_to@, slice@, depth as int),
    decreases rp_from@.depth() - depth,
{
    let from_depth: usize = rp_from.depth();
    let to_depth: usize = rp_to.depth();
    let index: usize = rp_from.index(depth);
    let node = rp_from.node(depth);
    proof {
        assert(entry_leads(rp_from@.path, 0, rp_from@.pos, depth as int));
        assert(entry_leads(rp_to@.path, 0, rp_to@.pos, depth as int));
        lemma_path_within(rp_from@.path, 0, rp_from@.pos, depth as int);
        lemma_path_within(rp_from@.path, 0, rp_from@.pos, rp_from@.depth() as int);
        lemma_path_within(rp_to@.path, 0, rp_to@.pos, depth as int);
        lemma_replace_outer_size(rp_from@, rp_to@, slice@, depth as int);
    }
    if index == rp_to.index(depth) && depth < from_depth - slice.open_start {
        // When both `from` and `to` are in the same child and the we are not at an open node yet
        proof {
            assert(entry_links(rp_from@.path, rp_from@.pos, depth as int));
            assert(entry_links(rp_to@.path, rp_to@.pos, depth as int));
            lemma_replace_outer_size(rp_from@, rp_to@, slice@, depth + 1);
        }
        let inner = match replace_outer(rp_from, rp_to, slice, depth + 1) {
            Ok(n) => n,
            Err(e) => {
                return Err(e);
            },
        };
        match node.content() {
            Some(c) => {
                proof {
                    let i = index as nat;
                    assert(size_upto(c@, i + 1) == size_upto(c@, i) + node_size(c@[i as int]));
                    lemma_size_upto_mono(c@, i + 1, c@.len());
                }
                let content = match c.replace_child(index, inner) {
                    Cow::Borrowed(b) => b.clone(),
                    Cow::Owned(o) => o,
                };
                Ok(node.with_content(content))
            },
            None => Ok(node.clone()),
        }
    } else if slice.content.size() == 0 {
        // When we just delete content, i.e. the replacement slice is empty
        proof {
            lemma_opens_left_size(slice@.content, slice@.open_start);
            lemma_opens_right_size(slice@.content, slice@.open_end);
        }
        let content = match replace_two_way(rp_from, rp_to, depth) {
            Ok(c) => c,
            Err(e) => {
                return Err(e);
            },
        };
        close(node, content)
    } else if slice.open_start == 0 && slice.open_end == 0 && from_depth == depth && to_depth
        == depth {
        // If not parent nodes are open, and the position of both `from` and `to` is at
        // the current level:
        // Simple, flat case
        let parent = rp_from.parent();
        let empty = Fragment::new();
        let content = match parent.content() {
            Some(c) => c,
            None => &empty,
        };
        proof {
            lemma_cut_content_size(content@, 0, rp_from@.parent_offset());
            lemma_cut_content_size(content@, rp_to@.parent_offset(), content_size(content@));
            lemma_append_content_size(
                cut_content(content@, 0, rp_from@.parent_offset()),
                slice@.content,
            );
        }
        let new_content = content.cut(0..rp_from.parent_offset()).append(
            slice.content.clone(),
        ).append(content.cut(rp_to.parent_offset()..content.size()));
        close(parent, new_content)
    } else {
        proof {
            lemma_join_prepared_size(rp_from@, rp_to@, slice@, depth as int);
            lemma_prepared(slice@, rp_from@);
        }
        let (n, start, end) = prepare_slice_for_replace(slice, rp_from);
        let rp_start = match n.resolve(start) {
            Ok(rp) => rp,
            Err(e) => {
                return Err(ReplaceError::Resolve(e));
            },
        };
        let rp_end = match n.resolve(end) {
            Ok(rp) => rp,
            Err(e) => {
                return Err(ReplaceError::Resolve(e));
            },
        };
        let content = match replace_three_way(rp_from, &rp_start, &rp_end, rp_to, depth) {
            Ok(c) => c,
            Err(e) => {
                return Err(e);
            },
        };
        close(node, content)
    }
}

/// Nothing, if the content of `sub` may be joined onto that of `main`.
pub fn check_join(main: &MarkdownNode, sub: &MarkdownNode) -> (r: Result<(), ReplaceError>)
    ensures
        match joining::check_join(main@, sub@) {
            Some(e) => r == Err::<(), ReplaceError>(e),
            None => r is Ok,
        },
{
    let sub_type = sub.node_type();
    let main_type = main.node_type();
    if sub_type.compatible_content(main_type) {
        Ok(())
    } else {
        Err(ReplaceError::CannotJoin(sub_type, main_type))
    }
}

/// The ancestor of `rp_before` at `depth`, if the ancestor of `rp_after`
/// at that depth may be joined onto it.
pub fn joinable<'a>(rp_before: &ResolvedPos<'a>, rp_after: &ResolvedPos<'a>, depth: usize) -> (r:
    Result<&'a MarkdownNode, ReplaceError>)
    requires
        depth <= rp_before@.depth(),
        depth <= rp_after@.depth(),
    ensures
        match joining::check_join(
            rp_before@.node(depth as int),
            rp_after@.node(depth as int),
        ) {
            Some(e) => r == Err::<&'a MarkdownNode, ReplaceError>(e),
            None => r is Ok && r.unwrap()@ == rp_before@.node(depth as int),
        },
{
    let node = rp_before.node(depth);
    match check_join(node, rp_after.node(depth)) {
        Ok(_) => Ok(node),
        Err(e) => Err(e),
    }
}

/// Adds a node at the end of a list: merged with the last node of the
/// list, if both are text with the same marks.
pub fn add_node(child: Cow<MarkdownNode>, target: &mut Vec<MarkdownNode>)
    ensures
        nodes_view(final(target)@) == view::add_node(nodes_view(old(target)@), child@),
        texts_merged(nodes_view(old(target)@)) ==> texts_merged(nodes_view(final(target)@)),
{
    proof {
        if texts_merged(nodes_view(target@)) {
            lemma_add_node_texts_merged(nodes_view(target@), child@);
        }
    }
    let ghost before = nodes_view(target@);
    let len: usize = target.len();
    if len > 0 {
        let join = {
            let child_ref: &MarkdownNode = match &child {
                Cow::Borrowed(b) => *b,
                Cow::Owned(o) => o,
            };
            match child_ref.text_node() {
                Some(c_text) => match c_text.same_markup(&target[len - 1]) {
                    Some(l_text) => Some(c_text.with_text(l_text.text.join(&c_text.text))),
                    None => None,
                },
                None => None,
            }
        };
        if let Some(new_text_node) = join {
            target[len - 1] = MarkdownNode::new_text_node(new_text_node);
            proof {
                assert(nodes_view(target@) =~= view::add_node(before, child@));
            }
            return ;
        }
    }
    let owned = match child {
        Cow::Borrowed(b) => b.clone(),
        Cow::Owned(o) => o,
    };
    target.push(owned);
    proof {
        assert(nodes_view(target@) =~= view::add_node(before, child@));
    }
}

/// Adds the children of the ancestor at `depth` that lie in the range.
pub fn add_range(range: Range<'_, '_>, depth: usize, target: &mut Vec<MarkdownNode>)
    requires
        range_left(range) matches Some(s) ==> depth <= s.depth(),
        range_right(range) matches Some(e) ==> depth <= e.depth(),
    ensures
        nodes_view(final(target)@) == joining::add_range(
            range_left(range),
            range_right(range),
            depth as int,
            nodes_view(old(target)@),
        ),
{
    let node = range.right_or_left().node(depth);
    let mut start_index: usize = 0;
    let count: usize = node.child_count();

    let end_index: usize = if let Some(rp_end) = range.right() {
        let e_depth: usize = rp_end.depth();
        proof {
            assert(entry_leads(rp_end@.path, 0, rp_end@.pos, depth as int));
        }
        rp_end.index(depth)
    } else {
        count
    };

    if let Some(rp_start) = range.left() {
        let s_depth: usize = rp_start.depth();
        proof {
            assert(entry_leads(rp_start@.path, 0, rp_start@.pos, depth as int));
        }
        let s_count: usize = rp_start.node(depth).child_count();
        start_index = rp_start.index(depth);
        if s_depth > depth {
            proof {
                assert(entry_links(rp_start@.path, rp_start@.pos, depth as int));
            }
            start_index = start_index + 1;
        } else if rp_start.text_offset() > 0 {
            proof {
                lemma_node_beside_size(rp_start@);
            }
            add_node(rp_start.node_after().unwrap(), target);
            start_index = start_index + 1;
        }
    }
    let ghost out1 = nodes_view(target@);
    let ghost first = start_index;
    let mut i: usize = start_index;
    while i < end_index
        invariant
            first <= i,
            end_index <= count,
            count == node@.content.len(),
            i <= end_index || i == first,
            nodes_view(target@) == add_children(out1, node@.content, first as int, i as int),
        decreases end_index - i,
    {
        add_node(Cow::Borrowed(node.child(i).unwrap()), target);
        i = i + 1;
    }
    if let Some(rp_end) = range.right() {
        let e_depth: usize = rp_end.depth();
        if e_depth == depth && rp_end.text_offset() > 0 {
            proof {
                lemma_node_beside_size(rp_end@);
            }
            add_node(rp_end.node_before().unwrap(), target);
        }
    }
}

/// The node around the content, if its type accepts the content.
pub fn close(node: &MarkdownNode, content: Fragment) -> (r: Result<MarkdownNode, ReplaceError>)
    ensures
        node_result(r) == joining::close(node@, content@),
{
    let node_type = node.node_type();
    if node_type.valid_content(&content) {
        Ok(node.with_content(content))
    } else {
        Err(ReplaceError::InvalidContent(node_type))
    }
}

/// What the ancestor at `depth` holds when the range between `rp_from` and
/// `rp_to` is replaced by what lies between `rp_start` and `rp_end`.
pub fn replace_three_way(
    rp_from: &ResolvedPos,
    rp_start: &ResolvedPos,
    rp_end: &ResolvedPos,
    rp_to: &ResolvedPos,
    depth: usize,
) -> (r: Result<Fragment, ReplaceError>)
    requires
        depth <= rp_from@.depth() == rp_start@.depth(),
        depth <= rp_to@.depth() == rp_end@.depth(),
        join_bound(rp_from@, rp_start@, rp_end@, rp_to@, depth as int) + 2 <= usize::MAX,
    ensures
        fragment_result(r) == joining::replace_three_way(
            rp_from@,
            rp_start@,
            rp_end@,
            rp_to@,
            depth as int,
        ),
    decreases rp_from@.depth() - depth,
{
    let from_depth: usize = rp_from.depth();
    let to_depth: usize = rp_to.depth();
    let start_depth: usize = rp_start.depth();
    let end_depth: usize = rp_end.depth();
    proof {
        lemma_three_way_size(rp_from@, rp_start@, rp_end@, rp_to@, depth as int);
        lemma_join_bound_nests(rp_from@, rp_start@, rp_end@, rp_to@, depth as int);
    }
    let open_start = if from_depth > depth {
        match joinable(rp_from, rp_start, depth + 1) {
            Ok(n) => Some(n),
            Err(e) => {
                return Err(e);
            },
        }
    } else {
        None
    };
    let open_end = if to_depth > depth {
        match joinable(rp_end, rp_to, depth + 1) {
            Ok(n) => Some(n),
            Err(e) => {
                return Err(e);
            },
        }
    } else {
        None
    };

    let mut content: Vec<MarkdownNode> = Vec::new();
    assert(nodes_view(content@) =~= Seq::<NodeView>::empty());
    add_range(Range::Right(rp_from), depth, &mut content);
    let single = open_start.is_some() && open_end.is_some() && rp_start.index(depth)
        == rp_end.index(depth);
    if single {
        let os = open_start.unwrap();
        let oe = open_end.unwrap();
        match check_join(os, oe) {
            Ok(_) => {},
            Err(e) => {
                return Err(e);
            },
        }
        let inner = match replace_three_way(rp_from, rp_start, rp_end, rp_to, depth + 1) {
            Ok(f) => f,
            Err(e) => {
                return Err(e);
            },
        };
        let closed = match close(os, inner) {
            Ok(n) => n,
            Err(e) => {
                return Err(e);
            },
        };
        add_node(Cow::Owned(closed), &mut content)
    } else {
        if let Some(os) = open_start {
            let inner = match replace_two_way(rp_from, rp_start, depth + 1) {
                Ok(f) => f,
                Err(e) => {
                    return Err(e);
                },
            };
            let closed = match close(os, inner) {
                Ok(n) => n,
                Err(e) => {
                    return Err(e);
                },
            };
            add_node(Cow::Owned(closed), &mut content);
        }
        add_range(Range::Both(rp_start, rp_end), depth, &mut content);
        if let Some(oe) = open_end {
            let inner = match replace_two_way(rp_end, rp_to, depth + 1) {
                Ok(f) => f,
                Err(e) => {
                    return Err(e);
                },
            };
            let closed = match close(oe, inner) {
                Ok(n) => n,
                Err(e) => {
                    return Err(e);
                },
            };
            add_node(Cow::Owned(closed), &mut content);
        }
    }
    add_range(Range::Left(rp_to), depth, &mut content);
    Ok(Fragment::from(content))
}

/// What is left in the ancestor at `depth` when the range between the two
/// positions goes.
pub fn replace_two_way(rp_from: &ResolvedPos, rp_to: &ResolvedPos, depth: usize) -> (r: Result<
    Fragment,
    ReplaceError,
>)
    requires
        depth <= rp_from@.depth() <= rp_to@.depth(),
        content_size(rp_from@.node(depth as int).content) + content_size(
            rp_to@.node(depth as int).content,
        ) + 2 <= usize::MAX,
    ensures
        fragment_result(r) == joining::replace_two_way(rp_from@, rp_to@, depth as int),
    decreases rp_from@.depth() - depth,
{
    let from_depth: usize = rp_from.depth();
    let to_depth: usize = rp_to.depth();
    proof {
        lemma_two_way_size(rp_from@, rp_to@, depth as int);
        if rp_from@.depth() > depth {
            lemma_path_nests(rp_from@.path, 0, rp_from@.pos, depth as int);
            lemma_path_nests(rp_to@.path, 0, rp_to@.pos, depth as int);
        }
    }
    let mut content: Vec<MarkdownNode> = Vec::new();
    assert(nodes_view(content@) =~= Seq::<NodeView>::empty());
    add_range(Range::Right(rp_from), depth, &mut content);
    if from_depth > depth {
        let node = match joinable(rp_from, rp_to, depth + 1) {
            Ok(n) => n,
            Err(e) => {
                return Err(e);
            },
        };
        let inner = match replace_two_way(rp_from, rp_to, depth + 1) {
            Ok(f) => f,
            Err(e) => {
                return Err(e);
            },
        };
        let child = match close(node, inner) {
            Ok(n) => n,
            Err(e) => {
                return Err(e);
            },
        };
        add_node(Cow::Owned(child), &mut content);
    }
    add_range(Range::Left(rp_to), depth, &mut content);
    Ok(Fragment::from(content))
}

/// The slice as a document of its own, with the positions at which the
/// slice starts and ends in it: the content of the slice in copies of the
/// ancestors of `rp_along` above the depth to which the slice is open.
pub fn prepare_slice_for_replace(slice: &Slice, rp_along: &ResolvedPos) -> (r: (
    MarkdownNode,
    usize,
    usize,
))
    requires
        slice.open_start <= rp_along@.depth(),
        rp_along@.node(0).kind.parent(),
        slice.open_end + rp_along@.depth() - slice.open_start <= content_size(slice@.content) + 2
            * (rp_along@.depth() - slice.open_start),
        content_size(slice@.content) + 2 * rp_along@.depth() + 2 <= usize::MAX,
    ensures
        r.0@ == prepared(slice@, rp_along@),
        r.1 == rp_along@.depth(),
        r.2 == content_size(slice@.content) + rp_along@.depth() - slice.open_start
            - slice.open_end,
{
    let along_depth: usize = rp_along.depth();
    let extra: usize = along_depth - slice.open_start;
    let parent = rp_along.node(extra);
    proof {
        assert forall|j: int| 0 <= j <= extra implies (#[trigger] rp_along@.path[j]).node.kind.parent() by {
            if j > 0 {
                assert(entry_links(rp_along@.path, rp_along@.pos, j - 1));
            }
        }
        lemma_wrapped_size(rp_along@, slice@.content, extra as int, extra as int);
    }
    let mut node = parent.with_content(slice.content.clone());
    let mut i: usize = extra;
    while i > 0
        invariant
            0 <= i <= extra <= rp_along@.depth(),
            node@ == wrapped(rp_along@, slice@.content, extra as int, i as int),
            forall|j: int| 0 <= j <= extra ==> (#[trigger] rp_along@.path[j]).node.kind.parent(),
            content_size(slice@.content) + 2 * rp_along@.depth() + 2 <= usize::MAX,
        decreases i,
    {
        proof {
            lemma_wrapped_size(rp_along@, slice@.content, extra as int, i as int);
            lemma_content_size_one(node@);
        }
        i = i - 1;
        let mut single: Vec<MarkdownNode> = Vec::new();
        single.push(node);
        proof {
            assert(nodes_view(single@) =~= seq![single@[0]@]);
        }
        node = rp_along.node(i).with_content(Fragment::from(single));
    }

    proof {
        lemma_wrapped_size(rp_along@, slice@.content, extra as int, 0);
    }
    let start: usize = slice.open_start + extra;
    let end: usize = node.content_size() - slice.open_end - extra;
    (node, start, end)
}


} // verus!
