//! What replacing a range of a document by a slice gives, on plain values.

use super::cut::{cut_content, lemma_cut_content_size, lemma_cut_node_size};
use super::position::{
    entry_leads, entry_links, inner_size, lemma_path_nests, lemma_path_within, lemma_resolve,
    lemma_resolve_path_inside, resolve, resolve_path, PosView,
};
use super::fragment::IndexError;
use super::node::can_replace;
use super::replace::ReplaceError;
use super::position::lemma_shared_from;
use super::slice::{slice_of, InsertError};
use super::cut::{lemma_cut_upto_first, lemma_cut_upto_last};
use super::view::{find_index, lemma_append_content_ends, lemma_find_index, lemma_find_index_inside};
use super::resolved_pos::ResolveErr;
use super::slice::{
    lemma_opens_left_size, lemma_opens_right_size, opens_left, opens_right, SliceView,
};
use super::view::{
    add_node, append_content, content_size, lemma_add_node_size, lemma_append_content_size,
    lemma_content_size_one, lemma_content_size_update, lemma_size_upto_mono, node_size, size_upto,
    NodeView,
};
use vstd::prelude::*;

verus! {

/// The size that the content of a replaced node may grow by: the size of
/// the document and three times that of the prepared slice.
pub open spec fn growth(from: PosView, slice: SliceView) -> nat {
    content_size(from.node(0).content) + 3 * (content_size(slice.content) + 2 * from.depth())
}

/// The node around the content, if its type accepts the content.
pub open spec fn close(node: NodeView, content: Seq<NodeView>) -> Result<NodeView, ReplaceError> {
    if node.kind.accepts(content) {
        Ok(node.with_content(content))
    } else {
        Err(ReplaceError::InvalidContent(node.kind))
    }
}

/// Nothing, if the content of `sub` may be joined onto that of `main`.
pub open spec fn check_join(main: NodeView, sub: NodeView) -> Option<ReplaceError> {
    if sub.kind.joins(main.kind) {
        None
    } else {
        Some(ReplaceError::CannotJoin(sub.kind, main.kind))
    }
}

/// The list `out` with the children of `c` from index `i` up to index `j`
/// added, one after the other.
pub open spec fn add_children(out: Seq<NodeView>, c: Seq<NodeView>, i: int, j: int) -> Seq<
    NodeView,
>
    decreases j - i,
{
    if j <= i {
        out
    } else {
        add_node(add_children(out, c, i, j - 1), c[j - 1])
    }
}

/// The list `out` with the children added that lie, in the ancestor at
/// `depth`, after the position `left` and before the position `right`; a
/// side that is not given stands for that end of the ancestor. A text node
/// that a position at this depth lies in gives its part on the side of the
/// range; an ancestor that a deeper position lies in is left out.
pub open spec fn add_range(
    left: Option<PosView>,
    right: Option<PosView>,
    depth: int,
    out: Seq<NodeView>,
) -> Seq<NodeView> {
    let node = match right {
        Some(e) => e.node(depth),
        None => left.unwrap().node(depth),
    };
    let end_index = match right {
        Some(e) => e.index(depth) as int,
        None => node.content.len() as int,
    };
    let start_index = match left {
        Some(s) => if s.depth() > depth || s.text_offset() > 0 {
            s.index(depth) as int + 1
        } else {
            s.index(depth) as int
        },
        None => 0int,
    };
    let out1 = match left {
        Some(s) => if s.depth() <= depth && s.text_offset() > 0 {
            add_node(out, s.node_after().unwrap())
        } else {
            out
        },
        None => out,
    };
    let out2 = add_children(out1, node.content, start_index, end_index);
    match right {
        Some(e) => if e.depth() == depth && e.text_offset() > 0 {
            add_node(out2, e.node_before().unwrap())
        } else {
            out2
        },
        None => out2,
    }
}

/// What is left in the ancestor at `depth` when the range between the two
/// positions goes: the content before the first position, then, while the
/// first position lies deeper, the ancestor at the next depth closed around
/// what is left in it, and then the content after the second position. The
/// ancestors of the two positions at the next depth have to be joinable.
pub open spec fn replace_two_way(from: PosView, to: PosView, depth: int) -> Result<
    Seq<NodeView>,
    ReplaceError,
>
    decreases from.depth() - depth,
{
    let left = add_range(None, Some(from), depth, Seq::empty());
    if from.depth() > depth {
        match check_join(from.node(depth + 1), to.node(depth + 1)) {
            Some(e) => Err(e),
            None => match replace_two_way(from, to, depth + 1) {
                Err(e) => Err(e),
                Ok(inner) => match close(from.node(depth + 1), inner) {
                    Err(e) => Err(e),
                    Ok(child) => Ok(add_range(Some(to), None, depth, add_node(left, child))),
                },
            },
        }
    } else {
        Ok(add_range(Some(to), None, depth, left))
    }
}

/// What the two halves of a three-way join give in the ancestor at
/// `depth` when the slice does not lie in one child there: the left open
/// node closed around the join of the document with the start of the
/// slice, the children of the slice between its two ends, and the right
/// open node closed around the join of the end of the slice with the
/// document.
pub open spec fn replace_halves(
    from: PosView,
    start: PosView,
    end: PosView,
    to: PosView,
    depth: int,
    out: Seq<NodeView>,
) -> Result<Seq<NodeView>, ReplaceError> {
    let left: Result<Seq<NodeView>, ReplaceError> = if from.depth() > depth {
        match replace_two_way(from, start, depth + 1) {
            Err(e) => Err(e),
            Ok(inner) => match close(from.node(depth + 1), inner) {
                Err(e) => Err(e),
                Ok(closed) => Ok(add_node(out, closed)),
            },
        }
    } else {
        Ok(out)
    };
    match left {
        Err(e) => Err(e),
        Ok(out1) => {
            let out2 = add_range(Some(start), Some(end), depth, out1);
            if to.depth() > depth {
                match replace_two_way(end, to, depth + 1) {
                    Err(e) => Err(e),
                    Ok(inner) => match close(end.node(depth + 1), inner) {
                        Err(e) => Err(e),
                        Ok(closed) => Ok(add_node(out2, closed)),
                    },
                }
            } else {
                Ok(out2)
            }
        },
    }
}

/// What the ancestor at `depth` holds when the range between `from` and
/// `to` is replaced by what lies between `start` and `end` in the prepared
/// slice: the content before `from`, the joined middle, and the content
/// after `to`. Where both sides are open and the slice lies in one child,
/// the middle is that child closed around the join one level deeper; else
/// it is made of the two halves.
pub open spec fn replace_three_way(
    from: PosView,
    start: PosView,
    end: PosView,
    to: PosView,
    depth: int,
) -> Result<Seq<NodeView>, ReplaceError>
    decreases from.depth() - depth,
{
    let join_start = if from.depth() > depth {
        check_join(from.node(depth + 1), start.node(depth + 1))
    } else {
        None
    };
    let join_end = if to.depth() > depth {
        check_join(end.node(depth + 1), to.node(depth + 1))
    } else {
        None
    };
    if join_start is Some {
        Err(join_start.unwrap())
    } else if join_end is Some {
        Err(join_end.unwrap())
    } else {
        let left = add_range(None, Some(from), depth, Seq::empty());
        let middle: Result<Seq<NodeView>, ReplaceError> = if from.depth() > depth && to.depth()
            > depth && start.index(depth) == end.index(depth) {
            match check_join(from.node(depth + 1), end.node(depth + 1)) {
                Some(e) => Err(e),
                None => match replace_three_way(from, start, end, to, depth + 1) {
                    Err(e) => Err(e),
                    Ok(inner) => match close(from.node(depth + 1), inner) {
                        Err(e) => Err(e),
                        Ok(closed) => Ok(add_node(left, closed)),
                    },
                },
            }
        } else {
            replace_halves(from, start, end, to, depth, left)
        };
        match middle {
            Err(e) => Err(e),
            Ok(out) => Ok(add_range(Some(to), None, depth, out)),
        }
    }
}

/// The slice content wrapped in copies of the ancestors of `along` from
/// depth `extra` up to depth `i`.
pub open spec fn wrapped(along: PosView, content: Seq<NodeView>, extra: int, i: int) -> NodeView
    decreases extra - i,
{
    if i >= extra {
        along.node(extra).with_content(content)
    } else {
        along.node(i).with_content(seq![wrapped(along, content, extra, i + 1)])
    }
}

/// The slice as a document of its own: its content in copies of the
/// ancestors of `along` above the depth to which the slice is open.
pub open spec fn prepared(slice: SliceView, along: PosView) -> NodeView {
    wrapped(along, slice.content, along.depth() - slice.open_start, 0)
}

/// The document node at `depth` with the range between `from` and `to`
/// replaced by the slice. While both positions lie in one child above the
/// depth to which the slice is open, that child is replaced one level
/// deeper. Else the node is closed around its new content: what is left
/// when the range goes, for a slice without content; the content before
/// `from`, the slice and the content after `to`, for a closed slice at the
/// depth of both positions; and else the three-way join with the slice.
pub open spec fn replace_outer(from: PosView, to: PosView, slice: SliceView, depth: int) -> Result<
    NodeView,
    ReplaceError,
>
    decreases from.depth() - depth,
{
    let index = from.index(depth);
    let node = from.node(depth);
    if index == to.index(depth) && depth < from.depth() - slice.open_start {
        match replace_outer(from, to, slice, depth + 1) {
            Err(e) => Err(e),
            Ok(inner) => Ok(node.with_content(node.content.update(index as int, inner))),
        }
    } else if content_size(slice.content) == 0 {
        match replace_two_way(from, to, depth) {
            Err(e) => Err(e),
            Ok(content) => close(node, content),
        }
    } else if slice.open_start == 0 && slice.open_end == 0 && from.depth() == depth && to.depth()
        == depth {
        let content = from.parent().content;
        close(
            from.parent(),
            append_content(
                append_content(cut_content(content, 0, from.parent_offset()), slice.content),
                cut_content(content, to.parent_offset(), content_size(content)),
            ),
        )
    } else {
        let n = prepared(slice, from);
        let start = slice.open_start + from.depth() - slice.open_start;
        let end = content_size(n.content) - slice.open_end - (from.depth() - slice.open_start);
        if start > content_size(n.content) {
            Err(ReplaceError::Resolve(ResolveErr::RangeError { pos: start as usize }))
        } else if end > content_size(n.content) {
            Err(ReplaceError::Resolve(ResolveErr::RangeError { pos: end as usize }))
        } else {
            match replace_three_way(
                from,
                resolve(n, start as nat),
                resolve(n, end as nat),
                to,
                depth,
            ) {
                Err(e) => Err(e),
                Ok(content) => close(node, content),
            }
        }
    }
}

/// The document of `from` and `to` with the range between the two
/// positions replaced by the slice. The slice must not be open deeper at
/// its start than `from` lies, and both positions must lie as deep below
/// the open depths of the slice.
pub open spec fn replace_range(from: PosView, to: PosView, slice: SliceView) -> Result<
    NodeView,
    ReplaceError,
> {
    if slice.open_start > from.depth() {
        Err(ReplaceError::InsertTooDeep)
    } else if from.depth() - slice.open_start != to.depth() - slice.open_end {
        Err(
            ReplaceError::InconsistentOpenDepths {
                from_depth: from.depth() as usize,
                open_start: slice.open_start as usize,
                to_depth: to.depth() as usize,
                open_end: slice.open_end as usize,
            },
        )
    } else {
        replace_outer(from, to, slice, 0)
    }
}

/// What replacing the range between two positions of a document by a
/// slice gives: the first of the two positions that lies past the end of
/// the document is out of range, and else the range between the two
/// resolved positions is replaced.
pub open spec fn replace_doc(doc: NodeView, from: usize, to: usize, slice: SliceView) -> Result<
    NodeView,
    ReplaceError,
> {
    if from > content_size(doc.content) {
        Err(ReplaceError::Resolve(ResolveErr::RangeError { pos: from }))
    } else if to > content_size(doc.content) {
        Err(ReplaceError::Resolve(ResolveErr::RangeError { pos: to }))
    } else {
        replace_range(resolve(doc, from as nat), resolve(doc, to as nat), slice)
    }
}

/// The content with `insert` put in at the offset `dist`, without a check
/// of what holds it.
pub open spec fn spliced(content: Seq<NodeView>, dist: nat, insert: Seq<NodeView>) -> Seq<NodeView> {
    append_content(
        append_content(cut_content(content, 0, dist), insert),
        cut_content(content, dist, content_size(content)),
    )
}

/// The content with `insert` put in at the offset `dist`. An offset past
/// the end is an error. An offset between two children, or inside a text
/// node, puts the fragment in at this level, if the node `parent` that
/// holds the content accepts it there; an offset inside another child puts
/// it into the content of that child. The result is `None` where the node
/// that would hold the fragment does not accept it.
pub open spec fn insert_into(
    content: Seq<NodeView>,
    dist: nat,
    insert: Seq<NodeView>,
    parent: Option<NodeView>,
) -> Result<Option<Seq<NodeView>>, InsertError>
    decreases content,
{
    match find_index(content, dist, false) {
        None => Err(InsertError::Index(IndexError)),
        Some((index, offset)) => {
            if offset == dist || index >= content.len() || content[index as int].is_text() {
                match parent {
                    None => Ok(Some(spliced(content, dist, insert))),
                    Some(p) => match can_replace(p, index as int, index as int, insert) {
                        Err(e) => Err(InsertError::Content(e)),
                        Ok(fits) => if fits {
                            Ok(Some(spliced(content, dist, insert)))
                        } else {
                            Ok(None)
                        },
                    },
                }
            } else {
                let child = content[index as int];
                match insert_into(
                    child.content,
                    (dist - offset - 1) as nat,
                    insert,
                    Some(child),
                ) {
                    Err(e) => Err(e),
                    Ok(None) => Ok(None),
                    Ok(Some(inner)) => Ok(
                        Some(content.update(index as int, child.with_content(inner))),
                    ),
                }
            }
        },
    }
}

/// The slice with a fragment put into its content at the offset `pos`
/// after its open start.
pub open spec fn insert_at(slice: SliceView, pos: nat, fragment: Seq<NodeView>) -> Result<
    Option<SliceView>,
    InsertError,
> {
    match insert_into(slice.content, pos + slice.open_start, fragment, None) {
        Err(e) => Err(e),
        Ok(None) => Ok(None),
        Ok(Some(content)) => Ok(
            Some(SliceView { content, open_start: slice.open_start, open_end: slice.open_end }),
        ),
    }
}

/// Content with a fragment put in is no larger than twice the content and
/// the fragment, and a fragment is put in wherever the offset lies within
/// the content of a parent.
pub proof fn lemma_insert_into_size(
    content: Seq<NodeView>,
    dist: nat,
    insert: Seq<NodeView>,
    parent: Option<NodeView>,
)
    requires
        parent matches Some(p) ==> p.content == content,
    ensures
        insert_into(content, dist, insert, parent) matches Ok(Some(r)) ==> content_size(r) <= 2
            * content_size(content) + content_size(insert),
        dist <= content_size(content) ==> !(insert_into(content, dist, insert, parent) matches Err(
            InsertError::Index(_),
        )),
    decreases content,
{
    if dist <= content_size(content) {
        lemma_find_index(content, dist, false);
        let found = find_index(content, dist, false).unwrap();
        let index = found.0;
        let offset = found.1;
        if offset == dist || index >= content.len() || content[index as int].is_text() {
            lemma_cut_content_size(content, 0, dist);
            lemma_cut_content_size(content, dist, content_size(content));
            lemma_append_content_size(cut_content(content, 0, dist), insert);
            lemma_append_content_size(
                append_content(cut_content(content, 0, dist), insert),
                cut_content(content, dist, content_size(content)),
            );
        } else {
            let child = content[index as int];
            assert(size_upto(content, index + 1) == size_upto(content, index) + node_size(child));
            lemma_size_upto_mono(content, index + 1, content.len());
            lemma_insert_into_size(child.content, (dist - offset - 1) as nat, insert, Some(child));
            match insert_into(child.content, (dist - offset - 1) as nat, insert, Some(child)) {
                Ok(Some(inner)) => {
                    lemma_content_size_update(content, index as int, child.with_content(inner));
                },
                _ => {},
            }
        }
    }
}

/// A slice of a document is no larger than the document.
pub proof fn lemma_slice_of_size(doc: NodeView, from: nat, to: nat, include_parents: bool)
    requires
        from <= content_size(doc.content),
    ensures
        content_size(slice_of(doc, from, to, include_parents).content) <= content_size(
            doc.content,
        ),
{
    if from == to {
        assert(content_size(Seq::<NodeView>::empty()) == 0);
    } else {
        let rp_from = resolve(doc, from);
        lemma_resolve(doc, from);
        let depth: nat = if include_parents {
            0
        } else {
            rp_from.shared_depth(to)
        };
        lemma_shared_from(rp_from, to, rp_from.depth());
        lemma_path_within(rp_from.path, 0, from, depth as int);
        let start = rp_from.start(depth as int);
        lemma_cut_content_size(
            rp_from.node(depth as int).content,
            (from - start) as nat,
            (to - start) as nat,
        );
    }
}

/// Putting a fragment in at or after the nodes that the content has open
/// at its start keeps these nodes at the start.
pub proof fn lemma_insert_opens_left(
    content: Seq<NodeView>,
    dist: nat,
    insert: Seq<NodeView>,
    parent: Option<NodeView>,
    d: nat,
)
    requires
        opens_left(content, d),
        d <= dist,
        insert_into(content, dist, insert, parent) matches Ok(Some(_)),
    ensures
        insert_into(content, dist, insert, parent) matches Ok(Some(r)) && opens_left(r, d),
    decreases content,
{
    if d > 0 {
        let first = content[0];
        lemma_opens_left_size(first.content, (d - 1) as nat);
        assert(size_upto(content, 1) == size_upto(content, 0) + node_size(first));
        lemma_size_upto_mono(content, 1, content.len());
        let found = find_index(content, dist, false).unwrap();
        let index = found.0;
        let offset = found.1;
        lemma_find_index(content, dist, false);
        let r = insert_into(content, dist, insert, parent).unwrap().unwrap();
        if offset == dist || index >= content.len() || content[index as int].is_text() {
            if dist < node_size(first) {
                lemma_find_index_inside(content, dist, 0);
            }
            let x = cut_content(content, 0, dist);
            if dist != content_size(content) {
                lemma_cut_upto_first(content, 0, dist, 0, content.len());
            }
            assert(x.len() > 0 && x[0] == first);
            lemma_append_content_ends(x, insert);
            lemma_append_content_ends(
                append_content(x, insert),
                cut_content(content, dist, content_size(content)),
            );
            assert(r[0] == first);
        } else {
            let child = content[index as int];
            if index == 0 {
                lemma_insert_opens_left(
                    child.content,
                    (dist - offset - 1) as nat,
                    insert,
                    Some(child),
                    (d - 1) as nat,
                );
            }
        }
    }
}

/// Putting a fragment in at or before the nodes that the content has open
/// at its end keeps these nodes at the end.
pub proof fn lemma_insert_opens_right(
    content: Seq<NodeView>,
    dist: nat,
    insert: Seq<NodeView>,
    parent: Option<NodeView>,
    d: nat,
)
    requires
        opens_right(content, d),
        dist + d <= content_size(content),
        insert_into(content, dist, insert, parent) matches Ok(Some(_)),
    ensures
        insert_into(content, dist, insert, parent) matches Ok(Some(r)) && opens_right(r, d),
    decreases content,
{
    if d > 0 {
        let last = content.last();
        let i = (content.len() - 1) as nat;
        let total = content_size(content);
        lemma_opens_right_size(last.content, (d - 1) as nat);
        assert(size_upto(content, i + 1) == size_upto(content, i) + node_size(last));
        let found = find_index(content, dist, false).unwrap();
        let index = found.0;
        let offset = found.1;
        lemma_find_index(content, dist, false);
        let r = insert_into(content, dist, insert, parent).unwrap().unwrap();
        if offset == dist || index >= content.len() || content[index as int].is_text() {
            if dist > size_upto(content, i) {
                lemma_find_index_inside(content, dist, i);
            }
            let z = cut_content(content, dist, total);
            if dist != 0 {
                lemma_cut_upto_last(content, dist, total, i);
            }
            assert(z.len() > 0 && z.last() == last);
            lemma_append_content_ends(
                append_content(cut_content(content, 0, dist), insert),
                z,
            );
            assert(r.last() == last);
        } else {
            let child = content[index as int];
            assert(size_upto(content, index + 1) == size_upto(content, index) + node_size(child));
            if index == i {
                lemma_insert_opens_right(
                    child.content,
                    (dist - offset - 1) as nat,
                    insert,
                    Some(child),
                    (d - 1) as nat,
                );
            } else {
                lemma_size_upto_mono(content, index + 1, i);
            }
        }
    }
}

/// Putting a fragment in past the end of the content of a slice is an
/// error of the index.
pub proof fn lemma_insert_at_past_end(slice: SliceView, pos: nat, fragment: Seq<NodeView>)
    requires
        pos + slice.open_start > content_size(slice.content),
    ensures
        insert_at(slice, pos, fragment) == Err::<Option<SliceView>, InsertError>(
            InsertError::Index(IndexError),
        ),
{
}

/// A well-formed slice with a fragment put in between its open sides is
/// well-formed.
pub proof fn lemma_insert_at_well_formed(slice: SliceView, pos: nat, fragment: Seq<NodeView>)
    requires
        slice.well_formed(),
        pos + slice.open_start + slice.open_end <= content_size(slice.content),
    ensures
        insert_at(slice, pos, fragment) matches Ok(Some(s)) ==> s.well_formed(),
{
    if insert_at(slice, pos, fragment) matches Ok(Some(s)) {
        lemma_insert_opens_left(
            slice.content,
            pos + slice.open_start,
            fragment,
            None,
            slice.open_start,
        );
        lemma_insert_opens_right(
            slice.content,
            pos + slice.open_start,
            fragment,
            None,
            slice.open_end,
        );
    }
}

/// A position lies no deeper than half the size of its document.
pub proof fn lemma_depth_bound(rp: PosView)
    requires
        rp.well_formed(),
    ensures
        2 * rp.depth() <= content_size(rp.node(0).content),
{
    lemma_path_within(rp.path, 0, rp.pos, rp.depth() as int);
}

/// Adding children adds their sizes.
pub proof fn lemma_add_children_size(out: Seq<NodeView>, c: Seq<NodeView>, i: int, j: int)
    requires
        0 <= i <= c.len(),
        j <= c.len(),
    ensures
        i <= j ==> content_size(add_children(out, c, i, j)) == content_size(out) + size_upto(
            c,
            j as nat,
        ) - size_upto(c, i as nat),
        j < i ==> add_children(out, c, i, j) == out,
    decreases j - i,
{
    if i < j {
        lemma_add_children_size(out, c, i, j - 1);
        lemma_add_node_size(add_children(out, c, i, j - 1), c[j - 1]);
    }
}

/// The part of the child at the index of a position that lies before or
/// after the position is no larger than the child.
pub proof fn lemma_node_beside_size(rp: PosView)
    requires
        rp.well_formed(),
        rp.text_offset() > 0,
    ensures
        rp.index(rp.depth() as int) < rp.parent().content.len(),
        rp.node_before() is Some,
        rp.node_after() is Some,
        node_size(rp.node_before().unwrap()) <= node_size(
            rp.parent().content[rp.index(rp.depth() as int) as int],
        ),
        node_size(rp.node_after().unwrap()) <= node_size(
            rp.parent().content[rp.index(rp.depth() as int) as int],
        ),
{
    let child = rp.parent().content[rp.index(rp.depth() as int) as int];
    lemma_cut_node_size(child, 0, rp.text_offset());
    lemma_cut_node_size(child, rp.text_offset(), inner_size(child));
}

/// What the content before a position adds is no larger than the children
/// before its index, with the child at the index where the position lies
/// in a text node there.
pub proof fn lemma_add_range_before_size(e: PosView, depth: int, out: Seq<NodeView>)
    requires
        e.well_formed(),
        0 <= depth <= e.depth(),
    ensures
        e.index(depth) <= e.node(depth).content.len(),
        content_size(add_range(None, Some(e), depth, out)) <= content_size(out) + size_upto(
            e.node(depth).content,
            e.index(depth),
        ) + if e.depth() == depth && e.text_offset() > 0 {
            node_size(e.node(depth).content[e.index(depth) as int])
        } else {
            0
        },
{
    assert(entry_leads(e.path, 0, e.pos, depth));
    let c = e.node(depth).content;
    let out2 = add_children(out, c, 0, e.index(depth) as int);
    lemma_add_children_size(out, c, 0, e.index(depth) as int);
    if e.depth() == depth && e.text_offset() > 0 {
        lemma_node_beside_size(e);
        lemma_add_node_size(out2, e.node_before().unwrap());
    }
}

/// What the content after a position adds is no larger than the children
/// from its index on, without the child at the index where the position
/// lies deeper.
pub proof fn lemma_add_range_after_size(s: PosView, depth: int, out: Seq<NodeView>)
    requires
        s.well_formed(),
        0 <= depth <= s.depth(),
    ensures
        s.index(depth) <= s.node(depth).content.len(),
        content_size(add_range(Some(s), None, depth, out)) + size_upto(
            s.node(depth).content,
            if s.depth() > depth {
                s.index(depth) + 1
            } else {
                s.index(depth)
            },
        ) <= content_size(out) + content_size(s.node(depth).content),
{
    assert(entry_leads(s.path, 0, s.pos, depth));
    let c = s.node(depth).content;
    if s.depth() > depth {
        assert(entry_links(s.path, s.pos, depth));
        lemma_add_children_size(out, c, s.index(depth) as int + 1, c.len() as int);
    } else if s.text_offset() > 0 {
        lemma_node_beside_size(s);
        let out1 = add_node(out, s.node_after().unwrap());
        lemma_add_node_size(out, s.node_after().unwrap());
        lemma_add_children_size(out1, c, s.index(depth) as int + 1, c.len() as int);
        assert(size_upto(c, s.index(depth) + 1) == size_upto(c, s.index(depth)) + node_size(
            c[s.index(depth) as int],
        ));
    } else {
        lemma_add_children_size(out, c, s.index(depth) as int, c.len() as int);
    }
}

/// What the content between two positions adds is no larger than the
/// content of the two ancestors.
pub proof fn lemma_add_range_between_size(s: PosView, e: PosView, depth: int, out: Seq<NodeView>)
    requires
        s.well_formed(),
        e.well_formed(),
        0 <= depth <= s.depth(),
        depth <= e.depth(),
    ensures
        content_size(add_range(Some(s), Some(e), depth, out)) <= content_size(out) + if s.depth()
            > depth {
            0
        } else {
            content_size(s.node(depth).content)
        } + content_size(e.node(depth).content),
{
    assert(entry_leads(s.path, 0, s.pos, depth));
    assert(entry_leads(e.path, 0, e.pos, depth));
    let c = e.node(depth).content;
    let start_index = if s.depth() > depth || s.text_offset() > 0 {
        s.index(depth) as int + 1
    } else {
        s.index(depth) as int
    };
    let end_index = e.index(depth) as int;
    let out1 = if s.depth() <= depth && s.text_offset() > 0 {
        add_node(out, s.node_after().unwrap())
    } else {
        out
    };
    if s.depth() <= depth && s.text_offset() > 0 {
        lemma_node_beside_size(s);
        lemma_add_node_size(out, s.node_after().unwrap());
        let sc = s.node(depth).content;
        let si = s.index(depth);
        assert(size_upto(sc, si + 1) == size_upto(sc, si) + node_size(sc[si as int]));
        lemma_size_upto_mono(sc, si + 1, sc.len());
    }
    let out2 = add_children(out1, c, start_index, end_index);
    if start_index <= c.len() {
        lemma_add_children_size(out1, c, start_index, end_index);
        if start_index <= end_index {
            lemma_size_upto_mono(c, start_index as nat, end_index as nat);
        }
    } else {
        lemma_add_children_rest(out1, c, start_index, end_index);
    }
    lemma_size_upto_mono(c, end_index as nat, c.len());
    if e.depth() == depth && e.text_offset() > 0 {
        lemma_node_beside_size(e);
        lemma_add_node_size(out2, e.node_before().unwrap());
        assert(size_upto(c, e.index(depth) + 1) == size_upto(c, e.index(depth)) + node_size(
            c[end_index],
        ));
        lemma_size_upto_mono(c, e.index(depth) + 1, c.len());
    }
}

/// An empty run of children adds nothing.
pub proof fn lemma_add_children_rest(out: Seq<NodeView>, c: Seq<NodeView>, i: int, j: int)
    requires
        j <= i,
    ensures
        add_children(out, c, i, j) == out,
{
}

/// What is left in an ancestor when a range goes is no larger than the
/// content of the ancestors of the two positions.
pub proof fn lemma_two_way_size(from: PosView, to: PosView, depth: int)
    requires
        from.well_formed(),
        to.well_formed(),
        0 <= depth <= from.depth() <= to.depth(),
    ensures
        replace_two_way(from, to, depth) matches Ok(content) ==> content_size(content)
            <= content_size(from.node(depth).content) + content_size(to.node(depth).content),
    decreases from.depth() - depth,
{
    let f = from.node(depth).content;
    let t = to.node(depth).content;
    let left = add_range(None, Some(from), depth, Seq::empty());
    lemma_add_range_before_size(from, depth, Seq::empty());
    assert(content_size(Seq::<NodeView>::empty()) == 0);
    assert(entry_leads(from.path, 0, from.pos, depth));
    assert(entry_leads(to.path, 0, to.pos, depth));
    lemma_size_upto_mono(f, from.index(depth), f.len());
    if from.depth() > depth {
        assert(entry_links(from.path, from.pos, depth));
        assert(entry_links(to.path, to.pos, depth));
        let fi = from.index(depth);
        let ti = to.index(depth);
        assert(size_upto(f, fi + 1) == size_upto(f, fi) + node_size(f[fi as int]));
        assert(size_upto(t, ti + 1) == size_upto(t, ti) + node_size(t[ti as int]));
        lemma_size_upto_mono(f, fi + 1, f.len());
        if replace_two_way(from, to, depth) is Ok {
            lemma_two_way_size(from, to, depth + 1);
            let inner = replace_two_way(from, to, depth + 1).unwrap();
            let child = close(from.node(depth + 1), inner).unwrap();
            lemma_add_node_size(left, child);
            lemma_add_range_after_size(to, depth, add_node(left, child));
        }
    } else {
        lemma_add_range_after_size(to, depth, left);
        if from.text_offset() > 0 {
            let fi = from.index(depth);
            assert(size_upto(f, fi + 1) == size_upto(f, fi) + node_size(f[fi as int]));
            lemma_size_upto_mono(f, fi + 1, f.len());
        }
    }
}

/// The way to the offset `d` into a node whose content has `d` nested
/// parent nodes at its start goes through these `d` nodes.
pub proof fn lemma_resolve_left(node: NodeView, d: nat, start: nat)
    requires
        opens_left(node.content, d),
    ensures
        resolve_path(node, d, start).len() == d + 1,
    decreases d,
{
    let c = node.content;
    if d > 0 {
        lemma_opens_left_size(c[0].content, (d - 1) as nat);
        assert(size_upto(c, 1) == size_upto(c, 0) + node_size(c[0]));
        lemma_resolve_path_inside(node, d, start, 0);
        lemma_resolve_left(c[0], (d - 1) as nat, start + 1);
    }
}

/// The way to the offset `d` before the end of a node whose content has
/// `d` nested parent nodes at its end goes through these `d` nodes.
pub proof fn lemma_resolve_right(node: NodeView, d: nat, start: nat)
    requires
        opens_right(node.content, d),
    ensures
        content_size(node.content) >= d,
        resolve_path(node, (content_size(node.content) - d) as nat, start).len() == d + 1,
    decreases d,
{
    let c = node.content;
    lemma_opens_right_size(c, d);
    if d > 0 {
        let i = (c.len() - 1) as nat;
        lemma_opens_right_size(c.last().content, (d - 1) as nat);
        assert(size_upto(c, i + 1) == size_upto(c, i) + node_size(c[i as int]));
        let offset = (content_size(c) - d) as nat;
        lemma_resolve_path_inside(node, offset, start, i);
        lemma_resolve_right(c.last(), (d - 1) as nat, start + size_upto(c, i) + 1);
    }
}

/// The slice content in copies of ancestors is a parent whose content
/// holds the slice content and two tokens for every copy below; the way
/// to the start of the slice in it goes through the copies and the nodes
/// that the slice has open at its start, and the way to its end through
/// the copies and the nodes that the slice has open at its end.
pub proof fn lemma_wrapped(
    along: PosView,
    content: Seq<NodeView>,
    extra: int,
    i: int,
    open_start: nat,
    open_end: nat,
    start: nat,
)
    requires
        0 <= i <= extra,
        forall|j: int| i <= j <= extra ==> (#[trigger] along.path[j]).node.kind.parent(),
        opens_left(content, open_start),
        opens_right(content, open_end),
    ensures
        wrapped(along, content, extra, i).kind.parent(),
        content_size(wrapped(along, content, extra, i).content) == content_size(content) + 2 * (
        extra - i),
        content_size(content) >= open_end,
        resolve_path(
            wrapped(along, content, extra, i),
            (open_start + extra - i) as nat,
            start,
        ).len() == open_start + extra - i + 1,
        resolve_path(
            wrapped(along, content, extra, i),
            (content_size(content) + extra - i - open_end) as nat,
            start,
        ).len() == open_end + extra - i + 1,
    decreases extra - i,
{
    let w = wrapped(along, content, extra, i);
    lemma_opens_left_size(content, open_start);
    lemma_opens_right_size(content, open_end);
    assert(along.path[i].node.kind.parent());
    if i >= extra {
        assert(along.path[extra].node.kind.parent());
        lemma_resolve_left(w, open_start, start);
        lemma_resolve_right(w, open_end, start);
    } else {
        let inner = wrapped(along, content, extra, i + 1);
        lemma_wrapped(along, content, extra, i + 1, open_start, open_end, start + 1);
        assert(w.content == seq![inner]);
        lemma_content_size_one(inner);
        assert(size_upto(w.content, 1) == size_upto(w.content, 0) + node_size(inner));
        lemma_resolve_path_inside(w, (open_start + extra - i) as nat, start, 0);
        lemma_resolve_path_inside(
            w,
            (content_size(content) + extra - i - open_end) as nat,
            start,
            0,
        );
    }
}

/// The slice content in copies of ancestors is a parent whose content
/// holds the slice content and two tokens for every copy below.
pub proof fn lemma_wrapped_size(along: PosView, content: Seq<NodeView>, extra: int, i: int)
    requires
        0 <= i <= extra,
        forall|j: int| i <= j <= extra ==> (#[trigger] along.path[j]).node.kind.parent(),
    ensures
        wrapped(along, content, extra, i).kind.parent(),
        content_size(wrapped(along, content, extra, i).content) == content_size(content) + 2 * (
        extra - i),
    decreases extra - i,
{
    assert(along.path[i].node.kind.parent());
    if i < extra {
        lemma_wrapped_size(along, content, extra, i + 1);
        lemma_content_size_one(wrapped(along, content, extra, i + 1));
    } else {
        assert(along.path[extra].node.kind.parent());
    }
}

/// In the document that a well-formed slice is prepared as, the start of
/// the slice lies as deep as the position that it is prepared along, and
/// its end lies as deep as the slice is open there below the copies.
pub proof fn lemma_prepared(slice: SliceView, along: PosView)
    requires
        along.well_formed(),
        slice.well_formed(),
        slice.open_start <= along.depth(),
        along.node(0).kind.parent(),
    ensures
        prepared(slice, along).kind.parent(),
        content_size(prepared(slice, along).content) == content_size(slice.content) + 2 * (
        along.depth() - slice.open_start),
        content_size(slice.content) >= slice.open_end,
        resolve(prepared(slice, along), along.depth()).depth() == along.depth(),
        resolve(
            prepared(slice, along),
            (content_size(slice.content) + along.depth() - slice.open_start
                - slice.open_end) as nat,
        ).depth() == along.depth() - slice.open_start + slice.open_end,
{
    let extra = along.depth() - slice.open_start;
    assert forall|j: int| 0 <= j <= extra implies (#[trigger] along.path[j]).node.kind.parent() by {
        if j > 0 {
            assert(entry_links(along.path, along.pos, j - 1));
        }
    }
    lemma_wrapped(along, slice.content, extra, 0, slice.open_start, slice.open_end, 0);
}

/// The sum that bounds the size of a three-way join in the ancestors at
/// `depth`: the content of the ancestors of the four positions, that of
/// the end of the slice counted twice.
pub open spec fn join_bound(from: PosView, start: PosView, end: PosView, to: PosView, depth: int) -> nat {
    content_size(from.node(depth).content) + content_size(start.node(depth).content) + 2
        * content_size(end.node(depth).content) + content_size(to.node(depth).content)
}

/// What the two halves of a three-way join add is no larger than the
/// children that the ancestors of the positions hold from the index of
/// `from` and up to the index of `to`.
pub proof fn lemma_halves_size(
    from: PosView,
    start: PosView,
    end: PosView,
    to: PosView,
    depth: int,
    out: Seq<NodeView>,
)
    requires
        from.well_formed(),
        start.well_formed(),
        end.well_formed(),
        to.well_formed(),
        0 <= depth <= from.depth() == start.depth(),
        depth <= to.depth() == end.depth(),
    ensures
        replace_halves(from, start, end, to, depth, out) matches Ok(content) ==> content_size(
            content,
        ) <= content_size(out) + (if from.depth() > depth {
            node_size(from.node(depth).content[from.index(depth) as int])
        } else {
            0
        }) + content_size(start.node(depth).content) + 2 * content_size(
            end.node(depth).content,
        ) + (if to.depth() > depth {
            node_size(to.node(depth).content[to.index(depth) as int])
        } else {
            0
        }) - (if from.depth() > depth {
            2nat
        } else {
            0
        }) - (if to.depth() > depth {
            2nat
        } else {
            0
        }),
{
    if replace_halves(from, start, end, to, depth, out) is Ok {
        assert(entry_leads(start.path, 0, start.pos, depth));
        assert(entry_leads(end.path, 0, end.pos, depth));
        let out1 = if from.depth() > depth {
            assert(entry_links(from.path, from.pos, depth));
            assert(entry_links(start.path, start.pos, depth));
            lemma_two_way_size(from, start, depth + 1);
            let inner = replace_two_way(from, start, depth + 1).unwrap();
            let closed = close(from.node(depth + 1), inner).unwrap();
            lemma_add_node_size(out, closed);
            let sc = start.node(depth).content;
            let si = start.index(depth);
            assert(size_upto(sc, si + 1) == size_upto(sc, si) + node_size(sc[si as int]));
            lemma_size_upto_mono(sc, si + 1, sc.len());
            add_node(out, closed)
        } else {
            out
        };
        let out2 = add_range(Some(start), Some(end), depth, out1);
        lemma_add_range_between_size(start, end, depth, out1);
        if to.depth() > depth {
            assert(entry_links(to.path, to.pos, depth));
            assert(entry_links(end.path, end.pos, depth));
            lemma_two_way_size(end, to, depth + 1);
            let inner = replace_two_way(end, to, depth + 1).unwrap();
            let closed = close(end.node(depth + 1), inner).unwrap();
            lemma_add_node_size(out2, closed);
            let ec = end.node(depth).content;
            let ei = end.index(depth);
            assert(size_upto(ec, ei + 1) == size_upto(ec, ei) + node_size(ec[ei as int]));
            lemma_size_upto_mono(ec, ei + 1, ec.len());
        }
    }
}

/// A three-way join is no larger than the content of the ancestors of the
/// four positions together, that of the end of the slice counted twice.
pub proof fn lemma_three_way_size(
    from: PosView,
    start: PosView,
    end: PosView,
    to: PosView,
    depth: int,
)
    requires
        from.well_formed(),
        start.well_formed(),
        end.well_formed(),
        to.well_formed(),
        0 <= depth <= from.depth() == start.depth(),
        depth <= to.depth() == end.depth(),
    ensures
        replace_three_way(from, start, end, to, depth) matches Ok(content) ==> content_size(
            content,
        ) <= join_bound(from, start, end, to, depth),
    decreases from.depth() - depth,
{
    if replace_three_way(from, start, end, to, depth) is Ok {
        let f = from.node(depth).content;
        let t = to.node(depth).content;
        let fi = from.index(depth);
        let ti = to.index(depth);
        let left = add_range(None, Some(from), depth, Seq::empty());
        lemma_add_range_before_size(from, depth, Seq::empty());
        assert(content_size(Seq::<NodeView>::empty()) == 0);
        assert(entry_leads(from.path, 0, from.pos, depth));
        assert(entry_leads(to.path, 0, to.pos, depth));
        assert(entry_leads(start.path, 0, start.pos, depth));
        assert(entry_leads(end.path, 0, end.pos, depth));
        lemma_size_upto_mono(f, fi, f.len());
        if fi < f.len() {
            assert(size_upto(f, fi + 1) == size_upto(f, fi) + node_size(f[fi as int]));
            lemma_size_upto_mono(f, fi + 1, f.len());
        }
        if ti < t.len() {
            assert(size_upto(t, ti + 1) == size_upto(t, ti) + node_size(t[ti as int]));
            lemma_size_upto_mono(t, ti + 1, t.len());
        }
        lemma_size_upto_mono(t, ti, t.len());
        if from.depth() > depth {
            assert(entry_links(from.path, from.pos, depth));
        }
        if to.depth() > depth {
            assert(entry_links(to.path, to.pos, depth));
        }
        if from.depth() > depth && to.depth() > depth && start.index(depth) == end.index(depth) {
            assert(entry_links(start.path, start.pos, depth));
            assert(entry_links(end.path, end.pos, depth));
            lemma_three_way_size(from, start, end, to, depth + 1);
            let inner = replace_three_way(from, start, end, to, depth + 1).unwrap();
            let closed = close(from.node(depth + 1), inner).unwrap();
            lemma_add_node_size(left, closed);
            let out = add_node(left, closed);
            lemma_add_range_after_size(to, depth, out);
            let sc = start.node(depth).content;
            let si = start.index(depth);
            assert(size_upto(sc, si + 1) == size_upto(sc, si) + node_size(sc[si as int]));
            lemma_size_upto_mono(sc, si + 1, sc.len());
            let ec = end.node(depth).content;
            let ei = end.index(depth);
            assert(size_upto(ec, ei + 1) == size_upto(ec, ei) + node_size(ec[ei as int]));
            lemma_size_upto_mono(ec, ei + 1, ec.len());
        } else {
            lemma_halves_size(from, start, end, to, depth, left);
            let out = replace_halves(from, start, end, to, depth, left).unwrap();
            lemma_add_range_after_size(to, depth, out);
        }
    }
}

/// The bound of a three-way join one level deeper, with the tokens of the
/// nodes there, is no larger than the bound at this level.
pub proof fn lemma_join_bound_nests(
    from: PosView,
    start: PosView,
    end: PosView,
    to: PosView,
    depth: int,
)
    requires
        from.well_formed(),
        start.well_formed(),
        end.well_formed(),
        to.well_formed(),
        0 <= depth <= from.depth() == start.depth(),
        depth <= to.depth() == end.depth(),
    ensures
        from.depth() > depth ==> content_size(from.node(depth + 1).content) + content_size(
            start.node(depth + 1).content,
        ) + 2 <= join_bound(from, start, end, to, depth),
        to.depth() > depth ==> content_size(end.node(depth + 1).content) + content_size(
            to.node(depth + 1).content,
        ) + 2 <= join_bound(from, start, end, to, depth),
        from.depth() > depth && to.depth() > depth ==> join_bound(
            from,
            start,
            end,
            to,
            depth + 1,
        ) + 2 <= join_bound(from, start, end, to, depth),
{
    if from.depth() > depth {
        lemma_path_nests(from.path, 0, from.pos, depth);
        lemma_path_nests(start.path, 0, start.pos, depth);
    }
    if to.depth() > depth {
        lemma_path_nests(to.path, 0, to.pos, depth);
        lemma_path_nests(end.path, 0, end.pos, depth);
    }
}

/// A three-way join with a prepared slice is no larger than the content of
/// the ancestor at `depth` with the size of the document and three times
/// that of the prepared slice.
pub proof fn lemma_join_prepared_size(from: PosView, to: PosView, slice: SliceView, depth: int)
    requires
        from.well_formed(),
        to.well_formed(),
        slice.well_formed(),
        from.node(0).kind.parent(),
        slice.open_start <= from.depth(),
        from.depth() - slice.open_start == to.depth() - slice.open_end,
        0 <= depth <= from.depth() - slice.open_start,
        content_size(from.node(0).content) == content_size(to.node(0).content),
    ensures
        ({
            let n = prepared(slice, from);
            let start = from.depth();
            let end = (content_size(n.content) - slice.open_end - (from.depth()
                - slice.open_start)) as nat;
            &&& start <= content_size(n.content)
            &&& end <= content_size(n.content)
            &&& resolve(n, start).well_formed()
            &&& resolve(n, end).well_formed()
            &&& resolve(n, start).depth() == from.depth()
            &&& resolve(n, end).depth() == to.depth()
            &&& join_bound(from, resolve(n, start), resolve(n, end), to, depth) <= content_size(
                from.node(depth).content,
            ) + growth(from, slice)
            &&& (replace_three_way(from, resolve(n, start), resolve(n, end), to, depth) matches Ok(
                content,
            ) ==> content_size(content) <= content_size(from.node(depth).content) + growth(
                from,
                slice,
            ))
        }),
{
    lemma_prepared(slice, from);
    lemma_opens_left_size(slice.content, slice.open_start);
    lemma_opens_right_size(slice.content, slice.open_end);
    let n = prepared(slice, from);
    let start = from.depth();
    let end = (content_size(n.content) - slice.open_end - (from.depth() - slice.open_start)) as nat;
    lemma_resolve(n, start);
    lemma_resolve(n, end);
    let rs = resolve(n, start);
    let re = resolve(n, end);
    lemma_three_way_size(from, rs, re, to, depth);
    lemma_path_within(rs.path, 0, rs.pos, depth);
    lemma_path_within(re.path, 0, re.pos, depth);
    lemma_path_within(to.path, 0, to.pos, depth);
}

/// The node that replacing gives at `depth` is larger than the ancestor
/// there by no more than the size of the document and three times that of
/// the prepared slice.
pub proof fn lemma_replace_outer_size(from: PosView, to: PosView, slice: SliceView, depth: int)
    requires
        from.well_formed(),
        to.well_formed(),
        slice.well_formed(),
        from.node(0).kind.parent(),
        slice.open_start <= from.depth(),
        from.depth() - slice.open_start == to.depth() - slice.open_end,
        0 <= depth <= from.depth() - slice.open_start,
        to.node(depth) == from.node(depth),
        content_size(from.node(0).content) == content_size(to.node(0).content),
    ensures
        replace_outer(from, to, slice, depth) matches Ok(r) ==> content_size(r.content)
            <= content_size(from.node(depth).content) + growth(from, slice),
        index_shared(from, to, slice, depth) ==> to.node(depth + 1) == from.node(depth + 1),
    decreases from.depth() - depth,
{
    let node = from.node(depth);
    let index = from.index(depth);
    assert(entry_leads(from.path, 0, from.pos, depth));
    assert(entry_leads(to.path, 0, to.pos, depth));
    lemma_path_within(from.path, 0, from.pos, depth);
    lemma_path_within(to.path, 0, to.pos, depth);
    if depth > 0 {
        assert(entry_links(from.path, from.pos, depth - 1));
    }
    if index == to.index(depth) && depth < from.depth() - slice.open_start {
        assert(entry_links(from.path, from.pos, depth));
        assert(entry_links(to.path, to.pos, depth));
        lemma_replace_outer_size(from, to, slice, depth + 1);
        if replace_outer(from, to, slice, depth) is Ok {
            let inner = replace_outer(from, to, slice, depth + 1).unwrap();
            lemma_replace_outer_kind(from, to, slice, depth + 1);
            lemma_content_size_update(node.content, index as int, inner);
        }
    } else if content_size(slice.content) == 0 {
        lemma_opens_left_size(slice.content, slice.open_start);
        lemma_opens_right_size(slice.content, slice.open_end);
        lemma_two_way_size(from, to, depth);
    } else if slice.open_start == 0 && slice.open_end == 0 && from.depth() == depth && to.depth()
        == depth {
        let content = node.content;
        lemma_cut_content_size(content, 0, from.parent_offset());
        lemma_cut_content_size(content, to.parent_offset(), content_size(content));
        lemma_append_content_size(cut_content(content, 0, from.parent_offset()), slice.content);
        lemma_append_content_size(
            append_content(cut_content(content, 0, from.parent_offset()), slice.content),
            cut_content(content, to.parent_offset(), content_size(content)),
        );
    } else {
        lemma_join_prepared_size(from, to, slice, depth);
    }
}

/// True when replacing goes on one level deeper at `depth`: both positions
/// lie in one child there, above the depth to which the slice is open.
pub open spec fn index_shared(from: PosView, to: PosView, slice: SliceView, depth: int) -> bool {
    from.index(depth) == to.index(depth) && depth < from.depth() - slice.open_start
}

/// The node that replacing gives at `depth` is of the type of the ancestor
/// there, a parent, and has its attributes and marks.
pub proof fn lemma_replace_outer_kind(from: PosView, to: PosView, slice: SliceView, depth: int)
    requires
        from.well_formed(),
        0 < depth <= from.depth(),
    ensures
        replace_outer(from, to, slice, depth) matches Ok(r) ==> r.kind == from.node(depth).kind
            && r.kind.parent() && node_size(r) == content_size(r.content) + 2 && r.marks
            == from.node(depth).marks,
{
    assert(entry_links(from.path, from.pos, depth - 1));
}

/// The depth at which replacing stops going down from `depth`: the first
/// depth at which the two positions do not lie in one child above the depth
/// to which the slice is open.
pub open spec fn stop_depth(from: PosView, to: PosView, slice: SliceView, depth: int) -> int
    decreases from.depth() - depth,
{
    if index_shared(from, to, slice, depth) {
        stop_depth(from, to, slice, depth + 1)
    } else {
        depth
    }
}

/// True when the node accepts its content and so does, down the way of
/// `from` from `depth` to `stop`, every node on that way.
pub open spec fn spine_accepts(n: NodeView, from: PosView, depth: int, stop: int) -> bool
    decreases stop - depth,
{
    n.kind.accepts(n.content) && (depth < stop ==> from.index(depth) < n.content.len()
        && spine_accepts(n.content[from.index(depth) as int], from, depth + 1, stop))
}

/// True when the nodes that `from` lies in from `depth` down to above
/// `stop` accept their content.
pub open spec fn above_accept(from: PosView, depth: int, stop: int) -> bool {
    forall|d: int| depth <= d < stop ==> (#[trigger] from.node(d)).kind.accepts(from.node(d).content)
}

/// After a successful replace, every node on the rebuilt spine accepts its
/// content: the node that was closed around new content, and above it the
/// ancestors of the range, where they accepted their content before.
pub proof fn lemma_replace_outer_accepts(from: PosView, to: PosView, slice: SliceView, depth: int)
    requires
        from.well_formed(),
        from.node(0).kind.parent(),
        0 <= depth <= from.depth(),
        above_accept(from, depth, stop_depth(from, to, slice, depth)),
    ensures
        replace_outer(from, to, slice, depth) matches Ok(r) ==> spine_accepts(
            r,
            from,
            depth,
            stop_depth(from, to, slice, depth),
        ),
    decreases from.depth() - depth,
{
    let node = from.node(depth);
    let index = from.index(depth);
    let stop = stop_depth(from, to, slice, depth);
    assert(node.kind.parent()) by {
        if depth > 0 {
            assert(entry_links(from.path, from.pos, depth - 1));
        }
    }
    if replace_outer(from, to, slice, depth) is Ok {
        let r = replace_outer(from, to, slice, depth).unwrap();
        if index_shared(from, to, slice, depth) {
            assert(entry_links(from.path, from.pos, depth));
            lemma_stop_depth(from, to, slice, depth + 1);
            assert(above_accept(from, depth + 1, stop)) by {
                assert forall|d: int| depth + 1 <= d < stop implies (#[trigger] from.node(
                    d,
                )).kind.accepts(from.node(d).content) by {}
            }
            lemma_replace_outer_accepts(from, to, slice, depth + 1);
            lemma_replace_outer_kind(from, to, slice, depth + 1);
            let inner = replace_outer(from, to, slice, depth + 1).unwrap();
            let updated = node.content.update(index as int, inner);
            assert(from.node(depth).kind.accepts(from.node(depth).content));
            node.kind.start().lemma_after_kinds(
                node.content,
                updated,
                0,
                node.content.len() as int,
            );
            assert(node.kind.accepts(updated)) by {
                assert forall|i: int| 0 <= i < updated.len() implies (#[trigger] updated[i]).marks.len()
                    == 0 || node.kind.marks_allowed() by {
                    assert(node.content[i].marks.len() == 0 || node.kind.marks_allowed());
                }
            }
            assert(r.content == updated);
        }
    }
}

/// Replacing stops going down at a depth of the position, at or below the
/// depth that it starts from.
pub proof fn lemma_stop_depth(from: PosView, to: PosView, slice: SliceView, depth: int)
    requires
        0 <= depth <= from.depth(),
    ensures
        depth <= stop_depth(from, to, slice, depth) <= from.depth(),
    decreases from.depth() - depth,
{
    if index_shared(from, to, slice, depth) {
        lemma_stop_depth(from, to, slice, depth + 1);
    }
}

/// After a successful replace in a document, every node on the rebuilt
/// spine accepts its content, where the ancestors of the start of the range
/// accepted their content before.
pub proof fn lemma_replace_doc_accepts(doc: NodeView, from: usize, to: usize, slice: SliceView)
    requires
        doc.kind.parent(),
        from <= content_size(doc.content),
        above_accept(resolve(doc, from as nat), 0, resolve(doc, from as nat).depth() as int),
    ensures
        replace_doc(doc, from, to, slice) matches Ok(r) ==> spine_accepts(
            r,
            resolve(doc, from as nat),
            0,
            stop_depth(resolve(doc, from as nat), resolve(doc, to as nat), slice, 0),
        ),
{
    let rf = resolve(doc, from as nat);
    let rt = resolve(doc, to as nat);
    lemma_resolve(doc, from as nat);
    lemma_stop_depth(rf, rt, slice, 0);
    let stop = stop_depth(rf, rt, slice, 0);
    assert(above_accept(rf, 0, stop)) by {
        assert forall|d: int| 0 <= d < stop implies (#[trigger] rf.node(d)).kind.accepts(
            rf.node(d).content,
        ) by {}
    }
    lemma_replace_outer_accepts(rf, rt, slice, 0);
}

} // verus!
