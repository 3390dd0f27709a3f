//! Slices: a fragment with the depths to which it is open at its sides.

use super::cut::{
    cut_child, cut_content, cut_node, cut_upto, lemma_cut_upto_first, lemma_cut_upto_last,
    min_nat,
};
use super::content::ContentMatchError;
use super::cut::lemma_cut_content_size;
use super::fragment::{Fragment, Index, IndexError};
use super::joining::{self, lemma_insert_into_size};
use super::view::lemma_append_content_size;
use crate::markdown::MarkdownNode;
use std::borrow::Cow;
use super::position::{
    entry_leads, lemma_resolve, lemma_resolve_path_len, lemma_resolve_shares, lemma_shared_from,
    resolve, resolve_path, PathEntry,
};
use super::view::{
    content_size, find_index, lemma_find_index, lemma_size_upto_mono, node_size, size_upto,
    NodeView,
};
use vstd::prelude::*;
use vstd::std_specs::cmp::PartialEqSpecImpl;

verus! {

/// A slice of a fragment
#[derive(Debug)]
pub struct Slice {
    /// The slice's content.
    pub content: Fragment,
    /// The open depth at the start.
    pub open_start: usize,
    /// The open depth at the end.
    pub open_end: usize,
}

/// Error on insertion
#[derive(Debug, Copy, Clone, PartialEq, Eq, Structural)]
pub enum InsertError {
    /// Index error
    Index(IndexError),
    /// Content match error
    Content(ContentMatchError),
}

/// What a result with a fragment holds, as plain values.
pub open spec fn inserted_view(r: Result<Option<Fragment>, InsertError>) -> Result<
    Option<Seq<NodeView>>,
    InsertError,
> {
    match r {
        Ok(Some(f)) => Ok(Some(f@)),
        Ok(None) => Ok(None),
        Err(e) => Err(e),
    }
}

/// What a result with a slice holds, as plain values.
pub open spec fn inserted_slice_view(r: Result<Option<Slice>, InsertError>) -> Result<
    Option<SliceView>,
    InsertError,
> {
    match r {
        Ok(Some(s)) => Ok(Some(s@)),
        Ok(None) => Ok(None),
        Err(e) => Err(e),
    }
}

/// Puts the fragment `insert` into the content at the offset `dist`, at the
/// level at which the offset lies between two children or inside a text
/// node. `parent` is the node that holds the content, if there is one.
#[verifier::rlimit(50)]
fn insert_into(
    content: &Fragment,
    dist: usize,
    insert: Fragment,
    parent: Option<&MarkdownNode>,
) -> (r: Result<Option<Fragment>, InsertError>)
    requires
        parent matches Some(p) ==> p@.content == content@,
        2 * content_size(content@) + content_size(insert@) + 2 <= usize::MAX,
    ensures
        inserted_view(r) == joining::insert_into(
            content@,
            dist as nat,
            insert@,
            match parent {
                Some(p) => Some(p@),
                None => None,
            },
        ),
    decreases content_size(content@),
{
    let ghost parent_view = match parent {
        Some(p) => Some(p@),
        None => None,
    };
    proof {
        lemma_insert_into_size(content@, dist as nat, insert@, parent_view);
        if dist <= content_size(content@) {
            lemma_find_index(content@, dist as nat, false);
        }
    }
    let Index { index, offset } = match content.find_index(dist, false) {
        Ok(i) => i,
        Err(e) => {
            return Err(InsertError::Index(e));
        },
    };
    let child = content.maybe_child(index);
    let text_child = match child {
        Some(c) => c.is_text(),
        None => false,
    };
    if offset == dist || text_child {
        if let Some(p) = parent {
            match p.can_replace(index, index, &insert) {
                Ok(fits) => {
                    if !fits {
                        return Ok(None);
                    }
                },
                Err(e) => {
                    return Err(InsertError::Content(e));
                },
            }
        }
        proof {
            lemma_cut_content_size(content@, 0, dist as nat);
            lemma_cut_content_size(content@, dist as nat, content_size(content@));
            lemma_append_content_size(cut_content(content@, 0, dist as nat), insert@);
        }

        Ok(Some(content.cut(0..dist).append(insert).append(content.cut(dist..content.size()))))
    } else {
        let child = child.unwrap();  // the offset lies inside the child
        proof {
            assert(child@.kind.parent());
        }
        let inner_content = match child.content() {
            Some(c) => c,
            None => {
                return Ok(None);
            },
        };
        proof {
            let i = index as nat;
            assert(size_upto(content@, i + 1) == size_upto(content@, i) + node_size(child@));
            lemma_size_upto_mono(content@, i + 1, content@.len());
            lemma_insert_into_size(
                child@.content,
                (dist - offset - 1) as nat,
                insert@,
                Some(child@),
            );
        }
        let inner = match insert_into(inner_content, dist - offset - 1, insert, Some(child)) {
            Ok(i) => i,
            Err(e) => {
                return Err(e);
            },
        };
        if let Some(i) = inner {
            let replaced = match content.replace_child(index, child.with_content(i)) {
                Cow::Borrowed(b) => b.clone(),
                Cow::Owned(o) => o,
            };
            Ok(Some(replaced))
        } else {
            Ok(None)
        }
    }
}

/// What a slice holds, as plain values.
pub struct SliceView {
    /// The content of the slice
    pub content: Seq<NodeView>,
    /// The open depth at the start
    pub open_start: nat,
    /// The open depth at the end
    pub open_end: nat,
}

/// True when the fragment has `d` nested parent nodes at its start: a first
/// node that is a parent whose content has `d - 1` such nodes at its start.
pub open spec fn opens_left(c: Seq<NodeView>, d: nat) -> bool
    decreases d,
{
    d == 0 || (c.len() > 0 && c[0].kind.parent() && opens_left(c[0].content, (d - 1) as nat))
}

/// True when the fragment has `d` nested parent nodes at its end.
pub open spec fn opens_right(c: Seq<NodeView>, d: nat) -> bool
    decreases d,
{
    d == 0 || (c.len() > 0 && c.last().kind.parent() && opens_right(
        c.last().content,
        (d - 1) as nat,
    ))
}

/// A fragment with `d` nested parent nodes at its start holds at least
/// their `2 * d` tokens.
pub proof fn lemma_opens_left_size(c: Seq<NodeView>, d: nat)
    requires
        opens_left(c, d),
    ensures
        content_size(c) >= 2 * d,
    decreases d,
{
    if d > 0 {
        lemma_opens_left_size(c[0].content, (d - 1) as nat);
        lemma_size_upto_mono(c, 1, c.len());
        assert(size_upto(c, 1) == size_upto(c, 0) + node_size(c[0]));
    }
}

/// A fragment with `d` nested parent nodes at its end holds at least
/// their `2 * d` tokens.
pub proof fn lemma_opens_right_size(c: Seq<NodeView>, d: nat)
    requires
        opens_right(c, d),
    ensures
        content_size(c) >= 2 * d,
    decreases d,
{
    if d > 0 {
        lemma_opens_right_size(c.last().content, (d - 1) as nat);
        let i = (c.len() - 1) as nat;
        assert(size_upto(c, i + 1) == size_upto(c, i) + node_size(c[i as int]));
    }
}

/// A cut that starts at an offset has, at its start, the nested parent
/// nodes that the way to that offset goes through.
pub proof fn lemma_cut_opens_left(node: NodeView, a: nat, b: nat, start: nat)
    requires
        a < b <= content_size(node.content),
    ensures
        opens_left(cut_content(node.content, a, b), (resolve_path(node, a, start).len() - 1) as nat),
    decreases node,
{
    let c = node.content;
    lemma_find_index(c, a, false);
    let found = find_index(c, a, false).unwrap();
    let i = found.0;
    let off = found.1;
    let rest = (a - off) as nat;
    if rest == 0 || i >= c.len() || c[i as int].is_text() {
        assert(resolve_path(node, a, start).len() == 1);
    } else {
        let child = c[i as int];
        let tail = resolve_path(child, (rest - 1) as nat, start + off + 1);
        assert(resolve_path(node, a, start) == seq![
            PathEntry { node, index: i, before: start + off },
        ] + tail);
        assert(size_upto(c, i + 1) == size_upto(c, i) + node_size(child));
        lemma_cut_upto_first(c, a, b, i, c.len());
        let a1 = (rest - 1) as nat;
        let b1 = min_nat(content_size(child.content), (b - (off + 1)) as nat);
        let cut = cut_content(c, a, b);
        assert(cut == cut_upto(c, a, b, c.len()));
        assert(child.kind.parent());
        assert(cut_child(child, off, a, b) == cut_node(child, a1, b1));
        assert(cut[0] == cut_node(child, a1, b1));
        assert(tail.len() >= 1) by {
            lemma_resolve_path_len(child, (rest - 1) as nat, start + off + 1);
        }
        if tail.len() > 1 {
            lemma_find_index(child.content, a1, false);
            assert(a1 < content_size(child.content) && a1 > 0) by {
                if a1 == content_size(child.content) || a1 == 0 {
                    assert(tail.len() == 1);
                }
            }
            lemma_cut_opens_left(child, a1, b1, start + off + 1);
            assert(cut[0].content == cut_content(child.content, a1, b1));
        }
        assert(opens_left(cut[0].content, (tail.len() - 1) as nat));
    }
}

/// A cut that ends at an offset has, at its end, the nested parent nodes
/// that the way to that offset goes through.
pub proof fn lemma_cut_opens_right(node: NodeView, a: nat, b: nat, start: nat)
    requires
        a < b <= content_size(node.content),
    ensures
        opens_right(
            cut_content(node.content, a, b),
            (resolve_path(node, b, start).len() - 1) as nat,
        ),
    decreases node,
{
    let c = node.content;
    lemma_find_index(c, b, false);
    let found = find_index(c, b, false).unwrap();
    let i = found.0;
    let off = found.1;
    let rest = (b - off) as nat;
    if rest == 0 || i >= c.len() || c[i as int].is_text() {
        assert(resolve_path(node, b, start).len() == 1);
    } else {
        let child = c[i as int];
        let tail = resolve_path(child, (rest - 1) as nat, start + off + 1);
        assert(resolve_path(node, b, start) == seq![
            PathEntry { node, index: i, before: start + off },
        ] + tail);
        assert(size_upto(c, i + 1) == size_upto(c, i) + node_size(child));
        lemma_size_upto_mono(c, i + 1, c.len());
        lemma_cut_upto_last(c, a, b, i);
        let a1: nat = if a > off + 1 {
            (a - (off + 1)) as nat
        } else {
            0
        };
        let b1 = (rest - 1) as nat;
        let cut = cut_content(c, a, b);
        assert(cut == cut_upto(c, a, b, c.len()));
        assert(child.kind.parent());
        assert(cut_child(child, off, a, b) == cut_node(child, a1, b1));
        assert(cut.last() == cut_node(child, a1, b1));
        assert(tail.len() >= 1) by {
            lemma_resolve_path_len(child, (rest - 1) as nat, start + off + 1);
        }
        if tail.len() > 1 {
            lemma_find_index(child.content, b1, false);
            assert(b1 > 0 && b1 < content_size(child.content)) by {
                if b1 == 0 || b1 == content_size(child.content) {
                    assert(tail.len() == 1);
                }
            }
            lemma_cut_opens_right(child, a1, b1, start + off + 1);
            assert(cut.last().content == cut_content(child.content, a1, b1));
        }
        assert(opens_right(cut.last().content, (tail.len() - 1) as nat));
    }
}

/// The slice of a range of a document that is not empty has nodes of its
/// open depths at its sides.
pub proof fn lemma_slice_of_well_formed(doc: NodeView, from: nat, to: nat, include_parents: bool)
    requires
        from < to <= content_size(doc.content),
    ensures
        slice_of(doc, from, to, include_parents).well_formed(),
{
    let rp_from = resolve(doc, from);
    let rp_to = resolve(doc, to);
    lemma_resolve(doc, from);
    lemma_resolve(doc, to);
    let depth: nat = if include_parents {
        0
    } else {
        rp_from.shared_depth(to)
    };
    lemma_shared_from(rp_from, to, rp_from.depth());
    let d = depth as int;
    assert(entry_leads(rp_from.path, 0, from, d));
    lemma_resolve_shares(doc, from, to, d);
    lemma_resolve_shares(doc, from, from, d);
    let node = rp_from.node(d);
    let start = rp_from.start(d);
    lemma_cut_opens_left(node, (from - start) as nat, (to - start) as nat, start);
    lemma_cut_opens_right(node, (from - start) as nat, (to - start) as nat, start);
}

impl SliceView {
    /// The slice without content.
    pub open spec fn empty() -> SliceView {
        SliceView { content: Seq::empty(), open_start: 0, open_end: 0 }
    }

    /// True when the content has nodes of at least the open depths at its
    /// two sides.
    pub open spec fn well_formed(self) -> bool {
        opens_left(self.content, self.open_start) && opens_right(self.content, self.open_end)
    }
}

/// The slice of the document `doc` between two positions: nothing for an
/// empty range, and else the cut, between the two positions, of the content
/// of the deepest ancestor of the first position that spans the second (of
/// the root with `include_parents`), open as deep at its sides as the two
/// positions lie below that ancestor.
pub open spec fn slice_of(doc: NodeView, from: nat, to: nat, include_parents: bool) -> SliceView {
    if from == to {
        SliceView::empty()
    } else {
        let rp_from = resolve(doc, from);
        let rp_to = resolve(doc, to);
        let depth = if include_parents {
            0
        } else {
            rp_from.shared_depth(to)
        };
        let start = rp_from.start(depth as int);
        SliceView {
            content: cut_content(
                rp_from.node(depth as int).content,
                (from - start) as nat,
                (to - start) as nat,
            ),
            open_start: (rp_from.depth() - depth) as nat,
            open_end: (rp_to.depth() - depth) as nat,
        }
    }
}

impl View for Slice {
    type V = SliceView;

    open spec fn view(&self) -> SliceView {
        SliceView {
            content: self.content@,
            open_start: self.open_start as nat,
            open_end: self.open_end as nat,
        }
    }
}

/// True when the fragment has `depth` nested parent nodes at its start.
fn open_at_start(content: &Fragment, depth: usize) -> (r: bool)
    ensures
        r == opens_left(content@, depth as nat),
    decreases depth,
{
    if depth == 0 || content.child_count() == 0 {
        return depth == 0;
    }
    match content.child(0).content() {
        Some(inner) => open_at_start(inner, depth - 1),
        None => false,
    }
}

/// True when the fragment has `depth` nested parent nodes at its end.
fn open_at_end(content: &Fragment, depth: usize) -> (r: bool)
    ensures
        r == opens_right(content@, depth as nat),
    decreases depth,
{
    let count: usize = content.child_count();
    if depth == 0 || count == 0 {
        return depth == 0;
    }
    match content.child(count - 1).content() {
        Some(inner) => open_at_end(inner, depth - 1),
        None => false,
    }
}

impl Slice {
    /// Create a slice. When specifying a non-zero open depth, you must
    /// make sure that there are nodes of at least that depth at the
    /// appropriate side of the fragment: if the fragment is an empty
    /// paragraph node, `open_start` and `open_end` can't be greater than 1.
    ///
    /// It is not necessary for the content of open nodes to conform to
    /// the schema's content constraints, though it should be a valid
    /// start/end/middle for such a node, depending on which sides are
    /// open.
    pub fn new(content: Fragment, open_start: usize, open_end: usize) -> (r: Slice)
        ensures
            r.content == content,
            r.open_start == open_start,
            r.open_end == open_end,
    {
        Slice { content, open_start, open_end }
    }

    /// True when the content has nodes of at least the open depths at its
    /// two sides, as replacing asks of a slice.
    pub fn is_well_formed(&self) -> (r: bool)
        ensures
            r == self@.well_formed(),
    {
        open_at_start(&self.content, self.open_start) && open_at_end(&self.content, self.open_end)
    }

    /// The slice with the fragment put into its content at the offset `pos`
    /// after the open start: where that offset lies between two children or
    /// inside a text node. An offset past the end of the content is an
    /// error, and there is no slice if the node that would hold the fragment
    /// does not accept it. Twice the content and the fragment have to leave
    /// room for the two tokens of a node.
    pub fn insert_at(&self, pos: usize, fragment: Fragment) -> (r: Result<
        Option<Slice>,
        InsertError,
    >)
        requires
            pos + self.open_start <= usize::MAX,
            2 * content_size(self@.content) + content_size(fragment@) + 2 <= usize::MAX,
        ensures
            inserted_slice_view(r) == joining::insert_at(self@, pos as nat, fragment@),
    {
        let content = match insert_into(&self.content, pos + self.open_start, fragment, None) {
            Ok(c) => c,
            Err(e) => {
                return Err(e);
            },
        };
        match content {
            Some(c) => Ok(Some(Slice::new(c, self.open_start, self.open_end))),
            None => Ok(None),
        }
    }

    /// True when both slices hold the same content and open depths.
    pub fn same(&self, other: &Self) -> (r: bool)
        ensures
            r == (self@ == other@),
    {
        self.open_start == other.open_start && self.open_end == other.open_end
            && self.content.same(&other.content)
    }
}

impl Default for Slice {
    fn default() -> (r: Self)
        ensures
            r@ == SliceView::empty(),
    {
        Slice { content: Fragment::new(), open_start: 0, open_end: 0 }
    }
}

impl Clone for Slice {
    fn clone(&self) -> (r: Self)
        ensures
            r@ == self@,
    {
        Slice {
            content: self.content.clone(),
            open_start: self.open_start,
            open_end: self.open_end,
        }
    }
}

impl PartialEq for Slice {
    fn eq(&self, other: &Self) -> (r: bool) {
        self.same(other)
    }
}

impl PartialEqSpecImpl for Slice {
    open spec fn obeys_eq_spec() -> bool {
        true
    }

    open spec fn eq_spec(&self, other: &Self) -> bool {
        self@ == other@
    }
}

impl Eq for Slice {

}

} // verus!
