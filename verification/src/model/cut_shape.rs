//! The shape of a cut: which children it keeps, and which of them whole.

use super::cut::{cut_child, cut_content, cut_upto, lemma_cut_upto_skip};
use super::view::{
    content_size, find_index, lemma_find_index, lemma_size_upto_mono, node_size, size_upto,
    NodeView,
};
use vstd::prelude::*;

verus! {

/// True when every node of the fragment takes up room.
pub open spec fn sized(c: Seq<NodeView>) -> bool {
    forall|i: int| 0 <= i < c.len() ==> node_size(#[trigger] c[i]) > 0
}

/// What is left in a cut of the children from index `lo` up to index `hi`.
pub open spec fn cut_list(c: Seq<NodeView>, from: nat, to: nat, lo: int, hi: int) -> Seq<NodeView> {
    Seq::new(
        (hi - lo) as nat,
        |j: int| cut_child(c[lo + j], size_upto(c, (lo + j) as nat), from, to),
    )
}

/// The index of the first child that ends after the offset: the child that
/// the offset lies in or before.
pub open spec fn child_at(c: Seq<NodeView>, x: nat) -> int {
    find_index(c, x, false).unwrap().0 as int
}

/// The index after the last child that starts before the offset.
pub open spec fn child_before(c: Seq<NodeView>, y: nat) -> int {
    let found = find_index(c, y, false).unwrap();
    if found.1 < y {
        found.0 as int + 1
    } else {
        found.0 as int
    }
}

/// In a fragment of nodes that take up room, the child at an offset starts
/// at or before the offset and ends after it, and the children before an
/// offset are those that start before it.
pub proof fn lemma_child_at(c: Seq<NodeView>, x: nat)
    requires
        sized(c),
        x <= content_size(c),
    ensures
        0 <= child_at(c, x) <= c.len(),
        size_upto(c, child_at(c, x) as nat) <= x,
        child_at(c, x) < c.len() ==> x < size_upto(c, (child_at(c, x) + 1) as nat),
        x < content_size(c) ==> child_at(c, x) < c.len(),
        child_at(c, x) <= child_before(c, x) <= c.len(),
        x <= size_upto(c, child_before(c, x) as nat),
        child_before(c, x) > 0 ==> size_upto(c, (child_before(c, x) - 1) as nat) < x,
        find_index(c, x, false).unwrap().1 == size_upto(c, child_at(c, x) as nat),
{
    lemma_find_index(c, x, false);
    let i = child_at(c, x);
    if i < c.len() {
        assert(size_upto(c, (i + 1) as nat) == size_upto(c, i as nat) + node_size(c[i]));
    }
    if i > 0 {
        assert(size_upto(c, i as nat) == size_upto(c, (i - 1) as nat) + node_size(c[i - 1]));
    }
    lemma_size_upto_mono(c, i as nat, c.len());
}

/// The child at an offset is the one that starts at or before the offset
/// and ends after it; at the end of the fragment, the number of children.
pub proof fn lemma_child_at_unique(c: Seq<NodeView>, x: nat, i: int)
    requires
        sized(c),
        0 <= i <= c.len(),
        x <= content_size(c),
        size_upto(c, i as nat) <= x,
        i < c.len() ==> x < size_upto(c, (i + 1) as nat),
    ensures
        child_at(c, x) == i,
        child_before(c, x) == if size_upto(c, i as nat) < x {
            i + 1
        } else {
            i
        },
{
    lemma_child_at(c, x);
    let k = child_at(c, x);
    if k < i {
        lemma_size_upto_mono(c, (k + 1) as nat, i as nat);
    } else if k > i {
        lemma_size_upto_mono(c, (i + 1) as nat, k as nat);
    }
}

/// What the first `k` children leave in a cut are the cuts of the children
/// from the one at the start of the range up to `k`, or up to the last one
/// that starts before the end of the range.
pub proof fn lemma_cut_upto_list(c: Seq<NodeView>, from: nat, to: nat, k: int)
    requires
        sized(c),
        from < to <= content_size(c),
        0 <= k <= c.len(),
    ensures
        cut_upto(c, from, to, k as nat) == cut_list(
            c,
            from,
            to,
            child_at(c, from),
            if k <= child_at(c, from) {
                child_at(c, from)
            } else if k <= child_before(c, to) {
                k
            } else {
                child_before(c, to)
            },
        ),
    decreases k,
{
    lemma_child_at(c, from);
    lemma_child_at(c, to);
    let lo = child_at(c, from);
    let hi = child_before(c, to);
    assert(lo < hi) by {
        if hi <= lo {
            lemma_size_upto_mono(c, hi as nat, lo as nat);
        }
    }
    if k <= lo {
        lemma_size_upto_mono(c, k as nat, lo as nat);
        lemma_cut_upto_skip(c, from, to, k as nat);
        assert(cut_list(c, from, to, lo, lo) =~= Seq::<NodeView>::empty());
    } else {
        lemma_cut_upto_list(c, from, to, k - 1);
        let pos = size_upto(c, (k - 1) as nat);
        let end = pos + node_size(c[k - 1]);
        assert(size_upto(c, k as nat) == end);
        if k <= hi {
            lemma_size_upto_mono(c, (lo + 1) as nat, k as nat);
            if k < hi {
                lemma_size_upto_mono(c, k as nat, (hi - 1) as nat);
            }
            assert(pos < to && end > from);
            assert(cut_list(c, from, to, lo, k - 1).push(cut_child(c[k - 1], pos, from, to))
                =~= cut_list(c, from, to, lo, k));
        } else {
            lemma_size_upto_mono(c, hi as nat, (k - 1) as nat);
        }
    }
}

/// The cut of a fragment of nodes that take up room between two offsets
/// holds the cuts of the children from the one at the first offset up to
/// the last one that starts before the second offset.
pub proof fn lemma_cut_content_list(c: Seq<NodeView>, from: nat, to: nat)
    requires
        sized(c),
        from < to <= content_size(c),
    ensures
        child_at(c, from) < child_before(c, to) <= c.len(),
        cut_content(c, from, to) == cut_list(c, from, to, child_at(c, from), child_before(c, to)),
{
    lemma_child_at(c, from);
    lemma_child_at(c, to);
    let lo = child_at(c, from);
    let hi = child_before(c, to);
    if hi <= lo {
        lemma_size_upto_mono(c, hi as nat, lo as nat);
    }
    lemma_cut_upto_list(c, from, to, c.len() as int);
    if from == 0 && to == content_size(c) {
        assert(lo == 0);
        assert(hi == c.len()) by {
            if hi < c.len() {
                assert(size_upto(c, (hi + 1) as nat) == size_upto(c, hi as nat) + node_size(
                    c[hi],
                ));
                lemma_size_upto_mono(c, (hi + 1) as nat, c.len());
            }
        }
        assert(cut_list(c, from, to, 0, c.len() as int) =~= c) by {
            assert forall|j: int| 0 <= j < c.len() implies cut_child(
                c[j],
                size_upto(c, j as nat),
                from,
                to,
            ) == c[j] by {
                assert(size_upto(c, (j + 1) as nat) == size_upto(c, j as nat) + node_size(c[j]));
                lemma_size_upto_mono(c, (j + 1) as nat, c.len());
            }
        }
    }
}

/// A child that lies within the range stays whole in a cut.
pub proof fn lemma_cut_child_whole(n: NodeView, pos: nat, from: nat, to: nat)
    requires
        from <= pos,
        pos + node_size(n) <= to,
    ensures
        cut_child(n, pos, from, to) == n,
{
}

} // verus!
