//! Walking the nodes of a fragment between two offsets, on plain values.

use super::util::cut_text;
use super::view::{content_size, node_size, size_upto, NodeView};
use vstd::prelude::*;

verus! {

/// A node that a walk comes by, with the position before it.
pub struct Visit {
    /// The node
    pub node: NodeView,
    /// The position before the node
    pub pos: nat,
}

/// `a - b`, or zero where `b` is larger.
pub open spec fn minus(a: nat, b: nat) -> nat {
    if a > b {
        (a - b) as nat
    } else {
        0
    }
}

/// The smaller of two numbers.
pub open spec fn least(a: nat, b: nat) -> nat {
    if a <= b {
        a
    } else {
        b
    }
}

/// The nodes that a walk of the first `k` children of a fragment comes by
/// between the offsets `from` and `to`: every child that starts before `to`
/// and ends after `from`, each followed by what the walk of its content
/// between the two offsets comes by. `base` is the position at which the
/// fragment starts.
pub open spec fn visits(c: Seq<NodeView>, from: nat, to: nat, base: nat, k: nat) -> Seq<Visit>
    decreases c, k,
{
    if k == 0 || k > c.len() {
        Seq::empty()
    } else {
        let before = visits(c, from, to, base, (k - 1) as nat);
        let pos = size_upto(c, (k - 1) as nat);
        let child = c[k - 1];
        let end = pos + node_size(child);
        if pos < to && end > from {
            let start = pos + 1;
            before + seq![Visit { node: child, pos: base + pos }] + if child.kind.parent() {
                visits(
                    child.content,
                    minus(from, start),
                    least(content_size(child.content), minus(to, start)),
                    base + start,
                    child.content.len(),
                )
            } else {
                Seq::empty()
            }
        } else {
            before
        }
    }
}

/// Children that start at or after `to` are not walked.
pub proof fn lemma_visits_rest(c: Seq<NodeView>, from: nat, to: nat, base: nat, i: nat, k: nat)
    requires
        i <= k <= c.len(),
        size_upto(c, i) >= to,
    ensures
        visits(c, from, to, base, k) == visits(c, from, to, base, i),
    decreases k,
{
    if i < k {
        lemma_visits_rest(c, from, to, base, i, (k - 1) as nat);
        super::view::lemma_size_upto_mono(c, i, (k - 1) as nat);
    }
}

/// True when the walk goes into the node that it comes by as number `i`,
/// by what `entered` says of the nodes in the order of the walk.
pub open spec fn entered_at(entered: Seq<bool>, i: int) -> bool {
    0 <= i < entered.len() && entered[i]
}

/// The nodes that a walk of the first `k` children of a fragment comes by
/// between the offsets `from` and `to`, where the walk goes only into some
/// of the nodes: every child that starts before `to` and ends after `from`,
/// each followed, if the walk goes into it, by what the walk of its content
/// between the two offsets comes by. `entered` says of each node that the
/// walk comes by, in the order of the walk, whether the walk goes into it.
pub open spec fn visits_by(
    c: Seq<NodeView>,
    from: nat,
    to: nat,
    base: nat,
    k: nat,
    entered: Seq<bool>,
) -> Seq<Visit>
    decreases c, k,
{
    if k == 0 || k > c.len() {
        Seq::empty()
    } else {
        let before = visits_by(c, from, to, base, (k - 1) as nat, entered);
        let pos = size_upto(c, (k - 1) as nat);
        let child = c[k - 1];
        let end = pos + node_size(child);
        if pos < to && end > from {
            let start = pos + 1;
            before + seq![Visit { node: child, pos: base + pos }] + if child.kind.parent()
                && entered_at(entered, before.len() as int) {
                visits_by(
                    child.content,
                    minus(from, start),
                    least(content_size(child.content), minus(to, start)),
                    base + start,
                    child.content.len(),
                    entered.skip(before.len() as int + 1),
                )
            } else {
                Seq::empty()
            }
        } else {
            before
        }
    }
}

/// What a walk comes by goes only by what is said of the nodes that it
/// comes by.
pub proof fn lemma_visits_by_prefix(
    c: Seq<NodeView>,
    from: nat,
    to: nat,
    base: nat,
    k: nat,
    entered: Seq<bool>,
    other: Seq<bool>,
)
    requires
        forall|i: int|
            0 <= i < visits_by(c, from, to, base, k, entered).len() ==> #[trigger] entered_at(
                entered,
                i,
            ) == entered_at(other, i),
    ensures
        visits_by(c, from, to, base, k, other) == visits_by(c, from, to, base, k, entered),
    decreases c, k,
{
    if k == 0 || k > c.len() {
    } else {
        let before = visits_by(c, from, to, base, (k - 1) as nat, entered);
        lemma_visits_by_prefix(c, from, to, base, (k - 1) as nat, entered, other);
        let pos = size_upto(c, (k - 1) as nat);
        let child = c[k - 1];
        let end = pos + node_size(child);
        if pos < to && end > from {
            let at = before.len() as int;
            assert(entered_at(entered, at) == entered_at(other, at));
            if child.kind.parent() && entered_at(entered, at) {
                let start = pos + 1;
                let inner_from = minus(from, start);
                let inner_to = least(content_size(child.content), minus(to, start));
                let inner = visits_by(
                    child.content,
                    inner_from,
                    inner_to,
                    base + start,
                    child.content.len(),
                    entered.skip(at + 1),
                );
                assert forall|i: int| 0 <= i < inner.len() implies #[trigger] entered_at(
                    entered.skip(at + 1),
                    i,
                ) == entered_at(other.skip(at + 1), i) by {
                    assert(entered_at(entered, at + 1 + i) == entered_at(other, at + 1 + i));
                }
                lemma_visits_by_prefix(
                    child.content,
                    inner_from,
                    inner_to,
                    base + start,
                    child.content.len(),
                    entered.skip(at + 1),
                    other.skip(at + 1),
                );
            }
        }
    }
}

/// Children that start at or after `to` are not walked.
pub proof fn lemma_visits_by_rest(
    c: Seq<NodeView>,
    from: nat,
    to: nat,
    base: nat,
    i: nat,
    k: nat,
    entered: Seq<bool>,
)
    requires
        i <= k <= c.len(),
        size_upto(c, i) >= to,
    ensures
        visits_by(c, from, to, base, k, entered) == visits_by(c, from, to, base, i, entered),
    decreases k,
{
    if i < k {
        lemma_visits_by_rest(c, from, to, base, i, (k - 1) as nat, entered);
        super::view::lemma_size_upto_mono(c, i, (k - 1) as nat);
    }
}

/// A walk that goes into every node comes by all the nodes between the
/// two offsets.
pub proof fn lemma_visits_by_all(
    c: Seq<NodeView>,
    from: nat,
    to: nat,
    base: nat,
    k: nat,
    entered: Seq<bool>,
)
    requires
        forall|i: int|
            0 <= i < visits(c, from, to, base, k).len() ==> #[trigger] entered_at(entered, i),
    ensures
        visits_by(c, from, to, base, k, entered) == visits(c, from, to, base, k),
    decreases c, k,
{
    if k == 0 || k > c.len() {
    } else {
        let before = visits(c, from, to, base, (k - 1) as nat);
        lemma_visits_by_all(c, from, to, base, (k - 1) as nat, entered);
        let pos = size_upto(c, (k - 1) as nat);
        let child = c[k - 1];
        let end = pos + node_size(child);
        if pos < to && end > from {
            let at = before.len() as int;
            assert(entered_at(entered, at));
            if child.kind.parent() {
                let start = pos + 1;
                let inner_from = minus(from, start);
                let inner_to = least(content_size(child.content), minus(to, start));
                let inner = visits(
                    child.content,
                    inner_from,
                    inner_to,
                    base + start,
                    child.content.len(),
                );
                assert forall|i: int| 0 <= i < inner.len() implies #[trigger] entered_at(
                    entered.skip(at + 1),
                    i,
                ) by {
                    assert(entered_at(entered, at + 1 + i));
                }
                lemma_visits_by_all(
                    child.content,
                    inner_from,
                    inner_to,
                    base + start,
                    child.content.len(),
                    entered.skip(at + 1),
                );
            }
        }
    }
}

/// The text that is gathered, and whether a block separator has just been
/// put.
pub struct Gathered {
    /// The text so far
    pub text: Seq<char>,
    /// True when no separator is due before the next block
    pub separated: bool,
}

/// What one node adds to the text between `from` and `to`: a text node its
/// characters between the two positions, another leaf the leaf text, and a
/// block, unless a separator has just been put, the block separator.
pub open spec fn gather(
    state: Gathered,
    visit: Visit,
    from: nat,
    to: nat,
    block_separator: Option<Seq<char>>,
    leaf_text: Option<Seq<char>>,
) -> Gathered {
    let n = visit.node;
    if n.is_text() {
        Gathered {
            text: state.text + cut_text(n.text, minus(from, visit.pos), minus(to, visit.pos)),
            separated: block_separator is None,
        }
    } else if n.is_leaf() {
        Gathered {
            text: state.text + match leaf_text {
                Some(t) => t,
                None => Seq::empty(),
            },
            separated: block_separator is None,
        }
    } else if !state.separated && n.kind.block() {
        Gathered {
            text: state.text + match block_separator {
                Some(t) => t,
                None => Seq::empty(),
            },
            separated: true,
        }
    } else {
        state
    }
}

/// What the first `k` nodes of a walk add to the text.
pub open spec fn gather_all(
    state: Gathered,
    walk: Seq<Visit>,
    k: nat,
    from: nat,
    to: nat,
    block_separator: Option<Seq<char>>,
    leaf_text: Option<Seq<char>>,
) -> Gathered
    decreases k,
{
    if k == 0 || k > walk.len() {
        state
    } else {
        gather(
            gather_all(state, walk, (k - 1) as nat, from, to, block_separator, leaf_text),
            walk[k - 1],
            from,
            to,
            block_separator,
            leaf_text,
        )
    }
}

/// The text between two offsets of a fragment: what the nodes that a walk
/// between the two offsets comes by add to `text`.
pub open spec fn text_between(
    c: Seq<NodeView>,
    text: Seq<char>,
    separated: bool,
    from: nat,
    to: nat,
    block_separator: Option<Seq<char>>,
    leaf_text: Option<Seq<char>>,
) -> Seq<char> {
    let walk = visits(c, from, to, 0, c.len());
    gather_all(
        Gathered { text, separated },
        walk,
        walk.len(),
        from,
        to,
        block_separator,
        leaf_text,
    ).text
}

/// The text of a node: the characters of a text node, and of another node
/// the text of all the text nodes in it, one after the other.
pub open spec fn text_content(n: NodeView) -> Seq<char> {
    if n.is_text() {
        n.text
    } else if n.kind.parent() {
        text_between(
            n.content,
            Seq::empty(),
            true,
            0,
            content_size(n.content),
            Some(Seq::empty()),
            None,
        )
    } else {
        Seq::empty()
    }
}

} // verus!
