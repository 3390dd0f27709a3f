//! The content automaton of the markdown schema.

use super::schema::MarkdownNodeType;
use crate::model::fragment::Fragment;
use crate::model::util;
use crate::model::view::NodeView;
use crate::util::then_some;
use std::ops::Range;
use vstd::prelude::*;

verus! {

/// The content match type for markdown
#[derive(Debug, Copy, Clone, Eq, PartialEq, Structural)]
pub enum MarkdownContentMatch {
    /// `inline*`
    InlineStar,
    /// `block+`
    BlockPlus,
    /// `block*`
    BlockStar,
    /// `(text | image)*`
    OrTextImageStar,
    /// `text*`
    TextStar,
    /// `list_item+`
    ListItemPlus,
    /// `list_item*`
    ListItemStar,
    /// `paragraph block*`
    ParagraphBlockStar,
    /// empty
    Empty,
}

impl MarkdownContentMatch {
    /// The state after a node of the given type, if the type may come next.
    pub open spec fn next(self, node_type: MarkdownNodeType) -> Option<Self> {
        match self {
            Self::InlineStar => if node_type.inline() {
                Some(Self::InlineStar)
            } else {
                None
            },
            Self::BlockPlus | Self::BlockStar => if node_type.block() {
                Some(Self::BlockStar)
            } else {
                None
            },
            Self::OrTextImageStar => if node_type == MarkdownNodeType::Text || node_type
                == MarkdownNodeType::Image {
                Some(Self::OrTextImageStar)
            } else {
                None
            },
            Self::TextStar => if node_type == MarkdownNodeType::Text {
                Some(Self::TextStar)
            } else {
                None
            },
            Self::ListItemPlus | Self::ListItemStar => if node_type == MarkdownNodeType::ListItem {
                Some(Self::ListItemStar)
            } else {
                None
            },
            Self::ParagraphBlockStar => if node_type == MarkdownNodeType::Paragraph {
                Some(Self::BlockStar)
            } else {
                None
            },
            Self::Empty => None,
        }
    }

    /// True when a node may end in this state.
    pub open spec fn at_end(self) -> bool {
        self == Self::InlineStar || self == Self::BlockStar || self == Self::OrTextImageStar
            || self == Self::TextStar || self == Self::ListItemStar || self == Self::Empty
    }

    /// The family of states that a state belongs to: 1 for the inline
    /// states, 2 for the block states, among them the state at the start
    /// of a list item, 3 for the list item states, and 0 for no content.
    pub open spec fn family(self) -> int {
        match self {
            Self::InlineStar | Self::OrTextImageStar | Self::TextStar => 1,
            Self::BlockPlus | Self::BlockStar | Self::ParagraphBlockStar => 2,
            Self::ListItemPlus | Self::ListItemStar => 3,
            Self::Empty => 0,
        }
    }

    /// True when content in state `self` may be joined with content in state
    /// `other`: both are inline states, both are block states, or both are
    /// list item states. The state of no content joins with none.
    pub open spec fn joins(self, other: Self) -> bool {
        self.family() != 0 && self.family() == other.family()
    }

    /// Two states join in either order, and a state that joins with
    /// another joins with all that the other joins with.
    pub proof fn lemma_joins_symmetric(self, other: Self, third: Self)
        ensures
            self.joins(other) == other.joins(self),
            self.joins(other) && other.joins(third) ==> self.joins(third),
            self.family() != 0 ==> self.joins(self),
    {
    }

    /// The state after the children of `c` from index `start` up to index
    /// `end`, if those children may come one after the other in this state.
    pub open spec fn after(self, c: Seq<NodeView>, start: int, end: int) -> Option<Self>
        decreases end - start,
    {
        if end <= start {
            Some(self)
        } else {
            match self.after(c, start, end - 1) {
                Some(state) => state.next(c[end - 1].kind),
                None => None,
            }
        }
    }

    /// Try to match a fragment. Returns the resulting match when successful.
    pub fn match_fragment(self, fragment: &Fragment) -> (r: Option<Self>)
        ensures
            r == self.after(fragment@, 0, fragment@.len() as int),
    {
        self.match_fragment_range(fragment, 0..fragment.child_count())
    }

    /// Try to match a part of a fragment. Returns the resulting match when successful.
    /// The range has to be a range of children of the fragment.
    pub fn match_fragment_range(self, fragment: &Fragment, range: Range<usize>) -> (r: Option<Self>)
        requires
            range.start <= range.end <= fragment@.len(),
        ensures
            r == self.after(fragment@, range.start as int, range.end as int),
    {
        let start: usize = util::from(&range);
        let end: usize = util::to(&range, fragment.child_count());

        let mut test = self;
        let mut i: usize = start;
        while i < end
            invariant
                start <= i <= end <= fragment@.len(),
                start == range.start,
                end == range.end,
                Some(test) == self.after(fragment@, start as int, i as int),
            decreases end - i,
        {
            let kind = fragment.child(i).node_type();
            match test.match_type(kind) {
                Some(next) => {
                    test = next;
                },
                None => {
                    proof {
                        assert(kind == fragment@[i as int].kind);
                        assert(self.after(fragment@, start as int, i + 1) is None);
                        self.lemma_after_none(fragment@, start as int, i + 1, end as int);
                    }
                    return None;
                },
            }
            i = i + 1;
        }
        Some(test)
    }

    /// What a state comes to after a run of children goes by their types
    /// alone.
    pub proof fn lemma_after_kinds(self, a: Seq<NodeView>, b: Seq<NodeView>, start: int, end: int)
        requires
            0 <= start,
            end <= a.len(),
            end <= b.len(),
            forall|i: int| start <= i < end ==> (#[trigger] a[i]).kind == b[i].kind,
        ensures
            self.after(a, start, end) == self.after(b, start, end),
        decreases end - start,
    {
        if start < end {
            self.lemma_after_kinds(a, b, start, end - 1);
            assert(a[end - 1].kind == b[end - 1].kind);
        }
    }

    /// Once the children do not match, more children do not either.
    pub proof fn lemma_after_none(self, c: Seq<NodeView>, start: int, mid: int, end: int)
        requires
            start <= mid <= end,
            self.after(c, start, mid) is None,
        ensures
            self.after(c, start, end) is None,
        decreases end - mid,
    {
        if mid < end {
            self.lemma_after_none(c, start, mid, end - 1);
        }
    }

    /// Match a node type, returning a match after that node if successful.
    pub fn match_type(self, node_type: MarkdownNodeType) -> (r: Option<Self>)
        ensures
            r == self.next(node_type),
    {
        match self {
            Self::InlineStar => then_some(node_type.is_inline(), Self::InlineStar),
            Self::BlockPlus | Self::BlockStar => then_some(node_type.is_block(), Self::BlockStar),
            Self::OrTextImageStar => then_some(
                matches!(node_type, MarkdownNodeType::Text | MarkdownNodeType::Image),
                Self::OrTextImageStar,
            ),
            Self::TextStar => then_some(matches!(node_type, MarkdownNodeType::Text), Self::TextStar),
            Self::ListItemPlus | Self::ListItemStar => then_some(
                matches!(node_type, MarkdownNodeType::ListItem),
                Self::ListItemStar,
            ),
            Self::ParagraphBlockStar => then_some(
                matches!(node_type, MarkdownNodeType::Paragraph),
                Self::BlockStar,
            ),
            Self::Empty => None,
        }
    }

    /// True when this match state represents a valid end of the node.
    pub fn valid_end(self) -> (r: bool)
        ensures
            r == self.at_end(),
    {
        matches!(
            self,
            Self::InlineStar | Self::BlockStar | Self::OrTextImageStar | Self::TextStar
                | Self::ListItemStar | Self::Empty
        )
    }

    /// True when nodes whose content is in these two states may be joined
    /// at an open boundary. The order of the two states does not matter.
    pub fn compatible(self, other: Self) -> (r: bool)
        ensures
            r == self.joins(other),
            r == other.joins(self),
    {
        match self {
            Self::InlineStar | Self::OrTextImageStar | Self::TextStar => matches!(
                other,
                Self::InlineStar | Self::OrTextImageStar | Self::TextStar
            ),
            Self::BlockPlus | Self::BlockStar | Self::ParagraphBlockStar => matches!(
                other,
                Self::BlockPlus | Self::BlockStar | Self::ParagraphBlockStar
            ),
            Self::ListItemPlus | Self::ListItemStar => {
                matches!(other, Self::ListItemPlus | Self::ListItemStar)
            },
            Self::Empty => false,
        }
    }
}

} // verus!
