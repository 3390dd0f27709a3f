//! The node types of the markdown schema.

use super::content::MarkdownContentMatch;
use super::marks::{MarkdownMark, MarkdownMarkType};
use super::MarkdownNode;
use crate::model::fragment::Fragment;
use crate::model::marks::MarkSet;
use crate::model::view::NodeView;
use vstd::prelude::*;

verus! {

/// A schema binds the families of types that make up a kind of document.
pub trait Schema: Sized {
    /// This type represents any of the marks that are valid in the schema.
    type Mark;

    /// This type represents any of the mark types that are valid in the schema.
    type MarkType: MarkType;

    /// This type represents any of the nodes that are valid in the schema.
    type Node;

    /// This type represents any of the node types that are valid in the schema.
    type NodeType;

    /// This type represents the content automaton of the schema.
    type ContentMatch;
}

/// Like nodes, marks (which are associated with nodes to signify
/// things like emphasis or being part of a link) are tagged with type
/// objects, of which a schema has one per kind of mark.
pub trait MarkType: Copy {

}

impl MarkType for MarkdownMarkType {

}

/// The markdown schema type
#[derive(Debug)]
pub struct MD;

impl Schema for MD {
    type Mark = MarkdownMark;

    type MarkType = MarkdownMarkType;

    type Node = MarkdownNode;

    type NodeType = MarkdownNodeType;

    type ContentMatch = MarkdownContentMatch;
}

/// The node-spec type for the markdown schema
#[derive(Debug, Copy, Clone, PartialEq, Eq, Structural)]
pub enum MarkdownNodeType {
    /// The document root
    Doc,
    /// A heading, e.g. `<h1>`
    Heading,
    /// A code block
    CodeBlock,
    /// A text node
    Text,
    /// A blockquote
    Blockquote,
    /// A paragraph
    Paragraph,
    /// A bullet list
    BulletList,
    /// An ordered list
    OrderedList,
    /// A list item
    ListItem,
    /// A horizontal line `<hr>`
    HorizontalRule,
    /// A hard break `<br>`
    HardBreak,
    /// An image `<img>`
    Image,
}

impl MarkdownNodeType {
    /// True for the node types that stand in a line of text.
    pub open spec fn inline(self) -> bool {
        self == Self::Text || self == Self::Image || self == Self::HardBreak
    }

    /// True for the node types that stand in a run of blocks.
    pub open spec fn block(self) -> bool {
        self == Self::Paragraph || self == Self::Blockquote || self == Self::Heading || self
            == Self::HorizontalRule || self == Self::CodeBlock || self == Self::OrderedList
            || self == Self::BulletList
    }

    /// True for the node types that hold a fragment of child nodes.
    pub open spec fn parent(self) -> bool {
        self == Self::Doc || self == Self::Heading || self == Self::CodeBlock || self
            == Self::Blockquote || self == Self::Paragraph || self == Self::BulletList || self
            == Self::OrderedList || self == Self::ListItem
    }

    /// True for the node types whose children may carry marks: the text
    /// blocks and the inline types.
    pub open spec fn marks_allowed(self) -> bool {
        self == Self::Heading || self == Self::Paragraph || self == Self::Text || self
            == Self::HorizontalRule || self == Self::HardBreak || self == Self::Image
    }

    /// The state in which the content of a node of this type starts.
    pub open spec fn start(self) -> MarkdownContentMatch {
        match self {
            Self::Doc => MarkdownContentMatch::BlockPlus,
            Self::Heading => MarkdownContentMatch::OrTextImageStar,
            Self::CodeBlock => MarkdownContentMatch::TextStar,
            Self::Text => MarkdownContentMatch::Empty,
            Self::Blockquote => MarkdownContentMatch::BlockPlus,
            Self::Paragraph => MarkdownContentMatch::InlineStar,
            Self::BulletList => MarkdownContentMatch::ListItemPlus,
            Self::OrderedList => MarkdownContentMatch::ListItemPlus,
            Self::ListItem => MarkdownContentMatch::ParagraphBlockStar,
            Self::HorizontalRule => MarkdownContentMatch::Empty,
            Self::HardBreak => MarkdownContentMatch::Empty,
            Self::Image => MarkdownContentMatch::Empty,
        }
    }

    /// True when nodes of these two types may be joined at an open
    /// boundary: the types are equal, or what they hold is compatible.
    pub open spec fn joins(self, other: Self) -> bool {
        self == other || self.start().joins(other.start())
    }

    /// True when a node of this type may hold the fragment: the children
    /// match the content expression of the type from its start to a valid
    /// end, and no child carries marks unless the type allows marks.
    pub open spec fn accepts(self, c: Seq<NodeView>) -> bool {
        match self.start().after(c, 0, c.len() as int) {
            Some(state) => state.at_end() && forall|i: int|
                0 <= i < c.len() ==> (#[trigger] c[i]).marks.len() == 0 || self.marks_allowed(),
            None => false,
        }
    }

    /// True when children of a node of this type may carry the marks of the
    /// given set: the type allows marks, or the set is empty.
    pub fn allow_marks(self, marks: &MarkSet) -> (r: bool)
        ensures
            r == (marks@.len() == 0 || self.marks_allowed()),
    {
        marks.is_empty() || self._allow_marks()
    }

    /// Returns true if the given fragment is valid content for this node type.
    pub fn valid_content(self, fragment: &Fragment) -> (r: bool)
        ensures
            r == self.accepts(fragment@),
    {
        let result = self.content_match().match_fragment(fragment);

        if let Some(m) = result {
            if m.valid_end() {
                let count: usize = fragment.child_count();
                let mut i: usize = 0;
                while i < count
                    invariant
                        0 <= i <= count,
                        count == fragment@.len(),
                        forall|j: int|
                            0 <= j < i ==> (#[trigger] fragment@[j]).marks.len() == 0
                                || self.marks_allowed(),
                    decreases count - i,
                {
                    let child = fragment.child(i);
                    let fits = match child.marks() {
                        Some(m) => self.allow_marks(m),
                        None => true,
                    };
                    if !fits {
                        return false;
                    }
                    i = i + 1;
                }
                return true;
            }
        }
        false
    }

    /// True when children of a node of this type may carry marks.
    pub fn _allow_marks(self) -> (r: bool)
        ensures
            r == self.marks_allowed(),
    {
        match self {
            Self::Doc | Self::Blockquote | Self::BulletList | Self::OrderedList | Self::ListItem => false,  // block && !textblock
            Self::CodeBlock => false,  // marks = ""
            Self::Heading | Self::Paragraph => true,  // textblock
            Self::Text | Self::HorizontalRule | Self::HardBreak | Self::Image => true,  // inline
        }
    }

    /// True when children of a node of this type may carry a mark of the
    /// given type.
    pub fn allows_mark_type(self, _mark_type: MarkdownMarkType) -> (r: bool)
        ensures
            r == self.marks_allowed(),
    {
        self._allow_marks()
    }

    /// True for the node types that stand in a line of text.
    pub fn is_inline(self) -> (r: bool)
        ensures
            r == self.inline(),
    {
        matches!(self, Self::Text | Self::Image | Self::HardBreak)
    }

    /// True for the node types that stand in a run of blocks.
    pub fn is_block(self) -> (r: bool)
        ensures
            r == self.block(),
    {
        matches!(
            self,
            Self::Paragraph | Self::Blockquote | Self::Heading | Self::HorizontalRule
                | Self::CodeBlock | Self::OrderedList | Self::BulletList
        )
    }

    /// The state in which the content of a node of this type starts.
    pub fn content_match(self) -> (r: MarkdownContentMatch)
        ensures
            r == self.start(),
    {
        match self {
            Self::Doc => MarkdownContentMatch::BlockPlus,
            Self::Heading => MarkdownContentMatch::OrTextImageStar,
            Self::CodeBlock => MarkdownContentMatch::TextStar,
            Self::Text => MarkdownContentMatch::Empty,
            Self::Blockquote => MarkdownContentMatch::BlockPlus,
            Self::Paragraph => MarkdownContentMatch::InlineStar,
            Self::BulletList => MarkdownContentMatch::ListItemPlus,
            Self::OrderedList => MarkdownContentMatch::ListItemPlus,
            Self::ListItem => MarkdownContentMatch::ParagraphBlockStar,
            Self::HorizontalRule => MarkdownContentMatch::Empty,
            Self::HardBreak => MarkdownContentMatch::Empty,
            Self::Image => MarkdownContentMatch::Empty,
        }
    }

    /// True when nodes of these two types may be joined at an open boundary.
    /// The order of the two types does not matter.
    pub fn compatible_content(self, other: Self) -> (r: bool)
        ensures
            r == self.joins(other),
            r == other.joins(self),
    {
        self == other || self.content_match().compatible(other.content_match())
    }
}

} // verus!
