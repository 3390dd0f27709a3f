//! The markdown schema: its nodes, marks and their kinds.

pub mod attrs;
pub mod marks;
pub mod cmark;
pub mod content;
pub mod events;
pub mod from_markdown;
pub mod helper;
pub mod schema;
pub mod to_markdown;

pub use attrs::{
    AttrsView, BulletListAttrs, CodeBlockAttrs, HeadingAttrs, ImageAttrs, LinkAttrs,
    OrderedListAttrs,
};
pub use content::MarkdownContentMatch;
pub use from_markdown::{from_markdown, Attrs, FromMarkdownError, MarkdownDeserializer};
pub use to_markdown::{to_markdown, ToMarkdownError};
pub use marks::{MarkView, MarkdownMark, MarkdownMarkType};
pub use schema::{MarkType, MarkdownNodeType, Schema, MD};

use crate::model::fragment::{fragment_view, Fragment};
use crate::model::schema::{AttrNode, Block, Leaf, TextNode};
use crate::model::marks::MarkSet;
use crate::model::text::Text;
use crate::model::view::{content_size, node_size, NodeView};
use vstd::std_specs::cmp::PartialEqSpecImpl;
use vstd::prelude::*;

verus! {

/// The node type for the markdown schema
#[derive(Debug)]
pub enum MarkdownNode {
    /// The document root
    Doc(Block),
    /// A heading, e.g. `<h1>`
    Heading(AttrNode<HeadingAttrs>),
    /// A code block
    CodeBlock(AttrNode<CodeBlockAttrs>),
    /// A text node
    Text(TextNode),
    /// A blockquote
    Blockquote(Block),
    /// A paragraph
    Paragraph(Block),
    /// A bullet list
    BulletList(AttrNode<BulletListAttrs>),
    /// An ordered list
    OrderedList(AttrNode<OrderedListAttrs>),
    /// A list item
    ListItem(Block),
    /// A horizontal line `<hr>`
    HorizontalRule,
    /// A hard break `<br>`
    HardBreak,
    /// An image `<img>`
    Image(Leaf<ImageAttrs>),
}

impl MarkdownNode {
    /// The type of the node.
    pub open spec fn kind(&self) -> MarkdownNodeType {
        match self {
            Self::Doc(_) => MarkdownNodeType::Doc,
            Self::Paragraph(_) => MarkdownNodeType::Paragraph,
            Self::Blockquote(_) => MarkdownNodeType::Blockquote,
            Self::HorizontalRule => MarkdownNodeType::HorizontalRule,
            Self::Heading(_) => MarkdownNodeType::Heading,
            Self::CodeBlock(_) => MarkdownNodeType::CodeBlock,
            Self::OrderedList(_) => MarkdownNodeType::OrderedList,
            Self::BulletList(_) => MarkdownNodeType::BulletList,
            Self::ListItem(_) => MarkdownNodeType::ListItem,
            Self::Text(_) => MarkdownNodeType::Text,
            Self::Image(_) => MarkdownNodeType::Image,
            Self::HardBreak => MarkdownNodeType::HardBreak,
        }
    }

    /// The attributes of the node, as plain values.
    pub open spec fn attrs_view(&self) -> AttrsView {
        match self {
            Self::Heading(n) => n.attrs@,
            Self::CodeBlock(n) => n.attrs@,
            Self::OrderedList(n) => n.attrs@,
            Self::BulletList(n) => n.attrs@,
            Self::Image(n) => n.attrs@,
            _ => AttrsView::Empty,
        }
    }

    /// The fragment that a parent node holds.
    pub open spec fn fragment(&self) -> Option<Fragment> {
        match self {
            Self::Doc(n) => Some(n.content),
            Self::Paragraph(n) => Some(n.content),
            Self::Blockquote(n) => Some(n.content),
            Self::ListItem(n) => Some(n.content),
            Self::Heading(n) => Some(n.content),
            Self::CodeBlock(n) => Some(n.content),
            Self::OrderedList(n) => Some(n.content),
            Self::BulletList(n) => Some(n.content),
            _ => None,
        }
    }
}

impl MarkdownNode {
    /// Get the type of the node
    pub fn node_type(&self) -> (r: MarkdownNodeType)
        ensures
            r == self@.kind,
    {
        match self {
            Self::Doc(_) => MarkdownNodeType::Doc,
            Self::Paragraph(_) => MarkdownNodeType::Paragraph,
            Self::Blockquote(_) => MarkdownNodeType::Blockquote,
            Self::HorizontalRule => MarkdownNodeType::HorizontalRule,
            Self::Heading(_) => MarkdownNodeType::Heading,
            Self::CodeBlock(_) => MarkdownNodeType::CodeBlock,
            Self::OrderedList(_) => MarkdownNodeType::OrderedList,
            Self::BulletList(_) => MarkdownNodeType::BulletList,
            Self::ListItem(_) => MarkdownNodeType::ListItem,
            Self::Text(_) => MarkdownNodeType::Text,
            Self::Image(_) => MarkdownNodeType::Image,
            Self::HardBreak => MarkdownNodeType::HardBreak,
        }
    }

    /// Get the text and marks if this is a text node
    pub fn text_node(&self) -> (r: Option<&TextNode>)
        ensures
            r is Some == self@.is_text(),
            r matches Some(t) ==> (*self == MarkdownNode::Text(*t) && t.text@ == self@.text
                && t.marks@ == self@.marks),
    {
        if let Self::Text(node) = self {
            Some(node)
        } else {
            None
        }
    }

    /// Create a new text node
    pub fn new_text_node(node: TextNode) -> (r: Self)
        ensures
            r@ == NodeView::text_node(node.text@, node.marks@),
    {
        Self::Text(node)
    }

    /// Creates a new text node without marks
    pub fn text(text: &str) -> (r: Self)
        ensures
            r@ == NodeView::text_node(text@, Seq::empty()),
    {
        Self::Text(TextNode { text: Text::new(text.to_owned()), marks: MarkSet::new() })
    }

    /// A container holding the node's children.
    pub fn content(&self) -> (r: Option<&Fragment>)
        ensures
            r is Some == self@.kind.parent(),
            r matches Some(f) ==> (self.fragment() == Some(*f) && f@ == self@.content),
            r is None ==> self.fragment() is None,
    {
        match self {
            Self::Doc(doc) => Some(&doc.content),
            Self::Heading(AttrNode { content, .. }) => Some(content),
            Self::CodeBlock(AttrNode { content, .. }) => Some(content),
            Self::Text(_) => None,
            Self::Blockquote(Block { content }) => Some(content),
            Self::Paragraph(Block { content }) => Some(content),
            Self::BulletList(AttrNode { content, .. }) => Some(content),
            Self::OrderedList(AttrNode { content, .. }) => Some(content),
            Self::ListItem(Block { content }) => Some(content),
            Self::HorizontalRule => None,
            Self::HardBreak => None,
            Self::Image(_) => None,
        }
    }

    /// Get the marks on this node. Only text carries marks.
    pub fn marks(&self) -> (r: Option<&MarkSet>)
        ensures
            r is Some == self@.is_text(),
            r matches Some(m) ==> m@ == self@.marks,
    {
        match self {
            Self::Text(node) => Some(&node.marks),
            _ => None,
        }
    }

    /// A copy of this node with the given marks. Only text carries marks:
    /// another node is copied as it is.
    pub fn mark(&self, set: MarkSet) -> (r: Self)
        ensures
            r@ == self@.with_marks(set@),
    {
        if let Some(text_node) = self.text_node() {
            Self::Text(TextNode { marks: set, text: text_node.text.clone() })
        } else {
            self.clone()
        }
    }

    /// Create a new node with the same markup as this node, containing the content that
    /// `map` makes of this node's content. Nodes without content are copied as they are.
    pub fn copy<F: FnOnce(&Fragment) -> Fragment>(&self, map: F) -> (r: Self)
        requires
            self.fragment() matches Some(c) ==> call_requires(map, (&c,)),
        ensures
            self.fragment() is None ==> r@ == self@,
            self.fragment() matches Some(c) ==> (r.fragment() matches Some(f) && call_ensures(
                map,
                (&c,),
                f,
            ) && r@ == self@.with_content(f@)),
    {
        match self {
            Self::Doc(block) => Self::Doc(block.copy(map)),
            Self::Heading(node) => Self::Heading(node.copy(map)),
            Self::CodeBlock(node) => Self::CodeBlock(node.copy(map)),
            Self::Text(node) => Self::Text(node.clone()),
            Self::Blockquote(block) => Self::Blockquote(block.copy(map)),
            Self::Paragraph(block) => Self::Paragraph(block.copy(map)),
            Self::BulletList(node) => Self::BulletList(node.copy(map)),
            Self::OrderedList(node) => Self::OrderedList(node.copy(map)),
            Self::ListItem(block) => Self::ListItem(block.copy(map)),
            Self::HorizontalRule => Self::HorizontalRule,
            Self::HardBreak => Self::HardBreak,
            Self::Image(img) => Self::Image(img.clone()),
        }
    }

    /// The same node around the given content. Nodes without content are
    /// copied as they are.
    pub fn with_content(&self, content: Fragment) -> (r: Self)
        ensures
            r@ == self@.with_content(content@),
    {
        match self {
            Self::Doc(_) => Self::Doc(Block { content }),
            Self::Heading(node) => Self::Heading(AttrNode { attrs: node.attrs.clone(), content }),
            Self::CodeBlock(node) => Self::CodeBlock(
                AttrNode { attrs: node.attrs.clone(), content },
            ),
            Self::Text(node) => Self::Text(node.clone()),
            Self::Blockquote(_) => Self::Blockquote(Block { content }),
            Self::Paragraph(_) => Self::Paragraph(Block { content }),
            Self::BulletList(node) => Self::BulletList(
                AttrNode { attrs: node.attrs.clone(), content },
            ),
            Self::OrderedList(node) => Self::OrderedList(
                AttrNode { attrs: node.attrs.clone(), content },
            ),
            Self::ListItem(_) => Self::ListItem(Block { content }),
            Self::HorizontalRule => Self::HorizontalRule,
            Self::HardBreak => Self::HardBreak,
            Self::Image(img) => Self::Image(img.clone()),
        }
    }

    /// Returns this node's first child wrapped in `Some`, or `None` if there are no children.
    pub fn first_child(&self) -> (r: Option<&MarkdownNode>)
        ensures
            self@.content.len() == 0 ==> r is None,
            self@.content.len() > 0 ==> (r matches Some(c) && c@ == self@.content[0]),
    {
        match self.content() {
            Some(c) => c.first_child(),
            None => None,
        }
    }

    /// The size of the content of this node. It leaves room for the two
    /// tokens of the node.
    pub fn content_size(&self) -> (r: usize)
        ensures
            r == content_size(self@.content),
            r + 2 <= usize::MAX,
    {
        match self.content() {
            Some(c) => c.size(),
            None => 0,
        }
    }

    /// Get the child node at the given index: nothing for a node that is
    /// no parent. For a parent the index must be in range.
    pub fn child(&self, index: usize) -> (r: Option<&Self>)
        requires
            self@.kind.parent() ==> index < self@.content.len(),
        ensures
            self@.kind.parent() ==> (r matches Some(c) && c@ == self@.content[index as int] && (
            self.fragment() matches Some(f) && *c == f.nodes()[index as int])),
            !self@.kind.parent() ==> r is None,
            index < self@.content.len() ==> self@.kind.parent(),
    {
        match self.content() {
            Some(c) => Some(c.child(index)),
            None => None,
        }
    }

    /// Get the child node at the given index, if it exists.
    pub fn maybe_child(&self, index: usize) -> (r: Option<&Self>)
        ensures
            index >= self@.content.len() ==> r is None,
            index < self@.content.len() ==> (r matches Some(c) && c@
                == self@.content[index as int]),
    {
        match self.content() {
            Some(c) => c.maybe_child(index),
            None => None,
        }
    }

    /// The number of children that the node has.
    pub fn child_count(&self) -> (r: usize)
        ensures
            r == self@.content.len(),
    {
        match self.content() {
            Some(c) => c.child_count(),
            None => 0,
        }
    }

    /// True when this is a leaf node.
    pub fn is_leaf(&self) -> (r: bool)
        ensures
            r == self@.is_leaf(),
    {
        self.content().is_none()
    }

    /// True when this is a block (non-inline node)
    pub fn is_block(&self) -> (r: bool)
        ensures
            r == self@.kind.block(),
    {
        self.node_type().is_block()
    }

    /// True when this node stands in a line of text
    pub fn is_inline(&self) -> (r: bool)
        ensures
            r == self@.kind.inline(),
    {
        self.node_type().is_inline()
    }

    /// True when this is a text node.
    pub fn is_text(&self) -> (r: bool)
        ensures
            r == self@.is_text(),
    {
        self.text_node().is_some()
    }

    /// The size of this node, as defined by the integer-based indexing scheme. For text nodes,
    /// this is the amount of characters. For other leaf nodes, it is one. For non-leaf nodes, it
    /// is the size of the content plus two (the start and end token).
    pub fn node_size(&self) -> (r: usize)
        ensures
            r == node_size(self@),
    {
        match self.content() {
            Some(c) => c.size() + 2,
            None => {
                if let Some(node) = self.text_node() {
                    node.text.len_utf16()
                } else {
                    1
                }
            },
        }
    }

    /// True when both nodes are of one type and hold the same attributes,
    /// text, marks and content.
    pub fn same(&self, other: &Self) -> (r: bool)
        ensures
            r == (self@ == other@),
        decreases self,
    {
        match (self, other) {
            (Self::Doc(a), Self::Doc(b)) => a.content.same(&b.content),
            (Self::Heading(a), Self::Heading(b)) => a.attrs.same(&b.attrs) && a.content.same(
                &b.content,
            ),
            (Self::CodeBlock(a), Self::CodeBlock(b)) => a.attrs.same(&b.attrs) && a.content.same(
                &b.content,
            ),
            (Self::Text(a), Self::Text(b)) => a.marks.same(&b.marks) && a.text.same(&b.text),
            (Self::Blockquote(a), Self::Blockquote(b)) => a.content.same(&b.content),
            (Self::Paragraph(a), Self::Paragraph(b)) => a.content.same(&b.content),
            (Self::BulletList(a), Self::BulletList(b)) => a.attrs.same(&b.attrs) && a.content.same(
                &b.content,
            ),
            (Self::OrderedList(a), Self::OrderedList(b)) => a.attrs.same(&b.attrs)
                && a.content.same(&b.content),
            (Self::ListItem(a), Self::ListItem(b)) => a.content.same(&b.content),
            (Self::HorizontalRule, Self::HorizontalRule) => true,
            (Self::HardBreak, Self::HardBreak) => true,
            (Self::Image(a), Self::Image(b)) => a.attrs.same(&b.attrs),
            _ => false,
        }
    }
}

impl Clone for MarkdownNode {
    fn clone(&self) -> (r: Self)
        ensures
            r@ == self@,
        decreases self,
    {
        match self {
            Self::Doc(n) => Self::Doc(Block { content: n.content.clone() }),
            Self::Heading(n) => Self::Heading(
                AttrNode { attrs: n.attrs.clone(), content: n.content.clone() },
            ),
            Self::CodeBlock(n) => Self::CodeBlock(
                AttrNode { attrs: n.attrs.clone(), content: n.content.clone() },
            ),
            Self::Text(n) => Self::Text(n.clone()),
            Self::Blockquote(n) => Self::Blockquote(Block { content: n.content.clone() }),
            Self::Paragraph(n) => Self::Paragraph(Block { content: n.content.clone() }),
            Self::BulletList(n) => Self::BulletList(
                AttrNode { attrs: n.attrs.clone(), content: n.content.clone() },
            ),
            Self::OrderedList(n) => Self::OrderedList(
                AttrNode { attrs: n.attrs.clone(), content: n.content.clone() },
            ),
            Self::ListItem(n) => Self::ListItem(Block { content: n.content.clone() }),
            Self::HorizontalRule => Self::HorizontalRule,
            Self::HardBreak => Self::HardBreak,
            Self::Image(n) => Self::Image(n.clone()),
        }
    }
}

impl PartialEq for MarkdownNode {
    fn eq(&self, other: &Self) -> (r: bool) {
        self.same(other)
    }
}

impl PartialEqSpecImpl for MarkdownNode {
    open spec fn obeys_eq_spec() -> bool {
        true
    }

    open spec fn eq_spec(&self, other: &Self) -> bool {
        self@ == other@
    }
}

impl Eq for MarkdownNode {

}

/// What a node holds, as plain values.
pub open spec fn node_view(node: MarkdownNode) -> NodeView
    decreases node,
{
    NodeView {
        kind: node.kind(),
        attrs: node.attrs_view(),
        text: match node {
            MarkdownNode::Text(t) => t.text.view(),
            _ => Seq::empty(),
        },
        marks: match node {
            MarkdownNode::Text(t) => t.marks.view(),
            _ => Seq::empty(),
        },
        content: match node.fragment() {
            Some(f) => fragment_view(f),
            None => Seq::empty(),
        },
    }
}

impl View for MarkdownNode {
    type V = NodeView;

    open spec fn view(&self) -> NodeView {
        node_view(*self)
    }
}

} // verus!
