//! Functions to create nodes programmatically.

use super::attrs::{AttrsView, BulletListAttrs, CodeBlockAttrs, HeadingAttrs};
use super::marks::{MarkView, MarkdownMark};
use super::schema::MarkdownNodeType;
use super::MarkdownNode;
use crate::model::fragment::{nodes_view, Fragment};
use crate::model::schema::{AttrNode, Block, TextNode};
use crate::model::text::Text;
use crate::model::view::{content_size, NodeView};
use vstd::prelude::*;

verus! {

/// What can be made the content of a node.
pub trait IntoFragment: Sized {
    /// The nodes that the value stands for.
    spec fn content(self) -> Seq<NodeView>;

    /// The fragment of the nodes that the value stands for. Their size has
    /// to leave room for the two tokens of a node around them.
    fn into_fragment(self) -> (r: Fragment)
        requires
            content_size(self.content()) + 2 <= usize::MAX,
        ensures
            r@ == self.content(),
    ;
}

/// The text node without marks that a string stands for.
pub open spec fn plain_text(text: Seq<char>) -> NodeView {
    NodeView::text_node(text, Seq::empty())
}

/// The fragment of the given nodes.
fn fragment_of(nodes: Vec<MarkdownNode>) -> (r: Fragment)
    requires
        content_size(nodes_view(nodes@)) + 2 <= usize::MAX,
    ensures
        r@ == nodes_view(nodes@),
{
    Fragment::from(nodes)
}

impl IntoFragment for &str {
    open spec fn content(self) -> Seq<NodeView> {
        seq![plain_text(self@)]
    }

    fn into_fragment(self) -> (r: Fragment) {
        let mut nodes: Vec<MarkdownNode> = Vec::new();
        nodes.push(MarkdownNode::text(self));
        assert(nodes_view(nodes@) =~= seq![plain_text(self@)]);
        fragment_of(nodes)
    }
}

impl IntoFragment for MarkdownNode {
    open spec fn content(self) -> Seq<NodeView> {
        seq![self@]
    }

    fn into_fragment(self) -> (r: Fragment) {
        let mut nodes: Vec<MarkdownNode> = Vec::new();
        nodes.push(self);
        assert(nodes_view(nodes@) =~= seq![self@]);
        fragment_of(nodes)
    }
}

impl IntoFragment for Vec<MarkdownNode> {
    open spec fn content(self) -> Seq<NodeView> {
        nodes_view(self@)
    }

    fn into_fragment(self) -> (r: Fragment) {
        fragment_of(self)
    }
}

impl IntoFragment for (MarkdownNode, MarkdownNode) {
    open spec fn content(self) -> Seq<NodeView> {
        seq![self.0@, self.1@]
    }

    fn into_fragment(self) -> (r: Fragment) {
        let mut nodes: Vec<MarkdownNode> = Vec::new();
        nodes.push(self.0);
        nodes.push(self.1);
        assert(nodes_view(nodes@) =~= seq![self.0@, self.1@]);
        fragment_of(nodes)
    }
}

impl IntoFragment for (&str, &str) {
    open spec fn content(self) -> Seq<NodeView> {
        seq![plain_text(self.0@), plain_text(self.1@)]
    }

    fn into_fragment(self) -> (r: Fragment) {
        let mut nodes: Vec<MarkdownNode> = Vec::new();
        nodes.push(MarkdownNode::text(self.0));
        nodes.push(MarkdownNode::text(self.1));
        assert(nodes_view(nodes@) =~= seq![plain_text(self.0@), plain_text(self.1@)]);
        fragment_of(nodes)
    }
}

impl IntoFragment for (MarkdownNode, &str) {
    open spec fn content(self) -> Seq<NodeView> {
        seq![self.0@, plain_text(self.1@)]
    }

    fn into_fragment(self) -> (r: Fragment) {
        let mut nodes: Vec<MarkdownNode> = Vec::new();
        nodes.push(self.0);
        nodes.push(MarkdownNode::text(self.1));
        assert(nodes_view(nodes@) =~= seq![self.0@, plain_text(self.1@)]);
        fragment_of(nodes)
    }
}

impl IntoFragment for (&str, MarkdownNode) {
    open spec fn content(self) -> Seq<NodeView> {
        seq![plain_text(self.0@), self.1@]
    }

    fn into_fragment(self) -> (r: Fragment) {
        let mut nodes: Vec<MarkdownNode> = Vec::new();
        nodes.push(MarkdownNode::text(self.0));
        nodes.push(self.1);
        assert(nodes_view(nodes@) =~= seq![plain_text(self.0@), self.1@]);
        fragment_of(nodes)
    }
}

impl IntoFragment for (MarkdownNode,) {
    open spec fn content(self) -> Seq<NodeView> {
        seq![self.0@]
    }

    fn into_fragment(self) -> (r: Fragment) {
        let mut nodes: Vec<MarkdownNode> = Vec::new();
        nodes.push(self.0);
        assert(nodes_view(nodes@) =~= seq![self.0@]);
        fragment_of(nodes)
    }
}

impl IntoFragment for (&str,) {
    open spec fn content(self) -> Seq<NodeView> {
        seq![plain_text(self.0@)]
    }

    fn into_fragment(self) -> (r: Fragment) {
        let mut nodes: Vec<MarkdownNode> = Vec::new();
        nodes.push(MarkdownNode::text(self.0));
        assert(nodes_view(nodes@) =~= seq![plain_text(self.0@)]);
        fragment_of(nodes)
    }
}

/// A parent node of the given type around the content, with the given
/// attributes.
pub open spec fn parent_node(kind: MarkdownNodeType, attrs: AttrsView, content: Seq<NodeView>) -> NodeView {
    NodeView { kind, attrs, text: Seq::empty(), marks: Seq::empty(), content }
}

/// Create a document node.
pub fn doc<A: IntoFragment>(content: A) -> (r: MarkdownNode)
    requires
        content_size(content.content()) + 2 <= usize::MAX,
    ensures
        r@ == parent_node(MarkdownNodeType::Doc, AttrsView::Empty, content.content()),
{
    MarkdownNode::Doc(Block { content: content.into_fragment() })
}

/// Create a heading node.
pub fn h<A: IntoFragment>(level: u8, content: A) -> (r: MarkdownNode)
    requires
        content_size(content.content()) + 2 <= usize::MAX,
    ensures
        r@ == parent_node(
            MarkdownNodeType::Heading,
            AttrsView::Heading { level },
            content.content(),
        ),
{
    MarkdownNode::Heading(AttrNode { attrs: HeadingAttrs { level }, content: content.into_fragment() })
}

/// Create a heading (level 1) node.
pub fn h1<A: IntoFragment>(content: A) -> (r: MarkdownNode)
    requires
        content_size(content.content()) + 2 <= usize::MAX,
    ensures
        r@ == parent_node(
            MarkdownNodeType::Heading,
            AttrsView::Heading { level: 1 },
            content.content(),
        ),
{
    h(1, content)
}

/// Create a heading (level 2) node.
pub fn h2<A: IntoFragment>(content: A) -> (r: MarkdownNode)
    requires
        content_size(content.content()) + 2 <= usize::MAX,
    ensures
        r@ == parent_node(
            MarkdownNodeType::Heading,
            AttrsView::Heading { level: 2 },
            content.content(),
        ),
{
    h(2, content)
}

/// Create an emphasized text node.
pub fn em(content: &str) -> (r: MarkdownNode)
    ensures
        r@ == NodeView::text_node(content@, seq![MarkView::Em]),
{
    MarkdownNode::Text(
        TextNode { text: Text::new(content.to_owned()), marks: MarkdownMark::Em.into_set() },
    )
}

/// Create a strong text node.
pub fn strong(content: &str) -> (r: MarkdownNode)
    ensures
        r@ == NodeView::text_node(content@, seq![MarkView::Strong]),
{
    MarkdownNode::Text(
        TextNode { text: Text::new(content.to_owned()), marks: MarkdownMark::Strong.into_set() },
    )
}

/// Create a paragraph node.
pub fn p<A: IntoFragment>(content: A) -> (r: MarkdownNode)
    requires
        content_size(content.content()) + 2 <= usize::MAX,
    ensures
        r@ == parent_node(MarkdownNodeType::Paragraph, AttrsView::Empty, content.content()),
{
    MarkdownNode::Paragraph(Block { content: content.into_fragment() })
}

/// Create a list item node.
pub fn li<A: IntoFragment>(content: A) -> (r: MarkdownNode)
    requires
        content_size(content.content()) + 2 <= usize::MAX,
    ensures
        r@ == parent_node(MarkdownNodeType::ListItem, AttrsView::Empty, content.content()),
{
    MarkdownNode::ListItem(Block { content: content.into_fragment() })
}

/// Create a Bullet list node.
pub fn ul<A: IntoFragment>(content: A) -> (r: MarkdownNode)
    requires
        content_size(content.content()) + 2 <= usize::MAX,
    ensures
        r@ == parent_node(
            MarkdownNodeType::BulletList,
            AttrsView::BulletList { tight: false },
            content.content(),
        ),
{
    MarkdownNode::BulletList(
        AttrNode { attrs: BulletListAttrs { tight: false }, content: content.into_fragment() },
    )
}

/// Create a code block node.
pub fn code_block<A: IntoFragment>(params: &str, content: A) -> (r: MarkdownNode)
    requires
        content_size(content.content()) + 2 <= usize::MAX,
    ensures
        r@ == parent_node(
            MarkdownNodeType::CodeBlock,
            AttrsView::CodeBlock { params: params@ },
            content.content(),
        ),
{
    MarkdownNode::CodeBlock(
        AttrNode {
            attrs: CodeBlockAttrs { params: params.to_owned() },
            content: content.into_fragment(),
        },
    )
}

/// Create a blockquote node.
pub fn blockquote<A: IntoFragment>(content: A) -> (r: MarkdownNode)
    requires
        content_size(content.content()) + 2 <= usize::MAX,
    ensures
        r@ == parent_node(MarkdownNodeType::Blockquote, AttrsView::Empty, content.content()),
{
    MarkdownNode::Blockquote(Block { content: content.into_fragment() })
}

/// Create a text node without marks.
pub fn node(src: &str) -> (r: MarkdownNode)
    ensures
        r@ == plain_text(src@),
{
    MarkdownNode::text(src)
}

} // verus!
