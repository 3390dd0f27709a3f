//! Building a document from the events of a markdown text.

use super::attrs::{
    AttrsView, BulletListAttrs, CodeBlockAttrs, HeadingAttrs, ImageAttrs, LinkAttrs,
    OrderedListAttrs,
};
use super::cmark::{markdown_events, parse_markdown};
use super::events::{events_view, MdEvent, MdEventView, MdTag, MdTagView};
use super::helper::parent_node;
use super::marks::{MarkView, MarkdownMark};
use super::schema::MarkdownNodeType;
use super::MarkdownNode;
use crate::model::fragment::{nodes_view, Fragment};
use crate::model::marks::{marks_add, marks_remove, MarkSet};
use crate::model::schema::{AttrNode, Block, Leaf, TextNode};
use crate::model::text::{without_last_newline, Text};
use crate::model::view::{content_size, NodeView};
use std::num::TryFromIntError;
use vstd::prelude::*;

verus! {

/// Errors that can occur when reading a markdown file
#[derive(Debug, PartialEq)]
pub enum FromMarkdownError {
    /// Heading level too deep
    LevelMismatch(TryFromIntError),
    /// Not supported: `{0}`
    NotSupported(&'static str),
    /// The stack was empty
    StackEmpty,
    /// Event mismatch
    MisplacedEndTag(&'static str, Attrs),
    /// No children allowed in {0:?}
    NoChildrenAllowed(&'static str),
    /// The document is too large for the address space
    TooLarge,
}

/// What a node under construction is to become.
#[derive(Debug, PartialEq, Eq)]
pub enum Attrs {
    /// The document
    Doc,
    /// A paragraph
    Paragraph,
    /// A heading
    Heading(HeadingAttrs),
    /// A block quote
    Blockquote,
    /// A code block
    CodeBlock(CodeBlockAttrs),
    /// An ordered list
    OrderedList(OrderedListAttrs),
    /// A bullet list
    BulletList(BulletListAttrs),
    /// A list item
    ListItem,
    /// An image
    Image(ImageAttrs),
}

/// What a node under construction is to become, as plain values: its type
/// and its attributes.
pub struct FrameKind {
    /// The type of the node
    pub kind: MarkdownNodeType,
    /// The attributes of the node
    pub attrs: AttrsView,
}

impl View for Attrs {
    type V = FrameKind;

    open spec fn view(&self) -> FrameKind {
        match self {
            Attrs::Doc => FrameKind { kind: MarkdownNodeType::Doc, attrs: AttrsView::Empty },
            Attrs::Paragraph => FrameKind {
                kind: MarkdownNodeType::Paragraph,
                attrs: AttrsView::Empty,
            },
            Attrs::Heading(a) => FrameKind { kind: MarkdownNodeType::Heading, attrs: a@ },
            Attrs::Blockquote => FrameKind {
                kind: MarkdownNodeType::Blockquote,
                attrs: AttrsView::Empty,
            },
            Attrs::CodeBlock(a) => FrameKind { kind: MarkdownNodeType::CodeBlock, attrs: a@ },
            Attrs::OrderedList(a) => FrameKind { kind: MarkdownNodeType::OrderedList, attrs: a@ },
            Attrs::BulletList(a) => FrameKind { kind: MarkdownNodeType::BulletList, attrs: a@ },
            Attrs::ListItem => FrameKind {
                kind: MarkdownNodeType::ListItem,
                attrs: AttrsView::Empty,
            },
            Attrs::Image(a) => FrameKind { kind: MarkdownNodeType::Image, attrs: a@ },
        }
    }
}

/// Why the events of a markdown text are no document, as plain values.
pub enum Fault {
    /// A heading level or a list start is too large
    LevelMismatch,
    /// The named kind of event is not supported
    NotSupported(Seq<char>),
    /// An element ends that did not start
    StackEmpty,
    /// The named element ends where the given one is under construction
    MisplacedEndTag(Seq<char>, FrameKind),
    /// The named element has children
    NoChildrenAllowed(Seq<char>),
    /// The document is too large for the address space
    TooLarge,
}

impl View for FromMarkdownError {
    type V = Fault;

    open spec fn view(&self) -> Fault {
        match self {
            FromMarkdownError::LevelMismatch(_) => Fault::LevelMismatch,
            FromMarkdownError::NotSupported(s) => Fault::NotSupported(s@),
            FromMarkdownError::StackEmpty => Fault::StackEmpty,
            FromMarkdownError::MisplacedEndTag(s, a) => Fault::MisplacedEndTag(s@, a@),
            FromMarkdownError::NoChildrenAllowed(s) => Fault::NoChildrenAllowed(s@),
            FromMarkdownError::TooLarge => Fault::TooLarge,
        }
    }
}

/// A node under construction: the children that it has so far, and what it
/// is to become.
pub struct Frame {
    /// The children so far
    pub nodes: Seq<NodeView>,
    /// What the node is to become
    pub kind: FrameKind,
}

/// The state of the construction of a document: the nodes under
/// construction, the innermost last, and the marks that are open.
pub struct Building {
    /// The nodes under construction
    pub stack: Seq<Frame>,
    /// The open marks
    pub marks: Seq<MarkView>,
}

impl Building {
    /// The state with one more node under construction.
    pub open spec fn opened(self, kind: FrameKind) -> Building {
        Building { stack: self.stack.push(Frame { nodes: Seq::empty(), kind }), ..self }
    }

    /// The state with a node added to the innermost node under
    /// construction.
    pub open spec fn added(self, node: NodeView) -> Result<Building, Fault> {
        if self.stack.len() == 0 {
            Err(Fault::StackEmpty)
        } else {
            let top = self.stack.last();
            Ok(
                Building {
                    stack: self.stack.drop_last().push(
                        Frame { nodes: top.nodes.push(node), kind: top.kind },
                    ),
                    ..self
                },
            )
        }
    }

    /// The state after the innermost node under construction is closed as
    /// a node of the type `kind` that the tag named `name` ends.
    pub open spec fn closed(self, name: Seq<char>, kind: MarkdownNodeType) -> Result<
        Building,
        Fault,
    > {
        if self.stack.len() == 0 {
            Err(Fault::StackEmpty)
        } else {
            let top = self.stack.last();
            let rest = Building { stack: self.stack.drop_last(), ..self };
            if top.kind.kind != kind {
                Err(Fault::MisplacedEndTag(name, top.kind))
            } else if content_size(top.nodes) + 2 > usize::MAX {
                Err(Fault::TooLarge)
            } else {
                rest.added(parent_node(kind, top.kind.attrs, top.nodes))
            }
        }
    }
}

/// The children of a code block: the last of them, if it is text, without
/// the line feed at its end.
pub open spec fn code_content(nodes: Seq<NodeView>) -> Seq<NodeView> {
    if nodes.len() > 0 && nodes.last().is_text() {
        nodes.drop_last().push(
            NodeView { text: without_last_newline(nodes.last().text), ..nodes.last() },
        )
    } else {
        nodes
    }
}

/// The state after the start of an element.
pub open spec fn start_tag(state: Building, tag: MdTagView) -> Result<Building, Fault> {
    match tag {
        MdTagView::Paragraph => Ok(
            state.opened(FrameKind { kind: MarkdownNodeType::Paragraph, attrs: AttrsView::Empty }),
        ),
        MdTagView::Heading(l) => if l > 255 {
            Err(Fault::LevelMismatch)
        } else {
            Ok(
                state.opened(
                    FrameKind {
                        kind: MarkdownNodeType::Heading,
                        attrs: AttrsView::Heading { level: l as u8 },
                    },
                ),
            )
        },
        MdTagView::BlockQuote => Ok(
            state.opened(FrameKind { kind: MarkdownNodeType::Blockquote, attrs: AttrsView::Empty }),
        ),
        MdTagView::CodeBlock(info) => Ok(
            state.opened(
                FrameKind {
                    kind: MarkdownNodeType::CodeBlock,
                    attrs: AttrsView::CodeBlock {
                        params: match info {
                            Some(s) => s,
                            None => Seq::empty(),
                        },
                    },
                },
            ),
        ),
        MdTagView::List(Some(order)) => if order > usize::MAX {
            Err(Fault::LevelMismatch)
        } else {
            Ok(
                state.opened(
                    FrameKind {
                        kind: MarkdownNodeType::OrderedList,
                        attrs: AttrsView::OrderedList { order: order as usize, tight: false },
                    },
                ),
            )
        },
        MdTagView::List(None) => Ok(
            state.opened(
                FrameKind {
                    kind: MarkdownNodeType::BulletList,
                    attrs: AttrsView::BulletList { tight: false },
                },
            ),
        ),
        MdTagView::Item => Ok(
            state.opened(FrameKind { kind: MarkdownNodeType::ListItem, attrs: AttrsView::Empty }),
        ),
        MdTagView::FootnoteDefinition => Err(Fault::NotSupported("FootnoteDefinition"@)),
        MdTagView::Table => Err(Fault::NotSupported("Table"@)),
        MdTagView::TableHead => Err(Fault::NotSupported("TableHead"@)),
        MdTagView::TableRow => Err(Fault::NotSupported("TableRow"@)),
        MdTagView::TableCell => Err(Fault::NotSupported("TableCell"@)),
        MdTagView::Emphasis => Ok(Building { marks: marks_add(state.marks, MarkView::Em), ..state }),
        MdTagView::Strong => Ok(
            Building { marks: marks_add(state.marks, MarkView::Strong), ..state },
        ),
        MdTagView::Strikethrough => Err(Fault::NotSupported("Strikethrough"@)),
        MdTagView::Link(href, title) => Ok(
            Building { marks: marks_add(state.marks, MarkView::Link { href, title }), ..state },
        ),
        MdTagView::Image(src, title) => Ok(
            state.opened(
                FrameKind {
                    kind: MarkdownNodeType::Image,
                    attrs: AttrsView::Image { src, alt: title, title },
                },
            ),
        ),
    }
}

/// The state after the end of an element.
pub open spec fn end_tag(state: Building, tag: MdTagView) -> Result<Building, Fault> {
    match tag {
        MdTagView::Paragraph => state.closed("Paragraph"@, MarkdownNodeType::Paragraph),
        MdTagView::Heading(_) => state.closed("Heading"@, MarkdownNodeType::Heading),
        MdTagView::BlockQuote => state.closed("BlockQuote"@, MarkdownNodeType::Blockquote),
        MdTagView::CodeBlock(_) => if state.stack.len() == 0 {
            Err(Fault::StackEmpty)
        } else {
            let top = state.stack.last();
            (Building {
                stack: state.stack.drop_last().push(
                    Frame { nodes: code_content(top.nodes), kind: top.kind },
                ),
                ..state
            }).closed("CodeBlock"@, MarkdownNodeType::CodeBlock)
        },
        MdTagView::List(_) => if state.stack.len() == 0 {
            Err(Fault::StackEmpty)
        } else if state.stack.last().kind.kind == MarkdownNodeType::OrderedList {
            state.closed("List"@, MarkdownNodeType::OrderedList)
        } else {
            state.closed("List"@, MarkdownNodeType::BulletList)
        },
        MdTagView::Item => if state.stack.len() == 0 {
            Err(Fault::StackEmpty)
        } else if state.stack.last().kind.kind == MarkdownNodeType::ListItem {
            state.closed("Item"@, MarkdownNodeType::ListItem)
        } else {
            Ok(Building { stack: state.stack.drop_last(), ..state })
        },
        MdTagView::FootnoteDefinition => Err(Fault::NotSupported("FootnoteDefinition"@)),
        MdTagView::Table => Err(Fault::NotSupported("Table"@)),
        MdTagView::TableHead => Err(Fault::NotSupported("TableHead"@)),
        MdTagView::TableRow => Err(Fault::NotSupported("TableRow"@)),
        MdTagView::TableCell => Err(Fault::NotSupported("TableCell"@)),
        MdTagView::Emphasis => Ok(
            Building { marks: marks_remove(state.marks, MarkView::Em), ..state },
        ),
        MdTagView::Strong => Ok(
            Building { marks: marks_remove(state.marks, MarkView::Strong), ..state },
        ),
        MdTagView::Strikethrough => Err(Fault::NotSupported("Strikethrough"@)),
        MdTagView::Link(href, title) => Ok(
            Building { marks: marks_remove(state.marks, MarkView::Link { href, title }), ..state },
        ),
        MdTagView::Image(_, _) => if state.stack.len() == 0 {
            Err(Fault::StackEmpty)
        } else {
            let top = state.stack.last();
            let rest = Building { stack: state.stack.drop_last(), ..state };
            if top.kind.kind != MarkdownNodeType::Image {
                Err(Fault::MisplacedEndTag("Image"@, top.kind))
            } else if top.nodes.len() > 0 {
                Err(Fault::NoChildrenAllowed("Image"@))
            } else {
                rest.added(
                    NodeView {
                        kind: MarkdownNodeType::Image,
                        attrs: top.kind.attrs,
                        text: Seq::empty(),
                        marks: Seq::empty(),
                        content: Seq::empty(),
                    },
                )
            }
        },
    }
}

/// A leaf of the given type without attributes.
pub open spec fn unit_node(kind: MarkdownNodeType) -> NodeView {
    NodeView {
        kind,
        attrs: AttrsView::Empty,
        text: Seq::empty(),
        marks: Seq::empty(),
        content: Seq::empty(),
    }
}

/// The state after one event: a start tag opens a node or a mark, an end
/// tag closes it, text and code become text nodes with the open marks, and
/// breaks and rules become leaves.
pub open spec fn feed(state: Building, event: MdEventView) -> Result<Building, Fault> {
    match event {
        MdEventView::Start(tag) => start_tag(state, tag),
        MdEventView::End(tag) => end_tag(state, tag),
        MdEventView::Text(text) => state.added(NodeView::text_node(text, state.marks)),
        MdEventView::Code(text) => state.added(
            NodeView::text_node(text, marks_add(state.marks, MarkView::Code)),
        ),
        MdEventView::Html => Err(Fault::NotSupported("Html"@)),
        MdEventView::FootnoteReference => Err(Fault::NotSupported("FootnoteReference"@)),
        MdEventView::SoftBreak => Err(Fault::NotSupported("SoftBreak"@)),
        MdEventView::HardBreak => state.added(unit_node(MarkdownNodeType::HardBreak)),
        MdEventView::Rule => state.added(unit_node(MarkdownNodeType::HorizontalRule)),
        MdEventView::TaskListMarker => Err(Fault::NotSupported("TaskListMarker"@)),
    }
}

/// The state after the first `k` events.
pub open spec fn feed_all(state: Building, events: Seq<MdEventView>, k: nat) -> Result<
    Building,
    Fault,
>
    decreases k,
{
    if k == 0 || k > events.len() {
        Ok(state)
    } else {
        match feed_all(state, events, (k - 1) as nat) {
            Err(e) => Err(e),
            Ok(s) => feed(s, events[k - 1]),
        }
    }
}

/// The document that the events build: the events are fed to a state that
/// has the document under construction, and the document is what is under
/// construction after the last event.
pub open spec fn build(state: Building, events: Seq<MdEventView>) -> Result<NodeView, Fault> {
    match feed_all(
        state.opened(FrameKind { kind: MarkdownNodeType::Doc, attrs: AttrsView::Empty }),
        events,
        events.len(),
    ) {
        Err(e) => Err(e),
        Ok(s) => if s.stack.len() == 0 {
            Err(Fault::StackEmpty)
        } else if s.stack.last().kind.kind != MarkdownNodeType::Doc {
            Err(Fault::MisplacedEndTag("Doc"@, s.stack.last().kind))
        } else if content_size(s.stack.last().nodes) + 2 > usize::MAX {
            Err(Fault::TooLarge)
        } else {
            Ok(parent_node(MarkdownNodeType::Doc, AttrsView::Empty, s.stack.last().nodes))
        },
    }
}

/// What a result with a document holds, as plain values.
pub open spec fn built(r: Result<MarkdownNode, FromMarkdownError>) -> Result<NodeView, Fault> {
    match r {
        Ok(n) => Ok(n@),
        Err(e) => Err(e@),
    }
}

/// What a result without a value holds, with the state that it left.
pub open spec fn fed(r: Result<(), FromMarkdownError>, state: Building) -> Result<Building, Fault> {
    match r {
        Ok(_) => Ok(state),
        Err(e) => Err(e@),
    }
}

/// Creates a document from a markdown text: from the events that the text
/// parses to.
pub fn from_markdown(text: &str) -> (r: Result<MarkdownNode, FromMarkdownError>)
    ensures
        built(r) == build(
            Building { stack: Seq::empty(), marks: Seq::empty() },
            markdown_events(text@),
        ),
{
    let events = parse_markdown(text);
    let mut d = MarkdownDeserializer::default();
    d.deserialize(events)
}

/// Builds a document from markdown events.
pub struct MarkdownDeserializer {
    stack: Vec<(Vec<MarkdownNode>, Attrs)>,
    mark_set: MarkSet,
}

impl View for MarkdownDeserializer {
    type V = Building;

    closed spec fn view(&self) -> Building {
        Building {
            stack: Seq::new(
                self.stack@.len(),
                |i: int| Frame { nodes: nodes_view(self.stack@[i].0@), kind: self.stack@[i].1@ },
            ),
            marks: self.mark_set@,
        }
    }
}

impl Default for MarkdownDeserializer {
    fn default() -> (r: Self)
        ensures
            r@ == (Building { stack: Seq::empty(), marks: Seq::empty() }),
    {
        let r = MarkdownDeserializer { stack: Vec::new(), mark_set: MarkSet::new() };
        assert(r@.stack =~= Seq::<Frame>::empty());
        r
    }
}

impl MarkdownDeserializer {
    /// Starts the construction of a node.
    fn push_stack(&mut self, attrs: Attrs)
        ensures
            final(self)@ == old(self)@.opened(attrs@),
    {
        let ghost before = self@;
        self.stack.push((Vec::new(), attrs));
        proof {
            assert(nodes_view(Seq::<MarkdownNode>::empty()) =~= Seq::<NodeView>::empty());
            assert(self@.stack =~= before.opened(attrs@).stack);
        }
    }

    /// Takes the innermost node under construction off the stack.
    fn pop_stack(&mut self) -> (r: Result<(Vec<MarkdownNode>, Attrs), FromMarkdownError>)
        ensures
            old(self)@.stack.len() == 0 ==> r is Err && r.unwrap_err()@ == Fault::StackEmpty
                && final(self)@ == old(self)@,
            old(self)@.stack.len() > 0 ==> r is Ok && final(self)@ == (Building {
                stack: old(self)@.stack.drop_last(),
                ..old(self)@
            }) && nodes_view(r.unwrap().0@) == old(self)@.stack.last().nodes && r.unwrap().1@
                == old(self)@.stack.last().kind,
    {
        let ghost before = self@;
        match self.stack.pop() {
            Some(popped) => {
                proof {
                    assert(self@.stack =~= before.stack.drop_last());
                }
                Ok(popped)
            },
            None => Err(FromMarkdownError::StackEmpty),
        }
    }

    /// Adds a node to the innermost node under construction.
    fn add_content(&mut self, node: MarkdownNode) -> (r: Result<(), FromMarkdownError>)
        ensures
            fed(r, final(self)@) == old(self)@.added(node@),
    {
        let ghost before = self@;
        match self.stack.pop() {
            Some(popped) => {
                let (mut nodes, attrs) = popped;
                let ghost kids = nodes_view(nodes@);
                nodes.push(node);
                proof {
                    assert(nodes_view(nodes@) =~= kids.push(node@));
                }
                self.stack.push((nodes, attrs));
                proof {
                    assert(self@.stack =~= before.added(node@)->Ok_0.stack);
                }
                Ok(())
            },
            None => Err(FromMarkdownError::StackEmpty),
        }
    }

    /// Closes the innermost node under construction as a node around the
    /// children that it has.
    fn close(&mut self, name: &'static str, kind: MarkdownNodeType) -> (r: Result<
        (),
        FromMarkdownError,
    >)
        requires
            kind.parent(),
        ensures
            fed(r, final(self)@) == old(self)@.closed(name@, kind),
    {
        let (content, attrs) = match self.pop_stack() {
            Ok(p) => p,
            Err(e) => {
                return Err(e);
            },
        };
        let same_kind = match (&attrs, kind) {
            (Attrs::Doc, MarkdownNodeType::Doc) => true,
            (Attrs::Paragraph, MarkdownNodeType::Paragraph) => true,
            (Attrs::Heading(_), MarkdownNodeType::Heading) => true,
            (Attrs::Blockquote, MarkdownNodeType::Blockquote) => true,
            (Attrs::CodeBlock(_), MarkdownNodeType::CodeBlock) => true,
            (Attrs::OrderedList(_), MarkdownNodeType::OrderedList) => true,
            (Attrs::BulletList(_), MarkdownNodeType::BulletList) => true,
            (Attrs::ListItem, MarkdownNodeType::ListItem) => true,
            _ => false,
        };
        if !same_kind {
            return Err(FromMarkdownError::MisplacedEndTag(name, attrs));
        }
        let content = match Fragment::try_from_nodes(content) {
            Some(f) => f,
            None => {
                return Err(FromMarkdownError::TooLarge);
            },
        };
        let node = match attrs {
            Attrs::Doc => MarkdownNode::Doc(Block { content }),
            Attrs::Paragraph => MarkdownNode::Paragraph(Block { content }),
            Attrs::Heading(attrs) => MarkdownNode::Heading(AttrNode { attrs, content }),
            Attrs::Blockquote => MarkdownNode::Blockquote(Block { content }),
            Attrs::CodeBlock(attrs) => MarkdownNode::CodeBlock(AttrNode { attrs, content }),
            Attrs::OrderedList(attrs) => MarkdownNode::OrderedList(AttrNode { attrs, content }),
            Attrs::BulletList(attrs) => MarkdownNode::BulletList(AttrNode { attrs, content }),
            Attrs::ListItem => MarkdownNode::ListItem(Block { content }),
            Attrs::Image(attrs) => MarkdownNode::Image(Leaf { attrs }),
        };
        self.add_content(node)
    }

    /// Takes in the start of an element.
    fn start_tag(&mut self, tag: MdTag) -> (r: Result<(), FromMarkdownError>)
        ensures
            fed(r, final(self)@) == start_tag(old(self)@, tag@),
    {
        match tag {
            MdTag::Paragraph => {
                self.push_stack(Attrs::Paragraph);
            },
            MdTag::Heading(l) => {
                let level = match u8::try_from(l) {
                    Ok(level) => level,
                    Err(e) => {
                        return Err(FromMarkdownError::LevelMismatch(e));
                    },
                };
                self.push_stack(Attrs::Heading(HeadingAttrs { level }));
            },
            MdTag::BlockQuote => {
                self.push_stack(Attrs::Blockquote);
            },
            MdTag::CodeBlock(kind) => {
                let params = if let Some(params) = kind {
                    params
                } else {
                    String::new()
                };
                self.push_stack(Attrs::CodeBlock(CodeBlockAttrs { params }));
            },
            MdTag::List(ord) => {
                if let Some(order) = ord {
                    let order = match usize::try_from(order) {
                        Ok(order) => order,
                        Err(e) => {
                            return Err(FromMarkdownError::LevelMismatch(e));
                        },
                    };
                    self.push_stack(
                        Attrs::OrderedList(OrderedListAttrs { order, tight: false }),
                    );
                } else {
                    self.push_stack(Attrs::BulletList(BulletListAttrs { tight: false }));
                }
            },
            MdTag::Item => {
                self.push_stack(Attrs::ListItem);
            },
            MdTag::FootnoteDefinition => {
                return Err(FromMarkdownError::NotSupported("FootnoteDefinition"));
            },
            MdTag::Table => {
                return Err(FromMarkdownError::NotSupported("Table"));
            },
            MdTag::TableHead => {
                return Err(FromMarkdownError::NotSupported("TableHead"));
            },
            MdTag::TableRow => {
                return Err(FromMarkdownError::NotSupported("TableRow"));
            },
            MdTag::TableCell => {
                return Err(FromMarkdownError::NotSupported("TableCell"));
            },
            MdTag::Emphasis => {
                self.mark_set.add(&MarkdownMark::Em);
            },
            MdTag::Strong => {
                self.mark_set.add(&MarkdownMark::Strong);
            },
            MdTag::Strikethrough => {
                return Err(FromMarkdownError::NotSupported("Strikethrough"));
            },
            MdTag::Link(href, title) => {
                self.mark_set.add(&MarkdownMark::Link { attrs: LinkAttrs { href, title } });
            },
            MdTag::Image(src, title) => {
                let alt = title.clone();
                self.push_stack(Attrs::Image(ImageAttrs { src, alt, title }));
            },
        }
        Ok(())
    }

    /// Takes in the end of an element.
    fn end_tag(&mut self, tag: MdTag) -> (r: Result<(), FromMarkdownError>)
        ensures
            fed(r, final(self)@) == end_tag(old(self)@, tag@),
    {
        match tag {
            MdTag::Paragraph => self.close("Paragraph", MarkdownNodeType::Paragraph),
            MdTag::Heading(_) => self.close("Heading", MarkdownNodeType::Heading),
            MdTag::BlockQuote => self.close("BlockQuote", MarkdownNodeType::Blockquote),
            MdTag::CodeBlock(_) => {
                let ghost before = self@;
                let (mut content, attrs) = match self.pop_stack() {
                    Ok(p) => p,
                    Err(e) => {
                        return Err(e);
                    },
                };
                let count: usize = content.len();
                if count > 0 {
                    let last = content.pop().unwrap();
                    let trimmed = match last {
                        MarkdownNode::Text(t) => {
                            let mut text = t.text;
                            text.remove_last_newline();
                            MarkdownNode::Text(TextNode { marks: t.marks, text })
                        },
                        other => other,
                    };
                    content.push(trimmed);
                }
                proof {
                    assert(nodes_view(content@) =~= code_content(before.stack.last().nodes));
                }
                let ghost kind = attrs@;
                let ghost kids = nodes_view(content@);
                let ghost rest = self@;
                self.stack.push((content, attrs));
                proof {
                    assert(self@.stack =~= before.stack.drop_last().push(
                        Frame { nodes: kids, kind },
                    ));
                }
                self.close("CodeBlock", MarkdownNodeType::CodeBlock)
            },
            MdTag::List(_) => {
                let ordered = match self.top_kind() {
                    Some(k) => matches!(k, MarkdownNodeType::OrderedList),
                    None => {
                        return Err(FromMarkdownError::StackEmpty);
                    },
                };
                if ordered {
                    self.close("List", MarkdownNodeType::OrderedList)
                } else {
                    self.close("List", MarkdownNodeType::BulletList)
                }
            },
            MdTag::Item => {
                let item = match self.top_kind() {
                    Some(k) => matches!(k, MarkdownNodeType::ListItem),
                    None => {
                        return Err(FromMarkdownError::StackEmpty);
                    },
                };
                if item {
                    self.close("Item", MarkdownNodeType::ListItem)
                } else {
                    match self.pop_stack() {
                        Ok(_) => Ok(()),
                        Err(e) => Err(e),
                    }
                }
            },
            MdTag::FootnoteDefinition => Err(FromMarkdownError::NotSupported("FootnoteDefinition")),
            MdTag::Table => Err(FromMarkdownError::NotSupported("Table")),
            MdTag::TableHead => Err(FromMarkdownError::NotSupported("TableHead")),
            MdTag::TableRow => Err(FromMarkdownError::NotSupported("TableRow")),
            MdTag::TableCell => Err(FromMarkdownError::NotSupported("TableCell")),
            MdTag::Emphasis => {
                self.mark_set.remove(&MarkdownMark::Em);
                Ok(())
            },
            MdTag::Strong => {
                self.mark_set.remove(&MarkdownMark::Strong);
                Ok(())
            },
            MdTag::Strikethrough => Err(FromMarkdownError::NotSupported("Strikethrough")),
            MdTag::Link(href, title) => {
                self.mark_set.remove(&MarkdownMark::Link { attrs: LinkAttrs { href, title } });
                Ok(())
            },
            MdTag::Image(_, _) => {
                let (content, attrs) = match self.pop_stack() {
                    Ok(p) => p,
                    Err(e) => {
                        return Err(e);
                    },
                };
                if let Attrs::Image(attrs) = attrs {
                    if content.len() > 0 {
                        return Err(FromMarkdownError::NoChildrenAllowed("Image"));
                    }
                    let node = MarkdownNode::Image(Leaf { attrs });
                    self.add_content(node)
                } else {
                    Err(FromMarkdownError::MisplacedEndTag("Image", attrs))
                }
            },
        }
    }

    /// The type of the innermost node under construction.
    fn top_kind(&self) -> (r: Option<MarkdownNodeType>)
        ensures
            self@.stack.len() == 0 ==> r is None,
            self@.stack.len() > 0 ==> r == Some(self@.stack.last().kind.kind),
    {
        let count: usize = self.stack.len();
        if count == 0 {
            None
        } else {
            Some(
                match &self.stack[count - 1].1 {
                    Attrs::Doc => MarkdownNodeType::Doc,
                    Attrs::Paragraph => MarkdownNodeType::Paragraph,
                    Attrs::Heading(_) => MarkdownNodeType::Heading,
                    Attrs::Blockquote => MarkdownNodeType::Blockquote,
                    Attrs::CodeBlock(_) => MarkdownNodeType::CodeBlock,
                    Attrs::OrderedList(_) => MarkdownNodeType::OrderedList,
                    Attrs::BulletList(_) => MarkdownNodeType::BulletList,
                    Attrs::ListItem => MarkdownNodeType::ListItem,
                    Attrs::Image(_) => MarkdownNodeType::Image,
                },
            )
        }
    }

    /// Takes in one event.
    pub fn feed(&mut self, event: MdEvent) -> (r: Result<(), FromMarkdownError>)
        ensures
            fed(r, final(self)@) == feed(old(self)@, event@),
    {
        match event {
            MdEvent::Start(tag) => self.start_tag(tag),
            MdEvent::End(tag) => self.end_tag(tag),
            MdEvent::Text(text) => {
                let marks = self.mark_set.clone();
                self.add_content(MarkdownNode::Text(TextNode { text: Text::new(text), marks }))
            },
            MdEvent::Code(text) => {
                let mut marks = self.mark_set.clone();
                marks.add(&MarkdownMark::Code);
                self.add_content(MarkdownNode::Text(TextNode { text: Text::new(text), marks }))
            },
            MdEvent::Html => Err(FromMarkdownError::NotSupported("Html")),
            MdEvent::FootnoteReference => Err(FromMarkdownError::NotSupported("FootnoteReference")),
            MdEvent::SoftBreak => Err(FromMarkdownError::NotSupported("SoftBreak")),
            MdEvent::HardBreak => self.add_content(MarkdownNode::HardBreak),
            MdEvent::Rule => self.add_content(MarkdownNode::HorizontalRule),
            MdEvent::TaskListMarker => Err(FromMarkdownError::NotSupported("TaskListMarker")),
        }
    }

    /// Builds the document of the events: every element that starts gets a
    /// node under construction, which becomes a child of the node around it
    /// when the element ends.
    #[verifier::loop_isolation(false)]
    pub fn deserialize(&mut self, events: Vec<MdEvent>) -> (r: Result<
        MarkdownNode,
        FromMarkdownError,
    >)
        ensures
            built(r) == build(old(self)@, events_view(events@)),
    {
        let ghost start = self@.opened(
            FrameKind { kind: MarkdownNodeType::Doc, attrs: AttrsView::Empty },
        );
        let ghost all = events_view(events@);
        self.push_stack(Attrs::Doc);
        for event in it: events.into_iter()
            invariant
                all == events_view(it.seq()),
                feed_all(start, all, it.index() as nat) == Ok::<Building, Fault>(self@),
        {
            let ghost k = it.index();
            let ghost before = self@;
            proof {
                assert(event@ == all[k as int]);
                assert(k < all.len());
            }
            match self.feed(event) {
                Ok(_) => {},
                Err(e) => {
                    proof {
                        assert(feed_all(start, all, (k + 1) as nat) == feed(before, all[k as int]));
                        lemma_feed_all_err(start, all, (k + 1) as nat, all.len());
                    }
                    return Err(e);
                },
            }
        }
        let (content, attrs) = match self.pop_stack() {
            Ok(p) => p,
            Err(e) => {
                return Err(e);
            },
        };
        if let Attrs::Doc = attrs {
            match Fragment::try_from_nodes(content) {
                Some(content) => Ok(MarkdownNode::Doc(Block { content })),
                None => Err(FromMarkdownError::TooLarge),
            }
        } else {
            Err(FromMarkdownError::MisplacedEndTag("Doc", attrs))
        }
    }
}

/// Once the events are no document, more events do not make one.
pub proof fn lemma_feed_all_err(state: Building, events: Seq<MdEventView>, k: nat, n: nat)
    requires
        k <= n <= events.len(),
        feed_all(state, events, k) is Err,
    ensures
        feed_all(state, events, n) == feed_all(state, events, k),
    decreases n,
{
    if k < n {
        lemma_feed_all_err(state, events, k, (n - 1) as nat);
    }
}

} // verus!
