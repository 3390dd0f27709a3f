//! The events of a markdown document, as the markdown bridge reads and
//! writes them.

use vstd::prelude::*;

verus! {

/// A tag of an element that holds other elements.
#[derive(Debug)]
pub enum MdTag {
    /// A paragraph of text and other inline elements
    Paragraph,
    /// A heading of the given level
    Heading(u32),
    /// A block quote
    BlockQuote,
    /// A code block: with its info string where it is fenced
    CodeBlock(Option<String>),
    /// A list: with the number of its first item where it is ordered
    List(Option<u64>),
    /// A list item
    Item,
    /// A footnote definition
    FootnoteDefinition,
    /// A table
    Table,
    /// A table header
    TableHead,
    /// A table row
    TableRow,
    /// A table cell
    TableCell,
    /// Emphasized text
    Emphasis,
    /// Strong text
    Strong,
    /// Struck through text
    Strikethrough,
    /// A link with its destination and its title
    Link(String, String),
    /// An image with its source and its title
    Image(String, String),
}

/// An event of a markdown document.
#[derive(Debug)]
pub enum MdEvent {
    /// Start of a tagged element
    Start(MdTag),
    /// End of a tagged element
    End(MdTag),
    /// A text node
    Text(String),
    /// An inline code node
    Code(String),
    /// An HTML node
    Html,
    /// A reference to a footnote
    FootnoteReference,
    /// A soft line break
    SoftBreak,
    /// A hard line break
    HardBreak,
    /// A horizontal ruler
    Rule,
    /// A task list marker
    TaskListMarker,
}

/// What a tag holds, as plain values.
pub enum MdTagView {
    /// A paragraph
    Paragraph,
    /// A heading
    Heading(u32),
    /// A block quote
    BlockQuote,
    /// A code block
    CodeBlock(Option<Seq<char>>),
    /// A list
    List(Option<u64>),
    /// A list item
    Item,
    /// A footnote definition
    FootnoteDefinition,
    /// A table
    Table,
    /// A table header
    TableHead,
    /// A table row
    TableRow,
    /// A table cell
    TableCell,
    /// Emphasized text
    Emphasis,
    /// Strong text
    Strong,
    /// Struck through text
    Strikethrough,
    /// A link
    Link(Seq<char>, Seq<char>),
    /// An image
    Image(Seq<char>, Seq<char>),
}

/// What an event holds, as plain values.
pub enum MdEventView {
    /// Start of a tagged element
    Start(MdTagView),
    /// End of a tagged element
    End(MdTagView),
    /// A text node
    Text(Seq<char>),
    /// An inline code node
    Code(Seq<char>),
    /// An HTML node
    Html,
    /// A reference to a footnote
    FootnoteReference,
    /// A soft line break
    SoftBreak,
    /// A hard line break
    HardBreak,
    /// A horizontal ruler
    Rule,
    /// A task list marker
    TaskListMarker,
}

impl View for MdTag {
    type V = MdTagView;

    open spec fn view(&self) -> MdTagView {
        match self {
            MdTag::Paragraph => MdTagView::Paragraph,
            MdTag::Heading(l) => MdTagView::Heading(*l),
            MdTag::BlockQuote => MdTagView::BlockQuote,
            MdTag::CodeBlock(info) => MdTagView::CodeBlock(
                match info {
                    Some(s) => Some(s@),
                    None => None,
                },
            ),
            MdTag::List(order) => MdTagView::List(*order),
            MdTag::Item => MdTagView::Item,
            MdTag::FootnoteDefinition => MdTagView::FootnoteDefinition,
            MdTag::Table => MdTagView::Table,
            MdTag::TableHead => MdTagView::TableHead,
            MdTag::TableRow => MdTagView::TableRow,
            MdTag::TableCell => MdTagView::TableCell,
            MdTag::Emphasis => MdTagView::Emphasis,
            MdTag::Strong => MdTagView::Strong,
            MdTag::Strikethrough => MdTagView::Strikethrough,
            MdTag::Link(href, title) => MdTagView::Link(href@, title@),
            MdTag::Image(src, title) => MdTagView::Image(src@, title@),
        }
    }
}

impl View for MdEvent {
    type V = MdEventView;

    open spec fn view(&self) -> MdEventView {
        match self {
            MdEvent::Start(t) => MdEventView::Start(t@),
            MdEvent::End(t) => MdEventView::End(t@),
            MdEvent::Text(s) => MdEventView::Text(s@),
            MdEvent::Code(s) => MdEventView::Code(s@),
            MdEvent::Html => MdEventView::Html,
            MdEvent::FootnoteReference => MdEventView::FootnoteReference,
            MdEvent::SoftBreak => MdEventView::SoftBreak,
            MdEvent::HardBreak => MdEventView::HardBreak,
            MdEvent::Rule => MdEventView::Rule,
            MdEvent::TaskListMarker => MdEventView::TaskListMarker,
        }
    }
}

/// What the events of a list hold, as plain values.
pub open spec fn events_view(events: Seq<MdEvent>) -> Seq<MdEventView> {
    Seq::new(events.len(), |i: int| events[i]@)
}

impl Clone for MdTag {
    fn clone(&self) -> (r: Self)
        ensures
            r@ == self@,
    {
        match self {
            MdTag::Paragraph => MdTag::Paragraph,
            MdTag::Heading(l) => MdTag::Heading(*l),
            MdTag::BlockQuote => MdTag::BlockQuote,
            MdTag::CodeBlock(info) => MdTag::CodeBlock(
                match info {
                    Some(s) => Some(s.clone()),
                    None => None,
                },
            ),
            MdTag::List(order) => MdTag::List(*order),
            MdTag::Item => MdTag::Item,
            MdTag::FootnoteDefinition => MdTag::FootnoteDefinition,
            MdTag::Table => MdTag::Table,
            MdTag::TableHead => MdTag::TableHead,
            MdTag::TableRow => MdTag::TableRow,
            MdTag::TableCell => MdTag::TableCell,
            MdTag::Emphasis => MdTag::Emphasis,
            MdTag::Strong => MdTag::Strong,
            MdTag::Strikethrough => MdTag::Strikethrough,
            MdTag::Link(href, title) => MdTag::Link(href.clone(), title.clone()),
            MdTag::Image(src, title) => MdTag::Image(src.clone(), title.clone()),
        }
    }
}

} // verus!
