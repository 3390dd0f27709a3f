//! The markdown parser and writer that the bridge rests on.

use super::events::{events_view, MdEvent, MdEventView, MdTag, MdTagView};
use pulldown_cmark::{CodeBlockKind, CowStr, Event, LinkType, Parser, Tag};
use vstd::pervasive::unreached;
use vstd::prelude::*;

verus! {

/// An event of `pulldown_cmark`. Nothing is known of what it holds.
#[verifier::external_type_specification]
#[verifier::external_body]
pub struct ExEvent<'a>(pulldown_cmark::Event<'a>);

/// A tag of `pulldown_cmark`. Nothing is known of what it holds.
#[verifier::external_type_specification]
#[verifier::external_body]
pub struct ExTag<'a>(pulldown_cmark::Tag<'a>);

/// The error of a formatter of std. Nothing is known of what it holds.
#[verifier::external_type_specification]
#[verifier::external_body]
pub struct ExFmtError(core::fmt::Error);

/// The events that a markdown text parses to.
pub uninterp spec fn markdown_events(text: Seq<char>) -> Seq<MdEventView>;

/// The markdown text that events are written as, if they can be written.
pub uninterp spec fn commonmark(events: Seq<MdEventView>) -> Option<Seq<char>>;

/// Parses a markdown text with `pulldown_cmark::Parser::new` and gives, in their
/// order, the events that the parser yields, each as `event_of` makes it of what the
/// event is told to be. The claim is that the events are a function of the text alone.
#[verifier::external_body]
pub(crate) fn parse_markdown(text: &str) -> (r: Vec<MdEvent>)
    ensures
        events_view(r@) == markdown_events(text@),
{
    Parser::new(text).map(|e| event_of(event_tag(&e).map(|(s, t)| (s, block_tag(t), other_tag(t))), event_leaf(&e))).collect()
}

/// Writes events as markdown text with `pulldown_cmark_to_cmark::cmark`,
/// into an empty string and from the initial state of the writer. The claim
/// is that the text, or the failure of the writer, is a function of the
/// events alone.
#[verifier::external_body]
pub(crate) fn render_events(events: &Vec<MdEvent>) -> (r: Result<String, core::fmt::Error>)
    requires
        forall|i: int| 0 <= i < events@.len() ==> (#[trigger] events@[i])@.renderable(),
    ensures
        match r {
            Ok(s) => commonmark(events_view(events@)) == Some(s@),
            Err(_) => commonmark(events_view(events@)) is None,
        },
{
    let mut buf = String::new();
    match pulldown_cmark_to_cmark::cmark(events.iter().map(|e| event_for(e)), &mut buf, None) {
        Ok(_) => Ok(buf),
        Err(e) => Err(e),
    }
}

/// Tells the `Start` and the `End` variant of `pulldown_cmark::Event` from
/// the others: the tag of the event, and whether it starts.
#[verifier::external_body]
fn event_tag<'e, 'a>(e: &'e Event<'a>) -> Option<(bool, &'e Tag<'a>)> {
    match e {
        Event::Start(t) => Some((true, t)),
        Event::End(t) => Some((false, t)),
        _ => None,
    }
}

/// Tells the variants of `pulldown_cmark::Event` without a tag apart, and
/// copies the text of a text or code event.
#[verifier::external_body]
fn event_leaf(e: &Event<'_>) -> Option<MdEvent> {
    match e {
        Event::Text(s) => Some(MdEvent::Text(s.to_string())),
        Event::Code(s) => Some(MdEvent::Code(s.to_string())),
        Event::Html(_) => Some(MdEvent::Html),
        Event::FootnoteReference(_) => Some(MdEvent::FootnoteReference),
        Event::SoftBreak => Some(MdEvent::SoftBreak),
        Event::HardBreak => Some(MdEvent::HardBreak),
        Event::Rule => Some(MdEvent::Rule),
        Event::TaskListMarker(_) => Some(MdEvent::TaskListMarker),
        _ => None,
    }
}

/// Tells the block variants of `pulldown_cmark::Tag` apart, and copies what
/// they hold.
#[verifier::external_body]
fn block_tag(t: &Tag<'_>) -> Option<MdTag> {
    match t {
        Tag::Paragraph => Some(MdTag::Paragraph),
        Tag::Heading(l) => Some(MdTag::Heading(*l)),
        Tag::BlockQuote => Some(MdTag::BlockQuote),
        Tag::CodeBlock(CodeBlockKind::Fenced(p)) => Some(MdTag::CodeBlock(Some(p.to_string()))),
        Tag::CodeBlock(CodeBlockKind::Indented) => Some(MdTag::CodeBlock(None)),
        Tag::List(o) => Some(MdTag::List(*o)),
        Tag::Item => Some(MdTag::Item),
        _ => None,
    }
}

/// Tells the variants of `pulldown_cmark::Tag` that are no blocks apart,
/// and copies the destination and the title of a link or an image.
#[verifier::external_body]
fn other_tag(t: &Tag<'_>) -> Option<MdTag> {
    match t {
        Tag::FootnoteDefinition(_) => Some(MdTag::FootnoteDefinition),
        Tag::Table(_) => Some(MdTag::Table),
        Tag::TableHead => Some(MdTag::TableHead),
        Tag::TableRow => Some(MdTag::TableRow),
        Tag::TableCell => Some(MdTag::TableCell),
        Tag::Emphasis => Some(MdTag::Emphasis),
        Tag::Strong => Some(MdTag::Strong),
        Tag::Strikethrough => Some(MdTag::Strikethrough),
        Tag::Link(_, d, t) => Some(MdTag::Link(d.to_string(), t.to_string())),
        Tag::Image(_, d, t) => Some(MdTag::Image(d.to_string(), t.to_string())),
        _ => None,
    }
}

/// The event of this library that an event of the parser stands for, from what
/// the event was told to be: with a tag, whether it starts, and the tag as a block
/// and as another kind of element; without one, the leaf.
fn event_of(tag: Option<(bool, Option<MdTag>, Option<MdTag>)>, leaf: Option<MdEvent>) -> (r: MdEvent)
    ensures
        r@ == event_told(tag, leaf),
{
    match tag {
        Some((start, block, other)) => {
            let told = match block { Some(t) => Some(t), None => other };
            match told {
                Some(t) => if start {
                    MdEvent::Start(t)
                } else {
                    MdEvent::End(t)
                },
                None => MdEvent::Html,
            }
        },
        None => match leaf {
            Some(event) => event,
            None => MdEvent::Html,
        },
    }
}

/// `pulldown_cmark::Event::Start` of the tag.
#[verifier::external_body]
fn start_event<'a>(tag: Tag<'a>) -> Event<'a> {
    Event::Start(tag)
}

/// `pulldown_cmark::Event::End` of the tag.
#[verifier::external_body]
fn end_event<'a>(tag: Tag<'a>) -> Event<'a> {
    Event::End(tag)
}

/// `pulldown_cmark::Event::Text` of the borrowed text.
#[verifier::external_body]
fn text_event<'a>(text: &'a str) -> Event<'a> {
    Event::Text(CowStr::Borrowed(text))
}

/// `pulldown_cmark::Event::Code` of the borrowed text.
#[verifier::external_body]
fn code_event<'a>(text: &'a str) -> Event<'a> {
    Event::Code(CowStr::Borrowed(text))
}

/// `pulldown_cmark::Event::HardBreak`.
#[verifier::external_body]
fn hard_break_event<'a>() -> Event<'a> {
    Event::HardBreak
}

/// `pulldown_cmark::Event::Rule`.
#[verifier::external_body]
fn rule_event<'a>() -> Event<'a> {
    Event::Rule
}

/// `pulldown_cmark::Tag::Paragraph`.
#[verifier::external_body]
fn paragraph_tag<'a>() -> Tag<'a> {
    Tag::Paragraph
}

/// `pulldown_cmark::Tag::Heading` of the level.
#[verifier::external_body]
fn heading_tag<'a>(level: u32) -> Tag<'a> {
    Tag::Heading(level)
}

/// `pulldown_cmark::Tag::BlockQuote`.
#[verifier::external_body]
fn block_quote_tag<'a>() -> Tag<'a> {
    Tag::BlockQuote
}

/// `pulldown_cmark::Tag::CodeBlock` of a fence with the borrowed info
/// string.
#[verifier::external_body]
fn code_block_tag<'a>(info: &'a str) -> Tag<'a> {
    Tag::CodeBlock(CodeBlockKind::Fenced(CowStr::Borrowed(info)))
}

/// `pulldown_cmark::Tag::List` with the number of the first item of an
/// ordered list.
#[verifier::external_body]
fn list_tag<'a>(order: Option<u64>) -> Tag<'a> {
    Tag::List(order)
}

/// `pulldown_cmark::Tag::Item`.
#[verifier::external_body]
fn item_tag<'a>() -> Tag<'a> {
    Tag::Item
}

/// `pulldown_cmark::Tag::Emphasis`.
#[verifier::external_body]
fn emphasis_tag<'a>() -> Tag<'a> {
    Tag::Emphasis
}

/// `pulldown_cmark::Tag::Strong`.
#[verifier::external_body]
fn strong_tag<'a>() -> Tag<'a> {
    Tag::Strong
}

/// `pulldown_cmark::Tag::Link` of an inline link with the borrowed
/// destination and title.
#[verifier::external_body]
fn link_tag<'a>(href: &'a str, title: &'a str) -> Tag<'a> {
    Tag::Link(LinkType::Inline, CowStr::Borrowed(href), CowStr::Borrowed(title))
}

/// `pulldown_cmark::Tag::Image` of an inline image with the borrowed source
/// and title.
#[verifier::external_body]
fn image_tag<'a>(src: &'a str, title: &'a str) -> Tag<'a> {
    Tag::Image(LinkType::Inline, CowStr::Borrowed(src), CowStr::Borrowed(title))
}

impl MdTagView {
    /// True for the tags that the bridge writes.
    pub open spec fn renderable(self) -> bool {
        match self {
            MdTagView::Paragraph | MdTagView::Heading(_) | MdTagView::BlockQuote | MdTagView::List(
                _,
            ) | MdTagView::Item | MdTagView::Emphasis | MdTagView::Strong | MdTagView::Link(_, _)
            | MdTagView::Image(_, _) => true,
            MdTagView::CodeBlock(info) => info is Some,
            _ => false,
        }
    }
}

impl MdEventView {
    /// True for the events that the bridge writes.
    pub open spec fn renderable(self) -> bool {
        match self {
            MdEventView::Start(t) | MdEventView::End(t) => t.renderable(),
            MdEventView::Text(_) | MdEventView::Code(_) | MdEventView::HardBreak
            | MdEventView::Rule => true,
            _ => false,
        }
    }
}

/// The tag of the writer for a tag of this library.
fn tag_for<'a>(tag: &'a MdTag) -> Tag<'a>
    requires
        tag@.renderable(),
{
    match tag {
        MdTag::Paragraph => paragraph_tag(),
        MdTag::Heading(l) => heading_tag(*l),
        MdTag::BlockQuote => block_quote_tag(),
        MdTag::CodeBlock(Some(info)) => code_block_tag(info.as_str()),
        MdTag::List(order) => list_tag(*order),
        MdTag::Item => item_tag(),
        MdTag::Emphasis => emphasis_tag(),
        MdTag::Strong => strong_tag(),
        MdTag::Link(href, title) => link_tag(href.as_str(), title.as_str()),
        MdTag::Image(src, title) => image_tag(src.as_str(), title.as_str()),
        _ => unreached(),
    }
}

/// The event of the writer for an event of this library.
fn event_for<'a>(event: &'a MdEvent) -> Event<'a>
    requires
        event@.renderable(),
{
    match event {
        MdEvent::Start(tag) => start_event(tag_for(tag)),
        MdEvent::End(tag) => end_event(tag_for(tag)),
        MdEvent::Text(text) => text_event(text.as_str()),
        MdEvent::Code(text) => code_event(text.as_str()),
        MdEvent::HardBreak => hard_break_event(),
        MdEvent::Rule => rule_event(),
        _ => unreached(),
    }
}

/// The event that the parts of an event of the parser stand for. An event
/// with a tag is the start or the end of the block that the tag was told to
/// be, else of the other kind of element that it was told to be; an event
/// without a tag is the leaf that it was told to be. What was told to be
/// none of these counts as an event that is not supported.
pub open spec fn event_told(
    tag: Option<(bool, Option<MdTag>, Option<MdTag>)>,
    leaf: Option<MdEvent>,
) -> MdEventView {
    match tag {
        Some((start, block, other)) => {
            let told = if block is Some {
                block
            } else {
                other
            };
            match told {
                Some(t) => if start {
                    MdEventView::Start(t@)
                } else {
                    MdEventView::End(t@)
                },
                None => MdEventView::Html,
            }
        },
        None => match leaf {
            Some(e) => e@,
            None => MdEventView::Html,
        },
    }
}

} // verus!
