//! Writing a document as markdown text.

use super::attrs::AttrsView;
use super::cmark::{commonmark, render_events};
use super::events::{events_view, MdEvent, MdEventView, MdTag, MdTagView};
use super::marks::{MarkView, MarkdownMark};
use super::schema::MarkdownNodeType;
use super::MarkdownNode;
use crate::model::fragment::Fragment;
use crate::model::schema::TextNode;
use crate::model::view::{content_size, node_size, size_upto, NodeView};
use vstd::prelude::*;
use vstd::std_specs::convert::FromSpecImpl;

verus! {

/// Possible error when generating markdown
#[derive(Debug, PartialEq, Eq)]
pub struct ToMarkdownError {
    /// The inner error
    inner: std::fmt::Error,
}

impl FromSpecImpl<std::fmt::Error> for ToMarkdownError {
    open spec fn obeys_from_spec() -> bool {
        false
    }

    open spec fn from_spec(e: std::fmt::Error) -> Self {
        arbitrary()
    }
}

impl From<std::fmt::Error> for ToMarkdownError {
    fn from(e: std::fmt::Error) -> (r: ToMarkdownError) {
        Self { inner: e }
    }
}

/// The state of the writing of a document: the marks that are open, the
/// innermost last, and the events so far.
pub struct Writing {
    /// The open marks
    pub marks: Seq<MarkView>,
    /// The events so far
    pub out: Seq<MdEventView>,
}

/// The tag that a mark is written as. Code is no tag: it is written as a
/// code event.
pub open spec fn mark_tag_view(mark: MarkView) -> MdTagView {
    match mark {
        MarkView::Strong => MdTagView::Strong,
        MarkView::Em => MdTagView::Emphasis,
        MarkView::Code => MdTagView::Emphasis,
        MarkView::Link { href, title } => MdTagView::Link(href, title),
    }
}

/// The tag that a node is written as: of an image, its source stands for
/// its title too.
pub open spec fn node_tag(n: NodeView) -> MdTagView {
    match n.attrs {
        AttrsView::Heading { level } => MdTagView::Heading(level as u32),
        AttrsView::CodeBlock { params } => MdTagView::CodeBlock(Some(params)),
        AttrsView::OrderedList { order, tight } => MdTagView::List(Some(order as u64)),
        AttrsView::BulletList { tight } => MdTagView::List(None),
        AttrsView::Image { src, alt, title } => MdTagView::Image(src, src),
        AttrsView::Empty => if n.kind == MarkdownNodeType::Blockquote {
            MdTagView::BlockQuote
        } else if n.kind == MarkdownNodeType::ListItem {
            MdTagView::Item
        } else {
            MdTagView::Paragraph
        },
    }
}

/// The state after every open mark is closed, the innermost first.
pub open spec fn close_marks(w: Writing) -> Writing
    decreases w.marks.len(),
{
    if w.marks.len() == 0 {
        w
    } else {
        close_marks(
            Writing {
                marks: w.marks.drop_last(),
                out: w.out.push(MdEventView::End(mark_tag_view(w.marks.last()))),
            },
        )
    }
}

/// The state after the innermost open marks are closed that a text node
/// with the given marks does not carry.
pub open spec fn drop_marks(w: Writing, marks: Seq<MarkView>) -> Writing
    decreases w.marks.len(),
{
    if w.marks.len() == 0 || marks.contains(w.marks.last()) {
        w
    } else {
        drop_marks(
            Writing {
                marks: w.marks.drop_last(),
                out: w.out.push(MdEventView::End(mark_tag_view(w.marks.last()))),
            },
            marks,
        )
    }
}

/// The state after the marks of a text node from index `k` on are opened
/// that are not open yet; code is no mark to open.
pub open spec fn open_marks(w: Writing, marks: Seq<MarkView>, k: nat) -> Writing
    decreases marks.len() - k,
{
    if k >= marks.len() {
        w
    } else if marks[k as int] == MarkView::Code || w.marks.contains(marks[k as int]) {
        open_marks(w, marks, k + 1)
    } else {
        open_marks(
            Writing {
                marks: w.marks.push(marks[k as int]),
                out: w.out.push(MdEventView::Start(mark_tag_view(marks[k as int]))),
            },
            marks,
            k + 1,
        )
    }
}

/// The state after a text node: marks that the node does not carry are
/// closed, its marks are opened, and its text follows, as code if the node
/// carries the code mark.
pub open spec fn text_events(w: Writing, n: NodeView) -> Writing {
    let opened = open_marks(drop_marks(w, n.marks), n.marks, 0);
    Writing {
        out: opened.out.push(
            if n.marks.contains(MarkView::Code) {
                MdEventView::Code(n.text)
            } else {
                MdEventView::Text(n.text)
            },
        ),
        ..opened
    }
}

/// The state after a node: a document is written as its children; text as
/// its marks and its text; a rule and a break as their event; and another
/// node between the start and the end of its tag, with every open mark
/// closed before either, and a line feed before the end of a code block.
pub open spec fn node_events(w: Writing, n: NodeView) -> Writing
    decreases n, 0nat,
{
    if n.kind == MarkdownNodeType::Doc {
        content_events(w, n.content, n.content.len())
    } else if n.kind == MarkdownNodeType::Text {
        text_events(w, n)
    } else if n.kind == MarkdownNodeType::HorizontalRule {
        Writing { out: w.out.push(MdEventView::Rule), ..w }
    } else if n.kind == MarkdownNodeType::HardBreak {
        Writing { out: w.out.push(MdEventView::HardBreak), ..w }
    } else {
        let start = close_marks(w);
        let inside = content_events(
            Writing { out: start.out.push(MdEventView::Start(node_tag(n))), ..start },
            n.content,
            n.content.len(),
        );
        let end = close_marks(inside);
        Writing {
            out: if n.kind == MarkdownNodeType::CodeBlock {
                end.out.push(MdEventView::Text(seq!['\n'])).push(MdEventView::End(node_tag(n)))
            } else {
                end.out.push(MdEventView::End(node_tag(n)))
            },
            ..end
        }
    }
}

/// The state after the first `k` children of a node.
pub open spec fn content_events(w: Writing, c: Seq<NodeView>, k: nat) -> Writing
    decreases c, k,
{
    if k == 0 || k > c.len() {
        w
    } else {
        node_events(content_events(w, c, (k - 1) as nat), c[k - 1])
    }
}

/// The events that a document is written as.
pub open spec fn events_of(doc: NodeView) -> Seq<MdEventView> {
    node_events(Writing { marks: Seq::empty(), out: Seq::empty() }, doc).out
}

/// Turn a markdown document into a string: the text that the events of the
/// document are written as.
pub fn to_markdown(doc: &MarkdownNode) -> (r: Result<String, ToMarkdownError>)
    ensures
        match r {
            Ok(s) => commonmark(events_of(doc@)) == Some(s@),
            Err(_) => commonmark(events_of(doc@)) is None,
        },
{
    let events = MarkdownSerializer::events(doc);
    match render_events(&events) {
        Ok(buf) => Ok(buf),
        Err(e) => Err(ToMarkdownError::from(e)),
    }
}

/// Writes a document as markdown events.
pub struct MarkdownSerializer {
    marks: Vec<MarkdownMark>,
    out: Vec<MdEvent>,
}

impl View for MarkdownSerializer {
    type V = Writing;

    closed spec fn view(&self) -> Writing {
        Writing {
            marks: self.marks@.map_values(|m: MarkdownMark| m@),
            out: events_view(self.out@),
        }
    }
}

/// The tag that a mark is written as. Code is no tag.
pub fn mark_tag(mark: &MarkdownMark) -> (r: MdTag)
    requires
        mark@ != MarkView::Code,
    ensures
        r@ == mark_tag_view(mark@),
        r@.renderable(),
{
    match mark {
        MarkdownMark::Strong => MdTag::Strong,
        MarkdownMark::Em => MdTag::Emphasis,
        MarkdownMark::Code => MdTag::Emphasis,
        MarkdownMark::Link { attrs } => MdTag::Link(attrs.href.clone(), attrs.title.clone()),
    }
}

impl MarkdownSerializer {
    #[verifier::type_invariant]
    spec fn well_formed(self) -> bool {
        &&& forall|i: int| 0 <= i < self.marks@.len() ==> (#[trigger] self.marks@[i])@ != MarkView::Code
        &&& forall|i: int| 0 <= i < self.out@.len() ==> (#[trigger] self.out@[i])@.renderable()
    }

    /// A serializer without events and open marks.
    pub fn new() -> (r: Self)
        ensures
            r@ == (Writing { marks: Seq::empty(), out: Seq::empty() }),
    {
        let r = Self { marks: Vec::new(), out: Vec::new() };
        proof {
            assert(r@.marks =~= Seq::<MarkView>::empty());
            assert(r@.out =~= Seq::<MdEventView>::empty());
        }
        r
    }

    /// Adds an event.
    fn emit(&mut self, event: MdEvent)
        requires
            event@.renderable(),
        ensures
            final(self)@ == (Writing { out: old(self)@.out.push(event@), ..old(self)@ }),
    {
        proof {
            use_type_invariant(&*self);
        }
        let ghost before = self@;
        let mut out = Vec::new();
        std::mem::swap(&mut out, &mut self.out);
        out.push(event);
        proof {
            assert(events_view(out@) =~= before.out.push(event@));
        }
        self.out = out;
    }

    /// Closes the innermost open mark.
    fn pop_mark(&mut self)
        requires
            old(self)@.marks.len() > 0,
        ensures
            final(self)@ == (Writing {
                marks: old(self)@.marks.drop_last(),
                out: old(self)@.out.push(MdEventView::End(mark_tag_view(old(self)@.marks.last()))),
            }),
    {
        proof {
            use_type_invariant(&*self);
        }
        let ghost before = self@;
        let mut marks = Vec::new();
        std::mem::swap(&mut marks, &mut self.marks);
        let mark = marks.pop().unwrap();
        proof {
            assert(marks@.map_values(|m: MarkdownMark| m@) =~= before.marks.drop_last());
        }
        self.marks = marks;
        self.emit(MdEvent::End(mark_tag(&mark)));
    }

    /// Opens a mark.
    fn push_mark(&mut self, mark: MarkdownMark)
        requires
            mark@ != MarkView::Code,
        ensures
            final(self)@ == (Writing {
                marks: old(self)@.marks.push(mark@),
                out: old(self)@.out.push(MdEventView::Start(mark_tag_view(mark@))),
            }),
    {
        proof {
            use_type_invariant(&*self);
        }
        let ghost before = self@;
        let tag = mark_tag(&mark);
        let mut marks = Vec::new();
        std::mem::swap(&mut marks, &mut self.marks);
        marks.push(mark);
        proof {
            assert(marks@.map_values(|m: MarkdownMark| m@) =~= before.marks.push(mark@));
        }
        self.marks = marks;
        self.emit(MdEvent::Start(tag));
    }

    /// Closes every open mark, the innermost first.
    fn close_marks(&mut self)
        ensures
            final(self)@ == close_marks(old(self)@),
    {
        while self.marks.len() > 0
            invariant
                close_marks(old(self)@) == close_marks(self@),
                self.marks@.len() == self@.marks.len(),
            decreases self.marks@.len(),
        {
            self.pop_mark();
            assert(self.marks@.len() == self@.marks.len());
        }
    }

    /// True when the mark is open.
    fn is_open(&self, mark: &MarkdownMark) -> (r: bool)
        ensures
            r == self@.marks.contains(mark@),
    {
        let mut i: usize = 0;
        while i < self.marks.len()
            invariant
                0 <= i <= self.marks@.len(),
                self.marks@.len() == self@.marks.len(),
                forall|j: int| 0 <= j < i ==> self@.marks[j] != mark@,
            decreases self.marks@.len() - i,
        {
            if self.marks[i].same(mark) {
                assert(self@.marks[i as int] == mark@);
                return true;
            }
            i = i + 1;
        }
        false
    }

    /// Writes a text node.
    fn process_text(&mut self, text_node: &TextNode)
        ensures
            final(self)@ == text_events(
                old(self)@,
                NodeView::text_node(text_node.text@, text_node.marks@),
            ),
    {
        let ghost marks = text_node.marks@;
        loop
            invariant
                drop_marks(old(self)@, marks) == drop_marks(self@, marks),
                self.marks@.len() == self@.marks.len(),
                marks == text_node.marks@,
            ensures
                self@ == drop_marks(old(self)@, marks),
            decreases self.marks@.len(),
        {
            let count: usize = self.marks.len();
            if count == 0 {
                break ;
            }
            if text_node.marks.contains(&self.marks[count - 1]) {
                break ;
            }
            self.pop_mark();
            assert(self.marks@.len() == self@.marks.len());
        }
        let mut is_code = false;
        let count: usize = text_node.marks.len();
        let ghost dropped = self@;
        let mut k: usize = 0;
        while k < count
            invariant
                0 <= k <= count,
                count == marks.len(),
                marks == text_node.marks@,
                open_marks(dropped, marks, 0) == open_marks(self@, marks, k as nat),
                is_code == exists|j: int| 0 <= j < k && marks[j] == MarkView::Code,
            decreases count - k,
        {
            let mark = text_node.marks.get(k);
            if let MarkdownMark::Code = mark {
                is_code = true;
            } else if !self.is_open(mark) {
                self.push_mark(mark.clone());
            }
            k = k + 1;
        }
        assert(is_code == marks.contains(MarkView::Code));
        if is_code {
            self.emit(MdEvent::Code(text_node.text.as_str().to_owned()));
        } else {
            self.emit(MdEvent::Text(text_node.text.as_str().to_owned()));
        }
    }

    /// Writes the children of a node, one after the other.
    fn process_content(&mut self, content: &Fragment)
        ensures
            final(self)@ == content_events(old(self)@, content@, content@.len()),
        decreases content_size(content@), 2nat,
    {
        let total: usize = content.size();
        let count: usize = content.child_count();
        let mut i: usize = 0;
        while i < count
            invariant
                0 <= i <= count,
                count == content@.len(),
                self@ == content_events(old(self)@, content@, i as nat),
            decreases count - i,
        {
            let child = content.child(i);
            proof {
                let k = i as nat;
                assert(size_upto(content@, k + 1) == size_upto(content@, k) + node_size(child@));
                crate::model::view::lemma_size_upto_mono(content@, k + 1, content@.len());
            }
            self.process_node(child);
            i = i + 1;
        }
    }

    /// Writes a node between the start and the end of its tag.
    fn process_attr_node(&mut self, node: &MarkdownNode, tag: MdTag)
        requires
            tag@ == node_tag(node@),
            tag@.renderable(),
            node@.kind != MarkdownNodeType::Doc,
            node@.kind != MarkdownNodeType::Text,
            node@.kind != MarkdownNodeType::HorizontalRule,
            node@.kind != MarkdownNodeType::HardBreak,
        ensures
            final(self)@ == node_events(old(self)@, node@),
        decreases node_size(node@), 0nat,
    {
        self.close_marks();
        self.emit(MdEvent::Start(tag.clone()));
        if let Some(content) = node.content() {
            self.process_content(content);
        }
        self.close_marks();
        if let MdTag::CodeBlock(_) = &tag {
            let line = "\n".to_owned();
            proof {
                reveal_strlit("\n");
                assert(line@ =~= seq!['\n']);
            }
            self.emit(MdEvent::Text(line));
        }
        self.emit(MdEvent::End(tag));
    }

    /// Writes a node.
    fn process_node(&mut self, node: &MarkdownNode)
        ensures
            final(self)@ == node_events(old(self)@, node@),
        decreases node_size(node@), 1nat,
    {
        match node {
            MarkdownNode::Doc(block) => {
                self.process_content(&block.content);
            },
            MarkdownNode::Heading(n) => {
                self.process_attr_node(node, MdTag::Heading(u32::from(n.attrs.level)));
            },
            MarkdownNode::CodeBlock(n) => {
                self.process_attr_node(node, MdTag::CodeBlock(Some(n.attrs.params.clone())));
            },
            MarkdownNode::Text(text_node) => {
                proof {
                    assert(node@ == NodeView::text_node(text_node.text@, text_node.marks@));
                }
                self.process_text(text_node);
            },
            MarkdownNode::Blockquote(_) => {
                self.process_attr_node(node, MdTag::BlockQuote);
            },
            MarkdownNode::Paragraph(_) => {
                self.process_attr_node(node, MdTag::Paragraph);
            },
            MarkdownNode::BulletList(_) => {
                self.process_attr_node(node, MdTag::List(None));
            },
            MarkdownNode::OrderedList(n) => {
                self.process_attr_node(node, MdTag::List(Some(n.attrs.order as u64)));
            },
            MarkdownNode::ListItem(_) => {
                self.process_attr_node(node, MdTag::Item);
            },
            MarkdownNode::HorizontalRule => {
                self.emit(MdEvent::Rule);
            },
            MarkdownNode::HardBreak => {
                self.emit(MdEvent::HardBreak);
            },
            MarkdownNode::Image(leaf) => {
                self.process_attr_node(
                    node,
                    MdTag::Image(leaf.attrs.src.clone(), leaf.attrs.src.clone()),
                );
            },
        }
    }

    /// The events that a document is written as.
    pub fn events(doc: &MarkdownNode) -> (r: Vec<MdEvent>)
        ensures
            events_view(r@) == events_of(doc@),
            forall|i: int| 0 <= i < r@.len() ==> (#[trigger] r@[i])@.renderable(),
    {
        let mut s = MarkdownSerializer::new();
        s.process_node(doc);
        proof {
            use_type_invariant(&s);
        }
        s.out
    }
}

} // verus!
