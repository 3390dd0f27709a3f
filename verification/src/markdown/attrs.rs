//! Attributes of the markdown nodes and marks.

use vstd::prelude::*;

verus! {

/// Attributes for a heading (i.e. `<h1>`, `<h2>`, ...)
#[derive(Debug, PartialEq, Eq)]
pub struct HeadingAttrs {
    /// The level of the heading (i.e. `1` for `<h1>`)
    pub level: u8,
}

/// Attributes for a code block
#[derive(Debug, PartialEq, Eq)]
pub struct CodeBlockAttrs {
    /// The info string of the fence
    pub params: String,
}

/// Attributes for a bullet list
#[derive(Debug, PartialEq, Eq)]
pub struct BulletListAttrs {
    /// Whether the list is rendered tightly
    pub tight: bool,
}

/// Attributes for an ordered list
#[derive(Debug, PartialEq, Eq)]
pub struct OrderedListAttrs {
    /// Initial value
    pub order: usize,
    /// Whether the list is rendered tightly
    pub tight: bool,
}

/// Attributes for an image
#[derive(Debug, PartialEq, Eq)]
pub struct ImageAttrs {
    /// Source URL
    pub src: String,
    /// Alternative Text (Accessibility)
    pub alt: String,
    /// Title (Tooltip)
    pub title: String,
}

/// The attributes for a hyperlink
#[derive(Debug, Hash, PartialEq, Eq)]
pub struct LinkAttrs {
    /// The URL the link points to
    pub href: String,
    /// The title of the link
    pub title: String,
}

/// What a node's attributes hold, as plain values.
pub enum AttrsView {
    /// No attributes
    Empty,
    /// Attributes of a heading
    Heading { level: u8 },
    /// Attributes of a code block
    CodeBlock { params: Seq<char> },
    /// Attributes of a bullet list
    BulletList { tight: bool },
    /// Attributes of an ordered list
    OrderedList { order: usize, tight: bool },
    /// Attributes of an image
    Image { src: Seq<char>, alt: Seq<char>, title: Seq<char> },
}

impl View for HeadingAttrs {
    type V = AttrsView;

    open spec fn view(&self) -> AttrsView {
        AttrsView::Heading { level: self.level }
    }
}

impl View for CodeBlockAttrs {
    type V = AttrsView;

    open spec fn view(&self) -> AttrsView {
        AttrsView::CodeBlock { params: self.params@ }
    }
}

impl View for BulletListAttrs {
    type V = AttrsView;

    open spec fn view(&self) -> AttrsView {
        AttrsView::BulletList { tight: self.tight }
    }
}

impl View for OrderedListAttrs {
    type V = AttrsView;

    open spec fn view(&self) -> AttrsView {
        AttrsView::OrderedList { order: self.order, tight: self.tight }
    }
}

impl View for ImageAttrs {
    type V = AttrsView;

    open spec fn view(&self) -> AttrsView {
        AttrsView::Image { src: self.src@, alt: self.alt@, title: self.title@ }
    }
}

impl Clone for HeadingAttrs {
    fn clone(&self) -> (r: Self)
        ensures
            r@ == self@,
    {
        HeadingAttrs { level: self.level }
    }
}

impl Clone for CodeBlockAttrs {
    fn clone(&self) -> (r: Self)
        ensures
            r@ == self@,
    {
        CodeBlockAttrs { params: self.params.clone() }
    }
}

impl Clone for BulletListAttrs {
    fn clone(&self) -> (r: Self)
        ensures
            r@ == self@,
    {
        BulletListAttrs { tight: self.tight }
    }
}

impl Clone for OrderedListAttrs {
    fn clone(&self) -> (r: Self)
        ensures
            r@ == self@,
    {
        OrderedListAttrs { order: self.order, tight: self.tight }
    }
}

impl Clone for ImageAttrs {
    fn clone(&self) -> (r: Self)
        ensures
            r@ == self@,
    {
        ImageAttrs { src: self.src.clone(), alt: self.alt.clone(), title: self.title.clone() }
    }
}

impl Clone for LinkAttrs {
    fn clone(&self) -> (r: Self)
        ensures
            r.href@ == self.href@,
            r.title@ == self.title@,
    {
        LinkAttrs { href: self.href.clone(), title: self.title.clone() }
    }
}

impl HeadingAttrs {
    /// True when both hold the same level.
    pub fn same(&self, other: &Self) -> (r: bool)
        ensures
            r == (self@ == other@),
    {
        self.level == other.level
    }
}

impl CodeBlockAttrs {
    /// True when both hold the same info string.
    pub fn same(&self, other: &Self) -> (r: bool)
        ensures
            r == (self@ == other@),
    {
        self.params == other.params
    }
}

impl BulletListAttrs {
    /// True when both hold the same values.
    pub fn same(&self, other: &Self) -> (r: bool)
        ensures
            r == (self@ == other@),
    {
        self.tight == other.tight
    }
}

impl OrderedListAttrs {
    /// True when both hold the same values.
    pub fn same(&self, other: &Self) -> (r: bool)
        ensures
            r == (self@ == other@),
    {
        self.order == other.order && self.tight == other.tight
    }
}

impl ImageAttrs {
    /// True when both hold the same values.
    pub fn same(&self, other: &Self) -> (r: bool)
        ensures
            r == (self@ == other@),
    {
        self.src == other.src && self.alt == other.alt && self.title == other.title
    }
}

impl LinkAttrs {
    /// True when both hold the same values.
    pub fn same(&self, other: &Self) -> (r: bool)
        ensures
            r == (self.href@ == other.href@ && self.title@ == other.title@),
    {
        self.href == other.href && self.title == other.title
    }
}

} // verus!
