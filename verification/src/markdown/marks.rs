//! The marks of the markdown schema.

use super::attrs::LinkAttrs;
use vstd::prelude::*;
use vstd::std_specs::cmp::PartialEqSpecImpl;

verus! {

/// The type of a markdown mark.
#[derive(Debug, Hash, Eq, Copy, Clone, PartialEq, PartialOrd, Ord, Structural)]
pub enum MarkdownMarkType {
    /// bold
    Strong,
    /// italics
    Em,
    /// monospace
    Code,
    /// hyper-linked
    Link,
}

impl MarkdownMarkType {
    /// The place of this mark type in the order in which a mark set keeps
    /// its marks.
    pub open spec fn rank(self) -> int {
        match self {
            MarkdownMarkType::Strong => 0,
            MarkdownMarkType::Em => 1,
            MarkdownMarkType::Code => 2,
            MarkdownMarkType::Link => 3,
        }
    }

    /// The place of this mark type in the order of mark types.
    pub fn order(self) -> (r: u8)
        ensures
            r == self.rank(),
    {
        match self {
            MarkdownMarkType::Strong => 0,
            MarkdownMarkType::Em => 1,
            MarkdownMarkType::Code => 2,
            MarkdownMarkType::Link => 3,
        }
    }
}

/// The marks that can be on some span
#[derive(Debug, Hash)]
pub enum MarkdownMark {
    /// bold
    Strong,
    /// italics
    Em,
    /// monospace
    Code,
    /// hyper-linked
    Link {
        /// The attributes
        attrs: LinkAttrs,
    },
}

/// What a mark holds, as plain values.
pub enum MarkView {
    /// bold
    Strong,
    /// italics
    Em,
    /// monospace
    Code,
    /// hyper-linked
    Link { href: Seq<char>, title: Seq<char> },
}

impl MarkView {
    /// The type of the mark.
    pub open spec fn mark_type(self) -> MarkdownMarkType {
        match self {
            MarkView::Strong => MarkdownMarkType::Strong,
            MarkView::Em => MarkdownMarkType::Em,
            MarkView::Code => MarkdownMarkType::Code,
            MarkView::Link { .. } => MarkdownMarkType::Link,
        }
    }

    /// The place of the mark's type in the order of mark types.
    pub open spec fn rank(self) -> int {
        self.mark_type().rank()
    }
}

impl View for MarkdownMark {
    type V = MarkView;

    open spec fn view(&self) -> MarkView {
        match self {
            MarkdownMark::Strong => MarkView::Strong,
            MarkdownMark::Em => MarkView::Em,
            MarkdownMark::Code => MarkView::Code,
            MarkdownMark::Link { attrs } => MarkView::Link {
                href: attrs.href@,
                title: attrs.title@,
            },
        }
    }
}

impl MarkdownMark {
    /// The type of this mark.
    pub fn mark_type(&self) -> (r: MarkdownMarkType)
        ensures
            r == self@.mark_type(),
    {
        match self {
            Self::Strong => MarkdownMarkType::Strong,
            Self::Em => MarkdownMarkType::Em,
            Self::Code => MarkdownMarkType::Code,
            Self::Link { .. } => MarkdownMarkType::Link,
        }
    }

    /// True when both marks are of one type and hold the same attributes.
    pub fn same(&self, other: &Self) -> (r: bool)
        ensures
            r == (self@ == other@),
    {
        match (self, other) {
            (Self::Strong, Self::Strong) => true,
            (Self::Em, Self::Em) => true,
            (Self::Code, Self::Code) => true,
            (Self::Link { attrs: a }, Self::Link { attrs: b }) => a.same(b),
            _ => false,
        }
    }
}

impl Clone for MarkdownMark {
    fn clone(&self) -> (r: Self)
        ensures
            r@ == self@,
    {
        match self {
            Self::Strong => Self::Strong,
            Self::Em => Self::Em,
            Self::Code => Self::Code,
            Self::Link { attrs } => Self::Link { attrs: attrs.clone() },
        }
    }
}

impl PartialEq for MarkdownMark {
    fn eq(&self, other: &Self) -> (r: bool) {
        self.same(other)
    }
}

impl PartialEqSpecImpl for MarkdownMark {
    open spec fn obeys_eq_spec() -> bool {
        true
    }

    open spec fn eq_spec(&self, other: &Self) -> bool {
        self@ == other@
    }
}

impl Eq for MarkdownMark {

}

} // verus!
