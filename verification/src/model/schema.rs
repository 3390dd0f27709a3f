//! The shapes that the nodes of a schema are made of.

use super::fragment::Fragment;
use super::marks::MarkSet;
use super::text::Text;
use crate::markdown::MarkdownNode;
use vstd::prelude::*;

verus! {

/// A simple block node
#[derive(Debug)]
pub struct Block {
    /// The content.
    pub content: Fragment,
}

/// A node with attributes
#[derive(Debug)]
pub struct AttrNode<A> {
    /// Attributes
    pub attrs: A,
    /// The content.
    pub content: Fragment,
}

/// A text node
#[derive(Debug)]
pub struct TextNode {
    /// Marks on this node
    pub marks: MarkSet,
    /// The actual text
    pub text: Text,
}

/// A leaf node (just attributes)
#[derive(Debug)]
pub struct Leaf<A> {
    /// Attributes
    pub attrs: A,
}

impl Block {
    /// Copies this block, mapping the content
    pub fn copy<F: FnOnce(&Fragment) -> Fragment>(&self, map: F) -> (r: Self)
        requires
            call_requires(map, (&self.content,)),
        ensures
            call_ensures(map, (&self.content,), r.content),
    {
        Block { content: map(&self.content) }
    }
}

impl<A: Clone> AttrNode<A> {
    /// Copies this node, mapping the content
    pub fn copy<F: FnOnce(&Fragment) -> Fragment>(&self, map: F) -> (r: Self)
        requires
            call_requires(map, (&self.content,)),
        ensures
            call_ensures(map, (&self.content,), r.content),
            cloned(self.attrs, r.attrs),
    {
        AttrNode { content: map(&self.content), attrs: self.attrs.clone() }
    }
}

impl TextNode {
    /// The text node that `other` is, if it is a text node with the marks
    /// of this one.
    pub fn same_markup<'o>(&self, other: &'o MarkdownNode) -> (r: Option<&'o TextNode>)
        ensures
            r is Some == (other@.is_text() && other@.marks == self.marks@),
            r matches Some(t) ==> t.text@ == other@.text && t.marks@ == other@.marks,
    {
        match other.text_node() {
            Some(x) => if x.marks.same(&self.marks) {
                Some(x)
            } else {
                None
            },
            None => None,
        }
    }

    /// Create a new `TextNode` with the given text
    pub fn with_text(&self, text: Text) -> (r: Self)
        ensures
            r.marks@ == self.marks@,
            r.text@ == text@,
    {
        TextNode { marks: self.marks.clone(), text }
    }
}

impl Clone for TextNode {
    fn clone(&self) -> (r: Self)
        ensures
            r.marks@ == self.marks@,
            r.text@ == self.text@,
    {
        TextNode { marks: self.marks.clone(), text: self.text.clone() }
    }
}

impl<A: Clone> Clone for Leaf<A> {
    fn clone(&self) -> (r: Self)
        ensures
            cloned(self.attrs, r.attrs),
    {
        Leaf { attrs: self.attrs.clone() }
    }
}

} // verus!
