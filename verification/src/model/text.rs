//! Strings that know their UTF-16 length.

use super::util::{count_utf16, lemma_utf16_len_add, utf16_len, utf16_len_fits};
use vstd::prelude::*;
use vstd::string::StrSliceExecFns;
use vstd::std_specs::cmp::PartialEqSpecImpl;
use vstd::std_specs::convert::FromSpecImpl;

verus! {

/// The characters without the line feed at their end, if there is one.
pub open spec fn without_last_newline(s: Seq<char>) -> Seq<char> {
    if s.len() > 0 && s.last() == '\n' {
        s.drop_last()
    } else {
        s
    }
}

/// A string that stores its length in UTF-16 code units.
#[derive(Debug)]
pub struct Text {
    len_utf16: usize,
    content: String,
}

impl View for Text {
    type V = Seq<char>;

    closed spec fn view(&self) -> Seq<char> {
        self.content@
    }
}

impl Text {
    #[verifier::type_invariant]
    spec fn well_formed(self) -> bool {
        self.len_utf16 == utf16_len(self.content@)
    }

    /// The contained string.
    pub fn as_str(&self) -> (r: &str)
        ensures
            r@ == self@,
    {
        self.content.as_str()
    }

    /// The length of this string in UTF-16 code units.
    pub fn len_utf16(&self) -> (r: usize)
        ensures
            r == utf16_len(self@),
    {
        proof {
            use_type_invariant(self);
        }
        self.len_utf16
    }

    /// The two texts one after the other.
    pub fn join(&self, other: &Self) -> (r: Self)
        ensures
            r@ == self@ + other@,
    {
        proof {
            use_type_invariant(self);
            use_type_invariant(other);
            lemma_utf16_len_add(self.content@, other.content@);
        }
        let mut content = self.content.clone();
        content.append(other.content.as_str());
        utf16_len_fits(content.as_str());
        let len_utf16: usize = self.len_utf16 + other.len_utf16;
        Text { content, len_utf16 }
    }

    /// The text that holds `content`.
    pub fn new(content: String) -> (r: Self)
        ensures
            r@ == content@,
    {
        let len_utf16: usize = count_utf16(content.as_str());
        Text { len_utf16, content }
    }

    /// Removes the line feed at the end of the text, if there is one.
    pub fn remove_last_newline(&mut self)
        ensures
            final(self)@ == without_last_newline(old(self)@),
    {
        proof {
            use_type_invariant(&*self);
        }
        let count: usize = self.content.as_str().unicode_len();
        if count > 0 {
            let last: char = self.content.as_str().get_char(count - 1);
            if last == '\n' {
                let shorter = self.content.as_str().substring_char(0, count - 1).to_owned();
                proof {
                    assert(self.content@.subrange(0, count - 1) =~= self.content@.drop_last());
                }
                let len_utf16: usize = self.len_utf16 - 1;
                *self = Text { len_utf16, content: shorter };
            }
        }
    }

    /// True when both texts hold the same characters.
    pub fn same(&self, other: &Self) -> (r: bool)
        ensures
            r == (self@ == other@),
    {
        self.content == other.content
    }
}

impl Clone for Text {
    fn clone(&self) -> (r: Self)
        ensures
            r@ == self@,
    {
        proof {
            use_type_invariant(self);
        }
        Text { len_utf16: self.len_utf16, content: self.content.clone() }
    }
}

impl Default for Text {
    fn default() -> (r: Self)
        ensures
            r@ == Seq::<char>::empty(),
    {
        Text::new(String::new())
    }
}

impl PartialEq for Text {
    fn eq(&self, other: &Self) -> (r: bool) {
        self.same(other)
    }
}

impl PartialEqSpecImpl for Text {
    open spec fn obeys_eq_spec() -> bool {
        true
    }

    open spec fn eq_spec(&self, other: &Self) -> bool {
        self@ == other@
    }
}

impl Eq for Text {

}

impl FromSpecImpl<String> for Text {
    open spec fn obeys_from_spec() -> bool {
        true
    }

    closed spec fn from_spec(v: String) -> Self {
        Text { len_utf16: utf16_len(v@) as usize, content: v }
    }
}

impl From<String> for Text {
    fn from(src: String) -> (r: Text)
        ensures
            r@ == src@,
    {
        let len_utf16: usize = count_utf16(src.as_str());
        Text { len_utf16, content: src }
    }
}

} // verus!
