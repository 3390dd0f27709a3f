use prosemirror::markdown::{LinkAttrs, MarkdownMark, MarkdownMarkType, MarkdownNodeType};
use prosemirror::model::{MarkSet, MarkSetError};
use std::borrow::Cow;
use std::convert::TryFrom;

fn link(href: &str) -> MarkdownMark {
    MarkdownMark::Link {
        attrs: LinkAttrs {
            href: href.to_string(),
            title: String::new(),
        },
    }
}

fn types(set: &MarkSet) -> Vec<MarkdownMarkType> {
    (0..set.len()).map(|i| set.get(i).mark_type()).collect()
}

#[test]
fn mark_set_keeps_type_order() {
    let mut set = MarkSet::default();
    set.add(&link("a"));
    set.add(&MarkdownMark::Code);
    set.add(&MarkdownMark::Strong);
    set.add(&MarkdownMark::Em);
    assert_eq!(
        types(&set),
        vec![
            MarkdownMarkType::Strong,
            MarkdownMarkType::Em,
            MarkdownMarkType::Code,
            MarkdownMarkType::Link
        ]
    );
}

#[test]
fn mark_set_replaces_a_mark_of_the_same_type() {
    let mut set = MarkSet::default();
    set.add(&link("a"));
    set.add(&link("b"));
    assert_eq!(set.len(), 1);
    assert!(set.contains(&link("b")));
    assert!(!set.contains(&link("a")));
}

#[test]
fn mark_set_remove_goes_by_type() {
    let mut set = MarkSet::default();
    set.add(&link("a"));
    set.add(&MarkdownMark::Em);
    set.remove(&link("other"));
    assert_eq!(types(&set), vec![MarkdownMarkType::Em]);
    set.remove(&MarkdownMark::Strong);
    assert_eq!(types(&set), vec![MarkdownMarkType::Em]);
}

#[test]
fn add_to_set_returns_the_set_when_unchanged() {
    let set = MarkdownMark::Em.into_set();
    let same = MarkdownMark::Em.add_to_set(Cow::Borrowed(&set));
    assert!(matches!(same, Cow::Borrowed(_)));
    let more = MarkdownMark::Strong.add_to_set(Cow::Borrowed(&set));
    assert!(matches!(more, Cow::Owned(_)));
    assert_eq!(
        types(&more),
        vec![MarkdownMarkType::Strong, MarkdownMarkType::Em]
    );
}

#[test]
fn remove_from_set_returns_the_set_when_unchanged() {
    let set = MarkdownMark::Em.into_set();
    let same = MarkdownMark::Strong.remove_from_set(Cow::Borrowed(&set));
    assert!(matches!(same, Cow::Borrowed(_)));
    let less = MarkdownMark::Em.remove_from_set(Cow::Borrowed(&set));
    assert!(less.is_empty());
}

#[test]
fn add_then_remove_restores_a_set_without_that_type() {
    let mut set = MarkSet::default();
    set.add(&MarkdownMark::Strong);
    set.add(&link("a"));
    let before = set.clone();
    set.add(&MarkdownMark::Em);
    set.remove(&MarkdownMark::Em);
    assert_eq!(set, before);
}

#[test]
fn mark_set_try_from_sorts_and_rejects_duplicates() {
    let set = MarkSet::try_from(vec![MarkdownMark::Code, MarkdownMark::Strong]).unwrap();
    assert_eq!(
        types(&set),
        vec![MarkdownMarkType::Strong, MarkdownMarkType::Code]
    );
    assert_eq!(
        MarkSet::try_from(vec![link("a"), MarkdownMark::Em, link("b")]),
        Err(MarkSetError::Duplicates)
    );
}

#[test]
fn node_types_allow_marks_in_text_blocks_and_inline() {
    assert!(MarkdownNodeType::Paragraph._allow_marks());
    assert!(MarkdownNodeType::Heading._allow_marks());
    assert!(MarkdownNodeType::Text._allow_marks());
    assert!(!MarkdownNodeType::CodeBlock._allow_marks());
    assert!(!MarkdownNodeType::Doc._allow_marks());
    assert!(MarkdownNodeType::Paragraph.allows_mark_type(MarkdownMarkType::Em));
    assert!(MarkdownNodeType::CodeBlock.allow_marks(&MarkSet::default()));
    assert!(!MarkdownNodeType::CodeBlock.allow_marks(&MarkdownMark::Em.into_set()));
}
