use prosemirror::markdown::helper::{blockquote, code_block, doc, em, h1, li, node, p, strong, ul};
use prosemirror::markdown::{MarkdownContentMatch, MarkdownNode, MarkdownNodeType};
use prosemirror::model::{Fragment, Index, IndexError, ResolveErr, SliceError};

fn sizes(f: &Fragment) -> Vec<usize> {
    f.children().iter().map(|n| n.node_size()).collect()
}

#[test]
fn find_index_rounds_up_inside_a_child() {
    let para = p(("Hallo", "Foo"));
    let content = para.content().unwrap();
    assert_eq!(content.find_index(3, true), Ok(Index::new(1, 5)));
    assert_eq!(content.find_index(3, false), Ok(Index::new(0, 0)));
    assert_eq!(content.find_index(5, true), Ok(Index::new(1, 5)));
    assert_eq!(content.find_index(9, true), Err(IndexError));
}

#[test]
fn find_index_offset_is_the_size_before_the_child() {
    let d = doc(vec![p("ab"), p("cde"), p("f")]);
    let content = d.content().unwrap();
    for pos in 0..=content.size() {
        let found = content.find_index(pos, false).unwrap();
        let before: usize = sizes(content)[..found.index].iter().sum();
        assert_eq!(found.offset, before);
        assert!(found.offset <= pos);
        if found.offset < pos {
            assert!(pos < found.offset + content.child(found.index).node_size());
        }
    }
}

#[test]
fn fragment_cut_keeps_open_nodes() {
    let d = doc(vec![p("ab"), p("cd")]);
    let content = d.content().unwrap();
    assert_eq!(content.cut(0..8), *content);
    assert_eq!(content.cut(4..8), Fragment::from(vec![p("cd")]));
    assert_eq!(content.cut(1..3), Fragment::from(vec![p("ab")]));
    assert_eq!(content.cut(2..6), Fragment::from(vec![p("b"), p("c")]));
    assert_eq!(content.cut(5..5), Fragment::new());
    assert_eq!(content.cut(6..2), Fragment::new());
}

#[test]
fn text_cut_has_the_size_of_the_range() {
    let n = node("a\u{1F60A}bcd");
    assert_eq!(n.node_size(), 6);
    assert_eq!(n.cut(1..5).node_size(), 4);
    assert_eq!(n.cut(1..5).into_owned(), node("\u{1F60A}bc"));
    assert_eq!(n.cut(0..6).into_owned(), n);
    assert_eq!(n.cut(3..3).node_size(), 0);
}

#[test]
fn append_merges_text_with_equal_marks() {
    let a = Fragment::from(vec![node("ab"), em("cd")]);
    let b = Fragment::from(vec![em("ef"), node("gh")]);
    let joined = a.append(b);
    assert_eq!(
        joined,
        Fragment::from(vec![node("ab"), em("cdef"), node("gh")])
    );
    assert_eq!(joined.size(), 8);
}

#[test]
fn append_keeps_text_with_other_marks_apart() {
    let a = Fragment::from(vec![strong("ab")]);
    let b = Fragment::from(vec![em("cd")]);
    assert_eq!(
        a.append(b),
        Fragment::from(vec![strong("ab"), em("cd")])
    );
    let empty = Fragment::new();
    assert_eq!(
        empty.append(Fragment::from(vec![node("x")])),
        Fragment::from(vec![node("x")])
    );
}

#[test]
fn replace_child_changes_one_child_and_the_size() {
    let d = doc(vec![p("ab"), p("cd")]);
    let content = d.content().unwrap();
    let same = content.replace_child(1, p("cd"));
    assert!(matches!(same, std::borrow::Cow::Borrowed(_)));
    let other = content.replace_child(1, p("longer"));
    assert_eq!(*other, Fragment::from(vec![p("ab"), p("longer")]));
    assert_eq!(other.size(), 12);
}

#[test]
fn fragment_children_accessors() {
    let f = Fragment::from(vec![p("a"), p("b")]);
    assert_eq!(f.child_count(), 2);
    assert_eq!(f.first_child(), Some(&p("a")));
    assert_eq!(f.last_child(), Some(&p("b")));
    assert_eq!(f.child(1), &p("b"));
    assert_eq!(f.maybe_child(2), None);
    assert_eq!(Fragment::new().first_child(), None);
    assert_eq!(Fragment::try_from_nodes(vec![p("a")]), Some(Fragment::from(vec![p("a")])));
}

#[test]
fn nodes_between_walks_depth_first() {
    let d = doc(vec![p("ab"), blockquote(p("cd"))]);
    let content = d.content().unwrap();
    let walk = content.nodes_between(0, content.size(), 0);
    let positions: Vec<usize> = walk.iter().map(|v| v.1).collect();
    assert_eq!(positions, vec![0, 1, 4, 5, 6]);
    let inner = content.nodes_between(6, 8, 0);
    let kinds: Vec<MarkdownNodeType> = inner.iter().map(|v| v.0.node_type()).collect();
    assert_eq!(
        kinds,
        vec![
            MarkdownNodeType::Blockquote,
            MarkdownNodeType::Paragraph,
            MarkdownNodeType::Text
        ]
    );
}

#[test]
fn text_between_puts_separators_between_blocks() {
    let d = doc(vec![p("ab"), blockquote(p("cd"))]);
    let content = d.content().unwrap();
    let mut buf = String::new();
    content.text_between(&mut buf, true, 0, content.size(), Some("\n"), None);
    assert_eq!(buf, "ab\ncd");
    let mut part = String::new();
    content.text_between(&mut part, true, 2, 7, None, None);
    assert_eq!(part, "bc");
    assert_eq!(d.text_content(), "abcd");
}

#[test]
fn node_accessors() {
    let para = p((em("cd"), "ef"));
    assert_eq!(para.node_type(), MarkdownNodeType::Paragraph);
    assert!(para.is_block());
    assert!(!para.is_inline());
    assert!(!para.is_leaf());
    assert!(!para.is_text());
    assert_eq!(para.child_count(), 2);
    assert_eq!(para.content_size(), 4);
    assert_eq!(para.first_child(), Some(&em("cd")));
    assert_eq!(para.maybe_child(1), Some(&node("ef")));
    assert_eq!(para.maybe_child(2), None);
    let text = em("cd");
    assert!(text.is_text() && text.is_leaf() && text.is_inline());
    assert_eq!(text.marks().map(|m| m.len()), Some(1));
    assert_eq!(para.marks().map(|m| m.len()), None);
    assert_eq!(MarkdownNode::HardBreak.node_size(), 1);
    assert_eq!(doc(vec![p("ab")]).node_size(), 6);
}

#[test]
fn node_copy_and_mark() {
    let para = p("ab");
    let copied = para.copy(|_| Fragment::from(vec![node("xyz")]));
    assert_eq!(copied, p("xyz"));
    let marked = node("ab").mark(prosemirror::markdown::MarkdownMark::Em.into_set());
    assert_eq!(marked, em("ab"));
    assert_eq!(para.mark(prosemirror::markdown::MarkdownMark::Em.into_set()), para);
}

#[test]
fn content_match_follows_the_table() {
    assert!(MarkdownContentMatch::InlineStar.match_type(MarkdownNodeType::Image) == Some(MarkdownContentMatch::InlineStar));
    assert!(MarkdownContentMatch::InlineStar.match_type(MarkdownNodeType::Paragraph).is_none());
    assert!(MarkdownContentMatch::BlockPlus.match_type(MarkdownNodeType::Heading) == Some(MarkdownContentMatch::BlockStar));
    assert!(MarkdownContentMatch::BlockStar.match_type(MarkdownNodeType::ListItem).is_none());
    assert!(MarkdownContentMatch::OrTextImageStar.match_type(MarkdownNodeType::HardBreak).is_none());
    assert!(MarkdownContentMatch::TextStar.match_type(MarkdownNodeType::Text) == Some(MarkdownContentMatch::TextStar));
    assert!(MarkdownContentMatch::ListItemPlus.match_type(MarkdownNodeType::ListItem) == Some(MarkdownContentMatch::ListItemStar));
    assert!(MarkdownContentMatch::ParagraphBlockStar.match_type(MarkdownNodeType::Paragraph) == Some(MarkdownContentMatch::BlockStar));
    assert!(MarkdownContentMatch::ParagraphBlockStar.match_type(MarkdownNodeType::Blockquote).is_none());
    assert!(MarkdownContentMatch::Empty.match_type(MarkdownNodeType::Text).is_none());
    assert!(!MarkdownContentMatch::BlockPlus.valid_end() && !MarkdownContentMatch::ListItemPlus.valid_end() && !MarkdownContentMatch::ParagraphBlockStar.valid_end());
    assert!(MarkdownContentMatch::BlockStar.valid_end() && MarkdownContentMatch::Empty.valid_end() && MarkdownContentMatch::InlineStar.valid_end());
    assert!(MarkdownContentMatch::InlineStar.compatible(MarkdownContentMatch::TextStar) && MarkdownContentMatch::BlockStar.compatible(MarkdownContentMatch::ParagraphBlockStar));
    assert!(MarkdownContentMatch::ParagraphBlockStar.compatible(MarkdownContentMatch::BlockStar) && !MarkdownContentMatch::Empty.compatible(MarkdownContentMatch::Empty));
    assert!(!MarkdownContentMatch::ListItemStar.compatible(MarkdownContentMatch::BlockStar));
}

#[test]
fn valid_content_checks_the_expression_and_the_end() {
    let good = doc(vec![p("a")]);
    assert!(MarkdownNodeType::Doc.valid_content(good.content().unwrap()));
    assert!(!MarkdownNodeType::Doc.valid_content(&Fragment::new()));
    assert!(!MarkdownNodeType::Doc.valid_content(&Fragment::from(vec![node("a")])));
    assert!(MarkdownNodeType::Paragraph.valid_content(&Fragment::new()));
    assert!(MarkdownNodeType::ListItem.valid_content(&Fragment::from(vec![p("a"), h1("b")])));
    assert!(!MarkdownNodeType::ListItem.valid_content(&Fragment::from(vec![h1("b")])));
    assert!(MarkdownNodeType::CodeBlock.valid_content(&Fragment::from(vec![node("x")])));
    assert!(!MarkdownNodeType::CodeBlock.valid_content(&Fragment::from(vec![em("x")])));
    assert!(MarkdownNodeType::Paragraph.compatible_content(MarkdownNodeType::Heading));
    assert!(!MarkdownNodeType::Paragraph.compatible_content(MarkdownNodeType::BulletList));
    let list = ul(li(p("a")));
    let frag = list.content().unwrap();
    assert_eq!(
        MarkdownContentMatch::ListItemPlus.match_fragment(frag).map(|m| m.valid_end()),
        Some(true)
    );
    assert!(MarkdownContentMatch::BlockPlus.match_fragment_range(frag, 0..0).is_some());
    assert!(MarkdownContentMatch::BlockPlus.match_fragment_range(frag, 0..1).is_none());
}

#[test]
fn can_replace_checks_the_surrounding_content() {
    let list = ul(vec![li(p("a")), li(p("b"))]);
    assert_eq!(
        list.can_replace(1, 1, &Fragment::from(vec![li(p("c"))])),
        Ok(true)
    );
    assert_eq!(list.can_replace(1, 1, &Fragment::from(vec![p("c")])), Ok(false));
    assert_eq!(list.can_replace(0, 2, &Fragment::new()), Ok(false));
    let code = code_block("", "x");
    assert_eq!(code.can_replace(1, 1, &Fragment::from(vec![em("y")])), Ok(false));
    let bad = doc(vec![node("loose")]);
    assert!(bad.can_replace(1, 1, &Fragment::new()).is_err());
}

#[test]
fn slice_reports_the_first_position_out_of_range() {
    let d = doc(vec![p("ab")]);
    assert_eq!(
        d.slice(9..12, false),
        Err(SliceError::Resolve(ResolveErr::RangeError { pos: 9 }))
    );
    assert_eq!(
        d.slice(1..12, false),
        Err(SliceError::Resolve(ResolveErr::RangeError { pos: 12 }))
    );
    assert_eq!(d.slice(9..9, false).map(|s| s.content.size()), Ok(0));
}

#[test]
fn slice_size_counts_the_open_tokens() {
    let d = doc(vec![p("xxxx"), blockquote(p("yyyy"))]);
    for from in 0..d.content_size() {
        for to in (from + 1)..=d.content_size() {
            let s = d.slice(from..to, false).unwrap();
            assert_eq!(s.content.size(), to - from + s.open_start + s.open_end);
            let whole = d.slice(from..to, true).unwrap();
            assert_eq!(
                whole.content.size(),
                to - from + whole.open_start + whole.open_end
            );
        }
    }
}

#[test]
fn compatible_goes_by_family_in_either_order() {
    let inline = [
        MarkdownContentMatch::InlineStar,
        MarkdownContentMatch::OrTextImageStar,
        MarkdownContentMatch::TextStar,
    ];
    let block = [
        MarkdownContentMatch::BlockPlus,
        MarkdownContentMatch::BlockStar,
        MarkdownContentMatch::ParagraphBlockStar,
    ];
    let items = [
        MarkdownContentMatch::ListItemPlus,
        MarkdownContentMatch::ListItemStar,
    ];
    let families: [&[MarkdownContentMatch]; 4] =
        [&inline, &block, &items, &[MarkdownContentMatch::Empty]];
    for (i, one) in families.iter().enumerate() {
        for (j, other) in families.iter().enumerate() {
            for a in one.iter() {
                for b in other.iter() {
                    assert_eq!(a.compatible(*b), i == j && i < 3, "{:?} {:?}", a, b);
                    assert_eq!(a.compatible(*b), b.compatible(*a));
                }
            }
        }
    }
    assert!(MarkdownNodeType::ListItem.compatible_content(MarkdownNodeType::Blockquote));
    assert!(MarkdownNodeType::Blockquote.compatible_content(MarkdownNodeType::ListItem));
}

#[test]
fn child_of_a_leaf_is_nothing() {
    assert_eq!(node("ab").child(0), None);
    assert_eq!(MarkdownNode::HardBreak.child(3), None);
    assert_eq!(p("ab").child(0), Some(&node("ab")));
}

#[test]
fn nodes_between_by_skips_what_the_visitor_refuses() {
    let d = doc(vec![p("ab"), blockquote(p("cd"))]);
    let content = d.content().unwrap();
    let all = content.nodes_between_by(0, content.size(), 0, &|_, _| true);
    assert_eq!(all, content.nodes_between(0, content.size(), 0));
    let no_quote = |n: &MarkdownNode, _: usize| n.node_type() != MarkdownNodeType::Blockquote;
    let walk = content.nodes_between_by(0, content.size(), 0, &no_quote);
    let positions: Vec<usize> = walk.iter().map(|v| v.1).collect();
    assert_eq!(positions, vec![0, 1, 4]);
    let kinds: Vec<MarkdownNodeType> = walk.iter().map(|v| v.0.node_type()).collect();
    assert_eq!(
        kinds,
        vec![
            MarkdownNodeType::Paragraph,
            MarkdownNodeType::Text,
            MarkdownNodeType::Blockquote
        ]
    );
    let by_position = |_: &MarkdownNode, pos: usize| pos != 0;
    let late = content.nodes_between_by(0, content.size(), 0, &by_position);
    let late_positions: Vec<usize> = late.iter().map(|v| v.1).collect();
    assert_eq!(late_positions, vec![0, 4, 5, 6]);
    let none = content.nodes_between_by(0, content.size(), 0, &|_, _| false);
    assert_eq!(none.len(), 2);
}
