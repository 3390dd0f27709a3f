use prosemirror::markdown::helper::{blockquote, doc, em, node, p, strong};
use prosemirror::markdown::MarkdownMark;
use prosemirror::transform::{AddMarkStep, RemoveMarkStep, Span, Step};

#[test]
fn transform_test_apply() {
    let d1 = doc(p("Hello World!"));
    let step1 = AddMarkStep {
        span: Span { from: 1, to: 9 },
        mark: MarkdownMark::Strong,
    };
    let d2 = step1.apply(&d1).unwrap();
    assert_eq!(d2, doc(p(vec![strong("Hello Wo"), node("rld!")])));
}

#[test]
fn mod_test_apply() {
    let d1 = doc(p("Hello World!"));
    let step1 = Step::AddMark(AddMarkStep {
        span: Span { from: 1, to: 9 },
        mark: MarkdownMark::Strong,
    });
    let d2 = step1.apply(&d1).unwrap();
    assert_eq!(d2, doc(p(vec![strong("Hello Wo"), node("rld!")])));
}

#[test]
fn remove_mark_undoes_add_mark() {
    let d1 = doc(p("Hello World!"));
    let add = AddMarkStep {
        span: Span { from: 1, to: 9 },
        mark: MarkdownMark::Strong,
    };
    let remove = RemoveMarkStep {
        span: Span { from: 1, to: 9 },
        mark: MarkdownMark::Strong,
    };
    let d2 = add.apply(&d1).unwrap();
    let d3 = remove.apply(&d2).unwrap();
    assert_eq!(d3, d1);
}

#[test]
fn steps_compare_by_their_fields() {
    let add = Step::AddMark(AddMarkStep {
        span: Span { from: 61, to: 648 },
        mark: MarkdownMark::Em,
    });
    let same = Step::AddMark(AddMarkStep {
        span: Span { from: 61, to: 648 },
        mark: MarkdownMark::Em,
    });
    let other_span = Step::AddMark(AddMarkStep {
        span: Span { from: 61, to: 986 },
        mark: MarkdownMark::Em,
    });
    let remove = Step::RemoveMark(RemoveMarkStep {
        span: Span { from: 61, to: 648 },
        mark: MarkdownMark::Em,
    });
    assert_eq!(add, same);
    assert_ne!(add, other_span);
    assert_ne!(add, remove);
}

#[test]
fn marking_all_of_a_paragraph_and_back() {
    let d = doc(vec![p("one"), blockquote(p(vec![node("ab"), em("cd")]))]);
    let span = Span { from: 7, to: 11 };
    let add = AddMarkStep {
        span,
        mark: MarkdownMark::Strong,
    };
    let remove = RemoveMarkStep {
        span,
        mark: MarkdownMark::Strong,
    };
    let added = add.apply(&d).unwrap();
    let para = added.child(1).unwrap().child(0).unwrap();
    assert_eq!(para.child(0), Some(&strong("ab")));
    let both = para.child(1).unwrap().marks().unwrap();
    assert_eq!(both.len(), 2);
    assert!(both.contains(&MarkdownMark::Strong) && both.contains(&MarkdownMark::Em));
    assert_eq!(added.child(0), Some(&p("one")));
    assert_eq!(remove.apply(&added), Ok(d));
}
