use prosemirror::markdown::helper::{blockquote, doc, em, li, node, p, strong, ul};
use prosemirror::markdown::{MarkdownMark, MarkdownNodeType};
use prosemirror::model::{
    Fragment, IndexError, InsertError, ReplaceError, ResolveErr, ResolvedPos, Slice, SliceError,
};
use prosemirror::transform::replace_step::content_between;
use prosemirror::transform::{
    AddMarkStep, RemoveMarkStep, ReplaceAroundStep, ReplaceStep, Span, Step, StepError,
};

#[test]
fn resolve_reports_positions_past_the_end() {
    let d = doc(vec![p("ab")]);
    assert_eq!(
        ResolvedPos::resolve(&d, 5).err(),
        Some(ResolveErr::RangeError { pos: 5 })
    );
    assert_eq!(d.resolve(4).map(|rp| rp.depth()), Ok(0));
}

#[test]
fn resolved_pos_queries() {
    let d = doc(vec![p("ab"), blockquote(p((em("cd"), "ef")))]);
    let rp = d.resolve(8).unwrap();
    assert_eq!(rp.pos(), 8);
    assert_eq!(rp.depth(), 2);
    assert_eq!(rp.parent(), &p((em("cd"), "ef")));
    assert_eq!(rp.doc(), &d);
    assert_eq!(rp.index(0), 1);
    assert_eq!(rp.index(2), 1);
    assert_eq!(rp.text_offset(), 0);
    assert_eq!(rp.index_after(2), 1);
    assert_eq!(rp.index_after(0), 2);
    assert_eq!(rp.before(3), Some(8));
    assert_eq!(rp.after(3), Some(8));
    assert_eq!(rp.before(0), None);
    assert_eq!(rp.after(0), None);
    assert_eq!(rp.shared_depth(9), 2);
    assert_eq!(rp.shared_depth(11), 1);
    assert_eq!(rp.shared_depth(2), 0);
    let inside = d.resolve(7).unwrap();
    assert_eq!(inside.text_offset(), 1);
    assert_eq!(inside.index_after(2), 1);
    assert_eq!(d.resolve(6).unwrap().index_after(2), 0);
    assert_eq!(rp.clone(), rp);
}

#[test]
fn replace_reports_positions_past_the_end() {
    let d = doc(vec![p("ab")]);
    assert_eq!(
        d.replace(2..9, &Slice::default()),
        Err(ReplaceError::Resolve(ResolveErr::RangeError { pos: 9 }))
    );
}

#[test]
fn replace_closes_every_rebuilt_node_around_valid_content() {
    let d = doc(vec![blockquote(vec![p("one"), p("two")])]);
    let r = d.replace(4..8, &Slice::default()).unwrap();
    assert_eq!(r, doc(vec![blockquote(vec![p("onwo")])]));
    let quote = r.child(0).unwrap();
    assert!(r.node_type().valid_content(r.content().unwrap()));
    assert!(quote.node_type().valid_content(quote.content().unwrap()));
    let para = quote.child(0).unwrap();
    assert!(para.node_type().valid_content(para.content().unwrap()));
}

#[test]
fn replace_with_the_own_slice_gives_the_document() {
    let d = doc(vec![p("one"), blockquote(vec![p("two"), p("three")])]);
    for from in 0..=d.content_size() {
        for to in from..=d.content_size() {
            let s = d.slice(from..to, false).unwrap();
            assert_eq!(d.replace(from..to, &s), Ok(d.clone()), "{}..{}", from, to);
        }
    }
}

#[test]
fn replace_merges_adjacent_text_of_equal_marks() {
    let d = doc(vec![p(vec![node("ab"), em("cd"), node("ef")])]);
    let r = d.replace(3..5, &Slice::default()).unwrap();
    assert_eq!(r, doc(vec![p("abef")]));
}

#[test]
fn content_between_sees_leaves_and_skips_tokens() {
    let d = doc(vec![p("ab"), p("cd")]);
    assert_eq!(content_between(&d, 3, 5), Ok(false));
    assert_eq!(content_between(&d, 2, 5), Ok(true));
    assert_eq!(content_between(&d, 3, 6), Ok(true));
    assert_eq!(content_between(&d, 3, 3), Ok(false));
    assert_eq!(
        content_between(&d, 9, 9),
        Err(ResolveErr::RangeError { pos: 9 })
    );
}

#[test]
fn structural_replace_must_not_overwrite_content() {
    let d = doc(vec![p("ab"), p("cd")]);
    let join = ReplaceStep {
        span: Span { from: 3, to: 5 },
        slice: Slice::default(),
        structure: true,
    };
    assert_eq!(join.apply(&d), Ok(doc(vec![p("abcd")])));
    let cut = ReplaceStep {
        span: Span { from: 2, to: 5 },
        slice: Slice::default(),
        structure: true,
    };
    assert_eq!(cut.apply(&d), Err(StepError::WouldOverwrite));
    let plain = ReplaceStep {
        span: Span { from: 2, to: 5 },
        slice: Slice::default(),
        structure: false,
    };
    assert_eq!(plain.apply(&d), Ok(doc(vec![p("acd")])));
    let far = ReplaceStep {
        span: Span { from: 2, to: 50 },
        slice: Slice::default(),
        structure: false,
    };
    assert_eq!(
        far.apply(&d),
        Err(StepError::Replace(ReplaceError::Resolve(
            ResolveErr::RangeError { pos: 50 }
        )))
    );
    let far_structure = ReplaceStep {
        span: Span { from: 20, to: 50 },
        slice: Slice::default(),
        structure: true,
    };
    assert_eq!(
        far_structure.apply(&d),
        Err(StepError::Resolve(ResolveErr::RangeError { pos: 20 }))
    );
}

#[test]
fn replace_around_wraps_the_gap() {
    let d = doc(vec![p("ab")]);
    let wrap = ReplaceAroundStep {
        span: Span { from: 0, to: 4 },
        gap_from: 0,
        gap_to: 4,
        slice: Slice::new(Fragment::from(vec![blockquote(Vec::new())]), 0, 0),
        insert: 1,
        structure: true,
    };
    assert_eq!(wrap.apply(&d), Ok(doc(vec![blockquote(p("ab"))])));
    assert_eq!(
        Step::ReplaceAround(wrap).apply(&d),
        Ok(doc(vec![blockquote(p("ab"))]))
    );
}

#[test]
fn replace_around_rejects_bad_gaps() {
    let d = doc(vec![p("ab"), p("cd")]);
    let open_gap = ReplaceAroundStep {
        span: Span { from: 0, to: 8 },
        gap_from: 2,
        gap_to: 6,
        slice: Slice::new(Fragment::from(vec![blockquote(Vec::new())]), 0, 0),
        insert: 1,
        structure: false,
    };
    assert_eq!(open_gap.apply(&d), Err(StepError::GapNotFlat));
    let overwriting = ReplaceAroundStep {
        span: Span { from: 0, to: 8 },
        gap_from: 4,
        gap_to: 8,
        slice: Slice::new(Fragment::from(vec![blockquote(Vec::new())]), 0, 0),
        insert: 1,
        structure: true,
    };
    assert_eq!(overwriting.apply(&d), Err(StepError::GapWouldOverwrite));
    let past = ReplaceAroundStep {
        span: Span { from: 0, to: 80 },
        gap_from: 4,
        gap_to: 80,
        slice: Slice::new(Fragment::from(vec![blockquote(Vec::new())]), 0, 0),
        insert: 1,
        structure: false,
    };
    assert_eq!(
        past.apply(&d),
        Err(StepError::Slice(SliceError::Resolve(
            ResolveErr::RangeError { pos: 80 }
        )))
    );
    let misfit = ReplaceAroundStep {
        span: Span { from: 0, to: 4 },
        gap_from: 0,
        gap_to: 4,
        slice: Slice::new(Fragment::from(vec![ul(li(p("x")))]), 0, 0),
        insert: 1,
        structure: false,
    };
    assert_eq!(misfit.apply(&d), Err(StepError::GapNotFit));
    let outside = ReplaceAroundStep {
        span: Span { from: 0, to: 4 },
        gap_from: 0,
        gap_to: 4,
        slice: Slice::new(Fragment::from(vec![blockquote(Vec::new())]), 0, 0),
        insert: 7,
        structure: false,
    };
    assert_eq!(
        outside.apply(&d),
        Err(StepError::Insert(InsertError::Index(IndexError)))
    );
}

#[test]
fn insert_at_splices_at_the_offset() {
    let slice = Slice::new(Fragment::from(vec![p("ab"), p("cd")]), 0, 0);
    let between = slice.insert_at(4, Fragment::from(vec![p("x")])).unwrap().unwrap();
    assert_eq!(
        between.content,
        Fragment::from(vec![p("ab"), p("x"), p("cd")])
    );
    let inside = slice.insert_at(2, Fragment::from(vec![node("x")])).unwrap().unwrap();
    assert_eq!(inside.content, Fragment::from(vec![p("axb"), p("cd")]));
    assert_eq!(slice.insert_at(2, Fragment::from(vec![p("x")])), Ok(None));
    assert_eq!(
        slice.insert_at(9, Fragment::new()),
        Err(InsertError::Index(IndexError))
    );
}

#[test]
fn add_mark_skips_parents_that_allow_no_marks() {
    let d = doc(vec![prosemirror::markdown::helper::code_block("", "ab"), p("cd")]);
    let step = AddMarkStep {
        span: Span { from: 0, to: 8 },
        mark: MarkdownMark::Em,
    };
    assert_eq!(
        step.apply(&d),
        Ok(doc(vec![
            prosemirror::markdown::helper::code_block("", "ab"),
            p(em("cd"))
        ]))
    );
}

#[test]
fn remove_mark_takes_the_mark_from_the_span() {
    let d = doc(vec![p(vec![strong("Hello Wo"), node("rld!")])]);
    let step = RemoveMarkStep {
        span: Span { from: 4, to: 9 },
        mark: MarkdownMark::Strong,
    };
    assert_eq!(
        step.apply(&d),
        Ok(doc(vec![p(vec![strong("Hel"), node("lo World!")])]))
    );
    assert_eq!(
        Step::RemoveMark(step).apply(&d),
        Ok(doc(vec![p(vec![strong("Hel"), node("lo World!")])]))
    );
}

#[test]
fn add_then_remove_leaves_no_mark_of_that_type() {
    let d = doc(vec![p(vec![node("ab"), strong("cd"), node("ef")])]);
    let add = AddMarkStep {
        span: Span { from: 1, to: 7 },
        mark: MarkdownMark::Strong,
    };
    let remove = RemoveMarkStep {
        span: Span { from: 1, to: 7 },
        mark: MarkdownMark::Strong,
    };
    let added = add.apply(&d).unwrap();
    assert_eq!(
        added,
        doc(vec![p(vec![strong("ab"), strong("cd"), strong("ef")])])
    );
    assert_eq!(
        remove.apply(&added),
        Ok(doc(vec![p(vec![node("ab"), node("cd"), node("ef")])]))
    );
}

#[test]
fn mark_steps_report_bad_spans() {
    let d = doc(vec![p("ab")]);
    let add = AddMarkStep {
        span: Span { from: 2, to: 9 },
        mark: MarkdownMark::Em,
    };
    assert_eq!(
        add.apply(&d),
        Err(StepError::Slice(SliceError::Resolve(
            ResolveErr::RangeError { pos: 9 }
        )))
    );
    let empty_add = AddMarkStep {
        span: Span { from: 9, to: 9 },
        mark: MarkdownMark::Em,
    };
    assert_eq!(
        empty_add.apply(&d),
        Err(StepError::Resolve(ResolveErr::RangeError { pos: 9 }))
    );
    let empty_remove = RemoveMarkStep {
        span: Span { from: 9, to: 9 },
        mark: MarkdownMark::Em,
    };
    assert_eq!(
        empty_remove.apply(&d),
        Err(StepError::Replace(ReplaceError::Resolve(
            ResolveErr::RangeError { pos: 9 }
        )))
    );
}

#[test]
fn replace_step_through_the_step_enum() {
    let d = doc(vec![p("ab")]);
    let s = Step::Replace(ReplaceStep {
        span: Span { from: 2, to: 2 },
        slice: Slice::new(Fragment::from(vec![node("!")]), 0, 0),
        structure: false,
    });
    assert_eq!(s.apply(&d), Ok(doc(vec![p("a!b")])));
    let list = doc(vec![ul(li(p("a")))]);
    let bad = Step::Replace(ReplaceStep {
        span: Span { from: 1, to: 1 },
        slice: Slice::new(Fragment::from(vec![p("x")]), 0, 0),
        structure: false,
    });
    assert_eq!(
        bad.apply(&list),
        Err(StepError::Replace(ReplaceError::InvalidContent(
            MarkdownNodeType::BulletList
        )))
    );
}

#[test]
fn replace_around_reports_an_insert_past_the_slice() {
    let d = doc(vec![p("ab"), p("cd")]);
    let step = ReplaceAroundStep {
        span: Span { from: 0, to: 4 },
        gap_from: 0,
        gap_to: 4,
        slice: Slice::new(Fragment::from(vec![blockquote(Vec::new())]), 0, 0),
        insert: 3,
        structure: false,
    };
    assert_eq!(
        step.apply(&d),
        Err(StepError::Insert(InsertError::Index(IndexError)))
    );
    assert_eq!(
        Step::ReplaceAround(step).try_apply(&d),
        Some(Err(StepError::Insert(InsertError::Index(IndexError))))
    );
}

#[test]
fn slice_knows_whether_its_open_sides_are_there() {
    let content = || Fragment::from(vec![blockquote(vec![p("ab")]), p("cd")]);
    assert!(Slice::default().is_well_formed());
    assert!(Slice::new(content(), 0, 0).is_well_formed());
    assert!(Slice::new(content(), 2, 1).is_well_formed());
    assert!(!Slice::new(content(), 3, 0).is_well_formed());
    assert!(!Slice::new(content(), 0, 2).is_well_formed());
    assert!(!Slice::new(Fragment::new(), 1, 0).is_well_formed());
    assert!(!Slice::new(Fragment::new(), 0, 1).is_well_formed());
}

#[test]
fn try_apply_applies_where_the_step_applies() {
    let d = doc(vec![p("one"), p("two")]);
    let delete = Step::Replace(ReplaceStep {
        span: Span { from: 3, to: 7 },
        slice: Slice::default(),
        structure: false,
    });
    assert!(delete.applies(&d));
    assert_eq!(delete.try_apply(&d), Some(Ok(doc(vec![p("onwo")]))));
    let too_open = Step::Replace(ReplaceStep {
        span: Span { from: 3, to: 7 },
        slice: Slice::new(Fragment::from(vec![node("x")]), 1, 0),
        structure: false,
    });
    assert!(!too_open.applies(&d));
    assert_eq!(too_open.try_apply(&d), None);
    let backwards = Step::AddMark(AddMarkStep {
        span: Span { from: 7, to: 3 },
        mark: MarkdownMark::Em,
    });
    assert_eq!(backwards.try_apply(&d), None);
    let on_text = Step::RemoveMark(RemoveMarkStep {
        span: Span { from: 0, to: 1 },
        mark: MarkdownMark::Em,
    });
    assert_eq!(on_text.try_apply(&node("ab")), None);
    let into_open_end = Step::ReplaceAround(ReplaceAroundStep {
        span: Span { from: 0, to: 5 },
        gap_from: 0,
        gap_to: 5,
        slice: Slice::new(Fragment::from(vec![blockquote(vec![p("x")])]), 0, 2),
        insert: 4,
        structure: false,
    });
    assert_eq!(into_open_end.try_apply(&d), None);
}

#[test]
fn try_replace_tests_what_replace_asks() {
    let d = doc(vec![p("one"), p("two")]);
    assert_eq!(
        d.try_replace(3..7, &Slice::default()),
        Some(Ok(doc(vec![p("onwo")])))
    );
    assert_eq!(
        d.try_replace(3..70, &Slice::default()),
        Some(Err(ReplaceError::Resolve(ResolveErr::RangeError { pos: 70 })))
    );
    assert_eq!(d.try_replace(7..3, &Slice::default()), None);
    assert_eq!(node("ab").try_replace(0..1, &Slice::default()), None);
    let too_open = Slice::new(Fragment::from(vec![node("x")]), 0, 1);
    assert_eq!(d.try_replace(3..7, &too_open), None);
}
