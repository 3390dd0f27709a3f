use prosemirror::markdown::helper::{blockquote, code_block, doc, h1, h2, node, p, strong};
use prosemirror::markdown::{from_markdown, to_markdown, FromMarkdownError, MarkdownNode};
use pulldown_cmark::{CowStr, Event, Parser, Tag};

fn initial_doc() -> MarkdownNode {
    doc(vec![
        h1((
            "Padington",
        )),
        code_block("", (
            "fn foo(a: u32) -> u32 {\n  2 * a\n}",
        )),
        h2((
            "Lorem Ipsum",
        )),
        blockquote((
            p(vec![
                node("Lorem ipsum dolor sit amet, consetetur sadipscing elitr, sed diam nonumy eirmod tempor invidunt ut labore et dolore magna aliquyam erat, sed diam voluptua. "),
                strong("At vero eos et accusam et justo duo dolores et ea rebum. Stet clita kasd gubergren, no sea takimata sanctus est Lorem ipsum dolor sit amet."),
                node(" Lorem ipsum dolor sit amet, consetetur sadipscing elitr, sed diam nonumy eirmod tempor invidunt ut labore et dolore magna aliquyam erat, sed diam voluptua. At vero eos et accusam et justo duo dolores et ea rebum. Stet clita kasd gubergren, no sea takimata sanctus est Lorem ipsum dolor sit amet. Lorem ipsum dolor sit amet, consetetur sadipscing elitr, sed diam nonumy eirmod tempor invidunt ut labore et dolore magna aliquyam erat, sed diam voluptua. At vero eos et accusam et justo duo dolores et ea rebum. Stet clita kasd gubergren, no sea takimata sanctus est Lorem ipsum dolor sit amet."),
            ]),
        ))
    ])
}

#[test]
fn test() {
    let node = initial_doc();
    let res = "\
    # Padington\n\
    \n\
    ````\n\
    fn foo(a: u32) -> u32 {\n  2 * a\n}\n\
    ````\n\
    \n\
    ## Lorem Ipsum\n\
    \n > \n > Lorem ipsum dolor sit amet, consetetur sadipscing elitr, sed diam nonumy eirmod tempor invidunt ut labore et dolore magna aliquyam erat, sed diam voluptua. **At vero eos et accusam et justo duo dolores et ea rebum. Stet clita kasd gubergren, no sea takimata sanctus est Lorem ipsum dolor sit amet.** Lorem ipsum dolor sit amet, consetetur sadipscing elitr, sed diam nonumy eirmod tempor invidunt ut labore et dolore magna aliquyam erat, sed diam voluptua. At vero eos et accusam et justo duo dolores et ea rebum. Stet clita kasd gubergren, no sea takimata sanctus est Lorem ipsum dolor sit amet. Lorem ipsum dolor sit amet, consetetur sadipscing elitr, sed diam nonumy eirmod tempor invidunt ut labore et dolore magna aliquyam erat, sed diam voluptua. At vero eos et accusam et justo duo dolores et ea rebum. Stet clita kasd gubergren, no sea takimata sanctus est Lorem ipsum dolor sit amet.\
    ".to_string();

    let save = to_markdown(&node);
    let line = "\n---------------------------------------\n";
    assert_eq!(
        save.as_ref(),
        Ok(&res),
        "\ngenerated:{}{}{}\n\nexpected:{}{}{}\n",
        line,
        save.as_ref().unwrap(),
        line,
        line,
        &res,
        line,
    );
}

#[test]
fn from_markdown_reads_heading_and_paragraph() {
    let parsed = from_markdown("# Hi\n\nfoo");
    assert_eq!(parsed, Ok(doc(vec![h1("Hi"), p("foo")])));
}

#[test]
fn markdown_round_trip() {
    let tree = doc(vec![h1("Hi"), p("foo")]);
    let text = to_markdown(&tree).unwrap();
    assert_eq!(from_markdown(&text), Ok(tree));
}

#[test]
fn from_markdown_rejects_soft_breaks() {
    let parsed = from_markdown("### Alert Area\n\n:::success\nYes :tada:\n:::\n");
    assert_eq!(parsed, Err(FromMarkdownError::NotSupported("SoftBreak")));
}

#[test]
fn test_alerts() {
    let test_string = "\
    ### Alert Area\n\
    \n\
    :::success\n\
    Yes :tada:\n\
    :::\n\
    ";

    let p = Parser::new(test_string);
    let v: Vec<Event> = p.collect();
    assert_eq!(
        v,
        vec![
            Event::Start(Tag::Heading(3)),
            Event::Text(CowStr::Borrowed("Alert Area")),
            Event::End(Tag::Heading(3)),
            Event::Start(Tag::Paragraph),
            Event::Text(CowStr::Borrowed(":::success")),
            Event::SoftBreak,
            Event::Text(CowStr::Borrowed("Yes :tada:")),
            Event::SoftBreak,
            Event::Text(CowStr::Borrowed(":::")),
            Event::End(Tag::Paragraph),
        ]
    );
}
