use kyde::markdown::{attr, blocks_of, extract_imgs, parse, Block, MdEvent, MdTag, MdTagEnd, Span};

fn span(t: &str, b: bool, i: bool, c: bool) -> Span {
    Span {
        text: t.to_string(),
        bold: b,
        italic: i,
        code: c,
    }
}

#[test]
fn parses_headings_emphasis_and_code() {
    let blocks = parse("# Title\n\nHello **bold** and `code`.\n\n```\nfn x() {}\n```\n");
    assert_eq!(
        blocks[0],
        Block::Heading(1, vec![span("Title", false, false, false)])
    );
    // Paragraph with a bold run and an inline-code run.
    let Block::Paragraph(spans) = &blocks[1] else {
        panic!("expected paragraph, got {:?}", blocks[1]);
    };
    assert!(spans.iter().any(|s| s.text == "bold" && s.bold));
    assert!(spans.iter().any(|s| s.text == "code" && s.code));
    assert_eq!(blocks[2], Block::Code("fn x() {}".to_string()));
}

#[test]
fn parses_list_items() {
    let blocks = parse("- one\n- two\n");
    let items: Vec<_> = blocks
        .iter()
        .filter(|b| matches!(b, Block::ListItem(..)))
        .collect();
    assert_eq!(items.len(), 2);
}

#[test]
fn parses_markdown_image() {
    let blocks = parse("![a cat](cat.png)\n");
    assert!(blocks
        .iter()
        .any(|b| matches!(b, Block::Image { src, alt } if src == "cat.png" && alt == "a cat")));
}

#[test]
fn extracts_html_img_from_centered_paragraph() {
    let blocks = parse(
        "<p align=\"center\">\n  <img src=\"assets/x.png\" alt=\"X\" width=\"900\">\n</p>\n",
    );
    let imgs: Vec<_> = blocks
        .iter()
        .filter_map(|b| match b {
            Block::Image { src, alt } => Some((src.as_str(), alt.as_str())),
            _ => None,
        })
        .collect();
    assert_eq!(imgs, vec![("assets/x.png", "X")]);
}

#[test]
fn img_extractor_handles_quotes_case_and_data_src() {
    assert_eq!(
        extract_imgs("<img src='a.png'>"),
        vec![("a.png".to_string(), String::new())]
    );
    assert_eq!(
        extract_imgs("<IMG SRC=\"b.png\" ALT=\"hi\">"),
        vec![("b.png".to_string(), "hi".to_string())]
    );
    // `data-src` must not be mistaken for `src`.
    assert_eq!(
        extract_imgs("<img data-src=\"x\" src=\"real.png\">"),
        vec![("real.png".to_string(), String::new())]
    );
    // Two images in one HTML chunk.
    assert_eq!(
        extract_imgs("<img src=\"1.png\"><img src=\"2.png\">").len(),
        2
    );
}

#[test]
fn parses_rules_quotes_and_lists() {
    let blocks = parse("> quoted\n\n---\n\n- a\n- b\n");
    assert_eq!(
        blocks,
        vec![
            Block::Quote(vec![span("quoted", false, false, false)]),
            Block::Rule,
            Block::ListItem(1, vec![span("a", false, false, false)]),
            Block::ListItem(1, vec![span("b", false, false, false)]),
        ]
    );
    assert!(parse("").is_empty());
}

#[test]
fn attributes_are_found_by_whole_name() {
    assert_eq!(attr("img alt=\"A b\" src='c'", "alt").unwrap(), "A b");
    assert_eq!(attr("img alt=\"A b\" src='c'", "src").unwrap(), "c");
    assert!(attr("img data-src=\"x\"", "src").is_none());
    assert!(attr("img", "src").is_none());
}

#[test]
fn events_become_blocks() {
    let events = vec![
        MdEvent::Start(MdTag::Strong),
        MdEvent::Text("b".to_string()),
        MdEvent::Start(MdTag::Emphasis),
        MdEvent::Text("i".to_string()),
        MdEvent::End(MdTagEnd::Emphasis),
        MdEvent::End(MdTagEnd::Strong),
        MdEvent::Code("c".to_string()),
        MdEvent::End(MdTagEnd::Paragraph),
        MdEvent::Rule,
    ];
    assert_eq!(
        blocks_of(&events),
        vec![
            Block::Paragraph(vec![
                span("b", true, false, false),
                span("i", true, true, false),
                span("c", false, false, true),
            ]),
            Block::Rule,
        ]
    );
}

#[test]
fn nested_list_items_keep_their_own_text_and_depth() {
    let item = |depth: usize, text: &str| Block::ListItem(depth, vec![span(text, false, false, false)]);
    assert_eq!(parse("- a\n  - b\n"), vec![item(1, "a"), item(2, "b")]);
    assert_eq!(
        parse("- a\n  - b\n    - c\n  - d\n- e\n"),
        vec![item(1, "a"), item(2, "b"), item(3, "c"), item(2, "d"), item(1, "e")]
    );
    // An item that holds nothing but a list is still there.
    assert_eq!(parse("-\n  - b\n"), vec![Block::ListItem(1, vec![]), item(2, "b")]);
    // What follows a nested list belongs to the outer item.
    assert_eq!(
        parse("- a\n\n  - b\n\n  c\n"),
        vec![item(1, "a"), item(2, "b"), item(1, "c")]
    );
    // Behind the list, paragraphs are paragraphs again.
    assert_eq!(
        parse("- a\n  - b\n\nend\n").last(),
        Some(&Block::Paragraph(vec![span("end", false, false, false)]))
    );
}
