use kyde::markdown::{Block, Span};
use kyde::mdview::{
    build, build_blocks, image_label, offset_for_position, runs_with_selection, spans_to_runs, Hit,
    ImageSource, LaidBlock, MarkdownView, MdColor, MdItem,
};

fn span(t: &str, code: bool) -> Span {
    Span {
        text: t.to_string(),
        bold: false,
        italic: false,
        code,
    }
}

#[test]
fn a_document_is_built_in_order() {
    let (blocks, doc, layout) = build("# Title\n\ntext `code`\n\n![a cat](cat.png)\n\nmore\n");
    let texts: Vec<&str> = blocks.iter().map(|b| b.text.as_str()).collect();
    assert_eq!(texts, vec!["Title", "text code", "more"]);
    assert_eq!(doc, "Title\ntext code\nmore\n");
    let starts: Vec<usize> = blocks.iter().map(|b| b.byte_start).collect();
    assert_eq!(starts, vec![0, 6, 16]);
    assert!(blocks[0].size > blocks[1].size, "a heading is larger");
    assert_eq!(layout.len(), 3);
    assert!(matches!(&layout[0], MdItem::Text(r) if *r == (0..2)));
    assert!(matches!(&layout[1], MdItem::Image { src, alt } if src == "cat.png" && alt == "a cat"));
    assert!(matches!(&layout[2], MdItem::Text(r) if *r == (2..3)));
    for b in &blocks {
        let covered: usize = b.runs.iter().map(|r| r.len).sum();
        assert_eq!(covered, b.text.len(), "the runs cover the text");
    }
}

#[test]
fn list_items_and_code_have_their_looks() {
    let (blocks, _, _) = build_blocks(&vec![
        Block::ListItem(2, vec![span("item", false)]),
        Block::Code("let x;".to_string()),
        Block::Quote(vec![span("said", false)]),
    ]);
    assert!(blocks[0].text.ends_with("item"));
    assert!(blocks[0].indent > 0);
    assert_eq!(blocks[0].runs[0].color, MdColor::Bullet);
    assert!(blocks[1].filled);
    assert!(blocks[1].runs[0].code);
    assert_eq!(blocks[1].runs[0].color, MdColor::Text);
    assert!(blocks[2].bordered);
    let (text, runs) = spans_to_runs(&vec![span("é", false), span("c", true)], MdColor::Text, true);
    assert_eq!(text, "éc");
    assert_eq!((runs[0].len, runs[0].bold, runs[0].code), (2, true, false));
    assert_eq!((runs[1].len, runs[1].code, runs[1].color), (1, true, MdColor::Code));
}

#[test]
fn a_selection_splits_runs() {
    let (_, runs) = spans_to_runs(&vec![span("hello", false)], MdColor::Text, false);
    let cut = runs_with_selection(&runs, 1, 3);
    let seen: Vec<(usize, bool)> = cut.iter().map(|r| (r.len, r.selected)).collect();
    assert_eq!(seen, vec![(1, false), (2, true), (2, false)]);
    assert_eq!(runs_with_selection(&runs, 2, 2).len(), 1);
}

#[test]
fn text_is_selected_and_copied() {
    let mut v = MarkdownView::new("one\n\ntwo\n", None);
    assert_eq!(v.copy(), None);
    v.on_mouse_down(2);
    assert!(v.on_mouse_move(5, true));
    assert_eq!(v.copy().unwrap(), "e\nt");
    assert!(!v.on_mouse_move(0, false));
    assert!(v.on_mouse_move(0, true));
    assert_eq!(v.sel, 0..2);
    v.on_mouse_up();
    assert!(!v.on_mouse_move(5, true));
    v.select_all();
    assert_eq!(v.copy().unwrap(), "one\ntwo\n");
    let runs = v.block_runs(1);
    assert!(runs.iter().all(|r| r.selected));
    assert!(!v.set_text("one\n\ntwo\n", None), "the same text");
    assert!(v.set_text("three\n", Some("/d".to_string())));
    assert_eq!(v.copy(), None);
    assert_eq!(v.doc, "three\n");
}

#[test]
fn positions_are_found_in_blocks() {
    let b = |byte_start, text_len, hit| LaidBlock {
        byte_start,
        text_len,
        hit,
    };
    assert_eq!(offset_for_position(&vec![]), 0);
    assert_eq!(
        offset_for_position(&vec![b(0, 3, Hit::Below), b(4, 5, Hit::Inside(2))]),
        6
    );
    assert_eq!(offset_for_position(&vec![b(4, 5, Hit::Inside(99))]), 9);
    assert_eq!(
        offset_for_position(&vec![b(0, 3, Hit::Below), b(4, 5, Hit::Above)]),
        4
    );
    assert_eq!(
        offset_for_position(&vec![b(0, 3, Hit::Below), b(4, 5, Hit::Below)]),
        9
    );
}

#[test]
fn images_come_from_somewhere() {
    let here = MarkdownView::new("x", Some("/docs".to_string()));
    let nowhere = MarkdownView::new("x", None);
    assert!(
        matches!(here.image_source("https://x/y.png", true), ImageSource::Remote(u) if u == "https://x/y.png")
    );
    assert!(matches!(
        here.image_source("http://x/y.png", false),
        ImageSource::Unavailable
    ));
    assert!(
        matches!(here.image_source("a/b.png", false), ImageSource::Local(p) if p == "/docs/a/b.png")
    );
    assert!(matches!(
        nowhere.image_source("a/b.png", true),
        ImageSource::Unavailable
    ));
    assert_eq!(image_label("a.png", ""), "🖼 a.png");
    assert_eq!(image_label("a.png", "cat"), "🖼 cat");
}
