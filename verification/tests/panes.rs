use kyde::diff::FileDiff;
use kyde::diffpane::{content_of, revert_hunk, Content, DiffPanes};
use kyde::git::FileStatus;
use kyde::highlight::Lang;

#[test]
fn a_deleted_file_has_nothing_after() {
    match content_of(FileStatus::Deleted, None, "a".to_string()) {
        Content::Text { before, after } => assert_eq!((before.as_str(), after.as_str()), ("a", "")),
        _ => panic!(),
    }
    assert!(matches!(
        content_of(FileStatus::Modified, None, "a".to_string()),
        Content::Unreadable
    ));
    match content_of(FileStatus::Added, Some("b".to_string()), String::new()) {
        Content::Text { before, after } => assert_eq!((before.as_str(), after.as_str()), ("", "b")),
        _ => panic!(),
    }
}

#[test]
fn a_hunk_is_put_back() {
    let before = "a\nb\nc\n";
    for after in ["a\nB\nc\n", "a\nb\nx\nc\n", "a\nc\n"] {
        let d = FileDiff::compute(before, after);
        assert_eq!(d.hunks.len(), 1);
        assert_eq!(revert_hunk(&d, 0).unwrap(), before);
        assert!(revert_hunk(&d, 1).is_none());
    }
    let two = FileDiff::compute("1\n2\n3\n4\n5", "one\n2\n3\n4\nfive");
    assert_eq!(revert_hunk(&two, 1).unwrap(), "one\n2\n3\n4\n5");
}

#[test]
fn every_hunk_is_put_back_from_the_last_on() {
    let before = "1\n2\n3\n4\n5\n6";
    let mut d = FileDiff::compute(before, "0\n1\n2\n4\nfive\n6\n7");
    while !d.hunks.is_empty() {
        let hi = d.hunks.len() - 1;
        let text = revert_hunk(&d, hi).unwrap();
        d = FileDiff::compute(before, &text);
        assert_eq!(d.hunks.len(), hi);
    }
    assert_eq!(d.new.join("\n"), before);
}

#[test]
fn panes_show_both_sides() {
    let mut p = DiffPanes::new();
    assert!(p.left.read_only && !p.right.read_only);
    let row = p.load_diff_panes(
        "a.rs",
        "1\n2\n3\n4\n5\n".to_string(),
        "1\n2\n3\n4\nfive\n".to_string(),
        Lang::Rust,
        false,
    );
    assert_eq!(row, Some(1));
    assert_eq!(p.left.text(), "1\n2\n3\n4\n5\n");
    assert_eq!(p.path.as_deref(), Some("a.rs"));
    assert_eq!(p.diff.as_ref().unwrap().hunks.len(), 1);
    assert_eq!(p.diff_autosave().unwrap().0, "a.rs");
    let text = p.diff_revert_hunk(0, Lang::Rust).unwrap();
    assert_eq!(text, "1\n2\n3\n4\n5\n");
    assert_eq!(p.right.text(), text);
    assert!(p.diff_revert_hunk(9, Lang::Rust).is_none());
    p.recompute_diff("1\n", Lang::Rust);
    assert!(!p.diff.as_ref().unwrap().hunks.is_empty());

    let same = p.load_diff_panes("b", "x".to_string(), "x".to_string(), Lang::PlainText, true);
    assert_eq!(same, None);
    assert!(p.right.read_only && p.readonly);
    p.clear_diff_panes();
    assert!(p.diff_autosave().is_none());
    assert!(p.path.is_none());
    assert!(p.diff.is_none());
}

#[test]
fn images_and_binaries_have_no_diff() {
    let mut p = DiffPanes::new();
    let text = Content::Text {
        before: "a\n".to_string(),
        after: "b\n".to_string(),
    };
    p.select_with("a", text, Lang::PlainText, true);
    assert!(p.diff.is_some());
    p.select_with("b.png", Content::Image, Lang::PlainText, true);
    assert_eq!(p.image.as_deref(), Some("b.png"));
    assert!(p.diff.is_none() && p.path.is_none());
    p.select_with("c", Content::Unreadable, Lang::PlainText, true);
    assert!(p.image.is_none() && p.diff.is_none());
}
