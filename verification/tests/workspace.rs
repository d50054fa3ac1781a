use kyde::workspace::{row_of, Follow, Mode, Workspace};

fn texts(items: &[&str]) -> Vec<String> {
    items.iter().map(|s| s.to_string()).collect()
}

#[test]
fn a_file_gets_one_tab() {
    let mut w = Workspace::new(Some("/p"));
    assert_eq!(w.open_file("a"), 0);
    assert_eq!(w.open_file("b"), 1);
    assert_eq!(w.open_file("a"), 0);
    assert_eq!(w.open_tabs, texts(&["a", "b"]));
    assert_eq!(w.open_path.as_deref(), Some("a"));
    assert_eq!(w.selected_path.as_deref(), Some("a"));
}

#[test]
fn closing_a_tab_opens_its_neighbour() {
    let mut w = Workspace::new(Some("/p"));
    for f in ["a", "b", "c"] {
        w.open_file(f);
    }
    assert!(matches!(w.close_tab(0), Follow::Nothing));
    assert!(matches!(w.close_tab(1), Follow::Open(p) if p == "b"));
    assert!(matches!(w.close_tab(7), Follow::Nothing));
    assert!(matches!(w.close_tab(0), Follow::Clear));
    assert!(w.open_path.is_none());
    for f in ["a", "b", "c"] {
        w.open_file(f);
    }
    assert!(matches!(w.close_tabs_right(0), Follow::Open(p) if p == "a"));
    assert_eq!(w.open_tabs, texts(&["a"]));
    w.open_file("d");
    assert!(matches!(w.close_other_tabs(0), Follow::Open(p) if p == "a"));
    assert_eq!(w.open_tabs, texts(&["a"]));
    w.clear_open();
    assert!(w.open_path.is_none());
}

#[test]
fn a_project_comes_back_as_it_was_left() {
    let mut w = Workspace::new(Some("/p"));
    w.open_file("a");
    w.mode = Mode::Commit;
    w.toggle_dir("src");
    assert!(matches!(w.open_project("/q"), Follow::Refresh));
    assert_eq!(w.mode, Mode::Browse);
    assert!(w.open_tabs.is_empty());
    assert_eq!(w.open_projects, texts(&["/p", "/q"]));
    assert!(matches!(w.open_project("/p"), Follow::RefreshAndOpen(p) if p == "a"));
    assert_eq!(w.mode, Mode::Commit);
    assert_eq!(w.open_tabs, texts(&["a"]));
    assert!(w.expanded.contains("src"));
    assert!(matches!(w.close_project("/p"), Follow::Refresh));
    assert_eq!(w.repo_root.as_deref(), Some("/q"));
    assert!(matches!(w.close_project("/x"), Follow::Nothing));
    assert!(matches!(w.close_project("/q"), Follow::Nothing));
    assert!(w.repo_root.is_none());
}

#[test]
fn renamed_and_deleted_files_leave_no_trace() {
    let mut w = Workspace::new(Some("/p"));
    w.open_file("a");
    w.open_file("b");
    assert!(w.renamed("b", "c"));
    assert_eq!(w.open_tabs, texts(&["a", "c"]));
    assert!(!w.renamed("a", "d"));
    w.open_file("c");
    w.deleted("c");
    assert_eq!(w.open_tabs, texts(&["d"]));
    assert_eq!(w.open_path.as_deref(), Some("d"));
}

#[test]
fn the_open_file_is_shown_in_the_tree() {
    let mut w = Workspace::new(Some("/p"));
    assert_eq!(w.reveal_in_tree(), None);
    w.open_file("src/a/b.rs");
    assert_eq!(w.target().as_deref(), Some("src/a/b.rs"));
    assert_eq!(w.reveal_in_tree().as_deref(), Some("src/a/b.rs"));
    assert!(w.expanded.contains("src") && w.expanded.contains("src/a"));
    let rows = texts(&["src", "src/a", "src/a/b.rs"]);
    assert!(row_of("src/a/b.rs", &rows, &Vec::new()).is_some());
    assert!(row_of("nowhere", &rows, &Vec::new()).is_none());
    w.toggle_dir("src");
    assert!(!w.expanded.contains("src"));
}
