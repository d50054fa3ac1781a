use kyde::collections::{TextMap, TextSet};
use kyde::dirlist::{skip_dirs, EntryKind, Walk};
use kyde::git::{ChangedFile, Commit, FileStatus};
use kyde::history::{CompareMode, History};
use kyde::keymap::Preset;
use kyde::overlays::{
    path_on_disk, Escape, ModalFocus, ModalKind, Modals, Named, Overlays,
};
use kyde::path::{
    components_of, extension_of, file_name_of, join_paths, order_of, parent_of, same_path,
    starts_with,
};
use kyde::pathset::{set_of, PathSet};
use kyde::plugins::{FontPreview, PackEffect, Plugins};
use kyde::highlight::Lang;
use kyde::terminals::Terminals;
use kyde::workspace::Mode;

fn texts(items: &[&str]) -> Vec<String> {
    items.iter().map(|s| s.to_string()).collect()
}

fn commit(hash: &str) -> Commit {
    Commit {
        hash: hash.to_string(),
        short: hash.to_string(),
        author: "me".to_string(),
        date: "now".to_string(),
        subject: "s".to_string(),
        refs: String::new(),
    }
}

#[test]
fn commits_are_compared() {
    let mut h = History::new();
    assert_eq!(h.rev, "HEAD");
    h.enter_history(Some(""), Some("main"));
    assert!(h.path.is_none());
    assert_eq!(h.rev, "main");
    h.enter_history(Some("src"), None);
    assert_eq!(h.path.as_deref(), Some("src"));
    assert_eq!(h.rev, "HEAD");
    h.reload_history(vec![commit("c1"), commit("c2")]);
    let revs = h.select_history_commit(1).unwrap();
    assert_eq!((revs.from.as_str(), revs.to.as_deref()), ("c2", None));
    h.set_history_compare(CompareMode::Before);
    let revs = h.select_history_commit(1).unwrap();
    assert_eq!((revs.from.as_str(), revs.to.as_deref()), ("c2^", Some("c2")));
    h.history_files_found(vec![ChangedFile {
        path: "src/a/b.rs".to_string(),
        status: FileStatus::Modified,
    }]);
    assert!(h.files_expanded.contains("src/a"));
    let q = h.select_history_file(0).unwrap();
    assert!(!q.editable);
    assert_eq!(h.set_history_compare(CompareMode::Local), Some(1));
    let q = h.select_history_file(0).unwrap();
    assert_eq!((q.revs.from.as_str(), q.revs.to.is_none(), q.editable), ("c2", true, true));
    h.set_history_compare(CompareMode::BeforeLocal);
    assert_eq!(h.history_revs("x").from, "x^");
    assert!(h.select_history_file(5).is_none());
    assert!(h.select_history_commit(9).is_none());
    h.set_history_rev("dev");
    assert_eq!(h.rev, "dev");
    h.toggle_history_branches(Some((texts(&["main"]), texts(&["origin/main"]))));
    assert!(h.branch_open);
    assert_eq!(h.locals, texts(&["main"]));
}

#[test]
fn terminals_have_tabs() {
    let mut t = Terminals::new(true);
    assert!(t.act_toggle_terminal(1, true));
    assert!(t.open && t.maximized);
    t.act_new_terminal_tab(2);
    assert_eq!((t.tabs.clone(), t.active), (vec![1, 2], 1));
    assert_eq!(t.tab_position(2), Some(1));
    t.close_terminal_tab(1);
    assert_eq!((t.tabs.clone(), t.active), (vec![1], 0));
    assert!(!t.act_toggle_terminal(3, false));
    assert!(!t.open);
    assert!(!t.act_toggle_terminal(3, false), "there is a tab");
    t.close_terminal_tab(9);
    t.close_terminal_tab(0);
    assert!(!t.open && t.tabs.is_empty());
    assert_eq!(t.tab_position(1), None);
    t.new_terminal_tab(4);
    assert_eq!(t.active, 0);
}

#[test]
fn a_walk_leaves_out_ignored_directories() {
    let skip = skip_dirs(Some("# c\n/build/\n*.log\n\nvendor\n"));
    assert!(skip.contains("node_modules") && skip.contains("build") && skip.contains("vendor"));
    assert!(!skip.contains("*.log") && !skip.contains("# c"));
    let mut w = Walk::new(Some("out/"));
    assert_eq!(w.next_dir().unwrap(), "");
    w.meet("", "z.txt", EntryKind::File);
    w.meet("", "src", EntryKind::Dir);
    w.meet("", "out", EntryKind::Dir);
    w.meet("", "link", EntryKind::Other);
    assert_eq!(w.next_dir().unwrap(), "src");
    w.meet("src", "a.rs", EntryKind::File);
    assert!(w.next_dir().is_none());
    assert_eq!(w.finish(), texts(&["src/a.rs", "z.txt"]));
}

#[test]
fn escape_closes_one_thing_at_a_time() {
    let mut o = Overlays::new(true, Preset::WebStorm);
    assert!(o.onboarding_forced);
    o.close_onboarding();
    o.open_menu();
    o.open_delete("a", false);
    assert_eq!(o.act_escape(true, Mode::Commit), Escape::Find);
    o.open_menu();
    assert_eq!(o.act_escape(false, Mode::Commit), Escape::Menu);
    assert_eq!(o.act_escape(false, Mode::Commit), Escape::Delete);
    assert!(o.toggle_branch_popup());
    assert_eq!(o.act_escape(false, Mode::Commit), Escape::Branches);
    o.open_keymap(Preset::VSCode);
    assert_eq!(o.act_escape(false, Mode::Commit), Escape::Onboarding);
    assert_eq!(o.act_escape(false, Mode::Commit), Escape::CommitView);
    assert_eq!(o.act_escape(false, Mode::Browse), Escape::Nothing);
}

#[test]
fn names_are_asked_for() {
    let mut o = Overlays::new(false, Preset::VSCode);
    o.start_new_file("src");
    assert!(matches!(o.confirm_name_prompt(" a.rs "), Named::Create(p) if p == "src/a.rs"));
    assert!(matches!(o.confirm_name_prompt("b"), Named::Nothing));
    o.start_new_file("");
    assert!(matches!(o.confirm_name_prompt("b"), Named::Create(p) if p == "b"));
    assert_eq!(o.start_rename("src/a.rs"), "a.rs");
    assert!(
        matches!(o.confirm_name_prompt("c.rs"), Named::Rename { from, to } if from == "src/a.rs" && to == "src/c.rs")
    );
    o.start_rename("x");
    assert!(matches!(o.confirm_name_prompt("  "), Named::Nothing));
    o.start_rename("x");
    o.cancel_name_prompt();
    assert!(o.name_prompt.is_none());
    o.open_delete("d", true);
    assert_eq!(o.take_delete(), Some(("d".to_string(), true)));
    assert_eq!(o.take_delete(), None);
    o.toggle_branch_node("sec:local");
    assert!(o.branch_expanded.contains("sec:local"));
    o.open_new_branch();
    assert!(o.new_branch_checkout && !o.new_branch_overwrite);
    o.close_popups();
    assert_eq!(path_on_disk(Some("/p"), "a"), "/p/a");
    assert_eq!(path_on_disk(Some("/p"), "/a"), "/a");
    assert_eq!(path_on_disk(None, "a"), "a");
}

#[test]
fn windows_open_once() {
    let mut m = Modals::new();
    assert!(m.open_modal_window(ModalKind::Push, false));
    m.modal_opened(ModalKind::Push);
    assert!(!m.open_modal_window(ModalKind::Push, true));
    assert!(m.open_modal_window(ModalKind::Push, false), "its window is gone");
    m.modal_opened(ModalKind::Diff);
    assert!(m.close_modal_window(ModalKind::Diff));
    assert!(!m.close_modal_window(ModalKind::Diff));
    assert!(!m.is_open(ModalKind::Diff));
    assert_eq!(ModalKind::Diff.title("f.rs"), "f.rs");
    assert_eq!(ModalKind::Push.title("f.rs"), "Push");
    assert_eq!(ModalKind::Diff.size(), (1100, 680));
    assert_eq!(ModalKind::NewBranch.focus(), ModalFocus::BranchQuery);
}

#[test]
fn paths_are_compared_by_component() {
    assert_eq!(components_of("/a//b/./c/"), texts(&["/", "a", "b", "c"]));
    assert!(same_path("a//b/", "a/b"));
    assert!(!same_path("/a", "a"));
    assert!(starts_with("a/b/c", "a/b"));
    assert!(!starts_with("a/bc", "a/b"));
    assert_eq!(join_paths("/a", "b"), "/a/b");
    assert_eq!(join_paths("/a/", "b"), "/a/b");
    assert_eq!(join_paths("a", "/b"), "/b");
    assert_eq!(parent_of("a/b").unwrap(), "a");
    assert_eq!(parent_of("a").unwrap(), "");
    assert_eq!(parent_of("/"), None);
    assert_eq!(file_name_of("a/b.rs").unwrap(), "b.rs");
    assert_eq!(file_name_of(".."), None);
    assert_eq!(extension_of("a/b.tar.gz").unwrap(), "gz");
    assert_eq!(extension_of(".bashrc"), None);
    // Components go before the characters of a longer name.
    let files = texts(&["a.b", "a/z", "a"]);
    let sorted: Vec<&str> = order_of(&files).iter().map(|&i| files[i].as_str()).collect();
    assert_eq!(sorted, vec!["a", "a/z", "a.b"]);
}

#[test]
fn sets_and_maps_of_texts() {
    let mut s = TextSet::new();
    s.insert("b");
    s.insert("a");
    s.insert("b");
    assert_eq!(s.to_vec(), texts(&["a", "b"]));
    s.remove("a");
    s.remove("x");
    assert!(!s.contains("a") && s.contains("b"));
    let mut m = TextMap::new();
    m.insert("k", "1");
    m.insert("k", "2");
    m.insert("a", "3");
    assert_eq!(m.get("k").unwrap(), "2");
    assert_eq!(m.keys(), texts(&["a", "k"]));
    m.clear();
    assert!(m.get("k").is_none());
    let mut p = PathSet::new();
    p.insert("a/b");
    assert!(p.contains("a//b"));
    p.toggle("a/b");
    assert!(p.is_empty());
    p.insert_ancestors("x/y/z");
    assert!(p.contains("x/y") && p.contains("x") && !p.contains("x/y/z"));
    assert!(p.remove("x") && !p.remove("x"));
    assert!(set_of(&texts(&["q"])).clone().contains("q"));
}

#[test]
fn packs_take_effect_at_once() {
    let mut p = Plugins::load(None);
    for id in p.ids() {
        p.uninstall(&id);
    }
    assert_eq!(p.effective_lang("a.go"), Lang::PlainText);
    let mut ignored = TextSet::new();
    assert_eq!(p.pending_pack(Some("a.go"), &ignored).unwrap().id, "go");
    assert!(p.ignore_open_pack(Some("a.go"), &mut ignored));
    assert!(p.pending_pack(Some("a.go"), &ignored).is_none());
    assert_eq!(p.install_open_pack(Some("a.go")), Some(Lang::Go));
    assert_eq!(p.toggle_plugin("go", Some("a.go")), PackEffect::SetLang(Lang::PlainText));
    assert_eq!(p.toggle_plugin("go", Some("a.rs")), PackEffect::Nothing);
    assert_eq!(p.install_pack("font", None), PackEffect::FontPreview);
    assert_eq!(p.load_font_preview(Some("a.ttf"), None), FontPreview::Load);
    assert_eq!(p.load_font_preview(Some("a.ttf"), Some("a.ttf")), FontPreview::Keep);
    assert_eq!(p.load_font_preview(None, None), FontPreview::Clear);
    assert!(!p.previews_markdown("a.md"));
    p.install("markdown");
    assert!(p.previews_markdown("a.md"));
}
