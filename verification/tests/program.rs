use kyde::actions::terminal_dir;
use kyde::changes::{GitTab, Rollback, Show};
use kyde::controller::{Command, GitState, Kyde, ProjectState};
use kyde::diffpane::Content;
use kyde::finder::{FinderMode, PaletteAction};
use kyde::git::{ChangedFile, FileStatus};
use kyde::highlight::Lang;
use kyde::history::CompareMode;
use kyde::keymap::{Keymap, Preset};
use kyde::keys::{bindings, AutoScroll, Blink, EditAction, NavRepeat, Press};
use kyde::layout::{layout_rows, placeholder_rows};
use kyde::editor::CodeEditor;
use kyde::overlays::{Escape, ModalKind, Named};
use kyde::paint::{Look, PaintOp, RowTint};
use kyde::plugins::Plugins;
use kyde::workspace::{Follow, Mode};
use std::collections::{HashMap, HashSet};

fn file(path: &str, status: FileStatus) -> ChangedFile {
    ChangedFile {
        path: path.to_string(),
        status,
    }
}

fn program() -> Kyde {
    Kyde::new(
        Some("/p"),
        Keymap::load(None).0,
        false,
        Plugins::load(None),
        None,
        false,
    )
}

fn git_state(status: Result<Vec<ChangedFile>, String>) -> ProjectState {
    ProjectState::Git(GitState {
        status,
        files: vec!["a".to_string(), "b".to_string()],
        branch: Some("main".to_string()),
        ahead: Some(2),
        behind: Some(1),
        push_base: "@{u}".to_string(),
        push_files: vec![file("pushed", FileStatus::Modified)],
    })
}

#[test]
fn the_program_starts_empty() {
    let k = program();
    assert_eq!(k.workspace.repo_root.as_deref(), Some("/p"));
    assert_eq!(k.inputs.find_query.key_context(), "CodeInput FindBar");
    assert_eq!(k.inputs.commit_editor.key_context(), "CodeEditor");
    assert_eq!(k.inputs.commit_editor.placeholder, "Commit message…");
    assert!(k.inputs.commit_editor.fills() && !k.file_editor.fills());
    for a in [
        EditAction::Up,
        EditAction::Down,
        EditAction::SelectUp,
        EditAction::SelectDown,
        EditAction::Enter,
        EditAction::Indent,
        EditAction::Outdent,
    ] {
        assert!(k.file_editor.handles(a) && !k.inputs.find_query.handles(a));
    }
    for a in [EditAction::Left, EditAction::Copy, EditAction::Undo] {
        assert!(k.file_editor.handles(a) && k.inputs.find_query.handles(a));
    }
    assert!(!k.overlays.onboarding_open);
    let crash = |c: &str| {
        Kyde::new(
            None,
            Keymap::load(None).0,
            true,
            Plugins::load(None),
            Some(c.to_string()),
            false,
        )
    };
    assert!(crash(" \n").pending_crash.is_none());
    let mut k = crash("panicked");
    assert!(k.overlays.onboarding_forced);
    assert_eq!(k.dismiss_crash().as_deref(), Some("panicked"));
    assert!(k.dismiss_crash().is_none());
}

#[test]
fn a_project_is_read() {
    let mut k = program();
    let files = vec![
        file("src/a", FileStatus::Modified),
        file("b", FileStatus::Untracked),
    ];
    assert_eq!(k.refresh(git_state(Ok(files)), None), Some(0));
    assert_eq!(k.repo.current_branch.as_deref(), Some("main"));
    assert!(k.changes.commit_expanded.contains("src"));
    assert_eq!(k.refresh(git_state(Err("lock".to_string())), None), Some(0));
    assert_eq!(k.ops.op_error.as_deref(), Some("Reading status failed: lock"));
    assert_eq!(k.changes.files.len(), 2, "what was known stays");
    let scratch = Some(vec!["s.md".to_string()]);
    let plain = ProjectState::Plain(vec!["x".to_string()]);
    assert_eq!(k.refresh(plain, scratch), None);
    assert!(k.changes.files.is_empty() && k.ops.op_error.is_none());
    assert!(k.repo.current_branch.is_none());
    assert_eq!(k.repo.behind, Some(1), "kept");
    assert_eq!(k.repo.scratches.len(), 1);
    assert_eq!(k.refresh(ProjectState::Absent, None), None);
    assert_eq!(k.repo.all_files.len(), 1);
}

#[test]
fn files_are_opened_edited_and_saved() {
    let mut k = program();
    assert!(k.save_open().is_none() && k.autosave().is_none());
    assert_eq!(k.open_file("n.txt", Some("one\ntwo\n".to_string())), 0);
    assert_eq!(k.file_editor.text(), "one\ntwo\n");
    k.file_editor.replace_range_text(0..3, "1");
    assert!(k.file_editor.dirty);
    assert!(!k.reload_external(Some("disk".to_string())), "edited");
    let (p, s) = k.autosave().unwrap();
    assert_eq!((p.as_str(), s.as_str()), ("n.txt", "1\ntwo\n"));
    assert_eq!(k.changes.files.len(), 1);
    assert!(!k.file_editor.dirty);
    assert!(!k.reload_external(Some("1\ntwo\n".to_string())), "the same");
    assert!(!k.reload_external(None));
    assert!(k.reload_external(Some("disk".to_string())));
    assert_eq!(k.file_editor.text(), "disk");
    assert_eq!(k.save_open().unwrap().1, "disk");
    let (tab, row) = k.open_file_at_line("m", 6, Some("1\n2\n3\n4\n5\nsix\n".to_string()));
    assert_eq!((tab, row), (1, 2));
    assert_eq!(&k.file_editor.content[k.file_editor.selected_range.clone()], "six");
    assert!(matches!(k.close_tab(1), Follow::Open(p) if p == "n.txt"));
    assert!(matches!(k.close_tab(0), Follow::Clear));
    assert_eq!(k.file_editor.text(), "");
    assert!(matches!(k.close_tab(0), Follow::Nothing));
    assert!(matches!(k.open_project("/q"), Follow::Refresh));
    assert!(matches!(k.close_project("/q"), Follow::Refresh));
}

#[test]
fn the_find_bar_works_on_the_open_file() {
    let mut k = program();
    k.open_file("n.txt", Some("a b\na".to_string()));
    k.inputs.find_query.set_content("a".to_string(), Lang::PlainText);
    let marks = k.recompute_find();
    assert_eq!(marks.len(), 2);
    assert_eq!((marks[1].line, marks[1].start, marks[1].end), (1, 0, 1));
    assert_eq!(k.file_editor.selected_range, 0..1);
}

#[test]
fn the_commit_view_is_entered_and_left() {
    let mut k = program();
    let files = vec![
        file("a", FileStatus::Modified),
        file("d/b", FileStatus::Added),
    ];
    let show = k.enter_commit(Some((files, "base".to_string(), Vec::new())));
    assert_eq!(show, Show::Changed(0));
    assert_eq!(k.workspace.mode, Mode::Commit);
    assert_eq!(k.repo.push_base, "base");
    k.exit_commit_if_clean();
    assert_eq!(k.workspace.mode, Mode::Commit);
    let text = Content::Text {
        before: "x\n".to_string(),
        after: "y\n".to_string(),
    };
    assert_eq!(k.menu_show_diff(1, text), "d/b");
    assert_eq!(k.panes.right.text(), "y\n");
    k.panes.right.set_content("x\n".to_string(), Lang::PlainText);
    k.diff_edited(Some(Vec::new()));
    assert!(k.panes.diff.as_ref().unwrap().hunks.is_empty());
    k.exit_commit_if_clean();
    assert_eq!(k.workspace.mode, Mode::Browse);
    assert_eq!(k.enter_commit(None), Show::Nothing);
    assert_eq!(k.changes.git_tab, GitTab::Commit);
    assert_eq!(k.act_escape(), Escape::CommitView);
    assert_eq!(k.workspace.mode, Mode::Browse);
    k.changes.files = vec![file("d/b", FileStatus::Added)];
    assert_eq!(k.menu_commit_path("d"), Some(0));
    assert_eq!(k.workspace.mode, Mode::Commit);
    k.act_mode_browse();
    assert_eq!(k.workspace.mode, Mode::Browse);
    assert_eq!(
        k.select_with(5, Content::Image, true),
        None,
        "no such file"
    );
}

#[test]
fn pushes_are_confirmed() {
    let mut k = program();
    k.open_push_modal(Some(("b".to_string(), vec![file("p", FileStatus::Added)])));
    assert_eq!(k.repo.push_base, "b");
    assert_eq!(
        k.push_show_diff(0, "1\n".to_string(), "2\n".to_string()).as_deref(),
        Some("p")
    );
    assert!(k.panes.readonly);
    assert!(k.push_show_diff(4, String::new(), String::new()).is_none());
    assert!(k.select_push_file(0, "1\n".to_string(), "2\n".to_string()).is_some());
    k.open_push_modal(None);
    assert!(k.changes.push_files.is_empty());
}

#[test]
fn checked_files_are_rolled_back() {
    let mut k = program();
    k.changes.files = vec![
        file("a", FileStatus::Modified),
        file("b", FileStatus::Untracked),
        file("c", FileStatus::Added),
    ];
    k.changes.open_rollback_path("");
    k.changes.rollback_delete_added = true;
    k.changes.toggle_rollback_check("b", false);
    let plan: Vec<(String, Rollback)> =
        k.do_rollback().into_iter().map(|s| (s.path, s.act)).collect();
    assert_eq!(
        plan,
        vec![
            ("a".to_string(), Rollback::Discard),
            ("c".to_string(), Rollback::UnstageAndDelete)
        ]
    );
    k.workspace.mode = Mode::Commit;
    k.changes.files = Vec::new();
    k.modals.modal_opened(ModalKind::Rollback);
    k.rollback_done(&vec!["c".to_string()]);
    assert_eq!(k.workspace.mode, Mode::Browse);
    assert!(!k.modals.is_open(ModalKind::Rollback));
    assert_eq!(k.ops.op_error.as_deref(), Some("Rollback failed for 1 file(s): c"));
}

#[test]
fn files_are_named_and_deleted() {
    let mut k = program();
    k.open_file("a", Some("x".to_string()));
    k.overlays.start_rename("a");
    k.inputs.name_input.set_content("b".to_string(), Lang::PlainText);
    assert!(matches!(k.confirm_name_prompt(), Named::Rename { to, .. } if to == "b"));
    assert!(k.renamed("a", "b"));
    k.overlays.open_delete("b", false);
    assert_eq!(k.do_delete(), Some(("/p/b".to_string(), false)));
    assert!(k.do_delete().is_none());
    assert!(k.workspace.open_tabs.is_empty());
    k.open_file("z", Some("x".to_string()));
    assert_eq!(k.act_delete_file().as_deref(), Some("z"));
    k.workspace.mode = Mode::History;
    assert!(k.act_delete_file().is_none());
    assert_eq!(terminal_dir("/p", "a/b.rs", false), "/p/a");
    assert_eq!(terminal_dir("/p", "a", true), "/p/a");
}

#[test]
fn palette_actions_and_branches() {
    let mut k = program();
    assert_eq!(
        k.run_palette(PaletteAction::FindInFiles),
        Command::OpenFinder(FinderMode::Content)
    );
    k.workspace.mode = Mode::Commit;
    assert_eq!(k.run_palette(PaletteAction::BrowseView), Command::Nothing);
    assert_eq!(k.workspace.mode, Mode::Browse);
    assert_eq!(k.run_palette(PaletteAction::Settings), Command::Nothing);
    assert!(k.overlays.onboarding_open);
    assert_eq!(
        k.run_palette(PaletteAction::Plugins),
        Command::OpenModal(ModalKind::Plugins)
    );
    k.choose_preset(Preset::VSCode);
    assert!(!k.overlays.onboarding_open);
    assert_eq!(k.keymap.preset, Preset::VSCode);
    k.overlays.branch_popup_open = true;
    assert_eq!(k.run_branch_op().as_deref(), Some("/p"));
    assert!(!k.overlays.branch_popup_open);
    k.overlays.open_new_branch();
    assert!(k.do_create_branch().is_none());
    k.inputs.branch_query.set_content("my new topic".to_string(), Lang::PlainText);
    let b = k.do_create_branch().unwrap();
    assert_eq!(b.name, "my-new-topic");
    assert_eq!((b.root.as_str(), b.checkout, b.overwrite), ("/p", true, false));
    k.repo.current_branch = Some("dev".to_string());
    k.enter_history_for(Some("src"));
    assert_eq!(k.workspace.mode, Mode::History);
    assert_eq!(k.history.rev, "dev");
    k.history_compare_commit(3, CompareMode::Local);
    assert_eq!(k.history.selected, Some(3));
}

#[test]
fn keys_of_editors() {
    let one = bindings(true);
    let many = bindings(false);
    assert_eq!((one.len(), many.len()), (20, 25));
    assert!(one.iter().all(|(_, a)| *a != EditAction::Enter));
    assert!(many.contains(&("shift-down", EditAction::SelectDown)));
    assert!(one.contains(&("cmd-backspace", EditAction::DeleteToHome)));

    let mut nav = NavRepeat::new();
    assert_eq!(nav.on_key_down_nav(true, "down", false, false), Press::Ignored);
    assert_eq!(nav.on_key_down_nav(false, "left", false, false), Press::Ignored);
    assert_eq!(nav.on_key_down_nav(false, "down", true, false), Press::Ignored);
    assert_eq!(nav.on_key_down_nav(false, "down", false, true), Press::Start);
    assert_eq!(nav.on_key_down_nav(false, "up", false, false), Press::Again);
    nav.on_key_up_nav("down");
    assert!(!nav.tick().unwrap().down);
    nav.on_key_up_nav("up");
    assert!(nav.tick().is_none() && !nav.active);

    let mut blink = Blink::new();
    let first = blink.begin().unwrap();
    assert_eq!((first, blink.epoch), (1, 1));
    assert!(blink.begin().is_none());
    assert!(blink.tick(first) && !blink.on);
    let second = blink.restart_blink();
    assert!(blink.on && !blink.tick(first) && blink.on);
    assert!(blink.tick(second));

    let mut scroll = AutoScroll { active: false };
    assert!(scroll.start_autoscroll() && !scroll.start_autoscroll());
    assert!(scroll.tick(true, true) && !scroll.tick(true, false));
    assert!(!scroll.active);
}

fn look(first: usize, end: usize) -> Look {
    Look {
        line_numbers: true,
        gutter_right: false,
        focused: true,
        blink_on: true,
        tinted: HashSet::new(),
        words: HashMap::new(),
        first,
        end,
    }
}

#[test]
fn a_frame_paints_what_is_on_the_screen() {
    let mut ed = CodeEditor::new("ab\ncd\nef".to_string(), Lang::PlainText, "");
    ed.move_to(4);
    let mut filler = HashMap::new();
    filler.insert(2, 1);
    let rows = layout_rows(&ed, &filler, 0, &Vec::new());
    let mut l = look(1, 4);
    l.tinted.insert(1);
    l.words.insert(1, vec![(0, 1)]);
    assert_eq!(
        l.paint(&ed, &rows),
        vec![
            PaintOp::CaretRow { row: 1 },
            PaintOp::Tint { row: 1, tint: RowTint::Line },
            PaintOp::Tint { row: 2, tint: RowTint::Separator },
            PaintOp::Word { row: 1, from: 0, to: 1 },
            PaintOp::Number { row: 1, number: 2, bright: true },
            PaintOp::Number { row: 3, number: 3, bright: false },
            PaintOp::Divider,
            PaintOp::Text { row: 1 },
            PaintOp::Text { row: 2 },
            PaintOp::Text { row: 3 },
            PaintOp::Caret { row: 1, col: 1 },
        ]
    );
    ed.select_range(1..7);
    let mut right = look(0, 2);
    right.gutter_right = true;
    assert_eq!(
        right.paint(&ed, &rows),
        vec![
            PaintOp::Selected { row: 0, from: 1, to: 3 },
            PaintOp::Selected { row: 1, from: 0, to: 3 },
            PaintOp::Text { row: 0 },
            PaintOp::Text { row: 1 },
            PaintOp::Backing { row: 0, tint: RowTint::Plain },
            PaintOp::Number { row: 0, number: 1, bright: false },
            PaintOp::Backing { row: 1, tint: RowTint::Plain },
            PaintOp::Number { row: 1, number: 2, bright: false },
            PaintOp::Divider,
        ]
    );
}

#[test]
fn folded_regions_have_a_mark() {
    let mut ed = CodeEditor::new(String::new(), Lang::PlainText, "");
    ed.set_content("{\n\"a\": 1\n}".to_string(), Lang::Json);
    ed.toggle_fold(0);
    let rows = layout_rows(&ed, &HashMap::new(), 0, &Vec::new());
    let mut l = look(0, 9);
    l.line_numbers = false;
    l.focused = false;
    assert_eq!(
        l.paint(&ed, &rows),
        vec![
            PaintOp::Divider,
            PaintOp::Text { row: 0 },
            PaintOp::Chevron { row: 0, folded: true },
            PaintOp::Ellipsis { row: 0 },
        ]
    );
}

#[test]
fn a_placeholder_is_painted_with_a_caret() {
    let ed = CodeEditor::single_line("Search");
    let rows = placeholder_rows("Search");
    let mut l = look(0, 0);
    l.line_numbers = false;
    assert_eq!(
        l.paint(&ed, &rows),
        vec![PaintOp::Text { row: 0 }, PaintOp::Caret { row: 0, col: 0 }]
    );
}

#[test]
fn escape_closes_the_find_bar_and_keeps_its_place() {
    let mut k = Kyde::new(
        Some("/p"),
        Keymap::load(None).0,
        false,
        Plugins::default(),
        None,
        false,
    );
    k.find.open = true;
    k.find.replace = true;
    k.find.matches = vec![(0, 1), (2, 3)];
    k.find.idx = 1;
    assert_eq!(k.act_escape(), Escape::Find);
    assert!(!k.find.open && k.find.replace && k.find.matches.is_empty());
    assert_eq!(k.find.idx, 1);
}

#[test]
fn a_selected_file_fills_the_panes() {
    let mut k = Kyde::new(
        Some("/p"),
        Keymap::load(None).0,
        false,
        Plugins::default(),
        None,
        false,
    );
    k.changes.files = vec![file("a.txt", FileStatus::Modified)];
    k.changes.push_files = vec![file("b.txt", FileStatus::Modified)];
    let text = |before: &str, after: &str| Content::Text {
        before: before.to_string(),
        after: after.to_string(),
    };
    assert_eq!(k.select_with(0, text("1\n2\n3\n4\n5", "1\n2\n3\n4\nx"), true), Some(1));
    assert_eq!(k.panes.base, "1\n2\n3\n4\n5");
    assert!(k.panes.left.read_only && !k.panes.right.read_only);
    assert_eq!(k.select_with(0, Content::NoRepo, true), None);
    assert_eq!(k.panes.right.content, "1\n2\n3\n4\nx");
    assert_eq!(k.select_with(0, Content::Unreadable, true), None);
    assert_eq!(k.panes.left.content, "Binary or non-text file — no diff.");
    assert_eq!(k.select_with(0, Content::Image, true), None);
    assert_eq!(k.panes.image.as_deref(), Some("a.txt"));
    assert_eq!(k.select_push_file(0, "p\n".to_string(), "q\n".to_string()), Some(0));
    assert_eq!((k.panes.base.as_str(), k.panes.image.as_deref()), ("p\n", Some("a.txt")));
    assert!(k.panes.right.read_only);
    assert_eq!(k.menu_show_diff(0, text("same", "same")), "a.txt");
    assert_eq!((k.panes.base.as_str(), k.panes.image.as_deref()), ("same", None));
}
