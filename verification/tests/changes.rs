use kyde::changes::{dirs_of, rollback_step, Changes, GitTab, Rollback, Show};
use kyde::git::{ChangedFile, FileStatus, Reply, Repo, Step};
use kyde::operations::{commit_steps, rollback_error, Debounce, Operations, Release, Update};
use kyde::pathset::set_of;

fn texts(items: &[&str]) -> Vec<String> {
    items.iter().map(|s| s.to_string()).collect()
}

fn file(path: &str, status: FileStatus) -> ChangedFile {
    ChangedFile {
        path: path.to_string(),
        status,
    }
}

fn some_changes() -> Changes {
    let mut c = Changes::new();
    c.files = vec![
        file("src/a.rs", FileStatus::Modified),
        file("src/b/c.rs", FileStatus::Added),
        file("top", FileStatus::Untracked),
    ];
    c.rebuild_commit_view(true);
    c
}

#[test]
fn folders_hold_what_lies_below_them() {
    let c = some_changes();
    assert_eq!(c.changed_under("src"), vec![0, 1]);
    assert_eq!(c.changed_under("src/b"), vec![1]);
    assert_eq!(c.changed_under(""), vec![0, 1, 2]);
    assert!(c.has_changes_under("top"));
    assert!(!c.has_changes_under("sr"), "not by letters");
    let dirs = dirs_of(&texts(&["src/b/c.rs"]));
    assert!(dirs.contains("src") && dirs.contains("src/b") && dirs.contains(""));
}

#[test]
fn checks_go_by_folder() {
    let mut c = some_changes();
    assert!(c.folder_all_checked("src"));
    c.toggle_commit_check("src/a.rs", false);
    assert!(!c.folder_all_checked("src"));
    assert!(!c.commit_checked.contains("src/a.rs"));
    // A folder that is checked in part becomes checked, then unchecked.
    c.toggle_commit_check("src", true);
    assert!(c.folder_all_checked("src"));
    c.toggle_commit_check("src", true);
    assert!(!c.commit_checked.contains("src/a.rs"));
    assert!(c.commit_checked.contains("top"));
    c.toggle_commit_dir("src");
    assert!(!c.commit_expanded.contains("src"));
    c.files.remove(2);
    c.rebuild_commit_view(false);
    assert!(!c.commit_checked.contains("top"), "gone files are unchecked");
}

#[test]
fn rollbacks_go_by_status() {
    let mut c = some_changes();
    assert!(c.open_rollback_path("src"));
    assert!(c.rollback_folder_all_checked("src"));
    c.toggle_rollback_check("src/a.rs", false);
    let left: Vec<String> = c.rollback_targets().iter().map(|f| f.path.clone()).collect();
    assert_eq!(left, texts(&["src/b/c.rs"]));
    assert!(!c.open_rollback_path("nowhere"));
    assert_eq!(rollback_step(FileStatus::Untracked, false), Rollback::Keep);
    assert_eq!(rollback_step(FileStatus::Untracked, true), Rollback::Delete);
    assert_eq!(rollback_step(FileStatus::Added, false), Rollback::Unstage);
    assert_eq!(
        rollback_step(FileStatus::Added, true),
        Rollback::UnstageAndDelete
    );
    assert_eq!(rollback_step(FileStatus::Deleted, true), Rollback::Discard);
    assert_eq!(rollback_error(&Vec::new()), None);
    assert_eq!(
        rollback_error(&texts(&["a", "b"])).unwrap(),
        "Rollback failed for 2 file(s): a, b"
    );
}

#[test]
fn the_commit_view_shows_something() {
    let mut c = some_changes();
    assert_eq!(c.enter_commit(Some("top")), Show::Changed(2));
    assert_eq!(c.enter_commit(None), Show::Changed(0));
    assert!(c.focus_commit_msg);
    assert_eq!(c.set_git_tab(GitTab::Push), Show::Nothing);
    assert_eq!(c.set_git_tab(GitTab::Commit), Show::Changed(0));
    c.select(1);
    assert_eq!(c.refreshed_selection(), Some(1));
    c.selected = Some(9);
    assert_eq!(c.refreshed_selection(), Some(0));
    assert_eq!(c.menu_commit_path("src/b"), Some(1));
    assert!(c.commit_checked.contains("src/b/c.rs") && !c.commit_checked.contains("top"));
    assert_eq!(c.menu_commit_path("nowhere"), None);

    let mut only_push = Changes::new();
    only_push.push_files = vec![file("p", FileStatus::Modified)];
    assert_eq!(only_push.enter_commit(None), Show::Pushed(0));
    assert_eq!(only_push.git_tab, GitTab::Push);
    only_push.git_tab = GitTab::Commit;
    assert_eq!(only_push.normalize_git_tab(true), Show::Pushed(0));
    assert_eq!(only_push.git_tab, GitTab::Push);
    let mut none = Changes::new();
    assert_eq!(none.enter_commit(None), Show::Nothing);
    assert_eq!(none.refreshed_selection(), None);
    none.mark_modified("x");
    none.mark_modified("x");
    assert_eq!(none.files.len(), 1);
}

#[test]
fn operations_run_one_at_a_time() {
    let mut o = Operations::new();
    assert!(!o.do_push(false));
    assert!(o.do_push(true));
    assert!(!o.do_push(true));
    o.push_done(Some("denied".to_string()));
    assert!(!o.pushing);
    assert!(o.push_msg.is_some());
    assert!(o.do_pull(true) && !o.do_pull(true));
    o.pull_done(None);
    assert!(o.do_fetch(true) && !o.do_fetch(true));
    o.fetch_done();
    assert!(!o.fetching);
    assert_eq!(o.commit_now("  ", true, true), None);
    assert_eq!(o.commit_now("m", false, true), None);
    assert_eq!(o.commit_now(" m ", true, true).unwrap(), "m");
    assert_eq!(o.commit_now("m", true, true), None, "one runs");
    assert!(!o.commit_done(Some("hook")));
    assert_eq!(o.op_error.as_deref(), Some("Commit failed: hook"));
    o.status_read(Some("lock"));
    assert_eq!(o.op_error.as_deref(), Some("Reading status failed: lock"));
    o.status_read(None);
    assert_eq!(o.op_error, None);
    o.report("Branch operation", None);
    assert_eq!(o.op_error, None);
    o.report("Branch operation", Some("x"));
    assert_eq!(o.op_error.as_deref(), Some("Branch operation failed: x"));
    o.dismiss_op_error();
    assert_eq!(o.op_error, None);
}

#[test]
fn updates_replace_download_or_open() {
    let rel = |zip: &str| Release {
        zip_url: zip.to_string(),
        page_url: "https://page".to_string(),
    };
    let mut o = Operations::new();
    assert!(matches!(o.do_update(None, None), Update::Nothing));
    assert!(matches!(o.do_update(Some(&rel("")), None), Update::Page(u) if u == "https://page"));
    assert!(
        matches!(o.do_update(Some(&rel("z")), Some("/App")), Update::Swap { zip, bundle } if zip == "z" && bundle == "/App")
    );
    assert!(matches!(o.do_update(Some(&rel("z")), None), Update::Nothing));
    o.update_done("Update", Some("net"));
    assert!(!o.updating);
    assert!(matches!(o.do_update(Some(&rel("z")), None), Update::Download(u) if u == "z"));
}

#[test]
fn only_the_last_event_counts() {
    let mut d = Debounce::new();
    let a = d.bump();
    assert!(d.is_latest(a));
    let b = d.bump();
    assert!(!d.is_latest(a) && d.is_latest(b));
}

#[test]
fn a_commit_stages_what_is_checked() {
    let repo = match Repo::discover("/w", &vec![Reply::Out("/w\n".to_string())]) {
        Step::Done(Ok(r)) => r,
        _ => panic!(),
    };
    let all = texts(&["a", "b"]);
    let checked = set_of(&texts(&["b"]));
    let mut replies: Vec<Reply> = Vec::new();
    let mut asked = Vec::new();
    loop {
        match commit_steps(&repo, &all, &checked, "msg", &replies) {
            Step::Run(c) => {
                asked.push((c.args.join(" "), c.stdin));
                replies.push(Reply::Out(String::new()));
            }
            Step::Done(r) => {
                assert!(r.is_ok());
                break;
            }
        }
    }
    assert_eq!(
        asked,
        vec![
            ("restore --staged -- a".to_string(), None),
            ("add -- b".to_string(), None),
            ("commit -F -".to_string(), Some("msg".to_string())),
        ]
    );
    let failed = vec![Reply::Failed("no".to_string())];
    match commit_steps(&repo, &all, &checked, "msg", &failed) {
        Step::Done(Err(e)) => assert_eq!(e.message(), "no"),
        _ => panic!("goes on after a failure"),
    }
}
