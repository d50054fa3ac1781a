use kyde::git::{
    git, git_not_run, is_rejection, Cmd, ContentError, FileStatus, GitError, Reply, Repo, Step,
};
use kyde::porcelain::{
    add_hit, classify, collect_hits, is_status_readable, parse_branches, parse_hit, parse_listing,
    parse_log, parse_name_status, parse_status,
};

/// Runs an operation against a table of commands and what they print; the others fail.
fn drive<T>(
    table: &[(&str, &str)],
    mut op: impl FnMut(&Vec<Reply>) -> Step<T>,
) -> (Vec<String>, T) {
    let mut replies = Vec::new();
    let mut asked = Vec::new();
    for _ in 0..40 {
        match op(&replies) {
            Step::Done(v) => return (asked, v),
            Step::Run(c) => {
                assert_eq!(c.dir, "/w");
                let line = c.args.join(" ");
                let reply = match table.iter().find(|(a, _)| *a == line) {
                    Some((_, out)) => git(&c, true, out.as_bytes(), b""),
                    None => git(&c, false, b"", b"no"),
                };
                asked.push(line);
                replies.push(reply);
            }
        }
    }
    panic!("asks for ever: {asked:?}")
}

fn repo() -> Repo {
    let (_, r) = drive(&[("rev-parse --show-toplevel", "/w\n")], |rs| {
        Repo::discover("/w", rs)
    });
    r.unwrap()
}

fn changed(v: &[kyde::git::ChangedFile]) -> Vec<(&str, FileStatus)> {
    v.iter().map(|f| (f.path.as_str(), f.status)).collect()
}

#[test]
fn new_branch_pushes_only_its_own_commits_not_whole_repo() {
    let repo = repo();
    // What git says on a new branch off a pushed main: no upstream, no remote branch of the same
    // name, nowhere to push, and a merge base with the remote's main line.
    let on_branch = [
        ("symbolic-ref --quiet --short HEAD", "feature\n"),
        ("rev-parse --abbrev-ref origin/HEAD", "origin/main\n"),
        ("rev-parse --verify --quiet origin/main", "abc\n"),
        ("merge-base HEAD origin/main", "abc\n"),
    ];

    // New branch off main, never pushed, no new commits → nothing to push.
    let mut fresh = on_branch.to_vec();
    fresh.push(("rev-list --count abc..HEAD", "0\n"));
    fresh.push(("diff --name-status -z abc HEAD", ""));
    assert_eq!(
        drive(&fresh, |rs| repo.ahead_count(rs)).1,
        Some(0),
        "a brand-new branch with no commits is 0 ahead"
    );
    assert!(
        drive(&fresh, |rs| repo.push_files(rs)).1.is_empty(),
        "a brand-new branch must not report the whole repo as unpushed"
    );

    // One commit on the branch → exactly that file is unpushed, 1 ahead.
    let mut ahead = on_branch.to_vec();
    ahead.push(("rev-list --count abc..HEAD", "1\n"));
    ahead.push(("diff --name-status -z abc HEAD", "A\0b.txt\0"));
    assert_eq!(drive(&ahead, |rs| repo.ahead_count(rs)).1, Some(1));
    let files = drive(&ahead, |rs| repo.push_files(rs)).1;
    assert_eq!(files.len(), 1, "only the new commit's file is unpushed");
    assert_eq!(files[0].path, "b.txt");
}

#[test]
fn a_push_is_measured_from_the_nearest_base() {
    let repo = repo();
    let base = |table: &[(&str, &str)]| drive(table, |rs| repo.push_base(rs)).1;
    assert_eq!(base(&[("rev-parse --verify --quiet @{u}", "x")]), "@{u}");
    assert_eq!(
        base(&[
            ("symbolic-ref --quiet --short HEAD", "f\n"),
            ("rev-parse --verify --quiet origin/f", "x"),
        ]),
        "origin/f"
    );
    assert_eq!(base(&[("rev-parse --verify --quiet @{push}", "x")]), "@{push}");
    assert_eq!(
        base(&[
            ("rev-parse --verify --quiet origin/master", "x"),
            ("merge-base HEAD origin/master", " m \n"),
        ]),
        "m"
    );
    assert_eq!(base(&[]), "4b825dc642cb6eb9a060e54bf8d69288fbee4904");
    assert_eq!(drive(&[], |rs| repo.push_base_commit(rs)).1, None);
    let (asked, n) = drive(&[("rev-list --count HEAD", "7\n")], |rs| {
        repo.ahead_count(rs)
    });
    assert_eq!(n, Some(7));
    assert_eq!(asked.last().unwrap(), "rev-list --count HEAD");
}

#[test]
fn a_rejected_push_is_rebased_and_repeated_once() {
    let repo = repo();
    let branch = ("symbolic-ref --quiet --short HEAD", "f\n");
    let (asked, r) = drive(
        &[branch, ("push --set-upstream origin f", "done")],
        |rs| repo.push_rebasing(rs),
    );
    assert_eq!(r.unwrap(), "done");
    assert_eq!(asked.len(), 2);

    // Any other failure is left alone.
    let (asked, r) = drive(&[branch], |rs| repo.push_rebasing(rs));
    assert_eq!(
        r.unwrap_err().message(),
        "git [\"push\", \"--set-upstream\", \"origin\", \"f\"] failed: no"
    );
    assert_eq!(asked.len(), 2);

    // A rejection brings a rebase, and a second push.
    let out = |s: &str| Reply::Out(s.to_string());
    let rejected = || Reply::Failed("! [rejected] f (fetch first)".to_string());
    let replies = vec![out("f"), rejected(), out("f"), out("pulled"), out("f"), rejected()];
    let mut seen = Vec::new();
    for n in 0..replies.len() {
        let so_far: Vec<Reply> = replies[..n].to_vec();
        match repo.push_rebasing(&so_far) {
            Step::Run(c) => seen.push(c.args.join(" ")),
            Step::Done(_) => panic!("done after {n} replies"),
        }
    }
    assert_eq!(
        seen,
        vec![
            "symbolic-ref --quiet --short HEAD",
            "push --set-upstream origin f",
            "symbolic-ref --quiet --short HEAD",
            "pull --rebase --autostash origin f",
            "symbolic-ref --quiet --short HEAD",
            "push --set-upstream origin f",
        ]
    );
    match repo.push_rebasing(&replies) {
        Step::Done(Err(GitError::Failed(e))) => assert!(e.contains("rejected")),
        other => panic!("{other:?}"),
    }

    // A rebase that fails is aborted, and its message is told.
    let replies = vec![
        out("f"),
        rejected(),
        out("f"),
        Reply::Failed("conflict".to_string()),
        out(""),
    ];
    match repo.push_rebasing(&replies[..4].to_vec()) {
        Step::Run(c) => assert_eq!(c.args, vec!["rebase", "--abort"]),
        other => panic!("{other:?}"),
    }
    match repo.push_rebasing(&replies) {
        Step::Done(Err(GitError::Conflict(e))) => assert_eq!(e, "conflict"),
        other => panic!("{other:?}"),
    }
}

#[test]
fn discovery_needs_a_root() {
    let (_, r) = drive(&[("rev-parse --show-toplevel", " \n")], |rs| {
        Repo::discover("/w", rs)
    });
    assert_eq!(r.err().unwrap().message(), "not a git repository");
    let (_, r) = drive(&[], |rs| Repo::discover("/w", rs));
    assert!(matches!(r.err().unwrap(), GitError::Failed(_)));
    assert_eq!(repo().root(), "/w");
    assert_eq!(repo().full_path("a/b"), "/w/a/b");
    assert_eq!(repo().full_path("/x"), "/x");
    assert_eq!(repo().save_file("a"), "/w/a");
    assert_eq!(repo().delete_file("a"), "/w/a");
}

#[test]
fn status_reads_the_porcelain_form() {
    let raw = " M z.txt\0?? new.txt\0R  to.txt\0from.txt\0D  gone\0UU both\0A  a.txt\0";
    assert!(is_status_readable(raw));
    assert!(!is_status_readable("éé x\0"));
    let seen = parse_status(raw);
    assert_eq!(
        changed(&seen),
        vec![
            ("a.txt", FileStatus::Added),
            ("both", FileStatus::Conflict),
            ("gone", FileStatus::Deleted),
            ("new.txt", FileStatus::Untracked),
            ("to.txt", FileStatus::Renamed),
            ("z.txt", FileStatus::Modified),
        ]
    );
    let (asked, r) = drive(
        &[("status --porcelain=v1 -z --untracked-files=all", raw)],
        |rs| repo().status(rs),
    );
    assert_eq!(changed(&r.unwrap()), changed(&seen));
    assert_eq!(asked.len(), 1);
    assert_eq!(classify('?', '?'), FileStatus::Untracked);
    assert_eq!(classify('A', 'A'), FileStatus::Conflict);
    assert_eq!(classify(' ', 'D'), FileStatus::Deleted);
}

#[test]
fn comparisons_read_the_name_status_form() {
    let raw = "M\0b\0R100\0old\0new\0D\0a\0";
    assert_eq!(
        changed(&parse_name_status(raw)),
        vec![
            ("a", FileStatus::Deleted),
            ("b", FileStatus::Modified),
            ("new", FileStatus::Renamed),
        ]
    );
    let (asked, files) = drive(&[("diff --name-status -z x y -- dir", raw)], |rs| {
        repo().diff_files("x", Some("y"), Some("dir"), rs)
    });
    assert_eq!(files.len(), 3);
    assert_eq!(asked.len(), 1);
    let (asked, files) = drive(&[], |rs| repo().diff_files("-x", None, None, rs));
    assert!(files.is_empty() && asked.is_empty(), "a name that is an option");
    let (asked, files) = drive(&[], |rs| repo().diff_files("x", None, None, rs));
    assert!(files.is_empty());
    assert_eq!(asked, vec!["diff --name-status -z x"]);
}

#[test]
fn listings_are_sorted_and_without_doubles() {
    assert_eq!(parse_listing("b\0a/c\0b\0a\0"), vec!["a", "a/c", "b"]);
    let (_, r) = drive(
        &[(
            "ls-files -z --cached --others --exclude-standard",
            "x\0a\0x\0",
        )],
        |rs| repo().list_files(rs),
    );
    assert_eq!(r.unwrap(), vec!["a", "x"]);
}

#[test]
fn history_and_branches() {
    let raw = "h\x1fs\x1fme\x1f2 days ago\x1fsubject\x1fHEAD -> main\nshort\x1fline\n";
    let log = parse_log(raw);
    assert_eq!(log.len(), 1);
    assert_eq!(log[0].hash, "h");
    assert_eq!(log[0].subject, "subject");
    assert_eq!(log[0].refs, "HEAD -> main");
    let (asked, _) = drive(&[], |rs| repo().log(" main ", 300, Some("src"), rs));
    assert_eq!(
        asked,
        vec!["log main --date=relative -n300 --format=%H%x1f%h%x1f%an%x1f%ad%x1f%s%x1f%D -- src"]
    );
    assert!(matches!(
        drive(&[], |rs| repo().log("-x", 1, None, rs)).1,
        Err(GitError::BadName(_))
    ));
    assert_eq!(parse_branches("main\n\ndev\n", false), vec!["main", "dev"]);
    assert_eq!(
        parse_branches("origin/HEAD\norigin/main\n", true),
        vec!["origin/main"]
    );
    let listing = "for-each-ref --sort=-committerdate --format=%(refname:short) refs/heads/";
    let (_, r) = drive(&[(listing, "main\n")], |rs| repo().branches(rs));
    assert_eq!(r.unwrap(), vec!["main"]);
    assert!(drive(&[], |rs| repo().remote_branches(rs)).1.is_err());
}

#[test]
fn branches_are_switched_and_made() {
    let asked = |op: &dyn Fn(&Vec<Reply>) -> Step<Result<(), GitError>>| drive(&[], op).0.join(";");
    let r = repo();
    assert_eq!(asked(&|rs| r.checkout(" dev", rs)), "checkout dev --");
    assert_eq!(asked(&|rs| r.checkout("-x", rs)), "");
    assert_eq!(
        asked(&|rs| r.create_branch_opts("n", true, false, rs)),
        "checkout -b n"
    );
    assert_eq!(
        asked(&|rs| r.create_branch_opts("n", true, true, rs)),
        "checkout -B n"
    );
    assert_eq!(
        asked(&|rs| r.create_branch_opts("n", false, true, rs)),
        "branch -f n"
    );
    assert_eq!(
        asked(&|rs| r.create_branch_opts("n", false, false, rs)),
        "branch n"
    );
    assert_eq!(asked(&|rs| r.stage("a", rs)), "add -- a");
    assert_eq!(asked(&|rs| r.unstage("a", rs)), "restore --staged -- a");
    assert_eq!(asked(&|rs| r.discard("a", rs)), "checkout HEAD -- a");
    assert!(matches!(
        drive(&[], |rs| r.create_branch_opts(" ", true, true, rs)).1,
        Err(GitError::EmptyName)
    ));
}

#[test]
fn a_commit_reads_its_message() {
    match repo().commit("fix\n\nall", &Vec::new()) {
        Step::Run(c) => {
            assert_eq!(c.args, vec!["commit", "-F", "-"]);
            assert_eq!(c.stdin.as_deref(), Some("fix\n\nall"));
        }
        other => panic!("{other:?}"),
    }
}

#[test]
fn counts_are_read() {
    let r = repo();
    let up = ("rev-parse @{u}", "x");
    let n = drive(&[up, ("rev-list --count HEAD..@{u}", " 12\n")], |rs| {
        r.behind_count(rs)
    });
    assert_eq!(n.1, Some(12));
    assert_eq!(drive(&[up], |rs| r.behind_count(rs)).1, None);
    assert_eq!(drive(&[], |rs| r.behind_count(rs)).1, None);
    let odd = [up, ("rev-list --count HEAD..@{u}", "1x")];
    assert_eq!(drive(&odd, |rs| r.behind_count(rs)).1, None);
    let (asked, b) = drive(&[("symbolic-ref --quiet --short HEAD", "\n")], |rs| {
        r.current_branch(rs)
    });
    assert_eq!((asked.len(), b), (1, None));
    assert_eq!(
        drive(&[("fetch --prune", "ok")], |rs| r.fetch(rs)).1.unwrap(),
        "ok"
    );
    let (asked, out) = drive(&[], |rs| r.pull_rebase(rs));
    assert!(matches!(out, Reply::Failed(_)));
    assert_eq!(asked.last().unwrap(), "rebase --abort");
    let (asked, _) = drive(&[], |rs| r.push(rs));
    assert_eq!(asked, vec!["symbolic-ref --quiet --short HEAD", "push"]);
}

#[test]
fn contents_are_shown_or_not() {
    let r = repo();
    assert_eq!(r.working_content("é".as_bytes().to_vec()).unwrap(), "é");
    assert_eq!(
        r.working_content(vec![97, 0]).unwrap_err(),
        ContentError::Binary
    );
    assert_eq!(
        r.working_content(vec![0xff]).unwrap_err(),
        ContentError::NotUtf8
    );
    let (asked, base) = drive(&[], |rs| r.base_content("a", rs));
    assert_eq!(asked, vec!["show :a", "show HEAD:a"]);
    assert_eq!(base.unwrap(), "", "a file without a base is new");
    let (asked, base) = drive(&[("show :a", "staged")], |rs| r.base_content("a", rs));
    assert_eq!((asked.len(), base.unwrap().as_str()), (1, "staged"));
    let (asked, _) = drive(&[], |rs| r.committed_content("x", "a", rs));
    assert_eq!(asked, vec!["show x:a"]);
    assert!(r.rename("a", "b", true).is_none());
    let m = r.rename("a", "b", false).unwrap();
    assert_eq!((m.from.as_str(), m.to.as_str()), ("/w/a", "/w/b"));
}

#[test]
fn searches_are_capped() {
    match repo().grep("needle", None) {
        Step::Run(c) => assert_eq!(
            c.args.join(" "),
            "grep --no-color -F -n -I -i -m 50 --untracked -e needle"
        ),
        other => panic!("{other:?}"),
    }
    match repo().grep("", None) {
        Step::Done(hits) => assert!(hits.is_empty()),
        other => panic!("{other:?}"),
    }
    let hit = parse_hit("src/a.rs:12:  let x = 1; // a:b").unwrap();
    assert_eq!((hit.path.as_str(), hit.line), ("src/a.rs", 12));
    assert_eq!(hit.content.trim(), "let x = 1; // a:b");
    assert!(parse_hit("no line number").is_none());
    let lines: Vec<String> = (1..=600).map(|i| format!("f:{i}:x")).collect();
    assert_eq!(collect_hits(&lines).len(), 500);
    let mut hits = Vec::new();
    assert!(!add_hit(&mut hits, "not a hit"));
    assert!(hits.is_empty());
    assert!(!add_hit(&mut hits, "f:1:x"));
    assert_eq!(hits.len(), 1);
    match repo().grep("x", Some(&lines[..3].to_vec())) {
        Step::Done(hits) => assert_eq!(hits.len(), 3),
        other => panic!("{other:?}"),
    }
}

#[test]
fn replies_tell_what_failed() {
    let cmd = |stdin: Option<&str>| Cmd {
        dir: "/w".to_string(),
        args: vec!["push".to_string(), "a\"b".to_string()],
        stdin: stdin.map(|s| s.to_string()),
    };
    match git(&cmd(None), true, b"ok \xff", b"") {
        Reply::Out(s) => assert_eq!(s, "ok \u{fffd}"),
        other => panic!("{other:?}"),
    }
    match git(&cmd(None), false, b"", b"denied") {
        Reply::Failed(s) => assert_eq!(s, "git [\"push\", \"a\\\"b\"] failed: denied"),
        other => panic!("{other:?}"),
    }
    match git_not_run(&cmd(None)) {
        Reply::Failed(s) => assert!(s.starts_with("running git [\"push\"")),
        other => panic!("{other:?}"),
    }
    match git_not_run(&cmd(Some("x"))) {
        Reply::Failed(s) => assert!(s.starts_with("spawning git [\"push\"")),
        other => panic!("{other:?}"),
    }
    assert!(is_rejection("x non-fast-forward y"));
    assert!(!is_rejection("x"));
}
