use fuzzy_matcher::skim::SkimMatcherV2;
use fuzzy_matcher::FuzzyMatcher;
use kyde::editor::CodeEditor;
use kyde::find::{find_matches, line_marks, range_of_line, FindBar};
use kyde::finder::{
    find_actions, find_files, placeholder, rank_scores, Choice, Finder, FinderMode, PaletteAction, PaletteEntry,
    Sources,
};
use kyde::git::GrepHit;
use kyde::highlight::Lang;

fn texts(items: &[&str]) -> Vec<String> {
    items.iter().map(|s| s.to_string()).collect()
}

fn sources() -> Sources {
    Sources {
        files: texts(&["src/main.rs", "README.md", "src/app.rs"]),
        palette: vec![
            PaletteEntry {
                label: "Go to File".to_string(),
                action: PaletteAction::GoToFile,
            },
            PaletteEntry {
                label: "Reveal in Finder".to_string(),
                action: PaletteAction::RevealInFinder,
            },
        ],
        scratch_labels: texts(&["Rust", "Python"]),
        have_file: false,
    }
}

fn hit(path: &str, line: u32) -> GrepHit {
    GrepHit {
        path: path.to_string(),
        line,
        content: "x".to_string(),
    }
}

#[test]
fn files_are_matched_by_letters_in_order() {
    let files = sources().files;
    assert_eq!(find_files(&files, "app"), texts(&["src/app.rs"]));
    assert_eq!(find_files(&files, "readme"), texts(&["README.md"]));
    // A letter of upper case asks for just that.
    assert!(find_files(&files, "Readme").is_empty());
    assert_eq!(find_files(&files, "").len(), 3);
    assert!(find_files(&files, "zzz").is_empty());
    // The better match comes first.
    let near = texts(&["m_a_i_n", "main"]);
    assert_eq!(find_files(&near, "main")[0], "main");
    let many: Vec<String> = (0..500).map(|i| format!("f{i}")).collect();
    assert!(find_files(&many, "f").len() < 500, "results are capped");
}

#[test]
fn actions_that_need_a_file_are_left_out_without_one() {
    let s = sources();
    assert_eq!(find_actions(&s.palette, false, ""), vec![0]);
    assert_eq!(find_actions(&s.palette, true, "").len(), 2);
    assert_eq!(find_actions(&s.palette, true, "reveal"), vec![1]);
}

#[test]
fn an_entry_is_chosen() {
    let s = sources();
    let mut f = Finder::new();
    f.open_finder(FinderMode::Files);
    f.recompute_finder("rs", &s, Vec::new());
    assert_eq!(f.files.len(), 2);
    f.finder_down();
    f.finder_down();
    assert_eq!(f.selected, 1);
    f.finder_up();
    f.finder_up();
    assert_eq!(f.selected, 0);
    let first = f.files[0].clone();
    assert!(matches!(f.finder_confirm(&s), Choice::File(p) if p == first));
    assert!(!f.open);

    f.open_finder(FinderMode::Actions);
    f.recompute_finder("go", &s, Vec::new());
    assert!(matches!(
        f.finder_confirm(&s),
        Choice::Action(PaletteAction::GoToFile)
    ));
    f.open_finder(FinderMode::Scratch);
    f.recompute_finder("py", &s, Vec::new());
    assert!(matches!(f.finder_confirm(&s), Choice::Scratch(1)));
    f.open_finder(FinderMode::Content);
    f.recompute_finder("x", &s, vec![hit("a", 3)]);
    assert!(
        matches!(f.finder_confirm(&s), Choice::Line { path, line } if path == "a" && line == 3)
    );
    f.recompute_finder("", &s, vec![hit("a", 3)]);
    assert!(matches!(f.finder_confirm(&s), Choice::Nothing));
    f.finder_close();
    assert!(!placeholder(FinderMode::Files).is_empty());
}

#[test]
fn only_the_latest_search_counts() {
    let mut f = Finder::new();
    f.open_finder(FinderMode::Content);
    assert!(f.schedule_content_search(" a ", true).is_none());
    let (q, first) = f.schedule_content_search(" ab ", true).unwrap();
    assert_eq!(q, "ab");
    let (_, second) = f.schedule_content_search("abc", true).unwrap();
    assert!(!f.content_found(first, vec![hit("old", 1)]));
    assert!(f.content_found(second, vec![hit("new", 1)]));
    assert_eq!(f.content[0].path, "new");
    assert!(f.schedule_content_search("abc", false).is_none());
    let (_, third) = f.schedule_content_search("abcd", true).unwrap();
    f.finder_close();
    assert!(!f.content_found(third, Vec::new()), "the finder is closed");
}

#[test]
fn matches_ignore_the_case_of_ascii() {
    assert_eq!(find_matches("aAbaa", "aa"), vec![(0, 2), (3, 5)]);
    assert_eq!(find_matches("aaa", "aa"), vec![(0, 2)]);
    assert!(find_matches("abc", "").is_empty());
    assert!(find_matches("abc", "x").is_empty());
    let content = "one\ntwo one";
    let marks = line_marks(content, &find_matches(content, "one"));
    assert_eq!((marks[0].line, marks[0].start, marks[0].end), (0, 0, 3));
    assert_eq!((marks[1].line, marks[1].start, marks[1].end), (1, 4, 7));
    let across = line_marks("ab\ncd", &find_matches("ab\ncd", "b\nc"));
    assert_eq!((across[0].line, across[0].start, across[0].end), (0, 1, 2));
}

#[test]
fn a_line_has_its_bytes() {
    assert_eq!(range_of_line("ab\ncd\n", 2), (3, 5));
    assert_eq!(range_of_line("ab\ncd\n", 0), (0, 2));
    assert_eq!(range_of_line("ab\ncd\n", 3), (6, 6));
    assert_eq!(range_of_line("ab", 9), (2, 2));
}

#[test]
fn the_find_bar_goes_round() {
    let mut bar = FindBar::new();
    assert!(!bar.open_find(false, false, true));
    assert!(bar.open_find(true, true, true));
    bar.recompute_find("a", "a b a");
    assert_eq!(bar.current(), Some((0, 1)));
    assert_eq!(bar.find_next(), Some((4, 5)));
    assert_eq!(bar.find_next(), Some((0, 1)));
    assert_eq!(bar.find_prev(), Some((4, 5)));
    bar.recompute_find("b", "a b a");
    assert_eq!(bar.idx, 0);
    bar.close_find();
    assert_eq!(bar.find_next(), None);
    assert_eq!(bar.find_prev(), None);
}

#[test]
fn matches_are_replaced() {
    let mut ed = CodeEditor::new("cat Cat cat".to_string(), Lang::PlainText, "");
    let mut bar = FindBar::new();
    bar.recompute_find("cat", ed.text());
    assert!(bar.replace_one(&mut ed, "cat", "dog"));
    assert_eq!(ed.text(), "dog Cat cat");
    assert_eq!(bar.matches.len(), 2);
    bar.replace_all(&mut ed, "cat", "bee");
    assert_eq!(ed.text(), "dog bee bee");
    assert!(bar.matches.is_empty());
    assert!(!bar.replace_one(&mut ed, "cat", "x"));
    ed.undo();
    assert_eq!(ed.text(), "dog Cat bee");
}

#[test]
fn one_matcher_looks_at_all_files() {
    let mut seed: u32 = 3;
    let mut next = |n: u32| {
        seed = seed.wrapping_mul(1664525).wrapping_add(1013904223);
        (seed >> 16) % n
    };
    let mut word = |len: u32| -> String {
        (0..len)
            .map(|_| ["a", "b", "A", "_", "/"][next(5) as usize])
            .collect()
    };
    let mut apart = 0;
    for round in 0..200 {
        let files: Vec<String> = (0..30).map(|i| word(3 + (i * 7 + round) % 12)).collect();
        for q in ["a", "aa", "aab", "abba", "Ab"] {
            let order = |scores: Vec<Option<i64>>| -> Vec<String> {
                let mut scored: Vec<(i64, &String)> = scores
                    .iter()
                    .zip(&files)
                    .filter_map(|(s, f)| s.map(|s| (s, f)))
                    .collect();
                scored.sort_by_key(|x| std::cmp::Reverse(x.0));
                scored.into_iter().map(|(_, f)| f.clone()).collect()
            };
            let matcher = SkimMatcherV2::default();
            let shared = order(files.iter().map(|f| matcher.fuzzy_match(f, q)).collect());
            assert_eq!(find_files(&files, q), shared, "{q} in {files:?}");
            let alone = order(
                files
                    .iter()
                    .map(|f| SkimMatcherV2::default().fuzzy_match(f, q))
                    .collect(),
            );
            apart += usize::from(alone != shared);
        }
    }
    assert!(apart > 0, "what the matcher keeps never mattered");
}

#[test]
fn scores_are_ranked() {
    let ranked = |scores: &[Option<i64>]| {
        let positions: Vec<usize> = (0..scores.len()).map(|i| 2 * i).collect();
        rank_scores(&positions, &scores.to_vec())
    };
    assert_eq!(ranked(&[Some(1), None, Some(5), Some(1)]), vec![4, 0, 6]);
    assert_eq!(ranked(&[None, None]), Vec::<usize>::new());
    assert_eq!(ranked(&[Some(-3), Some(0)]), vec![2, 0]);
}

#[test]
fn replacing_leaves_the_rest_of_the_editor() {
    let mut ed = CodeEditor::new(String::new(), Lang::PlainText, "");
    ed.set_content("x a x a x\n".to_string(), Lang::Rust);
    ed.soft_wrap = true;
    let mut bar = FindBar::new();
    bar.open_find(true, true, true);
    bar.recompute_find("x", &ed.content);
    assert!(bar.replace_one(&mut ed, "x", "yy"));
    assert_eq!(ed.content, "yy a x a x\n");
    assert!(ed.soft_wrap && ed.lang == Lang::Rust && ed.dirty);
    bar.replace_all(&mut ed, "x", "z");
    assert_eq!(ed.content, "yy a z a z\n");
    assert!(ed.soft_wrap && ed.lang == Lang::Rust);
    assert!(bar.matches.is_empty() && bar.open && bar.replace);
}
