use kyde::highlight::{
    capture_color, capture_names, fold_regions, highlight, is_foldable, pack, packs,
    regions_of_nodes, spans_of_events, HlEvent, Lang, SynColor, SyntaxNode,
};
use std::collections::HashSet;

#[test]
fn typescript_highlights_with_real_colors() {
    let src = "function hello() {\n  const msg = \"hi\";\n  return 42;\n}\n";
    for lang in [Lang::Tsx, Lang::Ts] {
        let distinct: HashSet<SynColor> = highlight(src, lang).iter().map(|s| s.color).collect();
        assert!(
            distinct.len() >= 3,
            "{lang:?} highlighting collapsed to {} color(s) — JS base query missing?",
            distinct.len()
        );
    }
}

#[test]
fn highlights_rust_keyword() {
    let spans = highlight("fn main() {}", Lang::Rust);
    assert!(!spans.is_empty());
    // first span should cover "fn" and be the keyword color
    assert_eq!(spans[0].start, 0);
    assert_eq!(spans[0].end, 2);
    assert_eq!(spans[0].color, SynColor::Keyword);
}

#[test]
fn plain_text_has_no_spans() {
    assert!(highlight("hello", Lang::PlainText).is_empty());
}

#[test]
fn detects_filename_types() {
    assert_eq!(Lang::from_path(".gitignore"), Lang::Gitignore);
    assert_eq!(Lang::from_path(".env"), Lang::Env);
    assert_eq!(Lang::from_path(".env.local"), Lang::Env);
    assert_eq!(Lang::from_path("a/b/styles.scss"), Lang::Scss);
    assert_eq!(Lang::from_path("ci/config.yml"), Lang::Yaml);
    assert_eq!(Lang::from_path("docker-compose.yaml"), Lang::Yaml);
    assert_eq!(Lang::from_path("README.md"), Lang::Markdown);
    assert_eq!(Lang::from_path("deploy.sh"), Lang::Bash);
    assert_eq!(Lang::from_path("analysis.R"), Lang::R);
    assert_eq!(Lang::from_path("model.r"), Lang::R);
    assert_eq!(Lang::from_path("paper.tex"), Lang::Latex);
    assert_eq!(Lang::from_path("x.unknown"), Lang::PlainText);
}

#[test]
fn every_lang_with_a_pack_actually_highlights() {
    // Each installable language must produce spans (grammar wired correctly).
    let cases = [
        ("{\"a\":1}", Lang::Json),
        ("const x: number = 1;", Lang::Ts),
        ("const x = <div/>;", Lang::Tsx),
        ("# Title\n\ntext", Lang::Markdown),
        ("echo $HOME # hi", Lang::Bash),
        ("a { color: red; }", Lang::Css),
        ("$c: red;\na { color: $c; }", Lang::Scss),
        ("name: kyde\nversion: 1\n", Lang::Yaml),
        ("[package]\nname = \"x\"\n", Lang::Toml),
        ("def f(x):\n    return x\n", Lang::Python),
        ("<div class=\"a\">hi</div>", Lang::Html),
        ("package main\nfunc main() {}\n", Lang::Go),
        ("x <- 1  # comment\nf <- function(y) y + 1\n", Lang::R),
        ("\\section{Hi}  % comment\n\\ref{fig:1}\n", Lang::Latex),
    ];
    for (src, lang) in cases {
        assert!(!highlight(src, lang).is_empty(), "no spans for {lang:?}");
    }
}

#[test]
fn folds_json_object_and_array() {
    // {                ← line 0, foldable through line 4
    //   "a": 1,        ← line 1
    //   "b": [         ← line 2, foldable through line 3 (the array)
    //     2
    //   ]
    // }
    let src = "{\n  \"a\": 1,\n  \"b\": [\n    2\n  ]\n}";
    let regions = fold_regions(src, Lang::Json);
    assert!(
        regions.iter().any(|&(s, e)| s == 0 && e == 5),
        "top object: {regions:?}"
    );
    assert!(
        regions.iter().any(|&(s, _)| s == 2),
        "inner array start: {regions:?}"
    );
    // single-line / leaf nodes never fold
    assert!(fold_regions("{\"a\":1}", Lang::Json)
        .iter()
        .all(|&(s, e)| e > s));
    // no grammar → no folds
    assert!(fold_regions("a\nb\n", Lang::PlainText).is_empty());
}

#[test]
fn builtin_env_and_gitignore() {
    let env = highlight("# comment\nKEY=value\n", Lang::Env);
    assert!(env.len() >= 3, "env: comment + key + op + value");
    let ignore = highlight("# rule\nnode_modules\n", Lang::Gitignore);
    assert_eq!(ignore.len(), 1, "only the comment line is colored");
}

#[test]
fn plaintext_has_no_pack_but_known_langs_do() {
    assert!(Lang::PlainText.pack().is_none());
    assert_eq!(Lang::Ts.pack().unwrap().id, "typescript");
    assert_eq!(Lang::Tsx.pack().unwrap().id, "typescript");
    assert_eq!(Lang::Scss.pack().unwrap().id, "scss");
}

#[test]
fn perf_highlight_and_fold_large_file_stays_fast() {
    let unit = "fn f(x: i32) -> i32 {\n    let y = x + 1;\n    y * 2\n}\n";
    let src = unit.repeat(1000); // ~4000 lines of real Rust
    let start = std::time::Instant::now();
    let spans = highlight(&src, Lang::Rust);
    let folds = fold_regions(&src, Lang::Rust);
    let elapsed = start.elapsed();
    assert!(!spans.is_empty() && !folds.is_empty());
    assert!(
        elapsed < std::time::Duration::from_secs(2),
        "highlight+fold of ~4000 lines took {elapsed:?} (budget 2s) — perf regression?"
    );
}

#[test]
fn perf_highlight_large_package_lock_json_stays_fast() {
    // One dependency entry, repeated — mirrors npm lockfile shape & nesting.
    let entry = r#"    "node_modules/some-package-name": {
      "version": "1.2.3",
      "resolved": "https://registry.npmjs.org/some-package-name/-/some-package-name-1.2.3.tgz",
      "integrity": "sha512-AAAABBBBCCCCDDDDEEEEFFFFGGGGHHHHIIIIJJJJKKKKLLLLMMMMNNNNOOOOPPPP==",
      "dev": true,
      "dependencies": {
        "nested-dep": "^4.5.6",
        "another-dep": "~7.8.9"
      }
    },
"#;
    // ~1500 entries × ~10 lines ≈ 15k lines, a large-but-real lockfile.
    let src = format!("{{\n  \"packages\": {{\n{}  }}\n}}\n", entry.repeat(1500));
    let start = std::time::Instant::now();
    let spans = highlight(&src, Lang::Json);
    let folds = fold_regions(&src, Lang::Json);
    let elapsed = start.elapsed();
    assert!(!spans.is_empty() && !folds.is_empty());
    assert!(
        elapsed < std::time::Duration::from_secs(3),
        "highlight+fold of ~15k-line package-lock.json took {elapsed:?} (budget 3s) — perf regression?"
    );
}

#[test]
fn env_lines_are_colored_by_part() {
    let spans = highlight("A=b\n  # c\nplain\n=\n", Lang::Env);
    let seen: Vec<(usize, usize, SynColor)> =
        spans.iter().map(|s| (s.start, s.end, s.color)).collect();
    assert_eq!(
        seen,
        vec![
            (0, 1, SynColor::Field),
            (1, 2, SynColor::Operator),
            (2, 3, SynColor::Str),
            (4, 9, SynColor::Comment),
            (16, 17, SynColor::Operator),
        ]
    );
}

#[test]
fn spans_follow_the_innermost_capture() {
    let keyword = capture_names()
        .iter()
        .position(|n| *n == "keyword")
        .unwrap();
    let string = capture_names().iter().position(|n| *n == "string").unwrap();
    let events = vec![
        HlEvent::Start(keyword),
        HlEvent::Source(0, 2),
        HlEvent::Start(string),
        HlEvent::Source(2, 5),
        HlEvent::End,
        HlEvent::Source(5, 6),
        HlEvent::End,
        HlEvent::Source(6, 9),
    ];
    let seen: Vec<(usize, usize, SynColor)> = spans_of_events(&events)
        .iter()
        .map(|s| (s.start, s.end, s.color))
        .collect();
    assert_eq!(
        seen,
        vec![
            (0, 2, SynColor::Keyword),
            (2, 5, SynColor::Str),
            (5, 6, SynColor::Keyword),
            (6, 9, SynColor::Text),
        ]
    );
}

#[test]
fn captures_have_colors() {
    assert_eq!(capture_color("keyword"), SynColor::Keyword);
    assert_eq!(capture_color("comment"), SynColor::Comment);
    assert_eq!(capture_color("constant.builtin"), SynColor::Number);
    assert_eq!(capture_color("tag"), SynColor::Function);
    assert_eq!(capture_color("no such capture"), SynColor::Identifier);
    assert!(capture_names().iter().all(|n| !n.is_empty()));
}

#[test]
fn packs_are_found_by_id() {
    for p in packs() {
        assert_eq!(pack(p.id).unwrap().name, p.name);
    }
    assert!(pack("no such pack").is_none());
    let ids: HashSet<&str> = packs().iter().map(|p| p.id).collect();
    assert_eq!(ids.len(), packs().len(), "ids are distinct");
}

#[test]
fn bracketed_nodes_and_blocks_fold() {
    let node = |rows: (usize, usize), byte: usize, kind: &str, children: usize| SyntaxNode {
        start_row: rows.0,
        end_row: rows.1,
        start_byte: byte,
        kind: kind.to_string(),
        child_count: children,
    };
    let src = b"{\n1\n}";
    assert!(is_foldable(&node((0, 2), 0, "x", 3), src), "a bracket");
    assert!(is_foldable(&node((0, 2), 2, "function_body", 1), src));
    assert!(!is_foldable(&node((0, 2), 2, "x", 3), src));
    assert!(!is_foldable(&node((0, 2), 0, "object", 0), src), "a leaf");
    let nodes = vec![
        node((0, 2), 0, "object", 3),
        node((0, 1), 0, "object", 3),
        node((1, 1), 0, "object", 3),
    ];
    let regions = regions_of_nodes(&nodes, src);
    assert_eq!(regions, vec![(0, 2)], "the longest region of a line");
}

#[test]
fn each_language_has_the_grammar_of_its_name() {
    // A statement of one language is highlighted by its own grammar and not by another's.
    let rust = highlight("fn f() { let x = 1; }", Lang::Rust);
    assert!(rust.iter().any(|s| s.color == SynColor::Keyword && s.end - s.start == 3));
    let js = highlight("const f = () => 1;", Lang::Js);
    assert!(js.iter().any(|s| s.color == SynColor::Keyword && (s.start, s.end) == (0, 5)));
    assert!(Lang::Gitignore.grammar().is_none());
    assert!(Lang::Rust.grammar().is_some());
    assert!(Lang::Json.config().is_some());
    assert!(Lang::PlainText.config().is_none());
}

#[test]
fn folds_stay_within_the_source() {
    for (src, lang) in [
        ("{\n  \"a\": [\n    1\n  ]\n}", Lang::Json),
        ("{\n  \"a\": [\n    1\n  ]\n}\n", Lang::Json),
        ("fn f() {\n    g(\n        1,\n    );\n}\n", Lang::Rust),
        ("a {\n  color: red;\n}\n", Lang::Css),
        ("# T\n\n- a\n- b\n", Lang::Markdown),
    ] {
        let lines = src.split('\n').count();
        for (start, end) in fold_regions(src, lang) {
            assert!(start < end && end < lines, "{lang:?}: {start}..{end} of {lines}");
        }
    }
    for (src, lang) in [("{\"a\":[1,2]}", Lang::Json), ("fn f() { g(1) }", Lang::Rust)] {
        assert!(fold_regions(src, lang).is_empty());
    }
}
