use kyde::diff::{
    advance, hunk_of_group, mark, word_ranges_of, FileDiff, HunkKind, LineOp, OpTag, WordChange, WordTag,
};

fn texts(items: &[&str]) -> Vec<String> {
    items.iter().map(|s| s.to_string()).collect()
}

#[test]
fn classifies_modify_add_delete_and_identical() {
    let modified = FileDiff::compute("a\nb\nc\n", "a\nB\nc\n");
    assert_eq!(modified.hunks.len(), 1);
    assert_eq!(modified.hunks[0].kind, HunkKind::Modified);
    assert_eq!(modified.hunks[0].old_range, 1..2);

    let added = FileDiff::compute("a\nc\n", "a\nb\nc\n");
    assert_eq!(added.hunks[0].kind, HunkKind::Added);
    // The insertion point on the OLD side must be where the new line lands (after "a"),
    // NOT 0 — otherwise the side-by-side rows misalign (old "a" pairs with new "c").
    assert_eq!(added.hunks[0].old_range, 1..1);
    assert_eq!(added.hunks[0].new_range, 1..2);

    // Same guard for a deletion: the NEW-side position must be the splice point.
    let del = FileDiff::compute("a\nb\nc\n", "a\nc\n");
    assert_eq!(del.hunks[0].kind, HunkKind::Deleted);
    assert_eq!(del.hunks[0].old_range, 1..2);
    assert_eq!(del.hunks[0].new_range, 1..1);

    let deleted = FileDiff::compute("a\nb\nc\n", "a\nc\n");
    assert_eq!(deleted.hunks[0].kind, HunkKind::Deleted);

    assert!(FileDiff::compute("a\nb\n", "a\nb\n").hunks.is_empty());
}

#[test]
fn word_ranges_mark_only_the_changed_word() {
    // Only "bravo"→"BRAVO" changed; the highlight range must cover just it.
    let d = FileDiff::compute("alpha bravo charlie\n", "alpha BRAVO charlie\n");
    let h = &d.hunks[0];
    assert!(
        !h.new_word_ranges.is_empty(),
        "expected an inline word range"
    );
    let (line, range) = h.new_word_ranges[0].clone();
    assert_eq!(line, 0);
    assert_eq!(&"alpha BRAVO charlie"[range], "BRAVO");
}

#[test]
fn perf_compute_large_diff_stays_fast() {
    let before: String = (0..4000).map(|i| format!("line {i}\n")).collect();
    let after: String = (0..4000)
        .map(|i| {
            if i % 10 == 0 {
                format!("LINE {i}\n")
            } else {
                format!("line {i}\n")
            }
        })
        .collect();
    let start = std::time::Instant::now();
    let d = FileDiff::compute(&before, &after);
    let elapsed = start.elapsed();
    assert!(!d.hunks.is_empty());
    assert!(
        elapsed < std::time::Duration::from_secs(2),
        "FileDiff::compute on 4000 lines took {elapsed:?} (budget 2s) — perf regression?"
    );
}

#[test]
fn sides_are_the_lines_without_endings() {
    let d = FileDiff::compute("a\nb", "a\n\nc\n");
    assert_eq!(d.old, texts(&["a", "b"]));
    assert_eq!(d.new, texts(&["a", "", "c", ""]));
    let empty = FileDiff::compute("", "x\n");
    assert_eq!(empty.old, texts(&[""]));
    assert_eq!(empty.hunks.len(), 1);
    assert_eq!(empty.hunks[0].kind, HunkKind::Added);
    assert_eq!(empty.hunks[0].old_range, 0..0);
    assert_eq!(empty.hunks[0].new_range, 0..1);
}

#[test]
fn hunks_apart_are_separate() {
    let d = FileDiff::compute("1\n2\n3\n4\n5\n", "one\n2\n3\n4\nfive\n");
    assert_eq!(d.hunks.len(), 2);
    assert_eq!(d.hunks[0].old_range, 0..1);
    assert_eq!(d.hunks[1].old_range, 4..5);
    assert_eq!(d.hunks[1].new_range, 4..5);
}

#[test]
fn a_group_of_operations_becomes_a_hunk() {
    let old = texts(&["a", "b"]);
    let new = texts(&["a", "x", "y"]);
    let op = |tag: OpTag, o: (usize, usize), n: (usize, usize)| LineOp {
        tag,
        old_start: o.0,
        old_end: o.1,
        new_start: n.0,
        new_end: n.1,
    };
    let group = vec![
        op(OpTag::Equal, (0, 1), (0, 1)),
        op(OpTag::Replace, (1, 2), (1, 3)),
    ];
    let h = hunk_of_group(&old, &new, &group, 0, 0).unwrap();
    assert_eq!(h.kind, HunkKind::Modified);
    assert_eq!(h.old_range, 1..2);
    assert_eq!(h.new_range, 1..3);
    let equal = vec![op(OpTag::Equal, (0, 1), (0, 1))];
    assert!(hunk_of_group(&old, &new, &equal, 0, 0).is_none());
    // The empty side of an insertion goes as far behind the hunk before as the other side.
    let added = vec![op(OpTag::Insert, (0, 0), (2, 3))];
    let h = hunk_of_group(&old, &new, &added, 1, 1).unwrap();
    assert_eq!(h.kind, HunkKind::Added);
    assert_eq!(h.old_range, 2..2);
    assert_eq!(h.new_range, 2..3);
}

#[test]
fn changed_words_are_counted_in_bytes_of_their_line() {
    let w = |tag: WordTag, text: &str| WordChange {
        tag,
        text: text.to_string(),
    };
    let changes = vec![
        w(WordTag::Equal, "é "),
        w(WordTag::Delete, "b"),
        w(WordTag::Insert, "cc"),
        w(WordTag::Equal, "\n"),
        w(WordTag::Insert, "d"),
    ];
    let (old, new) = word_ranges_of(&changes, 4, 7);
    assert_eq!(old, vec![(4, 3..4)]);
    assert_eq!(new, vec![(7, 3..5), (8, 0..1)]);
}

/// What every diff promises: hunks in order, at least a line apart, with equal lines between
/// them, whose replacement turns either side into the other.
fn check_diff(before: &str, after: &str) {
    let d = FileDiff::compute(before, after);
    assert_eq!(d.old.join("\n"), before);
    assert_eq!(d.new.join("\n"), after);
    assert_eq!(d.hunks.is_empty(), before == after);
    let (mut o, mut n) = (0, 0);
    for (i, h) in d.hunks.iter().enumerate() {
        let case = format!("{before:?} to {after:?}: {h:?}");
        assert_eq!(h.kind == HunkKind::Added, h.old_range.is_empty(), "{case}");
        assert_eq!(h.kind == HunkKind::Deleted, h.new_range.is_empty(), "{case}");
        assert_eq!(h.old_range.start - o, h.new_range.start - n, "{case}");
        assert!(i == 0 || h.old_range.start > o, "{case}");
        assert_eq!(d.old[o..h.old_range.start], d.new[n..h.new_range.start], "{case}");
        (o, n) = (h.old_range.end, h.new_range.end);
    }
    assert_eq!(d.old[o..], d.new[n..], "{before:?} to {after:?}");
    let (mut old, mut new) = (d.old.clone(), d.new.clone());
    for h in d.hunks.iter().rev() {
        old.splice(h.old_range.clone(), d.new[h.new_range.clone()].to_vec());
        new.splice(h.new_range.clone(), d.old[h.old_range.clone()].to_vec());
    }
    assert_eq!(old, d.new);
    assert_eq!(new, d.old);
}

#[test]
fn hunks_turn_either_side_into_the_other() {
    let mut all = vec![String::new()];
    let mut from = 0;
    for _ in 0..4 {
        let till = all.len();
        for i in from..till {
            for line in ["a", "b", "c"] {
                let sep = if all[i].is_empty() { "" } else { "\n" };
                let longer = format!("{}{sep}{line}", all[i]);
                all.push(longer);
            }
        }
        from = till;
    }
    for before in &all {
        for after in &all {
            check_diff(before, after);
        }
    }
}

#[test]
fn long_sides_stay_aligned() {
    let mut seed: u32 = 7;
    let mut next = |n: u32| {
        seed = seed.wrapping_mul(1664525).wrapping_add(1013904223);
        (seed >> 16) % n
    };
    for _ in 0..200 {
        let size = 5 + next(120);
        let lines: Vec<String> = (0..size).map(|_| format!("{}", next(4))).collect();
        let mut edited = lines.clone();
        for _ in 0..next(9) {
            let at = next(edited.len() as u32 + 1) as usize;
            if next(2) == 0 && at < edited.len() {
                edited.remove(at);
            } else {
                edited.insert(at, format!("{}", next(4)));
            }
        }
        check_diff(&lines.join("\n"), &edited.join("\n"));
    }
}

#[test]
fn marks_leave_what_both_sides_have() {
    let d = FileDiff::compute("let a = one(two);\nx y\n", "let b = one(three, two);\nx z y\n");
    for h in &d.hunks {
        let rest = |lines: &[String], marks: &Vec<(usize, std::ops::Range<usize>)>| {
            let mut lines = lines.to_vec();
            for (line, range) in marks.iter().rev() {
                lines[*line].replace_range(range.clone(), "");
            }
            lines
        };
        let old = rest(&d.old, &h.old_word_ranges)[h.old_range.clone()].concat();
        let new = rest(&d.new, &h.new_word_ranges)[h.new_range.clone()].concat();
        assert_eq!(old, new);
        for w in h.new_word_ranges.windows(2) {
            assert!(w[0].0 < w[1].0 || w[0].1.end <= w[1].1.start);
        }
    }
    assert!(d.hunks.iter().any(|h| !h.new_word_ranges.is_empty()));
}

#[test]
fn a_copied_diff_is_the_same() {
    let d = FileDiff::compute("a\nb c\n", "a\nb d\nx\n");
    let e = d.clone();
    assert_eq!((&e.old, &e.new, e.hunks.len()), (&d.old, &d.new, d.hunks.len()));
    assert_eq!(e.hunks[0].old_range, d.hunks[0].old_range);
    assert_eq!(e.hunks[0].new_word_ranges, d.hunks[0].new_word_ranges);
}

#[test]
fn marking_goes_where_walking_goes() {
    for text in ["", "a", "ab\ncd", "\n", "é\n\nx\n", "one two"] {
        let (mut line, mut col) = (3, 5);
        advance(text, &mut line, &mut col);
        let (mut l, mut c) = (3, 5);
        let mut out = vec![(1, 0..2)];
        mark(text, &mut l, &mut c, &mut out);
        assert_eq!((l, c), (line, col));
        assert_eq!(out[0], (1, 0..2));
        let marked: usize = out[1..].iter().map(|(_, r)| r.len()).sum();
        assert_eq!(marked, text.len() - text.matches('\n').count());
        assert!(out[1..].iter().all(|(_, r)| !r.is_empty()));
    }
    let (mut l, mut c) = (3, 5);
    let mut out = Vec::new();
    mark("ab\n\ncd", &mut l, &mut c, &mut out);
    assert_eq!(out, vec![(3, 5..7), (5, 0..2)]);
}
