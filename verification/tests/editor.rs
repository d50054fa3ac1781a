use kyde::buffer::{line_byte_start, line_of_offset};
use kyde::editor::{run_job, CodeEditor, EditKind};
use kyde::folds::{caret_after_fold, is_hidden, visible_line_indices};
use kyde::highlight::{Lang, Span, SynColor};
use kyde::layout::{
    find_row, gutter_line, layout_rows, locate_in, number_digits, offset_for_row, placeholder_rows,
    reveal_row, row_count, selection_rows, vertical_move, vertical_step, wrap_take, Wrap, FILLER,
};
use kyde::runs::line_runs;
use std::collections::{HashMap, HashSet};

fn set(items: &[usize]) -> HashSet<usize> {
    items.iter().copied().collect()
}

fn plain(text: &str) -> CodeEditor {
    CodeEditor::new(text.to_string(), Lang::PlainText, "")
}

#[test]
fn double_click_selects_word() {
    let mut ed = plain("foo bar_baz qux");
    // Offset 6 is inside "bar_baz" (chars 4..11).
    ed.select_word_at(6);
    assert_eq!(&ed.content[ed.selected_range.clone()], "bar_baz");
}

#[test]
fn double_click_beside_a_word_leaves_a_caret() {
    let mut ed = plain("foo bar_baz qux");
    // Byte 3 is a space, though a word ends right before it.
    ed.select_word_at(3);
    assert_eq!(ed.selected_range, 3..3);
    ed.select_word_at(0);
    assert_eq!(ed.selected_range, 0..3);
    ed.select_word_at(15);
    assert_eq!(ed.selected_range, 15..15);
    ed.select_word_at(99);
    assert_eq!(ed.selected_range, 15..15);
    ed.press_at(11, 2, false);
    assert_eq!(ed.selected_range, 11..11);
    ed.press_at(12, 2, false);
    assert_eq!(ed.selected_range, 12..15);
}

#[test]
fn click_below_last_line_snaps_to_end_of_content() {
    let ed = plain("a\nbb\nccc");
    let starts = vec![0, 2, 5];
    // Click far below the 3 lines of text.
    let off = offset_for_row(ed.text(), &starts, 22, 7);
    assert_eq!(
        off,
        ed.content.len(),
        "caret should land at end of last line"
    );
}

#[test]
fn perf_line_runs_sublinear_in_total_spans() {
    // ~200k spans, 3 per "line", lines ~30 bytes apart.
    let spans: Vec<Span> = (0..200_000)
        .map(|i| Span {
            start: i * 10,
            end: i * 10 + 6,
            color: SynColor::Keyword,
        })
        .collect();
    let total = spans.last().map(|s| s.end).unwrap_or(0);
    let line = "x".repeat(30);
    let start = std::time::Instant::now();
    // 60 visible lines near the end, 200 frames.
    for _ in 0..200 {
        for row in 0..60 {
            let ls = total.saturating_sub((60 - row) * 30);
            let _ = line_runs(&line, ls, &spans, SynColor::Text);
        }
    }
    let elapsed = start.elapsed();
    assert!(
        elapsed < std::time::Duration::from_secs(2),
        "line_runs scanned linearly? {elapsed:?} for 200 frames × 60 rows over 200k spans"
    );
}

#[test]
fn hidden_lines_inside_a_fold() {
    // 6 lines; fold region 0..=4 collapsed. Lines 1-4 hide; 0 and 5 stay.
    let foldable = [(0usize, 4usize)];
    let folded = set(&[0]);
    assert!(!is_hidden(&folded, &foldable, 0)); // the start line is visible
    for l in 1..=4 {
        assert!(is_hidden(&folded, &foldable, l), "line {l} should hide");
    }
    assert!(!is_hidden(&folded, &foldable, 5));
    // Not folded → nothing hidden.
    assert!(!is_hidden(&HashSet::new(), &foldable, 3));
}

#[test]
fn visible_indices_skip_folded_body() {
    let content = "a\nb\nc\nd\ne\nf"; // 6 lines (0..5)
    let foldable = [(0usize, 4usize)];
    assert_eq!(
        visible_line_indices(content, &set(&[0]), &foldable),
        vec![0, 5]
    );
    // Unfolded → all lines.
    assert_eq!(
        visible_line_indices(content, &HashSet::new(), &foldable),
        vec![0, 1, 2, 3, 4, 5]
    );
}

#[test]
fn nested_folds_both_collapse() {
    // outer 0..=5, inner 2..=4. Both folded → 1,2,3,4,5 hidden (outer wins),
    // line 0 and 6 visible.
    let foldable = [(0usize, 5usize), (2usize, 4usize)];
    let folded = set(&[0, 2]);
    assert_eq!(
        visible_line_indices("0\n1\n2\n3\n4\n5\n6", &folded, &foldable),
        vec![0, 6]
    );
}

#[test]
fn caret_pulled_out_of_a_collapsed_region() {
    // content: line starts at 0,2,4,6,8,10 (each "x\n"); fold 0..=4 folded.
    let content = "a\nb\nc\nd\ne\nf";
    let foldable = [(0usize, 4usize)];
    let folded = set(&[0]);
    // caret on line 3 (byte 6) is hidden → should move to end of line 0 (byte 1).
    assert_eq!(caret_after_fold(content, &folded, &foldable, 6), Some(1));
    // caret already on the visible start line → no move.
    assert_eq!(caret_after_fold(content, &folded, &foldable, 0), None);
    // caret on visible line 5 → no move.
    assert_eq!(caret_after_fold(content, &folded, &foldable, 10), None);
    // nothing folded → never moves.
    assert_eq!(
        caret_after_fold(content, &HashSet::new(), &foldable, 6),
        None
    );
}

#[test]
fn caret_goes_to_a_visible_line() {
    // Nested regions, and regions that meet on a line: the caret ends where it is seen.
    let content = "a\nb\nc\nd\ne\nf";
    let nested = [(0usize, 5usize), (2usize, 4usize)];
    assert_eq!(
        caret_after_fold(content, &set(&[0, 2]), &nested, 6),
        Some(1)
    );
    let meeting = [(0usize, 2usize), (2usize, 4usize)];
    assert_eq!(
        caret_after_fold(content, &set(&[0, 2]), &meeting, 6),
        Some(1)
    );
    assert_eq!(caret_after_fold(content, &set(&[2]), &meeting, 6), Some(5));
}

#[test]
fn line_offset_round_trips() {
    let content = "alpha\nbeta\ngamma";
    assert_eq!(line_of_offset(content, 0), 0);
    assert_eq!(line_of_offset(content, 5), 0); // end of "alpha"
    assert_eq!(line_of_offset(content, 6), 1); // start of "beta"
    assert_eq!(line_of_offset(content, 11), 2);
    assert_eq!(line_byte_start(content, 1), 6);
    assert_eq!(line_byte_start(content, 2), 11);
}

#[test]
fn utf16_offsets_round_trip_through_multibyte() {
    let ed = plain("aé😀b");
    // (byte offset, UTF-16 offset) at each char boundary, including end.
    for (u8o, u16o) in [(0, 0), (1, 1), (3, 2), (7, 4), (8, 5)] {
        assert_eq!(ed.off_to_utf16(u8o), u16o, "byte {u8o} → utf16");
        assert_eq!(ed.off_from_utf16(u16o), u8o, "utf16 {u16o} → byte");
    }
}

#[test]
fn replace_range_text_replaces_and_positions_caret() {
    let mut ed = plain("hello world");
    ed.replace_range_text(6..11, "there"); // "world" → "there"
    assert_eq!(ed.text(), "hello there");
    assert_eq!(ed.selected_range, 11..11);
    assert!(ed.dirty);
}

#[test]
fn replace_range_text_clamps_out_of_bounds() {
    let mut ed = plain("abc");
    ed.replace_range_text(2..999, "X"); // end past len → clamps to 3
    assert_eq!(ed.text(), "abX");
}

#[test]
fn read_only_rejects_edits() {
    let mut ed = CodeEditor::read_only("frozen".to_string(), Lang::PlainText);
    ed.replace_range_text(0..6, "changed");
    assert_eq!(ed.text(), "frozen");
    assert!(!ed.dirty);
}

#[test]
fn typing_coalesces_into_one_undo_step() {
    let mut ed = plain("");
    for ch in ["h", "i"] {
        ed.replace_text_in_range(None, ch);
    }
    assert_eq!(ed.text(), "hi");
    ed.undo();
    assert_eq!(ed.text(), "", "one undo wipes the coalesced typing run");
    ed.redo();
    assert_eq!(ed.text(), "hi");
}

#[test]
fn backspace_deletes_previous_char() {
    let mut ed = plain("abc");
    ed.selected_range = 3..3; // caret at end
    ed.backspace();
    assert_eq!(ed.text(), "ab");
    assert_eq!(ed.selected_range, 2..2);
}

#[test]
fn enter_inserts_newline_at_caret() {
    let mut ed = plain("ab");
    ed.selected_range = 1..1; // between 'a' and 'b'
    ed.enter();
    assert_eq!(ed.text(), "a\nb");
}

#[test]
fn moves_go_by_grapheme() {
    // A flag is one grapheme of two characters, eight bytes.
    let mut ed = plain("a🇩🇪b");
    ed.move_to(9);
    ed.left();
    assert_eq!(ed.cursor(), 1);
    ed.right();
    assert_eq!(ed.cursor(), 9);
    ed.backspace();
    assert_eq!(ed.text(), "ab");
    assert_eq!(ed.cursor(), 1);
    ed.delete();
    assert_eq!(ed.text(), "a");
}

#[test]
fn a_selection_is_left_by_its_ends() {
    let mut ed = plain("hello");
    ed.select_range(1..4);
    ed.left();
    assert_eq!(ed.selected_range, 1..1);
    ed.select_range(1..4);
    ed.right();
    assert_eq!(ed.selected_range, 4..4);
    ed.select_left();
    assert_eq!((ed.selected_range.clone(), ed.selection_reversed), (3..4, true));
    ed.select_right();
    ed.select_right();
    assert_eq!((ed.selected_range.clone(), ed.selection_reversed), (4..5, false));
    ed.select_all();
    assert_eq!(ed.selected_range, 0..5);
}

#[test]
fn home_and_end_stay_on_the_line() {
    let mut ed = plain("one\ntwo three\nfour");
    ed.move_to(8);
    ed.home();
    assert_eq!(ed.cursor(), 4);
    ed.end();
    assert_eq!(ed.cursor(), 13);
    ed.delete_to_home();
    assert_eq!(ed.text(), "one\n\nfour");
    // At the start of a line there is nothing left to delete.
    ed.delete_to_home();
    assert_eq!(ed.text(), "one\n\nfour");
}

#[test]
fn undo_takes_back_one_step_and_redo_brings_it_again() {
    let mut ed = plain("x");
    ed.move_to(1);
    ed.replace_text_in_range(None, "y");
    ed.enter();
    ed.replace_text_in_range(None, "z");
    assert_eq!(ed.text(), "xy\nz");
    let steps = ed.undo_stack.len();
    ed.undo();
    assert_eq!(ed.redo_stack.len(), 1);
    assert_eq!(ed.undo_stack.len(), steps - 1);
    assert_eq!(ed.text(), "xy\n");
    ed.redo();
    assert_eq!(ed.text(), "xy\nz");
    ed.undo();
    ed.undo();
    ed.undo();
    assert_eq!(ed.text(), "x");
    ed.undo();
    assert_eq!(ed.text(), "x", "nothing is left to undo");
    assert!(ed.last_edit == EditKind::Other);
}

#[test]
fn lines_are_shifted_together() {
    let mut ed = plain("a\n\n  b\n");
    ed.select_range(0..6);
    ed.indent();
    assert_eq!(ed.text(), "  a\n  \n    b\n");
    assert_eq!(ed.selected_range, 0..12);
    ed.outdent();
    assert_eq!(ed.text(), "a\n\n  b\n");
    ed.outdent();
    assert_eq!(ed.text(), "a\n\nb\n");
    ed.move_to(1);
    ed.indent();
    assert_eq!(ed.text(), "a  \n\nb\n");
}

#[test]
fn cut_copy_and_paste() {
    let mut ed = plain("hello world");
    assert_eq!(ed.copy(), None);
    ed.select_range(0..5);
    assert_eq!(ed.copy().unwrap(), "hello");
    assert_eq!(ed.cut().unwrap(), "hello");
    assert_eq!(ed.text(), " world");
    ed.paste("bye");
    assert_eq!(ed.text(), "bye world");
    let mut fixed = CodeEditor::read_only("abc".to_string(), Lang::PlainText);
    fixed.select_range(0..2);
    assert_eq!(fixed.copy().unwrap(), "ab");
    fixed.paste("x");
    assert_eq!(fixed.text(), "abc");
}

#[test]
fn composed_text_is_marked_until_it_is_settled() {
    let mut ed = plain("ab");
    ed.move_to(1);
    ed.replace_and_mark_text_in_range(None, "né", None);
    assert_eq!(ed.text(), "anéb");
    assert_eq!(ed.marked_text_range(), Some(1..3));
    let (all, range) = ed.text_for_range(0..3);
    assert_eq!((all.as_str(), range), ("ané", 0..3));
    assert!(ed.selected_text_range().0.start <= 3);
    ed.unmark_text();
    assert_eq!(ed.marked_text_range(), None);
}

#[test]
fn clicks_select_words_and_lines() {
    let mut ed = plain("one two\nthree");
    ed.press_at(5, 1, false);
    assert_eq!(ed.selected_range, 5..5);
    assert!(ed.is_selecting);
    ed.press_at(7, 1, true);
    assert_eq!(ed.selected_range, 5..7);
    ed.press_at(5, 2, false);
    assert_eq!(ed.selected_range, 4..7);
    ed.press_at(9, 3, false);
    assert_eq!(&ed.content[ed.selected_range.clone()], "three");
    ed.release();
    assert!(!ed.is_selecting);
    ed.drag_to(0);
    assert_eq!(&ed.content[ed.selected_range.clone()], "three");
    ed.press_at(0, 1, false);
    ed.drag_to(3);
    assert_eq!(ed.selected_range, 0..3);
    ed.click_at(2, false);
    assert_eq!(ed.selected_range, 2..2);
}

#[test]
fn folding_moves_a_hidden_caret() {
    let src = "{\n  \"a\": 1\n}";
    let mut ed = plain("");
    ed.set_content(src.to_string(), Lang::Json);
    assert!(ed.is_foldable_start(0));
    ed.move_to(5);
    ed.toggle_fold(0);
    assert_eq!(ed.visible_line_indices(), vec![0]);
    assert_eq!(ed.cursor(), 1);
    ed.toggle_fold(0);
    assert_eq!(ed.visible_line_indices(), vec![0, 1, 2]);
    ed.toggle_fold(0);
    ed.set_content("plain".to_string(), Lang::PlainText);
    assert!(!ed.is_foldable_start(0));
    assert_eq!(ed.visible_line_indices(), vec![0]);
}

#[test]
fn a_language_can_be_set_later() {
    let mut ed = plain("");
    ed.set_content("fn f() {}".to_string(), Lang::PlainText);
    assert!(ed.syntax.spans.is_empty());
    ed.move_to(3);
    ed.set_lang(Lang::Rust);
    assert!(!ed.syntax.spans.is_empty());
    assert_eq!(ed.cursor(), 3);
}

#[test]
fn big_files_are_highlighted_later() {
    let src = "fn f() {}\n".repeat(4000);
    let mut ed = plain("");
    ed.set_content(src, Lang::Rust);
    assert!(ed.syntax.spans.is_empty());
    let job = ed.syntax.take_job().unwrap();
    let (spans, folds) = run_job(&job);
    assert!(!spans.is_empty());
    let stale = ed.syntax.take_job();
    assert!(stale.is_none());
    assert!(!ed.syntax.finish_job(job.generation + 1, Vec::new(), Vec::new()));
    assert!(ed.syntax.finish_job(job.generation, spans, folds));
    assert!(!ed.syntax.spans.is_empty());
}

#[test]
fn rows_of_a_text() {
    let ed = plain("ab\ncdef\ng");
    let mut filler = HashMap::new();
    filler.insert(1, 2);
    let wraps = vec![vec![], vec![0, 2], vec![]];
    let rows = layout_rows(&ed, &filler, 1, &wraps);
    assert_eq!(rows.starts, vec![0, 3, 3, 3, 5, 8, 9]);
    assert_eq!(rows.lines, vec![0, FILLER, FILLER, 1, 1, 2, FILLER]);
    assert_eq!(row_count(&ed, &filler, 1), 6, "counted without wrapping");
    assert_eq!(row_count(&plain(""), &HashMap::new(), 0), 1);
    let hint = placeholder_rows("type\nhere");
    assert_eq!(hint.starts, vec![0, 5]);
    assert_eq!(hint.lines, vec![0, 1]);
}

#[test]
fn rows_caret_and_selection() {
    let starts = vec![0, 3, 8];
    assert_eq!(locate_in(&starts, 2), (0, 0));
    assert_eq!(locate_in(&starts, 3), (1, 3));
    assert_eq!(locate_in(&starts, 99), (2, 8));
    assert_eq!(locate_in(&vec![], 4), (0, 0));
    assert_eq!(
        selection_rows(&starts, 9, 1..9),
        vec![(0, 1, 3), (1, 0, 5), (2, 0, 1)]
    );
    assert_eq!(reveal_row(&starts, 5), (1, 2));
    assert_eq!(reveal_row(&starts, 8), (2, 0));
    assert_eq!(offset_for_row("ab\ncdef\ng", &starts, 1, 2), 5);
    assert_eq!(gutter_line(&vec![4, 7], 9), Some(7));
    assert_eq!(find_row(&vec![4, FILLER, 7], 7), 2);
    assert_eq!(number_digits(9), 2);
    assert_eq!(number_digits(1000), 4);
}

#[test]
fn long_lines_wrap_at_spaces() {
    assert_eq!(wrap_take("hello world", false, 8), 6);
    assert_eq!(wrap_take("hello world", true, 3), 11);
    assert_eq!(wrap_take("helloworld", false, 4), 4);
    assert_eq!(wrap_take("éa", false, 0), 2, "at least one character");
    let line = "aa bb cc";
    let mut w = Wrap::new(line);
    while !w.rest.is_empty() {
        let fits = w.rest.len() <= 4;
        w.take(line.len(), fits, 4);
    }
    assert_eq!(w.starts, vec![0, 3, 6]);
    assert_eq!(w.at, 8);
}

#[test]
fn vertical_moves_go_by_rows() {
    let mut ed = plain("abc\ndef");
    let rows = layout_rows(&ed, &HashMap::new(), 0, &Vec::new());
    ed.move_to(2);
    let step = vertical_step(&ed, &rows, true).unwrap();
    assert_eq!((step.row, step.target, step.col), (0, 1, 2));
    assert!(vertical_step(&ed, &rows, false).is_none());
    vertical_move(&mut ed, &rows, step.target, 2, false);
    assert_eq!(ed.cursor(), 6);
    vertical_move(&mut ed, &rows, 0, 1, true);
    assert_eq!(ed.selected_range, 1..6);
}

#[test]
fn runs_cover_a_line() {
    let spans = [
        Span {
            start: 2,
            end: 4,
            color: SynColor::Keyword,
        },
        Span {
            start: 7,
            end: 12,
            color: SynColor::Str,
        },
    ];
    let runs = line_runs("abcdefgh", 1, &spans, SynColor::Text);
    let seen: Vec<(usize, SynColor)> = runs.iter().map(|r| (r.len, r.color)).collect();
    assert_eq!(
        seen,
        vec![
            (1, SynColor::Text),
            (2, SynColor::Keyword),
            (3, SynColor::Text),
            (2, SynColor::Str)
        ]
    );
}
