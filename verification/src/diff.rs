//! Diff model: line-level hunks for the side-by-side view, and word-level ranges inside
//! the changed lines for the inline highlight.
//!
//! Lines are diffed first. Each changed region is then diffed again by words, so that only
//! the words that changed are marked.

use crate::text;
use similar::{Change, ChangeTag, DiffOp, DiffTag, TextDiff};
use std::ops::Range;
use vstd::prelude::*;

verus! {

// ---------------------------------------------------------------------------
// Types
// ---------------------------------------------------------------------------

#[derive(Debug, Clone, Copy, PartialEq, Eq, Structural)]
pub enum HunkKind {
    Added,
    Deleted,
    Modified,
}

/// One change region. Line ranges are 0-based, half-open, into each side's lines.
#[derive(Debug)]
pub struct Hunk {
    pub kind: HunkKind,
    /// Lines in "before".
    pub old_range: Range<usize>,
    /// Lines in "after".
    pub new_range: Range<usize>,
    /// Per changed line, the byte ranges to highlight: (line, byte range in that line).
    pub old_word_ranges: Vec<(usize, Range<usize>)>,
    pub new_word_ranges: Vec<(usize, Range<usize>)>,
}

pub struct FileDiff {
    pub old: Vec<String>,
    pub new: Vec<String>,
    pub hunks: Vec<Hunk>,
}

/// What a line operation does to the old side.
#[derive(Debug, Clone, Copy, PartialEq, Eq, Structural)]
pub enum OpTag {
    Equal,
    Delete,
    Insert,
    Replace,
}

/// One operation of a line diff: what happens to lines `old_start..old_end` of the old side
/// and `new_start..new_end` of the new side.
#[derive(Debug, Clone, Copy, PartialEq, Eq, Structural)]
pub struct LineOp {
    pub tag: OpTag,
    pub old_start: usize,
    pub old_end: usize,
    pub new_start: usize,
    pub new_end: usize,
}

/// What a word diff says of one run of text.
#[derive(Debug, Clone, Copy, PartialEq, Eq, Structural)]
pub enum WordTag {
    Equal,
    Delete,
    Insert,
}

/// One run of text of a word diff.
#[derive(Debug)]
pub struct WordChange {
    pub tag: WordTag,
    pub text: String,
}

// ---------------------------------------------------------------------------
// Model
// ---------------------------------------------------------------------------

/// A marked range: its line, and the bytes in that line where it starts and ends.
pub type Mark = (int, int, int);

/// What a hunk says, over mathematical integers.
#[verifier::ext_equal]
pub struct HunkModel {
    pub kind: HunkKind,
    pub old_range: (int, int),
    pub new_range: (int, int),
    pub old_marks: Seq<Mark>,
    pub new_marks: Seq<Mark>,
}

pub open spec fn marks_view(v: Seq<(usize, Range<usize>)>) -> Seq<Mark> {
    Seq::new(v.len(), |i: int| (v[i].0 as int, v[i].1.start as int, v[i].1.end as int))
}

impl Hunk {
    pub open spec fn model(self) -> HunkModel {
        HunkModel {
            kind: self.kind,
            old_range: (self.old_range.start as int, self.old_range.end as int),
            new_range: (self.new_range.start as int, self.new_range.end as int),
            old_marks: marks_view(self.old_word_ranges@),
            new_marks: marks_view(self.new_word_ranges@),
        }
    }
}

pub open spec fn hunk_models(v: Seq<Hunk>) -> Seq<HunkModel> {
    Seq::new(v.len(), |i: int| v[i].model())
}

pub open spec fn groups_view(v: Seq<Vec<LineOp>>) -> Seq<Seq<LineOp>> {
    Seq::new(v.len(), |i: int| v[i]@)
}

pub open spec fn changes_view(v: Seq<WordChange>) -> Seq<(WordTag, Seq<char>)> {
    Seq::new(v.len(), |i: int| (v[i].tag, v[i].text@))
}

impl LineOp {
    pub open spec fn deletes(self) -> bool {
        self.tag == OpTag::Delete || self.tag == OpTag::Replace
    }

    pub open spec fn inserts(self) -> bool {
        self.tag == OpTag::Insert || self.tag == OpTag::Replace
    }

    /// What it deletes and what it inserts are lines that exist.
    pub open spec fn fits(self, old_len: nat, new_len: nat) -> bool {
        &&& self.deletes() ==> self.old_start < self.old_end <= old_len
        &&& self.inserts() ==> self.new_start < self.new_end <= new_len
    }
}

pub open spec fn groups_fit(groups: Seq<Seq<LineOp>>, old_len: nat, new_len: nat) -> bool {
    forall|g: int, k: int|
        0 <= g < groups.len() && 0 <= k < groups[g].len() ==> (#[trigger] groups[g][k]).fits(
            old_len,
            new_len,
        )
}

/// Position `k` holds the only operation of the group that changes anything.
pub open spec fn only_change(group: Seq<LineOp>, k: int) -> bool {
    &&& 0 <= k < group.len()
    &&& group[k].tag != OpTag::Equal
    &&& forall|j: int| 0 <= j < group.len() && j != k ==> (#[trigger] group[j]).tag == OpTag::Equal
}

/// The group holds exactly one operation that changes anything.
pub open spec fn has_one_change(group: Seq<LineOp>) -> bool {
    exists|k: int| only_change(group, k)
}

/// Every group holds exactly one operation that changes anything.
pub open spec fn one_change_each(groups: Seq<Seq<LineOp>>) -> bool {
    forall|g: int| 0 <= g < groups.len() ==> has_one_change(#[trigger] groups[g])
}

/// The only operation of the group that changes anything.
pub open spec fn change_in(group: Seq<LineOp>) -> LineOp {
    group[choose|k: int| only_change(group, k)]
}

/// Where a change stands: its lines on either side. A side that it does not change has none.
pub struct Place {
    pub old: (int, int),
    pub new: (int, int),
}

/// The place of a change, where the one before it ends at `from.0` on the old side and at
/// `from.1` on the new one: as many lines further on both sides.
pub open spec fn place_of(op: LineOp, from: (int, int)) -> Place {
    let gap = if op.deletes() {
        op.old_start - from.0
    } else {
        op.new_start - from.1
    };
    Place {
        old: (
            from.0 + gap,
            if op.deletes() {
                op.old_end as int
            } else {
                from.0 + gap
            },
        ),
        new: (
            from.1 + gap,
            if op.inserts() {
                op.new_end as int
            } else {
                from.1 + gap
            },
        ),
    }
}

/// Where the last change of the groups ends on both sides.
pub open spec fn changes_end(groups: Seq<Seq<LineOp>>) -> (int, int)
    decreases groups.len(),
{
    if groups.len() == 0 {
        (0, 0)
    } else {
        let p = place_of(change_in(groups.last()), changes_end(groups.drop_last()));
        (p.old.1, p.new.1)
    }
}

/// A change at `p` follows what ends at `from`: the lines between are the same on both sides.
/// There are some if `apart`.
pub open spec fn follows(
    p: Place,
    from: (int, int),
    apart: bool,
    old: Seq<Seq<char>>,
    new: Seq<Seq<char>>,
) -> bool {
    &&& 0 <= from.0 <= p.old.0 <= p.old.1 <= old.len()
    &&& 0 <= from.1 <= p.new.0 <= p.new.1 <= new.len()
    &&& p.old.0 - from.0 == p.new.0 - from.1
    &&& apart ==> from.0 < p.old.0
    &&& old.subrange(from.0, p.old.0) == new.subrange(from.1, p.new.0)
}

/// The changes of the groups stand in order, with equal lines between them and after the last.
/// What one deletes stands on the old side, and what one inserts on the new side, where the
/// operation says.
pub open spec fn in_step(
    groups: Seq<Seq<LineOp>>,
    old: Seq<Seq<char>>,
    new: Seq<Seq<char>>,
) -> bool {
    &&& forall|g: int|
        0 <= g < groups.len() ==> {
            let op = change_in(#[trigger] groups[g]);
            let from = changes_end(groups.take(g));
            let p = place_of(op, from);
            &&& follows(p, from, g > 0, old, new)
            &&& op.deletes() ==> p.old.0 == op.old_start
            &&& op.inserts() ==> p.new.0 == op.new_start
        }
    &&& old.skip(changes_end(groups).0) == new.skip(changes_end(groups).1)
}

/// The smallest old line that the group deletes.
pub open spec fn old_lo(g: Seq<LineOp>) -> int
    decreases g.len(),
{
    if g.len() == 0 {
        usize::MAX as int
    } else {
        let r = old_lo(g.drop_last());
        if g.last().deletes() && g.last().old_start < r {
            g.last().old_start as int
        } else {
            r
        }
    }
}

/// One past the largest old line that the group deletes.
pub open spec fn old_hi(g: Seq<LineOp>) -> int
    decreases g.len(),
{
    if g.len() == 0 {
        0
    } else {
        let r = old_hi(g.drop_last());
        if g.last().deletes() && g.last().old_end > r {
            g.last().old_end as int
        } else {
            r
        }
    }
}

/// The smallest new line that the group inserts.
pub open spec fn new_lo(g: Seq<LineOp>) -> int
    decreases g.len(),
{
    if g.len() == 0 {
        usize::MAX as int
    } else {
        let r = new_lo(g.drop_last());
        if g.last().inserts() && g.last().new_start < r {
            g.last().new_start as int
        } else {
            r
        }
    }
}

/// One past the largest new line that the group inserts.
pub open spec fn new_hi(g: Seq<LineOp>) -> int
    decreases g.len(),
{
    if g.len() == 0 {
        0
    } else {
        let r = new_hi(g.drop_last());
        if g.last().inserts() && g.last().new_end > r {
            g.last().new_end as int
        } else {
            r
        }
    }
}

pub open spec fn group_deletes(g: Seq<LineOp>) -> bool {
    exists|k: int| 0 <= k < g.len() && (#[trigger] g[k]).deletes()
}

pub open spec fn group_inserts(g: Seq<LineOp>) -> bool {
    exists|k: int| 0 <= k < g.len() && (#[trigger] g[k]).inserts()
}

/// The hunk that one group of line operations amounts to, where the one before it ends at
/// `from`; none for a group without a change. An empty side sits at the splice point: as far
/// behind the hunk before on that side as on the other.
pub open spec fn hunk_of(
    old: Seq<Seq<char>>,
    new: Seq<Seq<char>>,
    g: Seq<LineOp>,
    from: (int, int),
) -> Option<HunkModel> {
    let del = group_deletes(g);
    let ins = group_inserts(g);
    let old_range = if del {
        (old_lo(g), old_hi(g))
    } else {
        (from.0 + new_lo(g) - from.1, from.0 + new_lo(g) - from.1)
    };
    let new_range = if ins {
        (new_lo(g), new_hi(g))
    } else {
        (from.1 + old_lo(g) - from.0, from.1 + old_lo(g) - from.0)
    };
    if del && ins {
        let changes = word_changes(
            text::join_with(old.subrange(old_range.0, old_range.1), '\n'),
            text::join_with(new.subrange(new_range.0, new_range.1), '\n'),
        );
        Some(
            HunkModel {
                kind: HunkKind::Modified,
                old_range,
                new_range,
                old_marks: side_state(changes, WordTag::Delete, old_range.0).marks,
                new_marks: side_state(changes, WordTag::Insert, new_range.0).marks,
            },
        )
    } else if del || ins {
        Some(
            HunkModel {
                kind: if ins {
                    HunkKind::Added
                } else {
                    HunkKind::Deleted
                },
                old_range,
                new_range,
                old_marks: Seq::empty(),
                new_marks: Seq::empty(),
            },
        )
    } else {
        None
    }
}

impl HunkModel {
    pub open spec fn place(self) -> Place {
        Place { old: self.old_range, new: self.new_range }
    }

    /// Where it ends on both sides.
    pub open spec fn ends(self) -> (int, int) {
        (self.old_range.1, self.new_range.1)
    }
}

/// Where the last hunk ends on both sides.
pub open spec fn hunks_end(hunks: Seq<HunkModel>) -> (int, int) {
    if hunks.len() == 0 {
        (0, 0)
    } else {
        hunks.last().ends()
    }
}

/// The splice point of a group that changes one side only lies behind `from` and is a position
/// on the other side.
pub open spec fn spliceable(g: Seq<LineOp>, from: (int, int), old_len: nat, new_len: nat) -> bool {
    &&& group_inserts(g) && !group_deletes(g) ==> from.1 <= new_lo(g) && from.0 + new_lo(g)
        - from.1 <= old_len
    &&& group_deletes(g) && !group_inserts(g) ==> from.0 <= old_lo(g) && from.1 + old_lo(g)
        - from.0 <= new_len
}

/// The hunks of the groups in order.
pub open spec fn hunks_of_groups(
    old: Seq<Seq<char>>,
    new: Seq<Seq<char>>,
    groups: Seq<Seq<LineOp>>,
) -> Seq<HunkModel>
    decreases groups.len(),
{
    if groups.len() == 0 {
        Seq::empty()
    } else {
        let r = hunks_of_groups(old, new, groups.drop_last());
        match hunk_of(old, new, groups.last(), hunks_end(r)) {
            Some(h) => r.push(h),
            None => r,
        }
    }
}

/// Where a walk over `text` from line `line`, byte `col` ends.
pub open spec fn walk_end(text: Seq<char>, line: int, col: int) -> (int, int) {
    let p = text::split_on(text, '\n');
    if p.len() == 1 {
        (line, col + text::blen(p[0]))
    } else {
        (line + p.len() - 1, text::blen(p.last()) as int)
    }
}

/// The marks that cover the given pieces of lines, the first at byte `col` of line `line`,
/// each other one at the start of its own line. An empty piece gets no mark.
pub open spec fn marks_of(pieces: Seq<Seq<char>>, line: int, col: int) -> Seq<Mark>
    decreases pieces.len(),
{
    if pieces.len() == 0 {
        Seq::empty()
    } else {
        let k = pieces.len() - 1;
        let r = marks_of(pieces.drop_last(), line, col);
        let start = if k == 0 {
            col
        } else {
            0
        };
        if pieces.last().len() == 0 {
            r
        } else {
            r.push((line + k, start, start + text::blen(pieces.last())))
        }
    }
}

/// How far one side of a word diff has come.
#[verifier::ext_equal]
pub struct SideState {
    pub line: int,
    pub col: int,
    pub marks: Seq<Mark>,
}

/// The side whose own changes are tagged `mine`, after all of `changes`, from line `base` on:
/// equal text is walked over, its own changes are marked, and the other side's are not seen.
pub open spec fn side_state(
    changes: Seq<(WordTag, Seq<char>)>,
    mine: WordTag,
    base: int,
) -> SideState
    decreases changes.len(),
{
    if changes.len() == 0 {
        SideState { line: base, col: 0, marks: Seq::empty() }
    } else {
        let s = side_state(changes.drop_last(), mine, base);
        let (tag, text) = changes.last();
        let end = walk_end(text, s.line, s.col);
        if tag == WordTag::Equal {
            SideState { line: end.0, col: end.1, marks: s.marks }
        } else if tag == mine {
            SideState {
                line: end.0,
                col: end.1,
                marks: s.marks + marks_of(text::split_on(text, '\n'), s.line, s.col),
            }
        } else {
            s
        }
    }
}

/// The text of one side of a word diff: what is equal and what is its own.
pub open spec fn side_text(changes: Seq<(WordTag, Seq<char>)>, mine: WordTag) -> Seq<char>
    decreases changes.len(),
{
    if changes.len() == 0 {
        Seq::empty()
    } else {
        let r = side_text(changes.drop_last(), mine);
        let (tag, text) = changes.last();
        if tag == WordTag::Equal || tag == mine {
            r + text
        } else {
            r
        }
    }
}

/// The positions on one side all fit in `usize`.
pub open spec fn side_fits(changes: Seq<(WordTag, Seq<char>)>, mine: WordTag, base: int) -> bool {
    &&& base + text::split_on(side_text(changes, mine), '\n').len() - 1 <= usize::MAX
    &&& text::blen(side_text(changes, mine)) <= usize::MAX
}

/// Bytes `a..b` of `line` are a nonempty run of its characters.
pub open spec fn run_of_chars(line: Seq<char>, a: int, b: int) -> bool {
    exists|n: int, m: int|
        0 <= n < m <= line.len() && a == text::blen(#[trigger] line.take(n)) && b == text::blen(
            #[trigger] line.take(m),
        )
}

/// Every mark covers a run of characters of one of the lines, which are numbered from `base`.
pub open spec fn marks_in_lines(marks: Seq<Mark>, lines: Seq<Seq<char>>, base: int) -> bool {
    forall|i: int|
        0 <= i < marks.len() ==> {
            let (line, a, b) = #[trigger] marks[i];
            base <= line < base + lines.len() && run_of_chars(lines[line - base], a, b)
        }
}

/// The marks are not empty and stand in order, none reaching into the next.
pub open spec fn marks_ascend(marks: Seq<Mark>) -> bool {
    &&& forall|i: int| 0 <= i < marks.len() ==> (#[trigger] marks[i]).1 < marks[i].2
    &&& forall|i: int, j: int|
        0 <= i < j < marks.len() ==> {
            let (a, b) = (#[trigger] marks[i], #[trigger] marks[j]);
            a.0 < b.0 || (a.0 == b.0 && a.2 <= b.1)
        }
}

/// A mark covers byte `col` of line `line`.
pub open spec fn marked(marks: Seq<Mark>, line: int, col: int) -> bool {
    exists|k: int|
        0 <= k < marks.len() && (#[trigger] marks[k]).0 == line && marks[k].1 <= col < marks[k].2
}

/// How many bytes the marks cover.
pub open spec fn marked_len(marks: Seq<Mark>) -> int
    decreases marks.len(),
{
    if marks.len() == 0 {
        0
    } else {
        marked_len(marks.drop_last()) + (marks.last().2 - marks.last().1)
    }
}

/// What is left of a text, whose lines are numbered from `base`, without its newlines and what
/// the marks cover.
pub open spec fn unmarked(s: Seq<char>, marks: Seq<Mark>, base: int) -> Seq<char>
    decreases s.len(),
{
    if s.len() == 0 {
        Seq::empty()
    } else {
        let r = unmarked(s.drop_last(), marks, base);
        let at = walk_end(s.drop_last(), base, 0);
        if s.last() == '\n' || marked(marks, at.0, at.1) {
            r
        } else {
            r.push(s.last())
        }
    }
}

/// What both sides of a word diff have in common, without its newlines.
pub open spec fn common_text(changes: Seq<(WordTag, Seq<char>)>) -> Seq<char>
    decreases changes.len(),
{
    if changes.len() == 0 {
        Seq::empty()
    } else {
        let r = common_text(changes.drop_last());
        if changes.last().0 == WordTag::Equal {
            r + unmarked(changes.last().1, Seq::empty(), 0)
        } else {
            r
        }
    }
}

/// The lines with a range of them replaced.
pub open spec fn spliced(
    lines: Seq<Seq<char>>,
    range: (int, int),
    with: Seq<Seq<char>>,
) -> Seq<Seq<char>> {
    lines.take(range.0) + with + lines.skip(range.1)
}

/// Lines with the old range of every hunk replaced by its lines on the new side, the last hunk
/// first.
pub open spec fn applied(
    lines: Seq<Seq<char>>,
    new: Seq<Seq<char>>,
    hunks: Seq<HunkModel>,
) -> Seq<Seq<char>>
    decreases hunks.len(),
{
    if hunks.len() == 0 {
        lines
    } else {
        let h = hunks.last();
        applied(
            spliced(lines, h.old_range, new.subrange(h.new_range.0, h.new_range.1)),
            new,
            hunks.drop_last(),
        )
    }
}

/// Lines with the new range of every hunk replaced by its lines on the old side, the last hunk
/// first.
pub open spec fn reverted(
    lines: Seq<Seq<char>>,
    old: Seq<Seq<char>>,
    hunks: Seq<HunkModel>,
) -> Seq<Seq<char>>
    decreases hunks.len(),
{
    if hunks.len() == 0 {
        lines
    } else {
        let h = hunks.last();
        reverted(
            spliced(lines, h.new_range, old.subrange(h.old_range.0, h.old_range.1)),
            old,
            hunks.drop_last(),
        )
    }
}

/// The hunks stand in order, with equal lines before the first, between two and after the last.
/// There is at least one line between two.
pub open spec fn hunks_aligned(
    hunks: Seq<HunkModel>,
    old: Seq<Seq<char>>,
    new: Seq<Seq<char>>,
) -> bool {
    &&& hunks_follow(hunks, old, new)
    &&& {
        let e = hunks_end(hunks);
        old.skip(e.0) == new.skip(e.1)
    }
}

/// Each hunk follows the one before it.
pub open spec fn hunks_follow(
    hunks: Seq<HunkModel>,
    old: Seq<Seq<char>>,
    new: Seq<Seq<char>>,
) -> bool {
    &&& hunks.len() > 0 ==> follows(hunks[0].place(), (0, 0), false, old, new)
    &&& forall|i: int, j: int|
        0 <= i && j == i + 1 && j < hunks.len() ==> follows(
            (#[trigger] hunks[j]).place(),
            (#[trigger] hunks[i]).ends(),
            true,
            old,
            new,
        )
}

/// A hunk is a change between the two sides: its ranges exist, its kind says which of them
/// hold lines of the change, and its marks cover characters of its own lines, in order. What the
/// marks of a modified region leave of its lines is, on both sides, the whole of what the word
/// diff of the two regions calls equal.
pub open spec fn hunk_sound(h: HunkModel, old: Seq<Seq<char>>, new: Seq<Seq<char>>) -> bool {
    &&& 0 <= h.old_range.0 <= h.old_range.1 <= old.len()
    &&& 0 <= h.new_range.0 <= h.new_range.1 <= new.len()
    &&& h.kind == HunkKind::Added <==> h.old_range.0 == h.old_range.1
    &&& h.kind == HunkKind::Deleted <==> h.new_range.0 == h.new_range.1
    &&& h.kind != HunkKind::Modified ==> h.old_marks.len() == 0 && h.new_marks.len() == 0
    &&& marks_in_lines(
        h.old_marks,
        old.subrange(h.old_range.0, h.old_range.1),
        h.old_range.0,
    )
    &&& marks_in_lines(
        h.new_marks,
        new.subrange(h.new_range.0, h.new_range.1),
        h.new_range.0,
    )
    &&& marks_ascend(h.old_marks)
    &&& marks_ascend(h.new_marks)
    &&& h.kind == HunkKind::Modified ==> {
        let o = text::join_with(old.subrange(h.old_range.0, h.old_range.1), '\n');
        let n = text::join_with(new.subrange(h.new_range.0, h.new_range.1), '\n');
        let common = common_text(word_changes(o, n));
        &&& unmarked(o, h.old_marks, h.old_range.0) == common
        &&& unmarked(n, h.new_marks, h.new_range.0) == common
    }
}

// ---------------------------------------------------------------------------
// The diff library
// ---------------------------------------------------------------------------

/// The operations of the line diff of `old` and `new`, in groups without context.
pub uninterp spec fn line_diff_groups(old: Seq<Seq<char>>, new: Seq<Seq<char>>) -> Seq<
    Seq<LineOp>,
>;

/// The runs of the word diff of `old` and `new`.
pub uninterp spec fn word_changes(old: Seq<char>, new: Seq<char>) -> Seq<(WordTag, Seq<char>)>;

/// `similar::TextDiff::from_slices` and `grouped_ops(0)` on the two runs of lines.
///
/// Claimed: the result depends on the lines alone; what an operation deletes or inserts is a
/// nonempty range of lines that exist; every group holds exactly one operation that changes
/// anything; those operations stand in order, at least one line apart, and the lines before,
/// between and behind them are the same on both sides; and equal sides give no group. Nothing is
/// said of the empty range of an operation, which need not be where its lines would go.
#[verifier::external_body]
fn diff_lines(old: &Vec<String>, new: &Vec<String>) -> (r: Vec<Vec<LineOp>>)
    ensures
        groups_view(r@) == line_diff_groups(text::texts(old@), text::texts(new@)),
        groups_fit(groups_view(r@), old@.len(), new@.len()),
        one_change_each(groups_view(r@)),
        in_step(groups_view(r@), text::texts(old@), text::texts(new@)),
        text::texts(old@) == text::texts(new@) ==> r@.len() == 0,
{
    let a: Vec<&str> = old.iter().map(String::as_str).collect();
    let b: Vec<&str> = new.iter().map(String::as_str).collect();
    let op_of = |op: &DiffOp| {
        let (t, o, n) = op.as_tag_tuple();
        let tag = match t {
            DiffTag::Equal => OpTag::Equal,
            DiffTag::Delete => OpTag::Delete,
            DiffTag::Insert => OpTag::Insert,
            DiffTag::Replace => OpTag::Replace,
        };
        LineOp { tag, old_start: o.start, old_end: o.end, new_start: n.start, new_end: n.end }
    };
    let groups = TextDiff::from_slices(&a, &b).grouped_ops(0);
    groups.iter().map(|g| g.iter().map(op_of).collect()).collect()
}

/// `similar::TextDiff::from_words` and `iter_all_changes` on the two texts.
///
/// Claimed: the result depends on the texts alone; what is equal or deleted, put together, is
/// the old text; and what is equal or inserted, put together, is the new text.
#[verifier::external_body]
fn diff_words(old: &String, new: &String) -> (r: Vec<WordChange>)
    ensures
        changes_view(r@) == word_changes(old@, new@),
        side_text(changes_view(r@), WordTag::Delete) == old@,
        side_text(changes_view(r@), WordTag::Insert) == new@,
{
    let diff = TextDiff::from_words(old.as_str(), new.as_str());
    let change_of = |change: Change<&str>| {
        let tag = match change.tag() {
            ChangeTag::Equal => WordTag::Equal,
            ChangeTag::Delete => WordTag::Delete,
            ChangeTag::Insert => WordTag::Insert,
        };
        WordChange { tag, text: change.value().to_string() }
    };
    diff.iter_all_changes().map(change_of).collect()
}

// ---------------------------------------------------------------------------
// Facts about marks
// ---------------------------------------------------------------------------

/// A walk over one character more.
proof fn lemma_walk_push(text: Seq<char>, c: char, line: int, col: int)
    ensures
        walk_end(text.push(c), line, col) == {
            let e = walk_end(text, line, col);
            if c == '\n' {
                (e.0 + 1, 0int)
            } else {
                (e.0, e.1 + text::blen(seq![c]))
            }
        },
{
    let s = text.push(c);
    assert(s.drop_last() == text);
    text::lemma_split_pieces(text, '\n');
    text::lemma_encode_push(text::split_on(text, '\n').last(), c);
    if c == '\n' {
        assert(text::blen(Seq::<char>::empty()) == 0);
    }
}

/// A walk over two texts is a walk over the first and then over the second.
proof fn lemma_walk_concat(a: Seq<char>, b: Seq<char>, line: int, col: int)
    ensures
        walk_end(a + b, line, col) == walk_end(b, walk_end(a, line, col).0, walk_end(a, line, col).1),
    decreases b.len(),
{
    if b.len() == 0 {
        assert(a + b == a);
        assert(text::blen(Seq::<char>::empty()) == 0);
    } else {
        let d = b.drop_last();
        lemma_walk_concat(a, d, line, col);
        assert((a + d).push(b.last()) == a + b);
        assert(d.push(b.last()) == b);
        lemma_walk_push(a + d, b.last(), line, col);
        let e = walk_end(a, line, col);
        lemma_walk_push(d, b.last(), e.0, e.1);
    }
}

/// One side stands where a walk over its text ends.
proof fn lemma_side_position(changes: Seq<(WordTag, Seq<char>)>, mine: WordTag, base: int)
    ensures
        walk_end(side_text(changes, mine), base, 0) == (
            side_state(changes, mine, base).line,
            side_state(changes, mine, base).col,
        ),
    decreases changes.len(),
{
    if changes.len() == 0 {
        assert(text::blen(Seq::<char>::empty()) == 0);
    } else {
        lemma_side_position(changes.drop_last(), mine, base);
        lemma_walk_concat(side_text(changes.drop_last(), mine), changes.last().1, base, 0);
    }
}

/// The text of one side only grows.
proof fn lemma_side_prefix(changes: Seq<(WordTag, Seq<char>)>, mine: WordTag, n: int)
    requires
        0 <= n <= changes.len(),
    ensures
        side_text(changes.take(n), mine).len() <= side_text(changes, mine).len(),
        side_text(changes, mine).take(side_text(changes.take(n), mine).len() as int) == side_text(
            changes.take(n),
            mine,
        ),
    decreases changes.len(),
{
    let p = side_text(changes.take(n), mine);
    if n == changes.len() {
        assert(changes.take(n) == changes);
        assert(p.take(p.len() as int) == p);
    } else {
        let d = changes.drop_last();
        lemma_side_prefix(d, mine, n);
        assert(d.take(n) == changes.take(n));
        let q = side_text(d, mine);
        let s = side_text(changes, mine);
        if changes.last().0 == WordTag::Equal || changes.last().0 == mine {
            assert(s == q + changes.last().1);
            assert(s.take(p.len() as int) == q.take(p.len() as int));
        }
    }
}

/// A start of a text has no more bytes and no more lines than the text.
proof fn lemma_prefix_bounds(s: Seq<char>, n: int)
    requires
        0 <= n <= s.len(),
    ensures
        text::blen(s.take(n)) <= text::blen(s),
        text::split_on(s.take(n), '\n').len() <= text::split_on(s, '\n').len(),
        text::blen(text::split_on(s, '\n').last()) <= text::blen(s),
{
    text::lemma_encode_concat(s.take(n), s.skip(n));
    assert(s.take(n) + s.skip(n) == s);
    text::lemma_split_prefix(s, '\n', n);
    text::lemma_join_split(s, '\n');
    text::lemma_split_pieces(s, '\n');
    let p = text::split_on(s, '\n');
    if p.len() > 1 {
        let head = text::join_with(p.drop_last(), '\n').push('\n');
        text::lemma_encode_concat(head, p.last());
    }
}

/// The marks over `piece`, which follows `done` in the text `s`, cover characters of the
/// lines of `s`.
proof fn lemma_marks_of_in_lines(done: Seq<char>, piece: Seq<char>, s: Seq<char>, base: int)
    requires
        done.len() + piece.len() <= s.len(),
        s.take((done.len() + piece.len()) as int) == done + piece,
    ensures
        ({
            let e = walk_end(done, base, 0);
            marks_in_lines(
                marks_of(text::split_on(piece, '\n'), e.0, e.1),
                text::split_on(s, '\n'),
                base,
            )
        }),
    decreases piece.len(),
{
    let e = walk_end(done, base, 0);
    let lines = text::split_on(s, '\n');
    let pieces = text::split_on(piece, '\n');
    text::lemma_split_pieces(piece, '\n');
    if piece.len() == 0 {
        reveal_with_fuel(marks_of, 2);
    } else {
        let d = piece.drop_last();
        assert(s.take((done.len() + d.len()) as int) == done + d);
        lemma_marks_of_in_lines(done, d, s, base);
        let ps = text::split_on(d, '\n');
        text::lemma_split_pieces(d, '\n');
        let last = piece.last();
        if last == '\n' {
            assert(pieces == ps.push(Seq::<char>::empty()));
            assert(pieces.drop_last() == ps);
            assert(marks_of(pieces, e.0, e.1) == marks_of(ps, e.0, e.1));
        } else {
            assert(pieces == ps.update(ps.len() - 1, ps.last().push(last)));
            assert(pieces.drop_last() == ps.drop_last());
            let k = ps.len() - 1;
            let before = marks_of(ps.drop_last(), e.0, e.1);
            let m = marks_of(pieces, e.0, e.1);
            let start = if k == 0 {
                e.1
            } else {
                0
            };
            let new_mark = (e.0 + k, start, start + text::blen(pieces.last()));
            assert(m == before.push(new_mark));
            assert forall|i: int| 0 <= i < m.len() implies {
                let (line, a, b) = #[trigger] m[i];
                base <= line < base + lines.len() && run_of_chars(lines[line - base], a, b)
            } by {
                if i < before.len() {
                    assert(marks_of(ps, e.0, e.1)[i] == before[i]);
                } else {
                    lemma_last_mark(done, piece, s, base);
                }
            }
        }
    }
}

/// The last mark over `piece` covers characters of a line of `s`.
proof fn lemma_last_mark(done: Seq<char>, piece: Seq<char>, s: Seq<char>, base: int)
    requires
        done.len() + piece.len() <= s.len(),
        s.take((done.len() + piece.len()) as int) == done + piece,
        piece.len() > 0,
        piece.last() != '\n',
    ensures
        ({
            let e = walk_end(done, base, 0);
            let pieces = text::split_on(piece, '\n');
            let k = pieces.len() - 1;
            let start = if k == 0 {
                e.1
            } else {
                0
            };
            let lines = text::split_on(s, '\n');
            &&& base <= e.0 + k < base + lines.len()
            &&& run_of_chars(lines[e.0 + k - base], start, start + text::blen(pieces.last()))
        }),
{
    let e = walk_end(done, base, 0);
    let pieces = text::split_on(piece, '\n');
    let lines = text::split_on(s, '\n');
    let k = pieces.len() - 1;
    text::lemma_split_pieces(piece, '\n');
    text::lemma_split_pieces(done, '\n');
    let all = done + piece;
    let whole = text::split_on(all, '\n');
    text::lemma_split_prefix(s, '\n', all.len() as int);
    lemma_split_concat(done, piece);
    let dp = text::split_on(done, '\n');
    let line_text = lines[whole.len() - 1];
    let tail = pieces.last();
    assert(tail.len() > 0) by {
        text::lemma_split_pieces(piece.drop_last(), '\n');
        assert(pieces.last() == text::split_on(piece.drop_last(), '\n').last().push(piece.last()));
    }
    assert(e.0 + k - base == whole.len() - 1);
    if k == 0 {
        let n = dp.last().len() as int;
        let m = whole.last().len() as int;
        assert(whole.last() == dp.last() + tail);
        assert(line_text.take(m) == whole.last());
        assert(line_text.take(n) == dp.last()) by {
            assert(line_text.take(m).take(n) == line_text.take(n));
            assert(whole.last().take(n) == dp.last());
        }
        text::lemma_encode_concat(dp.last(), tail);
        assert(e.1 == text::blen(dp.last()));
        assert(run_of_chars(line_text, e.1, e.1 + text::blen(tail)));
    } else {
        let m = tail.len() as int;
        assert(whole.last() == tail);
        assert(line_text.take(m) == tail);
        assert(line_text.take(0) == Seq::<char>::empty());
        assert(text::blen(line_text.take(0)) == 0);
        assert(run_of_chars(line_text, 0, text::blen(tail) as int));
    }
}

/// The pieces of two texts put together: the last piece of the first and the first piece of
/// the second become one.
proof fn lemma_split_concat(a: Seq<char>, b: Seq<char>)
    ensures
        ({
            let p = text::split_on(a, '\n');
            let q = text::split_on(b, '\n');
            let r = text::split_on(a + b, '\n');
            &&& r.len() == p.len() + q.len() - 1
            &&& q.len() == 1 ==> r.last() == p.last() + q[0]
            &&& q.len() > 1 ==> r.last() == q.last()
        }),
    decreases b.len(),
{
    text::lemma_split_pieces(a, '\n');
    text::lemma_split_pieces(b, '\n');
    let p = text::split_on(a, '\n');
    if b.len() == 0 {
        assert(a + b == a);
        assert(p.last() + Seq::<char>::empty() == p.last());
    } else {
        let d = b.drop_last();
        lemma_split_concat(a, d);
        text::lemma_split_pieces(d, '\n');
        text::lemma_split_pieces(a + d, '\n');
        assert((a + b).drop_last() == a + d);
        let qd = text::split_on(d, '\n');
        if b.last() != '\n' && qd.len() == 1 {
            assert((p.last() + qd[0]).push(b.last()) == p.last() + qd[0].push(b.last()));
        }
    }
}

/// The marks of a side all cover characters of the lines of its text.
proof fn lemma_side_marks_in_lines(
    changes: Seq<(WordTag, Seq<char>)>,
    mine: WordTag,
    base: int,
    n: int,
)
    requires
        0 <= n <= changes.len(),
        mine != WordTag::Equal,
    ensures
        marks_in_lines(
            side_state(changes.take(n), mine, base).marks,
            text::split_on(side_text(changes, mine), '\n'),
            base,
        ),
    decreases n,
{
    if n > 0 {
        lemma_side_marks_in_lines(changes, mine, base, n - 1);
        let c = changes.take(n);
        assert(c.drop_last() == changes.take(n - 1));
        let done = side_text(changes.take(n - 1), mine);
        lemma_side_position(changes.take(n - 1), mine, base);
        lemma_side_prefix(changes, mine, n);
        if c.last().0 == mine {
            lemma_marks_of_in_lines(done, c.last().1, side_text(changes, mine), base);
            let a = side_state(changes.take(n - 1), mine, base).marks;
            let e = walk_end(done, base, 0);
            let b = marks_of(text::split_on(c.last().1, '\n'), e.0, e.1);
            let m = a + b;
            let lines = text::split_on(side_text(changes, mine), '\n');
            assert forall|i: int| 0 <= i < m.len() implies {
                let (line, x, y) = #[trigger] m[i];
                base <= line < base + lines.len() && run_of_chars(lines[line - base], x, y)
            } by {
                if i < a.len() {
                    assert(m[i] == a[i]);
                } else {
                    assert(m[i] == b[i - a.len()]);
                }
            }
        }
    }
}

/// One position comes before another.
spec fn earlier(p: (int, int), q: (int, int)) -> bool {
    p.0 < q.0 || (p.0 == q.0 && p.1 < q.1)
}

/// Every mark ends at or before a position.
spec fn marks_end_by(marks: Seq<Mark>, e: (int, int)) -> bool {
    forall|k: int|
        0 <= k < marks.len() ==> {
            let m = #[trigger] marks[k];
            m.0 < e.0 || (m.0 == e.0 && m.2 <= e.1)
        }
}

/// A walk over one character more ends later.
proof fn lemma_walk_later(text: Seq<char>, c: char, line: int, col: int)
    ensures
        earlier(walk_end(text, line, col), walk_end(text.push(c), line, col)),
{
    lemma_walk_push(text, c, line, col);
    text::lemma_char_len(c);
}

/// Marks that agree up to the end of a text leave the same of it.
proof fn lemma_unmarked_same(s: Seq<char>, a: Seq<Mark>, b: Seq<Mark>, base: int)
    requires
        forall|p: (int, int)| #[trigger]
            earlier(p, walk_end(s, base, 0)) ==> marked(a, p.0, p.1) == marked(b, p.0, p.1),
    ensures
        unmarked(s, a, base) == unmarked(s, b, base),
    decreases s.len(),
{
    if s.len() > 0 {
        let d = s.drop_last();
        assert(d.push(s.last()) == s);
        lemma_walk_later(d, s.last(), base, 0);
        let at = walk_end(d, base, 0);
        assert forall|p: (int, int)| #[trigger] earlier(p, at) implies marked(a, p.0, p.1) == marked(
            b,
            p.0,
            p.1,
        ) by {
            assert(earlier(p, walk_end(s, base, 0)));
        }
        lemma_unmarked_same(d, a, b, base);
        assert(earlier(at, walk_end(s, base, 0)));
    }
}

/// A text behind all marks stays whole, but for its newlines.
proof fn lemma_append_plain(s: Seq<char>, t: Seq<char>, marks: Seq<Mark>, base: int)
    requires
        marks_end_by(marks, walk_end(s, base, 0)),
    ensures
        unmarked(s + t, marks, base) == unmarked(s, marks, base) + unmarked(t, Seq::empty(), 0),
        marks_end_by(marks, walk_end(s + t, base, 0)),
    decreases t.len(),
{
    let none = Seq::<Mark>::empty();
    if t.len() == 0 {
        assert(s + t == s);
        assert(unmarked(s, marks, base) + Seq::<char>::empty() == unmarked(s, marks, base));
    } else {
        let d = t.drop_last();
        let c = t.last();
        lemma_append_plain(s, d, marks, base);
        assert((s + d).push(c) == s + t);
        assert((s + t).drop_last() == s + d);
        lemma_walk_later(s + d, c, base, 0);
        let at = walk_end(s + d, base, 0);
        assert(!marked(marks, at.0, at.1));
        let u = unmarked(s, marks, base);
        let v = unmarked(d, none, 0);
        assert((u + v).push(c) == u + v.push(c));
        assert(forall|l: int, k: int| !marked(none, l, k));
    }
}

/// The marks over the pieces stand on their lines.
proof fn lemma_marks_of_lines(pieces: Seq<Seq<char>>, line: int, col: int)
    ensures
        forall|i: int|
            0 <= i < marks_of(pieces, line, col).len() ==> line <= (#[trigger] marks_of(
                pieces,
                line,
                col,
            )[i]).0 < line + pieces.len(),
    decreases pieces.len(),
{
    if pieces.len() > 0 {
        lemma_marks_of_lines(pieces.drop_last(), line, col);
        let r = marks_of(pieces.drop_last(), line, col);
        let m = marks_of(pieces, line, col);
        assert forall|i: int| 0 <= i < m.len() implies line <= (#[trigger] m[i]).0 < line
            + pieces.len() by {
            if i < r.len() {
                assert(m[i] == r[i]);
            }
        }
    }
}

/// A text that is marked as a whole adds nothing to what is left.
proof fn lemma_append_marked(s: Seq<char>, t: Seq<char>, marks: Seq<Mark>, base: int)
    requires
        marks_end_by(marks, walk_end(s, base, 0)),
        marks_ascend(marks),
    ensures
        ({
            let e = walk_end(s, base, 0);
            let m = marks + marks_of(text::split_on(t, '\n'), e.0, e.1);
            &&& unmarked(s + t, m, base) == unmarked(s, marks, base)
            &&& marks_end_by(m, walk_end(s + t, base, 0))
            &&& marks_ascend(m)
        }),
    decreases t.len(),
{
    let e = walk_end(s, base, 0);
    let pieces = text::split_on(t, '\n');
    let m = marks + marks_of(pieces, e.0, e.1);
    if t.len() == 0 {
        reveal_with_fuel(marks_of, 2);
        assert(m == marks);
        assert(s + t == s);
    } else {
        let d = t.drop_last();
        let c = t.last();
        lemma_append_marked(s, d, marks, base);
        let ps = text::split_on(d, '\n');
        text::lemma_split_pieces(d, '\n');
        text::lemma_split_pieces(t, '\n');
        let m0 = marks + marks_of(ps, e.0, e.1);
        let at = walk_end(s + d, base, 0);
        let end = walk_end(s + t, base, 0);
        assert((s + d).push(c) == s + t);
        assert((s + t).drop_last() == s + d);
        lemma_walk_later(s + d, c, base, 0);
        lemma_walk_concat(s, d, base, 0);
        if c == '\n' {
            assert(pieces == ps.push(Seq::<char>::empty()));
            assert(pieces.drop_last() == ps);
            assert(m == m0);
        } else {
            assert(pieces == ps.update(ps.len() - 1, ps.last().push(c)));
            assert(pieces.drop_last() == ps.drop_last());
            let k = ps.len() - 1;
            let start = if k == 0 {
                e.1
            } else {
                0
            };
            let head = marks_of(ps.drop_last(), e.0, e.1);
            let last = (e.0 + k, start, start + text::blen(pieces.last()));
            lemma_marks_of_lines(ps.drop_last(), e.0, e.1);
            assert(m == (marks + head).push(last));
            text::lemma_encode_push(ps.last(), c);
            text::lemma_char_len(c);
            lemma_walk_push(s + d, c, base, 0);
            assert(at == (e.0 + k, start + text::blen(ps.last())));
            assert(end == (last.0, last.2));
            lemma_last_mark_grows(marks, head, ps.last(), e.0 + k, start, c);
            assert(m0 == with_last(marks + head, ps.last(), e.0 + k, start));
            assert(m == with_last(marks + head, ps.last().push(c), e.0 + k, start));
            assert(m[m.len() - 1] == last);
            assert(marked(m, at.0, at.1));
            lemma_unmarked_same(s + d, m0, m, base);
            assert forall|i: int| 0 <= i < m.len() implies {
                let x = #[trigger] m[i];
                x.0 < end.0 || (x.0 == end.0 && x.2 <= end.1)
            } by {
                if i < m.len() - 1 {
                    assert(m[i] == m0[i]);
                }
            }
            assert forall|i: int, j: int| 0 <= i < j < m.len() implies {
                let (a, b) = (#[trigger] m[i], #[trigger] m[j]);
                a.0 < b.0 || (a.0 == b.0 && a.2 <= b.1)
            } by {
                assert(m[i] == m0[i]);
                if j < m.len() - 1 {
                    assert(m[j] == m0[j]);
                } else if i < marks.len() {
                    assert(m[i] == marks[i]);
                } else {
                    assert(m[i] == head[i - marks.len()]);
                }
            }
            assert forall|i: int| 0 <= i < m.len() implies (#[trigger] m[i]).1 < m[i].2 by {
                if i < m.len() - 1 {
                    assert(m[i] == m0[i]);
                }
            }
        }
    }
}

/// Marks with one more over `piece` at byte `start` of line `line`, unless it is empty.
spec fn with_last(marks: Seq<Mark>, piece: Seq<char>, line: int, start: int) -> Seq<Mark> {
    if piece.len() == 0 {
        marks
    } else {
        marks.push((line, start, start + text::blen(piece)))
    }
}

/// A character more under the last mark changes nothing before it.
proof fn lemma_last_mark_grows(
    marks: Seq<Mark>,
    head: Seq<Mark>,
    piece: Seq<char>,
    line: int,
    start: int,
    c: char,
)
    ensures
        ({
            let a = with_last(marks + head, piece, line, start);
            let b = with_last(marks + head, piece.push(c), line, start);
            forall|p: (int, int)| #[trigger]
                earlier(p, (line, start + text::blen(piece))) ==> marked(a, p.0, p.1) == marked(
                    b,
                    p.0,
                    p.1,
                )
        }),
{
    let base = marks + head;
    let a = with_last(base, piece, line, start);
    let b = with_last(base, piece.push(c), line, start);
    text::lemma_encode_push(piece, c);
    assert(piece.len() == 0 ==> text::blen(piece) == 0);
    let n = base.len() as int;
    assert forall|p: (int, int)| #[trigger]
        earlier(p, (line, start + text::blen(piece))) implies marked(a, p.0, p.1) == marked(
        b,
        p.0,
        p.1,
    ) by {
        if marked(a, p.0, p.1) {
            let k = choose|k: int|
                0 <= k < a.len() && (#[trigger] a[k]).0 == p.0 && a[k].1 <= p.1 < a[k].2;
            if k < n {
                assert(b[k] == a[k]);
            } else {
                assert(b[n].0 == p.0 && b[n].1 <= p.1 < b[n].2);
            }
        }
        if marked(b, p.0, p.1) {
            let k = choose|k: int|
                0 <= k < b.len() && (#[trigger] b[k]).0 == p.0 && b[k].1 <= p.1 < b[k].2;
            if k < n {
                assert(a[k] == b[k]);
            } else {
                assert(piece.len() > 0);
                assert(a[n].0 == p.0 && a[n].1 <= p.1 < a[n].2);
            }
        }
    }
}

/// The marks of a side stand in order, and what they leave is what both sides have in common.
pub proof fn lemma_side_marks(changes: Seq<(WordTag, Seq<char>)>, mine: WordTag, base: int)
    requires
        mine != WordTag::Equal,
    ensures
        marks_ascend(side_state(changes, mine, base).marks),
        unmarked(side_text(changes, mine), side_state(changes, mine, base).marks, base)
            == common_text(changes),
{
    lemma_side_marks_end(changes, mine, base);
}

proof fn lemma_side_marks_end(changes: Seq<(WordTag, Seq<char>)>, mine: WordTag, base: int)
    requires
        mine != WordTag::Equal,
    ensures
        ({
            let s = side_state(changes, mine, base);
            &&& marks_ascend(s.marks)
            &&& marks_end_by(s.marks, (s.line, s.col))
            &&& unmarked(side_text(changes, mine), s.marks, base) == common_text(changes)
        }),
    decreases changes.len(),
{
    if changes.len() > 0 {
        let d = changes.drop_last();
        let (tag, t) = changes.last();
        lemma_side_marks_end(d, mine, base);
        lemma_side_position(d, mine, base);
        lemma_side_position(changes, mine, base);
        let done = side_text(d, mine);
        let marks = side_state(d, mine, base).marks;
        if tag == WordTag::Equal {
            lemma_append_plain(done, t, marks, base);
        } else if tag == mine {
            lemma_append_marked(done, t, marks, base);
        }
    }
}

/// How many bytes the pieces have.
spec fn pieces_len(pieces: Seq<Seq<char>>) -> int
    decreases pieces.len(),
{
    if pieces.len() == 0 {
        0
    } else {
        pieces_len(pieces.drop_last()) + text::blen(pieces.last())
    }
}

/// The marks over a text cover its bytes without its newlines, and none is empty.
pub proof fn lemma_marked_len(t: Seq<char>, line: int, col: int)
    ensures
        marked_len(marks_of(text::split_on(t, '\n'), line, col)) == text::blen(t) - (text::split_on(
            t,
            '\n',
        ).len() - 1),
        forall|i: int|
            0 <= i < marks_of(text::split_on(t, '\n'), line, col).len() ==> (#[trigger] marks_of(
                text::split_on(t, '\n'),
                line,
                col,
            )[i]).1 < marks_of(text::split_on(t, '\n'), line, col)[i].2,
{
    lemma_pieces_len(t);
    lemma_marks_of_len(text::split_on(t, '\n'), line, col);
}

proof fn lemma_marks_of_len(pieces: Seq<Seq<char>>, line: int, col: int)
    ensures
        marked_len(marks_of(pieces, line, col)) == pieces_len(pieces),
        forall|i: int|
            0 <= i < marks_of(pieces, line, col).len() ==> (#[trigger] marks_of(
                pieces,
                line,
                col,
            )[i]).1 < marks_of(pieces, line, col)[i].2,
    decreases pieces.len(),
{
    if pieces.len() > 0 {
        lemma_marks_of_len(pieces.drop_last(), line, col);
        let r = marks_of(pieces.drop_last(), line, col);
        let m = marks_of(pieces, line, col);
        text::lemma_blen_bounds(pieces.last());
        if pieces.last().len() > 0 {
            assert(m.drop_last() == r);
        } else {
            assert(text::blen(pieces.last()) == 0);
        }
        assert forall|i: int| 0 <= i < m.len() implies (#[trigger] m[i]).1 < m[i].2 by {
            if i < r.len() {
                assert(m[i] == r[i]);
            }
        }
    }
}

proof fn lemma_pieces_len(t: Seq<char>)
    ensures
        pieces_len(text::split_on(t, '\n')) + text::split_on(t, '\n').len() - 1 == text::blen(t),
    decreases t.len(),
{
    let pieces = text::split_on(t, '\n');
    if t.len() == 0 {
        reveal_with_fuel(pieces_len, 2);
        assert(text::blen(Seq::<char>::empty()) == 0);
        assert(pieces == seq![Seq::<char>::empty()]);
        assert(pieces.drop_last() == Seq::<Seq<char>>::empty());
    } else {
        let d = t.drop_last();
        let ps = text::split_on(d, '\n');
        lemma_pieces_len(d);
        text::lemma_split_pieces(d, '\n');
        text::lemma_encode_push(d, t.last());
        assert(d.push(t.last()) == t);
        if t.last() == '\n' {
            assert(pieces == ps.push(Seq::<char>::empty()));
            assert(pieces.drop_last() == ps);
            assert(text::blen(Seq::<char>::empty()) == 0);
            text::lemma_char_len('\n');
        } else {
            assert(pieces == ps.update(ps.len() - 1, ps.last().push(t.last())));
            assert(pieces.drop_last() == ps.drop_last());
            text::lemma_encode_push(ps.last(), t.last());
        }
    }
}

/// A mark covers a piece between newlines as a whole: the `k`th piece stands on the `k`th line
/// from `line` on, the first at `col` and each other one at the start of its line.
pub proof fn lemma_marks_are_pieces(pieces: Seq<Seq<char>>, line: int, col: int)
    ensures
        forall|i: int|
            0 <= i < marks_of(pieces, line, col).len() ==> {
                let m = #[trigger] marks_of(pieces, line, col)[i];
                let k = m.0 - line;
                &&& 0 <= k < pieces.len()
                &&& pieces[k].len() > 0
                &&& m.1 == (if k == 0 {
                    col
                } else {
                    0
                })
                &&& m.2 == m.1 + text::blen(pieces[k])
            },
        forall|k: int|
            0 <= k < pieces.len() && (#[trigger] pieces[k]).len() > 0 ==> exists|i: int|
                0 <= i < marks_of(pieces, line, col).len() && (#[trigger] marks_of(
                    pieces,
                    line,
                    col,
                )[i]).0 == line + k,
    decreases pieces.len(),
{
    if pieces.len() > 0 {
        let d = pieces.drop_last();
        let n = pieces.len() - 1;
        lemma_marks_are_pieces(d, line, col);
        let r = marks_of(d, line, col);
        let m = marks_of(pieces, line, col);
        assert forall|i: int| 0 <= i < m.len() implies {
            let x = #[trigger] m[i];
            let k = x.0 - line;
            &&& 0 <= k < pieces.len()
            &&& pieces[k].len() > 0
            &&& x.1 == (if k == 0 {
                col
            } else {
                0
            })
            &&& x.2 == x.1 + text::blen(pieces[k])
        } by {
            if i < r.len() {
                assert(m[i] == r[i]);
                assert(d[r[i].0 - line] == pieces[r[i].0 - line]);
            }
        }
        assert forall|k: int| 0 <= k < pieces.len() && (#[trigger] pieces[k]).len() > 0 implies (
        exists|i: int| 0 <= i < m.len() && (#[trigger] m[i]).0 == line + k) by {
            if k < n {
                assert(d[k] == pieces[k]);
                let i = choose|i: int| 0 <= i < r.len() && (#[trigger] r[i]).0 == line + k;
                assert(m[i] == r[i]);
            } else {
                assert(m[m.len() - 1].0 == line + n);
            }
        }
    }
}

proof fn lemma_marked_len_concat(a: Seq<Mark>, b: Seq<Mark>)
    ensures
        marked_len(a + b) == marked_len(a) + marked_len(b),
    decreases b.len(),
{
    if b.len() == 0 {
        assert(a + b == a);
    } else {
        lemma_marked_len_concat(a, b.drop_last());
        assert((a + b).drop_last() == a + b.drop_last());
    }
}

// ---------------------------------------------------------------------------
// Word ranges
// ---------------------------------------------------------------------------

/// Walks over `text` from `line`, `col`.
pub fn advance(text: &str, line: &mut usize, col: &mut usize)
    requires
        *old(line) + text::split_on(text@, '\n').len() - 1 <= usize::MAX,
        *old(col) + text::blen(text@) <= usize::MAX,
    ensures
        (*final(line) as int, *final(col) as int) == walk_end(
            text@,
            *old(line) as int,
            *old(col) as int,
        ),
{
    let chars = text::chars_of(text);
    let ghost l0 = *line as int;
    let ghost c0 = *col as int;
    let mut i: usize = 0;
    proof {
        assert(text::blen(Seq::<char>::empty()) == 0);
        assert(chars@.take(0) == Seq::<char>::empty());
    }
    while i < chars.len()
        invariant
            chars@ == text@,
            i <= chars.len(),
            l0 + text::split_on(text@, '\n').len() - 1 <= usize::MAX,
            c0 + text::blen(text@) <= usize::MAX,
            (*line as int, *col as int) == walk_end(chars@.take(i as int), l0, c0),
            *col <= c0 + text::blen(chars@.take(i as int)),
        decreases chars.len() - i,
    {
        proof {
            let t = chars@.take(i as int);
            assert(chars@.take(i + 1) == t.push(chars@[i as int]));
            lemma_walk_push(t, chars@[i as int], l0, c0);
            text::lemma_encode_push(t, chars@[i as int]);
            lemma_prefix_bounds(chars@, i + 1);
            text::lemma_split_pieces(chars@.take(i + 1), '\n');
            text::lemma_split_pieces(t, '\n');
            assert(chars@.take(i + 1).drop_last() == t);
        }
        let ch = chars[i];
        if ch == '\n' {
            *line += 1;
            *col = 0;
        } else {
            *col += text::len_utf8(ch);
        }
        i += 1;
    }
    proof {
        assert(chars@.take(chars@.len() as int) == text@);
    }
}

/// Marks `text` from `line`, `col` on, and walks over it.
pub fn mark(text: &str, line: &mut usize, col: &mut usize, out: &mut Vec<(usize, Range<usize>)>)
    requires
        *old(line) + text::split_on(text@, '\n').len() - 1 <= usize::MAX,
        *old(col) + text::blen(text@) <= usize::MAX,
    ensures
        (*final(line) as int, *final(col) as int) == walk_end(
            text@,
            *old(line) as int,
            *old(col) as int,
        ),
        marks_view(final(out)@) == marks_view(old(out)@) + marks_of(
            text::split_on(text@, '\n'),
            *old(line) as int,
            *old(col) as int,
        ),
        marked_len(marks_view(final(out)@)) == marked_len(marks_view(old(out)@)) + text::blen(text@)
            - (text::split_on(text@, '\n').len() - 1),
        forall|i: int|
            old(out)@.len() <= i < final(out)@.len() ==> (#[trigger] final(out)@[i]).1.start
                < final(out)@[i].1.end,
{
    let pieces = text::split_str(text, '\n');
    let ghost l0 = *line as int;
    let ghost c0 = *col as int;
    let ghost ps = text::split_on(text@, '\n');
    let n: usize = pieces.len();
    let mut k: usize = 0;
    proof {
        text::lemma_split_pieces(text@, '\n');
        assert(marks_of(ps.take(0), l0, c0) == Seq::<Mark>::empty());
        assert(marks_view(out@) == marks_view(out@) + Seq::<Mark>::empty());
    }
    while k < n
        invariant
            n == pieces@.len(),
            n >= 1,
            k <= n,
            ps == text::split_on(text@, '\n'),
            ps == text::texts(pieces@),
            l0 + n - 1 <= usize::MAX,
            c0 + text::blen(text@) <= usize::MAX,
            *line == l0 + (if k == 0 { 0 } else { k - 1 }),
            k == 0 ==> *col == c0,
            k == 1 ==> *col == c0 + text::blen(ps[0]),
            k > 1 ==> *col == text::blen(ps[k - 1]),
            marks_view(out@) == marks_view(old(out)@) + marks_of(ps.take(k as int), l0, c0),
        decreases n - k,
    {
        if k > 0 {
            *line += 1;
            *col = 0;
        }
        let body = pieces[k].as_str();
        proof {
            assert(body@ == ps[k as int]);
            assert(ps.take(k + 1).drop_last() == ps.take(k as int));
            lemma_piece_len(text@, k as int);
        }
        let ghost before = marks_view(out@);
        let len: usize = body.as_bytes().len();
        proof {
            text::lemma_blen_bounds(body@);
        }
        if len > 0 {
            let start: usize = *col;
            out.push((*line, start..start + len));
            proof {
                assert(marks_view(out@) == before.push((*line as int, start as int, start + len)));
            }
        }
        *col += len;
        k += 1;
    }
    proof {
        assert(ps.take(n as int) == ps);
        let had = marks_view(old(out)@);
        let added = marks_of(ps, l0, c0);
        lemma_marked_len(text@, l0, c0);
        lemma_marked_len_concat(had, added);
        assert forall|i: int| old(out)@.len() <= i < out@.len() implies (#[trigger] out@[i]).1.start
            < out@[i].1.end by {
            assert(marks_view(out@)[i] == added[i - had.len()]);
        }
    }
}

/// No piece has more bytes than the text.
proof fn lemma_piece_len(s: Seq<char>, k: int)
    requires
        0 <= k < text::split_on(s, '\n').len(),
    ensures
        text::blen(text::split_on(s, '\n')[k]) <= text::blen(s),
    decreases s.len(),
{
    if s.len() > 0 {
        let d = s.drop_last();
        text::lemma_split_pieces(d, '\n');
        text::lemma_encode_push(d, s.last());
        assert(d.push(s.last()) == s);
        let p = text::split_on(d, '\n');
        if k < p.len() {
            lemma_piece_len(d, k);
            if k == p.len() - 1 && s.last() != '\n' {
                text::lemma_encode_push(p.last(), s.last());
            }
        } else {
            assert(text::blen(Seq::<char>::empty()) == 0);
        }
    }
}

/// The marks of both sides of a word diff, each side numbering its lines from its base.
pub fn word_ranges_of(changes: &Vec<WordChange>, old_base: usize, new_base: usize) -> (r: (
    Vec<(usize, Range<usize>)>,
    Vec<(usize, Range<usize>)>,
))
    requires
        side_fits(changes_view(changes@), WordTag::Delete, old_base as int),
        side_fits(changes_view(changes@), WordTag::Insert, new_base as int),
    ensures
        marks_view(r.0@) == side_state(
            changes_view(changes@),
            WordTag::Delete,
            old_base as int,
        ).marks,
        marks_view(r.1@) == side_state(
            changes_view(changes@),
            WordTag::Insert,
            new_base as int,
        ).marks,
{
    let mut old_out: Vec<(usize, Range<usize>)> = Vec::new();
    let mut new_out: Vec<(usize, Range<usize>)> = Vec::new();
    let mut o_line: usize = old_base;
    let mut o_col: usize = 0;
    let mut n_line: usize = new_base;
    let mut n_col: usize = 0;
    let ghost cs = changes_view(changes@);
    let mut i: usize = 0;
    proof {
        assert(marks_view(old_out@) == Seq::<Mark>::empty());
        assert(marks_view(new_out@) == Seq::<Mark>::empty());
    }
    while i < changes.len()
        invariant
            i <= changes.len(),
            cs == changes_view(changes@),
            side_fits(cs, WordTag::Delete, old_base as int),
            side_fits(cs, WordTag::Insert, new_base as int),
            (SideState { line: o_line as int, col: o_col as int, marks: marks_view(old_out@) })
                == side_state(cs.take(i as int), WordTag::Delete, old_base as int),
            (SideState { line: n_line as int, col: n_col as int, marks: marks_view(new_out@) })
                == side_state(cs.take(i as int), WordTag::Insert, new_base as int),
        decreases changes.len() - i,
    {
        proof {
            assert(cs.take(i + 1).drop_last() == cs.take(i as int));
            assert(cs.take(i + 1).last() == cs[i as int]);
            lemma_step_fits(cs, WordTag::Delete, old_base as int, i as int);
            lemma_step_fits(cs, WordTag::Insert, new_base as int, i as int);
        }
        let val = changes[i].text.as_str();
        match changes[i].tag {
            WordTag::Equal => {
                advance(val, &mut o_line, &mut o_col);
                advance(val, &mut n_line, &mut n_col);
            },
            WordTag::Delete => {
                mark(val, &mut o_line, &mut o_col, &mut old_out);
            },
            WordTag::Insert => {
                mark(val, &mut n_line, &mut n_col, &mut new_out);
            },
        }
        i += 1;
    }
    proof {
        assert(cs.take(cs.len() as int) == cs);
    }
    (old_out, new_out)
}

/// The next step of a side stays within `usize`.
proof fn lemma_step_fits(cs: Seq<(WordTag, Seq<char>)>, mine: WordTag, base: int, i: int)
    requires
        0 <= i < cs.len(),
        side_fits(cs, mine, base),
    ensures
        cs[i].0 == WordTag::Equal || cs[i].0 == mine ==> ({
            let s = side_state(cs.take(i), mine, base);
            &&& s.line + text::split_on(cs[i].1, '\n').len() - 1 <= usize::MAX
            &&& s.col + text::blen(cs[i].1) <= usize::MAX
        }),
{
    let s = side_state(cs.take(i), mine, base);
    let done = side_text(cs.take(i), mine);
    assert(cs.take(i + 1).drop_last() == cs.take(i));
    lemma_side_position(cs.take(i), mine, base);
    lemma_side_prefix(cs, mine, i + 1);
    let next = side_text(cs.take(i + 1), mine);
    let all = side_text(cs, mine);
    lemma_prefix_bounds(all, next.len() as int);
    lemma_split_concat(done, cs[i].1);
    text::lemma_encode_concat(done, cs[i].1);
    lemma_prefix_bounds(done, done.len() as int);
    text::lemma_split_pieces(done, '\n');
}

/// The word diff of two runs of lines: which bytes of which line to highlight on either side.
pub fn word_ranges(
    old_lines: &[String],
    new_lines: &[String],
    old_base: usize,
    new_base: usize,
) -> (r: (Vec<(usize, Range<usize>)>, Vec<(usize, Range<usize>)>))
    requires
        forall|i: int|
            0 <= i < old_lines@.len() ==> !(#[trigger] old_lines@[i])@.contains('\n'),
        forall|i: int|
            0 <= i < new_lines@.len() ==> !(#[trigger] new_lines@[i])@.contains('\n'),
        old_base + old_lines@.len() <= usize::MAX,
        new_base + new_lines@.len() <= usize::MAX,
    ensures
        ({
            let changes = word_changes(
                text::join_with(text::texts(old_lines@), '\n'),
                text::join_with(text::texts(new_lines@), '\n'),
            );
            &&& marks_view(r.0@) == side_state(changes, WordTag::Delete, old_base as int).marks
            &&& marks_view(r.1@) == side_state(changes, WordTag::Insert, new_base as int).marks
        }),
        marks_in_lines(marks_view(r.0@), text::texts(old_lines@), old_base as int),
        marks_in_lines(marks_view(r.1@), text::texts(new_lines@), new_base as int),
        marks_ascend(marks_view(r.0@)),
        marks_ascend(marks_view(r.1@)),
        ({
            let o = text::join_with(text::texts(old_lines@), '\n');
            let n = text::join_with(text::texts(new_lines@), '\n');
            let common = common_text(word_changes(o, n));
            &&& unmarked(o, marks_view(r.0@), old_base as int) == common
            &&& unmarked(n, marks_view(r.1@), new_base as int) == common
        }),
{
    let old_join = text::join_strs(old_lines, '\n');
    let new_join = text::join_strs(new_lines, '\n');
    let changes = diff_words(&old_join, &new_join);
    let ghost cs = changes_view(changes@);
    let _old_len: usize = old_join.as_str().as_bytes().len();
    let _new_len: usize = new_join.as_str().as_bytes().len();
    proof {
        lemma_join_lines(text::texts(old_lines@));
        lemma_join_lines(text::texts(new_lines@));
        assert(cs.take(cs.len() as int) == cs);
        lemma_side_marks_in_lines(cs, WordTag::Delete, old_base as int, cs.len() as int);
        lemma_side_marks_in_lines(cs, WordTag::Insert, new_base as int, cs.len() as int);
        lemma_no_marks(cs, WordTag::Delete, old_base as int);
        lemma_no_marks(cs, WordTag::Insert, new_base as int);
        lemma_side_marks(cs, WordTag::Delete, old_base as int);
        lemma_side_marks(cs, WordTag::Insert, new_base as int);
    }
    word_ranges_of(&changes, old_base, new_base)
}

/// The lines of joined lines are those lines; no lines at all give one empty line.
proof fn lemma_join_lines(lines: Seq<Seq<char>>)
    requires
        forall|i: int| 0 <= i < lines.len() ==> !(#[trigger] lines[i]).contains('\n'),
    ensures
        lines.len() > 0 ==> text::split_on(text::join_with(lines, '\n'), '\n') == lines,
        lines.len() == 0 ==> text::join_with(lines, '\n') == Seq::<char>::empty(),
{
    if lines.len() > 0 {
        text::lemma_split_join(lines, '\n');
    }
}

/// A side without text has no marks.
proof fn lemma_no_marks(changes: Seq<(WordTag, Seq<char>)>, mine: WordTag, base: int)
    ensures
        side_text(changes, mine).len() == 0 ==> side_state(changes, mine, base).marks.len() == 0,
    decreases changes.len(),
{
    if changes.len() > 0 && side_text(changes, mine).len() == 0 {
        lemma_no_marks(changes.drop_last(), mine, base);
        let text = changes.last().1;
        if changes.last().0 == mine {
            assert(text.len() == 0);
            reveal_with_fuel(marks_of, 2);
            assert(text::split_on(text, '\n') == seq![Seq::<char>::empty()]);
            assert(seq![Seq::<char>::empty()].drop_last() == Seq::<Seq<char>>::empty());
        }
    }
}

// ---------------------------------------------------------------------------
// Hunks
// ---------------------------------------------------------------------------

/// The ranges of a group that changes something are ranges of lines that exist.
proof fn lemma_group_ranges(g: Seq<LineOp>, old_len: nat, new_len: nat)
    requires
        forall|k: int| 0 <= k < g.len() ==> (#[trigger] g[k]).fits(old_len, new_len),
    ensures
        group_deletes(g) ==> old_lo(g) < old_hi(g) <= old_len,
        group_inserts(g) ==> new_lo(g) < new_hi(g) <= new_len,
        0 <= old_lo(g) <= usize::MAX,
        0 <= new_lo(g) <= usize::MAX,
        0 <= old_hi(g) <= usize::MAX,
        0 <= new_hi(g) <= usize::MAX,
        !group_deletes(g) ==> old_lo(g) == usize::MAX && old_hi(g) == 0,
        !group_inserts(g) ==> new_lo(g) == usize::MAX && new_hi(g) == 0,
    decreases g.len(),
{
    if g.len() > 0 {
        let d = g.drop_last();
        assert forall|k: int| 0 <= k < d.len() implies (#[trigger] d[k]).fits(old_len, new_len) by {
            assert(g[k].fits(old_len, new_len));
        }
        lemma_group_ranges(d, old_len, new_len);
        assert(g[g.len() - 1].fits(old_len, new_len));
        lemma_group_step(g);
    }
}

/// Which sides a group changes, from the group without its last operation.
proof fn lemma_group_step(g: Seq<LineOp>)
    requires
        g.len() > 0,
    ensures
        group_deletes(g) == (group_deletes(g.drop_last()) || g.last().deletes()),
        group_inserts(g) == (group_inserts(g.drop_last()) || g.last().inserts()),
{
    let d = g.drop_last();
    let n = g.len() - 1;
    if group_deletes(d) {
        let k = choose|k: int| 0 <= k < d.len() && (#[trigger] d[k]).deletes();
        assert(g[k].deletes());
    }
    if group_inserts(d) {
        let k = choose|k: int| 0 <= k < d.len() && (#[trigger] d[k]).inserts();
        assert(g[k].inserts());
    }
    if g.last().deletes() {
        assert(g[n].deletes());
    }
    if g.last().inserts() {
        assert(g[n].inserts());
    }
    if group_deletes(g) && !g.last().deletes() {
        let k = choose|k: int| 0 <= k < g.len() && (#[trigger] g[k]).deletes();
        assert(d[k].deletes());
    }
    if group_inserts(g) && !g.last().inserts() {
        let k = choose|k: int| 0 <= k < g.len() && (#[trigger] g[k]).inserts();
        assert(d[k].inserts());
    }
}

/// The hunk of one group of line operations, or none if the group changes nothing. The hunk
/// before it ends at `from_old` on the old side and at `from_new` on the new one.
pub fn hunk_of_group(
    old: &Vec<String>,
    new: &Vec<String>,
    group: &Vec<LineOp>,
    from_old: usize,
    from_new: usize,
) -> (r: Option<Hunk>)
    requires
        spliceable(group@, (from_old as int, from_new as int), old@.len(), new@.len()),
        forall|k: int| 0 <= k < group@.len() ==> (#[trigger] group@[k]).fits(old@.len(), new@.len()),
        forall|i: int| 0 <= i < old@.len() ==> !(#[trigger] old@[i])@.contains('\n'),
        forall|i: int| 0 <= i < new@.len() ==> !(#[trigger] new@[i])@.contains('\n'),
    ensures
        match r {
            Some(h) => hunk_of(
                text::texts(old@),
                text::texts(new@),
                group@,
                (from_old as int, from_new as int),
            ) == Some(h.model()) && hunk_sound(h.model(), text::texts(old@), text::texts(new@)),
            None => !group_deletes(group@) && !group_inserts(group@),
        },
{
    let mut lo: usize = usize::MAX;
    let mut hi: usize = 0;
    let mut n_lo: usize = usize::MAX;
    let mut n_hi: usize = 0;
    let mut has_del = false;
    let mut has_ins = false;
    let mut k: usize = 0;
    while k < group.len()
        invariant
            k <= group.len(),
            lo == old_lo(group@.take(k as int)),
            hi == old_hi(group@.take(k as int)),
            n_lo == new_lo(group@.take(k as int)),
            n_hi == new_hi(group@.take(k as int)),
            has_del == group_deletes(group@.take(k as int)),
            has_ins == group_inserts(group@.take(k as int)),
        decreases group.len() - k,
    {
        let op = group[k];
        proof {
            let t = group@.take(k + 1);
            assert(t.drop_last() == group@.take(k as int));
            assert(t.last() == op);
            lemma_group_step(t);
        }
        if op.tag == OpTag::Delete || op.tag == OpTag::Replace {
            has_del = true;
            if op.old_start < lo {
                lo = op.old_start;
            }
            if op.old_end > hi {
                hi = op.old_end;
            }
        }
        if op.tag == OpTag::Insert || op.tag == OpTag::Replace {
            has_ins = true;
            if op.new_start < n_lo {
                n_lo = op.new_start;
            }
            if op.new_end > n_hi {
                n_hi = op.new_end;
            }
        }
        k += 1;
    }
    proof {
        assert(group@.take(group@.len() as int) == group@);
        lemma_group_ranges(group@, old@.len(), new@.len());
    }
    if !has_del && !has_ins {
        return None;
    }
    let kind = if has_del && has_ins {
        HunkKind::Modified
    } else if has_ins {
        HunkKind::Added
    } else {
        HunkKind::Deleted
    };
    proof {
        assert(old.len() == old@.len() && new.len() == new@.len());
    }
    let (old_start, old_end): (usize, usize) = if has_del {
        (lo, hi)
    } else {
        let at: usize = from_old + (n_lo - from_new);
        (at, at)
    };
    let (new_start, new_end): (usize, usize) = if has_ins {
        (n_lo, n_hi)
    } else {
        let at: usize = from_new + (lo - from_old);
        (at, at)
    };
    let ghost ot = text::texts(old@);
    let ghost nt = text::texts(new@);
    let (ow, nw) = if has_del && has_ins {
        let ol = vstd::slice::slice_subrange(old.as_slice(), old_start, old_end);
        let nl = vstd::slice::slice_subrange(new.as_slice(), new_start, new_end);
        proof {
            assert(text::texts(ol@) == ot.subrange(old_start as int, old_end as int));
            assert(text::texts(nl@) == nt.subrange(new_start as int, new_end as int));
        }
        word_ranges(ol, nl, old_start, new_start)
    } else {
        (Vec::new(), Vec::new())
    };
    let h = Hunk {
        kind,
        old_range: old_start..old_end,
        new_range: new_start..new_end,
        old_word_ranges: ow,
        new_word_ranges: nw,
    };
    proof {
        if !(has_del && has_ins) {
            assert(h.model().old_marks == Seq::<Mark>::empty());
            assert(h.model().new_marks == Seq::<Mark>::empty());
        }
        assert(hunk_of(ot, nt, group@, (from_old as int, from_new as int))->0 =~= h.model());
    }
    Some(h)
}

/// The hunk of every group has its place behind the hunks before it.
pub open spec fn groups_spliceable(
    old: Seq<Seq<char>>,
    new: Seq<Seq<char>>,
    groups: Seq<Seq<LineOp>>,
) -> bool {
    forall|g: int|
        0 <= g < groups.len() ==> {
            let hunks = hunks_of_groups(old, new, groups.take(g));
            spliceable(
                #[trigger] groups[g],
                hunks_end(hunks),
                old.len(),
                new.len(),
            )
        }
}

/// Where the last hunk ends on both sides.
fn ends_of(hunks: &Vec<Hunk>) -> (r: (usize, usize))
    ensures
        (r.0 as int, r.1 as int) == hunks_end(hunk_models(hunks@)),
{
    if hunks.len() == 0 {
        (0, 0)
    } else {
        let last = &hunks[hunks.len() - 1];
        (last.old_range.end, last.new_range.end)
    }
}

/// The hunks of the groups of line operations, in order.
#[verifier::spinoff_prover]
#[verifier::rlimit(40)]
pub fn hunks_of(old: &Vec<String>, new: &Vec<String>, groups: &Vec<Vec<LineOp>>) -> (r: Vec<Hunk>)
    requires
        groups_fit(groups_view(groups@), old@.len(), new@.len()),
        groups_spliceable(text::texts(old@), text::texts(new@), groups_view(groups@)),
        forall|i: int| 0 <= i < old@.len() ==> !(#[trigger] old@[i])@.contains('\n'),
        forall|i: int| 0 <= i < new@.len() ==> !(#[trigger] new@[i])@.contains('\n'),
    ensures
        hunk_models(r@) == hunks_of_groups(
            text::texts(old@),
            text::texts(new@),
            groups_view(groups@),
        ),
        forall|i: int|
            0 <= i < r@.len() ==> hunk_sound(
                (#[trigger] r@[i]).model(),
                text::texts(old@),
                text::texts(new@),
            ),
{
    let mut hunks: Vec<Hunk> = Vec::new();
    let ghost gs = groups_view(groups@);
    let ghost ot = text::texts(old@);
    let ghost nt = text::texts(new@);
    let mut g: usize = 0;
    proof {
        assert(hunk_models(hunks@) == Seq::<HunkModel>::empty());
    }
    while g < groups.len()
        invariant
            g <= groups.len(),
            gs == groups_view(groups@),
            ot == text::texts(old@),
            nt == text::texts(new@),
            groups_fit(gs, old@.len(), new@.len()),
            groups_spliceable(ot, nt, gs),
            forall|i: int| 0 <= i < old@.len() ==> !(#[trigger] old@[i])@.contains('\n'),
            forall|i: int| 0 <= i < new@.len() ==> !(#[trigger] new@[i])@.contains('\n'),
            hunk_models(hunks@) == hunks_of_groups(ot, nt, gs.take(g as int)),
            forall|i: int|
                0 <= i < hunks@.len() ==> hunk_sound((#[trigger] hunks@[i]).model(), ot, nt),
        decreases groups.len() - g,
    {
        proof {
            assert(gs.take(g + 1).drop_last() == gs.take(g as int));
            assert(gs.take(g + 1).last() == groups@[g as int]@);
            assert forall|k: int| 0 <= k < groups@[g as int]@.len() implies (
            #[trigger] groups@[g as int]@[k]).fits(old@.len(), new@.len()) by {
                assert(gs[g as int][k].fits(old@.len(), new@.len()));
            }
        }
        let ghost before = hunk_models(hunks@);
        let (from_old, from_new) = ends_of(&hunks);
        proof {
            assert(gs[g as int] == groups@[g as int]@);
            assert(spliceable(
                gs[g as int],
                hunks_end(before),
                ot.len(),
                nt.len(),
            ));
        }
        match hunk_of_group(old, new, &groups[g], from_old, from_new) {
            Some(h) => {
                let ghost m = h.model();
                hunks.push(h);
                proof {
                    assert(hunk_models(hunks@) == before.push(m));
                }
            },
            None => {},
        }
        g += 1;
    }
    proof {
        assert(gs.take(gs.len() as int) == gs);
    }
    hunks
}

fn clone_marks(v: &Vec<(usize, Range<usize>)>) -> (r: Vec<(usize, Range<usize>)>)
    ensures
        marks_view(r@) == marks_view(v@),
{
    let mut r: Vec<(usize, Range<usize>)> = Vec::new();
    let mut i: usize = 0;
    while i < v.len()
        invariant
            i <= v@.len(),
            marks_view(r@) == marks_view(v@).take(i as int),
        decreases v@.len() - i,
    {
        let ghost before = marks_view(r@);
        let m = &v[i];
        r.push((m.0, m.1.start..m.1.end));
        proof {
            assert(marks_view(r@) == before.push(marks_view(v@)[i as int]));
            assert(marks_view(v@).take(i + 1) == before.push(marks_view(v@)[i as int]));
        }
        i += 1;
    }
    proof {
        assert(marks_view(v@).take(v@.len() as int) == marks_view(v@));
    }
    r
}

impl Clone for Hunk {
    fn clone(&self) -> (r: Self)
        ensures
            r.model() == self.model(),
    {
        Hunk {
            kind: self.kind,
            old_range: self.old_range.start..self.old_range.end,
            new_range: self.new_range.start..self.new_range.end,
            old_word_ranges: clone_marks(&self.old_word_ranges),
            new_word_ranges: clone_marks(&self.new_word_ranges),
        }
    }
}

impl Clone for FileDiff {
    fn clone(&self) -> (r: Self)
        ensures
            text::texts(r.old@) == text::texts(self.old@),
            text::texts(r.new@) == text::texts(self.new@),
            hunk_models(r.hunks@) == hunk_models(self.hunks@),
    {
        let mut hunks: Vec<Hunk> = Vec::new();
        let ghost all = hunk_models(self.hunks@);
        let mut i: usize = 0;
        while i < self.hunks.len()
            invariant
                i <= self.hunks@.len(),
                all == hunk_models(self.hunks@),
                hunk_models(hunks@) == all.take(i as int),
            decreases self.hunks@.len() - i,
        {
            let ghost before = hunk_models(hunks@);
            let h = self.hunks[i].clone();
            let ghost m = h.model();
            hunks.push(h);
            proof {
                assert(m == all[i as int]);
                assert(hunk_models(hunks@) == before.push(m));
                assert(all.take(i + 1) == before.push(m));
            }
            i += 1;
        }
        proof {
            assert(all.take(all.len() as int) == all);
        }
        FileDiff {
            old: text::clone_texts(&self.old),
            new: text::clone_texts(&self.new),
            hunks,
        }
    }
}

/// The diff of `r` describes the change from `before` to `after`.
pub open spec fn diff_describes(r: FileDiff, before: Seq<char>, after: Seq<char>) -> bool {
    let old = text::texts(r.old@);
    let new = text::texts(r.new@);
    let hunks = hunk_models(r.hunks@);
    &&& old == text::split_on(before, '\n')
    &&& new == text::split_on(after, '\n')
    &&& hunks == hunks_of_groups(old, new, line_diff_groups(old, new))
    &&& forall|i: int| 0 <= i < hunks.len() ==> hunk_sound(#[trigger] hunks[i], old, new)
    &&& hunks_aligned(hunks, old, new)
    &&& applied(old, new, hunks) == new
    &&& reverted(new, old, hunks) == old
    &&& hunks.len() == 0 <==> before == after
}

impl FileDiff {
    /// The line diff of two texts, with word ranges inside modified regions.
    ///
    /// Lines are split at `'\n'`, so a trailing newline becomes a last empty line on both
    /// sides. Both sides agree outside the hunks, and identical texts have none.
    pub fn compute(before: &str, after: &str) -> (r: Self)
        ensures
            diff_describes(r, before@, after@),
    {
        let old_lines = text::split_str(before, '\n');
        let new_lines = text::split_str(after, '\n');
        proof {
            text::lemma_split_pieces(before@, '\n');
            text::lemma_split_pieces(after@, '\n');
            assert forall|i: int| 0 <= i < old_lines@.len() implies !(
            #[trigger] old_lines@[i])@.contains('\n') by {
                assert(text::texts(old_lines@)[i] == old_lines@[i]@);
            }
            assert forall|i: int| 0 <= i < new_lines@.len() implies !(
            #[trigger] new_lines@[i])@.contains('\n') by {
                assert(text::texts(new_lines@)[i] == new_lines@[i]@);
            }
        }
        let groups = diff_lines(&old_lines, &new_lines);
        let ghost ot = text::texts(old_lines@);
        let ghost nt = text::texts(new_lines@);
        let ghost gs = groups_view(groups@);
        proof {
            lemma_groups_spliceable(ot, nt, gs);
        }
        let hunks = hunks_of(&old_lines, &new_lines, &groups);
        proof {
            let hm = hunk_models(hunks@);
            lemma_hunks_in_step(ot, nt, gs, gs.len() as int);
            assert(gs.take(gs.len() as int) == gs);
            lemma_hunks_applied(ot, nt, hm);
            text::lemma_join_split(before@, '\n');
            text::lemma_join_split(after@, '\n');
            if before@ == after@ {
                assert(gs.len() == 0);
            }
            if hm.len() == 0 {
                assert(ot.skip(0) == ot);
                assert(nt.skip(0) == nt);
            }
            assert forall|i: int| 0 <= i < hm.len() implies hunk_sound(#[trigger] hm[i], ot, nt) by {
                assert(hm[i] == hunks@[i].model());
            }
        }
        FileDiff { old: old_lines, new: new_lines, hunks }
    }
}

/// The ranges of a group are those of its only change.
proof fn lemma_only_change_ranges(g: Seq<LineOp>, k: int, n: int)
    requires
        only_change(g, k),
        0 <= n <= g.len(),
    ensures
        n > k && g[k].deletes() ==> old_lo(g.take(n)) == g[k].old_start && old_hi(g.take(n))
            == g[k].old_end,
        n > k && g[k].inserts() ==> new_lo(g.take(n)) == g[k].new_start && new_hi(g.take(n))
            == g[k].new_end,
        n <= k ==> old_lo(g.take(n)) == usize::MAX && old_hi(g.take(n)) == 0 && new_lo(g.take(n))
            == usize::MAX && new_hi(g.take(n)) == 0,
    decreases n,
{
    if n > 0 {
        lemma_only_change_ranges(g, k, n - 1);
        assert(g.take(n).drop_last() == g.take(n - 1));
        assert(g.take(n).last() == g[n - 1]);
    }
}

/// What a group does is what its only change does.
proof fn lemma_group_is_change(g: Seq<LineOp>)
    requires
        has_one_change(g),
    ensures
        ({
            let op = change_in(g);
            &&& op.deletes() || op.inserts()
            &&& group_deletes(g) == op.deletes()
            &&& group_inserts(g) == op.inserts()
            &&& op.deletes() ==> old_lo(g) == op.old_start && old_hi(g) == op.old_end
            &&& op.inserts() ==> new_lo(g) == op.new_start && new_hi(g) == op.new_end
        }),
{
    let k = choose|k: int| only_change(g, k);
    lemma_only_change_ranges(g, k, g.len() as int);
    assert(g.take(g.len() as int) == g);
    assert(change_in(g) == g[k]);
    if group_deletes(g) {
        let j = choose|j: int| 0 <= j < g.len() && (#[trigger] g[j]).deletes();
        assert(j == k);
    }
    if group_inserts(g) {
        let j = choose|j: int| 0 <= j < g.len() && (#[trigger] g[j]).inserts();
        assert(j == k);
    }
}

/// The first `n` groups are one hunk each, which stands at the place of the group's change.
proof fn lemma_hunks_in_step(
    old: Seq<Seq<char>>,
    new: Seq<Seq<char>>,
    groups: Seq<Seq<LineOp>>,
    n: int,
)
    requires
        one_change_each(groups),
        in_step(groups, old, new),
        0 <= n <= groups.len(),
    ensures
        ({
            let hs = hunks_of_groups(old, new, groups.take(n));
            &&& hs.len() == n
            &&& hunks_end(hs) == changes_end(groups.take(n))
            &&& hunks_follow(hs, old, new)
        }),
    decreases n,
{
    if n > 0 {
        lemma_hunks_in_step(old, new, groups, n - 1);
        let t = groups.take(n);
        let d = groups.take(n - 1);
        assert(t.drop_last() == d);
        assert(t.last() == groups[n - 1]);
        assert(has_one_change(groups[n - 1]));
        lemma_group_is_change(groups[n - 1]);
        let op = change_in(groups[n - 1]);
        let from = changes_end(d);
        let p = place_of(op, from);
        assert(follows(p, from, n - 1 > 0, old, new));
        let hd = hunks_of_groups(old, new, d);
        let hs = hunks_of_groups(old, new, t);
        let h = hunk_of(old, new, groups[n - 1], from)->0;
        assert(hs == hd.push(h));
        assert(h.old_range == p.old);
        assert(h.new_range == p.new);
        assert(h.place() == p);
        if n > 1 {
            assert(hd.last().ends() == from);
        }
        assert forall|i: int, j: int| 0 <= i && j == i + 1 && j < hs.len() implies follows(
            (#[trigger] hs[j]).place(),
            (#[trigger] hs[i]).ends(),
            true,
            old,
            new,
        ) by {
            assert(hs[i] == hd[i]);
            if j < n - 1 {
                assert(hs[j] == hd[j]);
            }
        }
    }
}

/// Groups that stand in step have their places.
proof fn lemma_groups_spliceable(
    old: Seq<Seq<char>>,
    new: Seq<Seq<char>>,
    groups: Seq<Seq<LineOp>>,
)
    requires
        one_change_each(groups),
        in_step(groups, old, new),
    ensures
        groups_spliceable(old, new, groups),
{
    assert forall|g: int| 0 <= g < groups.len() implies {
        let hunks = hunks_of_groups(old, new, groups.take(g));
        spliceable(
            #[trigger] groups[g],
            hunks_end(hunks),
            old.len(),
            new.len(),
        )
    } by {
        lemma_hunks_in_step(old, new, groups, g);
        assert(has_one_change(groups[g]));
        lemma_group_is_change(groups[g]);
    }
}

/// Applying hunks that follow one another makes the old side up to the last of them the new one.
proof fn lemma_applied(
    old: Seq<Seq<char>>,
    new: Seq<Seq<char>>,
    hunks: Seq<HunkModel>,
    tail: Seq<Seq<char>>,
)
    requires
        hunks_follow(hunks, old, new),
    ensures
        ({
            let e = hunks_end(hunks);
            &&& applied(old.take(e.0) + tail, new, hunks) == new.take(e.1) + tail
            &&& reverted(new.take(e.1) + tail, old, hunks) == old.take(e.0) + tail
        }),
    decreases hunks.len(),
{
    let e = hunks_end(hunks);
    if hunks.len() == 0 {
        assert(old.take(0) == new.take(0));
    } else {
        let n = hunks.len() as int;
        let d = hunks.drop_last();
        let h = hunks[n - 1];
        let pe = hunks_end(d);
        assert forall|i: int, j: int| 0 <= i && j == i + 1 && j < d.len() implies follows(
            (#[trigger] d[j]).place(),
            (#[trigger] d[i]).ends(),
            true,
            old,
            new,
        ) by {
            assert(d[i] == hunks[i] && d[j] == hunks[j]);
        }
        if n > 1 {
            assert(pe == hunks[n - 2].ends());
        }
        assert(follows(h.place(), pe, n > 1, old, new));
        let same = old.subrange(pe.0, h.old_range.0);
        let ol = old.subrange(h.old_range.0, h.old_range.1);
        let nl = new.subrange(h.new_range.0, h.new_range.1);
        assert(spliced(old.take(e.0) + tail, h.old_range, nl) == old.take(pe.0) + (same + nl + tail));
        assert(spliced(new.take(e.1) + tail, h.new_range, ol) == new.take(pe.1) + (same + ol + tail));
        lemma_applied(old, new, d, same + nl + tail);
        lemma_applied(old, new, d, same + ol + tail);
        assert(new.take(pe.1) + (same + nl + tail) == new.take(e.1) + tail);
        assert(old.take(pe.0) + (same + ol + tail) == old.take(e.0) + tail);
    }
}

/// Applying aligned hunks to the old side gives the new one, and reverting them on the new side
/// gives the old one.
pub proof fn lemma_hunks_applied(
    old: Seq<Seq<char>>,
    new: Seq<Seq<char>>,
    hunks: Seq<HunkModel>,
)
    requires
        hunks_aligned(hunks, old, new),
    ensures
        applied(old, new, hunks) == new,
        reverted(new, old, hunks) == old,
{
    let e = hunks_end(hunks);
    let n = hunks.len() as int;
    if n > 1 {
        assert(follows(hunks[n - 1].place(), hunks[n - 2].ends(), true, old, new));
    }
    let tail = old.skip(e.0);
    lemma_applied(old, new, hunks, tail);
    assert(old.take(e.0) + tail == old);
    assert(new.take(e.1) + tail == new);
}

// ---------------------------------------------------------------------------
// What is marked, word by word
// ---------------------------------------------------------------------------

/// The text of a region: its lines with newlines between them.
pub open spec fn region_text(lines: Seq<Seq<char>>, range: (int, int)) -> Seq<char> {
    text::join_with(lines.subrange(range.0, range.1), '\n')
}

/// Where character `j` of the run `n` of a word diff stands on one side.
pub open spec fn word_place(
    changes: Seq<(WordTag, Seq<char>)>,
    mine: WordTag,
    base: int,
    n: int,
    j: int,
) -> (int, int) {
    walk_end(side_text(changes.take(n), mine) + changes[n].1.take(j), base, 0)
}

/// A word of its own is marked on a side, every character of it; a word that both sides have is
/// not, and no character of it is.
pub proof fn lemma_word_marked(
    changes: Seq<(WordTag, Seq<char>)>,
    mine: WordTag,
    base: int,
    n: int,
    j: int,
)
    requires
        mine != WordTag::Equal,
        0 <= n < changes.len(),
        0 <= j < changes[n].1.len(),
        changes[n].1[j] != '\n',
        changes[n].0 == WordTag::Equal || changes[n].0 == mine,
    ensures
        ({
            let at = word_place(changes, mine, base, n, j);
            marked(side_state(changes, mine, base).marks, at.0, at.1) <==> changes[n].0 == mine
        }),
{
    let c = changes.take(n + 1);
    let d = changes.take(n);
    let t = changes[n].1;
    assert(c.drop_last() =~= d);
    let done = side_text(d, mine);
    let e = walk_end(done, base, 0);
    let at = word_place(changes, mine, base, n, j);
    lemma_side_position(d, mine, base);
    lemma_side_position(c, mine, base);
    lemma_side_marks_end(d, mine, base);
    lemma_walk_concat(done, t.take(j), base, 0);
    let rest = t.skip(j);
    assert(done + t =~= (done + t.take(j)) + rest);
    lemma_walk_onward(done + t.take(j), rest, base, 0);
    lemma_walk_onward(done, t.take(j), base, 0);
    lemma_marked_kept(changes, mine, base, n + 1, at);
    let before = side_state(d, mine, base).marks;
    let marks = side_state(c, mine, base).marks;
    assert(!marked(before, at.0, at.1));
    if changes[n].0 == mine {
        let pieces = text::split_on(t, '\n');
        let ps = text::split_on(t.take(j), '\n');
        let k = ps.len() - 1;
        let m = marks_of(pieces, e.0, e.1);
        text::lemma_split_pieces(t.take(j), '\n');
        lemma_piece_holds(t, j);
        lemma_marks_are_pieces(pieces, e.0, e.1);
        assert(pieces[k].len() > 0);
        let i = choose|i: int| 0 <= i < m.len() && (#[trigger] m[i]).0 == e.0 + k;
        assert(marks == before + m);
        assert(marks[before.len() + i] == m[i]);
        assert(marked(marks, at.0, at.1));
    }
}

/// A walk over more text ends later, or where it was if there is none.
proof fn lemma_walk_onward(a: Seq<char>, b: Seq<char>, line: int, col: int)
    ensures
        b.len() == 0 ==> walk_end(a + b, line, col) == walk_end(a, line, col),
        b.len() > 0 ==> earlier(walk_end(a, line, col), walk_end(a + b, line, col)),
    decreases b.len(),
{
    if b.len() == 0 {
        assert(a + b =~= a);
    } else {
        let d = b.drop_last();
        lemma_walk_onward(a, d, line, col);
        assert((a + d).push(b.last()) =~= a + b);
        lemma_walk_later(a + d, b.last(), line, col);
    }
}

/// The piece that character `j` stands in reaches beyond what comes before it.
proof fn lemma_piece_holds(t: Seq<char>, j: int)
    requires
        0 <= j < t.len(),
        t[j] != '\n',
    ensures
        ({
            let pieces = text::split_on(t, '\n');
            let ps = text::split_on(t.take(j), '\n');
            &&& 1 <= ps.len() <= pieces.len()
            &&& pieces[ps.len() - 1].len() > 0
            &&& text::blen(ps.last()) < text::blen(pieces[ps.len() - 1])
        }),
    decreases t.len(),
{
    let d = t.drop_last();
    let c = t.last();
    let ps = text::split_on(t.take(j), '\n');
    text::lemma_split_pieces(t.take(j), '\n');
    text::lemma_split_pieces(d, '\n');
    let q = text::split_on(d, '\n');
    text::lemma_char_len(c);
    if j == t.len() - 1 {
        assert(t.take(j) =~= d);
        text::lemma_encode_push(ps.last(), c);
    } else {
        assert(d.take(j) =~= t.take(j));
        lemma_piece_holds(d, j);
        text::lemma_encode_push(q.last(), c);
    }
}

/// What is marked before the end of the first `n` runs does not depend on the runs behind them.
proof fn lemma_marked_kept(
    changes: Seq<(WordTag, Seq<char>)>,
    mine: WordTag,
    base: int,
    n: int,
    p: (int, int),
)
    requires
        mine != WordTag::Equal,
        0 <= n <= changes.len(),
        earlier(p, walk_end(side_text(changes.take(n), mine), base, 0)),
    ensures
        marked(side_state(changes, mine, base).marks, p.0, p.1) == marked(
            side_state(changes.take(n), mine, base).marks,
            p.0,
            p.1,
        ),
        earlier(p, walk_end(side_text(changes, mine), base, 0)),
    decreases changes.len(),
{
    if n == changes.len() {
        assert(changes.take(n) =~= changes);
    } else {
        let d = changes.drop_last();
        let (tag, t) = changes.last();
        assert(d.take(n) =~= changes.take(n));
        lemma_marked_kept(d, mine, base, n, p);
        let s = side_state(d, mine, base);
        lemma_side_position(d, mine, base);
        lemma_walk_onward(side_text(d, mine), t, base, 0);
        if tag == mine {
            let pieces = text::split_on(t, '\n');
            let m = marks_of(pieces, s.line, s.col);
            lemma_marks_are_pieces(pieces, s.line, s.col);
            let all = s.marks + m;
            if marked(all, p.0, p.1) {
                let k = choose|k: int|
                    0 <= k < all.len() && (#[trigger] all[k]).0 == p.0 && all[k].1 <= p.1
                        < all[k].2;
                if k >= s.marks.len() {
                    assert(all[k] == m[k - s.marks.len()]);
                }
                assert(s.marks[k] == all[k]);
            }
            if marked(s.marks, p.0, p.1) {
                let k = choose|k: int|
                    0 <= k < s.marks.len() && (#[trigger] s.marks[k]).0 == p.0 && s.marks[k].1
                        <= p.1 < s.marks[k].2;
                assert(all[k] == s.marks[k]);
            }
        }
    }
}

/// In a modified region of however many lines a character is marked if and only if the word diff
/// of the two regions, as texts, has it in a word that is deleted, on the old side, or inserted,
/// on the new side. A word that the word diff calls equal carries no mark.
pub proof fn lemma_hunk_words(
    old: Seq<Seq<char>>,
    new: Seq<Seq<char>>,
    g: Seq<LineOp>,
    from: (int, int),
    n: int,
    j: int,
)
    requires
        hunk_of(old, new, g, from) is Some,
        hunk_of(old, new, g, from)->0.kind == HunkKind::Modified,
    ensures
        ({
            let h = hunk_of(old, new, g, from)->0;
            let changes = word_changes(
                region_text(old, h.old_range),
                region_text(new, h.new_range),
            );
            0 <= n < changes.len() && 0 <= j < changes[n].1.len() && changes[n].1[j] != '\n' ==> {
                let o = word_place(changes, WordTag::Delete, h.old_range.0, n, j);
                let i = word_place(changes, WordTag::Insert, h.new_range.0, n, j);
                &&& changes[n].0 == WordTag::Equal ==> !marked(h.old_marks, o.0, o.1) && !marked(
                    h.new_marks,
                    i.0,
                    i.1,
                )
                &&& changes[n].0 == WordTag::Delete ==> marked(h.old_marks, o.0, o.1)
                &&& changes[n].0 == WordTag::Insert ==> marked(h.new_marks, i.0, i.1)
            }
        }),
{
    let h = hunk_of(old, new, g, from)->0;
    let changes = word_changes(region_text(old, h.old_range), region_text(new, h.new_range));
    if 0 <= n < changes.len() && 0 <= j < changes[n].1.len() && changes[n].1[j] != '\n' {
        if changes[n].0 != WordTag::Insert {
            lemma_word_marked(changes, WordTag::Delete, h.old_range.0, n, j);
        }
        if changes[n].0 != WordTag::Delete {
            lemma_word_marked(changes, WordTag::Insert, h.new_range.0, n, j);
        }
    }
}

/// A hunk spans exactly what its group changes: it begins with the first line that an operation
/// deletes or inserts and ends with the last, and its kind says which of the two there are.
pub proof fn lemma_hunk_span(
    old: Seq<Seq<char>>,
    new: Seq<Seq<char>>,
    g: Seq<LineOp>,
    from: (int, int),
    k: int,
)
    requires
        0 <= k < g.len(),
        g[k].deletes() || g[k].inserts(),
    ensures
        ({
            let r = hunk_of(old, new, g, from);
            let h = r->0;
            let del = exists|j: int| 0 <= j < g.len() && (#[trigger] g[j]).deletes();
            let ins = exists|j: int| 0 <= j < g.len() && (#[trigger] g[j]).inserts();
            &&& r is Some
            &&& h.kind == HunkKind::Modified <==> del && ins
            &&& h.kind == HunkKind::Added <==> ins && !del
            &&& h.kind == HunkKind::Deleted <==> del && !ins
            &&& g[k].deletes() ==> h.old_range.0 <= g[k].old_start && g[k].old_end <= h.old_range.1
            &&& g[k].inserts() ==> h.new_range.0 <= g[k].new_start && g[k].new_end <= h.new_range.1
            &&& del ==> exists|j: int|
                0 <= j < g.len() && (#[trigger] g[j]).deletes() && g[j].old_start == h.old_range.0
            &&& del ==> exists|j: int|
                0 <= j < g.len() && (#[trigger] g[j]).deletes() && g[j].old_end == h.old_range.1
            &&& ins ==> exists|j: int|
                0 <= j < g.len() && (#[trigger] g[j]).inserts() && g[j].new_start == h.new_range.0
            &&& ins ==> exists|j: int|
                0 <= j < g.len() && (#[trigger] g[j]).inserts() && g[j].new_end == h.new_range.1
            &&& !del ==> h.old_range.0 == h.old_range.1 && h.old_range.0 - from.0
                == h.new_range.0 - from.1
            &&& !ins ==> h.new_range.0 == h.new_range.1 && h.new_range.0 - from.1
                == h.old_range.0 - from.0
        }),
{
    lemma_hull(g);
    let del = exists|j: int| 0 <= j < g.len() && (#[trigger] g[j]).deletes();
    let ins = exists|j: int| 0 <= j < g.len() && (#[trigger] g[j]).inserts();
    assert(del == group_deletes(g));
    assert(ins == group_inserts(g));
}

/// The bounds of the group bound each of its operations.
spec fn hull(g: Seq<LineOp>) -> bool {
    &&& forall|k: int|
        0 <= k < g.len() && (#[trigger] g[k]).deletes() ==> old_lo(g) <= g[k].old_start
            && g[k].old_end <= old_hi(g)
    &&& forall|k: int|
        0 <= k < g.len() && (#[trigger] g[k]).inserts() ==> new_lo(g) <= g[k].new_start
            && g[k].new_end <= new_hi(g)
}

spec fn hull_met(g: Seq<LineOp>) -> bool {
    &&& group_deletes(g) ==> exists|j: int|
        0 <= j < g.len() && (#[trigger] g[j]).deletes() && g[j].old_start == old_lo(g)
    &&& group_deletes(g) ==> exists|j: int|
        0 <= j < g.len() && (#[trigger] g[j]).deletes() && g[j].old_end == old_hi(g)
    &&& group_inserts(g) ==> exists|j: int|
        0 <= j < g.len() && (#[trigger] g[j]).inserts() && g[j].new_start == new_lo(g)
    &&& group_inserts(g) ==> exists|j: int|
        0 <= j < g.len() && (#[trigger] g[j]).inserts() && g[j].new_end == new_hi(g)
}

proof fn lemma_hull(g: Seq<LineOp>)
    ensures
        hull(g),
        hull_met(g),
        !group_deletes(g) ==> old_lo(g) == usize::MAX && old_hi(g) == 0,
        !group_inserts(g) ==> new_lo(g) == usize::MAX && new_hi(g) == 0,
    decreases g.len(),
{
    if g.len() > 0 {
        let d = g.drop_last();
        let n = g.len() - 1;
        lemma_hull(d);
        lemma_group_step(g);
        assert forall|k: int| 0 <= k < g.len() && (#[trigger] g[k]).deletes() implies old_lo(g)
            <= g[k].old_start && g[k].old_end <= old_hi(g) by {
            if k < n {
                assert(d[k].deletes());
            }
        }
        assert forall|k: int| 0 <= k < g.len() && (#[trigger] g[k]).inserts() implies new_lo(g)
            <= g[k].new_start && g[k].new_end <= new_hi(g) by {
            if k < n {
                assert(d[k].inserts());
            }
        }
        lemma_hull_old(g);
        lemma_hull_new(g);
    }
}

proof fn lemma_hull_old(g: Seq<LineOp>)
    requires
        g.len() > 0,
        hull_met(g.drop_last()),
        !group_deletes(g.drop_last()) ==> old_lo(g.drop_last()) == usize::MAX && old_hi(
            g.drop_last(),
        ) == 0,
    ensures
        group_deletes(g) ==> exists|j: int|
            0 <= j < g.len() && (#[trigger] g[j]).deletes() && g[j].old_start == old_lo(g),
        group_deletes(g) ==> exists|j: int|
            0 <= j < g.len() && (#[trigger] g[j]).deletes() && g[j].old_end == old_hi(g),
{
    let d = g.drop_last();
    let n = g.len() - 1;
    lemma_group_step(g);
    if group_deletes(d) {
        let a = choose|j: int|
            0 <= j < d.len() && (#[trigger] d[j]).deletes() && d[j].old_start == old_lo(d);
        let b = choose|j: int|
            0 <= j < d.len() && (#[trigger] d[j]).deletes() && d[j].old_end == old_hi(d);
        assert(g[a] == d[a] && g[b] == d[b]);
        assert(g[a].deletes() && g[b].deletes());
    }
    if g[n].deletes() {
        assert(g[n].old_start == old_lo(g) || old_lo(g) == old_lo(d));
    }
}

proof fn lemma_hull_new(g: Seq<LineOp>)
    requires
        g.len() > 0,
        hull_met(g.drop_last()),
        !group_inserts(g.drop_last()) ==> new_lo(g.drop_last()) == usize::MAX && new_hi(
            g.drop_last(),
        ) == 0,
    ensures
        group_inserts(g) ==> exists|j: int|
            0 <= j < g.len() && (#[trigger] g[j]).inserts() && g[j].new_start == new_lo(g),
        group_inserts(g) ==> exists|j: int|
            0 <= j < g.len() && (#[trigger] g[j]).inserts() && g[j].new_end == new_hi(g),
{
    let d = g.drop_last();
    let n = g.len() - 1;
    lemma_group_step(g);
    if group_inserts(d) {
        let a = choose|j: int|
            0 <= j < d.len() && (#[trigger] d[j]).inserts() && d[j].new_start == new_lo(d);
        let b = choose|j: int|
            0 <= j < d.len() && (#[trigger] d[j]).inserts() && d[j].new_end == new_hi(d);
        assert(g[a] == d[a] && g[b] == d[b]);
        assert(g[a].inserts() && g[b].inserts());
    }
    if g[n].inserts() {
        assert(g[n].new_start == new_lo(g) || new_lo(g) == new_lo(d));
    }
}

} // verus!
