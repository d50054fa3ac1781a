//! What a frame of an editor paints, in order. Where a row lies and how wide its text is are left
//! to the caller, who says which rows are on the screen.

use crate::buffer;
use crate::editor::CodeEditor;
use crate::layout;
use crate::layout::{Rows, FILLER};
use std::collections::{HashMap, HashSet};
use vstd::prelude::*;

verus! {

broadcast use {vstd::seq_lib::group_seq_properties, vstd::std_specs::hash::group_hash_axioms};

/// One thing that is painted. Offsets are bytes within their row.
#[derive(Debug, Clone, Copy, PartialEq, Eq, Structural)]
pub enum PaintOp {
    /// The band behind the row of the caret.
    CaretRow { row: usize },
    Tint { row: usize, tint: RowTint },
    /// The changed words of a line.
    Word { row: usize, from: usize, to: usize },
    Selected { row: usize, from: usize, to: usize },
    Number { row: usize, number: usize, bright: bool },
    /// The line between the gutter and the text.
    Divider,
    Text { row: usize },
    Chevron { row: usize, folded: bool },
    /// What stands for the folded lines.
    Ellipsis { row: usize },
    /// The ground of a gutter that the text scrolls under.
    Backing { row: usize, tint: RowTint },
    Caret { row: usize, col: usize },
}

/// What is painted behind a row.
#[derive(Debug, Clone, Copy, PartialEq, Eq, Structural)]
pub enum RowTint {
    Plain,
    /// The row shows no line.
    Separator,
    /// The row has the tint of its line.
    Line,
}

/// How an editor is shown.
pub struct Look {
    pub line_numbers: bool,
    /// The gutter stands right of the text.
    pub gutter_right: bool,
    pub focused: bool,
    pub blink_on: bool,
    /// The lines that have a tint.
    pub tinted: HashSet<usize>,
    /// The changed words of lines.
    pub words: HashMap<usize, Vec<(usize, usize)>>,
    /// The rows on the screen: from `first`, up to but without `end`.
    pub first: usize,
    pub end: usize,
}

/// The parts of a frame that go by rows.
#[derive(Debug, Clone, Copy, PartialEq, Eq, Structural)]
pub enum Section {
    Tints,
    Words,
    Numbers,
    Texts,
    RightGutter,
}

impl Look {
    pub open spec fn shows(&self, row: int) -> bool {
        self.first <= row < self.end
    }

    pub fn is_shown(&self, row: usize) -> (r: bool)
        ensures
            r == self.shows(row as int),
    {
        self.first <= row && row < self.end
    }

    /// The tint of a line's row in a gutter.
    pub open spec fn tint_of(&self, line: usize) -> RowTint {
        if line == FILLER {
            RowTint::Separator
        } else if self.tinted@.contains(line) {
            RowTint::Line
        } else {
            RowTint::Plain
        }
    }

    pub open spec fn number_of(&self, row: usize, line: usize) -> PaintOp {
        PaintOp::Number { row, number: (line + 1) as usize, bright: self.tinted@.contains(line) }
    }

    /// What a section paints for a row. `blank` tells that the text is empty, so that the rows
    /// are those of the placeholder.
    pub open spec fn row_ops(
        &self,
        blank: bool,
        section: Section,
        row: usize,
        line: usize,
    ) -> Seq<PaintOp> {
        match section {
            // Blank rows are tinted only where some line is.
            Section::Tints => if self.tinted@.is_empty() || !self.shows(row as int)
                || self.tint_of(line) == RowTint::Plain {
                Seq::empty()
            } else {
                seq![PaintOp::Tint { row, tint: self.tint_of(line) }]
            },
            Section::Words => if line == FILLER || !self.shows(row as int)
                || !self.words@.dom().contains(line) {
                Seq::empty()
            } else {
                Seq::new(
                    self.words@[line]@.len(),
                    |k: int|
                        PaintOp::Word {
                            row,
                            from: self.words@[line]@[k].0,
                            to: self.words@[line]@[k].1,
                        },
                )
            },
            Section::Numbers => if self.gutter_right || !self.line_numbers || line == FILLER
                || !self.shows(row as int) {
                Seq::empty()
            } else {
                seq![self.number_of(row, line)]
            },
            Section::Texts => if blank || self.shows(row as int) {
                seq![PaintOp::Text { row }]
            } else {
                Seq::empty()
            },
            Section::RightGutter => if !self.gutter_right || !self.line_numbers || !self.shows(
                row as int,
            ) {
                Seq::empty()
            } else if line == FILLER {
                seq![PaintOp::Backing { row, tint: RowTint::Separator }]
            } else {
                seq![
                    PaintOp::Backing { row, tint: self.tint_of(line) },
                    self.number_of(row, line),
                ]
            },
        }
    }

    /// What a section paints for the first `n` rows.
    pub open spec fn section_ops(
        &self,
        blank: bool,
        section: Section,
        lines: Seq<usize>,
        n: int,
    ) -> Seq<PaintOp>
        decreases n,
    {
        if n <= 0 {
            Seq::empty()
        } else {
            self.section_ops(blank, section, lines, n - 1) + self.row_ops(
                blank,
                section,
                (n - 1) as usize,
                lines[n - 1],
            )
        }
    }

    /// The first `n` fold marks, each with a sign for what is folded away.
    pub open spec fn fold_ops(&self, gutter: Seq<(usize, bool)>, n: int) -> Seq<PaintOp>
        decreases n,
    {
        if n <= 0 {
            Seq::empty()
        } else {
            let (row, folded) = gutter[n - 1];
            let before = self.fold_ops(gutter, n - 1);
            if !self.shows(row as int) {
                before
            } else if folded {
                before + seq![PaintOp::Chevron { row, folded }, PaintOp::Ellipsis { row }]
            } else {
                before.push(PaintOp::Chevron { row, folded })
            }
        }
    }

    /// The first `n` of the rows that a selection covers.
    pub open spec fn selected_ops(
        &self,
        blank: bool,
        starts: Seq<usize>,
        len: int,
        a: int,
        b: int,
        n: int,
    ) -> Seq<PaintOp>
        decreases n,
    {
        if n <= 0 {
            Seq::empty()
        } else {
            let before = self.selected_ops(blank, starts, len, a, b, n - 1);
            let row = layout::row_at(starts, a, 0) + n - 1;
            let (from, to) = layout::selected_in_row(starts, len, a, b, row);
            if blank || self.shows(row) {
                before.push(
                    PaintOp::Selected { row: row as usize, from: from as usize, to: to as usize },
                )
            } else {
                before
            }
        }
    }

    /// What lies behind the text.
    pub open spec fn back(&self, ed: CodeEditor, rows: Rows) -> Seq<PaintOp> {
        let blank = ed.content@.len() == 0;
        let n = rows.lines@.len() as int;
        let d = ed.doc();
        let at = layout::row_at(rows.starts@, d.cursor(), 0);
        let covered = layout::row_at(rows.starts@, d.end, 0) - layout::row_at(
            rows.starts@,
            d.start,
            0,
        ) + 1;
        let caret_row = PaintOp::CaretRow { row: at as usize };
        one_if(self.line_numbers && !blank && d.start == d.end, caret_row) + self.section_ops(
            blank,
            Section::Tints,
            rows.lines@,
            n,
        ) + self.section_ops(blank, Section::Words, rows.lines@, n) + self.selected_ops(
            blank,
            rows.starts@,
            d.bytes.len() as int,
            d.start,
            d.end,
            if d.start == d.end {
                0
            } else {
                covered
            },
        )
    }

    /// The text, the gutter and the caret.
    pub open spec fn front(&self, ed: CodeEditor, rows: Rows) -> Seq<PaintOp> {
        let blank = ed.content@.len() == 0;
        let n = rows.lines@.len() as int;
        let d = ed.doc();
        let at = layout::row_at(rows.starts@, d.cursor(), 0);
        let col = d.cursor() - rows.starts@[at];
        let gutter = self.line_numbers || (!ed.single_line && ed.syntax.foldable@.len() > 0);
        let marks = if gutter {
            rows.gutter@.len() as int
        } else {
            0
        };
        self.section_ops(blank, Section::Numbers, rows.lines@, n) + one_if(
            !self.gutter_right && gutter,
            PaintOp::Divider,
        ) + self.section_ops(blank, Section::Texts, rows.lines@, n) + self.fold_ops(
            rows.gutter@,
            marks,
        ) + self.section_ops(blank, Section::RightGutter, rows.lines@, n) + one_if(
            self.gutter_right && self.line_numbers,
            PaintOp::Divider,
        ) + one_if(
            self.focused && self.blink_on && d.start == d.end && (blank || self.shows(at)),
            PaintOp::Caret { row: at as usize, col: col as usize },
        )
    }

    fn tint(&self, line: usize) -> (r: RowTint)
        ensures
            r == self.tint_of(line),
    {
        if line == FILLER {
            RowTint::Separator
        } else if self.tinted.contains(&line) {
            RowTint::Line
        } else {
            RowTint::Plain
        }
    }

    fn number(&self, row: usize, line: usize) -> (r: PaintOp)
        requires
            line != FILLER,
        ensures
            r == self.number_of(row, line),
    {
        PaintOp::Number { row, number: line + 1, bright: self.tinted.contains(&line) }
    }

    fn add_words(&self, row: usize, line: usize, out: &mut Vec<PaintOp>)
        ensures
            final(out)@ == old(out)@ + self.row_ops(false, Section::Words, row, line),
    {
        let ghost before = out@;
        if line == FILLER || !self.is_shown(row) {
            proof {
                assert(out@ =~= before + Seq::<PaintOp>::empty());
            }
            return;
        }
        if let Some(ranges) = self.words.get(&line) {
            let mut k: usize = 0;
            while k < ranges.len()
                invariant
                    k <= ranges@.len(),
                    self.words@.dom().contains(line),
                    ranges@ == self.words@[line]@,
                    line != FILLER,
                    self.shows(row as int),
                    out@ =~= before + self.row_ops(false, Section::Words, row, line).take(k as int),
                decreases ranges@.len() - k,
            {
                let (from, to) = ranges[k];
                out.push(PaintOp::Word { row, from, to });
                k += 1;
            }
            proof {
                let ops = self.row_ops(false, Section::Words, row, line);
                assert(ops.take(ops.len() as int) =~= ops);
            }
        } else {
            proof {
                assert(out@ =~= before + Seq::<PaintOp>::empty());
            }
        }
    }

    fn add_row(
        &self,
        blank: bool,
        section: Section,
        row: usize,
        line: usize,
        out: &mut Vec<PaintOp>,
    )
        ensures
            final(out)@ == old(out)@ + self.row_ops(blank, section, row, line),
    {
        let ghost before = out@;
        match section {
            Section::Tints => {
                let tint = self.tint(line);
                if !self.tinted.is_empty() && self.is_shown(row) && tint != RowTint::Plain {
                    out.push(PaintOp::Tint { row, tint });
                }
            },
            Section::Words => {
                self.add_words(row, line, out);
            },
            Section::Numbers => {
                if !self.gutter_right && self.line_numbers && line != FILLER && self.is_shown(row) {
                    out.push(self.number(row, line));
                }
            },
            Section::Texts => {
                if blank || self.is_shown(row) {
                    out.push(PaintOp::Text { row });
                }
            },
            Section::RightGutter => {
                if self.gutter_right && self.line_numbers && self.is_shown(row) {
                    out.push(PaintOp::Backing { row, tint: self.tint(line) });
                    if line != FILLER {
                        out.push(self.number(row, line));
                    }
                }
            },
        }
        proof {
            assert(out@ =~= before + self.row_ops(blank, section, row, line));
        }
    }

    fn add_section(
        &self,
        blank: bool,
        section: Section,
        lines: &Vec<usize>,
        out: &mut Vec<PaintOp>,
    )
        ensures
            final(out)@ == old(out)@ + self.section_ops(
                blank,
                section,
                lines@,
                lines@.len() as int,
            ),
    {
        let ghost before = out@;
        let mut i: usize = 0;
        proof {
            assert(before + self.section_ops(blank, section, lines@, 0) =~= before);
        }
        while i < lines.len()
            invariant
                i <= lines@.len(),
                out@ == before + self.section_ops(blank, section, lines@, i as int),
            decreases lines@.len() - i,
        {
            self.add_row(blank, section, i, lines[i], out);
            i += 1;
            proof {
                assert(out@ =~= before + self.section_ops(blank, section, lines@, i as int));
            }
        }
    }

    fn add_folds(&self, gutter: &Vec<(usize, bool)>, out: &mut Vec<PaintOp>)
        ensures
            final(out)@ == old(out)@ + self.fold_ops(gutter@, gutter@.len() as int),
    {
        let ghost before = out@;
        let mut i: usize = 0;
        proof {
            assert(before + self.fold_ops(gutter@, 0) =~= before);
        }
        while i < gutter.len()
            invariant
                i <= gutter@.len(),
                out@ == before + self.fold_ops(gutter@, i as int),
            decreases gutter@.len() - i,
        {
            let (row, folded) = gutter[i];
            if self.is_shown(row) {
                out.push(PaintOp::Chevron { row, folded });
                if folded {
                    out.push(PaintOp::Ellipsis { row });
                }
            }
            i += 1;
            proof {
                assert(out@ =~= before + self.fold_ops(gutter@, i as int));
            }
        }
    }

    fn add_selected(&self, ed: &CodeEditor, starts: &Vec<usize>, out: &mut Vec<PaintOp>)
        requires
            ed.wf(),
            ed.doc().start <= ed.doc().end,
            starts@.len() > 0,
            starts@[0] <= ed.doc().start,
        ensures
            final(out)@ == old(out)@ + self.selected_ops(
                ed.content@.len() == 0,
                starts@,
                ed.doc().bytes.len() as int,
                ed.doc().start,
                ed.doc().end,
                layout::row_at(starts@, ed.doc().end, 0) - layout::row_at(
                    starts@,
                    ed.doc().start,
                    0,
                ) + 1,
            ),
    {
        let ghost before = out@;
        let blank = ed.content.as_str().is_empty();
        let ghost d = ed.doc();
        let len: usize = buffer::byte_len(ed.content.as_str());
        let sel = ed.selected_range.start..ed.selected_range.end;
        let covered = layout::selection_rows(starts, len, sel);
        let mut i: usize = 0;
        proof {
            assert(before + self.selected_ops(
                blank,
                starts@,
                len as int,
                d.start,
                d.end,
                0,
            ) =~= before);
        }
        while i < covered.len()
            invariant
                i <= covered@.len(),
                forall|k: int|
                    0 <= k < covered@.len() ==> {
                        let (row, from, to) = #[trigger] covered@[k];
                        row == layout::row_at(starts@, d.start, 0) + k && (from as int, to as int)
                            == layout::selected_in_row(
                            starts@,
                            len as int,
                            d.start,
                            d.end,
                            row as int,
                        )
                    },
                out@ == before + self.selected_ops(
                    blank,
                    starts@,
                    len as int,
                    d.start,
                    d.end,
                    i as int,
                ),
            decreases covered@.len() - i,
        {
            let (row, from, to) = covered[i];
            if blank || self.is_shown(row) {
                out.push(PaintOp::Selected { row, from, to });
            }
            i += 1;
            proof {
                assert(out@ =~= before + self.selected_ops(
                    blank,
                    starts@,
                    len as int,
                    d.start,
                    d.end,
                    i as int,
                ));
            }
        }
    }

    fn paint_back(&self, ed: &CodeEditor, rows: &Rows) -> (out: Vec<PaintOp>)
        requires
            ed.wf(),
            rows.wf(),
            rows.starts@.len() > 0,
            rows.starts@[0] == 0,
        ensures
            out@ == self.back(*ed, *rows),
    {
        let blank = ed.content.as_str().is_empty();
        let collapsed = ed.selected_range.start == ed.selected_range.end;
        let (at, _) = layout::locate_in(&rows.starts, ed.cursor());
        let mut out: Vec<PaintOp> = Vec::new();
        let caret_row = PaintOp::CaretRow { row: at };
        add_if(self.line_numbers && !blank && collapsed, caret_row, &mut out);
        proof {
            assert(out@ =~= one_if(self.line_numbers && !blank && collapsed, caret_row));
        }
        self.add_section(blank, Section::Tints, &rows.lines, &mut out);
        self.add_section(blank, Section::Words, &rows.lines, &mut out);
        if collapsed {
            proof {
                assert(out@ =~= out@ + Seq::<PaintOp>::empty());
            }
        } else {
            self.add_selected(ed, &rows.starts, &mut out);
        }
        out
    }

    fn paint_front(&self, ed: &CodeEditor, rows: &Rows) -> (out: Vec<PaintOp>)
        requires
            ed.wf(),
            rows.wf(),
            rows.starts@.len() > 0,
            rows.starts@[0] == 0,
        ensures
            out@ == self.front(*ed, *rows),
    {
        let blank = ed.content.as_str().is_empty();
        let gutter = self.line_numbers || (!ed.single_line && ed.syntax.foldable.len() > 0);
        let collapsed = ed.selected_range.start == ed.selected_range.end;
        let cursor: usize = ed.cursor();
        let (at, start) = layout::locate_in(&rows.starts, cursor);
        let mut out: Vec<PaintOp> = Vec::new();
        self.add_section(blank, Section::Numbers, &rows.lines, &mut out);
        proof {
            assert(out@ =~= self.section_ops(
                blank,
                Section::Numbers,
                rows.lines@,
                rows.lines@.len() as int,
            ));
        }
        add_if(!self.gutter_right && gutter, PaintOp::Divider, &mut out);
        self.add_section(blank, Section::Texts, &rows.lines, &mut out);
        if gutter {
            self.add_folds(&rows.gutter, &mut out);
        } else {
            proof {
                assert(out@ =~= out@ + Seq::<PaintOp>::empty());
            }
        }
        self.add_section(blank, Section::RightGutter, &rows.lines, &mut out);
        add_if(self.gutter_right && self.line_numbers, PaintOp::Divider, &mut out);
        add_if(
            self.focused && self.blink_on && collapsed && (blank || self.is_shown(at)),
            PaintOp::Caret { row: at, col: cursor - start },
            &mut out,
        );
        out
    }

    /// What a frame paints. With an empty text the rows are those of the placeholder.
    pub fn paint(&self, ed: &CodeEditor, rows: &Rows) -> (r: Vec<PaintOp>)
        requires
            ed.wf(),
            rows.wf(),
            rows.starts@.len() > 0,
            rows.starts@[0] == 0,
        ensures
            r@ == self.back(*ed, *rows) + self.front(*ed, *rows),
    {
        let mut out = self.paint_back(ed, rows);
        let mut front = self.paint_front(ed, rows);
        out.append(&mut front);
        out
    }
}

/// `op`, if a condition holds.
pub open spec fn one_if(cond: bool, op: PaintOp) -> Seq<PaintOp> {
    if cond {
        seq![op]
    } else {
        Seq::empty()
    }
}

fn add_if(cond: bool, op: PaintOp, out: &mut Vec<PaintOp>)
    ensures
        final(out)@ == old(out)@ + one_if(cond, op),
{
    let ghost before = out@;
    if cond {
        out.push(op);
    }
    proof {
        assert(out@ =~= before + one_if(cond, op));
    }
}

/// The row that something is painted for.
pub open spec fn row_of_op(op: PaintOp) -> Option<int> {
    match op {
        PaintOp::CaretRow { row } => Some(row as int),
        PaintOp::Tint { row, .. } => Some(row as int),
        PaintOp::Word { row, .. } => Some(row as int),
        PaintOp::Selected { row, .. } => Some(row as int),
        PaintOp::Number { row, .. } => Some(row as int),
        PaintOp::Divider => None,
        PaintOp::Text { row } => Some(row as int),
        PaintOp::Chevron { row, .. } => Some(row as int),
        PaintOp::Ellipsis { row } => Some(row as int),
        PaintOp::Backing { row, .. } => Some(row as int),
        PaintOp::Caret { row, .. } => Some(row as int),
    }
}

/// Of a text that is not empty, a section paints only rows that are on the screen, so the work
/// of a frame does not grow with the file.
pub proof fn lemma_section_on_screen(
    look: Look,
    section: Section,
    lines: Seq<usize>,
    n: int,
    k: int,
)
    requires
        0 <= n <= lines.len() <= usize::MAX,
        0 <= k < look.section_ops(false, section, lines, n).len(),
    ensures
        row_of_op(look.section_ops(false, section, lines, n)[k]) matches Some(row) && look.shows(row)
            && 0 <= row < n,
    decreases n,
{
    if n > 0 {
        let before = look.section_ops(false, section, lines, n - 1);
        if k < before.len() {
            lemma_section_on_screen(look, section, lines, n - 1, k);
        } else {
            let ops = look.row_ops(false, section, (n - 1) as usize, lines[n - 1]);
            assert(look.section_ops(false, section, lines, n)[k] == ops[k - before.len()]);
        }
    }
}

/// A blank row has no number, and each line's row that is on the screen has one, beside either
/// gutter.
pub proof fn lemma_numbered(look: Look, row: usize, line: usize)
    requires
        look.line_numbers,
        look.shows(row as int),
    ensures
        ({
            let section = if look.gutter_right {
                Section::RightGutter
            } else {
                Section::Numbers
            };
            look.row_ops(false, section, row, line).contains(look.number_of(row, line)) <==> line
                != FILLER
        }),
{
    let section = if look.gutter_right {
        Section::RightGutter
    } else {
        Section::Numbers
    };
    let ops = look.row_ops(false, section, row, line);
    if line != FILLER {
        assert(ops[ops.len() - 1] == look.number_of(row, line));
    } else {
        assert forall|i: int| 0 <= i < ops.len() implies ops[i] != look.number_of(row, line) by {}
    }
}

/// Of the rows on screen those of tinted lines are tinted, and, where any line is, the blank rows
/// are set apart; nothing else is tinted.
pub proof fn lemma_tints(look: Look, blank: bool, row: usize, line: usize)
    ensures
        ({
            let ops = look.row_ops(blank, Section::Tints, row, line);
            let on = look.shows(row as int);
            &&& line != FILLER ==> (ops == seq![PaintOp::Tint { row, tint: RowTint::Line }] <==> on
                && look.tinted@.contains(line))
            &&& line != FILLER && !(on && look.tinted@.contains(line)) ==> ops.len() == 0
            &&& line == FILLER ==> (ops == seq![PaintOp::Tint { row, tint: RowTint::Separator }]
                <==> on && !look.tinted@.is_empty())
            &&& line == FILLER && !(on && !look.tinted@.is_empty()) ==> ops.len() == 0
        }),
{
    let none = Seq::<PaintOp>::empty();
    let a = seq![PaintOp::Tint { row, tint: RowTint::Line }];
    let b = seq![PaintOp::Tint { row, tint: RowTint::Separator }];
    assert(none.len() == 0 && a.len() == 1 && b.len() == 1);
    if look.tinted@.contains(line) {
        assert(!look.tinted@.is_empty());
    }
}

/// The words of a line on screen are painted on its row, each with its own bytes, and those of no
/// other line.
pub proof fn lemma_words(look: Look, blank: bool, row: usize, line: usize)
    requires
        line != FILLER,
    ensures
        ({
            let ops = look.row_ops(blank, Section::Words, row, line);
            let there = look.shows(row as int) && look.words@.dom().contains(line);
            &&& !there ==> ops.len() == 0
            &&& there ==> ops.len() == look.words@[line]@.len() && forall|k: int|
                0 <= k < ops.len() ==> #[trigger] ops[k] == (PaintOp::Word {
                    row,
                    from: look.words@[line]@[k].0,
                    to: look.words@[line]@[k].1,
                })
        }),
{
}

/// The number of a line is one more than its position, and stands on one side: left or right, as
/// the look says, and nowhere if there are no numbers.
pub proof fn lemma_number(look: Look, blank: bool, row: usize, line: usize)
    requires
        line != FILLER,
    ensures
        ({
            let left = look.row_ops(blank, Section::Numbers, row, line);
            let right = look.row_ops(blank, Section::RightGutter, row, line);
            let on = look.line_numbers && look.shows(row as int);
            let n = PaintOp::Number {
                row,
                number: (line + 1) as usize,
                bright: look.tinted@.contains(line),
            };
            &&& left.contains(n) <==> on && !look.gutter_right
            &&& right.contains(n) <==> on && look.gutter_right
            &&& !on ==> left.len() == 0 && right.len() == 0
        }),
{
    let left = look.row_ops(blank, Section::Numbers, row, line);
    let right = look.row_ops(blank, Section::RightGutter, row, line);
    let on = look.line_numbers && look.shows(row as int);
    if on && !look.gutter_right {
        assert(left[0] == look.number_of(row, line));
    }
    if on && look.gutter_right {
        assert(right[1] == look.number_of(row, line));
    }
}

/// The text of a row is painted if and only if the row is on screen, or the text is the
/// placeholder.
pub proof fn lemma_texts(look: Look, blank: bool, row: usize, line: usize)
    ensures
        look.row_ops(blank, Section::Texts, row, line) == (if blank || look.shows(row as int) {
            seq![PaintOp::Text { row }]
        } else {
            Seq::<PaintOp>::empty()
        }),
{
}

/// Every fold mark on screen is painted, the folded ones with a sign for what they hide, and no
/// other.
pub proof fn lemma_fold_ops(look: Look, gutter: Seq<(usize, bool)>, n: int, row: usize, folded: bool)
    requires
        0 <= n <= gutter.len(),
    ensures
        look.fold_ops(gutter, n).contains(PaintOp::Chevron { row, folded }) <==> look.shows(
            row as int,
        ) && exists|k: int| 0 <= k < n && gutter[k] == (row, folded),
        look.fold_ops(gutter, n).contains(PaintOp::Ellipsis { row }) <==> look.shows(row as int)
            && exists|k: int| 0 <= k < n && gutter[k] == (row, true),
    decreases n,
{
    if n > 0 {
        lemma_fold_ops(look, gutter, n - 1, row, folded);
        let (r, f) = gutter[n - 1];
        let before = look.fold_ops(gutter, n - 1);
        let ops = look.fold_ops(gutter, n);
        let c = PaintOp::Chevron { row, folded };
        let e = PaintOp::Ellipsis { row };
        let extra = if !look.shows(r as int) {
            Seq::empty()
        } else if f {
            seq![PaintOp::Chevron { row: r, folded: f }, PaintOp::Ellipsis { row: r }]
        } else {
            seq![PaintOp::Chevron { row: r, folded: f }]
        };
        assert(ops =~= before + extra);
        lemma_concat_contains(before, extra, c);
        lemma_concat_contains(before, extra, e);
        if look.shows(r as int) {
            assert(extra[0] == PaintOp::Chevron { row: r, folded: f });
            if f {
                assert(extra[1] == PaintOp::Ellipsis { row: r });
            }
        }
    }
}

proof fn lemma_concat_contains(a: Seq<PaintOp>, b: Seq<PaintOp>, op: PaintOp)
    ensures
        (a + b).contains(op) <==> a.contains(op) || b.contains(op),
{
    let s = a + b;
    if s.contains(op) {
        let i = choose|i: int| 0 <= i < s.len() && s[i] == op;
        if i < a.len() {
            assert(a[i] == op);
        } else {
            assert(b[i - a.len()] == op);
        }
    }
    if a.contains(op) {
        let i = choose|i: int| 0 <= i < a.len() && a[i] == op;
        assert(s[i] == op);
    }
    if b.contains(op) {
        let i = choose|i: int| 0 <= i < b.len() && b[i] == op;
        assert(s[a.len() + i] == op);
    }
}

/// A selection is painted on every row on screen that it touches.
pub proof fn lemma_selected_ops(
    look: Look,
    starts: Seq<usize>,
    len: int,
    a: int,
    b: int,
    n: int,
    k: int,
)
    requires
        0 <= k < n,
        look.shows(layout::row_at(starts, a, 0) + k),
    ensures
        ({
            let row = layout::row_at(starts, a, 0) + k;
            let (from, to) = layout::selected_in_row(starts, len, a, b, row);
            look.selected_ops(false, starts, len, a, b, n).contains(
                PaintOp::Selected { row: row as usize, from: from as usize, to: to as usize },
            )
        }),
    decreases n,
{
    let ops = look.selected_ops(false, starts, len, a, b, n);
    let row = layout::row_at(starts, a, 0) + k;
    let (from, to) = layout::selected_in_row(starts, len, a, b, row);
    let op = PaintOp::Selected { row: row as usize, from: from as usize, to: to as usize };
    if k == n - 1 {
        assert(ops[ops.len() - 1] == op);
    } else {
        lemma_selected_ops(look, starts, len, a, b, n - 1, k);
        let before = look.selected_ops(false, starts, len, a, b, n - 1);
        let i = choose|i: int| 0 <= i < before.len() && before[i] == op;
        assert(ops[i] == op);
    }
}

/// The caret is painted last, where the text goes on from, while it blinks on in a focused editor
/// without a selection and its row is on screen.
pub proof fn lemma_caret(look: Look, ed: CodeEditor, rows: Rows)
    ensures
        ({
            let d = ed.doc();
            let at = layout::row_at(rows.starts@, d.cursor(), 0);
            let col = d.cursor() - rows.starts@[at];
            look.focused && look.blink_on && d.start == d.end && (ed.content@.len() == 0
                || look.shows(at)) ==> look.front(ed, rows).len() > 0 && look.front(ed, rows).last()
                == (PaintOp::Caret { row: at as usize, col: col as usize })
        }),
{
}

/// The row of the caret is set off behind all else, in an editor with line numbers and without a
/// selection.
pub proof fn lemma_caret_row(look: Look, ed: CodeEditor, rows: Rows)
    ensures
        ({
            let d = ed.doc();
            let at = layout::row_at(rows.starts@, d.cursor(), 0);
            look.line_numbers && ed.content@.len() > 0 && d.start == d.end ==> look.back(
                ed,
                rows,
            ).len() > 0 && look.back(ed, rows)[0] == (PaintOp::CaretRow { row: at as usize })
        }),
{
}

} // verus!
