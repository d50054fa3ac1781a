//! Display rows of an editor: which line each row shows, where it starts, and how rows, clicks,
//! the caret and the selection relate.
//!
//! A line takes one row, or several when it is wrapped. Filler rows are blank and show no
//! line. Widths are measured by the caller.

use crate::buffer;
use crate::editor::CodeEditor;
use crate::folds;
use crate::text;
use std::collections::HashMap;
use std::ops::Range;
use vstd::prelude::*;
use vstd::utf8::encode_utf8;

verus! {

broadcast use {vstd::seq_lib::group_seq_properties, vstd::std_specs::hash::group_hash_axioms};

/// What stands for the line of a filler row.
pub const FILLER: usize = usize::MAX;

/// The rows of one frame.
pub struct Rows {
    /// The offset at which each row starts.
    pub starts: Vec<usize>,
    /// The line that each row shows, or `FILLER`.
    pub lines: Vec<usize>,
    /// The rows with a fold mark, and whether their region is folded.
    pub gutter: Vec<(usize, bool)>,
}

// ---------------------------------------------------------------------------
// Model
// ---------------------------------------------------------------------------

/// A row: where it starts and what line it shows.
pub type Row = (int, int);

impl Rows {
    pub open spec fn wf(self) -> bool {
        self.starts@.len() == self.lines@.len()
    }

    pub open spec fn rows(self) -> Seq<Row> {
        Seq::new(self.starts@.len(), |i: int| (self.starts@[i] as int, self.lines@[i] as int))
    }
}

pub open spec fn gutter_view(v: Seq<(usize, bool)>) -> Seq<(int, bool)> {
    Seq::new(v.len(), |i: int| (v[i].0 as int, v[i].1))
}

/// `n` blank rows at offset `start`.
pub open spec fn filler_rows(n: int, start: int) -> Seq<Row> {
    Seq::new(n as nat, |i: int| (start, FILLER as int))
}

/// The rows of one line: one per wrapped segment, or a single one.
pub open spec fn line_rows(line: int, start: int, segments: Seq<usize>) -> Seq<Row> {
    if segments.len() == 0 {
        seq![(start, line)]
    } else {
        Seq::new(segments.len(), |i: int| (start + segments[i], line))
    }
}

/// What the rows of a text are made from.
pub struct RowInput {
    pub bytes: Seq<u8>,
    pub folded: Set<usize>,
    pub foldable: Seq<(usize, usize)>,
    /// Blank rows before a line.
    pub filler: Map<usize, usize>,
    /// Where each line is wrapped; empty for a line that is not.
    pub wraps: Seq<Seq<usize>>,
}

impl RowInput {
    pub open spec fn filler_before(self, line: int) -> int {
        if self.filler.dom().contains(line as usize) {
            self.filler[line as usize] as int
        } else {
            0
        }
    }

    pub open spec fn segments(self, line: int) -> Seq<usize> {
        if 0 <= line < self.wraps.len() {
            self.wraps[line]
        } else {
            Seq::empty()
        }
    }

    /// The rows of the first `n` lines: hidden lines have none, and filler goes before its line.
    pub open spec fn rows_upto(self, n: int) -> Seq<Row>
        decreases n,
    {
        if n <= 0 {
            Seq::empty()
        } else {
            let r = self.rows_upto(n - 1);
            let l = n - 1;
            let start = buffer::line_start(self.bytes, l);
            if folds::hidden(self.folded, self.foldable, l) {
                r
            } else {
                r + filler_rows(self.filler_before(l), start) + line_rows(
                    l,
                    start,
                    self.segments(l),
                )
            }
        }
    }

    /// The fold marks of the first `n` lines: on the row of each visible line that starts a
    /// region and is not wrapped.
    pub open spec fn gutter_upto(self, n: int) -> Seq<(int, bool)>
        decreases n,
    {
        if n <= 0 {
            Seq::empty()
        } else {
            let g = self.gutter_upto(n - 1);
            let l = n - 1;
            if folds::hidden(self.folded, self.foldable, l) || self.segments(l).len() > 0
                || folds::region_end(self.foldable, l as usize, 0) is None {
                g
            } else {
                g.push(
                    (
                        self.rows_upto(n - 1).len() + self.filler_before(l),
                        self.folded.contains(l as usize),
                    ),
                )
            }
        }
    }

    /// All rows, with the blank ones at the end.
    pub open spec fn all_rows(self, filler_end: int) -> Seq<Row> {
        self.rows_upto(buffer::line_total(self.bytes)) + filler_rows(
            filler_end,
            self.bytes.len() as int,
        )
    }

    /// The blank rows before the first `n` lines.
    pub open spec fn filler_upto(self, n: int) -> int
        decreases n,
    {
        if n <= 0 {
            0
        } else {
            self.filler_upto(n - 1) + self.filler_before(n - 1)
        }
    }
}

pub open spec fn wraps_view(v: Seq<Vec<usize>>) -> Seq<Seq<usize>> {
    Seq::new(v.len(), |i: int| v[i]@)
}

pub open spec fn row_input(
    ed: CodeEditor,
    filler: Map<usize, usize>,
    wraps: Seq<Seq<usize>>,
) -> RowInput {
    RowInput {
        bytes: ed.doc().bytes,
        folded: ed.syntax.folded@,
        foldable: ed.syntax.foldable@,
        filler,
        wraps,
    }
}

// ---------------------------------------------------------------------------
// Rows of a text
// ---------------------------------------------------------------------------

impl Rows {
    pub fn new() -> (r: Self)
        ensures
            r.wf(),
            r.rows() == Seq::<Row>::empty(),
            r.gutter@ == Seq::<(usize, bool)>::empty(),
    {
        let r = Rows { starts: Vec::new(), lines: Vec::new(), gutter: Vec::new() };
        proof {
            assert(r.rows() =~= Seq::<Row>::empty());
        }
        r
    }

    /// Adds a row.
    fn add_row(&mut self, start: usize, line: usize)
        requires
            old(self).wf(),
        ensures
            final(self).wf(),
            final(self).rows() == old(self).rows().push((start as int, line as int)),
            final(self).gutter == old(self).gutter,
    {
        let ghost before = self.rows();
        self.starts.push(start);
        self.lines.push(line);
        proof {
            assert(self.rows() =~= before.push((start as int, line as int)));
        }
    }

    /// Adds `n` blank rows at offset `start`.
    fn add_filler(&mut self, n: usize, start: usize)
        requires
            old(self).wf(),
        ensures
            final(self).wf(),
            final(self).rows() == old(self).rows() + filler_rows(n as int, start as int),
            final(self).gutter == old(self).gutter,
    {
        let ghost before = self.rows();
        let mut i: usize = 0;
        proof {
            assert(before + filler_rows(0, start as int) =~= before);
        }
        while i < n
            invariant
                i <= n,
                self.wf(),
                self.rows() == before + filler_rows(i as int, start as int),
                self.gutter == old(self).gutter,
            decreases n - i,
        {
            self.add_row(start, FILLER);
            i += 1;
            proof {
                assert(self.rows() =~= before + filler_rows(i as int, start as int));
            }
        }
    }

    /// Adds the rows of a line.
    fn add_line(&mut self, line: usize, start: usize, segments: &[usize])
        requires
            old(self).wf(),
            forall|i: int| 0 <= i < segments@.len() ==> start + (#[trigger] segments@[i]) <= usize::MAX,
        ensures
            final(self).wf(),
            final(self).rows() == old(self).rows() + line_rows(
                line as int,
                start as int,
                segments@,
            ),
            final(self).gutter == old(self).gutter,
    {
        let ghost before = self.rows();
        if segments.len() == 0 {
            self.add_row(start, line);
            proof {
                assert(self.rows() =~= before + line_rows(line as int, start as int, segments@));
            }
            return;
        }
        let mut i: usize = 0;
        while i < segments.len()
            invariant
                i <= segments@.len(),
                self.wf(),
                forall|k: int|
                    0 <= k < segments@.len() ==> start + (#[trigger] segments@[k]) <= usize::MAX,
                self.rows() == before + Seq::new(
                    i as nat,
                    |k: int| (start + segments@[k], line as int),
                ),
                self.gutter == old(self).gutter,
            decreases segments@.len() - i,
        {
            self.add_row(start + segments[i], line);
            i += 1;
            proof {
                assert(self.rows() =~= before + Seq::new(
                    i as nat,
                    |k: int| (start + segments@[k], line as int),
                ));
            }
        }
        proof {
            assert(self.rows() =~= before + line_rows(line as int, start as int, segments@));
        }
    }
}

/// The rows of an editor's text.
///
/// `filler` gives blank rows before a line, `filler_end` those after the last one, and `wraps`
/// the offsets within a line at which its wrapped rows start.
pub fn layout_rows(
    ed: &CodeEditor,
    filler: &HashMap<usize, usize>,
    filler_end: usize,
    wraps: &Vec<Vec<usize>>,
) -> (r: Rows)
    requires
        ed.wf(),
        forall|l: int, i: int|
            0 <= l < wraps@.len() && 0 <= i < wraps@[l]@.len() ==> buffer::line_start(
                ed.doc().bytes,
                l,
            ) + (#[trigger] wraps@[l]@[i]) <= usize::MAX,
    ensures
        r.wf(),
        ({
            let input = row_input(*ed, filler@, wraps_view(wraps@));
            &&& r.rows() == input.all_rows(filler_end as int)
            &&& gutter_view(r.gutter@) == input.gutter_upto(buffer::line_total(ed.doc().bytes))
        }),
{
    let content = ed.content.as_str();
    let starts = buffer::all_line_starts(content);
    let foldable = ed.syntax.foldable.as_slice();
    let ghost input = row_input(*ed, filler@, wraps_view(wraps@));
    let ghost b = ed.doc().bytes;
    let mut rows = Rows::new();
    let none: Vec<usize> = Vec::new();
    let mut l: usize = 0;
    proof {
        assert(gutter_view(rows.gutter@) =~= Seq::<(int, bool)>::empty());
    }
    while l < starts.len()
        invariant
            l <= starts@.len(),
            starts@.len() == buffer::line_total(b),
            forall|k: int| 0 <= k < starts@.len() ==> (#[trigger] starts@[k]) == buffer::line_start(b, k),
            b == ed.doc().bytes,
            foldable@ == ed.syntax.foldable@,
            none@.len() == 0,
            ed.wf(),
            input == row_input(*ed, filler@, wraps_view(wraps@)),
            forall|k: int, i: int|
                0 <= k < wraps@.len() && 0 <= i < wraps@[k]@.len() ==> buffer::line_start(b, k) + (
                #[trigger] wraps@[k]@[i]) <= usize::MAX,
            rows.wf(),
            rows.rows() == input.rows_upto(l as int),
            gutter_view(rows.gutter@) == input.gutter_upto(l as int),
        decreases starts@.len() - l,
    {
        if !folds::is_hidden(&ed.syntax.folded, foldable, l) {
            let start: usize = starts[l];
            let n: usize = match filler.get(&l) {
                Some(n) => *n,
                None => 0,
            };
            let ghost r0 = rows.rows();
            rows.add_filler(n, start);
            let segments: &Vec<usize> = if l < wraps.len() {
                &wraps[l]
            } else {
                &none
            };
            proof {
                assert(segments@ =~= input.segments(l as int));
                assert(n == input.filler_before(l as int));
                if l < wraps@.len() {
                    assert forall|i: int| 0 <= i < segments@.len() implies start + (
                    #[trigger] segments@[i]) <= usize::MAX by {
                        assert(buffer::line_start(b, l as int) + wraps@[l as int]@[i] <= usize::MAX);
                    }
                }
            }
            let ghost g0 = gutter_view(rows.gutter@);
            if segments.len() == 0 && folds::fold_end(foldable, l).is_some() {
                let row: usize = rows.starts.len();
                proof {
                    assert(rows.rows().len() == r0.len() + n);
                }
                let folded = ed.syntax.folded.contains(&l);
                rows.gutter.push((row, folded));
                proof {
                    assert(gutter_view(rows.gutter@) =~= g0.push((row as int, folded)));
                }
            }
            rows.add_line(l, start, segments.as_slice());
        }
        l += 1;
    }
    rows.add_filler(filler_end, buffer::byte_len(content));
    rows
}

/// Without wrapping, a text has one row per visible line and one per blank row.
pub proof fn lemma_row_count(input: RowInput, n: int)
    requires
        0 <= n <= buffer::line_total(input.bytes) <= usize::MAX + 1,
        input.wraps.len() == 0,
        forall|l: usize| #[trigger] input.filler.dom().contains(l) ==> !folds::hidden(
            input.folded,
            input.foldable,
            l as int,
        ),
    ensures
        input.rows_upto(n).len() == folds::visible(input.folded, input.foldable, n).len()
            + input.filler_upto(n),
    decreases n,
{
    if n > 0 {
        lemma_row_count(input, n - 1);
        assert(input.segments(n - 1).len() == 0);
        if folds::hidden(input.folded, input.foldable, n - 1) {
            assert(!input.filler.dom().contains((n - 1) as usize));
        }
    }
}

/// The wrapped rows of each line start within it, in order.
pub open spec fn wraps_fit(input: RowInput) -> bool {
    &&& forall|l: int, i: int|
        0 <= l < input.wraps.len() && 0 <= i < input.wraps[l].len() ==> buffer::line_start(
            input.bytes,
            l,
        ) + (#[trigger] input.wraps[l][i]) <= buffer::line_finish(
            input.bytes,
            buffer::line_start(input.bytes, l),
        )
    &&& forall|l: int, i: int, j: int|
        0 <= l < input.wraps.len() && 0 <= i <= j < input.wraps[l].len() ==> (
        #[trigger] input.wraps[l][i]) <= (#[trigger] input.wraps[l][j])
}

/// A text has a row, and its first row starts where the text does, if that of the first line
/// does.
pub proof fn lemma_first_row(input: RowInput, n: int)
    requires
        0 < n <= buffer::line_total(input.bytes),
        input.segments(0).len() > 0 ==> input.segments(0)[0] == 0,
    ensures
        input.rows_upto(n).len() > 0,
        input.rows_upto(n)[0].0 == 0,
    decreases n,
{
    if n > 1 {
        lemma_first_row(input, n - 1);
        let p = input.rows_upto(n - 1);
        assert(input.rows_upto(n)[0] == p[0]);
    } else {
        assert(input.rows_upto(0) =~= Seq::<Row>::empty());
        assert(buffer::line_start(input.bytes, 0) == 0);
        let f = filler_rows(input.filler_before(0), 0);
        let q = line_rows(0, 0, input.segments(0));
        assert(!folds::hidden(input.folded, input.foldable, 0));
        assert(input.rows_upto(1) =~= f + q);
        if f.len() > 0 {
            assert((f + q)[0] == f[0]);
        } else {
            assert((f + q)[0] == q[0]);
        }
    }
}

pub open spec fn rows_ascend(r: Seq<Row>) -> bool {
    forall|i: int, j: int| 0 <= i <= j < r.len() ==> (#[trigger] r[i]).0 <= (#[trigger] r[j]).0
}

/// Rows start in ascending order, and no row of the first lines starts past their end.
pub proof fn lemma_rows_ascend(input: RowInput, n: int)
    requires
        0 <= n <= buffer::line_total(input.bytes),
        wraps_fit(input),
    ensures
        rows_ascend(input.rows_upto(n)),
        n < buffer::line_total(input.bytes) ==> forall|i: int|
            0 <= i < input.rows_upto(n).len() ==> (#[trigger] input.rows_upto(n)[i]).0
                <= buffer::line_start(input.bytes, n),
        forall|i: int|
            0 <= i < input.rows_upto(n).len() ==> (#[trigger] input.rows_upto(n)[i]).0
                <= input.bytes.len(),
    decreases n,
{
    if n > 0 {
        lemma_rows_ascend(input, n - 1);
        let l = n - 1;
        let b = input.bytes;
        let start = buffer::line_start(b, l);
        buffer::lemma_line_start(b, l);
        buffer::lemma_line_finish(b, start);
        let p = input.rows_upto(n - 1);
        let r = input.rows_upto(n);
        let f = filler_rows(input.filler_before(l), start);
        let q = line_rows(l, start, input.segments(l));
        assert forall|i: int| 0 <= i < q.len() implies start <= (#[trigger] q[i]).0
            <= buffer::line_finish(b, start) by {
            if input.segments(l).len() > 0 {
                assert(input.segments(l)[i] == input.wraps[l][i]);
            }
        }
        assert forall|i: int, j: int| 0 <= i <= j < q.len() implies (#[trigger] q[i]).0 <= (
        #[trigger] q[j]).0 by {
            if input.segments(l).len() > 0 {
                assert(input.wraps[l][i] <= input.wraps[l][j]);
            }
        }
        if !folds::hidden(input.folded, input.foldable, l) {
            assert(r == p + f + q);
            let m = p.len() as int;
            let k = m + f.len();
            assert forall|i: int| 0 <= i < r.len() implies (#[trigger] r[i]).0
                <= buffer::line_finish(b, start) && (i >= m ==> r[i].0 >= start) by {
                if i < m {
                    assert(r[i] == p[i]);
                } else if i < k {
                    assert(r[i] == f[i - m]);
                } else {
                    assert(r[i] == q[i - k]);
                }
            }
            assert forall|i: int, j: int| 0 <= i <= j < r.len() implies (#[trigger] r[i]).0 <= (
            #[trigger] r[j]).0 by {
                if j < m {
                    assert(r[i] == p[i] && r[j] == p[j]);
                } else if i < m {
                    assert(r[i] == p[i]);
                } else if i < k {
                    assert(r[i] == f[i - m]);
                } else {
                    assert(r[i] == q[i - k] && r[j] == q[j - k]);
                }
            }
        }
    }
}

/// The rows of a placeholder, which is shown while the text is empty: one per line.
pub fn placeholder_rows(placeholder: &str) -> (r: Rows)
    ensures
        r.wf(),
        r.rows().len() == buffer::line_total(encode_utf8(placeholder@)),
        forall|i: int|
            0 <= i < r.rows().len() ==> #[trigger] r.rows()[i] == (
                buffer::line_start(encode_utf8(placeholder@), i),
                i,
            ),
        r.gutter@.len() == 0,
{
    let starts = buffer::all_line_starts(placeholder);
    let mut rows = Rows::new();
    let mut i: usize = 0;
    while i < starts.len()
        invariant
            i <= starts@.len(),
            rows.wf(),
            rows.gutter@.len() == 0,
            rows.rows().len() == i,
            forall|k: int| 0 <= k < i ==> #[trigger] rows.rows()[k] == (starts@[k] as int, k),
        decreases starts@.len() - i,
    {
        rows.add_row(starts[i], i);
        i += 1;
    }
    rows
}

/// How many rows a text asks for: at least one.
pub fn row_count(ed: &CodeEditor, filler: &HashMap<usize, usize>, filler_end: usize) -> (r: usize)
    requires
        ed.wf(),
        ({
            let input = row_input(*ed, filler@, Seq::empty());
            let n = buffer::line_total(ed.doc().bytes);
            folds::visible(input.folded, input.foldable, n).len() + input.filler_upto(n)
                + filler_end <= usize::MAX
        }),
    ensures
        ({
            let input = row_input(*ed, filler@, Seq::empty());
            let n = buffer::line_total(ed.doc().bytes);
            let rows = folds::visible(input.folded, input.foldable, n).len() + input.filler_upto(n)
                + filler_end;
            r == (if rows < 1 {
                1
            } else {
                rows
            })
        }),
{
    let ghost input = row_input(*ed, filler@, Seq::empty());
    let ghost n = buffer::line_total(ed.doc().bytes);
    let visible = ed.visible_line_indices();
    let bytes = ed.content.as_str().as_bytes();
    let last: usize = buffer::count_newlines(bytes, bytes.len());
    let mut total: usize = 0;
    let mut l: usize = 0;
    loop
        invariant_except_break
            total == input.filler_upto(l as int),
        invariant
            l <= last,
            last + 1 == n,
            input == row_input(*ed, filler@, Seq::empty()),
            input.filler_upto(n) <= usize::MAX,
        ensures
            total == input.filler_upto(n),
        decreases last - l,
    {
        proof {
            lemma_filler_mono(input, l + 1, n);
        }
        let more: usize = match filler.get(&l) {
            Some(k) => *k,
            None => 0,
        };
        total = total + more;
        if l == last {
            break;
        }
        l += 1;
    }
    proof {
        lemma_filler_mono(input, 0, n);
    }
    let rows: usize = visible.len() + total + filler_end;
    if rows < 1 {
        1
    } else {
        rows
    }
}

proof fn lemma_filler_mono(input: RowInput, a: int, b: int)
    requires
        0 <= a <= b,
    ensures
        0 <= input.filler_upto(a) <= input.filler_upto(b),
    decreases b,
{
    if a < b {
        lemma_filler_mono(input, a, b - 1);
    } else if a > 0 {
        lemma_filler_mono(input, a - 1, a - 1);
    }
}

// ---------------------------------------------------------------------------
// Wrapping
// ---------------------------------------------------------------------------

/// The position right after the last space of `b` before `end`, or 0.
pub open spec fn after_space(b: Seq<u8>, end: int) -> int
    decreases end,
{
    if end <= 0 {
        0
    } else if b[end - 1] == 32 {
        end
    } else {
        after_space(b, end - 1)
    }
}

/// How many bytes of `rest` one wrapped row takes.
///
/// All of them if they fit; otherwise up to the last space before byte `i`, where the width
/// ends, unless that space is its last byte or there is none; and always at least one
/// character.
pub open spec fn wrap_len(rest: Seq<char>, fits: bool, i: int) -> int {
    let b = encode_utf8(rest);
    let at = if i < b.len() {
        i
    } else {
        b.len() as int
    };
    let sp = after_space(b, at);
    let take = if fits {
        b.len() as int
    } else if 0 < sp < at {
        sp
    } else {
        at
    };
    if take == 0 {
        if rest.len() > 0 {
            text::blen(seq![rest[0]]) as int
        } else {
            1
        }
    } else {
        take
    }
}

/// How many bytes of `rest` one wrapped row takes; `i` is the byte at which the width ends.
pub fn wrap_take(rest: &str, fits: bool, i: usize) -> (r: usize)
    requires
        rest@.len() > 0,
        buffer::boundary(
            encode_utf8(rest@),
            (if i < text::blen(rest@) { i as int } else { text::blen(rest@) as int }),
        ),
    ensures
        r == wrap_len(rest@, fits, i as int),
        0 < r <= text::blen(rest@),
        buffer::boundary(encode_utf8(rest@), r as int),
{
    let bytes = rest.as_bytes();
    let len: usize = bytes.len();
    let ghost b = encode_utf8(rest@);
    proof {
        text::lemma_blen_bounds(rest@);
        buffer::lemma_ends(rest@);
    }
    let at: usize = if i < len {
        i
    } else {
        len
    };
    let mut sp: usize = at;
    while sp > 0 && bytes[sp - 1] != 32
        invariant
            sp <= at <= b.len(),
            bytes@ == b,
            after_space(b, sp as int) == after_space(b, at as int),
        decreases sp,
    {
        sp -= 1;
    }
    proof {
        if sp > 0 {
            buffer::lemma_ascii_boundary(rest@, sp - 1);
        }
    }
    let take: usize = if fits {
        len
    } else if 0 < sp && sp < at {
        sp
    } else {
        at
    };
    if take == 0 {
        let chars = text::chars_of(rest);
        proof {
            assert(rest@.take(1) =~= seq![rest@[0]]);
            buffer::lemma_prefix_boundary(rest@, 1);
        }
        text::len_utf8(chars[0])
    } else {
        take
    }
}

/// A line that is being wrapped. Its rest is measured, and a row is taken off it, until nothing
/// is left.
pub struct Wrap {
    /// What is not on a row yet.
    pub rest: String,
    /// The byte of the line at which the rest starts.
    pub at: usize,
    /// The bytes of the line at which its rows start.
    pub starts: Vec<usize>,
}

impl Wrap {
    /// The rows of a line of `len` bytes start within it, in order, the first at its start; all
    /// of them are taken once the rest is empty.
    pub open spec fn wf(&self, len: int) -> bool {
        &&& self.at + text::blen(self.rest@) == len <= usize::MAX
        &&& self.starts@.len() == 0 <==> self.at == 0
        &&& self.starts@.len() > 0 ==> self.starts@[0] == 0
        &&& forall|i: int| 0 <= i < self.starts@.len() ==> (#[trigger] self.starts@[i]) < self.at
        &&& forall|i: int, j: int|
            0 <= i < j < self.starts@.len() ==> (#[trigger] self.starts@[i]) < (
            #[trigger] self.starts@[j])
    }

    pub fn new(line: &str) -> (r: Self)
        ensures
            r.wf(text::blen(line@) as int),
            r.rest@ == line@,
            r.at == 0,
            r.starts@.len() == 0,
    {
        let _len: usize = buffer::byte_len(line);
        Wrap { rest: String::from_str(line), at: 0, starts: Vec::new() }
    }

    /// Takes a row off the rest. `fits` tells that all of the rest fits, and `i` is the byte of
    /// it at which the width ends.
    pub fn take(&mut self, len: usize, fits: bool, i: usize)
        requires
            old(self).wf(len as int),
            old(self).rest@.len() > 0,
            buffer::boundary(
                encode_utf8(old(self).rest@),
                (if i < text::blen(old(self).rest@) {
                    i as int
                } else {
                    text::blen(old(self).rest@) as int
                }),
            ),
        ensures
            final(self).wf(len as int),
            final(self).starts@ == old(self).starts@.push(old(self).at),
            final(self).at == old(self).at + wrap_len(old(self).rest@, fits, i as int),
            final(self).at > old(self).at,
            encode_utf8(final(self).rest@) == encode_utf8(old(self).rest@).skip(
                wrap_len(old(self).rest@, fits, i as int),
            ),
    {
        let n: usize = wrap_take(self.rest.as_str(), fits, i);
        let size: usize = buffer::byte_len(self.rest.as_str());
        let ghost b = encode_utf8(self.rest@);
        proof {
            buffer::lemma_ends(self.rest@);
        }
        let rest = buffer::slice(self.rest.as_str(), n, size);
        proof {
            assert(encode_utf8(rest@) =~= b.skip(n as int));
        }
        self.rest = rest;
        self.starts.push(self.at);
        self.at = self.at + n;
    }
}

// ---------------------------------------------------------------------------
// Rows, the caret and the selection
// ---------------------------------------------------------------------------

/// The last of the rows from `i` on, walked while they start at or before `off`.
pub open spec fn row_at(starts: Seq<usize>, off: int, i: int) -> int
    decreases starts.len() - i,
{
    if i < 0 || i + 1 >= starts.len() || starts[i + 1] > off {
        i
    } else {
        row_at(starts, off, i + 1)
    }
}

/// The row that `off` lies on, and where that row starts.
pub fn locate_in(starts: &Vec<usize>, off: usize) -> (r: (usize, usize))
    ensures
        starts@.len() == 0 ==> r == (0usize, 0usize),
        starts@.len() > 0 && starts@[0] > off ==> r == (0usize, starts@[0]),
        starts@.len() > 0 && starts@[0] <= off ==> r.0 == row_at(starts@, off as int, 0) && r.0
            < starts@.len() && r.1 == starts@[r.0 as int] && r.1 <= off,
{
    if starts.len() == 0 {
        return (0, 0);
    }
    if starts[0] > off {
        return (0, starts[0]);
    }
    let mut i: usize = 0;
    while i < starts.len() - 1 && starts[i + 1] <= off
        invariant
            i < starts@.len(),
            starts@[i as int] <= off,
            row_at(starts@, off as int, i as int) == row_at(starts@, off as int, 0),
        decreases starts@.len() - i,
    {
        i += 1;
    }
    (i, starts[i])
}

/// In ascending rows the row of an offset starts at or before it, and the next one after it.
pub proof fn lemma_row_at(starts: Seq<usize>, off: int, i: int)
    requires
        0 <= i < starts.len(),
        starts[i] <= off,
        forall|a: int, b: int| 0 <= a <= b < starts.len() ==> starts[a] <= starts[b],
    ensures
        i <= row_at(starts, off, i) < starts.len(),
        starts[row_at(starts, off, i)] <= off,
        forall|k: int| row_at(starts, off, i) < k < starts.len() ==> starts[k] > off,
    decreases starts.len() - i,
{
    if i + 1 < starts.len() && starts[i + 1] <= off {
        lemma_row_at(starts, off, i + 1);
    }
}

/// What a selection covers of row `row`: from and to, in bytes of that row.
pub open spec fn selected_in_row(starts: Seq<usize>, len: int, a: int, b: int, row: int) -> (int, int) {
    let l0 = row_at(starts, a, 0);
    let l1 = row_at(starts, b, 0);
    let next = if row + 1 < starts.len() {
        starts[row + 1] as int
    } else {
        len
    };
    (
        if row == l0 {
            a - starts[l0]
        } else {
            0
        },
        if row == l1 {
            b - starts[l1]
        } else if next > starts[row] {
            next - starts[row]
        } else {
            0
        },
    )
}

/// The rows that a selection covers, with the bytes of each that are selected.
pub fn selection_rows(starts: &Vec<usize>, len: usize, sel: Range<usize>) -> (r: Vec<
    (usize, usize, usize),
>)
    requires
        starts@.len() > 0,
        starts@[0] <= sel.start <= sel.end,
    ensures
        ({
            let l0 = row_at(starts@, sel.start as int, 0);
            let l1 = row_at(starts@, sel.end as int, 0);
            &&& l0 <= l1 < starts@.len()
            &&& r@.len() == l1 - l0 + 1
            &&& forall|i: int|
                0 <= i < r@.len() ==> {
                    let (row, from, to) = #[trigger] r@[i];
                    row == l0 + i && (from as int, to as int) == selected_in_row(
                        starts@,
                        len as int,
                        sel.start as int,
                        sel.end as int,
                        row as int,
                    )
                }
        }),
{
    let (l0, s0) = locate_in(starts, sel.start);
    let (l1, s1) = locate_in(starts, sel.end);
    proof {
        lemma_row_mono(starts@, sel.start as int, sel.end as int, 0);
    }
    let mut out: Vec<(usize, usize, usize)> = Vec::new();
    let mut row: usize = l0;
    loop
        invariant_except_break
            l0 <= row <= l1,
            out@.len() == row - l0,
        invariant
            l0 <= l1 < starts@.len(),
            l0 == row_at(starts@, sel.start as int, 0),
            l1 == row_at(starts@, sel.end as int, 0),
            s0 == starts@[l0 as int],
            s1 == starts@[l1 as int],
            s0 <= sel.start,
            s1 <= sel.end,
            forall|i: int|
                0 <= i < out@.len() ==> {
                    let (row, from, to) = #[trigger] out@[i];
                    row == l0 + i && (from as int, to as int) == selected_in_row(
                        starts@,
                        len as int,
                        sel.start as int,
                        sel.end as int,
                        row as int,
                    )
                },
        ensures
            out@.len() == l1 - l0 + 1,
        decreases l1 - row,
    {
        let from: usize = if row == l0 {
            sel.start - s0
        } else {
            0
        };
        let to: usize = if row == l1 {
            sel.end - s1
        } else {
            let next: usize = if row + 1 < starts.len() {
                starts[row + 1]
            } else {
                len
            };
            if next > starts[row] {
                next - starts[row]
            } else {
                0
            }
        };
        out.push((row, from, to));
        if row == l1 {
            break;
        }
        row += 1;
    }
    out
}

proof fn lemma_row_mono(starts: Seq<usize>, a: int, b: int, i: int)
    requires
        a <= b,
        0 <= i < starts.len(),
    ensures
        i <= row_at(starts, a, i) <= row_at(starts, b, i) < starts.len(),
    decreases starts.len() - i,
{
    if i + 1 < starts.len() && starts[i + 1] <= a {
        lemma_row_mono(starts, a, b, i + 1);
    } else if i + 1 < starts.len() && starts[i + 1] <= b {
        lemma_row_in_range(starts, b, i + 1);
    }
}

proof fn lemma_row_in_range(starts: Seq<usize>, b: int, i: int)
    requires
        0 <= i < starts.len(),
    ensures
        i <= row_at(starts, b, i) < starts.len(),
    decreases starts.len() - i,
{
    if i + 1 < starts.len() && starts[i + 1] <= b {
        lemma_row_in_range(starts, b, i + 1);
    }
}

/// The row to reveal for a caret at `cur`, and the caret's byte within it: a row that starts
/// there if there is one, or else the last that starts before.
pub fn reveal_row(starts: &Vec<usize>, cur: usize) -> (r: (usize, usize))
    requires
        forall|a: int, b: int| 0 <= a <= b < starts@.len() ==> starts@[a] <= starts@[b],
    ensures
        starts@.len() == 0 ==> r == (0usize, cur),
        starts@.len() > 0 ==> r.0 < starts@.len() && r.1 == (if cur > starts@[r.0 as int] {
            cur - starts@[r.0 as int]
        } else {
            0
        }),
        starts@.len() > 0 ==> {
            ||| starts@[r.0 as int] == cur
            ||| (!starts@.contains(cur) && (r.0 == 0 || starts@[r.0 as int] < cur) && forall|k: int|
                r.0 < k < starts@.len() ==> starts@[k] > cur)
        },
{
    if starts.len() == 0 {
        return (0, cur);
    }
    let mut lo: usize = 0;
    let mut hi: usize = starts.len();
    while lo < hi
        invariant
            lo <= hi <= starts@.len(),
            forall|a: int, b: int| 0 <= a <= b < starts@.len() ==> starts@[a] <= starts@[b],
            forall|k: int| 0 <= k < lo ==> starts@[k] < cur,
            forall|k: int| hi <= k < starts@.len() ==> starts@[k] > cur,
        decreases hi - lo,
    {
        let mid: usize = lo + (hi - lo) / 2;
        let s: usize = starts[mid];
        if s == cur {
            return (mid, 0);
        }
        if s < cur {
            lo = mid + 1;
        } else {
            hi = mid;
        }
    }
    let row: usize = if lo > 0 {
        lo - 1
    } else {
        0
    };
    let s: usize = starts[row];
    let col: usize = if cur > s {
        cur - s
    } else {
        0
    };
    (row, col)
}

// ---------------------------------------------------------------------------
// Clicks and vertical moves
// ---------------------------------------------------------------------------

/// The offset of a click on row `row`, at byte `col` of it: below the last row, the end of the
/// last row's line.
pub fn offset_for_row(content: &str, starts: &Vec<usize>, row: usize, col: usize) -> (r: usize)
    requires
        starts@.len() > 0 ==> starts@.last() <= text::blen(content@),
    ensures
        starts@.len() == 0 || content@.len() == 0 ==> r == 0,
        starts@.len() > 0 && content@.len() > 0 && row >= starts@.len() ==> r
            == buffer::line_finish(encode_utf8(content@), starts@.last() as int),
        starts@.len() > 0 && content@.len() > 0 && row < starts@.len() ==> r == (if starts@[row as int]
            + col < text::blen(content@) {
            starts@[row as int] + col
        } else {
            text::blen(content@) as int
        }),
{
    if starts.len() == 0 || content.is_empty() {
        return 0;
    }
    let bytes = content.as_bytes();
    let last: usize = starts.len() - 1;
    if row > last {
        return buffer::find_line_finish(bytes, starts[last]);
    }
    let s: usize = starts[row];
    let len: usize = bytes.len();
    if s < len && col < len - s {
        s + col
    } else {
        len
    }
}

/// The line whose fold mark a click on row `row` of the gutter hits: that of the last row when
/// there are fewer rows.
pub fn gutter_line(lines: &Vec<usize>, row: usize) -> (r: Option<usize>)
    ensures
        lines@.len() == 0 ==> r is None,
        lines@.len() > 0 ==> r == Some(
            lines@[(if row < lines@.len() { row as int } else { lines@.len() - 1 })],
        ),
{
    if lines.len() == 0 {
        return None;
    }
    let at: usize = if row < lines.len() {
        row
    } else {
        lines.len() - 1
    };
    Some(lines[at])
}

/// The first row from `i` on that shows `line`, or 0.
pub open spec fn row_of_line(lines: Seq<usize>, line: int, i: int) -> int
    decreases lines.len() - i,
{
    if i < 0 || i >= lines.len() {
        0
    } else if lines[i] == line {
        i
    } else {
        row_of_line(lines, line, i + 1)
    }
}

/// The first row that shows `line`, or row 0.
pub fn find_row(lines: &Vec<usize>, line: usize) -> (r: usize)
    ensures
        r == row_of_line(lines@, line as int, 0),
        r == 0 || r < lines@.len(),
{
    let mut i: usize = 0;
    while i < lines.len()
        invariant
            i <= lines@.len(),
            row_of_line(lines@, line as int, i as int) == row_of_line(lines@, line as int, 0),
        decreases lines@.len() - i,
    {
        if lines[i] == line {
            return i;
        }
        i += 1;
    }
    0
}

/// A vertical move: the row of the caret, the row to go to, and the caret's byte in its line.
#[derive(Debug, Clone, Copy, PartialEq, Eq, Structural)]
pub struct Step {
    pub row: usize,
    pub target: usize,
    pub col: usize,
}

/// The rows that a vertical move of the caret goes between; none at the first or last row.
pub fn vertical_step(ed: &CodeEditor, rows: &Rows, down: bool) -> (r: Option<Step>)
    requires
        ed.wf(),
        rows.wf(),
    ensures
        ({
            let b = ed.doc().bytes;
            let at = row_of_line(rows.lines@, buffer::newlines(b, ed.doc().cursor()), 0);
            let target = if down {
                at + 1
            } else {
                at - 1
            };
            match r {
                Some(s) => 0 <= target < rows.starts@.len() && s.row == at && s.target == target
                    && s.col == ed.doc().cursor() - buffer::line_begin(b, ed.doc().cursor()),
                None => rows.starts@.len() == 0 || !(0 <= target < rows.starts@.len()),
            }
        }),
{
    let n: usize = rows.starts.len();
    if n == 0 {
        return None;
    }
    let (line, start) = ed.locate(ed.cursor());
    let at: usize = find_row(&rows.lines, line);
    let col: usize = ed.cursor() - start;
    if down {
        if at + 1 >= n {
            None
        } else {
            Some(Step { row: at, target: at + 1, col })
        }
    } else if at == 0 {
        None
    } else {
        Some(Step { row: at, target: at - 1, col })
    }
}

/// Ends a vertical move at byte `col` of row `target`: the caret goes there, or the moving end
/// of the selection when `extend`. A row that does not exist leaves the editor as it is.
pub fn vertical_move(ed: &mut CodeEditor, rows: &Rows, target: usize, col: usize, extend: bool)
    requires
        old(ed).wf(),
        target < rows.starts@.len() ==> buffer::boundary(
            old(ed).doc().bytes,
            rows.starts@[target as int] + col,
        ),
    ensures
        target >= rows.starts@.len() ==> *final(ed) == *old(ed),
        target < rows.starts@.len() ==> final(ed).steered_from(*old(ed)) && final(ed).reveal_pending && final(ed).doc() == (if extend {
            old(ed).doc().extended(rows.starts@[target as int] + col)
        } else {
            old(ed).doc().moved(rows.starts@[target as int] + col)
        }),
{
    if target >= rows.starts.len() {
        return;
    }
    let _len: usize = buffer::byte_len(ed.content.as_str());
    let off: usize = rows.starts[target] + col;
    if extend {
        ed.select_to(off);
    } else {
        ed.move_to(off);
    }
}

// ---------------------------------------------------------------------------
// The gutter
// ---------------------------------------------------------------------------

/// How many decimal digits `n` has.
pub open spec fn decimal_digits(n: int) -> int
    decreases n,
{
    if n < 10 {
        1
    } else {
        1 + decimal_digits(n / 10)
    }
}

/// The digits to leave room for in the line-number column: at least two.
pub fn number_digits(line_count: usize) -> (r: usize)
    ensures
        r == (if decimal_digits(line_count as int) < 2 {
            2
        } else {
            decimal_digits(line_count as int)
        }),
{
    let mut n: usize = line_count;
    let mut d: usize = 1;
    while n >= 10
        invariant
            d + decimal_digits(n as int) == 1 + decimal_digits(line_count as int),
            d + n <= line_count + 1,
            d >= 1,
        decreases n,
    {
        n = n / 10;
        d = d + 1;
    }
    if d < 2 {
        2
    } else {
        d
    }
}

// ---------------------------------------------------------------------------
// What a row shows
// ---------------------------------------------------------------------------

/// A wrapped row takes all that is left if it fits. Else it ends behind a space where there is
/// one before the width ends, with no space between there and where the width ends, or where the
/// width ends; and it is never empty.
pub proof fn lemma_wrap_len(rest: Seq<char>, fits: bool, i: int)
    requires
        rest.len() > 0,
        i >= 0,
    ensures
        ({
            let b = encode_utf8(rest);
            let at = if i < b.len() {
                i
            } else {
                b.len() as int
            };
            let n = wrap_len(rest, fits, i);
            &&& n > 0
            &&& fits ==> n == b.len()
            &&& !fits && at > 0 ==> n <= at
            &&& !fits && 0 < n < at ==> b[n - 1] == 32 && forall|k: int| n <= k < at ==> b[k] != 32
            &&& !fits && n == at && at > 0 ==> (b[at - 1] == 32 || forall|k: int|
                0 <= k < at ==> b[k] != 32)
            &&& !fits && at == 0 ==> n == text::blen(seq![rest[0]])
        }),
{
    let b = encode_utf8(rest);
    let at = if i < b.len() {
        i
    } else {
        b.len() as int
    };
    lemma_after_space(b, at);
    text::lemma_char_len(rest[0]);
    text::lemma_encode_concat(seq![rest[0]], rest.skip(1));
    assert(seq![rest[0]] + rest.skip(1) =~= rest);
}

proof fn lemma_after_space(b: Seq<u8>, end: int)
    requires
        0 <= end <= b.len(),
    ensures
        0 <= after_space(b, end) <= end,
        after_space(b, end) > 0 ==> b[after_space(b, end) - 1] == 32,
        forall|k: int| after_space(b, end) <= k < end ==> b[k] != 32,
    decreases end,
{
    if end > 0 && b[end - 1] != 32 {
        lemma_after_space(b, end - 1);
    }
}

/// What a selection covers of a row that it touches is what the two have in common: from the
/// later of the two starts to the earlier of the two ends.
pub proof fn lemma_selected_in_row(starts: Seq<usize>, len: int, a: int, b: int, row: int)
    requires
        0 < starts.len(),
        starts[0] <= a <= b <= len,
        starts.last() <= len,
        forall|i: int, j: int| 0 <= i < j < starts.len() ==> starts[i] < starts[j],
        row_at(starts, a, 0) <= row <= row_at(starts, b, 0),
    ensures
        ({
            let (x, y) = selected_in_row(starts, len, a, b, row);
            let next = if row + 1 < starts.len() {
                starts[row + 1] as int
            } else {
                len
            };
            &&& 0 <= row < starts.len()
            &&& starts[row] + x == (if a > starts[row] {
                a
            } else {
                starts[row] as int
            })
            &&& starts[row] + y == (if b < next {
                b
            } else {
                next
            })
        }),
{
    lemma_row_at(starts, a, 0);
    lemma_row_at(starts, b, 0);
    lemma_row_at_last(starts, a, 0);
    lemma_row_at_last(starts, b, 0);
    let l0 = row_at(starts, a, 0);
    let l1 = row_at(starts, b, 0);
    if row > l0 {
        assert(starts[l0 + 1] <= starts[row]);
    }
    if row < l1 {
        assert(starts[row + 1] <= starts[l1]);
    }
}

proof fn lemma_row_at_last(starts: Seq<usize>, off: int, i: int)
    requires
        0 <= i < starts.len(),
        starts[i] <= off,
    ensures
        i <= row_at(starts, off, i) < starts.len(),
        starts[row_at(starts, off, i)] <= off,
        row_at(starts, off, i) + 1 < starts.len() ==> starts[row_at(starts, off, i) + 1] > off,
    decreases starts.len() - i,
{
    if i + 1 < starts.len() && starts[i + 1] <= off {
        lemma_row_at_last(starts, off, i + 1);
    }
}

/// The row of a line is the first that shows it.
pub proof fn lemma_row_of_line(lines: Seq<usize>, line: int, i: int)
    requires
        0 <= i,
    ensures
        (exists|k: int| i <= k < lines.len() && lines[k] == line) ==> i <= row_of_line(
            lines,
            line,
            i,
        ) < lines.len() && lines[row_of_line(lines, line, i)] == line && forall|k: int|
            i <= k < row_of_line(lines, line, i) ==> lines[k] != line,
        !(exists|k: int| i <= k < lines.len() && lines[k] == line) ==> row_of_line(lines, line, i)
            == 0,
    decreases lines.len() - i,
{
    if i < lines.len() && lines[i] != line {
        lemma_row_of_line(lines, line, i + 1);
    }
}

/// A number has as many digits as are written of it.
pub proof fn lemma_decimal_digits(n: nat)
    ensures
        decimal_digits(n as int) == text::decimal(n).len(),
    decreases n,
{
    if n >= 10 {
        lemma_decimal_digits(n / 10);
    }
}

/// A row shows a line that is not hidden, and starts on that line; every line that is not hidden
/// is shown, behind as many blank rows as go before it. Rows come in the order of their lines.
pub proof fn lemma_rows_show_lines(input: RowInput, n: int, l: int)
    requires
        0 <= l < n,
        !folds::hidden(input.folded, input.foldable, l),
        input.filler_before(l) >= 0,
    ensures
        ({
            let before = input.rows_upto(l);
            let rows = input.rows_upto(n);
            let start = buffer::line_start(input.bytes, l);
            let blank = input.filler_before(l);
            let own = before.len() + blank;
            &&& own < rows.len()
            &&& rows.take(before.len() as int) == before
            &&& forall|k: int| before.len() <= k < own ==> #[trigger] rows[k] == (start, FILLER as int)
            &&& rows[own].1 == l
            &&& input.segments(l).len() == 0 ==> rows[own] == (start, l)
            &&& input.segments(l).len() > 0 ==> (own + input.segments(l).len() <= rows.len()
                && forall|k: int|
                0 <= k < input.segments(l).len() ==> #[trigger] rows[own + k] == (
                    start + input.segments(l)[k],
                    l,
                ))
        }),
    decreases n,
{
    let before = input.rows_upto(l);
    let rows = input.rows_upto(n);
    let start = buffer::line_start(input.bytes, l);
    let blank = input.filler_before(l);
    let own = before.len() + blank;
    let f = filler_rows(blank, start);
    let lr = line_rows(l, start, input.segments(l));
    if n == l + 1 {
        assert(rows == before + f + lr);
        assert(rows.take(before.len() as int) =~= before);
        assert forall|k: int| before.len() <= k < own implies #[trigger] rows[k] == (
            start,
            FILLER as int,
        ) by {
            assert(rows[k] == f[k - before.len()]);
        }
        assert(rows[own] == lr[0]);
        assert forall|k: int| 0 <= k < input.segments(l).len() implies #[trigger] rows[own + k] == (
            start + input.segments(l)[k],
            l,
        ) by {
            assert(rows[own + k] == lr[k]);
        }
    } else {
        lemma_rows_show_lines(input, n - 1, l);
        let r = input.rows_upto(n - 1);
        assert(rows.take(r.len() as int) =~= r);
        assert(rows.take(before.len() as int) =~= r.take(before.len() as int));
        assert forall|k: int| 0 <= k < r.len() implies rows[k] == r[k] by {
            assert(rows.take(r.len() as int)[k] == r[k]);
        }
    }
}

/// Lines that are hidden have no row: a row that is not blank shows a line that is not hidden.
pub proof fn lemma_hidden_not_shown(input: RowInput, n: int, k: int)
    requires
        0 <= n,
        0 <= k < input.rows_upto(n).len(),
        input.rows_upto(n)[k].1 != FILLER,
    ensures
        0 <= input.rows_upto(n)[k].1 < n,
        !folds::hidden(input.folded, input.foldable, input.rows_upto(n)[k].1),
    decreases n,
{
    if n > 0 {
        let r = input.rows_upto(n - 1);
        let rows = input.rows_upto(n);
        let l = n - 1;
        if k < r.len() {
            assert(rows[k] == r[k]);
            lemma_hidden_not_shown(input, n - 1, k);
        } else {
            let start = buffer::line_start(input.bytes, l);
            let f = filler_rows(input.filler_before(l), start);
            let lr = line_rows(l, start, input.segments(l));
            let a = r + f;
            assert(rows == a + lr);
            if k < a.len() {
                assert(rows[k] == f[k - r.len()]);
            } else {
                assert(rows[k] == lr[k - a.len()]);
            }
        }
    }
}

/// A fold mark stands on the row of a line at which a region starts, and says whether that region
/// is folded; every visible line of the kind that is not wrapped has one.
pub proof fn lemma_gutter(input: RowInput, n: int, k: int)
    requires
        0 <= n <= usize::MAX + 1,
        0 <= k < input.gutter_upto(n).len(),
        forall|l: int| 0 <= l < n ==> #[trigger] input.filler_before(l) >= 0,
    ensures
        ({
            let (row, folded) = input.gutter_upto(n)[k];
            let rows = input.rows_upto(n);
            let line = rows[row].1;
            &&& 0 <= row < rows.len()
            &&& 0 <= line < n
            &&& folds::region_end(input.foldable, line as usize, 0) is Some
            &&& folded == input.folded.contains(line as usize)
            &&& !folds::hidden(input.folded, input.foldable, line)
        }),
    decreases n,
{
    if n > 0 {
        let g = input.gutter_upto(n - 1);
        let l = n - 1;
        let rows = input.rows_upto(n);
        let r = input.rows_upto(n - 1);
        assert(input.filler_before(l) >= 0);
        if k < g.len() {
            lemma_gutter(input, n - 1, k);
            assert(input.gutter_upto(n)[k] == g[k]);
            assert(rows[g[k].0] == r[g[k].0]);
        } else {
            lemma_rows_show_lines(input, n, l);
        }
    }
}

/// Every visible line at which a region starts, and that is not wrapped, has a fold mark on its
/// row.
pub proof fn lemma_gutter_all(input: RowInput, n: int, l: int)
    requires
        0 <= l < n <= usize::MAX + 1,
        !folds::hidden(input.folded, input.foldable, l),
        input.segments(l).len() == 0,
        folds::region_end(input.foldable, l as usize, 0) is Some,
    ensures
        input.gutter_upto(n).contains(
            (
                input.rows_upto(l).len() + input.filler_before(l),
                input.folded.contains(l as usize),
            ),
        ),
    decreases n,
{
    let g = input.gutter_upto(n);
    let m = (input.rows_upto(l).len() + input.filler_before(l), input.folded.contains(l as usize));
    if n == l + 1 {
        assert(g[g.len() - 1] == m);
    } else {
        lemma_gutter_all(input, n - 1, l);
        let d = input.gutter_upto(n - 1);
        let i = choose|i: int| 0 <= i < d.len() && d[i] == m;
        assert(g[i] == m);
    }
}

/// The blank rows at the end come behind all others, at the end of the text.
pub proof fn lemma_all_rows(input: RowInput, filler_end: nat)
    ensures
        ({
            let own = input.rows_upto(buffer::line_total(input.bytes));
            let r = input.all_rows(filler_end as int);
            &&& r.len() == own.len() + filler_end
            &&& r.take(own.len() as int) == own
            &&& forall|k: int|
                own.len() <= k < r.len() ==> #[trigger] r[k] == (
                    input.bytes.len() as int,
                    FILLER as int,
                )
        }),
{
    let own = input.rows_upto(buffer::line_total(input.bytes));
    let r = input.all_rows(filler_end as int);
    assert(r.take(own.len() as int) =~= own);
}

} // verus!
