//! A multi-line code editor: text, selection, undo, folds and syntax colors.
//!
//! Offsets are UTF-8 byte offsets into the content, newlines included. What needs pixels (the
//! width of a shaped line, the position of a click) is asked of the caller; everything that
//! follows from it is decided here.

use crate::buffer;
use crate::folds;
use crate::highlight;
use crate::highlight::{Lang, Span};
use crate::text;
use std::collections::HashSet;
use std::ops::Range;
use unicode_segmentation::UnicodeSegmentation;
use vstd::prelude::*;
use vstd::utf8::{decode_utf8, encode_utf8};

verus! {

broadcast use {vstd::seq_lib::group_seq_properties, vstd::std_specs::hash::group_hash_axioms};

// ---------------------------------------------------------------------------
// Types
// ---------------------------------------------------------------------------

/// What an editor tells its surroundings.
#[derive(Debug, Clone, Copy, PartialEq, Eq, Structural)]
pub enum EditorEvent {
    /// The text changed.
    Changed,
    /// The modal-editing mode changed.
    VimModeChanged,
}

/// A point-in-time state for the undo and redo stacks.
pub struct Snapshot {
    pub content: String,
    pub selected_range: Range<usize>,
    pub selection_reversed: bool,
}

/// The kind of an edit: consecutive single characters that are typed become one undo step.
#[derive(Debug, Clone, Copy, PartialEq, Eq, Structural)]
pub enum EditKind {
    Type,
    Other,
}

/// Highlighting and folding of a large text, to be done in the background.
pub struct SyntaxJob {
    pub generation: u64,
    pub content: String,
    pub lang: Lang,
}

/// What the language says of the current text.
pub struct Syntax {
    /// Colored spans of the whole text.
    pub spans: Vec<Span>,
    /// Regions that can be folded: `(start_line, end_line)`.
    pub foldable: Vec<(usize, usize)>,
    /// The start lines of those regions.
    pub foldable_starts: HashSet<usize>,
    /// The start lines of the regions that are folded.
    pub folded: HashSet<usize>,
    /// Bytes of the longest line.
    pub max_line_len: usize,
    /// Grows with each text whose highlighting is put off; a result for an older one is dropped.
    pub generation: u64,
    /// The work that was put off last and not yet taken.
    pub job: Option<SyntaxJob>,
}

/// The text and what has been done to it.
pub struct CodeEditor {
    pub content: String,
    pub lang: Lang,
    pub placeholder: String,
    pub dirty: bool,
    /// Single-line inputs leave enter, up and down to their surroundings.
    pub single_line: bool,
    /// A further key context, next to the editor's own.
    pub ctx_override: Option<String>,
    /// Fill the parent's height instead of sizing to the content.
    pub fill_height: bool,
    /// Wrap long lines to the width of the element.
    pub soft_wrap: bool,
    /// Select and scroll only.
    pub read_only: bool,
    /// A modal-editing mode takes the keys, so edits by key are left out.
    pub edit_blocked: bool,
    pub selected_range: Range<usize>,
    pub selection_reversed: bool,
    pub marked_range: Option<Range<usize>>,
    pub undo_stack: Vec<Snapshot>,
    pub redo_stack: Vec<Snapshot>,
    pub last_edit: EditKind,
    pub syntax: Syntax,
    /// The caret moved and is to be scrolled into view.
    pub reveal_pending: bool,
    /// A drag that began in this editor is selecting text.
    pub is_selecting: bool,
}

/// The most undo steps that are kept.
pub const UNDO_LIMIT: usize = 1000;

/// From this many newlines on, highlighting is put off.
pub const ASYNC_THRESHOLD: usize = 4000;

// ---------------------------------------------------------------------------
// Model
// ---------------------------------------------------------------------------

/// A snapshot over bytes and mathematical integers.
#[verifier::ext_equal]
pub struct Snap {
    pub bytes: Seq<u8>,
    pub start: int,
    pub end: int,
    pub reversed: bool,
}

/// The document: its bytes, the selection, the composition range and the undo history.
#[verifier::ext_equal]
pub struct Doc {
    pub bytes: Seq<u8>,
    pub start: int,
    pub end: int,
    pub reversed: bool,
    pub marked: Option<(int, int)>,
    pub undo: Seq<Snap>,
    pub redo: Seq<Snap>,
    /// The last edit was a typed character, so the next one joins its undo step.
    pub typing: bool,
    pub dirty: bool,
}

impl Snap {
    pub open spec fn wf(self) -> bool {
        buffer::char_range(self.bytes, self.start, self.end)
    }
}

pub open spec fn snaps_wf(v: Seq<Snap>) -> bool {
    forall|i: int| 0 <= i < v.len() ==> (#[trigger] v[i]).wf()
}

impl Doc {
    /// The selection and the composition range are whole characters of the text, and the
    /// history is bounded and sound.
    pub open spec fn wf(self) -> bool {
        &&& buffer::char_range(self.bytes, self.start, self.end)
        &&& self.marked matches Some(m) ==> buffer::char_range(self.bytes, m.0, m.1)
        &&& snaps_wf(self.undo)
        &&& snaps_wf(self.redo)
        &&& self.undo.len() + self.redo.len() <= UNDO_LIMIT
    }

    /// The moving end of the selection.
    pub open spec fn cursor(self) -> int {
        if self.reversed {
            self.start
        } else {
            self.end
        }
    }

    pub open spec fn snap(self) -> Snap {
        Snap { bytes: self.bytes, start: self.start, end: self.end, reversed: self.reversed }
    }

    /// The caret moved to `off`: a run of typing ends.
    pub open spec fn moved(self, off: int) -> Doc {
        Doc { start: off, end: off, typing: false, ..self }
    }

    /// The moving end of the selection moved to `off`; the other end stays.
    pub open spec fn extended(self, off: int) -> Doc {
        let (s, e) = if self.reversed {
            (off, self.end)
        } else {
            (self.start, off)
        };
        if e < s {
            Doc { start: e, end: s, reversed: !self.reversed, ..self }
        } else {
            Doc { start: s, end: e, ..self }
        }
    }

    /// The state before an edit goes on the undo stack, unless the edit joins a run of typing.
    pub open spec fn recorded(self, typing: bool) -> Doc {
        if typing && self.typing {
            Doc { redo: Seq::empty(), ..self }
        } else {
            let u = self.undo.push(self.snap());
            Doc {
                redo: Seq::empty(),
                undo: if u.len() > UNDO_LIMIT {
                    u.drop_first()
                } else {
                    u
                },
                typing,
                ..self
            }
        }
    }

    /// The bytes `s..e` replaced by `t`, as one edit; the caret goes after the new text.
    pub open spec fn replaced(self, s: int, e: int, t: Seq<u8>, typing: bool) -> Doc {
        Doc {
            bytes: buffer::spliced(self.bytes, s, e, t),
            start: s + t.len(),
            end: s + t.len(),
            marked: None,
            dirty: true,
            ..self.recorded(typing)
        }
    }

    /// The state `s` brought back.
    pub open spec fn restored(self, s: Snap) -> Doc {
        Doc {
            bytes: s.bytes,
            start: s.start,
            end: s.end,
            reversed: s.reversed,
            marked: None,
            typing: false,
            dirty: true,
            ..self
        }
    }

    /// The last edit undone.
    pub open spec fn undone(self) -> Doc {
        if self.undo.len() == 0 {
            self
        } else {
            Doc {
                undo: self.undo.drop_last(),
                redo: self.redo.push(self.snap()),
                ..self.restored(self.undo.last())
            }
        }
    }

    /// A text that nothing has been done to, with the caret at its start.
    pub open spec fn blank(content: Seq<char>) -> Doc {
        Doc {
            bytes: encode_utf8(content),
            start: 0,
            end: 0,
            reversed: false,
            marked: None,
            undo: Seq::empty(),
            redo: Seq::empty(),
            typing: false,
            dirty: false,
        }
    }

    /// The last undone edit done again.
    pub open spec fn redone(self) -> Doc {
        if self.redo.len() == 0 {
            self
        } else {
            Doc {
                redo: self.redo.drop_last(),
                undo: self.undo.push(self.snap()),
                ..self.restored(self.redo.last())
            }
        }
    }
}

impl Snapshot {
    pub open spec fn model(self) -> Snap {
        Snap {
            bytes: encode_utf8(self.content@),
            start: self.selected_range.start as int,
            end: self.selected_range.end as int,
            reversed: self.selection_reversed,
        }
    }
}

pub open spec fn snaps(v: Seq<Snapshot>) -> Seq<Snap> {
    Seq::new(v.len(), |i: int| v[i].model())
}

/// The start lines of the regions.
pub open spec fn start_lines(foldable: Seq<(usize, usize)>) -> Set<usize> {
    Set::new(|l: usize| exists|i: int| 0 <= i < foldable.len() && (#[trigger] foldable[i]).0 == l)
}

impl Syntax {
    pub open spec fn wf(self) -> bool {
        &&& self.foldable_starts@ == start_lines(self.foldable@)
        &&& highlight::spans_ordered(highlight::spans_view(self.spans@))
        &&& highlight::spans_nonempty(highlight::spans_view(self.spans@))
    }

    /// What is known of the language is up to date with `content`, coming from `before`: at
    /// once for a short text; put off, with nothing shown meanwhile, for a long one.
    pub open spec fn follows(self, before: Syntax, content: Seq<char>, lang: Lang, single: bool) -> bool {
        let b = encode_utf8(content);
        let empty = single || content.len() == 0;
        let long = buffer::line_total(b) - 1 >= ASYNC_THRESHOLD;
        &&& self.max_line_len == (if empty {
            0
        } else {
            buffer::longest_line(b, buffer::line_total(b))
        })
        &&& empty || long ==> self.spans@.len() == 0 && self.foldable@.len() == 0 && self.folded@
            == before.folded@
        &&& empty || !long ==> self.generation == before.generation && self.job == before.job
        &&& !empty && !long ==> highlight::spans_view(self.spans@) == highlight::highlight_spec(
            content,
            lang,
        ) && highlight::fold_regions_spec(content, lang, self.foldable@) && self.folded@
            == before.folded@.intersect(start_lines(self.foldable@))
        &&& !empty && long ==> self.generation == (before.generation + 1) % 0x1_0000_0000_0000_0000
            && (self.job matches Some(j) && j.generation == self.generation && j.content@ == content
            && j.lang == lang)
    }

    /// What is known of the language is up to date with a text that was put in place of another,
    /// with nothing folded.
    #[verifier::opaque]
    pub open spec fn loaded_from(
        self,
        before: Syntax,
        content: Seq<char>,
        lang: Lang,
        single: bool,
    ) -> bool {
        exists|unfolded: Syntax|
            unfolded.folded@ == Set::<usize>::empty() && unfolded.generation == before.generation
                && unfolded.job == before.job && #[trigger] self.follows(
                unfolded,
                content,
                lang,
                single,
            )
    }
}

impl CodeEditor {
    pub open spec fn doc(self) -> Doc {
        Doc {
            bytes: encode_utf8(self.content@),
            start: self.selected_range.start as int,
            end: self.selected_range.end as int,
            reversed: self.selection_reversed,
            marked: match self.marked_range {
                Some(r) => Some((r.start as int, r.end as int)),
                None => None,
            },
            undo: snaps(self.undo_stack@),
            redo: snaps(self.redo_stack@),
            typing: self.last_edit == EditKind::Type,
            dirty: self.dirty,
        }
    }

    pub open spec fn wf(self) -> bool {
        self.doc().wf() && self.syntax.wf()
    }

    /// Edits by key or by input are rejected.
    pub open spec fn locked(self) -> bool {
        self.read_only || self.edit_blocked
    }

    /// How the editor is set up is as in `o`.
    pub open spec fn same_setup(self, o: CodeEditor) -> bool {
        &&& self.placeholder == o.placeholder
        &&& self.single_line == o.single_line
        &&& self.ctx_override == o.ctx_override
        &&& self.fill_height == o.fill_height
        &&& self.soft_wrap == o.soft_wrap
        &&& self.read_only == o.read_only
        &&& self.edit_blocked == o.edit_blocked
    }

    /// A text was put in place of the one of `o`, and nothing has been done to it.
    pub open spec fn loaded_from(self, o: CodeEditor, content: Seq<char>, lang: Lang) -> bool {
        &&& self.content@ == content
        &&& self.lang == lang
        &&& self.same_setup(o)
        &&& self.is_selecting == o.is_selecting
        &&& self.reveal_pending == o.reveal_pending
        &&& self.doc() == Doc::blank(content)
        &&& self.syntax.loaded_from(o.syntax, content, lang, o.single_line)
    }

    /// The text was edited, and nothing else changed but what follows from that.
    pub open spec fn edited_from(self, o: CodeEditor) -> bool {
        &&& self.wf()
        &&& self.same_setup(o)
        &&& self.lang == o.lang
        &&& self.is_selecting == o.is_selecting
        &&& self.syntax.follows(o.syntax, self.content@, self.lang, self.single_line)
    }

    /// The selection or the history moved, and nothing else changed.
    pub open spec fn steered_from(self, o: CodeEditor) -> bool {
        &&& self.wf()
        &&& self.same_setup(o)
        &&& self.lang == o.lang
        &&& self.is_selecting == o.is_selecting
        &&& self.content == o.content
        &&& self.syntax == o.syntax
    }
}

// ---------------------------------------------------------------------------
// Graphemes
// ---------------------------------------------------------------------------

/// The offsets at which the extended grapheme clusters of a text start.
pub uninterp spec fn grapheme_starts(s: Seq<char>) -> Seq<usize>;

/// `unicode_segmentation::UnicodeSegmentation::grapheme_indices`, for extended clusters.
///
/// Claimed: the offsets depend on the text alone, go up strictly, are character boundaries
/// before the end of the text, and begin with 0 unless the text is empty.
#[verifier::external_body]
fn grapheme_offsets(s: &str) -> (r: Vec<usize>)
    ensures
        r@ == grapheme_starts(s@),
        forall|i: int, j: int| 0 <= i < j < r@.len() ==> (#[trigger] r@[i]) < (#[trigger] r@[j]),
        forall|i: int|
            0 <= i < r@.len() ==> (#[trigger] r@[i]) < text::blen(s@) && buffer::boundary(
                encode_utf8(s@),
                r@[i] as int,
            ),
        s@.len() > 0 ==> r@.len() > 0 && r@[0] == 0,
{
    s.grapheme_indices(true).map(|(i, _)| i).collect()
}

/// The last of the first `n` starts that lies before `off`, or 0.
pub open spec fn start_before(starts: Seq<usize>, off: int, n: int) -> int
    decreases n,
{
    if n <= 0 || n > starts.len() {
        0
    } else if starts[n - 1] < off {
        starts[n - 1] as int
    } else {
        start_before(starts, off, n - 1)
    }
}

/// The first of the starts from position `i` on that lies after `off`, or `len`.
pub open spec fn start_after(starts: Seq<usize>, off: int, i: int, len: int) -> int
    decreases starts.len() - i,
{
    if i < 0 || i >= starts.len() {
        len
    } else if starts[i] > off {
        starts[i] as int
    } else {
        start_after(starts, off, i + 1, len)
    }
}

/// The last of the given starts that lies before `off`, or 0.
pub fn boundary_before(starts: &Vec<usize>, off: usize) -> (r: usize)
    ensures
        r == start_before(starts@, off as int, starts@.len() as int),
        r == 0 || starts@.contains(r),
        r <= off,
{
    let mut n: usize = starts.len();
    while n > 0
        invariant
            n <= starts@.len(),
            start_before(starts@, off as int, n as int) == start_before(
                starts@,
                off as int,
                starts@.len() as int,
            ),
        decreases n,
    {
        if starts[n - 1] < off {
            proof {
                assert(starts@.contains(starts@[n - 1]));
            }
            return starts[n - 1];
        }
        n -= 1;
    }
    0
}

/// The first of the given starts that lies after `off`, or `len`.
pub fn boundary_after(starts: &Vec<usize>, off: usize, len: usize) -> (r: usize)
    ensures
        r == start_after(starts@, off as int, 0, len as int),
        r == len || starts@.contains(r),
        r == len || r > off,
{
    let mut i: usize = 0;
    while i < starts.len()
        invariant
            i <= starts@.len(),
            start_after(starts@, off as int, i as int, len as int) == start_after(
                starts@,
                off as int,
                0,
                len as int,
            ),
        decreases starts@.len() - i,
    {
        if starts[i] > off {
            proof {
                assert(starts@.contains(starts@[i as int]));
            }
            return starts[i];
        }
        i += 1;
    }
    len
}

// ---------------------------------------------------------------------------
// Syntax
// ---------------------------------------------------------------------------

/// The set of the start lines of the regions.
fn starts_of(foldable: &Vec<(usize, usize)>) -> (r: HashSet<usize>)
    ensures
        r@ == start_lines(foldable@),
{
    let mut set: HashSet<usize> = HashSet::new();
    let mut i: usize = 0;
    while i < foldable.len()
        invariant
            i <= foldable@.len(),
            set@ == start_lines(foldable@.take(i as int)),
        decreases foldable@.len() - i,
    {
        let ghost before = set@;
        let l: usize = foldable[i].0;
        set.insert(l);
        proof {
            let t = foldable@.take(i + 1);
            let p = foldable@.take(i as int);
            assert forall|x: usize| #[trigger] start_lines(t).contains(x) == before.insert(l).contains(x) by {
                if start_lines(t).contains(x) {
                    let k = choose|k: int| 0 <= k < t.len() && (#[trigger] t[k]).0 == x;
                    if k < i {
                        assert(p[k].0 == x);
                    }
                }
                if before.contains(x) {
                    let k = choose|k: int| 0 <= k < p.len() && (#[trigger] p[k]).0 == x;
                    assert(t[k].0 == x);
                }
                if x == l {
                    assert(t[i as int].0 == x);
                }
            }
            assert(set@ =~= start_lines(t));
        }
        i += 1;
    }
    proof {
        assert(foldable@.take(foldable@.len() as int) == foldable@);
    }
    set
}

/// The members of `folded` that start a region.
fn keep_foldable(folded: &HashSet<usize>, foldable: &Vec<(usize, usize)>) -> (r: HashSet<usize>)
    ensures
        r@ == folded@.intersect(start_lines(foldable@)),
{
    let mut set: HashSet<usize> = HashSet::new();
    let mut i: usize = 0;
    proof {
        assert(start_lines(foldable@.take(0)) =~= Set::<usize>::empty());
    }
    while i < foldable.len()
        invariant
            i <= foldable@.len(),
            set@ == folded@.intersect(start_lines(foldable@.take(i as int))),
        decreases foldable@.len() - i,
    {
        let ghost before = set@;
        let l: usize = foldable[i].0;
        proof {
            let t = foldable@.take(i + 1);
            let p = foldable@.take(i as int);
            assert forall|x: usize| #[trigger] start_lines(t).contains(x) == start_lines(p).insert(l).contains(x) by {
                if start_lines(t).contains(x) {
                    let k = choose|k: int| 0 <= k < t.len() && (#[trigger] t[k]).0 == x;
                    if k < i {
                        assert(p[k].0 == x);
                    }
                }
                if start_lines(p).contains(x) {
                    let k = choose|k: int| 0 <= k < p.len() && (#[trigger] p[k]).0 == x;
                    assert(t[k].0 == x);
                }
                if x == l {
                    assert(t[i as int].0 == x);
                }
            }
            assert(start_lines(t) =~= start_lines(p).insert(l));
        }
        if folded.contains(&l) {
            set.insert(l);
        }
        proof {
            assert(set@ =~= folded@.intersect(start_lines(foldable@.take(i + 1))));
        }
        i += 1;
    }
    proof {
        assert(foldable@.take(foldable@.len() as int) == foldable@);
    }
    set
}

impl Syntax {
    /// Nothing known yet.
    pub fn new() -> (r: Self)
        ensures
            r.wf(),
            r.spans@.len() == 0,
            r.foldable@.len() == 0,
            r.folded@ == Set::<usize>::empty(),
            r.max_line_len == 0,
            r.generation == 0,
            r.job is None,
    {
        let r = Syntax {
            spans: Vec::new(),
            foldable: Vec::new(),
            foldable_starts: HashSet::new(),
            folded: HashSet::new(),
            max_line_len: 0,
            generation: 0,
            job: None,
        };
        proof {
            assert(r.foldable_starts@ =~= start_lines(r.foldable@));
        }
        r
    }

    /// Colors and regions go; what is folded stays as it is.
    fn clear(&mut self)
        ensures
            final(self).wf(),
            final(self).spans@.len() == 0,
            final(self).foldable@.len() == 0,
            final(self).folded == old(self).folded,
            final(self).max_line_len == old(self).max_line_len,
            final(self).generation == old(self).generation,
            final(self).job == old(self).job,
    {
        self.spans = Vec::new();
        self.foldable = Vec::new();
        self.foldable_starts = HashSet::new();
        proof {
            assert(self.foldable_starts@ =~= start_lines(self.foldable@));
        }
    }

    /// Takes new colors and regions; what is folded and no longer starts a region unfolds.
    fn install(&mut self, spans: Vec<Span>, foldable: Vec<(usize, usize)>)
        requires
            highlight::spans_ordered(highlight::spans_view(spans@)),
            highlight::spans_nonempty(highlight::spans_view(spans@)),
        ensures
            final(self).wf(),
            final(self).spans == spans,
            final(self).foldable == foldable,
            final(self).folded@ == old(self).folded@.intersect(start_lines(foldable@)),
            final(self).max_line_len == old(self).max_line_len,
            final(self).generation == old(self).generation,
            final(self).job == old(self).job,
    {
        self.folded = keep_foldable(&self.folded, &foldable);
        self.foldable_starts = starts_of(&foldable);
        self.spans = spans;
        self.foldable = foldable;
    }

    /// Brings colors and regions up to date with the text.
    pub fn recompute(&mut self, content: &String, lang: Lang, single_line: bool)
        requires
            old(self).wf(),
        ensures
            final(self).wf(),
            final(self).follows(*old(self), content@, lang, single_line),
    {
        if single_line || content.as_str().is_empty() {
            self.clear();
            self.max_line_len = 0;
            return;
        }
        self.max_line_len = buffer::max_line_len(content.as_str());
        let bytes = content.as_str().as_bytes();
        let lines: usize = buffer::count_newlines(bytes, bytes.len());
        if lines < ASYNC_THRESHOLD {
            let spans = highlight::highlight(content.as_str(), lang);
            let foldable = highlight::fold_regions(content.as_str(), lang);
            self.install(spans, foldable);
            return;
        }
        self.clear();
        self.generation = self.generation.wrapping_add(1);
        self.job = Some(
            SyntaxJob { generation: self.generation, content: content.clone(), lang },
        );
    }

    /// Takes the work that was put off last, if it was not taken yet.
    pub fn take_job(&mut self) -> (r: Option<SyntaxJob>)
        ensures
            r == old(self).job,
            final(self).job is None,
            final(self).spans == old(self).spans,
            final(self).foldable == old(self).foldable,
            final(self).foldable_starts == old(self).foldable_starts,
            final(self).folded == old(self).folded,
            final(self).max_line_len == old(self).max_line_len,
            final(self).generation == old(self).generation,
    {
        self.job.take()
    }

    /// Applies the result of work that was put off, unless the text has changed since.
    pub fn finish_job(
        &mut self,
        generation: u64,
        spans: Vec<Span>,
        foldable: Vec<(usize, usize)>,
    ) -> (applied: bool)
        requires
            old(self).wf(),
            highlight::spans_ordered(highlight::spans_view(spans@)),
            highlight::spans_nonempty(highlight::spans_view(spans@)),
        ensures
            final(self).wf(),
            applied == (old(self).generation == generation),
            !applied ==> *final(self) == *old(self),
            applied ==> final(self).spans == spans && final(self).foldable == foldable && final(self).folded@ == old(self).folded@.intersect(start_lines(foldable@)) && final(self).max_line_len == old(self).max_line_len && final(self).generation == old(self).generation && final(self).job == old(self).job,
    {
        if self.generation != generation {
            return false;
        }
        self.install(spans, foldable);
        true
    }
}

/// Does work that was put off: the colors and the regions of the text.
pub fn run_job(job: &SyntaxJob) -> (r: (Vec<Span>, Vec<(usize, usize)>))
    ensures
        highlight::spans_view(r.0@) == highlight::highlight_spec(job.content@, job.lang),
        highlight::spans_ordered(highlight::spans_view(r.0@)),
        highlight::spans_nonempty(highlight::spans_view(r.0@)),
        highlight::fold_regions_spec(job.content@, job.lang, r.1@),
{
    let spans = highlight::highlight(job.content.as_str(), job.lang);
    let foldable = highlight::fold_regions(job.content.as_str(), job.lang);
    (spans, foldable)
}

// ---------------------------------------------------------------------------
// What the steps keep
// ---------------------------------------------------------------------------

/// Recording keeps a document sound.
proof fn lemma_recorded_wf(d: Doc, typing: bool)
    requires
        d.wf(),
    ensures
        d.recorded(typing).wf(),
{
    let r = d.recorded(typing);
    if !(typing && d.typing) {
        let u = d.undo.push(d.snap());
        assert forall|i: int| 0 <= i < u.len() implies (#[trigger] u[i]).wf() by {
            if i < d.undo.len() {
                assert(d.undo[i].wf());
            }
        }
        assert forall|i: int| 0 <= i < r.undo.len() implies (#[trigger] r.undo[i]).wf() by {
            if u.len() > UNDO_LIMIT {
                assert(r.undo[i] == u[i + 1]);
            } else {
                assert(r.undo[i] == u[i]);
            }
        }
    }
}

/// Undoing and redoing keep a document sound.
proof fn lemma_history_wf(d: Doc)
    requires
        d.wf(),
    ensures
        d.undone().wf(),
        d.redone().wf(),
{
    if d.undo.len() > 0 {
        let u = d.undone();
        assert(d.undo[d.undo.len() - 1].wf());
        assert forall|i: int| 0 <= i < u.undo.len() implies (#[trigger] u.undo[i]).wf() by {
            assert(d.undo[i].wf());
        }
        assert forall|i: int| 0 <= i < u.redo.len() implies (#[trigger] u.redo[i]).wf() by {
            if i < d.redo.len() {
                assert(d.redo[i].wf());
            }
        }
    }
    if d.redo.len() > 0 {
        let r = d.redone();
        assert(d.redo[d.redo.len() - 1].wf());
        assert forall|i: int| 0 <= i < r.redo.len() implies (#[trigger] r.redo[i]).wf() by {
            assert(d.redo[i].wf());
        }
        assert forall|i: int| 0 <= i < r.undo.len() implies (#[trigger] r.undo[i]).wf() by {
            if i < d.undo.len() {
                assert(d.undo[i].wf());
            }
        }
    }
}

/// Redo takes an undo back: text, selection and both stacks are what they were.
pub proof fn lemma_redo_after_undo(d: Doc)
    requires
        d.undo.len() > 0,
    ensures
        d.undone().redone().snap() == d.snap(),
        d.undone().redone().undo == d.undo,
        d.undone().redone().redo == d.redo,
{
    let u = d.undone();
    assert(u.redo.drop_last() == d.redo);
    assert(u.redo.last() == d.snap());
    assert(u.snap() == d.undo.last());
    assert(d.undo.drop_last().push(d.undo.last()) == d.undo);
}

/// Undo takes an edit back: text and selection are what they were before it, unless the edit
/// joined a run of typing.
pub proof fn lemma_undo_after_edit(d: Doc, s: int, e: int, t: Seq<u8>, typing: bool)
    requires
        !(typing && d.typing),
    ensures
        d.replaced(s, e, t, typing).undone().snap() == d.snap(),
{
    let u = d.undo.push(d.snap());
    assert(u.last() == d.snap());
    if u.len() > UNDO_LIMIT {
        assert(u.drop_first().last() == u.last());
    }
}

/// The document after the given characters were typed at the caret, one after the other.
pub open spec fn typed(d: Doc, chars: Seq<Seq<u8>>) -> Doc
    decreases chars.len(),
{
    if chars.len() == 0 {
        d
    } else {
        let p = typed(d, chars.drop_last());
        p.replaced(p.start, p.end, chars.last(), true)
    }
}

/// A run of typing is one undo step: one undo brings back the text and the selection from
/// before its first character.
pub proof fn lemma_typing_is_one_step(d: Doc, chars: Seq<Seq<u8>>)
    requires
        !d.typing,
        chars.len() > 0,
    ensures
        typed(d, chars).typing,
        typed(d, chars).undo == d.recorded(true).undo,
        typed(d, chars).undone().snap() == d.snap(),
    decreases chars.len(),
{
    let last = chars.drop_last();
    let u = d.undo.push(d.snap());
    assert(u.last() == d.snap());
    if u.len() > UNDO_LIMIT {
        assert(u.drop_first().last() == u.last());
    }
    if last.len() > 0 {
        lemma_typing_is_one_step(d, last);
    } else {
        assert(typed(d, last) == d);
    }
}

/// Puts a snapshot on a stack, whose oldest one goes when there are too many.
fn push_bounded(stack: &mut Vec<Snapshot>, snap: Snapshot)
    ensures
        ({
            let u = snaps(old(stack)@).push(snap.model());
            snaps(final(stack)@) == (if u.len() > UNDO_LIMIT {
                u.drop_first()
            } else {
                u
            })
        }),
{
    proof {
        lemma_snaps_push(stack@, snap);
    }
    stack.push(snap);
    if stack.len() > UNDO_LIMIT {
        let ghost v = stack@;
        let _ = stack.remove(0);
        proof {
            assert(snaps(stack@) =~= snaps(v).drop_first());
        }
    }
}

proof fn lemma_snaps_push(v: Seq<Snapshot>, x: Snapshot)
    ensures
        snaps(v.push(x)) == snaps(v).push(x.model()),
{
    assert(snaps(v.push(x)) =~= snaps(v).push(x.model()));
}

// ---------------------------------------------------------------------------
// The editor
// ---------------------------------------------------------------------------

/// A copy of a range.
fn copy_range(r: &Range<usize>) -> (c: Range<usize>)
    ensures
        c == *r,
{
    r.start..r.end
}

impl CodeEditor {
    /// An editor of `content` that nothing has been done to.
    pub open spec fn fresh(
        self,
        content: Seq<char>,
        lang: Lang,
        placeholder: Seq<char>,
        single: bool,
        read_only: bool,
    ) -> bool {
        &&& self.content@ == content
        &&& self.lang == lang
        &&& self.placeholder@ == placeholder
        &&& self.single_line == single
        &&& self.read_only == read_only
        &&& self.ctx_override is None
        &&& !self.fill_height
        &&& !self.soft_wrap
        &&& !self.edit_blocked
        &&& !self.reveal_pending
        &&& !self.is_selecting
        &&& self.doc() == Doc::blank(content)
        &&& self.syntax.spans@.len() == 0
        &&& self.syntax.foldable@.len() == 0
        &&& self.syntax.folded@ == Set::<usize>::empty()
        &&& self.syntax.max_line_len == 0
        &&& self.syntax.generation == 0
        &&& self.syntax.job is None
    }

    pub fn with_options(content: String, lang: Lang, placeholder: &str, single_line: bool) -> (r: Self)
        ensures
            r.wf(),
            r.fresh(content@, lang, placeholder@, single_line, false),
    {
        proof {
            buffer::lemma_ends(content@);
        }
        let r = CodeEditor {
            content,
            lang,
            placeholder: placeholder.to_owned(),
            dirty: false,
            single_line,
            ctx_override: None,
            fill_height: false,
            soft_wrap: false,
            read_only: false,
            edit_blocked: false,
            selected_range: 0..0,
            selection_reversed: false,
            marked_range: None,
            undo_stack: Vec::new(),
            redo_stack: Vec::new(),
            last_edit: EditKind::Other,
            syntax: Syntax::new(),
            reveal_pending: false,
            is_selecting: false,
        };
        proof {
            assert(snaps(r.undo_stack@) =~= Seq::<Snap>::empty());
            assert(snaps(r.redo_stack@) =~= Seq::<Snap>::empty());
        }
        r
    }

    pub fn new(content: String, lang: Lang, placeholder: &str) -> (r: Self)
        ensures
            r.wf(),
            r.fresh(content@, lang, placeholder@, false, false),
    {
        Self::with_options(content, lang, placeholder, false)
    }

    pub fn single_line(placeholder: &str) -> (r: Self)
        ensures
            r.wf(),
            r.fresh(Seq::empty(), Lang::PlainText, placeholder@, true, false),
    {
        Self::with_options(String::new(), Lang::PlainText, placeholder, true)
    }

    /// An editor that can be selected from and scrolled but not edited.
    pub fn read_only(content: String, lang: Lang) -> (r: Self)
        ensures
            r.wf(),
            r.fresh(content@, lang, Seq::empty(), false, true),
    {
        proof {
            reveal_strlit("");
            assert(""@ == Seq::<char>::empty());
        }
        let mut e = Self::with_options(content, lang, "", false);
        e.read_only = true;
        e
    }

    pub fn text(&self) -> (r: &str)
        ensures
            r@ == self.content@,
    {
        self.content.as_str()
    }

    /// The moving end of the selection.
    pub fn cursor(&self) -> (r: usize)
        ensures
            r == self.doc().cursor(),
    {
        if self.selection_reversed {
            self.selected_range.start
        } else {
            self.selected_range.end
        }
    }

    /// Replaces text and language and forgets everything done to the old text.
    pub fn set_content(&mut self, content: String, lang: Lang)
        requires
            old(self).wf(),
        ensures
            final(self).wf(),
            final(self).loaded_from(*old(self), content@, lang),
    {
        proof {
            buffer::lemma_ends(content@);
        }
        self.content = content;
        self.lang = lang;
        self.selected_range = 0..0;
        self.selection_reversed = false;
        self.marked_range = None;
        self.dirty = false;
        self.undo_stack = Vec::new();
        self.redo_stack = Vec::new();
        self.last_edit = EditKind::Other;
        self.syntax.folded = HashSet::new();
        let ghost unfolded = self.syntax;
        self.syntax.recompute(&self.content, self.lang, self.single_line);
        proof {
            assert(snaps(self.undo_stack@) =~= Seq::<Snap>::empty());
            assert(snaps(self.redo_stack@) =~= Seq::<Snap>::empty());
            assert(self.syntax.follows(unfolded, self.content@, lang, self.single_line));
            reveal(Syntax::loaded_from);
        }
    }

    /// Switches the language and highlights anew; caret and selection stay.
    pub fn set_lang(&mut self, lang: Lang)
        requires
            old(self).wf(),
        ensures
            final(self).wf(),
            final(self).lang == lang,
            final(self).doc() == old(self).doc(),
            final(self).content == old(self).content,
            final(self).same_setup(*old(self)),
            final(self).is_selecting == old(self).is_selecting,
            final(self).reveal_pending == old(self).reveal_pending,
            final(self).syntax.follows(
                old(self).syntax,
                old(self).content@,
                lang,
                old(self).single_line,
            ),
    {
        self.lang = lang;
        self.syntax.recompute(&self.content, self.lang, self.single_line);
    }

    /// Moves the caret to `off`. A run of typing ends here.
    pub fn move_to(&mut self, off: usize)
        requires
            old(self).wf(),
            buffer::boundary(old(self).doc().bytes, off as int),
        ensures
            final(self).steered_from(*old(self)),
            final(self).doc() == old(self).doc().moved(off as int),
            final(self).reveal_pending,
    {
        self.selected_range = off..off;
        self.last_edit = EditKind::Other;
        self.reveal_pending = true;
    }

    /// Moves the moving end of the selection to `off`.
    pub fn select_to(&mut self, off: usize)
        requires
            old(self).wf(),
            buffer::boundary(old(self).doc().bytes, off as int),
        ensures
            final(self).steered_from(*old(self)),
            final(self).doc() == old(self).doc().extended(off as int),
            final(self).reveal_pending,
    {
        let mut start: usize = self.selected_range.start;
        let mut end: usize = self.selected_range.end;
        if self.selection_reversed {
            start = off;
        } else {
            end = off;
        }
        if end < start {
            self.selection_reversed = !self.selection_reversed;
            self.selected_range = end..start;
        } else {
            self.selected_range = start..end;
        }
        self.reveal_pending = true;
    }

    /// Selects a range of bytes, cut off at the end of the text.
    pub fn select_range(&mut self, range: Range<usize>)
        requires
            old(self).wf(),
            ({
                let b = old(self).doc().bytes;
                buffer::char_range(b, clamped(range.start, b), clamped(range.end, b))
            }),
        ensures
            final(self).steered_from(*old(self)),
            final(self).doc() == (Doc {
                start: clamped(range.start, old(self).doc().bytes),
                end: clamped(range.end, old(self).doc().bytes),
                reversed: false,
                ..old(self).doc()
            }),
            final(self).reveal_pending,
    {
        let len: usize = buffer::byte_len(self.content.as_str());
        self.selected_range = at_most(range.start, len)..at_most(range.end, len);
        self.selection_reversed = false;
        self.reveal_pending = true;
    }

    // ── undo and redo ─────────────────────────────────────────────

    /// The current state, for the undo stack.
    fn snapshot(&self) -> (r: Snapshot)
        ensures
            r.model() == self.doc().snap(),
    {
        Snapshot {
            content: self.content.clone(),
            selected_range: copy_range(&self.selected_range),
            selection_reversed: self.selection_reversed,
        }
    }

    /// Puts the state before an edit on the undo stack, unless the edit joins a run of typing.
    fn record_undo(&mut self, kind: EditKind)
        requires
            old(self).wf(),
        ensures
            final(self).steered_from(*old(self)),
            final(self).doc() == old(self).doc().recorded(kind == EditKind::Type),
            final(self).reveal_pending == old(self).reveal_pending,
            final(self).selected_range == old(self).selected_range,
            final(self).marked_range == old(self).marked_range,
    {
        proof {
            lemma_recorded_wf(self.doc(), kind == EditKind::Type);
        }
        self.redo_stack = Vec::new();
        proof {
            assert(snaps(self.redo_stack@) =~= Seq::<Snap>::empty());
        }
        if kind == EditKind::Type && self.last_edit == EditKind::Type {
            return;
        }
        let snap = self.snapshot();
        push_bounded(&mut self.undo_stack, snap);
        self.last_edit = kind;
    }

    /// Brings a state back; a caret that would be hidden in a fold is pulled out of it.
    fn restore(&mut self, s: Snapshot)
        requires
            old(self).wf(),
            s.model().wf(),
        ensures
            final(self).edited_from(*old(self)),
            final(self).shown_from(old(self).doc().restored(s.model())),
            final(self).undo_stack == old(self).undo_stack,
            final(self).redo_stack == old(self).redo_stack,
            final(self).reveal_pending == old(self).reveal_pending,
    {
        let ghost d = self.doc();
        let ghost m = s.model();
        self.content = s.content;
        self.selected_range = s.selected_range;
        self.selection_reversed = s.selection_reversed;
        self.marked_range = None;
        self.last_edit = EditKind::Other;
        self.dirty = true;
        self.syntax.recompute(&self.content, self.lang, self.single_line);
        proof {
            assert(self.doc() == d.restored(m));
        }
        self.ensure_caret_visible();
    }

    /// The document is `d`, but for a caret that was pulled out of a fold: to the end of the
    /// visible line that stands for its own.
    pub open spec fn shown_from(self, d: Doc) -> bool {
        let line = buffer::line_of(d.bytes, d.cursor());
        let folded = self.syntax.folded@;
        let foldable = self.syntax.foldable@;
        if folds::hidden(folded, foldable, line) {
            let off = buffer::line_finish(
                d.bytes,
                buffer::line_start(d.bytes, folds::shown_line(folded, foldable, line)),
            );
            self.doc() == (Doc { start: off, end: off, reversed: false, ..d })
        } else {
            self.doc() == d
        }
    }

    /// Pulls the caret out of a fold that hides it.
    pub fn ensure_caret_visible(&mut self)
        requires
            old(self).wf(),
        ensures
            final(self).steered_from(*old(self)),
            final(self).shown_from(old(self).doc()),
            final(self).reveal_pending == old(self).reveal_pending,
            final(self).undo_stack == old(self).undo_stack,
            final(self).redo_stack == old(self).redo_stack,
    {
        let ghost d = self.doc();
        let at = folds::caret_after_fold(
            self.content.as_str(),
            &self.syntax.folded,
            self.syntax.foldable.as_slice(),
            self.cursor(),
        );
        if let Some(at) = at {
            self.selected_range = at..at;
            self.selection_reversed = false;
            proof {
                assert(self.doc() == (Doc { start: at as int, end: at as int, reversed: false, ..d }));
            }
        }
    }

    /// Takes the last edit back. A read-only editor, or one without edits, stays as it is.
    pub fn undo(&mut self)
        requires
            old(self).wf(),
        ensures
            old(self).read_only || old(self).undo_stack@.len() == 0 ==> *final(self) == *old(self),
            !old(self).read_only && old(self).undo_stack@.len() > 0 ==> final(self).edited_from(
                *old(self),
            ) && final(self).shown_from(old(self).doc().undone()),
            final(self).wf(),
    {
        if self.read_only || self.undo_stack.len() == 0 {
            return;
        }
        let ghost d = self.doc();
        let ghost before = *self;
        proof {
            lemma_history_wf(d);
        }
        if let Some(prev) = self.undo_stack.pop() {
            proof {
                assert(snaps(self.undo_stack@) =~= d.undo.drop_last());
                assert(prev.model() == d.undo.last());
                assert(d.undo[d.undo.len() - 1].wf());
            }
            let now = self.snapshot();
            proof {
                assert(self.doc() == Doc { undo: d.undo.drop_last(), ..d });
                assert(self.doc().wf()) by {
                    assert forall|i: int| 0 <= i < d.undo.drop_last().len() implies (
                    #[trigger] d.undo.drop_last()[i]).wf() by {
                        assert(d.undo[i].wf());
                    }
                }
            }
            self.restore(prev);
            let ghost mid = *self;
            proof {
                lemma_snaps_push(self.redo_stack@, now);
            }
            self.redo_stack.push(now);
            proof {
                let base = Doc { undo: d.undo.drop_last(), ..d }.restored(prev.model());
                let all = d.undone();
                assert(all == Doc { redo: d.redo.push(d.snap()), ..base });
                assert(self.doc() == Doc { redo: d.redo.push(d.snap()), ..mid.doc() });
                lemma_shown_carries(mid, *self, base, all);
                assert(self.doc().redo == all.redo);
                assert(snaps_wf(self.doc().redo));
                assert(self.edited_from(before));
            }
        }
    }

    /// Does the last edit that was taken back again.
    pub fn redo(&mut self)
        requires
            old(self).wf(),
        ensures
            old(self).read_only || old(self).redo_stack@.len() == 0 ==> *final(self) == *old(self),
            !old(self).read_only && old(self).redo_stack@.len() > 0 ==> final(self).edited_from(
                *old(self),
            ) && final(self).shown_from(old(self).doc().redone()),
            final(self).wf(),
    {
        if self.read_only || self.redo_stack.len() == 0 {
            return;
        }
        let ghost d = self.doc();
        let ghost before = *self;
        proof {
            lemma_history_wf(d);
        }
        if let Some(next) = self.redo_stack.pop() {
            proof {
                assert(snaps(self.redo_stack@) =~= d.redo.drop_last());
                assert(next.model() == d.redo.last());
                assert(d.redo[d.redo.len() - 1].wf());
            }
            let now = self.snapshot();
            proof {
                assert(self.doc() == Doc { redo: d.redo.drop_last(), ..d });
                assert(self.doc().wf()) by {
                    assert forall|i: int| 0 <= i < d.redo.drop_last().len() implies (
                    #[trigger] d.redo.drop_last()[i]).wf() by {
                        assert(d.redo[i].wf());
                    }
                }
            }
            self.restore(next);
            let ghost mid = *self;
            proof {
                lemma_snaps_push(self.undo_stack@, now);
            }
            self.undo_stack.push(now);
            proof {
                let base = Doc { redo: d.redo.drop_last(), ..d }.restored(next.model());
                let all = d.redone();
                assert(all == Doc { undo: d.undo.push(d.snap()), ..base });
                assert(self.doc() == Doc { undo: d.undo.push(d.snap()), ..mid.doc() });
                lemma_shown_carries(mid, *self, base, all);
                assert(snaps_wf(self.doc().undo));
                assert(self.edited_from(before));
            }
        }
    }
}

/// What is shown of a document does not depend on its history.
proof fn lemma_shown_carries(a: CodeEditor, b: CodeEditor, da: Doc, db: Doc)
    requires
        a.shown_from(da),
        b.syntax == a.syntax,
        db == (Doc { undo: db.undo, redo: db.redo, ..da }),
        b.doc() == (Doc { undo: db.undo, redo: db.redo, ..a.doc() }),
    ensures
        b.shown_from(db),
{
}

/// `off`, cut off at the end of the text.
pub open spec fn clamped(off: usize, b: Seq<u8>) -> int {
    if off <= b.len() {
        off as int
    } else {
        b.len() as int
    }
}

/// The smaller of two numbers.
fn at_most(a: usize, b: usize) -> (r: usize)
    ensures
        r == (if a <= b { a } else { b }),
{
    if a <= b {
        a
    } else {
        b
    }
}

// ---------------------------------------------------------------------------
// Moving and selecting
// ---------------------------------------------------------------------------

/// The grapheme boundary before `off`.
pub open spec fn left_of(content: Seq<char>, off: int) -> int {
    start_before(grapheme_starts(content), off, grapheme_starts(content).len() as int)
}

/// The grapheme boundary after `off`.
pub open spec fn right_of(content: Seq<char>, off: int) -> int {
    start_after(grapheme_starts(content), off, 0, text::blen(content) as int)
}

/// Whether a byte belongs to a word.
pub open spec fn word_byte(b: u8) -> bool {
    (48 <= b <= 57) || (65 <= b <= 90) || (97 <= b <= 122) || b == 95
}

/// Where the run of word bytes that ends at `off` begins.
pub open spec fn word_begin(b: Seq<u8>, off: int) -> int
    decreases off,
{
    if off <= 0 || !word_byte(b[off - 1]) {
        off
    } else {
        word_begin(b, off - 1)
    }
}

/// Where the run of word bytes that begins at `off` ends.
pub open spec fn word_finish(b: Seq<u8>, off: int) -> int
    decreases b.len() - off,
{
    if off >= b.len() || !word_byte(b[off]) {
        off
    } else {
        word_finish(b, off + 1)
    }
}

/// The word at `off`: the run of word bytes around it. Where none stands at `off`, the empty run
/// there.
pub open spec fn word_at(b: Seq<u8>, off: int) -> (int, int) {
    if off < b.len() && word_byte(b[off]) {
        (word_begin(b, off), word_finish(b, off))
    } else {
        (off, off)
    }
}

proof fn lemma_word_begin(s: Seq<char>, off: int)
    requires
        buffer::boundary(encode_utf8(s), off),
    ensures
        0 <= word_begin(encode_utf8(s), off) <= off,
        buffer::boundary(encode_utf8(s), word_begin(encode_utf8(s), off)),
    decreases off,
{
    let b = encode_utf8(s);
    if off > 0 && word_byte(b[off - 1]) {
        buffer::lemma_ascii_boundary(s, off - 1);
        lemma_word_begin(s, off - 1);
    }
}

proof fn lemma_word_finish(s: Seq<char>, off: int)
    requires
        buffer::boundary(encode_utf8(s), off),
    ensures
        off <= word_finish(encode_utf8(s), off) <= text::blen(s),
        buffer::boundary(encode_utf8(s), word_finish(encode_utf8(s), off)),
    decreases text::blen(s) - off,
{
    let b = encode_utf8(s);
    if off < b.len() && word_byte(b[off]) {
        buffer::lemma_ascii_boundary(s, off);
        lemma_word_finish(s, off + 1);
    }
}

fn is_word(b: u8) -> (r: bool)
    ensures
        r == word_byte(b),
{
    (48 <= b && b <= 57) || (65 <= b && b <= 90) || (97 <= b && b <= 122) || b == 95
}

impl CodeEditor {
    /// The grapheme boundary before `off`, or the start of the text.
    pub fn prev_boundary(&self, off: usize) -> (r: usize)
        ensures
            r == left_of(self.content@, off as int),
            buffer::boundary(self.doc().bytes, r as int),
            r <= off,
    {
        let starts = grapheme_offsets(self.content.as_str());
        proof {
            buffer::lemma_ends(self.content@);
        }
        boundary_before(&starts, off)
    }

    /// The grapheme boundary after `off`, or the end of the text.
    pub fn next_boundary(&self, off: usize) -> (r: usize)
        ensures
            r == right_of(self.content@, off as int),
            buffer::boundary(self.doc().bytes, r as int),
    {
        let starts = grapheme_offsets(self.content.as_str());
        proof {
            buffer::lemma_ends(self.content@);
        }
        boundary_after(&starts, off, buffer::byte_len(self.content.as_str()))
    }

    /// The line that `off` lies on, and where it begins.
    pub fn locate(&self, off: usize) -> (r: (usize, usize))
        requires
            off <= self.doc().bytes.len(),
        ensures
            r.0 == buffer::newlines(self.doc().bytes, off as int),
            r.1 == buffer::line_begin(self.doc().bytes, off as int),
            r.1 == buffer::line_start(self.doc().bytes, r.0 as int),
            r.1 <= off,
    {
        let bytes = self.content.as_str().as_bytes();
        proof {
            buffer::lemma_line_round_trip(self.doc().bytes, off as int);
        }
        (buffer::count_newlines(bytes, off), buffer::find_line_begin(bytes, off))
    }

    /// One grapheme to the left, or to the start of the selection.
    pub fn left(&mut self)
        requires
            old(self).wf(),
        ensures
            final(self).steered_from(*old(self)),
            final(self).reveal_pending,
            final(self).doc() == old(self).doc().moved(
                if old(self).doc().start == old(self).doc().end {
                    left_of(old(self).content@, old(self).doc().cursor())
                } else {
                    old(self).doc().start
                },
            ),
    {
        if self.selected_range.start == self.selected_range.end {
            let off: usize = self.prev_boundary(self.cursor());
            self.move_to(off);
        } else {
            let off: usize = self.selected_range.start;
            self.move_to(off);
        }
    }

    /// One grapheme to the right, or to the end of the selection.
    pub fn right(&mut self)
        requires
            old(self).wf(),
        ensures
            final(self).steered_from(*old(self)),
            final(self).reveal_pending,
            final(self).doc() == old(self).doc().moved(
                if old(self).doc().start == old(self).doc().end {
                    right_of(old(self).content@, old(self).doc().cursor())
                } else {
                    old(self).doc().end
                },
            ),
    {
        if self.selected_range.start == self.selected_range.end {
            let off: usize = self.next_boundary(self.cursor());
            self.move_to(off);
        } else {
            let off: usize = self.selected_range.end;
            self.move_to(off);
        }
    }

    pub fn select_left(&mut self)
        requires
            old(self).wf(),
        ensures
            final(self).steered_from(*old(self)),
            final(self).reveal_pending,
            final(self).doc() == old(self).doc().extended(
                left_of(old(self).content@, old(self).doc().cursor()),
            ),
    {
        let off: usize = self.prev_boundary(self.cursor());
        self.select_to(off);
    }

    pub fn select_right(&mut self)
        requires
            old(self).wf(),
        ensures
            final(self).steered_from(*old(self)),
            final(self).reveal_pending,
            final(self).doc() == old(self).doc().extended(
                right_of(old(self).content@, old(self).doc().cursor()),
            ),
    {
        let off: usize = self.next_boundary(self.cursor());
        self.select_to(off);
    }

    pub fn select_all(&mut self)
        requires
            old(self).wf(),
        ensures
            final(self).steered_from(*old(self)),
            final(self).reveal_pending,
            final(self).doc() == old(self).doc().moved(0).extended(
                old(self).doc().bytes.len() as int,
            ),
            final(self).doc().start == 0,
            final(self).doc().end == old(self).doc().bytes.len(),
    {
        proof {
            buffer::lemma_ends(self.content@);
        }
        self.move_to(0);
        let len: usize = buffer::byte_len(self.content.as_str());
        self.select_to(len);
    }

    /// To the start of the line.
    pub fn home(&mut self)
        requires
            old(self).wf(),
        ensures
            final(self).steered_from(*old(self)),
            final(self).reveal_pending,
            final(self).doc() == old(self).doc().moved(
                buffer::line_begin(old(self).doc().bytes, old(self).doc().cursor()),
            ),
    {
        let (_, start) = self.locate(self.cursor());
        proof {
            buffer::lemma_line_boundaries(self.content@, self.doc().cursor());
        }
        self.move_to(start);
    }

    /// To the end of the line.
    pub fn end(&mut self)
        requires
            old(self).wf(),
        ensures
            final(self).steered_from(*old(self)),
            final(self).reveal_pending,
            final(self).doc() == old(self).doc().moved(
                buffer::line_finish(old(self).doc().bytes, old(self).doc().cursor()),
            ),
    {
        proof {
            buffer::lemma_line_boundaries(self.content@, self.doc().cursor());
        }
        let at: usize = buffer::find_line_finish(self.content.as_str().as_bytes(), self.cursor());
        self.move_to(at);
    }

    /// Selects the word at `off`: the run of ASCII letters, digits and underscores around it. If
    /// `off` is not on such a character, the caret is left there.
    pub fn select_word_at(&mut self, off: usize)
        requires
            old(self).wf(),
            buffer::boundary(old(self).doc().bytes, clamped(off, old(self).doc().bytes)),
        ensures
            final(self).steered_from(*old(self)),
            final(self).reveal_pending == old(self).reveal_pending,
            final(self).doc() == (Doc {
                start: word_at(
                    old(self).doc().bytes,
                    clamped(off, old(self).doc().bytes),
                ).0,
                end: word_at(old(self).doc().bytes, clamped(off, old(self).doc().bytes)).1,
                reversed: false,
                ..old(self).doc()
            }),
    {
        let bytes = self.content.as_str().as_bytes();
        let at: usize = at_most(off, bytes.len());
        let ghost b = self.doc().bytes;
        if at == bytes.len() || !is_word(bytes[at]) {
            self.selected_range = at..at;
            self.selection_reversed = false;
            return;
        }
        let mut start: usize = at;
        while start > 0 && is_word(bytes[start - 1])
            invariant
                bytes@ == b,
                start <= at <= b.len(),
                word_begin(b, start as int) == word_begin(b, at as int),
            decreases start,
        {
            start -= 1;
        }
        let mut end: usize = at;
        while end < bytes.len() && is_word(bytes[end])
            invariant
                bytes@ == b,
                at <= end <= b.len(),
                word_finish(b, end as int) == word_finish(b, at as int),
            decreases b.len() - end,
        {
            end += 1;
        }
        proof {
            lemma_word_begin(self.content@, at as int);
            lemma_word_finish(self.content@, at as int);
        }
        self.selected_range = start..end;
        self.selection_reversed = false;
    }

    /// Selects the line at `off`, its newline left out.
    pub fn select_line_at(&mut self, off: usize)
        requires
            old(self).wf(),
            buffer::boundary(old(self).doc().bytes, clamped(off, old(self).doc().bytes)),
        ensures
            final(self).steered_from(*old(self)),
            final(self).reveal_pending == old(self).reveal_pending,
            final(self).doc() == (Doc {
                start: buffer::line_begin(
                    old(self).doc().bytes,
                    clamped(off, old(self).doc().bytes),
                ),
                end: buffer::line_finish(
                    old(self).doc().bytes,
                    clamped(off, old(self).doc().bytes),
                ),
                reversed: false,
                ..old(self).doc()
            }),
    {
        let bytes = self.content.as_str().as_bytes();
        let at: usize = at_most(off, bytes.len());
        proof {
            buffer::lemma_line_boundaries(self.content@, at as int);
        }
        let start: usize = buffer::find_line_begin(bytes, at);
        let end: usize = buffer::find_line_finish(bytes, at);
        self.selected_range = start..end;
        self.selection_reversed = false;
    }

    /// Places the caret at offset `off`, or the selection's end when `extend`. A drag may follow.
    pub fn click_at(&mut self, off: usize, extend: bool)
        requires
            old(self).wf(),
            buffer::boundary(old(self).doc().bytes, off as int),
        ensures
            final(self).wf(),
            final(self).same_setup(*old(self)),
            final(self).content == old(self).content,
            final(self).lang == old(self).lang,
            final(self).syntax == old(self).syntax,
            final(self).is_selecting,
            final(self).reveal_pending,
            final(self).doc() == (if extend {
                old(self).doc().extended(off as int)
            } else {
                old(self).doc().moved(off as int)
            }),
    {
        self.is_selecting = true;
        if extend {
            self.select_to(off);
        } else {
            self.move_to(off);
        }
    }

    /// A press at offset `off`: one click moves the caret, or the selection's end when
    /// `extend`; two select the word there, if any, three or more the line. A drag may follow.
    pub fn press_at(&mut self, off: usize, clicks: usize, extend: bool)
        requires
            old(self).wf(),
            buffer::boundary(old(self).doc().bytes, off as int),
        ensures
            final(self).wf(),
            final(self).same_setup(*old(self)),
            final(self).content == old(self).content,
            final(self).lang == old(self).lang,
            final(self).syntax == old(self).syntax,
            final(self).is_selecting,
            final(self).reveal_pending == (old(self).reveal_pending || clicks < 2),
            final(self).doc() == (if clicks == 2 {
                Doc {
                    start: word_at(old(self).doc().bytes, off as int).0,
                    end: word_at(old(self).doc().bytes, off as int).1,
                    reversed: false,
                    ..old(self).doc()
                }
            } else if clicks > 2 {
                Doc {
                    start: buffer::line_begin(old(self).doc().bytes, off as int),
                    end: buffer::line_finish(old(self).doc().bytes, off as int),
                    reversed: false,
                    ..old(self).doc()
                }
            } else if extend {
                old(self).doc().extended(off as int)
            } else {
                old(self).doc().moved(off as int)
            }),
    {
        if clicks >= 2 {
            if clicks == 2 {
                self.select_word_at(off);
            } else {
                self.select_line_at(off);
            }
            self.is_selecting = true;
        } else {
            self.click_at(off, extend);
        }
    }

    /// The pointer moved to offset `off` while its button is held: the selection follows, if
    /// the drag began here. The drag itself scrolls, so the caret is not revealed.
    pub fn drag_to(&mut self, off: usize)
        requires
            old(self).wf(),
            buffer::boundary(old(self).doc().bytes, off as int),
        ensures
            !old(self).is_selecting ==> *final(self) == *old(self),
            old(self).is_selecting ==> final(self).steered_from(*old(self)) && final(self).doc()
                == old(self).doc().extended(off as int) && !final(self).reveal_pending,
    {
        if self.is_selecting {
            self.select_to(off);
            self.reveal_pending = false;
        }
    }

    /// The button was released: the drag is over.
    pub fn release(&mut self)
        requires
            old(self).wf(),
        ensures
            final(self).wf(),
            !final(self).is_selecting,
            final(self).doc() == old(self).doc(),
            final(self).same_setup(*old(self)),
            final(self).content == old(self).content,
            final(self).lang == old(self).lang,
            final(self).syntax == old(self).syntax,
            final(self).reveal_pending == old(self).reveal_pending,
    {
        self.is_selecting = false;
    }

    /// Whether a foldable region starts on `line`.
    pub fn is_foldable_start(&self, line: usize) -> (r: bool)
        requires
            self.wf(),
        ensures
            r == start_lines(self.syntax.foldable@).contains(line),
    {
        self.syntax.foldable_starts.contains(&line)
    }

    /// The lines that are visible, in order.
    pub fn visible_line_indices(&self) -> (r: Vec<usize>)
        ensures
            r@ == folds::visible(
                self.syntax.folded@,
                self.syntax.foldable@,
                buffer::line_total(self.doc().bytes),
            ),
    {
        folds::visible_line_indices(
            self.content.as_str(),
            &self.syntax.folded,
            self.syntax.foldable.as_slice(),
        )
    }

    /// Folds or unfolds the region that starts on `line`, if one does, and keeps the caret
    /// visible.
    pub fn toggle_fold(&mut self, line: usize)
        requires
            old(self).wf(),
        ensures
            final(self).wf(),
            !start_lines(old(self).syntax.foldable@).contains(line) ==> *final(self) == *old(self),
            start_lines(old(self).syntax.foldable@).contains(line) ==> {
                &&& final(self).syntax.folded@ == toggled(old(self).syntax.folded@, line)
                &&& final(self).syntax.foldable == old(self).syntax.foldable
                &&& final(self).syntax.spans == old(self).syntax.spans
                &&& final(self).syntax.max_line_len == old(self).syntax.max_line_len
                &&& final(self).syntax.generation == old(self).syntax.generation
                &&& final(self).syntax.job == old(self).syntax.job
                &&& final(self).shown_from(old(self).doc())
                &&& final(self).content == old(self).content
                &&& final(self).lang == old(self).lang
                &&& final(self).same_setup(*old(self))
                &&& final(self).is_selecting == old(self).is_selecting
                &&& final(self).reveal_pending == old(self).reveal_pending
            },
    {
        if !self.is_foldable_start(line) {
            return;
        }
        let ghost before = self.syntax.folded@;
        if !self.syntax.folded.remove(&line) {
            self.syntax.folded.insert(line);
        }
        proof {
            assert(self.syntax.folded@ =~= toggled(before, line));
        }
        self.ensure_caret_visible();
    }
}

/// A set with one member flipped.
pub open spec fn toggled(s: Set<usize>, x: usize) -> Set<usize> {
    if s.contains(x) {
        s.remove(x)
    } else {
        s.insert(x)
    }
}

/// Folding and unfolding the same region leaves everything folded as it was.
pub proof fn lemma_toggle_twice(s: Set<usize>, x: usize)
    ensures
        toggled(toggled(s, x), x) == s,
{
    assert(toggled(toggled(s, x), x) =~= s);
}

// ---------------------------------------------------------------------------
// Editing
// ---------------------------------------------------------------------------

/// The bytes that an input over UTF-16 units, or without a range, applies to: the given range,
/// or else the composition, or else the selection.
pub open spec fn input_range(content: Seq<char>, d: Doc, range_utf16: Option<Range<usize>>) -> (
    int,
    int,
) {
    match range_utf16 {
        Some(r) => (
            buffer::from_utf16(content, r.start as int),
            buffer::from_utf16(content, r.end as int),
        ),
        None => match d.marked {
            Some(m) => m,
            None => (d.start, d.end),
        },
    }
}

/// Whether an input is a typed character: a single one, other than a newline, at a caret.
pub open spec fn is_typing(s: int, e: int, new_text: Seq<char>) -> bool {
    s == e && new_text.len() == 1 && new_text[0] != '\n'
}

/// One line indented by a unit, or outdented by at most one.
pub open spec fn shifted_line(line: Seq<char>, indent: bool) -> Seq<char> {
    if indent {
        seq![' ', ' '] + line
    } else if line.len() >= 2 && line[0] == ' ' && line[1] == ' ' {
        line.skip(2)
    } else if line.len() >= 1 && (line[0] == ' ' || line[0] == '\t') {
        line.skip(1)
    } else {
        line
    }
}

/// Every line of the region indented or outdented.
pub open spec fn shifted(region: Seq<char>, indent: bool) -> Seq<char> {
    let lines = text::split_on(region, '\n');
    text::join_with(Seq::new(lines.len(), |i: int| shifted_line(lines[i], indent)), '\n')
}

/// The document with the lines that the selection touches shifted, and selected whole.
pub open spec fn shifted_doc(d: Doc, indent: bool) -> Doc {
    let rs = buffer::line_begin(d.bytes, d.start);
    let re = buffer::line_finish(d.bytes, d.end);
    let out = encode_utf8(shifted(decode_utf8(d.bytes.subrange(rs, re)), indent));
    Doc {
        start: rs,
        end: rs + out.len(),
        reversed: false,
        typing: false,
        ..d.replaced(rs, re, out, false)
    }
}

/// Splicing whole characters keeps a document sound.
proof fn lemma_replaced_wf(d: Doc, s: int, e: int, t: Seq<u8>, typing: bool)
    requires
        d.wf(),
        buffer::boundary(buffer::spliced(d.bytes, s, e, t), s + t.len()),
    ensures
        d.replaced(s, e, t, typing).wf(),
{
    lemma_recorded_wf(d, typing);
}

impl CodeEditor {
    pub fn off_from_utf16(&self, o: usize) -> (r: usize)
        ensures
            r == buffer::from_utf16(self.content@, o as int),
            buffer::boundary(self.doc().bytes, r as int),
    {
        buffer::offset_from_utf16(self.content.as_str(), o)
    }

    pub fn off_to_utf16(&self, o: usize) -> (r: usize)
        ensures
            r == buffer::to_utf16(self.content@, o as int),
    {
        buffer::offset_to_utf16(self.content.as_str(), o)
    }

    pub fn range_to_utf16(&self, r: &Range<usize>) -> (u: Range<usize>)
        ensures
            u.start == buffer::to_utf16(self.content@, r.start as int),
            u.end == buffer::to_utf16(self.content@, r.end as int),
    {
        self.off_to_utf16(r.start)..self.off_to_utf16(r.end)
    }

    pub fn range_from_utf16(&self, r: &Range<usize>) -> (u: Range<usize>)
        ensures
            u.start == buffer::from_utf16(self.content@, r.start as int),
            u.end == buffer::from_utf16(self.content@, r.end as int),
            buffer::boundary(self.doc().bytes, u.start as int),
            buffer::boundary(self.doc().bytes, u.end as int),
    {
        self.off_from_utf16(r.start)..self.off_from_utf16(r.end)
    }

    /// The text of a range of UTF-16 units, and the range that it covers in the end.
    pub fn text_for_range(&self, range_utf16: Range<usize>) -> (r: (String, Range<usize>))
        requires
            buffer::from_utf16(self.content@, range_utf16.start as int) <= buffer::from_utf16(
                self.content@,
                range_utf16.end as int,
            ),
        ensures
            ({
                let s = buffer::from_utf16(self.content@, range_utf16.start as int);
                let e = buffer::from_utf16(self.content@, range_utf16.end as int);
                &&& encode_utf8(r.0@) == self.doc().bytes.subrange(s, e)
                &&& r.1.start == buffer::to_utf16(self.content@, s)
                &&& r.1.end == buffer::to_utf16(self.content@, e)
            }),
    {
        let r = self.range_from_utf16(&range_utf16);
        let actual = self.range_to_utf16(&r);
        (buffer::slice(self.content.as_str(), r.start, r.end), actual)
    }

    /// The selection in UTF-16 units, and whether its start is the moving end.
    pub fn selected_text_range(&self) -> (r: (Range<usize>, bool))
        ensures
            r.0.start == buffer::to_utf16(self.content@, self.doc().start),
            r.0.end == buffer::to_utf16(self.content@, self.doc().end),
            r.1 == self.selection_reversed,
    {
        (self.range_to_utf16(&self.selected_range), self.selection_reversed)
    }

    /// The composition range in UTF-16 units.
    pub fn marked_text_range(&self) -> (r: Option<Range<usize>>)
        ensures
            match r {
                Some(u) => self.doc().marked matches Some(m) && u.start == buffer::to_utf16(
                    self.content@,
                    m.0,
                ) && u.end == buffer::to_utf16(self.content@, m.1),
                None => self.doc().marked is None,
            },
    {
        match &self.marked_range {
            Some(m) => Some(self.range_to_utf16(m)),
            None => None,
        }
    }

    /// Ends a composition; its text stays.
    pub fn unmark_text(&mut self)
        requires
            old(self).wf(),
        ensures
            final(self).steered_from(*old(self)),
            final(self).doc() == (Doc { marked: None, ..old(self).doc() }),
            final(self).reveal_pending == old(self).reveal_pending,
    {
        self.marked_range = None;
    }

    /// The bytes that an input applies to.
    fn range_for_input(&self, range_utf16: &Option<Range<usize>>) -> (r: Range<usize>)
        requires
            self.wf(),
        ensures
            (r.start as int, r.end as int) == input_range(
                self.content@,
                self.doc(),
                *range_utf16,
            ),
            buffer::boundary(self.doc().bytes, r.start as int),
            buffer::boundary(self.doc().bytes, r.end as int),
    {
        match range_utf16 {
            Some(r) => self.range_from_utf16(r),
            None => match &self.marked_range {
                Some(m) => copy_range(m),
                None => copy_range(&self.selected_range),
            },
        }
    }

    /// The bytes `start..end` give way to `new_text`, as one edit of the given kind.
    fn put_text(&mut self, start: usize, end: usize, new_text: &str, kind: EditKind)
        requires
            old(self).wf(),
            buffer::boundary(old(self).doc().bytes, start as int),
            buffer::boundary(old(self).doc().bytes, end as int),
        ensures
            final(self).edited_from(*old(self)),
            final(self).doc() == old(self).doc().replaced(
                start as int,
                end as int,
                encode_utf8(new_text@),
                kind == EditKind::Type,
            ),
            final(self).reveal_pending == old(self).reveal_pending,
    {
        let ghost d = self.doc();
        let ghost t = encode_utf8(new_text@);
        self.record_undo(kind);
        let content = buffer::splice(self.content.as_str(), start, end, new_text);
        let _total: usize = buffer::byte_len(content.as_str());
        let added: usize = buffer::byte_len(new_text);
        self.content = content;
        let caret: usize = start + added;
        self.selected_range = caret..caret;
        self.marked_range = None;
        self.dirty = true;
        self.syntax.recompute(&self.content, self.lang, self.single_line);
        proof {
            lemma_replaced_wf(d, start as int, end as int, t, kind == EditKind::Type);
            assert(self.doc() =~= d.replaced(start as int, end as int, t, kind == EditKind::Type));
        }
    }

    /// Input of `new_text`, over the given UTF-16 range, or else the composition, or else the
    /// selection. A locked editor stays as it is.
    pub fn replace_text_in_range(&mut self, range_utf16: Option<Range<usize>>, new_text: &str)
        requires
            old(self).wf(),
        ensures
            old(self).locked() ==> *final(self) == *old(self),
            !old(self).locked() ==> {
                let (s, e) = input_range(old(self).content@, old(self).doc(), range_utf16);
                &&& final(self).edited_from(*old(self))
                &&& final(self).reveal_pending == old(self).reveal_pending
                &&& final(self).doc() == old(self).doc().replaced(
                    s,
                    e,
                    encode_utf8(new_text@),
                    is_typing(s, e, new_text@),
                )
            },
            final(self).wf(),
    {
        if self.read_only || self.edit_blocked {
            return;
        }
        let range = self.range_for_input(&range_utf16);
        let chars = text::chars_of(new_text);
        let kind = if range.start == range.end && chars.len() == 1 && chars[0] != '\n' {
            EditKind::Type
        } else {
            EditKind::Other
        };
        self.put_text(range.start, range.end, new_text, kind);
    }

    /// Replaces a range of bytes, cut off at the end of the text, as one undo step. A
    /// composition range stays where it is, so it has to fit the new text.
    pub fn replace_range_text(&mut self, range: Range<usize>, new_text: &str)
        requires
            old(self).wf(),
            ({
                let b = old(self).doc().bytes;
                let (s, e) = (clamped(range.start, b), clamped(range.end, b));
                &&& buffer::char_range(b, s, e)
                &&& old(self).doc().marked matches Some(m) ==> buffer::char_range(
                    buffer::spliced(b, s, e, encode_utf8(new_text@)),
                    m.0,
                    m.1,
                )
            }),
        ensures
            old(self).read_only ==> *final(self) == *old(self),
            !old(self).read_only ==> {
                let b = old(self).doc().bytes;
                &&& final(self).doc() == (Doc {
                    marked: old(self).doc().marked,
                    ..old(self).doc().replaced(
                        clamped(range.start, b),
                        clamped(range.end, b),
                        encode_utf8(new_text@),
                        false,
                    )
                })
                &&& final(self).edited_from(*old(self))
                &&& final(self).reveal_pending == old(self).reveal_pending
            },
            final(self).wf(),
    {
        if self.read_only {
            return;
        }
        let len: usize = buffer::byte_len(self.content.as_str());
        let marked = match &self.marked_range {
            Some(m) => Some(copy_range(m)),
            None => None,
        };
        self.put_text(at_most(range.start, len), at_most(range.end, len), new_text, EditKind::Other);
        self.marked_range = marked;
    }

    /// Deletes the selection, or the grapheme before the caret.
    pub fn backspace(&mut self)
        requires
            old(self).wf(),
        ensures
            final(self).deletes_from(
                *old(self),
                left_of(old(self).content@, old(self).doc().cursor()),
            ),
    {
        let off: usize = self.prev_boundary(self.cursor());
        self.erase(off);
    }

    /// Deletes the selection, or the grapheme after the caret.
    pub fn delete(&mut self)
        requires
            old(self).wf(),
        ensures
            final(self).deletes_from(
                *old(self),
                right_of(old(self).content@, old(self).doc().cursor()),
            ),
    {
        let off: usize = self.next_boundary(self.cursor());
        self.erase(off);
    }

    /// Deletes the selection, or what lies between the start of the line and the caret.
    pub fn delete_to_home(&mut self)
        requires
            old(self).wf(),
        ensures
            final(self).deletes_from(
                *old(self),
                buffer::line_begin(old(self).doc().bytes, old(self).doc().cursor()),
            ),
    {
        let caret: usize = self.cursor();
        proof {
            buffer::lemma_line_boundaries(self.content@, caret as int);
        }
        let off: usize = buffer::find_line_begin(self.content.as_str().as_bytes(), caret);
        self.erase(off);
    }

    /// Deletes the selection, or what lies between the caret and `off`.
    fn erase(&mut self, off: usize)
        requires
            old(self).wf(),
            buffer::boundary(old(self).doc().bytes, off as int),
        ensures
            final(self).deletes_from(*old(self), off as int),
    {
        if self.edit_blocked {
            return;
        }
        proof {
            lemma_empty_bytes();
        }
        if self.selected_range.start == self.selected_range.end {
            self.select_to(off);
        }
        self.replace_text_in_range(None, "");
    }

    /// What a deleting key does: the selection goes, or, without one, what lies between the
    /// caret and `off`. A blocked editor stays as it is; in a read-only one only the selection
    /// moves.
    pub open spec fn deletes_from(self, o: CodeEditor, off: int) -> bool {
        let d = if o.doc().start == o.doc().end {
            o.doc().extended(off)
        } else {
            o.doc()
        };
        let (s, e) = input_range(o.content@, d, None);
        &&& self.wf()
        &&& o.edit_blocked ==> self == o
        &&& !o.edit_blocked && o.read_only ==> self.steered_from(o) && self.doc() == d
        &&& !o.edit_blocked && !o.read_only ==> self.edited_from(o) && self.doc() == d.replaced(
            s,
            e,
            Seq::<u8>::empty(),
            false,
        )
    }

    /// Starts a new line at the caret.
    pub fn enter(&mut self)
        requires
            old(self).wf(),
        ensures
            old(self).locked() ==> *final(self) == *old(self),
            !old(self).locked() ==> {
                let (s, e) = input_range(old(self).content@, old(self).doc(), None);
                &&& final(self).edited_from(*old(self))
                &&& final(self).doc() == old(self).doc().replaced(s, e, seq![buffer::NL], false)
            },
            final(self).wf(),
    {
        proof {
            reveal_strlit("\n");
            assert("\n"@ =~= seq!['\n']);
            lemma_newline_bytes();
        }
        self.replace_text_in_range(None, "\n");
    }

    /// The selected text, if there is any: for the clipboard.
    pub fn copy(&self) -> (r: Option<String>)
        requires
            self.wf(),
        ensures
            match r {
                Some(t) => self.doc().start < self.doc().end && encode_utf8(t@)
                    == self.doc().bytes.subrange(self.doc().start, self.doc().end),
                None => self.doc().start == self.doc().end,
            },
    {
        if self.selected_range.start == self.selected_range.end {
            return None;
        }
        Some(
            buffer::slice(
                self.content.as_str(),
                self.selected_range.start,
                self.selected_range.end,
            ),
        )
    }

    /// Takes the selected text out, for the clipboard.
    pub fn cut(&mut self) -> (r: Option<String>)
        requires
            old(self).wf(),
        ensures
            match r {
                Some(t) => !old(self).edit_blocked && old(self).doc().start < old(self).doc().end
                    && encode_utf8(t@) == old(self).doc().bytes.subrange(
                    old(self).doc().start,
                    old(self).doc().end,
                ),
                None => old(self).edit_blocked || old(self).doc().start == old(self).doc().end,
            },
            r is None || old(self).read_only ==> *final(self) == *old(self),
            r is Some && !old(self).read_only ==> {
                let (s, e) = input_range(old(self).content@, old(self).doc(), None);
                &&& final(self).edited_from(*old(self))
                &&& final(self).doc() == old(self).doc().replaced(s, e, Seq::<u8>::empty(), false)
            },
            final(self).wf(),
    {
        if self.edit_blocked {
            return None;
        }
        let text = self.copy();
        if text.is_some() {
            proof {
                lemma_empty_bytes();
            }
            self.replace_text_in_range(None, "");
        }
        text
    }

    /// Puts text from the clipboard in, over the composition or the selection.
    pub fn paste(&mut self, clip: &str)
        requires
            old(self).wf(),
        ensures
            old(self).locked() ==> *final(self) == *old(self),
            !old(self).locked() ==> {
                let (s, e) = input_range(old(self).content@, old(self).doc(), None);
                &&& final(self).edited_from(*old(self))
                &&& final(self).doc() == old(self).doc().replaced(
                    s,
                    e,
                    encode_utf8(clip@),
                    is_typing(s, e, clip@),
                )
            },
            final(self).wf(),
    {
        if self.edit_blocked {
            return;
        }
        self.replace_text_in_range(None, clip);
    }
}

/// The bytes of a newline.
proof fn lemma_newline_bytes()
    ensures
        encode_utf8(seq!['\n']) == seq![buffer::NL],
{
    text::lemma_encode_push(Seq::empty(), '\n');
    assert(10u32 & 0x7F == 10) by (bit_vector);
    assert(encode_utf8(seq!['\n']) =~= seq![buffer::NL]);
}

/// The bytes of the empty text.
proof fn lemma_empty_bytes()
    ensures
        encode_utf8(""@) == Seq::<u8>::empty(),
        ""@.len() == 0,
{
    reveal_strlit("");
    assert(""@ =~= Seq::<char>::empty());
}

// ---------------------------------------------------------------------------
// Indenting
// ---------------------------------------------------------------------------

/// The text of a decoded range is what the range holds.
proof fn lemma_slice_text(s: Seq<char>, r: Seq<char>, a: int, b: int)
    requires
        encode_utf8(r) == encode_utf8(s).subrange(a, b),
    ensures
        decode_utf8(encode_utf8(s).subrange(a, b)) == r,
{
    vstd::utf8::encode_utf8_decode_utf8(r);
}

/// One line indented or outdented.
fn shift_line(line: &String, indent: bool) -> (r: String)
    ensures
        r@ == shifted_line(line@, indent),
{
    let chars = text::chars_of(line.as_str());
    if indent {
        let mut out: Vec<char> = Vec::new();
        out.push(' ');
        out.push(' ');
        text::push_all(&mut out, line.as_str());
        proof {
            assert(out@ =~= seq![' ', ' '] + line@);
        }
        return text::string_from_chars(&out);
    }
    let strip: usize = if chars.len() >= 2 && chars[0] == ' ' && chars[1] == ' ' {
        2
    } else if chars.len() >= 1 && (chars[0] == ' ' || chars[0] == '\t') {
        1
    } else {
        0
    };
    proof {
        assert(chars@.subrange(strip as int, chars@.len() as int) =~= line@.skip(strip as int));
        assert(line@.skip(0) =~= line@);
    }
    text::substring(&chars, strip, chars.len())
}

/// Every line of the region indented or outdented.
fn shift_region(region: &str, indent: bool) -> (r: String)
    ensures
        r@ == shifted(region@, indent),
{
    let lines = text::split_str(region, '\n');
    let ghost ls = text::split_on(region@, '\n');
    let ghost want = Seq::new(ls.len(), |i: int| shifted_line(ls[i], indent));
    let mut out: Vec<String> = Vec::new();
    let mut i: usize = 0;
    while i < lines.len()
        invariant
            i <= lines@.len(),
            ls == text::texts(lines@),
            want == Seq::new(ls.len(), |i: int| shifted_line(ls[i], indent)),
            text::texts(out@) == want.take(i as int),
        decreases lines@.len() - i,
    {
        let ghost before = text::texts(out@);
        let s = shift_line(&lines[i], indent);
        let ghost sv = s@;
        out.push(s);
        proof {
            assert(text::texts(out@) =~= before.push(sv));
            assert(ls[i as int] == lines@[i as int]@);
            assert(want.take(i + 1) =~= before.push(sv));
        }
        i += 1;
    }
    proof {
        assert(want.take(want.len() as int) =~= want);
    }
    text::join_strs(out.as_slice(), '\n')
}

impl CodeEditor {
    /// The rest of an indentation: it ends compositions and runs of typing.
    fn finish_indent(&mut self)
        ensures
            final(self).marked_range is None,
            final(self).last_edit == EditKind::Other,
            final(self).dirty,
            final(self).content == old(self).content,
            final(self).lang == old(self).lang,
            final(self).selected_range == old(self).selected_range,
            final(self).selection_reversed == old(self).selection_reversed,
            final(self).undo_stack == old(self).undo_stack,
            final(self).redo_stack == old(self).redo_stack,
            final(self).syntax == old(self).syntax,
            final(self).reveal_pending == old(self).reveal_pending,
            final(self).is_selecting == old(self).is_selecting,
            final(self).same_setup(*old(self)),
    {
        self.marked_range = None;
        self.last_edit = EditKind::Other;
        self.dirty = true;
    }

    /// The text was shifted; colors and regions stay as they are until the next edit.
    pub open spec fn shifted_from(self, o: CodeEditor) -> bool {
        &&& self.wf()
        &&& self.same_setup(o)
        &&& self.lang == o.lang
        &&& self.is_selecting == o.is_selecting
        &&& self.reveal_pending == o.reveal_pending
        &&& self.syntax == o.syntax
    }

    /// Indents every line that the selection touches or, without a selection, puts one unit of
    /// two spaces in at the caret. A locked editor stays as it is.
    pub fn indent(&mut self)
        requires
            old(self).wf(),
        ensures
            old(self).locked() ==> *final(self) == *old(self),
            !old(self).locked() ==> final(self).shifted_from(*old(self)) && final(self).doc() == (
            if old(self).doc().start == old(self).doc().end {
                old(self).doc().replaced(
                    old(self).doc().start,
                    old(self).doc().start,
                    encode_utf8(seq![' ', ' ']),
                    false,
                )
            } else {
                shifted_doc(old(self).doc(), true)
            }),
    {
        if self.read_only || self.edit_blocked {
            return;
        }
        if self.selected_range.start == self.selected_range.end {
            let ghost d = self.doc();
            let c: usize = self.cursor();
            self.record_undo(EditKind::Other);
            proof {
                reveal_strlit("  ");
                assert("  "@ =~= seq![' ', ' ']);
            }
            let content = buffer::splice(self.content.as_str(), c, c, "  ");
            let _total: usize = buffer::byte_len(content.as_str());
            let added: usize = buffer::byte_len("  ");
            self.content = content;
            self.selected_range = c + added..c + added;
            self.finish_indent();
            proof {
                let t = encode_utf8(seq![' ', ' ']);
                lemma_replaced_wf(d, c as int, c as int, t, false);
                assert(self.doc() == d.replaced(c as int, c as int, t, false));
            }
        } else {
            self.shift_lines(true);
        }
    }

    /// Outdents every line that the selection touches by at most one unit.
    pub fn outdent(&mut self)
        requires
            old(self).wf(),
        ensures
            old(self).locked() ==> *final(self) == *old(self),
            !old(self).locked() ==> final(self).shifted_from(*old(self)) && final(self).doc()
                == shifted_doc(old(self).doc(), false),
    {
        if !self.read_only && !self.edit_blocked {
            self.shift_lines(false);
        }
    }

    /// Indents or outdents every line that the selection touches and selects them whole.
    fn shift_lines(&mut self, indent: bool)
        requires
            old(self).wf(),
        ensures
            final(self).shifted_from(*old(self)),
            final(self).doc() == shifted_doc(old(self).doc(), indent),
    {
        let ghost d = self.doc();
        let bytes = self.content.as_str().as_bytes();
        let region_start: usize = buffer::find_line_begin(bytes, self.selected_range.start);
        let region_end: usize = buffer::find_line_finish(bytes, self.selected_range.end);
        proof {
            buffer::lemma_line_boundaries(self.content@, d.start);
            buffer::lemma_line_boundaries(self.content@, d.end);
            buffer::lemma_line_begin(d.bytes, d.start);
            buffer::lemma_line_finish(d.bytes, d.end);
        }
        let region = buffer::slice(self.content.as_str(), region_start, region_end);
        proof {
            lemma_slice_text(self.content@, region@, region_start as int, region_end as int);
        }
        let out = shift_region(region.as_str(), indent);
        self.record_undo(EditKind::Other);
        let content = buffer::splice(
            self.content.as_str(),
            region_start,
            region_end,
            out.as_str(),
        );
        let _total: usize = buffer::byte_len(content.as_str());
        let added: usize = buffer::byte_len(out.as_str());
        self.content = content;
        self.selected_range = region_start..region_start + added;
        self.selection_reversed = false;
        self.finish_indent();
        proof {
            let t = encode_utf8(out@);
            lemma_replaced_wf(d, region_start as int, region_end as int, t, false);
            assert(self.doc() == shifted_doc(d, indent));
        }
    }

    /// Input of a composition: `new_text` stands in for the range until it is final, and stays
    /// marked. The whole composition is one undo step.
    ///
    /// The new selection is given in UTF-16 units; its bytes count from the range's start and
    /// end.
    pub fn replace_and_mark_text_in_range(
        &mut self,
        range_utf16: Option<Range<usize>>,
        new_text: &str,
        new_sel_utf16: Option<Range<usize>>,
    )
        requires
            old(self).wf(),
            !old(self).locked() ==> {
                let (s, e) = input_range(old(self).content@, old(self).doc(), range_utf16);
                let d = composed(old(self).doc(), s, e, new_text@, new_sel_utf16);
                new_sel_utf16 is Some ==> buffer::char_range(d.bytes, d.start, d.end)
            },
        ensures
            old(self).locked() ==> *final(self) == *old(self),
            !old(self).locked() ==> {
                let (s, e) = input_range(old(self).content@, old(self).doc(), range_utf16);
                &&& final(self).edited_from(*old(self))
                &&& final(self).reveal_pending == old(self).reveal_pending
                &&& final(self).doc() == composed(old(self).doc(), s, e, new_text@, new_sel_utf16)
            },
            final(self).wf(),
    {
        if self.read_only || self.edit_blocked {
            return;
        }
        let range = self.range_for_input(&range_utf16);
        self.compose(range, new_text, new_sel_utf16);
    }

    /// The composition of `new_text` over the bytes `range`.
    fn compose(
        &mut self,
        range: Range<usize>,
        new_text: &str,
        new_sel: Option<Range<usize>>,
    )
        requires
            old(self).wf(),
            buffer::boundary(old(self).doc().bytes, range.start as int),
            buffer::boundary(old(self).doc().bytes, range.end as int),
            ({
                let d = composed(
                    old(self).doc(),
                    range.start as int,
                    range.end as int,
                    new_text@,
                    new_sel,
                );
                new_sel is Some ==> buffer::char_range(d.bytes, d.start, d.end)
            }),
        ensures
            final(self).edited_from(*old(self)),
            final(self).reveal_pending == old(self).reveal_pending,
            final(self).doc() == composed(
                old(self).doc(),
                range.start as int,
                range.end as int,
                new_text@,
                new_sel,
            ),
    {
        let ghost want = composed(
            self.doc(),
            range.start as int,
            range.end as int,
            new_text@,
            new_sel,
        );
        let content = buffer::splice(self.content.as_str(), range.start, range.end, new_text);
        let _total: usize = buffer::byte_len(content.as_str());
        let caret: usize = range.start + buffer::byte_len(new_text);
        proof {
            text::lemma_blen_bounds(new_text@);
            vstd::utf8::encode_utf8_decode_utf8(content@);
            assert(want.bytes == encode_utf8(content@));
        }
        let selection = match &new_sel {
            Some(sel) => {
                let a: usize = buffer::offset_from_utf16(content.as_str(), sel.start);
                let b: usize = buffer::offset_from_utf16(content.as_str(), sel.end);
                a + range.start..b + range.end
            },
            None => caret..caret,
        };
        if self.marked_range.is_none() {
            self.record_undo(EditKind::Other);
        }
        let marked = if new_text.is_empty() {
            None
        } else {
            Some(range.start..caret)
        };
        self.settle(content, selection, marked);
        proof {
            assert(self.doc() =~= want);
        }
    }

    /// New text with its selection and composition range.
    fn settle(&mut self, content: String, selection: Range<usize>, marked: Option<Range<usize>>)
        requires
            old(self).wf(),
            buffer::char_range(
                encode_utf8(content@),
                selection.start as int,
                selection.end as int,
            ),
            marked matches Some(m) ==> buffer::char_range(
                encode_utf8(content@),
                m.start as int,
                m.end as int,
            ),
        ensures
            final(self).edited_from(*old(self)),
            final(self).reveal_pending == old(self).reveal_pending,
            final(self).doc() == (Doc {
                bytes: encode_utf8(content@),
                start: selection.start as int,
                end: selection.end as int,
                marked: match marked {
                    Some(m) => Some((m.start as int, m.end as int)),
                    None => None,
                },
                dirty: true,
                ..old(self).doc()
            }),
    {
        self.content = content;
        self.selected_range = selection;
        self.marked_range = marked;
        self.dirty = true;
        self.syntax.recompute(&self.content, self.lang, self.single_line);
    }
}

/// The document after an input of a composition.
pub open spec fn composed(
    d: Doc,
    s: int,
    e: int,
    new_text: Seq<char>,
    new_sel: Option<Range<usize>>,
) -> Doc {
    let t = encode_utf8(new_text);
    let bytes = buffer::spliced(d.bytes, s, e, t);
    let rec = if d.marked is None {
        d.recorded(false)
    } else {
        d
    };
    let sel = match new_sel {
        Some(r) => (
            buffer::from_utf16(decode_utf8(bytes), r.start as int) + s,
            buffer::from_utf16(decode_utf8(bytes), r.end as int) + e,
        ),
        None => (s + t.len(), s + t.len()),
    };
    Doc {
        bytes,
        start: sel.0,
        end: sel.1,
        marked: if new_text.len() == 0 {
            None
        } else {
            Some((s, s + t.len()))
        },
        dirty: true,
        ..rec
    }
}

// ---------------------------------------------------------------------------
// What an operation does to the document
// ---------------------------------------------------------------------------

impl Doc {
    /// The end of the selection that does not move.
    pub open spec fn anchor(self) -> int {
        if self.reversed {
            self.end
        } else {
            self.start
        }
    }
}

/// Extending a selection brings its moving end to where it is asked and leaves the other end;
/// moving the caret leaves no selection. Neither touches the text or its history.
pub proof fn lemma_selection_moves(d: Doc, off: int)
    ensures
        d.extended(off).cursor() == off,
        d.extended(off).anchor() == d.anchor(),
        d.start <= d.end ==> d.extended(off).start <= d.extended(off).end,
        d.extended(off).bytes == d.bytes,
        d.extended(off).undo == d.undo,
        d.extended(off).redo == d.redo,
        d.extended(off).dirty == d.dirty,
        d.moved(off).cursor() == off,
        d.moved(off).anchor() == off,
        d.moved(off).bytes == d.bytes,
        d.moved(off).undo == d.undo,
        d.moved(off).redo == d.redo,
        d.moved(off).dirty == d.dirty,
        !d.moved(off).typing,
{
}

/// An edit puts the new text in the place of the old and leaves what is around it; the caret is
/// behind the new text, nothing is selected, and what was undone cannot be done again.
pub proof fn lemma_replaced(d: Doc, s: int, e: int, t: Seq<u8>, typing: bool)
    requires
        0 <= s <= e <= d.bytes.len(),
    ensures
        ({
            let r = d.replaced(s, e, t, typing);
            &&& r.bytes.take(s) == d.bytes.take(s)
            &&& r.bytes.subrange(s, s + t.len()) == t
            &&& r.bytes.skip(s + t.len()) == d.bytes.skip(e)
            &&& r.bytes.len() == d.bytes.len() - (e - s) + t.len()
            &&& r.cursor() == s + t.len()
            &&& r.anchor() == r.cursor()
            &&& r.redo.len() == 0
            &&& r.dirty
            &&& r.marked is None
        }),
{
    let r = d.replaced(s, e, t, typing);
    assert(r.bytes.take(s) =~= d.bytes.take(s));
    assert(r.bytes.subrange(s, s + t.len()) =~= t);
    assert(r.bytes.skip(s + t.len()) =~= d.bytes.skip(e));
}

/// The state before an edit is the first to come back, unless the edit goes on with a run of
/// typing; of a history that is full the oldest state is given up.
pub proof fn lemma_recorded(d: Doc, typing: bool)
    ensures
        typing && d.typing ==> d.recorded(typing).undo == d.undo,
        !(typing && d.typing) ==> d.recorded(typing).undo.last() == d.snap() && d.recorded(
            typing,
        ).typing == typing,
        !(typing && d.typing) && d.undo.len() < UNDO_LIMIT ==> d.recorded(typing).undo.drop_last()
            == d.undo,
        !(typing && d.typing) && d.undo.len() == UNDO_LIMIT ==> d.recorded(typing).undo.len()
            == UNDO_LIMIT && d.recorded(typing).undo.drop_last() == d.undo.drop_first(),
        d.recorded(typing).redo.len() == 0,
        d.recorded(typing).bytes == d.bytes,
{
    let u = d.undo.push(d.snap());
    assert(u.drop_last() =~= d.undo);
    if d.undo.len() == UNDO_LIMIT {
        assert(u.drop_first().drop_last() =~= d.undo.drop_first());
    }
}

/// Undoing what was done again brings back the state before it.
pub proof fn lemma_undo_after_redo(d: Doc)
    requires
        d.redo.len() > 0,
    ensures
        d.redone().undone().snap() == d.snap(),
        d.redone().undone().undo == d.undo,
        d.redone().undone().redo == d.redo,
        d.redone().snap() == d.redo.last(),
        d.undo.len() > 0 ==> d.undone().snap() == d.undo.last(),
        d.undo.len() == 0 ==> d.undone() == d,
{
    assert(d.undo.push(d.snap()).drop_last() =~= d.undo);
    assert(d.redo.drop_last().push(d.redo.last()) =~= d.redo);
}

/// A step to the left goes to the nearest start before the caret and one to the right to the
/// nearest behind it; at the ends they stay at the ends.
pub proof fn lemma_nearest_starts(starts: Seq<usize>, off: int, len: int)
    requires
        forall|i: int, j: int| 0 <= i < j < starts.len() ==> starts[i] < starts[j],
    ensures
        ({
            let l = start_before(starts, off, starts.len() as int);
            let r = start_after(starts, off, 0, len);
            &&& forall|k: int| 0 <= k < starts.len() && starts[k] < off ==> starts[k] <= l
            &&& l == 0 || (l < off && exists|k: int| 0 <= k < starts.len() && starts[k] == l)
            &&& forall|k: int| 0 <= k < starts.len() && starts[k] > off ==> r <= starts[k]
            &&& r == len || (off < r && exists|k: int| 0 <= k < starts.len() && starts[k] == r)
        }),
{
    lemma_start_before_is(starts, off, starts.len() as int);
    lemma_start_after_is(starts, off, 0, len);
}

proof fn lemma_start_before_is(starts: Seq<usize>, off: int, n: int)
    requires
        0 <= n <= starts.len(),
        forall|i: int, j: int| 0 <= i < j < starts.len() ==> starts[i] < starts[j],
    ensures
        forall|k: int| 0 <= k < n && starts[k] < off ==> starts[k] <= start_before(starts, off, n),
        start_before(starts, off, n) == 0 || (start_before(starts, off, n) < off && exists|k: int|
            0 <= k < starts.len() && starts[k] == start_before(starts, off, n)),
    decreases n,
{
    if n > 0 && starts[n - 1] >= off {
        lemma_start_before_is(starts, off, n - 1);
    }
}

proof fn lemma_start_after_is(starts: Seq<usize>, off: int, i: int, len: int)
    requires
        0 <= i <= starts.len(),
        forall|a: int, b: int| 0 <= a < b < starts.len() ==> starts[a] < starts[b],
    ensures
        forall|k: int|
            i <= k < starts.len() && starts[k] > off ==> start_after(starts, off, i, len)
                <= starts[k],
        start_after(starts, off, i, len) == len || (off < start_after(starts, off, i, len)
            && exists|k: int|
            0 <= k < starts.len() && starts[k] == start_after(starts, off, i, len)),
    decreases starts.len() - i,
{
    if i < starts.len() && starts[i] <= off {
        lemma_start_after_is(starts, off, i + 1, len);
    }
}

/// The word at an offset is made of word bytes, holds the offset and cannot be made longer on
/// either side; beside a word there is nothing to select.
pub proof fn lemma_word_at(b: Seq<u8>, off: int)
    requires
        0 <= off <= b.len(),
    ensures
        ({
            let (s, e) = word_at(b, off);
            let on = off < b.len() && word_byte(b[off]);
            &&& 0 <= s <= off <= e <= b.len()
            &&& !on ==> s == off && e == off
            &&& on ==> off < e
            &&& forall|i: int| s <= i < e ==> word_byte(#[trigger] b[i])
            &&& on && s > 0 ==> !word_byte(b[s - 1])
            &&& on && e < b.len() ==> !word_byte(b[e])
        }),
{
    if off < b.len() && word_byte(b[off]) {
        lemma_word_begin_is(b, off);
        lemma_word_finish_is(b, off);
    }
}

proof fn lemma_word_begin_is(b: Seq<u8>, off: int)
    requires
        0 <= off <= b.len(),
    ensures
        0 <= word_begin(b, off) <= off,
        forall|i: int| word_begin(b, off) <= i < off ==> word_byte(#[trigger] b[i]),
        word_begin(b, off) > 0 ==> !word_byte(b[word_begin(b, off) - 1]),
    decreases off,
{
    if off > 0 && word_byte(b[off - 1]) {
        lemma_word_begin_is(b, off - 1);
    }
}

proof fn lemma_word_finish_is(b: Seq<u8>, off: int)
    requires
        0 <= off <= b.len(),
    ensures
        off <= word_finish(b, off) <= b.len(),
        forall|i: int| off <= i < word_finish(b, off) ==> word_byte(#[trigger] b[i]),
        word_finish(b, off) < b.len() ==> !word_byte(b[word_finish(b, off)]),
        off < b.len() && word_byte(b[off]) ==> off < word_finish(b, off),
    decreases b.len() - off,
{
    if off < b.len() && word_byte(b[off]) {
        lemma_word_finish_is(b, off + 1);
    }
}

/// A word is made of letters, digits and underscores of ASCII.
pub proof fn lemma_word_bytes(c: char)
    requires
        (c as u32) < 0x80,
    ensures
        word_byte(c as u8) <==> ('a' <= c <= 'z' || 'A' <= c <= 'Z' || '0' <= c <= '9' || c == '_'),
{
}

/// Outdenting takes back what indenting put in front of a line. Outdenting takes away two spaces,
/// or one white space if there are no two, and nothing else.
pub proof fn lemma_shifted_line(line: Seq<char>)
    ensures
        shifted_line(shifted_line(line, true), false) == line,
        shifted_line(line, true) == seq![' ', ' '] + line,
        shifted_line(seq!['\t'] + line, false) == line,
        line.len() == 0 || line[0] != ' ' ==> shifted_line(seq![' '] + line, false) == line,
        line.len() == 0 || (line[0] != ' ' && line[0] != '\t') ==> shifted_line(line, false) == line,
{
    assert((seq![' ', ' '] + line).skip(2) =~= line);
    assert((seq!['\t'] + line).skip(1) =~= line);
    assert((seq![' '] + line).skip(1) =~= line);
}

/// Shifting a region shifts each of its lines and makes no line more or less; outdenting an
/// indented region gives it back.
pub proof fn lemma_shifted(region: Seq<char>, indent: bool)
    ensures
        ({
            let before = text::split_on(region, '\n');
            let after = text::split_on(shifted(region, indent), '\n');
            &&& after.len() == before.len()
            &&& forall|i: int|
                0 <= i < before.len() ==> #[trigger] after[i] == shifted_line(before[i], indent)
        }),
        shifted(shifted(region, true), false) == region,
{
    lemma_shifted_lines(region, indent);
    lemma_shifted_lines(region, true);
    let a = text::split_on(region, '\n');
    let b = text::split_on(shifted(region, true), '\n');
    let back = Seq::new(b.len(), |i: int| shifted_line(b[i], false));
    assert(back =~= a) by {
        assert forall|i: int| 0 <= i < a.len() implies back[i] == a[i] by {
            assert(b[i] == shifted_line(a[i], true));
            lemma_shifted_line(a[i]);
        }
    }
    text::lemma_join_split(region, '\n');
}

proof fn lemma_shifted_lines(region: Seq<char>, indent: bool)
    ensures
        text::split_on(shifted(region, indent), '\n') == Seq::new(
            text::split_on(region, '\n').len(),
            |i: int| shifted_line(text::split_on(region, '\n')[i], indent),
        ),
{
    let lines = text::split_on(region, '\n');
    let out = Seq::new(lines.len(), |i: int| shifted_line(lines[i], indent));
    text::lemma_split_pieces(region, '\n');
    assert forall|i: int| 0 <= i < out.len() implies !(#[trigger] out[i]).contains('\n') by {
        assert(!lines[i].contains('\n'));
        let o = out[i];
        assert forall|k: int| 0 <= k < o.len() implies o[k] != '\n' by {
            let l = lines[i];
            if indent {
                if k >= 2 {
                    assert(o[k] == l[k - 2]);
                    assert(l.contains(l[k - 2]));
                }
            } else {
                let cut = l.len() - o.len();
                assert(o[k] == l[k + cut]);
                assert(l.contains(l[k + cut]));
            }
        }
    }
    text::lemma_split_join(out, '\n');
    assert(out =~= Seq::new(
        text::split_on(region, '\n').len(),
        |i: int| shifted_line(text::split_on(region, '\n')[i], indent),
    ));
}

/// Shifting changes the lines that the selection touches as one edit, selects them whole, and
/// leaves all that comes before and behind them.
pub proof fn lemma_shifted_doc(d: Doc, indent: bool)
    requires
        0 <= d.start <= d.end <= d.bytes.len(),
    ensures
        ({
            let r = shifted_doc(d, indent);
            let rs = buffer::line_begin(d.bytes, d.start);
            let re = buffer::line_finish(d.bytes, d.end);
            &&& r.start == rs
            &&& r.bytes.take(rs) == d.bytes.take(rs)
            &&& r.bytes.skip(r.end) == d.bytes.skip(re)
            &&& r.bytes.subrange(r.start, r.end) == encode_utf8(
                shifted(decode_utf8(d.bytes.subrange(rs, re)), indent),
            )
            &&& r.undo.last() == d.snap()
            &&& r.redo.len() == 0
            &&& r.dirty
        }),
{
    let rs = buffer::line_begin(d.bytes, d.start);
    let re = buffer::line_finish(d.bytes, d.end);
    buffer::lemma_line_begin(d.bytes, d.start);
    buffer::lemma_line_finish(d.bytes, d.end);
    let out = encode_utf8(shifted(decode_utf8(d.bytes.subrange(rs, re)), indent));
    lemma_replaced(d, rs, re, out, false);
    lemma_recorded(d, false);
}

/// Flipping a member leaves every other member as it is.
pub proof fn lemma_toggled(s: Set<usize>, x: usize)
    ensures
        toggled(s, x).contains(x) == !s.contains(x),
        forall|y: usize| y != x ==> #[trigger] toggled(s, x).contains(y) == s.contains(y),
{
}

/// An input goes where it says; without a place to go, over the composition, and without a
/// composition over the selection.
pub proof fn lemma_input_range(content: Seq<char>, d: Doc, n: int, m: int, r: Range<usize>)
    requires
        0 <= n <= m <= content.len(),
        r.start == buffer::utf16_len(content.take(n)),
        r.end == buffer::utf16_len(content.take(m)),
    ensures
        input_range(content, d, Some(r)) == (
            text::blen(content.take(n)) as int,
            text::blen(content.take(m)) as int,
        ),
        d.marked matches Some(k) ==> input_range(content, d, None) == k,
        d.marked is None ==> input_range(content, d, None) == (d.start, d.end),
{
    buffer::lemma_utf16_round_trip(content, n);
    buffer::lemma_utf16_round_trip(content, m);
}

/// An input of a composition puts its text in place and marks it as the composition, with the
/// caret behind it; an empty text ends the composition. All inputs of one composition are one
/// step to undo.
pub proof fn lemma_composed(d: Doc, s: int, e: int, new_text: Seq<char>)
    requires
        0 <= s <= e <= d.bytes.len(),
    ensures
        ({
            let r = composed(d, s, e, new_text, None);
            let n = s + text::blen(new_text);
            &&& r.bytes == d.bytes.take(s) + encode_utf8(new_text) + d.bytes.skip(e)
            &&& r.start == n && r.end == n
            &&& new_text.len() > 0 ==> r.marked == Some((s, n))
            &&& new_text.len() == 0 ==> r.marked is None
            &&& d.marked is Some ==> r.undo == d.undo
            &&& d.marked is None ==> r.undo.last() == d.snap()
            &&& r.dirty
        }),
{
    let r = composed(d, s, e, new_text, None);
    assert(r.bytes =~= d.bytes.take(s) + encode_utf8(new_text) + d.bytes.skip(e));
    lemma_recorded(d, false);
}

/// An input is typing if it is one character other than a newline and takes nothing away.
pub proof fn lemma_is_typing(s: int, e: int, c: char, t: Seq<char>)
    ensures
        is_typing(s, s, seq![c]) <==> c != '\n',
        s != e ==> !is_typing(s, e, t),
        t.len() != 1 ==> !is_typing(s, e, t),
{
}

/// An offset within the text stays, and one behind its end is the end.
pub proof fn lemma_clamped(off: usize, b: Seq<u8>)
    ensures
        0 <= clamped(off, b) <= b.len(),
        clamped(off, b) <= off,
        clamped(off, b) == off || clamped(off, b) == b.len(),
{
}

/// A deleting key takes away the selection, or, where nothing is selected, what lies between the
/// caret and where the key reaches to, on either side of it.
pub proof fn lemma_deletes(e: CodeEditor, o: CodeEditor, off: int)
    requires
        e.deletes_from(o, off),
        !o.edit_blocked,
        !o.read_only,
        o.doc().marked is None,
        0 <= o.doc().start <= o.doc().end <= o.doc().bytes.len(),
        0 <= off <= o.doc().bytes.len(),
    ensures
        ({
            let b = o.doc().bytes;
            let c = o.doc().start;
            &&& o.doc().start < o.doc().end ==> e.doc().bytes == b.take(c) + b.skip(o.doc().end)
            &&& o.doc().start == o.doc().end && off <= c ==> e.doc().bytes == b.take(off) + b.skip(c)
            &&& o.doc().start == o.doc().end && off > c ==> e.doc().bytes == b.take(c) + b.skip(off)
        }),
{
    let b = o.doc().bytes;
    let c = o.doc().start;
    let none = Seq::<u8>::empty();
    assert(buffer::spliced(b, c, o.doc().end, none) =~= b.take(c) + b.skip(o.doc().end));
    if off <= c {
        assert(buffer::spliced(b, off, c, none) =~= b.take(off) + b.skip(c));
    } else {
        assert(buffer::spliced(b, c, off, none) =~= b.take(c) + b.skip(off));
    }
}

/// A thousand states can be brought back, and a text is long from 4000 newlines on.
pub proof fn lemma_limits(d: Doc, typing: bool)
    requires
        d.undo.len() <= 1000,
    ensures
        d.recorded(typing).undo.len() <= 1000,
        !(typing && d.typing) && d.undo.len() < 1000 ==> d.recorded(typing).undo.len()
            == d.undo.len() + 1,
        ASYNC_THRESHOLD == 4000,
{
}

} // verus!
