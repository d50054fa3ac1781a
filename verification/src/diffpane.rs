//! The two panes that show a diff: the text before on the left, the text after on the right.

use crate::diff;
use crate::diff::FileDiff;
use crate::editor::{CodeEditor, Doc};
use crate::git::FileStatus;
use crate::highlight;
use crate::highlight::{Lang, Span};
use crate::model::Modeled;
use crate::text;
use vstd::prelude::*;

verus! {

/// How many rows stay above a line that is scrolled to.
pub const SCROLL_CONTEXT_ROWS: usize = 3;

/// What there is to show of a changed file.
pub enum Content {
    Image,
    /// There is no repository to read from.
    NoRepo,
    /// The file is binary or cannot be read.
    Unreadable,
    Text { before: String, after: String },
}

pub struct DiffPanes {
    pub left: CodeEditor,
    pub right: CodeEditor,
    /// The file that is shown; edits on the right go there.
    pub path: Option<String>,
    /// The image that is shown.
    pub image: Option<String>,
    /// The right side is not the working copy.
    pub readonly: bool,
    /// The text before.
    pub base: String,
    pub diff: Option<FileDiff>,
    pub old_spans: Vec<Span>,
    pub new_spans: Vec<Span>,
}

/// The row to scroll to so that a row is seen with some rows above it.
pub open spec fn context_row(row: int) -> int {
    if row >= SCROLL_CONTEXT_ROWS {
        row - SCROLL_CONTEXT_ROWS
    } else {
        0
    }
}

/// What there is to show of a file: one that was deleted has nothing after its changes.
pub fn content_of(status: FileStatus, working: Option<String>, base: String) -> (r: Content)
    ensures
        match r {
            Content::Text { before, after } => before == base && (if status
                == FileStatus::Deleted {
                after@.len() == 0
            } else {
                working == Some(after)
            }),
            Content::Unreadable => status != FileStatus::Deleted && working is None,
            _ => false,
        },
{
    if status == FileStatus::Deleted {
        return Content::Text { before: base, after: String::new() };
    }
    match working {
        Some(after) => Content::Text { before: base, after },
        None => Content::Unreadable,
    }
}

/// The lines of the text after, with those of a hunk put back as they were before.
pub open spec fn reverted_lines(
    old: Seq<Seq<char>>,
    new: Seq<Seq<char>>,
    h: diff::HunkModel,
) -> Seq<Seq<char>> {
    new.take(h.new_range.0) + old.subrange(h.old_range.0, h.old_range.1) + new.skip(h.new_range.1)
}

/// Putting every hunk of a diff back, the last one first, leaves the text before.
pub proof fn lemma_revert_every_hunk(d: FileDiff, before: Seq<char>, after: Seq<char>)
    requires
        diff::diff_describes(d, before, after),
    ensures
        text::join_with(
            reverted_from(
                text::texts(d.old@),
                text::texts(d.new@),
                diff::hunk_models(d.hunks@),
            ),
            '\n',
        ) == before,
{
    lemma_reverted_from(text::texts(d.old@), text::texts(d.new@), diff::hunk_models(d.hunks@));
    text::lemma_join_split(before, '\n');
}

/// The lines with each of some hunks put back, the last one first.
pub open spec fn reverted_from(
    old: Seq<Seq<char>>,
    lines: Seq<Seq<char>>,
    hunks: Seq<diff::HunkModel>,
) -> Seq<Seq<char>>
    decreases hunks.len(),
{
    if hunks.len() == 0 {
        lines
    } else {
        reverted_from(old, reverted_lines(old, lines, hunks.last()), hunks.drop_last())
    }
}

proof fn lemma_reverted_from(
    old: Seq<Seq<char>>,
    lines: Seq<Seq<char>>,
    hunks: Seq<diff::HunkModel>,
)
    ensures
        reverted_from(old, lines, hunks) == diff::reverted(lines, old, hunks),
    decreases hunks.len(),
{
    if hunks.len() > 0 {
        lemma_reverted_from(
            old,
            reverted_lines(old, lines, hunks.last()),
            hunks.drop_last(),
        );
    }
}

/// A diff with a single hunk is undone by putting that hunk back: what is left is the text
/// before.
pub proof fn lemma_revert_only_hunk(d: FileDiff, before: Seq<char>, after: Seq<char>)
    requires
        diff::diff_describes(d, before, after),
        d.hunks@.len() == 1,
    ensures
        text::join_with(
            reverted_lines(text::texts(d.old@), text::texts(d.new@), d.hunks@[0].model()),
            '\n',
        ) == before,
{
    let hunks = diff::hunk_models(d.hunks@);
    lemma_revert_every_hunk(d, before, after);
    assert(hunks.last() == d.hunks@[0].model());
    assert(hunks.drop_last().len() == 0);
    reveal_with_fuel(reverted_from, 2);
}

/// The text after, with the lines of a hunk put back as they were before.
pub fn revert_hunk(d: &FileDiff, hi: usize) -> (r: Option<String>)
    requires
        forall|i: int|
            0 <= i < d.hunks@.len() ==> diff::hunk_sound(
                (#[trigger] d.hunks@[i]).model(),
                text::texts(d.old@),
                text::texts(d.new@),
            ),
    ensures
        match r {
            Some(s) => hi < d.hunks@.len() && s@ == text::join_with(
                reverted_lines(
                    text::texts(d.old@),
                    text::texts(d.new@),
                    d.hunks@[hi as int].model(),
                ),
                '\n',
            ),
            None => hi >= d.hunks@.len(),
        },
{
    if hi >= d.hunks.len() {
        return None;
    }
    let h = &d.hunks[hi];
    let ghost old = text::texts(d.old@);
    let ghost new = text::texts(d.new@);
    let ghost hm = h.model();
    proof {
        assert(diff::hunk_sound(d.hunks@[hi as int].model(), old, new));
    }
    let mut lines: Vec<String> = Vec::new();
    copy_lines(&d.new, 0, h.new_range.start, &mut lines);
    copy_lines(&d.old, h.old_range.start, h.old_range.end, &mut lines);
    copy_lines(&d.new, h.new_range.end, d.new.len(), &mut lines);
    proof {
        assert(new.subrange(0, hm.new_range.0) =~= new.take(hm.new_range.0));
        assert(new.subrange(hm.new_range.1, new.len() as int) =~= new.skip(hm.new_range.1));
        assert(text::texts(lines@) =~= reverted_lines(old, new, hm));
    }
    Some(text::join_strs(lines.as_slice(), '\n'))
}

/// Appends the lines `from..to`.
fn copy_lines(lines: &Vec<String>, from: usize, to: usize, out: &mut Vec<String>)
    requires
        from <= to <= lines@.len(),
    ensures
        text::texts(final(out)@) == text::texts(old(out)@) + text::texts(lines@).subrange(
            from as int,
            to as int,
        ),
{
    let ghost before = text::texts(out@);
    let mut i: usize = from;
    proof {
        assert(before + text::texts(lines@).subrange(from as int, from as int) =~= before);
    }
    while i < to
        invariant
            from <= i <= to <= lines@.len(),
            text::texts(out@) == before + text::texts(lines@).subrange(from as int, i as int),
        decreases to - i,
    {
        let ghost now = text::texts(out@);
        out.push(lines[i].clone());
        proof {
            let ls = text::texts(lines@);
            assert(text::texts(out@) =~= now.push(ls[i as int]));
            assert(ls.subrange(from as int, i + 1) =~= ls.subrange(from as int, i as int).push(
                ls[i as int],
            ));
            assert(text::texts(out@) =~= before + ls.subrange(from as int, i + 1));
        }
        i += 1;
    }
}

/// A pane that was `was` got a text, which can be edited unless `read_only`, and nothing has been
/// done to it.
#[verifier::opaque]
pub open spec fn shows(
    e: CodeEditor,
    was: CodeEditor,
    content: Seq<char>,
    lang: Lang,
    read_only: bool,
) -> bool {
    e.loaded_from(CodeEditor { read_only, ..was }, content, lang)
}

impl DiffPanes {
    pub open spec fn wf(&self) -> bool {
        self.left.wf() && self.right.wf()
    }

    /// What was computed is the diff of two texts in a language.
    pub open spec fn diffs(&self, before: Seq<char>, after: Seq<char>, lang: Lang) -> bool {
        &&& self.diff matches Some(d) && diff::diff_describes(d, before, after)
        &&& highlight::spans_view(self.old_spans@) == highlight::highlight_spec(before, lang)
        &&& highlight::spans_view(self.new_spans@) == highlight::highlight_spec(after, lang)
    }

    pub open spec fn no_diff(&self) -> bool {
        self.diff is None && self.old_spans@.len() == 0 && self.new_spans@.len() == 0
    }

    /// The panes hold two texts, and nothing has been done to them.
    pub open spec fn holds(&self, before: Seq<char>, after: Seq<char>) -> bool {
        &&& self.left.content@ == before
        &&& self.right.content@ == after
        &&& self.left.doc() == Doc::blank(before)
        &&& self.right.doc() == Doc::blank(after)
    }

    /// The row to scroll to: that of the first hunk, with some rows above it. Equal texts have
    /// none.
    pub open spec fn first_row_is(&self, r: Option<usize>, before: Seq<char>, after: Seq<char>) -> bool {
        match r {
            Some(row) => self.diff->0.hunks@.len() > 0 && row == context_row(
                self.diff->0.hunks@[0].old_range.start as int,
            ),
            None => before == after,
        }
    }

    /// The diff of two texts of a file is shown in place of what `was` shows.
    pub open spec fn loaded(
        &self,
        was: &Self,
        path: Seq<char>,
        before: Seq<char>,
        after: Seq<char>,
        lang: Lang,
        readonly: bool,
    ) -> bool {
        &&& self.diffs(before, after, lang)
        &&& self.holds(before, after)
        &&& self.left.read_only
        &&& self.right.read_only == readonly
        &&& self.left.lang == lang
        &&& self.right.lang == lang
        &&& shows(self.left, was.left, before, lang, true)
        &&& shows(self.right, was.right, after, lang, readonly)
        &&& self.path.m() == Some(path)
        &&& self.readonly == readonly
        &&& self.base@ == before
    }

    /// Both panes hold a text that is not the file's, in place of what `was` holds.
    pub open spec fn says(&self, was: &Self, s: Seq<char>) -> bool {
        &&& self.holds(s, s)
        &&& self.left.loaded_from(was.left, s, Lang::PlainText)
        &&& self.right.loaded_from(was.right, s, Lang::PlainText)
    }

    /// What a changed file that was selected has to show is shown in place of what `was` shows;
    /// without `panes` only what is known of the diff changes. `r` is the row to scroll to.
    pub open spec fn selected(
        &self,
        was: &Self,
        path: Seq<char>,
        content: Content,
        lang: Lang,
        panes: bool,
        r: Option<usize>,
    ) -> bool {
        &&& self.image.m() == (if content is Image {
            Some(path)
        } else {
            None
        })
        &&& !panes ==> r is None && self.left == was.left && self.right == was.right
            && self.readonly == was.readonly && self.base == was.base
        &&& match content {
            Content::Image => {
                &&& r is None
                &&& self.no_diff()
                &&& self.path is None
                &&& self.readonly == was.readonly
                &&& self.base == was.base
                &&& panes ==> self.says(was, Seq::empty())
            },
            Content::NoRepo => {
                &&& r is None
                &&& *self == (DiffPanes { image: None, ..*was })
            },
            Content::Unreadable => {
                &&& r is None
                &&& self.no_diff()
                &&& self.readonly == was.readonly
                &&& self.base == was.base
                &&& panes ==> self.path is None && self.says(
                    was,
                    "Binary or non-text file \u{2014} no diff."@,
                )
                &&& !panes ==> self.path == was.path
            },
            Content::Text { before, after } => {
                &&& self.diffs(before@, after@, lang)
                &&& panes ==> self.loaded(was, path, before@, after@, lang, false)
                    && self.first_row_is(r, before@, after@)
                &&& !panes ==> self.path == was.path
            },
        }
    }

    /// Nothing is shown.
    pub open spec fn is_new(&self) -> bool {
        &&& self.left.fresh(Seq::empty(), Lang::PlainText, Seq::empty(), false, true)
        &&& self.right.fresh(Seq::empty(), Lang::PlainText, Seq::empty(), false, false)
        &&& self.path is None
        &&& self.image is None
        &&& !self.readonly
        &&& self.base@.len() == 0
        &&& self.no_diff()
    }

    pub fn new() -> (r: Self)
        ensures
            r.wf(),
            r.is_new(),
    {
        proof {
            reveal_strlit("");
            assert(""@ =~= Seq::<char>::empty());
        }
        DiffPanes {
            left: CodeEditor::read_only(String::new(), Lang::PlainText),
            right: CodeEditor::new(String::new(), Lang::PlainText, ""),
            path: None,
            image: None,
            readonly: false,
            base: String::new(),
            diff: None,
            old_spans: Vec::new(),
            new_spans: Vec::new(),
        }
    }

    fn compute(&mut self, before: &str, after: &str, lang: Lang)
        ensures
            final(self).diffs(before@, after@, lang),
            final(self).left == old(self).left,
            final(self).right == old(self).right,
            final(self).path == old(self).path,
            final(self).image == old(self).image,
            final(self).readonly == old(self).readonly,
            final(self).base == old(self).base,
    {
        self.old_spans = highlight::highlight(before, lang);
        self.new_spans = highlight::highlight(after, lang);
        self.diff = Some(FileDiff::compute(before, after));
    }

    /// Shows the diff of two texts. The left side is never edited; the right one is not if
    /// `readonly`. Returns the row to scroll to: that of the first hunk, with some rows above it.
    pub fn load_diff_panes(
        &mut self,
        path: &str,
        before: String,
        after: String,
        lang: Lang,
        readonly: bool,
    ) -> (r: Option<usize>)
        requires
            old(self).wf(),
        ensures
            final(self).wf(),
            final(self).loaded(old(self), path@, before@, after@, lang, readonly),
            final(self).image == old(self).image,
            final(self).first_row_is(r, before@, after@),
    {
        let row: Option<usize> = self.compute_rows(before.as_str(), after.as_str(), lang);
        self.path = Some(String::from_str(path));
        self.readonly = readonly;
        self.base = before.clone();
        self.fill(before, after, lang, readonly);
        row
    }

    /// Computes the diff of two texts. Returns the row to scroll to.
    fn compute_rows(&mut self, before: &str, after: &str, lang: Lang) -> (r: Option<usize>)
        ensures
            final(self).diffs(before@, after@, lang),
            *final(self) == (DiffPanes {
                diff: final(self).diff,
                old_spans: final(self).old_spans,
                new_spans: final(self).new_spans,
                ..*old(self)
            }),
            final(self).first_row_is(r, before@, after@),
    {
        self.compute(before, after, lang);
        self.first_row()
    }

    /// The row to scroll to so that the first hunk is seen, if there is one.
    fn first_row(&self) -> (r: Option<usize>)
        ensures
            match r {
                Some(row) => self.diff matches Some(d) && d.hunks@.len() > 0 && row == context_row(
                    d.hunks@[0].old_range.start as int,
                ),
                None => self.diff matches Some(d) ==> diff::hunk_models(d.hunks@).len() == 0,
            },
    {
        match &self.diff {
            Some(d) => if d.hunks.len() > 0 {
                let start: usize = d.hunks[0].old_range.start;
                if start >= SCROLL_CONTEXT_ROWS {
                    Some(start - SCROLL_CONTEXT_ROWS)
                } else {
                    Some(0)
                }
            } else {
                None
            },
            None => None,
        }
    }

    /// Puts two texts into the panes.
    fn fill(&mut self, before: String, after: String, lang: Lang, readonly: bool)
        requires
            old(self).wf(),
        ensures
            final(self).wf(),
            final(self).holds(before@, after@),
            final(self).left.read_only,
            final(self).right.read_only == readonly,
            final(self).left.lang == lang,
            final(self).right.lang == lang,
            shows(final(self).left, old(self).left, before@, lang, true),
            shows(final(self).right, old(self).right, after@, lang, readonly),
            *final(self) == (DiffPanes {
                left: final(self).left,
                right: final(self).right,
                ..*old(self)
            }),
    {
        self.left.read_only = true;
        self.left.set_content(before, lang);
        self.right.read_only = readonly;
        self.right.set_content(after, lang);
        proof {
            reveal(shows);
        }
    }

    fn set_both(&mut self, s: &str)
        requires
            old(self).wf(),
        ensures
            final(self).wf(),
            final(self).holds(s@, s@),
            final(self).left.loaded_from(old(self).left, s@, Lang::PlainText),
            final(self).right.loaded_from(old(self).right, s@, Lang::PlainText),
            final(self).path == old(self).path,
            final(self).image == old(self).image,
            final(self).readonly == old(self).readonly,
            final(self).base == old(self).base,
            final(self).diff == old(self).diff,
            final(self).old_spans == old(self).old_spans,
            final(self).new_spans == old(self).new_spans,
    {
        self.left.set_content(String::from_str(s), Lang::PlainText);
        self.right.set_content(String::from_str(s), Lang::PlainText);
    }

    /// Empties the panes.
    pub fn clear_diff_panes(&mut self)
        requires
            old(self).wf(),
        ensures
            final(self).wf(),
            final(self).holds(Seq::empty(), Seq::empty()),
            final(self).left.loaded_from(old(self).left, Seq::empty(), Lang::PlainText),
            final(self).right.loaded_from(old(self).right, Seq::empty(), Lang::PlainText),
            final(self).path is None,
            final(self).diff is None,
            final(self).image == old(self).image,
            final(self).readonly == old(self).readonly,
            final(self).base == old(self).base,
            final(self).old_spans == old(self).old_spans,
            final(self).new_spans == old(self).new_spans,
    {
        self.path = None;
        self.diff = None;
        proof {
            reveal_strlit("");
            assert(""@ =~= Seq::<char>::empty());
        }
        self.set_both("");
    }

    /// A changed file was selected. Without `panes` only what is known of the diff changes. An
    /// image or a file that is no text is not written to from the panes. Returns the row to
    /// scroll to.
    pub fn select_with(&mut self, path: &str, content: Content, lang: Lang, panes: bool) -> (r: Option<
        usize,
    >)
        requires
            old(self).wf(),
        ensures
            final(self).wf(),
            final(self).selected(old(self), path@, content, lang, panes, r),
    {
        self.image = None;
        match content {
            Content::Image => {
                self.old_spans = Vec::new();
                self.new_spans = Vec::new();
                self.diff = None;
                self.path = None;
                self.image = Some(String::from_str(path));
                if panes {
                    proof {
                        reveal_strlit("");
                        assert(""@ =~= Seq::<char>::empty());
                    }
                    self.set_both("");
                }
                None
            },
            Content::NoRepo => None,
            Content::Unreadable => {
                self.old_spans = Vec::new();
                self.new_spans = Vec::new();
                self.diff = None;
                if panes {
                    self.path = None;
                    self.set_both("Binary or non-text file \u{2014} no diff.");
                }
                None
            },
            Content::Text { before, after } => {
                if panes {
                    self.load_diff_panes(path, before, after, lang, false)
                } else {
                    self.compute(before.as_str(), after.as_str(), lang);
                    None
                }
            },
        }
    }

    /// What is written to disk after an edit on the right: the file and its text.
    pub fn diff_autosave(&self) -> (r: Option<(String, String)>)
        ensures
            match r {
                Some((p, s)) => self.path.m() == Some(p@) && s@ == self.right.content@,
                None => self.path is None,
            },
    {
        match &self.path {
            Some(p) => Some((p.clone(), String::from_str(self.right.text()))),
            None => None,
        }
    }

    /// Diffs the text on the right against the text before anew.
    pub fn recompute_diff(&mut self, after: &str, lang: Lang)
        ensures
            final(self).diffs(old(self).base@, after@, lang),
            final(self).left == old(self).left,
            final(self).right == old(self).right,
            final(self).path == old(self).path,
            final(self).image == old(self).image,
            final(self).readonly == old(self).readonly,
            final(self).base == old(self).base,
    {
        let base = self.base.clone();
        self.compute(base.as_str(), after, lang);
    }

    /// Puts the lines of a hunk back as they were before and shows the diff that is left.
    /// Returns the new text, if there is such a hunk.
    pub fn diff_revert_hunk(&mut self, hi: usize, lang: Lang) -> (r: Option<String>)
        requires
            old(self).wf(),
            old(self).diff matches Some(d) ==> forall|i: int|
                0 <= i < d.hunks@.len() ==> diff::hunk_sound(
                    (#[trigger] d.hunks@[i]).model(),
                    text::texts(d.old@),
                    text::texts(d.new@),
                ),
        ensures
            final(self).wf(),
            match r {
                None => *final(self) == *old(self) && (old(self).diff matches Some(d) ==> hi
                    >= d.hunks@.len()),
                Some(s) => ({
                    &&& old(self).diff is Some
                    &&& hi < old(self).diff->0.hunks@.len()
                    &&& s@ == text::join_with(
                        reverted_lines(
                            text::texts(old(self).diff->0.old@),
                            text::texts(old(self).diff->0.new@),
                            old(self).diff->0.hunks@[hi as int].model(),
                        ),
                        '\n',
                    )
                    &&& final(self).right.loaded_from(old(self).right, s@, lang)
                    &&& final(self).left == old(self).left
                    &&& final(self).path == old(self).path
                    &&& final(self).image == old(self).image
                    &&& final(self).readonly == old(self).readonly
                    &&& final(self).base == old(self).base
                    &&& final(self).diffs(old(self).base@, s@, lang)
                }),
            },
    {
        let s = match &self.diff {
            None => {
                return None;
            },
            Some(d) => match revert_hunk(d, hi) {
                Some(s) => s,
                None => {
                    return None;
                },
            },
        };
        self.right.set_content(s.clone(), lang);
        self.recompute_diff(s.as_str(), lang);
        Some(s)
    }
}

/// A row is scrolled to with the same number of rows above it, or from the top where there are
/// fewer.
pub proof fn lemma_context_row(row: int)
    requires
        row >= 0,
    ensures
        0 <= context_row(row) <= row,
        row >= SCROLL_CONTEXT_ROWS ==> context_row(row) + SCROLL_CONTEXT_ROWS == row,
        row < SCROLL_CONTEXT_ROWS ==> context_row(row) == 0,
{
}

/// Putting a hunk back touches its lines alone: what stands before them and behind them stays.
pub proof fn lemma_reverted_lines(
    old: Seq<Seq<char>>,
    new: Seq<Seq<char>>,
    h: diff::HunkModel,
)
    requires
        0 <= h.old_range.0 <= h.old_range.1 <= old.len(),
        0 <= h.new_range.0 <= h.new_range.1 <= new.len(),
    ensures
        ({
            let r = reverted_lines(old, new, h);
            let n = h.old_range.1 - h.old_range.0;
            let at = h.new_range.0;
            &&& r.len() == new.len() - (h.new_range.1 - h.new_range.0) + n
            &&& r.take(at) == new.take(at)
            &&& r.subrange(at, at + n) == old.subrange(h.old_range.0, h.old_range.1)
            &&& r.skip(at + n) == new.skip(h.new_range.1)
        }),
{
    let r = reverted_lines(old, new, h);
    let n = h.old_range.1 - h.old_range.0;
    let at = h.new_range.0;
    assert(r.take(at) =~= new.take(at));
    assert(r.subrange(at, at + n) =~= old.subrange(h.old_range.0, h.old_range.1));
    assert(r.skip(at + n) =~= new.skip(h.new_range.1));
}

/// Three rows stay above the row that is scrolled to, where there are as many.
pub proof fn lemma_rows_above(row: int)
    requires
        row >= 0,
    ensures
        row >= 3 ==> row - context_row(row) == 3,
        row < 3 ==> context_row(row) == 0,
{
}

} // verus!
