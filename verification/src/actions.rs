//! Actions of the program that join several parts of its state.

use crate::buffer;
use crate::changes;
use crate::changes::{Changes, ChangesModel, Rollback};
use crate::controller::{Kyde, RepoInfo};
use crate::diffpane;
use crate::diffpane::Content;
use crate::editor::{CodeEditor, Doc};
use crate::find;
use crate::find::LineMark;
use crate::git::{ChangedFile, FileStatus};
use crate::highlight;
use crate::history::{CompareMode, History};
use crate::model::Modeled;
use crate::operations;
use crate::operations::OperationsModel;
use crate::overlays;
use crate::overlays::{ModalKind, OverlaysModel};
use crate::path;
use crate::plugins;
use crate::porcelain;
use crate::porcelain::ChangedModel;
use crate::text;
use crate::workspace::{Mode, Workspace, WorkspaceModel};
use vstd::prelude::*;
use vstd::utf8::encode_utf8;

verus! {

broadcast use vstd::seq_lib::group_seq_properties;

/// What is done about one file that is rolled back.
pub struct RollbackStep {
    pub path: String,
    pub act: Rollback,
}

/// A branch that is to be made.
pub struct NewBranch {
    pub root: String,
    pub name: String,
    pub checkout: bool,
    pub overwrite: bool,
}

pub open spec fn steps_view(v: Seq<RollbackStep>) -> Seq<(Seq<char>, Rollback)> {
    Seq::new(v.len(), |i: int| (v[i].path@, v[i].act))
}

/// What is done about files that are rolled back.
pub open spec fn rollback_plan(files: Seq<ChangedModel>, delete_added: bool) -> Seq<
    (Seq<char>, Rollback),
> {
    Seq::new(
        files.len(),
        |i: int| (files[i].path, changes::rollback_of(files[i].status, delete_added)),
    )
}

/// The directory that a terminal opens in: a directory itself, or that of a file.
pub open spec fn shell_dir(root: Seq<char>, rel: Seq<char>, is_dir: bool) -> Seq<char> {
    let full = path::join(root, rel);
    if is_dir {
        full
    } else {
        match path::parent(full) {
            Some(p) => p,
            None => root,
        }
    }
}

/// The directory that a terminal opens in; `is_dir` tells whether the path is a directory.
pub fn terminal_dir(root: &str, rel: &str, is_dir: bool) -> (r: String)
    ensures
        r@ == shell_dir(root@, rel@, is_dir),
{
    let full = path::join_paths(root, rel);
    if is_dir {
        return full;
    }
    match path::parent_of(full.as_str()) {
        Some(p) => p,
        None => String::from_str(root),
    }
}

/// A text with a hyphen for every space.
pub open spec fn hyphenated(s: Seq<char>) -> Seq<char> {
    Seq::new(
        s.len(),
        |i: int|
            if s[i] == ' ' {
                '-'
            } else {
                s[i]
            },
    )
}

/// The name of a branch: spaces, which git rejects, become hyphens.
pub fn slugify_branch(name: &str) -> (r: String)
    ensures
        r@ == hyphenated(name@),
{
    let chars = text::chars_of(name);
    let mut out: Vec<char> = Vec::new();
    let mut i: usize = 0;
    while i < chars.len()
        invariant
            i <= chars@.len(),
            chars@ == name@,
            out@ == hyphenated(name@).take(i as int),
        decreases chars@.len() - i,
    {
        let c = chars[i];
        let ghost before = out@;
        out.push(
            if c == ' ' {
                '-'
            } else {
                c
            },
        );
        proof {
            assert(hyphenated(name@).take(i + 1) =~= before.push(hyphenated(name@)[i as int]));
        }
        i += 1;
    }
    proof {
        assert(hyphenated(name@).take(name@.len() as int) =~= hyphenated(name@));
    }
    text::string_from_chars(&out)
}

impl Kyde {
    /// What is done about each checked file, in order.
    pub fn do_rollback(&self) -> (r: Vec<RollbackStep>)
        ensures
            steps_view(r@) == rollback_plan(
                changes::checked_files(
                    self.changes.models(),
                    self.changes.rollback_checked@,
                    self.changes.files@.len() as int,
                ),
                self.changes.rollback_delete_added,
            ),
    {
        let targets = self.changes.rollback_targets();
        let delete_added = self.changes.rollback_delete_added;
        let ghost plan = rollback_plan(porcelain::changed_models(targets@), delete_added);
        let mut r: Vec<RollbackStep> = Vec::new();
        let mut i: usize = 0;
        while i < targets.len()
            invariant
                i <= targets@.len(),
                plan == rollback_plan(porcelain::changed_models(targets@), delete_added),
                steps_view(r@) =~= plan.take(i as int),
            decreases targets@.len() - i,
        {
            let ghost before = steps_view(r@);
            let act = changes::rollback_step(targets[i].status, delete_added);
            r.push(RollbackStep { path: targets[i].path.clone(), act });
            proof {
                assert(porcelain::changed_models(targets@)[i as int] == targets@[i as int].model());
                assert(steps_view(r@) =~= before.push(plan[i as int]));
            }
            i += 1;
        }
        proof {
            assert(plan.take(plan.len() as int) =~= plan);
        }
        r
    }

    /// The checked files were rolled back and the project was read anew: what failed is shown, and
    /// without changes the files are.
    pub fn rollback_done(&mut self, failures: &Vec<String>)
        ensures
            *final(self) == (Kyde {
                ops: final(self).ops,
                modals: final(self).modals,
                workspace: final(self).workspace,
                ..*old(self)
            }),
            forall|k: ModalKind| #[trigger]
                final(self).modals.has(k) == (k != ModalKind::Rollback && old(self).modals.has(k)),
            final(self).ops.m() == (OperationsModel {
                op_error: if failures@.len() == 0 {
                    old(self).ops.m().op_error
                } else {
                    Some(
                        "Rollback failed for "@ + text::decimal(failures@.len()) + " file(s): "@
                            + operations::joined_by(text::texts(failures@), ", "@),
                    )
                },
                ..old(self).ops.m()
            }),
            final(self).workspace == (Workspace {
                mode: if old(self).workspace.mode == Mode::Commit && old(
                    self,
                ).changes.files@.len() == 0 {
                    Mode::Browse
                } else {
                    old(self).workspace.mode
                },
                ..old(self).workspace
            }),
    {
        let _ = self.modals.close_modal_window(ModalKind::Rollback);
        if let Some(e) = operations::rollback_error(failures) {
            self.ops.op_error = Some(e);
        }
        self.exit_commit_if_clean();
    }

    /// A branch is switched to. Returns the project to work on.
    pub fn run_branch_op(&mut self) -> (r: Option<String>)
        ensures
            r.m() == old(self).workspace.repo_root.m(),
            *final(self) == (Kyde { overlays: final(self).overlays, ..*old(self) }),
            final(self).overlays.m() == (OverlaysModel {
                branch_popup_open: false,
                ..old(self).overlays.m()
            }),
    {
        self.overlays.branch_popup_open = false;
        match &self.workspace.repo_root {
            Some(root) => Some(root.clone()),
            None => None,
        }
    }

    /// A branch with the name in the dialog is made; spaces in the name become hyphens. Returns
    /// what to do; nothing without a name or a project.
    pub fn do_create_branch(&mut self) -> (r: Option<NewBranch>)
        ensures
            *final(self) == (Kyde { modals: final(self).modals, ..*old(self) }),
            old(self).inputs.branch_query.content@.len() == 0 ==> r is None && *final(self) == *old(
                self,
            ),
            old(self).inputs.branch_query.content@.len() > 0 ==> {
                &&& forall|k: ModalKind| #[trigger]
                    final(self).modals.has(k) == (k != ModalKind::NewBranch && old(
                        self,
                    ).modals.has(k))
                &&& match (old(self).workspace.repo_root, r) {
                    (Some(root), Some(b)) => {
                        &&& b.root@ == root@
                        &&& b.name@ == hyphenated(old(self).inputs.branch_query.content@)
                        &&& b.checkout == old(self).overlays.new_branch_checkout
                        &&& b.overwrite == old(self).overlays.new_branch_overwrite
                    },
                    (None, None) => true,
                    _ => false,
                }
            },
    {
        let name = slugify_branch(self.inputs.branch_query.text());
        if name.as_str().is_empty() {
            return None;
        }
        let _ = self.modals.close_modal_window(ModalKind::NewBranch);
        match &self.workspace.repo_root {
            Some(root) => Some(
                NewBranch {
                    root: root.clone(),
                    name,
                    checkout: self.overlays.new_branch_checkout,
                    overwrite: self.overlays.new_branch_overwrite,
                },
            ),
            None => None,
        }
    }

    /// Selects a line of the open file, counted from 1.
    fn select_line(&mut self, line: u32)
        requires
            old(self).wf(),
        ensures
            final(self).wf(),
            *final(self) == (Kyde { file_editor: final(self).file_editor, ..*old(self) }),
            final(self).file_editor.steered_from(old(self).file_editor),
            final(self).file_editor.reveal_pending,
            ({
                let was = old(self).file_editor.doc();
                let (start, end) = find::line_range(was.bytes, line as int);
                final(self).file_editor.doc() == (Doc { start, end, reversed: false, ..was })
            }),
    {
        let (start, end) = find::range_of_line(self.file_editor.text(), line);
        self.file_editor.select_range(start..end);
    }

    /// Opens a file at a line, counted from 1, which is selected. Returns the position of the
    /// file's tab and the row to scroll to.
    pub fn open_file_at_line(&mut self, rel: &str, line: u32, content: Option<String>) -> (r: (
        usize,
        usize,
    ))
        requires
            old(self).wf(),
        ensures
            final(self).wf(),
            final(self).workspace.m() == (WorkspaceModel {
                mode: Mode::Browse,
                ..old(self).workspace.m().file_opened(rel@)
            }),
            path::position_from(final(self).workspace.m().open_tabs, rel@, 0) == Some(r.0 as int),
            *final(self) == (Kyde {
                workspace: final(self).workspace,
                file_editor: final(self).file_editor,
                ..*old(self)
            }),
            final(self).file_editor.content@ == (match content {
                Some(s) => s@,
                None => old(self).file_editor.content@,
            }),
            ({
                let loaded = match content {
                    Some(s) => Doc::blank(s@),
                    None => old(self).file_editor.doc(),
                };
                let (start, end) = find::line_range(loaded.bytes, line as int);
                final(self).file_editor.doc() == (Doc { start, end, reversed: false, ..loaded })
            }),
            final(self).file_editor.same_setup(old(self).file_editor),
            final(self).file_editor.is_selecting == old(self).file_editor.is_selecting,
            ({
                let lang = plugins::effective(old(self).plugins@, highlight::lang_of_path(rel@));
                match content {
                    Some(s) => final(self).file_editor.lang == lang
                        && final(self).file_editor.syntax.loaded_from(
                        old(self).file_editor.syntax,
                        s@,
                        lang,
                        old(self).file_editor.single_line,
                    ),
                    None => final(self).file_editor.lang == old(self).file_editor.lang
                        && final(self).file_editor.syntax == old(self).file_editor.syntax,
                }
            }),
            final(self).file_editor.reveal_pending,
            r.1 == diffpane::context_row(if line > 0 {
                line - 1
            } else {
                0
            }),
    {
        let tab: usize = self.open_file(rel, content);
        self.workspace.mode = Mode::Browse;
        self.select_line(line);
        let rows: usize = diffpane::SCROLL_CONTEXT_ROWS;
        let row: usize = if line > 0 {
            (line - 1) as usize
        } else {
            0
        };
        let top: usize = if row >= rows {
            row - rows
        } else {
            0
        };
        (tab, top)
    }

    /// Looks anew for what is in the find bar. Returns the parts of lines to mark; the current
    /// match is selected.
    pub fn recompute_find(&mut self) -> (r: Vec<LineMark>)
        requires
            old(self).wf(),
        ensures
            final(self).wf(),
            *final(self) == (Kyde {
                find: final(self).find,
                file_editor: final(self).file_editor,
                ..*old(self)
            }),
            final(self).find.shows(
                old(self).file_editor.content@,
                old(self).inputs.find_query.content@,
            ),
            final(self).find.open == old(self).find.open,
            final(self).find.replace == old(self).find.replace,
            final(self).find.idx == (if old(self).find.idx < final(self).find.matches@.len() {
                old(self).find.idx
            } else {
                0
            }),
            r@.len() == final(self).find.matches@.len(),
            forall|i: int|
                0 <= i < r@.len() ==> ((#[trigger] r@[i]).line as int, r@[i].start as int, r@[i].end
                    as int) == find::mark_of(
                    old(self).file_editor.doc().bytes,
                    final(self).find.ranges()[i],
                ),
            final(self).find.matches@.len() == 0 ==> final(self).file_editor == old(
                self,
            ).file_editor,
            final(self).find.matches@.len() > 0 ==> {
                let d = final(self).file_editor.doc();
                &&& final(self).find.idx < final(self).find.matches@.len()
                &&& (d.start, d.end) == final(self).find.ranges()[final(self).find.idx as int]
                &&& d == (Doc {
                    start: d.start,
                    end: d.end,
                    reversed: false,
                    ..old(self).file_editor.doc()
                })
                &&& final(self).file_editor.steered_from(old(self).file_editor)
                &&& final(self).file_editor.reveal_pending
            },
    {
        let q = String::from_str(self.inputs.find_query.text());
        let content = String::from_str(self.file_editor.text());
        let ghost b = encode_utf8(content@);
        self.find.recompute_find(q.as_str(), content.as_str());
        let marks = find::line_marks(content.as_str(), &self.find.matches);
        if let Some((s, e)) = self.find.current() {
            proof {
                assert(self.find.ranges()[self.find.idx as int] == (s as int, e as int));
                assert(buffer::char_range(b, s as int, e as int));
            }
            self.file_editor.select_range(s..e);
        }
        marks
    }

    /// Shows what a push would send of a file, in a window of its own. Returns its title.
    pub fn push_show_diff(&mut self, idx: usize, before: String, after: String) -> (r: Option<
        String,
    >)
        requires
            old(self).wf(),
        ensures
            final(self).wf(),
            *final(self) == (Kyde {
                overlays: final(self).overlays,
                panes: final(self).panes,
                ..*old(self)
            }),
            final(self).overlays.m() == (OverlaysModel {
                context_menu: false,
                ..old(self).overlays.m()
            }),
            idx >= old(self).changes.push_files@.len() ==> r is None && final(self).panes == old(
                self,
            ).panes,
            idx < old(self).changes.push_files@.len() ==> ({
                let p = old(self).changes.push_files@[idx as int].path@;
                let lang = plugins::effective(old(self).plugins@, highlight::lang_of_path(p));
                &&& r.m() == Some(p)
                &&& final(self).panes.loaded(&old(self).panes, p, before@, after@, lang, true)
                &&& final(self).panes.image == old(self).panes.image
            }),
    {
        self.overlays.close_menu();
        if idx >= self.changes.push_files.len() {
            return None;
        }
        let p = self.changes.push_files[idx].path.clone();
        let lang = self.plugins.effective_lang(p.as_str());
        let _ = self.panes.load_diff_panes(p.as_str(), before, after, lang, true);
        Some(p)
    }

    /// Shows the changes of a file in a window of its own. Returns its title.
    pub fn menu_show_diff(&mut self, idx: usize, content: Content) -> (r: String)
        requires
            old(self).wf(),
        ensures
            final(self).wf(),
            *final(self) == (Kyde {
                changes: final(self).changes,
                overlays: final(self).overlays,
                panes: final(self).panes,
                ..*old(self)
            }),
            final(self).overlays.m() == (OverlaysModel {
                context_menu: false,
                ..old(self).overlays.m()
            }),
            final(self).changes.m() == (ChangesModel {
                selected: Some(idx),
                commit_focus: Set::empty(),
                ..old(self).changes.m()
            }),
            r@ == (if idx < old(self).changes.files@.len() {
                old(self).changes.files@[idx as int].path@
            } else {
                "Diff"@
            }),
            idx >= old(self).changes.files@.len() ==> final(self).panes == old(self).panes,
            idx < old(self).changes.files@.len() ==> ({
                let p = old(self).changes.files@[idx as int].path@;
                let lang = plugins::effective(old(self).plugins@, highlight::lang_of_path(p));
                exists|row: Option<usize>| #[trigger]
                    final(self).panes.selected(&old(self).panes, p, content, lang, true, row)
            }),
    {
        let _row = self.select_with(idx, content, true);
        self.overlays.close_menu();
        if idx < self.changes.files.len() {
            self.changes.files[idx].path.clone()
        } else {
            String::from_str("Diff")
        }
    }

    /// The open file is saved. Returns its path and its text; nothing is left to save then.
    pub fn save_open(&mut self) -> (r: Option<(String, String)>)
        requires
            old(self).wf(),
        ensures
            final(self).wf(),
            match r {
                None => old(self).workspace.open_path is None && *final(self) == *old(self),
                Some((p, s)) => {
                    &&& old(self).workspace.open_path.m() == Some(p@)
                    &&& s@ == old(self).file_editor.content@
                    &&& *final(self) == (Kyde {
                        file_editor: CodeEditor { dirty: false, ..old(self).file_editor },
                        ..*old(self)
                    })
                },
            },
    {
        let p = match &self.workspace.open_path {
            Some(p) => p.clone(),
            None => {
                return None;
            },
        };
        let s = String::from_str(self.file_editor.text());
        self.file_editor.dirty = false;
        Some((p, s))
    }

    /// The files that a push would send are to be confirmed, as read from the repository.
    pub fn open_push_modal(&mut self, read: Option<(String, Vec<ChangedFile>)>)
        ensures
            *final(self) == (Kyde {
                changes: Changes {
                    push_files: final(self).changes.push_files,
                    ..old(self).changes
                },
                overlays: final(self).overlays,
                repo: final(self).repo,
                ..*old(self)
            }),
            final(self).overlays.m() == (OverlaysModel {
                context_menu: false,
                ..old(self).overlays.m()
            }),
            match read {
                Some((base, files)) => final(self).repo == (RepoInfo {
                    push_base: base,
                    ..old(self).repo
                }) && final(self).changes.push_files == files,
                None => final(self).repo == old(self).repo
                    && final(self).changes.push_files@.len() == 0,
            },
    {
        self.overlays.close_menu();
        match read {
            Some((base, files)) => {
                self.repo.push_base = base;
                self.changes.push_files = files;
            },
            None => {
                self.changes.push_files = Vec::new();
            },
        }
    }

    /// The history of a path, or of all of the project, is entered at the current branch.
    pub fn enter_history_for(&mut self, p: Option<&str>)
        ensures
            *final(self) == (Kyde {
                workspace: Workspace { mode: Mode::History, ..old(self).workspace },
                history: final(self).history,
                ..*old(self)
            }),
            final(self).history.path.m() == (match p {
                Some(s) => if s@.len() == 0 {
                    None
                } else {
                    Some(s@)
                },
                None => None,
            }),
            final(self).history.rev@ == (match old(self).repo.current_branch {
                Some(b) => b@,
                None => "HEAD"@,
            }),
            final(self).history == (History {
                path: final(self).history.path,
                rev: final(self).history.rev,
                ..old(self).history
            }),
    {
        self.workspace.mode = Mode::History;
        match &self.repo.current_branch {
            Some(b) => {
                self.history.enter_history(p, Some(b.as_str()));
            },
            None => {
                self.history.enter_history(p, None);
            },
        }
    }

    /// A commit of the history is compared in another way.
    pub fn history_compare_commit(&mut self, idx: usize, mode: CompareMode)
        ensures
            *final(self) == (Kyde {
                overlays: final(self).overlays,
                history: final(self).history,
                ..*old(self)
            }),
            final(self).overlays.m() == (OverlaysModel {
                context_menu: false,
                ..old(self).overlays.m()
            }),
            final(self).history == (History {
                selected: Some(idx),
                compare: mode,
                compare_open: false,
                ..old(self).history
            }),
    {
        self.overlays.close_menu();
        self.history.selected = Some(idx);
        let _ = self.history.set_history_compare(mode);
    }

    /// The crash of the run before is reported or not, and no longer shown. Returns it.
    pub fn dismiss_crash(&mut self) -> (r: Option<String>)
        ensures
            r == old(self).pending_crash,
            *final(self) == (Kyde { pending_crash: None, ..*old(self) }),
    {
        let crash = self.pending_crash.take();
        crash
    }

    /// The files are shown.
    pub fn act_mode_browse(&mut self)
        ensures
            *final(self) == (Kyde {
                workspace: Workspace { mode: Mode::Browse, ..old(self).workspace },
                ..*old(self)
            }),
    {
        self.workspace.mode = Mode::Browse;
    }
}

/// Every file that is checked is dealt with once, and no other.
pub proof fn lemma_rollback_once(
    files: Seq<ChangedModel>,
    set: Set<Seq<Seq<char>>>,
    n: int,
    delete_added: bool,
)
    requires
        0 <= n <= files.len(),
    ensures
        ({
            let plan = rollback_plan(changes::checked_files(files, set, n), delete_added);
            &&& plan.len() <= n
            &&& forall|i: int|
                0 <= i < n && set.contains(path::components((#[trigger] files[i]).path))
                    ==> exists|k: int|
                    0 <= k < plan.len() && (#[trigger] plan[k]) == (
                        files[i].path,
                        changes::rollback_of(files[i].status, delete_added),
                    )
            &&& forall|k: int|
                0 <= k < plan.len() ==> set.contains(path::components((#[trigger] plan[k]).0))
        }),
    decreases n,
{
    if n > 0 {
        lemma_rollback_once(files, set, n - 1, delete_added);
        let before = changes::checked_files(files, set, n - 1);
        let now = changes::checked_files(files, set, n);
        let p0 = rollback_plan(before, delete_added);
        let p1 = rollback_plan(now, delete_added);
        if set.contains(path::components(files[n - 1].path)) {
            assert(now == before.push(files[n - 1]));
            assert(p1[before.len() as int] == (
                files[n - 1].path,
                changes::rollback_of(files[n - 1].status, delete_added),
            ));
        }
        assert forall|k: int| 0 <= k < p0.len() implies p1[k] == #[trigger] p0[k] by {}
        assert forall|i: int|
            0 <= i < n && set.contains(path::components((#[trigger] files[i]).path)) implies exists|
            k: int,
        |
            0 <= k < p1.len() && (#[trigger] p1[k]) == (
                files[i].path,
                changes::rollback_of(files[i].status, delete_added),
            ) by {
            if i < n - 1 {
                let k = choose|k: int|
                    0 <= k < p0.len() && (#[trigger] p0[k]) == (
                        files[i].path,
                        changes::rollback_of(files[i].status, delete_added),
                    );
                assert(p1[k] == p0[k]);
            }
        }
        assert forall|k: int| 0 <= k < p1.len() implies set.contains(
            path::components((#[trigger] p1[k]).0),
        ) by {
            if k < p0.len() {
                assert(p1[k] == p0[k]);
            }
        }
    }
}

/// A name with hyphens has no space, and differs from the text in its spaces alone.
pub proof fn lemma_hyphenated(s: Seq<char>)
    ensures
        hyphenated(s).len() == s.len(),
        !hyphenated(s).contains(' '),
        forall|i: int| 0 <= i < s.len() && s[i] != ' ' ==> #[trigger] hyphenated(s)[i] == s[i],
        forall|i: int| 0 <= i < s.len() && s[i] == ' ' ==> #[trigger] hyphenated(s)[i] == '-',
        hyphenated(hyphenated(s)) == hyphenated(s),
{
    assert(hyphenated(hyphenated(s)) =~= hyphenated(s));
}

/// A terminal opens in a directory itself, and for a file in the directory that holds it.
pub proof fn lemma_shell_dir(root: Seq<char>, dir: Seq<char>, name: Seq<char>)
    requires
        path::named(name),
        root.len() > 0,
    ensures
        shell_dir(root, dir, true) == path::join(root, dir),
        path::same(shell_dir(root, name, false), root),
        path::join(root, dir).len() > 0 && !(name.len() > 0 && name[0] == '/') ==> path::same(
            path::parent(path::join(path::join(root, dir), name))->0,
            shell_dir(root, dir, true),
        ),
{
    path::lemma_join_name(root, name);
    if path::join(root, dir).len() > 0 {
        path::lemma_join_name(path::join(root, dir), name);
    }
}

/// Every file of a rollback has one step, its own, and in the order of the files; a file that is
/// in the history is discarded, whatever is done about the others.
pub proof fn lemma_rollback_steps(files: Seq<ChangedModel>, delete_added: bool)
    ensures
        rollback_plan(files, delete_added).len() == files.len(),
        forall|i: int|
            0 <= i < files.len() ==> {
                let step = #[trigger] rollback_plan(files, delete_added)[i];
                &&& step.0 == files[i].path
                &&& files[i].status != FileStatus::Untracked && files[i].status
                    != FileStatus::Added <==> step.1 == Rollback::Discard
                &&& step.1 == Rollback::Delete || step.1 == Rollback::UnstageAndDelete
                    ==> delete_added
            },
{
    assert forall|i: int| 0 <= i < files.len() implies {
        let step = #[trigger] rollback_plan(files, delete_added)[i];
        &&& step.0 == files[i].path
        &&& files[i].status != FileStatus::Untracked && files[i].status != FileStatus::Added
            <==> step.1 == Rollback::Discard
        &&& step.1 == Rollback::Delete || step.1 == Rollback::UnstageAndDelete ==> delete_added
    } by {
        changes::lemma_rollback_discards(files[i].status, delete_added);
    }
}

} // verus!
