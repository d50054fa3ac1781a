//! The state of the program, and what each action does to it. What an action needs from disk or
//! from git is handed to it, or asked for in what it returns.

use crate::changes;
use crate::changes::{Changes, ChangesModel, GitTab, Show};
use crate::collections::TextSet;
use crate::diffpane::{Content, DiffPanes};
use crate::editor::CodeEditor;
use crate::find::FindBar;
use crate::finder::{Finder, FinderMode, PaletteAction};
use crate::git::{ChangedFile, FileStatus};
use crate::highlight;
use crate::highlight::Lang;
use crate::history::History;
use crate::keymap::{Keymap, Preset};
use crate::model::Modeled;
use crate::operations;
use crate::operations::{Debounce, Operations, OperationsModel};
use crate::overlays;
use crate::overlays::{Escape, ModalKind, Modals, Named, NamedModel, Overlays, OverlaysModel};
use crate::path;
use crate::pathset;
use crate::plugins;
use crate::plugins::Plugins;
use crate::porcelain;
use crate::porcelain::ChangedModel;
use crate::terminals::Terminals;
use crate::text;
use crate::workspace;
use crate::workspace::{Follow, FollowModel, Mode, Workspace, WorkspaceModel};
use vstd::prelude::*;

verus! {

broadcast use vstd::seq_lib::group_seq_properties;

/// The lines that are typed into.
pub struct Inputs {
    pub commit_editor: CodeEditor,
    pub finder_query: CodeEditor,
    pub plugins_query: CodeEditor,
    pub name_input: CodeEditor,
    pub find_query: CodeEditor,
    pub replace_query: CodeEditor,
    pub history_branch_query: CodeEditor,
    pub history_commit_query: CodeEditor,
    pub history_files_query: CodeEditor,
    pub project_search: CodeEditor,
    pub branch_query: CodeEditor,
    pub commit_search: CodeEditor,
}

/// What is known of the repository.
pub struct RepoInfo {
    pub all_files: Vec<String>,
    pub scratches: Vec<String>,
    pub current_branch: Option<String>,
    /// How many commits a push would send.
    pub ahead: Option<usize>,
    /// How many commits a pull would bring in.
    pub behind: Option<usize>,
    /// What a push is compared with.
    pub push_base: String,
}

/// What was read of a repository.
pub struct GitState {
    pub status: Result<Vec<ChangedFile>, String>,
    pub files: Vec<String>,
    pub branch: Option<String>,
    pub ahead: Option<usize>,
    pub behind: Option<usize>,
    pub push_base: String,
    pub push_files: Vec<ChangedFile>,
}

/// What was read of the active project.
pub enum ProjectState {
    Git(GitState),
    /// A directory that is no repository, and its files.
    Plain(Vec<String>),
    /// No project is active.
    Absent,
}

/// The state of the program.
pub struct Kyde {
    pub workspace: Workspace,
    pub changes: Changes,
    pub panes: DiffPanes,
    pub finder: Finder,
    pub find: FindBar,
    pub history: History,
    pub ops: Operations,
    pub overlays: Overlays,
    pub modals: Modals,
    pub terminals: Terminals,
    pub plugins: Plugins,
    /// Packs that were turned down.
    pub ignored_packs: TextSet,
    pub keymap: Keymap,
    pub inputs: Inputs,
    pub repo: RepoInfo,
    pub file_editor: CodeEditor,
    /// The crash of the run before.
    pub pending_crash: Option<String>,
    pub diff_edits: Debounce,
    pub refreshes: Debounce,
}

/// What an action of the palette comes to.
#[derive(Debug, Clone, Copy, PartialEq, Eq, Structural)]
pub enum Command {
    Nothing,
    OpenFinder(FinderMode),
    EnterCommit,
    RevealInTree,
    /// Everything that changed is to be rolled back.
    OpenRollback,
    RevealInFinder,
    RevealInTerminal,
    OpenModal(ModalKind),
}

impl Inputs {
    pub open spec fn wf(&self) -> bool {
        &&& self.commit_editor.wf()
        &&& self.finder_query.wf()
        &&& self.plugins_query.wf()
        &&& self.name_input.wf()
        &&& self.find_query.wf()
        &&& self.replace_query.wf()
        &&& self.history_branch_query.wf()
        &&& self.history_commit_query.wf()
        &&& self.history_files_query.wf()
        &&& self.project_search.wf()
        &&& self.branch_query.wf()
        &&& self.commit_search.wf()
    }

    /// An empty line with a placeholder.
    pub open spec fn blank(e: CodeEditor, placeholder: Seq<char>) -> bool {
        e.fresh(Seq::empty(), Lang::PlainText, placeholder, true, false)
    }

    /// An empty line with a placeholder, for the find bar.
    pub open spec fn blank_find(e: CodeEditor, placeholder: Seq<char>) -> bool {
        &&& e.ctx_override.m() == Some("FindBar"@)
        &&& (CodeEditor { ctx_override: None, ..e }).fresh(
            Seq::empty(),
            Lang::PlainText,
            placeholder,
            true,
            false,
        )
    }

    fn find_line(placeholder: &str) -> (r: CodeEditor)
        ensures
            r.wf(),
            Inputs::blank_find(r, placeholder@),
    {
        let mut e = CodeEditor::single_line(placeholder);
        e.ctx_override = Some(String::from_str("FindBar"));
        e
    }

    /// Every line is empty and says what it is for.
    pub open spec fn is_new(&self) -> bool {
        &&& self.commit_editor.fill_height
        &&& self.commit_editor.soft_wrap
        &&& (CodeEditor { fill_height: false, soft_wrap: false, ..self.commit_editor }).fresh(
            Seq::empty(),
            Lang::PlainText,
            "Commit message\u{2026}"@,
            false,
            false,
        )
        &&& Inputs::blank(self.finder_query, "Type to search files\u{2026}"@)
        &&& Inputs::blank(self.plugins_query, "Search plugins\u{2026}"@)
        &&& Inputs::blank(self.name_input, "File name"@)
        &&& Inputs::blank_find(self.find_query, "Find"@)
        &&& Inputs::blank_find(self.replace_query, "Replace"@)
        &&& Inputs::blank(self.history_branch_query, "Search branches\u{2026}"@)
        &&& Inputs::blank(self.history_commit_query, "Search commits\u{2026}"@)
        &&& Inputs::blank(self.history_files_query, "Search files\u{2026}"@)
        &&& Inputs::blank(self.project_search, "Search projects"@)
        &&& Inputs::blank(self.branch_query, "Search / new branch name"@)
        &&& Inputs::blank(self.commit_search, "Search files\u{2026}"@)
    }

    pub fn new() -> (r: Self)
        ensures
            r.wf(),
            r.is_new(),
    {
        let mut commit_editor = CodeEditor::new(
            String::new(),
            Lang::PlainText,
            "Commit message\u{2026}",
        );
        commit_editor.fill_height = true;
        commit_editor.soft_wrap = true;
        Inputs {
            commit_editor,
            finder_query: CodeEditor::single_line("Type to search files\u{2026}"),
            plugins_query: CodeEditor::single_line("Search plugins\u{2026}"),
            name_input: CodeEditor::single_line("File name"),
            find_query: Inputs::find_line("Find"),
            replace_query: Inputs::find_line("Replace"),
            history_branch_query: CodeEditor::single_line("Search branches\u{2026}"),
            history_commit_query: CodeEditor::single_line("Search commits\u{2026}"),
            history_files_query: CodeEditor::single_line("Search files\u{2026}"),
            project_search: CodeEditor::single_line("Search projects"),
            branch_query: CodeEditor::single_line("Search / new branch name"),
            commit_search: CodeEditor::single_line("Search files\u{2026}"),
        }
    }
}

impl RepoInfo {
    fn take_git(
        &mut self,
        files: Vec<String>,
        branch: Option<String>,
        ahead: Option<usize>,
        behind: Option<usize>,
        push_base: String,
    )
        ensures
            *final(self) == (RepoInfo {
                all_files: files,
                scratches: old(self).scratches,
                current_branch: branch,
                ahead,
                behind,
                push_base,
            }),
    {
        self.all_files = files;
        self.current_branch = branch;
        self.ahead = ahead;
        self.behind = behind;
        self.push_base = push_base;
    }

    /// Nothing is known.
    pub open spec fn is_new(&self) -> bool {
        &&& self.all_files@.len() == 0
        &&& self.scratches@.len() == 0
        &&& self.current_branch is None
        &&& self.ahead is None
        &&& self.behind is None
        &&& self.push_base@.len() == 0
    }

    pub fn new() -> (r: Self)
        ensures
            r.is_new(),
    {
        RepoInfo {
            all_files: Vec::new(),
            scratches: Vec::new(),
            current_branch: None,
            ahead: None,
            behind: None,
            push_base: String::new(),
        }
    }
}

impl Kyde {
    pub open spec fn wf(&self) -> bool {
        &&& self.panes.wf()
        &&& self.inputs.wf()
        &&& self.file_editor.wf()
        &&& self.terminals.wf()
    }

    /// The program as it starts, with a project or without. The project is to be read then.
    pub fn new(
        root: Option<&str>,
        keymap: Keymap,
        first_run: bool,
        plugins: Plugins,
        crash: Option<String>,
        terminal_maximized: bool,
    ) -> (r: Self)
        ensures
            r.wf(),
            r.workspace.m().repo_root == (match root {
                Some(p) => Some(p@),
                None => None,
            }),
            r.workspace.m().open_projects == (match root {
                Some(p) => seq![p@],
                None => Seq::empty(),
            }),
            r.workspace.mode == Mode::Browse,
            r.workspace.open_path is None,
            r.workspace.open_tabs@.len() == 0,
            r.workspace.expanded@ == workspace::root_only(),
            r.workspace.selected_path is None,
            r.workspace.sessions@.len() == 0,
            r.workspace.selected is None,
            r.changes.m() == changes::no_changes(),
            r.inputs.is_new(),
            r.repo.is_new(),
            r.panes.is_new(),
            r.finder.is_new(),
            r.find.is_new(),
            r.history.is_new(),
            !r.ops.pushing && !r.ops.pulling && !r.ops.fetching && !r.ops.committing
                && !r.ops.updating && r.ops.push_msg is None && r.ops.op_error is None,
            r.overlays.m() == (OverlaysModel {
                context_menu: false,
                branch_popup_open: false,
                branch_expanded: Set::empty(),
                onboarding_open: first_run,
                onboarding_forced: first_run,
                onboarding_choice: keymap.preset,
                delete_target: None,
                name_prompt: None,
                new_branch_checkout: true,
                new_branch_overwrite: false,
            }),
            forall|k: ModalKind| !(#[trigger] r.modals.has(k)),
            r.terminals.tabs@.len() == 0,
            !r.terminals.open,
            r.terminals.maximized == terminal_maximized,
            r.plugins == plugins,
            r.ignored_packs@ == Set::<Seq<char>>::empty(),
            r.keymap == keymap,
            r.file_editor.fresh(Seq::empty(), Lang::PlainText, Seq::empty(), false, false),
            match crash {
                Some(c) => r.pending_crash == (if text::trim(c@).len() == 0 {
                    None
                } else {
                    Some(c)
                }),
                None => r.pending_crash is None,
            },
            r.diff_edits@ == 0,
            r.refreshes@ == 0,
    {
        proof {
            reveal_strlit("");
            assert(""@ =~= Seq::<char>::empty());
        }
        let preset = keymap.preset;
        let workspace = Workspace::new(root);
        let pending_crash = match crash {
            Some(c) => if text::trim_str(c.as_str()).as_str().is_empty() {
                None
            } else {
                Some(c)
            },
            None => None,
        };
        let changes = Changes::new();
        proof {
            assert(workspace.m().open_tabs.len() == workspace.open_tabs@.len());
            assert(workspace.m().sessions.len() == workspace.sessions@.len());
            assert(changes.m() =~= changes::no_changes());
        }
        Kyde {
            workspace,
            changes,
            panes: DiffPanes::new(),
            finder: Finder::new(),
            find: FindBar::new(),
            history: History::new(),
            ops: Operations::new(),
            overlays: Overlays::new(first_run, preset),
            modals: Modals::new(),
            terminals: Terminals::new(terminal_maximized),
            plugins,
            ignored_packs: TextSet::new(),
            keymap,
            inputs: Inputs::new(),
            repo: RepoInfo::new(),
            file_editor: CodeEditor::new(String::new(), Lang::PlainText, ""),
            pending_crash,
            diff_edits: Debounce::new(),
            refreshes: Debounce::new(),
        }
    }

    /// What was read of the active project.
    pub open spec fn took(&self, was: &Self, state: ProjectState) -> bool {
        &&& *self == (Kyde {
            changes: self.changes,
            ops: self.ops,
            repo: self.repo,
            ..*was
        })
        &&& self.changes == (Changes {
            files: self.changes.files,
            push_files: self.changes.push_files,
            ..was.changes
        })
        &&& self.repo.scratches == was.repo.scratches
        &&& match state {
            ProjectState::Git(g) => {
                &&& self.repo.all_files == g.files
                &&& self.repo.current_branch == g.branch
                &&& self.repo.ahead == g.ahead
                &&& self.repo.behind == g.behind
                &&& self.repo.push_base == g.push_base
                &&& self.changes.push_files == g.push_files
                &&& self.changes.files == (match g.status {
                    Ok(files) => files,
                    Err(_) => was.changes.files,
                })
                &&& self.ops.m() == (OperationsModel {
                    op_error: match g.status {
                        Ok(_) => None,
                        Err(e) => Some(operations::failed_text("Reading status"@, e@)),
                    },
                    ..was.ops.m()
                })
            },
            ProjectState::Plain(files) => {
                &&& self.repo.all_files == files
                &&& self.repo.current_branch is None
                &&& self.repo.ahead is None
                &&& self.repo.behind == was.repo.behind
                &&& self.repo.push_base == was.repo.push_base
                &&& self.changes.push_files@.len() == 0
                &&& self.changes.files@.len() == 0
                &&& self.ops.m() == (OperationsModel { op_error: None, ..was.ops.m() })
            },
            ProjectState::Absent => *self == *was,
        }
    }

    fn take_status(&mut self, status: Result<Vec<ChangedFile>, String>)
        ensures
            *final(self) == (Kyde {
                changes: Changes { files: final(self).changes.files, ..old(self).changes },
                ops: final(self).ops,
                ..*old(self)
            }),
            final(self).changes.files == (match status {
                Ok(files) => files,
                Err(_) => old(self).changes.files,
            }),
            final(self).ops.m() == (OperationsModel {
                op_error: match status {
                    Ok(_) => None,
                    Err(e) => Some(operations::failed_text("Reading status"@, e@)),
                },
                ..old(self).ops.m()
            }),
    {
        match status {
            Ok(files) => {
                self.changes.files = files;
                self.ops.status_read(None);
            },
            Err(e) => {
                self.ops.status_read(Some(e.as_str()));
            },
        }
    }

    fn take_state(&mut self, state: ProjectState)
        ensures
            final(self).took(old(self), state),
    {
        match state {
            ProjectState::Git(g) => {
                self.take_status(g.status);
                self.repo.take_git(g.files, g.branch, g.ahead, g.behind, g.push_base);
                self.changes.push_files = g.push_files;
            },
            ProjectState::Plain(files) => {
                self.changes.files = Vec::new();
                self.changes.push_files = Vec::new();
                self.repo.current_branch = None;
                self.repo.ahead = None;
                self.ops.dismiss_op_error();
                self.repo.all_files = files;
            },
            ProjectState::Absent => {},
        }
    }

    /// The active project was read. Returns the changed file whose diff is to be read: the
    /// selected one, else the first. Without one, no diff is shown.
    pub fn refresh(&mut self, state: ProjectState, scratches: Option<Vec<String>>) -> (r: Option<
        usize,
    >)
        requires
            old(self).wf(),
        ensures
            final(self).wf(),
            exists|mid: Kyde| #[trigger]
                mid.took(old(self), state) && *final(self) == (Kyde {
                    changes: final(self).changes,
                    panes: final(self).panes,
                    repo: RepoInfo {
                        scratches: match scratches {
                            Some(s) => s,
                            None => old(self).repo.scratches,
                        },
                        ..mid.repo
                    },
                    ..mid
                }) && final(self).changes.files == mid.changes.files
                    && final(self).changes.push_files == mid.changes.push_files,
            final(self).changes.m() == (ChangesModel {
                files: final(self).changes.models(),
                push_files: porcelain::changed_models(final(self).changes.push_files@),
                selected: if r is None {
                    None
                } else {
                    old(self).changes.selected
                },
                commit_expanded: changes::open_dirs(final(self).changes.paths()),
                commit_checked: old(self).changes.commit_checked@.intersect(
                    pathset::path_set(final(self).changes.paths()),
                ),
                ..old(self).changes.m()
            }),
            // The selection.
            match r {
                Some(i) => ({
                    &&& final(self).changes.files@.len() > 0
                    &&& i == changes::in_range_or_first(
                        old(self).changes.selected,
                        final(self).changes.files@.len(),
                    )
                    &&& final(self).panes == old(self).panes
                }),
                None => ({
                    &&& final(self).changes.files@.len() == 0
                    &&& final(self).panes.no_diff()
                    &&& final(self).panes.left == old(self).panes.left
                    &&& final(self).panes.right == old(self).panes.right
                    &&& final(self).panes.path == old(self).panes.path
                    &&& final(self).panes.image == old(self).panes.image
                    &&& final(self).panes.readonly == old(self).panes.readonly
                    &&& final(self).panes.base == old(self).panes.base
                }),
            },
    {
        self.take_state(state);
        let ghost mid = *self;
        if let Some(s) = scratches {
            self.repo.scratches = s;
        }
        self.rebuild();
        match self.changes.refreshed_selection() {
            Some(i) => {
                assert(mid.took(old(self), state));
                Some(i)
            },
            None => {
                self.changes.selected = None;
                self.panes.diff = None;
                self.panes.old_spans = Vec::new();
                self.panes.new_spans = Vec::new();
                assert(mid.took(old(self), state));
                None
            },
        }
    }

    fn rebuild(&mut self)
        ensures
            *final(self) == (Kyde { changes: final(self).changes, ..*old(self) }),
            final(self).changes.files == old(self).changes.files,
            final(self).changes.push_files == old(self).changes.push_files,
            final(self).changes.m() == (ChangesModel {
                commit_expanded: changes::open_dirs(old(self).changes.paths()),
                commit_checked: old(self).changes.commit_checked@.intersect(
                    pathset::path_set(old(self).changes.paths()),
                ),
                ..old(self).changes.m()
            }),
    {
        self.changes.rebuild_commit_view(false);
    }

    /// Opens a project, or switches to it.
    pub fn open_project(&mut self, root: &str) -> (r: Follow)
        ensures
            ({
                let was = WorkspaceModel {
                    selected: old(self).changes.selected.m(),
                    ..old(self).workspace.m()
                };
                &&& final(self).workspace.m() == was.opened(root@)
                &&& r.m() == was.saved().load_follow(root@)
            }),
            final(self).changes.selected == final(self).workspace.selected,
            final(self).changes == (Changes {
                selected: final(self).workspace.selected,
                ..old(self).changes
            }),
            *final(self) == (Kyde {
                workspace: final(self).workspace,
                changes: final(self).changes,
                ..*old(self)
            }),
    {
        self.workspace.selected = self.changes.selected;
        let f = self.workspace.open_project(root);
        self.changes.selected = self.workspace.selected;
        f
    }

    /// Closes a project.
    pub fn close_project(&mut self, root: &str) -> (r: Follow)
        ensures
            ({
                let was = WorkspaceModel {
                    selected: old(self).changes.selected.m(),
                    ..old(self).workspace.m()
                };
                (final(self).workspace.m(), r.m()) == was.project_closed(root@)
            }),
            final(self).changes == (Changes {
                selected: final(self).workspace.selected,
                ..old(self).changes
            }),
            *final(self) == (Kyde {
                workspace: final(self).workspace,
                changes: final(self).changes,
                ..*old(self)
            }),
    {
        self.workspace.selected = self.changes.selected;
        let f = self.workspace.close_project(root);
        self.changes.selected = self.workspace.selected;
        f
    }

    /// Opens a file with its text; an image or a font has none that is edited. Returns the
    /// position of its tab.
    pub fn open_file(&mut self, rel: &str, content: Option<String>) -> (r: usize)
        requires
            old(self).wf(),
        ensures
            final(self).wf(),
            final(self).workspace.m() == old(self).workspace.m().file_opened(rel@),
            path::position_from(final(self).workspace.m().open_tabs, rel@, 0) == Some(r as int),
            *final(self) == (Kyde {
                workspace: final(self).workspace,
                file_editor: final(self).file_editor,
                ..*old(self)
            }),
            match content {
                Some(s) => final(self).file_editor.loaded_from(
                    old(self).file_editor,
                    s@,
                    plugins::effective(old(self).plugins@, highlight::lang_of_path(rel@)),
                ),
                None => final(self).file_editor == old(self).file_editor,
            },
    {
        if let Some(s) = content {
            let lang = self.plugins.effective_lang(rel);
            self.file_editor.set_content(s, lang);
        }
        self.workspace.open_file(rel)
    }

    /// Closes the tab at `idx`. With the last tab the editor is emptied.
    pub fn close_tab(&mut self, idx: usize) -> (r: Follow)
        requires
            old(self).wf(),
        ensures
            final(self).wf(),
            (final(self).workspace.m(), r.m()) == old(self).workspace.m().tab_closed(idx as int),
            *final(self) == (Kyde {
                workspace: final(self).workspace,
                overlays: final(self).overlays,
                file_editor: final(self).file_editor,
                ..*old(self)
            }),
            final(self).overlays.m() == (if idx < old(self).workspace.open_tabs@.len() {
                OverlaysModel { context_menu: false, ..old(self).overlays.m() }
            } else {
                old(self).overlays.m()
            }),
            r is Clear ==> final(self).file_editor.loaded_from(
                old(self).file_editor,
                Seq::empty(),
                Lang::PlainText,
            ),
            !(r is Clear) ==> final(self).file_editor == old(self).file_editor,
    {
        if idx >= self.workspace.open_tabs.len() {
            return Follow::Nothing;
        }
        let f = self.workspace.close_tab(idx);
        if let Follow::Clear = &f {
            self.file_editor.set_content(String::new(), Lang::PlainText);
        }
        self.overlays.close_menu();
        f
    }

    /// The open file was edited and its text is written to disk. Returns what is written where;
    /// the file counts as changed at once.
    pub fn autosave(&mut self) -> (r: Option<(String, String)>)
        requires
            old(self).wf(),
        ensures
            final(self).wf(),
            *final(self) == (Kyde {
                changes: final(self).changes,
                file_editor: final(self).file_editor,
                refreshes: final(self).refreshes,
                ..*old(self)
            }),
            match r {
                None => old(self).workspace.open_path is None && *final(self) == *old(self),
                Some((p, s)) => ({
                    &&& old(self).workspace.open_path.m() == Some(p@)
                    &&& s@ == old(self).file_editor.content@
                    &&& final(self).file_editor == (CodeEditor {
                        dirty: false,
                        ..old(self).file_editor
                    })
                    &&& final(self).changes == (Changes {
                        files: final(self).changes.files,
                        ..old(self).changes
                    })
                    &&& final(self).changes.models() == changes::with_modified(
                        old(self).changes.models(),
                        p@,
                    )
                    &&& final(self).refreshes@ == operations::next_event(old(self).refreshes@)
                }),
            },
    {
        let p = match &self.workspace.open_path {
            Some(p) => p.clone(),
            None => {
                return None;
            },
        };
        let s = String::from_str(self.file_editor.text());
        self.file_editor.dirty = false;
        self.changes.mark_modified(p.as_str());
        let _ = self.refreshes.bump();
        Some((p, s))
    }

    /// The window has the focus again, and the open file was read from disk. Its text replaces
    /// that of the editor if it is another one and nothing was edited. Returns whether it does.
    pub fn reload_external(&mut self, on_disk: Option<String>) -> (r: bool)
        requires
            old(self).wf(),
        ensures
            final(self).wf(),
            *final(self) == (Kyde { file_editor: final(self).file_editor, ..*old(self) }),
            r == (old(self).workspace.open_path is Some && !old(self).file_editor.dirty
                && on_disk is Some && on_disk->0@ != old(self).file_editor.content@),
            !r ==> final(self).file_editor == old(self).file_editor,
            r ==> final(self).file_editor.loaded_from(
                old(self).file_editor,
                on_disk->0@,
                plugins::effective(
                    old(self).plugins@,
                    highlight::lang_of_path(old(self).workspace.open_path->0@),
                ),
            ),
    {
        if self.file_editor.dirty {
            return false;
        }
        let lang = match &self.workspace.open_path {
            Some(p) => self.plugins.effective_lang(p.as_str()),
            None => {
                return false;
            },
        };
        match on_disk {
            Some(s) => {
                if text::str_eq(s.as_str(), self.file_editor.text()) {
                    return false;
                }
                self.file_editor.set_content(s, lang);
                true
            },
            None => false,
        }
    }

    /// A changed file is selected, with what there is to show of it. Without `panes` only what is
    /// known of the diff changes. Returns the row to scroll to.
    pub fn select_with(&mut self, idx: usize, content: Content, panes: bool) -> (r: Option<usize>)
        requires
            old(self).wf(),
        ensures
            final(self).wf(),
            *final(self) == (Kyde {
                changes: final(self).changes,
                panes: final(self).panes,
                ..*old(self)
            }),
            final(self).changes.m() == (ChangesModel {
                selected: Some(idx),
                commit_focus: Set::empty(),
                ..old(self).changes.m()
            }),
            final(self).changes.files == old(self).changes.files,
            idx >= old(self).changes.files@.len() ==> r is None && final(self).panes == old(
                self,
            ).panes,
            idx < old(self).changes.files@.len() ==> ({
                let p = old(self).changes.files@[idx as int].path@;
                let lang = plugins::effective(old(self).plugins@, highlight::lang_of_path(p));
                final(self).panes.selected(&old(self).panes, p, content, lang, panes, r)
            }),
    {
        self.changes.select(idx);
        if idx >= self.changes.files.len() {
            return None;
        }
        let p = self.changes.files[idx].path.clone();
        let lang = self.plugins.effective_lang(p.as_str());
        self.panes.select_with(p.as_str(), content, lang, panes)
    }

    /// A file to push is selected, with its text in the base and in the last commit. Returns the
    /// row to scroll to.
    pub fn select_push_file(&mut self, idx: usize, before: String, after: String) -> (r: Option<
        usize,
    >)
        requires
            old(self).wf(),
        ensures
            final(self).wf(),
            *final(self) == (Kyde {
                changes: final(self).changes,
                panes: final(self).panes,
                ..*old(self)
            }),
            final(self).changes == (Changes { push_selected: Some(idx), ..old(self).changes }),
            idx >= old(self).changes.push_files@.len() ==> r is None && final(self).panes == old(
                self,
            ).panes,
            idx < old(self).changes.push_files@.len() ==> ({
                let p = old(self).changes.push_files@[idx as int].path@;
                let lang = plugins::effective(old(self).plugins@, highlight::lang_of_path(p));
                &&& final(self).panes.loaded(&old(self).panes, p, before@, after@, lang, true)
                &&& final(self).panes.image == old(self).panes.image
                &&& final(self).panes.first_row_is(r, before@, after@)
            }),
    {
        self.changes.push_selected = Some(idx);
        if idx >= self.changes.push_files.len() {
            return None;
        }
        let p = self.changes.push_files[idx].path.clone();
        let lang = self.plugins.effective_lang(p.as_str());
        self.panes.load_diff_panes(p.as_str(), before, after, lang, true)
    }

    /// The language of the file in the diff panes.
    fn pane_lang(&self) -> (r: Lang)
        ensures
            r == match self.panes.path {
                Some(p) => plugins::effective(self.plugins@, highlight::lang_of_path(p@)),
                None => Lang::PlainText,
            },
    {
        match &self.panes.path {
            Some(p) => self.plugins.effective_lang(p.as_str()),
            None => Lang::PlainText,
        }
    }

    /// The right side of the diff was edited, its text was written to disk and the changed files
    /// were read: the diff is made anew.
    pub fn diff_edited(&mut self, files: Option<Vec<ChangedFile>>)
        requires
            old(self).wf(),
        ensures
            final(self).wf(),
            *final(self) == (Kyde {
                changes: final(self).changes,
                panes: final(self).panes,
                ..*old(self)
            }),
            final(self).changes.files == (match files {
                Some(f) => f,
                None => old(self).changes.files,
            }),
            final(self).panes.diffs(
                old(self).panes.base@,
                old(self).panes.right.content@,
                match old(self).panes.path {
                    Some(p) => plugins::effective(old(self).plugins@, highlight::lang_of_path(p@)),
                    None => Lang::PlainText,
                },
            ),
            final(self).panes.left == old(self).panes.left,
            final(self).panes.right == old(self).panes.right,
            final(self).panes.path == old(self).panes.path,
            final(self).panes.image == old(self).panes.image,
            final(self).panes.readonly == old(self).panes.readonly,
            final(self).panes.base == old(self).panes.base,
            final(self).changes.m() == (ChangesModel {
                files: final(self).changes.models(),
                commit_expanded: changes::open_dirs(final(self).changes.paths()),
                commit_checked: old(self).changes.commit_checked@.intersect(
                    pathset::path_set(final(self).changes.paths()),
                ),
                ..old(self).changes.m()
            }),
    {
        self.rediff();
        if let Some(f) = files {
            self.changes.files = f;
        }
        self.rebuild();
    }

    /// The diff of what the panes hold is made anew.
    fn rediff(&mut self)
        requires
            old(self).wf(),
        ensures
            final(self).wf(),
            *final(self) == (Kyde {
                panes: DiffPanes {
                    diff: final(self).panes.diff,
                    old_spans: final(self).panes.old_spans,
                    new_spans: final(self).panes.new_spans,
                    ..old(self).panes
                },
                ..*old(self)
            }),
            final(self).panes.diffs(
                old(self).panes.base@,
                old(self).panes.right.content@,
                match old(self).panes.path {
                    Some(p) => plugins::effective(old(self).plugins@, highlight::lang_of_path(p@)),
                    None => Lang::PlainText,
                },
            ),
    {
        let s = String::from_str(self.panes.right.text());
        let lang = self.pane_lang();
        self.panes.recompute_diff(s.as_str(), lang);
    }

    /// After the last change was undone there is nothing left to commit: the files are shown.
    pub fn exit_commit_if_clean(&mut self)
        ensures
            *final(self) == (Kyde { workspace: final(self).workspace, ..*old(self) }),
            final(self).workspace == (Workspace {
                mode: if old(self).workspace.mode == Mode::Commit && old(
                    self,
                ).changes.files@.len() == 0 {
                    Mode::Browse
                } else {
                    old(self).workspace.mode
                },
                ..old(self).workspace
            }),
    {
        if self.workspace.mode == Mode::Commit && self.changes.files.len() == 0 {
            self.workspace.mode = Mode::Browse;
        }
    }

    /// The commit view is entered, with what was read of the repository. Returns what the diff
    /// panes show; with nothing to show they are emptied.
    pub fn enter_commit(
        &mut self,
        read: Option<(Vec<ChangedFile>, String, Vec<ChangedFile>)>,
    ) -> (r: Show)
        requires
            old(self).wf(),
        ensures
            final(self).wf(),
            *final(self) == (Kyde {
                workspace: final(self).workspace,
                changes: final(self).changes,
                panes: final(self).panes,
                repo: final(self).repo,
                ..*old(self)
            }),
            final(self).workspace == (Workspace { mode: Mode::Commit, ..old(self).workspace }),
            match read {
                Some((files, base, push)) => final(self).changes.files@ == files@
                    && final(self).changes.push_files@ == push@ && final(self).repo == (RepoInfo {
                    push_base: base,
                    ..old(self).repo
                }),
                None => final(self).changes.files@ == old(self).changes.files@
                    && final(self).changes.push_files@ == old(self).changes.push_files@
                    && final(self).repo == old(self).repo,
            },
            final(self).changes.m() == (ChangesModel {
                files: final(self).changes.models(),
                push_files: porcelain::changed_models(final(self).changes.push_files@),
                selected: if r == Show::Nothing {
                    None
                } else {
                    old(self).changes.selected
                },
                commit_expanded: changes::open_dirs(final(self).changes.paths()),
                commit_checked: pathset::path_set(final(self).changes.paths()),
                git_tab: if final(self).changes.files@.len() == 0
                    && final(self).changes.push_files@.len() > 0 {
                    GitTab::Push
                } else {
                    GitTab::Commit
                },
                focus_commit_msg: true,
                ..old(self).changes.m()
            }),
            r == (if final(self).changes.git_tab == GitTab::Push {
                Show::Pushed(0)
            } else if final(self).changes.files@.len() == 0 {
                Show::Nothing
            } else {
                Show::Changed(
                    entry_of(
                        final(self).changes.paths(),
                        old(self).workspace.open_path.m(),
                        old(self).changes.selected,
                    ),
                )
            }),
            r == Show::Nothing ==> {
                let (left, right) = (final(self).panes.left, final(self).panes.right);
                &&& left.loaded_from(old(self).panes.left, Seq::empty(), Lang::PlainText)
                &&& right.loaded_from(old(self).panes.right, Seq::empty(), Lang::PlainText)
                &&& final(self).panes == (DiffPanes { left, right, path: None, ..old(self).panes })
            },
            r != Show::Nothing ==> final(self).panes == old(self).panes,
    {
        self.workspace.mode = Mode::Commit;
        if let Some((files, base, push)) = read {
            self.changes.files = files;
            self.repo.push_base = base;
            self.changes.push_files = push;
        }
        let show = match &self.workspace.open_path {
            Some(p) => self.changes.enter_commit(Some(p.as_str())),
            None => self.changes.enter_commit(None),
        };
        if show == Show::Nothing {
            self.panes.path = None;
            proof {
                reveal_strlit("");
                assert(""@ =~= Seq::<char>::empty());
            }
            self.panes.left.set_content(String::new(), Lang::PlainText);
            self.panes.right.set_content(String::new(), Lang::PlainText);
        }
        show
    }

    /// What lies at or below a path is to be committed. Returns the file whose diff is shown, if
    /// anything changed there.
    pub fn menu_commit_path(&mut self, p: &str) -> (r: Option<usize>)
        ensures
            *final(self) == (Kyde {
                workspace: final(self).workspace,
                changes: final(self).changes,
                overlays: final(self).overlays,
                ..*old(self)
            }),
            final(self).overlays.m() == (OverlaysModel {
                context_menu: false,
                ..old(self).overlays.m()
            }),
            r is Some <==> exists|i: int|
                0 <= i < old(self).changes.models().len() && path::lies_under(
                    (#[trigger] old(self).changes.models()[i]).path,
                    p@,
                ),
            r is None ==> final(self).workspace == old(self).workspace && final(self).changes
                == old(self).changes,
            r matches Some(first) ==> ({
                &&& final(self).workspace == (Workspace {
                    mode: Mode::Commit,
                    ..old(self).workspace
                })
                &&& first < old(self).changes.files@.len()
                &&& path::lies_under(old(self).changes.models()[first as int].path, p@)
                &&& forall|i: int|
                    0 <= i < first ==> !path::lies_under(
                        (#[trigger] old(self).changes.models()[i]).path,
                        p@,
                    )
                &&& final(self).changes.m() == (ChangesModel {
                    selected: Some(first),
                    commit_focus: changes::paths_under(old(self).changes.models(), p@),
                    commit_checked: changes::paths_under(old(self).changes.models(), p@),
                    commit_expanded: changes::open_dirs(old(self).changes.paths()),
                    ..old(self).changes.m()
                })
            }),
    {
        self.overlays.close_menu();
        let r = self.changes.menu_commit_path(p);
        if r.is_some() {
            self.workspace.mode = Mode::Commit;
        }
        r
    }

    /// The escape key. Returns what it closes.
    pub fn act_escape(&mut self) -> (r: Escape)
        ensures
            r == overlays::escaped(
                old(self).overlays.m(),
                old(self).find.open,
                old(self).workspace.mode,
            ),
            *final(self) == (Kyde {
                overlays: final(self).overlays,
                find: final(self).find,
                workspace: final(self).workspace,
                ..*old(self)
            }),
            r == Escape::Find ==> {
                &&& !final(self).find.open
                &&& final(self).find.matches@.len() == 0
                &&& final(self).find == (FindBar {
                    open: false,
                    matches: final(self).find.matches,
                    ..old(self).find
                })
            },
            r != Escape::Find ==> final(self).find == old(self).find,
            final(self).workspace == (Workspace {
                mode: if r == Escape::CommitView {
                    Mode::Browse
                } else {
                    old(self).workspace.mode
                },
                ..old(self).workspace
            }),
            final(self).overlays.m() == match r {
                Escape::Menu => OverlaysModel { context_menu: false, ..old(self).overlays.m() },
                Escape::Delete => OverlaysModel { delete_target: None, ..old(self).overlays.m() },
                Escape::Branches => OverlaysModel {
                    branch_popup_open: false,
                    ..old(self).overlays.m()
                },
                Escape::Onboarding => OverlaysModel {
                    onboarding_open: false,
                    ..old(self).overlays.m()
                },
                _ => old(self).overlays.m(),
            },
    {
        let r = self.overlays.act_escape(self.find.open, self.workspace.mode);
        match r {
            Escape::Find => {
                self.find.close_find();
            },
            Escape::CommitView => {
                self.workspace.mode = Mode::Browse;
            },
            _ => {},
        }
        r
    }

    /// A name was given. Returns what is to be done on disk.
    pub fn confirm_name_prompt(&mut self) -> (r: Named)
        ensures
            r.m() == overlays::named(
                old(self).overlays.m().name_prompt,
                old(self).inputs.name_input.content@,
            ),
            *final(self) == (Kyde { overlays: final(self).overlays, ..*old(self) }),
            final(self).overlays.m() == (OverlaysModel {
                name_prompt: None,
                ..old(self).overlays.m()
            }),
    {
        self.overlays.confirm_name_prompt(self.inputs.name_input.text())
    }

    /// A file was renamed on disk. Returns whether it is to be opened anew under its new name.
    pub fn renamed(&mut self, from: &str, to: &str) -> (r: bool)
        ensures
            *final(self) == (Kyde { workspace: final(self).workspace, ..*old(self) }),
            final(self).workspace.m() == old(self).workspace.m().renamed(from@, to@),
            r == workspace::same_opt(old(self).workspace.m().open_path, from@),
    {
        self.workspace.renamed(from, to)
    }

    /// The path that was asked about is deleted. Returns where it lies on disk, and whether it is
    /// a directory.
    pub fn do_delete(&mut self) -> (r: Option<(String, bool)>)
        ensures
            *final(self) == (Kyde {
                workspace: final(self).workspace,
                overlays: final(self).overlays,
                ..*old(self)
            }),
            final(self).overlays.m() == (OverlaysModel {
                delete_target: None,
                ..old(self).overlays.m()
            }),
            match old(self).overlays.m().delete_target {
                None => r is None && final(self).workspace == old(self).workspace,
                Some((p, d)) => ({
                    &&& r matches Some((abs, is_dir)) && is_dir == d && abs@ == overlays::on_disk(
                        old(self).workspace.repo_root.m(),
                        p,
                    )
                    &&& final(self).workspace.m() == old(self).workspace.m().deleted(p)
                }),
            },
    {
        match self.overlays.take_delete() {
            None => None,
            Some((p, d)) => {
                let abs = match &self.workspace.repo_root {
                    Some(root) => overlays::path_on_disk(Some(root.as_str()), p.as_str()),
                    None => overlays::path_on_disk(None, p.as_str()),
                };
                self.workspace.deleted(p.as_str());
                Some((abs, d))
            },
        }
    }

    /// The selected row of the tree is to be deleted. Returns it.
    pub fn act_delete_file(&self) -> (r: Option<String>)
        ensures
            r.m() == if self.workspace.mode == Mode::Browse {
                self.workspace.selected_path.m()
            } else {
                None
            },
    {
        if self.workspace.mode != Mode::Browse {
            return None;
        }
        match &self.workspace.selected_path {
            Some(p) => Some(p.clone()),
            None => None,
        }
    }

    /// An action of the palette, which closes the finder. Returns what is left to do.
    pub fn run_palette(&mut self, a: PaletteAction) -> (r: Command)
        ensures
            *final(self) == (Kyde {
                finder: final(self).finder,
                workspace: final(self).workspace,
                overlays: final(self).overlays,
                ..*old(self)
            }),
            final(self).finder == (Finder { open: false, ..old(self).finder }),
            final(self).workspace == (Workspace {
                mode: if a == PaletteAction::BrowseView {
                    Mode::Browse
                } else {
                    old(self).workspace.mode
                },
                ..old(self).workspace
            }),
            final(self).overlays.m() == (if a == PaletteAction::Settings {
                OverlaysModel {
                    onboarding_choice: old(self).keymap.preset,
                    onboarding_open: true,
                    ..old(self).overlays.m()
                }
            } else {
                old(self).overlays.m()
            }),
            r == command_of(a),
    {
        self.finder.open = false;
        match a {
            PaletteAction::GoToFile => Command::OpenFinder(FinderMode::Files),
            PaletteAction::FindInFiles => Command::OpenFinder(FinderMode::Content),
            PaletteAction::NewScratch => Command::OpenFinder(FinderMode::Scratch),
            PaletteAction::CommitView => Command::EnterCommit,
            PaletteAction::BrowseView => {
                self.workspace.mode = Mode::Browse;
                Command::Nothing
            },
            PaletteAction::SelectInTree => Command::RevealInTree,
            PaletteAction::Rollback => Command::OpenRollback,
            PaletteAction::Settings => {
                self.overlays.open_keymap(self.keymap.preset);
                Command::Nothing
            },
            PaletteAction::RevealInFinder => Command::RevealInFinder,
            PaletteAction::RevealInTerminal => Command::RevealInTerminal,
            PaletteAction::Plugins => Command::OpenModal(ModalKind::Plugins),
            PaletteAction::Fonts => Command::OpenModal(ModalKind::Fonts),
        }
    }

    /// A preset is chosen, which replaces all overrides.
    pub fn choose_preset(&mut self, preset: Preset)
        ensures
            *final(self) == (Kyde {
                keymap: final(self).keymap,
                overlays: final(self).overlays,
                ..*old(self)
            }),
            final(self).keymap.preset == preset,
            final(self).keymap.overrides@ == Map::<Seq<char>, Seq<char>>::empty(),
            final(self).overlays.m() == (OverlaysModel {
                onboarding_open: false,
                onboarding_forced: false,
                ..old(self).overlays.m()
            }),
    {
        self.keymap.set_preset(preset);
        self.overlays.close_onboarding();
    }
}

/// The file that is shown when the commit view is entered: the open one, else the selected one,
/// else the first.
pub open spec fn entry_of(
    paths: Seq<Seq<char>>,
    open_path: Option<Seq<char>>,
    selected: Option<usize>,
) -> usize {
    match open_path {
        Some(p) => match path::position_from(paths, p, 0) {
            Some(i) => i as usize,
            None => changes::in_range_or_first(selected, paths.len()),
        },
        None => changes::in_range_or_first(selected, paths.len()),
    }
}

/// The commit view is entered at the open file if it is among the changed ones, else at the
/// selected one if there is one, else at the first.
pub proof fn lemma_entry_of(
    paths: Seq<Seq<char>>,
    open_path: Option<Seq<char>>,
    selected: Option<usize>,
)
    requires
        0 < paths.len() <= usize::MAX,
    ensures
        ({
            let i = entry_of(paths, open_path, selected) as int;
            let among = open_path matches Some(p) && exists|k: int|
                0 <= k < paths.len() && path::same(#[trigger] paths[k], p);
            &&& 0 <= i < paths.len()
            &&& among ==> path::same(paths[i], open_path->0)
            &&& !among && selected is Some && selected->0 < paths.len() ==> i == selected->0
            &&& !among && !(selected is Some && selected->0 < paths.len()) ==> i == 0
        }),
{
    if let Some(p) = open_path {
        path::lemma_position(paths, p, 0);
    }
}

/// What is left to do for an action of the palette.
pub open spec fn command_of(a: PaletteAction) -> Command {
    match a {
        PaletteAction::GoToFile => Command::OpenFinder(FinderMode::Files),
        PaletteAction::FindInFiles => Command::OpenFinder(FinderMode::Content),
        PaletteAction::NewScratch => Command::OpenFinder(FinderMode::Scratch),
        PaletteAction::CommitView => Command::EnterCommit,
        PaletteAction::BrowseView => Command::Nothing,
        PaletteAction::SelectInTree => Command::RevealInTree,
        PaletteAction::Rollback => Command::OpenRollback,
        PaletteAction::Settings => Command::Nothing,
        PaletteAction::RevealInFinder => Command::RevealInFinder,
        PaletteAction::RevealInTerminal => Command::RevealInTerminal,
        PaletteAction::Plugins => Command::OpenModal(ModalKind::Plugins),
        PaletteAction::Fonts => Command::OpenModal(ModalKind::Fonts),
    }
}

/// What each command is for: no action of the palette leads to that of another.
pub proof fn lemma_commands(a: PaletteAction)
    ensures
        command_of(a) == Command::OpenFinder(FinderMode::Files) <==> a == PaletteAction::GoToFile,
        command_of(a) == Command::OpenFinder(FinderMode::Content) <==> a
            == PaletteAction::FindInFiles,
        command_of(a) == Command::OpenFinder(FinderMode::Scratch) <==> a
            == PaletteAction::NewScratch,
        command_of(a) != Command::OpenFinder(FinderMode::Actions),
        command_of(a) == Command::EnterCommit <==> a == PaletteAction::CommitView,
        command_of(a) == Command::RevealInTree <==> a == PaletteAction::SelectInTree,
        command_of(a) == Command::OpenRollback <==> a == PaletteAction::Rollback,
        command_of(a) == Command::RevealInFinder <==> a == PaletteAction::RevealInFinder,
        command_of(a) == Command::RevealInTerminal <==> a == PaletteAction::RevealInTerminal,
        command_of(a) == Command::OpenModal(ModalKind::Plugins) <==> a == PaletteAction::Plugins,
        command_of(a) == Command::OpenModal(ModalKind::Fonts) <==> a == PaletteAction::Fonts,
        command_of(a) == Command::Nothing <==> a == PaletteAction::BrowseView || a
            == PaletteAction::Settings,
{
}

} // verus!
