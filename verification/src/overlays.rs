//! What lies over the main area: menus, popups, prompts and windows of their own.

use crate::collections::TextSet;
use crate::keymap::Preset;
use crate::model::Modeled;
use crate::path;
use crate::text;
use crate::workspace::Mode;
use vstd::prelude::*;

verus! {

broadcast use vstd::seq_lib::group_seq_properties;

/// What a name is asked for.
pub enum NamePrompt {
    /// A new file in this directory.
    NewFile(String),
    /// Another name for this file.
    Rename(String),
}

/// What comes of a name that was given.
pub enum Named {
    /// There was no prompt, or the name is blank.
    Nothing,
    /// A file is created.
    Create(String),
    Rename { from: String, to: String },
}

#[verifier::ext_equal]
pub enum PromptModel {
    NewFile(Seq<char>),
    Rename(Seq<char>),
}

#[verifier::ext_equal]
pub enum NamedModel {
    Nothing,
    Create(Seq<char>),
    Rename(Seq<char>, Seq<char>),
}

impl Modeled for NamePrompt {
    type M = PromptModel;

    open spec fn m(&self) -> PromptModel {
        match self {
            NamePrompt::NewFile(d) => PromptModel::NewFile(d@),
            NamePrompt::Rename(p) => PromptModel::Rename(p@),
        }
    }
}

impl Modeled for Named {
    type M = NamedModel;

    open spec fn m(&self) -> NamedModel {
        match self {
            Named::Nothing => NamedModel::Nothing,
            Named::Create(p) => NamedModel::Create(p@),
            Named::Rename { from, to } => NamedModel::Rename(from@, to@),
        }
    }
}

/// What comes of a name: a new file lies in its directory; a renamed file stays in its own.
pub open spec fn named(prompt: Option<PromptModel>, typed: Seq<char>) -> NamedModel {
    let name = text::trim(typed);
    match prompt {
        None => NamedModel::Nothing,
        Some(p) => if name.len() == 0 {
            NamedModel::Nothing
        } else {
            match p {
                PromptModel::NewFile(dir) => NamedModel::Create(
                    if dir.len() == 0 {
                        name
                    } else {
                        path::join(dir, name)
                    },
                ),
                PromptModel::Rename(from) => NamedModel::Rename(
                    from,
                    match path::parent(from) {
                        Some(d) => path::join(d, name),
                        None => name,
                    },
                ),
            }
        },
    }
}

/// What the escape key closes.
#[derive(Debug, Clone, Copy, PartialEq, Eq, Structural)]
pub enum Escape {
    Nothing,
    Menu,
    Find,
    Delete,
    Branches,
    Onboarding,
    CommitView,
}

/// Windows of their own.
#[derive(Debug, Clone, Copy, PartialEq, Eq, Structural)]
pub enum ModalKind {
    Rollback,
    Push,
    Diff,
    NewBranch,
    Plugins,
    Fonts,
    ClearData,
}

/// What gets the focus in a window that opens.
#[derive(Debug, Clone, Copy, PartialEq, Eq, Structural)]
pub enum ModalFocus {
    BranchQuery,
    PluginsQuery,
    Window,
}

/// The title of a window; a diff is titled by its file.
pub open spec fn title_of(kind: ModalKind, file: Seq<char>) -> Seq<char> {
    match kind {
        ModalKind::Rollback => "Rollback Changes"@,
        ModalKind::Push => "Push"@,
        ModalKind::Diff => file,
        ModalKind::NewBranch => "Create New Branch"@,
        ModalKind::Plugins => "Language Plugins"@,
        ModalKind::Fonts => "Fonts"@,
        ModalKind::ClearData => "Clear Data & Restart"@,
    }
}

/// The width and the height of a window.
pub open spec fn size_of_modal(kind: ModalKind) -> (u32, u32) {
    match kind {
        ModalKind::Rollback => (560u32, 640u32),
        ModalKind::Push => (520u32, 560u32),
        ModalKind::Diff => (1100u32, 680u32),
        ModalKind::NewBranch => (520u32, 220u32),
        ModalKind::Plugins => (520u32, 560u32),
        ModalKind::Fonts => (760u32, 620u32),
        ModalKind::ClearData => (460u32, 230u32),
    }
}

/// What has the focus in a window that opens.
pub open spec fn focus_of(kind: ModalKind) -> ModalFocus {
    match kind {
        ModalKind::NewBranch => ModalFocus::BranchQuery,
        ModalKind::Plugins => ModalFocus::PluginsQuery,
        _ => ModalFocus::Window,
    }
}

/// What the windows are called, how large they are and where typing goes, window by window.
pub proof fn lemma_windows(kind: ModalKind, file: Seq<char>)
    ensures
        title_of(ModalKind::Diff, file) == file,
        title_of(ModalKind::Rollback, file) == "Rollback Changes"@,
        title_of(ModalKind::Push, file) == "Push"@,
        title_of(ModalKind::NewBranch, file) == "Create New Branch"@,
        title_of(ModalKind::Plugins, file) == "Language Plugins"@,
        title_of(ModalKind::Fonts, file) == "Fonts"@,
        title_of(ModalKind::ClearData, file) == "Clear Data & Restart"@,
        focus_of(kind) == ModalFocus::BranchQuery <==> kind == ModalKind::NewBranch,
        focus_of(kind) == ModalFocus::PluginsQuery <==> kind == ModalKind::Plugins,
        size_of_modal(kind) == (560u32, 640u32) <==> kind == ModalKind::Rollback,
        size_of_modal(kind) == (520u32, 560u32) <==> kind == ModalKind::Push || kind
            == ModalKind::Plugins,
        size_of_modal(kind) == (1100u32, 680u32) <==> kind == ModalKind::Diff,
        size_of_modal(kind) == (520u32, 220u32) <==> kind == ModalKind::NewBranch,
        size_of_modal(kind) == (760u32, 620u32) <==> kind == ModalKind::Fonts,
        size_of_modal(kind) == (460u32, 230u32) <==> kind == ModalKind::ClearData,
{
}

impl ModalKind {
    /// The title of the window; that of a diff is given.
    pub fn title(self, file: &str) -> (r: String)
        ensures
            r@ == title_of(self, file@),
    {
        match self {
            ModalKind::Rollback => String::from_str("Rollback Changes"),
            ModalKind::Push => String::from_str("Push"),
            ModalKind::Diff => String::from_str(file),
            ModalKind::NewBranch => String::from_str("Create New Branch"),
            ModalKind::Plugins => String::from_str("Language Plugins"),
            ModalKind::Fonts => String::from_str("Fonts"),
            ModalKind::ClearData => String::from_str("Clear Data & Restart"),
        }
    }

    /// The width and height of the window, in pixels.
    pub fn size(self) -> (r: (u32, u32))
        ensures
            r == size_of_modal(self),
    {
        match self {
            ModalKind::Rollback => (560, 640),
            ModalKind::Push => (520, 560),
            ModalKind::Diff => (1100, 680),
            ModalKind::NewBranch => (520, 220),
            ModalKind::Plugins => (520, 560),
            ModalKind::Fonts => (760, 620),
            ModalKind::ClearData => (460, 230),
        }
    }

    pub fn focus(self) -> (r: ModalFocus)
        ensures
            r == focus_of(self),
    {
        match self {
            ModalKind::NewBranch => ModalFocus::BranchQuery,
            ModalKind::Plugins => ModalFocus::PluginsQuery,
            _ => ModalFocus::Window,
        }
    }
}

/// The windows that are known to be open.
#[derive(Debug, Clone, Copy)]
pub struct Modals {
    pub rollback: bool,
    pub push: bool,
    pub diff: bool,
    pub new_branch: bool,
    pub plugins: bool,
    pub fonts: bool,
    pub clear_data: bool,
}

impl Modals {
    pub open spec fn has(self, kind: ModalKind) -> bool {
        match kind {
            ModalKind::Rollback => self.rollback,
            ModalKind::Push => self.push,
            ModalKind::Diff => self.diff,
            ModalKind::NewBranch => self.new_branch,
            ModalKind::Plugins => self.plugins,
            ModalKind::Fonts => self.fonts,
            ModalKind::ClearData => self.clear_data,
        }
    }

    pub fn new() -> (r: Self)
        ensures
            forall|k: ModalKind| !r.has(k),
    {
        Modals {
            rollback: false,
            push: false,
            diff: false,
            new_branch: false,
            plugins: false,
            fonts: false,
            clear_data: false,
        }
    }

    fn set(&mut self, kind: ModalKind, open: bool)
        ensures
            forall|k: ModalKind|
                #[trigger] final(self).has(k) == if k == kind {
                    open
                } else {
                    old(self).has(k)
                },
    {
        match kind {
            ModalKind::Rollback => {
                self.rollback = open;
            },
            ModalKind::Push => {
                self.push = open;
            },
            ModalKind::Diff => {
                self.diff = open;
            },
            ModalKind::NewBranch => {
                self.new_branch = open;
            },
            ModalKind::Plugins => {
                self.plugins = open;
            },
            ModalKind::Fonts => {
                self.fonts = open;
            },
            ModalKind::ClearData => {
                self.clear_data = open;
            },
        }
    }

    pub fn is_open(&self, kind: ModalKind) -> (r: bool)
        ensures
            r == self.has(kind),
    {
        match kind {
            ModalKind::Rollback => self.rollback,
            ModalKind::Push => self.push,
            ModalKind::Diff => self.diff,
            ModalKind::NewBranch => self.new_branch,
            ModalKind::Plugins => self.plugins,
            ModalKind::Fonts => self.fonts,
            ModalKind::ClearData => self.clear_data,
        }
    }

    /// A window is asked for, where `alive` says whether the one that is known to be open still
    /// is. Returns whether one has to be opened; else it is brought to the front.
    pub fn open_modal_window(&mut self, kind: ModalKind, alive: bool) -> (r: bool)
        ensures
            r == !(old(self).has(kind) && alive),
            forall|k: ModalKind|
                #[trigger] final(self).has(k) == if k == kind {
                    !r
                } else {
                    old(self).has(k)
                },
    {
        if self.is_open(kind) {
            if alive {
                return false;
            }
            self.set(kind, false);
        }
        true
    }

    /// A window has opened.
    pub fn modal_opened(&mut self, kind: ModalKind)
        ensures
            forall|k: ModalKind|
                #[trigger] final(self).has(k) == (k == kind || old(self).has(k)),
    {
        self.set(kind, true);
    }

    /// A window is closed. Returns whether it was open.
    pub fn close_modal_window(&mut self, kind: ModalKind) -> (r: bool)
        ensures
            r == old(self).has(kind),
            forall|k: ModalKind|
                #[trigger] final(self).has(k) == (k != kind && old(self).has(k)),
    {
        let was = self.is_open(kind);
        self.set(kind, false);
        was
    }
}

pub struct Overlays {
    pub context_menu: bool,
    pub branch_popup_open: bool,
    /// The parts of the branch popup that are shown open.
    pub branch_expanded: TextSet,
    pub onboarding_open: bool,
    /// The keymap has to be chosen before anything else.
    pub onboarding_forced: bool,
    pub onboarding_choice: Preset,
    /// The path that is to be deleted, and whether it is a directory.
    pub delete_target: Option<(String, bool)>,
    pub name_prompt: Option<NamePrompt>,
    pub new_branch_checkout: bool,
    pub new_branch_overwrite: bool,
}

#[verifier::ext_equal]
pub struct OverlaysModel {
    pub context_menu: bool,
    pub branch_popup_open: bool,
    pub branch_expanded: Set<Seq<char>>,
    pub onboarding_open: bool,
    pub onboarding_forced: bool,
    pub onboarding_choice: Preset,
    pub delete_target: Option<(Seq<char>, bool)>,
    pub name_prompt: Option<PromptModel>,
    pub new_branch_checkout: bool,
    pub new_branch_overwrite: bool,
}

impl Modeled for Overlays {
    type M = OverlaysModel;

    open spec fn m(&self) -> OverlaysModel {
        OverlaysModel {
            context_menu: self.context_menu,
            branch_popup_open: self.branch_popup_open,
            branch_expanded: self.branch_expanded@,
            onboarding_open: self.onboarding_open,
            onboarding_forced: self.onboarding_forced,
            onboarding_choice: self.onboarding_choice,
            delete_target: match self.delete_target {
                Some((p, d)) => Some((p@, d)),
                None => None,
            },
            name_prompt: self.name_prompt.m(),
            new_branch_checkout: self.new_branch_checkout,
            new_branch_overwrite: self.new_branch_overwrite,
        }
    }
}

/// What the escape key closes: the most passing thing first. A choice of keymap that has to be
/// made stays.
pub open spec fn escaped(o: OverlaysModel, find_open: bool, mode: Mode) -> Escape {
    if o.context_menu {
        Escape::Menu
    } else if find_open {
        Escape::Find
    } else if o.delete_target is Some {
        Escape::Delete
    } else if o.branch_popup_open {
        Escape::Branches
    } else if o.onboarding_open && !o.onboarding_forced {
        Escape::Onboarding
    } else if mode == Mode::Commit {
        Escape::CommitView
    } else {
        Escape::Nothing
    }
}

impl Overlays {
    pub fn new(first_run: bool, preset: Preset) -> (r: Self)
        ensures
            r.m() == (OverlaysModel {
                context_menu: false,
                branch_popup_open: false,
                branch_expanded: Set::empty(),
                onboarding_open: first_run,
                onboarding_forced: first_run,
                onboarding_choice: preset,
                delete_target: None,
                name_prompt: None,
                new_branch_checkout: true,
                new_branch_overwrite: false,
            }),
    {
        Overlays {
            context_menu: false,
            branch_popup_open: false,
            branch_expanded: TextSet::new(),
            onboarding_open: first_run,
            onboarding_forced: first_run,
            onboarding_choice: preset,
            delete_target: None,
            name_prompt: None,
            new_branch_checkout: true,
            new_branch_overwrite: false,
        }
    }

    pub fn open_menu(&mut self)
        ensures
            final(self).m() == (OverlaysModel { context_menu: true, ..old(self).m() }),
    {
        self.context_menu = true;
    }

    pub fn close_menu(&mut self)
        ensures
            final(self).m() == (OverlaysModel { context_menu: false, ..old(self).m() }),
    {
        self.context_menu = false;
    }

    /// The escape key closes what `escaped` says; the find bar and the commit view are closed by
    /// the caller.
    pub fn act_escape(&mut self, find_open: bool, mode: Mode) -> (r: Escape)
        ensures
            r == escaped(old(self).m(), find_open, mode),
            final(self).m() == match r {
                Escape::Menu => OverlaysModel { context_menu: false, ..old(self).m() },
                Escape::Delete => OverlaysModel { delete_target: None, ..old(self).m() },
                Escape::Branches => OverlaysModel { branch_popup_open: false, ..old(self).m() },
                Escape::Onboarding => OverlaysModel { onboarding_open: false, ..old(self).m() },
                _ => old(self).m(),
            },
    {
        if self.context_menu {
            self.context_menu = false;
            Escape::Menu
        } else if find_open {
            Escape::Find
        } else if self.delete_target.is_some() {
            self.delete_target = None;
            Escape::Delete
        } else if self.branch_popup_open {
            self.branch_popup_open = false;
            Escape::Branches
        } else if self.onboarding_open && !self.onboarding_forced {
            self.onboarding_open = false;
            Escape::Onboarding
        } else if mode == Mode::Commit {
            Escape::CommitView
        } else {
            Escape::Nothing
        }
    }

    /// Opens the branch popup, with the recent branches shown, or closes it. Returns whether it
    /// is open; then the branches are read.
    pub fn toggle_branch_popup(&mut self) -> (r: bool)
        ensures
            r == !old(self).branch_popup_open,
            final(self).m() == (OverlaysModel {
                branch_popup_open: r,
                branch_expanded: if r {
                    old(self).branch_expanded@.insert("sec:recent"@)
                } else {
                    old(self).branch_expanded@
                },
                ..old(self).m()
            }),
    {
        if self.branch_popup_open {
            self.branch_popup_open = false;
            false
        } else {
            self.branch_expanded.insert("sec:recent");
            self.branch_popup_open = true;
            true
        }
    }

    /// A part of the branch popup is opened or closed.
    pub fn toggle_branch_node(&mut self, key: &str)
        ensures
            final(self).m() == (OverlaysModel {
                branch_expanded: if old(self).branch_expanded@.contains(key@) {
                    old(self).branch_expanded@.remove(key@)
                } else {
                    old(self).branch_expanded@.insert(key@)
                },
                ..old(self).m()
            }),
    {
        if self.branch_expanded.contains(key) {
            self.branch_expanded.remove(key);
        } else {
            self.branch_expanded.insert(key);
        }
    }

    /// A pull or fetch is asked for from a menu or popup, which closes.
    pub fn close_popups(&mut self)
        ensures
            final(self).m() == (OverlaysModel {
                branch_popup_open: false,
                context_menu: false,
                ..old(self).m()
            }),
    {
        self.branch_popup_open = false;
        self.context_menu = false;
    }

    /// The window for a new branch is asked for.
    pub fn open_new_branch(&mut self)
        ensures
            final(self).m() == (OverlaysModel {
                branch_popup_open: false,
                new_branch_checkout: true,
                new_branch_overwrite: false,
                ..old(self).m()
            }),
    {
        self.branch_popup_open = false;
        self.new_branch_checkout = true;
        self.new_branch_overwrite = false;
    }

    /// A name is asked for, for a new file in `dir`.
    pub fn start_new_file(&mut self, dir: &str)
        ensures
            final(self).m() == (OverlaysModel {
                context_menu: false,
                name_prompt: Some(PromptModel::NewFile(dir@)),
                ..old(self).m()
            }),
    {
        self.context_menu = false;
        self.name_prompt = Some(NamePrompt::NewFile(String::from_str(dir)));
    }

    /// Another name is asked for. Returns the present one.
    pub fn start_rename(&mut self, p: &str) -> (r: String)
        ensures
            r@ == match path::file_name(p@) {
                Some(n) => n,
                None => Seq::empty(),
            },
            final(self).m() == (OverlaysModel {
                context_menu: false,
                name_prompt: Some(PromptModel::Rename(p@)),
                ..old(self).m()
            }),
    {
        self.context_menu = false;
        self.name_prompt = Some(NamePrompt::Rename(String::from_str(p)));
        match path::file_name_of(p) {
            Some(n) => n,
            None => String::new(),
        }
    }

    pub fn cancel_name_prompt(&mut self)
        ensures
            final(self).m() == (OverlaysModel { name_prompt: None, ..old(self).m() }),
    {
        self.name_prompt = None;
    }

    /// A name was given, which closes the prompt.
    pub fn confirm_name_prompt(&mut self, typed: &str) -> (r: Named)
        ensures
            r.m() == named(old(self).m().name_prompt, typed@),
            final(self).m() == (OverlaysModel { name_prompt: None, ..old(self).m() }),
    {
        let mut prompt: Option<NamePrompt> = None;
        std::mem::swap(&mut prompt, &mut self.name_prompt);
        let name = text::trim_str(typed);
        if name.as_str().is_empty() {
            return Named::Nothing;
        }
        match prompt {
            None => Named::Nothing,
            Some(NamePrompt::NewFile(dir)) => {
                if dir.as_str().is_empty() {
                    Named::Create(name)
                } else {
                    Named::Create(path::join_paths(dir.as_str(), name.as_str()))
                }
            },
            Some(NamePrompt::Rename(from)) => {
                let to = match path::parent_of(from.as_str()) {
                    Some(d) => path::join_paths(d.as_str(), name.as_str()),
                    None => name,
                };
                Named::Rename { from, to }
            },
        }
    }

    /// Whether a path is to be deleted is asked.
    pub fn open_delete(&mut self, p: &str, is_dir: bool)
        ensures
            final(self).m() == (OverlaysModel {
                context_menu: false,
                delete_target: Some((p@, is_dir)),
                ..old(self).m()
            }),
    {
        self.context_menu = false;
        self.delete_target = Some((String::from_str(p), is_dir));
    }

    /// The path is to be deleted. Returns it, and whether it is a directory.
    pub fn take_delete(&mut self) -> (r: Option<(String, bool)>)
        ensures
            match r {
                Some((p, d)) => old(self).m().delete_target == Some((p@, d)),
                None => old(self).m().delete_target is None,
            },
            final(self).m() == (OverlaysModel { delete_target: None, ..old(self).m() }),
    {
        let mut t: Option<(String, bool)> = None;
        std::mem::swap(&mut t, &mut self.delete_target);
        t
    }

    /// The choice of a keymap is opened.
    pub fn open_keymap(&mut self, preset: Preset)
        ensures
            final(self).m() == (OverlaysModel {
                onboarding_choice: preset,
                onboarding_open: true,
                ..old(self).m()
            }),
    {
        self.onboarding_choice = preset;
        self.onboarding_open = true;
    }

    /// A keymap was chosen.
    pub fn close_onboarding(&mut self)
        ensures
            final(self).m() == (OverlaysModel {
                onboarding_open: false,
                onboarding_forced: false,
                ..old(self).m()
            }),
    {
        self.onboarding_open = false;
        self.onboarding_forced = false;
    }
}

/// Where a path of a project lies on disk: an absolute path is where it says.
pub open spec fn on_disk(root: Option<Seq<char>>, p: Seq<char>) -> Seq<char> {
    match root {
        Some(r) => path::join(r, p),
        None => p,
    }
}

/// Where a path of a project lies on disk.
pub fn path_on_disk(root: Option<&str>, p: &str) -> (r: String)
    ensures
        r@ == on_disk(
            match root {
                Some(d) => Some(d@),
                None => None,
            },
            p@,
        ),
{
    match root {
        Some(d) => path::join_paths(d, p),
        None => String::from_str(p),
    }
}

/// What the escape key closes, thing by thing: each only if nothing more passing is there.
pub proof fn lemma_escaped(o: OverlaysModel, find_open: bool, mode: Mode)
    ensures
        escaped(o, find_open, mode) == Escape::Menu <==> o.context_menu,
        escaped(o, find_open, mode) == Escape::Find <==> find_open && !o.context_menu,
        escaped(o, find_open, mode) == Escape::Delete <==> o.delete_target is Some
            && !o.context_menu && !find_open,
        escaped(o, find_open, mode) == Escape::Branches <==> o.branch_popup_open
            && !o.context_menu && !find_open && o.delete_target is None,
        escaped(o, find_open, mode) == Escape::Onboarding <==> o.onboarding_open
            && !o.onboarding_forced && !o.context_menu && !find_open && o.delete_target is None
            && !o.branch_popup_open,
        escaped(o, find_open, mode) == Escape::CommitView <==> mode == Mode::Commit
            && !o.context_menu && !find_open && o.delete_target is None && !o.branch_popup_open
            && !(o.onboarding_open && !o.onboarding_forced),
{
}

/// A blank name names nothing. A new file is called by the name and lies in its directory; a
/// renamed file is called by the name and stays in its own.
pub proof fn lemma_named(dir: Seq<char>, from: Seq<char>, typed: Seq<char>)
    requires
        path::named(text::trim(typed)),
        text::trim(typed) != seq!['.', '.'],
    ensures
        named(None, typed) == NamedModel::Nothing,
        dir.len() > 0 ==> (named(Some(PromptModel::NewFile(dir)), typed) matches NamedModel::Create(
            p,
        ) && path::file_name(p) == Some(text::trim(typed)) && path::same(path::parent(p)->0, dir)),
        named(Some(PromptModel::NewFile(Seq::empty())), typed) == NamedModel::Create(
            text::trim(typed),
        ),
        named(Some(PromptModel::Rename(from)), typed) matches NamedModel::Rename(a, b) && a == from
            && (path::parent(from) matches Some(d) ==> d.len() > 0 ==> path::file_name(b) == Some(
            text::trim(typed),
        ) && path::same(path::parent(b)->0, d)) && (path::parent(from) is None ==> b == text::trim(
            typed,
        )),
{
    let name = text::trim(typed);
    if dir.len() > 0 {
        path::lemma_join_name(dir, name);
    }
    if let Some(d) = path::parent(from) {
        if d.len() > 0 {
            path::lemma_join_name(d, name);
        }
    }
}

/// A name of white space alone names nothing, whatever it is for.
pub proof fn lemma_blank_name(prompt: Option<PromptModel>, typed: Seq<char>)
    requires
        text::blank(typed),
    ensures
        named(prompt, typed) == NamedModel::Nothing,
{
    let cut = text::lemma_trim_parts(typed);
    let t = text::trim(typed);
    if t.len() > 0 {
        text::lemma_trimmed(typed);
        assert(t[0] == typed[cut.0]);
        assert(text::is_white_space(typed[cut.0]));
    }
}

/// A path of a project lies below the root of the project, and an absolute path where it says.
pub proof fn lemma_on_disk(root: Seq<char>, p: Seq<char>)
    ensures
        on_disk(None, p) == p,
        p.len() > 0 && p[0] == '/' ==> on_disk(Some(root), p) == p,
        root.len() > 0 && !(p.len() > 0 && p[0] == '/') ==> path::lies_under(
            on_disk(Some(root), p),
            root,
        ),
{
    path::lemma_join(root, p);
    let c = path::components(on_disk(Some(root), p));
    let r = path::components(root);
    if root.len() > 0 && !(p.len() > 0 && p[0] == '/') {
        assert(c.subrange(0, r.len() as int) =~= r);
    }
}

} // verus!
