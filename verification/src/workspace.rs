//! The open projects and, within the active one, the open files.

use crate::model::Modeled;
use crate::path;
use crate::pathset;
use crate::pathset::PathSet;
use crate::text;
use vstd::prelude::*;

verus! {

broadcast use vstd::seq_lib::group_seq_properties;

/// What the main area shows.
#[derive(Debug, Clone, Copy, PartialEq, Eq, Structural)]
pub enum Mode {
    /// The files and the editor.
    Browse,
    /// The changed files and their diffs.
    Commit,
    /// The commits.
    History,
}

/// What is kept of a project while another one is active.
pub struct Session {
    pub mode: Mode,
    pub open_path: Option<String>,
    pub open_tabs: Vec<String>,
    pub selected: Option<usize>,
    pub expanded: PathSet,
}

#[verifier::ext_equal]
pub struct SessionModel {
    pub mode: Mode,
    pub open_path: Option<Seq<char>>,
    pub open_tabs: Seq<Seq<char>>,
    pub selected: Option<int>,
    pub expanded: Set<Seq<Seq<char>>>,
}

impl Modeled for Session {
    type M = SessionModel;

    open spec fn m(&self) -> SessionModel {
        SessionModel {
            mode: self.mode,
            open_path: self.open_path.m(),
            open_tabs: self.open_tabs.m(),
            selected: self.selected.m(),
            expanded: self.expanded@,
        }
    }
}

/// The open projects, and the state of the active one.
pub struct Workspace {
    /// The roots of the open projects, in the order of their tabs.
    pub open_projects: Vec<String>,
    /// The sessions of projects that are not active, each with its root.
    pub sessions: Vec<(String, Session)>,
    /// The root of the active project; without one, the projects are shown.
    pub repo_root: Option<String>,
    pub mode: Mode,
    pub open_path: Option<String>,
    pub open_tabs: Vec<String>,
    /// The selected changed file.
    pub selected: Option<usize>,
    /// The directories that are shown open.
    pub expanded: PathSet,
    /// The selected row of the tree.
    pub selected_path: Option<String>,
}

/// What has to be done after the active project or file changed.
pub enum Follow {
    Nothing,
    /// Read the project anew.
    Refresh,
    /// Read the project anew, then open a file.
    RefreshAndOpen(String),
    /// Open a file.
    Open(String),
    /// Empty the editor.
    Clear,
}

#[verifier::ext_equal]
pub enum FollowModel {
    Nothing,
    Refresh,
    RefreshAndOpen(Seq<char>),
    Open(Seq<char>),
    Clear,
}

impl Modeled for Follow {
    type M = FollowModel;

    open spec fn m(&self) -> FollowModel {
        match self {
            Follow::Nothing => FollowModel::Nothing,
            Follow::Refresh => FollowModel::Refresh,
            Follow::RefreshAndOpen(p) => FollowModel::RefreshAndOpen(p@),
            Follow::Open(p) => FollowModel::Open(p@),
            Follow::Clear => FollowModel::Clear,
        }
    }
}

// ---------------------------------------------------------------------------
// Model
// ---------------------------------------------------------------------------

#[verifier::ext_equal]
pub struct WorkspaceModel {
    pub open_projects: Seq<Seq<char>>,
    pub sessions: Seq<(Seq<char>, SessionModel)>,
    pub repo_root: Option<Seq<char>>,
    pub mode: Mode,
    pub open_path: Option<Seq<char>>,
    pub open_tabs: Seq<Seq<char>>,
    pub selected: Option<int>,
    pub expanded: Set<Seq<Seq<char>>>,
    pub selected_path: Option<Seq<char>>,
}

pub open spec fn session_models(v: Seq<(String, Session)>) -> Seq<(Seq<char>, SessionModel)> {
    Seq::new(v.len(), |i: int| (v[i].0@, v[i].1.m()))
}

impl Modeled for Workspace {
    type M = WorkspaceModel;

    open spec fn m(&self) -> WorkspaceModel {
        WorkspaceModel {
            open_projects: self.open_projects.m(),
            sessions: session_models(self.sessions@),
            repo_root: self.repo_root.m(),
            mode: self.mode,
            open_path: self.open_path.m(),
            open_tabs: self.open_tabs.m(),
            selected: self.selected.m(),
            expanded: self.expanded@,
            selected_path: self.selected_path.m(),
        }
    }
}

/// The sessions without that of a root.
pub open spec fn without(s: Seq<(Seq<char>, SessionModel)>, root: Seq<char>) -> Seq<
    (Seq<char>, SessionModel),
>
    decreases s.len(),
{
    if s.len() == 0 {
        Seq::empty()
    } else if path::same(s.last().0, root) {
        without(s.drop_last(), root)
    } else {
        without(s.drop_last(), root).push(s.last())
    }
}

/// The session of a root.
pub open spec fn session_of(s: Seq<(Seq<char>, SessionModel)>, root: Seq<char>) -> Option<
    SessionModel,
>
    decreases s.len(),
{
    if s.len() == 0 {
        None
    } else if path::same(s.last().0, root) {
        Some(s.last().1)
    } else {
        session_of(s.drop_last(), root)
    }
}

/// `items` with `p` at the end, unless it is there.
pub open spec fn with_path(items: Seq<Seq<char>>, p: Seq<char>) -> Seq<Seq<char>> {
    if path::position_from(items, p, 0) is Some {
        items
    } else {
        items.push(p)
    }
}

pub open spec fn same_opt(a: Option<Seq<char>>, p: Seq<char>) -> bool {
    a matches Some(x) && path::same(x, p)
}

/// The directories that are open in a project that is opened for the first time: its root.
pub open spec fn root_only() -> Set<Seq<Seq<char>>> {
    Set::empty().insert(path::components(""@))
}

impl WorkspaceModel {
    pub open spec fn active_session(self) -> SessionModel {
        SessionModel {
            mode: self.mode,
            open_path: self.open_path,
            open_tabs: self.open_tabs,
            selected: self.selected,
            expanded: self.expanded,
        }
    }

    /// The state of the active project is put aside.
    pub open spec fn saved(self) -> WorkspaceModel {
        match self.repo_root {
            Some(root) => WorkspaceModel {
                sessions: without(self.sessions, root).push((root, self.active_session())),
                ..self
            },
            None => self,
        }
    }

    /// A project becomes the active one, as it was left, or as new.
    pub open spec fn loaded(self, root: Seq<char>) -> WorkspaceModel {
        let rest = without(self.sessions, root);
        match session_of(self.sessions, root) {
            Some(s) => WorkspaceModel {
                repo_root: Some(root),
                sessions: rest,
                mode: s.mode,
                expanded: s.expanded,
                open_tabs: s.open_tabs,
                selected: s.selected,
                open_path: if s.open_path is Some {
                    self.open_path
                } else {
                    None
                },
                ..self
            },
            None => WorkspaceModel {
                repo_root: Some(root),
                sessions: rest,
                mode: Mode::Browse,
                open_path: None,
                open_tabs: Seq::empty(),
                selected: None,
                expanded: root_only(),
                ..self
            },
        }
    }

    /// What follows when a project becomes the active one.
    pub open spec fn load_follow(self, root: Seq<char>) -> FollowModel {
        match session_of(self.sessions, root) {
            Some(s) => match s.open_path {
                Some(p) => FollowModel::RefreshAndOpen(p),
                None => FollowModel::Refresh,
            },
            None => FollowModel::Refresh,
        }
    }

    /// A project is opened, or switched to.
    pub open spec fn opened(self, root: Seq<char>) -> WorkspaceModel {
        let s = self.saved();
        WorkspaceModel { open_projects: with_path(s.open_projects, root), ..s }.loaded(root)
    }

    /// A project is closed. If it is active, the one that takes its place among the tabs becomes
    /// active, else the one before it, else none.
    pub open spec fn project_closed(self, root: Seq<char>) -> (WorkspaceModel, FollowModel) {
        match path::position_from(self.open_projects, root, 0) {
            None => (self, FollowModel::Nothing),
            Some(idx) => {
                let left = self.open_projects.remove(idx);
                let m = WorkspaceModel {
                    open_projects: left,
                    sessions: without(self.sessions, root),
                    ..self
                };
                if !same_opt(self.repo_root, root) {
                    (m, FollowModel::Nothing)
                } else if left.len() == 0 {
                    (
                        WorkspaceModel {
                            repo_root: None,
                            open_path: None,
                            open_tabs: Seq::empty(),
                            selected: None,
                            ..m
                        },
                        FollowModel::Nothing,
                    )
                } else {
                    let next = left[if idx < left.len() {
                        idx
                    } else {
                        left.len() - 1
                    }];
                    (m.loaded(next), m.load_follow(next))
                }
            },
        }
    }

    /// A file is opened: it has a tab, is the open file, and is selected.
    pub open spec fn file_opened(self, p: Seq<char>) -> WorkspaceModel {
        WorkspaceModel {
            selected_path: Some(p),
            open_tabs: with_path(self.open_tabs, p),
            open_path: Some(p),
            ..self
        }
    }

    /// The tab at `idx` is closed. If its file is the open one, that of the tab that takes its
    /// place is opened, else that of the tab before it, else none.
    pub open spec fn tab_closed(self, idx: int) -> (WorkspaceModel, FollowModel) {
        if idx >= self.open_tabs.len() {
            (self, FollowModel::Nothing)
        } else {
            let left = self.open_tabs.remove(idx);
            let m = WorkspaceModel { open_tabs: left, ..self };
            if !same_opt(self.open_path, self.open_tabs[idx]) {
                (m, FollowModel::Nothing)
            } else if left.len() == 0 {
                (WorkspaceModel { open_path: None, ..m }, FollowModel::Clear)
            } else {
                let next = left[if idx < left.len() {
                    idx
                } else {
                    idx - 1
                }];
                (m.file_opened(next), FollowModel::Open(next))
            }
        }
    }

    /// Every tab but that at `idx` is closed, and its file is opened.
    pub open spec fn others_closed(self, idx: int) -> (WorkspaceModel, FollowModel) {
        if idx >= self.open_tabs.len() {
            (self, FollowModel::Nothing)
        } else {
            let keep = self.open_tabs[idx];
            (
                WorkspaceModel { open_tabs: seq![keep], ..self }.file_opened(keep),
                FollowModel::Open(keep),
            )
        }
    }

    /// Every tab behind that at `idx` is closed. If the open file had one of them, that at `idx`
    /// is opened.
    pub open spec fn right_closed(self, idx: int) -> (WorkspaceModel, FollowModel) {
        if idx + 1 >= self.open_tabs.len() {
            (self, FollowModel::Nothing)
        } else {
            let m = WorkspaceModel { open_tabs: self.open_tabs.take(idx + 1), ..self };
            let gone = match self.open_path {
                Some(p) => match path::position_from(self.open_tabs, p, 0) {
                    Some(pos) => pos > idx,
                    None => false,
                },
                None => false,
            };
            if gone {
                (m.file_opened(self.open_tabs[idx]), FollowModel::Open(self.open_tabs[idx]))
            } else {
                (m, FollowModel::Nothing)
            }
        }
    }

    /// A file got another path.
    pub open spec fn renamed(self, from: Seq<char>, to: Seq<char>) -> WorkspaceModel {
        WorkspaceModel {
            open_tabs: Seq::new(
                self.open_tabs.len(),
                |i: int|
                    if path::same(self.open_tabs[i], from) {
                        to
                    } else {
                        self.open_tabs[i]
                    },
            ),
            selected_path: if same_opt(self.selected_path, from) {
                Some(to)
            } else {
                self.selected_path
            },
            ..self
        }
    }

    /// A file is gone.
    pub open spec fn deleted(self, p: Seq<char>) -> WorkspaceModel {
        let tabs = others(self.open_tabs, p);
        WorkspaceModel {
            open_tabs: tabs,
            open_path: if same_opt(self.open_path, p) {
                if tabs.len() > 0 {
                    Some(tabs.last())
                } else {
                    None
                }
            } else {
                self.open_path
            },
            selected_path: if same_opt(self.selected_path, p) {
                None
            } else {
                self.selected_path
            },
            ..self
        }
    }
}

/// The paths that are not `p`.
pub open spec fn others(paths: Seq<Seq<char>>, p: Seq<char>) -> Seq<Seq<char>>
    decreases paths.len(),
{
    if paths.len() == 0 {
        Seq::empty()
    } else if path::same(paths.last(), p) {
        others(paths.drop_last(), p)
    } else {
        others(paths.drop_last(), p).push(paths.last())
    }
}

/// The open file has a tab.
pub open spec fn open_has_tab(w: WorkspaceModel) -> bool {
    w.open_path matches Some(p) ==> path::position_from(w.open_tabs, p, 0) is Some
}

proof fn lemma_position(items: Seq<Seq<char>>, p: Seq<char>, i: int, k: int)
    requires
        0 <= i <= k < items.len(),
        path::same(items[k], p),
    ensures
        path::position_from(items, p, i) matches Some(x) && i <= x <= k && path::same(items[x], p),
    decreases k - i,
{
    if !path::same(items[i], p) {
        lemma_position(items, p, i + 1, k);
    }
}

proof fn lemma_position_found(items: Seq<Seq<char>>, p: Seq<char>, i: int)
    requires
        0 <= i,
    ensures
        path::position_from(items, p, i) matches Some(x) ==> i <= x < items.len() && path::same(
            items[x],
            p,
        ) && forall|k: int| i <= k < x ==> !path::same(#[trigger] items[k], p),
    decreases items.len() - i,
{
    if i < items.len() && !path::same(items[i], p) {
        lemma_position_found(items, p, i + 1);
    }
}

/// Opening a file, and closing tabs in any way, leaves the open file with a tab.
pub proof fn lemma_open_keeps_tab(w: WorkspaceModel, p: Seq<char>, idx: int)
    requires
        open_has_tab(w),
        idx >= 0,
    ensures
        open_has_tab(w.file_opened(p)),
        open_has_tab(w.others_closed(idx).0),
        open_has_tab(w.right_closed(idx).0),
        open_has_tab(w.deleted(p)),
{
    lemma_file_opened_tab(w, p);
    if idx < w.open_tabs.len() {
        let keep = w.open_tabs[idx];
        lemma_file_opened_tab(WorkspaceModel { open_tabs: seq![keep], ..w }, keep);
        let m = WorkspaceModel { open_tabs: w.open_tabs.take(idx + 1), ..w };
        lemma_file_opened_tab(m, keep);
        if let Some(o) = w.open_path {
            lemma_position_found(w.open_tabs, o, 0);
            let pos = path::position_from(w.open_tabs, o, 0)->0;
            if idx + 1 < w.open_tabs.len() && pos <= idx {
                assert(m.open_tabs[pos] == w.open_tabs[pos]);
                lemma_position(m.open_tabs, o, 0, pos);
            }
        }
    }
    let tabs = others(w.open_tabs, p);
    if let Some(o) = w.open_path {
        if path::same(o, p) {
            if tabs.len() > 0 {
                lemma_position(tabs, tabs.last(), 0, tabs.len() - 1);
            }
        } else {
            lemma_position_found(w.open_tabs, o, 0);
            let pos = path::position_from(w.open_tabs, o, 0)->0;
            lemma_others_keeps(w.open_tabs, p, pos);
            let k = choose|k: int| 0 <= k < tabs.len() && tabs[k] == w.open_tabs[pos];
            lemma_position(tabs, o, 0, k);
        }
    }
}

proof fn lemma_others_keeps(paths: Seq<Seq<char>>, p: Seq<char>, i: int)
    requires
        0 <= i < paths.len(),
        !path::same(paths[i], p),
    ensures
        others(paths, p).contains(paths[i]),
    decreases paths.len(),
{
    let r = others(paths, p);
    if i == paths.len() - 1 {
        assert(r.last() == paths[i]);
        assert(r[r.len() - 1] == paths[i]);
    } else {
        lemma_others_keeps(paths.drop_last(), p, i);
        let d = others(paths.drop_last(), p);
        let k = choose|k: int| 0 <= k < d.len() && d[k] == paths[i];
        assert(r[k] == paths[i]);
    }
}

proof fn lemma_file_opened_tab(w: WorkspaceModel, p: Seq<char>)
    ensures
        open_has_tab(w.file_opened(p)),
{
    let t = w.file_opened(p).open_tabs;
    if path::position_from(w.open_tabs, p, 0) is None {
        assert(t.last() == p);
        lemma_position(t, p, 0, t.len() - 1);
    }
}

/// Closing a tab leaves the open file with a tab, if no file has two.
pub proof fn lemma_close_keeps_tab(w: WorkspaceModel, idx: int)
    requires
        open_has_tab(w),
        idx >= 0,
        forall|i: int, j: int|
            0 <= i < j < w.open_tabs.len() ==> !path::same(
                #[trigger] w.open_tabs[i],
                #[trigger] w.open_tabs[j],
            ),
    ensures
        open_has_tab(w.tab_closed(idx).0),
{
    if idx < w.open_tabs.len() {
        let left = w.open_tabs.remove(idx);
        let m = WorkspaceModel { open_tabs: left, ..w };
        if let Some(o) = w.open_path {
            if path::same(o, w.open_tabs[idx]) {
                if left.len() > 0 {
                    let next = left[if idx < left.len() {
                        idx
                    } else {
                        idx - 1
                    }];
                    lemma_file_opened_tab(m, next);
                }
            } else {
                lemma_position_found(w.open_tabs, o, 0);
                let pos = path::position_from(w.open_tabs, o, 0)->0;
                assert(pos != idx);
                let k = if pos < idx {
                    pos
                } else {
                    pos - 1
                };
                assert(left[k] == w.open_tabs[pos]);
                lemma_position(left, o, 0, k);
            }
        }
    }
}

/// Leaving a project and coming back to it brings back its mode, tabs, selection and open
/// directories, and opens the file that was open.
pub proof fn lemma_session_restored(w: WorkspaceModel, root: Seq<char>, other: Seq<char>)
    requires
        w.repo_root == Some(root),
        !path::same(root, other),
    ensures
        ({
            let away = w.opened(other);
            let back = away.opened(root);
            &&& back.mode == w.mode
            &&& back.open_tabs == w.open_tabs
            &&& back.selected == w.selected
            &&& back.expanded == w.expanded
            &&& away.saved().load_follow(root) == match w.open_path {
                Some(p) => FollowModel::RefreshAndOpen(p),
                None => FollowModel::Refresh,
            }
        }),
{
    let s1 = w.saved();
    let base = without(w.sessions, root);
    let e = (root, w.active_session());
    assert(s1.sessions == base.push(e));
    assert(base.push(e).drop_last() =~= base);
    lemma_without_other(s1.sessions, other, root);
    assert(session_of(s1.sessions, root) == Some(e.1));
    let away = w.opened(other);
    assert(away.sessions == without(s1.sessions, other));
    assert(session_of(away.sessions, root) == Some(e.1));
    let s2 = away.saved();
    let f = (other, away.active_session());
    let rest = without(away.sessions, other);
    assert(away.repo_root == Some(other));
    assert(s2.sessions == rest.push(f));
    assert(rest.push(f).drop_last() =~= rest);
    lemma_without_other(away.sessions, other, root);
    assert(session_of(s2.sessions, root) == session_of(rest, root));
}

proof fn lemma_without_other(s: Seq<(Seq<char>, SessionModel)>, a: Seq<char>, b: Seq<char>)
    requires
        !path::same(b, a),
    ensures
        session_of(without(s, a), b) == session_of(s, b),
    decreases s.len(),
{
    if s.len() > 0 {
        lemma_without_other(s.drop_last(), a, b);
        let r = without(s.drop_last(), a);
        if !path::same(s.last().0, a) {
            assert(r.push(s.last()).drop_last() =~= r);
        }
    }
}

// ---------------------------------------------------------------------------
// Transitions
// ---------------------------------------------------------------------------

fn clone_opt(o: &Option<String>) -> (r: Option<String>)
    ensures
        r.m() == o.m(),
{
    match o {
        Some(s) => Some(s.clone()),
        None => None,
    }
}

fn opt_same(o: &Option<String>, p: &str) -> (r: bool)
    ensures
        r == same_opt(o.m(), p@),
{
    match o {
        Some(x) => path::same_path(x.as_str(), p),
        None => false,
    }
}

/// Takes the sessions of a root out. Returns the last of them.
fn take_session(sessions: Vec<(String, Session)>, root: &str) -> (r: (
    Vec<(String, Session)>,
    Option<Session>,
))
    ensures
        session_models(r.0@) == without(session_models(sessions@), root@),
        r.1.m() == session_of(session_models(sessions@), root@),
{
    let ghost all = session_models(sessions@);
    let mut rest: Vec<(String, Session)> = Vec::new();
    let mut hit: Option<Session> = None;
    let mut left = sessions;
    // Taken from the end and put back in order.
    let mut kept: Vec<(String, Session)> = Vec::new();
    while left.len() > 0
        invariant
            session_models(left@).len() <= all.len(),
            session_models(left@) == all.take(left@.len() as int),
            hit matches Some(s) ==> session_of(all, root@) == Some(s.m()),
            hit is None ==> session_of(all, root@) == session_of(
                all.take(left@.len() as int),
                root@,
            ),
            without(all, root@) == without(all.take(left@.len() as int), root@) + session_models(
                kept@,
            ).reverse(),
        decreases left@.len(),
    {
        let ghost n = left@.len() as int;
        let ghost cur = all.take(n);
        let ghost km = session_models(kept@);
        proof {
            assert(cur.drop_last() =~= all.take(n - 1));
            assert(session_models(left@)[n - 1] == (left@[n - 1].0@, left@[n - 1].1.m()));
        }
        let last = left.pop();
        proof {
            assert(session_models(left@) =~= all.take(n - 1));
        }
        if let Some((p, s)) = last {
            if path::same_path(p.as_str(), root) {
                if hit.is_none() {
                    hit = Some(s);
                }
            } else {
                let ghost e = (p@, s.m());
                kept.push((p, s));
                proof {
                    assert(session_models(kept@) =~= km.push(e));
                    assert(km.push(e).reverse() =~= seq![e] + km.reverse());
                    let w = without(cur.drop_last(), root@);
                    assert(w.push(e) + km.reverse() =~= w + (seq![e] + km.reverse()));
                }
            }
        }
    }
    proof {
        assert(all.take(0) =~= Seq::<(Seq<char>, SessionModel)>::empty());
        assert(without(all, root@) =~= session_models(kept@).reverse());
    }
    let ghost want = session_models(kept@).reverse();
    let ghost total = kept@.len();
    while kept.len() > 0
        invariant
            kept@.len() <= total,
            rest@.len() + kept@.len() == total,
            want.len() == total,
            session_models(rest@) == want.take(rest@.len() as int),
            session_models(kept@).reverse() == want.skip(rest@.len() as int),
        decreases kept@.len(),
    {
        let ghost rm = session_models(rest@);
        let ghost km = session_models(kept@);
        let ghost i = rest@.len() as int;
        proof {
            assert(want.skip(i)[0] == want[i]);
            assert(km.reverse()[0] == km[km.len() - 1]);
        }
        let last = kept.pop();
        if let Some(e) = last {
            let ghost em = (e.0@, e.1.m());
            proof {
                assert(km[km.len() - 1] == em);
                assert(session_models(kept@) =~= km.drop_last());
                assert(km.drop_last().reverse() =~= km.reverse().skip(1));
                assert(want.skip(i).skip(1) =~= want.skip(i + 1));
            }
            rest.push(e);
            proof {
                assert(session_models(rest@) =~= rm.push(em));
                assert(want.take(i + 1) =~= want.take(i).push(want[i]));
            }
        }
    }
    proof {
        assert(want.take(total as int) =~= want);
    }
    (rest, hit)
}

impl Workspace {
    /// Nothing is open but the project at `root`, if there is one.
    pub fn new(root: Option<&str>) -> (r: Self)
        ensures
            r.m() == (WorkspaceModel {
                open_projects: match root {
                    Some(p) => seq![p@],
                    None => Seq::empty(),
                },
                sessions: Seq::empty(),
                repo_root: match root {
                    Some(p) => Some(p@),
                    None => None,
                },
                mode: Mode::Browse,
                open_path: None,
                open_tabs: Seq::empty(),
                selected: None,
                expanded: root_only(),
                selected_path: None,
            }),
    {
        let mut open_projects: Vec<String> = Vec::new();
        let mut repo_root: Option<String> = None;
        if let Some(p) = root {
            open_projects.push(String::from_str(p));
            repo_root = Some(String::from_str(p));
        }
        let mut expanded = PathSet::new();
        expanded.insert("");
        let r = Workspace {
            open_projects,
            sessions: Vec::new(),
            repo_root,
            mode: Mode::Browse,
            open_path: None,
            open_tabs: Vec::new(),
            selected: None,
            expanded,
            selected_path: None,
        };
        proof {
            assert(r.open_projects.m() =~= match root {
                Some(p) => seq![p@],
                None => Seq::empty(),
            });
            assert(r.open_tabs.m() =~= Seq::<Seq<char>>::empty());
            assert(session_models(r.sessions@) =~= Seq::<(Seq<char>, SessionModel)>::empty());
        }
        r
    }

    /// Puts the state of the active project aside.
    fn save_active_session(&mut self)
        ensures
            final(self).m() == old(self).m().saved(),
    {
        let root = match &self.repo_root {
            Some(r) => r.clone(),
            None => {
                return;
            },
        };
        let open_tabs = text::clone_texts(&self.open_tabs);
        proof {
            assert(text::texts(open_tabs@).len() == text::texts(self.open_tabs@).len());
            assert forall|k: int| 0 <= k < open_tabs@.len() implies (#[trigger] open_tabs@[k])@
                == self.open_tabs@[k]@ by {
                assert(text::texts(open_tabs@)[k] == open_tabs@[k]@);
                assert(text::texts(self.open_tabs@)[k] == self.open_tabs@[k]@);
            }
            assert(open_tabs.m() =~= self.open_tabs.m());
        }
        let session = Session {
            mode: self.mode,
            open_path: clone_opt(&self.open_path),
            open_tabs,
            selected: self.selected,
            expanded: self.expanded.clone(),
        };
        let mut sessions: Vec<(String, Session)> = Vec::new();
        std::mem::swap(&mut sessions, &mut self.sessions);
        let (mut rest, _) = take_session(sessions, root.as_str());
        let ghost rm = session_models(rest@);
        let ghost e = (root@, session.m());
        rest.push((root, session));
        proof {
            assert(session_models(rest@) =~= rm.push(e));
        }
        self.sessions = rest;
    }

    /// Makes a project the active one, as it was left, or as new.
    fn load_project_state(&mut self, root: &str) -> (r: Follow)
        ensures
            final(self).m() == old(self).m().loaded(root@),
            r.m() == old(self).m().load_follow(root@),
    {
        let mut sessions: Vec<(String, Session)> = Vec::new();
        std::mem::swap(&mut sessions, &mut self.sessions);
        let (rest, hit) = take_session(sessions, root);
        self.sessions = rest;
        self.repo_root = Some(String::from_str(root));
        match hit {
            Some(s) => {
                self.mode = s.mode;
                self.expanded = s.expanded;
                self.open_tabs = s.open_tabs;
                self.selected = s.selected;
                match s.open_path {
                    Some(p) => Follow::RefreshAndOpen(p),
                    None => {
                        self.open_path = None;
                        Follow::Refresh
                    },
                }
            },
            None => {
                self.mode = Mode::Browse;
                self.open_path = None;
                self.open_tabs = Vec::new();
                self.selected = None;
                let mut expanded = PathSet::new();
                expanded.insert("");
                self.expanded = expanded;
                proof {
                    assert(self.open_tabs.m() =~= Seq::<Seq<char>>::empty());
                }
                Follow::Refresh
            },
        }
    }

    /// Opens a project, or switches to it.
    pub fn open_project(&mut self, root: &str) -> (r: Follow)
        ensures
            final(self).m() == old(self).m().opened(root@),
            r.m() == old(self).m().saved().load_follow(root@),
    {
        self.save_active_session();
        proof {
            assert(self.open_projects.m() =~= text::texts(self.open_projects@));
        }
        if path::position_of(&self.open_projects, root).is_none() {
            let ghost before = self.open_projects.m();
            self.open_projects.push(String::from_str(root));
            proof {
                assert(self.open_projects.m() =~= before.push(root@));
            }
        }
        self.load_project_state(root)
    }

    /// Closes a project.
    pub fn close_project(&mut self, root: &str) -> (r: Follow)
        ensures
            (final(self).m(), r.m()) == old(self).m().project_closed(root@),
    {
        proof {
            assert(self.open_projects.m() =~= text::texts(self.open_projects@));
        }
        let idx: usize = match path::position_of(&self.open_projects, root) {
            Some(i) => i,
            None => {
                return Follow::Nothing;
            },
        };
        let was_active = opt_same(&self.repo_root, root);
        let ghost before = self.open_projects.m();
        let _ = self.open_projects.remove(idx);
        proof {
            assert(self.open_projects.m() =~= before.remove(idx as int));
        }
        let mut sessions: Vec<(String, Session)> = Vec::new();
        std::mem::swap(&mut sessions, &mut self.sessions);
        let (rest, _) = take_session(sessions, root);
        self.sessions = rest;
        if !was_active {
            return Follow::Nothing;
        }
        let n: usize = self.open_projects.len();
        if n == 0 {
            self.repo_root = None;
            self.open_path = None;
            self.open_tabs = Vec::new();
            self.selected = None;
            proof {
                assert(self.open_tabs.m() =~= Seq::<Seq<char>>::empty());
            }
            return Follow::Nothing;
        }
        let at: usize = if idx < n {
            idx
        } else {
            n - 1
        };
        let next = self.open_projects[at].clone();
        self.load_project_state(next.as_str())
    }

    /// Opens a file. Returns the position of its tab.
    pub fn open_file(&mut self, p: &str) -> (r: usize)
        ensures
            final(self).m() == old(self).m().file_opened(p@),
            path::position_from(final(self).m().open_tabs, p@, 0) == Some(r as int),
    {
        self.selected_path = Some(String::from_str(p));
        self.open_path = Some(String::from_str(p));
        proof {
            assert(self.open_tabs.m() =~= text::texts(self.open_tabs@));
        }
        match path::position_of(&self.open_tabs, p) {
            Some(i) => i,
            None => {
                let ghost before = self.open_tabs.m();
                let i: usize = self.open_tabs.len();
                self.open_tabs.push(String::from_str(p));
                proof {
                    let t = self.open_tabs.m();
                    assert(t =~= before.push(p@));
                    lemma_position(t, p@, 0, i as int);
                    lemma_position_found(t, p@, 0);
                    let x = path::position_from(t, p@, 0)->0;
                    if x < i {
                        assert(t[x] == before[x]);
                        lemma_position(before, p@, 0, x);
                    }
                }
                i
            },
        }
    }

    /// Closes the tab at `idx`.
    pub fn close_tab(&mut self, idx: usize) -> (r: Follow)
        ensures
            (final(self).m(), r.m()) == old(self).m().tab_closed(idx as int),
    {
        if idx >= self.open_tabs.len() {
            return Follow::Nothing;
        }
        let ghost before = self.open_tabs.m();
        let closing = self.open_tabs.remove(idx);
        proof {
            assert(self.open_tabs.m() =~= before.remove(idx as int));
        }
        if !opt_same(&self.open_path, closing.as_str()) {
            return Follow::Nothing;
        }
        let n: usize = self.open_tabs.len();
        if n == 0 {
            self.open_path = None;
            return Follow::Clear;
        }
        let at: usize = if idx < n {
            idx
        } else {
            idx - 1
        };
        let next = self.open_tabs[at].clone();
        let _ = self.open_file(next.as_str());
        Follow::Open(next)
    }

    /// Closes every tab but that at `idx`.
    pub fn close_other_tabs(&mut self, idx: usize) -> (r: Follow)
        ensures
            (final(self).m(), r.m()) == old(self).m().others_closed(idx as int),
    {
        if idx >= self.open_tabs.len() {
            return Follow::Nothing;
        }
        let keep = self.open_tabs[idx].clone();
        let mut tabs: Vec<String> = Vec::new();
        tabs.push(keep.clone());
        proof {
            assert(tabs.m() =~= seq![keep@]);
        }
        self.open_tabs = tabs;
        let _ = self.open_file(keep.as_str());
        Follow::Open(keep)
    }

    /// Closes every tab behind that at `idx`.
    pub fn close_tabs_right(&mut self, idx: usize) -> (r: Follow)
        ensures
            (final(self).m(), r.m()) == old(self).m().right_closed(idx as int),
    {
        let n: usize = self.open_tabs.len();
        if idx >= n || n - idx <= 1 {
            return Follow::Nothing;
        }
        proof {
            assert(self.open_tabs.m() =~= text::texts(self.open_tabs@));
        }
        let gone = match &self.open_path {
            Some(p) => match path::position_of(&self.open_tabs, p.as_str()) {
                Some(pos) => pos > idx,
                None => false,
            },
            None => false,
        };
        let ghost before = self.open_tabs.m();
        self.open_tabs.truncate(idx + 1);
        proof {
            assert(self.open_tabs.m() =~= before.take(idx + 1));
        }
        if gone {
            let p = self.open_tabs[idx].clone();
            let _ = self.open_file(p.as_str());
            Follow::Open(p)
        } else {
            Follow::Nothing
        }
    }

    /// No file is open any more.
    pub fn clear_open(&mut self)
        ensures
            final(self).m() == (WorkspaceModel { open_path: None, ..old(self).m() }),
    {
        self.open_path = None;
    }

    /// A file was renamed. Returns whether it is the open one, which then is opened anew.
    pub fn renamed(&mut self, from: &str, to: &str) -> (r: bool)
        ensures
            final(self).m() == old(self).m().renamed(from@, to@),
            r == same_opt(old(self).m().open_path, from@),
    {
        let mut tabs: Vec<String> = Vec::new();
        let mut i: usize = 0;
        while i < self.open_tabs.len()
            invariant
                i <= self.open_tabs@.len(),
                *self == *old(self),
                tabs@.len() == i,
                forall|k: int|
                    0 <= k < i ==> (#[trigger] tabs@[k])@ == if path::same(
                        self.open_tabs@[k]@,
                        from@,
                    ) {
                        to@
                    } else {
                        self.open_tabs@[k]@
                    },
            decreases self.open_tabs@.len() - i,
        {
            if path::same_path(self.open_tabs[i].as_str(), from) {
                tabs.push(String::from_str(to));
            } else {
                tabs.push(self.open_tabs[i].clone());
            }
            i += 1;
        }
        let ghost before = self.m();
        self.open_tabs = tabs;
        let was_open = opt_same(&self.open_path, from);
        if opt_same(&self.selected_path, from) {
            self.selected_path = Some(String::from_str(to));
        }
        proof {
            assert(self.open_tabs.m() =~= before.renamed(from@, to@).open_tabs);
        }
        was_open
    }

    /// A file or directory was deleted: its tab goes, and the last tab's file is the open one if
    /// it was open.
    pub fn deleted(&mut self, p: &str)
        ensures
            final(self).m() == old(self).m().deleted(p@),
    {
        let ghost all = self.open_tabs.m();
        let mut tabs: Vec<String> = Vec::new();
        let mut i: usize = 0;
        proof {
            assert(tabs.m() =~= others(all.take(0), p@));
        }
        while i < self.open_tabs.len()
            invariant
                i <= self.open_tabs@.len(),
                *self == *old(self),
                all == self.open_tabs.m(),
                tabs.m() == others(all.take(i as int), p@),
            decreases self.open_tabs@.len() - i,
        {
            let ghost before = tabs.m();
            proof {
                assert(all.take(i + 1).drop_last() =~= all.take(i as int));
                assert(all[i as int] == self.open_tabs@[i as int]@);
            }
            if !path::same_path(self.open_tabs[i].as_str(), p) {
                tabs.push(self.open_tabs[i].clone());
                proof {
                    assert(tabs.m() =~= before.push(all[i as int]));
                }
            }
            i += 1;
        }
        proof {
            assert(all.take(all.len() as int) =~= all);
        }
        if opt_same(&self.open_path, p) {
            if tabs.len() > 0 {
                self.open_path = Some(tabs[tabs.len() - 1].clone());
            } else {
                self.open_path = None;
            }
        }
        if opt_same(&self.selected_path, p) {
            self.selected_path = None;
        }
        self.open_tabs = tabs;
    }

    /// A directory of the tree is opened or closed.
    pub fn toggle_dir(&mut self, dir: &str)
        ensures
            final(self).m() == (WorkspaceModel {
                expanded: if old(self).expanded@.contains(path::components(dir@)) {
                    old(self).expanded@.remove(path::components(dir@))
                } else {
                    old(self).expanded@.insert(path::components(dir@))
                },
                ..old(self).m()
            }),
    {
        self.expanded.toggle(dir);
    }

    /// The file to show elsewhere: the open one, else the selected one.
    pub fn target(&self) -> (r: Option<String>)
        ensures
            r.m() == if self.open_path is Some {
                self.open_path.m()
            } else {
                self.selected_path.m()
            },
    {
        match &self.open_path {
            Some(p) => Some(p.clone()),
            None => clone_opt(&self.selected_path),
        }
    }

    /// Shows the open file, else the selected one, in the tree: the directories that it lies in
    /// are opened, and its row is selected. Returns it.
    pub fn reveal_in_tree(&mut self) -> (r: Option<String>)
        ensures
            ({
                let was = old(self).m();
                let target = if was.open_path is Some {
                    was.open_path
                } else {
                    was.selected_path
                };
                &&& r.m() == target
                &&& final(self).m() == match target {
                    Some(t) => WorkspaceModel {
                        mode: Mode::Browse,
                        expanded: was.expanded.union(
                            pathset::ancestors(path::components(t)),
                        ),
                        selected_path: Some(t),
                        ..was
                    },
                    None => was,
                }
            }),
    {
        let target = match self.target() {
            Some(t) => t,
            None => {
                return None;
            },
        };
        self.mode = Mode::Browse;
        self.expanded.insert_ancestors(target.as_str());
        self.selected_path = Some(target.clone());
        Some(target)
    }
}

/// The row of a path among the rows of the tree: the root comes first, then the rows that are
/// shown, then the scratch files.
pub open spec fn tree_row(
    target: Seq<char>,
    rows: Seq<Seq<char>>,
    scratches: Seq<Seq<char>>,
) -> Option<int> {
    if target.len() == 0 {
        Some(0)
    } else {
        match path::position_from(rows, target, 0) {
            Some(i) => Some(i + 1),
            None => match path::position_from(scratches, target, 0) {
                Some(i) => Some(i + 1 + rows.len()),
                None => None,
            },
        }
    }
}

/// The row of a path among the rows of the tree.
pub fn row_of(target: &str, rows: &Vec<String>, scratches: &Vec<String>) -> (r: Option<usize>)
    requires
        rows@.len() + scratches@.len() < usize::MAX,
    ensures
        match r {
            Some(i) => tree_row(target@, text::texts(rows@), text::texts(scratches@)) == Some(
                i as int,
            ),
            None => tree_row(target@, text::texts(rows@), text::texts(scratches@)) is None,
        },
{
    if target.is_empty() {
        return Some(0);
    }
    if let Some(i) = path::position_of(rows, target) {
        return Some(i + 1);
    }
    match path::position_of(scratches, target) {
        Some(i) => Some(i + 1 + rows.len()),
        None => None,
    }
}

// ---------------------------------------------------------------------------
// What stays and what changes
// ---------------------------------------------------------------------------

/// Opening a file makes it the open and the selected one and moves no tab: a file that has a tab
/// keeps it where it is, and one that has none gets one behind the others.
pub proof fn lemma_file_opened(w: WorkspaceModel, p: Seq<char>)
    ensures
        ({
            let r = w.file_opened(p);
            let had = exists|i: int|
                0 <= i < w.open_tabs.len() && path::same(#[trigger] w.open_tabs[i], p);
            &&& r.open_path == Some(p)
            &&& r.selected_path == Some(p)
            &&& had ==> r.open_tabs == w.open_tabs
            &&& !had ==> r.open_tabs == w.open_tabs.push(p)
            &&& r.open_projects == w.open_projects
            &&& r.repo_root == w.repo_root
            &&& r.mode == w.mode
            &&& r.sessions == w.sessions
            &&& r.expanded == w.expanded
        }),
{
    path::lemma_position(w.open_tabs, p, 0);
}

/// Closing a tab leaves the other tabs in order. A file that is open under another tab stays
/// open; if the closed one was open, the next tab's file is, at the end the one before, and
/// without tabs none.
pub proof fn lemma_tab_closed(w: WorkspaceModel, idx: int)
    requires
        0 <= idx < w.open_tabs.len(),
        forall|i: int, j: int|
            0 <= i < j < w.open_tabs.len() ==> !path::same(
                #[trigger] w.open_tabs[i],
                #[trigger] w.open_tabs[j],
            ),
    ensures
        ({
            let (r, f) = w.tab_closed(idx);
            let n = w.open_tabs.len();
            let was_open = w.open_path matches Some(p) && path::same(p, w.open_tabs[idx]);
            &&& r.open_tabs == w.open_tabs.take(idx) + w.open_tabs.skip(idx + 1)
            &&& !was_open ==> r.open_path == w.open_path && f == FollowModel::Nothing
            &&& was_open && n == 1 ==> r.open_path is None && f == FollowModel::Clear
            &&& was_open && idx + 1 < n ==> r.open_path == Some(w.open_tabs[idx + 1]) && f
                == FollowModel::Open(w.open_tabs[idx + 1])
            &&& was_open && idx + 1 == n && n > 1 ==> r.open_path == Some(w.open_tabs[idx - 1])
                && f == FollowModel::Open(w.open_tabs[idx - 1])
            &&& r.open_projects == w.open_projects
            &&& r.repo_root == w.repo_root
        }),
{
    let left = w.open_tabs.remove(idx);
    assert(left =~= w.open_tabs.take(idx) + w.open_tabs.skip(idx + 1));
    if left.len() > 0 {
        let k = if idx < left.len() {
            idx
        } else {
            idx - 1
        };
        path::lemma_position(left, left[k], 0);
        assert(path::same(left[k], left[k]));
    }
}

/// Closing the other tabs leaves one tab, whose file is open; closing those to the right leaves
/// the tabs up to it, and changes the open file only if it is lost.
pub proof fn lemma_tabs_closed(w: WorkspaceModel, idx: int)
    requires
        0 <= idx < w.open_tabs.len(),
    ensures
        w.others_closed(idx).0.open_tabs == seq![w.open_tabs[idx]],
        w.others_closed(idx).0.open_path == Some(w.open_tabs[idx]),
        w.others_closed(idx).1 == FollowModel::Open(w.open_tabs[idx]),
        w.right_closed(idx).0.open_tabs == w.open_tabs.take(idx + 1),
        w.open_path is None ==> w.right_closed(idx).0.open_path is None,
        w.open_path matches Some(p) ==> {
            let stays = exists|i: int|
                0 <= i <= idx && path::same(#[trigger] w.open_tabs[i], p);
            let had = exists|i: int|
                0 <= i < w.open_tabs.len() && path::same(#[trigger] w.open_tabs[i], p);
            &&& stays || !had ==> w.right_closed(idx).0.open_path == Some(p) && w.right_closed(
                idx,
            ).1 == FollowModel::Nothing
            &&& had && !stays ==> w.right_closed(idx).0.open_path == Some(w.open_tabs[idx])
                && w.right_closed(idx).1 == FollowModel::Open(w.open_tabs[idx])
        },
{
    let keep = w.open_tabs[idx];
    path::lemma_position(seq![keep], keep, 0);
    assert(path::same(seq![keep][0], keep));
    assert(w.others_closed(idx).0.open_tabs =~= seq![keep]);
    let t = w.open_tabs.take(idx + 1);
    assert(w.open_tabs.len() == idx + 1 ==> t =~= w.open_tabs);
    path::lemma_position(t, keep, 0);
    assert(path::same(t[idx], keep));
    if let Some(p) = w.open_path {
        path::lemma_position(w.open_tabs, p, 0);
    }
}

/// A file that got another path keeps its tab, under the new path, and no other tab changes.
pub proof fn lemma_renamed(w: WorkspaceModel, from: Seq<char>, to: Seq<char>)
    ensures
        w.renamed(from, to).open_tabs.len() == w.open_tabs.len(),
        forall|i: int|
            0 <= i < w.open_tabs.len() ==> #[trigger] w.renamed(from, to).open_tabs[i] == (
            if path::same(w.open_tabs[i], from) {
                to
            } else {
                w.open_tabs[i]
            }),
        w.selected_path matches Some(p) ==> w.renamed(from, to).selected_path == Some(
            if path::same(p, from) {
                to
            } else {
                p
            },
        ),
        w.renamed(from, to).open_path == w.open_path,
        w.renamed(from, to).open_projects == w.open_projects,
{
}

/// A file that is gone has no tab left and is neither open nor selected; every other tab stays.
pub proof fn lemma_deleted(w: WorkspaceModel, p: Seq<char>)
    ensures
        ({
            let r = w.deleted(p);
            &&& forall|i: int| 0 <= i < r.open_tabs.len() ==> !path::same(#[trigger] r.open_tabs[i], p)
            &&& r.selected_path matches Some(q) ==> !path::same(q, p) && w.selected_path == Some(q)
            &&& r.open_path matches Some(q) ==> !path::same(q, p)
            &&& !same_opt(w.open_path, p) ==> r.open_path == w.open_path
            &&& same_opt(w.open_path, p) && r.open_tabs.len() > 0 ==> r.open_path == Some(
                r.open_tabs.last(),
            )
            &&& forall|q: Seq<char>|
                r.open_tabs.contains(q) <==> w.open_tabs.contains(q) && !path::same(q, p)
        }),
{
    lemma_others(w.open_tabs, p);
    let r = w.deleted(p);
    if r.open_tabs.len() > 0 {
        assert(!path::same(r.open_tabs[r.open_tabs.len() - 1], p));
    }
}

/// The other paths are those that are not the path, in order.
pub proof fn lemma_others(paths: Seq<Seq<char>>, p: Seq<char>)
    ensures
        forall|i: int| 0 <= i < others(paths, p).len() ==> !path::same(#[trigger] others(paths, p)[i], p),
        forall|q: Seq<char>|
            others(paths, p).contains(q) <==> paths.contains(q) && !path::same(q, p),
        (forall|i: int| 0 <= i < paths.len() ==> !path::same(#[trigger] paths[i], p)) ==> others(
            paths,
            p,
        ) == paths,
        others(paths, p).len() <= paths.len(),
    decreases paths.len(),
{
    let r = others(paths, p);
    if paths.len() > 0 {
        let d = paths.drop_last();
        let x = paths.last();
        lemma_others(d, p);
        let rd = others(d, p);
        assert(d.push(x) =~= paths);
        assert forall|q: Seq<char>| r.contains(q) <==> paths.contains(q) && !path::same(q, p) by {
            if r.contains(q) {
                let i = choose|i: int| 0 <= i < r.len() && r[i] == q;
                if i < rd.len() {
                    assert(rd[i] == q);
                    assert(rd.contains(q));
                    let k = choose|k: int| 0 <= k < d.len() && d[k] == q;
                    assert(paths[k] == q);
                } else {
                    assert(paths[paths.len() - 1] == q);
                }
            }
            if paths.contains(q) && !path::same(q, p) {
                let k = choose|k: int| 0 <= k < paths.len() && paths[k] == q;
                if k < d.len() {
                    assert(d[k] == q);
                    assert(d.contains(q));
                    assert(rd.contains(q));
                    let i = choose|i: int| 0 <= i < rd.len() && rd[i] == q;
                    assert(r[i] == q);
                } else {
                    assert(r[r.len() - 1] == q);
                }
            }
        }
        assert forall|i: int| 0 <= i < r.len() implies !path::same(#[trigger] r[i], p) by {
            if i < rd.len() {
                assert(r[i] == rd[i]);
            }
        }
        if forall|i: int| 0 <= i < paths.len() ==> !path::same(#[trigger] paths[i], p) {
            assert forall|i: int| 0 <= i < d.len() implies !path::same(#[trigger] d[i], p) by {
                assert(!path::same(paths[i], p));
            }
            assert(!path::same(paths[paths.len() - 1], p));
        }
    } else {
        assert(r =~= paths);
    }
}

/// What is put aside of a project is found again, and what is put aside of another is not
/// touched; nothing is kept of a project twice.
pub proof fn lemma_sessions(
    s: Seq<(Seq<char>, SessionModel)>,
    root: Seq<char>,
    other: Seq<char>,
    x: SessionModel,
)
    ensures
        session_of(without(s, root).push((root, x)), root) == Some(x),
        session_of(without(s, root), root) is None,
        !path::same(root, other) ==> session_of(without(s, root), other) == session_of(s, other),
        !path::same(root, other) ==> session_of(without(s, root).push((root, x)), other)
            == session_of(s, other),
    decreases s.len(),
{
    let w = without(s, root);
    assert(w.push((root, x)).drop_last() =~= w);
    if s.len() > 0 {
        let d = s.drop_last();
        lemma_sessions(d, root, other, x);
        if !path::same(s.last().0, root) {
            assert(w.drop_last() =~= without(d, root));
        }
    }
}

/// Closing a project takes it and nothing else out of the tabs. The active project stays what it
/// is unless it is the closed one; then the next tab's is, at the end the one before, and without
/// tabs none.
pub proof fn lemma_project_closed(w: WorkspaceModel, root: Seq<char>, idx: int)
    requires
        path::position_from(w.open_projects, root, 0) == Some(idx),
    ensures
        ({
            let (r, f) = w.project_closed(root);
            let n = w.open_projects.len();
            let active = w.repo_root matches Some(a) && path::same(a, root);
            &&& 0 <= idx < n
            &&& r.open_projects == w.open_projects.take(idx) + w.open_projects.skip(idx + 1)
            &&& session_of(r.sessions, root) is None || active
            &&& !active ==> r.repo_root == w.repo_root && r.open_tabs == w.open_tabs && r.open_path
                == w.open_path && f == FollowModel::Nothing
            &&& active && n == 1 ==> r.repo_root is None && r.open_tabs.len() == 0 && r.open_path
                is None
            &&& active && idx + 1 < n ==> r.repo_root == Some(w.open_projects[idx + 1])
            &&& active && idx + 1 == n && n > 1 ==> r.repo_root == Some(w.open_projects[idx - 1])
        }),
{
    path::lemma_position(w.open_projects, root, 0);
    let left = w.open_projects.remove(idx);
    assert(left =~= w.open_projects.take(idx) + w.open_projects.skip(idx + 1));
    lemma_sessions(w.sessions, root, root, w.active_session());
}

/// A project that is opened is the active one and has a tab, behind the others if it had none. A
/// project that was never open starts with nothing but its root.
pub proof fn lemma_project_opened(w: WorkspaceModel, root: Seq<char>)
    ensures
        ({
            let r = w.opened(root);
            let had = exists|i: int|
                0 <= i < w.open_projects.len() && path::same(#[trigger] w.open_projects[i], root);
            &&& r.repo_root == Some(root)
            &&& had ==> r.open_projects == w.open_projects
            &&& !had ==> r.open_projects == w.open_projects.push(root)
            &&& w.repo_root is None && session_of(w.sessions, root) is None ==> r.mode
                == Mode::Browse && r.open_tabs.len() == 0 && r.open_path is None && r.selected
                is None && r.expanded == Set::<Seq<Seq<char>>>::empty().insert(
                path::components(""@),
            )
            &&& w.repo_root is None ==> (session_of(w.sessions, root) matches Some(s) ==> r.mode
                == s.mode && r.open_tabs == s.open_tabs && r.selected == s.selected && r.expanded
                == s.expanded)
        }),
{
    path::lemma_position(w.open_projects, root, 0);
    lemma_sessions(w.sessions, root, root, w.active_session());
}

/// The rows of the tree: first the root, then the shown rows in order, then the scratch files in
/// order; each path has the row that it is shown in.
pub proof fn lemma_tree_row(
    target: Seq<char>,
    rows: Seq<Seq<char>>,
    scratches: Seq<Seq<char>>,
    i: int,
)
    requires
        target.len() > 0,
    ensures
        tree_row(Seq::empty(), rows, scratches) == Some(0int),
        0 <= i < rows.len() && path::same(rows[i], target) && (forall|j: int|
            0 <= j < i ==> !path::same(#[trigger] rows[j], target)) ==> tree_row(
            target,
            rows,
            scratches,
        ) == Some(1 + i),
        0 <= i < scratches.len() && path::same(scratches[i], target) && (forall|j: int|
            0 <= j < i ==> !path::same(#[trigger] scratches[j], target)) && (forall|j: int|
            0 <= j < rows.len() ==> !path::same(#[trigger] rows[j], target)) ==> tree_row(
            target,
            rows,
            scratches,
        ) == Some(1 + rows.len() + i),
        tree_row(target, rows, scratches) matches Some(k) ==> 1 <= k <= rows.len()
            + scratches.len(),
{
    path::lemma_position(rows, target, 0);
    path::lemma_position(scratches, target, 0);
}

/// What follows when a project becomes active: what was open in it is opened again, and where
/// nothing was open, or the project is new, it is only read.
pub proof fn lemma_load_follow(w: WorkspaceModel, root: Seq<char>)
    ensures
        session_of(w.sessions, root) is None ==> w.load_follow(root) == FollowModel::Refresh,
        session_of(w.sessions, root) matches Some(s) ==> (s.open_path matches Some(p)
            ==> w.load_follow(root) == FollowModel::RefreshAndOpen(p)),
        session_of(w.sessions, root) matches Some(s) ==> (s.open_path is None ==> w.load_follow(
            root,
        ) == FollowModel::Refresh),
        session_of(w.sessions, root) matches Some(s) ==> (s.open_path is None ==> w.loaded(
            root,
        ).open_path is None),
        session_of(w.loaded(root).sessions, root) is None,
{
    lemma_sessions(w.sessions, root, root, w.active_session());
}

/// What is put aside of the active project is all of its state.
pub proof fn lemma_saved(w: WorkspaceModel, root: Seq<char>)
    ensures
        w.repo_root == Some(root) ==> (session_of(w.saved().sessions, root) matches Some(s)
            && s.mode == w.mode && s.open_path == w.open_path && s.open_tabs == w.open_tabs
            && s.selected == w.selected && s.expanded == w.expanded),
        w.repo_root is None ==> w.saved() == w,
        w.saved().open_tabs == w.open_tabs,
        w.saved().open_projects == w.open_projects,
{
    lemma_sessions(w.sessions, root, root, w.active_session());
}

} // verus!
