//! The changed files of the commit view: what is checked, what is selected, and which of its
//! tabs is shown.

use crate::git::{ChangedFile, FileStatus};
use crate::model::Modeled;
use crate::path;
use crate::pathset;
use crate::pathset::PathSet;
use crate::porcelain;
use crate::porcelain::ChangedModel;
use crate::text;
use vstd::prelude::*;

verus! {

broadcast use vstd::seq_lib::group_seq_properties;

/// The tabs of the commit view.
#[derive(Debug, Clone, Copy, PartialEq, Eq, Structural)]
pub enum GitTab {
    Commit,
    Push,
}

/// What the diff panes are to show next.
#[derive(Debug, Clone, Copy, PartialEq, Eq, Structural)]
pub enum Show {
    /// What they show now.
    Same,
    /// The working changes of the changed file at this position.
    Changed(usize),
    /// The committed changes of the file to push at this position.
    Pushed(usize),
    Nothing,
}

/// How the changes to a file are rolled back.
#[derive(Debug, Clone, Copy, PartialEq, Eq, Structural)]
pub enum Rollback {
    Keep,
    Delete,
    Unstage,
    /// Unstaged first; whether that works does not matter.
    UnstageAndDelete,
    Discard,
}

pub struct Changes {
    pub files: Vec<ChangedFile>,
    pub selected: Option<usize>,
    /// Files that are shown as a group.
    pub commit_focus: PathSet,
    /// Directories that are shown open.
    pub commit_expanded: PathSet,
    pub commit_checked: PathSet,
    pub rollback_checked: PathSet,
    pub rollback_delete_added: bool,
    /// The files that a push would send.
    pub push_files: Vec<ChangedFile>,
    pub push_selected: Option<usize>,
    pub git_tab: GitTab,
    /// The message box gets the focus once it is there.
    pub focus_commit_msg: bool,
}

// ---------------------------------------------------------------------------
// Model
// ---------------------------------------------------------------------------

/// The changed files over mathematical values.
#[verifier::ext_equal]
pub struct ChangesModel {
    pub files: Seq<ChangedModel>,
    pub selected: Option<usize>,
    pub commit_focus: Set<Seq<Seq<char>>>,
    pub commit_expanded: Set<Seq<Seq<char>>>,
    pub commit_checked: Set<Seq<Seq<char>>>,
    pub rollback_checked: Set<Seq<Seq<char>>>,
    pub rollback_delete_added: bool,
    pub push_files: Seq<ChangedModel>,
    pub push_selected: Option<usize>,
    pub git_tab: GitTab,
    pub focus_commit_msg: bool,
}

impl Modeled for Changes {
    type M = ChangesModel;

    open spec fn m(&self) -> ChangesModel {
        ChangesModel {
            files: self.models(),
            selected: self.selected,
            commit_focus: self.commit_focus@,
            commit_expanded: self.commit_expanded@,
            commit_checked: self.commit_checked@,
            rollback_checked: self.rollback_checked@,
            rollback_delete_added: self.rollback_delete_added,
            push_files: porcelain::changed_models(self.push_files@),
            push_selected: self.push_selected,
            git_tab: self.git_tab,
            focus_commit_msg: self.focus_commit_msg,
        }
    }
}

/// Nothing changed, and nothing is checked or selected.
pub open spec fn no_changes() -> ChangesModel {
    ChangesModel {
        files: Seq::empty(),
        selected: None,
        commit_focus: Set::empty(),
        commit_expanded: Set::empty(),
        commit_checked: Set::empty(),
        rollback_checked: Set::empty(),
        rollback_delete_added: false,
        push_files: Seq::empty(),
        push_selected: None,
        git_tab: GitTab::Commit,
        focus_commit_msg: false,
    }
}

/// The positions below `n` of the files at or below a path.
pub open spec fn under(files: Seq<ChangedModel>, p: Seq<char>, n: int) -> Seq<int>
    decreases n,
{
    if n <= 0 {
        Seq::empty()
    } else if path::lies_under(files[n - 1].path, p) {
        under(files, p, n - 1).push(n - 1)
    } else {
        under(files, p, n - 1)
    }
}

/// A file at or below `p` has these components.
pub open spec fn has_under(files: Seq<ChangedModel>, p: Seq<char>, k: Seq<Seq<char>>) -> bool {
    exists|i: int|
        0 <= i < files.len() && path::lies_under((#[trigger] files[i]).path, p)
            && path::components(files[i].path) == k
}

/// The paths of the files at or below `p`.
pub open spec fn paths_under(files: Seq<ChangedModel>, p: Seq<char>) -> Set<Seq<Seq<char>>> {
    Set::new(|k: Seq<Seq<char>>| has_under(files, p, k))
}

/// There is a file at or below `p`, and all of them are in `set`.
pub open spec fn all_checked(
    files: Seq<ChangedModel>,
    set: Set<Seq<Seq<char>>>,
    p: Seq<char>,
) -> bool {
    &&& exists|i: int| 0 <= i < files.len() && path::lies_under((#[trigger] files[i]).path, p)
    &&& forall|i: int|
        0 <= i < files.len() && path::lies_under((#[trigger] files[i]).path, p) ==> set.contains(
            path::components(files[i].path),
        )
}

/// The set after the box of a file or directory was clicked: that of a directory checks all files
/// below it, or unchecks them if all are checked.
pub open spec fn toggled(
    files: Seq<ChangedModel>,
    set: Set<Seq<Seq<char>>>,
    p: Seq<char>,
    is_dir: bool,
) -> Set<Seq<Seq<char>>> {
    let k = path::components(p);
    if is_dir {
        if all_checked(files, set, p) {
            set.difference(paths_under(files, p))
        } else {
            set.union(paths_under(files, p))
        }
    } else if set.contains(k) {
        set.remove(k)
    } else {
        set.insert(k)
    }
}

/// The directories that show every file: those that a file lies in, and the root.
pub open spec fn open_dirs(paths: Seq<Seq<char>>) -> Set<Seq<Seq<char>>> {
    Set::new(
        |a: Seq<Seq<char>>|
            a == Seq::<Seq<char>>::empty() || exists|i: int|
                0 <= i < paths.len() && pathset::ancestors(
                    path::components(#[trigger] paths[i]),
                ).contains(a),
    )
}

/// Clicking the box of a directory with changes below it flips whether all of them are checked,
/// and touches no other file.
pub proof fn lemma_folder_toggle(
    files: Seq<ChangedModel>,
    set: Set<Seq<Seq<char>>>,
    p: Seq<char>,
)
    requires
        exists|i: int| 0 <= i < files.len() && path::lies_under((#[trigger] files[i]).path, p),
    ensures
        all_checked(files, toggled(files, set, p, true), p) == !all_checked(files, set, p),
        forall|k: Seq<Seq<char>>|
            !has_under(files, p, k) ==> #[trigger] toggled(files, set, p, true).contains(k)
                == set.contains(k),
{
    let i = choose|i: int| 0 <= i < files.len() && path::lies_under((#[trigger] files[i]).path, p);
    let after = toggled(files, set, p, true);
    let k = path::components(files[i].path);
    assert(has_under(files, p, k));
    if all_checked(files, set, p) {
        assert(!after.contains(k));
    } else {
        assert forall|j: int|
            0 <= j < files.len() && path::lies_under(
                (#[trigger] files[j]).path,
                p,
            ) implies after.contains(path::components(files[j].path)) by {
            assert(has_under(files, p, path::components(files[j].path)));
        }
    }
}

/// Clicking the box of a file twice changes nothing.
pub proof fn lemma_file_toggle_twice(
    files: Seq<ChangedModel>,
    set: Set<Seq<Seq<char>>>,
    p: Seq<char>,
)
    ensures
        toggled(files, toggled(files, set, p, false), p, false) == set,
{
    assert(toggled(files, toggled(files, set, p, false), p, false) =~= set);
}

/// What is checked once the changed files are `paths`: all of them, or those that are checked and
/// still changed.
pub open spec fn rechecked(
    set: Set<Seq<Seq<char>>>,
    paths: Seq<Seq<char>>,
    check_all: bool,
) -> Set<Seq<Seq<char>>> {
    if check_all {
        pathset::path_set(paths)
    } else {
        set.intersect(pathset::path_set(paths))
    }
}

/// Nothing is checked that is not changed. A check that is asked of all files holds for all of
/// them; else a file is checked if and only if it was.
pub proof fn lemma_rechecked(
    set: Set<Seq<Seq<char>>>,
    paths: Seq<Seq<char>>,
    check_all: bool,
    i: int,
    k: Seq<Seq<char>>,
)
    requires
        0 <= i < paths.len(),
    ensures
        ({
            let c = path::components(paths[i]);
            &&& rechecked(set, paths, check_all).contains(c) == (check_all || set.contains(c))
            &&& rechecked(set, paths, check_all).contains(k) ==> exists|j: int|
                0 <= j < paths.len() && path::components(#[trigger] paths[j]) == k
        }),
{
    let keys = path::keys_of(paths);
    assert(keys[i] == path::components(paths[i]));
    assert(keys.contains(path::components(paths[i])));
    if rechecked(set, paths, check_all).contains(k) {
        let j = choose|j: int| 0 <= j < keys.len() && keys[j] == k;
        assert(path::components(paths[j]) == k);
    }
}

/// What is done to a file that is rolled back.
pub open spec fn rollback_of(status: FileStatus, delete_added: bool) -> Rollback {
    match status {
        FileStatus::Untracked => if delete_added {
            Rollback::Delete
        } else {
            Rollback::Keep
        },
        FileStatus::Added => if delete_added {
            Rollback::UnstageAndDelete
        } else {
            Rollback::Unstage
        },
        _ => Rollback::Discard,
    }
}

/// The checked ones among the first `n` files.
pub open spec fn checked_files(
    files: Seq<ChangedModel>,
    set: Set<Seq<Seq<char>>>,
    n: int,
) -> Seq<ChangedModel>
    decreases n,
{
    if n <= 0 {
        Seq::empty()
    } else if set.contains(path::components(files[n - 1].path)) {
        checked_files(files, set, n - 1).push(files[n - 1])
    } else {
        checked_files(files, set, n - 1)
    }
}

/// No file is deleted in a rollback that is not to delete local copies.
pub proof fn lemma_rollback_keeps(status: FileStatus)
    ensures
        !(rollback_of(status, false) is Delete),
        !(rollback_of(status, false) is UnstageAndDelete),
        rollback_of(status, true) is Delete || rollback_of(status, true) is UnstageAndDelete <==> (
        status == FileStatus::Untracked || status == FileStatus::Added),
{
}

/// The choice to delete local copies matters to files that git does not have in its history
/// only. Every other file is taken back to its last commit either way; a file that was added
/// leaves the stage either way, and an untracked one was never on it.
pub proof fn lemma_rollback_discards(status: FileStatus, delete_added: bool)
    ensures
        status != FileStatus::Untracked && status != FileStatus::Added ==> rollback_of(
            status,
            delete_added,
        ) == Rollback::Discard,
        rollback_of(status, delete_added) == Rollback::Discard ==> status != FileStatus::Untracked
            && status != FileStatus::Added,
        status != FileStatus::Untracked && status != FileStatus::Added <==> rollback_of(status, true)
            == rollback_of(status, false),
        rollback_of(status, delete_added) == Rollback::Keep <==> status == FileStatus::Untracked
            && !delete_added,
        rollback_of(status, delete_added) == Rollback::Delete <==> status == FileStatus::Untracked
            && delete_added,
        rollback_of(status, delete_added) == Rollback::Unstage <==> status == FileStatus::Added
            && !delete_added,
        rollback_of(status, delete_added) == Rollback::UnstageAndDelete <==> status
            == FileStatus::Added && delete_added,
{
}

/// The tab to show: the other one if this one is empty and the other is not.
pub open spec fn better_tab(tab: GitTab, files: nat, push_files: nat) -> GitTab {
    match tab {
        GitTab::Commit => if files == 0 && push_files > 0 {
            GitTab::Push
        } else {
            GitTab::Commit
        },
        GitTab::Push => if push_files == 0 && files > 0 {
            GitTab::Commit
        } else {
            GitTab::Push
        },
    }
}

/// If there is any work, the tab that is shown has some.
pub proof fn lemma_tab_has_work(tab: GitTab, files: nat, push_files: nat)
    requires
        files + push_files > 0,
    ensures
        match better_tab(tab, files, push_files) {
            GitTab::Commit => files > 0,
            GitTab::Push => push_files > 0,
        },
        better_tab(better_tab(tab, files, push_files), files, push_files) == better_tab(
            tab,
            files,
            push_files,
        ),
{
}

/// A selection if it is in range, else the first.
pub open spec fn in_range_or_first(sel: Option<usize>, n: nat) -> usize {
    match sel {
        Some(i) => if i < n {
            i
        } else {
            0
        },
        None => 0,
    }
}

/// The files, with one more that is modified if it is not among them.
pub open spec fn with_modified(files: Seq<ChangedModel>, p: Seq<char>) -> Seq<ChangedModel> {
    if path::position_from(porcelain::paths_of(files), p, 0) is Some {
        files
    } else {
        files.push(ChangedModel { path: p, status: FileStatus::Modified })
    }
}

impl Changes {
    pub open spec fn models(&self) -> Seq<ChangedModel> {
        porcelain::changed_models(self.files@)
    }

    pub open spec fn paths(&self) -> Seq<Seq<char>> {
        porcelain::paths_of(self.models())
    }

    /// Nothing but what is checked, expanded and in focus differs.
    pub open spec fn same_files(&self, other: &Self) -> bool {
        &&& self.files == other.files
        &&& self.push_files == other.push_files
        &&& self.push_selected == other.push_selected
        &&& self.git_tab == other.git_tab
        &&& self.focus_commit_msg == other.focus_commit_msg
    }

    pub fn new() -> (r: Self)
        ensures
            r.files@.len() == 0,
            r.selected is None,
            r.commit_focus@ == Set::<Seq<Seq<char>>>::empty(),
            r.commit_expanded@ == Set::<Seq<Seq<char>>>::empty(),
            r.commit_checked@ == Set::<Seq<Seq<char>>>::empty(),
            r.rollback_checked@ == Set::<Seq<Seq<char>>>::empty(),
            !r.rollback_delete_added,
            r.push_files@.len() == 0,
            r.push_selected is None,
            r.git_tab == GitTab::Commit,
            !r.focus_commit_msg,
    {
        Changes {
            files: Vec::new(),
            selected: None,
            commit_focus: PathSet::new(),
            commit_expanded: PathSet::new(),
            commit_checked: PathSet::new(),
            rollback_checked: PathSet::new(),
            rollback_delete_added: false,
            push_files: Vec::new(),
            push_selected: None,
            git_tab: GitTab::Commit,
            focus_commit_msg: false,
        }
    }

    /// The positions of the changed files at or below a path; the empty path has all below it.
    pub fn changed_under(&self, p: &str) -> (r: Vec<usize>)
        ensures
            path::ints(r@) == under(self.models(), p@, self.files@.len() as int),
            forall|i: int| 0 <= i < r@.len() ==> (#[trigger] r@[i]) < self.files@.len(),
    {
        let mut r: Vec<usize> = Vec::new();
        let mut i: usize = 0;
        proof {
            assert(path::ints(r@) =~= Seq::<int>::empty());
        }
        while i < self.files.len()
            invariant
                i <= self.files@.len(),
                path::ints(r@) == under(self.models(), p@, i as int),
                forall|k: int| 0 <= k < r@.len() ==> (#[trigger] r@[k]) < i,
            decreases self.files@.len() - i,
        {
            let ghost before = path::ints(r@);
            proof {
                assert(self.models()[i as int] == self.files@[i as int].model());
            }
            if path::starts_with(self.files[i].path.as_str(), p) {
                r.push(i);
                proof {
                    assert(path::ints(r@) =~= before.push(i as int));
                }
            }
            i += 1;
        }
        r
    }

    /// Whether anything changed at or below a path.
    pub fn has_changes_under(&self, p: &str) -> (r: bool)
        ensures
            r == exists|i: int|
                0 <= i < self.models().len() && path::lies_under(
                    (#[trigger] self.models()[i]).path,
                    p@,
                ),
    {
        let mut i: usize = 0;
        while i < self.files.len()
            invariant
                i <= self.files@.len(),
                forall|k: int|
                    0 <= k < i ==> !path::lies_under((#[trigger] self.models()[k]).path, p@),
            decreases self.files@.len() - i,
        {
            proof {
                assert(self.models()[i as int] == self.files@[i as int].model());
            }
            if path::starts_with(self.files[i].path.as_str(), p) {
                return true;
            }
            i += 1;
        }
        false
    }

    pub(crate) fn file_paths(&self) -> (r: Vec<String>)
        ensures
            text::texts(r@) == self.paths(),
    {
        let mut r: Vec<String> = Vec::new();
        let mut i: usize = 0;
        while i < self.files.len()
            invariant
                i <= self.files@.len(),
                text::texts(r@) =~= self.paths().take(i as int),
            decreases self.files@.len() - i,
        {
            let ghost before = text::texts(r@);
            r.push(self.files[i].path.clone());
            proof {
                assert(self.models()[i as int] == self.files@[i as int].model());
                assert(text::texts(r@) =~= before.push(self.paths()[i as int]));
            }
            i += 1;
        }
        proof {
            assert(self.paths().take(self.paths().len() as int) =~= self.paths());
        }
        r
    }

    /// A file was edited: it counts as modified if it did not count as changed.
    pub fn mark_modified(&mut self, p: &str)
        ensures
            *final(self) == (Changes { files: final(self).files, ..*old(self) }),
            final(self).models() == with_modified(old(self).models(), p@),
    {
        let paths = self.file_paths();
        let ghost fm = self.models();
        if path::position_of(&paths, p).is_none() {
            let file = ChangedFile { path: String::from_str(p), status: FileStatus::Modified };
            let ghost m = file.model();
            self.files.push(file);
            proof {
                assert(self.models() =~= fm.push(m));
            }
        }
    }

    /// Fits the commit view to the changed files: all directories are open, and all files are
    /// checked, or those that are checked now and still changed.
    pub fn rebuild_commit_view(&mut self, check_all: bool)
        ensures
            final(self).same_files(old(self)),
            final(self).selected == old(self).selected,
            final(self).commit_focus@ == old(self).commit_focus@,
            final(self).rollback_checked@ == old(self).rollback_checked@,
            final(self).rollback_delete_added == old(self).rollback_delete_added,
            final(self).commit_expanded@ == open_dirs(old(self).paths()),
            final(self).commit_checked@ == rechecked(
                old(self).commit_checked@,
                old(self).paths(),
                check_all,
            ),
    {
        let paths = self.file_paths();
        self.commit_expanded = dirs_of(&paths);
        let live = pathset::set_of(&paths);
        if check_all {
            self.commit_checked = live;
        } else {
            let ghost was = self.commit_checked@;
            let kept = checked_paths(&paths, &self.commit_checked);
            self.commit_checked = kept;
            proof {
                assert(self.commit_checked@ =~= was.intersect(live@));
            }
        }
    }

    /// Whether something changed at or below a path and all of it is in a set.
    fn all_in(&self, set: &PathSet, p: &str) -> (r: bool)
        ensures
            r == all_checked(self.models(), set@, p@),
    {
        let mut any = false;
        let mut i: usize = 0;
        while i < self.files.len()
            invariant
                i <= self.files@.len(),
                any == exists|k: int|
                    0 <= k < i && path::lies_under((#[trigger] self.models()[k]).path, p@),
                forall|k: int|
                    0 <= k < i && path::lies_under((#[trigger] self.models()[k]).path, p@)
                        ==> set@.contains(path::components(self.models()[k].path)),
            decreases self.files@.len() - i,
        {
            proof {
                assert(self.models()[i as int] == self.files@[i as int].model());
            }
            if path::starts_with(self.files[i].path.as_str(), p) {
                if !set.contains(self.files[i].path.as_str()) {
                    return false;
                }
                any = true;
            }
            i += 1;
        }
        any
    }

    /// Whether something changed at or below a path and all of it is checked.
    pub fn folder_all_checked(&self, p: &str) -> (r: bool)
        ensures
            r == all_checked(self.models(), self.commit_checked@, p@),
    {
        self.all_in(&self.commit_checked, p)
    }

    /// The same for the files that are to be rolled back.
    pub fn rollback_folder_all_checked(&self, p: &str) -> (r: bool)
        ensures
            r == all_checked(self.models(), self.rollback_checked@, p@),
    {
        self.all_in(&self.rollback_checked, p)
    }

    fn toggle_in(&self, set: PathSet, p: &str, is_dir: bool) -> (r: PathSet)
        ensures
            r@ == toggled(self.models(), set@, p@, is_dir),
    {
        let ghost was = set@;
        let mut set = set;
        if !is_dir {
            set.toggle(p);
            return set;
        }
        let want = !self.all_in(&set, p);
        let ghost fm = self.models();
        let mut i: usize = 0;
        proof {
            assert(set@ =~= was);
        }
        while i < self.files.len()
            invariant
                i <= self.files@.len(),
                fm == self.models(),
                want == !all_checked(fm, was, p@),
                forall|k: Seq<Seq<char>>|
                    #[trigger] set@.contains(k) == if has_under(fm.take(i as int), p@, k) {
                        want
                    } else {
                        was.contains(k)
                    },
            decreases self.files@.len() - i,
        {
            let ghost key = path::components(fm[i as int].path);
            let ghost before = set@;
            proof {
                assert(fm[i as int] == self.files@[i as int].model());
            }
            let below = path::starts_with(self.files[i].path.as_str(), p);
            if below {
                if want {
                    set.insert(self.files[i].path.as_str());
                } else {
                    let _ = set.remove(self.files[i].path.as_str());
                }
            }
            proof {
                assert forall|k: Seq<Seq<char>>|
                    #[trigger] set@.contains(k) == if has_under(fm.take(i + 1), p@, k) {
                        want
                    } else {
                        was.contains(k)
                    } by {
                    lemma_under_step(fm, p@, i as int, k);
                    assert(before.contains(k) == if has_under(fm.take(i as int), p@, k) {
                        want
                    } else {
                        was.contains(k)
                    });
                }
            }
            i += 1;
        }
        proof {
            assert(fm.take(fm.len() as int) =~= fm);
            assert(set@ =~= toggled(fm, was, p@, true));
        }
        set
    }

    /// The box of a file or directory was clicked.
    pub fn toggle_commit_check(&mut self, p: &str, is_dir: bool)
        ensures
            final(self).same_files(old(self)),
            final(self).selected == old(self).selected,
            final(self).commit_focus@ == old(self).commit_focus@,
            final(self).commit_expanded@ == old(self).commit_expanded@,
            final(self).rollback_checked@ == old(self).rollback_checked@,
            final(self).rollback_delete_added == old(self).rollback_delete_added,
            final(self).commit_checked@ == toggled(
                old(self).models(),
                old(self).commit_checked@,
                p@,
                is_dir,
            ),
    {
        let mut set = PathSet::new();
        std::mem::swap(&mut set, &mut self.commit_checked);
        self.commit_checked = self.toggle_in(set, p, is_dir);
    }

    /// The box of a file or directory among those to roll back was clicked.
    pub fn toggle_rollback_check(&mut self, p: &str, is_dir: bool)
        ensures
            final(self).same_files(old(self)),
            final(self).selected == old(self).selected,
            final(self).commit_focus@ == old(self).commit_focus@,
            final(self).commit_expanded@ == old(self).commit_expanded@,
            final(self).commit_checked@ == old(self).commit_checked@,
            final(self).rollback_delete_added == old(self).rollback_delete_added,
            final(self).rollback_checked@ == toggled(
                old(self).models(),
                old(self).rollback_checked@,
                p@,
                is_dir,
            ),
    {
        let mut set = PathSet::new();
        std::mem::swap(&mut set, &mut self.rollback_checked);
        self.rollback_checked = self.toggle_in(set, p, is_dir);
    }

    /// A directory is opened or closed.
    pub fn toggle_commit_dir(&mut self, dir: &str)
        ensures
            final(self).same_files(old(self)),
            final(self).selected == old(self).selected,
            final(self).commit_focus@ == old(self).commit_focus@,
            final(self).commit_checked@ == old(self).commit_checked@,
            final(self).rollback_checked@ == old(self).rollback_checked@,
            final(self).rollback_delete_added == old(self).rollback_delete_added,
            final(self).commit_expanded@ == if old(self).commit_expanded@.contains(
                path::components(dir@),
            ) {
                old(self).commit_expanded@.remove(path::components(dir@))
            } else {
                old(self).commit_expanded@.insert(path::components(dir@))
            },
    {
        self.commit_expanded.toggle(dir);
    }

    fn under_set(&self, p: &str) -> (r: PathSet)
        ensures
            r@ == paths_under(self.models(), p@),
    {
        let ghost fm = self.models();
        let mut r = PathSet::new();
        let mut i: usize = 0;
        while i < self.files.len()
            invariant
                i <= self.files@.len(),
                fm == self.models(),
                forall|k: Seq<Seq<char>>|
                    #[trigger] r@.contains(k) == has_under(fm.take(i as int), p@, k),
            decreases self.files@.len() - i,
        {
            let ghost before = r@;
            proof {
                assert(fm[i as int] == self.files@[i as int].model());
            }
            if path::starts_with(self.files[i].path.as_str(), p) {
                r.insert(self.files[i].path.as_str());
            }
            proof {
                assert forall|k: Seq<Seq<char>>|
                    #[trigger] r@.contains(k) == has_under(fm.take(i + 1), p@, k) by {
                    lemma_under_step(fm, p@, i as int, k);
                    assert(before.contains(k) == has_under(fm.take(i as int), p@, k));
                }
            }
            i += 1;
        }
        proof {
            assert(fm.take(fm.len() as int) =~= fm);
            assert(r@ =~= paths_under(fm, p@));
        }
        r
    }

    /// Commits what lies at or below a path: these files are in focus and checked, and no other
    /// ones; the first of them is selected. Returns its position, if there is one; without one
    /// nothing changes.
    pub fn menu_commit_path(&mut self, p: &str) -> (r: Option<usize>)
        ensures
            match r {
                None => !(exists|i: int|
                    0 <= i < old(self).models().len() && path::lies_under(
                        (#[trigger] old(self).models()[i]).path,
                        p@,
                    )) && *final(self) == *old(self),
                Some(first) => ({
                    &&& first < old(self).files@.len()
                    &&& path::lies_under(old(self).models()[first as int].path, p@)
                    &&& forall|i: int|
                        0 <= i < first ==> !path::lies_under(
                            (#[trigger] old(self).models()[i]).path,
                            p@,
                        )
                    &&& final(self).same_files(old(self))
                    &&& final(self).selected == Some(first)
                    &&& final(self).commit_focus@ == paths_under(old(self).models(), p@)
                    &&& final(self).commit_checked@ == paths_under(old(self).models(), p@)
                    &&& final(self).commit_expanded@ == open_dirs(old(self).paths())
                    &&& final(self).rollback_checked@ == old(self).rollback_checked@
                    &&& final(self).rollback_delete_added == old(self).rollback_delete_added
                }),
            },
    {
        let mut i: usize = 0;
        while i < self.files.len()
            invariant
                i <= self.files@.len(),
                *self == *old(self),
                forall|k: int|
                    0 <= k < i ==> !path::lies_under((#[trigger] self.models()[k]).path, p@),
            decreases self.files@.len() - i,
        {
            proof {
                assert(self.models()[i as int] == self.files@[i as int].model());
            }
            if path::starts_with(self.files[i].path.as_str(), p) {
                self.rebuild_commit_view(false);
                self.selected = Some(i);
                let group = self.under_set(p);
                self.commit_focus = group.clone();
                self.commit_checked = group;
                return Some(i);
            }
            i += 1;
        }
        None
    }

    /// Prepares the rollback of what lies at or below a path. Returns whether there is anything.
    pub fn open_rollback_path(&mut self, p: &str) -> (r: bool)
        ensures
            r == exists|i: int|
                0 <= i < old(self).models().len() && path::lies_under(
                    (#[trigger] old(self).models()[i]).path,
                    p@,
                ),
            !r ==> *final(self) == *old(self),
            r ==> ({
                &&& final(self).same_files(old(self))
                &&& final(self).selected == old(self).selected
                &&& final(self).commit_focus@ == old(self).commit_focus@
                &&& final(self).commit_checked@ == old(self).commit_checked@
                &&& final(self).commit_expanded@ == old(self).commit_expanded@
                &&& final(self).rollback_checked@ == paths_under(old(self).models(), p@)
                &&& !final(self).rollback_delete_added
            }),
    {
        if !self.has_changes_under(p) {
            return false;
        }
        self.rollback_checked = self.under_set(p);
        self.rollback_delete_added = false;
        true
    }

    /// The files that are rolled back.
    pub fn rollback_targets(&self) -> (r: Vec<ChangedFile>)
        ensures
            porcelain::changed_models(r@) == checked_files(
                self.models(),
                self.rollback_checked@,
                self.files@.len() as int,
            ),
    {
        let mut r: Vec<ChangedFile> = Vec::new();
        let mut i: usize = 0;
        proof {
            assert(porcelain::changed_models(r@) =~= Seq::<ChangedModel>::empty());
        }
        while i < self.files.len()
            invariant
                i <= self.files@.len(),
                porcelain::changed_models(r@) == checked_files(
                    self.models(),
                    self.rollback_checked@,
                    i as int,
                ),
            decreases self.files@.len() - i,
        {
            let ghost before = porcelain::changed_models(r@);
            proof {
                assert(self.models()[i as int] == self.files@[i as int].model());
            }
            if self.rollback_checked.contains(self.files[i].path.as_str()) {
                r.push(self.files[i].clone());
                proof {
                    assert(porcelain::changed_models(r@) =~= before.push(self.models()[i as int]));
                }
            }
            i += 1;
        }
        r
    }

    /// Selects a changed file; no group is in focus then.
    pub fn select(&mut self, idx: usize)
        ensures
            final(self).same_files(old(self)),
            final(self).selected == Some(idx),
            final(self).commit_focus@ == Set::<Seq<Seq<char>>>::empty(),
            final(self).commit_checked@ == old(self).commit_checked@,
            final(self).commit_expanded@ == old(self).commit_expanded@,
            final(self).rollback_checked@ == old(self).rollback_checked@,
            final(self).rollback_delete_added == old(self).rollback_delete_added,
    {
        self.selected = Some(idx);
        self.commit_focus = PathSet::new();
    }

    /// Which file is selected after the changed files were read anew.
    pub fn refreshed_selection(&self) -> (r: Option<usize>)
        ensures
            r == if self.files@.len() == 0 {
                None
            } else {
                Some(in_range_or_first(self.selected, self.files@.len()))
            },
    {
        match self.selected {
            Some(i) if i < self.files.len() => Some(i),
            _ => if self.files.len() > 0 {
                Some(0)
            } else {
                None
            },
        }
    }

    /// Shows a tab. Returns what the diff panes show then.
    pub fn set_git_tab(&mut self, tab: GitTab) -> (r: Show)
        ensures
            final(self).files@ == old(self).files@,
            final(self).push_files@ == old(self).push_files@,
            final(self).selected == old(self).selected,
            final(self).commit_focus@ == old(self).commit_focus@,
            final(self).commit_checked@ == old(self).commit_checked@,
            final(self).commit_expanded@ == old(self).commit_expanded@,
            final(self).rollback_checked@ == old(self).rollback_checked@,
            final(self).rollback_delete_added == old(self).rollback_delete_added,
            final(self).git_tab == tab,
            final(self).focus_commit_msg == (old(self).focus_commit_msg || (tab == GitTab::Commit
                && old(self).git_tab != tab)),
            final(self).push_selected == if tab == GitTab::Push && old(self).git_tab != tab
                && old(self).push_files@.len() == 0 {
                None
            } else {
                old(self).push_selected
            },
            r == if old(self).git_tab == tab {
                Show::Same
            } else {
                match tab {
                    GitTab::Commit => if old(self).files@.len() == 0 {
                        Show::Nothing
                    } else {
                        Show::Changed(in_range_or_first(old(self).selected, old(self).files@.len()))
                    },
                    GitTab::Push => if old(self).push_files@.len() == 0 {
                        Show::Nothing
                    } else {
                        Show::Pushed(
                            in_range_or_first(old(self).push_selected, old(self).push_files@.len()),
                        )
                    },
                }
            },
    {
        if self.git_tab == tab {
            return Show::Same;
        }
        self.git_tab = tab;
        match tab {
            GitTab::Commit => {
                self.focus_commit_msg = true;
                if self.files.len() == 0 {
                    Show::Nothing
                } else {
                    match self.selected {
                        Some(i) if i < self.files.len() => Show::Changed(i),
                        _ => Show::Changed(0),
                    }
                }
            },
            GitTab::Push => {
                if self.push_files.len() == 0 {
                    self.push_selected = None;
                    Show::Nothing
                } else {
                    match self.push_selected {
                        Some(i) if i < self.push_files.len() => Show::Pushed(i),
                        _ => Show::Pushed(0),
                    }
                }
            },
        }
    }

    /// Leaves a tab that has become empty for the other one, if that has content. Outside of the
    /// commit view nothing happens.
    pub fn normalize_git_tab(&mut self, in_commit_view: bool) -> (r: Show)
        ensures
            final(self).files@ == old(self).files@,
            final(self).push_files@ == old(self).push_files@,
            final(self).selected == old(self).selected,
            final(self).push_selected == old(self).push_selected,
            final(self).git_tab == if in_commit_view {
                better_tab(old(self).git_tab, old(self).files@.len(), old(self).push_files@.len())
            } else {
                old(self).git_tab
            },
            final(self).git_tab == old(self).git_tab ==> r == Show::Same && *final(self) == *old(
                self,
            ),
            final(self).git_tab != old(self).git_tab ==> r == match final(self).git_tab {
                GitTab::Commit => Show::Changed(
                    in_range_or_first(old(self).selected, old(self).files@.len()),
                ),
                GitTab::Push => Show::Pushed(
                    in_range_or_first(old(self).push_selected, old(self).push_files@.len()),
                ),
            },
    {
        if !in_commit_view {
            return Show::Same;
        }
        match self.git_tab {
            GitTab::Commit => {
                if self.files.len() == 0 && self.push_files.len() > 0 {
                    self.set_git_tab(GitTab::Push)
                } else {
                    Show::Same
                }
            },
            GitTab::Push => {
                if self.push_files.len() == 0 && self.files.len() > 0 {
                    self.set_git_tab(GitTab::Commit)
                } else {
                    Show::Same
                }
            },
        }
    }

    /// The commit view is entered, with the changed files and the files to push just read: the
    /// tab that has work is shown, every file is checked, and the open file, else the selected
    /// one, else the first is to be shown.
    pub fn enter_commit(&mut self, open_path: Option<&str>) -> (r: Show)
        ensures
            final(self).files@ == old(self).files@,
            final(self).push_files@ == old(self).push_files@,
            final(self).push_selected == old(self).push_selected,
            final(self).commit_focus@ == old(self).commit_focus@,
            final(self).rollback_checked@ == old(self).rollback_checked@,
            final(self).rollback_delete_added == old(self).rollback_delete_added,
            final(self).focus_commit_msg,
            final(self).commit_expanded@ == open_dirs(old(self).paths()),
            final(self).commit_checked@ == pathset::path_set(old(self).paths()),
            final(self).git_tab == if old(self).files@.len() == 0 && old(self).push_files@.len()
                > 0 {
                GitTab::Push
            } else {
                GitTab::Commit
            },
            r == if final(self).git_tab == GitTab::Push {
                Show::Pushed(0)
            } else if old(self).files@.len() == 0 {
                Show::Nothing
            } else {
                Show::Changed(entry_selection(old(self).paths(), open_path, old(self).selected))
            },
            final(self).selected == if r == Show::Nothing {
                None
            } else {
                old(self).selected
            },
    {
        self.focus_commit_msg = true;
        if self.files.len() == 0 && self.push_files.len() > 0 {
            self.git_tab = GitTab::Push;
            self.rebuild_commit_view(true);
            return Show::Pushed(0);
        }
        self.git_tab = GitTab::Commit;
        self.rebuild_commit_view(true);
        if let Some(p) = open_path {
            let paths = self.file_paths();
            if let Some(i) = path::position_of(&paths, p) {
                return Show::Changed(i);
            }
        }
        match self.refreshed_selection() {
            Some(i) => Show::Changed(i),
            None => {
                self.selected = None;
                Show::Nothing
            },
        }
    }
}

/// The file that is shown when the commit view is entered.
pub open spec fn entry_selection(
    paths: Seq<Seq<char>>,
    open_path: Option<&str>,
    selected: Option<usize>,
) -> usize {
    match open_path {
        Some(p) => match path::position_from(paths, p@, 0) {
            Some(i) => i as usize,
            None => in_range_or_first(selected, paths.len()),
        },
        None => in_range_or_first(selected, paths.len()),
    }
}

proof fn lemma_under_step(fm: Seq<ChangedModel>, p: Seq<char>, i: int, k: Seq<Seq<char>>)
    requires
        0 <= i < fm.len(),
    ensures
        has_under(fm.take(i + 1), p, k) == (has_under(fm.take(i), p, k) || (path::lies_under(
            fm[i].path,
            p,
        ) && path::components(fm[i].path) == k)),
{
    let a = fm.take(i);
    let b = fm.take(i + 1);
    assert(b[i] == fm[i]);
    if has_under(a, p, k) {
        let j = choose|j: int|
            0 <= j < a.len() && path::lies_under((#[trigger] a[j]).path, p) && path::components(
                a[j].path,
            ) == k;
        assert(b[j] == a[j]);
    }
    if has_under(b, p, k) {
        let j = choose|j: int|
            0 <= j < b.len() && path::lies_under((#[trigger] b[j]).path, p) && path::components(
                b[j].path,
            ) == k;
        if j < i {
            assert(a[j] == b[j]);
        }
    }
}

/// The directories that show every path.
pub fn dirs_of(paths: &Vec<String>) -> (r: PathSet)
    ensures
        r@ == open_dirs(text::texts(paths@)),
{
    let ghost ps = text::texts(paths@);
    let mut r = PathSet::new();
    proof {
        reveal_strlit("");
        assert(""@ =~= Seq::<char>::empty());
        lemma_empty_path();
    }
    r.insert("");
    let mut i: usize = 0;
    proof {
        assert(r@ =~= open_dirs(ps.take(0)));
    }
    while i < paths.len()
        invariant
            i <= paths@.len(),
            ps == text::texts(paths@),
            r@ == open_dirs(ps.take(i as int)),
        decreases paths@.len() - i,
    {
        let ghost before = r@;
        r.insert_ancestors(paths[i].as_str());
        proof {
            let a = ps.take(i as int);
            let b = ps.take(i + 1);
            assert(b[i as int] == paths@[i as int]@);
            assert forall|k: Seq<Seq<char>>| r@.contains(k) <==> open_dirs(b).contains(k) by {
                if open_dirs(a).contains(k) && k != Seq::<Seq<char>>::empty() {
                    let j = choose|j: int|
                        0 <= j < a.len() && pathset::ancestors(
                            path::components(#[trigger] a[j]),
                        ).contains(k);
                    assert(b[j] == a[j]);
                }
                if open_dirs(b).contains(k) && k != Seq::<Seq<char>>::empty() {
                    let j = choose|j: int|
                        0 <= j < b.len() && pathset::ancestors(
                            path::components(#[trigger] b[j]),
                        ).contains(k);
                    if j < i {
                        assert(a[j] == b[j]);
                    }
                }
            }
            assert(r@ =~= open_dirs(b));
        }
        i += 1;
    }
    proof {
        assert(ps.take(ps.len() as int) =~= ps);
    }
    r
}

/// The empty path has no components.
pub proof fn lemma_empty_path()
    ensures
        path::components(Seq::<char>::empty()) == Seq::<Seq<char>>::empty(),
{
    let e = Seq::<char>::empty();
    assert(text::split_on(e, '/') == seq![e]);
    reveal_with_fuel(path::named_pieces, 2);
    assert(seq![e].drop_last() =~= Seq::<Seq<char>>::empty());
    assert(seq![e].last() == e);
    assert(seq![e][0] == e);
    assert(e != seq!['.']) by {
        assert(seq!['.'].len() == 1);
    }
    assert(path::path_head(e) == Seq::<Seq<char>>::empty());
    assert(path::named_pieces(seq![e]) == Seq::<Seq<char>>::empty());
}

/// Those of some paths that are in a set.
fn checked_paths(paths: &Vec<String>, set: &PathSet) -> (r: PathSet)
    ensures
        r@ == set@.intersect(pathset::path_set(text::texts(paths@))),
{
    let ghost ps = text::texts(paths@);
    let mut r = PathSet::new();
    let mut i: usize = 0;
    proof {
        assert(r@ =~= set@.intersect(pathset::path_set(ps.take(0))));
    }
    while i < paths.len()
        invariant
            i <= paths@.len(),
            ps == text::texts(paths@),
            r@ == set@.intersect(pathset::path_set(ps.take(i as int))),
        decreases paths@.len() - i,
    {
        proof {
            pathset::lemma_path_set_push(ps, i as int);
            assert(ps[i as int] == paths@[i as int]@);
        }
        if set.contains(paths[i].as_str()) {
            r.insert(paths[i].as_str());
        }
        proof {
            assert(r@ =~= set@.intersect(pathset::path_set(ps.take(i + 1))));
        }
        i += 1;
    }
    proof {
        assert(ps.take(ps.len() as int) =~= ps);
    }
    r
}

/// What is done to a file that is rolled back.
pub fn rollback_step(status: FileStatus, delete_added: bool) -> (r: Rollback)
    ensures
        r == rollback_of(status, delete_added),
{
    match status {
        FileStatus::Untracked => if delete_added {
            Rollback::Delete
        } else {
            Rollback::Keep
        },
        FileStatus::Added => if delete_added {
            Rollback::UnstageAndDelete
        } else {
            Rollback::Unstage
        },
        _ => Rollback::Discard,
    }
}

/// The positions below a path are exactly those of the files that lie there, in order.
pub proof fn lemma_under(files: Seq<ChangedModel>, p: Seq<char>, n: int)
    requires
        0 <= n <= files.len(),
    ensures
        forall|k: int| #[trigger]
            under(files, p, n).contains(k) <==> 0 <= k < n && path::lies_under(files[k].path, p),
        forall|i: int, j: int|
            0 <= i < j < under(files, p, n).len() ==> (#[trigger] under(files, p, n)[i])
                < #[trigger] under(files, p, n)[j],
        forall|i: int|
            0 <= i < under(files, p, n).len() ==> 0 <= #[trigger] under(files, p, n)[i] < n,
    decreases n,
{
    if n > 0 {
        lemma_under(files, p, n - 1);
        let d = under(files, p, n - 1);
        let r = under(files, p, n);
        assert forall|k: int| #[trigger] r.contains(k) <==> 0 <= k < n && path::lies_under(
            files[k].path,
            p,
        ) by {
            if r.contains(k) {
                let i = choose|i: int| 0 <= i < r.len() && r[i] == k;
                if i < d.len() {
                    assert(d[i] == k);
                    assert(d.contains(k));
                }
            }
            if 0 <= k < n && path::lies_under(files[k].path, p) {
                if k < n - 1 {
                    assert(d.contains(k));
                    let i = choose|i: int| 0 <= i < d.len() && d[i] == k;
                    assert(r[i] == k);
                } else {
                    assert(r[r.len() - 1] == k);
                }
            }
        }
        assert forall|i: int| 0 <= i < r.len() implies 0 <= #[trigger] r[i] < n by {
            if i < d.len() {
                assert(r[i] == d[i]);
            }
        }
        assert forall|i: int, j: int| 0 <= i < j < r.len() implies (#[trigger] r[i])
            < #[trigger] r[j] by {
            assert(r[i] == d[i]);
            if j < d.len() {
                assert(r[j] == d[j]);
            }
        }
    }
}

/// The checked files are exactly the files whose paths are checked, in order.
pub proof fn lemma_checked_files(files: Seq<ChangedModel>, set: Set<Seq<Seq<char>>>, n: int)
    requires
        0 <= n <= files.len(),
    ensures
        checked_files(files, set, n).len() <= n,
        forall|f: ChangedModel| #[trigger]
            checked_files(files, set, n).contains(f) <==> files.take(n).contains(f) && set.contains(
                path::components(f.path),
            ),
        (forall|i: int| 0 <= i < n ==> set.contains(path::components((#[trigger] files[i]).path)))
            ==> checked_files(files, set, n) == files.take(n),
    decreases n,
{
    let t = files.take(n);
    let r = checked_files(files, set, n);
    if n > 0 {
        lemma_checked_files(files, set, n - 1);
        let d = checked_files(files, set, n - 1);
        let td = files.take(n - 1);
        let x = files[n - 1];
        assert(td.push(x) =~= t);
        assert forall|f: ChangedModel| #[trigger] r.contains(f) <==> t.contains(f) && set.contains(
            path::components(f.path),
        ) by {
            if r.contains(f) {
                let i = choose|i: int| 0 <= i < r.len() && r[i] == f;
                if i < d.len() {
                    assert(d[i] == f);
                    assert(d.contains(f));
                    let k = choose|k: int| 0 <= k < td.len() && td[k] == f;
                    assert(t[k] == f);
                } else {
                    assert(t[n - 1] == f);
                }
            }
            if t.contains(f) && set.contains(path::components(f.path)) {
                let k = choose|k: int| 0 <= k < t.len() && t[k] == f;
                if k < n - 1 {
                    assert(td[k] == f);
                    assert(d.contains(f));
                    let i = choose|i: int| 0 <= i < d.len() && d[i] == f;
                    assert(r[i] == f);
                } else {
                    assert(r[r.len() - 1] == f);
                }
            }
        }
        if forall|i: int| 0 <= i < n ==> set.contains(path::components((#[trigger] files[i]).path)) {
            assert(set.contains(path::components(files[n - 1].path)));
        }
    } else {
        assert(t =~= Seq::<ChangedModel>::empty());
        assert(r =~= t);
    }
}

/// A file that is edited is among the changed files afterwards, as a modified one if it was not
/// there; what is there stays as it is.
pub proof fn lemma_with_modified(files: Seq<ChangedModel>, p: Seq<char>)
    ensures
        ({
            let had = exists|i: int|
                0 <= i < files.len() && path::same((#[trigger] files[i]).path, p);
            &&& had ==> with_modified(files, p) == files
            &&& !had ==> with_modified(files, p) == files.push(
                ChangedModel { path: p, status: FileStatus::Modified },
            )
        }),
        with_modified(with_modified(files, p), p) == with_modified(files, p),
{
    let ps = porcelain::paths_of(files);
    path::lemma_position(ps, p, 0);
    assert forall|i: int| 0 <= i < files.len() implies (#[trigger] files[i]).path == ps[i] by {}
    if path::position_from(ps, p, 0) is None {
        assert forall|i: int| 0 <= i < files.len() implies !path::same(
            (#[trigger] files[i]).path,
            p,
        ) by {
            assert(!path::same(ps[i], p));
        }
        let w = with_modified(files, p);
        let qs = porcelain::paths_of(w);
        path::lemma_position(qs, p, 0);
        assert(qs[files.len() as int] == p);
        assert(path::same(qs[files.len() as int], p));
    }
}

/// A selection that is in range is kept, and every other is the first.
pub proof fn lemma_in_range_or_first(sel: Option<usize>, n: nat)
    ensures
        in_range_or_first(sel, n) < n || in_range_or_first(sel, n) == 0,
        sel matches Some(i) ==> i < n ==> in_range_or_first(sel, n) == i,
        sel is None ==> in_range_or_first(sel, n) == 0,
        sel matches Some(i) ==> i >= n ==> in_range_or_first(sel, n) == 0,
{
}

/// All directories that a changed file lies in are open, up to the root; and a directory is open
/// only if one of the files lies in it.
pub proof fn lemma_open_dirs(paths: Seq<Seq<char>>, i: int, k: int, a: Seq<Seq<char>>)
    requires
        0 <= i < paths.len(),
    ensures
        open_dirs(paths).contains(Seq::empty()),
        0 < k < path::components(paths[i]).len() ==> open_dirs(paths).contains(
            path::components(paths[i]).take(k),
        ),
        open_dirs(paths).contains(a) && a.len() > 0 ==> exists|j: int|
            0 <= j < paths.len() && a.len() < path::components(#[trigger] paths[j]).len()
                && path::components(paths[j]).take(a.len() as int) == a,
{
    let c = path::components(paths[i]);
    if 0 < k < c.len() {
        assert(pathset::is_ancestor(c, k));
        assert(pathset::ancestors(path::components(paths[i])).contains(c.take(k)));
    }
    if open_dirs(paths).contains(a) && a.len() > 0 {
        let j = choose|j: int|
            0 <= j < paths.len() && pathset::ancestors(
                path::components(#[trigger] paths[j]),
            ).contains(a);
        let d = path::components(paths[j]);
        let n = choose|n: int| #[trigger] pathset::is_ancestor(d, n) && a == d.take(n);
        assert(d.take(n).len() == n);
    }
}

/// What stands below a path is all of the files there and nothing else, whatever their order.
pub proof fn lemma_paths_under(files: Seq<ChangedModel>, p: Seq<char>, i: int, k: Seq<Seq<char>>)
    requires
        0 <= i < files.len(),
    ensures
        path::lies_under(files[i].path, p) ==> paths_under(files, p).contains(
            path::components(files[i].path),
        ),
        paths_under(files, p).contains(k) ==> text::begins_with(k, path::components(p)),
        paths_under(files, p).contains(k) ==> exists|j: int|
            0 <= j < files.len() && path::components((#[trigger] files[j]).path) == k,
{
    if path::lies_under(files[i].path, p) {
        assert(has_under(files, p, path::components(files[i].path)));
    }
}

/// The commit view is entered at the open file if it changed, else at the selected one if there is
/// one, else at the first.
pub proof fn lemma_entry_selection(
    paths: Seq<Seq<char>>,
    open_path: Option<&str>,
    selected: Option<usize>,
)
    requires
        0 < paths.len() <= usize::MAX,
    ensures
        ({
            let i = entry_selection(paths, open_path, selected) as int;
            let among = open_path matches Some(p) && exists|k: int|
                0 <= k < paths.len() && path::same(#[trigger] paths[k], p@);
            &&& 0 <= i < paths.len()
            &&& among ==> path::same(paths[i], open_path->0@)
            &&& !among && selected is Some && selected->0 < paths.len() ==> i == selected->0
            &&& !among && !(selected is Some && selected->0 < paths.len()) ==> i == 0
        }),
{
    if let Some(p) = open_path {
        path::lemma_position(paths, p@, 0);
    }
}

/// A tab is left only if there is nothing in it and something in the other.
pub proof fn lemma_tab_left(tab: GitTab, files: nat, push_files: nat)
    ensures
        better_tab(GitTab::Commit, files, push_files) == GitTab::Push <==> files == 0 && push_files
            > 0,
        better_tab(GitTab::Push, files, push_files) == GitTab::Commit <==> push_files == 0 && files
            > 0,
        files == 0 && push_files == 0 ==> better_tab(tab, files, push_files) == tab,
        files > 0 && push_files > 0 ==> better_tab(tab, files, push_files) == tab,
{
}

} // verus!
