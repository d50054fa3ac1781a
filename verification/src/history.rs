//! The history view: the commits of a revision, and what a commit changed.

use crate::changes;
use crate::git::{ChangedFile, Commit};
use crate::model::Modeled;
use crate::pathset::PathSet;
use crate::porcelain;
use crate::text;
use vstd::prelude::*;

verus! {

broadcast use vstd::seq_lib::group_seq_properties;

/// How many commits are read at most.
pub const HISTORY_LIMIT: usize = 300;

/// What a commit is compared with.
#[derive(Debug, Clone, Copy, PartialEq, Eq, Structural)]
pub enum CompareMode {
    /// Its parent with it.
    Before,
    /// It with the working tree.
    Local,
    /// Its parent with the working tree.
    BeforeLocal,
}

/// Two revisions that are compared; without a second one, the working tree.
pub struct Revs {
    pub from: String,
    pub to: Option<String>,
}

/// The revisions that a commit is looked at in.
pub open spec fn compared(mode: CompareMode, hash: Seq<char>) -> (Seq<char>, Option<Seq<char>>) {
    match mode {
        CompareMode::Before => (hash + "^"@, Some(hash)),
        CompareMode::Local => (hash, None),
        CompareMode::BeforeLocal => (hash + "^"@, None),
    }
}

/// A file of a commit that is to be shown.
pub struct FileRequest {
    pub path: String,
    pub revs: Revs,
    /// The right side is the working tree, so it can be edited.
    pub editable: bool,
}

pub struct History {
    /// The revision whose commits are shown.
    pub rev: String,
    /// The directory or file whose commits are shown.
    pub path: Option<String>,
    pub commits: Vec<Commit>,
    pub selected: Option<usize>,
    /// What the selected commit changed.
    pub files: Vec<ChangedFile>,
    pub file_selected: Option<usize>,
    /// The directories that are shown open.
    pub files_expanded: PathSet,
    pub compare: CompareMode,
    pub compare_open: bool,
    pub branch_open: bool,
    pub locals: Vec<String>,
    pub remotes: Vec<String>,
}

impl History {
    /// Nothing was read or chosen.
    pub open spec fn is_new(&self) -> bool {
        &&& self.rev@ == "HEAD"@
        &&& self.path is None
        &&& self.commits@.len() == 0
        &&& self.selected is None
        &&& self.files@.len() == 0
        &&& self.file_selected is None
        &&& self.files_expanded@ == Set::<Seq<Seq<char>>>::empty()
        &&& self.compare == CompareMode::Local
        &&& !self.compare_open
        &&& !self.branch_open
        &&& self.locals@.len() == 0
        &&& self.remotes@.len() == 0
    }

    pub fn new() -> (r: Self)
        ensures
            r.is_new(),
    {
        History {
            rev: String::from_str("HEAD"),
            path: None,
            commits: Vec::new(),
            selected: None,
            files: Vec::new(),
            file_selected: None,
            files_expanded: PathSet::new(),
            compare: CompareMode::Local,
            compare_open: false,
            branch_open: false,
            locals: Vec::new(),
            remotes: Vec::new(),
        }
    }

    /// Nothing but revision and path, and what is selected of what they give, differs.
    pub open spec fn same_setup(&self, other: &Self) -> bool {
        &&& self.compare == other.compare
        &&& self.compare_open == other.compare_open
        &&& self.locals@ == other.locals@
        &&& self.remotes@ == other.remotes@
    }

    /// The history of the current branch is entered, of what lies at or below `path`; an empty
    /// path is the whole project. The commits are to be read then.
    pub fn enter_history(&mut self, path: Option<&str>, branch: Option<&str>)
        ensures
            final(self).path.m() == match path {
                Some(p) => if p@.len() == 0 {
                    None
                } else {
                    Some(p@)
                },
                None => None,
            },
            final(self).rev@ == match branch {
                Some(b) => b@,
                None => "HEAD"@,
            },
            *final(self) == (History {
                path: final(self).path,
                rev: final(self).rev,
                ..*old(self)
            }),
    {
        self.path = match path {
            Some(p) => if p.is_empty() {
                None
            } else {
                Some(String::from_str(p))
            },
            None => None,
        };
        self.rev = match branch {
            Some(b) => String::from_str(b),
            None => String::from_str("HEAD"),
        };
    }

    /// The commits were read. Returns whether the first of them is to be selected.
    pub fn reload_history(&mut self, commits: Vec<Commit>) -> (r: bool)
        ensures
            r == (commits@.len() > 0),
            final(self).commits@ == commits@,
            final(self).selected is None,
            final(self).files@.len() == 0,
            final(self).file_selected is None,
            final(self).files_expanded@ == old(self).files_expanded@,
            final(self).rev == old(self).rev,
            final(self).path == old(self).path,
            final(self).branch_open == old(self).branch_open,
            final(self).same_setup(old(self)),
    {
        self.commits = commits;
        self.selected = None;
        self.files = Vec::new();
        self.file_selected = None;
        self.commits.len() > 0
    }

    /// Another revision is looked at. Its commits are to be read then.
    pub fn set_history_rev(&mut self, rev: &str)
        ensures
            final(self).rev@ == rev@,
            !final(self).branch_open,
            final(self).path == old(self).path,
            final(self).commits@ == old(self).commits@,
            final(self).selected == old(self).selected,
            final(self).files@ == old(self).files@,
            final(self).file_selected == old(self).file_selected,
            final(self).files_expanded@ == old(self).files_expanded@,
            final(self).same_setup(old(self)),
    {
        self.rev = String::from_str(rev);
        self.branch_open = false;
    }

    /// The list of branches is opened, with the branches that were read, or closed.
    pub fn toggle_history_branches(&mut self, read: Option<(Vec<String>, Vec<String>)>)
        ensures
            final(self).branch_open == !old(self).branch_open,
            final(self).locals@ == match read {
                Some((l, r)) => if old(self).branch_open {
                    old(self).locals@
                } else {
                    l@
                },
                None => old(self).locals@,
            },
            final(self).remotes@ == match read {
                Some((l, r)) => if old(self).branch_open {
                    old(self).remotes@
                } else {
                    r@
                },
                None => old(self).remotes@,
            },
            final(self).rev == old(self).rev,
            final(self).path == old(self).path,
            final(self).commits@ == old(self).commits@,
            final(self).selected == old(self).selected,
            final(self).files@ == old(self).files@,
            final(self).file_selected == old(self).file_selected,
            final(self).files_expanded@ == old(self).files_expanded@,
            final(self).compare == old(self).compare,
            final(self).compare_open == old(self).compare_open,
    {
        if !self.branch_open {
            if let Some((l, r)) = read {
                self.locals = l;
                self.remotes = r;
            }
        }
        self.branch_open = !self.branch_open;
    }

    /// The revisions that a commit is looked at in.
    pub fn history_revs(&self, hash: &str) -> (r: Revs)
        ensures
            (r.from@, r.to.m()) == compared(self.compare, hash@),
    {
        match self.compare {
            CompareMode::Before => Revs { from: parent_rev(hash), to: Some(String::from_str(hash)) },
            CompareMode::Local => Revs { from: String::from_str(hash), to: None },
            CompareMode::BeforeLocal => Revs { from: parent_rev(hash), to: None },
        }
    }

    /// A commit is selected. Returns the revisions to compare, if there is such a commit.
    pub fn select_history_commit(&mut self, idx: usize) -> (r: Option<Revs>)
        ensures
            final(self).selected == Some(idx),
            final(self).files@.len() == 0,
            final(self).file_selected is None,
            final(self).files_expanded@ == old(self).files_expanded@,
            final(self).commits@ == old(self).commits@,
            final(self).rev == old(self).rev,
            final(self).path == old(self).path,
            final(self).branch_open == old(self).branch_open,
            final(self).same_setup(old(self)),
            match r {
                Some(v) => idx < old(self).commits@.len() && (v.from@, v.to.m()) == compared(
                    old(self).compare,
                    old(self).commits@[idx as int].hash@,
                ),
                None => idx >= old(self).commits@.len(),
            },
    {
        self.selected = Some(idx);
        self.files = Vec::new();
        self.file_selected = None;
        if idx < self.commits.len() {
            Some(self.history_revs(self.commits[idx].hash.as_str()))
        } else {
            None
        }
    }

    /// The files that the selected commit changed were read. All of them are shown. Returns
    /// whether the first of them is to be selected.
    pub fn history_files_found(&mut self, files: Vec<ChangedFile>) -> (r: bool)
        ensures
            r == (files@.len() > 0),
            final(self).files@ == files@,
            final(self).files_expanded@ == changes::open_dirs(
                porcelain::paths_of(porcelain::changed_models(files@)),
            ),
            final(self).file_selected == old(self).file_selected,
            final(self).selected == old(self).selected,
            final(self).commits@ == old(self).commits@,
            final(self).rev == old(self).rev,
            final(self).path == old(self).path,
            final(self).branch_open == old(self).branch_open,
            final(self).same_setup(old(self)),
    {
        let mut paths: Vec<String> = Vec::new();
        let mut i: usize = 0;
        while i < files.len()
            invariant
                i <= files@.len(),
                paths@.len() == i,
                forall|k: int| 0 <= k < i ==> (#[trigger] paths@[k])@ == files@[k].path@,
            decreases files@.len() - i,
        {
            paths.push(files[i].path.clone());
            i += 1;
        }
        proof {
            assert(text::texts(paths@) =~= porcelain::paths_of(porcelain::changed_models(files@)));
        }
        self.files_expanded = changes::dirs_of(&paths);
        self.files = files;
        self.files.len() > 0
    }

    /// What is compared changes. Returns the commit that is to be selected anew.
    pub fn set_history_compare(&mut self, mode: CompareMode) -> (r: Option<usize>)
        ensures
            r == old(self).selected,
            *final(self) == (History { compare: mode, compare_open: false, ..*old(self) }),
    {
        self.compare = mode;
        self.compare_open = false;
        self.selected
    }

    /// A file of the selected commit is selected. Returns what is to be shown, if there are such
    /// a commit and such a file.
    pub fn select_history_file(&mut self, idx: usize) -> (r: Option<FileRequest>)
        ensures
            final(self).file_selected == Some(idx),
            final(self).selected == old(self).selected,
            final(self).commits@ == old(self).commits@,
            final(self).files@ == old(self).files@,
            final(self).files_expanded@ == old(self).files_expanded@,
            final(self).rev == old(self).rev,
            final(self).path == old(self).path,
            final(self).branch_open == old(self).branch_open,
            final(self).same_setup(old(self)),
            match r {
                Some(q) => ({
                    &&& old(self).selected is Some
                    &&& old(self).selected->0 < old(self).commits@.len()
                    &&& idx < old(self).files@.len()
                    &&& q.path@ == old(self).files@[idx as int].path@
                    &&& (q.revs.from@, q.revs.to.m()) == compared(
                        old(self).compare,
                        old(self).commits@[old(self).selected->0 as int].hash@,
                    )
                    &&& q.editable == (q.revs.to is None)
                }),
                None => old(self).selected is None || old(self).selected->0 >= old(
                    self,
                ).commits@.len() || idx >= old(self).files@.len(),
            },
    {
        self.file_selected = Some(idx);
        let c: usize = match self.selected {
            Some(c) => c,
            None => {
                return None;
            },
        };
        if c >= self.commits.len() || idx >= self.files.len() {
            return None;
        }
        let revs = self.history_revs(self.commits[c].hash.as_str());
        let editable = revs.to.is_none();
        Some(FileRequest { path: self.files[idx].path.clone(), revs, editable })
    }
}

fn parent_rev(hash: &str) -> (r: String)
    ensures
        r@ == hash@ + "^"@,
{
    let mut s = String::from_str(hash);
    s.append("^");
    s
}

/// What is compared with the working tree, and nothing else, can be edited.
pub proof fn lemma_editable(mode: CompareMode, hash: Seq<char>)
    ensures
        compared(mode, hash).1 is None <==> mode != CompareMode::Before,
{
}

/// A commit is compared with its parent unless it is compared as it stands with the working
/// tree; the other side is the commit itself in one mode and the working tree in the others.
pub proof fn lemma_compared(mode: CompareMode, hash: Seq<char>)
    ensures
        compared(mode, hash).0 == hash <==> mode == CompareMode::Local,
        compared(mode, hash).0 == hash.push('^') <==> mode != CompareMode::Local,
        compared(mode, hash).1 == Some(hash) <==> mode == CompareMode::Before,
        compared(mode, hash).1 is None <==> mode != CompareMode::Before,
{
    reveal_strlit("^");
    assert("^"@ =~= seq!['^']);
    assert(hash + seq!['^'] =~= hash.push('^'));
    assert(hash.push('^').len() == hash.len() + 1);
}

} // verus!
