//! Operations that run in the background: when they may start, what they run, and what is said
//! when they fail.

use crate::git;
use crate::git::{GitError, GitErrorModel, Reply, ReplyModel, Repo, Step, Turn};
use crate::model::Modeled;
use crate::path;
use crate::pathset::PathSet;
use crate::text;
use vstd::prelude::*;

verus! {

broadcast use vstd::seq_lib::group_seq_properties;

// ---------------------------------------------------------------------------
// Running operations
// ---------------------------------------------------------------------------

/// Which operations run, and what is shown of those that failed.
pub struct Operations {
    pub pushing: bool,
    pub pulling: bool,
    pub fetching: bool,
    pub committing: bool,
    pub updating: bool,
    /// Why the last push or pull failed.
    pub push_msg: Option<String>,
    /// What the error banner says.
    pub op_error: Option<String>,
}

#[verifier::ext_equal]
pub struct OperationsModel {
    pub pushing: bool,
    pub pulling: bool,
    pub fetching: bool,
    pub committing: bool,
    pub updating: bool,
    pub push_msg: Option<Seq<char>>,
    pub op_error: Option<Seq<char>>,
}

/// A version that can be installed.
pub struct Release {
    /// The address of its archive, empty if it has none.
    pub zip_url: String,
    /// The address of its page, empty if it has none.
    pub page_url: String,
}

/// What is done about a version that can be installed.
pub enum Update {
    Nothing,
    /// Download the archive and put it in the place of the running bundle.
    Swap { zip: String, bundle: String },
    /// Download the archive and show it.
    Download(String),
    /// Open a page.
    Page(String),
}

pub open spec fn failed_text(what: Seq<char>, e: Seq<char>) -> Seq<char> {
    what + " failed: "@ + e
}

fn failed_message(what: &str, e: &str) -> (r: String)
    ensures
        r@ == failed_text(what@, e@),
{
    let mut s = String::from_str(what);
    s.append(" failed: ");
    s.append(e);
    s
}

impl Modeled for Operations {
    type M = OperationsModel;

    open spec fn m(&self) -> OperationsModel {
        OperationsModel {
            pushing: self.pushing,
            pulling: self.pulling,
            fetching: self.fetching,
            committing: self.committing,
            updating: self.updating,
            push_msg: self.push_msg.m(),
            op_error: self.op_error.m(),
        }
    }
}

impl Operations {
    pub fn new() -> (r: Self)
        ensures
            r.m() == (OperationsModel {
                pushing: false,
                pulling: false,
                fetching: false,
                committing: false,
                updating: false,
                push_msg: None,
                op_error: None,
            }),
    {
        Operations {
            pushing: false,
            pulling: false,
            fetching: false,
            committing: false,
            updating: false,
            push_msg: None,
            op_error: None,
        }
    }

    /// Starts a push, unless one runs or no project is open. Returns whether it starts.
    pub fn do_push(&mut self, has_root: bool) -> (r: bool)
        ensures
            r == (!old(self).pushing && has_root),
            final(self).m() == if r {
                OperationsModel { pushing: true, push_msg: None, ..old(self).m() }
            } else {
                old(self).m()
            },
    {
        if self.pushing || !has_root {
            return false;
        }
        self.pushing = true;
        self.push_msg = None;
        true
    }

    /// A push has ended.
    pub fn push_done(&mut self, err: Option<String>)
        ensures
            final(self).m() == (OperationsModel {
                pushing: false,
                push_msg: err.m(),
                ..old(self).m()
            }),
    {
        self.pushing = false;
        self.push_msg = err;
    }

    /// Starts a pull, unless one runs or no project is open. Returns whether it starts.
    pub fn do_pull(&mut self, has_root: bool) -> (r: bool)
        ensures
            r == (!old(self).pulling && has_root),
            final(self).m() == if r {
                OperationsModel { pulling: true, push_msg: None, ..old(self).m() }
            } else {
                old(self).m()
            },
    {
        if self.pulling || !has_root {
            return false;
        }
        self.pulling = true;
        self.push_msg = None;
        true
    }

    /// A pull has ended.
    pub fn pull_done(&mut self, err: Option<String>)
        ensures
            final(self).m() == (OperationsModel {
                pulling: false,
                push_msg: err.m(),
                ..old(self).m()
            }),
    {
        self.pulling = false;
        self.push_msg = err;
    }

    /// Starts a fetch, unless one runs or no project is open. Returns whether it starts.
    pub fn do_fetch(&mut self, has_root: bool) -> (r: bool)
        ensures
            r == (!old(self).fetching && has_root),
            final(self).m() == if r {
                OperationsModel { fetching: true, push_msg: None, ..old(self).m() }
            } else {
                old(self).m()
            },
    {
        if self.fetching || !has_root {
            return false;
        }
        self.fetching = true;
        self.push_msg = None;
        true
    }

    /// A fetch has ended.
    pub fn fetch_done(&mut self)
        ensures
            final(self).m() == (OperationsModel { fetching: false, ..old(self).m() }),
    {
        self.fetching = false;
    }

    /// Starts a commit with the message that was typed, unless one runs, the message is blank,
    /// nothing is checked or no project is open. Returns the message.
    pub fn commit_now(&mut self, typed: &str, any_checked: bool, has_root: bool) -> (r: Option<
        String,
    >)
        ensures
            match r {
                Some(msg) => !old(self).committing && any_checked && has_root && msg@ == text::trim(
                    typed@,
                ) && msg@.len() > 0 && final(self).m() == (OperationsModel {
                    committing: true,
                    ..old(self).m()
                }),
                None => (old(self).committing || !any_checked || !has_root || text::trim(
                    typed@,
                ).len() == 0) && final(self).m() == old(self).m(),
            },
    {
        if self.committing {
            return None;
        }
        let msg = text::trim_str(typed);
        if msg.as_str().is_empty() || !any_checked || !has_root {
            return None;
        }
        self.committing = true;
        Some(msg)
    }

    /// A commit has ended. Returns whether it worked; then the message box is emptied.
    pub fn commit_done(&mut self, err: Option<&str>) -> (r: bool)
        ensures
            r == (err is None),
            final(self).m() == match err {
                None => OperationsModel { committing: false, ..old(self).m() },
                Some(e) => OperationsModel {
                    committing: false,
                    op_error: Some(failed_text("Commit"@, e@)),
                    ..old(self).m()
                },
            },
    {
        self.committing = false;
        match err {
            None => true,
            Some(e) => {
                self.fail("Commit", e);
                false
            },
        }
    }

    /// Shows that an operation failed.
    pub fn fail(&mut self, what: &str, e: &str)
        ensures
            final(self).m() == (OperationsModel {
                op_error: Some(failed_text(what@, e@)),
                ..old(self).m()
            }),
    {
        self.op_error = Some(failed_message(what, e));
    }

    /// Shows that an operation failed, if it did. This comes after the project was read anew,
    /// which takes away an older error.
    pub fn report(&mut self, what: &str, err: Option<&str>)
        ensures
            final(self).m() == match err {
                Some(e) => OperationsModel {
                    op_error: Some(failed_text(what@, e@)),
                    ..old(self).m()
                },
                None => old(self).m(),
            },
    {
        if let Some(e) = err {
            self.fail(what, e);
        }
    }

    pub fn dismiss_op_error(&mut self)
        ensures
            final(self).m() == (OperationsModel { op_error: None, ..old(self).m() }),
    {
        self.op_error = None;
    }

    /// The changed files were read: that takes away an error, or shows a new one.
    pub fn status_read(&mut self, err: Option<&str>)
        ensures
            final(self).m() == (OperationsModel {
                op_error: match err {
                    Some(e) => Some(failed_text("Reading status"@, e@)),
                    None => None,
                },
                ..old(self).m()
            }),
    {
        match err {
            None => {
                self.op_error = None;
            },
            Some(e) => {
                self.fail("Reading status", e);
            },
        }
    }

    /// What is done about a version that can be installed: with an archive, the running bundle
    /// is replaced if there is one, else the archive is downloaded, but not twice at a time;
    /// without one, a page is opened.
    pub fn do_update(&mut self, release: Option<&Release>, bundle: Option<&str>) -> (r: Update)
        ensures
            match (release, bundle) {
                (None, _) => r is Nothing,
                (Some(rel), Some(b)) => if rel.zip_url@.len() == 0 {
                    r matches Update::Page(u) && u@ == page_of(rel.page_url@)
                } else if old(self).updating {
                    r is Nothing
                } else {
                    r matches Update::Swap { zip, bundle } && zip@ == rel.zip_url@ && bundle@ == b@
                },
                (Some(rel), None) => if rel.zip_url@.len() == 0 {
                    r matches Update::Page(u) && u@ == page_of(rel.page_url@)
                } else if old(self).updating {
                    r is Nothing
                } else {
                    r matches Update::Download(zip) && zip@ == rel.zip_url@
                },
            },
            final(self).m() == (OperationsModel {
                updating: old(self).updating || r is Swap || r is Download,
                ..old(self).m()
            }),
    {
        let rel = match release {
            Some(r) => r,
            None => {
                return Update::Nothing;
            },
        };
        if rel.zip_url.as_str().is_empty() {
            if rel.page_url.as_str().is_empty() {
                return Update::Page(
                    String::from_str("https://github.com/kyle-ssg/kyde/releases/latest"),
                );
            }
            return Update::Page(rel.page_url.clone());
        }
        if self.updating {
            return Update::Nothing;
        }
        self.updating = true;
        match bundle {
            Some(b) => Update::Swap { zip: rel.zip_url.clone(), bundle: String::from_str(b) },
            None => Update::Download(rel.zip_url.clone()),
        }
    }

    /// An update has ended; `what` is "Update" or "Download".
    pub fn update_done(&mut self, what: &str, err: Option<&str>)
        ensures
            final(self).m() == match err {
                Some(e) => OperationsModel {
                    updating: false,
                    op_error: Some(failed_text(what@, e@)),
                    ..old(self).m()
                },
                None => OperationsModel { updating: false, ..old(self).m() },
            },
    {
        self.updating = false;
        self.report(what, err);
    }
}

/// The page of a release, or that of the latest one.
pub open spec fn page_of(page: Seq<char>) -> Seq<char> {
    if page.len() == 0 {
        "https://github.com/kyle-ssg/kyde/releases/latest"@
    } else {
        page
    }
}

// ---------------------------------------------------------------------------
// Waiting for the last of many events
// ---------------------------------------------------------------------------

/// Counts events, so that only what follows the last of a burst is done.
#[derive(Debug, Clone, Copy)]
pub struct Debounce {
    gen: u64,
}

impl View for Debounce {
    type V = u64;

    closed spec fn view(&self) -> u64 {
        self.gen
    }
}

/// The number of the event after the one with this number.
pub open spec fn next_event(gen: u64) -> u64 {
    if gen == u64::MAX {
        0
    } else {
        (gen + 1) as u64
    }
}

impl Debounce {
    pub fn new() -> (r: Self)
        ensures
            r@ == 0,
    {
        Debounce { gen: 0 }
    }

    /// Another event. Returns its number.
    pub fn bump(&mut self) -> (r: u64)
        ensures
            r == final(self)@,
            r == next_event(old(self)@),
            r != old(self)@,
    {
        self.gen = self.gen.wrapping_add(1);
        self.gen
    }

    /// Whether no event came after the one with this number.
    pub fn is_latest(&self, gen: u64) -> (r: bool)
        ensures
            r == (gen == self@),
    {
        self.gen == gen
    }
}

// ---------------------------------------------------------------------------
// Committing
// ---------------------------------------------------------------------------

/// The command that stages or unstages a path.
pub open spec fn stage_command(root: Seq<char>, p: Seq<char>, stage: bool) -> git::CmdModel {
    if stage {
        git::command(root, seq!["add"@, "--"@, p])
    } else {
        git::command(root, seq!["restore"@, "--staged"@, "--"@, p])
    }
}

pub open spec fn commit_command(root: Seq<char>, msg: Seq<char>) -> git::CmdModel {
    git::CmdModel { dir: root, args: seq!["commit"@, "-F"@, "-"@], stdin: Some(msg) }
}

/// Stages the checked paths from `i` on and unstages the others, then commits. What fails ends
/// it.
pub open spec fn commit_turn(
    rs: Seq<ReplyModel>,
    root: Seq<char>,
    all: Seq<Seq<char>>,
    checked: Set<Seq<Seq<char>>>,
    msg: Seq<char>,
    i: int,
) -> Turn<Result<(), GitErrorModel>>
    decreases all.len() - i,
{
    if 0 <= i < all.len() {
        match git::ask(
            rs,
            i,
            stage_command(root, all[i], checked.contains(path::components(all[i]))),
        ) {
            Turn::Ask(c) => Turn::Ask(c),
            Turn::Have(ReplyModel::Failed(e), n) => Turn::Have(Err(GitErrorModel::Failed(e)), n),
            Turn::Have(ReplyModel::Out(_), n) => commit_turn(rs, root, all, checked, msg, i + 1),
        }
    } else {
        match git::ask(rs, i, commit_command(root, msg)) {
            Turn::Ask(c) => Turn::Ask(c),
            Turn::Have(r, n) => Turn::Have(git::done_unit(r), n),
        }
    }
}

/// Stages the checked paths, unstages the others, then commits.
pub fn commit_steps(
    repo: &Repo,
    all: &Vec<String>,
    checked: &PathSet,
    msg: &str,
    replies: &Vec<Reply>,
) -> (r: Step<Result<(), GitError>>)
    ensures
        r.is(commit_turn(replies.m(), repo.m(), text::texts(all@), checked@, msg@, 0)),
{
    let ghost rs = replies.m();
    let ghost ps = text::texts(all@);
    let mut i: usize = 0;
    while i < all.len()
        invariant
            i <= all@.len(),
            i <= replies@.len(),
            rs == replies.m(),
            ps == text::texts(all@),
            commit_turn(rs, repo.m(), ps, checked@, msg@, 0) == commit_turn(
                rs,
                repo.m(),
                ps,
                checked@,
                msg@,
                i as int,
            ),
        decreases all@.len() - i,
    {
        proof {
            assert(ps[i as int] == all@[i as int]@);
        }
        if i >= replies.len() {
            let none: Vec<Reply> = Vec::new();
            let p = all[i].as_str();
            proof {
                assert(none.m() =~= Seq::<ReplyModel>::empty());
            }
            let step = if checked.contains(p) {
                repo.stage(p, &none)
            } else {
                repo.unstage(p, &none)
            };
            return step;
        }
        proof {
            assert(rs[i as int] == replies@[i as int].m());
        }
        if let Reply::Failed(e) = &replies[i] {
            return Step::Done(Err(GitError::Failed(e.clone())));
        }
        i += 1;
    }
    if i >= replies.len() {
        let none: Vec<Reply> = Vec::new();
        proof {
            assert(none.m() =~= Seq::<ReplyModel>::empty());
        }
        return repo.commit(msg, &none);
    }
    proof {
        assert(rs[i as int] == replies@[i as int].m());
    }
    match &replies[i] {
        Reply::Out(_) => Step::Done(Ok(())),
        Reply::Failed(e) => Step::Done(Err(GitError::Failed(e.clone()))),
    }
}

/// A commit is made only after every path was staged or unstaged without a failure.
pub proof fn lemma_commit_last(
    rs: Seq<ReplyModel>,
    root: Seq<char>,
    all: Seq<Seq<char>>,
    checked: Set<Seq<Seq<char>>>,
    msg: Seq<char>,
    i: int,
)
    requires
        0 <= i <= all.len(),
        i <= rs.len(),
        commit_turn(rs, root, all, checked, msg, i) == Turn::<Result<(), GitErrorModel>>::Ask(
            commit_command(root, msg),
        ),
    ensures
        rs.len() == all.len(),
        forall|k: int| i <= k < all.len() ==> (#[trigger] rs[k]) is Out,
    decreases all.len() - i,
{
    if i < all.len() {
        if i < rs.len() {
            lemma_commit_last(rs, root, all, checked, msg, i + 1);
        } else {
            let c = stage_command(root, all[i], checked.contains(path::components(all[i])));
            assert(c.stdin is None);
            assert(commit_command(root, msg).stdin is Some);
        }
    }
}

// ---------------------------------------------------------------------------
// Rollback
// ---------------------------------------------------------------------------

/// The pieces with `sep` between them.
pub open spec fn joined_by(pieces: Seq<Seq<char>>, sep: Seq<char>) -> Seq<char>
    decreases pieces.len(),
{
    if pieces.len() == 0 {
        Seq::empty()
    } else if pieces.len() == 1 {
        pieces[0]
    } else {
        joined_by(pieces.drop_last(), sep) + sep + pieces.last()
    }
}

fn join_by(pieces: &Vec<String>, sep: &str) -> (r: String)
    ensures
        r@ == joined_by(text::texts(pieces@), sep@),
{
    let ghost ps = text::texts(pieces@);
    let mut r = String::new();
    let mut i: usize = 0;
    while i < pieces.len()
        invariant
            i <= pieces@.len(),
            ps == text::texts(pieces@),
            r@ == joined_by(ps.take(i as int), sep@),
        decreases pieces@.len() - i,
    {
        proof {
            assert(ps.take(i + 1).drop_last() =~= ps.take(i as int));
            assert(ps.take(i + 1).last() == pieces@[i as int]@);
            assert(ps.take(i + 1)[i as int] == pieces@[i as int]@);
        }
        if i > 0 {
            r.append(sep);
        }
        r.append(pieces[i].as_str());
        proof {
            if i == 0 {
                assert(r@ =~= pieces@[0]@);
            }
        }
        i += 1;
    }
    proof {
        assert(ps.take(ps.len() as int) =~= ps);
    }
    r
}

/// What is said of a rollback in which some files failed.
pub fn rollback_error(failures: &Vec<String>) -> (r: Option<String>)
    ensures
        match r {
            None => failures@.len() == 0,
            Some(s) => failures@.len() > 0 && s@ == "Rollback failed for "@ + text::decimal(
                failures@.len(),
            ) + " file(s): "@ + joined_by(text::texts(failures@), ", "@),
        },
{
    if failures.len() == 0 {
        return None;
    }
    let mut s = String::from_str("Rollback failed for ");
    s.append(text::decimal_string(failures.len()).as_str());
    s.append(" file(s): ");
    s.append(join_by(failures, ", ").as_str());
    Some(s)
}

/// Up to a failure each reply answers one command: every path is staged if it is checked and
/// unstaged if it is not, in order, and only behind the last of them comes the commit, with the
/// message as it was written.
pub proof fn lemma_commit_asks(
    rs: Seq<ReplyModel>,
    root: Seq<char>,
    all: Seq<Seq<char>>,
    checked: Set<Seq<Seq<char>>>,
    msg: Seq<char>,
    i: int,
)
    requires
        0 <= i <= rs.len() <= all.len(),
        forall|j: int| i <= j < rs.len() ==> (#[trigger] rs[j]) is Out,
    ensures
        ({
            let n = rs.len() as int;
            let asked = commit_turn(rs, root, all, checked, msg, i);
            &&& asked is Ask
            &&& n < all.len() && checked.contains(path::components(all[n])) ==> asked->Ask_0
                == git::command(root, seq!["add"@, "--"@, all[n]])
            &&& n < all.len() && !checked.contains(path::components(all[n])) ==> asked->Ask_0
                == git::command(root, seq!["restore"@, "--staged"@, "--"@, all[n]])
            &&& n == all.len() ==> asked->Ask_0 == (git::CmdModel {
                dir: root,
                args: seq!["commit"@, "-F"@, "-"@],
                stdin: Some(msg),
            })
        }),
    decreases all.len() - i,
{
    if i < rs.len() {
        assert(rs[i] is Out);
        lemma_commit_asks(rs, root, all, checked, msg, i + 1);
    }
}

/// The first command that fails ends it, with its message.
pub proof fn lemma_commit_fails(
    rs: Seq<ReplyModel>,
    root: Seq<char>,
    all: Seq<Seq<char>>,
    checked: Set<Seq<Seq<char>>>,
    msg: Seq<char>,
    i: int,
    k: int,
    e: Seq<char>,
)
    requires
        0 <= i <= k < rs.len(),
        k <= all.len(),
        forall|j: int| i <= j < k ==> (#[trigger] rs[j]) is Out,
        rs[k] == ReplyModel::Failed(e),
    ensures
        commit_turn(rs, root, all, checked, msg, i) matches Turn::Have(r, _) && r == Err::<
            (),
            GitErrorModel,
        >(GitErrorModel::Failed(e)),
    decreases all.len() - i,
{
    if i < k {
        assert(rs[i] is Out);
        lemma_commit_fails(rs, root, all, checked, msg, i + 1, k, e);
    }
}

/// Events are numbered one after the other, and from the last number on from zero.
pub proof fn lemma_next_event(gen: u64)
    ensures
        gen < u64::MAX ==> next_event(gen) == gen + 1,
        next_event(gen) == 0 <==> gen == u64::MAX,
        next_event(gen) != gen,
{
}

/// A release has its own page, and only one without a page has that of the latest; a message of
/// failure says what failed, and then why.
pub proof fn lemma_messages(page: Seq<char>, what: Seq<char>, e: Seq<char>)
    ensures
        page.len() > 0 ==> page_of(page) == page,
        page.len() == 0 ==> page_of(page) == "https://github.com/kyle-ssg/kyde/releases/latest"@,
        text::begins_with(failed_text(what, e), what + " failed: "@),
        text::finishes_with(failed_text(what, e), e),
        failed_text(what, e).len() == what.len() + " failed: "@.len() + e.len(),
{
    let s = failed_text(what, e);
    let w = what + " failed: "@;
    assert(s.subrange(0, w.len() as int) =~= w);
    assert(s.subrange(w.len() as int, s.len() as int) =~= e);
}

/// Pieces put together by a separator of one character are pieces with that character between
/// them.
pub proof fn lemma_joined_by(pieces: Seq<Seq<char>>, c: char)
    ensures
        joined_by(pieces, seq![c]) == text::join_with(pieces, c),
    decreases pieces.len(),
{
    if pieces.len() > 1 {
        lemma_joined_by(pieces.drop_last(), c);
        let d = text::join_with(pieces.drop_last(), c);
        assert(d + seq![c] =~= d.push(c));
    }
}

} // verus!
