//! The git layer: which commands are run, in which order, and what their output comes to.

use crate::model::Modeled;
use crate::path;
use crate::porcelain;
use crate::porcelain::{ChangedModel, CommitModel, HitModel};
use crate::text;
use vstd::prelude::*;
use vstd::utf8::*;

verus! {

broadcast use vstd::seq_lib::group_seq_properties;

/// What happened to a file.
#[derive(Debug, Clone, Copy, PartialEq, Eq, Structural)]
pub enum FileStatus {
    Added,
    Modified,
    Deleted,
    Renamed,
    Untracked,
    Conflict,
}

/// A file that differs, by its path from the root.
#[derive(Debug)]
pub struct ChangedFile {
    pub path: String,
    pub status: FileStatus,
}

impl Clone for ChangedFile {
    fn clone(&self) -> (r: Self)
        ensures
            r == *self,
    {
        ChangedFile { path: self.path.clone(), status: self.status }
    }
}

/// One commit of the history.
#[derive(Debug)]
pub struct Commit {
    pub hash: String,
    pub short: String,
    pub author: String,
    /// How long ago, in words.
    pub date: String,
    pub subject: String,
    /// The names that point at it.
    pub refs: String,
}

impl Clone for Commit {
    fn clone(&self) -> (r: Self)
        ensures
            r == *self,
    {
        Commit {
            hash: self.hash.clone(),
            short: self.short.clone(),
            author: self.author.clone(),
            date: self.date.clone(),
            subject: self.subject.clone(),
            refs: self.refs.clone(),
        }
    }
}

/// A line that a search found.
#[derive(Debug)]
pub struct GrepHit {
    pub path: String,
    /// Counted from 1.
    pub line: u32,
    pub content: String,
}

impl Modeled for ChangedFile {
    type M = ChangedModel;

    open spec fn m(&self) -> ChangedModel {
        self.model()
    }
}

impl Modeled for Commit {
    type M = CommitModel;

    open spec fn m(&self) -> CommitModel {
        self.model()
    }
}

impl Modeled for GrepHit {
    type M = HitModel;

    open spec fn m(&self) -> HitModel {
        self.model()
    }
}

// ---------------------------------------------------------------------------
// Commands and replies
// ---------------------------------------------------------------------------

/// A git command: the directory it runs in, its arguments, and what it reads from its standard
/// input.
#[derive(Debug)]
pub struct Cmd {
    pub dir: String,
    pub args: Vec<String>,
    pub stdin: Option<String>,
}

#[verifier::ext_equal]
pub struct CmdModel {
    pub dir: Seq<char>,
    pub args: Seq<Seq<char>>,
    pub stdin: Option<Seq<char>>,
}

impl Modeled for Cmd {
    type M = CmdModel;

    open spec fn m(&self) -> CmdModel {
        CmdModel { dir: self.dir@, args: self.args.m(), stdin: self.stdin.m() }
    }
}

/// What came of a git command: its output, or why it failed.
#[derive(Debug)]
pub enum Reply {
    Out(String),
    Failed(String),
}

#[verifier::ext_equal]
pub enum ReplyModel {
    Out(Seq<char>),
    Failed(Seq<char>),
}

impl Modeled for Reply {
    type M = ReplyModel;

    open spec fn m(&self) -> ReplyModel {
        match self {
            Reply::Out(s) => ReplyModel::Out(s@),
            Reply::Failed(s) => ReplyModel::Failed(s@),
        }
    }
}

impl Clone for Reply {
    fn clone(&self) -> (r: Self)
        ensures
            r == *self,
    {
        match self {
            Reply::Out(s) => Reply::Out(s.clone()),
            Reply::Failed(s) => Reply::Failed(s.clone()),
        }
    }
}

/// Why an operation on a repository did not work.
#[derive(Debug)]
pub enum GitError {
    /// A git command failed with this message.
    Failed(String),
    NotARepository,
    /// A branch or revision without a name.
    EmptyName,
    /// A branch or revision whose name git would take for an option.
    BadName(String),
    /// The rebase that would have made a push possible failed with this message.
    Conflict(String),
}

#[verifier::ext_equal]
pub enum GitErrorModel {
    Failed(Seq<char>),
    NotARepository,
    EmptyName,
    BadName(Seq<char>),
    Conflict(Seq<char>),
}

impl Modeled for GitError {
    type M = GitErrorModel;

    open spec fn m(&self) -> GitErrorModel {
        match self {
            GitError::Failed(s) => GitErrorModel::Failed(s@),
            GitError::NotARepository => GitErrorModel::NotARepository,
            GitError::EmptyName => GitErrorModel::EmptyName,
            GitError::BadName(s) => GitErrorModel::BadName(s@),
            GitError::Conflict(s) => GitErrorModel::Conflict(s@),
        }
    }
}

/// What an operation does next, given the replies to the commands it has asked for so far: it
/// asks for another command, or it is done.
#[derive(Debug)]
pub enum Step<T> {
    Run(Cmd),
    Done(T),
}

/// What an operation comes to: it asks for a command, or it has a value after reading the
/// replies before a position.
#[verifier::ext_equal]
pub enum Turn<T> {
    Ask(CmdModel),
    Have(T, int),
}

impl<T: Modeled> Step<T> {
    /// The step is the one that the turn says.
    pub open spec fn is(self, t: Turn<T::M>) -> bool {
        match (self, t) {
            (Step::Run(c), Turn::Ask(m)) => c.m() == m,
            (Step::Done(x), Turn::Have(v, _)) => x.m() == v,
            _ => false,
        }
    }
}

/// An operation under way.
enum Progress<T> {
    Ask(Cmd),
    Have(T, usize),
}

impl<T: Modeled> Progress<T> {
    spec fn turn(self) -> Turn<T::M> {
        match self {
            Progress::Ask(c) => Turn::Ask(c.m()),
            Progress::Have(x, n) => Turn::Have(x.m(), n as int),
        }
    }
}

fn step_of<T: Modeled>(p: Progress<T>) -> (r: Step<T>)
    ensures
        r.is(p.turn()),
{
    match p {
        Progress::Ask(c) => Step::Run(c),
        Progress::Have(x, _) => Step::Done(x),
    }
}

/// A command without input.
pub open spec fn command(dir: Seq<char>, args: Seq<Seq<char>>) -> CmdModel {
    CmdModel { dir, args, stdin: None }
}

/// The reply at `at`, or the command that it will answer.
pub open spec fn ask(rs: Seq<ReplyModel>, at: int, c: CmdModel) -> Turn<ReplyModel> {
    if 0 <= at < rs.len() {
        Turn::Have(rs[at], at + 1)
    } else {
        Turn::Ask(c)
    }
}

fn ask_for(replies: &Vec<Reply>, at: usize, c: Cmd) -> (r: Progress<Reply>)
    ensures
        r.turn() == ask(replies.m(), at as int, c.m()),
        r matches Progress::Have(_, n) ==> n <= replies.len(),
{
    if at < replies.len() {
        Progress::Have(replies[at].clone(), at + 1)
    } else {
        Progress::Ask(c)
    }
}

fn args1(a: &str) -> (v: Vec<String>)
    ensures
        v.m() == seq![a@],
{
    let mut v: Vec<String> = Vec::new();
    v.push(String::from_str(a));
    proof {
        assert(v.m() =~= seq![a@]);
    }
    v
}

fn with_arg(args: Vec<String>, a: &str) -> (v: Vec<String>)
    ensures
        v.m() == args.m().push(a@),
{
    let ghost before = args.m();
    let mut v = args;
    v.push(String::from_str(a));
    proof {
        assert(v.m() =~= before.push(a@));
    }
    v
}

fn cmd2(dir: &str, a: &str, b: &str) -> (c: Cmd)
    ensures
        c.m() == command(dir@, seq![a@, b@]),
{
    let args = with_arg(args1(a), b);
    proof {
        assert(args.m() =~= seq![a@, b@]);
    }
    Cmd { dir: String::from_str(dir), args, stdin: None }
}

fn cmd3(dir: &str, a: &str, b: &str, c: &str) -> (r: Cmd)
    ensures
        r.m() == command(dir@, seq![a@, b@, c@]),
{
    let args = with_arg(with_arg(args1(a), b), c);
    proof {
        assert(args.m() =~= seq![a@, b@, c@]);
    }
    Cmd { dir: String::from_str(dir), args, stdin: None }
}

fn cmd4(dir: &str, a: &str, b: &str, c: &str, d: &str) -> (r: Cmd)
    ensures
        r.m() == command(dir@, seq![a@, b@, c@, d@]),
{
    let args = with_arg(with_arg(with_arg(args1(a), b), c), d);
    proof {
        assert(args.m() =~= seq![a@, b@, c@, d@]);
    }
    Cmd { dir: String::from_str(dir), args, stdin: None }
}

fn cmd5(dir: &str, a: &str, b: &str, c: &str, d: &str, e: &str) -> (r: Cmd)
    ensures
        r.m() == command(dir@, seq![a@, b@, c@, d@, e@]),
{
    let args = with_arg(with_arg(with_arg(with_arg(args1(a), b), c), d), e);
    proof {
        assert(args.m() =~= seq![a@, b@, c@, d@, e@]);
    }
    Cmd { dir: String::from_str(dir), args, stdin: None }
}

fn joined(a: &str, b: &str) -> (r: String)
    ensures
        r@ == a@ + b@,
{
    let mut s = String::from_str(a);
    s.append(b);
    s
}

// ---------------------------------------------------------------------------
// Running git
// ---------------------------------------------------------------------------

/// How a list of arguments is shown for debugging.
pub uninterp spec fn debug_args(args: Seq<Seq<char>>) -> Seq<char>;

/// The `Debug` form of a `Vec<String>`, as `format!("{:?}")` writes it.
#[verifier::external_body]
fn format_args_list(args: &Vec<String>) -> (r: String)
    ensures
        r@ == debug_args(args.m()),
{
    format!("{:?}", args)
}

/// How a text is shown for debugging.
pub uninterp spec fn debug_text(s: Seq<char>) -> Seq<char>;

/// The `Debug` form of a `str`, as `format!("{:?}")` writes it.
#[verifier::external_body]
fn format_text(s: &str) -> (r: String)
    ensures
        r@ == debug_text(s@),
{
    format!("{:?}", s)
}

/// What comes of a command that ran: its output, or the message that it failed with.
pub open spec fn outcome(
    args: Seq<Seq<char>>,
    success: bool,
    stdout: Seq<u8>,
    stderr: Seq<u8>,
) -> ReplyModel {
    if success {
        ReplyModel::Out(text::lossy(stdout))
    } else {
        ReplyModel::Failed("git "@ + debug_args(args) + " failed: "@ + text::lossy(stderr))
    }
}

/// What comes of a command that ran.
pub fn git(cmd: &Cmd, success: bool, stdout: &[u8], stderr: &[u8]) -> (r: Reply)
    ensures
        r.m() == outcome(cmd.args.m(), success, stdout@, stderr@),
{
    if success {
        return Reply::Out(text::from_utf8_lossy(stdout));
    }
    let mut s = String::from_str("git ");
    s.append(format_args_list(&cmd.args).as_str());
    s.append(" failed: ");
    s.append(text::from_utf8_lossy(stderr).as_str());
    Reply::Failed(s)
}

/// What comes of a command that could not be started.
pub fn git_not_run(cmd: &Cmd) -> (r: Reply)
    ensures
        r.m() == ReplyModel::Failed(
            (if cmd.stdin is Some {
                "spawning git "@
            } else {
                "running git "@
            }) + debug_args(cmd.args.m()),
        ),
{
    let mut s = match &cmd.stdin {
        Some(_) => String::from_str("spawning git "),
        None => String::from_str("running git "),
    };
    s.append(format_args_list(&cmd.args).as_str());
    Reply::Failed(s)
}

/// The message of an error.
pub open spec fn message(e: GitErrorModel) -> Seq<char> {
    match e {
        GitErrorModel::Failed(s) => s,
        GitErrorModel::NotARepository => "not a git repository"@,
        GitErrorModel::EmptyName => "empty branch name"@,
        GitErrorModel::BadName(n) => "invalid branch name: "@ + debug_text(n),
        GitErrorModel::Conflict(s) =>
            "remote has changes that conflict with yours \u{2014} pull and resolve them manually ("@
            + s + ")"@,
    }
}

impl GitError {
    /// The message of the error.
    pub fn message(&self) -> (r: String)
        ensures
            r@ == message(self.m()),
    {
        match self {
            GitError::Failed(s) => s.clone(),
            GitError::NotARepository => String::from_str("not a git repository"),
            GitError::EmptyName => String::from_str("empty branch name"),
            GitError::BadName(n) => joined("invalid branch name: ", format_text(n.as_str()).as_str()),
            GitError::Conflict(e) => {
                let mut s = String::from_str(
                    "remote has changes that conflict with yours \u{2014} pull and resolve them manually (",
                );
                s.append(e.as_str());
                s.append(")");
                s
            },
        }
    }
}

// ---------------------------------------------------------------------------
// Names and rejections
// ---------------------------------------------------------------------------

/// A name of a branch or revision, without white space around it: not empty, and not an option.
pub open spec fn ref_name(name: Seq<char>) -> Result<Seq<char>, GitErrorModel> {
    let n = text::trim(name);
    if n.len() == 0 {
        Err(GitErrorModel::EmptyName)
    } else if n[0] == '-' {
        Err(GitErrorModel::BadName(n))
    } else {
        Ok(n)
    }
}

/// Turns away a name of a branch or revision that is empty or that git would take for an option.
pub fn valid_ref(name: &str) -> (r: Result<String, GitError>)
    ensures
        r.m() == ref_name(name@),
{
    let n = text::trim_str(name);
    let chars = text::chars_of(n.as_str());
    if chars.len() == 0 {
        Err(GitError::EmptyName)
    } else if chars[0] == '-' {
        Err(GitError::BadName(n))
    } else {
        Ok(n)
    }
}

/// What `str::to_lowercase` makes of a text.
pub uninterp spec fn lowercase(s: Seq<char>) -> Seq<char>;

/// `str::to_lowercase`. Of a text in ASCII only the letters `A` to `Z` change; nothing more is
/// said of other letters.
#[verifier::external_body]
fn to_lowercase(s: &str) -> (r: String)
    ensures
        r@ == lowercase(s@),
        (forall|i: int| 0 <= i < s@.len() ==> (#[trigger] s@[i] as u32) < 0x80) ==> r@
            == text::ascii_lower_all(s@),
{
    s.to_lowercase()
}

/// Whether a message in lower case says that the remote has moved on.
pub open spec fn rejection(e: Seq<char>) -> bool {
    ||| text::occurs_in(e, "fetch first"@)
    ||| text::occurs_in(e, "non-fast-forward"@)
    ||| text::occurs_in(e, "[rejected]"@)
    ||| text::occurs_in(e, "updates were rejected"@)
}

/// Whether a message in lower case says that the remote has moved on.
pub fn is_rejection(lowered: &str) -> (r: bool)
    ensures
        r == rejection(lowered@),
{
    text::str_contains(lowered, "fetch first") || text::str_contains(lowered, "non-fast-forward")
        || text::str_contains(lowered, "[rejected]") || text::str_contains(
        lowered,
        "updates were rejected",
    )
}

/// Whether a push failed only because the remote has moved on.
pub fn push_rejected(err: &str) -> (r: bool)
    ensures
        r == rejection(lowercase(err@)),
{
    let e = to_lowercase(err);
    is_rejection(e.as_str())
}

// ---------------------------------------------------------------------------
// Repository
// ---------------------------------------------------------------------------

/// A repository, by the path of its root.
#[derive(Debug)]
pub struct Repo {
    root: String,
}

impl Modeled for Repo {
    type M = Seq<char>;

    closed spec fn m(&self) -> Seq<char> {
        self.root@
    }
}

/// The reply, or its message as an error.
pub open spec fn as_result(r: ReplyModel) -> Result<Seq<char>, GitErrorModel> {
    match r {
        ReplyModel::Out(s) => Ok(s),
        ReplyModel::Failed(e) => Err(GitErrorModel::Failed(e)),
    }
}

pub open spec fn done_unit(r: ReplyModel) -> Result<(), GitErrorModel> {
    match r {
        ReplyModel::Out(_) => Ok(()),
        ReplyModel::Failed(e) => Err(GitErrorModel::Failed(e)),
    }
}

fn result_of(r: Reply) -> (x: Result<String, GitError>)
    ensures
        x.m() == as_result(r.m()),
{
    match r {
        Reply::Out(s) => Ok(s),
        Reply::Failed(e) => Err(GitError::Failed(e)),
    }
}

fn unit_of(r: Reply) -> (x: Result<(), GitError>)
    ensures
        x.m() == done_unit(r.m()),
{
    match r {
        Reply::Out(_) => Ok(()),
        Reply::Failed(e) => Err(GitError::Failed(e)),
    }
}

/// An operation of one command that only succeeds or fails.
pub open spec fn unit_turn(rs: Seq<ReplyModel>, c: CmdModel) -> Turn<Result<(), GitErrorModel>> {
    match ask(rs, 0, c) {
        Turn::Ask(c) => Turn::Ask(c),
        Turn::Have(r, n) => Turn::Have(done_unit(r), n),
    }
}

/// The same after a name was accepted.
pub open spec fn named_turn(
    rs: Seq<ReplyModel>,
    name: Seq<char>,
    c: spec_fn(Seq<char>) -> CmdModel,
) -> Turn<Result<(), GitErrorModel>> {
    match ref_name(name) {
        Err(e) => Turn::Have(Err(e), 0),
        Ok(n) => unit_turn(rs, c(n)),
    }
}

fn unit_step(replies: &Vec<Reply>, c: Cmd) -> (r: Step<Result<(), GitError>>)
    ensures
        r.is(unit_turn(replies.m(), c.m())),
{
    match ask_for(replies, 0, c) {
        Progress::Ask(c) => Step::Run(c),
        Progress::Have(x, _) => Step::Done(unit_of(x)),
    }
}

/// An operation of one command that gives its output.
pub open spec fn output_turn(rs: Seq<ReplyModel>, c: CmdModel) -> Turn<
    Result<Seq<char>, GitErrorModel>,
> {
    match ask(rs, 0, c) {
        Turn::Ask(c) => Turn::Ask(c),
        Turn::Have(r, n) => Turn::Have(as_result(r), n),
    }
}

/// The commands of an operation that opens the repository around `path`.
pub open spec fn discover_turn(rs: Seq<ReplyModel>, path: Seq<char>) -> Turn<
    Result<Seq<char>, GitErrorModel>,
> {
    match ask(rs, 0, command(path, seq!["rev-parse"@, "--show-toplevel"@])) {
        Turn::Ask(c) => Turn::Ask(c),
        Turn::Have(ReplyModel::Failed(e), n) => Turn::Have(Err(GitErrorModel::Failed(e)), n),
        Turn::Have(ReplyModel::Out(out), n) => if text::trim(out).len() == 0 {
            Turn::Have(Err(GitErrorModel::NotARepository), n)
        } else {
            Turn::Have(Ok(text::trim(out)), n)
        },
    }
}

impl Repo {
    /// Opens the repository that `path` lies in.
    pub fn discover(path: &str, replies: &Vec<Reply>) -> (r: Step<Result<Repo, GitError>>)
        ensures
            r.is(discover_turn(replies.m(), path@)),
    {
        match ask_for(replies, 0, cmd2(path, "rev-parse", "--show-toplevel")) {
            Progress::Ask(c) => Step::Run(c),
            Progress::Have(Reply::Failed(e), _) => Step::Done(Err(GitError::Failed(e))),
            Progress::Have(Reply::Out(out), _) => {
                let root = text::trim_str(out.as_str());
                if root.as_str().is_empty() {
                    Step::Done(Err(GitError::NotARepository))
                } else {
                    Step::Done(Ok(Repo { root }))
                }
            },
        }
    }

    /// The path of its root.
    pub fn root(&self) -> (r: &str)
        ensures
            r@ == self.m(),
    {
        self.root.as_str()
    }
}

// ---------------------------------------------------------------------------
// Changed files and content
// ---------------------------------------------------------------------------

pub open spec fn status_command(root: Seq<char>) -> CmdModel {
    command(root, seq!["status"@, "--porcelain=v1"@, "-z"@, "--untracked-files=all"@])
}

/// The changed files of the working tree.
pub open spec fn status_turn(rs: Seq<ReplyModel>, root: Seq<char>) -> Turn<
    Result<Seq<ChangedModel>, GitErrorModel>,
> {
    match ask(rs, 0, status_command(root)) {
        Turn::Ask(c) => Turn::Ask(c),
        Turn::Have(ReplyModel::Out(raw), n) => Turn::Have(Ok(porcelain::status_files(raw)), n),
        Turn::Have(ReplyModel::Failed(e), n) => Turn::Have(Err(GitErrorModel::Failed(e)), n),
    }
}

/// The content of a file before its changes: as it is staged, else as it was committed.
pub open spec fn base_content_turn(rs: Seq<ReplyModel>, root: Seq<char>, rel: Seq<char>) -> Turn<
    Result<Seq<char>, GitErrorModel>,
> {
    match ask(rs, 0, command(root, seq!["show"@, ":"@ + rel])) {
        Turn::Ask(c) => Turn::Ask(c),
        Turn::Have(ReplyModel::Out(s), n) => Turn::Have(Ok(s), n),
        Turn::Have(ReplyModel::Failed(_), n) => match ask(
            rs,
            n,
            command(root, seq!["show"@, "HEAD:"@ + rel]),
        ) {
            Turn::Ask(c) => Turn::Ask(c),
            Turn::Have(ReplyModel::Out(s), n) => Turn::Have(Ok(s), n),
            Turn::Have(ReplyModel::Failed(_), n) => Turn::Have(Ok(Seq::empty()), n),
        },
    }
}

/// The content of a file in a revision, empty if it is not there.
pub open spec fn committed_turn(
    rs: Seq<ReplyModel>,
    root: Seq<char>,
    rev: Seq<char>,
    rel: Seq<char>,
) -> Turn<Result<Seq<char>, GitErrorModel>> {
    match ask(rs, 0, command(root, seq!["show"@, rev + ":"@ + rel])) {
        Turn::Ask(c) => Turn::Ask(c),
        Turn::Have(ReplyModel::Out(s), n) => Turn::Have(Ok(s), n),
        Turn::Have(ReplyModel::Failed(_), n) => Turn::Have(Ok(Seq::empty()), n),
    }
}

/// Why the content of a file is not shown as text.
#[derive(Debug, Clone, Copy, PartialEq, Eq, Structural)]
pub enum ContentError {
    /// It holds a NUL.
    Binary,
    NotUtf8,
}

/// Where a rename starts and ends.
#[derive(Debug)]
pub struct Move {
    pub from: String,
    pub to: String,
}

/// `String::from_utf8`: the text that the bytes are the UTF-8 form of, if they are one.
#[verifier::external_body]
fn from_utf8(bytes: Vec<u8>) -> (r: Option<String>)
    ensures
        match r {
            Some(s) => valid_utf8(bytes@) && encode_utf8(s@) == bytes@,
            None => !valid_utf8(bytes@),
        },
{
    String::from_utf8(bytes).ok()
}

fn holds_nul(bytes: &[u8]) -> (r: bool)
    ensures
        r == bytes@.contains(0),
{
    let mut i: usize = 0;
    while i < bytes.len()
        invariant
            i <= bytes.len(),
            forall|k: int| 0 <= k < i ==> bytes@[k] != 0,
        decreases bytes.len() - i,
    {
        if bytes[i] == 0 {
            return true;
        }
        i += 1;
    }
    false
}

impl Repo {
    /// The changed files of the working tree.
    pub fn status(&self, replies: &Vec<Reply>) -> (r: Step<Result<Vec<ChangedFile>, GitError>>)
        requires
            replies@.len() > 0 ==> (replies@[0] matches Reply::Out(raw)
                ==> porcelain::status_readable(raw@)),
        ensures
            r.is(status_turn(replies.m(), self.m())),
    {
        let c = cmd4(self.root(), "status", "--porcelain=v1", "-z", "--untracked-files=all");
        match ask_for(replies, 0, c) {
            Progress::Ask(c) => Step::Run(c),
            Progress::Have(Reply::Failed(e), _) => Step::Done(Err(GitError::Failed(e))),
            Progress::Have(Reply::Out(raw), _) => {
                proof {
                    assert(replies.m()[0] == replies@[0].m());
                }
                let files = porcelain::parse_status(raw.as_str());
                proof {
                    assert(files.m() =~= porcelain::changed_models(files@));
                }
                Step::Done(Ok(files))
            },
        }
    }

    /// The content of a file before its changes.
    pub fn base_content(&self, rel: &str, replies: &Vec<Reply>) -> (r: Step<
        Result<String, GitError>,
    >)
        ensures
            r.is(base_content_turn(replies.m(), self.m(), rel@)),
    {
        match ask_for(replies, 0, cmd2(self.root(), "show", joined(":", rel).as_str())) {
            Progress::Ask(c) => Step::Run(c),
            Progress::Have(Reply::Out(s), _) => Step::Done(Ok(s)),
            Progress::Have(Reply::Failed(_), n) => {
                match ask_for(replies, n, cmd2(self.root(), "show", joined("HEAD:", rel).as_str())) {
                    Progress::Ask(c) => Step::Run(c),
                    Progress::Have(Reply::Out(s), _) => Step::Done(Ok(s)),
                    Progress::Have(Reply::Failed(_), _) => Step::Done(Ok(String::new())),
                }
            },
        }
    }

    /// The content of a file in a revision, empty if it is not there.
    pub fn committed_content(&self, rev: &str, rel: &str, replies: &Vec<Reply>) -> (r: Step<
        Result<String, GitError>,
    >)
        ensures
            r.is(committed_turn(replies.m(), self.m(), rev@, rel@)),
    {
        let spec_arg = joined(joined(rev, ":").as_str(), rel);
        match ask_for(replies, 0, cmd2(self.root(), "show", spec_arg.as_str())) {
            Progress::Ask(c) => Step::Run(c),
            Progress::Have(Reply::Out(s), _) => Step::Done(Ok(s)),
            Progress::Have(Reply::Failed(_), _) => Step::Done(Ok(String::new())),
        }
    }

    /// The path on disk of a file.
    pub fn full_path(&self, rel: &str) -> (r: String)
        ensures
            r@ == path::join(self.m(), rel@),
    {
        path::join_paths(self.root(), rel)
    }

    /// The content of a file that was read from disk, as text.
    pub fn working_content(&self, bytes: Vec<u8>) -> (r: Result<String, ContentError>)
        ensures
            match r {
                Ok(s) => !bytes@.contains(0) && encode_utf8(s@) == bytes@,
                Err(ContentError::Binary) => bytes@.contains(0),
                Err(ContentError::NotUtf8) => !bytes@.contains(0) && !valid_utf8(bytes@),
            },
    {
        if holds_nul(bytes.as_slice()) {
            return Err(ContentError::Binary);
        }
        match from_utf8(bytes) {
            Some(s) => Ok(s),
            None => Err(ContentError::NotUtf8),
        }
    }

    /// Where a file is moved from and to, unless there is something already.
    pub fn rename(&self, from: &str, to: &str, taken: bool) -> (r: Option<Move>)
        ensures
            match r {
                Some(m) => !taken && m.from@ == path::join(self.m(), from@) && m.to@ == path::join(
                    self.m(),
                    to@,
                ),
                None => taken,
            },
    {
        if taken {
            None
        } else {
            Some(Move { from: self.full_path(from), to: self.full_path(to) })
        }
    }

    /// The path of a file that is deleted from the working tree.
    pub fn delete_file(&self, rel: &str) -> (r: String)
        ensures
            r@ == path::join(self.m(), rel@),
    {
        self.full_path(rel)
    }

    /// The path of a file that is written to the working tree.
    pub fn save_file(&self, rel: &str) -> (r: String)
        ensures
            r@ == path::join(self.m(), rel@),
    {
        self.full_path(rel)
    }

    /// Stages a file.
    pub fn stage(&self, rel: &str, replies: &Vec<Reply>) -> (r: Step<Result<(), GitError>>)
        ensures
            r.is(unit_turn(replies.m(), command(self.m(), seq!["add"@, "--"@, rel@]))),
    {
        unit_step(replies, cmd3(self.root(), "add", "--", rel))
    }

    /// Takes a file out of the stage.
    pub fn unstage(&self, rel: &str, replies: &Vec<Reply>) -> (r: Step<Result<(), GitError>>)
        ensures
            r.is(
                unit_turn(
                    replies.m(),
                    command(self.m(), seq!["restore"@, "--staged"@, "--"@, rel@]),
                ),
            ),
    {
        unit_step(replies, cmd4(self.root(), "restore", "--staged", "--", rel))
    }

    /// Discards all changes to a tracked file.
    pub fn discard(&self, rel: &str, replies: &Vec<Reply>) -> (r: Step<Result<(), GitError>>)
        ensures
            r.is(
                unit_turn(
                    replies.m(),
                    command(self.m(), seq!["checkout"@, "HEAD"@, "--"@, rel@]),
                ),
            ),
    {
        unit_step(replies, cmd4(self.root(), "checkout", "HEAD", "--", rel))
    }

    /// Commits what is staged; the message goes to git's standard input.
    pub fn commit(&self, message: &str, replies: &Vec<Reply>) -> (r: Step<Result<(), GitError>>)
        ensures
            r.is(
                unit_turn(
                    replies.m(),
                    (CmdModel {
                        dir: self.m(),
                        args: seq!["commit"@, "-F"@, "-"@],
                        stdin: Some(message@),
                    }),
                ),
            ),
    {
        let c = cmd3(self.root(), "commit", "-F", "-");
        let c = Cmd { dir: c.dir, args: c.args, stdin: Some(String::from_str(message)) };
        unit_step(replies, c)
    }
}

// ---------------------------------------------------------------------------
// Files, history and branches
// ---------------------------------------------------------------------------

/// All files of the working tree that git does not ignore.
pub open spec fn list_files_turn(rs: Seq<ReplyModel>, root: Seq<char>) -> Turn<
    Result<Seq<Seq<char>>, GitErrorModel>,
> {
    match ask(
        rs,
        0,
        command(
            root,
            seq!["ls-files"@, "-z"@, "--cached"@, "--others"@, "--exclude-standard"@],
        ),
    ) {
        Turn::Ask(c) => Turn::Ask(c),
        Turn::Have(ReplyModel::Out(raw), n) => Turn::Have(Ok(porcelain::listed_files(raw)), n),
        Turn::Have(ReplyModel::Failed(e), n) => Turn::Have(Err(GitErrorModel::Failed(e)), n),
    }
}

/// A path that limits a command to what lies below it.
pub open spec fn limited(args: Seq<Seq<char>>, path: Option<Seq<char>>) -> Seq<Seq<char>> {
    match path {
        Some(p) => args.push("--"@).push(p),
        None => args,
    }
}

/// The arguments of a comparison of `from` with `to`, or with the working tree.
pub open spec fn diff_args(
    from: Seq<char>,
    to: Option<Seq<char>>,
    path: Option<Seq<char>>,
) -> Seq<Seq<char>> {
    let base = seq!["diff"@, "--name-status"@, "-z"@, from];
    limited(
        match to {
            Some(t) => base.push(t),
            None => base,
        },
        path,
    )
}

/// The files that differ between two revisions, none if a revision has no valid name or the
/// comparison fails.
pub open spec fn diff_files_turn(
    rs: Seq<ReplyModel>,
    at: int,
    root: Seq<char>,
    from: Seq<char>,
    to: Option<Seq<char>>,
    path: Option<Seq<char>>,
) -> Turn<Seq<ChangedModel>> {
    if ref_name(from) is Err || (to is Some && ref_name(to->0) is Err) {
        Turn::Have(Seq::empty(), at)
    } else {
        let t = match to {
            Some(t) => Some(ref_name(t)->Ok_0),
            None => None,
        };
        match ask(rs, at, command(root, diff_args(ref_name(from)->Ok_0, t, path))) {
            Turn::Ask(c) => Turn::Ask(c),
            Turn::Have(ReplyModel::Out(raw), n) => Turn::Have(
                porcelain::name_status_files(raw),
                n,
            ),
            Turn::Have(ReplyModel::Failed(_), n) => Turn::Have(Seq::empty(), n),
        }
    }
}

pub open spec fn log_args(rev: Seq<char>, limit: nat, path: Option<Seq<char>>) -> Seq<Seq<char>> {
    limited(
        seq![
            "log"@,
            rev,
            "--date=relative"@,
            "-n"@ + text::decimal(limit),
            "--format=%H%x1f%h%x1f%an%x1f%ad%x1f%s%x1f%D"@,
        ],
        path,
    )
}

/// The history of a revision, newest first.
pub open spec fn log_turn(
    rs: Seq<ReplyModel>,
    root: Seq<char>,
    rev: Seq<char>,
    limit: nat,
    path: Option<Seq<char>>,
) -> Turn<Result<Seq<CommitModel>, GitErrorModel>> {
    match ref_name(rev) {
        Err(e) => Turn::Have(Err(e), 0),
        Ok(rev) => match ask(rs, 0, command(root, log_args(rev, limit, path))) {
            Turn::Ask(c) => Turn::Ask(c),
            Turn::Have(ReplyModel::Out(raw), n) => Turn::Have(
                Ok(porcelain::commits_in(text::lines(raw))),
                n,
            ),
            Turn::Have(ReplyModel::Failed(e), n) => Turn::Have(Err(GitErrorModel::Failed(e)), n),
        },
    }
}

/// The branches below `refs`, the latest commits first.
pub open spec fn branches_turn(rs: Seq<ReplyModel>, root: Seq<char>, refs: Seq<char>, remote: bool)
    -> Turn<Result<Seq<Seq<char>>, GitErrorModel>> {
    match ask(
        rs,
        0,
        command(
            root,
            seq!["for-each-ref"@, "--sort=-committerdate"@, "--format=%(refname:short)"@, refs],
        ),
    ) {
        Turn::Ask(c) => Turn::Ask(c),
        Turn::Have(ReplyModel::Out(raw), n) => Turn::Have(
            Ok(porcelain::branches_in(text::lines(raw), remote)),
            n,
        ),
        Turn::Have(ReplyModel::Failed(e), n) => Turn::Have(Err(GitErrorModel::Failed(e)), n),
    }
}

/// The command that creates a branch.
pub open spec fn create_branch_command(
    root: Seq<char>,
    name: Seq<char>,
    checkout: bool,
    overwrite: bool,
) -> CmdModel {
    command(
        root,
        if checkout {
            if overwrite {
                seq!["checkout"@, "-B"@, name]
            } else {
                seq!["checkout"@, "-b"@, name]
            }
        } else if overwrite {
            seq!["branch"@, "-f"@, name]
        } else {
            seq!["branch"@, name]
        },
    )
}

/// The lines of a search that are asked for, or the hits among them.
pub open spec fn grep_command(root: Seq<char>, query: Seq<char>) -> CmdModel {
    command(
        root,
        seq![
            "grep"@,
            "--no-color"@,
            "-F"@,
            "-n"@,
            "-I"@,
            "-i"@,
            "-m"@,
            "50"@,
            "--untracked"@,
            "-e"@,
            query,
        ],
    )
}

fn limited_args(args: Vec<String>, path: Option<&str>) -> (v: Vec<String>)
    ensures
        v.m() == limited(
            args.m(),
            match path {
                Some(p) => Some(p@),
                None => None,
            },
        ),
{
    match path {
        Some(p) => with_arg(with_arg(args, "--"), p),
        None => args,
    }
}

pub open spec fn opt_text(o: Option<&str>) -> Option<Seq<char>> {
    match o {
        Some(s) => Some(s@),
        None => None,
    }
}

impl Repo {
    /// All files of the working tree that git does not ignore, in order, each once.
    pub fn list_files(&self, replies: &Vec<Reply>) -> (r: Step<Result<Vec<String>, GitError>>)
        ensures
            r.is(list_files_turn(replies.m(), self.m())),
    {
        let c = cmd5(self.root(), "ls-files", "-z", "--cached", "--others", "--exclude-standard");
        match ask_for(replies, 0, c) {
            Progress::Ask(c) => Step::Run(c),
            Progress::Have(Reply::Failed(e), _) => Step::Done(Err(GitError::Failed(e))),
            Progress::Have(Reply::Out(raw), _) => {
                let v = porcelain::parse_listing(raw.as_str());
                proof {
                    assert(v.m() =~= text::texts(v@));
                }
                Step::Done(Ok(v))
            },
        }
    }

    fn diff_at(
        &self,
        from: &str,
        to: Option<&str>,
        path: Option<&str>,
        replies: &Vec<Reply>,
        at: usize,
    ) -> (r: Progress<Vec<ChangedFile>>)
        ensures
            r.turn() == diff_files_turn(
                replies.m(),
                at as int,
                self.m(),
                from@,
                opt_text(to),
                opt_text(path),
            ),
    {
        let none: Vec<ChangedFile> = Vec::new();
        proof {
            assert(none.m() =~= Seq::<ChangedModel>::empty());
        }
        let from = match valid_ref(from) {
            Ok(f) => f,
            Err(_) => {
                return Progress::Have(none, at);
            },
        };
        let mut args = cmd4(self.root(), "diff", "--name-status", "-z", from.as_str()).args;
        if let Some(t) = to {
            match valid_ref(t) {
                Ok(t) => {
                    args = with_arg(args, t.as_str());
                },
                Err(_) => {
                    return Progress::Have(none, at);
                },
            }
        }
        let args = limited_args(args, path);
        let c = Cmd { dir: String::from_str(self.root()), args, stdin: None };
        match ask_for(replies, at, c) {
            Progress::Ask(c) => Progress::Ask(c),
            Progress::Have(Reply::Failed(_), n) => Progress::Have(none, n),
            Progress::Have(Reply::Out(raw), n) => {
                let files = porcelain::parse_name_status(raw.as_str());
                proof {
                    assert(files.m() =~= porcelain::changed_models(files@));
                }
                Progress::Have(files, n)
            },
        }
    }

    /// The files that differ between `from` and `to`, or between `from` and the working tree,
    /// at or below `path`.
    pub fn diff_files(
        &self,
        from: &str,
        to: Option<&str>,
        path: Option<&str>,
        replies: &Vec<Reply>,
    ) -> (r: Step<Vec<ChangedFile>>)
        ensures
            r.is(
                diff_files_turn(
                    replies.m(),
                    0,
                    self.m(),
                    from@,
                    opt_text(to),
                    opt_text(path),
                ),
            ),
    {
        step_of(self.diff_at(from, to, path, replies, 0))
    }

    /// The history of a revision, newest first, at most `limit` commits, of those that touched
    /// `path`.
    pub fn log(&self, rev: &str, limit: usize, path: Option<&str>, replies: &Vec<Reply>) -> (r: Step<
        Result<Vec<Commit>, GitError>,
    >)
        ensures
            r.is(log_turn(replies.m(), self.m(), rev@, limit as nat, opt_text(path))),
    {
        let rev = match valid_ref(rev) {
            Ok(v) => v,
            Err(e) => {
                return Step::Done(Err(e));
            },
        };
        let n = joined("-n", text::decimal_string(limit).as_str());
        let c = cmd5(
            self.root(),
            "log",
            rev.as_str(),
            "--date=relative",
            n.as_str(),
            "--format=%H%x1f%h%x1f%an%x1f%ad%x1f%s%x1f%D",
        );
        let c = Cmd { dir: c.dir, args: limited_args(c.args, path), stdin: None };
        match ask_for(replies, 0, c) {
            Progress::Ask(c) => Step::Run(c),
            Progress::Have(Reply::Failed(e), _) => Step::Done(Err(GitError::Failed(e))),
            Progress::Have(Reply::Out(raw), _) => {
                let v = porcelain::parse_log(raw.as_str());
                proof {
                    assert(v.m() =~= porcelain::commit_models(v@));
                }
                Step::Done(Ok(v))
            },
        }
    }

    fn branches_step(&self, refs: &str, remote: bool, replies: &Vec<Reply>) -> (r: Step<
        Result<Vec<String>, GitError>,
    >)
        ensures
            r.is(branches_turn(replies.m(), self.m(), refs@, remote)),
    {
        let c = cmd4(
            self.root(),
            "for-each-ref",
            "--sort=-committerdate",
            "--format=%(refname:short)",
            refs,
        );
        match ask_for(replies, 0, c) {
            Progress::Ask(c) => Step::Run(c),
            Progress::Have(Reply::Failed(e), _) => Step::Done(Err(GitError::Failed(e))),
            Progress::Have(Reply::Out(raw), _) => {
                let v = porcelain::parse_branches(raw.as_str(), remote);
                proof {
                    assert(v.m() =~= text::texts(v@));
                }
                Step::Done(Ok(v))
            },
        }
    }

    /// The local branches, the latest commits first.
    pub fn branches(&self, replies: &Vec<Reply>) -> (r: Step<Result<Vec<String>, GitError>>)
        ensures
            r.is(branches_turn(replies.m(), self.m(), "refs/heads/"@, false)),
    {
        self.branches_step("refs/heads/", false, replies)
    }

    /// The remote branches, the latest commits first, without pointers to a default branch.
    pub fn remote_branches(&self, replies: &Vec<Reply>) -> (r: Step<Result<Vec<String>, GitError>>)
        ensures
            r.is(branches_turn(replies.m(), self.m(), "refs/remotes/"@, true)),
    {
        self.branches_step("refs/remotes/", true, replies)
    }

    /// Switches to a branch.
    pub fn checkout(&self, branch: &str, replies: &Vec<Reply>) -> (r: Step<Result<(), GitError>>)
        ensures
            r.is(
                named_turn(
                    replies.m(),
                    branch@,
                    |n: Seq<char>| command(self.m(), seq!["checkout"@, n, "--"@]),
                ),
            ),
    {
        match valid_ref(branch) {
            Ok(n) => unit_step(replies, cmd3(self.root(), "checkout", n.as_str(), "--")),
            Err(e) => Step::Done(Err(e)),
        }
    }

    /// Creates a branch, switches to it if `checkout`, and resets one that is there if
    /// `overwrite`.
    pub fn create_branch_opts(
        &self,
        name: &str,
        checkout: bool,
        overwrite: bool,
        replies: &Vec<Reply>,
    ) -> (r: Step<Result<(), GitError>>)
        ensures
            r.is(
                named_turn(
                    replies.m(),
                    name@,
                    |n: Seq<char>| create_branch_command(self.m(), n, checkout, overwrite),
                ),
            ),
    {
        match valid_ref(name) {
            Ok(n) => {
                let c = match (checkout, overwrite) {
                    (true, false) => cmd3(self.root(), "checkout", "-b", n.as_str()),
                    (true, true) => cmd3(self.root(), "checkout", "-B", n.as_str()),
                    (false, false) => cmd2(self.root(), "branch", n.as_str()),
                    (false, true) => cmd3(self.root(), "branch", "-f", n.as_str()),
                };
                unit_step(replies, c)
            },
            Err(e) => Step::Done(Err(e)),
        }
    }

    /// Searches the files of the working tree for a text, whatever the case of its letters. With
    /// `lines`, those that the search printed, the hits among them; nothing is searched for an
    /// empty text.
    pub fn grep(&self, query: &str, lines: Option<&Vec<String>>) -> (r: Step<Vec<GrepHit>>)
        ensures
            match r {
                Step::Run(c) => query@.len() > 0 && lines is None && c.m() == grep_command(
                    self.m(),
                    query@,
                ),
                Step::Done(hits) => hits.m() == if query@.len() == 0 {
                    Seq::empty()
                } else {
                    porcelain::hits_in(text::texts(lines->0@))
                } && (query@.len() == 0 || lines is Some),
            },
    {
        if query.is_empty() {
            let v: Vec<GrepHit> = Vec::new();
            proof {
                assert(v.m() =~= Seq::<HitModel>::empty());
            }
            return Step::Done(v);
        }
        match lines {
            Some(lines) => {
                let v = porcelain::collect_hits(lines);
                proof {
                    assert(v.m() =~= porcelain::hit_models(v@));
                }
                Step::Done(v)
            },
            None => {
                let c = cmd5(self.root(), "grep", "--no-color", "-F", "-n", "-I");
                let args = with_arg(
                    with_arg(with_arg(with_arg(c.args, "-i"), "-m"), "50"),
                    "--untracked",
                );
                let args = with_arg(with_arg(args, "-e"), query);
                proof {
                    assert(args.m() =~= grep_command(self.m(), query@).args);
                }
                Step::Run(Cmd { dir: c.dir, args, stdin: None })
            },
        }
    }
}

// ---------------------------------------------------------------------------
// Pushing and pulling
// ---------------------------------------------------------------------------

/// The name of the branch that is checked out, if there is one.
pub open spec fn branch_turn(rs: Seq<ReplyModel>, at: int, root: Seq<char>) -> Turn<
    Option<Seq<char>>,
> {
    match ask(
        rs,
        at,
        command(root, seq!["symbolic-ref"@, "--quiet"@, "--short"@, "HEAD"@]),
    ) {
        Turn::Ask(c) => Turn::Ask(c),
        Turn::Have(ReplyModel::Failed(_), n) => Turn::Have(None, n),
        Turn::Have(ReplyModel::Out(out), n) => if text::trim(out).len() == 0 {
            Turn::Have(None, n)
        } else {
            Turn::Have(Some(text::trim(out)), n)
        },
    }
}

/// The command that pushes a branch, or whatever is checked out.
pub open spec fn push_command(root: Seq<char>, branch: Option<Seq<char>>) -> CmdModel {
    match branch {
        Some(b) => command(root, seq!["push"@, "--set-upstream"@, "origin"@, b]),
        None => command(root, seq!["push"@]),
    }
}

/// Pushes the current branch.
pub open spec fn push_turn(rs: Seq<ReplyModel>, at: int, root: Seq<char>) -> Turn<ReplyModel> {
    match branch_turn(rs, at, root) {
        Turn::Ask(c) => Turn::Ask(c),
        Turn::Have(b, n) => ask(rs, n, push_command(root, b)),
    }
}

/// The command that rebases onto a remote branch, or onto the upstream.
pub open spec fn pull_command(root: Seq<char>, branch: Option<Seq<char>>) -> CmdModel {
    match branch {
        Some(b) => command(root, seq!["pull"@, "--rebase"@, "--autostash"@, "origin"@, b]),
        None => command(root, seq!["pull"@, "--rebase"@, "--autostash"@]),
    }
}

pub open spec fn abort_command(root: Seq<char>) -> CmdModel {
    command(root, seq!["rebase"@, "--abort"@])
}

/// Rebases onto the upstream. A rebase that fails is aborted.
pub open spec fn pull_turn(rs: Seq<ReplyModel>, at: int, root: Seq<char>) -> Turn<ReplyModel> {
    match branch_turn(rs, at, root) {
        Turn::Ask(c) => Turn::Ask(c),
        Turn::Have(b, n) => match ask(rs, n, pull_command(root, b)) {
            Turn::Ask(c) => Turn::Ask(c),
            Turn::Have(ReplyModel::Out(s), n) => Turn::Have(ReplyModel::Out(s), n),
            Turn::Have(ReplyModel::Failed(e), n) => match ask(rs, n, abort_command(root)) {
                Turn::Ask(c) => Turn::Ask(c),
                Turn::Have(_, n) => Turn::Have(ReplyModel::Failed(e), n),
            },
        },
    }
}

/// Pushes. If the remote has moved on, rebases onto it and pushes once more.
pub open spec fn push_rebasing_turn(rs: Seq<ReplyModel>, at: int, root: Seq<char>) -> Turn<
    Result<Seq<char>, GitErrorModel>,
> {
    match push_turn(rs, at, root) {
        Turn::Ask(c) => Turn::Ask(c),
        Turn::Have(ReplyModel::Out(s), n) => Turn::Have(Ok(s), n),
        Turn::Have(ReplyModel::Failed(e), n) => if !rejection(lowercase(e)) {
            Turn::Have(Err(GitErrorModel::Failed(e)), n)
        } else {
            match pull_turn(rs, n, root) {
                Turn::Ask(c) => Turn::Ask(c),
                Turn::Have(ReplyModel::Failed(pe), n) => Turn::Have(
                    Err(GitErrorModel::Conflict(pe)),
                    n,
                ),
                Turn::Have(ReplyModel::Out(_), n) => match push_turn(rs, n, root) {
                    Turn::Ask(c) => Turn::Ask(c),
                    Turn::Have(r, n) => Turn::Have(as_result(r), n),
                },
            }
        },
    }
}

/// Whether a revision exists.
pub open spec fn verify_turn(rs: Seq<ReplyModel>, at: int, root: Seq<char>, rev: Seq<char>) -> Turn<
    bool,
> {
    match ask(rs, at, command(root, seq!["rev-parse"@, "--verify"@, "--quiet"@, rev])) {
        Turn::Ask(c) => Turn::Ask(c),
        Turn::Have(r, n) => Turn::Have(r is Out, n),
    }
}

/// The remote branch of the same name as the current branch, if there is one.
pub open spec fn same_named_turn(rs: Seq<ReplyModel>, at: int, root: Seq<char>) -> Turn<
    Option<Seq<char>>,
> {
    match branch_turn(rs, at, root) {
        Turn::Ask(c) => Turn::Ask(c),
        Turn::Have(None, n) => Turn::Have(None, n),
        Turn::Have(Some(b), n) => match verify_turn(rs, n, root, "origin/"@ + b) {
            Turn::Ask(c) => Turn::Ask(c),
            Turn::Have(ok, n) => Turn::Have(
                if ok {
                    Some("origin/"@ + b)
                } else {
                    None
                },
                n,
            ),
        },
    }
}

/// The branches that may be the remote's main line: its default branch, if it says which, and
/// the usual names.
pub open spec fn main_lines(default: ReplyModel) -> Seq<Seq<char>> {
    let usual = seq!["origin/main"@, "origin/master"@];
    match default {
        ReplyModel::Out(s) => {
            let d = text::trim(s);
            if d.len() > 0 && d != "origin/HEAD"@ {
                seq![d] + usual
            } else {
                usual
            }
        },
        ReplyModel::Failed(_) => usual,
    }
}

/// Where the current branch forked off the first of the main lines from `i` on that exists and
/// has a common commit with it.
pub open spec fn fork_turn(
    rs: Seq<ReplyModel>,
    at: int,
    root: Seq<char>,
    mains: Seq<Seq<char>>,
    i: int,
) -> Turn<Option<Seq<char>>>
    decreases mains.len() - i,
{
    if i < 0 || i >= mains.len() {
        Turn::Have(None, at)
    } else {
        match verify_turn(rs, at, root, mains[i]) {
            Turn::Ask(c) => Turn::Ask(c),
            Turn::Have(false, n) => fork_turn(rs, n, root, mains, i + 1),
            Turn::Have(true, n) => match ask(
                rs,
                n,
                command(root, seq!["merge-base"@, "HEAD"@, mains[i]]),
            ) {
                Turn::Ask(c) => Turn::Ask(c),
                Turn::Have(ReplyModel::Out(s), n) => if text::trim(s).len() > 0 {
                    Turn::Have(Some(text::trim(s)), n)
                } else {
                    fork_turn(rs, n, root, mains, i + 1)
                },
                Turn::Have(ReplyModel::Failed(_), n) => fork_turn(rs, n, root, mains, i + 1),
            },
        }
    }
}

/// Where the current branch forked off the remote's main line.
pub open spec fn main_fork_turn(rs: Seq<ReplyModel>, at: int, root: Seq<char>) -> Turn<
    Option<Seq<char>>,
> {
    match ask(rs, at, command(root, seq!["rev-parse"@, "--abbrev-ref"@, "origin/HEAD"@])) {
        Turn::Ask(c) => Turn::Ask(c),
        Turn::Have(r, n) => fork_turn(rs, n, root, main_lines(r), 0),
    }
}

/// The commit that a push is measured against: the upstream, else the remote branch of the same
/// name, else where a push would go, else where the branch forked off the main line.
pub open spec fn push_base_turn(rs: Seq<ReplyModel>, at: int, root: Seq<char>) -> Turn<
    Option<Seq<char>>,
> {
    match verify_turn(rs, at, root, "@{u}"@) {
        Turn::Ask(c) => Turn::Ask(c),
        Turn::Have(true, n) => Turn::Have(Some("@{u}"@), n),
        Turn::Have(false, n) => match same_named_turn(rs, n, root) {
            Turn::Ask(c) => Turn::Ask(c),
            Turn::Have(Some(b), n) => Turn::Have(Some(b), n),
            Turn::Have(None, n) => match verify_turn(rs, n, root, "@{push}"@) {
                Turn::Ask(c) => Turn::Ask(c),
                Turn::Have(true, n) => Turn::Have(Some("@{push}"@), n),
                Turn::Have(false, n) => main_fork_turn(rs, n, root),
            },
        },
    }
}

/// The revision that a push is compared with: with no point to measure from, the empty tree.
pub open spec fn base_or_empty(base: Option<Seq<char>>) -> Seq<char> {
    match base {
        Some(b) => b,
        None => "4b825dc642cb6eb9a060e54bf8d69288fbee4904"@,
    }
}

/// The count that a command printed.
pub open spec fn count_of(r: ReplyModel) -> Option<int> {
    match r {
        ReplyModel::Out(s) => text::number(text::trim(s), usize::MAX as int),
        ReplyModel::Failed(_) => None,
    }
}

/// How many commits a push would send.
pub open spec fn ahead_turn(rs: Seq<ReplyModel>, root: Seq<char>) -> Turn<Option<int>> {
    match push_base_turn(rs, 0, root) {
        Turn::Ask(c) => Turn::Ask(c),
        Turn::Have(base, n) => {
            let range = match base {
                Some(b) => b + "..HEAD"@,
                None => "HEAD"@,
            };
            match ask(rs, n, command(root, seq!["rev-list"@, "--count"@, range])) {
                Turn::Ask(c) => Turn::Ask(c),
                Turn::Have(r, n) => Turn::Have(count_of(r), n),
            }
        },
    }
}

/// How many commits a pull would bring in, if there is an upstream.
pub open spec fn behind_turn(rs: Seq<ReplyModel>, root: Seq<char>) -> Turn<Option<int>> {
    match ask(rs, 0, command(root, seq!["rev-parse"@, "@{u}"@])) {
        Turn::Ask(c) => Turn::Ask(c),
        Turn::Have(ReplyModel::Failed(_), n) => Turn::Have(None, n),
        Turn::Have(ReplyModel::Out(_), n) => match ask(
            rs,
            n,
            command(root, seq!["rev-list"@, "--count"@, "HEAD..@{u}"@]),
        ) {
            Turn::Ask(c) => Turn::Ask(c),
            Turn::Have(r, n) => Turn::Have(count_of(r), n),
        },
    }
}

/// The files that a push would send.
pub open spec fn push_files_turn(rs: Seq<ReplyModel>, root: Seq<char>) -> Turn<Seq<ChangedModel>> {
    match push_base_turn(rs, 0, root) {
        Turn::Ask(c) => Turn::Ask(c),
        Turn::Have(base, n) => diff_files_turn(
            rs,
            n,
            root,
            base_or_empty(base),
            Some("HEAD"@),
            None,
        ),
    }
}

fn count_in(r: Reply) -> (n: Option<usize>)
    ensures
        n.m() == count_of(r.m()),
{
    match r {
        Reply::Out(s) => text::parse_number(text::trim_str(s.as_str()).as_str(), usize::MAX),
        Reply::Failed(_) => None,
    }
}

/// The branches that may be the remote's main line.
fn mains_of(default: Reply) -> (v: Vec<String>)
    ensures
        v.m() == main_lines(default.m()),
{
    let mut v: Vec<String> = Vec::new();
    if let Reply::Out(s) = &default {
        let d = text::trim_str(s.as_str());
        if !d.as_str().is_empty() && !text::str_eq(d.as_str(), "origin/HEAD") {
            v.push(d);
        }
    }
    let ghost first = v.m();
    let v = with_arg(with_arg(v, "origin/main"), "origin/master");
    proof {
        assert(v.m() =~= first + seq!["origin/main"@, "origin/master"@]);
        assert(v.m() =~= main_lines(default.m()));
    }
    v
}

impl Repo {
    fn branch_at(&self, replies: &Vec<Reply>, at: usize) -> (r: Progress<Option<String>>)
        ensures
            r.turn() == branch_turn(replies.m(), at as int, self.m()),
    {
        let c = cmd4(self.root(), "symbolic-ref", "--quiet", "--short", "HEAD");
        match ask_for(replies, at, c) {
            Progress::Ask(c) => Progress::Ask(c),
            Progress::Have(Reply::Failed(_), n) => Progress::Have(None, n),
            Progress::Have(Reply::Out(out), n) => {
                let b = text::trim_str(out.as_str());
                if b.as_str().is_empty() {
                    Progress::Have(None, n)
                } else {
                    Progress::Have(Some(b), n)
                }
            },
        }
    }

    fn push_at(&self, replies: &Vec<Reply>, at: usize) -> (r: Progress<Reply>)
        ensures
            r.turn() == push_turn(replies.m(), at as int, self.m()),
    {
        match self.branch_at(replies, at) {
            Progress::Ask(c) => Progress::Ask(c),
            Progress::Have(Some(b), n) => ask_for(
                replies,
                n,
                cmd4(self.root(), "push", "--set-upstream", "origin", b.as_str()),
            ),
            Progress::Have(None, n) => {
                let c = Cmd { dir: String::from_str(self.root()), args: args1("push"), stdin: None };
                ask_for(replies, n, c)
            },
        }
    }

    fn pull_at(&self, replies: &Vec<Reply>, at: usize) -> (r: Progress<Reply>)
        ensures
            r.turn() == pull_turn(replies.m(), at as int, self.m()),
    {
        let asked = match self.branch_at(replies, at) {
            Progress::Ask(c) => Progress::Ask(c),
            Progress::Have(Some(b), n) => ask_for(
                replies,
                n,
                cmd5(self.root(), "pull", "--rebase", "--autostash", "origin", b.as_str()),
            ),
            Progress::Have(None, n) => ask_for(
                replies,
                n,
                cmd3(self.root(), "pull", "--rebase", "--autostash"),
            ),
        };
        match asked {
            Progress::Ask(c) => Progress::Ask(c),
            Progress::Have(Reply::Out(s), n) => Progress::Have(Reply::Out(s), n),
            Progress::Have(Reply::Failed(e), n) => {
                match ask_for(replies, n, cmd2(self.root(), "rebase", "--abort")) {
                    Progress::Ask(c) => Progress::Ask(c),
                    Progress::Have(_, n) => Progress::Have(Reply::Failed(e), n),
                }
            },
        }
    }

    fn verify_at(&self, rev: &str, replies: &Vec<Reply>, at: usize) -> (r: Progress<bool>)
        ensures
            r.turn() == verify_turn(replies.m(), at as int, self.m(), rev@),
    {
        match ask_for(replies, at, cmd4(self.root(), "rev-parse", "--verify", "--quiet", rev)) {
            Progress::Ask(c) => Progress::Ask(c),
            Progress::Have(Reply::Out(_), n) => Progress::Have(true, n),
            Progress::Have(Reply::Failed(_), n) => Progress::Have(false, n),
        }
    }

    fn same_named_at(&self, replies: &Vec<Reply>, at: usize) -> (r: Progress<Option<String>>)
        ensures
            r.turn() == same_named_turn(replies.m(), at as int, self.m()),
    {
        match self.branch_at(replies, at) {
            Progress::Ask(c) => Progress::Ask(c),
            Progress::Have(None, n) => Progress::Have(None, n),
            Progress::Have(Some(b), n) => {
                let rev = joined("origin/", b.as_str());
                match self.verify_at(rev.as_str(), replies, n) {
                    Progress::Ask(c) => Progress::Ask(c),
                    Progress::Have(true, n) => Progress::Have(Some(rev), n),
                    Progress::Have(false, n) => Progress::Have(None, n),
                }
            },
        }
    }

    fn fork_at(&self, mains: &Vec<String>, i: usize, replies: &Vec<Reply>, at: usize) -> (r: Progress<
        Option<String>,
    >)
        requires
            i <= mains.len(),
        ensures
            r.turn() == fork_turn(replies.m(), at as int, self.m(), mains.m(), i as int),
        decreases mains.len() - i,
    {
        if i >= mains.len() {
            return Progress::Have(None, at);
        }
        match self.verify_at(mains[i].as_str(), replies, at) {
            Progress::Ask(c) => Progress::Ask(c),
            Progress::Have(false, n) => self.fork_at(mains, i + 1, replies, n),
            Progress::Have(true, n) => {
                match ask_for(
                    replies,
                    n,
                    cmd3(self.root(), "merge-base", "HEAD", mains[i].as_str()),
                ) {
                    Progress::Ask(c) => Progress::Ask(c),
                    Progress::Have(Reply::Out(s), n) => {
                        let mb = text::trim_str(s.as_str());
                        if mb.as_str().is_empty() {
                            self.fork_at(mains, i + 1, replies, n)
                        } else {
                            Progress::Have(Some(mb), n)
                        }
                    },
                    Progress::Have(Reply::Failed(_), n) => self.fork_at(mains, i + 1, replies, n),
                }
            },
        }
    }

    fn push_base_at(&self, replies: &Vec<Reply>, at: usize) -> (r: Progress<Option<String>>)
        ensures
            r.turn() == push_base_turn(replies.m(), at as int, self.m()),
    {
        let n: usize = match self.verify_at("@{u}", replies, at) {
            Progress::Ask(c) => {
                return Progress::Ask(c);
            },
            Progress::Have(true, n) => {
                return Progress::Have(Some(String::from_str("@{u}")), n);
            },
            Progress::Have(false, n) => n,
        };
        let n: usize = match self.same_named_at(replies, n) {
            Progress::Ask(c) => {
                return Progress::Ask(c);
            },
            Progress::Have(Some(b), n) => {
                return Progress::Have(Some(b), n);
            },
            Progress::Have(None, n) => n,
        };
        let n: usize = match self.verify_at("@{push}", replies, n) {
            Progress::Ask(c) => {
                return Progress::Ask(c);
            },
            Progress::Have(true, n) => {
                return Progress::Have(Some(String::from_str("@{push}")), n);
            },
            Progress::Have(false, n) => n,
        };
        let c = cmd3(self.root(), "rev-parse", "--abbrev-ref", "origin/HEAD");
        match ask_for(replies, n, c) {
            Progress::Ask(c) => Progress::Ask(c),
            Progress::Have(r, n) => {
                let mains = mains_of(r);
                self.fork_at(&mains, 0, replies, n)
            },
        }
    }

    /// The name of the branch that is checked out, if there is one.
    pub fn current_branch(&self, replies: &Vec<Reply>) -> (r: Step<Option<String>>)
        ensures
            r.is(branch_turn(replies.m(), 0, self.m())),
    {
        step_of(self.branch_at(replies, 0))
    }

    /// Pushes the current branch and makes the remote branch its upstream.
    pub fn push(&self, replies: &Vec<Reply>) -> (r: Step<Reply>)
        ensures
            r.is(push_turn(replies.m(), 0, self.m())),
    {
        step_of(self.push_at(replies, 0))
    }

    /// Pushes. If the remote has moved on, rebases onto it and pushes once more; a rebase that
    /// fails is aborted.
    pub fn push_rebasing(&self, replies: &Vec<Reply>) -> (r: Step<Result<String, GitError>>)
        ensures
            r.is(push_rebasing_turn(replies.m(), 0, self.m())),
    {
        match self.push_at(replies, 0) {
            Progress::Ask(c) => Step::Run(c),
            Progress::Have(Reply::Out(s), _) => Step::Done(Ok(s)),
            Progress::Have(Reply::Failed(e), n) => {
                if !push_rejected(e.as_str()) {
                    return Step::Done(Err(GitError::Failed(e)));
                }
                match self.pull_at(replies, n) {
                    Progress::Ask(c) => Step::Run(c),
                    Progress::Have(Reply::Failed(pe), _) => Step::Done(Err(GitError::Conflict(pe))),
                    Progress::Have(Reply::Out(_), n) => {
                        match self.push_at(replies, n) {
                            Progress::Ask(c) => Step::Run(c),
                            Progress::Have(r, _) => Step::Done(result_of(r)),
                        }
                    },
                }
            },
        }
    }

    /// Brings the remote branches up to date without touching the working tree.
    pub fn fetch(&self, replies: &Vec<Reply>) -> (r: Step<Result<String, GitError>>)
        ensures
            r.is(output_turn(replies.m(), command(self.m(), seq!["fetch"@, "--prune"@]))),
    {
        match ask_for(replies, 0, cmd2(self.root(), "fetch", "--prune")) {
            Progress::Ask(c) => Step::Run(c),
            Progress::Have(x, _) => Step::Done(result_of(x)),
        }
    }

    /// How many commits a pull would bring in, if there is an upstream.
    pub fn behind_count(&self, replies: &Vec<Reply>) -> (r: Step<Option<usize>>)
        ensures
            r.is(behind_turn(replies.m(), self.m())),
    {
        match ask_for(replies, 0, cmd2(self.root(), "rev-parse", "@{u}")) {
            Progress::Ask(c) => Step::Run(c),
            Progress::Have(Reply::Failed(_), _) => Step::Done(None),
            Progress::Have(Reply::Out(_), n) => {
                match ask_for(replies, n, cmd3(self.root(), "rev-list", "--count", "HEAD..@{u}")) {
                    Progress::Ask(c) => Step::Run(c),
                    Progress::Have(r, _) => Step::Done(count_in(r)),
                }
            },
        }
    }

    /// Rebases onto the upstream. A rebase that fails is aborted.
    pub fn pull_rebase(&self, replies: &Vec<Reply>) -> (r: Step<Reply>)
        ensures
            r.is(pull_turn(replies.m(), 0, self.m())),
    {
        step_of(self.pull_at(replies, 0))
    }

    /// How many commits a push would send.
    pub fn ahead_count(&self, replies: &Vec<Reply>) -> (r: Step<Option<usize>>)
        ensures
            r.is(ahead_turn(replies.m(), self.m())),
    {
        match self.push_base_at(replies, 0) {
            Progress::Ask(c) => Step::Run(c),
            Progress::Have(base, n) => {
                let range = match base {
                    Some(b) => joined(b.as_str(), "..HEAD"),
                    None => String::from_str("HEAD"),
                };
                match ask_for(replies, n, cmd3(self.root(), "rev-list", "--count", range.as_str())) {
                    Progress::Ask(c) => Step::Run(c),
                    Progress::Have(r, _) => Step::Done(count_in(r)),
                }
            },
        }
    }

    /// The commit that a push is measured against, if there is one.
    pub fn push_base_commit(&self, replies: &Vec<Reply>) -> (r: Step<Option<String>>)
        ensures
            r.is(push_base_turn(replies.m(), 0, self.m())),
    {
        step_of(self.push_base_at(replies, 0))
    }

    /// The revision that a push is compared with.
    pub fn push_base(&self, replies: &Vec<Reply>) -> (r: Step<String>)
        ensures
            r.is(
                match push_base_turn(replies.m(), 0, self.m()) {
                    Turn::Ask(c) => Turn::Ask(c),
                    Turn::Have(base, n) => Turn::Have(base_or_empty(base), n),
                },
            ),
    {
        match self.push_base_at(replies, 0) {
            Progress::Ask(c) => Step::Run(c),
            Progress::Have(base, _) => Step::Done(base_text(base)),
        }
    }

    /// The files that a push would send.
    pub fn push_files(&self, replies: &Vec<Reply>) -> (r: Step<Vec<ChangedFile>>)
        ensures
            r.is(push_files_turn(replies.m(), self.m())),
    {
        match self.push_base_at(replies, 0) {
            Progress::Ask(c) => Step::Run(c),
            Progress::Have(base, n) => {
                let base = base_text(base);
                step_of(self.diff_at(base.as_str(), Some("HEAD"), None, replies, n))
            },
        }
    }
}

fn base_text(base: Option<String>) -> (r: String)
    ensures
        r@ == base_or_empty(base.m()),
{
    match base {
        Some(b) => b,
        None => String::from_str("4b825dc642cb6eb9a060e54bf8d69288fbee4904"),
    }
}

// ---------------------------------------------------------------------------
// Laws
// ---------------------------------------------------------------------------

/// A name that is accepted is not empty, is no option, and has no white space around it.
pub proof fn lemma_ref_name(name: Seq<char>)
    ensures
        ref_name(name) matches Ok(n) ==> n.len() > 0 && n[0] != '-' && !text::is_white_space(n[0])
            && !text::is_white_space(n.last()),
{
    text::lemma_trimmed(name);
}

/// A push that fails for another reason than that the remote has moved on is not tried again.
pub proof fn lemma_push_not_repeated(rs: Seq<ReplyModel>, root: Seq<char>)
    requires
        push_turn(rs, 0, root) matches Turn::Have(ReplyModel::Failed(e), _) && !rejection(
            lowercase(e),
        ),
    ensures
        push_rebasing_turn(rs, 0, root) matches Turn::Have(Err(GitErrorModel::Failed(e)), n)
            && push_turn(rs, 0, root) == Turn::<ReplyModel>::Have(ReplyModel::Failed(e), n),
{
}

/// A rebase that failed is aborted before anything else happens.
pub proof fn lemma_failed_rebase_aborted(rs: Seq<ReplyModel>, root: Seq<char>, e: Seq<char>)
    requires
        branch_turn(rs, 0, root) is Have,
        rs.len() == branch_turn(rs, 0, root)->Have_1 + 1,
        rs.last() == ReplyModel::Failed(e),
    ensures
        pull_turn(rs, 0, root) == Turn::<ReplyModel>::Ask(abort_command(root)),
        forall|r: ReplyModel|
            pull_turn(#[trigger] rs.push(r), 0, root) == Turn::Have(
                ReplyModel::Failed(e),
                rs.len() as int + 1,
            ),
{
    assert forall|r: ReplyModel|
        pull_turn(#[trigger] rs.push(r), 0, root) == Turn::Have(
            ReplyModel::Failed(e),
            rs.len() as int + 1,
        ) by {
        lemma_ask_stable(rs, seq![r], 0, command(
            root,
            seq!["symbolic-ref"@, "--quiet"@, "--short"@, "HEAD"@],
        ));
        assert(rs.push(r) =~= rs + seq![r]);
        assert(rs.push(r)[rs.len() - 1] == rs.last());
    }
}

proof fn lemma_ask_stable(rs: Seq<ReplyModel>, more: Seq<ReplyModel>, at: int, c: CmdModel)
    ensures
        ask(rs, at, c) is Have ==> ask(rs + more, at, c) == ask(rs, at, c),
{
}

/// What a push comes to does not change when more replies follow.
pub proof fn lemma_push_stable(rs: Seq<ReplyModel>, more: Seq<ReplyModel>, at: int, root: Seq<char>)
    ensures
        push_turn(rs, at, root) is Have ==> push_turn(rs + more, at, root) == push_turn(
            rs,
            at,
            root,
        ),
        pull_turn(rs, at, root) is Have ==> pull_turn(rs + more, at, root) == pull_turn(
            rs,
            at,
            root,
        ),
{
}

/// What a push with its retry comes to does not change when more replies follow.
pub proof fn lemma_push_rebasing_stable(
    rs: Seq<ReplyModel>,
    more: Seq<ReplyModel>,
    at: int,
    root: Seq<char>,
)
    ensures
        push_rebasing_turn(rs, at, root) is Have ==> push_rebasing_turn(rs + more, at, root)
            == push_rebasing_turn(rs, at, root),
{
    lemma_push_stable(rs, more, at, root);
    if let Turn::Have(_, n) = push_turn(rs, at, root) {
        lemma_push_stable(rs, more, n, root);
        if let Turn::Have(_, k) = pull_turn(rs, n, root) {
            lemma_push_stable(rs, more, k, root);
        }
    }
}

proof fn lemma_fork_stable(
    rs: Seq<ReplyModel>,
    more: Seq<ReplyModel>,
    at: int,
    root: Seq<char>,
    mains: Seq<Seq<char>>,
    i: int,
)
    ensures
        fork_turn(rs, at, root, mains, i) is Have ==> fork_turn(rs + more, at, root, mains, i)
            == fork_turn(rs, at, root, mains, i),
    decreases mains.len() - i,
{
    if 0 <= i < mains.len() {
        if let Turn::Have(ok, n) = verify_turn(rs, at, root, mains[i]) {
            if ok {
                if let Turn::Have(_, k) = ask(
                    rs,
                    n,
                    command(root, seq!["merge-base"@, "HEAD"@, mains[i]]),
                ) {
                    lemma_fork_stable(rs, more, k, root, mains, i + 1);
                }
            } else {
                lemma_fork_stable(rs, more, n, root, mains, i + 1);
            }
        }
    }
}

/// What a push is measured against does not change when more replies follow.
pub proof fn lemma_push_base_stable(
    rs: Seq<ReplyModel>,
    more: Seq<ReplyModel>,
    at: int,
    root: Seq<char>,
)
    ensures
        push_base_turn(rs, at, root) is Have ==> push_base_turn(rs + more, at, root)
            == push_base_turn(rs, at, root),
{
    if let Turn::Have(_, n1) = verify_turn(rs, at, root, "@{u}"@) {
        if let Turn::Have(_, n2) = same_named_turn(rs, n1, root) {
            if let Turn::Have(_, n3) = verify_turn(rs, n2, root, "@{push}"@) {
                if let Turn::Have(r, n4) = ask(
                    rs,
                    n3,
                    command(root, seq!["rev-parse"@, "--abbrev-ref"@, "origin/HEAD"@]),
                ) {
                    lemma_fork_stable(rs, more, n4, root, main_lines(r), 0);
                }
            }
        }
    }
}

/// A branch with no remote counterpart is measured from where it forked off the remote's default
/// branch, not from the empty tree: with no upstream, no remote branch of its name and nowhere to
/// push, but a default branch and a common commit with it, that commit is the base.
pub proof fn lemma_new_branch_base(
    rs: Seq<ReplyModel>,
    root: Seq<char>,
    branch: Seq<char>,
    default: Seq<char>,
    fork: Seq<char>,
)
    requires
        rs.len() >= 7,
        rs[0] is Failed,
        rs[1] == ReplyModel::Out(branch),
        text::trim(branch).len() > 0,
        rs[2] is Failed,
        rs[3] is Failed,
        rs[4] == ReplyModel::Out(default),
        text::trim(default).len() > 0,
        text::trim(default) != "origin/HEAD"@,
        rs[5] is Out,
        rs[6] == ReplyModel::Out(fork),
        text::trim(fork).len() > 0,
    ensures
        push_base_turn(rs, 0, root) == Turn::Have(Some(text::trim(fork)), 7),
{
    let mains = main_lines(rs[4]);
    assert(mains[0] == text::trim(default));
    reveal_with_fuel(fork_turn, 2);
}

/// The empty tree is the base only if no revision to measure from exists.
pub proof fn lemma_empty_base(rs: Seq<ReplyModel>, at: int, root: Seq<char>)
    requires
        push_base_turn(rs, at, root) matches Turn::Have(None, _),
        at >= 0,
    ensures
        rs[at] is Failed,
        same_named_turn(rs, at + 1, root) matches Turn::Have(None, n)
            && rs[n] is Failed && main_fork_turn(rs, n + 1, root) matches Turn::Have(None, _),
{
    lemma_turns_forward(rs, at + 1, root);
}

proof fn lemma_turns_forward(rs: Seq<ReplyModel>, at: int, root: Seq<char>)
    requires
        at >= 0,
    ensures
        same_named_turn(rs, at, root) matches Turn::Have(_, n) ==> at < n <= rs.len(),
{
}

// ---------------------------------------------------------------------------
// What a caller sees, reply by reply
// ---------------------------------------------------------------------------

/// A file's content before its changes: what is staged wins over what is committed, and a file
/// that is in neither place is empty. Of the replies nothing behind the first that holds the
/// content matters.
pub proof fn lemma_base_content(
    root: Seq<char>,
    rel: Seq<char>,
    e: Seq<char>,
    f: Seq<char>,
    s: Seq<char>,
    more: Seq<ReplyModel>,
)
    ensures
        base_content_turn(Seq::empty(), root, rel) == Turn::<Result<Seq<char>, GitErrorModel>>::Ask(
            command(root, seq!["show"@, ":"@ + rel]),
        ),
        base_content_turn(seq![ReplyModel::Out(s)] + more, root, rel) matches Turn::Have(r, _)
            && r == Ok::<Seq<char>, GitErrorModel>(s),
        base_content_turn(seq![ReplyModel::Failed(e)], root, rel) == Turn::<
            Result<Seq<char>, GitErrorModel>,
        >::Ask(command(root, seq!["show"@, "HEAD:"@ + rel])),
        base_content_turn(seq![ReplyModel::Failed(e), ReplyModel::Out(s)] + more, root, rel)
            matches Turn::Have(r, _) && r == Ok::<Seq<char>, GitErrorModel>(s),
        base_content_turn(seq![ReplyModel::Failed(e), ReplyModel::Failed(f)] + more, root, rel)
            matches Turn::Have(r, _) && r == Ok::<Seq<char>, GitErrorModel>(Seq::empty()),
{
}

/// A file of a revision is asked for by the revision, a colon and its path, and is empty where
/// the revision does not have it.
pub proof fn lemma_committed_content(
    root: Seq<char>,
    rev: Seq<char>,
    rel: Seq<char>,
    s: Seq<char>,
    e: Seq<char>,
)
    ensures
        committed_turn(Seq::empty(), root, rev, rel) == Turn::<Result<Seq<char>, GitErrorModel>>::Ask(
            command(root, seq!["show"@, rev + ":"@ + rel]),
        ),
        committed_turn(seq![ReplyModel::Out(s)], root, rev, rel) matches Turn::Have(r, _) && r
            == Ok::<Seq<char>, GitErrorModel>(s),
        committed_turn(seq![ReplyModel::Failed(e)], root, rev, rel) matches Turn::Have(r, _) && r
            == Ok::<Seq<char>, GitErrorModel>(Seq::empty()),
{
}

/// The root of a repository is what git prints, without the white space around it; where it
/// prints nothing else there is no repository, and where it fails its message is the error.
pub proof fn lemma_discover(path: Seq<char>, out: Seq<char>)
    ensures
        discover_turn(seq![ReplyModel::Out(out)], path) matches Turn::Have(r, _) && (r matches Ok(
            root,
        ) ==> root == text::trim(out) && root.len() > 0) && (r is Err <==> text::trim(out).len()
            == 0) && (r is Err ==> r == Err::<Seq<char>, GitErrorModel>(
            GitErrorModel::NotARepository,
        )),
        discover_turn(seq![ReplyModel::Failed(out)], path) matches Turn::Have(r, _) && r == Err::<
            Seq<char>,
            GitErrorModel,
        >(GitErrorModel::Failed(out)),
{
}

/// A command that ran says how it ended: its output if it succeeded, else a message that ends in
/// what it wrote of the failure.
pub proof fn lemma_outcome(args: Seq<Seq<char>>, success: bool, stdout: Seq<u8>, stderr: Seq<u8>)
    ensures
        outcome(args, success, stdout, stderr) is Out <==> success,
        outcome(args, success, stdout, stderr) matches ReplyModel::Out(s) ==> s == text::lossy(
            stdout,
        ),
        outcome(args, success, stdout, stderr) matches ReplyModel::Failed(s)
            ==> text::finishes_with(s, text::lossy(stderr)),
{
    let s = "git "@ + debug_args(args) + " failed: "@ + text::lossy(stderr);
    let n = s.len() - text::lossy(stderr).len();
    assert(s.subrange(n, s.len() as int) =~= text::lossy(stderr));
}

/// A push was refused because the remote has moved on if the message says so anywhere in it.
pub proof fn lemma_rejection(pre: Seq<char>, post: Seq<char>)
    ensures
        rejection(pre + "fetch first"@ + post),
        rejection(pre + "non-fast-forward"@ + post),
        rejection(pre + "[rejected]"@ + post),
        rejection(pre + "updates were rejected"@ + post),
{
    lemma_occurs_between(pre, "fetch first"@, post);
    lemma_occurs_between(pre, "non-fast-forward"@, post);
    lemma_occurs_between(pre, "[rejected]"@, post);
    lemma_occurs_between(pre, "updates were rejected"@, post);
}

proof fn lemma_occurs_between(pre: Seq<char>, w: Seq<char>, post: Seq<char>)
    ensures
        text::occurs_in(pre + w + post, w),
{
    let s = pre + w + post;
    assert(s.subrange(pre.len() as int, (pre.len() + w.len()) as int) =~= w);
    assert(text::occurs_at(s, w, pre.len() as int));
}

/// A push that the remote refused because it has moved on ends as the second push ends, once the
/// rebase went through; if the rebase failed, it ends in a conflict with the message of the
/// rebase, and nothing is pushed again. A push that went through at once is not repeated.
pub proof fn lemma_push_rebasing(rs: Seq<ReplyModel>, at: int, root: Seq<char>)
    ensures
        push_turn(rs, at, root) matches Turn::Have(ReplyModel::Out(s), n) ==> push_rebasing_turn(
            rs,
            at,
            root,
        ) == Turn::Have(Ok::<Seq<char>, GitErrorModel>(s), n),
        push_turn(rs, at, root) matches Turn::Have(ReplyModel::Failed(e), n) ==> rejection(
            lowercase(e),
        ) ==> {
            let r = push_rebasing_turn(rs, at, root);
            match pull_turn(rs, n, root) {
                Turn::Ask(c) => r == Turn::<Result<Seq<char>, GitErrorModel>>::Ask(c),
                Turn::Have(ReplyModel::Failed(pe), k) => r == Turn::Have(
                    Err::<Seq<char>, GitErrorModel>(GitErrorModel::Conflict(pe)),
                    k,
                ),
                Turn::Have(ReplyModel::Out(_), k) => match push_turn(rs, k, root) {
                    Turn::Ask(c) => r == Turn::<Result<Seq<char>, GitErrorModel>>::Ask(c),
                    Turn::Have(ReplyModel::Out(s), m) => r == Turn::Have(
                        Ok::<Seq<char>, GitErrorModel>(s),
                        m,
                    ),
                    Turn::Have(ReplyModel::Failed(f), m) => r == Turn::Have(
                        Err::<Seq<char>, GitErrorModel>(GitErrorModel::Failed(f)),
                        m,
                    ),
                },
            }
        },
{
}

/// A failed rebase is reported with its own message, whatever became of the command that aborts
/// it; one that went through is not aborted.
pub proof fn lemma_pull_result(
    branch: Seq<char>,
    root: Seq<char>,
    s: Seq<char>,
    e: Seq<char>,
    abort: ReplyModel,
)
    requires
        text::trim(branch).len() > 0,
    ensures
        pull_turn(seq![ReplyModel::Out(branch)], 0, root) == Turn::<ReplyModel>::Ask(
            command(
                root,
                seq!["pull"@, "--rebase"@, "--autostash"@, "origin"@, text::trim(branch)],
            ),
        ),
        pull_turn(seq![ReplyModel::Out(branch), ReplyModel::Out(s)], 0, root) matches Turn::Have(
            r,
            _,
        ) && r == ReplyModel::Out(s),
        pull_turn(seq![ReplyModel::Out(branch), ReplyModel::Failed(e)], 0, root) == Turn::<
            ReplyModel,
        >::Ask(command(root, seq!["rebase"@, "--abort"@])),
        pull_turn(seq![ReplyModel::Out(branch), ReplyModel::Failed(e), abort], 0, root)
            matches Turn::Have(r, _) && r == ReplyModel::Failed(e),
{
}

/// A push names the branch that is checked out and makes the remote one its upstream; without a
/// branch it leaves both to git.
pub proof fn lemma_push_named(branch: Seq<char>, root: Seq<char>, e: Seq<char>)
    ensures
        text::trim(branch).len() > 0 ==> push_turn(seq![ReplyModel::Out(branch)], 0, root)
            == Turn::<ReplyModel>::Ask(
            command(root, seq!["push"@, "--set-upstream"@, "origin"@, text::trim(branch)]),
        ),
        text::trim(branch).len() == 0 ==> push_turn(seq![ReplyModel::Out(branch)], 0, root)
            == Turn::<ReplyModel>::Ask(command(root, seq!["push"@])),
        push_turn(seq![ReplyModel::Failed(e)], 0, root) == Turn::<ReplyModel>::Ask(
            command(root, seq!["push"@]),
        ),
{
}

/// A push is measured against the upstream where there is one, and that is all that is asked
/// for; else against the remote branch of the same name; else against where a push would go.
pub proof fn lemma_push_base_order(
    root: Seq<char>,
    u: Seq<char>,
    e: Seq<char>,
    branch: Seq<char>,
    s: Seq<char>,
)
    requires
        text::trim(branch).len() > 0,
    ensures
        push_base_turn(seq![ReplyModel::Out(u)], 0, root) matches Turn::Have(r, _) && r == Some(
            "@{u}"@,
        ),
        push_base_turn(
            seq![ReplyModel::Failed(e), ReplyModel::Out(branch), ReplyModel::Out(s)],
            0,
            root,
        ) matches Turn::Have(r, _) && r == Some("origin/"@ + text::trim(branch)),
        push_base_turn(
            seq![
                ReplyModel::Failed(e),
                ReplyModel::Out(branch),
                ReplyModel::Failed(e),
                ReplyModel::Out(s),
            ],
            0,
            root,
        ) matches Turn::Have(r, _) && r == Some("@{push}"@),
        push_base_turn(
            seq![ReplyModel::Failed(e), ReplyModel::Failed(e), ReplyModel::Out(s)],
            0,
            root,
        ) matches Turn::Have(r, _) && r == Some("@{push}"@),
{
}

/// The main line of a remote is its default branch where it says which, then `main`, then
/// `master`.
pub proof fn lemma_main_lines(d: Seq<char>, e: Seq<char>)
    ensures
        main_lines(ReplyModel::Failed(e)) == seq!["origin/main"@, "origin/master"@],
        text::trim(d).len() > 0 && text::trim(d) != "origin/HEAD"@ ==> main_lines(
            ReplyModel::Out(d),
        ) == seq![text::trim(d), "origin/main"@, "origin/master"@],
        text::trim(d).len() == 0 || text::trim(d) == "origin/HEAD"@ ==> main_lines(
            ReplyModel::Out(d),
        ) == seq!["origin/main"@, "origin/master"@],
{
    assert(seq![text::trim(d)] + seq!["origin/main"@, "origin/master"@] =~= seq![
        text::trim(d),
        "origin/main"@,
        "origin/master"@,
    ]);
}

/// A count is read back, with a newline behind it or not; a message of failure is no count.
pub proof fn lemma_count_read_back(n: usize, e: Seq<char>)
    ensures
        count_of(ReplyModel::Out(text::decimal(n as nat))) == Some(n as int),
        count_of(ReplyModel::Out(text::decimal(n as nat).push('\n'))) == Some(n as int),
        count_of(ReplyModel::Failed(e)) is None,
{
    let d = text::decimal(n as nat);
    text::lemma_number_read_back(n as nat, usize::MAX as int);
    assert(text::is_digit(d[0]));
    assert(text::is_digit(d[d.len() - 1]));
    text::lemma_ascii_white_space(d[0]);
    text::lemma_ascii_white_space(d.last());
    text::lemma_ascii_white_space('\n');
    text::lemma_trim_keeps(d);
    assert(d.push('\n').drop_last() =~= d);
    assert(text::trim_end(d.push('\n')) == text::trim_end(d));
}

/// What a push would send lies between its base and the head, and what a pull would bring in the
/// other way round; without a base all of the head's history would be sent. Without an upstream
/// nothing is behind.
pub proof fn lemma_ahead_and_behind(root: Seq<char>, u: Seq<char>, n: usize, e: Seq<char>)
    ensures
        ahead_turn(seq![ReplyModel::Out(u)], root) == Turn::<Option<int>>::Ask(
            command(root, seq!["rev-list"@, "--count"@, "@{u}"@ + "..HEAD"@]),
        ),
        behind_turn(seq![ReplyModel::Out(u)], root) == Turn::<Option<int>>::Ask(
            command(root, seq!["rev-list"@, "--count"@, "HEAD..@{u}"@]),
        ),
        behind_turn(seq![ReplyModel::Failed(e)], root) matches Turn::Have(r, _) && r is None,
        ahead_turn(
            seq![ReplyModel::Out(u), ReplyModel::Out(text::decimal(n as nat).push('\n'))],
            root,
        ) matches Turn::Have(r, _) && r == Some(n as int),
        behind_turn(
            seq![ReplyModel::Out(u), ReplyModel::Out(text::decimal(n as nat).push('\n'))],
            root,
        ) matches Turn::Have(r, _) && r == Some(n as int),
{
    lemma_count_read_back(n, e);
}

/// A new branch is switched to if and only if that is asked for, and one of the same name is
/// overwritten if and only if that is asked for; the name comes last.
pub proof fn lemma_create_branch(root: Seq<char>, name: Seq<char>, checkout: bool, overwrite: bool)
    ensures
        ({
            let c = create_branch_command(root, name, checkout, overwrite);
            &&& c.dir == root
            &&& c.stdin is None
            &&& c.args.last() == name
            &&& c.args[0] == "checkout"@ <==> checkout
            &&& c.args[0] == "branch"@ <==> !checkout
            &&& checkout ==> c.args.len() == 3 && (c.args[1] == "-B"@ <==> overwrite) && (c.args[1]
                == "-b"@ <==> !overwrite)
            &&& !checkout ==> (c.args.len() == 3 <==> overwrite) && (overwrite ==> c.args[1]
                == "-f"@) && (!overwrite ==> c.args.len() == 2)
        }),
{
    reveal_strlit("checkout");
    reveal_strlit("branch");
    reveal_strlit("-B");
    reveal_strlit("-b");
    assert("checkout"@.len() == 8 && "branch"@.len() == 6);
    assert("-B"@[1] == 'B' && "-b"@[1] == 'b');
}

/// A path that a command is limited to comes last, behind two dashes, so that it is never taken
/// for a revision; and a comparison names the revision it starts from before the other one.
pub proof fn lemma_limited_last(
    from: Seq<char>,
    to: Seq<char>,
    rev: Seq<char>,
    limit: nat,
    p: Seq<char>,
)
    ensures
        diff_args(from, Some(to), None) == seq!["diff"@, "--name-status"@, "-z"@, from, to],
        diff_args(from, None, None) == seq!["diff"@, "--name-status"@, "-z"@, from],
        diff_args(from, Some(to), Some(p)) == diff_args(from, Some(to), None) + seq!["--"@, p],
        diff_args(from, None, Some(p)) == diff_args(from, None, None) + seq!["--"@, p],
        log_args(rev, limit, Some(p)) == log_args(rev, limit, None) + seq!["--"@, p],
        log_args(rev, limit, None).contains(rev),
        log_args(rev, limit, None).contains("-n"@ + text::decimal(limit)),
{
    let l = log_args(rev, limit, None);
    assert(l[1] == rev);
    assert(l[3] == "-n"@ + text::decimal(limit));
}

/// A history that git writes is read back: one commit per line, newest first, with the fields
/// that were asked for.
pub proof fn lemma_log_read_back(
    root: Seq<char>,
    rev: Seq<char>,
    limit: nat,
    path: Option<Seq<char>>,
    commits: Seq<CommitModel>,
)
    requires
        ref_name(rev) is Ok,
        forall|i: int| 0 <= i < commits.len() ==> plain_commit(#[trigger] commits[i]),
    ensures
        log_turn(
            seq![
                ReplyModel::Out(
                    text::ended_with(Seq::new(commits.len(), |i: int| written(commits[i])), '\n'),
                ),
            ],
            root,
            rev,
            limit,
            path,
        ) matches Turn::Have(r, _) && r == Ok::<Seq<CommitModel>, GitErrorModel>(commits),
{
    let ls = Seq::new(commits.len(), |i: int| written(commits[i]));
    assert forall|i: int| 0 <= i < ls.len() implies !(#[trigger] ls[i]).contains('\n') && !(
    ls[i].len() > 0 && ls[i].last() == '\r') by {
        lemma_written_line(commits[i]);
    }
    text::lemma_lines_read_back(ls);
    lemma_commits_of_written(commits);
}

/// The fields of the commit hold no separator, no newline and no carriage return, and its refs
/// no white space around them.
pub open spec fn plain_commit(c: CommitModel) -> bool {
    &&& plain_field(c.hash)
    &&& plain_field(c.short)
    &&& plain_field(c.author)
    &&& plain_field(c.date)
    &&& plain_field(c.subject)
    &&& plain_field(c.refs)
    &&& text::trim(c.refs) == c.refs
}

pub open spec fn plain_field(s: Seq<char>) -> bool {
    !s.contains('\u{1f}') && !s.contains('\n') && !s.contains('\r')
}

/// The line that git writes of a commit, in the format that is asked for.
pub open spec fn written(c: CommitModel) -> Seq<char> {
    c.hash.push('\u{1f}') + c.short.push('\u{1f}') + c.author.push('\u{1f}') + c.date.push(
        '\u{1f}',
    ) + c.subject.push('\u{1f}') + c.refs
}

proof fn lemma_written_line(c: CommitModel)
    requires
        plain_commit(c),
    ensures
        !written(c).contains('\n'),
        !(written(c).len() > 0 && written(c).last() == '\r'),
        porcelain::commit_line(written(c)) == Some(c),
{
    porcelain::lemma_commit_read_back(c.hash, c.short, c.author, c.date, c.subject, c.refs);
    lemma_ended_without(c.hash, '\n');
    lemma_ended_without(c.short, '\n');
    lemma_ended_without(c.author, '\n');
    lemma_ended_without(c.date, '\n');
    lemma_ended_without(c.subject, '\n');
    let a = c.hash.push('\u{1f}') + c.short.push('\u{1f}');
    lemma_concat_without(c.hash.push('\u{1f}'), c.short.push('\u{1f}'), '\n');
    lemma_concat_without(a, c.author.push('\u{1f}'), '\n');
    let b = a + c.author.push('\u{1f}');
    lemma_concat_without(b, c.date.push('\u{1f}'), '\n');
    let d = b + c.date.push('\u{1f}');
    lemma_concat_without(d, c.subject.push('\u{1f}'), '\n');
    lemma_concat_without(d + c.subject.push('\u{1f}'), c.refs, '\n');
    let w = written(c);
    if c.refs.len() > 0 {
        assert(w.last() == c.refs.last());
        assert(c.refs.contains(c.refs.last()));
    } else {
        assert(w.last() == '\u{1f}');
    }
}

proof fn lemma_ended_without(s: Seq<char>, c: char)
    requires
        !s.contains(c),
        c != '\u{1f}',
    ensures
        !s.push('\u{1f}').contains(c),
{
    let t = s.push('\u{1f}');
    assert forall|i: int| 0 <= i < t.len() implies t[i] != c by {
        if i < s.len() {
            assert(s.contains(s[i]));
        }
    }
}

proof fn lemma_concat_without(a: Seq<char>, b: Seq<char>, c: char)
    requires
        !a.contains(c),
        !b.contains(c),
    ensures
        !(a + b).contains(c),
{
    let t = a + b;
    assert forall|i: int| 0 <= i < t.len() implies t[i] != c by {
        if i < a.len() {
            assert(a.contains(a[i]));
        } else {
            assert(b.contains(b[i - a.len()]));
        }
    }
}

proof fn lemma_commits_of_written(commits: Seq<CommitModel>)
    requires
        forall|i: int| 0 <= i < commits.len() ==> plain_commit(#[trigger] commits[i]),
    ensures
        porcelain::commits_in(Seq::new(commits.len(), |i: int| written(commits[i]))) == commits,
    decreases commits.len(),
{
    let ls = Seq::new(commits.len(), |i: int| written(commits[i]));
    if commits.len() > 0 {
        let d = commits.drop_last();
        assert forall|i: int| 0 <= i < d.len() implies plain_commit(#[trigger] d[i]) by {
            assert(plain_commit(commits[i]));
        }
        lemma_commits_of_written(d);
        assert(ls.drop_last() =~= Seq::new(d.len(), |i: int| written(d[i])));
        lemma_written_line(commits[commits.len() - 1]);
        assert(d.push(commits.last()) =~= commits);
    } else {
        assert(porcelain::commits_in(ls) =~= commits);
    }
}

/// What each question asks of git, before there is any reply.
pub proof fn lemma_first_questions(root: Seq<char>, refs: Seq<char>, remote: bool)
    ensures
        status_turn(Seq::empty(), root) == Turn::<Result<Seq<ChangedModel>, GitErrorModel>>::Ask(
            command(root, seq!["status"@, "--porcelain=v1"@, "-z"@, "--untracked-files=all"@]),
        ),
        list_files_turn(Seq::empty(), root) == Turn::<Result<Seq<Seq<char>>, GitErrorModel>>::Ask(
            command(
                root,
                seq!["ls-files"@, "-z"@, "--cached"@, "--others"@, "--exclude-standard"@],
            ),
        ),
        branches_turn(Seq::empty(), root, refs, remote) == Turn::<
            Result<Seq<Seq<char>>, GitErrorModel>,
        >::Ask(
            command(
                root,
                seq!["for-each-ref"@, "--sort=-committerdate"@, "--format=%(refname:short)"@, refs],
            ),
        ),
        branch_turn(Seq::empty(), 0, root) == Turn::<Option<Seq<char>>>::Ask(
            command(root, seq!["symbolic-ref"@, "--quiet"@, "--short"@, "HEAD"@]),
        ),
        discover_turn(Seq::empty(), root) == Turn::<Result<Seq<char>, GitErrorModel>>::Ask(
            command(root, seq!["rev-parse"@, "--show-toplevel"@]),
        ),
        push_base_turn(Seq::empty(), 0, root) == Turn::<Option<Seq<char>>>::Ask(
            command(root, seq!["rev-parse"@, "--verify"@, "--quiet"@, "@{u}"@]),
        ),
        behind_turn(Seq::empty(), root) == Turn::<Option<int>>::Ask(
            command(root, seq!["rev-parse"@, "@{u}"@]),
        ),
{
}

/// A search looks for the query as it stands and not as a pattern, without regard to case, with
/// line numbers, in text files whether git tracks them or not; the query comes last and is never
/// taken for an option.
pub proof fn lemma_grep_command(root: Seq<char>, query: Seq<char>)
    ensures
        ({
            let c = grep_command(root, query);
            let n = c.args.len();
            &&& c.dir == root
            &&& c.stdin is None
            &&& c.args[0] == "grep"@
            &&& n >= 2 && c.args[n - 1] == query && c.args[n - 2] == "-e"@
            &&& c.args.contains("-F"@)
            &&& c.args.contains("-i"@)
            &&& c.args.contains("-n"@)
            &&& c.args.contains("-I"@)
            &&& c.args.contains("--untracked"@)
            &&& c.args.contains("--no-color"@)
            &&& c.args[6] == "-m"@ && c.args[7] == "50"@
        }),
{
    let a = grep_command(root, query).args;
    assert(a[1] == "--no-color"@ && a[2] == "-F"@ && a[3] == "-n"@ && a[4] == "-I"@ && a[5]
        == "-i"@ && a[8] == "--untracked"@);
}

/// What a reply leads to: the files, branches or the failure that it tells of.
pub proof fn lemma_replies_read(root: Seq<char>, refs: Seq<char>, remote: bool, s: Seq<char>)
    ensures
        status_turn(seq![ReplyModel::Out(s)], root) matches Turn::Have(r, _) && r == Ok::<
            Seq<ChangedModel>,
            GitErrorModel,
        >(porcelain::status_files(s)),
        status_turn(seq![ReplyModel::Failed(s)], root) matches Turn::Have(r, _) && r == Err::<
            Seq<ChangedModel>,
            GitErrorModel,
        >(GitErrorModel::Failed(s)),
        list_files_turn(seq![ReplyModel::Out(s)], root) matches Turn::Have(r, _) && r == Ok::<
            Seq<Seq<char>>,
            GitErrorModel,
        >(porcelain::listed_files(s)),
        list_files_turn(seq![ReplyModel::Failed(s)], root) matches Turn::Have(r, _) && r == Err::<
            Seq<Seq<char>>,
            GitErrorModel,
        >(GitErrorModel::Failed(s)),
        branches_turn(seq![ReplyModel::Out(s)], root, refs, remote) matches Turn::Have(r, _) && r
            == Ok::<Seq<Seq<char>>, GitErrorModel>(porcelain::branches_in(text::lines(s), remote)),
        branches_turn(seq![ReplyModel::Failed(s)], root, refs, remote) matches Turn::Have(r, _)
            && r == Err::<Seq<Seq<char>>, GitErrorModel>(GitErrorModel::Failed(s)),
        branch_turn(seq![ReplyModel::Failed(s)], 0, root) matches Turn::Have(r, _) && r is None,
        branch_turn(seq![ReplyModel::Out(s)], 0, root) matches Turn::Have(r, _) && (r is None
            <==> text::trim(s).len() == 0) && (r matches Some(b) ==> b == text::trim(s)),
{
}

/// Files that differ: asked for between the two revisions by their names; none where a name is
/// no name, and none where git fails.
pub proof fn lemma_diff_files(
    root: Seq<char>,
    from: Seq<char>,
    to: Seq<char>,
    path: Option<Seq<char>>,
    s: Seq<char>,
)
    requires
        ref_name(from) == Ok::<Seq<char>, GitErrorModel>(from),
        ref_name(to) == Ok::<Seq<char>, GitErrorModel>(to),
    ensures
        diff_files_turn(Seq::empty(), 0, root, from, Some(to), path) == Turn::<
            Seq<ChangedModel>,
        >::Ask(command(root, diff_args(from, Some(to), path))),
        diff_files_turn(Seq::empty(), 0, root, from, None, path) == Turn::<Seq<ChangedModel>>::Ask(
            command(root, diff_args(from, None, path)),
        ),
        diff_files_turn(seq![ReplyModel::Out(s)], 0, root, from, Some(to), path) matches Turn::Have(
            r,
            _,
        ) && r == porcelain::name_status_files(s),
        diff_files_turn(seq![ReplyModel::Failed(s)], 0, root, from, Some(to), path)
            matches Turn::Have(r, _) && r.len() == 0,
        diff_files_turn(Seq::empty(), 0, root, Seq::empty(), Some(to), path) matches Turn::Have(
            r,
            _,
        ) && r.len() == 0,
{
    text::lemma_trim_keeps(Seq::empty());
}

/// A name is taken as it is but for the white space around it; an empty name and one that reads
/// as an option are refused, each for its own reason.
pub proof fn lemma_ref_names(n: Seq<char>, rest: Seq<char>)
    requires
        n.len() > 0,
        !text::is_white_space(n[0]),
        !text::is_white_space(n.last()),
    ensures
        n[0] != '-' ==> ref_name(n) == Ok::<Seq<char>, GitErrorModel>(n),
        n[0] == '-' ==> ref_name(n) == Err::<Seq<char>, GitErrorModel>(GitErrorModel::BadName(n)),
        ref_name(Seq::empty()) == Err::<Seq<char>, GitErrorModel>(GitErrorModel::EmptyName),
        ref_name(rest) matches Ok(m) ==> m == text::trim(rest),
{
    text::lemma_trim_keeps(n);
    text::lemma_trim_keeps(Seq::empty());
}

/// The message of an error: git's own words as they are, and of the rest what is wrong and with
/// what.
pub proof fn lemma_messages(s: Seq<char>)
    ensures
        message(GitErrorModel::Failed(s)) == s,
        message(GitErrorModel::NotARepository) == "not a git repository"@,
        message(GitErrorModel::EmptyName) == "empty branch name"@,
        text::finishes_with(message(GitErrorModel::BadName(s)), debug_text(s)),
        text::begins_with(message(GitErrorModel::BadName(s)), "invalid branch name: "@),
        text::occurs_in(message(GitErrorModel::Conflict(s)), s),
{
    let p = "invalid branch name: "@;
    let m = message(GitErrorModel::BadName(s));
    assert(m.subrange(0, p.len() as int) =~= p);
    assert(m.subrange(p.len() as int, m.len() as int) =~= debug_text(s));
    lemma_occurs_between(
        "remote has changes that conflict with yours \u{2014} pull and resolve them manually ("@,
        s,
        ")"@,
    );
}

/// Where a branch forked off: a main line that does not exist, or has nothing in common with it,
/// is passed over for the next; the first that has is the answer.
pub proof fn lemma_fork_step(
    rs: Seq<ReplyModel>,
    at: int,
    root: Seq<char>,
    mains: Seq<Seq<char>>,
    i: int,
)
    requires
        0 <= i < mains.len(),
        0 <= at,
        at + 1 < rs.len(),
    ensures
        rs[at] is Failed ==> fork_turn(rs, at, root, mains, i) == fork_turn(
            rs,
            at + 1,
            root,
            mains,
            i + 1,
        ),
        rs[at] is Out && rs[at + 1] is Failed ==> fork_turn(rs, at, root, mains, i) == fork_turn(
            rs,
            at + 2,
            root,
            mains,
            i + 1,
        ),
        rs[at] is Out && rs[at + 1] is Out && text::trim(rs[at + 1]->Out_0).len() > 0
            ==> fork_turn(rs, at, root, mains, i) == Turn::Have(
            Some(text::trim(rs[at + 1]->Out_0)),
            at + 2,
        ),
        fork_turn(rs, at, root, mains, mains.len() as int) == Turn::Have(None::<Seq<char>>, at),
{
}

/// A command that is about a name is asked for with the name as it was accepted; a name that is
/// refused is an error and asks for nothing. The command itself only succeeds or fails.
pub proof fn lemma_named_turn(
    name: Seq<char>,
    c: spec_fn(Seq<char>) -> CmdModel,
    s: Seq<char>,
    rs: Seq<ReplyModel>,
)
    ensures
        ref_name(name) matches Ok(n) ==> named_turn(Seq::empty(), name, c) == Turn::<
            Result<(), GitErrorModel>,
        >::Ask(c(n)),
        ref_name(name) matches Err(e) ==> (named_turn(rs, name, c) matches Turn::Have(r, _) && r
            == Err::<(), GitErrorModel>(e)),
        ref_name(name) is Ok ==> (named_turn(seq![ReplyModel::Out(s)], name, c) matches Turn::Have(
            r,
            _,
        ) && r is Ok),
        ref_name(name) is Ok ==> (named_turn(seq![ReplyModel::Failed(s)], name, c)
            matches Turn::Have(r, _) && r == Err::<(), GitErrorModel>(GitErrorModel::Failed(s))),
        output_turn(seq![ReplyModel::Out(s)], c(name)) matches Turn::Have(r, _) && r == Ok::<
            Seq<char>,
            GitErrorModel,
        >(s),
        output_turn(seq![ReplyModel::Failed(s)], c(name)) matches Turn::Have(r, _) && r == Err::<
            Seq<char>,
            GitErrorModel,
        >(GitErrorModel::Failed(s)),
        unit_turn(Seq::empty(), c(name)) == Turn::<Result<(), GitErrorModel>>::Ask(c(name)),
        output_turn(Seq::empty(), c(name)) == Turn::<Result<Seq<char>, GitErrorModel>>::Ask(c(name)),
{
}

/// What a push would send is compared from its base to the head; without a base, from the tree
/// that holds nothing.
pub proof fn lemma_push_files(root: Seq<char>, u: Seq<char>, b: Seq<char>)
    ensures
        base_or_empty(Some(b)) == b,
        base_or_empty(None) == "4b825dc642cb6eb9a060e54bf8d69288fbee4904"@,
        push_files_turn(seq![ReplyModel::Out(u)], root) == Turn::<Seq<ChangedModel>>::Ask(
            command(root, seq!["diff"@, "--name-status"@, "-z"@, "@{u}"@, "HEAD"@]),
        ),
        push_files_turn(seq![ReplyModel::Out(u), ReplyModel::Out(b)], root) matches Turn::Have(r, _)
            && r == porcelain::name_status_files(b),
{
    reveal_strlit("@{u}");
    reveal_strlit("HEAD");
    assert("@{u}"@.len() == 4 && "@{u}"@[0] == '@' && "@{u}"@[3] == '}');
    assert("HEAD"@.len() == 4 && "HEAD"@[0] == 'H' && "HEAD"@[3] == 'D');
    text::lemma_trim_keeps("@{u}"@);
    text::lemma_trim_keeps("HEAD"@);
    let a = seq!["diff"@, "--name-status"@, "-z"@, "@{u}"@];
    assert(a.push("HEAD"@) =~= seq!["diff"@, "--name-status"@, "-z"@, "@{u}"@, "HEAD"@]);
}

} // verus!
