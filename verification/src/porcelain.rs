//! What git's output says: changed files, history, branches and search hits.

use crate::buffer;
use crate::git::{ChangedFile, Commit, FileStatus, GrepHit};
use crate::path;
use crate::text;
use vstd::prelude::*;
use vstd::utf8::*;

verus! {

broadcast use vstd::seq_lib::group_seq_properties;

// ---------------------------------------------------------------------------
// Model
// ---------------------------------------------------------------------------

#[verifier::ext_equal]
pub struct ChangedModel {
    pub path: Seq<char>,
    pub status: FileStatus,
}

impl ChangedFile {
    pub open spec fn model(self) -> ChangedModel {
        ChangedModel { path: self.path@, status: self.status }
    }
}

pub open spec fn changed_models(v: Seq<ChangedFile>) -> Seq<ChangedModel> {
    Seq::new(v.len(), |i: int| v[i].model())
}

#[verifier::ext_equal]
pub struct CommitModel {
    pub hash: Seq<char>,
    pub short: Seq<char>,
    pub author: Seq<char>,
    pub date: Seq<char>,
    pub subject: Seq<char>,
    pub refs: Seq<char>,
}

impl Commit {
    pub open spec fn model(self) -> CommitModel {
        CommitModel {
            hash: self.hash@,
            short: self.short@,
            author: self.author@,
            date: self.date@,
            subject: self.subject@,
            refs: self.refs@,
        }
    }
}

pub open spec fn commit_models(v: Seq<Commit>) -> Seq<CommitModel> {
    Seq::new(v.len(), |i: int| v[i].model())
}

#[verifier::ext_equal]
pub struct HitModel {
    pub path: Seq<char>,
    pub line: int,
    pub content: Seq<char>,
}

impl GrepHit {
    pub open spec fn model(self) -> HitModel {
        HitModel { path: self.path@, line: self.line as int, content: self.content@ }
    }
}

pub open spec fn hit_models(v: Seq<GrepHit>) -> Seq<HitModel> {
    Seq::new(v.len(), |i: int| v[i].model())
}

/// The pieces that are not empty.
pub open spec fn nonempty(pieces: Seq<Seq<char>>) -> Seq<Seq<char>>
    decreases pieces.len(),
{
    if pieces.len() == 0 {
        Seq::empty()
    } else if pieces.last().len() == 0 {
        nonempty(pieces.drop_last())
    } else {
        nonempty(pieces.drop_last()).push(pieces.last())
    }
}

/// The fields of an output in which each field ends with a NUL.
pub open spec fn fields(raw: Seq<char>) -> Seq<Seq<char>> {
    nonempty(text::split_on(raw, '\0'))
}

/// What the two letters of a status record say of a file.
pub open spec fn classified(x: char, y: char) -> FileStatus {
    if x == '?' && y == '?' {
        FileStatus::Untracked
    } else if x == 'U' || y == 'U' || (x == 'D' && y == 'D') || (x == 'A' && y == 'A') {
        FileStatus::Conflict
    } else if x == 'A' {
        FileStatus::Added
    } else if x == 'D' || y == 'D' {
        FileStatus::Deleted
    } else if x == 'R' {
        FileStatus::Renamed
    } else {
        FileStatus::Modified
    }
}

/// The byte at `i`, as a character.
pub open spec fn byte_char(s: Seq<char>, i: int) -> char {
    encode_utf8(s)[i] as char
}

/// A record of a renamed file, behind which the old path follows as a field of its own.
pub open spec fn renamed(rec: Seq<char>) -> bool {
    byte_char(rec, 0) == 'R' || byte_char(rec, 1) == 'R'
}

/// The status records among the fields from `i` on.
pub open spec fn status_records(f: Seq<Seq<char>>, i: int) -> Seq<Seq<char>>
    decreases f.len() + 1 - i,
{
    if i < 0 || i >= f.len() {
        Seq::empty()
    } else if text::blen(f[i]) < 3 {
        status_records(f, i + 1)
    } else {
        seq![f[i]] + status_records(
            f,
            if renamed(f[i]) {
                i + 2
            } else {
                i + 1
            },
        )
    }
}

/// The path of a status record: what follows its two letters and a space.
pub open spec fn record_path(rec: Seq<char>) -> Seq<char> {
    decode_utf8(encode_utf8(rec).skip(3))
}

pub open spec fn record_entry(rec: Seq<char>) -> ChangedModel {
    ChangedModel {
        path: record_path(rec),
        status: classified(byte_char(rec, 0), byte_char(rec, 1)),
    }
}

/// Every status record has its path start at a character.
pub open spec fn status_readable(raw: Seq<char>) -> bool {
    records_readable(status_records(fields(raw), 0))
}

pub open spec fn records_readable(recs: Seq<Seq<char>>) -> bool {
    forall|i: int|
        0 <= i < recs.len() ==> buffer::boundary(encode_utf8(#[trigger] recs[i]), 3)
}

pub open spec fn entries_of(recs: Seq<Seq<char>>) -> Seq<ChangedModel> {
    Seq::new(recs.len(), |i: int| record_entry(recs[i]))
}

pub open spec fn paths_of(files: Seq<ChangedModel>) -> Seq<Seq<char>> {
    Seq::new(files.len(), |i: int| files[i].path)
}

/// The files in the order of their paths.
pub open spec fn by_path(files: Seq<ChangedModel>) -> Seq<ChangedModel> {
    let order = path::path_order(paths_of(files));
    Seq::new(files.len(), |i: int| files[order[i]])
}

/// The changed files that a status output names.
pub open spec fn status_files(raw: Seq<char>) -> Seq<ChangedModel> {
    by_path(entries_of(status_records(fields(raw), 0)))
}

/// The changed files that the fields of a name-status output from `i` on name: a letter, then
/// the path; a rename or a copy has the old path before the new one.
pub open spec fn name_status_entries(f: Seq<Seq<char>>, i: int) -> Seq<ChangedModel>
    decreases f.len() - i,
{
    if i < 0 || i >= f.len() {
        Seq::empty()
    } else {
        let code = byte_char(f[i], 0);
        let p = if code == 'R' || code == 'C' {
            i + 2
        } else {
            i + 1
        };
        if p >= f.len() {
            Seq::empty()
        } else {
            seq![ChangedModel { path: f[p], status: classified(code, ' ') }] + name_status_entries(
                f,
                p + 1,
            )
        }
    }
}

/// The changed files that a name-status output names.
pub open spec fn name_status_files(raw: Seq<char>) -> Seq<ChangedModel> {
    by_path(name_status_entries(fields(raw), 0))
}

/// The paths in order.
pub open spec fn sorted_paths(paths: Seq<Seq<char>>) -> Seq<Seq<char>> {
    let order = path::path_order(paths);
    Seq::new(paths.len(), |i: int| paths[order[i]])
}

/// The paths without those that name the same file as the one kept before.
pub open spec fn deduped(paths: Seq<Seq<char>>) -> Seq<Seq<char>>
    decreases paths.len(),
{
    if paths.len() == 0 {
        Seq::empty()
    } else {
        let r = deduped(paths.drop_last());
        if r.len() > 0 && path::components(r.last()) == path::components(paths.last()) {
            r
        } else {
            r.push(paths.last())
        }
    }
}

/// The files that a listing names, in order, each once.
pub open spec fn listed_files(raw: Seq<char>) -> Seq<Seq<char>> {
    deduped(sorted_paths(fields(raw)))
}

/// The commit that a line of history names, if it has all its fields.
pub open spec fn commit_line(line: Seq<char>) -> Option<CommitModel> {
    let f = text::split_on(line, '\u{1f}');
    if f.len() < 5 {
        None
    } else {
        Some(
            CommitModel {
                hash: f[0],
                short: f[1],
                author: f[2],
                date: f[3],
                subject: f[4],
                refs: if f.len() > 5 {
                    text::trim(f[5])
                } else {
                    Seq::empty()
                },
            },
        )
    }
}

pub open spec fn commits_in(lines: Seq<Seq<char>>) -> Seq<CommitModel>
    decreases lines.len(),
{
    if lines.len() == 0 {
        Seq::empty()
    } else {
        let r = commits_in(lines.drop_last());
        match commit_line(lines.last()) {
            Some(c) => r.push(c),
            None => r,
        }
    }
}

/// The branches that a listing names; `remote` leaves out the pointers to a default branch.
pub open spec fn branches_in(lines: Seq<Seq<char>>, remote: bool) -> Seq<Seq<char>>
    decreases lines.len(),
{
    if lines.len() == 0 {
        Seq::empty()
    } else {
        let r = branches_in(lines.drop_last(), remote);
        let l = lines.last();
        if l.len() == 0 || (remote && text::finishes_with(l, "/HEAD"@)) {
            r
        } else {
            r.push(l)
        }
    }
}

/// How many search hits are kept.
pub const GREP_CAP: usize = 500;

/// The hit that a line of a search names: path, line number and line, between colons.
pub open spec fn hit_line(line: Seq<char>) -> Option<HitModel> {
    match text::first_from(line, ':', 0) {
        None => None,
        Some(a) => match text::first_from(line, ':', a + 1) {
            None => None,
            Some(b) => match text::number(line.subrange(a + 1, b), u32::MAX as int) {
                None => None,
                Some(n) => Some(
                    HitModel { path: line.take(a), line: n, content: line.skip(b + 1) },
                ),
            },
        },
    }
}

/// The hits that the lines of a search name, up to the cap.
pub open spec fn hits_in(lines: Seq<Seq<char>>) -> Seq<HitModel>
    decreases lines.len(),
{
    if lines.len() == 0 {
        Seq::empty()
    } else {
        let r = hits_in(lines.drop_last());
        if r.len() >= GREP_CAP {
            r
        } else {
            match hit_line(lines.last()) {
                Some(h) => r.push(h),
                None => r,
            }
        }
    }
}

// ---------------------------------------------------------------------------
// Laws
// ---------------------------------------------------------------------------

/// Changed files come in the order of their paths, and none is lost or added.
pub proof fn lemma_by_path(files: Seq<ChangedModel>)
    ensures
        by_path(files).len() == files.len(),
        forall|f: ChangedModel| by_path(files).contains(f) <==> files.contains(f),
        forall|i: int, j: int|
            0 <= i < j < files.len() ==> {
                let a = path::components((#[trigger] by_path(files)[i]).path);
                let b = path::components((#[trigger] by_path(files)[j]).path);
                path::path_less(a, b) || a == b
            },
{
    let keys = path::keys_of(paths_of(files));
    let n = files.len() as int;
    let order = path::sort_order(keys, n);
    path::lemma_sort_order(keys, n);
    let r = by_path(files);
    assert forall|f: ChangedModel| r.contains(f) <==> files.contains(f) by {
        if r.contains(f) {
            let i = choose|i: int| 0 <= i < r.len() && r[i] == f;
            assert(files[order[i]] == f);
        }
        if files.contains(f) {
            let k = choose|k: int| 0 <= k < files.len() && files[k] == f;
            assert(order.contains(k));
            let i = choose|i: int| 0 <= i < order.len() && order[i] == k;
            assert(r[i] == f);
        }
    }
    assert forall|i: int, j: int| 0 <= i < j < files.len() implies {
        let a = path::components((#[trigger] r[i]).path);
        let b = path::components((#[trigger] r[j]).path);
        path::path_less(a, b) || a == b
    } by {
        assert(r[i] == files[order[i]] && r[j] == files[order[j]]);
        assert(keys[order[i]] == path::components(r[i].path));
        assert(keys[order[j]] == path::components(r[j].path));
    }
}

proof fn lemma_deduped(paths: Seq<Seq<char>>)
    requires
        forall|i: int, j: int|
            0 <= i < j < paths.len() ==> {
                let a = path::components(#[trigger] paths[i]);
                let b = path::components(#[trigger] paths[j]);
                path::path_less(a, b) || a == b
            },
    ensures
        paths.len() > 0 ==> deduped(paths).len() > 0 && path::components(deduped(paths).last())
            == path::components(paths.last()),
        forall|i: int, j: int|
            0 <= i < j < deduped(paths).len() ==> path::path_less(
                path::components(#[trigger] deduped(paths)[i]),
                path::components(#[trigger] deduped(paths)[j]),
            ),
    decreases paths.len(),
{
    if paths.len() > 0 {
        let d = paths.drop_last();
        assert forall|i: int, j: int| 0 <= i < j < d.len() implies {
            let a = path::components(#[trigger] d[i]);
            let b = path::components(#[trigger] d[j]);
            path::path_less(a, b) || a == b
        } by {
            assert(d[i] == paths[i] && d[j] == paths[j]);
        }
        lemma_deduped(d);
        let r = deduped(d);
        let q = deduped(paths);
        if r.len() > 0 && path::components(r.last()) != path::components(paths.last()) {
            path::lemma_path_order();
            let lt = |a: Seq<Seq<char>>, b: Seq<Seq<char>>| path::path_less(a, b);
            let l = path::components(paths.last());
            assert(d.last() == paths[d.len() - 1]);
            assert(paths.last() == paths[paths.len() - 1]);
            assert(lt(path::components(r.last()), l));
            assert forall|i: int, j: int| 0 <= i < j < q.len() implies path::path_less(
                path::components(#[trigger] q[i]),
                path::components(#[trigger] q[j]),
            ) by {
                assert(q[i] == r[i]);
                if j == r.len() {
                    if i < r.len() - 1 {
                        assert(path::path_less(
                            path::components(r[i]),
                            path::components(r[r.len() - 1]),
                        ));
                        assert(lt(path::components(r[i]), path::components(r.last())));
                        assert(lt(path::components(r[i]), l));
                    }
                } else {
                    assert(q[j] == r[j]);
                }
            }
        }
    }
}

/// Listed files come in strictly rising order of their paths, so none comes twice.
pub proof fn lemma_listed_ascend(raw: Seq<char>)
    ensures
        forall|i: int, j: int|
            0 <= i < j < listed_files(raw).len() ==> path::path_less(
                path::components(#[trigger] listed_files(raw)[i]),
                path::components(#[trigger] listed_files(raw)[j]),
            ),
{
    let p = fields(raw);
    let keys = path::keys_of(p);
    let order = path::path_order(p);
    path::lemma_sort_order(keys, p.len() as int);
    let s = sorted_paths(p);
    assert forall|i: int, j: int| 0 <= i < j < s.len() implies {
        let a = path::components(#[trigger] s[i]);
        let b = path::components(#[trigger] s[j]);
        path::path_less(a, b) || a == b
    } by {
        assert(s[i] == p[order[i]] && s[j] == p[order[j]]);
        assert(keys[order[i]] == path::components(s[i]));
        assert(keys[order[j]] == path::components(s[j]));
    }
    lemma_deduped(s);
}

/// No more hits are kept than the cap.
pub proof fn lemma_hits_capped(lines: Seq<Seq<char>>)
    ensures
        hits_in(lines).len() <= GREP_CAP,
    decreases lines.len(),
{
    if lines.len() > 0 {
        lemma_hits_capped(lines.drop_last());
    }
}

/// A line of history is read back: the fields of `%H %h %an %ad %s %D`, with the unit separator
/// between them, are hash, short hash, author, date, subject and refs of the commit.
pub proof fn lemma_commit_read_back(
    hash: Seq<char>,
    short: Seq<char>,
    author: Seq<char>,
    date: Seq<char>,
    subject: Seq<char>,
    refs: Seq<char>,
)
    requires
        !hash.contains('\u{1f}'),
        !short.contains('\u{1f}'),
        !author.contains('\u{1f}'),
        !date.contains('\u{1f}'),
        !subject.contains('\u{1f}'),
        !refs.contains('\u{1f}'),
    ensures
        commit_line(
            hash.push('\u{1f}') + short.push('\u{1f}') + author.push('\u{1f}') + date.push('\u{1f}')
                + subject.push('\u{1f}') + refs,
        ) == Some(CommitModel { hash, short, author, date, subject, refs: text::trim(refs) }),
        commit_line(
            hash.push('\u{1f}') + short.push('\u{1f}') + author.push('\u{1f}') + date.push('\u{1f}')
                + subject,
        ) == Some(CommitModel { hash, short, author, date, subject, refs: Seq::empty() }),
        commit_line(
            hash.push('\u{1f}') + short.push('\u{1f}') + author.push('\u{1f}') + date,
        ) is None,
{
    let sep = '\u{1f}';
    let p4 = seq![hash, short, author, date];
    let p5 = seq![hash, short, author, date, subject];
    let p6 = seq![hash, short, author, date, subject, refs];
    let j1 = hash;
    let j2 = j1.push(sep) + short;
    let j3 = j2.push(sep) + author;
    let j4 = j3.push(sep) + date;
    let j5 = j4.push(sep) + subject;
    let j6 = j5.push(sep) + refs;
    assert(text::join_with(p4, sep) == j4) by {
        reveal_with_fuel(text::join_with, 5);
        assert(p4.drop_last() =~= seq![hash, short, author]);
        assert(seq![hash, short, author].drop_last() =~= seq![hash, short]);
        assert(seq![hash, short].drop_last() =~= seq![hash]);
    }
    assert(p5.drop_last() =~= p4);
    assert(p6.drop_last() =~= p5);
    assert(text::join_with(p5, sep) == j5);
    assert(text::join_with(p6, sep) == j6);
    text::lemma_split_join(p4, sep);
    text::lemma_split_join(p5, sep);
    text::lemma_split_join(p6, sep);
    let l4 = hash.push(sep) + short.push(sep) + author.push(sep) + date;
    let l5 = hash.push(sep) + short.push(sep) + author.push(sep) + date.push(sep) + subject;
    let l6 = hash.push(sep) + short.push(sep) + author.push(sep) + date.push(sep) + subject.push(
        sep,
    ) + refs;
    assert(l4 =~= j4);
    assert(l5 =~= j5);
    assert(l6 =~= j6);
}

/// The commits of a history are those of its parts, in order: none is lost, added or moved.
pub proof fn lemma_commits_in_order(a: Seq<Seq<char>>, b: Seq<Seq<char>>)
    ensures
        commits_in(a + b) == commits_in(a) + commits_in(b),
        a.len() == 1 ==> commits_in(a) == (match commit_line(a[0]) {
            Some(c) => seq![c],
            None => Seq::empty(),
        }),
    decreases b.len(),
{
    if a.len() == 1 {
        assert(a.drop_last() =~= Seq::<Seq<char>>::empty());
        reveal_with_fuel(commits_in, 2);
        assert(commits_in(a) =~= match commit_line(a[0]) {
            Some(c) => seq![c],
            None => Seq::empty(),
        });
    }
    if b.len() == 0 {
        assert(a + b =~= a);
        assert(commits_in(a) + commits_in(b) =~= commits_in(a));
    } else {
        let d = b.drop_last();
        lemma_commits_in_order(a, d);
        assert((a + b).drop_last() =~= a + d);
        assert((a + b).last() == b.last());
        if let Some(c) = commit_line(b.last()) {
            assert((commits_in(a) + commits_in(d)).push(c) =~= commits_in(a) + commits_in(d).push(
                c,
            ));
        }
    }
}

/// What the two letters of a status record mean, status by status: two question marks are an
/// untracked file; the seven pairs of a merge that is not resolved are a conflict; and the rest
/// goes by the stage first and a file that is gone by either letter.
pub proof fn lemma_status_letters(x: char, y: char)
    ensures
        classified(x, y) == FileStatus::Untracked <==> x == '?' && y == '?',
        classified(x, y) == FileStatus::Conflict <==> x == 'U' || y == 'U' || (x == y && (x == 'A'
            || x == 'D')),
        classified(x, y) == FileStatus::Added <==> x == 'A' && y != 'A' && y != 'U',
        classified(x, y) == FileStatus::Deleted <==> (x == 'D' && y != 'D' && y != 'U') || (y == 'D'
            && x != 'D' && x != 'A' && x != 'U'),
        classified(x, y) == FileStatus::Renamed <==> x == 'R' && y != 'U' && y != 'D',
        classified('M', ' ') == FileStatus::Modified,
        classified(' ', 'M') == FileStatus::Modified,
        classified('M', 'M') == FileStatus::Modified,
        classified('T', ' ') == FileStatus::Modified,
        classified('C', ' ') == FileStatus::Modified,
{
}

/// A status record is read back: two letters, a space and a path give that path and what the
/// letters mean.
pub proof fn lemma_record_read_back(x: char, y: char, path: Seq<char>)
    requires
        (x as u32) < 0x80,
        (y as u32) < 0x80,
    ensures
        ({
            let rec = seq![x, y, ' '] + path;
            &&& record_entry(rec) == (ChangedModel { path, status: classified(x, y) })
            &&& renamed(rec) <==> x == 'R' || y == 'R'
            &&& text::blen(rec) == 3 + text::blen(path)
            &&& buffer::boundary(encode_utf8(rec), 3)
        }),
{
    let h = seq![x, y, ' '];
    let rec = h + path;
    lemma_ascii_bytes(h);
    text::lemma_encode_concat(h, path);
    let b = encode_utf8(rec);
    assert(b.skip(3) =~= encode_utf8(path));
    encode_utf8_decode_utf8(path);
    assert(b[0] == encode_utf8(h)[0]);
    assert(b[1] == encode_utf8(h)[1]);
    assert((x as u8) as char == x && (y as u8) as char == y);
    buffer::lemma_prefix_boundary(rec, 3);
    assert(rec.take(3) =~= h);
}

/// The bytes of a text in ASCII are its characters.
pub proof fn lemma_ascii_bytes(s: Seq<char>)
    requires
        forall|i: int| 0 <= i < s.len() ==> (#[trigger] s[i] as u32) < 0x80,
    ensures
        encode_utf8(s).len() == s.len(),
        forall|i: int| 0 <= i < s.len() ==> #[trigger] encode_utf8(s)[i] == s[i] as u8,
    decreases s.len(),
{
    if s.len() > 0 {
        let d = s.drop_last();
        assert forall|i: int| 0 <= i < d.len() implies (#[trigger] d[i] as u32) < 0x80 by {
            assert((s[i] as u32) < 0x80);
        }
        lemma_ascii_bytes(d);
        assert((s[s.len() - 1] as u32) < 0x80);
        text::lemma_encode_push(d, s.last());
        assert(d.push(s.last()) =~= s);
        buffer::lemma_leading_byte(s.last());
        assert forall|i: int| 0 <= i < s.len() implies #[trigger] encode_utf8(s)[i]
            == s[i] as u8 by {
            if i < d.len() {
                assert(encode_utf8(d)[i] == d[i] as u8);
            }
        }
    }
}

/// The records among fields that follow one: a record is there with all that come behind it, and
/// the field behind that of a renamed file is its old path, no record. A field too short for a
/// record is passed over.
pub proof fn lemma_records_one_by_one(f: Seq<Seq<char>>, i: int)
    requires
        0 <= i < f.len(),
    ensures
        text::blen(f[i]) < 3 ==> status_records(f, i) == status_records(f, i + 1),
        text::blen(f[i]) >= 3 ==> status_records(f, i).len() > 0 && status_records(f, i)[0] == f[i],
        text::blen(f[i]) >= 3 && !renamed(f[i]) ==> status_records(f, i).skip(1) == status_records(
            f,
            i + 1,
        ),
        text::blen(f[i]) >= 3 && renamed(f[i]) ==> status_records(f, i).skip(1) == status_records(
            f,
            i + 2,
        ),
{
    let next = status_records(f, i + 1);
    let after = status_records(f, i + 2);
    assert((seq![f[i]] + next).skip(1) =~= next);
    assert((seq![f[i]] + after).skip(1) =~= after);
}

/// The fields of an output are read back: texts that are not empty, each with a NUL behind it.
pub proof fn lemma_fields_read_back(fs: Seq<Seq<char>>)
    requires
        forall|i: int|
            0 <= i < fs.len() ==> (#[trigger] fs[i]).len() > 0 && !fs[i].contains('\0'),
    ensures
        fields(text::ended_with(fs, '\0')) == fs,
{
    text::lemma_split_ended(fs, '\0');
    let p = fs.push(Seq::<char>::empty());
    assert(p.drop_last() =~= fs);
    lemma_nonempty_all(fs);
}

proof fn lemma_nonempty_all(fs: Seq<Seq<char>>)
    requires
        forall|i: int| 0 <= i < fs.len() ==> (#[trigger] fs[i]).len() > 0,
    ensures
        nonempty(fs) == fs,
    decreases fs.len(),
{
    if fs.len() > 0 {
        let d = fs.drop_last();
        assert forall|i: int| 0 <= i < d.len() implies (#[trigger] d[i]).len() > 0 by {
            assert(fs[i].len() > 0);
        }
        lemma_nonempty_all(d);
        assert(fs[fs.len() - 1].len() > 0);
        assert(d.push(fs.last()) =~= fs);
    } else {
        assert(nonempty(fs) =~= fs);
    }
}

/// A file that is named with what happened to it.
pub struct Written {
    pub x: char,
    pub y: char,
    pub path: Seq<char>,
}

/// What git's status writes of files that were not renamed: letters, a space, the path, a NUL.
pub open spec fn written_status(files: Seq<Written>) -> Seq<char> {
    text::ended_with(
        Seq::new(files.len(), |i: int| seq![files[i].x, files[i].y, ' '] + files[i].path),
        '\0',
    )
}

/// A status is read back: exactly the files that were written, each with what its letters mean,
/// in the order of their paths.
pub proof fn lemma_status_read_back(files: Seq<Written>)
    requires
        forall|i: int|
            0 <= i < files.len() ==> {
                let w = #[trigger] files[i];
                &&& (w.x as u32) < 0x80
                &&& (w.y as u32) < 0x80
                &&& w.x != '\0'
                &&& w.y != '\0'
                &&& w.x != 'R'
                &&& w.y != 'R'
                &&& !w.path.contains('\0')
            },
    ensures
        status_readable(written_status(files)),
        status_files(written_status(files)).len() == files.len(),
        forall|f: ChangedModel|
            status_files(written_status(files)).contains(f) <==> exists|i: int|
                0 <= i < files.len() && f == (ChangedModel {
                    path: (#[trigger] files[i]).path,
                    status: classified(files[i].x, files[i].y),
                }),
{
    let recs = Seq::new(files.len(), |i: int| seq![files[i].x, files[i].y, ' '] + files[i].path);
    assert forall|i: int| 0 <= i < recs.len() implies (#[trigger] recs[i]).len() > 0
        && !recs[i].contains('\0') by {
        let w = files[i];
        if recs[i].contains('\0') {
            let k = choose|k: int| 0 <= k < recs[i].len() && recs[i][k] == '\0';
            if k >= 3 {
                assert(w.path[k - 3] == '\0');
            }
        }
    }
    lemma_fields_read_back(recs);
    assert forall|i: int| 0 <= i < recs.len() implies text::blen(#[trigger] recs[i]) >= 3
        && !renamed(recs[i]) && buffer::boundary(encode_utf8(recs[i]), 3) && record_entry(recs[i])
        == (ChangedModel {
        path: files[i].path,
        status: classified(files[i].x, files[i].y),
    }) by {
        lemma_record_read_back(files[i].x, files[i].y, files[i].path);
    }
    lemma_plain_records(recs, 0);
    assert(recs.skip(0) =~= recs);
    let es = entries_of(recs);
    lemma_by_path(es);
    let got = status_files(written_status(files));
    assert(got == by_path(es));
    assert forall|f: ChangedModel|
        got.contains(f) <==> exists|i: int|
            0 <= i < files.len() && f == (ChangedModel {
                path: (#[trigger] files[i]).path,
                status: classified(files[i].x, files[i].y),
            }) by {
        if got.contains(f) {
            assert(es.contains(f));
            let i = choose|i: int| 0 <= i < es.len() && es[i] == f;
            assert(record_entry(recs[i]) == f);
            assert(files[i].path == f.path);
        }
        if exists|i: int|
            0 <= i < files.len() && f == (ChangedModel {
                path: (#[trigger] files[i]).path,
                status: classified(files[i].x, files[i].y),
            }) {
            let i = choose|i: int|
                0 <= i < files.len() && f == (ChangedModel {
                    path: (#[trigger] files[i]).path,
                    status: classified(files[i].x, files[i].y),
                });
            assert(record_entry(recs[i]) == f);
            assert(es[i] == f);
            assert(es.contains(f));
        }
    }
}

proof fn lemma_plain_records(f: Seq<Seq<char>>, i: int)
    requires
        0 <= i <= f.len(),
        forall|k: int|
            0 <= k < f.len() ==> text::blen(#[trigger] f[k]) >= 3 && !renamed(f[k]),
    ensures
        status_records(f, i) == f.skip(i),
    decreases f.len() - i,
{
    if i < f.len() {
        lemma_plain_records(f, i + 1);
        assert(seq![f[i]] + f.skip(i + 1) =~= f.skip(i));
    } else {
        assert(f.skip(i) =~= Seq::<Seq<char>>::empty());
    }
}

/// A comparison is read back file by file: a letter and a path; with `R` or `C` the letter, the
/// old path and the new one, of which the new one counts.
pub proof fn lemma_name_status_read_back(
    code: Seq<char>,
    old: Seq<char>,
    path: Seq<char>,
    rest: Seq<Seq<char>>,
)
    requires
        code.len() > 0,
        (code[0] as u32) < 0x80,
    ensures
        code[0] != 'R' && code[0] != 'C' ==> name_status_entries(seq![code, path] + rest, 0)
            == seq![ChangedModel { path, status: classified(code[0], ' ') }] + name_status_entries(
            rest,
            0,
        ),
        code[0] == 'R' || code[0] == 'C' ==> name_status_entries(seq![code, old, path] + rest, 0)
            == seq![ChangedModel { path, status: classified(code[0], ' ') }] + name_status_entries(
            rest,
            0,
        ),
        name_status_entries(Seq::empty(), 0) == Seq::<ChangedModel>::empty(),
{
    lemma_first_byte(code);
    let a = seq![code, path] + rest;
    let b = seq![code, old, path] + rest;
    assert(a.skip(2) =~= rest);
    assert(b.skip(3) =~= rest);
    lemma_entries_skip(a, 2, 0);
    lemma_entries_skip(b, 3, 0);
    assert(a[0] == code && a[1] == path);
    assert(b[0] == code && b[2] == path);
}

proof fn lemma_first_byte(s: Seq<char>)
    requires
        s.len() > 0,
        (s[0] as u32) < 0x80,
    ensures
        byte_char(s, 0) == s[0],
{
    let h = seq![s[0]];
    lemma_ascii_bytes(h);
    text::lemma_encode_concat(h, s.skip(1));
    assert(h + s.skip(1) =~= s);
    assert(encode_utf8(s)[0] == encode_utf8(h)[0]);
    assert(encode_utf8(h)[0] == h[0] as u8);
    lemma_ascii_char(s[0]);
}

proof fn lemma_ascii_char(c: char)
    requires
        (c as u32) < 0x80,
    ensures
        (c as u8) as char == c,
{
}

proof fn lemma_entries_skip(f: Seq<Seq<char>>, n: int, i: int)
    requires
        0 <= n <= f.len(),
        0 <= i <= f.len() - n,
    ensures
        name_status_entries(f, n + i) == name_status_entries(f.skip(n), i),
    decreases f.len() - n - i,
{
    let g = f.skip(n);
    if i < g.len() {
        assert(g[i] == f[n + i]);
        let code = byte_char(g[i], 0);
        let p = if code == 'R' || code == 'C' {
            i + 2
        } else {
            i + 1
        };
        if p < g.len() {
            assert(g[p] == f[n + p]);
            lemma_entries_skip(f, n, p + 1);
        }
    }
}

/// Every file that a listing names is listed, and nothing else is.
pub proof fn lemma_listed_all(raw: Seq<char>)
    ensures
        forall|p: Seq<char>|
            fields(raw).contains(p) ==> exists|i: int|
                0 <= i < listed_files(raw).len() && path::components(
                    #[trigger] listed_files(raw)[i],
                ) == path::components(p),
        forall|i: int|
            0 <= i < listed_files(raw).len() ==> fields(raw).contains(
                #[trigger] listed_files(raw)[i],
            ),
{
    let p = fields(raw);
    let keys = path::keys_of(p);
    let order = path::path_order(p);
    path::lemma_sort_order(keys, p.len() as int);
    let s = sorted_paths(p);
    let r = listed_files(raw);
    lemma_deduped_all(s);
    assert forall|x: Seq<char>| p.contains(x) implies exists|i: int|
        0 <= i < r.len() && path::components(#[trigger] r[i]) == path::components(x) by {
        let k = choose|k: int| 0 <= k < p.len() && p[k] == x;
        assert(order.contains(k));
        let i = choose|i: int| 0 <= i < order.len() && order[i] == k;
        assert(s[i] == x);
        assert(has_components(r, path::components(s[i])));
        let z = choose|z: int|
            0 <= z < r.len() && path::components(#[trigger] r[z]) == path::components(s[i]);
        assert(path::components(r[z]) == path::components(x));
    }
    assert forall|i: int| 0 <= i < r.len() implies p.contains(#[trigger] r[i]) by {
        assert(s.contains(r[i]));
        let z = choose|z: int| 0 <= z < s.len() && s[z] == r[i];
        assert(s[z] == p[order[z]]);
    }
}

/// A path of the list has these components.
spec fn has_components(list: Seq<Seq<char>>, c: Seq<Seq<char>>) -> bool {
    exists|i: int| 0 <= i < list.len() && path::components(#[trigger] list[i]) == c
}

proof fn lemma_deduped_all(s: Seq<Seq<char>>)
    ensures
        forall|k: int|
            0 <= k < s.len() ==> has_components(deduped(s), path::components(#[trigger] s[k])),
        forall|i: int| 0 <= i < deduped(s).len() ==> s.contains(#[trigger] deduped(s)[i]),
    decreases s.len(),
{
    if s.len() > 0 {
        let d = s.drop_last();
        lemma_deduped_all(d);
        let a = deduped(d);
        let r = deduped(s);
        assert forall|k: int| 0 <= k < s.len() implies has_components(
            r,
            path::components(#[trigger] s[k]),
        ) by {
            if k < d.len() {
                let c = path::components(d[k]);
                assert(has_components(a, c));
                let i = choose|i: int|
                    0 <= i < a.len() && path::components(#[trigger] a[i]) == c;
                assert(r[i] == a[i]);
            } else {
                assert(path::components(r[r.len() - 1]) == path::components(s.last()));
            }
        }
        assert forall|i: int| 0 <= i < r.len() implies s.contains(#[trigger] r[i]) by {
            if i < a.len() {
                assert(r[i] == a[i]);
                assert(d.contains(a[i]));
                let z = choose|z: int| 0 <= z < d.len() && d[z] == a[i];
                assert(s[z] == r[i]);
            } else {
                assert(s[s.len() - 1] == r[i]);
            }
        }
    }
}

/// Branches come in the order in which they are listed: every line that is not empty is one, but
/// for the remote pointers to a default branch.
pub proof fn lemma_branches_in_order(a: Seq<Seq<char>>, line: Seq<char>, remote: bool)
    ensures
        ({
            let r = branches_in(a.push(line), remote);
            if line.len() > 0 && !(remote && line.len() >= 5 && line.skip(line.len() - 5) == seq![
                '/',
                'H',
                'E',
                'A',
                'D',
            ]) {
                r == branches_in(a, remote).push(line)
            } else {
                r == branches_in(a, remote)
            }
        }),
        branches_in(Seq::empty(), remote) == Seq::<Seq<char>>::empty(),
{
    reveal_strlit("/HEAD");
    let l = a.push(line);
    assert(l.drop_last() =~= a);
    assert("/HEAD"@ =~= seq!['/', 'H', 'E', 'A', 'D']);
    if line.len() >= 5 {
        assert(line.skip(line.len() - 5) =~= line.subrange(line.len() - 5, line.len() as int));
    }
}

/// A hit of a search is read back: path, line number and line, with a colon between them. The
/// line itself may hold colons.
pub proof fn lemma_hit_read_back(path: Seq<char>, n: nat, content: Seq<char>)
    requires
        !path.contains(':'),
        n <= u32::MAX,
    ensures
        hit_line(path.push(':') + text::decimal(n).push(':') + content) == Some(
            HitModel { path, line: n as int, content },
        ),
{
    let d = text::decimal(n);
    let l = path.push(':') + d.push(':') + content;
    text::lemma_number_read_back(n, u32::MAX as int);
    let a = path.len() as int;
    let b = a + 1 + d.len();
    text::lemma_first_from(l, ':', 0);
    text::lemma_first_from(l, ':', a + 1);
    assert(l[a] == ':');
    assert(l[b] == ':');
    assert forall|k: int| 0 <= k < a implies l[k] != ':' by {
        assert(l[k] == path[k]);
        assert(path.contains(path[k]));
    }
    assert forall|k: int| a + 1 <= k < b implies l[k] != ':' by {
        assert(l[k] == d[k - a - 1]);
        assert(text::is_digit(d[k - a - 1]));
    }
    assert(text::first_from(l, ':', 0) == Some(a));
    assert(text::first_from(l, ':', a + 1) == Some(b));
    assert(l.subrange(a + 1, b) =~= d);
    assert(l.take(a) =~= path);
    assert(l.skip(b + 1) =~= content);
}

/// The hits of a search come in the order of its lines, and no line is passed over before there
/// are 500.
pub proof fn lemma_hits_in_order(lines: Seq<Seq<char>>, line: Seq<char>)
    ensures
        hits_in(lines).len() < 500 ==> hits_in(lines.push(line)) == (match hit_line(line) {
            Some(h) => hits_in(lines).push(h),
            None => hits_in(lines),
        }),
        hits_in(lines).len() >= 500 ==> hits_in(lines.push(line)) == hits_in(lines),
        hits_in(Seq::empty()) == Seq::<HitModel>::empty(),
        hits_in(lines).len() <= 500,
{
    assert(lines.push(line).drop_last() =~= lines);
    lemma_hits_capped(lines);
}

// ---------------------------------------------------------------------------
// Reading
// ---------------------------------------------------------------------------

/// The fields of an output in which each field ends with a NUL.
pub fn fields_of(raw: &str) -> (v: Vec<String>)
    ensures
        text::texts(v@) == fields(raw@),
{
    let pieces = text::split_str(raw, '\0');
    let ghost p = text::split_on(raw@, '\0');
    let mut v: Vec<String> = Vec::new();
    let mut i: usize = 0;
    proof {
        assert(text::texts(v@) =~= nonempty(p.take(0)));
    }
    while i < pieces.len()
        invariant
            i <= pieces.len(),
            text::texts(pieces@) == p,
            text::texts(v@) == nonempty(p.take(i as int)),
        decreases pieces.len() - i,
    {
        proof {
            assert(p.take(i + 1).drop_last() =~= p.take(i as int));
            assert(p[i as int] == pieces@[i as int]@);
        }
        if !pieces[i].as_str().is_empty() {
            let ghost before = text::texts(v@);
            v.push(pieces[i].clone());
            proof {
                assert(text::texts(v@) =~= before.push(p[i as int]));
            }
        }
        i += 1;
    }
    proof {
        assert(p.take(p.len() as int) =~= p);
    }
    v
}

/// What the two letters of a status record say of a file.
pub fn classify(x: char, y: char) -> (r: FileStatus)
    ensures
        r == classified(x, y),
{
    match (x, y) {
        ('?', '?') => FileStatus::Untracked,
        ('U', _) => FileStatus::Conflict,
        (_, 'U') => FileStatus::Conflict,
        ('D', 'D') => FileStatus::Conflict,
        ('A', 'A') => FileStatus::Conflict,
        ('A', _) => FileStatus::Added,
        ('D', _) => FileStatus::Deleted,
        (_, 'D') => FileStatus::Deleted,
        ('R', _) => FileStatus::Renamed,
        _ => FileStatus::Modified,
    }
}

/// The status records among the fields.
fn records_of(f: &Vec<String>) -> (v: Vec<String>)
    ensures
        text::texts(v@) == status_records(text::texts(f@), 0),
{
    let ghost fm = text::texts(f@);
    let mut v: Vec<String> = Vec::new();
    let mut i: usize = 0;
    proof {
        assert(text::texts(v@) + status_records(fm, 0) =~= status_records(fm, 0));
    }
    while i < f.len()
        invariant
            fm == text::texts(f@),
            text::texts(v@) + status_records(fm, i as int) == status_records(fm, 0),
        decreases f.len() - i,
    {
        let rec = f[i].as_str();
        let bytes = rec.as_bytes();
        proof {
            assert(fm[i as int] == rec@);
        }
        if bytes.len() < 3 {
            i += 1;
        } else {
            let x: char = bytes[0] as char;
            let y: char = bytes[1] as char;
            let ghost before = text::texts(v@);
            v.push(f[i].clone());
            let ghost at = i as int;
            i += 1;
            if (x == 'R' || y == 'R') && i < f.len() {
                i += 1;
            }
            proof {
                assert(text::texts(v@) =~= before.push(rec@));
                let next = if renamed(rec@) {
                    at + 2
                } else {
                    at + 1
                };
                assert(status_records(fm, next) =~= status_records(fm, i as int));
                assert(before + (seq![rec@] + status_records(fm, i as int)) =~= text::texts(v@)
                    + status_records(fm, i as int));
            }
        }
    }
    proof {
        assert(text::texts(v@) + Seq::<Seq<char>>::empty() =~= text::texts(v@));
    }
    v
}

/// Whether every status record has its path start at a character.
pub fn is_status_readable(raw: &str) -> (r: bool)
    ensures
        r == status_readable(raw@),
{
    let f = fields_of(raw);
    let recs = records_of(&f);
    let ghost rm = text::texts(recs@);
    let mut i: usize = 0;
    while i < recs.len()
        invariant
            i <= recs.len(),
            rm == text::texts(recs@),
            rm == status_records(fields(raw@), 0),
            forall|k: int| 0 <= k < i ==> buffer::boundary(encode_utf8(#[trigger] rm[k]), 3),
        decreases recs.len() - i,
    {
        proof {
            assert(rm[i as int] == recs@[i as int]@);
        }
        if !buffer::is_boundary(recs[i].as_str().as_bytes(), 3) {
            proof {
                assert(!buffer::boundary(encode_utf8(rm[i as int]), 3));
            }
            return false;
        }
        i += 1;
    }
    true
}

/// The files in the order of their paths.
fn sort_files(files: Vec<ChangedFile>) -> (v: Vec<ChangedFile>)
    ensures
        changed_models(v@) == by_path(changed_models(files@)),
{
    let ghost fm = changed_models(files@);
    let mut paths: Vec<String> = Vec::new();
    let mut i: usize = 0;
    while i < files.len()
        invariant
            i <= files.len(),
            fm == changed_models(files@),
            text::texts(paths@) =~= paths_of(fm).take(i as int),
        decreases files.len() - i,
    {
        let ghost before = text::texts(paths@);
        proof {
            assert(fm[i as int].path == files@[i as int].path@);
        }
        paths.push(files[i].path.clone());
        proof {
            assert(text::texts(paths@) =~= before.push(fm[i as int].path));
            assert(paths_of(fm).take(i + 1) =~= paths_of(fm).take(i as int).push(
                fm[i as int].path,
            ));
        }
        i += 1;
    }
    proof {
        assert(paths_of(fm).take(fm.len() as int) =~= paths_of(fm));
        assert(text::texts(paths@).len() == paths@.len());
    }
    let order = path::order_of(&paths);
    pick_files(&files, &order)
}

/// The files at some positions.
fn pick_files(files: &Vec<ChangedFile>, order: &Vec<usize>) -> (v: Vec<ChangedFile>)
    requires
        forall|i: int| 0 <= i < order@.len() ==> (#[trigger] order@[i]) < files@.len(),
    ensures
        changed_models(v@) == Seq::new(
            order@.len(),
            |i: int| changed_models(files@)[path::ints(order@)[i]],
        ),
{
    let mut v: Vec<ChangedFile> = Vec::new();
    let mut k: usize = 0;
    while k < order.len()
        invariant
            k <= order.len(),
            v@.len() == k,
            forall|i: int| 0 <= i < order@.len() ==> (#[trigger] order@[i]) < files@.len(),
            forall|i: int| 0 <= i < k ==> (#[trigger] v@[i]) == files@[order@[i] as int],
        decreases order.len() - k,
    {
        v.push(files[order[k]].clone());
        k += 1;
    }
    v
}

/// The changed files that a status output names.
pub fn parse_status(raw: &str) -> (v: Vec<ChangedFile>)
    requires
        status_readable(raw@),
    ensures
        changed_models(v@) == status_files(raw@),
{
    let f = fields_of(raw);
    let recs = records_of(&f);
    let ghost rm = text::texts(recs@);
    let mut files: Vec<ChangedFile> = Vec::new();
    let mut i: usize = 0;
    while i < recs.len()
        invariant
            i <= recs.len(),
            rm == text::texts(recs@),
            rm == status_records(fields(raw@), 0),
            records_readable(rm),
            changed_models(files@) =~= entries_of(rm).take(i as int),
        decreases recs.len() - i,
    {
        let rec = recs[i].as_str();
        let bytes = rec.as_bytes();
        proof {
            assert(rm[i as int] == rec@);
            lemma_record_len(fields(raw@), 0, i as int);
            buffer::lemma_ends(rec@);
        }
        let x: char = bytes[0] as char;
        let y: char = bytes[1] as char;
        let name = buffer::slice(rec, 3, bytes.len());
        proof {
            let b = encode_utf8(rec@);
            assert(b.subrange(3, b.len() as int) =~= b.skip(3));
            encode_utf8_decode_utf8(name@);
        }
        let ghost before = changed_models(files@);
        let file = ChangedFile { path: name, status: classify(x, y) };
        files.push(file);
        proof {
            assert(file.model() == record_entry(rm[i as int]));
            assert(changed_models(files@) =~= before.push(file.model()));
        }
        i += 1;
    }
    proof {
        assert(entries_of(rm).take(rm.len() as int) =~= entries_of(rm));
    }
    sort_files(files)
}

/// Each status record has at least three bytes.
proof fn lemma_record_len(f: Seq<Seq<char>>, i: int, k: int)
    requires
        0 <= i,
        0 <= k < status_records(f, i).len(),
    ensures
        text::blen(status_records(f, i)[k]) >= 3,
    decreases f.len() + 1 - i,
{
    if i < f.len() {
        if text::blen(f[i]) < 3 {
            lemma_record_len(f, i + 1, k);
        } else if k > 0 {
            let next = if renamed(f[i]) {
                i + 2
            } else {
                i + 1
            };
            assert(status_records(f, i)[k] == status_records(f, next)[k - 1]);
            lemma_record_len(f, next, k - 1);
        }
    }
}

/// The changed files that a name-status output names.
pub fn parse_name_status(raw: &str) -> (v: Vec<ChangedFile>)
    ensures
        changed_models(v@) == name_status_files(raw@),
{
    let f = fields_of(raw);
    let ghost fm = fields(raw@);
    let mut files: Vec<ChangedFile> = Vec::new();
    let mut i: usize = 0;
    let ghost all = name_status_entries(fm, 0);
    proof {
        assert(changed_models(files@) + all =~= all);
    }
    while i < f.len()
        invariant_except_break
            changed_models(files@) + name_status_entries(fm, i as int) == all,
        invariant
            i <= f.len(),
            fm == text::texts(f@),
            fm == fields(raw@),
        ensures
            changed_models(files@) == all,
        decreases f.len() - i,
    {
        let stat = f[i].as_str();
        proof {
            assert(fm[i as int] == stat@);
            lemma_fields_nonempty(raw@, i as int);
            text::lemma_blen_bounds(stat@);
        }
        let code: char = stat.as_bytes()[0] as char;
        let left: usize = f.len() - i;
        let skip: usize = if code == 'R' || code == 'C' {
            2
        } else {
            1
        };
        if skip >= left {
            proof {
                assert(changed_models(files@) + Seq::<ChangedModel>::empty() =~= changed_models(
                    files@,
                ));
            }
            break ;
        }
        let ghost at = i as int;
        i = i + skip;
        let ghost before = changed_models(files@);
        let file = ChangedFile { path: f[i].clone(), status: classify(code, ' ') };
        files.push(file);
        proof {
            assert(fm[i as int] == file.path@);
            assert(changed_models(files@) =~= before.push(file.model()));
            assert(before + (seq![file.model()] + name_status_entries(fm, i + 1))
                =~= changed_models(files@) + name_status_entries(fm, i + 1));
        }
        i += 1;
        proof {
            if i >= f.len() {
                assert(changed_models(files@) + Seq::<ChangedModel>::empty() =~= changed_models(
                    files@,
                ));
            }
        }
    }
    sort_files(files)
}

/// No field is empty.
proof fn lemma_fields_nonempty(raw: Seq<char>, i: int)
    requires
        0 <= i < fields(raw).len(),
    ensures
        fields(raw)[i].len() > 0,
{
    lemma_nonempty(text::split_on(raw, '\0'), i);
}

proof fn lemma_nonempty(pieces: Seq<Seq<char>>, i: int)
    requires
        0 <= i < nonempty(pieces).len(),
    ensures
        nonempty(pieces)[i].len() > 0,
    decreases pieces.len(),
{
    if pieces.last().len() == 0 || i < nonempty(pieces.drop_last()).len() {
        lemma_nonempty(pieces.drop_last(), i);
    }
}

/// The files that a listing names, in order, each once.
pub fn parse_listing(raw: &str) -> (v: Vec<String>)
    ensures
        text::texts(v@) == listed_files(raw@),
{
    let f = fields_of(raw);
    let order = path::order_of(&f);
    let sorted = pick_paths(&f, &order);
    dedup_paths(&sorted)
}

/// The paths at some positions.
fn pick_paths(paths: &Vec<String>, order: &Vec<usize>) -> (v: Vec<String>)
    requires
        forall|i: int| 0 <= i < order@.len() ==> (#[trigger] order@[i]) < paths@.len(),
    ensures
        text::texts(v@) == Seq::new(
            order@.len(),
            |i: int| text::texts(paths@)[path::ints(order@)[i]],
        ),
{
    let mut v: Vec<String> = Vec::new();
    let mut k: usize = 0;
    while k < order.len()
        invariant
            k <= order.len(),
            v@.len() == k,
            forall|i: int| 0 <= i < order@.len() ==> (#[trigger] order@[i]) < paths@.len(),
            forall|i: int| 0 <= i < k ==> (#[trigger] v@[i]) == paths@[order@[i] as int],
        decreases order.len() - k,
    {
        v.push(paths[order[k]].clone());
        k += 1;
    }
    v
}

/// The paths without those that name the same file as the one kept before.
fn dedup_paths(paths: &Vec<String>) -> (v: Vec<String>)
    ensures
        text::texts(v@) == deduped(text::texts(paths@)),
{
    let ghost s = text::texts(paths@);
    let mut v: Vec<String> = Vec::new();
    let mut last: Vec<String> = Vec::new();
    let mut k: usize = 0;
    proof {
        assert(text::texts(v@) =~= deduped(s.take(0)));
    }
    while k < paths.len()
        invariant
            k <= paths.len(),
            s == text::texts(paths@),
            v@.len() > 0 ==> text::texts(last@) == path::components(text::texts(v@).last()),
            text::texts(v@) == deduped(s.take(k as int)),
        decreases paths.len() - k,
    {
        let ghost before = text::texts(v@);
        let c = path::components_of(paths[k].as_str());
        proof {
            assert(before.len() == v@.len());
            assert(s[k as int] == paths@[k as int]@);
            assert(s.take(k + 1).drop_last() =~= s.take(k as int));
        }
        if v.len() == 0 || !path::same_components(&last, &c) {
            v.push(paths[k].clone());
            last = c;
            proof {
                assert(text::texts(v@) =~= before.push(s[k as int]));
            }
        }
        k += 1;
    }
    proof {
        assert(s.take(s.len() as int) =~= s);
    }
    v
}

/// The commit that a line of history names, if it has all its fields.
fn parse_commit(line: &str) -> (r: Option<Commit>)
    ensures
        match r {
            Some(c) => commit_line(line@) == Some(c.model()),
            None => commit_line(line@) is None,
        },
{
    let f = text::split_str(line, '\u{1f}');
    let ghost fm = text::split_on(line@, '\u{1f}');
    proof {
        assert(fm.len() == f.len());
        assert(forall|i: int| 0 <= i < fm.len() ==> (#[trigger] fm[i]) == f@[i]@);
    }
    if f.len() < 5 {
        return None;
    }
    let refs = if f.len() > 5 {
        text::trim_str(f[5].as_str())
    } else {
        String::new()
    };
    Some(
        Commit {
            hash: f[0].clone(),
            short: f[1].clone(),
            author: f[2].clone(),
            date: f[3].clone(),
            subject: f[4].clone(),
            refs,
        },
    )
}

/// The commits that an output of history names.
pub fn parse_log(raw: &str) -> (v: Vec<Commit>)
    ensures
        commit_models(v@) == commits_in(text::lines(raw@)),
{
    let lines = text::lines_of(raw);
    let ghost lm = text::lines(raw@);
    let mut v: Vec<Commit> = Vec::new();
    let mut i: usize = 0;
    proof {
        assert(commit_models(v@) =~= commits_in(lm.take(0)));
    }
    while i < lines.len()
        invariant
            i <= lines.len(),
            lm == text::texts(lines@),
            commit_models(v@) == commits_in(lm.take(i as int)),
        decreases lines.len() - i,
    {
        proof {
            assert(lm.take(i + 1).drop_last() =~= lm.take(i as int));
            assert(lm[i as int] == lines@[i as int]@);
        }
        if let Some(c) = parse_commit(lines[i].as_str()) {
            let ghost before = commit_models(v@);
            let ghost cm = c.model();
            v.push(c);
            proof {
                assert(commit_models(v@) =~= before.push(cm));
            }
        }
        i += 1;
    }
    proof {
        assert(lm.take(lm.len() as int) =~= lm);
    }
    v
}

/// The branches that a listing names; `remote` leaves out the pointers to a default branch.
pub fn parse_branches(raw: &str, remote: bool) -> (v: Vec<String>)
    ensures
        text::texts(v@) == branches_in(text::lines(raw@), remote),
{
    let lines = text::lines_of(raw);
    let ghost lm = text::lines(raw@);
    let mut v: Vec<String> = Vec::new();
    let mut i: usize = 0;
    proof {
        assert(text::texts(v@) =~= branches_in(lm.take(0), remote));
    }
    while i < lines.len()
        invariant
            i <= lines.len(),
            lm == text::texts(lines@),
            text::texts(v@) == branches_in(lm.take(i as int), remote),
        decreases lines.len() - i,
    {
        let line = lines[i].as_str();
        proof {
            assert(lm.take(i + 1).drop_last() =~= lm.take(i as int));
            assert(lm[i as int] == line@);
        }
        if !line.is_empty() && !(remote && text::str_ends_with(line, "/HEAD")) {
            let ghost before = text::texts(v@);
            v.push(lines[i].clone());
            proof {
                assert(text::texts(v@) =~= before.push(line@));
            }
        }
        i += 1;
    }
    proof {
        assert(lm.take(lm.len() as int) =~= lm);
    }
    v
}

/// The hit that a line of a search names.
pub fn parse_hit(line: &str) -> (r: Option<GrepHit>)
    ensures
        match r {
            Some(h) => hit_line(line@) == Some(h.model()),
            None => hit_line(line@) is None,
        },
{
    let chars = text::chars_of(line);
    let a: usize = match text::find_char(&chars, ':', 0) {
        Some(a) => a,
        None => {
            return None;
        },
    };
    let b: usize = match text::find_char(&chars, ':', a + 1) {
        Some(b) => b,
        None => {
            return None;
        },
    };
    let num = text::substring(&chars, a + 1, b);
    match text::parse_number(num.as_str(), u32::MAX as usize) {
        Some(n) => {
            let h = GrepHit {
                path: text::substring(&chars, 0, a),
                line: n as u32,
                content: text::substring(&chars, b + 1, chars.len()),
            };
            proof {
                assert(line@.subrange(0, a as int) =~= line@.take(a as int));
                assert(line@.subrange(b + 1, line@.len() as int) =~= line@.skip(b + 1));
            }
            Some(h)
        },
        None => None,
    }
}

/// Takes in one more line of a search. Returns whether enough hits are there.
pub fn add_hit(hits: &mut Vec<GrepHit>, line: &str) -> (done: bool)
    requires
        old(hits)@.len() < GREP_CAP,
    ensures
        hit_models(final(hits)@) == match hit_line(line@) {
            Some(h) => hit_models(old(hits)@).push(h),
            None => hit_models(old(hits)@),
        },
        done == (final(hits)@.len() >= GREP_CAP),
{
    if let Some(h) = parse_hit(line) {
        let ghost before = hit_models(hits@);
        let ghost hm = h.model();
        hits.push(h);
        proof {
            assert(hit_models(hits@) =~= before.push(hm));
        }
    }
    hits.len() >= GREP_CAP
}

/// The hits that the lines of a search name, up to the cap.
pub fn collect_hits(lines: &Vec<String>) -> (v: Vec<GrepHit>)
    ensures
        hit_models(v@) == hits_in(text::texts(lines@)),
{
    let ghost lm = text::texts(lines@);
    let mut v: Vec<GrepHit> = Vec::new();
    let mut i: usize = 0;
    proof {
        assert(hit_models(v@) =~= hits_in(lm.take(0)));
    }
    while i < lines.len()
        invariant
            i <= lines.len(),
            lm == text::texts(lines@),
            v@.len() < GREP_CAP,
            hit_models(v@) == hits_in(lm.take(i as int)),
        decreases lines.len() - i,
    {
        proof {
            assert(lm.take(i + 1).drop_last() =~= lm.take(i as int));
            assert(lm[i as int] == lines@[i as int]@);
            assert(hit_models(v@).len() == v@.len());
        }
        let done = add_hit(&mut v, lines[i].as_str());
        i += 1;
        if done {
            proof {
                assert(hit_models(v@).len() == v@.len());
                lemma_hits_stay(lm, i as int, lm.len() as int);
                assert(lm.take(lm.len() as int) =~= lm);
            }
            return v;
        }
    }
    proof {
        assert(lm.take(lm.len() as int) =~= lm);
    }
    v
}

/// Once enough hits are there, later lines add none.
proof fn lemma_hits_stay(lines: Seq<Seq<char>>, i: int, j: int)
    requires
        0 <= i <= j <= lines.len(),
        hits_in(lines.take(i)).len() >= GREP_CAP,
    ensures
        hits_in(lines.take(j)) == hits_in(lines.take(i)),
    decreases j - i,
{
    if i < j {
        lemma_hits_stay(lines, i, j - 1);
        assert(lines.take(j).drop_last() =~= lines.take(j - 1));
    }
}

} // verus!
