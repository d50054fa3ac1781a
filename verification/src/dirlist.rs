//! The files of a directory that is no repository.

use crate::collections::TextSet;
use crate::path;
use crate::text;
use vstd::prelude::*;

verus! {

broadcast use vstd::seq_lib::group_seq_properties;

/// How many files are listed at most.
pub const LIST_CAP: usize = 20000;

/// What an entry of a directory is. Links are neither.
#[derive(Debug, Clone, Copy, PartialEq, Eq, Structural)]
pub enum EntryKind {
    Dir,
    File,
    Other,
}

/// `s` without slashes at its start.
pub open spec fn without_leading(s: Seq<char>) -> Seq<char>
    decreases s.len(),
{
    if s.len() > 0 && s[0] == '/' {
        without_leading(s.drop_first())
    } else {
        s
    }
}

/// `s` without slashes at its end.
pub open spec fn without_trailing(s: Seq<char>) -> Seq<char>
    decreases s.len(),
{
    if s.len() > 0 && s.last() == '/' {
        without_trailing(s.drop_last())
    } else {
        s
    }
}

/// The directory name that a line of an ignore file leaves out: comments, blank lines and
/// patterns name none.
pub open spec fn ignored_name(line: Seq<char>) -> Option<Seq<char>> {
    let l = text::trim(line);
    if l.len() == 0 || l[0] == '#' || l.contains('*') {
        None
    } else {
        Some(without_trailing(without_leading(l)))
    }
}

/// The directory names that are always left out.
pub open spec fn usual_names() -> Set<Seq<char>> {
    Set::empty().insert(".git"@).insert("target"@).insert("dist"@).insert("node_modules"@)
}

/// A directory name is left out because of a line.
pub open spec fn ignored_by(lines: Seq<Seq<char>>, name: Seq<char>) -> bool {
    exists|i: int| 0 <= i < lines.len() && ignored_name(#[trigger] lines[i]) == Some(name)
}

/// The directory names that are left out, given the ignore file of the root.
pub open spec fn skipped_names(gitignore: Option<Seq<char>>) -> Set<Seq<char>> {
    match gitignore {
        Some(s) => Set::new(
            |n: Seq<char>| usual_names().contains(n) || ignored_by(text::lines(s), n),
        ),
        None => usual_names(),
    }
}

fn strip_slashes(s: &str) -> (r: String)
    ensures
        r@ == without_trailing(without_leading(s@)),
{
    let chars = text::chars_of(s);
    let n: usize = chars.len();
    let mut from: usize = 0;
    proof {
        assert(chars@.skip(0) =~= chars@);
    }
    while from < n && chars[from] == '/'
        invariant
            from <= n,
            n == chars@.len(),
            chars@ == s@,
            without_leading(s@) == without_leading(chars@.skip(from as int)),
        decreases n - from,
    {
        proof {
            assert(chars@.skip(from as int).drop_first() =~= chars@.skip(from + 1));
        }
        from += 1;
    }
    let ghost body = chars@.skip(from as int);
    proof {
        assert(without_leading(body) == body);
        assert(chars@.subrange(from as int, n as int) =~= body);
    }
    let mut to: usize = n;
    while to > from && chars[to - 1] == '/'
        invariant
            from <= to <= n,
            n == chars@.len(),
            body == chars@.skip(from as int),
            without_trailing(body) == without_trailing(chars@.subrange(from as int, to as int)),
        decreases to,
    {
        proof {
            let c = chars@.subrange(from as int, to as int);
            assert(c.drop_last() =~= chars@.subrange(from as int, to - 1));
            assert(c.last() == chars@[to - 1]);
        }
        to -= 1;
    }
    text::substring(&chars, from, to)
}

/// The directory name that a line of an ignore file leaves out.
fn ignored_name_of(line: &str) -> (r: Option<String>)
    ensures
        match r {
            Some(n) => ignored_name(line@) == Some(n@),
            None => ignored_name(line@) is None,
        },
{
    let l = text::trim_str(line);
    let chars = text::chars_of(l.as_str());
    if chars.len() == 0 || chars[0] == '#' {
        return None;
    }
    let mut i: usize = 0;
    while i < chars.len()
        invariant
            i <= chars@.len(),
            chars@ == l@,
            l@ == text::trim(line@),
            forall|k: int| 0 <= k < i ==> chars@[k] != '*',
        decreases chars@.len() - i,
    {
        if chars[i] == '*' {
            proof {
                assert(l@.contains('*'));
            }
            return None;
        }
        i += 1;
    }
    Some(strip_slashes(l.as_str()))
}

/// The directory names that are left out, given the ignore file of the root.
pub fn skip_dirs(gitignore: Option<&str>) -> (r: TextSet)
    ensures
        r@ == skipped_names(
            match gitignore {
                Some(s) => Some(s@),
                None => None,
            },
        ),
{
    let mut r = TextSet::new();
    r.insert(".git");
    r.insert("target");
    r.insert("dist");
    r.insert("node_modules");
    if let Some(s) = gitignore {
        let lines = text::lines_of(s);
        let ghost ls = text::lines(s@);
        let mut i: usize = 0;
        while i < lines.len()
            invariant
                i <= lines@.len(),
                ls == text::texts(lines@),
                forall|n: Seq<char>|
                    #[trigger] r@.contains(n) == (usual_names().contains(n) || ignored_by(
                        ls.take(i as int),
                        n,
                    )),
            decreases lines@.len() - i,
        {
            let ghost before = r@;
            proof {
                assert(ls[i as int] == lines@[i as int]@);
            }
            let name = ignored_name_of(lines[i].as_str());
            if let Some(n) = &name {
                r.insert(n.as_str());
            }
            proof {
                let a = ls.take(i as int);
                let b = ls.take(i + 1);
                assert(b[i as int] == ls[i as int]);
                assert forall|n: Seq<char>|
                    #[trigger] r@.contains(n) == (usual_names().contains(n) || ignored_by(b, n)) by {
                    assert(before.contains(n) == (usual_names().contains(n) || ignored_by(a, n)));
                    if ignored_by(a, n) {
                        let k = choose|k: int|
                            0 <= k < a.len() && ignored_name(#[trigger] a[k]) == Some(n);
                        assert(b[k] == a[k]);
                    }
                    if ignored_by(b, n) {
                        let k = choose|k: int|
                            0 <= k < b.len() && ignored_name(#[trigger] b[k]) == Some(n);
                        if k < i {
                            assert(a[k] == b[k]);
                        }
                    }
                }
            }
            i += 1;
        }
        proof {
            assert(ls.take(ls.len() as int) =~= ls);
            assert(r@ =~= skipped_names(Some(s@)));
        }
    }
    r
}

/// A walk over a directory: the files found so far, and the directories still to be read. Paths
/// are relative to the root, which is the empty path.
pub struct Walk {
    pub found: Vec<String>,
    pub pending: Vec<String>,
    pub skip: TextSet,
}

impl Walk {
    pub fn new(gitignore: Option<&str>) -> (r: Self)
        ensures
            r.found@.len() == 0,
            text::texts(r.pending@) == seq![Seq::<char>::empty()],
            r.skip@ == skipped_names(
                match gitignore {
                    Some(s) => Some(s@),
                    None => None,
                },
            ),
    {
        let mut pending: Vec<String> = Vec::new();
        let root = String::new();
        pending.push(root);
        proof {
            assert(text::texts(pending@) =~= seq![Seq::<char>::empty()]);
        }
        Walk { found: Vec::new(), pending, skip: skip_dirs(gitignore) }
    }

    /// The directory to read next, if one is left and not enough files are found: the one that
    /// was met last.
    pub fn next_dir(&mut self) -> (r: Option<String>)
        ensures
            final(self).found@ == old(self).found@,
            final(self).skip@ == old(self).skip@,
            match r {
                Some(d) => old(self).pending@.len() > 0 && old(self).found@.len() < LIST_CAP
                    && d@ == old(self).pending@.last()@ && final(self).pending@ == old(
                    self,
                ).pending@.drop_last(),
                None => old(self).pending@.len() == 0 || old(self).found@.len() >= LIST_CAP,
            },
    {
        if self.found.len() >= LIST_CAP {
            return None;
        }
        self.pending.pop()
    }

    /// An entry of the directory `dir` is met: a directory is read later unless it is left out; a
    /// file is found.
    pub fn meet(&mut self, dir: &str, name: &str, kind: EntryKind)
        ensures
            final(self).skip@ == old(self).skip@,
            text::texts(final(self).found@) == if kind == EntryKind::File {
                text::texts(old(self).found@).push(path::join(dir@, name@))
            } else {
                text::texts(old(self).found@)
            },
            text::texts(final(self).pending@) == if kind == EntryKind::Dir && !old(
                self,
            ).skip@.contains(name@) {
                text::texts(old(self).pending@).push(path::join(dir@, name@))
            } else {
                text::texts(old(self).pending@)
            },
    {
        let ghost f = text::texts(self.found@);
        let ghost p = text::texts(self.pending@);
        match kind {
            EntryKind::Dir => {
                if !self.skip.contains(name) {
                    let full = path::join_paths(dir, name);
                    self.pending.push(full);
                    proof {
                        assert(text::texts(self.pending@) =~= p.push(full@));
                    }
                }
            },
            EntryKind::File => {
                let full = path::join_paths(dir, name);
                self.found.push(full);
                proof {
                    assert(text::texts(self.found@) =~= f.push(full@));
                }
            },
            EntryKind::Other => {},
        }
    }

    /// The files found, in order, as many as are listed.
    pub fn finish(self) -> (r: Vec<String>)
        ensures
            text::texts(r@) == listed(text::texts(self.found@)),
    {
        let order = path::order_of(&self.found);
        let ghost fs = text::texts(self.found@);
        let mut r: Vec<String> = Vec::new();
        let mut k: usize = 0;
        while k < order.len() && k < LIST_CAP
            invariant
                k <= order@.len(),
                k <= LIST_CAP,
                fs == text::texts(self.found@),
                order@.len() == self.found@.len(),
                forall|i: int| 0 <= i < order@.len() ==> (#[trigger] order@[i]) < self.found@.len(),
                r@.len() == k,
                forall|i: int| 0 <= i < k ==> (#[trigger] r@[i])@ == fs[order@[i] as int],
            decreases order@.len() - k,
        {
            proof {
                assert(fs[order@[k as int] as int] == self.found@[order@[k as int] as int]@);
            }
            r.push(self.found[order[k]].clone());
            k += 1;
        }
        proof {
            let want = listed(fs);
            assert(text::texts(r@).len() == want.len());
            assert forall|i: int| 0 <= i < want.len() implies text::texts(r@)[i] == want[i] by {
                assert(path::ints(order@)[i] == order@[i] as int);
                assert(r@[i]@ == fs[order@[i] as int]);
            }
            assert(text::texts(r@) =~= want);
        }
        r
    }
}

/// The files in order, as many as are listed.
pub open spec fn listed(files: Seq<Seq<char>>) -> Seq<Seq<char>> {
    let order = path::path_order(files);
    Seq::new(
        if files.len() < LIST_CAP {
            files.len()
        } else {
            LIST_CAP as nat
        },
        |i: int| files[order[i]],
    )
}

/// Listed files go up in order, and there are no more of them than the cap.
pub proof fn lemma_listed(files: Seq<Seq<char>>)
    ensures
        listed(files).len() <= LIST_CAP,
        forall|i: int, j: int|
            0 <= i < j < listed(files).len() ==> {
                let a = path::components(#[trigger] listed(files)[i]);
                let b = path::components(#[trigger] listed(files)[j]);
                path::path_less(a, b) || a == b
            },
{
    let keys = path::keys_of(files);
    let order = path::path_order(files);
    path::lemma_sort_order(keys, files.len() as int);
    assert forall|i: int, j: int| 0 <= i < j < listed(files).len() implies {
        let a = path::components(#[trigger] listed(files)[i]);
        let b = path::components(#[trigger] listed(files)[j]);
        path::path_less(a, b) || a == b
    } by {
        assert(keys[order[i]] == path::components(files[order[i]]));
        assert(keys[order[j]] == path::components(files[order[j]]));
    }
}

/// A line of an ignore file that is a name leaves this name out, with or without slashes and
/// white space around it; a comment, a blank line and a pattern leave nothing out.
pub proof fn lemma_ignored_name(name: Seq<char>, line: Seq<char>)
    requires
        name.len() > 0,
        !name.contains('*'),
        name[0] != '#',
        name[0] != '/',
        name.last() != '/',
        !text::is_white_space(name[0]),
        !text::is_white_space(name.last()),
    ensures
        ignored_name(name) == Some(name),
        ignored_name(name.push('/')) == Some(name),
        ignored_name(seq!['/'] + name) == Some(name),
        ignored_name(seq!['/'] + name.push('/')) == Some(name),
        ignored_name(line) is None <==> text::trim(line).len() == 0 || text::trim(line)[0] == '#'
            || text::trim(line).contains('*'),
{
    let a = name.push('/');
    let b = seq!['/'] + name;
    let c = seq!['/'] + a;
    text::lemma_ascii_white_space('/');
    text::lemma_trim_keeps(name);
    text::lemma_trim_keeps(a);
    text::lemma_trim_keeps(b);
    text::lemma_trim_keeps(c);
    assert forall|i: int| 0 <= i < name.len() implies name[i] != '*' by {
        assert(name.contains(name[i]));
    }
    assert(!a.contains('*') && !b.contains('*') && !c.contains('*'));
    assert(a.drop_last() =~= name);
    assert(b.drop_first() =~= name);
    assert(c.drop_first() =~= a);
    assert(without_leading(name) == name);
    assert(without_leading(a) == a);
    assert(without_trailing(name) == name);
    assert(without_leading(b) == without_leading(b.drop_first()));
    assert(without_leading(c) == without_leading(c.drop_first()));
    assert(without_trailing(a) == without_trailing(a.drop_last()));
}

/// The usual names are left out whatever an ignore file says, and a name beyond them if and only
/// if a line of the file leaves it out.
pub proof fn lemma_skipped_names(gitignore: Option<Seq<char>>, name: Seq<char>)
    ensures
        skipped_names(gitignore).contains(".git"@),
        skipped_names(gitignore).contains("target"@),
        skipped_names(gitignore).contains("dist"@),
        skipped_names(gitignore).contains("node_modules"@),
        name != ".git"@ && name != "target"@ && name != "dist"@ && name != "node_modules"@ ==> (
        skipped_names(gitignore).contains(name) <==> gitignore is Some && exists|i: int|
            0 <= i < text::lines(gitignore->0).len() && ignored_name(
                #[trigger] text::lines(gitignore->0)[i],
            ) == Some(name)),
{
}

/// All files are listed, but never more than 20000.
pub proof fn lemma_listed_count(files: Seq<Seq<char>>)
    ensures
        files.len() <= 20000 ==> listed(files).len() == files.len(),
        files.len() > 20000 ==> listed(files).len() == 20000,
{
}

} // verus!
