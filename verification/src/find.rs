//! Finding and replacing text in the open file.

use crate::buffer;
use crate::editor::{CodeEditor, Doc};
use crate::text;
use vstd::prelude::*;
use vstd::utf8::encode_utf8;

verus! {

broadcast use vstd::seq_lib::group_seq_properties;

// ---------------------------------------------------------------------------
// Matches
// ---------------------------------------------------------------------------

/// The positions from `i` on at which `needle` stands in `hay`, none of them within another,
/// each as far left as it can be.
pub open spec fn found(hay: Seq<char>, needle: Seq<char>, i: int) -> Seq<int>
    decreases hay.len() - i,
{
    if needle.len() == 0 || i < 0 || i >= hay.len() {
        Seq::empty()
    } else if text::occurs_at(hay, needle, i) {
        seq![i] + found(hay, needle, i + needle.len())
    } else {
        found(hay, needle, i + 1)
    }
}

/// The bytes that a character range takes.
pub open spec fn byte_range(content: Seq<char>, from: int, to: int) -> (int, int) {
    (text::blen(content.take(from)) as int, text::blen(content.take(to)) as int)
}

/// Where `q` stands in `content`, whatever the case of the letters of ASCII.
pub open spec fn find_ranges(content: Seq<char>, q: Seq<char>) -> Seq<(int, int)> {
    let f = found(text::ascii_lower_all(content), text::ascii_lower_all(q), 0);
    Seq::new(f.len(), |k: int| byte_range(content, f[k], f[k] + q.len()))
}

/// Each match is an occurrence, and matches do not overlap and go up.
proof fn lemma_found(hay: Seq<char>, needle: Seq<char>, i: int)
    requires
        0 <= i,
        needle.len() > 0,
    ensures
        forall|k: int|
            0 <= k < found(hay, needle, i).len() ==> i <= (#[trigger] found(hay, needle, i)[k])
                && text::occurs_at(hay, needle, found(hay, needle, i)[k]),
        forall|k: int, l: int|
            0 <= k < l < found(hay, needle, i).len() ==> (#[trigger] found(hay, needle, i)[k])
                + needle.len() <= (#[trigger] found(hay, needle, i)[l]),
    decreases hay.len() - i,
{
    if i < hay.len() {
        let f = found(hay, needle, i);
        if text::occurs_at(hay, needle, i) {
            let next = i + needle.len();
            lemma_found(hay, needle, next);
            let g = found(hay, needle, next);
            assert forall|k: int| 0 <= k < f.len() implies i <= (#[trigger] f[k])
                && text::occurs_at(hay, needle, f[k]) by {
                if k > 0 {
                    assert(f[k] == g[k - 1]);
                }
            }
            assert forall|k: int, l: int| 0 <= k < l < f.len() implies (#[trigger] f[k])
                + needle.len() <= (#[trigger] f[l]) by {
                assert(f[l] == g[l - 1]);
                if k > 0 {
                    assert(f[k] == g[k - 1]);
                }
            }
        } else {
            lemma_found(hay, needle, i + 1);
            let g = found(hay, needle, i + 1);
            assert(f == g);
            assert forall|k: int| 0 <= k < f.len() implies i <= (#[trigger] f[k])
                && text::occurs_at(hay, needle, f[k]) by {
                assert(i + 1 <= g[k]);
            }
            assert forall|k: int, l: int| 0 <= k < l < f.len() implies (#[trigger] f[k])
                + needle.len() <= (#[trigger] f[l]) by {
                assert(g[k] + needle.len() <= g[l]);
            }
        }
    }
}

/// Each match is an occurrence of the text that is looked for, matches do not overlap, and every
/// occurrence is a match or begins within one.
pub proof fn lemma_found_all(hay: Seq<char>, needle: Seq<char>, p: int)
    requires
        needle.len() > 0,
    ensures
        forall|k: int|
            0 <= k < found(hay, needle, 0).len() ==> text::occurs_at(
                hay,
                needle,
                #[trigger] found(hay, needle, 0)[k],
            ),
        forall|k: int, l: int|
            0 <= k < l < found(hay, needle, 0).len() ==> (#[trigger] found(hay, needle, 0)[k])
                + needle.len() <= (#[trigger] found(hay, needle, 0)[l]),
        text::occurs_at(hay, needle, p) ==> covered(hay, needle, 0, p),
{
    lemma_found(hay, needle, 0);
    if text::occurs_at(hay, needle, p) {
        lemma_found_covers(hay, needle, 0, p);
    }
}

/// A match from `i` on begins at `p` or holds it.
pub open spec fn covered(hay: Seq<char>, needle: Seq<char>, i: int, p: int) -> bool {
    exists|k: int|
        0 <= k < found(hay, needle, i).len() && (#[trigger] found(hay, needle, i)[k]) <= p < found(
            hay,
            needle,
            i,
        )[k] + needle.len()
}

proof fn lemma_found_covers(hay: Seq<char>, needle: Seq<char>, i: int, p: int)
    requires
        needle.len() > 0,
        0 <= i <= p,
        text::occurs_at(hay, needle, p),
    ensures
        covered(hay, needle, i, p),
    decreases hay.len() - i,
{
    let f = found(hay, needle, i);
    if text::occurs_at(hay, needle, i) {
        let next = i + needle.len();
        if p < next {
            assert(f[0] == i);
        } else {
            lemma_found_covers(hay, needle, next, p);
            let g = found(hay, needle, next);
            let k = choose|k: int|
                0 <= k < g.len() && (#[trigger] g[k]) <= p < g[k] + needle.len();
            assert(f[k + 1] == g[k]);
        }
    } else {
        lemma_found_covers(hay, needle, i + 1, p);
    }
}

pub open spec fn pairs(v: Seq<(usize, usize)>) -> Seq<(int, int)> {
    Seq::new(v.len(), |i: int| (v[i].0 as int, v[i].1 as int))
}

/// The ranges are whole characters of `b`, not empty, and go up without overlapping.
pub open spec fn fit(rs: Seq<(int, int)>, b: Seq<u8>) -> bool {
    &&& forall|i: int|
        0 <= i < rs.len() ==> buffer::char_range(b, (#[trigger] rs[i]).0, rs[i].1)
    &&& forall|i: int, j: int|
        0 <= i < j < rs.len() ==> (#[trigger] rs[i]).1 <= (#[trigger] rs[j]).0
}

/// Matches are whole characters of the text, in order.
pub proof fn lemma_ranges_fit(content: Seq<char>, q: Seq<char>)
    ensures
        fit(find_ranges(content, q), encode_utf8(content)),
{
    let hay = text::ascii_lower_all(content);
    let needle = text::ascii_lower_all(q);
    let f = found(hay, needle, 0);
    let rs = find_ranges(content, q);
    let b = encode_utf8(content);
    if q.len() > 0 {
        lemma_found(hay, needle, 0);
        assert forall|i: int| 0 <= i < rs.len() implies buffer::char_range(
            b,
            (#[trigger] rs[i]).0,
            rs[i].1,
        ) by {
            assert(text::occurs_at(hay, needle, f[i]));
            buffer::lemma_prefix_boundary(content, f[i]);
            buffer::lemma_prefix_boundary(content, f[i] + q.len());
            lemma_take_mono(content, f[i], f[i] + q.len());
        }
        assert forall|i: int, j: int| 0 <= i < j < rs.len() implies (#[trigger] rs[i]).1 <= (
        #[trigger] rs[j]).0 by {
            assert(f[i] + needle.len() <= f[j]);
            assert(text::occurs_at(hay, needle, f[j]));
            lemma_take_mono(content, f[i] + q.len(), f[j]);
        }
    }
}

proof fn lemma_take_mono(s: Seq<char>, i: int, j: int)
    requires
        0 <= i <= j <= s.len(),
    ensures
        text::blen(s.take(i)) <= text::blen(s.take(j)),
        text::blen(s.take(j)) == text::blen(s.take(i)) + text::blen(s.subrange(i, j)),
{
    assert(s.take(j) =~= s.take(i) + s.subrange(i, j));
    text::lemma_encode_concat(s.take(i), s.subrange(i, j));
}

/// Where `q` stands in `content`, whatever the case of the letters of ASCII.
pub fn find_matches(content: &str, q: &str) -> (r: Vec<(usize, usize)>)
    ensures
        pairs(r@) == find_ranges(content@, q@),
        fit(pairs(r@), encode_utf8(content@)),
{
    let chars = text::chars_of(content);
    let hay = text::chars_of(text::to_ascii_lowercase(content).as_str());
    let needle = text::chars_of(text::to_ascii_lowercase(q).as_str());
    let total: usize = buffer::byte_len(content);
    let ghost all = found(hay@, needle@, 0);
    let mut r: Vec<(usize, usize)> = Vec::new();
    let mut i: usize = 0;
    let mut off: usize = 0;
    let ghost mut done: Seq<int> = Seq::empty();
    proof {
        assert(chars@.take(0) =~= Seq::<char>::empty());
        assert(done + all =~= all);
    }
    if needle.len() > 0 {
        while i < hay.len()
            invariant
                chars@ == content@,
                hay@ == text::ascii_lower_all(content@),
                needle@ == text::ascii_lower_all(q@),
                needle@.len() == q@.len(),
                needle@.len() > 0,
                hay@.len() == chars@.len(),
                i <= hay@.len(),
                total == text::blen(content@),
                off == text::blen(content@.take(i as int)),
                all == found(hay@, needle@, 0),
                done + found(hay@, needle@, i as int) == all,
                pairs(r@) == Seq::new(
                    done.len(),
                    |k: int| byte_range(content@, done[k], done[k] + q@.len()),
                ),
            decreases hay@.len() - i,
        {
            if text::matches_at(&hay, &needle, i) {
                let mut end: usize = off;
                let mut j: usize = i;
                let to: usize = i + needle.len();
                while j < to
                    invariant
                        chars@ == content@,
                        i <= j <= to <= chars@.len(),
                        total == text::blen(content@),
                        end == text::blen(content@.take(j as int)),
                    decreases to - j,
                {
                    let c = chars[j];
                    proof {
                        lemma_take_mono(content@, j as int, j + 1);
                        lemma_take_mono(content@, j + 1, content@.len() as int);
                        assert(content@.subrange(j as int, j + 1) =~= seq![c]);
                        assert(content@.take(content@.len() as int) =~= content@);
                    }
                    end = end + text::len_utf8(c);
                    j += 1;
                }
                let ghost before = pairs(r@);
                r.push((off, end));
                proof {
                    let next = found(hay@, needle@, to as int);
                    assert(done + (seq![i as int] + next) =~= done.push(i as int) + next);
                    done = done.push(i as int);
                    assert(pairs(r@) =~= before.push((off as int, end as int)));
                    assert(pairs(r@) =~= Seq::new(
                        done.len(),
                        |k: int| byte_range(content@, done[k], done[k] + q@.len()),
                    ));
                }
                off = end;
                i = to;
            } else {
                let c = chars[i];
                proof {
                    lemma_take_mono(content@, i as int, i + 1);
                    lemma_take_mono(content@, i + 1, content@.len() as int);
                    assert(content@.subrange(i as int, i + 1) =~= seq![c]);
                    assert(content@.take(content@.len() as int) =~= content@);
                }
                off = off + text::len_utf8(c);
                i += 1;
            }
        }
    }
    proof {
        assert(done + Seq::<int>::empty() =~= done);
        assert(pairs(r@) =~= find_ranges(content@, q@));
        lemma_ranges_fit(content@, q@);
    }
    r
}

// ---------------------------------------------------------------------------
// Marks
// ---------------------------------------------------------------------------

/// A part of a line that is shown as a match.
#[derive(Debug, Clone, Copy, PartialEq, Eq, Structural)]
pub struct LineMark {
    pub line: usize,
    pub start: usize,
    pub end: usize,
}

/// The mark of a match on the line that it begins on: its bytes counted from the line's start,
/// cut off at the line's end.
pub open spec fn mark_of(b: Seq<u8>, r: (int, int)) -> (int, int, int) {
    let begin = buffer::line_begin(b, r.0);
    let finish = buffer::line_finish(b, r.0);
    (buffer::line_of(b, r.0), r.0 - begin, (if r.1 <= finish {
        r.1
    } else {
        finish
    }) - begin)
}

/// The marks of the matches.
pub fn line_marks(content: &str, matches: &Vec<(usize, usize)>) -> (r: Vec<LineMark>)
    requires
        fit(pairs(matches@), encode_utf8(content@)),
    ensures
        r@.len() == matches@.len(),
        forall|i: int|
            0 <= i < r@.len() ==> ((#[trigger] r@[i]).line as int, r@[i].start as int, r@[i].end
                as int) == mark_of(encode_utf8(content@), pairs(matches@)[i]),
{
    let bytes = content.as_bytes();
    let ghost b = encode_utf8(content@);
    let mut r: Vec<LineMark> = Vec::new();
    let mut i: usize = 0;
    while i < matches.len()
        invariant
            i <= matches@.len(),
            bytes@ == b,
            b == encode_utf8(content@),
            fit(pairs(matches@), b),
            r@.len() == i,
            forall|k: int|
                0 <= k < i ==> ((#[trigger] r@[k]).line as int, r@[k].start as int, r@[k].end as int)
                    == mark_of(b, pairs(matches@)[k]),
        decreases matches@.len() - i,
    {
        let (s, e) = matches[i];
        proof {
            assert(pairs(matches@)[i as int] == (s as int, e as int));
            buffer::lemma_line_begin(b, s as int);
            buffer::lemma_line_finish(b, s as int);
        }
        let line: usize = buffer::count_newlines(bytes, s);
        let begin: usize = buffer::find_line_begin(bytes, s);
        let finish: usize = buffer::find_line_finish(bytes, s);
        let end: usize = if e <= finish {
            e
        } else {
            finish
        };
        r.push(LineMark { line, start: s - begin, end: end - begin });
        i += 1;
    }
    r
}

/// The bytes of line `line`, counted from 1; past the last line, the end of the text.
pub open spec fn line_range(b: Seq<u8>, line: int) -> (int, int) {
    let p = buffer::line_start(
        b,
        if line > 0 {
            line - 1
        } else {
            0
        },
    );
    let start = if p <= b.len() {
        p
    } else {
        b.len() as int
    };
    (start, buffer::line_finish(b, start))
}

/// The bytes of line `line`, counted from 1.
pub fn range_of_line(content: &str, line: u32) -> (r: (usize, usize))
    ensures
        (r.0 as int, r.1 as int) == line_range(encode_utf8(content@), line as int),
        buffer::char_range(encode_utf8(content@), r.0 as int, r.1 as int),
{
    let bytes = content.as_bytes();
    let ghost b = encode_utf8(content@);
    let k: u32 = if line > 0 {
        line - 1
    } else {
        0
    };
    let mut p: usize = 0;
    let mut past = false;
    let mut j: u32 = 0;
    while j < k && !past
        invariant
            j <= k,
            bytes@ == b,
            p <= bytes@.len(),
            !past ==> p == buffer::line_start(b, j as int),
            past ==> p == b.len() && buffer::line_start(b, j as int) > b.len(),
            !past ==> buffer::line_begin(b, p as int) == p,
        decreases (k - j) + if past { 0int } else { 1int },
    {
        let f: usize = buffer::find_line_finish(bytes, p);
        if f >= bytes.len() {
            past = true;
            p = bytes.len();
        } else {
            proof {
                buffer::lemma_line_finish(b, p as int);
                assert(b[f as int] == buffer::NL);
            }
            p = f + 1;
        }
        j += 1;
    }
    proof {
        if past {
            lemma_past_stays(b, j as int, k as int);
        }
        buffer::lemma_ends(content@);
        if !past {
            buffer::lemma_line_boundaries(content@, p as int);
        }
        buffer::lemma_line_finish(b, p as int);
    }
    let e: usize = buffer::find_line_finish(bytes, p);
    proof {
        buffer::lemma_line_boundaries(content@, p as int);
    }
    (p, e)
}

proof fn lemma_past_stays(b: Seq<u8>, j: int, k: int)
    requires
        0 <= j <= k,
        buffer::line_start(b, j) > b.len(),
    ensures
        buffer::line_start(b, k) > b.len(),
    decreases k - j,
{
    if j < k {
        lemma_past_stays(b, j, k - 1);
    }
}

// ---------------------------------------------------------------------------
// The find bar
// ---------------------------------------------------------------------------

pub struct FindBar {
    pub open: bool,
    /// The bar has a line to replace with.
    pub replace: bool,
    /// The bytes of each match.
    pub matches: Vec<(usize, usize)>,
    /// The current match.
    pub idx: usize,
}

/// The document with the ranges from `k` on replaced, the last one first, each as one edit.
pub open spec fn all_replaced(d: Doc, rs: Seq<(int, int)>, t: Seq<u8>, k: int) -> Doc
    decreases rs.len() - k,
{
    if k < 0 || k >= rs.len() {
        d
    } else {
        Doc { marked: d.marked, ..all_replaced(d, rs, t, k + 1).replaced(rs[k].0, rs[k].1, t, false) }
    }
}

/// The match after the one at `i` of `n`; after the last comes the first.
pub open spec fn next_match(i: int, n: nat) -> int {
    (i + 1) % n as int
}

/// The match before the one at `i` of `n`; before the first comes the last.
pub open spec fn previous_match(i: int, n: nat) -> int {
    if i > 0 {
        i - 1
    } else {
        n - 1
    }
}

/// Stepping on and back again ends where it began, and no step leaves the matches.
pub proof fn lemma_match_steps(i: int, n: nat)
    requires
        0 <= i < n,
    ensures
        0 <= next_match(i, n) < n,
        0 <= previous_match(i, n) < n,
        i + 1 < n ==> next_match(i, n) == i + 1,
        next_match(n - 1, n) == 0,
        previous_match(next_match(i, n), n) == i,
        next_match(previous_match(i, n), n) == i,
{
    assert(i + 1 < n ==> (i + 1) % n as int == i + 1) by {
        if i + 1 < n {
            vstd::arithmetic::div_mod::lemma_small_mod((i + 1) as nat, n);
        }
    }
    vstd::arithmetic::div_mod::lemma_small_mod(i as nat, n);
    assert(n as int % n as int == 0) by {
        vstd::arithmetic::div_mod::lemma_mod_self_0(n as int);
    }
}

/// A composition range stays whole characters while the ranges are replaced.
pub open spec fn marks_stay(d: Doc, rs: Seq<(int, int)>, t: Seq<u8>) -> bool {
    d.marked matches Some(m) ==> forall|k: int|
        0 <= k < rs.len() ==> buffer::char_range(
            (#[trigger] all_replaced(d, rs, t, k)).bytes,
            m.0,
            m.1,
        )
}

proof fn lemma_replaced_before(d: Doc, rs: Seq<(int, int)>, new_text: Seq<char>, k: int)
    requires
        0 <= k < rs.len(),
        fit(rs, d.bytes),
    ensures
        ({
            let x = all_replaced(d, rs, encode_utf8(new_text), k).bytes;
            &&& rs[k].0 <= x.len()
            &&& x.subrange(0, rs[k].0) == d.bytes.subrange(0, rs[k].0)
            &&& buffer::boundary(x, rs[k].0)
            &&& k > 0 ==> buffer::char_range(x, rs[k - 1].0, rs[k - 1].1)
        }),
    decreases rs.len() - k,
{
    let t = encode_utf8(new_text);
    let b = d.bytes;
    let (s, e) = rs[k];
    assert(buffer::char_range(b, s, e));
    let y = all_replaced(d, rs, t, k + 1).bytes;
    if k + 1 < rs.len() {
        lemma_replaced_before(d, rs, new_text, k + 1);
        assert(e <= rs[k + 1].0);
        assert(y.subrange(0, e) =~= y.subrange(0, rs[k + 1].0).subrange(0, e));
        assert(b.subrange(0, e) =~= b.subrange(0, rs[k + 1].0).subrange(0, e));
        assert(buffer::char_range(y, s, e));
    }
    assert(y.subrange(0, s) =~= y.subrange(0, e).subrange(0, s));
    assert(b.subrange(0, s) =~= b.subrange(0, e).subrange(0, s));
    let x = all_replaced(d, rs, t, k).bytes;
    assert(x == buffer::spliced(y, s, e, t));
    assert(x.subrange(0, s) =~= y.subrange(0, s));
    buffer::lemma_ends(new_text);
    if t.len() > 0 {
        assert(x[s] == t[0]);
    } else if e < y.len() {
        assert(x[s] == y[e]);
    }
    if k > 0 {
        let (s0, e0) = rs[k - 1];
        assert(buffer::char_range(b, s0, e0));
        assert(e0 <= s);
        if s0 < s {
            assert(x[s0] == x.subrange(0, s)[s0]);
            assert(b[s0] == b.subrange(0, s)[s0]);
        }
        if e0 < s {
            assert(x[e0] == x.subrange(0, s)[e0]);
            assert(b[e0] == b.subrange(0, s)[e0]);
        }
    }
}

/// An editor went from `first` to `last` by replacing the matches from `k` on, one edit for each
/// and the last match first.
pub open spec fn replace_steps(
    steps: Seq<CodeEditor>,
    first: CodeEditor,
    last: CodeEditor,
    ranges: Seq<(int, int)>,
    t: Seq<u8>,
    k: int,
) -> bool {
    &&& steps.len() == ranges.len() - k + 1
    &&& steps[0] == first
    &&& steps.last() == last
    &&& forall|i: int, j: int|
        0 <= i && j == i + 1 && j < steps.len() ==> {
            &&& (#[trigger] steps[j]).edited_from(#[trigger] steps[i])
            &&& steps[j].doc() == all_replaced(first.doc(), ranges, t, ranges.len() - j)
        }
}

/// One match more is replaced.
proof fn lemma_replace_step(
    steps: Seq<CodeEditor>,
    first: CodeEditor,
    next: CodeEditor,
    ranges: Seq<(int, int)>,
    t: Seq<u8>,
    k: int,
)
    requires
        0 <= k < ranges.len(),
        steps.len() > 0,
        replace_steps(steps, first, steps.last(), ranges, t, k + 1),
        next.edited_from(steps.last()),
        next.doc() == all_replaced(first.doc(), ranges, t, k),
    ensures
        replace_steps(steps.push(next), first, next, ranges, t, k),
{
    let s = steps.push(next);
    assert forall|i: int, j: int| 0 <= i && j == i + 1 && j < s.len() implies {
        &&& (#[trigger] s[j]).edited_from(#[trigger] s[i])
        &&& s[j].doc() == all_replaced(first.doc(), ranges, t, ranges.len() - j)
    } by {
        assert(s[i] == steps[i]);
        if j < steps.len() {
            assert(s[j] == steps[j]);
        }
    }
}

impl FindBar {
    /// It is closed, and nothing was looked for.
    pub open spec fn is_new(&self) -> bool {
        !self.open && !self.replace && self.matches@.len() == 0 && self.idx == 0
    }

    pub fn new() -> (r: Self)
        ensures
            r.is_new(),
    {
        FindBar { open: false, replace: false, matches: Vec::new(), idx: 0 }
    }

    pub open spec fn ranges(&self) -> Seq<(int, int)> {
        pairs(self.matches@)
    }

    /// The bar shows the matches of `q` in `content`.
    pub open spec fn shows(&self, content: Seq<char>, q: Seq<char>) -> bool {
        self.ranges() == find_ranges(content, q)
    }

    /// Opens the bar, which is for the text of an open file. Returns whether it opens.
    pub fn open_find(&mut self, replace: bool, browsing: bool, file_open: bool) -> (r: bool)
        ensures
            r == (browsing && file_open),
            final(self).matches@ == old(self).matches@,
            final(self).idx == old(self).idx,
            r ==> final(self).open && final(self).replace == replace,
            !r ==> *final(self) == *old(self),
    {
        if !browsing || !file_open {
            return false;
        }
        self.open = true;
        self.replace = replace;
        true
    }

    pub fn close_find(&mut self)
        ensures
            final(self).matches@.len() == 0,
            *final(self) == (FindBar {
                open: false,
                matches: final(self).matches,
                ..*old(self)
            }),
    {
        self.open = false;
        self.matches = Vec::new();
    }

    /// Looks for `q` in `content` anew. The current match keeps its number if there are enough.
    pub fn recompute_find(&mut self, q: &str, content: &str)
        ensures
            final(self).open == old(self).open,
            final(self).replace == old(self).replace,
            final(self).shows(content@, q@),
            fit(final(self).ranges(), encode_utf8(content@)),
            final(self).idx == if old(self).idx < final(self).matches@.len() {
                old(self).idx
            } else {
                0
            },
    {
        self.matches = find_matches(content, q);
        if self.idx >= self.matches.len() {
            self.idx = 0;
        }
    }

    /// The current match.
    pub fn current(&self) -> (r: Option<(usize, usize)>)
        ensures
            r == if self.idx < self.matches@.len() {
                Some(self.matches@[self.idx as int])
            } else {
                None
            },
    {
        if self.idx < self.matches.len() {
            Some(self.matches[self.idx])
        } else {
            None
        }
    }

    /// Goes to the next match, from the last to the first. Returns it.
    pub fn find_next(&mut self) -> (r: Option<(usize, usize)>)
        requires
            old(self).matches@.len() > 0 ==> old(self).idx < usize::MAX,
        ensures
            final(self).open == old(self).open,
            final(self).replace == old(self).replace,
            final(self).matches@ == old(self).matches@,
            old(self).matches@.len() == 0 ==> r is None && final(self).idx == old(self).idx,
            old(self).matches@.len() > 0 ==> {
                &&& final(self).idx == next_match(old(self).idx as int, old(self).matches@.len())
                &&& final(self).idx < old(self).matches@.len()
                &&& r == Some(old(self).matches@[final(self).idx as int])
            },
    {
        if self.matches.len() == 0 {
            return None;
        }
        self.idx = (self.idx + 1) % self.matches.len();
        Some(self.matches[self.idx])
    }

    /// Goes to the match before, from the first to the last. Returns it.
    pub fn find_prev(&mut self) -> (r: Option<(usize, usize)>)
        ensures
            final(self).open == old(self).open,
            final(self).replace == old(self).replace,
            final(self).matches@ == old(self).matches@,
            final(self).idx == if old(self).matches@.len() == 0 {
                old(self).idx as int
            } else {
                previous_match(old(self).idx as int, old(self).matches@.len())
            },
            r == if final(self).idx < old(self).matches@.len() {
                Some(old(self).matches@[final(self).idx as int])
            } else {
                None
            },
    {
        if self.matches.len() == 0 {
            return None;
        }
        if self.idx > 0 {
            self.idx -= 1;
        } else {
            self.idx = self.matches.len() - 1;
        }
        self.current()
    }

    /// Replaces the current match in the editor and looks for `q` anew. Returns whether there was
    /// a match.
    pub fn replace_one(&mut self, ed: &mut CodeEditor, q: &str, new_text: &str) -> (r: bool)
        requires
            old(ed).wf(),
            fit(old(self).ranges(), old(ed).doc().bytes),
            old(self).idx < old(self).matches@.len() ==> marks_stay(
                old(ed).doc(),
                seq![old(self).ranges()[old(self).idx as int]],
                encode_utf8(new_text@),
            ),
        ensures
            final(ed).wf(),
            r == (old(self).idx < old(self).matches@.len()),
            !r ==> *final(self) == *old(self) && *final(ed) == *old(ed),
            r ==> {
                &&& final(self).open == old(self).open
                &&& final(self).replace == old(self).replace
                &&& final(self).shows(final(ed).content@, q@)
                &&& final(self).idx == if old(self).idx < final(self).matches@.len() {
                    old(self).idx
                } else {
                    0
                }
                &&& old(ed).read_only ==> *final(ed) == *old(ed)
                &&& !old(ed).read_only ==> final(ed).doc() == all_replaced(
                    old(ed).doc(),
                    seq![old(self).ranges()[old(self).idx as int]],
                    encode_utf8(new_text@),
                    0,
                )
                &&& !old(ed).read_only ==> final(ed).edited_from(*old(ed))
                &&& final(ed).reveal_pending == old(ed).reveal_pending
            },
    {
        if self.idx >= self.matches.len() {
            return false;
        }
        let (s, e) = self.matches[self.idx];
        let ghost d = ed.doc();
        let ghost one = seq![self.ranges()[self.idx as int]];
        let ghost t = encode_utf8(new_text@);
        proof {
            assert(self.ranges()[self.idx as int] == (s as int, e as int));
            assert(buffer::char_range(d.bytes, s as int, e as int));
            reveal_with_fuel(all_replaced, 2);
            assert(all_replaced(d, one, t, 0) == (Doc {
                marked: d.marked,
                ..d.replaced(s as int, e as int, t, false)
            }));
        }
        ed.replace_range_text(s..e, new_text);
        self.recompute_find(q, ed.content.as_str());
        true
    }

    /// Replaces every match in the editor, the last one first so that those before it stay where
    /// they are, and looks for `q` anew.
    pub fn replace_all(&mut self, ed: &mut CodeEditor, q: &str, new_text: &str)
        requires
            old(ed).wf(),
            fit(old(self).ranges(), old(ed).doc().bytes),
            marks_stay(old(ed).doc(), old(self).ranges(), encode_utf8(new_text@)),
        ensures
            final(ed).wf(),
            final(self).open == old(self).open,
            final(self).replace == old(self).replace,
            final(self).shows(final(ed).content@, q@),
            final(self).idx == if old(self).idx < final(self).matches@.len() {
                old(self).idx
            } else {
                0
            },
            old(ed).read_only ==> *final(ed) == *old(ed),
            !old(ed).read_only ==> final(ed).doc() == all_replaced(
                old(ed).doc(),
                old(self).ranges(),
                encode_utf8(new_text@),
                0,
            ),
            final(ed).same_setup(*old(ed)),
            final(ed).lang == old(ed).lang,
            final(ed).is_selecting == old(ed).is_selecting,
            final(ed).reveal_pending == old(ed).reveal_pending,
            !old(ed).read_only ==> exists|steps: Seq<CodeEditor>| #[trigger]
                replace_steps(
                    steps,
                    *old(ed),
                    *final(ed),
                    old(self).ranges(),
                    encode_utf8(new_text@),
                    0,
                ),
    {
        let ghost d = ed.doc();
        let ghost rs = self.ranges();
        let ghost t = encode_utf8(new_text@);
        let ghost first = *ed;
        let ghost mut steps = seq![*ed];
        let mut k: usize = self.matches.len();
        while k > 0
            invariant
                k <= self.matches@.len(),
                rs == self.ranges(),
                *self == *old(self),
                t == encode_utf8(new_text@),
                d == first.doc(),
                fit(rs, d.bytes),
                marks_stay(d, rs, t),
                ed.wf(),
                ed.read_only == first.read_only,
                first.read_only ==> *ed == first,
                !first.read_only ==> ed.doc() == all_replaced(d, rs, t, k as int),
                ed.same_setup(first),
                ed.lang == first.lang,
                ed.is_selecting == first.is_selecting,
                ed.reveal_pending == first.reveal_pending,
                !first.read_only ==> replace_steps(steps, first, *ed, rs, t, k as int),
            decreases k,
        {
            k -= 1;
            let (s, e) = self.matches[k];
            proof {
                assert(rs[k as int] == (s as int, e as int));
                assert(buffer::char_range(d.bytes, s as int, e as int));
                if !first.read_only {
                    if k + 1 < rs.len() {
                        lemma_replaced_before(d, rs, new_text@, k + 1);
                    }
                    assert(buffer::char_range(ed.doc().bytes, s as int, e as int));
                    assert(ed.doc().marked == d.marked);
                    let next = all_replaced(d, rs, t, k as int);
                    assert(next.bytes == buffer::spliced(ed.doc().bytes, s as int, e as int, t));
                }
            }
            if !ed.read_only {
                ed.replace_range_text(s..e, new_text);
                proof {
                    let before = steps;
                    steps = steps.push(*ed);
                    lemma_replace_step(before, first, *ed, rs, t, k as int);
                }
            }
        }
        self.recompute_find(q, ed.content.as_str());
    }
}

// ---------------------------------------------------------------------------
// What is found and what replacing does
// ---------------------------------------------------------------------------

/// The bytes are those of a part of the text that is the query but for the case of letters.
pub open spec fn reads_as(content: Seq<char>, q: Seq<char>, r: (int, int)) -> bool {
    exists|n: int|
        0 <= n <= content.len() - q.len() && #[trigger] byte_range(content, n, n + q.len()) == r
            && text::ascii_lower_all(content.subrange(n, n + q.len())) == text::ascii_lower_all(q)
}

/// A match reads as the query, whatever the case of the letters of ASCII, and every place that
/// does begins in a match or is one.
pub proof fn lemma_matches_read(content: Seq<char>, q: Seq<char>, p: int)
    requires
        q.len() > 0,
    ensures
        forall|k: int|
            0 <= k < find_ranges(content, q).len() ==> reads_as(
                content,
                q,
                #[trigger] find_ranges(content, q)[k],
            ),
        0 <= p <= content.len() - q.len() && text::ascii_lower_all(content.subrange(p, p + q.len()))
            == text::ascii_lower_all(q) ==> covered(
            text::ascii_lower_all(content),
            text::ascii_lower_all(q),
            0,
            p,
        ),
        find_ranges(content, Seq::empty()).len() == 0,
{
    let hay = text::ascii_lower_all(content);
    let needle = text::ascii_lower_all(q);
    lemma_found_all(hay, needle, p);
    let f = found(hay, needle, 0);
    let rs = find_ranges(content, q);
    assert forall|k: int| 0 <= k < rs.len() implies reads_as(content, q, #[trigger] rs[k]) by {
        let n = f[k];
        assert(text::occurs_at(hay, needle, n));
        assert(text::ascii_lower_all(content.subrange(n, n + q.len())) =~= hay.subrange(
            n,
            n + needle.len(),
        ));
        assert(byte_range(content, n, n + q.len()) == rs[k]);
    }
    if 0 <= p <= content.len() - q.len() && text::ascii_lower_all(
        content.subrange(p, p + q.len()),
    ) == needle {
        assert(hay.subrange(p, p + needle.len()) =~= text::ascii_lower_all(
            content.subrange(p, p + q.len()),
        ));
        assert(text::occurs_at(hay, needle, p));
    }
}

/// The case of the query does not matter.
pub proof fn lemma_case_ignored(content: Seq<char>, q: Seq<char>)
    ensures
        find_ranges(content, text::ascii_lower_all(q)) == find_ranges(content, q),
{
    assert(text::ascii_lower_all(text::ascii_lower_all(q)) =~= text::ascii_lower_all(q)) by {
        assert forall|i: int| 0 <= i < q.len() implies text::ascii_lower(
            #[trigger] text::ascii_lower_all(q)[i],
        ) == text::ascii_lower_all(q)[i] by {
            text::lemma_ascii_lower(q[i]);
        }
    }
    assert(find_ranges(content, text::ascii_lower_all(q)) =~= find_ranges(content, q));
}

/// The mark of a match is on its line, begins where the match begins, and ends where it ends or
/// where the line does.
pub proof fn lemma_mark_of(b: Seq<u8>, r: (int, int))
    requires
        0 <= r.0 <= r.1 <= b.len(),
    ensures
        ({
            let m = mark_of(b, r);
            let start = buffer::line_start(b, m.0);
            &&& 0 <= m.0 < buffer::line_total(b)
            &&& start + m.1 == r.0
            &&& m.1 <= m.2
            &&& start + m.2 <= r.1
            &&& (forall|i: int| r.0 <= i < r.1 ==> b[i] != buffer::NL) ==> start + m.2 == r.1
            &&& start + m.2 < r.1 ==> b[start + m.2] == buffer::NL
        }),
{
    buffer::lemma_line_round_trip(b, r.0);
    buffer::lemma_line_begin(b, r.0);
    buffer::lemma_line_finish(b, r.0);
}

/// The lines that a jump can name are those of the text, counted from 1; a number past the last
/// goes to the end.
pub proof fn lemma_line_range(b: Seq<u8>, line: int)
    ensures
        1 <= line <= buffer::line_total(b) ==> line_range(b, line).0 == buffer::line_start(
            b,
            line - 1,
        ) && buffer::line_of(b, line_range(b, line).0) == line - 1,
        line_range(b, 0) == line_range(b, 1),
        line_range(b, 1).0 == 0,
        line_range(b, line).1 == buffer::line_finish(b, line_range(b, line).0),
{
    if 1 <= line <= buffer::line_total(b) {
        buffer::lemma_line_start(b, line - 1);
    }
}

/// Replacing the matches from `k` on leaves the text before the match `k` and puts the new text
/// in the place of that match; behind it is what replacing the later matches left.
pub proof fn lemma_all_replaced(d: Doc, rs: Seq<(int, int)>, t: Seq<u8>, k: int)
    requires
        0 <= k <= rs.len(),
        forall|i: int| 0 <= i < rs.len() ==> 0 <= (#[trigger] rs[i]).0 <= rs[i].1 <= d.bytes.len(),
        forall|i: int, j: int|
            0 <= i < j < rs.len() ==> (#[trigger] rs[i]).1 <= (#[trigger] rs[j]).0,
    ensures
        ({
            let r = all_replaced(d, rs, t, k).bytes;
            let e = if k == 0 {
                0
            } else {
                rs[k - 1].1
            };
            &&& e <= r.len()
            &&& r.take(e) == d.bytes.take(e)
            &&& k == rs.len() ==> r == d.bytes
            &&& k < rs.len() ==> {
                let later = all_replaced(d, rs, t, k + 1).bytes;
                let (a, z) = rs[k];
                &&& r.take(a) == d.bytes.take(a)
                &&& r.subrange(a, a + t.len()) == t
                &&& r.skip(a + t.len()) == later.skip(z)
                &&& later.take(z) == d.bytes.take(z)
                &&& r.len() == later.len() - (z - a) + t.len()
            }
        }),
    decreases rs.len() - k,
{
    if k < rs.len() {
        lemma_all_replaced(d, rs, t, k + 1);
        let later = all_replaced(d, rs, t, k + 1);
        let (a, z) = rs[k];
        buffer::lemma_spliced(later.bytes, a, z, t);
        let r = all_replaced(d, rs, t, k).bytes;
        assert(r == buffer::spliced(later.bytes, a, z, t));
        assert(later.bytes.take(a) =~= later.bytes.take(z).take(a));
        assert(d.bytes.take(a) =~= d.bytes.take(z).take(a));
        let e = if k == 0 {
            0
        } else {
            rs[k - 1].1
        };
        assert(r.take(e) =~= r.take(a).take(e));
        assert(d.bytes.take(e) =~= d.bytes.take(a).take(e));
    }
}

/// The bytes of a character range are those of its characters.
pub proof fn lemma_byte_range(content: Seq<char>, from: int, to: int)
    requires
        0 <= from <= to <= content.len(),
    ensures
        ({
            let r = byte_range(content, from, to);
            &&& 0 <= r.0 <= r.1 <= text::blen(content)
            &&& encode_utf8(content).subrange(r.0, r.1) == encode_utf8(content.subrange(from, to))
        }),
{
    let a = content.take(from);
    let m = content.subrange(from, to);
    let z = content.skip(to);
    text::lemma_encode_concat(a, m);
    text::lemma_encode_concat(a + m, z);
    assert(content.take(to) =~= a + m);
    assert(content =~= a + m + z);
    let r = byte_range(content, from, to);
    assert(encode_utf8(content).subrange(r.0, r.1) =~= encode_utf8(m));
}

} // verus!
