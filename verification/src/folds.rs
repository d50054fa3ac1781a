//! Which lines a set of folded regions hides, and where the caret goes when it is hidden.
//!
//! A region `(start, end)` that is folded hides the lines `start + 1` to `end`.

use crate::buffer;
use std::collections::HashSet;
use vstd::prelude::*;
use vstd::utf8::encode_utf8;

verus! {

broadcast use {vstd::seq_lib::group_seq_properties, vstd::std_specs::hash::group_hash_axioms};

/// The end of the first region at or after position `from` that starts on `line`.
pub open spec fn region_end(foldable: Seq<(usize, usize)>, line: usize, from: int) -> Option<usize>
    decreases foldable.len() - from,
{
    if from < 0 || from >= foldable.len() {
        None
    } else if foldable[from].0 == line {
        Some(foldable[from].1)
    } else {
        region_end(foldable, line, from + 1)
    }
}

/// The folded region that starts on line `s` hides `line`.
pub open spec fn hides(folded: Set<usize>, foldable: Seq<(usize, usize)>, s: usize, line: int) -> bool {
    folded.contains(s) && (region_end(foldable, s, 0) matches Some(e) && s < line <= e)
}

/// Some folded region hides `line`.
pub open spec fn hidden(folded: Set<usize>, foldable: Seq<(usize, usize)>, line: int) -> bool {
    exists|s: usize| hides(folded, foldable, s, line)
}

/// The start of the first region at or after position `from` that hides `line`.
pub open spec fn hider(
    folded: Set<usize>,
    foldable: Seq<(usize, usize)>,
    line: int,
    from: int,
) -> Option<usize>
    decreases foldable.len() - from,
{
    if from < 0 || from >= foldable.len() {
        None
    } else if hides(folded, foldable, foldable[from].0, line) {
        Some(foldable[from].0)
    } else {
        hider(folded, foldable, line, from + 1)
    }
}

/// The line that stands for `line`: itself if it is visible, else that which stands for the
/// start of a region that hides it.
pub open spec fn shown_line(folded: Set<usize>, foldable: Seq<(usize, usize)>, line: int) -> int
    decreases line,
{
    match hider(folded, foldable, line, 0) {
        Some(s) => if 0 <= s < line {
            shown_line(folded, foldable, s as int)
        } else {
            line
        },
        None => line,
    }
}

/// The lines below `n` that no folded region hides, in order.
pub open spec fn visible(folded: Set<usize>, foldable: Seq<(usize, usize)>, n: int) -> Seq<usize>
    decreases n,
{
    if n <= 0 {
        Seq::empty()
    } else {
        let r = visible(folded, foldable, n - 1);
        if hidden(folded, foldable, n - 1) {
            r
        } else {
            r.push((n - 1) as usize)
        }
    }
}

/// What starts a region has an end, and a region with an end stands in the list.
proof fn lemma_region_end(foldable: Seq<(usize, usize)>, line: usize, from: int)
    requires
        0 <= from,
    ensures
        region_end(foldable, line, from) matches Some(e) ==> exists|i: int|
            from <= i < foldable.len() && (#[trigger] foldable[i]) == (line, e),
    decreases foldable.len() - from,
{
    if from < foldable.len() && foldable[from].0 != line {
        lemma_region_end(foldable, line, from + 1);
    }
}

/// The end of the region that starts on `line`, if there is one.
pub fn fold_end(foldable: &[(usize, usize)], line: usize) -> (r: Option<usize>)
    ensures
        r == region_end(foldable@, line, 0),
{
    let mut i: usize = 0;
    while i < foldable.len()
        invariant
            i <= foldable@.len(),
            region_end(foldable@, line, i as int) == region_end(foldable@, line, 0),
        decreases foldable@.len() - i,
    {
        if foldable[i].0 == line {
            return Some(foldable[i].1);
        }
        i += 1;
    }
    None
}

/// What hides a line is in the list.
proof fn lemma_hider(folded: Set<usize>, foldable: Seq<(usize, usize)>, line: int, from: int)
    requires
        0 <= from,
        forall|j: int|
            0 <= j < from && j < foldable.len() ==> !hides(
                folded,
                foldable,
                (#[trigger] foldable[j]).0,
                line,
            ),
    ensures
        match hider(folded, foldable, line, from) {
            Some(s) => hides(folded, foldable, s, line),
            None => !hidden(folded, foldable, line),
        },
    decreases foldable.len() - from,
{
    if from >= foldable.len() {
        assert forall|s: usize| !hides(folded, foldable, s, line) by {
            if hides(folded, foldable, s, line) {
                lemma_region_end(foldable, s, 0);
            }
        }
    } else if !hides(folded, foldable, foldable[from].0, line) {
        lemma_hider(folded, foldable, line, from + 1);
    }
}

/// The first region that hides `line`, if there is one.
fn hiding_region(folded: &HashSet<usize>, foldable: &[(usize, usize)], line: usize) -> (r: Option<
    usize,
>)
    ensures
        r == hider(folded@, foldable@, line as int, 0),
        match r {
            Some(s) => hides(folded@, foldable@, s, line as int),
            None => !hidden(folded@, foldable@, line as int),
        },
{
    proof {
        lemma_hider(folded@, foldable@, line as int, 0);
    }
    let mut i: usize = 0;
    while i < foldable.len()
        invariant
            i <= foldable@.len(),
            hider(folded@, foldable@, line as int, i as int) == hider(
                folded@,
                foldable@,
                line as int,
                0,
            ),
        decreases foldable@.len() - i,
    {
        let s: usize = foldable[i].0;
        if line > s && folded.contains(&s) {
            if let Some(e) = fold_end(foldable, s) {
                if line <= e {
                    return Some(s);
                }
            }
        }
        i += 1;
    }
    None
}

/// Whether `line` is hidden inside a folded region.
pub fn is_hidden(folded: &HashSet<usize>, foldable: &[(usize, usize)], line: usize) -> (r: bool)
    ensures
        r == hidden(folded@, foldable@, line as int),
{
    hiding_region(folded, foldable, line).is_some()
}

/// The lines that are visible, in order: display row to line.
pub fn visible_line_indices(
    content: &str,
    folded: &HashSet<usize>,
    foldable: &[(usize, usize)],
) -> (r: Vec<usize>)
    ensures
        r@ == visible(folded@, foldable@, buffer::line_total(encode_utf8(content@))),
{
    let bytes = content.as_bytes();
    let last: usize = buffer::count_newlines(bytes, bytes.len());
    let mut out: Vec<usize> = Vec::new();
    let mut l: usize = 0;
    loop
        invariant
            l <= last,
            last + 1 == buffer::line_total(encode_utf8(content@)),
            out@ == visible(folded@, foldable@, l as int),
        decreases last - l,
    {
        if !is_hidden(folded, foldable, l) {
            out.push(l);
        }
        if l == last {
            return out;
        }
        l += 1;
    }
}

/// Where a caret at `caret` goes when its line is hidden: to the end of the visible line that
/// stands for it. Nowhere when its line is visible.
pub fn caret_after_fold(
    content: &str,
    folded: &HashSet<usize>,
    foldable: &[(usize, usize)],
    caret: usize,
) -> (r: Option<usize>)
    ensures
        ({
            let b = encode_utf8(content@);
            let line = buffer::line_of(b, caret as int);
            &&& r is Some <==> hidden(folded@, foldable@, line)
            &&& r matches Some(off) ==> off == buffer::line_finish(
                b,
                buffer::line_start(b, shown_line(folded@, foldable@, line)),
            ) && buffer::boundary(b, off as int)
        }),
{
    let line: usize = buffer::line_of_offset(content, caret);
    let ghost b = encode_utf8(content@);
    proof {
        let at = if caret <= b.len() {
            caret as int
        } else {
            b.len() as int
        };
        buffer::lemma_line_round_trip(b, at);
    }
    let mut s: usize = match hiding_region(folded, foldable, line) {
        Some(s) => s,
        None => {
            return None;
        },
    };
    loop
        invariant
            s < line < buffer::line_total(b),
            shown_line(folded@, foldable@, s as int) == shown_line(folded@, foldable@, line as int),
        ensures
            s == shown_line(folded@, foldable@, line as int),
        decreases s,
    {
        match hiding_region(folded, foldable, s) {
            Some(t) => {
                s = t;
            },
            None => {
                break;
            },
        }
    }
    let bytes = content.as_bytes();
    proof {
        buffer::lemma_line_start(b, s as int);
        buffer::lemma_line_boundaries(content@, buffer::line_start(b, s as int));
    }
    let start: usize = buffer::start_of_line(bytes, s);
    Some(buffer::find_line_finish(bytes, start))
}

/// The line that stands for another is visible, and not below it.
pub proof fn lemma_shown_line(folded: Set<usize>, foldable: Seq<(usize, usize)>, line: int)
    requires
        0 <= line,
    ensures
        0 <= shown_line(folded, foldable, line) <= line,
        !hidden(folded, foldable, shown_line(folded, foldable, line)),
    decreases line,
{
    lemma_hider(folded, foldable, line, 0);
    if let Some(s) = hider(folded, foldable, line, 0) {
        lemma_shown_line(folded, foldable, s as int);
    }
}

/// A caret that is pulled out of a fold stands on a visible line.
pub proof fn lemma_caret_visible(
    b: Seq<u8>,
    folded: Set<usize>,
    foldable: Seq<(usize, usize)>,
    line: int,
)
    requires
        0 <= line < buffer::line_total(b),
    ensures
        ({
            let off = buffer::line_finish(
                b,
                buffer::line_start(b, shown_line(folded, foldable, line)),
            );
            !hidden(folded, foldable, buffer::line_of(b, off))
        }),
{
    lemma_shown_line(folded, foldable, line);
    let s = shown_line(folded, foldable, line);
    buffer::lemma_line_start(b, s);
    buffer::lemma_line_finish(b, buffer::line_start(b, s));
}

/// Exactly the lines that no folded region hides are visible.
pub proof fn lemma_visible_exact(folded: Set<usize>, foldable: Seq<(usize, usize)>, n: int, line: usize)
    requires
        n <= usize::MAX + 1,
    ensures
        visible(folded, foldable, n).contains(line) <==> line < n && !hidden(
            folded,
            foldable,
            line as int,
        ),
    decreases n,
{
    if n > 0 {
        lemma_visible_exact(folded, foldable, n - 1, line);
        let r = visible(folded, foldable, n - 1);
        if !hidden(folded, foldable, n - 1) {
            let p = r.push((n - 1) as usize);
            assert(p[r.len() as int] == n - 1);
            if r.contains(line) {
                let i = choose|i: int| 0 <= i < r.len() && r[i] == line;
                assert(p[i] == line);
            }
            if p.contains(line) && line != n - 1 {
                let i = choose|i: int| 0 <= i < p.len() && p[i] == line;
                assert(r[i] == line);
            }
        }
    }
}

/// Visible lines come in ascending order.
pub proof fn lemma_visible_ascends(folded: Set<usize>, foldable: Seq<(usize, usize)>, n: int)
    requires
        n <= usize::MAX + 1,
    ensures
        forall|i: int, j: int|
            0 <= i < j < visible(folded, foldable, n).len() ==> (#[trigger] visible(
                folded,
                foldable,
                n,
            )[i]) < (#[trigger] visible(folded, foldable, n)[j]),
        forall|i: int|
            0 <= i < visible(folded, foldable, n).len() ==> (#[trigger] visible(
                folded,
                foldable,
                n,
            )[i]) < n,
    decreases n,
{
    if n > 0 {
        lemma_visible_ascends(folded, foldable, n - 1);
        let r = visible(folded, foldable, n - 1);
        let v = visible(folded, foldable, n);
        assert forall|i: int| 0 <= i < v.len() implies (#[trigger] v[i]) < n by {
            if i < r.len() {
                assert(v[i] == r[i]);
            }
        }
        assert forall|i: int, j: int| 0 <= i < j < v.len() implies (#[trigger] v[i]) < (
        #[trigger] v[j]) by {
            assert(v[i] == r[i]);
            if j < r.len() {
                assert(v[j] == r[j]);
            }
        }
    }
}

/// The first line of a region is visible unless another folded region hides it: no region
/// hides its own first line.
pub proof fn lemma_start_stays_visible(folded: Set<usize>, foldable: Seq<(usize, usize)>, s: usize)
    ensures
        !hides(folded, foldable, s, s as int),
{
}

/// With nothing folded no line is hidden.
pub proof fn lemma_nothing_folded(foldable: Seq<(usize, usize)>, line: int)
    ensures
        !hidden(Set::<usize>::empty(), foldable, line),
{
}

/// A folded region hides the lines behind its first line up to its last, and no other; the same
/// region hides nothing while it is not folded.
pub proof fn lemma_region_hides(
    folded: Set<usize>,
    foldable: Seq<(usize, usize)>,
    i: int,
    line: int,
)
    requires
        0 <= i < foldable.len(),
        forall|j: int| 0 <= j < i ==> (#[trigger] foldable[j]).0 != foldable[i].0,
    ensures
        region_end(foldable, foldable[i].0, 0) == Some(foldable[i].1),
        folded.contains(foldable[i].0) && foldable[i].0 < line && line <= foldable[i].1 ==> hidden(
            folded,
            foldable,
            line,
        ),
        hides(folded, foldable, foldable[i].0, line) <==> folded.contains(foldable[i].0)
            && foldable[i].0 < line && line <= foldable[i].1,
{
    lemma_region_found(foldable, 0, i);
    if folded.contains(foldable[i].0) && foldable[i].0 < line && line <= foldable[i].1 {
        assert(hides(folded, foldable, foldable[i].0, line));
    }
}

proof fn lemma_region_found(foldable: Seq<(usize, usize)>, from: int, i: int)
    requires
        0 <= from <= i < foldable.len(),
        forall|j: int| from <= j < i ==> (#[trigger] foldable[j]).0 != foldable[i].0,
    ensures
        region_end(foldable, foldable[i].0, from) == Some(foldable[i].1),
    decreases i - from,
{
    if from < i {
        assert(foldable[from].0 != foldable[i].0);
        lemma_region_found(foldable, from + 1, i);
    }
}

/// A line is hidden only by a region that is folded and goes over it.
pub proof fn lemma_hidden_by(folded: Set<usize>, foldable: Seq<(usize, usize)>, line: int)
    requires
        hidden(folded, foldable, line),
    ensures
        exists|i: int|
            0 <= i < foldable.len() && folded.contains((#[trigger] foldable[i]).0) && foldable[i].0
                < line && line <= foldable[i].1,
{
    let s = choose|s: usize| hides(folded, foldable, s, line);
    lemma_region_is(foldable, s, 0);
}

proof fn lemma_region_is(foldable: Seq<(usize, usize)>, s: usize, from: int)
    requires
        0 <= from,
    ensures
        region_end(foldable, s, from) matches Some(e) ==> exists|i: int|
            0 <= i < foldable.len() && (#[trigger] foldable[i]).0 == s && foldable[i].1 == e,
    decreases foldable.len() - from,
{
    if from < foldable.len() && foldable[from].0 != s {
        lemma_region_is(foldable, s, from + 1);
    }
}

} // verus!
