//! The finder: files by name, lines by content, actions and scratch languages by label.

use crate::buffer;
use crate::git::GrepHit;
use crate::operations;
use crate::operations::Debounce;
use crate::path;
use crate::porcelain;
use crate::text;
use fuzzy_matcher::skim::SkimMatcherV2;
use fuzzy_matcher::FuzzyMatcher;
use vstd::prelude::*;

verus! {

broadcast use vstd::seq_lib::group_seq_properties;

/// How many files are shown at most.
pub const FINDER_RESULT_CAP: usize = 50;

/// The shortest query, in bytes, that contents are searched for.
pub const CONTENT_MIN_QUERY: usize = 2;

/// What is looked for.
#[derive(Debug, Clone, Copy, PartialEq, Eq, Structural)]
pub enum FinderMode {
    Files,
    Content,
    Actions,
    Scratch,
}

/// The actions of the palette.
#[derive(Debug, Clone, Copy, PartialEq, Eq, Structural)]
pub enum PaletteAction {
    GoToFile,
    FindInFiles,
    NewScratch,
    CommitView,
    BrowseView,
    SelectInTree,
    Rollback,
    Settings,
    RevealInFinder,
    RevealInTerminal,
    Plugins,
    Fonts,
}

/// An action of the palette and its label.
pub struct PaletteEntry {
    pub label: String,
    pub action: PaletteAction,
}

/// What the choice of an entry comes to.
pub enum Choice {
    /// Nothing was there to choose.
    Nothing,
    File(String),
    Line { path: String, line: u32 },
    Action(PaletteAction),
    /// The scratch language at this position.
    Scratch(usize),
}

// ---------------------------------------------------------------------------
// Matching
// ---------------------------------------------------------------------------

/// The scores with which a matcher that looks at some texts one after the other says that they
/// match `pattern`.
pub uninterp spec fn fuzzy_scores(choices: Seq<Seq<char>>, pattern: Seq<char>) -> Seq<Option<i64>>;

/// The selection one up; at the top it stays.
pub open spec fn row_above(selected: int) -> int {
    if selected > 0 {
        selected - 1
    } else {
        0
    }
}

/// The selection one down among `n` entries; at the end it stays.
pub open spec fn row_below(selected: int, n: nat) -> int {
    if selected + 1 < n {
        selected + 1
    } else {
        selected
    }
}

/// A step down and one up again ends where it began, but at the end; no step leaves the entries.
pub proof fn lemma_selection_steps(selected: int, n: nat)
    requires
        0 <= selected < n,
    ensures
        0 <= row_above(selected) < n,
        0 <= row_below(selected, n) < n,
        selected + 1 < n ==> row_above(row_below(selected, n)) == selected,
        selected > 0 ==> row_below(row_above(selected), n) == selected,
        selected + 1 < n ==> row_below(selected, n) == selected + 1,
        selected > 0 ==> row_above(selected) == selected - 1,
        row_above(0) == 0,
        row_below(n - 1, n) == n - 1,
{
}

/// What the finder asks for.
pub open spec fn placeholder_of(mode: FinderMode) -> Seq<char> {
    match mode {
        FinderMode::Files => "Type to search files\u{2026}"@,
        FinderMode::Content => "Type to search file contents\u{2026}"@,
        FinderMode::Actions => "Type to search actions\u{2026}"@,
        FinderMode::Scratch => "Pick a language\u{2026}"@,
    }
}

/// Each mode asks for its own thing.
pub proof fn lemma_placeholders(mode: FinderMode)
    ensures
        placeholder_of(mode) == "Type to search files\u{2026}"@ <==> mode == FinderMode::Files,
        placeholder_of(mode) == "Type to search file contents\u{2026}"@ <==> mode
            == FinderMode::Content,
        placeholder_of(mode) == "Type to search actions\u{2026}"@ <==> mode == FinderMode::Actions,
        placeholder_of(mode) == "Pick a language\u{2026}"@ <==> mode == FinderMode::Scratch,
{
    reveal_strlit("Type to search files\u{2026}");
    reveal_strlit("Type to search file contents\u{2026}");
    reveal_strlit("Type to search actions\u{2026}");
    reveal_strlit("Pick a language\u{2026}");
    assert("Type to search files\u{2026}"@.len() == 21);
    assert("Type to search file contents\u{2026}"@.len() == 29);
    assert("Type to search actions\u{2026}"@.len() == 23);
    assert("Pick a language\u{2026}"@.len() == 16);
}

/// Two characters that match: the same one, or the same letter of ASCII if `exact` is not asked.
pub open spec fn chars_match(c: char, p: char, exact: bool) -> bool {
    c == p || (!exact && text::ascii_lower(c) == text::ascii_lower(p))
}

/// The characters of `pattern` stand in `choice` in their order.
pub open spec fn in_order(choice: Seq<char>, pattern: Seq<char>, exact: bool) -> bool
    decreases choice.len(),
{
    if pattern.len() == 0 {
        true
    } else if choice.len() == 0 {
        false
    } else if chars_match(choice.last(), pattern.last(), exact) {
        in_order(choice.drop_last(), pattern.drop_last(), exact)
    } else {
        in_order(choice.drop_last(), pattern, exact)
    }
}

/// A pattern with a capital letter of ASCII is matched with regard to case.
pub open spec fn has_capital(pattern: Seq<char>) -> bool {
    exists|i: int| 0 <= i < pattern.len() && 'A' <= #[trigger] pattern[i] <= 'Z'
}

/// `fuzzy_match` of one new `fuzzy_matcher::skim::SkimMatcherV2` on each of the texts, in their
/// order. What the matcher keeps from a text can change the score of one behind it.
///
/// Claimed: there is a result for every text, and they depend on the texts, in their order, and
/// on the pattern alone; a text has a score exactly if the characters of the pattern stand in it
/// in their order; that of the empty pattern is 0.
#[verifier::external_body]
fn fuzzy_match(choices: &Vec<String>, pattern: &str) -> (r: Vec<Option<i64>>)
    ensures
        r@ == fuzzy_scores(text::texts(choices@), pattern@),
        r@.len() == choices@.len(),
        forall|i: int|
            0 <= i < r@.len() ==> ((#[trigger] r@[i]) is Some <==> in_order(
                choices@[i]@,
                pattern@,
                has_capital(pattern@),
            )),
        pattern@.len() == 0 ==> forall|i: int|
            0 <= i < r@.len() ==> (#[trigger] r@[i]) == Some(0i64),
{
    let matcher = SkimMatcherV2::default();
    choices.iter().map(|c| matcher.fuzzy_match(c, pattern)).collect()
}

/// The scores of some labels: all have the same one for an empty query.
pub open spec fn scores_of(labels: Seq<Seq<char>>, q: Seq<char>) -> Seq<Option<i64>> {
    if q.len() == 0 {
        Seq::new(labels.len(), |i: int| Some(0i64))
    } else {
        fuzzy_scores(labels, q)
    }
}

/// The positions below `n` that are allowed, in order.
pub open spec fn allowed_below(allowed: spec_fn(int) -> bool, n: int) -> Seq<int>
    decreases n,
{
    if n <= 0 {
        Seq::empty()
    } else if allowed(n - 1) {
        allowed_below(allowed, n - 1).push(n - 1)
    } else {
        allowed_below(allowed, n - 1)
    }
}

/// The labels at some positions.
pub open spec fn labels_at(labels: Seq<Seq<char>>, positions: Seq<int>) -> Seq<Seq<char>> {
    Seq::new(positions.len(), |i: int| labels[positions[i]])
}

/// The scores that there are among the first `n`, each with its position.
pub open spec fn scored(positions: Seq<int>, scores: Seq<Option<i64>>, n: int) -> Seq<(i64, int)>
    decreases n,
{
    if n <= 0 {
        Seq::empty()
    } else {
        let r = scored(positions, scores, n - 1);
        match scores[n - 1] {
            Some(s) => r.push((s, positions[n - 1])),
            None => r,
        }
    }
}

/// `e` put behind every entry whose score is not lower.
pub open spec fn ranked_in(list: Seq<(i64, int)>, e: (i64, int)) -> Seq<(i64, int)>
    decreases list.len(),
{
    if list.len() > 0 && list.last().0 < e.0 {
        ranked_in(list.drop_last(), e).push(list.last())
    } else {
        list.push(e)
    }
}

/// The entries, higher scores first and equal ones in their own order.
pub open spec fn ranked(list: Seq<(i64, int)>) -> Seq<(i64, int)>
    decreases list.len(),
{
    if list.len() == 0 {
        Seq::empty()
    } else {
        ranked_in(ranked(list.drop_last()), list.last())
    }
}

/// The positions that have a score, the best first.
pub open spec fn ranking(positions: Seq<int>, scores: Seq<Option<i64>>) -> Seq<int> {
    let r = ranked(scored(positions, scores, positions.len() as int));
    Seq::new(r.len(), |i: int| r[i].1)
}

/// The positions of the labels that match a query, the best first. Only those that are allowed
/// are looked at.
pub open spec fn matches(
    labels: Seq<Seq<char>>,
    allowed: spec_fn(int) -> bool,
    q: Seq<char>,
) -> Seq<int> {
    let p = allowed_below(allowed, labels.len() as int);
    ranking(p, scores_of(labels_at(labels, p), q))
}

/// `found` are exactly the labels that are allowed and in which the characters of the query stand
/// in their order.
pub open spec fn found_all(
    labels: Seq<Seq<char>>,
    allowed: spec_fn(int) -> bool,
    q: Seq<char>,
    found: Seq<int>,
) -> bool {
    forall|k: int| #[trigger]
        found.contains(k) <==> 0 <= k < labels.len() && allowed(k) && in_order(
            labels[k],
            q,
            has_capital(q),
        )
}

/// Higher scores first, and equal ones by their positions.
pub open spec fn best_first(list: Seq<(i64, int)>) -> bool {
    forall|i: int, j: int|
        0 <= i < j < list.len() ==> {
            ||| (#[trigger] list[i]).0 > (#[trigger] list[j]).0
            ||| list[i].0 == list[j].0 && list[i].1 < list[j].1
        }
}

proof fn lemma_ranked_in(list: Seq<(i64, int)>, e: (i64, int))
    requires
        best_first(list),
        forall|i: int| 0 <= i < list.len() ==> (#[trigger] list[i]).1 < e.1,
    ensures
        best_first(ranked_in(list, e)),
        ranked_in(list, e).len() == list.len() + 1,
        forall|x: (i64, int)|
            #![trigger ranked_in(list, e).contains(x)]
            #![trigger list.contains(x)]
            ranked_in(list, e).contains(x) <==> (x == e || list.contains(x)),
    decreases list.len(),
{
    let r = ranked_in(list, e);
    if list.len() > 0 && list.last().0 < e.0 {
        let d = list.drop_last();
        let l = list.last();
        assert(list[list.len() - 1] == l);
        assert(best_first(d)) by {
            assert forall|i: int, j: int| 0 <= i < j < d.len() implies {
                ||| (#[trigger] d[i]).0 > (#[trigger] d[j]).0
                ||| d[i].0 == d[j].0 && d[i].1 < d[j].1
            } by {
                assert(list[i] == d[i] && list[j] == d[j]);
            }
        }
        assert forall|i: int| 0 <= i < d.len() implies (#[trigger] d[i]).1 < e.1 by {
            assert(list[i] == d[i]);
        }
        lemma_ranked_in(d, e);
        let p = ranked_in(d, e);
        assert(r =~= p.push(l));
        assert forall|i: int, j: int| 0 <= i < j < r.len() implies {
            ||| (#[trigger] r[i]).0 > (#[trigger] r[j]).0
            ||| r[i].0 == r[j].0 && r[i].1 < r[j].1
        } by {
            assert(r[i] == p[i]);
            if j < p.len() {
                assert(r[j] == p[j]);
            } else {
                assert(p.contains(p[i]));
                if p[i] != e {
                    let k = choose|k: int| 0 <= k < d.len() && d[k] == p[i];
                    assert(list[k] == p[i]);
                }
            }
        }
        assert forall|x: (i64, int)| r.contains(x) <==> (x == e || list.contains(x)) by {
            if r.contains(x) {
                let k = choose|k: int| 0 <= k < r.len() && r[k] == x;
                if k < p.len() {
                    assert(p[k] == x);
                    assert(p.contains(x));
                    if x != e {
                        let z = choose|z: int| 0 <= z < d.len() && d[z] == x;
                        assert(list[z] == x);
                    }
                }
            }
            if x == e || list.contains(x) {
                if x == l {
                    assert(r[p.len() as int] == l);
                } else {
                    if x != e {
                        let z = choose|z: int| 0 <= z < list.len() && list[z] == x;
                        assert(d[z] == x);
                        assert(d.contains(x));
                    }
                    assert(p.contains(x));
                    let k = choose|k: int| 0 <= k < p.len() && p[k] == x;
                    assert(r[k] == x);
                }
            }
        }
    } else {
        assert(r =~= list.push(e));
        assert forall|i: int, j: int| 0 <= i < j < r.len() implies {
            ||| (#[trigger] r[i]).0 > (#[trigger] r[j]).0
            ||| r[i].0 == r[j].0 && r[i].1 < r[j].1
        } by {
            assert(r[i] == list[i]);
            if j < list.len() {
                assert(r[j] == list[j]);
            } else if i < list.len() - 1 {
                assert(list[list.len() - 1] == list.last());
                assert(list[i].0 >= list[list.len() - 1].0);
            }
        }
        assert forall|x: (i64, int)| r.contains(x) <==> (x == e || list.contains(x)) by {
            assert(r[list.len() as int] == e);
            if list.contains(x) {
                let z = choose|z: int| 0 <= z < list.len() && list[z] == x;
                assert(r[z] == x);
            }
            if r.contains(x) {
                let k = choose|k: int| 0 <= k < r.len() && r[k] == x;
                if k < list.len() {
                    assert(list[k] == x);
                }
            }
        }
    }
}

pub open spec fn ascending(positions: Seq<int>) -> bool {
    forall|i: int, j: int|
        0 <= i < j < positions.len() ==> (#[trigger] positions[i]) < (#[trigger] positions[j])
}

/// The entry stands for the `k`th position.
spec fn entry_of(positions: Seq<int>, scores: Seq<Option<i64>>, e: (i64, int), k: int) -> bool {
    positions[k] == e.1 && scores[k] == Some(e.0)
}

/// The entry stands for one of the first `n` positions.
spec fn has_entry(positions: Seq<int>, scores: Seq<Option<i64>>, e: (i64, int), n: int) -> bool {
    exists|k: int| 0 <= k < n && entry_of(positions, scores, e, k)
}

proof fn lemma_scored(positions: Seq<int>, scores: Seq<Option<i64>>, n: int)
    requires
        ascending(positions),
        0 <= n <= positions.len(),
    ensures
        forall|i: int, j: int|
            0 <= i < j < scored(positions, scores, n).len() ==> (#[trigger] scored(
                positions,
                scores,
                n,
            )[i]).1 < (#[trigger] scored(positions, scores, n)[j]).1,
        forall|i: int|
            0 <= i < scored(positions, scores, n).len() ==> has_entry(
                positions,
                scores,
                #[trigger] scored(positions, scores, n)[i],
                n,
            ),
        forall|k: int|
            0 <= k < n && (#[trigger] scores[k]) is Some ==> scored(positions, scores, n).contains(
                (scores[k]->0, positions[k]),
            ),
    decreases n,
{
    if n > 0 {
        lemma_scored(positions, scores, n - 1);
        let r = scored(positions, scores, n - 1);
        let s = scored(positions, scores, n);
        assert forall|i: int| 0 <= i < s.len() implies has_entry(
            positions,
            scores,
            #[trigger] s[i],
            n,
        ) by {
            if i < r.len() {
                assert(s[i] == r[i]);
                assert(has_entry(positions, scores, r[i], n - 1));
                let k = choose|k: int| 0 <= k < n - 1 && entry_of(positions, scores, r[i], k);
                assert(entry_of(positions, scores, s[i], k));
            } else {
                assert(entry_of(positions, scores, s[i], n - 1));
            }
        }
        if scores[n - 1] is Some {
            let e = (scores[n - 1]->0, positions[n - 1]);
            assert(s =~= r.push(e));
            assert(s[r.len() as int] == e);
            assert forall|k: int| 0 <= k < n && (#[trigger] scores[k]) is Some implies s.contains(
                (scores[k]->0, positions[k]),
            ) by {
                if k < n - 1 {
                    let x = (scores[k]->0, positions[k]);
                    assert(r.contains(x));
                    let z = choose|z: int| 0 <= z < r.len() && r[z] == x;
                    assert(s[z] == x);
                }
            }
            assert forall|i: int, j: int| 0 <= i < j < s.len() implies (#[trigger] s[i]).1 < (
            #[trigger] s[j]).1 by {
                assert(s[i] == r[i]);
                if j < r.len() {
                    assert(s[j] == r[j]);
                } else {
                    let k = choose|k: int| 0 <= k < n - 1 && entry_of(positions, scores, r[i], k);
                    assert(positions[k] < positions[n - 1]);
                }
            }
        }
    }
}

proof fn lemma_ranked(list: Seq<(i64, int)>)
    requires
        forall|i: int, j: int|
            0 <= i < j < list.len() ==> (#[trigger] list[i]).1 < (#[trigger] list[j]).1,
    ensures
        best_first(ranked(list)),
        ranked(list).len() == list.len(),
        forall|x: (i64, int)|
            #![trigger ranked(list).contains(x)]
            #![trigger list.contains(x)]
            ranked(list).contains(x) <==> list.contains(x),
    decreases list.len(),
{
    if list.len() > 0 {
        let d = list.drop_last();
        let l = list.last();
        assert(list[list.len() - 1] == l);
        assert forall|i: int, j: int| 0 <= i < j < d.len() implies (#[trigger] d[i]).1 < (
        #[trigger] d[j]).1 by {
            assert(list[i] == d[i] && list[j] == d[j]);
        }
        lemma_ranked(d);
        let r = ranked(d);
        assert forall|i: int| 0 <= i < r.len() implies (#[trigger] r[i]).1 < l.1 by {
            assert(r.contains(r[i]));
            let k = choose|k: int| 0 <= k < d.len() && d[k] == r[i];
            assert(list[k] == r[i]);
        }
        lemma_ranked_in(r, l);
        assert forall|x: (i64, int)| ranked(list).contains(x) <==> list.contains(x) by {
            if list.contains(x) && x != l {
                let k = choose|k: int| 0 <= k < list.len() && list[k] == x;
                assert(d[k] == x);
                assert(d.contains(x));
            }
            if d.contains(x) {
                let k = choose|k: int| 0 <= k < d.len() && d[k] == x;
                assert(list[k] == x);
            }
        }
    }
}

/// A ranking holds exactly the positions that have a score, the higher scores first and equal
/// ones in the order of the positions.
pub proof fn lemma_ranking(positions: Seq<int>, scores: Seq<Option<i64>>)
    requires
        ascending(positions),
    ensures
        forall|k: int|
            0 <= k < positions.len() ==> (#[trigger] ranking(positions, scores).contains(
                positions[k],
            ) <==> scores[k] is Some),
        forall|p: int| #[trigger]
            ranking(positions, scores).contains(p) ==> positions.contains(p),
        forall|i: int, j: int, a: int, b: int|
            0 <= i < j < ranking(positions, scores).len() && 0 <= a < positions.len() && 0 <= b
                < positions.len() && #[trigger] ranking(positions, scores)[i] == #[trigger]
                positions[a] && #[trigger] ranking(positions, scores)[j] == #[trigger]
                positions[b] ==> {
                ||| scores[a]->0 > scores[b]->0
                ||| scores[a]->0 == scores[b]->0 && a < b
            },
{
    let n = positions.len() as int;
    let s = scored(positions, scores, n);
    lemma_scored(positions, scores, n);
    lemma_ranked(s);
    let r = ranked(s);
    let m = ranking(positions, scores);
    assert forall|i: int, a: int|
        0 <= i < r.len() && 0 <= a < n && #[trigger] r[i].1 == #[trigger] positions[a] implies (
    scores[a] == Some(r[i].0)) by {
        assert(r.contains(r[i]));
        let z = choose|z: int| 0 <= z < s.len() && s[z] == r[i];
        let k = choose|k: int| 0 <= k < n && entry_of(positions, scores, s[z], k);
        assert(positions[k] == positions[a]);
        assert(k == a);
    }
    assert forall|p: int| #[trigger] m.contains(p) implies positions.contains(p) by {
        let i = choose|i: int| 0 <= i < m.len() && m[i] == p;
        assert(r.contains(r[i]));
        let z = choose|z: int| 0 <= z < s.len() && s[z] == r[i];
        let k = choose|k: int| 0 <= k < n && entry_of(positions, scores, s[z], k);
        assert(positions[k] == p);
    }
    assert forall|k: int| 0 <= k < n implies (#[trigger] m.contains(positions[k]) <==> scores[k]
        is Some) by {
        if m.contains(positions[k]) {
            let i = choose|i: int| 0 <= i < m.len() && m[i] == positions[k];
            assert(r[i].1 == positions[k]);
        }
        if scores[k] is Some {
            let x = (scores[k]->0, positions[k]);
            assert(s.contains(x));
            assert(r.contains(x));
            let i = choose|i: int| 0 <= i < r.len() && r[i] == x;
            assert(m[i] == positions[k]);
        }
    }
    assert forall|i: int, j: int, a: int, b: int|
        0 <= i < j < m.len() && 0 <= a < n && 0 <= b < n && #[trigger] m[i] == #[trigger]
            positions[a] && #[trigger] m[j] == #[trigger] positions[b] implies {
        ||| scores[a]->0 > scores[b]->0
        ||| scores[a]->0 == scores[b]->0 && a < b
    } by {
        assert(r[i].1 == positions[a] && r[j].1 == positions[b]);
        if b < a {
            assert(positions[b] < positions[a]);
        }
    }
}

/// The positions that are allowed go up and are all there are.
proof fn lemma_allowed(allowed: spec_fn(int) -> bool, n: int)
    ensures
        ascending(allowed_below(allowed, n)),
        forall|k: int| #[trigger]
            allowed_below(allowed, n).contains(k) <==> 0 <= k < n && allowed(k),
    decreases n,
{
    if n > 0 {
        lemma_allowed(allowed, n - 1);
        let d = allowed_below(allowed, n - 1);
        let p = allowed_below(allowed, n);
        if allowed(n - 1) {
            assert forall|i: int, j: int| 0 <= i < j < p.len() implies (#[trigger] p[i]) < (
            #[trigger] p[j]) by {
                assert(p[i] == d[i]);
                assert(d.contains(d[i]));
            }
            assert forall|k: int| #[trigger] p.contains(k) <==> 0 <= k < n && allowed(k) by {
                if k == n - 1 {
                    assert(p[d.len() as int] == k);
                } else if d.contains(k) {
                    let z = choose|z: int| 0 <= z < d.len() && d[z] == k;
                    assert(p[z] == k);
                }
                if p.contains(k) && k != n - 1 {
                    let z = choose|z: int| 0 <= z < p.len() && p[z] == k;
                    assert(d[z] == k);
                    assert(d.contains(k));
                }
            }
        }
    } else {
        assert(allowed_below(allowed, n) =~= Seq::<int>::empty());
    }
}

// ---------------------------------------------------------------------------
// Ranking
// ---------------------------------------------------------------------------

pub open spec fn entries(v: Seq<(i64, usize)>) -> Seq<(i64, int)> {
    Seq::new(v.len(), |i: int| (v[i].0, v[i].1 as int))
}

/// `list` with `e` at its place, where every entry from `i` on has a lower score.
proof fn lemma_ranked_at(list: Seq<(i64, int)>, e: (i64, int), i: int)
    requires
        0 <= i <= list.len(),
        forall|j: int| i <= j < list.len() ==> (#[trigger] list[j]).0 < e.0,
        i > 0 ==> list[i - 1].0 >= e.0,
    ensures
        ranked_in(list, e) == list.insert(i, e),
    decreases list.len(),
{
    if i < list.len() {
        let d = list.drop_last();
        assert(list[list.len() - 1] == list.last());
        assert forall|j: int| i <= j < d.len() implies (#[trigger] d[j]).0 < e.0 by {
            assert(list[j] == d[j]);
        }
        if i > 0 {
            assert(d[i - 1] == list[i - 1]);
        }
        lemma_ranked_at(d, e, i);
        assert(d.insert(i, e).push(list.last()) =~= list.insert(i, e));
    } else {
        assert(list.insert(i, e) =~= list.push(e));
    }
}

/// Puts an entry behind every entry whose score is not lower.
fn rank(list: &mut Vec<(i64, usize)>, e: (i64, usize))
    ensures
        entries(final(list)@) == ranked_in(entries(old(list)@), (e.0, e.1 as int)),
{
    let ghost before = list@;
    let mut i: usize = list.len();
    while i > 0 && list[i - 1].0 < e.0
        invariant
            i <= list@.len(),
            list@ == before,
            forall|j: int| i <= j < list@.len() ==> (#[trigger] list@[j]).0 < e.0,
        decreases i,
    {
        i -= 1;
    }
    list.insert(i, e);
    proof {
        let o = entries(before);
        let m = (e.0, e.1 as int);
        assert forall|j: int| i <= j < o.len() implies (#[trigger] o[j]).0 < m.0 by {
            assert(o[j].0 == before[j].0);
        }
        lemma_ranked_at(o, m, i as int);
        assert(entries(list@) =~= o.insert(i as int, m));
    }
}

pub open spec fn all_allowed() -> spec_fn(int) -> bool {
    |i: int| true
}

/// The scores of some labels.
fn score_labels(labels: &Vec<String>, q: &str) -> (r: Vec<Option<i64>>)
    ensures
        r@ == scores_of(text::texts(labels@), q@),
        r@.len() == labels@.len(),
        forall|i: int|
            0 <= i < r@.len() ==> ((#[trigger] r@[i]) is Some <==> in_order(
                labels@[i]@,
                q@,
                has_capital(q@),
            )),
{
    if !q.is_empty() {
        return fuzzy_match(labels, q);
    }
    let mut r: Vec<Option<i64>> = Vec::new();
    while r.len() < labels.len()
        invariant
            r@.len() <= labels@.len(),
            forall|i: int| 0 <= i < r@.len() ==> (#[trigger] r@[i]) == Some(0i64),
        decreases labels@.len() - r@.len(),
    {
        r.push(Some(0));
    }
    proof {
        assert(r@ =~= scores_of(text::texts(labels@), q@));
    }
    r
}

/// The positions that have a score, the best first.
pub fn rank_scores(positions: &Vec<usize>, scores: &Vec<Option<i64>>) -> (r: Vec<usize>)
    requires
        ascending(path::ints(positions@)),
        scores@.len() == positions@.len(),
    ensures
        path::ints(r@) == ranking(path::ints(positions@), scores@),
        forall|i: int| 0 <= i < r@.len() ==> positions@.contains(#[trigger] r@[i]),
{
    let ghost ps = path::ints(positions@);
    let mut list: Vec<(i64, usize)> = Vec::new();
    let mut i: usize = 0;
    proof {
        assert(entries(list@) =~= ranked(scored(ps, scores@, 0)));
    }
    while i < positions.len()
        invariant
            i <= positions@.len(),
            scores@.len() == positions@.len(),
            ps == path::ints(positions@),
            entries(list@) == ranked(scored(ps, scores@, i as int)),
        decreases positions@.len() - i,
    {
        if let Some(s) = scores[i] {
            rank(&mut list, (s, positions[i]));
            proof {
                let a = scored(ps, scores@, i as int);
                let b = scored(ps, scores@, i + 1);
                assert(b.drop_last() =~= a);
                assert(b.last() == (s, ps[i as int]));
            }
        }
        i += 1;
    }
    let mut r: Vec<usize> = Vec::new();
    let mut k: usize = 0;
    while k < list.len()
        invariant
            k <= list@.len(),
            r@.len() == k,
            forall|i: int| 0 <= i < k ==> (#[trigger] r@[i]) == list@[i].1,
        decreases list@.len() - k,
    {
        r.push(list[k].1);
        k += 1;
    }
    proof {
        let m = ranking(ps, scores@);
        let rk = ranked(scored(ps, scores@, ps.len() as int));
        assert forall|i: int| 0 <= i < r@.len() implies (#[trigger] path::ints(r@)[i])
            == m[i] by {
            assert(entries(list@)[i] == rk[i]);
        }
        assert(path::ints(r@) =~= m);
        lemma_ranking(ps, scores@);
        assert forall|i: int| 0 <= i < r@.len() implies positions@.contains(#[trigger] r@[i]) by {
            assert(m[i] == r@[i] as int);
            assert(m.contains(m[i]));
            let z = choose|z: int| 0 <= z < ps.len() && ps[z] == m[i];
            assert(positions@[z] == r@[i]);
        }
    }
    r
}

/// The positions of the labels that match a query, the best first; `positions` are those of the
/// labels that may be shown.
fn match_labels(
    labels: &Vec<String>,
    positions: &Vec<usize>,
    q: &str,
    allowed: Ghost<spec_fn(int) -> bool>,
) -> (r: Vec<usize>)
    requires
        path::ints(positions@) == allowed_below(allowed@, labels@.len() as int),
    ensures
        path::ints(r@) == matches(text::texts(labels@), allowed@, q@),
        found_all(text::texts(labels@), allowed@, q@, path::ints(r@)),
        forall|i: int| 0 <= i < r@.len() ==> (#[trigger] r@[i]) < labels@.len(),
{
    let ghost ls = text::texts(labels@);
    let ghost ps = path::ints(positions@);
    let ghost al = allowed@;
    proof {
        lemma_allowed(al, labels@.len() as int);
    }
    let mut shown: Vec<String> = Vec::new();
    let mut i: usize = 0;
    while i < positions.len()
        invariant
            i <= positions@.len(),
            ls == text::texts(labels@),
            ps == path::ints(positions@),
            forall|k: int| #[trigger] ps.contains(k) ==> 0 <= k < labels@.len(),
            shown@.len() == i,
            forall|k: int| 0 <= k < i ==> (#[trigger] shown@[k])@ == ls[ps[k]],
        decreases positions@.len() - i,
    {
        proof {
            assert(ps[i as int] == positions@[i as int] as int);
            assert(ps.contains(ps[i as int]));
            assert(ls[ps[i as int]] == labels@[ps[i as int]]@);
        }
        shown.push(labels[positions[i]].clone());
        i += 1;
    }
    proof {
        assert(text::texts(shown@) =~= labels_at(ls, ps));
    }
    let scores = score_labels(&shown, q);
    let r = rank_scores(positions, &scores);
    proof {
        let m = path::ints(r@);
        lemma_ranking(ps, scores@);
        assert forall|k: int| #[trigger] m.contains(k) <==> 0 <= k < ls.len() && al(k) && in_order(
            ls[k],
            q@,
            has_capital(q@),
        ) by {
            if ps.contains(k) {
                let z = choose|z: int| 0 <= z < ps.len() && ps[z] == k;
                assert(ps[z] == k);
                assert(m.contains(ps[z]) <==> scores@[z] is Some);
                assert(shown@[z]@ == ls[ps[z]]);
            }
        }
        assert forall|i: int| 0 <= i < r@.len() implies (#[trigger] r@[i]) < labels@.len() by {
            let z = choose|z: int| 0 <= z < positions@.len() && positions@[z] == r@[i];
            assert(ps[z] == r@[i] as int);
            assert(ps.contains(ps[z]));
        }
    }
    r
}

/// The positions of `n` labels, all of which may be shown.
fn all_positions(n: usize) -> (r: Vec<usize>)
    ensures
        path::ints(r@) == allowed_below(all_allowed(), n as int),
{
    let mut r: Vec<usize> = Vec::new();
    let mut i: usize = 0;
    proof {
        assert(path::ints(r@) =~= allowed_below(all_allowed(), 0));
    }
    while i < n
        invariant
            i <= n,
            path::ints(r@) == allowed_below(all_allowed(), i as int),
        decreases n - i,
    {
        let ghost before = path::ints(r@);
        r.push(i);
        proof {
            assert(path::ints(r@) =~= before.push(i as int));
        }
        i += 1;
    }
    r
}

// ---------------------------------------------------------------------------
// The finder
// ---------------------------------------------------------------------------

pub struct Finder {
    pub open: bool,
    pub mode: FinderMode,
    /// Files that match.
    pub files: Vec<String>,
    /// Lines that were found.
    pub content: Vec<GrepHit>,
    /// Positions of actions, or of scratch languages, that match.
    pub actions: Vec<usize>,
    pub selected: usize,
    /// The searches that were asked for.
    pub searches: Debounce,
}

/// What there is to find.
pub struct Sources {
    pub files: Vec<String>,
    pub palette: Vec<PaletteEntry>,
    pub scratch_labels: Vec<String>,
    /// A file is open or selected.
    pub have_file: bool,
}

pub open spec fn palette_labels(p: Seq<PaletteEntry>) -> Seq<Seq<char>> {
    Seq::new(p.len(), |i: int| p[i].label@)
}

/// An action that shows a file elsewhere needs one.
pub open spec fn action_allowed(a: PaletteAction, have_file: bool) -> bool {
    have_file || !(a == PaletteAction::RevealInFinder || a == PaletteAction::RevealInTerminal)
}

/// The first files that match a query, the best first.
pub open spec fn found_files(files: Seq<Seq<char>>, q: Seq<char>) -> Seq<Seq<char>> {
    let m = matches(files, all_allowed(), q);
    let n = if m.len() < FINDER_RESULT_CAP {
        m.len()
    } else {
        FINDER_RESULT_CAP as nat
    };
    Seq::new(n, |i: int| files[m[i]])
}

/// No more files are shown than the cap, and each is one of the files.
pub proof fn lemma_found_files(files: Seq<Seq<char>>, q: Seq<char>)
    ensures
        found_files(files, q).len() <= FINDER_RESULT_CAP,
        forall|i: int|
            0 <= i < found_files(files, q).len() ==> files.contains(
                #[trigger] found_files(files, q)[i],
            ),
{
    let p = allowed_below(all_allowed(), files.len() as int);
    let m = matches(files, all_allowed(), q);
    lemma_allowed(all_allowed(), files.len() as int);
    lemma_ranking(p, scores_of(labels_at(files, p), q));
    assert forall|i: int| 0 <= i < found_files(files, q).len() implies files.contains(
        #[trigger] found_files(files, q)[i],
    ) by {
        assert(m.contains(m[i]));
        assert(p.contains(m[i]));
        assert(found_files(files, q)[i] == files[m[i]]);
    }
}

impl Finder {
    /// It is closed, and nothing was looked for.
    pub open spec fn is_new(&self) -> bool {
        &&& !self.open
        &&& self.mode == FinderMode::Files
        &&& self.files@.len() == 0
        &&& self.content@.len() == 0
        &&& self.actions@.len() == 0
        &&& self.selected == 0
        &&& self.searches@ == 0
    }

    pub fn new() -> (r: Self)
        ensures
            r.is_new(),
    {
        Finder {
            open: false,
            mode: FinderMode::Files,
            files: Vec::new(),
            content: Vec::new(),
            actions: Vec::new(),
            selected: 0,
            searches: Debounce::new(),
        }
    }

    /// How many entries there are to choose from.
    pub open spec fn count(&self) -> nat {
        match self.mode {
            FinderMode::Files => self.files@.len(),
            FinderMode::Content => self.content@.len(),
            _ => self.actions@.len(),
        }
    }

    /// Looks for a query anew. `hits` are the lines that hold it.
    pub fn recompute_finder(&mut self, q: &str, s: &Sources, hits: Vec<GrepHit>)
        ensures
            final(self).open == old(self).open,
            final(self).mode == old(self).mode,
            final(self).searches@ == old(self).searches@,
            final(self).selected == 0,
            text::texts(final(self).files@) == if old(self).mode == FinderMode::Files {
                found_files(text::texts(s.files@), q@)
            } else {
                text::texts(old(self).files@)
            },
            porcelain::hit_models(final(self).content@) == if old(self).mode
                == FinderMode::Content {
                if q@.len() == 0 {
                    Seq::empty()
                } else {
                    porcelain::hit_models(hits@)
                }
            } else {
                porcelain::hit_models(old(self).content@)
            },
            path::ints(final(self).actions@) == match old(self).mode {
                FinderMode::Actions => matches(
                    palette_labels(s.palette@),
                    |i: int| action_allowed(s.palette@[i].action, s.have_file),
                    q@,
                ),
                FinderMode::Scratch => matches(text::texts(s.scratch_labels@), all_allowed(), q@),
                _ => path::ints(old(self).actions@),
            },
            match old(self).mode {
                FinderMode::Files => ({
                    let files = text::texts(s.files@);
                    found_all(files, all_allowed(), q@, matches(files, all_allowed(), q@))
                }),
                FinderMode::Actions => found_all(
                    palette_labels(s.palette@),
                    |i: int| action_allowed(s.palette@[i].action, s.have_file),
                    q@,
                    path::ints(final(self).actions@),
                ),
                FinderMode::Scratch => found_all(
                    text::texts(s.scratch_labels@),
                    all_allowed(),
                    q@,
                    path::ints(final(self).actions@),
                ),
                FinderMode::Content => true,
            },
    {
        self.selected = 0;
        match self.mode {
            FinderMode::Files => {
                self.files = find_files(&s.files, q);
            },
            FinderMode::Actions => {
                self.actions = find_actions(&s.palette, s.have_file, q);
            },
            FinderMode::Content => {
                if q.is_empty() {
                    self.content = Vec::new();
                    proof {
                        assert(porcelain::hit_models(self.content@) =~= Seq::empty());
                    }
                } else {
                    self.content = hits;
                }
            },
            FinderMode::Scratch => {
                let positions = all_positions(s.scratch_labels.len());
                self.actions = match_labels(
                    &s.scratch_labels,
                    &positions,
                    q,
                    Ghost(all_allowed()),
                );
            },
        }
    }

    /// Contents are to be searched for what was typed. Returns what to search for, and the number
    /// of the search; nothing if that is too short or no project is open.
    pub fn schedule_content_search(&mut self, typed: &str, has_root: bool) -> (r: Option<
        (String, u64),
    >)
        ensures
            final(self).open == old(self).open,
            final(self).mode == old(self).mode,
            final(self).files@ == old(self).files@,
            final(self).actions@ == old(self).actions@,
            final(self).selected == 0,
            final(self).searches@ == operations::next_event(old(self).searches@),
            final(self).content@ == if text::blen(text::trim(typed@)) < CONTENT_MIN_QUERY {
                Seq::<GrepHit>::empty()
            } else {
                old(self).content@
            },
            match r {
                Some((q, n)) => q@ == text::trim(typed@) && text::blen(q@) >= CONTENT_MIN_QUERY
                    && has_root && n == final(self).searches@,
                None => text::blen(text::trim(typed@)) < CONTENT_MIN_QUERY || !has_root,
            },
    {
        let q = text::trim_str(typed);
        let n: u64 = self.searches.bump();
        self.selected = 0;
        if buffer::byte_len(q.as_str()) < CONTENT_MIN_QUERY {
            self.content = Vec::new();
            return None;
        }
        if !has_root {
            return None;
        }
        Some((q, n))
    }

    /// The lines that a search found are there. They are taken in unless a newer search was asked
    /// for, or the finder is closed or looks for something else. Returns whether they are.
    pub fn content_found(&mut self, n: u64, hits: Vec<GrepHit>) -> (r: bool)
        ensures
            r == (n == old(self).searches@ && old(self).open && old(self).mode
                == FinderMode::Content),
            final(self).open == old(self).open,
            final(self).mode == old(self).mode,
            final(self).files@ == old(self).files@,
            final(self).actions@ == old(self).actions@,
            final(self).selected == old(self).selected,
            final(self).searches@ == old(self).searches@,
            final(self).content@ == if r {
                hits@
            } else {
                old(self).content@
            },
    {
        if self.searches.is_latest(n) && self.open && self.mode == FinderMode::Content {
            self.content = hits;
            true
        } else {
            false
        }
    }

    /// Opens the finder.
    pub fn open_finder(&mut self, mode: FinderMode)
        ensures
            final(self).open,
            final(self).mode == mode,
            final(self).files@ == old(self).files@,
            final(self).content@ == old(self).content@,
            final(self).actions@ == old(self).actions@,
            final(self).selected == old(self).selected,
            final(self).searches@ == old(self).searches@,
    {
        self.mode = mode;
        self.open = true;
    }

    pub fn finder_close(&mut self)
        ensures
            !final(self).open,
            final(self).mode == old(self).mode,
            final(self).files@ == old(self).files@,
            final(self).content@ == old(self).content@,
            final(self).actions@ == old(self).actions@,
            final(self).selected == old(self).selected,
            final(self).searches@ == old(self).searches@,
    {
        self.open = false;
    }

    /// Selects the entry above, if there is one.
    pub fn finder_up(&mut self)
        ensures
            final(self).open == old(self).open,
            final(self).mode == old(self).mode,
            final(self).files@ == old(self).files@,
            final(self).content@ == old(self).content@,
            final(self).actions@ == old(self).actions@,
            final(self).searches@ == old(self).searches@,
            final(self).selected == row_above(old(self).selected as int),
    {
        if self.selected > 0 {
            self.selected -= 1;
        }
    }

    /// Selects the entry below, if there is one.
    pub fn finder_down(&mut self)
        ensures
            final(self).open == old(self).open,
            final(self).mode == old(self).mode,
            final(self).files@ == old(self).files@,
            final(self).content@ == old(self).content@,
            final(self).actions@ == old(self).actions@,
            final(self).searches@ == old(self).searches@,
            final(self).selected == row_below(old(self).selected as int, old(self).count()),
    {
        let len: usize = match self.mode {
            FinderMode::Files => self.files.len(),
            FinderMode::Content => self.content.len(),
            _ => self.actions.len(),
        };
        if self.selected < len && len - self.selected > 1 {
            self.selected += 1;
        }
    }

    /// Chooses the selected entry, which closes the finder.
    pub fn finder_confirm(&mut self, s: &Sources) -> (r: Choice)
        requires
            old(self).mode == FinderMode::Actions ==> forall|i: int|
                0 <= i < old(self).actions@.len() ==> (#[trigger] old(self).actions@[i])
                    < s.palette@.len(),
        ensures
            !final(self).open,
            final(self).mode == old(self).mode,
            final(self).files@ == old(self).files@,
            final(self).content@ == old(self).content@,
            final(self).actions@ == old(self).actions@,
            final(self).selected == old(self).selected,
            final(self).searches@ == old(self).searches@,
            r is Nothing <==> old(self).selected >= old(self).count(),
            old(self).selected < old(self).count() ==> {
                let i = old(self).selected as int;
                match old(self).mode {
                    FinderMode::Files => r matches Choice::File(p) && p@ == old(self).files@[i]@,
                    FinderMode::Content => r matches Choice::Line { path, line } && path@ == old(
                        self,
                    ).content@[i].path@ && line == old(self).content@[i].line,
                    FinderMode::Actions => r == Choice::Action(
                        s.palette@[old(self).actions@[i] as int].action,
                    ),
                    FinderMode::Scratch => r == Choice::Scratch(old(self).actions@[i]),
                }
            },
    {
        self.open = false;
        let i: usize = self.selected;
        match self.mode {
            FinderMode::Files => if i < self.files.len() {
                Choice::File(self.files[i].clone())
            } else {
                Choice::Nothing
            },
            FinderMode::Content => if i < self.content.len() {
                Choice::Line { path: self.content[i].path.clone(), line: self.content[i].line }
            } else {
                Choice::Nothing
            },
            FinderMode::Actions => if i < self.actions.len() {
                Choice::Action(s.palette[self.actions[i]].action)
            } else {
                Choice::Nothing
            },
            FinderMode::Scratch => if i < self.actions.len() {
                Choice::Scratch(self.actions[i])
            } else {
                Choice::Nothing
            },
        }
    }
}

/// The first files that match a query, the best first.
pub fn find_files(files: &Vec<String>, q: &str) -> (r: Vec<String>)
    ensures
        text::texts(r@) == found_files(text::texts(files@), q@),
        found_all(
            text::texts(files@),
            all_allowed(),
            q@,
            matches(text::texts(files@), all_allowed(), q@),
        ),
{
    let ghost fs = text::texts(files@);
    let positions = all_positions(files.len());
    let m = match_labels(files, &positions, q, Ghost(all_allowed()));
    proof {
        assert(path::ints(m@).len() == m@.len());
    }
    let mut r: Vec<String> = Vec::new();
    let mut k: usize = 0;
    while k < m.len() && k < FINDER_RESULT_CAP
        invariant
            k <= m@.len(),
            k <= FINDER_RESULT_CAP,
            fs == text::texts(files@),
            path::ints(m@) == matches(fs, all_allowed(), q@),
            forall|i: int| 0 <= i < m@.len() ==> (#[trigger] m@[i]) < files@.len(),
            r@.len() == k,
            forall|i: int| 0 <= i < k ==> (#[trigger] r@[i])@ == fs[m@[i] as int],
        decreases m@.len() - k,
    {
        proof {
            assert(fs[m@[k as int] as int] == files@[m@[k as int] as int]@);
        }
        r.push(files[m[k]].clone());
        k += 1;
    }
    proof {
        let want = found_files(fs, q@);
        assert(text::texts(r@).len() == want.len());
        assert forall|i: int| 0 <= i < want.len() implies text::texts(r@)[i] == want[i] by {
            assert(path::ints(m@)[i] == m@[i] as int);
            assert(r@[i]@ == fs[m@[i] as int]);
        }
        assert(text::texts(r@) =~= want);
    }
    r
}

/// The positions of the actions that match a query, the best first.
pub fn find_actions(palette: &Vec<PaletteEntry>, have_file: bool, q: &str) -> (r: Vec<usize>)
    ensures
        path::ints(r@) == matches(
            palette_labels(palette@),
            |i: int| action_allowed(palette@[i].action, have_file),
            q@,
        ),
        found_all(
            palette_labels(palette@),
            |i: int| action_allowed(palette@[i].action, have_file),
            q@,
            path::ints(r@),
        ),
        forall|i: int| 0 <= i < r@.len() ==> (#[trigger] r@[i]) < palette@.len(),
{
    let ghost al = |i: int| action_allowed(palette@[i].action, have_file);
    let mut labels: Vec<String> = Vec::new();
    let mut positions: Vec<usize> = Vec::new();
    let mut i: usize = 0;
    proof {
        assert(path::ints(positions@) =~= allowed_below(al, 0));
    }
    while i < palette.len()
        invariant
            i <= palette@.len(),
            al == (|i: int| action_allowed(palette@[i].action, have_file)),
            labels@.len() == i,
            forall|k: int| 0 <= k < i ==> (#[trigger] labels@[k])@ == palette@[k].label@,
            path::ints(positions@) == allowed_below(al, i as int),
        decreases palette@.len() - i,
    {
        let a = palette[i].action;
        labels.push(palette[i].label.clone());
        if have_file || !(a == PaletteAction::RevealInFinder || a
            == PaletteAction::RevealInTerminal) {
            let ghost before = path::ints(positions@);
            positions.push(i);
            proof {
                assert(path::ints(positions@) =~= before.push(i as int));
            }
        }
        i += 1;
    }
    proof {
        assert(text::texts(labels@) =~= palette_labels(palette@));
    }
    match_labels(&labels, &positions, q, Ghost(al))
}

/// What the query line says while it is empty.
pub fn placeholder(mode: FinderMode) -> (r: &'static str)
    ensures
        r@ == placeholder_of(mode),
{
    match mode {
        FinderMode::Files => "Type to search files\u{2026}",
        FinderMode::Content => "Type to search file contents\u{2026}",
        FinderMode::Actions => "Type to search actions\u{2026}",
        FinderMode::Scratch => "Pick a language\u{2026}",
    }
}

/// The characters of the pattern stand in the text at the given places, from left to right.
pub open spec fn embeds(choice: Seq<char>, pattern: Seq<char>, exact: bool, at: Seq<int>) -> bool {
    &&& at.len() == pattern.len()
    &&& forall|i: int|
        0 <= i < at.len() ==> 0 <= #[trigger] at[i] < choice.len() && chars_match(
            choice[at[i]],
            pattern[i],
            exact,
        )
    &&& forall|i: int, j: int| 0 <= i < j < at.len() ==> #[trigger] at[i] < #[trigger] at[j]
}

/// A pattern matches a text if and only if its characters can be found in the text from left to
/// right, each behind the one before it.
pub proof fn lemma_in_order_places(choice: Seq<char>, pattern: Seq<char>, exact: bool)
    ensures
        in_order(choice, pattern, exact) <==> exists|at: Seq<int>|
            embeds(choice, pattern, exact, at),
{
    if in_order(choice, pattern, exact) {
        let at = lemma_places(choice, pattern, exact);
    }
    if exists|at: Seq<int>| embeds(choice, pattern, exact, at) {
        let at = choose|at: Seq<int>| embeds(choice, pattern, exact, at);
        lemma_places_match(choice, pattern, exact, at);
    }
}

proof fn lemma_places(choice: Seq<char>, pattern: Seq<char>, exact: bool) -> (at: Seq<int>)
    requires
        in_order(choice, pattern, exact),
    ensures
        embeds(choice, pattern, exact, at),
    decreases choice.len(),
{
    if pattern.len() == 0 {
        Seq::empty()
    } else if chars_match(choice.last(), pattern.last(), exact) {
        let before = lemma_places(choice.drop_last(), pattern.drop_last(), exact);
        let at = before.push(choice.len() - 1);
        assert forall|i: int| 0 <= i < at.len() implies 0 <= #[trigger] at[i] < choice.len()
            && chars_match(choice[at[i]], pattern[i], exact) by {
            if i < before.len() {
                assert(at[i] == before[i]);
                assert(choice.drop_last()[before[i]] == choice[before[i]]);
            }
        }
        assert forall|i: int, j: int| 0 <= i < j < at.len() implies #[trigger] at[i]
            < #[trigger] at[j] by {
            assert(at[i] == before[i]);
            if j < before.len() {
                assert(at[j] == before[j]);
            }
        }
        at
    } else {
        let at = lemma_places(choice.drop_last(), pattern, exact);
        assert forall|i: int| 0 <= i < at.len() implies 0 <= #[trigger] at[i] < choice.len()
            && chars_match(choice[at[i]], pattern[i], exact) by {
            assert(choice.drop_last()[at[i]] == choice[at[i]]);
        }
        at
    }
}

proof fn lemma_places_match(choice: Seq<char>, pattern: Seq<char>, exact: bool, at: Seq<int>)
    requires
        embeds(choice, pattern, exact, at),
    ensures
        in_order(choice, pattern, exact),
    decreases choice.len(),
{
    if pattern.len() > 0 {
        let last = at[at.len() - 1];
        let d = choice.drop_last();
        if chars_match(choice.last(), pattern.last(), exact) {
            let before = at.drop_last();
            assert forall|i: int| 0 <= i < before.len() implies 0 <= #[trigger] before[i] < d.len()
                && chars_match(d[before[i]], pattern.drop_last()[i], exact) by {
                assert(before[i] == at[i]);
                assert(at[i] < last);
            }
            lemma_places_match(d, pattern.drop_last(), exact, before);
        } else {
            assert(chars_match(choice[last], pattern[at.len() - 1], exact));
            assert forall|i: int| 0 <= i < at.len() implies 0 <= #[trigger] at[i] < d.len()
                && chars_match(d[at[i]], pattern[i], exact) by {
                assert(at[i] <= last);
            }
            lemma_places_match(d, pattern, exact, at);
        }
    }
}

/// Case counts if and only if the pattern has a capital letter.
pub proof fn lemma_case(c: char, p: char, pattern: Seq<char>)
    ensures
        chars_match(c, p, true) <==> c == p,
        chars_match(c, p, false) <==> text::ascii_lower(c) == text::ascii_lower(p),
        has_capital(pattern.push(p)) <==> has_capital(pattern) || 'A' <= p <= 'Z',
        !has_capital(Seq::empty()),
{
    let q = pattern.push(p);
    if has_capital(q) {
        let i = choose|i: int| 0 <= i < q.len() && 'A' <= #[trigger] q[i] <= 'Z';
        if i < pattern.len() {
            assert(pattern[i] == q[i]);
        }
    }
    if has_capital(pattern) {
        let i = choose|i: int| 0 <= i < pattern.len() && 'A' <= #[trigger] pattern[i] <= 'Z';
        assert(q[i] == pattern[i]);
    }
    assert(q[pattern.len() as int] == p);
}

/// Without a file only the actions that show a file elsewhere are out.
pub proof fn lemma_action_allowed(a: PaletteAction)
    ensures
        action_allowed(a, true),
        !action_allowed(a, false) <==> a == PaletteAction::RevealInFinder || a
            == PaletteAction::RevealInTerminal,
{
}

/// The allowed positions are exactly those, in order.
pub proof fn lemma_allowed_below(allowed: spec_fn(int) -> bool, n: int)
    requires
        0 <= n,
    ensures
        ascending(allowed_below(allowed, n)),
        forall|k: int| #[trigger]
            allowed_below(allowed, n).contains(k) <==> 0 <= k < n && allowed(k),
        forall|i: int|
            0 <= i < allowed_below(allowed, n).len() ==> 0 <= #[trigger] allowed_below(
                allowed,
                n,
            )[i] < n,
    decreases n,
{
    if n > 0 {
        lemma_allowed_below(allowed, n - 1);
        let d = allowed_below(allowed, n - 1);
        let r = allowed_below(allowed, n);
        assert forall|k: int| #[trigger] r.contains(k) <==> 0 <= k < n && allowed(k) by {
            if r.contains(k) {
                let i = choose|i: int| 0 <= i < r.len() && r[i] == k;
                if i < d.len() {
                    assert(d[i] == k);
                    assert(d.contains(k));
                }
            }
            if 0 <= k < n && allowed(k) {
                if k < n - 1 {
                    assert(d.contains(k));
                    let i = choose|i: int| 0 <= i < d.len() && d[i] == k;
                    assert(r[i] == k);
                } else {
                    assert(r[r.len() - 1] == k);
                }
            }
        }
        assert forall|i: int| 0 <= i < r.len() implies 0 <= #[trigger] r[i] < n by {
            if i < d.len() {
                assert(r[i] == d[i]);
            }
        }
        assert forall|i: int, j: int| 0 <= i < j < r.len() implies (#[trigger] r[i])
            < #[trigger] r[j] by {
            assert(r[i] == d[i]);
            if j < d.len() {
                assert(r[j] == d[j]);
            }
        }
    }
}

/// An empty query finds all that is allowed, as it stands.
pub proof fn lemma_empty_query(labels: Seq<Seq<char>>, allowed: spec_fn(int) -> bool)
    ensures
        matches(labels, allowed, Seq::empty()) == allowed_below(allowed, labels.len() as int),
{
    let p = allowed_below(allowed, labels.len() as int);
    let s = scores_of(labels_at(labels, p), Seq::empty());
    let n = p.len() as int;
    lemma_equal_scores(p, s, n);
    lemma_equal_ranked(scored(p, s, n));
    assert(matches(labels, allowed, Seq::empty()) =~= p);
}

proof fn lemma_equal_scores(p: Seq<int>, s: Seq<Option<i64>>, n: int)
    requires
        0 <= n <= p.len(),
        s.len() == p.len(),
        forall|i: int| 0 <= i < s.len() ==> #[trigger] s[i] == Some(0i64),
    ensures
        scored(p, s, n) == Seq::new(n as nat, |i: int| (0i64, p[i])),
    decreases n,
{
    if n > 0 {
        lemma_equal_scores(p, s, n - 1);
        assert(s[n - 1] == Some(0i64));
        assert(scored(p, s, n) =~= Seq::new(n as nat, |i: int| (0i64, p[i])));
    } else {
        assert(scored(p, s, n) =~= Seq::new(n as nat, |i: int| (0i64, p[i])));
    }
}

proof fn lemma_equal_ranked(list: Seq<(i64, int)>)
    requires
        forall|i: int| 0 <= i < list.len() ==> (#[trigger] list[i]).0 == 0,
    ensures
        ranked(list) == list,
    decreases list.len(),
{
    if list.len() > 0 {
        let d = list.drop_last();
        assert forall|i: int| 0 <= i < d.len() implies (#[trigger] d[i]).0 == 0 by {
            assert(list[i].0 == 0);
        }
        lemma_equal_ranked(d);
        assert(list[list.len() - 1].0 == 0);
        if d.len() > 0 {
            assert(d[d.len() - 1].0 == 0);
        }
        assert(d.push(list.last()) =~= list);
    } else {
        assert(ranked(list) =~= list);
    }
}

/// As many files are shown as match, but never more than 50: the best of them, in their order.
/// The contents of files are not searched for less than two bytes.
pub proof fn lemma_files_shown(files: Seq<Seq<char>>, q: Seq<char>)
    ensures
        ({
            let m = matches(files, all_allowed(), q);
            let f = found_files(files, q);
            &&& m.len() <= 50 ==> f.len() == m.len()
            &&& m.len() > 50 ==> f.len() == 50
            &&& forall|i: int| 0 <= i < f.len() ==> #[trigger] f[i] == files[m[i]]
        }),
        CONTENT_MIN_QUERY == 2,
{
}

} // verus!
