//! The colored runs of one line of text.

use crate::highlight;
use crate::highlight::{Span, SynColor};
use crate::text;
use vstd::prelude::*;

verus! {

broadcast use vstd::seq_lib::group_seq_properties;

/// A stretch of a line in one color.
#[derive(Debug, Clone, Copy, PartialEq, Eq, Structural)]
pub struct Run {
    /// How many bytes it covers.
    pub len: usize,
    pub color: SynColor,
}

pub open spec fn runs_view(v: Seq<Run>) -> Seq<(int, SynColor)> {
    Seq::new(v.len(), |i: int| (v[i].len as int, v[i].color))
}

/// The runs of the bytes `a..b` from byte `at` on, given the spans from position `i` on: each
/// span that reaches into the line gives a run, and what lies between is in the default color.
pub open spec fn runs_from(
    spans: Seq<highlight::SpanModel>,
    i: int,
    at: int,
    a: int,
    b: int,
    default: SynColor,
) -> Seq<(int, SynColor)>
    decreases spans.len() - i,
{
    if i < 0 || i >= spans.len() || spans[i].0 >= b {
        if at < b {
            seq![(b - at, default)]
        } else {
            Seq::empty()
        }
    } else {
        let (s, e, color) = spans[i];
        let x = if s > a {
            s
        } else {
            a
        };
        let y = if e < b {
            e
        } else {
            b
        };
        let gap = if x > at {
            seq![(x - at, default)]
        } else {
            Seq::empty()
        };
        if y > x {
            gap.push((y - x, color)) + runs_from(spans, i + 1, y, a, b, default)
        } else {
            gap + runs_from(spans, i + 1, at, a, b, default)
        }
    }
}

/// The runs of the bytes `a..b`; a line without any gets one empty run.
pub open spec fn runs_of(
    spans: Seq<highlight::SpanModel>,
    a: int,
    b: int,
    default: SynColor,
) -> Seq<(int, SynColor)> {
    let r = runs_from(spans, 0, a, a, b, default);
    if r.len() == 0 {
        seq![(0, default)]
    } else {
        r
    }
}

/// The bytes that the runs cover together.
pub open spec fn runs_len(r: Seq<(int, SynColor)>) -> int
    decreases r.len(),
{
    if r.len() == 0 {
        0
    } else {
        r[0].0 + runs_len(r.drop_first())
    }
}

/// The color of byte `p` of the runs.
pub open spec fn run_color(r: Seq<(int, SynColor)>, p: int) -> Option<SynColor>
    decreases r.len(),
{
    if r.len() == 0 {
        None
    } else if p < r[0].0 {
        Some(r[0].1)
    } else {
        run_color(r.drop_first(), p - r[0].0)
    }
}

/// The color of byte `p` of the text: that of the first span from position `i` on that holds
/// it, or the default.
pub open spec fn span_color(
    spans: Seq<highlight::SpanModel>,
    i: int,
    p: int,
    default: SynColor,
) -> SynColor
    decreases spans.len() - i,
{
    if i < 0 || i >= spans.len() {
        default
    } else if spans[i].0 <= p < spans[i].1 {
        spans[i].2
    } else {
        span_color(spans, i + 1, p, default)
    }
}

/// Spans that end before the line give no run.
proof fn lemma_skip_spans(
    spans: Seq<highlight::SpanModel>,
    i: int,
    first: int,
    a: int,
    b: int,
    default: SynColor,
)
    requires
        highlight::spans_ordered(spans),
        0 <= i <= first <= spans.len(),
        a <= b,
        forall|k: int| i <= k < first ==> (#[trigger] spans[k]).1 <= a,
    ensures
        runs_from(spans, i, a, a, b, default) == runs_from(spans, first, a, a, b, default),
    decreases first - i,
{
    if i < first {
        assert(spans[i].0 <= spans[i].1 <= a);
        lemma_skip_spans(spans, i + 1, first, a, b, default);
        if spans[i].0 >= b {
            // Then the line is empty and no later span starts before its end.
            if first < spans.len() {
                assert(spans[i].1 <= spans[first].0);
            }
        } else {
            let r = runs_from(spans, i + 1, a, a, b, default);
            assert(Seq::<(int, SynColor)>::empty() + r == r);
        }
    }
}

/// The runs of a line: its length in bytes is covered exactly, byte by byte in the color of
/// the span that holds it.
pub proof fn lemma_runs_cover(
    spans: Seq<highlight::SpanModel>,
    i: int,
    at: int,
    a: int,
    b: int,
    default: SynColor,
    p: int,
)
    requires
        highlight::spans_ordered(spans),
        highlight::spans_nonempty(spans),
        0 <= i <= spans.len(),
        a <= at <= b,
        forall|k: int| i <= k < spans.len() ==> at <= (#[trigger] spans[k]).0 || at == a,
    ensures
        runs_len(runs_from(spans, i, at, a, b, default)) == b - at,
        at <= p < b ==> run_color(runs_from(spans, i, at, a, b, default), p - at) == Some(
            span_color(spans, i, p, default),
        ),
    decreases spans.len() - i,
{
    reveal_with_fuel(runs_len, 3);
    reveal_with_fuel(run_color, 3);
    let r = runs_from(spans, i, at, a, b, default);
    if i >= spans.len() || spans[i].0 >= b {
        if at < b {
            assert(r.drop_first() == Seq::<(int, SynColor)>::empty());
            assert(runs_len(r.drop_first()) == 0);
        }
        if at <= p < b && i < spans.len() {
            lemma_no_span_before(spans, i, p, default);
        }
    } else {
        let (s, e, color) = spans[i];
        let x = if s > a {
            s
        } else {
            a
        };
        let y = if e < b {
            e
        } else {
            b
        };
        assert(at <= spans[i].0 || at == a);
        if y > x {
            assert forall|k: int| i + 1 <= k < spans.len() implies y <= (#[trigger] spans[k]).0 || y
                == a by {
                assert(spans[i].1 <= spans[k].0);
            }
            lemma_runs_cover(spans, i + 1, y, a, b, default, p);
            let rest = runs_from(spans, i + 1, y, a, b, default);
            let own = seq![(y - x, color)] + rest;
            assert(own.drop_first() == rest);
            assert(own[0] == (y - x, color));
            if x > at {
                assert(r == seq![(x - at, default)] + own);
                assert(r.drop_first() == own);
                assert(r[0] == (x - at, default));
            } else {
                assert(r == own);
            }
            if at <= p < x {
                lemma_no_span_before(spans, i, p, default);
            }
        } else {
            // The span ends before the line starts.
            assert forall|k: int| i + 1 <= k < spans.len() implies at <= (#[trigger] spans[k]).0 || at
                == a by {
                assert(spans[i].1 <= spans[k].0);
            }
            lemma_runs_cover(spans, i + 1, at, a, b, default, p);
            let rest = runs_from(spans, i + 1, at, a, b, default);
            assert(x == a);
            assert(Seq::<(int, SynColor)>::empty() + rest == rest);
        }
    }
}

/// A byte before the start of span `i` is in no span from there on.
proof fn lemma_no_span_before(
    spans: Seq<highlight::SpanModel>,
    i: int,
    p: int,
    default: SynColor,
)
    requires
        highlight::spans_ordered(spans),
        0 <= i < spans.len(),
        p < spans[i].0,
    ensures
        span_color(spans, i, p, default) == default,
    decreases spans.len() - i,
{
    reveal_with_fuel(span_color, 2);
    if i + 1 < spans.len() {
        assert(spans[i].0 <= spans[i].1);
        assert(spans[i].1 <= spans[i + 1].0);
        lemma_no_span_before(spans, i + 1, p, default);
    }
}

/// The first span that ends after `a`, by binary search.
fn first_reaching(spans: &[Span], a: usize) -> (r: usize)
    requires
        highlight::spans_ordered(highlight::spans_view(spans@)),
    ensures
        r <= spans@.len(),
        forall|k: int| 0 <= k < r ==> (#[trigger] highlight::spans_view(spans@)[k]).1 <= a,
        r < spans@.len() ==> highlight::spans_view(spans@)[r as int].1 > a,
{
    let ghost sv = highlight::spans_view(spans@);
    let mut lo: usize = 0;
    let mut hi: usize = spans.len();
    while lo < hi
        invariant
            lo <= hi <= spans@.len(),
            sv == highlight::spans_view(spans@),
            highlight::spans_ordered(sv),
            forall|k: int| 0 <= k < lo ==> (#[trigger] sv[k]).1 <= a,
            forall|k: int| hi <= k < sv.len() ==> (#[trigger] sv[k]).1 > a,
        decreases hi - lo,
    {
        let mid: usize = lo + (hi - lo) / 2;
        if spans[mid].end <= a {
            proof {
                assert forall|k: int| 0 <= k < mid + 1 implies (#[trigger] sv[k]).1 <= a by {
                    if k < mid {
                        assert(sv[k].1 <= sv[mid as int].0);
                        assert(sv[mid as int].0 <= sv[mid as int].1);
                    }
                }
            }
            lo = mid + 1;
        } else {
            proof {
                assert forall|k: int| mid <= k < sv.len() implies (#[trigger] sv[k]).1 > a by {
                    if mid < k {
                        assert(sv[mid as int].1 <= sv[k].0);
                        assert(sv[k].0 <= sv[k].1);
                    }
                }
            }
            hi = mid;
        }
    }
    lo
}

/// The runs that cover one line, colored by the spans that reach into it.
///
/// The spans are in order, so the first one that matters is found by binary search and the
/// walk stops past the end of the line.
pub fn line_runs(line: &str, line_start: usize, spans: &[Span], default: SynColor) -> (r: Vec<Run>)
    requires
        highlight::spans_ordered(highlight::spans_view(spans@)),
        line_start + text::blen(line@) <= usize::MAX,
    ensures
        runs_view(r@) == runs_of(
            highlight::spans_view(spans@),
            line_start as int,
            line_start + text::blen(line@),
            default,
        ),
        highlight::spans_nonempty(highlight::spans_view(spans@)) ==> runs_len(runs_view(r@))
            == text::blen(line@),
{
    let ghost sv = highlight::spans_view(spans@);
    let line_end: usize = line_start + line.as_bytes().len();
    let mut runs: Vec<Run> = Vec::new();
    let mut at: usize = line_start;
    let first: usize = first_reaching(spans, line_start);
    let mut i: usize = first;
    proof {
        lemma_skip_spans(sv, 0, first as int, line_start as int, line_end as int, default);
        assert(runs_view(runs@) == Seq::<(int, SynColor)>::empty());
        let t = runs_from(sv, i as int, at as int, line_start as int, line_end as int, default);
        assert(Seq::<(int, SynColor)>::empty() + t == t);
    }
    while i < spans.len() && spans[i].start < line_end
        invariant
            i <= spans@.len(),
            sv == highlight::spans_view(spans@),
            highlight::spans_ordered(sv),
            line_start <= at <= line_end,
            runs_view(runs@) + runs_from(
                sv,
                i as int,
                at as int,
                line_start as int,
                line_end as int,
                default,
            ) == runs_from(
                sv,
                0,
                line_start as int,
                line_start as int,
                line_end as int,
                default,
            ),
        decreases spans@.len() - i,
    {
        let s = spans[i];
        let ghost before = runs_view(runs@);
        let ghost at0 = at as int;
        proof {
            assert(sv[i as int] == (s.start as int, s.end as int, s.color));
        }
        let a: usize = if s.start > line_start {
            s.start
        } else {
            line_start
        };
        let b: usize = if s.end < line_end {
            s.end
        } else {
            line_end
        };
        let ghost mut gap: Seq<(int, SynColor)> = Seq::empty();
        if a > at {
            runs.push(Run { len: a - at, color: default });
            proof {
                gap = seq![(a - at, default)];
            }
        }
        proof {
            assert(runs_view(runs@) =~= before + gap);
        }
        if b > a {
            runs.push(Run { len: b - a, color: s.color });
            proof {
                assert(runs_view(runs@) =~= before + gap.push((b - a, s.color)));
            }
            at = b;
        }
        i += 1;
        proof {
            let rest = runs_from(
                sv,
                i as int,
                at as int,
                line_start as int,
                line_end as int,
                default,
            );
            if b > a {
                assert((before + gap.push((b - a, s.color))) + rest == before + (gap.push(
                    (b - a, s.color),
                ) + rest));
            } else {
                assert((before + gap) + rest == before + (gap + rest));
            }
        }
    }
    let ghost before = runs_view(runs@);
    if at < line_end {
        runs.push(Run { len: line_end - at, color: default });
        proof {
            assert(runs_view(runs@) =~= before + seq![(line_end - at, default)]);
        }
    } else {
        proof {
            assert(before + Seq::<(int, SynColor)>::empty() == before);
        }
    }
    if runs.len() == 0 {
        runs.push(Run { len: 0, color: default });
        proof {
            assert(runs_view(runs@) =~= seq![(0int, default)]);
        }
    }
    proof {
        if highlight::spans_nonempty(sv) {
            lemma_runs_cover(
                sv,
                0,
                line_start as int,
                line_start as int,
                line_end as int,
                default,
                line_start as int,
            );
            if runs_from(sv, 0, line_start as int, line_start as int, line_end as int, default).len()
                == 0 {
                let one = seq![(0int, default)];
                assert(one.drop_first() == Seq::<(int, SynColor)>::empty());
                assert(runs_len(one.drop_first()) == 0);
            }
        }
    }
    runs
}

/// A line that has no byte to color still has one run, an empty one in the default color; every
/// other line has the runs that cover it.
pub proof fn lemma_runs_of(
    spans: Seq<highlight::SpanModel>,
    a: int,
    b: int,
    default: SynColor,
)
    ensures
        runs_of(spans, a, b, default).len() > 0,
        runs_from(spans, 0, a, a, b, default).len() > 0 ==> runs_of(spans, a, b, default)
            == runs_from(spans, 0, a, a, b, default),
        runs_from(spans, 0, a, a, b, default).len() == 0 ==> runs_of(spans, a, b, default) == seq![
            (0int, default),
        ],
        spans.len() == 0 && a < b ==> runs_of(spans, a, b, default) == seq![(b - a, default)],
{
}

} // verus!
