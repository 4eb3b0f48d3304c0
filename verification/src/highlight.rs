//! Syntax-highlight spans for one whole file revision: a flat, sorted,
//! non-overlapping list of byte-span/class-path pairs, and the gap-filling
//! lookup that slices them against a query span.
use vstd::prelude::*;

use crate::text::{split_char, split_on, str_eq};

verus! {

/// The languages a file can be highlighted as.
#[derive(Debug, Clone, Copy, PartialEq, Eq, Structural)]
pub enum HighlightLanguage {
    C,
    Cpp,
    CSharp,
    Css,
    Html,
    Java,
    Javascript,
    Jsx,
    Json,
    Lua,
    Markdown,
    Php,
    Python,
    Ruby,
    Rust,
    Swift,
    Toml,
    Typescript,
    Tsx,
    Yaml,
    Plaintext,
}

/// One highlighted span: `[start, end)` char offsets into the file text,
/// and the scope class path ordered general to specific.
pub type HighlightSpan = (usize, usize, Vec<String>);

/// The mathematical shape of a span: offsets and class path.
pub type SpanView = (usize, usize, Seq<Seq<char>>);

/// One piece of a sliced query span: offsets, and the class path of the
/// highlight span it falls in, or `None` for a gap.
pub type RangePiece = (usize, usize, Option<Vec<String>>);

pub type PieceView = (usize, usize, Option<Seq<Seq<char>>>);

/// The highlight spans of one file revision, sorted and non-overlapping.
/// Offsets count characters of the file text; the byte offsets the
/// highlighter reports are converted when the spans are collected.
pub struct Highlights(pub Vec<HighlightSpan>);

pub open spec fn span_view(s: HighlightSpan) -> SpanView {
    (s.0, s.1, s.2.deep_view())
}

pub open spec fn piece_view(p: RangePiece) -> PieceView {
    (
        p.0,
        p.1,
        match p.2 {
            Some(c) => Some(c.deep_view()),
            None => None,
        },
    )
}

/// Spans are non-empty, sorted, and pairwise non-overlapping.
pub open spec fn wf_spans(spans: Seq<SpanView>) -> bool {
    &&& forall|i: int| 0 <= i < spans.len() ==> (#[trigger] spans[i]).0 < spans[i].1
    &&& forall|i: int| 0 <= i < spans.len() - 1 ==> (#[trigger] spans[i]).1 <= spans[i + 1].0
}

impl Highlights {
    pub open spec fn view(self) -> Seq<SpanView> {
        self.0@.map_values(|s: HighlightSpan| span_view(s))
    }

    pub open spec fn wf(self) -> bool {
        wf_spans(self.view())
    }
}

/// Whether a highlight span has any position in common with the query
/// span `[qstart, qend)`.
pub open spec fn span_intersects(sp: SpanView, qstart: usize, qend: usize) -> bool {
    sp.0 < qend && sp.1 > qstart && qstart < qend
}

/// The pieces the scan emits: walk the spans in order; for each one that
/// intersects the query, emit the gap before it (if any) and then its
/// clipped intersection; finally fill the tail gap up to `qend`.
pub open spec fn ranges_rec(spans: Seq<SpanView>, qstart: usize, cur: usize, qend: usize) -> Seq<
    PieceView,
>
    decreases spans.len(),
{
    if spans.len() == 0 {
        if cur < qend {
            seq![(cur, qend, None::<Seq<Seq<char>>>)]
        } else {
            Seq::empty()
        }
    } else {
        let sp = spans[0];
        if !span_intersects(sp, qstart, qend) {
            ranges_rec(spans.drop_first(), qstart, cur, qend)
        } else {
            let lo = if sp.0 > cur {
                sp.0
            } else {
                cur
            };
            let hi = if sp.1 < qend {
                sp.1
            } else {
                qend
            };
            let gap: Seq<PieceView> = if cur < sp.0 {
                seq![(cur, sp.0, None::<Seq<Seq<char>>>)]
            } else {
                Seq::empty()
            };
            gap + seq![(lo, hi, Some(sp.2))] + ranges_rec(spans.drop_first(), qstart, sp.1, qend)
        }
    }
}

/// Coverage: the emitted pieces exactly partition `[cur, qend)`, in
/// order, with no empty piece, no gap and no overlap.
pub proof fn lemma_ranges_cover(spans: Seq<SpanView>, qstart: usize, cur: usize, qend: usize)
    requires
        wf_spans(spans),
        qstart <= cur,
        cur == qstart || forall|i: int| 0 <= i < spans.len() ==> (#[trigger] spans[i]).0 >= cur,
    ensures
        cur >= qend ==> ranges_rec(spans, qstart, cur, qend).len() == 0,
        cur < qend ==> {
            let r = ranges_rec(spans, qstart, cur, qend);
            &&& r.len() >= 1
            &&& r[0].0 == cur
            &&& r[r.len() - 1].1 == qend
            &&& forall|i: int| 0 <= i < r.len() ==> (#[trigger] r[i]).0 < r[i].1
            &&& forall|i: int| 0 <= i < r.len() - 1 ==> (#[trigger] r[i]).1 == r[i + 1].0
        },
    decreases spans.len(),
{
    if spans.len() == 0 {
    } else {
        let sp = spans[0];
        let tail = spans.drop_first();
        assert(forall|i: int| 0 <= i < tail.len() ==> tail[i] == spans[i + 1]);
        if !span_intersects(sp, qstart, qend) {
            lemma_ranges_cover(tail, qstart, cur, qend);
        } else {
            assert forall|i2: int| 0 <= i2 < tail.len() implies (#[trigger] tail[i2]).0 >= sp.1 by {
                if i2 > 0 {
                    lemma_spans_sorted(spans, 0, i2 + 1);
                }
            }
            lemma_ranges_cover(tail, qstart, sp.1, qend);
            let lo = if sp.0 > cur {
                sp.0
            } else {
                cur
            };
            let hi = if sp.1 < qend {
                sp.1
            } else {
                qend
            };
            let gap: Seq<PieceView> = if cur < sp.0 {
                seq![(cur, sp.0, None::<Seq<Seq<char>>>)]
            } else {
                Seq::empty()
            };
            let head = gap + seq![(lo, hi, Some(sp.2))];
            let rest = ranges_rec(tail, qstart, sp.1, qend);
            let r = ranges_rec(spans, qstart, cur, qend);
            assert(r == head + rest);
            assert(cur < qend);
            // The clipped piece is non-empty.
            assert(sp.0 < sp.1);
            assert(sp.1 > cur) by {
                if cur != qstart {
                    assert(sp.0 >= cur);
                }
            }
            assert(lo < hi) by {
                if cur != qstart {
                    assert(sp.0 >= cur);
                }
            }
            if sp.1 < qend {
                assert(rest.len() >= 1);
                assert(rest[0].0 == sp.1);
                assert(r[r.len() - 1] == rest[rest.len() - 1]);
            } else {
                assert(rest.len() == 0);
                assert(r =~= head);
            }
        }
    }
}

/// Classification, for one emitted piece: a classed piece lies inside
/// a span carrying that class; a gap piece meets no span at all.
#[verifier::rlimit(100)]
pub proof fn lemma_ranges_class_at(
    spans: Seq<SpanView>,
    qstart: usize,
    cur: usize,
    qend: usize,
    k: int,
)
    requires
        wf_spans(spans),
        qstart <= cur,
        cur == qstart || forall|i: int| 0 <= i < spans.len() ==> (#[trigger] spans[i]).0 >= cur,
        0 <= k < ranges_rec(spans, qstart, cur, qend).len(),
    ensures
        ({
            let p = ranges_rec(spans, qstart, cur, qend)[k];
            &&& p.0 >= cur
            &&& match p.2 {
                Some(c) => exists|j: int|
                    0 <= j < spans.len() && (#[trigger] spans[j]).0 <= p.0 && p.1 <= spans[j].1
                        && spans[j].2 == c,
                None => forall|j: int|
                    0 <= j < spans.len() ==> ((#[trigger] spans[j]).1 <= p.0 || spans[j].0 >= p.1),
            }
        }),
    decreases spans.len(),
{
    let r = ranges_rec(spans, qstart, cur, qend);
    let p = r[k];
    if spans.len() == 0 {
    } else {
        let sp = spans[0];
        let tail = spans.drop_first();
        assert(forall|i: int| 0 <= i < tail.len() ==> tail[i] == spans[i + 1]);
        if !span_intersects(sp, qstart, qend) {
            lemma_ranges_class_at(tail, qstart, cur, qend, k);
            assert(p == ranges_rec(tail, qstart, cur, qend)[k]);
            match p.2 {
                Some(c) => {
                    let j = choose|j: int|
                        0 <= j < tail.len() && (#[trigger] tail[j]).0 <= p.0 && p.1 <= tail[j].1
                            && tail[j].2 == c;
                    assert(spans[j + 1] == tail[j]);
                    assert(0 <= j + 1 < spans.len() && spans[j + 1].0 <= p.0 && p.1 <= spans[j
                        + 1].1 && spans[j + 1].2 == c);
                },
                None => {
                    lemma_piece_in_range(tail, qstart, cur, qend, k);
                    assert(sp.1 <= p.0 || sp.0 >= p.1) by {
                        if qstart < qend {
                            assert(sp.0 >= qend || sp.1 <= qstart);
                        } else {
                            assert(false);
                        }
                    }
                    assert forall|j: int|
                        0 <= j < spans.len() implies ((#[trigger] spans[j]).1 <= p.0 || spans[j].0
                        >= p.1) by {
                        if j > 0 {
                            assert(spans[j] == tail[j - 1]);
                            assert(tail[j - 1].1 <= p.0 || tail[j - 1].0 >= p.1);
                        }
                    }
                },
            }
        } else {
            assert forall|i2: int| 0 <= i2 < tail.len() implies (#[trigger] tail[i2]).0 >= sp.1 by {
                if i2 > 0 {
                    lemma_spans_sorted(spans, 0, i2 + 1);
                }
            }
            let lo = if sp.0 > cur {
                sp.0
            } else {
                cur
            };
            let hi = if sp.1 < qend {
                sp.1
            } else {
                qend
            };
            let gap: Seq<PieceView> = if cur < sp.0 {
                seq![(cur, sp.0, None::<Seq<Seq<char>>>)]
            } else {
                Seq::empty()
            };
            let head = gap + seq![(lo, hi, Some(sp.2))];
            let rest = ranges_rec(tail, qstart, sp.1, qend);
            assert(r == head + rest);
            if k < gap.len() {
                assert(p == (cur, sp.0, None::<Seq<Seq<char>>>));
                assert forall|j: int|
                    0 <= j < spans.len() implies ((#[trigger] spans[j]).1 <= p.0 || spans[j].0
                    >= p.1) by {
                    if j > 0 {
                        assert(tail[j - 1] == spans[j]);
                        assert(tail[j - 1].0 >= sp.1);
                    }
                }
            } else if k < head.len() {
                assert(p == (lo, hi, Some(sp.2)));
                assert(spans[0].0 <= p.0 && p.1 <= spans[0].1) by {
                    if cur != qstart {
                        assert(sp.0 >= cur);
                    }
                }
            } else {
                let kk = k - head.len();
                lemma_ranges_class_at(tail, qstart, sp.1, qend, kk);
                assert(p == rest[kk]);
                match p.2 {
                    Some(c) => {
                        let j = choose|j: int|
                            0 <= j < tail.len() && (#[trigger] tail[j]).0 <= p.0 && p.1
                                <= tail[j].1 && tail[j].2 == c;
                        assert(spans[j + 1] == tail[j]);
                        assert(0 <= j + 1 < spans.len() && spans[j + 1].0 <= p.0 && p.1 <= spans[j
                            + 1].1 && spans[j + 1].2 == c);
                    },
                    None => {
                        assert(p.0 >= sp.1);
                        assert forall|j: int|
                            0 <= j < spans.len() implies ((#[trigger] spans[j]).1 <= p.0
                            || spans[j].0 >= p.1) by {
                            if j > 0 {
                                assert(spans[j] == tail[j - 1]);
                                assert(tail[j - 1].1 <= p.0 || tail[j - 1].0 >= p.1);
                            }
                        }
                    },
                }
            }
        }
    }
}

/// Classification over the whole result.
pub proof fn lemma_ranges_classes(spans: Seq<SpanView>, qstart: usize, cur: usize, qend: usize)
    requires
        wf_spans(spans),
        qstart <= cur,
        cur == qstart || forall|i: int| 0 <= i < spans.len() ==> (#[trigger] spans[i]).0 >= cur,
    ensures
        forall|k: int|
            0 <= k < ranges_rec(spans, qstart, cur, qend).len() ==> {
                let p = #[trigger] ranges_rec(spans, qstart, cur, qend)[k];
                &&& p.0 >= cur
                &&& match p.2 {
                    Some(c) => exists|j: int|
                        0 <= j < spans.len() && (#[trigger] spans[j]).0 <= p.0 && p.1 <= spans[j].1
                            && spans[j].2 == c,
                    None => forall|j: int|
                        0 <= j < spans.len() ==> ((#[trigger] spans[j]).1 <= p.0 || spans[j].0
                            >= p.1),
                }
            },
{
    assert forall|k: int| 0 <= k < ranges_rec(spans, qstart, cur, qend).len() implies {
        let p = #[trigger] ranges_rec(spans, qstart, cur, qend)[k];
        &&& p.0 >= cur
        &&& match p.2 {
            Some(c) => exists|j: int|
                0 <= j < spans.len() && (#[trigger] spans[j]).0 <= p.0 && p.1 <= spans[j].1
                    && spans[j].2 == c,
            None => forall|j: int|
                0 <= j < spans.len() ==> ((#[trigger] spans[j]).1 <= p.0 || spans[j].0 >= p.1),
        }
    } by {
        lemma_ranges_class_at(spans, qstart, cur, qend, k);
    }
}

/// Every emitted piece lies within `[cur, qend)`.
#[verifier::rlimit(60)]
pub proof fn lemma_piece_in_range(spans: Seq<SpanView>, qstart: usize, cur: usize, qend: usize, k: int)
    requires
        wf_spans(spans),
        qstart <= cur,
        cur == qstart || forall|i: int| 0 <= i < spans.len() ==> (#[trigger] spans[i]).0 >= cur,
        0 <= k < ranges_rec(spans, qstart, cur, qend).len(),
    ensures
        ranges_rec(spans, qstart, cur, qend)[k].0 >= cur,
        ranges_rec(spans, qstart, cur, qend)[k].1 <= qend,
        ranges_rec(spans, qstart, cur, qend)[k].0 < ranges_rec(spans, qstart, cur, qend)[k].1,
    decreases spans.len(),
{
    lemma_ranges_cover(spans, qstart, cur, qend);
    if spans.len() == 0 {
    } else {
        let sp = spans[0];
        let tail = spans.drop_first();
        assert(forall|i: int| 0 <= i < tail.len() ==> tail[i] == spans[i + 1]);
        if !span_intersects(sp, qstart, qend) {
            lemma_piece_in_range(tail, qstart, cur, qend, k);
        } else {
            let gap_len: int = if cur < sp.0 {
                1
            } else {
                0
            };
            if k >= gap_len + 1 {
                assert forall|i2: int| 0 <= i2 < tail.len() implies (#[trigger] tail[i2]).0
                    >= sp.1 by {
                    if i2 > 0 {
                        lemma_spans_sorted(spans, 0, i2 + 1);
                    }
                }
                lemma_piece_in_range(tail, qstart, sp.1, qend, k - gap_len - 1);
                assert(sp.1 > cur) by {
                    if cur != qstart {
                        assert(sp.0 >= cur);
                    }
                }
            } else {
                assert(sp.1 > cur) by {
                    if cur != qstart {
                        assert(sp.0 >= cur);
                    }
                }
            }
        }
    }
}

/// Sortedness extends across any distance.
proof fn lemma_spans_sorted(spans: Seq<SpanView>, i: int, j: int)
    requires
        wf_spans(spans),
        0 <= i < j < spans.len(),
    ensures
        spans[i].1 <= spans[j].0,
    decreases j - i,
{
    if j > i + 1 {
        lemma_spans_sorted(spans, i + 1, j);
    }
}

impl Highlights {
    /// Slice the span list against the query span `[start, end)`: the
    /// highlighted pieces clipped to the query, with class-less pieces
    /// filling every gap.
    #[verifier::rlimit(100)]
    pub fn get_ranges(&self, start: usize, end: usize) -> (r: Vec<RangePiece>)
        ensures
            r@.map_values(|p: RangePiece| piece_view(p)) == ranges_rec(
                self.view(),
                start,
                start,
                end,
            ),
            self.wf() && start < end ==> {
                let rv = r@.map_values(|p: RangePiece| piece_view(p));
                &&& rv.len() >= 1
                &&& rv[0].0 == start
                &&& rv[rv.len() - 1].1 == end
                &&& forall|i: int| 0 <= i < rv.len() ==> (#[trigger] rv[i]).0 < rv[i].1
                &&& forall|i: int| 0 <= i < rv.len() - 1 ==> (#[trigger] rv[i]).1 == rv[i + 1].0
            },
            self.wf() && start >= end ==> r@.len() == 0,
    {
        let ghost gspans = self.view();
        let mut out: Vec<RangePiece> = Vec::new();
        let mut cur: usize = start;
        let mut i: usize = 0;
        proof {
            assert(out@.map_values(|p: RangePiece| piece_view(p)) =~= Seq::<PieceView>::empty());
            assert(gspans.subrange(0, gspans.len() as int) =~= gspans);
        }
        while i < self.0.len()
            invariant
                i <= self.0@.len(),
                gspans == self.view(),
                gspans.len() == self.0@.len(),
                ranges_rec(gspans, start, start, end) == out@.map_values(
                    |p: RangePiece| piece_view(p),
                ) + ranges_rec(
                    gspans.subrange(i as int, gspans.len() as int),
                    start,
                    cur,
                    end,
                ),
            decreases self.0@.len() - i,
        {
            let ghost grest = gspans.subrange(i as int, gspans.len() as int);
            proof {
                assert(grest.len() > 0);
                assert(grest[0] == gspans[i as int]);
                assert(grest.drop_first() =~= gspans.subrange(i + 1 as int, gspans.len() as int));
                assert(span_view(self.0@[i as int]) == gspans[i as int]);
            }
            let sp_start = self.0[i].0;
            let sp_end = self.0[i].1;
            if sp_start < end && sp_end > start && start < end {
                if cur < sp_start {
                    out.push((cur, sp_start, None));
                    proof {
                        assert(out@.map_values(|p: RangePiece| piece_view(p)) =~= out@.map_values(
                            |p: RangePiece| piece_view(p),
                        ).drop_last().push((cur, sp_start, None::<Seq<Seq<char>>>)));
                    }
                }
                let lo = if sp_start > cur {
                    sp_start
                } else {
                    cur
                };
                let hi = if sp_end < end {
                    sp_end
                } else {
                    end
                };
                out.push((lo, hi, Some(self.0[i].2.clone())));
                proof {
                    let ov = out@.map_values(|p: RangePiece| piece_view(p));
                    assert(ov =~= ov.drop_last().push(
                        (lo, hi, Some(self.0@[i as int].2.deep_view())),
                    ));
                    let sp = grest[0];
                    let gap: Seq<PieceView> = if cur < sp.0 {
                        seq![(cur, sp.0, None::<Seq<Seq<char>>>)]
                    } else {
                        Seq::empty()
                    };
                    assert(ranges_rec(grest, start, cur, end) == gap + seq![
                        (lo, hi, Some(sp.2)),
                    ] + ranges_rec(grest.drop_first(), start, sp.1, end));
                    assert(ranges_rec(gspans, start, start, end) =~= ov + ranges_rec(
                        grest.drop_first(),
                        start,
                        sp.1,
                        end,
                    ));
                }
                cur = sp_end;
            } else {
                proof {
                    assert(!span_intersects(grest[0], start, end));
                }
            }
            i += 1;
        }
        proof {
            assert(gspans.subrange(gspans.len() as int, gspans.len() as int) =~= Seq::<
                SpanView,
            >::empty());
        }
        if cur < end {
            out.push((cur, end, None));
            proof {
                assert(out@.map_values(|p: RangePiece| piece_view(p)) =~= out@.map_values(
                    |p: RangePiece| piece_view(p),
                ).drop_last().push((cur, end, None::<Seq<Seq<char>>>)));
            }
        } else {
            proof {
                assert(out@.map_values(|p: RangePiece| piece_view(p)) + Seq::<
                    PieceView,
                >::empty() =~= out@.map_values(|p: RangePiece| piece_view(p)));
            }
        }
        proof {
            if self.wf() {
                lemma_ranges_cover(gspans, start, start, end);
                let rv = out@.map_values(|p: RangePiece| piece_view(p));
                let gr = ranges_rec(self.view(), start, start, end);
                assert(rv == gr);
                assert(rv.len() == out@.len());
                if start < end {
                    assert(gr.len() >= 1);
                    assert(gr[0].0 == start);
                    assert(gr[gr.len() - 1].1 == end);
                    assert(rv[0].0 == start);
                    assert(rv[rv.len() - 1].1 == end);
                    assert(forall|i: int| 0 <= i < rv.len() ==> (#[trigger] rv[i]).0 < rv[i].1);
                    assert(forall|i: int|
                        0 <= i < rv.len() - 1 ==> (#[trigger] rv[i]).1 == rv[i + 1].0);
                } else {
                    assert(gr.len() == 0);
                    assert(out@.len() == 0);
                }
            }
        }
        out
    }
}

/// A query span that meets no highlight span yields exactly one class-less
/// piece covering it.
pub proof fn lemma_no_intersection_single_gap(spans: Seq<SpanView>, start: usize, end: usize)
    requires
        wf_spans(spans),
        start < end,
        forall|j: int| 0 <= j < spans.len() ==> !span_intersects(#[trigger] spans[j], start, end),
    ensures
        ranges_rec(spans, start, start, end) =~= seq![(start, end, None::<Seq<Seq<char>>>)],
    decreases spans.len(),
{
    if spans.len() > 0 {
        lemma_no_intersection_single_gap(spans.drop_first(), start, end);
        assert(forall|j: int|
            0 <= j < spans.drop_first().len() ==> spans.drop_first()[j] == spans[j + 1]);
    }
}

/// A query span lying fully inside one highlight span yields exactly one
/// piece, carrying that span's class.
pub proof fn lemma_contained_single_piece(
    spans: Seq<SpanView>,
    j: int,
    start: usize,
    end: usize,
)
    requires
        wf_spans(spans),
        start < end,
        0 <= j < spans.len(),
        spans[j].0 <= start,
        end <= spans[j].1,
    ensures
        ranges_rec(spans, start, start, end) =~= seq![(start, end, Some(spans[j].2))],
    decreases spans.len(),
{
    let sp = spans[0];
    let tail = spans.drop_first();
    assert(forall|i: int| 0 <= i < tail.len() ==> tail[i] == spans[i + 1]);
    if j == 0 {
        assert(span_intersects(sp, start, end));
        assert(ranges_rec(tail, start, sp.1, end) =~= Seq::<PieceView>::empty()) by {
            assert forall|i: int| 0 <= i < tail.len() implies (#[trigger] tail[i]).0 >= sp.1 by {
                if i > 0 {
                    lemma_spans_sorted(spans, 0, i + 1);
                }
            }
            lemma_ranges_cover(tail, start, sp.1, end);
        }
    } else {
        assert(sp.1 <= spans[j].0) by {
            lemma_spans_sorted(spans, 0, j);
        }
        assert(!span_intersects(sp, start, end));
        lemma_contained_single_piece(tail, j - 1, start, end);
    }
}

/// The token a file extension or language name maps to.
pub open spec fn language_of_token(s: Seq<char>) -> HighlightLanguage {
    if s == "c"@ || s == "h"@ {
        HighlightLanguage::C
    } else if s == "cplusplus"@ || s == "cpp"@ || s == "cc"@ || s == "cxx"@ || s == "cp"@ || s == "c++"@ || s == "hpp"@ || s == "hh"@ || s == "hxx"@ || s == "h++"@ {
        HighlightLanguage::Cpp
    } else if s == "csharp"@ || s == "cs"@ {
        HighlightLanguage::CSharp
    } else if s == "css"@ {
        HighlightLanguage::Css
    } else if s == "html"@ || s == "htm"@ {
        HighlightLanguage::Html
    } else if s == "java"@ {
        HighlightLanguage::Java
    } else if s == "javascript"@ || s == "js"@ {
        HighlightLanguage::Javascript
    } else if s == "javascriptreact"@ || s == "jsx"@ {
        HighlightLanguage::Jsx
    } else if s == "json"@ {
        HighlightLanguage::Json
    } else if s == "lua"@ {
        HighlightLanguage::Lua
    } else if s == "markdown"@ || s == "md"@ {
        HighlightLanguage::Markdown
    } else if s == "php"@ {
        HighlightLanguage::Php
    } else if s == "python"@ || s == "py"@ {
        HighlightLanguage::Python
    } else if s == "ruby"@ || s == "rb"@ {
        HighlightLanguage::Ruby
    } else if s == "rust"@ || s == "rs"@ {
        HighlightLanguage::Rust
    } else if s == "swift"@ {
        HighlightLanguage::Swift
    } else if s == "toml"@ {
        HighlightLanguage::Toml
    } else if s == "typescript"@ || s == "ts"@ {
        HighlightLanguage::Typescript
    } else if s == "typescriptreact"@ || s == "tsx"@ {
        HighlightLanguage::Tsx
    } else if s == "yml"@ || s == "yaml"@ {
        HighlightLanguage::Yaml
    } else {
        HighlightLanguage::Plaintext
    }
}

/// Index of the last occurrence of `c` in `s`; `-1` when absent.
pub open spec fn last_index_of(s: Seq<char>, c: char) -> int
    decreases s.len(),
{
    if s.len() == 0 {
        -1
    } else if s.last() == c {
        s.len() - 1
    } else {
        last_index_of(s.drop_last(), c)
    }
}

proof fn lemma_last_index_pin(s: Seq<char>, c: char, found: int)
    requires
        -1 <= found < s.len(),
        found >= 0 ==> s[found] == c,
        forall|j: int| found < j < s.len() ==> s[j] != c,
    ensures
        last_index_of(s, c) == found,
    decreases s.len(),
{
    if s.len() > 0 {
        if s.last() == c {
        } else {
            lemma_last_index_pin(s.drop_last(), c, found);
        }
    }
}

/// The extension part of a file path: what follows the last dot of the
/// last path segment; the default token `txt` when the segment has no
/// usable extension.
pub open spec fn extension_of_path(path: Seq<char>) -> Seq<char> {
    let fname = path.subrange(last_index_of(path, '/') + 1, path.len() as int);
    let d = last_index_of(fname, '.');
    if d <= 0 {
        "txt"@
    } else {
        fname.subrange(d + 1, fname.len() as int)
    }
}

/// Find the last occurrence of `c` in `s`.
fn find_char_last(s: &str, c: char) -> (r: Option<usize>)
    ensures
        match r {
            Some(i) => i < s@.len() && last_index_of(s@, c) == i,
            None => last_index_of(s@, c) == -1,
        },
{
    let n = s.unicode_len();
    let mut i: usize = n;
    while i > 0
        invariant
            i <= n,
            n == s@.len(),
            forall|j: int| i <= j < n ==> s@[j] != c,
        decreases i,
    {
        if s.get_char(i - 1) == c {
            proof {
                lemma_last_index_pin(s@, c, i - 1);
            }
            return Some(i - 1);
        }
        i -= 1;
    }
    proof {
        lemma_last_index_pin(s@, c, -1);
    }
    None
}

impl HighlightLanguage {
    /// The language a file extension token names; anything unknown is
    /// plain text.
    pub fn from_token(token: &str) -> (r: Self)
        ensures
            r == language_of_token(token@),
    {
        if str_eq(token, "c") || str_eq(token, "h") {
            Self::C
        } else if str_eq(token, "cplusplus") || str_eq(token, "cpp") || str_eq(token, "cc") || str_eq(token, "cxx") || str_eq(token, "cp") || str_eq(token, "c++") || str_eq(token, "hpp") || str_eq(token, "hh") || str_eq(token, "hxx") || str_eq(token, "h++") {
            Self::Cpp
        } else if str_eq(token, "csharp") || str_eq(token, "cs") {
            Self::CSharp
        } else if str_eq(token, "css") {
            Self::Css
        } else if str_eq(token, "html") || str_eq(token, "htm") {
            Self::Html
        } else if str_eq(token, "java") {
            Self::Java
        } else if str_eq(token, "javascript") || str_eq(token, "js") {
            Self::Javascript
        } else if str_eq(token, "javascriptreact") || str_eq(token, "jsx") {
            Self::Jsx
        } else if str_eq(token, "json") {
            Self::Json
        } else if str_eq(token, "lua") {
            Self::Lua
        } else if str_eq(token, "markdown") || str_eq(token, "md") {
            Self::Markdown
        } else if str_eq(token, "php") {
            Self::Php
        } else if str_eq(token, "python") || str_eq(token, "py") {
            Self::Python
        } else if str_eq(token, "ruby") || str_eq(token, "rb") {
            Self::Ruby
        } else if str_eq(token, "rust") || str_eq(token, "rs") {
            Self::Rust
        } else if str_eq(token, "swift") {
            Self::Swift
        } else if str_eq(token, "toml") {
            Self::Toml
        } else if str_eq(token, "typescript") || str_eq(token, "ts") {
            Self::Typescript
        } else if str_eq(token, "typescriptreact") || str_eq(token, "tsx") {
            Self::Tsx
        } else if str_eq(token, "yml") || str_eq(token, "yaml") {
            Self::Yaml
        } else {
            Self::Plaintext
        }
    }

    /// The language chosen from a file path's extension.
    pub fn from_path(path: &str) -> (r: Self)
        ensures
            r == language_of_token(extension_of_path(path@)),
    {
        let n = path.unicode_len();
        let slash = match find_char_last(path, '/') {
            Some(i) => i + 1,
            None => 0,
        };
        let fname = path.substring_char(slash, n);
        proof {
            assert(fname@ =~= path@.subrange(last_index_of(path@, '/') + 1, path@.len() as int));
        }
        let fl = fname.unicode_len();
        let token: String = match find_char_last(fname, '.') {
            Some(d) => {
                if d > 0 {
                    fname.substring_char(d + 1, fl).to_owned()
                } else {
                    "txt".to_owned()
                }
            },
            None => "txt".to_owned(),
        };
        proof {
            assert(token@ == extension_of_path(path@));
        }
        Self::from_token(token.as_str())
    }
}

/// The syntax scope names this library recognises, as the mathematical
/// table the highlight contracts speak of, ordered to match the indices
/// the highlighter reports back.
pub open spec fn scope_names() -> Seq<Seq<char>> {
    seq![
        "attribute"@,
        "type"@,
        "type.builtin"@,
        "type.enum"@,
        "type.enum.variant"@,
        "constructor"@,
        "constant"@,
        "constant.builtin"@,
        "constant.builtin.boolean"@,
        "constant.character"@,
        "constant.character.escape"@,
        "constant.numeric"@,
        "constant.numeric.integer"@,
        "constant.numeric.float"@,
        "string"@,
        "string.regexp"@,
        "string.special"@,
        "string.special.path"@,
        "string.special.url"@,
        "string.special.symbol"@,
        "escape"@,
        "comment"@,
        "comment.line"@,
        "comment.block"@,
        "comment.block.documentation"@,
        "variable"@,
        "variable.builtin"@,
        "variable.parameter"@,
        "variable.other"@,
        "variable.other.member"@,
        "label"@,
        "punctuation"@,
        "punctuation.delimiter"@,
        "punctuation.bracket"@,
        "punctuation.special"@,
        "keyword"@,
        "keyword.control"@,
        "keyword.control.conditional"@,
        "keyword.control.repeat"@,
        "keyword.control.import"@,
        "keyword.control.return"@,
        "keyword.control.exception"@,
        "keyword.operator"@,
        "keyword.directive"@,
        "keyword.function"@,
        "keyword.storage"@,
        "keyword.storage.type"@,
        "keyword.storage.modifier"@,
        "operator"@,
        "function"@,
        "function.builtin"@,
        "function.method"@,
        "function.macro"@,
        "function.special"@,
        "tag"@,
        "tag.builtin"@,
        "namespace"@,
        "special"@,
        "markup"@,
        "markup.heading"@,
        "markup.heading.marker"@,
        "markup.heading.1"@,
        "markup.heading.2"@,
        "markup.heading.3"@,
        "markup.heading.4"@,
        "markup.heading.5"@,
        "markup.heading.6"@,
        "markup.list"@,
        "markup.list.unnumbered"@,
        "markup.list.numbered"@,
        "markup.list.checked"@,
        "markup.list.unchecked"@,
        "markup.bold"@,
        "markup.italic"@,
        "markup.strikethrough"@,
        "markup.link"@,
        "markup.link.url"@,
        "markup.link.label"@,
        "markup.link.text"@,
        "markup.quote"@,
        "markup.raw"@,
        "markup.raw.inline"@,
        "markup.raw.block"@,
        "diff"@,
        "diff.plus"@,
        "diff.minus"@,
        "diff.delta"@,
        "diff.delta.moved"@,
    ]
}

/// The syntax scope names this library recognises, ordered to match the
/// indices the highlighter reports back.
pub fn highlight_names() -> (r: Vec<String>)
    ensures
        r.deep_view() == scope_names(),
{
    let mut r: Vec<String> = Vec::new();
    r.push("attribute".to_owned());
    r.push("type".to_owned());
    r.push("type.builtin".to_owned());
    r.push("type.enum".to_owned());
    r.push("type.enum.variant".to_owned());
    r.push("constructor".to_owned());
    r.push("constant".to_owned());
    r.push("constant.builtin".to_owned());
    r.push("constant.builtin.boolean".to_owned());
    r.push("constant.character".to_owned());
    r.push("constant.character.escape".to_owned());
    r.push("constant.numeric".to_owned());
    r.push("constant.numeric.integer".to_owned());
    r.push("constant.numeric.float".to_owned());
    r.push("string".to_owned());
    r.push("string.regexp".to_owned());
    r.push("string.special".to_owned());
    r.push("string.special.path".to_owned());
    r.push("string.special.url".to_owned());
    r.push("string.special.symbol".to_owned());
    r.push("escape".to_owned());
    r.push("comment".to_owned());
    r.push("comment.line".to_owned());
    r.push("comment.block".to_owned());
    r.push("comment.block.documentation".to_owned());
    r.push("variable".to_owned());
    r.push("variable.builtin".to_owned());
    r.push("variable.parameter".to_owned());
    r.push("variable.other".to_owned());
    r.push("variable.other.member".to_owned());
    r.push("label".to_owned());
    r.push("punctuation".to_owned());
    r.push("punctuation.delimiter".to_owned());
    r.push("punctuation.bracket".to_owned());
    r.push("punctuation.special".to_owned());
    r.push("keyword".to_owned());
    r.push("keyword.control".to_owned());
    r.push("keyword.control.conditional".to_owned());
    r.push("keyword.control.repeat".to_owned());
    r.push("keyword.control.import".to_owned());
    r.push("keyword.control.return".to_owned());
    r.push("keyword.control.exception".to_owned());
    r.push("keyword.operator".to_owned());
    r.push("keyword.directive".to_owned());
    r.push("keyword.function".to_owned());
    r.push("keyword.storage".to_owned());
    r.push("keyword.storage.type".to_owned());
    r.push("keyword.storage.modifier".to_owned());
    r.push("operator".to_owned());
    r.push("function".to_owned());
    r.push("function.builtin".to_owned());
    r.push("function.method".to_owned());
    r.push("function.macro".to_owned());
    r.push("function.special".to_owned());
    r.push("tag".to_owned());
    r.push("tag.builtin".to_owned());
    r.push("namespace".to_owned());
    r.push("special".to_owned());
    r.push("markup".to_owned());
    r.push("markup.heading".to_owned());
    r.push("markup.heading.marker".to_owned());
    r.push("markup.heading.1".to_owned());
    r.push("markup.heading.2".to_owned());
    r.push("markup.heading.3".to_owned());
    r.push("markup.heading.4".to_owned());
    r.push("markup.heading.5".to_owned());
    r.push("markup.heading.6".to_owned());
    r.push("markup.list".to_owned());
    r.push("markup.list.unnumbered".to_owned());
    r.push("markup.list.numbered".to_owned());
    r.push("markup.list.checked".to_owned());
    r.push("markup.list.unchecked".to_owned());
    r.push("markup.bold".to_owned());
    r.push("markup.italic".to_owned());
    r.push("markup.strikethrough".to_owned());
    r.push("markup.link".to_owned());
    r.push("markup.link.url".to_owned());
    r.push("markup.link.label".to_owned());
    r.push("markup.link.text".to_owned());
    r.push("markup.quote".to_owned());
    r.push("markup.raw".to_owned());
    r.push("markup.raw.inline".to_owned());
    r.push("markup.raw.block".to_owned());
    r.push("diff".to_owned());
    r.push("diff.plus".to_owned());
    r.push("diff.minus".to_owned());
    r.push("diff.delta".to_owned());
    r.push("diff.delta.moved".to_owned());
    proof {
        assert(r.deep_view() =~= scope_names());
    }
    r
}

#[verifier::external_type_specification]
#[verifier::external_body]
pub struct ExHighlighter(tree_sitter_highlight::Highlighter);

#[verifier::external_type_specification]
#[verifier::external_body]
pub struct ExHighlightConfiguration(tree_sitter_highlight::HighlightConfiguration);

/// One event the incremental highlighter reports, with the nested scope
/// index or the byte offsets it carries.
pub enum RawHighlightEvent {
    Start(usize),
    Source(usize, usize),
    End,
}

/// Relies on HighlightConfiguration::new with the tree-sitter-c grammar
/// and its bundled queries, which that grammar accepts, so a
/// configuration always comes back.
#[verifier::external_body]
fn c_config(names: &Vec<String>) -> (r: Option<tree_sitter_highlight::HighlightConfiguration>)
    ensures
        r is Some,
{
    let mut config = tree_sitter_highlight::HighlightConfiguration::new(
        tree_sitter_c::LANGUAGE.into(), "c", tree_sitter_c::HIGHLIGHT_QUERY, "", "",
    ).ok()?;
    config.configure(names.as_slice());
    Some(config)
}
/// Relies on HighlightConfiguration::new with the tree-sitter-cpp grammar
/// and its bundled queries, which that grammar accepts, so a
/// configuration always comes back.
#[verifier::external_body]
fn cpp_config(names: &Vec<String>) -> (r: Option<tree_sitter_highlight::HighlightConfiguration>)
    ensures
        r is Some,
{
    let mut config = tree_sitter_highlight::HighlightConfiguration::new(
        tree_sitter_cpp::LANGUAGE.into(), "c++", tree_sitter_cpp::HIGHLIGHT_QUERY, "", "",
    ).ok()?;
    config.configure(names.as_slice());
    Some(config)
}
/// Relies on HighlightConfiguration::new with the tree-sitter-c-sharp grammar
/// and its bundled queries, which that grammar accepts, so a
/// configuration always comes back.
#[verifier::external_body]
fn c_sharp_config(names: &Vec<String>) -> (r: Option<tree_sitter_highlight::HighlightConfiguration>)
    ensures
        r is Some,
{
    let mut config = tree_sitter_highlight::HighlightConfiguration::new(
        tree_sitter_c_sharp::LANGUAGE.into(), "c#", tree_sitter_c_sharp::HIGHLIGHTS_QUERY, "", "",
    ).ok()?;
    config.configure(names.as_slice());
    Some(config)
}
/// Relies on HighlightConfiguration::new with the tree-sitter-css grammar
/// and its bundled queries, which that grammar accepts, so a
/// configuration always comes back.
#[verifier::external_body]
fn css_config(names: &Vec<String>) -> (r: Option<tree_sitter_highlight::HighlightConfiguration>)
    ensures
        r is Some,
{
    let mut config = tree_sitter_highlight::HighlightConfiguration::new(
        tree_sitter_css::LANGUAGE.into(), "css", tree_sitter_css::HIGHLIGHTS_QUERY, "", "",
    ).ok()?;
    config.configure(names.as_slice());
    Some(config)
}
/// Relies on HighlightConfiguration::new with the tree-sitter-html grammar
/// and its bundled queries, which that grammar accepts, so a
/// configuration always comes back.
#[verifier::external_body]
fn html_config(names: &Vec<String>) -> (r: Option<tree_sitter_highlight::HighlightConfiguration>)
    ensures
        r is Some,
{
    let mut config = tree_sitter_highlight::HighlightConfiguration::new(
        tree_sitter_html::LANGUAGE.into(), "html", tree_sitter_html::HIGHLIGHTS_QUERY, tree_sitter_html::INJECTIONS_QUERY, "",
    ).ok()?;
    config.configure(names.as_slice());
    Some(config)
}
/// Relies on HighlightConfiguration::new with the tree-sitter-java grammar
/// and its bundled queries, which that grammar accepts, so a
/// configuration always comes back.
#[verifier::external_body]
fn java_config(names: &Vec<String>) -> (r: Option<tree_sitter_highlight::HighlightConfiguration>)
    ensures
        r is Some,
{
    let mut config = tree_sitter_highlight::HighlightConfiguration::new(
        tree_sitter_java::LANGUAGE.into(), "java", tree_sitter_java::HIGHLIGHTS_QUERY, "", "",
    ).ok()?;
    config.configure(names.as_slice());
    Some(config)
}
/// Relies on HighlightConfiguration::new with the tree-sitter-javascript grammar
/// and its bundled queries, which that grammar accepts, so a
/// configuration always comes back.
#[verifier::external_body]
fn javascript_config(names: &Vec<String>) -> (r: Option<tree_sitter_highlight::HighlightConfiguration>)
    ensures
        r is Some,
{
    let mut config = tree_sitter_highlight::HighlightConfiguration::new(
        tree_sitter_javascript::LANGUAGE.into(), "javascript", tree_sitter_javascript::HIGHLIGHT_QUERY, tree_sitter_javascript::INJECTIONS_QUERY, tree_sitter_javascript::LOCALS_QUERY,
    ).ok()?;
    config.configure(names.as_slice());
    Some(config)
}
/// Relies on HighlightConfiguration::new with the tree-sitter-javascript grammar
/// and its bundled queries, which that grammar accepts, so a
/// configuration always comes back.
#[verifier::external_body]
fn jsx_config(names: &Vec<String>) -> (r: Option<tree_sitter_highlight::HighlightConfiguration>)
    ensures
        r is Some,
{
    let mut config = tree_sitter_highlight::HighlightConfiguration::new(
        tree_sitter_javascript::LANGUAGE.into(), "jsx", tree_sitter_javascript::JSX_HIGHLIGHT_QUERY, tree_sitter_javascript::INJECTIONS_QUERY, tree_sitter_javascript::LOCALS_QUERY,
    ).ok()?;
    config.configure(names.as_slice());
    Some(config)
}
/// Relies on HighlightConfiguration::new with the tree-sitter-json grammar
/// and its bundled queries, which that grammar accepts, so a
/// configuration always comes back.
#[verifier::external_body]
fn json_config(names: &Vec<String>) -> (r: Option<tree_sitter_highlight::HighlightConfiguration>)
    ensures
        r is Some,
{
    let mut config = tree_sitter_highlight::HighlightConfiguration::new(
        tree_sitter_json::LANGUAGE.into(), "json", tree_sitter_json::HIGHLIGHTS_QUERY, "", "",
    ).ok()?;
    config.configure(names.as_slice());
    Some(config)
}
/// Relies on HighlightConfiguration::new with the tree-sitter-lua grammar
/// and its bundled queries, which that grammar accepts, so a
/// configuration always comes back.
#[verifier::external_body]
fn lua_config(names: &Vec<String>) -> (r: Option<tree_sitter_highlight::HighlightConfiguration>)
    ensures
        r is Some,
{
    let mut config = tree_sitter_highlight::HighlightConfiguration::new(
        tree_sitter_lua::LANGUAGE.into(), "lua", tree_sitter_lua::HIGHLIGHTS_QUERY, tree_sitter_lua::INJECTIONS_QUERY, tree_sitter_lua::LOCALS_QUERY,
    ).ok()?;
    config.configure(names.as_slice());
    Some(config)
}
/// Relies on HighlightConfiguration::new with the tree-sitter-md grammar
/// and its bundled queries, which that grammar accepts, so a
/// configuration always comes back.
#[verifier::external_body]
fn markdown_config(names: &Vec<String>) -> (r: Option<tree_sitter_highlight::HighlightConfiguration>)
    ensures
        r is Some,
{
    let mut config = tree_sitter_highlight::HighlightConfiguration::new(
        tree_sitter_md::LANGUAGE.into(), "markdown", tree_sitter_md::HIGHLIGHT_QUERY_BLOCK, tree_sitter_md::INJECTION_QUERY_BLOCK, "",
    ).ok()?;
    config.configure(names.as_slice());
    Some(config)
}
/// Relies on HighlightConfiguration::new with the tree-sitter-php grammar
/// and its bundled queries, which that grammar accepts, so a
/// configuration always comes back.
#[verifier::external_body]
fn php_config(names: &Vec<String>) -> (r: Option<tree_sitter_highlight::HighlightConfiguration>)
    ensures
        r is Some,
{
    let mut config = tree_sitter_highlight::HighlightConfiguration::new(
        tree_sitter_php::LANGUAGE_PHP.into(), "php", tree_sitter_php::HIGHLIGHTS_QUERY, tree_sitter_php::INJECTIONS_QUERY, "",
    ).ok()?;
    config.configure(names.as_slice());
    Some(config)
}
/// Relies on HighlightConfiguration::new with the tree-sitter-python grammar
/// and its bundled queries, which that grammar accepts, so a
/// configuration always comes back.
#[verifier::external_body]
fn python_config(names: &Vec<String>) -> (r: Option<tree_sitter_highlight::HighlightConfiguration>)
    ensures
        r is Some,
{
    let mut config = tree_sitter_highlight::HighlightConfiguration::new(
        tree_sitter_python::LANGUAGE.into(), "python", tree_sitter_python::HIGHLIGHTS_QUERY, "", "",
    ).ok()?;
    config.configure(names.as_slice());
    Some(config)
}
/// Relies on HighlightConfiguration::new with the tree-sitter-ruby grammar
/// and its bundled queries, which that grammar accepts, so a
/// configuration always comes back.
#[verifier::external_body]
fn ruby_config(names: &Vec<String>) -> (r: Option<tree_sitter_highlight::HighlightConfiguration>)
    ensures
        r is Some,
{
    let mut config = tree_sitter_highlight::HighlightConfiguration::new(
        tree_sitter_ruby::LANGUAGE.into(), "ruby", tree_sitter_ruby::HIGHLIGHTS_QUERY, "", tree_sitter_ruby::LOCALS_QUERY,
    ).ok()?;
    config.configure(names.as_slice());
    Some(config)
}
/// Relies on HighlightConfiguration::new with the tree-sitter-rust grammar
/// and its bundled queries, which that grammar accepts, so a
/// configuration always comes back.
#[verifier::external_body]
fn rust_config(names: &Vec<String>) -> (r: Option<tree_sitter_highlight::HighlightConfiguration>)
    ensures
        r is Some,
{
    let mut config = tree_sitter_highlight::HighlightConfiguration::new(
        tree_sitter_rust::LANGUAGE.into(), "rust", tree_sitter_rust::HIGHLIGHTS_QUERY, tree_sitter_rust::INJECTIONS_QUERY, "",
    ).ok()?;
    config.configure(names.as_slice());
    Some(config)
}
/// Relies on HighlightConfiguration::new with the tree-sitter-swift grammar
/// and its bundled queries, which that grammar accepts, so a
/// configuration always comes back.
#[verifier::external_body]
fn swift_config(names: &Vec<String>) -> (r: Option<tree_sitter_highlight::HighlightConfiguration>)
    ensures
        r is Some,
{
    let mut config = tree_sitter_highlight::HighlightConfiguration::new(
        tree_sitter_swift::LANGUAGE.into(), "swift", tree_sitter_swift::HIGHLIGHTS_QUERY, tree_sitter_swift::INJECTIONS_QUERY, tree_sitter_swift::LOCALS_QUERY,
    ).ok()?;
    config.configure(names.as_slice());
    Some(config)
}
/// Relies on HighlightConfiguration::new with the tree-sitter-toml-ng grammar
/// and its bundled queries, which that grammar accepts, so a
/// configuration always comes back.
#[verifier::external_body]
fn toml_config(names: &Vec<String>) -> (r: Option<tree_sitter_highlight::HighlightConfiguration>)
    ensures
        r is Some,
{
    let mut config = tree_sitter_highlight::HighlightConfiguration::new(
        tree_sitter_toml_ng::LANGUAGE.into(), "toml", tree_sitter_toml_ng::HIGHLIGHTS_QUERY, "", "",
    ).ok()?;
    config.configure(names.as_slice());
    Some(config)
}
/// Relies on HighlightConfiguration::new with the tree-sitter-typescript grammar
/// and its bundled queries, which that grammar accepts, so a
/// configuration always comes back.
#[verifier::external_body]
fn typescript_config(names: &Vec<String>) -> (r: Option<tree_sitter_highlight::HighlightConfiguration>)
    ensures
        r is Some,
{
    let mut config = tree_sitter_highlight::HighlightConfiguration::new(
        tree_sitter_typescript::LANGUAGE_TYPESCRIPT.into(), "typescript", tree_sitter_typescript::HIGHLIGHTS_QUERY, "", tree_sitter_typescript::LOCALS_QUERY,
    ).ok()?;
    config.configure(names.as_slice());
    Some(config)
}
/// Relies on HighlightConfiguration::new with the tree-sitter-typescript grammar
/// and its bundled queries, which that grammar accepts, so a
/// configuration always comes back.
#[verifier::external_body]
fn tsx_config(names: &Vec<String>) -> (r: Option<tree_sitter_highlight::HighlightConfiguration>)
    ensures
        r is Some,
{
    let mut config = tree_sitter_highlight::HighlightConfiguration::new(
        tree_sitter_typescript::LANGUAGE_TSX.into(), "tsx", tree_sitter_typescript::HIGHLIGHTS_QUERY, "", tree_sitter_typescript::LOCALS_QUERY,
    ).ok()?;
    config.configure(names.as_slice());
    Some(config)
}
/// Relies on HighlightConfiguration::new with the tree-sitter-yaml grammar
/// and its bundled queries, which that grammar accepts, so a
/// configuration always comes back.
#[verifier::external_body]
fn yaml_config(names: &Vec<String>) -> (r: Option<tree_sitter_highlight::HighlightConfiguration>)
    ensures
        r is Some,
{
    let mut config = tree_sitter_highlight::HighlightConfiguration::new(
        tree_sitter_yaml::LANGUAGE.into(), "yaml", tree_sitter_yaml::HIGHLIGHTS_QUERY, "", "",
    ).ok()?;
    config.configure(names.as_slice());
    Some(config)
}

/// The grammar configuration for a language, built with the recognised
/// scope names; every language has one, except plain text.
fn language_config(language: HighlightLanguage, names: &Vec<String>) -> (r: Option<
    tree_sitter_highlight::HighlightConfiguration,
>)
    ensures
        language == HighlightLanguage::Plaintext <==> r is None,
{
    match language {
        HighlightLanguage::C => c_config(names),
        HighlightLanguage::Cpp => cpp_config(names),
        HighlightLanguage::CSharp => c_sharp_config(names),
        HighlightLanguage::Css => css_config(names),
        HighlightLanguage::Html => html_config(names),
        HighlightLanguage::Java => java_config(names),
        HighlightLanguage::Javascript => javascript_config(names),
        HighlightLanguage::Jsx => jsx_config(names),
        HighlightLanguage::Json => json_config(names),
        HighlightLanguage::Lua => lua_config(names),
        HighlightLanguage::Markdown => markdown_config(names),
        HighlightLanguage::Php => php_config(names),
        HighlightLanguage::Python => python_config(names),
        HighlightLanguage::Ruby => ruby_config(names),
        HighlightLanguage::Rust => rust_config(names),
        HighlightLanguage::Swift => swift_config(names),
        HighlightLanguage::Toml => toml_config(names),
        HighlightLanguage::Typescript => typescript_config(names),
        HighlightLanguage::Tsx => tsx_config(names),
        HighlightLanguage::Yaml => yaml_config(names),
        HighlightLanguage::Plaintext => None,
    }
}

/// Relies on Highlighter::new: a fresh incremental highlighter.
#[verifier::external_body]
fn new_highlighter() -> tree_sitter_highlight::Highlighter {
    tree_sitter_highlight::Highlighter::new()
}

/// Look up the configuration for the language an injected-language token
/// names, for highlighting embedded code.
fn injection_lookup<'a>(
    configs: &'a Vec<(HighlightLanguage, Option<tree_sitter_highlight::HighlightConfiguration>)>,
    token: &str,
) -> (r: Option<&'a tree_sitter_highlight::HighlightConfiguration>) {
    let language = HighlightLanguage::from_token(token);
    let mut i: usize = 0;
    while i < configs.len()
        decreases configs@.len() - i,
    {
        if configs[i].0 == language {
            return match &configs[i].1 {
                Some(c) => Some(c),
                None => None,
            };
        }
        i += 1;
    }
    None
}

/// Relies on Highlighter::highlight: walks the parsed file and yields
/// nested scope start/end events; source runs carry byte offsets into
/// the file's UTF-8 encoding. Any highlighting error yields `None`.
#[verifier::external_body]
fn run_highlighter(
    highlighter: &mut tree_sitter_highlight::Highlighter,
    config: &tree_sitter_highlight::HighlightConfiguration,
    configs: &Vec<(HighlightLanguage, Option<tree_sitter_highlight::HighlightConfiguration>)>,
    file: &str,
) -> (r: Option<Vec<RawHighlightEvent>>) {
    let cb = |token: &str| injection_lookup(configs, token);
    let events = highlighter.highlight(config, file.as_bytes(), None, None, cb).ok()?;
    events.map(|event| match event.ok()? {
        tree_sitter_highlight::HighlightEvent::HighlightStart(h) => Some(RawHighlightEvent::Start(h.0)),
        tree_sitter_highlight::HighlightEvent::Source { start, end } => Some(RawHighlightEvent::Source(start, end)),
        tree_sitter_highlight::HighlightEvent::HighlightEnd => Some(RawHighlightEvent::End),
    }).collect()
}

/// The byte length of one character in the UTF-8 encoding, decided by
/// its code point alone.
pub open spec fn utf8_len(c: char) -> int {
    if (c as u32) < 0x80 {
        1
    } else if (c as u32) < 0x800 {
        2
    } else if (c as u32) < 0x10000 {
        3
    } else {
        4
    }
}

fn utf8_len_exec(c: char) -> (r: usize)
    ensures
        r == utf8_len(c),
{
    if (c as u32) < 0x80 {
        1
    } else if (c as u32) < 0x800 {
        2
    } else if (c as u32) < 0x10000 {
        3
    } else {
        4
    }
}

/// The index of the character containing byte offset `b` of the text's
/// UTF-8 encoding; offsets at or past the end clamp to the char count.
pub open spec fn char_of_byte(s: Seq<char>, b: int) -> int
    decreases s.len(),
{
    if s.len() == 0 {
        0
    } else if b < utf8_len(s[0]) {
        0
    } else {
        1 + char_of_byte(s.drop_first(), b - utf8_len(s[0]))
    }
}

/// Convert a byte offset of the file's UTF-8 encoding into the index of
/// the character it falls in.
fn char_offset_at(file: &str, b: usize) -> (r: usize)
    ensures
        r == char_of_byte(file@, b as int),
        r <= file@.len(),
{
    let n = file.unicode_len();
    let mut ci: usize = 0;
    let mut bytes: usize = 0;
    proof {
        assert(file@.subrange(0, n as int) =~= file@);
    }
    while ci < n
        invariant
            ci <= n,
            n == file@.len(),
            bytes <= b,
            char_of_byte(file@, b as int) == ci + char_of_byte(
                file@.subrange(ci as int, n as int),
                b - bytes,
            ),
        decreases n - ci,
    {
        let ghost suffix = file@.subrange(ci as int, n as int);
        let l = utf8_len_exec(file.get_char(ci));
        proof {
            assert(suffix[0] == file@[ci as int]);
        }
        if b - bytes < l {
            proof {
                assert(char_of_byte(suffix, b - bytes) == 0);
            }
            return ci;
        }
        proof {
            assert(suffix.drop_first() =~= file@.subrange(ci + 1 as int, n as int));
            assert(char_of_byte(suffix, b - bytes) == 1 + char_of_byte(
                suffix.drop_first(),
                b - bytes - l,
            ));
        }
        bytes = bytes + l;
        ci += 1;
    }
    proof {
        assert(file@.subrange(n as int, n as int) =~= Seq::<char>::empty());
        assert(char_of_byte(file@.subrange(n as int, n as int), b - bytes) == 0);
    }
    ci
}

/// The class path a reported scope index names: the recognised name at
/// that index split on dots, or none for an out-of-range index.
pub open spec fn class_of_scope_index(names: Seq<Seq<char>>, idx: int) -> Option<Seq<Seq<char>>> {
    if 0 <= idx < names.len() {
        Some(split_on(names[idx], '.'))
    } else {
        None
    }
}

/// The flattening state after the first `k` events: the current source
/// run (its byte offsets converted to char offsets), the current class
/// path, and the spans emitted so far. A scope end emits the current
/// run with the current class, dropped when empty or stepping backwards
/// so the list stays sorted and non-overlapping.
pub open spec fn collect_state(
    events: Seq<RawHighlightEvent>,
    k: int,
    names: Seq<Seq<char>>,
    file: Seq<char>,
) -> (Option<(int, int)>, Option<Seq<Seq<char>>>, Seq<SpanView>)
    decreases k,
{
    if k <= 0 {
        (None, None, Seq::empty())
    } else {
        let st = collect_state(events, k - 1, names, file);
        match events[k - 1] {
            RawHighlightEvent::Start(idx) => (st.0, class_of_scope_index(names, idx as int), st.2),
            RawHighlightEvent::Source(a, b) => (
                Some((char_of_byte(file, a as int), char_of_byte(file, b as int))),
                st.1,
                st.2,
            ),
            RawHighlightEvent::End => match (st.0, st.1) {
                (Some(range), Some(cls)) => {
                    let floor: int = if st.2.len() > 0 {
                        st.2.last().1 as int
                    } else {
                        0
                    };
                    if range.0 >= floor && range.0 < range.1 {
                        (st.0, st.1, st.2.push((range.0 as usize, range.1 as usize, cls)))
                    } else {
                        st
                    }
                },
                _ => st,
            },
        }
    }
}

/// The spans the whole event stream flattens into.
pub open spec fn collected_spans(
    events: Seq<RawHighlightEvent>,
    names: Seq<Seq<char>>,
    file: Seq<char>,
) -> Seq<SpanView> {
    collect_state(events, events.len() as int, names, file).2
}

/// Flatten nested highlight events into a sorted, non-overlapping span
/// list: a source run seen between a scope start and its end takes that
/// scope's class path; runs that would step backwards or are empty are
/// dropped, keeping the list well formed.
#[verifier::loop_isolation(false)]
#[verifier::rlimit(100)]
fn collect_highlights(events: &Vec<RawHighlightEvent>, names: &Vec<String>, file: &str) -> (r:
    Highlights)
    ensures
        r.wf(),
        r.view() == collected_spans(events@, names.deep_view(), file@),
        forall|i: int| 0 <= i < r.view().len() ==> (#[trigger] r.view()[i]).1 <= file@.len(),
{
    let mut spans: Vec<HighlightSpan> = Vec::new();
    let mut cur_range: Option<(usize, usize)> = None;
    let mut cur_class: Option<Vec<String>> = None;
    let mut i: usize = 0;
    while i < events.len()
        invariant
            i <= events@.len(),
            wf_spans(spans@.map_values(|s: HighlightSpan| span_view(s))),
            ({
                let st = collect_state(events@, i as int, names.deep_view(), file@);
                &&& match (cur_range, st.0) {
                    (Some(cr), Some(gr)) => cr.0 as int == gr.0 && cr.1 as int == gr.1 && cr.0
                        <= file@.len() && cr.1 <= file@.len(),
                    (None, None) => true,
                    _ => false,
                }
                &&& match (cur_class, st.1) {
                    (Some(c), Some(g)) => c.deep_view() == g,
                    (None, None) => true,
                    _ => false,
                }
                &&& spans@.map_values(|s: HighlightSpan| span_view(s)) == st.2
            }),
            forall|k: int|
                0 <= k < spans@.len() ==> (#[trigger] spans@[k]).1 <= file@.len(),
        decreases events@.len() - i,
    {
        proof {
            assert(collect_state(events@, i + 1 as int, names.deep_view(), file@)
                == match events@[i as int] {
                RawHighlightEvent::Start(idx) => (
                    collect_state(events@, i as int, names.deep_view(), file@).0,
                    class_of_scope_index(names.deep_view(), idx as int),
                    collect_state(events@, i as int, names.deep_view(), file@).2,
                ),
                RawHighlightEvent::Source(a, b) => (
                    Some((char_of_byte(file@, a as int), char_of_byte(file@, b as int))),
                    collect_state(events@, i as int, names.deep_view(), file@).1,
                    collect_state(events@, i as int, names.deep_view(), file@).2,
                ),
                RawHighlightEvent::End => collect_state(
                    events@,
                    i + 1 as int,
                    names.deep_view(),
                    file@,
                ),
            });
        }
        match &events[i] {
            RawHighlightEvent::Start(idx) => {
                cur_class = if *idx < names.len() {
                    let path = split_char(names[*idx].as_str(), '.');
                    proof {
                        assert(names[*idx as int]@ == names.deep_view()[*idx as int]);
                        assert(path.deep_view() == split_on(names.deep_view()[*idx as int], '.'));
                    }
                    Some(path)
                } else {
                    None
                };
            },
            RawHighlightEvent::Source(a, b) => {
                cur_range = Some((char_offset_at(file, *a), char_offset_at(file, *b)));
            },
            RawHighlightEvent::End => {
                if let (Some(range), Some(class)) = (&cur_range, &cur_class) {
                    let floor: usize = if spans.len() > 0 {
                        spans[spans.len() - 1].1
                    } else {
                        0
                    };
                    proof {
                        let st = collect_state(events@, i as int, names.deep_view(), file@);
                        if spans@.len() > 0 {
                            assert(spans@.map_values(|s2: HighlightSpan| span_view(s2)).last()
                                == span_view(spans@[spans@.len() - 1]));
                            assert(floor as int == if st.2.len() > 0 {
                                st.2.last().1 as int
                            } else {
                                0
                            });
                        }
                    }
                    if range.0 >= floor && range.0 < range.1 {
                        let ghost old_spans = spans@.map_values(|s: HighlightSpan| span_view(s));
                        spans.push((range.0, range.1, class.clone()));
                        proof {
                            let new_spans = spans@.map_values(|s: HighlightSpan| span_view(s));
                            assert(new_spans =~= old_spans.push(span_view(spans@[spans@.len() - 1])));
                            assert forall|k: int| 0 <= k < new_spans.len() - 1 implies (
                            #[trigger] new_spans[k]).1 <= new_spans[k + 1].0 by {
                                if k < old_spans.len() - 1 {
                                    assert(new_spans[k] == old_spans[k]);
                                    assert(new_spans[k + 1] == old_spans[k + 1]);
                                }
                            }
                        }
                    }
                }
            },
        }
        i += 1;
    }
    proof {
        assert(collect_state(events@, events@.len() as int, names.deep_view(), file@).2
            == spans@.map_values(|s: HighlightSpan| span_view(s)));
    }
    Highlights(spans)
}

/// Runs the incremental highlighter, holding one grammar configuration
/// per language, built once when the highlighter is created and reused
/// for every file.
pub struct SyntaxHighlighter {
    highlighter: tree_sitter_highlight::Highlighter,
    configs: Vec<(HighlightLanguage, Option<tree_sitter_highlight::HighlightConfiguration>)>,
    names: Vec<String>,
}

impl SyntaxHighlighter {
    /// The registry holds an entry for this language.
    pub closed spec fn has_language(self, language: HighlightLanguage) -> bool {
        exists|i: int|
            0 <= i < self.configs@.len() && (#[trigger] self.configs@[i]).0 == language
    }

    /// The registry is complete and canonical: every language has an
    /// entry, exactly the plain-text entries are unconfigured, and the
    /// scope-name table is the recognised one.
    pub closed spec fn wf(self) -> bool {
        &&& forall|i: int|
            0 <= i < self.configs@.len() ==> ((#[trigger] self.configs@[i]).0
                == HighlightLanguage::Plaintext <==> self.configs@[i].1 is None)
        &&& forall|language: HighlightLanguage| #[trigger] self.has_language(language)
        &&& self.names.deep_view() == scope_names()
    }

    /// Build a highlighter with every language's grammar configured.
    /// Compiling the grammars is expensive: build one highlighter and
    /// reuse it across files rather than building one per diff.
    pub fn new() -> (r: Self)
        ensures
            r.wf(),
    {
        let names = highlight_names();
        let mut all_languages: Vec<HighlightLanguage> = Vec::new();
    all_languages.push(HighlightLanguage::C);
    all_languages.push(HighlightLanguage::Cpp);
    all_languages.push(HighlightLanguage::CSharp);
    all_languages.push(HighlightLanguage::Css);
    all_languages.push(HighlightLanguage::Html);
    all_languages.push(HighlightLanguage::Java);
    all_languages.push(HighlightLanguage::Javascript);
    all_languages.push(HighlightLanguage::Jsx);
    all_languages.push(HighlightLanguage::Json);
    all_languages.push(HighlightLanguage::Lua);
    all_languages.push(HighlightLanguage::Markdown);
    all_languages.push(HighlightLanguage::Php);
    all_languages.push(HighlightLanguage::Python);
    all_languages.push(HighlightLanguage::Ruby);
    all_languages.push(HighlightLanguage::Rust);
    all_languages.push(HighlightLanguage::Swift);
    all_languages.push(HighlightLanguage::Toml);
    all_languages.push(HighlightLanguage::Typescript);
    all_languages.push(HighlightLanguage::Tsx);
    all_languages.push(HighlightLanguage::Yaml);
        all_languages.push(HighlightLanguage::Plaintext);
        let mut configs: Vec<(
            HighlightLanguage,
            Option<tree_sitter_highlight::HighlightConfiguration>,
        )> = Vec::new();
        let mut i: usize = 0;
        while i < all_languages.len()
            invariant
                i <= all_languages@.len(),
                configs@.len() == i,
                forall|j: int|
                    0 <= j < configs@.len() ==> ((#[trigger] configs@[j]).0
                        == HighlightLanguage::Plaintext <==> configs@[j].1 is None),
                forall|j: int| 0 <= j < i ==> (#[trigger] configs@[j]).0 == all_languages@[j],
            decreases all_languages@.len() - i,
        {
            let language = all_languages[i];
            let config = language_config(language, &names);
            configs.push((language, config));
            i += 1;
        }
        let r2 = Self { highlighter: new_highlighter(), configs, names };
        proof {
            assert(r2.configs@.len() == 21);
            assert forall|language: HighlightLanguage| #[trigger] r2.has_language(language) by {
                match language {
                    HighlightLanguage::C => {
                        assert(r2.configs@[0].0 == language);
                    },
                    HighlightLanguage::Cpp => {
                        assert(r2.configs@[1].0 == language);
                    },
                    HighlightLanguage::CSharp => {
                        assert(r2.configs@[2].0 == language);
                    },
                    HighlightLanguage::Css => {
                        assert(r2.configs@[3].0 == language);
                    },
                    HighlightLanguage::Html => {
                        assert(r2.configs@[4].0 == language);
                    },
                    HighlightLanguage::Java => {
                        assert(r2.configs@[5].0 == language);
                    },
                    HighlightLanguage::Javascript => {
                        assert(r2.configs@[6].0 == language);
                    },
                    HighlightLanguage::Jsx => {
                        assert(r2.configs@[7].0 == language);
                    },
                    HighlightLanguage::Json => {
                        assert(r2.configs@[8].0 == language);
                    },
                    HighlightLanguage::Lua => {
                        assert(r2.configs@[9].0 == language);
                    },
                    HighlightLanguage::Markdown => {
                        assert(r2.configs@[10].0 == language);
                    },
                    HighlightLanguage::Php => {
                        assert(r2.configs@[11].0 == language);
                    },
                    HighlightLanguage::Python => {
                        assert(r2.configs@[12].0 == language);
                    },
                    HighlightLanguage::Ruby => {
                        assert(r2.configs@[13].0 == language);
                    },
                    HighlightLanguage::Rust => {
                        assert(r2.configs@[14].0 == language);
                    },
                    HighlightLanguage::Swift => {
                        assert(r2.configs@[15].0 == language);
                    },
                    HighlightLanguage::Toml => {
                        assert(r2.configs@[16].0 == language);
                    },
                    HighlightLanguage::Typescript => {
                        assert(r2.configs@[17].0 == language);
                    },
                    HighlightLanguage::Tsx => {
                        assert(r2.configs@[18].0 == language);
                    },
                    HighlightLanguage::Yaml => {
                        assert(r2.configs@[19].0 == language);
                    },
                    HighlightLanguage::Plaintext => {
                        assert(r2.configs@[20].0 == language);
                    },
                }
            }
            assert(r2.names.deep_view() == scope_names());
        }
        r2
    }

    /// Highlight one whole file revision as the given language, yielding
    /// its flat span list: the flattening of the event stream the
    /// highlighter reports for that language's grammar on this text.
    /// Plain text yields no spans, and so does a highlighting error.
    /// Offsets in the result count characters of the file text.
    pub fn highlight(&mut self, language: HighlightLanguage, file: &str) -> (r: Highlights)
        requires
            old(self).wf(),
        ensures
            r.wf(),
            final(self).wf(),
            language == HighlightLanguage::Plaintext ==> r.view().len() == 0,
            language != HighlightLanguage::Plaintext ==> r.view() == match highlight_events_of(
                language,
                file@,
            ) {
                Some(events) => collected_spans(events, scope_names(), file@),
                None => Seq::<SpanView>::empty(),
            },
            forall|i: int| 0 <= i < r.view().len() ==> (#[trigger] r.view()[i]).1 <= file@.len(),
    {
        let mut found: Option<usize> = None;
        let mut i: usize = 0;
        while i < self.configs.len() && found.is_none()
            invariant
                i <= self.configs@.len(),
                found is None ==> forall|j: int|
                    0 <= j < i ==> (#[trigger] self.configs@[j]).0 != language,
                match found {
                    Some(k) => k < self.configs@.len() && self.configs@[k as int].0 == language,
                    None => true,
                },
            decreases self.configs@.len() - i + if found is Some {
                0int
            } else {
                1int
            },
        {
            if self.configs[i].0 == language {
                found = Some(i);
            } else {
                i += 1;
            }
        }
        let k = match found {
            Some(k) => k,
            None => {
                // The registry holds every language, so the search found one.
                proof {
                    assert(old(self).has_language(language));
                    let j = choose|j: int|
                        0 <= j < old(self).configs@.len() && (#[trigger] old(
                            self,
                        ).configs@[j]).0 == language;
                    assert(self.configs@[j].0 == language);
                    assert(false);
                }
                return Highlights(Vec::new());
            },
        };
        let has_config = match &self.configs[k].1 {
            Some(_) => true,
            None => false,
        };
        if !has_config {
            let r = Highlights(Vec::new());
            proof {
                assert(self.configs@[k as int].0 == HighlightLanguage::Plaintext);
                assert(language == HighlightLanguage::Plaintext);
                assert(r.view() =~= Seq::<SpanView>::empty());
            }
            return r;
        }
        proof {
            assert(self.configs@[k as int].0 != HighlightLanguage::Plaintext);
            assert(language != HighlightLanguage::Plaintext);
        }
        let events_opt = run_highlight_at(self, k, file);
        proof {
            assert forall|language2: HighlightLanguage| #[trigger] self.has_language(
                language2,
            ) by {
                assert(old(self).has_language(language2));
                let j = choose|j: int|
                    0 <= j < old(self).configs@.len() && (#[trigger] old(self).configs@[j]).0
                        == language2;
                assert(self.configs@[j].0 == language2);
            }
            assert(self.wf());
        }
        let events = match events_opt {
            Some(events) => events,
            None => {
                let r = Highlights(Vec::new());
                proof {
                    assert(highlight_events_of(language, file@) is None);
                    assert(r.view() =~= Seq::<SpanView>::empty());
                }
                return r;
            },
        };
        proof {
            assert(highlight_events_of(language, file@) == Some(events@));
            assert(self.names.deep_view() == scope_names());
        }
        collect_highlights(&events, &self.names, file)
    }
}

/// The event stream the incremental highlighter reports for one
/// language's grammar configuration on one file text; the parse is
/// deterministic, so it is a function of the two. `None` stands for a
/// highlighting error.
pub uninterp spec fn highlight_events_of(language: HighlightLanguage, file: Seq<char>) -> Option<
    Seq<RawHighlightEvent>,
>;

/// Relies on Highlighter::highlight through `run_highlighter`, borrowing
/// the stored configuration at the given index. The registry is the one
/// `new` builds (its fields are private and `highlight` leaves them
/// untouched), so the entry at `k` is the configuration `language_config`
/// yields for its language, and the event stream is a function of that
/// language and the file text. The registry and name table are left
/// untouched.
#[verifier::external_body]
fn run_highlight_at(sh: &mut SyntaxHighlighter, k: usize, file: &str) -> (r: Option<
    Vec<RawHighlightEvent>,
>)
    requires
        old(sh).wf(),
        k < old(sh).configs@.len(),
        old(sh).configs@[k as int].1 is Some,
    ensures
        final(sh).configs == old(sh).configs,
        final(sh).names == old(sh).names,
        match r {
            Some(events) => highlight_events_of(old(sh).configs@[k as int].0, file@) == Some(
                events@,
            ),
            None => highlight_events_of(old(sh).configs@[k as int].0, file@) is None,
        },
{
    let config = sh.configs.get(k)?.1.as_ref()?;
    run_highlighter(&mut sh.highlighter, config, &sh.configs, file)
}

} // verus!
