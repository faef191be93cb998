//! What a run reports: one result per model, one per case, the graders that
//! judged it, and the ranking the whole run adds up to.
//!
//! Scores are reported as percentages rounded to two decimals; the library
//! holds such a percentage as a whole number of hundredths of a percent.

use vstd::prelude::*;
use crate::text::{
    less_text, text_less, lemma_text_less_irreflexive, lemma_text_less_total,
    lemma_text_less_transitive,
};
use vstd::relations::{sorted_by, total_ordering};

verus! {

broadcast use vstd::seq_lib::group_to_multiset_ensures;

/// The schema that a report declares.
pub const REPORT_SCHEMA: &'static str = "singularity.benchmark.report.v1";

#[derive(PartialEq, Eq, Structural, Clone, Copy, Debug)]
pub enum Verdict {
    Qualified,
    Strong,
    Partial,
    Refused,
}

/// What one grader found.
pub struct GraderResult {
    pub id: String,
    pub passed: bool,
    pub points: u32,
    pub maximum_points: u32,
    pub hard: bool,
    pub detail: String,
}

/// What one case came to. `tags` and `unexpected_paths` are in ascending
/// order.
pub struct CaseResult {
    pub case_id: String,
    pub tags: Vec<String>,
    pub completed: bool,
    pub singularity_status: Option<String>,
    pub score: u32,
    pub maximum_score: u32,
    pub hard_failures: u32,
    pub elapsed_ms: u128,
    pub unexpected_paths: Vec<String>,
    pub graders: Vec<GraderResult>,
    pub error: Option<String>,
}

/// What one model came to over the whole dataset.
pub struct ModelResult {
    pub model: String,
    pub score: u32,
    pub maximum_score: u32,
    /// The score as a percentage of the maximum, in hundredths of a percent.
    pub score_hundredths: u64,
    pub hard_failures: u32,
    pub completed_cases: u32,
    pub total_cases: u32,
    pub elapsed_ms: u128,
    pub verdict: Verdict,
    pub cases: Vec<CaseResult>,
}

/// One line of the ranking.
pub struct RankingEntry {
    pub rank: usize,
    pub model: String,
    /// The score as a percentage, in hundredths of a percent.
    pub score_hundredths: u64,
    pub hard_failures: u32,
    pub completed_cases: u32,
    pub elapsed_ms: u128,
    pub verdict: Verdict,
}

/// `score` as a percentage of `maximum` rounded to two decimals, half away
/// from zero, in hundredths of a percent; zero when the maximum is zero.
pub open spec fn percent_of(score: u32, maximum: u32) -> int {
    if maximum == 0 {
        0
    } else {
        (20000 * score + maximum) / (2 * maximum)
    }
}

/// `score` as a percentage of `maximum`, in hundredths of a percent.
pub fn percent(score: u32, maximum: u32) -> (r: u64)
    ensures
        r == percent_of(score, maximum),
{
    if maximum == 0 {
        0
    } else {
        let s = score as u64;
        let m = maximum as u64;
        (20000 * s + m) / (2 * m)
    }
}

/// The lowest score of a qualified model, in hundredths of a percent (85%).
pub const QUALIFIED_SCORE: u64 = 8500;
/// The lowest score of a strong model, in hundredths of a percent (70%).
pub const STRONG_SCORE: u64 = 7000;
/// The lowest score of a partial model, in hundredths of a percent (40%).
pub const PARTIAL_SCORE: u64 = 4000;

/// The verdict on a model: qualified with 85% and more, no hard failure and
/// every case completed; strong with 70% and more and no hard failure;
/// partial with 40% and more; refused below.
pub open spec fn verdict_of(score: u64, hard_failures: u32, completed: u32, total: u32) -> Verdict {
    if score >= QUALIFIED_SCORE && hard_failures == 0 && completed == total {
        Verdict::Qualified
    } else if score >= STRONG_SCORE && hard_failures == 0 {
        Verdict::Strong
    } else if score >= PARTIAL_SCORE {
        Verdict::Partial
    } else {
        Verdict::Refused
    }
}

/// The verdict on a model's score (in hundredths of a percent), hard
/// failures and completed cases.
pub fn verdict(score: u64, hard_failures: u32, completed: u32, total: u32) -> (r: Verdict)
    ensures
        r == verdict_of(score, hard_failures, completed, total),
{
    if score >= QUALIFIED_SCORE && hard_failures == 0 && completed == total {
        Verdict::Qualified
    } else if score >= STRONG_SCORE && hard_failures == 0 {
        Verdict::Strong
    } else if score >= PARTIAL_SCORE {
        Verdict::Partial
    } else {
        Verdict::Refused
    }
}

/// A model judged qualified scored at least 85%, had no hard failure and
/// completed every case; one judged strong scored at least 70% with no hard
/// failure; one judged partial scored at least 40%.
pub proof fn lemma_verdict_floors(score: u64, hard_failures: u32, completed: u32, total: u32)
    ensures
        verdict_of(score, hard_failures, completed, total) == Verdict::Qualified ==> score >= 8500
            && hard_failures == 0 && completed == total,
        verdict_of(score, hard_failures, completed, total) == Verdict::Strong ==> score >= 7000
            && hard_failures == 0,
        verdict_of(score, hard_failures, completed, total) == Verdict::Partial ==> score >= 4000,
        verdict_of(score, hard_failures, completed, total) == Verdict::Refused ==> score < 8500
            || hard_failures > 0 || completed != total,
{
}

/// The merit of a verdict, from refused (lowest) to qualified (highest).
pub open spec fn verdict_rank(v: Verdict) -> int {
    match v {
        Verdict::Qualified => 3,
        Verdict::Strong => 2,
        Verdict::Partial => 1,
        Verdict::Refused => 0,
    }
}

/// A higher score never earns a lower verdict, all else equal.
pub proof fn lemma_verdict_monotone(low: u64, high: u64, hard_failures: u32, completed: u32, total: u32)
    requires
        low <= high,
    ensures
        verdict_rank(verdict_of(low, hard_failures, completed, total)) <= verdict_rank(
            verdict_of(high, hard_failures, completed, total),
        ),
{
}

/// A higher score never makes a lower percentage of the same maximum.
pub proof fn lemma_percent_monotone(low: u32, high: u32, maximum: u32)
    requires
        low <= high,
    ensures
        percent_of(low, maximum) <= percent_of(high, maximum),
{
    if maximum > 0 {
        let m = maximum as int;
        assert((20000 * low + m) / (2 * m) <= (20000 * high + m) / (2 * m)) by (nonlinear_arith)
            requires
                low <= high,
                m > 0,
        ;
    }
}

/// What the ranking orders and reports of a model: its score, hard
/// failures, completed cases, time, name and verdict.
pub type RankView = (u64, u32, u32, u128, Seq<char>, Verdict);

pub open spec fn result_view(r: ModelResult) -> RankView {
    (r.score_hundredths, r.hard_failures, r.completed_cases, r.elapsed_ms, r.model@, r.verdict)
}

pub open spec fn entry_view(e: RankingEntry) -> RankView {
    (e.score_hundredths, e.hard_failures, e.completed_cases, e.elapsed_ms, e.model@, e.verdict)
}

/// Whether `a` ranks above `b`: a higher score; then fewer hard failures;
/// then more completed cases; then less time; then the model's name.
pub open spec fn ranks_above(a: RankView, b: RankView) -> bool {
    ||| a.0 > b.0
    ||| a.0 == b.0 && a.1 < b.1
    ||| a.0 == b.0 && a.1 == b.1 && a.2 > b.2
    ||| a.0 == b.0 && a.1 == b.1 && a.2 == b.2 && a.3 < b.3
    ||| a.0 == b.0 && a.1 == b.1 && a.2 == b.2 && a.3 == b.3 && text_less(a.4, b.4)
}

/// No model ranks above itself, nor both above and below another.
pub proof fn lemma_ranks_above_asymmetric(a: RankView, b: RankView)
    ensures
        !(ranks_above(a, b) && ranks_above(b, a)),
{
    lemma_text_less_total(a.4, b.4);
}

/// Ranking above is transitive.
pub proof fn lemma_ranks_above_transitive(a: RankView, b: RankView, c: RankView)
    requires
        ranks_above(a, b),
        ranks_above(b, c),
    ensures
        ranks_above(a, c),
{
    if a.0 == b.0 && a.1 == b.1 && a.2 == b.2 && a.3 == b.3 && b.0 == c.0 && b.1 == c.1 && b.2
        == c.2 && b.3 == c.3 {
        lemma_text_less_transitive(a.4, b.4, c.4);
    }
}

/// Two models of which neither ranks above the other agree on everything
/// that the ranking compares.
pub proof fn lemma_ranks_above_total(a: RankView, b: RankView)
    ensures
        !ranks_above(a, b) && !ranks_above(b, a) ==> (a.0 == b.0 && a.1 == b.1 && a.2 == b.2
            && a.3 == b.3 && a.4 == b.4),
{
    lemma_text_less_total(a.4, b.4);
}

/// Whether `a` ranks above `b`.
pub fn ranks_before(a: &RankingEntry, b: &RankingEntry) -> (r: bool)
    ensures
        r == ranks_above(entry_view(*a), entry_view(*b)),
{
    if a.score_hundredths != b.score_hundredths {
        return a.score_hundredths > b.score_hundredths;
    }
    if a.hard_failures != b.hard_failures {
        return a.hard_failures < b.hard_failures;
    }
    if a.completed_cases != b.completed_cases {
        return a.completed_cases > b.completed_cases;
    }
    if a.elapsed_ms != b.elapsed_ms {
        return a.elapsed_ms < b.elapsed_ms;
    }
    less_text(a.model.as_str(), b.model.as_str())
}

/// Inserting into a sequence inserts into its multiset.
proof fn lemma_insert_to_multiset<A>(s: Seq<A>, p: int, x: A)
    requires
        0 <= p <= s.len(),
    ensures
        s.insert(p, x).to_multiset() =~= s.to_multiset().insert(x),
{
    let t = s.insert(p, x);
    assert(t.remove(p) =~= s);
    assert(t[p] == x);
    assert(t.remove(p).to_multiset() =~= t.to_multiset().remove(x));
    assert(t.to_multiset().count(x) > 0) by {
        assert(t.contains(x));
    }
}

/// The views of `s` that tie with `v`, in order.
pub open spec fn tied_with(s: Seq<RankView>, v: RankView) -> Seq<RankView> {
    s.filter(|w: RankView| ties(w, v))
}

/// Among results that tie, the ranking keeps the order in which they came:
/// for every view, the entries that tie with it are, in order, the results
/// that tie with it.
pub open spec fn ties_keep_order(results: Seq<ModelResult>, ranking: Seq<RankingEntry>) -> bool {
    forall|v: RankView| #[trigger] tied_with(entry_views(ranking), v) == tied_with(result_views(results), v)
}

/// The views of a ranking's entries.
pub open spec fn entry_views(ranking: Seq<RankingEntry>) -> Seq<RankView> {
    ranking.map_values(|e: RankingEntry| entry_view(e))
}

/// The views of results.
pub open spec fn result_views(results: Seq<ModelResult>) -> Seq<RankView> {
    results.map_values(|r: ModelResult| result_view(r))
}

/// Inserting `e` at `p`, where nothing from `p` on ties with `v` if `e`
/// does, adds `e` at the end of the views that tie with `v`, if it ties.
proof fn lemma_tied_with_insert(s: Seq<RankView>, p: int, e: RankView, v: RankView)
    requires
        0 <= p <= s.len(),
        ties(e, v) ==> forall|q: int| p <= q < s.len() ==> !ties(#[trigger] s[q], v),
    ensures
        tied_with(s.insert(p, e), v) == if ties(e, v) {
            tied_with(s, v).push(e)
        } else {
            tied_with(s, v)
        },
{
    let pred = |w: RankView| ties(w, v);
    let head = s.take(p);
    let tail = s.skip(p);
    assert(s.insert(p, e) =~= head + seq![e] + tail);
    assert(s =~= head + tail);
    assert(seq![e] =~= Seq::<RankView>::empty().push(e));
    Seq::filter_distributes_over_add(head + seq![e], tail, pred);
    Seq::filter_distributes_over_add(head, seq![e], pred);
    Seq::filter_distributes_over_add(head, tail, pred);
    Seq::<RankView>::empty().lemma_filter_push(e, pred);
    assert(Seq::<RankView>::empty().filter(pred) =~= Seq::<RankView>::empty()) by {
        reveal(Seq::filter);
    }
    if ties(e, v) {
        if tail.filter(pred).len() > 0 {
            let w = tail.filter(pred)[0];
            tail.lemma_filter_pred(pred, 0);
            assert(tail.filter(pred).contains(w));
            tail.lemma_filter_contains_rev(pred, w);
            let q = choose|q: int| 0 <= q < tail.len() && tail[q] == w;
            assert(s[p + q] == w);
        }
        assert(tail.filter(pred) =~= Seq::<RankView>::empty());
        assert(head.filter(pred) + seq![e] + Seq::<RankView>::empty() =~= head.filter(pred).push(e));
        assert(head.filter(pred) + Seq::<RankView>::empty() =~= head.filter(pred));
    } else {
        assert(head.filter(pred) + Seq::<RankView>::empty() =~= head.filter(pred));
    }
}

/// The entries in ranking order, ranked from 1: the results, each once,
/// ordered so that no entry ranks above one before it.
pub open spec fn is_ranking(results: Seq<ModelResult>, ranking: Seq<RankingEntry>) -> bool {
    &&& ranking.len() == results.len()
    &&& forall|i: int| 0 <= i < ranking.len() ==> #[trigger] ranking[i].rank == i + 1
    &&& forall|i: int, j: int|
        #![trigger ranking[i], ranking[j]]
        0 <= i < j < ranking.len() ==> !ranks_above(entry_view(ranking[j]), entry_view(ranking[i]))
    &&& ranking.map_values(|e: RankingEntry| entry_view(e)).to_multiset()
        == results.map_values(|r: ModelResult| result_view(r)).to_multiset()
}

/// Ranks the models: by score, then fewer hard failures, then more completed
/// cases, then less time, then name; the first ranks 1.
pub fn rank(results: &[ModelResult]) -> (r: Vec<RankingEntry>)
    ensures
        is_ranking(results@, r@),
        ties_keep_order(results@, r@),
{
    let ghost f = |e: RankingEntry| entry_view(e);
    let ghost g = |r: ModelResult| result_view(r);
    let mut sorted: Vec<RankingEntry> = Vec::new();
    let mut i: usize = 0;
    while i < results.len()
        invariant
            f == (|e: RankingEntry| entry_view(e)),
            g == (|r: ModelResult| result_view(r)),
            i <= results.len(),
            sorted.len() == i,
            forall|a: int, b: int|
                #![trigger sorted@[a], sorted@[b]]
                0 <= a < b < sorted.len() ==> !ranks_above(entry_view(sorted@[b]), entry_view(sorted@[a])),
            sorted@.map_values(f).to_multiset() == results@.take(i as int).map_values(g).to_multiset(),
            forall|v: RankView|
                #[trigger] tied_with(sorted@.map_values(f), v) == tied_with(
                    results@.take(i as int).map_values(g),
                    v,
                ),
        decreases results.len() - i,
    {
        let r = &results[i];
        let entry = RankingEntry {
            rank: 0,
            model: r.model.clone(),
            score_hundredths: r.score_hundredths,
            hard_failures: r.hard_failures,
            completed_cases: r.completed_cases,
            elapsed_ms: r.elapsed_ms,
            verdict: r.verdict,
        };
        assert(entry_view(entry) == result_view(results@[i as int]));
        let mut p: usize = 0;
        while p < sorted.len() && !ranks_before(&entry, &sorted[p])
            invariant
                i < results.len(),
                entry_view(entry) == result_view(results@[i as int]),
                p <= sorted.len(),
                forall|q: int| 0 <= q < p ==> !ranks_above(entry_view(entry), #[trigger] entry_view(sorted@[q])),
            decreases sorted.len() - p,
        {
            p = p + 1;
        }
        let ghost old_sorted = sorted@;
        proof {
            lemma_insert_to_multiset(old_sorted.map_values(f), p as int, f(entry));
            assert(old_sorted.insert(p as int, entry).map_values(f) =~= old_sorted.map_values(f).insert(p as int, f(entry)));
            assert(results@.take(i + 1).map_values(g) =~= results@.take(i as int).map_values(g).push(g(results@[i as int])));
            assert forall|a: int, b: int|
                #![trigger old_sorted.insert(p as int, entry)[a], old_sorted.insert(p as int, entry)[b]]
                0 <= a < b < old_sorted.len() + 1 implies !ranks_above(
                    entry_view(old_sorted.insert(p as int, entry)[b]),
                    entry_view(old_sorted.insert(p as int, entry)[a]),
                ) by {
                let t = old_sorted.insert(p as int, entry);
                if b == p {
                    assert(t[a] == old_sorted[a]);
                } else if a == p {
                    assert(t[b] == old_sorted[b - 1]);
                    if p < old_sorted.len() {
                        assert(ranks_above(entry_view(entry), entry_view(old_sorted[p as int])));
                        if b - 1 > p {
                            assert(!ranks_above(entry_view(old_sorted[b - 1]), entry_view(old_sorted[p as int])));
                        }
                        if ranks_above(entry_view(old_sorted[b - 1]), entry_view(entry)) {
                            if b - 1 == p {
                                lemma_ranks_above_asymmetric(entry_view(entry), entry_view(old_sorted[p as int]));
                            } else {
                                lemma_ranks_above_transitive(entry_view(old_sorted[b - 1]), entry_view(entry), entry_view(old_sorted[p as int]));
                            }
                        }
                    }
                } else {
                    let a0 = if a < p { a } else { a - 1 };
                    let b0 = if b < p { b } else { b - 1 };
                    assert(t[a] == old_sorted[a0]);
                    assert(t[b] == old_sorted[b0]);
                    assert(!ranks_above(entry_view(old_sorted[b0]), entry_view(old_sorted[a0])));
                }
            }
        }
        sorted.insert(p, entry);
        proof {
            assert(sorted@ == old_sorted.insert(p as int, entry));
            assert(f(entry) == g(results@[i as int]));
            assert(results@.take(i + 1).map_values(g).to_multiset() =~= results@.take(i as int).map_values(g).to_multiset().insert(g(results@[i as int])));
            assert(sorted@.map_values(f).to_multiset() =~= old_sorted.map_values(f).to_multiset().insert(f(entry)));
            let s = old_sorted.map_values(f);
            assert forall|q: int| p <= q < s.len() implies ranks_above(f(entry), #[trigger] s[q]) by {
                assert(s[q] == entry_view(old_sorted[q]));
                assert(s[p as int] == entry_view(old_sorted[p as int]));
                assert(ranks_above(entry_view(entry), entry_view(old_sorted[p as int])));
                if q > p {
                    assert(!ranks_above(entry_view(old_sorted[q]), entry_view(old_sorted[p as int])));
                    lemma_ranks_above_total(entry_view(old_sorted[p as int]), entry_view(old_sorted[q]));
                    if ranks_above(entry_view(old_sorted[p as int]), entry_view(old_sorted[q])) {
                        lemma_ranks_above_transitive(
                            entry_view(entry),
                            entry_view(old_sorted[p as int]),
                            entry_view(old_sorted[q]),
                        );
                    }
                }
            }
            assert forall|v: RankView| #[trigger] tied_with(sorted@.map_values(f), v) == tied_with(
                results@.take(i + 1).map_values(g),
                v,
            ) by {
                if ties(f(entry), v) {
                    assert forall|q: int| p <= q < s.len() implies !ties(#[trigger] s[q], v) by {
                        assert(ranks_above(f(entry), s[q]));
                        lemma_text_less_irreflexive(s[q].4);
                    }
                }
                lemma_tied_with_insert(s, p as int, f(entry), v);
                results@.take(i as int).map_values(g).lemma_filter_push(
                    g(results@[i as int]),
                    |w: RankView| ties(w, v),
                );
            }
        }
        i = i + 1;
    }
    assert(results@.take(results.len() as int) =~= results@);
    let mut ranking: Vec<RankingEntry> = Vec::new();
    let mut k: usize = 0;
    while k < sorted.len()
        invariant
            f == (|e: RankingEntry| entry_view(e)),
            k <= sorted.len(),
            ranking.len() == k,
            forall|q: int| 0 <= q < k ==> #[trigger] ranking@[q].rank == q + 1,
            forall|q: int| 0 <= q < k ==> entry_view(#[trigger] ranking@[q]) == entry_view(sorted@[q]),
        decreases sorted.len() - k,
    {
        let e = &sorted[k];
        ranking.push(RankingEntry {
            rank: k + 1,
            model: e.model.clone(),
            score_hundredths: e.score_hundredths,
            hard_failures: e.hard_failures,
            completed_cases: e.completed_cases,
            elapsed_ms: e.elapsed_ms,
            verdict: e.verdict,
        });
        k = k + 1;
    }
    assert(ranking@.map_values(f) =~= sorted@.map_values(f));
    assert(entry_views(ranking@) == ranking@.map_values(f));
    assert(result_views(results@) == results@.map_values(g));
    assert forall|v: RankView| #[trigger] tied_with(entry_views(ranking@), v) == tied_with(
        result_views(results@),
        v,
    ) by {
        assert(tied_with(sorted@.map_values(f), v) == tied_with(results@.take(results.len() as int).map_values(g), v));
    }
    assert forall|a: int, b: int|
        #![trigger ranking@[a], ranking@[b]]
        0 <= a < b < ranking.len() implies !ranks_above(entry_view(ranking@[b]), entry_view(ranking@[a])) by {
        assert(entry_view(ranking@[a]) == entry_view(sorted@[a]));
        assert(entry_view(ranking@[b]) == entry_view(sorted@[b]));
    }
    ranking
}

/// Two models tie when the ranking compares them equal: same score, hard
/// failures, completed cases, time and name.
pub open spec fn ties(a: RankView, b: RankView) -> bool {
    a.0 == b.0 && a.1 == b.1 && a.2 == b.2 && a.3 == b.3 && a.4 == b.4
}

/// The order of everything a ranking reports of a model: the ranking's
/// order, and among ties the verdict.
pub open spec fn view_leq(a: RankView, b: RankView) -> bool {
    ranks_above(a, b) || (ties(a, b) && verdict_rank(a.5) <= verdict_rank(b.5))
}

/// The models' names in `results` are pairwise distinct.
pub open spec fn distinct_models(results: Seq<ModelResult>) -> bool {
    forall|i: int, j: int|
        0 <= i < j < results.len() ==> #[trigger] results[i].model@ != #[trigger] results[j].model@
}

proof fn lemma_view_leq_total_ordering()
    ensures
        total_ordering(|a: RankView, b: RankView| view_leq(a, b)),
{
    let leq = |a: RankView, b: RankView| view_leq(a, b);
    assert forall|x: RankView| #[trigger] leq(x, x) by {}
    assert forall|x: RankView, y: RankView| #[trigger] leq(x, y) && #[trigger] leq(y, x) implies x
        == y by {
        lemma_ranks_above_asymmetric(x, y);
        lemma_text_less_irreflexive(x.4);
        if ties(x, y) {
            assert(x.5 == y.5);
        }
    }
    assert forall|x: RankView, y: RankView, z: RankView| #[trigger]
        leq(x, y) && #[trigger] leq(y, z) implies leq(x, z) by {
        lemma_text_less_irreflexive(x.4);
        if ranks_above(x, y) && ranks_above(y, z) {
            lemma_ranks_above_transitive(x, y, z);
        }
    }
    assert forall|x: RankView, y: RankView| #[trigger] leq(x, y) || #[trigger] leq(y, x) by {
        lemma_ranks_above_total(x, y);
    }
}

/// A sequence of views holding what `r` holds, with distinct names there,
/// that no view ranks above one before it is sorted by `view_leq`.
proof fn lemma_ordered_views_sorted(r: Seq<RankView>, xs: Seq<RankView>)
    requires
        xs.to_multiset() == r.to_multiset(),
        forall|a: int, b: int| 0 <= a < b < r.len() ==> #[trigger] r[a].4 != #[trigger] r[b].4,
        forall|i: int, j: int| 0 <= i < j < xs.len() ==> !ranks_above(#[trigger] xs[j], #[trigger] xs[i]),
    ensures
        sorted_by(xs, |a: RankView, b: RankView| view_leq(a, b)),
{
    let leq = |a: RankView, b: RankView| view_leq(a, b);
    assert forall|i: int, j: int| 0 <= i < j < xs.len() implies #[trigger] leq(xs[i], xs[j]) by {
        lemma_ranks_above_total(xs[i], xs[j]);
        if !ranks_above(xs[i], xs[j]) {
            assert(xs.contains(xs[i]) && xs.contains(xs[j]));
            assert(xs.to_multiset().count(xs[i]) > 0 && xs.to_multiset().count(xs[j]) > 0);
            assert(r.to_multiset().count(xs[i]) > 0 && r.to_multiset().count(xs[j]) > 0);
            assert(r.contains(xs[i]) && r.contains(xs[j]));
            let a = choose|a: int| 0 <= a < r.len() && r[a] == xs[i];
            let b = choose|b: int| 0 <= b < r.len() && r[b] == xs[j];
            if a < b {
                assert(r[a].4 != r[b].4);
            } else if b < a {
                assert(r[b].4 != r[a].4);
            }
        }
    }
}

/// Where no two results name the same model, the ranking does not depend on
/// the order in which the results arrive: any two rankings of the same
/// results, in whatever order, are equal entry by entry.
pub proof fn lemma_rank_order_free(
    results: Seq<ModelResult>,
    arrived: Seq<ModelResult>,
    x: Seq<RankingEntry>,
    y: Seq<RankingEntry>,
)
    requires
        distinct_models(results),
        arrived.map_values(|m: ModelResult| result_view(m)).to_multiset() == results.map_values(
            |m: ModelResult| result_view(m),
        ).to_multiset(),
        is_ranking(results, x),
        is_ranking(arrived, y),
    ensures
        x.len() == y.len(),
        forall|i: int|
            0 <= i < x.len() ==> #[trigger] x[i].rank == y[i].rank && entry_view(x[i])
                == entry_view(y[i]),
{
    let r = results.map_values(|m: ModelResult| result_view(m));
    let xs = x.map_values(|e: RankingEntry| entry_view(e));
    let ys = y.map_values(|e: RankingEntry| entry_view(e));
    assert forall|a: int, b: int| 0 <= a < b < r.len() implies #[trigger] r[a].4 != #[trigger] r[b].4 by {
        assert(results[a].model@ != results[b].model@);
    }
    assert forall|i: int, j: int| 0 <= i < j < xs.len() implies !ranks_above(
        #[trigger] xs[j],
        #[trigger] xs[i],
    ) by {
        assert(xs[i] == entry_view(x[i]) && xs[j] == entry_view(x[j]));
    }
    assert forall|i: int, j: int| 0 <= i < j < ys.len() implies !ranks_above(
        #[trigger] ys[j],
        #[trigger] ys[i],
    ) by {
        assert(ys[i] == entry_view(y[i]) && ys[j] == entry_view(y[j]));
    }
    lemma_ordered_views_sorted(r, xs);
    lemma_ordered_views_sorted(r, ys);
    lemma_view_leq_total_ordering();
    vstd::seq_lib::lemma_sorted_unique(xs, ys, |a: RankView, b: RankView| view_leq(a, b));
    assert forall|i: int| 0 <= i < x.len() implies #[trigger] x[i].rank == y[i].rank && entry_view(
        x[i],
    ) == entry_view(y[i]) by {
        assert(xs[i] == ys[i]);
    }
}

/// A percentage is `score / maximum` rounded to the nearest hundredth of a
/// percent, a half rounded up: `p` hundredths lie within half a hundredth
/// of `10000 * score / maximum`; with no maximum it is zero.
pub proof fn lemma_percent_rounds_to_nearest(score: u32, maximum: u32)
    ensures
        maximum == 0 ==> percent_of(score, maximum) == 0,
        maximum > 0 ==> 2 * maximum * percent_of(score, maximum) <= 20000 * score + maximum,
        maximum > 0 ==> 20000 * score + maximum < 2 * maximum * (percent_of(score, maximum) + 1),
{
    if maximum > 0 {
        let n = 20000 * score + maximum;
        let d = 2 * maximum;
        vstd::arithmetic::div_mod::lemma_fundamental_div_mod(n as int, d as int);
        let q = n / d;
        let r = n % d;
        assert(0 <= r < d);
        assert(d * q <= n < d * (q + 1)) by (nonlinear_arith)
            requires
                n == d * q + r,
                0 <= r < d,
        ;
    }
}

/// The verdict follows from the score, hard failures and completed cases
/// alone: 85% or more, no hard failure and every case completed is
/// qualified; otherwise 70% or more and no hard failure is strong;
/// otherwise 40% or more is partial; anything else is refused.
pub proof fn lemma_verdict_exact(score: u64, hard_failures: u32, completed: u32, total: u32)
    ensures
        score >= 8500 && hard_failures == 0 && completed == total ==> verdict_of(
            score,
            hard_failures,
            completed,
            total,
        ) == Verdict::Qualified,
        !(score >= 8500 && hard_failures == 0 && completed == total) && score >= 7000
            && hard_failures == 0 ==> verdict_of(score, hard_failures, completed, total)
            == Verdict::Strong,
        !(score >= 8500 && hard_failures == 0 && completed == total) && !(score >= 7000
            && hard_failures == 0) && score >= 4000 ==> verdict_of(score, hard_failures, completed, total)
            == Verdict::Partial,
        score < 4000 ==> verdict_of(score, hard_failures, completed, total) == Verdict::Refused,
{
}

/// A ranking puts its entries in order of the fields themselves: a higher
/// score first; among equal scores, fewer hard failures first, whatever the
/// completed cases; then more completed cases; then less time; then the
/// name in the order of `str`.
pub proof fn lemma_ranking_by_fields(results: Seq<ModelResult>, ranking: Seq<RankingEntry>, i: int, j: int)
    requires
        is_ranking(results, ranking),
        0 <= i < j < ranking.len(),
    ensures
        ranking[i].score_hundredths >= ranking[j].score_hundredths,
        ranking[i].score_hundredths == ranking[j].score_hundredths ==> ranking[i].hard_failures
            <= ranking[j].hard_failures,
        ranking[i].score_hundredths == ranking[j].score_hundredths && ranking[i].hard_failures
            == ranking[j].hard_failures ==> ranking[i].completed_cases >= ranking[j].completed_cases,
        ranking[i].score_hundredths == ranking[j].score_hundredths && ranking[i].hard_failures
            == ranking[j].hard_failures && ranking[i].completed_cases == ranking[j].completed_cases
            ==> ranking[i].elapsed_ms <= ranking[j].elapsed_ms,
        ranking[i].score_hundredths == ranking[j].score_hundredths && ranking[i].hard_failures
            == ranking[j].hard_failures && ranking[i].completed_cases == ranking[j].completed_cases
            && ranking[i].elapsed_ms == ranking[j].elapsed_ms ==> !text_less(
            ranking[j].model@,
            ranking[i].model@,
        ),
{
    assert(!ranks_above(entry_view(ranking[j]), entry_view(ranking[i])));
}

/// Which of two models ranks above the other, by the fields themselves:
/// `ranks_before` prefers the higher score; among equal scores the one with
/// fewer hard failures, whatever the completed cases; then more completed
/// cases; then less time; then the earlier name.
pub proof fn lemma_ranks_above_by_fields(a: RankingEntry, b: RankingEntry)
    ensures
        a.score_hundredths > b.score_hundredths ==> ranks_above(entry_view(a), entry_view(b)),
        a.score_hundredths == b.score_hundredths && a.hard_failures < b.hard_failures ==> ranks_above(
            entry_view(a),
            entry_view(b),
        ),
        a.score_hundredths == b.score_hundredths && a.hard_failures == b.hard_failures
            && a.completed_cases > b.completed_cases ==> ranks_above(entry_view(a), entry_view(b)),
        a.score_hundredths == b.score_hundredths && a.hard_failures == b.hard_failures
            && a.completed_cases == b.completed_cases && a.elapsed_ms < b.elapsed_ms ==> ranks_above(
            entry_view(a),
            entry_view(b),
        ),
        a.score_hundredths == b.score_hundredths && a.hard_failures == b.hard_failures
            && a.completed_cases == b.completed_cases && a.elapsed_ms == b.elapsed_ms && text_less(
            a.model@,
            b.model@,
        ) ==> ranks_above(entry_view(a), entry_view(b)),
        a.score_hundredths < b.score_hundredths ==> !ranks_above(entry_view(a), entry_view(b)),
        a.score_hundredths == b.score_hundredths && a.hard_failures > b.hard_failures ==> !ranks_above(
            entry_view(a),
            entry_view(b),
        ),
{
}

} // verus!
