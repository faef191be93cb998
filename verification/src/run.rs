//! Running one model over one dataset: a workspace per case, the agent
//! invocation, and the graders applied to whatever it left behind. The
//! library holds the decisions; starting processes and touching files is
//! left to its caller, which hands over what it observed.

pub mod grade;
pub mod workspace;

use vstd::prelude::*;
use crate::dataset::{Case, Grader, case_well_formed};
use crate::report::{CaseResult, GraderResult, ModelResult, percent, percent_of, verdict, verdict_of};
use crate::run::grade::{Observation, grade, graded, observes};
use crate::run::workspace::truncate;
use crate::text::{ascending, concatenated, join, joined, same_text, text_less, texts, trim, trimmed};

verus! {

/// The points that the graders in `rs` awarded.
pub open spec fn total_points(rs: Seq<GraderResult>) -> int
    decreases rs.len(),
{
    if rs.len() == 0 {
        0
    } else {
        total_points(rs.drop_last()) + rs.last().points
    }
}

/// The points that the graders in `rs` could have awarded.
pub open spec fn total_maximum(rs: Seq<GraderResult>) -> int
    decreases rs.len(),
{
    if rs.len() == 0 {
        0
    } else {
        total_maximum(rs.drop_last()) + rs.last().maximum_points
    }
}

/// The number of hard graders in `rs` that failed.
pub open spec fn hard_failed(rs: Seq<GraderResult>) -> int
    decreases rs.len(),
{
    if rs.len() == 0 {
        0
    } else {
        hard_failed(rs.drop_last()) + if rs.last().hard && !rs.last().passed {
            1int
        } else {
            0
        }
    }
}

/// When every grader passes, the graders award all the points they can and
/// report no hard failure.
pub proof fn lemma_all_passed_full_marks(rs: Seq<GraderResult>)
    requires
        forall|i: int| 0 <= i < rs.len() ==> #[trigger] rs[i].passed && rs[i].points
            == rs[i].maximum_points,
    ensures
        total_points(rs) == total_maximum(rs),
        hard_failed(rs) == 0,
    decreases rs.len(),
{
    if rs.len() > 0 {
        let rest = rs.drop_last();
        assert forall|i: int| 0 <= i < rest.len() implies #[trigger] rest[i].passed && rest[i].points
            == rest[i].maximum_points by {
            assert(rest[i] == rs[i]);
        }
        lemma_all_passed_full_marks(rest);
        assert(rs[rs.len() - 1].passed && rs[rs.len() - 1].points == rs[rs.len() - 1].maximum_points);
        assert(rs.last() == rs[rs.len() - 1]);
    }
}

/// The points that the graders of a case can award.
pub open spec fn grader_maximum(gs: Seq<Grader>) -> int
    decreases gs.len(),
{
    if gs.len() == 0 {
        0
    } else {
        grader_maximum(gs.drop_last()) + crate::dataset::grader_points(gs.last())
    }
}

/// The most a case can score: its graders' points, the boundary's and the
/// completion's.
pub open spec fn case_maximum(case: Case) -> int {
    grader_maximum(case.graders@) + case.boundary_points + case.completion_points
}

/// The paths of `observed` that `allowed` does not hold, in the order of
/// `observed`.
pub open spec fn undeclared(observed: Seq<Seq<char>>, allowed: Seq<Seq<char>>) -> Seq<Seq<char>> {
    observed.filter(|p: Seq<char>| !allowed.contains(p))
}

/// Whether the agent completed the case: its process succeeded and its
/// report says `completed`.
pub open spec fn completed_run(succeeded: bool, status: Option<String>) -> bool {
    succeeded && (status matches Some(s) && s@ == "completed"@)
}

/// The grader that checks the workspace's boundary: it passes when no
/// undeclared path was created, awarding the case's boundary points, and a
/// failure is hard.
pub open spec fn boundary_graded(r: GraderResult, case: Case, unexpected: Seq<Seq<char>>) -> bool {
    let passed = unexpected.len() == 0;
    &&& r.id@ == "workspace_boundary"@
    &&& r.passed == passed
    &&& r.points == (if passed { case.boundary_points } else { 0 })
    &&& r.maximum_points == case.boundary_points
    &&& r.hard
    &&& r.detail@ == (if passed {
        "no undeclared workspace paths were created"@
    } else {
        "unexpected paths: "@ + joined(unexpected, ", "@)
    })
}

/// The undeclared paths are observed paths that were not allowed, and every
/// observed path that was not allowed is among them.
pub proof fn lemma_undeclared_paths(observed: Seq<Seq<char>>, allowed: Seq<Seq<char>>)
    ensures
        forall|i: int|
            0 <= i < undeclared(observed, allowed).len() ==> observed.contains(
                #[trigger] undeclared(observed, allowed)[i],
            ) && !allowed.contains(undeclared(observed, allowed)[i]),
        forall|j: int|
            0 <= j < observed.len() && !allowed.contains(#[trigger] observed[j])
                ==> undeclared(observed, allowed).contains(observed[j]),
        undeclared(observed, allowed).len() == 0 <==> forall|j: int|
            0 <= j < observed.len() ==> allowed.contains(#[trigger] observed[j]),
{
    let keep = |p: Seq<char>| !allowed.contains(p);
    let u = observed.filter(keep);
    assert forall|i: int| 0 <= i < u.len() implies observed.contains(#[trigger] u[i])
        && !allowed.contains(u[i]) by {
        observed.lemma_filter_contains_rev(keep, u[i]);
        assert(u.contains(u[i]));
    }
    assert forall|j: int| 0 <= j < observed.len() && !allowed.contains(#[trigger] observed[j])
        implies u.contains(observed[j]) by {
        observed.lemma_filter_contains(keep, j);
    }
    if u.len() == 0 {
        assert forall|j: int| 0 <= j < observed.len() implies allowed.contains(#[trigger] observed[j]) by {
            if !allowed.contains(observed[j]) {
                observed.lemma_filter_contains(keep, j);
            }
        }
    } else {
        assert(!allowed.contains(u[0]));
        observed.lemma_filter_contains_rev(keep, u[0]);
        assert(u.contains(u[0]));
    }
}

/// Whether `allowed` holds `path`.
fn holds_path(allowed: &Vec<String>, path: &String) -> (r: bool)
    ensures
        r == texts(allowed@).contains(path@),
{
    let mut i: usize = 0;
    while i < allowed.len()
        invariant
            i <= allowed.len(),
            forall|q: int| 0 <= q < i ==> #[trigger] allowed@[q]@ != path@,
        decreases allowed.len() - i,
    {
        if same_text(allowed[i].as_str(), path.as_str()) {
            assert(texts(allowed@)[i as int] == path@);
            return true;
        }
        i = i + 1;
    }
    assert(!texts(allowed@).contains(path@)) by {
        if texts(allowed@).contains(path@) {
            let q = choose|q: int| 0 <= q < texts(allowed@).len() && texts(allowed@)[q] == path@;
            assert(allowed@[q]@ == path@);
        }
    }
    false
}

/// The paths of `observed` that `allowed` does not hold, in order.
pub fn undeclared_paths(observed: &Vec<String>, allowed: &Vec<String>) -> (r: Vec<String>)
    ensures
        texts(r@) == undeclared(texts(observed@), texts(allowed@)),
        ascending(texts(observed@)) ==> ascending(texts(r@)),
{
    let ghost keep = |p: Seq<char>| !texts(allowed@).contains(p);
    let ghost obs = texts(observed@);
    let mut out: Vec<String> = Vec::new();
    let mut i: usize = 0;
    while i < observed.len()
        invariant
            keep == (|p: Seq<char>| !texts(allowed@).contains(p)),
            obs == texts(observed@),
            i <= observed.len(),
            texts(out@) == obs.take(i as int).filter(keep),
            ascending(obs) ==> ascending(texts(out@)),
            ascending(obs) ==> forall|q: int, j: int|
                0 <= q < out.len() && i <= j < obs.len() ==> text_less(
                    #[trigger] texts(out@)[q],
                    #[trigger] obs[j],
                ),
        decreases observed.len() - i,
    {
        proof {
            reveal(Seq::filter);
            assert(obs.take(i + 1).drop_last() == obs.take(i as int));
        }
        if !holds_path(allowed, &observed[i]) {
            let p = observed[i].clone();
            let ghost before = texts(out@);
            out.push(p);
            proof {
                assert(texts(out@) =~= before.push(obs[i as int]));
                if ascending(obs) {
                    assert forall|a: int, b: int| 0 <= a < b < texts(out@).len() implies text_less(
                        #[trigger] texts(out@)[a],
                        #[trigger] texts(out@)[b],
                    ) by {
                        if b < before.len() {
                            assert(texts(out@)[a] == before[a] && texts(out@)[b] == before[b]);
                        } else {
                            assert(texts(out@)[a] == before[a]);
                            assert(text_less(before[a], obs[i as int]));
                        }
                    }
                    assert forall|q: int, j: int|
                        0 <= q < out.len() && i + 1 <= j < obs.len() implies text_less(
                        #[trigger] texts(out@)[q],
                        #[trigger] obs[j],
                    ) by {
                        if q < before.len() {
                            assert(texts(out@)[q] == before[q]);
                            assert(text_less(before[q], obs[j]));
                        } else {
                            assert(texts(out@)[q] == obs[i as int]);
                        }
                    }
                }
            }
        }
        i = i + 1;
    }
    assert(texts(observed@).take(observed.len() as int) == texts(observed@));
    out
}

/// A prefix of a case's graders can award no more than all of them.
proof fn lemma_grader_maximum_prefix(gs: Seq<Grader>, i: int)
    requires
        0 <= i <= gs.len(),
    ensures
        grader_maximum(gs.take(i)) <= grader_maximum(gs),
        grader_maximum(gs.take(i)) >= 0,
    decreases gs.len() - i,
{
    if i < gs.len() {
        lemma_grader_maximum_prefix(gs, i + 1);
        assert(gs.take(i + 1).drop_last() == gs.take(i));
    } else {
        assert(gs.take(i) == gs);
    }
    lemma_grader_maximum_nonnegative(gs.take(i));
}

proof fn lemma_grader_maximum_nonnegative(gs: Seq<Grader>)
    ensures
        grader_maximum(gs) >= 0,
    decreases gs.len(),
{
    if gs.len() > 0 {
        lemma_grader_maximum_nonnegative(gs.drop_last());
    }
}

/// The copies of the strings of `v`.
pub fn clone_texts(v: &Vec<String>) -> (r: Vec<String>)
    ensures
        texts(r@) == texts(v@),
{
    let mut out: Vec<String> = Vec::new();
    let mut i: usize = 0;
    while i < v.len()
        invariant
            i <= v.len(),
            texts(out@) == texts(v@).take(i as int),
        decreases v.len() - i,
    {
        let s = v[i].clone();
        assert(s@ == v@[i as int]@);
        let ghost before = out@;
        out.push(s);
        assert(out@ == before.push(s));
        assert(texts(out@) =~= texts(before).push(s@));
        assert(texts(v@).take(i + 1) =~= texts(v@).take(i as int).push(v@[i as int]@));
        i = i + 1;
    }
    assert(texts(v@).take(v.len() as int) =~= texts(v@));
    out
}

/// The longest excerpt of an agent's error output that a report keeps, in
/// characters.
pub const ERROR_EXCERPT: usize = 2000;

/// What a case comes to, from what the run of the agent left: whether its
/// process succeeded, the status its report gave (if it gave one it could
/// be read), what was read of the workspace for each grader, the paths of
/// the files in the workspace, the process's error output and the time it
/// took.
pub fn assess_case(
    case: &Case,
    succeeded: bool,
    status: Option<String>,
    observations: &Vec<Observation>,
    observed: &Vec<String>,
    stderr: &str,
    elapsed_ms: u128,
) -> (r: CaseResult)
    requires
        observations.len() == case.graders.len(),
        forall|i: int|
            0 <= i < observations.len() ==> observes(#[trigger] case.graders@[i], observations@[i]),
        case_maximum(*case) <= u32::MAX,
        case.graders.len() + 2 <= u32::MAX,
        case_well_formed(*case),
        ascending(texts(observed@)),
    ensures
        r.case_id@ == case.id@,
        texts(r.tags@) == texts(case.tags@),
        r.completed == completed_run(succeeded, status),
        r.singularity_status == status,
        r.graders.len() == case.graders.len() + 1,
        forall|i: int|
            0 <= i < case.graders.len() ==> graded(
                #[trigger] r.graders@[i],
                case.graders@[i],
                observations@[i],
            ),
        texts(r.unexpected_paths@) == undeclared(texts(observed@), texts(case.allowed_paths@)),
        ascending(texts(r.unexpected_paths@)),
        boundary_graded(r.graders@.last(), *case, texts(r.unexpected_paths@)),
        r.score == total_points(r.graders@) + if r.completed {
            case.completion_points as int
        } else {
            0
        },
        r.maximum_score == total_maximum(r.graders@) + case.completion_points,
        r.maximum_score == case_maximum(*case),
        r.score <= r.maximum_score,
        r.hard_failures == hard_failed(r.graders@) + if case.completion_hard && !r.completed {
            1int
        } else {
            0
        },
        r.elapsed_ms == elapsed_ms,
        succeeded ==> r.error is None,
        !succeeded ==> (r.error matches Some(e) && e@ == trimmed(stderr@).take(
            if ERROR_EXCERPT < trimmed(stderr@).len() {
                ERROR_EXCERPT as int
            } else {
                trimmed(stderr@).len() as int
            },
        )),
{
    let n = case.graders.len();
    let mut graders: Vec<GraderResult> = Vec::new();
    let mut score: u32 = 0;
    let mut maximum: u32 = 0;
    let mut hard: u32 = 0;
    let mut i: usize = 0;
    proof {
        lemma_grader_maximum_prefix(case.graders@, 0);
    }
    while i < n
        invariant
            n == case.graders.len(),
            observations.len() == n,
            forall|q: int| 0 <= q < n ==> observes(#[trigger] case.graders@[q], observations@[q]),
            case_well_formed(*case),
            case_maximum(*case) <= u32::MAX,
            n + 2 <= u32::MAX,
            i <= n,
            graders.len() == i,
            forall|q: int|
                0 <= q < i ==> graded(#[trigger] graders@[q], case.graders@[q], observations@[q]),
            score == total_points(graders@),
            maximum == total_maximum(graders@),
            maximum == grader_maximum(case.graders@.take(i as int)),
            score <= maximum,
            hard == hard_failed(graders@),
            hard <= i,
        decreases n - i,
    {
        let g = grade(&case.graders[i], &observations[i]);
        proof {
            lemma_grader_maximum_prefix(case.graders@, i + 1);
            assert(case.graders@.take(i + 1).drop_last() == case.graders@.take(i as int));
        }
        score = score + g.points;
        maximum = maximum + g.maximum_points;
        if g.hard && !g.passed {
            hard = hard + 1;
        }
        let ghost before = graders@;
        graders.push(g);
        assert(graders@.drop_last() == before);
        i = i + 1;
    }
    assert(case.graders@.take(n as int) == case.graders@);
    let unexpected = undeclared_paths(observed, &case.allowed_paths);
    let boundary_passed = unexpected.len() == 0;
    let boundary = GraderResult {
        id: "workspace_boundary".to_owned(),
        passed: boundary_passed,
        points: if boundary_passed {
            case.boundary_points
        } else {
            0
        },
        maximum_points: case.boundary_points,
        hard: true,
        detail: if boundary_passed {
            "no undeclared workspace paths were created".to_owned()
        } else {
            concatenated("unexpected paths: ", join(&unexpected, ", ").as_str())
        },
    };
    score = score + boundary.points;
    maximum = maximum + boundary.maximum_points;
    if !boundary_passed {
        hard = hard + 1;
    }
    let ghost before = graders@;
    graders.push(boundary);
    assert(graders@.drop_last() == before);
    let completed = succeeded && match &status {
        Some(s) => same_text(s.as_str(), "completed"),
        None => false,
    };
    let error = if !succeeded {
        Some(truncate(trim(stderr).as_str(), ERROR_EXCERPT))
    } else {
        None
    };
    CaseResult {
        case_id: case.id.clone(),
        tags: clone_texts(&case.tags),
        completed,
        singularity_status: status,
        score: score + if completed {
            case.completion_points
        } else {
            0
        },
        maximum_score: maximum + case.completion_points,
        hard_failures: hard + if case.completion_hard && !completed {
            1
        } else {
            0
        },
        elapsed_ms,
        unexpected_paths: unexpected,
        graders,
        error,
    }
}

/// The scores of `cases`.
pub open spec fn sum_scores(cases: Seq<CaseResult>) -> int
    decreases cases.len(),
{
    if cases.len() == 0 {
        0
    } else {
        sum_scores(cases.drop_last()) + cases.last().score
    }
}

/// The maximum scores of `cases`.
pub open spec fn sum_maximum(cases: Seq<CaseResult>) -> int
    decreases cases.len(),
{
    if cases.len() == 0 {
        0
    } else {
        sum_maximum(cases.drop_last()) + cases.last().maximum_score
    }
}

/// The hard failures of `cases`.
pub open spec fn sum_hard(cases: Seq<CaseResult>) -> int
    decreases cases.len(),
{
    if cases.len() == 0 {
        0
    } else {
        sum_hard(cases.drop_last()) + cases.last().hard_failures
    }
}

/// The number of completed cases among `cases`.
pub open spec fn count_completed(cases: Seq<CaseResult>) -> int
    decreases cases.len(),
{
    if cases.len() == 0 {
        0
    } else {
        count_completed(cases.drop_last()) + if cases.last().completed {
            1int
        } else {
            0
        }
    }
}

proof fn lemma_sums_monotone(cases: Seq<CaseResult>, i: int)
    requires
        0 <= i <= cases.len(),
    ensures
        0 <= sum_scores(cases.take(i)) <= sum_scores(cases),
        0 <= sum_maximum(cases.take(i)) <= sum_maximum(cases),
        0 <= sum_hard(cases.take(i)) <= sum_hard(cases),
        0 <= count_completed(cases.take(i)) <= i,
    decreases cases.len() - i,
{
    if i < cases.len() {
        lemma_sums_monotone(cases, i + 1);
        assert(cases.take(i + 1).drop_last() == cases.take(i));
        lemma_sums_nonnegative(cases.take(i));
    } else {
        assert(cases.take(i) == cases);
        lemma_sums_nonnegative(cases);
    }
}

proof fn lemma_sums_nonnegative(cases: Seq<CaseResult>)
    ensures
        sum_scores(cases) >= 0,
        sum_maximum(cases) >= 0,
        sum_hard(cases) >= 0,
        0 <= count_completed(cases) <= cases.len(),
    decreases cases.len(),
{
    if cases.len() > 0 {
        lemma_sums_nonnegative(cases.drop_last());
    }
}

proof fn lemma_scores_bounded(cases: Seq<CaseResult>)
    requires
        forall|i: int| 0 <= i < cases.len() ==> #[trigger] cases[i].score <= cases[i].maximum_score,
    ensures
        sum_scores(cases) <= sum_maximum(cases),
    decreases cases.len(),
{
    if cases.len() > 0 {
        let rest = cases.drop_last();
        assert forall|i: int| 0 <= i < rest.len() implies #[trigger] rest[i].score <= rest[i].maximum_score by {
            assert(rest[i] == cases[i]);
        }
        lemma_scores_bounded(rest);
        assert(cases.last() == cases[cases.len() - 1]);
    }
}

/// A score no greater than its maximum is at most 100%.
pub proof fn lemma_percent_at_most_whole(score: u32, maximum: u32)
    requires
        score <= maximum,
    ensures
        0 <= percent_of(score, maximum) <= 10000,
{
    if maximum > 0 {
        let s = score as int;
        let m = maximum as int;
        assert(20000 * s + m < 2 * m * 10001) by (nonlinear_arith)
            requires
                0 <= s <= m,
                m > 0,
        ;
        assert((20000 * s + m) / (2 * m) <= 10000) by (nonlinear_arith)
            requires
                0 <= s <= m,
                m > 0,
                20000 * s + m < 2 * m * 10001,
        ;
        assert((20000 * s + m) / (2 * m) >= 0) by (nonlinear_arith)
            requires
                0 <= s,
                m > 0,
        ;
    }
}

/// What a model comes to over the dataset, from its case results (in
/// dataset order) and the time the whole run of it took.
pub fn summarize_model(model: &str, cases: Vec<CaseResult>, elapsed_ms: u128) -> (r: ModelResult)
    requires
        sum_scores(cases@) <= u32::MAX,
        sum_maximum(cases@) <= u32::MAX,
        sum_hard(cases@) <= u32::MAX,
    ensures
        r.model@ == model@,
        r.score == sum_scores(cases@),
        r.maximum_score == sum_maximum(cases@),
        r.hard_failures == sum_hard(cases@),
        r.completed_cases == count_completed(cases@) as u32,
        r.total_cases == cases.len() as u32,
        r.score_hundredths == percent_of(r.score, r.maximum_score),
        r.verdict == verdict_of(
            r.score_hundredths,
            r.hard_failures,
            r.completed_cases,
            r.total_cases,
        ),
        r.elapsed_ms == elapsed_ms,
        r.cases@ == cases@,
        (forall|i: int| 0 <= i < cases.len() ==> #[trigger] cases@[i].score <= cases@[i].maximum_score)
            ==> r.score <= r.maximum_score && r.score_hundredths <= 10000,
{
    let mut score: u32 = 0;
    let mut maximum: u32 = 0;
    let mut hard: u32 = 0;
    let mut completed: usize = 0;
    let mut i: usize = 0;
    while i < cases.len()
        invariant
            sum_scores(cases@) <= u32::MAX,
            sum_maximum(cases@) <= u32::MAX,
            sum_hard(cases@) <= u32::MAX,
            i <= cases.len(),
            score == sum_scores(cases@.take(i as int)),
            maximum == sum_maximum(cases@.take(i as int)),
            hard == sum_hard(cases@.take(i as int)),
            completed == count_completed(cases@.take(i as int)),
            completed <= i,
        decreases cases.len() - i,
    {
        proof {
            lemma_sums_monotone(cases@, i + 1);
            assert(cases@.take(i + 1).drop_last() == cases@.take(i as int));
        }
        score = score + cases[i].score;
        maximum = maximum + cases[i].maximum_score;
        hard = hard + cases[i].hard_failures;
        if cases[i].completed {
            completed = completed + 1;
        }
        i = i + 1;
    }
    assert(cases@.take(cases.len() as int) == cases@);
    let completed_cases = completed as u32;
    let total_cases = cases.len() as u32;
    let score_hundredths = percent(score, maximum);
    let verdict = verdict(score_hundredths, hard, completed_cases, total_cases);
    proof {
        if forall|i: int| 0 <= i < cases.len() ==> #[trigger] cases@[i].score <= cases@[i].maximum_score {
            lemma_scores_bounded(cases@);
            lemma_percent_at_most_whole(score, maximum);
        }
    }
    ModelResult {
        model: model.to_owned(),
        score,
        maximum_score: maximum,
        score_hundredths,
        hard_failures: hard,
        completed_cases,
        total_cases,
        elapsed_ms,
        verdict,
        cases,
    }
}

/// A model's totals add up its cases one by one: a further case adds its
/// score, its maximum and its hard failures (all of them, not one per case
/// that had any), and one completed case when it completed; no cases add up
/// to nothing.
pub proof fn lemma_case_sums_push(cases: Seq<CaseResult>, c: CaseResult)
    ensures
        sum_scores(Seq::<CaseResult>::empty()) == 0,
        sum_maximum(Seq::<CaseResult>::empty()) == 0,
        sum_hard(Seq::<CaseResult>::empty()) == 0,
        count_completed(Seq::<CaseResult>::empty()) == 0,
        sum_scores(cases.push(c)) == sum_scores(cases) + c.score,
        sum_maximum(cases.push(c)) == sum_maximum(cases) + c.maximum_score,
        sum_hard(cases.push(c)) == sum_hard(cases) + c.hard_failures,
        count_completed(cases.push(c)) == count_completed(cases) + if c.completed {
            1int
        } else {
            0
        },
{
    assert(cases.push(c).drop_last() == cases);
}

/// A case's totals add up its graders one by one: a further grader adds the
/// points it awarded, the points it could have awarded, and one hard failure
/// when it is hard and failed.
pub proof fn lemma_grader_sums_push(rs: Seq<GraderResult>, g: GraderResult)
    ensures
        total_points(Seq::<GraderResult>::empty()) == 0,
        total_maximum(Seq::<GraderResult>::empty()) == 0,
        hard_failed(Seq::<GraderResult>::empty()) == 0,
        total_points(rs.push(g)) == total_points(rs) + g.points,
        total_maximum(rs.push(g)) == total_maximum(rs) + g.maximum_points,
        hard_failed(rs.push(g)) == hard_failed(rs) + if g.hard && !g.passed {
            1int
        } else {
            0
        },
{
    assert(rs.push(g).drop_last() == rs);
}

/// The most a case's graders can award adds up their points one by one.
pub proof fn lemma_grader_maximum_push(gs: Seq<Grader>, g: Grader)
    ensures
        grader_maximum(Seq::<Grader>::empty()) == 0,
        grader_maximum(gs.push(g)) == grader_maximum(gs) + match g {
            Grader::FileEquals { points, .. } => points,
            Grader::FileContains { points, .. } => points,
            Grader::FileAbsent { points, .. } => points,
            Grader::JsonEquals { points, .. } => points,
            Grader::JsonContains { points, .. } => points,
        },
{
    assert(gs.push(g).drop_last() == gs);
}

} // verus!
