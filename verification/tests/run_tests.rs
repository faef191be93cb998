use sha2::{Digest, Sha256};
use singularity_benchmark::dataset::{Case, Grader};
use singularity_benchmark::json::{Json, Number};
use singularity_benchmark::report::{CaseResult, Verdict};
use singularity_benchmark::run::grade::{fits, grade, Observation};
use singularity_benchmark::run::workspace::{listed_path, model_slug};
use singularity_benchmark::run::{assess_case, summarize_model, undeclared_paths};

fn text(v: &str) -> Observation {
    Observation::Text(Ok(v.to_string()))
}

#[test]
fn file_equals() {
    let g = Grader::FileEquals { id: "eq".into(), path: "a".into(), content: "hi\n".into(), points: 3, hard: true };
    let r = grade(&g, &text("hi\n"));
    assert!(r.passed);
    assert_eq!((r.points, r.maximum_points, r.hard), (3, 3, true));
    assert_eq!(r.detail, "file matches exactly");
    assert_eq!(r.id, "eq");
    let r = grade(&g, &text("hi"));
    assert!(!r.passed);
    assert_eq!((r.points, r.maximum_points), (0, 3));
    assert_eq!(r.detail, "file content differs");
    let r = grade(&g, &Observation::Text(Err("No such file or directory (os error 2)".into())));
    assert_eq!(r.detail, "cannot read file: No such file or directory (os error 2)");
}

#[test]
fn file_contains_and_absent() {
    let g = Grader::FileContains { id: "c".into(), path: "a".into(), needle: "done".into(), points: 2, hard: false };
    assert_eq!(grade(&g, &text("all done.")).detail, "required text is present");
    let r = grade(&g, &text("nothing"));
    assert_eq!((r.passed, r.points, r.detail.as_str()), (false, 0, "required text is absent"));
    let g = Grader::FileAbsent { id: "x".into(), path: "tmp".into(), points: 1, hard: false };
    assert_eq!(grade(&g, &Observation::Presence(false)).detail, "path is absent");
    let r = grade(&g, &Observation::Presence(true));
    assert_eq!((r.passed, r.detail.as_str()), (false, "path exists"));
}

#[test]
fn json_graders() {
    let expected = Json::Object(vec![("k".into(), Json::Number(Number::PosInt(1)))]);
    let actual = Json::Object(vec![
        ("k".into(), Json::Number(Number::PosInt(1))),
        ("z".into(), Json::Null),
    ]);
    let g = Grader::JsonEquals { id: "je".into(), path: "a.json".into(), expected: Json::Object(vec![("k".into(), Json::Number(Number::PosInt(1)))]), points: 5, hard: false };
    assert_eq!(grade(&g, &Observation::Document(Ok(Json::Object(vec![("k".into(), Json::Number(Number::PosInt(1)))])))).detail, "JSON matches structurally");
    let r = grade(&g, &Observation::Document(Ok(Json::Object(vec![("k".into(), Json::Number(Number::PosInt(2)))]))));
    assert_eq!(r.detail, "JSON structure differs");
    let r = grade(&g, &Observation::Document(Err("invalid JSON: expected value at line 1 column 1".into())));
    assert_eq!((r.passed, r.detail.as_str()), (false, "invalid JSON: expected value at line 1 column 1"));
    let g = Grader::JsonContains { id: "jc".into(), path: "a.json".into(), expected, points: 5, hard: true };
    let r = grade(&g, &Observation::Document(Ok(actual)));
    assert_eq!((r.passed, r.points, r.detail.as_str()), (true, 5, "JSON contains the required structure"));
    let r = grade(&g, &Observation::Document(Ok(Json::Array(vec![]))));
    assert_eq!((r.passed, r.detail.as_str()), (false, "JSON lacks the required structure"));
}

fn strings(v: &[&str]) -> Vec<String> {
    v.iter().map(|s| s.to_string()).collect()
}

fn sample_case() -> Case {
    Case {
        id: "c1".into(),
        fixture: "f".into(),
        stimulus: "s".into(),
        max_steps: 5,
        completion_points: 10,
        boundary_points: 4,
        completion_hard: true,
        allowed_paths: strings(&["a.txt", "b.txt"]),
        tags: strings(&["easy", "files"]),
        graders: vec![
            Grader::FileContains { id: "g1".into(), path: "a.txt".into(), needle: "ok".into(), points: 3, hard: true },
            Grader::FileAbsent { id: "g2".into(), path: "junk".into(), points: 2, hard: false },
        ],
    }
}

#[test]
fn undeclared_paths_keep_order() {
    let observed = strings(&["a.txt", "new.txt", "b.txt", "z/y.txt"]);
    assert_eq!(undeclared_paths(&observed, &strings(&["a.txt", "b.txt"])), strings(&["new.txt", "z/y.txt"]));
    assert!(undeclared_paths(&strings(&["a.txt"]), &strings(&["a.txt"])).is_empty());
}

#[test]
fn a_completed_clean_case() {
    let case = sample_case();
    let obs = vec![text("it is ok"), Observation::Presence(false)];
    let r = assess_case(&case, true, Some("completed".into()), &obs, &strings(&["a.txt"]), "", 42);
    assert!(r.completed);
    assert_eq!(r.case_id, "c1");
    assert_eq!(r.tags, strings(&["easy", "files"]));
    assert_eq!(r.graders.len(), 3);
    assert_eq!(r.graders[2].id, "workspace_boundary");
    assert_eq!(r.graders[2].detail, "no undeclared workspace paths were created");
    assert_eq!((r.score, r.maximum_score, r.hard_failures), (3 + 2 + 4 + 10, 19, 0));
    assert_eq!(r.error, None);
    assert_eq!(r.elapsed_ms, 42);
    assert_eq!(r.singularity_status, Some("completed".to_string()));
}

#[test]
fn a_failed_case() {
    let case = sample_case();
    let obs = vec![text("nope"), Observation::Presence(true)];
    let stderr = format!("  \n{}\n ", "e".repeat(2100));
    let r = assess_case(&case, false, Some("completed".into()), &obs, &strings(&["a.txt", "x", "y"]), &stderr, 7);
    assert!(!r.completed);
    assert_eq!(r.unexpected_paths, strings(&["x", "y"]));
    assert_eq!(r.graders[2].detail, "unexpected paths: x, y");
    assert!(!r.graders[2].passed);
    assert_eq!((r.score, r.maximum_score), (0, 19));
    assert_eq!(r.hard_failures, 3);
    assert_eq!(r.error, Some("e".repeat(2000)));
    let r = assess_case(&case, true, Some("failed".into()), &vec![text("ok"), Observation::Presence(false)], &strings(&[]), "", 1);
    assert!(!r.completed);
    assert_eq!((r.score, r.hard_failures), (9, 1));
    let r = assess_case(&case, true, None, &vec![text("ok"), Observation::Presence(false)], &strings(&[]), "", 1);
    assert!(!r.completed);
}

fn case_result(score: u32, maximum: u32, hard: u32, completed: bool) -> CaseResult {
    CaseResult {
        case_id: "c".into(),
        tags: vec![],
        completed,
        singularity_status: None,
        score,
        maximum_score: maximum,
        hard_failures: hard,
        elapsed_ms: 1,
        unexpected_paths: vec![],
        graders: vec![],
        error: None,
    }
}

#[test]
fn model_summary() {
    let r = summarize_model("a/m", vec![case_result(10, 10, 0, true), case_result(7, 10, 0, true)], 99);
    assert_eq!((r.score, r.maximum_score, r.score_hundredths), (17, 20, 8500));
    assert_eq!((r.completed_cases, r.total_cases), (2, 2));
    assert_eq!(r.verdict, Verdict::Qualified);
    assert_eq!(r.model, "a/m");
    assert_eq!(r.elapsed_ms, 99);
    let r = summarize_model("a/m", vec![case_result(10, 10, 1, true), case_result(0, 10, 0, false)], 1);
    assert_eq!((r.score_hundredths, r.hard_failures, r.completed_cases), (5000, 1, 1));
    assert_eq!(r.verdict, Verdict::Partial);
    let r = summarize_model("none", vec![], 0);
    assert_eq!((r.score_hundredths, r.verdict), (0, Verdict::Refused));
}

#[test]
fn slug_uses_sha256() {
    let model = "openai/gpt-4.1 mini";
    let digest = format!("{:x}", Sha256::digest(model.as_bytes()));
    assert_eq!(model_slug(model), format!("openai-gpt-4-1-mini-{}", &digest[..12]));
    let slug = model_slug("ünï/cödé");
    assert!(slug.chars().all(|c| c.is_ascii_alphanumeric() || c == '-' || c == '_'));
    assert_eq!(slug.chars().count(), "ünï/cödé".chars().count() + 13);
}

#[test]
fn listed_paths_use_slashes() {
    assert_eq!(listed_path("a\\b\\c.txt"), "a/b/c.txt");
    assert_eq!(listed_path("a/b"), "a/b");
}

#[test]
fn observations_fit_their_graders() {
    let g = Grader::JsonEquals {
        id: "j".to_string(),
        path: "d.json".to_string(),
        expected: Json::Null,
        points: 1,
        hard: false,
    };
    assert!(fits(&g, &Observation::Document(Ok(Json::Null))));
    assert!(fits(&g, &Observation::Document(Err("bad".to_string()))));
    assert!(!fits(&g, &Observation::Presence(true)));
    let unordered = Json::Object(vec![("b".to_string(), Json::Null), ("a".to_string(), Json::Null)]);
    assert!(!fits(&g, &Observation::Document(Ok(unordered))));
    let f = Grader::FileAbsent { id: "f".to_string(), path: "x".to_string(), points: 1, hard: true };
    assert!(fits(&f, &Observation::Presence(false)));
    assert!(!fits(&f, &text("x")));
}
