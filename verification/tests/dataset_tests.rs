use singularity_benchmark::dataset::{
    safe_relative, safe_relative_on, validate_dataset, validate_dataset_on, well_formed_case, Case, Dataset, Grader,
    DATASET_SCHEMA,
};
use singularity_benchmark::text::is_ascending;
use singularity_benchmark::json::Json;
use std::path::{Component, Path};

fn std_safe(value: &str) -> bool {
    let path = Path::new(value);
    !(value.is_empty()
        || path.is_absolute()
        || path.components().any(|c| !matches!(c, Component::Normal(_))))
}

#[test]
fn safe_relative_agrees_with_std_paths() {
    let samples = [
        "", "a", "a/b", "a/./b", "./a", ".", "..", "../a", "a/..", "a/../b", "/a", "//a", "a//b",
        "a/", "a/.", "..a", "a..", "a/..b", "...", ".hidden", "a/.hidden/b", "./", ".//a", "a\\..",
        "src/main.rs", "dir/sub/",
    ];
    for s in samples {
        assert_eq!(safe_relative(s).is_ok(), std_safe(s), "{:?}", s);
    }
}

#[test]
fn unsafe_path_message_names_the_path() {
    assert_eq!(safe_relative("../etc/passwd"), Err("unsafe relative path: ../etc/passwd".to_string()));
    assert_eq!(safe_relative(""), Err("unsafe relative path: ".to_string()));
    assert_eq!(safe_relative("notes/today.md"), Ok(()));
}

fn grader(path: &str) -> Grader {
    Grader::FileContains {
        id: "g".to_string(),
        path: path.to_string(),
        needle: "x".to_string(),
        points: 1,
        hard: false,
    }
}

fn case(id: &str, max_steps: u32, graders: Vec<Grader>, allowed: Vec<&str>) -> Case {
    Case {
        id: id.to_string(),
        fixture: "fixtures/a".to_string(),
        stimulus: "do it".to_string(),
        max_steps,
        completion_points: 1,
        boundary_points: 1,
        completion_hard: false,
        allowed_paths: allowed.into_iter().map(String::from).collect(),
        tags: vec![],
        graders,
    }
}

fn dataset(cases: Vec<Case>) -> Dataset {
    Dataset {
        schema: DATASET_SCHEMA.to_string(),
        id: "bench".to_string(),
        version: "1".to_string(),
        description: "d".to_string(),
        cases,
    }
}

#[test]
fn valid_dataset_passes() {
    let d = dataset(vec![
        case("one", 3, vec![grader("out.txt")], vec!["out.txt"]),
        case("two", 1, vec![Grader::JsonEquals {
            id: "j".to_string(),
            path: "data.json".to_string(),
            expected: Json::Null,
            points: 2,
            hard: true,
        }], vec![]),
    ]);
    assert_eq!(validate_dataset(&d, &vec![true, true]), Ok(()));
}

#[test]
fn schema_is_checked_first() {
    let mut d = dataset(vec![]);
    d.schema = "other".to_string();
    assert_eq!(validate_dataset(&d, &vec![]), Err("unsupported dataset schema: other".to_string()));
}

#[test]
fn id_version_and_cases_are_required() {
    let d = dataset(vec![]);
    assert_eq!(validate_dataset(&d, &vec![]), Err("dataset id, version, and cases are required".to_string()));
    let mut d = dataset(vec![case("one", 1, vec![grader("a")], vec![])]);
    d.id = "  \t".to_string();
    assert_eq!(validate_dataset(&d, &vec![true]), Err("dataset id, version, and cases are required".to_string()));
}

#[test]
fn case_problems_in_order() {
    let d = dataset(vec![case("one", 1, vec![grader("a")], vec![]), case("one", 1, vec![grader("a")], vec![])]);
    assert_eq!(validate_dataset(&d, &vec![true, true]), Err("duplicate case id: one".to_string()));
    let d = dataset(vec![case("one", 0, vec![grader("a")], vec![])]);
    assert_eq!(validate_dataset(&d, &vec![true]), Err("case one has no budget or graders".to_string()));
    let d = dataset(vec![case("one", 2, vec![], vec![])]);
    assert_eq!(validate_dataset(&d, &vec![true]), Err("case one has no budget or graders".to_string()));
    let d = dataset(vec![case("one", 2, vec![grader("a")], vec![])]);
    assert_eq!(validate_dataset(&d, &vec![false]), Err("case one fixture is not a directory".to_string()));
    let d = dataset(vec![case("one", 2, vec![grader("a")], vec!["../no", "/abs", "ok"])]);
    assert_eq!(validate_dataset(&d, &vec![true]), Err("unsafe relative path: ../no".to_string()));
    let d = dataset(vec![case("one", 2, vec![grader("ok"), grader("./no")], vec![])]);
    assert_eq!(validate_dataset(&d, &vec![true]), Err("unsafe relative path: ./no".to_string()));
}

#[test]
fn grader_accessors() {
    let g = Grader::FileAbsent { id: "gone".to_string(), path: "tmp".to_string(), points: 4, hard: true };
    assert_eq!(g.id(), "gone");
    assert_eq!(g.points(), 4);
    assert!(g.hard());
    assert_eq!(g.path(), "tmp");
}

#[test]
fn windows_paths_split_on_backslashes_and_drives() {
    for p in ["a\\..", "..\\x", "a\\..\\b", "\\a", ".\\a", "C:x", "c:\\x", "z:"] {
        assert!(safe_relative_on(p, true).is_err(), "{:?}", p);
    }
    for p in ["a\\b", "a\\.\\b", "..a\\b", "1:x", "ab:c", "a/b"] {
        assert_eq!(safe_relative_on(p, true), Ok(()), "{:?}", p);
    }
    assert_eq!(safe_relative_on("..\\x", false), Ok(()));
    assert_eq!(safe_relative_on("C:x", false), Ok(()));
    assert_eq!(safe_relative_on("..\\x", true), Err("unsafe relative path: ..\\x".to_string()));
}

#[test]
fn validation_reads_paths_as_the_platform_does() {
    let d = dataset(vec![case("one", 2, vec![grader("a\\..\\b")], vec![])]);
    assert_eq!(validate_dataset_on(&d, &vec![true], false), Ok(()));
    assert_eq!(validate_dataset_on(&d, &vec![true], true), Err("unsafe relative path: a\\..\\b".to_string()));
    let native = if std::path::is_separator('\\') {
        Err("unsafe relative path: a\\..\\b".to_string())
    } else {
        Ok(())
    };
    assert_eq!(validate_dataset(&d, &vec![true]), native);
}

#[test]
fn sets_are_held_ascending() {
    let strings = |v: &[&str]| v.iter().map(|s| s.to_string()).collect::<Vec<String>>();
    assert!(is_ascending(&strings(&[])));
    assert!(is_ascending(&strings(&["../no", "/abs", "ok"])));
    assert!(!is_ascending(&strings(&["ok", "../no"])));
    assert!(!is_ascending(&strings(&["a", "a"])));
    assert!(well_formed_case(&case("one", 1, vec![grader("a")], vec!["a", "b"])));
    assert!(!well_formed_case(&case("one", 1, vec![grader("a")], vec!["b", "a"])));
    let unordered = Grader::JsonEquals {
        id: "j".to_string(),
        path: "d.json".to_string(),
        expected: Json::Object(vec![("b".to_string(), Json::Null), ("a".to_string(), Json::Null)]),
        points: 1,
        hard: false,
    };
    assert!(!well_formed_case(&case("one", 1, vec![unordered], vec![])));
}
