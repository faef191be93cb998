use singularity_benchmark::schedule::{check_selection, gather_results, plan_workers, provider_of, provider_queues, sorted_distinct};

fn strings(v: &[&str]) -> Vec<String> {
    v.iter().map(|s| s.to_string()).collect()
}

#[test]
fn provider_is_name_before_first_slash() {
    assert_eq!(provider_of("openai/gpt/4"), "openai");
    assert_eq!(provider_of("local"), "local");
    assert_eq!(provider_of("/x"), "");
}

#[test]
fn queues_group_by_provider_in_name_order() {
    let models = strings(&["z/1", "a/1", "z/2", "m", "a/2", "m"]);
    let queues = provider_queues(&models);
    let expected: Vec<(String, Vec<usize>)> = vec![
        ("a".to_string(), vec![1, 4]),
        ("m".to_string(), vec![3, 5]),
        ("z".to_string(), vec![0, 2]),
    ];
    assert_eq!(queues, expected);
    assert!(provider_queues(&vec![]).is_empty());
}

#[test]
fn distinct_names_sorted() {
    assert_eq!(sorted_distinct(&strings(&["b", "a", "b", "c", "a"])), strings(&["a", "b", "c"]));
}

#[test]
fn workers_and_selection() {
    assert_eq!(plan_workers(0, 3), Err("--jobs must be greater than zero".to_string()));
    assert_eq!(plan_workers(4, 3), Ok(3));
    assert_eq!(plan_workers(2, 3), Ok(2));
    assert_eq!(check_selection(&vec![]), Err("the current Jeden catalog has no eligible tool-capable models".to_string()));
    assert_eq!(check_selection(&strings(&["a"])), Ok(()));
}

fn model_result(model: &str) -> singularity_benchmark::report::ModelResult {
    singularity_benchmark::report::ModelResult {
        model: model.to_string(),
        score: 0,
        maximum_score: 0,
        score_hundredths: 0,
        hard_failures: 0,
        completed_cases: 0,
        total_cases: 0,
        elapsed_ms: 0,
        verdict: singularity_benchmark::report::Verdict::Refused,
        cases: vec![],
    }
}

#[test]
fn gathered_results_keep_selection_order() {
    let slots = vec![Some(Ok(model_result("a"))), Some(Ok(model_result("b"))), Some(Ok(model_result("c")))];
    let models: Vec<String> = gather_results(slots).unwrap().into_iter().map(|r| r.model).collect();
    assert_eq!(models, vec!["a", "b", "c"]);
    assert!(gather_results(vec![]).unwrap().is_empty());
}

#[test]
fn the_first_failed_model_gives_the_error() {
    let slots = vec![
        Some(Ok(model_result("a"))),
        Some(Err("second failed".to_string())),
        Some(Ok(model_result("c"))),
        Some(Err("fourth failed".to_string())),
    ];
    assert_eq!(gather_results(slots).err(), Some("second failed".to_string()));
}
