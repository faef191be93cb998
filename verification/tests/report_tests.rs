use singularity_benchmark::report::{percent, rank, verdict, ModelResult, RankingEntry, Verdict};

fn float_percent(score: u32, maximum: u32) -> f64 {
    if maximum == 0 {
        0.0
    } else {
        (score as f64 * 10_000.0 / maximum as f64).round() / 100.0
    }
}

#[test]
fn percent_matches_float_rounding() {
    let values = [0u32, 1, 2, 3, 7, 10, 33, 99, 100, 101, 333, 1000, 65_535, 999_999, u32::MAX];
    for &s in &values {
        for &m in &values {
            let hundredths = percent(s, m);
            assert_eq!(hundredths as f64 / 100.0, float_percent(s, m), "{} / {}", s, m);
        }
    }
}

#[test]
fn percent_examples() {
    assert_eq!(percent(0, 0), 0);
    assert_eq!(percent(1, 3), 3333);
    assert_eq!(percent(2, 3), 6667);
    assert_eq!(percent(1, 8), 1250);
    assert_eq!(percent(1, 80000), 0);
    assert_eq!(percent(1, 40000), 0);
    assert_eq!(percent(1, 20000), 1);
    assert_eq!(percent(5, 5), 10000);
}

#[test]
fn verdict_floors() {
    assert_eq!(verdict(8500, 0, 4, 4), Verdict::Qualified);
    assert_eq!(verdict(8500, 0, 3, 4), Verdict::Strong);
    assert_eq!(verdict(8499, 0, 4, 4), Verdict::Strong);
    assert_eq!(verdict(9000, 1, 4, 4), Verdict::Partial);
    assert_eq!(verdict(7000, 0, 0, 4), Verdict::Strong);
    assert_eq!(verdict(6999, 0, 4, 4), Verdict::Partial);
    assert_eq!(verdict(4000, 3, 0, 4), Verdict::Partial);
    assert_eq!(verdict(3999, 0, 4, 4), Verdict::Refused);
}

fn result(model: &str, score: u64, hard: u32, completed: u32, elapsed: u128) -> ModelResult {
    ModelResult {
        model: model.to_string(),
        score: 0,
        maximum_score: 0,
        score_hundredths: score,
        hard_failures: hard,
        completed_cases: completed,
        total_cases: 5,
        elapsed_ms: elapsed,
        verdict: verdict(score, hard, completed, 5),
        cases: vec![],
    }
}

#[test]
fn ranking_order() {
    let results = vec![
        result("m/low", 5000, 0, 5, 10),
        result("m/top", 9000, 0, 5, 50),
        result("m/hard", 9000, 2, 5, 5),
        result("m/fast", 9000, 0, 5, 20),
        result("m/b", 7000, 0, 4, 30),
        result("m/a", 7000, 0, 4, 30),
        result("m/more", 7000, 0, 5, 99),
    ];
    let ranking = rank(&results);
    let order: Vec<&str> = ranking.iter().map(|e| e.model.as_str()).collect();
    assert_eq!(order, vec!["m/fast", "m/top", "m/hard", "m/more", "m/a", "m/b", "m/low"]);
    let ranks: Vec<usize> = ranking.iter().map(|e| e.rank).collect();
    assert_eq!(ranks, vec![1, 2, 3, 4, 5, 6, 7]);
    assert_eq!(ranking[0].score_hundredths, 9000);
    assert_eq!(ranking[6].verdict, Verdict::Partial);
}

#[test]
fn empty_ranking() {
    assert!(rank(&vec![]).is_empty());
}

#[test]
fn scores_within_their_maximum_stay_within_whole() {
    for m in [1u32, 2, 3, 7, 1000, u32::MAX] {
        for s in [0u32, 1, m / 2, m - 1, m] {
            assert!(percent(s, m) <= 10000);
        }
    }
}

#[test]
fn a_higher_score_never_earns_a_lower_verdict() {
    fn merit(v: Verdict) -> u8 {
        match v {
            Verdict::Refused => 0,
            Verdict::Partial => 1,
            Verdict::Strong => 2,
            Verdict::Qualified => 3,
        }
    }
    let scores = [0u64, 3999, 4000, 6999, 7000, 8499, 8500, 10000];
    for hard in [0u32, 1] {
        for completed in [3u32, 4] {
            for w in scores.windows(2) {
                assert!(merit(verdict(w[0], hard, completed, 4)) <= merit(verdict(w[1], hard, completed, 4)));
            }
        }
    }
}

fn summary(ranking: &[RankingEntry]) -> Vec<(usize, String, u64, u32, u32, u128, Verdict)> {
    ranking
        .iter()
        .map(|e| (e.rank, e.model.clone(), e.score_hundredths, e.hard_failures, e.completed_cases, e.elapsed_ms, e.verdict))
        .collect()
}

fn sample(order: &[usize]) -> Vec<ModelResult> {
    let all = [
        ("m/low", 5000, 0, 5, 10),
        ("m/top", 9000, 0, 5, 50),
        ("m/fast", 9000, 0, 5, 20),
        ("m/b", 7000, 0, 4, 30),
        ("m/a", 7000, 0, 4, 30),
    ];
    order.iter().map(|&i| { let (m, s, h, c, e) = all[i]; result(m, s, h, c, e) }).collect()
}

#[test]
fn ranking_ignores_arrival_order() {
    let first = summary(&rank(&sample(&[0, 1, 2, 3, 4])));
    assert_eq!(summary(&rank(&sample(&[4, 3, 2, 1, 0]))), first);
    assert_eq!(summary(&rank(&sample(&[2, 3, 4, 0, 1]))), first);
    assert_eq!(first[0].1, "m/fast");
    assert_eq!(first[4].1, "m/low");
}

fn tied(total: u32, verdict: Verdict) -> ModelResult {
    let mut r = result("m/same", 7000, 0, 5, 30);
    r.total_cases = total;
    r.verdict = verdict;
    r
}

#[test]
fn tied_models_keep_their_order() {
    let ranking = rank(&vec![tied(5, Verdict::Strong), tied(9, Verdict::Partial)]);
    assert_eq!(ranking[0].verdict, Verdict::Strong);
    assert_eq!(ranking[1].verdict, Verdict::Partial);
    let ranking = rank(&vec![tied(9, Verdict::Partial), tied(5, Verdict::Strong)]);
    assert_eq!(ranking[0].verdict, Verdict::Partial);
    assert_eq!(ranking[1].verdict, Verdict::Strong);
}
