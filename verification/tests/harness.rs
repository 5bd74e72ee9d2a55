use ir_eval::Frac;
use ir_eval::harness::EvalError;
use ir_eval::harness::JudgedQuery;
use ir_eval::harness::evaluate_field;
use ir_eval::harness::score_query;

#[test]
fn mean_over_three_queries_is_the_arithmetic_mean() {
    // Hand-computed: P@3 are 1/3, 1/3, 0; P@R are 1, 1/2, 0; AP are 1, 1/4, 0.
    let queries = vec![
        JudgedQuery { relevant: vec![1], retrieved: vec![1, 2, 3] },
        JudgedQuery { relevant: vec![5, 9], retrieved: vec![4, 5, 6] },
        JudgedQuery { relevant: vec![9], retrieved: vec![7, 8] },
    ];
    let means = evaluate_field(&queries).unwrap();
    // MP@3 = (1/3 + 1/3 + 0) / 3 = 2/9.
    assert!(means.mean_p3.eq_frac(&Frac::new(2, 9)));
    // MP@R = (1 + 1/2 + 0) / 3 = 1/2.
    assert!(means.mean_pr.eq_frac(&Frac::new(1, 2)));
    // MAP = (1 + 1/4 + 0) / 3 = 5/12.
    assert!(means.mean_ap.eq_frac(&Frac::new(5, 12)));
}

#[test]
fn single_query_with_empty_relevant_set_reports_zero() {
    let queries = vec![JudgedQuery { relevant: vec![], retrieved: vec![10, 20] }];
    let means = evaluate_field(&queries).unwrap();
    assert!(means.mean_p3.eq_frac(&Frac::zero()));
    assert!(means.mean_pr.eq_frac(&Frac::zero()));
    assert!(means.mean_ap.eq_frac(&Frac::zero()));
}

#[test]
fn empty_benchmark_reports_no_means() {
    let queries: Vec<JudgedQuery> = vec![];
    let r = evaluate_field(&queries);
    assert!(matches!(r, Err(EvalError::EmptyBenchmark)));
}

#[test]
fn score_query_reports_all_three_metrics() {
    let retrieved: Vec<u64> = vec![10, 20, 30, 40, 50];
    let relevant: Vec<u64> = vec![20, 40];
    let s = score_query(&retrieved, &relevant).unwrap();
    assert!(s.p_at_3.eq_frac(&Frac::new(1, 3)));
    assert!(s.p_at_r.eq_frac(&Frac::new(1, 2)));
    assert!(s.avg_p.eq_frac(&Frac::new(1, 2)));
}
