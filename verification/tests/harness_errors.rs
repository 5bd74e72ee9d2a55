use ir_eval::harness::EvalError;
use ir_eval::harness::JudgedQuery;
use ir_eval::harness::evaluate_field;

#[test]
fn overflowing_query_score_is_reported_not_averaged() {
    // Hits at every prime rank up to 53 give an average-precision sum whose
    // reduced denominator passes u64, so the harness reports the overflow.
    let retrieved: Vec<u64> = (1..=53).collect();
    let relevant: Vec<u64> = vec![2, 3, 5, 7, 11, 13, 17, 19, 23, 29, 31, 37, 41, 43, 47, 53];
    let queries = vec![JudgedQuery { relevant, retrieved }];
    let r = evaluate_field(&queries);
    assert!(matches!(r, Err(EvalError::ScoreOverflow)));
}

#[test]
fn long_benchmarks_still_report_means() {
    // A thousand queries: the reduced accumulators stay small where the
    // unreduced ones would have overflowed long before.
    let mut queries: Vec<JudgedQuery> = Vec::new();
    for i in 0..1000u64 {
        queries.push(JudgedQuery { relevant: vec![i], retrieved: vec![i, i + 1, i + 2] });
    }
    let means = evaluate_field(&queries).unwrap();
    // Every query scores P@3 = 1/3, P@R = 1, AP = 1.
    assert!(means.mean_p3.eq_frac(&ir_eval::Frac::new(1, 3)));
    assert!(means.mean_pr.eq_frac(&ir_eval::Frac::new(1, 1)));
    assert!(means.mean_ap.eq_frac(&ir_eval::Frac::new(1, 1)));
}
