use ir_eval::Frac;
use ir_eval::metrics::average_precision;
use ir_eval::metrics::precision_at_k;

fn frac(num: u64, den: u64) -> Frac {
    Frac::new(num, den)
}

#[test]
fn precision_scenario_top_three() {
    // retrieved = [10,20,30,40,50], relevant = [20,40]: only 20 is in the top 3.
    let retrieved: Vec<u64> = vec![10, 20, 30, 40, 50];
    let relevant: Vec<u64> = vec![20, 40];
    let p3 = precision_at_k(&retrieved, &relevant, 3);
    assert!(p3.eq_frac(&frac(1, 3)));
    // k = |relevant| = 2: 20 present, 30 absent.
    let p2 = precision_at_k(&retrieved, &relevant, 2);
    assert!(p2.eq_frac(&frac(1, 2)));
    // average precision = ((1/2) + (2/4)) / 2 = 1/2.
    let ap = average_precision(&retrieved, &relevant).unwrap();
    assert!(ap.eq_frac(&frac(1, 2)));
}

#[test]
fn precision_empty_retrieved() {
    // retrieved = [], relevant = [1,2]: everything scores zero.
    let retrieved: Vec<u64> = vec![];
    let relevant: Vec<u64> = vec![1, 2];
    let p3 = precision_at_k(&retrieved, &relevant, 3);
    assert!(p3.eq_frac(&Frac::zero()));
    let ap = average_precision(&retrieved, &relevant).unwrap();
    assert!(ap.eq_frac(&Frac::zero()));
}

#[test]
fn precision_cutoff_zero_is_zero() {
    let retrieved: Vec<u64> = vec![1, 2, 3];
    let relevant: Vec<u64> = vec![1, 2, 3];
    let p0 = precision_at_k(&retrieved, &relevant, 0);
    assert!(p0.eq_frac(&Frac::zero()));
    assert_eq!(p0.num, 0);
}

#[test]
fn precision_cutoff_past_end_scores_like_full_list() {
    // Only available entries count, in the denominator too: any cutoff at or
    // past the end scores exactly as a cutoff at the list's length.
    let retrieved: Vec<u64> = vec![7];
    let relevant: Vec<u64> = vec![7];
    let p5 = precision_at_k(&retrieved, &relevant, 5);
    assert_eq!(p5.num, 1);
    assert_eq!(p5.den, 1);
    let p1 = precision_at_k(&retrieved, &relevant, 1);
    assert!(p5.eq_frac(&p1));
    let half = precision_at_k(&vec![7, 8], &relevant, 9);
    assert!(half.eq_frac(&frac(1, 2)));
}

#[test]
fn disjoint_lists_score_zero() {
    let retrieved: Vec<u64> = vec![1, 2, 3];
    let relevant: Vec<u64> = vec![9, 10];
    for k in 1..5usize {
        let p = precision_at_k(&retrieved, &relevant, k);
        assert!(p.eq_frac(&Frac::zero()));
    }
    let ap = average_precision(&retrieved, &relevant).unwrap();
    assert!(ap.eq_frac(&Frac::zero()));
}

#[test]
fn perfect_prefix_scores_one() {
    // The two relevant documents fill the leading ranks, nothing relevant
    // follows: average precision is exactly one.
    let retrieved: Vec<u64> = vec![4, 5, 6];
    let relevant: Vec<u64> = vec![5, 4];
    let ap = average_precision(&retrieved, &relevant).unwrap();
    assert!(ap.eq_frac(&frac(1, 1)));
}

#[test]
fn empty_relevant_set_scores_zero() {
    let retrieved: Vec<u64> = vec![1, 2, 3];
    let relevant: Vec<u64> = vec![];
    let ap = average_precision(&retrieved, &relevant).unwrap();
    assert!(ap.eq_frac(&Frac::zero()));
}

#[test]
fn moving_a_relevant_hit_later_does_not_raise_average_precision() {
    // [1,2,9] puts both relevant IDs first: AP = 1.
    // [1,9,2] swaps the relevant 2 with the irrelevant 9: AP = 5/6.
    let relevant: Vec<u64> = vec![1, 2];
    let early: Vec<u64> = vec![1, 2, 9];
    let late: Vec<u64> = vec![1, 9, 2];
    let ap_early = average_precision(&early, &relevant).unwrap();
    let ap_late = average_precision(&late, &relevant).unwrap();
    assert!(ap_early.eq_frac(&frac(1, 1)));
    assert!(ap_late.eq_frac(&frac(5, 6)));
    assert!(ap_late.le_frac(&ap_early));
}

#[test]
fn duplicate_retrieved_ids_each_count() {
    // A duplicated retrieved ID is counted once per occurrence by the scan.
    let retrieved: Vec<u64> = vec![5, 5];
    let relevant: Vec<u64> = vec![5];
    let p2 = precision_at_k(&retrieved, &relevant, 2);
    assert!(p2.eq_frac(&frac(1, 1)));
}

#[test]
fn distant_swap_does_not_raise_average_precision() {
    // Swapping the relevant ID from the first rank to the last: AP 1 vs 1/3.
    let relevant: Vec<u64> = vec![1];
    let early: Vec<u64> = vec![1, 8, 9];
    let late: Vec<u64> = vec![9, 8, 1];
    let ap_early = average_precision(&early, &relevant).unwrap();
    let ap_late = average_precision(&late, &relevant).unwrap();
    assert!(ap_early.eq_frac(&frac(1, 1)));
    assert!(ap_late.eq_frac(&frac(1, 3)));
    assert!(ap_late.le_frac(&ap_early));
}

#[test]
fn reduction_keeps_long_perfect_runs_exact() {
    // Unreduced, an all-relevant run of this length would outgrow u64; the
    // reduced accumulator keeps the score exactly one.
    let ids: Vec<u64> = (1..=100).collect();
    let ap = average_precision(&ids, &ids).unwrap();
    assert!(ap.eq_frac(&frac(1, 1)));
}

#[test]
fn average_precision_reports_overflow_instead_of_a_wrong_score() {
    // Hits exactly at the prime ranks up to 53: the running sum's reduced
    // denominator is the product of those primes, which passes u64 at 53.
    let retrieved: Vec<u64> = (1..=53).collect();
    let relevant: Vec<u64> = vec![2, 3, 5, 7, 11, 13, 17, 19, 23, 29, 31, 37, 41, 43, 47, 53];
    assert!(average_precision(&retrieved, &relevant).is_none());
    // Stopping before the last prime still fits.
    let shorter: Vec<u64> = (1..=47).collect();
    assert!(average_precision(&shorter, &relevant).is_some());
}

#[test]
fn frac_addition_reports_overflow() {
    let a = frac(1, u64::MAX);
    let b = frac(1, 2);
    assert!(a.checked_add(&b).is_none());
}

#[test]
fn frac_arithmetic_is_exact() {
    let a = frac(1, 3);
    let b = frac(1, 6);
    let sum = a.checked_add(&b).unwrap();
    assert!(sum.eq_frac(&frac(1, 2)));
    // Sums come back reduced.
    assert_eq!(sum.num, 1);
    assert_eq!(sum.den, 2);
    let half = frac(2, 4);
    assert!(half.eq_frac(&frac(1, 2)));
    assert!(frac(1, 3).le_frac(&frac(1, 2)));
    assert!(!frac(1, 2).le_frac(&frac(1, 3)));
    let third = sum.checked_div(3).unwrap();
    assert!(third.eq_frac(&frac(1, 6)));
}
