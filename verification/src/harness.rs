//! The evaluation harness: fold per-query scores for one field into mean
//! precision at cutoff three, mean recall-base precision, and mean average
//! precision.
//!
//! Retrieval itself is the business of an outside search collaborator; this
//! module only scores what came back, so one field's evaluation is a fold
//! over pairs of relevant IDs and ranked retrieved IDs.  The fold is exact:
//! scores are reduced rationals, and the harness reports an overflow rather
//! than a wrong mean in the rare case where even a reduced value outgrows
//! its `u64` components.

use vstd::prelude::*;

use crate::frac::Frac;
use crate::frac::rat_add;
use crate::frac::rat_checked_add;
use crate::frac::rat_checked_div;
use crate::frac::rat_div;
use crate::frac::rat_eq;
use crate::frac::rat_wf;
use crate::frac::rat_zero;
use crate::metrics::ap_rat;
use crate::metrics::ap_result;
use crate::metrics::average_precision;
use crate::metrics::lemma_ap_rat_wf;
use crate::metrics::lemma_ap_result_sound;
use crate::metrics::lemma_p_at_k_rat_wf;
use crate::metrics::p_at_k_rat;
use crate::metrics::precision_at_k;

verus! {

/// One query's judgment and retrieval outcome for one field: the IDs judged
/// relevant and the ranked IDs the search collaborator returned.
pub struct JudgedQuery {
    pub relevant: Vec<u64>,
    pub retrieved: Vec<u64>,
}

/// Per-query precision at cutoff three.
pub open spec fn p3_of(q: JudgedQuery) -> (int, int) {
    p_at_k_rat(q.retrieved@, q.relevant@, 3)
}

/// Per-query recall-base precision: the cutoff is the number of relevant IDs.
pub open spec fn pr_of(q: JudgedQuery) -> (int, int) {
    p_at_k_rat(q.retrieved@, q.relevant@, q.relevant@.len() as int)
}

/// Per-query average precision.
pub open spec fn ap_of(q: JudgedQuery) -> (int, int) {
    ap_rat(q.retrieved@, q.relevant@)
}

/// The executable average-precision score of one query, where it exists.
pub open spec fn ap_score_of(q: JudgedQuery) -> Option<(int, int)> {
    ap_result(q.retrieved@, q.relevant@)
}

/// The executable average-precision score's value (meaningful where
/// `ap_score_of` is `Some`).
pub open spec fn ap_term(q: JudgedQuery) -> (int, int) {
    match ap_score_of(q) {
        Option::Some(v) => v,
        Option::None => rat_zero(),
    }
}

/// The exact rational sum of a per-query score over the first `n` queries.
pub open spec fn sum_rats(
    qs: Seq<JudgedQuery>,
    f: spec_fn(JudgedQuery) -> (int, int),
    n: int,
) -> (int, int)
    decreases n,
{
    if n <= 0 {
        rat_zero()
    } else {
        rat_add(sum_rats(qs, f, n - 1), f(qs[n - 1]))
    }
}

/// The arithmetic mean of a per-query score over a whole benchmark.
pub open spec fn mean_rat(qs: Seq<JudgedQuery>, f: spec_fn(JudgedQuery) -> (int, int)) -> (
    int,
    int,
) {
    rat_div(sum_rats(qs, f, qs.len() as int), qs.len() as int)
}

/// Mean precision at cutoff three over a benchmark.
pub open spec fn mean_p3_rat(qs: Seq<JudgedQuery>) -> (int, int) {
    mean_rat(qs, |q: JudgedQuery| p3_of(q))
}

/// Mean recall-base precision over a benchmark.
pub open spec fn mean_pr_rat(qs: Seq<JudgedQuery>) -> (int, int) {
    mean_rat(qs, |q: JudgedQuery| pr_of(q))
}

/// Mean average precision over a benchmark.
pub open spec fn mean_ap_rat(qs: Seq<JudgedQuery>) -> (int, int) {
    mean_rat(qs, |q: JudgedQuery| ap_of(q))
}

/// The per-query sums as the executable accumulator keeps them: reduced
/// after every addition, `None` from the first step whose reduced value
/// outgrows `u64` components.
pub open spec fn sum_acc(
    qs: Seq<JudgedQuery>,
    f: spec_fn(JudgedQuery) -> (int, int),
    n: int,
) -> Option<(int, int)>
    decreases n,
{
    if n <= 0 {
        Some(rat_zero())
    } else {
        match sum_acc(qs, f, n - 1) {
            Option::None => Option::None,
            Option::Some(a) => rat_checked_add(a, f(qs[n - 1])),
        }
    }
}

/// The executable mean of a per-query score: the accumulated sum divided by
/// the query count, where every step stayed representable.
pub open spec fn mean_acc(qs: Seq<JudgedQuery>, f: spec_fn(JudgedQuery) -> (int, int)) -> Option<
    (int, int),
> {
    match sum_acc(qs, f, qs.len() as int) {
        Option::None => Option::None,
        Option::Some(s) => rat_checked_div(s, qs.len() as int),
    }
}

/// Whether the whole evaluation stays representable: every query's average
/// precision exists, and all three accumulated means exist.
pub open spec fn eval_ok(qs: Seq<JudgedQuery>) -> bool {
    &&& qs.len() >= 1
    &&& forall|j: int| 0 <= j < qs.len() ==> ap_score_of(#[trigger] qs[j]) is Some
    &&& mean_acc(qs, |q: JudgedQuery| p3_of(q)) is Some
    &&& mean_acc(qs, |q: JudgedQuery| pr_of(q)) is Some
    &&& mean_acc(qs, |q: JudgedQuery| ap_term(q)) is Some
}

/// The three per-query scores of one query.
pub struct QueryScore {
    pub p_at_3: Frac,
    pub p_at_r: Frac,
    pub avg_p: Frac,
}

/// The three per-field means.
pub struct FieldMeans {
    pub mean_p3: Frac,
    pub mean_pr: Frac,
    pub mean_ap: Frac,
}

/// Why an evaluation reported no means.
#[derive(Clone, Copy, Debug, PartialEq, Eq, Structural)]
pub enum EvalError {
    /// The benchmark holds no queries, so a mean would divide by zero.
    EmptyBenchmark,
    /// An exact score outgrew its `u64` components even after reduction.
    ScoreOverflow,
}

proof fn lemma_sum_rats_wf(qs: Seq<JudgedQuery>, f: spec_fn(JudgedQuery) -> (int, int), n: int)
    requires
        forall|j: int| 0 <= j < n ==> rat_wf(f(#[trigger] qs[j])),
    ensures
        rat_wf(sum_rats(qs, f, n)),
    decreases n,
{
    if n > 0 {
        lemma_sum_rats_wf(qs, f, n - 1);
        crate::frac::lemma_rat_add_grows(sum_rats(qs, f, n - 1), f(qs[n - 1]));
    }
}

/// All three exact per-query scores are well-formed rationals.
proof fn lemma_scores_wf(q: JudgedQuery)
    ensures
        rat_wf(p3_of(q)),
        rat_wf(pr_of(q)),
        rat_wf(ap_of(q)),
{
    lemma_p_at_k_rat_wf(q.retrieved@, q.relevant@, 3);
    lemma_p_at_k_rat_wf(q.retrieved@, q.relevant@, q.relevant@.len() as int);
    lemma_ap_rat_wf(q.retrieved@, q.relevant@);
}

proof fn lemma_sum_acc_none(
    qs: Seq<JudgedQuery>,
    f: spec_fn(JudgedQuery) -> (int, int),
    m: int,
    n: int,
)
    requires
        0 <= m <= n,
        sum_acc(qs, f, m) is None,
    ensures
        sum_acc(qs, f, n) is None,
    decreases n,
{
    if m < n {
        lemma_sum_acc_none(qs, f, m, n - 1);
    }
}

/// The reduced accumulator tracks the exact sum wherever it exists.
proof fn lemma_sum_acc_sound(qs: Seq<JudgedQuery>, f: spec_fn(JudgedQuery) -> (int, int), n: int)
    requires
        forall|j: int| 0 <= j < n ==> rat_wf(f(#[trigger] qs[j])),
    ensures
        sum_acc(qs, f, n) matches Some(v) ==> rat_wf(v) && rat_eq(v, sum_rats(qs, f, n)),
    decreases n,
{
    if n > 0 {
        lemma_sum_acc_sound(qs, f, n - 1);
        match sum_acc(qs, f, n - 1) {
            Option::None => {},
            Option::Some(prev) => {
                lemma_sum_rats_wf(qs, f, n - 1);
                let t = f(qs[n - 1]);
                let s = rat_add(prev, t);
                crate::frac::lemma_rat_add_grows(prev, t);
                crate::frac::lemma_rat_add_grows(sum_rats(qs, f, n - 1), t);
                if rat_checked_add(prev, t) is Some {
                    crate::frac::lemma_rat_reduce(s);
                    crate::frac::lemma_rat_add_congr(prev, sum_rats(qs, f, n - 1), t);
                    crate::frac::lemma_rat_eq_trans(
                        crate::frac::rat_reduce(s),
                        s,
                        sum_rats(qs, f, n),
                    );
                }
            },
        }
    }
}

/// Sums of pointwise equal-valued scores are equal-valued.
proof fn lemma_sum_rats_congr(
    qs: Seq<JudgedQuery>,
    f: spec_fn(JudgedQuery) -> (int, int),
    g: spec_fn(JudgedQuery) -> (int, int),
    n: int,
)
    requires
        forall|j: int|
            0 <= j < n ==> rat_wf(f(#[trigger] qs[j])) && rat_wf(g(qs[j])) && rat_eq(
                f(qs[j]),
                g(qs[j]),
            ),
    ensures
        rat_eq(sum_rats(qs, f, n), sum_rats(qs, g, n)),
    decreases n,
{
    if n > 0 {
        lemma_sum_rats_congr(qs, f, g, n - 1);
        lemma_sum_rats_wf(qs, f, n - 1);
        lemma_sum_rats_wf(qs, g, n - 1);
        let sf = sum_rats(qs, f, n - 1);
        let sg = sum_rats(qs, g, n - 1);
        let tf = f(qs[n - 1]);
        let tg = g(qs[n - 1]);
        crate::frac::lemma_rat_add_grows(sf, tf);
        crate::frac::lemma_rat_add_grows(sg, tf);
        crate::frac::lemma_rat_add_grows(sg, tg);
        crate::frac::lemma_rat_add_congr(sf, sg, tf);
        crate::frac::lemma_rat_add_congr_right(sg, tf, tg);
        crate::frac::lemma_rat_eq_trans(rat_add(sf, tf), rat_add(sg, tf), rat_add(sg, tg));
    }
}

/// The accumulated mean equals the exact mean wherever it exists.
proof fn lemma_mean_acc_sound(qs: Seq<JudgedQuery>, f: spec_fn(JudgedQuery) -> (int, int))
    requires
        qs.len() >= 1,
        forall|j: int| 0 <= j < qs.len() ==> rat_wf(f(#[trigger] qs[j])),
    ensures
        mean_acc(qs, f) matches Some(v) ==> rat_wf(v) && rat_eq(v, mean_rat(qs, f)),
{
    let n = qs.len() as int;
    lemma_sum_acc_sound(qs, f, n);
    match sum_acc(qs, f, n) {
        Option::None => {},
        Option::Some(s) => {
            lemma_sum_rats_wf(qs, f, n);
            let sr = sum_rats(qs, f, n);
            crate::frac::lemma_mul_ge(s.1, n);
            crate::frac::lemma_mul_ge(sr.1, n);
            if rat_checked_div(s, n) is Some {
                crate::frac::lemma_rat_reduce(rat_div(s, n));
                crate::frac::lemma_rat_div_congr(s, sr, n);
                crate::frac::lemma_rat_eq_trans(
                    crate::frac::rat_reduce(rat_div(s, n)),
                    rat_div(s, n),
                    rat_div(sr, n),
                );
            }
        },
    }
}

/// Where every query's executable average precision exists, its value is
/// well-formed and equals the exact one.
proof fn lemma_ap_terms(qs: Seq<JudgedQuery>)
    requires
        forall|j: int| 0 <= j < qs.len() ==> ap_score_of(#[trigger] qs[j]) is Some,
    ensures
        forall|j: int|
            0 <= j < qs.len() ==> rat_wf(ap_term(#[trigger] qs[j])) && rat_eq(
                ap_term(qs[j]),
                ap_of(qs[j]),
            ),
{
    assert forall|j: int|
        0 <= j < qs.len() implies rat_wf(ap_term(#[trigger] qs[j])) && rat_eq(
        ap_term(qs[j]),
        ap_of(qs[j]),
    ) by {
        lemma_ap_result_sound(qs[j].retrieved@, qs[j].relevant@);
    }
}

/// Score a single query: precision at cutoff three, recall-base precision,
/// and average precision, all exact.  `None` exactly when the reduced
/// average precision does not fit in `u64` components.
pub fn score_query(retrieved: &Vec<u64>, relevant: &Vec<u64>) -> (r: Option<QueryScore>)
    ensures
        r is Some <==> ap_result(retrieved@, relevant@) is Some,
        r matches Some(s) ==> {
            &&& s.p_at_3.wf() && s.p_at_3@ == p_at_k_rat(retrieved@, relevant@, 3)
            &&& s.p_at_r.wf() && s.p_at_r@ == p_at_k_rat(
                retrieved@,
                relevant@,
                relevant@.len() as int,
            )
            &&& s.avg_p.wf() && Some(s.avg_p@) == ap_result(retrieved@, relevant@)
            &&& rat_eq(s.avg_p@, ap_rat(retrieved@, relevant@))
        },
{
    let avg_p = match average_precision(retrieved, relevant) {
        Some(f) => f,
        None => {
            return None;
        },
    };
    let p_at_3 = precision_at_k(retrieved, relevant, 3);
    let p_at_r = precision_at_k(retrieved, relevant, relevant.len());
    Some(QueryScore { p_at_3, p_at_r, avg_p })
}

/// Evaluate one field: visit every judged query exactly once, score it, and
/// fold the scores into the three exact means.  An empty benchmark reports
/// no means rather than dividing by zero, and the accumulation is exact or
/// reports an overflow rather than returning a wrong mean.
pub fn evaluate_field(queries: &Vec<JudgedQuery>) -> (r: Result<FieldMeans, EvalError>)
    ensures
        r matches Ok(m) ==> {
            &&& queries@.len() >= 1
            &&& m.mean_p3.wf() && rat_eq(m.mean_p3@, mean_p3_rat(queries@))
            &&& m.mean_pr.wf() && rat_eq(m.mean_pr@, mean_pr_rat(queries@))
            &&& m.mean_ap.wf() && rat_eq(m.mean_ap@, mean_ap_rat(queries@))
        },
        r == Err::<FieldMeans, EvalError>(EvalError::EmptyBenchmark) <==> queries@.len() == 0,
        r is Ok <==> eval_ok(queries@),
{
    let ghost qs = queries@;
    let ghost f3 = |q: JudgedQuery| p3_of(q);
    let ghost fr = |q: JudgedQuery| pr_of(q);
    let ghost fap = |q: JudgedQuery| ap_term(q);
    proof {
        assert forall|j: int| 0 <= j < qs.len() implies rat_wf(f3(#[trigger] qs[j])) && rat_wf(
            fr(qs[j]),
        ) by {
            lemma_scores_wf(qs[j]);
        }
    }
    if queries.len() == 0 {
        return Err(EvalError::EmptyBenchmark);
    }
    let mut s3 = Frac::zero();
    let mut sr = Frac::zero();
    let mut sap = Frac::zero();
    let mut i: usize = 0;
    while i < queries.len()
        invariant
            i <= qs.len(),
            qs.len() >= 1,
            queries@ == qs,
            s3.wf() && Some(s3@) == sum_acc(qs, f3, i as int),
            sr.wf() && Some(sr@) == sum_acc(qs, fr, i as int),
            sap.wf() && Some(sap@) == sum_acc(qs, fap, i as int),
            forall|j: int| 0 <= j < i ==> ap_score_of(#[trigger] qs[j]) is Some,
            forall|j: int| 0 <= j < qs.len() ==> rat_wf(f3(#[trigger] qs[j])) && rat_wf(fr(qs[j])),
            f3 == (|q: JudgedQuery| p3_of(q)),
            fr == (|q: JudgedQuery| pr_of(q)),
            fap == (|q: JudgedQuery| ap_term(q)),
        decreases qs.len() - i,
    {
        let q = &queries[i];
        let score = match score_query(&q.retrieved, &q.relevant) {
            Some(s) => s,
            None => {
                return Err(EvalError::ScoreOverflow);
            },
        };
        s3 = match s3.checked_add(&score.p_at_3) {
            Some(f) => f,
            None => {
                proof {
                    lemma_sum_acc_none(qs, f3, i as int + 1, qs.len() as int);
                }
                return Err(EvalError::ScoreOverflow);
            },
        };
        sr = match sr.checked_add(&score.p_at_r) {
            Some(f) => f,
            None => {
                proof {
                    lemma_sum_acc_none(qs, fr, i as int + 1, qs.len() as int);
                }
                return Err(EvalError::ScoreOverflow);
            },
        };
        sap = match sap.checked_add(&score.avg_p) {
            Some(f) => f,
            None => {
                proof {
                    lemma_sum_acc_none(qs, fap, i as int + 1, qs.len() as int);
                }
                return Err(EvalError::ScoreOverflow);
            },
        };
        i = i + 1;
    }
    let mean_p3 = match s3.checked_div(queries.len()) {
        Some(f) => f,
        None => {
            return Err(EvalError::ScoreOverflow);
        },
    };
    let mean_pr = match sr.checked_div(queries.len()) {
        Some(f) => f,
        None => {
            return Err(EvalError::ScoreOverflow);
        },
    };
    let mean_ap = match sap.checked_div(queries.len()) {
        Some(f) => f,
        None => {
            return Err(EvalError::ScoreOverflow);
        },
    };
    proof {
        lemma_ap_terms(qs);
        assert forall|j: int| 0 <= j < qs.len() implies rat_wf(fap(#[trigger] qs[j])) by {
            lemma_ap_terms(qs);
        }
        lemma_mean_acc_sound(qs, f3);
        lemma_mean_acc_sound(qs, fr);
        lemma_mean_acc_sound(qs, fap);
        let n = qs.len() as int;
        let gap = |q: JudgedQuery| ap_of(q);
        assert forall|j: int|
            0 <= j < n implies rat_wf(fap(#[trigger] qs[j])) && rat_wf(gap(qs[j])) && rat_eq(
            fap(qs[j]),
            gap(qs[j]),
        ) by {
            lemma_ap_terms(qs);
            lemma_scores_wf(qs[j]);
        }
        lemma_sum_rats_congr(qs, fap, gap, n);
        lemma_sum_rats_wf(qs, fap, n);
        lemma_sum_rats_wf(qs, gap, n);
        crate::frac::lemma_mul_ge(sum_rats(qs, fap, n).1, n);
        crate::frac::lemma_mul_ge(sum_rats(qs, gap, n).1, n);
        crate::frac::lemma_rat_div_congr(sum_rats(qs, fap, n), sum_rats(qs, gap, n), n);
        crate::frac::lemma_rat_eq_trans(mean_ap@, mean_rat(qs, fap), mean_rat(qs, gap));
    }
    Ok(FieldMeans { mean_p3, mean_pr, mean_ap })
}

} // verus!
