//! Retrieval metrics for a single query: precision at a cutoff and average
//! precision, both as exact rationals.
//!
//! A query is judged by comparing the ranked list of retrieved document IDs
//! against the set of IDs judged relevant.  Membership is a plain scan, and a
//! duplicated retrieved ID counts once per occurrence.

use vstd::prelude::*;

use crate::frac::Frac;
use crate::frac::lemma_mul_ge;
use crate::frac::rat_add;
use crate::frac::rat_checked_add;
use crate::frac::rat_checked_div;
use crate::frac::rat_div;
use crate::frac::rat_eq;
use crate::frac::rat_le;
use crate::frac::rat_one;
use crate::frac::rat_wf;
use crate::frac::rat_zero;

verus! {

/// How many of the first `n` retrieved IDs appear in `relevant`, each
/// occurrence counted separately.
pub open spec fn hits_upto(retrieved: Seq<u64>, relevant: Seq<u64>, n: int) -> int
    decreases n,
{
    if n <= 0 {
        0
    } else {
        hits_upto(retrieved, relevant, n - 1) + if n <= retrieved.len()
            && relevant.contains(retrieved[n - 1]) {
            1int
        } else {
            0int
        }
    }
}

/// Precision at cutoff `k` as a rational: only available entries count, so
/// both the hits and the denominator use the effective cutoff
/// `min(k, |retrieved|)`; zero when that cutoff is zero.
pub open spec fn p_at_k_rat(retrieved: Seq<u64>, relevant: Seq<u64>, k: int) -> (int, int) {
    let m = if k <= retrieved.len() {
        k
    } else {
        retrieved.len() as int
    };
    if m <= 0 {
        rat_zero()
    } else {
        (hits_upto(retrieved, relevant, m), m)
    }
}

/// The running average-precision sum over the first `n` ranks: at each rank
/// holding a relevant ID, precision at that rank is added.
pub open spec fn ap_partial(retrieved: Seq<u64>, relevant: Seq<u64>, n: int) -> (int, int)
    decreases n,
{
    if n <= 0 {
        rat_zero()
    } else {
        let prev = ap_partial(retrieved, relevant, n - 1);
        if n <= retrieved.len() && relevant.contains(retrieved[n - 1]) {
            rat_add(prev, (hits_upto(retrieved, relevant, n), n))
        } else {
            prev
        }
    }
}

/// Average precision as a rational: the running sum over the whole retrieved
/// list, divided by the number of relevant IDs; zero when that number is zero.
pub open spec fn ap_rat(retrieved: Seq<u64>, relevant: Seq<u64>) -> (int, int) {
    if relevant.len() == 0 {
        rat_zero()
    } else {
        rat_div(ap_partial(retrieved, relevant, retrieved.len() as int), relevant.len() as int)
    }
}

/// No retrieved ID is relevant.
pub open spec fn disjoint_ids(retrieved: Seq<u64>, relevant: Seq<u64>) -> bool {
    forall|i: int| 0 <= i < retrieved.len() ==> !relevant.contains(retrieved[i])
}

pub proof fn lemma_hits_upto_bounds(retrieved: Seq<u64>, relevant: Seq<u64>, n: int)
    ensures
        0 <= hits_upto(retrieved, relevant, n),
        n >= 0 ==> hits_upto(retrieved, relevant, n) <= n,
    decreases n,
{
    if n > 0 {
        lemma_hits_upto_bounds(retrieved, relevant, n - 1);
    }
}

/// The running sum is a well-formed rational at every rank.
pub proof fn lemma_ap_partial_wf(retrieved: Seq<u64>, relevant: Seq<u64>, n: int)
    ensures
        ap_partial(retrieved, relevant, n).0 >= 0,
        ap_partial(retrieved, relevant, n).1 >= 1,
    decreases n,
{
    if n <= 0 {
    } else {
        lemma_ap_partial_wf(retrieved, relevant, n - 1);
        let prev = ap_partial(retrieved, relevant, n - 1);
        if n <= retrieved.len() && relevant.contains(retrieved[n - 1]) {
            lemma_hits_upto_bounds(retrieved, relevant, n);
            lemma_mul_ge(prev.0, n);
            lemma_mul_ge(prev.1, n);
            assert(hits_upto(retrieved, relevant, n) * prev.1 >= 0) by (nonlinear_arith)
                requires
                    hits_upto(retrieved, relevant, n) >= 0,
                    prev.1 >= 1,
            ;
        }
    }
}

/// Whether `v` holds the ID `x`.
fn contains_id(v: &Vec<u64>, x: u64) -> (r: bool)
    ensures
        r == v@.contains(x),
{
    let mut i: usize = 0;
    while i < v.len()
        invariant
            i <= v@.len(),
            forall|j: int| 0 <= j < i ==> v@[j] != x,
        decreases v@.len() - i,
    {
        if v[i] == x {
            return true;
        }
        i = i + 1;
    }
    false
}

/// Precision at cutoff `k`: the fraction of the first `k` retrieved IDs that
/// are relevant.  Only available entries count, in the denominator too: the
/// effective cutoff is `min(k, |retrieved|)`, and when it is zero the score
/// is zero rather than a division by zero.
pub fn precision_at_k(retrieved: &Vec<u64>, relevant: &Vec<u64>, k: usize) -> (r: Frac)
    ensures
        r.wf(),
        r@ == p_at_k_rat(retrieved@, relevant@, k as int),
        rat_le(r@, rat_one()),
{
    let end = if k < retrieved.len() {
        k
    } else {
        retrieved.len()
    };
    if end == 0 {
        return Frac::zero();
    }
    let mut hits: usize = 0;
    let mut i: usize = 0;
    while i < end
        invariant
            i <= end,
            end <= retrieved@.len(),
            hits as int == hits_upto(retrieved@, relevant@, i as int),
            hits <= i,
        decreases end - i,
    {
        if contains_id(relevant, retrieved[i]) {
            hits = hits + 1;
        }
        i = i + 1;
    }
    proof {
        lemma_hits_upto_bounds(retrieved@, relevant@, end as int);
    }
    Frac::new(hits as u64, end as u64)
}

/// The running average-precision sum as the executable accumulator keeps
/// it: reduced after every addition, and `None` from the first step whose
/// reduced value outgrows `u64` components.
pub open spec fn ap_acc(retrieved: Seq<u64>, relevant: Seq<u64>, n: int) -> Option<(int, int)>
    decreases n,
{
    if n <= 0 {
        Some(rat_zero())
    } else {
        match ap_acc(retrieved, relevant, n - 1) {
            Option::None => Option::None,
            Option::Some(prev) => if n <= retrieved.len() && relevant.contains(retrieved[n - 1]) {
                rat_checked_add(prev, (hits_upto(retrieved, relevant, n), n))
            } else {
                Some(prev)
            },
        }
    }
}

/// The executable average precision: the accumulated sum divided by the
/// number of relevant IDs (zero when there are none), or `None` where a
/// reduced intermediate or the reduced result outgrows `u64` components.
pub open spec fn ap_result(retrieved: Seq<u64>, relevant: Seq<u64>) -> Option<(int, int)> {
    match ap_acc(retrieved, relevant, retrieved.len() as int) {
        Option::None => Option::None,
        Option::Some(s) => if relevant.len() == 0 {
            Some(rat_zero())
        } else {
            rat_checked_div(s, relevant.len() as int)
        },
    }
}

proof fn lemma_ap_acc_none(retrieved: Seq<u64>, relevant: Seq<u64>, m: int, n: int)
    requires
        0 <= m <= n,
        ap_acc(retrieved, relevant, m) is None,
    ensures
        ap_acc(retrieved, relevant, n) is None,
    decreases n,
{
    if m < n {
        lemma_ap_acc_none(retrieved, relevant, m, n - 1);
    }
}

/// The reduced accumulator tracks the exact running sum wherever it exists.
pub proof fn lemma_ap_acc_sound(retrieved: Seq<u64>, relevant: Seq<u64>, n: int)
    ensures
        ap_acc(retrieved, relevant, n) matches Some(v) ==> rat_wf(v) && rat_eq(
            v,
            ap_partial(retrieved, relevant, n),
        ),
    decreases n,
{
    if n > 0 {
        lemma_ap_acc_sound(retrieved, relevant, n - 1);
        match ap_acc(retrieved, relevant, n - 1) {
            Option::None => {},
            Option::Some(prev) => {
                lemma_ap_partial_wf(retrieved, relevant, n - 1);
                if n <= retrieved.len() && relevant.contains(retrieved[n - 1]) {
                    lemma_hits_upto_bounds(retrieved, relevant, n);
                    let t = (hits_upto(retrieved, relevant, n), n);
                    let s = rat_add(prev, t);
                    crate::frac::lemma_rat_add_grows(prev, t);
                    crate::frac::lemma_rat_add_grows(ap_partial(retrieved, relevant, n - 1), t);
                    if rat_checked_add(prev, t) is Some {
                        crate::frac::lemma_rat_reduce(s);
                        crate::frac::lemma_rat_add_congr(
                            prev,
                            ap_partial(retrieved, relevant, n - 1),
                            t,
                        );
                        crate::frac::lemma_rat_eq_trans(
                            crate::frac::rat_reduce(s),
                            s,
                            ap_partial(retrieved, relevant, n),
                        );
                    }
                }
            },
        }
    }
}

/// Where the executable average precision exists, it equals the exact one.
pub proof fn lemma_ap_result_sound(retrieved: Seq<u64>, relevant: Seq<u64>)
    ensures
        ap_result(retrieved, relevant) matches Some(v) ==> rat_wf(v) && rat_eq(
            v,
            ap_rat(retrieved, relevant),
        ),
{
    let len = retrieved.len() as int;
    lemma_ap_acc_sound(retrieved, relevant, len);
    match ap_acc(retrieved, relevant, len) {
        Option::None => {},
        Option::Some(s) => {
            if relevant.len() > 0 {
                let k = relevant.len() as int;
                lemma_ap_partial_wf(retrieved, relevant, len);
                let fin = ap_partial(retrieved, relevant, len);
                lemma_mul_ge(s.1, k);
                lemma_mul_ge(fin.1, k);
                if rat_checked_div(s, k) is Some {
                    crate::frac::lemma_rat_reduce(rat_div(s, k));
                    crate::frac::lemma_rat_div_congr(s, fin, k);
                    crate::frac::lemma_rat_eq_trans(
                        crate::frac::rat_reduce(rat_div(s, k)),
                        rat_div(s, k),
                        rat_div(fin, k),
                    );
                }
            }
        },
    }
}

/// Average precision: at each rank holding a relevant ID, precision at that
/// rank is added to a running sum, and the sum is divided by the number of
/// relevant IDs (zero when there are none).  The accumulator is reduced
/// after every step; `None` comes exactly where even a reduced value does
/// not fit in `u64` components, never a wrong score.
pub fn average_precision(retrieved: &Vec<u64>, relevant: &Vec<u64>) -> (r: Option<Frac>)
    ensures
        r is Some <==> ap_result(retrieved@, relevant@) is Some,
        r matches Some(f) ==> f.wf() && Some(f@) == ap_result(retrieved@, relevant@) && rat_eq(
            f@,
            ap_rat(retrieved@, relevant@),
        ),
{
    let ghost rs = retrieved@;
    let ghost vs = relevant@;
    let mut acc = Frac::zero();
    let mut hits: u64 = 0;
    let mut i: usize = 0;
    while i < retrieved.len()
        invariant
            i <= rs.len(),
            retrieved@ == rs,
            relevant@ == vs,
            acc.wf(),
            Some(acc@) == ap_acc(rs, vs, i as int),
            hits as int == hits_upto(rs, vs, i as int),
            hits <= i,
        decreases rs.len() - i,
    {
        if contains_id(relevant, retrieved[i]) {
            hits = hits + 1;
            let term = Frac::new(hits, (i + 1) as u64);
            acc = match acc.checked_add(&term) {
                Some(f) => f,
                None => {
                    proof {
                        lemma_ap_acc_none(rs, vs, i as int + 1, rs.len() as int);
                    }
                    return None;
                },
            };
        }
        i = i + 1;
    }
    if relevant.len() == 0 {
        return Some(Frac::zero());
    }
    proof {
        lemma_ap_result_sound(rs, vs);
    }
    match acc.checked_div(relevant.len()) {
        Some(f) => Some(f),
        None => None,
    }
}

/// Precision at any cutoff is a well-formed rational.
pub proof fn lemma_p_at_k_rat_wf(retrieved: Seq<u64>, relevant: Seq<u64>, k: int)
    ensures
        p_at_k_rat(retrieved, relevant, k).0 >= 0,
        p_at_k_rat(retrieved, relevant, k).1 >= 1,
{
    let m = if k <= retrieved.len() {
        k
    } else {
        retrieved.len() as int
    };
    if m > 0 {
        lemma_hits_upto_bounds(retrieved, relevant, m);
    }
}

/// Average precision is a well-formed rational.
pub proof fn lemma_ap_rat_wf(retrieved: Seq<u64>, relevant: Seq<u64>)
    ensures
        ap_rat(retrieved, relevant).0 >= 0,
        ap_rat(retrieved, relevant).1 >= 1,
{
    if relevant.len() > 0 {
        lemma_ap_partial_wf(retrieved, relevant, retrieved.len() as int);
        lemma_mul_ge(ap_partial(retrieved, relevant, retrieved.len() as int).1, relevant.len() as int);
    }
}

/// Only available entries count: a cutoff at or past the end of the
/// retrieved list scores exactly as a cutoff at the list's length does.
pub proof fn lemma_precision_cutoff_saturates(retrieved: Seq<u64>, relevant: Seq<u64>, k: int)
    requires
        k >= retrieved.len(),
    ensures
        p_at_k_rat(retrieved, relevant, k) == p_at_k_rat(
            retrieved,
            relevant,
            retrieved.len() as int,
        ),
{
}

/// A cutoff of zero yields the zero score, never a division by zero.
pub proof fn lemma_precision_at_zero(retrieved: Seq<u64>, relevant: Seq<u64>)
    ensures
        p_at_k_rat(retrieved, relevant, 0) == rat_zero(),
{
}

proof fn lemma_hits_upto_disjoint(retrieved: Seq<u64>, relevant: Seq<u64>, n: int)
    requires
        disjoint_ids(retrieved, relevant),
    ensures
        hits_upto(retrieved, relevant, n) == 0,
    decreases n,
{
    if n > 0 {
        lemma_hits_upto_disjoint(retrieved, relevant, n - 1);
    }
}

/// When no retrieved ID is relevant, precision at any cutoff is zero.
pub proof fn lemma_precision_disjoint_zero(retrieved: Seq<u64>, relevant: Seq<u64>, k: int)
    requires
        disjoint_ids(retrieved, relevant),
    ensures
        rat_eq(p_at_k_rat(retrieved, relevant, k), rat_zero()),
{
    let m = if k <= retrieved.len() {
        k
    } else {
        retrieved.len() as int
    };
    if m > 0 {
        lemma_hits_upto_disjoint(retrieved, relevant, m);
    }
}

proof fn lemma_ap_partial_disjoint(retrieved: Seq<u64>, relevant: Seq<u64>, n: int)
    requires
        disjoint_ids(retrieved, relevant),
    ensures
        ap_partial(retrieved, relevant, n) == rat_zero(),
    decreases n,
{
    if n > 0 {
        lemma_ap_partial_disjoint(retrieved, relevant, n - 1);
    }
}

/// When no retrieved ID is relevant, average precision is zero.
pub proof fn lemma_ap_disjoint_zero(retrieved: Seq<u64>, relevant: Seq<u64>)
    requires
        disjoint_ids(retrieved, relevant),
    ensures
        rat_eq(ap_rat(retrieved, relevant), rat_zero()),
{
    lemma_ap_partial_disjoint(retrieved, relevant, retrieved.len() as int);
}

/// With no relevant IDs at all, average precision is zero by definition.
pub proof fn lemma_ap_empty_relevant(retrieved: Seq<u64>)
    ensures
        ap_rat(retrieved, Seq::<u64>::empty()) == rat_zero(),
{
}

proof fn lemma_hits_upto_perfect(retrieved: Seq<u64>, relevant: Seq<u64>, n: int)
    requires
        0 <= n <= relevant.len(),
        relevant.len() <= retrieved.len(),
        forall|i: int| 0 <= i < relevant.len() ==> relevant.contains(retrieved[i]),
    ensures
        hits_upto(retrieved, relevant, n) == n,
    decreases n,
{
    if n > 0 {
        lemma_hits_upto_perfect(retrieved, relevant, n - 1);
    }
}

proof fn lemma_ap_partial_perfect(retrieved: Seq<u64>, relevant: Seq<u64>, n: int)
    requires
        0 <= n <= relevant.len(),
        relevant.len() <= retrieved.len(),
        forall|i: int| 0 <= i < relevant.len() ==> relevant.contains(retrieved[i]),
    ensures
        ap_partial(retrieved, relevant, n).0 == n * ap_partial(retrieved, relevant, n).1,
        ap_partial(retrieved, relevant, n).1 >= 1,
    decreases n,
{
    lemma_ap_partial_wf(retrieved, relevant, n);
    if n > 0 {
        lemma_ap_partial_perfect(retrieved, relevant, n - 1);
        lemma_hits_upto_perfect(retrieved, relevant, n);
        let prev = ap_partial(retrieved, relevant, n - 1);
        assert(prev.0 * n + n * prev.1 == n * (prev.1 * n)) by (nonlinear_arith)
            requires
                prev.0 == (n - 1) * prev.1,
        ;
    }
}

proof fn lemma_ap_partial_tail_stable(retrieved: Seq<u64>, relevant: Seq<u64>, n: int)
    requires
        relevant.len() <= n <= retrieved.len(),
        forall|i: int| relevant.len() <= i < retrieved.len() ==> !relevant.contains(retrieved[i]),
    ensures
        ap_partial(retrieved, relevant, n) == ap_partial(retrieved, relevant, relevant.len() as int),
    decreases n,
{
    if n > relevant.len() {
        lemma_ap_partial_tail_stable(retrieved, relevant, n - 1);
    }
}

proof fn lemma_ap_congruent(ra: Seq<u64>, rb: Seq<u64>, relevant: Seq<u64>, n: int)
    requires
        ra.len() == rb.len(),
        forall|k: int| 0 <= k < n && k < ra.len() ==> ra[k] == rb[k],
    ensures
        hits_upto(ra, relevant, n) == hits_upto(rb, relevant, n),
        ap_partial(ra, relevant, n) == ap_partial(rb, relevant, n),
    decreases n,
{
    if n > 0 {
        lemma_ap_congruent(ra, rb, relevant, n - 1);
    }
}

/// Two runs that agree from rank `m` on keep their order: equal hits and
/// equal further terms preserve the running sums' comparison.
proof fn lemma_ap_tail_le(sa: Seq<u64>, sb: Seq<u64>, relevant: Seq<u64>, m: int, n: int)
    requires
        sa.len() == sb.len(),
        0 <= m <= n,
        forall|k: int| m <= k < sa.len() ==> sa[k] == sb[k],
        hits_upto(sa, relevant, m) == hits_upto(sb, relevant, m),
        rat_le(ap_partial(sa, relevant, m), ap_partial(sb, relevant, m)),
    ensures
        hits_upto(sa, relevant, n) == hits_upto(sb, relevant, n),
        rat_le(ap_partial(sa, relevant, n), ap_partial(sb, relevant, n)),
    decreases n,
{
    if m < n {
        lemma_ap_tail_le(sa, sb, relevant, m, n - 1);
        lemma_ap_partial_wf(sa, relevant, n - 1);
        lemma_ap_partial_wf(sb, relevant, n - 1);
        lemma_hits_upto_bounds(sa, relevant, n);
        if n <= sa.len() && relevant.contains(sa[n - 1]) {
            crate::frac::lemma_rat_add_le_same(
                ap_partial(sa, relevant, n - 1),
                ap_partial(sb, relevant, n - 1),
                (hits_upto(sa, relevant, n), n),
            );
        }
    }
}

/// Inside the swapped span, the run that lost its early hit stays behind:
/// it is short one hit, and its running sum trails the unswapped run's even
/// with the unswapped run's precision at the current rank added back.
proof fn lemma_ap_mid(r: Seq<u64>, s: Seq<u64>, relevant: Seq<u64>, i: int, j: int, n: int)
    requires
        r.len() == s.len(),
        0 <= i < j < r.len(),
        relevant.contains(r[i]),
        !relevant.contains(r[j]),
        s == r.update(i, r[j]).update(j, r[i]),
        i + 1 <= n <= j,
    ensures
        hits_upto(s, relevant, n) == hits_upto(r, relevant, n) - 1,
        rat_le(
            rat_add(ap_partial(s, relevant, n), (hits_upto(r, relevant, n), n)),
            ap_partial(r, relevant, n),
        ),
    decreases n,
{
    lemma_ap_partial_wf(r, relevant, n);
    lemma_ap_partial_wf(s, relevant, n);
    lemma_hits_upto_bounds(s, relevant, n);
    if n == i + 1 {
        lemma_ap_congruent(s, r, relevant, i);
        assert(s[i] == r[j]);
        assert(hits_upto(s, relevant, n) == hits_upto(r, relevant, n) - 1);
        assert(ap_partial(s, relevant, n) == ap_partial(s, relevant, i));
        assert(ap_partial(r, relevant, n) == rat_add(
            ap_partial(r, relevant, i),
            (hits_upto(r, relevant, n), n),
        ));
    } else {
        lemma_ap_mid(r, s, relevant, i, j, n - 1);
        lemma_ap_partial_wf(r, relevant, n - 1);
        lemma_ap_partial_wf(s, relevant, n - 1);
        lemma_hits_upto_bounds(s, relevant, n - 1);
        assert(s[n - 1] == r[n - 1]);
        let hr = hits_upto(r, relevant, n);
        let hp = hits_upto(r, relevant, n - 1);
        let asp = ap_partial(s, relevant, n - 1);
        let arp = ap_partial(r, relevant, n - 1);
        assert(rat_le((hp, n), (hp, n - 1))) by (nonlinear_arith)
            requires
                hp >= 0,
                n - 1 >= 1,
        ;
        if relevant.contains(r[n - 1]) {
            assert(hr == hp + 1);
            assert(hits_upto(s, relevant, n) == hr - 1);
            assert(ap_partial(s, relevant, n) == rat_add(asp, (hr - 1, n)));
            assert(ap_partial(r, relevant, n) == rat_add(arp, (hr, n)));
            assert(rat_le((hp, n), (hp, n - 1)));
            crate::frac::lemma_rat_add_grows(asp, (hp, n));
            crate::frac::lemma_rat_add_grows(asp, (hp, n - 1));
            crate::frac::lemma_rat_add_le_right(asp, (hp, n), (hp, n - 1));
            crate::frac::lemma_rat_le_trans(
                rat_add(asp, (hp, n)),
                rat_add(asp, (hp, n - 1)),
                arp,
            );
            crate::frac::lemma_rat_add_le_same(rat_add(asp, (hp, n)), arp, (hr, n));
        } else {
            assert(hr == hp);
            assert(hits_upto(s, relevant, n) == hr - 1);
            assert(ap_partial(s, relevant, n) == asp);
            assert(ap_partial(r, relevant, n) == arp);
            crate::frac::lemma_rat_add_grows(asp, (hr, n));
            crate::frac::lemma_rat_add_grows(asp, (hr, n - 1));
            crate::frac::lemma_rat_add_le_right(asp, (hr, n), (hr, n - 1));
            crate::frac::lemma_rat_le_trans(
                rat_add(asp, (hr, n)),
                rat_add(asp, (hr, n - 1)),
                arp,
            );
        }
    }
}

/// Order sensitivity: swapping a relevant ID with an irrelevant ID at a
/// later rank never raises average precision.
pub proof fn lemma_ap_swap_later(retrieved: Seq<u64>, relevant: Seq<u64>, i: int, j: int)
    requires
        0 <= i < j < retrieved.len(),
        relevant.contains(retrieved[i]),
        !relevant.contains(retrieved[j]),
    ensures
        rat_le(
            ap_rat(retrieved.update(i, retrieved[j]).update(j, retrieved[i]), relevant),
            ap_rat(retrieved, relevant),
        ),
{
    let r = retrieved;
    let s = retrieved.update(i, retrieved[j]).update(j, retrieved[i]);
    assert(relevant.len() > 0);
    lemma_ap_mid(r, s, relevant, i, j, j);
    lemma_ap_partial_wf(r, relevant, j);
    lemma_ap_partial_wf(s, relevant, j);
    lemma_hits_upto_bounds(s, relevant, j);
    let hj = hits_upto(r, relevant, j);
    let asj = ap_partial(s, relevant, j);
    let arj = ap_partial(r, relevant, j);
    // At the rank just past the span, the swapped run regains its hit and
    // the unswapped run gains nothing, so the swapped sum stays behind.
    assert(s[j] == r[i]);
    assert(hits_upto(s, relevant, j + 1) == hj);
    assert(hits_upto(r, relevant, j + 1) == hj);
    assert(ap_partial(s, relevant, j + 1) == rat_add(asj, (hj, j + 1)));
    assert(ap_partial(r, relevant, j + 1) == arj);
    assert(rat_le((hj, j + 1), (hj, j))) by (nonlinear_arith)
        requires
            hj >= 1,
            j >= 1,
    ;
    crate::frac::lemma_rat_add_grows(asj, (hj, j + 1));
    crate::frac::lemma_rat_add_grows(asj, (hj, j));
    crate::frac::lemma_rat_add_le_right(asj, (hj, j + 1), (hj, j));
    crate::frac::lemma_rat_le_trans(rat_add(asj, (hj, j + 1)), rat_add(asj, (hj, j)), arj);
    lemma_ap_tail_le(s, r, relevant, j + 1, r.len() as int);
    lemma_ap_partial_wf(s, relevant, s.len() as int);
    lemma_ap_partial_wf(r, relevant, r.len() as int);
    crate::frac::lemma_rat_div_le(
        ap_partial(s, relevant, s.len() as int),
        ap_partial(r, relevant, r.len() as int),
        relevant.len() as int,
    );
}

proof fn lemma_ap_acc_perfect(r: Seq<u64>, rel: Seq<u64>, n: int)
    requires
        1 <= rel.len() <= r.len(),
        rel.len() <= u64::MAX,
        forall|i: int| 0 <= i < rel.len() ==> rel.contains(r[i]),
        0 <= n <= rel.len(),
    ensures
        ap_acc(r, rel, n) == Some((n, 1int)),
    decreases n,
{
    if n > 0 {
        lemma_ap_acc_perfect(r, rel, n - 1);
        lemma_hits_upto_perfect(r, rel, n);
        let s = rat_add((n - 1, 1int), (n, n));
        assert(s.0 == n * n && s.1 == n) by (nonlinear_arith)
            requires
                s.0 == (n - 1) * n + n * 1,
                s.1 == 1 * n,
        ;
        vstd::arithmetic::div_mod::lemma_mod_multiples_basic(n, n);
        assert(crate::frac::gcd_nat((n * n) as nat, n as nat) == n as nat) by {
            assert((n * n) % n == 0);
            assert(crate::frac::gcd_nat((n * n) as nat, n as nat) == crate::frac::gcd_nat(
                n as nat,
                (((n * n) % n) as nat),
            ));
            assert(crate::frac::gcd_nat(n as nat, 0nat) == n as nat);
        }
        vstd::arithmetic::div_mod::lemma_fundamental_div_mod(n * n, n);
        vstd::arithmetic::div_mod::lemma_fundamental_div_mod(n, n);
        vstd::arithmetic::div_mod::lemma_mod_multiples_basic(1, n);
        assert((n * n) / n == n) by (nonlinear_arith)
            requires
                n * n == n * ((n * n) / n),
                n >= 1,
        ;
        assert(n / n == 1) by (nonlinear_arith)
            requires
                n == n * (n / n),
                n >= 1,
        ;
        assert(n * n <= u128::MAX) by (nonlinear_arith)
            requires
                0 <= n <= u64::MAX,
        ;
        assert(rat_checked_add((n - 1, 1int), (n, n)) == Some((n, 1int)));
    }
}

proof fn lemma_ap_acc_perfect_tail(r: Seq<u64>, rel: Seq<u64>, n: int)
    requires
        1 <= rel.len() <= r.len(),
        rel.len() <= u64::MAX,
        forall|i: int| 0 <= i < rel.len() ==> rel.contains(r[i]),
        forall|i: int| rel.len() <= i < r.len() ==> !rel.contains(r[i]),
        rel.len() <= n <= r.len(),
    ensures
        ap_acc(r, rel, n) == Some((rel.len() as int, 1int)),
    decreases n,
{
    if n == rel.len() {
        lemma_ap_acc_perfect(r, rel, n);
    } else {
        lemma_ap_acc_perfect_tail(r, rel, n - 1);
    }
}

/// A perfect-prefix run never overflows the executable accumulator: the
/// reduced running sum is a whole number at every rank, so the executable
/// average precision exists and is exactly one.
pub proof fn lemma_ap_result_perfect_prefix(retrieved: Seq<u64>, relevant: Seq<u64>)
    requires
        relevant.len() >= 1,
        relevant.len() <= retrieved.len(),
        relevant.len() <= u64::MAX,
        forall|i: int| 0 <= i < relevant.len() ==> relevant.contains(retrieved[i]),
        forall|i: int| relevant.len() <= i < retrieved.len() ==> !relevant.contains(retrieved[i]),
    ensures
        ap_result(retrieved, relevant) == Some((1int, 1int)),
{
    lemma_ap_acc_perfect_tail(retrieved, relevant, retrieved.len() as int);
    let k = relevant.len() as int;
    vstd::arithmetic::div_mod::lemma_mod_multiples_basic(1, k);
    assert(crate::frac::gcd_nat(k as nat, k as nat) == k as nat) by {
        assert(k % k == 0);
        assert(crate::frac::gcd_nat(k as nat, k as nat) == crate::frac::gcd_nat(
            k as nat,
            ((k % k) as nat),
        ));
        assert(crate::frac::gcd_nat(k as nat, 0nat) == k as nat);
    }
    vstd::arithmetic::div_mod::lemma_fundamental_div_mod(k, k);
    assert(k / k == 1) by (nonlinear_arith)
        requires
            k == k * (k / k),
            k >= 1,
    ;
    assert(rat_div((k, 1int), k) == (k, 1int * k));
    assert(rat_checked_div((k, 1int), k) == Some((1int, 1int)));
}

/// A run that puts exactly the relevant documents in the leading ranks, and
/// nothing relevant after them, scores a perfect average precision of one.
pub proof fn lemma_ap_perfect_prefix(retrieved: Seq<u64>, relevant: Seq<u64>)
    requires
        relevant.len() >= 1,
        relevant.len() <= retrieved.len(),
        forall|i: int| 0 <= i < relevant.len() ==> relevant.contains(retrieved[i]),
        forall|i: int| relevant.len() <= i < retrieved.len() ==> !relevant.contains(retrieved[i]),
    ensures
        rat_eq(ap_rat(retrieved, relevant), rat_one()),
{
    let rl = relevant.len() as int;
    lemma_ap_partial_tail_stable(retrieved, relevant, retrieved.len() as int);
    lemma_ap_partial_perfect(retrieved, relevant, rl);
    let fin = ap_partial(retrieved, relevant, rl);
    assert((rl * fin.1) * 1 == 1 * (fin.1 * rl)) by (nonlinear_arith);
}

} // verus!
