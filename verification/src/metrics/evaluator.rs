//! Matching of detected constraint conflicts against ground truth.

use crate::seqs::{count_in, lemma_count_contains, lemma_count_le_len, lemma_count_push};
use crate::text::str_eq;
use vstd::prelude::*;

verus! {

/// A detected (or expected) constraint conflict.
#[derive(Debug, Clone)]
pub struct ConflictDetection {
    /// Conflict identifier.
    pub conflict_id: usize,
    /// Primitives involved.
    pub primitive_ids: Vec<usize>,
    /// Kind of conflict.
    pub conflict_type: String,
}

/// A prediction matches an expected conflict when the kinds are equal and
/// the primitives involved are the same, counted with multiplicity and in
/// any order.
pub open spec fn conflicts_match(p: ConflictDetection, g: ConflictDetection) -> bool {
    &&& p.conflict_type@ == g.conflict_type@
    &&& forall|x: usize| #[trigger] count_in(p.primitive_ids@, x) == count_in(g.primitive_ids@, x)
}

/// `j` is the first unmatched expected conflict that `p` matches.
pub open spec fn first_match_at(
    p: ConflictDetection,
    gt: Seq<ConflictDetection>,
    matched: Seq<bool>,
    j: int,
) -> bool {
    &&& 0 <= j < gt.len()
    &&& !matched[j]
    &&& conflicts_match(p, gt[j])
    &&& forall|k: int| 0 <= k < j ==> matched[k] || !conflicts_match(p, #[trigger] gt[k])
}

/// Greedy matching of predictions, in order, each to the first unmatched
/// expected conflict it matches: which expected conflicts end up matched,
/// and how many predictions matched (true positives) or did not (false
/// positives).
pub open spec fn greedy_matching(preds: Seq<ConflictDetection>, gt: Seq<ConflictDetection>) -> (
    Seq<bool>,
    nat,
    nat,
)
    decreases preds.len(),
{
    if preds.len() == 0 {
        (Seq::new(gt.len(), |j: int| false), 0, 0)
    } else {
        let (m, tp, fp) = greedy_matching(preds.drop_last(), gt);
        let p = preds.last();
        if exists|j: int| first_match_at(p, gt, m, j) {
            let j = choose|j: int| first_match_at(p, gt, m, j);
            (m.update(j, true), tp + 1, fp)
        } else {
            (m, tp, fp + 1)
        }
    }
}

/// The confusion matrix of conflict detection: true positives, false
/// positives, expected conflicts left unmatched, and the remaining checks
/// as true negatives (never below zero).
pub open spec fn conflict_confusion(
    preds: Seq<ConflictDetection>,
    gt: Seq<ConflictDetection>,
    total_checks: nat,
) -> (nat, nat, nat, nat) {
    let (m, tp, fp) = greedy_matching(preds, gt);
    let fn_ = (gt.len() - count_in(m, true)) as nat;
    let tn = if total_checks > tp + fp + fn_ {
        (total_checks - (tp + fp + fn_)) as nat
    } else {
        0
    };
    (tp, fp, fn_, tn)
}

/// Occurrences of `x` in `v`.
fn count_of(v: &Vec<usize>, x: usize) -> (r: usize)
    ensures
        r == count_in(v@, x),
{
    let mut n: usize = 0;
    let mut k: usize = 0;
    while k < v.len()
        invariant
            k <= v.len(),
            n == count_in(v@.take(k as int), x),
        decreases v.len() - k,
    {
        proof {
            assert(v@.take(k + 1) =~= v@.take(k as int).push(v@[k as int]));
            lemma_count_push(v@.take(k as int), v@[k as int], x);
            lemma_count_le_len(v@.take(k as int), x);
        }
        if v[k] == x {
            n = n + 1;
        }
        k = k + 1;
    }
    proof {
        assert(v@.take(v.len() as int) =~= v@);
    }
    n
}

/// Whether every value of `from` occurs as often in `a` as in `b`.
fn same_counts_on(from: &Vec<usize>, a: &Vec<usize>, b: &Vec<usize>) -> (r: bool)
    ensures
        r == forall|k: int| 0 <= k < from@.len() ==> count_in(a@, #[trigger] from@[k]) == count_in(
            b@,
            from@[k],
        ),
{
    let mut k: usize = 0;
    while k < from.len()
        invariant
            k <= from.len(),
            forall|m: int| 0 <= m < k ==> count_in(a@, #[trigger] from@[m]) == count_in(b@, from@[m]),
        decreases from.len() - k,
    {
        if count_of(a, from[k]) != count_of(b, from[k]) {
            return false;
        }
        k = k + 1;
    }
    true
}

/// Whether `p` matches `g`.
fn matches_conflict(p: &ConflictDetection, g: &ConflictDetection) -> (r: bool)
    ensures
        r == conflicts_match(*p, *g),
{
    if !str_eq(p.conflict_type.as_str(), g.conflict_type.as_str()) {
        return false;
    }
    let a = &p.primitive_ids;
    let b = &g.primitive_ids;
    let r = same_counts_on(a, a, b) && same_counts_on(b, a, b);
    proof {
        if r {
            assert forall|x: usize| #[trigger] count_in(a@, x) == count_in(b@, x) by {
                lemma_count_contains(a@, x);
                lemma_count_contains(b@, x);
                if a@.contains(x) {
                    let k = choose|k: int| 0 <= k < a@.len() && a@[k] == x;
                    assert(count_in(a@, a@[k]) == count_in(b@, a@[k]));
                } else if b@.contains(x) {
                    let k = choose|k: int| 0 <= k < b@.len() && b@[k] == x;
                    assert(count_in(a@, b@[k]) == count_in(b@, b@[k]));
                }
            }
        }
        if !r {
            if !same_counts_on_spec(a@, a@, b@) {
                let k = choose|k: int| 0 <= k < a@.len() && count_in(a@, a@[k]) != count_in(b@, a@[k]);
                assert(count_in(a@, a@[k]) != count_in(b@, a@[k]));
            } else {
                let k = choose|k: int| 0 <= k < b@.len() && count_in(a@, b@[k]) != count_in(b@, b@[k]);
                assert(count_in(a@, b@[k]) != count_in(b@, b@[k]));
            }
        }
    }
    r
}

spec fn same_counts_on_spec(from: Seq<usize>, a: Seq<usize>, b: Seq<usize>) -> bool {
    forall|k: int| 0 <= k < from.len() ==> count_in(a, #[trigger] from[k]) == count_in(b, from[k])
}

/// Number of `true` entries.
fn count_true(v: &Vec<bool>) -> (r: usize)
    ensures
        r == count_in(v@, true),
{
    let mut n: usize = 0;
    let mut k: usize = 0;
    while k < v.len()
        invariant
            k <= v.len(),
            n == count_in(v@.take(k as int), true),
        decreases v.len() - k,
    {
        proof {
            assert(v@.take(k + 1) =~= v@.take(k as int).push(v@[k as int]));
            lemma_count_push(v@.take(k as int), v@[k as int], true);
            lemma_count_le_len(v@.take(k as int), true);
        }
        if v[k] {
            n = n + 1;
        }
        k = k + 1;
    }
    proof {
        assert(v@.take(v.len() as int) =~= v@);
    }
    n
}

/// Matches predicted conflicts against expected ones, each prediction in
/// order to the first unmatched expected conflict of the same kind over
/// the same primitives, and returns the counts of true positives, false
/// positives, false negatives and true negatives out of `total_checks`.
pub fn conflict_confusion_matrix(
    predictions: &[ConflictDetection],
    ground_truth: &[ConflictDetection],
    total_checks: usize,
) -> (r: (usize, usize, usize, usize))
    requires
        predictions@.len() + ground_truth@.len() <= usize::MAX,
    ensures
        (r.0 as nat, r.1 as nat, r.2 as nat, r.3 as nat) == conflict_confusion(
            predictions@,
            ground_truth@,
            total_checks as nat,
        ),
{
    let ghost preds = predictions@;
    let ghost gt = ground_truth@;
    let mut matched: Vec<bool> = Vec::new();
    let mut m: usize = 0;
    while m < ground_truth.len()
        invariant
            m <= gt.len(),
            gt == ground_truth@,
            matched@.len() == m,
            forall|k: int| 0 <= k < m ==> !matched@[k],
        decreases gt.len() - m,
    {
        matched.push(false);
        m = m + 1;
    }
    proof {
        assert(preds.take(0) =~= Seq::<ConflictDetection>::empty());
        assert(matched@ =~= Seq::new(gt.len(), |j: int| false));
    }
    let mut tp: usize = 0;
    let mut fp: usize = 0;
    let mut i: usize = 0;
    while i < predictions.len()
        invariant
            preds == predictions@,
            gt == ground_truth@,
            i <= preds.len(),
            tp + fp == i,
            matched@.len() == gt.len(),
            (matched@, tp as nat, fp as nat) == greedy_matching(preds.take(i as int), gt),
        decreases preds.len() - i,
    {
        let p = &predictions[i];
        let ghost before = matched@;
        proof {
            assert(preds.take(i + 1).drop_last() =~= preds.take(i as int));
            assert(preds.take(i + 1).last() == preds[i as int]);
        }
        let mut found = false;
        let mut j: usize = 0;
        while j < ground_truth.len()
            invariant_except_break
                !found,
                matched@ == before,
                forall|k: int| 0 <= k < j ==> before[k] || !conflicts_match(*p, #[trigger] gt[k]),
            invariant
                gt == ground_truth@,
                j <= gt.len(),
                matched@.len() == gt.len(),
                before.len() == gt.len(),
            ensures
                found ==> exists|jj: int|
                    first_match_at(*p, gt, before, jj) && matched@ == before.update(jj, true),
                !found ==> matched@ == before && forall|k: int|
                    0 <= k < gt.len() ==> before[k] || !conflicts_match(*p, #[trigger] gt[k]),
            decreases gt.len() - j,
        {
            if !matched[j] && matches_conflict(p, &ground_truth[j]) {
                proof {
                    assert(first_match_at(*p, gt, before, j as int));
                }
                matched.set(j, true);
                found = true;
                proof {
                    assert(matched@ == before.update(j as int, true));
                }
                break;
            }
            j = j + 1;
        }
        proof {
            if found {
                let jj = choose|jj: int| first_match_at(*p, gt, before, jj) && matched@ == before.update(jj, true);
                let c = choose|c: int| first_match_at(*p, gt, before, c);
                if c < jj {
                    assert(before[c] || !conflicts_match(*p, gt[c]));
                }
                if jj < c {
                    assert(before[jj] || !conflicts_match(*p, gt[jj]));
                }
            } else {
                assert forall|jj: int| !first_match_at(*p, gt, before, jj) by {
                    if 0 <= jj < gt.len() {
                        assert(before[jj] || !conflicts_match(*p, gt[jj]));
                    }
                }
            }
        }
        if found {
            tp = tp + 1;
        } else {
            fp = fp + 1;
        }
        i = i + 1;
    }
    proof {
        assert(preds.take(preds.len() as int) =~= preds);
        lemma_count_le_len(matched@, true);
    }
    let matched_count = count_true(&matched);
    let fn_ = ground_truth.len() - matched_count;
    let tn = total_checks.saturating_sub(tp + fp + fn_);
    (tp, fp, fn_, tn)
}

proof fn lemma_greedy_counts(preds: Seq<ConflictDetection>, gt: Seq<ConflictDetection>)
    ensures
        greedy_matching(preds, gt).0.len() == gt.len(),
        greedy_matching(preds, gt).1 + greedy_matching(preds, gt).2 == preds.len(),
        count_in(greedy_matching(preds, gt).0, true) == greedy_matching(preds, gt).1,
    decreases preds.len(),
{
    if preds.len() == 0 {
        let m = Seq::new(gt.len(), |j: int| false);
        lemma_count_contains(m, true);
    } else {
        lemma_greedy_counts(preds.drop_last(), gt);
        let (m, tp, fp) = greedy_matching(preds.drop_last(), gt);
        let p = preds.last();
        if exists|j: int| first_match_at(p, gt, m, j) {
            let j = choose|j: int| first_match_at(p, gt, m, j);
            crate::seqs::lemma_count_update(m, j, true, true);
        }
    }
}

/// Every prediction is a true or a false positive, and every expected
/// conflict is a true positive or a false negative.
pub proof fn lemma_confusion_partitions(
    preds: Seq<ConflictDetection>,
    gt: Seq<ConflictDetection>,
    total_checks: nat,
)
    ensures
        conflict_confusion(preds, gt, total_checks).0 + conflict_confusion(preds, gt, total_checks).1
            == preds.len(),
        conflict_confusion(preds, gt, total_checks).0 + conflict_confusion(preds, gt, total_checks).2
            == gt.len(),
{
    lemma_greedy_counts(preds, gt);
    lemma_count_le_len(greedy_matching(preds, gt).0, true);
}

} // verus!
