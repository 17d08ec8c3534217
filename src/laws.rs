use vstd::prelude::*;
use crate::dataset::{Dataset, count_true, filtered_from, kept, labeled_mask, removal_mask, targets_of};
use crate::fdr::{FdrThreshold, cutoff_passes, fdr_labels, fdr_within, hits_at};
use crate::psm_scorer::count_positive;
use crate::ranking::{lemma_range_seq_distinct, range_seq, within_cutoff};

verus! {

/// Labeling the same scores twice, with the same threshold, direction and
/// target/decoy flags, gives the same labels.
pub proof fn lemma_labeling_deterministic(is_target: Seq<bool>, scores: Seq<i64>, fdr: FdrThreshold, descending: bool, first: Seq<i32>, second: Seq<i32>)
    requires
        first == fdr_labels(is_target, scores, descending, fdr),
        second == fdr_labels(is_target, scores, descending, fdr),
    ensures
        first == second,
{
}

/// A row built with label -1 is labeled -1, never +1, whatever the scores,
/// threshold and direction.
pub proof fn lemma_decoys_never_positive(raw_labels: Seq<i32>, scores: Seq<i64>, fdr: FdrThreshold, descending: bool)
    requires
        scores.len() == raw_labels.len(),
    ensures
        forall|j: int| 0 <= j < raw_labels.len() && raw_labels[j] == -1 ==>
            #[trigger] fdr_labels(targets_of(raw_labels), scores, descending, fdr)[j] == -1,
{
}

/// `lo` is no larger than `hi`, a zero denominator standing for no bound.
pub open spec fn threshold_le(lo: FdrThreshold, hi: FdrThreshold) -> bool {
    if hi.den == 0 {
        true
    } else if lo.den == 0 {
        false
    } else {
        lo.num * hi.den <= hi.num * lo.den
    }
}

proof fn lemma_fdr_within_monotone(decoys: int, targets: int, lo: FdrThreshold, hi: FdrThreshold)
    requires
        decoys >= 0,
        targets >= 0,
        threshold_le(lo, hi),
        fdr_within(decoys, targets, lo),
    ensures
        fdr_within(decoys, targets, hi),
{
    let t: int = if targets == 0 { 1 } else { targets };
    if hi.den != 0 {
        let (a, b, c, d) = (lo.num as int, lo.den as int, hi.num as int, hi.den as int);
        assert(decoys * d <= c * t) by (nonlinear_arith)
            requires decoys * b <= a * t, a * d <= c * b, b > 0, d >= 0, t > 0, decoys >= 0;
    }
}

proof fn lemma_count_positive_monotone(small: Seq<i32>, large: Seq<i32>)
    requires
        small.len() == large.len(),
        forall|j: int| 0 <= j < small.len() && #[trigger] small[j] == 1 ==> large[j] == 1,
    ensures
        count_positive(small) <= count_positive(large),
    decreases small.len(),
{
    if small.len() > 0 {
        lemma_count_positive_monotone(small.drop_last(), large.drop_last());
    }
}

/// Lowering the threshold never adds a +1 label.
pub proof fn lemma_lower_threshold_fewer_positives(is_target: Seq<bool>, scores: Seq<i64>, descending: bool, lo: FdrThreshold, hi: FdrThreshold)
    requires
        is_target.len() == scores.len(),
        threshold_le(lo, hi),
    ensures
        count_positive(fdr_labels(is_target, scores, descending, lo)) <= count_positive(fdr_labels(is_target, scores, descending, hi)),
{
    let small = fdr_labels(is_target, scores, descending, lo);
    let large = fdr_labels(is_target, scores, descending, hi);
    assert forall|j: int| 0 <= j < small.len() && #[trigger] small[j] == 1 implies large[j] == 1 by {
        let i = choose|i: int| 0 <= i < scores.len() && #[trigger] cutoff_passes(is_target, scores, descending, lo, i) && within_cutoff(scores, descending, j, i);
        lemma_fdr_within_monotone(
            hits_at(is_target, scores, descending, i, false).len() as int,
            hits_at(is_target, scores, descending, i, true).len() as int,
            lo,
            hi,
        );
        assert(cutoff_passes(is_target, scores, descending, hi, i));
    }
    lemma_count_positive_monotone(small, large);
}

/// The positions of the false entries of `mask`.
pub open spec fn false_positions(mask: Seq<bool>) -> Set<int> {
    Set::new(|i: int| 0 <= i < mask.len() && !mask[i])
}

proof fn lemma_count_false(mask: Seq<bool>)
    ensures
        false_positions(mask).finite(),
        false_positions(mask).len() + count_true(mask) == mask.len(),
    decreases mask.len(),
{
    if mask.len() == 0 {
        assert(false_positions(mask) =~= Set::<int>::empty());
    } else {
        let front = mask.drop_last();
        lemma_count_false(front);
        if mask.last() {
            assert(false_positions(mask) =~= false_positions(front));
        } else {
            assert(false_positions(mask) =~= false_positions(front).insert(mask.len() - 1));
        }
    }
}

proof fn lemma_kept_range(mask: Seq<bool>, n: int)
    requires
        0 <= n <= usize::MAX,
        mask.len() == n,
    ensures
        forall|a: int, b: int| 0 <= a < b < kept(range_seq(n), mask).len() ==> #[trigger] kept(range_seq(n), mask)[a] < #[trigger] kept(range_seq(n), mask)[b],
        forall|j: int| 0 <= j < n ==> (mask[j] <==> #[trigger] kept(range_seq(n), mask).contains(j as usize)),
        forall|a: int| 0 <= a < kept(range_seq(n), mask).len() ==> #[trigger] kept(range_seq(n), mask)[a] < n,
    decreases n,
{
    let s = range_seq(n);
    lemma_range_seq_distinct(n);
    if n > 0 {
        let front = mask.drop_last();
        lemma_kept_range(front, n - 1);
        assert(kept(s, front) == kept(range_seq(n - 1), front)) by {
            lemma_kept_prefix(s, range_seq(n - 1), front);
        }
        let k0 = kept(s, front);
        if mask.last() {
            assert(kept(s, mask) == k0.push((n - 1) as usize));
            assert forall|j: int| 0 <= j < n implies (mask[j] <==> #[trigger] kept(s, mask).contains(j as usize)) by {
                if j < n - 1 {
                    assert(front[j] == mask[j]);
                    if kept(s, mask).contains(j as usize) {
                        let w = choose|w: int| 0 <= w < kept(s, mask).len() && kept(s, mask)[w] == j as usize;
                        assert(w < k0.len());
                        assert(k0.contains(j as usize));
                    }
                    if k0.contains(j as usize) {
                        let w = choose|w: int| 0 <= w < k0.len() && k0[w] == j as usize;
                        assert(kept(s, mask)[w] == j as usize);
                    }
                } else {
                    assert(kept(s, mask)[k0.len() as int] == j as usize);
                }
            }
        } else {
            assert(kept(s, mask) == k0);
            assert forall|j: int| 0 <= j < n implies (mask[j] <==> #[trigger] kept(s, mask).contains(j as usize)) by {
                if j < n - 1 {
                    assert(front[j] == mask[j]);
                } else if k0.contains(j as usize) {
                    let w = choose|w: int| 0 <= w < k0.len() && k0[w] == j as usize;
                    assert(k0[w] < n - 1);
                }
            }
        }
    }
}

proof fn lemma_kept_prefix(s: Seq<usize>, t: Seq<usize>, mask: Seq<bool>)
    requires
        mask.len() <= t.len(),
        mask.len() <= s.len(),
        forall|p: int| 0 <= p < mask.len() ==> #[trigger] s[p] == t[p],
    ensures
        kept(s, mask) == kept(t, mask),
    decreases mask.len(),
{
    if mask.len() > 0 {
        lemma_kept_prefix(s, t, mask.drop_last());
    }
}

/// Filtering a freshly built dataset by a mask keeps as many rows as the mask
/// has true entries, and their row ids are exactly the positions of those
/// entries, in increasing order.
pub proof fn lemma_filter_bookkeeping(d: Dataset, mask: Seq<bool>, r: Dataset)
    requires
        d.wf(),
        d.row_id@ == range_seq(d.labels.len() as int),
        mask.len() == d.labels.len(),
        filtered_from(r, d, mask),
    ensures
        r.labels.len() == count_true(mask),
        r.row_id.len() == count_true(mask),
        forall|a: int, b: int| 0 <= a < b < r.row_id.len() ==> #[trigger] r.row_id@[a] < #[trigger] r.row_id@[b],
        forall|j: int| 0 <= j < mask.len() ==> (mask[j] <==> #[trigger] r.row_id@.contains(j as usize)),
{
    crate::dataset::lemma_kept_len(d.labels@, mask);
    crate::dataset::lemma_kept_len(d.row_id@, mask);
    lemma_kept_range(mask, d.labels.len() as int);
}

/// Removing `r` distinct row positions, each inside the dataset, leaves
/// exactly `r` fewer rows.
pub proof fn lemma_remove_bookkeeping(d: Dataset, indices: Seq<usize>, r: Dataset)
    requires
        d.wf(),
        indices.no_duplicates(),
        forall|p: int| 0 <= p < indices.len() ==> #[trigger] indices[p] < d.labels.len(),
        filtered_from(r, d, removal_mask(indices, d.labels.len() as int)),
    ensures
        r.labels.len() == d.labels.len() - indices.len(),
{
    let n = d.labels.len() as int;
    let mask = removal_mask(indices, n);
    crate::dataset::lemma_kept_len(d.labels@, mask);
    lemma_count_false(mask);
    let as_int = indices.map_values(|u: usize| u as int);
    assert(as_int.no_duplicates()) by {
        assert forall|a: int, b: int| 0 <= a < as_int.len() && 0 <= b < as_int.len() && a != b implies as_int[a] != as_int[b] by {
            assert(indices[a] != indices[b]);
        }
    }
    as_int.unique_seq_to_set();
    assert forall|i: int| #[trigger] false_positions(mask).contains(i) <==> as_int.to_set().contains(i) by {
        if false_positions(mask).contains(i) {
            let w = choose|w: int| 0 <= w < indices.len() && indices[w] == i as usize;
            assert(as_int[w] == i);
            assert(as_int.contains(i));
        }
        if as_int.to_set().contains(i) {
            assert(as_int.contains(i));
            let w = choose|w: int| 0 <= w < as_int.len() && as_int[w] == i;
            assert(indices[w] < n);
            assert(indices.contains(i as usize));
        }
    }
    assert(false_positions(mask) =~= as_int.to_set());
}

proof fn lemma_kept_decoy_labels(is_target: Seq<bool>, labels: Seq<i32>, mask: Seq<bool>)
    requires
        mask.len() <= is_target.len(),
        mask.len() <= labels.len(),
        forall|j: int| 0 <= j < mask.len() && !#[trigger] is_target[j] ==> labels[j] == -1,
    ensures
        kept(is_target, mask).len() == kept(labels, mask).len(),
        forall|k: int| 0 <= k < kept(is_target, mask).len() && !#[trigger] kept(is_target, mask)[k] ==> kept(labels, mask)[k] == -1,
    decreases mask.len(),
{
    if mask.len() > 0 {
        lemma_kept_decoy_labels(is_target, labels, mask.drop_last());
    }
}

/// The rows a fold trains on, once the unlabeled rows are dropped, keep every
/// decoy of the fold's training part, each labeled -1, provided the dataset
/// the folds were cut from labels its decoys -1 (as every FDR labeling does).
pub proof fn lemma_training_rows_keep_decoys(base: Dataset, train_mask: Seq<bool>, train: Dataset, fitted: Dataset)
    requires
        base.wf(),
        train_mask.len() == base.labels.len(),
        forall|j: int| 0 <= j < base.labels.len() && !#[trigger] base.is_target@[j] ==> base.labels@[j] == -1,
        filtered_from(train, base, train_mask),
        filtered_from(fitted, train, labeled_mask(train.labels@)),
    ensures
        forall|j: int| 0 <= j < train.labels.len() && !#[trigger] train.is_target@[j] ==> labeled_mask(train.labels@)[j],
        forall|k: int| 0 <= k < fitted.labels.len() && !#[trigger] fitted.is_target@[k] ==> fitted.labels@[k] == -1,
{
    lemma_kept_decoy_labels(base.is_target@, base.labels@, train_mask);
    let keep = labeled_mask(train.labels@);
    lemma_kept_decoy_labels(train.is_target@, train.labels@, keep);
}

/// Labels given by the FDR labeler mark every decoy -1, so folds cut from a
/// dataset carrying them meet the premise of `lemma_training_rows_keep_decoys`.
pub proof fn lemma_relabeled_decoys(d: Dataset, scores: Seq<i64>, fdr: FdrThreshold, descending: bool)
    requires
        d.wf(),
        scores.len() == d.labels.len(),
        d.labels@ == fdr_labels(d.is_target@, scores, descending, fdr),
    ensures
        forall|j: int| 0 <= j < d.labels.len() && !#[trigger] d.is_target@[j] ==> d.labels@[j] == -1,
{
}

} // verus!
