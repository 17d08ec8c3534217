use vstd::prelude::*;
use crate::dataset::{Dataset, columns_have_len, columns_view, filtered_from, labeled_mask, lemma_kept_from, removal_mask, targets_of};
use crate::error::ScorerError;
use crate::fdr::{FdrThreshold, fdr_labels};
use crate::folds::{chunk_mask, folds_from_order, fold_size, is_fold, shuffle_seeded};
use crate::ranking::{identity_order, is_permutation_of_range, lemma_permutation_of_range, lemma_range_seq_distinct, range_seq};

verus! {

/// The number of +1 labels.
pub open spec fn count_positive(labels: Seq<i32>) -> nat
    decreases labels.len(),
{
    if labels.len() == 0 {
        0
    } else {
        count_positive(labels.drop_last()) + if labels.last() == 1 { 1nat } else { 0nat }
    }
}

/// The number of targets that pass at `fdr` when rows are ranked by `scores`.
pub open spec fn positives_for(is_target: Seq<bool>, scores: Seq<i64>, descending: bool, fdr: FdrThreshold) -> nat {
    count_positive(fdr_labels(is_target, scores, descending, fdr))
}

/// The pair (`c`, `desc`) is tried before (`c2`, `desc2`): columns in order,
/// ascending before descending within a column.
pub open spec fn tried_before(c: int, desc: bool, c2: int, desc2: bool) -> bool {
    c < c2 || (c == c2 && !desc && desc2)
}

/// The (column, direction) pair with the most positives, the earliest one
/// tried among equals.
pub open spec fn is_best_feature(columns: Seq<Seq<i64>>, is_target: Seq<bool>, fdr: FdrThreshold, feat: int, desc: bool) -> bool {
    &&& 0 <= feat < columns.len()
    &&& forall|c: int, d: bool| 0 <= c < columns.len() ==>
        #[trigger] positives_for(is_target, columns[c], d, fdr) <= positives_for(is_target, columns[feat], desc, fdr)
    &&& forall|c: int, d: bool| 0 <= c < columns.len() && #[trigger] tried_before(c, d, feat, desc) ==>
        positives_for(is_target, columns[c], d, fdr) < positives_for(is_target, columns[feat], desc, fdr)
}

/// Some (column, direction) pair yields a positive.
pub open spec fn has_informative_feature(columns: Seq<Seq<i64>>, is_target: Seq<bool>, fdr: FdrThreshold) -> bool {
    exists|c: int, d: bool| 0 <= c < columns.len() && #[trigger] positives_for(is_target, columns[c], d, fdr) > 0
}

/// The number of +1 entries of `labels`.
pub fn count_positive_labels(labels: &Vec<i32>) -> (r: usize)
    ensures
        r == count_positive(labels@),
{
    let mut r: usize = 0;
    let mut i: usize = 0;
    while i < labels.len()
        invariant
            i <= labels.len(),
            r == count_positive(labels@.take(i as int)),
            r <= i,
        decreases labels.len() - i,
    {
        assert(labels@.take(i + 1).drop_last() =~= labels@.take(i as int));
        if labels[i] == 1 {
            r = r + 1;
        }
        i = i + 1;
    }
    assert(labels@.take(labels.len() as int) =~= labels@);
    r
}

/// A copy of `v`.
pub fn copy_values<T: Copy>(v: &Vec<T>) -> (r: Vec<T>)
    ensures
        r@ == v@,
{
    let mut r: Vec<T> = Vec::with_capacity(v.len());
    let mut i: usize = 0;
    while i < v.len()
        invariant
            i <= v.len(),
            r@ == v@.take(i as int),
        decreases v.len() - i,
    {
        r.push(v[i]);
        i = i + 1;
        assert(r@ =~= v@.take(i as int));
    }
    assert(v@.take(v.len() as int) =~= v@);
    r
}

/// A copy of every column of `x`.
pub fn copy_columns(x: &Vec<Vec<i64>>) -> (r: Vec<Vec<i64>>)
    ensures
        columns_view(r@) == columns_view(x@),
{
    let mut r: Vec<Vec<i64>> = Vec::with_capacity(x.len());
    let mut c: usize = 0;
    while c < x.len()
        invariant
            c <= x.len(),
            r.len() == c,
            forall|q: int| 0 <= q < c ==> #[trigger] r@[q]@ == x@[q]@,
        decreases x.len() - c,
    {
        r.push(copy_values(&x[c]));
        c = c + 1;
    }
    assert(columns_view(r@) =~= columns_view(x@));
    r
}

/// Writes `preds[i]` at position `row_id[i]` of `all`; other positions keep
/// their values.
pub fn scatter_predictions(all: &mut Vec<i64>, row_id: &Vec<usize>, preds: &Vec<i64>)
    requires
        row_id.len() == preds.len(),
        row_id@.no_duplicates(),
        forall|i: int| 0 <= i < row_id.len() ==> #[trigger] row_id@[i] < old(all).len(),
    ensures
        final(all).len() == old(all).len(),
        forall|i: int| 0 <= i < row_id.len() ==> final(all)@[#[trigger] row_id@[i] as int] == preds@[i],
        forall|j: int| 0 <= j < old(all).len() && !row_id@.contains(j as usize) ==> #[trigger] final(all)@[j] == old(all)@[j],
{
    let mut i: usize = 0;
    while i < row_id.len()
        invariant
            row_id.len() == preds.len(),
            row_id@.no_duplicates(),
            forall|q: int| 0 <= q < row_id.len() ==> #[trigger] row_id@[q] < old(all).len(),
            all.len() == old(all).len(),
            i <= row_id.len(),
            forall|q: int| 0 <= q < i ==> all@[#[trigger] row_id@[q] as int] == preds@[q],
            forall|j: int| 0 <= j < old(all).len() && !row_id@.take(i as int).contains(j as usize) ==> #[trigger] all@[j] == old(all)@[j],
        decreases row_id.len() - i,
    {
        let pos = row_id[i];
        all.set(pos, preds[i]);
        proof {
            assert forall|j: int| 0 <= j < old(all).len() && !row_id@.take(i + 1).contains(j as usize) implies #[trigger] all@[j] == old(all)@[j] by {
                assert(row_id@.take(i + 1)[i as int] == pos);
                if row_id@.take(i as int).contains(j as usize) {
                    let w = choose|w: int| 0 <= w < i && row_id@.take(i as int)[w] == j as usize;
                    assert(row_id@.take(i + 1)[w] == j as usize);
                }
            }
        }
        i = i + 1;
    }
    assert(row_id@.take(row_id.len() as int) =~= row_id@);
}

/// The scores when there is one per row, else `PredictionCount`.
pub fn checked_scores(scores: Vec<i64>, n: usize) -> (r: Result<Vec<i64>, ScorerError>)
    ensures
        scores.len() == n ==> (r matches Ok(v) && v@ == scores@),
        scores.len() != n ==> r == Err::<Vec<i64>, ScorerError>(ScorerError::PredictionCount),
{
    if scores.len() == n {
        Ok(scores)
    } else {
        Err(ScorerError::PredictionCount)
    }
}

/// The best single feature found by `init_best_feature`: its column, its
/// number of positives, the labels it gives, its direction and its values.
pub type BestFeature = (usize, usize, Vec<i32>, bool, Vec<i64>);

/// A classifier that the learner trains and queries. Scores are order keys:
/// a higher key means a more target-like row.
pub trait SemiSupervisedModel {
    /// Trains on feature columns `x` and labels `y` (+1 or -1).
    fn fit(&mut self, x: &Vec<Vec<i64>>, y: &Vec<i32>, x_eval: Option<&Vec<Vec<i64>>>, y_eval: Option<&Vec<i32>>) -> Result<(), String>;

    /// Predicts a class per row.
    fn predict(&self, x: &Vec<Vec<i64>>) -> Result<Vec<i64>, String>;

    /// Predicts a continuous score per row.
    fn predict_proba(&self, x: &Vec<Vec<i64>>) -> Result<Vec<i64>, String>;
}

/// Drives the semi-supervised labeling and training cycle over one classifier.
pub struct SemiSupervisedLearner<M: SemiSupervisedModel> {
    /// The classifier trained on each fold and on the whole data.
    pub model: M,
    /// The FDR at which labels are bootstrapped.
    pub train_fdr: FdrThreshold,
    /// A score cutoff kept with the configuration.
    pub threshold: i64,
    /// The number of semi-supervised iterations kept with the configuration;
    /// `fit` makes a single pass.
    pub ss_num_iter: usize,
    /// The number of cross-validation folds.
    pub xeval_num_iter: usize,
    /// The seed of the fold shuffle.
    pub seed: u64,
}

impl<M: SemiSupervisedModel> SemiSupervisedLearner<M> {
    /// A learner around `model` with the given configuration.
    pub fn new(model: M, train_fdr: FdrThreshold, threshold: i64, ss_num_iter: usize, xeval_num_iter: usize, seed: u64) -> (r: Self)
        ensures
            r.model == model,
            r.train_fdr == train_fdr,
            r.threshold == threshold,
            r.ss_num_iter == ss_num_iter,
            r.xeval_num_iter == xeval_num_iter,
            r.seed == seed,
    {
        SemiSupervisedLearner { model, train_fdr, threshold, ss_num_iter, xeval_num_iter, seed }
    }

    /// Finds the feature and direction whose ranking passes the most targets
    /// at `eval_fdr`; fails when none passes any.
    pub fn init_best_feature(&self, experiment: &Dataset, eval_fdr: FdrThreshold) -> (r: Result<BestFeature, ScorerError>)
        requires
            experiment.wf(),
        ensures
            r is Err <==> !has_informative_feature(columns_view(experiment.features@), experiment.is_target@, eval_fdr),
            r is Err ==> r == Err::<BestFeature, ScorerError>(ScorerError::NoPositives),
            r matches Ok((feat, positives, labels, desc, scores)) ==> {
                &&& is_best_feature(columns_view(experiment.features@), experiment.is_target@, eval_fdr, feat as int, desc)
                &&& positives == positives_for(experiment.is_target@, experiment.features@[feat as int]@, desc, eval_fdr)
                &&& positives > 0
                &&& labels@ == fdr_labels(experiment.is_target@, experiment.features@[feat as int]@, desc, eval_fdr)
                &&& scores@ == experiment.features@[feat as int]@
            },
    {
        let ghost cols = columns_view(experiment.features@);
        let ghost tg = experiment.is_target@;
        let m = experiment.n_features();
        let mut best_feat: usize = 0;
        let mut best_positives: usize = 0;
        let mut best_desc = false;
        let mut new_labels: Vec<i32> = Vec::new();
        let mut c: usize = 0;
        while c < m
            invariant
                experiment.wf(),
                m == experiment.features.len(),
                cols == columns_view(experiment.features@),
                tg == experiment.is_target@,
                c <= m,
                best_positives > 0 ==> {
                    &&& best_feat < c
                    &&& best_positives == positives_for(tg, cols[best_feat as int], best_desc, eval_fdr)
                    &&& new_labels@ == fdr_labels(tg, cols[best_feat as int], best_desc, eval_fdr)
                    &&& forall|q: int, d: bool| 0 <= q < c && #[trigger] tried_before(q, d, best_feat as int, best_desc) ==>
                        positives_for(tg, cols[q], d, eval_fdr) < best_positives
                },
                forall|q: int, d: bool| 0 <= q < c ==> #[trigger] positives_for(tg, cols[q], d, eval_fdr) <= best_positives,
            decreases m - c,
        {
            let mut k: usize = 0;
            while k < 2
                invariant
                    experiment.wf(),
                    m == experiment.features.len(),
                    cols == columns_view(experiment.features@),
                    tg == experiment.is_target@,
                    c < m,
                    k <= 2,
                    best_positives > 0 ==> {
                        &&& best_feat <= c
                        &&& (best_feat == c ==> (k == 2 || (k == 1 && !best_desc)))
                        &&& best_positives == positives_for(tg, cols[best_feat as int], best_desc, eval_fdr)
                        &&& new_labels@ == fdr_labels(tg, cols[best_feat as int], best_desc, eval_fdr)
                        &&& forall|q: int, d: bool| (0 <= q < c || (q == c && (k == 2 || (k == 1 && !d)))) && #[trigger] tried_before(q, d, best_feat as int, best_desc) ==>
                            positives_for(tg, cols[q], d, eval_fdr) < best_positives
                    },
                    forall|q: int, d: bool| (0 <= q < c || (q == c && (k == 2 || (k == 1 && !d)))) ==> #[trigger] positives_for(tg, cols[q], d, eval_fdr) <= best_positives,
                decreases 2 - k,
            {
                let desc = k == 1;
                assert(experiment.features@[c as int].len() == experiment.labels.len());
                let labels = experiment.update_labels(experiment.column(c), eval_fdr, desc);
                let num_passing = count_positive_labels(&labels);
                if num_passing > best_positives {
                    best_positives = num_passing;
                    best_feat = c;
                    best_desc = desc;
                    new_labels = labels;
                }
                k = k + 1;
            }
            c = c + 1;
        }
        if best_positives == 0 {
            return Err(ScorerError::NoPositives);
        }
        let scores = copy_values(experiment.column(best_feat));
        Ok((best_feat, best_positives, new_labels, best_desc, scores))
    }

    /// Drops the rows whose label is 0.
    pub fn remove_unlabeled_psms(&self, experiment: &mut Dataset)
        requires
            old(experiment).wf(),
        ensures
            filtered_from(*final(experiment), *old(experiment), labeled_mask(old(experiment).labels@)),
    {
        let n = experiment.n_rows();
        let mut indices_to_remove: Vec<usize> = Vec::new();
        let mut i: usize = 0;
        while i < n
            invariant
                n == experiment.labels.len(),
                i <= n,
                forall|q: int| 0 <= q < n ==> (#[trigger] indices_to_remove@.contains(q as usize) <==> (q < i && experiment.labels@[q] == 0)),
                forall|p: int| 0 <= p < indices_to_remove.len() ==> #[trigger] indices_to_remove@[p] < i,
            decreases n - i,
        {
            let ghost before = indices_to_remove@;
            if experiment.labels[i] == 0 {
                indices_to_remove.push(i);
                proof {
                    assert(indices_to_remove@ == before.push(i));
                    assert forall|q: int| 0 <= q < n implies (#[trigger] indices_to_remove@.contains(q as usize) <==> (q < i + 1 && experiment.labels@[q] == 0)) by {
                        if q == i as int {
                            assert(indices_to_remove@[before.len() as int] == i);
                        } else if !before.contains(q as usize) && !indices_to_remove@.contains(q as usize) {
                        } else if indices_to_remove@.contains(q as usize) {
                            let w = choose|w: int| 0 <= w < indices_to_remove.len() && indices_to_remove@[w] == q as usize;
                            assert(w < before.len());
                            assert(before[w] == q as usize);
                            assert(before.contains(q as usize));
                        } else if before.contains(q as usize) {
                            let w = choose|w: int| 0 <= w < before.len() && before[w] == q as usize;
                            assert(indices_to_remove@[w] == q as usize);
                        }
                    }
                }
            } else {
                proof {
                    assert forall|q: int| 0 <= q < n implies (#[trigger] indices_to_remove@.contains(q as usize) <==> (q < i + 1 && experiment.labels@[q] == 0)) by {
                        assert(experiment.labels@[i as int] != 0);
                        if q == i as int {
                            if indices_to_remove@.contains(q as usize) {
                                let w = choose|w: int| 0 <= w < indices_to_remove.len() && indices_to_remove@[w] == q as usize;
                                assert(indices_to_remove@[w] < i);
                            }
                        } else {
                            assert(indices_to_remove@.contains(q as usize) <==> (q < i && experiment.labels@[q] == 0));
                        }
                    }
                }
            }
            i = i + 1;
        }
        assert(removal_mask(indices_to_remove@, n as int) =~= labeled_mask(experiment.labels@));
        experiment.remove_psms(&indices_to_remove);
    }

    /// Writes a fold's held-out scores at their rows of `all_predictions` and
    /// relabels `experiment` from the whole vector at the training FDR; fails,
    /// changing nothing, when there is not one score per held-out row.
    pub fn apply_fold_predictions(
        &self,
        experiment: &mut Dataset,
        all_predictions: &mut Vec<i64>,
        row_id: &Vec<usize>,
        fold_predictions: &Vec<i64>,
        descending: bool,
    ) -> (r: Result<(), ScorerError>)
        requires
            old(experiment).wf(),
            old(all_predictions).len() == old(experiment).labels.len(),
            row_id@.no_duplicates(),
            forall|i: int| 0 <= i < row_id.len() ==> #[trigger] row_id@[i] < old(all_predictions).len(),
        ensures
            r is Err <==> fold_predictions.len() != row_id.len(),
            r is Err ==> {
                &&& r == Err::<(), ScorerError>(ScorerError::PredictionCount)
                &&& *final(experiment) == *old(experiment)
                &&& *final(all_predictions) == *old(all_predictions)
            },
            r is Ok ==> {
                &&& final(all_predictions).len() == old(all_predictions).len()
                &&& forall|i: int| 0 <= i < row_id.len() ==> final(all_predictions)@[#[trigger] row_id@[i] as int] == fold_predictions@[i]
                &&& forall|j: int| 0 <= j < old(all_predictions).len() && !row_id@.contains(j as usize) ==>
                    #[trigger] final(all_predictions)@[j] == old(all_predictions)@[j]
                &&& final(experiment).wf()
                &&& final(experiment).labels@ == fdr_labels(old(experiment).is_target@, final(all_predictions)@, descending, self.train_fdr)
                &&& final(experiment).features@ == old(experiment).features@
                &&& final(experiment).is_target@ == old(experiment).is_target@
                &&& final(experiment).row_id@ == old(experiment).row_id@
            },
    {
        if fold_predictions.len() != row_id.len() {
            return Err(ScorerError::PredictionCount);
        }
        scatter_predictions(all_predictions, row_id, fold_predictions);
        experiment.labels = experiment.update_labels(all_predictions, self.train_fdr, descending);
        Ok(())
    }

    /// Splits `experiment` into `n_folds` train/test pairs over a shuffle of
    /// its rows drawn from `self.seed`.
    pub fn create_folds(&self, experiment: &Dataset, n_folds: usize) -> (r: Result<Vec<(Dataset, Dataset)>, ScorerError>)
        requires
            experiment.wf(),
        ensures
            r is Err <==> (n_folds == 0 || n_folds > experiment.labels.len()),
            r is Err ==> r == Err::<Vec<(Dataset, Dataset)>, ScorerError>(ScorerError::InvalidFoldCount),
            r matches Ok(folds) ==> {
                &&& folds.len() == n_folds
                &&& exists|order: Seq<usize>| {
                    &&& is_permutation_of_range(order, experiment.labels.len() as int)
                    &&& forall|i: int| 0 <= i < n_folds ==> #[trigger] is_fold(folds@[i], *experiment, order, fold_size(experiment.labels.len() as int, n_folds as int), i)
                }
            },
    {
        let n_samples = experiment.n_rows();
        if n_folds == 0 || n_folds > n_samples {
            return Err(ScorerError::InvalidFoldCount);
        }
        let mut indices = identity_order(n_samples);
        shuffle_seeded(&mut indices, self.seed);
        proof {
            lemma_permutation_of_range(indices@, n_samples as int);
        }
        let folds = folds_from_order(experiment, &indices, n_folds);
        assert(is_permutation_of_range(indices@, n_samples as int));
        Ok(folds)
    }

    /// Runs one labeling and training pass and returns the final score of
    /// every row: labels are bootstrapped from the best single feature,
    /// refined fold by fold on held-out predictions, and the classifier is
    /// refit once on all rows with the labels they came with.
    pub fn fit(&mut self, x: Vec<Vec<i64>>, y: Vec<i32>) -> (r: Result<Vec<i64>, ScorerError>)
        ensures
            final(self).train_fdr == old(self).train_fdr,
            final(self).threshold == old(self).threshold,
            final(self).ss_num_iter == old(self).ss_num_iter,
            final(self).xeval_num_iter == old(self).xeval_num_iter,
            final(self).seed == old(self).seed,
            !columns_have_len(x@, y.len() as int) ==> r == Err::<Vec<i64>, ScorerError>(ScorerError::DimensionMismatch),
            columns_have_len(x@, y.len() as int)
                && !has_informative_feature(columns_view(x@), targets_of(y@), old(self).train_fdr)
                ==> r == Err::<Vec<i64>, ScorerError>(ScorerError::NoPositives),
            columns_have_len(x@, y.len() as int)
                && has_informative_feature(columns_view(x@), targets_of(y@), old(self).train_fdr)
                && (old(self).xeval_num_iter == 0 || old(self).xeval_num_iter > y.len())
                ==> r == Err::<Vec<i64>, ScorerError>(ScorerError::InvalidFoldCount),
            columns_have_len(x@, y.len() as int)
                && has_informative_feature(columns_view(x@), targets_of(y@), old(self).train_fdr)
                && 0 < old(self).xeval_num_iter <= y.len()
                ==> match r {
                    Ok(scores) => scores.len() == y.len(),
                    Err(e) => e is Classifier || e is PredictionCount,
                },
    {
        let ghost xv = x@;
        let ghost yv = y@;
        let raw_features = copy_columns(&x);
        let raw_labels = copy_values(&y);
        let mut experiment = match Dataset::new(x, y) {
            Ok(d) => d,
            Err(e) => return Err(e),
        };
        let best = match self.init_best_feature(&experiment, self.train_fdr) {
            Ok(b) => b,
            Err(e) => return Err(e),
        };
        let (best_feat, _best_positives, new_labels, best_desc, _best_scores) = best;
        assert(experiment.features@[best_feat as int].len() == experiment.labels.len());
        experiment.labels = new_labels;
        let mut folds = match self.create_folds(&experiment, self.xeval_num_iter) {
            Ok(f) => f,
            Err(e) => return Err(e),
        };
        let n = experiment.n_rows();
        let ghost base = experiment;
        let ghost all_folds = folds@;
        let ghost k = folds.len();
        let ghost size = fold_size(n as int, k as int);
        let ghost order = choose|order: Seq<usize>| {
            &&& is_permutation_of_range(order, n as int)
            &&& forall|i: int| 0 <= i < k ==> #[trigger] is_fold(all_folds[i], base, order, size, i)
        };
        proof {
            lemma_range_seq_distinct(n as int);
        }
        let mut all_predictions: Vec<i64> = Vec::with_capacity(n);
        let mut j: usize = 0;
        while j < n
            invariant
                j <= n,
                all_predictions.len() == j,
            decreases n - j,
        {
            all_predictions.push(0);
            j = j + 1;
        }
        let mut f: usize = 0;
        while f < self.xeval_num_iter
            invariant
                experiment.wf(),
                base.wf(),
                xv == x@,
                yv == y@,
                columns_have_len(xv, yv.len() as int),
                has_informative_feature(columns_view(xv), targets_of(yv), old(self).train_fdr),
                0 < old(self).xeval_num_iter <= yv.len(),
                columns_view(raw_features@) == columns_view(xv),
                raw_labels@ == yv,
                n == yv.len(),
                n == experiment.labels.len(),
                n == base.labels.len(),
                experiment.row_id@ == range_seq(n as int),
                base.row_id@ == range_seq(n as int),
                range_seq(n as int).no_duplicates(),
                forall|p: int| 0 <= p < n ==> #[trigger] range_seq(n as int)[p] as int == p,
                experiment.is_target@ == base.is_target@,
                experiment.features@ == base.features@,
                all_predictions.len() == n,
                k == self.xeval_num_iter,
                f <= k,
                all_folds.len() == k,
                folds@ == all_folds.subrange(f as int, k as int),
                forall|i: int| 0 <= i < k ==> #[trigger] is_fold(all_folds[i], base, order, size, i),
                self.train_fdr == old(self).train_fdr,
                self.threshold == old(self).threshold,
                self.ss_num_iter == old(self).ss_num_iter,
                self.xeval_num_iter == old(self).xeval_num_iter,
                self.seed == old(self).seed,
            decreases k - f,
        {
            assert(folds@[0] == all_folds[f as int]);
            let (mut train_exp, test_exp) = folds.remove(0);
            proof {
                assert(folds@ =~= all_folds.subrange(f + 1, k as int));
                assert(all_folds[f as int] == (train_exp, test_exp));
                assert(is_fold(all_folds[f as int], base, order, size, f as int));
                let test_mask = chunk_mask(order, f * size, (f + 1) * size, n as int);
                lemma_kept_from(base.row_id@, test_mask);
                assert forall|i: int| 0 <= i < test_exp.row_id.len() implies #[trigger] test_exp.row_id@[i] < n by {
                    assert(test_exp.row_id@.contains(test_exp.row_id@[i]));
                }
            }
            self.remove_unlabeled_psms(&mut train_exp);
            match self.model.fit(&train_exp.features, &train_exp.labels, None, None) {
                Ok(_) => {},
                Err(s) => return Err(ScorerError::Classifier(s)),
            }
            let fold_predictions = match self.model.predict_proba(&test_exp.features) {
                Ok(p) => p,
                Err(s) => return Err(ScorerError::Classifier(s)),
            };
            match self.apply_fold_predictions(&mut experiment, &mut all_predictions, &test_exp.row_id, &fold_predictions, best_desc) {
                Ok(_) => {},
                Err(e) => return Err(e),
            }
            f = f + 1;
        }
        proof {
            assert(raw_features@.len() == columns_view(raw_features@).len());
            assert forall|c: int| 0 <= c < raw_features@.len() implies #[trigger] raw_features@[c].len() == raw_labels.len() by {
                assert(columns_view(raw_features@)[c] == columns_view(xv)[c]);
                assert(xv[c].len() == yv.len());
            }
        }
        let fresh = match Dataset::new(raw_features, raw_labels) {
            Ok(d) => d,
            Err(e) => return Err(e),
        };
        match self.model.fit(&fresh.features, &fresh.labels, None, None) {
            Ok(_) => {},
            Err(s) => return Err(ScorerError::Classifier(s)),
        }
        let scores = match self.model.predict_proba(&fresh.features) {
            Ok(p) => p,
            Err(s) => return Err(ScorerError::Classifier(s)),
        };
        checked_scores(scores, fresh.n_rows())
    }
}

} // verus!
