use redeem_classifiers::dataset::Dataset;
use redeem_classifiers::error::ScorerError;
use redeem_classifiers::fdr::{label_by_fdr, FdrThreshold};
use redeem_classifiers::folds::folds_from_order;
use redeem_classifiers::model_type::ModelType;
use redeem_classifiers::psm_scorer::{
    checked_scores, count_positive_labels, scatter_predictions, SemiSupervisedLearner, SemiSupervisedModel,
};
use redeem_classifiers::ranking::rank_rows;

/// An order key for an `f32`: keys compare as the values do, and 0.0 maps to 0.
fn key(v: f32) -> i64 {
    let bits = v.to_bits();
    let magnitude = (bits & 0x7fff_ffff) as i64;
    if bits >> 31 == 1 {
        -magnitude
    } else {
        magnitude
    }
}

fn thr(num: u64, den: u64) -> FdrThreshold {
    FdrThreshold { num, den }
}

/// Scores each row by its first feature; training does nothing.
struct FirstFeature {
    fits: usize,
}

impl SemiSupervisedModel for FirstFeature {
    fn fit(
        &mut self,
        _x: &Vec<Vec<i64>>,
        _y: &Vec<i32>,
        _x_eval: Option<&Vec<Vec<i64>>>,
        _y_eval: Option<&Vec<i32>>,
    ) -> Result<(), String> {
        self.fits += 1;
        Ok(())
    }

    fn predict(&self, x: &Vec<Vec<i64>>) -> Result<Vec<i64>, String> {
        Ok(x[0].iter().map(|&v| if v > 0 { 1 } else { 0 }).collect())
    }

    fn predict_proba(&self, x: &Vec<Vec<i64>>) -> Result<Vec<i64>, String> {
        Ok(x[0].clone())
    }
}

/// Returns one score too few.
struct ShortPredictions;

impl SemiSupervisedModel for ShortPredictions {
    fn fit(
        &mut self,
        _x: &Vec<Vec<i64>>,
        _y: &Vec<i32>,
        _x_eval: Option<&Vec<Vec<i64>>>,
        _y_eval: Option<&Vec<i32>>,
    ) -> Result<(), String> {
        Ok(())
    }

    fn predict(&self, x: &Vec<Vec<i64>>) -> Result<Vec<i64>, String> {
        self.predict_proba(x)
    }

    fn predict_proba(&self, x: &Vec<Vec<i64>>) -> Result<Vec<i64>, String> {
        let mut v = x[0].clone();
        v.pop();
        Ok(v)
    }
}

/// Fails to train.
struct FailingModel;

impl SemiSupervisedModel for FailingModel {
    fn fit(
        &mut self,
        _x: &Vec<Vec<i64>>,
        _y: &Vec<i32>,
        _x_eval: Option<&Vec<Vec<i64>>>,
        _y_eval: Option<&Vec<i32>>,
    ) -> Result<(), String> {
        Err("no convergence".to_string())
    }

    fn predict(&self, _x: &Vec<Vec<i64>>) -> Result<Vec<i64>, String> {
        Err("untrained".to_string())
    }

    fn predict_proba(&self, _x: &Vec<Vec<i64>>) -> Result<Vec<i64>, String> {
        Err("untrained".to_string())
    }
}

/// 20 rows, one feature: rows 0-9 targets at 5.0, 5.5, .., 9.5 and rows
/// 10-19 decoys at 0.0, 0.5, .., 4.5.
fn separated_data() -> (Vec<Vec<i64>>, Vec<i32>) {
    let mut col = Vec::new();
    let mut labels = Vec::new();
    for i in 0..10 {
        col.push(key(5.0 + 0.5 * i as f32));
        labels.push(1);
    }
    for i in 0..10 {
        col.push(key(0.5 * i as f32));
        labels.push(-1);
    }
    (vec![col], labels)
}

#[test]
fn test_semi_supervised_learner() {
    let (x, y) = separated_data();
    let mut learner = SemiSupervisedLearner::new(FirstFeature { fits: 0 }, thr(1, 1), key(0.5), 1, 2, 7);
    let predictions = learner.fit(x, y.clone()).unwrap();
    assert_eq!(predictions.len(), y.len());
    // Two folds, then the final refit.
    assert_eq!(learner.model.fits, 3);
}

#[test]
fn model_type_parses_any_case() {
    assert_eq!(ModelType::from_str("xgboost"), Ok(ModelType::XGBoost));
    assert_eq!(ModelType::from_str("XGBoost"), Ok(ModelType::XGBoost));
    assert_eq!(ModelType::from_str("XGBOOST"), Ok(ModelType::XGBoost));
}

#[test]
fn model_type_unknown_name() {
    assert_eq!(ModelType::from_str("svm"), Err("Unknown model type: svm".to_string()));
    assert_eq!(ModelType::from_str("SVM"), Err("Unknown model type: SVM".to_string()));
}

#[test]
fn model_type_from_lowercase() {
    assert_eq!(ModelType::from_lowercase(&"xgboost".to_string()), Some(ModelType::XGBoost));
    assert_eq!(ModelType::from_lowercase(&"XGBoost".to_string()), None);
}

#[test]
fn rank_rows_orders_and_breaks_ties_by_row() {
    let scores = vec![3, 1, 3, 2];
    assert_eq!(rank_rows(&scores, true), vec![0, 2, 3, 1]);
    assert_eq!(rank_rows(&scores, false), vec![1, 3, 0, 2]);
}

fn mixed() -> (Vec<bool>, Vec<i64>) {
    (vec![true, true, false, true, false, true], vec![10, 9, 8, 7, 6, 5])
}

#[test]
fn labels_descending_half() {
    let (t, s) = mixed();
    assert_eq!(label_by_fdr(&t, &s, thr(1, 2), true), vec![1, 1, -1, 1, -1, 1]);
}

#[test]
fn labels_descending_third() {
    let (t, s) = mixed();
    assert_eq!(label_by_fdr(&t, &s, thr(1, 3), true), vec![1, 1, -1, 1, -1, 0]);
}

#[test]
fn labels_descending_zero() {
    let (t, s) = mixed();
    assert_eq!(label_by_fdr(&t, &s, thr(0, 1), true), vec![1, 1, -1, 0, -1, 0]);
}

#[test]
fn labels_ascending() {
    let (t, s) = mixed();
    assert_eq!(label_by_fdr(&t, &s, thr(1, 2), false), vec![1, 1, -1, 1, -1, 1]);
    assert_eq!(label_by_fdr(&t, &s, thr(1, 3), false), vec![0, 0, -1, 0, -1, 1]);
}

#[test]
fn labels_ties_go_to_earlier_row() {
    let t = vec![false, true, true, true];
    let s = vec![5, 5, 5, 5];
    assert_eq!(label_by_fdr(&t, &s, thr(0, 1), true), vec![-1, 0, 0, 0]);
    let t2 = vec![true, true, true, false];
    assert_eq!(label_by_fdr(&t2, &s, thr(0, 1), true), vec![1, 1, 1, -1]);
}

#[test]
fn labels_without_decoys_or_targets() {
    assert_eq!(label_by_fdr(&vec![true, true], &vec![1, 2], thr(0, 1), true), vec![1, 1]);
    assert_eq!(label_by_fdr(&vec![false, false], &vec![1, 2], thr(1, 1), true), vec![-1, -1]);
    assert_eq!(label_by_fdr(&vec![], &vec![], thr(1, 1), true), Vec::<i32>::new());
}

#[test]
fn labels_unbounded_threshold() {
    let (t, s) = mixed();
    assert_eq!(label_by_fdr(&t, &s, thr(0, 0), false), vec![1, 1, -1, 1, -1, 1]);
}

#[test]
fn labeling_is_deterministic() {
    let (t, s) = mixed();
    let a = label_by_fdr(&t, &s, thr(1, 3), true);
    let b = label_by_fdr(&t, &s, thr(1, 3), true);
    assert_eq!(a, b);
}

#[test]
fn decoys_are_never_positive() {
    let labels = vec![-1, -1, 1, -1, 1];
    let d = Dataset::new(vec![vec![9, 8, 7, 6, 5]], labels.clone()).unwrap();
    for desc in [true, false] {
        for (n, den) in [(0, 1), (1, 2), (1, 1), (0, 0)] {
            let out = d.update_labels(&d.features[0], thr(n, den), desc);
            for j in 0..labels.len() {
                if labels[j] == -1 {
                    assert_eq!(out[j], -1);
                }
            }
        }
    }
}

#[test]
fn lower_threshold_never_adds_positives() {
    let (t, s) = mixed();
    let mut previous = usize::MAX;
    for (n, den) in [(1, 1), (1, 2), (1, 3), (1, 10), (0, 1)] {
        let count = count_positive_labels(&label_by_fdr(&t, &s, thr(n, den), true));
        assert!(count <= previous);
        previous = count;
    }
    assert_eq!(count_positive_labels(&label_by_fdr(&t, &s, thr(1, 1), true)), 4);
    assert_eq!(count_positive_labels(&label_by_fdr(&t, &s, thr(0, 1), true)), 2);
}

#[test]
fn dataset_rejects_mismatched_columns() {
    assert_eq!(
        Dataset::new(vec![vec![1, 2, 3]], vec![1, -1]).err(),
        Some(ScorerError::DimensionMismatch)
    );
    assert_eq!(
        Dataset::new(vec![vec![1, 2], vec![1]], vec![1, -1]).err(),
        Some(ScorerError::DimensionMismatch)
    );
}

#[test]
fn dataset_new_fields() {
    let d = Dataset::new(vec![vec![4, 5, 6]], vec![1, -1, 1]).unwrap();
    assert_eq!(d.n_rows(), 3);
    assert_eq!(d.n_features(), 1);
    assert_eq!(d.is_target, vec![true, false, true]);
    assert_eq!(d.row_id, vec![0, 1, 2]);
    assert_eq!(d.column(0), &vec![4, 5, 6]);
}

#[test]
fn filter_keeps_masked_rows_in_order() {
    let d = Dataset::new(vec![vec![10, 11, 12, 13, 14], vec![20, 21, 22, 23, 24]], vec![1, -1, 1, -1, 1]).unwrap();
    let r = d.filter(&vec![false, true, true, false, true]);
    assert_eq!(r.n_rows(), 3);
    assert_eq!(r.row_id, vec![1, 2, 4]);
    assert_eq!(r.labels, vec![-1, 1, 1]);
    assert_eq!(r.is_target, vec![false, true, true]);
    assert_eq!(r.features, vec![vec![11, 12, 14], vec![21, 22, 24]]);
}

#[test]
fn remove_psms_drops_listed_rows() {
    let mut d = Dataset::new(vec![vec![10, 11, 12, 13, 14]], vec![1, -1, 1, -1, 1]).unwrap();
    d.remove_psms(&vec![3, 0]);
    assert_eq!(d.n_rows(), 3);
    assert_eq!(d.row_id, vec![1, 2, 4]);
    assert_eq!(d.features, vec![vec![11, 12, 14]]);
    // Positions past the end are ignored.
    d.remove_psms(&vec![7]);
    assert_eq!(d.n_rows(), 3);
}

#[test]
fn remove_unlabeled_psms_keeps_labeled_rows() {
    let learner = SemiSupervisedLearner::new(FirstFeature { fits: 0 }, thr(1, 100), 0, 1, 2, 0);
    let mut d = Dataset::new(vec![vec![10, 11, 12, 13]], vec![1, -1, 1, 1]).unwrap();
    d.labels = vec![1, 0, -1, 0];
    learner.remove_unlabeled_psms(&mut d);
    assert_eq!(d.row_id, vec![0, 2]);
    assert_eq!(d.labels, vec![1, -1]);
}

#[test]
fn best_feature_end_to_end_selection() {
    let (x, y) = separated_data();
    let d = Dataset::new(x, y).unwrap();
    let learner = SemiSupervisedLearner::new(FirstFeature { fits: 0 }, thr(1, 100), 0, 1, 2, 0);
    let (feat, positives, labels, desc, scores) = learner.init_best_feature(&d, thr(1, 100)).unwrap();
    assert_eq!(feat, 0);
    assert_eq!(positives, 10);
    assert!(desc);
    let mut expected = vec![1; 10];
    expected.extend(vec![-1; 10]);
    assert_eq!(labels, expected);
    assert_eq!(scores, d.features[0]);
}

#[test]
fn best_feature_is_optimal_and_earliest() {
    // Column 0 passes one target either way; columns 1 and 2 pass both
    // targets descending, and column 1 comes first.
    let x = vec![vec![5, 9, 1, 2], vec![1, 3, 4, 2], vec![1, 8, 9, 2]];
    let y = vec![-1, 1, 1, -1];
    let d = Dataset::new(x, y).unwrap();
    let learner = SemiSupervisedLearner::new(FirstFeature { fits: 0 }, thr(0, 1), 0, 1, 2, 0);
    let (feat, positives, _, desc, _) = learner.init_best_feature(&d, thr(0, 1)).unwrap();
    for c in 0..3 {
        for dir in [false, true] {
            let n = count_positive_labels(&d.update_labels(&d.features[c], thr(0, 1), dir));
            assert!(n <= positives);
        }
    }
    assert_eq!((feat, positives, desc), (1, 2, true));
}

#[test]
fn best_feature_none_informative() {
    let d = Dataset::new(vec![vec![1, 2]], vec![-1, -1]).unwrap();
    let learner = SemiSupervisedLearner::new(FirstFeature { fits: 0 }, thr(1, 100), 0, 1, 2, 0);
    assert_eq!(learner.init_best_feature(&d, thr(1, 100)).err(), Some(ScorerError::NoPositives));
    let empty = Dataset::new(vec![], vec![1, -1]).unwrap();
    assert_eq!(learner.init_best_feature(&empty, thr(1, 100)).err(), Some(ScorerError::NoPositives));
}

#[test]
fn folds_split_by_order() {
    let d = Dataset::new(vec![vec![0, 10, 20, 30, 40, 50, 60]], vec![1, 1, 1, -1, -1, -1, 1]).unwrap();
    let order = vec![6, 2, 0, 5, 1, 3, 4];
    let folds = folds_from_order(&d, &order, 3);
    assert_eq!(folds.len(), 3);
    // Chunks of 7 / 3 = 2 rows: {6, 2}, {0, 5}, {1, 3}; row 4 is never tested.
    assert_eq!(folds[0].1.row_id, vec![2, 6]);
    assert_eq!(folds[1].1.row_id, vec![0, 5]);
    assert_eq!(folds[2].1.row_id, vec![1, 3]);
    assert_eq!(folds[0].0.row_id, vec![0, 1, 3, 4, 5]);
    assert_eq!(folds[2].0.features, vec![vec![0, 20, 40, 50, 60]]);
    for f in &folds {
        assert!(f.0.row_id.contains(&4));
    }
}

#[test]
fn create_folds_partitions_rows() {
    let n = 11;
    let d = Dataset::new(vec![(0..n as i64).collect()], vec![1; n]).unwrap();
    let mut moved = false;
    for seed in 0..8u64 {
        let learner = SemiSupervisedLearner::new(FirstFeature { fits: 0 }, thr(1, 100), 0, 1, 3, seed);
        let folds = learner.create_folds(&d, 3).unwrap();
        assert_eq!(folds.len(), 3);
        let mut tested: Vec<usize> = Vec::new();
        for (train, test) in &folds {
            assert_eq!(test.n_rows(), 3);
            assert_eq!(train.n_rows(), 8);
            tested.extend(test.row_id.iter());
        }
        tested.sort();
        tested.dedup();
        assert_eq!(tested.len(), 9);
        if folds[0].1.row_id != vec![0, 1, 2] {
            moved = true;
        }
        // The same seed gives the same folds.
        let again = learner.create_folds(&d, 3).unwrap();
        assert_eq!(again[1].1.row_id, folds[1].1.row_id);
    }
    assert!(moved);
}

#[test]
fn create_folds_rejects_bad_counts() {
    let d = Dataset::new(vec![vec![1, 2, 3]], vec![1, -1, 1]).unwrap();
    let learner = SemiSupervisedLearner::new(FirstFeature { fits: 0 }, thr(1, 100), 0, 1, 2, 0);
    assert_eq!(learner.create_folds(&d, 0).err(), Some(ScorerError::InvalidFoldCount));
    assert_eq!(learner.create_folds(&d, 4).err(), Some(ScorerError::InvalidFoldCount));
    assert_eq!(learner.create_folds(&d, 3).unwrap().len(), 3);
}

#[test]
fn scatter_writes_by_row_id() {
    let mut all = vec![0; 5];
    scatter_predictions(&mut all, &vec![4, 1], &vec![7, 8]);
    assert_eq!(all, vec![0, 8, 0, 0, 7]);
}

#[test]
fn end_to_end_separates_targets_from_decoys() {
    let (x, y) = separated_data();
    let mut learner = SemiSupervisedLearner::new(FirstFeature { fits: 0 }, thr(1, 100), 0, 1, 2, 42);
    let scores = learner.fit(x, y.clone()).unwrap();
    assert_eq!(scores.len(), 20);
    for t in 0..10 {
        for d in 10..20 {
            assert!(scores[t] > scores[d]);
        }
    }
}

#[test]
fn fit_reports_configuration_errors() {
    let (x, y) = separated_data();
    let mut bad_folds = SemiSupervisedLearner::new(FirstFeature { fits: 0 }, thr(1, 100), 0, 1, 21, 0);
    assert_eq!(bad_folds.fit(x.clone(), y.clone()).err(), Some(ScorerError::InvalidFoldCount));
    let mut learner = SemiSupervisedLearner::new(FirstFeature { fits: 0 }, thr(1, 100), 0, 1, 2, 0);
    assert_eq!(learner.fit(x.clone(), vec![1; 3]).err(), Some(ScorerError::DimensionMismatch));
    assert_eq!(learner.fit(x, vec![-1; 20]).err(), Some(ScorerError::NoPositives));
}

#[test]
fn fit_propagates_classifier_errors() {
    let (x, y) = separated_data();
    let mut short = SemiSupervisedLearner::new(ShortPredictions, thr(1, 100), 0, 1, 2, 0);
    assert_eq!(short.fit(x.clone(), y.clone()).err(), Some(ScorerError::PredictionCount));
    let mut failing = SemiSupervisedLearner::new(FailingModel, thr(1, 100), 0, 1, 2, 0);
    assert_eq!(
        failing.fit(x, y).err(),
        Some(ScorerError::Classifier("no convergence".to_string()))
    );
}

#[test]
fn fold_predictions_scatter_then_relabel() {
    let learner = SemiSupervisedLearner::new(FirstFeature { fits: 0 }, thr(0, 1), 0, 1, 2, 0);
    let mut d = Dataset::new(vec![vec![1, 2, 3, 4]], vec![1, -1, 1, 1]).unwrap();
    let mut all = vec![0; 4];
    learner.apply_fold_predictions(&mut d, &mut all, &vec![2, 0], &vec![9, 8], true).unwrap();
    assert_eq!(all, vec![8, 0, 9, 0]);
    // Ranked 2, 0, 1, 3: the decoy at rank three ends the passing prefix.
    assert_eq!(d.labels, vec![1, -1, 1, 0]);
}

#[test]
fn fold_predictions_of_wrong_length_change_nothing() {
    let learner = SemiSupervisedLearner::new(FirstFeature { fits: 0 }, thr(0, 1), 0, 1, 2, 0);
    let mut d = Dataset::new(vec![vec![1, 2, 3, 4]], vec![1, -1, 1, 1]).unwrap();
    let mut all = vec![0; 4];
    let r = learner.apply_fold_predictions(&mut d, &mut all, &vec![2, 0], &vec![9], true);
    assert_eq!(r, Err(ScorerError::PredictionCount));
    assert_eq!(all, vec![0; 4]);
    assert_eq!(d.labels, vec![1, -1, 1, 1]);
}

#[test]
fn checked_scores_needs_one_per_row() {
    assert_eq!(checked_scores(vec![3, 1, 2], 3), Ok(vec![3, 1, 2]));
    assert_eq!(checked_scores(vec![3, 1], 3), Err(ScorerError::PredictionCount));
}
