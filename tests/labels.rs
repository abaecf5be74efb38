use clusterization::model::metric::{accuracy, Accuracy};
use clusterization::model::solution::{Discrete, SolutionError};

fn labeling(v: &[usize], k: usize) -> Discrete {
    Discrete::from_prediction(v.to_vec(), k)
}

fn as_fraction(a: Accuracy) -> f64 {
    a.matched as f64 / a.total as f64
}

fn is_bijection(m: &[usize], k: usize) -> bool {
    let mut seen = vec![false; k];
    for &x in m {
        if x >= k || seen[x] {
            return false;
        }
        seen[x] = true;
    }
    m.len() == k
}

#[test]
fn reference_counts_distinct_labels() {
    let d = Discrete::new(&vec![0, 1, 1, 2, 0]);
    assert_eq!(d.n_classes, 3);
    assert_eq!(d.n_samples, 5);
    assert_eq!(d.to_vec(), vec![0, 1, 1, 2, 0]);
    let empty = Discrete::new(&vec![]);
    assert_eq!(empty.n_classes, 0);
    assert_eq!(empty.n_samples, 0);
}

#[test]
fn pure_relabeling_aligns_to_full_accuracy() {
    let truth = labeling(&[0, 0, 1, 1, 2, 2], 3);
    let prediction = labeling(&[1, 1, 2, 2, 0, 0], 3);
    let before = accuracy(&truth, &prediction).unwrap();
    let aligned = prediction.matched_with(&truth).unwrap();
    assert_eq!(aligned.indicators, vec![0, 0, 1, 1, 2, 2]);
    let after = accuracy(&truth, &aligned).unwrap();
    assert_eq!(as_fraction(after), 1.0);
    assert!(as_fraction(after) >= as_fraction(before));
}

#[test]
fn alignment_is_the_inverse_relabeling() {
    let truth = labeling(&[0, 0, 1, 1, 2, 2], 3);
    let prediction = labeling(&[1, 1, 2, 2, 0, 0], 3);
    let m = prediction.alignment(&truth).unwrap();
    assert_eq!(m, vec![2, 0, 1]);
    assert!(is_bijection(&m, 3));
}

#[test]
fn imperfect_prediction_aligns_to_best_agreement() {
    let truth = labeling(&[0, 0, 0, 1, 1, 2], 3);
    let prediction = labeling(&[1, 1, 0, 0, 2, 2], 3);
    let a = accuracy(&truth, &prediction).unwrap();
    assert_eq!(a, Accuracy { matched: 4, total: 6 });
    let m = prediction.alignment(&truth).unwrap();
    assert_eq!(m, vec![1, 0, 2]);
    let aligned = prediction.matched_with(&truth).unwrap();
    assert_eq!(aligned.indicators, vec![0, 0, 1, 1, 2, 2]);
    let raw = truth.indicators.iter().zip(aligned.indicators.iter()).filter(|(a, b)| a == b).count();
    assert_eq!(raw, 4);
    assert_eq!(accuracy(&truth, &aligned).unwrap(), Accuracy { matched: 4, total: 6 });
}

#[test]
fn every_permutation_of_the_reference_aligns_back() {
    let base = [0usize, 1, 2, 2, 1, 0, 0];
    let perms: [[usize; 3]; 6] = [[0, 1, 2], [0, 2, 1], [1, 0, 2], [1, 2, 0], [2, 0, 1], [2, 1, 0]];
    let truth = labeling(&base, 3);
    for p in perms.iter() {
        let permuted: Vec<usize> = base.iter().map(|&x| p[x]).collect();
        let raw = base.iter().zip(permuted.iter()).filter(|(a, b)| a == b).count();
        assert_eq!(raw == base.len(), *p == [0, 1, 2]);
        let aligned = labeling(&permuted, 3).matched_with(&truth).unwrap();
        assert_eq!(aligned.indicators, base.to_vec());
        let a = accuracy(&truth, &aligned).unwrap();
        assert_eq!(as_fraction(a), 1.0);
        let m = labeling(&permuted, 3).alignment(&truth).unwrap();
        assert!(is_bijection(&m, 3));
    }
}

#[test]
fn mismatched_sample_counts_are_rejected() {
    let truth = labeling(&[0, 1, 2], 3);
    let prediction = labeling(&[0, 1], 3);
    assert_eq!(accuracy(&truth, &prediction), Err(SolutionError::ShapeMismatch));
    assert!(matches!(prediction.alignment(&truth), Err(SolutionError::ShapeMismatch)));
    assert!(matches!(prediction.matched_with(&truth), Err(SolutionError::ShapeMismatch)));
}

#[test]
fn empty_labelings_align_trivially() {
    let truth = labeling(&[], 2);
    let prediction = labeling(&[], 2);
    assert_eq!(accuracy(&truth, &prediction).unwrap(), Accuracy { matched: 0, total: 0 });
    let m = prediction.alignment(&truth).unwrap();
    assert!(is_bijection(&m, 2));
}

#[test]
fn one_hot_rows_read_back_to_the_labeling() {
    let d = labeling(&[2, 0, 1, 1, 0], 3);
    let rows = d.one_hot();
    assert_eq!(rows[0], vec![0, 0, 1]);
    assert_eq!(rows[1], vec![1, 0, 0]);
    let back = Discrete::from_scores(&rows, 3).unwrap();
    assert_eq!(back.indicators, d.indicators);
    assert_eq!(back.n_classes, 3);
    assert_eq!(back.n_samples, 5);
}

#[test]
fn scores_take_the_first_largest_entry() {
    let scores = vec![vec![3, 7, 7], vec![9, 1, 9], vec![0, 0, 5]];
    let d = Discrete::from_scores(&scores, 3).unwrap();
    assert_eq!(d.indicators, vec![1, 0, 2]);
}

#[test]
fn scores_of_the_wrong_shape_are_rejected() {
    let scores = vec![vec![3, 7, 7], vec![9, 1]];
    assert!(matches!(Discrete::from_scores(&scores, 3), Err(SolutionError::ShapeMismatch)));
    let empty_rows: Vec<Vec<u64>> = vec![vec![], vec![]];
    assert!(matches!(Discrete::from_scores(&empty_rows, 0), Err(SolutionError::DegenerateRow)));
    let none: Vec<Vec<u64>> = vec![];
    assert_eq!(Discrete::from_scores(&none, 4).unwrap().n_samples, 0);
}

#[test]
fn clusters_group_samples_by_label() {
    let d = labeling(&[1, 0, 1, 2, 0], 3);
    let g = d.clusters().unwrap();
    assert_eq!(g, vec![vec![1, 4], vec![0, 2], vec![3]]);
}

#[test]
fn a_class_without_members_is_an_empty_cluster() {
    let d = labeling(&[1, 0, 1, 0], 3);
    assert!(matches!(d.clusters(), Err(SolutionError::EmptyCluster)));
}

#[test]
fn accuracy_over_three_balanced_classes_is_a_fraction() {
    let truth_labels: Vec<usize> = (0..150).map(|i| i / 50).collect();
    let renaming = [2usize, 0, 1];
    let predicted: Vec<usize> = truth_labels
        .iter()
        .enumerate()
        .map(|(i, &t)| renaming[(t + usize::from(i % 7 == 0)) % 3])
        .collect();
    let truth = Discrete::new(&truth_labels);
    assert_eq!(truth.n_classes, 3);
    let prediction = labeling(&predicted, 3);
    let a = accuracy(&truth, &prediction).unwrap();
    assert_eq!(a, Accuracy { matched: 128, total: 150 });
    let fraction = as_fraction(a);
    assert!((0.0..=1.0).contains(&fraction));
    let aligned = prediction.matched_with(&truth).unwrap();
    let raw = truth_labels.iter().zip(aligned.indicators.iter()).filter(|(a, b)| a == b).count();
    assert_eq!(raw, 128);
    assert_eq!(accuracy(&truth, &aligned).unwrap(), a);
}
