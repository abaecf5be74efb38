//! Agreement of a predicted labeling with a reference labeling.
use vstd::prelude::*;
use crate::model::assignment::{
    agreement, best_assignment, identity_map, is_best_agreement, is_optimal_map, is_permutation,
    labels_below, lemma_agreement_bound, lemma_agreement_full, lemma_compose_maps, lemma_identity_map,
    lemma_inverse_map, relabel,
};
use crate::model::solution::{is_aligned_labeling, Discrete, SolutionError};

verus! {

/// How many of `total` samples a prediction labels as the reference does,
/// once its classes are renamed as well as they can be.
#[derive(Debug, Clone, Copy, PartialEq, Eq, Structural)]
pub struct Accuracy {
    pub matched: usize,
    pub total: usize,
}

/// The largest number of samples on which `prediction`, under some renaming of
/// its classes, agrees with `truth`, out of the sample count.
pub fn accuracy(truth: &Discrete, prediction: &Discrete) -> (r: Result<Accuracy, SolutionError>)
    requires
        truth.wf(),
        prediction.wf(),
        prediction.n_classes == truth.n_classes,
        truth.n_samples <= i32::MAX,
    ensures
        r is Err <==> prediction.n_samples != truth.n_samples,
        r matches Err(e) ==> e == SolutionError::ShapeMismatch,
        r matches Ok(a) ==> {
            &&& a.total == truth.n_samples
            &&& is_best_agreement(
                truth.indicators@,
                prediction.indicators@,
                truth.n_classes as nat,
                a.matched as int,
            )
        },
{
    let n_samples = truth.n_samples;
    if n_samples != prediction.n_samples {
        return Err(SolutionError::ShapeMismatch);
    }
    let (score, mapping) = best_assignment(&prediction.indicators, &truth.indicators, truth.n_classes);
    proof {
        lemma_agreement_bound(
            truth.indicators@,
            relabel(prediction.indicators@, mapping@),
            n_samples as int,
        );
        assert(is_optimal_map(
            truth.indicators@,
            prediction.indicators@,
            truth.n_classes as nat,
            mapping@,
        ));
    }
    Ok(Accuracy { matched: score as usize, total: n_samples })
}

/// Aligning a prediction with the reference never lowers its accuracy: the
/// best agreement reachable from the aligned labeling is at least the best
/// agreement reachable from the prediction itself (and, the aligned labeling
/// being a renaming of the prediction, at most that).
pub proof fn lemma_alignment_keeps_accuracy(
    truth: Seq<usize>,
    pred: Seq<usize>,
    k: nat,
    aligned: Seq<usize>,
    before: int,
    after: int,
)
    requires
        truth.len() == pred.len(),
        labels_below(truth, k),
        labels_below(pred, k),
        k <= usize::MAX,
        is_aligned_labeling(truth, pred, k, aligned),
        is_best_agreement(truth, pred, k, before),
        is_best_agreement(truth, aligned, k, after),
    ensures
        before <= after,
        after <= before,
{
    let m = choose|m: Seq<usize>| #[trigger] is_optimal_map(truth, pred, k, m) && aligned == relabel(pred, m);
    let s = choose|s: Seq<usize>| is_permutation(s, k) && #[trigger] agreement(truth, relabel(pred, s)) == before;
    assert(agreement(truth, relabel(pred, s)) <= agreement(truth, relabel(pred, m)));
    assert(labels_below(aligned, k)) by {
        assert forall|i: int| 0 <= i < aligned.len() implies #[trigger] aligned[i] < k by {
            assert(pred[i] < k);
        }
    }
    lemma_identity_map(aligned, k);
    assert(agreement(truth, relabel(aligned, identity_map(k))) <= after);
    let t = choose|t: Seq<usize>| is_permutation(t, k) && #[trigger] agreement(truth, relabel(aligned, t)) == after;
    let c = lemma_compose_maps(pred, m, t, k);
    assert(agreement(truth, relabel(pred, c)) <= before);
}

/// A reference labeling with its classes permuted aligns back onto the
/// reference completely, so its accuracy is full; before alignment it agrees
/// with the reference everywhere only if the permutation fixes every label
/// that occurs.
pub proof fn lemma_permuted_reference_aligns_fully(
    truth: Seq<usize>,
    k: nat,
    pi: Seq<usize>,
    aligned: Seq<usize>,
    best: int,
)
    requires
        labels_below(truth, k),
        k <= usize::MAX,
        is_permutation(pi, k),
        is_aligned_labeling(truth, relabel(truth, pi), k, aligned),
        is_best_agreement(truth, aligned, k, best),
    ensures
        agreement(truth, aligned) == truth.len(),
        best == truth.len(),
        agreement(truth, relabel(truth, pi)) == truth.len() <==> forall|i: int|
            0 <= i < truth.len() ==> pi[truth[i] as int] == truth[i],
{
    let n = truth.len() as int;
    let permuted = relabel(truth, pi);
    let m = choose|m: Seq<usize>|
        #[trigger] is_optimal_map(truth, permuted, k, m) && aligned == relabel(permuted, m);
    let inv = lemma_inverse_map(pi, k);
    assert(relabel(permuted, inv) =~= truth) by {
        assert forall|i: int| 0 <= i < n implies #[trigger] relabel(permuted, inv)[i] == truth[i] by {
            assert(truth[i] < k);
        }
    }
    lemma_agreement_full(truth, truth, n);
    assert(agreement(truth, relabel(permuted, inv)) <= agreement(truth, relabel(permuted, m)));
    lemma_agreement_bound(truth, aligned, n);
    assert(labels_below(aligned, k)) by {
        assert forall|i: int| 0 <= i < aligned.len() implies #[trigger] aligned[i] < k by {
            assert(truth[i] < k);
            assert(permuted[i] < k);
        }
    }
    lemma_identity_map(aligned, k);
    assert(agreement(truth, relabel(aligned, identity_map(k))) <= best);
    let s = choose|s: Seq<usize>| is_permutation(s, k) && #[trigger] agreement(truth, relabel(aligned, s)) == best;
    lemma_agreement_bound(truth, relabel(aligned, s), n);
    lemma_agreement_full(truth, permuted, n);
}

} // verus!
