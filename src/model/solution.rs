//! Hard (discrete) cluster labelings.
use vstd::prelude::*;
use crate::model::assignment::{
    apply_map, best_assignment, is_optimal_map, labels_below, relabel,
};
use crate::utility::order::Ordered;

verus! {

/// Why an operation on labelings could not be carried out.
#[derive(Debug, Clone, Copy, PartialEq, Eq, Structural)]
pub enum SolutionError {
    /// Two labelings, or a labeling and a score matrix, disagree in shape.
    ShapeMismatch,
    /// A row of scores has no well-defined largest entry.
    DegenerateRow,
    /// Some class has no member.
    EmptyCluster,
}

/// A hard labeling: one class index per sample.
#[derive(Debug, Clone)]
pub struct Discrete {
    pub indicators: Vec<usize>,
    pub n_classes: usize,
    pub n_samples: usize,
}

/// `aligned` is `pred` relabeled by a bijection that agrees with `truth` as
/// well as any bijection can.
pub open spec fn is_aligned_labeling(
    truth: Seq<usize>,
    pred: Seq<usize>,
    k: nat,
    aligned: Seq<usize>,
) -> bool {
    exists|m: Seq<usize>| #[trigger] is_optimal_map(truth, pred, k, m) && aligned == relabel(pred, m)
}

/// The one-hot row of label `l` among `k` classes.
pub open spec fn one_hot_row(l: usize, k: nat) -> Seq<u64> {
    Seq::new(k, |j: int| if j == l { 1u64 } else { 0u64 })
}

/// The one-hot rows of a labeling.
pub open spec fn one_hot_rows(labels: Seq<usize>, k: nat) -> Seq<Seq<u64>> {
    Seq::new(labels.len(), |i: int| one_hot_row(labels[i], k))
}

/// A score matrix as rows of values.
pub open spec fn scores_view(scores: &Vec<Vec<u64>>) -> Seq<Seq<u64>> {
    scores@.map_values(|r: Vec<u64>| r@)
}

/// Each label is the first position of a largest score in its row.
pub open spec fn is_row_argmax(scores: Seq<Seq<u64>>, labels: Seq<usize>) -> bool {
    &&& labels.len() == scores.len()
    &&& forall|i: int|
        0 <= i < scores.len() ==> #[trigger] <Vec<u64> as Ordered<u64>>::is_first_max(
            scores[i],
            labels[i] as int,
        )
}

/// The samples, in increasing order, that `labels` puts in class `c`, among the first `m`.
pub open spec fn members_upto(labels: Seq<usize>, c: usize, m: int) -> Seq<usize>
    decreases m,
{
    if m <= 0 {
        Seq::empty()
    } else if labels[m - 1] == c {
        members_upto(labels, c, m - 1).push((m - 1) as usize)
    } else {
        members_upto(labels, c, m - 1)
    }
}

/// The samples, in increasing order, that `labels` puts in class `c`.
pub open spec fn members(labels: Seq<usize>, c: usize) -> Seq<usize> {
    members_upto(labels, c, labels.len() as int)
}

/// Reading one-hot rows back by the first largest entry of each row gives the
/// labeling they were made from.
pub proof fn lemma_one_hot_round_trip(labels: Seq<usize>, k: nat, back: Seq<usize>)
    requires
        labels_below(labels, k),
        is_row_argmax(one_hot_rows(labels, k), back),
    ensures
        back == labels,
{
    let rows = one_hot_rows(labels, k);
    assert forall|i: int| 0 <= i < labels.len() implies back[i] == labels[i] by {
        assert(<Vec<u64> as Ordered<u64>>::is_first_max(rows[i], back[i] as int));
        assert(labels[i] < k);
        assert(rows[i][labels[i] as int] == 1);
    }
    assert(back =~= labels);
}

proof fn lemma_members_empty(labels: Seq<usize>, c: usize, m: int)
    requires
        0 <= m <= labels.len(),
    ensures
        members_upto(labels, c, m).len() == 0 <==> forall|i: int| 0 <= i < m ==> labels[i] != c,
    decreases m,
{
    if m > 0 {
        lemma_members_empty(labels, c, m - 1);
    }
}

impl Discrete {
    /// One label per sample, each below the class count.
    pub open spec fn wf(&self) -> bool {
        &&& self.indicators@.len() == self.n_samples
        &&& labels_below(self.indicators@, self.n_classes as nat)
    }

    /// A reference labeling read from a data source; the class count is the
    /// number of distinct labels.
    pub fn new(targets: &Vec<usize>) -> (r: Discrete)
        ensures
            r.indicators@ == targets@,
            r.n_samples == targets@.len(),
            r.n_classes == targets@.to_set().len(),
    {
        let mut distinct: Vec<usize> = Vec::new();
        let mut i: usize = 0;
        while i < targets.len()
            invariant
                i <= targets@.len(),
                distinct@.no_duplicates(),
                forall|v: usize|
                    distinct@.contains(v) <==> exists|j: int| 0 <= j < i && #[trigger] targets@[j] == v,
            decreases targets@.len() - i,
        {
            let x = targets[i];
            let mut seen = false;
            let mut j: usize = 0;
            while j < distinct.len()
                invariant
                    j <= distinct@.len(),
                    seen <==> exists|q: int| 0 <= q < j && #[trigger] distinct@[q] == x,
                decreases distinct@.len() - j,
            {
                if distinct[j] == x {
                    seen = true;
                }
                j = j + 1;
            }
            let ghost previous = distinct@;
            if !seen {
                distinct.push(x);
            }
            proof {
                assert forall|v: usize|
                    distinct@.contains(v) <==> exists|j: int| 0 <= j < i + 1 && #[trigger] targets@[j] == v by {
                    if distinct@.contains(v) {
                        if v == x {
                            assert(targets@[i as int] == v);
                        } else {
                            let q = choose|q: int| 0 <= q < distinct@.len() && distinct@[q] == v;
                            assert(previous[q] == v);
                            assert(previous.contains(v));
                        }
                    }
                    if exists|j: int| 0 <= j < i + 1 && #[trigger] targets@[j] == v {
                        let j = choose|j: int| 0 <= j < i + 1 && #[trigger] targets@[j] == v;
                        if j == i {
                            if seen {
                                let q = choose|q: int| 0 <= q < previous.len() && #[trigger] previous[q] == x;
                                assert(distinct@[q] == v);
                            } else {
                                assert(distinct@[distinct@.len() - 1] == v);
                            }
                        } else {
                            assert(previous.contains(v));
                            let q = choose|q: int| 0 <= q < previous.len() && previous[q] == v;
                            assert(distinct@[q] == v);
                        }
                    }
                }
            }
            i = i + 1;
        }
        proof {
            distinct@.unique_seq_to_set();
            assert(distinct@.to_set() =~= targets@.to_set());
        }
        Discrete { indicators: targets.clone(), n_classes: distinct.len(), n_samples: targets.len() }
    }

    /// A labeling produced by a clustering procedure.
    pub fn from_prediction(pred: Vec<usize>, n_classes: usize) -> (r: Discrete)
        ensures
            r.indicators@ == pred@,
            r.n_samples == pred@.len(),
            r.n_classes == n_classes,
    {
        let n_samples = pred.len();
        Discrete { indicators: pred, n_classes, n_samples }
    }

    /// The labels, one per sample.
    pub fn to_vec(self) -> (r: Vec<usize>)
        ensures
            r@ == self.indicators@,
    {
        self.indicators
    }

    /// Row `i` holds 1 in the column of sample `i`'s class and 0 elsewhere.
    pub fn one_hot(&self) -> (r: Vec<Vec<u64>>)
        requires
            self.wf(),
        ensures
            scores_view(&r) == one_hot_rows(self.indicators@, self.n_classes as nat),
    {
        let k = self.n_classes;
        let mut rows: Vec<Vec<u64>> = Vec::new();
        let mut i: usize = 0;
        while i < self.indicators.len()
            invariant
                i <= self.indicators@.len(),
                k == self.n_classes,
                rows@.len() == i,
                forall|q: int| 0 <= q < i ==> #[trigger] rows@[q]@ == one_hot_row(self.indicators@[q], k as nat),
            decreases self.indicators@.len() - i,
        {
            let l = self.indicators[i];
            let mut row: Vec<u64> = Vec::new();
            let mut j: usize = 0;
            while j < k
                invariant
                    j <= k,
                    row@ =~= one_hot_row(l, k as nat).subrange(0, j as int),
                decreases k - j,
            {
                if j == l {
                    row.push(1);
                } else {
                    row.push(0);
                }
                j = j + 1;
            }
            rows.push(row);
            i = i + 1;
        }
        assert(scores_view(&rows) =~= one_hot_rows(self.indicators@, k as nat));
        rows
    }

    /// The labeling that puts each sample in the class of its row's largest
    /// score, the first such on ties. Fails if a row's length is not the class
    /// count, or if the rows are empty and so have no largest score.
    pub fn from_scores(scores: &Vec<Vec<u64>>, n_classes: usize) -> (r: Result<Discrete, SolutionError>)
        ensures
            r matches Err(e) ==> e == SolutionError::ShapeMismatch || e == SolutionError::DegenerateRow,
            r == Err::<Discrete, _>(SolutionError::ShapeMismatch) <==> exists|i: int|
                0 <= i < scores@.len() && #[trigger] scores@[i]@.len() != n_classes,
            r == Err::<Discrete, _>(SolutionError::DegenerateRow) <==> {
                &&& forall|i: int| 0 <= i < scores@.len() ==> #[trigger] scores@[i]@.len() == n_classes
                &&& n_classes == 0
                &&& scores@.len() > 0
            },
            r matches Ok(d) ==> {
                &&& d.wf()
                &&& d.n_classes == n_classes
                &&& d.n_samples == scores@.len()
                &&& is_row_argmax(scores_view(scores), d.indicators@)
            },
    {
        let mut i: usize = 0;
        while i < scores.len()
            invariant
                i <= scores@.len(),
                forall|q: int| 0 <= q < i ==> #[trigger] scores@[q]@.len() == n_classes,
            decreases scores@.len() - i,
        {
            if scores[i].len() != n_classes {
                return Err(SolutionError::ShapeMismatch);
            }
            i = i + 1;
        }
        let mut indicators: Vec<usize> = Vec::new();
        let mut i: usize = 0;
        while i < scores.len()
            invariant
                i <= scores@.len(),
                forall|q: int| 0 <= q < scores@.len() ==> #[trigger] scores@[q]@.len() == n_classes,
                indicators@.len() == i,
                i > 0 ==> n_classes > 0,
                labels_below(indicators@, n_classes as nat),
                forall|q: int|
                    0 <= q < i ==> #[trigger] <Vec<u64> as Ordered<u64>>::is_first_max(
                        scores@[q]@,
                        indicators@[q] as int,
                    ),
            decreases scores@.len() - i,
        {
            match scores[i].argmax() {
                Some(j) => {
                    indicators.push(j);
                },
                None => {
                    return Err(SolutionError::DegenerateRow);
                },
            }
            i = i + 1;
        }
        let n_samples = indicators.len();
        let d = Discrete { indicators, n_classes, n_samples };
        assert(is_row_argmax(scores_view(scores), d.indicators@)) by {
            assert forall|q: int| 0 <= q < scores@.len() implies #[trigger] <Vec<u64> as Ordered<u64>>::is_first_max(
                scores_view(scores)[q],
                d.indicators@[q] as int,
            ) by {
                assert(scores_view(scores)[q] == scores@[q]@);
            }
        }
        Ok(d)
    }

    /// The members of each class, as sample indices in increasing order.
    /// Fails if some class has no member.
    pub fn clusters(&self) -> (r: Result<Vec<Vec<usize>>, SolutionError>)
        requires
            self.wf(),
        ensures
            r is Err <==> exists|c: usize| c < self.n_classes && !#[trigger] self.indicators@.contains(c),
            r matches Err(e) ==> e == SolutionError::EmptyCluster,
            r matches Ok(g) ==> {
                &&& g@.len() == self.n_classes
                &&& forall|c: int| 0 <= c < self.n_classes ==> #[trigger] g@[c]@ == members(
                    self.indicators@,
                    c as usize,
                )
            },
    {
        let k = self.n_classes;
        let labels = &self.indicators;
        let mut groups: Vec<Vec<usize>> = Vec::new();
        let mut c: usize = 0;
        while c < k
            invariant
                c <= k,
                groups@.len() == c,
                forall|q: int| 0 <= q < c ==> #[trigger] groups@[q]@ == Seq::<usize>::empty(),
            decreases k - c,
        {
            groups.push(Vec::new());
            c = c + 1;
        }
        let mut i: usize = 0;
        while i < labels.len()
            invariant
                i <= labels@.len(),
                k == self.n_classes,
                labels@ == self.indicators@,
                labels_below(labels@, k as nat),
                groups@.len() == k,
                forall|q: int| 0 <= q < k ==> #[trigger] groups@[q]@ == members_upto(labels@, q as usize, i as int),
            decreases labels@.len() - i,
        {
            let l = labels[i];
            groups[l].push(i);
            i = i + 1;
        }
        let mut c: usize = 0;
        while c < k
            invariant
                c <= k,
                k == self.n_classes,
                labels@ == self.indicators@,
                groups@.len() == k,
                forall|q: int| 0 <= q < k ==> #[trigger] groups@[q]@ == members(labels@, q as usize),
                forall|q: usize| q < c ==> #[trigger] labels@.contains(q),
            decreases k - c,
        {
            proof {
                lemma_members_empty(labels@, c, labels@.len() as int);
            }
            if groups[c].len() == 0 {
                proof {
                    assert(!labels@.contains(c));
                }
                return Err(SolutionError::EmptyCluster);
            }
            proof {
                let w = choose|w: int| 0 <= w < labels@.len() && labels@[w] == c;
                assert(labels@[w] == c);
            }
            c = c + 1;
        }
        Ok(groups)
    }

    /// The bijection of this labeling's classes onto those of `truth` under
    /// which the two agree on the most samples, as the image of each class.
    pub fn alignment(&self, truth: &Discrete) -> (r: Result<Vec<usize>, SolutionError>)
        requires
            self.wf(),
            truth.wf(),
            self.n_classes == truth.n_classes,
            self.n_samples <= i32::MAX,
        ensures
            r is Err <==> self.n_samples != truth.n_samples,
            r matches Err(e) ==> e == SolutionError::ShapeMismatch,
            r matches Ok(m) ==> is_optimal_map(
                truth.indicators@,
                self.indicators@,
                self.n_classes as nat,
                m@,
            ),
    {
        if self.n_samples != truth.n_samples {
            return Err(SolutionError::ShapeMismatch);
        }
        let (_, mapping) = best_assignment(&self.indicators, &truth.indicators, self.n_classes);
        Ok(mapping)
    }

    /// This labeling with its classes renamed so that it agrees with `truth`
    /// on as many samples as any renaming can.
    pub fn matched_with(self, truth: &Discrete) -> (r: Result<Discrete, SolutionError>)
        requires
            self.wf(),
            truth.wf(),
            self.n_classes == truth.n_classes,
            self.n_samples <= i32::MAX,
        ensures
            r is Err <==> self.n_samples != truth.n_samples,
            r matches Err(e) ==> e == SolutionError::ShapeMismatch,
            r matches Ok(d) ==> {
                &&& d.wf()
                &&& d.n_classes == self.n_classes
                &&& d.n_samples == self.n_samples
                &&& is_aligned_labeling(
                    truth.indicators@,
                    self.indicators@,
                    self.n_classes as nat,
                    d.indicators@,
                )
            },
    {
        let mapping = match self.alignment(truth) {
            Ok(m) => m,
            Err(e) => return Err(e),
        };
        let indicators = apply_map(&self.indicators, &mapping);
        proof {
            assert(is_optimal_map(truth.indicators@, self.indicators@, self.n_classes as nat, mapping@));
            assert forall|i: int| 0 <= i < indicators@.len() implies #[trigger] indicators@[i] < self.n_classes by {
                assert(self.indicators@[i] < self.n_classes);
            }
        }
        Ok(Discrete { indicators, n_classes: self.n_classes, n_samples: self.n_samples })
    }
}

} // verus!
