//! Optimal assignment of predicted class indices to reference class indices.
use vstd::prelude::*;
use pathfinding::prelude::{kuhn_munkres, Matrix};

verus! {

/// Every label of `labels` is a class index below `k`.
pub open spec fn labels_below(labels: Seq<usize>, k: nat) -> bool {
    forall|i: int| 0 <= i < labels.len() ==> #[trigger] labels[i] < k
}

/// `p` is a bijection on the class indices `0..k`.
pub open spec fn is_permutation(p: Seq<usize>, k: nat) -> bool {
    &&& p.len() == k
    &&& forall|i: int| 0 <= i < k ==> #[trigger] p[i] < k
    &&& forall|i: int, j: int| 0 <= i < k && 0 <= j < k && i != j ==> #[trigger] p[i] != #[trigger] p[j]
    &&& forall|v: usize| v < k ==> #[trigger] p.contains(v)
}

/// Each label replaced by its image under `map`.
pub open spec fn relabel(labels: Seq<usize>, map: Seq<usize>) -> Seq<usize> {
    labels.map_values(|x: usize| map[x as int])
}

/// Number of positions below `m` at which `a` and `b` hold the same label.
pub open spec fn agreement_upto(a: Seq<usize>, b: Seq<usize>, m: int) -> nat
    decreases m,
{
    if m <= 0 {
        0
    } else {
        agreement_upto(a, b, m - 1) + if a[m - 1] == b[m - 1] {
            1nat
        } else {
            0nat
        }
    }
}

/// Number of positions at which `a` and `b` hold the same label.
pub open spec fn agreement(a: Seq<usize>, b: Seq<usize>) -> nat {
    agreement_upto(a, b, a.len() as int)
}

/// Number of samples below `m` that are predicted `p` and truly `t`.
pub open spec fn co_count(pred: Seq<usize>, truth: Seq<usize>, m: int, p: int, t: int) -> nat
    decreases m,
{
    if m <= 0 {
        0
    } else {
        co_count(pred, truth, m - 1, p, t) + if pred[m - 1] == p && truth[m - 1] == t {
            1nat
        } else {
            0nat
        }
    }
}

/// A weight matrix as rows of values.
pub open spec fn grid_view(w: &Vec<Vec<i64>>) -> Seq<Seq<i64>> {
    w@.map_values(|r: Vec<i64>| r@)
}

/// `w` has as many columns in each row as it has rows.
pub open spec fn is_square(w: Seq<Seq<i64>>) -> bool {
    forall|i: int| 0 <= i < w.len() ==> #[trigger] w[i].len() == w.len()
}

/// No weight of `w` is negative.
pub open spec fn is_nonnegative(w: Seq<Seq<i64>>) -> bool {
    forall|i: int, j: int| 0 <= i < w.len() && 0 <= j < w[i].len() ==> 0 <= #[trigger] w[i][j]
}

/// Sum of a row.
pub open spec fn row_total(r: Seq<i64>) -> int
    decreases r.len(),
{
    if r.len() == 0 {
        0
    } else {
        row_total(r.drop_last()) + r.last()
    }
}

/// Sum of all the weights of `w`.
pub open spec fn grid_total(w: Seq<Seq<i64>>) -> int
    decreases w.len(),
{
    if w.len() == 0 {
        0
    } else {
        grid_total(w.drop_last()) + row_total(w.last())
    }
}

/// Total weight of the first `n` rows when row `i` is given column `p[i]`.
pub open spec fn assignment_weight(w: Seq<Seq<i64>>, p: Seq<usize>, n: int) -> int
    decreases n,
{
    if n <= 0 {
        0
    } else {
        assignment_weight(w, p, n - 1) + w[n - 1][p[n - 1] as int]
    }
}

/// `map` is a bijection on `0..k` under which `pred` agrees with `truth` on as
/// many samples as under any other bijection.
pub open spec fn is_optimal_map(truth: Seq<usize>, pred: Seq<usize>, k: nat, map: Seq<usize>) -> bool {
    &&& is_permutation(map, k)
    &&& forall|s: Seq<usize>|
        is_permutation(s, k) ==> #[trigger] agreement(truth, relabel(pred, s)) <= agreement(
            truth,
            relabel(pred, map),
        )
}

/// `v` is the largest agreement with `truth` that a bijection on `0..k` can
/// give `pred`.
pub open spec fn is_best_agreement(truth: Seq<usize>, pred: Seq<usize>, k: nat, v: int) -> bool {
    &&& exists|s: Seq<usize>| is_permutation(s, k) && #[trigger] agreement(truth, relabel(pred, s)) == v
    &&& forall|s: Seq<usize>| is_permutation(s, k) ==> #[trigger] agreement(truth, relabel(pred, s)) <= v
}

/// The identity on `0..k`.
pub open spec fn identity_map(k: nat) -> Seq<usize> {
    Seq::new(k, |i: int| i as usize)
}

pub proof fn lemma_agreement_bound(a: Seq<usize>, b: Seq<usize>, m: int)
    requires
        0 <= m,
    ensures
        agreement_upto(a, b, m) <= m,
    decreases m,
{
    if m > 0 {
        lemma_agreement_bound(a, b, m - 1);
    }
}

/// Agreement on every one of the first `m` positions is agreement at each.
pub proof fn lemma_agreement_full(a: Seq<usize>, b: Seq<usize>, m: int)
    requires
        0 <= m <= a.len(),
        m <= b.len(),
    ensures
        agreement_upto(a, b, m) == m <==> forall|i: int| 0 <= i < m ==> a[i] == b[i],
    decreases m,
{
    if m > 0 {
        lemma_agreement_full(a, b, m - 1);
        lemma_agreement_bound(a, b, m - 1);
    }
}

/// The identity is a bijection and renames nothing.
pub proof fn lemma_identity_map(labels: Seq<usize>, k: nat)
    requires
        labels_below(labels, k),
        k <= usize::MAX,
    ensures
        is_permutation(identity_map(k), k),
        relabel(labels, identity_map(k)) == labels,
{
    let id = identity_map(k);
    assert forall|v: usize| v < k implies #[trigger] id.contains(v) by {
        assert(id[v as int] == v);
    }
    assert(relabel(labels, id) =~= labels);
}

/// Every bijection on `0..k` has an inverse that is a bijection too.
pub proof fn lemma_inverse_map(p: Seq<usize>, k: nat) -> (q: Seq<usize>)
    requires
        is_permutation(p, k),
        k <= usize::MAX,
    ensures
        is_permutation(q, k),
        forall|i: int| 0 <= i < k ==> #[trigger] q[p[i] as int] == i,
        forall|j: int| 0 <= j < k ==> #[trigger] p[q[j] as int] == j,
{
    let q = Seq::new(k, |j: int| choose|i: usize| i < k && p[i as int] == j);
    assert forall|j: int| 0 <= j < k implies #[trigger] q[j] < k && p[q[j] as int] == j by {
        assert(p.contains(j as usize));
        let i = choose|i: int| 0 <= i < p.len() && p[i] == j as usize;
        let w = i as usize;
        assert(w < k && p[w as int] == j);
    }
    assert forall|i: int| 0 <= i < k implies #[trigger] q[p[i] as int] == i by {
        let j = p[i] as int;
        assert(p[q[j] as int] == j);
    }
    assert forall|v: usize| v < k implies #[trigger] q.contains(v) by {
        assert(q[p[v as int] as int] == v);
    }
    assert forall|a: int, b: int| 0 <= a < k && 0 <= b < k && a != b implies #[trigger] q[a] != #[trigger] q[b] by {
        assert(p[q[a] as int] == a);
        assert(p[q[b] as int] == b);
    }
    q
}

/// Renaming by `m` and then by `s` is renaming by their composition, which is
/// a bijection when both are.
pub proof fn lemma_compose_maps(labels: Seq<usize>, m: Seq<usize>, s: Seq<usize>, k: nat) -> (c: Seq<usize>)
    requires
        labels_below(labels, k),
        is_permutation(m, k),
        is_permutation(s, k),
        k <= usize::MAX,
    ensures
        is_permutation(c, k),
        relabel(relabel(labels, m), s) == relabel(labels, c),
{
    let c = Seq::new(k, |x: int| s[m[x] as int]);
    assert forall|x: int| 0 <= x < k implies #[trigger] c[x] < k by {
        assert(m[x] < k);
    }
    assert forall|a: int, b: int| 0 <= a < k && 0 <= b < k && a != b implies #[trigger] c[a] != #[trigger] c[b] by {
        assert(m[a] != m[b]);
    }
    assert forall|v: usize| v < k implies #[trigger] c.contains(v) by {
        assert(s.contains(v));
        let u = choose|u: int| 0 <= u < s.len() && s[u] == v;
        let w = u as usize;
        assert(m.contains(w));
        let x = choose|x: int| 0 <= x < m.len() && m[x] == w;
        assert(c[x] == v);
    }
    assert(relabel(relabel(labels, m), s) =~= relabel(labels, c)) by {
        assert forall|i: int| 0 <= i < labels.len() implies #[trigger] relabel(relabel(labels, m), s)[i]
            == relabel(labels, c)[i] by {
            assert(labels[i] < k);
        }
    }
    c
}

/// Relies on pathfinding's `kuhn_munkres` (with `Matrix::from_fn` to hold the
/// weights): on a square matrix it gives every row a distinct column so that
/// the total weight is the largest over all such assignments, and returns that
/// total with the column of each row. Non-negative weights of bounded total
/// keep its arithmetic from overflowing, where it would panic.
#[verifier::external_body]
fn max_weight_assignment(weights: &Vec<Vec<i64>>) -> (r: (i64, Vec<usize>))
    requires
        is_square(grid_view(weights)),
        is_nonnegative(grid_view(weights)),
        grid_total(grid_view(weights)) <= i32::MAX,
    ensures
        is_permutation(r.1@, weights@.len()),
        r.0 == assignment_weight(grid_view(weights), r.1@, weights@.len() as int),
        forall|p: Seq<usize>|
            is_permutation(p, weights@.len()) ==> #[trigger] assignment_weight(
                grid_view(weights),
                p,
                weights@.len() as int,
            ) <= r.0,
{
    let n = weights.len();
    let matrix = Matrix::from_fn(n, n, |(row, column)| weights[row][column]);
    kuhn_munkres(&matrix)
}

proof fn lemma_row_total_update(r: Seq<i64>, j: int, v: i64)
    requires
        0 <= j < r.len(),
    ensures
        row_total(r.update(j, v)) == row_total(r) - r[j] + v,
    decreases r.len(),
{
    let u = r.update(j, v);
    if j == r.len() - 1 {
        assert(u.drop_last() =~= r.drop_last());
    } else {
        assert(u.drop_last() =~= r.drop_last().update(j, v));
        lemma_row_total_update(r.drop_last(), j, v);
    }
}

proof fn lemma_grid_total_update(w: Seq<Seq<i64>>, i: int, row: Seq<i64>)
    requires
        0 <= i < w.len(),
    ensures
        grid_total(w.update(i, row)) == grid_total(w) - row_total(w[i]) + row_total(row),
    decreases w.len(),
{
    let u = w.update(i, row);
    if i == w.len() - 1 {
        assert(u.drop_last() =~= w.drop_last());
    } else {
        assert(u.drop_last() =~= w.drop_last().update(i, row));
        lemma_grid_total_update(w.drop_last(), i, row);
    }
}

proof fn lemma_co_count_bound(pred: Seq<usize>, truth: Seq<usize>, m: int, p: int, t: int)
    requires
        0 <= m,
    ensures
        co_count(pred, truth, m, p, t) <= m,
    decreases m,
{
    if m > 0 {
        lemma_co_count_bound(pred, truth, m - 1, p, t);
    }
}

/// Sum over the rows `p < r` of the samples below `m` predicted `p` and truly `sigma[p]`.
spec fn matched_count(pred: Seq<usize>, truth: Seq<usize>, sigma: Seq<usize>, m: int, r: int) -> nat
    decreases r,
{
    if r <= 0 {
        0
    } else {
        matched_count(pred, truth, sigma, m, r - 1) + co_count(
            pred,
            truth,
            m,
            r - 1,
            sigma[r - 1] as int,
        )
    }
}

proof fn lemma_matched_count_empty(pred: Seq<usize>, truth: Seq<usize>, sigma: Seq<usize>, r: int)
    ensures
        matched_count(pred, truth, sigma, 0, r) == 0,
    decreases r,
{
    if r > 0 {
        lemma_matched_count_empty(pred, truth, sigma, r - 1);
    }
}

proof fn lemma_matched_count_step(
    pred: Seq<usize>,
    truth: Seq<usize>,
    sigma: Seq<usize>,
    m: int,
    r: int,
)
    requires
        0 <= m,
    ensures
        matched_count(pred, truth, sigma, m + 1, r) == matched_count(pred, truth, sigma, m, r) + if pred[m]
            < r && sigma[pred[m] as int] == truth[m] {
            1nat
        } else {
            0nat
        },
    decreases r,
{
    if r > 0 {
        lemma_matched_count_step(pred, truth, sigma, m, r - 1);
    }
}

proof fn lemma_matched_count_agreement(
    pred: Seq<usize>,
    truth: Seq<usize>,
    sigma: Seq<usize>,
    k: nat,
    m: int,
)
    requires
        0 <= m <= pred.len(),
        pred.len() == truth.len(),
        labels_below(pred, k),
        sigma.len() == k,
    ensures
        matched_count(pred, truth, sigma, m, k as int) == agreement_upto(truth, relabel(pred, sigma), m),
    decreases m,
{
    if m == 0 {
        lemma_matched_count_empty(pred, truth, sigma, k as int);
    } else {
        lemma_matched_count_agreement(pred, truth, sigma, k, m - 1);
        lemma_matched_count_step(pred, truth, sigma, m - 1, k as int);
        assert(pred[m - 1] < k);
    }
}

proof fn lemma_weight_matched_count(
    w: Seq<Seq<i64>>,
    pred: Seq<usize>,
    truth: Seq<usize>,
    sigma: Seq<usize>,
    k: nat,
    r: int,
)
    requires
        0 <= r <= k,
        w.len() == k,
        is_permutation(sigma, k),
        forall|p: int, t: int|
            0 <= p < k && 0 <= t < k ==> #[trigger] w[p][t] == co_count(pred, truth, pred.len() as int, p, t),
    ensures
        assignment_weight(w, sigma, r) == matched_count(pred, truth, sigma, pred.len() as int, r),
    decreases r,
{
    if r > 0 {
        lemma_weight_matched_count(w, pred, truth, sigma, k, r - 1);
        assert(sigma[r - 1] < k);
    }
}

/// The weight of a bijection in the co-occurrence table is the agreement of
/// the labeling it produces with the reference.
proof fn lemma_weight_is_agreement(
    w: Seq<Seq<i64>>,
    pred: Seq<usize>,
    truth: Seq<usize>,
    sigma: Seq<usize>,
    k: nat,
)
    requires
        w.len() == k,
        pred.len() == truth.len(),
        labels_below(pred, k),
        is_permutation(sigma, k),
        forall|p: int, t: int|
            0 <= p < k && 0 <= t < k ==> #[trigger] w[p][t] == co_count(pred, truth, pred.len() as int, p, t),
    ensures
        assignment_weight(w, sigma, k as int) == agreement(truth, relabel(pred, sigma)),
{
    lemma_weight_matched_count(w, pred, truth, sigma, k, k as int);
    lemma_matched_count_agreement(pred, truth, sigma, k, pred.len() as int);
}

/// The k-by-k table whose cell (p, t) counts the samples predicted `p` whose
/// reference label is `t`. Rows stand for predicted classes, so that an
/// assignment read row by row maps predicted labels to reference labels.
fn co_occurrence(pred: &Vec<usize>, truth: &Vec<usize>, k: usize) -> (counts: Vec<Vec<i64>>)
    requires
        pred@.len() == truth@.len(),
        pred@.len() <= i32::MAX,
        labels_below(pred@, k as nat),
        labels_below(truth@, k as nat),
    ensures
        counts@.len() == k,
        is_square(grid_view(&counts)),
        is_nonnegative(grid_view(&counts)),
        grid_total(grid_view(&counts)) == pred@.len(),
        forall|p: int, t: int|
            0 <= p < k && 0 <= t < k ==> #[trigger] grid_view(&counts)[p][t] == co_count(
                pred@,
                truth@,
                pred@.len() as int,
                p,
                t,
            ),
{
    let mut counts: Vec<Vec<i64>> = Vec::new();
    let mut r: usize = 0;
    while r < k
        invariant
            r <= k,
            counts@.len() == r,
            forall|q: int| 0 <= q < r ==> #[trigger] counts@[q]@.len() == k,
            forall|q: int, t: int| 0 <= q < r && 0 <= t < k ==> #[trigger] counts@[q]@[t] == 0,
            grid_total(grid_view(&counts)) == 0,
        decreases k - r,
    {
        let mut row: Vec<i64> = Vec::new();
        let mut c: usize = 0;
        while c < k
            invariant
                c <= k,
                row@.len() == c,
                forall|t: int| 0 <= t < c ==> #[trigger] row@[t] == 0,
                row_total(row@) == 0,
            decreases k - c,
        {
            proof {
                assert(row@.push(0i64).drop_last() =~= row@);
            }
            row.push(0);
            c = c + 1;
        }
        proof {
            assert(grid_view(&counts).push(row@).drop_last() =~= grid_view(&counts));
        }
        let ghost before = grid_view(&counts);
        counts.push(row);
        proof {
            assert(grid_view(&counts) =~= before.push(row@));
        }
        r = r + 1;
    }
    let n = pred.len();
    let mut i: usize = 0;
    while i < n
        invariant
            i <= n,
            n == pred@.len(),
            n == truth@.len(),
            n <= i32::MAX,
            labels_below(pred@, k as nat),
            labels_below(truth@, k as nat),
            counts@.len() == k,
            forall|q: int| 0 <= q < k ==> #[trigger] counts@[q]@.len() == k,
            forall|q: int, t: int|
                0 <= q < k && 0 <= t < k ==> #[trigger] counts@[q]@[t] == co_count(
                    pred@,
                    truth@,
                    i as int,
                    q,
                    t,
                ),
            grid_total(grid_view(&counts)) == i,
        decreases n - i,
    {
        let p = pred[i];
        let t = truth[i];
        proof {
            lemma_co_count_bound(pred@, truth@, i as int, p as int, t as int);
        }
        let ghost before = grid_view(&counts);
        let v = counts[p][t];
        counts[p][t] = v + 1;
        proof {
            assert(grid_view(&counts) =~= before.update(p as int, before[p as int].update(t as int, (v + 1) as i64)));
            lemma_row_total_update(before[p as int], t as int, (v + 1) as i64);
            lemma_grid_total_update(before, p as int, before[p as int].update(t as int, (v + 1) as i64));
            assert forall|q: int, u: int| 0 <= q < k && 0 <= u < k implies #[trigger] counts@[q]@[u]
                == co_count(pred@, truth@, i + 1, q, u) by {
                assert(counts@[q]@[u] == grid_view(&counts)[q][u]);
            }
        }
        i = i + 1;
    }
    proof {
        assert forall|q: int, u: int| 0 <= q < k && 0 <= u < k implies #[trigger] grid_view(&counts)[q][u]
            == co_count(pred@, truth@, n as int, q, u) by {
            assert(counts@[q]@[u] == grid_view(&counts)[q][u]);
        }
        assert forall|q: int| 0 <= q < k implies #[trigger] grid_view(&counts)[q].len() == k by {
            assert(counts@[q]@.len() == grid_view(&counts)[q].len());
        }
    }
    counts
}

/// A bijection of predicted classes onto reference classes that maximises the
/// number of samples on which the relabeled prediction agrees with `truth`,
/// with that number.
pub(crate) fn best_assignment(pred: &Vec<usize>, truth: &Vec<usize>, k: usize) -> (r: (i64, Vec<usize>))
    requires
        pred@.len() == truth@.len(),
        pred@.len() <= i32::MAX,
        labels_below(pred@, k as nat),
        labels_below(truth@, k as nat),
    ensures
        is_optimal_map(truth@, pred@, k as nat, r.1@),
        r.0 == agreement(truth@, relabel(pred@, r.1@)),
{
    let counts = co_occurrence(pred, truth, k);
    let (score, map) = max_weight_assignment(&counts);
    proof {
        let w = grid_view(&counts);
        lemma_weight_is_agreement(w, pred@, truth@, map@, k as nat);
        assert forall|s: Seq<usize>| is_permutation(s, k as nat) implies #[trigger] agreement(
            truth@,
            relabel(pred@, s),
        ) <= agreement(truth@, relabel(pred@, map@)) by {
            lemma_weight_is_agreement(w, pred@, truth@, s, k as nat);
        }
    }
    (score, map)
}

/// Each label of `labels` replaced by its image under `map`.
pub(crate) fn apply_map(labels: &Vec<usize>, map: &Vec<usize>) -> (r: Vec<usize>)
    requires
        labels_below(labels@, map@.len()),
    ensures
        r@ == relabel(labels@, map@),
{
    let mut out: Vec<usize> = Vec::new();
    let mut i: usize = 0;
    while i < labels.len()
        invariant
            i <= labels@.len(),
            labels_below(labels@, map@.len()),
            out@ =~= relabel(labels@, map@).subrange(0, i as int),
        decreases labels@.len() - i,
    {
        out.push(map[labels[i]]);
        i = i + 1;
    }
    out
}

} // verus!
