//! Decisions of the whale (spiral) search.
use vstd::prelude::*;
use rand::rngs::ThreadRng;
use crate::utilities::sampling::ExtendedRng;

verus! {

/// What an agent does in one iteration of the whale search.
#[derive(Debug, Clone, Copy, PartialEq, Eq, Structural)]
pub enum WhaleMove {
    /// Close in on the best agent.
    Encircle,
    /// Move relative to another agent chosen at random.
    Explore,
    /// Approach the best agent along a logarithmic spiral.
    Spiral,
}

/// The decay coefficient `2 - 2 * time / max_iterations` is below 1; both
/// sides are scaled by `max_iterations`.
pub open spec fn decay_below_one(time: int, max_iterations: int) -> bool {
    2 * max_iterations - 2 * time < max_iterations
}

/// The move of an agent at iteration `time`: a spiral unless the agent's draw
/// sent it searching; a search encircles the best agent once the decay
/// coefficient has fallen below 1, and explores before.
pub fn whale_move(time: usize, max_iterations: usize, search: bool) -> (r: WhaleMove)
    requires
        time < max_iterations,
    ensures
        r == if !search {
            WhaleMove::Spiral
        } else if decay_below_one(time as int, max_iterations as int) {
            WhaleMove::Encircle
        } else {
            WhaleMove::Explore
        },
{
    if !search {
        WhaleMove::Spiral
    } else if max_iterations - time < time {
        WhaleMove::Encircle
    } else {
        WhaleMove::Explore
    }
}

/// The (row, column) cell that position `flat` of a row-major matrix with
/// `n_columns` columns denotes.
pub fn coordinate(flat: usize, n_columns: usize) -> (r: (usize, usize))
    requires
        n_columns > 0,
    ensures
        r.0 * n_columns + r.1 == flat,
        r.1 < n_columns,
{
    let row = flat / n_columns;
    let column = flat % n_columns;
    assert(row * n_columns + column == flat) by (nonlinear_arith)
        requires
            row == flat / n_columns,
            column == flat % n_columns,
            n_columns > 0,
    ;
    (row, column)
}

/// Two distinct cells of an `n_rows` by `n_columns` matrix, drawn at random:
/// the cells that a spiral move updates.
pub fn spiral_cells(rng: &mut ThreadRng, n_rows: usize, n_columns: usize) -> (r: (
    (usize, usize),
    (usize, usize),
))
    requires
        n_rows * n_columns >= 2,
        n_rows * n_columns <= usize::MAX,
    ensures
        r.0.0 < n_rows && r.0.1 < n_columns,
        r.1.0 < n_rows && r.1.1 < n_columns,
        r.0 != r.1,
{
    let n_cells = n_rows * n_columns;
    assert(n_columns > 0) by (nonlinear_arith)
        requires
            n_rows * n_columns >= 2,
    ;
    let (a, b) = rng.gen_distinct_pair_range(0..n_cells);
    let x = coordinate(a, n_columns);
    let y = coordinate(b, n_columns);
    assert(x.0 < n_rows) by (nonlinear_arith)
        requires
            x.0 * n_columns + x.1 == a,
            a < n_rows * n_columns,
            n_columns > 0,
            x.1 >= 0,
    ;
    assert(y.0 < n_rows) by (nonlinear_arith)
        requires
            y.0 * n_columns + y.1 == b,
            b < n_rows * n_columns,
            n_columns > 0,
            y.1 >= 0,
    ;
    (x, y)
}

} // verus!
