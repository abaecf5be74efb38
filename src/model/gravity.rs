//! Options of the gravitational search.
use vstd::prelude::*;

verus! {

/// How far apart two agents' membership matrices are.
#[derive(Debug, Clone, Copy, PartialEq, Eq, Structural)]
pub enum Distance {
    Cosine,
    L2,
    LInf,
}

/// How an agent's membership matrix is brought back into range after a move.
#[derive(Debug, Clone, Copy, PartialEq, Eq, Structural)]
pub enum Normalization {
    Logistic,
    MinMax,
    ReLU,
}

} // verus!
