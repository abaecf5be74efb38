//! The integer shape of a population-based search.
use vstd::prelude::*;

verus! {

/// Why a search could not be set up.
#[derive(Debug, Clone, Copy, PartialEq, Eq, Structural)]
pub enum ConfigError {
    /// Fewer than two agents: no pair of agents can interact.
    TooFewAgents,
    /// No iteration to run.
    NoIterations,
}

/// Class count, population size and iteration budget of one run.
#[derive(Debug, Clone, Copy, PartialEq, Eq, Structural)]
pub struct SearchShape {
    pub n_classes: usize,
    pub n_agents: usize,
    pub max_iterations: usize,
}

impl SearchShape {
    /// The shape is usable: at least two agents and at least one iteration.
    pub open spec fn wf(&self) -> bool {
        self.n_agents >= 2 && self.max_iterations >= 1
    }

    /// Checks a run's shape: a population of at least two agents and a budget
    /// of at least one iteration.
    pub fn new(n_classes: usize, n_agents: usize, max_iterations: usize) -> (r: Result<
        SearchShape,
        ConfigError,
    >)
        ensures
            r == Err::<SearchShape, _>(ConfigError::TooFewAgents) <==> n_agents < 2,
            r == Err::<SearchShape, _>(ConfigError::NoIterations) <==> n_agents >= 2
                && max_iterations == 0,
            r matches Ok(s) ==> s.wf() && s == (SearchShape { n_classes, n_agents, max_iterations }),
    {
        if n_agents < 2 {
            return Err(ConfigError::TooFewAgents);
        }
        if max_iterations == 0 {
            return Err(ConfigError::NoIterations);
        }
        Ok(SearchShape { n_classes, n_agents, max_iterations })
    }
}

/// The agent whose fitness stands in for those whose fitness could not be
/// computed (an empty class): the first of the lowest among the agents that
/// have one, fitness compared by order key. `None` when no agent has one.
pub fn lowest_evaluated(keys: &Vec<Option<u64>>) -> (r: Option<usize>)
    ensures
        r is None <==> forall|i: int| 0 <= i < keys@.len() ==> #[trigger] keys@[i] is None,
        r matches Some(j) ==> {
            &&& j < keys@.len()
            &&& keys@[j as int] is Some
            &&& forall|i: int|
                0 <= i < keys@.len() && #[trigger] keys@[i] is Some ==> keys@[j as int]->0 <= keys@[i]->0
            &&& forall|i: int|
                0 <= i < j && #[trigger] keys@[i] is Some ==> keys@[j as int]->0 < keys@[i]->0
        },
{
    let mut best: Option<usize> = None;
    let mut i: usize = 0;
    while i < keys.len()
        invariant
            i <= keys@.len(),
            best is None <==> forall|q: int| 0 <= q < i ==> #[trigger] keys@[q] is None,
            best matches Some(j) ==> {
                &&& j < i
                &&& keys@[j as int] is Some
                &&& forall|q: int|
                    0 <= q < i && #[trigger] keys@[q] is Some ==> keys@[j as int]->0 <= keys@[q]->0
                &&& forall|q: int|
                    0 <= q < j && #[trigger] keys@[q] is Some ==> keys@[j as int]->0 < keys@[q]->0
            },
        decreases keys@.len() - i,
    {
        if let Some(k) = keys[i] {
            match best {
                None => {
                    best = Some(i);
                },
                Some(j) => {
                    if let Some(b) = keys[j] {
                        if k < b {
                            best = Some(i);
                        }
                    }
                },
            }
        }
        i = i + 1;
    }
    best
}

} // verus!
