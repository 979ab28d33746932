//! The solver layer: one capability, `search(pool, query)`, implemented by an
//! exhaustive strategy and by an evolutionary strategy.

use vstd::prelude::*;

pub mod basic_solver;
pub mod enumeration;
pub mod genetic_solver;
pub mod laws;
pub mod naive_solver;
pub mod util;

pub use basic_solver::BasicSolver;
pub use genetic_solver::GeneticSolver;
pub use naive_solver::NaiveSolver;

use crate::model::search::{result_satisfies, SearchPool, SearchQuery, SearchResult};

verus! {

/// One search strategy. Every returned build genuinely satisfies the query:
/// soundness is promised by the trait itself; what else holds of the returned
/// list is each strategy's own, stronger contract.
pub trait Solver {
    fn search(&self, pool: SearchPool, query: &SearchQuery) -> (results: Vec<SearchResult>)
        requires
            query.desired_traits.wf(),
        ensures
            forall|i: int| 0 <= i < results@.len() ==> result_satisfies(
                (#[trigger] results@[i])@,
                query.desired_traits@,
            ),
    ;
}

} // verus!
