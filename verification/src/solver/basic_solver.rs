//! An exhaustive solver kept beside the naive one: both walk the same
//! enumeration and validate candidates the same way.

use vstd::prelude::*;

use crate::model::search::{SearchPool, SearchQuery, SearchResult};
use crate::solver::naive_solver::{exhaustive_results, exhaustive_search, views_of};
use crate::solver::Solver;

verus! {

/// An exhaustive solver; enumerates every combination of the budgeted size
/// over the filtered pool and keeps the valid ones.
pub struct BasicSolver;

impl Solver for BasicSolver {
    fn search(&self, pool: SearchPool, query: &SearchQuery) -> (results: Vec<SearchResult>)
        ensures
            views_of(results@) == exhaustive_results(pool, *query),
    {
        exhaustive_search(pool, query)
    }
}

} // verus!
