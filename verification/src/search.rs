//! The sample budget of the per-item placement search.
//!
//! A fixed fraction (two tenths) of the samples refines the best pose found so far; the rest sample
//! the container uniformly. The split is integer arithmetic, so it never depends on float casts.
use vstd::prelude::*;

verus! {

/// Numerator of the refine fraction of the sample budget.
pub const LS_NUM: u64 = 2;

/// Denominator of the refine fraction of the sample budget.
pub const LS_DEN: u64 = 10;

/// Splits `budget` samples into `(uniform, refine)`: `refine = budget * 2 / 10` (rounded down)
/// and `uniform` the rest.
pub fn split_budget(budget: u64) -> (split: (u64, u64))
    requires
        budget * LS_NUM <= u64::MAX,
    ensures
        split.1 == budget * LS_NUM / (LS_DEN as int),
        split.0 + split.1 == budget,
{
    let ls_budget = budget * LS_NUM / LS_DEN;
    let uni_budget = budget - ls_budget;
    (uni_budget, ls_budget)
}

} // verus!
