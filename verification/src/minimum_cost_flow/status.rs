use vstd::prelude::*;

verus! {

/// Outcome of a minimum-cost-flow solve.
#[derive(PartialEq, Eq, Structural, Debug, Clone, Copy)]
pub enum Status {
    NotSolved,
    BadInput,
    Unbalanced,
    Infeasible,
    Optimal,
}

impl Default for Status {
    fn default() -> (status: Self)
        ensures
            status == Status::NotSolved,
    {
        Status::NotSolved
    }
}

} // verus!
