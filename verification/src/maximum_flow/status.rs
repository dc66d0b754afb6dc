use vstd::prelude::*;

verus! {

/// Outcome of a maximum-flow solve.
#[derive(PartialEq, Eq, Structural, Debug, Clone, Copy)]
pub enum Status {
    NotSolved,
    BadInput,
    Optimal,
}

impl Default for Status {
    fn default() -> (status: Self)
        ensures
            status == Status::NotSolved,
    {
        Status::NotSolved
    }
}

} // verus!
