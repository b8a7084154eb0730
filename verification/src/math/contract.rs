//! The math package's own contract: it keeps no state and its message does nothing.
use vstd::prelude::*;

verus! {

/// Storage of the math package's contract: empty.
#[derive(Clone, Copy, Debug, Default, PartialEq, Eq, Structural)]
pub struct Contract {}

impl Contract {
    /// Creates the (empty) contract.
    pub fn new() -> (res: Contract)
        ensures
            res == (Contract {}),
    {
        Contract {}
    }

    /// A message that changes nothing.
    pub fn message(&self) {
    }
}

} // verus!
