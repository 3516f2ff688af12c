//! Decisions.

use vstd::prelude::*;

verus! {

/// What was decided on a transaction. The score is a fifth of the count.
#[derive(Debug, Clone, Copy, PartialEq, Eq, Structural)]
pub struct FraudDecision {
    pub approved: bool,
    pub fraud_count: usize,
}

} // verus!
