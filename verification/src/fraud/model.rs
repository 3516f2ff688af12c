//! What the probability that a model gives is taken for.

use vstd::prelude::*;

use crate::single::{has_no_value, is_nan, order, order_key};

verus! {

/// The bits of 0.20, up to which a request is taken for legitimate.
pub const LOW: u32 = 0x3e4c_cccd;

/// The bits of 0.95, from which on a request is taken for fraud.
pub const HIGH: u32 = 0x3f73_3333;

#[derive(Debug, Clone, Copy, PartialEq, Eq, Structural)]
pub enum Decision {
    Fraud,
    Legit,
    Uncertain,
}

/// What a probability of fraud, given by its bits, is taken for.
pub open spec fn decision(p: u32) -> Decision {
    if is_nan(p) {
        Decision::Uncertain
    } else if order(p) >= order(HIGH) {
        Decision::Fraud
    } else if order(p) <= order(LOW) {
        Decision::Legit
    } else {
        Decision::Uncertain
    }
}

/// What a probability of fraud, given by its bits, is taken for.
pub fn decide(p: u32) -> (r: Decision)
    ensures
        r == decision(p),
{
    if has_no_value(p) {
        return Decision::Uncertain;
    }
    let key = order_key(p);
    if key >= order_key(HIGH) {
        Decision::Fraud
    } else if key <= order_key(LOW) {
        Decision::Legit
    } else {
        Decision::Uncertain
    }
}

/// A higher probability is never taken for less: what is fraud stays so, and
/// what is legitimate was so before.
pub proof fn decisions_are_monotonic(p: u32, q: u32)
    requires
        !is_nan(p),
        !is_nan(q),
        order(p) <= order(q),
    ensures
        decision(p) is Fraud ==> decision(q) is Fraud,
        decision(q) is Legit ==> decision(p) is Legit,
{
}

/// A probability of at least 0.95 is taken for fraud, one of at most 0.20 and
/// whatever is negative for legitimate, and what lies between, or is no number,
/// for neither.
pub proof fn probabilities_decide(p: u32)
    ensures
        decision(p) is Fraud <==> 0x3f73_3333 <= p <= 0x7f80_0000,
        decision(p) is Legit <==> p <= 0x3e4c_cccd || 0x8000_0000 <= p <= 0xff80_0000,
        decision(p) is Uncertain <==> 0x3e4c_cccd < p < 0x3f73_3333 || 0x7f80_0000 < p
            < 0x8000_0000 || 0xff80_0000 < p,
{
}

} // verus!
