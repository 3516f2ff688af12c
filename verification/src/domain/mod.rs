//! What the service speaks of: transactions and decisions.

pub mod fraud;
pub mod instant;
pub mod transaction;
